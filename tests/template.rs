use affected::cli::{Args, RequiredArgs, RunCommand, CARGO_BUILD_TEMPLATE, CARGO_TEST_TEMPLATE};
use affected::template::{command_from_words, generate_command, select_bindings, CommandError};
use affected::workspace::{PackageRecord, Workspace};

fn names(list: &[&str]) -> Vec<String> {
    list.iter().map(|s| s.to_string()).collect()
}

fn workspace() -> Workspace {
    let records: Vec<PackageRecord> = ["core", "util", "app"]
        .iter()
        .map(|n| PackageRecord {
            name: n.to_string(),
            manifest: format!("/ws/{}/Cargo.toml", n),
            dependencies: Vec::new(),
        })
        .collect();
    Workspace::build("/ws", &records)
}

#[test]
fn packages_loop_renders_one_flag_per_package() {
    let ws = workspace();
    let cmd = generate_command(
        "build {% for pkg in packages %} -p {{pkg}} {% endfor %}",
        &ws,
        &names(&["core", "util"]),
        &Vec::new(),
    );
    match cmd {
        Ok(c) => {
            assert_eq!(c.program, "build");
            assert_eq!(c.args, names(&["-p", "core", "-p", "util"]));
        }
        Err(_) => panic!("rendering failed"),
    }
}

#[test]
fn excludes_and_args_are_bound() {
    let ws = workspace();
    let cmd = generate_command(
        "run {% for e in excludes %}--exclude {{ e }} {% endfor %}{% for a in args %}{{ a }} {% endfor %}",
        &ws,
        &names(&["core"]),
        &names(&["--release", "two words"]),
    );
    match cmd {
        Ok(c) => {
            assert_eq!(c.program, "run");
            assert_eq!(c.args, names(&["--exclude", "app", "--exclude", "util", "--release", "two", "words"]));
        }
        Err(_) => panic!("rendering failed"),
    }
}

#[test]
fn unknown_variable_is_refused_by_name() {
    let ws = workspace();
    match generate_command("build {{unknown}}", &ws, &names(&["core"]), &Vec::new()) {
        Err(CommandError::Unsupported(v)) => assert_eq!(v, "unknown"),
        _ => panic!("expected an unsupported variable"),
    }
}

#[test]
fn unparsable_template_is_a_template_error() {
    let ws = workspace();
    assert!(matches!(
        generate_command("build {% for %}", &ws, &Vec::new(), &Vec::new()),
        Err(CommandError::Template(_))
    ));
}

#[test]
fn unbalanced_quote_is_a_split_error() {
    let ws = workspace();
    assert!(matches!(
        generate_command("echo \"open", &ws, &Vec::new(), &Vec::new()),
        Err(CommandError::Split(_))
    ));
}

#[test]
fn empty_rendering_names_no_program() {
    let ws = workspace();
    assert!(matches!(
        generate_command("{% for pkg in packages %}{{ pkg }}{% endfor %}", &ws, &Vec::new(), &Vec::new()),
        Err(CommandError::NoProgram)
    ));
}

#[test]
fn quoted_words_stay_whole() {
    let ws = workspace();
    match generate_command("sh -c 'echo {% for a in args %}{{ a }}{% endfor %}'", &ws, &Vec::new(), &names(&["hi"])) {
        Ok(c) => {
            assert_eq!(c.program, "sh");
            assert_eq!(c.args, names(&["-c", "echo hi"]));
        }
        Err(_) => panic!("rendering failed"),
    }
}

#[test]
fn select_bindings_refuses_first_unknown() {
    let r = select_bindings(&names(&["packages", "foo", "bar"]), &Vec::new(), &Vec::new(), &Vec::new());
    match r {
        Err(CommandError::Unsupported(v)) => assert_eq!(v, "foo"),
        _ => panic!("expected an unsupported variable"),
    }
}

#[test]
fn select_bindings_orders_bindings() {
    let r = select_bindings(&names(&["args", "packages"]), &names(&["core"]), &names(&["util"]), &names(&["-q"]));
    match r {
        Ok(b) => assert_eq!(
            b,
            vec![("packages".to_string(), names(&["core"])), ("args".to_string(), names(&["-q"]))]
        ),
        Err(_) => panic!("expected bindings"),
    }
}

#[test]
fn command_from_words_splits_program() {
    match command_from_words(names(&["cargo", "test", "-p", "core"])) {
        Ok(c) => {
            assert_eq!(c.program, "cargo");
            assert_eq!(c.args, names(&["test", "-p", "core"]));
        }
        Err(_) => panic!("expected a command"),
    }
    assert!(matches!(command_from_words(Vec::new()), Err(CommandError::NoProgram)));
}

#[test]
fn builtin_test_template_renders() {
    let ws = workspace();
    match generate_command(CARGO_TEST_TEMPLATE, &ws, &names(&["core"]), &names(&["--", "--nocapture"])) {
        Ok(c) => {
            assert_eq!(c.program, "cargo");
            assert_eq!(c.args, names(&["test", "-p", "core", "--", "--nocapture"]));
        }
        Err(_) => panic!("rendering failed"),
    }
}

fn required() -> RequiredArgs {
    RequiredArgs { input: Some("/ws".to_string()), no_run: true, args: names(&["-q"]) }
}

#[test]
fn subcommands_give_their_templates() {
    let t = RunCommand::Test(required());
    assert_eq!(t.command().as_deref(), Some(CARGO_TEST_TEMPLATE));
    assert_eq!(t.required_args().args, names(&["-q"]));
    let b = RunCommand::Build(required());
    assert_eq!(b.command().as_deref(), Some(CARGO_BUILD_TEMPLATE));
    let r = RunCommand::Run(Args { command: Some("echo hi".to_string()), required: required() });
    assert_eq!(r.command().as_deref(), Some("echo hi"));
    assert_eq!(r.required_args().input.as_deref(), Some("/ws"));
    let none = RunCommand::Run(Args { command: None, required: required() });
    assert!(none.command().is_none());
}
