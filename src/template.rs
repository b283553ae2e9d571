//! The command template: which variables it reads, what it renders to, and
//! the command line that the rendered text splits into.
use vstd::prelude::*;
use std::collections::HashMap;
use minijinja::{Environment, Value};
use crate::names::{views, strictly_sorted};
use crate::workspace::{Workspace, excluded, generate_exclude_list};

verus! {

#[verifier::external_type_specification]
#[verifier::external_body]
pub struct ExTemplateError(minijinja::Error);

#[verifier::external_type_specification]
#[verifier::external_body]
pub struct ExSplitError(shell_words::ParseError);

/// The variables that a template reads without declaring them, or `None`
/// where it does not parse.
pub uninterp spec fn template_variables(template: Seq<char>) -> Option<Set<Seq<char>>>;

/// The text that a template renders to with the given bindings, or `None`
/// where rendering fails.
pub uninterp spec fn rendered(template: Seq<char>, bindings: Seq<(Seq<char>, Seq<Seq<char>>)>) -> Option<Seq<char>>;

/// The words of a shell-quoted text, or `None` where its quoting is
/// unbalanced.
pub uninterp spec fn shell_split(text: Seq<char>) -> Option<Seq<Seq<char>>>;

/// A command ready to run: the program and its arguments.
pub struct CommandLine {
    pub program: String,
    pub args: Vec<String>,
}

/// Why no command could be made from a template.
pub enum CommandError {
    /// The template does not parse, or does not render.
    Template(minijinja::Error),
    /// The template reads a variable other than `packages`, `excludes` and
    /// `args`.
    Unsupported(String),
    /// The rendered text has unbalanced quoting.
    Split(shell_words::ParseError),
    /// The rendered text holds no word, so names no program.
    NoProgram,
}

pub open spec fn supported(v: Seq<char>) -> bool {
    v == "packages"@ || v == "excludes"@ || v == "args"@
}

pub open spec fn binding_views(b: Seq<(String, Vec<String>)>) -> Seq<(Seq<char>, Seq<Seq<char>>)> {
    b.map_values(|e: (String, Vec<String>)| (e.0@, views(e.1@)))
}

/// The bindings for the variables `vars`, in a fixed order.
pub open spec fn bindings_for(
    vars: Set<Seq<char>>,
    packages: Seq<Seq<char>>,
    excludes: Seq<Seq<char>>,
    args: Seq<Seq<char>>,
) -> Seq<(Seq<char>, Seq<Seq<char>>)> {
    (if vars.contains("packages"@) { seq![("packages"@, packages)] } else { Seq::empty() })
        + (if vars.contains("excludes"@) { seq![("excludes"@, excludes)] } else { Seq::empty() })
        + (if vars.contains("args"@) { seq![("args"@, args)] } else { Seq::empty() })
}

/// Relies on minijinja's Environment::add_template, which fails only on a
/// syntax error, and Template::undeclared_variables, whose set depends on
/// the template alone.
#[verifier::external_body]
fn parse_variables(template: &str) -> (r: Result<Vec<String>, minijinja::Error>)
    ensures
        match r {
            Ok(v) => template_variables(template@) == Some(views(v@).to_set()),
            Err(_) => template_variables(template@) is None,
        },
{
    let mut env = Environment::new();
    env.add_template("cmd", template)?;
    let expr = env.get_template("cmd")?;
    Ok(expr.undeclared_variables(true).into_iter().collect())
}

/// Relies on minijinja's Template::render: the text depends on the template
/// and the values bound alone.
#[verifier::external_body]
fn render_template(template: &str, bindings: &Vec<(String, Vec<String>)>) -> (r: Result<String, minijinja::Error>)
    ensures
        match r {
            Ok(s) => rendered(template@, binding_views(bindings@)) == Some(s@),
            Err(_) => rendered(template@, binding_views(bindings@)) is None,
        },
{
    let mut env = Environment::new();
    env.add_template("cmd", template)?;
    let expr = env.get_template("cmd")?;
    let values: HashMap<&str, Value> = bindings.iter().map(|(k, v)| (k.as_str(), Value::from_serialize(v))).collect();
    expr.render(&values)
}

/// Relies on shell_words::split: the words of a text under shell quoting,
/// which fails on unbalanced quotes or a trailing escape.
#[verifier::external_body]
fn split_words(text: &str) -> (r: Result<Vec<String>, shell_words::ParseError>)
    ensures
        match r {
            Ok(w) => shell_split(text@) == Some(views(w@)),
            Err(_) => shell_split(text@) is None,
        },
{
    shell_words::split(text)
}

/// The first variable of `variables` that is not supported, if any.
pub open spec fn first_unsupported(variables: Seq<Seq<char>>, i: int) -> bool {
    0 <= i < variables.len() && !supported(variables[i]) && forall|j: int| 0 <= j < i ==> supported(variables[j])
}

/// The bindings for the variables that a template reads: `packages` to the
/// included names, `excludes` to the others, `args` to the extra arguments.
/// Any other variable is refused, the first one in `variables`.
pub fn select_bindings(
    variables: &Vec<String>,
    packages: &Vec<String>,
    excludes: &Vec<String>,
    args: &Vec<String>,
) -> (r: Result<Vec<(String, Vec<String>)>, CommandError>)
    ensures
        match r {
            Ok(b) => {
                &&& forall|i: int| 0 <= i < variables@.len() ==> supported(#[trigger] variables@[i]@)
                &&& binding_views(b@) == bindings_for(views(variables@).to_set(), views(packages@), views(excludes@), views(args@))
            },
            Err(CommandError::Unsupported(v)) => exists|i: int| first_unsupported(views(variables@), i) && views(variables@)[i] == v@,
            Err(_) => false,
        },
{
    let packages_name = "packages".to_owned();
    let excludes_name = "excludes".to_owned();
    let args_name = "args".to_owned();
    proof {
        reveal_strlit("packages");
        reveal_strlit("excludes");
        reveal_strlit("args");
        assert("packages"@[0] != "excludes"@[0]);
        assert("packages"@ != "excludes"@);
        assert("packages"@.len() != "args"@.len());
        assert("excludes"@.len() != "args"@.len());
    }
    let mut i: usize = 0;
    let mut has_packages = false;
    let mut has_excludes = false;
    let mut has_args = false;
    while i < variables.len()
        invariant
            i <= variables@.len(),
            packages_name@ == "packages"@,
            excludes_name@ == "excludes"@,
            args_name@ == "args"@,
            "packages"@ != "excludes"@,
            "packages"@ != "args"@,
            "excludes"@ != "args"@,
            forall|j: int| 0 <= j < i ==> supported(#[trigger] variables@[j]@),
            has_packages == exists|j: int| 0 <= j < i && #[trigger] variables@[j]@ == "packages"@,
            has_excludes == exists|j: int| 0 <= j < i && #[trigger] variables@[j]@ == "excludes"@,
            has_args == exists|j: int| 0 <= j < i && #[trigger] variables@[j]@ == "args"@,
        decreases variables@.len() - i,
    {
        let v = &variables[i];
        if *v == packages_name {
            has_packages = true;
        } else if *v == excludes_name {
            has_excludes = true;
        } else if *v == args_name {
            has_args = true;
        } else {
            proof {
                assert(first_unsupported(views(variables@), i as int)) by {
                    assert forall|j: int| 0 <= j < i implies supported(views(variables@)[j]) by {
                        assert(supported(variables@[j]@));
                    }
                }
            }
            return Err(CommandError::Unsupported(v.clone()));
        }
        i = i + 1;
    }
    let ghost vars = views(variables@).to_set();
    proof {
        assert(vars.contains("packages"@) == has_packages) by {
            if has_packages {
                let j = choose|j: int| 0 <= j < i && #[trigger] variables@[j]@ == "packages"@;
                assert(views(variables@)[j] == "packages"@);
            }
        }
        assert(vars.contains("excludes"@) == has_excludes) by {
            if has_excludes {
                let j = choose|j: int| 0 <= j < i && #[trigger] variables@[j]@ == "excludes"@;
                assert(views(variables@)[j] == "excludes"@);
            }
        }
        assert(vars.contains("args"@) == has_args) by {
            if has_args {
                let j = choose|j: int| 0 <= j < i && #[trigger] variables@[j]@ == "args"@;
                assert(views(variables@)[j] == "args"@);
            }
        }
    }
    let mut b: Vec<(String, Vec<String>)> = Vec::new();
    if has_packages {
        b.push((packages_name, packages.clone()));
    }
    let ghost b1 = binding_views(b@);
    if has_excludes {
        b.push((excludes_name, excludes.clone()));
    }
    let ghost b2 = binding_views(b@);
    if has_args {
        b.push((args_name, args.clone()));
    }
    proof {
        let bp: Seq<(Seq<char>, Seq<Seq<char>>)> = if has_packages { seq![("packages"@, views(packages@))] } else { Seq::empty() };
        let be: Seq<(Seq<char>, Seq<Seq<char>>)> = if has_excludes { seq![("excludes"@, views(excludes@))] } else { Seq::empty() };
        let ba: Seq<(Seq<char>, Seq<Seq<char>>)> = if has_args { seq![("args"@, views(args@))] } else { Seq::empty() };
        assert(b1 =~= bp);
        assert(b2 =~= bp + be);
        assert(binding_views(b@) =~= bp + be + ba);
    }
    Ok(b)
}

/// The command that `words` spell: the first word names the program, the
/// rest are its arguments.
pub fn command_from_words(words: Vec<String>) -> (r: Result<CommandLine, CommandError>)
    ensures
        match r {
            Ok(c) => words@.len() > 0 && c.program@ == words@[0]@ && views(c.args@) == views(words@).drop_first(),
            Err(CommandError::NoProgram) => words@.len() == 0,
            Err(_) => false,
        },
{
    let mut words = words;
    if words.len() == 0 {
        return Err(CommandError::NoProgram);
    }
    let ghost all = words@;
    let program = words.remove(0);
    assert(views(words@) =~= views(all).drop_first());
    Ok(CommandLine { program, args: words })
}

/// The command that `template` renders to for the included packages of
/// `ws`, the excluded ones and the extra `args`.
pub fn generate_command(
    template: &str,
    ws: &Workspace,
    included: &Vec<String>,
    args: &Vec<String>,
) -> (r: Result<CommandLine, CommandError>)
    ensures
        match template_variables(template@) {
            None => r matches Err(CommandError::Template(_)),
            Some(vars) => if exists|v: Seq<char>| vars.contains(v) && !supported(v) {
                r matches Err(CommandError::Unsupported(v)) && vars.contains(v@) && !supported(v@)
            } else {
                exists|excl: Seq<Seq<char>>| {
                    &&& strictly_sorted(excl)
                    &&& excl.to_set() == excluded(ws.pkgs(), views(included@).to_set())
                    &&& match rendered(template@, bindings_for(vars, views(included@), excl, views(args@))) {
                        None => r matches Err(CommandError::Template(_)),
                        Some(text) => match shell_split(text) {
                            None => r matches Err(CommandError::Split(_)),
                            Some(words) => match r {
                                Ok(c) => words.len() > 0 && c.program@ == words[0] && views(c.args@) == words.drop_first(),
                                Err(CommandError::NoProgram) => words.len() == 0,
                                Err(_) => false,
                            },
                        },
                    }
                }
            },
        },
{
    let variables = match parse_variables(template) {
        Ok(v) => v,
        Err(e) => return Err(CommandError::Template(e)),
    };
    let excludes = generate_exclude_list(ws.packages(), included);
    let bindings = match select_bindings(&variables, included, &excludes, args) {
        Ok(b) => b,
        Err(e) => {
            proof {
                let i = choose|i: int| first_unsupported(views(variables@), i);
                assert(views(variables@).to_set().contains(views(variables@)[i]));
            }
            return Err(e);
        },
    };
    proof {
        let vars = views(variables@).to_set();
        assert forall|v: Seq<char>| vars.contains(v) implies supported(v) by {
            let i = choose|i: int| 0 <= i < views(variables@).len() && views(variables@)[i] == v;
            assert(supported(variables@[i]@));
        }
    }
    let text = match render_template(template, &bindings) {
        Ok(t) => t,
        Err(e) => return Err(CommandError::Template(e)),
    };
    let words = match split_words(text.as_str()) {
        Ok(w) => w,
        Err(e) => return Err(CommandError::Split(e)),
    };
    command_from_words(words)
}

} // verus!
