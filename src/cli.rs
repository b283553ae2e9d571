//! The subcommands and what each asks for: the options shared by all, and
//! the command template that each runs.
use vstd::prelude::*;

verus! {

pub const CARGO_TEST_TEMPLATE: &'static str = "cargo test {% for pkg in packages %} -p {{ pkg }} {% endfor %} {% for arg in args %} {{ arg }} {% endfor %}";

pub const CARGO_NEXTEST_TEMPLATE: &'static str = "cargo nextest {% for pkg in packages %} -p {{ pkg }} {% endfor %} {% for arg in args %} {{ arg }} {% endfor %}";

pub const CARGO_BUILD_TEMPLATE: &'static str = "cargo build {% for pkg in packages %} -p {{ pkg }} {% endfor %} {% for arg in args %} {{ arg }} {% endfor %}";

pub const CARGO_BENCH_TEMPLATE: &'static str = "cargo build {% for pkg in packages %} -p {{ pkg }} {% endfor %} {% for arg in args %} {{ arg }} {% endfor %}";

/// The options that every subcommand takes.
pub struct RequiredArgs {
    /// The project to run on; the current directory where absent.
    pub input: Option<String>,
    /// Print the command instead of running it.
    pub no_run: bool,
    /// Extra arguments, bound to the template's `args`.
    pub args: Vec<String>,
}

/// The options of the subcommand that runs a template of the user's.
pub struct Args {
    /// The command template to run.
    pub command: Option<String>,
    pub required: RequiredArgs,
}

pub enum RunCommand {
    Test(RequiredArgs),
    Nextest(RequiredArgs),
    Build(RequiredArgs),
    Bench(RequiredArgs),
    Run(Args),
}

impl RunCommand {
    /// The options shared by every subcommand.
    pub fn required_args(&self) -> (r: &RequiredArgs)
        ensures
            match self {
                RunCommand::Test(a) => r == a,
                RunCommand::Nextest(a) => r == a,
                RunCommand::Build(a) => r == a,
                RunCommand::Bench(a) => r == a,
                RunCommand::Run(a) => r == &a.required,
            },
    {
        match self {
            RunCommand::Test(a) => a,
            RunCommand::Nextest(a) => a,
            RunCommand::Build(a) => a,
            RunCommand::Bench(a) => a,
            RunCommand::Run(a) => &a.required,
        }
    }

    /// The command template that the subcommand runs, if any.
    pub fn command(&self) -> (r: Option<String>)
        ensures
            match self {
                RunCommand::Test(_) => r is Some && r->0@ == CARGO_TEST_TEMPLATE@,
                RunCommand::Nextest(_) => r is Some && r->0@ == CARGO_NEXTEST_TEMPLATE@,
                RunCommand::Build(_) => r is Some && r->0@ == CARGO_BUILD_TEMPLATE@,
                RunCommand::Bench(_) => r is Some && r->0@ == CARGO_BENCH_TEMPLATE@,
                RunCommand::Run(a) => match a.command {
                    Some(c) => r is Some && r->0@ == c@,
                    None => r is None,
                },
            },
    {
        match self {
            RunCommand::Test(_) => Some(CARGO_TEST_TEMPLATE.to_owned()),
            RunCommand::Nextest(_) => Some(CARGO_NEXTEST_TEMPLATE.to_owned()),
            RunCommand::Build(_) => Some(CARGO_BUILD_TEMPLATE.to_owned()),
            RunCommand::Bench(_) => Some(CARGO_BENCH_TEMPLATE.to_owned()),
            RunCommand::Run(a) => match &a.command {
                Some(c) => Some(c.clone()),
                None => None,
            },
        }
    }
}

} // verus!
