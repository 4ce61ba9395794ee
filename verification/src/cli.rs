//! The command line: `warden validate [path]` and `warden fmt [--check] [path]`.

use crate::text::{opt_view, same, views};
use vstd::prelude::*;

verus! {

/// What the command line asks for.
#[derive(Debug, PartialEq, Eq)]
pub enum Command {
    /// Load a configuration and print it.
    Validate { path: Option<String> },
    /// Format a file, or with `check` ask whether it is formatted.
    Fmt { check: bool, path: Option<String> },
    /// Print how the command is used.
    Usage,
}

pub ghost enum CommandView {
    Validate { path: Option<Seq<char>> },
    Fmt { check: bool, path: Option<Seq<char>> },
    Usage,
}

impl View for Command {
    type V = CommandView;

    open spec fn view(&self) -> CommandView {
        match self {
            Command::Validate { path } => CommandView::Validate { path: opt_view(*path) },
            Command::Fmt { check, path } => CommandView::Fmt {
                check: *check,
                path: opt_view(*path),
            },
            Command::Usage => CommandView::Usage,
        }
    }
}

/// The last of `args` that is not the `--check` flag.
pub open spec fn last_path(args: Seq<Seq<char>>) -> Option<Seq<char>>
    decreases args.len(),
{
    if args.len() == 0 {
        None
    } else if args.last() != "--check"@ {
        Some(args.last())
    } else {
        last_path(args.drop_last())
    }
}

/// What a command line asks for. `args` starts with the program's own name.
pub open spec fn command_of(args: Seq<Seq<char>>) -> CommandView {
    if args.len() < 2 {
        CommandView::Usage
    } else if args[1] == "validate"@ {
        CommandView::Validate {
            path: if args.len() > 2 {
                Some(args[2])
            } else {
                None
            },
        }
    } else if args[1] == "fmt"@ {
        CommandView::Fmt {
            check: args.skip(2).contains("--check"@),
            path: last_path(args.skip(2)),
        }
    } else {
        CommandView::Usage
    }
}

/// What a command line asks for. `args` starts with the program's own name.
pub fn command(args: &Vec<String>) -> (r: Command)
    ensures
        r@ == command_of(views(args@)),
{
    let ghost av = views(args@);
    if args.len() < 2 {
        return Command::Usage;
    }
    if same(args[1].as_str(), "validate") {
        let path: Option<String> = if args.len() > 2 {
            Some(args[2].clone())
        } else {
            None
        };
        return Command::Validate { path };
    }
    if !same(args[1].as_str(), "fmt") {
        return Command::Usage;
    }
    let ghost rest = av.skip(2);
    let mut check: bool = false;
    let mut path: Option<String> = None;
    let mut i: usize = 2;
    assert(rest.take(0) =~= Seq::empty());
    while i < args.len()
        invariant
            2 <= i <= args.len(),
            av == views(args@),
            rest == av.skip(2),
            check == rest.take(i - 2).contains("--check"@),
            opt_view(path) == last_path(rest.take(i - 2)),
        decreases args.len() - i,
    {
        let ghost before = rest.take(i - 2);
        let ghost after = rest.take(i - 1);
        assert(after.drop_last() =~= before);
        assert(after.last() == args@[i as int]@);
        assert(after =~= before.push(args@[i as int]@));
        if same(args[i].as_str(), "--check") {
            check = true;
            assert(after[i - 2] == "--check"@);
        } else {
            path = Some(args[i].clone());
            assert(after.contains("--check"@) == before.contains("--check"@)) by {
                if before.contains("--check"@) {
                    let k = choose|k: int| 0 <= k < before.len() && before[k] == "--check"@;
                    assert(after[k] == "--check"@);
                }
            }
        }
        i = i + 1;
    }
    assert(rest.take(i - 2) =~= rest);
    Command::Fmt { check, path }
}

/// Whether an argument of `fmt` is the one that only asks.
pub open spec fn is_check(arg: Seq<char>) -> bool {
    arg == "--check"@
}

/// Formatting only asks exactly where it is told to, wherever that stands among
/// its arguments; it formats the last of the other arguments, and the usual
/// file where there is none. Validating takes the file behind it, if any.
pub proof fn law_arguments_are_heeded(program: Seq<char>, args: Seq<Seq<char>>)
    ensures
        ({
            let fmt = command_of(seq![program, "fmt"@] + args);
            &&& fmt is Fmt
            &&& fmt->check <==> exists|i: int| 0 <= i < args.len() && is_check(#[trigger] args[i])
            &&& match fmt->Fmt_path {
                Some(p) => exists|i: int|
                    {
                        &&& 0 <= i < args.len()
                        &&& #[trigger] args[i] == p
                        &&& !is_check(p)
                        &&& forall|j: int| i < j < args.len() ==> is_check(#[trigger] args[j])
                    },
                None => forall|j: int| 0 <= j < args.len() ==> is_check(#[trigger] args[j]),
            }
        }),
        ({
            let validate = command_of(seq![program, "validate"@] + args);
            &&& validate is Validate
            &&& args.len() == 0 ==> validate->Validate_path is None
            &&& args.len() > 0 ==> validate->Validate_path == Some(args[0])
        }),
        args.len() > 0 && args[0] != "fmt"@ && args[0] != "validate"@ ==> command_of(
            seq![program] + args,
        ) is Usage,
        command_of(seq![program]) is Usage,
{
    reveal_strlit("fmt");
    reveal_strlit("validate");
    reveal_strlit("--check");
    assert("fmt"@.len() != "validate"@.len());
    let a = seq![program, "fmt"@] + args;
    assert(a.skip(2) =~= args);
    lemma_last_path(args);
    assert(args.contains("--check"@) <==> exists|i: int|
        0 <= i < args.len() && is_check(#[trigger] args[i])) by {
        if args.contains("--check"@) {
            let i = choose|i: int| 0 <= i < args.len() && args[i] == "--check"@;
            assert(is_check(args[i]));
        }
    }
}

proof fn lemma_last_path(args: Seq<Seq<char>>)
    ensures
        match last_path(args) {
            Some(p) => exists|i: int|
                {
                    &&& 0 <= i < args.len()
                    &&& #[trigger] args[i] == p
                    &&& !is_check(p)
                    &&& forall|j: int| i < j < args.len() ==> is_check(#[trigger] args[j])
                },
            None => forall|j: int| 0 <= j < args.len() ==> is_check(#[trigger] args[j]),
        },
    decreases args.len(),
{
    if args.len() > 0 {
        let n = args.len() - 1;
        if args.last() != "--check"@ {
            assert(args[n] == args.last());
        } else {
            let rest = args.drop_last();
            lemma_last_path(rest);
            assert(is_check(args[n]));
            if last_path(rest) is Some {
                let p = last_path(rest)->0;
                let i = choose|i: int|
                    {
                        &&& 0 <= i < rest.len()
                        &&& #[trigger] rest[i] == p
                        &&& !is_check(p)
                        &&& forall|j: int| i < j < rest.len() ==> is_check(#[trigger] rest[j])
                    };
                assert(args[i] == p);
                assert forall|j: int| i < j < args.len() implies is_check(#[trigger] args[j]) by {
                    if j < n {
                        assert(rest[j] == args[j]);
                    }
                }
            } else {
                assert forall|j: int| 0 <= j < args.len() implies is_check(#[trigger] args[j]) by {
                    if j < n {
                        assert(rest[j] == args[j]);
                    }
                }
            }
        }
    }
}

} // verus!
