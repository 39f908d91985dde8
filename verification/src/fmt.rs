//! The formatter: safe reformatting of valid YAML.
use crate::composer::from_str_node;
use crate::cst::document::Document;
use crate::scanner::cursor::MAX_INPUT;
use crate::text::same_text;
use vstd::prelude::*;
use vstd::string::*;

verus! {

/// Formats `src` safely (trailing-whitespace trim + single final newline),
/// preserving comments, indentation, and block/quoted-scalar content. Returns
/// `Err(message)` if `src` is not valid YAML (a formatter must not touch
/// unparseable input).
pub fn format_str(src: &str) -> (r: Result<String, String>)
    requires
        src.spec_bytes().len() < MAX_INPUT,
    ensures
        match crate::composer::first_document(src@) {
            Ok(_) => r matches Ok(s) && s@ == crate::cst::format::reformat(src@),
            Err(e) => r matches Err(s) && s@ == "parse error: "@ + e.message(),
        },
{
    match from_str_node(src) {
        Ok(_) => Ok(Document::parse(src).reformatted()),
        Err(e) => {
            let mut s = "parse error: ".to_owned();
            s.append(e.to_string().as_str());
            Err(s)
        },
    }
}

/// What the command line of the formatter asks for.
#[derive(Debug, Clone, PartialEq)]
pub enum Command {
    /// Show the usage.
    Help,
    /// Refuse an unknown flag.
    UnknownFlag(String),
    /// Refuse `--check` together with `--write`.
    Conflict,
    /// Format standard input to standard output.
    Stdin,
    /// Report the files that are not formatted.
    Check(Vec<String>),
    /// Overwrite the files with their formatted text.
    Write(Vec<String>),
    /// Print the formatted text of the files.
    Print(Vec<String>),
}

/// The value of a [`Command`].
pub enum CommandView {
    Help,
    UnknownFlag(Seq<char>),
    Conflict,
    Stdin,
    Check(Seq<Seq<char>>),
    Write(Seq<Seq<char>>),
    Print(Seq<Seq<char>>),
}

impl View for Command {
    type V = CommandView;

    open spec fn view(&self) -> CommandView {
        match self {
            Command::Help => CommandView::Help,
            Command::UnknownFlag(s) => CommandView::UnknownFlag(s@),
            Command::Conflict => CommandView::Conflict,
            Command::Stdin => CommandView::Stdin,
            Command::Check(files) => CommandView::Check(
                crate::schema::model::string_views(files@),
            ),
            Command::Write(files) => CommandView::Write(
                crate::schema::model::string_views(files@),
            ),
            Command::Print(files) => CommandView::Print(
                crate::schema::model::string_views(files@),
            ),
        }
    }
}

/// What the arguments from the `i`th on ask for, behind the files and flags already
/// read. The first of help and an unknown flag decides.
pub open spec fn command_from(
    args: Seq<Seq<char>>,
    i: int,
    files: Seq<Seq<char>>,
    check: bool,
    write: bool,
) -> CommandView
    decreases args.len() - i,
{
    if !(0 <= i < args.len()) {
        if check && write {
            CommandView::Conflict
        } else if files.len() == 0 {
            CommandView::Stdin
        } else if check {
            CommandView::Check(files)
        } else if write {
            CommandView::Write(files)
        } else {
            CommandView::Print(files)
        }
    } else if args[i] == "--check"@ {
        command_from(args, i + 1, files, true, write)
    } else if args[i] == "--write"@ {
        command_from(args, i + 1, files, check, true)
    } else if args[i] == "-h"@ || args[i] == "--help"@ {
        CommandView::Help
    } else if args[i].len() > 0 && args[i][0] == '-' {
        CommandView::UnknownFlag(args[i])
    } else {
        command_from(args, i + 1, files.push(args[i]), check, write)
    }
}

/// Whether an argument is a flag.
pub open spec fn is_flag(arg: Seq<char>) -> bool {
    arg.len() > 0 && arg[0] == '-'
}

/// Whether an argument asks for help.
pub open spec fn is_help(arg: Seq<char>) -> bool {
    arg == "-h"@ || arg == "--help"@
}

/// The arguments that are no flags, in their order.
pub open spec fn plain_arguments(args: Seq<Seq<char>>) -> Seq<Seq<char>> {
    args.filter(|a: Seq<char>| !is_flag(a))
}

proof fn lemma_flags()
    ensures
        is_flag("--check"@),
        is_flag("--write"@),
        is_flag("-h"@),
        is_flag("--help"@),
        "--check"@ != "--write"@,
        !is_help("--check"@),
        !is_help("--write"@),
{
    reveal_strlit("--check");
    reveal_strlit("--write");
    reveal_strlit("-h");
    reveal_strlit("--help");
    assert("--check"@[2] != "--write"@[2]);
    assert("--check"@.len() == 7 && "--write"@.len() == 7);
    assert("-h"@.len() == 2 && "--help"@.len() == 6);
}

proof fn lemma_command_from(
    args: Seq<Seq<char>>,
    i: int,
    k: int,
    files: Seq<Seq<char>>,
    check: bool,
    write: bool,
)
    requires
        0 <= i <= k <= args.len(),
        forall|j: int|
            i <= j < k ==> (is_flag(#[trigger] args[j]) ==> args[j] == "--check"@ || args[j]
                == "--write"@),
    ensures
        command_from(args, i, files, check, write) == command_from(
            args,
            k,
            files + plain_arguments(args.subrange(i, k)),
            check || args.subrange(i, k).contains("--check"@),
            write || args.subrange(i, k).contains("--write"@),
        ),
    decreases k - i,
{
    let part = args.subrange(i, k);
    let keep = |a: Seq<char>| !is_flag(a);
    lemma_flags();
    if i == k {
        assert(part =~= Seq::<Seq<char>>::empty());
        reveal(Seq::filter);
        assert(files + plain_arguments(part) =~= files);
        assert(!part.contains("--check"@) && !part.contains("--write"@));
    } else {
        let arg = args[i];
        let rest = args.subrange(i + 1, k);
        assert(part =~= seq![arg] + rest);
        assert(part.contains(arg)) by {
            assert(part[0] == arg);
        }
        assert forall|f: Seq<char>| part.contains(f) == (arg == f || rest.contains(f)) by {
            if rest.contains(f) {
                let j = choose|j: int| 0 <= j < rest.len() && rest[j] == f;
                assert(part[j + 1] == f);
            }
            if part.contains(f) && arg != f {
                let j = choose|j: int| 0 <= j < part.len() && part[j] == f;
                assert(rest[j - 1] == f);
            }
        }
        Seq::filter_distributes_over_add(seq![arg], rest, keep);
        reveal_with_fuel(Seq::filter, 2);
        assert(seq![arg].drop_last() =~= Seq::<Seq<char>>::empty());
        if is_flag(arg) {
            assert(seq![arg].filter(keep) =~= seq![]);
            assert(plain_arguments(part) =~= plain_arguments(rest));
            lemma_command_from(
                args,
                i + 1,
                k,
                files,
                check || arg == "--check"@,
                write || arg == "--write"@,
            );
        } else {
            assert(seq![arg].filter(keep) =~= seq![arg]);
            lemma_command_from(args, i + 1, k, files.push(arg), check, write);
            assert(files.push(arg) + plain_arguments(rest) =~= files + plain_arguments(part));
        }
    }
}

/// What a command line asks for. The first argument that asks for help, or is a flag that
/// does not exist, decides. Without one the other arguments are the files, in their order:
/// they are checked where `--check` stands anywhere, written where `--write` does, and
/// printed where neither does; both at once are a conflict; without files the input is
/// read.
pub proof fn law_command_line(args: Seq<Seq<char>>, k: int)
    requires
        0 <= k <= args.len(),
        forall|j: int|
            0 <= j < k ==> (is_flag(#[trigger] args[j]) ==> args[j] == "--check"@ || args[j]
                == "--write"@),
    ensures
        ({
            let c = command_from(args, 0, seq![], false, false);
            let files = plain_arguments(args);
            let check = args.contains("--check"@);
            let write = args.contains("--write"@);
            &&& k < args.len() && is_help(args[k]) ==> c is Help
            &&& k < args.len() && is_flag(args[k]) && !is_help(args[k]) && args[k] != "--check"@
                && args[k] != "--write"@ ==> c == CommandView::UnknownFlag(args[k])
            &&& k == args.len() ==> c == if check && write {
                CommandView::Conflict
            } else if files.len() == 0 {
                CommandView::Stdin
            } else if check {
                CommandView::Check(files)
            } else if write {
                CommandView::Write(files)
            } else {
                CommandView::Print(files)
            }
        }),
{
    lemma_flags();
    lemma_command_from(args, 0, k, seq![], false, false);
    let none = Seq::<Seq<char>>::empty();
    assert(none + plain_arguments(args.subrange(0, k)) =~= plain_arguments(args.subrange(0, k)));
    if k == args.len() {
        assert(args.subrange(0, k) =~= args);
    }
}

/// Reads the command line of the formatter (without the name of the program).
#[must_use]
pub fn parse_args(args: &Vec<String>) -> (r: Command)
    ensures
        r@ == command_from(
            crate::schema::model::string_views(args@),
            0,
            seq![],
            false,
            false,
        ),
{
    let ghost views = crate::schema::model::string_views(args@);
    let ghost goal = command_from(views, 0, seq![], false, false);
    let mut files: Vec<String> = Vec::new();
    let mut check = false;
    let mut write = false;
    let mut i: usize = 0;
    assert(crate::schema::model::string_views(files@) =~= Seq::<Seq<char>>::empty());
    while i < args.len()
        invariant
            i <= args@.len(),
            views == crate::schema::model::string_views(args@),
            goal == command_from(views, 0, seq![], false, false),
            goal == command_from(
                views,
                i as int,
                crate::schema::model::string_views(files@),
                check,
                write,
            ),
        decreases args@.len() - i,
    {
        assert(views[i as int] == args@[i as int]@);
        let a = args[i].as_str();
        if same_text(a, "--check") {
            check = true;
        } else if same_text(a, "--write") {
            write = true;
        } else if same_text(a, "-h") || same_text(a, "--help") {
            return Command::Help;
        } else if !a.is_empty() && a.get_char(0) == '-' {
            return Command::UnknownFlag(a.to_owned());
        } else {
            let ghost before = crate::schema::model::string_views(files@);
            files.push(a.to_owned());
            assert(crate::schema::model::string_views(files@) =~= before.push(a@));
        }
        i += 1;
    }
    if check && write {
        Command::Conflict
    } else if files.len() == 0 {
        Command::Stdin
    } else if check {
        Command::Check(files)
    } else if write {
        Command::Write(files)
    } else {
        Command::Print(files)
    }
}

} // verus!
