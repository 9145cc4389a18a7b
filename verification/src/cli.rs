use crate::model::views_of;
use vstd::prelude::*;
use vstd::string::StrSliceExecFns;
use vstd::string::StringExecFns;

verus! {

/// The four recognized output modes; any unrecognized format value falls
/// back to terminal output.
#[derive(PartialEq, Eq, Structural, Clone, Copy, Debug)]
pub enum OutputFormat {
    Terminal,
    Json,
    Html,
    Silent,
}

/// What the command line asks for: the help text, a usage error for want of
/// stylesheet paths, or a run over the given paths in the given format.
pub enum CliAction {
    ShowHelp,
    UsageError,
    Run { format: OutputFormat, paths: Vec<String> },
}

pub open spec fn starts_with_spec(s: Seq<char>, p: Seq<char>) -> bool {
    p.len() <= s.len() && s.take(p.len() as int) == p
}

/// An argument consumed as an option rather than a stylesheet path.
pub open spec fn is_flag(a: Seq<char>) -> bool {
    starts_with_spec(a, "--"@)
}

pub open spec fn is_format_flag(a: Seq<char>) -> bool {
    starts_with_spec(a, "--format"@)
}

pub open spec fn has_help(args: Seq<Seq<char>>) -> bool {
    exists|i: int| 0 <= i < args.len() && args[i] == "--help"@
}

/// Index of the first argument naming the format option, or the length when
/// none does.
pub open spec fn find_format_from(args: Seq<Seq<char>>, from: int) -> int
    decreases args.len() - from,
{
    if from < 0 || from >= args.len() {
        args.len() as int
    } else if is_format_flag(args[from]) {
        from
    } else {
        find_format_from(args, from + 1)
    }
}

/// Index of the first occurrence of a character at or after a position, or
/// the length when there is none.
pub open spec fn find_char_from(s: Seq<char>, c: char, from: int) -> int
    decreases s.len() - from,
{
    if from < 0 || from >= s.len() {
        s.len() as int
    } else if s[from] == c {
        from
    } else {
        find_char_from(s, c, from + 1)
    }
}

pub open spec fn has_eq(a: Seq<char>) -> bool {
    find_char_from(a, '=', 0) < a.len()
}

/// The format value of a `--format=<value>` argument: the text between the
/// first equals sign and the next one, or the end.
pub open spec fn eq_value(a: Seq<char>) -> Seq<char> {
    let i = find_char_from(a, '=', 0);
    let j = find_char_from(a, '=', i + 1);
    a.subrange(i + 1, j)
}

pub open spec fn format_of(s: Seq<char>) -> OutputFormat {
    if s == "json"@ {
        OutputFormat::Json
    } else if s == "html"@ {
        OutputFormat::Html
    } else if s == "none"@ {
        OutputFormat::Silent
    } else {
        OutputFormat::Terminal
    }
}

/// The arguments left once the format option (and, in its two-argument form,
/// its value) is taken out.
pub open spec fn args_after_format(args: Seq<Seq<char>>) -> Seq<Seq<char>> {
    let i = find_format_from(args, 0);
    if i == args.len() {
        args
    } else if has_eq(args[i]) {
        args.remove(i)
    } else {
        args.remove(i + 1).remove(i)
    }
}

pub open spec fn format_choice(args: Seq<Seq<char>>) -> OutputFormat {
    let i = find_format_from(args, 0);
    if i == args.len() {
        OutputFormat::Terminal
    } else if has_eq(args[i]) {
        format_of(eq_value(args[i]))
    } else {
        format_of(args[i + 1])
    }
}

/// The arguments kept as stylesheet paths: those not starting with `--`.
pub open spec fn retained(args: Seq<Seq<char>>) -> Seq<Seq<char>>
    decreases args.len(),
{
    if args.len() == 0 {
        Seq::empty()
    } else {
        let r = retained(args.drop_last());
        if is_flag(args.last()) {
            r
        } else {
            r.push(args.last())
        }
    }
}

pub open spec fn cli_paths(args: Seq<Seq<char>>) -> Seq<Seq<char>> {
    retained(args_after_format(args))
}

/// The one argument shape the original rejects by panicking: a bare
/// `--format…` option without an equals sign standing last, so that no value
/// follows it. Callers must rule it out before parsing.
pub open spec fn cli_panics(args: Seq<Seq<char>>) -> bool {
    !has_help(args) && {
        let i = find_format_from(args, 0);
        i < args.len() && !has_eq(args[i]) && i + 1 >= args.len()
    }
}

/// What the parser returns for a given argument list: help wins, then a
/// usage error when no stylesheet path remains, else a run with the chosen
/// format and the retained paths in order.
pub open spec fn cli_action_matches(args: Seq<Seq<char>>, r: CliAction) -> bool {
    if has_help(args) {
        r is ShowHelp
    } else if cli_paths(args).len() == 0 {
        r is UsageError
    } else {
        r matches CliAction::Run { format, paths } && format == format_choice(args) && views_of(
            paths@,
        ) == cli_paths(args)
    }
}

/// Exec prefix test.
pub fn str_starts_with(s: &str, p: &str) -> (r: bool)
    ensures
        r == starts_with_spec(s@, p@),
{
    let n = p.unicode_len();
    if n > s.unicode_len() {
        return false;
    }
    let mut i: usize = 0;
    while i < n
        invariant
            n == p@.len(),
            n <= s@.len(),
            i <= n,
            forall|k: int| 0 <= k < i ==> s@[k] == p@[k],
        decreases n - i,
    {
        if s.get_char(i) != p.get_char(i) {
            proof {
                assert(s@.take(p@.len() as int)[i as int] != p@[i as int]);
            }
            return false;
        }
        i += 1;
    }
    proof {
        assert(s@.take(p@.len() as int) =~= p@);
    }
    true
}

/// Exec search for a character from a position on.
fn find_char_in(s: &str, c: char, from: usize) -> (r: usize)
    requires
        from <= s@.len(),
    ensures
        r as int == find_char_from(s@, c, from as int),
        from <= r <= s@.len(),
{
    let n = s.unicode_len();
    let mut i = from;
    while i < n
        invariant
            n == s@.len(),
            from <= i <= n,
            find_char_from(s@, c, from as int) == find_char_from(s@, c, i as int),
        decreases n - i,
    {
        if s.get_char(i) == c {
            return i;
        }
        i += 1;
    }
    i
}

fn find_help(args: &Vec<String>) -> (r: bool)
    ensures
        r == has_help(views_of(args@)),
{
    let help = String::from_str("--help");
    let mut i: usize = 0;
    while i < args.len()
        invariant
            i <= args@.len(),
            help@ == "--help"@,
            forall|k: int| 0 <= k < i ==> #[trigger] args@[k]@ != "--help"@,
        decreases args@.len() - i,
    {
        if args[i] == help {
            proof {
                assert(views_of(args@)[i as int] == "--help"@);
            }
            return true;
        }
        i += 1;
    }
    proof {
        assert forall|k: int| 0 <= k < views_of(args@).len() implies #[trigger] views_of(args@)[k]
            != "--help"@ by {
            assert(views_of(args@)[k] == args@[k]@);
        }
    }
    false
}

fn find_format_flag(args: &Vec<String>) -> (r: usize)
    ensures
        r as int == find_format_from(views_of(args@), 0),
        r <= args@.len(),
        r < args@.len() ==> is_format_flag(args@[r as int]@),
{
    let ghost vs = views_of(args@);
    let mut i: usize = 0;
    while i < args.len()
        invariant
            vs == views_of(args@),
            i <= args@.len(),
            find_format_from(vs, 0) == find_format_from(vs, i as int),
        decreases args@.len() - i,
    {
        if str_starts_with(args[i].as_str(), "--format") {
            proof {
                assert(vs[i as int] == args@[i as int]@);
            }
            return i;
        }
        proof {
            assert(vs[i as int] == args@[i as int]@);
        }
        i += 1;
    }
    i
}

fn format_from_str(s: &str) -> (r: OutputFormat)
    ensures
        r == format_of(s@),
{
    let v = String::from_str(s);
    if v == String::from_str("json") {
        OutputFormat::Json
    } else if v == String::from_str("html") {
        OutputFormat::Html
    } else if v == String::from_str("none") {
        OutputFormat::Silent
    } else {
        OutputFormat::Terminal
    }
}

/// True when the argument list can be parsed without hitting the input shape
/// on which the original panics; app code tests this before parsing.
pub fn args_well_formed(args: &Vec<String>) -> (r: bool)
    ensures
        r == !cli_panics(views_of(args@)),
{
    let ghost vs = views_of(args@);
    if find_help(args) {
        return true;
    }
    let i = find_format_flag(args);
    if i == args.len() {
        proof {
            assert(!cli_panics(vs));
        }
        return true;
    }
    let a = &args[i];
    let p = find_char_in(a.as_str(), '=', 0);
    if p < a.as_str().unicode_len() {
        proof {
            assert(vs[i as int] == a@);
            assert(has_eq(vs[i as int]));
        }
        return true;
    }
    proof {
        assert(vs[i as int] == a@);
        assert(!has_eq(vs[i as int]));
    }
    i + 1 < args.len()
}

proof fn lemma_retained_take(vs: Seq<Seq<char>>, k: int)
    requires
        0 <= k < vs.len(),
    ensures
        retained(vs.take(k + 1)) == (if is_flag(vs[k]) {
            retained(vs.take(k))
        } else {
            retained(vs.take(k)).push(vs[k])
        }),
{
    assert(vs.take(k + 1).drop_last() =~= vs.take(k));
    assert(vs.take(k + 1).last() == vs[k]);
}

/// Parse the command line: a help request wins; otherwise the first
/// `--format` option (in either its `=`-joined or two-argument form) picks
/// the output format, defaulting to terminal; every remaining argument not
/// starting with `--` is a stylesheet path, and none at all is a usage
/// error.
pub fn parse_args(args: &Vec<String>) -> (r: CliAction)
    requires
        !cli_panics(views_of(args@)),
    ensures
        cli_action_matches(views_of(args@), r),
{
    let ghost vs = views_of(args@);
    if find_help(args) {
        return CliAction::ShowHelp;
    }
    let i = find_format_flag(args);
    let mut rest: Vec<String>;
    let format: OutputFormat;
    if i == args.len() {
        rest = crate::usage::clone_strings(args);
        format = OutputFormat::Terminal;
        proof {
            assert(views_of(rest@) == args_after_format(vs));
            assert(format == format_choice(vs));
        }
    } else {
        let a = &args[i];
        let alen = a.as_str().unicode_len();
        let p = find_char_in(a.as_str(), '=', 0);
        if p < alen {
            let q = find_char_in(a.as_str(), '=', p + 1);
            let val = a.as_str().substring_char(p + 1, q);
            format = format_from_str(val);
            rest = crate::usage::clone_strings(args);
            rest.remove(i);
            proof {
                assert(vs[i as int] == a@);
                assert(has_eq(vs[i as int]));
                assert(val@ == eq_value(vs[i as int]));
                assert(format == format_choice(vs));
                assert(views_of(rest@) =~= vs.remove(i as int));
                assert(views_of(rest@) == args_after_format(vs));
            }
        } else {
            proof {
                assert(vs[i as int] == a@);
                assert(find_char_from(a@, '=', 0) == a@.len());
                assert(!has_eq(vs[i as int]));
                // the panicking shape is ruled out, so a value follows
                assert(i + 1 < args@.len());
            }
            format = format_from_str(args[i + 1].as_str());
            rest = crate::usage::clone_strings(args);
            rest.remove(i + 1);
            rest.remove(i);
            proof {
                assert(vs[i + 1 as int] == args@[i + 1 as int]@);
                assert(format == format_choice(vs));
                assert(views_of(rest@) =~= vs.remove(i + 1 as int).remove(i as int));
                assert(views_of(rest@) == args_after_format(vs));
            }
        }
    }
    let ghost rv = views_of(rest@);
    let mut paths: Vec<String> = Vec::new();
    proof {
        assert(views_of(paths@) =~= retained(rv.take(0)));
    }
    let mut k: usize = 0;
    while k < rest.len()
        invariant
            k <= rest@.len(),
            rv == views_of(rest@),
            views_of(paths@) == retained(rv.take(k as int)),
        decreases rest@.len() - k,
    {
        if !str_starts_with(rest[k].as_str(), "--") {
            paths.push(rest[k].clone());
            proof {
                lemma_retained_take(rv, k as int);
                assert(rv[k as int] == rest@[k as int]@);
                assert(views_of(paths@) =~= retained(rv.take(k as int)).push(rv[k as int]));
            }
        } else {
            proof {
                lemma_retained_take(rv, k as int);
                assert(rv[k as int] == rest@[k as int]@);
            }
        }
        k += 1;
    }
    proof {
        assert(rv.take(rv.len() as int) =~= rv);
        assert(views_of(paths@) == cli_paths(vs));
    }
    if paths.len() == 0 {
        CliAction::UsageError
    } else {
        CliAction::Run { format, paths }
    }
}

} // verus!
