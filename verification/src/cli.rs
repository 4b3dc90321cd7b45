use vstd::prelude::*;
use vstd::string::*;
use crate::text::{char_is_whitespace, chars_of, push_char, push_text, white_space, string_of, tail_is, text};

verus! {

/// The audio format a build writes.
#[derive(Debug, Clone, Copy, PartialEq, Eq, Structural)]
pub enum OutputFormat {
    Wav,
    Mp3,
}

/// The arguments of `sonara build`.
pub struct BuildArgs {
    pub input: String,
    pub format: OutputFormat,
}

/// The characters of each argument.
pub open spec fn args_view(args: Seq<String>) -> Seq<Seq<char>> {
    args.map_values(|a: String| a@)
}

/// Whether `s` starts with `p`.
pub open spec fn has_prefix(s: Seq<char>, p: Seq<char>) -> bool {
    s.len() >= p.len() && s.take(p.len() as int) == p
}

/// The format chosen by the options from `args[i]` on, the last `--to=` winning.
pub open spec fn options_at(args: Seq<Seq<char>>, i: nat, format: OutputFormat) -> Result<
    OutputFormat,
    Seq<char>,
>
    decreases args.len() - i,
{
    if i >= args.len() {
        Ok(format)
    } else {
        let a = args[i as int];
        if has_prefix(a, "--to="@) {
            let val = a.skip(5);
            if val == "wav"@ {
                options_at(args, i + 1, OutputFormat::Wav)
            } else if val == "mp3"@ {
                options_at(args, i + 1, OutputFormat::Mp3)
            } else {
                Err("unknown format '"@ + val + "'. Options: wav, mp3"@)
            }
        } else {
            Err("unknown argument '"@ + a + "'"@)
        }
    }
}

/// What `sonara build` makes of its arguments: the input file, then options
/// (`--to=wav` or `--to=mp3`; mp3 when none is given).
pub open spec fn build_args_of(args: Seq<Seq<char>>) -> Result<(Seq<char>, OutputFormat), Seq<char>> {
    if args.len() < 1 {
        Err("Usage: sonara build <file.son> [--to=mp3|wav]"@)
    } else {
        match options_at(args, 1, OutputFormat::Mp3) {
            Ok(f) => Ok((args[0], f)),
            Err(m) => Err(m),
        }
    }
}

/// Reads the arguments of `sonara build <file.son> [--to=mp3|wav]`.
pub fn parse_build_args(args: &[String]) -> (r: Result<BuildArgs, String>)
    ensures
        build_args_of(args_view(args@)) is Ok <==> r is Ok,
        r matches Ok(b) ==> build_args_of(args_view(args@)) == Ok::<(Seq<char>, OutputFormat), Seq<char>>((b.input@, b.format)),
        r matches Err(m) ==> build_args_of(args_view(args@)) == Err::<(Seq<char>, OutputFormat), Seq<char>>(m@),
{
    let ghost av = args_view(args@);
    proof {
        reveal_strlit("--to=");
    }
    if args.len() < 1 {
        return Err(text("Usage: sonara build <file.son> [--to=mp3|wav]"));
    }
    let input = args[0].clone();
    let mut format = OutputFormat::Mp3;
    let mut i: usize = 1;
    while i < args.len()
        invariant
            1 <= i <= args@.len(),
            av == args_view(args@),
            options_at(av, 1, OutputFormat::Mp3) == options_at(av, i as nat, format),
        decreases args@.len() - i,
    {
        proof {
            reveal_strlit("--to=");
        }
        let v = chars_of(args[i].as_str());
        assert(v@ == av[i as int]);
        if v.len() >= 5 && tail_is(&v, 5, "wav") && has_to_prefix(&v) {
            format = OutputFormat::Wav;
        } else if v.len() >= 5 && tail_is(&v, 5, "mp3") && has_to_prefix(&v) {
            format = OutputFormat::Mp3;
        } else if v.len() >= 5 && has_to_prefix(&v) {
            let mut m = text("unknown format '");
            let val = string_of(&v, 5, v.len());
            assert(v@.subrange(5, v@.len() as int) == v@.skip(5));
            push_text(&mut m, val.as_str());
            push_text(&mut m, "'. Options: wav, mp3");
            return Err(m);
        } else {
            let mut m = text("unknown argument '");
            push_text(&mut m, args[i].as_str());
            push_text(&mut m, "'");
            return Err(m);
        }
        i = i + 1;
    }
    Ok(BuildArgs { input, format })
}

/// Whether `v` starts with `--to=`.
fn has_to_prefix(v: &Vec<char>) -> (r: bool)
    ensures
        r == has_prefix(v@, "--to="@),
{
    proof {
        reveal_strlit("--to=");
    }
    let n = v.len();
    if n < 5 {
        return false;
    }
    let head = string_of(v, 0, 5);
    let hv = chars_of(head.as_str());
    assert(hv@.skip(0) == hv@);
    tail_is(&hv, 0, "--to=")
}

/// `s` without its leading characters that are whitespace (or, if `quote`, `"`).
pub open spec fn trim_front(s: Seq<char>, quote: bool) -> Seq<char>
    decreases s.len(),
{
    if s.len() > 0 && (if quote {
        s[0] == '"'
    } else {
        white_space(s[0])
    }) {
        trim_front(s.drop_first(), quote)
    } else {
        s
    }
}

/// `s` without its trailing characters that are whitespace (or, if `quote`, `"`).
pub open spec fn trim_back(s: Seq<char>, quote: bool) -> Seq<char>
    decreases s.len(),
{
    if s.len() > 0 && (if quote {
        s.last() == '"'
    } else {
        white_space(s.last())
    }) {
        trim_back(s.drop_last(), quote)
    } else {
        s
    }
}

/// `str::trim`: leading and trailing whitespace removed.
pub open spec fn trim(s: Seq<char>) -> Seq<char> {
    trim_back(trim_front(s, false), false)
}

/// The file an `import <name>` line names (quotes around the name are dropped).
pub open spec fn import_of(line: Seq<char>) -> Option<Seq<char>> {
    let t = trim(line);
    if has_prefix(t, "import "@) {
        Some(trim_back(trim_front(trim(t.skip(7)), true), true))
    } else {
        None
    }
}

fn in_trim_class(c: char, quote: bool) -> (r: bool)
    ensures
        r == (if quote {
            c == '"'
        } else {
            white_space(c)
        }),
{
    if quote {
        c == '"'
    } else {
        char_is_whitespace(c)
    }
}

/// The bounds of `v[from..to]` with matching characters removed at both ends.
fn trim_bounds(v: &Vec<char>, from: usize, to: usize, quote: bool) -> (r: (usize, usize))
    requires
        from <= to <= v@.len(),
    ensures
        from <= r.0 <= r.1 <= to,
        v@.subrange(r.0 as int, r.1 as int) == trim_back(
            trim_front(v@.subrange(from as int, to as int), quote),
            quote,
        ),
{
    let mut a = from;
    while a < to && in_trim_class(v[a], quote)
        invariant
            from <= a <= to <= v@.len(),
            trim_front(v@.subrange(from as int, to as int), quote) == trim_front(
                v@.subrange(a as int, to as int),
                quote,
            ),
        decreases to - a,
    {
        assert(v@.subrange(a as int, to as int).drop_first() == v@.subrange(a + 1, to as int));
        a = a + 1;
    }
    assert(trim_front(v@.subrange(a as int, to as int), quote) == v@.subrange(a as int, to as int));
    let mut b = to;
    while b > a && in_trim_class(v[b - 1], quote)
        invariant
            a <= b <= to <= v@.len(),
            trim_back(v@.subrange(a as int, to as int), quote) == trim_back(
                v@.subrange(a as int, b as int),
                quote,
            ),
        decreases b - a,
    {
        assert(v@.subrange(a as int, b as int).drop_last() == v@.subrange(a as int, b - 1));
        b = b - 1;
    }
    (a, b)
}

/// The file an `import <name>` line names, if the line is one (surrounding whitespace
/// and quotes around the name are dropped).
pub fn import_name(line: &str) -> (r: Option<String>)
    ensures
        r matches Some(n) ==> import_of(line@) == Some(n@),
        r is None ==> import_of(line@) is None,
{
    proof {
        reveal_strlit("import ");
    }
    let v = chars_of(line);
    assert(v@.subrange(0, v@.len() as int) == v@);
    let (a, b) = trim_bounds(&v, 0, v.len(), false);
    let ghost t = v@.subrange(a as int, b as int);
    if b - a >= 7 {
        let head = string_of(&v, a, a + 7);
        let hv = chars_of(head.as_str());
        assert(hv@.skip(0) == hv@);
        assert(t.take(7) == v@.subrange(a as int, a + 7));
        if tail_is(&hv, 0, "import ") {
            assert(t.skip(7) == v@.subrange(a + 7, b as int));
            let (c, d) = trim_bounds(&v, a + 7, b, false);
            let (e, f) = trim_bounds(&v, c, d, true);
            return Some(string_of(&v, e, f));
        }
    }
    None
}

/// What a line of source becomes in the expanded text: the expansion of an import,
/// or else the line itself.
pub open spec fn kept_text(part: (String, Option<String>)) -> Seq<char> {
    match part.1 {
        Some(e) => e@,
        None => part.0@,
    }
}

/// The expanded text of the first `n` lines: each line's text followed by a line feed.
pub open spec fn assembled(parts: Seq<(String, Option<String>)>, n: nat) -> Seq<char>
    decreases n,
{
    if n == 0 {
        seq![]
    } else {
        assembled(parts, (n - 1) as nat) + kept_text(parts[n - 1]) + seq!['\n']
    }
}

/// Joins the lines of a source into the text the preprocessor hands on: each line is
/// given with the expansion of the import it names, if any, in its place, and every
/// line ends with a line feed.
pub fn assemble_lines(parts: &Vec<(String, Option<String>)>) -> (r: String)
    ensures
        r@ == assembled(parts@, parts@.len()),
{
    let mut out = String::new();
    let mut i: usize = 0;
    while i < parts.len()
        invariant
            i <= parts@.len(),
            out@ == assembled(parts@, i as nat),
        decreases parts@.len() - i,
    {
        match &parts[i].1 {
            Some(e) => push_text(&mut out, e.as_str()),
            None => push_text(&mut out, parts[i].0.as_str()),
        }
        push_char(&mut out, '\n');
        i = i + 1;
    }
    out
}

} // verus!
