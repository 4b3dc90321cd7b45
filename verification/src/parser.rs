use vstd::prelude::*;
use vstd::string::*;
use crate::ast::{sections_view, Chord, DrumHit, Note, Section, SectionView, Song, SongView};
use crate::lexer::{token_debug, tokens_view, SpecToken, Token};
use crate::names::{
    chord_of, drum_hit_of, drum_of, note_of, parse_chord_name, parse_note_name,
};
use crate::text::{decimal, lower, push_decimal, push_text, string_is, text, to_lowercase};

verus! {

/// The token at `p`; past the end every token reads as `Eof`.
pub open spec fn tok_at(ts: Seq<SpecToken>, p: nat) -> SpecToken {
    if p < ts.len() {
        ts[p as int]
    } else {
        SpecToken::Eof
    }
}

/// The position after consuming the token at `p` (the end is never passed).
pub open spec fn step(ts: Seq<SpecToken>, p: nat) -> nat {
    if p < ts.len() {
        p + 1
    } else {
        p
    }
}

/// The first position at or after `p` that does not hold a line break.
pub open spec fn skip_nl(ts: Seq<SpecToken>, p: nat) -> nat
    decreases ts.len() - p,
{
    if p < ts.len() && ts[p as int] is Newline {
        skip_nl(ts, p + 1)
    } else {
        p
    }
}

pub proof fn lemma_skip_nl(ts: Seq<SpecToken>, p: nat)
    ensures
        skip_nl(ts, p) >= p,
        !(tok_at(ts, skip_nl(ts, p)) is Newline),
        p <= ts.len() ==> skip_nl(ts, p) <= ts.len(),
    decreases ts.len() - p,
{
    if p < ts.len() && ts[p as int] is Newline {
        lemma_skip_nl(ts, p + 1);
    }
}

/// What a parsing step gives: a value or an error message, and the position reached.
pub type Parsed<T> = (Result<T, Seq<char>>, nat);

/// Puts `x` in front of a successfully parsed list.
pub open spec fn prepend_ok<T>(x: T, r: Result<Seq<T>, Seq<char>>) -> Result<Seq<T>, Seq<char>> {
    match r {
        Ok(xs) => Ok(seq![x] + xs),
        Err(m) => Err(m),
    }
}

/// Puts `prefix` in front of a successfully parsed list.
pub open spec fn append_ok<T>(prefix: Seq<T>, r: Result<Seq<T>, Seq<char>>) -> Result<
    Seq<T>,
    Seq<char>,
> {
    match r {
        Ok(xs) => Ok(prefix + xs),
        Err(m) => Err(m),
    }
}

/// The message for a token other than the one expected.
pub open spec fn expected_message(want: Seq<char>, got: SpecToken) -> Seq<char> {
    "expected "@ + want + ", got "@ + token_debug(got)
}

/// Consumes the token at `p`, which must be `want`.
pub open spec fn expect_tok(ts: Seq<SpecToken>, p: nat, want: SpecToken) -> Parsed<()> {
    let t = tok_at(ts, p);
    (
        if t == want {
            Ok(())
        } else {
            Err(expected_message(token_debug(want), t))
        },
        step(ts, p),
    )
}

/// Consumes the token at `p`, which must be an identifier.
pub open spec fn expect_ident_tok(ts: Seq<SpecToken>, p: nat) -> Parsed<Seq<char>> {
    (
        match tok_at(ts, p) {
            SpecToken::Ident(s) => Ok(s),
            t => Err("expected identifier, got "@ + token_debug(t)),
        },
        step(ts, p),
    )
}

/// Consumes the token at `p`, which must be a number.
pub open spec fn expect_number_tok(ts: Seq<SpecToken>, p: nat) -> Parsed<u32> {
    (
        match tok_at(ts, p) {
            SpecToken::Number(n) => Ok(n),
            t => Err("expected number, got "@ + token_debug(t)),
        },
        step(ts, p),
    )
}

/// `tempo <number>`, then line breaks.
pub open spec fn tempo_at(ts: Seq<SpecToken>, p: nat) -> Parsed<u32> {
    let (a, p1) = expect_tok(ts, p, SpecToken::Tempo);
    match a {
        Err(m) => (Err(m), p1),
        Ok(_) => {
            let (n, p2) = expect_number_tok(ts, p1);
            match n {
                Err(m) => (Err(m), p2),
                Ok(v) => (Ok(v), skip_nl(ts, p2)),
            }
        },
    }
}

/// `scale <identifier>`, then line breaks.
pub open spec fn scale_at(ts: Seq<SpecToken>, p: nat) -> Parsed<Seq<char>> {
    let (a, p1) = expect_tok(ts, p, SpecToken::Scale);
    match a {
        Err(m) => (Err(m), p1),
        Ok(_) => {
            let (n, p2) = expect_ident_tok(ts, p1);
            match n {
                Err(m) => (Err(m), p2),
                Ok(v) => (Ok(v), skip_nl(ts, p2)),
            }
        },
    }
}

/// The chords of a `chords { .. }` block, up to its closing brace; `|` is ignored.
pub open spec fn chord_list_at(ts: Seq<SpecToken>, p: nat) -> Parsed<Seq<Chord>>
    decreases ts.len() - p,
{
    let q = skip_nl(ts, p);
    proof {
        lemma_skip_nl(ts, p);
    }
    match tok_at(ts, q) {
        SpecToken::Ident(w) => match chord_of(w) {
            Ok(c) => {
                let (r, e) = chord_list_at(ts, q + 1);
                (prepend_ok(c, r), e)
            },
            Err(m) => (Err(m), q + 1),
        },
        SpecToken::Pipe => chord_list_at(ts, q + 1),
        SpecToken::RBrace => (Ok(seq![]), q),
        SpecToken::Eof => (Ok(seq![]), q),
        SpecToken::Newline => chord_list_at(ts, q + 1),
        t => (Err("unexpected token in chords: "@ + token_debug(t)), q),
    }
}

/// The notes of a `bass` or `melody` block, up to its closing brace; `rest` and `_` are skipped.
pub open spec fn note_list_at(ts: Seq<SpecToken>, p: nat) -> Parsed<Seq<Note>>
    decreases ts.len() - p,
{
    let q = skip_nl(ts, p);
    proof {
        lemma_skip_nl(ts, p);
    }
    match tok_at(ts, q) {
        SpecToken::Ident(w) => if lower(w) == "rest"@ || w == "_"@ {
            note_list_at(ts, q + 1)
        } else {
            match note_of(w) {
                Ok(n) => {
                    let (r, e) = note_list_at(ts, q + 1);
                    (prepend_ok(n, r), e)
                },
                Err(m) => (Err(m), q + 1),
            }
        },
        SpecToken::RBrace => (Ok(seq![]), q),
        SpecToken::Eof => (Ok(seq![]), q),
        SpecToken::Newline => note_list_at(ts, q + 1),
        t => (Err("unexpected token in notes: "@ + token_debug(t)), q),
    }
}

/// The hits of a `drums` block, up to its closing brace; words are read in lower case.
pub open spec fn drum_list_at(ts: Seq<SpecToken>, p: nat) -> Parsed<Seq<DrumHit>>
    decreases ts.len() - p,
{
    let q = skip_nl(ts, p);
    proof {
        lemma_skip_nl(ts, p);
    }
    match tok_at(ts, q) {
        SpecToken::Ident(w) => match drum_of(lower(w)) {
            Some(h) => {
                let (r, e) = drum_list_at(ts, q + 1);
                (prepend_ok(h, r), e)
            },
            None => (Err("unknown drum hit: "@ + lower(w)), q + 1),
        },
        SpecToken::RBrace => (Ok(seq![]), q),
        SpecToken::Eof => (Ok(seq![]), q),
        SpecToken::Newline => drum_list_at(ts, q + 1),
        t => (Err("unexpected token in drums: "@ + token_debug(t)), q),
    }
}

pub proof fn lemma_lists_advance(ts: Seq<SpecToken>, p: nat)
    ensures
        chord_list_at(ts, p).1 >= p,
        note_list_at(ts, p).1 >= p,
        drum_list_at(ts, p).1 >= p,
        p <= ts.len() ==> chord_list_at(ts, p).1 <= ts.len(),
        p <= ts.len() ==> note_list_at(ts, p).1 <= ts.len(),
        p <= ts.len() ==> drum_list_at(ts, p).1 <= ts.len(),
    decreases ts.len() - p,
{
    lemma_skip_nl(ts, p);
    let q = skip_nl(ts, p);
    if q < ts.len() {
        lemma_lists_advance(ts, q + 1);
    }
}

/// Line breaks, `{`, line breaks: the opening of a block.
pub open spec fn open_block_at(ts: Seq<SpecToken>, p: nat) -> Parsed<()> {
    let q = skip_nl(ts, p);
    let (a, q1) = expect_tok(ts, q, SpecToken::LBrace);
    match a {
        Err(m) => (Err(m), q1),
        Ok(_) => (Ok(()), skip_nl(ts, q1)),
    }
}

/// Line breaks, `}`, line breaks: the closing of a block.
pub open spec fn close_block_at(ts: Seq<SpecToken>, p: nat) -> Parsed<()> {
    let q = skip_nl(ts, p);
    let (a, q1) = expect_tok(ts, q, SpecToken::RBrace);
    match a {
        Err(m) => (Err(m), q1),
        Ok(_) => (Ok(()), skip_nl(ts, q1)),
    }
}

pub proof fn lemma_blocks_advance(ts: Seq<SpecToken>, p: nat)
    ensures
        open_block_at(ts, p).1 >= p,
        close_block_at(ts, p).1 >= p,
        p <= ts.len() ==> open_block_at(ts, p).1 <= ts.len(),
        p <= ts.len() ==> close_block_at(ts, p).1 <= ts.len(),
{
    lemma_skip_nl(ts, p);
    let q = skip_nl(ts, p);
    lemma_skip_nl(ts, step(ts, q));
}

/// The tracks of a section read so far.
pub struct SectionParts {
    pub chords: Seq<Chord>,
    pub bass: Seq<Note>,
    pub melody: Seq<Note>,
    pub drums: Seq<DrumHit>,
}

/// The blocks of a section body, up to its closing brace. A block read again
/// replaces the one read before it.
pub open spec fn section_body_at(ts: Seq<SpecToken>, p: nat, acc: SectionParts) -> Parsed<
    SectionParts,
>
    decreases ts.len() - p,
{
    let t = tok_at(ts, p);
    if t is RBrace || t is Eof {
        (Ok(acc), p)
    } else {
        let q = skip_nl(ts, p);
        proof {
            lemma_skip_nl(ts, p);
            lemma_blocks_advance(ts, q + 1);
        }
        match tok_at(ts, q) {
            SpecToken::Chords => {
                let (o, p1) = open_block_at(ts, q + 1);
                if o is Err {
                    (Err(o->Err_0), p1)
                } else {
                    proof {
                        lemma_lists_advance(ts, p1);
                    }
                    let (l, p2) = chord_list_at(ts, p1);
                    match l {
                        Err(m) => (Err(m), p2),
                        Ok(xs) => {
                            proof {
                                lemma_blocks_advance(ts, p2);
                            }
                            let (c, p3) = close_block_at(ts, p2);
                            if c is Err {
                                (Err(c->Err_0), p3)
                            } else {
                                section_body_at(ts, p3, SectionParts { chords: xs, ..acc })
                            }
                        },
                    }
                }
            },
            SpecToken::Bass => {
                let (o, p1) = open_block_at(ts, q + 1);
                if o is Err {
                    (Err(o->Err_0), p1)
                } else {
                    proof {
                        lemma_lists_advance(ts, p1);
                    }
                    let (l, p2) = note_list_at(ts, p1);
                    match l {
                        Err(m) => (Err(m), p2),
                        Ok(xs) => {
                            proof {
                                lemma_blocks_advance(ts, p2);
                            }
                            let (c, p3) = close_block_at(ts, p2);
                            if c is Err {
                                (Err(c->Err_0), p3)
                            } else {
                                section_body_at(ts, p3, SectionParts { bass: xs, ..acc })
                            }
                        },
                    }
                }
            },
            SpecToken::Melody => {
                let (o, p1) = open_block_at(ts, q + 1);
                if o is Err {
                    (Err(o->Err_0), p1)
                } else {
                    proof {
                        lemma_lists_advance(ts, p1);
                    }
                    let (l, p2) = note_list_at(ts, p1);
                    match l {
                        Err(m) => (Err(m), p2),
                        Ok(xs) => {
                            proof {
                                lemma_blocks_advance(ts, p2);
                            }
                            let (c, p3) = close_block_at(ts, p2);
                            if c is Err {
                                (Err(c->Err_0), p3)
                            } else {
                                section_body_at(ts, p3, SectionParts { melody: xs, ..acc })
                            }
                        },
                    }
                }
            },
            SpecToken::Drums => {
                let (o, p1) = open_block_at(ts, q + 1);
                if o is Err {
                    (Err(o->Err_0), p1)
                } else {
                    proof {
                        lemma_lists_advance(ts, p1);
                    }
                    let (l, p2) = drum_list_at(ts, p1);
                    match l {
                        Err(m) => (Err(m), p2),
                        Ok(xs) => {
                            proof {
                                lemma_blocks_advance(ts, p2);
                            }
                            let (c, p3) = close_block_at(ts, p2);
                            if c is Err {
                                (Err(c->Err_0), p3)
                            } else {
                                section_body_at(ts, p3, SectionParts { drums: xs, ..acc })
                            }
                        },
                    }
                }
            },
            SpecToken::RBrace => (Ok(acc), q),
            t2 => (Err("unexpected token in section: "@ + token_debug(t2)), q),
        }
    }
}

/// No tracks yet.
pub open spec fn empty_parts() -> SectionParts {
    SectionParts { chords: seq![], bass: seq![], melody: seq![], drums: seq![] }
}

/// What closing a section gives once its body has been read: `}` must follow.
pub open spec fn section_close(ts: Seq<SpecToken>, name: Seq<char>, body: Parsed<SectionParts>) -> Parsed<
    SectionView,
> {
    match body.0 {
        Err(m) => (Err(m), body.1),
        Ok(parts) => {
            let (c, p6) = expect_tok(ts, body.1, SpecToken::RBrace);
            if c is Err {
                (Err(c->Err_0), p6)
            } else {
                (
                    Ok(
                        SectionView {
                            name,
                            chords: parts.chords,
                            bass: parts.bass,
                            melody: parts.melody,
                            drums: parts.drums,
                        },
                    ),
                    p6,
                )
            }
        },
    }
}

/// `section <name> { .. }`.
pub open spec fn section_at(ts: Seq<SpecToken>, p: nat) -> Parsed<SectionView> {
    let (a, p1) = expect_tok(ts, p, SpecToken::Section);
    if a is Err {
        (Err(a->Err_0), p1)
    } else {
        let (n, p2) = expect_ident_tok(ts, p1);
        match n {
            Err(m) => (Err(m), p2),
            Ok(name) => {
                let p3 = skip_nl(ts, p2);
                let (b, p4) = expect_tok(ts, p3, SpecToken::LBrace);
                if b is Err {
                    (Err(b->Err_0), p4)
                } else {
                    section_close(ts, name, section_body_at(ts, skip_nl(ts, p4), empty_parts()))
                }
            },
        }
    }
}

pub proof fn lemma_section_advances(ts: Seq<SpecToken>, p: nat)
    ensures
        section_at(ts, p).0 is Ok ==> section_at(ts, p).1 > p,
{
    let (a, p1) = expect_tok(ts, p, SpecToken::Section);
    if a is Ok {
        assert(p < ts.len());
        let p2 = step(ts, p1);
        lemma_skip_nl(ts, p2);
        let p3 = skip_nl(ts, p2);
        let p4 = step(ts, p3);
        lemma_skip_nl(ts, p4);
        lemma_section_body_advances(ts, skip_nl(ts, p4), empty_parts());
    }
}

pub proof fn lemma_section_body_advances(ts: Seq<SpecToken>, p: nat, acc: SectionParts)
    ensures
        section_body_at(ts, p, acc).1 >= p,
    decreases ts.len() - p,
{
    let t = tok_at(ts, p);
    if !(t is RBrace || t is Eof) {
        lemma_skip_nl(ts, p);
        let q = skip_nl(ts, p);
        lemma_blocks_advance(ts, q + 1);
        let (o, p1) = open_block_at(ts, q + 1);
        lemma_lists_advance(ts, p1);
        lemma_blocks_advance(ts, chord_list_at(ts, p1).1);
        lemma_blocks_advance(ts, note_list_at(ts, p1).1);
        lemma_blocks_advance(ts, drum_list_at(ts, p1).1);
        match tok_at(ts, q) {
            SpecToken::Chords => {
                let p3 = close_block_at(ts, chord_list_at(ts, p1).1).1;
                if let Ok(xs) = chord_list_at(ts, p1).0 {
                    lemma_section_body_advances(ts, p3, SectionParts { chords: xs, ..acc });
                }
            },
            SpecToken::Bass => {
                let p3 = close_block_at(ts, note_list_at(ts, p1).1).1;
                if let Ok(xs) = note_list_at(ts, p1).0 {
                    lemma_section_body_advances(ts, p3, SectionParts { bass: xs, ..acc });
                }
            },
            SpecToken::Melody => {
                let p3 = close_block_at(ts, note_list_at(ts, p1).1).1;
                if let Ok(xs) = note_list_at(ts, p1).0 {
                    lemma_section_body_advances(ts, p3, SectionParts { melody: xs, ..acc });
                }
            },
            SpecToken::Drums => {
                let p3 = close_block_at(ts, drum_list_at(ts, p1).1).1;
                if let Ok(xs) = drum_list_at(ts, p1).0 {
                    lemma_section_body_advances(ts, p3, SectionParts { drums: xs, ..acc });
                }
            },
            _ => {},
        }
    }
}

/// The error for an `import` line that reached the parser.
pub open spec fn import_message() -> Seq<char> {
    "unresolved import — imports must appear at the top level and are handled before parsing"@
}

/// The sections that follow the header, up to `Eof`.
pub open spec fn sections_at(ts: Seq<SpecToken>, p: nat) -> Parsed<Seq<SectionView>>
    decreases ts.len() - p,
{
    if tok_at(ts, p) is Eof {
        (Ok(seq![]), p)
    } else {
        let q = skip_nl(ts, p);
        proof {
            lemma_skip_nl(ts, p);
            lemma_section_advances(ts, q);
        }
        if tok_at(ts, q) is Eof {
            (Ok(seq![]), q)
        } else if tok_at(ts, q) is Import {
            (Err(import_message()), q)
        } else {
            let (r, q1) = section_at(ts, q);
            match r {
                Err(m) => (Err(m), q1),
                Ok(sec) => {
                    proof {
                        lemma_skip_nl(ts, q1);
                    }
                    let (rest, e) = sections_at(ts, skip_nl(ts, q1));
                    (prepend_ok(sec, rest), e)
                },
            }
        }
    }
}

/// The shift a `transpose` amount of `n` semitones gives, down if `down`: it must fit
/// in `i8`.
pub open spec fn shift_of(n: u32, down: bool) -> Result<i8, Seq<char>> {
    if down && n <= 128 {
        Ok((0 - n) as i8)
    } else if !down && n <= 127 {
        Ok(n as i8)
    } else {
        Err((if down {
            "transpose out of range: -"@
        } else {
            "transpose out of range: "@
        }) + decimal(n as nat))
    }
}

/// An optional `transpose <number>` or `transpose - <number>`, then line breaks; a song
/// without one is not shifted.
pub open spec fn transpose_at(ts: Seq<SpecToken>, p: nat) -> Parsed<i8> {
    if tok_at(ts, p) is Transpose {
        let down = tok_at(ts, step(ts, p)) is Minus;
        let p1 = if down {
            step(ts, step(ts, p))
        } else {
            step(ts, p)
        };
        let (n, p2) = expect_number_tok(ts, p1);
        match n {
            Err(m) => (Err(m), p2),
            Ok(v) => match shift_of(v, down) {
                Err(m) => (Err(m), p2),
                Ok(t) => (Ok(t), skip_nl(ts, p2)),
            },
        }
    } else {
        (Ok(0), p)
    }
}

/// What a song is once its header and its sections have been read.
pub open spec fn song_close(
    tempo: u32,
    scale: Seq<char>,
    transpose: i8,
    secs: Parsed<Seq<SectionView>>,
) -> Parsed<SongView> {
    match secs.0 {
        Err(m) => (Err(m), secs.1),
        Ok(sections) => (Ok(SongView { tempo, scale, transpose, sections }), secs.1),
    }
}

/// A whole song: line breaks, `tempo`, `scale`, an optional `transpose`, then sections.
pub open spec fn song_at(ts: Seq<SpecToken>, p: nat) -> Parsed<SongView> {
    let (t, p1) = tempo_at(ts, skip_nl(ts, p));
    match t {
        Err(m) => (Err(m), p1),
        Ok(tempo) => {
            let (s, p2) = scale_at(ts, skip_nl(ts, p1));
            match s {
                Err(m) => (Err(m), p2),
                Ok(scale) => {
                    let (x, p3) = transpose_at(ts, skip_nl(ts, p2));
                    match x {
                        Err(m) => (Err(m), p3),
                        Ok(shift) => song_close(tempo, scale, shift, sections_at(ts, skip_nl(ts, p3))),
                    }
                },
            }
        },
    }
}

/// Whether an executable result is the parsing result `r`, value and message alike.
pub open spec fn outcome_is<T: View>(res: Result<T, String>, r: Result<T::V, Seq<char>>) -> bool {
    match res {
        Ok(v) => r == Ok::<T::V, Seq<char>>(v@),
        Err(m) => r == Err::<T::V, Seq<char>>(m@),
    }
}

pub proof fn lemma_append_prepend<T>(a: Seq<T>, c: T, r: Result<Seq<T>, Seq<char>>)
    ensures
        append_ok(a, prepend_ok(c, r)) == append_ok(a.push(c), r),
{
    if let Ok(xs) = r {
        assert(a + (seq![c] + xs) == a.push(c) + xs);
    }
}

pub proof fn lemma_append_empty<T>(r: Result<Seq<T>, Seq<char>>)
    ensures
        append_ok(Seq::<T>::empty(), r) == r,
{
    if let Ok(xs) = r {
        assert(Seq::<T>::empty() + xs == xs);
    }
}

/// A number standing for each kind of token.
pub open spec fn token_kind(t: SpecToken) -> u8 {
    match t {
        SpecToken::Tempo => 0,
        SpecToken::Scale => 1,
        SpecToken::Section => 2,
        SpecToken::Chords => 3,
        SpecToken::Bass => 4,
        SpecToken::Melody => 5,
        SpecToken::Drums => 6,
        SpecToken::Import => 7,
        SpecToken::LBrace => 8,
        SpecToken::RBrace => 9,
        SpecToken::Pipe => 10,
        SpecToken::Number(_) => 11,
        SpecToken::Ident(_) => 12,
        SpecToken::Newline => 13,
        SpecToken::Eof => 14,
        SpecToken::Transpose => 15,
        SpecToken::Minus => 16,
    }
}

fn kind_of(t: &Token) -> (r: u8)
    ensures
        r == token_kind(t@),
{
    match t {
        Token::Tempo => 0,
        Token::Scale => 1,
        Token::Section => 2,
        Token::Chords => 3,
        Token::Bass => 4,
        Token::Melody => 5,
        Token::Drums => 6,
        Token::Import => 7,
        Token::LBrace => 8,
        Token::RBrace => 9,
        Token::Pipe => 10,
        Token::Number(_) => 11,
        Token::Ident(_) => 12,
        Token::Newline => 13,
        Token::Eof => 14,
        Token::Transpose => 15,
        Token::Minus => 16,
    }
}

/// Whether two tokens are the same token.
fn same_token(a: &Token, b: &Token) -> (r: bool)
    ensures
        r == (a@ == b@),
{
    match (a, b) {
        (Token::Ident(x), Token::Ident(y)) => *x == *y,
        (Token::Number(m), Token::Number(n)) => *m == *n,
        _ => {
            let k = kind_of(a);
            k == kind_of(b) && k != 11 && k != 12
        },
    }
}

/// A copy of a token.
fn copy_token(t: &Token) -> (r: Token)
    ensures
        r@ == t@,
{
    match t {
        Token::Tempo => Token::Tempo,
        Token::Scale => Token::Scale,
        Token::Section => Token::Section,
        Token::Chords => Token::Chords,
        Token::Bass => Token::Bass,
        Token::Melody => Token::Melody,
        Token::Drums => Token::Drums,
        Token::Import => Token::Import,
        Token::Transpose => Token::Transpose,
        Token::Minus => Token::Minus,
        Token::LBrace => Token::LBrace,
        Token::RBrace => Token::RBrace,
        Token::Pipe => Token::Pipe,
        Token::Number(n) => Token::Number(*n),
        Token::Ident(s) => Token::Ident(s.clone()),
        Token::Newline => Token::Newline,
        Token::Eof => Token::Eof,
    }
}

/// `prefix` followed by what `{:?}` prints for `t`.
fn message_with_token(prefix: &str, t: &Token) -> (r: String)
    ensures
        r@ == prefix@ + token_debug(t@),
{
    let mut m = text(prefix);
    let d = t.debug_text();
    push_text(&mut m, d.as_str());
    m
}

/// A recursive-descent parser over a token list.
pub struct Parser {
    tokens: Vec<Token>,
    pos: usize,
}

/// The state of a parser: its tokens and the position of the next one.
pub struct ParserView {
    pub tokens: Seq<SpecToken>,
    pub pos: nat,
}

impl View for Parser {
    type V = ParserView;

    closed spec fn view(&self) -> ParserView {
        ParserView { tokens: tokens_view(self.tokens@), pos: self.pos as nat }
    }
}

impl Parser {
    pub fn new(tokens: Vec<Token>) -> (r: Parser)
        ensures
            r@.tokens == tokens_view(tokens@),
            r@.pos == 0,
    {
        Parser { tokens, pos: 0 }
    }

    fn peek(&self) -> (r: Token)
        ensures
            r@ == tok_at(self@.tokens, self@.pos),
    {
        if self.pos < self.tokens.len() {
            copy_token(&self.tokens[self.pos])
        } else {
            Token::Eof
        }
    }

    fn advance(&mut self) -> (r: Token)
        ensures
            final(self).tokens == old(self).tokens,
            final(self)@.pos == step(old(self)@.tokens, old(self)@.pos),
            r@ == tok_at(old(self)@.tokens, old(self)@.pos),
    {
        if self.pos < self.tokens.len() {
            let t = copy_token(&self.tokens[self.pos]);
            self.pos = self.pos + 1;
            t
        } else {
            Token::Eof
        }
    }

    fn skip_newlines(&mut self)
        ensures
            final(self).tokens == old(self).tokens,
            final(self)@.pos == skip_nl(old(self)@.tokens, old(self)@.pos),
    {
        loop
            invariant
                self.tokens == old(self).tokens,
                skip_nl(self@.tokens, self@.pos) == skip_nl(old(self)@.tokens, old(self)@.pos),
            decreases self@.tokens.len() - self@.pos,
        {
            match self.peek() {
                Token::Newline => {
                    self.advance();
                },
                _ => {
                    return;
                },
            }
        }
    }

    fn expect_ident(&mut self) -> (r: Result<String, String>)
        ensures
            final(self).tokens == old(self).tokens,
            final(self)@.pos == expect_ident_tok(old(self)@.tokens, old(self)@.pos).1,
            outcome_is(r, expect_ident_tok(old(self)@.tokens, old(self)@.pos).0),
    {
        match self.advance() {
            Token::Ident(s) => Ok(s),
            other => Err(message_with_token("expected identifier, got ", &other)),
        }
    }

    fn expect_number(&mut self) -> (r: Result<u32, String>)
        ensures
            final(self).tokens == old(self).tokens,
            final(self)@.pos == expect_number_tok(old(self)@.tokens, old(self)@.pos).1,
            outcome_is(r, expect_number_tok(old(self)@.tokens, old(self)@.pos).0),
    {
        match self.advance() {
            Token::Number(n) => Ok(n),
            other => Err(message_with_token("expected number, got ", &other)),
        }
    }

    fn expect(&mut self, expected: &Token) -> (r: Result<(), String>)
        ensures
            final(self).tokens == old(self).tokens,
            final(self)@.pos == expect_tok(old(self)@.tokens, old(self)@.pos, expected@).1,
            outcome_is(r, expect_tok(old(self)@.tokens, old(self)@.pos, expected@).0),
    {
        let tok = self.advance();
        if same_token(&tok, expected) {
            Ok(())
        } else {
            let mut m = text("expected ");
            let d = expected.debug_text();
            push_text(&mut m, d.as_str());
            push_text(&mut m, ", got ");
            let g = tok.debug_text();
            push_text(&mut m, g.as_str());
            Err(m)
        }
    }

    fn parse_tempo(&mut self) -> (r: Result<u32, String>)
        ensures
            final(self).tokens == old(self).tokens,
            final(self)@.pos == tempo_at(old(self)@.tokens, old(self)@.pos).1,
            outcome_is(r, tempo_at(old(self)@.tokens, old(self)@.pos).0),
    {
        match self.expect(&Token::Tempo) {
            Err(e) => {
                return Err(e);
            },
            Ok(()) => {},
        }
        let n = match self.expect_number() {
            Err(e) => {
                return Err(e);
            },
            Ok(n) => n,
        };
        self.skip_newlines();
        Ok(n)
    }

    fn parse_scale(&mut self) -> (r: Result<String, String>)
        ensures
            final(self).tokens == old(self).tokens,
            final(self)@.pos == scale_at(old(self)@.tokens, old(self)@.pos).1,
            outcome_is(r, scale_at(old(self)@.tokens, old(self)@.pos).0),
    {
        match self.expect(&Token::Scale) {
            Err(e) => {
                return Err(e);
            },
            Ok(()) => {},
        }
        let s = match self.expect_ident() {
            Err(e) => {
                return Err(e);
            },
            Ok(s) => s,
        };
        self.skip_newlines();
        Ok(s)
    }

    fn parse_transpose(&mut self) -> (r: Result<i8, String>)
        ensures
            final(self).tokens == old(self).tokens,
            final(self)@.pos == transpose_at(old(self)@.tokens, old(self)@.pos).1,
            outcome_is(r, transpose_at(old(self)@.tokens, old(self)@.pos).0),
    {
        match self.peek() {
            Token::Transpose => {},
            _ => {
                return Ok(0);
            },
        }
        self.advance();
        let down = match self.peek() {
            Token::Minus => true,
            _ => false,
        };
        if down {
            self.advance();
        }
        let n = match self.expect_number() {
            Err(e) => {
                return Err(e);
            },
            Ok(n) => n,
        };
        let shift: i8 = if down && n <= 128 {
            (0 - (n as i32)) as i8
        } else if !down && n <= 127 {
            n as i8
        } else {
            let mut m = if down {
                text("transpose out of range: -")
            } else {
                text("transpose out of range: ")
            };
            push_decimal(&mut m, n as u128);
            return Err(m);
        };
        self.skip_newlines();
        Ok(shift)
    }

    fn parse_chord_list(&mut self) -> (r: Result<Vec<Chord>, String>)
        ensures
            final(self).tokens == old(self).tokens,
            final(self)@.pos == chord_list_at(old(self)@.tokens, old(self)@.pos).1,
            outcome_is(r, chord_list_at(old(self)@.tokens, old(self)@.pos).0),
    {
        let ghost ts = self@.tokens;
        let ghost p0 = self@.pos;
        let mut chords: Vec<Chord> = Vec::new();
        proof {
            lemma_append_empty(chord_list_at(ts, p0).0);
        }
        loop
            invariant
                self.tokens == old(self).tokens,
                ts == self@.tokens,
                ts == old(self)@.tokens,
                p0 == old(self)@.pos,
                chord_list_at(ts, p0) == (
                    append_ok(chords@, chord_list_at(ts, self@.pos).0),
                    chord_list_at(ts, self@.pos).1,
                ),
            decreases ts.len() - self@.pos,
        {
            let ghost here = self@.pos;
            self.skip_newlines();
            proof {
                lemma_skip_nl(ts, here);
            }
            match self.peek() {
                Token::Ident(s) => {
                    self.advance();
                    match parse_chord_name(s.as_str()) {
                        Ok(c) => {
                            proof {
                                lemma_append_prepend(chords@, c, chord_list_at(ts, self@.pos).0);
                            }
                            chords.push(c);
                        },
                        Err(e) => {
                            return Err(e);
                        },
                    }
                },
                Token::Pipe => {
                    self.advance();
                },
                Token::RBrace => {
                    return Ok(chords);
                },
                Token::Eof => {
                    return Ok(chords);
                },
                Token::Newline => {
                    self.advance();
                },
                other => {
                    return Err(message_with_token("unexpected token in chords: ", &other));
                },
            }
        }
    }

    fn parse_note_list(&mut self) -> (r: Result<Vec<Note>, String>)
        ensures
            final(self).tokens == old(self).tokens,
            final(self)@.pos == note_list_at(old(self)@.tokens, old(self)@.pos).1,
            outcome_is(r, note_list_at(old(self)@.tokens, old(self)@.pos).0),
    {
        let ghost ts = self@.tokens;
        let ghost p0 = self@.pos;
        let mut notes: Vec<Note> = Vec::new();
        proof {
            lemma_append_empty(note_list_at(ts, p0).0);
        }
        loop
            invariant
                self.tokens == old(self).tokens,
                ts == self@.tokens,
                ts == old(self)@.tokens,
                p0 == old(self)@.pos,
                note_list_at(ts, p0) == (
                    append_ok(notes@, note_list_at(ts, self@.pos).0),
                    note_list_at(ts, self@.pos).1,
                ),
            decreases ts.len() - self@.pos,
        {
            let ghost here = self@.pos;
            self.skip_newlines();
            proof {
                lemma_skip_nl(ts, here);
            }
            match self.peek() {
                Token::Ident(s) => {
                    self.advance();
                    let l = to_lowercase(s.as_str());
                    if string_is(&l, "rest") || string_is(&s, "_") {
                        // a rest takes no note
                    } else {
                        match parse_note_name(s.as_str()) {
                            Ok(n) => {
                                proof {
                                    lemma_append_prepend(notes@, n, note_list_at(ts, self@.pos).0);
                                }
                                notes.push(n);
                            },
                            Err(e) => {
                                return Err(e);
                            },
                        }
                    }
                },
                Token::RBrace => {
                    return Ok(notes);
                },
                Token::Eof => {
                    return Ok(notes);
                },
                Token::Newline => {
                    self.advance();
                },
                other => {
                    return Err(message_with_token("unexpected token in notes: ", &other));
                },
            }
        }
    }

    fn parse_drum_list(&mut self) -> (r: Result<Vec<DrumHit>, String>)
        ensures
            final(self).tokens == old(self).tokens,
            final(self)@.pos == drum_list_at(old(self)@.tokens, old(self)@.pos).1,
            outcome_is(r, drum_list_at(old(self)@.tokens, old(self)@.pos).0),
    {
        let ghost ts = self@.tokens;
        let ghost p0 = self@.pos;
        let mut hits: Vec<DrumHit> = Vec::new();
        proof {
            lemma_append_empty(drum_list_at(ts, p0).0);
        }
        loop
            invariant
                self.tokens == old(self).tokens,
                ts == self@.tokens,
                ts == old(self)@.tokens,
                p0 == old(self)@.pos,
                drum_list_at(ts, p0) == (
                    append_ok(hits@, drum_list_at(ts, self@.pos).0),
                    drum_list_at(ts, self@.pos).1,
                ),
            decreases ts.len() - self@.pos,
        {
            let ghost here = self@.pos;
            self.skip_newlines();
            proof {
                lemma_skip_nl(ts, here);
            }
            match self.peek() {
                Token::Ident(s) => {
                    self.advance();
                    let l = to_lowercase(s.as_str());
                    match drum_hit_of(&l) {
                        Some(h) => {
                            proof {
                                lemma_append_prepend(hits@, h, drum_list_at(ts, self@.pos).0);
                            }
                            hits.push(h);
                        },
                        None => {
                            let mut m = text("unknown drum hit: ");
                            push_text(&mut m, l.as_str());
                            return Err(m);
                        },
                    }
                },
                Token::RBrace => {
                    return Ok(hits);
                },
                Token::Eof => {
                    return Ok(hits);
                },
                Token::Newline => {
                    self.advance();
                },
                other => {
                    return Err(message_with_token("unexpected token in drums: ", &other));
                },
            }
        }
    }

    fn open_block(&mut self) -> (r: Result<(), String>)
        ensures
            final(self).tokens == old(self).tokens,
            final(self)@.pos == open_block_at(old(self)@.tokens, old(self)@.pos).1,
            outcome_is(r, open_block_at(old(self)@.tokens, old(self)@.pos).0),
    {
        self.skip_newlines();
        match self.expect(&Token::LBrace) {
            Err(e) => {
                return Err(e);
            },
            Ok(()) => {},
        }
        self.skip_newlines();
        Ok(())
    }

    fn close_block(&mut self) -> (r: Result<(), String>)
        ensures
            final(self).tokens == old(self).tokens,
            final(self)@.pos == close_block_at(old(self)@.tokens, old(self)@.pos).1,
            outcome_is(r, close_block_at(old(self)@.tokens, old(self)@.pos).0),
    {
        self.skip_newlines();
        match self.expect(&Token::RBrace) {
            Err(e) => {
                return Err(e);
            },
            Ok(()) => {},
        }
        self.skip_newlines();
        Ok(())
    }

    #[verifier::spinoff_prover]
    #[verifier::rlimit(60)]
    fn parse_section(&mut self) -> (r: Result<Section, String>)
        ensures
            final(self).tokens == old(self).tokens,
            final(self)@.pos == section_at(old(self)@.tokens, old(self)@.pos).1,
            outcome_is(r, section_at(old(self)@.tokens, old(self)@.pos).0),
    {
        let ghost ts = self@.tokens;
        match self.expect(&Token::Section) {
            Err(e) => {
                return Err(e);
            },
            Ok(()) => {},
        }
        let name = match self.expect_ident() {
            Err(e) => {
                return Err(e);
            },
            Ok(n) => n,
        };
        self.skip_newlines();
        match self.expect(&Token::LBrace) {
            Err(e) => {
                return Err(e);
            },
            Ok(()) => {},
        }
        self.skip_newlines();
        let ghost start = self@.pos;
        let mut chords: Vec<Chord> = Vec::new();
        let mut bass: Vec<Note> = Vec::new();
        let mut melody: Vec<Note> = Vec::new();
        let mut drums: Vec<DrumHit> = Vec::new();
        loop
            invariant
                self.tokens == old(self).tokens,
                ts == self@.tokens,
                ts == old(self)@.tokens,
                section_body_at(ts, start, empty_parts()) == section_body_at(
                    ts,
                    self@.pos,
                    SectionParts { chords: chords@, bass: bass@, melody: melody@, drums: drums@ },
                ),
                section_at(ts, old(self)@.pos) == section_close(
                    ts,
                    name@,
                    section_body_at(ts, start, empty_parts()),
                ),
            ensures
                self.tokens == old(self).tokens,
                section_body_at(ts, start, empty_parts()) == (
                    Ok::<SectionParts, Seq<char>>(
                        SectionParts {
                            chords: chords@,
                            bass: bass@,
                            melody: melody@,
                            drums: drums@,
                        },
                    ),
                    self@.pos,
                ),
            decreases ts.len() - self@.pos,
        {
            let ghost here = self@.pos;
            let ghost acc = SectionParts {
                chords: chords@,
                bass: bass@,
                melody: melody@,
                drums: drums@,
            };
            match self.peek() {
                Token::RBrace => {
                    break ;
                },
                Token::Eof => {
                    break ;
                },
                _ => {},
            }
            self.skip_newlines();
            let ghost q = self@.pos;
            proof {
                lemma_skip_nl(ts, here);
                lemma_blocks_advance(ts, q + 1);
            }
            match self.peek() {
                Token::Chords => {
                    self.advance();
                    match self.open_block() {
                        Err(e) => {
                            return Err(e);
                        },
                        Ok(()) => {},
                    }
                    proof {
                        lemma_lists_advance(ts, self@.pos);
                    }
                    match self.parse_chord_list() {
                        Err(e) => {
                            return Err(e);
                        },
                        Ok(l) => {
                            chords = l;
                        },
                    }
                    proof {
                        lemma_blocks_advance(ts, self@.pos);
                    }
                    match self.close_block() {
                        Err(e) => {
                            return Err(e);
                        },
                        Ok(()) => {},
                    }
                },
                Token::Bass => {
                    self.advance();
                    match self.open_block() {
                        Err(e) => {
                            return Err(e);
                        },
                        Ok(()) => {},
                    }
                    proof {
                        lemma_lists_advance(ts, self@.pos);
                    }
                    match self.parse_note_list() {
                        Err(e) => {
                            return Err(e);
                        },
                        Ok(l) => {
                            bass = l;
                        },
                    }
                    proof {
                        lemma_blocks_advance(ts, self@.pos);
                    }
                    match self.close_block() {
                        Err(e) => {
                            return Err(e);
                        },
                        Ok(()) => {},
                    }
                },
                Token::Melody => {
                    self.advance();
                    match self.open_block() {
                        Err(e) => {
                            return Err(e);
                        },
                        Ok(()) => {},
                    }
                    proof {
                        lemma_lists_advance(ts, self@.pos);
                    }
                    match self.parse_note_list() {
                        Err(e) => {
                            return Err(e);
                        },
                        Ok(l) => {
                            melody = l;
                        },
                    }
                    proof {
                        lemma_blocks_advance(ts, self@.pos);
                    }
                    match self.close_block() {
                        Err(e) => {
                            return Err(e);
                        },
                        Ok(()) => {},
                    }
                },
                Token::Drums => {
                    self.advance();
                    match self.open_block() {
                        Err(e) => {
                            return Err(e);
                        },
                        Ok(()) => {},
                    }
                    proof {
                        lemma_lists_advance(ts, self@.pos);
                    }
                    match self.parse_drum_list() {
                        Err(e) => {
                            return Err(e);
                        },
                        Ok(l) => {
                            drums = l;
                        },
                    }
                    proof {
                        lemma_blocks_advance(ts, self@.pos);
                    }
                    match self.close_block() {
                        Err(e) => {
                            return Err(e);
                        },
                        Ok(()) => {},
                    }
                },
                Token::RBrace => {
                    break ;
                },
                other => {
                    return Err(message_with_token("unexpected token in section: ", &other));
                },
            }
        }
        match self.expect(&Token::RBrace) {
            Err(e) => {
                return Err(e);
            },
            Ok(()) => {},
        }
        Ok(Section { name, chords, bass, melody, drums })
    }

    /// Reads a whole song: `tempo`, `scale`, then any number of sections.
    pub fn parse_song(&mut self) -> (r: Result<Song, String>)
        ensures
            final(self)@.tokens == old(self)@.tokens,
            final(self)@.pos == song_at(old(self)@.tokens, old(self)@.pos).1,
            outcome_is(r, song_at(old(self)@.tokens, old(self)@.pos).0),
    {
        let ghost ts = self@.tokens;
        self.skip_newlines();
        let tempo = match self.parse_tempo() {
            Err(e) => {
                return Err(e);
            },
            Ok(t) => t,
        };
        self.skip_newlines();
        let scale = match self.parse_scale() {
            Err(e) => {
                return Err(e);
            },
            Ok(s) => s,
        };
        self.skip_newlines();
        let transpose = match self.parse_transpose() {
            Err(e) => {
                return Err(e);
            },
            Ok(x) => x,
        };
        self.skip_newlines();
        let ghost start = self@.pos;
        let mut sections: Vec<Section> = Vec::new();
        proof {
            lemma_append_empty(sections_at(ts, start).0);
        }
        loop
            invariant
                self.tokens == old(self).tokens,
                ts == self@.tokens,
                ts == old(self)@.tokens,
                sections_at(ts, start) == (
                    append_ok(sections_view(sections@), sections_at(ts, self@.pos).0),
                    sections_at(ts, self@.pos).1,
                ),
                song_at(ts, old(self)@.pos) == song_close(tempo, scale@, transpose, sections_at(ts, start)),
            ensures
                self.tokens == old(self).tokens,
                sections_at(ts, start) == (
                    Ok::<Seq<SectionView>, Seq<char>>(sections_view(sections@)),
                    self@.pos,
                ),
            decreases ts.len() - self@.pos,
        {
            let ghost here = self@.pos;
            match self.peek() {
                Token::Eof => {
                    assert(sections_view(sections@) + Seq::<SectionView>::empty()
                        == sections_view(sections@));
                    break ;
                },
                _ => {},
            }
            self.skip_newlines();
            let ghost q = self@.pos;
            proof {
                lemma_skip_nl(ts, here);
                lemma_section_advances(ts, q);
            }
            match self.peek() {
                Token::Eof => {
                    assert(sections_view(sections@) + Seq::<SectionView>::empty()
                        == sections_view(sections@));
                    break ;
                },
                Token::Import => {
                    return Err(
                        text(
                            "unresolved import — imports must appear at the top level and are handled before parsing",
                        ),
                    );
                },
                _ => {},
            }
            let section = match self.parse_section() {
                Err(e) => {
                    return Err(e);
                },
                Ok(s) => s,
            };
            let ghost prev = sections_view(sections@);
            proof {
                lemma_skip_nl(ts, self@.pos);
                lemma_append_prepend(
                    prev,
                    section@,
                    sections_at(ts, skip_nl(ts, self@.pos)).0,
                );
            }
            sections.push(section);
            assert(sections_view(sections@) == prev.push(section@));
            self.skip_newlines();
        }
        Ok(Song { tempo, scale, transpose, sections })
    }
}

// ---------------------------------------------------------------------------
// Laws.

proof fn lemma_sections_end_at_eof(ts: Seq<SpecToken>, p: nat)
    ensures
        sections_at(ts, p).0 is Ok ==> tok_at(ts, sections_at(ts, p).1) is Eof,
    decreases ts.len() - p,
{
    if !(tok_at(ts, p) is Eof) {
        let q = skip_nl(ts, p);
        lemma_skip_nl(ts, p);
        lemma_section_advances(ts, q);
        if !(tok_at(ts, q) is Eof) && !(tok_at(ts, q) is Import) {
            let (r, q1) = section_at(ts, q);
            if r is Ok {
                lemma_skip_nl(ts, q1);
                lemma_sections_end_at_eof(ts, skip_nl(ts, q1));
            }
        }
    }
}

/// A song is only accepted when it is read to the end: after a successful parse the
/// next token is `Eof`, so nothing is left unread.
pub proof fn law_song_reads_to_end(ts: Seq<SpecToken>, p: nat)
    ensures
        song_at(ts, p).0 is Ok ==> tok_at(ts, song_at(ts, p).1) is Eof,
{
    let (t, p1) = tempo_at(ts, skip_nl(ts, p));
    if t is Ok {
        let (s, p2) = scale_at(ts, skip_nl(ts, p1));
        if s is Ok {
            let (x, p3) = transpose_at(ts, skip_nl(ts, p2));
            if x is Ok {
                lemma_sections_end_at_eof(ts, skip_nl(ts, p3));
            }
        }
    }
}

proof fn lemma_skip_shift(ts: Seq<SpecToken>, a: nat, ts2: Seq<SpecToken>, b: nat, k: nat)
    requires
        a <= ts.len(),
        b <= ts2.len(),
        ts.skip(a as int) == ts2.skip(b as int),
        k <= ts.len() - a,
    ensures
        ts.skip((a + k) as int) == ts2.skip((b + k) as int),
        ts.len() - a == ts2.len() - b,
{
    assert(ts.skip(a as int).len() == ts2.skip(b as int).len());
    assert(ts.skip((a + k) as int) =~= ts.skip(a as int).skip(k as int));
    assert(ts2.skip((b + k) as int) =~= ts2.skip(b as int).skip(k as int));
}

proof fn lemma_tok_shift(ts: Seq<SpecToken>, a: nat, ts2: Seq<SpecToken>, b: nat, k: nat)
    requires
        a <= ts.len(),
        b <= ts2.len(),
        ts.skip(a as int) == ts2.skip(b as int),
    ensures
        tok_at(ts, a + k) == tok_at(ts2, b + k),
{
    assert(ts.skip(a as int).len() == ts2.skip(b as int).len());
    assert(ts.skip(a as int).len() == ts.len() - a);
    assert(ts2.skip(b as int).len() == ts2.len() - b);
    if a + k < ts.len() {
        assert(ts[(a + k) as int] == ts.skip(a as int)[k as int]);
        assert(ts2[(b + k) as int] == ts2.skip(b as int)[k as int]);
    }
}

proof fn lemma_skip_nl_shift(ts: Seq<SpecToken>, a: nat, ts2: Seq<SpecToken>, b: nat)
    requires
        a <= ts.len(),
        b <= ts2.len(),
        ts.skip(a as int) == ts2.skip(b as int),
    ensures
        skip_nl(ts, a) >= a,
        skip_nl(ts, a) - a == skip_nl(ts2, b) - b,
    decreases ts.len() - a,
{
    lemma_skip_nl(ts, a);
    lemma_skip_nl(ts2, b);
    lemma_tok_shift(ts, a, ts2, b, 0);
    lemma_skip_shift(ts, a, ts2, b, 0);
    if a < ts.len() && ts[a as int] is Newline {
        lemma_skip_shift(ts, a, ts2, b, 1);
        lemma_skip_nl_shift(ts, a + 1, ts2, b + 1);
    }
}

proof fn lemma_chord_list_shift(ts: Seq<SpecToken>, a: nat, ts2: Seq<SpecToken>, b: nat)
    requires
        a <= ts.len(),
        b <= ts2.len(),
        ts.skip(a as int) == ts2.skip(b as int),
    ensures
        chord_list_at(ts, a).0 == chord_list_at(ts2, b).0,
    decreases ts.len() - a,
{
    lemma_skip_nl_shift(ts, a, ts2, b);
    lemma_skip_nl(ts, a);
    lemma_skip_nl(ts2, b);
    let q = skip_nl(ts, a);
    let q2 = skip_nl(ts2, b);
    lemma_skip_shift(ts, a, ts2, b, 0);
    let k = (q - a) as nat;
    lemma_tok_shift(ts, a, ts2, b, k);
    if q < ts.len() {
        lemma_skip_shift(ts, a, ts2, b, k + 1);
        lemma_chord_list_shift(ts, q + 1, ts2, q2 + 1);
    }
}

proof fn lemma_skip_nl_insert(ts: Seq<SpecToken>, p: nat, i: nat, x: SpecToken)
    requires
        p <= i <= ts.len(),
        !(x is Newline),
    ensures
        skip_nl(ts, p) < i ==> skip_nl(ts.insert(i as int, x), p) == skip_nl(ts, p),
        skip_nl(ts, p) >= i ==> skip_nl(ts.insert(i as int, x), p) == i,
    decreases i - p,
{
    let ts2 = ts.insert(i as int, x);
    lemma_skip_nl(ts, p);
    if p == i {
        assert(ts2[i as int] == x);
    } else {
        assert(ts2[p as int] == ts[p as int]);
        if ts[p as int] is Newline {
            lemma_skip_nl_insert(ts, p + 1, i, x);
        }
    }
}

proof fn lemma_skip_nl_mid(ts: Seq<SpecToken>, p: nat, i: nat)
    requires
        p <= i <= skip_nl(ts, p),
    ensures
        skip_nl(ts, i) == skip_nl(ts, p),
    decreases i - p,
{
    if p < i {
        lemma_skip_nl_mid(ts, p + 1, i);
    }
}

/// `|` between chords is visual only: a `|` put anywhere after the start of a chord
/// list leaves the chords read (or the error met) the same.
pub proof fn law_pipes_are_visual_only(ts: Seq<SpecToken>, p: nat, i: nat)
    requires
        p <= i <= ts.len(),
    ensures
        chord_list_at(ts.insert(i as int, SpecToken::Pipe), p).0 == chord_list_at(ts, p).0,
    decreases ts.len() - p,
{
    let ts2 = ts.insert(i as int, SpecToken::Pipe);
    lemma_skip_nl(ts, p);
    lemma_skip_nl_insert(ts, p, i, SpecToken::Pipe);
    let q = skip_nl(ts, p);
    if q < i {
        assert(ts2[q as int] == ts[q as int]);
        if q + 1 <= i {
            law_pipes_are_visual_only(ts, q + 1, i);
        }
    } else {
        assert(ts2[i as int] == SpecToken::Pipe);
        assert(ts2.skip((i + 1) as int) =~= ts.skip(i as int));
        lemma_chord_list_shift(ts2, i + 1, ts, i);
        lemma_skip_nl_mid(ts, p, i);
    }
}

/// `ts` with every `|` taken out.
pub open spec fn strip_pipes(ts: Seq<SpecToken>) -> Seq<SpecToken>
    decreases ts.len(),
{
    if ts.len() == 0 {
        seq![]
    } else if ts.last() is Pipe {
        strip_pipes(ts.drop_last())
    } else {
        strip_pipes(ts.drop_last()).push(ts.last())
    }
}

proof fn lemma_strip_prefix(u: Seq<SpecToken>, j: nat)
    requires
        j <= u.len(),
    ensures
        chord_list_at(strip_pipes(u.take(j as int)) + u.skip(j as int), 0).0 == chord_list_at(u, 0).0,
    decreases j,
{
    if j == 0 {
        assert(u.take(0) == Seq::<SpecToken>::empty());
        assert(strip_pipes(u.take(0)) + u.skip(0) == u);
    } else {
        let k = (j - 1) as nat;
        lemma_strip_prefix(u, k);
        let head = strip_pipes(u.take(k as int));
        assert(u.take(j as int).drop_last() == u.take(k as int));
        assert(u.take(j as int).last() == u[k as int]);
        let before = head + u.skip(k as int);
        if u[k as int] is Pipe {
            let after = head + u.skip(j as int);
            assert(before == after.insert(head.len() as int, SpecToken::Pipe));
            law_pipes_are_visual_only(after, 0, head.len());
        } else {
            assert(strip_pipes(u.take(j as int)) + u.skip(j as int) == before);
        }
    }
}

/// `|` between chords is visual only: with every `|` taken out of the tokens from
/// the start of a chord list on, the chords read (or the error met) stay the same.
pub proof fn law_all_pipes_are_visual_only(ts: Seq<SpecToken>, p: nat)
    requires
        p <= ts.len(),
    ensures
        chord_list_at(strip_pipes(ts.skip(p as int)), 0).0 == chord_list_at(ts, p).0,
{
    let u = ts.skip(p as int);
    assert(u.skip(0) == u);
    lemma_chord_list_shift(ts, p, u, 0);
    lemma_strip_prefix(u, u.len());
    assert(u.take(u.len() as int) == u);
    assert(u.skip(u.len() as int) == Seq::<SpecToken>::empty());
    assert(strip_pipes(u) + Seq::<SpecToken>::empty() == strip_pipes(u));
}

proof fn lemma_note_list_shift(ts: Seq<SpecToken>, a: nat, ts2: Seq<SpecToken>, b: nat)
    requires
        a <= ts.len(),
        b <= ts2.len(),
        ts.skip(a as int) == ts2.skip(b as int),
    ensures
        note_list_at(ts, a).0 == note_list_at(ts2, b).0,
    decreases ts.len() - a,
{
    lemma_skip_nl_shift(ts, a, ts2, b);
    lemma_skip_nl(ts, a);
    lemma_skip_nl(ts2, b);
    let q = skip_nl(ts, a);
    let q2 = skip_nl(ts2, b);
    lemma_skip_shift(ts, a, ts2, b, 0);
    let k = (q - a) as nat;
    lemma_tok_shift(ts, a, ts2, b, k);
    if q < ts.len() {
        lemma_skip_shift(ts, a, ts2, b, k + 1);
        lemma_note_list_shift(ts, q + 1, ts2, q2 + 1);
    }
}

proof fn lemma_skip_nl_before(ts: Seq<SpecToken>, p: nat, i: nat, x: SpecToken)
    requires
        p <= i <= ts.len(),
        skip_nl(ts, p) < i,
    ensures
        skip_nl(ts.insert(i as int, x), p) == skip_nl(ts, p),
    decreases i - p,
{
    let ts2 = ts.insert(i as int, x);
    lemma_skip_nl(ts, p);
    assert(ts2[p as int] == ts[p as int]);
    if ts[p as int] is Newline {
        lemma_skip_nl_before(ts, p + 1, i, x);
    }
}

proof fn lemma_skip_nl_prefix(ts: Seq<SpecToken>, p: nat)
    ensures
        forall|k: int| p <= k < skip_nl(ts, p) ==> #[trigger] ts[k] is Newline,
    decreases ts.len() - p,
{
    if p < ts.len() && ts[p as int] is Newline {
        lemma_skip_nl_prefix(ts, p + 1);
    }
}

proof fn lemma_skip_nl_all(ts: Seq<SpecToken>, p: nat, j: nat)
    requires
        p <= j <= ts.len(),
        forall|k: int| p <= k < j ==> #[trigger] ts[k] is Newline,
    ensures
        skip_nl(ts, p) == skip_nl(ts, j),
    decreases j - p,
{
    if p < j {
        lemma_skip_nl_all(ts, p + 1, j);
    }
}

proof fn lemma_note_list_from_skip(ts: Seq<SpecToken>, p: nat)
    ensures
        note_list_at(ts, p) == note_list_at(ts, skip_nl(ts, p)),
{
    lemma_skip_nl(ts, p);
    let q = skip_nl(ts, p);
    assert(skip_nl(ts, q) == q);
}

/// Line breaks inside a bass or melody block are insignificant: a line break put
/// anywhere after the start of a note list leaves the notes read (or the error met)
/// the same.
pub proof fn law_line_breaks_in_note_lists(ts: Seq<SpecToken>, p: nat, i: nat)
    requires
        p <= i <= ts.len(),
    ensures
        note_list_at(ts.insert(i as int, SpecToken::Newline), p).0 == note_list_at(ts, p).0,
    decreases ts.len() - p,
{
    let ts2 = ts.insert(i as int, SpecToken::Newline);
    lemma_skip_nl(ts, p);
    let q = skip_nl(ts, p);
    if q < i {
        lemma_skip_nl_before(ts, p, i, SpecToken::Newline);
        assert(ts2[q as int] == ts[q as int]);
        law_line_breaks_in_note_lists(ts, q + 1, i);
    } else {
        lemma_skip_nl_prefix(ts, p);
        assert forall|k: int| p <= k < i + 1 implies #[trigger] ts2[k] is Newline by {
            if k < i {
                assert(ts2[k] == ts[k]);
            }
        }
        lemma_skip_nl_all(ts2, p, i + 1);
        lemma_note_list_from_skip(ts2, p);
        lemma_note_list_from_skip(ts2, i + 1);
        assert(ts2.skip((i + 1) as int) =~= ts.skip(i as int));
        lemma_note_list_shift(ts2, i + 1, ts, i);
        lemma_skip_nl_all(ts, p, i);
        lemma_note_list_from_skip(ts, i);
        lemma_note_list_from_skip(ts, p);
    }
}

proof fn lemma_drum_list_shift(ts: Seq<SpecToken>, a: nat, ts2: Seq<SpecToken>, b: nat)
    requires
        a <= ts.len(),
        b <= ts2.len(),
        ts.skip(a as int) == ts2.skip(b as int),
    ensures
        drum_list_at(ts, a).0 == drum_list_at(ts2, b).0,
    decreases ts.len() - a,
{
    lemma_skip_nl_shift(ts, a, ts2, b);
    lemma_skip_nl(ts, a);
    lemma_skip_nl(ts2, b);
    let q = skip_nl(ts, a);
    let q2 = skip_nl(ts2, b);
    lemma_skip_shift(ts, a, ts2, b, 0);
    let k = (q - a) as nat;
    lemma_tok_shift(ts, a, ts2, b, k);
    if q < ts.len() {
        lemma_skip_shift(ts, a, ts2, b, k + 1);
        lemma_drum_list_shift(ts, q + 1, ts2, q2 + 1);
    }
}

proof fn lemma_chord_list_from_skip(ts: Seq<SpecToken>, p: nat)
    ensures
        chord_list_at(ts, p) == chord_list_at(ts, skip_nl(ts, p)),
{
    lemma_skip_nl(ts, p);
    let q = skip_nl(ts, p);
    assert(skip_nl(ts, q) == q);
}

/// Line breaks inside a chords block are insignificant: a line break put anywhere
/// after the start of a chord list leaves the chords read (or the error met) the same.
pub proof fn law_line_breaks_in_chord_lists(ts: Seq<SpecToken>, p: nat, i: nat)
    requires
        p <= i <= ts.len(),
    ensures
        chord_list_at(ts.insert(i as int, SpecToken::Newline), p).0 == chord_list_at(ts, p).0,
    decreases ts.len() - p,
{
    let ts2 = ts.insert(i as int, SpecToken::Newline);
    lemma_skip_nl(ts, p);
    let q = skip_nl(ts, p);
    if q < i {
        lemma_skip_nl_before(ts, p, i, SpecToken::Newline);
        assert(ts2[q as int] == ts[q as int]);
        law_line_breaks_in_chord_lists(ts, q + 1, i);
    } else {
        lemma_skip_nl_prefix(ts, p);
        assert forall|k: int| p <= k < i + 1 implies #[trigger] ts2[k] is Newline by {
            if k < i {
                assert(ts2[k] == ts[k]);
            }
        }
        lemma_skip_nl_all(ts2, p, i + 1);
        lemma_chord_list_from_skip(ts2, p);
        lemma_chord_list_from_skip(ts2, i + 1);
        assert(ts2.skip((i + 1) as int) =~= ts.skip(i as int));
        lemma_chord_list_shift(ts2, i + 1, ts, i);
        lemma_skip_nl_all(ts, p, i);
        lemma_chord_list_from_skip(ts, i);
        lemma_chord_list_from_skip(ts, p);
    }
}

proof fn lemma_drum_list_from_skip(ts: Seq<SpecToken>, p: nat)
    ensures
        drum_list_at(ts, p) == drum_list_at(ts, skip_nl(ts, p)),
{
    lemma_skip_nl(ts, p);
    let q = skip_nl(ts, p);
    assert(skip_nl(ts, q) == q);
}

/// Line breaks inside a drums block are insignificant: a line break put anywhere
/// after the start of a drum list leaves the hits read (or the error met) the same.
pub proof fn law_line_breaks_in_drum_lists(ts: Seq<SpecToken>, p: nat, i: nat)
    requires
        p <= i <= ts.len(),
    ensures
        drum_list_at(ts.insert(i as int, SpecToken::Newline), p).0 == drum_list_at(ts, p).0,
    decreases ts.len() - p,
{
    let ts2 = ts.insert(i as int, SpecToken::Newline);
    lemma_skip_nl(ts, p);
    let q = skip_nl(ts, p);
    if q < i {
        lemma_skip_nl_before(ts, p, i, SpecToken::Newline);
        assert(ts2[q as int] == ts[q as int]);
        law_line_breaks_in_drum_lists(ts, q + 1, i);
    } else {
        lemma_skip_nl_prefix(ts, p);
        assert forall|k: int| p <= k < i + 1 implies #[trigger] ts2[k] is Newline by {
            if k < i {
                assert(ts2[k] == ts[k]);
            }
        }
        lemma_skip_nl_all(ts2, p, i + 1);
        lemma_drum_list_from_skip(ts2, p);
        lemma_drum_list_from_skip(ts2, i + 1);
        assert(ts2.skip((i + 1) as int) =~= ts.skip(i as int));
        lemma_drum_list_shift(ts2, i + 1, ts, i);
        lemma_skip_nl_all(ts, p, i);
        lemma_drum_list_from_skip(ts, i);
        lemma_drum_list_from_skip(ts, p);
    }
}

} // verus!
