use vstd::prelude::*;
use vstd::string::*;
use crate::ast::{Accidental, Chord, ChordQuality, DrumHit, Note, NoteDuration};
use crate::text::{
    chars_of, digit_char, digit_value, digits_value, is_digit, push_char, push_text, string_of, tail_is, text,
};

verus! {

/// Whether a character names a note or chord root.
pub open spec fn is_pitch_letter(c: char) -> bool {
    'A' <= c <= 'G'
}

/// The chord quality a suffix names.
pub open spec fn quality_of(rest: Seq<char>) -> Option<ChordQuality> {
    if rest == ""@ || rest == "maj"@ {
        Some(ChordQuality::Major)
    } else if rest == "m"@ || rest == "min"@ {
        Some(ChordQuality::Minor)
    } else if rest == "7"@ {
        Some(ChordQuality::Dominant7)
    } else if rest == "maj7"@ || rest == "M7"@ {
        Some(ChordQuality::Major7)
    } else if rest == "m7"@ || rest == "min7"@ {
        Some(ChordQuality::Minor7)
    } else {
        None
    }
}

/// How many characters a chord's accidental takes (after the root), and which it is.
/// A `b` is a flat only where it ends the name or stands before `7`.
pub open spec fn chord_accidental(s: Seq<char>) -> (Accidental, int) {
    if s.len() > 1 && s[1] == '#' {
        (Accidental::Sharp, 2)
    } else if s.len() > 1 && s[1] == 'b' && (s.len() == 2 || s[2] == '7') {
        (Accidental::Flat, 2)
    } else {
        (Accidental::Natural, 1)
    }
}

/// The chord a name such as `F#m` or `Cmaj7` stands for, or the error message.
pub open spec fn chord_of(s: Seq<char>) -> Result<Chord, Seq<char>> {
    if s.len() == 0 {
        Err("empty chord name"@)
    } else if !is_pitch_letter(s[0]) {
        Err("invalid chord root: "@ + seq![s[0]])
    } else {
        let (acc, k) = chord_accidental(s);
        let rest = s.skip(k);
        match quality_of(rest) {
            Some(q) => Ok(Chord { root: s[0], accidental: acc, quality: q }),
            None => Err("unknown chord quality: "@ + rest),
        }
    }
}

/// A note's accidental (after the pitch) and where the text after it starts.
pub open spec fn note_accidental(s: Seq<char>) -> (Accidental, int) {
    if s.len() > 1 && s[1] == '#' {
        (Accidental::Sharp, 2)
    } else if s.len() > 1 && s[1] == 'b' {
        (Accidental::Flat, 2)
    } else {
        (Accidental::Natural, 1)
    }
}

/// A note's duration letter (at `k`) and where the octave starts.
pub open spec fn note_duration(s: Seq<char>, k: int) -> (NoteDuration, int) {
    if s.len() > k && s[k] == 'w' {
        (NoteDuration::Whole, k + 1)
    } else if s.len() > k && s[k] == 'h' {
        (NoteDuration::Half, k + 1)
    } else if s.len() > k && s[k] == 'e' {
        (NoteDuration::Eighth, k + 1)
    } else if s.len() > k && s[k] == 't' {
        (NoteDuration::TripletEighth, k + 1)
    } else {
        (NoteDuration::Quarter, k)
    }
}

/// Where the first `:` at or after `k` stands in `s`, or the length of `s` if none does.
pub open spec fn colon_at(s: Seq<char>, k: int) -> int
    decreases s.len() - k,
{
    if k < 0 || k >= s.len() {
        s.len() as int
    } else if s[k] == ':' {
        k
    } else {
        colon_at(s, k + 1)
    }
}

/// Whether every character of `d` is an ASCII digit.
pub open spec fn all_digits(d: Seq<char>) -> bool {
    forall|i: int| 0 <= i < d.len() ==> is_digit(#[trigger] d[i])
}

/// What `str::parse::<u8>` gives: an optional `+`, then at least one ASCII digit,
/// and a value of at most 255.
pub open spec fn parse_u8(t: Seq<char>) -> Option<u8> {
    let d = if t.len() > 0 && t[0] == '+' {
        t.skip(1)
    } else {
        t
    };
    if d.len() > 0 && all_digits(d) && digits_value(d) <= 255 {
        Some(digits_value(d) as u8)
    } else {
        None
    }
}

/// The note a name such as `F#4`, `Bbw2` or `A4:64` stands for, or the error message.
/// The duration letter stands before the octave, or, where none does, after it.
/// `R` followed by nothing but a duration letter is a rest of that length; any other
/// word starting with `R` has an invalid pitch.
pub open spec fn note_of(s: Seq<char>) -> Result<Note, Seq<char>> {
    if s.len() == 0 {
        Err("empty note"@)
    } else if s[0] == 'R' && note_duration(s, 1).1 == s.len() {
        Ok(
            Note {
                pitch: 'R',
                accidental: Accidental::Natural,
                octave: 0,
                duration: note_duration(s, 1).0,
                velocity: None,
            },
        )
    } else if !is_pitch_letter(s[0]) {
        Err("invalid note pitch: "@ + seq![s[0]])
    } else {
        let (acc, k1) = note_accidental(s);
        let (early, k2) = note_duration(s, k1);
        let c = colon_at(s, k2);
        // without a letter before the octave, one may follow it (as in `G4e:80`)
        let late = k2 == k1 && c >= k2 + 2 && note_duration(s, c - 1).1 == c;
        let dur = if late {
            note_duration(s, c - 1).0
        } else {
            early
        };
        let e = if late {
            c - 1
        } else {
            c
        };
        match parse_u8(s.subrange(k2, e)) {
            None => Err("invalid octave in note: "@ + s),
            Some(o) => if c == s.len() {
                Ok(Note { pitch: s[0], accidental: acc, octave: o, duration: dur, velocity: None })
            } else {
                match parse_u8(s.skip(c + 1)) {
                    Some(vel) => if vel <= 127 {
                        Ok(Note { pitch: s[0], accidental: acc, octave: o, duration: dur, velocity: Some(vel) })
                    } else {
                        Err("invalid velocity in note: "@ + s)
                    },
                    None => Err("invalid velocity in note: "@ + s),
                }
            },
        }
    }
}

/// The drum hit a (lowercased) word names.
pub open spec fn drum_of(l: Seq<char>) -> Option<DrumHit> {
    if l == "kick"@ || l == "k"@ {
        Some(DrumHit::Kick)
    } else if l == "snare"@ || l == "s"@ {
        Some(DrumHit::Snare)
    } else if l == "hihat"@ || l == "hh"@ || l == "h"@ {
        Some(DrumHit::HiHat)
    } else if l == "_"@ || l == "rest"@ {
        Some(DrumHit::Rest)
    } else {
        None
    }
}

fn message_with_char(prefix: &str, c: char) -> (r: String)
    ensures
        r@ == prefix@ + seq![c],
{
    let mut m = text(prefix);
    push_char(&mut m, c);
    m
}

fn message_with_tail(prefix: &str, v: &Vec<char>, from: usize) -> (r: String)
    requires
        from <= v@.len(),
    ensures
        r@ == prefix@ + v@.skip(from as int),
{
    let mut m = text(prefix);
    let rest = string_of(v, from, v.len());
    push_text(&mut m, rest.as_str());
    assert(v@.subrange(from as int, v@.len() as int) == v@.skip(from as int));
    m
}

/// Reads a chord name such as `C`, `Am`, `F#m`, `G7`, `Cmaj7` or `Dm7`.
pub fn parse_chord_name(s: &str) -> (r: Result<Chord, String>)
    ensures
        r matches Ok(c) ==> chord_of(s@) == Ok::<Chord, Seq<char>>(c),
        r matches Err(m) ==> chord_of(s@) == Err::<Chord, Seq<char>>(m@),
{
    let v = chars_of(s);
    if v.len() == 0 {
        return Err(text("empty chord name"));
    }
    let root = v[0];
    if !('A' <= root && root <= 'G') {
        return Err(message_with_char("invalid chord root: ", root));
    }
    let (accidental, k): (Accidental, usize) = if v.len() > 1 && v[1] == '#' {
        (Accidental::Sharp, 2)
    } else if v.len() > 1 && v[1] == 'b' && (v.len() == 2 || v[2] == '7') {
        (Accidental::Flat, 2)
    } else {
        (Accidental::Natural, 1)
    };
    let quality = if tail_is(&v, k, "") || tail_is(&v, k, "maj") {
        ChordQuality::Major
    } else if tail_is(&v, k, "m") || tail_is(&v, k, "min") {
        ChordQuality::Minor
    } else if tail_is(&v, k, "7") {
        ChordQuality::Dominant7
    } else if tail_is(&v, k, "maj7") || tail_is(&v, k, "M7") {
        ChordQuality::Major7
    } else if tail_is(&v, k, "m7") || tail_is(&v, k, "min7") {
        ChordQuality::Minor7
    } else {
        return Err(message_with_tail("unknown chord quality: ", &v, k));
    };
    Ok(Chord { root, accidental, quality })
}

/// `str::parse::<u8>` on the characters `v[from..to]`.
fn parse_u8_range(v: &Vec<char>, from: usize, to: usize) -> (r: Option<u8>)
    requires
        from <= to <= v@.len(),
    ensures
        r == parse_u8(v@.subrange(from as int, to as int)),
{
    let ghost t = v@.subrange(from as int, to as int);
    let start: usize = if from < to && v[from] == '+' {
        from + 1
    } else {
        from
    };
    let ghost d = v@.subrange(start as int, to as int);
    assert(d == (if t.len() > 0 && t[0] == '+' {
        t.skip(1)
    } else {
        t
    }));
    if start == to {
        return None;
    }
    let mut value: u32 = 0;
    let mut over = false;
    let mut i = start;
    while i < to
        invariant
            start <= i <= to <= v@.len(),
            d == v@.subrange(start as int, to as int),
            t == v@.subrange(from as int, to as int),
            d == (if t.len() > 0 && t[0] == '+' {
                t.skip(1)
            } else {
                t
            }),
            all_digits(v@.subrange(start as int, i as int)),
            !over ==> value == digits_value(v@.subrange(start as int, i as int)) && value <= 255,
            over ==> digits_value(v@.subrange(start as int, i as int)) > 255,
        decreases to - i,
    {
        let c = v[i];
        if !('0' <= c && c <= '9') {
            assert(d[i - start] == c);
            assert(!is_digit(d[i - start]));
            assert(!all_digits(d));
            return None;
        }
        let ghost before = v@.subrange(start as int, i as int);
        let ghost after = v@.subrange(start as int, i + 1);
        assert(after.drop_last() == before);
        assert(after.last() == c);
        assert(digit_value(c) == c as u32 - '0' as u32);
        if !over {
            let w = value * 10 + (c as u32 - '0' as u32);
            if w > 255 {
                over = true;
            } else {
                value = w;
            }
        }
        i = i + 1;
    }
    if over {
        None
    } else {
        Some(value as u8)
    }
}

/// Where the first `:` at or after `from` stands in `v`, or its length if none does.
fn find_colon(v: &Vec<char>, from: usize) -> (r: usize)
    requires
        from <= v@.len(),
    ensures
        r == colon_at(v@, from as int),
        from <= r <= v@.len(),
{
    let mut i = from;
    while i < v.len()
        invariant
            from <= i <= v@.len(),
            colon_at(v@, from as int) == colon_at(v@, i as int),
        decreases v@.len() - i,
    {
        if v[i] == ':' {
            return i;
        }
        i = i + 1;
    }
    i
}

fn message_with_text(prefix: &str, s: &str) -> (r: String)
    ensures
        r@ == prefix@ + s@,
{
    let mut m = text(prefix);
    push_text(&mut m, s);
    m
}

fn duration_letter(v: &Vec<char>, k: usize) -> (r: (NoteDuration, usize))
    requires
        k <= v@.len(),
    ensures
        r.0 == note_duration(v@, k as int).0,
        r.1 == note_duration(v@, k as int).1,
{
    if v.len() > k && v[k] == 'w' {
        (NoteDuration::Whole, k + 1)
    } else if v.len() > k && v[k] == 'h' {
        (NoteDuration::Half, k + 1)
    } else if v.len() > k && v[k] == 'e' {
        (NoteDuration::Eighth, k + 1)
    } else if v.len() > k && v[k] == 't' {
        (NoteDuration::TripletEighth, k + 1)
    } else {
        (NoteDuration::Quarter, k)
    }
}

/// Reads a note name: pitch, optional `#` or `b`, optional duration letter
/// (`w`, `h`, `e`, `t`; a quarter otherwise), the octave, and optionally `:` and a
/// velocity of at most 127. Where no letter stands before the octave, one may follow
/// it. `R` with an optional duration letter is a rest; any other word with `R` fails
/// on its pitch.
pub fn parse_note_name(s: &str) -> (r: Result<Note, String>)
    ensures
        r matches Ok(n) ==> note_of(s@) == Ok::<Note, Seq<char>>(n),
        r matches Err(m) ==> note_of(s@) == Err::<Note, Seq<char>>(m@),
{
    let v = chars_of(s);
    if v.len() == 0 {
        return Err(text("empty note"));
    }
    let pitch = v[0];
    if pitch == 'R' {
        let (duration, k) = duration_letter(&v, 1);
        if k == v.len() {
            return Ok(
                Note { pitch: 'R', accidental: Accidental::Natural, octave: 0, duration, velocity: None },
            );
        }
    }
    if !('A' <= pitch && pitch <= 'G') {
        return Err(message_with_char("invalid note pitch: ", pitch));
    }
    let (accidental, k1): (Accidental, usize) = if v.len() > 1 && v[1] == '#' {
        (Accidental::Sharp, 2)
    } else if v.len() > 1 && v[1] == 'b' {
        (Accidental::Flat, 2)
    } else {
        (Accidental::Natural, 1)
    };
    let (early, k2) = duration_letter(&v, k1);
    let c = find_colon(&v, k2);
    let mut duration = early;
    let mut e = c;
    if k2 == k1 && c >= k2 + 2 {
        let (d, after) = duration_letter(&v, c - 1);
        if after == c {
            duration = d;
            e = c - 1;
        }
    }
    let octave = match parse_u8_range(&v, k2, e) {
        Some(o) => o,
        None => {
            return Err(message_with_text("invalid octave in note: ", s));
        },
    };
    if c == v.len() {
        return Ok(Note { pitch, accidental, octave, duration, velocity: None });
    }
    assert(v@.subrange(c + 1, v@.len() as int) == v@.skip(c + 1));
    match parse_u8_range(&v, c + 1, v.len()) {
        Some(vel) => if vel <= 127 {
            Ok(Note { pitch, accidental, octave, duration, velocity: Some(vel) })
        } else {
            Err(message_with_text("invalid velocity in note: ", s))
        },
        None => Err(message_with_text("invalid velocity in note: ", s)),
    }
}

/// Reads a (lowercased) drum word: `kick`/`k`, `snare`/`s`, `hihat`/`hh`/`h`, `_`/`rest`.
pub fn drum_hit_of(l: &String) -> (r: Option<DrumHit>)
    ensures
        r == drum_of(l@),
{
    let v = chars_of(l.as_str());
    assert(v@.skip(0) == v@);
    if tail_is(&v, 0, "kick") || tail_is(&v, 0, "k") {
        Some(DrumHit::Kick)
    } else if tail_is(&v, 0, "snare") || tail_is(&v, 0, "s") {
        Some(DrumHit::Snare)
    } else if tail_is(&v, 0, "hihat") || tail_is(&v, 0, "hh") || tail_is(&v, 0, "h") {
        Some(DrumHit::HiHat)
    } else if tail_is(&v, 0, "_") || tail_is(&v, 0, "rest") {
        Some(DrumHit::Rest)
    } else {
        None
    }
}

proof fn lemma_one_digit(o: int)
    requires
        0 <= o <= 9,
    ensures
        is_digit(digit_char(o)),
        digit_char(o) != ':' && digit_char(o) != 'w' && digit_char(o) != 'h',
        digit_char(o) != 'e' && digit_char(o) != 't',
        parse_u8(seq![digit_char(o)]) == Some(o as u8),
{
    let d = seq![digit_char(o)];
    assert(digit_value(digit_char(o)) == o);
    assert(d.drop_last() == Seq::<char>::empty());
    assert(digits_value(Seq::<char>::empty()) == 0);
    assert(d.last() == digit_char(o));
    assert(digits_value(d) == digits_value(d.drop_last()) * 10 + digit_value(d.last()));
    assert(digits_value(d) == o);
    assert(all_digits(d));
}

/// A note named by a pitch letter, an accidental and a one-digit octave is that pitch,
/// raised by `#` or lowered by `b` (whatever follows the `b`), in that octave, a
/// quarter note without velocity; with no accidental it is natural.
pub proof fn law_accidentals_in_note_names(p: char, o: int)
    requires
        is_pitch_letter(p),
        0 <= o <= 9,
    ensures
        note_of(seq![p, 'b', digit_char(o)]) == Ok::<Note, Seq<char>>(
            Note {
                pitch: p,
                accidental: Accidental::Flat,
                octave: o as u8,
                duration: NoteDuration::Quarter,
                velocity: None,
            },
        ),
        note_of(seq![p, '#', digit_char(o)]) == Ok::<Note, Seq<char>>(
            Note {
                pitch: p,
                accidental: Accidental::Sharp,
                octave: o as u8,
                duration: NoteDuration::Quarter,
                velocity: None,
            },
        ),
        note_of(seq![p, digit_char(o)]) == Ok::<Note, Seq<char>>(
            Note {
                pitch: p,
                accidental: Accidental::Natural,
                octave: o as u8,
                duration: NoteDuration::Quarter,
                velocity: None,
            },
        ),
{
    lemma_one_digit(o);
    let c = digit_char(o);
    let f = seq![p, 'b', c];
    assert(colon_at(f, 3) == 3);
    assert(colon_at(f, 2) == 3);
    assert(f.subrange(2, 3) == seq![c]);
    let sh = seq![p, '#', c];
    assert(colon_at(sh, 3) == 3);
    assert(colon_at(sh, 2) == 3);
    assert(sh.subrange(2, 3) == seq![c]);
    let n = seq![p, c];
    assert(colon_at(n, 2) == 2);
    assert(colon_at(n, 1) == 2);
    assert(n.subrange(1, 2) == seq![c]);
}

} // verus!
