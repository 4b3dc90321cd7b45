use vstd::prelude::*;
use vstd::string::*;
use crate::text::{
    alphabetic, alphanumeric, char_debug, char_is_alphabetic, char_is_alphanumeric, chars_of,
    debug_char, debug_str, decimal, digits_value, is_digit, push_decimal, push_text, str_debug,
    string_is, string_of, text,
};

verus! {

#[derive(Debug, Clone, PartialEq)]
pub enum Token {
    // Keywords
    Tempo,
    Scale,
    Section,
    Chords,
    Bass,
    Melody,
    Drums,
    Import,
    Transpose,
    // Symbols
    LBrace,
    RBrace,
    Pipe,
    Minus,
    // Values
    Number(u32),
    Ident(String),
    // Control
    Newline,
    Eof,
}

/// The mathematical value of a token: an identifier is its characters.
pub enum SpecToken {
    Tempo,
    Scale,
    Section,
    Chords,
    Bass,
    Melody,
    Drums,
    Import,
    Transpose,
    LBrace,
    RBrace,
    Pipe,
    Minus,
    Number(u32),
    Ident(Seq<char>),
    Newline,
    Eof,
}

impl View for Token {
    type V = SpecToken;

    open spec fn view(&self) -> SpecToken {
        match self {
            Token::Tempo => SpecToken::Tempo,
            Token::Scale => SpecToken::Scale,
            Token::Section => SpecToken::Section,
            Token::Chords => SpecToken::Chords,
            Token::Bass => SpecToken::Bass,
            Token::Melody => SpecToken::Melody,
            Token::Drums => SpecToken::Drums,
            Token::Import => SpecToken::Import,
            Token::Transpose => SpecToken::Transpose,
            Token::LBrace => SpecToken::LBrace,
            Token::RBrace => SpecToken::RBrace,
            Token::Pipe => SpecToken::Pipe,
            Token::Minus => SpecToken::Minus,
            Token::Number(n) => SpecToken::Number(*n),
            Token::Ident(s) => SpecToken::Ident(s@),
            Token::Newline => SpecToken::Newline,
            Token::Eof => SpecToken::Eof,
        }
    }
}

/// The values of a sequence of tokens.
pub open spec fn tokens_view(ts: Seq<Token>) -> Seq<SpecToken> {
    ts.map_values(|t: Token| t@)
}

/// What `{:?}` prints for a token.
pub open spec fn token_debug(t: SpecToken) -> Seq<char> {
    match t {
        SpecToken::Tempo => "Tempo"@,
        SpecToken::Scale => "Scale"@,
        SpecToken::Section => "Section"@,
        SpecToken::Chords => "Chords"@,
        SpecToken::Bass => "Bass"@,
        SpecToken::Melody => "Melody"@,
        SpecToken::Drums => "Drums"@,
        SpecToken::Import => "Import"@,
        SpecToken::Transpose => "Transpose"@,
        SpecToken::LBrace => "LBrace"@,
        SpecToken::RBrace => "RBrace"@,
        SpecToken::Pipe => "Pipe"@,
        SpecToken::Minus => "Minus"@,
        SpecToken::Number(n) => "Number("@ + decimal(n as nat) + ")"@,
        SpecToken::Ident(s) => "Ident("@ + str_debug(s) + ")"@,
        SpecToken::Newline => "Newline"@,
        SpecToken::Eof => "Eof"@,
    }
}

/// How a token reads in messages: a number or identifier by its text, anything else by its name.
pub open spec fn token_display(t: SpecToken) -> Seq<char> {
    match t {
        SpecToken::Number(n) => decimal(n as nat),
        SpecToken::Ident(s) => s,
        _ => token_debug(t),
    }
}

impl Token {
    /// The text `{:?}` prints for this token.
    pub fn debug_text(&self) -> (r: String)
        ensures
            r@ == token_debug(self@),
    {
        match self {
            Token::Tempo => text("Tempo"),
            Token::Scale => text("Scale"),
            Token::Section => text("Section"),
            Token::Chords => text("Chords"),
            Token::Bass => text("Bass"),
            Token::Melody => text("Melody"),
            Token::Drums => text("Drums"),
            Token::Import => text("Import"),
            Token::Transpose => text("Transpose"),
            Token::LBrace => text("LBrace"),
            Token::RBrace => text("RBrace"),
            Token::Pipe => text("Pipe"),
            Token::Minus => text("Minus"),
            Token::Number(n) => {
                let mut out = text("Number(");
                push_decimal(&mut out, *n as u128);
                push_text(&mut out, ")");
                out
            },
            Token::Ident(s) => {
                let mut out = text("Ident(");
                let d = debug_str(s.as_str());
                push_text(&mut out, d.as_str());
                push_text(&mut out, ")");
                out
            },
            Token::Newline => text("Newline"),
            Token::Eof => text("Eof"),
        }
    }

    /// The text this token shows in messages.
    pub fn display_text(&self) -> (r: String)
        ensures
            r@ == token_display(self@),
    {
        match self {
            Token::Number(n) => {
                let mut out = String::new();
                push_decimal(&mut out, *n as u128);
                out
            },
            Token::Ident(s) => text(s.as_str()),
            _ => self.debug_text(),
        }
    }
}

/// Classes of characters that the lexer reads in runs.
#[derive(Clone, Copy)]
pub enum CharClass {
    /// Spaces, tabs and carriage returns, skipped between tokens.
    Blank,
    /// Line feeds and carriage returns, folded into one line break.
    LineBreak,
    /// Anything but a line feed: the body of a comment.
    NotNewline,
    /// ASCII digits.
    Digit,
    /// Characters that continue an identifier: letters, digits, `_` and `#`.
    IdentChar,
}

pub open spec fn in_class(k: CharClass, c: char) -> bool {
    match k {
        CharClass::Blank => c == ' ' || c == '\t' || c == '\r',
        CharClass::LineBreak => c == '\n' || c == '\r',
        CharClass::NotNewline => c != '\n',
        CharClass::Digit => is_digit(c),
        CharClass::IdentChar => alphanumeric(c) || c == '_' || c == '#',
    }
}

/// The end of the word whose characters continue from `p`: characters of `IdentChar`,
/// and a `:` that a digit follows, as in a note's velocity (`A4:64`).
pub open spec fn word_end(s: Seq<char>, p: nat) -> nat
    decreases s.len() - p,
{
    if p < s.len() && in_class(CharClass::IdentChar, s[p as int]) {
        word_end(s, p + 1)
    } else if p + 1 < s.len() && s[p as int] == ':' && is_digit(s[p + 1 as int]) {
        word_end(s, p + 1)
    } else {
        p
    }
}

pub proof fn lemma_word_end(s: Seq<char>, p: nat)
    ensures
        word_end(s, p) >= p,
        p <= s.len() ==> word_end(s, p) <= s.len(),
    decreases s.len() - p,
{
    if p < s.len() && in_class(CharClass::IdentChar, s[p as int]) {
        lemma_word_end(s, p + 1);
    } else if p + 1 < s.len() && s[p as int] == ':' && is_digit(s[p + 1 as int]) {
        lemma_word_end(s, p + 1);
    }
}

/// Whether a character can start an identifier.
pub open spec fn starts_ident(c: char) -> bool {
    alphabetic(c) || c == '_'
}

/// The end of the run of characters of class `k` that starts at `p`.
pub open spec fn run_end(s: Seq<char>, p: nat, k: CharClass) -> nat
    decreases s.len() - p,
{
    if p < s.len() && in_class(k, s[p as int]) {
        run_end(s, p + 1, k)
    } else {
        p
    }
}

pub proof fn lemma_run_end(s: Seq<char>, p: nat, k: CharClass)
    ensures
        run_end(s, p, k) >= p,
        p <= s.len() ==> run_end(s, p, k) <= s.len(),
        forall|i: int| p <= i < run_end(s, p, k) ==> in_class(k, #[trigger] s[i]),
        run_end(s, p, k) < s.len() ==> !in_class(k, s[run_end(s, p, k) as int]),
    decreases s.len() - p,
{
    if p < s.len() && in_class(k, s[p as int]) {
        lemma_run_end(s, p + 1, k);
    }
}

/// The token a word stands for: a keyword, or else an identifier.
pub open spec fn word_token(w: Seq<char>) -> SpecToken {
    if w == "tempo"@ {
        SpecToken::Tempo
    } else if w == "scale"@ {
        SpecToken::Scale
    } else if w == "section"@ {
        SpecToken::Section
    } else if w == "chords"@ {
        SpecToken::Chords
    } else if w == "bass"@ {
        SpecToken::Bass
    } else if w == "melody"@ {
        SpecToken::Melody
    } else if w == "drums"@ {
        SpecToken::Drums
    } else if w == "import"@ {
        SpecToken::Import
    } else if w == "transpose"@ {
        SpecToken::Transpose
    } else {
        SpecToken::Ident(w)
    }
}

/// What reading one token from position `pos` gives.
pub enum LexStep {
    /// A token, and the position after it.
    Emit(SpecToken, nat),
    /// An error message, and the position of the offending character.
    Fail(Seq<char>, nat),
    /// A number too large for `u32`, which cannot be read.
    Overflow,
}

/// One token read from `pos`: blanks are skipped; a line break folds all the line
/// breaks that follow it; a comment runs from `/` to the end of its line.
pub open spec fn lex_step(s: Seq<char>, pos: nat) -> LexStep {
    let p = run_end(s, pos, CharClass::Blank);
    if p >= s.len() {
        LexStep::Emit(SpecToken::Eof, p)
    } else {
        let c = s[p as int];
        if c == '\n' {
            LexStep::Emit(SpecToken::Newline, run_end(s, p + 1, CharClass::LineBreak))
        } else if c == '/' {
            let q = run_end(s, p + 1, CharClass::NotNewline);
            if q >= s.len() {
                LexStep::Emit(SpecToken::Eof, q)
            } else {
                LexStep::Emit(SpecToken::Newline, run_end(s, q + 1, CharClass::LineBreak))
            }
        } else if c == '{' {
            LexStep::Emit(SpecToken::LBrace, p + 1)
        } else if c == '}' {
            LexStep::Emit(SpecToken::RBrace, p + 1)
        } else if c == '|' {
            LexStep::Emit(SpecToken::Pipe, p + 1)
        } else if c == '-' {
            LexStep::Emit(SpecToken::Minus, p + 1)
        } else if is_digit(c) {
            let e = run_end(s, p, CharClass::Digit);
            let v = digits_value(s.subrange(p as int, e as int));
            if v > u32::MAX {
                LexStep::Overflow
            } else {
                LexStep::Emit(SpecToken::Number(v as u32), e)
            }
        } else if starts_ident(c) {
            let e = word_end(s, p + 1);
            LexStep::Emit(word_token(s.subrange(p as int, e as int)), e)
        } else {
            LexStep::Fail("unexpected char: "@ + char_debug(c), p)
        }
    }
}

pub proof fn lemma_lex_step(s: Seq<char>, pos: nat)
    ensures
        lex_step(s, pos) matches LexStep::Emit(t, q) ==> (!(t is Eof) ==> pos < q <= s.len()),
        pos <= s.len() ==> (lex_step(s, pos) matches LexStep::Emit(t, q) ==> q <= s.len() && (
        t is Eof ==> q == s.len())),
        lex_step(s, pos) matches LexStep::Fail(_, q) ==> pos <= q < s.len(),
{
    let p = run_end(s, pos, CharClass::Blank);
    lemma_run_end(s, pos, CharClass::Blank);
    if p < s.len() {
        lemma_run_end(s, p + 1, CharClass::LineBreak);
        lemma_run_end(s, p + 1, CharClass::NotNewline);
        let q = run_end(s, p + 1, CharClass::NotNewline);
        if q < s.len() {
            lemma_run_end(s, q + 1, CharClass::LineBreak);
        }
        lemma_run_end(s, p, CharClass::Digit);
        lemma_word_end(s, p + 1);
    }
}

/// What reading all tokens from `pos` gives.
pub enum LexOutcome {
    /// The tokens, the last of them `Eof`, and the position reached.
    Tokens(Seq<SpecToken>, nat),
    /// An error message, and the position of the offending character.
    Fail(Seq<char>, nat),
    /// A number too large for `u32` was met.
    Overflow,
}

/// Tokens read from `pos` until the end of the input.
pub open spec fn lex_from(s: Seq<char>, pos: nat) -> LexOutcome
    decreases s.len() - pos,
{
    match lex_step(s, pos) {
        LexStep::Emit(t, q) => {
            if t is Eof {
                LexOutcome::Tokens(seq![t], q)
            } else {
                proof {
                    lemma_lex_step(s, pos);
                }
                match lex_from(s, q) {
                    LexOutcome::Tokens(ts, e) => LexOutcome::Tokens(seq![t] + ts, e),
                    other => other,
                }
            }
        },
        LexStep::Fail(m, q) => LexOutcome::Fail(m, q),
        LexStep::Overflow => LexOutcome::Overflow,
    }
}

/// Prepends tokens to a lexing outcome.
pub open spec fn after_tokens(prefix: Seq<SpecToken>, o: LexOutcome) -> LexOutcome {
    match o {
        LexOutcome::Tokens(ts, e) => LexOutcome::Tokens(prefix + ts, e),
        other => other,
    }
}

/// Whether `r` is what the outcome `o` promises (an `Overflow` matches nothing).
pub open spec fn lex_result_is(r: Result<Vec<Token>, String>, o: LexOutcome) -> bool {
    match o {
        LexOutcome::Tokens(ts, _) => r matches Ok(v) && tokens_view(v@) == ts,
        LexOutcome::Fail(m, _) => r matches Err(e) && e@ == m,
        LexOutcome::Overflow => false,
    }
}

/// The position a lexer reaches when it stops, on success or on an error.
pub open spec fn lex_stop(o: LexOutcome) -> nat {
    match o {
        LexOutcome::Tokens(_, e) => e,
        LexOutcome::Fail(_, q) => q,
        LexOutcome::Overflow => 0,
    }
}

/// A tokenizer over the characters of a source text.
pub struct Lexer {
    input: Vec<char>,
    pos: usize,
}

/// The state of a lexer: its input and how far it has read.
pub struct LexerView {
    pub input: Seq<char>,
    pub pos: nat,
}

impl View for Lexer {
    type V = LexerView;

    closed spec fn view(&self) -> LexerView {
        LexerView { input: self.input@, pos: self.pos as nat }
    }
}

fn in_class_of(k: CharClass, c: char) -> (r: bool)
    ensures
        r == in_class(k, c),
        k is IdentChar && alphabetic(c) ==> r,
{
    match k {
        CharClass::Blank => c == ' ' || c == '\t' || c == '\r',
        CharClass::LineBreak => c == '\n' || c == '\r',
        CharClass::NotNewline => c != '\n',
        CharClass::Digit => '0' <= c && c <= '9',
        CharClass::IdentChar => char_is_alphanumeric(c) || c == '_' || c == '#',
    }
}

impl Lexer {
    pub fn new(input: &str) -> (r: Lexer)
        ensures
            r@.input == input@,
            r@.pos == 0,
    {
        Lexer { input: chars_of(input), pos: 0 }
    }

    fn peek(&self) -> (r: Option<char>)
        ensures
            r == (if self.pos < self.input@.len() {
                Some(self.input@[self.pos as int])
            } else {
                None::<char>
            }),
    {
        if self.pos < self.input.len() {
            Some(self.input[self.pos])
        } else {
            None
        }
    }

    fn advance(&mut self) -> (r: Option<char>)
        requires
            old(self).pos < old(self).input.len(),
        ensures
            final(self).input == old(self).input,
            final(self).pos == old(self).pos + 1,
            r == Some(old(self).input@[old(self).pos as int]),
    {
        let ch = self.input[self.pos];
        self.pos = self.pos + 1;
        Some(ch)
    }

    /// Moves past the rest of a word (see `word_end`).
    fn skip_word(&mut self)
        ensures
            final(self).input == old(self).input,
            final(self).pos == word_end(old(self).input@, old(self).pos as nat),
    {
        proof {
            lemma_word_end(self.input@, self.pos as nat);
        }
        loop
            invariant
                self.input == old(self).input,
                old(self).pos <= self.pos,
                word_end(self.input@, self.pos as nat) == word_end(
                    old(self).input@,
                    old(self).pos as nat,
                ),
            decreases self.input@.len() - self.pos,
        {
            if self.pos >= self.input.len() {
                return;
            }
            let ch = self.input[self.pos];
            if in_class_of(CharClass::IdentChar, ch) {
                self.pos = self.pos + 1;
            } else if ch == ':' && self.pos + 1 < self.input.len() && '0' <= self.input[self.pos + 1]
                && self.input[self.pos + 1] <= '9' {
                self.pos = self.pos + 1;
            } else {
                return;
            }
        }
    }

    /// Moves past the run of characters of class `k` that starts here.
    fn skip_class(&mut self, k: CharClass)
        ensures
            final(self).input == old(self).input,
            final(self).pos == run_end(old(self).input@, old(self).pos as nat, k),
    {
        proof {
            lemma_run_end(self.input@, self.pos as nat, k);
        }
        loop
            invariant
                self.input == old(self).input,
                old(self).pos <= self.pos,
                run_end(self.input@, self.pos as nat, k) == run_end(
                    old(self).input@,
                    old(self).pos as nat,
                    k,
                ),
            decreases self.input@.len() - self.pos,
        {
            match self.peek() {
                Some(ch) => {
                    if in_class_of(k, ch) {
                        self.advance();
                    } else {
                        return;
                    }
                },
                None => {
                    return;
                },
            }
        }
    }

    fn skip_whitespace_no_newline(&mut self)
        ensures
            final(self).input == old(self).input,
            final(self).pos == run_end(old(self).input@, old(self).pos as nat, CharClass::Blank),
    {
        self.skip_class(CharClass::Blank);
    }

    /// Reads a run of digits; `None` when its value does not fit in `u32`.
    fn read_number(&mut self) -> (r: Option<u32>)
        requires
            old(self).pos < old(self).input@.len(),
        ensures
            final(self).input == old(self).input,
            final(self).pos == run_end(old(self).input@, old(self).pos as nat, CharClass::Digit),
            ({
                let v = digits_value(
                    old(self).input@.subrange(old(self).pos as int, final(self).pos as int),
                );
                &&& v <= u32::MAX ==> r == Some(v as u32)
                &&& v > u32::MAX ==> r is None
            }),
    {
        let ghost s = self.input@;
        let start = self.pos;
        let mut v: u64 = 0;
        let mut over = false;
        proof {
            lemma_run_end(s, start as nat, CharClass::Digit);
            assert(s.subrange(start as int, start as int).len() == 0);
        }
        loop
            invariant
                self.input == old(self).input,
                self.input@ == s,
                start <= self.pos <= run_end(s, start as nat, CharClass::Digit),
                run_end(s, start as nat, CharClass::Digit) <= s.len(),
                run_end(s, self.pos as nat, CharClass::Digit) == run_end(
                    s,
                    start as nat,
                    CharClass::Digit,
                ),
                !over ==> v == digits_value(s.subrange(start as int, self.pos as int)) && v
                    <= u32::MAX,
                over ==> digits_value(s.subrange(start as int, self.pos as int)) > u32::MAX,
            ensures
                self.pos == run_end(s, start as nat, CharClass::Digit),
                self.input == old(self).input,
                !over ==> v == digits_value(s.subrange(start as int, self.pos as int)) && v
                    <= u32::MAX,
                over ==> digits_value(s.subrange(start as int, self.pos as int)) > u32::MAX,
            decreases s.len() - self.pos,
        {
            match self.peek() {
                Some(ch) => {
                    if '0' <= ch && ch <= '9' {
                        let ghost before = s.subrange(start as int, self.pos as int);
                        self.advance();
                        proof {
                            lemma_run_end(s, self.pos as nat, CharClass::Digit);
                        }
                        let ghost after = s.subrange(start as int, self.pos as int);
                        proof {
                            assert(after.drop_last() == before);
                            assert(after.last() == ch);
                        }
                        if !over {
                            let d: u64 = (ch as u64) - ('0' as u64);
                            let w: u64 = v * 10 + d;
                            if w > 0xffff_ffff {
                                over = true;
                            } else {
                                v = w;
                            }
                        }
                    } else {
                        break;
                    }
                },
                None => {
                    break;
                },
            }
        }
        if over {
            None
        } else {
            Some(v as u32)
        }
    }

    /// Reads one token; `None` when a number does not fit in `u32`.
    fn next_token(&mut self) -> (r: Option<Result<Token, String>>)
        ensures
            final(self).input == old(self).input,
            match lex_step(old(self).input@, old(self).pos as nat) {
                LexStep::Emit(t, q) => r matches Some(Ok(tok)) && tok@ == t && final(self).pos == q,
                LexStep::Fail(m, q) => r matches Some(Err(e)) && e@ == m && final(self).pos == q,
                LexStep::Overflow => r is None,
            },
    {
        let ghost s = self.input@;
        self.skip_whitespace_no_newline();
        proof {
            lemma_run_end(s, old(self).pos as nat, CharClass::Blank);
        }
        let p = self.pos;
        match self.peek() {
            None => Some(Ok(Token::Eof)),
            Some(ch) => {
                if ch == '\n' {
                    self.advance();
                    self.skip_class(CharClass::LineBreak);
                    Some(Ok(Token::Newline))
                } else if ch == '/' {
                    // a comment runs to the end of its line
                    self.skip_class(CharClass::NotNewline);
                    proof {
                        lemma_run_end(s, p as nat, CharClass::NotNewline);
                        assert(run_end(s, p as nat, CharClass::NotNewline) == run_end(
                            s,
                            (p + 1) as nat,
                            CharClass::NotNewline,
                        ));
                    }
                    if self.peek().is_none() {
                        Some(Ok(Token::Eof))
                    } else {
                        self.advance();
                        self.skip_class(CharClass::LineBreak);
                        Some(Ok(Token::Newline))
                    }
                } else if ch == '{' {
                    self.advance();
                    Some(Ok(Token::LBrace))
                } else if ch == '}' {
                    self.advance();
                    Some(Ok(Token::RBrace))
                } else if ch == '|' {
                    self.advance();
                    Some(Ok(Token::Pipe))
                } else if ch == '-' {
                    self.advance();
                    Some(Ok(Token::Minus))
                } else if '0' <= ch && ch <= '9' {
                    match self.read_number() {
                        Some(n) => Some(Ok(Token::Number(n))),
                        None => None,
                    }
                } else if char_is_alphabetic(ch) || ch == '_' {
                    let first = in_class_of(CharClass::IdentChar, ch);
                    assert(first);
                    self.skip_word();
                    let e = self.pos;
                    proof {
                        lemma_word_end(s, p as nat);
                        assert(word_end(s, p as nat) == word_end(s, (p + 1) as nat));
                    }
                    let word = string_of(&self.input, p, e);
                    Some(Ok(Self::word_token_of(word)))
                } else {
                    let mut msg = text("unexpected char: ");
                    let d = debug_char(ch);
                    push_text(&mut msg, d.as_str());
                    Some(Err(msg))
                }
            },
        }
    }

    fn word_token_of(word: String) -> (r: Token)
        ensures
            r@ == word_token(word@),
    {
        if string_is(&word, "tempo") {
            Token::Tempo
        } else if string_is(&word, "scale") {
            Token::Scale
        } else if string_is(&word, "section") {
            Token::Section
        } else if string_is(&word, "chords") {
            Token::Chords
        } else if string_is(&word, "bass") {
            Token::Bass
        } else if string_is(&word, "melody") {
            Token::Melody
        } else if string_is(&word, "drums") {
            Token::Drums
        } else if string_is(&word, "import") {
            Token::Import
        } else if string_is(&word, "transpose") {
            Token::Transpose
        } else {
            Token::Ident(word)
        }
    }

    /// Reads every token from here to the end of the input, `Eof` last. `None` when a
    /// number does not fit in `u32` (where `tokenize` would panic).
    pub fn tokenize_checked(&mut self) -> (r: Option<Result<Vec<Token>, String>>)
        ensures
            final(self)@.input == old(self)@.input,
            lex_from(old(self)@.input, old(self)@.pos) is Overflow <==> r is None,
            r matches Some(res) ==> lex_result_is(res, lex_from(old(self)@.input, old(self)@.pos))
                && final(self)@.pos == lex_stop(lex_from(old(self)@.input, old(self)@.pos)),
    {
        let ghost s = self.input@;
        let ghost start = self.pos as nat;
        let mut tokens: Vec<Token> = Vec::new();
        assert(tokens_view(tokens@) == Seq::<SpecToken>::empty());
        assert(after_tokens(Seq::<SpecToken>::empty(), lex_from(s, start)) == lex_from(s, start));
        loop
            invariant
                self.input == old(self).input,
                self.input@ == s,
                start == old(self).pos,
                lex_from(s, start) == after_tokens(tokens_view(tokens@), lex_from(s, self.pos as nat)),
            decreases s.len() - self.pos,
        {
            let ghost here = self.pos as nat;
            proof {
                lemma_lex_step(s, here);
            }
            match self.next_token() {
                None => {
                    return None;
                },
                Some(Err(e)) => {
                    return Some(Err(e));
                },
                Some(Ok(tok)) => {
                    let is_eof = match tok {
                        Token::Eof => true,
                        _ => false,
                    };
                    let ghost prev = tokens_view(tokens@);
                    tokens.push(tok);
                    proof {
                        assert(tokens_view(tokens@) == prev.push(tok@));
                        if !is_eof {
                            assert(prev + (seq![tok@] + match lex_from(s, self.pos as nat) {
                                LexOutcome::Tokens(ts, _) => ts,
                                _ => Seq::<SpecToken>::empty(),
                            }) == prev.push(tok@) + match lex_from(s, self.pos as nat) {
                                LexOutcome::Tokens(ts, _) => ts,
                                _ => Seq::<SpecToken>::empty(),
                            });
                        }
                    }
                    if is_eof {
                        assert(prev + seq![tok@] == prev.push(tok@));
                        return Some(Ok(tokens));
                    }
                },
            }
        }
    }

    /// Reads every token from here to the end of the input, `Eof` last.
    pub fn tokenize(&mut self) -> (r: Result<Vec<Token>, String>)
        requires
            !(lex_from(old(self)@.input, old(self)@.pos) is Overflow),
        ensures
            final(self)@.input == old(self)@.input,
            lex_result_is(r, lex_from(old(self)@.input, old(self)@.pos)),
            final(self)@.pos == lex_stop(lex_from(old(self)@.input, old(self)@.pos)),
    {
        match self.tokenize_checked() {
            Some(r) => r,
            None => unreached(),
        }
    }
}

/// A successful read ends at the end of the input with exactly one `Eof`, the last token.
pub proof fn law_tokens_end_with_single_eof(s: Seq<char>, pos: nat)
    requires
        pos <= s.len(),
    ensures
        lex_from(s, pos) matches LexOutcome::Tokens(ts, e) ==> {
            &&& ts.len() >= 1
            &&& ts.last() is Eof
            &&& forall|i: int| 0 <= i < ts.len() - 1 ==> !(#[trigger] ts[i] is Eof)
            &&& e == s.len()
        },
    decreases s.len() - pos,
{
    lemma_lex_step(s, pos);
    if let LexStep::Emit(t, q) = lex_step(s, pos) {
        if !(t is Eof) {
            law_tokens_end_with_single_eof(s, q);
            if let LexOutcome::Tokens(ts, e) = lex_from(s, q) {
                let all = seq![t] + ts;
                assert forall|i: int| 0 <= i < all.len() - 1 implies !(#[trigger] all[i] is Eof) by {
                    if i > 0 {
                        assert(all[i] == ts[i - 1]);
                    }
                }
            }
        }
    }
}

/// No identifier token spells a keyword: keywords always come out as their own tokens.
pub proof fn law_identifiers_are_not_keywords(s: Seq<char>, pos: nat)
    ensures
        lex_from(s, pos) matches LexOutcome::Tokens(ts, _) ==> forall|i: int|
            0 <= i < ts.len() ==> (#[trigger] ts[i] matches SpecToken::Ident(w) ==> word_token(w)
                == SpecToken::Ident(w)),
    decreases s.len() - pos,
{
    lemma_lex_step(s, pos);
    if let LexStep::Emit(t, q) = lex_step(s, pos) {
        if !(t is Eof) {
            law_identifiers_are_not_keywords(s, q);
            if let LexOutcome::Tokens(ts, e) = lex_from(s, q) {
                let all = seq![t] + ts;
                assert forall|i: int| 0 <= i < all.len() implies (#[trigger] all[i] matches SpecToken::Ident(w)
                    ==> word_token(w) == SpecToken::Ident(w)) by {
                    if i > 0 {
                        assert(all[i] == ts[i - 1]);
                    }
                }
            }
        }
    }
}

/// Consecutive line breaks make one `Newline` token: after it, the next character is
/// not a line feed or carriage return.
pub proof fn law_line_breaks_fold(s: Seq<char>, pos: nat)
    ensures
        lex_step(s, pos) matches LexStep::Emit(SpecToken::Newline, q) ==> q >= s.len() || !(s[q as int]
            == '\n' || s[q as int] == '\r'),
{
    let p = run_end(s, pos, CharClass::Blank);
    lemma_run_end(s, pos, CharClass::Blank);
    if p < s.len() {
        lemma_run_end(s, p + 1, CharClass::LineBreak);
        let q = run_end(s, p + 1, CharClass::NotNewline);
        lemma_run_end(s, p + 1, CharClass::NotNewline);
        lemma_run_end(s, q + 1, CharClass::LineBreak);
    }
}

/// A comment is skipped: reading a token at `//` gives what reading at the end of
/// that line gives.
pub proof fn law_comments_are_skipped(s: Seq<char>, pos: nat)
    requires
        run_end(s, pos, CharClass::Blank) < s.len(),
        s[run_end(s, pos, CharClass::Blank) as int] == '/',
    ensures
        lex_step(s, pos) == lex_step(
            s,
            run_end(s, run_end(s, pos, CharClass::Blank) + 1, CharClass::NotNewline),
        ),
{
    let p = run_end(s, pos, CharClass::Blank);
    let c = run_end(s, p + 1, CharClass::NotNewline);
    lemma_run_end(s, p + 1, CharClass::NotNewline);
    if c < s.len() {
        assert(s[c as int] == '\n');
    }
    assert(run_end(s, c, CharClass::Blank) == c);
}

/// Spaces, tabs and carriage returns between tokens are insignificant: reading from
/// such a character gives what reading from just after it gives.
pub proof fn law_blanks_are_skipped(s: Seq<char>, pos: nat)
    requires
        pos < s.len(),
        s[pos as int] == ' ' || s[pos as int] == '\t' || s[pos as int] == '\r',
    ensures
        lex_step(s, pos) == lex_step(s, pos + 1),
        lex_from(s, pos) == lex_from(s, pos + 1),
{
    assert(run_end(s, pos, CharClass::Blank) == run_end(s, pos + 1, CharClass::Blank));
}

} // verus!
