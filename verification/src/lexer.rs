//! The scanner: classifies source characters and produces tokens.
//!
//! Scanning proceeds left to right with one character of lookahead and
//! no backtracking. Classification is over the ASCII ranges: decimal
//! digits, ASCII letters, and the blank characters space, tab, newline
//! and carriage return; characters inside a string literal are taken
//! verbatim, whatever they are.

use vstd::prelude::*;
use vstd::string::StrSliceExecFns;

use crate::token::{SpecToken, Token, TokenKind, view_tokens};

verus! {

/// A decimal digit, `'0'` through `'9'`.
pub open spec fn is_digit_char(c: char) -> bool {
    '0' as u32 <= c as u32 <= '9' as u32
}

/// An ASCII letter, `'a'`..`'z'` or `'A'`..`'Z'`.
pub open spec fn is_alpha_char(c: char) -> bool {
    ('a' as u32 <= c as u32 <= 'z' as u32) || ('A' as u32 <= c as u32 <= 'Z' as u32)
}

/// A blank character the scanner skips: space, tab, newline, carriage return.
pub open spec fn is_space_char(c: char) -> bool {
    c == ' ' || c == '\t' || c == '\n' || c == '\r'
}

/// Executable check for [`is_digit_char`].
fn digit_char(c: char) -> (r: bool)
    ensures
        r == is_digit_char(c),
{
    '0' as u32 <= c as u32 && c as u32 <= '9' as u32
}

/// Executable check for [`is_alpha_char`].
fn alpha_char(c: char) -> (r: bool)
    ensures
        r == is_alpha_char(c),
{
    ('a' as u32 <= c as u32 && c as u32 <= 'z' as u32) || ('A' as u32 <= c as u32 && c as u32
        <= 'Z' as u32)
}

/// Executable check for [`is_space_char`].
fn space_char(c: char) -> (r: bool)
    ensures
        r == is_space_char(c),
{
    c == ' ' || c == '\t' || c == '\n' || c == '\r'
}

/// A scan failure, as the model states it.
pub enum SpecLexError {
    /// A character that starts no token and is no blank.
    UnexpectedCharacter { c: char, position: nat },
    /// A `"` was opened but the input ended before a closing `"`.
    UnterminatedString { position: nat },
}

/// A scan failure: the character that fits no rule, or an unterminated
/// string literal, each with the position where scanning stopped.
#[derive(Clone, Copy, Debug, PartialEq, Eq, Structural)]
pub enum LexError {
    /// A character that starts no token and is no blank, at this position.
    UnexpectedCharacter { c: char, position: usize },
    /// A `"` opened at this position was never closed.
    UnterminatedString { position: usize },
}

impl View for LexError {
    type V = SpecLexError;

    open spec fn view(&self) -> SpecLexError {
        match *self {
            LexError::UnexpectedCharacter { c, position } => SpecLexError::UnexpectedCharacter {
                c,
                position: position as nat,
            },
            LexError::UnterminatedString { position } => SpecLexError::UnterminatedString {
                position: position as nat,
            },
        }
    }
}

/// The end of the run of decimal digits that starts at `i`: the first
/// index at or after `i` holding no digit, or the end of the input.
pub open spec fn digit_run_end(s: Seq<char>, i: nat) -> nat
    decreases s.len() - i,
{
    if i < s.len() && is_digit_char(s[i as int]) {
        digit_run_end(s, i + 1)
    } else {
        i
    }
}

/// The end of the run of alphabetic characters that starts at `i`.
pub open spec fn alpha_run_end(s: Seq<char>, i: nat) -> nat
    decreases s.len() - i,
{
    if i < s.len() && is_alpha_char(s[i as int]) {
        alpha_run_end(s, i + 1)
    } else {
        i
    }
}

/// The position of the first `"` at or after `i`, or the input length
/// when no closing quote exists.
pub open spec fn string_close(s: Seq<char>, i: nat) -> nat
    decreases s.len() - i,
{
    if i >= s.len() {
        s.len()
    } else if s[i as int] == '"' {
        i
    } else {
        string_close(s, i + 1)
    }
}

/// The run of digits starting at `i` ends between `i` and the end of
/// the input, every index within it holds a digit, and its end is the
/// first index that does not.
pub proof fn lemma_digit_run_end_bounds(s: Seq<char>, i: nat)
    requires
        i <= s.len(),
    ensures
        i <= digit_run_end(s, i) <= s.len(),
        forall|k: int| i <= k < digit_run_end(s, i) ==> is_digit_char(s[k]),
        digit_run_end(s, i) < s.len() ==> !is_digit_char(s[digit_run_end(s, i) as int]),
    decreases s.len() - i,
{
    if i < s.len() && is_digit_char(s[i as int]) {
        lemma_digit_run_end_bounds(s, i + 1);
    }
}

/// As [`lemma_digit_run_end_bounds`], for alphabetic runs.
pub proof fn lemma_alpha_run_end_bounds(s: Seq<char>, i: nat)
    requires
        i <= s.len(),
    ensures
        i <= alpha_run_end(s, i) <= s.len(),
        forall|k: int| i <= k < alpha_run_end(s, i) ==> is_alpha_char(s[k]),
        alpha_run_end(s, i) < s.len() ==> !is_alpha_char(s[alpha_run_end(s, i) as int]),
    decreases s.len() - i,
{
    if i < s.len() && is_alpha_char(s[i as int]) {
        lemma_alpha_run_end_bounds(s, i + 1);
    }
}

/// The closing quote lies between `i` and the end of the input, no
/// quote stands before it, and it is a quote when within the input.
pub proof fn lemma_string_close_bounds(s: Seq<char>, i: nat)
    requires
        i <= s.len(),
    ensures
        i <= string_close(s, i) <= s.len(),
        forall|k: int| i <= k < string_close(s, i) ==> s[k] != '"',
        string_close(s, i) < s.len() ==> s[string_close(s, i) as int] == '"',
    decreases s.len() - i,
{
    if i < s.len() && s[i as int] != '"' {
        lemma_string_close_bounds(s, i + 1);
    }
}

/// A run end is wherever a maximal run in fact stops: if every index in
/// `[i, j)` holds a digit and `j` is the input end or holds no digit,
/// then `j` is the digit run end from `i`.
pub proof fn lemma_digit_run_end_is(s: Seq<char>, i: nat, j: nat)
    requires
        i <= j <= s.len(),
        forall|k: int| i <= k < j ==> is_digit_char(s[k]),
        j < s.len() ==> !is_digit_char(s[j as int]),
    ensures
        digit_run_end(s, i) == j,
    decreases j - i,
{
    if i < j {
        lemma_digit_run_end_is(s, i + 1, j);
    }
}

/// As [`lemma_digit_run_end_is`], for alphabetic runs.
pub proof fn lemma_alpha_run_end_is(s: Seq<char>, i: nat, j: nat)
    requires
        i <= j <= s.len(),
        forall|k: int| i <= k < j ==> is_alpha_char(s[k]),
        j < s.len() ==> !is_alpha_char(s[j as int]),
    ensures
        alpha_run_end(s, i) == j,
    decreases j - i,
{
    if i < j {
        lemma_alpha_run_end_is(s, i + 1, j);
    }
}

/// The closing quote is wherever the first quote in fact stands: if no
/// index in `[i, j)` holds a quote and `j` is the input end or holds
/// one, then `j` is the string close from `i`.
pub proof fn lemma_string_close_is(s: Seq<char>, i: nat, j: nat)
    requires
        i <= j <= s.len(),
        forall|k: int| i <= k < j ==> s[k] != '"',
        j < s.len() ==> s[j as int] == '"',
    ensures
        string_close(s, i) == j,
    decreases j - i,
{
    if i < j {
        lemma_string_close_is(s, i + 1, j);
    }
}

/// Prepends one token to a scan result, keeping a failure as it is.
pub open spec fn lex_cons(t: SpecToken, rest: Result<Seq<SpecToken>, SpecLexError>) -> Result<
    Seq<SpecToken>,
    SpecLexError,
> {
    match rest {
        Ok(ts) => Ok(seq![t] + ts),
        Err(e) => Err(e),
    }
}

/// The scan of `s` from position `i` on: the ordered tokens that the
/// five scanning rules produce, or the first failure.
///
/// At each position the rules apply in precedence order: a parenthesis
/// is a one-character `Paren` token; a blank is skipped; a digit opens
/// a maximal digit run, emitted as one `Number` token; a `"` opens a
/// string literal, taken verbatim up to the closing quote, which must
/// exist, with both quotes stripped; an alphabetic character opens a
/// maximal alphabetic run, emitted as one `Name` token. Any other
/// character is a failure.
pub open spec fn lex_from(s: Seq<char>, i: nat) -> Result<Seq<SpecToken>, SpecLexError>
    decreases s.len() - i,
    via lex_from_decreases
{
    if i >= s.len() {
        Ok(Seq::empty())
    } else {
        let c = s[i as int];
        if c == '(' {
            lex_cons(SpecToken { kind: TokenKind::Paren, value: seq!['('] }, lex_from(s, i + 1))
        } else if c == ')' {
            lex_cons(SpecToken { kind: TokenKind::Paren, value: seq![')'] }, lex_from(s, i + 1))
        } else if is_space_char(c) {
            lex_from(s, i + 1)
        } else if is_digit_char(c) {
            let j = digit_run_end(s, i);
            lex_cons(
                SpecToken { kind: TokenKind::Number, value: s.subrange(i as int, j as int) },
                lex_from(s, j),
            )
        } else if c == '"' {
            let j = string_close(s, (i + 1) as nat);
            if j >= s.len() {
                Err(SpecLexError::UnterminatedString { position: i })
            } else {
                lex_cons(
                    SpecToken { kind: TokenKind::Str, value: s.subrange(i as int + 1, j as int) },
                    lex_from(s, (j + 1) as nat),
                )
            }
        } else if is_alpha_char(c) {
            let j = alpha_run_end(s, i);
            lex_cons(
                SpecToken { kind: TokenKind::Name, value: s.subrange(i as int, j as int) },
                lex_from(s, j),
            )
        } else {
            Err(SpecLexError::UnexpectedCharacter { c, position: i })
        }
    }
}

#[via_fn]
proof fn lex_from_decreases(s: Seq<char>, i: nat) {
    if i < s.len() {
        let c = s[i as int];
        if c == '(' || c == ')' || is_space_char(c) {
        } else if is_digit_char(c) {
            lemma_digit_run_end_bounds(s, (i + 1) as nat);
        } else if c == '"' {
            lemma_string_close_bounds(s, (i + 1) as nat);
        } else if is_alpha_char(c) {
            lemma_alpha_run_end_bounds(s, (i + 1) as nat);
        }
    }
}

proof fn lemma_blank_scan_from(s: Seq<char>, i: nat)
    requires
        i <= s.len(),
        forall|k: int| i <= k < s.len() ==> is_space_char(s[k]),
    ensures
        lex_from(s, i) == Ok::<Seq<SpecToken>, SpecLexError>(Seq::empty()),
    decreases s.len() - i,
{
    if i < s.len() {
        lemma_blank_scan_from(s, (i + 1) as nat);
    }
}

/// Blank input is silent: scanning any text made only of spaces, tabs,
/// newlines and carriage returns yields the empty token sequence.
pub proof fn lemma_blank_input_scans_to_nothing(s: Seq<char>)
    requires
        forall|k: int| 0 <= k < s.len() ==> is_space_char(s[k]),
    ensures
        lex_from(s, 0) == Ok::<Seq<SpecToken>, SpecLexError>(Seq::empty()),
{
    lemma_blank_scan_from(s, 0);
}

/// Scanning is deterministic: the tokens are a function of the source
/// text alone, so scanning the same text twice yields the same
/// sequence - no state outside the scanner's own cursor plays a part.
pub proof fn lemma_rescan_agrees(s1: Seq<char>, s2: Seq<char>)
    requires
        s1 == s2,
    ensures
        lex_from(s1, 0) == lex_from(s2, 0),
{
}

/// The scan so far agrees with the model: what the model says of the
/// whole scan from `i0` is the tokens already produced followed by
/// whatever the model says of the rest from `cur`.
spec fn scan_inv(s: Seq<char>, i0: nat, cur: nat, toks: Seq<Token>) -> bool {
    match lex_from(s, cur) {
        Ok(rest) => lex_from(s, i0) == Ok::<Seq<SpecToken>, SpecLexError>(view_tokens(toks) + rest),
        Err(e) => lex_from(s, i0) == Err::<Seq<SpecToken>, SpecLexError>(e),
    }
}

proof fn lemma_scan_step(s: Seq<char>, i0: nat, cur: nat, next: nat, toks: Seq<Token>, t: Token)
    requires
        scan_inv(s, i0, cur, toks),
        lex_from(s, cur) == lex_cons(t@, lex_from(s, next)),
    ensures
        scan_inv(s, i0, next, toks.push(t)),
{
    assert(view_tokens(toks.push(t)) =~= view_tokens(toks).push(t@));
    match lex_from(s, next) {
        Ok(rest) => {
            assert(view_tokens(toks) + (seq![t@] + rest) =~= view_tokens(toks).push(t@) + rest);
        },
        Err(e) => {},
    }
}

/// The scanner: owns the source as an indexable character sequence and
/// a cursor, and emits tokens left to right.
pub struct Lexer {
    source: Vec<char>,
    text: String,
    current: usize,
}

impl Lexer {
    /// The source text being scanned.
    pub closed spec fn src(&self) -> Seq<char> {
        self.source@
    }

    /// The cursor: the position the next scanning step looks at.
    pub closed spec fn pos(&self) -> nat {
        self.current as nat
    }

    /// The two forms the scanner keeps of its source text agree.
    pub closed spec fn wf(&self) -> bool {
        self.text@ == self.source@
    }

    /// A scanner over `input`, with the cursor at the start.
    pub fn new(input: String) -> (r: Self)
        ensures
            r.wf(),
            r.src() == input@,
            r.pos() == 0,
    {
        let n = input.as_str().unicode_len();
        let mut source: Vec<char> = Vec::new();
        let mut i: usize = 0;
        while i < n
            invariant
                n == input@.len(),
                i <= n,
                source@ == input@.subrange(0, i as int),
            decreases n - i,
        {
            let c = input.as_str().get_char(i);
            source.push(c);
            i = i + 1;
            proof {
                assert(source@ =~= input@.subrange(0, i as int));
            }
        }
        proof {
            assert(input@.subrange(0, n as int) =~= input@);
        }
        Lexer { source, text: input, current: 0 }
    }

    fn advance(&mut self)
        requires
            old(self).pos() < old(self).src().len(),
        ensures
            final(self).source == old(self).source,
            final(self).text == old(self).text,
            final(self).current == old(self).current + 1,
    {
        proof {
            assert(self.source@.len() == self.source.len());
        }
        self.current = self.current + 1;
    }

    fn peek(&self) -> (r: Option<char>)
        ensures
            match r {
                Some(c) => self.pos() < self.src().len() && c == self.src()[self.pos() as int],
                None => self.pos() >= self.src().len(),
            },
    {
        if self.current < self.source.len() {
            Some(self.source[self.current])
        } else {
            None
        }
    }

    /// Scans the whole remaining source and returns its tokens in
    /// order, or the first failure: exactly what the model `lex_from`
    /// says of the source text from the cursor's position on.
    pub fn tokenize(&mut self) -> (r: Result<Vec<Token>, LexError>)
        requires
            old(self).wf(),
        ensures
            final(self).wf(),
            final(self).src() == old(self).src(),
            match r {
                Ok(tokens) => lex_from(old(self).src(), old(self).pos()) == Ok::<
                    Seq<SpecToken>,
                    SpecLexError,
                >(view_tokens(tokens@)),
                Err(e) => lex_from(old(self).src(), old(self).pos()) == Err::<
                    Seq<SpecToken>,
                    SpecLexError,
                >(e@),
            },
    {
        let ghost s = self.source@;
        let ghost i0 = self.current as nat;
        let mut tokens: Vec<Token> = Vec::new();
        proof {
            match lex_from(s, i0) {
                Ok(rest) => {
                    assert(view_tokens(tokens@) + rest =~= rest);
                },
                Err(_) => {},
            }
        }

        while self.current < self.source.len()
            invariant
                self.wf(),
                self.source@ == s,
                s == old(self).src(),
                i0 == old(self).pos(),
                scan_inv(s, i0, self.current as nat, tokens@),
            decreases s.len() - self.current,
        {
            let ghost cur = self.current as nat;
            let ghost toks_before = tokens@;
            let c = self.source[self.current];

            if c == '(' {
                let tok = Token { kind: TokenKind::Paren, value: "(".to_owned() };
                proof {
                    reveal_strlit("(");
                    assert(tok@.value =~= seq!['(']);
                    lemma_scan_step(s, i0, cur, cur + 1, toks_before, tok);
                }
                tokens.push(tok);
                self.advance();
            } else if c == ')' {
                let tok = Token { kind: TokenKind::Paren, value: ")".to_owned() };
                proof {
                    reveal_strlit(")");
                    assert(tok@.value =~= seq![')']);
                    lemma_scan_step(s, i0, cur, cur + 1, toks_before, tok);
                }
                tokens.push(tok);
                self.advance();
            } else if space_char(c) {
                self.advance();
            } else if digit_char(c) {
                let start = self.current;
                self.advance();
                loop
                    invariant
                        self.wf(),
                        self.source@ == s,
                        start < self.current <= s.len(),
                        forall|k: int| start <= k < self.current ==> is_digit_char(s[k]),
                    ensures
                        self.wf(),
                        self.source@ == s,
                        start < self.current <= s.len(),
                        forall|k: int| start <= k < self.current ==> is_digit_char(s[k]),
                        self.current == s.len() || !is_digit_char(s[self.current as int]),
                    decreases s.len() - self.current,
                {
                    match self.peek() {
                        Some(d) => {
                            if digit_char(d) {
                                self.advance();
                            } else {
                                break ;
                            }
                        },
                        None => {
                            break ;
                        },
                    }
                }
                let value = self.text.as_str().substring_char(start, self.current).to_owned();
                let tok = Token { kind: TokenKind::Number, value };
                proof {
                    lemma_digit_run_end_is(s, start as nat, self.current as nat);
                    lemma_scan_step(s, i0, cur, self.current as nat, toks_before, tok);
                }
                tokens.push(tok);
            } else if c == '"' {
                let start = self.current;
                self.advance();
                loop
                    invariant
                        self.wf(),
                        self.source@ == s,
                        start < self.current <= s.len(),
                        forall|k: int| start < k < self.current ==> s[k] != '"',
                    ensures
                        self.wf(),
                        self.source@ == s,
                        start < self.current <= s.len(),
                        forall|k: int| start < k < self.current ==> s[k] != '"',
                        self.current == s.len() || s[self.current as int] == '"',
                    decreases s.len() - self.current,
                {
                    match self.peek() {
                        Some(d) => {
                            if d == '"' {
                                break ;
                            } else {
                                self.advance();
                            }
                        },
                        None => {
                            break ;
                        },
                    }
                }
                proof {
                    lemma_string_close_is(s, start as nat + 1, self.current as nat);
                }
                if self.current == self.source.len() {
                    return Err(LexError::UnterminatedString { position: start });
                }
                let value = self.text.as_str().substring_char(start + 1, self.current).to_owned();
                let tok = Token { kind: TokenKind::Str, value };
                proof {
                    lemma_scan_step(s, i0, cur, self.current as nat + 1, toks_before, tok);
                }
                tokens.push(tok);
                self.advance();
            } else if alpha_char(c) {
                let start = self.current;
                self.advance();
                loop
                    invariant
                        self.wf(),
                        self.source@ == s,
                        start < self.current <= s.len(),
                        forall|k: int| start <= k < self.current ==> is_alpha_char(s[k]),
                    ensures
                        self.wf(),
                        self.source@ == s,
                        start < self.current <= s.len(),
                        forall|k: int| start <= k < self.current ==> is_alpha_char(s[k]),
                        self.current == s.len() || !is_alpha_char(s[self.current as int]),
                    decreases s.len() - self.current,
                {
                    match self.peek() {
                        Some(d) => {
                            if alpha_char(d) {
                                self.advance();
                            } else {
                                break ;
                            }
                        },
                        None => {
                            break ;
                        },
                    }
                }
                let value = self.text.as_str().substring_char(start, self.current).to_owned();
                let tok = Token { kind: TokenKind::Name, value };
                proof {
                    lemma_alpha_run_end_is(s, start as nat, self.current as nat);
                    lemma_scan_step(s, i0, cur, self.current as nat, toks_before, tok);
                }
                tokens.push(tok);
            } else {
                return Err(LexError::UnexpectedCharacter { c, position: self.current });
            }
        }
        proof {
            assert(view_tokens(tokens@) + Seq::<SpecToken>::empty() =~= view_tokens(tokens@));
        }
        Ok(tokens)
    }
}

} // verus!
