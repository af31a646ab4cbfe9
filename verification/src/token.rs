//! Tokenizer: turns raw script text into a sequence of positioned tokens.
//!
//! Every token records its exact start/end character offsets and its
//! 1-based line and column.  The concatenation of all token texts is the
//! input text.  `spec_tokenize` is the mathematical definition of the
//! token stream; `tokenize` is proved to return exactly that.

use vstd::prelude::*;

verus! {

/// The lexical class of a token.
#[derive(Clone, Copy, Debug, PartialEq, Eq, Structural)]
pub enum TokenKind {
    /// A run of spaces, tabs or carriage returns.
    Whitespace,
    /// A single line feed.
    Newline,
    /// `#` up to (not including) the end of the line.
    Comment,
    /// `[A-Za-z_][A-Za-z0-9_]*`
    Ident,
    /// A run of decimal digits.
    Int,
    /// A double-quoted string literal, `\` escapes the next character.
    Str,
    LParen,
    RParen,
    Comma,
    Equals,
    Semicolon,
    Dot,
}

/// A lexical unit with its source text and position.
#[derive(Clone, Debug, PartialEq)]
pub struct Token {
    pub kind: TokenKind,
    /// The exact source text of the token, quotes and escapes included.
    pub text: String,
    /// 1-based line of the first character.
    pub line: usize,
    /// 1-based column of the first character.
    pub col: usize,
    /// Character offset of the first character.
    pub start: usize,
    /// Character offset one past the last character.
    pub end: usize,
}

/// The mathematical model of a token.
pub struct TokenV {
    pub kind: TokenKind,
    pub text: Seq<char>,
    pub line: int,
    pub col: int,
    pub start: int,
    pub end: int,
}

impl View for Token {
    type V = TokenV;

    open spec fn view(&self) -> TokenV {
        TokenV {
            kind: self.kind,
            text: self.text@,
            line: self.line as int,
            col: self.col as int,
            start: self.start as int,
            end: self.end as int,
        }
    }
}

pub open spec fn tokens_view(ts: Seq<Token>) -> Seq<TokenV> {
    ts.map_values(|t: Token| t@)
}

#[derive(Clone, Copy, Debug, PartialEq, Eq, Structural)]
pub enum LexErrorKind {
    /// A character that cannot start any token.
    InvalidCharacter,
    /// A string literal with no closing quote before the end of input.
    UnterminatedString,
}

/// A lexical error with the 1-based position where it was detected.
#[derive(Clone, Copy, Debug, PartialEq, Eq, Structural)]
pub struct LexError {
    pub kind: LexErrorKind,
    pub line: usize,
    pub col: usize,
}

/// The mathematical model of a lexical error.
pub struct LexErrV {
    pub kind: LexErrorKind,
    pub line: int,
    pub col: int,
}

impl View for LexError {
    type V = LexErrV;

    open spec fn view(&self) -> LexErrV {
        LexErrV { kind: self.kind, line: self.line as int, col: self.col as int }
    }
}

// ---------------------------------------------------------------------
// Character classes
// ---------------------------------------------------------------------

pub open spec fn is_space_char(c: char) -> bool {
    c == ' ' || c == '\t' || c == '\r'
}

pub open spec fn is_digit_char(c: char) -> bool {
    ('0' as u32) <= (c as u32) && (c as u32) <= ('9' as u32)
}

pub open spec fn is_ident_start_char(c: char) -> bool {
    (('a' as u32) <= (c as u32) && (c as u32) <= ('z' as u32))
    || (('A' as u32) <= (c as u32) && (c as u32) <= ('Z' as u32))
    || c == '_'
}

pub open spec fn is_ident_char(c: char) -> bool {
    is_ident_start_char(c) || is_digit_char(c)
}

pub open spec fn is_comment_char(c: char) -> bool {
    c != '\n'
}

pub open spec fn space_pred() -> spec_fn(char) -> bool {
    |c: char| is_space_char(c)
}

pub open spec fn digit_pred() -> spec_fn(char) -> bool {
    |c: char| is_digit_char(c)
}

pub open spec fn ident_pred() -> spec_fn(char) -> bool {
    |c: char| is_ident_char(c)
}

pub open spec fn comment_pred() -> spec_fn(char) -> bool {
    |c: char| is_comment_char(c)
}

// ---------------------------------------------------------------------
// Token recognition
// ---------------------------------------------------------------------

/// First index at or after `i` where `pred` fails (maximal munch).
pub open spec fn run_end(s: Seq<char>, i: int, pred: spec_fn(char) -> bool) -> int
    decreases s.len() - i when 0 <= i <= s.len()
{
    if i >= s.len() {
        i
    } else if pred(s[i]) {
        run_end(s, i + 1, pred)
    } else {
        i
    }
}

/// Index one past the closing quote of a string literal whose content
/// starts at `j`, or `None` if the literal is unterminated.  `\` makes
/// the following character part of the content.
pub open spec fn str_body_end(s: Seq<char>, j: int) -> Option<int>
    decreases s.len() - j when 0 <= j <= s.len()
{
    if j >= s.len() {
        None
    } else if s[j] == '"' {
        Some(j + 1)
    } else if s[j] == '\\' {
        if j + 1 < s.len() {
            str_body_end(s, j + 2)
        } else {
            None
        }
    } else {
        str_body_end(s, j + 1)
    }
}

/// Outcome of recognizing one token at a position.
pub enum TokenScan {
    Tok(TokenKind, int),
    Unterminated,
    Invalid,
}

/// The token that starts at position `i` (with `i` in range), as its
/// kind and end offset; or the lexical error that starts there.
pub open spec fn spec_token_at(s: Seq<char>, i: int) -> TokenScan {
    let c = s[i];
    if is_space_char(c) {
        TokenScan::Tok(TokenKind::Whitespace, run_end(s, i, space_pred()))
    } else if c == '\n' {
        TokenScan::Tok(TokenKind::Newline, i + 1)
    } else if c == '#' {
        TokenScan::Tok(TokenKind::Comment, run_end(s, i, comment_pred()))
    } else if is_ident_start_char(c) {
        TokenScan::Tok(TokenKind::Ident, run_end(s, i, ident_pred()))
    } else if is_digit_char(c) {
        TokenScan::Tok(TokenKind::Int, run_end(s, i, digit_pred()))
    } else if c == '"' {
        match str_body_end(s, i + 1) {
            Some(e) => TokenScan::Tok(TokenKind::Str, e),
            None => TokenScan::Unterminated,
        }
    } else if c == '(' {
        TokenScan::Tok(TokenKind::LParen, i + 1)
    } else if c == ')' {
        TokenScan::Tok(TokenKind::RParen, i + 1)
    } else if c == ',' {
        TokenScan::Tok(TokenKind::Comma, i + 1)
    } else if c == '=' {
        TokenScan::Tok(TokenKind::Equals, i + 1)
    } else if c == ';' {
        TokenScan::Tok(TokenKind::Semicolon, i + 1)
    } else if c == '.' {
        TokenScan::Tok(TokenKind::Dot, i + 1)
    } else {
        TokenScan::Invalid
    }
}

// ---------------------------------------------------------------------
// Positions
// ---------------------------------------------------------------------

/// Number of line feeds in a text.
pub open spec fn count_nl(t: Seq<char>) -> int
    decreases t.len()
{
    if t.len() == 0 {
        0
    } else {
        count_nl(t.drop_last()) + if t.last() == '\n' { 1int } else { 0int }
    }
}

/// Number of characters after the last line feed (the whole length if
/// there is none).
pub open spec fn last_line_len(t: Seq<char>) -> int
    decreases t.len()
{
    if t.len() == 0 {
        0
    } else if t.last() == '\n' {
        0
    } else {
        last_line_len(t.drop_last()) + 1
    }
}

/// Line after reading `t` starting on line `line`.
pub open spec fn next_line(line: int, t: Seq<char>) -> int {
    line + count_nl(t)
}

/// Column after reading `t` starting in column `col`.
pub open spec fn next_col(col: int, t: Seq<char>) -> int {
    if count_nl(t) > 0 {
        last_line_len(t) + 1
    } else {
        col + t.len()
    }
}

pub proof fn lemma_nl_bounds(t: Seq<char>)
    ensures
        0 <= count_nl(t) <= t.len(),
        0 <= last_line_len(t) <= t.len(),
    decreases t.len(),
{
    if t.len() > 0 {
        lemma_nl_bounds(t.drop_last());
    }
}

pub proof fn lemma_nl_append(a: Seq<char>, b: Seq<char>)
    ensures
        count_nl(a + b) == count_nl(a) + count_nl(b),
        last_line_len(a + b) == if count_nl(b) > 0 {
            last_line_len(b)
        } else {
            last_line_len(a) + b.len()
        },
    decreases b.len(),
{
    if b.len() == 0 {
        assert(a + b =~= a);
    } else {
        lemma_nl_append(a, b.drop_last());
        lemma_nl_bounds(b.drop_last());
        assert((a + b).drop_last() =~= a + b.drop_last());
        assert((a + b).last() == b.last());
        if b.last() == '\n' {
            assert(count_nl(b) == count_nl(b.drop_last()) + 1);
            assert(last_line_len(a + b) == 0);
        } else {
            assert(count_nl(b) == count_nl(b.drop_last()));
            assert(last_line_len(a + b) == last_line_len(a + b.drop_last()) + 1);
            assert(last_line_len(b) == last_line_len(b.drop_last()) + 1);
        }
    }
}

// ---------------------------------------------------------------------
// The tokenizer
// ---------------------------------------------------------------------

/// The token stream of `s` from position `i` on, with `line`/`col` the
/// position of `s[i]`; or the first lexical error.
pub open spec fn spec_tokenize_from(s: Seq<char>, i: int, line: int, col: int) -> Result<
    Seq<TokenV>,
    LexErrV,
>
    decreases s.len() - i when 0 <= i <= s.len()
{
    if i >= s.len() {
        Ok(Seq::<TokenV>::empty())
    } else {
        match spec_token_at(s, i) {
            TokenScan::Invalid => Err(LexErrV { kind: LexErrorKind::InvalidCharacter, line, col }),
            TokenScan::Unterminated => Err(
                LexErrV { kind: LexErrorKind::UnterminatedString, line, col },
            ),
            TokenScan::Tok(kind, end0) => {
                // every token is nonempty and ends within the text;
                // the clamp only makes that shape available to the
                // termination check and never changes a real value
                let end = if end0 < i + 1 {
                    i + 1
                } else if end0 > s.len() {
                    s.len() as int
                } else {
                    end0
                };
                let text = s.subrange(i, end);
                let tok = TokenV { kind, text, line, col, start: i, end };
                match spec_tokenize_from(s, end, next_line(line, text), next_col(col, text)) {
                    Ok(rest) => Ok(seq![tok] + rest),
                    Err(e) => Err(e),
                }
            },
        }
    }
}

/// The token stream of a whole text, starting at line 1, column 1.
pub open spec fn spec_tokenize(s: Seq<char>) -> Result<Seq<TokenV>, LexErrV> {
    spec_tokenize_from(s, 0, 1, 1)
}

// ---------------------------------------------------------------------
// Executable helpers
// ---------------------------------------------------------------------

/// Relies on std's `String::push`: appends exactly the one character.
#[verifier::external_body]
pub(crate) fn push_char(s: &mut String, c: char)
    ensures
        final(s)@ == old(s)@ + seq![c],
{
    s.push(c)
}

fn is_space(c: char) -> (r: bool)
    ensures
        r == is_space_char(c),
{
    c == ' ' || c == '\t' || c == '\r'
}

fn is_digit(c: char) -> (r: bool)
    ensures
        r == is_digit_char(c),
{
    let u = c as u32;
    48 <= u && u <= 57
}

fn is_ident_start(c: char) -> (r: bool)
    ensures
        r == is_ident_start_char(c),
{
    let u = c as u32;
    (97 <= u && u <= 122) || (65 <= u && u <= 90) || c == '_'
}

fn is_ident(c: char) -> (r: bool)
    ensures
        r == is_ident_char(c),
{
    is_ident_start(c) || is_digit(c)
}

/// Which run-based token class a character continues.
#[derive(Clone, Copy, PartialEq, Eq, Structural)]
enum RunClass {
    Space,
    Digits,
    IdentChars,
    CommentChars,
}

spec fn run_class_pred(k: RunClass) -> spec_fn(char) -> bool {
    match k {
        RunClass::Space => space_pred(),
        RunClass::Digits => digit_pred(),
        RunClass::IdentChars => ident_pred(),
        RunClass::CommentChars => comment_pred(),
    }
}

fn run_class_holds(k: RunClass, c: char) -> (r: bool)
    ensures
        r == run_class_pred(k)(c),
{
    match k {
        RunClass::Space => is_space(c),
        RunClass::Digits => is_digit(c),
        RunClass::IdentChars => is_ident(c),
        RunClass::CommentChars => c != '\n',
    }
}

/// Maximal munch: the end of the run of class `k` starting at `i`.
fn scan_run(text: &str, i: usize, k: RunClass) -> (j: usize)
    requires
        i < text@.len(),
        run_class_pred(k)(text@[i as int]),
    ensures
        i < j <= text@.len(),
        j as int == run_end(text@, i as int, run_class_pred(k)),
{
    let n = text.unicode_len();
    let mut j: usize = i + 1;
    while j < n && run_class_holds(k, text.get_char(j))
        invariant
            i < j <= n,
            n == text@.len(),
            run_end(text@, i as int, run_class_pred(k)) == run_end(
                text@,
                j as int,
                run_class_pred(k),
            ),
        decreases n - j,
    {
        j = j + 1;
    }
    j
}

/// Index one past the closing quote of the string literal starting at
/// `i`, or `None` if it never closes.
fn scan_string(text: &str, i: usize) -> (r: Option<usize>)
    requires
        i < text@.len(),
    ensures
        match r {
            Some(j) => str_body_end(text@, i + 1) == Some(j as int) && i < j <= text@.len(),
            None => str_body_end(text@, i + 1) is None,
        },
{
    let n = text.unicode_len();
    let mut j: usize = i + 1;
    loop
        invariant
            i + 1 <= j <= n,
            n == text@.len(),
            str_body_end(text@, i + 1) == str_body_end(text@, j as int),
        decreases n - j,
    {
        if j >= n {
            return None;
        }
        let c = text.get_char(j);
        if c == '"' {
            return Some(j + 1);
        } else if c == '\\' {
            if j + 1 >= n {
                return None;
            }
            j = j + 2;
        } else {
            j = j + 1;
        }
    }
}

/// Advance a 1-based line/column position over `text[i..j]`.
fn advance_pos(text: &str, i: usize, j: usize, line: &mut usize, col: &mut usize)
    requires
        i <= j <= text@.len(),
        *old(line) + (j - i) <= usize::MAX,
        1 + (j - i) <= usize::MAX,
        *old(col) + (j - i) <= usize::MAX,
    ensures
        *final(line) as int == next_line(*old(line) as int, text@.subrange(i as int, j as int)),
        *final(col) as int == next_col(*old(col) as int, text@.subrange(i as int, j as int)),
{
    let ghost s = text@;
    let mut k: usize = i;
    while k < j
        invariant
            i <= k <= j <= s.len(),
            s == text@,
            *old(line) + (j - i) <= usize::MAX,
            1 + (j - i) <= usize::MAX,
            *old(col) + (j - i) <= usize::MAX,
            *line as int == next_line(*old(line) as int, s.subrange(i as int, k as int)),
            *col as int == next_col(*old(col) as int, s.subrange(i as int, k as int)),
            *line <= *old(line) + (k - i),
            *col <= *old(col) + (k - i) || *col <= 1 + (k - i),
        decreases j - k,
    {
        let c = text.get_char(k);
        proof {
            assert(s.subrange(i as int, k + 1) =~= s.subrange(i as int, k as int).push(s[k as int]));
            assert(s.subrange(i as int, k + 1).drop_last() =~= s.subrange(i as int, k as int));
            lemma_nl_bounds(s.subrange(i as int, k as int));
        }
        if c == '\n' {
            *line = *line + 1;
            *col = 1;
        } else {
            *col = *col + 1;
        }
        k = k + 1;
    }
    proof {
        assert(s.subrange(i as int, j as int) == s.subrange(i as int, k as int));
    }
}

/// How a partial result combines with the tokens still to come.
pub open spec fn spec_combine(pre: Seq<TokenV>, r: Result<Seq<TokenV>, LexErrV>) -> Result<
    Seq<TokenV>,
    LexErrV,
> {
    match r {
        Ok(ts) => Ok(pre + ts),
        Err(e) => Err(e),
    }
}

/// Tokenize a whole script.  Returns exactly the token stream that
/// `spec_tokenize` defines, or the first lexical error with its
/// 1-based position.
pub fn tokenize(text: &str) -> (r: Result<Vec<Token>, LexError>)
    requires
        text@.len() < usize::MAX,
    ensures
        match r {
            Ok(toks) => spec_tokenize(text@) == Ok::<Seq<TokenV>, LexErrV>(tokens_view(toks@)),
            Err(e) => spec_tokenize(text@) == Err::<Seq<TokenV>, LexErrV>(e@),
        },
{
    let ghost s = text@;
    let n = text.unicode_len();
    let mut toks: Vec<Token> = Vec::new();
    let mut i: usize = 0;
    let mut line: usize = 1;
    let mut col: usize = 1;
    while i < n
        invariant
            i <= n,
            n == s.len(),
            s == text@,
            n < usize::MAX,
            line as int == 1 + count_nl(s.subrange(0, i as int)),
            col as int == 1 + last_line_len(s.subrange(0, i as int)),
            spec_combine(tokens_view(toks@), spec_tokenize_from(s, i as int, line as int, col as int))
                == spec_tokenize(s),
        decreases n - i,
    {
        let c = text.get_char(i);
        let kind: TokenKind;
        let j: usize;
        if is_space(c) {
            kind = TokenKind::Whitespace;
            j = scan_run(text, i, RunClass::Space);
        } else if c == '\n' {
            kind = TokenKind::Newline;
            j = i + 1;
        } else if c == '#' {
            kind = TokenKind::Comment;
            j = scan_run(text, i, RunClass::CommentChars);
        } else if is_ident_start(c) {
            kind = TokenKind::Ident;
            j = scan_run(text, i, RunClass::IdentChars);
        } else if is_digit(c) {
            kind = TokenKind::Int;
            j = scan_run(text, i, RunClass::Digits);
        } else if c == '"' {
            match scan_string(text, i) {
                Some(e) => {
                    kind = TokenKind::Str;
                    j = e;
                },
                None => {
                    return Err(LexError { kind: LexErrorKind::UnterminatedString, line, col });
                },
            }
        } else if c == '(' {
            kind = TokenKind::LParen;
            j = i + 1;
        } else if c == ')' {
            kind = TokenKind::RParen;
            j = i + 1;
        } else if c == ',' {
            kind = TokenKind::Comma;
            j = i + 1;
        } else if c == '=' {
            kind = TokenKind::Equals;
            j = i + 1;
        } else if c == ';' {
            kind = TokenKind::Semicolon;
            j = i + 1;
        } else if c == '.' {
            kind = TokenKind::Dot;
            j = i + 1;
        } else {
            return Err(LexError { kind: LexErrorKind::InvalidCharacter, line, col });
        }
        proof {
            assert(spec_token_at(s, i as int) == TokenScan::Tok(kind, j as int));
        }
        let piece = text.substring_char(i, j);
        let tok = Token {
            kind,
            text: String::from_str(piece),
            line,
            col,
            start: i,
            end: j,
        };
        let ghost tokv = tok@;
        let ghost old_line = line as int;
        let ghost old_col = col as int;
        let ghost pre = tokens_view(toks@);
        proof {
            lemma_nl_bounds(s.subrange(0, i as int));
        }
        toks.push(tok);
        advance_pos(text, i, j, &mut line, &mut col);
        proof {
            let t = s.subrange(i as int, j as int);
            assert(tokv.text == t);
            // the new tail of the stream
            assert(spec_tokenize_from(s, i as int, old_line, old_col) == spec_combine(
                seq![tokv],
                spec_tokenize_from(s, j as int, next_line(old_line, t), next_col(old_col, t)),
            ));
            assert(tokens_view(toks@) =~= pre + seq![tokv]);
            // positions over the extended prefix
            assert(s.subrange(0, j as int) =~= s.subrange(0, i as int) + t);
            lemma_nl_append(s.subrange(0, i as int), t);
            match spec_tokenize_from(s, j as int, next_line(old_line, t), next_col(old_col, t)) {
                Ok(rest) => {
                    assert((pre + seq![tokv]) + rest =~= pre + (seq![tokv] + rest));
                },
                Err(_) => {},
            }
        }
        i = j;
    }
    proof {
        assert(tokens_view(toks@) + Seq::<TokenV>::empty() =~= tokens_view(toks@));
    }
    Ok(toks)
}

} // verus!
