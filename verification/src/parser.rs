//! Parser: turns the token sequence into a sequence of task statements.
//!
//! Grammar, over the tokens that remain after dropping whitespace and
//! comments (line feeds and `;` separate statements):
//!
//! ```text
//! script   :=  sep* ( stmt (sep+ stmt)* )? sep*
//! stmt     :=  prefix? name '(' arglist? ')'
//! prefix   :=  'node' '.'  |  'network' '.'
//! arglist  :=  arg (',' arg)*
//! arg      :=  (name '=')? value
//! value    :=  string | integer | 'true' | 'false' | identifier
//! ```
//!
//! The scope tag is purely syntactic: an explicit `node.` or
//! `network.` prefix decides it; without a prefix, a statement with an
//! argument named `node` (the receiver form) is a node call and any
//! other statement is a network call.  The registry is never consulted.
//! Line feeds may appear freely inside an argument list.
//!
//! `spec_parse` is the mathematical definition of the result;
//! `parse` is proved to return exactly that.

use vstd::prelude::*;
use crate::token::{Token, TokenKind, TokenV, tokens_view, push_char};
use crate::ast::{Scope, ArgValue, ArgValueV, Arg, ArgV, TaskStatement, StmtV, args_view, stmts_view};

verus! {

#[derive(Clone, Copy, Debug, PartialEq, Eq, Structural)]
pub enum ParseErrorKind {
    /// A token that the grammar does not allow at its position.
    UnexpectedToken,
    /// The input ended inside an unfinished statement.
    UnexpectedEnd,
    /// An integer literal beyond the representable range.
    NumberTooLarge,
}

/// A syntax error with the 1-based position it was detected at.
#[derive(Clone, Copy, Debug, PartialEq, Eq, Structural)]
pub struct ParseError {
    pub kind: ParseErrorKind,
    pub line: usize,
    pub col: usize,
}

/// The mathematical model of a parse error.
pub struct ParseErrV {
    pub kind: ParseErrorKind,
    pub line: int,
    pub col: int,
}

impl View for ParseError {
    type V = ParseErrV;

    open spec fn view(&self) -> ParseErrV {
        ParseErrV { kind: self.kind, line: self.line as int, col: self.col as int }
    }
}

// ---------------------------------------------------------------------
// The significant-token stream
// ---------------------------------------------------------------------

/// Whitespace and comments carry no meaning for the parser.
pub open spec fn is_trivia(t: TokenV) -> bool {
    t.kind == TokenKind::Whitespace || t.kind == TokenKind::Comment
}

/// The token sequence with whitespace and comments dropped.
pub open spec fn sig_tokens(ts: Seq<TokenV>) -> Seq<TokenV>
    decreases ts.len(),
{
    if ts.len() == 0 {
        Seq::<TokenV>::empty()
    } else if is_trivia(ts.last()) {
        sig_tokens(ts.drop_last())
    } else {
        sig_tokens(ts.drop_last()) + seq![ts.last()]
    }
}

/// A statement separator.
pub open spec fn is_sep(t: TokenV) -> bool {
    t.kind == TokenKind::Newline || t.kind == TokenKind::Semicolon
}

/// First index at or after `i` that is not a line feed.
pub open spec fn skip_nl(q: Seq<TokenV>, i: int) -> int
    decreases q.len() - i when 0 <= i <= q.len()
{
    if i >= q.len() {
        i
    } else if q[i].kind == TokenKind::Newline {
        skip_nl(q, i + 1)
    } else {
        i
    }
}

/// Forces an index past `i`; the parser always advances, so this never
/// changes a real value, but it makes termination evident.
pub open spec fn bump(i: int, j: int) -> int {
    if j <= i {
        i + 1
    } else {
        j
    }
}

/// The position a parse error carries when the input ends too early:
/// that of the last token, or line 1, column 1 of an empty input.
pub open spec fn end_err(q: Seq<TokenV>) -> ParseErrV {
    if q.len() > 0 {
        ParseErrV { kind: ParseErrorKind::UnexpectedEnd, line: q.last().line, col: q.last().col }
    } else {
        ParseErrV { kind: ParseErrorKind::UnexpectedEnd, line: 1, col: 1 }
    }
}

pub open spec fn tok_err(kind: ParseErrorKind, t: TokenV) -> ParseErrV {
    ParseErrV { kind, line: t.line, col: t.col }
}

// ---------------------------------------------------------------------
// Literal values
// ---------------------------------------------------------------------

/// What a `\`-escaped character stands for.
pub open spec fn esc_char(c: char) -> char {
    if c == 'n' {
        '\n'
    } else if c == 't' {
        '\t'
    } else {
        c
    }
}

/// The content a quoted string body denotes.
pub open spec fn unescape(s: Seq<char>) -> Seq<char>
    decreases s.len(),
{
    if s.len() == 0 {
        Seq::<char>::empty()
    } else if s[0] == '\\' && s.len() >= 2 {
        seq![esc_char(s[1])] + unescape(s.skip(2))
    } else {
        seq![s[0]] + unescape(s.skip(1))
    }
}

/// The number a digit sequence denotes.
pub open spec fn digits_val(s: Seq<char>) -> int
    decreases s.len(),
{
    if s.len() == 0 {
        0
    } else {
        digits_val(s.drop_last()) * 10 + (s.last() as u32 - '0' as u32)
    }
}

pub open spec fn all_digits(s: Seq<char>) -> bool {
    forall|k: int| 0 <= k < s.len() ==> crate::token::is_digit_char(#[trigger] s[k])
}

/// The value a single value token denotes, and the index after it.
pub open spec fn spec_value_at(q: Seq<TokenV>, i: int) -> Result<(ArgValueV, int), ParseErrV> {
    if i >= q.len() {
        Err(end_err(q))
    } else {
        let t = q[i];
        if t.kind == TokenKind::Str {
            if t.text.len() >= 2 {
                Ok((ArgValueV::Str(unescape(t.text.subrange(1, t.text.len() - 1))), i + 1))
            } else {
                Err(tok_err(ParseErrorKind::UnexpectedToken, t))
            }
        } else if t.kind == TokenKind::Int {
            if t.text.len() > 0 && all_digits(t.text) {
                if digits_val(t.text) > i64::MAX as int {
                    Err(tok_err(ParseErrorKind::NumberTooLarge, t))
                } else {
                    Ok((ArgValueV::Int(digits_val(t.text)), i + 1))
                }
            } else {
                Err(tok_err(ParseErrorKind::UnexpectedToken, t))
            }
        } else if t.kind == TokenKind::Ident {
            if t.text == "true"@ {
                Ok((ArgValueV::Bool(true), i + 1))
            } else if t.text == "false"@ {
                Ok((ArgValueV::Bool(false), i + 1))
            } else {
                Ok((ArgValueV::Ident(t.text), i + 1))
            }
        } else {
            Err(tok_err(ParseErrorKind::UnexpectedToken, t))
        }
    }
}

/// One argument: an optional `name =` and a value.
pub open spec fn spec_arg_at(q: Seq<TokenV>, i: int) -> Result<(ArgV, int), ParseErrV> {
    if i + 1 < q.len() && q[i].kind == TokenKind::Ident && q[i + 1].kind == TokenKind::Equals {
        let v = skip_nl(q, i + 2);
        match spec_value_at(q, v) {
            Ok((val, j)) => Ok((ArgV { name: Some(q[i].text), value: val }, j)),
            Err(e) => Err(e),
        }
    } else {
        match spec_value_at(q, i) {
            Ok((val, j)) => Ok((ArgV { name: None, value: val }, j)),
            Err(e) => Err(e),
        }
    }
}

/// A nonempty argument list starting at `i` (already past line feeds,
/// not a closing parenthesis), up to and including the closing
/// parenthesis; the index returned is one past it.
pub open spec fn spec_args_from(q: Seq<TokenV>, i: int) -> Result<(Seq<ArgV>, int), ParseErrV>
    decreases q.len() - i when 0 <= i <= q.len()
{
    match spec_arg_at(q, i) {
        Err(e) => Err(e),
        Ok((a, j0)) => {
            let j = skip_nl(q, if j0 < i { i } else if j0 > q.len() { q.len() as int } else { j0 });
            if j >= q.len() {
                Err(end_err(q))
            } else if q[j].kind == TokenKind::RParen {
                Ok((seq![a], j + 1))
            } else if q[j].kind == TokenKind::Comma {
                let k = bump(i, skip_nl(q, j + 1));
                if k >= q.len() {
                    Err(end_err(q))
                } else if q[k].kind == TokenKind::RParen {
                    Err(tok_err(ParseErrorKind::UnexpectedToken, q[k]))
                } else {
                    match spec_args_from(q, k) {
                        Ok((rest, e)) => Ok((seq![a] + rest, e)),
                        Err(e) => Err(e),
                    }
                }
            } else {
                Err(tok_err(ParseErrorKind::UnexpectedToken, q[j]))
            }
        },
    }
}

/// The whole argument list of a call, `i` just after the opening
/// parenthesis; the index returned is one past the closing one.
pub open spec fn spec_args_at(q: Seq<TokenV>, i: int) -> Result<(Seq<ArgV>, int), ParseErrV> {
    let i1 = skip_nl(q, i);
    if i1 >= q.len() {
        Err(end_err(q))
    } else if q[i1].kind == TokenKind::RParen {
        Ok((Seq::<ArgV>::empty(), i1 + 1))
    } else {
        spec_args_from(q, i1)
    }
}

/// Whether an argument list holds an argument named `node` (the
/// receiver form that marks a node call).
pub open spec fn has_node_arg(args: Seq<ArgV>) -> bool {
    exists|k: int| 0 <= k < args.len() && (#[trigger] args[k].name) == Some("node"@)
}

/// The scope a statement's syntax fixes.
pub open spec fn scope_of(prefix: Option<Scope>, args: Seq<ArgV>) -> Scope {
    match prefix {
        Some(sc) => sc,
        None => if has_node_arg(args) {
            Scope::Node
        } else {
            Scope::Network
        },
    }
}

/// One statement starting at `i` (not a separator), and the index
/// after its closing parenthesis.
pub open spec fn spec_stmt_at(q: Seq<TokenV>, i: int) -> Result<(StmtV, int), ParseErrV> {
    if i >= q.len() {
        Err(end_err(q))
    } else if q[i].kind != TokenKind::Ident {
        Err(tok_err(ParseErrorKind::UnexpectedToken, q[i]))
    } else {
        let prefixed = i + 1 < q.len() && q[i + 1].kind == TokenKind::Dot && (q[i].text == "node"@
            || q[i].text == "network"@);
        let prefix: Option<Scope> = if prefixed {
            if q[i].text == "node"@ {
                Some(Scope::Node)
            } else {
                Some(Scope::Network)
            }
        } else {
            None
        };
        let ni = if prefixed {
            i + 2
        } else {
            i
        };
        if ni >= q.len() {
            Err(end_err(q))
        } else if q[ni].kind != TokenKind::Ident {
            Err(tok_err(ParseErrorKind::UnexpectedToken, q[ni]))
        } else if ni + 1 >= q.len() {
            Err(end_err(q))
        } else if q[ni + 1].kind != TokenKind::LParen {
            Err(tok_err(ParseErrorKind::UnexpectedToken, q[ni + 1]))
        } else {
            match spec_args_at(q, ni + 2) {
                Err(e) => Err(e),
                Ok((args, j)) => Ok(
                    (
                        StmtV {
                            scope: scope_of(prefix, args),
                            name: q[ni].text,
                            args,
                            line: q[i].line,
                            col: q[i].col,
                        },
                        j,
                    ),
                ),
            }
        }
    }
}

/// The statement sequence of the significant tokens from `i` on.
pub open spec fn spec_stmts_from(q: Seq<TokenV>, i: int) -> Result<Seq<StmtV>, ParseErrV>
    decreases q.len() - i when 0 <= i <= q.len()
{
    if i >= q.len() {
        Ok(Seq::<StmtV>::empty())
    } else if is_sep(q[i]) {
        spec_stmts_from(q, i + 1)
    } else {
        match spec_stmt_at(q, i) {
            Err(e) => Err(e),
            Ok((st, j0)) => {
                let j = if j0 <= i {
                    i + 1
                } else if j0 > q.len() {
                    q.len() as int
                } else {
                    j0
                };
                if j >= q.len() {
                    Ok(seq![st])
                } else if is_sep(q[j]) {
                    match spec_stmts_from(q, j + 1) {
                        Ok(rest) => Ok(seq![st] + rest),
                        Err(e) => Err(e),
                    }
                } else {
                    Err(tok_err(ParseErrorKind::UnexpectedToken, q[j]))
                }
            },
        }
    }
}

/// The parse of a token sequence: its statements in source order, or
/// the first syntax error.
pub open spec fn spec_parse(ts: Seq<TokenV>) -> Result<Seq<StmtV>, ParseErrV> {
    spec_stmts_from(sig_tokens(ts), 0)
}

// ---------------------------------------------------------------------
// Executable helpers
// ---------------------------------------------------------------------

/// Character-for-character string equality.
pub fn str_eq(a: &str, b: &str) -> (r: bool)
    ensures
        r == (a@ == b@),
{
    let na = a.unicode_len();
    let nb = b.unicode_len();
    if na != nb {
        proof {
            assert(a@ != b@);
        }
        return false;
    }
    let mut i: usize = 0;
    while i < na
        invariant
            i <= na,
            na as int == a@.len(),
            na as int == b@.len(),
            forall|k: int| 0 <= k < i ==> a@[k] == b@[k],
        decreases na - i,
    {
        if a.get_char(i) != b.get_char(i) {
            return false;
        }
        i = i + 1;
    }
    proof {
        assert(a@ =~= b@);
    }
    true
}

/// A fresh copy of a token (`String::clone` keeps the characters).
fn copy_token(t: &Token) -> (r: Token)
    ensures
        r@ == t@,
{
    Token {
        kind: t.kind,
        text: t.text.clone(),
        line: t.line,
        col: t.col,
        start: t.start,
        end: t.end,
    }
}

fn end_err_exec(q: &Vec<Token>) -> (e: ParseError)
    ensures
        e@ == end_err(tokens_view(q@)),
{
    if q.len() > 0 {
        let t = &q[q.len() - 1];
        proof {
            assert(tokens_view(q@).last() == q@.last()@);
        }
        ParseError { kind: ParseErrorKind::UnexpectedEnd, line: t.line, col: t.col }
    } else {
        ParseError { kind: ParseErrorKind::UnexpectedEnd, line: 1, col: 1 }
    }
}

fn skip_nl_exec(q: &Vec<Token>, i: usize) -> (r: usize)
    requires
        i <= q@.len(),
    ensures
        i <= r <= q@.len(),
        r as int == skip_nl(tokens_view(q@), i as int),
{
    let ghost qv = tokens_view(q@);
    let n = q.len();
    let mut j: usize = i;
    while j < n && q[j].kind == TokenKind::Newline
        invariant
            i <= j <= n,
            n == q@.len(),
            qv == tokens_view(q@),
            skip_nl(qv, i as int) == skip_nl(qv, j as int),
        decreases n - j,
    {
        proof {
            assert(qv[j as int] == q@[j as int]@);
        }
        j = j + 1;
    }
    proof {
        if j < n {
            assert(qv[j as int] == q@[j as int]@);
        }
    }
    j
}

/// The string content a `Str` token denotes: quotes dropped, escapes
/// applied.
fn unescape_exec(text: &str) -> (r: String)
    requires
        text@.len() >= 2,
    ensures
        r@ == unescape(text@.subrange(1, text@.len() - 1)),
{
    let n = text.unicode_len();
    let e = n - 1;
    let ghost body = text@.subrange(1, text@.len() - 1);
    let mut out = String::new();
    let mut k: usize = 1;
    while k < e
        invariant
            1 <= k <= e,
            e + 1 == n,
            n as int == text@.len(),
            body == text@.subrange(1, text@.len() - 1),
            unescape(body) == out@ + unescape(text@.subrange(k as int, e as int)),
        decreases e - k,
    {
        let ghost rem = text@.subrange(k as int, e as int);
        let c = text.get_char(k);
        proof {
            assert(rem[0] == text@[k as int]);
        }
        if c == '\\' && k + 1 < e {
            let c2 = text.get_char(k + 1);
            proof {
                assert(rem[1] == text@[k as int + 1]);
                assert(rem.skip(2) =~= text@.subrange(k + 2, e as int));
            }
            let esc = if c2 == 'n' {
                '\n'
            } else if c2 == 't' {
                '\t'
            } else {
                c2
            };
            push_char(&mut out, esc);
            k = k + 2;
        } else {
            proof {
                assert(rem.skip(1) =~= text@.subrange(k + 1, e as int));
                if rem[0] == '\\' {
                    assert(rem.len() < 2);
                }
            }
            push_char(&mut out, c);
            k = k + 1;
        }
    }
    proof {
        assert(text@.subrange(k as int, e as int) =~= Seq::<char>::empty());
        assert(out@ + Seq::<char>::empty() =~= out@);
    }
    out
}

proof fn lemma_digits_nonneg(s: Seq<char>)
    requires
        all_digits(s),
    ensures
        digits_val(s) >= 0,
    decreases s.len(),
{
    if s.len() > 0 {
        assert(all_digits(s.drop_last())) by {
            assert(forall|k: int| 0 <= k < s.len() - 1 ==> s.drop_last()[k] == s[k]);
        }
        lemma_digits_nonneg(s.drop_last());
        assert(crate::token::is_digit_char(s.last()));
    }
}

/// A longer digit string never denotes a smaller number.
proof fn lemma_digits_prefix_le(s: Seq<char>, m: int)
    requires
        all_digits(s),
        0 <= m <= s.len(),
    ensures
        digits_val(s.subrange(0, m)) <= digits_val(s),
    decreases s.len() - m,
{
    if m == s.len() {
        assert(s.subrange(0, m) =~= s);
    }
    if m < s.len() {
        lemma_digits_prefix_le(s, m + 1);
        let p = s.subrange(0, m);
        let p1 = s.subrange(0, m + 1);
        assert(p1.drop_last() =~= p);
        assert(p1.last() == s[m]);
        assert(all_digits(p)) by {
            assert(forall|k: int| 0 <= k < m ==> p[k] == s[k]);
        }
        lemma_digits_nonneg(p);
        assert(crate::token::is_digit_char(s[m]));
        assert(digits_val(p1) == digits_val(p) * 10 + (s[m] as u32 - '0' as u32));
        assert(digits_val(p) * 10 >= digits_val(p));
    }
}

/// Parse the digits of an `Int` token, or detect that the number does
/// not fit.
fn int_value(text: &str) -> (r: Result<i64, ()>)
    requires
        text@.len() > 0,
        all_digits(text@),
    ensures
        match r {
            Ok(v) => digits_val(text@) <= i64::MAX as int && v as int == digits_val(text@),
            Err(()) => digits_val(text@) > i64::MAX as int,
        },
{
    let n = text.unicode_len();
    let mut acc: u64 = 0;
    let mut k: usize = 0;
    while k < n
        invariant
            k <= n,
            n as int == text@.len(),
            text@.len() > 0,
            all_digits(text@),
            acc as int == digits_val(text@.subrange(0, k as int)),
            acc <= 9223372036854775807u64,
        decreases n - k,
    {
        let c = text.get_char(k);
        proof {
            assert(crate::token::is_digit_char(text@[k as int]));
        }
        let d: u64 = (c as u32 as u64) - 48;
        let ghost p = text@.subrange(0, k as int);
        let ghost p1 = text@.subrange(0, k as int + 1);
        proof {
            assert(p1.drop_last() =~= p);
            assert(p1.last() == text@[k as int]);
            assert(digits_val(p1) == digits_val(p) * 10 + d);
        }
        if acc > 922337203685477580u64 || (acc == 922337203685477580u64 && d > 7) {
            proof {
                assert(digits_val(p1) > i64::MAX as int);
                lemma_digits_prefix_le(text@, k as int + 1);
                assert(text@.subrange(0, text@.len() as int) =~= text@);
            }
            return Err(());
        }
        acc = acc * 10 + d;
        k = k + 1;
    }
    proof {
        assert(text@.subrange(0, n as int) =~= text@);
    }
    Ok(acc as i64)
}

fn all_digits_exec(text: &str) -> (r: bool)
    ensures
        r == all_digits(text@),
{
    let n = text.unicode_len();
    let mut k: usize = 0;
    while k < n
        invariant
            k <= n,
            n as int == text@.len(),
            forall|m: int| 0 <= m < k ==> crate::token::is_digit_char(#[trigger] text@[m]),
        decreases n - k,
    {
        let c = text.get_char(k);
        let u = c as u32;
        if !(48 <= u && u <= 57) {
            return false;
        }
        k = k + 1;
    }
    true
}

// ---------------------------------------------------------------------
// The parser
// ---------------------------------------------------------------------

fn value_at(q: &Vec<Token>, i: usize) -> (r: Result<(ArgValue, usize), ParseError>)
    requires
        i <= q@.len(),
    ensures
        match r {
            Ok((v, j)) => spec_value_at(tokens_view(q@), i as int) == Ok::<_, ParseErrV>(
                (v@, j as int),
            ) && i < j <= q@.len(),
            Err(e) => spec_value_at(tokens_view(q@), i as int) == Err::<(ArgValueV, int), _>(e@),
        },
{
    let ghost qv = tokens_view(q@);
    if i >= q.len() {
        return Err(end_err_exec(q));
    }
    let t = &q[i];
    proof {
        assert(qv[i as int] == q@[i as int]@);
    }
    if t.kind == TokenKind::Str {
        if t.text.as_str().unicode_len() >= 2 {
            let content = unescape_exec(t.text.as_str());
            Ok((ArgValue::Str(content), i + 1))
        } else {
            Err(ParseError { kind: ParseErrorKind::UnexpectedToken, line: t.line, col: t.col })
        }
    } else if t.kind == TokenKind::Int {
        if t.text.as_str().unicode_len() > 0 && all_digits_exec(t.text.as_str()) {
            match int_value(t.text.as_str()) {
                Ok(v) => Ok((ArgValue::Int(v), i + 1)),
                Err(()) => Err(
                    ParseError { kind: ParseErrorKind::NumberTooLarge, line: t.line, col: t.col },
                ),
            }
        } else {
            Err(ParseError { kind: ParseErrorKind::UnexpectedToken, line: t.line, col: t.col })
        }
    } else if t.kind == TokenKind::Ident {
        if str_eq(t.text.as_str(), "true") {
            Ok((ArgValue::Bool(true), i + 1))
        } else if str_eq(t.text.as_str(), "false") {
            Ok((ArgValue::Bool(false), i + 1))
        } else {
            Ok((ArgValue::Ident(t.text.clone()), i + 1))
        }
    } else {
        Err(ParseError { kind: ParseErrorKind::UnexpectedToken, line: t.line, col: t.col })
    }
}

fn arg_at(q: &Vec<Token>, i: usize) -> (r: Result<(Arg, usize), ParseError>)
    requires
        i <= q@.len(),
    ensures
        match r {
            Ok((a, j)) => spec_arg_at(tokens_view(q@), i as int) == Ok::<_, ParseErrV>(
                (a@, j as int),
            ) && i < j <= q@.len(),
            Err(e) => spec_arg_at(tokens_view(q@), i as int) == Err::<(ArgV, int), _>(e@),
        },
{
    let ghost qv = tokens_view(q@);
    proof {
        if (i as int) < qv.len() {
            assert(qv[i as int] == q@[i as int]@);
        }
        if i + 1 < qv.len() {
            assert(qv[i as int + 1] == q@[i as int + 1]@);
        }
    }
    if i < q.len() && i + 1 < q.len() && q[i].kind == TokenKind::Ident && q[i + 1].kind
        == TokenKind::Equals {
        let v = skip_nl_exec(q, i + 2);
        match value_at(q, v) {
            Ok((val, j)) => {
                let name = q[i].text.clone();
                Ok((Arg { name: Some(name), value: val }, j))
            },
            Err(e) => Err(e),
        }
    } else {
        match value_at(q, i) {
            Ok((val, j)) => Ok((Arg { name: None, value: val }, j)),
            Err(e) => Err(e),
        }
    }
}

fn args_from(q: &Vec<Token>, i: usize) -> (r: Result<(Vec<Arg>, usize), ParseError>)
    requires
        i <= q@.len(),
    ensures
        match r {
            Ok((args, j)) => spec_args_from(tokens_view(q@), i as int) == Ok::<_, ParseErrV>(
                (args_view(args@), j as int),
            ) && i < j <= q@.len(),
            Err(e) => spec_args_from(tokens_view(q@), i as int) == Err::<(Seq<ArgV>, int), _>(e@),
        },
    decreases q@.len() - i,
{
    let ghost qv = tokens_view(q@);
    match arg_at(q, i) {
        Err(e) => Err(e),
        Ok((a, j0)) => {
            let j = skip_nl_exec(q, j0);
            proof {
                if (j as int) < qv.len() {
                    assert(qv[j as int] == q@[j as int]@);
                }
            }
            if j >= q.len() {
                Err(end_err_exec(q))
            } else if q[j].kind == TokenKind::RParen {
                let mut args: Vec<Arg> = Vec::new();
                args.push(a);
                proof {
                    assert(args_view(args@) =~= seq![a@]);
                }
                Ok((args, j + 1))
            } else if q[j].kind == TokenKind::Comma {
                let k = skip_nl_exec(q, j + 1);
                proof {
                    assert(bump(i as int, k as int) == k as int);
                    if (k as int) < qv.len() {
                        assert(qv[k as int] == q@[k as int]@);
                    }
                }
                if k >= q.len() {
                    Err(end_err_exec(q))
                } else if q[k].kind == TokenKind::RParen {
                    let t = &q[k];
                    Err(
                        ParseError {
                            kind: ParseErrorKind::UnexpectedToken,
                            line: t.line,
                            col: t.col,
                        },
                    )
                } else {
                    match args_from(q, k) {
                        Ok((mut rest, e)) => {
                            let ghost av = a@;
                            let ghost old_rest = rest@;
                            rest.insert(0, a);
                            proof {
                                assert(rest@ =~= seq![rest@[0]] + old_rest);
                                assert(rest@[0]@ == av);
                                assert(args_view(rest@) =~= seq![av] + args_view(old_rest));
                            }
                            Ok((rest, e))
                        },
                        Err(e) => Err(e),
                    }
                }
            } else {
                let t = &q[j];
                Err(ParseError { kind: ParseErrorKind::UnexpectedToken, line: t.line, col: t.col })
            }
        },
    }
}

fn args_at(q: &Vec<Token>, i: usize) -> (r: Result<(Vec<Arg>, usize), ParseError>)
    requires
        i <= q@.len(),
    ensures
        match r {
            Ok((args, j)) => spec_args_at(tokens_view(q@), i as int) == Ok::<_, ParseErrV>(
                (args_view(args@), j as int),
            ) && i < j <= q@.len(),
            Err(e) => spec_args_at(tokens_view(q@), i as int) == Err::<(Seq<ArgV>, int), _>(e@),
        },
{
    let ghost qv = tokens_view(q@);
    let i1 = skip_nl_exec(q, i);
    proof {
        if (i1 as int) < qv.len() {
            assert(qv[i1 as int] == q@[i1 as int]@);
        }
    }
    if i1 >= q.len() {
        Err(end_err_exec(q))
    } else if q[i1].kind == TokenKind::RParen {
        proof {
            assert(args_view(Seq::<Arg>::empty()) =~= Seq::<ArgV>::empty());
        }
        Ok((Vec::new(), i1 + 1))
    } else {
        args_from(q, i1)
    }
}

fn has_node_arg_exec(args: &Vec<Arg>) -> (r: bool)
    ensures
        r == has_node_arg(args_view(args@)),
{
    let ghost av = args_view(args@);
    let n = args.len();
    let mut k: usize = 0;
    while k < n
        invariant
            k <= n,
            n == args@.len(),
            av == args_view(args@),
            forall|m: int| 0 <= m < k ==> (#[trigger] av[m].name) != Some("node"@),
        decreases n - k,
    {
        proof {
            assert(av[k as int] == args@[k as int]@);
        }
        match &args[k].name {
            Some(nm) => {
                if str_eq(nm.as_str(), "node") {
                    proof {
                        assert(av[k as int].name == Some("node"@));
                    }
                    return true;
                }
            },
            None => {},
        }
        k = k + 1;
    }
    false
}

fn stmt_at(q: &Vec<Token>, i: usize) -> (r: Result<(TaskStatement, usize), ParseError>)
    requires
        i <= q@.len(),
    ensures
        match r {
            Ok((st, j)) => spec_stmt_at(tokens_view(q@), i as int) == Ok::<_, ParseErrV>(
                (st@, j as int),
            ) && i < j <= q@.len(),
            Err(e) => spec_stmt_at(tokens_view(q@), i as int) == Err::<(StmtV, int), _>(e@),
        },
{
    let ghost qv = tokens_view(q@);
    if i >= q.len() {
        return Err(end_err_exec(q));
    }
    proof {
        assert(qv[i as int] == q@[i as int]@);
    }
    if q[i].kind != TokenKind::Ident {
        let t = &q[i];
        return Err(ParseError { kind: ParseErrorKind::UnexpectedToken, line: t.line, col: t.col });
    }
    proof {
        if i + 1 < qv.len() {
            assert(qv[i as int + 1] == q@[i as int + 1]@);
        }
    }
    let is_node_word = str_eq(q[i].text.as_str(), "node");
    let is_net_word = str_eq(q[i].text.as_str(), "network");
    let prefixed = i + 1 < q.len() && q[i + 1].kind == TokenKind::Dot && (is_node_word
        || is_net_word);
    let prefix: Option<Scope> = if prefixed {
        if is_node_word {
            Some(Scope::Node)
        } else {
            Some(Scope::Network)
        }
    } else {
        None
    };
    let ni = if prefixed {
        i + 2
    } else {
        i
    };
    if ni >= q.len() {
        return Err(end_err_exec(q));
    }
    proof {
        assert(qv[ni as int] == q@[ni as int]@);
    }
    if q[ni].kind != TokenKind::Ident {
        let t = &q[ni];
        return Err(ParseError { kind: ParseErrorKind::UnexpectedToken, line: t.line, col: t.col });
    }
    if ni + 1 >= q.len() {
        return Err(end_err_exec(q));
    }
    proof {
        assert(qv[ni as int + 1] == q@[ni as int + 1]@);
    }
    if q[ni + 1].kind != TokenKind::LParen {
        let t = &q[ni + 1];
        return Err(ParseError { kind: ParseErrorKind::UnexpectedToken, line: t.line, col: t.col });
    }
    match args_at(q, ni + 2) {
        Err(e) => Err(e),
        Ok((args, j)) => {
            let scope = match prefix {
                Some(sc) => sc,
                None => if has_node_arg_exec(&args) {
                    Scope::Node
                } else {
                    Scope::Network
                },
            };
            let st = TaskStatement {
                scope,
                name: q[ni].text.clone(),
                args,
                line: q[i].line,
                col: q[i].col,
            };
            Ok((st, j))
        },
    }
}

fn stmts_from(q: &Vec<Token>, i: usize) -> (r: Result<Vec<TaskStatement>, ParseError>)
    requires
        i <= q@.len(),
    ensures
        match r {
            Ok(sts) => spec_stmts_from(tokens_view(q@), i as int) == Ok::<_, ParseErrV>(
                stmts_view(sts@),
            ),
            Err(e) => spec_stmts_from(tokens_view(q@), i as int) == Err::<Seq<StmtV>, _>(e@),
        },
    decreases q@.len() - i,
{
    let ghost qv = tokens_view(q@);
    if i >= q.len() {
        proof {
            assert(stmts_view(Seq::<TaskStatement>::empty()) =~= Seq::<StmtV>::empty());
        }
        return Ok(Vec::new());
    }
    proof {
        assert(qv[i as int] == q@[i as int]@);
    }
    if q[i].kind == TokenKind::Newline || q[i].kind == TokenKind::Semicolon {
        return stmts_from(q, i + 1);
    }
    match stmt_at(q, i) {
        Err(e) => Err(e),
        Ok((st, j)) => {
            if j >= q.len() {
                let mut sts: Vec<TaskStatement> = Vec::new();
                sts.push(st);
                proof {
                    assert(stmts_view(sts@) =~= seq![sts@[0]@]);
                }
                Ok(sts)
            } else {
                proof {
                    assert(qv[j as int] == q@[j as int]@);
                }
                if q[j].kind == TokenKind::Newline || q[j].kind == TokenKind::Semicolon {
                    match stmts_from(q, j + 1) {
                        Ok(mut rest) => {
                            let ghost stv = st@;
                            let ghost old_rest = rest@;
                            rest.insert(0, st);
                            proof {
                                assert(rest@ =~= seq![rest@[0]] + old_rest);
                                assert(rest@[0]@ == stv);
                                assert(stmts_view(rest@) =~= seq![stv] + stmts_view(old_rest));
                            }
                            Ok(rest)
                        },
                        Err(e) => Err(e),
                    }
                } else {
                    let t = &q[j];
                    Err(
                        ParseError {
                            kind: ParseErrorKind::UnexpectedToken,
                            line: t.line,
                            col: t.col,
                        },
                    )
                }
            }
        },
    }
}

/// Parse a token sequence into task statements.  Returns exactly the
/// statement sequence that `spec_parse` defines, or the first syntax
/// error with its 1-based position; on an error nothing of the rest of
/// the script is produced.
pub fn parse(tokens: &Vec<Token>) -> (r: Result<Vec<TaskStatement>, ParseError>)
    ensures
        match r {
            Ok(sts) => spec_parse(tokens_view(tokens@)) == Ok::<_, ParseErrV>(stmts_view(sts@)),
            Err(e) => spec_parse(tokens_view(tokens@)) == Err::<Seq<StmtV>, _>(e@),
        },
{
    let ghost tv = tokens_view(tokens@);
    let n = tokens.len();
    let mut q: Vec<Token> = Vec::new();
    let mut i: usize = 0;
    while i < n
        invariant
            i <= n,
            n == tokens@.len(),
            tv == tokens_view(tokens@),
            tokens_view(q@) =~= sig_tokens(tv.subrange(0, i as int)),
        decreases n - i,
    {
        let ghost pre = tv.subrange(0, i as int);
        let ghost pre1 = tv.subrange(0, i as int + 1);
        proof {
            assert(pre1.drop_last() =~= pre);
            assert(pre1.last() == tv[i as int]);
            assert(tv[i as int] == tokens@[i as int]@);
        }
        let k = tokens[i].kind;
        if k != TokenKind::Whitespace && k != TokenKind::Comment {
            let t = copy_token(&tokens[i]);
            let ghost qold = tokens_view(q@);
            q.push(t);
            proof {
                assert(tokens_view(q@) =~= qold + seq![tv[i as int]]);
            }
        }
        i = i + 1;
    }
    proof {
        assert(tv.subrange(0, n as int) =~= tv);
    }
    stmts_from(&q, 0)
}

} // verus!
