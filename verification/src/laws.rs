//! The laws of the pipeline, each stated and proved over the spec
//! functions the public contracts use.

use vstd::prelude::*;
use crate::token::{TokenV, TokenKind, spec_tokenize, spec_tokenize_from, spec_token_at, TokenScan, run_end, ident_pred, digit_pred, next_line, next_col, is_ident_start_char, is_ident_char, is_space_char, str_body_end};
use crate::ast::{Scope, StmtV, ArgV, ArgValueV, stmts_sig, stmt_source, args_source, rest_args_source, arg_source, value_source, escape, esc_source, udigits, digit_char};
use crate::parser::{ParseErrV, is_sep, is_trivia, sig_tokens, skip_nl, spec_value_at, spec_arg_at, spec_args_from, spec_args_at, spec_stmt_at, spec_stmts_from, spec_parse, unescape, esc_char, digits_val};
use crate::context::{CtxV, DiagV, DiagnosticKind, diag, unknown_message, spec_execute, spec_execute_all};
use crate::registry::spec_lookup;
use crate::network::AttrValueV;

verus! {

// ---------------------------------------------------------------------
// Empty scripts
// ---------------------------------------------------------------------

/// A script of separators, whitespace and comments only parses to zero
/// statements.
pub proof fn lemma_empty_script(ts: Seq<TokenV>)
    requires
        forall|k: int| 0 <= k < ts.len() ==> is_trivia(#[trigger] ts[k]) || is_sep(ts[k]),
    ensures
        spec_parse(ts) == Ok::<Seq<StmtV>, ParseErrV>(Seq::<StmtV>::empty()),
{
    lemma_sig_tokens_all_sep(ts);
    lemma_stmts_from_all_sep(sig_tokens(ts), 0);
}

proof fn lemma_sig_tokens_all_sep(ts: Seq<TokenV>)
    requires
        forall|k: int| 0 <= k < ts.len() ==> is_trivia(#[trigger] ts[k]) || is_sep(ts[k]),
    ensures
        forall|k: int| 0 <= k < sig_tokens(ts).len() ==> is_sep(#[trigger] sig_tokens(ts)[k]),
    decreases ts.len(),
{
    if ts.len() > 0 {
        let pre = ts.drop_last();
        assert(forall|k: int| 0 <= k < pre.len() ==> #[trigger] pre[k] == ts[k]);
        lemma_sig_tokens_all_sep(pre);
        if !is_trivia(ts.last()) {
            assert(is_sep(ts.last()));
            let s = sig_tokens(pre) + seq![ts.last()];
            assert(sig_tokens(ts) == s);
            assert forall|k: int| 0 <= k < s.len() implies is_sep(#[trigger] s[k]) by {
                if k < sig_tokens(pre).len() {
                    assert(s[k] == sig_tokens(pre)[k]);
                } else {
                    assert(s[k] == ts.last());
                }
            }
        }
    }
}

proof fn lemma_stmts_from_all_sep(q: Seq<TokenV>, i: int)
    requires
        0 <= i <= q.len(),
        forall|k: int| 0 <= k < q.len() ==> is_sep(#[trigger] q[k]),
    ensures
        spec_stmts_from(q, i) == Ok::<Seq<StmtV>, ParseErrV>(Seq::<StmtV>::empty()),
    decreases q.len() - i,
{
    if i < q.len() {
        lemma_stmts_from_all_sep(q, i + 1);
    }
}

/// Executing an empty statement sequence is a no-op success.
pub proof fn lemma_execute_empty(c: CtxV)
    ensures
        spec_execute_all(c, Seq::<StmtV>::empty(), 0) == (
            c,
            Ok::<Seq<AttrValueV>, DiagV>(Seq::<AttrValueV>::empty()),
        ),
{
}

// ---------------------------------------------------------------------
// Errors never change the context
// ---------------------------------------------------------------------

/// A failing statement leaves the context exactly as it was, whichever
/// error it fails with.
pub proof fn lemma_error_keeps_context(c: CtxV, s: StmtV)
    requires
        spec_execute(c, s).1 is Err,
    ensures
        spec_execute(c, s).0 == c,
{
}

// ---------------------------------------------------------------------
// Node calls without a network
// ---------------------------------------------------------------------

/// A node-scope statement whose name resolves, run in a context with
/// no loaded network, fails with `MissingNetwork` and changes nothing.
pub proof fn lemma_missing_network(c: CtxV, s: StmtV)
    requires
        s.scope == Scope::Node,
        c.network is None,
        spec_lookup(c.registry, Scope::Node, s.name) is Some,
    ensures
        spec_execute(c, s).0 == c,
        spec_execute(c, s).1 matches Err(d) && d.kind == DiagnosticKind::MissingNetwork,
{
}

// ---------------------------------------------------------------------
// Unknown functions
// ---------------------------------------------------------------------

/// A statement whose scope and name resolve to nothing fails with
/// `UnknownFunction`; the message carries the exact name and scope
/// written in the source, and the context is unchanged.
pub proof fn lemma_unknown_function(c: CtxV, s: StmtV)
    requires
        spec_lookup(c.registry, s.scope, s.name) is None,
    ensures
        spec_execute(c, s).0 == c,
        spec_execute(c, s).1 == Err::<Option<AttrValueV>, DiagV>(
            diag(DiagnosticKind::UnknownFunction, unknown_message(s.scope, s.name), s),
        ),
{
}

/// Once a statement of a run fails, nothing after it is consulted:
/// two scripts that agree from position `i` through the end of the
/// shorter one give the same failing run, whatever the longer one
/// appends.
pub proof fn lemma_fail_fast(c: CtxV, ss1: Seq<StmtV>, ss2: Seq<StmtV>, i: int)
    requires
        0 <= i <= ss1.len(),
        ss1.len() <= ss2.len(),
        forall|j: int| i <= j < ss1.len() ==> ss1[j] == ss2[j],
        spec_execute_all(c, ss1, i).1 is Err,
    ensures
        spec_execute_all(c, ss2, i) == spec_execute_all(c, ss1, i),
    decreases ss1.len() - i,
{
    if i < ss1.len() {
        let step = spec_execute(c, ss1[i]);
        if step.1 is Err {
        } else {
            lemma_fail_fast(step.0, ss1, ss2, i + 1);
        }
    }
}

// ---------------------------------------------------------------------
// Comments and whitespace are non-semantic
// ---------------------------------------------------------------------

/// Two tokens that agree in kind and text (their positions may
/// differ).
pub open spec fn same_sig_tok(a: TokenV, b: TokenV) -> bool {
    a.kind == b.kind && a.text == b.text
}

pub open spec fn same_sig(q1: Seq<TokenV>, q2: Seq<TokenV>) -> bool {
    q1.len() == q2.len() && forall|k: int|
        0 <= k < q1.len() ==> same_sig_tok(#[trigger] q1[k], #[trigger] q2[k])
}

proof fn lemma_skip_nl_congr(q1: Seq<TokenV>, q2: Seq<TokenV>, i: int)
    requires
        same_sig(q1, q2),
        0 <= i <= q1.len(),
    ensures
        skip_nl(q1, i) == skip_nl(q2, i),
        i <= skip_nl(q1, i) <= q1.len(),
    decreases q1.len() - i,
{
    if i < q1.len() {
        assert(same_sig_tok(q1[i], q2[i]));
        if q1[i].kind == crate::token::TokenKind::Newline {
            lemma_skip_nl_congr(q1, q2, i + 1);
        }
    }
}

proof fn lemma_value_congr(q1: Seq<TokenV>, q2: Seq<TokenV>, i: int)
    requires
        same_sig(q1, q2),
        0 <= i,
    ensures
        match (spec_value_at(q1, i), spec_value_at(q2, i)) {
            (Ok(a), Ok(b)) => a == b,
            (Err(e1), Err(e2)) => e1.kind == e2.kind,
            _ => false,
        },
{
    if i < q1.len() {
        assert(same_sig_tok(q1[i], q2[i]));
    }
}

proof fn lemma_arg_congr(q1: Seq<TokenV>, q2: Seq<TokenV>, i: int)
    requires
        same_sig(q1, q2),
        0 <= i,
    ensures
        match (spec_arg_at(q1, i), spec_arg_at(q2, i)) {
            (Ok(a), Ok(b)) => a == b,
            (Err(e1), Err(e2)) => e1.kind == e2.kind,
            _ => false,
        },
{
    if i < q1.len() {
        assert(same_sig_tok(q1[i], q2[i]));
    }
    if i + 1 < q1.len() {
        assert(same_sig_tok(q1[i + 1], q2[i + 1]));
    }
    if i + 1 < q1.len() && q1[i].kind == crate::token::TokenKind::Ident && q1[i + 1].kind
        == crate::token::TokenKind::Equals {
        lemma_skip_nl_congr(q1, q2, i + 2);
        lemma_value_congr(q1, q2, skip_nl(q1, i + 2));
    } else {
        lemma_value_congr(q1, q2, i);
    }
}

proof fn lemma_args_from_congr(q1: Seq<TokenV>, q2: Seq<TokenV>, i: int)
    requires
        same_sig(q1, q2),
        0 <= i <= q1.len(),
    ensures
        match (spec_args_from(q1, i), spec_args_from(q2, i)) {
            (Ok(a), Ok(b)) => a == b,
            (Err(e1), Err(e2)) => e1.kind == e2.kind,
            _ => false,
        },
    decreases q1.len() - i,
{
    lemma_arg_congr(q1, q2, i);
    match (spec_arg_at(q1, i), spec_arg_at(q2, i)) {
        (Ok((a1, j1)), Ok((a2, j2))) => {
            let jc1 = if j1 < i {
                i
            } else if j1 > q1.len() {
                q1.len() as int
            } else {
                j1
            };
            lemma_skip_nl_congr(q1, q2, jc1);
            let j = skip_nl(q1, jc1);
            if j < q1.len() {
                assert(same_sig_tok(q1[j], q2[j]));
                if q1[j].kind == crate::token::TokenKind::Comma {
                    lemma_skip_nl_congr(q1, q2, j + 1);
                    let k = crate::parser::bump(i, skip_nl(q1, j + 1));
                    if k < q1.len() {
                        assert(same_sig_tok(q1[k], q2[k]));
                        if q1[k].kind != crate::token::TokenKind::RParen {
                            lemma_args_from_congr(q1, q2, k);
                        }
                    }
                }
            }
        },
        _ => {},
    }
}

proof fn lemma_args_at_congr(q1: Seq<TokenV>, q2: Seq<TokenV>, i: int)
    requires
        same_sig(q1, q2),
        0 <= i <= q1.len(),
    ensures
        match (spec_args_at(q1, i), spec_args_at(q2, i)) {
            (Ok(a), Ok(b)) => a == b,
            (Err(e1), Err(e2)) => e1.kind == e2.kind,
            _ => false,
        },
{
    lemma_skip_nl_congr(q1, q2, i);
    let i1 = skip_nl(q1, i);
    if i1 < q1.len() {
        assert(same_sig_tok(q1[i1], q2[i1]));
        if q1[i1].kind != crate::token::TokenKind::RParen {
            lemma_args_from_congr(q1, q2, i1);
        }
    }
}

proof fn lemma_stmt_congr(q1: Seq<TokenV>, q2: Seq<TokenV>, i: int)
    requires
        same_sig(q1, q2),
        0 <= i <= q1.len(),
    ensures
        match (spec_stmt_at(q1, i), spec_stmt_at(q2, i)) {
            (Ok((s1, j1)), Ok((s2, j2))) => s1.sig() == s2.sig() && j1 == j2,
            (Err(e1), Err(e2)) => e1.kind == e2.kind,
            _ => false,
        },
{
    if i < q1.len() {
        assert(same_sig_tok(q1[i], q2[i]));
        if i + 1 < q1.len() {
            assert(same_sig_tok(q1[i + 1], q2[i + 1]));
        }
        if q1[i].kind == crate::token::TokenKind::Ident {
            let prefixed = i + 1 < q1.len() && q1[i + 1].kind == crate::token::TokenKind::Dot && (
            q1[i].text == "node"@ || q1[i].text == "network"@);
            let ni = if prefixed {
                i + 2
            } else {
                i
            };
            if ni < q1.len() {
                assert(same_sig_tok(q1[ni], q2[ni]));
                if ni + 1 < q1.len() {
                    assert(same_sig_tok(q1[ni + 1], q2[ni + 1]));
                }
                if q1[ni].kind == crate::token::TokenKind::Ident && ni + 1 < q1.len() && q1[ni
                    + 1].kind == crate::token::TokenKind::LParen {
                    lemma_args_at_congr(q1, q2, ni + 2);
                }
            }
        }
    }
}

proof fn lemma_stmts_from_congr(q1: Seq<TokenV>, q2: Seq<TokenV>, i: int)
    requires
        same_sig(q1, q2),
        0 <= i <= q1.len(),
    ensures
        match (spec_stmts_from(q1, i), spec_stmts_from(q2, i)) {
            (Ok(a), Ok(b)) => a.len() == b.len() && forall|k: int|
                0 <= k < a.len() ==> (#[trigger] a[k]).sig() == (#[trigger] b[k]).sig(),
            (Err(e1), Err(e2)) => e1.kind == e2.kind,
            _ => false,
        },
    decreases q1.len() - i,
{
    if i < q1.len() {
        assert(same_sig_tok(q1[i], q2[i]));
        if is_sep(q1[i]) {
            lemma_stmts_from_congr(q1, q2, i + 1);
        } else {
            lemma_stmt_congr(q1, q2, i);
            match (spec_stmt_at(q1, i), spec_stmt_at(q2, i)) {
                (Ok((s1, j0)), Ok((s2, _))) => {
                    let j = if j0 <= i {
                        i + 1
                    } else if j0 > q1.len() {
                        q1.len() as int
                    } else {
                        j0
                    };
                    if j < q1.len() {
                        assert(same_sig_tok(q1[j], q2[j]));
                        if is_sep(q1[j]) {
                            lemma_stmts_from_congr(q1, q2, j + 1);
                            match (spec_stmts_from(q1, j + 1), spec_stmts_from(q2, j + 1)) {
                                (Ok(r1), Ok(r2)) => {
                                    let a = seq![s1] + r1;
                                    let b = seq![s2] + r2;
                                    assert(forall|k: int|
                                        1 <= k < a.len() ==> (#[trigger] a[k]) == r1[k - 1] && (
                                        #[trigger] b[k]) == r2[k - 1]);
                                    assert(a[0] == s1 && b[0] == s2);
                                },
                                _ => {},
                            }
                        }
                    }
                },
                _ => {},
            }
        }
    }
}

/// Comments and whitespace are non-semantic: two token streams whose
/// significant tokens agree in kind and text parse to the same
/// statements (same scopes, names and arguments; positions aside), or
/// fail with the same kind of syntax error.
pub proof fn lemma_trivia_insensitive(ts1: Seq<TokenV>, ts2: Seq<TokenV>)
    requires
        same_sig(sig_tokens(ts1), sig_tokens(ts2)),
    ensures
        match (spec_parse(ts1), spec_parse(ts2)) {
            (Ok(a), Ok(b)) => stmts_sig(a) == stmts_sig(b),
            (Err(e1), Err(e2)) => e1.kind == e2.kind,
            _ => false,
        },
{
    lemma_stmts_from_congr(sig_tokens(ts1), sig_tokens(ts2), 0);
    match (spec_parse(ts1), spec_parse(ts2)) {
        (Ok(a), Ok(b)) => {
            assert(stmts_sig(a) =~= stmts_sig(b));
        },
        _ => {},
    }
}

// ---------------------------------------------------------------------
// Round-trip stability of the canonical form
// ---------------------------------------------------------------------

/// A nonempty identifier: a valid function or argument name.
pub open spec fn is_ident_seq(s: Seq<char>) -> bool {
    s.len() > 0 && is_ident_start_char(s[0]) && forall|k: int|
        0 <= k < s.len() ==> is_ident_char(#[trigger] s[k])
}

proof fn lemma_run_end_is(s: Seq<char>, i: int, j: int, pred: spec_fn(char) -> bool)
    requires
        0 <= i <= j <= s.len(),
        forall|k: int| i <= k < j ==> pred(#[trigger] s[k]),
        j == s.len() || !pred(s[j]),
    ensures
        run_end(s, i, pred) == j,
    decreases j - i,
{
    if i < j {
        lemma_run_end_is(s, i + 1, j, pred);
    }
}

proof fn lemma_sig_tokens_id(ts: Seq<TokenV>)
    requires
        forall|k: int| 0 <= k < ts.len() ==> !is_trivia(#[trigger] ts[k]),
    ensures
        sig_tokens(ts) == ts,
    decreases ts.len(),
{
    if ts.len() > 0 {
        let pre = ts.drop_last();
        assert(forall|k: int| 0 <= k < pre.len() ==> #[trigger] pre[k] == ts[k]);
        lemma_sig_tokens_id(pre);
        assert(sig_tokens(ts) =~= ts);
    }
}

/// The starting position feeds only the recorded line/column values:
/// whether tokenizing succeeds, and every token's kind and text, do
/// not depend on it.
proof fn lemma_tok_pos_irrelevant(s: Seq<char>, i: int, l1: int, c1: int, l2: int, c2: int)
    requires
        0 <= i <= s.len(),
    ensures
        match (spec_tokenize_from(s, i, l1, c1), spec_tokenize_from(s, i, l2, c2)) {
            (Ok(a), Ok(b)) => same_sig(a, b),
            (Err(_), Err(_)) => true,
            _ => false,
        },
    decreases s.len() - i,
{
    if i < s.len() {
        match spec_token_at(s, i) {
            TokenScan::Tok(kind, end0) => {
                let end = if end0 < i + 1 {
                    i + 1
                } else if end0 > s.len() {
                    s.len() as int
                } else {
                    end0
                };
                let text = s.subrange(i, end);
                lemma_tok_pos_irrelevant(
                    s,
                    end,
                    next_line(l1, text),
                    next_col(c1, text),
                    next_line(l2, text),
                    next_col(c2, text),
                );
                match (
                    spec_tokenize_from(s, end, next_line(l1, text), next_col(c1, text)),
                    spec_tokenize_from(s, end, next_line(l2, text), next_col(c2, text)),
                ) {
                    (Ok(ra), Ok(rb)) => {
                        let t1 = TokenV { kind, text, line: l1, col: c1, start: i, end };
                        let t2 = TokenV { kind, text, line: l2, col: c2, start: i, end };
                        let a = seq![t1] + ra;
                        let b = seq![t2] + rb;
                        assert forall|k: int| 0 <= k < a.len() implies same_sig_tok(
                            #[trigger] a[k],
                            #[trigger] b[k],
                        ) by {
                            if k >= 1 {
                                assert(a[k] == ra[k - 1] && b[k] == rb[k - 1]);
                                assert(same_sig_tok(ra[k - 1], rb[k - 1]));
                            }
                        }
                    },
                    _ => {},
                }
            },
            _ => {},
        }
    }
}

/// Tokenizing from `i` yields the given significant head and then
/// whatever tokenizing from a later position yields (kinds and texts;
/// positions aside), failing exactly when the continuation fails.
spec fn consumes(
    r1: Result<Seq<TokenV>, crate::token::LexErrV>,
    head: Seq<TokenV>,
    r2: Result<Seq<TokenV>, crate::token::LexErrV>,
) -> bool {
    match (r1, r2) {
        (Ok(a), Ok(b)) => same_sig(a, head + b),
        (Err(_), Err(_)) => true,
        _ => false,
    }
}

proof fn lemma_consumes_trans(
    r1: Result<Seq<TokenV>, crate::token::LexErrV>,
    h1: Seq<TokenV>,
    r2: Result<Seq<TokenV>, crate::token::LexErrV>,
    h2: Seq<TokenV>,
    r3: Result<Seq<TokenV>, crate::token::LexErrV>,
)
    requires
        consumes(r1, h1, r2),
        consumes(r2, h2, r3),
    ensures
        consumes(r1, h1 + h2, r3),
{
    match (r1, r2, r3) {
        (Ok(a), Ok(b), Ok(c)) => {
            assert forall|k: int| 0 <= k < a.len() implies same_sig_tok(
                #[trigger] a[k],
                #[trigger] ((h1 + h2) + c)[k],
            ) by {
                assert(same_sig_tok(a[k], (h1 + b)[k]));
                if k < h1.len() {
                    assert((h1 + b)[k] == h1[k]);
                    assert(((h1 + h2) + c)[k] == h1[k]);
                } else {
                    assert((h1 + b)[k] == b[k - h1.len()]);
                    assert(same_sig_tok(b[k - h1.len()], (h2 + c)[k - h1.len()]));
                    assert(((h1 + h2) + c)[k] == (h2 + c)[k - h1.len()]);
                }
            }
        },
        _ => {},
    }
}

/// One token consumed at `i`: the single definitional step, with the
/// continuation's positions normalized.
proof fn lemma_consumes_one(s: Seq<char>, i: int, l: int, c: int, kind: TokenKind, j: int)
    requires
        0 <= i < j <= s.len(),
        spec_token_at(s, i) == TokenScan::Tok(kind, j),
    ensures
        consumes(
            spec_tokenize_from(s, i, l, c),
            seq![tok0(kind, s.subrange(i, j))],
            spec_tokenize_from(s, j, 0, 0),
        ),
{
    let text = s.subrange(i, j);
    lemma_tok_pos_irrelevant(s, j, next_line(l, text), next_col(c, text), 0, 0);
    match (
        spec_tokenize_from(s, j, next_line(l, text), next_col(c, text)),
        spec_tokenize_from(s, j, 0, 0),
    ) {
        (Ok(ra), Ok(rb)) => {
            let t1 = TokenV { kind, text, line: l, col: c, start: i, end: j };
            let a = seq![t1] + ra;
            let b = seq![tok0(kind, text)] + rb;
            assert forall|k: int| 0 <= k < a.len() implies same_sig_tok(
                #[trigger] a[k],
                #[trigger] b[k],
            ) by {
                if k >= 1 {
                    assert(a[k] == ra[k - 1] && b[k] == rb[k - 1]);
                    assert(same_sig_tok(ra[k - 1], rb[k - 1]));
                }
            }
        },
        _ => {},
    }
}

/// A token with only its kind and text fixed.
spec fn tok0(kind: TokenKind, text: Seq<char>) -> TokenV {
    TokenV { kind, text, line: 0, col: 0, start: 0, end: 0 }
}

/// Unescaping undoes escaping.
proof fn lemma_unescape_escape(s: Seq<char>)
    ensures
        unescape(escape(s)) == s,
    decreases s.len(),
{
    if s.len() > 0 {
        lemma_unescape_escape(s.drop_first());
        let e = escape(s);
        assert(e == esc_source(s[0]) + escape(s.drop_first()));
        if s[0] == '"' || s[0] == '\\' || s[0] == '\n' || s[0] == '\t' {
            assert(e[0] == '\\');
            assert(e.len() >= 2);
            assert(esc_char(e[1]) == s[0]);
            assert(e.skip(2) =~= escape(s.drop_first()));
            assert(unescape(e) =~= seq![s[0]] + s.drop_first());
            assert(seq![s[0]] + s.drop_first() =~= s);
        } else {
            assert(e[0] == s[0]);
            assert(e[0] != '\\');
            assert(e.skip(1) =~= escape(s.drop_first()));
            assert(unescape(e) =~= seq![s[0]] + s.drop_first());
            assert(seq![s[0]] + s.drop_first() =~= s);
        }
    }
}

/// Scanning a string body over an escaped text finds the closing
/// quote exactly after it.
proof fn lemma_escape_str_end(s: Seq<char>, b: int, content: Seq<char>)
    requires
        0 <= b,
        b + escape(content).len() + 1 <= s.len(),
        forall|k: int|
            0 <= k < escape(content).len() ==> s[b + k] == escape(
                content,
            )[k],
        s[b + escape(content).len()] == '"',
    ensures
        crate::token::str_body_end(s, b) == Some(b + escape(content).len() + 1),
    decreases content.len(),
{
    if content.len() == 0 {
        assert(s[b] == '"');
    } else {
        let e = escape(content);
        let rest = content.drop_first();
        assert(e == esc_source(content[0]) + escape(rest));
        let c0 = content[0];
        if c0 == '"' || c0 == '\\' || c0 == '\n' || c0 == '\t' {
            assert(e[0] == '\\' && e.len() >= 2);
            assert(s[b] == '\\');
            assert(forall|k: int|
                0 <= k < escape(rest).len() ==> s[b + 2 + k] == escape(rest)[k]) by {
                assert(forall|k: int| 0 <= k < escape(rest).len() ==> e[k + 2] == escape(rest)[k]);
            }
            lemma_escape_str_end(s, b + 2, rest);
        } else {
            assert(e[0] == c0);
            assert(s[b] == c0);
            assert(c0 != '"' && c0 != '\\');
            assert(forall|k: int|
                0 <= k < escape(rest).len() ==> s[b + 1 + k] == escape(rest)[k]) by {
                assert(forall|k: int| 0 <= k < escape(rest).len() ==> e[k + 1] == escape(rest)[k]);
            }
            lemma_escape_str_end(s, b + 1, rest);
        }
    }
}

/// The decimal digits of a non-negative number are digits and denote
/// it.
proof fn lemma_udigits(n: int)
    requires
        0 <= n,
    ensures
        udigits(n).len() >= 1,
        forall|k: int|
            0 <= k < udigits(n).len() ==> crate::token::is_digit_char(
                #[trigger] udigits(n)[k],
            ),
        digits_val(udigits(n)) == n,
    decreases n,
{
    if n < 10 {
        let c = digit_char(n);
        assert(c as u32 == 48 + n);
        assert(crate::token::is_digit_char(c));
        assert(udigits(n) == seq![c]);
        assert(seq![c].drop_last() =~= Seq::<char>::empty());
        assert(digits_val(Seq::<char>::empty()) == 0);
        assert(digits_val(seq![c]) == digits_val(seq![c].drop_last()) * 10 + (c as u32 - '0'
            as u32));
        assert('0' as u32 == 48);
        assert(digits_val(seq![c]) == n);
    } else {
        assert(n / 10 < n && n / 10 >= 1);
        lemma_udigits(n / 10);
        let a = udigits(n / 10);
        let d = n % 10;
        assert(0 <= d < 10);
        let c = digit_char(d);
        assert(c as u32 == 48 + d);
        assert(crate::token::is_digit_char(c));
        assert(udigits(n) == a + seq![c]);
        assert((a + seq![c]).drop_last() =~= a);
        assert((a + seq![c]).last() == c);
        assert(digits_val(a + seq![c]) == digits_val(a) * 10 + d);
        assert((n / 10) * 10 + n % 10 == n);
        assert(forall|k: int|
            0 <= k < udigits(n).len() ==> crate::token::is_digit_char(#[trigger] udigits(n)[k]))
            by {
            assert(forall|k: int| 0 <= k < a.len() ==> udigits(n)[k] == a[k]);
            assert(udigits(n)[a.len() as int] == c);
        }
    }
}

// ---------------------------------------------------------------------
// Round trip: tokenizing the canonical argument text
// ---------------------------------------------------------------------

/// A value the canonical form can realize again.
pub open spec fn wf_value(v: ArgValueV) -> bool {
    match v {
        ArgValueV::Str(_) => true,
        ArgValueV::Int(n) => 0 <= n <= i64::MAX as int,
        ArgValueV::Bool(_) => true,
        ArgValueV::Ident(s) => is_ident_seq(s) && s != "true"@ && s != "false"@,
    }
}

pub open spec fn wf_arg(a: ArgV) -> bool {
    &&& match a.name {
        Some(nm) => is_ident_seq(nm),
        None => true,
    }
    &&& wf_value(a.value)
}

/// A statement the canonical form can realize again: valid names, and
/// values the parser can produce.
pub open spec fn wf_stmt(st: StmtV) -> bool {
    is_ident_seq(st.name) && forall|k: int| 0 <= k < st.args.len() ==> wf_arg(#[trigger] st.args[k])
}

/// The one significant token a canonical value tokenizes to.
spec fn value_tok(v: ArgValueV) -> TokenV {
    match v {
        ArgValueV::Str(s) => tok0(TokenKind::Str, seq!['"'] + escape(s) + seq!['"']),
        ArgValueV::Int(n) => tok0(TokenKind::Int, udigits(n)),
        ArgValueV::Bool(b) => tok0(TokenKind::Ident, if b { "true"@ } else { "false"@ }),
        ArgValueV::Ident(s) => tok0(TokenKind::Ident, s),
    }
}

/// The tokens of one canonical argument.
spec fn arg_ctoks(a: ArgV) -> Seq<TokenV> {
    (match a.name {
        Some(nm) => seq![tok0(TokenKind::Ident, nm), tok0(TokenKind::Equals, seq!['='])],
        None => Seq::<TokenV>::empty(),
    }) + seq![value_tok(a.value)]
}

/// The tokens of a canonical argument list, the whitespace after each
/// comma included.
spec fn args_ctoks(args: Seq<ArgV>) -> Seq<TokenV>
    decreases args.len(),
{
    if args.len() == 0 {
        Seq::<TokenV>::empty()
    } else if args.len() == 1 {
        arg_ctoks(args[0])
    } else {
        arg_ctoks(args[0]) + seq![
            tok0(TokenKind::Comma, seq![',']),
            tok0(TokenKind::Whitespace, seq![' ']),
        ] + args_ctoks(args.drop_first())
    }
}

proof fn lemma_arg_source_first(a: ArgV)
    requires
        wf_arg(a),
    ensures
        arg_source(a).len() >= 1,
        !is_space_char(arg_source(a)[0]),
        arg_source(a)[0] != '\n',
    decreases 0int,
{
    reveal_strlit("true");
    reveal_strlit("false");
    match a.name {
        Some(nm) => {
            assert(arg_source(a)[0] == nm[0]);
        },
        None => {
            match a.value {
                ArgValueV::Str(s) => {
                    assert(arg_source(a)[0] == '"');
                },
                ArgValueV::Int(n) => {
                    lemma_udigits(n);
                    assert(arg_source(a)[0] == udigits(n)[0]);
                },
                ArgValueV::Bool(b) => {
                    if b {
                        assert(arg_source(a)[0] == 't');
                    } else {
                        assert(arg_source(a)[0] == 'f');
                    }
                },
                ArgValueV::Ident(s) => {
                    assert(arg_source(a)[0] == s[0]);
                },
            }
        },
    }
}

/// Tokenizing a canonical value at `i` yields its one token.
proof fn lemma_tok_value(src: Seq<char>, i: int, v: ArgValueV)
    requires
        wf_value(v),
        0 <= i,
        i + value_source(v).len() < src.len(),
        forall|k: int| 0 <= k < value_source(v).len() ==> src[i + k] == #[trigger] value_source(v)[k],
        src[i + value_source(v).len()] == ',' || src[i + value_source(v).len()] == ')',
    ensures
        consumes(
            spec_tokenize_from(src, i, 0, 0),
            seq![value_tok(v)],
            spec_tokenize_from(src, i + value_source(v).len(), 0, 0),
        ),
{
    reveal_strlit("true");
    reveal_strlit("false");
    let vs = value_source(v);
    let vlen = vs.len() as int;
    match v {
        ArgValueV::Str(s) => {
            assert(vs == seq!['"'] + escape(s) + seq!['"']);
            assert(src[i] == vs[0] && vs[0] == '"');
            let el = escape(s).len() as int;
            assert(forall|k: int| 0 <= k < el ==> src[i + 1 + k] == #[trigger] escape(s)[k]) by {
                assert(forall|k: int| 0 <= k < el ==> vs[1 + k] == #[trigger] escape(s)[k]);
            }
            assert(src[i + 1 + el] == '"') by {
                assert(vs[1 + el] == '"');
            }
            lemma_escape_str_end(src, i + 1, s);
            assert(spec_token_at(src, i) == TokenScan::Tok(TokenKind::Str, i + vlen));
            lemma_consumes_one(src, i, 0, 0, TokenKind::Str, i + vlen);
            assert(src.subrange(i, i + vlen) =~= vs);
        },
        ArgValueV::Int(n) => {
            lemma_udigits(n);
            assert(vs == udigits(n));
            assert(src[i] == vs[0]);
            assert(crate::token::is_digit_char(src[i]));
            assert forall|k: int| i <= k < i + vlen implies digit_pred()(#[trigger] src[k]) by {
                assert(src[k] == vs[k - i]);
                assert(crate::token::is_digit_char(vs[k - i]));
            }
            lemma_run_end_is(src, i, i + vlen, digit_pred());
            assert(spec_token_at(src, i) == TokenScan::Tok(TokenKind::Int, i + vlen));
            lemma_consumes_one(src, i, 0, 0, TokenKind::Int, i + vlen);
            assert(src.subrange(i, i + vlen) =~= vs);
        },
        ArgValueV::Bool(b) => {
            if b {
                assert(vs =~= seq!['t', 'r', 'u', 'e']);
            } else {
                assert(vs =~= seq!['f', 'a', 'l', 's', 'e']);
            }
            assert(src[i] == vs[0]);
            assert(is_ident_start_char(src[i]));
            assert forall|k: int| i <= k < i + vlen implies ident_pred()(#[trigger] src[k]) by {
                assert(src[k] == vs[k - i]);
                assert(is_ident_char(vs[k - i]));
            }
            lemma_run_end_is(src, i, i + vlen, ident_pred());
            assert(spec_token_at(src, i) == TokenScan::Tok(TokenKind::Ident, i + vlen));
            lemma_consumes_one(src, i, 0, 0, TokenKind::Ident, i + vlen);
            assert(src.subrange(i, i + vlen) =~= vs);
        },
        ArgValueV::Ident(s) => {
            assert(src[i] == vs[0]);
            assert(is_ident_start_char(src[i]));
            assert forall|k: int| i <= k < i + vlen implies ident_pred()(#[trigger] src[k]) by {
                assert(src[k] == vs[k - i]);
                assert(is_ident_char(vs[k - i]));
            }
            lemma_run_end_is(src, i, i + vlen, ident_pred());
            assert(spec_token_at(src, i) == TokenScan::Tok(TokenKind::Ident, i + vlen));
            lemma_consumes_one(src, i, 0, 0, TokenKind::Ident, i + vlen);
            assert(src.subrange(i, i + vlen) =~= vs);
        },
    }
}

/// Tokenizing one canonical argument yields its tokens.
proof fn lemma_tok_arg(src: Seq<char>, i: int, a: ArgV)
    requires
        wf_arg(a),
        0 <= i,
        i + arg_source(a).len() < src.len(),
        forall|k: int| 0 <= k < arg_source(a).len() ==> src[i + k] == #[trigger] arg_source(a)[k],
        src[i + arg_source(a).len()] == ',' || src[i + arg_source(a).len()] == ')',
    ensures
        consumes(
            spec_tokenize_from(src, i, 0, 0),
            arg_ctoks(a),
            spec_tokenize_from(src, i + arg_source(a).len(), 0, 0),
        ),
{
    let asrc = arg_source(a);
    let alen = asrc.len() as int;
    match a.name {
        None => {
            assert(asrc == value_source(a.value));
            assert(forall|k: int|
                0 <= k < value_source(a.value).len() ==> src[i + k] == #[trigger] value_source(
                    a.value,
                )[k]);
            lemma_tok_value(src, i, a.value);
            assert(arg_ctoks(a) =~= seq![value_tok(a.value)]);
        },
        Some(nm) => {
            let nl = nm.len() as int;
            let vs = value_source(a.value);
            assert(asrc == nm + seq!['='] + vs);
            // the name token
            assert(forall|k: int| 0 <= k < nl ==> src[i + k] == nm[k]) by {
                assert(forall|k: int| 0 <= k < nl ==> asrc[k] == nm[k]);
            }
            assert(src[i + nl] == '=') by {
                assert(asrc[nl] == '=');
            }
            assert(is_ident_start_char(src[i]));
            assert forall|k: int| i <= k < i + nl implies ident_pred()(#[trigger] src[k]) by {
                assert(src[k] == nm[k - i]);
                assert(is_ident_char(nm[k - i]));
            }
            lemma_run_end_is(src, i, i + nl, ident_pred());
            assert(spec_token_at(src, i) == TokenScan::Tok(TokenKind::Ident, i + nl));
            lemma_consumes_one(src, i, 0, 0, TokenKind::Ident, i + nl);
            assert(src.subrange(i, i + nl) =~= nm);
            // the equals sign
            assert(spec_token_at(src, i + nl) == TokenScan::Tok(TokenKind::Equals, i + nl + 1));
            lemma_consumes_one(src, i + nl, 0, 0, TokenKind::Equals, i + nl + 1);
            assert(src.subrange(i + nl, i + nl + 1) =~= seq!['=']);
            // the value
            assert(forall|k: int| 0 <= k < vs.len() ==> src[i + nl + 1 + k] == #[trigger] vs[k]) by {
                assert(forall|k: int| 0 <= k < vs.len() ==> asrc[nl + 1 + k] == #[trigger] vs[k]);
            }
            assert(i + nl + 1 + vs.len() == i + alen);
            lemma_tok_value(src, i + nl + 1, a.value);
            // compose
            lemma_consumes_trans(
                spec_tokenize_from(src, i, 0, 0),
                seq![tok0(TokenKind::Ident, nm)],
                spec_tokenize_from(src, i + nl, 0, 0),
                seq![tok0(TokenKind::Equals, seq!['='])],
                spec_tokenize_from(src, i + nl + 1, 0, 0),
            );
            assert(seq![tok0(TokenKind::Ident, nm)] + seq![tok0(TokenKind::Equals, seq!['='])]
                =~= seq![tok0(TokenKind::Ident, nm), tok0(TokenKind::Equals, seq!['='])]);
            lemma_consumes_trans(
                spec_tokenize_from(src, i, 0, 0),
                seq![tok0(TokenKind::Ident, nm), tok0(TokenKind::Equals, seq!['='])],
                spec_tokenize_from(src, i + nl + 1, 0, 0),
                seq![value_tok(a.value)],
                spec_tokenize_from(src, i + alen, 0, 0),
            );
            assert(seq![tok0(TokenKind::Ident, nm)] + seq![tok0(TokenKind::Equals, seq!['='])]
                =~= seq![tok0(TokenKind::Ident, nm), tok0(TokenKind::Equals, seq!['='])]);
            assert(seq![tok0(TokenKind::Ident, nm), tok0(TokenKind::Equals, seq!['='])] + seq![
                value_tok(a.value),
            ] =~= arg_ctoks(a));
        },
    }
}

/// Tokenizing a canonical argument list up to the closing parenthesis
/// yields its tokens.
proof fn lemma_tok_args(src: Seq<char>, i: int, args: Seq<ArgV>)
    requires
        args.len() >= 1,
        forall|k: int| 0 <= k < args.len() ==> wf_arg(#[trigger] args[k]),
        0 <= i,
        i + args_source(args).len() < src.len(),
        forall|k: int|
            0 <= k < args_source(args).len() ==> src[i + k] == #[trigger] args_source(args)[k],
        src[i + args_source(args).len()] == ')',
    ensures
        consumes(
            spec_tokenize_from(src, i, 0, 0),
            args_ctoks(args),
            spec_tokenize_from(src, i + args_source(args).len(), 0, 0),
        ),
    decreases args.len(),
{
    let a0 = args[0];
    let al = arg_source(a0).len() as int;
    let d = args.drop_first();
    if args.len() == 1 {
        assert(args_source(args) == arg_source(a0) + rest_args_source(d));
        assert(rest_args_source(d) == Seq::<char>::empty());
        assert(args_source(args) =~= arg_source(a0));
        lemma_tok_arg(src, i, a0);
        assert(args_ctoks(args) == arg_ctoks(a0));
    } else {
        let total = args_source(args);
        assert(total == arg_source(a0) + rest_args_source(d));
        assert(rest_args_source(d) == ", "@ + arg_source(d[0]) + rest_args_source(d.drop_first()));
        assert(args_source(d) == arg_source(d[0]) + rest_args_source(d.drop_first()));
        reveal_strlit(", ");
        assert(rest_args_source(d) =~= seq![',', ' '] + args_source(d));
        // the first argument, ending at the comma
        assert(forall|k: int| 0 <= k < al ==> src[i + k] == #[trigger] arg_source(a0)[k]) by {
            assert(forall|k: int| 0 <= k < al ==> total[k] == #[trigger] arg_source(a0)[k]);
        }
        assert(src[i + al] == ',') by {
            assert(total[al] == rest_args_source(d)[0]);
        }
        lemma_tok_arg(src, i, a0);
        // the comma
        assert(spec_token_at(src, i + al) == TokenScan::Tok(TokenKind::Comma, i + al + 1));
        lemma_consumes_one(src, i + al, 0, 0, TokenKind::Comma, i + al + 1);
        assert(src.subrange(i + al, i + al + 1) =~= seq![',']);
        // the one space after it
        assert(src[i + al + 1] == ' ') by {
            assert(total[al + 1] == rest_args_source(d)[1]);
        }
        assert(forall|k: int|
            0 <= k < args_source(d).len() ==> src[i + al + 2 + k] == #[trigger] args_source(d)[k])
            by {
            assert(forall|k: int|
                0 <= k < args_source(d).len() ==> total[al + 2 + k] == #[trigger] args_source(
                    d,
                )[k]) by {
                assert(forall|k: int|
                    0 <= k < args_source(d).len() ==> rest_args_source(d)[2 + k]
                        == #[trigger] args_source(d)[k]);
            }
        }
        assert(forall|k: int| 0 <= k < d.len() ==> wf_arg(#[trigger] d[k])) by {
            assert(forall|k: int| 0 <= k < d.len() ==> #[trigger] d[k] == args[k + 1]);
        }
        lemma_arg_source_first(d[0]);
        assert(args_source(d).len() >= 1);
        assert(src[i + al + 2] == args_source(d)[0]);
        assert(args_source(d)[0] == arg_source(d[0])[0]);
        assert(!is_space_char(src[i + al + 2]));
        lemma_run_end_is(src, i + al + 1, i + al + 2, crate::token::space_pred());
        assert(spec_token_at(src, i + al + 1) == TokenScan::Tok(TokenKind::Whitespace, i + al + 2));
        lemma_consumes_one(src, i + al + 1, 0, 0, TokenKind::Whitespace, i + al + 2);
        assert(src.subrange(i + al + 1, i + al + 2) =~= seq![' ']);
        // the rest of the list
        assert(i + al + 2 + args_source(d).len() == i + total.len());
        assert(src[i + al + 2 + args_source(d).len()] == ')');
        lemma_tok_args(src, i + al + 2, d);
        // compose
        lemma_consumes_trans(
            spec_tokenize_from(src, i, 0, 0),
            arg_ctoks(a0),
            spec_tokenize_from(src, i + al, 0, 0),
            seq![tok0(TokenKind::Comma, seq![','])],
            spec_tokenize_from(src, i + al + 1, 0, 0),
        );
        lemma_consumes_trans(
            spec_tokenize_from(src, i, 0, 0),
            arg_ctoks(a0) + seq![tok0(TokenKind::Comma, seq![','])],
            spec_tokenize_from(src, i + al + 1, 0, 0),
            seq![tok0(TokenKind::Whitespace, seq![' '])],
            spec_tokenize_from(src, i + al + 2, 0, 0),
        );
        lemma_consumes_trans(
            spec_tokenize_from(src, i, 0, 0),
            (arg_ctoks(a0) + seq![tok0(TokenKind::Comma, seq![','])]) + seq![
                tok0(TokenKind::Whitespace, seq![' ']),
            ],
            spec_tokenize_from(src, i + al + 2, 0, 0),
            args_ctoks(d),
            spec_tokenize_from(src, i + total.len(), 0, 0),
        );
        assert(((arg_ctoks(a0) + seq![tok0(TokenKind::Comma, seq![','])]) + seq![
            tok0(TokenKind::Whitespace, seq![' ']),
        ]) + args_ctoks(d) =~= args_ctoks(args));
    }
}

// ---------------------------------------------------------------------
// Round trip: filtering and parsing the canonical tokens
// ---------------------------------------------------------------------

proof fn lemma_sig_tokens_append(a: Seq<TokenV>, b: Seq<TokenV>)
    ensures
        sig_tokens(a + b) == sig_tokens(a) + sig_tokens(b),
    decreases b.len(),
{
    if b.len() == 0 {
        assert(a + b =~= a);
        assert(sig_tokens(a) + sig_tokens(b) =~= sig_tokens(a));
    } else {
        lemma_sig_tokens_append(a, b.drop_last());
        assert((a + b).drop_last() =~= a + b.drop_last());
        assert((a + b).last() == b.last());
        if is_trivia(b.last()) {
        } else {
            assert((sig_tokens(a) + sig_tokens(b.drop_last())) + seq![b.last()] =~= sig_tokens(a)
                + (sig_tokens(b.drop_last()) + seq![b.last()]));
        }
    }
}

proof fn lemma_sig_tokens_same_sig(a: Seq<TokenV>, b: Seq<TokenV>)
    requires
        same_sig(a, b),
    ensures
        same_sig(sig_tokens(a), sig_tokens(b)),
    decreases a.len(),
{
    if a.len() > 0 {
        let pa = a.drop_last();
        let pb = b.drop_last();
        assert(same_sig(pa, pb)) by {
            assert(forall|k: int| 0 <= k < pa.len() ==> #[trigger] pa[k] == a[k]);
            assert(forall|k: int| 0 <= k < pb.len() ==> #[trigger] pb[k] == b[k]);
            assert(forall|k: int| 0 <= k < pa.len() ==> same_sig_tok(a[k], b[k]));
        }
        lemma_sig_tokens_same_sig(pa, pb);
        assert(same_sig_tok(a.last(), b.last()));
        if !is_trivia(a.last()) {
            let sa = sig_tokens(pa) + seq![a.last()];
            let sb = sig_tokens(pb) + seq![b.last()];
            assert forall|k: int| 0 <= k < sa.len() implies same_sig_tok(
                #[trigger] sa[k],
                #[trigger] sb[k],
            ) by {
                if k < sig_tokens(pa).len() {
                    assert(sa[k] == sig_tokens(pa)[k] && sb[k] == sig_tokens(pb)[k]);
                    assert(same_sig_tok(sig_tokens(pa)[k], sig_tokens(pb)[k]));
                } else {
                    assert(sa[k] == a.last() && sb[k] == b.last());
                }
            }
        }
    }
}

/// The significant tokens of a canonical argument list: the same
/// without the whitespace.
spec fn args_stoks(args: Seq<ArgV>) -> Seq<TokenV>
    decreases args.len(),
{
    if args.len() == 0 {
        Seq::<TokenV>::empty()
    } else if args.len() == 1 {
        arg_ctoks(args[0])
    } else {
        arg_ctoks(args[0]) + seq![tok0(TokenKind::Comma, seq![','])] + args_stoks(
            args.drop_first(),
        )
    }
}

proof fn lemma_arg_ctoks_not_trivia(a: ArgV)
    ensures
        forall|k: int| 0 <= k < arg_ctoks(a).len() ==> !is_trivia(#[trigger] arg_ctoks(a)[k]),
        arg_ctoks(a).len() >= 1,
{
    let ct = arg_ctoks(a);
    assert(ct.last() == value_tok(a.value));
    assert forall|k: int| 0 <= k < ct.len() implies !is_trivia(#[trigger] ct[k]) by {
        match a.name {
            Some(nm) => {
                assert(ct[0] == tok0(TokenKind::Ident, nm));
                assert(ct[1] == tok0(TokenKind::Equals, seq!['=']));
                assert(ct[2] == value_tok(a.value));
            },
            None => {
                assert(ct[0] == value_tok(a.value));
            },
        }
    }
}

proof fn lemma_sig_args_ctoks(args: Seq<ArgV>)
    ensures
        sig_tokens(args_ctoks(args)) == args_stoks(args),
    decreases args.len(),
{
    if args.len() == 0 {
        assert(sig_tokens(args_ctoks(args)) =~= args_stoks(args));
    } else if args.len() == 1 {
        lemma_arg_ctoks_not_trivia(args[0]);
        lemma_sig_tokens_id(arg_ctoks(args[0]));
    } else {
        let d = args.drop_first();
        lemma_sig_args_ctoks(d);
        lemma_arg_ctoks_not_trivia(args[0]);
        lemma_sig_tokens_id(arg_ctoks(args[0]));
        let mid = seq![tok0(TokenKind::Comma, seq![',']), tok0(TokenKind::Whitespace, seq![' '])];
        assert(sig_tokens(mid) =~= seq![tok0(TokenKind::Comma, seq![','])]) by {
            assert(mid.drop_last() =~= seq![tok0(TokenKind::Comma, seq![','])]);
            assert(is_trivia(mid.last()));
            let m1 = seq![tok0(TokenKind::Comma, seq![','])];
            assert(m1.drop_last() =~= Seq::<TokenV>::empty());
            assert(!is_trivia(m1.last()));
            assert(sig_tokens(Seq::<TokenV>::empty()) =~= Seq::<TokenV>::empty());
            assert(sig_tokens(m1) =~= Seq::<TokenV>::empty() + seq![m1.last()]);
        }
        lemma_sig_tokens_append(arg_ctoks(args[0]), mid);
        lemma_sig_tokens_append(arg_ctoks(args[0]) + mid, args_ctoks(d));
        assert(args_ctoks(args) == (arg_ctoks(args[0]) + mid) + args_ctoks(d));
        assert(sig_tokens(args_ctoks(args)) == (arg_ctoks(args[0]) + seq![
            tok0(TokenKind::Comma, seq![',']),
        ]) + args_stoks(d));
        assert((arg_ctoks(args[0]) + seq![tok0(TokenKind::Comma, seq![','])]) + args_stoks(d)
            =~= args_stoks(args));
    }
}

/// Parsing the one token of a canonical value gives the value back.
proof fn lemma_parse_value(q: Seq<TokenV>, j: int, v: ArgValueV)
    requires
        wf_value(v),
        0 <= j < q.len(),
        q[j] == value_tok(v),
    ensures
        spec_value_at(q, j) == Ok::<(ArgValueV, int), ParseErrV>((v, j + 1)),
{
    reveal_strlit("true");
    reveal_strlit("false");
    match v {
        ArgValueV::Str(s) => {
            let text = q[j].text;
            assert(text == seq!['"'] + escape(s) + seq!['"']);
            assert(text.len() >= 2);
            assert(text.subrange(1, text.len() - 1) =~= escape(s));
            lemma_unescape_escape(s);
        },
        ArgValueV::Int(n) => {
            lemma_udigits(n);
            assert(crate::parser::all_digits(q[j].text));
        },
        ArgValueV::Bool(b) => {
            assert(("true"@).len() != ("false"@).len());
        },
        ArgValueV::Ident(s) => {
        },
    }
}

/// Parsing the tokens of one canonical argument gives it back.
proof fn lemma_parse_arg(q: Seq<TokenV>, j: int, a: ArgV)
    requires
        wf_arg(a),
        0 <= j,
        j + arg_ctoks(a).len() < q.len(),
        forall|k: int| 0 <= k < arg_ctoks(a).len() ==> q[j + k] == #[trigger] arg_ctoks(a)[k],
        q[j + arg_ctoks(a).len()].kind == TokenKind::Comma || q[j + arg_ctoks(a).len()].kind
            == TokenKind::RParen,
    ensures
        spec_arg_at(q, j) == Ok::<(ArgV, int), ParseErrV>((a, j + arg_ctoks(a).len())),
{
    match a.name {
        None => {
            assert(arg_ctoks(a) =~= seq![value_tok(a.value)]);
            assert(arg_ctoks(a)[0] == value_tok(a.value));
            assert(q[j] == value_tok(a.value));
            // a bare value is never mistaken for a named argument
            assert(q[j + 1].kind != TokenKind::Equals);
            match a.value {
                ArgValueV::Str(_) => {
                    assert(q[j].kind == TokenKind::Str);
                },
                ArgValueV::Int(_) => {
                    assert(q[j].kind == TokenKind::Int);
                },
                _ => {},
            }
            lemma_parse_value(q, j, a.value);
        },
        Some(nm) => {
            assert(arg_ctoks(a) =~= seq![
                tok0(TokenKind::Ident, nm),
                tok0(TokenKind::Equals, seq!['=']),
                value_tok(a.value),
            ]);
            assert(arg_ctoks(a)[0] == tok0(TokenKind::Ident, nm));
            assert(arg_ctoks(a)[1] == tok0(TokenKind::Equals, seq!['=']));
            assert(arg_ctoks(a)[2] == value_tok(a.value));
            assert(q[j] == tok0(TokenKind::Ident, nm));
            assert(q[j + 1] == tok0(TokenKind::Equals, seq!['=']));
            assert(q[j + 2] == value_tok(a.value));
            assert(q[j + 2].kind != TokenKind::Newline);
            assert(skip_nl(q, j + 2) == j + 2);
            lemma_parse_value(q, j + 2, a.value);
            assert(spec_arg_at(q, j) == Ok::<(ArgV, int), ParseErrV>(
                (ArgV { name: Some(nm), value: a.value }, j + 3),
            ));
            assert(ArgV { name: Some(nm), value: a.value } == a);
        },
    }
}

/// Parsing the significant tokens of a canonical argument list up to
/// the closing parenthesis gives the arguments back.
proof fn lemma_parse_args(q: Seq<TokenV>, j: int, args: Seq<ArgV>)
    requires
        args.len() >= 1,
        forall|k: int| 0 <= k < args.len() ==> wf_arg(#[trigger] args[k]),
        0 <= j,
        j + args_stoks(args).len() < q.len(),
        forall|k: int| 0 <= k < args_stoks(args).len() ==> q[j + k] == #[trigger] args_stoks(args)[k],
        q[j + args_stoks(args).len()].kind == TokenKind::RParen,
    ensures
        spec_args_from(q, j) == Ok::<(Seq<ArgV>, int), ParseErrV>(
            (args, j + args_stoks(args).len() + 1),
        ),
    decreases args.len(),
{
    let a0 = args[0];
    let cl = arg_ctoks(a0).len() as int;
    lemma_arg_ctoks_not_trivia(a0);
    if args.len() == 1 {
        assert(forall|k: int| 0 <= k < cl ==> q[j + k] == #[trigger] arg_ctoks(a0)[k]);
        lemma_parse_arg(q, j, a0);
        assert(q[j + cl].kind != TokenKind::Newline);
        assert(skip_nl(q, j + cl) == j + cl);
        assert(spec_args_from(q, j) == Ok::<(Seq<ArgV>, int), ParseErrV>(
            (seq![a0], j + cl + 1),
        ));
        assert(seq![a0] =~= args);
    } else {
        let d = args.drop_first();
        let st = args_stoks(args);
        assert(st == arg_ctoks(a0) + seq![tok0(TokenKind::Comma, seq![','])] + args_stoks(d));
        assert(forall|k: int| 0 <= k < cl ==> q[j + k] == #[trigger] arg_ctoks(a0)[k]) by {
            assert(forall|k: int| 0 <= k < cl ==> st[k] == #[trigger] arg_ctoks(a0)[k]);
        }
        assert(q[j + cl].kind == TokenKind::Comma) by {
            assert(st[cl] == tok0(TokenKind::Comma, seq![',']));
        }
        lemma_parse_arg(q, j, a0);
        assert(skip_nl(q, j + cl) == j + cl);
        assert(forall|k: int| 0 <= k < d.len() ==> wf_arg(#[trigger] d[k])) by {
            assert(forall|k: int| 0 <= k < d.len() ==> #[trigger] d[k] == args[k + 1]);
        }
        assert(forall|k: int|
            0 <= k < args_stoks(d).len() ==> q[j + cl + 1 + k] == #[trigger] args_stoks(d)[k]) by {
            assert(forall|k: int|
                0 <= k < args_stoks(d).len() ==> st[cl + 1 + k] == #[trigger] args_stoks(d)[k]);
        }
        lemma_arg_ctoks_not_trivia(d[0]);
        assert(args_stoks(d).len() >= 1);
        assert(q[j + cl + 1] == args_stoks(d)[0]);
        assert(args_stoks(d)[0] == arg_ctoks(d[0])[0]);
        let first_next = arg_ctoks(d[0])[0];
        assert(first_next.kind != TokenKind::Newline && first_next.kind != TokenKind::RParen) by {
            match d[0].name {
                Some(nm) => {
                    assert(arg_ctoks(d[0])[0] == tok0(TokenKind::Ident, nm));
                },
                None => {
                    assert(arg_ctoks(d[0])[0] == value_tok(d[0].value));
                },
            }
        }
        assert(skip_nl(q, j + cl + 1) == j + cl + 1);
        assert(crate::parser::bump(j, j + cl + 1) == j + cl + 1);
        assert(q[j + cl + 1 + args_stoks(d).len()].kind == TokenKind::RParen);
        lemma_parse_args(q, j + cl + 1, d);
        assert(spec_args_from(q, j) == Ok::<(Seq<ArgV>, int), ParseErrV>(
            (seq![a0] + d, j + st.len() + 1),
        ));
        assert(seq![a0] + d =~= args);
    }
}

/// Round-trip stability of the canonical form: tokenizing and parsing
/// the canonical source text of a well-formed statement yields exactly
/// one statement again, with the same scope, name and arguments.
/// Re-serializing that statement therefore gives the same text, so the
/// canonical form is a fixed point of the pipeline.
#[verifier::rlimit(100)]
pub proof fn lemma_round_trip(st: StmtV)
    requires
        wf_stmt(st),
    ensures
        ({
            let toks = spec_tokenize(stmt_source(st));
            &&& toks is Ok
            &&& spec_parse(toks->Ok_0) matches Ok(sts) && sts.len() == 1 && sts[0].sig()
                == st.sig()
        }),
{
    reveal_strlit("node.");
    reveal_strlit("network.");
    reveal_strlit("node");
    reveal_strlit("network");
    let p = if st.scope == Scope::Node {
        "node."@
    } else {
        "network."@
    };
    let word = if st.scope == Scope::Node {
        "node"@
    } else {
        "network"@
    };
    let pl = p.len() as int;
    let n = st.name.len() as int;
    let asl = args_source(st.args).len() as int;
    let src = stmt_source(st);
    assert(src =~= p + st.name + seq!['('] + args_source(st.args) + seq![')']);
    assert(src.len() == pl + n + 1 + asl + 1);
    assert(forall|k: int| 0 <= k < pl ==> #[trigger] src[k] == p[k]);
    assert(forall|k: int| 0 <= k < n ==> #[trigger] src[pl + k] == st.name[k]);
    assert(src[pl + n] == '(');
    assert(forall|k: int| 0 <= k < asl ==> #[trigger] src[pl + n + 1 + k] == args_source(st.args)[k]);
    assert(src[pl + n + 1 + asl] == ')');
    assert(p[pl - 1] == '.');
    assert(forall|k: int| 0 <= k < pl - 1 ==> is_ident_char(#[trigger] p[k]));
    assert(is_ident_start_char(p[0]));
    // the prefix word
    assert forall|k: int| 0 <= k < pl - 1 implies ident_pred()(#[trigger] src[k]) by {
        assert(src[k] == p[k]);
    }
    lemma_run_end_is(src, 0, pl - 1, ident_pred());
    assert(spec_token_at(src, 0) == TokenScan::Tok(TokenKind::Ident, pl - 1));
    lemma_consumes_one(src, 0, 1, 1, TokenKind::Ident, pl - 1);
    assert(src.subrange(0, pl - 1) =~= word);
    // the dot
    assert(spec_token_at(src, pl - 1) == TokenScan::Tok(TokenKind::Dot, pl));
    lemma_consumes_one(src, pl - 1, 0, 0, TokenKind::Dot, pl);
    assert(src.subrange(pl - 1, pl) =~= seq!['.']);
    // the name
    assert(is_ident_start_char(src[pl]));
    assert forall|k: int| pl <= k < pl + n implies ident_pred()(#[trigger] src[k]) by {
        assert(src[k] == st.name[k - pl]);
        assert(is_ident_char(st.name[k - pl]));
    }
    lemma_run_end_is(src, pl, pl + n, ident_pred());
    assert(spec_token_at(src, pl) == TokenScan::Tok(TokenKind::Ident, pl + n));
    lemma_consumes_one(src, pl, 0, 0, TokenKind::Ident, pl + n);
    assert(src.subrange(pl, pl + n) =~= st.name);
    // the opening parenthesis
    assert(spec_token_at(src, pl + n) == TokenScan::Tok(TokenKind::LParen, pl + n + 1));
    lemma_consumes_one(src, pl + n, 0, 0, TokenKind::LParen, pl + n + 1);
    assert(src.subrange(pl + n, pl + n + 1) =~= seq!['(']);
    // the argument list
    let i0 = pl + n + 1;
    if st.args.len() > 0 {
        lemma_tok_args(src, i0, st.args);
    } else {
        assert(args_ctoks(st.args) =~= Seq::<TokenV>::empty());
        assert(consumes(
            spec_tokenize_from(src, i0, 0, 0),
            args_ctoks(st.args),
            spec_tokenize_from(src, i0 + asl, 0, 0),
        )) by {
            assert(asl == 0);
            match spec_tokenize_from(src, i0, 0, 0) {
                Ok(a) => {
                    assert(Seq::<TokenV>::empty() + a =~= a);
                    assert(same_sig(a, a));
                },
                Err(_) => {},
            }
        }
    }
    // the closing parenthesis, and the end of the text
    assert(spec_token_at(src, i0 + asl) == TokenScan::Tok(TokenKind::RParen, i0 + asl + 1));
    lemma_consumes_one(src, i0 + asl, 0, 0, TokenKind::RParen, i0 + asl + 1);
    assert(src.subrange(i0 + asl, i0 + asl + 1) =~= seq![')']);
    assert(spec_tokenize_from(src, i0 + asl + 1, 0, 0) == Ok::<Seq<TokenV>, crate::token::LexErrV>(
        Seq::<TokenV>::empty(),
    ));
    // assemble the whole token stream
    let h0 = seq![tok0(TokenKind::Ident, word)];
    let h1 = seq![tok0(TokenKind::Dot, seq!['.'])];
    let h2 = seq![tok0(TokenKind::Ident, st.name)];
    let h3 = seq![tok0(TokenKind::LParen, seq!['('])];
    let hr = seq![tok0(TokenKind::RParen, seq![')'])];
    let r0 = spec_tokenize_from(src, 0, 1, 1);
    lemma_consumes_trans(
        r0,
        h0,
        spec_tokenize_from(src, pl - 1, 0, 0),
        h1,
        spec_tokenize_from(src, pl, 0, 0),
    );
    lemma_consumes_trans(
        r0,
        h0 + h1,
        spec_tokenize_from(src, pl, 0, 0),
        h2,
        spec_tokenize_from(src, pl + n, 0, 0),
    );
    lemma_consumes_trans(
        r0,
        (h0 + h1) + h2,
        spec_tokenize_from(src, pl + n, 0, 0),
        h3,
        spec_tokenize_from(src, i0, 0, 0),
    );
    lemma_consumes_trans(
        r0,
        ((h0 + h1) + h2) + h3,
        spec_tokenize_from(src, i0, 0, 0),
        args_ctoks(st.args),
        spec_tokenize_from(src, i0 + asl, 0, 0),
    );
    lemma_consumes_trans(
        r0,
        (((h0 + h1) + h2) + h3) + args_ctoks(st.args),
        spec_tokenize_from(src, i0 + asl, 0, 0),
        hr,
        spec_tokenize_from(src, i0 + asl + 1, 0, 0),
    );
    let hall = ((((h0 + h1) + h2) + h3) + args_ctoks(st.args)) + hr;
    assert(consumes(r0, hall, Ok(Seq::<TokenV>::empty())));
    assert(r0 is Ok);
    let ts = r0->Ok_0;
    assert(same_sig(ts, hall)) by {
        assert(same_sig(ts, hall + Seq::<TokenV>::empty()));
        assert(hall + Seq::<TokenV>::empty() =~= hall);
    }
    assert(spec_tokenize(src) == r0);
    // the significant tokens
    lemma_sig_tokens_same_sig(ts, hall);
    let head4 = ((h0 + h1) + h2) + h3;
    assert forall|k: int| 0 <= k < head4.len() implies !is_trivia(#[trigger] head4[k]) by {
        assert(head4.len() == 4);
    }
    lemma_sig_tokens_id(head4);
    lemma_sig_tokens_id(hr);
    lemma_sig_tokens_append(head4, args_ctoks(st.args));
    lemma_sig_tokens_append(head4 + args_ctoks(st.args), hr);
    lemma_sig_args_ctoks(st.args);
    assert(hall =~= (head4 + args_ctoks(st.args)) + hr);
    let sq = (head4 + args_stoks(st.args)) + hr;
    assert(sig_tokens(hall) == sq) by {
        assert((head4 + args_stoks(st.args)) + hr =~= sq);
    }
    // parse the canonical significant tokens
    let stl = args_stoks(st.args).len() as int;
    assert(sq.len() == 4 + stl + 1);
    assert(sq[0] == tok0(TokenKind::Ident, word));
    assert(sq[1] == tok0(TokenKind::Dot, seq!['.']));
    assert(sq[2] == tok0(TokenKind::Ident, st.name));
    assert(sq[3] == tok0(TokenKind::LParen, seq!['(']));
    assert(sq[4 + stl] == tok0(TokenKind::RParen, seq![')']));
    assert(("node"@).len() != ("network"@).len());
    let parsed = spec_stmt_at(sq, 0);
    assert(skip_nl(sq, 4) == 4) by {
        if stl == 0 {
            assert(sq[4].kind == TokenKind::RParen);
        } else {
            assert(sq[4] == args_stoks(st.args)[0]);
            lemma_arg_ctoks_not_trivia(st.args[0]);
            assert(args_stoks(st.args)[0] == arg_ctoks(st.args[0])[0]);
            match st.args[0].name {
                Some(nm) => {
                    assert(arg_ctoks(st.args[0])[0] == tok0(TokenKind::Ident, nm));
                },
                None => {
                    assert(arg_ctoks(st.args[0])[0] == value_tok(st.args[0].value));
                },
            }
        }
    }
    if st.args.len() == 0 {
        assert(spec_args_at(sq, 4) == Ok::<(Seq<ArgV>, int), ParseErrV>(
            (Seq::<ArgV>::empty(), 5),
        ));
        assert(Seq::<ArgV>::empty() =~= st.args);
    } else {
        assert(forall|k: int|
            0 <= k < stl ==> sq[4 + k] == #[trigger] args_stoks(st.args)[k]);
        assert(sq[4].kind != TokenKind::RParen) by {
            lemma_arg_ctoks_not_trivia(st.args[0]);
            assert(sq[4] == arg_ctoks(st.args[0])[0]);
            match st.args[0].name {
                Some(nm) => {
                    assert(arg_ctoks(st.args[0])[0] == tok0(TokenKind::Ident, nm));
                },
                None => {
                    assert(arg_ctoks(st.args[0])[0] == value_tok(st.args[0].value));
                },
            }
        }
        lemma_parse_args(sq, 4, st.args);
        assert(spec_args_at(sq, 4) == Ok::<(Seq<ArgV>, int), ParseErrV>(
            (st.args, sq.len() as int),
        ));
    }
    assert(parsed is Ok);
    let st2 = parsed->Ok_0.0;
    assert(st2.scope == st.scope) by {
        assert(crate::parser::scope_of(Some(st.scope), st.args) == st.scope);
    }
    assert(st2.name == st.name);
    assert(st2.args == st.args);
    assert(parsed->Ok_0.1 == sq.len());
    assert(spec_stmts_from(sq, 0) == Ok::<Seq<StmtV>, ParseErrV>(seq![st2]));
    // carry the result over to the tokens that were actually produced
    lemma_stmts_from_congr(sig_tokens(ts), sq, 0);
    match spec_stmts_from(sig_tokens(ts), 0) {
        Ok(sts) => {
            assert(sts.len() == 1);
            assert((seq![st2])[0] == st2);
            assert(sts[0].sig() == (seq![st2])[0].sig());
            assert(st2.sig() == st.sig());
        },
        Err(_) => {
            assert(false);
        },
    }
}

} // verus!
