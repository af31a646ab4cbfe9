//! Task statements: the AST a parsed script consists of.
//!
//! A script is an ordered sequence of task statements, each one
//! function call with a scope tag, a name, and an argument list.  The
//! scope tag is fixed by the syntax at parse time and never changes.

use vstd::prelude::*;

verus! {

/// Whether a statement calls a node function or a network function.
#[derive(Clone, Copy, Debug, PartialEq, Eq, Structural)]
pub enum Scope {
    Node,
    Network,
}

/// A literal or identifier argument value.
#[derive(Clone, Debug, PartialEq)]
pub enum ArgValue {
    Str(String),
    Int(i64),
    Bool(bool),
    Ident(String),
}

/// The mathematical model of an argument value.
pub enum ArgValueV {
    Str(Seq<char>),
    Int(int),
    Bool(bool),
    Ident(Seq<char>),
}

impl View for ArgValue {
    type V = ArgValueV;

    open spec fn view(&self) -> ArgValueV {
        match self {
            ArgValue::Str(s) => ArgValueV::Str(s@),
            ArgValue::Int(n) => ArgValueV::Int(*n as int),
            ArgValue::Bool(b) => ArgValueV::Bool(*b),
            ArgValue::Ident(s) => ArgValueV::Ident(s@),
        }
    }
}

/// One argument of a call: an optional name and a value.
#[derive(Clone, Debug, PartialEq)]
pub struct Arg {
    pub name: Option<String>,
    pub value: ArgValue,
}

/// The mathematical model of an argument.
pub struct ArgV {
    pub name: Option<Seq<char>>,
    pub value: ArgValueV,
}

impl View for Arg {
    type V = ArgV;

    open spec fn view(&self) -> ArgV {
        ArgV {
            name: match &self.name {
                Some(n) => Some(n@),
                None => None,
            },
            value: self.value@,
        }
    }
}

pub open spec fn args_view(args: Seq<Arg>) -> Seq<ArgV> {
    args.map_values(|a: Arg| a@)
}

/// One parsed function-call statement.
#[derive(Clone, Debug, PartialEq)]
pub struct TaskStatement {
    pub scope: Scope,
    pub name: String,
    pub args: Vec<Arg>,
    /// 1-based line of the statement's first token.
    pub line: usize,
    /// 1-based column of the statement's first token.
    pub col: usize,
}

/// The mathematical model of a task statement.
pub struct StmtV {
    pub scope: Scope,
    pub name: Seq<char>,
    pub args: Seq<ArgV>,
    pub line: int,
    pub col: int,
}

impl View for TaskStatement {
    type V = StmtV;

    open spec fn view(&self) -> StmtV {
        StmtV {
            scope: self.scope,
            name: self.name@,
            args: args_view(self.args@),
            line: self.line as int,
            col: self.col as int,
        }
    }
}

pub open spec fn stmts_view(sts: Seq<TaskStatement>) -> Seq<StmtV> {
    sts.map_values(|s: TaskStatement| s@)
}

impl StmtV {
    /// The semantic content of a statement: everything but its source
    /// position.
    pub open spec fn sig(self) -> (Scope, Seq<char>, Seq<ArgV>) {
        (self.scope, self.name, self.args)
    }
}

/// The semantic content of a statement sequence.
pub open spec fn stmts_sig(sts: Seq<StmtV>) -> Seq<(Scope, Seq<char>, Seq<ArgV>)> {
    sts.map_values(|s: StmtV| s.sig())
}

// ---------------------------------------------------------------------
// Canonical source form
// ---------------------------------------------------------------------

pub open spec fn digit_char(d: int) -> char {
    ((48 + d) as u8) as char
}

/// The decimal digits of a non-negative number.
pub open spec fn udigits(n: int) -> Seq<char>
    decreases n when n >= 0
{
    if n < 10 {
        seq![digit_char(n)]
    } else {
        udigits(n / 10) + seq![digit_char(n % 10)]
    }
}

/// The decimal form of a number.
pub open spec fn int_source(n: int) -> Seq<char> {
    if n < 0 {
        seq!['-'] + udigits(-n)
    } else {
        udigits(n)
    }
}

/// The escaped form of one string character.
pub open spec fn esc_source(c: char) -> Seq<char> {
    if c == '"' {
        seq!['\\', '"']
    } else if c == '\\' {
        seq!['\\', '\\']
    } else if c == '\n' {
        seq!['\\', 'n']
    } else if c == '\t' {
        seq!['\\', 't']
    } else {
        seq![c]
    }
}

/// The escaped body of a string literal.
pub open spec fn escape(s: Seq<char>) -> Seq<char>
    decreases s.len(),
{
    if s.len() == 0 {
        Seq::<char>::empty()
    } else {
        esc_source(s[0]) + escape(s.drop_first())
    }
}

/// The canonical source form of a value.
pub open spec fn value_source(v: ArgValueV) -> Seq<char> {
    match v {
        ArgValueV::Str(s) => seq!['"'] + escape(s) + seq!['"'],
        ArgValueV::Int(n) => int_source(n),
        ArgValueV::Bool(b) => if b {
            "true"@
        } else {
            "false"@
        },
        ArgValueV::Ident(s) => s,
    }
}

/// The canonical source form of one argument.
pub open spec fn arg_source(a: ArgV) -> Seq<char> {
    match a.name {
        Some(n) => n + seq!['='] + value_source(a.value),
        None => value_source(a.value),
    }
}

/// The canonical source form of the arguments after the first.
pub open spec fn rest_args_source(args: Seq<ArgV>) -> Seq<char>
    decreases args.len(),
{
    if args.len() == 0 {
        Seq::<char>::empty()
    } else {
        ", "@ + arg_source(args[0]) + rest_args_source(args.drop_first())
    }
}

/// The canonical source form of an argument list.
pub open spec fn args_source(args: Seq<ArgV>) -> Seq<char> {
    if args.len() == 0 {
        Seq::<char>::empty()
    } else {
        arg_source(args[0]) + rest_args_source(args.drop_first())
    }
}

/// The canonical source form of a statement: always with an explicit
/// scope prefix, one space after each comma, no other whitespace.
pub open spec fn stmt_source(s: StmtV) -> Seq<char> {
    (if s.scope == Scope::Node {
        "node."@
    } else {
        "network."@
    }) + s.name + seq!['('] + args_source(s.args) + seq![')']
}

fn push_udigits(out: &mut String, n: u64)
    ensures
        final(out)@ == old(out)@ + udigits(n as int),
    decreases n,
{
    if n < 10 {
        let c = ((48 + n as u8)) as char;
        crate::token::push_char(out, c);
    } else {
        push_udigits(out, n / 10);
        let d = n % 10;
        let c = ((48 + d as u8)) as char;
        crate::token::push_char(out, c);
        proof {
            assert(udigits(n as int) == udigits(n as int / 10) + seq![digit_char(n as int % 10)]);
        }
    }
}

fn push_escaped(out: &mut String, s: &str)
    ensures
        final(out)@ == old(out)@ + escape(s@),
{
    let n = s.unicode_len();
    proof {
        assert(s@.skip(0) =~= s@);
    }
    let mut k: usize = 0;
    while k < n
        invariant
            k <= n,
            n as int == s@.len(),
            old(out)@ + escape(s@) == out@ + escape(s@.skip(k as int)),
        decreases n - k,
    {
        let c = s.get_char(k);
        proof {
            assert(s@.skip(k as int)[0] == s@[k as int]);
            assert(s@.skip(k as int).drop_first() =~= s@.skip(k as int + 1));
        }
        if c == '"' {
            crate::token::push_char(out, '\\');
            crate::token::push_char(out, '"');
        } else if c == '\\' {
            crate::token::push_char(out, '\\');
            crate::token::push_char(out, '\\');
        } else if c == '\n' {
            crate::token::push_char(out, '\\');
            crate::token::push_char(out, 'n');
        } else if c == '\t' {
            crate::token::push_char(out, '\\');
            crate::token::push_char(out, 't');
        } else {
            crate::token::push_char(out, c);
        }
        k = k + 1;
    }
    proof {
        assert(s@.skip(n as int) =~= Seq::<char>::empty());
        assert(escape(s@.skip(n as int)) == Seq::<char>::empty());
        assert(out@ + Seq::<char>::empty() =~= out@);
        assert(old(out)@ + escape(s@) =~= old(out)@ + escape(s@));
    }
}

fn push_value(out: &mut String, v: &ArgValue)
    ensures
        final(out)@ == old(out)@ + value_source(v@),
{
    match v {
        ArgValue::Str(s) => {
            crate::token::push_char(out, '"');
            push_escaped(out, s.as_str());
            crate::token::push_char(out, '"');
            proof {
                assert(old(out)@ + (seq!['"'] + escape(s@) + seq!['"']) =~= ((old(out)@ + seq!['"'])
                    + escape(s@)) + seq!['"']);
            }
        },
        ArgValue::Int(n) => {
            let nv = *n;
            if nv < 0 {
                crate::token::push_char(out, '-');
                let m: u64 = ((-(nv + 1)) as u64) + 1;
                proof {
                    assert(m as int == -(nv as int));
                }
                push_udigits(out, m);
                proof {
                    assert(old(out)@ + (seq!['-'] + udigits(m as int)) =~= (old(out)@ + seq!['-'])
                        + udigits(m as int));
                }
            } else {
                push_udigits(out, nv as u64);
            }
        },
        ArgValue::Bool(b) => {
            if *b {
                out.append("true");
            } else {
                out.append("false");
            }
        },
        ArgValue::Ident(s) => {
            out.append(s.as_str());
        },
    }
}

impl TaskStatement {
    /// The canonical source text of the statement: explicit scope
    /// prefix, the name, and the argument list.  Parsing this text
    /// yields a statement with the same scope, name and arguments.
    pub fn to_source(&self) -> (r: String)
        ensures
            r@ == stmt_source(self@),
    {
        let ghost av = args_view(self.args@);
        let mut out = match self.scope {
            Scope::Node => String::from_str("node."),
            Scope::Network => String::from_str("network."),
        };
        out.append(self.name.as_str());
        crate::token::push_char(&mut out, '(');
        let ghost base = out@;
        let n = self.args.len();
        let mut k: usize = 0;
        while k < n
            invariant
                k <= n,
                n == self.args@.len(),
                av == args_view(self.args@),
                base + args_source(av) == out@ + (if k == 0 {
                    args_source(av)
                } else {
                    rest_args_source(av.skip(k as int))
                }),
            decreases n - k,
        {
            proof {
                assert(av[k as int] == self.args@[k as int]@);
                if k == 0 {
                    assert(av.drop_first() =~= av.skip(1));
                } else {
                    assert(av.skip(k as int)[0] == av[k as int]);
                    assert(av.skip(k as int).drop_first() =~= av.skip(k as int + 1));
                }
            }
            if k > 0 {
                out.append(", ");
            }
            let a = &self.args[k];
            match &a.name {
                Some(nm) => {
                    out.append(nm.as_str());
                    crate::token::push_char(&mut out, '=');
                },
                None => {},
            }
            push_value(&mut out, &a.value);
            k = k + 1;
        }
        proof {
            if n == 0 {
                assert(args_source(av) == Seq::<char>::empty());
            } else {
                assert(av.skip(n as int) =~= Seq::<ArgV>::empty());
                assert(rest_args_source(av.skip(n as int)) == Seq::<char>::empty());
            }
            assert(out@ + Seq::<char>::empty() =~= out@);
        }
        crate::token::push_char(&mut out, ')');
        proof {
            assert(stmt_source(self@) =~= (base + args_source(av)) + seq![')']);
        }
        out
    }
}

} // verus!
