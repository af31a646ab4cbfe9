//! Task execution context: owns the optional network and a snapshot of
//! the function registry, and executes parsed statements one at a
//! time, in order, fail-fast.
//!
//! Network sources stand in for the external network-file loader: the
//! host reads and builds each network ahead of time and hands it in
//! under its name; the `load_network` builtin installs the named
//! source as the current network.
//!
//! `spec_execute` is the mathematical definition of one step;
//! `execute` is proved to perform exactly that step.  An error never
//! changes the context.

use vstd::prelude::*;
use crate::ast::{Scope, ArgValue, ArgValueV, Arg, ArgV, TaskStatement, StmtV, args_view};
use crate::network::{AttrValue, AttrValueV, Network, NetV, NodeV, attr_set, attr_find, first_node, attr_value_copy};
use crate::registry::{Registry, EntryV, FuncKind, spec_lookup, registry_wf, standard_entries};

verus! {

/// The kind of error a run can stop with.
#[derive(Clone, Copy, Debug, PartialEq, Eq, Structural)]
pub enum DiagnosticKind {
    /// The statement's scope and name resolve to no registered
    /// function.
    UnknownFunction,
    /// A node-scope call with no network loaded.
    MissingNetwork,
    /// A resolved function failed while running.
    ExecutionFailure,
}

/// A 1-based source position.
#[derive(Clone, Copy, Debug, PartialEq, Eq, Structural)]
pub struct Span {
    pub line: usize,
    pub col: usize,
}

/// A structured, position-aware error surfaced to the host.
#[derive(Debug, PartialEq)]
pub struct Diagnostic {
    pub kind: DiagnosticKind,
    pub message: String,
    pub span: Option<Span>,
    pub file: Option<String>,
}

/// The mathematical model of a diagnostic.
pub struct DiagV {
    pub kind: DiagnosticKind,
    pub message: Seq<char>,
    pub span: Option<(int, int)>,
    pub file: Option<Seq<char>>,
}

impl View for Diagnostic {
    type V = DiagV;

    open spec fn view(&self) -> DiagV {
        DiagV {
            kind: self.kind,
            message: self.message@,
            span: match self.span {
                Some(sp) => Some((sp.line as int, sp.col as int)),
                None => None,
            },
            file: match &self.file {
                Some(f) => Some(f@),
                None => None,
            },
        }
    }
}

/// The context: the current network, if any, the registry snapshot,
/// and the named network sources the host handed in.
#[derive(Debug, PartialEq)]
pub struct Context {
    pub network: Option<Network>,
    pub registry: Registry,
    pub sources: Vec<(String, Network)>,
}

/// The mathematical model of a context.
pub struct CtxV {
    pub network: Option<NetV>,
    pub registry: Seq<EntryV>,
    pub sources: Seq<(Seq<char>, NetV)>,
}

impl View for Context {
    type V = CtxV;

    open spec fn view(&self) -> CtxV {
        CtxV {
            network: match &self.network {
                Some(n) => Some(n@),
                None => None,
            },
            registry: self.registry@,
            sources: self.sources@.map_values(|p: (String, Network)| (p.0@, p.1@)),
        }
    }
}

pub open spec fn ctx_wf(c: CtxV) -> bool {
    &&& registry_wf(c.registry)
    &&& match c.network {
        Some(n) => n.wf(),
        None => true,
    }
    &&& forall|k: int| 0 <= k < c.sources.len() ==> (#[trigger] c.sources[k]).1.wf()
}

// ---------------------------------------------------------------------
// Argument and source lookups
// ---------------------------------------------------------------------

/// Index of the first argument with the given name, or the length.
pub open spec fn first_named(args: Seq<ArgV>, nm: Seq<char>) -> int
    decreases args.len(),
{
    if args.len() == 0 {
        0
    } else if args[0].name == Some(nm) {
        0
    } else {
        1 + first_named(args.drop_first(), nm)
    }
}

pub proof fn lemma_first_named(args: Seq<ArgV>, nm: Seq<char>)
    ensures
        0 <= first_named(args, nm) <= args.len(),
        first_named(args, nm) < args.len() ==> args[first_named(args, nm)].name == Some(nm),
        forall|m: int| 0 <= m < first_named(args, nm) ==> (#[trigger] args[m]).name != Some(nm),
    decreases args.len(),
{
    if args.len() > 0 && args[0].name != Some(nm) {
        lemma_first_named(args.drop_first(), nm);
        assert(forall|m: int|
            1 <= m < args.len() ==> #[trigger] args[m] == args.drop_first()[m - 1]);
    }
}

/// The value of the first argument with the given name, if any.
pub open spec fn named_arg(args: Seq<ArgV>, nm: Seq<char>) -> Option<ArgValueV> {
    if first_named(args, nm) < args.len() {
        Some(args[first_named(args, nm)].value)
    } else {
        None
    }
}

/// Index of the first network source with the given name, or the
/// length.
pub open spec fn first_source(srcs: Seq<(Seq<char>, NetV)>, nm: Seq<char>) -> int
    decreases srcs.len(),
{
    if srcs.len() == 0 {
        0
    } else if srcs[0].0 == nm {
        0
    } else {
        1 + first_source(srcs.drop_first(), nm)
    }
}

pub proof fn lemma_first_source(srcs: Seq<(Seq<char>, NetV)>, nm: Seq<char>)
    ensures
        0 <= first_source(srcs, nm) <= srcs.len(),
        first_source(srcs, nm) < srcs.len() ==> srcs[first_source(srcs, nm)].0 == nm,
        forall|m: int| 0 <= m < first_source(srcs, nm) ==> (#[trigger] srcs[m]).0 != nm,
    decreases srcs.len(),
{
    if srcs.len() > 0 && srcs[0].0 != nm {
        lemma_first_source(srcs.drop_first(), nm);
        assert(forall|m: int|
            1 <= m < srcs.len() ==> #[trigger] srcs[m] == srcs.drop_first()[m - 1]);
    }
}

/// The network source registered under a name, if any.
pub open spec fn source_find(srcs: Seq<(Seq<char>, NetV)>, nm: Seq<char>) -> Option<NetV> {
    if first_source(srcs, nm) < srcs.len() {
        Some(srcs[first_source(srcs, nm)].1)
    } else {
        None
    }
}

// ---------------------------------------------------------------------
// The meaning of one statement
// ---------------------------------------------------------------------

/// An argument value stored as an attribute: a bare identifier stands
/// for its text.
pub open spec fn to_attr(v: ArgValueV) -> AttrValueV {
    match v {
        ArgValueV::Str(s) => AttrValueV::Str(s),
        ArgValueV::Int(n) => AttrValueV::Int(n),
        ArgValueV::Bool(b) => AttrValueV::Bool(b),
        ArgValueV::Ident(s) => AttrValueV::Str(s),
    }
}

/// A node count surfaced as a 64-bit value (saturating).
pub open spec fn count_i64(n: int) -> int {
    if n > i64::MAX as int {
        i64::MAX as int
    } else {
        n
    }
}

pub open spec fn stmt_span(s: StmtV) -> Option<(int, int)> {
    Some((s.line, s.col))
}

pub open spec fn diag(kind: DiagnosticKind, message: Seq<char>, s: StmtV) -> DiagV {
    DiagV { kind, message, span: stmt_span(s), file: None }
}

pub open spec fn unknown_message(sc: Scope, name: Seq<char>) -> Seq<char> {
    (if sc == Scope::Node {
        "unknown node function: "@
    } else {
        "unknown network function: "@
    }) + name
}

pub open spec fn fail(message: Seq<char>, s: StmtV) -> DiagV {
    diag(DiagnosticKind::ExecutionFailure, message, s)
}

/// One step: the context after the statement and its result.  On any
/// error the context is unchanged.
pub open spec fn spec_execute(c: CtxV, s: StmtV) -> (CtxV, Result<Option<AttrValueV>, DiagV>) {
    match spec_lookup(c.registry, s.scope, s.name) {
        None => (c, Err(diag(DiagnosticKind::UnknownFunction, unknown_message(s.scope, s.name), s))),
        Some(entry) => {
            if s.scope == Scope::Network {
                spec_execute_network(c, s, entry.kind)
            } else {
                spec_execute_node(c, s, entry.kind)
            }
        },
    }
}

pub open spec fn spec_execute_network(c: CtxV, s: StmtV, kind: FuncKind) -> (
    CtxV,
    Result<Option<AttrValueV>, DiagV>,
) {
    match kind {
        FuncKind::LoadNetwork => {
            if s.args.len() == 1 {
                match s.args[0].value {
                    ArgValueV::Str(path) => match source_find(c.sources, path) {
                        Some(net) => (
                            CtxV { network: Some(net), registry: c.registry, sources: c.sources },
                            Ok(None),
                        ),
                        None => (c, Err(fail("no network source: "@ + path, s))),
                    },
                    _ => (c, Err(fail("load_network expects one string argument"@, s))),
                }
            } else {
                (c, Err(fail("load_network expects one string argument"@, s)))
            }
        },
        FuncKind::NodeCount => match c.network {
            Some(n) => (c, Ok(Some(AttrValueV::Int(count_i64(n.nodes.len() as int))))),
            None => (c, Err(fail("no network loaded"@, s))),
        },
        _ => (c, Err(fail("function does not match its scope"@, s))),
    }
}

pub open spec fn spec_execute_node(c: CtxV, s: StmtV, kind: FuncKind) -> (
    CtxV,
    Result<Option<AttrValueV>, DiagV>,
) {
    match c.network {
        None => (c, Err(diag(DiagnosticKind::MissingNetwork, "no network loaded"@, s))),
        Some(net) => match named_arg(s.args, "node"@) {
            None => (c, Err(fail("missing node argument"@, s))),
            Some(nv) => match nv {
                ArgValueV::Str(node) => {
                    if first_node(net.nodes, node) >= net.nodes.len() {
                        (c, Err(fail("no such node: "@ + node, s)))
                    } else {
                        spec_execute_on_node(c, s, kind, net, node)
                    }
                },
                _ => (c, Err(fail("node argument must be a string"@, s))),
            },
        },
    }
}

pub open spec fn spec_execute_on_node(
    c: CtxV,
    s: StmtV,
    kind: FuncKind,
    net: NetV,
    node: Seq<char>,
) -> (CtxV, Result<Option<AttrValueV>, DiagV>) {
    let idx = first_node(net.nodes, node);
    match kind {
        FuncKind::SetAttr => match named_arg(s.args, "key"@) {
            Some(ArgValueV::Str(key)) => match named_arg(s.args, "value"@) {
                Some(v) => {
                    let nd = net.nodes[idx];
                    let net2 = NetV {
                        nodes: net.nodes.update(
                            idx,
                            NodeV { name: nd.name, attrs: attr_set(nd.attrs, key, to_attr(v)) },
                        ),
                        edges: net.edges,
                    };
                    (
                        CtxV { network: Some(net2), registry: c.registry, sources: c.sources },
                        Ok(None),
                    )
                },
                None => (c, Err(fail("missing value argument"@, s))),
            },
            Some(_) => (c, Err(fail("key argument must be a string"@, s))),
            None => (c, Err(fail("missing key argument"@, s))),
        },
        FuncKind::GetAttr => match named_arg(s.args, "key"@) {
            Some(ArgValueV::Str(key)) => match attr_find(net.nodes[idx].attrs, key) {
                Some(v) => (c, Ok(Some(v))),
                None => (c, Err(fail("no such attribute: "@ + key, s))),
            },
            Some(_) => (c, Err(fail("key argument must be a string"@, s))),
            None => (c, Err(fail("missing key argument"@, s))),
        },
        _ => (c, Err(fail("function does not match its scope"@, s))),
    }
}

/// A whole run: statements in order, stopping at the first error; the
/// outputs of the successful statements that produced one.
pub open spec fn spec_execute_all(c: CtxV, ss: Seq<StmtV>, i: int) -> (
    CtxV,
    Result<Seq<AttrValueV>, DiagV>,
)
    decreases ss.len() - i when 0 <= i <= ss.len()
{
    if i >= ss.len() {
        (c, Ok(Seq::<AttrValueV>::empty()))
    } else {
        match spec_execute(c, ss[i]) {
            (c1, Err(d)) => (c1, Err(d)),
            (c1, Ok(out)) => match spec_execute_all(c1, ss, i + 1) {
                (c2, Ok(rest)) => (
                    c2,
                    Ok(
                        match out {
                            Some(v) => seq![v] + rest,
                            None => rest,
                        },
                    ),
                ),
                (c2, Err(d)) => (c2, Err(d)),
            },
        }
    }
}

// ---------------------------------------------------------------------
// Executable helpers
// ---------------------------------------------------------------------

/// A message built from a fixed prefix and a name from the source.
fn msg2(prefix: &str, tail: &str) -> (r: String)
    ensures
        r@ == prefix@ + tail@,
{
    let mut s = String::from_str(prefix);
    s.append(tail);
    s
}

/// A fresh copy of a node.
fn node_copy(nd: &NodeData) -> (r: NodeData)
    ensures
        r@ == nd@,
{
    let mut attrs: Vec<(String, AttrValue)> = Vec::new();
    let n = nd.attrs.len();
    let mut k: usize = 0;
    while k < n
        invariant
            k <= n,
            n == nd.attrs@.len(),
            attrs@.len() == k,
            forall|m: int|
                0 <= m < k ==> (#[trigger] attrs@[m]).0@ == nd.attrs@[m].0@ && attrs@[m].1@
                    == nd.attrs@[m].1@,
        decreases n - k,
    {
        let key = nd.attrs[k].0.clone();
        let val = attr_value_copy(&nd.attrs[k].1);
        attrs.push((key, val));
        k = k + 1;
    }
    let r = NodeData { name: nd.name.clone(), attrs };
    proof {
        assert(r@.attrs =~= nd@.attrs);
    }
    r
}

/// A fresh copy of a network.
fn network_copy(net: &Network) -> (r: Network)
    ensures
        r@ == net@,
{
    let mut nodes: Vec<NodeData> = Vec::new();
    let n = net.nodes.len();
    let mut k: usize = 0;
    while k < n
        invariant
            k <= n,
            n == net.nodes@.len(),
            nodes@.len() == k,
            forall|m: int| 0 <= m < k ==> (#[trigger] nodes@[m])@ == net.nodes@[m]@,
        decreases n - k,
    {
        nodes.push(node_copy(&net.nodes[k]));
        k = k + 1;
    }
    let mut edges: Vec<(usize, usize)> = Vec::new();
    let ne = net.edges.len();
    let mut k2: usize = 0;
    while k2 < ne
        invariant
            k2 <= ne,
            ne == net.edges@.len(),
            edges@.len() == k2,
            forall|m: int| 0 <= m < k2 ==> (#[trigger] edges@[m]) == net.edges@[m],
        decreases ne - k2,
    {
        let e = net.edges[k2];
        edges.push(e);
        k2 = k2 + 1;
    }
    let r = Network { nodes, edges };
    proof {
        assert(r@.nodes =~= net@.nodes);
        assert(r@.edges =~= net@.edges);
    }
    r
}

use crate::network::NodeData;

impl Context {
    pub open spec fn wf(self) -> bool {
        ctx_wf(self@)
    }

    /// A context over an optional initial network, with the built-in
    /// registry and no network sources.
    pub fn new(network: Option<Network>) -> (r: Context)
        requires
            match network {
                Some(n) => n@.wf(),
                None => true,
            },
        ensures
            r@.network == match network {
                Some(n) => Some(n@),
                None => None::<NetV>,
            },
            r@.registry =~= standard_entries(),
            r@.sources =~= Seq::<(Seq<char>, NetV)>::empty(),
            r.wf(),
    {
        let r = Context { network, registry: Registry::standard(), sources: Vec::new() };
        proof {
            assert(r@.sources =~= Seq::<(Seq<char>, NetV)>::empty());
        }
        r
    }

    /// A context over an explicit registry snapshot.
    pub fn with_registry(network: Option<Network>, registry: Registry) -> (r: Context)
        requires
            match network {
                Some(n) => n@.wf(),
                None => true,
            },
            registry.wf(),
        ensures
            r@.network == match network {
                Some(n) => Some(n@),
                None => None::<NetV>,
            },
            r@.registry == registry@,
            r@.sources =~= Seq::<(Seq<char>, NetV)>::empty(),
            r.wf(),
    {
        let r = Context { network, registry, sources: Vec::new() };
        proof {
            assert(r@.sources =~= Seq::<(Seq<char>, NetV)>::empty());
        }
        r
    }

    /// Hand in a network under a name, so that `load_network` can
    /// install it.  The host builds it from whatever external storage
    /// it uses; the context only ever sees the finished value.
    pub fn provide_network(&mut self, name: String, net: Network)
        requires
            old(self).wf(),
            net@.wf(),
        ensures
            final(self).wf(),
            final(self)@.sources =~= old(self)@.sources + seq![(name@, net@)],
            final(self)@.network == old(self)@.network,
            final(self)@.registry == old(self)@.registry,
    {
        let ghost oldv = self@.sources;
        self.sources.push((name, net));
        proof {
            assert(self@.sources =~= oldv + seq![(self.sources@.last().0@, self.sources@.last().1@)]);
        }
    }

    /// The network source registered under a name, copied.
    fn find_source(&self, name: &str) -> (r: Option<Network>)
        ensures
            match r {
                Some(n) => source_find(self@.sources, name@) == Some(n@),
                None => source_find(self@.sources, name@) is None,
            },
    {
        let ghost srcs = self@.sources;
        let n = self.sources.len();
        let mut k: usize = 0;
        while k < n
            invariant
                k <= n,
                n == self.sources@.len(),
                srcs == self@.sources,
                forall|m: int| 0 <= m < k ==> (#[trigger] srcs[m]).0 != name@,
            decreases n - k,
        {
            proof {
                assert(srcs[k as int] == (self.sources@[k as int].0@, self.sources@[k as int].1@));
            }
            if crate::parser::str_eq(self.sources[k].0.as_str(), name) {
                let net = network_copy(&self.sources[k].1);
                proof {
                    lemma_first_source(srcs, name@);
                    if first_source(srcs, name@) < k as int {
                        assert(srcs[first_source(srcs, name@)].0 == name@);
                    }
                    assert(first_source(srcs, name@) == k as int);
                }
                return Some(net);
            }
            k = k + 1;
        }
        proof {
            lemma_first_source(srcs, name@);
            if first_source(srcs, name@) < srcs.len() {
                assert(srcs[first_source(srcs, name@)].0 == name@);
            }
        }
        None
    }
}

/// The first argument with the given name, if any.
fn named_arg_exec<'a>(args: &'a Vec<Arg>, nm: &str) -> (r: Option<&'a ArgValue>)
    ensures
        match r {
            Some(v) => named_arg(args_view(args@), nm@) == Some(v@),
            None => named_arg(args_view(args@), nm@) is None,
        },
{
    let ghost av = args_view(args@);
    let n = args.len();
    let mut k: usize = 0;
    while k < n
        invariant
            k <= n,
            n == args@.len(),
            av == args_view(args@),
            forall|m: int| 0 <= m < k ==> (#[trigger] av[m]).name != Some(nm@),
        decreases n - k,
    {
        proof {
            assert(av[k as int] == args@[k as int]@);
        }
        let hit = match &args[k].name {
            Some(s) => crate::parser::str_eq(s.as_str(), nm),
            None => false,
        };
        if hit {
            proof {
                lemma_first_named(av, nm@);
                if first_named(av, nm@) < k as int {
                    assert(av[first_named(av, nm@)].name == Some(nm@));
                }
                assert(first_named(av, nm@) == k as int);
            }
            return Some(&args[k].value);
        }
        k = k + 1;
    }
    proof {
        lemma_first_named(av, nm@);
        if first_named(av, nm@) < av.len() {
            assert(av[first_named(av, nm@)].name == Some(nm@));
        }
    }
    None
}

/// An argument value stored as an attribute.
fn to_attr_exec(v: &ArgValue) -> (r: AttrValue)
    ensures
        r@ == to_attr(v@),
{
    match v {
        ArgValue::Str(s) => AttrValue::Str(s.clone()),
        ArgValue::Int(n) => AttrValue::Int(*n),
        ArgValue::Bool(b) => AttrValue::Bool(*b),
        ArgValue::Ident(s) => AttrValue::Str(s.clone()),
    }
}

impl Context {
    /// Execute one statement: resolve it against the registry,
    /// dispatch it, and surface its output or the diagnostic that
    /// stopped the run.  Exactly the step `spec_execute` defines; on
    /// an error the context is unchanged.
    pub fn execute(&mut self, stmt: &TaskStatement) -> (r: Result<Option<AttrValue>, Diagnostic>)
        requires
            old(self).wf(),
        ensures
            final(self).wf(),
            final(self)@ == spec_execute(old(self)@, stmt@).0,
            match r {
                Ok(Some(v)) => spec_execute(old(self)@, stmt@).1 == Ok::<Option<AttrValueV>, DiagV>(
                    Some(v@),
                ),
                Ok(None) => spec_execute(old(self)@, stmt@).1 == Ok::<Option<AttrValueV>, DiagV>(
                    None,
                ),
                Err(d) => spec_execute(old(self)@, stmt@).1 == Err::<Option<AttrValueV>, DiagV>(d@),
            },
    {
        let span = Some(Span { line: stmt.line, col: stmt.col });
        let kind_opt: Option<FuncKind> = {
            match self.registry.lookup(stmt.scope, stmt.name.as_str()) {
                Some(e) => Some(e.kind),
                None => None,
            }
        };
        let kind = match kind_opt {
            Some(k) => k,
            None => {
                let message = match stmt.scope {
                    Scope::Node => msg2("unknown node function: ", stmt.name.as_str()),
                    Scope::Network => msg2("unknown network function: ", stmt.name.as_str()),
                };
                return Err(
                    Diagnostic { kind: DiagnosticKind::UnknownFunction, message, span, file: None },
                );
            },
        };
        if stmt.scope == Scope::Network {
            self.execute_network(stmt, kind, span)
        } else {
            self.execute_node(stmt, kind, span)
        }
    }

    fn execute_network(&mut self, stmt: &TaskStatement, kind: FuncKind, span: Option<Span>) -> (r:
        Result<Option<AttrValue>, Diagnostic>)
        requires
            old(self).wf(),
            stmt@.scope == Scope::Network,
            span == Some(Span { line: stmt.line, col: stmt.col }),
            spec_lookup(old(self)@.registry, stmt@.scope, stmt@.name) matches Some(e) && e.kind
                == kind,
        ensures
            final(self).wf(),
            final(self)@ == spec_execute(old(self)@, stmt@).0,
            match r {
                Ok(Some(v)) => spec_execute(old(self)@, stmt@).1 == Ok::<Option<AttrValueV>, DiagV>(
                    Some(v@),
                ),
                Ok(None) => spec_execute(old(self)@, stmt@).1 == Ok::<Option<AttrValueV>, DiagV>(
                    None,
                ),
                Err(d) => spec_execute(old(self)@, stmt@).1 == Err::<Option<AttrValueV>, DiagV>(d@),
            },
    {
        match kind {
            FuncKind::LoadNetwork => {
                if stmt.args.len() == 1 {
                    proof {
                        assert(args_view(stmt.args@)[0] == stmt.args@[0]@);
                    }
                    match &stmt.args[0].value {
                        ArgValue::Str(path) => {
                            match self.find_source(path.as_str()) {
                                Some(net) => {
                                    proof {
                                        let srcs = old(self)@.sources;
                                        lemma_first_source(srcs, path@);
                                        assert(srcs[first_source(srcs, path@)].1.wf());
                                    }
                                    self.network = Some(net);
                                    Ok(None)
                                },
                                None => Err(
                                    Diagnostic {
                                        kind: DiagnosticKind::ExecutionFailure,
                                        message: msg2("no network source: ", path.as_str()),
                                        span,
                                        file: None,
                                    },
                                ),
                            }
                        },
                        _ => Err(
                            Diagnostic {
                                kind: DiagnosticKind::ExecutionFailure,
                                message: String::from_str(
                                    "load_network expects one string argument",
                                ),
                                span,
                                file: None,
                            },
                        ),
                    }
                } else {
                    Err(
                        Diagnostic {
                            kind: DiagnosticKind::ExecutionFailure,
                            message: String::from_str("load_network expects one string argument"),
                            span,
                            file: None,
                        },
                    )
                }
            },
            FuncKind::NodeCount => {
                match &self.network {
                    Some(n) => {
                        let c = n.node_count();
                        let v: i64 = if c as u64 > 0x7fffffffffffffffu64 {
                            i64::MAX
                        } else {
                            c as i64
                        };
                        Ok(Some(AttrValue::Int(v)))
                    },
                    None => Err(
                        Diagnostic {
                            kind: DiagnosticKind::ExecutionFailure,
                            message: String::from_str("no network loaded"),
                            span,
                            file: None,
                        },
                    ),
                }
            },
            _ => Err(
                Diagnostic {
                    kind: DiagnosticKind::ExecutionFailure,
                    message: String::from_str("function does not match its scope"),
                    span,
                    file: None,
                },
            ),
        }
    }

    fn execute_node(&mut self, stmt: &TaskStatement, kind: FuncKind, span: Option<Span>) -> (r:
        Result<Option<AttrValue>, Diagnostic>)
        requires
            old(self).wf(),
            stmt@.scope == Scope::Node,
            span == Some(Span { line: stmt.line, col: stmt.col }),
            spec_lookup(old(self)@.registry, stmt@.scope, stmt@.name) matches Some(e) && e.kind
                == kind,
        ensures
            final(self).wf(),
            final(self)@ == spec_execute(old(self)@, stmt@).0,
            match r {
                Ok(Some(v)) => spec_execute(old(self)@, stmt@).1 == Ok::<Option<AttrValueV>, DiagV>(
                    Some(v@),
                ),
                Ok(None) => spec_execute(old(self)@, stmt@).1 == Ok::<Option<AttrValueV>, DiagV>(
                    None,
                ),
                Err(d) => spec_execute(old(self)@, stmt@).1 == Err::<Option<AttrValueV>, DiagV>(d@),
            },
    {
        let has_net = match &self.network {
            Some(_) => true,
            None => false,
        };
        if !has_net {
            return Err(
                Diagnostic {
                    kind: DiagnosticKind::MissingNetwork,
                    message: String::from_str("no network loaded"),
                    span,
                    file: None,
                },
            );
        }
        let node: String = match named_arg_exec(&stmt.args, "node") {
            None => {
                return Err(
                    Diagnostic {
                        kind: DiagnosticKind::ExecutionFailure,
                        message: String::from_str("missing node argument"),
                        span,
                        file: None,
                    },
                );
            },
            Some(v) => match v {
                ArgValue::Str(s) => s.clone(),
                _ => {
                    return Err(
                        Diagnostic {
                            kind: DiagnosticKind::ExecutionFailure,
                            message: String::from_str("node argument must be a string"),
                            span,
                            file: None,
                        },
                    );
                },
            },
        };
        let found = match &self.network {
            Some(net) => net.find_node(node.as_str()),
            None => None,
        };
        if matches!(found, None) {
            return Err(
                Diagnostic {
                    kind: DiagnosticKind::ExecutionFailure,
                    message: msg2("no such node: ", node.as_str()),
                    span,
                    file: None,
                },
            );
        }
        match kind {
            FuncKind::SetAttr => {
                let key: String = match named_arg_exec(&stmt.args, "key") {
                    None => {
                        return Err(
                            Diagnostic {
                                kind: DiagnosticKind::ExecutionFailure,
                                message: String::from_str("missing key argument"),
                                span,
                                file: None,
                            },
                        );
                    },
                    Some(v) => match v {
                        ArgValue::Str(s) => s.clone(),
                        _ => {
                            return Err(
                                Diagnostic {
                                    kind: DiagnosticKind::ExecutionFailure,
                                    message: String::from_str("key argument must be a string"),
                                    span,
                                    file: None,
                                },
                            );
                        },
                    },
                };
                let value: AttrValue = match named_arg_exec(&stmt.args, "value") {
                    None => {
                        return Err(
                            Diagnostic {
                                kind: DiagnosticKind::ExecutionFailure,
                                message: String::from_str("missing value argument"),
                                span,
                                file: None,
                            },
                        );
                    },
                    Some(v) => to_attr_exec(v),
                };
                // the node was found above, so the write cannot miss
                let _updated = match &mut self.network {
                    Some(net) => net.set_attr(node.as_str(), key.as_str(), value),
                    None => {
                        proof {
                            assert(false);
                        }
                        false
                    },
                };
                Ok(None)
            },
            FuncKind::GetAttr => {
                let key: String = match named_arg_exec(&stmt.args, "key") {
                    None => {
                        return Err(
                            Diagnostic {
                                kind: DiagnosticKind::ExecutionFailure,
                                message: String::from_str("missing key argument"),
                                span,
                                file: None,
                            },
                        );
                    },
                    Some(v) => match v {
                        ArgValue::Str(s) => s.clone(),
                        _ => {
                            return Err(
                                Diagnostic {
                                    kind: DiagnosticKind::ExecutionFailure,
                                    message: String::from_str("key argument must be a string"),
                                    span,
                                    file: None,
                                },
                            );
                        },
                    },
                };
                let got = match &self.network {
                    Some(net) => net.get_attr(node.as_str(), key.as_str()),
                    None => {
                        proof {
                            assert(false);
                        }
                        None
                    },
                };
                match got {
                    Some(v) => Ok(Some(v)),
                    None => Err(
                        Diagnostic {
                            kind: DiagnosticKind::ExecutionFailure,
                            message: msg2("no such attribute: ", key.as_str()),
                            span,
                            file: None,
                        },
                    ),
                }
            },
            _ => Err(
                Diagnostic {
                    kind: DiagnosticKind::ExecutionFailure,
                    message: String::from_str("function does not match its scope"),
                    span,
                    file: None,
                },
            ),
        }
    }

    /// Execute a whole statement sequence, in order, stopping at the
    /// first error: exactly `spec_execute_all`.  Outputs of successful
    /// statements are collected in order.
    #[verifier::loop_isolation(false)]
    pub fn execute_all(&mut self, stmts: &Vec<TaskStatement>) -> (r: Result<
        Vec<AttrValue>,
        Diagnostic,
    >)
        requires
            old(self).wf(),
        ensures
            final(self).wf(),
            final(self)@ == spec_execute_all(old(self)@, crate::ast::stmts_view(stmts@), 0).0,
            match r {
                Ok(outs) => spec_execute_all(old(self)@, crate::ast::stmts_view(stmts@), 0).1
                    == Ok::<Seq<AttrValueV>, DiagV>(outs@.map_values(|v: AttrValue| v@)),
                Err(d) => spec_execute_all(old(self)@, crate::ast::stmts_view(stmts@), 0).1
                    == Err::<Seq<AttrValueV>, DiagV>(d@),
            },
    {
        let ghost ssv = crate::ast::stmts_view(stmts@);
        let ghost c0 = self@;
        let n = stmts.len();
        let mut outs: Vec<AttrValue> = Vec::new();
        let mut i: usize = 0;
        while i < n
            invariant
                i <= n,
                n == stmts@.len(),
                ssv == crate::ast::stmts_view(stmts@),
                self.wf(),
                spec_execute_all(c0, ssv, 0) == (match spec_execute_all(self@, ssv, i as int) {
                    (cf, Ok(rest)) => (
                        cf,
                        Ok::<Seq<AttrValueV>, DiagV>(outs@.map_values(|v: AttrValue| v@) + rest),
                    ),
                    (cf, Err(d)) => (cf, Err(d)),
                }),
            decreases n - i,
        {
            let ghost cpre = self@;
            let ghost opre = outs@.map_values(|v: AttrValue| v@);
            proof {
                assert(ssv[i as int] == stmts@[i as int]@);
            }
            match self.execute(&stmts[i]) {
                Ok(Some(v)) => {
                    let ghost vv = v@;
                    outs.push(v);
                    proof {
                        assert(outs@.map_values(|v: AttrValue| v@) =~= opre + seq![vv]);
                        match spec_execute_all(self@, ssv, i as int + 1) {
                            (cf, Ok(rest)) => {
                                assert((opre + seq![vv]) + rest =~= opre + (seq![vv] + rest));
                            },
                            (cf, Err(_)) => {},
                        }
                    }
                },
                Ok(None) => {
                    proof {
                        let step = spec_execute(cpre, ssv[i as int]);
                        assert(step.0 == self@);
                        assert(step.1 == Ok::<Option<AttrValueV>, DiagV>(None));
                    }
                },
                Err(d) => {
                    proof {
                        let step = spec_execute(cpre, ssv[i as int]);
                        assert(step.0 == self@);
                        assert(step.1 == Err::<Option<AttrValueV>, DiagV>(d@));
                        assert(spec_execute_all(cpre, ssv, i as int) == (
                            self@,
                            Err::<Seq<AttrValueV>, DiagV>(d@),
                        ));
                    }
                    return Err(d);
                },
            }
            i = i + 1;
        }
        proof {
            match spec_execute_all(self@, ssv, n as int) {
                (cf, Ok(rest)) => {
                    assert(outs@.map_values(|v: AttrValue| v@) + rest =~= outs@.map_values(
                        |v: AttrValue| v@,
                    ));
                },
                (cf, Err(_)) => {},
            }
        }
        Ok(outs)
    }
}

} // verus!
