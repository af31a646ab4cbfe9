//! Function registry: a catalog of named functions, each tagged with a
//! scope, carrying help text and source text, and identifying one of
//! the built-in behaviours the execution context can dispatch to.
//!
//! Node-scope and network-scope names are independent namespaces.  The
//! registry is built once and read-only during execution; its listing
//! is a function of its contents alone, so it is deterministic.

use vstd::prelude::*;
use crate::ast::Scope;

verus! {

/// The built-in behaviour an entry dispatches to.
#[derive(Clone, Copy, Debug, PartialEq, Eq, Structural)]
pub enum FuncKind {
    /// Network scope: install the named network source as the current
    /// network.
    LoadNetwork,
    /// Network scope: the number of nodes of the current network.
    NodeCount,
    /// Node scope: set one attribute of one node.
    SetAttr,
    /// Node scope: read one attribute of one node.
    GetAttr,
}

/// One registered function.
#[derive(Debug, PartialEq)]
pub struct FunctionEntry {
    pub name: String,
    pub scope: Scope,
    pub help: String,
    pub code: String,
    pub kind: FuncKind,
}

/// The mathematical model of a registry entry.
pub struct EntryV {
    pub name: Seq<char>,
    pub scope: Scope,
    pub help: Seq<char>,
    pub code: Seq<char>,
    pub kind: FuncKind,
}

impl View for FunctionEntry {
    type V = EntryV;

    open spec fn view(&self) -> EntryV {
        EntryV {
            name: self.name@,
            scope: self.scope,
            help: self.help@,
            code: self.code@,
            kind: self.kind,
        }
    }
}

pub open spec fn entries_view(es: Seq<FunctionEntry>) -> Seq<EntryV> {
    es.map_values(|e: FunctionEntry| e@)
}

/// The first entry of the given scope and name, if any.
pub open spec fn spec_lookup(es: Seq<EntryV>, scope: Scope, name: Seq<char>) -> Option<EntryV>
    decreases es.len(),
{
    if es.len() == 0 {
        None
    } else if es[0].scope == scope && es[0].name == name {
        Some(es[0])
    } else {
        spec_lookup(es.drop_first(), scope, name)
    }
}

/// A lookup misses exactly when no entry matches.
pub proof fn lemma_lookup_none(es: Seq<EntryV>, scope: Scope, name: Seq<char>)
    ensures
        spec_lookup(es, scope, name) is None <==> forall|k: int|
            0 <= k < es.len() ==> !((#[trigger] es[k]).scope == scope && es[k].name == name),
    decreases es.len(),
{
    if es.len() > 0 {
        lemma_lookup_none(es.drop_first(), scope, name);
        assert(forall|k: int|
            1 <= k < es.len() ==> #[trigger] es[k] == es.drop_first()[k - 1]);
    }
}

/// Scope-agnostic introspection searches the node namespace first.
pub open spec fn spec_help(es: Seq<EntryV>, name: Seq<char>) -> Option<Seq<char>> {
    match spec_lookup(es, Scope::Node, name) {
        Some(e) => Some(e.help),
        None => match spec_lookup(es, Scope::Network, name) {
            Some(e) => Some(e.help),
            None => None,
        },
    }
}

pub open spec fn spec_code(es: Seq<EntryV>, name: Seq<char>) -> Option<Seq<char>> {
    match spec_lookup(es, Scope::Node, name) {
        Some(e) => Some(e.code),
        None => match spec_lookup(es, Scope::Network, name) {
            Some(e) => Some(e.code),
            None => None,
        },
    }
}

/// The entries of one scope, in registration order.
pub open spec fn spec_scope_entries(es: Seq<EntryV>, scope: Scope) -> Seq<EntryV>
    decreases es.len(),
{
    if es.len() == 0 {
        Seq::<EntryV>::empty()
    } else if es.last().scope == scope {
        spec_scope_entries(es.drop_last(), scope) + seq![es.last()]
    } else {
        spec_scope_entries(es.drop_last(), scope)
    }
}

/// The listing: all entries grouped by scope, node functions first,
/// each group in registration order.
pub open spec fn spec_list(es: Seq<EntryV>) -> Seq<EntryV> {
    spec_scope_entries(es, Scope::Node) + spec_scope_entries(es, Scope::Network)
}

/// The catalog of named functions.
#[derive(Debug, PartialEq)]
pub struct Registry {
    entries: Vec<FunctionEntry>,
}

impl View for Registry {
    type V = Seq<EntryV>;

    closed spec fn view(&self) -> Seq<EntryV> {
        entries_view(self.entries@)
    }
}

/// A fresh copy of an entry (`String::clone` keeps the characters).
fn entry_copy(e: &FunctionEntry) -> (r: FunctionEntry)
    ensures
        r@ == e@,
{
    FunctionEntry {
        name: e.name.clone(),
        scope: e.scope,
        help: e.help.clone(),
        code: e.code.clone(),
        kind: e.kind,
    }
}

/// No two entries share a scope and a name.
pub open spec fn registry_wf(es: Seq<EntryV>) -> bool {
    forall|k1: int, k2: int|
        0 <= k1 < k2 < es.len() ==> !((#[trigger] es[k1]).scope == (#[trigger] es[k2]).scope
            && es[k1].name == es[k2].name)
}

impl Registry {
    /// No two entries share a scope and a name.
    pub open spec fn wf(self) -> bool {
        registry_wf(self@)
    }

    /// An empty registry.
    pub fn new() -> (r: Registry)
        ensures
            r@ =~= Seq::<EntryV>::empty(),
            r.wf(),
    {
        Registry { entries: Vec::new() }
    }

    /// Add an entry; rejected (and nothing changes) exactly when an
    /// entry of the same scope and name is already present.
    pub fn register(&mut self, e: FunctionEntry) -> (r: bool)
        requires
            old(self).wf(),
        ensures
            final(self).wf(),
            r == (spec_lookup(old(self)@, e.scope, e.name@) is None),
            if r {
                final(self)@ =~= old(self)@ + seq![e@]
            } else {
                final(self)@ =~= old(self)@
            },
    {
        let dup = {
            let found = self.lookup(e.scope, e.name.as_str());
            match found {
                Some(_) => true,
                None => false,
            }
        };
        if dup {
            false
        } else {
            let ghost oldv = self@;
            let ghost ev = e@;
            proof {
                lemma_lookup_none(oldv, ev.scope, ev.name);
            }
            self.entries.push(e);
            proof {
                assert(self@ =~= oldv + seq![ev]);
                assert(forall|k: int| 0 <= k < oldv.len() ==> self@[k] == oldv[k]);
            }
            true
        }
    }

    /// The entry registered under the given scope and name, if any.
    pub fn lookup(&self, scope: Scope, name: &str) -> (r: Option<&FunctionEntry>)
        ensures
            match r {
                Some(e) => spec_lookup(self@, scope, name@) == Some(e@),
                None => spec_lookup(self@, scope, name@) is None,
            },
    {
        let ghost es = self@;
        proof {
            assert(es.skip(0) =~= es);
        }
        let n = self.entries.len();
        let mut k: usize = 0;
        while k < n
            invariant
                k <= n,
                n == self.entries@.len(),
                es == self@,
                spec_lookup(es, scope, name@) == spec_lookup(es.skip(k as int), scope, name@),
            decreases n - k,
        {
            proof {
                assert(es.skip(k as int)[0] == es[k as int]);
                assert(es[k as int] == self.entries@[k as int]@);
                assert(es.skip(k as int).drop_first() =~= es.skip(k as int + 1));
            }
            let e = &self.entries[k];
            if e.scope == scope && crate::parser::str_eq(e.name.as_str(), name) {
                return Some(e);
            }
            k = k + 1;
        }
        proof {
            assert(es.skip(n as int) =~= Seq::<EntryV>::empty());
        }
        None
    }

    /// Help text for a name, searching both namespaces; `None` (not an
    /// error) for an unknown name.
    pub fn help(&self, name: &str) -> (r: Option<String>)
        ensures
            match r {
                Some(h) => spec_help(self@, name@) == Some(h@),
                None => spec_help(self@, name@) is None,
            },
    {
        match self.lookup(Scope::Node, name) {
            Some(e) => Some(e.help.clone()),
            None => match self.lookup(Scope::Network, name) {
                Some(e) => Some(e.help.clone()),
                None => None,
            },
        }
    }

    /// Source text for a name, searching both namespaces.
    pub fn code(&self, name: &str) -> (r: Option<String>)
        ensures
            match r {
                Some(c) => spec_code(self@, name@) == Some(c@),
                None => spec_code(self@, name@) is None,
            },
    {
        match self.lookup(Scope::Node, name) {
            Some(e) => Some(e.code.clone()),
            None => match self.lookup(Scope::Network, name) {
                Some(e) => Some(e.code.clone()),
                None => None,
            },
        }
    }

    /// The listing of all entries grouped by scope, node functions
    /// first, each group in registration order.
    pub fn list(&self) -> (r: Vec<FunctionEntry>)
        ensures
            entries_view(r@) =~= spec_list(self@),
    {
        let ghost es = self@;
        let n = self.entries.len();
        let mut out: Vec<FunctionEntry> = Vec::new();
        let mut k: usize = 0;
        while k < n
            invariant
                k <= n,
                n == self.entries@.len(),
                es == self@,
                entries_view(out@) =~= spec_scope_entries(es.subrange(0, k as int), Scope::Node),
            decreases n - k,
        {
            let ghost pre = es.subrange(0, k as int);
            let ghost pre1 = es.subrange(0, k as int + 1);
            proof {
                assert(pre1.drop_last() =~= pre);
                assert(pre1.last() == es[k as int]);
                assert(es[k as int] == self.entries@[k as int]@);
            }
            let e = &self.entries[k];
            if e.scope == Scope::Node {
                let ghost outv = entries_view(out@);
                out.push(entry_copy(e));
                proof {
                    assert(entries_view(out@) =~= outv + seq![es[k as int]]);
                }
            }
            k = k + 1;
        }
        proof {
            assert(es.subrange(0, n as int) =~= es);
            assert(entries_view(out@) + spec_scope_entries(es.subrange(0, 0), Scope::Network)
                =~= entries_view(out@));
        }
        let mut k2: usize = 0;
        while k2 < n
            invariant
                k2 <= n,
                n == self.entries@.len(),
                es == self@,
                entries_view(out@) =~= spec_scope_entries(es, Scope::Node) + spec_scope_entries(
                    es.subrange(0, k2 as int),
                    Scope::Network,
                ),
            decreases n - k2,
        {
            let ghost pre = es.subrange(0, k2 as int);
            let ghost pre1 = es.subrange(0, k2 as int + 1);
            proof {
                assert(pre1.drop_last() =~= pre);
                assert(pre1.last() == es[k2 as int]);
                assert(es[k2 as int] == self.entries@[k2 as int]@);
            }
            let e = &self.entries[k2];
            if e.scope == Scope::Network {
                let ghost outv = entries_view(out@);
                out.push(entry_copy(e));
                proof {
                    assert(entries_view(out@) =~= outv + seq![es[k2 as int]]);
                }
            }
            k2 = k2 + 1;
        }
        proof {
            assert(es.subrange(0, n as int) =~= es);
        }
        out
    }

    /// The built-in catalog: `load_network` and `node_count` in the
    /// network namespace, `set_attr` and `get_attr` in the node
    /// namespace.
    pub fn standard() -> (r: Registry)
        ensures
            r@ =~= standard_entries(),
            r.wf(),
    {
        let mut entries: Vec<FunctionEntry> = Vec::new();
        entries.push(FunctionEntry {
            name: String::from_str("load_network"),
            scope: Scope::Network,
            help: String::from_str("load a network from a named source"),
            code: String::from_str("load_network(path)"),
            kind: FuncKind::LoadNetwork,
        });
        entries.push(FunctionEntry {
            name: String::from_str("node_count"),
            scope: Scope::Network,
            help: String::from_str("number of nodes of the current network"),
            code: String::from_str("node_count()"),
            kind: FuncKind::NodeCount,
        });
        entries.push(FunctionEntry {
            name: String::from_str("set_attr"),
            scope: Scope::Node,
            help: String::from_str("set one attribute of one node"),
            code: String::from_str("set_attr(node, key, value)"),
            kind: FuncKind::SetAttr,
        });
        entries.push(FunctionEntry {
            name: String::from_str("get_attr"),
            scope: Scope::Node,
            help: String::from_str("read one attribute of one node"),
            code: String::from_str("get_attr(node, key)"),
            kind: FuncKind::GetAttr,
        });
        let r = Registry { entries };
        proof {
            assert(r@ =~= standard_entries());
            reveal_strlit("load_network");
            reveal_strlit("node_count");
            reveal_strlit("set_attr");
            reveal_strlit("get_attr");
            assert(("load_network"@).len() != ("node_count"@).len());
            assert(("set_attr"@)[0] != ("get_attr"@)[0]);
            assert(r.wf());
        }
        r
    }
}

/// The contents of the built-in catalog.
pub open spec fn standard_entries() -> Seq<EntryV> {
    seq![
        EntryV {
            name: "load_network"@,
            scope: Scope::Network,
            help: "load a network from a named source"@,
            code: "load_network(path)"@,
            kind: FuncKind::LoadNetwork,
        },
        EntryV {
            name: "node_count"@,
            scope: Scope::Network,
            help: "number of nodes of the current network"@,
            code: "node_count()"@,
            kind: FuncKind::NodeCount,
        },
        EntryV {
            name: "set_attr"@,
            scope: Scope::Node,
            help: "set one attribute of one node"@,
            code: "set_attr(node, key, value)"@,
            kind: FuncKind::SetAttr,
        },
        EntryV {
            name: "get_attr"@,
            scope: Scope::Node,
            help: "read one attribute of one node"@,
            code: "get_attr(node, key)"@,
            kind: FuncKind::GetAttr,
        },
    ]
}

/// Listing the registry is deterministic: two listings of the same
/// contents are the same sequence.
pub proof fn lemma_list_deterministic(es: Seq<EntryV>, r1: Seq<EntryV>, r2: Seq<EntryV>)
    requires
        r1 == spec_list(es),
        r2 == spec_list(es),
    ensures
        r1 == r2,
{
}

} // verus!
