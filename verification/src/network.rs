//! Network model: a directed graph of named nodes, each with keyed
//! attributes, and edges between node indices.
//!
//! A well-formed network has pairwise distinct node names and only
//! in-range edges; each node's attribute keys are pairwise distinct.

use vstd::prelude::*;

verus! {

/// An attribute value of a node.
#[derive(Debug, PartialEq)]
pub enum AttrValue {
    Str(String),
    Int(i64),
    Bool(bool),
}

/// The mathematical model of an attribute value.
pub enum AttrValueV {
    Str(Seq<char>),
    Int(int),
    Bool(bool),
}

impl View for AttrValue {
    type V = AttrValueV;

    open spec fn view(&self) -> AttrValueV {
        match self {
            AttrValue::Str(s) => AttrValueV::Str(s@),
            AttrValue::Int(n) => AttrValueV::Int(*n as int),
            AttrValue::Bool(b) => AttrValueV::Bool(*b),
        }
    }
}

/// A fresh copy of an attribute value.
pub fn attr_value_copy(v: &AttrValue) -> (r: AttrValue)
    ensures
        r@ == v@,
{
    match v {
        AttrValue::Str(s) => AttrValue::Str(s.clone()),
        AttrValue::Int(n) => AttrValue::Int(*n),
        AttrValue::Bool(b) => AttrValue::Bool(*b),
    }
}

/// One node: a unique name and its keyed attributes.
#[derive(Debug, PartialEq)]
pub struct NodeData {
    pub name: String,
    pub attrs: Vec<(String, AttrValue)>,
}

/// The mathematical model of a node.
pub struct NodeV {
    pub name: Seq<char>,
    pub attrs: Seq<(Seq<char>, AttrValueV)>,
}

impl View for NodeData {
    type V = NodeV;

    open spec fn view(&self) -> NodeV {
        NodeV {
            name: self.name@,
            attrs: self.attrs@.map_values(|p: (String, AttrValue)| (p.0@, p.1@)),
        }
    }
}

/// The directed graph scripts operate on.
#[derive(Debug, PartialEq)]
pub struct Network {
    pub nodes: Vec<NodeData>,
    pub edges: Vec<(usize, usize)>,
}

/// The mathematical model of a network.
pub struct NetV {
    pub nodes: Seq<NodeV>,
    pub edges: Seq<(int, int)>,
}

impl View for Network {
    type V = NetV;

    open spec fn view(&self) -> NetV {
        NetV {
            nodes: self.nodes@.map_values(|n: NodeData| n@),
            edges: self.edges@.map_values(|e: (usize, usize)| (e.0 as int, e.1 as int)),
        }
    }
}

// ---------------------------------------------------------------------
// First-match lookups
// ---------------------------------------------------------------------

/// Index of the first attribute with the given key, or the length if
/// there is none.
pub open spec fn first_key(attrs: Seq<(Seq<char>, AttrValueV)>, key: Seq<char>) -> int
    decreases attrs.len(),
{
    if attrs.len() == 0 {
        0
    } else if attrs[0].0 == key {
        0
    } else {
        1 + first_key(attrs.drop_first(), key)
    }
}

pub proof fn lemma_first_key(attrs: Seq<(Seq<char>, AttrValueV)>, key: Seq<char>)
    ensures
        0 <= first_key(attrs, key) <= attrs.len(),
        first_key(attrs, key) < attrs.len() ==> attrs[first_key(attrs, key)].0 == key,
        forall|m: int| 0 <= m < first_key(attrs, key) ==> (#[trigger] attrs[m]).0 != key,
    decreases attrs.len(),
{
    if attrs.len() > 0 && attrs[0].0 != key {
        lemma_first_key(attrs.drop_first(), key);
        assert(forall|m: int|
            1 <= m < attrs.len() ==> #[trigger] attrs[m] == attrs.drop_first()[m - 1]);
    }
}

/// The value of the first attribute with the given key, if any.
pub open spec fn attr_find(attrs: Seq<(Seq<char>, AttrValueV)>, key: Seq<char>) -> Option<
    AttrValueV,
> {
    if first_key(attrs, key) < attrs.len() {
        Some(attrs[first_key(attrs, key)].1)
    } else {
        None
    }
}

/// The attribute list after setting a key: the first entry with that
/// key replaced, or a new entry appended.
pub open spec fn attr_set(
    attrs: Seq<(Seq<char>, AttrValueV)>,
    key: Seq<char>,
    value: AttrValueV,
) -> Seq<(Seq<char>, AttrValueV)> {
    if first_key(attrs, key) < attrs.len() {
        attrs.update(first_key(attrs, key), (key, value))
    } else {
        attrs.push((key, value))
    }
}

/// Index of the first node with the given name, or the length if
/// there is none.
pub open spec fn first_node(nodes: Seq<NodeV>, name: Seq<char>) -> int
    decreases nodes.len(),
{
    if nodes.len() == 0 {
        0
    } else if nodes[0].name == name {
        0
    } else {
        1 + first_node(nodes.drop_first(), name)
    }
}

pub proof fn lemma_first_node(nodes: Seq<NodeV>, name: Seq<char>)
    ensures
        0 <= first_node(nodes, name) <= nodes.len(),
        first_node(nodes, name) < nodes.len() ==> nodes[first_node(nodes, name)].name == name,
        forall|m: int| 0 <= m < first_node(nodes, name) ==> (#[trigger] nodes[m]).name != name,
    decreases nodes.len(),
{
    if nodes.len() > 0 && nodes[0].name != name {
        lemma_first_node(nodes.drop_first(), name);
        assert(forall|m: int|
            1 <= m < nodes.len() ==> #[trigger] nodes[m] == nodes.drop_first()[m - 1]);
    }
}

// ---------------------------------------------------------------------
// Well-formedness
// ---------------------------------------------------------------------

impl NodeV {
    /// Attribute keys are pairwise distinct.
    pub open spec fn wf(self) -> bool {
        forall|k1: int, k2: int|
            0 <= k1 < k2 < self.attrs.len() ==> (#[trigger] self.attrs[k1]).0 != (
            #[trigger] self.attrs[k2]).0
    }
}

impl NetV {
    /// Node names are pairwise distinct, every node is well formed,
    /// and every edge joins two in-range node indices.
    pub open spec fn wf(self) -> bool {
        &&& forall|k1: int, k2: int|
            0 <= k1 < k2 < self.nodes.len() ==> (#[trigger] self.nodes[k1]).name != (
            #[trigger] self.nodes[k2]).name
        &&& forall|k: int| 0 <= k < self.nodes.len() ==> (#[trigger] self.nodes[k]).wf()
        &&& forall|k: int|
            0 <= k < self.edges.len() ==> 0 <= (#[trigger] self.edges[k]).0 < self.nodes.len()
                && 0 <= self.edges[k].1 < self.nodes.len()
    }
}

// ---------------------------------------------------------------------
// Executable operations
// ---------------------------------------------------------------------

fn find_attr_index(attrs: &Vec<(String, AttrValue)>, key: &str) -> (r: usize)
    ensures
        r as int == first_key(attrs@.map_values(|p: (String, AttrValue)| (p.0@, p.1@)), key@),
{
    let ghost av = attrs@.map_values(|p: (String, AttrValue)| (p.0@, p.1@));
    let n = attrs.len();
    let mut k: usize = 0;
    while k < n
        invariant
            k <= n,
            n == attrs@.len(),
            av == attrs@.map_values(|p: (String, AttrValue)| (p.0@, p.1@)),
            forall|m: int| 0 <= m < k ==> (#[trigger] av[m]).0 != key@,
        decreases n - k,
    {
        proof {
            assert(av[k as int] == (attrs@[k as int].0@, attrs@[k as int].1@));
        }
        if crate::parser::str_eq(attrs[k].0.as_str(), key) {
            proof {
                lemma_first_key(av, key@);
                assert(first_key(av, key@) <= k as int);
                if first_key(av, key@) < k as int {
                    assert(av[first_key(av, key@)].0 == key@);
                }
            }
            return k;
        }
        k = k + 1;
    }
    proof {
        lemma_first_key(av, key@);
        if first_key(av, key@) < av.len() {
            assert(av[first_key(av, key@)].0 == key@);
        }
    }
    n
}

impl Network {
    /// An empty network: no nodes, no edges.
    pub fn new() -> (r: Network)
        ensures
            r@.nodes =~= Seq::<NodeV>::empty(),
            r@.edges =~= Seq::<(int, int)>::empty(),
            r@.wf(),
    {
        Network { nodes: Vec::new(), edges: Vec::new() }
    }

    /// Index of the node with the given name, if any.
    pub fn find_node(&self, name: &str) -> (r: Option<usize>)
        ensures
            match r {
                Some(k) => k as int == first_node(self@.nodes, name@) && (k as int)
                    < self@.nodes.len() && self@.nodes[k as int].name == name@,
                None => first_node(self@.nodes, name@) == self@.nodes.len(),
            },
    {
        let ghost nv = self@.nodes;
        let n = self.nodes.len();
        let mut k: usize = 0;
        while k < n
            invariant
                k <= n,
                n == self.nodes@.len(),
                nv == self@.nodes,
                forall|m: int| 0 <= m < k ==> (#[trigger] nv[m]).name != name@,
            decreases n - k,
        {
            proof {
                assert(nv[k as int] == self.nodes@[k as int]@);
            }
            if crate::parser::str_eq(self.nodes[k].name.as_str(), name) {
                proof {
                    lemma_first_node(nv, name@);
                    if first_node(nv, name@) < k as int {
                        assert(nv[first_node(nv, name@)].name == name@);
                    }
                    assert(first_node(nv, name@) == k as int);
                }
                return Some(k);
            }
            k = k + 1;
        }
        proof {
            lemma_first_node(nv, name@);
            if first_node(nv, name@) < nv.len() {
                assert(nv[first_node(nv, name@)].name == name@);
            }
        }
        None
    }

    /// The number of nodes.
    pub fn node_count(&self) -> (r: usize)
        ensures
            r as int == self@.nodes.len(),
    {
        self.nodes.len()
    }

    /// Add a node with no attributes; rejected (and nothing changes)
    /// exactly when the name is already taken.
    pub fn add_node(&mut self, name: String) -> (r: bool)
        requires
            old(self)@.wf(),
        ensures
            final(self)@.wf(),
            r == (first_node(old(self)@.nodes, name@) == old(self)@.nodes.len()),
            if r {
                final(self)@.nodes =~= old(self)@.nodes + seq![
                    NodeV { name: name@, attrs: Seq::empty() },
                ]
            } else {
                final(self)@.nodes =~= old(self)@.nodes
            },
            final(self)@.edges =~= old(self)@.edges,
    {
        let dup = match self.find_node(name.as_str()) {
            Some(_) => true,
            None => false,
        };
        if dup {
            proof {
                lemma_first_node(self@.nodes, name@);
            }
            false
        } else {
            let ghost oldn = self@.nodes;
            let ghost namev = name@;
            let nd = NodeData { name, attrs: Vec::new() };
            proof {
                assert(nd@.attrs =~= Seq::<(Seq<char>, AttrValueV)>::empty());
                assert(nd@ == NodeV { name: namev, attrs: Seq::<(Seq<char>, AttrValueV)>::empty() });
            }
            self.nodes.push(nd);
            proof {
                assert(self@.nodes =~= oldn + seq![NodeV { name: namev, attrs: Seq::empty() }]);
                lemma_first_node(oldn, namev);
                assert(forall|m: int| 0 <= m < oldn.len() ==> (#[trigger] oldn[m]).name != namev);
                assert(self@.edges =~= old(self)@.edges);
            }
            true
        }
    }

    /// Add a directed edge between two named nodes; rejected (and
    /// nothing changes) exactly when either name is unknown.
    pub fn add_edge(&mut self, from: &str, to: &str) -> (r: bool)
        requires
            old(self)@.wf(),
        ensures
            final(self)@.wf(),
            r == (first_node(old(self)@.nodes, from@) < old(self)@.nodes.len() && first_node(
                old(self)@.nodes,
                to@,
            ) < old(self)@.nodes.len()),
            final(self)@.nodes =~= old(self)@.nodes,
            if r {
                final(self)@.edges =~= old(self)@.edges + seq![
                    (first_node(old(self)@.nodes, from@), first_node(old(self)@.nodes, to@)),
                ]
            } else {
                final(self)@.edges =~= old(self)@.edges
            },
    {
        let fi = self.find_node(from);
        let ti = self.find_node(to);
        match (fi, ti) {
            (Some(a), Some(b)) => {
                let ghost olde = self@.edges;
                self.edges.push((a, b));
                proof {
                    assert(self@.edges =~= olde + seq![(a as int, b as int)]);
                    assert(self@.nodes =~= old(self)@.nodes);
                }
                true
            },
            _ => {
                proof {
                    lemma_first_node(self@.nodes, from@);
                    lemma_first_node(self@.nodes, to@);
                }
                false
            },
        }
    }

    /// Set one attribute of the named node; rejected (and nothing
    /// changes) exactly when the name is unknown.
    pub fn set_attr(&mut self, node: &str, key: &str, value: AttrValue) -> (r: bool)
        requires
            old(self)@.wf(),
        ensures
            final(self)@.wf(),
            r == (first_node(old(self)@.nodes, node@) < old(self)@.nodes.len()),
            final(self)@.edges =~= old(self)@.edges,
            if r {
                final(self)@.nodes =~= old(self)@.nodes.update(
                    first_node(old(self)@.nodes, node@),
                    NodeV {
                        name: old(self)@.nodes[first_node(old(self)@.nodes, node@)].name,
                        attrs: attr_set(
                            old(self)@.nodes[first_node(old(self)@.nodes, node@)].attrs,
                            key@,
                            value@,
                        ),
                    },
                )
            } else {
                final(self)@.nodes =~= old(self)@.nodes
            },
    {
        let idx = match self.find_node(node) {
            Some(k) => k,
            None => {
                proof {
                    lemma_first_node(self@.nodes, node@);
                }
                return false;
            },
        };
        let ghost oldn = self@.nodes;
        let ghost oldattrs = oldn[idx as int].attrs;
        let ghost keyv = key@;
        let ghost valv = value@;
        // take the node out, rework its attributes, put it back
        let mut nd = self.nodes.remove(idx);
        let ai = find_attr_index(&nd.attrs, key);
        let ghost av = nd.attrs@.map_values(|p: (String, AttrValue)| (p.0@, p.1@));
        proof {
            lemma_first_key(av, keyv);
        }
        if ai < nd.attrs.len() {
            let ghost oldav = nd.attrs@;
            nd.attrs.set(ai, (String::from_str(key), value));
            proof {
                assert(nd.attrs@.map_values(|p: (String, AttrValue)| (p.0@, p.1@)) =~= attr_set(
                    av,
                    keyv,
                    valv,
                ));
            }
        } else {
            nd.attrs.push((String::from_str(key), value));
            proof {
                assert(nd.attrs@.map_values(|p: (String, AttrValue)| (p.0@, p.1@)) =~= attr_set(
                    av,
                    keyv,
                    valv,
                ));
            }
        }
        self.nodes.insert(idx, nd);
        proof {
            let newnode = NodeV { name: oldn[idx as int].name, attrs: attr_set(oldattrs, keyv, valv) };
            assert(self@.nodes =~= oldn.update(idx as int, newnode));
            assert(self@.edges =~= old(self)@.edges);
            // distinct names and in-range edges are untouched; the
            // reworked attribute list keeps keys distinct
            assert forall|k1: int, k2: int|
                0 <= k1 < k2 < self@.nodes.len() implies (#[trigger] self@.nodes[k1]).name != (
            #[trigger] self@.nodes[k2]).name by {
                assert(self@.nodes[k1].name == oldn[k1].name);
                assert(self@.nodes[k2].name == oldn[k2].name);
            }
            assert forall|k: int| 0 <= k < self@.nodes.len() implies (
            #[trigger] self@.nodes[k]).wf() by {
                if k == idx as int {
                    lemma_first_key(oldattrs, keyv);
                    assert(newnode.wf());
                } else {
                    assert(self@.nodes[k] == oldn[k]);
                }
            }
        }
        true
    }

    /// Read one attribute of the named node: `None` when the node or
    /// the key is unknown.
    pub fn get_attr(&self, node: &str, key: &str) -> (r: Option<AttrValue>)
        ensures
            match r {
                Some(v) => first_node(self@.nodes, node@) < self@.nodes.len() && attr_find(
                    self@.nodes[first_node(self@.nodes, node@)].attrs,
                    key@,
                ) == Some(v@),
                None => first_node(self@.nodes, node@) == self@.nodes.len() || attr_find(
                    self@.nodes[first_node(self@.nodes, node@)].attrs,
                    key@,
                ) is None,
            },
    {
        let idx = match self.find_node(node) {
            Some(k) => k,
            None => {
                return None;
            },
        };
        let nd = &self.nodes[idx];
        let ai = find_attr_index(&nd.attrs, key);
        let ghost av = nd.attrs@.map_values(|p: (String, AttrValue)| (p.0@, p.1@));
        proof {
            lemma_first_key(av, key@);
            assert(self@.nodes[idx as int] == self.nodes@[idx as int]@);
        }
        if ai < nd.attrs.len() {
            proof {
                assert(av[ai as int] == (nd.attrs@[ai as int].0@, nd.attrs@[ai as int].1@));
            }
            Some(attr_value_copy(&nd.attrs[ai].1))
        } else {
            None
        }
    }
}

} // verus!
