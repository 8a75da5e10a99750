//! The KV-backed node store. Nodes of the persistent B-tree are stored
//! under opaque keys that never change meaning; the one mutable spot is the
//! small root-pointer blob (`DbContents`) naming the current index roots,
//! the ident map and the next entity id. This in-memory backend keeps
//! everything in process memory and is lost on restart.

use vstd::prelude::*;

use crate::ident::IdentMap;
use crate::order::{RecV, Record, recs_view};

verus! {

/// A node of the persistent B-tree: a leaf holds records in sorted order,
/// an internal node holds child references and separator keys.
#[derive(Debug)]
pub enum Node {
    Leaf { records: Vec<Record> },
    Internal { keys: Vec<Record>, children: Vec<u64> },
}

/// The mathematical model of a node: record views and child keys.
#[verifier::ext_equal]
pub enum NodeV {
    Leaf { records: Seq<RecV> },
    Internal { keys: Seq<RecV>, children: Seq<nat> },
}

impl View for Node {
    type V = NodeV;

    open spec fn view(&self) -> NodeV {
        match self {
            Node::Leaf { records } => NodeV::Leaf { records: recs_view(records@) },
            Node::Internal { keys, children } => NodeV::Internal {
                keys: recs_view(keys@),
                children: children@.map_values(|c: u64| c as nat),
            },
        }
    }
}

/// The persistence root: the only mutable blob in the store. Everything
/// else is content-addressed and immutable. An absent index root denotes a
/// fresh empty tree.
#[derive(Debug)]
pub struct DbContents {
    pub next_id: u64,
    pub idents: IdentMap,
    pub eav: Option<u64>,
    pub ave: Option<u64>,
    pub aev: Option<u64>,
}

impl Clone for DbContents {
    fn clone(&self) -> (r: DbContents)
        ensures
            r.next_id == self.next_id,
            r.idents.iview() == self.idents.iview(),
            r.eav == self.eav,
            r.ave == self.ave,
            r.aev == self.aev,
    {
        DbContents {
            next_id: self.next_id,
            idents: self.idents.clone(),
            eav: self.eav,
            ave: self.ave,
            aev: self.aev,
        }
    }
}

/// The in-memory KV backend: an append-only sequence of immutable nodes,
/// addressed by the key handed out when they were added, plus the root
/// contents blob.
#[derive(Debug)]
pub struct HeapStore {
    nodes: Vec<Node>,
    contents: DbContents,
}

impl HeapStore {
    /// The nodes added so far; a key addresses its position.
    pub closed spec fn nodes(&self) -> Seq<NodeV> {
        self.nodes@.map_values(|n: Node| n@)
    }

    /// The currently committed root contents.
    pub closed spec fn spec_contents(&self) -> DbContents {
        self.contents
    }

    /// A fresh store: no nodes, zero-initialized contents.
    pub fn new() -> (r: HeapStore)
        ensures
            r.nodes() == Seq::<NodeV>::empty(),
            r.spec_contents().next_id == 0,
            r.spec_contents().eav is None,
            r.spec_contents().ave is None,
            r.spec_contents().aev is None,
            r.spec_contents().idents.wf(),
            forall|n: Seq<char>| r.spec_contents().idents.spec_entity(n) == Option::None::<int>,
    {
        let r = HeapStore {
            nodes: Vec::new(),
            contents: DbContents {
                next_id: 0,
                idents: IdentMap::new(),
                eav: Option::None,
                ave: Option::None,
                aev: Option::None,
            },
        };
        proof {
            assert(r.nodes() =~= Seq::<NodeV>::empty());
        }
        r
    }

    /// Store a node permanently; the returned key uniquely addresses it.
    pub fn add(&mut self, node: Node) -> (key: u64)
        ensures
            final(self).nodes() == old(self).nodes().push(node@),
            key as int == old(self).nodes().len(),
            final(self).spec_contents() == old(self).spec_contents(),
    {
        let key = self.nodes.len() as u64;
        let ghost nv = node@;
        self.nodes.push(node);
        proof {
            assert(self.nodes() =~= old(self).nodes().push(nv));
        }
        key
    }

    /// Read the node a key addresses.
    pub fn get(&self, key: u64) -> (n: &Node)
        requires
            (key as int) < self.nodes().len(),
        ensures
            n@ == self.nodes()[key as int],
    {
        let count = self.nodes.len();
        proof {
            assert(self.nodes@.len() == self.nodes().len());
            assert((key as int) < (count as int));
        }
        &self.nodes[key as usize]
    }

    /// The currently committed root contents.
    pub fn get_contents(&self) -> (c: DbContents)
        ensures
            c.next_id == self.spec_contents().next_id,
            c.idents.iview() == self.spec_contents().idents.iview(),
            c.eav == self.spec_contents().eav,
            c.ave == self.spec_contents().ave,
            c.aev == self.spec_contents().aev,
    {
        self.contents.clone()
    }

    /// Atomically replace the root contents.
    pub fn set_contents(&mut self, contents: DbContents)
        ensures
            final(self).nodes() == old(self).nodes(),
            final(self).spec_contents() == contents,
    {
        self.contents = contents;
    }
}

impl Clone for Node {
    fn clone(&self) -> (r: Node)
        ensures
            r@ == self@,
    {
        let r = match self {
            Node::Leaf { records } => Node::Leaf { records: clone_records(records) },
            Node::Internal { keys, children } => Node::Internal {
                keys: clone_records(keys),
                children: clone_refs(children),
            },
        };
        proof {
            match (self, &r) {
                (Node::Leaf { records: a }, Node::Leaf { records: b }) => {
                    assert(recs_view(b@) =~= recs_view(a@));
                    assert(r@ =~= self@);
                },
                (
                    Node::Internal { keys: a, children: ca },
                    Node::Internal { keys: b, children: cb },
                ) => {
                    assert(recs_view(b@) =~= recs_view(a@));
                    assert(r@ =~= self@);
                },
                _ => {},
            }
        }
        r
    }
}

impl Clone for HeapStore {
    fn clone(&self) -> (r: HeapStore)
        ensures
            r.nodes() == self.nodes(),
            r.spec_contents().next_id == self.spec_contents().next_id,
            r.spec_contents().idents.iview() == self.spec_contents().idents.iview(),
            r.spec_contents().eav == self.spec_contents().eav,
            r.spec_contents().ave == self.spec_contents().ave,
            r.spec_contents().aev == self.spec_contents().aev,
    {
        let n = self.nodes.len();
        let mut nodes: Vec<Node> = Vec::new();
        let mut i: usize = 0;
        while i < n
            invariant
                i <= n,
                n == self.nodes@.len(),
                nodes@.len() == i,
                forall|j: int| 0 <= j < i ==> nodes@[j]@ == self.nodes@[j]@,
            decreases n - i,
        {
            nodes.push(self.nodes[i].clone());
            i = i + 1;
        }
        let r = HeapStore { nodes, contents: self.contents.clone() };
        proof {
            assert(r.nodes() =~= self.nodes());
        }
        r
    }
}

/// A deep copy of a record vector, record views preserved pointwise.
pub fn clone_records(v: &Vec<Record>) -> (r: Vec<Record>)
    ensures
        r@.len() == v@.len(),
        forall|j: int| 0 <= j < v@.len() ==> r@[j]@ == v@[j]@,
{
    let n = v.len();
    let mut r: Vec<Record> = Vec::new();
    let mut i: usize = 0;
    while i < n
        invariant
            i <= n,
            n == v@.len(),
            r@.len() == i,
            forall|j: int| 0 <= j < i ==> r@[j]@ == v@[j]@,
        decreases n - i,
    {
        r.push(v[i].clone());
        i = i + 1;
    }
    r
}

/// A copy of a child-reference vector.
pub fn clone_refs(v: &Vec<u64>) -> (r: Vec<u64>)
    ensures
        r@ == v@,
{
    let n = v.len();
    let mut r: Vec<u64> = Vec::new();
    let mut i: usize = 0;
    while i < n
        invariant
            i <= n,
            n == v@.len(),
            r@.len() == i,
            forall|j: int| 0 <= j < i ==> r@[j] == v@[j],
        decreases n - i,
    {
        r.push(v[i]);
        i = i + 1;
    }
    proof {
        assert(r@ =~= v@);
    }
    r
}

} // verus!
