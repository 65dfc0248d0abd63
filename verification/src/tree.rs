//! The search's parent-link table: an append-only arena of nodes, each
//! holding its parent's index and its data, read back only while walking a
//! finished search to its root.  A node's id is its index, handed out by
//! `add`; the root carries no parent.  Because ids are indices into the
//! arena, the id space can never be exhausted while the table exists.

use vstd::prelude::*;

verus! {

/// The node table, viewed as the sequence of `(parent id, data)` entries in
/// insertion order.
pub struct Tree<N> {
    nodes: Vec<(Option<usize>, N)>,
}

impl<N> Tree<N> {
    /// The table as a sequence; a node's id is its index.
    pub closed spec fn view(&self) -> Seq<(Option<usize>, N)> {
        self.nodes@
    }

    /// An empty table.
    pub fn new() -> (t: Tree<N>)
        ensures
            t@ == Seq::<(Option<usize>, N)>::empty(),
    {
        Tree { nodes: Vec::new() }
    }

    /// The number of nodes; also the id the next `add` will hand out.
    pub fn len(&self) -> (n: usize)
        ensures
            n == self@.len(),
    {
        self.nodes.len()
    }

    /// Appends a node with its parent and data, handing back its id.
    pub fn add(&mut self, parent: Option<usize>, data: N) -> (id: usize)
        ensures
            final(self)@ == old(self)@.push((parent, data)),
            id == old(self)@.len(),
    {
        let id = self.nodes.len();
        self.nodes.push((parent, data));
        id
    }

    /// Reads node `id`'s parent id and data; `None` past the end.
    pub fn get_parent(&self, id: usize) -> (r: Option<&(Option<usize>, N)>)
        ensures
            r matches Some(e) ==> (id as int) < self@.len() && *e == self@[id as int],
            r is None ==> self@.len() <= id as int,
    {
        if id < self.nodes.len() {
            Some(&self.nodes[id])
        } else {
            None
        }
    }
}

} // verus!
