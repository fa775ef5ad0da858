//! An adapter exhibiting a list of arcs sorted by source as a sequential
//! graph: iterating yields every node in order together with the
//! destinations of its arcs.

use vstd::prelude::*;

verus! {

/// The destinations of the arcs leaving `v`, in the order the arc list
/// gives them.
pub open spec fn successors_of(arcs: Seq<(usize, usize)>, v: usize) -> Seq<usize> {
    arcs.filter(|a: (usize, usize)| a.0 == v).map_values(|a: (usize, usize)| a.1)
}

/// A graph given as a list of arcs sorted by source node.  If for every
/// source the arcs are sorted by destination, the successor lists are
/// sorted as well.
#[derive(Debug, Clone)]
pub struct ArcListGraph {
    num_nodes: usize,
    arcs: Vec<(usize, usize)>,
}

impl ArcListGraph {
    /// The arcs of the graph.
    pub closed spec fn spec_arcs(&self) -> Seq<(usize, usize)> {
        self.arcs@
    }

    /// The number of nodes of the graph.
    pub closed spec fn spec_num_nodes(&self) -> int {
        self.num_nodes as int
    }

    /// Create a new graph from a list of pairs of nodes.
    pub fn new(num_nodes: usize, arcs: Vec<(usize, usize)>) -> (r: Self)
        ensures
            r.spec_num_nodes() == num_nodes as int,
            r.spec_arcs() == arcs@,
    {
        ArcListGraph { num_nodes, arcs }
    }

    /// The number of nodes.
    pub fn num_nodes(&self) -> (r: usize)
        ensures
            r as int == self.spec_num_nodes(),
    {
        self.num_nodes
    }

    /// An arc count is not kept by this adapter.
    pub fn num_arcs_hint(&self) -> (r: Option<usize>)
        ensures
            r is None,
    {
        None
    }

    /// An iterator over the nodes from `from` on, each with its successors.
    pub fn iter_from(&self, from: usize) -> (r: NodeIterator)
        requires
            from <= self.spec_num_nodes(),
        ensures
            r.wf(),
            r.spec_arcs() == self.spec_arcs(),
            r.spec_num_nodes() == self.spec_num_nodes(),
            r.spec_curr() == from as int,
    {
        let mut copy: Vec<(usize, usize)> = Vec::new();
        let mut i: usize = 0;
        while i < self.arcs.len()
            invariant
                0 <= i <= self.spec_arcs().len(),
                copy@ == self.spec_arcs().take(i as int),
            decreases self.spec_arcs().len() - i,
        {
            let a = self.arcs[i];
            copy.push(a);
            proof {
                assert(self.spec_arcs().take(i + 1) =~= self.spec_arcs().take(i as int).push(a));
            }
            i = i + 1;
        }
        proof {
            assert(self.spec_arcs().take(self.spec_arcs().len() as int) =~= self.spec_arcs());
        }
        let mut it = NodeIterator::new(self.num_nodes, copy);
        it.advance_to(from);
        it
    }
}

/// An iterator over the nodes of an arc-list graph, yielding each node
/// together with the destinations of its arcs.
#[derive(Debug, Clone)]
pub struct NodeIterator {
    num_nodes: usize,
    curr_node: usize,
    arcs: Vec<(usize, usize)>,
}

impl NodeIterator {
    /// The arcs the iterator walks.
    pub closed spec fn spec_arcs(&self) -> Seq<(usize, usize)> {
        self.arcs@
    }

    /// The number of nodes.
    pub closed spec fn spec_num_nodes(&self) -> int {
        self.num_nodes as int
    }

    /// The next node to be yielded.
    pub closed spec fn spec_curr(&self) -> int {
        self.curr_node as int
    }

    /// The iterator has not run past the node count.
    pub open spec fn wf(&self) -> bool {
        self.spec_curr() <= self.spec_num_nodes()
    }

    /// Create an iterator positioned on node 0.
    pub fn new(num_nodes: usize, arcs: Vec<(usize, usize)>) -> (r: Self)
        ensures
            r.wf(),
            r.spec_arcs() == arcs@,
            r.spec_num_nodes() == num_nodes as int,
            r.spec_curr() == 0,
    {
        NodeIterator { num_nodes, curr_node: 0, arcs }
    }

    /// Skip forward so that the next yielded node is `to`.
    pub fn advance_to(&mut self, to: usize)
        requires
            old(self).wf(),
            old(self).spec_curr() <= to <= old(self).spec_num_nodes(),
        ensures
            final(self).wf(),
            final(self).spec_arcs() == old(self).spec_arcs(),
            final(self).spec_num_nodes() == old(self).spec_num_nodes(),
            final(self).spec_curr() == to as int,
    {
        self.curr_node = to;
    }

    /// Yield the next node and its successor list, or nothing when every
    /// node has been yielded.
    pub fn next(&mut self) -> (r: Option<(usize, Successors)>)
        requires
            old(self).wf(),
        ensures
            final(self).wf(),
            final(self).spec_arcs() == old(self).spec_arcs(),
            final(self).spec_num_nodes() == old(self).spec_num_nodes(),
            match r {
                Some((v, succ)) => {
                    &&& old(self).spec_curr() < old(self).spec_num_nodes()
                    &&& v as int == old(self).spec_curr()
                    &&& final(self).spec_curr() == old(self).spec_curr() + 1
                    &&& succ.wf()
                    &&& succ.spec_items() == successors_of(old(self).spec_arcs(), v)
                },
                None => {
                    &&& old(self).spec_curr() == old(self).spec_num_nodes()
                    &&& final(self).spec_curr() == old(self).spec_curr()
                },
            },
    {
        if self.curr_node == self.num_nodes {
            return None;
        }
        let v = self.curr_node;
        let mut items: Vec<usize> = Vec::new();
        let mut i: usize = 0;
        let ghost arcs = self.arcs@;
        while i < self.arcs.len()
            invariant
                arcs == self.arcs@,
                0 <= i <= arcs.len(),
                items@ == successors_of(arcs.take(i as int), v),
            decreases arcs.len() - i,
        {
            let ghost pre = arcs.take(i as int);
            let a = self.arcs[i];
            if a.0 == v {
                items.push(a.1);
            }
            proof {
                reveal(Seq::filter);
                let f = |x: (usize, usize)| x.0 == v;
                let s1 = arcs.take(i + 1);
                assert(s1.drop_last() =~= pre);
                assert(s1.last() == arcs[i as int]);
                assert(s1.filter(f) == if f(s1.last()) {
                    pre.filter(f).push(s1.last())
                } else {
                    pre.filter(f)
                });
                if a.0 == v {
                    assert(s1.filter(f).map_values(|x: (usize, usize)| x.1) =~= pre.filter(
                        f,
                    ).map_values(|x: (usize, usize)| x.1).push(a.1));
                } else {
                    assert(successors_of(s1, v) =~= successors_of(pre, v));
                }
            }
            i = i + 1;
        }
        proof {
            assert(arcs.take(arcs.len() as int) =~= arcs);
        }
        self.curr_node = self.curr_node + 1;
        Some((v, Successors { items, index: 0 }))
    }
}

/// The successor list of one yielded node, walked by index.
pub struct Successors {
    items: Vec<usize>,
    index: usize,
}

impl Successors {
    /// The destinations still to be yielded, in order.
    pub closed spec fn spec_items(&self) -> Seq<usize> {
        self.items@.skip(self.index as int)
    }

    /// The cursor has not run past the list.
    pub open spec fn wf(&self) -> bool {
        self.spec_index() <= self.spec_list().len()
    }

    /// The cursor into the list.
    pub closed spec fn spec_index(&self) -> int {
        self.index as int
    }

    /// The whole list, including what was already yielded.
    pub closed spec fn spec_list(&self) -> Seq<usize> {
        self.items@
    }

    /// Yield the next destination, or nothing at the end of the list.
    pub fn next(&mut self) -> (r: Option<usize>)
        requires
            old(self).wf(),
        ensures
            final(self).wf(),
            match r {
                Some(d) => old(self).spec_items().len() > 0 && d == old(self).spec_items()[0]
                    && final(self).spec_items() == old(self).spec_items().drop_first(),
                None => old(self).spec_items().len() == 0 && final(self).spec_items() == old(
                    self,
                ).spec_items(),
            },
    {
        if self.index < self.items.len() {
            let d = self.items[self.index];
            self.index = self.index + 1;
            proof {
                assert(self.items@.skip(self.index as int) =~= old(self).items@.skip(
                    old(self).index as int,
                ).drop_first());
            }
            Some(d)
        } else {
            proof {
                assert(self.items@.skip(self.index as int) =~= Seq::<usize>::empty());
            }
            None
        }
    }

    /// The destinations still to be yielded, as one vector.
    pub fn collect(self) -> (r: Vec<usize>)
        requires
            self.wf(),
        ensures
            r@ == self.spec_items(),
    {
        let mut out: Vec<usize> = Vec::new();
        let mut i = self.index;
        while i < self.items.len()
            invariant
                self.index <= i <= self.items.len(),
                out@ == self.items@.subrange(self.index as int, i as int),
            decreases self.items.len() - i,
        {
            let d = self.items[i];
            out.push(d);
            proof {
                assert(self.items@.subrange(self.index as int, i + 1) =~= self.items@.subrange(
                    self.index as int,
                    i as int,
                ).push(d));
            }
            i = i + 1;
        }
        proof {
            assert(self.items@.skip(self.index as int) =~= self.items@.subrange(
                self.index as int,
                self.items@.len() as int,
            ));
        }
        out
    }
}

} // verus!
