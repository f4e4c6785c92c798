//! The open set of the planner: the nodes that wait to be expanded, cheapest
//! first.

use vstd::prelude::*;

use crate::heap::{queue_entries, queue_items, queue_new, queue_pop, queue_push, CostQueue};
use crate::location::{Direction, Location};
use std::collections::HashMap;

verus! {

broadcast use vstd::std_specs::hash::group_hash_axioms;

/// A cell that the search has reached, the way that led there from the start,
/// and the estimated length of a whole route through it.
#[derive(Debug)]
pub struct Node {
    pub location: Location,
    pub fscore: u16,
    pub path: Vec<Direction>,
}

impl Node {
    pub fn new(l: Location, f: u16, p: Vec<Direction>) -> (node: Node)
        ensures
            node.location == l,
            node.fscore == f,
            node.path == p,
    {
        Node { location: l, fscore: f, path: p }
    }
}

/// The number under which the queue knows a node: cell and score, packed.
/// Two nodes have the same number exactly if they agree in both.
pub open spec fn entry_key(l: Location, fscore: u16) -> u64 {
    ((l.col * 65536 + l.row) * 65536 + fscore) as u64
}

fn key_of(l: Location, fscore: u16) -> (key: u64)
    ensures
        key == entry_key(l, fscore),
{
    (l.col as u64 * 65536 + l.row as u64) * 65536 + fscore as u64
}

/// Different cells or scores are packed into different numbers.
pub proof fn lemma_entry_key_injective(a: Location, f: u16, b: Location, g: u16)
    ensures
        entry_key(a, f) == entry_key(b, g) <==> a == b && f == g,
{
}

/// The nodes that wait, each under its cell and score. Of two nodes for one
/// cell with one score only the first is kept.
pub struct OpenSet {
    queue: CostQueue,
    nodes: HashMap<u64, Node>,
}

impl View for OpenSet {
    type V = Map<(Location, u16), Seq<Direction>>;

    /// The waiting nodes: cell and score, and the path of the node.
    closed spec fn view(&self) -> Map<(Location, u16), Seq<Direction>> {
        Map::new(
            |k: (Location, u16)| self.nodes@.contains_key(entry_key(k.0, k.1)),
            |k: (Location, u16)| self.nodes@[entry_key(k.0, k.1)].path@,
        )
    }
}

impl OpenSet {
    /// The queue and the store of nodes hold the same entries.
    pub closed spec fn wf(&self) -> bool {
        &&& self.nodes@.dom() =~= queue_entries(self.queue).dom()
        &&& forall|k: u64| #[trigger]
            self.nodes@.contains_key(k) ==> {
                &&& k == entry_key(self.nodes@[k].location, self.nodes@[k].fscore)
                &&& queue_entries(self.queue)[k] == self.nodes@[k].fscore
            }
    }

    /// How many nodes wait.
    pub closed spec fn len(&self) -> nat {
        self.nodes@.dom().len()
    }

    /// An open set in which nothing waits.
    pub fn new() -> (open: OpenSet)
        ensures
            open.wf(),
            open@ == Map::<(Location, u16), Seq<Direction>>::empty(),
            open.len() == 0,
    {
        let open = OpenSet { queue: queue_new(), nodes: HashMap::new() };
        assert(open@ =~= Map::<(Location, u16), Seq<Direction>>::empty());
        open
    }

    /// Lets `node` wait, unless a node for its cell with its score waits
    /// already: then nothing changes.
    pub fn push(&mut self, node: Node)
        requires
            old(self).wf(),
        ensures
            final(self).wf(),
            final(self)@ == if old(self)@.contains_key((node.location, node.fscore)) {
                old(self)@
            } else {
                old(self)@.insert((node.location, node.fscore), node.path@)
            },
            final(self).len() == if old(self)@.contains_key((node.location, node.fscore)) {
                old(self).len()
            } else {
                old(self).len() + 1
            },
    {
        let key = key_of(node.location, node.fscore);
        let ghost before = *self;
        let ghost added = (node.location, node.fscore);
        let ghost path = node.path@;
        let earlier = queue_push(&mut self.queue, key, node.fscore);
        proof {
            assert(queue_entries(self.queue).dom() =~= queue_entries(before.queue).dom().insert(
                key,
            ));
        }
        if earlier.is_none() {
            self.nodes.insert(key, node);
            proof {
                assert forall|k: (Location, u16)| k != added implies entry_key(k.0, k.1)
                    != key by {
                    lemma_entry_key_injective(k.0, k.1, added.0, added.1);
                }
                assert(self@ =~= before@.insert(added, path));
            }
        } else {
            proof {
                assert(before.nodes@.contains_key(key));
                assert(self@ =~= before@);
            }
        }
    }

    /// Takes out a node of least score. Which one among several of least
    /// score is not determined. `None` means that nothing waited.
    pub fn pop(&mut self) -> (popped: Option<Node>)
        requires
            old(self).wf(),
        ensures
            final(self).wf(),
            match popped {
                Some(node) => {
                    &&& old(self)@.contains_key((node.location, node.fscore))
                    &&& old(self)@[(node.location, node.fscore)] == node.path@
                    &&& forall|k: (Location, u16)| #[trigger]
                        old(self)@.contains_key(k) ==> node.fscore <= k.1
                    &&& final(self)@ == old(self)@.remove((node.location, node.fscore))
                    &&& final(self).len() == old(self).len() - 1
                },
                None => {
                    &&& old(self)@ == Map::<(Location, u16), Seq<Direction>>::empty()
                    &&& final(self)@ == old(self)@
                    &&& final(self).len() == 0
                },
            },
    {
        let ghost before = *self;
        match queue_pop(&mut self.queue) {
            Some((key, cost)) => {
                assert(before.nodes@.contains_key(key));
                let popped = self.nodes.remove(&key);
                proof {
                    let node = popped->0;
                    let taken = (node.location, node.fscore);
                    assert forall|k: (Location, u16)| k != taken implies entry_key(k.0, k.1)
                        != key by {
                        lemma_entry_key_injective(k.0, k.1, taken.0, taken.1);
                    }
                    assert(self@ =~= before@.remove(taken));
                    assert forall|k: (Location, u16)| #[trigger]
                        before@.contains_key(k) implies node.fscore <= k.1 by {
                        assert(before.nodes@.contains_key(entry_key(k.0, k.1)));
                        assert(queue_entries(before.queue).contains_key(entry_key(k.0, k.1)));
                        lemma_entry_key_injective(
                            k.0,
                            k.1,
                            before.nodes@[entry_key(k.0, k.1)].location,
                            before.nodes@[entry_key(k.0, k.1)].fscore,
                        );
                    }
                }
                popped
            },
            None => {
                proof {
                    assert(before.nodes@.dom() =~= Set::<u64>::empty());
                    assert(before@ =~= Map::<(Location, u16), Seq<Direction>>::empty());
                    assert(self@ =~= before@);
                }
                None
            },
        }
    }

    /// Whether a node for `location` waits whose score is below `fscore`.
    pub fn has_better(&self, location: Location, fscore: u16) -> (better: bool)
        requires
            self.wf(),
        ensures
            better == exists|f: u16| f < fscore && #[trigger] self@.contains_key((location, f)),
    {
        let items = queue_items(&self.queue);
        let mut i: usize = 0;
        while i < items.len()
            invariant
                self.wf(),
                i <= items@.len(),
                items@.to_set() == queue_entries(self.queue).dom(),
                forall|j: int|
                    0 <= j < i ==> !(self.nodes@[#[trigger] items@[j]].location == location
                        && self.nodes@[items@[j]].fscore < fscore),
            decreases items@.len() - i,
        {
            let key = items[i];
            assert(items@.to_set().contains(key));
            assert(self.nodes@.contains_key(key));
            match self.nodes.get(&key) {
                Some(node) => {
                    if node.location == location && node.fscore < fscore {
                        assert(self@.contains_key((location, node.fscore)));
                        return true;
                    }
                },
                None => {},
            }
            i += 1;
        }
        proof {
            assert forall|f: u16| f < fscore implies !#[trigger] self@.contains_key(
                (location, f),
            ) by {
                let key = entry_key(location, f);
                if self.nodes@.contains_key(key) {
                    assert(items@.to_set().contains(key));
                    let j = choose|j: int| 0 <= j < items@.len() && items@[j] == key;
                    lemma_entry_key_injective(
                        location,
                        f,
                        self.nodes@[key].location,
                        self.nodes@[key].fscore,
                    );
                    assert(self.nodes@[items@[j]].location == location);
                }
            }
        }
        false
    }
}

} // verus!
