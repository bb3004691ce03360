//! A double-ended queue built from list nodes under one token.
use vstd::prelude::*;
use crate::dlist::{ListToken, Node, NodePtr};
use crate::token::{Token, CellError};

verus! {

/// A double-ended queue over list nodes that share one token.
pub struct Deque<T> {
    head: Option<NodePtr>,
    tail: Option<NodePtr>,
    owner: ListToken<T>,
}

impl<T> View for Deque<T> {
    type V = Seq<T>;

    /// The values from front to back.
    closed spec fn view(&self) -> Seq<T> {
        match self.head {
            Some(h) => self.owner.values_from(h.slot()),
            None => Seq::empty(),
        }
    }
}

impl<T> Deque<T> {
    pub closed spec fn wf(&self) -> bool {
        &&& self.owner.wf()
        &&& match (self.head, self.tail) {
            (None, None) => self.owner.len() == 0,
            (Some(h), Some(t)) => {
                &&& self.owner.owns(h)
                &&& self.owner.owns(t)
                &&& self.owner.pos(h.slot()) == 0
                &&& self.owner.chain(t.slot()) == self.owner.chain(h.slot())
                &&& self.owner.pos(t.slot()) == self.owner.chain(h.slot()).len() - 1
                &&& self.owner.chain(h.slot()).len() == self.owner.len()
            },
            _ => false,
        }
    }

    /// An empty deque whose nodes will be stamped by `token`.
    pub fn new(token: Token<Node<T>>) -> (d: Deque<T>)
        requires
            token.wf(),
            token@.len() == 0,
        ensures
            d.wf(),
            d@ == Seq::<T>::empty(),
    {
        Deque { head: None, tail: None, owner: ListToken::new(token) }
    }

    /// Makes `x` the only value of an empty deque.
    fn add_to_empty(&mut self, x: T)
        requires
            old(self).wf(),
            old(self).head is None,
        ensures
            final(self).wf(),
            final(self)@ == seq![x],
    {
        let node = Node::new(x, &mut self.owner);
        proof {
            self.owner.lemma_chain(node.slot());
        }
        self.head = Some(node);
        self.tail = Some(node);
        proof {
            let l = self.owner.chain(node.slot());
            assert(l.subrange(0, 1).map_values(|j: int| self.owner.data(j)) =~= seq![x]);
        }
    }

    /// Puts `x` at the back.
    pub fn add_last(&mut self, x: T)
        requires
            old(self).wf(),
            old(self)@.len() + 1 < usize::MAX,
        ensures
            final(self).wf(),
            final(self)@ == old(self)@.push(x),
    {
        let t = match self.tail {
            Some(t) => t,
            None => {
                self.add_to_empty(x);
                return;
            },
        };
        let ghost h = self.head->Some_0.slot();
        let ghost t0 = self.owner;
        proof {
            t0.lemma_chain(h);
        }
        let node = Node::new(x, &mut self.owner);
        let ghost t1 = self.owner;
        let _ = Node::insert_next(&t, &node, &mut self.owner);
        proof {
            let t2 = self.owner;
            let l = t0.chain(h);
            assert(t1.data(t.slot()) == t0.data(t.slot()));
            assert(t1.data(h) == t0.data(h));
            t1.lemma_chain(node.slot());
            ListToken::lemma_insert_detached(&t1, &t2, t.slot(), node.slot());
            let sq = t2.chain(t.slot());
            assert(sq =~= l.push(node.slot()));
            t2.lemma_chain(t.slot());
            assert(sq[0] == h);
            assert(t2.chain(h) == sq);
            assert forall|q: int| 0 <= q < l.len() implies #[trigger] t2.data(l[q]) == t0.data(l[q]) by {
                assert(t1.data(l[q]) == t0.data(l[q]));
            }
            assert(sq.subrange(0, sq.len() as int).map_values(|j: int| t2.data(j)) =~= l.subrange(0, l.len() as int).map_values(
                |j: int| t0.data(j),
            ).push(x));
        }
        self.tail = Some(node);
    }

    /// Puts `x` at the front.
    pub fn add_first(&mut self, x: T)
        requires
            old(self).wf(),
            old(self)@.len() + 1 < usize::MAX,
        ensures
            final(self).wf(),
            final(self)@ == seq![x] + old(self)@,
    {
        let h = match self.head {
            Some(h) => h,
            None => {
                self.add_to_empty(x);
                return;
            },
        };
        let t = match self.tail {
            Some(t) => t,
            None => {
                return;
            },
        };
        let ghost t0 = self.owner;
        proof {
            t0.lemma_chain(h.slot());
            t0.lemma_chain(t.slot());
        }
        // The new node goes in right after the head, then takes over the head's value.
        let node = Node::new(x, &mut self.owner);
        let ghost t1 = self.owner;
        let _ = Node::insert_next(&h, &node, &mut self.owner);
        let ghost t2 = self.owner;
        let _ = self.owner.swap_data(&h, &node);
        if t.same_cell(&h) {
            self.tail = Some(node);
        }
        proof {
            let t3 = self.owner;
            let l = t0.chain(h.slot());
            let k = node.slot();
            assert(t1.data(h.slot()) == t0.data(h.slot()));
            assert(t1.data(t.slot()) == t0.data(t.slot()));
            t1.lemma_chain(k);
            ListToken::lemma_insert_detached(&t1, &t2, h.slot(), k);
            let sq = t2.chain(h.slot());
            assert(sq == l.insert(1, k));
            t2.lemma_chain(h.slot());
            assert(t3.chain(h.slot()) == sq);
            assert(t3.pos(h.slot()) == 0);
            assert(!l.contains(k));
            if t.slot() != h.slot() {
                assert(l[l.len() - 1] == t.slot());
                assert(sq[l.len() as int] == t.slot());
                assert(t3.chain(t.slot()) == sq);
                assert(t3.pos(t.slot()) == l.len());
            } else {
                assert(t3.chain(k) == sq);
            }
            assert forall|q: int| 0 <= q < l.len() implies #[trigger] t1.data(l[q]) == t0.data(l[q]) by {}
            let old_v = l.subrange(0, l.len() as int).map_values(|j: int| t0.data(j));
            let new_v = sq.subrange(0, sq.len() as int).map_values(|j: int| t3.data(j));
            assert forall|q: int| 0 <= q < new_v.len() implies new_v[q] == (seq![x] + old_v)[q] by {
                if q >= 2 {
                    assert(sq[q] == l[q - 1]);
                    assert(l[q - 1] != h.slot());
                }
            }
            assert(new_v =~= seq![x] + old_v);
        }
    }

    /// The values from front to back.
    pub fn as_vec(&self) -> (r: Vec<&T>)
        requires
            self.wf(),
        ensures
            r@.map_values(|x: &T| *x) == self@,
    {
        match Node::view_as_vec(self.head.as_ref(), &self.owner) {
            Ok(v) => v,
            Err(_) => Vec::new(),
        }
    }
}

} // verus!
