//! A list bundled with the token of its nodes.
use vstd::prelude::*;
use crate::dlist::{Iter, ListToken, Node, NodePtr};
use crate::token::CellError;

verus! {

/// A list together with the token of its nodes, so that the token need not be
/// passed around.
pub struct ListWrapper<T> {
    head: NodePtr,
    token: ListToken<T>,
}

impl<T> View for ListWrapper<T> {
    type V = Seq<T>;

    /// The values of the list, head first.
    open spec fn view(&self) -> Seq<T> {
        if self.token().owns(self.head()) {
            self.token().values_from(self.head().slot())
        } else {
            Seq::empty()
        }
    }
}

impl<T> ListWrapper<T> {
    pub closed spec fn wf(&self) -> bool {
        self.token.wf()
    }

    pub closed spec fn head(&self) -> NodePtr {
        self.head
    }

    pub closed spec fn token(&self) -> ListToken<T> {
        self.token
    }

    pub fn new(head: NodePtr, token: ListToken<T>) -> (r: Self)
        requires
            token.wf(),
        ensures
            r.wf(),
            r.head() == head,
            r.token() == token,
    {
        Self { head, token }
    }

    /// A list of `elements`, in order, whose nodes `token` stamps.
    pub fn create(token: ListToken<T>, elements: Vec<T>) -> (r: Self)
        requires
            token.wf(),
            elements@.len() > 0,
            token.len() + elements@.len() < usize::MAX,
        ensures
            r.wf(),
            r@ == elements@,
            r.token().brand() == token.brand(),
            r.token().owns(r.head()),
            r.token().pos(r.head().slot()) == 0,
            r.head().slot() == token.len(),
    {
        let mut token = token;
        let ghost all = elements@;
        let r = Node::from_iter(&mut token, elements);
        let head = r.unwrap();
        assert(token.values_from(head.slot()) == all);
        ListWrapper { head, token }
    }

    /// A walk over the values of the list.
    pub fn iter(&self) -> (r: Iter<'_, T>)
        requires
            self.wf(),
        ensures
            r.wf(),
            r@ == self@,
    {
        Node::iter(&self.head, &self.token)
    }

    /// Another strong link to the head node.
    pub fn expose_node(&self) -> (r: NodePtr)
        ensures
            r == self.head(),
    {
        self.head
    }

    /// Puts `value` into the head node through the kept token and hands back
    /// the value it held.
    pub fn expose_mut_node(&mut self, value: T) -> (r: Result<T, CellError>)
        requires
            old(self).wf(),
        ensures
            final(self).wf(),
            final(self).head() == old(self).head(),
            r is Ok <==> old(self)@.len() > 0,
            r matches Ok(v) ==> old(self)@.len() > 0 && v == old(self)@[0] && final(self)@ == old(self)@.update(0, value),
            r is Err ==> final(self)@ == old(self)@,
    {
        let ghost t0 = self.token;
        let r = self.token.replace_data(&self.head, value);
        proof {
            if t0.owns(self.head) {
                crate::dlist::lemma_values_step(&t0, self.head.slot());
                crate::dlist::lemma_values_step(&self.token, self.head.slot());
                t0.lemma_chain(self.head.slot());
                let l = t0.chain(self.head.slot());
                let p = t0.pos(self.head.slot());
                assert forall|q: int| p < q < l.len() implies #[trigger] self.token.data(l[q]) == t0.data(l[q]) by {
                    assert(l[q] != l[p]);
                }
                assert(self.token.values_from(self.head.slot()) =~= t0.values_from(self.head.slot()).update(0, value));
            }
        }
        r
    }

    /// Shared access to the token, for reading the nodes.
    pub fn expose_token(&self) -> (r: &ListToken<T>)
        ensures
            *r == self.token(),
    {
        &self.token
    }
}

/// Builds the list `0, 1, ..., list_size - 1` (just `0` where `list_size` is
/// below 2) and returns its head and its last node.
pub fn init_list(token: &mut ListToken<i32>, list_size: i32) -> (r: (NodePtr, NodePtr))
    requires
        old(token).wf(),
        old(token).len() + (if list_size < 1 { 1 } else { list_size as int }) < usize::MAX,
    ensures
        final(token).wf(),
        final(token).brand() == old(token).brand(),
        final(token).owns(r.0),
        final(token).owns(r.1),
        r.0.slot() == old(token).len(),
        final(token).pos(r.0.slot()) == 0,
        final(token).values_from(r.0.slot()) == Seq::new(
            (if list_size < 1 { 1 } else { list_size as int }) as nat,
            |q: int| q as i32,
        ),
        final(token).chain(r.1.slot()) == final(token).chain(r.0.slot()),
        final(token).pos(r.1.slot()) == final(token).chain(r.0.slot()).len() - 1,
{
    let ghost base = old(token).len() as int;
    let head = Node::new(0, token);
    let mut tail = head;
    proof {
        token.lemma_chain(base);
    }
    let mut i: i32 = 1;
    while i < list_size
        invariant
            token.wf(),
            token.brand() == old(token).brand(),
            1 <= i,
            i <= list_size || i == 1,
            0 <= base,
            base + (if list_size < 1 { 1 } else { list_size as int }) < usize::MAX,
            token.len() == base + i,
            head.brand() == token.brand(),
            head.slot() == base,
            tail.brand() == token.brand(),
            tail.slot() == base + i - 1,
            token.live(base),
            token.live(tail.slot()),
            token.chain(base) == Seq::new(i as nat, |q: int| base + q),
            token.pos(base) == 0,
            forall|q: int| 0 <= q < i ==> #[trigger] token.data(base + q) == q as i32,
        decreases list_size - i,
    {
        let ghost t0 = *token;
        let node = Node::new(i, token);
        let ghost t1 = *token;
        let _ = Node::insert_next(&tail, &node, token);
        proof {
            let l = Seq::new(i as nat, |q: int| base + q);
            let k = node.slot();
            let ta = tail.slot();
            t0.lemma_chain(base);
            assert(t1.data(base) == t0.data(base));
            assert(token.live(base) == t1.live(base));
            assert(t0.chain(base)[i - 1] == ta);
            assert(t1.data(ta) == t0.data(ta));
            assert(t1.chain(ta) == l);
            assert(t1.pos(ta) == i - 1);
            t1.lemma_chain(k);
            ListToken::lemma_insert_detached(&t1, &*token, ta, k);
            let sq = token.chain(ta);
            assert(sq =~= Seq::new((i + 1) as nat, |q: int| base + q));
            token.lemma_chain(ta);
            assert(sq[0] == base);
            assert forall|q: int| 0 <= q < i + 1 implies #[trigger] token.data(base + q) == q as i32 by {
                if q < i {
                    assert(t0.data(base + q) == q as i32);
                    assert(t1.data(base + q) == t0.data(base + q));
                }
            }
        }
        tail = node;
        i = i + 1;
    }
    proof {
        token.lemma_chain(base);
        let l = token.chain(base);
        assert(l[i - 1] == tail.slot());
        assert(token.chain(tail.slot()) == l);
        assert(l.subrange(0, l.len() as int).map_values(|j: int| token.data(j)) =~= Seq::new(
            (if list_size < 1 { 1 } else { list_size as int }) as nat,
            |q: int| q as i32,
        ));
    }
    (head, tail)
}

} // verus!
