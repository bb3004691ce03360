//! Doubly-linked lists whose nodes are cells of one token: a strong link
//! forward and a weak link back, so that neighbours do not own each other.
//!
//! Beside the nodes, the list token keeps in ghost state the chains the nodes
//! form. Its invariant ties every forward and back link to the node's place on
//! its chain, and every operation keeps it.
use vstd::prelude::*;
use crate::token::{Brand, Cell, CellError, Token, WeakCell};

verus! {

/// A strong link to a node.
pub type NodePtr = Cell;

/// A weak (back) link to a node.
pub type WeakNodePtr = WeakCell;

/// A node of a doubly-linked list: a strong link forward, a weak link back.
pub struct Node<T> {
    data: T,
    next: Option<NodePtr>,
    prev: Option<WeakNodePtr>,
}

/// The token of a family of list nodes, together with the shape of the lists
/// they form. Every node lies on exactly one chain; a detached node is a chain
/// of its own.
pub struct ListToken<T> {
    token: Token<Node<T>>,
    chains: Ghost<Seq<Seq<int>>>,
    loc: Ghost<Seq<(int, int)>>,
}

impl<T> Node<T> {
    pub closed spec fn value(&self) -> T {
        self.data
    }

    /// The value the node holds.
    pub fn data(&self) -> (r: &T)
        ensures
            *r == self.value(),
    {
        &self.data
    }

    pub closed spec fn next_link(&self) -> Option<NodePtr> {
        self.next
    }

    pub closed spec fn prev_link(&self) -> Option<WeakNodePtr> {
        self.prev
    }
}

impl<T> ListToken<T> {
    pub closed spec fn brand(&self) -> Brand {
        self.token.brand()
    }

    /// The number of nodes stamped by this token.
    pub closed spec fn len(&self) -> nat {
        self.token@.len()
    }

    /// The node in slot `i`.
    pub closed spec fn node(&self, i: int) -> Node<T> {
        self.token@[i]
    }

    pub closed spec fn data(&self, i: int) -> T {
        self.node(i).value()
    }

    /// Whether the node in slot `i` has not been disposed of.
    pub closed spec fn live(&self, i: int) -> bool {
        self.token.live(i)
    }

    /// Whether `p` is a node of this token that has not been disposed of.
    pub open spec fn owns(&self, p: NodePtr) -> bool {
        p.brand() == self.brand() && 0 <= p.slot() < self.len() && self.live(p.slot())
    }

    /// Why an access to `p` is refused, where it is.
    pub open spec fn refusal(&self, p: NodePtr) -> CellError {
        if p.brand() == self.brand() && 0 <= p.slot() < self.len() {
            CellError::Disposed
        } else {
            CellError::BrandMismatch
        }
    }

    /// The slots of the list that the node in slot `i` lies on, head first.
    pub closed spec fn chain(&self, i: int) -> Seq<int> {
        self.chains@[self.loc@[i].0]
    }

    /// The position of slot `i` on its list.
    pub closed spec fn pos(&self, i: int) -> int {
        self.loc@[i].1
    }

    /// The values met when walking forward from slot `i`.
    pub open spec fn values_from(&self, i: int) -> Seq<T> {
        self.chain(i).subrange(self.pos(i), self.chain(i).len() as int).map_values(|j: int| self.data(j))
    }

    /// Whether the node's links agree with its place on its chain.
    closed spec fn linked(&self, i: int) -> bool {
        let s = self.chain(i);
        let q = self.pos(i);
        let n = self.node(i);
        &&& match n.next {
            Some(x) => q + 1 < s.len() && x.slot() == s[q + 1] && x.brand() == self.brand(),
            None => q + 1 >= s.len(),
        }
        &&& match n.prev {
            Some(w) => q > 0 && w.slot() == s[q - 1] && w.brand() == self.brand(),
            None => q == 0,
        }
        &&& s.len() > 1 ==> self.live(i)
    }

    closed spec fn placed(&self, i: int) -> bool {
        let (c, q) = self.loc@[i];
        &&& 0 <= c < self.chains@.len()
        &&& 0 <= q < self.chains@[c].len()
        &&& self.chains@[c][q] == i
        &&& self.linked(i)
    }

    closed spec fn member(&self, c: int, q: int) -> bool {
        let i = self.chains@[c][q];
        0 <= i < self.len() && self.loc@[i] == (c, q)
    }

    pub closed spec fn wf(&self) -> bool {
        &&& self.token.wf()
        &&& self.loc@.len() == self.len()
        &&& forall|i: int| 0 <= i < self.len() ==> #[trigger] self.placed(i)
        &&& forall|c: int, q: int|
            0 <= c < self.chains@.len() && 0 <= q < self.chains@[c].len() ==> #[trigger] self.member(c, q)
    }

    /// What is known of a node's place on its chain.
    pub proof fn lemma_chain(&self, i: int)
        requires
            self.wf(),
            0 <= i < self.len(),
        ensures
            0 <= self.pos(i) < self.chain(i).len(),
            self.chain(i)[self.pos(i)] == i,
            self.chain(i).no_duplicates(),
            forall|q: int| 0 <= q < self.chain(i).len() ==> 0 <= #[trigger] self.chain(i)[q] < self.len()
                && self.chain(self.chain(i)[q]) == self.chain(i) && self.pos(self.chain(i)[q]) == q,
    {
        assert(self.placed(i));
        let c = self.loc@[i].0;
        assert forall|q: int| 0 <= q < self.chain(i).len() implies 0 <= #[trigger] self.chain(i)[q] < self.len()
            && self.chain(self.chain(i)[q]) == self.chain(i) && self.pos(self.chain(i)[q]) == q by {
            assert(self.member(c, q));
        }
        assert forall|a: int, b: int| 0 <= a < self.chain(i).len() && 0 <= b < self.chain(i).len() && a != b
            implies self.chain(i)[a] != self.chain(i)[b] by {
            assert(self.member(c, a));
            assert(self.member(c, b));
        }
    }

    /// A token for list nodes, with no nodes yet.
    pub fn new(token: Token<Node<T>>) -> (r: ListToken<T>)
        requires
            token.wf(),
            token@.len() == 0,
        ensures
            r.wf(),
            r.len() == 0,
            r.brand() == token.brand(),
    {
        ListToken { token, chains: Ghost(Seq::empty()), loc: Ghost(Seq::empty()) }
    }

    /// The node behind `p`, if this token stamped it.
    pub fn get(&self, p: &NodePtr) -> (r: Result<&Node<T>, CellError>)
        ensures
            r is Ok <==> self.owns(*p),
            r matches Ok(n) ==> *n == self.node(p.slot()) && n.value() == self.data(p.slot()),
            r matches Err(e) ==> e == self.refusal(*p),
    {
        self.token.read(p)
    }

    /// Whether `p` is a node of this token.
    pub fn check(&self, p: &NodePtr) -> (r: bool)
        ensures
            r == self.owns(*p),
    {
        self.token.read(p).is_ok()
    }

    /// Replaces the back link of an owned node; the shape is left to the caller.
    fn set_prev(&mut self, p: &NodePtr, w: Option<WeakNodePtr>)
        requires
            old(self).owns(*p),
        ensures
            final(self).token.brand() == old(self).token.brand(),
            old(self).token.wf() ==> final(self).token.wf(),
            final(self).token.liveness() == old(self).token.liveness(),
            final(self).token@ == old(self).token@.update(p.slot(), Node { prev: w, ..old(self).node(p.slot()) }),
            final(self).chains == old(self).chains,
            final(self).loc == old(self).loc,
    {
        match self.token.write(p) {
            Ok(n) => {
                n.prev = w;
            },
            Err(_) => {},
        }
    }

    /// Replaces the forward link of an owned node; the shape is left to the caller.
    fn set_next(&mut self, p: &NodePtr, x: Option<NodePtr>)
        requires
            old(self).owns(*p),
        ensures
            final(self).token.brand() == old(self).token.brand(),
            old(self).token.wf() ==> final(self).token.wf(),
            final(self).token.liveness() == old(self).token.liveness(),
            final(self).token@ == old(self).token@.update(p.slot(), Node { next: x, ..old(self).node(p.slot()) }),
            final(self).chains == old(self).chains,
            final(self).loc == old(self).loc,
    {
        match self.token.write(p) {
            Ok(n) => {
                n.next = x;
            },
            Err(_) => {},
        }
    }
}

/// `after` is `before` with slot `k` taken off its list and the rest of that
/// list closed up; nothing else changed.
pub open spec fn removed<T>(before: &ListToken<T>, after: &ListToken<T>, k: int) -> bool {
    &&& unlinked(before, after, k)
    &&& forall|i: int| #[trigger] after.live(i) == before.live(i)
}

/// The shape part of `removed`: slot `k` is off its list, which closed up;
/// every other list and every value is as it was.
pub open spec fn unlinked<T>(before: &ListToken<T>, after: &ListToken<T>, k: int) -> bool {
    &&& after.wf()
    &&& after.brand() == before.brand()
    &&& after.len() == before.len()
    &&& forall|i: int| 0 <= i < before.len() ==> #[trigger] after.data(i) == before.data(i)
    &&& after.chain(k) == seq![k]
    &&& forall|i: int| 0 <= i < before.len() && i != k ==> #[trigger] after.chain(i) == remaining(before, k, i)
}

/// The list of slot `i` once slot `k` has been taken off its own list.
pub open spec fn remaining<T>(before: &ListToken<T>, k: int, i: int) -> Seq<int> {
    if before.chain(i).contains(k) {
        before.chain(k).remove(before.pos(k))
    } else {
        before.chain(i)
    }
}

impl<T> Node<T> {
    /// A detached node holding `value`.
    pub fn new(value: T, token: &mut ListToken<T>) -> (p: NodePtr)
        requires
            old(token).wf(),
            old(token).len() < usize::MAX,
        ensures
            final(token).wf(),
            final(token).brand() == old(token).brand(),
            final(token).len() == old(token).len() + 1,
            p.brand() == old(token).brand(),
            p.slot() == old(token).len(),
            final(token).data(p.slot()) == value,
            final(token).live(p.slot()),
            final(token).chain(p.slot()) == seq![p.slot()],
            forall|i: int| 0 <= i < old(token).len() ==> #[trigger] final(token).data(i) == old(token).data(i)
                && final(token).chain(i) == old(token).chain(i) && final(token).pos(i) == old(token).pos(i)
                && final(token).live(i) == old(token).live(i),
    {
        let ghost old_t = *token;
        let p = Cell::new(&mut token.token, Node { data: value, next: None, prev: None });
        let ghost k = p.slot();
        token.chains = Ghost(token.chains@.push(seq![k]));
        token.loc = Ghost(token.loc@.push((old_t.chains@.len() as int, 0int)));
        proof {
            assert forall|i: int| 0 <= i < old_t.len() implies #[trigger] token.data(i) == old_t.data(i)
                && token.chain(i) == old_t.chain(i) && token.pos(i) == old_t.pos(i) && token.live(i) == old_t.live(i) by {
                assert(old_t.placed(i));
            }
            assert forall|i: int| 0 <= i < token.len() implies #[trigger] token.placed(i) by {
                if i < old_t.len() {
                    assert(old_t.placed(i));
                }
            }
            assert forall|c: int, q: int| 0 <= c < token.chains@.len() && 0 <= q < token.chains@[c].len()
                implies #[trigger] token.member(c, q) by {
                if c < old_t.chains@.len() {
                    assert(old_t.member(c, q));
                }
            }
        }
        p
    }
}

impl<T> Node<T> {
    /// Takes the node off its list: its neighbours are linked to each other and
    /// both of its own links are cleared. A detached node stays as it is.
    #[verifier::rlimit(40)]
    pub fn remove(node: &NodePtr, token: &mut ListToken<T>) -> (r: Result<(), CellError>)
        requires
            old(token).wf(),
        ensures
            r is Ok <==> old(token).owns(*node),
            r matches Err(e) ==> e == old(token).refusal(*node) && *final(token) == *old(token),
            r is Ok ==> removed(old(token), final(token), node.slot()),
    {
        let ghost old_t = *token;
        let (prev_w, old_next) = match token.get(node) {
            Ok(n) => (n.prev, n.next),
            Err(e) => {
                return Err(e);
            },
        };
        let ghost k = node.slot();
        let ghost c = old_t.loc@[k].0;
        let ghost p = old_t.loc@[k].1;
        let ghost l = old_t.chains@[c];
        proof {
            assert(old_t.placed(k));
            old_t.lemma_chain(k);
            if p + 1 < l.len() {
                assert(old_t.placed(l[p + 1]));
            }
            if p > 0 {
                assert(old_t.placed(l[p - 1]));
            }
        }
        token.set_prev(node, None);
        token.set_next(node, None);
        let old_prev = match prev_w {
            Some(w) => w.upgrade(&token.token),
            None => None,
        };
        match old_next {
            Some(x) => {
                let w = match old_prev {
                    Some(pp) => Some(pp.downgrade()),
                    None => None,
                };
                token.set_prev(&x, w);
            },
            None => {},
        }
        match old_prev {
            Some(pp) => {
                token.set_next(&pp, old_next);
            },
            None => {},
        }
        let ghost n = old_t.len();
        let ghost big = old_t.chains@.len() as int;
        token.chains = Ghost(old_t.chains@.update(c, l.remove(p)).push(seq![k]));
        token.loc = Ghost(
            Seq::new(
                n as nat,
                |i: int|
                    if i == k {
                        (big, 0int)
                    } else if old_t.loc@[i].0 == c && old_t.loc@[i].1 > p {
                        (c, old_t.loc@[i].1 - 1)
                    } else {
                        old_t.loc@[i]
                    },
            ),
        );
        proof {
            assert forall|i: int| 0 <= i < n implies #[trigger] token.data(i) == old_t.data(i) by {}
            assert forall|i: int| 0 <= i < n implies #[trigger] token.placed(i) by {
                assert(old_t.placed(i));
                if old_t.loc@[i].0 == c {
                    let q = old_t.loc@[i].1;
                    if q + 1 < l.len() {
                        assert(old_t.member(c, q + 1));
                    }
                    if q > 0 {
                        assert(old_t.member(c, q - 1));
                    }
                    if q + 2 < l.len() {
                        assert(old_t.member(c, q + 2));
                    }
                    if q > 1 {
                        assert(old_t.member(c, q - 2));
                    }
                } else {
                    let (ci, q) = old_t.loc@[i];
                    if q + 1 < old_t.chains@[ci].len() {
                        assert(old_t.member(ci, q + 1));
                    }
                    if q > 0 {
                        assert(old_t.member(ci, q - 1));
                    }
                }
            }
            assert forall|cc: int, q: int| 0 <= cc < token.chains@.len() && 0 <= q < token.chains@[cc].len()
                implies #[trigger] token.member(cc, q) by {
                if cc == c {
                    if q < p {
                        assert(old_t.member(c, q));
                    } else {
                        assert(old_t.member(c, q + 1));
                    }
                } else if cc < big {
                    assert(old_t.member(cc, q));
                }
            }
            assert forall|i: int| 0 <= i < n && i != k implies #[trigger] token.chain(i) == remaining(&old_t, k, i) by {
                assert(old_t.placed(i));
                if old_t.chain(i).contains(k) {
                    let q = choose|q: int| 0 <= q < old_t.chain(i).len() && old_t.chain(i)[q] == k;
                    assert(old_t.member(old_t.loc@[i].0, q));
                }
            }
        }
        Ok(())
    }
}

impl<T> ListToken<T> {
    /// Links the detached node `b` in right after `a`.
    fn splice_after(&mut self, a: &NodePtr, b: &NodePtr)
        requires
            old(self).wf(),
            old(self).owns(*a),
            old(self).owns(*b),
            a.slot() != b.slot(),
            old(self).chain(b.slot()) == seq![b.slot()],
        ensures
            final(self).wf(),
            final(self).brand() == old(self).brand(),
            final(self).len() == old(self).len(),
            forall|i: int| 0 <= i < old(self).len() ==> #[trigger] final(self).data(i) == old(self).data(i),
            final(self).chain(a.slot()) == old(self).chain(a.slot()).insert(old(self).pos(a.slot()) + 1, b.slot()),
            final(self).pos(a.slot()) == old(self).pos(a.slot()),
            final(self).chain(b.slot()) == final(self).chain(a.slot()),
            final(self).pos(b.slot()) == old(self).pos(a.slot()) + 1,
            forall|i: int| #[trigger] final(self).live(i) == old(self).live(i),
            forall|i: int| 0 <= i < old(self).len() && i != b.slot() && !old(self).chain(a.slot()).contains(i)
                ==> #[trigger] final(self).chain(i) == old(self).chain(i),
    {
        let ghost old_t = *self;
        let ghost ka = a.slot();
        let ghost kb = b.slot();
        let ghost c = old_t.loc@[ka].0;
        let ghost p = old_t.loc@[ka].1;
        let ghost cb = old_t.loc@[kb].0;
        let ghost l = old_t.chains@[c];
        proof {
            assert(old_t.placed(ka));
            assert(old_t.placed(kb));
            old_t.lemma_chain(ka);
            old_t.lemma_chain(kb);
            if p + 1 < l.len() {
                assert(old_t.placed(l[p + 1]));
            }
        }
        let old_next = match self.get(a) {
            Ok(n) => n.next,
            Err(_) => None,
        };
        match old_next {
            Some(x) => {
                self.set_prev(&x, Some(b.downgrade()));
            },
            None => {},
        }
        self.set_prev(b, Some(a.downgrade()));
        self.set_next(b, old_next);
        self.set_next(a, Some(*b));
        let ghost n = old_t.len();
        self.chains = Ghost(old_t.chains@.update(c, l.insert(p + 1, kb)).update(cb, Seq::empty()));
        self.loc = Ghost(
            Seq::new(
                n as nat,
                |i: int|
                    if i == kb {
                        (c, p + 1)
                    } else if old_t.loc@[i].0 == c && old_t.loc@[i].1 > p {
                        (c, old_t.loc@[i].1 + 1)
                    } else {
                        old_t.loc@[i]
                    },
            ),
        );
        proof {
            assert(cb != c);
            assert forall|i: int| 0 <= i < n implies #[trigger] self.data(i) == old_t.data(i) by {}
            assert forall|i: int| 0 <= i < n implies #[trigger] self.placed(i) by {
                assert(old_t.placed(i));
                if old_t.loc@[i].0 == c {
                    let q = old_t.loc@[i].1;
                    if q + 1 < l.len() {
                        assert(old_t.member(c, q + 1));
                    }
                    if q > 0 {
                        assert(old_t.member(c, q - 1));
                    }
                } else if i != kb {
                    let (ci, q) = old_t.loc@[i];
                    if q + 1 < old_t.chains@[ci].len() {
                        assert(old_t.member(ci, q + 1));
                    }
                    if q > 0 {
                        assert(old_t.member(ci, q - 1));
                    }
                }
            }
            assert forall|cc: int, q: int| 0 <= cc < self.chains@.len() && 0 <= q < self.chains@[cc].len()
                implies #[trigger] self.member(cc, q) by {
                if cc == c {
                    if q <= p {
                        assert(old_t.member(c, q));
                    } else if q > p + 1 {
                        assert(old_t.member(c, q - 1));
                    }
                } else if cc != cb {
                    assert(old_t.member(cc, q));
                }
            }
            assert forall|i: int| 0 <= i < n && i != kb && !old_t.chain(ka).contains(i)
                implies #[trigger] self.chain(i) == old_t.chain(i) by {
                assert(old_t.placed(i));
                if old_t.loc@[i].0 == c {
                    assert(old_t.chain(ka)[old_t.pos(i)] == i);
                }
            }
        }
    }
}

impl<T> Node<T> {
    /// Moves `node2` to the place right after `node1`: it is first taken off
    /// whatever list it was on, then linked in between `node1` and the node
    /// that followed `node1`.
    pub fn insert_next(node1: &NodePtr, node2: &NodePtr, token: &mut ListToken<T>) -> (r: Result<(), CellError>)
        requires
            old(token).wf(),
        ensures
            r is Ok <==> old(token).owns(*node1) && old(token).owns(*node2) && node1.slot() != node2.slot(),
            r matches Err(e) ==> *final(token) == *old(token) && e == (if !old(token).owns(*node1) {
                old(token).refusal(*node1)
            } else if !old(token).owns(*node2) {
                old(token).refusal(*node2)
            } else {
                CellError::AliasViolation
            }),
            r is Ok ==> inserted(old(token), final(token), node1.slot(), node2.slot()),
    {
        if let Err(e) = token.get(node1) {
            return Err(e);
        }
        if let Err(e) = token.get(node2) {
            return Err(e);
        }
        if node1.same_cell(node2) {
            return Err(CellError::AliasViolation);
        }
        let ghost old_t = *token;
        let _ = Node::remove(node2, token);
        let ghost mid = *token;
        token.splice_after(node1, node2);
        proof {
            let a = node1.slot();
            let b = node2.slot();
            let fin = *token;
            mid.lemma_chain(a);
            assert(mid.chain(a) == remaining(&old_t, b, a));
            assert(fin.chain(a).remove(fin.pos(b)) =~= mid.chain(a));
            assert forall|i: int| 0 <= i < old_t.len() && !fin.chain(a).contains(i)
                implies #[trigger] fin.chain(i) == remaining(&old_t, b, i) by {
                if i == b {
                    assert(fin.chain(a)[fin.pos(b)] == b);
                } else if mid.chain(a).contains(i) {
                    let q = choose|q: int| 0 <= q < mid.chain(a).len() && mid.chain(a)[q] == i;
                    if q <= mid.pos(a) {
                        assert(fin.chain(a)[q] == i);
                    } else {
                        assert(fin.chain(a)[q + 1] == i);
                    }
                }
            }
        }
        Ok(())
    }
}

/// `after` is `before` with slot `b` moved to the place right after slot `a`:
/// `b` left its own list, which closed up, and joined the list of `a`.
pub open spec fn inserted<T>(before: &ListToken<T>, after: &ListToken<T>, a: int, b: int) -> bool {
    &&& after.wf()
    &&& forall|i: int| #[trigger] after.live(i) == before.live(i)
    &&& after.brand() == before.brand()
    &&& after.len() == before.len()
    &&& forall|i: int| 0 <= i < before.len() ==> #[trigger] after.data(i) == before.data(i)
    &&& after.chain(b) == after.chain(a)
    &&& after.pos(b) == after.pos(a) + 1
    &&& after.chain(a).remove(after.pos(b)) == remaining(before, b, a)
    &&& forall|i: int| 0 <= i < before.len() && !after.chain(a).contains(i)
        ==> #[trigger] after.chain(i) == remaining(before, b, i)
}

impl<T> ListToken<T> {
    /// Two tokens that put slot `i` on the same list put it at the same place.
    pub proof fn lemma_same_pos(&self, other: &ListToken<T>, i: int)
        requires
            self.wf(),
            other.wf(),
            0 <= i < self.len(),
            0 <= i < other.len(),
            self.chain(i) == other.chain(i),
        ensures
            self.pos(i) == other.pos(i),
    {
        self.lemma_chain(i);
        other.lemma_chain(i);
    }

    /// The list through slot `a` after a move of `b` there is the list it
    /// had once `b` left, with `b` put in.
    pub proof fn lemma_inserted_chain(before: &ListToken<T>, after: &ListToken<T>, a: int, b: int)
        requires
            before.wf(),
            0 <= a < before.len(),
            0 <= b < before.len(),
            inserted(before, after, a, b),
        ensures
            after.chain(a) == remaining(before, b, a).insert(after.pos(b), b),
            forall|x: int| after.chain(a).contains(x) <==> (x == b || remaining(before, b, a).contains(x)),
    {
        after.lemma_chain(b);
        let s = after.chain(a);
        let k = after.pos(b);
        assert(s =~= s.remove(k).insert(k, b));
        let r = remaining(before, b, a);
        assert forall|x: int| s.contains(x) <==> (x == b || r.contains(x)) by {
            if s.contains(x) {
                let q = choose|q: int| 0 <= q < s.len() && s[q] == x;
                if q < k {
                    assert(r[q] == x);
                } else if q > k {
                    assert(r[q - 1] == x);
                }
            }
            if r.contains(x) {
                let q = choose|q: int| 0 <= q < r.len() && r[q] == x;
                if q < k {
                    assert(s[q] == x);
                } else {
                    assert(s[q + 1] == x);
                }
            }
            if x == b {
                assert(s[k] == b);
            }
        }
    }
}

impl<T> Node<T> {
    /// The strong link to the next node.
    pub fn next(&self) -> (r: Option<&NodePtr>)
        ensures
            r == match self.next_link() {
                Some(p) => Some(&p),
                None => None::<&NodePtr>,
            },
    {
        match &self.next {
            Some(p) => Some(p),
            None => None,
        }
    }

    /// The weak link to the previous node.
    pub fn prev_weak(&self) -> (r: Option<&WeakNodePtr>)
        ensures
            r == match self.prev_link() {
                Some(w) => Some(&w),
                None => None::<&WeakNodePtr>,
            },
    {
        match &self.prev {
            Some(w) => Some(w),
            None => None,
        }
    }

    /// The previous node, where the weak link resolves through `token`.
    pub fn prev(&self, token: &ListToken<T>) -> (r: Option<NodePtr>)
        ensures
            r is Some <==> (self.prev_link() matches Some(w) && w.brand() == token.brand() && 0 <= w.slot() < token.len()
                && token.live(w.slot())),
            r matches Some(p) ==> p.brand() == token.brand() && (self.prev_link() matches Some(w) && p.slot() == w.slot()),
    {
        match &self.prev {
            Some(w) => w.upgrade(&token.token),
            None => None,
        }
    }

    /// The values of the list from `head` on, in order.
    pub fn view_as_vec<'a>(head: Option<&NodePtr>, token: &'a ListToken<T>) -> (r: Result<Vec<&'a T>, CellError>)
        requires
            token.wf(),
        ensures
            r is Err <==> (head matches Some(h) && !token.owns(*h)),
            r matches Err(e) ==> (head matches Some(h) && e == token.refusal(*h)),
            r matches Ok(v) ==> v@.map_values(|x: &T| *x) == match head {
                Some(h) => token.values_from(h.slot()),
                None => Seq::<T>::empty(),
            },
    {
        let h = match head {
            Some(h) => h,
            None => {
                return Ok(Vec::new());
            },
        };
        if let Err(e) = token.get(h) {
            return Err(e);
        }
        let ghost l = token.chain(h.slot());
        let ghost start = token.pos(h.slot());
        proof {
            token.lemma_chain(h.slot());
        }
        let mut v: Vec<&'a T> = Vec::new();
        let mut cur: Option<NodePtr> = Some(*h);
        let ghost mut j: int = start;
        loop
            invariant
                token.wf(),
                0 <= start <= j <= l.len(),
                l == token.chain(h.slot()),
                start == token.pos(h.slot()),
                forall|q: int| 0 <= q < l.len() ==> 0 <= #[trigger] l[q] < token.len()
                    && token.chain(l[q]) == l && token.pos(l[q]) == q,
                cur is Some <==> j < l.len(),
                cur matches Some(p) ==> token.owns(p) && p.slot() == l[j],
                v@.map_values(|x: &T| *x) == l.subrange(start, j).map_values(|i: int| token.data(i)),
            ensures
                v@.map_values(|x: &T| *x) == l.subrange(start, l.len() as int).map_values(|i: int| token.data(i)),
            decreases l.len() - j,
        {
            let p = match cur {
                Some(p) => p,
                None => {
                    break;
                },
            };
            let n = match token.get(&p) {
                Ok(n) => n,
                Err(_) => {
                    proof {
                        assert(false);
                    }
                    break;
                },
            };
            proof {
                assert(token.placed(p.slot()));
                assert(l.subrange(start, j + 1) == l.subrange(start, j).push(l[j]));
            }
            let ghost before = v@;
            v.push(&n.data);
            cur = n.next;
            proof {
                assert(v@.map_values(|x: &T| *x) =~= before.map_values(|x: &T| *x).push(n.data));
                assert(l.subrange(start, j + 1).map_values(|i: int| token.data(i)) =~= l.subrange(start, j).map_values(
                    |i: int| token.data(i),
                ).push(token.data(l[j])));
                j = j + 1;
                if j < l.len() {
                    assert(0 <= l[j] < token.len());
                    assert(token.placed(l[j]));
                }
            }
        }
        Ok(v)
    }
}

impl<T> Node<T> {
    /// A new list holding `elements` in order, or `None` for no elements.
    pub fn from_iter(token: &mut ListToken<T>, elements: Vec<T>) -> (r: Option<NodePtr>)
        requires
            old(token).wf(),
            old(token).len() + elements@.len() < usize::MAX,
        ensures
            final(token).wf(),
            final(token).brand() == old(token).brand(),
            final(token).len() == old(token).len() + elements@.len(),
            built(old(token), final(token), elements@, r),
            forall|i: int| 0 <= i < old(token).len() ==> #[trigger] final(token).data(i) == old(token).data(i)
                && final(token).chain(i) == old(token).chain(i),
    {
        let ghost old_t = *token;
        let ghost base = old_t.len() as int;
        let ghost all = elements@;
        let mut rest = elements;
        if rest.len() == 0 {
            return None;
        }
        let first = rest.remove(0);
        let head = Node::new(first, token);
        let mut tail = head;
        let ghost mut m: int = 1;
        proof {
            token.lemma_chain(base);
            assert forall|i: int| 0 <= i < base implies #[trigger] token.chain(i) == old_t.chain(i) by {
                assert(token.data(i) == old_t.data(i));
            }
        }
        while rest.len() > 0
            invariant
                token.wf(),
                token.brand() == old_t.brand(),
                1 <= m <= all.len(),
                0 <= base,
                base + all.len() < usize::MAX,
                token.len() == base + m,
                rest@ == all.subrange(m, all.len() as int),
                head.brand() == old_t.brand(),
                head.slot() == base,
                tail.brand() == old_t.brand(),
                tail.slot() == base + m - 1,
                token.live(base),
                token.live(tail.slot()),
                token.chain(base) == Seq::new(m as nat, |q: int| base + q),
                token.pos(base) == 0,
                forall|q: int| 0 <= q < m ==> #[trigger] token.data(base + q) == all[q],
                forall|i: int| 0 <= i < base ==> #[trigger] token.data(i) == old_t.data(i),
                forall|i: int| 0 <= i < base ==> #[trigger] token.chain(i) == old_t.chain(i),
            decreases rest@.len(),
        {
            let ghost t0 = *token;
            let e = rest.remove(0);
            let nn = Node::new(e, token);
            let ghost t1 = *token;
            let _ = Node::insert_next(&tail, &nn, token);
            proof {
                let l = Seq::new(m as nat, |q: int| base + q);
                let k = nn.slot();
                let ta = tail.slot();
                t0.lemma_chain(base);
                assert(t1.data(base) == t0.data(base));
                assert(token.live(base) == t1.live(base));
                assert(t0.chain(base)[m - 1] == ta);
                assert(t1.data(ta) == t0.data(ta));
                assert(t1.chain(ta) == l);
                assert(!l.contains(k));
                assert(remaining(&t1, k, ta) == l);
                ListToken::lemma_inserted_chain(&t1, &*token, ta, k);
                token.lemma_chain(ta);
                let s = token.chain(ta);
                let kk = token.pos(k);
                assert(s[kk - 1] == l[kk - 1]);
                assert(kk == m);
                assert(s =~= Seq::new((m + 1) as nat, |q: int| base + q));
                assert(s[0] == base);
                assert(token.chain(base) == s);
                assert forall|q: int| 0 <= q < m + 1 implies #[trigger] token.data(base + q) == all[q] by {
                    if q < m {
                        assert(t0.data(base + q) == all[q]);
                    }
                }
                assert forall|i: int| 0 <= i < base implies #[trigger] token.chain(i) == old_t.chain(i) by {
                    assert(t0.data(i) == old_t.data(i));
                    assert(t1.data(i) == t0.data(i));
                    if l.contains(i) {
                        let q = choose|q: int| 0 <= q < l.len() && l[q] == i;
                        assert(l[q] == base + q);
                    }
                    assert(!s.contains(i));
                    if t1.chain(i).contains(k) {
                        t1.lemma_chain(i);
                        let q = choose|q: int| 0 <= q < t1.chain(i).len() && t1.chain(i)[q] == k;
                        assert(t1.chain(k) == t1.chain(i));
                        assert(t1.chain(k)[q] == k);
                    }
                    assert(token.chain(i) == remaining(&t1, k, i));
                }
                assert(rest@ == all.subrange(m + 1, all.len() as int));
                m = m + 1;
            }
            tail = nn;
        }
        proof {
            let l = token.chain(base);
            assert(l.subrange(0, l.len() as int).map_values(|j: int| token.data(j)) =~= all);
        }
        Some(head)
    }
}

/// In every well-formed state, which every list operation keeps, the forward
/// link of a node leads to the node after it on its list, and its back link to
/// the node before it; the head has no back link and the last node no forward
/// link.
pub proof fn lemma_links_follow_list<T>(t: &ListToken<T>, i: int)
    requires
        t.wf(),
        0 <= i < t.len(),
    ensures
        match t.node(i).next_link() {
            Some(x) => t.pos(i) + 1 < t.chain(i).len() && x.slot() == t.chain(i)[t.pos(i) + 1] && x.brand() == t.brand()
                && t.owns(x),
            None => t.pos(i) + 1 == t.chain(i).len(),
        },
        match t.node(i).prev_link() {
            Some(w) => t.pos(i) > 0 && w.slot() == t.chain(i)[t.pos(i) - 1] && w.brand() == t.brand()
                && t.live(w.slot()),
            None => t.pos(i) == 0,
        },
{
    assert(t.placed(i));
    t.lemma_chain(i);
    let l = t.chain(i);
    let p = t.pos(i);
    if p + 1 < l.len() {
        assert(t.placed(l[p + 1]));
    }
    if p > 0 {
        assert(t.placed(l[p - 1]));
    }
}

/// Taking a detached node off its list changes no list at all.
pub proof fn lemma_remove_detached<T>(before: &ListToken<T>, after: &ListToken<T>, k: int)
    requires
        before.wf(),
        0 <= k < before.len(),
        before.chain(k) == seq![k],
        removed(before, after, k),
    ensures
        forall|i: int| 0 <= i < before.len() ==> #[trigger] after.chain(i) == before.chain(i),
        forall|i: int| 0 <= i < before.len() ==> #[trigger] after.pos(i) == before.pos(i),
        forall|i: int| 0 <= i < before.len() ==> #[trigger] after.data(i) == before.data(i),
{
    assert forall|i: int| 0 <= i < before.len() implies #[trigger] after.chain(i) == before.chain(i) by {
        if i != k && before.chain(i).contains(k) {
            before.lemma_chain(i);
            let q = choose|q: int| 0 <= q < before.chain(i).len() && before.chain(i)[q] == k;
            assert(before.chain(k) == before.chain(i));
            assert(before.chain(k)[before.pos(i)] == i);
        }
    }
    assert forall|i: int| 0 <= i < before.len() implies #[trigger] after.pos(i) == before.pos(i) by {
        assert(after.chain(i) == before.chain(i));
        before.lemma_same_pos(after, i);
    }
}

/// Taking a node off its list twice leaves the lists as the first time did.
pub proof fn lemma_remove_twice<T>(t0: &ListToken<T>, t1: &ListToken<T>, t2: &ListToken<T>, k: int)
    requires
        t0.wf(),
        0 <= k < t0.len(),
        removed(t0, t1, k),
        removed(t1, t2, k),
    ensures
        forall|i: int| 0 <= i < t1.len() ==> #[trigger] t2.chain(i) == t1.chain(i),
        forall|i: int| 0 <= i < t1.len() ==> #[trigger] t2.pos(i) == t1.pos(i),
        forall|i: int| 0 <= i < t1.len() ==> #[trigger] t2.data(i) == t1.data(i),
{
    lemma_remove_detached(t1, t2, k);
}

/// Moving node `b` from between `x` and `y` to the place after `a` links `x`
/// and `y` directly to each other, and puts `b` right after `a`. (With `a` equal
/// to `x`, `b` goes straight back between them.)
pub proof fn lemma_move_closes_gap<T>(before: &ListToken<T>, after: &ListToken<T>, a: int, b: int, x: int, y: int)
    requires
        before.wf(),
        0 <= a < before.len(),
        0 <= b < before.len(),
        0 <= x < before.len(),
        0 <= y < before.len(),
        before.pos(b) > 0,
        before.chain(b)[before.pos(b) - 1] == x,
        before.pos(b) + 1 < before.chain(b).len(),
        before.chain(b)[before.pos(b) + 1] == y,
        a != x,
        inserted(before, after, a, b),
    ensures
        after.chain(b) == after.chain(a),
        after.pos(b) == after.pos(a) + 1,
        after.chain(x) == after.chain(y),
        after.pos(y) == after.pos(x) + 1,
{
    let l = before.chain(b);
    let p = before.pos(b);
    let r = l.remove(p);
    before.lemma_chain(b);
    assert(before.chain(x) == l && before.chain(y) == l);
    assert(remaining(before, b, x) == r);
    assert(remaining(before, b, y) == r);
    assert(r[p - 1] == x && r[p] == y);
    ListToken::lemma_inserted_chain(before, after, a, b);
    let ra = remaining(before, b, a);
    if ra.contains(x) || ra.contains(y) {
        before.lemma_chain(a);
        if !before.chain(a).contains(b) {
            if ra.contains(x) {
                let q = choose|q: int| 0 <= q < ra.len() && ra[q] == x;
                assert(before.chain(x) == before.chain(a));
            } else {
                let q = choose|q: int| 0 <= q < ra.len() && ra[q] == y;
                assert(before.chain(y) == before.chain(a));
            }
            assert(l[p] == b);
        }
        assert(ra == r);
        after.lemma_chain(a);
        let sq = after.chain(a);
        let k = after.pos(b);
        after.lemma_chain(b);
        if k <= p - 1 {
            assert(sq[p] == x && sq[p + 1] == y);
            assert(after.chain(x) == sq && after.pos(x) == p);
            assert(after.chain(y) == sq && after.pos(y) == p + 1);
        } else if k >= p + 1 {
            assert(sq[p - 1] == x && sq[p] == y);
            assert(after.chain(x) == sq && after.pos(x) == p - 1);
            assert(after.chain(y) == sq && after.pos(y) == p);
        } else {
            assert(sq[k - 1] == a);
        }
    } else {
        assert(!after.chain(a).contains(x));
        assert(!after.chain(a).contains(y));
        assert(after.chain(x) == r && after.chain(y) == r);
        after.lemma_chain(x);
        after.lemma_chain(y);
        assert(after.pos(x) == p - 1);
        assert(after.pos(y) == p);
    }
}

impl<T> ListToken<T> {
    /// Puts `value` into node `p` and hands back the value it held; the links
    /// stay as they are.
    pub fn replace_data(&mut self, p: &NodePtr, value: T) -> (r: Result<T, CellError>)
        requires
            old(self).wf(),
        ensures
            r is Ok <==> old(self).owns(*p),
            r matches Err(e) ==> e == old(self).refusal(*p) && *final(self) == *old(self),
            r matches Ok(d) ==> d == old(self).data(p.slot()) && same_shape(old(self), final(self))
                && final(self).data(p.slot()) == value
                && forall|i: int| 0 <= i < old(self).len() && i != p.slot() ==> #[trigger] final(self).data(i) == old(self).data(i),
    {
        let ghost old_t = *self;
        let r = match self.token.write(p) {
            Ok(n) => {
                let mut v = value;
                std::mem::swap(&mut n.data, &mut v);
                Ok(v)
            },
            Err(e) => Err(e),
        };
        proof {
            assert forall|i: int| 0 <= i < self.len() implies #[trigger] self.placed(i) by {
                assert(old_t.placed(i));
            }
            assert forall|c: int, q: int| 0 <= c < self.chains@.len() && 0 <= q < self.chains@[c].len()
                implies #[trigger] self.member(c, q) by {
                assert(old_t.member(c, q));
            }
        }
        r
    }

    /// Exchanges the values of two distinct nodes, through one exclusive view of each.
    pub fn swap_data(&mut self, a: &NodePtr, b: &NodePtr) -> (r: Result<(), CellError>)
        requires
            old(self).wf(),
        ensures
            r is Ok <==> old(self).owns(*a) && old(self).owns(*b) && a.slot() != b.slot(),
            r matches Err(e) ==> *final(self) == *old(self) && e == (if !old(self).owns(*a) {
                old(self).refusal(*a)
            } else if !old(self).owns(*b) {
                old(self).refusal(*b)
            } else {
                CellError::AliasViolation
            }),
            r is Ok ==> same_shape(old(self), final(self))
                && final(self).data(a.slot()) == old(self).data(b.slot())
                && final(self).data(b.slot()) == old(self).data(a.slot())
                && forall|i: int| 0 <= i < old(self).len() && i != a.slot() && i != b.slot()
                    ==> #[trigger] final(self).data(i) == old(self).data(i),
    {
        let ghost old_t = *self;
        match self.token.write2(a, b) {
            Ok((na, nb)) => {
                std::mem::swap(&mut na.data, &mut nb.data);
            },
            Err(e) => {
                return Err(e);
            },
        }
        proof {
            assert forall|i: int| 0 <= i < self.len() implies #[trigger] self.placed(i) by {
                assert(old_t.placed(i));
            }
            assert forall|c: int, q: int| 0 <= c < self.chains@.len() && 0 <= q < self.chains@[c].len()
                implies #[trigger] self.member(c, q) by {
                assert(old_t.member(c, q));
            }
        }
        Ok(())
    }
}

/// `after` has the lists of `before`, node for node; only values may differ.
pub open spec fn same_shape<T>(before: &ListToken<T>, after: &ListToken<T>) -> bool {
    &&& after.wf()
    &&& forall|i: int| #[trigger] after.live(i) == before.live(i)
    &&& after.brand() == before.brand()
    &&& after.len() == before.len()
    &&& forall|i: int| 0 <= i < before.len() ==> #[trigger] after.chain(i) == before.chain(i)
    &&& forall|i: int| 0 <= i < before.len() ==> #[trigger] after.pos(i) == before.pos(i)
}

impl<T> ListToken<T> {
    /// Moving a detached node `b` after `a` puts it into the list of `a` right
    /// after `a`, and leaves every other list as it was.
    pub proof fn lemma_insert_detached(before: &ListToken<T>, after: &ListToken<T>, a: int, b: int)
        requires
            before.wf(),
            0 <= a < before.len(),
            0 <= b < before.len(),
            a != b,
            before.chain(b) == seq![b],
            inserted(before, after, a, b),
        ensures
            after.chain(a) == before.chain(a).insert(before.pos(a) + 1, b),
            after.pos(a) == before.pos(a),
            after.pos(b) == before.pos(a) + 1,
            forall|i: int| 0 <= i < before.len() && i != b && !before.chain(a).contains(i)
                ==> #[trigger] after.chain(i) == before.chain(i),
    {
        before.lemma_chain(a);
        before.lemma_chain(b);
        let l = before.chain(a);
        assert(!l.contains(b)) by {
            if l.contains(b) {
                let q = choose|q: int| 0 <= q < l.len() && l[q] == b;
                assert(before.chain(b) == l);
                assert(l[before.pos(a)] == a);
            }
        }
        assert(remaining(before, b, a) == l);
        ListToken::lemma_inserted_chain(before, after, a, b);
        after.lemma_chain(a);
        let sq = after.chain(a);
        let k = after.pos(b);
        assert(sq[k - 1] == a);
        assert(l[k - 1] == a);
        assert(k - 1 == before.pos(a));
        assert forall|i: int| 0 <= i < before.len() && i != b && !l.contains(i)
            implies #[trigger] after.chain(i) == before.chain(i) by {
            if before.chain(i).contains(b) {
                before.lemma_chain(i);
                let q = choose|q: int| 0 <= q < before.chain(i).len() && before.chain(i)[q] == b;
                assert(before.chain(b) == before.chain(i));
                assert(before.chain(b)[before.pos(i)] == i);
            }
        }
    }
}

/// The values from slot `i` on are its own value, then those from the node its
/// forward link leads to.
pub proof fn lemma_values_step<T>(t: &ListToken<T>, i: int)
    requires
        t.wf(),
        0 <= i < t.len(),
    ensures
        t.values_from(i) == seq![t.data(i)] + match t.node(i).next_link() {
            Some(x) => t.values_from(x.slot()),
            None => Seq::<T>::empty(),
        },
{
    lemma_links_follow_list(t, i);
    t.lemma_chain(i);
    let l = t.chain(i);
    let p = t.pos(i);
    match t.node(i).next_link() {
        Some(x) => {
            assert(t.chain(x.slot()) == l && t.pos(x.slot()) == p + 1);
            assert(t.values_from(i) =~= seq![t.data(i)] + t.values_from(x.slot()));
        },
        None => {
            assert(t.values_from(i) =~= seq![t.data(i)]);
        },
    }
}

/// Walks a list forward, handing out shared views of its values.
pub struct Iter<'a, T> {
    cur: Option<NodePtr>,
    token: &'a ListToken<T>,
}

impl<'a, T> View for Iter<'a, T> {
    type V = Seq<T>;

    /// The values still to come.
    closed spec fn view(&self) -> Seq<T> {
        match self.cur {
            Some(p) => if self.token.owns(p) {
                self.token.values_from(p.slot())
            } else {
                Seq::empty()
            },
            None => Seq::empty(),
        }
    }
}

impl<'a, T> Iter<'a, T> {
    pub closed spec fn wf(&self) -> bool {
        self.token.wf()
    }

    /// The next value, if any.
    pub fn next(&mut self) -> (r: Option<&'a T>)
        requires
            old(self).wf(),
        ensures
            final(self).wf(),
            r is None <==> old(self)@.len() == 0,
            r matches Some(v) ==> old(self)@ == seq![*v] + final(self)@,
            r is None ==> final(self)@.len() == 0,
    {
        let p = match self.cur {
            Some(p) => p,
            None => {
                return None;
            },
        };
        match self.token.get(&p) {
            Ok(n) => {
                proof {
                    lemma_values_step(self.token, p.slot());
                    lemma_links_follow_list(self.token, p.slot());
                    self.token.lemma_chain(p.slot());
                    if let Some(x) = n.next_link() {
                        assert(self.token.placed(x.slot()));
                        assert(self.token.owns(x));
                    }
                }
                self.cur = n.next;
                Some(&n.data)
            },
            Err(_) => {
                self.cur = None;
                None
            },
        }
    }
}

impl<T> Node<T> {
    /// A walk over the list from `node` on.
    pub fn iter<'a>(node: &NodePtr, token: &'a ListToken<T>) -> (r: Iter<'a, T>)
        requires
            token.wf(),
        ensures
            r.wf(),
            r@ == if token.owns(*node) {
                token.values_from(node.slot())
            } else {
                Seq::<T>::empty()
            },
    {
        Iter { cur: Some(*node), token }
    }
}

impl<T> Node<T> {
    /// Calls `f` on each value of the list from `node` on, in order.
    pub fn iterate<F: Fn(&T)>(node: &NodePtr, token: &ListToken<T>, f: F)
        requires
            token.wf(),
            forall|x: &T| #[trigger] f.requires((x,)),
    {
        let mut it = Node::iter(node, token);
        loop
            invariant
                it.wf(),
                forall|x: &T| #[trigger] f.requires((x,)),
            decreases it@.len(),
        {
            match it.next() {
                Some(v) => {
                    f(v);
                },
                None => {
                    break;
                },
            }
        }
    }

    /// Calls `f` on each value of the list from `node` on, in order, with
    /// exclusive access to it; the links stay as they are.
    pub fn iter_mut<F: FnMut(&mut T)>(node: &NodePtr, token: &mut ListToken<T>, f: F)
        requires
            old(token).wf(),
            forall|x: &mut T| #[trigger] f.requires((x,)),
        ensures
            same_shape(old(token), final(token)),
            !old(token).owns(*node) ==> *final(token) == *old(token),
            forall|i: int| 0 <= i < old(token).len() && !walked(old(token), node.slot()).contains(i)
                ==> #[trigger] final(token).data(i) == old(token).data(i),
    {
        let mut f = f;
        if !token.check(node) {
            return;
        }
        let ghost t0 = *token;
        let ghost l = t0.chain(node.slot());
        proof {
            t0.lemma_chain(node.slot());
        }
        let mut cur: Option<NodePtr> = Some(*node);
        let ghost mut j: int = t0.pos(node.slot());
        loop
            invariant
                token.wf(),
                same_shape(&t0, token),
                forall|x: &mut T| #[trigger] f.requires((x,)),
                0 <= j <= l.len(),
                forall|q: int| 0 <= q < l.len() ==> 0 <= #[trigger] l[q] < t0.len()
                    && t0.chain(l[q]) == l && t0.pos(l[q]) == q,
                cur is Some <==> j < l.len(),
                cur matches Some(p) ==> token.owns(p) && p.slot() == l[j],
                forall|i: int| 0 <= i < t0.len() && !walked(&t0, node.slot()).contains(i) ==> #[trigger] token.data(i) == t0.data(i),
                t0.pos(node.slot()) <= j,
                l == t0.chain(node.slot()),
                0 <= t0.pos(node.slot()) < l.len(),
            decreases l.len() - j,
        {
            let p = match cur {
                Some(p) => p,
                None => {
                    break;
                },
            };
            let ghost t1 = *token;
            proof {
                assert(t1.placed(p.slot()));
                lemma_links_follow_list(&t1, p.slot());
            }
            let next = match token.token.write(&p) {
                Ok(n) => {
                    f(&mut n.data);
                    n.next
                },
                Err(_) => None,
            };
            proof {
                assert forall|i: int| 0 <= i < token.len() implies #[trigger] token.placed(i) by {
                    assert(t1.placed(i));
                }
                assert forall|c: int, q: int| 0 <= c < token.chains@.len() && 0 <= q < token.chains@[c].len()
                    implies #[trigger] token.member(c, q) by {
                    assert(t1.member(c, q));
                }
                assert(token.chains == t1.chains && token.loc == t1.loc);
                assert forall|i: int| 0 <= i < t0.len() && !walked(&t0, node.slot()).contains(i)
                    implies #[trigger] token.data(i) == t0.data(i) by {
                    assert(l[j] == p.slot());
                    assert(walked(&t0, node.slot())[j - t0.pos(node.slot())] == l[j]);
                    assert(t1.data(i) == t0.data(i));
                }
                assert forall|i: int| 0 <= i < t0.len() implies #[trigger] token.chain(i) == t0.chain(i) by {
                    assert(t1.chain(i) == t0.chain(i));
                }
                assert forall|i: int| 0 <= i < t0.len() implies #[trigger] token.pos(i) == t0.pos(i) by {
                    assert(t1.pos(i) == t0.pos(i));
                }
                assert forall|i: int| #[trigger] token.live(i) == t0.live(i) by {
                    assert(t1.live(i) == t0.live(i));
                }
                j = j + 1;
                if j < l.len() {
                    assert(0 <= l[j] < t0.len());
                    assert(token.placed(l[j]));
                }
            }
            cur = next;
        }
    }
}

impl<T> ListToken<T> {
    /// The node a weak link points at, or `None` where it was disposed of or
    /// belongs to another token.
    pub fn upgrade(&self, w: &WeakNodePtr) -> (r: Option<NodePtr>)
        ensures
            r is Some <==> w.brand() == self.brand() && 0 <= w.slot() < self.len() && self.live(w.slot()),
            r matches Some(p) ==> p.brand() == w.brand() && p.slot() == w.slot(),
    {
        w.upgrade(&self.token)
    }
}

impl<T> Node<T> {
    /// Takes the node off its list and disposes of it: from then on it cannot
    /// be read or linked, and weak links to it upgrade to nothing.
    pub fn dispose(node: &NodePtr, token: &mut ListToken<T>) -> (r: Result<(), CellError>)
        requires
            old(token).wf(),
        ensures
            r is Ok <==> old(token).owns(*node),
            r matches Err(e) ==> e == old(token).refusal(*node) && *final(token) == *old(token),
            r is Ok ==> unlinked(old(token), final(token), node.slot()) && !final(token).live(node.slot())
                && forall|i: int| i != node.slot() ==> #[trigger] final(token).live(i) == old(token).live(i),
    {
        match Node::remove(node, token) {
            Ok(()) => {},
            Err(e) => {
                return Err(e);
            },
        }
        let ghost mid = *token;
        let _ = token.token.dispose(node);
        proof {
            assert forall|i: int| 0 <= i < token.len() implies #[trigger] token.placed(i) by {
                assert(mid.placed(i));
            }
            assert forall|c: int, q: int| 0 <= c < token.chains@.len() && 0 <= q < token.chains@[c].len()
                implies #[trigger] token.member(c, q) by {
                assert(mid.member(c, q));
            }
            assert forall|i: int| i != node.slot() implies #[trigger] token.live(i) == old(token).live(i) by {
                assert(mid.live(i) == old(token).live(i));
            }
            assert forall|i: int| 0 <= i < token.len() implies #[trigger] token.data(i) == mid.data(i) by {}
            assert forall|i: int| 0 <= i < token.len() implies #[trigger] token.chain(i) == mid.chain(i) by {}
            assert(token.wf());
            assert(!token.live(node.slot()));
        }
        Ok(())
    }
}

/// The slots met when walking forward from slot `i`.
pub open spec fn walked<T>(t: &ListToken<T>, i: int) -> Seq<int> {
    t.chain(i).subrange(t.pos(i), t.chain(i).len() as int)
}

/// `after` is `before` with a new list of `elements` added, whose head `r`
/// names (`None` for no elements); its nodes take the next free slots.
pub open spec fn built<T>(before: &ListToken<T>, after: &ListToken<T>, elements: Seq<T>, r: Option<NodePtr>) -> bool {
    &&& r is None <==> elements.len() == 0
    &&& r matches Some(h) ==> h.brand() == before.brand() && h.slot() == before.len() && after.owns(h)
        && after.pos(h.slot()) == 0 && after.values_from(h.slot()) == elements
        && after.chain(h.slot()) == Seq::new(elements.len(), |q: int| before.len() + q)
}

/// Collecting a list that was just built from `elements`, from its head on,
/// gives back `elements`, in order.
pub proof fn lemma_collect_after_build<T>(before: &ListToken<T>, after: &ListToken<T>, elements: Seq<T>, h: NodePtr)
    requires
        built(before, after, elements, Some(h)),
    ensures
        after.owns(h),
        after.values_from(h.slot()) == elements,
        elements.len() > 0,
{
}

} // verus!
