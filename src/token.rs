//! Tokens, cells and brands.
//!
//! A token owns the contents of every cell of its brand, slot by slot; a cell
//! is a copyable handle that carries the brand and the slot. Reading through a
//! handle takes a shared borrow of the token and writing an exclusive one, so
//! at most one mutable view through a token is outstanding at a time; `write2`
//! hands out two at once, for two distinct cells only. A cell that has been
//! disposed of keeps its slot, refuses every access, and weak handles to it no
//! longer upgrade.
use vstd::prelude::*;

verus! {

/// The identity that ties a token to the cells it may access.
#[derive(Clone, Copy, Debug, PartialEq, Eq, Structural)]
pub enum Brand {
    /// A brand chosen by the caller; a registry hands out at most one live token for it.
    Static(u64),
    /// A brand minted afresh by a registry for each new token.
    Dynamic(u64),
    /// A brand minted afresh for a token that is handed to one callback.
    Scoped(u64),
}

/// Why an access through a token was refused.
#[derive(Clone, Copy, Debug, PartialEq, Eq, Structural)]
pub enum CellError {
    /// The cell was not stamped by this token.
    BrandMismatch,
    /// A second token was requested for a static brand that already has a live one.
    DuplicateOwner,
    /// Two exclusive views of one cell were requested at once.
    AliasViolation,
    /// The cell has been disposed of; a weak handle to it upgrades to `None`
    /// instead.
    Disposed,
}

/// A handle to one cell; its content lives in the token that stamped it.
#[derive(Clone, Copy, Debug, PartialEq, Eq, Structural)]
pub struct Cell {
    brand: Brand,
    index: usize,
}

impl Cell {
    /// The brand the cell was stamped with.
    pub closed spec fn brand(&self) -> Brand {
        self.brand
    }

    /// The slot of the cell inside its token.
    pub closed spec fn slot(&self) -> int {
        self.index as int
    }

    /// Whether both handles name the same cell.
    pub fn same_cell(&self, other: &Cell) -> (r: bool)
        ensures
            r == (self.brand() == other.brand() && self.slot() == other.slot()),
    {
        self.brand == other.brand && self.index == other.index
    }

    /// A weak handle to the same cell.
    pub fn downgrade(&self) -> (w: WeakCell)
        ensures
            w.brand() == self.brand(),
            w.slot() == self.slot(),
    {
        WeakCell { brand: self.brand, index: self.index }
    }

    /// Stamps a new cell holding `value` with the brand of `token`.
    pub fn new<T>(token: &mut Token<T>, value: T) -> (c: Cell)
        requires
            old(token).wf(),
            old(token)@.len() < usize::MAX,
        ensures
            final(token).wf(),
            final(token).brand() == old(token).brand(),
            final(token).liveness() == old(token).liveness().push(true),
            final(token)@ == old(token)@.push(value),
            c.brand() == old(token).brand(),
            c.slot() == old(token)@.len(),
    {
        let index = token.cells.len();
        token.cells.push(value);
        token.alive.push(true);
        Cell { brand: token.brand, index }
    }
}

/// A handle to a cell that does not keep it reachable; it must be upgraded
/// through the token before use.
#[derive(Clone, Copy, Debug, PartialEq, Eq, Structural)]
pub struct WeakCell {
    brand: Brand,
    index: usize,
}

impl WeakCell {
    pub closed spec fn brand(&self) -> Brand {
        self.brand
    }

    pub closed spec fn slot(&self) -> int {
        self.index as int
    }

    /// The cell this handle points at, or `None` where that cell was disposed
    /// of or `token` has no such cell.
    pub fn upgrade<T>(&self, token: &Token<T>) -> (r: Option<Cell>)
        ensures
            r is Some <==> self.brand() == token.brand() && 0 <= self.slot() < token@.len() && token.live(self.slot()),
            r matches Some(c) ==> c.brand() == self.brand() && c.slot() == self.slot(),
    {
        let c = Cell { brand: self.brand, index: self.index };
        if token.accessible(&c) {
            Some(c)
        } else {
            None
        }
    }
}

/// The capability that owns every cell of one brand.
pub struct Token<T> {
    brand: Brand,
    cells: Vec<T>,
    alive: Vec<bool>,
}

impl<T> View for Token<T> {
    type V = Seq<T>;

    /// The contents of the cells, by slot.
    closed spec fn view(&self) -> Seq<T> {
        self.cells@
    }
}

impl<T> Token<T> {
    /// Every cell has its liveness recorded.
    pub open spec fn wf(&self) -> bool {
        self.liveness().len() == self@.len()
    }

    pub closed spec fn brand(&self) -> Brand {
        self.brand
    }

    /// For each slot, whether its cell has not been disposed of.
    pub closed spec fn liveness(&self) -> Seq<bool> {
        self.alive@
    }

    /// Whether the cell in slot `i` has not been disposed of.
    pub open spec fn live(&self, i: int) -> bool {
        0 <= i < self.liveness().len() && self.liveness()[i]
    }

    /// The brand this token was made for.
    pub fn brand_of(&self) -> (b: Brand)
        ensures
            b == self.brand(),
    {
        self.brand
    }

    /// Whether `c` was stamped by this token.
    pub open spec fn stamped(&self, c: Cell) -> bool {
        c.brand() == self.brand() && 0 <= c.slot() < self@.len()
    }

    /// Whether `c` was stamped by this token and has not been disposed of.
    pub open spec fn owns(&self, c: Cell) -> bool {
        self.stamped(c) && self.live(c.slot())
    }

    /// Why an access to `c` is refused, where it is.
    pub open spec fn refusal(&self, c: Cell) -> CellError {
        if self.stamped(c) {
            CellError::Disposed
        } else {
            CellError::BrandMismatch
        }
    }

    /// Whether the cell in `c` is accessible.
    fn accessible(&self, c: &Cell) -> (r: bool)
        ensures
            r == self.owns(*c),
    {
        c.brand == self.brand && c.index < self.cells.len() && c.index < self.alive.len() && self.alive[c.index]
    }

    /// The refusal for an inaccessible cell.
    fn refuse(&self, c: &Cell) -> (e: CellError)
        ensures
            e == self.refusal(*c),
    {
        if c.brand == self.brand && c.index < self.cells.len() {
            CellError::Disposed
        } else {
            CellError::BrandMismatch
        }
    }

    /// Disposes of the cell `c`: from now on it cannot be read or written, and
    /// weak handles to it no longer upgrade.
    pub fn dispose(&mut self, c: &Cell) -> (r: Result<(), CellError>)
        requires
            old(self).wf(),
        ensures
            final(self).wf(),
            r is Ok <==> old(self).owns(*c),
            r matches Err(e) ==> e == old(self).refusal(*c) && *final(self) == *old(self),
            r is Ok ==> final(self).brand() == old(self).brand() && final(self)@ == old(self)@
                && final(self).liveness() == old(self).liveness().update(c.slot(), false),
    {
        if !self.accessible(c) {
            return Err(self.refuse(c));
        }
        self.alive.set(c.index, false);
        Ok(())
    }

    pub fn read<'a>(&'a self, c: &Cell) -> (r: Result<&'a T, CellError>)
        ensures
            self.owns(*c) <==> r is Ok,
            r matches Ok(v) ==> *v == self@[c.slot()],
            r matches Err(e) ==> e == self.refusal(*c),
    {
        if self.accessible(c) {
            Ok(&self.cells[c.index])
        } else {
            Err(self.refuse(c))
        }
    }

    pub fn write<'a>(&'a mut self, c: &Cell) -> (r: Result<&'a mut T, CellError>)
        ensures
            old(self).owns(*c) <==> r is Ok,
            final(self).brand() == old(self).brand(),
            final(self).liveness() == old(self).liveness(),
            r matches Ok(v) ==> *v == old(self)@[c.slot()] && final(self)@ == old(self)@.update(c.slot(), *final(v)),
            old(self).wf() ==> final(self).wf(),
            r matches Err(e) ==> e == old(self).refusal(*c) && *final(self) == *old(self),
    {
        if self.accessible(c) {
            Ok(&mut self.cells[c.index])
        } else {
            Err(self.refuse(c))
        }
    }

    pub fn write2<'a>(&'a mut self, a: &Cell, b: &Cell) -> (r: Result<(&'a mut T, &'a mut T), CellError>)
        ensures
            final(self).brand() == old(self).brand(),
            r is Ok <==> old(self).owns(*a) && old(self).owns(*b) && a.slot() != b.slot(),
            r matches Ok(p) ==> *p.0 == old(self)@[a.slot()] && *p.1 == old(self)@[b.slot()]
                && final(self)@ == old(self)@.update(a.slot(), *final(p.0)).update(b.slot(), *final(p.1)),
            final(self).liveness() == old(self).liveness(),
            old(self).wf() ==> final(self).wf(),
            r matches Err(e) ==> *final(self) == *old(self) && e == (if !old(self).owns(*a) {
                old(self).refusal(*a)
            } else if !old(self).owns(*b) {
                old(self).refusal(*b)
            } else {
                CellError::AliasViolation
            }),
    {
        if !self.accessible(a) {
            return Err(self.refuse(a));
        }
        if !self.accessible(b) {
            return Err(self.refuse(b));
        }
        if a.index == b.index {
            return Err(CellError::AliasViolation);
        }
        if a.index < b.index {
            let (lo, hi) = self.cells.as_mut_slice().split_at_mut(b.index);
            Ok((&mut lo[a.index], &mut hi[0]))
        } else {
            let (lo, hi) = self.cells.as_mut_slice().split_at_mut(a.index);
            Ok((&mut hi[0], &mut lo[b.index]))
        }
    }
}


} // verus!

verus! {

/// Hands out tokens: at most one live token per static brand, and a fresh
/// brand for every dynamic or scoped token.
///
/// Brands are unique among the tokens of one registry only: two registries
/// mint the same brands, and a cell of one registry's token may then be
/// accepted by a token of the other. Tokens that must be kept apart are taken
/// from one registry.
pub struct Registry {
    issued: u64,
    live: Vec<u64>,
}

impl Registry {
    /// How many dynamic brands have been minted.
    pub closed spec fn issued(&self) -> nat {
        self.issued as nat
    }

    /// Whether a live token holds the static brand `id`.
    pub closed spec fn is_live(&self, id: u64) -> bool {
        self.live@.contains(id)
    }

    pub fn new() -> (r: Registry)
        ensures
            r.issued() == 0,
            forall|id: u64| !r.is_live(id),
    {
        Registry { issued: 0, live: Vec::new() }
    }

    /// Whether a live token holds the static brand `id`.
    pub fn holds(&self, id: u64) -> (r: bool)
        ensures
            r == self.is_live(id),
    {
        let mut i: usize = 0;
        while i < self.live.len()
            invariant
                0 <= i <= self.live@.len(),
                forall|j: int| 0 <= j < i ==> self.live@[j] != id,
            decreases self.live@.len() - i,
        {
            if self.live[i] == id {
                return true;
            }
            i = i + 1;
        }
        false
    }

    /// Retires `token`. Where it holds a static brand, a new token can be made
    /// for that brand afterwards.
    pub fn release<T>(&mut self, token: Token<T>)
        ensures
            final(self).issued() == old(self).issued(),
            forall|x: u64| #[trigger] final(self).is_live(x) == (old(self).is_live(x) && token.brand() != Brand::Static(x)),
    {
        match token.brand {
            Brand::Static(id) => self.forget(id),
            _ => {},
        }
    }

    /// Gives up the static brand `id`.
    fn forget(&mut self, id: u64)
        ensures
            final(self).issued() == old(self).issued(),
            forall|x: u64| final(self).is_live(x) == (old(self).is_live(x) && x != id),
    {
        let mut kept: Vec<u64> = Vec::new();
        let mut i: usize = 0;
        while i < self.live.len()
            invariant
                0 <= i <= self.live@.len(),
                forall|x: u64| kept@.contains(x) <==> (self.live@.subrange(0, i as int).contains(x) && x != id),
            decreases self.live@.len() - i,
        {
            let x = self.live[i];
            let ghost before = kept@;
            if x != id {
                kept.push(x);
            }
            proof {
                let s = self.live@.subrange(0, i as int);
                let t = self.live@.subrange(0, i + 1);
                assert(t == s.push(x));
                assert forall|y: u64| kept@.contains(y) <==> (t.contains(y) && y != id) by {
                    if s.contains(y) {
                        let j = choose|j: int| 0 <= j < s.len() && s[j] == y;
                        assert(t[j] == y);
                    }
                    if t.contains(y) {
                        let j = choose|j: int| 0 <= j < t.len() && t[j] == y;
                        if j < s.len() {
                            assert(s[j] == y);
                        }
                    }
                    if before.contains(y) {
                        let j = choose|j: int| 0 <= j < before.len() && before[j] == y;
                        assert(kept@[j] == y);
                    }
                    if kept@.contains(y) {
                        let j = choose|j: int| 0 <= j < kept@.len() && kept@[j] == y;
                        if j < before.len() {
                            assert(before[j] == y);
                        }
                    }
                    assert(t[t.len() - 1] == x);
                    if x != id {
                        assert(kept@[kept@.len() - 1] == x);
                    }
                }
            }
            i = i + 1;
        }
        proof {
            assert(self.live@.subrange(0, self.live@.len() as int) == self.live@);
        }
        self.live = kept;
    }
}

impl<T> Token<T> {
    /// A token under a dynamic brand that no other token of `registry` has had
    /// (tokens of another registry may have it).
    pub fn new_dynamic(registry: &mut Registry) -> (t: Token<T>)
        requires
            old(registry).issued() < u64::MAX,
        ensures
            t.wf(),
            t.brand() == Brand::Dynamic(old(registry).issued() as u64),
            t@ == Seq::<T>::empty(),
            final(registry).issued() == old(registry).issued() + 1,
            forall|x: u64| final(registry).is_live(x) == old(registry).is_live(x),
    {
        let id = registry.issued;
        registry.issued = id + 1;
        Token { brand: Brand::Dynamic(id), cells: Vec::new(), alive: Vec::new() }
    }

    /// Mints a fresh scoped brand and hands a token of it to `f`, whose result
    /// is returned. The token lives only as long as `f` keeps it.
    pub fn with_new<R, F: FnOnce(Token<T>) -> R>(registry: &mut Registry, f: F) -> (r: R)
        requires
            old(registry).issued() < u64::MAX,
            forall|t: Token<T>| t.wf() && t@.len() == 0 ==> #[trigger] f.requires((t,)),
        ensures
            final(registry).issued() == old(registry).issued() + 1,
            forall|x: u64| #[trigger] final(registry).is_live(x) == old(registry).is_live(x),
            exists|t: Token<T>|
                t.wf() && t@.len() == 0 && t.brand() == Brand::Scoped(old(registry).issued() as u64)
                    && #[trigger] f.ensures((t,), r),
    {
        let id = registry.issued;
        registry.issued = id + 1;
        let t = Token { brand: Brand::Scoped(id), cells: Vec::new(), alive: Vec::new() };
        f(t)
    }

    /// The one token of the static brand `id`; refused while another token of
    /// `registry` holds it.
    pub fn new_static(registry: &mut Registry, id: u64) -> (r: Result<Token<T>, CellError>)
        ensures
            r is Err <==> old(registry).is_live(id),
            r matches Err(e) ==> e == CellError::DuplicateOwner && *final(registry) == *old(registry),
            r matches Ok(t) ==> t.wf() && t.brand() == Brand::Static(id) && t@ == Seq::<T>::empty()
                && final(registry).issued() == old(registry).issued()
                && forall|x: u64| final(registry).is_live(x) == (old(registry).is_live(x) || x == id),
    {
        if registry.holds(id) {
            return Err(CellError::DuplicateOwner);
        }
        registry.live.push(id);
        proof {
            assert forall|x: u64| registry.is_live(x) == (old(registry).is_live(x) || x == id) by {
                assert(registry.live@ == old(registry).live@.push(id));
                if old(registry).live@.contains(x) {
                    let j = choose|j: int| 0 <= j < old(registry).live@.len() && old(registry).live@[j] == x;
                    assert(registry.live@[j] == x);
                }
                if x == id {
                    assert(registry.live@[registry.live@.len() - 1] == x);
                }
            }
        }
        Ok(Token { brand: Brand::Static(id), cells: Vec::new(), alive: Vec::new() })
    }
}

} // verus!
