//! Structures that keep their representation behind a cell, with the token
//! kept outside or inside them.
use vstd::prelude::*;
use crate::token::{Cell, CellError, Registry, Token};

verus! {

/// The representation that the structures below keep behind a cell.
pub struct Rep {
    pub a: i32,
}

/// A structure whose representation lives in a cell of a token kept elsewhere.
pub struct S1 {
    data: Cell,
}

impl S1 {
    /// The cell of the representation.
    pub closed spec fn rep(&self) -> Cell {
        self.data
    }

    /// A structure whose representation is a new cell of `token` holding `a`.
    pub fn new(a: i32, token: &mut Token<Rep>) -> (r: S1)
        requires
            old(token).wf(),
            old(token)@.len() < usize::MAX,
        ensures
            final(token).wf(),
            final(token).brand() == old(token).brand(),
            final(token)@ == old(token)@.push(Rep { a }),
            final(token).liveness() == old(token).liveness().push(true),
            r.rep().brand() == old(token).brand(),
            r.rep().slot() == old(token)@.len(),
    {
        S1 { data: Cell::new(token, Rep { a }) }
    }

    /// Shares the representation of `other`; both stay under one token.
    pub fn mix_representations(&mut self, other: &S1)
        ensures
            final(self).rep() == other.rep(),
    {
        self.data = other.data;
    }

    /// The value in the representation, read through `token`.
    pub fn value(&self, token: &Token<Rep>) -> (r: Result<i32, CellError>)
        ensures
            r is Ok <==> token.owns(self.rep()),
            r matches Ok(v) ==> v == token@[self.rep().slot()].a,
            r matches Err(e) ==> e == token.refusal(self.rep()),
    {
        match token.read(&self.data) {
            Ok(rep) => Ok(rep.a),
            Err(e) => Err(e),
        }
    }
}

/// A structure that keeps the token of its own representation.
pub struct SWithToken {
    token: Token<Rep>,
    data: Cell,
}

impl SWithToken {
    pub closed spec fn wf(&self) -> bool {
        self.token.wf() && self.token.owns(self.data)
    }

    pub closed spec fn rep(&self) -> Cell {
        self.data
    }

    pub closed spec fn owner(&self) -> Token<Rep> {
        self.token
    }

    /// The value in the representation.
    pub closed spec fn value(&self) -> i32 {
        self.token@[self.data.slot()].a
    }

    pub fn new(a: i32, token: Token<Rep>) -> (r: Self)
        requires
            token.wf(),
            token@.len() < usize::MAX,
        ensures
            r.wf(),
            r.value() == a,
            r.owner().brand() == token.brand(),
            r.rep().brand() == token.brand(),
    {
        let mut token = token;
        let data = Cell::new(&mut token, Rep { a });
        SWithToken { token, data }
    }

    /// Would take on the representation of `_other`. Two structures that each
    /// keep their own token never share a representation, so this is always
    /// refused and nothing changes.
    pub fn mix_representations_fails(&mut self, _other: &SWithToken) -> (r: Result<(), CellError>)
        ensures
            r == Err::<(), CellError>(CellError::BrandMismatch),
            *final(self) == *old(self),
    {
        Err(CellError::BrandMismatch)
    }
}

/// Two structures under one token share a representation: after the first
/// takes on the second's, it reads the second's value.
pub fn mix_representations() -> (r: Result<i32, CellError>)
    ensures
        r == Ok::<i32, CellError>(2),
{
    let mut registry = Registry::new();
    let mut token = Token::<Rep>::new_dynamic(&mut registry);
    let mut s1_1 = S1::new(1, &mut token);
    let s1_2 = S1::new(2, &mut token);
    s1_1.mix_representations(&s1_2);
    s1_1.value(&token)
}

/// Two structures that each keep their own token cannot share a representation.
pub fn mix_representations_fails() -> (r: Result<(), CellError>)
    ensures
        r == Err::<(), CellError>(CellError::BrandMismatch),
{
    let mut registry = Registry::new();
    let token1 = Token::<Rep>::new_dynamic(&mut registry);
    let token2 = Token::<Rep>::new_dynamic(&mut registry);
    let mut swt1 = SWithToken::new(1, token1);
    let swt2 = SWithToken::new(2, token2);
    swt1.mix_representations_fails(&swt2)
}

} // verus!
