//! Short uses of the tokens and lists that show what each discipline refuses.
use vstd::prelude::*;
use crate::dlist::{ListToken, Node};
use crate::list_wrapper::{init_list, ListWrapper};
use crate::token::{Cell, CellError, Registry, Token};

verus! {

/// Reads the head of a list built under one dynamic token through a second,
/// unrelated dynamic token: the brands differ, so the read is refused.
pub fn dynamic_owner_check() -> (r: Result<i32, CellError>)
    ensures
        r == Err::<i32, CellError>(CellError::BrandMismatch),
{
    let mut registry = Registry::new();
    let mut token1 = ListToken::new(Token::new_dynamic(&mut registry));
    let list1 = Node::from_iter(&mut token1, vec![1i32, 2, 3]);
    let token2 = ListToken::<i32>::new(Token::new_dynamic(&mut registry));
    match list1 {
        Some(head) => match token2.get(&head) {
            Ok(n) => Ok(*n.data()),
            Err(e) => Err(e),
        },
        None => Ok(0),
    }
}

/// Asks for a second token of a static brand while the first is live: refused.
pub fn unique_owner_restriction() -> (r: Result<(), CellError>)
    ensures
        r == Err::<(), CellError>(CellError::DuplicateOwner),
{
    let mut registry = Registry::new();
    let token1 = match Token::new_static(&mut registry, 1) {
        Ok(t) => t,
        Err(e) => {
            return Err(e);
        },
    };
    let mut token1 = ListToken::<i32>::new(token1);
    let _list1 = Node::from_iter(&mut token1, vec![1i32, 2, 3]);
    match Token::<Node<i32>>::new_static(&mut registry, 1) {
        Ok(_) => Ok(()),
        Err(e) => Err(e),
    }
}

/// Reads a list of one static brand through the token of another static brand:
/// refused.
pub fn static_owner_check() -> (r: Result<i32, CellError>)
    ensures
        r == Err::<i32, CellError>(CellError::BrandMismatch),
{
    let mut registry = Registry::new();
    let token1 = match Token::new_static(&mut registry, 1) {
        Ok(t) => t,
        Err(e) => {
            return Err(e);
        },
    };
    let token2 = match Token::new_static(&mut registry, 2) {
        Ok(t) => t,
        Err(e) => {
            return Err(e);
        },
    };
    let mut token1 = ListToken::<i32>::new(token1);
    let token2 = ListToken::<i32>::new(token2);
    let list1 = Node::from_iter(&mut token1, vec![1i32, 2, 3]);
    match list1 {
        Some(head) => match token2.get(&head) {
            Ok(n) => Ok(*n.data()),
            Err(e) => Err(e),
        },
        None => Ok(0),
    }
}

/// Asks for two exclusive views of one node through two handles of it: refused.
pub fn two_simultaneous_borrows_panic() -> (r: Result<(), CellError>)
    ensures
        r == Err::<(), CellError>(CellError::AliasViolation),
{
    let mut registry = Registry::new();
    let mut token = ListToken::<i32>::new(Token::new_dynamic(&mut registry));
    let first = match Node::from_iter(&mut token, vec![1i32]) {
        Some(h) => h,
        None => {
            return Ok(());
        },
    };
    let second = first;
    token.swap_data(&first, &second)
}

/// A wrapper that keeps the token still lends it out for reading, beside a
/// handle to its head node: the head of `0, 1, 2, 3, 4` reads as `0`.
pub fn immutable_incoming_aliases_allowed() -> (r: Result<i32, CellError>)
    ensures
        r == Ok::<i32, CellError>(0),
{
    let mut registry = Registry::new();
    let mut token = ListToken::<i32>::new(Token::new_dynamic(&mut registry));
    let (list, _tail) = init_list(&mut token, 5);
    let list_wrapper = ListWrapper::new(list, token);
    let token_alias = list_wrapper.expose_token();
    let node_alias = list_wrapper.expose_node();
    proof {
        crate::dlist::lemma_values_step(token_alias, node_alias.slot());
        assert(token_alias.values_from(node_alias.slot())[0] == 0i32);
    }
    match token_alias.get(&node_alias) {
        Ok(n) => Ok(*n.data()),
        Err(e) => Err(e),
    }
}

/// Two handles to one cell see each other's writes through the one token.
pub fn two_aliases_example() -> (r: (usize, usize, usize, usize))
    ensures
        r == (35usize, 35usize, 42usize, 42usize),
{
    let mut registry = Registry::new();
    let mut owner = Token::<usize>::new_dynamic(&mut registry);
    let ref1 = Cell::new(&mut owner, 123);
    let ref2 = ref1;
    if let Ok(v) = owner.write(&ref1) {
        *v = 35;
    }
    let a = match owner.read(&ref1) {
        Ok(v) => *v,
        Err(_) => 0,
    };
    let b = match owner.read(&ref2) {
        Ok(v) => *v,
        Err(_) => 0,
    };
    if let Ok(v) = owner.write(&ref2) {
        *v = 42;
    }
    let c = match owner.read(&ref1) {
        Ok(v) => *v,
        Err(_) => 0,
    };
    let d = match owner.read(&ref2) {
        Ok(v) => *v,
        Err(_) => 0,
    };
    (a, b, c, d)
}

} // verus!
