use token_cells::client::{
    dynamic_owner_check, immutable_incoming_aliases_allowed, static_owner_check,
    two_simultaneous_borrows_panic, unique_owner_restriction,
};
use token_cells::ownership::{mix_representations, mix_representations_fails, Rep, SWithToken, S1};
use token_cells::token::{Brand, Cell, CellError, Registry, Token};

#[test]
fn write2_same_cell_is_alias_violation() {
    let mut registry = Registry::new();
    let mut token = Token::<u64>::new_dynamic(&mut registry);
    let a = Cell::new(&mut token, 5);
    let b = a;
    assert_eq!(token.write2(&a, &b).err(), Some(CellError::AliasViolation));
    assert_eq!(*token.read(&a).unwrap(), 5);
}

#[test]
fn write2_distinct_cells_both_writes_visible() {
    let mut registry = Registry::new();
    let mut token = Token::<u64>::new_dynamic(&mut registry);
    let a = Cell::new(&mut token, 1);
    let b = Cell::new(&mut token, 2);
    {
        let (x, y) = token.write2(&a, &b).unwrap();
        *x = 61;
        *y = 62;
    }
    assert_eq!(*token.read(&a).unwrap(), 61);
    assert_eq!(*token.read(&b).unwrap(), 62);
    {
        let (y, x) = token.write2(&b, &a).unwrap();
        *y = 7;
        *x = 8;
    }
    assert_eq!(*token.read(&a).unwrap(), 8);
    assert_eq!(*token.read(&b).unwrap(), 7);
}

#[test]
fn write2_foreign_cell_is_brand_mismatch() {
    let mut registry = Registry::new();
    let mut token1 = Token::<u64>::new_dynamic(&mut registry);
    let mut token2 = Token::<u64>::new_dynamic(&mut registry);
    let a = Cell::new(&mut token1, 1);
    let b = Cell::new(&mut token2, 2);
    assert_eq!(token1.write2(&a, &b).err(), Some(CellError::BrandMismatch));
}

#[test]
fn write_then_read_through_two_handles() {
    let mut registry = Registry::new();
    let mut token = Token::<u64>::new_dynamic(&mut registry);
    let ref1 = Cell::new(&mut token, 123);
    let ref2 = ref1;
    *token.write(&ref1).unwrap() = 35;
    assert_eq!(*token.read(&ref1).unwrap(), 35);
    assert_eq!(*token.read(&ref2).unwrap(), 35);
    *token.write(&ref2).unwrap() = 42;
    assert_eq!(*token.read(&ref1).unwrap(), 42);
    assert_eq!(*token.read(&ref2).unwrap(), 42);
}

#[test]
fn dynamic_tokens_get_distinct_brands() {
    let mut registry = Registry::new();
    let t1 = Token::<u64>::new_dynamic(&mut registry);
    let t2 = Token::<u64>::new_dynamic(&mut registry);
    assert_eq!(t1.brand_of(), Brand::Dynamic(0));
    assert_eq!(t2.brand_of(), Brand::Dynamic(1));
}

#[test]
fn read_with_unrelated_dynamic_token_fails() {
    let mut registry = Registry::new();
    let mut x = Token::<u64>::new_dynamic(&mut registry);
    let y = Token::<u64>::new_dynamic(&mut registry);
    let c = Cell::new(&mut x, 9);
    assert_eq!(y.read(&c).err(), Some(CellError::BrandMismatch));
    assert_eq!(*x.read(&c).unwrap(), 9);
}

#[test]
fn second_static_token_is_duplicate_owner() {
    let mut registry = Registry::new();
    let first = Token::<u64>::new_static(&mut registry, 4);
    assert!(first.is_ok());
    assert!(registry.holds(4));
    let second = Token::<u64>::new_static(&mut registry, 4);
    assert_eq!(second.err(), Some(CellError::DuplicateOwner));
    let other = Token::<u64>::new_static(&mut registry, 5);
    assert_eq!(other.unwrap().brand_of(), Brand::Static(5));
}

#[test]
fn released_static_brand_can_be_taken_again() {
    let mut registry = Registry::new();
    let first = Token::<u64>::new_static(&mut registry, 4).unwrap();
    let other = Token::<u64>::new_dynamic(&mut registry);
    registry.release(other);
    assert!(registry.holds(4));
    registry.release(first);
    assert!(!registry.holds(4));
    let again = Token::<u64>::new_static(&mut registry, 4);
    assert!(again.is_ok());
}

#[test]
fn weak_handle_upgrades_only_through_its_token() {
    let mut registry = Registry::new();
    let mut t1 = Token::<u64>::new_dynamic(&mut registry);
    let t2 = Token::<u64>::new_dynamic(&mut registry);
    let c = Cell::new(&mut t1, 3);
    let w = c.downgrade();
    assert_eq!(w.upgrade(&t1), Some(c));
    assert_eq!(w.upgrade(&t2), None);
}

#[test]
fn owner_checks_refuse_as_stated() {
    assert_eq!(dynamic_owner_check(), Err(CellError::BrandMismatch));
    assert_eq!(unique_owner_restriction(), Err(CellError::DuplicateOwner));
    assert_eq!(static_owner_check(), Err(CellError::BrandMismatch));
    assert_eq!(two_simultaneous_borrows_panic(), Err(CellError::AliasViolation));
    assert_eq!(immutable_incoming_aliases_allowed(), Ok(0));
}

#[test]
fn shared_representation_under_one_token() {
    assert_eq!(mix_representations(), Ok(2));
    let mut registry = Registry::new();
    let mut token = Token::<Rep>::new_dynamic(&mut registry);
    let mut s1 = S1::new(1, &mut token);
    let s2 = S1::new(2, &mut token);
    assert_eq!(s1.value(&token), Ok(1));
    s1.mix_representations(&s2);
    assert_eq!(s1.value(&token), Ok(2));
}

#[test]
fn representations_of_two_tokens_do_not_mix() {
    assert_eq!(mix_representations_fails(), Err(CellError::BrandMismatch));
    let mut registry = Registry::new();
    let t1 = Token::<Rep>::new_dynamic(&mut registry);
    let mut swt1 = SWithToken::new(1, t1);
    let t2 = Token::<Rep>::new_dynamic(&mut registry);
    let swt2 = SWithToken::new(2, t2);
    assert_eq!(swt1.mix_representations_fails(&swt2), Err(CellError::BrandMismatch));
}

#[test]
fn two_aliases_see_each_others_writes() {
    assert_eq!(token_cells::client::two_aliases_example(), (35, 35, 42, 42));
}

#[test]
fn disposed_cell_refuses_access() {
    let mut registry = Registry::new();
    let mut token = Token::<u64>::new_dynamic(&mut registry);
    let a = Cell::new(&mut token, 1);
    let b = Cell::new(&mut token, 2);
    let w = a.downgrade();
    assert_eq!(token.dispose(&a), Ok(()));
    assert_eq!(token.read(&a).err(), Some(CellError::Disposed));
    assert_eq!(w.upgrade(&token), None);
    assert_eq!(token.write2(&b, &a).err(), Some(CellError::Disposed));
    assert_eq!(token.dispose(&a), Err(CellError::Disposed));
    assert_eq!(*token.read(&b).unwrap(), 2);
}

#[test]
fn scoped_token_is_handed_to_the_callback() {
    let mut registry = Registry::new();
    let _ = Token::<u64>::new_dynamic(&mut registry);
    let (brand, value) = Token::<u64>::with_new(&mut registry, |mut t: Token<u64>| {
        let c = Cell::new(&mut t, 11);
        (t.brand_of(), *t.read(&c).unwrap())
    });
    assert_eq!(brand, Brand::Scoped(1));
    assert_eq!(value, 11);
}
