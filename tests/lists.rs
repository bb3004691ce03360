use token_cells::deque::Deque;
use token_cells::dlist::{ListToken, Node, NodePtr};
use token_cells::list_wrapper::{init_list, ListWrapper};
use token_cells::token::{CellError, Registry, Token};

fn fresh<T>(registry: &mut Registry) -> ListToken<T> {
    ListToken::new(Token::new_dynamic(registry))
}

fn values(head: &NodePtr, token: &ListToken<i32>) -> Vec<i32> {
    Node::view_as_vec(Some(head), token).unwrap().into_iter().copied().collect()
}

fn next_of(p: &NodePtr, token: &ListToken<i32>) -> Option<NodePtr> {
    token.get(p).unwrap().next().copied()
}

fn prev_of(p: &NodePtr, token: &ListToken<i32>) -> Option<NodePtr> {
    token.get(p).unwrap().prev(token)
}

#[test]
fn round_trip_through_from_iter() {
    let mut registry = Registry::new();
    let mut token = fresh(&mut registry);
    let head = Node::from_iter(&mut token, vec![1, 2, 3]).unwrap();
    assert_eq!(values(&head, &token), vec![1, 2, 3]);
}

#[test]
fn from_iter_of_nothing_is_none() {
    let mut registry = Registry::new();
    let mut token = fresh::<i32>(&mut registry);
    assert!(Node::from_iter(&mut token, Vec::new()).is_none());
    assert_eq!(Node::view_as_vec(None, &token).unwrap().len(), 0);
}

#[test]
fn remove_middle_of_three() {
    let mut registry = Registry::new();
    let mut t = fresh(&mut registry);
    let n1 = Node::from_iter(&mut t, vec![1, 2, 3]).unwrap();
    let n2 = next_of(&n1, &t).unwrap();
    let n3 = next_of(&n2, &t).unwrap();
    assert_eq!(Node::remove(&n2, &mut t), Ok(()));
    assert_eq!(values(&n1, &t), vec![1, 3]);
    assert!(prev_of(&n2, &t).is_none());
    assert!(t.get(&n2).unwrap().prev_weak().is_none());
    assert!(next_of(&n2, &t).is_none());
    assert_eq!(prev_of(&n3, &t), Some(n1));
    assert_eq!(next_of(&n1, &t), Some(n3));
}

#[test]
fn links_agree_both_ways() {
    let mut registry = Registry::new();
    let mut t = fresh(&mut registry);
    let head = Node::from_iter(&mut t, vec![10, 20, 30, 40]).unwrap();
    let mut cur = head;
    assert!(prev_of(&head, &t).is_none());
    while let Some(nx) = next_of(&cur, &t) {
        assert_eq!(prev_of(&nx, &t), Some(cur));
        cur = nx;
    }
    assert_eq!(*t.get(&cur).unwrap().data(), 40);
}

#[test]
fn remove_twice_and_on_detached_node() {
    let mut registry = Registry::new();
    let mut t = fresh(&mut registry);
    let n1 = Node::from_iter(&mut t, vec![1, 2, 3]).unwrap();
    let n2 = next_of(&n1, &t).unwrap();
    assert_eq!(Node::remove(&n2, &mut t), Ok(()));
    assert_eq!(Node::remove(&n2, &mut t), Ok(()));
    assert_eq!(values(&n1, &t), vec![1, 3]);
    assert_eq!(values(&n2, &t), vec![2]);
    let lone = Node::new(9, &mut t);
    assert_eq!(Node::remove(&lone, &mut t), Ok(()));
    assert_eq!(values(&lone, &t), vec![9]);
    assert_eq!(values(&n1, &t), vec![1, 3]);
}

#[test]
fn remove_head_and_tail() {
    let mut registry = Registry::new();
    let mut t = fresh(&mut registry);
    let n1 = Node::from_iter(&mut t, vec![1, 2, 3]).unwrap();
    let n2 = next_of(&n1, &t).unwrap();
    let n3 = next_of(&n2, &t).unwrap();
    assert_eq!(Node::remove(&n1, &mut t), Ok(()));
    assert_eq!(values(&n2, &t), vec![2, 3]);
    assert!(prev_of(&n2, &t).is_none());
    assert_eq!(Node::remove(&n3, &mut t), Ok(()));
    assert_eq!(values(&n2, &t), vec![2]);
}

#[test]
fn insert_moves_node_from_other_list() {
    let mut registry = Registry::new();
    let mut t = fresh(&mut registry);
    let x = Node::from_iter(&mut t, vec![1, 2, 3]).unwrap();
    let b = next_of(&x, &t).unwrap();
    let y = next_of(&b, &t).unwrap();
    let a = Node::from_iter(&mut t, vec![7, 8]).unwrap();
    assert_eq!(Node::insert_next(&a, &b, &mut t), Ok(()));
    assert_eq!(values(&x, &t), vec![1, 3]);
    assert_eq!(next_of(&x, &t), Some(y));
    assert_eq!(prev_of(&y, &t), Some(x));
    assert_eq!(values(&a, &t), vec![7, 2, 8]);
    assert_eq!(prev_of(&b, &t), Some(a));
}

#[test]
fn insert_moves_node_within_its_list() {
    let mut registry = Registry::new();
    let mut t = fresh(&mut registry);
    let n1 = Node::from_iter(&mut t, vec![1, 2, 3, 4]).unwrap();
    let n2 = next_of(&n1, &t).unwrap();
    let n3 = next_of(&n2, &t).unwrap();
    let n4 = next_of(&n3, &t).unwrap();
    assert_eq!(Node::insert_next(&n4, &n2, &mut t), Ok(()));
    assert_eq!(values(&n1, &t), vec![1, 3, 4, 2]);
    assert_eq!(Node::insert_next(&n1, &n2, &mut t), Ok(()));
    assert_eq!(values(&n1, &t), vec![1, 2, 3, 4]);
}

#[test]
fn insert_errors() {
    let mut registry = Registry::new();
    let mut t = fresh(&mut registry);
    let mut other = fresh(&mut registry);
    let a = Node::new(1, &mut t);
    let foreign = Node::new(2, &mut other);
    assert_eq!(Node::insert_next(&a, &a, &mut t), Err(CellError::AliasViolation));
    assert_eq!(Node::insert_next(&a, &foreign, &mut t), Err(CellError::BrandMismatch));
    assert_eq!(Node::remove(&foreign, &mut t), Err(CellError::BrandMismatch));
    assert_eq!(values(&a, &t), vec![1]);
    assert!(Node::view_as_vec(Some(&foreign), &t).is_err());
}

#[test]
fn iterator_walks_the_list() {
    let mut registry = Registry::new();
    let mut t = fresh(&mut registry);
    let head = Node::from_iter(&mut t, vec![5, 6, 7]).unwrap();
    let mut it = Node::iter(&head, &t);
    assert_eq!(it.next(), Some(&5));
    assert_eq!(it.next(), Some(&6));
    assert_eq!(it.next(), Some(&7));
    assert_eq!(it.next(), None);
    assert_eq!(it.next(), None);
}

#[test]
fn replace_and_swap_values() {
    let mut registry = Registry::new();
    let mut t = fresh(&mut registry);
    let n1 = Node::from_iter(&mut t, vec![1, 2]).unwrap();
    let n2 = next_of(&n1, &t).unwrap();
    assert_eq!(t.replace_data(&n1, 61), Ok(1));
    assert_eq!(t.swap_data(&n1, &n2), Ok(()));
    assert_eq!(values(&n1, &t), vec![2, 61]);
    assert_eq!(t.swap_data(&n1, &n1), Err(CellError::AliasViolation));
}

#[test]
fn deque_adds_at_both_ends() {
    let mut registry = Registry::new();
    let mut deque = Deque::<usize>::new(Token::new_dynamic(&mut registry));
    assert!(deque.as_vec().is_empty());
    deque.add_first(2);
    deque.add_first(1);
    deque.add_last(3);
    let v: Vec<usize> = deque.as_vec().into_iter().copied().collect();
    assert_eq!(v, vec![1, 2, 3]);
}

#[test]
fn deque_add_last_on_empty_then_first() {
    let mut registry = Registry::new();
    let mut deque = Deque::<usize>::new(Token::new_dynamic(&mut registry));
    deque.add_last(5);
    deque.add_first(4);
    deque.add_first(3);
    deque.add_last(6);
    let v: Vec<usize> = deque.as_vec().into_iter().copied().collect();
    assert_eq!(v, vec![3, 4, 5, 6]);
}

#[test]
fn list_wrapper_create_and_iter() {
    let mut registry = Registry::new();
    let list = ListWrapper::create(fresh(&mut registry), vec![1, 2, 3, 4]);
    let mut it = list.iter();
    let mut seen = Vec::new();
    while let Some(v) = it.next() {
        seen.push(*v);
    }
    assert_eq!(seen, vec![1, 2, 3, 4]);
    let head = list.expose_node();
    assert_eq!(*list.expose_token().get(&head).unwrap().data(), 1);
}

#[test]
fn init_list_counts_up() {
    let mut registry = Registry::new();
    let mut t = fresh(&mut registry);
    let (head, tail) = init_list(&mut t, 5);
    assert_eq!(values(&head, &t), vec![0, 1, 2, 3, 4]);
    assert_eq!(*t.get(&tail).unwrap().data(), 4);
    assert!(next_of(&tail, &t).is_none());
    let (h2, t2) = init_list(&mut t, 0);
    assert_eq!(values(&h2, &t), vec![0]);
    assert_eq!(h2, t2);
    let wrapper = ListWrapper::new(head, t);
    let mut it = wrapper.iter();
    assert_eq!(it.next(), Some(&0));
}

#[test]
fn iterate_visits_values_in_order() {
    let mut registry = Registry::new();
    let mut t = fresh(&mut registry);
    let head = Node::from_iter(&mut t, vec![3, 1, 4]).unwrap();
    let seen = std::cell::RefCell::new(Vec::new());
    Node::iterate(&head, &t, |v: &i32| seen.borrow_mut().push(*v));
    assert_eq!(seen.into_inner(), vec![3, 1, 4]);
}

#[test]
fn iter_mut_changes_values_not_links() {
    let mut registry = Registry::new();
    let mut t = fresh(&mut registry);
    let head = Node::from_iter(&mut t, vec![1, 2, 3]).unwrap();
    let other = Node::from_iter(&mut t, vec![9]).unwrap();
    Node::iter_mut(&head, &mut t, |v: &mut i32| *v *= 10);
    assert_eq!(values(&head, &t), vec![10, 20, 30]);
    assert_eq!(values(&other, &t), vec![9]);
}

#[test]
fn wrapper_sets_head_value() {
    let mut registry = Registry::new();
    let mut t = fresh(&mut registry);
    let (head, _tail) = init_list(&mut t, 3);
    let mut wrapper = ListWrapper::new(head, t);
    assert_eq!(wrapper.expose_mut_node(666), Ok(0));
    let h = wrapper.expose_node();
    assert_eq!(values(&h, wrapper.expose_token()), vec![666, 1, 2]);
}

#[test]
fn disposed_node_is_gone_and_weak_links_to_it_are_absent() {
    let mut registry = Registry::new();
    let mut t = fresh(&mut registry);
    let n1 = Node::from_iter(&mut t, vec![1, 2, 3]).unwrap();
    let n2 = next_of(&n1, &t).unwrap();
    let n3 = next_of(&n2, &t).unwrap();
    let weak = t.get(&n3).unwrap().prev_weak().copied().unwrap();
    assert_eq!(t.upgrade(&weak), Some(n2));
    assert_eq!(Node::dispose(&n2, &mut t), Ok(()));
    assert_eq!(values(&n1, &t), vec![1, 3]);
    assert_eq!(t.upgrade(&weak), None);
    assert_eq!(prev_of(&n3, &t), Some(n1));
    assert_eq!(t.get(&n2).err(), Some(CellError::Disposed));
    assert_eq!(Node::remove(&n2, &mut t), Err(CellError::Disposed));
    assert_eq!(Node::insert_next(&n1, &n2, &mut t), Err(CellError::Disposed));
    assert_eq!(Node::dispose(&n2, &mut t), Err(CellError::Disposed));
    assert_eq!(values(&n1, &t), vec![1, 3]);
}
