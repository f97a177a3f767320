use linked_lists::SinglyList;

fn contents(l: &SinglyList<i32>) -> Vec<i32> {
    let mut out = Vec::new();
    for i in 0..l.len() {
        out.push(*l.get(i).unwrap());
    }
    out
}

fn from_back(values: &[i32]) -> SinglyList<i32> {
    let mut l = SinglyList::new();
    for v in values {
        l.push_back(*v);
    }
    l
}

#[test]
fn new_list_is_empty() {
    let l: SinglyList<i32> = SinglyList::new();
    assert_eq!(l.len(), 0);
    assert!(l.is_empty());
    assert_eq!(l.peek_front(), None);
    assert_eq!(l.peek_back(), None);
}

#[test]
fn push_back_get_delete_pop_scenario() {
    let mut l = SinglyList::new();
    l.push_back(1);
    l.push_back(2);
    l.push_back(3);
    assert_eq!(contents(&l), vec![1, 2, 3]);
    assert_eq!(l.get(1), Some(&2));
    assert_eq!(l.delete_at(1), Some(2));
    assert_eq!(contents(&l), vec![1, 3]);
    assert_eq!(l.pop_back(), Some(3));
    assert_eq!(contents(&l), vec![1]);
}

#[test]
fn pop_back_on_empty_gives_nothing() {
    let mut l: SinglyList<i32> = SinglyList::new();
    assert_eq!(l.pop_back(), None);
    assert_eq!(l.len(), 0);
    assert_eq!(l.pop_front(), None);
    assert_eq!(l.len(), 0);
}

#[test]
fn length_counts_pushes_and_performed_pops() {
    let mut l = SinglyList::new();
    l.push_back(1);
    l.push_front(2);
    assert_eq!(l.len(), 2);
    assert_eq!(l.pop_back(), Some(1));
    assert_eq!(l.pop_front(), Some(2));
    assert_eq!(l.pop_back(), None);
    assert_eq!(l.pop_front(), None);
    assert_eq!(l.len(), 0);
    l.push_back(3);
    l.push_back(4);
    l.push_front(5);
    assert_eq!(l.pop_front(), Some(5));
    assert_eq!(l.len(), 2);
    assert!(!l.is_empty());
}

#[test]
fn push_back_then_pop_back_restores() {
    let mut l = from_back(&[7, 8]);
    l.push_back(9);
    assert_eq!(l.pop_back(), Some(9));
    assert_eq!(l.len(), 2);
    assert_eq!(l.peek_back(), Some(&8));
    assert_eq!(contents(&l), vec![7, 8]);
    l.push_back(10);
    assert_eq!(l.peek_back(), Some(&10));
}

#[test]
fn push_front_then_pop_front_restores() {
    let mut l = from_back(&[7, 8]);
    l.push_front(6);
    assert_eq!(l.peek_front(), Some(&6));
    assert_eq!(l.pop_front(), Some(6));
    assert_eq!(l.len(), 2);
    assert_eq!(l.peek_front(), Some(&7));
    assert_eq!(contents(&l), vec![7, 8]);
}

#[test]
fn push_front_on_empty_sets_both_ends() {
    let mut l = SinglyList::new();
    l.push_front(4);
    assert_eq!(l.peek_front(), Some(&4));
    assert_eq!(l.peek_back(), Some(&4));
    l.push_back(5);
    assert_eq!(contents(&l), vec![4, 5]);
}

#[test]
fn insert_at_each_position_then_get() {
    for pos in 0..=3 {
        let mut l = from_back(&[10, 20, 30]);
        l.insert_at(pos, 99);
        assert_eq!(l.len(), 4);
        assert_eq!(l.get(pos), Some(&99));
        let mut expected = vec![10, 20, 30];
        expected.insert(pos, 99);
        assert_eq!(contents(&l), expected);
    }
}

#[test]
fn insert_at_into_empty() {
    let mut l = SinglyList::new();
    l.insert_at(0, 1);
    l.insert_at(1, 3);
    l.insert_at(1, 2);
    assert_eq!(contents(&l), vec![1, 2, 3]);
    assert_eq!(l.peek_back(), Some(&3));
}

#[test]
fn delete_at_each_position_keeps_order() {
    for pos in 0..4 {
        let mut l = from_back(&[10, 20, 30, 40]);
        let mut expected = vec![10, 20, 30, 40];
        let removed = expected.remove(pos);
        assert_eq!(l.delete_at(pos), Some(removed));
        assert_eq!(l.len(), 3);
        assert_eq!(contents(&l), expected);
        assert_eq!(l.peek_back(), expected.last());
    }
}

#[test]
fn update_at_changes_one_element() {
    for pos in 0..3 {
        let mut l = from_back(&[1, 2, 3]);
        l.update_at(pos, 50);
        let mut expected = vec![1, 2, 3];
        expected[pos] = 50;
        assert_eq!(l.len(), 3);
        assert_eq!(contents(&l), expected);
    }
}

#[test]
fn clear_empties_the_list() {
    let mut l = from_back(&[1, 2, 3]);
    l.clear();
    assert_eq!(l.len(), 0);
    assert!(l.is_empty());
    assert_eq!(l.peek_front(), None);
    assert_eq!(l.peek_back(), None);
    assert_eq!(l.pop_front(), None);
    assert_eq!(l.pop_back(), None);
    l.push_back(8);
    assert_eq!(contents(&l), vec![8]);
}

#[test]
fn mutable_access_writes_through() {
    let mut l = from_back(&[1, 2, 3, 4]);
    *l.peek_front_mut().unwrap() = 10;
    *l.peek_back_mut().unwrap() = 40;
    *l.get_mut(1).unwrap() = 20;
    *l.get_mut(2).unwrap() += 27;
    assert_eq!(contents(&l), vec![10, 20, 30, 40]);
    let mut e: SinglyList<i32> = SinglyList::new();
    assert!(e.peek_front_mut().is_none());
    assert!(e.peek_back_mut().is_none());
}

#[test]
fn get_at_both_ends() {
    let l = from_back(&[5, 6, 7]);
    assert_eq!(l.get(0), Some(&5));
    assert_eq!(l.get(2), Some(&7));
}

#[test]
fn freed_nodes_are_reused_consistently() {
    let mut l = SinglyList::new();
    let mut model: Vec<i32> = Vec::new();
    for i in 0..40 {
        match i % 5 {
            0 | 1 => {
                l.push_back(i);
                model.push(i);
            }
            2 => {
                l.push_front(i);
                model.insert(0, i);
            }
            3 => {
                let pos = model.len() / 2;
                assert_eq!(l.delete_at(pos), Some(model.remove(pos)));
            }
            _ => {
                assert_eq!(l.pop_back(), model.pop());
                let pos = model.len() / 3;
                l.insert_at(pos, -i);
                model.insert(pos, -i);
            }
        }
        assert_eq!(l.len(), model.len());
        assert_eq!(contents(&l), model);
        assert_eq!(l.peek_back(), model.last());
        assert_eq!(l.peek_front(), model.first());
    }
}

#[test]
fn works_with_owned_values() {
    let mut l: SinglyList<String> = SinglyList::new();
    l.push_back(String::from("b"));
    l.push_front(String::from("a"));
    l.insert_at(2, String::from("c"));
    assert_eq!(l.delete_at(1), Some(String::from("b")));
    assert_eq!(l.pop_front(), Some(String::from("a")));
    assert_eq!(l.peek_back().map(|s| s.as_str()), Some("c"));
}
