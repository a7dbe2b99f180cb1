use zmaxion::vec_list::VecList;

#[test]
fn push_back() {
    let mut list: VecList<i32> = VecList::new();
    list.push_back(1);
    list.push_back(2);
    list.push_back(3);
    let items = list.iter();
    let mut iter = items.iter();
    assert_eq!(*iter.next().unwrap().value, 1);
    assert_eq!(*iter.next().unwrap().value, 2);
    assert_eq!(*iter.next().unwrap().value, 3);
}

#[test]
fn remove() {
    let mut list: VecList<i32> = VecList::new();
    list.push_back(1);
    list.push_back(2);
    list.push_back(3);
    let second_id = {
        let items = list.iter();
        let mut iter = items.iter();
        iter.next().unwrap();
        iter.next().unwrap().index
    };
    assert_eq!(list.remove(second_id), Some(2));
    let items = list.iter();
    let mut iter = items.iter();
    assert_eq!(*iter.next().unwrap().value, 1);
    assert_eq!(*iter.next().unwrap().value, 3);
}

#[test]
fn remove_unknown_index_gives_none() {
    let mut list: VecList<i32> = VecList::new();
    list.push_back(7);
    assert_eq!(list.remove(5), None);
    let items = list.iter();
    assert_eq!(items.len(), 1);
    assert_eq!(*items[0].value, 7);
}

#[test]
fn remove_undoes_push_back() {
    let mut list: VecList<i32> = VecList::new();
    list.push_back(1);
    list.push_back(2);
    let before: Vec<(usize, i32)> = list.iter().iter().map(|n| (n.index, *n.value)).collect();
    list.push_back(9);
    let last = list.iter().last().unwrap().index;
    assert_eq!(list.remove(last), Some(9));
    let after: Vec<(usize, i32)> = list.iter().iter().map(|n| (n.index, *n.value)).collect();
    assert_eq!(before, after);
}

#[test]
fn freed_slot_is_reused_and_order_kept() {
    let mut list: VecList<i32> = VecList::new();
    list.push_back(1);
    list.push_back(2);
    list.push_back(3);
    let first = list.iter()[0].index;
    assert_eq!(list.remove(first), Some(1));
    list.push_back(4);
    let items = list.iter();
    let values: Vec<i32> = items.iter().map(|n| *n.value).collect();
    assert_eq!(values, vec![2, 3, 4]);
    assert_eq!(items[2].index, first);
}

#[test]
fn remove_last_leaves_an_empty_list() {
    let mut list: VecList<i32> = VecList::new();
    list.push_back(1);
    let only = list.iter()[0].index;
    assert_eq!(list.remove(only), Some(1));
    assert_eq!(list.iter().len(), 0);
    assert_eq!(list.remove(only), None);
    list.retain(|_| true);
    assert_eq!(list.iter().len(), 0);
}

#[test]
fn retain_keeps_matching_in_order() {
    let mut list: VecList<i32> = VecList::new();
    for v in 1..=6 {
        list.push_back(v);
    }
    list.retain(|x| x % 2 == 0);
    let values: Vec<i32> = list.iter().iter().map(|n| *n.value).collect();
    assert_eq!(values, vec![2, 4, 6]);
}

#[test]
fn retain_removing_head_visits_every_element() {
    let mut list: VecList<i32> = VecList::new();
    for v in [1, 1, 2, 3] {
        list.push_back(v);
    }
    list.retain(|x| *x != 1);
    let values: Vec<i32> = list.iter().iter().map(|n| *n.value).collect();
    assert_eq!(values, vec![2, 3]);
}

#[test]
fn retain_all_keeps_everything() {
    let mut list: VecList<i32> = VecList::new();
    for v in [3, 1, 2] {
        list.push_back(v);
    }
    list.retain(|_| true);
    let values: Vec<i32> = list.iter().iter().map(|n| *n.value).collect();
    assert_eq!(values, vec![3, 1, 2]);
}

#[test]
fn freed_slots_are_reused_last_freed_first() {
    let mut list: VecList<i32> = VecList::new();
    list.push_back(1);
    list.push_back(2);
    list.push_back(3);
    let ids: Vec<usize> = list.iter().iter().map(|x| x.index).collect();
    assert_eq!(list.remove(ids[0]), Some(1));
    assert_eq!(list.remove(ids[2]), Some(3));
    list.push_back(4);
    list.push_back(5);
    list.push_back(6);
    let after: Vec<(usize, i32)> = list.iter().iter().map(|x| (x.index, *x.value)).collect();
    assert_eq!(after, vec![(ids[1], 2), (ids[2], 4), (ids[0], 5), (3, 6)]);
}
