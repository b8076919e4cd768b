use rust_screeps_code::Vec;

fn of(items: &[u32], cap: usize) -> Vec<u32> {
    let mut v = Vec::with_capacity(cap);
    for x in items {
        v.push(*x);
    }
    v
}

fn items(v: &Vec<u32>) -> std::vec::Vec<u32> {
    (0..v.len()).map(|i| *v.index(i)).collect()
}

#[test]
fn push_pop_and_len() {
    let mut v: Vec<u32> = Vec::with_capacity(3);
    assert_eq!(v.len(), 0);
    v.push(4);
    v.push(5);
    assert_eq!(v.len(), 2);
    assert_eq!(v.pop(), 5);
    assert_eq!(v.pop(), 4);
    assert_eq!(v.len(), 0);
}

#[test]
fn pop_right_after_push_restores() {
    let mut v = of(&[1, 2], 4);
    v.push(9);
    assert_eq!(v.pop(), 9);
    assert_eq!(items(&v), vec![1, 2]);
}

#[test]
fn stuff_replaces_inside_and_ignores_past_the_length() {
    let mut v = of(&[1, 2, 3], 5);
    v.stuff(1, 7);
    assert_eq!(items(&v), vec![1, 7, 3]);
    v.stuff(4, 8);
    assert_eq!(items(&v), vec![1, 7, 3]);
}

#[test]
fn index_mut_writes_through() {
    let mut v = of(&[1, 2, 3], 3);
    *v.index_mut(2) = 30;
    assert_eq!(items(&v), vec![1, 2, 30]);
}

#[test]
fn yank_leaves_zero() {
    let mut v = of(&[1, 2, 3], 3);
    assert_eq!(v.yank(1), 2);
    assert_eq!(items(&v), vec![1, 0, 3]);
}

#[test]
fn clone_copies_items_and_capacity() {
    let v = of(&[3, 1], 4);
    let mut c = v.clone();
    assert_eq!(items(&c), vec![3, 1]);
    c.push(5);
    c.push(6);
    assert_eq!(c.len(), 4);
    assert_eq!(items(&v), vec![3, 1]);
}

#[test]
fn sort_orders_ascending() {
    let mut v = of(&[5, 3, 9, 1, 3, 0, 65540], 10);
    v.sort();
    assert_eq!(items(&v), vec![0, 1, 3, 3, 5, 9, 65540]);
    let mut e: Vec<u32> = Vec::with_capacity(0);
    e.sort();
    assert_eq!(e.len(), 0);
    let mut one = of(&[42], 1);
    one.sort();
    assert_eq!(items(&one), vec![42]);
}

#[test]
fn length_is_pushes_less_pops_within_capacity() {
    let mut v: Vec<u32> = Vec::with_capacity(3);
    v.push(1);
    v.push(2);
    v.pop();
    v.push(3);
    v.push(4);
    assert_eq!(v.len(), 3);
    v.pop();
    assert_eq!(v.len(), 2);
}
