use joader::sampler::values_set::ValueSet;

#[test]
fn test_set() {
    let l = ValueSet::init(129);
    let r = ValueSet::init(128);
    let mut v = ValueSet::init(0);
    v.set(128);
    assert_eq!(l.difference(&r), v);
}

#[test]
fn test_reset() {
    let l = ValueSet::init(129);
    let r = ValueSet::init(128);
    let mut v = ValueSet::init(129);
    for i in 0..128 {
        v.reset(i);
    }
    assert_eq!(l.difference(&r), v);
}

#[test]
fn init() {
    let size = 781u32;
    let mut v = ValueSet::init(size as usize);
    let mut vec = Vec::new();
    for _ in 0..size {
        vec.push(v.random_pick());
    }
    vec.sort();
    assert_eq!(vec, (0..size).collect::<Vec<u32>>());
}

#[test]
fn test_itersection() {
    let l = ValueSet::init(129);
    let r = ValueSet::init(125);
    assert_eq!(l.intersection(&r), r);
}

#[test]
fn test_union() {
    let l = ValueSet::init(129);
    let r = ValueSet::init(125);
    assert_eq!(l.union(&r), l);
}

#[test]
fn test_difference() {
    let l = ValueSet::init(129);
    let r = ValueSet::init(128);
    let mut v = ValueSet::init(129);
    for i in 0..128 {
        v.reset(i);
    }
    assert_eq!(l.difference(&r), v);
}

#[test]
fn test_difference_2() {
    let mut l = ValueSet::init(0);
    let mut r = ValueSet::init(0);
    r.set(1);
    l.set(2);
    l.set(3);
    assert_eq!(l.difference(&r), l);
}

#[test]
fn test_() {
    let mut l = ValueSet::init(0);
    let mut r = ValueSet::init(0);
    l.set(0);
    r.set(1);

    let mut target = ValueSet::init(0);
    target.set(0);
    target.set(1);

    assert_eq!(l.union(&r), target);
}

#[test]
fn init_lists_every_value_below_the_size() {
    for n in [0usize, 1, 127, 128, 129, 300, 1000] {
        let v = ValueSet::init(n);
        assert_eq!(v.len(), n as u64);
        assert_eq!(v.as_vec(), (0..n as u32).collect::<Vec<u32>>());
    }
}

#[test]
fn as_vec_ascends_over_blocks() {
    let mut v = ValueSet::new();
    for x in [70000u32, 5, 129, 128, 4_294_967_295, 0, 127] {
        v.set(x);
    }
    assert_eq!(v.as_vec(), vec![0, 5, 127, 128, 129, 70000, 4_294_967_295]);
    assert_eq!(v.len(), 7);
}

#[test]
fn set_twice_counts_once() {
    let mut v = ValueSet::new();
    v.set(9);
    v.set(9);
    assert_eq!(v.len(), 1);
    assert_eq!(v.as_vec(), vec![9]);
}

#[test]
fn reset_of_an_absent_value_changes_nothing() {
    let mut v = ValueSet::init(10);
    v.reset(10);
    v.reset(5000);
    assert_eq!(v, ValueSet::init(10));
    v.reset(3);
    v.reset(3);
    assert_eq!(v.len(), 9);
    assert_eq!(v.as_vec(), vec![0, 1, 2, 4, 5, 6, 7, 8, 9]);
}

#[test]
fn reset_drops_a_block_that_runs_empty() {
    let mut v = ValueSet::new();
    v.set(1);
    v.set(200);
    v.reset(200);
    let mut w = ValueSet::new();
    w.set(1);
    assert_eq!(v, w);
    assert!(!v.is_empty());
    v.reset(1);
    assert!(v.is_empty());
    assert_eq!(v, ValueSet::new());
}

#[test]
fn pick_from_takes_the_smallest_of_the_block() {
    let mut v = ValueSet::new();
    for x in [130u32, 131, 3, 400] {
        v.set(x);
    }
    assert_eq!(v.pick_from(1), 130);
    assert_eq!(v.pick_from(1), 131);
    assert_eq!(v.pick_from(1), 400);
    assert_eq!(v.pick_from(0), 3);
    assert!(v.is_empty());
}

#[test]
fn union_then_difference_is_difference() {
    let mut a = ValueSet::init(200);
    a.set(1000);
    let mut b = ValueSet::new();
    for x in [5u32, 199, 200, 201, 1000, 1001, 9999] {
        b.set(x);
    }
    assert_eq!(a.union(&b).difference(&a), b.difference(&a));
    assert_eq!(b.difference(&a).as_vec(), vec![200, 201, 1001, 9999]);
}

#[test]
fn intersection_is_double_difference() {
    let mut a = ValueSet::init(200);
    a.set(1000);
    let mut b = ValueSet::new();
    for x in [5u32, 199, 200, 201, 1000, 1001, 9999] {
        b.set(x);
    }
    assert_eq!(a.intersection(&b), a.difference(&a.difference(&b)));
    assert_eq!(a.intersection(&b).as_vec(), vec![5, 199, 1000]);
}

#[test]
fn clone_is_equal() {
    let mut a = ValueSet::init(300);
    a.reset(17);
    let b = a.clone();
    assert_eq!(a, b);
    a.reset(18);
    assert_ne!(a, b);
}
