use joader::cache::freelist::FreeList;

#[test]
fn freelist_test() {
    let len = [10, 20, 30, 40, 50];
    let start = 0;
    let mut end = 0;
    let mut space = Vec::new();
    for l in &len {
        space.push((end, *l));
        end += *l;
    }

    let mut fl = FreeList::new();
    for (len, off) in &space {
        fl.insert(*len, *off);
    }
    assert_eq!(fl.get(end - start), Some((start, end)));
    assert_eq!(fl.get(1), None);

    let mut max = (0, 0);
    for (idx, (off, len)) in space.iter().enumerate() {
        if (idx & 1) == 0 {
            fl.insert(*off, *len);
            max = (*off, *len);
        }
    }
    assert_eq!(fl.get(max.1), Some(max));
    fl.insert(max.0, max.1);

    for (idx, (off, len)) in space.iter().enumerate() {
        if (idx & 1) == 1 {
            fl.insert(*off, *len);
        }
    }
    assert_eq!(fl.get(end - start), Some((start, end)));
}

#[test]
fn get_leaves_the_rest_of_the_extent_free() {
    let mut fl = FreeList::new();
    fl.insert(100, 50);
    assert_eq!(fl.get(20), Some((100, 20)));
    assert_eq!(fl.get(31), None);
    assert_eq!(fl.get(30), Some((120, 30)));
    assert_eq!(fl.get(1), None);
}

#[test]
fn insert_joins_both_neighbours() {
    let mut fl = FreeList::new();
    fl.insert(0, 10);
    fl.insert(20, 10);
    assert_eq!(fl.get(11), None);
    fl.insert(10, 10);
    assert_eq!(fl.get(30), Some((0, 30)));
}

#[test]
fn insert_of_nothing_frees_nothing() {
    let mut fl = FreeList::new();
    fl.insert(7, 0);
    assert_eq!(fl.get(1), None);
    assert_eq!(fl.get(0), None);
}

#[test]
fn exact_fit_empties_the_list() {
    let mut fl = FreeList::new();
    fl.insert(40, 460);
    assert_eq!(fl.get(460), Some((40, 460)));
    assert_eq!(fl.get(1), None);
    assert_eq!(fl.get(0), None);
}
