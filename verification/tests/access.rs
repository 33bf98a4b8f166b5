use bevy_ecs::access::{Access, FilteredAccess, FilteredAccessSet};

#[test]
fn access_get_conflicts() {
    let mut access_a = Access::<usize>::default();
    access_a.add_read(0);
    access_a.add_read(1);

    let mut access_b = Access::<usize>::default();
    access_b.add_read(0);
    access_b.add_write(1);

    assert_eq!(access_a.get_conflicts(&access_b), vec![1]);

    let mut access_c = Access::<usize>::default();
    access_c.add_write(0);
    access_c.add_write(1);

    assert_eq!(access_a.get_conflicts(&access_c), vec![0, 1]);
    assert_eq!(access_b.get_conflicts(&access_c), vec![0, 1]);

    let mut access_d = Access::<usize>::default();
    access_d.add_read(0);

    assert_eq!(access_d.get_conflicts(&access_a), vec![]);
    assert_eq!(access_d.get_conflicts(&access_b), vec![]);
    assert_eq!(access_d.get_conflicts(&access_c), vec![0]);
}

#[test]
fn filtered_access_extend() {
    let mut access_a = FilteredAccess::<usize>::default();
    access_a.add_read(0);
    access_a.add_read(1);
    access_a.add_with(2);

    let mut access_b = FilteredAccess::<usize>::default();
    access_b.add_read(0);
    access_b.add_write(3);
    access_b.add_without(4);

    access_a.extend(&access_b);

    let mut expected = FilteredAccess::<usize>::default();
    expected.add_read(0);
    expected.add_read(1);
    expected.add_with(2);
    expected.add_write(3);
    expected.add_without(4);

    assert!(access_a.eq(&expected));
}

#[test]
fn access_compatibility_is_symmetric_without_world_access() {
    let mut a = Access::<usize>::default();
    a.add_write(3);
    let mut b = Access::<usize>::default();
    b.add_read(3);
    assert!(!a.is_compatible(&b));
    assert!(!b.is_compatible(&a));
    assert_eq!(a.get_conflicts(&b), vec![3]);
    assert_eq!(b.get_conflicts(&a), vec![3]);

    let mut c = Access::<usize>::default();
    c.add_read(3);
    assert!(b.is_compatible(&c));
    assert!(c.get_conflicts(&b).is_empty());
}

#[test]
fn access_write_all_conflicts_with_everything_touched() {
    let mut world = Access::<usize>::default();
    world.write_all();
    let mut a = Access::<usize>::default();
    a.add_read(2);
    a.add_read(5);
    assert!(!world.is_compatible(&a));
    assert_eq!(world.get_conflicts(&a), vec![2, 5]);
    let empty = Access::<usize>::default();
    assert!(world.is_compatible(&empty));
    assert!(world.get_conflicts(&empty).is_empty());
    assert!(world.has_write(100));
    assert!(!a.has_write(2));
    assert!(a.has_read(5));
}

#[test]
fn access_read_all_conflicts_with_writes() {
    let mut reader = Access::<usize>::default();
    reader.read_all();
    let mut w = Access::<usize>::default();
    w.add_write(7);
    w.add_read(1);
    assert!(!reader.is_compatible(&w));
    assert_eq!(reader.get_conflicts(&w), vec![7]);
    assert_eq!(w.only_reads(), vec![1]);
    assert_eq!(w.writes(), vec![7]);
    assert_eq!(w.reads(), vec![1, 7]);
}

#[test]
fn access_clear_and_extend() {
    let mut a = Access::<usize>::default();
    a.add_write(4);
    let mut b = Access::<usize>::default();
    b.add_read(9);
    a.extend(&b);
    assert!(a.has_read(9) && a.has_write(4) && !a.has_write(9));
    a.clear();
    assert!(!a.has_read(4) && !a.has_read(9));
}

#[test]
fn filtered_access_filters_make_compatible() {
    let mut a = FilteredAccess::<usize>::default();
    a.add_write(0);
    a.add_with(5);
    let mut b = FilteredAccess::<usize>::default();
    b.add_write(0);
    assert!(!a.is_compatible(&b));
    b.add_without(5);
    assert!(a.is_compatible(&b));
    assert!(b.is_compatible(&a));
}

#[test]
fn filtered_access_set_conflicts() {
    let mut set = FilteredAccessSet::<usize>::default();
    let mut a = FilteredAccess::<usize>::default();
    a.add_write(1);
    a.add_write(2);
    set.add(a);
    let mut b = FilteredAccess::<usize>::default();
    b.add_read(2);
    b.add_read(3);
    set.add(b);

    let mut q = FilteredAccess::<usize>::default();
    q.add_write(2);
    q.add_write(3);
    let mut conflicts = set.get_conflicts(&q);
    conflicts.sort();
    assert_eq!(conflicts, vec![2, 3]);

    let mut r = FilteredAccess::<usize>::default();
    r.add_read(9);
    assert!(set.get_conflicts(&r).is_empty());
    assert!(set.combined_access().has_write(1));
    set.clear();
    assert!(!set.combined_access().has_read(2));
}
