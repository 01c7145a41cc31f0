use quack::arithmetic::{ModularInteger, PowerTable};
use quack::{PowerSumQuack, Quack, QuackSnapshot, SnapshotError};

fn sketch_of(threshold: usize, ids: &[u16]) -> PowerSumQuack {
    let mut q = PowerSumQuack::new(threshold);
    for &id in ids {
        q.insert(id);
    }
    q
}

#[test]
fn a_new_sketch_is_empty() {
    let q = PowerSumQuack::new(4);
    assert_eq!(q.threshold(), 4);
    assert_eq!(q.count(), 0);
    assert_eq!(q.snapshot().values(), vec![0, 0, 0, 0]);
}

#[test]
fn insert_adds_each_power() {
    let q = sketch_of(3, &[1, 2, 3]);
    assert_eq!(q.count(), 3);
    // 1 + 2 + 3, 1 + 4 + 9, 1 + 8 + 27
    assert_eq!(q.snapshot().values(), vec![6, 14, 36]);
}

#[test]
fn power_sums_are_reduced() {
    let q = sketch_of(2, &[65520, 65520]);
    // 65520 is -1 in the field: the sum is -2 and the sum of squares is 2.
    assert_eq!(q.snapshot().values(), vec![65519, 2]);
    let q = sketch_of(2, &[65535]);
    // 65535 reduces to 14.
    assert_eq!(q.snapshot().values(), vec![14, 196]);
}

#[test]
fn remove_undoes_insert_in_any_order() {
    let mut q = sketch_of(6, &[17, 40000, 17, 65535, 3, 0]);
    for id in [0u16, 17, 3, 65535, 17, 40000] {
        q.remove(id);
    }
    assert_eq!(q.count(), 0);
    assert_eq!(q.snapshot().values(), vec![0; 6]);
    assert_eq!(q, PowerSumQuack::new(6));
}

#[test]
fn remove_from_an_empty_sketch_wraps_the_counter() {
    let mut q = PowerSumQuack::new(2);
    q.remove(1);
    assert_eq!(q.count(), 65535);
    assert_eq!(q.snapshot().values(), vec![65520, 65520]);
}

#[test]
fn the_counter_wraps_at_two_to_the_sixteen() {
    let mut q = PowerSumQuack::new(1);
    for i in 0..70000u32 {
        q.insert((i % 1000) as u16);
    }
    assert_eq!(q.count(), 4464);
}

#[test]
fn a_snapshot_does_not_follow_the_sketch() {
    let mut q = sketch_of(2, &[5]);
    let before = q.snapshot();
    q.insert(6);
    assert_eq!(before.count(), 1);
    assert_eq!(before.values(), vec![5, 25]);
    assert_eq!(q.snapshot().values(), vec![11, 61]);
    assert_eq!(before.threshold(), 2);
    assert_eq!(before.power_sum(1), ModularInteger::new(25));
}

#[test]
fn subtraction_is_field_wise() {
    let a = sketch_of(3, &[10, 20, 30]).snapshot();
    let b = sketch_of(3, &[20]).snapshot();
    let d = a.sub(&b);
    assert_eq!(d.count(), 2);
    assert_eq!(d, sketch_of(3, &[10, 30]).snapshot());
    // The other way round the counter and the sums wrap.
    let e = b.sub(&a);
    assert_eq!(e.count(), 65534);
    assert_eq!(e.values(), vec![65521 - 40, 65521 - 1000, 65521 - 28000]);
}

#[test]
fn the_table_gives_the_same_sketch() {
    let table = PowerTable::new(3);
    assert_eq!(table.threshold(), 3);
    assert_eq!(table.power(2, 0), 2);
    assert_eq!(table.power(2, 2), 8);
    assert_eq!(table.power(65535, 1), 196);
    let ids = [9u16, 65520, 0, 31337, 65535];
    let mut with_table = PowerSumQuack::new(3);
    for id in ids {
        with_table.insert_with_table(&table, id);
    }
    assert_eq!(with_table, sketch_of(3, &ids));
    with_table.remove_with_table(&table, 31337);
    assert_eq!(with_table, sketch_of(3, &[9, 65520, 0, 65535]));
}

#[test]
fn a_snapshot_from_its_parts() {
    let q = QuackSnapshot::from_parts(3, vec![6, 14, 36], 3).unwrap();
    assert_eq!(q, sketch_of(3, &[1, 2, 3]).snapshot());
    assert_eq!(
        QuackSnapshot::from_parts(3, vec![6, 14], 3),
        Err(SnapshotError::WrongThreshold)
    );
    assert_eq!(
        QuackSnapshot::from_parts(3, vec![6, 65521, 36], 3),
        Err(SnapshotError::NotReduced)
    );
    assert_eq!(
        QuackSnapshot::from_parts(0, vec![65520], 1).unwrap().values(),
        vec![65520]
    );
}

fn filled<Q: Quack>(threshold: usize, ids: &[u16]) -> Q {
    let mut q = Q::new(threshold);
    for &id in ids {
        q.insert(id);
    }
    q
}

#[test]
fn a_sketch_is_a_quack() {
    let mut q: PowerSumQuack = filled(7, &[1, 1, 2, 3, 5, 8]);
    assert_eq!(q.threshold(), 7);
    assert_eq!(q.count(), 6);
    q.remove(8);
    assert_eq!(q.count(), 5);
    assert_eq!(q, sketch_of(7, &[1, 1, 2, 3, 5]));
}
