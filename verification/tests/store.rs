use depstore::compute::ArithFn;
use depstore::store::{Item, Store, StoreError};

#[test]
fn should_get_and_set_value() {
    let mut store = Store::<ArithFn>::new();

    let input_id1 = store.new_input_item(42).unwrap();

    assert_eq!(store.get_value(input_id1).unwrap(), 42);

    store.set_value(input_id1, 139).unwrap();

    assert_eq!(store.get_value(input_id1).unwrap(), 139);
}

#[test]
fn should_update() {
    let mut store = Store::<ArithFn>::new();

    let input_id1 = store.new_input_item(1).unwrap();
    let input_id2 = store.new_input_item(3).unwrap();
    let input_id3 = store.new_input_item(9).unwrap();

    assert_eq!(store.get_value(input_id1).unwrap(), 1);
    assert_eq!(store.get_value(input_id2).unwrap(), 3);
    assert_eq!(store.get_value(input_id3).unwrap(), 9);

    let deps = [input_id1, input_id2, input_id3];

    let computed_item_id = store.new_computed_item(&deps, ArithFn::Sum).unwrap();

    assert_eq!(store.get_value(computed_item_id).unwrap(), 13);

    store.set_value(input_id1, 7).unwrap();
    assert_eq!(store.get_value(input_id1).unwrap(), 7);
    assert_eq!(store.get_value(computed_item_id).unwrap(), 19)
}

#[test]
fn inputs_read_back_exactly() {
    let mut store = Store::<ArithFn>::new();
    let values = [0u64, 1, 5, u64::MAX, 12345];
    let mut ids = Vec::new();
    for &v in values.iter() {
        ids.push(store.new_input_item(v).unwrap());
    }
    for (k, &v) in values.iter().enumerate() {
        assert_eq!(store.get_value(ids[k]).unwrap(), v);
    }
}

#[test]
fn two_level_chain() {
    let mut store = Store::<ArithFn>::new();

    let i = store.new_input_item(3).unwrap();
    let c1 = store
        .new_computed_item(&[i], ArithFn::Affine { scale: 2, offset: 0 })
        .unwrap();
    let c2 = store
        .new_computed_item(&[c1], ArithFn::Affine { scale: 1, offset: 1 })
        .unwrap();

    assert_eq!(store.get_value(c1).unwrap(), 6);
    assert_eq!(store.get_value(c2).unwrap(), 7);

    store.set_value(i, 5).unwrap();
    assert_eq!(store.get_value(c1).unwrap(), 10);
    assert_eq!(store.get_value(c2).unwrap(), 11);
}

#[test]
fn set_value_on_computed_item_fails_and_changes_nothing() {
    let mut store = Store::<ArithFn>::new();

    let i = store.new_input_item(4).unwrap();
    let c = store.new_computed_item(&[i], ArithFn::Sum).unwrap();

    assert_eq!(
        store.set_value(c, 99),
        Err(StoreError::UnableToSetComputedValue)
    );
    assert_eq!(store.get_value(i).unwrap(), 4);
    assert_eq!(store.get_value(c).unwrap(), 4);
}

#[test]
fn unknown_ids_fail_and_change_nothing() {
    let mut store = Store::<ArithFn>::new();

    let i = store.new_input_item(8).unwrap();

    assert_eq!(store.get_value(77), Err(StoreError::ItemNotFound(77)));
    assert_eq!(
        store.new_computed_item(&[i, 77, 99], ArithFn::Sum),
        Err(StoreError::ItemNotFound(77))
    );
    assert_eq!(store.set_value(77, 1), Err(StoreError::ItemNotFound(77)));

    // The store is untouched: the existing value is intact and the failed
    // creation reserved no id, so the next item gets the next id.
    assert_eq!(store.get_value(i).unwrap(), 8);
    let j = store.new_input_item(2).unwrap();
    assert_eq!(j, i + 1);
}

#[test]
fn reads_are_idempotent() {
    let mut store = Store::<ArithFn>::new();

    let i = store.new_input_item(21).unwrap();
    let c = store.new_computed_item(&[i], ArithFn::Sum).unwrap();

    let first = store.get_value(c).unwrap();
    let second = store.get_value(c).unwrap();
    let third = store.get_value(c).unwrap();
    assert_eq!(first, 21);
    assert_eq!(second, 21);
    assert_eq!(third, 21);
    assert_eq!(store.get_value(i).unwrap(), 21);
}

#[test]
fn sum_wraps_modulo_u64() {
    let mut store = Store::<ArithFn>::new();

    let a = store.new_input_item(u64::MAX).unwrap();
    let b = store.new_input_item(3).unwrap();
    let c = store.new_computed_item(&[a, b], ArithFn::Sum).unwrap();

    assert_eq!(store.get_value(c).unwrap(), 2);

    let d = store
        .new_computed_item(&[b], ArithFn::Affine { scale: u64::MAX, offset: 5 })
        .unwrap();
    // 5 + 3 * (2^64 - 1) wraps to 2^64 - 3 + 5 = 2.
    assert_eq!(store.get_value(d).unwrap(), 2);
}

#[test]
fn computed_item_with_no_deps() {
    let mut store = Store::<ArithFn>::new();
    let c = store.new_computed_item(&[], ArithFn::Sum).unwrap();
    assert_eq!(store.get_value(c).unwrap(), 0);

    let k = store
        .new_computed_item(&[], ArithFn::Affine { scale: 10, offset: 7 })
        .unwrap();
    assert_eq!(store.get_value(k).unwrap(), 7);
}

#[test]
fn diamond_dependencies_settle() {
    let mut store = Store::<ArithFn>::new();

    let i = store.new_input_item(1).unwrap();
    let left = store
        .new_computed_item(&[i], ArithFn::Affine { scale: 2, offset: 0 })
        .unwrap();
    let right = store
        .new_computed_item(&[i], ArithFn::Affine { scale: 3, offset: 0 })
        .unwrap();
    let top = store.new_computed_item(&[left, right], ArithFn::Sum).unwrap();

    assert_eq!(store.get_value(top).unwrap(), 5);

    store.set_value(i, 10).unwrap();
    assert_eq!(store.get_value(left).unwrap(), 20);
    assert_eq!(store.get_value(right).unwrap(), 30);
    assert_eq!(store.get_value(top).unwrap(), 50);
}

#[test]
fn explicit_update_pass_is_stable() {
    let mut store = Store::<ArithFn>::new();

    let i = store.new_input_item(6).unwrap();
    let c = store.new_computed_item(&[i, i], ArithFn::Sum).unwrap();
    assert_eq!(store.get_value(c).unwrap(), 12);

    // A full propagation pass over a consistent store recomputes every
    // computed item to the value it already holds.
    store.update(0).unwrap();
    assert_eq!(store.get_value(i).unwrap(), 6);
    assert_eq!(store.get_value(c).unwrap(), 12);
}

#[test]
fn items_and_computers_stand_alone() {
    let item = Item::<ArithFn>::new_input(5, 17);
    assert_eq!(item.id(), 5);
    assert_eq!(item.value(), 17);

    let items: Vec<Item<ArithFn>> = vec![
        Item::new_input(0, 2),
        Item::new_input(1, 40),
    ];
    let computer = depstore::store::ValueComputer::new(&[0, 1], ArithFn::Sum);
    assert_eq!(computer.compute(&items).unwrap(), 42);

    let missing = depstore::store::ValueComputer::new(&[0, 9], ArithFn::Sum);
    assert_eq!(missing.compute(&items), Err(StoreError::ItemNotFound(9)));
}
