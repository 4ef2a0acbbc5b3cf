use venator_engine::BoundSearch;

#[test]
fn bounds_on_empty_slice() {
    let empty: [i32; 0] = [];
    assert_eq!(empty.lower_bound(&0), 0);
    assert_eq!(empty.upper_bound(&0), 0);
    assert_eq!(empty.lower_bound_via_expansion(&0), 0);
    assert_eq!(empty.upper_bound_via_expansion(&0), 0);
}

#[test]
fn bounds_on_single_slice() {
    assert_eq!([1].lower_bound(&0), 0);
    assert_eq!([1].upper_bound(&0), 0);
    assert_eq!([1].lower_bound_via_expansion(&0), 0);
    assert_eq!([1].upper_bound_via_expansion(&0), 0);

    assert_eq!([1].lower_bound(&1), 0);
    assert_eq!([1].upper_bound(&1), 1);
    assert_eq!([1].lower_bound_via_expansion(&1), 0);
    assert_eq!([1].upper_bound_via_expansion(&1), 1);

    assert_eq!([1].lower_bound(&2), 1);
    assert_eq!([1].upper_bound(&2), 1);
    assert_eq!([1].lower_bound_via_expansion(&2), 1);
    assert_eq!([1].upper_bound_via_expansion(&2), 1);
}

#[test]
fn bounds_for_duplicate_item() {
    assert_eq!([0, 0, 1, 1, 2, 2].lower_bound(&-1), 0);
    assert_eq!([0, 0, 1, 1, 2, 2].upper_bound(&-1), 0);
    assert_eq!([0, 0, 1, 1, 2, 2].lower_bound_via_expansion(&-1), 0);
    assert_eq!([0, 0, 1, 1, 2, 2].upper_bound_via_expansion(&-1), 0);

    assert_eq!([0, 0, 1, 1, 2, 2].lower_bound(&0), 0);
    assert_eq!([0, 0, 1, 1, 2, 2].upper_bound(&0), 2);
    assert_eq!([0, 0, 1, 1, 2, 2].lower_bound_via_expansion(&0), 0);
    assert_eq!([0, 0, 1, 1, 2, 2].upper_bound_via_expansion(&0), 2);

    assert_eq!([0, 0, 1, 1, 2, 2].lower_bound(&1), 2);
    assert_eq!([0, 0, 1, 1, 2, 2].upper_bound(&1), 4);
    assert_eq!([0, 0, 1, 1, 2, 2].lower_bound_via_expansion(&1), 2);
    assert_eq!([0, 0, 1, 1, 2, 2].upper_bound_via_expansion(&1), 4);

    assert_eq!([0, 0, 1, 1, 2, 2].lower_bound(&2), 4);
    assert_eq!([0, 0, 1, 1, 2, 2].upper_bound(&2), 6);
    assert_eq!([0, 0, 1, 1, 2, 2].lower_bound_via_expansion(&2), 4);
    assert_eq!([0, 0, 1, 1, 2, 2].upper_bound_via_expansion(&2), 6);

    assert_eq!([0, 0, 1, 1, 2, 2].lower_bound(&3), 6);
    assert_eq!([0, 0, 1, 1, 2, 2].upper_bound(&3), 6);
    assert_eq!([0, 0, 1, 1, 2, 2].lower_bound_via_expansion(&3), 6);
    assert_eq!([0, 0, 1, 1, 2, 2].upper_bound_via_expansion(&3), 6);
}

#[test]
fn bounds_for_missing_item() {
    assert_eq!([0, 0, 2, 2].lower_bound(&1), 2);
    assert_eq!([0, 0, 2, 2].upper_bound(&1), 2);
    assert_eq!([0, 0, 2, 2].lower_bound_via_expansion(&1), 2);
    assert_eq!([0, 0, 2, 2].upper_bound_via_expansion(&1), 2);
}
