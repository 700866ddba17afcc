use dt_lib::dtm::{to_u8_id, troops_to_stacks, ManyUnitsData};

fn stack(id: u8, amount: u8, level: u8) -> ManyUnitsData {
    ManyUnitsData { id, amount, level }
}

#[test]
fn stacks_group_equal_units_in_order() {
    let out = troops_to_stacks(&[(3, 1), (5, 2), (3, 1), (3, 2), (5, 300)], 10).unwrap();
    assert_eq!(
        out,
        [stack(4, 2, 1), stack(6, 1, 2), stack(4, 1, 2), stack(6, 1, 255), stack(0, 0, 0), stack(0, 0, 0)]
    );
    assert_eq!(troops_to_stacks(&[], 10).unwrap(), [stack(0, 0, 0); 6]);
}

#[test]
fn stacks_refuse_unknown_or_too_many() {
    assert!(troops_to_stacks(&[(10, 1)], 10).is_none());
    assert!(troops_to_stacks(&[(255, 1)], 1000).is_none());
    let seven: Vec<(usize, u64)> = (0..7).map(|i| (i, 0)).collect();
    assert!(troops_to_stacks(&seven, 10).is_none());
    let many: Vec<(usize, u64)> = (0..256).map(|_| (1, 0)).collect();
    assert!(troops_to_stacks(&many, 10).is_none());
    let full: Vec<(usize, u64)> = (0..255).map(|_| (1, 0)).collect();
    assert_eq!(troops_to_stacks(&full, 10).unwrap()[0], stack(2, 255, 0));
}

#[test]
fn byte_ids() {
    assert_eq!(to_u8_id(0, 1), Some(1));
    assert_eq!(to_u8_id(254, 1), Some(255));
    assert_eq!(to_u8_id(255, 1), None);
    assert_eq!(to_u8_id(0, 0), None);
}
