use raytracer::scene::{check_hit, in_range, place, Hit, INFINITY_BITS, SIGN_BIT};

#[test]
fn empty_scene_has_no_hit() {
    assert_eq!(check_hit(&[], 0, 100), None);
}

#[test]
fn scene_of_misses_has_no_hit() {
    assert_eq!(check_hit(&[None, None, None], 0, 100), None);
}

#[test]
fn nearest_of_several_wins() {
    let roots = [Some(40), Some(15), None, Some(27)];
    assert_eq!(check_hit(&roots, 1, 1000), Some(Hit { t: 15, object: 1 }));
}

#[test]
fn nearest_wins_wherever_it_stands() {
    assert_eq!(check_hit(&[Some(5), Some(9), Some(7)], 0, 10), Some(Hit { t: 5, object: 0 }));
    assert_eq!(check_hit(&[Some(9), Some(7), Some(5)], 0, 10), Some(Hit { t: 5, object: 2 }));
    assert_eq!(check_hit(&[Some(9), Some(5), Some(7)], 0, 10), Some(Hit { t: 5, object: 1 }));
}

#[test]
fn first_object_wins_a_tie() {
    let roots = [Some(30), Some(12), Some(12), Some(12)];
    assert_eq!(check_hit(&roots, 0, 100), Some(Hit { t: 12, object: 1 }));
}

#[test]
fn roots_outside_the_range_do_not_count() {
    let roots = [Some(-5), Some(0), Some(500), Some(42)];
    assert_eq!(check_hit(&roots, 1, 100), Some(Hit { t: 42, object: 3 }));
    assert_eq!(check_hit(&roots, 1, 41), None);
    assert_eq!(check_hit(&roots, 501, 1000), None);
}

#[test]
fn both_ends_of_the_range_count() {
    assert_eq!(check_hit(&[Some(10)], 10, 20), Some(Hit { t: 10, object: 0 }));
    assert_eq!(check_hit(&[Some(20)], 10, 20), Some(Hit { t: 20, object: 0 }));
    assert_eq!(check_hit(&[Some(9)], 10, 20), None);
    assert_eq!(check_hit(&[Some(21)], 10, 20), None);
    assert!(in_range(10, 10, 20));
    assert!(in_range(20, 10, 20));
    assert!(!in_range(9, 10, 20));
    assert!(!in_range(21, 10, 20));
    assert!(!in_range(15, 20, 10));
}

#[test]
fn negative_parameters_are_ordered_too() {
    let roots = [Some(-3), Some(-8), Some(2)];
    assert_eq!(check_hit(&roots, i64::MIN, i64::MAX), Some(Hit { t: -8, object: 1 }));
    assert_eq!(check_hit(&roots, -5, i64::MAX), Some(Hit { t: -3, object: 0 }));
}

#[test]
fn the_nearest_alone_is_hit_at_the_same_parameter() {
    let roots = [Some(40), None, Some(15), Some(27), Some(15)];
    let hit = check_hit(&roots, 1, 1000).unwrap();
    assert_eq!(hit, Hit { t: 15, object: 2 });
    let alone = check_hit(&[roots[hit.object]], 1, 1000).unwrap();
    assert_eq!(alone, Hit { t: 15, object: 0 });
}

#[test]
fn order_of_objects_does_not_move_the_hit() {
    let roots = [Some(40), None, Some(15), Some(27), Some(90)];
    let mut reversed = roots;
    reversed.reverse();
    let a = check_hit(&roots, 16, 1000).unwrap();
    let b = check_hit(&reversed, 16, 1000).unwrap();
    assert_eq!(a.t, 27);
    assert_eq!(b.t, 27);
    assert_eq!(a.object, 3);
    assert_eq!(b.object, 1);
}

#[test]
fn zero_of_either_sign_has_place_zero() {
    assert_eq!(place(0), Some(0));
    assert_eq!(place(SIGN_BIT), Some(0));
}

#[test]
fn positive_bits_are_their_own_place() {
    assert_eq!(place(1), Some(1));
    assert_eq!(place(0x4000_0000_0000_0000), Some(0x4000_0000_0000_0000));
    assert_eq!(place(INFINITY_BITS), Some(0x7FF0_0000_0000_0000));
}

#[test]
fn negative_bits_count_downwards() {
    assert_eq!(place(SIGN_BIT + 1), Some(-1));
    assert_eq!(place(SIGN_BIT + 0x4000_0000_0000_0000), Some(-0x4000_0000_0000_0000));
    assert_eq!(place(SIGN_BIT + INFINITY_BITS), Some(-0x7FF0_0000_0000_0000));
}

#[test]
fn what_is_not_a_number_has_no_place() {
    assert_eq!(place(INFINITY_BITS + 1), None);
    assert_eq!(place(0x7FF8_0000_0000_0000), None);
    assert_eq!(place(0x7FFF_FFFF_FFFF_FFFF), None);
    assert_eq!(place(SIGN_BIT + INFINITY_BITS + 1), None);
    assert_eq!(place(u64::MAX), None);
}
