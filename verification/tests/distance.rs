use gridist::distance::{floor_root, Distance};
use gridist::grid::step_cost;

#[test]
fn order_is_exact() {
    // 7 < 5 sqrt(2) = 7.07.. < 8
    assert!(Distance::new(7, 0).lt(&Distance::new(0, 5)));
    assert!(Distance::new(0, 5).lt(&Distance::new(8, 0)));
    assert!(Distance::new(0, 5).le(&Distance::new(0, 5)));
    assert!(!Distance::new(0, 5).lt(&Distance::new(0, 5)));
    // 1 + 2 sqrt(2) = 3.83 < 4 = 4
    assert!(Distance::new(1, 2).lt(&Distance::new(4, 0)));
    assert!(!Distance::new(4, 0).le(&Distance::new(1, 2)));
    // 99 sqrt(2) = 140.007.. > 140
    assert!(Distance::new(140, 0).lt(&Distance::new(0, 99)));
    assert!(!Distance::new(0, 99).le(&Distance::new(140, 0)));
    // 70 sqrt(2) = 98.99.. < 99
    assert!(Distance::new(0, 70).lt(&Distance::new(99, 0)));
}

#[test]
fn order_at_the_limits() {
    let most = Distance::new(u64::MAX, u64::MAX);
    let all_straight = Distance::new(u64::MAX, 0);
    let all_diagonal = Distance::new(0, u64::MAX);
    assert!(all_straight.lt(&all_diagonal));
    assert!(all_diagonal.lt(&most));
    assert!(Distance::zero().lt(&all_straight));
    assert!(!most.le(&all_diagonal));
    assert!(most.le(&most));
}

#[test]
fn sums() {
    assert_eq!(Distance::new(1, 2).plus(&Distance::new(3, 4)), Distance::new(4, 6));
    assert_eq!(Distance::new(1, 2).checked_plus(&Distance::new(3, 4)), Some(Distance::new(4, 6)));
    assert_eq!(Distance::new(u64::MAX, 0).checked_plus(&Distance::new(1, 0)), None);
    assert_eq!(Distance::new(0, u64::MAX).checked_plus(&Distance::new(0, 1)), None);
    assert_eq!(
        Distance::new(u64::MAX - 1, 5).checked_plus(&Distance::new(1, 0)),
        Some(Distance::new(u64::MAX, 5))
    );
}

#[test]
fn roots() {
    assert_eq!(floor_root(0), 0);
    assert_eq!(floor_root(1), 1);
    assert_eq!(floor_root(3), 1);
    assert_eq!(floor_root(4), 2);
    assert_eq!(floor_root(99), 9);
    assert_eq!(floor_root(100), 10);
    assert_eq!(floor_root(u128::MAX), u64::MAX);
    assert_eq!(floor_root((1u128 << 64) - 1), (1u64 << 32) - 1);
}

#[test]
fn step_costs() {
    let diagonal = [0usize, 2, 5, 7];
    for slot in 0..8usize {
        if diagonal.contains(&slot) {
            assert_eq!(step_cost(slot), Distance::new(0, 1));
        } else {
            assert_eq!(step_cost(slot), Distance::new(1, 0));
        }
    }
}
