//! Exercises the integer helpers and the per-variant configuration carriers.

use theorysim::intmath::{stepwise_sum, u32_is_powerof2, u32_log2};
use theorysim::theories::{CSR2data, DEdata, EFdata, FPdata, T1data, T1state, T7data};

#[test]
fn stepwise_sum_below_length_is_identity() {
    assert_eq!(stepwise_sum(0, 1, 40), 0);
    assert_eq!(stepwise_sum(5, 1, 10), 5);
    assert_eq!(stepwise_sum(40, 1, 40), 40);
}

#[test]
fn stepwise_sum_past_length() {
    // level 45, base 1, length 40: five levels past the first block,
    // no completed cycle: 1 * 1 * (0 / 2 + 5) + 40 + 5.
    assert_eq!(stepwise_sum(45, 1, 40), 50);
    // level 100, base 1, length 40: sixty past, one completed cycle of 40:
    // 1 * 2 * (40 / 2 + 20) + 40 + 60.
    assert_eq!(stepwise_sum(100, 1, 40), 180);
    // odd half-block: level 8, base 3, length 3: five past, one cycle:
    // 3 * 2 * (3 / 2 + 2) = 21 (exact rational, floored once) + 3 + 5.
    assert_eq!(stepwise_sum(8, 3, 3), 29);
}

#[test]
fn power_of_two_test() {
    assert!(u32_is_powerof2(1));
    assert!(u32_is_powerof2(2));
    assert!(u32_is_powerof2(4));
    assert!(u32_is_powerof2(1024));
    assert!(u32_is_powerof2(1 << 31));
    assert!(!u32_is_powerof2(0));
    assert!(!u32_is_powerof2(3));
    assert!(!u32_is_powerof2(6));
    assert!(!u32_is_powerof2(1023));
}

#[test]
fn log2_floor_values() {
    assert_eq!(u32_log2(1), 0);
    assert_eq!(u32_log2(2), 1);
    assert_eq!(u32_log2(3), 1);
    assert_eq!(u32_log2(4), 2);
    assert_eq!(u32_log2(1024), 10);
    assert_eq!(u32_log2(1025), 10);
    assert_eq!(u32_log2(u32::MAX), 31);
    assert_eq!(u32_log2(0), u32::MAX);
}

#[test]
fn configuration_carriers_round_trip() {
    let c = CSR2data { caps: [7, 8, 9, 10, 11], do_coasting: true };
    assert_eq!(c.caps_vec(), vec![7, 8, 9, 10, 11]);
    let f = FPdata { caps: [u32::MAX; 7], do_coasting: false };
    assert_eq!(f.caps_vec().len(), 7);
    assert!(!f.do_coasting);
    let e = EFdata { caps: [1; 10], do_coasting: true };
    assert_eq!(e.caps_vec(), vec![1; 10]);
    let s = T1state { levels: [2, 3, 4, 5] };
    assert_eq!(s.levels_vec(), vec![2, 3, 4, 5]);
    let d = DEdata { do_coasting: true };
    let t1 = T1data { do_coasting: false };
    let t7 = T7data { do_coasting: true };
    assert!(d.do_coasting && !t1.do_coasting && t7.do_coasting);
}
