use memory_pool::align::{calculate_padding, next_multiple_of, next_power_of_two};
use memory_pool::optimal_align;

#[test]
fn padding_fills_up_to_a_multiple() {
    assert_eq!(calculate_padding(0, 32), 0);
    assert_eq!(calculate_padding(1, 32), 31);
    assert_eq!(calculate_padding(32, 32), 0);
    assert_eq!(calculate_padding(33, 32), 31);
    assert_eq!(calculate_padding(100, 32), 28);
    assert_eq!(calculate_padding(7, 1), 0);
    assert_eq!(calculate_padding(u64::MAX, 2), 1);
}

#[test]
fn multiples_are_the_next_ones() {
    assert_eq!(next_multiple_of(0, 32), 0);
    assert_eq!(next_multiple_of(31, 32), 32);
    assert_eq!(next_multiple_of(32, 32), 32);
    assert_eq!(next_multiple_of(513, 24), 528);
}

#[test]
fn powers_of_two_are_the_next_ones() {
    assert_eq!(next_power_of_two(0), 1);
    assert_eq!(next_power_of_two(1), 1);
    assert_eq!(next_power_of_two(2), 2);
    assert_eq!(next_power_of_two(3), 4);
    assert_eq!(next_power_of_two(1025), 2048);
    let largest = usize::MAX / 2 + 1;
    assert_eq!(next_power_of_two(largest), largest);
}

#[test]
fn unit_dimensions_are_contiguous() {
    assert_eq!(optimal_align(1, 4, 256), 4);
    // Nothing is asked of the buffer then.
    assert_eq!(optimal_align(1, 2, 1), 2);
    assert_eq!(optimal_align(1, 0, 0), 0);
}

#[test]
fn other_dimensions_scale_within_bounds() {
    assert_eq!(optimal_align(0, 4, 256), 16);
    assert_eq!(optimal_align(2, 4, 256), 16);
    assert_eq!(optimal_align(4, 4, 256), 16);
    assert_eq!(optimal_align(5, 4, 256), 32);
    assert_eq!(optimal_align(33, 2, 256), 128);
    assert_eq!(optimal_align(64, 4, 256), 256);
    assert_eq!(optimal_align(1000, 4, 256), 256);
    assert_eq!(optimal_align(1000, 4, 16), 16);
    // The end of the range need not be a power of two.
    assert_eq!(optimal_align(1000, 4, 100), 100);
}
