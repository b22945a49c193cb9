use ghx_proc_gen::generator::bitset::BitSet;
use ghx_proc_gen::generator::entropy::entropy_of;
use ghx_proc_gen::generator::entropy::fixed_log2;
use ghx_proc_gen::generator::entropy::weight_log_of;
use ghx_proc_gen::generator::entropy::FIXED_ONE;
use ghx_proc_gen::generator::rng::random_seed;
use ghx_proc_gen::generator::rng::Rng;

#[test]
fn the_logarithm_is_exact_at_powers_of_two() {
    assert_eq!(fixed_log2(0), 0);
    assert_eq!(fixed_log2(1), 0);
    assert_eq!(fixed_log2(2), FIXED_ONE);
    assert_eq!(fixed_log2(4), 2 * FIXED_ONE);
    assert_eq!(fixed_log2(1024), 10 * FIXED_ONE);
    assert_eq!(fixed_log2(1 << 63), 63 * FIXED_ONE);
}

#[test]
fn the_logarithm_grows_evenly_between_powers_of_two() {
    assert_eq!(fixed_log2(3), 98304);
    assert_eq!(fixed_log2(5), 147456);
    assert_eq!(fixed_log2(1536), 688128);
    assert_eq!(fixed_log2(3072), 753664);
    assert_eq!(fixed_log2(u64::MAX), 4194303);
}

#[test]
fn the_logarithm_does_not_fall() {
    let mut last = 0;
    for x in 1..5000u64 {
        let log = fixed_log2(x);
        assert!(log >= last);
        last = log;
    }
}

#[test]
fn a_weight_times_its_logarithm() {
    assert_eq!(weight_log_of(0), 0);
    assert_eq!(weight_log_of(1), 0);
    assert_eq!(weight_log_of(1024), 671088640);
    assert_eq!(weight_log_of(3), 3 * 98304);
}

#[test]
fn entropy_of_equal_weights_is_the_logarithm_of_their_number() {
    // two variants of weight 1024: one bit
    assert_eq!(entropy_of(2048, 2 * 671088640), FIXED_ONE);
    // four variants of weight 1024: two bits
    assert_eq!(entropy_of(4096, 4 * 671088640), 2 * FIXED_ONE);
    // one variant: nothing
    assert_eq!(entropy_of(1024, 671088640), 0);
    // no weight at all: nothing
    assert_eq!(entropy_of(0, 0), 0);
}

#[test]
fn entropy_is_never_below_zero() {
    assert_eq!(entropy_of(2, 1000 * FIXED_ONE as u128), 0);
}

#[test]
fn the_generator_of_random_numbers_repeats_for_a_seed() {
    let mut rng = Rng::new(1);
    assert_eq!(rng.next_u64(), 5180492295206395165);
    assert_eq!(rng.next_u64(), 12380297144915551517);
    assert_eq!(rng.next_u64(), 13389498078930870103);
    let mut again = Rng::new(1);
    assert_eq!(again.next_u64(), 5180492295206395165);
}

#[test]
fn the_seed_zero_has_a_state_of_its_own() {
    let mut rng = Rng::new(0);
    assert_eq!(rng.next_u64(), 973819730272012410);
}

#[test]
fn a_number_below_a_bound_is_a_remainder() {
    let mut rng = Rng::new(1);
    assert_eq!(rng.below(1000), 5180492295206395165 % 1000);
    assert_eq!(rng.below(7), 12380297144915551517 % 7);
    let mut one = Rng::new(99);
    for _ in 0..20 {
        assert_eq!(one.below(1), 0);
    }
}

#[test]
fn drawn_seeds_differ() {
    let seeds = [random_seed(), random_seed(), random_seed(), random_seed()];
    assert!(seeds.iter().any(|seed| *seed != seeds[0]));
}

#[test]
fn a_full_set_holds_every_number() {
    let set = BitSet::new_full(130);
    assert_eq!(set.len(), 130);
    assert_eq!(set.count(), 130);
    assert!(!set.is_empty());
    for i in 0..130 {
        assert!(set.contains(i));
    }
    assert_eq!(set.first_set(), Some(0));
    assert_eq!(set.next_set(129), Some(129));
    assert_eq!(set.next_set(130), None);
}

#[test]
fn removing_a_number_clears_its_bit() {
    let mut set = BitSet::new_full(70);
    assert!(set.remove(64));
    assert!(!set.remove(64));
    assert!(set.remove(0));
    assert_eq!(set.count(), 68);
    assert!(!set.contains(64));
    assert!(!set.contains(0));
    assert!(set.contains(63) && set.contains(65) && set.contains(1));
    assert_eq!(set.first_set(), Some(1));
    assert_eq!(set.next_set(64), Some(65));
    for i in 0..70 {
        set.remove(i);
    }
    assert!(set.is_empty());
    assert_eq!(set.count(), 0);
    assert_eq!(set.first_set(), None);
}

#[test]
fn a_set_without_numbers_is_empty() {
    let set = BitSet::new_full(0);
    assert!(set.is_empty());
    assert_eq!(set.first_set(), None);
}
