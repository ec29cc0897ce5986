use bulk_gcd::big::Big;
use bulk_gcd::cache::Cache;
use bulk_gcd::{compute, ComputeError};

#[test]
fn it_should_fail_on_zero_moduli() {
    let moduli: Vec<Big> = vec![];
    assert!(compute(&moduli, &mut Cache::new(false)).is_err());
}

#[test]
fn it_should_fail_on_single_moduli() {
    let moduli = vec![Big::from_u64(0)];
    assert!(compute(&moduli, &mut Cache::new(false)).is_err());
}

#[test]
fn it_should_return_gcd_of_two_moduli() {
    let moduli = vec![Big::from_u64(6), Big::from_u64(15)];

    let result = compute(&moduli, &mut Cache::new(false)).unwrap();
    assert_eq!(
        result,
        vec![Some(Big::from_u64(3)), Some(Big::from_u64(3))]
    );
}

#[test]
fn it_should_find_gcd_for_many_moduli() {
    let moduli = vec![
        Big::from_u64(31 * 41),
        Big::from_u64(41),
        Big::from_u64(61),
        Big::from_u64(71 * 31),
        Big::from_u64(101 * 131),
        Big::from_u64(131 * 151),
    ];

    let result = compute(&moduli, &mut Cache::new(false)).unwrap();

    assert_eq!(
        result,
        vec![
            Some(Big::from_u64(31 * 41)),
            Some(Big::from_u64(41)),
            None,
            Some(Big::from_u64(31)),
            Some(Big::from_u64(131)),
            Some(Big::from_u64(131)),
        ]
    );
}

#[test]
fn error_is_not_enough_moduli() {
    let moduli: Vec<Big> = vec![];
    assert_eq!(
        compute(&moduli, &mut Cache::new(false)).unwrap_err(),
        ComputeError::NotEnoughModuli
    );
    let one = vec![Big::from_u64(17)];
    assert_eq!(
        compute(&one, &mut Cache::new(false)).unwrap_err(),
        ComputeError::NotEnoughModuli
    );
}

#[test]
fn error_message_names_the_shortage() {
    let moduli: Vec<Big> = vec![];
    let err = compute(&moduli, &mut Cache::new(false)).unwrap_err();
    assert_eq!(err.message(), "Not enough moduli");
}

#[test]
fn three_moduli_share_one_factor() {
    let moduli = vec![Big::from_u64(15), Big::from_u64(35), Big::from_u64(23)];

    let result = compute(&moduli, &mut Cache::new(false)).unwrap();
    assert_eq!(
        result,
        vec![Some(Big::from_u64(5)), Some(Big::from_u64(5)), None]
    );
}

#[test]
fn four_moduli_mixed_factors() {
    let moduli = vec![
        Big::from_u64(15),
        Big::from_u64(35),
        Big::from_u64(23),
        Big::from_u64(49),
    ];

    let result = compute(&moduli, &mut Cache::new(false)).unwrap();
    assert_eq!(
        result,
        vec![
            Some(Big::from_u64(5)),
            Some(Big::from_u64(35)),
            None,
            Some(Big::from_u64(7)),
        ]
    );
}

#[test]
fn coprime_input_yields_all_nulls() {
    let moduli = vec![
        Big::from_u64(3),
        Big::from_u64(5),
        Big::from_u64(7),
        Big::from_u64(11),
        Big::from_u64(13),
    ];

    let result = compute(&moduli, &mut Cache::new(false)).unwrap();
    assert_eq!(result, vec![None, None, None, None, None]);
}

#[test]
fn unit_modulus_is_ordinary_input() {
    let moduli = vec![Big::from_u64(6), Big::from_u64(15), Big::from_u64(1)];

    let result = compute(&moduli, &mut Cache::new(false)).unwrap();
    assert_eq!(
        result,
        vec![Some(Big::from_u64(3)), Some(Big::from_u64(3)), None]
    );
}

#[test]
fn nontrivial_result_divides_its_modulus() {
    let moduli = vec![Big::from_u64(12), Big::from_u64(18)];

    let result = compute(&moduli, &mut Cache::new(false)).unwrap();
    // gcd(12, 18) = 6: greater than 1 and a divisor of both moduli.
    assert_eq!(
        result,
        vec![Some(Big::from_u64(6)), Some(Big::from_u64(6))]
    );
}

#[test]
fn result_length_matches_input_length() {
    let moduli = vec![
        Big::from_u64(101),
        Big::from_u64(103),
        Big::from_u64(107),
        Big::from_u64(109),
        Big::from_u64(113),
        Big::from_u64(127),
        Big::from_u64(131),
    ];

    let result = compute(&moduli, &mut Cache::new(false)).unwrap();
    assert_eq!(result.len(), moduli.len());
}

#[test]
fn cache_does_not_change_results() {
    let moduli = vec![
        Big::from_u64(31 * 41),
        Big::from_u64(41),
        Big::from_u64(61),
        Big::from_u64(71 * 31),
        Big::from_u64(101 * 131),
        Big::from_u64(131 * 151),
    ];

    let plain = compute(&moduli, &mut Cache::new(false)).unwrap();

    // A fresh enabled cache: same results, and the derived levels are
    // recorded for a later run.
    let mut cache = Cache::new(true);
    let first = compute(&moduli, &mut cache).unwrap();
    assert_eq!(first, plain);
    assert!(cache.entry_count() >= 1);

    // A rerun over the recorded checkpoints: same results again.
    let second = compute(&moduli, &mut cache).unwrap();
    assert_eq!(second, plain);
}

#[test]
fn cache_records_the_halved_level() {
    let moduli = vec![
        Big::from_u64(3),
        Big::from_u64(5),
        Big::from_u64(7),
        Big::from_u64(11),
        Big::from_u64(13),
        Big::from_u64(17),
    ];

    let mut cache = Cache::new(true);
    compute(&moduli, &mut cache).unwrap();
    // Padded length 8: the only level strictly between the input and the
    // pre-last target is length 4.
    assert!(cache.entry_count() >= 1);
    assert_eq!(cache.entry_len(0), 4);
    assert_eq!(cache.entry_level(0).len(), 4);
}

#[test]
fn disabled_cache_stays_empty() {
    let moduli = vec![Big::from_u64(6), Big::from_u64(15)];
    let mut cache = Cache::new(false);
    compute(&moduli, &mut cache).unwrap();
    assert_eq!(cache.entry_count(), 0);
}
