use bulk_gcd::big::Big;
use bulk_gcd::utils::{pad_ints, unpad_ints};

#[test]
fn it_should_pad_properly() {
    let mut input: Vec<Big> = Vec::new();
    for i in 0..5u64 {
        input.push(Big::from_u64(10 + i));
    }
    input.reverse();

    let expected = vec![
        Big::from_u64(1),
        Big::from_u64(1),
        Big::from_u64(1),
        Big::from_u64(10),
        Big::from_u64(14),
        Big::from_u64(13),
        Big::from_u64(12),
        Big::from_u64(11),
    ];
    assert_eq!(pad_ints(input), (expected, vec![5, 6, 7, 4, 0, 1, 2, 3]));
}

#[test]
fn it_should_pad_properly_with_clean_division() {
    let mut input: Vec<Big> = Vec::new();
    for i in 0..6u64 {
        input.push(Big::from_u64(10 + i));
    }

    let expected = vec![
        Big::from_u64(1),
        Big::from_u64(1),
        Big::from_u64(10),
        Big::from_u64(11),
        Big::from_u64(15),
        Big::from_u64(14),
        Big::from_u64(13),
        Big::from_u64(12),
    ];
    assert_eq!(pad_ints(input), (expected, vec![6, 7, 0, 1, 5, 4, 3, 2]));
}

#[test]
fn it_should_skip_padding() {
    let mut input: Vec<Big> = Vec::new();
    for i in 0..4u64 {
        input.push(Big::from_u64(10 + i));
    }

    let expected = vec![
        Big::from_u64(10),
        Big::from_u64(11),
        Big::from_u64(13),
        Big::from_u64(12),
    ];
    assert_eq!(pad_ints(input), (expected, vec![0, 1, 3, 2]));
}

#[test]
fn it_should_unpad_properly() {
    let input = vec![
        Big::from_u64(1),
        Big::from_u64(10),
        Big::from_u64(1),
        Big::from_u64(11),
        Big::from_u64(1),
        Big::from_u64(12),
        Big::from_u64(13),
        Big::from_u64(14),
    ];
    assert_eq!(
        unpad_ints(input, vec![6, 0, 7, 1, 8, 2, 3, 4], 5),
        vec![
            Big::from_u64(10),
            Big::from_u64(11),
            Big::from_u64(12),
            Big::from_u64(13),
            Big::from_u64(14),
        ]
    );
}

#[test]
fn pad_then_unpad_restores_the_input() {
    let mut input: Vec<Big> = Vec::new();
    for v in [90u64, 7, 1024, 7, 3] {
        input.push(Big::from_u64(v));
    }
    let expected = input.clone();

    let n = input.len();
    let (values, indices) = pad_ints(input);
    assert_eq!(unpad_ints(values, indices, n), expected);
}

#[test]
fn padded_length_is_the_next_power_of_two() {
    let mut input: Vec<Big> = Vec::new();
    for i in 0..5u64 {
        input.push(Big::from_u64(2 + i));
    }
    let (values, indices) = pad_ints(input);
    assert_eq!(values.len(), 8);
    assert_eq!(indices.len(), 8);

    let pair = pad_ints(vec![Big::from_u64(9)]);
    assert_eq!(pair.0.len(), 2);

    let exact = pad_ints(vec![
        Big::from_u64(5),
        Big::from_u64(6),
        Big::from_u64(7),
        Big::from_u64(8),
    ]);
    assert_eq!(exact.0.len(), 4);
}

#[test]
fn smallest_first_largest_in_the_middle() {
    let mut input: Vec<Big> = Vec::new();
    for v in [500u64, 2, 70000, 9, 40] {
        input.push(Big::from_u64(v));
    }
    let (values, _) = pad_ints(input);
    // Ascending lower half, descending upper half: the smallest value
    // stands at position 0 and the largest at the middle.
    let expected = vec![
        Big::from_u64(1),
        Big::from_u64(1),
        Big::from_u64(1),
        Big::from_u64(2),
        Big::from_u64(70000),
        Big::from_u64(500),
        Big::from_u64(40),
        Big::from_u64(9),
    ];
    assert_eq!(values, expected);
}
