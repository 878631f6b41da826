use massively::error::Error;
use massively::ops::UnaryOp;
use massively::random::{
    pcg_hash32, random_u64_at, seed_key, uniform_u32, uniform_u32_value, uniform_u64,
    UniformU32Op,
};

#[test]
fn pcg_hash_matches_reference_values() {
    assert_eq!(pcg_hash32(0), 129_708_002);
    assert_eq!(pcg_hash32(1), 2_831_084_092);
    assert_eq!(pcg_hash32(123), 1_051_671_337);
    assert_eq!(seed_key(123), 2_146_212_693);
    assert_eq!(random_u64_at(2_146_212_693, 5, 0), 95_813_761_652_951_744);
}

#[test]
fn uniform_u32_stream_is_deterministic_and_in_range() {
    let values = uniform_u32(10, 20, 123).unwrap().take(8);
    assert_eq!(values, vec![11, 18, 15, 12, 18, 18, 17, 17]);
    assert!(values.iter().all(|value| (10..=20).contains(value)));
    let again = uniform_u32(10, 20, 123).unwrap().take(8);
    assert_eq!(values, again);
    let stream = uniform_u32(10, 20, 123).unwrap();
    assert_eq!(stream.lower(3, 2), values[3..5].to_vec());
}

#[test]
fn uniform_u64_stream_stays_in_range() {
    let values = uniform_u64(100, 200, 123).unwrap().take(4);
    assert_eq!(values, vec![116, 147, 112, 108]);
    assert!(values.iter().all(|value| (100..=200).contains(value)));
}

#[test]
fn reversed_ranges_are_refused() {
    let refused = Error::Launch {
        message: "random distribution range must satisfy min <= max".to_string(),
    };
    assert_eq!(uniform_u32(5, 4, 1).err(), Some(refused.clone()));
    assert_eq!(uniform_u64(5, 4, 1).err(), Some(refused));
}

#[test]
fn full_range_draws_the_raw_word() {
    let key = seed_key(7);
    assert_eq!(uniform_u32_value(0, u32::MAX, key, 9), pcg_hash32(9 ^ key));
    assert_eq!(UniformU32Op::apply((9, 0, u32::MAX, key)), pcg_hash32(9 ^ key));
    assert_eq!(uniform_u32_value(4, 4, key, 1), 4);
}
