use gf2_solver::digest::{
    bits_from_bytes, digest_sum, vec_from_str, xor_digest, DIGEST_BYTES, LEN,
};
use gf2_solver::error::SolveError;
use gf2_solver::words::{find_solution, verify_words};

fn bytes_of_hex(hex: &str) -> Vec<u8> {
    let digits: Vec<u8> = hex.chars().map(|c| c.to_digit(16).unwrap() as u8).collect();
    digits.chunks(2).map(|pair| pair[0] * 16 + pair[1]).collect()
}

#[test]
fn bits_come_out_least_significant_first() {
    assert_eq!(bits_from_bytes(&[0x01]), vec![1, 0, 0, 0, 0, 0, 0, 0]);
    assert_eq!(bits_from_bytes(&[0x80]), vec![0, 0, 0, 0, 0, 0, 0, 1]);
    assert_eq!(
        bits_from_bytes(&[0xaf, 0x13]),
        vec![1, 1, 1, 1, 0, 1, 0, 1, 1, 1, 0, 0, 1, 0, 0, 0]
    );
    assert_eq!(bits_from_bytes(&[]), Vec::<u8>::new());
}

#[test]
fn vector_of_the_empty_string() {
    let digest = bytes_of_hex("af1349b9f5f9a1a6a0404dea36dcc9499bcb25c9adc112b7cc9a93cae41f3262");
    assert_eq!(digest.len(), DIGEST_BYTES);
    let v = vec_from_str("");
    assert_eq!(v.len(), LEN);
    assert_eq!(v, bits_from_bytes(&digest));
    assert_eq!(&v[..8], &[1, 1, 1, 1, 0, 1, 0, 1]);
}

#[test]
fn vector_of_a_string_is_the_bits_of_its_digest() {
    let v = vec_from_str("hello world");
    let digest = blake3::hash(b"hello world");
    assert_eq!(v.len(), 256);
    for byte_index in 0..32 {
        for bit_index in 0..8 {
            assert_eq!(
                v[8 * byte_index + bit_index],
                (digest.as_bytes()[byte_index] >> bit_index) & 1
            );
        }
    }
    assert_ne!(v, vec_from_str("hello worle"));
}

#[test]
fn xor_digest_xors_byte_by_byte() {
    let mut sum = [0u8; 32];
    let mut digest = [0u8; 32];
    for i in 0..32 {
        sum[i] = i as u8;
        digest[i] = 0xf0;
    }
    xor_digest(&mut sum, &digest);
    for i in 0..32 {
        assert_eq!(sum[i], (i as u8) ^ 0xf0);
    }
    assert_eq!(sum[5], 0xf5);
    xor_digest(&mut sum, &digest);
    for i in 0..32 {
        assert_eq!(sum[i], i as u8);
    }
}

#[test]
fn digest_sum_of_nothing_is_zero() {
    assert_eq!(digest_sum(&Vec::new()), [0u8; 32]);
}

#[test]
fn digest_sum_of_one_word_is_its_digest() {
    assert_eq!(digest_sum(&vec!["abc"]), *blake3::hash(b"abc").as_bytes());
}

#[test]
fn digest_sum_cancels_a_word_given_twice() {
    assert_eq!(digest_sum(&vec!["abc", "def", "abc"]), *blake3::hash(b"def").as_bytes());
}

#[test]
fn verify_words_accepts_the_target_itself() {
    assert_eq!(verify_words("abc", &vec!["abc"]), Ok(()));
    assert_eq!(verify_words("abc", &vec!["def", "abc", "def"]), Ok(()));
}

#[test]
fn verify_words_rejects_other_words() {
    assert_eq!(verify_words("abc", &vec!["abd"]), Err(SolveError::InternalVerificationFailure));
    assert_eq!(verify_words("abc", &Vec::new()), Err(SolveError::InternalVerificationFailure));
}

#[test]
fn find_solution_finds_the_target_among_the_words() {
    let words = vec!["alpha", "beta", "gamma", "delta"];
    assert_eq!(find_solution("gamma", &words), Ok(vec!["gamma"]));
}

#[test]
fn find_solution_reports_a_target_out_of_reach() {
    let words = vec!["alpha", "beta", "gamma", "delta"];
    assert_eq!(find_solution("epsilon", &words), Err(SolveError::Inconsistent));
    assert_eq!(find_solution("epsilon", &Vec::new()), Err(SolveError::Inconsistent));
}

#[test]
fn find_solution_over_many_words() {
    let owned: Vec<String> = (0..400).map(|i| format!("word{}", i)).collect();
    let words: Vec<&str> = owned.iter().map(|w| w.as_str()).collect();
    let found = find_solution("hello world", &words).unwrap();
    assert!(found.len() <= 256);
    assert_eq!(verify_words("hello world", &found), Ok(()));
    assert_eq!(digest_sum(&found), *blake3::hash(b"hello world").as_bytes());
    // The words found stand in the order of the list, none twice.
    let places: Vec<usize> =
        found.iter().map(|w| words.iter().position(|x| x == w).unwrap()).collect();
    for pair in places.windows(2) {
        assert!(pair[0] < pair[1]);
    }
    assert_eq!(find_solution("hello world", &words), Ok(found));
}
