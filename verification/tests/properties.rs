use banana::{decode, encode, is_valid, random, BananaError, DecodeParams, EncodeParams};

fn enc_params(
    shift: usize,
    end: usize,
    min_length: usize,
    alphabets: Option<Vec<String>>,
) -> EncodeParams {
    EncodeParams {
        alphabet_shift: Some(shift),
        alphabet_end: Some(end),
        min_length: Some(min_length),
        alphabets,
    }
}

fn dec_params(shift: usize, end: usize, alphabets: Option<Vec<String>>) -> DecodeParams {
    DecodeParams {
        alphabet_shift: Some(shift),
        alphabet_end: Some(end),
        alphabets,
    }
}

#[test]
fn round_trip_over_parameter_grid() {
    for &value in &[0u64, 1, 2, 57, 1000, u64::MAX] {
        for &shift in &[0usize, 1, 4096] {
            for &end in &[0usize, 1, 4097] {
                for &min_length in &[0usize, 1, 10] {
                    let word = encode(value, &enc_params(shift, end, min_length, None)).unwrap();
                    assert!(word.chars().count() >= min_length.max(1));
                    assert_eq!(
                        decode(&word, &dec_params(shift, end, None)).unwrap(),
                        value
                    );
                    assert!(is_valid(&word, &dec_params(shift, end, None)));
                }
            }
        }
    }
}

#[test]
fn round_trip_with_caller_alphabets() {
    let sets: Vec<Vec<String>> = vec![
        vec!["ab".to_string()],
        vec!["z".to_string(), "ab".to_string()],
        vec!["abc".to_string(), "qwe".to_string(), "123".to_string(), "xy".to_string()],
    ];
    for alphabets in sets {
        for &value in &[0u64, 1, 5, 12345] {
            let word = encode(value, &enc_params(0, 0, 1, Some(alphabets.clone()))).unwrap();
            assert_eq!(
                decode(&word, &dec_params(0, 0, Some(alphabets.clone()))).unwrap(),
                value
            );
        }
    }
}

#[test]
fn validate_agrees_with_decode() {
    for word in ["", "be", "b", "123", "duga", "xyzw", "aaaa", "cenicovutinazamofevafa"] {
        let params = DecodeParams::default();
        assert_eq!(is_valid(word, &params), decode(word, &params).is_ok());
        let shifted = dec_params(1, 1, None);
        assert_eq!(is_valid(word, &shifted), decode(word, &shifted).is_ok());
    }
}

#[test]
fn empty_alphabet_is_rejected() {
    let alphabets = Some(vec![String::new(), "ab".to_string()]);
    assert_eq!(
        encode(5, &enc_params(0, 0, 1, alphabets.clone())),
        Err(BananaError::InvalidAlphabet)
    );
    assert_eq!(
        random(&enc_params(0, 0, 1, alphabets)),
        Err(BananaError::InvalidAlphabet)
    );
}

#[test]
fn decode_rejects_malformed_words() {
    // Wrong length class: one character cannot end on the vowel alphabet.
    assert_eq!(
        decode("b", &DecodeParams::default()),
        Err(BananaError::InvalidBanana)
    );
    // Characters outside their position's alphabet.
    assert_eq!(
        decode("eb", &DecodeParams::default()),
        Err(BananaError::InvalidBanana)
    );
    assert_eq!(
        decode("123456", &DecodeParams::default()),
        Err(BananaError::InvalidBanana)
    );
}

#[test]
fn single_character_alphabets_pin_the_word() {
    let alphabets = Some(vec!["x".to_string(), "y".to_string()]);
    assert_eq!(encode(0, &enc_params(0, 0, 1, alphabets.clone())).unwrap(), "xy");
    assert_eq!(decode("xy", &dec_params(0, 0, alphabets.clone())).unwrap(), 0);
    // Every digit drawn at random still has only one choice per position.
    assert_eq!(random(&enc_params(0, 0, 4, alphabets)).unwrap(), "xyxy");
}

#[test]
fn random_words_validate_and_meet_min_length() {
    for &min_length in &[1usize, 2, 9] {
        for &shift in &[0usize, 1] {
            for &end in &[0usize, 1] {
                let params = enc_params(shift, end, min_length, None);
                let word = random(&params).unwrap();
                assert!(word.chars().count() >= min_length);
                assert!(is_valid(&word, &dec_params(shift, end, None)));
            }
        }
    }
    let alphabets = vec!["abc".to_string(), "qwe".to_string(), "123".to_string()];
    let params = enc_params(2, 1, 5, Some(alphabets.clone()));
    let word = random(&params).unwrap();
    assert!(word.chars().count() >= 5);
    assert!(is_valid(&word, &dec_params(2, 1, Some(alphabets))));
}

#[test]
fn empty_supplied_list_falls_back_to_defaults() {
    let params = enc_params(0, 0, 1, Some(vec![]));
    assert_eq!(encode(1, &params).unwrap(), "be");
    assert_eq!(decode("be", &dec_params(0, 0, Some(vec![]))).unwrap(), 1);
}
