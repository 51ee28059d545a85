use banana::{decode, encode, is_valid, random, DecodeParams, EncodeParams};

#[test]
fn test_macro() {
    for test in [
        (1u64, "be"),
        (1000, "duga"),
        (100000000000, "tumuzadofopa"),
        (u64::MAX, "cenicovutinazamofevafa"),
    ] {
        assert_eq!(encode(test.0, &EncodeParams::default()).unwrap(), test.1);
        assert_eq!(decode(test.1, &DecodeParams::default()).unwrap(), test.0);
        assert_eq!(
            is_valid(
                &encode(test.0, &EncodeParams::default()).unwrap(),
                &DecodeParams::default()
            ),
            true
        );
    }

    assert_eq!(is_valid("123", &DecodeParams::default()), false);
    assert!(random(&EncodeParams::default()).unwrap().len() > 0)
}

#[test]
fn test_alphabet_shift() {
    for test in [
        (1u64, "be", 0usize),
        (1, "ac", 1),
        (1000, "ebem", 3),
        (1, "ac", usize::MAX),
    ] {
        assert_eq!(
            encode(
                test.0,
                &EncodeParams {
                    alphabet_shift: Some(test.2),
                    ..Default::default()
                },
            )
            .unwrap(),
            test.1
        );

        assert_eq!(
            decode(
                test.1,
                &DecodeParams {
                    alphabet_shift: Some(test.2),
                    ..Default::default()
                },
            )
            .unwrap(),
            test.0
        );
    }
}

#[test]
fn test_alphabet_end() {
    for test in [
        (1u64, "be", 0usize),
        (1, "c", 1),
        (1000, "bebem", 3),
        (1, "c", usize::MAX),
    ] {
        assert_eq!(
            encode(
                test.0,
                &EncodeParams {
                    alphabet_end: Some(test.2),
                    ..Default::default()
                },
            )
            .unwrap(),
            test.1
        );

        assert_eq!(
            decode(
                test.1,
                &DecodeParams {
                    alphabet_end: Some(test.2),
                    ..Default::default()
                },
            )
            .unwrap(),
            test.0
        );
    }
}

#[test]
fn test_min_length() {
    for test in [
        (1u64, "be", 0usize),
        (1, "be", 1),
        (1, "bababababe", 10),
        (1000, "bababaduga", 10),
    ] {
        assert_eq!(
            encode(
                test.0,
                &EncodeParams {
                    min_length: Some(test.2),
                    ..Default::default()
                },
            )
            .unwrap(),
            test.1
        );

        assert_eq!(decode(test.1, &DecodeParams::default()).unwrap(), test.0);
    }
}

#[test]
fn test_alphabets() {
    for test in [
        (1u64, "aw", vec!["abc".to_string(), "qwe".to_string()]),
        (8, "ce", vec!["abc".to_string(), "qwe".to_string()]),
        (9, "awaq", vec!["abc".to_string(), "qwe".to_string()]),
        (
            9,
            "bq1",
            vec!["abc".to_string(), "qwe".to_string(), "123".to_string()],
        ),
        (
            27,
            "aq2aq1",
            vec!["abc".to_string(), "qwe".to_string(), "123".to_string()],
        ),
        (
            0,
            "🐼🐶🐱",
            vec![
                "🐼🐵🦍".to_string(),
                "🐶🐺🦊".to_string(),
                "🐱🦁🐯".to_string(),
            ],
        ),
        (
            27,
            "🐼🐶🦁🐼🐶🐱",
            vec![
                "🐼🐵🦍".to_string(),
                "🐶🐺🦊".to_string(),
                "🐱🦁🐯".to_string(),
            ],
        ),
    ] {
        assert_eq!(
            encode(
                test.0,
                &EncodeParams {
                    alphabets: Some(test.2.clone()),
                    ..Default::default()
                },
            )
            .unwrap(),
            test.1
        );

        assert_eq!(
            decode(
                test.1,
                &DecodeParams {
                    alphabets: Some(test.2.clone()),
                    ..Default::default()
                }
            )
            .unwrap(),
            test.0
        );
    }
}
