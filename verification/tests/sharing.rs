use secret_sharing::codec::{decode_share, encode_share, secret_from_bytes};
use secret_sharing::error::{Error, ParameterFault};
use secret_sharing::share::Share;
use secret_sharing::sharing::{
    check_consistent, check_parameters, combine, decode_shares, encode_shares, recover, split,
    split_secret, split_secret_drawn, split_secret_seeded, split_seeded,
};

fn point(x: u8, y: &[u8]) -> Share {
    Share { x, y: y.to_vec() }
}

fn pick(tokens: &[String], indices: &[usize]) -> Vec<String> {
    indices.iter().map(|&i| tokens[i].clone()).collect()
}

#[test]
fn hello_world_gives_five_distinct_tokens() {
    let tokens = split("hello world".to_string(), 5, 3).unwrap();
    assert_eq!(tokens.len(), 5);
    for i in 0..5 {
        for j in 0..i {
            assert_ne!(tokens[i], tokens[j]);
        }
    }
}

#[test]
fn hello_world_any_three_tokens_recover() {
    let tokens = split("hello world".to_string(), 5, 3).unwrap();
    for a in 0..5 {
        for b in (a + 1)..5 {
            for c in (b + 1)..5 {
                let got = combine(pick(&tokens, &[a, b, c]));
                assert_eq!(got, Ok("hello world".to_string()));
            }
        }
    }
}

#[test]
fn hello_world_any_two_tokens_do_not_recover() {
    let tokens = split("hello world".to_string(), 5, 3).unwrap();
    for a in 0..5 {
        for b in (a + 1)..5 {
            let got = combine(pick(&tokens, &[a, b]));
            assert_ne!(got, Ok("hello world".to_string()));
            assert_eq!(got, Err(Error::InsufficientShares));
        }
    }
}

#[test]
fn round_trip_over_parameters() {
    let secret = "a longer secret, with accents: \u{e9}\u{e8} and \u{4e2d}\u{6587}";
    for &(n, k) in [(3usize, 3usize), (4, 3), (7, 5), (10, 10), (255, 3), (255, 255)].iter() {
        let tokens = split(secret.to_string(), n, k).unwrap();
        assert_eq!(tokens.len(), n);
        let first: Vec<String> = tokens[..k].to_vec();
        assert_eq!(combine(first), Ok(secret.to_string()));
        let last: Vec<String> = tokens[n - k..].iter().rev().cloned().collect();
        assert_eq!(combine(last), Ok(secret.to_string()));
        assert_eq!(combine(tokens), Ok(secret.to_string()));
    }
}

#[test]
fn one_share_under_the_threshold_gives_other_bytes() {
    let secret = b"correct horse battery staple";
    let shares = split_secret_seeded(secret, 5, 4, &[5u8; 32]).unwrap();
    for skip in 0..4 {
        let three: Vec<Share> =
            (0..4).filter(|&i| i != skip).map(|i| shares[i].clone()).collect();
        let got = recover(&three).unwrap();
        assert_eq!(got.len(), secret.len());
        assert_ne!(got, secret.to_vec());
    }
    let four: Vec<Share> = shares[1..5].to_vec();
    assert_eq!(recover(&four), Ok(secret.to_vec()));
}

#[test]
fn split_refuses_threshold_above_shares() {
    for &(n, k) in [(0usize, 1usize), (1, 2), (2, 3), (3, 4), (5, 6), (255, 256), (10, 1000)].iter() {
        let want = Err(Error::InvalidParameters(ParameterFault::ThresholdAboveShares));
        assert_eq!(split("s".to_string(), n, k), want);
        assert_eq!(split_secret(b"s", n, k), Err(Error::InvalidParameters(ParameterFault::ThresholdAboveShares)));
        assert_eq!(check_parameters(n, k), Err(Error::InvalidParameters(ParameterFault::ThresholdAboveShares)));
    }
}

#[test]
fn split_refuses_threshold_below_three() {
    for &(n, k) in [(0usize, 0usize), (1, 1), (2, 2), (5, 0), (5, 1), (5, 2), (300, 2)].iter() {
        let want = Err(Error::InvalidParameters(ParameterFault::ThresholdBelowMinimum));
        assert_eq!(split("s".to_string(), n, k), want);
        assert_eq!(check_parameters(n, k), Err(Error::InvalidParameters(ParameterFault::ThresholdBelowMinimum)));
    }
}

#[test]
fn accepted_parameters_give_the_threshold_byte() {
    assert_eq!(check_parameters(3, 3), Ok(3));
    assert_eq!(check_parameters(255, 200), Ok(200));
    assert_eq!(check_parameters(255, 255), Ok(255));
    assert_eq!(check_parameters(254, 3), Ok(3));
}

#[test]
fn split_refuses_more_than_two_hundred_fifty_five_shares() {
    let want = Error::InvalidParameters(ParameterFault::SharesAboveMaximum);
    for &(n, k) in [(256usize, 3usize), (256, 256), (300, 3), (300, 259), (1000, 255)].iter() {
        assert_eq!(check_parameters(n, k), Err(want));
        assert_eq!(split("a".to_string(), n, k), Err(want));
        assert_eq!(split_secret(b"a", n, k), Err(want));
        assert_eq!(split_secret_seeded(b"a", n, k, &[3u8; 32]), Err(want));
        assert_eq!(split_seeded("a".to_string(), n, k, &[3u8; 32]), Err(want));
    }
}

#[test]
fn combine_needs_three_tokens() {
    let tokens = split("secret".to_string(), 3, 3).unwrap();
    assert_eq!(combine(vec![]), Err(Error::InsufficientShares));
    assert_eq!(combine(pick(&tokens, &[0])), Err(Error::InsufficientShares));
    assert_eq!(combine(pick(&tokens, &[0, 1])), Err(Error::InsufficientShares));
    assert_eq!(combine(vec!["not-valid-base64!!".to_string()]), Err(Error::InsufficientShares));
}

#[test]
fn recover_needs_three_shares() {
    assert_eq!(recover(&vec![]), Err(Error::InsufficientShares));
    assert_eq!(recover(&vec![point(1, &[5])]), Err(Error::InsufficientShares));
    assert_eq!(recover(&vec![point(1, &[5]), point(2, &[5])]), Err(Error::InsufficientShares));
}

#[test]
fn tokens_decode_and_encode_to_themselves() {
    let tokens = split("round and round".to_string(), 6, 4).unwrap();
    for (i, token) in tokens.iter().enumerate() {
        let share = decode_share(token).unwrap();
        assert_eq!(share.x as usize, i + 1);
        assert_eq!(share.y.len(), "round and round".len());
        assert_eq!(&encode_share(&share), token);
    }
    let shares = decode_shares(&tokens).unwrap();
    assert_eq!(encode_shares(&shares), tokens);
}

#[test]
fn malformed_tokens_are_rejected() {
    let tokens = split("secret".to_string(), 3, 3).unwrap();
    let bad = "not-valid-base64!!".to_string();
    let want = Err(Error::MalformedShare);
    assert_eq!(combine(vec![bad.clone(), bad.clone(), bad.clone()]), want);
    assert_eq!(combine(vec![bad.clone(), tokens[1].clone(), tokens[2].clone()]), want);
    assert_eq!(combine(vec![tokens[0].clone(), tokens[1].clone(), bad.clone()]), want);
    assert_eq!(decode_share(&bad), Err(Error::MalformedShare));
    assert_eq!(decode_shares(&vec![tokens[0].clone(), bad]), Err(Error::MalformedShare));
}

#[test]
fn tokens_of_too_few_bytes_are_rejected() {
    assert_eq!(decode_share(""), Err(Error::MalformedShare));
    assert_eq!(decode_share("AQ=="), Err(Error::MalformedShare));
    assert_eq!(decode_share("AQI="), Ok(point(1, &[2])));
    let short = "AQ==".to_string();
    assert_eq!(combine(vec![short.clone(), short.clone(), short]), Err(Error::MalformedShare));
}

#[test]
fn share_token_has_the_expected_text() {
    assert_eq!(encode_share(&point(1, &[2, 3])), "AQID");
    assert_eq!(decode_share("AQID"), Ok(point(1, &[2, 3])));
    assert_eq!(encode_share(&point(255, &[0])), "/wA=");
    assert_eq!(decode_share("/wA="), Ok(point(255, &[0])));
    assert_eq!(encode_share(&point(7, &[])), "Bw==");
}

#[test]
fn frame_of_a_share() {
    assert_eq!(Share::from_bytes(&[1, 2, 3]), Ok(point(1, &[2, 3])));
    assert_eq!(Share::from_bytes(&[9, 0]), Ok(point(9, &[0])));
    assert_eq!(Share::from_bytes(&[1]), Err(Error::MalformedShare));
    assert_eq!(Share::from_bytes(&[]), Err(Error::MalformedShare));
    assert_eq!(point(1, &[2, 3]).to_bytes(), vec![1, 2, 3]);
    assert_eq!(point(4, &[]).to_bytes(), vec![4]);
    let frame = vec![200u8, 1, 2, 3, 4, 5];
    assert_eq!(Share::from_bytes(&frame).unwrap().to_bytes(), frame);
}

#[test]
fn recover_interpolates_at_zero() {
    // The constant polynomial 5.
    let constant = vec![point(1, &[5]), point(2, &[5]), point(3, &[5])];
    assert_eq!(recover(&constant), Ok(vec![5]));
    // 7 + x, where addition is exclusive or.
    let line = vec![point(1, &[6]), point(2, &[5]), point(3, &[4])];
    assert_eq!(recover(&line), Ok(vec![7]));
    // 3x^2 + 2x + 5 modulo x^8 + x^4 + x^3 + x^2 + 1.
    let parabola = vec![point(1, &[4]), point(2, &[13]), point(3, &[12])];
    assert_eq!(recover(&parabola), Ok(vec![5]));
    let reordered = vec![point(3, &[12]), point(1, &[4]), point(2, &[13])];
    assert_eq!(recover(&reordered), Ok(vec![5]));
    // Two positions at once.
    let both = vec![point(1, &[6, 4]), point(2, &[5, 13]), point(3, &[4, 12])];
    assert_eq!(recover(&both), Ok(vec![7, 5]));
}

#[test]
fn inconsistent_shares_are_rejected() {
    let twice = vec![point(1, &[5]), point(2, &[5]), point(1, &[5])];
    assert_eq!(recover(&twice), Err(Error::InconsistentShares));
    assert_eq!(check_consistent(&twice), Err(Error::InconsistentShares));
    let uneven = vec![point(1, &[5]), point(2, &[5, 6]), point(3, &[5])];
    assert_eq!(recover(&uneven), Err(Error::InconsistentShares));
    assert_eq!(check_consistent(&uneven), Err(Error::InconsistentShares));
    let hollow = vec![point(1, &[]), point(2, &[]), point(3, &[])];
    assert_eq!(recover(&hollow), Err(Error::MalformedShare));
    assert_eq!(check_consistent(&hollow), Err(Error::MalformedShare));
    let fine = vec![point(1, &[5]), point(2, &[5]), point(255, &[5])];
    assert_eq!(check_consistent(&fine), Ok(()));
    assert_eq!(check_consistent(&vec![]), Ok(()));
}

#[test]
fn a_share_at_zero_is_rejected() {
    assert_eq!(Share::from_bytes(&[0, 1, 2]), Err(Error::MalformedShare));
    assert_eq!(Share::from_bytes(&[0, 0]), Err(Error::MalformedShare));
    assert_eq!(Share::from_bytes(&[0]), Err(Error::MalformedShare));
    assert_eq!(decode_share("AAEC"), Err(Error::MalformedShare));
    let zero = vec![point(1, &[5]), point(2, &[5]), point(0, &[5])];
    assert_eq!(check_consistent(&zero), Err(Error::MalformedShare));
    assert_eq!(recover(&zero), Err(Error::MalformedShare));
    let first = vec![point(0, &[b'x']), point(0, &[b'x']), point(3, &[b'x', b'y'])];
    assert_eq!(recover(&first), Err(Error::MalformedShare));
    let tokens = vec![
        encode_share(&point(1, &[b'o', b'k'])),
        "AG9r".to_string(),
        encode_share(&point(3, &[b'o', b'k'])),
    ];
    assert_eq!(encode_share(&point(0, &[b'o', b'k'])), "AG9r");
    assert_eq!(combine(tokens), Err(Error::MalformedShare));
}

#[test]
fn tokens_with_a_repeated_x_are_rejected() {
    let tokens = vec![
        encode_share(&point(1, &[5])),
        encode_share(&point(2, &[5])),
        encode_share(&point(2, &[9])),
    ];
    assert_eq!(combine(tokens), Err(Error::InconsistentShares));
}

#[test]
fn more_than_two_hundred_fifty_five_shares_hold_a_duplicate() {
    let mut shares: Vec<Share> = (1..=255u8).map(|x| point(x, &[5])).collect();
    assert_eq!(recover(&shares), Ok(vec![5]));
    assert_eq!(check_consistent(&shares), Ok(()));
    shares.push(point(17, &[5]));
    assert_eq!(recover(&shares), Err(Error::InconsistentShares));
}

#[test]
fn recovered_bytes_must_be_text() {
    let tokens = vec![
        encode_share(&point(1, &[255])),
        encode_share(&point(2, &[255])),
        encode_share(&point(3, &[255])),
    ];
    assert_eq!(combine(tokens), Err(Error::NonUtf8Secret));
    assert_eq!(secret_from_bytes(vec![0xc3, 0x28]), Err(Error::NonUtf8Secret));
    assert_eq!(secret_from_bytes(vec![0xc3, 0xa9]), Ok("\u{e9}".to_string()));
    assert_eq!(secret_from_bytes(vec![]), Ok(String::new()));
    let text = vec![
        encode_share(&point(1, &[b'o', b'k'])),
        encode_share(&point(2, &[b'o', b'k'])),
        encode_share(&point(3, &[b'o', b'k'])),
    ];
    assert_eq!(combine(text), Ok("ok".to_string()));
}

#[test]
fn dealt_shares_have_consecutive_x_and_secret_length() {
    let shares = split_secret(&[1, 2, 3, 4], 9, 3).unwrap();
    assert_eq!(shares.len(), 9);
    for (i, share) in shares.iter().enumerate() {
        assert_eq!(share.x as usize, i + 1);
        assert_eq!(share.y.len(), 4);
    }
    assert_eq!(recover(&shares), Ok(vec![1, 2, 3, 4]));
}

#[test]
fn two_hundred_fifty_five_shares_are_the_most() {
    let tokens = split("a".to_string(), 255, 3).unwrap();
    assert_eq!(tokens.len(), 255);
    let shares = split_secret(b"a", 255, 255).unwrap();
    assert_eq!(shares.len(), 255);
    assert_eq!(shares[254].x, 255);
    assert_eq!(recover(&shares), Ok(b"a".to_vec()));
}

#[test]
fn tokens_of_an_empty_secret_hold_no_share() {
    let tokens = split(String::new(), 3, 3).unwrap();
    assert_eq!(tokens, vec!["AQ==".to_string(), "Ag==".to_string(), "Aw==".to_string()]);
    assert_eq!(combine(tokens), Err(Error::MalformedShare));
}

#[test]
fn two_splits_of_one_secret_differ() {
    let secret = "the same secret, twice over".to_string();
    let first = split(secret.clone(), 3, 3).unwrap();
    let second = split(secret, 3, 3).unwrap();
    assert_ne!(first, second);
}

#[test]
fn error_messages() {
    assert_eq!(
        Error::InvalidParameters(ParameterFault::ThresholdAboveShares).message(),
        "Threshold cannot be greater than number of shares"
    );
    assert_eq!(
        Error::InvalidParameters(ParameterFault::ThresholdBelowMinimum).message(),
        "Threshold must be at least 3"
    );
    assert_eq!(
        Error::InvalidParameters(ParameterFault::SharesAboveMaximum).message(),
        "Number of shares cannot be greater than 255"
    );
    assert_eq!(Error::InsufficientShares.message(), "At least 3 shares are required");
    assert_eq!(Error::MalformedShare.message(), "Failed to parse share");
    assert_eq!(Error::InconsistentShares.message(), "Failed to recover secret");
    assert_eq!(Error::NonUtf8Secret.message(), "Recovered secret is not valid UTF-8");
    assert_eq!(Error::RandomnessFailure.message(), "The secure random source is unavailable");
}

#[test]
fn seeded_split_is_a_function_of_its_arguments() {
    let seed = [7u8; 32];
    let first = split_seeded("hello world".to_string(), 5, 3, &seed).unwrap();
    let second = split_seeded("hello world".to_string(), 5, 3, &seed).unwrap();
    assert_eq!(first, second);
    let other = split_seeded("hello world".to_string(), 5, 3, &[8u8; 32]).unwrap();
    assert_ne!(first, other);
    assert_eq!(combine(first[2..].to_vec()), Ok("hello world".to_string()));
    assert_eq!(combine(other[..3].to_vec()), Ok("hello world".to_string()));
}

#[test]
fn seeded_split_deals_known_shares() {
    let shares = split_secret_seeded(&[42, 0, 255], 4, 3, &[7u8; 32]).unwrap();
    let want = vec![
        point(1, &[17, 203, 123]),
        point(2, &[87, 48, 24]),
        point(3, &[108, 251, 156]),
        point(4, &[252, 182, 195]),
    ];
    assert_eq!(shares, want);
    assert_eq!(recover(&want[..3].to_vec()), Ok(vec![42, 0, 255]));
    assert_eq!(recover(&want[1..].to_vec()), Ok(vec![42, 0, 255]));
    assert_eq!(encode_shares(&want)[0], "ARHLew==");
}

#[test]
fn seeded_split_checks_parameters() {
    let seed = [0u8; 32];
    assert_eq!(
        split_secret_seeded(b"s", 2, 3, &seed),
        Err(Error::InvalidParameters(ParameterFault::ThresholdAboveShares))
    );
    assert_eq!(
        split_seeded("s".to_string(), 5, 2, &seed),
        Err(Error::InvalidParameters(ParameterFault::ThresholdBelowMinimum))
    );
    let shares = split_secret_seeded(b"seeded", 6, 4, &seed).unwrap();
    assert_eq!(shares.len(), 6);
    assert_eq!(recover(&shares[1..5].to_vec()), Ok(b"seeded".to_vec()));
}

#[test]
fn a_failed_draw_deals_nothing() {
    assert_eq!(split_secret_drawn(b"secret", 5, 3, None), Err(Error::RandomnessFailure));
    assert_eq!(split_secret_drawn(b"", 255, 255, None), Err(Error::RandomnessFailure));
    assert_eq!(
        split_secret_drawn(b"secret", 2, 3, None),
        Err(Error::InvalidParameters(ParameterFault::ThresholdAboveShares))
    );
    assert_eq!(
        split_secret_drawn(b"secret", 5, 2, None),
        Err(Error::InvalidParameters(ParameterFault::ThresholdBelowMinimum))
    );
    assert_eq!(
        split_secret_drawn(b"secret", 256, 3, None),
        Err(Error::InvalidParameters(ParameterFault::SharesAboveMaximum))
    );
}

#[test]
fn a_drawn_seed_is_dealt_from() {
    let seed = [7u8; 32];
    let drawn = split_secret_drawn(&[42, 0, 255], 4, 3, Some(seed)).unwrap();
    assert_eq!(drawn, split_secret_seeded(&[42, 0, 255], 4, 3, &seed).unwrap());
    assert_eq!(drawn[0], point(1, &[17, 203, 123]));
    assert_eq!(
        split_secret_drawn(b"secret", 5, 2, Some(seed)),
        Err(Error::InvalidParameters(ParameterFault::ThresholdBelowMinimum))
    );
}

#[test]
fn one_token_under_the_threshold_gives_no_shortfall_error() {
    let secret = "plain text";
    let tokens = split_seeded(secret.to_string(), 6, 5, &[11u8; 32]).unwrap();
    for skip in 0..5 {
        let four: Vec<String> =
            (0..5).filter(|&i| i != skip).map(|i| tokens[i].clone()).collect();
        let got = combine(four);
        assert_ne!(got, Ok(secret.to_string()));
        assert!(matches!(got, Ok(_) | Err(Error::NonUtf8Secret)));
    }
    assert_eq!(combine(tokens[1..].to_vec()), Ok(secret.to_string()));
}
