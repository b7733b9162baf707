use rustzcash::equihash::is_valid_solution;

fn fixture_indices() -> Vec<u32> {
    vec![
        976, 126621, 100174, 123328, 38477, 105390, 38834, 90500, 6411, 116489, 51107, 129167,
        25557, 92292, 38525, 56514, 1110, 98024, 15426, 74455, 3185, 84007, 24328, 36473, 17427,
        129451, 27556, 119967, 31704, 62448, 110460, 117894,
    ]
}

#[test]
fn equihash_test_cases() {
    let input = b"block header";
    let mut nonce = [0 as u8; 32];
    let mut indices = fixture_indices();
    assert!(is_valid_solution(96, 5, input, &nonce, &indices));

    indices = vec![
        1008, 18280, 34711, 57439, 3903, 104059, 81195, 95931, 58336, 118687, 67931, 123026,
        64235, 95595, 84355, 122946, 8131, 88988, 45130, 58986, 59899, 78278, 94769, 118158,
        25569, 106598, 44224, 96285, 54009, 67246, 85039, 127667,
    ];
    assert!(is_valid_solution(96, 5, input, &nonce, &indices));

    nonce[0] = 1;
    assert!(!is_valid_solution(96, 5, input, &nonce, &indices));

    indices = vec![
        1911, 96020, 94086, 96830, 7895, 51522, 56142, 62444, 15441, 100732, 48983, 64776, 27781,
        85932, 101138, 114362, 4497, 14199, 36249, 41817, 23995, 93888, 35798, 96337, 5530, 82377,
        66438, 85247, 39332, 78978, 83015, 123505,
    ];
    assert!(is_valid_solution(96, 5, input, &nonce, &indices));

    let input2 = b"Equihash is an asymmetric PoW based on the Generalised Birthday problem.";
    indices = vec![
        2261, 15185, 36112, 104243, 23779, 118390, 118332, 130041, 32642, 69878, 76925, 80080,
        45858, 116805, 92842, 111026, 15972, 115059, 85191, 90330, 68190, 122819, 81830, 91132,
        23460, 49807, 52426, 80391, 69567, 114474, 104973, 122568,
    ];
    assert!(is_valid_solution(96, 5, input2, &nonce, &indices));
}

#[test]
fn validity_round_trip() {
    let nonce = [0u8; 32];
    let indices = fixture_indices();
    assert!(is_valid_solution(96, 5, b"block header", &nonce, &indices));
}

#[test]
fn nonce_sensitivity() {
    let mut nonce = [0u8; 32];
    let indices = fixture_indices();
    assert!(is_valid_solution(96, 5, b"block header", &nonce, &indices));
    nonce[0] = 1;
    assert!(!is_valid_solution(96, 5, b"block header", &nonce, &indices));
}

#[test]
fn input_sensitivity() {
    let nonce = [0u8; 32];
    let indices = fixture_indices();
    assert!(is_valid_solution(96, 5, b"block header", &nonce, &indices));
    let other = b"Equihash is an asymmetric PoW based on the Generalised Birthday problem.";
    assert!(!is_valid_solution(96, 5, other, &nonce, &indices));
}

#[test]
fn order_sensitivity() {
    let nonce = [0u8; 32];
    let mut indices = fixture_indices();
    indices.swap(0, 1);
    assert!(!is_valid_solution(96, 5, b"block header", &nonce, &indices));
}

#[test]
fn duplicate_rejection_adjacent() {
    let nonce = [0u8; 32];
    let mut indices = fixture_indices();
    indices[1] = indices[0];
    assert!(!is_valid_solution(96, 5, b"block header", &nonce, &indices));
}

#[test]
fn duplicate_rejection_distant() {
    let nonce = [0u8; 32];
    let mut indices = fixture_indices();
    indices[5] = indices[20];
    assert!(!is_valid_solution(96, 5, b"block header", &nonce, &indices));
}

#[test]
fn determinism() {
    let nonce = [0u8; 32];
    let indices = fixture_indices();
    let first = is_valid_solution(96, 5, b"block header", &nonce, &indices);
    let second = is_valid_solution(96, 5, b"block header", &nonce, &indices);
    assert_eq!(first, second);
    assert!(first);
}

#[test]
fn zero_levels_degenerate() {
    // With k = 0 the loop performs no merges and the single leaf's whole
    // 12-byte hash would have to be zero, which this digest is not.
    let nonce = [0u8; 32];
    let indices = vec![976u32];
    assert!(!is_valid_solution(96, 0, b"block header", &nonce, &indices));
}
