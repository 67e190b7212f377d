use kcp_rs::fec::decoder::reconstruct;
use kcp_rs::fec::{FecConfig, FecDecoder, FecEncoder, GF256};

#[test]
fn test_decoder_creation() {
    let config = FecConfig::new(4, 2);
    let decoder = FecDecoder::new(config);
    assert_eq!(decoder.config().data_shards, 4);
}

#[test]
fn test_full_matrix_structure() {
    let config = FecConfig::new(2, 1);
    let decoder = FecDecoder::new(config);

    // Identity part
    assert_eq!(decoder.full_matrix[0][0], GF256::new(1));
    assert_eq!(decoder.full_matrix[0][1], GF256::new(0));
    assert_eq!(decoder.full_matrix[1][0], GF256::new(0));
    assert_eq!(decoder.full_matrix[1][1], GF256::new(1));

    // Parity row is Vandermonde
    assert_eq!(decoder.full_matrix[2][0], GF256::new(1)); // 3^0 = 1
}

#[test]
fn test_encode_decode_roundtrip() {
    let config = FecConfig::new(2, 1);
    let mut encoder = FecEncoder::new(config);
    let mut decoder = FecDecoder::new(config);

    let data0 = [0x11, 0x22, 0x33, 0x44];
    let data1 = [0x55, 0x66, 0x77, 0x88];

    let data_refs: [&[u8]; 2] = [&data0, &data1];
    let mut parity = vec![vec![0u8; 4]];
    assert!(encoder.encode(&data_refs, &mut parity, 4));

    // Parity was generated
    assert!(!parity[0].iter().all(|&x| x == 0));

    let recovered = [0u8; 4];
    let mut shards: Vec<Option<Vec<u8>>> = vec![
        Some(recovered.to_vec()), // buffer for data0
        Some(data1.to_vec()),     // data1 present
        Some(parity[0].clone()),  // parity present
    ];

    // All shards present, so nothing to recover
    let result = decoder.decode(&mut shards, 4);
    assert!(result);
}

#[test]
fn test_no_loss() {
    let config = FecConfig::new(2, 1);
    let mut decoder = FecDecoder::new(config);

    let data0 = [0x11, 0x22, 0x33, 0x44];
    let data1 = [0x55, 0x66, 0x77, 0x88];
    let parity = [0x00; 4];

    let mut shards: Vec<Option<Vec<u8>>> =
        vec![Some(data0.to_vec()), Some(data1.to_vec()), Some(parity.to_vec())];

    assert!(decoder.decode(&mut shards, 4));
}

#[test]
fn test_insufficient_shards() {
    let config = FecConfig::new(2, 1);
    let mut decoder = FecDecoder::new(config);

    let data1 = [0x55, 0x66, 0x77, 0x88];

    // Only 1 shard present, 2 needed
    let mut shards: Vec<Option<Vec<u8>>> = vec![None, Some(data1.to_vec()), None];

    assert!(!decoder.decode(&mut shards, 4));
}

#[test]
fn test_matrix_inversion() {
    let config = FecConfig::new(2, 1);
    let mut decoder = FecDecoder::new(config);

    decoder.decode_matrix[0][0] = GF256::new(1);
    decoder.decode_matrix[0][1] = GF256::new(2);
    decoder.decode_matrix[1][0] = GF256::new(3);
    decoder.decode_matrix[1][1] = GF256::new(4);

    assert!(decoder.invert_matrix(2));
}

#[test]
fn matrix_inversion_gives_left_inverse() {
    let config = FecConfig::new(3, 1);
    let mut decoder = FecDecoder::new(config);
    let m = [[1u8, 2, 3], [4, 5, 6], [7, 8, 10]];
    for i in 0..3 {
        for j in 0..3 {
            decoder.decode_matrix[i][j] = GF256::new(m[i][j]);
        }
    }
    assert!(decoder.invert_matrix(3));
    for d in 0..3 {
        for l in 0..3 {
            let mut acc = GF256::new(0);
            for j in 0..3 {
                acc = acc.add(decoder.decode_matrix[d][j].mul(GF256::new(m[j][l])));
            }
            assert_eq!(acc, GF256::new(if d == l { 1 } else { 0 }));
        }
    }
}

#[test]
fn singular_matrix_is_refused() {
    let config = FecConfig::new(2, 1);
    let mut decoder = FecDecoder::new(config);
    decoder.decode_matrix[0][0] = GF256::new(2);
    decoder.decode_matrix[0][1] = GF256::new(4);
    decoder.decode_matrix[1][0] = GF256::new(1);
    decoder.decode_matrix[1][1] = GF256::new(2);
    assert!(!decoder.invert_matrix(2));
}

#[test]
fn decode_with_erasures_recovers_every_single_loss() {
    let config = FecConfig::new(3, 2);
    let mut encoder = FecEncoder::new(config);
    let data = [[0x10u8, 0x20, 0x30], [0x0Fu8, 0xF0, 0x55], [0xAAu8, 0x01, 0x99]];
    let refs: [&[u8]; 3] = [&data[0], &data[1], &data[2]];
    let mut parity = vec![vec![0u8; 3], vec![0u8; 3]];
    assert!(encoder.encode(&refs, &mut parity, 3));
    for lost in 0..3 {
        let mut decoder = FecDecoder::new(config);
        let mut shards: Vec<Vec<u8>> = data.iter().map(|d| d.to_vec()).collect();
        shards.push(parity[0].clone());
        shards.push(parity[1].clone());
        shards[lost] = vec![0u8; 3];
        let mut erasures = [false; 5];
        erasures[lost] = true;
        assert!(decoder.decode_with_erasures(&mut shards, &erasures, 3));
        assert_eq!(shards[lost], data[lost].to_vec());
    }
}

#[test]
fn decode_with_erasures_recovers_two_losses() {
    let config = FecConfig::new(2, 2);
    let mut encoder = FecEncoder::new(config);
    let d0 = [1u8, 2, 3, 4, 5];
    let d1 = [9u8, 8, 7, 6, 5];
    let refs: [&[u8]; 2] = [&d0, &d1];
    let mut parity = vec![vec![0u8; 5], vec![0u8; 5]];
    assert!(encoder.encode(&refs, &mut parity, 5));
    let mut decoder = FecDecoder::new(config);
    let mut shards = vec![vec![0u8; 5], vec![0u8; 5], parity[0].clone(), parity[1].clone()];
    assert!(decoder.decode_with_erasures(&mut shards, &[true, true, false, false], 5));
    assert_eq!(shards[0], d0.to_vec());
    assert_eq!(shards[1], d1.to_vec());
}

#[test]
fn decode_with_erasures_refusals() {
    let config = FecConfig::new(2, 1);
    let mut decoder = FecDecoder::new(config);
    let mut shards = vec![vec![1u8; 4], vec![2u8; 4], vec![3u8; 4]];
    // too few shards kept
    assert!(!decoder.decode_with_erasures(&mut shards, &[true, true, false], 4));
    // counts that do not match
    assert!(!decoder.decode_with_erasures(&mut shards, &[false, false], 4));
    // shard size past the maximum
    assert!(!decoder.decode_with_erasures(&mut shards, &[true, false, false], 1377));
    assert_eq!(shards, vec![vec![1u8; 4], vec![2u8; 4], vec![3u8; 4]]);
    // nothing missing among the data shards
    assert!(decoder.decode_with_erasures(&mut shards, &[false, false, true], 4));
    assert_eq!(shards, vec![vec![1u8; 4], vec![2u8; 4], vec![3u8; 4]]);
}

#[test]
fn reconstruct_checks_without_writing() {
    let config = FecConfig::new(2, 1);
    let mut shards: Vec<Option<Vec<u8>>> = vec![None, Some(vec![1, 2]), Some(vec![3, 4])];
    assert!(reconstruct(config, &mut shards, 2));
    assert_eq!(shards, vec![None, Some(vec![1, 2]), Some(vec![3, 4])]);
    let mut too_few: Vec<Option<Vec<u8>>> = vec![None, None, Some(vec![3, 4])];
    assert!(!reconstruct(config, &mut too_few, 2));
}

#[test]
fn balanced_preset_recovers_every_two_losses() {
    let config = FecConfig::balanced();
    let mut encoder = FecEncoder::new(config);
    let data: Vec<Vec<u8>> = (0..4u8).map(|i| vec![i.wrapping_mul(37), i ^ 0x5A, 200 - i]).collect();
    let refs: Vec<&[u8]> = data.iter().map(|d| d.as_slice()).collect();
    let mut parity = vec![vec![0u8; 3], vec![0u8; 3]];
    assert!(encoder.encode(&refs, &mut parity, 3));
    for a in 0..6 {
        for b in (a + 1)..6 {
            let mut shards: Vec<Vec<u8>> = data.clone();
            shards.push(parity[0].clone());
            shards.push(parity[1].clone());
            shards[a] = vec![0u8; 3];
            shards[b] = vec![0u8; 3];
            let mut erasures = [false; 6];
            erasures[a] = true;
            erasures[b] = true;
            let mut decoder = FecDecoder::new(config);
            assert!(decoder.decode_with_erasures(&mut shards, &erasures, 3));
            assert_eq!(&shards[..4], &data[..]);
        }
    }
}

#[test]
fn high_protection_preset_cannot_recover_every_four_losses() {
    // Keeping data shards 0, 2, 3, 5 and all four parity shards gives a singular system
    let config = FecConfig::high_protection();
    let mut decoder = FecDecoder::new(config);
    let mut shards: Vec<Vec<u8>> = (0..12u8).map(|i| vec![i; 2]).collect();
    let mut erasures = [false; 12];
    for lost in [1usize, 4, 6, 7] {
        erasures[lost] = true;
    }
    let before = shards.clone();
    assert!(!decoder.decode_with_erasures(&mut shards, &erasures, 2));
    assert_eq!(shards, before);
}
