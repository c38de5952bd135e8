use lsm_engine::index::learned::{decode_model, encode_model, model_is_readable, StoredModel, HIDDEN_SIZE};

fn sample_model() -> StoredModel {
    StoredModel {
        trained: true,
        key_min: 7,
        key_max: 0x0102_0304_0506_0708,
        offset_max: 4096.0f64.to_bits(),
        max_error: 12.5f64.to_bits(),
        w1_scale: 0.25f64.to_bits(),
        w1_q: (0..HIDDEN_SIZE).map(|i| (i as i8) - 16).collect(),
        b1: (0..HIDDEN_SIZE).map(|i| (i as f64 * 0.5).to_bits()).collect(),
        w2_scale: 2.0f64.to_bits(),
        w2_q: (0..HIDDEN_SIZE).map(|i| 127 - (i as i8) * 8).collect(),
        b2: (-3.75f64).to_bits(),
    }
}

#[test]
fn stored_model_layout() {
    let m = sample_model();
    let bytes = encode_model(&m);
    assert_eq!(bytes.len(), 381);
    assert_eq!(bytes[0], 1);
    assert_eq!(&bytes[1..9], &7u64.to_le_bytes());
    assert_eq!(&bytes[17..25], &4096.0f64.to_le_bytes());
    assert_eq!(&bytes[33..37], &32u32.to_le_bytes());
    assert_eq!(&bytes[37..45], &0.25f64.to_le_bytes());
    assert_eq!(bytes[45], (-16i8) as u8);
    assert_eq!(&bytes[77..85], &0.0f64.to_le_bytes());
    assert_eq!(&bytes[333..341], &2.0f64.to_le_bytes());
    assert_eq!(bytes[341], 127);
    assert_eq!(&bytes[373..381], &(-3.75f64).to_le_bytes());
}

#[test]
fn stored_model_reads_back() {
    let m = sample_model();
    let bytes = encode_model(&m);
    assert!(model_is_readable(&bytes));
    let back = decode_model(&bytes).unwrap();
    assert_eq!(back.trained, m.trained);
    assert_eq!((back.key_min, back.key_max), (m.key_min, m.key_max));
    assert_eq!(f64::from_bits(back.offset_max), 4096.0);
    assert_eq!(f64::from_bits(back.max_error), 12.5);
    assert_eq!(back.w1_q, m.w1_q);
    assert_eq!(back.b1, m.b1);
    assert_eq!(back.w2_scale, m.w2_scale);
    assert_eq!(back.w2_q, m.w2_q);
    assert_eq!(f64::from_bits(back.b2), -3.75);
}

#[test]
fn short_and_cut_stored_models() {
    assert!(model_is_readable(&[0u8; 40]));
    assert!(decode_model(&[0u8; 40]).is_none());
    assert!(decode_model(&[]).is_none());
    // a header without the first layer's scale cannot be read
    assert!(!model_is_readable(&[0u8; 41]));
    assert!(!model_is_readable(&[0u8; 44]));
    // cut inside the second layer's weights: the rest read as zero
    let bytes = encode_model(&sample_model());
    let cut = &bytes[..350];
    assert!(model_is_readable(cut));
    let back = decode_model(cut).unwrap();
    assert_eq!(back.w2_q.len(), HIDDEN_SIZE);
    assert_eq!(back.w2_q[8], sample_model().w2_q[8]);
    assert_eq!(back.w2_q[9], 0);
    assert_eq!(back.b2, 0);
    // a recorded hidden size of 2: two weights and biases per layer
    let mut small = vec![0u8; 45];
    small[33] = 2;
    small.extend_from_slice(&[5, 6]);
    small.extend_from_slice(&1u64.to_le_bytes());
    small.extend_from_slice(&2u64.to_le_bytes());
    small.extend_from_slice(&9u64.to_le_bytes());
    small.extend_from_slice(&[0xff]);
    let back = decode_model(&small).unwrap();
    assert_eq!(back.w1_q, vec![5, 6]);
    assert_eq!(back.b1, vec![1, 2]);
    assert_eq!(back.w2_scale, 9);
    assert_eq!(back.w2_q, vec![-1, 0]);
    assert_eq!(back.b2, 0);
}
