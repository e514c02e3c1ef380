use rinha_2026::distance::{
    l2sq_i16, l2sq_i16_avx2, l2sq_i16_scalar, pad_lanes, Vec14I, DIM, DIM_PAD, LANE_SQ_MAX,
    QUANT_SCALE, SENTINEL_I16,
};

fn quantize(v: &[f32; DIM]) -> Vec14I {
    let mut lanes = [0i16; DIM];
    for i in 0..DIM {
        lanes[i] = (v[i] * QUANT_SCALE as f32).round() as i16;
    }
    pad_lanes(&lanes)
}

#[test]
fn quantize_roundtrip_and_sentinel() {
    let v: [f32; DIM] = [
        0.0, 1.0, 0.5, -1.0, 0.0041, 0.1667, 0.05, 0.7826, 0.3333, -1.0, 0.0, 0.5, 0.99999, 0.001,
    ];
    let q = quantize(&v);
    assert_eq!(q[0], 0);
    assert_eq!(q[1], QUANT_SCALE as i16);
    assert_eq!(q[3], SENTINEL_I16);
    assert_eq!(q[9], SENTINEL_I16);
    for i in DIM..DIM_PAD {
        assert_eq!(q[i], 0, "padding lane {} not zero", i);
    }
}

#[test]
fn simd_matches_scalar_random() {
    let mut state: u64 = 0xDEADBEEF;
    let mut next = || -> i16 {
        state = state
            .wrapping_mul(6364136223846793005)
            .wrapping_add(1442695040888963407);
        ((state >> 33) as i32 - i16::MAX as i32 / 2) as i16
    };
    for _ in 0..200 {
        let mut a: Vec14I = [0; DIM_PAD];
        let mut b: Vec14I = [0; DIM_PAD];
        for i in 0..DIM {
            a[i] = next();
            b[i] = next();
        }
        let scalar = l2sq_i16_scalar(&a, &b);
        let simd = l2sq_i16_avx2(&a, &b);
        assert_eq!(scalar, simd, "mismatch a={:?} b={:?}", a, b);
    }
}

#[test]
fn lanes_keep_their_place_when_padded() {
    let lanes: [i16; DIM] = [1, 2, 3, 4, 5, 6, 7, 8, 9, 10, 11, 12, 13, 14];
    assert_eq!(
        pad_lanes(&lanes),
        [1, 2, 3, 4, 5, 6, 7, 8, 9, 10, 11, 12, 13, 14, 0, 0]
    );
}

#[test]
fn distances_have_their_exact_value() {
    let mut a: Vec14I = [0; DIM_PAD];
    let b: Vec14I = [0; DIM_PAD];
    assert_eq!(l2sq_i16(&a, &b), 0);
    a[0] = 3;
    a[9] = -4;
    assert_eq!(l2sq_i16(&a, &b), 25);
    assert_eq!(l2sq_i16(&b, &a), 25);
    assert_eq!(l2sq_i16_scalar(&a, &b), 25);
    assert_eq!(l2sq_i16_avx2(&a, &b), 25);
}

#[test]
fn the_widest_distance_fits() {
    let a: Vec14I = [i16::MAX; DIM_PAD];
    let b: Vec14I = [i16::MIN; DIM_PAD];
    let widest = 16 * LANE_SQ_MAX as u64;
    assert_eq!(widest, 16 * 65535 * 65535);
    assert_eq!(l2sq_i16_scalar(&a, &b), widest);
    assert_eq!(l2sq_i16_avx2(&a, &b), widest);
}

#[test]
fn padding_lanes_add_no_distance() {
    let a = pad_lanes(&[7; DIM]);
    let b = pad_lanes(&[5; DIM]);
    assert_eq!(l2sq_i16(&a, &b), 14 * 4);
}
