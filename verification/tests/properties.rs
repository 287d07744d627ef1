use fast_hilbert::{h2xy, xy2h, Unsigned, UnsignedBase};

#[test]
fn roundtrip_all_small_orders() {
    for order in 1..=8u8 {
        let side = 1u32 << order;
        let step = if side > 16 { (side / 16) as usize } else { 1 };
        for x in (0..side).step_by(step) {
            for y in (0..side).step_by(step) {
                let h = xy2h(x, y, order);
                let (rx, ry) = h2xy::<u32>(h, order);
                assert_eq!((rx, ry), (x, y));
            }
        }
    }
}

#[test]
fn bijection_small_orders() {
    for order in 1..=8u8 {
        let max = 4u64.pow(order as u32);
        let mut seen = vec![false; max as usize];
        for h in 0..max {
            let (x, y) = h2xy::<u32>(h, order);
            let back = xy2h(x, y, order);
            assert_eq!(back, h);
            assert!(!seen[back as usize]);
            seen[back as usize] = true;
        }
        assert!(seen.iter().all(|&v| v));
    }
}

#[test]
fn cross_width_consistency() {
    let samples: [u8; 6] = [0, 1, 2, 5, 100, 255];
    for &x in &samples {
        for &y in &samples {
            for order in [1u8, 2, 4, 7, 8] {
                let h8 = xy2h(x, y, order);
                let h16 = xy2h(x as u16, y as u16, order);
                let h32 = xy2h(x as u32, y as u32, order);
                let h64 = xy2h(x as u64, y as u64, order);
                assert_eq!(h8 as u128, h64);
                assert_eq!(h16 as u128, h64);
                assert_eq!(h32 as u128, h64);
            }
        }
    }
}

#[test]
fn cross_width_decode_consistency() {
    let samples: [u16; 6] = [0, 1, 3, 77, 1000, 65535];
    for &h in &samples {
        for order in [1u8, 3, 8] {
            let (x8, y8) = h2xy::<u8>(h, order);
            let (x32, y32) = h2xy::<u32>(h as u64, order);
            assert_eq!((x8 as u32, y8 as u32), (x32, y32));
        }
    }
}

#[test]
fn boundary_order_u32() {
    let cases: [(u32, u32); 4] = [
        (u32::MAX, u32::MAX),
        (u32::MAX, 0),
        (0, u32::MAX),
        (0x89ab_cdef, 0x1234_5678),
    ];
    for &(x, y) in &cases {
        let h = xy2h(x, y, 32);
        let (rx, ry) = h2xy::<u32>(h, 32);
        assert_eq!((rx, ry), (x, y));
    }
}

#[test]
fn boundary_order_u64() {
    let cases: [(u64, u64); 4] = [
        (u64::MAX, u64::MAX),
        (u64::MAX, 0),
        (0, u64::MAX),
        (0xfedc_ba98_7654_3210, 0x0123_4567_89ab_cdef),
    ];
    for &(x, y) in &cases {
        let h = xy2h(x, y, 64);
        let (rx, ry) = h2xy::<u64>(h, 64);
        assert_eq!((rx, ry), (x, y));
    }
}

#[test]
fn encode_origin_is_zero() {
    for order in 0..=64u8 {
        assert_eq!(xy2h(0u64, 0, order), 0);
    }
    let (x, y) = h2xy::<u64>(0, 4);
    assert_eq!((x, y), (0, 0));
}

#[test]
fn odd_order_adds_one_bit() {
    // With an odd requested order the walk covers one more bit, so the
    // same coordinates land on a different, still invertible, index.
    let x = 2u32;
    let y = 3u32;
    let h_even = xy2h(x, y, 2);
    let h_odd = xy2h(x, y, 3);
    assert_eq!(h2xy::<u32>(h_even, 2), (x, y));
    assert_eq!(h2xy::<u32>(h_odd, 3), (x, y));
    assert_ne!(h_even, h_odd);
}

#[test]
fn leading_zeros_matches_width() {
    assert_eq!(<u8 as UnsignedBase>::leading_zeros(0), 8);
    assert_eq!(<u8 as UnsignedBase>::leading_zeros(1), 7);
    assert_eq!(<u8 as UnsignedBase>::leading_zeros(255), 0);
    assert_eq!(<u16 as UnsignedBase>::leading_zeros(1), 15);
    assert_eq!(<u32 as UnsignedBase>::leading_zeros(0x8000_0000), 0);
    assert_eq!(<u64 as UnsignedBase>::leading_zeros(1), 63);
    assert_eq!(<u128 as UnsignedBase>::leading_zeros(1), 127);
}

#[test]
fn widening_and_narrowing_roundtrip() {
    assert_eq!(u8::from_u128(200u8.to_u128()), 200u8);
    assert_eq!(u16::from_u128(60000u16.to_u128()), 60000u16);
    assert_eq!(u32::from_u128(u32::MAX.to_u128()), u32::MAX);
    assert_eq!(u64::from_u128(u64::MAX.to_u128()), u64::MAX);
    let key: <u64 as Unsigned>::Key = u128::MAX;
    assert_eq!(u128::from_u128(key.to_u128()), u128::MAX);
}

#[test]
fn order_contributes_only_parity() {
    // The walked order is derived from the significant bits; the requested
    // order only contributes whether it is odd or even.
    let x = 3u8;
    let y = 2u8;
    assert_eq!(xy2h(x, y, 2), xy2h(x, y, 8));
    assert_eq!(xy2h(x, y, 2), xy2h(x, y, 200));
    assert_eq!(xy2h(x, y, 3), xy2h(x, y, 201));
    let h = 9u16;
    assert_eq!(h2xy::<u8>(h, 4), h2xy::<u8>(h, 250));
    assert_eq!(h2xy::<u8>(h, 5), h2xy::<u8>(h, 251));
}

#[test]
fn odd_and_even_requested_orders_roundtrip() {
    for order in 1..=8u8 {
        for h in 0..64u32 {
            let (x, y) = h2xy::<u16>(h, order);
            assert_eq!(xy2h(x, y, order), h);
        }
    }
}
