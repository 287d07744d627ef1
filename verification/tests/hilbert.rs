use fast_hilbert::{h2xy, xy2h};

#[test]
fn hilbert_and_rev() {
    let order = 4;
    let max = 2usize.pow(order * 2);
    for h in 0..max {
        let (x, y): (u32, u32) = h2xy(h as u64, order as u8);
        let res_h = xy2h(x, y, order as u8);
        assert_eq!(h as u64, res_h);
    }
}

#[test]
fn hilbert_and_rev_full_order() {
    let order = 8;
    let max = 2usize.pow(order * 2);
    for h in 0..max {
        let (x, y): (u8, u8) = h2xy(h as u16, order as u8);
        let res_h = xy2h(x, y, order as u8);
        assert_eq!(h as u16, res_h);
    }
}

#[test]
fn h2xy_one_bit() {
    let h2xy = h2xy::<u8>;
    let (x0, y0) = h2xy(0, 1);
    let (x1, y1) = h2xy(1, 1);
    let (x2, y2) = h2xy(2, 1);
    let (x3, y3) = h2xy(3, 1);
    assert_eq!((x0, y0), (0, 0));
    assert_eq!((x1, y1), (0, 1));
    assert_eq!((x2, y2), (1, 1));
    assert_eq!((x3, y3), (1, 0));
}

#[test]
fn xy2h_one_bit() {
    let d0 = xy2h(0u64, 0, 1);
    let d1 = xy2h(0u64, 1, 1);
    let d2 = xy2h(1u64, 0, 1);
    let d3 = xy2h(1u64, 1, 1);
    assert_eq!(d0, 0);
    assert_eq!(d1, 1);
    assert_eq!(d2, 3);
    assert_eq!(d3, 2);
}

#[test]
fn h2xy_two_bits() {
    let h2xy = h2xy::<u32>;
    for h in 0..8 {
        let (rx, ry) = h2xy(h as u64, 2);
        let h_cmp = xy2h(rx, ry, 2);
        assert_eq!(h, h_cmp as usize);
    }
}

#[test]
fn xy2h_two_bits() {
    for x in 0..4 {
        for y in 0..4 {
            let d = hilbert_curve::convert_2d_to_1d(x, y, 4);
            let df = xy2h(x as u32, y as u32, 2);
            assert_eq!(d as u64, df);
        }
    }
}

#[test]
fn h2xy_test() {
    for &bits in &[1, 2, 3, 5, 8, 13, 16] {
        let bits = (bits + 1) & !1;
        let numbers = 2usize.pow(bits);
        for d in (0..(numbers * numbers)).step_by(numbers) {
            let (x, y) = hilbert_curve::convert_1d_to_2d(d, numbers);
            assert_eq!(xy2h(x as u32, y as u32, bits as u8), d as u64);
        }
    }
}
