use bit_compact::scalar::Scalar;

fn s(v: f32) -> Scalar {
    Scalar { bits: v.to_bits() }
}

#[test]
fn whole_parts_as_indices() {
    let values = [
        0.0, -0.0, 0.25, 0.999, 1.0, 1.5, 2.0, 2.75, 254.99, 255.0, 8388607.5, 8388608.0,
        16777216.0, 1e9, 3e18, 9.3e18, 1.7e19, 2e19, 1e30, -0.5, -1.0, -7.0, 1e-40,
        f32::MAX, f32::INFINITY, f32::NEG_INFINITY, f32::NAN,
    ];
    for v in values {
        for last in [0usize, 1, 9, 254, 100_000, usize::MAX] {
            assert_eq!(s(v).to_index(last, false), (v.floor() as usize).min(last), "{v} {last}");
            assert_eq!(s(v).to_index(last, true), (v.ceil() as usize).min(last), "{v} {last}");
        }
        let held = if v > 255.0 { 255.0 } else { v };
        assert_eq!(s(v).to_byte(), held as u8, "{v}");
    }
}

#[test]
fn the_next_number_below() {
    assert_eq!(s(1.0).previous(), s(1.0 - f32::EPSILON / 2.0));
    assert_eq!(s(0.0).previous(), Scalar { bits: 0x8000_0001 });
    assert_eq!(s(-0.0).previous(), Scalar { bits: 0x8000_0001 });
    assert_eq!(s(-1.0).previous(), s(-1.0 - f32::EPSILON));
    assert_eq!(s(f32::INFINITY).previous(), s(f32::MAX));
    assert_eq!(s(f32::MIN).previous(), s(f32::NEG_INFINITY));
}
