use audio2face::float_bits::{clamp32, le32, le64, lt32, lt64, neg32, neg64};
use audio2face::float_convert::{narrow, widen};

/// Patterns around every exponent, and a spread of fractions.
fn patterns32() -> Vec<u32> {
    let mut out = Vec::new();
    for e in 0u32..256 {
        for f in [0u32, 1, 2, 0x3f_ffff, 0x40_0000, 0x40_0001, 0x7f_fffe, 0x7f_ffff] {
            out.push(e << 23 | f);
            out.push(1 << 31 | e << 23 | f);
        }
    }
    out
}

fn patterns64() -> Vec<u64> {
    let mut out = Vec::new();
    for e in (0u64..2048).filter(|e| *e < 4 || (850..1160).contains(e) || *e > 2043) {
        for f in [
            0u64,
            1,
            0xf_ffff_ffff_ffff,
            0x8_0000_0000_0000,
            0x1000_0000,
            0x1000_0001,
            0x0fff_ffff,
            0x3000_0000,
            0x2fff_ffff,
            0xf_ffff_f000_0000,
            0xf_ffff_efff_ffff,
            0xf_ffff_e000_0000,
        ] {
            out.push(e << 52 | f);
            out.push(1 << 63 | e << 52 | f);
        }
    }
    out
}

#[test]
fn widening_is_the_conversion() {
    for b in patterns32() {
        let x = f32::from_bits(b);
        let r = f64::from_bits(widen(b));
        if x.is_nan() {
            assert!(r.is_nan());
        } else {
            assert_eq!(r.to_bits(), (x as f64).to_bits(), "{b:#x}");
        }
    }
}

#[test]
fn narrowing_is_the_conversion() {
    for b in patterns64() {
        let x = f64::from_bits(b);
        let r = f32::from_bits(narrow(b));
        if x.is_nan() {
            assert!(r.is_nan());
        } else {
            assert_eq!(r.to_bits(), (x as f32).to_bits(), "{b:#x}");
        }
    }
}

#[test]
fn narrowing_undoes_widening() {
    for b in patterns32() {
        if !f32::from_bits(b).is_nan() {
            assert_eq!(narrow(widen(b)), b);
        }
    }
    assert_eq!(widen(0.1f32.to_bits()), 0x3fb9_9999_a000_0000);
    assert_eq!(narrow(0.1f64.to_bits()), 0x3dcc_cccd);
}

#[test]
fn comparisons_are_those_of_floats() {
    let ps: Vec<u32> = patterns32().into_iter().step_by(37).collect();
    for a in &ps {
        for b in &ps {
            let (x, y) = (f32::from_bits(*a), f32::from_bits(*b));
            assert_eq!(lt32(*a, *b), x < y);
            assert_eq!(le32(*a, *b), x <= y);
        }
    }
    let qs: Vec<u64> = patterns64().into_iter().step_by(41).collect();
    for a in &qs {
        for b in &qs {
            let (x, y) = (f64::from_bits(*a), f64::from_bits(*b));
            assert_eq!(lt64(*a, *b), x < y);
            assert_eq!(le64(*a, *b), x <= y);
        }
    }
    assert!(le32(0.0f32.to_bits(), (-0.0f32).to_bits()));
    assert!(!lt32((-0.0f32).to_bits(), 0.0f32.to_bits()));
}

#[test]
fn negation_flips_the_sign() {
    for b in patterns32() {
        assert_eq!(neg32(b), (-f32::from_bits(b)).to_bits());
    }
    for b in patterns64() {
        assert_eq!(neg64(b), (-f64::from_bits(b)).to_bits());
    }
}

#[test]
fn clamping_is_that_of_floats() {
    for b in patterns32() {
        let x = f32::from_bits(b);
        let r = f32::from_bits(clamp32(b, (-1.5f32).to_bits(), 0.25f32.to_bits()));
        if x.is_nan() {
            assert!(r.is_nan());
        } else {
            assert_eq!(r.to_bits(), x.clamp(-1.5, 0.25).to_bits());
        }
    }
}
