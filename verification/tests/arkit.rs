use audio2face::arkit::{ArkitSmoother, BlendshapeFrame, ARKIT_52, ARKIT_BLENDSHAPE_NAMES};
use audio2face::error::Error;
use audio2face::float_ops::FloatOps;
use serde_json::{Number, Value};

struct Hardware;

impl FloatOps for Hardware {
    fn add32(a: u32, b: u32) -> u32 {
        (f32::from_bits(a) + f32::from_bits(b)).to_bits()
    }
    fn sub32(a: u32, b: u32) -> u32 {
        (f32::from_bits(a) - f32::from_bits(b)).to_bits()
    }
    fn mul32(a: u32, b: u32) -> u32 {
        (f32::from_bits(a) * f32::from_bits(b)).to_bits()
    }
    fn div32(a: u32, b: u32) -> u32 {
        (f32::from_bits(a) / f32::from_bits(b)).to_bits()
    }
    fn add64(a: u64, b: u64) -> u64 {
        (f64::from_bits(a) + f64::from_bits(b)).to_bits()
    }
    fn sub64(a: u64, b: u64) -> u64 {
        (f64::from_bits(a) - f64::from_bits(b)).to_bits()
    }
    fn mul64(a: u64, b: u64) -> u64 {
        (f64::from_bits(a) * f64::from_bits(b)).to_bits()
    }
    fn div64(a: u64, b: u64) -> u64 {
        (f64::from_bits(a) / f64::from_bits(b)).to_bits()
    }
    fn sqrt64(a: u64) -> u64 {
        f64::from_bits(a).sqrt().to_bits()
    }
}

fn ramp() -> [u32; ARKIT_52] {
    let mut w = [0u32; ARKIT_52];
    for i in 0..ARKIT_52 {
        w[i] = (i as f32 * 0.1 - 1.0).to_bits();
    }
    w
}

fn object(members: Vec<(&str, Value)>) -> Value {
    let mut m = serde_json::Map::new();
    for (k, v) in members {
        m.insert(k.to_string(), v);
    }
    Value::Object(m)
}

fn weights(n: usize) -> Value {
    Value::Array(vec![Value::Number(Number::from(0u64)); n])
}

fn fault(v: &Value) -> String {
    match BlendshapeFrame::from_json(v) {
        Err(Error::InvalidData(text)) => text,
        other => panic!("{other:?}"),
    }
}

#[test]
fn names_are_distinct() {
    for i in 0..ARKIT_52 {
        for j in 0..i {
            assert_ne!(ARKIT_BLENDSHAPE_NAMES[i], ARKIT_BLENDSHAPE_NAMES[j]);
        }
    }
    assert_eq!(ARKIT_BLENDSHAPE_NAMES[0], "eyeBlinkLeft");
    assert_eq!(ARKIT_BLENDSHAPE_NAMES[17], "jawOpen");
    assert_eq!(ARKIT_BLENDSHAPE_NAMES[51], "tongueOut");
}

#[test]
fn frames_are_written_as_objects() {
    let v = BlendshapeFrame::new(ramp(), 1234, Some(7)).to_json();
    let m = v.as_object().unwrap();
    assert_eq!(m.len(), 4);
    assert_eq!(m["kind"], Value::from("blendshapes"));
    assert_eq!(m["pts_ms"], Value::from(1234u64));
    assert_eq!(m["turn_id"], Value::from(7u64));
    let list = m["arkit_52"].as_array().unwrap();
    assert_eq!(list.len(), ARKIT_52);
    for i in 0..ARKIT_52 {
        assert_eq!(list[i], Value::from(f32::from_bits(ramp()[i])));
    }
    let w = BlendshapeFrame::neutral(5).to_json();
    assert_eq!(w.as_object().unwrap().len(), 3);
    assert!(w.get("turn_id").is_none());
}

#[test]
fn frames_read_back() {
    for turn in [None, Some(0), Some(u64::MAX)] {
        let frame = BlendshapeFrame::new(ramp(), u64::MAX, turn);
        let read = BlendshapeFrame::from_json(&frame.to_json()).unwrap();
        assert_eq!(read.arkit_52, frame.arkit_52);
        assert_eq!(read.pts_ms, frame.pts_ms);
        assert_eq!(read.turn_id, frame.turn_id);
    }
    let text = BlendshapeFrame::new(ramp(), 3, None).to_json().to_string();
    let parsed: Value = text.parse().unwrap();
    assert_eq!(BlendshapeFrame::from_json(&parsed).unwrap().arkit_52, ramp());
}

#[test]
fn infinite_weights_do_not_read_back() {
    for bad in [f32::NAN, f32::INFINITY, f32::NEG_INFINITY] {
        let mut w = ramp();
        w[9] = bad.to_bits();
        let v = BlendshapeFrame::new(w, 3, None).to_json();
        assert_eq!(v["arkit_52"][9], Value::Null);
        assert_eq!(fault(&v), "arkit_52[9] is not a number");
    }
}

#[test]
fn numbers_are_rounded_to_binary32() {
    let mut list = vec![Value::Number(Number::from(0u64)); ARKIT_52];
    list[0] = Value::from(0.1f64);
    list[1] = Value::from(-3i64);
    list[2] = Value::from(u64::MAX);
    list[3] = Value::from(1e300f64);
    let v = object(vec![
        ("kind", Value::from("blendshapes")),
        ("arkit_52", Value::Array(list)),
        ("pts_ms", Value::from(1u64)),
        ("turn_id", Value::from("nine")),
    ]);
    let frame = BlendshapeFrame::from_json(&v).unwrap();
    assert_eq!(frame.arkit_52[0], 0.1f32.to_bits());
    assert_eq!(frame.arkit_52[1], (-3.0f32).to_bits());
    assert_eq!(frame.arkit_52[2], (u64::MAX as f64 as f32).to_bits());
    assert_eq!(frame.arkit_52[3], f32::INFINITY.to_bits());
    assert_eq!(frame.turn_id, None);
}

#[test]
fn misshapen_frames_are_refused() {
    let kind = ("kind", Value::from("blendshapes"));
    assert_eq!(
        fault(&Value::Null),
        "BlendshapeFrame::from_json: expected kind='blendshapes', got \"\""
    );
    assert_eq!(
        fault(&object(vec![("kind", Value::from("a\"b\n"))])),
        "BlendshapeFrame::from_json: expected kind='blendshapes', got \"a\\\"b\\n\""
    );
    assert_eq!(
        fault(&object(vec![("kind", Value::from(3u64))])),
        "BlendshapeFrame::from_json: expected kind='blendshapes', got \"\""
    );
    assert_eq!(fault(&object(vec![kind.clone()])), "missing arkit_52 array");
    assert_eq!(
        fault(&object(vec![kind.clone(), ("arkit_52", Value::from("x"))])),
        "missing arkit_52 array"
    );
    for n in [0usize, 51, 53, 100] {
        assert_eq!(
            fault(&object(vec![kind.clone(), ("arkit_52", weights(n))])),
            format!("arkit_52 must have 52 entries, got {n}")
        );
    }
    let mut list = vec![Value::Number(Number::from(0u64)); ARKIT_52];
    list[51] = Value::from("1.0");
    list[12] = Value::Null;
    assert_eq!(
        fault(&object(vec![kind.clone(), ("arkit_52", Value::Array(list))])),
        "arkit_52[12] is not a number"
    );
    for pts in [Value::Null, Value::from(-1i64), Value::from(1.0f64), Value::from("1")] {
        assert_eq!(
            fault(&object(vec![kind.clone(), ("arkit_52", weights(52)), ("pts_ms", pts)])),
            "missing or non-u64 pts_ms"
        );
    }
}

#[test]
fn the_neutral_frame_is_zero() {
    let f = BlendshapeFrame::neutral(40);
    assert_eq!(f.arkit_52, [0u32; ARKIT_52]);
    assert_eq!((f.pts_ms, f.turn_id), (40, None));
}

#[test]
fn smoothing_mixes_in_the_last_output() {
    let mut s = ArkitSmoother::new(0.25f32.to_bits());
    let first = ramp();
    assert_eq!(s.smooth::<Hardware>(&first), first);
    let second = [1.0f32.to_bits(); ARKIT_52];
    let out = s.smooth::<Hardware>(&second);
    for i in 0..ARKIT_52 {
        let want = 0.25f32 * f32::from_bits(first[i]) + 0.75f32 * 1.0f32;
        assert_eq!(out[i], want.to_bits());
    }
    let third = s.smooth::<Hardware>(&second);
    assert_eq!(f32::from_bits(third[10]), 0.25 * f32::from_bits(out[10]) + 0.75);
}

#[test]
fn the_share_is_clamped() {
    let ones = [1.0f32.to_bits(); ARKIT_52];
    let twos = [2.0f32.to_bits(); ARKIT_52];
    let mut none = ArkitSmoother::new((-3.0f32).to_bits());
    none.smooth::<Hardware>(&ones);
    assert_eq!(none.smooth::<Hardware>(&twos), twos);
    let mut all = ArkitSmoother::new(3.0f32.to_bits());
    all.smooth::<Hardware>(&ones);
    assert_eq!(all.smooth::<Hardware>(&twos), ones);
}

#[test]
fn a_reset_passes_the_next_frame() {
    let mut s = ArkitSmoother::new(0.5f32.to_bits());
    s.smooth::<Hardware>(&[1.0f32.to_bits(); ARKIT_52]);
    s.reset();
    assert_eq!(s.save(), ([0u32; ARKIT_52], false));
    assert_eq!(s.smooth::<Hardware>(&ramp()), ramp());
}

#[test]
fn a_snapshot_restores_the_state() {
    let mut s = ArkitSmoother::new(0.5f32.to_bits());
    s.smooth::<Hardware>(&ramp());
    let saved = s.save();
    assert_eq!(saved, (ramp(), true));
    let next = [4.0f32.to_bits(); ARKIT_52];
    let once = s.smooth::<Hardware>(&next);
    s.restore(saved);
    assert_eq!(s.smooth::<Hardware>(&next), once);
    s.reset();
    s.restore(saved);
    assert_eq!(s.save(), saved);
}

/// The outputs for a few different frames with the share `alpha`.
fn smoothed(alpha: f32, inputs: &[[u32; ARKIT_52]]) -> Vec<Vec<f32>> {
    let mut s = ArkitSmoother::new(alpha.to_bits());
    let out = |w: [u32; ARKIT_52]| w.iter().map(|b| f32::from_bits(*b)).collect::<Vec<f32>>();
    inputs.iter().map(|w| out(s.smooth::<Hardware>(w))).collect()
}

fn some_frames() -> Vec<[u32; ARKIT_52]> {
    let scaled = |k: f32| ramp().map(|b| (f32::from_bits(b) * k).to_bits());
    vec![ramp(), scaled(-3.0), scaled(0.01), [0x8000_0000; ARKIT_52], scaled(1e20)]
}

#[test]
fn no_share_passes_everything() {
    let frames = some_frames();
    for alpha in [0.0, -0.0, -5.0, f32::NEG_INFINITY] {
        for (out, input) in smoothed(alpha, &frames).iter().zip(&frames) {
            for (o, i) in out.iter().zip(input) {
                assert_eq!(*o, f32::from_bits(*i));
            }
        }
    }
}

#[test]
fn a_whole_share_keeps_the_first_frame() {
    let frames = some_frames();
    for alpha in [1.0, 7.0, f32::INFINITY] {
        for out in smoothed(alpha, &frames) {
            for (o, i) in out.iter().zip(&frames[0]) {
                assert_eq!(*o, f32::from_bits(*i));
            }
        }
    }
}

#[test]
fn a_restored_smoother_goes_on_alike() {
    let frames = some_frames();
    let mut a = ArkitSmoother::new(0.3f32.to_bits());
    a.smooth::<Hardware>(&frames[2]);
    let saved = a.save();
    let mut b = ArkitSmoother::new(0.3f32.to_bits());
    b.smooth::<Hardware>(&frames[1]);
    b.restore(saved);
    for frame in &frames {
        assert_eq!(a.smooth::<Hardware>(frame), b.smooth::<Hardware>(frame));
    }
}

#[test]
fn outputs_stay_between_the_inputs() {
    let mut state = 7u64;
    let mut frames = Vec::new();
    for _ in 0..200 {
        let mut w = [0u32; ARKIT_52];
        for b in &mut w {
            state = state.wrapping_mul(6364136223846793005).wrapping_add(1442695040888963407);
            *b = ((state >> 40) as f32 / (1u32 << 24) as f32 * 3.0 - 1.0).to_bits();
        }
        frames.push(w);
    }
    for alpha in [0.1, 0.5, 0.999] {
        let outs = smoothed(alpha, &frames);
        for i in 0..ARKIT_52 {
            let column: Vec<f32> = frames.iter().map(|w| f32::from_bits(w[i])).collect();
            let lo = column.iter().copied().fold(f32::INFINITY, f32::min) as f64;
            let hi = column.iter().copied().fold(f32::NEG_INFINITY, f32::max) as f64;
            for (k, out) in outs.iter().enumerate() {
                let slack = (k + 1) as f64 * 2.0 / 1_048_576.0;
                let o = out[i] as f64;
                assert!(lo - slack <= o && o <= hi + slack, "{k} {i}");
            }
        }
    }
}
