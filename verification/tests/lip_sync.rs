use audio2face::arkit::{ArkitSmoother, BlendshapeFrame, ARKIT_52};
use audio2face::audio2face::animator_skin_config::AnimatorSkinConfig;
use audio2face::audio2face::blendshape_data::{BlendshapeConfig, BlendshapeData};
use audio2face::audio2face::bvls_solver::BvlsBlendshapeSolver;
use audio2face::audio2face::identity::Audio2FaceIdentity;
use audio2face::audio2face::solver_math::SolverMath;
use audio2face::error::Error;
use audio2face::float_ops::FloatOps;
use audio2face::lip_sync::buffer::{buffer_start, take_windows};
use audio2face::lip_sync::call::{Action, Call, Event};
use audio2face::lip_sync::config::{
    default_pace_realtime, Audio2FaceLipSyncConfig, SolverChoice,
};
use audio2face::lip_sync::factory::{
    load_error, task_error, Audio2FaceLipSyncNodeFactory, BundlePart,
};
use audio2face::lip_sync::node::{
    aux_port_of, AudioChunk, Audio2FaceLipSyncNode, StreamData,
};
use audio2face::lip_sync::pacing::{pace, PaceAnchor};
use audio2face::lip_sync::skin::{
    check_config, check_mask, expand, masked_delta, skin_frame_to_arkit,
};
use audio2face::lip_sync::window::{
    run_window, AUDIO_BUFFER_LEN, NUM_CENTER_FRAMES, SKIN_SIZE,
};
use serde_json::Value;

struct Hardware;

impl FloatOps for Hardware {
    fn add32(a: u32, b: u32) -> u32 {
        (f32::from_bits(a) + f32::from_bits(b)).to_bits()
    }
    fn sub32(a: u32, b: u32) -> u32 {
        (f32::from_bits(a) - f32::from_bits(b)).to_bits()
    }
    fn mul32(a: u32, b: u32) -> u32 {
        (f32::from_bits(a) * f32::from_bits(b)).to_bits()
    }
    fn div32(a: u32, b: u32) -> u32 {
        (f32::from_bits(a) / f32::from_bits(b)).to_bits()
    }
    fn add64(a: u64, b: u64) -> u64 {
        (f64::from_bits(a) + f64::from_bits(b)).to_bits()
    }
    fn sub64(a: u64, b: u64) -> u64 {
        (f64::from_bits(a) - f64::from_bits(b)).to_bits()
    }
    fn mul64(a: u64, b: u64) -> u64 {
        (f64::from_bits(a) * f64::from_bits(b)).to_bits()
    }
    fn div64(a: u64, b: u64) -> u64 {
        (f64::from_bits(a) / f64::from_bits(b)).to_bits()
    }
    fn sqrt64(a: u64) -> u64 {
        f64::from_bits(a).sqrt().to_bits()
    }
}

/// Plain sums, and a regularisation that adds its strengths to the diagonal.
struct Plain;

impl SolverMath for Plain {
    fn compute_transpose(delta_matrix: &Vec<u32>, v: usize, k: usize) -> Vec<u64> {
        let mut dt = vec![0u64; k * v];
        for j in 0..v {
            for i in 0..k {
                dt[i * v + j] = (f32::from_bits(delta_matrix[j * k + i]) as f64).to_bits();
            }
        }
        dt
    }
    fn compute_dt_d(dt: &Vec<u64>, k: usize, v: usize) -> Vec<u64> {
        let at = |i: usize, j: usize| f64::from_bits(dt[i * v + j]);
        let mut a = vec![0u64; k * k];
        for i in 0..k {
            for j in 0..k {
                a[i * k + j] = (0..v).map(|p| at(i, p) * at(j, p)).sum::<f64>().to_bits();
            }
        }
        a
    }
    fn compute_bounding_box_diagonal(flat: &Vec<u32>) -> u64 {
        let mut sum = 0.0f64;
        for c in 0..3 {
            let xs: Vec<f64> =
                flat.iter().skip(c).step_by(3).map(|b| f32::from_bits(*b) as f64).collect();
            let lo = xs.iter().copied().fold(f64::INFINITY, f64::min);
            let hi = xs.iter().copied().fold(f64::NEG_INFINITY, f64::max);
            sum += (hi - lo) * (hi - lo);
        }
        sum.sqrt().to_bits()
    }
    fn apply_regularization(
        mut a: Vec<u64>,
        k: usize,
        scale: u64,
        strength_l2: u32,
        strength_l1: u32,
        strength_temporal: u32,
    ) -> (Vec<u64>, u64) {
        let s = f64::from_bits(scale);
        let temporal = f32::from_bits(strength_temporal) as f64 * s;
        let ridge = (f32::from_bits(strength_l2) + f32::from_bits(strength_l1)) as f64 * s;
        for i in 0..k {
            a[i * k + i] = (f64::from_bits(a[i * k + i]) + ridge + temporal).to_bits();
        }
        (a, temporal.to_bits())
    }
}

type Node = Audio2FaceLipSyncNode<BvlsBlendshapeSolver<Hardware>>;

fn bits(xs: &[f32]) -> Vec<u32> {
    xs.iter().map(|x| x.to_bits()).collect()
}

fn animator() -> AnimatorSkinConfig {
    AnimatorSkinConfig {
        skin_strength: 2.0f32.to_bits(),
        eyelid_open_offset: 0.5f32.to_bits(),
        lip_open_offset: 0.25f32.to_bits(),
    }
}

/// Two masked vertices of a mesh with many, and one pose that moves the first
/// component of the first of them.
fn data() -> BlendshapeData {
    let n = SKIN_SIZE;
    BlendshapeData {
        frontal_mask: vec![4, 1],
        neutral_flat: bits(&[1.0, 0.0, 0.0, 0.0, 0.0, 0.0]),
        neutral_skin_flat: vec![1.0f32.to_bits(); n],
        eye_close_pose_delta_flat: vec![0.5f32.to_bits(); n],
        lip_open_pose_delta_flat: vec![1.0f32.to_bits(); n],
        masked_position_count: 6,
        active_count: 1,
        delta_matrix: bits(&[2.0, 0.0, 0.0, 0.0, 0.0, 0.0]),
    }
}

fn config() -> BlendshapeConfig {
    let mut multipliers = vec![1.0f32.to_bits(); ARKIT_52];
    let mut offsets = vec![0u32; ARKIT_52];
    multipliers[17] = 0.5f32.to_bits();
    offsets[17] = 0.125f32.to_bits();
    offsets[3] = 4.0f32.to_bits();
    BlendshapeConfig {
        active_indices: vec![17],
        multipliers,
        offsets,
        template_bb_size: 0,
        strength_l2: 0,
        strength_l1: 0,
        strength_temporal: 0,
    }
}

fn node(pace_realtime: bool, alpha: f32) -> Node {
    let c = Audio2FaceLipSyncConfig {
        pace_realtime,
        smoothing_alpha: alpha.to_bits(),
        identity: Audio2FaceIdentity::Mark,
        ..Audio2FaceLipSyncConfig::default()
    };
    Node::assemble::<Plain>(c, config(), animator(), data()).unwrap()
}

/// A network's answer in which frame `f` holds `f / 64` everywhere.
fn answer() -> Vec<u32> {
    let mut out = Vec::with_capacity(NUM_CENTER_FRAMES * SKIN_SIZE);
    for f in 0..NUM_CENTER_FRAMES {
        out.resize((f + 1) * SKIN_SIZE, (f as f32 / 64.0).to_bits());
    }
    out
}

/// The weight of blendshape 17 for a skin that holds `x` everywhere.
fn weight(x: f32) -> f32 {
    let composed = 2.0 * x + 0.5 * -0.5 + 1.0 * 0.25;
    let delta = 1.0 + composed - 1.0;
    (delta / 2.0).clamp(0.0, 1.0) * 0.5 + 0.125
}

fn chunk(n: usize, sample_rate: u32, pts_us: Option<u64>) -> StreamData {
    let metadata = pts_us.map(|us| {
        let mut m = serde_json::Map::new();
        m.insert("pts_us".to_string(), Value::from(us));
        Value::Object(m)
    });
    StreamData::Audio(AudioChunk { samples: (0..n as u32).collect(), sample_rate, metadata })
}

fn message(key: &str, value: &str) -> Value {
    let mut m = serde_json::Map::new();
    m.insert(key.to_string(), Value::from(value));
    Value::Object(m)
}

/// Everything that one call asks for.
#[derive(Default)]
struct Run {
    resets: usize,
    forwards: usize,
    windows: Vec<Vec<u32>>,
    slots: Vec<usize>,
    sleeps: Vec<u128>,
    frames: Vec<BlendshapeFrame>,
    end: Option<Result<usize, Error>>,
}

/// Runs a call with a clock that stands at `now` and moves only in sleeps.
fn run(node: &mut Node, data: StreamData, now: &mut u64) -> Run {
    let mut out = Run::default();
    let (mut call, mut action) = Call::begin(node, data);
    loop {
        let event = match action {
            Action::ResetModel => {
                out.resets += 1;
                Event::ModelReset
            }
            Action::Forward => {
                out.forwards += 1;
                Event::Forwarded
            }
            Action::Infer { window, identity } => {
                out.windows.push(window);
                out.slots.push(identity);
                Event::Inferred(answer())
            }
            Action::ReadClock => Event::Now(*now),
            Action::Sleep(ns) => {
                out.sleeps.push(ns);
                *now += ns as u64;
                Event::Slept
            }
            Action::Emit(v) => {
                out.frames.push(BlendshapeFrame::from_json(&v).unwrap());
                Event::Emitted
            }
            Action::Finish(end) => {
                out.end = Some(end);
                return out;
            }
        };
        assert!(call.expects(&event));
        action = call.step(node, event);
    }
}

fn count(run: &Run) -> usize {
    match &run.end {
        Some(Ok(n)) => *n,
        other => panic!("{other:?}"),
    }
}

#[test]
fn deltas_compose_skin_eyes_and_lips() {
    let skin = vec![0.75f32.to_bits(); SKIN_SIZE];
    let delta = masked_delta::<Hardware>(&animator(), &data(), &skin);
    let composed = 2.0f32 * 0.75 + 0.5 * -0.5 + 1.0 * 0.25;
    assert_eq!(delta[0], (1.0f32 + composed - 1.0).to_bits());
    for p in 1..6 {
        assert_eq!(delta[p], (1.0f32 + composed - 0.0).to_bits());
    }
}

#[test]
fn vertices_come_from_the_mask() {
    let mut d = data();
    d.neutral_skin_flat = (0..SKIN_SIZE).map(|i| (i as f32).to_bits()).collect();
    let zero = AnimatorSkinConfig { skin_strength: 0, eyelid_open_offset: 0, lip_open_offset: 0 };
    let delta = masked_delta::<Hardware>(&zero, &d, &vec![0; SKIN_SIZE]);
    assert_eq!(delta, bits(&[11.0, 13.0, 14.0, 3.0, 4.0, 5.0]));
}

#[test]
fn vertices_outside_the_mesh_are_left_out() {
    let skin = vec![0u32; SKIN_SIZE];
    for bad in [-1, i32::MIN, i32::MAX, (SKIN_SIZE / 3) as i32] {
        let mut d = data();
        d.frontal_mask[0] = bad;
        let delta = masked_delta::<Hardware>(&animator(), &d, &skin);
        assert_eq!(&delta[..3], &[0, 0, 0]);
        assert_eq!(delta[3], 1.0f32.to_bits());
    }
    let mut d = data();
    d.lip_open_pose_delta_flat.truncate(14);
    let delta = masked_delta::<Hardware>(&animator(), &d, &skin);
    assert_eq!(&delta[..3], &[0, 0, 0]);
    assert_eq!(delta[5], 1.0f32.to_bits());
    let mut e = data();
    e.frontal_mask.truncate(1);
    assert_eq!(&masked_delta::<Hardware>(&animator(), &e, &skin)[3..], &[0, 0, 0]);
}

#[test]
fn parts_are_held_against_each_other() {
    assert!(check_mask(&data(), SKIN_SIZE));
    let mut d = data();
    d.masked_position_count = 5;
    assert!(!check_mask(&d, SKIN_SIZE));
    d.frontal_mask[1] = -1;
    assert!(check_mask(&d, SKIN_SIZE));
    assert!(check_config(&config(), 1));
    assert!(!check_config(&config(), 0));
    let mut c = config();
    c.active_indices = vec![17, 52];
    assert!(check_config(&c, 1));
    c.multipliers.pop();
    assert!(!check_config(&c, 1));
    let mut e = config();
    e.offsets.pop();
    assert!(!check_config(&e, 1));
}

/// A call on a window of audio, of a node over these parts: how it ends.
fn end_over(bs_config: BlendshapeConfig, data: BlendshapeData) -> Vec<Run> {
    let c = Audio2FaceLipSyncConfig { pace_realtime: false, ..Audio2FaceLipSyncConfig::default() };
    let mut n = Node::assemble::<Plain>(c, bs_config, animator(), data).unwrap();
    let mut now = 0;
    let short = run(&mut n, chunk(15_999, 16_000, None), &mut now);
    let full = run(&mut n, chunk(1, 16_000, None), &mut now);
    vec![short, full]
}

#[test]
fn parts_that_do_not_fit_fail_when_a_window_runs() {
    let mut few = data();
    few.masked_position_count = 3;
    few.delta_matrix.truncate(3);
    let mut bare = config();
    bare.multipliers.pop();
    let mut wide = config();
    wide.active_indices = vec![17, 18];
    for runs in [end_over(config(), few), end_over(bare, data()), end_over(wide, data())] {
        assert_eq!((runs[0].forwards, count(&runs[0])), (1, 1));
        assert_eq!((runs[1].forwards, runs[1].windows.len()), (1, 1));
        assert!(runs[1].frames.is_empty());
        match &runs[1].end {
            Some(Err(Error::Execution(text))) => assert_eq!(
                text,
                "Audio2FaceLipSyncNode inference task panicked: the window broke off"
            ),
            other => panic!("{other:?}"),
        }
    }
}

#[test]
fn weights_spread_to_their_blendshapes() {
    let mut c = config();
    c.active_indices = vec![17, 60, 2, 17];
    let raw = expand::<Hardware>(&c, &bits(&[1.0, 2.0, 3.0, 4.0]));
    assert_eq!(raw[17], (4.0f32 * 0.5 + 0.125).to_bits());
    assert_eq!(raw[2], 3.0f32.to_bits());
    assert_eq!(raw[3], 4.0f32.to_bits());
    assert_eq!(raw[0], 0);
}

fn solver() -> BvlsBlendshapeSolver<Hardware> {
    let d = data();
    BvlsBlendshapeSolver::new::<Plain>(&d.delta_matrix, 6, 1, &d.neutral_flat, 0, 0, 0, 0).unwrap()
}

#[test]
fn skin_frames_become_smoothed_weights() {
    let mut s = solver();
    let mut smoother = ArkitSmoother::new(0.5f32.to_bits());
    let mut convert = |x: f32| {
        let skin = vec![x.to_bits(); SKIN_SIZE];
        let a = skin_frame_to_arkit(&skin, &mut s, &mut smoother, &config(), &animator(), &data());
        f32::from_bits(a.unwrap()[17])
    };
    let first = convert(0.25);
    assert_eq!(first, weight(0.25));
    assert_eq!(convert(0.5), 0.5 * first + 0.5 * weight(0.5));
}

#[test]
fn windows_give_thirty_timed_frames() {
    let mut s = solver();
    let mut smoother = ArkitSmoother::new(0);
    let frames =
        run_window(&answer(), 7000, None, &mut s, &mut smoother, &config(), &animator(), &data())
            .unwrap();
    assert_eq!(frames.len(), 30);
    for (f, frame) in frames.iter().enumerate() {
        let step = 1000.0_f64 / 30.0;
        assert_eq!(frame.pts_ms, 7000 + (f as f64 * step) as u64);
        assert_eq!(frame.turn_id, None);
        assert_eq!(f32::from_bits(frame.arkit_52[17]), weight(f as f32 / 64.0));
    }
    assert_eq!(frames[29].pts_ms, 7966);
    let late =
        run_window(&answer(), u64::MAX, Some(4), &mut s, &mut smoother, &config(), &animator(), &data())
            .unwrap();
    assert_eq!(late[0].pts_ms, u64::MAX);
    assert_eq!(late[1].pts_ms, 32);
    assert!(late.iter().all(|frame| frame.turn_id == Some(4)));
}

#[test]
fn windows_are_cut_off_the_front() {
    let all: Vec<u32> = (0..(2 * AUDIO_BUFFER_LEN + 5) as u32).collect();
    let mut buffer = all.clone();
    let windows = take_windows(&mut buffer);
    assert_eq!(windows.len(), 2);
    assert_eq!(windows[0], all[..16_000].to_vec());
    assert_eq!(windows[1], all[16_000..32_000].to_vec());
    assert_eq!(buffer, all[32_000..].to_vec());
    assert!(take_windows(&mut buffer).is_empty());
    assert_eq!(buffer.len(), 5);
}

#[test]
fn buffered_audio_begins_before_the_chunk() {
    assert_eq!(buffer_start(5_000_999, 0), 5000);
    assert_eq!(buffer_start(5_000_999, 8000), 4500);
    assert_eq!(buffer_start(100_000, 8000), 0);
    assert_eq!(buffer_start(u64::MAX, 15_999), u64::MAX / 1000 - 999);
}

#[test]
fn frames_wait_for_their_time() {
    let mut a = None;
    assert_eq!(pace(&mut a, 1000, 50), 0);
    assert_eq!(a, Some(PaceAnchor { wall_ns: 50, pts_ms: 1000 }));
    assert_eq!(pace(&mut a, 1033, 51), 32_999_999);
    assert_eq!(a, Some(PaceAnchor { wall_ns: 50, pts_ms: 1000 }));
    assert_eq!(pace(&mut a, 1066, 66_000_050), 0);
    assert_eq!(a, Some(PaceAnchor { wall_ns: 66_000_050, pts_ms: 1066 }));
}

#[test]
fn late_frames_become_the_anchor() {
    let mut a = Some(PaceAnchor { wall_ns: 0, pts_ms: 0 });
    assert_eq!(pace(&mut a, 100, 500_000_000), 0);
    assert_eq!(pace(&mut a, 200, 500_000_000), 100_000_000);
}

#[test]
fn frames_from_before_the_anchor_go_at_once() {
    let mut a = Some(PaceAnchor { wall_ns: 10, pts_ms: 9000 });
    assert_eq!(pace(&mut a, 0, 10), 0);
    assert_eq!(a, Some(PaceAnchor { wall_ns: 10, pts_ms: 0 }));
    let mut far = Some(PaceAnchor { wall_ns: 0, pts_ms: 0 });
    assert_eq!(pace(&mut far, u64::MAX, 0), u64::MAX as u128 * 1_000_000);
}

#[test]
fn audio_is_handed_on_and_buffered() {
    let mut n = node(false, 0.0);
    let mut now = 0;
    let first = run(&mut n, chunk(15_999, 16_000, None), &mut now);
    assert_eq!((first.forwards, count(&first)), (1, 1));
    assert!(first.windows.is_empty());
    let second = run(&mut n, chunk(1, 16_000, None), &mut now);
    assert_eq!(second.windows.len(), 1);
    assert_eq!(second.windows[0][..15_999], (0..15_999u32).collect::<Vec<u32>>()[..]);
    assert_eq!(second.windows[0][15_999], 0);
    assert_eq!(second.slots, vec![2]);
    assert_eq!((second.forwards, count(&second)), (1, 31));
    assert_eq!(second.frames.len(), 30);
    assert!(second.sleeps.is_empty());
    assert_eq!(f32::from_bits(second.frames[8].arkit_52[17]), weight(0.125));
}

#[test]
fn windows_follow_each_other() {
    let mut n = node(false, 0.0);
    let mut now = 0;
    let r = run(&mut n, chunk(3 * AUDIO_BUFFER_LEN + 7, 16_000, None), &mut now);
    assert_eq!((r.windows.len(), count(&r)), (3, 91));
    for (i, frame) in r.frames.iter().enumerate() {
        let (w, f) = (i / 30, i % 30);
        assert_eq!(frame.pts_ms, (w * 1000 + f * 1000 / 30) as u64);
    }
    let again = run(&mut n, chunk(AUDIO_BUFFER_LEN, 16_000, None), &mut now);
    assert_eq!(again.frames[0].pts_ms, 3000);
}

#[test]
fn pieces_are_heard_as_one() {
    let mut now = 0;
    let mut whole = node(false, 0.5);
    let mut pieces = node(false, 0.5);
    let all: Vec<u32> = (0..40_000u32).collect();
    let audio = |samples: &[u32]| {
        StreamData::Audio(AudioChunk {
            samples: samples.to_vec(),
            sample_rate: 16_000,
            metadata: None,
        })
    };
    let once = run(&mut whole, audio(&all), &mut now);
    let mut windows = Vec::new();
    let mut frames = Vec::new();
    for piece in all.chunks(7001) {
        let r = run(&mut pieces, audio(piece), &mut now);
        windows.extend(r.windows);
        frames.extend(r.frames);
    }
    assert_eq!(windows, once.windows);
    assert_eq!(frames.len(), once.frames.len());
    for (a, b) in frames.iter().zip(&once.frames) {
        assert_eq!(a.arkit_52, b.arkit_52);
        assert_eq!(a.pts_ms, b.pts_ms);
    }
}

#[test]
fn stamped_audio_keeps_its_time() {
    let mut n = node(false, 0.0);
    let mut now = 0;
    run(&mut n, chunk(8000, 16_000, None), &mut now);
    let r = run(&mut n, chunk(8000, 16_000, Some(9_000_000)), &mut now);
    assert_eq!(r.frames[0].pts_ms, 8500);
    let s = run(&mut n, chunk(16_000, 16_000, None), &mut now);
    assert_eq!(s.frames[0].pts_ms, 9500);
}

/// Audio of the turn `turn_id`.
fn turn(n: usize, turn_id: Value) -> StreamData {
    let mut m = serde_json::Map::new();
    m.insert("turn_id".to_string(), turn_id);
    StreamData::Audio(AudioChunk {
        samples: (0..n as u32).collect(),
        sample_rate: 16_000,
        metadata: Some(Value::Object(m)),
    })
}

#[test]
fn keyframes_carry_the_turn_of_the_audio_that_fired_them() {
    let mut n = node(false, 0.0);
    let mut now = 0;
    let none = run(&mut n, turn(15_000, Value::from(3u64)), &mut now);
    assert!(none.frames.is_empty());
    let two = run(&mut n, turn(17_000, Value::from(8u64)), &mut now);
    assert_eq!(two.frames.len(), 60);
    assert!(two.frames.iter().all(|frame| frame.turn_id == Some(8)));
    let plain = run(&mut n, chunk(AUDIO_BUFFER_LEN, 16_000, None), &mut now);
    assert_eq!(plain.frames.len(), 30);
    assert!(plain.frames.iter().all(|frame| frame.turn_id.is_none()));
    let odd = run(&mut n, turn(AUDIO_BUFFER_LEN, Value::from("eight")), &mut now);
    assert!(odd.frames.iter().all(|frame| frame.turn_id.is_none()));
    let most = run(&mut n, turn(AUDIO_BUFFER_LEN, Value::from(u64::MAX)), &mut now);
    assert!(most.frames.iter().all(|frame| frame.turn_id == Some(u64::MAX)));
}

#[test]
fn turn_ids_are_written_out() {
    let mut n = node(false, 0.0);
    let (mut call, _) = Call::begin(&mut n, turn(AUDIO_BUFFER_LEN, Value::from(21u64)));
    assert!(matches!(call.step(&mut n, Event::Forwarded), Action::Infer { .. }));
    match call.step(&mut n, Event::Inferred(answer())) {
        Action::Emit(v) => {
            assert_eq!(v["turn_id"], Value::from(21u64));
            let mut names: Vec<&String> = v.as_object().unwrap().keys().collect();
            names.sort();
            assert_eq!(names, vec!["arkit_52", "kind", "pts_ms", "turn_id"]);
        }
        other => panic!("{other:?}"),
    }
}

#[test]
fn pacing_only_delays() {
    let mut now = 5;
    let mut paced = node(true, 0.25);
    let mut unpaced = node(false, 0.25);
    for size in [9_000, 23_500, 16_000] {
        let a = run(&mut paced, turn(size, Value::from(1u64)), &mut now);
        let mut still = 0;
        let b = run(&mut unpaced, turn(size, Value::from(1u64)), &mut still);
        assert_eq!(a.windows, b.windows);
        assert_eq!((a.slots.clone(), count(&a)), (b.slots.clone(), count(&b)));
        assert_eq!(a.frames.len(), b.frames.len());
        for (x, y) in a.frames.iter().zip(&b.frames) {
            assert_eq!(x.arkit_52, y.arkit_52);
            assert_eq!((x.pts_ms, x.turn_id), (y.pts_ms, y.turn_id));
        }
        assert!(b.sleeps.is_empty());
        assert_eq!(still, 0);
    }
    assert_eq!(now, 2_966_000_005);
}

#[test]
fn paced_frames_go_out_in_real_time() {
    let mut n = node(true, 0.0);
    let mut now = 1_000;
    let r = run(&mut n, chunk(2 * AUDIO_BUFFER_LEN, 16_000, None), &mut now);
    assert_eq!((count(&r), r.sleeps.len()), (61, 59));
    assert_eq!(r.sleeps[0], 33_000_000);
    assert_eq!(r.sleeps.iter().sum::<u128>(), 1_966_000_000);
    assert_eq!(now, 1_966_001_000);
}

#[test]
fn another_rate_is_an_error_after_the_audio_went_on() {
    let mut n = node(true, 0.0);
    let mut now = 0;
    let r = run(&mut n, chunk(20_000, 44_100, None), &mut now);
    assert_eq!(r.forwards, 1);
    assert!(r.windows.is_empty());
    match r.end {
        Some(Err(Error::InvalidData(text))) => assert_eq!(
            text,
            "Audio2FaceLipSyncNode requires 16 kHz audio (capability resolver should insert a \
             resampler upstream); got 44100"
        ),
        other => panic!("{other:?}"),
    }
    let next = run(&mut n, chunk(15_999, 16_000, None), &mut now);
    assert!(next.windows.is_empty());
}

#[test]
fn other_input_is_handed_on() {
    let mut n = node(true, 0.0);
    let mut now = 0;
    for data in [
        StreamData::Other,
        StreamData::Json(Value::Null),
        StreamData::Json(message("kind", "blendshapes")),
        StreamData::Json(message("__aux_port__", "barge_in")),
    ] {
        let r = run(&mut n, data, &mut now);
        assert_eq!((r.forwards, r.resets, count(&r)), (1, 0, 1));
    }
}

#[test]
fn a_barge_in_empties_the_node() {
    let mut now = 0;
    let mut n = node(true, 0.5);
    run(&mut n, chunk(20_000, 16_000, Some(77_000_000)), &mut now);
    let r = run(&mut n, StreamData::Json(message("kind", "barge_in")), &mut now);
    assert_eq!((r.resets, r.forwards, count(&r)), (1, 0, 0));
    let mut fresh = node(true, 0.5);
    let a = run(&mut n, chunk(16_000, 16_000, None), &mut now);
    let mut start = 0;
    let b = run(&mut fresh, chunk(16_000, 16_000, None), &mut start);
    assert_eq!(a.windows, b.windows);
    assert_eq!(a.sleeps, b.sleeps);
    for (x, y) in a.frames.iter().zip(&b.frames) {
        assert_eq!(x.arkit_52, y.arkit_52);
        assert_eq!(x.pts_ms, y.pts_ms);
    }
    n.barge();
    n.barge();
    let c = run(&mut n, chunk(16_000, 16_000, None), &mut now);
    assert_eq!(c.frames[0].arkit_52, b.frames[0].arkit_52);
    assert_eq!(c.frames[0].pts_ms, 0);
}

#[test]
fn a_barged_node_lives_as_a_new_one() {
    let mut now = 0;
    let mut old = node(true, 0.5);
    for size in [16_000, 21_000, 3] {
        run(&mut old, turn(size, Value::from(5u64)), &mut now);
    }
    run(&mut old, chunk(10, 8_000, None), &mut now);
    assert!(old.process_control_message(&StreamData::Json(message("__aux_port__", "barge_in"))));
    let mut new = node(true, 0.5);
    let mut start = now;
    for size in [9_000, 40_000, 1, 7_000] {
        let a = run(&mut old, turn(size, Value::from(6u64)), &mut now);
        let b = run(&mut new, turn(size, Value::from(6u64)), &mut start);
        assert_eq!(a.windows, b.windows);
        assert_eq!((a.slots.clone(), a.sleeps.clone()), (b.slots.clone(), b.sleeps.clone()));
        assert_eq!((a.forwards, count(&a)), (b.forwards, count(&b)));
        assert_eq!(a.frames.len(), b.frames.len());
        for (x, y) in a.frames.iter().zip(&b.frames) {
            assert_eq!(x.arkit_52, y.arkit_52);
            assert_eq!((x.pts_ms, x.turn_id), (y.pts_ms, y.turn_id));
        }
    }
    assert_eq!(now, start);
}

#[test]
fn control_messages_barge_in() {
    let mut n = node(false, 0.0);
    let mut now = 0;
    run(&mut n, chunk(15_000, 16_000, None), &mut now);
    assert!(!n.process_control_message(&StreamData::Other));
    assert!(!n.process_control_message(&StreamData::Json(message("kind", "barge_in"))));
    assert!(!n.process_control_message(&StreamData::Json(message("__aux_port__", "mute"))));
    let kept = run(&mut n, chunk(1000, 16_000, None), &mut now);
    assert_eq!(kept.windows.len(), 1);
    run(&mut n, chunk(15_000, 16_000, None), &mut now);
    assert!(n.process_control_message(&StreamData::Json(message("__aux_port__", "barge_in"))));
    let dropped = run(&mut n, chunk(1000, 16_000, None), &mut now);
    assert!(dropped.windows.is_empty());
}

#[test]
fn ports_are_read_off_messages() {
    assert_eq!(
        aux_port_of(&StreamData::Json(message("__aux_port__", "x"))),
        Some("x".to_string())
    );
    assert_eq!(aux_port_of(&StreamData::Json(message("port", "x"))), None);
    assert_eq!(aux_port_of(&chunk(1, 16_000, None)), None);
}

/// Arithmetic in which every quotient is three, so that no step towards a
/// bound is ever short enough.
struct Odd;

impl FloatOps for Odd {
    fn add32(a: u32, b: u32) -> u32 {
        Hardware::add32(a, b)
    }
    fn sub32(a: u32, b: u32) -> u32 {
        Hardware::sub32(a, b)
    }
    fn mul32(a: u32, b: u32) -> u32 {
        Hardware::mul32(a, b)
    }
    fn div32(_: u32, _: u32) -> u32 {
        3.0f32.to_bits()
    }
    fn add64(a: u64, b: u64) -> u64 {
        Hardware::add64(a, b)
    }
    fn sub64(a: u64, b: u64) -> u64 {
        Hardware::sub64(a, b)
    }
    fn mul64(a: u64, b: u64) -> u64 {
        Hardware::mul64(a, b)
    }
    fn div64(_: u64, _: u64) -> u64 {
        3.0f64.to_bits()
    }
    fn sqrt64(a: u64) -> u64 {
        Hardware::sqrt64(a)
    }
}

#[test]
fn a_stuck_solver_ends_the_call() {
    let c = Audio2FaceLipSyncConfig::default();
    let mut n = Audio2FaceLipSyncNode::<BvlsBlendshapeSolver<Odd>>::assemble::<Plain>(
        c,
        config(),
        animator(),
        data(),
    )
    .unwrap();
    let (mut call, _) = Call::begin(&mut n, chunk(AUDIO_BUFFER_LEN, 16_000, None));
    assert!(matches!(call.step(&mut n, Event::Forwarded), Action::Infer { .. }));
    let skins = vec![1.0f32.to_bits(); NUM_CENTER_FRAMES * SKIN_SIZE];
    match call.step(&mut n, Event::Inferred(skins)) {
        Action::Finish(Err(Error::Execution(text))) => assert_eq!(
            text,
            "Audio2FaceLipSyncNode inference task panicked: the window broke off"
        ),
        other => panic!("{other:?}"),
    }
}

#[test]
fn calls_expect_the_event_that_was_asked_for() {
    let mut n = node(false, 0.0);
    let (mut call, _) = Call::begin(&mut n, chunk(AUDIO_BUFFER_LEN, 16_000, None));
    assert!(call.expects(&Event::Forwarded));
    assert!(!call.expects(&Event::ModelReset));
    assert!(!call.expects(&Event::Now(0)));
    call.step(&mut n, Event::Forwarded);
    assert!(!call.expects(&Event::Forwarded));
    assert!(!call.expects(&Event::Slept));
    assert!(!call.expects(&Event::Emitted));
    assert!(!call.expects(&Event::Inferred(vec![0; 5])));
    assert!(call.expects(&Event::Inferred(vec![0; NUM_CENTER_FRAMES * SKIN_SIZE])));
}

#[test]
fn the_node_only_streams() {
    let n = node(true, 0.0);
    assert_eq!(n.node_type(), "Audio2FaceLipSyncNode");
    match n.process(StreamData::Other) {
        Err(Error::Execution(text)) => assert_eq!(
            text,
            "Audio2FaceLipSyncNode requires streaming mode — use process_streaming()"
        ),
        other => panic!("{other:?}"),
    }
}

#[test]
fn defaults_are_those_of_the_bundle() {
    let c = Audio2FaceLipSyncConfig::default();
    assert_eq!(c.bundle_path, "");
    assert!(c.identity == Audio2FaceIdentity::Claire);
    assert!(c.solver == SolverChoice::Pgd);
    assert!(SolverChoice::default() == SolverChoice::Pgd);
    assert_eq!((c.use_gpu, c.smoothing_alpha, c.pace_realtime), (false, 0, true));
    assert!(default_pace_realtime());
}

#[test]
fn error_texts_name_the_step() {
    let text = |e: Error| match e {
        Error::Execution(t) => t,
        Error::InvalidData(t) => panic!("{t}"),
    };
    assert_eq!(text(load_error(BundlePart::BlendshapeConfig, "x")), "blendshape config: x");
    assert_eq!(text(load_error(BundlePart::AnimatorSkinConfig, "x")), "animator skin config: x");
    assert_eq!(text(load_error(BundlePart::BlendshapeData, "x")), "blendshape data: x");
    assert_eq!(text(task_error("x")), "Audio2FaceLipSyncNode inference task panicked: x");
    let f = Audio2FaceLipSyncNodeFactory::default();
    assert_eq!(f.node_type(), "Audio2FaceLipSyncNode");
    assert_eq!(f.params_error("x"), "Audio2FaceLipSyncNode params parse failed: x");
    assert_eq!(f.load_failure("x"), "Audio2FaceLipSyncNode load failed: x");
}
