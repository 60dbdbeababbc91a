use audio2face::audio2face::active_set::{blocking, entering, minimise};
use audio2face::audio2face::bvls_solver::{bounding_box_scale, BvlsBlendshapeSolver};
use audio2face::audio2face::cholesky::cholesky_solve;
use audio2face::audio2face::response_curves::{center_weighted, ease_in};
use audio2face::audio2face::solver_math::SolverMath;
use audio2face::audio2face::solver_trait::BlendshapeSolver;
use audio2face::float_ops::{dot, FloatOps};

struct Hardware;

impl FloatOps for Hardware {
    fn add32(a: u32, b: u32) -> u32 {
        (f32::from_bits(a) + f32::from_bits(b)).to_bits()
    }
    fn sub32(a: u32, b: u32) -> u32 {
        (f32::from_bits(a) - f32::from_bits(b)).to_bits()
    }
    fn mul32(a: u32, b: u32) -> u32 {
        (f32::from_bits(a) * f32::from_bits(b)).to_bits()
    }
    fn div32(a: u32, b: u32) -> u32 {
        (f32::from_bits(a) / f32::from_bits(b)).to_bits()
    }
    fn add64(a: u64, b: u64) -> u64 {
        (f64::from_bits(a) + f64::from_bits(b)).to_bits()
    }
    fn sub64(a: u64, b: u64) -> u64 {
        (f64::from_bits(a) - f64::from_bits(b)).to_bits()
    }
    fn mul64(a: u64, b: u64) -> u64 {
        (f64::from_bits(a) * f64::from_bits(b)).to_bits()
    }
    fn div64(a: u64, b: u64) -> u64 {
        (f64::from_bits(a) / f64::from_bits(b)).to_bits()
    }
    fn sqrt64(a: u64) -> u64 {
        f64::from_bits(a).sqrt().to_bits()
    }
}

/// Plain sums, and a regularisation that adds its strengths to the diagonal.
struct Plain;

impl SolverMath for Plain {
    fn compute_transpose(delta_matrix: &Vec<u32>, v: usize, k: usize) -> Vec<u64> {
        let mut dt = vec![0u64; k * v];
        for j in 0..v {
            for i in 0..k {
                dt[i * v + j] = (f32::from_bits(delta_matrix[j * k + i]) as f64).to_bits();
            }
        }
        dt
    }
    fn compute_dt_d(dt: &Vec<u64>, k: usize, v: usize) -> Vec<u64> {
        let at = |i: usize, j: usize| f64::from_bits(dt[i * v + j]);
        let mut a = vec![0u64; k * k];
        for i in 0..k {
            for j in 0..k {
                a[i * k + j] = (0..v).map(|p| at(i, p) * at(j, p)).sum::<f64>().to_bits();
            }
        }
        a
    }
    fn compute_bounding_box_diagonal(flat: &Vec<u32>) -> u64 {
        let mut sum = 0.0f64;
        for c in 0..3 {
            let xs: Vec<f64> =
                flat.iter().skip(c).step_by(3).map(|b| f32::from_bits(*b) as f64).collect();
            let lo = xs.iter().copied().fold(f64::INFINITY, f64::min);
            let hi = xs.iter().copied().fold(f64::NEG_INFINITY, f64::max);
            sum += (hi - lo) * (hi - lo);
        }
        sum.sqrt().to_bits()
    }
    fn apply_regularization(
        mut a: Vec<u64>,
        k: usize,
        scale: u64,
        strength_l2: u32,
        strength_l1: u32,
        strength_temporal: u32,
    ) -> (Vec<u64>, u64) {
        let s = f64::from_bits(scale);
        let temporal = f32::from_bits(strength_temporal) as f64 * s;
        let ridge = (f32::from_bits(strength_l2) + f32::from_bits(strength_l1)) as f64 * s;
        for i in 0..k {
            a[i * k + i] = (f64::from_bits(a[i * k + i]) + ridge + temporal).to_bits();
        }
        (a, temporal.to_bits())
    }
}

fn bits(xs: &[f64]) -> Vec<u64> {
    xs.iter().map(|x| x.to_bits()).collect()
}

fn bits32(xs: &[f32]) -> Vec<u32> {
    xs.iter().map(|x| x.to_bits()).collect()
}

fn values(xs: &[u64]) -> Vec<f64> {
    xs.iter().map(|b| f64::from_bits(*b)).collect()
}

/// Numbers that look random and never change.
fn noise(seed: u64) -> impl FnMut() -> f64 {
    let mut s = seed;
    move || {
        s = s.wrapping_mul(6364136223846793005).wrapping_add(1442695040888963407);
        ((s >> 33) as f64) / (1u64 << 31) as f64
    }
}

fn plain_cholesky(a: &[f64], b: &[f64], n: usize) -> Option<Vec<f64>> {
    let mut l = a.to_vec();
    for i in 0..n {
        for j in 0..=i {
            let mut sum = 0.0;
            for p in 0..j {
                sum += l[i * n + p] * l[j * n + p];
            }
            if i == j {
                let d = l[i * n + i] - sum;
                if d <= 0.0 {
                    return None;
                }
                l[i * n + j] = d.sqrt();
            } else {
                l[i * n + j] = (l[i * n + j] - sum) / l[j * n + j];
            }
        }
    }
    let mut y = vec![0.0; n];
    for i in 0..n {
        let mut sum = 0.0;
        for j in 0..i {
            sum += l[i * n + j] * y[j];
        }
        y[i] = (b[i] - sum) / l[i * n + i];
    }
    let mut x = vec![0.0; n];
    for i in (0..n).rev() {
        let mut sum = 0.0;
        for j in (i + 1)..n {
            sum += l[j * n + i] * x[j];
        }
        x[i] = (y[i] - sum) / l[i * n + i];
    }
    Some(x)
}

/// The active-set method in plain floats.
fn plain_minimise(a: &[f64], b: &[f64]) -> Vec<f64> {
    let k = b.len();
    let mut x = vec![0.0f64; k];
    let mut free = vec![false; k];
    for _ in 0..200 {
        let g: Vec<f64> = (0..k)
            .map(|i| {
                let mut sum = 0.0;
                for j in 0..k {
                    sum += a[i * k + j] * x[j];
                }
                sum - b[i]
            })
            .collect();
        let mut best = None;
        let mut most = 1e-10;
        for i in (0..k).filter(|i| !free[*i]) {
            let v = if x[i] <= 0.0 { -g[i] } else { g[i] };
            if v > most {
                most = v;
                best = Some(i);
            }
        }
        let Some(entered) = best else { break };
        free[entered] = true;
        loop {
            let idx: Vec<usize> = (0..k).filter(|i| free[*i]).collect();
            let n = idx.len();
            if n == 0 {
                break;
            }
            let mut sub = Vec::new();
            let mut rhs = Vec::new();
            for i in &idx {
                let mut r = b[*i];
                for j in 0..k {
                    if free[j] {
                        sub.push(a[i * k + j]);
                    } else {
                        r -= a[i * k + j] * x[j];
                    }
                }
                rhs.push(r);
            }
            let Some(c) = plain_cholesky(&sub, &rhs, n) else {
                free[entered] = false;
                break;
            };
            let outside = |v: f64| v < 0.0 || v > 1.0;
            if !c.iter().any(|v| outside(*v)) {
                for (p, i) in idx.iter().enumerate() {
                    x[*i] = c[p];
                }
                break;
            }
            let mut least = 1.0;
            let mut worst = None;
            for p in 0..n {
                if outside(c[p]) {
                    let xi = x[idx[p]];
                    let alpha =
                        if c[p] < 0.0 { xi / (xi - c[p]) } else { (1.0 - xi) / (c[p] - xi) };
                    if alpha < least {
                        least = alpha;
                        worst = Some(p);
                    }
                }
            }
            for p in 0..n {
                x[idx[p]] += least * (c[p] - x[idx[p]]);
            }
            let w = worst.unwrap();
            x[idx[w]] = if c[w] < 0.0 { 0.0 } else { 1.0 };
            free[idx[w]] = false;
        }
    }
    x
}

#[test]
fn dot_products_are_summed_in_order() {
    let xs = bits(&[1e16, 1.0, -1e16, 0.5]);
    let ys = bits(&[1.0, 1.0, 1.0, 2.0]);
    assert_eq!(f64::from_bits(dot::<Hardware>(&xs, &ys, 4)), 1.0);
    assert_eq!(dot::<Hardware>(&xs, &ys, 0), 0);
}

#[test]
fn cholesky_solves() {
    let a = vec![bits(&[4.0, 2.0]), bits(&[2.0, 5.0])];
    let x = cholesky_solve::<Hardware>(&a, &bits(&[8.0, 12.0])).unwrap();
    assert_eq!(values(&x), vec![1.0, 2.0]);
    let empty = cholesky_solve::<Hardware>(&Vec::new(), &Vec::new());
    assert_eq!(empty, Some(Vec::new()));
}

#[test]
fn cholesky_needs_a_positive_definite_matrix() {
    let a = vec![bits(&[1.0, 2.0]), bits(&[2.0, 1.0])];
    assert_eq!(cholesky_solve::<Hardware>(&a, &bits(&[1.0, 1.0])), None);
    let b = vec![bits(&[1.0, 1.0]), bits(&[1.0, 1.0])];
    assert_eq!(cholesky_solve::<Hardware>(&b, &bits(&[1.0, 1.0])), None);
    assert_eq!(cholesky_solve::<Hardware>(&vec![bits(&[0.0])], &bits(&[1.0])), None);
}

#[test]
fn the_most_violating_variable_enters() {
    let x = bits(&[0.0, 1.0, 0.0, 0.5]);
    let free = vec![false, false, false, true];
    assert_eq!(entering(&x, &bits(&[-1.0, 3.0, -2.0, 9.0]), &free), Some(1));
    assert_eq!(entering(&x, &bits(&[-3.0, 3.0, -2.0, 9.0]), &free), Some(0));
    assert_eq!(entering(&x, &bits(&[1.0, -3.0, 1e-11, 9.0]), &free), None);
    assert_eq!(entering(&x, &bits(&[f64::NAN, -3.0, -1.0, 9.0]), &free), Some(2));
}

#[test]
fn the_nearest_bound_blocks() {
    let cx = bits(&[2.0, 0.5, -1.0, 3.0]);
    assert_eq!(blocking(&cx, &bits(&[0.5, 0.0, 0.25, 0.25])), Some(2));
    assert_eq!(blocking(&cx, &bits(&[1.0, 0.0, 1.5, f64::NAN])), None);
}

#[test]
fn minima_inside_the_bounds_are_exact() {
    let a = bits(&[4.0, 0.0, 0.0, 16.0]);
    let x = minimise::<Hardware>(&a, &bits(&[2.0, 4.0]), 200).unwrap();
    assert_eq!(values(&x), vec![0.5, 0.25]);
}

#[test]
fn minima_outside_lie_on_the_bounds() {
    let a = bits(&[1.0, 0.0, 0.0, 1.0]);
    let x = minimise::<Hardware>(&a, &bits(&[5.0, -5.0]), 200).unwrap();
    assert_eq!(values(&x), vec![1.0, 0.0]);
    let none = minimise::<Hardware>(&a, &bits(&[5.0, 5.0]), 0).unwrap();
    assert_eq!(values(&none), vec![0.0, 0.0]);
}

#[test]
fn minima_agree_with_plain_floats() {
    let mut next = noise(11);
    for k in 1..9usize {
        for _ in 0..40 {
            let rows: Vec<f64> = (0..k * (k + 2)).map(|_| next() - 0.5).collect();
            let mut a = vec![0.0; k * k];
            for i in 0..k {
                for j in 0..k {
                    for p in 0..k + 2 {
                        a[i * k + j] += rows[i * (k + 2) + p] * rows[j * (k + 2) + p];
                    }
                }
                a[i * k + i] += 0.01;
            }
            let b: Vec<f64> = (0..k).map(|_| next() - 0.4).collect();
            let got = minimise::<Hardware>(&bits(&a), &bits(&b), 200).unwrap();
            assert_eq!(values(&got), plain_minimise(&a, &b));
        }
    }
}

fn small_solver() -> BvlsBlendshapeSolver<Hardware> {
    // Two poses over three components.
    let deltas = bits32(&[1.0, 0.0, 0.0, 1.0, 0.0, 0.0]);
    let neutral = bits32(&[0.0, 0.0, 0.0, 3.0, 4.0, 0.0]);
    BvlsBlendshapeSolver::new::<Plain>(
        &deltas,
        3,
        2,
        &neutral,
        10.0f32.to_bits(),
        0.0f32.to_bits(),
        0.0f32.to_bits(),
        12.0f32.to_bits(),
    )
    .unwrap()
}

#[test]
fn solvers_pull_towards_the_last_frame() {
    // The face is half the template's size, so the pull has weight three.
    let mut s = small_solver();
    assert_eq!(s.active_count(), 2);
    assert_eq!(s.save_temporal(), vec![0, 0]);
    let delta = bits32(&[0.5, 1.0, 9.0]);
    let first = s.solve(&delta).unwrap();
    assert_eq!(first, bits32(&[0.125, 0.25]));
    assert_eq!(values(&s.save_temporal()), vec![0.125, 0.25]);
    let second = s.solve(&delta).unwrap();
    assert_eq!(second, bits32(&[0.21875, 0.4375]));
}

#[test]
fn a_reset_forgets_the_frames() {
    let mut s = small_solver();
    let delta = bits32(&[0.5, 1.0, 9.0]);
    let first = s.solve(&delta).unwrap();
    s.solve(&bits32(&[0.1, 0.1, 0.1])).unwrap();
    s.reset_temporal();
    assert_eq!(s.save_temporal(), vec![0, 0]);
    assert_eq!(s.solve(&delta).unwrap(), first);
}

#[test]
fn a_restored_pull_repeats_the_frame() {
    let mut s = small_solver();
    s.solve(&bits32(&[0.5, 1.0, 9.0])).unwrap();
    let saved = s.save_temporal();
    let once = s.solve(&bits32(&[0.2, 0.3, 0.0])).unwrap();
    s.restore_temporal(&saved);
    assert_eq!(s.save_temporal(), saved);
    assert_eq!(s.solve(&bits32(&[0.2, 0.3, 0.0])).unwrap(), once);
}

#[test]
fn without_a_pull_every_frame_stands_alone() {
    let deltas = bits32(&[1.0, 0.5, 0.25, 1.0, -0.5, 0.125]);
    let neutral = bits32(&[0.0, 0.0, 0.0, 3.0, 4.0, 0.0]);
    let mut s = BvlsBlendshapeSolver::<Hardware>::new::<Plain>(
        &deltas,
        3,
        2,
        &neutral,
        10.0f32.to_bits(),
        0.5f32.to_bits(),
        0,
        0,
    )
    .unwrap();
    let delta = bits32(&[0.4, 0.3, 0.0]);
    let first = s.solve(&delta).unwrap();
    s.solve(&bits32(&[-1.0, 2.0, 0.5])).unwrap();
    assert_eq!(s.solve(&delta).unwrap(), first);
}

#[test]
fn weights_lie_within_their_bounds() {
    let mut next = noise(5);
    for k in 1..7usize {
        let v = k + 3;
        let deltas: Vec<u32> = (0..v * k).map(|_| ((next() - 0.5) as f32).to_bits()).collect();
        let neutral = bits32(&[0.0, 0.0, 0.0, 3.0, 4.0, 0.0]);
        let mut s = BvlsBlendshapeSolver::<Hardware>::new::<Plain>(
            &deltas,
            v,
            k,
            &neutral,
            10.0f32.to_bits(),
            0.1f32.to_bits(),
            0,
            0.2f32.to_bits(),
        )
        .unwrap();
        for _ in 0..30 {
            let delta: Vec<u32> = (0..v).map(|_| ((next() * 8.0 - 4.0) as f32).to_bits()).collect();
            for w in s.solve(&delta).unwrap() {
                let w = f32::from_bits(w);
                assert!((0.0..=1.0).contains(&w), "{w}");
            }
        }
    }
}

#[test]
fn the_regularisation_scales_with_the_face() {
    let scale = |b: f64, t: f32| f64::from_bits(bounding_box_scale::<Hardware>(b.to_bits(), t.to_bits()));
    assert_eq!(scale(5.0, 10.0), 0.25);
    assert_eq!(scale(0.0, 10.0), 0.0);
    assert_eq!(scale(5.0, 0.0), 0.0);
    assert_eq!(scale(-5.0, 10.0), 0.0);
    assert_eq!(scale(f64::NAN, 10.0), 0.0);
}

struct Wrong;

impl SolverMath for Wrong {
    fn compute_transpose(_: &Vec<u32>, _: usize, _: usize) -> Vec<u64> {
        Vec::new()
    }
    fn compute_dt_d(_: &Vec<u64>, _: usize, _: usize) -> Vec<u64> {
        Vec::new()
    }
    fn compute_bounding_box_diagonal(_: &Vec<u32>) -> u64 {
        0
    }
    fn apply_regularization(
        a: Vec<u64>,
        _: usize,
        _: u64,
        _: u32,
        _: u32,
        _: u32,
    ) -> (Vec<u64>, u64) {
        (a, 0)
    }
}

#[test]
fn matrices_of_the_wrong_size_are_refused() {
    let deltas = bits32(&[1.0, 2.0]);
    let made = BvlsBlendshapeSolver::<Hardware>::new::<Wrong>(&deltas, 2, 1, &deltas, 0, 0, 0, 0);
    assert!(made.is_none());
}

fn curve(t: f32) -> f32 {
    f32::from_bits(ease_in::<Hardware>(t.to_bits()))
}

fn centered(t: f32, lo: f32, hi: f32) -> f32 {
    f32::from_bits(center_weighted::<Hardware>(t.to_bits(), lo.to_bits(), hi.to_bits()))
}

#[test]
fn easing_in_is_steep_then_flat() {
    assert_eq!(curve(0.0), 0.0);
    assert_eq!(curve(0.5), 0.75);
    assert_eq!(curve(1.0), 1.0);
    assert_eq!(curve(-4.0), 0.0);
    assert_eq!(curve(7.0), 1.0);
    assert!(curve(f32::NAN).is_nan());
    for i in 0..=100 {
        let t = i as f32 / 100.0;
        assert_eq!(curve(t), t * (2.0 - t));
    }
}

#[test]
fn the_centered_curve_meets_its_keys() {
    assert_eq!(centered(-1.0, -1.0, 1.0), -1.0);
    assert_eq!(centered(0.0, -1.0, 1.0), 0.0);
    assert_eq!(centered(1.0, -1.0, 1.0), 1.0);
    assert_eq!(centered(-9.0, -0.5, 2.0), -0.5);
    assert_eq!(centered(9.0, -0.5, 2.0), 2.0);
    assert_eq!(centered(0.5, -1.0, 1.0), 0.75);
    assert_eq!(centered(-0.5, -1.0, 1.0), -0.75);
}

#[test]
fn degenerate_spans_pass_through() {
    assert_eq!(centered(-5.0, -1e-7, 1.0), -1e-7);
    assert_eq!(centered(5.0, -1.0, 1e-7), 1e-7);
    assert_eq!(centered(0.0, 0.0, 0.0), 0.0);
}

#[test]
fn the_centered_curve_agrees_with_plain_floats() {
    let hermite = |s: f32, p0: f32, p1: f32, m0: f32, m1: f32| -> f32 {
        let s2 = s * s;
        let s3 = s2 * s;
        let h00 = 2.0 * s3 - 3.0 * s2 + 1.0;
        let h10 = s3 - 2.0 * s2 + s;
        let h01 = -2.0 * s3 + 3.0 * s2;
        let h11 = s3 - s2;
        h00 * p0 + h10 * m0 + h01 * p1 + h11 * m1
    };
    for i in -120..=120 {
        let t = i as f32 / 100.0;
        let (lo, hi) = (-0.7f32, 1.1f32);
        let c = t.clamp(lo, hi);
        let want = if c <= 0.0 {
            hermite((c - lo) / -lo, lo, 0.0, 0.0, 2.0 * -lo)
        } else {
            hermite(c / hi, 0.0, hi, 2.0 * hi, 0.0)
        };
        assert_eq!(centered(t, lo, hi).to_bits(), want.to_bits(), "{t}");
    }
}

#[test]
fn eased_values_stay_in_range() {
    let mut next = noise(3);
    for i in 0..20_000u32 {
        let t = if i < 2000 { f32::from_bits(0x3f80_0000 - i) } else { next() as f32 };
        assert!((0.0..=1.0).contains(&curve(t)), "{t}");
    }
    assert_eq!(curve(f32::from_bits(1)), f32::from_bits(2));
    assert_eq!(curve(f32::INFINITY), 1.0);
    assert_eq!(curve(f32::NEG_INFINITY), 0.0);
}

#[test]
fn the_centered_curve_follows_its_parabola() {
    let mut next = noise(8);
    for (lo, hi) in [(-1.0f32, 1.0f32), (-0.3, 2.5), (-1e-6, 1e30), (-4e5, 1e-3)] {
        for _ in 0..5000 {
            let t = (lo as f64 + next() * (hi as f64 - lo as f64)) as f32;
            let c = t.clamp(lo, hi) as f64;
            let k = if c <= 0.0 { lo as f64 } else { hi as f64 };
            let want = c * (2.0 * k - c) / k;
            let slack = k.abs() / 262_144.0;
            assert!((centered(t, lo, hi) as f64 - want).abs() <= slack, "{t} {lo} {hi}");
        }
    }
}

#[test]
fn the_halves_of_the_centered_curve_are_independent() {
    for i in 1..100 {
        let t = i as f32 / 90.0;
        assert_eq!(centered(t, -1.0, 0.8), centered(t, -0.2, 0.8));
        assert_eq!(centered(-t, -0.8, 1.0), centered(-t, -0.8, 0.2));
        assert_eq!(centered(t, -1.0, 0.8), centered(t.clamp(-1.0, 0.8), -1.0, 0.8));
    }
}

#[test]
fn minima_meet_the_stop_test() {
    let mut next = noise(21);
    for k in 1..7usize {
        for _ in 0..30 {
            let rows: Vec<f64> = (0..k * (k + 2)).map(|_| next() - 0.5).collect();
            let mut a = vec![0.0; k * k];
            for i in 0..k {
                for j in 0..k {
                    for p in 0..k + 2 {
                        a[i * k + j] += rows[i * (k + 2) + p] * rows[j * (k + 2) + p];
                    }
                }
                a[i * k + i] += 0.05;
            }
            let b: Vec<f64> = (0..k).map(|_| next() - 0.4).collect();
            let x = values(&minimise::<Hardware>(&bits(&a), &bits(&b), 200).unwrap());
            for i in 0..k {
                let g = (0..k).map(|j| a[i * k + j] * x[j]).sum::<f64>() - b[i];
                if x[i] <= 0.0 {
                    assert!(-g <= 1e-9, "{g}");
                } else if x[i] >= 1.0 {
                    assert!(g <= 1e-9, "{g}");
                }
            }
        }
    }
}
