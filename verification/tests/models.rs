use rand::rngs::StdRng;
use rand::{Rng, SeedableRng};
use tinylm::bptt::Grad;
use tinylm::chance;
use tinylm::dense::{linear_backward_input, linear_forward};
use tinylm::dual::Dual;
use tinylm::generate::{generate, pick, reshape_for_sampling, write_text, SamplingConfig};
use tinylm::model::{draws_needed, Model};
use tinylm::pointwise::{sigmoid, softmax};
use tinylm::scalar::{greater, smaller, Number, Scalar};
use tinylm::training;
use tinylm::vocabulary::{build_vocab, encode};
use tinylm::windowed;

#[derive(Clone, Copy, Debug, PartialEq)]
struct F32(f32);

impl Number for F32 {}

impl Scalar for F32 {
    fn zero() -> Self {
        F32(0.0)
    }

    fn one() -> Self {
        F32(1.0)
    }

    fn lowest() -> Self {
        F32(f32::NEG_INFINITY)
    }

    fn highest() -> Self {
        F32(f32::INFINITY)
    }

    fn pi() -> Self {
        F32(std::f32::consts::PI)
    }

    fn decimal(digits: u64, places: u32) -> Self {
        F32(format!("{digits}e-{places}").parse().unwrap())
    }

    fn from_count(n: usize) -> Self {
        F32(n as f32)
    }

    fn add(self, other: Self) -> Self {
        F32(self.0 + other.0)
    }

    fn sub(self, other: Self) -> Self {
        F32(self.0 - other.0)
    }

    fn mul(self, other: Self) -> Self {
        F32(self.0 * other.0)
    }

    fn div(self, other: Self) -> Self {
        F32(self.0 / other.0)
    }

    fn neg(self) -> Self {
        F32(-self.0)
    }

    fn exp(self) -> Self {
        F32(self.0.exp())
    }

    fn ln(self) -> Self {
        F32(self.0.ln())
    }

    fn tanh(self) -> Self {
        F32(self.0.tanh())
    }

    fn cos(self) -> Self {
        F32(self.0.cos())
    }

    fn sqrt(self) -> Self {
        F32(self.0.sqrt())
    }

    fn powf(self, exponent: Self) -> Self {
        F32(self.0.powf(exponent.0))
    }

    fn order_key(self) -> Option<i64> {
        if self.0.is_nan() {
            return None;
        }
        let bits = i64::from(self.0.to_bits());
        if self.0.is_sign_negative() {
            Some(0x8000_0000 - bits)
        } else {
            Some(bits)
        }
    }
}

#[derive(Clone, Copy, Debug, PartialEq)]
struct F64(f64);

impl Number for F64 {}

impl Scalar for F64 {
    fn zero() -> Self {
        F64(0.0)
    }

    fn one() -> Self {
        F64(1.0)
    }

    fn lowest() -> Self {
        F64(f64::NEG_INFINITY)
    }

    fn highest() -> Self {
        F64(f64::INFINITY)
    }

    fn pi() -> Self {
        F64(std::f64::consts::PI)
    }

    fn decimal(digits: u64, places: u32) -> Self {
        F64(format!("{digits}e-{places}").parse().unwrap())
    }

    fn from_count(n: usize) -> Self {
        F64(n as f64)
    }

    fn add(self, other: Self) -> Self {
        F64(self.0 + other.0)
    }

    fn sub(self, other: Self) -> Self {
        F64(self.0 - other.0)
    }

    fn mul(self, other: Self) -> Self {
        F64(self.0 * other.0)
    }

    fn div(self, other: Self) -> Self {
        F64(self.0 / other.0)
    }

    fn neg(self) -> Self {
        F64(-self.0)
    }

    fn exp(self) -> Self {
        F64(self.0.exp())
    }

    fn ln(self) -> Self {
        F64(self.0.ln())
    }

    fn tanh(self) -> Self {
        F64(self.0.tanh())
    }

    fn cos(self) -> Self {
        F64(self.0.cos())
    }

    fn sqrt(self) -> Self {
        F64(self.0.sqrt())
    }

    fn powf(self, exponent: Self) -> Self {
        F64(self.0.powf(exponent.0))
    }

    fn order_key(self) -> Option<i64> {
        if self.0.is_nan() {
            return None;
        }
        let bits = (self.0.abs().to_bits()) as i64;
        Some(if self.0.is_sign_negative() { -bits } else { bits })
    }
}

/// Draws that are spread evenly and the same in every run.
fn even_draws(n: usize) -> Vec<F64> {
    (0..n).map(|i| F64((i * 37 % 101) as f64 / 101.0)).collect()
}

fn floats(xs: &[f32]) -> Vec<F32> {
    xs.iter().map(|&x| F32(x)).collect()
}

fn bare(xs: &[F32]) -> Vec<f32> {
    xs.iter().map(|x| x.0).collect()
}

fn strings(items: &[&str]) -> Vec<String> {
    items.iter().map(|s| s.to_string()).collect()
}

fn even_model(vocab_size: usize, embed_dim: usize, hidden_dim: usize) -> Model<F64> {
    let n = draws_needed(vocab_size, embed_dim, hidden_dim).unwrap();
    Model::from_draws(vocab_size, embed_dim, hidden_dim, &even_draws(n))
}

const PLAIN: SamplingConfig<F32> = SamplingConfig { temperature: F32(1.0), top_k: None, top_p: None };

fn check_param(
    model: &mut Model<F32>,
    loss_fn: &dyn Fn(&Model<F32>) -> f32,
    get: impl Fn(&mut Model<F32>) -> &mut F32,
    analytic: F32,
    name: &str,
) {
    let analytic = analytic.0;
    let eps = 1e-2f32;
    let orig = get(model).0;
    get(model).0 = orig + eps;
    let loss_plus = loss_fn(model);
    get(model).0 = orig - eps;
    let loss_minus = loss_fn(model);
    get(model).0 = orig;

    let numeric = (loss_plus - loss_minus) / (2.0 * eps);
    let diff = (numeric - analytic).abs();
    let rel = diff / numeric.abs().max(analytic.abs()).max(1e-6);
    println!("{name}: analytic={analytic:.6} numeric={numeric:.6} rel_err={rel:.6}");
    assert!(rel < 0.03 || diff < 1e-2, "{name} mismatch: analytic={analytic}, numeric={numeric}");
}

#[test]
fn gru_gradients_match_finite_differences() {
    let vocab_size = 6;
    let embed_dim = 3;
    let hidden_dim = 4;
    let seq_len = 4;
    let mut model: Model<F32> = Model::new(vocab_size, embed_dim, hidden_dim);
    let ids: Vec<usize> = vec![1, 2, 3, 4, 0]; // seq_len + 1 tokens
    let starts = vec![0usize];

    let grad = model.accumulate_gradients(&starts, &ids, seq_len);

    let loss_fn = |m: &Model<F32>| -> f32 {
        let mut total = 0.0f32;
        for &start in &starts {
            let seq = &ids[start..start + seq_len + 1];
            let mut h = vec![F32(0.0); hidden_dim];
            for t in 0..seq_len {
                let out = m.step(seq[t], &h);
                total += -(out.probs[seq[t + 1]].0 + 1e-9).ln();
                h = out.h;
            }
        }
        total
    };

    check_param(&mut model, &loss_fn, |m| &mut m.w_out[5], grad.d_w_out[5], "w_out[5]");
    check_param(&mut model, &loss_fn, |m| &mut m.b_out[2], grad.d_b_out[2], "b_out[2]");
    check_param(&mut model, &loss_fn, |m| &mut m.w_z[1], grad.d_w_z[1], "w_z[1]");
    check_param(&mut model, &loss_fn, |m| &mut m.u_z[2], grad.d_u_z[2], "u_z[2]");
    check_param(&mut model, &loss_fn, |m| &mut m.w_r[0], grad.d_w_r[0], "w_r[0]");
    check_param(&mut model, &loss_fn, |m| &mut m.u_r[3], grad.d_u_r[3], "u_r[3]");
    check_param(&mut model, &loss_fn, |m| &mut m.w_h[2], grad.d_w_h[2], "w_h[2]");
    check_param(&mut model, &loss_fn, |m| &mut m.u_h[1], grad.d_u_h[1], "u_h[1]");
    check_param(&mut model, &loss_fn, |m| &mut m.b_z[0], grad.d_b_z[0], "b_z[0]");
    check_param(&mut model, &loss_fn, |m| &mut m.b_r[1], grad.d_b_r[1], "b_r[1]");
    check_param(&mut model, &loss_fn, |m| &mut m.b_h[2], grad.d_b_h[2], "b_h[2]");
    // token 1 occurs at t=0, token 4 at t=3: an early and a late step's
    // contribution to the embedding gradient.
    check_param(
        &mut model,
        &loss_fn,
        |m| &mut m.embedding[1 * embed_dim],
        grad.d_embedding[1 * embed_dim],
        "embedding[tok1,0]",
    );
    check_param(
        &mut model,
        &loss_fn,
        |m| &mut m.embedding[4 * embed_dim + 2],
        grad.d_embedding[4 * embed_dim + 2],
        "embedding[tok4,2]",
    );
}

fn moving(xs: &[F64], at: usize) -> Vec<Dual<F64>> {
    xs.iter()
        .enumerate()
        .map(|(i, &x)| Dual { re: x, du: F64(if i == at { 1.0 } else { 0.0 }) })
        .collect()
}

fn resting(xs: &[F64]) -> Vec<Dual<F64>> {
    moving(xs, usize::MAX)
}

fn resting_model(m: &Model<F64>) -> Model<Dual<F64>> {
    Model {
        vocab_size: m.vocab_size,
        embed_dim: m.embed_dim,
        hidden_dim: m.hidden_dim,
        embedding: resting(&m.embedding),
        w_z: resting(&m.w_z),
        w_r: resting(&m.w_r),
        w_h: resting(&m.w_h),
        u_z: resting(&m.u_z),
        u_r: resting(&m.u_r),
        u_h: resting(&m.u_h),
        b_z: resting(&m.b_z),
        b_r: resting(&m.b_r),
        b_h: resting(&m.b_h),
        w_out: resting(&m.w_out),
        b_out: resting(&m.b_out),
    }
}

/// How fast the cross-entropy of one chunk changes with a moving model.
fn entropy_rate(m: &Model<Dual<F64>>, seq: &[usize]) -> f64 {
    let mut h = vec![Dual::<F64>::zero(); m.hidden_dim];
    let mut total = Dual::<F64>::zero();
    for t in 0..seq.len() - 1 {
        let out = m.step(seq[t], &h);
        total = total.add(out.probs[seq[t + 1]].ln().neg());
        h = out.h;
    }
    total.du.0
}

#[test]
fn gradients_are_derivatives() {
    let ids = [1usize, 3, 3, 0, 2, 1];
    let model = even_model(5, 2, 3);
    let grad = model.accumulate_gradients(&[0], &ids, 5);
    for i in 0..model.w_h.len() {
        let mut m = resting_model(&model);
        m.w_h = moving(&model.w_h, i);
        assert!((entropy_rate(&m, &ids) - grad.d_w_h[i].0).abs() < 1e-12);
    }
    for i in 0..model.u_r.len() {
        let mut m = resting_model(&model);
        m.u_r = moving(&model.u_r, i);
        assert!((entropy_rate(&m, &ids) - grad.d_u_r[i].0).abs() < 1e-12);
    }
    for i in 0..model.b_z.len() {
        let mut m = resting_model(&model);
        m.b_z = moving(&model.b_z, i);
        assert!((entropy_rate(&m, &ids) - grad.d_b_z[i].0).abs() < 1e-12);
    }
    for i in 0..model.embedding.len() {
        let mut m = resting_model(&model);
        m.embedding = moving(&model.embedding, i);
        assert!((entropy_rate(&m, &ids) - grad.d_embedding[i].0).abs() < 1e-12);
    }
    for i in 0..model.w_out.len() {
        let mut m = resting_model(&model);
        m.w_out = moving(&model.w_out, i);
        assert!((entropy_rate(&m, &ids) - grad.d_w_out[i].0).abs() < 1e-12);
    }
}

#[test]
fn reported_loss_is_the_cross_entropy() {
    let mut model = even_model(4, 2, 2);
    model.w_out = vec![F64(0.0); 8];
    // With nothing but equal logits every token has probability 1/4.
    let grad = model.accumulate_gradients(&[0, 1], &[0, 1, 2, 3], 2);
    let expected = -4.0 * (0.25f64 + 1e-9).ln();
    assert!((grad.loss.0 - expected).abs() < 1e-12);
}

#[test]
fn parts_of_a_batch_add_up() {
    let model = even_model(6, 3, 4);
    let ids = [1usize, 2, 3, 4, 0, 5, 2, 2, 1];
    let starts = [0usize, 2, 4, 6];
    let whole = model.accumulate_gradients(&starts, &ids, 2);
    let mut parts = Grad::<F64>::zeros(6, 3, 4);
    parts.add_assign(&model.accumulate_gradients(&starts[..1], &ids, 2));
    parts.add_assign(&model.accumulate_gradients(&starts[1..], &ids, 2));
    assert!((whole.loss.0 - parts.loss.0).abs() < 1e-12);
    for (a, b) in whole.d_u_h.iter().zip(&parts.d_u_h) {
        assert!((a.0 - b.0).abs() < 1e-12);
    }
    for (a, b) in whole.d_embedding.iter().zip(&parts.d_embedding) {
        assert!((a.0 - b.0).abs() < 1e-12);
    }
}

#[test]
fn zero_gradients_have_the_shapes_of_the_weights() {
    let model = even_model(6, 3, 4);
    let g = Grad::<F64>::zeros(6, 3, 4);
    let pairs = [
        (&g.d_embedding, &model.embedding),
        (&g.d_w_z, &model.w_z),
        (&g.d_w_r, &model.w_r),
        (&g.d_w_h, &model.w_h),
        (&g.d_u_z, &model.u_z),
        (&g.d_u_r, &model.u_r),
        (&g.d_u_h, &model.u_h),
        (&g.d_b_z, &model.b_z),
        (&g.d_b_r, &model.b_r),
        (&g.d_b_h, &model.b_h),
        (&g.d_w_out, &model.w_out),
        (&g.d_b_out, &model.b_out),
    ];
    for (d, w) in pairs {
        assert_eq!(d, &vec![F64(0.0); w.len()]);
    }
    assert_eq!(g.loss, F64(0.0));
}

#[test]
fn gradients_add_up_in_any_order() {
    let model = even_model(6, 3, 4);
    let ids = [1usize, 2, 3, 4, 0, 5, 2, 2, 1];
    let mut first = model.accumulate_gradients(&[0, 2], &ids, 2);
    let mut second = model.accumulate_gradients(&[4], &ids, 2);
    let again = model.accumulate_gradients(&[0, 2], &ids, 2);
    let mut nothing = Grad::<F64>::zeros(6, 3, 4);
    nothing.add_assign(&again);
    assert_eq!((nothing.loss, &nothing.d_u_r), (again.loss, &again.d_u_r));
    assert_eq!(nothing.d_embedding, again.d_embedding);
    first.add_assign(&second);
    second.add_assign(&again);
    assert_eq!((first.loss, &first.d_b_out), (second.loss, &second.d_b_out));
    assert_eq!(first.d_embedding, second.d_embedding);
    assert_eq!(first.d_w_h, second.d_w_h);
}

#[test]
fn output_bias_gradients_balance() {
    let model = even_model(6, 3, 4);
    let ids = [1usize, 2, 3, 4, 0, 5, 2, 2, 1];
    let grad = model.accumulate_gradients(&[0, 4], &ids, 4);
    // Each is the mass put on its token in excess of what came.
    let mut want = vec![0.0f64; 6];
    for start in [0usize, 4] {
        let mut h = vec![F64(0.0); 4];
        for t in 0..4 {
            let out = model.step(ids[start + t], &h);
            for (w, p) in want.iter_mut().zip(&out.probs) {
                *w += p.0;
            }
            want[ids[start + t + 1]] -= 1.0;
            h = out.h;
        }
    }
    for (got, w) in grad.d_b_out.iter().zip(&want) {
        assert!((got.0 - w).abs() < 1e-12);
    }
    assert!(grad.d_b_out.iter().map(|x| x.0).sum::<f64>().abs() < 1e-12);
}

#[test]
fn backward_products_are_adjoint() {
    let mat = even_draws(6);
    let x = [F64(0.5), F64(-2.0), F64(3.0)];
    let d = [F64(1.5), F64(-0.25)];
    let mut out = vec![F64(0.0); 2];
    linear_forward(&mat, &x, &mut out);
    let mut d_x = vec![F64(0.0); 3];
    linear_backward_input(&mat, &d, &mut d_x);
    let dot = |a: &[F64], b: &[F64]| a.iter().zip(b).map(|(p, q)| p.0 * q.0).sum::<f64>();
    assert!((dot(&d_x, &x) - dot(&d, &out)).abs() < 1e-12);
    assert!((out[0].0 - (x[0].0 * mat[0].0 + x[1].0 * mat[2].0 + x[2].0 * mat[4].0)).abs() < 1e-12);
}

#[test]
fn difference_quotients_come_near_the_gradients() {
    let model = even_model(5, 2, 3);
    let ids = [1usize, 2, 4, 0, 3, 3];
    let grad = model.accumulate_gradients(&[0], &ids, 5);
    // In one direction that moves several weights at once.
    let moved = |h: f64| {
        let mut m = even_model(5, 2, 3);
        m.u_h.iter_mut().enumerate().for_each(|(i, w)| w.0 += h * (i as f64 - 4.0));
        m.embedding.iter_mut().for_each(|w| w.0 += h);
        m.b_out[2].0 -= 2.0 * h;
        m.accumulate_gradients(&[0], &ids, 5).loss.0
    };
    let mut along = -2.0 * grad.d_b_out[2].0;
    along += grad.d_u_h.iter().enumerate().map(|(i, d)| d.0 * (i as f64 - 4.0)).sum::<f64>();
    along += grad.d_embedding.iter().map(|d| d.0).sum::<f64>();
    let mut gap = f64::INFINITY;
    for h in [1e-1f64, 1e-2, 1e-3] {
        let one_sided = ((moved(h) - moved(0.0)) / h - along).abs();
        let central = ((moved(h) - moved(-h)) / (2.0 * h) - along).abs();
        assert!(central < one_sided && one_sided < gap);
        gap = one_sided;
    }
    assert!(gap < 1e-1);
}

#[test]
fn rates_are_slopes() {
    let by = |f: &dyn Fn(Dual<F64>) -> Dual<F64>, x: f64| {
        let rate = f(Dual { re: F64(x), du: F64(1.0) }).du.0;
        let h = 1e-5;
        let at = |y: f64| f(Dual { re: F64(y), du: F64(0.0) }).re.0;
        (rate, (at(x + h) - at(x - h)) / (2.0 * h))
    };
    let two = Dual { re: F64(2.0), du: F64(0.0) };
    let functions: [&dyn Fn(Dual<F64>) -> Dual<F64>; 9] = [
        &|x| x.mul(x).add(x),
        &|x| two.sub(x).div(x),
        &|x| x.exp(),
        &|x| x.ln(),
        &|x| x.tanh(),
        &|x| x.cos(),
        &|x| x.sqrt(),
        &|x| x.powf(two),
        &|x| two.powf(x),
    ];
    for f in functions {
        for x in [0.3f64, 1.0, 2.5] {
            let (rate, slope) = by(f, x);
            assert!((rate - slope).abs() < 1e-7);
        }
    }
}

#[test]
fn any_number_of_threads_learns_the_same() {
    let ids: Vec<usize> = (0..31).map(|i| i * i % 6).collect();
    let starts = training::chunk_starts(ids.len(), 3);
    assert_eq!(starts.len(), 10);
    let whole = even_model(6, 3, 4).accumulate_gradients(&starts, &ids, 3);
    for threads in [1usize, 3, 4, 16] {
        let mut shared = even_model(6, 3, 4);
        let share = training::chunk_len(starts.len(), threads);
        let parts: Vec<Grad<F64>> = training::deal(&starts, share)
            .iter()
            .map(|part| shared.accumulate_gradients(part, &ids, 3))
            .collect();
        let added = Grad::add_up(6, 3, 4, &parts);
        let loss = shared.learn(&parts, F64(0.1), 30);
        assert_eq!(loss, added.loss);
        assert!((loss.0 - whole.loss.0).abs() < 1e-12);
        let mut alone = even_model(6, 3, 4);
        alone.apply_gradients(&whole, F64(0.1), 30);
        for (a, b) in alone.w_h.iter().zip(&shared.w_h) {
            assert!((a.0 - b.0).abs() < 1e-14);
        }
        for (a, b) in alone.embedding.iter().zip(&shared.embedding) {
            assert!((a.0 - b.0).abs() < 1e-14);
        }
    }
}

#[test]
fn no_chunks_have_no_gradients() {
    let model = even_model(3, 2, 2);
    let grad = model.accumulate_gradients(&[], &[], 25);
    assert_eq!(grad.loss, F64(0.0));
    assert!(grad.d_w_out.iter().all(|x| x.0 == 0.0));
    assert_eq!(grad.d_w_out.len(), 6);
    assert_eq!(grad.d_embedding.len(), 6);
    assert_eq!(grad.d_u_z.len(), 4);
}

#[test]
fn updates_move_against_the_gradient() {
    let mut model = even_model(3, 2, 2);
    model.b_out = vec![F64(1.0), F64(2.0), F64(3.0)];
    let mut grad = Grad::<F64>::zeros(3, 2, 2);
    grad.d_b_out = vec![F64(4.0), F64(-8.0), F64(0.0)];
    let untouched = model.w_z.clone();
    model.apply_gradients(&grad, F64(0.5), 4);
    assert_eq!(model.b_out, vec![F64(0.5), F64(3.0), F64(3.0)]);
    assert_eq!(model.w_z, untouched);
    assert!(model.is_shaped());
}

#[test]
fn training_lowers_the_loss() {
    let mut model = even_model(5, 4, 6);
    let ids: Vec<usize> = (0..41).map(|i| i % 4 + 1).collect();
    let starts = training::chunk_starts(ids.len(), 5);
    let first = model.accumulate_gradients(&starts, &ids, 5).loss.0;
    let mut last = first;
    for _ in 0..60 {
        let grad = model.accumulate_gradients(&starts, &ids, 5);
        model.apply_gradients(&grad, F64(1.0), starts.len() * 5);
        let loss = model.accumulate_gradients(&starts, &ids, 5).loss.0;
        assert!(loss < last);
        last = loss;
    }
    assert!(last < first / 2.0);
}

#[test]
fn a_step_follows_the_equations() {
    let model: Model<F64> = Model {
        vocab_size: 2,
        embed_dim: 1,
        hidden_dim: 1,
        embedding: vec![F64(0.3), F64(-0.7)],
        w_z: vec![F64(0.5)],
        w_r: vec![F64(-0.4)],
        w_h: vec![F64(1.2)],
        u_z: vec![F64(0.9)],
        u_r: vec![F64(0.1)],
        u_h: vec![F64(-0.8)],
        b_z: vec![F64(0.05)],
        b_r: vec![F64(0.15)],
        b_h: vec![F64(-0.25)],
        w_out: vec![F64(0.6), F64(-0.2)],
        b_out: vec![F64(0.0), F64(0.1)],
    };
    let (x, h) = (-0.7f64, 0.4f64);
    let logistic = |v: f64| 1.0 / (1.0 + (-v).exp());
    let z = logistic(0.5 * x + 0.9 * h + 0.05);
    let r = logistic(-0.4 * x + 0.1 * h + 0.15);
    let c = (1.2 * x - 0.8 * (r * h) - 0.25).tanh();
    let next = (1.0 - z) * h + z * c;
    let (a, b) = ((0.6 * next).exp(), (0.1 - 0.2 * next).exp());

    let out = model.step(1, &[F64(h)]);
    assert!((out.z[0].0 - z).abs() < 1e-15);
    assert!((out.r[0].0 - r).abs() < 1e-15);
    assert!((out.hcand[0].0 - c).abs() < 1e-15);
    assert!((out.h[0].0 - next).abs() < 1e-15);
    assert!((out.probs[0].0 - a / (a + b)).abs() < 1e-15);
    assert!((out.probs[1].0 - b / (a + b)).abs() < 1e-15);

    let (az, ar) = model.gate_preactivations(1, &[F64(h)]);
    assert_eq!(sigmoid(az[0]), out.z[0]);
    assert_eq!(sigmoid(ar[0]), out.r[0]);
}

#[test]
fn a_closed_update_gate_keeps_memory_exactly() {
    let mut model = even_model(3, 2, 3);
    model.b_z = vec![F64(-1e9), F64(0.0), F64(1e9)];
    let h = [F64(0.125), F64(0.25), F64(-0.5)];
    let out = model.step(2, &h);
    assert_eq!(out.z[0], F64(0.0));
    assert_eq!(out.h[0], h[0]);
    assert_eq!(out.z[2], F64(1.0));
    assert_eq!(out.h[2], out.hcand[2]);
}

#[test]
fn gates_memory_and_odds_stay_in_range() {
    let model = even_model(7, 3, 5);
    let mut h = vec![F64(0.0); 5];
    for i in 0..50usize {
        let out = model.step(i % 7, &h);
        assert!(out.z.iter().chain(&out.r).all(|g| 0.0 < g.0 && g.0 < 1.0));
        assert!(out.hcand.iter().chain(&out.h).all(|x| -1.0 < x.0 && x.0 < 1.0));
        assert!(out.probs.iter().all(|p| p.0 > 0.0));
        assert!((out.probs.iter().map(|p| p.0).sum::<f64>() - 1.0).abs() < 1e-12);
        h = out.h;
    }
}

#[test]
fn tanh_is_a_stretched_sigmoid() {
    for x in [-3.0f64, -0.5, 0.0, 0.1, 2.0] {
        assert!((x.tanh() - (2.0 * sigmoid(F64(2.0 * x)).0 - 1.0)).abs() < 1e-12);
    }
    assert_eq!(sigmoid(F64(0.0)), F64(0.5));
}

#[test]
fn softmax_survives_large_logits() {
    let p = softmax(&[F32(1000.0), F32(1000.0), F32(-1000.0)]);
    assert_eq!(bare(&p), vec![0.5, 0.5, 0.0]);
}

#[test]
fn weights_start_from_their_draws() {
    assert_eq!(draws_needed(8000, 16, 96), Some(928_256));
    assert_eq!(draws_needed(usize::MAX, 2, 1), None);
    let n = draws_needed(3, 4, 2).unwrap();
    assert_eq!(n, 3 * 4 + 3 * 4 * 2 + 3 * 2 * 2 + 2 * 3);
    let draws: Vec<F64> = (0..n).map(|i| F64(i as f64 / n as f64)).collect();
    let model = Model::from_draws(3, 4, 2, &draws);
    assert!(model.is_shaped());
    assert_eq!(model.embedding[0], F64(-0.5));
    let at = 12 + 8; // the first weight of w_r
    assert_eq!(model.w_r[0], F64((at as f64 / n as f64 - 0.5) * 2.0 * 0.5));
    let at = 12 + 24 + 12; // the first output weight
    assert_eq!(model.w_out[0], F64((at as f64 / n as f64 - 0.5) * 2.0 * (1.0 / 2f64.sqrt())));
    assert!(model.b_z.iter().chain(&model.b_r).chain(&model.b_h).chain(&model.b_out).all(|b| b.0 == 0.0));
    // Below 937,000 parameters in all at the default sizes.
    assert_eq!(928_256 + 3 * 96 + 8000, 936_544);
}

#[test]
fn checkpoints_restore_models() {
    let vocab = strings(&["<unk>", "\n", "a"]);
    let model = even_model(3, 2, 2);
    let (again, words) = Model::from_checkpoint(model.to_checkpoint(&vocab));
    assert_eq!(words, vocab);
    assert_eq!((again.vocab_size, again.embed_dim, again.hidden_dim), (3, 2, 2));
    assert_eq!(again.embedding, model.embedding);
    assert_eq!(again.w_z, model.w_z);
    assert_eq!(again.w_r, model.w_r);
    assert_eq!(again.w_h, model.w_h);
    assert_eq!(again.u_z, model.u_z);
    assert_eq!(again.u_r, model.u_r);
    assert_eq!(again.u_h, model.u_h);
    assert_eq!(again.b_z, model.b_z);
    assert_eq!(again.b_r, model.b_r);
    assert_eq!(again.b_h, model.b_h);
    assert_eq!(again.w_out, model.w_out);
    assert_eq!(again.b_out, model.b_out);
    let ckpt = again.to_checkpoint(&words);
    assert_eq!(ckpt.vocab, vocab);
    assert_eq!(ckpt.w_out, model.w_out);
    // The number of tokens is that of the vocabulary.
    let (odd, _) = Model::from_checkpoint(model.to_checkpoint(&vocab[..2]));
    assert_eq!(odd.vocab_size, 2);
    assert!(!odd.is_shaped());
}

#[test]
fn plain_sampling_changes_nothing() {
    let p = floats(&[0.5, 0.25, 0.25]);
    assert_eq!(reshape_for_sampling(&p, PLAIN), Some(p.clone()));
    let near = SamplingConfig { temperature: F32(1.0 + 1e-7), ..PLAIN };
    assert_eq!(reshape_for_sampling(&p, near), Some(p));
}

#[test]
fn temperature_is_softmax_of_divided_logits() {
    let logits = [F64(0.3), F64(-1.0), F64(2.0)];
    for t in [0.5f64, 0.9, 2.0] {
        let cfg = SamplingConfig { temperature: F64(t), top_k: None, top_p: None };
        let got = reshape_for_sampling(&softmax(&logits), cfg).unwrap();
        let want = softmax(&logits.map(|l| F64(l.0 / t)));
        for (a, b) in got.iter().zip(&want) {
            assert!((a.0 - b.0).abs() < 1e-12);
        }
    }
}

#[test]
fn temperature_raises_to_a_power() {
    let p = [F64(0.7), F64(0.2), F64(0.1)];
    let cfg = SamplingConfig { temperature: F64(0.5), top_k: None, top_p: None };
    let got = reshape_for_sampling(&p, cfg).unwrap();
    for (g, w) in got.iter().zip([0.49 / 0.54, 0.04 / 0.54, 0.01 / 0.54]) {
        assert!((g.0 - w).abs() < 1e-12);
    }
}

#[test]
fn temperature_comes_before_the_other_steps() {
    // At a temperature, whatever is ruled out, it is as if the logits had
    // been divided by it.
    let logits = [F64(0.3), F64(-1.0), F64(2.0), F64(1.5)];
    let cold = softmax(&logits.map(|l| F64(l.0 / 0.6)));
    let cfg = SamplingConfig { temperature: F64(0.6), top_k: Some(3), top_p: Some(F64(0.9)) };
    let got = reshape_for_sampling(&softmax(&logits), cfg).unwrap();
    let want = reshape_for_sampling(&cold, SamplingConfig { temperature: F64(1.0), ..cfg }).unwrap();
    for (g, w) in got.iter().zip(&want) {
        assert!((g.0 - w.0).abs() < 1e-12);
    }
    assert_eq!(got[1], F64(0.0));
}

#[test]
fn reshaping_keeps_distributions() {
    let p = softmax(&even_draws(7).iter().map(|x| F64(x.0 * 9.0)).collect::<Vec<F64>>());
    for t in [0.2f64, 1.0, 3.0] {
        for top_k in [None, Some(1), Some(4), Some(99)] {
            for top_p in [None, Some(F64(0.0)), Some(F64(0.6)), Some(F64(1.0))] {
                let cfg = SamplingConfig { temperature: F64(t), top_k, top_p };
                let q = reshape_for_sampling(&p, cfg).unwrap();
                assert_eq!(q.len(), 7);
                assert!(q.iter().all(|x| x.0 >= 0.0));
                assert!((q.iter().map(|x| x.0).sum::<f64>() - 1.0).abs() < 1e-12);
            }
        }
    }
}

#[test]
fn draws_follow_the_distribution() {
    let p = [F64(0.125), F64(0.0), F64(0.5), F64(0.375)];
    let mut counts = [0usize; 4];
    for i in 1..=1000 {
        counts[pick(&p, F64(i as f64 / 1000.0))] += 1;
    }
    assert_eq!(counts, [125, 0, 500, 375]);
}

#[test]
fn low_temperature_sharpens() {
    let p = floats(&[0.6, 0.3, 0.1]);
    let cold = reshape_for_sampling(&p, SamplingConfig { temperature: F32(0.5), ..PLAIN }).unwrap();
    assert!((cold[0].0 - 0.36 / 0.46).abs() < 1e-6);
    let hot = reshape_for_sampling(&p, SamplingConfig { temperature: F32(4.0), ..PLAIN }).unwrap();
    assert!(cold[0].0 > 0.6 && hot[0].0 < 0.6);
    assert!(cold[2].0 < 0.1 && hot[2].0 > 0.1);
}

#[test]
fn impossible_tokens_stay_finite_at_any_temperature() {
    let p = floats(&[1.0, 0.0]);
    let got = reshape_for_sampling(&p, SamplingConfig { temperature: F32(2.0), ..PLAIN }).unwrap();
    assert!(got[1].0 > 0.0 && got[1].0 < 1e-5);
}

#[test]
fn top_k_keeps_the_likeliest() {
    let p = floats(&[0.125, 0.5, 0.25, 0.125]);
    let two = SamplingConfig { top_k: Some(2), ..PLAIN };
    let got = reshape_for_sampling(&p, two).unwrap();
    assert_eq!(bare(&got), vec![0.0, 0.5 / 0.75, 0.25 / 0.75, 0.0]);
    // Among equals the first is kept.
    let three = SamplingConfig { top_k: Some(3), ..PLAIN };
    let got = reshape_for_sampling(&p, three).unwrap();
    assert_eq!(bare(&got), vec![0.125 / 0.875, 0.5 / 0.875, 0.25 / 0.875, 0.0]);
    let many = SamplingConfig { top_k: Some(9), ..PLAIN };
    assert_eq!(reshape_for_sampling(&p, many), Some(p.clone()));
    let none = SamplingConfig { top_k: Some(0), ..PLAIN };
    assert_eq!(bare(&reshape_for_sampling(&p, none).unwrap()), vec![0.0; 4]);
}

#[test]
fn top_p_keeps_the_fewest_that_reach() {
    let p = floats(&[0.125, 0.5, 0.25, 0.125]);
    let most = SamplingConfig { top_p: Some(F32(0.75)), ..PLAIN };
    let got = reshape_for_sampling(&p, most).unwrap();
    assert_eq!(bare(&got), vec![0.0, 0.5 / 0.75, 0.25 / 0.75, 0.0]);
    let least = SamplingConfig { top_p: Some(F32(0.0)), ..PLAIN };
    assert_eq!(bare(&reshape_for_sampling(&p, least).unwrap()), vec![0.0, 1.0, 0.0, 0.0]);
    let beyond = SamplingConfig { top_p: Some(F32(2.0)), ..PLAIN };
    assert_eq!(reshape_for_sampling(&p, beyond), Some(p.clone()));
    let both = SamplingConfig { top_k: Some(3), top_p: Some(F32(0.5)), ..PLAIN };
    assert_eq!(bare(&reshape_for_sampling(&p, both).unwrap()), vec![0.0, 1.0, 0.0, 0.0]);
}

#[test]
fn what_cannot_be_ordered_is_not_sampled() {
    let p = floats(&[0.5, f32::NAN]);
    assert!(reshape_for_sampling(&p, PLAIN).is_some());
    assert!(reshape_for_sampling(&p, SamplingConfig { top_k: Some(1), ..PLAIN }).is_none());
    assert!(reshape_for_sampling(&p, SamplingConfig { top_p: Some(F32(0.5)), ..PLAIN }).is_none());
    // A single entry needs no order.
    let one = floats(&[f32::NAN]);
    assert!(reshape_for_sampling(&one, SamplingConfig { top_k: Some(1), ..PLAIN }).is_some());
}

#[test]
fn a_draw_picks_the_first_that_exhausts_it() {
    let p = floats(&[0.25, 0.5, 0.25]);
    assert_eq!(pick(&p, F32(0.0)), 0);
    assert_eq!(pick(&p, F32(0.25)), 0);
    assert_eq!(pick(&p, F32(0.26)), 1);
    assert_eq!(pick(&p, F32(0.75)), 1);
    assert_eq!(pick(&p, F32(0.99)), 2);
    // Where the probabilities fall short of the draw, the first token comes.
    assert_eq!(pick(&floats(&[0.25, 0.25]), F32(0.9)), 0);
}

#[test]
fn what_is_ruled_out_is_not_picked() {
    // Not by a draw of nothing,
    assert_eq!(pick(&floats(&[0.0, 0.25, 0.75]), F32(0.0)), 1);
    assert_eq!(pick(&floats(&[0.0, 0.25, 0.0, 0.75]), F32(0.25)), 1);
    // nor by one that rounding keeps the probabilities short of.
    assert_eq!(pick(&floats(&[0.0, 0.5, 0.25]), F32(0.9)), 1);
    // Where everything is ruled out, the first token is left.
    assert_eq!(pick(&floats(&[0.0, 0.0]), F32(0.5)), 0);
    assert_eq!(pick(&floats(&[]), F32(0.5)), 0);
}

#[test]
fn only_kept_tokens_are_written() {
    let (vocab, ids) = build_vocab(&strings(&["\n", "a", "b", "c"]), 10);
    let mut model = even_model(5, 2, 2);
    // "c" and "b" are the likeliest two, whatever came before.
    model.w_out = vec![F64(0.0); 10];
    model.b_out = vec![F64(0.5), F64(0.0), F64(-1.0), F64(1.0), F64(2.0)];
    let mut draws = even_draws(60);
    draws[0] = F64(0.0);
    draws[1] = F64(1.0 - 1e-16);
    let plain = SamplingConfig { temperature: F64(1.0), top_k: None, top_p: None };
    let by_count = SamplingConfig { top_k: Some(2), ..plain };
    let by_mass = SamplingConfig { top_p: Some(F64(0.75)), ..plain };
    for cfg in [by_count, by_mass] {
        let text = write_text(&model, &vocab, &ids, &[], &draws, cfg).unwrap();
        let written: Vec<&str> = text.split_whitespace().collect();
        assert_eq!(written.len(), 60);
        assert!(written.iter().all(|w| *w == "b" || *w == "c"));
        assert!(written.contains(&"b") && written.contains(&"c"));
    }
    let free = write_text(&model, &vocab, &ids, &[], &draws, plain).unwrap();
    assert!(free.contains("<unk>"));
}

#[test]
fn reshaping_goes_step_by_step() {
    let p = floats(&[0.1, 0.4, 0.3, 0.15, 0.05]);
    let warm = SamplingConfig { temperature: F32(0.7), ..PLAIN };
    let few = SamplingConfig { top_k: Some(3), ..PLAIN };
    let likely = SamplingConfig { top_p: Some(F32(0.8)), ..PLAIN };
    let all = SamplingConfig { temperature: F32(0.7), top_k: Some(3), top_p: Some(F32(0.8)) };
    let step = reshape_for_sampling(&p, warm).unwrap();
    let step = reshape_for_sampling(&step, few).unwrap();
    assert_eq!(reshape_for_sampling(&step, likely), reshape_for_sampling(&p, all));
}

#[test]
fn comparisons_know_no_number() {
    assert_eq!(greater(F32(f32::NAN), F32(1.0)), F32(1.0));
    assert_eq!(greater(F32(1.0), F32(f32::NAN)), F32(1.0));
    assert_eq!(smaller(F32(f32::NAN), F32(1.0)), F32(1.0));
    assert_eq!(greater(F32(-2.0), F32(-1.0)), F32(-1.0));
    assert_eq!(smaller(F32(-2.0), F32(1.0)), F32(-2.0));
}

#[test]
fn text_continues_its_prompt() {
    let words = tinylm::tokenizer::tokenize("the cat sat.\nthe dog ran.\n");
    let (vocab, ids) = build_vocab(&words, 100);
    let model = even_model(vocab.len(), 3, 4);
    let cfg = SamplingConfig { temperature: F64(0.8), top_k: Some(4), top_p: Some(F64(0.9)) };
    let prompt = encode(&ids, &tinylm::tokenizer::tokenize("the wolf"));
    let draws: Vec<F64> = (0..6).map(|i| F64(0.1 + 0.15 * i as f64)).collect();
    let text = write_text(&model, &vocab, &ids, &prompt, &draws, cfg).unwrap();
    assert!(text.starts_with("the <unk>"));
    // The same draws write the same text, and more draws a longer one.
    assert_eq!(write_text(&model, &vocab, &ids, &prompt, &draws, cfg), Some(text.clone()));
    let short = write_text(&model, &vocab, &ids, &prompt, &draws[..3], cfg).unwrap();
    assert!(text.starts_with(&short));
    assert_eq!(write_text(&model, &vocab, &ids, &prompt, &[], cfg), Some("the <unk>".to_string()));
}

#[test]
fn seeds_draw_the_same_numbers_in_every_run() {
    let mut rng = StdRng::seed_from_u64(42);
    let expected: Vec<f32> = (0..100).map(|_| rng.random::<f32>()).collect();
    assert_eq!(bare(&chance::sampling_draws(100, Some(42))), expected);
    assert_eq!(bare(&chance::sampling_draws(7, Some(42))), expected[..7]);
    assert_ne!(bare(&chance::sampling_draws(100, Some(43))), expected);
    assert!(expected.iter().all(|x| (0.0..1.0).contains(x)));
}

#[test]
fn without_a_seed_the_draws_are_fresh() {
    let a: Vec<F32> = chance::sampling_draws(50, None);
    let b: Vec<F32> = chance::sampling_draws(50, None);
    let c: Vec<F32> = chance::fresh_draws(50);
    let d: Vec<F32> = chance::fresh_draws(50);
    assert_eq!((a.len(), c.len()), (50, 50));
    assert_ne!(a, b);
    assert_ne!(c, d);
    assert!(a.iter().chain(&c).all(|x| 0.0 <= x.0 && x.0 < 1.0));
}

#[test]
fn words_make_numbers_below_one() {
    assert_eq!(chance::draw::<F32>(0), F32(0.0));
    assert_eq!(chance::draw::<F32>(255), F32(0.0));
    assert_eq!(chance::draw::<F32>(1 << 31), F32(0.5));
    assert_eq!(chance::draw::<F32>(u32::MAX), F32(1.0 - 1.0 / 16_777_216.0));
}

#[test]
fn new_models_have_small_random_weights() {
    let model: Model<F32> = Model::new(20, 4, 9);
    assert!(model.is_shaped());
    assert!(model.embedding.iter().all(|w| -0.5 <= w.0 && w.0 < 0.5));
    assert!(model.u_h.iter().chain(&model.w_out).all(|w| w.0.abs() <= 0.3334));
    assert!(model.embedding.iter().any(|w| *w != model.embedding[0]));
    assert!(model.b_out.iter().all(|b| b.0 == 0.0));
    let window: windowed::Model<F32> = windowed::Model::new(20, 2, 8, 3);
    assert!(window.is_shaped());
    assert!(window.w1.iter().all(|w| w.0.abs() <= 0.25));
    assert!(window.w1.iter().any(|w| *w != window.w1[0]));
}

#[test]
fn the_same_seed_writes_the_same_text() {
    let words = tinylm::tokenizer::tokenize("the cat sat.\nthe dog ran.\na bird sang;\n");
    let (vocab, ids) = build_vocab(&words, 100);
    let n = draws_needed(vocab.len(), 3, 4).unwrap();
    let model: Model<F32> = Model::from_draws(vocab.len(), 3, 4, &chance::sampling_draws(n, Some(1)));
    let text = generate(&model, &vocab, &ids, &[], 80, Some(7), PLAIN);
    assert_eq!(generate(&model, &vocab, &ids, &[], 80, Some(7), PLAIN), text);
    assert_ne!(generate(&model, &vocab, &ids, &[], 80, Some(8), PLAIN), text);
    assert_ne!(generate(&model, &vocab, &ids, &[], 80, None, PLAIN), text);
    let draws = chance::sampling_draws(80, Some(7));
    assert_eq!(write_text(&model, &vocab, &ids, &[], &draws, PLAIN), text);
    let short = generate(&model, &vocab, &ids, &[], 20, Some(7), PLAIN).unwrap();
    assert!(text.unwrap().starts_with(&short));
}

#[test]
fn text_without_a_prompt_starts_on_a_new_line() {
    let (vocab, ids) = build_vocab(&strings(&["\n", "a", "b"]), 10);
    let mut model = even_model(4, 2, 2);
    // Everything but "b", the last entry, is ruled out.
    model.w_out = vec![F64(0.0); 8];
    model.b_out = vec![F64(0.0), F64(0.0), F64(0.0), F64(1000.0)];
    let cfg = SamplingConfig { temperature: F64(1.0), top_k: None, top_p: None };
    let draws = [F64(0.5), F64(0.0), F64(0.999)];
    assert_eq!(write_text(&model, &vocab, &ids, &[], &draws, cfg), Some("\nb b b".to_string()));
    // Without a line break in the vocabulary it starts from the unknown.
    let (vocab, ids) = build_vocab(&strings(&["a", "b", "c"]), 10);
    assert_eq!(write_text(&model, &vocab, &ids, &[], &draws[..1], cfg), Some("<unk> c".to_string()));
}

#[test]
fn a_broken_model_writes_nothing_it_would_have_to_order() {
    let (vocab, ids) = build_vocab(&strings(&["\n", "a"]), 10);
    let mut model = even_model(3, 2, 2);
    model.b_out = vec![F64(f64::NAN); 3];
    let cfg = SamplingConfig { temperature: F64(1.0), top_k: Some(2), top_p: None };
    assert_eq!(write_text(&model, &vocab, &ids, &[], &[F64(0.5)], cfg), None);
    let free = SamplingConfig { top_k: None, ..cfg };
    assert_eq!(write_text(&model, &vocab, &ids, &[], &[F64(0.5)], free), Some("\n<unk>".to_string()));
}

#[test]
fn chunks_tile_the_text() {
    assert_eq!(training::chunk_starts(11, 5), vec![0, 5]);
    assert_eq!(training::chunk_starts(10, 5), vec![0]);
    assert_eq!(training::chunk_starts(6, 5), vec![0]);
    assert_eq!(training::chunk_starts(5, 5), Vec::<usize>::new());
    assert_eq!(training::chunk_starts(0, 25), Vec::<usize>::new());
    assert_eq!(training::chunk_starts(4, usize::MAX), Vec::<usize>::new());
    assert_eq!(training::chunk_starts(4, 1), vec![0, 1, 2]);
}

#[test]
fn lists_are_dealt_out_in_parts() {
    let items = [7usize, 8, 9, 10, 11];
    assert_eq!(training::deal(&items, 2), vec![vec![7, 8], vec![9, 10], vec![11]]);
    assert_eq!(training::deal(&items, 9), vec![items.to_vec()]);
    assert!(training::deal(&[], 3).is_empty());
    assert_eq!(training::parts(5, 2), 3);
    assert_eq!(training::parts(4, 2), 2);
    assert_eq!(training::parts(0, 2), 0);
    assert_eq!(training::chunk_len(512, 8), 64);
    assert_eq!(training::chunk_len(3, 8), 1);
    assert_eq!(training::chunk_len(0, 8), 1);
}

#[test]
fn an_epoch_visits_every_example_once() {
    let mut order: Vec<usize> = (0..200).collect();
    let batches = training::shuffled_batches(&mut order, 64);
    assert_eq!(batches.iter().map(|b| b.len()).collect::<Vec<usize>>(), vec![64, 64, 64, 8]);
    assert_eq!(batches.concat(), order);
    let sorted: Vec<usize> = (0..200).collect();
    // Of 200! orders it is the first with hardly any chance.
    assert_ne!(order, sorted);
    order.sort();
    assert_eq!(order, sorted);
}

#[test]
fn places_are_looked_up() {
    assert_eq!(training::look_up(&[10, 20, 30], &[2, 0, 2]), vec![30, 10, 30]);
    assert!(training::look_up(&[], &[]).is_empty());
}

#[test]
fn suggested_epochs_grow_with_the_vocabulary() {
    assert_eq!(training::min_epochs(8000), 40);
    assert_eq!(training::min_epochs(100), 15);
    assert_eq!(training::min_epochs(3099), 15);
    assert_eq!(training::min_epochs(3100), 16);
    assert_eq!(training::suggested_epochs(8000, 1_200_000), 40);
    assert_eq!(training::suggested_epochs(3179, 24_000), 83);
    assert_eq!(training::suggested_epochs(100, 36), 400);
    assert_eq!(training::suggested_epochs(100, 0), 400);
    assert_eq!(training::suggested_epochs(100, 5_000_000), 15);
    assert_eq!(training::suggested_epochs(80_000, 1), 400);
}

#[test]
fn timed_batches_stay_within_the_examples() {
    assert_eq!(training::sample_start(0, 4, 10), 0);
    assert_eq!(training::sample_start(1, 4, 10), 4);
    assert_eq!(training::sample_start(2, 4, 10), 6);
    assert_eq!(training::sample_start(usize::MAX, 4, 10), 6);
}

#[test]
fn epochs_are_reported_about_twenty_times() {
    let reported = (0..83).filter(|&e| training::reports(e, 83)).collect::<Vec<usize>>();
    assert_eq!(reported.len(), 22);
    assert_eq!(reported[..3], [0, 4, 8]);
    assert_eq!(reported.last(), Some(&82));
    assert!((0..10).all(|e| training::reports(e, 10)));
    assert!(!training::checkpoint_due(0, 2));
    assert!(training::checkpoint_due(1, 2));
    assert!(training::checkpoint_due(39, 40));
}

#[test]
fn learning_rate_follows_half_a_wave() {
    let rate = |epoch: usize, epochs: usize| training::learning_rate(F64(0.1), epoch, epochs).0;
    assert!((rate(0, 10) - 0.1).abs() < 1e-15);
    assert!((rate(5, 11) - 0.055).abs() < 1e-15);
    assert!((rate(3, 10) - 0.1 * (0.1 + 0.45 * 1.5)).abs() < 1e-15);
    // The last epoch has a tenth of the peak.
    for epochs in [2usize, 3, 10, 250] {
        assert!((rate(epochs - 1, epochs) - 0.01).abs() < 1e-15);
    }
    for e in 1..100 {
        assert!(rate(e, 100) < rate(e - 1, 100));
        assert!(rate(e, 100) >= 0.01 - 1e-15);
    }
    assert!((rate(0, 0) - 0.1).abs() < 1e-15);
    assert!((rate(0, 1) - 0.1).abs() < 1e-15);
}

#[test]
fn samples_have_seeds_of_their_own() {
    assert_eq!(training::sample_seed(Some(7), 2), Some(9));
    assert_eq!(training::sample_seed(Some(u64::MAX), 1), Some(0));
    assert_eq!(training::sample_seed(None, 1), None);
}

#[test]
fn gates_are_observed_along_the_text() {
    let model = even_model(3, 2, 2);
    let (az, ar) = training::observe_gates(&model, &[2, 1]);
    let (az0, ar0) = model.gate_preactivations(2, &[F64(0.0), F64(0.0)]);
    let (az1, ar1) = model.gate_preactivations(1, &model.step(2, &[F64(0.0), F64(0.0)]).h);
    assert_eq!(az, [az0, az1].concat());
    assert_eq!(ar, [ar0, ar1].concat());
}

#[test]
fn numbers_are_summed_up() {
    let xs = [F64(-5.0), F64(1.0), F64(3.0), F64(5.0)];
    let s = training::summarize(&xs);
    assert_eq!(s.mean, F64(1.0));
    assert!((s.std.0 - 14f64.sqrt()).abs() < 1e-15);
    assert_eq!((s.min, s.max), (F64(-5.0), F64(5.0)));
    assert_eq!((s.beyond_2, s.beyond_4, s.beyond_6), (F64(75.0), F64(50.0), F64(0.0)));
}

fn even_window_model() -> windowed::Model<F64> {
    let n = windowed::draws_needed(5, 2, 3, 4).unwrap();
    assert_eq!(n, 5 * 2 + 3 * 2 * 4 + 4 * 5);
    windowed::Model::from_draws(5, 2, 3, 4, &even_draws(n))
}

#[test]
fn windows_predict_from_the_last_tokens() {
    let model = even_window_model();
    assert!(model.is_shaped());
    let out = model.forward(&[4, 0, 4]);
    let row = |t: usize| model.embedding[2 * t..2 * t + 2].to_vec();
    assert_eq!(out.concat, [row(4), row(0), row(4)].concat());
    let h0: f64 = (0..6).map(|k| out.concat[k].0 * model.w1[4 * k].0).sum();
    assert!((out.hidden[0].0 - h0.tanh()).abs() < 1e-12);
    assert!((out.probs.iter().map(|p| p.0).sum::<f64>() - 1.0).abs() < 1e-12);
}

#[test]
fn window_gradients_match_finite_differences() {
    let mut model = even_window_model();
    let ids = [1usize, 2, 3, 4, 0, 2, 2];
    let (ctx, targets) = windowed::build_examples(&ids, 3);
    assert_eq!(ctx, vec![1, 2, 3, 2, 3, 4, 3, 4, 0, 4, 0, 2]);
    assert_eq!(targets, vec![4, 0, 2, 2]);
    let all = [0usize, 1, 2, 3];
    let grad = model.accumulate_gradients(&all, &ctx, &targets);
    let eps = 1e-5;
    for i in 0..model.w1.len() {
        let w = model.w1[i];
        model.w1[i] = F64(w.0 + eps);
        let above = model.accumulate_gradients(&all, &ctx, &targets).loss.0;
        model.w1[i] = F64(w.0 - eps);
        let below = model.accumulate_gradients(&all, &ctx, &targets).loss.0;
        model.w1[i] = w;
        assert!(((above - below) / (2.0 * eps) - grad.d_w1[i].0).abs() < 1e-6);
    }
    for i in 0..model.embedding.len() {
        let w = model.embedding[i];
        model.embedding[i] = F64(w.0 + eps);
        let above = model.accumulate_gradients(&all, &ctx, &targets).loss.0;
        model.embedding[i] = F64(w.0 - eps);
        let below = model.accumulate_gradients(&all, &ctx, &targets).loss.0;
        model.embedding[i] = w;
        assert!(((above - below) / (2.0 * eps) - grad.d_embedding[i].0).abs() < 1e-6);
    }
    // The output biases hold the mass in excess of what came.
    let mut want = vec![0.0f64; 5];
    for i in all {
        let out = model.forward(&ctx[3 * i..3 * i + 3]);
        want.iter_mut().zip(&out.probs).for_each(|(w, p)| *w += p.0);
        want[targets[i]] -= 1.0;
    }
    for (got, w) in grad.d_b2.iter().zip(&want) {
        assert!((got.0 - w).abs() < 1e-12);
    }
    assert!(grad.d_b2.iter().map(|x| x.0).sum::<f64>().abs() < 1e-12);
    let empty = model.accumulate_gradients(&[], &ctx, &targets);
    assert!(empty.loss.0 == 0.0 && empty.d_w1.iter().all(|x| x.0 == 0.0));
    // Split in two, the batch gives the same.
    let mut parts = windowed::Grad::<F64>::zeros(5, 2, 3, 4);
    parts.add_assign(&model.accumulate_gradients(&all[..1], &ctx, &targets));
    parts.add_assign(&model.accumulate_gradients(&all[1..], &ctx, &targets));
    for (a, b) in grad.d_w2.iter().zip(&parts.d_w2) {
        assert!((a.0 - b.0).abs() < 1e-12);
    }
    let before = grad.loss.0;
    let mut other = even_window_model();
    let loss = other.learn(&[parts], F64(0.4), 4);
    assert!((loss.0 - before).abs() < 1e-12);
    model.apply_gradients(&grad, F64(0.4), 4);
    for (a, b) in model.w1.iter().zip(&other.w1) {
        assert!((a.0 - b.0).abs() < 1e-14);
    }
    assert!(model.accumulate_gradients(&all, &ctx, &targets).loss.0 < before);
}

#[test]
fn windows_without_enough_tokens_have_no_examples() {
    let (ctx, targets) = windowed::build_examples(&[1, 2, 3], 3);
    assert!(ctx.is_empty() && targets.is_empty());
    let (ctx, targets) = windowed::build_examples(&[1, 2], 0);
    assert!(ctx.is_empty());
    assert_eq!(targets, vec![1, 2]);
}

#[test]
fn window_checkpoints_restore_models() {
    let vocab = strings(&["<unk>", "\n", "a", "b", "c"]);
    let model = even_window_model();
    let (again, words) = windowed::Model::from_checkpoint(model.to_checkpoint(&vocab));
    assert_eq!(words, vocab);
    assert_eq!((again.vocab_size, again.embed_dim, again.context, again.hidden_dim), (5, 2, 3, 4));
    assert_eq!(again.embedding, model.embedding);
    assert_eq!(again.w1, model.w1);
    assert_eq!(again.b1, model.b1);
    assert_eq!(again.w2, model.w2);
    assert_eq!(again.b2, model.b2);
}

#[test]
fn windows_write_text() {
    let (vocab, ids) = build_vocab(&strings(&["\n", "a", "b", "c"]), 10);
    let mut model = even_window_model();
    model.w2 = vec![F64(0.0); 20];
    model.b2 = vec![F64(0.0), F64(0.0), F64(1000.0), F64(0.0), F64(0.0)];
    let draws = [F64(0.5), F64(0.25)];
    assert_eq!(windowed::write_text(&model, &vocab, &ids, &draws), "a a");
    assert_eq!(windowed::write_text(&model, &vocab, &ids, &[]), "");
    // Whatever is drawn, there is nothing else to say.
    assert_eq!(windowed::generate(&model, &vocab, &ids, 3), "a a a");
}
