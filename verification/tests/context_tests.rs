use crfsuite::context::Context;
use crfsuite::fixed::SCALE;

fn toy_context() -> Context {
    // three positions, two labels, scores in millionths of a unit
    let state = vec![
        vec![100_000i64, -50_000],
        vec![20_000, 30_000],
        vec![0, 10_000],
    ];
    let trans = vec![vec![5_000i64, -1_000], vec![2_000, 0]];
    Context::new(2, state, trans)
}

fn all_paths(t: usize, l: usize) -> Vec<Vec<usize>> {
    let mut out: Vec<Vec<usize>> = vec![vec![]];
    for _ in 0..t {
        let mut next = Vec::new();
        for p in &out {
            for y in 0..l {
                let mut q = p.clone();
                q.push(y);
                next.push(q);
            }
        }
        out = next;
    }
    out
}

#[test]
fn viterbi_matches_brute_force() {
    let ctx = toy_context();
    let (path, score) = ctx.viterbi();
    assert_eq!(path.len(), 3);
    let mut best = i64::MIN;
    for p in all_paths(3, 2) {
        let s = ctx.score_path(&p);
        if s > best {
            best = s;
        }
    }
    assert_eq!(score, best);
    assert_eq!(ctx.score_path(&path), best);
}

#[test]
fn viterbi_breaks_ties_toward_lowest_label() {
    // a flat lattice scores every path alike; the lowest ids must win
    let state = vec![vec![0i64, 0], vec![0, 0]];
    let trans = vec![vec![0i64, 0], vec![0, 0]];
    let ctx = Context::new(2, state, trans);
    let (path, score) = ctx.viterbi();
    assert_eq!(path, vec![0, 0]);
    assert_eq!(score, 0);
}

#[test]
fn sequence_probabilities_sum_to_one() {
    let mut ctx = toy_context();
    ctx.forward();
    let mut total: i64 = 0;
    for p in all_paths(3, 2) {
        let prob = ctx.sequence_probability(&p);
        assert!(0 <= prob && prob <= SCALE);
        total += prob;
    }
    // within fixed-point tolerance of one unit
    assert!((total - SCALE).abs() < 1_000, "total was {total}");
}

#[test]
fn probability_equals_exp_of_score_minus_log_partition() {
    let mut ctx = toy_context();
    ctx.forward();
    let gold = vec![0usize, 1, 1];
    let p = ctx.sequence_probability(&gold);
    let score = ctx.score_path(&gold);
    let logz = ctx.log_partition();
    let expected = (((score - logz) as f64) / 1e6).exp();
    let got = (p as f64) / 1e6;
    assert!((got - expected).abs() < 1e-4, "got {got}, expected {expected}");
    // cross-check against brute-force enumeration
    let mut z = 0.0f64;
    for q in all_paths(3, 2) {
        z += ((ctx.score_path(&q) as f64) / 1e6).exp();
    }
    let brute = ((score as f64 / 1e6).exp()) / z;
    assert!((got - brute).abs() < 1e-4, "got {got}, brute {brute}");
}

#[test]
fn empty_lattice_has_probability_one() {
    let mut ctx = Context::new(2, vec![], vec![vec![0i64, 0], vec![0, 0]]);
    ctx.forward();
    let (path, score) = ctx.viterbi();
    assert_eq!(path.len(), 0);
    assert_eq!(score, 0);
    assert_eq!(ctx.log_partition(), 0);
    let empty: Vec<usize> = vec![];
    assert_eq!(ctx.sequence_probability(&empty), SCALE);
}

#[test]
fn marginals_sum_to_one_at_each_position() {
    let mut ctx = toy_context();
    ctx.forward();
    ctx.backward();
    for t in 0..3 {
        let mut total: i64 = 0;
        for y in 0..2 {
            let m = ctx.marginal(t, y);
            assert!(0 <= m && m <= SCALE);
            total += m;
        }
        assert!((total - SCALE).abs() < 1_000, "position {t}: total was {total}");
    }
}

#[test]
fn marginal_matches_summed_path_probabilities() {
    let mut ctx = toy_context();
    ctx.forward();
    ctx.backward();
    // the marginal of (position 1, label 1) is the mass of all paths through it
    let mut summed: i64 = 0;
    for p in all_paths(3, 2) {
        if p[1] == 1 {
            summed += ctx.sequence_probability(&p);
        }
    }
    let m = ctx.marginal(1, 1);
    assert!((m - summed).abs() < 1_000, "marginal {m}, summed {summed}");
}
