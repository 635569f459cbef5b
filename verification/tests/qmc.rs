use rbc::qmc::{cover, minimize, reduce as qmc_reduce, Imp, Tri};

#[test]
fn basic() {
    let m0 = Imp(vec![Tri::F, Tri::T, Tri::F, Tri::F]);
    let m1 = Imp(vec![Tri::T, Tri::T, Tri::F, Tri::F]);
    let m2 = Imp(vec![Tri::X, Tri::T, Tri::F, Tri::F]);
    let m3 = Imp(vec![Tri::X, Tri::F, Tri::F, Tri::F]);
    let m4 = Imp(vec![Tri::X, Tri::X, Tri::F, Tri::F]);
    assert_eq!(m0.merge(&m1), Some(m2.clone()));
    assert_eq!(m0.merge(&m2), None);
    assert_eq!(m2.merge(&m3), Some(m4.clone()));
    assert_eq!(m2.containes(&m0), true);
    assert_eq!(m2.containes(&m1), true);
    assert_eq!(m3.containes(&m2), false);
}

#[test]
fn reduce() {
    let m4 = Imp(vec![Tri::F, Tri::T, Tri::F, Tri::F]);
    let m8 = Imp(vec![Tri::T, Tri::F, Tri::F, Tri::F]);
    let m9 = Imp(vec![Tri::T, Tri::F, Tri::F, Tri::T]);
    let m10 = Imp(vec![Tri::T, Tri::F, Tri::T, Tri::F]);
    let m11 = Imp(vec![Tri::T, Tri::F, Tri::T, Tri::T]);
    let m12 = Imp(vec![Tri::T, Tri::T, Tri::F, Tri::F]);
    let m14 = Imp(vec![Tri::T, Tri::T, Tri::T, Tri::F]);
    let m15 = Imp(vec![Tri::T, Tri::T, Tri::T, Tri::T]);
    let mset = vec![m4, m8, m9, m10, m11, m12, m14, m15];
    println!("{:?}", qmc_reduce(&mset));
}

#[test]
fn merge_is_symmetric() {
    let a = Imp(vec![Tri::F, Tri::T]);
    let b = Imp(vec![Tri::T, Tri::T]);
    assert_eq!(a.merge(&b), b.merge(&a));
    assert_eq!(a.merge(&b), Some(Imp(vec![Tri::X, Tri::T])));
}

#[test]
fn merge_of_identical_is_identity() {
    let a = Imp(vec![Tri::X, Tri::T, Tri::F]);
    assert_eq!(a.merge(&a.clone()), Some(a.clone()));
}

#[test]
fn merge_refuses_two_differences() {
    let a = Imp(vec![Tri::F, Tri::F]);
    let b = Imp(vec![Tri::T, Tri::T]);
    assert_eq!(a.merge(&b), None);
}

#[test]
fn literals_counts_concrete_positions() {
    let a = Imp(vec![Tri::X, Tri::T, Tri::F, Tri::X]);
    assert_eq!(a.literals(), 2);
    let b = Imp(vec![Tri::X, Tri::X]);
    assert_eq!(b.literals(), 0);
}

#[test]
fn merge_fixpoint_generation_unchanged() {
    // two unmergeable implicants: one pass keeps both and produces no
    // new generation
    let a = Imp(vec![Tri::X, Tri::T, Tri::F]);
    let b = Imp(vec![Tri::T, Tri::X, Tri::T]);
    let g = vec![a.clone(), b.clone()];
    let (rem, next) = rbc::qmc::reduce_one(&g);
    assert_eq!(rem, vec![a, b]);
    assert_eq!(next, Vec::<Imp>::new());
}

#[test]
fn majority_reduces_to_three_primes() {
    // 3-input majority: on-set {3, 5, 6, 7}; the textbook result is
    // exactly three two-literal primes, all essential
    let r = minimize(&vec![3, 5, 6, 7], 3);
    assert_eq!(r.onset.len(), 4);
    assert_eq!(r.primes.len(), 3);
    assert_eq!(r.essentials, 3);
    assert_eq!(r.chosen.len(), 3);
    // canonical 4 * 3 literals against 3 * 2 in the cover
    assert_eq!(r.savings, 6);
    let p1 = Imp(vec![Tri::T, Tri::T, Tri::X]);
    let p2 = Imp(vec![Tri::T, Tri::X, Tri::T]);
    let p3 = Imp(vec![Tri::X, Tri::T, Tri::T]);
    for p in [&p1, &p2, &p3] {
        assert!(r.primes.iter().any(|q| *q == *p));
        assert!(r.chosen.iter().any(|q| *q == *p));
    }
}

#[test]
fn cover_prefers_essentials() {
    // one essential row covers the first column; the second column has
    // two covers, resolved by the fallback pick
    let c0 = Imp(vec![Tri::F, Tri::F]);
    let c1 = Imp(vec![Tri::T, Tri::T]);
    let r0 = Imp(vec![Tri::F, Tri::X]);
    let r1 = Imp(vec![Tri::T, Tri::X]);
    let r2 = Imp(vec![Tri::X, Tri::T]);
    let chosen = cover(&vec![c0, c1], &vec![r0.clone(), r1.clone(), r2.clone()]);
    assert!(chosen.iter().any(|q| *q == r0));
    assert!(chosen.iter().all(|q| *q != r2) || chosen.iter().all(|q| *q != r1));
}

#[test]
fn minimize_single_row() {
    let r = minimize(&vec![3], 2);
    assert_eq!(r.onset, vec![Imp(vec![Tri::T, Tri::T])]);
    assert_eq!(r.primes, vec![Imp(vec![Tri::T, Tri::T])]);
    assert_eq!(r.chosen, vec![Imp(vec![Tri::T, Tri::T])]);
    assert_eq!(r.essentials, 1);
    assert_eq!(r.savings, 0);
}

#[test]
fn essential_selection_ignores_column_order() {
    // the same columns in two scan orders select the same essential
    // primes
    let m3 = Imp(vec![Tri::T, Tri::T, Tri::F]);
    let m5 = Imp(vec![Tri::T, Tri::F, Tri::T]);
    let m6 = Imp(vec![Tri::F, Tri::T, Tri::T]);
    let m7 = Imp(vec![Tri::T, Tri::T, Tri::T]);
    let cols_a = vec![m3.clone(), m5.clone(), m6.clone(), m7.clone()];
    let cols_b = vec![m7, m6, m5, m3];
    let rows = qmc_reduce(&cols_a);
    let chosen_a = cover(&cols_a, &rows);
    let chosen_b = cover(&cols_b, &rows);
    assert_eq!(chosen_a.len(), chosen_b.len());
    for p in chosen_a.iter() {
        assert!(chosen_b.iter().any(|q| q == p));
    }
}
