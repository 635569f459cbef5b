use rbc::aag::{build, And, Lit};
use rbc::aig::{enumerate, AIG, Sym};
use rbc::qmc::{Imp, Tri};
use rbc::Error;

fn lit(var: usize, neg: bool) -> Lit {
    Lit { var, neg }
}

#[test]
fn literal_decoding() {
    let l = Lit::from(4);
    assert_eq!(l.var, 2);
    assert_eq!(l.neg, false);
    let l = Lit::from(5);
    assert_eq!(l.var, 2);
    assert_eq!(l.neg, true);
    let l = Lit::from(0);
    assert_eq!(l.var, 0);
    assert_eq!(l.neg, false);
}

#[test]
fn single_and_gate() {
    // two inputs x, y and one AND gate as the sole output
    let inputs = vec![1, 2];
    let gates = vec![And { lhs: lit(3, false), rhs0: lit(1, false), rhs1: lit(2, false) }];
    let outputs = vec![lit(3, false)];
    let outs = build(&inputs, &outputs, &gates).unwrap();
    assert_eq!(outs.len(), 1);
    assert_eq!(outs[0].syms(), 2);
    let (on, off) = enumerate(&outs[0], 2).unwrap();
    // on-set = {(true,true)}; off-set = the other three rows in
    // counting order
    assert_eq!(on, vec![Imp(vec![Tri::T, Tri::T])]);
    assert_eq!(
        off,
        vec![
            Imp(vec![Tri::F, Tri::F]),
            Imp(vec![Tri::T, Tri::F]),
            Imp(vec![Tri::F, Tri::T]),
        ],
    );
    // its reduction is the single essential prime, the whole cover,
    // with zero literal savings
    let r = rbc::qmc::minimize(&vec![3], 2);
    assert_eq!(r.primes, vec![Imp(vec![Tri::T, Tri::T])]);
    assert_eq!(r.chosen, vec![Imp(vec![Tri::T, Tri::T])]);
    assert_eq!(r.essentials, 1);
    assert_eq!(r.savings, 0);
}

#[test]
fn gates_resolve_out_of_order() {
    // a gate using var 3 is listed before var 3 is itself defined
    let inputs = vec![1, 2];
    let gates = vec![
        And { lhs: lit(4, false), rhs0: lit(3, false), rhs1: lit(1, false) },
        And { lhs: lit(3, false), rhs0: lit(1, false), rhs1: lit(2, false) },
    ];
    let outputs = vec![lit(4, false)];
    let outs = build(&inputs, &outputs, &gates).unwrap();
    let (on, _off) = enumerate(&outs[0], 2).unwrap();
    // (x & y) & x has the same on-set as x & y
    assert_eq!(on, vec![Imp(vec![Tri::T, Tri::T])]);
}

#[test]
fn negated_operands_and_output() {
    // NOT x via a negated output literal
    let inputs = vec![1];
    let gates = vec![];
    let outputs = vec![lit(1, true)];
    let outs = build(&inputs, &outputs, &gates).unwrap();
    let (on, off) = enumerate(&outs[0], 1).unwrap();
    assert_eq!(on, vec![Imp(vec![Tri::F])]);
    assert_eq!(off, vec![Imp(vec![Tri::T])]);
}

#[test]
fn undefined_operand_is_reported() {
    // a second operand identifier that is never defined anywhere:
    // resolution terminates and reports it unresolved
    let inputs = vec![1];
    let gates = vec![And { lhs: lit(3, false), rhs0: lit(1, false), rhs1: lit(9, false) }];
    let outputs = vec![lit(3, false)];
    match build(&inputs, &outputs, &gates) {
        Err(Error::Unresolved(ids)) => {
            assert!(ids.contains(&9));
            assert!(ids.contains(&3));
            assert!(!ids.contains(&1));
        },
        _ => panic!(),
    }
}

#[test]
fn cyclic_gates_are_reported() {
    let inputs = vec![1];
    let gates = vec![
        And { lhs: lit(2, false), rhs0: lit(3, false), rhs1: lit(1, false) },
        And { lhs: lit(3, false), rhs0: lit(2, false), rhs1: lit(1, false) },
    ];
    let outputs = vec![lit(2, false)];
    match build(&inputs, &outputs, &gates) {
        Err(Error::Unresolved(ids)) => {
            assert!(ids.contains(&2));
            assert!(ids.contains(&3));
        },
        _ => panic!(),
    }
}

#[test]
fn redefined_signal_is_reported() {
    let inputs = vec![1, 1];
    let gates = vec![];
    let outputs = vec![lit(1, false)];
    match build(&inputs, &outputs, &gates) {
        Err(Error::Redefined(v)) => assert_eq!(v, 1),
        _ => panic!(),
    }
}

#[test]
fn gate_order_gives_same_outputs() {
    // the same unordered gate list, resolved from two different orders,
    // gives structurally equal truth tables
    let inputs = vec![1, 2, 3];
    let g1 = And { lhs: lit(4, false), rhs0: lit(1, false), rhs1: lit(2, true) };
    let g2 = And { lhs: lit(5, false), rhs0: lit(4, false), rhs1: lit(3, false) };
    let outputs = vec![lit(5, false)];
    let outs_a = build(&inputs, &outputs, &vec![g1.clone(), g2.clone()]).unwrap();
    let outs_b = build(&inputs, &outputs, &vec![g2, g1]).unwrap();
    let (on_a, off_a) = enumerate(&outs_a[0], 3).unwrap();
    let (on_b, off_b) = enumerate(&outs_b[0], 3).unwrap();
    assert_eq!(on_a, on_b);
    assert_eq!(off_a, off_b);
}

#[test]
fn enumeration_bound_is_enforced() {
    let node = AIG::G(Sym(0));
    assert!(matches!(enumerate(&node, 25), Err(Error::TooManyInputs)));
    assert!(enumerate(&node, 1).is_ok());
}

#[test]
fn eval_and_neg() {
    let x = AIG::G(Sym(0));
    assert_eq!(x.eval(&[true]), true);
    assert_eq!(x.eval(&[false]), false);
    let nx = x.neg(true);
    assert_eq!(nx.eval(&[true]), false);
    let same = x.neg(false);
    assert_eq!(same.eval(&[true]), true);
    assert_eq!(nx.syms(), 1);
}

#[test]
fn on_and_off_sets_partition_the_assignment_space() {
    // every one of the 2^3 rows appears exactly once across the on-set
    // and the off-set
    let inputs = vec![1, 2, 3];
    let gates = vec![
        And { lhs: lit(4, false), rhs0: lit(1, false), rhs1: lit(2, false) },
        And { lhs: lit(5, false), rhs0: lit(4, true), rhs1: lit(3, false) },
    ];
    let outputs = vec![lit(5, false)];
    let outs = build(&inputs, &outputs, &gates).unwrap();
    let (on, off) = enumerate(&outs[0], 3).unwrap();
    assert_eq!(on.len() + off.len(), 8);
    let mut rows: Vec<Vec<Tri>> = Vec::new();
    for m in on.iter().chain(off.iter()) {
        assert!(!rows.contains(&m.0));
        rows.push(m.0.clone());
    }
    for t in 0..8usize {
        let mut want = Vec::new();
        for i in 0..3 {
            want.push(if (t >> i) & 1 == 1 { Tri::T } else { Tri::F });
        }
        assert!(rows.contains(&want));
    }
}
