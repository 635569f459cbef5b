use rbc::aig::enumerate;
use rbc::expr::Expr;
use rbc::qmc::{Imp, Tri};

#[test]
fn xor_lowers_to_and_not_graph() {
    let e = Expr::Xor(Box::new(Expr::Term('A')), Box::new(Expr::Term('B')));
    let g = e.to_aig();
    assert_eq!(g.syms(), 2);
    let (on, off) = enumerate(&g, 2).unwrap();
    assert_eq!(on, vec![Imp(vec![Tri::T, Tri::F]), Imp(vec![Tri::F, Tri::T])]);
    assert_eq!(off, vec![Imp(vec![Tri::F, Tri::F]), Imp(vec![Tri::T, Tri::T])]);
}

#[test]
fn or_lowers_to_and_not_graph() {
    let e = Expr::Or(Box::new(Expr::Term('A')), Box::new(Expr::Term('B')));
    let g = e.to_aig();
    let (on, _off) = enumerate(&g, 2).unwrap();
    assert_eq!(
        on,
        vec![
            Imp(vec![Tri::T, Tri::F]),
            Imp(vec![Tri::F, Tri::T]),
            Imp(vec![Tri::T, Tri::T]),
        ],
    );
}

#[test]
fn nested_expression() {
    let a = || Box::new(Expr::Term('A'));
    let b = || Box::new(Expr::Term('B'));
    let e = Expr::Or(
        Box::new(Expr::And(a(), Box::new(Expr::Not(b())))),
        Box::new(Expr::Not(Box::new(Expr::And(a(), b())))),
    );
    let g = e.to_aig();
    let (on, off) = enumerate(&g, 2).unwrap();
    // (A & !B) | !(A & B) is false exactly where both A and B hold
    assert_eq!(off, vec![Imp(vec![Tri::T, Tri::T])]);
    assert_eq!(on.len(), 3);
}
