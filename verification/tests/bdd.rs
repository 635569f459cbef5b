use rbc::bdd::{Leaf, Node, BDD};

#[test]
fn new() {
    let bdd = BDD::new(3, &[false, false, false, true, true, true, true, true]);
    println!("{:?}", &bdd);
    println!("{:?}", BDD::reduce(&BDD::reduce(&bdd)));
}

fn leaf_labels(b: &BDD, out: &mut Vec<bool>) {
    match b {
        BDD::L(Leaf { label }) => out.push(*label),
        BDD::N(Node { f, t }) => {
            leaf_labels(f, out);
            leaf_labels(t, out);
        },
    }
}

#[test]
fn leaves_read_the_table_back() {
    let table = [false, true, true, false];
    let bdd = BDD::new(2, &table);
    let mut out = Vec::new();
    leaf_labels(&bdd, &mut out);
    assert_eq!(out, table.to_vec());
}

#[test]
fn reduce_collapses_equal_branches() {
    let bdd = BDD::new(1, &[true, true]);
    let r = BDD::reduce(&bdd);
    assert!(matches!(*r, BDD::L(Leaf { label: true })));
    let bdd = BDD::new(1, &[false, true]);
    let r = BDD::reduce(&bdd);
    assert!(matches!(*r, BDD::N(_)));
}
