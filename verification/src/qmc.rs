//! Quine-McCluskey prime-implicant reduction: ternary implicant vectors,
//! pairwise consensus merging to a fixpoint, and an essential-first
//! set-covering pass.

use vstd::prelude::*;

verus! {

/// A ternary value inside an implicant: concrete false, concrete true, or
/// don't-care.
#[derive(Debug, PartialEq, Eq, Copy, Clone, Structural)]
pub enum Tri {
    /// false
    F,
    /// true
    T,
    /// don't care
    X,
}

/// An implicant: one ternary value per primary input. A vector with no
/// don't-care position is a single truth-table row; don't-care positions
/// arise from consensus merging.
#[derive(Debug)]
pub struct Imp(pub Vec<Tri>);

impl View for Imp {
    type V = Seq<Tri>;

    open spec fn view(&self) -> Seq<Tri> {
        self.0@
    }
}

impl Clone for Imp {
    fn clone(&self) -> (r: Self)
        ensures
            r@ == self@,
    {
        let mut v: Vec<Tri> = Vec::new();
        let mut i: usize = 0;
        while i < self.0.len()
            invariant
                i <= self.0.len(),
                v@ == self.0@.take(i as int),
            decreases self.0.len() - i,
        {
            v.push(self.0[i]);
            assert(v@ =~= self.0@.take(i as int + 1));
            i = i + 1;
        }
        assert(self.0@.take(self.0.len() as int) =~= self.0@);
        Imp(v)
    }
}

impl PartialEq for Imp {
    fn eq(&self, other: &Self) -> (r: bool) {
        if self.0.len() != other.0.len() {
            return false;
        }
        let mut i: usize = 0;
        while i < self.0.len()
            invariant
                i <= self.0.len(),
                self.0.len() == other.0.len(),
                forall|j: int| 0 <= j < i ==> self.0@[j] == other.0@[j],
            decreases self.0.len() - i,
        {
            if self.0[i] != other.0[i] {
                return false;
            }
            i = i + 1;
        }
        assert(self@ =~= other@);
        true
    }
}

impl vstd::std_specs::cmp::PartialEqSpecImpl for Imp {
    open spec fn obeys_eq_spec() -> bool {
        true
    }

    open spec fn eq_spec(&self, other: &Self) -> bool {
        self@ == other@
    }
}

/// Implicant `a` covers implicant `b`: every position of `a` is either
/// don't-care or equal to `b`'s corresponding position. A partial order,
/// not symmetric.
pub open spec fn covers(a: Seq<Tri>, b: Seq<Tri>) -> bool {
    &&& a.len() == b.len()
    &&& forall|i: int| 0 <= i < a.len() ==> (a[i] is X || a[i] == #[trigger] b[i])
}

/// A concrete implicant: one truth-table row, no don't-care position.
pub open spec fn concrete(s: Seq<Tri>) -> bool {
    forall|i: int| 0 <= i < s.len() ==> !(#[trigger] s[i] is X)
}

/// Two positions hold opposite concrete values.
pub open spec fn opposite(x: Tri, y: Tri) -> bool {
    (x is T && y is F) || (x is F && y is T)
}

/// Position `i` is a legal consensus point of `a` and `b`: the two vectors
/// hold opposite concrete values there and agree (don't-care included)
/// everywhere else.
pub open spec fn merge_pos_ok(a: Seq<Tri>, b: Seq<Tri>, i: int) -> bool {
    &&& 0 <= i < a.len()
    &&& opposite(a[i], b[i])
    &&& forall|j: int| 0 <= j < a.len() && j != i ==> a[j] == #[trigger] b[j]
}

/// `a` and `b` merge: equal width, and exactly one differing position,
/// which holds opposite concrete values.
pub open spec fn can_merge(a: Seq<Tri>, b: Seq<Tri>) -> bool {
    &&& a.len() == b.len()
    &&& exists|i: int| #[trigger] merge_pos_ok(a, b, i)
}

/// The consensus point of two mergeable implicants.
pub open spec fn merge_pos(a: Seq<Tri>, b: Seq<Tri>) -> int {
    choose|i: int| merge_pos_ok(a, b, i)
}

/// The merge of two mergeable implicants: all agreeing positions kept, the
/// differing position marked don't-care.
pub open spec fn merge_result(a: Seq<Tri>, b: Seq<Tri>) -> Seq<Tri> {
    a.update(merge_pos(a, b), Tri::X)
}

/// The consensus point is unique: away from it the vectors agree, so no
/// second position can hold opposite values.
pub proof fn lemma_merge_pos_unique(a: Seq<Tri>, b: Seq<Tri>, i: int, j: int)
    requires
        merge_pos_ok(a, b, i),
        merge_pos_ok(a, b, j),
    ensures
        i == j,
{
    if i != j {
        assert(a[j] == b[j]);
        assert(opposite(a[j], b[j]));
    }
}

/// Merging is symmetric: the same consensus point works both ways and the
/// merged vector is the same.
pub proof fn lemma_merge_symmetric(a: Seq<Tri>, b: Seq<Tri>)
    requires
        can_merge(a, b),
    ensures
        can_merge(b, a),
        merge_result(b, a) == merge_result(a, b),
{
    let i = choose|i: int| merge_pos_ok(a, b, i);
    assert(merge_pos_ok(b, a, i));
    let ia = merge_pos(a, b);
    let ib = merge_pos(b, a);
    lemma_merge_pos_unique(a, b, i, ia);
    lemma_merge_pos_unique(b, a, i, ib);
    assert(merge_result(b, a) =~= merge_result(a, b));
}

/// The merge of two implicants covers both of them.
pub proof fn lemma_merge_covers(a: Seq<Tri>, b: Seq<Tri>)
    requires
        can_merge(a, b),
    ensures
        covers(merge_result(a, b), a),
        covers(merge_result(a, b), b),
{
    let i = merge_pos(a, b);
    assert(merge_pos_ok(a, b, i));
}

/// Whatever concrete row the merge of two implicants covers, one of the
/// two already covered.
pub proof fn lemma_merge_split(a: Seq<Tri>, b: Seq<Tri>, x: Seq<Tri>)
    requires
        can_merge(a, b),
        covers(merge_result(a, b), x),
        concrete(x),
    ensures
        covers(a, x) || covers(b, x),
{
    let i = merge_pos(a, b);
    assert(merge_pos_ok(a, b, i));
    let m = merge_result(a, b);
    if a[i] is X || a[i] == x[i] {
        assert forall|j: int| 0 <= j < a.len() implies (a[j] is X || a[j] == x[j]) by {
            if j != i {
                assert(m[j] == a[j]);
                assert(m[j] is X || m[j] == x[j]);
            }
        }
        assert(covers(a, x));
    } else {
        assert(opposite(a[i], b[i]));
        assert(b[i] == x[i]) by {
            assert(!(x[i] is X));
            assert(a[i] is T || a[i] is F);
        }
        assert forall|j: int| 0 <= j < b.len() implies (b[j] is X || b[j] == x[j]) by {
            if j != i {
                assert(m[j] == a[j] && a[j] == b[j]);
                assert(m[j] is X || m[j] == x[j]);
            }
        }
        assert(covers(b, x));
    }
}

/// Covering is reflexive.
pub proof fn lemma_covers_refl(a: Seq<Tri>)
    ensures
        covers(a, a),
{
}

/// Covering is transitive.
pub proof fn lemma_covers_trans(a: Seq<Tri>, b: Seq<Tri>, c: Seq<Tri>)
    requires
        covers(a, b),
        covers(b, c),
    ensures
        covers(a, c),
{
    assert forall|i: int| 0 <= i < a.len() implies (a[i] is X || a[i] == c[i]) by {
        assert(b[i] is X || b[i] == c[i]);
    }
}

impl Imp {
    /// Whether this implicant covers `other` (per the covering relation:
    /// don't-care positions of `self` match anything).
    pub fn containes(&self, other: &Self) -> (r: bool)
        requires
            self@.len() == other@.len(),
        ensures
            r == covers(self@, other@),
    {
        let mut i: usize = 0;
        while i < self.0.len()
            invariant
                i <= self.0.len(),
                self@.len() == other@.len(),
                forall|j: int| 0 <= j < i ==> (self@[j] is X || self@[j] == other@[j]),
            decreases self.0.len() - i,
        {
            match (self.0[i], other.0[i]) {
                (Tri::T, Tri::T) | (Tri::F, Tri::F) => {},
                (Tri::X, _) => {},
                (_, _) => {
                    return false;
                },
            }
            i = i + 1;
        }
        true
    }

    /// Consensus-merge this implicant with `other`: succeeds when the two
    /// vectors agree everywhere (returning the common vector) or differ in
    /// exactly one position with opposite concrete values (returning the
    /// agreeing positions with the differing one marked don't-care).
    pub fn merge(&self, other: &Self) -> (r: Option<Self>)
        requires
            self@.len() == other@.len(),
        ensures
            self@ == other@ ==> (r matches Some(m) && m@ == self@),
            can_merge(self@, other@) ==> (r matches Some(m) && m@ == merge_result(self@, other@)),
            r is Some ==> (self@ == other@ || can_merge(self@, other@)),
    {
        let ghost a = self@;
        let ghost b = other@;
        let mut merged = false;
        let ghost mut pos: int = 0;
        let mut result: Vec<Tri> = Vec::new();
        let mut i: usize = 0;
        while i < self.0.len()
            invariant
                i <= self.0.len(),
                a == self@,
                b == other@,
                a.len() == b.len(),
                result@.len() == i as int,
                !merged ==> forall|j: int| 0 <= j < i ==> a[j] == #[trigger] b[j],
                !merged ==> forall|j: int| 0 <= j < i ==> result@[j] == a[j],
                merged ==> 0 <= pos < i,
                merged ==> opposite(a[pos], b[pos]),
                merged ==> forall|j: int| 0 <= j < i && j != pos ==> a[j] == #[trigger] b[j],
                merged ==> result@[pos] is X,
                merged ==> forall|j: int| 0 <= j < i && j != pos ==> result@[j] == a[j],
            decreases self.0.len() - i,
        {
            match (self.0[i], other.0[i]) {
                (Tri::F, Tri::T) | (Tri::T, Tri::F) => {
                    if merged {
                        // a second consensus point: no legal merge
                        proof {
                            assert(a[i as int] != b[i as int]);
                            if can_merge(a, b) {
                                let k = choose|k: int| merge_pos_ok(a, b, k);
                                if k != pos {
                                    assert(a[pos] == b[pos]);
                                } else {
                                    assert(a[i as int] == b[i as int]);
                                }
                            }
                        }
                        return None;
                    } else {
                        result.push(Tri::X);
                        merged = true;
                        proof {
                            pos = i as int;
                        }
                    }
                },
                (Tri::F, Tri::F) | (Tri::T, Tri::T) | (Tri::X, Tri::X) => {
                    result.push(self.0[i]);
                },
                (_, Tri::X) | (Tri::X, _) => {
                    // don't-care against a concrete value: no legal merge
                    proof {
                        assert(a[i as int] != b[i as int]);
                        if can_merge(a, b) {
                            let k = choose|k: int| merge_pos_ok(a, b, k);
                            if k != i as int {
                                assert(a[i as int] == b[i as int]);
                            } else {
                                assert(opposite(a[k], b[k]));
                            }
                        }
                    }
                    return None;
                },
            }
            i = i + 1;
        }
        if merged {
            proof {
                assert(merge_pos_ok(a, b, pos));
                lemma_merge_pos_unique(a, b, pos, merge_pos(a, b));
                assert(result@ =~= merge_result(a, b));
            }
        } else {
            assert(a =~= b);
            assert(result@ =~= a);
        }
        Some(Imp(result))
    }
}

/// The set of implicant vectors held by a vector of implicants.
pub open spec fn imp_set(v: Seq<Imp>) -> Set<Seq<Tri>> {
    Set::new(|s: Seq<Tri>| exists|k: int| #![auto] 0 <= k < v.len() && v[k]@ == s)
}

/// No two entries hold the same vector: the vector of implicants stands
/// for the set of its entries.
pub open spec fn distinct_imps(v: Seq<Imp>) -> bool {
    forall|i: int, j: int| #![auto] 0 <= i < j < v.len() ==> v[i]@ != v[j]@
}

/// Every entry has width `n`.
pub open spec fn uniform_w(v: Seq<Imp>, n: nat) -> bool {
    forall|i: int| 0 <= i < v.len() ==> (#[trigger] v[i]@).len() == n
}

/// Some other member of the generation merges with `a`.
pub open spec fn has_partner(g: Set<Seq<Tri>>, a: Seq<Tri>) -> bool {
    exists|b: Seq<Tri>| #[trigger] g.contains(b) && b != a && can_merge(a, b)
}

/// The members of a generation that merged with nobody: they are retained
/// as discovered prime implicants.
pub open spec fn kept_of(g: Set<Seq<Tri>>) -> Set<Seq<Tri>> {
    Set::new(|a: Seq<Tri>| g.contains(a) && !has_partner(g, a))
}

/// All successful pairwise merges of a generation, deduplicated: the next
/// generation.
pub open spec fn merges_of(g: Set<Seq<Tri>>) -> Set<Seq<Tri>> {
    Set::new(
        |s: Seq<Tri>|
            exists|a: Seq<Tri>, b: Seq<Tri>|
                #![auto]
                g.contains(a) && g.contains(b) && a != b && can_merge(a, b) && s == merge_result(
                    a,
                    b,
                ),
    )
}

/// Whether some entry of `v` holds the vector of `x`.
fn contains_imp(v: &Vec<Imp>, x: &Imp) -> (r: bool)
    ensures
        r == imp_set(v@).contains(x@),
{
    let mut i: usize = 0;
    while i < v.len()
        invariant
            i <= v@.len(),
            forall|k: int| #![auto] 0 <= k < i ==> v@[k]@ != x@,
        decreases v@.len() - i,
    {
        if v[i] == *x {
            return true;
        }
        i = i + 1;
    }
    false
}

/// Whether entry `i` merges with some other entry.
fn row_has_partner(minterms: &Vec<Imp>, i: usize) -> (r: bool)
    requires
        i < minterms@.len(),
        distinct_imps(minterms@),
        forall|k: int, l: int|
            #![auto]
            0 <= k < minterms@.len() && 0 <= l < minterms@.len() ==> minterms@[k]@.len()
                == minterms@[l]@.len(),
    ensures
        r == has_partner(imp_set(minterms@), minterms@[i as int]@),
{
    let ghost s = imp_set(minterms@);
    let ghost a = minterms@[i as int]@;
    let mut j: usize = 0;
    while j < minterms.len()
        invariant
            j <= minterms@.len(),
            i < minterms@.len(),
            distinct_imps(minterms@),
            s == imp_set(minterms@),
            a == minterms@[i as int]@,
            forall|k: int|
                #![auto]
                0 <= k < j && k != i ==> !can_merge(a, minterms@[k]@),
            forall|k: int, l: int|
                #![auto]
                0 <= k < minterms@.len() && 0 <= l < minterms@.len() ==> minterms@[k]@.len()
                    == minterms@[l]@.len(),
        decreases minterms@.len() - j,
    {
        if j != i {
            let m = minterms[i].merge(&minterms[j]);
            if m.is_some() {
                proof {
                    assert(minterms@[i as int]@ != minterms@[j as int]@);
                    assert(can_merge(a, minterms@[j as int]@));
                    assert(s.contains(minterms@[j as int]@));
                }
                return true;
            }
        }
        j = j + 1;
    }
    proof {
        if has_partner(s, a) {
            let b = choose|b: Seq<Tri>| s.contains(b) && b != a && can_merge(a, b);
            let k = choose|k: int| 0 <= k < minterms@.len() && minterms@[k]@ == b;
            assert(k != i);
            assert(!can_merge(a, minterms@[k]@));
        }
    }
    false
}


/// Pushing an implicant onto a vector inserts its vector into the held
/// set.
proof fn lemma_imp_set_push(v: Seq<Imp>, x: Imp)
    ensures
        imp_set(v.push(x)) == imp_set(v).insert(x@),
{
    assert forall|s: Seq<Tri>| imp_set(v.push(x)).contains(s) implies imp_set(v).insert(
        x@,
    ).contains(s) by {
        let k = choose|k: int| #![auto] 0 <= k < v.push(x).len() && v.push(x)[k]@ == s;
        if k < v.len() {
            assert(v[k]@ == s);
            assert(imp_set(v).contains(s));
        } else {
            assert(s == x@);
        }
    }
    assert forall|s: Seq<Tri>| imp_set(v).insert(x@).contains(s) implies imp_set(
        v.push(x),
    ).contains(s) by {
        if s == x@ {
            assert(v.push(x)[v.len() as int]@ == s);
        } else {
            let k = choose|k: int| #![auto] 0 <= k < v.len() && v[k]@ == s;
            assert(v.push(x)[k]@ == s);
        }
    }
    assert(imp_set(v.push(x)) =~= imp_set(v).insert(x@));
}

/// An entry of the vector is in the held set.
proof fn lemma_imp_set_index(v: Seq<Imp>, t: int)
    requires
        0 <= t < v.len(),
    ensures
        imp_set(v).contains(v[t]@),
{
    assert(0 <= t < v.len() && v[t]@ == v[t]@);
}

/// Pushing a vector not yet held keeps entries distinct.
proof fn lemma_distinct_push(v: Seq<Imp>, x: Imp)
    requires
        distinct_imps(v),
        !imp_set(v).contains(x@),
    ensures
        distinct_imps(v.push(x)),
{
    assert forall|i: int, j: int| 0 <= i < j < v.push(x).len() implies v.push(x)[i]@ != v.push(
        x,
    )[j]@ by {
        if j == v.len() {
            lemma_imp_set_index(v, i);
        }
    }
}

/// The retained entries discovered by the first `i` rows of a pass.
spec fn kept_upto(v: Seq<Imp>, i: int) -> Set<Seq<Tri>> {
    Set::new(
        |x: Seq<Tri>|
            exists|k: int|
                #![auto]
                0 <= k < i && v[k]@ == x && !has_partner(imp_set(v), x),
    )
}

/// The merge results discovered by the pairs up to row `ii`, column `j`.
spec fn merges_upto(v: Seq<Imp>, ii: int, j: int) -> Set<Seq<Tri>> {
    Set::new(
        |x: Seq<Tri>|
            exists|ia: int, jb: int|
                #![auto]
                0 <= ia < v.len() && 0 <= jb < v.len() && ia != jb && (ia < ii || (ia == ii && jb
                    < j)) && can_merge(v[ia]@, v[jb]@) && x == merge_result(v[ia]@, v[jb]@),
    )
}

/// One generation of the consensus pass: compare every unordered pair of
/// distinct implicants; entries that merged with nobody are retained (the
/// first component), and the deduplicated merge results form the next
/// generation (the second component).
pub fn reduce_one(minterms: &Vec<Imp>) -> (r: (Vec<Imp>, Vec<Imp>))
    requires
        distinct_imps(minterms@),
        forall|k: int, l: int|
            #![auto]
            0 <= k < minterms@.len() && 0 <= l < minterms@.len() ==> minterms@[k]@.len()
                == minterms@[l]@.len(),
    ensures
        imp_set(r.0@) == kept_of(imp_set(minterms@)),
        imp_set(r.1@) == merges_of(imp_set(minterms@)),
        distinct_imps(r.0@),
        distinct_imps(r.1@),
        forall|n: nat| #[trigger] uniform_w(minterms@, n) ==> uniform_w(r.0@, n),
        forall|n: nat| #[trigger] uniform_w(minterms@, n) ==> uniform_w(r.1@, n),
{
    let ghost s = imp_set(minterms@);
    let n = minterms.len();
    let mut rem: Vec<Imp> = Vec::new();
    let mut i: usize = 0;
    while i < n
        invariant
            i <= n,
            n == minterms@.len(),
            s == imp_set(minterms@),
            distinct_imps(minterms@),
            forall|k: int, l: int|
                #![auto]
                0 <= k < minterms@.len() && 0 <= l < minterms@.len() ==> minterms@[k]@.len()
                    == minterms@[l]@.len(),
            imp_set(rem@) == kept_upto(minterms@, i as int),
            distinct_imps(rem@),
        decreases n - i,
    {
        let ghost rem0 = rem@;
        let ghost a = minterms@[i as int]@;
        if !row_has_partner(minterms, i) {
            proof {
                if imp_set(rem0).contains(a) {
                    let k = choose|k: int|
                        #![auto]
                        0 <= k < i && minterms@[k]@ == a && !has_partner(s, a);
                    assert(minterms@[k]@ != minterms@[i as int]@);
                }
            }
            let c = minterms[i].clone();
            rem.push(c);
            proof {
                lemma_imp_set_push(rem0, c);
                lemma_distinct_push(rem0, c);
                assert(kept_upto(minterms@, i as int + 1) =~= kept_upto(minterms@, i as int).insert(
                    a,
                )) by {
                    assert forall|x: Seq<Tri>|
                        kept_upto(minterms@, i as int + 1).contains(x) implies kept_upto(
                        minterms@,
                        i as int,
                    ).insert(a).contains(x) by {
                        let k = choose|k: int|
                            #![auto]
                            0 <= k < i as int + 1 && minterms@[k]@ == x && !has_partner(s, x);
                        if k < i as int {
                            assert(kept_upto(minterms@, i as int).contains(x));
                        } else {
                            assert(x == a);
                        }
                    }
                    assert forall|x: Seq<Tri>|
                        kept_upto(minterms@, i as int).insert(a).contains(x) implies kept_upto(
                        minterms@,
                        i as int + 1,
                    ).contains(x) by {
                        if x == a {
                            let ki = i as int;
                            assert(0 <= ki && ki < ki + 1 && minterms@[ki]@ == x && !has_partner(
                                s,
                                x,
                            ));
                        } else {
                            let k = choose|k: int|
                                #![auto]
                                0 <= k < i as int && minterms@[k]@ == x && !has_partner(s, x);
                            assert(0 <= k < i as int + 1 && minterms@[k]@ == x);
                        }
                    }
                }
            }
        } else {
            proof {
                assert(kept_upto(minterms@, i as int + 1) =~= kept_upto(minterms@, i as int)) by {
                    assert forall|x: Seq<Tri>|
                        kept_upto(minterms@, i as int + 1).contains(x) implies kept_upto(
                        minterms@,
                        i as int,
                    ).contains(x) by {
                        let k = choose|k: int|
                            #![auto]
                            0 <= k < i as int + 1 && minterms@[k]@ == x && !has_partner(s, x);
                        assert(k != i as int);
                    }
                    assert forall|x: Seq<Tri>|
                        kept_upto(minterms@, i as int).contains(x) implies kept_upto(
                        minterms@,
                        i as int + 1,
                    ).contains(x) by {
                        let k = choose|k: int|
                            #![auto]
                            0 <= k < i as int && minterms@[k]@ == x && !has_partner(s, x);
                        assert(0 <= k < i as int + 1 && minterms@[k]@ == x);
                    }
                }
            }
        }
        i = i + 1;
    }
    proof {
        assert(kept_upto(minterms@, n as int) =~= kept_of(s)) by {
            assert forall|x: Seq<Tri>| kept_upto(minterms@, n as int).contains(x) implies kept_of(
                s,
            ).contains(x) by {
                let k = choose|k: int|
                    #![auto]
                    0 <= k < n as int && minterms@[k]@ == x && !has_partner(s, x);
                lemma_imp_set_index(minterms@, k);
            }
            assert forall|x: Seq<Tri>| kept_of(s).contains(x) implies kept_upto(
                minterms@,
                n as int,
            ).contains(x) by {
                let k = choose|k: int| #![auto] 0 <= k < minterms@.len() && minterms@[k]@ == x;
                assert(0 <= k < n as int && minterms@[k]@ == x && !has_partner(s, x));
            }
        }
    }
    let mut next: Vec<Imp> = Vec::new();
    let mut ii: usize = 0;
    while ii < n
        invariant
            ii <= n,
            n == minterms@.len(),
            s == imp_set(minterms@),
            distinct_imps(minterms@),
            forall|k: int, l: int|
                #![auto]
                0 <= k < minterms@.len() && 0 <= l < minterms@.len() ==> minterms@[k]@.len()
                    == minterms@[l]@.len(),
            imp_set(next@) == merges_upto(minterms@, ii as int, 0),
            distinct_imps(next@),
        decreases n - ii,
    {
        let mut j: usize = 0;
        while j < n
            invariant
                ii < n,
                j <= n,
                n == minterms@.len(),
                s == imp_set(minterms@),
                distinct_imps(minterms@),
                forall|k: int, l: int|
                    #![auto]
                    0 <= k < minterms@.len() && 0 <= l < minterms@.len() ==> minterms@[k]@.len()
                        == minterms@[l]@.len(),
                imp_set(next@) == merges_upto(minterms@, ii as int, j as int),
                distinct_imps(next@),
            decreases n - j,
        {
            let ghost next0 = next@;
            let mut grown = false;
            let ghost mut added: Seq<Tri> = Seq::empty();
            if j != ii {
                if let Some(v) = minterms[ii].merge(&minterms[j]) {
                    proof {
                        assert(minterms@[ii as int]@ != minterms@[j as int]@);
                        assert(can_merge(minterms@[ii as int]@, minterms@[j as int]@));
                    }
                    if !contains_imp(&next, &v) {
                        proof {
                            added = v@;
                        }
                        next.push(v);
                        grown = true;
                        proof {
                            lemma_imp_set_push(next0, next@[next@.len() - 1]);
                            lemma_distinct_push(next0, next@[next@.len() - 1]);
                        }
                    }
                }
            }
            proof {
                let m0 = merges_upto(minterms@, ii as int, j as int);
                let m1 = merges_upto(minterms@, ii as int, j as int + 1);
                let av = minterms@[ii as int]@;
                let bv = minterms@[j as int]@;
                assert forall|x: Seq<Tri>| m1.contains(x) implies imp_set(next@).contains(x) by {
                    let (ia, jb) = choose|ia: int, jb: int|
                        #![auto]
                        0 <= ia < minterms@.len() && 0 <= jb < minterms@.len() && ia != jb && (ia
                            < ii as int || (ia == ii as int && jb < j as int + 1)) && can_merge(
                            minterms@[ia]@,
                            minterms@[jb]@,
                        ) && x == merge_result(minterms@[ia]@, minterms@[jb]@);
                    if ia == ii as int && jb == j as int {
                        assert(j != ii);
                        assert(x == merge_result(av, bv));
                        if grown {
                            assert(imp_set(next@).contains(x));
                        } else {
                            assert(imp_set(next0).contains(x));
                        }
                    } else {
                        assert(m0.contains(x));
                        assert(imp_set(next0).contains(x));
                        if grown {
                            assert(imp_set(next@) == imp_set(next0).insert(added));
                        }
                    }
                }
                assert forall|x: Seq<Tri>| imp_set(next@).contains(x) implies m1.contains(x) by {
                    if grown && x == added {
                        let pi = ii as int;
                        let pj = j as int;
                        assert(0 <= pi && pi < minterms@.len() && 0 <= pj && pj < minterms@.len()
                            && pi != pj && can_merge(av, bv) && x == merge_result(av, bv));
                    } else {
                        assert(imp_set(next0).contains(x));
                        assert(m0.contains(x));
                        let (ia, jb) = choose|ia: int, jb: int|
                            #![auto]
                            0 <= ia < minterms@.len() && 0 <= jb < minterms@.len() && ia != jb && (
                            ia < ii as int || (ia == ii as int && jb < j as int)) && can_merge(
                                minterms@[ia]@,
                                minterms@[jb]@,
                            ) && x == merge_result(minterms@[ia]@, minterms@[jb]@);
                        assert(ia < ii as int || (ia == ii as int && jb < j as int + 1));
                    }
                }
                assert(imp_set(next@) =~= m1);
            }
            j = j + 1;
        }
        proof {
            assert(merges_upto(minterms@, ii as int, n as int) =~= merges_upto(
                minterms@,
                ii as int + 1,
                0,
            )) by {
                assert forall|x: Seq<Tri>|
                    merges_upto(minterms@, ii as int, n as int).contains(x) implies merges_upto(
                    minterms@,
                    ii as int + 1,
                    0,
                ).contains(x) by {
                    let (ia, jb) = choose|ia: int, jb: int|
                        #![auto]
                        0 <= ia < minterms@.len() && 0 <= jb < minterms@.len() && ia != jb && (ia
                            < ii as int || (ia == ii as int && jb < n as int)) && can_merge(
                            minterms@[ia]@,
                            minterms@[jb]@,
                        ) && x == merge_result(minterms@[ia]@, minterms@[jb]@);
                    assert(ia < ii as int + 1);
                }
                assert forall|x: Seq<Tri>|
                    merges_upto(minterms@, ii as int + 1, 0).contains(x) implies merges_upto(
                    minterms@,
                    ii as int,
                    n as int,
                ).contains(x) by {
                    let (ia, jb) = choose|ia: int, jb: int|
                        #![auto]
                        0 <= ia < minterms@.len() && 0 <= jb < minterms@.len() && ia != jb && (ia
                            < ii as int + 1) && can_merge(minterms@[ia]@, minterms@[jb]@) && x
                            == merge_result(minterms@[ia]@, minterms@[jb]@);
                    assert(ia < ii as int || (ia == ii as int && jb < n as int));
                }
            }
        }
        ii = ii + 1;
    }
    proof {
        assert(merges_upto(minterms@, n as int, 0) =~= merges_of(s)) by {
            assert forall|x: Seq<Tri>|
                merges_upto(minterms@, n as int, 0).contains(x) implies merges_of(s).contains(
                x,
            ) by {
                let (ia, jb) = choose|ia: int, jb: int|
                    #![auto]
                    0 <= ia < minterms@.len() && 0 <= jb < minterms@.len() && ia != jb && ia
                        < n as int && can_merge(minterms@[ia]@, minterms@[jb]@) && x
                        == merge_result(minterms@[ia]@, minterms@[jb]@);
                lemma_imp_set_index(minterms@, ia);
                lemma_imp_set_index(minterms@, jb);
            }
            assert forall|x: Seq<Tri>| merges_of(s).contains(x) implies merges_upto(
                minterms@,
                n as int,
                0,
            ).contains(x) by {
                let (av, bv) = choose|av: Seq<Tri>, bv: Seq<Tri>|
                    #![auto]
                    s.contains(av) && s.contains(bv) && av != bv && can_merge(av, bv) && x
                        == merge_result(av, bv);
                let ka = choose|k: int| #![auto] 0 <= k < minterms@.len() && minterms@[k]@ == av;
                let kb = choose|k: int| #![auto] 0 <= k < minterms@.len() && minterms@[k]@ == bv;
                assert(ka != kb);
                assert(0 <= ka < minterms@.len() && 0 <= kb < minterms@.len() && ka != kb && ka
                    < n && can_merge(minterms@[ka]@, minterms@[kb]@) && x == merge_result(
                    minterms@[ka]@,
                    minterms@[kb]@,
                ));
            }
        }
        assert forall|nn: nat| uniform_w(minterms@, nn) implies uniform_w(rem@, nn) by {
            assert forall|t: int| 0 <= t < rem@.len() implies (#[trigger] rem@[t]@).len() == nn by {
                lemma_imp_set_index(rem@, t);
                assert(kept_of(s).contains(rem@[t]@));
                let k = choose|k: int| #![auto] 0 <= k < minterms@.len() && minterms@[k]@ == rem@[t]@;
                assert(minterms@[k]@.len() == nn);
            }
        }
        assert forall|nn: nat| uniform_w(minterms@, nn) implies uniform_w(next@, nn) by {
            assert forall|t: int| 0 <= t < next@.len() implies (#[trigger] next@[t]@).len()
                == nn by {
                lemma_imp_set_index(next@, t);
                assert(merges_of(s).contains(next@[t]@));
                let (av, bv) = choose|av: Seq<Tri>, bv: Seq<Tri>|
                    #![auto]
                    s.contains(av) && s.contains(bv) && av != bv && can_merge(av, bv) && next@[t]@
                        == merge_result(av, bv);
                let ka = choose|k: int| #![auto] 0 <= k < minterms@.len() && minterms@[k]@ == av;
                assert(minterms@[ka]@.len() == nn);
                assert(merge_result(av, bv).len() == av.len());
            }
        }
    }
    (rem, next)
}


/// The number of don't-care positions of an implicant.
pub open spec fn count_x(s: Seq<Tri>) -> nat
    decreases s.len(),
{
    if s.len() == 0 {
        0
    } else {
        count_x(s.drop_last()) + if s.last() is X {
            1nat
        } else {
            0nat
        }
    }
}

/// No more don't-cares than positions.
proof fn lemma_count_x_le_len(s: Seq<Tri>)
    ensures
        count_x(s) <= s.len(),
    decreases s.len(),
{
    if s.len() > 0 {
        lemma_count_x_le_len(s.drop_last());
    }
}

/// Vectors with don't-cares at the same positions have the same count.
proof fn lemma_count_x_same_positions(a: Seq<Tri>, b: Seq<Tri>)
    requires
        a.len() == b.len(),
        forall|i: int| 0 <= i < a.len() ==> ((#[trigger] a[i]) is X <==> b[i] is X),
    ensures
        count_x(a) == count_x(b),
    decreases a.len(),
{
    if a.len() > 0 {
        assert(forall|i: int|
            0 <= i < a.len() - 1 ==> ((#[trigger] a.drop_last()[i]) is X <==> b.drop_last()[i] is X));
        lemma_count_x_same_positions(a.drop_last(), b.drop_last());
        assert(a[a.len() - 1] is X <==> b[a.len() - 1] is X);
    }
}

/// Marking a concrete position don't-care raises the count by one.
proof fn lemma_count_x_update(s: Seq<Tri>, i: int)
    requires
        0 <= i < s.len(),
        !(s[i] is X),
    ensures
        count_x(s.update(i, Tri::X)) == count_x(s) + 1,
    decreases s.len(),
{
    let u = s.update(i, Tri::X);
    if i == s.len() - 1 {
        assert(u.drop_last() =~= s.drop_last());
        assert(u.last() is X);
    } else {
        lemma_count_x_update(s.drop_last(), i);
        assert(u.drop_last() =~= s.drop_last().update(i, Tri::X));
        assert(u.last() == s.last());
    }
}

/// A concrete vector has no don't-care position.
proof fn lemma_concrete_count(s: Seq<Tri>)
    requires
        concrete(s),
    ensures
        count_x(s) == 0,
    decreases s.len(),
{
    if s.len() > 0 {
        assert(concrete(s.drop_last()));
        lemma_concrete_count(s.drop_last());
        assert(!(s[s.len() - 1] is X));
    }
}

/// Mergeable implicants have equally many don't-cares, and their merge has
/// one more.
pub proof fn lemma_merge_count(a: Seq<Tri>, b: Seq<Tri>)
    requires
        can_merge(a, b),
    ensures
        count_x(a) == count_x(b),
        count_x(merge_result(a, b)) == count_x(a) + 1,
{
    let i = merge_pos(a, b);
    assert(merge_pos_ok(a, b, i));
    assert forall|j: int| 0 <= j < a.len() implies ((#[trigger] a[j]) is X <==> b[j] is X) by {
        if j != i {
            assert(a[j] == b[j]);
        }
    }
    lemma_count_x_same_positions(a, b);
    lemma_count_x_update(a, i);
}

/// A copy of a vector of implicants, holding the same vectors in the same
/// order.
fn clone_imps(v: &Vec<Imp>) -> (r: Vec<Imp>)
    ensures
        r@.len() == v@.len(),
        forall|t: int| 0 <= t < v@.len() ==> (#[trigger] r@[t]@) == v@[t]@,
        imp_set(r@) == imp_set(v@),
{
    let mut r: Vec<Imp> = Vec::new();
    let mut i: usize = 0;
    while i < v.len()
        invariant
            i <= v@.len(),
            r@.len() == i as int,
            forall|t: int| 0 <= t < i ==> (#[trigger] r@[t]@) == v@[t]@,
        decreases v@.len() - i,
    {
        r.push(v[i].clone());
        i = i + 1;
    }
    proof {
        assert(imp_set(r@) =~= imp_set(v@)) by {
            assert forall|x: Seq<Tri>| imp_set(r@).contains(x) implies imp_set(v@).contains(x) by {
                let k = choose|k: int| #![auto] 0 <= k < r@.len() && r@[k]@ == x;
                assert(v@[k]@ == x);
                lemma_imp_set_index(v@, k);
            }
            assert forall|x: Seq<Tri>| imp_set(v@).contains(x) implies imp_set(r@).contains(x) by {
                let k = choose|k: int| #![auto] 0 <= k < v@.len() && v@[k]@ == x;
                assert(r@[k]@ == x);
                lemma_imp_set_index(r@, k);
            }
        }
    }
    r
}

/// Appending one prefix entry adds one vector to the held set.
proof fn lemma_imp_set_take_step(v: Seq<Imp>, i: int)
    requires
        0 <= i < v.len(),
    ensures
        imp_set(v.take(i + 1)) == imp_set(v.take(i)).insert(v[i]@),
{
    assert forall|x: Seq<Tri>| imp_set(v.take(i + 1)).contains(x) implies imp_set(
        v.take(i),
    ).insert(v[i]@).contains(x) by {
        let vt = v.take(i + 1);
        let k = choose|k: int| #![auto] 0 <= k < vt.len() && vt[k]@ == x;
        if k < i {
            assert(v.take(i)[k]@ == x);
            lemma_imp_set_index(v.take(i), k);
        } else {
            assert(x == v[i]@);
        }
    }
    assert forall|x: Seq<Tri>| imp_set(v.take(i)).insert(v[i]@).contains(x) implies imp_set(
        v.take(i + 1),
    ).contains(x) by {
        if x == v[i]@ {
            assert(v.take(i + 1)[i]@ == x);
            lemma_imp_set_index(v.take(i + 1), i);
        } else {
            let k = choose|k: int| #![auto] 0 <= k < v.take(i).len() && v.take(i)[k]@ == x;
            assert(v.take(i + 1)[k]@ == x);
            lemma_imp_set_index(v.take(i + 1), k);
        }
    }
    assert(imp_set(v.take(i + 1)) =~= imp_set(v.take(i)).insert(v[i]@));
}

/// Append the entries of `src` that `dst` does not yet hold.
fn extend_dedup(dst: &mut Vec<Imp>, src: &Vec<Imp>)
    requires
        distinct_imps(old(dst)@),
    ensures
        imp_set(final(dst)@) == imp_set(old(dst)@).union(imp_set(src@)),
        distinct_imps(final(dst)@),
{
    let ghost d0 = old(dst)@;
    let mut i: usize = 0;
    proof {
        assert(imp_set(src@.take(0)) =~= Set::empty()) by {
            if exists|x: Seq<Tri>| imp_set(src@.take(0)).contains(x) {
                let x = choose|x: Seq<Tri>| imp_set(src@.take(0)).contains(x);
                let k = choose|k: int| #![auto] 0 <= k < src@.take(0).len() && src@.take(0)[k]@ == x;
            }
        }
        assert(imp_set(d0).union(imp_set(src@.take(0))) =~= imp_set(d0));
    }
    while i < src.len()
        invariant
            i <= src@.len(),
            distinct_imps(dst@),
            imp_set(dst@) == imp_set(d0).union(imp_set(src@.take(i as int))),
        decreases src@.len() - i,
    {
        let ghost dprev = dst@;
        if !contains_imp(dst, &src[i]) {
            let c = src[i].clone();
            dst.push(c);
            proof {
                lemma_imp_set_push(dprev, c);
                lemma_distinct_push(dprev, c);
            }
        }
        proof {
            lemma_imp_set_take_step(src@, i as int);
            assert(imp_set(dst@) =~= imp_set(d0).union(imp_set(src@.take(i as int + 1)))) by {
                if imp_set(dprev).contains(src@[i as int]@) {
                    assert(imp_set(dst@) == imp_set(dprev));
                }
            }
        }
        i = i + 1;
    }
    proof {
        assert(src@.take(src@.len() as int) =~= src@);
    }
}


/// Every member of the generation set is a concrete truth-table row.
pub open spec fn all_concrete(g: Set<Seq<Tri>>) -> bool {
    forall|m: Seq<Tri>| #[trigger] g.contains(m) ==> concrete(m)
}

/// No two members of the set admit a further consensus merge.
pub open spec fn unmergeable(g: Set<Seq<Tri>>) -> bool {
    forall|p: Seq<Tri>, q: Seq<Tri>|
        #![trigger g.contains(p), g.contains(q)]
        g.contains(p) && g.contains(q) && p != q ==> !can_merge(p, q)
}


/// Some entry of `v` covers the implicant `c`.
pub open spec fn some_cover_in(v: Seq<Imp>, c: Seq<Tri>) -> bool {
    exists|t: int| #![auto] 0 <= t < v.len() && covers(v[t]@, c)
}

/// The implicant `p` covers some entry of `columns`.
pub open spec fn covers_one_of(p: Seq<Tri>, columns: Seq<Imp>) -> bool {
    exists|k: int| #![auto] 0 <= k < columns.len() && covers(p, columns[k]@)
}

/// Coverage invariant of the reduction loop: every member of the original
/// set is covered by a retained or still-current implicant.
#[verifier::opaque]
spec fn inv_coverage(s0: Set<Seq<Tri>>, e: Set<Seq<Tri>>, c: Set<Seq<Tri>>) -> bool {
    forall|m: Seq<Tri>| #[trigger] s0.contains(m) ==> exists|p: Seq<Tri>|
        #![auto]
        (e.contains(p) || c.contains(p)) && covers(p, m)
}

/// Lineage invariant: every retained or current implicant covers some
/// member of the original set.
#[verifier::opaque]
spec fn inv_lineage(s0: Set<Seq<Tri>>, e: Set<Seq<Tri>>, c: Set<Seq<Tri>>) -> bool {
    forall|p: Seq<Tri>|
        #![trigger e.contains(p)]
        #![trigger c.contains(p)]
        e.contains(p) || c.contains(p) ==> exists|m: Seq<Tri>|
            #![auto]
            s0.contains(m) && covers(p, m)
}

/// Soundness invariant: whatever concrete row a retained or current
/// implicant covers, some member of the original set covers it.
#[verifier::opaque]
spec fn inv_sound(s0: Set<Seq<Tri>>, e: Set<Seq<Tri>>, c: Set<Seq<Tri>>) -> bool {
    forall|p: Seq<Tri>, x: Seq<Tri>|
        #![trigger covers(p, x)]
        (e.contains(p) || c.contains(p)) && covers(p, x) && concrete(x) ==> exists|m: Seq<Tri>|
            #![auto]
            s0.contains(m) && covers(m, x)
}

/// Every current member has at least `gen` don't-cares.
#[verifier::opaque]
spec fn inv_floor(c: Set<Seq<Tri>>, gen: nat) -> bool {
    forall|p: Seq<Tri>| #[trigger] c.contains(p) ==> count_x(p) >= gen
}

/// Every current member has exactly `gen` don't-cares.
#[verifier::opaque]
spec fn inv_exact(c: Set<Seq<Tri>>, gen: nat) -> bool {
    forall|p: Seq<Tri>| #[trigger] c.contains(p) ==> count_x(p) == gen
}

/// Every retained member has fewer than `gen` don't-cares.
#[verifier::opaque]
spec fn inv_lt(e: Set<Seq<Tri>>, gen: nat) -> bool {
    forall|p: Seq<Tri>| #[trigger] e.contains(p) ==> count_x(p) < gen
}

/// All members share one width.
#[verifier::opaque]
spec fn inv_width(c: Set<Seq<Tri>>) -> bool {
    forall|p: Seq<Tri>, q: Seq<Tri>|
        #![trigger c.contains(p), c.contains(q)]
        c.contains(p) && c.contains(q) ==> p.len() == q.len()
}

/// A floor member extraction.
proof fn lemma_floor_member(c: Set<Seq<Tri>>, gen: nat, p: Seq<Tri>)
    requires
        inv_floor(c, gen),
        c.contains(p),
    ensures
        count_x(p) >= gen,
{
    reveal(inv_floor);
}

/// A width member extraction.
proof fn lemma_width_member(c: Set<Seq<Tri>>, p: Seq<Tri>, q: Seq<Tri>)
    requires
        inv_width(c),
        c.contains(p),
        c.contains(q),
    ensures
        p.len() == q.len(),
{
    reveal(inv_width);
}

/// Pairwise-equal widths of the entries give the width invariant of the
/// held set, and back.
proof fn lemma_width_vec(v: Seq<Imp>)
    requires
        inv_width(imp_set(v)),
    ensures
        forall|k: int, l: int|
            #![auto]
            0 <= k < v.len() && 0 <= l < v.len() ==> v[k]@.len() == v[l]@.len(),
{
    reveal(inv_width);
    assert forall|k: int, l: int|
        #![auto]
        0 <= k < v.len() && 0 <= l < v.len() implies v[k]@.len() == v[l]@.len() by {
        lemma_imp_set_index(v, k);
        lemma_imp_set_index(v, l);
    }
}

/// The reverse direction: a vector with pairwise-equal widths holds a set
/// with one width.
proof fn lemma_width_of_vec(v: Seq<Imp>)
    requires
        forall|k: int, l: int|
            #![auto]
            0 <= k < v.len() && 0 <= l < v.len() ==> v[k]@.len() == v[l]@.len(),
    ensures
        inv_width(imp_set(v)),
{
    reveal(inv_width);
    assert forall|p: Seq<Tri>, q: Seq<Tri>|
        imp_set(v).contains(p) && imp_set(v).contains(q) implies p.len() == q.len() by {
        let kp = choose|k: int| #![auto] 0 <= k < v.len() && v[k]@ == p;
        let kq = choose|k: int| #![auto] 0 <= k < v.len() && v[k]@ == q;
    }
}

/// The invariants hold before the first generation: the original set is
/// its own current generation and nothing is retained yet.
proof fn lemma_generation_init(s0: Set<Seq<Tri>>)
    ensures
        inv_coverage(s0, Set::empty(), s0),
        inv_lineage(s0, Set::empty(), s0),
        inv_sound(s0, Set::empty(), s0),
        inv_floor(s0, 0),
        all_concrete(s0) ==> inv_exact(s0, 0) && inv_lt(Set::empty(), 0) && unmergeable(
            Set::empty(),
        ),
{
    reveal(inv_coverage);
    reveal(inv_lineage);
    reveal(inv_sound);
    reveal(inv_floor);
    reveal(inv_exact);
    reveal(inv_lt);
    assert forall|m: Seq<Tri>| s0.contains(m) implies exists|p: Seq<Tri>|
        #![auto]
        (Set::empty().contains(p) || s0.contains(p)) && covers(p, m) by {
        lemma_covers_refl(m);
    }
    assert forall|p: Seq<Tri>|
        Set::empty().contains(p) || s0.contains(p) implies exists|m: Seq<Tri>|
        #![auto]
        s0.contains(m) && covers(p, m) by {
        lemma_covers_refl(p);
    }
    if all_concrete(s0) {
        assert forall|p: Seq<Tri>| s0.contains(p) implies count_x(p) == 0 by {
            lemma_concrete_count(p);
        }
    }
}

/// One generation of the loop preserves all invariants: what is retained
/// was current and unmergeable in its generation, merge results cover
/// their parents and nothing more, and each merge adds one don't-care.
proof fn lemma_generation_step(s0: Set<Seq<Tri>>, e0: Set<Seq<Tri>>, c0: Set<Seq<Tri>>, gen: nat)
    requires
        inv_coverage(s0, e0, c0),
        inv_lineage(s0, e0, c0),
        inv_sound(s0, e0, c0),
        inv_floor(c0, gen),
        inv_width(c0),
        all_concrete(s0) ==> inv_exact(c0, gen) && inv_lt(e0, gen) && unmergeable(e0),
    ensures
        inv_coverage(s0, e0.union(kept_of(c0)), merges_of(c0)),
        inv_lineage(s0, e0.union(kept_of(c0)), merges_of(c0)),
        inv_sound(s0, e0.union(kept_of(c0)), merges_of(c0)),
        inv_floor(merges_of(c0), gen + 1),
        inv_width(merges_of(c0)),
        forall|p: Seq<Tri>, q: Seq<Tri>|
            #![trigger merges_of(c0).contains(p), c0.contains(q)]
            merges_of(c0).contains(p) && c0.contains(q) ==> p.len() == q.len(),
        all_concrete(s0) ==> inv_exact(merges_of(c0), gen + 1) && inv_lt(
            e0.union(kept_of(c0)),
            gen + 1,
        ) && unmergeable(e0.union(kept_of(c0))),
{
    let e1 = e0.union(kept_of(c0));
    let c1 = merges_of(c0);
    assert(inv_coverage(s0, e1, c1)) by {
        reveal(inv_coverage);
        assert forall|m: Seq<Tri>| s0.contains(m) implies exists|p: Seq<Tri>|
            #![auto]
            (e1.contains(p) || c1.contains(p)) && covers(p, m) by {
            let p0 = choose|p: Seq<Tri>|
                #![auto]
                (e0.contains(p) || c0.contains(p)) && covers(p, m);
            if e0.contains(p0) {
                assert(e1.contains(p0) && covers(p0, m));
            } else if has_partner(c0, p0) {
                let b = choose|b: Seq<Tri>|
                    #[trigger] c0.contains(b) && b != p0 && can_merge(p0, b);
                let w = merge_result(p0, b);
                assert(c1.contains(w));
                lemma_merge_covers(p0, b);
                lemma_covers_trans(w, p0, m);
                assert(c1.contains(w) && covers(w, m));
            } else {
                assert(kept_of(c0).contains(p0));
                assert(e1.contains(p0) && covers(p0, m));
            }
        }
    }
    assert(inv_lineage(s0, e1, c1)) by {
        reveal(inv_lineage);
        assert forall|p: Seq<Tri>| e1.contains(p) || c1.contains(p) implies exists|m: Seq<Tri>|
            #![auto]
            s0.contains(m) && covers(p, m) by {
            if e1.contains(p) {
                assert(e0.contains(p) || c0.contains(p));
            } else {
                let (av, bv) = choose|av: Seq<Tri>, bv: Seq<Tri>|
                    #![auto]
                    c0.contains(av) && c0.contains(bv) && av != bv && can_merge(av, bv) && p
                        == merge_result(av, bv);
                let m = choose|m: Seq<Tri>| #![auto] s0.contains(m) && covers(av, m);
                lemma_merge_covers(av, bv);
                lemma_covers_trans(p, av, m);
            }
        }
    }
    assert(inv_sound(s0, e1, c1)) by {
        reveal(inv_sound);
        assert forall|p: Seq<Tri>, x: Seq<Tri>|
            (e1.contains(p) || c1.contains(p)) && #[trigger] covers(p, x) && concrete(
                x,
            ) implies exists|m: Seq<Tri>| #![auto] s0.contains(m) && covers(m, x) by {
            if e1.contains(p) {
                assert(e0.contains(p) || c0.contains(p));
            } else {
                let (av, bv) = choose|av: Seq<Tri>, bv: Seq<Tri>|
                    #![auto]
                    c0.contains(av) && c0.contains(bv) && av != bv && can_merge(av, bv) && p
                        == merge_result(av, bv);
                lemma_merge_split(av, bv, x);
                assert(covers(av, x) || covers(bv, x));
            }
        }
    }
    assert(inv_floor(c1, gen + 1)) by {
        reveal(inv_floor);
        assert forall|p: Seq<Tri>| c1.contains(p) implies count_x(p) >= gen + 1 by {
            let (av, bv) = choose|av: Seq<Tri>, bv: Seq<Tri>|
                #![auto]
                c0.contains(av) && c0.contains(bv) && av != bv && can_merge(av, bv) && p
                    == merge_result(av, bv);
            lemma_merge_count(av, bv);
        }
    }
    assert forall|p: Seq<Tri>, q: Seq<Tri>|
        c1.contains(p) && c0.contains(q) implies p.len() == q.len() by {
        let (av, bv) = choose|av: Seq<Tri>, bv: Seq<Tri>|
            #![auto]
            c0.contains(av) && c0.contains(bv) && av != bv && can_merge(av, bv) && p
                == merge_result(av, bv);
        lemma_width_member(c0, av, q);
        assert(p.len() == av.len());
    }
    assert(inv_width(c1)) by {
        reveal(inv_width);
        assert forall|p: Seq<Tri>, q: Seq<Tri>|
            c1.contains(p) && c1.contains(q) implies p.len() == q.len() by {
            let (av, bv) = choose|av: Seq<Tri>, bv: Seq<Tri>|
                #![auto]
                c0.contains(av) && c0.contains(bv) && av != bv && can_merge(av, bv) && p
                    == merge_result(av, bv);
            let (cv, dv) = choose|cv: Seq<Tri>, dv: Seq<Tri>|
                #![auto]
                c0.contains(cv) && c0.contains(dv) && cv != dv && can_merge(cv, dv) && q
                    == merge_result(cv, dv);
            lemma_width_member(c0, av, cv);
            assert(p.len() == av.len() && q.len() == cv.len());
        }
    }
    if all_concrete(s0) {
        assert(inv_exact(c1, gen + 1)) by {
            reveal(inv_exact);
            assert forall|p: Seq<Tri>| c1.contains(p) implies count_x(p) == gen + 1 by {
                let (av, bv) = choose|av: Seq<Tri>, bv: Seq<Tri>|
                    #![auto]
                    c0.contains(av) && c0.contains(bv) && av != bv && can_merge(av, bv) && p
                        == merge_result(av, bv);
                lemma_merge_count(av, bv);
                assert(count_x(av) == gen) by {
                    reveal(inv_exact);
                }
            }
        }
        assert(inv_lt(e1, gen + 1)) by {
            reveal(inv_lt);
            reveal(inv_exact);
            assert forall|p: Seq<Tri>| e1.contains(p) implies count_x(p) < gen + 1 by {
                if e0.contains(p) {
                } else {
                    assert(kept_of(c0).contains(p));
                    assert(c0.contains(p));
                }
            }
        }
        assert(unmergeable(e1)) by {
            reveal(inv_exact);
            reveal(inv_lt);
            assert forall|p: Seq<Tri>, q: Seq<Tri>|
                e1.contains(p) && e1.contains(q) && p != q implies !can_merge(p, q) by {
                if can_merge(p, q) {
                    lemma_merge_count(p, q);
                    if e0.contains(p) && e0.contains(q) {
                        assert(!can_merge(p, q));
                    } else if kept_of(c0).contains(p) && kept_of(c0).contains(q) {
                        assert(c0.contains(q) && q != p && can_merge(p, q));
                        assert(has_partner(c0, p));
                    } else if e0.contains(p) {
                        assert(kept_of(c0).contains(q));
                        assert(count_x(p) < gen && count_x(q) == gen);
                    } else {
                        assert(kept_of(c0).contains(p));
                        assert(count_x(q) < gen && count_x(p) == gen);
                    }
                }
            }
        }
    }
}

/// When the current generation is empty, the retained vector alone
/// carries coverage, lineage, and soundness.
proof fn lemma_reduce_final(minterms: Seq<Imp>, ess: Seq<Imp>, cur: Seq<Imp>)
    requires
        cur.len() == 0,
        inv_coverage(imp_set(minterms), imp_set(ess), imp_set(cur)),
        inv_lineage(imp_set(minterms), imp_set(ess), imp_set(cur)),
        inv_sound(imp_set(minterms), imp_set(ess), imp_set(cur)),
    ensures
        forall|m: Seq<Tri>| #[trigger] imp_set(minterms).contains(m) ==> some_cover_in(ess, m),
        forall|t: int| 0 <= t < ess.len() ==> covers_one_of((#[trigger] ess[t])@, minterms),
        forall|t: int, x: Seq<Tri>|
            #![trigger covers(ess[t]@, x)]
            0 <= t < ess.len() && covers(ess[t]@, x) && concrete(x) ==> some_cover_in(minterms, x),
{
    reveal(inv_coverage);
    reveal(inv_lineage);
    reveal(inv_sound);
    assert forall|p: Seq<Tri>| !imp_set(cur).contains(p) by {
        if imp_set(cur).contains(p) {
            let k = choose|k: int| #![auto] 0 <= k < cur.len() && cur[k]@ == p;
        }
    }
    assert forall|m: Seq<Tri>| imp_set(minterms).contains(m) implies some_cover_in(ess, m) by {
        let p = choose|p: Seq<Tri>|
            #![auto]
            (imp_set(ess).contains(p) || imp_set(cur).contains(p)) && covers(p, m);
        assert(imp_set(ess).contains(p));
        let t = choose|t: int| #![auto] 0 <= t < ess.len() && ess[t]@ == p;
        assert(0 <= t < ess.len() && covers(ess[t]@, m));
    }
    assert forall|t: int| 0 <= t < ess.len() implies covers_one_of(
        (#[trigger] ess[t])@,
        minterms,
    ) by {
        lemma_imp_set_index(ess, t);
        let m = choose|m: Seq<Tri>| #![auto] imp_set(minterms).contains(m) && covers(ess[t]@, m);
        let k = choose|k: int| #![auto] 0 <= k < minterms.len() && minterms[k]@ == m;
        assert(0 <= k < minterms.len() && covers(ess[t]@, minterms[k]@));
    }
    assert forall|t: int, x: Seq<Tri>|
        0 <= t < ess.len() && #[trigger] covers(ess[t]@, x) && concrete(x) implies some_cover_in(
        minterms,
        x,
    ) by {
        lemma_imp_set_index(ess, t);
        let m = choose|m: Seq<Tri>| #![auto] imp_set(minterms).contains(m) && covers(m, x);
        let k = choose|k: int| #![auto] 0 <= k < minterms.len() && minterms[k]@ == m;
        assert(0 <= k < minterms.len() && covers(minterms[k]@, x));
    }
}

/// An implicant set whose members each cover a member of the width-`n`
/// base set has width `n` throughout.
proof fn lemma_width_from_lineage(v: Seq<Imp>, e: Seq<Imp>)
    requires
        forall|t: int| 0 <= t < e.len() ==> covers_one_of((#[trigger] e[t])@, v),
    ensures
        forall|n: nat| #[trigger] uniform_w(v, n) ==> uniform_w(e, n),
{
    assert forall|n: nat| uniform_w(v, n) implies uniform_w(e, n) by {
        assert forall|t: int| 0 <= t < e.len() implies (#[trigger] e[t]@).len() == n by {
            let km = choose|k: int| #![auto] 0 <= k < v.len() && covers(e[t]@, v[k]@);
            assert(v[km]@.len() == n);
        }
    }
}

/// Iterate consensus merging to a fixpoint and collect the retained prime
/// implicants of every generation: implicants that merged with nobody are
/// retained; the deduplicated merge results form the next generation; the
/// pass repeats until a generation produces no merges, whose members are
/// all retained.
///
/// The result covers every input implicant; every result member covers
/// some input implicant; whatever concrete row a result member covers was
/// covered by an input implicant; and when the input is a set of concrete
/// rows, no two result members can merge further (they are prime).
#[verifier::rlimit(50)]
pub fn reduce(minterms: &Vec<Imp>) -> (r: Vec<Imp>)
    requires
        distinct_imps(minterms@),
        forall|k: int, l: int|
            #![auto]
            0 <= k < minterms@.len() && 0 <= l < minterms@.len() ==> minterms@[k]@.len()
                == minterms@[l]@.len(),
    ensures
        distinct_imps(r@),
        forall|n: nat| #[trigger] uniform_w(minterms@, n) ==> uniform_w(r@, n),
        forall|m: Seq<Tri>| #[trigger] imp_set(minterms@).contains(m) ==> some_cover_in(r@, m),
        forall|t: int| 0 <= t < r@.len() ==> covers_one_of((#[trigger] r@[t])@, minterms@),
        forall|t: int, x: Seq<Tri>|
            #![trigger covers(r@[t]@, x)]
            0 <= t < r@.len() && covers(r@[t]@, x) && concrete(x) ==> some_cover_in(minterms@, x),
        all_concrete(imp_set(minterms@)) ==> unmergeable(imp_set(r@)),
{
    let ghost s0 = imp_set(minterms@);
    let mut essential: Vec<Imp> = Vec::new();
    let mut curr: Vec<Imp> = clone_imps(minterms);
    let ghost mut gen: nat = 0;
    proof {
        lemma_generation_init(s0);
        lemma_width_of_vec(minterms@);
        assert(imp_set(essential@) =~= Set::empty()) by {
            if exists|x: Seq<Tri>| imp_set(essential@).contains(x) {
                let x = choose|x: Seq<Tri>| imp_set(essential@).contains(x);
                let k = choose|k: int| #![auto] 0 <= k < essential@.len() && essential@[k]@ == x;
            }
        }
    }
    loop
        invariant
            distinct_imps(curr@),
            distinct_imps(essential@),
            inv_width(imp_set(curr@)),
            inv_floor(imp_set(curr@), gen),
            inv_coverage(s0, imp_set(essential@), imp_set(curr@)),
            inv_lineage(s0, imp_set(essential@), imp_set(curr@)),
            inv_sound(s0, imp_set(essential@), imp_set(curr@)),
            all_concrete(s0) ==> inv_exact(imp_set(curr@), gen) && inv_lt(
                imp_set(essential@),
                gen,
            ) && unmergeable(imp_set(essential@)),
        ensures
            curr@.len() == 0,
        decreases (if curr@.len() > 0 {
            curr@[0]@.len() + 1 - gen
        } else {
            0
        }),
    {
        let ghost curr0 = curr@;
        let ghost sc = imp_set(curr@);
        let ghost se0 = imp_set(essential@);
        proof {
            lemma_width_vec(curr@);
        }
        let (rem, nx) = reduce_one(&curr);
        extend_dedup(&mut essential, &rem);
        curr = nx;
        proof {
            assert(imp_set(essential@) == se0.union(kept_of(sc)));
            assert(imp_set(curr@) == merges_of(sc));
            lemma_generation_step(s0, se0, sc, gen);
            gen = gen + 1;
        }
        if curr.len() == 0 {
            break ;
        }
        proof {
            lemma_imp_set_index(curr@, 0);
            lemma_floor_member(imp_set(curr@), gen, curr@[0]@);
            lemma_count_x_le_len(curr@[0]@);
            let (av, bv) = choose|av: Seq<Tri>, bv: Seq<Tri>|
                #![auto]
                sc.contains(av) && sc.contains(bv) && av != bv && can_merge(av, bv) && curr@[0]@
                    == merge_result(av, bv);
            let ka = choose|k: int| #![auto] 0 <= k < curr0.len() && curr0[k]@ == av;
            lemma_imp_set_index(curr0, 0);
            lemma_width_member(sc, av, curr0[0]@);
            assert(curr@[0]@.len() == curr0[0]@.len());
        }
    }
    proof {
        lemma_reduce_final(minterms@, essential@, curr@);
        lemma_width_from_lineage(minterms@, essential@);
    }
    essential
}


/// `p` is the one and only row covering column `c`.
pub open spec fn unique_cover(rows: Set<Seq<Tri>>, p: Seq<Tri>, c: Seq<Tri>) -> bool {
    &&& covers(p, c)
    &&& forall|q: Seq<Tri>| #[trigger] rows.contains(q) && covers(q, c) ==> q == p
}

/// The essential rows: those that are the unique cover of some column.
pub open spec fn essential_of(cols: Set<Seq<Tri>>, rows: Set<Seq<Tri>>) -> Set<Seq<Tri>> {
    Set::new(
        |p: Seq<Tri>|
            rows.contains(p) && exists|c: Seq<Tri>|
                #![auto]
                cols.contains(c) && unique_cover(rows, p, c),
    )
}

/// The indices of the rows covering `col`, in increasing order.
fn covering_rows(rows: &Vec<Imp>, col: &Imp) -> (idx: Vec<usize>)
    requires
        forall|k: int| 0 <= k < rows@.len() ==> (#[trigger] rows@[k]@).len() == col@.len(),
    ensures
        forall|t: int|
            0 <= t < idx@.len() ==> (#[trigger] idx@[t]) < rows@.len() && covers(
                rows@[idx@[t] as int]@,
                col@,
            ),
        forall|k: int|
            0 <= k < rows@.len() && covers((#[trigger] rows@[k]@), col@) ==> exists|t: int|
                #![auto]
                0 <= t < idx@.len() && idx@[t] == k,
        forall|t1: int, t2: int| 0 <= t1 < t2 < idx@.len() ==> idx@[t1] < idx@[t2],
{
    let mut idx: Vec<usize> = Vec::new();
    let mut k: usize = 0;
    while k < rows.len()
        invariant
            k <= rows@.len(),
            forall|kk: int| 0 <= kk < rows@.len() ==> (#[trigger] rows@[kk]@).len() == col@.len(),
            forall|t: int|
                0 <= t < idx@.len() ==> (#[trigger] idx@[t]) < k && covers(
                    rows@[idx@[t] as int]@,
                    col@,
                ),
            forall|kk: int|
                0 <= kk < k && covers((#[trigger] rows@[kk]@), col@) ==> exists|t: int|
                    #![auto]
                    0 <= t < idx@.len() && idx@[t] == kk,
            forall|t1: int, t2: int| 0 <= t1 < t2 < idx@.len() ==> idx@[t1] < idx@[t2],
        decreases rows@.len() - k,
    {
        let ghost idx0 = idx@;
        if rows[k].containes(&col) {
            idx.push(k);
        }
        proof {
            assert forall|kk: int|
                0 <= kk < k + 1 && covers((#[trigger] rows@[kk]@), col@) implies exists|t: int|
                #![auto]
                0 <= t < idx@.len() && idx@[t] == kk by {
                if kk == k as int {
                    assert(idx@[idx@.len() - 1] == k);
                } else {
                    let t = choose|t: int| #![auto] 0 <= t < idx0.len() && idx0[t] == kk;
                    assert(idx@[t] == kk);
                }
            }
        }
        k = k + 1;
    }
    idx
}


/// Every column has at least one covering row.
pub open spec fn rows_cover_all(columns: Seq<Imp>, rows: Seq<Imp>) -> bool {
    forall|k: int| 0 <= k < columns.len() ==> some_cover_in(rows, (#[trigger] columns[k])@)
}

/// Columns and rows share one implicant width.
pub open spec fn cross_width(columns: Seq<Imp>, rows: Seq<Imp>) -> bool {
    forall|k: int, l: int|
        #![auto]
        0 <= k < columns.len() && 0 <= l < rows.len() ==> columns[k]@.len() == rows[l]@.len()
}

/// Every entry of `cur` is one of the original columns.
#[verifier::opaque]
spec fn sub_columns(cur: Seq<Imp>, columns: Seq<Imp>) -> bool {
    forall|t: int| 0 <= t < cur.len() ==> imp_set(columns).contains((#[trigger] cur[t]@))
}

/// The selected rows are distinct rows, each covering some original
/// column.
#[verifier::opaque]
spec fn chosen_ok(chosen: Seq<Imp>, columns: Seq<Imp>, rows: Seq<Imp>) -> bool {
    &&& distinct_imps(chosen)
    &&& forall|t: int| 0 <= t < chosen.len() ==> imp_set(rows).contains((#[trigger] chosen[t]@))
    &&& forall|t: int| 0 <= t < chosen.len() ==> covers_one_of((#[trigger] chosen[t])@, columns)
}

/// Every original column is still pending or already covered by a
/// selected row.
#[verifier::opaque]
spec fn cols_state(columns: Seq<Imp>, cur: Seq<Imp>, chosen: Seq<Imp>) -> bool {
    forall|k: int|
        0 <= k < columns.len() ==> (imp_set(cur).contains((#[trigger] columns[k])@)
            || some_cover_in(chosen, columns[k]@))
}

/// Every essential row whose witness column is already retired has been
/// selected.
#[verifier::opaque]
spec fn ess_state(columns: Seq<Imp>, rows: Seq<Imp>, cur: Seq<Imp>, chosen: Seq<Imp>) -> bool {
    forall|p: Seq<Tri>, k: int|
        0 <= k < columns.len() && imp_set(rows).contains(p) && #[trigger] unique_cover(
            imp_set(rows),
            p,
            columns[k]@,
        ) ==> (imp_set(chosen).contains(p) || imp_set(cur).contains(columns[k]@))
}

/// Every marked column is covered by a selected row.
#[verifier::opaque]
spec fn marks_ok(covered: Seq<bool>, cur: Seq<Imp>, chosen: Seq<Imp>) -> bool {
    forall|cj: int|
        0 <= cj < covered.len() && covered[cj] ==> some_cover_in(chosen, (#[trigger] cur[cj])@)
}

/// Every row that is the unique cover of a scanned column has been
/// selected.
#[verifier::opaque]
spec fn ess_selected(cur: Seq<Imp>, rows: Seq<Imp>, chosen: Seq<Imp>) -> bool {
    forall|p: Seq<Tri>, ci: int|
        0 <= ci < cur.len() && imp_set(rows).contains(p) && #[trigger] unique_cover(
            imp_set(rows),
            p,
            cur[ci]@,
        ) ==> imp_set(chosen).contains(p)
}

/// A cover among the first entries stays a cover when entries are added.
proof fn lemma_some_cover_grow(c0: Seq<Imp>, c1: Seq<Imp>, x: Seq<Tri>)
    requires
        some_cover_in(c0, x),
        forall|t: int| 0 <= t < c0.len() ==> c1[t] == c0[t],
        c0.len() <= c1.len(),
    ensures
        some_cover_in(c1, x),
{
    let t = choose|t: int| #![auto] 0 <= t < c0.len() && covers(c0[t]@, x);
    assert(0 <= t < c1.len() && covers(c1[t]@, x));
}

/// Growing the selection preserves the column bookkeeping.
proof fn lemma_cols_state_mono(columns: Seq<Imp>, cur: Seq<Imp>, c0: Seq<Imp>, c1: Seq<Imp>)
    requires
        cols_state(columns, cur, c0),
        forall|t: int| 0 <= t < c0.len() ==> c1[t] == c0[t],
        c0.len() <= c1.len(),
    ensures
        cols_state(columns, cur, c1),
{
    reveal(cols_state);
    assert forall|k: int|
        0 <= k < columns.len() implies (imp_set(cur).contains((#[trigger] columns[k])@)
        || some_cover_in(c1, columns[k]@)) by {
        if !imp_set(cur).contains(columns[k]@) {
            lemma_some_cover_grow(c0, c1, columns[k]@);
        }
    }
}

/// Growing the selection preserves the essential bookkeeping.
proof fn lemma_ess_state_mono(
    columns: Seq<Imp>,
    rows: Seq<Imp>,
    cur: Seq<Imp>,
    c0: Seq<Imp>,
    c1: Seq<Imp>,
)
    requires
        ess_state(columns, rows, cur, c0),
        forall|t: int| 0 <= t < c0.len() ==> c1[t] == c0[t],
        c0.len() <= c1.len(),
    ensures
        ess_state(columns, rows, cur, c1),
{
    reveal(ess_state);
    assert forall|p: Seq<Tri>, k: int|
        0 <= k < columns.len() && imp_set(rows).contains(p) && #[trigger] unique_cover(
            imp_set(rows),
            p,
            columns[k]@,
        ) implies (imp_set(c1).contains(p) || imp_set(cur).contains(columns[k]@)) by {
        if !imp_set(cur).contains(columns[k]@) {
            let t = choose|t: int| #![auto] 0 <= t < c0.len() && c0[t]@ == p;
            assert(c1[t]@ == p);
            lemma_imp_set_index(c1, t);
        }
    }
}

/// Retiring the covered columns keeps every invariant of the covering
/// loop: a pending column either survives or was marked, a marked column
/// is covered by a selected row, and an essential row whose witness was
/// pending has just been selected.
proof fn lemma_retire(
    columns: Seq<Imp>,
    rows: Seq<Imp>,
    cur: Seq<Imp>,
    newcur: Seq<Imp>,
    covered: Seq<bool>,
    chosen: Seq<Imp>,
    src: Seq<usize>,
)
    requires
        covered.len() == cur.len(),
        sub_columns(cur, columns),
        forall|cj: int|
            0 <= cj < cur.len() && !covered[cj] ==> imp_set(newcur).contains((#[trigger] cur[cj])@),
        src.len() == newcur.len(),
        forall|t: int|
            0 <= t < newcur.len() ==> (#[trigger] src[t]) < cur.len() && !covered[src[t] as int]
                && newcur[t]@ == cur[src[t] as int]@,
        marks_ok(covered, cur, chosen),
        cols_state(columns, cur, chosen),
        ess_state(columns, rows, cur, chosen),
        ess_selected(cur, rows, chosen),
    ensures
        sub_columns(newcur, columns),
        cols_state(columns, newcur, chosen),
        ess_state(columns, rows, newcur, chosen),
{
    reveal(sub_columns);
    reveal(marks_ok);
    reveal(cols_state);
    reveal(ess_state);
    reveal(ess_selected);
    assert forall|t: int| 0 <= t < newcur.len() implies imp_set(columns).contains(
        (#[trigger] newcur[t]@),
    ) by {
        let cj = src[t] as int;
        assert(newcur[t]@ == cur[cj]@);
        assert(imp_set(columns).contains(cur[cj]@));
    }
    assert forall|k: int|
        0 <= k < columns.len() implies (imp_set(newcur).contains((#[trigger] columns[k])@)
        || some_cover_in(chosen, columns[k]@)) by {
        if imp_set(cur).contains(columns[k]@) {
            let cj = choose|cj: int| #![auto] 0 <= cj < cur.len() && cur[cj]@ == columns[k]@;
            if covered[cj] {
                assert(some_cover_in(chosen, cur[cj]@));
            } else {
                assert(imp_set(newcur).contains(cur[cj]@));
            }
        }
    }
    assert forall|p: Seq<Tri>, k: int|
        0 <= k < columns.len() && imp_set(rows).contains(p) && #[trigger] unique_cover(
            imp_set(rows),
            p,
            columns[k]@,
        ) implies (imp_set(chosen).contains(p) || imp_set(newcur).contains(columns[k]@)) by {
        if !imp_set(chosen).contains(p) {
            assert(imp_set(cur).contains(columns[k]@));
            let cj = choose|cj: int| #![auto] 0 <= cj < cur.len() && cur[cj]@ == columns[k]@;
            assert(unique_cover(imp_set(rows), p, cur[cj]@));
        }
    }
}

/// When no columns are pending, the selection alone carries the covering
/// facts.
proof fn lemma_cover_final(columns: Seq<Imp>, rows: Seq<Imp>, cur: Seq<Imp>, chosen: Seq<Imp>)
    requires
        cur.len() == 0,
        chosen_ok(chosen, columns, rows),
        cols_state(columns, cur, chosen),
        ess_state(columns, rows, cur, chosen),
    ensures
        distinct_imps(chosen),
        forall|t: int| 0 <= t < chosen.len() ==> imp_set(rows).contains((#[trigger] chosen[t]@)),
        forall|t: int| 0 <= t < chosen.len() ==> covers_one_of((#[trigger] chosen[t])@, columns),
        forall|k: int| 0 <= k < columns.len() ==> some_cover_in(chosen, (#[trigger] columns[k])@),
        forall|p: Seq<Tri>|
            #[trigger] essential_of(imp_set(columns), imp_set(rows)).contains(p) ==> imp_set(
                chosen,
            ).contains(p),
{
    reveal(chosen_ok);
    reveal(cols_state);
    reveal(ess_state);
    assert forall|p: Seq<Tri>| !imp_set(cur).contains(p) by {
        if imp_set(cur).contains(p) {
            let k = choose|k: int| #![auto] 0 <= k < cur.len() && cur[k]@ == p;
        }
    }
    assert forall|k: int| 0 <= k < columns.len() implies some_cover_in(
        chosen,
        (#[trigger] columns[k])@,
    ) by {
        assert(!imp_set(cur).contains(columns[k]@));
    }
    assert forall|p: Seq<Tri>|
        essential_of(imp_set(columns), imp_set(rows)).contains(p) implies imp_set(chosen).contains(
        p,
    ) by {
        let c = choose|c: Seq<Tri>|
            #![auto]
            imp_set(columns).contains(c) && unique_cover(imp_set(rows), p, c);
        let k = choose|k: int| #![auto] 0 <= k < columns.len() && columns[k]@ == c;
        assert(unique_cover(imp_set(rows), p, columns[k]@));
        assert(!imp_set(cur).contains(columns[k]@));
    }
}


/// The survivors of a retirement are exactly drawn from the unmarked
/// columns.
/// Growing the selection preserves the marks.
proof fn lemma_marks_mono(covered: Seq<bool>, cur: Seq<Imp>, c0: Seq<Imp>, c1: Seq<Imp>)
    requires
        marks_ok(covered, cur, c0),
        forall|t: int| 0 <= t < c0.len() ==> c1[t] == c0[t],
        c0.len() <= c1.len(),
    ensures
        marks_ok(covered, cur, c1),
{
    reveal(marks_ok);
    assert forall|cj: int| 0 <= cj < covered.len() && covered[cj] implies some_cover_in(
        c1,
        (#[trigger] cur[cj])@,
    ) by {
        lemma_some_cover_grow(c0, c1, cur[cj]@);
    }
}

/// Growing the selection preserves the scanned-essential bookkeeping.
proof fn lemma_ess_selected_mono(cur: Seq<Imp>, rows: Seq<Imp>, c0: Seq<Imp>, c1: Seq<Imp>)
    requires
        ess_selected(cur, rows, c0),
        forall|t: int| 0 <= t < c0.len() ==> c1[t] == c0[t],
        c0.len() <= c1.len(),
    ensures
        ess_selected(cur, rows, c1),
{
    reveal(ess_selected);
    assert forall|p: Seq<Tri>, ci: int|
        0 <= ci < cur.len() && imp_set(rows).contains(p) && #[trigger] unique_cover(
            imp_set(rows),
            p,
            cur[ci]@,
        ) implies imp_set(c1).contains(p) by {
        let t = choose|t: int| #![auto] 0 <= t < c0.len() && c0[t]@ == p;
        assert(c1[t]@ == p);
        lemma_imp_set_index(c1, t);
    }
}

/// A member extraction for the pending columns.
proof fn lemma_sub_columns_member(cur: Seq<Imp>, columns: Seq<Imp>, t: int)
    requires
        sub_columns(cur, columns),
        0 <= t < cur.len(),
    ensures
        imp_set(columns).contains(cur[t]@),
{
    reveal(sub_columns);
}

/// One scan over the pending columns: a column with exactly one covering
/// row selects that row (it is essential); under `fallback`, the first
/// column scanned selects its first covering row instead. Returns the
/// marks (which pending columns are now covered by a selected row),
/// whether anything was selected, and a marked index as the witness.
#[verifier::rlimit(50)]
fn cover_pass(
    columns: &Vec<Imp>,
    rows: &Vec<Imp>,
    cur: &Vec<Imp>,
    chosen: &mut Vec<Imp>,
    fallback: bool,
) -> (r: (Vec<bool>, bool, usize))
    requires
        distinct_imps(columns@),
        distinct_imps(rows@),
        cross_width(columns@, rows@),
        rows_cover_all(columns@, rows@),
        distinct_imps(cur@),
        sub_columns(cur@, columns@),
        chosen_ok(old(chosen)@, columns@, rows@),
    ensures
        r.0@.len() == cur@.len(),
        chosen_ok(final(chosen)@, columns@, rows@),
        marks_ok(r.0@, cur@, final(chosen)@),
        ess_selected(cur@, rows@, final(chosen)@),
        forall|t: int| 0 <= t < old(chosen)@.len() ==> final(chosen)@[t] == old(chosen)@[t],
        old(chosen)@.len() <= final(chosen)@.len(),
        fallback && cur@.len() > 0 ==> r.1,
        r.1 ==> r.2 < r.0@.len() && r.0@[r.2 as int],
{
    let ghost ch0 = old(chosen)@;
    let n = cur.len();
    let mut covered: Vec<bool> = vec![false; n];
    let mut found = false;
    let mut wit: usize = 0;
    let mut fb = fallback;
    proof {
        reveal(marks_ok);
        reveal(ess_selected);
        assert(marks_ok(covered@, cur@, chosen@));
        assert(ess_selected(cur@.take(0), rows@, chosen@));
    }
    let mut ci: usize = 0;
    while ci < n
        invariant
            n == cur@.len(),
            covered@.len() == n,
            ci <= n,
            distinct_imps(columns@),
            distinct_imps(rows@),
            cross_width(columns@, rows@),
            rows_cover_all(columns@, rows@),
            distinct_imps(cur@),
            sub_columns(cur@, columns@),
            chosen_ok(chosen@, columns@, rows@),
            marks_ok(covered@, cur@, chosen@),
            ess_selected(cur@.take(ci as int), rows@, chosen@),
            forall|t: int| 0 <= t < ch0.len() ==> chosen@[t] == ch0[t],
            ch0.len() <= chosen@.len(),
            fb == (fallback && !found),
            found ==> wit < n && covered@[wit as int],
            fallback && ci > 0 && n > 0 ==> found,
        decreases n - ci,
    {
        let ghost colv = cur@[ci as int]@;
        proof {
            lemma_sub_columns_member(cur@, columns@, ci as int);
            let k0 = choose|k0: int| #![auto] 0 <= k0 < columns@.len() && columns@[k0]@ == colv;
            assert forall|kk: int| 0 <= kk < rows@.len() implies (#[trigger] rows@[kk]@).len()
                == colv.len() by {
                assert(columns@[k0]@.len() == rows@[kk]@.len());
            }
        }
        let cv = covering_rows(rows, &cur[ci]);
        proof {
            if cv@.len() == 0 {
                let k0 = choose|k0: int|
                    #![auto]
                    0 <= k0 < columns@.len() && columns@[k0]@ == colv;
                assert(some_cover_in(rows@, columns@[k0]@));
                let l = choose|l: int| #![auto] 0 <= l < rows@.len() && covers(rows@[l]@, colv);
                assert(false);
            }
        }
        if cv.len() == 1 || fb {
            fb = false;
            found = true;
            wit = ci;
            let pidx = cv[0];
            let ghost pv = rows@[pidx as int]@;
            let ghost chprev = chosen@;
            proof {
                reveal(chosen_ok);
                assert(distinct_imps(chosen@));
            }
            let p = rows[pidx].clone();
            if !contains_imp(chosen, &p) {
                chosen.push(p);
                proof {
                    lemma_imp_set_push(chprev, chosen@[chosen@.len() - 1]);
                    lemma_distinct_push(chprev, chosen@[chosen@.len() - 1]);
                }
            }
            proof {
                assert(imp_set(chosen@).contains(pv));
                lemma_marks_mono(covered@, cur@, chprev, chosen@);
                lemma_ess_selected_mono(cur@.take(ci as int), rows@, chprev, chosen@);
                // the enlarged selection is still made of rows covering
                // original columns
                reveal(chosen_ok);
                assert forall|t: int| 0 <= t < chosen@.len() implies imp_set(rows@).contains(
                    (#[trigger] chosen@[t]@),
                ) by {
                    if t < chprev.len() {
                    } else {
                        lemma_imp_set_index(rows@, pidx as int);
                    }
                }
                assert forall|t: int| 0 <= t < chosen@.len() implies covers_one_of(
                    (#[trigger] chosen@[t])@,
                    columns@,
                ) by {
                    if t < chprev.len() {
                    } else {
                        let k0 = choose|k0: int|
                            #![auto]
                            0 <= k0 < columns@.len() && columns@[k0]@ == colv;
                        assert(0 <= k0 < columns@.len() && covers(chosen@[t]@, columns@[k0]@));
                    }
                }
            }
            let ghost covered0 = covered@;
            let mut cj: usize = 0;
            while cj < n
                invariant
                    n == cur@.len(),
                    covered@.len() == n,
                    cj <= n,
                    ci < n,
                    pidx < rows@.len(),
                    pv == rows@[pidx as int]@,
                    colv == cur@[ci as int]@,
                    covers(pv, colv),
                    imp_set(chosen@).contains(pv),
                    cross_width(columns@, rows@),
                    sub_columns(cur@, columns@),
                    marks_ok(covered@, cur@, chosen@),
                    cj > ci ==> covered@[ci as int],
                    wit == ci,
                    forall|cjj: int| 0 <= cjj < n && covered0[cjj] ==> covered@[cjj],
                decreases n - cj,
            {
                proof {
                    lemma_sub_columns_member(cur@, columns@, cj as int);
                    let k0 = choose|k0: int|
                        #![auto]
                        0 <= k0 < columns@.len() && columns@[k0]@ == cur@[cj as int]@;
                    assert(rows@[pidx as int]@.len() == cur@[cj as int]@.len());
                }
                if rows[pidx].containes(&cur[cj]) {
                    let ghost covprev = covered@;
                    covered[cj] = true;
                    proof {
                        reveal(marks_ok);
                        let tw = choose|t: int|
                            #![auto]
                            0 <= t < chosen@.len() && chosen@[t]@ == pv;
                        assert forall|cjj: int|
                            0 <= cjj < covered@.len() && covered@[cjj] implies some_cover_in(
                            chosen@,
                            (#[trigger] cur@[cjj])@,
                        ) by {
                            if cjj == cj as int {
                                assert(covers(chosen@[tw]@, cur@[cj as int]@));
                            } else {
                                assert(covprev[cjj]);
                            }
                        }
                    }
                }
                cj = cj + 1;
            }
            proof {
                assert(covered@[ci as int]);
            }
        }
        proof {
            // columns scanned so far admit no unselected unique cover
            reveal(ess_selected);
            let tk = cur@.take(ci as int + 1);
            assert forall|p: Seq<Tri>, cidx: int|
                0 <= cidx < tk.len() && imp_set(rows@).contains(p) && #[trigger] unique_cover(
                    imp_set(rows@),
                    p,
                    tk[cidx]@,
                ) implies imp_set(chosen@).contains(p) by {
                if cidx < ci as int {
                    assert(cur@.take(ci as int)[cidx] == tk[cidx]);
                    assert(unique_cover(imp_set(rows@), p, cur@.take(ci as int)[cidx]@));
                } else {
                    assert(tk[cidx]@ == colv);
                    let l = choose|l: int| #![auto] 0 <= l < rows@.len() && rows@[l]@ == p;
                    assert(covers(rows@[l]@, colv));
                    let t = choose|t: int| #![auto] 0 <= t < cv@.len() && cv@[t] == l;
                    if cv@.len() >= 2 {
                        let la = cv@[0];
                        let lb = cv@[1];
                        assert(la < lb);
                        assert(covers(rows@[la as int]@, colv));
                        assert(covers(rows@[lb as int]@, colv));
                        lemma_imp_set_index(rows@, la as int);
                        lemma_imp_set_index(rows@, lb as int);
                        assert(rows@[la as int]@ == p && rows@[lb as int]@ == p);
                        assert(false);
                    } else {
                        assert(cv@.len() == 1);
                        assert(t == 0);
                        assert(p == rows@[cv@[0] as int]@);
                        assert(imp_set(chosen@).contains(p));
                    }
                }
            }
        }
        ci = ci + 1;
    }
    proof {
        assert(cur@.take(n as int) =~= cur@);
    }
    (covered, found, wit)
}

/// Keep the columns not yet covered, in order, together with the index
/// each survivor came from.
fn retire(cur: &Vec<Imp>, covered: &Vec<bool>) -> (r: (Vec<Imp>, Vec<usize>))
    requires
        covered@.len() == cur@.len(),
        distinct_imps(cur@),
    ensures
        distinct_imps(r.0@),
        r.0@.len() <= cur@.len(),
        (exists|cj: int| #![auto] 0 <= cj < covered@.len() && covered@[cj]) ==> r.0@.len()
            < cur@.len(),
        forall|cj: int|
            0 <= cj < cur@.len() && !covered@[cj] ==> imp_set(r.0@).contains(
                (#[trigger] cur@[cj])@,
            ),
        r.1@.len() == r.0@.len(),
        forall|t: int|
            0 <= t < r.0@.len() ==> (#[trigger] r.1@[t]) < cur@.len() && !covered@[r.1@[t] as int]
                && r.0@[t]@ == cur@[r.1@[t] as int]@,
{
    let n = cur.len();
    let mut r: Vec<Imp> = Vec::new();
    let mut src: Vec<usize> = Vec::new();
    let ghost wit: int = if exists|cj: int| #![auto] 0 <= cj < covered@.len() && covered@[cj] {
        choose|cj: int| #![auto] 0 <= cj < covered@.len() && covered@[cj]
    } else {
        -1
    };
    let mut cj: usize = 0;
    while cj < n
        invariant
            n == cur@.len(),
            covered@.len() == n,
            cj <= n,
            distinct_imps(cur@),
            distinct_imps(r@),
            src@.len() == r@.len(),
            forall|t: int|
                0 <= t < r@.len() ==> (#[trigger] src@[t]) < cj && !covered@[src@[t] as int]
                    && r@[t]@ == cur@[src@[t] as int]@,
            forall|cjj: int|
                0 <= cjj < cj && !covered@[cjj] ==> imp_set(r@).contains((#[trigger] cur@[cjj])@),
            wit >= 0 ==> 0 <= wit < n && covered@[wit],
            r@.len() + (if 0 <= wit < cj {
                1int
            } else {
                0
            }) <= cj,
        decreases n - cj,
    {
        let ghost r0 = r@;
        if !covered[cj] {
            proof {
                if imp_set(r0).contains(cur@[cj as int]@) {
                    let t = choose|t: int| #![auto] 0 <= t < r0.len() && r0[t]@ == cur@[cj as int]@;
                    assert(cur@[src@[t] as int]@ == cur@[cj as int]@);
                }
            }
            let c = cur[cj].clone();
            r.push(c);
            src.push(cj);
            proof {
                lemma_imp_set_push(r0, r@[r@.len() - 1]);
                lemma_distinct_push(r0, r@[r@.len() - 1]);
                assert forall|cjj: int|
                    0 <= cjj < cj + 1 && !covered@[cjj] implies imp_set(r@).contains(
                    (#[trigger] cur@[cjj])@,
                ) by {
                    if cjj < cj {
                        assert(imp_set(r0).contains(cur@[cjj]@));
                    } else {
                        assert(r@[r@.len() - 1]@ == cur@[cj as int]@);
                        lemma_imp_set_index(r@, r@.len() - 1);
                    }
                }
            }
        }
        cj = cj + 1;
    }
    (r, src)
}


/// Select a covering subset of `rows` for the columns. Policy: repeatedly
/// scan the remaining uncovered columns; a column with exactly one
/// covering row makes that row essential and selects it; when a full scan
/// selects nothing while columns remain, the first covering row (in
/// vector order, the deterministic tie-break) of the first uncovered
/// column is selected instead. Every column a selected row covers is
/// retired, until none remain.
///
/// Every selected row is a row and covers at least one column, every
/// column is covered by a selected row, and every essential row
/// (`essential_of`, which depends only on the sets of rows and columns,
/// not on any scan order) is selected. The non-essential picks are the
/// documented fallback heuristic, not a minimum cover.
pub fn cover(columns: &Vec<Imp>, rows: &Vec<Imp>) -> (chosen: Vec<Imp>)
    requires
        distinct_imps(columns@),
        distinct_imps(rows@),
        cross_width(columns@, rows@),
        rows_cover_all(columns@, rows@),
    ensures
        distinct_imps(chosen@),
        forall|t: int| 0 <= t < chosen@.len() ==> imp_set(rows@).contains((#[trigger] chosen@[t]@)),
        forall|t: int| 0 <= t < chosen@.len() ==> covers_one_of((#[trigger] chosen@[t])@, columns@),
        forall|k: int| 0 <= k < columns@.len() ==> some_cover_in(chosen@, (#[trigger] columns@[k])@),
        forall|p: Seq<Tri>|
            #[trigger] essential_of(imp_set(columns@), imp_set(rows@)).contains(p) ==> imp_set(
                chosen@,
            ).contains(p),
{
    let mut cur: Vec<Imp> = clone_imps(columns);
    let mut chosen: Vec<Imp> = Vec::new();
    let mut fallback = false;
    proof {
        reveal(sub_columns);
        assert forall|t: int| 0 <= t < cur@.len() implies imp_set(columns@).contains(
            (#[trigger] cur@[t]@),
        ) by {
            lemma_imp_set_index(columns@, t);
        }
        reveal(chosen_ok);
        reveal(cols_state);
        assert forall|k: int|
            0 <= k < columns@.len() implies (imp_set(cur@).contains((#[trigger] columns@[k])@)
            || some_cover_in(chosen@, columns@[k]@)) by {
            lemma_imp_set_index(cur@, k);
        }
        reveal(ess_state);
        assert forall|p: Seq<Tri>, k: int|
            0 <= k < columns@.len() && imp_set(rows@).contains(p) && #[trigger] unique_cover(
                imp_set(rows@),
                p,
                columns@[k]@,
            ) implies (imp_set(chosen@).contains(p) || imp_set(cur@).contains(columns@[k]@)) by {
            lemma_imp_set_index(cur@, k);
        }
    }
    loop
        invariant
            distinct_imps(columns@),
            distinct_imps(rows@),
            cross_width(columns@, rows@),
            rows_cover_all(columns@, rows@),
            distinct_imps(cur@),
            sub_columns(cur@, columns@),
            chosen_ok(chosen@, columns@, rows@),
            cols_state(columns@, cur@, chosen@),
            ess_state(columns@, rows@, cur@, chosen@),
        ensures
            cur@.len() == 0,
        decreases 2 * cur@.len() + (if fallback {
            0int
        } else {
            1
        }),
    {
        let ghost m0 = 2 * cur@.len() + (if fallback {
            0int
        } else {
            1
        });
        if cur.len() == 0 {
            break ;
        }
        let ghost fb0 = fallback;
        let ghost cur0 = cur@;
        let ghost ch0 = chosen@;
        let (covered, found, wit) = cover_pass(columns, rows, &cur, &mut chosen, fallback);
        proof {
            lemma_cols_state_mono(columns@, cur@, ch0, chosen@);
            lemma_ess_state_mono(columns@, rows@, cur@, ch0, chosen@);
        }
        proof {
            if found {
                assert(0 <= wit < covered@.len() && covered@[wit as int]);
            }
        }
        let (newcur, src) = retire(&cur, &covered);
        proof {
            lemma_retire(columns@, rows@, cur@, newcur@, covered@, chosen@, src@);
        }
        fallback = !found;
        proof {
            if found {
                assert(newcur@.len() < cur@.len());
            } else {
                assert(!fb0);
            }
        }
        cur = newcur;
        proof {
            assert(2 * cur@.len() + (if fallback {
                0int
            } else {
                1
            }) < m0);
        }
    }
    proof {
        lemma_cover_final(columns@, rows@, cur@, chosen@);
    }
    chosen
}


/// Two to the power `n`.
pub open spec fn pow2(n: nat) -> nat
    decreases n,
{
    if n == 0 {
        1
    } else {
        2 * pow2((n - 1) as nat)
    }
}

/// Bit `i` of `t`, least-significant bit first.
pub open spec fn bit_of(t: nat, i: nat) -> bool {
    (t / pow2(i)) % 2 == 1
}

/// The truth-table row of assignment number `t` over `n` inputs: one
/// concrete ternary value per input, bit 0 first.
pub open spec fn minterm_of(t: nat, n: nat) -> Seq<Tri> {
    Seq::new(
        n,
        |i: int|
            if bit_of(t, i as nat) {
                Tri::T
            } else {
                Tri::F
            },
    )
}

/// The boolean assignment of number `t` over `n` inputs, bit 0 first.
pub open spec fn assign_of(t: nat, n: nat) -> Seq<bool> {
    Seq::new(n, |i: int| bit_of(t, i as nat))
}

/// The set of truth-table rows named by a list of assignment numbers.
pub open spec fn minterm_set(terms: Seq<usize>, n: nat) -> Set<Seq<Tri>> {
    Set::new(
        |s: Seq<Tri>|
            exists|k: int| #![auto] 0 <= k < terms.len() && s == minterm_of(terms[k] as nat, n),
    )
}

/// Powers of two are positive.
pub proof fn lemma_pow2_pos(n: nat)
    ensures
        pow2(n) >= 1,
    decreases n,
{
    if n > 0 {
        lemma_pow2_pos((n - 1) as nat);
    }
}

/// A truth-table row holds no don't-care.
pub proof fn lemma_minterm_concrete(t: nat, n: nat)
    ensures
        concrete(minterm_of(t, n)),
        minterm_of(t, n).len() == n,
{
}

/// A concrete implicant covers exactly itself.
pub proof fn lemma_concrete_cover_eq(m: Seq<Tri>, x: Seq<Tri>)
    requires
        concrete(m),
        covers(m, x),
    ensures
        m == x,
{
    assert(m =~= x);
}

/// Build the implicant of one truth-table row by peeling bits off the
/// assignment number.
pub fn term_to_imp(term: usize, n: usize) -> (r: Imp)
    ensures
        r@ == minterm_of(term as nat, n as nat),
{
    let mut v: Vec<Tri> = Vec::new();
    let mut rem = term;
    let mut i: usize = 0;
    proof {
        assert(pow2(0) == 1);
    }
    while i < n
        invariant
            i <= n,
            v@.len() == i,
            rem == term as nat / pow2(i as nat),
            forall|j: int|
                0 <= j < i ==> v@[j] == (if bit_of(term as nat, j as nat) {
                    Tri::T
                } else {
                    Tri::F
                }),
        decreases n - i,
    {
        v.push(
            if rem % 2 == 1 {
                Tri::T
            } else {
                Tri::F
            },
        );
        proof {
            lemma_pow2_pos(i as nat);
            vstd::arithmetic::div_mod::lemma_div_denominator(
                term as int,
                pow2(i as nat) as int,
                2,
            );
            assert(pow2(i as nat + 1) == 2 * pow2(i as nat));
        }
        rem = rem / 2;
        i = i + 1;
    }
    proof {
        assert(v@ =~= minterm_of(term as nat, n as nat));
    }
    Imp(v)
}

/// The number of non-don't-care positions: the literal count of the
/// product term.
pub open spec fn count_lit(s: Seq<Tri>) -> nat
    decreases s.len(),
{
    if s.len() == 0 {
        0
    } else {
        count_lit(s.drop_last()) + if s.last() is X {
            0nat
        } else {
            1nat
        }
    }
}

/// At most one literal per position.
proof fn lemma_count_lit_le_len(s: Seq<Tri>)
    ensures
        count_lit(s) <= s.len(),
    decreases s.len(),
{
    if s.len() > 0 {
        lemma_count_lit_le_len(s.drop_last());
    }
}

/// The total literal count of a list of implicants.
pub open spec fn lit_sum(v: Seq<Imp>) -> nat
    decreases v.len(),
{
    if v.len() == 0 {
        0
    } else {
        lit_sum(v.drop_last()) + count_lit(v.last()@)
    }
}

impl Imp {
    /// The number of non-don't-care positions of this implicant.
    pub fn literals(&self) -> (r: usize)
        ensures
            r == count_lit(self@),
    {
        let mut c: usize = 0;
        let mut i: usize = 0;
        while i < self.0.len()
            invariant
                i <= self.0.len(),
                c == count_lit(self@.take(i as int)),
                c <= i,
            decreases self.0.len() - i,
        {
            proof {
                assert(self@.take(i as int + 1).drop_last() =~= self@.take(i as int));
                assert(self@.take(i as int + 1).last() == self@[i as int]);
            }
            match self.0[i] {
                Tri::X => {},
                _ => {
                    c = c + 1;
                },
            }
            i = i + 1;
        }
        proof {
            assert(self@.take(self@.len() as int) =~= self@);
        }
        c
    }
}

/// Idempotence of the merge step: a generation that produces no merges is
/// retained unchanged, and the next generation is empty again.
pub proof fn lemma_merge_fixpoint(g: Set<Seq<Tri>>)
    requires
        merges_of(g) == Set::<Seq<Tri>>::empty(),
    ensures
        kept_of(g) == g,
{
    assert forall|a: Seq<Tri>| g.contains(a) implies kept_of(g).contains(a) by {
        if has_partner(g, a) {
            let b = choose|b: Seq<Tri>| #[trigger] g.contains(b) && b != a && can_merge(a, b);
            assert(merges_of(g).contains(merge_result(a, b)));
        }
    }
    assert(kept_of(g) =~= g);
}

/// Essential-implicant selection is order-independent: which rows are
/// essential depends only on the sets of columns and rows, never on the
/// order either vector lists them in.
pub proof fn lemma_essential_order_independent(
    cols1: Seq<Imp>,
    cols2: Seq<Imp>,
    rows1: Seq<Imp>,
    rows2: Seq<Imp>,
)
    requires
        imp_set(cols1) == imp_set(cols2),
        imp_set(rows1) == imp_set(rows2),
    ensures
        essential_of(imp_set(cols1), imp_set(rows1)) == essential_of(imp_set(cols2), imp_set(rows2)),
{
}


/// How many of the listed primes are essential for the given columns.
pub open spec fn count_ess(primes: Seq<Imp>, cols: Set<Seq<Tri>>, rows: Set<Seq<Tri>>) -> nat
    decreases primes.len(),
{
    if primes.len() == 0 {
        0
    } else {
        count_ess(primes.drop_last(), cols, rows) + if essential_of(cols, rows).contains(
            primes.last()@,
        ) {
            1nat
        } else {
            0nat
        }
    }
}

/// Whether prime number `t` is the unique cover of some column.
fn is_essential(primes: &Vec<Imp>, cols: &Vec<Imp>, t: usize) -> (r: bool)
    requires
        t < primes@.len(),
        distinct_imps(primes@),
        cross_width(cols@, primes@),
    ensures
        r == essential_of(imp_set(cols@), imp_set(primes@)).contains(primes@[t as int]@),
{
    let ghost pv = primes@[t as int]@;
    let mut ci: usize = 0;
    while ci < cols.len()
        invariant
            ci <= cols@.len(),
            t < primes@.len(),
            pv == primes@[t as int]@,
            distinct_imps(primes@),
            cross_width(cols@, primes@),
            forall|cj: int|
                0 <= cj < ci ==> !unique_cover(imp_set(primes@), pv, (#[trigger] cols@[cj])@),
        decreases cols@.len() - ci,
    {
        let cv = covering_rows(primes, &cols[ci]);
        if cv.len() == 1 {
            let l = cv[0];
            if l == t {
                proof {
                    assert(covers(primes@[t as int]@, cols@[ci as int]@));
                    assert forall|q: Seq<Tri>|
                        imp_set(primes@).contains(q) && covers(
                            q,
                            cols@[ci as int]@,
                        ) implies q == pv by {
                        let kq = choose|kq: int|
                            #![auto]
                            0 <= kq < primes@.len() && primes@[kq]@ == q;
                        let tt = choose|tt: int| #![auto] 0 <= tt < cv@.len() && cv@[tt] == kq;
                        assert(tt == 0);
                    }
                    assert(unique_cover(imp_set(primes@), pv, cols@[ci as int]@));
                    lemma_imp_set_index(cols@, ci as int);
                    assert(imp_set(cols@).contains(cols@[ci as int]@) && unique_cover(
                        imp_set(primes@),
                        pv,
                        cols@[ci as int]@,
                    ));
                }
                return true;
            }
        }
        proof {
            assert forall|cj: int|
                0 <= cj < ci + 1 implies !unique_cover(
                imp_set(primes@),
                pv,
                (#[trigger] cols@[cj])@,
            ) by {
                if cj == ci as int {
                    if unique_cover(imp_set(primes@), pv, cols@[ci as int]@) {
                        lemma_imp_set_index(primes@, t as int);
                        assert(covers(pv, cols@[ci as int]@));
                        let tt = choose|tt: int| #![auto] 0 <= tt < cv@.len() && cv@[tt] == t;
                        assert forall|t2: int| 0 <= t2 < cv@.len() implies cv@[t2] == t by {
                            lemma_imp_set_index(primes@, cv@[t2] as int);
                            assert(covers(primes@[cv@[t2] as int]@, cols@[ci as int]@));
                            assert(primes@[cv@[t2] as int]@ == pv);
                        }
                        if cv@.len() >= 2 {
                            assert(cv@[0] == t && cv@[1] == t);
                            assert(cv@[0] < cv@[1]);
                            assert(false);
                        } else {
                            assert(cv@.len() == 1 && cv@[0] == t);
                            assert(false);
                        }
                    }
                }
            }
        }
        ci = ci + 1;
    }
    proof {
        if essential_of(imp_set(cols@), imp_set(primes@)).contains(pv) {
            let c = choose|c: Seq<Tri>|
                #![auto]
                imp_set(cols@).contains(c) && unique_cover(imp_set(primes@), pv, c);
            let k = choose|k: int| #![auto] 0 <= k < cols@.len() && cols@[k]@ == c;
            assert(!unique_cover(imp_set(primes@), pv, cols@[k]@));
        }
    }
    false
}

/// Count the essential primes among the listed primes.
fn count_essentials(primes: &Vec<Imp>, cols: &Vec<Imp>) -> (c: usize)
    requires
        distinct_imps(primes@),
        cross_width(cols@, primes@),
    ensures
        c == count_ess(primes@, imp_set(cols@), imp_set(primes@)),
{
    let mut c: usize = 0;
    let mut t: usize = 0;
    while t < primes.len()
        invariant
            t <= primes@.len(),
            distinct_imps(primes@),
            cross_width(cols@, primes@),
            c == count_ess(primes@.take(t as int), imp_set(cols@), imp_set(primes@)),
            c <= t,
        decreases primes@.len() - t,
    {
        proof {
            assert(primes@.take(t as int + 1).drop_last() =~= primes@.take(t as int));
            assert(primes@.take(t as int + 1).last() == primes@[t as int]);
        }
        if is_essential(primes, cols, t) {
            c = c + 1;
        }
        t = t + 1;
    }
    proof {
        assert(primes@.take(primes@.len() as int) =~= primes@);
    }
    c
}

/// The total literal count of the listed implicants.
fn sum_literals(v: &Vec<Imp>) -> (r: u128)
    ensures
        r == lit_sum(v@),
{
    let mut acc: u128 = 0;
    let mut i: usize = 0;
    while i < v.len()
        invariant
            i <= v@.len(),
            acc == lit_sum(v@.take(i as int)),
            acc <= i as u128 * 0xffff_ffff_ffff_ffffu128,
        decreases v@.len() - i,
    {
        proof {
            assert(v@.take(i as int + 1).drop_last() =~= v@.take(i as int));
            assert(v@.take(i as int + 1).last() == v@[i as int]);
        }
        let x = v[i].literals();
        proof {
            assert(i as u128 * 0xffff_ffff_ffff_ffffu128 <= 0xffff_ffff_ffff_ffffu128
                * 0xffff_ffff_ffff_ffffu128) by {
                vstd::arithmetic::mul::lemma_mul_inequality(
                    i as int,
                    0xffff_ffff_ffff_ffff,
                    0xffff_ffff_ffff_ffff,
                );
            }
        }
        acc = acc + x as u128;
        i = i + 1;
    }
    proof {
        assert(v@.take(v@.len() as int) =~= v@);
    }
    acc
}


/// The reported result of one minimization run.
#[derive(Debug)]
pub struct Report {
    /// The deduplicated canonical on-set: one concrete implicant per
    /// distinct requested assignment number.
    pub onset: Vec<Imp>,
    /// All prime implicants derived from the on-set.
    pub primes: Vec<Imp>,
    /// The covering subset selected from the primes: essential primes
    /// first, arbitrary (first-candidate) fallback picks after.
    pub chosen: Vec<Imp>,
    /// How many primes are essential.
    pub essentials: usize,
    /// Literal savings of the chosen cover versus the canonical on-set.
    pub savings: u128,
}

/// Minimize the boolean function whose on-set is the given list of
/// assignment numbers over `n` inputs: build the canonical on-set,
/// reduce it to the prime implicants, and select an essential-first
/// cover.
#[verifier::rlimit(50)]
pub fn minimize(minterms: &Vec<usize>, n: usize) -> (r: Report)
    ensures
        imp_set(r.onset@) == minterm_set(minterms@, n as nat),
        distinct_imps(r.onset@),
        uniform_w(r.onset@, n as nat),
        distinct_imps(r.primes@),
        uniform_w(r.primes@, n as nat),
        unmergeable(imp_set(r.primes@)),
        forall|k: int|
            0 <= k < r.onset@.len() ==> some_cover_in(r.primes@, (#[trigger] r.onset@[k])@),
        distinct_imps(r.chosen@),
        forall|t: int|
            0 <= t < r.chosen@.len() ==> imp_set(r.primes@).contains((#[trigger] r.chosen@[t]@)),
        forall|k: int|
            0 <= k < minterms@.len() ==> some_cover_in(
                r.chosen@,
                minterm_of((#[trigger] minterms@[k]) as nat, n as nat),
            ),
        forall|t: int, x: Seq<Tri>|
            #![trigger covers(r.chosen@[t]@, x)]
            0 <= t < r.chosen@.len() && covers(r.chosen@[t]@, x) && concrete(x) ==> minterm_set(
                minterms@,
                n as nat,
            ).contains(x),
        forall|p: Seq<Tri>|
            #[trigger] essential_of(imp_set(r.onset@), imp_set(r.primes@)).contains(p) ==> imp_set(
                r.chosen@,
            ).contains(p),
        r.essentials == count_ess(r.primes@, imp_set(r.onset@), imp_set(r.primes@)),
        r.savings == if lit_sum(r.onset@) >= lit_sum(r.chosen@) {
            lit_sum(r.onset@) - lit_sum(r.chosen@)
        } else {
            0
        },
{
    let ghost ms = minterm_set(minterms@, n as nat);
    let mut cols: Vec<Imp> = Vec::new();
    let mut i: usize = 0;
    proof {
        assert(imp_set(cols@) =~= minterm_set(minterms@.take(0), n as nat)) by {
            assert forall|s: Seq<Tri>| !imp_set(cols@).contains(s) by {
                if imp_set(cols@).contains(s) {
                    let k = choose|k: int| #![auto] 0 <= k < cols@.len() && cols@[k]@ == s;
                }
            }
            assert forall|s: Seq<Tri>| !minterm_set(minterms@.take(0), n as nat).contains(s) by {
                if minterm_set(minterms@.take(0), n as nat).contains(s) {
                    let k = choose|k: int|
                        #![auto]
                        0 <= k < minterms@.take(0).len() && s == minterm_of(
                            minterms@.take(0)[k] as nat,
                            n as nat,
                        );
                }
            }
        }
    }
    while i < minterms.len()
        invariant
            i <= minterms@.len(),
            distinct_imps(cols@),
            uniform_w(cols@, n as nat),
            imp_set(cols@) == minterm_set(minterms@.take(i as int), n as nat),
        decreases minterms@.len() - i,
    {
        let imp = term_to_imp(minterms[i], n);
        let ghost cols0 = cols@;
        let ghost tv = minterms@[i as int] as nat;
        if !contains_imp(&cols, &imp) {
            cols.push(imp);
            proof {
                lemma_imp_set_push(cols0, cols@[cols@.len() - 1]);
                lemma_distinct_push(cols0, cols@[cols@.len() - 1]);
                lemma_minterm_concrete(tv, n as nat);
            }
        }
        proof {
            assert(imp_set(cols@) =~= minterm_set(minterms@.take(i as int + 1), n as nat)) by {
                let t0 = minterms@.take(i as int);
                let t1 = minterms@.take(i as int + 1);
                assert forall|s: Seq<Tri>|
                    imp_set(cols@).contains(s) implies minterm_set(t1, n as nat).contains(s) by {
                    if imp_set(cols0).contains(s) {
                        assert(minterm_set(t0, n as nat).contains(s));
                        let k = choose|k: int|
                            #![auto]
                            0 <= k < t0.len() && s == minterm_of(t0[k] as nat, n as nat);
                        assert(t1[k] == t0[k]);
                        assert(0 <= k < t1.len() && s == minterm_of(t1[k] as nat, n as nat));
                    } else {
                        assert(s == minterm_of(tv, n as nat));
                        assert(t1[i as int] == minterms@[i as int]);
                        let ki = i as int;
                        assert(0 <= ki && ki < t1.len() && s == minterm_of(
                            t1[ki] as nat,
                            n as nat,
                        ));
                    }
                }
                assert forall|s: Seq<Tri>|
                    minterm_set(t1, n as nat).contains(s) implies imp_set(cols@).contains(s) by {
                    let k = choose|k: int|
                        #![auto]
                        0 <= k < t1.len() && s == minterm_of(t1[k] as nat, n as nat);
                    if k < i as int {
                        assert(t0[k] == t1[k]);
                        assert(0 <= k < t0.len() && s == minterm_of(t0[k] as nat, n as nat));
                        assert(minterm_set(t0, n as nat).contains(s));
                        assert(imp_set(cols0).contains(s));
                        if !imp_set(cols0).contains(imp@) {
                            assert(imp_set(cols@) == imp_set(cols0).insert(imp@));
                        }
                    } else {
                        assert(s == minterm_of(tv, n as nat));
                        if imp_set(cols0).contains(imp@) {
                            assert(imp_set(cols@).contains(imp@));
                        } else {
                            assert(imp_set(cols@) == imp_set(cols0).insert(imp@));
                        }
                    }
                }
            }
            assert forall|t: int| 0 <= t < cols@.len() implies (#[trigger] cols@[t]@).len()
                == n as nat by {
                lemma_imp_set_index(cols@, t);
                let tms = minterms@.take(i as int + 1);
                assert(minterm_set(tms, n as nat).contains(cols@[t]@));
                let k = choose|k: int|
                    #![auto]
                    0 <= k < tms.len() && cols@[t]@ == minterm_of(tms[k] as nat, n as nat);
            }
        }
        i = i + 1;
    }
    proof {
        assert(minterms@.take(minterms@.len() as int) =~= minterms@);
        assert(imp_set(cols@) == ms);
        // the on-set rows are concrete
        assert forall|m: Seq<Tri>| imp_set(cols@).contains(m) implies concrete(m) by {
            let k = choose|k: int|
                #![auto]
                0 <= k < minterms@.len() && m == minterm_of(minterms@[k] as nat, n as nat);
            lemma_minterm_concrete(minterms@[k] as nat, n as nat);
        }
        assert(all_concrete(imp_set(cols@)));
        assert forall|k: int, l: int|
            #![auto]
            0 <= k < cols@.len() && 0 <= l < cols@.len() implies cols@[k]@.len()
            == cols@[l]@.len() by {
            assert(uniform_w(cols@, n as nat));
        }
    }
    let primes = reduce(&cols);
    proof {
        assert(uniform_w(cols@, n as nat));
        assert(uniform_w(primes@, n as nat));
        assert forall|k: int, l: int|
            #![auto]
            0 <= k < cols@.len() && 0 <= l < primes@.len() implies cols@[k]@.len()
            == primes@[l]@.len() by {
            assert(cols@[k]@.len() == n as nat);
            assert(primes@[l]@.len() == n as nat);
        }
        assert forall|k: int| 0 <= k < cols@.len() implies some_cover_in(
            primes@,
            (#[trigger] cols@[k])@,
        ) by {
            lemma_imp_set_index(cols@, k);
            assert(imp_set(cols@).contains(cols@[k]@));
        }
    }
    let chosen = cover(&cols, &primes);
    let essentials = count_essentials(&primes, &cols);
    let canon = sum_literals(&cols);
    let cho = sum_literals(&chosen);
    let savings = if canon >= cho {
        canon - cho
    } else {
        0
    };
    proof {
        // coverage of the requested minterms through the on-set
        assert forall|k: int| 0 <= k < minterms@.len() implies some_cover_in(
            chosen@,
            minterm_of((#[trigger] minterms@[k]) as nat, n as nat),
        ) by {
            let m = minterm_of(minterms@[k] as nat, n as nat);
            assert(ms.contains(m));
            let kk = choose|kk: int| #![auto] 0 <= kk < cols@.len() && cols@[kk]@ == m;
            assert(some_cover_in(chosen@, cols@[kk]@));
        }
        // nothing outside the requested on-set is covered
        assert forall|t: int, x: Seq<Tri>|
            0 <= t < chosen@.len() && #[trigger] covers(chosen@[t]@, x) && concrete(
                x,
            ) implies ms.contains(x) by {
            assert(imp_set(primes@).contains(chosen@[t]@));
            let l = choose|l: int| #![auto] 0 <= l < primes@.len() && primes@[l]@ == chosen@[t]@;
            assert(covers(primes@[l]@, x));
            assert(some_cover_in(cols@, x));
            let km = choose|km: int| #![auto] 0 <= km < cols@.len() && covers(cols@[km]@, x);
            lemma_imp_set_index(cols@, km);
            assert(concrete(cols@[km]@));
            lemma_concrete_cover_eq(cols@[km]@, x);
        }
    }
    Report { onset: cols, primes, chosen, essentials, savings }
}

} // verus!
