//! Structural comparison and merging of terms, used to share common
//! subterms when several extracted terms are combined.
use crate::cost::{klut_op_cost, saturate, KLUTCostFn, INFINITE_COST};
use crate::lut::{wf_expr, LutLang};
use crate::verilog::extends;
use vstd::prelude::*;

verus! {

/// The two nodes have the same operator and the same payload; their children
/// are not compared.
pub open spec fn same_op(x: LutLang, y: LutLang) -> bool {
    match (x, y) {
        (LutLang::Const(a), LutLang::Const(b)) => a == b,
        (LutLang::Program(a), LutLang::Program(b)) => a == b,
        (LutLang::Var(a), LutLang::Var(b)) => a@ == b@,
        (LutLang::DC, LutLang::DC) => true,
        (LutLang::Lut(_), LutLang::Lut(_)) => true,
        (LutLang::Bus(_), LutLang::Bus(_)) => true,
        (LutLang::Reg(_), LutLang::Reg(_)) => true,
        (LutLang::And(..), LutLang::And(..)) => true,
        (LutLang::Nor(..), LutLang::Nor(..)) => true,
        (LutLang::Xor(..), LutLang::Xor(..)) => true,
        (LutLang::Mux(..), LutLang::Mux(..)) => true,
        (LutLang::Not(_), LutLang::Not(_)) => true,
        (LutLang::Arg(a), LutLang::Arg(b)) => a == b,
        (LutLang::Cycle(a), LutLang::Cycle(b)) => a == b,
        _ => false,
    }
}

/// Node `a` of `ae` and node `b` of `be` denote the same term.
pub open spec fn deep_eq(ae: Seq<LutLang>, a: int, be: Seq<LutLang>, b: int) -> bool
    decreases a, 2int, 0int,
{
    &&& 0 <= a < ae.len()
    &&& 0 <= b < be.len()
    &&& same_op(ae[a], be[b])
    &&& ae[a].children().len() == be[b].children().len()
    &&& kids_eq(ae, a, be, b, ae[a].children().len() as int)
}

/// The first `n` children of node `a` of `ae` and of node `b` of `be` denote
/// the same terms.
pub open spec fn kids_eq(ae: Seq<LutLang>, a: int, be: Seq<LutLang>, b: int, n: int) -> bool
    decreases a, 1int, n,
{
    if n <= 0 {
        true
    } else if 0 <= a < ae.len() && 0 <= b < be.len() && n <= ae[a].children().len() && n
        <= be[b].children().len() {
        let c = ae[a].children()[n - 1] as int;
        let d = be[b].children()[n - 1] as int;
        kids_eq(ae, a, be, b, n - 1) && 0 <= c < a && deep_eq(ae, c, be, d)
    } else {
        false
    }
}

/// Equal terms stay equal when either term grows at its end.
pub proof fn lemma_deep_eq_extend(
    ae: Seq<LutLang>,
    ae2: Seq<LutLang>,
    a: int,
    be: Seq<LutLang>,
    be2: Seq<LutLang>,
    b: int,
)
    requires
        extends(ae, ae2),
        extends(be, be2),
        deep_eq(ae, a, be, b),
    ensures
        deep_eq(ae2, a, be2, b),
    decreases a, 2int, 0int,
{
    assert(ae2[a] == ae2.subrange(0, ae.len() as int)[a]);
    assert(be2[b] == be2.subrange(0, be.len() as int)[b]);
    lemma_kids_eq_extend(ae, ae2, a, be, be2, b, ae[a].children().len() as int);
}

proof fn lemma_kids_eq_extend(
    ae: Seq<LutLang>,
    ae2: Seq<LutLang>,
    a: int,
    be: Seq<LutLang>,
    be2: Seq<LutLang>,
    b: int,
    n: int,
)
    requires
        extends(ae, ae2),
        extends(be, be2),
        kids_eq(ae, a, be, b, n),
    ensures
        kids_eq(ae2, a, be2, b, n),
    decreases a, 1int, n,
{
    if n > 0 {
        assert(ae2[a] == ae2.subrange(0, ae.len() as int)[a]);
        assert(be2[b] == be2.subrange(0, be.len() as int)[b]);
        lemma_kids_eq_extend(ae, ae2, a, be, be2, b, n - 1);
        let c = ae[a].children()[n - 1] as int;
        let d = be[b].children()[n - 1] as int;
        lemma_deep_eq_extend(ae, ae2, c, be, be2, d);
    }
}

/// Equal terms restricted to a prefix that holds them stay equal.
pub proof fn lemma_deep_eq_shrink(ae: Seq<LutLang>, ae2: Seq<LutLang>, a: int, be: Seq<LutLang>, b: int)
    requires
        extends(ae, ae2),
        0 <= a < ae.len(),
        deep_eq(ae2, a, be, b),
    ensures
        deep_eq(ae, a, be, b),
    decreases a, 2int, 0int,
{
    assert(ae2[a] == ae2.subrange(0, ae.len() as int)[a]);
    lemma_kids_eq_shrink(ae, ae2, a, be, b, ae[a].children().len() as int);
}

proof fn lemma_kids_eq_shrink(ae: Seq<LutLang>, ae2: Seq<LutLang>, a: int, be: Seq<LutLang>, b: int, n: int)
    requires
        extends(ae, ae2),
        0 <= a < ae.len(),
        kids_eq(ae2, a, be, b, n),
    ensures
        kids_eq(ae, a, be, b, n),
    decreases a, 1int, n,
{
    if n > 0 {
        assert(ae2[a] == ae2.subrange(0, ae.len() as int)[a]);
        lemma_kids_eq_shrink(ae, ae2, a, be, b, n - 1);
        let c = ae[a].children()[n - 1] as int;
        lemma_deep_eq_shrink(ae, ae2, c, be, be[b].children()[n - 1] as int);
    }
}

proof fn lemma_deep_eq_sym_shrink(e: Seq<LutLang>, e2: Seq<LutLang>, x: int, y: int)
    requires
        extends(e, e2),
        wf_expr(e),
        0 <= x < y < e.len(),
        deep_eq(e, x, e2, y),
    ensures
        deep_eq(e, x, e, y),
{
    assert(extends(e, e)) by {
        assert(e.subrange(0, e.len() as int) =~= e);
    }
    lemma_deep_eq_shrink_right(e, x, e, e2, y);
}

/// Equal terms restricted, on the right, to a prefix that holds them stay equal.
pub proof fn lemma_deep_eq_shrink_right(ae: Seq<LutLang>, a: int, be: Seq<LutLang>, be2: Seq<LutLang>, b: int)
    requires
        extends(be, be2),
        wf_expr(be),
        0 <= b < be.len(),
        deep_eq(ae, a, be2, b),
    ensures
        deep_eq(ae, a, be, b),
    decreases a, 2int, 0int,
{
    assert(be2[b] == be2.subrange(0, be.len() as int)[b]);
    lemma_kids_eq_shrink_right(ae, a, be, be2, b, ae[a].children().len() as int);
}

proof fn lemma_kids_eq_shrink_right(ae: Seq<LutLang>, a: int, be: Seq<LutLang>, be2: Seq<LutLang>, b: int, n: int)
    requires
        extends(be, be2),
        wf_expr(be),
        0 <= b < be.len(),
        kids_eq(ae, a, be2, b, n),
    ensures
        kids_eq(ae, a, be, b, n),
    decreases a, 1int, n,
{
    if n > 0 {
        assert(be2[b] == be2.subrange(0, be.len() as int)[b]);
        lemma_kids_eq_shrink_right(ae, a, be, be2, b, n - 1);
        let d = be[b].children()[n - 1] as int;
        assert(d < b);
        lemma_deep_eq_shrink_right(ae, ae[a].children()[n - 1] as int, be, be2, d);
    }
}

/// Term equality is transitive.
pub proof fn lemma_deep_eq_trans(x: Seq<LutLang>, a: int, y: Seq<LutLang>, b: int, z: Seq<LutLang>, c: int)
    requires
        deep_eq(x, a, y, b),
        deep_eq(y, b, z, c),
    ensures
        deep_eq(x, a, z, c),
    decreases a, 2int, 0int,
{
    lemma_kids_eq_trans(x, a, y, b, z, c, x[a].children().len() as int);
}

proof fn lemma_kids_eq_trans(x: Seq<LutLang>, a: int, y: Seq<LutLang>, b: int, z: Seq<LutLang>, c: int, n: int)
    requires
        kids_eq(x, a, y, b, n),
        kids_eq(y, b, z, c, n),
    ensures
        kids_eq(x, a, z, c, n),
    decreases a, 1int, n,
{
    if n > 0 {
        lemma_kids_eq_trans(x, a, y, b, z, c, n - 1);
        lemma_deep_eq_trans(
            x,
            x[a].children()[n - 1] as int,
            y,
            y[b].children()[n - 1] as int,
            z,
            z[c].children()[n - 1] as int,
        );
    }
}

/// Node `j` of `e` denotes the same term as some node of the terms `src`.
pub open spec fn denotes_input(e: Seq<LutLang>, j: int, src: Seq<Vec<LutLang>>) -> bool {
    exists|k: int, b: int| 0 <= k < src.len() && 0 <= b < src[k]@.len() && deep_eq(e, j, src[k]@, b)
}

/// The two nodes have the same operator, payload and number of children.
pub open spec fn same_shape(x: LutLang, y: LutLang) -> bool {
    same_op(x, y) && x.children().len() == y.children().len()
}

/// Each node of `e` has the shape of some node of the terms `src`.
pub open spec fn nodes_from(e: Seq<LutLang>, src: Seq<Vec<LutLang>>) -> bool {
    forall|i: int|
        0 <= i < e.len() ==> exists|k: int, j: int|
            0 <= k < src.len() && 0 <= j < src[k]@.len() && same_shape(#[trigger] e[i], src[k]@[j])
}

fn same_node_op(x: &LutLang, y: &LutLang) -> (r: bool)
    ensures
        r == same_op(*x, *y),
{
    match (x, y) {
        (LutLang::Const(a), LutLang::Const(b)) => *a == *b,
        (LutLang::Program(a), LutLang::Program(b)) => *a == *b,
        (LutLang::Var(a), LutLang::Var(b)) => crate::text::str_eq(a.as_str(), b.as_str()),
        (LutLang::DC, LutLang::DC) => true,
        (LutLang::Lut(_), LutLang::Lut(_)) => true,
        (LutLang::Bus(_), LutLang::Bus(_)) => true,
        (LutLang::Reg(_), LutLang::Reg(_)) => true,
        (LutLang::And(..), LutLang::And(..)) => true,
        (LutLang::Nor(..), LutLang::Nor(..)) => true,
        (LutLang::Xor(..), LutLang::Xor(..)) => true,
        (LutLang::Mux(..), LutLang::Mux(..)) => true,
        (LutLang::Not(_), LutLang::Not(_)) => true,
        (LutLang::Arg(a), LutLang::Arg(b)) => *a == *b,
        (LutLang::Cycle(a), LutLang::Cycle(b)) => *a == *b,
        _ => false,
    }
}

/// Whether node `a` of `a_e` and node `b` of `b_e` denote the same term.
pub fn deep_equals(a: usize, a_e: &Vec<LutLang>, b: usize, b_e: &Vec<LutLang>) -> (r: bool)
    requires
        wf_expr(a_e@),
        a < a_e@.len(),
        b < b_e@.len(),
    ensures
        r == deep_eq(a_e@, a as int, b_e@, b as int),
    decreases a,
{
    let an = &a_e[a];
    let bn = &b_e[b];
    if !same_node_op(an, bn) {
        return false;
    }
    let ac = an.children_vec();
    let bc = bn.children_vec();
    if ac.len() != bc.len() {
        return false;
    }
    let mut i: usize = 0;
    while i < ac.len()
        invariant
            wf_expr(a_e@),
            a < a_e@.len(),
            b < b_e@.len(),
            ac@ == a_e@[a as int].children(),
            bc@ == b_e@[b as int].children(),
            ac@.len() == bc@.len(),
            i <= ac@.len(),
            kids_eq(a_e@, a as int, b_e@, b as int, i as int),
        decreases ac@.len() - i,
    {
        let c = ac[i];
        let d = bc[i];
        assert(a_e@[a as int].children()[i as int] < a);
        if d >= b_e.len() || !deep_equals(c, a_e, d, b_e) {
            proof {
                if deep_eq(a_e@, a as int, b_e@, b as int) {
                    lemma_kids_eq_prefix(a_e@, a as int, b_e@, b as int, i as int, ac@.len() as int);
                }
            }
            return false;
        }
        i = i + 1;
    }
    true
}

proof fn lemma_kids_eq_prefix(ae: Seq<LutLang>, a: int, be: Seq<LutLang>, b: int, i: int, n: int)
    requires
        0 <= i < n,
        kids_eq(ae, a, be, b, n),
    ensures
        deep_eq(ae, ae[a].children()[i] as int, be, be[b].children()[i] as int),
    decreases n,
{
    if i < n - 1 {
        lemma_kids_eq_prefix(ae, a, be, b, i, n - 1);
    }
}

fn remap_ids(l: &Vec<usize>, remap: &Vec<usize>) -> (v: Vec<usize>)
    requires
        forall|j: int| 0 <= j < l@.len() ==> #[trigger] l@[j] < remap@.len(),
    ensures
        v@.len() == l@.len(),
        forall|j: int| 0 <= j < l@.len() ==> #[trigger] v@[j] == remap@[l@[j] as int],
{
    let mut v: Vec<usize> = Vec::new();
    let mut i: usize = 0;
    while i < l.len()
        invariant
            i <= l@.len(),
            v@.len() == i,
            forall|j: int| 0 <= j < l@.len() ==> #[trigger] l@[j] < remap@.len(),
            forall|j: int| 0 <= j < i ==> #[trigger] v@[j] == remap@[l@[j] as int],
        decreases l@.len() - i,
    {
        v.push(remap[l[i]]);
        i = i + 1;
    }
    v
}

/// `n` with each child `c` replaced by `remap[c]`.
fn with_children(n: &LutLang, remap: &Vec<usize>) -> (r: LutLang)
    requires
        forall|i: int| 0 <= i < n.children().len() ==> #[trigger] n.children()[i] < remap@.len(),
    ensures
        same_op(r, *n),
        r.children().len() == n.children().len(),
        forall|i: int| 0 <= i < n.children().len() ==> #[trigger] r.children()[i] == remap@[n.children()[i] as int],
{
    match n {
        LutLang::Lut(l) => {
            assert(n.children() == l@);
            LutLang::Lut(remap_ids(l, remap))
        },
        LutLang::Bus(l) => {
            assert(n.children() == l@);
            LutLang::Bus(remap_ids(l, remap))
        },
        LutLang::Reg(d) => {
            assert(n.children()[0] == *d);
            LutLang::Reg(remap[*d])
        },
        LutLang::And(a, b) => {
            assert(n.children()[0] == *a && n.children()[1] == *b);
            LutLang::And(remap[*a], remap[*b])
        },
        LutLang::Nor(a, b) => {
            assert(n.children()[0] == *a && n.children()[1] == *b);
            LutLang::Nor(remap[*a], remap[*b])
        },
        LutLang::Xor(a, b) => {
            assert(n.children()[0] == *a && n.children()[1] == *b);
            LutLang::Xor(remap[*a], remap[*b])
        },
        LutLang::Mux(c, a, b) => {
            assert(n.children()[0] == *c && n.children()[1] == *a && n.children()[2] == *b);
            LutLang::Mux(remap[*c], remap[*a], remap[*b])
        },
        LutLang::Not(a) => {
            assert(n.children()[0] == *a);
            LutLang::Not(remap[*a])
        },
        LutLang::Const(b) => LutLang::Const(*b),
        LutLang::Program(p) => LutLang::Program(*p),
        LutLang::Var(v) => LutLang::Var(v.clone()),
        LutLang::DC => LutLang::DC,
        LutLang::Arg(a) => LutLang::Arg(*a),
        LutLang::Cycle(a) => LutLang::Cycle(*a),
    }
}

/// The two nodes are the same but for how their children are stored.
pub open spec fn node_eq(x: LutLang, y: LutLang) -> bool {
    same_op(x, y) && x.children() == y.children()
}

fn copy_ids(l: &Vec<usize>) -> (v: Vec<usize>)
    ensures
        v@ == l@,
{
    let mut v: Vec<usize> = Vec::new();
    let mut i: usize = 0;
    while i < l.len()
        invariant
            i <= l@.len(),
            v@ == l@.subrange(0, i as int),
        decreases l@.len() - i,
    {
        v.push(l[i]);
        i = i + 1;
        assert(v@ =~= l@.subrange(0, i as int));
    }
    assert(v@ =~= l@);
    v
}

/// A copy of `n`.
pub fn copy_node(n: &LutLang) -> (r: LutLang)
    ensures
        node_eq(r, *n),
{
    match n {
        LutLang::Lut(l) => LutLang::Lut(copy_ids(l)),
        LutLang::Bus(l) => LutLang::Bus(copy_ids(l)),
        LutLang::Reg(d) => LutLang::Reg(*d),
        LutLang::And(a, b) => LutLang::And(*a, *b),
        LutLang::Nor(a, b) => LutLang::Nor(*a, *b),
        LutLang::Xor(a, b) => LutLang::Xor(*a, *b),
        LutLang::Mux(c, a, b) => LutLang::Mux(*c, *a, *b),
        LutLang::Not(a) => LutLang::Not(*a),
        LutLang::Const(b) => LutLang::Const(*b),
        LutLang::Program(p) => LutLang::Program(*p),
        LutLang::Var(v) => LutLang::Var(v.clone()),
        LutLang::DC => LutLang::DC,
        LutLang::Arg(a) => LutLang::Arg(*a),
        LutLang::Cycle(a) => LutLang::Cycle(*a),
    }
}

/// A copy of the term `e`.
pub fn copy_expr(e: &Vec<LutLang>) -> (r: Vec<LutLang>)
    ensures
        r@.len() == e@.len(),
        forall|i: int| 0 <= i < e@.len() ==> node_eq(#[trigger] r@[i], e@[i]),
{
    let mut v: Vec<LutLang> = Vec::new();
    let mut i: usize = 0;
    while i < e.len()
        invariant
            i <= e@.len(),
            v@.len() == i,
            forall|j: int| 0 <= j < i ==> node_eq(#[trigger] v@[j], e@[j]),
        decreases e@.len() - i,
    {
        v.push(copy_node(&e[i]));
        i = i + 1;
    }
    v
}

/// Two terms that hold the same nodes denote the same term at each node.
pub proof fn lemma_deep_eq_copy(e1: Seq<LutLang>, e2: Seq<LutLang>, a: int)
    requires
        wf_expr(e2),
        e1.len() == e2.len(),
        forall|i: int| 0 <= i < e2.len() ==> node_eq(#[trigger] e1[i], e2[i]),
        0 <= a < e2.len(),
    ensures
        deep_eq(e1, a, e2, a),
    decreases a, 2int, 0int,
{
    assert(node_eq(e1[a], e2[a]));
    lemma_kids_eq_copy(e1, e2, a, e2[a].children().len() as int);
}

proof fn lemma_kids_eq_copy(e1: Seq<LutLang>, e2: Seq<LutLang>, a: int, n: int)
    requires
        wf_expr(e2),
        e1.len() == e2.len(),
        forall|i: int| 0 <= i < e2.len() ==> node_eq(#[trigger] e1[i], e2[i]),
        0 <= a < e2.len(),
        n <= e2[a].children().len(),
    ensures
        kids_eq(e1, a, e2, a, n),
    decreases a, 1int, n,
{
    if n > 0 {
        assert(node_eq(e1[a], e2[a]));
        lemma_kids_eq_copy(e1, e2, a, n - 1);
        let c = e2[a].children()[n - 1] as int;
        assert(c < a);
        lemma_deep_eq_copy(e1, e2, c);
    }
}

/// Merges terms into one, sharing each subterm that an earlier part of the
/// result already holds. Returns the merged term and, for each input term,
/// the node of the merged term that denotes its root. The merged term starts
/// with a copy of the first term, and every node added after it denotes a
/// term that no earlier node denotes.
pub fn merge_expr(exprs: Vec<Vec<LutLang>>) -> (r: (Vec<LutLang>, Vec<usize>))
    requires
        forall|i: int| 0 <= i < exprs@.len() ==> wf_expr(#[trigger] exprs@[i]@) && exprs@[i]@.len() > 0,
    ensures
        wf_expr(r.0@),
        r.1@.len() == exprs@.len(),
        forall|i: int|
            0 <= i < exprs@.len() ==> #[trigger] r.1@[i] < r.0@.len() && deep_eq(
                r.0@,
                r.1@[i] as int,
                exprs@[i]@,
                exprs@[i]@.len() - 1,
            ),
        nodes_from(r.0@, exprs@),
        forall|j: int| 0 <= j < r.0@.len() ==> #[trigger] denotes_input(r.0@, j, exprs@),
        exprs@.len() > 0 ==> r.0@.len() >= exprs@[0]@.len() && forall|i: int|
            0 <= i < exprs@[0]@.len() ==> node_eq(#[trigger] r.0@[i], exprs@[0]@[i]),
        exprs@.len() > 0 ==> forall|i: int, j: int|
            0 <= i < j < r.0@.len() && exprs@[0]@.len() <= j ==> !deep_eq(r.0@, i, r.0@, j),
{
    if exprs.len() == 0 {
        let e: Vec<LutLang> = Vec::new();
        assert(wf_expr(e@));
        return (e, Vec::new());
    }
    let mut expr = copy_expr(&exprs[0]);
    let mut mapping: Vec<usize> = vec![expr.len() - 1];
    proof {
        let e0 = exprs@[0]@;
        lemma_deep_eq_copy(expr@, e0, e0.len() - 1);
        assert forall|i: int, j: int|
            0 <= i < expr@.len() && 0 <= j < expr@[i].children().len() implies #[trigger] expr@[i].children()[j] < i by {
            assert(node_eq(expr@[i], e0[i]));
            assert(e0[i].children()[j] < i);
        }
        assert forall|i: int| 0 <= i < expr@.len() implies exists|kk: int, j: int|
            0 <= kk < exprs@.len() && 0 <= j < exprs@[kk]@.len() && same_shape(#[trigger] expr@[i], exprs@[kk]@[j]) by {
            assert(node_eq(expr@[i], e0[i]));
            assert(same_shape(expr@[i], exprs@[0]@[i]));
        }
    }
    let ghost n0 = exprs@[0]@.len();
    proof {
        assert forall|j: int| 0 <= j < expr@.len() implies #[trigger] denotes_input(expr@, j, exprs@) by {
            lemma_deep_eq_copy(expr@, exprs@[0]@, j);
            assert(deep_eq(expr@, j, exprs@[0]@, j));
        }
    }
    let mut k: usize = 1;
    while k < exprs.len()
        invariant
            1 <= k <= exprs@.len(),
            forall|i: int| 0 <= i < exprs@.len() ==> wf_expr(#[trigger] exprs@[i]@) && exprs@[i]@.len() > 0,
            wf_expr(expr@),
            mapping@.len() == k,
            forall|i: int|
                0 <= i < k ==> #[trigger] mapping@[i] < expr@.len() && deep_eq(
                    expr@,
                    mapping@[i] as int,
                    exprs@[i]@,
                    exprs@[i]@.len() - 1,
                ),
            nodes_from(expr@, exprs@),
            n0 == exprs@[0]@.len(),
            expr@.len() >= n0,
            forall|i: int| 0 <= i < n0 ==> node_eq(#[trigger] expr@[i], exprs@[0]@[i]),
            forall|i: int, j: int| 0 <= i < j < expr@.len() && n0 <= j ==> !deep_eq(expr@, i, expr@, j),
            forall|j: int| 0 <= j < expr@.len() ==> #[trigger] denotes_input(expr@, j, exprs@),
        decreases exprs@.len() - k,
    {
        let sub = &exprs[k];
        let ghost start = expr@;
        assert(expr@.subrange(0, expr@.len() as int) =~= expr@);
        assert(sub@.subrange(0, sub@.len() as int) =~= sub@);
        let mut remap: Vec<usize> = Vec::new();
        let mut b: usize = 0;
        while b < sub.len()
            invariant
                wf_expr(sub@),
                sub@.len() > 0,
                wf_expr(expr@),
                extends(start, expr@),
                b <= sub@.len(),
                extends(sub@, sub@),
                remap@.len() == b,
                forall|c: int| 0 <= c < b ==> #[trigger] remap@[c] < expr@.len() && deep_eq(
                    expr@,
                    remap@[c] as int,
                    sub@,
                    c,
                ),
                k < exprs@.len(),
                *sub == exprs@[k as int],
                nodes_from(expr@, exprs@),
                n0 == exprs@[0]@.len(),
                expr@.len() >= n0,
                forall|i: int| 0 <= i < n0 ==> node_eq(#[trigger] expr@[i], exprs@[0]@[i]),
                forall|i: int, j: int| 0 <= i < j < expr@.len() && n0 <= j ==> !deep_eq(expr@, i, expr@, j),
                forall|j: int| 0 <= j < expr@.len() ==> #[trigger] denotes_input(expr@, j, exprs@),
            decreases sub@.len() - b,
        {
            let mut found: Option<usize> = None;
            let mut a: usize = 0;
            while a < expr.len() && found.is_none()
                invariant
                    wf_expr(expr@),
                    a <= expr@.len(),
                    b < sub@.len(),
                    found matches Some(x) ==> x < expr@.len() && deep_eq(expr@, x as int, sub@, b as int),
                    found is None ==> forall|x: int| 0 <= x < a ==> !deep_eq(expr@, x, sub@, b as int),
                decreases expr@.len() - a,
            {
                if deep_equals(a, &expr, b, sub) {
                    found = Some(a);
                }
                a = a + 1;
            }
            match found {
                Some(x) => {
                    remap.push(x);
                },
                None => {
                    let ghost before = expr@;
                    proof {
                        assert forall|i: int| 0 <= i < sub@[b as int].children().len() implies #[trigger] sub@[b as int].children()[i] < remap@.len() by {
                            assert(sub@[b as int].children()[i] < b);
                        }
                    }
                    let node = with_children(&sub[b], &remap);
                    proof {
                        crate::verilog::lemma_push_wf(expr@, node);
                    }
                    let id = expr.len();
                    expr.push(node);
                    proof {
                        let e2 = expr@;
                        assert forall|c: int| 0 <= c < b implies #[trigger] remap@[c] < e2.len() && deep_eq(e2, remap@[c] as int, sub@, c) by {
                            lemma_deep_eq_extend(before, e2, remap@[c] as int, sub@, sub@, c);
                        }
                        assert(extends(sub@, sub@)) by {
                            assert(sub@.subrange(0, sub@.len() as int) =~= sub@);
                        }
                        crate::verilog::lemma_extends_trans(start, before, e2);
                        let n = sub@[b as int].children().len() as int;
                        assert(e2[id as int] == node);
                        lemma_kids_new(e2, id as int, sub@, b as int, remap@, n);
                        assert(deep_eq(e2, id as int, sub@, b as int));
                        assert(extends(before, e2));
                        assert forall|x: int, y: int| 0 <= x < y < e2.len() && n0 <= y implies !deep_eq(e2, x, e2, y) by {
                            if y < before.len() {
                                if deep_eq(e2, x, e2, y) {
                                    lemma_deep_eq_shrink(before, e2, x, e2, y);
                                    assert(extends(before, e2));
                                    lemma_deep_eq_sym_shrink(before, e2, x, y);
                                }
                            } else {
                                if deep_eq(e2, x, e2, y) {
                                    lemma_deep_eq_trans(e2, x, e2, id as int, sub@, b as int);
                                    lemma_deep_eq_shrink(before, e2, x, sub@, b as int);
                                }
                            }
                        }
                        assert forall|i: int| 0 <= i < e2.len() implies exists|kk: int, j: int|
                            0 <= kk < exprs@.len() && 0 <= j < exprs@[kk]@.len() && same_shape(#[trigger] e2[i], exprs@[kk]@[j]) by {
                            if i < before.len() {
                                assert(e2[i] == before[i]);
                            } else {
                                assert(same_shape(e2[i], exprs@[k as int]@[b as int]));
                            }
                        }
                        assert forall|j: int| 0 <= j < e2.len() implies #[trigger] denotes_input(e2, j, exprs@) by {
                            if j < before.len() {
                                assert(denotes_input(before, j, exprs@));
                                let (kk, bb) = choose|kk: int, bb: int|
                                    0 <= kk < exprs@.len() && 0 <= bb < exprs@[kk]@.len() && deep_eq(before, j, exprs@[kk]@, bb);
                                assert(extends(exprs@[kk]@, exprs@[kk]@)) by {
                                    assert(exprs@[kk]@.subrange(0, exprs@[kk]@.len() as int) =~= exprs@[kk]@);
                                }
                                lemma_deep_eq_extend(before, e2, j, exprs@[kk]@, exprs@[kk]@, bb);
                            } else {
                                assert(deep_eq(e2, j, exprs@[k as int]@, b as int));
                            }
                        }
                        assert forall|i: int| 0 <= i < n0 implies node_eq(#[trigger] e2[i], exprs@[0]@[i]) by {
                            assert(e2[i] == before[i]);
                        }
                    }
                    remap.push(id);
                },
            }
            b = b + 1;
        }
        proof {
            assert forall|i: int| 0 <= i < k implies #[trigger] mapping@[i] < expr@.len() && deep_eq(expr@, mapping@[i] as int, exprs@[i]@, exprs@[i]@.len() - 1) by {
                assert(extends(exprs@[i]@, exprs@[i]@)) by {
                    assert(exprs@[i]@.subrange(0, exprs@[i]@.len() as int) =~= exprs@[i]@);
                }
                lemma_deep_eq_extend(start, expr@, mapping@[i] as int, exprs@[i]@, exprs@[i]@, exprs@[i]@.len() - 1);
            }
        }
        mapping.push(remap[sub.len() - 1]);
        k = k + 1;
    }
    (expr, mapping)
}

proof fn lemma_kids_new(e: Seq<LutLang>, id: int, sub: Seq<LutLang>, b: int, remap: Seq<usize>, j: int)
    requires
        0 <= id < e.len(),
        0 <= b < sub.len(),
        wf_expr(sub),
        wf_expr(e),
        e[id].children().len() == sub[b].children().len(),
        0 <= j <= sub[b].children().len(),
        forall|i: int| 0 <= i < sub[b].children().len() ==> #[trigger] e[id].children()[i] == remap[sub[b].children()[i] as int],
        forall|c: int| 0 <= c < b ==> #[trigger] remap[c] < e.len() && deep_eq(e, remap[c] as int, sub, c),
    ensures
        kids_eq(e, id, sub, b, j),
    decreases j,
{
    if j > 0 {
        lemma_kids_new(e, id, sub, b, remap, j - 1);
        let c = sub[b].children()[j - 1] as int;
        assert(c < b);
        assert(e[id].children()[j - 1] < id);
        assert(deep_eq(e, remap[c] as int, sub, c));
    }
}

/// `x` is a copy of `y`, node by node.
pub open spec fn expr_copy(x: Seq<LutLang>, y: Seq<LutLang>) -> bool {
    x.len() == y.len() && forall|i: int| 0 <= i < y.len() ==> node_eq(#[trigger] x[i], y[i])
}

/// Each term of `x` is a copy of the matching term of `y`.
pub open spec fn terms_copy(x: Seq<Vec<LutLang>>, y: Seq<Seq<LutLang>>) -> bool {
    x.len() == y.len() && forall|i: int| 0 <= i < y.len() ==> expr_copy(#[trigger] x[i]@, y[i])
}

/// Each list of `x` is a copy of the matching list of `y`.
pub open spec fn lists_copy(x: Seq<Vec<Vec<LutLang>>>, y: Seq<Seq<Seq<LutLang>>>) -> bool {
    x.len() == y.len() && forall|i: int| 0 <= i < y.len() ==> terms_copy(#[trigger] x[i]@, y[i])
}

/// The terms of nested vectors.
pub open spec fn lists_view(c: Seq<Vec<Vec<LutLang>>>) -> Seq<Seq<Seq<LutLang>>> {
    c.map_values(|v: Vec<Vec<LutLang>>| v@.map_values(|e: Vec<LutLang>| e@))
}

/// Each choice of `first` put in front of each list of `rest`, the choices
/// of `first` varying slowest.
pub open spec fn combos<X>(first: Seq<X>, rest: Seq<Seq<X>>) -> Seq<Seq<X>>
    decreases first.len(),
{
    if first.len() == 0 {
        Seq::empty()
    } else {
        combos(first.drop_last(), rest) + rest.map_values(|o: Seq<X>| seq![first.last()] + o)
    }
}

/// Every way to pick one element from each of the lists in `c`, in order,
/// the first list varying slowest.
pub open spec fn permutations<X>(c: Seq<Seq<X>>) -> Seq<Seq<X>>
    decreases c.len(),
{
    if c.len() == 0 {
        seq![Seq::empty()]
    } else {
        combos(c[0], permutations(c.drop_first()))
    }
}

proof fn lemma_node_eq_trans(x: LutLang, y: LutLang, z: LutLang)
    requires
        node_eq(x, y),
        node_eq(y, z),
    ensures
        node_eq(x, z),
{
}

/// Every way to pick one term from each list of `choices`, in order, the
/// first list varying slowest.
pub fn get_permutations(choices: Vec<Vec<Vec<LutLang>>>) -> (r: Vec<Vec<Vec<LutLang>>>)
    ensures
        lists_copy(r@, permutations(lists_view(choices@))),
    decreases choices@.len(),
{
    let ghost cv = lists_view(choices@);
    if choices.len() == 0 {
        let r: Vec<Vec<Vec<LutLang>>> = vec![Vec::new()];
        assert(r@[0]@ =~= Seq::<Vec<LutLang>>::empty());
        return r;
    }
    let mut choices = choices;
    let first = choices.remove(0);
    assert(lists_view(choices@) =~= cv.drop_first());
    let ochoices = get_permutations(choices);
    let ghost rest = permutations(cv.drop_first());
    let ghost fv = cv[0];
    assert(first@.map_values(|e: Vec<LutLang>| e@) == fv);
    let mut result: Vec<Vec<Vec<LutLang>>> = Vec::new();
    let mut a: usize = 0;
    while a < first.len()
        invariant
            a <= first@.len(),
            fv == first@.map_values(|e: Vec<LutLang>| e@),
            lists_copy(ochoices@, rest),
            lists_copy(result@, combos(fv.subrange(0, a as int), rest)),
        decreases first@.len() - a,
    {
        let ghost before = result@;
        let mut b: usize = 0;
        while b < ochoices.len()
            invariant
                a < first@.len(),
                b <= ochoices@.len(),
                fv == first@.map_values(|e: Vec<LutLang>| e@),
                lists_copy(ochoices@, rest),
                result@.len() == before.len() + b,
                result@.subrange(0, before.len() as int) == before,
                forall|i: int| 0 <= i < b ==> terms_copy(#[trigger] result@[before.len() + i]@, seq![fv[a as int]] + rest[i]),
            decreases ochoices@.len() - b,
        {
            let o = &ochoices[b];
            let mut newv: Vec<Vec<LutLang>> = vec![copy_expr(&first[a])];
            let mut t: usize = 0;
            while t < o.len()
                invariant
                    t <= o@.len(),
                    b < ochoices@.len(),
                    *o == ochoices@[b as int],
                    lists_copy(ochoices@, rest),
                    newv@.len() == t + 1,
                    fv == first@.map_values(|e: Vec<LutLang>| e@),
                    a < first@.len(),
                    expr_copy(newv@[0]@, fv[a as int]),
                    forall|i: int| 0 <= i < t ==> expr_copy(#[trigger] newv@[i + 1]@, rest[b as int][i]),
                decreases o@.len() - t,
            {
                let c = copy_expr(&o[t]);
                proof {
                    assert(terms_copy(ochoices@[b as int]@, rest[b as int]));
                    assert(expr_copy(o@[t as int]@, rest[b as int][t as int]));
                    assert forall|i: int| 0 <= i < rest[b as int][t as int].len() implies node_eq(#[trigger] c@[i], rest[b as int][t as int][i]) by {
                        lemma_node_eq_trans(c@[i], o@[t as int]@[i], rest[b as int][t as int][i]);
                    }
                }
                newv.push(c);
                t = t + 1;
            }
            proof {
                let target = seq![fv[a as int]] + rest[b as int];
                assert(terms_copy(ochoices@[b as int]@, rest[b as int]));
                assert(o@.len() == rest[b as int].len());
                assert forall|i: int| 0 <= i < target.len() implies expr_copy(#[trigger] newv@[i]@, target[i]) by {
                    if i > 0 {
                        assert(target[i] == rest[b as int][i - 1]);
                        let k = i - 1;
                        assert(expr_copy(newv@[k + 1]@, rest[b as int][k]));
                    } else {
                        assert(target[0] == fv[a as int]);
                    }
                }
            }
            result.push(newv);
            b = b + 1;
        }
        proof {
            let pre = fv.subrange(0, a + 1);
            assert(pre.drop_last() =~= fv.subrange(0, a as int));
            assert(pre.last() == fv[a as int]);
            let added = rest.map_values(|o: Seq<Seq<LutLang>>| seq![pre.last()] + o);
            let target = combos(pre, rest);
            assert(target == combos(fv.subrange(0, a as int), rest) + added);
            assert forall|i: int| 0 <= i < target.len() implies terms_copy(#[trigger] result@[i]@, target[i]) by {
                if i < before.len() {
                    assert(result@[i] == result@.subrange(0, before.len() as int)[i]);
                } else {
                    assert(target[i] == added[i - before.len()]);
                    assert(terms_copy(result@[before.len() + (i - before.len())]@, seq![fv[a as int]] + rest[i - before.len()]));
                }
            }
        }
        a = a + 1;
    }
    assert(fv.subrange(0, a as int) =~= fv);
    result
}

/// A cost model for [`DynExtractor`].
pub trait CostFunction {
    /// The cost of one node.
    spec fn cost_spec(&self, enode: LutLang) -> u64;

    /// How two costs combine.
    spec fn fold_spec(&self, a: u64, b: u64) -> u64;

    /// Whether the node is to be left out of every solution.
    spec fn skip_spec(&self, enode: LutLang) -> bool;

    /// Cost and skipping depend on a node's shape only, not on which
    /// children it points to.
    proof fn lemma_shape(&self, a: LutLang, b: LutLang)
        requires
            same_shape(a, b),
        ensures
            self.cost_spec(a) == self.cost_spec(b),
            self.skip_spec(a) == self.skip_spec(b),
    ;

    /// The cost of one node.
    fn cost(&self, enode: &LutLang) -> (r: u64)
        ensures
            r == self.cost_spec(*enode),
    ;

    /// How two costs combine.
    fn fold(&self, a: u64, b: u64) -> (r: u64)
        ensures
            r == self.fold_spec(a, b),
    ;

    /// Whether the node is to be left out of every solution.
    fn skip(&self, enode: &LutLang) -> (r: bool)
        ensures
            r == self.skip_spec(*enode),
    ;
}

impl CostFunction for KLUTCostFn {
    open spec fn cost_spec(&self, enode: LutLang) -> u64 {
        saturate(klut_op_cost(enode, self.k_spec(), self.reg_weight_spec()))
    }

    open spec fn fold_spec(&self, a: u64, b: u64) -> u64 {
        saturate((a + b) as nat)
    }

    open spec fn skip_spec(&self, enode: LutLang) -> bool {
        self.cost_spec(enode) == INFINITE_COST
    }

    proof fn lemma_shape(&self, a: LutLang, b: LutLang) {
    }

    fn cost(&self, enode: &LutLang) -> (r: u64) {
        self.op_cost(enode)
    }

    fn fold(&self, a: u64, b: u64) -> (r: u64) {
        if a > INFINITE_COST - b {
            INFINITE_COST
        } else {
            a + b
        }
    }

    fn skip(&self, enode: &LutLang) -> (r: bool) {
        self.op_cost(enode) == INFINITE_COST
    }
}

/// The total cost of a term: `fold` of the node costs, from the first node.
pub open spec fn total_cost<CF: CostFunction>(cf: CF, e: Seq<LutLang>) -> u64
    decreases e.len(),
{
    if e.len() == 0 {
        0
    } else {
        cf.fold_spec(total_cost(cf, e.drop_last()), cf.cost_spec(e.last()))
    }
}

/// `x` has the shape of a node of class `c` that is not skipped.
pub open spec fn class_node<CF: CostFunction>(cf: CF, classes: Seq<Vec<LutLang>>, c: int, x: LutLang) -> bool {
    exists|n: int|
        0 <= n < classes[c]@.len() && same_shape(x, classes[c]@[n]) && !cf.skip_spec(classes[c]@[n])
}

/// Every node of `e` is not skipped and has the shape of a node of some class.
pub open spec fn all_from<CF: CostFunction>(cf: CF, classes: Seq<Vec<LutLang>>, e: Seq<LutLang>) -> bool {
    forall|i: int|
        0 <= i < e.len() ==> !cf.skip_spec(#[trigger] e[i]) && exists|c: int|
            0 <= c < classes.len() && class_node(cf, classes, c, e[i])
}

/// Node `i` of `e` has the shape of a node `n` of some class that is not
/// skipped, and each child of node `i` has the shape of a node, not skipped,
/// of the matching child class of `n`.
pub open spec fn locally_in<CF: CostFunction>(cf: CF, classes: Seq<Vec<LutLang>>, e: Seq<LutLang>, i: int) -> bool {
    exists|c: int, n: int| 0 <= c < classes.len() && #[trigger] node_of(cf, classes, e, i, c, n)
}

/// Node `i` of `e` is node `n` of class `c` one level deep: same shape, not
/// skipped, and children of the shapes of that node's child classes.
pub open spec fn node_of<CF: CostFunction>(
    cf: CF,
    classes: Seq<Vec<LutLang>>,
    e: Seq<LutLang>,
    i: int,
    c: int,
    n: int,
) -> bool {
    &&& 0 <= n < classes[c]@.len()
    &&& 0 <= i < e.len()
    &&& same_shape(e[i], classes[c]@[n])
    &&& !cf.skip_spec(classes[c]@[n])
    &&& forall|j: int|
        0 <= j < e[i].children().len() ==> class_node(
            cf,
            classes,
            classes[c]@[n].children()[j] as int,
            #[trigger] e[e[i].children()[j] as int],
        )
}

proof fn lemma_node_of_deep_eq<CF: CostFunction>(
    cf: CF,
    classes: Seq<Vec<LutLang>>,
    e1: Seq<LutLang>,
    a: int,
    e2: Seq<LutLang>,
    b: int,
    c: int,
    n: int,
)
    requires
        deep_eq(e1, a, e2, b),
        node_of(cf, classes, e2, b, c, n),
    ensures
        node_of(cf, classes, e1, a, c, n),
{
    assert(0 <= a < e1.len());
    assert(same_op(e1[a], e2[b]) && e1[a].children().len() == e2[b].children().len());
    assert(same_shape(e1[a], classes[c]@[n]));
    assert forall|j: int| 0 <= j < e1[a].children().len() implies class_node(
        cf,
        classes,
        classes[c]@[n].children()[j] as int,
        #[trigger] e1[e1[a].children()[j] as int],
    ) by {
        lemma_kids_eq_prefix(e1, a, e2, b, j, e1[a].children().len() as int);
        let x = e1[a].children()[j] as int;
        let y = e2[b].children()[j] as int;
        assert(deep_eq(e1, x, e2, y));
        assert(0 <= x < e1.len());
        assert(class_node(cf, classes, classes[c]@[n].children()[j] as int, e2[y]));
        assert(same_shape(e1[x], e2[y]));
        lemma_node_from(cf, classes, classes[c]@[n].children()[j] as int, e1[x], e2[y]);
    }
}

proof fn lemma_node_of_extend<CF: CostFunction>(
    cf: CF,
    classes: Seq<Vec<LutLang>>,
    e: Seq<LutLang>,
    e2: Seq<LutLang>,
    i: int,
    c: int,
    n: int,
)
    requires
        extends(e, e2),
        wf_expr(e),
        node_of(cf, classes, e, i, c, n),
    ensures
        node_of(cf, classes, e2, i, c, n),
{
    assert(e2[i] == e2.subrange(0, e.len() as int)[i]);
    assert forall|j: int| 0 <= j < e2[i].children().len() implies class_node(
        cf,
        classes,
        classes[c]@[n].children()[j] as int,
        #[trigger] e2[e2[i].children()[j] as int],
    ) by {
        assert(e2[i] == e[i]);
        let x = e[i].children()[j] as int;
        assert(class_node(cf, classes, classes[c]@[n].children()[j] as int, e[x]));
        assert(x < i);
        assert(e2[x] == e2.subrange(0, e.len() as int)[x]);
    }
}

/// At most a thousand well-formed terms of one total cost, each rooted at a
/// node of class `c` and built only of nodes of classes, none skipped.
pub open spec fn good_terms<CF: CostFunction>(
    cf: CF,
    v: Seq<Vec<LutLang>>,
    classes: Seq<Vec<LutLang>>,
    c: int,
) -> bool {
    &&& v.len() <= 1000
    &&& forall|k: int|
        0 <= k < v.len() ==> wf_expr(#[trigger] v[k]@) && v[k]@.len() > 0 && class_node(
            cf,
            classes,
            c,
            v[k]@.last(),
        ) && all_from(cf, classes, v[k]@) && total_cost(cf, v[k]@) == total_cost(cf, v[0]@)
            && (exists|n: int| #[trigger] node_of(cf, classes, v[k]@, v[k]@.len() - 1, c, n))
            && forall|i: int| 0 <= i < v[k]@.len() ==> #[trigger] locally_in(cf, classes, v[k]@, i)
}

/// Class `c` has a node without children that is not skipped.
pub open spec fn has_leaf<CF: CostFunction>(cf: CF, classes: Seq<Vec<LutLang>>, c: int) -> bool {
    exists|n: int|
        0 <= n < classes[c]@.len() && classes[c]@[n].children().len() == 0 && !cf.skip_spec(
            classes[c]@[n],
        )
}

proof fn lemma_total_copy<CF: CostFunction>(cf: CF, x: Seq<LutLang>, y: Seq<LutLang>)
    requires
        expr_copy(x, y),
    ensures
        total_cost(cf, x) == total_cost(cf, y),
    decreases x.len(),
{
    if x.len() > 0 {
        assert(expr_copy(x.drop_last(), y.drop_last())) by {
            assert forall|i: int| 0 <= i < y.drop_last().len() implies node_eq(#[trigger] x.drop_last()[i], y.drop_last()[i]) by {
                assert(node_eq(x[i], y[i]));
            }
        }
        lemma_total_copy(cf, x.drop_last(), y.drop_last());
        assert(node_eq(x.last(), y.last()));
        cf.lemma_shape(x.last(), y.last());
    }
}

proof fn lemma_node_from<CF: CostFunction>(cf: CF, classes: Seq<Vec<LutLang>>, c: int, x: LutLang, y: LutLang)
    requires
        same_shape(x, y),
        class_node(cf, classes, c, y),
    ensures
        class_node(cf, classes, c, x),
{
    let n = choose|n: int|
        0 <= n < classes[c]@.len() && same_shape(y, classes[c]@[n]) && !cf.skip_spec(classes[c]@[n]);
    assert(same_shape(x, classes[c]@[n]));
}

proof fn lemma_all_from_copy<CF: CostFunction>(cf: CF, classes: Seq<Vec<LutLang>>, x: Seq<LutLang>, y: Seq<LutLang>)
    requires
        expr_copy(x, y),
        all_from(cf, classes, y),
    ensures
        all_from(cf, classes, x),
{
    assert forall|i: int| 0 <= i < x.len() implies !cf.skip_spec(#[trigger] x[i]) && exists|c: int|
        0 <= c < classes.len() && class_node(cf, classes, c, x[i]) by {
        assert(node_eq(x[i], y[i]));
        cf.lemma_shape(x[i], y[i]);
        let c = choose|c: int| 0 <= c < classes.len() && class_node(cf, classes, c, y[i]);
        lemma_node_from(cf, classes, c, x[i], y[i]);
    }
}

proof fn lemma_local_copy<CF: CostFunction>(cf: CF, classes: Seq<Vec<LutLang>>, x: Seq<LutLang>, y: Seq<LutLang>)
    requires
        expr_copy(x, y),
        wf_expr(y),
        forall|i: int| 0 <= i < y.len() ==> #[trigger] locally_in(cf, classes, y, i),
    ensures
        forall|i: int| 0 <= i < x.len() ==> #[trigger] locally_in(cf, classes, x, i),
{
    assert forall|i: int| 0 <= i < x.len() implies #[trigger] locally_in(cf, classes, x, i) by {
        assert(locally_in(cf, classes, y, i));
        let (c, n) = choose|c: int, n: int| 0 <= c < classes.len() && #[trigger] node_of(cf, classes, y, i, c, n);
        lemma_deep_eq_copy(x, y, i);
        lemma_node_of_deep_eq(cf, classes, x, i, y, i, c, n);
    }
}

proof fn lemma_good_copy<CF: CostFunction>(
    cf: CF,
    r: Seq<Vec<LutLang>>,
    v: Seq<Vec<LutLang>>,
    classes: Seq<Vec<LutLang>>,
    c: int,
)
    requires
        terms_copy(r, v.map_values(|e: Vec<LutLang>| e@)),
        good_terms(cf, v, classes, c),
    ensures
        good_terms(cf, r, classes, c),
{
    assert forall|k: int| 0 <= k < r.len() implies wf_expr(#[trigger] r[k]@) && r[k]@.len() > 0 && class_node(
        cf,
        classes,
        c,
        r[k]@.last(),
    ) && all_from(cf, classes, r[k]@) && total_cost(cf, r[k]@) == total_cost(cf, r[0]@)
        && (exists|n: int| #[trigger] node_of(cf, classes, r[k]@, r[k]@.len() - 1, c, n))
        && forall|i: int| 0 <= i < r[k]@.len() ==> #[trigger] locally_in(cf, classes, r[k]@, i) by {
        assert(expr_copy(r[k]@, v[k]@));
        assert(expr_copy(r[0]@, v[0]@));
        lemma_copy_wf(r[k]@, v[k]@, v[k]@);
        lemma_local_copy(cf, classes, r[k]@, v[k]@);
        let n = choose|n: int| #[trigger] node_of(cf, classes, v[k]@, v[k]@.len() - 1, c, n);
        lemma_deep_eq_copy(r[k]@, v[k]@, v[k]@.len() - 1);
        lemma_node_of_deep_eq(cf, classes, r[k]@, r[k]@.len() - 1, v[k]@, v[k]@.len() - 1, c, n);
        assert(node_eq(r[k]@.last(), v[k]@.last()));
        lemma_node_from(cf, classes, c, r[k]@.last(), v[k]@.last());
        lemma_all_from_copy(cf, classes, r[k]@, v[k]@);
        lemma_total_copy(cf, r[k]@, v[k]@);
        lemma_total_copy(cf, r[0]@, v[0]@);
    }
}

/// The equivalence classes of an e-graph: the nodes of each class, whose
/// children are class numbers.
pub open spec fn classes_ok(classes: Seq<Vec<LutLang>>) -> bool {
    forall|c: int, n: int, j: int|
        0 <= c < classes.len() && 0 <= n < classes[c]@.len() && 0 <= j
            < classes[c]@[n].children().len() ==> #[trigger] classes[c]@[n].children()[j]
            < classes.len()
}

/// The number of `false` flags.
pub open spec fn unset_count(flags: Seq<Seq<bool>>) -> nat
    decreases flags.len(),
{
    if flags.len() == 0 {
        0
    } else {
        unset_count(flags.drop_last()) + unset_in(flags.last())
    }
}

/// The flags of each class.
pub open spec fn flags_view(v: Seq<Vec<bool>>) -> Seq<Seq<bool>> {
    v.map_values(|f: Vec<bool>| f@)
}

/// The number of `false` entries of `f`.
pub open spec fn unset_in(f: Seq<bool>) -> nat
    decreases f.len(),
{
    if f.len() == 0 {
        0
    } else {
        unset_in(f.drop_last()) + if f.last() {
            0nat
        } else {
            1nat
        }
    }
}

proof fn lemma_unset_in_set(f: Seq<bool>, i: int)
    requires
        0 <= i < f.len(),
        !f[i],
    ensures
        unset_in(f.update(i, true)) + 1 == unset_in(f),
    decreases f.len(),
{
    if i < f.len() - 1 {
        assert(f.update(i, true).drop_last() =~= f.drop_last().update(i, true));
        lemma_unset_in_set(f.drop_last(), i);
    } else {
        assert(f.update(i, true).drop_last() =~= f.drop_last());
    }
}

proof fn lemma_unset_count_set(flags: Seq<Seq<bool>>, c: int, i: int)
    requires
        0 <= c < flags.len(),
        0 <= i < flags[c].len(),
        !flags[c][i],
    ensures
        unset_count(flags.update(c, flags[c].update(i, true))) + 1 == unset_count(flags),
    decreases flags.len(),
{
    let f = flags[c].update(i, true);
    if c < flags.len() - 1 {
        assert(flags.update(c, f).drop_last() =~= flags.drop_last().update(c, f));
        lemma_unset_count_set(flags.drop_last(), c, i);
    } else {
        assert(flags.update(c, f).drop_last() =~= flags.drop_last());
        lemma_unset_in_set(flags[c], i);
    }
}

/// An exact extractor by dynamic programming: for each class it keeps the
/// terms of least cost found, up to a thousand of them.
pub struct DynExtractor<'a, CF: CostFunction> {
    cost_function: CF,
    best_exprs: Vec<Option<Vec<Vec<LutLang>>>>,
    visited: Vec<Vec<bool>>,
    egraph: &'a Vec<Vec<LutLang>>,
}

impl<'a, CF: CostFunction> DynExtractor<'a, CF> {
    /// The memo and the visit flags match the e-graph.
    pub closed spec fn wf(&self) -> bool {
        &&& classes_ok(self.egraph@)
        &&& self.best_exprs@.len() == self.egraph@.len()
        &&& self.visited@.len() == self.egraph@.len()
        &&& forall|c: int| 0 <= c < self.egraph@.len() ==> #[trigger] self.visited@[c]@.len() == self.egraph@[c]@.len()
        &&& forall|c: int|
            0 <= c < self.egraph@.len() ==> (#[trigger] self.best_exprs@[c] matches Some(v) ==> good_terms(
                self.cost_function,
                v@,
                self.egraph@,
                c,
            ) && (has_leaf(self.cost_function, self.egraph@, c) ==> v@.len() > 0))
        &&& forall|c: int, n: int|
            0 <= c < self.egraph@.len() && 0 <= n < self.egraph@[c]@.len() && #[trigger] self.visited@[c]@[n]
                ==> self.egraph@[c]@[n].children().len() > 0
    }

    /// The cost model.
    pub closed spec fn cf(&self) -> CF {
        self.cost_function
    }

    /// The e-graph's classes.
    pub closed spec fn classes(&self) -> Seq<Vec<LutLang>> {
        self.egraph@
    }

    /// Which nodes of each class are on the current way down.
    pub closed spec fn visit_flags(&self) -> Seq<Seq<bool>> {
        flags_view(self.visited@)
    }

    /// An extractor over the classes `egraph`, each a list of nodes whose
    /// children are class numbers.
    pub fn new(egraph: &'a Vec<Vec<LutLang>>, cost_function: CF) -> (r: Self)
        requires
            classes_ok(egraph@),
        ensures
            r.wf(),
            r.classes() == egraph@,
            r.cf() == cost_function,
    {
        let mut best_exprs: Vec<Option<Vec<Vec<LutLang>>>> = Vec::new();
        let mut visited: Vec<Vec<bool>> = Vec::new();
        let mut c: usize = 0;
        while c < egraph.len()
            invariant
                c <= egraph@.len(),
                best_exprs@.len() == c,
                visited@.len() == c,
                forall|i: int| 0 <= i < c ==> #[trigger] visited@[i]@.len() == egraph@[i]@.len(),
                forall|i: int| 0 <= i < c ==> #[trigger] best_exprs@[i] is None,
                forall|i: int, j: int| 0 <= i < c && 0 <= j < visited@[i]@.len() ==> !(#[trigger] visited@[i]@[j]),
            decreases egraph@.len() - c,
        {
            let mut flags: Vec<bool> = Vec::new();
            while flags.len() < egraph[c].len()
                invariant
                    c < egraph@.len(),
                    flags@.len() <= egraph@[c as int]@.len(),
                    forall|j: int| 0 <= j < flags@.len() ==> !flags@[j],
                decreases egraph@[c as int]@.len() - flags@.len(),
            {
                flags.push(false);
            }
            visited.push(flags);
            best_exprs.push(None);
            c = c + 1;
        }
        DynExtractor { cost_function, best_exprs, visited, egraph }
    }

    /// The best terms of class `eclass`: up to a thousand terms of one
    /// total cost, each rooted at a node of the class and built only of
    /// nodes of classes that the cost function does not skip, every node's
    /// children having the shapes of nodes of its own child classes; rebuilt from
    /// the best terms of the children's classes. A node already on the way
    /// down is not entered again, so a class that only reaches itself has no
    /// term; a class with a leaf node that is not skipped always has one.
    pub fn find_best_expression(&mut self, eclass: usize) -> (r: Vec<Vec<LutLang>>)
        requires
            old(self).wf(),
            eclass < old(self).classes().len(),
        ensures
            final(self).wf(),
            final(self).classes() == old(self).classes(),
            final(self).cf() == old(self).cf(),
            final(self).visit_flags() == old(self).visit_flags(),
            good_terms(old(self).cf(), r@, old(self).classes(), eclass as int),
            has_leaf(old(self).cf(), old(self).classes(), eclass as int) ==> r@.len() > 0,
        decreases unset_count(old(self).visit_flags()),
    {
        if let Some(v) = &self.best_exprs[eclass] {
            let r = copy_terms(v);
            proof {
                lemma_good_copy(self.cost_function, r@, v@, self.egraph@, eclass as int);
            }
            return r;
        }
        let egraph = self.egraph;
        let nodes = &egraph[eclass];
        let ghost cf = self.cost_function;
        let mut best_cost: Option<u64> = None;
        let mut best: Vec<Vec<LutLang>> = Vec::new();
        let mut n: usize = 0;
        while n < nodes.len()
            invariant
                self.wf(),
                self.egraph@ == egraph@,
                self.cost_function == cf,
                eclass < egraph@.len(),
                *nodes == egraph@[eclass as int],
                n <= nodes@.len(),
                flags_view(self.visited@) == flags_view(old(self).visited@),
                self.egraph@ == old(self).egraph@,
                cf == old(self).cost_function,
                good_terms(cf, best@, egraph@, eclass as int),
                best_cost is None <==> best@.len() == 0,
                best_cost matches Some(bc) ==> forall|k: int| 0 <= k < best@.len() ==> total_cost(cf, #[trigger] best@[k]@) == bc,
                forall|m: int|
                    0 <= m < n && (#[trigger] nodes@[m]).children().len() == 0 && !cf.skip_spec(nodes@[m])
                        ==> best@.len() > 0,
            decreases nodes@.len() - n,
        {
            let node = &nodes[n];
            if self.cost_function.skip(node) || self.visited[eclass][n] {
                proof {
                    if node.children().len() == 0 && !cf.skip_spec(*node) {
                        assert(!flags_view(self.visited@)[eclass as int][n as int]);
                    }
                }
                n = n + 1;
                continue;
            }
            let children = node.children_vec();
            let kids = children.len() > 0;
            let ghost fv0 = flags_view(self.visited@);
            if kids {
                let mut f = self.visited[eclass].clone();
                assert(f@ =~= self.visited@[eclass as int]@);
                f.set(n, true);
                self.visited.set(eclass, f);
                proof {
                    assert(flags_view(self.visited@) =~= fv0.update(eclass as int, fv0[eclass as int].update(n as int, true)));
                    lemma_unset_count_set(fv0, eclass as int, n as int);
                }
            }
            let ghost fv1 = flags_view(self.visited@);
            let ghost nonempty_before = best@.len() > 0;
            let mut c_expr: Vec<Vec<Vec<LutLang>>> = Vec::new();
            let mut impossible = false;
            let mut j: usize = 0;
            while j < children.len()
                invariant
                    self.wf(),
                    self.egraph@ == egraph@,
                    self.cost_function == cf,
                    eclass < egraph@.len(),
                    *nodes == egraph@[eclass as int],
                    n < nodes@.len(),
                    children@ == nodes@[n as int].children(),
                    *node == nodes@[n as int],
                    j <= children@.len(),
                    flags_view(self.visited@) == fv1,
                    children@.len() > 0 ==> unset_count(fv1) < unset_count(flags_view(old(self).visited@)),
                    c_expr@.len() == j,
                    impossible ==> j > 0,
                    forall|i: int| 0 <= i < j ==> good_terms(cf, #[trigger] c_expr@[i]@, egraph@, children@[i] as int),
                decreases children@.len() - j,
            {
                assert(children@[j as int] < egraph@.len()) by {
                    assert(egraph@[eclass as int]@[n as int].children()[j as int] < egraph@.len());
                }
                let v = self.find_best_expression(children[j]);
                if v.len() == 0 {
                    impossible = true;
                }
                c_expr.push(v);
                j = j + 1;
            }
            if !impossible {
                let ghost cv = lists_view(c_expr@);
                proof {
                    assert forall|i: int, k: int| 0 <= i < cv.len() && 0 <= k < cv[i].len() implies wf_expr(#[trigger] cv[i][k]) && cv[i][k].len() > 0 && all_from(cf, egraph@, cv[i][k]) && (forall|q: int| 0 <= q < cv[i][k].len() ==> #[trigger] locally_in(cf, egraph@, cv[i][k], q)) && class_node(cf, egraph@, children@[i] as int, cv[i][k].last()) by {
                        assert(good_terms(cf, c_expr@[i]@, egraph@, children@[i] as int));
                        assert(cv[i][k] == c_expr@[i]@[k]@);
                    }
                }
                let perms = get_permutations(c_expr);
                proof {
                    if children@.len() == 0 {
                        assert(cv =~= Seq::<Seq<Seq<LutLang>>>::empty());
                        assert(permutations(cv).len() == 1);
                    }
                }
                let mut p: usize = 0;
                while p < perms.len()
                    invariant
                        self.wf(),
                        self.egraph@ == egraph@,
                        self.cost_function == cf,
                        eclass < egraph@.len(),
                        *nodes == egraph@[eclass as int],
                        n < nodes@.len(),
                        children@ == nodes@[n as int].children(),
                        *node == nodes@[n as int],
                        !cf.skip_spec(*node),
                        flags_view(self.visited@) == fv1,
                        cv.len() == children@.len(),
                        forall|i: int, k: int| 0 <= i < cv.len() && 0 <= k < cv[i].len() ==> wf_expr(#[trigger] cv[i][k]) && cv[i][k].len() > 0 && all_from(cf, egraph@, cv[i][k]) && (forall|q: int| 0 <= q < cv[i][k].len() ==> #[trigger] locally_in(cf, egraph@, cv[i][k], q)) && class_node(cf, egraph@, children@[i] as int, cv[i][k].last()),
                        lists_copy(perms@, permutations(cv)),
                        good_terms(cf, best@, egraph@, eclass as int),
                        best_cost is None <==> best@.len() == 0,
                        best_cost matches Some(bc) ==> forall|k: int| 0 <= k < best@.len() ==> total_cost(cf, #[trigger] best@[k]@) == bc,
                        nonempty_before ==> best@.len() > 0,
                        children@.len() == 0 && p > 0 ==> best@.len() > 0,
                    decreases perms@.len() - p,
                {
                    proof {
                        lemma_permutation_members(cv, p as int);
                        assert(terms_copy(perms@[p as int]@, permutations(cv)[p as int]));
                    }
                    let choice = copy_terms(&perms[p]);
                    proof {
                        assert forall|i: int| 0 <= i < choice@.len() implies wf_expr(#[trigger] choice@[i]@) && choice@[i]@.len() > 0 && all_from(cf, egraph@, choice@[i]@)
                            && (forall|q: int| 0 <= q < choice@[i]@.len() ==> #[trigger] locally_in(cf, egraph@, choice@[i]@, q))
                            && class_node(cf, egraph@, children@[i] as int, choice@[i]@.last()) by {
                            let m = permutations(cv)[p as int][i];
                            assert(cv[i].contains(m));
                            let k = choose|k: int| 0 <= k < cv[i].len() && cv[i][k] == m;
                            assert(expr_copy(perms@[p as int]@[i]@, m));
                            lemma_copy_wf(choice@[i]@, perms@[p as int]@[i]@, m);
                            lemma_all_from_copy(cf, egraph@, perms@[p as int]@[i]@, m);
                            lemma_all_from_copy(cf, egraph@, choice@[i]@, perms@[p as int]@[i]@);
                            lemma_local_copy(cf, egraph@, perms@[p as int]@[i]@, m);
                            lemma_copy_wf(perms@[p as int]@[i]@, m, m);
                            lemma_local_copy(cf, egraph@, choice@[i]@, perms@[p as int]@[i]@);
                            let x = choice@[i]@;
                            let y = perms@[p as int]@[i]@;
                            assert(node_eq(x.last(), y.last()));
                            assert(node_eq(y.last(), m.last()));
                            lemma_node_from(cf, egraph@, children@[i] as int, y.last(), m.last());
                            lemma_node_from(cf, egraph@, children@[i] as int, x.last(), y.last());
                        }
                    }
                    assert(choice@.len() == cv.len());
                    assert(node.children() == children@);
                    let ghost ch = choice@;
                    let (mut expr, ids) = merge_expr(choice);
                    let remapped = set_children(node, &ids);
                    proof {
                        crate::verilog::lemma_push_wf(expr@, remapped);
                    }
                    let ghost merged = expr@;
                    expr.push(remapped);
                    proof {
                        assert(same_shape(remapped, egraph@[eclass as int]@[n as int]));
                        assert(class_node(cf, egraph@, eclass as int, expr@.last()));
                        assert(extends(merged, expr@)) by {
                            assert(expr@.subrange(0, merged.len() as int) =~= merged);
                        }
                        assert forall|i: int| 0 <= i < merged.len() implies #[trigger] locally_in(cf, egraph@, expr@, i) by {
                            assert(denotes_input(merged, i, ch));
                            let (kk, bb) = choose|kk: int, bb: int| 0 <= kk < ch.len() && 0 <= bb < ch[kk]@.len() && deep_eq(merged, i, ch[kk]@, bb);
                            assert(locally_in(cf, egraph@, ch[kk]@, bb));
                            let (c, nn) = choose|c: int, nn: int| 0 <= c < egraph@.len() && #[trigger] node_of(cf, egraph@, ch[kk]@, bb, c, nn);
                            lemma_node_of_deep_eq(cf, egraph@, merged, i, ch[kk]@, bb, c, nn);
                            lemma_node_of_extend(cf, egraph@, merged, expr@, i, c, nn);
                        }
                        let last = expr@.len() - 1;
                        assert forall|j: int| 0 <= j < expr@[last].children().len() implies class_node(
                            cf,
                            egraph@,
                            egraph@[eclass as int]@[n as int].children()[j] as int,
                            #[trigger] expr@[expr@[last].children()[j] as int],
                        ) by {
                            let idj = ids@[j] as int;
                            assert(expr@[last].children()[j] == ids@[j]);
                            assert(deep_eq(merged, idj, ch[j]@, ch[j]@.len() - 1));
                            assert(same_shape(merged[idj], ch[j]@.last()));
                            assert(expr@[idj] == merged[idj]);
                            assert(egraph@[eclass as int]@[n as int].children()[j] == children@[j]);
                            lemma_node_from(cf, egraph@, children@[j] as int, expr@[idj], ch[j]@.last());
                        }
                        assert(node_of(cf, egraph@, expr@, last, eclass as int, n as int));
                        assert forall|i: int| 0 <= i < expr@.len() implies #[trigger] locally_in(cf, egraph@, expr@, i) by {
                            if i == last {
                                assert(node_of(cf, egraph@, expr@, i, eclass as int, n as int));
                            }
                        }
                        assert forall|i: int| 0 <= i < expr@.len() implies !cf.skip_spec(#[trigger] expr@[i]) && exists|c: int|
                            0 <= c < egraph@.len() && class_node(cf, egraph@, c, expr@[i]) by {
                            if i < merged.len() {
                                assert(expr@[i] == merged[i]);
                                let (kk, jj) = choose|kk: int, jj: int|
                                    0 <= kk < ch.len() && 0 <= jj < ch[kk]@.len() && same_shape(merged[i], ch[kk]@[jj]);
                                assert(all_from(cf, egraph@, ch[kk]@));
                                let y = ch[kk]@[jj];
                                let c = choose|c: int| 0 <= c < egraph@.len() && class_node(cf, egraph@, c, y);
                                lemma_node_from(cf, egraph@, c, expr@[i], y);
                                cf.lemma_shape(expr@[i], y);
                            } else {
                                assert(expr@[i] == remapped);
                                cf.lemma_shape(remapped, egraph@[eclass as int]@[n as int]);
                            }
                        }
                    }
                    let mut total: u64 = 0;
                    let mut q: usize = 0;
                    while q < expr.len()
                        invariant
                            q <= expr@.len(),
                            self.cost_function == cf,
                            total == total_cost(cf, expr@.subrange(0, q as int)),
                        decreases expr@.len() - q,
                    {
                        proof {
                            assert(expr@.subrange(0, q + 1).drop_last() =~= expr@.subrange(0, q as int));
                        }
                        total = self.cost_function.fold(total, self.cost_function.cost(&expr[q]));
                        q = q + 1;
                    }
                    assert(expr@.subrange(0, q as int) =~= expr@);
                    let better = match best_cost {
                        None => true,
                        Some(b) => total < b,
                    };
                    let tie = match best_cost {
                        None => false,
                        Some(b) => total == b,
                    };
                    let ghost eview = expr@;
                    let ghost old_best = best@;
                    let ghost old_cost = best_cost;
                    assert(total_cost(cf, eview) == total);
                    if better {
                        best_cost = Some(total);
                        best = Vec::new();
                        best.push(expr);
                    } else if tie && best.len() < 1000 {
                        best.push(expr);
                    }
                    proof {
                        assert forall|k: int| 0 <= k < best@.len() implies wf_expr(#[trigger] best@[k]@) && best@[k]@.len() > 0 && class_node(
                            cf,
                            egraph@,
                            eclass as int,
                            best@[k]@.last(),
                        ) && all_from(cf, egraph@, best@[k]@) && total_cost(cf, best@[k]@) == total_cost(cf, best@[0]@) by {
                            if better {
                                assert(best@[k]@ == eview);
                                assert(best@[0]@ == eview);
                            } else if k < old_best.len() {
                                assert(best@[k] == old_best[k]);
                                assert(best@[0] == old_best[0]);
                                assert(good_terms(cf, old_best, egraph@, eclass as int));
                            } else {
                                assert(best@[k]@ == eview);
                                assert(best@[0] == old_best[0]);
                                assert(old_cost matches Some(bc) && total == bc);
                                assert(total_cost(cf, old_best[0]@) == total);
                            }
                        }
                    }
                    p = p + 1;
                }
                proof {
                    if children@.len() == 0 {
                        assert(perms@.len() == 1);
                    }
                }
            }
            assert(children@.len() == 0 && !cf.skip_spec(*node) ==> best@.len() > 0);
            if kids {
                let mut f = self.visited[eclass].clone();
                assert(f@ =~= self.visited@[eclass as int]@);
                assert(f@ == fv1[eclass as int]);
                f.set(n, false);
                proof {
                    assert(fv0[eclass as int][n as int] == false);
                    assert(f@ =~= fv0[eclass as int]);
                }
                let ghost vis1 = self.visited@;
                self.visited.set(eclass, f);
                proof {
                    assert(fv1 == fv0.update(eclass as int, fv0[eclass as int].update(n as int, true)));
                    assert(self.visited@ == vis1.update(eclass as int, f));
                    assert forall|i: int| 0 <= i < fv0.len() implies #[trigger] flags_view(self.visited@)[i] == fv0[i] by {
                        if i != eclass {
                            assert(flags_view(self.visited@)[i] == vis1[i]@);
                            assert(vis1[i]@ == fv1[i]);
                        }
                    }
                    assert(flags_view(self.visited@) =~= fv0);
                }
            }
            n = n + 1;
        }
        let stored = copy_terms(&best);
        proof {
            lemma_good_copy(cf, stored@, best@, egraph@, eclass as int);
            if has_leaf(cf, egraph@, eclass as int) {
                let m = choose|m: int|
                    0 <= m < egraph@[eclass as int]@.len() && egraph@[eclass as int]@[m].children().len() == 0 && !cf.skip_spec(
                        egraph@[eclass as int]@[m],
                    );
                assert(nodes@[m].children().len() == 0);
            }
        }
        self.best_exprs.set(eclass, Some(stored));
        best
    }
}

/// A copy of each term of `v`.
fn copy_terms(v: &Vec<Vec<LutLang>>) -> (r: Vec<Vec<LutLang>>)
    ensures
        terms_copy(r@, v@.map_values(|e: Vec<LutLang>| e@)),
{
    let mut r: Vec<Vec<LutLang>> = Vec::new();
    let mut i: usize = 0;
    while i < v.len()
        invariant
            i <= v@.len(),
            r@.len() == i,
            forall|k: int| 0 <= k < i ==> expr_copy(#[trigger] r@[k]@, v@[k]@),
        decreases v@.len() - i,
    {
        r.push(copy_expr(&v[i]));
        i = i + 1;
    }
    r
}

proof fn lemma_copy_wf(x: Seq<LutLang>, y: Seq<LutLang>, z: Seq<LutLang>)
    requires
        expr_copy(x, y),
        expr_copy(y, z),
        wf_expr(z),
        z.len() > 0,
    ensures
        wf_expr(x),
        x.len() > 0,
{
    assert forall|i: int, j: int| 0 <= i < x.len() && 0 <= j < x[i].children().len() implies #[trigger] x[i].children()[j] < i by {
        assert(node_eq(x[i], y[i]));
        assert(node_eq(y[i], z[i]));
    }
}

/// Each pick of [`permutations`] takes its `i`-th element from the `i`-th
/// list.
pub proof fn lemma_permutation_members<X>(c: Seq<Seq<X>>, p: int)
    requires
        0 <= p < permutations(c).len(),
    ensures
        permutations(c)[p].len() == c.len(),
        forall|i: int| 0 <= i < c.len() ==> #[trigger] c[i].contains(permutations(c)[p][i]),
    decreases c.len(),
{
    if c.len() > 0 {
        let rest = permutations(c.drop_first());
        lemma_combos_member(c[0], rest, c.len() - 1, p);
        let q = choose|q: int| 0 <= q < rest.len() && #[trigger] permutations(c)[p] == seq![permutations(c)[p][0]] + rest[q];
        lemma_permutation_members(c.drop_first(), q);
        assert forall|i: int| 0 <= i < c.len() implies #[trigger] c[i].contains(permutations(c)[p][i]) by {
            if i > 0 {
                assert(permutations(c)[p][i] == rest[q][i - 1]);
                assert(c.drop_first()[i - 1] == c[i]);
            }
        }
    }
}

proof fn lemma_combos_member<X>(first: Seq<X>, rest: Seq<Seq<X>>, m: int, p: int)
    requires
        0 <= p < combos(first, rest).len(),
    ensures
        first.contains(combos(first, rest)[p][0]),
        exists|q: int| 0 <= q < rest.len() && #[trigger] combos(first, rest)[p] == seq![combos(first, rest)[p][0]] + rest[q],
    decreases first.len(),
{
    if first.len() > 0 {
        let earlier = combos(first.drop_last(), rest);
        let added = rest.map_values(|o: Seq<X>| seq![first.last()] + o);
        assert(combos(first, rest) == earlier + added);
        if p < earlier.len() {
            lemma_combos_member(first.drop_last(), rest, m, p);
            assert(combos(first, rest)[p] == earlier[p]);
            let x = earlier[p][0];
            assert(first.drop_last().contains(x));
            let k = choose|k: int| 0 <= k < first.drop_last().len() && first.drop_last()[k] == x;
            assert(first[k] == x);
        } else {
            let q = p - earlier.len();
            assert(combos(first, rest)[p] == added[q]);
            assert(added[q] == seq![first.last()] + rest[q]);
            assert(added[q][0] == first.last());
            assert(first[first.len() - 1] == first.last());
        }
    }
}

/// `node` with children `ids`, in order.
fn set_children(node: &LutLang, ids: &Vec<usize>) -> (r: LutLang)
    requires
        ids@.len() == node.children().len(),
    ensures
        same_op(r, *node),
        r.children() == ids@,
{
    match node {
        LutLang::Lut(_) => LutLang::Lut(copy_ids(ids)),
        LutLang::Bus(_) => LutLang::Bus(copy_ids(ids)),
        LutLang::Reg(_) => LutLang::Reg(ids[0]),
        LutLang::And(..) => LutLang::And(ids[0], ids[1]),
        LutLang::Nor(..) => LutLang::Nor(ids[0], ids[1]),
        LutLang::Xor(..) => LutLang::Xor(ids[0], ids[1]),
        LutLang::Mux(..) => LutLang::Mux(ids[0], ids[1], ids[2]),
        LutLang::Not(_) => LutLang::Not(ids[0]),
        LutLang::Const(b) => LutLang::Const(*b),
        LutLang::Program(p) => LutLang::Program(*p),
        LutLang::Var(v) => LutLang::Var(v.clone()),
        LutLang::DC => LutLang::DC,
        LutLang::Arg(a) => LutLang::Arg(*a),
        LutLang::Cycle(a) => LutLang::Cycle(*a),
    }
}

} // verus!
