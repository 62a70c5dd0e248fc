//! The LUT-oriented circuit term language and its truth-table helpers.
use vstd::arithmetic::power2::{lemma_pow2_pos, lemma_pow2_unfold, pow2};
use vstd::prelude::*;

verus! {

/// The numeric value of a little-endian bit sequence: `s[0]` is the least
/// significant bit.
pub open spec fn bits_value(s: Seq<bool>) -> nat
    decreases s.len(),
{
    if s.len() == 0 {
        0
    } else {
        (if s[0] {
            1nat
        } else {
            0nat
        }) + 2 * bits_value(s.drop_first())
    }
}

/// The lowest `k` bits of `p`, least significant first.
pub open spec fn bitvec_of(p: nat, k: nat) -> Seq<bool>
    decreases k,
{
    if k == 0 {
        Seq::empty()
    } else {
        seq![p % 2 == 1] + bitvec_of(p / 2, (k - 1) as nat)
    }
}

/// Splitting a value that fits in `k` bits into `k` bits and reassembling
/// them gives the value back.
pub proof fn lemma_bitvec_round_trip(p: nat, k: nat)
    requires
        p < pow2(k),
    ensures
        bitvec_of(p, k).len() == k,
        bits_value(bitvec_of(p, k)) == p,
    decreases k,
{
    if k == 0 {
        vstd::arithmetic::power2::lemma2_to64();
    } else {
        lemma_pow2_unfold(k);
        lemma_bitvec_round_trip(p / 2, (k - 1) as nat);
        let v = bitvec_of(p, k);
        assert(v.drop_first() =~= bitvec_of(p / 2, (k - 1) as nat));
    }
}

/// A bit sequence of length `n` is worth less than `2^n`.
pub proof fn lemma_bits_value_bound(s: Seq<bool>)
    ensures
        bits_value(s) < pow2(s.len()),
    decreases s.len(),
{
    if s.len() > 0 {
        lemma_bits_value_bound(s.drop_first());
        lemma_pow2_unfold(s.len());
    } else {
        lemma_pow2_pos(0);
        assert(pow2(0) == 1) by {
            vstd::arithmetic::power2::lemma2_to64();
        }
    }
}

/// Appending a bit at the most significant end adds `2^len` when the bit is set.
pub proof fn lemma_bits_value_push(s: Seq<bool>, b: bool)
    ensures
        bits_value(s.push(b)) == bits_value(s) + pow2(s.len()) * (if b {
            1nat
        } else {
            0nat
        }),
    decreases s.len(),
{
    if s.len() == 0 {
        assert(s.push(b).drop_first() =~= Seq::<bool>::empty());
        assert(bits_value(Seq::<bool>::empty()) == 0);
        assert(s.push(b)[0] == b);
        vstd::arithmetic::power2::lemma2_to64();
    } else {
        assert(s.push(b).drop_first() =~= s.drop_first().push(b));
        assert(s.push(b)[0] == s[0]);
        lemma_bits_value_push(s.drop_first(), b);
        lemma_pow2_unfold(s.len());
        let t: nat = if b {
            1nat
        } else {
            0nat
        };
        let p = pow2((s.len() - 1) as nat);
        assert(2 * (p * t) == (2 * p) * t) by (nonlinear_arith);
    }
}

/// Splits `program` into its lowest `k` bits, least significant first.
///
/// Fails exactly when `program` has a bit set at position `k` or above, that
/// is when it does not fit in `k` bits.
pub fn to_bitvec(program: u64, k: usize) -> (r: Result<Vec<bool>, String>)
    ensures
        r is Err <==> program as nat >= pow2(k as nat),
        r matches Ok(v) ==> v@ == bitvec_of(program as nat, k as nat) && bits_value(v@)
            == program as nat,
{
    let mut v: Vec<bool> = Vec::new();
    let mut q: u64 = program;
    let mut i: usize = 0;
    proof {
        vstd::arithmetic::power2::lemma2_to64();
        assert(v@ =~= Seq::<bool>::empty());
    }
    while i < k
        invariant
            i <= k,
            v@.len() == i,
            program as nat == bits_value(v@) + pow2(i as nat) * q,
            v@ + bitvec_of(q as nat, (k - i) as nat) == bitvec_of(program as nat, k as nat),
        decreases k - i,
    {
        proof {
            let rest = bitvec_of(q as nat, (k - i) as nat);
            assert(rest == seq![q % 2 == 1] + bitvec_of((q / 2) as nat, (k - i - 1) as nat));
            assert(v@ + rest =~= v@.push(q % 2 == 1) + bitvec_of(
                (q / 2) as nat,
                (k - i - 1) as nat,
            ));
        }
        let b = q % 2 == 1;
        proof {
            lemma_bits_value_push(v@, b);
            lemma_pow2_unfold((i + 1) as nat);
            let p = pow2(i as nat);
            let qq = q as int;
            assert(p * qq == p * (qq % 2) + (2 * p) * (qq / 2)) by (nonlinear_arith);
        }
        v.push(b);
        q = q / 2;
        i = i + 1;
    }
    proof {
        lemma_bits_value_bound(v@);
        lemma_pow2_pos(k as nat);
        assert(v@ + bitvec_of(q as nat, 0) =~= v@);
        if q != 0 {
            assert(pow2(k as nat) * q >= pow2(k as nat)) by (nonlinear_arith)
                requires
                    q >= 1,
            ;
        }
    }
    if q != 0 {
        Err(String::from_str("the program does not fit in the requested number of bits"))
    } else {
        Ok(v)
    }
}

/// Reassembles a program from its bits, least significant first.
pub fn from_bitvec(bv: &Vec<bool>) -> (r: u64)
    requires
        bv@.len() <= 64,
    ensures
        r as nat == bits_value(bv@),
{
    let n = bv.len();
    let mut acc: u64 = 0;
    let mut i: usize = n;
    proof {
        assert(bv@.subrange(n as int, n as int) =~= Seq::<bool>::empty());
    }
    while i > 0
        invariant
            i <= n,
            n == bv@.len(),
            n <= 64,
            acc as nat == bits_value(bv@.subrange(i as int, n as int)),
        decreases i,
    {
        proof {
            let s = bv@.subrange(i - 1, n as int);
            assert(s.drop_first() =~= bv@.subrange(i as int, n as int));
            lemma_bits_value_bound(s);
            vstd::arithmetic::power2::lemma2_to64();
            if s.len() < 64 {
                vstd::arithmetic::power2::lemma_pow2_strictly_increases(s.len(), 64);
            }
        }
        let b: u64 = if bv[i - 1] {
            1
        } else {
            0
        };
        acc = acc * 2 + b;
        i = i - 1;
    }
    proof {
        assert(bv@.subrange(0, n as int) =~= bv@);
    }
    acc
}

/// Bit `i` of the truth table `x`.
pub open spec fn bit_of(x: u64, i: u64) -> bool {
    (x >> i) & 1u64 == 1u64
}

/// The row index `i` with its input bits `pos` and `pos + 1` exchanged.
pub open spec fn swap_index(i: u64, pos: u64) -> u64 {
    if (i >> pos) & 1u64 == (i >> ((pos + 1) as u64)) & 1u64 {
        i
    } else {
        i ^ (3u64 << pos)
    }
}

proof fn lemma_swap_index_bound(i: u64, pos: u64, k: u64)
    requires
        k <= 6,
        pos + 1 < k,
        i < (1u64 << k),
    ensures
        swap_index(i, pos) < (1u64 << k),
{
    assert(((i >> pos) & 1u64 == (i >> ((pos + 1) as u64)) & 1u64) || (i ^ (3u64 << pos)) < (1u64
        << k)) by (bit_vector)
        requires
            k <= 6,
            pos + 1 < k,
            i < (1u64 << k),
    ;
}

proof fn lemma_set_bit(r: u64, i: u64, j: u64)
    requires
        i < 64,
        j < 64,
    ensures
        bit_of(r | (1u64 << i), j) == (bit_of(r, j) || j == i),
{
    assert(((r | (1u64 << i)) >> j) & 1u64 == 1u64 <==> (((r >> j) & 1u64 == 1u64) || j == i))
        by (bit_vector)
        requires
            i < 64,
            j < 64,
    ;
}

/// Rewrites the truth table of a `k`-input LUT so that it describes the same
/// function after its inputs `pos` and `pos + 1` trade places: row `i` of the
/// result is row `swap_index(i, pos)` of `tt`, and no bit above row `2^k - 1`
/// is set.
pub fn swap_pos(tt: &u64, k: usize, pos: usize) -> (r: u64)
    requires
        k <= 6,
        pos + 1 < k,
    ensures
        forall|i: u64| i < (1u64 << k) ==> bit_of(r, i) == bit_of(*tt, swap_index(i, pos as u64)),
        forall|i: u64| (1u64 << k) <= i < 64 ==> !bit_of(r, i),
{
    let kk = k as u64;
    let p = pos as u64;
    let n: u64 = 1u64 << kk;
    assert(n <= 64) by (bit_vector)
        requires
            kk <= 6,
            n == 1u64 << kk,
    ;
    let mut r: u64 = 0;
    let mut i: u64 = 0;
    assert forall|j: u64| j < 64 implies !bit_of(0u64, j) by {
        assert((0u64 >> j) & 1u64 == 0u64) by (bit_vector);
    }
    while i < n
        invariant
            kk == k,
            p == pos,
            kk <= 6,
            p + 1 < kk,
            n == 1u64 << kk,
            n <= 64,
            i <= n,
            forall|j: u64| j < i ==> bit_of(r, j) == bit_of(*tt, swap_index(j, p)),
            forall|j: u64| i <= j < 64 ==> !bit_of(r, j),
        decreases n - i,
    {
        proof {
            lemma_swap_index_bound(i, p, kk);
        }
        let src = if (i >> p) & 1u64 == (i >> (p + 1)) & 1u64 {
            i
        } else {
            i ^ (3u64 << p)
        };
        let old_r = r;
        if (*tt >> src) & 1u64 == 1u64 {
            r = r | (1u64 << i);
            proof {
                assert forall|j: u64| j < 64 implies bit_of(r, j) == (bit_of(old_r, j) || j
                    == i) by {
                    lemma_set_bit(old_r, i, j);
                }
            }
        }
        i = i + 1;
    }
    r
}

/// The largest number of inputs a LUT can have.
pub const MAX_LUT_SIZE: usize = 6;

/// One node of a circuit term. Children are positions of earlier nodes in
/// the same term (see [`wf_expr`]).
#[derive(Debug, Clone, PartialEq, Eq)]
pub enum LutLang {
    /// A logical 0 or 1.
    Const(bool),
    /// The truth table of a LUT of at most six inputs.
    Program(u64),
    /// A free input: a netlist input or a boundary.
    Var(String),
    /// A don't-care value.
    DC,
    /// A LUT: the program node, then the inputs from most to least significant.
    Lut(Vec<usize>),
    /// A group of outputs; only at the root of a term.
    Bus(Vec<usize>),
    /// A unit-delay register.
    Reg(usize),
    /// Two-input AND.
    And(usize, usize),
    /// Two-input NOR.
    Nor(usize, usize),
    /// Two-input XOR.
    Xor(usize, usize),
    /// `Mux(s, a, b)` is `a` when `s` holds, else `b`.
    Mux(usize, usize, usize),
    /// Inversion.
    Not(usize),
    /// A positional placeholder used by rewrite templates.
    Arg(usize),
    /// A marker for a broken cycle.
    Cycle(usize),
}

impl LutLang {
    /// The children of the node, in order.
    pub open spec fn children(&self) -> Seq<usize> {
        match self {
            LutLang::Lut(l) => l@,
            LutLang::Bus(l) => l@,
            LutLang::Reg(d) => seq![*d],
            LutLang::And(a, b) => seq![*a, *b],
            LutLang::Nor(a, b) => seq![*a, *b],
            LutLang::Xor(a, b) => seq![*a, *b],
            LutLang::Mux(s, a, b) => seq![*s, *a, *b],
            LutLang::Not(a) => seq![*a],
            _ => Seq::empty(),
        }
    }

    /// The children of the node, in order.
    pub fn children_vec(&self) -> (r: Vec<usize>)
        ensures
            r@ == self.children(),
    {
        match self {
            LutLang::Lut(l) => l.clone(),
            LutLang::Bus(l) => l.clone(),
            LutLang::Reg(d) => vec![*d],
            LutLang::And(a, b) => vec![*a, *b],
            LutLang::Nor(a, b) => vec![*a, *b],
            LutLang::Xor(a, b) => vec![*a, *b],
            LutLang::Mux(s, a, b) => vec![*s, *a, *b],
            LutLang::Not(a) => vec![*a],
            _ => Vec::new(),
        }
    }

    /// Whether the node is a LUT.
    pub fn is_lut(&self) -> (r: bool)
        ensures
            r == (self is Lut),
    {
        matches!(self, LutLang::Lut(_))
    }

    /// Whether the node is a bus.
    pub fn is_bus(&self) -> (r: bool)
        ensures
            r == (self is Bus),
    {
        matches!(self, LutLang::Bus(_))
    }

    /// The primitive that implements a logic node, if any.
    pub fn get_prim_name(&self) -> (r: Option<String>)
        ensures
            r is Some <==> (self is And || self is Nor || self is Xor || self is Mux
                || self is Not),
            self is And ==> (r matches Some(n) && n@ == "AND2"@),
            self is Nor ==> (r matches Some(n) && n@ == "NOR2"@),
            self is Xor ==> (r matches Some(n) && n@ == "XOR2"@),
            self is Mux ==> (r matches Some(n) && n@ == "MUX"@),
            self is Not ==> (r matches Some(n) && n@ == "NOT"@),
    {
        match self {
            LutLang::And(..) => Some(String::from_str("AND2")),
            LutLang::Nor(..) => Some(String::from_str("NOR2")),
            LutLang::Xor(..) => Some(String::from_str("XOR2")),
            LutLang::Mux(..) => Some(String::from_str("MUX")),
            LutLang::Not(..) => Some(String::from_str("NOT")),
            _ => None,
        }
    }
}

/// A term is well formed when every child refers to an earlier node, so the
/// term is acyclic and the last node is its root.
pub open spec fn wf_expr(e: Seq<LutLang>) -> bool {
    forall|i: int, j: int|
        0 <= i < e.len() && 0 <= j < e[i].children().len() ==> #[trigger] e[i].children()[j] < i
}

/// `p` walks from a node to one of its children at each step.
pub open spec fn is_child_path(e: Seq<LutLang>, p: Seq<usize>) -> bool {
    &&& forall|i: int| 0 <= i < p.len() ==> #[trigger] p[i] < e.len()
    &&& forall|i: int|
        0 <= i < p.len() - 1 ==> e[#[trigger] p[i] as int].children().contains(p[i + 1])
}

/// A well-formed term has no cycle: every walk from a node down through its
/// children ends at an earlier node, never at the one it started from.
pub proof fn lemma_wf_expr_acyclic(e: Seq<LutLang>, p: Seq<usize>)
    requires
        wf_expr(e),
        is_child_path(e, p),
        p.len() >= 2,
    ensures
        p.last() < p[0],
        p.last() != p[0],
    decreases p.len(),
{
    let c = p[1];
    assert(e[p[0] as int].children().contains(c));
    let j = choose|j: int| 0 <= j < e[p[0] as int].children().len() && e[p[0] as int].children()[j] == c;
    assert(e[p[0] as int].children()[j] < p[0]);
    if p.len() > 2 {
        let q = p.drop_first();
        assert forall|i: int| 0 <= i < q.len() - 1 implies e[#[trigger] q[i] as int].children().contains(q[i + 1]) by {
            assert(q[i] == p[i + 1]);
            assert(e[p[i + 1] as int].children().contains(p[i + 2]));
        }
        lemma_wf_expr_acyclic(e, q);
    }
}

/// The number of LUT nodes in `e`.
pub open spec fn lut_count(e: Seq<LutLang>) -> nat
    decreases e.len(),
{
    if e.len() == 0 {
        0
    } else {
        lut_count(e.drop_last()) + if e.last() is Lut {
            1nat
        } else {
            0nat
        }
    }
}

/// The number of LUT nodes in `e` with exactly `k` inputs.
pub open spec fn lut_count_k(e: Seq<LutLang>, k: nat) -> nat
    decreases e.len(),
{
    if e.len() == 0 {
        0
    } else {
        lut_count_k(e.drop_last(), k) + match e.last() {
            LutLang::Lut(l) => if l@.len() == k + 1 {
                1nat
            } else {
                0nat
            },
            _ => 0nat,
        }
    }
}

/// Counts the LUT nodes of a term.
pub fn get_lut_count(expr: &Vec<LutLang>) -> (r: usize)
    ensures
        r == lut_count(expr@),
{
    let mut n: usize = 0;
    let mut i: usize = 0;
    while i < expr.len()
        invariant
            i <= expr@.len(),
            n == lut_count(expr@.subrange(0, i as int)),
            n <= i,
        decreases expr@.len() - i,
    {
        assert(expr@.subrange(0, i + 1).drop_last() =~= expr@.subrange(0, i as int));
        if expr[i].is_lut() {
            n = n + 1;
        }
        i = i + 1;
    }
    assert(expr@.subrange(0, i as int) =~= expr@);
    n
}

/// Counts the LUT nodes of a term that have exactly `k` inputs.
pub fn get_lut_count_k(expr: &Vec<LutLang>, k: usize) -> (r: usize)
    ensures
        r == lut_count_k(expr@, k as nat),
{
    let mut n: usize = 0;
    let mut i: usize = 0;
    while i < expr.len()
        invariant
            i <= expr@.len(),
            n == lut_count_k(expr@.subrange(0, i as int), k as nat),
            n <= i,
        decreases expr@.len() - i,
    {
        assert(expr@.subrange(0, i + 1).drop_last() =~= expr@.subrange(0, i as int));
        match &expr[i] {
            LutLang::Lut(l) => {
                if l.len() > 0 && l.len() - 1 == k {
                    n = n + 1;
                }
            },
            _ => {},
        }
        i = i + 1;
    }
    assert(expr@.subrange(0, i as int) =~= expr@);
    n
}

/// The row that inputs `xs` select, the first input being the most
/// significant bit.
pub open spec fn row_of(xs: Seq<bool>) -> nat
    decreases xs.len(),
{
    if xs.len() == 0 {
        0
    } else {
        row_of(xs.drop_last()) * 2 + if xs.last() {
            1nat
        } else {
            0nat
        }
    }
}

/// What a LUT with program `p` outputs on inputs `xs`, most significant
/// first: bit `row_of(xs)` of `p`.
pub open spec fn lut_output(p: u64, xs: Seq<bool>) -> bool {
    bit_of(p, row_of(xs) as u64)
}

/// The values of the nodes `ids` among the node values `vals`, if all have one.
pub open spec fn values_of(ids: Seq<usize>, vals: Seq<Option<bool>>) -> Option<Seq<bool>>
    decreases ids.len(),
{
    if ids.len() == 0 {
        Some(Seq::empty())
    } else {
        match (values_of(ids.drop_last(), vals), vals[ids.last() as int]) {
            (Some(xs), Some(x)) => Some(xs.push(x)),
            _ => None,
        }
    }
}

/// The value of node `n` given the values `vals` of the nodes before it and
/// the values `env` of the inputs; `None` where the node has no combinational
/// value (a register, a bus, a placeholder, or a missing input).
pub open spec fn node_value(
    n: LutLang,
    vals: Seq<Option<bool>>,
    progs: Seq<Option<u64>>,
    env: Map<Seq<char>, bool>,
) -> Option<bool> {
    match n {
        LutLang::Const(b) => Some(b),
        LutLang::Var(v) => if env.contains_key(v@) {
            Some(env[v@])
        } else {
            None
        },
        LutLang::And(a, b) => match (vals[a as int], vals[b as int]) {
            (Some(x), Some(y)) => Some(x && y),
            _ => None,
        },
        LutLang::Nor(a, b) => match (vals[a as int], vals[b as int]) {
            (Some(x), Some(y)) => Some(!(x || y)),
            _ => None,
        },
        LutLang::Xor(a, b) => match (vals[a as int], vals[b as int]) {
            (Some(x), Some(y)) => Some(x != y),
            _ => None,
        },
        LutLang::Mux(c, a, b) => match (vals[c as int], vals[a as int], vals[b as int]) {
            (Some(x), Some(y), Some(z)) => Some(if x {
                y
            } else {
                z
            }),
            _ => None,
        },
        LutLang::Not(a) => match vals[a as int] {
            Some(x) => Some(!x),
            None => None,
        },
        LutLang::Lut(l) => if 2 <= l@.len() <= 7 {
            match (progs[l@[0] as int], values_of(l@.drop_first(), vals)) {
                (Some(p), Some(xs)) => Some(lut_output(p, xs)),
                _ => None,
            }
        } else {
            None
        },
        _ => None,
    }
}

/// The programs that the `Program` nodes of `e` hold.
pub open spec fn programs_of(e: Seq<LutLang>) -> Seq<Option<u64>> {
    e.map_values(|n: LutLang| match n {
        LutLang::Program(p) => Some(p),
        _ => None,
    })
}

/// The values of the first `i` nodes of `e` under the input values `env`.
pub open spec fn expr_values(e: Seq<LutLang>, env: Map<Seq<char>, bool>, i: nat) -> Seq<Option<bool>>
    decreases i,
{
    if i == 0 {
        Seq::empty()
    } else {
        let vals = expr_values(e, env, (i - 1) as nat);
        vals.push(node_value(e[i - 1], vals, programs_of(e), env))
    }
}

proof fn lemma_expr_values_len(e: Seq<LutLang>, env: Map<Seq<char>, bool>, i: nat)
    ensures
        expr_values(e, env, i).len() == i,
    decreases i,
{
    if i > 0 {
        lemma_expr_values_len(e, env, (i - 1) as nat);
    }
}

fn lut_row(xs: &Vec<bool>) -> (r: u64)
    requires
        xs@.len() <= 6,
    ensures
        r == row_of(xs@),
        r < 64,
{
    let mut r: u64 = 0;
    let mut i: usize = 0;
    while i < xs.len()
        invariant
            i <= xs@.len(),
            xs@.len() <= 6,
            r == row_of(xs@.subrange(0, i as int)),
            r < pow2_small(i as nat),
        decreases xs@.len() - i,
    {
        assert(xs@.subrange(0, i + 1).drop_last() =~= xs@.subrange(0, i as int));
        proof {
            lemma_pow2_small_bound(i as nat);
            assert(pow2_small((i + 1) as nat) == 2 * pow2_small(i as nat));
        }
        r = r * 2 + if xs[i] {
            1
        } else {
            0
        };
        i = i + 1;
    }
    assert(xs@.subrange(0, i as int) =~= xs@);
    proof {
        lemma_pow2_small_bound(i as nat);
    }
    r
}

proof fn lemma_pow2_small_bound(i: nat)
    requires
        i <= 6,
    ensures
        pow2_small(i) == seq![1nat, 2, 4, 8, 16, 32, 64][i as int],
    decreases i,
{
    if i > 0 {
        lemma_pow2_small_bound((i - 1) as nat);
    }
}

/// `2^i` for `i <= 6`.
pub open spec fn pow2_small(i: nat) -> nat
    decreases i,
{
    if i == 0 {
        1
    } else {
        2 * pow2_small((i - 1) as nat)
    }
}

/// The value of every node of the term `expr` when its inputs take the
/// values `env`; `None` for a node without a combinational value.
pub fn eval_expr(expr: &Vec<LutLang>, env: &crate::name_map::NameMap<bool>) -> (r: Vec<Option<bool>>)
    requires
        wf_expr(expr@),
        env.wf(),
    ensures
        r@ == expr_values(expr@, env@, expr@.len()),
{
    let mut vals: Vec<Option<bool>> = Vec::new();
    let mut progs: Vec<Option<u64>> = Vec::new();
    let mut i: usize = 0;
    while i < expr.len()
        invariant
            wf_expr(expr@),
            env.wf(),
            i <= expr@.len(),
            vals@ == expr_values(expr@, env@, i as nat),
            progs@.len() == i,
            forall|j: int| 0 <= j < i ==> #[trigger] progs@[j] == programs_of(expr@)[j],
        decreases expr@.len() - i,
    {
        proof {
            lemma_expr_values_len(expr@, env@, i as nat);
        }
        let ghost pv = programs_of(expr@);
        let node = &expr[i];
        let v: Option<bool> = match node {
            LutLang::Const(b) => Some(*b),
            LutLang::Var(name) => match env.get(name.as_str()) {
                Some(x) => Some(*x),
                None => None,
            },
            LutLang::And(a, b) => {
                assert(node.children()[0] == *a && node.children()[1] == *b);
                match (vals[*a], vals[*b]) {
                    (Some(x), Some(y)) => Some(x && y),
                    _ => None,
                }
            },
            LutLang::Nor(a, b) => {
                assert(node.children()[0] == *a && node.children()[1] == *b);
                match (vals[*a], vals[*b]) {
                    (Some(x), Some(y)) => Some(!(x || y)),
                    _ => None,
                }
            },
            LutLang::Xor(a, b) => {
                assert(node.children()[0] == *a && node.children()[1] == *b);
                match (vals[*a], vals[*b]) {
                    (Some(x), Some(y)) => Some(x != y),
                    _ => None,
                }
            },
            LutLang::Mux(c, a, b) => {
                assert(node.children()[0] == *c && node.children()[1] == *a && node.children()[2] == *b);
                match (vals[*c], vals[*a], vals[*b]) {
                    (Some(x), Some(y), Some(z)) => Some(if x {
                        y
                    } else {
                        z
                    }),
                    _ => None,
                }
            },
            LutLang::Not(a) => {
                assert(node.children()[0] == *a);
                match vals[*a] {
                    Some(x) => Some(!x),
                    None => None,
                }
            },
            LutLang::Lut(l) => {
                if l.len() < 2 || l.len() > 7 {
                    None
                } else {
                    assert(node.children() == l@);
                    assert(l@[0] < i);
                    let p = progs[l[0]];
                    let mut xs: Vec<bool> = Vec::new();
                    let mut ok = true;
                    let mut j: usize = 1;
                    while j < l.len()
                        invariant
                            1 <= j <= l@.len(),
                            l@.len() <= 7,
                            node.children() == l@,
                            forall|m: int| 0 <= m < l@.len() ==> #[trigger] l@[m] < i,
                            vals@.len() == i,
                            ok ==> values_of(l@.subrange(1, j as int), vals@) == Some(xs@),
                            !ok ==> values_of(l@.subrange(1, j as int), vals@) is None,
                            xs@.len() <= j - 1,
                        decreases l@.len() - j,
                    {
                        assert(l@.subrange(1, j + 1).drop_last() =~= l@.subrange(1, j as int));
                        if ok {
                            match vals[l[j]] {
                                Some(x) => {
                                    xs.push(x);
                                },
                                None => {
                                    ok = false;
                                },
                            }
                        }
                        j = j + 1;
                    }
                    assert(l@.subrange(1, l@.len() as int) =~= l@.drop_first());
                    assert(progs@[l@[0] as int] == pv[l@[0] as int]);
                    match (p, ok) {
                        (Some(prog), true) => {
                            let row = lut_row(&xs);
                            Some((prog >> row) & 1u64 == 1u64)
                        },
                        _ => None,
                    }
                }
            },
            _ => None,
        };
        proof {
            assert(v == node_value(expr@[i as int], vals@, pv, env@));
        }
        vals.push(v);
        progs.push(match node {
            LutLang::Program(p) => Some(*p),
            _ => None,
        });
        i = i + 1;
    }
    vals
}

/// `xs`, inputs listed most significant first, with the inputs of weight
/// `2^pos` and `2^(pos+1)` exchanged.
pub open spec fn swap_inputs(xs: Seq<bool>, pos: int) -> Seq<bool> {
    let a = xs.len() - 1 - pos;
    let b = xs.len() - 2 - pos;
    xs.update(a, xs[b]).update(b, xs[a])
}

proof fn lemma_row_bits(xs: Seq<bool>, j: u64)
    requires
        xs.len() <= 6,
        j < 6,
    ensures
        row_of(xs) < pow2_small(xs.len()),
        j < xs.len() ==> bit_of(row_of(xs) as u64, j) == xs[xs.len() - 1 - j],
        j >= xs.len() ==> !bit_of(row_of(xs) as u64, j),
    decreases xs.len(),
{
    lemma_pow2_small_bound(xs.len());
    if xs.len() == 0 {
        assert((0u64 >> j) & 1u64 == 0u64) by (bit_vector);
    } else {
        let ys = xs.drop_last();
        lemma_pow2_small_bound(ys.len());
        let r = row_of(ys) as u64;
        let b: u64 = if xs.last() {
            1
        } else {
            0
        };
        if j > 0 {
            lemma_row_bits(ys, (j - 1) as u64);
        } else {
            lemma_row_bits(ys, 0);
        }
        assert(row_of(xs) == 2 * row_of(ys) + b);
        let x = (2 * r + b) as u64;
        assert(x == row_of(xs));
        assert(r < 32 && b <= 1 && j < 6 ==> (j == 0 ==> (x >> j) & 1u64 == b) && (j > 0 ==> (x >> j)
            & 1u64 == (r >> ((j - 1) as u64)) & 1u64)) by (bit_vector)
            requires
                x == 2 * r + b,
        ;
        if j > 0 && j < xs.len() {
            assert(ys[ys.len() - 1 - (j - 1)] == xs[xs.len() - 1 - j]);
        }
    }
}

proof fn lemma_swap_index_bits(i: u64, pos: u64, j: u64)
    requires
        i < 64,
        pos + 1 < 6,
        j < 6,
    ensures
        bit_of(swap_index(i, pos), j) == bit_of(
            i,
            if j == pos {
                (pos + 1) as u64
            } else if j == pos + 1 {
                pos
            } else {
                j
            },
        ),
{
    let q = (pos + 1) as u64;
    let s = swap_index(i, pos);
    assert(s == if (i >> pos) & 1u64 == (i >> q) & 1u64 {
        i
    } else {
        i ^ (3u64 << pos)
    });
    assert((i >> pos) & 1u64 == (i >> q) & 1u64 ==> (j == pos ==> (i >> j) & 1u64 == (i >> q)
        & 1u64) && (j == q ==> (i >> j) & 1u64 == (i >> pos) & 1u64)) by (bit_vector)
        requires
            q == pos + 1,
            pos < 5,
    ;
    assert((i >> pos) & 1u64 != (i >> q) & 1u64 ==> ((i ^ (3u64 << pos)) >> j) & 1u64 == (if j
        == pos {
        (i >> q) & 1u64
    } else if j == q {
        (i >> pos) & 1u64
    } else {
        (i >> j) & 1u64
    })) by (bit_vector)
        requires
            q == pos + 1,
            pos < 5,
            j < 6,
    ;
}

proof fn lemma_six_bits_equal(x: u64, y: u64)
    requires
        x < 64,
        y < 64,
        forall|j: u64| j < 6 ==> bit_of(x, j) == bit_of(y, j),
    ensures
        x == y,
{
    assert(bit_of(x, 0) == bit_of(y, 0));
    assert(bit_of(x, 1) == bit_of(y, 1));
    assert(bit_of(x, 2) == bit_of(y, 2));
    assert(bit_of(x, 3) == bit_of(y, 3));
    assert(bit_of(x, 4) == bit_of(y, 4));
    assert(bit_of(x, 5) == bit_of(y, 5));
    assert(x == y) by (bit_vector)
        requires
            x < 64,
            y < 64,
            (x >> 0u64) & 1u64 == 1u64 <==> (y >> 0u64) & 1u64 == 1u64,
            (x >> 1u64) & 1u64 == 1u64 <==> (y >> 1u64) & 1u64 == 1u64,
            (x >> 2u64) & 1u64 == 1u64 <==> (y >> 2u64) & 1u64 == 1u64,
            (x >> 3u64) & 1u64 == 1u64 <==> (y >> 3u64) & 1u64 == 1u64,
            (x >> 4u64) & 1u64 == 1u64 <==> (y >> 4u64) & 1u64 == 1u64,
            (x >> 5u64) & 1u64 == 1u64 <==> (y >> 5u64) & 1u64 == 1u64,
    ;
}

/// A table that `swap_pos` rewrote computes, on any inputs, what the old
/// table computes with inputs `pos` and `pos + 1` exchanged.
pub proof fn lemma_swap_pos_semantics(p: u64, r: u64, k: nat, pos: nat, xs: Seq<bool>)
    requires
        2 <= k <= 6,
        pos + 1 < k,
        xs.len() == k,
        forall|i: u64| i < (1u64 << k as u64) ==> bit_of(r, i) == bit_of(p, swap_index(i, pos as u64)),
    ensures
        lut_output(r, xs) == lut_output(p, swap_inputs(xs, pos as int)),
{
    let ys = swap_inputs(xs, pos as int);
    lemma_row_bits(xs, 0);
    lemma_row_bits(ys, 0);
    lemma_pow2_small_bound(k);
    let i = row_of(xs) as u64;
    let t = row_of(ys) as u64;
    let kk = k as u64;
    assert(i < (1u64 << kk)) by {
        assert(kk <= 6 ==> (1u64 << kk) == seq![1u64, 2, 4, 8, 16, 32, 64][kk as int]) by {
            assert((1u64 << 0u64) == 1) by (bit_vector);
            assert((1u64 << 1u64) == 2) by (bit_vector);
            assert((1u64 << 2u64) == 4) by (bit_vector);
            assert((1u64 << 3u64) == 8) by (bit_vector);
            assert((1u64 << 4u64) == 16) by (bit_vector);
            assert((1u64 << 5u64) == 32) by (bit_vector);
            assert((1u64 << 6u64) == 64) by (bit_vector);
        }
    }
    let si = swap_index(i, pos as u64);
    assert forall|j: u64| j < 6 implies bit_of(si, j) == bit_of(t, j) by {
        lemma_row_bits(xs, j);
        lemma_row_bits(ys, j);
        lemma_swap_index_bits(i, pos as u64, j);
        let sj: u64 = if j == pos {
            (pos + 1) as u64
        } else if j == pos + 1 {
            pos as u64
        } else {
            j
        };
        lemma_row_bits(xs, sj);
    }
    assert(si < 64) by {
        assert(kk <= 6 ==> (1u64 << kk) <= 64) by (bit_vector);
        assert((1u64 << 6u64) == 64) by (bit_vector);
        lemma_swap_index_bound(i, pos as u64, 6);
    }
    lemma_six_bits_equal(si, t);
}

proof fn lemma_row1(a: bool)
    ensures
        row_of(seq![a]) == (if a {
            1nat
        } else {
            0nat
        }),
{
    assert(seq![a].drop_last() =~= Seq::<bool>::empty());
    assert(row_of(Seq::<bool>::empty()) == 0);
    assert(seq![a].last() == a);
}

proof fn lemma_row2(a: bool, b: bool)
    ensures
        row_of(seq![a, b]) == 2 * (if a {
            1nat
        } else {
            0nat
        }) + (if b {
            1nat
        } else {
            0nat
        }),
{
    assert(seq![a, b].drop_last() =~= seq![a]);
    assert(seq![a, b].last() == b);
    lemma_row1(a);
}

proof fn lemma_row3(s: bool, a: bool, b: bool)
    ensures
        row_of(seq![s, a, b]) == 4 * (if s {
            1nat
        } else {
            0nat
        }) + 2 * (if a {
            1nat
        } else {
            0nat
        }) + (if b {
            1nat
        } else {
            0nat
        }),
{
    assert(seq![s, a, b].drop_last() =~= seq![s, a]);
    assert(seq![s, a, b].last() == b);
    lemma_row2(s, a);
}

/// The LUT forms of the gates compute the gates: `(LUT 8 a b)` is `a AND b`,
/// `(LUT 6 a b)` is `a XOR b`, `(LUT 1 a b)` is `a NOR b`, `(LUT 1 a)` is
/// `NOT a` and `(LUT 0xCA s a b)` is `MUX(s, a, b)`.
pub proof fn lemma_gate_luts(s: bool, a: bool, b: bool)
    ensures
        lut_output(8, seq![a, b]) == (a && b),
        lut_output(6, seq![a, b]) == (a != b),
        lut_output(1, seq![a, b]) == !(a || b),
        lut_output(1, seq![a]) == !a,
        lut_output(0xCA, seq![s, a, b]) == (if s {
            a
        } else {
            b
        }),
{
    lemma_row1(a);
    lemma_row2(a, b);
    lemma_row3(s, a, b);
    let i2 = row_of(seq![a, b]) as u64;
    let i3 = row_of(seq![s, a, b]) as u64;
    let i1 = row_of(seq![a]) as u64;
    assert(i2 < 4 ==> (((8u64 >> i2) & 1u64 == 1u64) <==> i2 == 3)) by (bit_vector);
    assert(i2 < 4 ==> (((6u64 >> i2) & 1u64 == 1u64) <==> (i2 == 1 || i2 == 2))) by (bit_vector);
    assert(i2 < 4 ==> (((1u64 >> i2) & 1u64 == 1u64) <==> i2 == 0)) by (bit_vector);
    assert(i1 < 2 ==> (((1u64 >> i1) & 1u64 == 1u64) <==> i1 == 0)) by (bit_vector);
    assert(i3 < 8 ==> (((0xCAu64 >> i3) & 1u64 == 1u64) <==> (i3 == 1 || i3 == 3 || i3 == 6 || i3
        == 7))) by (bit_vector);
}

} // verus!
