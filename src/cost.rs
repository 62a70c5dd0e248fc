//! Extraction cost models over the LUT term language.
use crate::lut::{LutLang, MAX_LUT_SIZE};
use vstd::prelude::*;

verus! {

/// The cost that marks a node as never to be extracted.
pub const INFINITE_COST: u64 = 0xffff_ffff_ffff_ffff;

/// Sum of `costs[c]` over the distinct children `c` in `children`.
pub open spec fn distinct_sum(children: Seq<usize>, costs: Seq<u64>) -> nat
    decreases children.len(),
{
    if children.len() == 0 {
        0
    } else {
        let earlier = children.drop_last();
        distinct_sum(earlier, costs) + if earlier.contains(children.last()) {
            0nat
        } else {
            costs[children.last() as int] as nat
        }
    }
}

/// Extracts LUTs of at most `k` inputs: a LUT within the bound costs 1, a
/// wider one with `m` children costs `2 m^2`, a register costs the register
/// weight, an input costs 1, constants, programs, don't-cares and buses cost
/// nothing, and gates are never extracted.
pub struct KLUTCostFn {
    k: usize,
    reg_weight: u64,
}

/// The cost of a node itself, without its children.
pub open spec fn klut_op_cost(n: LutLang, k: nat, reg_weight: u64) -> nat {
    match n {
        LutLang::Lut(l) => if l@.len() <= k + 1 {
            1
        } else {
            2 * l@.len() * l@.len()
        },
        LutLang::Program(_) | LutLang::Bus(_) | LutLang::Const(_) | LutLang::DC => 0,
        LutLang::Reg(_) => reg_weight as nat,
        LutLang::Var(_) => 1,
        _ => INFINITE_COST as nat,
    }
}

/// `x` capped at the infinite cost.
pub open spec fn saturate(x: nat) -> u64 {
    if x >= INFINITE_COST as nat {
        INFINITE_COST
    } else {
        x as u64
    }
}

impl KLUTCostFn {
    /// The bound on LUT inputs.
    pub closed spec fn k_spec(&self) -> nat {
        self.k as nat
    }

    /// The cost of a register.
    pub closed spec fn reg_weight_spec(&self) -> u64 {
        self.reg_weight
    }

    /// A cost function for LUTs of at most `k` inputs, with registers at weight 1.
    pub fn new(k: usize) -> (r: Self)
        requires
            1 <= k <= MAX_LUT_SIZE,
        ensures
            r.k_spec() == k,
            r.reg_weight_spec() == 1,
    {
        KLUTCostFn { k, reg_weight: 1 }
    }

    /// The same cost function with registers at weight `reg_weight`.
    pub fn with_reg_weight(self, reg_weight: u64) -> (r: Self)
        ensures
            r.k_spec() == self.k_spec(),
            r.reg_weight_spec() == reg_weight,
    {
        KLUTCostFn { k: self.k, reg_weight }
    }

    /// The cost of `enode` itself.
    pub fn op_cost(&self, enode: &LutLang) -> (r: u64)
        ensures
            r == saturate(klut_op_cost(*enode, self.k_spec(), self.reg_weight_spec())),
    {
        match enode {
            LutLang::Lut(l) => {
                let m = l.len();
                if m == 0 || m - 1 <= self.k {
                    1
                } else if m > 0xffff_ffff {
                    proof {
                        assert(2 * m * m >= INFINITE_COST) by (nonlinear_arith)
                            requires
                                m > 0xffff_ffffusize,
                        ;
                    }
                    INFINITE_COST
                } else {
                    let mm = m as u64;
                    proof {
                        assert(mm * mm <= 0xffff_fffe_0000_0001u64) by (nonlinear_arith)
                            requires
                                mm <= 0xffff_ffffu64,
                        ;
                    }
                    let sq = mm * mm;
                    assert(l@.len() == mm);
                    assert(2 * l@.len() * l@.len() == 2 * (mm * mm)) by (nonlinear_arith)
                        requires
                            l@.len() == mm,
                    ;
                    if sq >= 0x8000_0000_0000_0000 {
                        INFINITE_COST
                    } else {
                        2 * sq
                    }
                }
            },
            LutLang::Program(_) | LutLang::Bus(_) | LutLang::Const(_) | LutLang::DC => 0,
            LutLang::Reg(_) => self.reg_weight,
            LutLang::Var(_) => 1,
            _ => INFINITE_COST,
        }
    }

    /// The cost of `enode` with its children: its own cost plus the cost of
    /// each distinct child, taken from `costs`, capped at the infinite cost.
    pub fn cost(&self, enode: &LutLang, costs: &Vec<u64>) -> (r: u64)
        requires
            forall|j: int| 0 <= j < enode.children().len() ==> #[trigger] enode.children()[j] < costs@.len(),
        ensures
            r == saturate(
                klut_op_cost(*enode, self.k_spec(), self.reg_weight_spec()) + distinct_sum(
                    enode.children(),
                    costs@,
                ),
            ),
    {
        let op = self.op_cost(enode);
        let children = enode.children_vec();
        let mut sum: u64 = op;
        let ghost base = klut_op_cost(*enode, self.k_spec(), self.reg_weight_spec());
        let mut i: usize = 0;
        while i < children.len()
            invariant
                i <= children@.len(),
                children@ == enode.children(),
                forall|j: int| 0 <= j < children@.len() ==> #[trigger] children@[j] < costs@.len(),
                op == saturate(base),
                sum == saturate(base + distinct_sum(children@.subrange(0, i as int), costs@)),
            decreases children@.len() - i,
        {
            let ghost pre = children@.subrange(0, i as int);
            assert(children@.subrange(0, i + 1).drop_last() =~= pre);
            let c = children[i];
            let mut seen = false;
            let mut j: usize = 0;
            while j < i
                invariant
                    j <= i < children@.len(),
                    pre == children@.subrange(0, i as int),
                    c == children@[i as int],
                    seen == exists|m: int| 0 <= m < j && children@[m] == c,
                decreases i - j,
            {
                if children[j] == c {
                    seen = true;
                }
                j = j + 1;
            }
            assert(seen == pre.contains(c)) by {
                if pre.contains(c) {
                    let m = choose|m: int| 0 <= m < pre.len() && pre[m] == c;
                    assert(children@[m] == c);
                }
                if seen {
                    let m = choose|m: int| 0 <= m < i && children@[m] == c;
                    assert(pre[m] == c);
                }
            }
            if !seen {
                let x = costs[c];
                if x > INFINITE_COST - sum {
                    sum = INFINITE_COST;
                } else {
                    sum = sum + x;
                }
            }
            i = i + 1;
        }
        assert(children@.subrange(0, i as int) =~= children@);
        sum
    }
}

/// Extracts the circuit of least depth: a LUT of two or more inputs and each
/// `And`, `Mux`, `Nor`, `Not` and `Xor` count 1, everything else 0, and a
/// node's cost is its own plus the largest cost among its children.
pub struct DepthCostFn;

/// The depth that a node adds itself.
pub open spec fn depth_op_cost(n: LutLang) -> int {
    match n {
        LutLang::Lut(l) => if l@.len() >= 3 {
            1
        } else {
            0
        },
        LutLang::And(..) | LutLang::Mux(..) | LutLang::Nor(..) | LutLang::Not(..) | LutLang::Xor(
            ..,
        ) => 1,
        _ => 0,
    }
}

/// The largest of `costs[c]` over the children `c`, and 0.
pub open spec fn max_child(children: Seq<usize>, costs: Seq<i64>) -> int
    decreases children.len(),
{
    if children.len() == 0 {
        0
    } else {
        let m = max_child(children.drop_last(), costs);
        let x = costs[children.last() as int] as int;
        if x > m {
            x
        } else {
            m
        }
    }
}

impl DepthCostFn {
    /// The depth of `enode` given the depths `costs` of its children.
    pub fn cost(&self, enode: &LutLang, costs: &Vec<i64>) -> (r: i64)
        requires
            forall|j: int| 0 <= j < enode.children().len() ==> #[trigger] enode.children()[j] < costs@.len(),
            forall|j: int| 0 <= j < costs@.len() ==> #[trigger] costs@[j] < i64::MAX,
        ensures
            r == depth_op_cost(*enode) + max_child(enode.children(), costs@),
    {
        let op: i64 = match enode {
            LutLang::Lut(l) => if l.len() >= 3 {
                1
            } else {
                0
            },
            LutLang::And(..) | LutLang::Mux(..) | LutLang::Nor(..) | LutLang::Not(..)
            | LutLang::Xor(..) => 1,
            _ => 0,
        };
        let children = enode.children_vec();
        let mut m: i64 = 0;
        let mut i: usize = 0;
        while i < children.len()
            invariant
                i <= children@.len(),
                children@ == enode.children(),
                forall|j: int| 0 <= j < children@.len() ==> #[trigger] children@[j] < costs@.len(),
                forall|j: int| 0 <= j < costs@.len() ==> #[trigger] costs@[j] < i64::MAX,
                m == max_child(children@.subrange(0, i as int), costs@),
                0 <= m < i64::MAX,
            decreases children@.len() - i,
        {
            assert(children@.subrange(0, i + 1).drop_last() =~= children@.subrange(0, i as int));
            let x = costs[children[i]];
            if x > m {
                m = x;
            }
            i = i + 1;
        }
        assert(children@.subrange(0, i as int) =~= children@);
        op + m
    }
}

/// The negation of a depth cost, for extractors that maximise.
pub struct NegativeCostFn {
    c: DepthCostFn,
}

impl NegativeCostFn {
    /// The negation of `c`.
    pub fn new(c: DepthCostFn) -> Self {
        NegativeCostFn { c }
    }

    /// Minus the depth of `enode` given the depths `costs` of its children.
    pub fn cost(&self, enode: &LutLang, costs: &Vec<i64>) -> (r: i64)
        requires
            forall|j: int| 0 <= j < enode.children().len() ==> #[trigger] enode.children()[j] < costs@.len(),
            forall|j: int| 0 <= j < costs@.len() ==> #[trigger] costs@[j] < i64::MAX,
        ensures
            r == -(depth_op_cost(*enode) + max_child(enode.children(), costs@)),
    {
        let d = self.c.cost(enode, costs);
        proof {
            lemma_max_child_nonneg(enode.children(), costs@);
        }
        -d
    }
}

proof fn lemma_max_child_nonneg(children: Seq<usize>, costs: Seq<i64>)
    ensures
        max_child(children, costs) >= 0,
    decreases children.len(),
{
    if children.len() > 0 {
        lemma_max_child_nonneg(children.drop_last(), costs);
    }
}

/// The cost of a LUT node with `m` children under `KLUT(k)`: 1 when
/// `m <= k + 1`, else `2 m^2` (capped at the infinite cost, which `2 m^2`
/// reaches only for `m` of ten digits).
pub proof fn lemma_klut_lut_cost(l: Vec<usize>, k: nat, reg_weight: u64)
    ensures
        l@.len() <= k + 1 ==> saturate(klut_op_cost(LutLang::Lut(l), k, reg_weight)) == 1,
        l@.len() > k + 1 && 2 * l@.len() * l@.len() < INFINITE_COST ==> saturate(
            klut_op_cost(LutLang::Lut(l), k, reg_weight),
        ) == 2 * l@.len() * l@.len(),
{
}

} // verus!
