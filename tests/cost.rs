use lut_synth::cost::{DepthCostFn, KLUTCostFn, INFINITE_COST};
use lut_synth::lut::LutLang;

#[test]
fn klut_op_cost_of_luts() {
    let c = KLUTCostFn::new(4);
    // Five children: a program and four inputs fit a 4-LUT.
    assert_eq!(c.op_cost(&LutLang::Lut(vec![0, 1, 2, 3, 4])), 1);
    // Seven children do not: 2 * 7 * 7.
    assert_eq!(c.op_cost(&LutLang::Lut(vec![0, 1, 2, 3, 4, 5, 6])), 98);
    assert_eq!(c.op_cost(&LutLang::Var("a".to_string())), 1);
    assert_eq!(c.op_cost(&LutLang::Const(true)), 0);
    assert_eq!(c.op_cost(&LutLang::Program(3)), 0);
    assert_eq!(c.op_cost(&LutLang::Reg(0)), 1);
    assert_eq!(c.op_cost(&LutLang::And(0, 1)), INFINITE_COST);
    let w = KLUTCostFn::new(4).with_reg_weight(5);
    assert_eq!(w.op_cost(&LutLang::Reg(0)), 5);
}

#[test]
fn klut_cost_counts_shared_children_once() {
    let c = KLUTCostFn::new(6);
    let costs: Vec<u64> = vec![0, 1, 1];
    // The same input twice is costed once.
    assert_eq!(c.cost(&LutLang::Lut(vec![0, 1, 1]), &costs), 2);
    assert_eq!(c.cost(&LutLang::Lut(vec![0, 1, 2]), &costs), 3);
    // Gates saturate at the infinite cost.
    assert_eq!(c.cost(&LutLang::And(1, 2), &costs), INFINITE_COST);
}

#[test]
fn depth_cost_takes_the_deepest_child() {
    let d = DepthCostFn;
    let costs: Vec<i64> = vec![0, 3, 1];
    assert_eq!(d.cost(&LutLang::And(1, 2), &costs), 4);
    assert_eq!(d.cost(&LutLang::Lut(vec![0, 1, 2]), &costs), 4);
    assert_eq!(d.cost(&LutLang::Reg(1), &costs), 3);
    assert_eq!(d.cost(&LutLang::Var("a".to_string()), &costs), 0);
}
