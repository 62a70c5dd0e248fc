use lut_synth::cost::{DepthCostFn, NegativeCostFn};
use lut_synth::lut::{eval_expr, swap_pos, LutLang};
use lut_synth::name_map::NameMap;
use lut_synth::verilog::SVModule;

fn var(name: &str) -> LutLang {
    LutLang::Var(name.to_string())
}

fn env(names: &[&str], row: u32) -> NameMap<bool> {
    let mut m = NameMap::new();
    for (i, n) in names.iter().enumerate() {
        m.insert(n.to_string(), (row >> i) & 1 == 1);
    }
    m
}

fn root_value(expr: &Vec<LutLang>, e: &NameMap<bool>) -> Option<bool> {
    *eval_expr(expr, e).last().unwrap()
}

#[test]
fn gates_and_luts_evaluate() {
    let expr = vec![var("a"), var("b"), LutLang::And(0, 1), LutLang::Not(2)];
    for row in 0..4 {
        let e = env(&["a", "b"], row);
        let a = row & 1 == 1;
        let b = row & 2 == 2;
        let vals = eval_expr(&expr, &e);
        assert_eq!(vals[2], Some(a && b));
        assert_eq!(vals[3], Some(!(a && b)));
    }
    // A register has no combinational value.
    let reg = vec![var("a"), LutLang::Reg(0)];
    assert_eq!(root_value(&reg, &env(&["a"], 1)), None);
    // A missing input has none either.
    assert_eq!(root_value(&vec![var("z")], &env(&["a"], 1)), None);
}

#[test]
fn four_to_one_mux_lut() {
    // (LUT 0xF0F0CCCCFF00AAAA s0 s1 a b c d)
    let expr = vec![
        LutLang::Program(0xF0F0CCCCFF00AAAA),
        var("s0"),
        var("s1"),
        var("a"),
        var("b"),
        var("c"),
        var("d"),
        LutLang::Lut(vec![0, 1, 2, 3, 4, 5, 6]),
    ];
    let names = ["s0", "s1", "a", "b", "c", "d"];
    for row in 0..64u32 {
        let e = env(&names, row);
        let bit = |i: usize| (row >> i) & 1 == 1;
        let (s0, s1, a, b, c, d) = (bit(0), bit(1), bit(2), bit(3), bit(4), bit(5));
        let expected = match (s0, s1) {
            (false, false) => d,
            (false, true) => a,
            (true, false) => c,
            (true, true) => b,
        };
        assert_eq!(root_value(&expr, &e), Some(expected));
    }
}

#[test]
fn term_module_term_keeps_the_function() {
    let expr = vec![
        LutLang::Program(202),
        var("s0"),
        var("a"),
        var("b"),
        LutLang::Lut(vec![0, 1, 2, 3]),
        LutLang::Xor(4, 2),
    ];
    let m = SVModule::from_expr(expr.clone(), "m".to_string(), vec![]).unwrap();
    let back = m.to_expr().unwrap();
    for row in 0..8 {
        let e = env(&["s0", "a", "b"], row);
        assert!(root_value(&expr, &e).is_some());
        assert_eq!(root_value(&expr, &e), root_value(&back, &e));
    }
}

#[test]
fn negative_depth_cost() {
    let n = NegativeCostFn::new(DepthCostFn);
    let costs: Vec<i64> = vec![2, 5];
    assert_eq!(n.cost(&LutLang::And(0, 1), &costs), -6);
    assert_eq!(n.cost(&LutLang::Var("a".to_string()), &costs), 0);
}

#[test]
fn swapped_program_with_swapped_inputs_is_the_same_lut() {
    // (LUT p x2 x1 x0) against (LUT swap_pos(p, 3, 0) x2 x0 x1)
    let p: u64 = 0xCA;
    let q = swap_pos(&p, 3, 0);
    let original = vec![
        LutLang::Program(p),
        var("x2"),
        var("x1"),
        var("x0"),
        LutLang::Lut(vec![0, 1, 2, 3]),
    ];
    let swapped = vec![
        LutLang::Program(q),
        var("x2"),
        var("x0"),
        var("x1"),
        LutLang::Lut(vec![0, 1, 2, 3]),
    ];
    for row in 0..8 {
        let e = env(&["x0", "x1", "x2"], row);
        assert_eq!(root_value(&original, &e), root_value(&swapped, &e));
    }
}
