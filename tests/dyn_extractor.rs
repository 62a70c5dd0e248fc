use lut_synth::cost::KLUTCostFn;
use lut_synth::dyn_extractor::{deep_equals, get_permutations, merge_expr, DynExtractor};
use lut_synth::lut::LutLang;

fn var(name: &str) -> LutLang {
    LutLang::Var(name.to_string())
}

#[test]
fn test_deep_equals() {
    // (NOT (AND a b)) and (AND a b)
    let expra = vec![var("a"), var("b"), LutLang::And(0, 1), LutLang::Not(2)];
    let exprb = vec![var("a"), var("b"), LutLang::And(0, 1)];
    assert!(deep_equals(2, &expra, 2, &exprb));
    assert!(!deep_equals(3, &expra, 2, &exprb));
    assert!(!deep_equals(0, &expra, 1, &exprb));
    let (expr, mapping) = merge_expr(vec![expra.clone(), exprb.clone(), expra, exprb]);
    assert_eq!(expr.len(), 4);
    assert_eq!(mapping, vec![3, 2, 3, 2]);
}

#[test]
fn merge_appends_what_is_new() {
    let e1 = vec![var("a")];
    let e2 = vec![var("b"), var("a"), LutLang::Xor(0, 1)];
    let (expr, mapping) = merge_expr(vec![e1, e2]);
    assert_eq!(expr, vec![var("a"), var("b"), LutLang::Xor(1, 0)]);
    assert_eq!(mapping, vec![0, 2]);
    let (empty, none) = merge_expr(vec![]);
    assert!(empty.is_empty() && none.is_empty());
}

#[test]
fn permutations_vary_the_first_list_slowest() {
    let a = vec![var("a")];
    let b = vec![var("b")];
    let c = vec![var("c")];
    let perms = get_permutations(vec![vec![a.clone(), b.clone()], vec![c.clone()]]);
    assert_eq!(perms, vec![vec![a.clone(), c.clone()], vec![b.clone(), c.clone()]]);
    assert_eq!(get_permutations(vec![]), vec![Vec::<Vec<LutLang>>::new()]);
    assert!(get_permutations(vec![vec![a], vec![]]).is_empty());
}

#[test]
fn extractor_prefers_luts_over_gates() {
    // Class 2 holds (AND a b) and (LUT 8 a b); gates are never extracted.
    let classes = vec![
        vec![var("a")],
        vec![var("b")],
        vec![LutLang::And(0, 1), LutLang::Lut(vec![3, 0, 1])],
        vec![LutLang::Program(8)],
    ];
    let mut ex = DynExtractor::new(&classes, KLUTCostFn::new(6));
    let best = ex.find_best_expression(2);
    assert_eq!(best.len(), 1);
    assert_eq!(
        best[0],
        vec![LutLang::Program(8), var("a"), var("b"), LutLang::Lut(vec![0, 1, 2])]
    );
    // A second query is answered from the memo.
    assert_eq!(ex.find_best_expression(2), best);
}

#[test]
fn extractor_skips_self_loops() {
    // Class 0 only reaches itself: it has no term.
    let classes = vec![vec![LutLang::Not(0)]];
    let mut ex = DynExtractor::new(&classes, KLUTCostFn::new(6));
    assert!(ex.find_best_expression(0).is_empty());
}
