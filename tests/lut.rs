use lut_synth::lut;
use lut_synth::lut::LutLang;

fn var(name: &str) -> LutLang {
    LutLang::Var(name.to_string())
}

/// `(LUT 51952 s1 (LUT 61642 s1 s0 c d) a b)`
fn make_simple_nested_lut() -> Vec<LutLang> {
    vec![
        LutLang::Program(51952),
        var("s1"),
        LutLang::Program(61642),
        var("s1"),
        var("s0"),
        var("c"),
        var("d"),
        LutLang::Lut(vec![2, 3, 4, 5, 6]),
        var("a"),
        var("b"),
        LutLang::Lut(vec![0, 1, 7, 8, 9]),
    ]
}

/// `(LUT 44234 s1 s0 b a)`
fn make_four_lut() -> Vec<LutLang> {
    vec![
        LutLang::Program(44234),
        var("s1"),
        var("s0"),
        var("b"),
        var("a"),
        LutLang::Lut(vec![0, 1, 2, 3, 4]),
    ]
}

/// `(LUT 202 s0 a b)`
fn make_three_lut() -> Vec<LutLang> {
    vec![
        LutLang::Program(202),
        var("s0"),
        var("a"),
        var("b"),
        LutLang::Lut(vec![0, 1, 2, 3]),
    ]
}

#[test]
fn test_swap() {
    // Need to be able to represent 3
    assert_eq!(lut::from_bitvec(&lut::to_bitvec(3, 2).unwrap()), 3);
    let tt: u64 = 0b1010;
    let swapped = lut::swap_pos(&tt, 2, 0);
    assert_eq!(swapped, 12);
}

#[test]
fn test_swap2() {
    assert_eq!(lut::swap_pos(&2, 2, 0), 4);
}

#[test]
fn test_get_lut_count() {
    assert_eq!(2, lut::get_lut_count(&make_simple_nested_lut()));
    assert_eq!(1, lut::get_lut_count(&make_four_lut()));
    assert_eq!(1, lut::get_lut_count(&make_three_lut()));
}

#[test]
fn test_get_lut_k_count() {
    assert_eq!(2, lut::get_lut_count_k(&make_simple_nested_lut(), 4));
    assert_eq!(0, lut::get_lut_count_k(&make_simple_nested_lut(), 3));
    assert_eq!(1, lut::get_lut_count_k(&make_four_lut(), 4));
    assert_eq!(0, lut::get_lut_count_k(&make_four_lut(), 6));
    assert_eq!(1, lut::get_lut_count_k(&make_three_lut(), 3));
    assert_eq!(0, lut::get_lut_count_k(&make_three_lut(), 6));
}

#[test]
fn test_program_formats() {
    let prog = u64::MAX;
    assert!(lut::to_bitvec(prog, 63).is_err());
    let bv = lut::to_bitvec(prog, 64);
    assert!(bv.is_ok());
    assert_eq!(prog, lut::from_bitvec(&bv.unwrap()));
}

#[test]
fn bitvec_round_trip_on_every_width() {
    for k in 1..=64usize {
        let p: u64 = if k == 64 { 0xdead_beef_cafe_f00d } else { (1u64 << k) - 1 };
        let bv = lut::to_bitvec(p, k).unwrap();
        assert_eq!(bv.len(), k);
        assert_eq!(lut::from_bitvec(&bv), p);
    }
}

#[test]
fn bitvec_is_least_significant_first() {
    let bv = lut::to_bitvec(6, 4).unwrap();
    assert_eq!(bv, vec![false, true, true, false]);
    assert!(lut::to_bitvec(16, 4).is_err());
    assert_eq!(lut::to_bitvec(0, 0).unwrap(), Vec::<bool>::new());
    assert!(lut::to_bitvec(1, 0).is_err());
}

#[test]
fn swap_pos_exchanges_adjacent_inputs() {
    // Three inputs: the MUX table 0xCA with inputs 1 and 2 exchanged.
    let swapped = lut::swap_pos(&0xCA, 3, 1);
    for i in 0..8u64 {
        let b1 = (i >> 1) & 1;
        let b2 = (i >> 2) & 1;
        let src = (i & 1) | (b1 << 2) | (b2 << 1);
        assert_eq!((swapped >> i) & 1, (0xCAu64 >> src) & 1);
    }
    // Swapping twice gives the table back.
    assert_eq!(lut::swap_pos(&swapped, 3, 1), 0xCA);
    // Bits above the table are cleared.
    assert_eq!(lut::swap_pos(&0xFFF0, 2, 0), 0);
}

#[test]
fn node_helpers() {
    assert!(LutLang::Lut(vec![0, 1]).is_lut());
    assert!(!LutLang::Bus(vec![0]).is_lut());
    assert!(LutLang::Bus(vec![0]).is_bus());
    assert_eq!(LutLang::And(0, 1).get_prim_name(), Some("AND2".to_string()));
    assert_eq!(LutLang::Mux(0, 1, 2).get_prim_name(), Some("MUX".to_string()));
    assert_eq!(LutLang::Var("a".to_string()).get_prim_name(), None);
    assert_eq!(LutLang::Mux(3, 1, 2).children_vec(), vec![3, 1, 2]);
}
