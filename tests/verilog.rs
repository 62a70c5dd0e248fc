use lut_synth::lut::LutLang;
use lut_synth::verilog::{init_format, init_parser, SVModule, SVPrimitive, SVSignal};

#[test]
fn test_verilog_literals() {
    assert_eq!(init_parser("8'hff").unwrap(), 0xff);
    assert_eq!(init_parser("8'h00").unwrap(), 0x00);
    assert_eq!(init_parser("8'h0f").unwrap(), 0x0f);
    assert_eq!(init_parser("8'd255").unwrap(), 255);
    assert_eq!(init_format(1, 1), Ok("2'h1".to_string()));
    assert_eq!(init_format(1, 5), Ok("32'h00000001".to_string()));
    assert!(init_parser("1'hx").is_err());
    assert!(init_parser("1'hz").is_err());
}

#[test]
fn literal_edge_cases() {
    assert_eq!(init_format(0xCA, 3), Ok("8'hca".to_string()));
    assert_eq!(init_format(0xF0F0CCCCFF00AAAA, 6), Ok("64'hf0f0ccccff00aaaa".to_string()));
    assert_eq!(init_format(0x1FF, 2), Ok("4'h1ff".to_string()));
    assert_eq!(init_format(1, 0), Err(()));
    assert_eq!(init_format(1, 7), Err(()));
    assert_eq!(init_parser("64'hFFFFFFFFFFFFFFFF").unwrap(), u64::MAX);
    assert!(init_parser("65'h10000000000000000").is_err());
    assert!(init_parser("8'b0101").is_err());
    assert!(init_parser("8hff").is_err());
    assert!(init_parser("8'h'ff").is_err());
    assert!(init_parser("8'h").is_err());
    assert_eq!(init_parser("8'h+ff").unwrap(), 0xff);
}

#[test]
fn primitive_connections() {
    let mut p = SVPrimitive::new_lut(2, "u0".to_string(), 8);
    assert_eq!(p.prim, "LUT2");
    assert_eq!(p.attributes.get("INIT"), Some(&"4'h8".to_string()));
    assert!(p.add_signal("I0".to_string(), "a".to_string()).is_ok());
    assert!(p.add_signal("I0".to_string(), "b".to_string()).is_err());
    assert!(p.add_signal("O".to_string(), "y".to_string()).is_ok());
    assert!(p.add_signal("CE".to_string(), "one".to_string()).is_ok());
    assert!(p.add_signal("Z".to_string(), "c".to_string()).is_err());
    assert_eq!(p.inputs().get("I0"), Some(&"b".to_string()));
    assert_eq!(p.outputs().get("y"), Some(&"O".to_string()));
    let r = SVPrimitive::new_reg("r0".to_string());
    assert_eq!(r.prim, "FDRE");
    assert_eq!(r.attributes.get("INIT"), Some(&"1'hx".to_string()));
    let c = SVPrimitive::new_const(true, "k".to_string(), "c0".to_string());
    assert_eq!(c.attributes.get("VAL"), Some(&"1'b1".to_string()));
}

#[test]
fn module_queries() {
    let mut m = SVModule::new("top".to_string()).with_fname("top.v".to_string());
    assert_eq!(m.get_name(), "top");
    m.append_inputs(&mut vec![SVSignal::new(1, "a".to_string())]);
    m.append_outputs(&mut vec![SVSignal::new(1, "y".to_string())]);
    let mut g = SVPrimitive::new_gate("NOT".to_string(), "g0".to_string());
    g.add_signal("A".to_string(), "a".to_string()).unwrap();
    g.add_signal("Y".to_string(), "y".to_string()).unwrap();
    m.append_insts(&mut vec![g]);
    assert!(m.is_an_input("a"));
    assert!(!m.is_an_input("y"));
    assert_eq!(m.get_driving_primitive("y").unwrap().name, "g0");
    assert!(m.get_driving_primitive("a").is_err());
    assert_eq!(m.get_outputs(), vec!["y"]);
    assert_eq!(SVModule::is_lut_prim("LUT4"), Ok(Some(4)));
    assert_eq!(SVModule::is_lut_prim("AND2"), Ok(None));
    assert!(SVModule::is_lut_prim("LUT9").is_err());
    assert!(SVModule::is_lut_prim("LUTX").is_err());
    assert!(SVModule::is_gate_prim("MUX"));
    assert!(SVModule::is_reg_prim("FDRE"));
    assert!(SVModule::is_assign_prim("WIRE"));
    assert!(m.contains_cycles().is_ok());
    assert_eq!(
        m.to_expr().unwrap(),
        vec![LutLang::Var("a".to_string()), LutLang::Not(0)]
    );
}

#[test]
fn module_with_feedback_is_refused() {
    // a -> AND(a, q) -> FDRE -> q
    let mut m = SVModule::new("loop".to_string());
    m.append_inputs(&mut vec![SVSignal::new(1, "a".to_string())]);
    m.append_outputs(&mut vec![SVSignal::new(1, "q".to_string())]);
    let mut g = SVPrimitive::new_gate("AND2".to_string(), "g0".to_string());
    g.add_signal("A".to_string(), "a".to_string()).unwrap();
    g.add_signal("B".to_string(), "q".to_string()).unwrap();
    g.add_signal("Y".to_string(), "d".to_string()).unwrap();
    let mut r = SVPrimitive::new_reg("r0".to_string());
    r.add_signal("D".to_string(), "d".to_string()).unwrap();
    r.add_signal("Q".to_string(), "q".to_string()).unwrap();
    m.append_insts(&mut vec![g, r]);
    let err = m.contains_cycles().unwrap_err();
    assert!(err == "q" || err == "d");
    assert!(m.to_expr().unwrap_err().contains("feedback"));
}

#[test]
fn term_to_module_and_back() {
    // (AND a b)
    let expr = vec![
        LutLang::Var("a".to_string()),
        LutLang::Var("b".to_string()),
        LutLang::And(0, 1),
    ];
    let m = SVModule::from_expr(expr.clone(), "and".to_string(), vec!["y".to_string()]).unwrap();
    assert_eq!(m.get_outputs(), vec!["y"]);
    assert_eq!(m.instances.len(), 1);
    assert_eq!(m.instances[0].prim, "AND2");
    assert!(m.is_an_input("a") && m.is_an_input("b"));
    assert_eq!(m.to_expr().unwrap(), expr);
}

#[test]
fn lut_term_to_module_and_back() {
    // (LUT 202 s0 a b): the inputs are connected from I2 down to I0.
    let expr = vec![
        LutLang::Program(202),
        LutLang::Var("s0".to_string()),
        LutLang::Var("a".to_string()),
        LutLang::Var("b".to_string()),
        LutLang::Lut(vec![0, 1, 2, 3]),
    ];
    let m = SVModule::from_expr(expr.clone(), "mux".to_string(), vec![]).unwrap();
    assert_eq!(m.get_outputs(), vec!["y"]);
    let lut = m.get_driving_primitive("y").unwrap();
    assert_eq!(lut.prim, "LUT3");
    assert_eq!(lut.attributes.get("INIT"), Some(&"8'hca".to_string()));
    assert_eq!(lut.inputs().get("I2"), Some(&"s0".to_string()));
    assert_eq!(lut.inputs().get("I0"), Some(&"b".to_string()));
    assert_eq!(m.to_expr().unwrap(), expr);
}

#[test]
fn bus_term_gets_default_names() {
    let expr = vec![
        LutLang::Var("a".to_string()),
        LutLang::Not(0),
        LutLang::Reg(1),
        LutLang::Bus(vec![1, 2]),
    ];
    let m = SVModule::from_expr(expr, "two".to_string(), vec![]).unwrap();
    assert_eq!(m.get_outputs(), vec!["y0", "y1"]);
    assert!(m.clk);
    assert!(m.is_an_input("clk"));
    let single = m.to_single_expr().unwrap();
    assert!(matches!(single.last(), Some(LutLang::Bus(l)) if l.len() == 2));
}

#[test]
fn reserved_input_names_are_refused() {
    for name in ["tmp1", "clk", "my_input", "a,b"] {
        let expr = vec![LutLang::Var(name.to_string())];
        assert!(SVModule::from_expr(expr, "m".to_string(), vec![]).is_err());
    }
    assert!(SVModule::from_expr(vec![], "m".to_string(), vec![]).is_err());
}

#[test]
fn module_prints_as_verilog() {
    let expr = vec![
        LutLang::Var("a".to_string()),
        LutLang::Var("b".to_string()),
        LutLang::And(0, 1),
    ];
    let m = SVModule::from_expr(expr, "and".to_string(), vec!["y".to_string()]).unwrap();
    let expected = "module and (\n    a,\n    b,\n    y\n);\n  input a;\n  wire a;\n  input b;\n  wire b;\n  output y;\n  wire y;\n  AND2 #(\n  ) __0__ (\n      .A(a),\n      .B(b),\n      .Y(y)\n  );\nendmodule";
    assert_eq!(m.to_verilog(), expected);
}

#[test]
fn primitives_print_as_verilog() {
    let mut r = SVPrimitive::new_reg("r0".to_string());
    r.add_signal("D".to_string(), "d".to_string()).unwrap();
    r.add_signal("Q".to_string(), "q".to_string()).unwrap();
    assert_eq!(
        r.to_verilog(),
        "  FDRE #(\n      .INIT(1'hx)\n  ) r0 (\n      .C(clk),\n      .CE(1'h1),\n      .D(d),\n      .R(1'h0),\n      .Q(q)\n  );"
    );
    let w = SVPrimitive::new_wire("a".to_string(), "y".to_string(), "w0".to_string());
    assert_eq!(w.to_verilog(), "  assign y = a;");
}

#[test]
fn register_cone_mapping_cuts_at_registers() {
    // a -> AND(a, reg_q) -> reg -> reg_q, with reg_q the output
    let mut m = SVModule::new("loop".to_string());
    m.append_inputs(&mut vec![SVSignal::new(1, "a".to_string())]);
    m.append_outputs(&mut vec![SVSignal::new(1, "reg_q".to_string())]);
    let mut g = SVPrimitive::new_gate("AND2".to_string(), "g0".to_string());
    g.add_signal("A".to_string(), "a".to_string()).unwrap();
    g.add_signal("B".to_string(), "reg_q".to_string()).unwrap();
    g.add_signal("Y".to_string(), "d".to_string()).unwrap();
    let mut r = SVPrimitive::new_reg("reg".to_string());
    r.add_signal("D".to_string(), "d".to_string()).unwrap();
    r.add_signal("Q".to_string(), "reg_q".to_string()).unwrap();
    m.append_insts(&mut vec![g, r]);
    // The whole cone runs into the loop through the register.
    let err = m.to_single_expr().unwrap_err();
    assert!(err.contains("reg_q") || err.contains("d"));
    // Between registers there is no loop.
    let cone = m.to_register_cone_expr().unwrap();
    assert_eq!(
        cone,
        vec![
            LutLang::Var("reg_q".to_string()),
            LutLang::Var("a".to_string()),
            LutLang::And(1, 0),
            LutLang::Bus(vec![0, 2]),
        ]
    );
}

#[test]
fn misplaced_or_unsupported_nodes_are_refused() {
    let bus_inside = vec![
        LutLang::Var("a".to_string()),
        LutLang::Bus(vec![0]),
        LutLang::Not(0),
    ];
    assert!(SVModule::from_expr(bus_inside, "m".to_string(), vec![]).is_err());
    let dc = vec![LutLang::DC];
    assert!(SVModule::from_expr(dc, "m".to_string(), vec![]).is_err());
    // A gate cannot take a program as an input.
    let prog_input = vec![LutLang::Program(3), LutLang::Not(0)];
    assert!(SVModule::from_expr(prog_input, "m".to_string(), vec![]).is_err());
}

#[test]
fn four_input_lut_becomes_one_lut4() {
    // (LUT 44234 s1 s0 b a)
    let expr = vec![
        LutLang::Program(44234),
        LutLang::Var("s1".to_string()),
        LutLang::Var("s0".to_string()),
        LutLang::Var("b".to_string()),
        LutLang::Var("a".to_string()),
        LutLang::Lut(vec![0, 1, 2, 3, 4]),
    ];
    let m = SVModule::from_expr(expr, "top".to_string(), vec![]).unwrap();
    assert_eq!(m.instances.iter().filter(|p| p.prim == "LUT4").count(), 1);
    assert_eq!(m.instances.iter().filter(|p| p.prim == "LUT3").count(), 0);
}

#[test]
fn missing_driver_error_names_signal_and_module() {
    let m = SVModule::new("top".to_string()).with_fname("top.v".to_string());
    let err = m.get_driving_primitive("w").unwrap_err();
    assert_eq!(err, "top.v: Signal w is not driven by any primitive in top");
}
