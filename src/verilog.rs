//! A structural Verilog netlist model: signals, primitive instances and
//! modules, with the rules that connect them and the literal formats of LUT
//! programs.
use crate::lut::{lut_count_k, wf_expr, LutLang};
use crate::literal::{digits_of, pad_zeros, parse_u64, parse_u64_spec, write_digits, write_padded};
use crate::name_map::NameMap;
use crate::text::{chars_of, contains_str, find, find_in, has_char, push_str, str_eq, string_of};
use vstd::arithmetic::power2::pow2;
use vstd::prelude::*;

verus! {

/// The minimum number of hexadecimal digits of the program of a `k`-input LUT.
pub open spec fn init_width(k: nat) -> nat {
    if k <= 2 {
        1
    } else if k == 3 {
        2
    } else if k == 4 {
        4
    } else if k == 5 {
        8
    } else {
        16
    }
}

/// The `INIT` literal of a `k`-input LUT with program `program`: the width
/// `2^k` in decimal, `'h`, then the program in hexadecimal padded to the
/// width's digits.
pub open spec fn init_literal(program: u64, k: nat) -> Seq<char> {
    digits_of(pow2(k), 10) + "'h"@ + pad_zeros(digits_of(program as nat, 16), init_width(k))
}

/// Writes the `INIT` literal of a LUT with `k` inputs, `1 <= k <= 6`.
pub fn init_format(program: u64, k: usize) -> (r: Result<String, ()>)
    ensures
        r is Ok <==> 1 <= k <= 6,
        r matches Ok(s) ==> s@ == init_literal(program, k as nat),
{
    if k < 1 || k > 6 {
        return Err(());
    }
    proof {
        vstd::arithmetic::power2::lemma2_to64();
    }
    let w: u64 = if k == 1 {
        2
    } else if k == 2 {
        4
    } else if k == 3 {
        8
    } else if k == 4 {
        16
    } else if k == 5 {
        32
    } else {
        64
    };
    let width: usize = if k <= 2 {
        1
    } else if k == 3 {
        2
    } else if k == 4 {
        4
    } else if k == 5 {
        8
    } else {
        16
    };
    let wd = write_digits(w, 10);
    let pd = write_padded(program, 16, width);
    let mut s = string_of(&wd, 0, wd.len());
    push_str(&mut s, "'h");
    let tail = string_of(&pd, 0, pd.len());
    push_str(&mut s, tail.as_str());
    assert(wd@.subrange(0, wd@.len() as int) =~= wd@);
    assert(pd@.subrange(0, pd@.len() as int) =~= pd@);
    Ok(s)
}

/// The value of an `INIT` literal: exactly one `'`, then `h` and hexadecimal
/// digits or `d` and decimal digits, read as `u64::from_str_radix` and
/// `str::parse` read them.
pub open spec fn init_value(v: Seq<char>) -> Option<u64> {
    match find(v, seq!['\'']) {
        None => None,
        Some(q) => {
            let lit = v.subrange(q + 1, v.len() as int);
            if has_char(lit, '\'') || lit.len() == 0 {
                None
            } else if lit[0] == 'h' {
                parse_u64_spec(lit.drop_first(), 16)
            } else if lit[0] == 'd' {
                parse_u64_spec(lit.drop_first(), 10)
            } else {
                None
            }
        },
    }
}

/// Reading back the `INIT` literal of a `k`-input LUT gives its program.
pub proof fn lemma_init_round_trip(p: u64, k: nat)
    requires
        1 <= k <= 6,
    ensures
        init_value(init_literal(p, k)) == Some(p),
{
    reveal_strlit("'h");
    let d = digits_of(pow2(k), 10);
    let h = pad_zeros(digits_of(p as nat, 16), init_width(k));
    let v = init_literal(p, k);
    crate::literal::lemma_digits_round_trip(pow2(k), 10);
    crate::literal::lemma_padded_round_trip(p, 16, init_width(k));
    assert(v =~= d + seq!['\'', 'h'] + h);
    let q = d.len() as int;
    assert(v.subrange(q, q + 1) =~= seq!['\'']);
    assert forall|j: int| 0 <= j < q implies !crate::text::occurs_at(v, seq!['\''], j) by {
        assert(v[j] == d[j]);
        assert(v.subrange(j, j + 1)[0] == v[j]);
    }
    assert(crate::text::is_first_at(v, seq!['\''], q));
    crate::text::lemma_find_is(v, seq!['\''], q);
    let lit = v.subrange(q + 1, v.len() as int);
    assert(lit =~= seq!['h'] + h);
    assert(lit.drop_first() =~= h);
    assert(!has_char(lit, '\'')) by {
        if has_char(lit, '\'') {
            let i = choose|i: int| 0 <= i < lit.len() && lit[i] == '\'';
            if i > 0 {
                assert(lit[i] == h[i - 1]);
            }
        }
    }
}

/// Reads an `INIT` literal such as `8'hff` or `8'd255`.
pub fn init_parser(v: &str) -> (r: Result<u64, String>)
    ensures
        r is Ok <==> init_value(v@) is Some,
        r matches Ok(x) ==> init_value(v@) == Some(x),
{
    let c = chars_of(v);
    let n = c.len();
    assert(c@.subrange(0, n as int) =~= v@);
    let tick = vec!['\''];
    assert(tick@ =~= seq!['\'']);
    let q = match find_in(&c, 0, n, &tick) {
        Some(q) => q,
        None => {
            return Err(String::from_str("Expected a literal with specific bitwidth/format"));
        },
    };
    let ghost lit = v@.subrange(q + 1, n as int);
    proof {
        assert(crate::text::is_first_at(v@, seq!['\''], q as int));
        assert(v@.subrange(q as int, q + 1)[0] == v@[q as int]);
    }
    match find_in(&c, q + 1, n, &tick) {
        Some(p) => {
            proof {
                assert(crate::text::is_first_at(lit, seq!['\''], p - q - 1));
                assert(lit.subrange(p - q - 1, p - q)[0] == lit[p - q - 1]);
            }
            return Err(String::from_str("Expected a literal with specific bitwidth/format"));
        },
        None => {
            proof {
                if has_char(lit, '\'') {
                    let i = choose|i: int| 0 <= i < lit.len() && lit[i] == '\'';
                    assert(lit.subrange(i, i + 1) =~= seq!['\'']);
                    crate::rewrite_file::lemma_first_exists(lit, seq!['\''], i);
                }
            }
        },
    }
    if q + 1 == n {
        return Err(String::from_str("Expected a literal with specific bitwidth/format"));
    }
    assert(lit.drop_first() =~= c@.subrange(q + 2, n as int));
    let radix: u64 = if c[q + 1] == 'h' {
        16
    } else if c[q + 1] == 'd' {
        10
    } else {
        return Err(String::from_str("Expected a literal with specific bitwidth/format"));
    };
    match parse_u64(&c, q + 2, n, radix) {
        Some(x) => Ok(x),
        None => Err(String::from_str("invalid digit or value too large for u64")),
    }
}

/// A signal declaration: a bit width and a name.
#[derive(Debug, Clone, PartialEq, Eq)]
pub struct SVSignal {
    bw: usize,
    name: String,
}

impl SVSignal {
    /// The name of the signal.
    pub closed spec fn name_spec(&self) -> Seq<char> {
        self.name@
    }

    /// The bit width of the signal.
    pub closed spec fn bw_spec(&self) -> usize {
        self.bw
    }

    /// A signal of width `bw` called `name`.
    pub fn new(bw: usize, name: String) -> (r: Self)
        ensures
            r.name_spec() == name@,
            r.bw_spec() == bw,
    {
        SVSignal { bw, name }
    }

    /// The name of the signal.
    pub fn get_name(&self) -> (r: &str)
        ensures
            r@ == self.name_spec(),
    {
        self.name.as_str()
    }
}

/// The ports of a primitive that take a signal in.
pub open spec fn is_input_port(p: Seq<char>) -> bool {
    p == "I"@ || p == "I0"@ || p == "I1"@ || p == "I2"@ || p == "I3"@ || p == "I4"@ || p
        == "I5"@ || p == "D"@ || p == "A"@ || p == "B"@ || p == "S"@
}

/// The ports of a primitive that drive a signal.
pub open spec fn is_output_port(p: Seq<char>) -> bool {
    p == "O"@ || p == "Y"@ || p == "Q"@
}

/// The clock, clock-enable and reset ports, which the model does not record.
pub open spec fn is_ignored_port(p: Seq<char>) -> bool {
    p == "C"@ || p == "CE"@ || p == "R"@
}

fn input_port(p: &str) -> (r: bool)
    ensures
        r == is_input_port(p@),
{
    str_eq(p, "I") || str_eq(p, "I0") || str_eq(p, "I1") || str_eq(p, "I2") || str_eq(p, "I3")
        || str_eq(p, "I4") || str_eq(p, "I5") || str_eq(p, "D") || str_eq(p, "A") || str_eq(p, "B")
        || str_eq(p, "S")
}

fn output_port(p: &str) -> (r: bool)
    ensures
        r == is_output_port(p@),
{
    str_eq(p, "O") || str_eq(p, "Y") || str_eq(p, "Q")
}

fn ignored_port(p: &str) -> (r: bool)
    ensures
        r == is_ignored_port(p@),
{
    str_eq(p, "C") || str_eq(p, "CE") || str_eq(p, "R")
}

/// The characters of a map's values.
pub open spec fn string_values(m: Map<Seq<char>, String>) -> Map<Seq<char>, Seq<char>> {
    m.map_values(|s: String| s@)
}

fn string_from(s: &str) -> (r: String)
    ensures
        r@ == s@,
{
    String::from_str(s)
}

/// A primitive instance of a netlist: a LUT, a register, a gate, a constant
/// or a wire assignment.
#[derive(Debug, Clone, PartialEq, Eq)]
pub struct SVPrimitive {
    /// The name of the primitive.
    pub prim: String,
    /// The name of the instance.
    pub name: String,
    /// Maps each input port to the signal that drives it.
    pub inputs: NameMap<String>,
    /// Maps each output signal to the port that drives it.
    pub outputs: NameMap<String>,
    /// Parameter values and other attributes.
    pub attributes: NameMap<String>,
}

impl SVPrimitive {
    /// The three maps are well formed.
    pub open spec fn wf(&self) -> bool {
        self.inputs.wf() && self.outputs.wf() && self.attributes.wf()
    }

    /// Input port to driving signal.
    pub open spec fn inputs_view(&self) -> Map<Seq<char>, Seq<char>> {
        string_values(self.inputs@)
    }

    /// Input ports in the order they were connected.
    pub open spec fn input_ports(&self) -> Seq<Seq<char>> {
        self.inputs.keys()
    }

    /// Driven signal to output port.
    pub open spec fn outputs_view(&self) -> Map<Seq<char>, Seq<char>> {
        string_values(self.outputs@)
    }

    /// Driven signals in the order they were connected.
    pub open spec fn output_signals(&self) -> Seq<Seq<char>> {
        self.outputs.keys()
    }

    /// Attribute name to value.
    pub open spec fn attributes_view(&self) -> Map<Seq<char>, Seq<char>> {
        string_values(self.attributes@)
    }

    fn bare(prim: String, name: String) -> (r: Self)
        ensures
            r.wf(),
            r.prim@ == prim@,
            r.name@ == name@,
            r.inputs_view() == Map::<Seq<char>, Seq<char>>::empty(),
            r.outputs_view() == Map::<Seq<char>, Seq<char>>::empty(),
            r.attributes_view() == Map::<Seq<char>, Seq<char>>::empty(),
            r.input_ports() == Seq::<Seq<char>>::empty(),
            r.output_signals() == Seq::<Seq<char>>::empty(),
    {
        let r = SVPrimitive {
            prim,
            name,
            inputs: NameMap::new(),
            outputs: NameMap::new(),
            attributes: NameMap::new(),
        };
        assert(r.inputs_view() =~= Map::<Seq<char>, Seq<char>>::empty());
        assert(r.outputs_view() =~= Map::<Seq<char>, Seq<char>>::empty());
        assert(r.attributes_view() =~= Map::<Seq<char>, Seq<char>>::empty());
        r
    }

    /// An unconnected LUT of `k` inputs with instance name `name`, whose
    /// `INIT` attribute holds `program`.
    pub fn new_lut(k: usize, name: String, program: u64) -> (r: Self)
        requires
            1 <= k <= 6,
        ensures
            r.wf(),
            r.prim@ == "LUT"@ + digits_of(k as nat, 10),
            r.name@ == name@,
            r.inputs_view() == Map::<Seq<char>, Seq<char>>::empty(),
            r.outputs_view() == Map::<Seq<char>, Seq<char>>::empty(),
            r.attributes_view() == map!["INIT"@ => init_literal(program, k as nat)],
    {
        let mut prim = string_from("LUT");
        let d = write_digits(k as u64, 10);
        let ds = string_of(&d, 0, d.len());
        assert(d@.subrange(0, d@.len() as int) =~= d@);
        push_str(&mut prim, ds.as_str());
        let mut r = Self::bare(prim, name);
        let init = match init_format(program, k) {
            Ok(s) => s,
            Err(_) => String::new(),
        };
        r.attributes.insert(string_from("INIT"), init);
        assert(r.attributes_view() =~= map!["INIT"@ => init_literal(program, k as nat)]);
        r
    }

    /// An unconnected register with instance name `name`.
    pub fn new_reg(name: String) -> (r: Self)
        ensures
            r.wf(),
            r.prim@ == "FDRE"@,
            r.name@ == name@,
            r.inputs_view() == Map::<Seq<char>, Seq<char>>::empty(),
            r.outputs_view() == Map::<Seq<char>, Seq<char>>::empty(),
            r.attributes_view() == map!["INIT"@ => "1'hx"@],
    {
        let mut r = Self::bare(string_from("FDRE"), name);
        r.attributes.insert(string_from("INIT"), string_from("1'hx"));
        assert(r.attributes_view() =~= map!["INIT"@ => "1'hx"@]);
        r
    }

    /// An unconnected gate `gate` with instance name `name`.
    pub fn new_gate(gate: String, name: String) -> (r: Self)
        ensures
            r.wf(),
            r.prim@ == gate@,
            r.name@ == name@,
            r.inputs_view() == Map::<Seq<char>, Seq<char>>::empty(),
            r.outputs_view() == Map::<Seq<char>, Seq<char>>::empty(),
            r.attributes_view() == Map::<Seq<char>, Seq<char>>::empty(),
    {
        Self::bare(gate, name)
    }

    /// A constant `val` driving `signal`, with instance name `name`.
    pub fn new_const(val: bool, signal: String, name: String) -> (r: Self)
        ensures
            r.wf(),
            r.prim@ == "CONST"@,
            r.name@ == name@,
            r.inputs_view() == Map::<Seq<char>, Seq<char>>::empty(),
            r.outputs_view() == map![signal@ => "Y"@],
            r.output_signals() == seq![signal@],
            r.attributes_view() == map!["VAL"@ => if val {
                "1'b1"@
            } else {
                "1'b0"@
            }],
    {
        let mut r = Self::bare(string_from("CONST"), name);
        let ghost sig = signal@;
        r.outputs.insert(signal, string_from("Y"));
        let v = if val {
            string_from("1'b1")
        } else {
            string_from("1'b0")
        };
        r.attributes.insert(string_from("VAL"), v);
        assert(r.outputs_view() =~= map![sig => "Y"@]);
        assert(r.output_signals() =~= seq![sig]);
        assert(r.attributes_view() =~= map!["VAL"@ => if val {
            "1'b1"@
        } else {
            "1'b0"@
        }]);
        r
    }

    /// A wire assignment of `driver` to `signal`, with instance name `name`.
    pub fn new_wire(driver: String, signal: String, name: String) -> (r: Self)
        ensures
            r.wf(),
            r.prim@ == "WIRE"@,
            r.name@ == name@,
            r.inputs_view() == Map::<Seq<char>, Seq<char>>::empty(),
            r.outputs_view() == map![signal@ => "Y"@],
            r.output_signals() == seq![signal@],
            r.attributes_view() == map!["VAL"@ => driver@],
    {
        let mut r = Self::bare(string_from("WIRE"), name);
        let ghost sig = signal@;
        let ghost drv = driver@;
        r.outputs.insert(signal, string_from("Y"));
        r.attributes.insert(string_from("VAL"), driver);
        assert(r.outputs_view() =~= map![sig => "Y"@]);
        assert(r.output_signals() =~= seq![sig]);
        assert(r.attributes_view() =~= map!["VAL"@ => drv]);
        r
    }

    fn already_driven(&self, what: &str, by: &str) -> (r: String) {
        let mut m = string_from("Port ");
        push_str(&mut m, what);
        push_str(&mut m, " is already driven on instance ");
        push_str(&mut m, self.name.as_str());
        push_str(&mut m, " of ");
        push_str(&mut m, self.prim.as_str());
        push_str(&mut m, " by ");
        push_str(&mut m, by);
        m
    }

    /// Connects input `port` to `signal`. Fails when the port was connected
    /// already; the new signal replaces the old one either way.
    pub fn add_input(&mut self, port: String, signal: String) -> (r: Result<(), String>)
        requires
            old(self).wf(),
        ensures
            final(self).wf(),
            r is Err <==> old(self).inputs_view().contains_key(port@),
            final(self).inputs_view() == old(self).inputs_view().insert(port@, signal@),
            final(self).outputs_view() == old(self).outputs_view(),
            final(self).output_signals() == old(self).output_signals(),
            final(self).attributes_view() == old(self).attributes_view(),
            final(self).prim == old(self).prim,
            final(self).name == old(self).name,
    {
        let err = match self.inputs.get(port.as_str()) {
            Some(d) => Some(self.already_driven(port.as_str(), d.as_str())),
            None => None,
        };
        let ghost p = port@;
        let ghost sg = signal@;
        self.inputs.insert(port, signal);
        assert(self.inputs_view() =~= old(self).inputs_view().insert(p, sg));
        match err {
            Some(e) => Err(e),
            None => Ok(()),
        }
    }

    /// Records that output `port` drives `signal`. Fails when the signal was
    /// driven already; the new port replaces the old one either way.
    pub fn add_output(&mut self, port: String, signal: String) -> (r: Result<(), String>)
        requires
            old(self).wf(),
        ensures
            final(self).wf(),
            r is Err <==> old(self).outputs_view().contains_key(signal@),
            final(self).outputs_view() == old(self).outputs_view().insert(signal@, port@),
            !old(self).outputs_view().contains_key(signal@) ==> final(self).output_signals()
                == old(self).output_signals().push(signal@),
            old(self).outputs_view().contains_key(signal@) ==> final(self).output_signals()
                == old(self).output_signals(),
            final(self).inputs_view() == old(self).inputs_view(),
            final(self).input_ports() == old(self).input_ports(),
            final(self).attributes_view() == old(self).attributes_view(),
            final(self).prim == old(self).prim,
            final(self).name == old(self).name,
    {
        let err = match self.outputs.get(signal.as_str()) {
            Some(d) => Some(self.already_driven(signal.as_str(), d.as_str())),
            None => None,
        };
        let ghost p = port@;
        let ghost sg = signal@;
        self.outputs.insert(signal, port);
        assert(self.outputs_view() =~= old(self).outputs_view().insert(sg, p));
        match err {
            Some(e) => Err(e),
            None => Ok(()),
        }
    }

    /// Connects `signal` to `port` by the port's name: data and select
    /// inputs become inputs, `O`, `Y` and `Q` become outputs, clock, enable
    /// and reset are accepted and not recorded, and any other port fails.
    pub fn add_signal(&mut self, port: String, signal: String) -> (r: Result<(), String>)
        requires
            old(self).wf(),
        ensures
            final(self).wf(),
            final(self).prim == old(self).prim,
            final(self).name == old(self).name,
            final(self).attributes_view() == old(self).attributes_view(),
            is_input_port(port@) ==> (r is Err <==> old(self).inputs_view().contains_key(port@))
                && final(self).inputs_view() == old(self).inputs_view().insert(port@, signal@)
                && final(self).outputs_view() == old(self).outputs_view(),
            !is_input_port(port@) && is_output_port(port@) ==> (r is Err
                <==> old(self).outputs_view().contains_key(signal@)) && final(self).outputs_view()
                == old(self).outputs_view().insert(signal@, port@) && final(self).inputs_view()
                == old(self).inputs_view(),
            !is_input_port(port@) && !is_output_port(port@) ==> (r is Ok <==> is_ignored_port(
                port@,
            )) && final(self).inputs_view() == old(self).inputs_view() && final(self).outputs_view()
                == old(self).outputs_view(),
    {
        if input_port(port.as_str()) {
            self.add_input(port, signal)
        } else if output_port(port.as_str()) {
            self.add_output(port, signal)
        } else if ignored_port(port.as_str()) {
            Ok(())
        } else {
            let mut m = string_from("Unknown port name ");
            push_str(&mut m, port.as_str());
            Err(m)
        }
    }

    /// The input connections.
    pub fn inputs(&self) -> (r: &NameMap<String>)
        ensures
            string_values(r@) == self.inputs_view(),
            r.keys() == self.input_ports(),
            self.wf() ==> r.wf(),
    {
        &self.inputs
    }

    /// The output connections.
    pub fn outputs(&self) -> (r: &NameMap<String>)
        ensures
            string_values(r@) == self.outputs_view(),
            r.keys() == self.output_signals(),
            self.wf() ==> r.wf(),
    {
        &self.outputs
    }
}

/// `m` with each signal of `outs` driven by instance `idx`, later entries
/// taking precedence.
pub open spec fn register_outputs(
    m: Map<Seq<char>, usize>,
    outs: Seq<Seq<char>>,
    idx: usize,
) -> Map<Seq<char>, usize>
    decreases outs.len(),
{
    if outs.len() == 0 {
        m
    } else {
        register_outputs(m, outs.drop_last(), idx).insert(outs.last(), idx)
    }
}

/// `m` with the outputs of each of `insts` driven by its position, counted
/// from `base`, later instances taking precedence.
pub open spec fn register_instances(
    m: Map<Seq<char>, usize>,
    insts: Seq<SVPrimitive>,
    base: int,
) -> Map<Seq<char>, usize>
    decreases insts.len(),
{
    if insts.len() == 0 {
        m
    } else {
        register_outputs(
            register_instances(m, insts.drop_last(), base),
            insts.last().output_signals(),
            (base + insts.len() - 1) as usize,
        )
    }
}

/// The names of a list of signals.
pub open spec fn signal_names(s: Seq<SVSignal>) -> Seq<Seq<char>> {
    s.map_values(|x: SVSignal| x.name_spec())
}

/// The connectivity of a structural Verilog module.
#[derive(Debug, Clone, PartialEq, Eq)]
pub struct SVModule {
    /// The file the module was read from.
    pub fname: Option<String>,
    /// The name of the module.
    pub name: String,
    /// All declared nets, inputs and outputs included.
    pub signals: Vec<SVSignal>,
    /// All primitive instances.
    pub instances: Vec<SVPrimitive>,
    /// The input signals.
    pub inputs: Vec<SVSignal>,
    /// The output signals.
    pub outputs: Vec<SVSignal>,
    /// For each driven net, the position of the instance that drives it.
    pub driving_module: NameMap<usize>,
    /// Whether the module is sequential and so needs a clock.
    pub clk: bool,
}

impl SVModule {
    /// Every instance is well formed and every driver points at an instance.
    pub open spec fn wf(&self) -> bool {
        &&& self.driving_module.wf()
        &&& forall|s: Seq<char>| #[trigger]
            self.driving_module@.contains_key(s) ==> self.driving_module@[s]
                < self.instances@.len()
        &&& forall|i: int| 0 <= i < self.instances@.len() ==> #[trigger] self.instances@[i].wf()
    }

    /// An empty module called `name`.
    pub fn new(name: String) -> (r: Self)
        ensures
            r.wf(),
            r.name == name,
            r.fname is None,
            r.signals@.len() == 0,
            r.instances@.len() == 0,
            r.inputs@.len() == 0,
            r.outputs@.len() == 0,
            r.driving_module@ == Map::<Seq<char>, usize>::empty(),
            !r.clk,
    {
        SVModule {
            fname: None,
            name,
            signals: Vec::new(),
            instances: Vec::new(),
            inputs: Vec::new(),
            outputs: Vec::new(),
            driving_module: NameMap::new(),
            clk: false,
        }
    }

    /// The same module, read from file `fname`.
    pub fn with_fname(self, fname: String) -> (r: Self)
        ensures
            r == (SVModule { fname: Some(fname), ..self }),
    {
        SVModule { fname: Some(fname), ..self }
    }

    /// The name of the module.
    pub fn get_name(&self) -> (r: &str)
        ensures
            r@ == self.name@,
    {
        self.name.as_str()
    }

    /// Appends the instances `insts`, which are left empty, and records each
    /// of their outputs as driven by its new position.
    pub fn append_insts(&mut self, insts: &mut Vec<SVPrimitive>)
        requires
            old(self).wf(),
            forall|i: int| 0 <= i < old(insts)@.len() ==> #[trigger] old(insts)@[i].wf(),
            old(self).instances@.len() + old(insts)@.len() <= usize::MAX,
        ensures
            final(self).wf(),
            final(insts)@.len() == 0,
            final(self).instances@ == old(self).instances@ + old(insts)@,
            final(self).driving_module@ == register_instances(
                old(self).driving_module@,
                old(insts)@,
                old(self).instances@.len() as int,
            ),
            final(self).inputs == old(self).inputs,
            final(self).outputs == old(self).outputs,
            final(self).signals == old(self).signals,
            final(self).name == old(self).name,
            final(self).fname == old(self).fname,
            final(self).clk == old(self).clk,
    {
        let base = self.instances.len();
        let n = insts.len();
        let mut i: usize = 0;
        while i < n
            invariant
                i <= n,
                n == insts@.len(),
                insts@ == old(insts)@,
                base == self.instances@.len(),
                self.instances@ == old(self).instances@,
                base + n <= usize::MAX,
                self.driving_module.wf(),
                forall|s: Seq<char>| #[trigger]
                    self.driving_module@.contains_key(s) ==> self.driving_module@[s] < base + n,
                forall|j: int| 0 <= j < n ==> #[trigger] insts@[j].wf(),
                self.driving_module@ == register_instances(
                    old(self).driving_module@,
                    insts@.subrange(0, i as int),
                    base as int,
                ),
                self.inputs == old(self).inputs,
                self.outputs == old(self).outputs,
                self.signals == old(self).signals,
                self.name == old(self).name,
                self.fname == old(self).fname,
                self.clk == old(self).clk,
                old(self).wf(),
            decreases n - i,
        {
            let outs = insts[i].outputs();
            let m = outs.len();
            let ghost start = self.driving_module@;
            let ghost keys = insts@[i as int].output_signals();
            let mut j: usize = 0;
            while j < m
                invariant
                    j <= m,
                    i < n,
                    n == insts@.len(),
                    base + n <= usize::MAX,
                    outs.wf(),
                    base == self.instances@.len(),
                    self.instances@ == old(self).instances@,
                    self.inputs == old(self).inputs,
                    self.outputs == old(self).outputs,
                    self.signals == old(self).signals,
                    self.name == old(self).name,
                    self.fname == old(self).fname,
                    self.clk == old(self).clk,
                    m == outs.keys().len(),
                    keys == outs.keys(),
                    self.driving_module.wf(),
                    forall|s: Seq<char>| #[trigger]
                        self.driving_module@.contains_key(s) ==> self.driving_module@[s] < base
                            + n,
                    self.driving_module@ == register_outputs(
                        start,
                        keys.subrange(0, j as int),
                        (base + i) as usize,
                    ),
                decreases m - j,
            {
                let key = outs.key_at(j).clone();
                self.driving_module.insert(key, base + i);
                assert(keys.subrange(0, j + 1).drop_last() =~= keys.subrange(0, j as int));
                j = j + 1;
            }
            proof {
                assert(keys.subrange(0, m as int) =~= keys);
                let pre = insts@.subrange(0, i + 1);
                assert(pre.drop_last() =~= insts@.subrange(0, i as int));
                assert(pre.last() == insts@[i as int]);
            }
            i = i + 1;
        }
        assert(insts@.subrange(0, n as int) =~= insts@);
        self.instances.append(insts);
    }

    /// Appends `inputs` to the module's inputs; `inputs` is left empty.
    pub fn append_inputs(&mut self, inputs: &mut Vec<SVSignal>)
        ensures
            final(self).inputs@ == old(self).inputs@ + old(inputs)@,
            final(inputs)@.len() == 0,
            final(self).outputs == old(self).outputs,
            final(self).signals == old(self).signals,
            final(self).instances == old(self).instances,
            final(self).driving_module == old(self).driving_module,
            final(self).name == old(self).name,
            final(self).fname == old(self).fname,
            final(self).clk == old(self).clk,
    {
        self.inputs.append(inputs);
    }

    /// Appends `outputs` to the module's outputs; `outputs` is left empty.
    pub fn append_outputs(&mut self, outputs: &mut Vec<SVSignal>)
        ensures
            final(self).outputs@ == old(self).outputs@ + old(outputs)@,
            final(outputs)@.len() == 0,
            final(self).inputs == old(self).inputs,
            final(self).signals == old(self).signals,
            final(self).instances == old(self).instances,
            final(self).driving_module == old(self).driving_module,
            final(self).name == old(self).name,
            final(self).fname == old(self).fname,
            final(self).clk == old(self).clk,
    {
        self.outputs.append(outputs);
    }

    /// Appends net declarations `signals`, which is left empty.
    pub fn append_signals(&mut self, signals: &mut Vec<SVSignal>)
        ensures
            final(self).signals@ == old(self).signals@ + old(signals)@,
            final(signals)@.len() == 0,
            final(self).inputs == old(self).inputs,
            final(self).outputs == old(self).outputs,
            final(self).instances == old(self).instances,
            final(self).driving_module == old(self).driving_module,
            final(self).name == old(self).name,
            final(self).fname == old(self).fname,
            final(self).clk == old(self).clk,
    {
        self.signals.append(signals);
    }

    /// The instance that drives `signal`, or an error when none does.
    pub fn get_driving_primitive<'a>(&'a self, signal: &str) -> (r: Result<&'a SVPrimitive, String>)
        requires
            self.wf(),
        ensures
            r is Ok <==> self.driving_module@.contains_key(signal@),
            r matches Ok(p) ==> *p == self.instances@[self.driving_module@[signal@] as int],
            r matches Err(m) ==> m@ == (match self.fname {
                Some(f) => f@,
                None => Seq::<char>::empty(),
            }) + ": Signal "@ + signal@ + " is not driven by any primitive in "@ + self.name@,
    {
        match self.driving_module.get(signal) {
            Some(idx) => Ok(&self.instances[*idx]),
            None => {
                let mut m = match &self.fname {
                    Some(f) => f.clone(),
                    None => String::new(),
                };
                push_str(&mut m, ": Signal ");
                push_str(&mut m, signal);
                push_str(&mut m, " is not driven by any primitive in ");
                push_str(&mut m, self.name.as_str());
                Err(m)
            },
        }
    }

    /// Whether `signal` is an input of the module.
    pub fn is_an_input(&self, signal: &str) -> (r: bool)
        ensures
            r == signal_names(self.inputs@).contains(signal@),
    {
        let mut i: usize = 0;
        while i < self.inputs.len()
            invariant
                i <= self.inputs@.len(),
                forall|j: int| 0 <= j < i ==> self.inputs@[j].name_spec() != signal@,
            decreases self.inputs@.len() - i,
        {
            if str_eq(self.inputs[i].get_name(), signal) {
                assert(signal_names(self.inputs@)[i as int] == signal@);
                return true;
            }
            i = i + 1;
        }
        proof {
            if signal_names(self.inputs@).contains(signal@) {
                let j = choose|j: int|
                    0 <= j < signal_names(self.inputs@).len() && signal_names(self.inputs@)[j]
                        == signal@;
                assert(self.inputs@[j].name_spec() == signal@);
            }
        }
        false
    }

    /// The number of inputs of a LUT primitive name such as `LUT4`: `None`
    /// for a name without the `LUT` prefix, an error when what follows is
    /// not a number up to six.
    pub fn is_lut_prim(name: &str) -> (r: Result<Option<usize>, String>)
        ensures
            !crate::text::starts_with(name@, "LUT"@) ==> r == Ok::<Option<usize>, String>(None),
            crate::text::starts_with(name@, "LUT"@) ==> match parse_u64_spec(
                name@.subrange(3, name@.len() as int),
                10,
            ) {
                Some(k) => if k <= 6 {
                    r == Ok::<Option<usize>, String>(Some(k as usize))
                } else {
                    r is Err
                },
                None => r is Err,
            },
    {
        let v = chars_of(name);
        let n = v.len();
        assert(v@.subrange(0, n as int) =~= name@);
        let root = chars_of("LUT");
        proof {
            reveal_strlit("LUT");
        }
        if !crate::text::matches_at(&v, 0, n, &root) {
            return Ok(None);
        }
        match parse_u64(&v, 3, n, 10) {
            Some(k) => {
                if k > 6 {
                    Err(string_from("Only support LUTs up to size 6"))
                } else {
                    Ok(Some(k as usize))
                }
            },
            None => Err(string_from("Could not parse LUT size")),
        }
    }

    /// Marks the module sequential, adding the `clk` input the first time.
    pub fn add_clk(&mut self)
        ensures
            final(self).clk,
            old(self).clk ==> final(self).inputs == old(self).inputs,
            !old(self).clk ==> final(self).inputs@.len() == old(self).inputs@.len() + 1
                && final(self).inputs@.subrange(0, old(self).inputs@.len() as int)
                == old(self).inputs@ && final(self).inputs@.last().name_spec() == "clk"@,
            final(self).outputs == old(self).outputs,
            final(self).signals == old(self).signals,
            final(self).instances == old(self).instances,
            final(self).driving_module == old(self).driving_module,
            final(self).name == old(self).name,
            final(self).fname == old(self).fname,
    {
        if !self.clk {
            self.clk = true;
            let mut clk = vec![SVSignal::new(1, string_from("clk"))];
            self.append_inputs(&mut clk);
            assert(self.inputs@.subrange(0, old(self).inputs@.len() as int) =~= old(self).inputs@);
        }
    }

    /// Whether `name` is the register primitive.
    pub fn is_reg_prim(name: &str) -> (r: bool)
        ensures
            r == (name@ == "FDRE"@),
    {
        str_eq(name, "FDRE")
    }

    /// Whether `name` is one of AND2, NOR2, XOR2, NOT, INV and MUX.
    pub fn is_gate_prim(name: &str) -> (r: bool)
        ensures
            r == (name@ == "AND2"@ || name@ == "NOR2"@ || name@ == "XOR2"@ || name@ == "NOT"@
                || name@ == "INV"@ || name@ == "MUX"@),
    {
        str_eq(name, "AND2") || str_eq(name, "NOR2") || str_eq(name, "XOR2") || str_eq(name, "NOT")
            || str_eq(name, "INV") || str_eq(name, "MUX")
    }

    /// Whether `name` is a constant or a wire assignment.
    pub fn is_assign_prim(name: &str) -> (r: bool)
        ensures
            r == (name@ == "CONST"@ || name@ == "WIRE"@),
    {
        str_eq(name, "CONST") || str_eq(name, "WIRE")
    }

    /// The names of the outputs, in order.
    pub fn get_outputs(&self) -> (r: Vec<&str>)
        ensures
            r@.len() == self.outputs@.len(),
            forall|i: int| 0 <= i < r@.len() ==> #[trigger] r@[i]@ == self.outputs@[i].name_spec(),
    {
        let mut r: Vec<&str> = Vec::new();
        let mut i: usize = 0;
        while i < self.outputs.len()
            invariant
                i <= self.outputs@.len(),
                r@.len() == i,
                forall|j: int| 0 <= j < i ==> #[trigger] r@[j]@ == self.outputs@[j].name_spec(),
            decreases self.outputs@.len() - i,
        {
            r.push(self.outputs[i].get_name());
            i = i + 1;
        }
        r
    }
}

/// Signal `a` is computed from signal `b`: `b` drives an input of the
/// instance that drives `a`.
pub open spec fn depends_on(m: SVModule, a: Seq<char>, b: Seq<char>) -> bool {
    m.driving_module@.contains_key(a) && m.instances@[m.driving_module@[a] as int].inputs_view().values().contains(b)
}

/// Each signal of `p` is computed from the next one.
pub open spec fn is_path(m: SVModule, p: Seq<Seq<char>>) -> bool {
    forall|i: int| 0 <= i < p.len() - 1 ==> depends_on(m, #[trigger] p[i], p[i + 1])
}

/// Signal `s` is computed, through one instance or more, from itself.
pub open spec fn on_cycle(m: SVModule, s: Seq<char>) -> bool {
    exists|p: Seq<Seq<char>>| p.len() >= 2 && p[0] == s && p.last() == s && is_path(m, p)
}

/// Signal `b` is `a`, or `a` is computed through instances from `b`.
pub open spec fn reaches(m: SVModule, a: Seq<char>, b: Seq<char>) -> bool {
    exists|p: Seq<Seq<char>>| p.len() >= 1 && p[0] == a && p.last() == b && is_path(m, p)
}

/// Nothing that `d` is computed from lies on a cycle, and `d` is computed
/// from no signal of `w`.
pub open spec fn settled(m: SVModule, d: Seq<char>, w: Seq<Seq<char>>) -> bool {
    &&& forall|s: Seq<char>| #[trigger] reaches(m, d, s) ==> !on_cycle(m, s)
    &&& forall|i: int| 0 <= i < w.len() ==> !reaches(m, d, #[trigger] w[i])
}

/// A path of two signals or more starts with one step and goes on with a path.
pub proof fn lemma_first_step(m: SVModule, p: Seq<Seq<char>>)
    requires
        p.len() >= 2,
        is_path(m, p),
    ensures
        depends_on(m, p[0], p[1]),
        reaches(m, p[1], p.last()),
{
    let q = p.drop_first();
    assert(is_path(m, q)) by {
        assert forall|i: int| 0 <= i < q.len() - 1 implies depends_on(m, #[trigger] q[i], q[i + 1]) by {
            assert(q[i] == p[i + 1]);
            assert(depends_on(m, p[i + 1], p[i + 2]));
        }
    }
    assert(q.len() >= 1 && q[0] == p[1] && q.last() == p.last());
}

/// Some signal on which an output depends lies on a cycle.
pub open spec fn has_feedback(m: SVModule) -> bool {
    exists|i: int, s: Seq<char>|
        0 <= i < m.outputs@.len() && #[trigger] reaches(m, m.outputs@[i].name_spec(), s) && on_cycle(
            m,
            s,
        )
}

/// One step followed by a path is a path.
pub proof fn lemma_prepend(m: SVModule, a: Seq<char>, b: Seq<char>, c: Seq<char>)
    requires
        depends_on(m, a, b),
        reaches(m, b, c),
    ensures
        reaches(m, a, c),
{
    let p = choose|p: Seq<Seq<char>>| p.len() >= 1 && p[0] == b && p.last() == c && is_path(m, p);
    let q = seq![a] + p;
    assert forall|i: int| 0 <= i < q.len() - 1 implies depends_on(m, #[trigger] q[i], q[i + 1]) by {
        if i > 0 {
            assert(q[i] == p[i - 1]);
            assert(q[i + 1] == p[i]);
        }
    }
    assert(q.len() >= 1 && q[0] == a && q.last() == c && is_path(m, q));
}

/// The characters of each string of a walk.
pub open spec fn walk_view(w: Seq<&str>) -> Seq<Seq<char>> {
    w.map_values(|s: &str| s@)
}

impl SVModule {
    proof fn lemma_walk_bound(&self, w: Seq<Seq<char>>)
        requires
            self.wf(),
            w.no_duplicates(),
            forall|i: int| 0 <= i < w.len() ==> self.driving_module@.contains_key(#[trigger] w[i]),
        ensures
            w.len() <= self.driving_module@.dom().len(),
            self.driving_module@.dom().finite(),
    {
        self.driving_module.lemma_dom_finite();
        w.unique_seq_to_set();
        assert(w.to_set().subset_of(self.driving_module@.dom()));
        vstd::set_lib::lemma_len_subset(w.to_set(), self.driving_module@.dom());
    }

    /// Walks back from `signal` through the instances that drive it, with
    /// `walk` the path that led here; fails with a signal that lies on a
    /// cycle.
    fn contains_cycles_rec<'a>(&'a self, signal: &'a str, walk: &mut Vec<&'a str>) -> (r: Result<(), &'a str>)
        requires
            self.wf(),
            walk_view(old(walk)@).no_duplicates(),
            forall|i: int| 0 <= i < old(walk)@.len() ==> self.driving_module@.contains_key(#[trigger] walk_view(old(walk)@)[i]),
            is_path(*self, walk_view(old(walk)@)),
            old(walk)@.len() > 0 ==> depends_on(*self, walk_view(old(walk)@).last(), signal@),
        ensures
            final(walk)@ == old(walk)@,
            r matches Err(s) ==> on_cycle(*self, s@) && reaches(*self, signal@, s@),
            r is Ok ==> settled(*self, signal@, walk_view(old(walk)@)),
        decreases self.driving_module@.dom().len() - old(walk)@.len(),
    {
        let ghost w0 = walk_view(walk@);
        proof {
            self.lemma_walk_bound(w0);
        }
        let mut k: usize = 0;
        while k < walk.len()
            invariant
                k <= walk@.len(),
                walk@ == old(walk)@,
                w0 == walk_view(walk@),
                is_path(*self, w0),
                old(walk)@.len() > 0 ==> depends_on(*self, w0.last(), signal@),
                forall|j: int| 0 <= j < k ==> walk@[j]@ != signal@,
            decreases walk@.len() - k,
        {
            if str_eq(walk[k], signal) {
                proof {
                    let p = w0.subrange(k as int, w0.len() as int).push(signal@);
                    assert(w0[k as int] == walk@[k as int]@);
                    assert(p[0] == signal@);
                    assert forall|i: int| 0 <= i < p.len() - 1 implies depends_on(*self, #[trigger] p[i], p[i + 1]) by {
                        if i < p.len() - 2 {
                            assert(p[i] == w0[k + i]);
                            assert(p[i + 1] == w0[k + i + 1]);
                        } else {
                            assert(p[i] == w0.last());
                        }
                    }
                    assert(p.len() >= 2 && p[0] == signal@ && p.last() == signal@ && is_path(*self, p));
                    assert(on_cycle(*self, signal@));
                    let one = seq![signal@];
                    assert(one.len() >= 1 && one[0] == signal@ && one.last() == signal@ && is_path(*self, one));
                }
                return Err(signal);
            }
            k = k + 1;
        }
        let driving = match self.get_driving_primitive(signal) {
            Ok(p) => p,
            Err(_) => {
                proof {
                    assert forall|x: Seq<char>| #[trigger] reaches(*self, signal@, x) implies x
                        == signal@ by {
                        let p = choose|p: Seq<Seq<char>>|
                            p.len() >= 1 && p[0] == signal@ && p.last() == x && is_path(*self, p);
                        if p.len() >= 2 {
                            lemma_first_step(*self, p);
                        }
                    }
                    if on_cycle(*self, signal@) {
                        let p = choose|p: Seq<Seq<char>>|
                            p.len() >= 2 && p[0] == signal@ && p.last() == signal@ && is_path(*self, p);
                        lemma_first_step(*self, p);
                    }
                    assert forall|i: int| 0 <= i < w0.len() implies !reaches(*self, signal@, #[trigger] w0[i]) by {
                        if reaches(*self, signal@, w0[i]) {
                            assert(walk@[i]@ == w0[i]);
                        }
                    }
                }
                return Ok(());
            },
        };
        walk.push(signal);
        let ghost w1 = walk_view(walk@);
        proof {
            assert(w1 =~= w0.push(signal@));
            assert forall|i: int, j: int| 0 <= i < j < w1.len() implies w1[i] != w1[j] by {
                if j == w1.len() - 1 {
                    assert(walk@[i]@ != signal@);
                }
            }
            assert forall|i: int| 0 <= i < w1.len() - 1 implies depends_on(*self, #[trigger] w1[i], w1[i + 1]) by {
                if i < w1.len() - 2 {
                    assert(w1[i] == w0[i] && w1[i + 1] == w0[i + 1]);
                }
            }
            self.lemma_walk_bound(w1);
        }
        let ins = driving.inputs();
        let n = ins.len();
        let mut j: usize = 0;
        while j < n
            invariant
                self.wf(),
                j <= n,
                ins.wf(),
                n == ins.keys().len(),
                *driving == self.instances@[self.driving_module@[signal@] as int],
                self.driving_module@.contains_key(signal@),
                string_values(ins@) == driving.inputs_view(),
                walk@ == old(walk)@.push(signal),
                w1 == walk_view(walk@),
                w1.no_duplicates(),
                forall|i: int| 0 <= i < w1.len() ==> self.driving_module@.contains_key(#[trigger] w1[i]),
                is_path(*self, w1),
                w1.last() == signal@,
                w1.len() <= self.driving_module@.dom().len(),
                old(walk)@.len() + 1 == w1.len(),
                forall|jj: int| 0 <= jj < j ==> settled(*self, #[trigger] string_values(ins@)[ins.keys()[jj]], w1),
            decreases n - j,
        {
            let d = ins.value_at(j);
            proof {
                let key = ins.keys()[j as int];
                assert(ins@.contains_key(key)) by {
                    ins.lemma_index(j as int);
                }
                assert(driving.inputs_view().contains_key(key));
                assert(driving.inputs_view()[key] == d@);
                assert(depends_on(*self, w1.last(), d@));
            }
            match self.contains_cycles_rec(d.as_str(), walk) {
                Ok(()) => {},
                Err(s) => {
                    proof {
                        lemma_prepend(*self, signal@, d@, s@);
                    }
                    walk.pop();
                    return Err(s);
                },
            }
            assert(string_values(ins@)[ins.keys()[j as int]] == d@);
            j = j + 1;
        }
        walk.pop();
        assert(walk@ =~= old(walk)@);
        proof {
            let x = signal@;
            assert forall|c: Seq<char>| depends_on(*self, x, c) implies settled(*self, c, w1) by {
                assert(driving.inputs_view().values().contains(c));
                let k = choose|k: Seq<char>| #[trigger] driving.inputs_view().contains_key(k) && driving.inputs_view()[k] == c;
                assert(ins@.contains_key(k));
                assert(ins.keys().contains(k));
                let jj = choose|jj: int| 0 <= jj < ins.keys().len() && ins.keys()[jj] == k;
                assert(settled(*self, string_values(ins@)[ins.keys()[jj]], w1));
            }
            assert forall|t: Seq<char>| #[trigger] reaches(*self, x, t) implies !on_cycle(*self, t) by {
                let p = choose|p: Seq<Seq<char>>| p.len() >= 1 && p[0] == x && p.last() == t && is_path(*self, p);
                if p.len() >= 2 {
                    lemma_first_step(*self, p);
                    assert(settled(*self, p[1], w1));
                } else {
                    if on_cycle(*self, x) {
                        let q = choose|q: Seq<Seq<char>>| q.len() >= 2 && q[0] == x && q.last() == x && is_path(*self, q);
                        lemma_first_step(*self, q);
                        assert(settled(*self, q[1], w1));
                        assert(w1[w1.len() - 1] == x);
                    }
                }
            }
            assert forall|i: int| 0 <= i < w0.len() implies !reaches(*self, x, #[trigger] w0[i]) by {
                if reaches(*self, x, w0[i]) {
                    let p = choose|p: Seq<Seq<char>>| p.len() >= 1 && p[0] == x && p.last() == w0[i] && is_path(*self, p);
                    if p.len() >= 2 {
                        lemma_first_step(*self, p);
                        assert(settled(*self, p[1], w1));
                        assert(w1[i] == w0[i]);
                    } else {
                        assert(walk@[i]@ == w0[i]);
                    }
                }
            }
        }
        Ok(())
    }

    /// Succeeds when no signal on which an output depends lies on a cycle;
    /// otherwise fails with a signal that does.
    pub fn contains_cycles<'a>(&'a self) -> (r: Result<(), &'a str>)
        requires
            self.wf(),
        ensures
            r matches Err(s) ==> on_cycle(*self, s@) && exists|i: int|
                0 <= i < self.outputs@.len() && #[trigger] reaches(*self, self.outputs@[i].name_spec(), s@),
            r is Ok <==> !has_feedback(*self),
    {
        let mut i: usize = 0;
        while i < self.outputs.len()
            invariant
                self.wf(),
                i <= self.outputs@.len(),
                forall|ii: int, s: Seq<char>|
                    0 <= ii < i && #[trigger] reaches(*self, self.outputs@[ii].name_spec(), s)
                        ==> !on_cycle(*self, s),
            decreases self.outputs@.len() - i,
        {
            let mut walk: Vec<&'a str> = Vec::new();
            proof {
                assert(walk_view(walk@) =~= Seq::<Seq<char>>::empty());
            }
            match self.contains_cycles_rec(self.outputs[i].get_name(), &mut walk) {
                Ok(()) => {},
                Err(s) => {
                    proof {
                        let o = self.outputs@[i as int].name_spec();
                        assert(reaches(*self, o, s@));
                        assert(has_feedback(*self));
                    }
                    return Err(s);
                },
            }
            i = i + 1;
        }
        proof {
            if has_feedback(*self) {
                let (ii, t) = choose|ii: int, t: Seq<char>|
                    0 <= ii < self.outputs@.len() && #[trigger] reaches(*self, self.outputs@[ii].name_spec(), t)
                        && on_cycle(*self, t);
            }
        }
        Ok(())
    }
}

/// The data inputs of the first `k` instances that are registers whose data
/// input no register drives, in order.
pub open spec fn register_roots(m: SVModule, k: int) -> Seq<Seq<char>>
    decreases k,
{
    if k <= 0 {
        Seq::empty()
    } else {
        let p = m.instances@[k - 1];
        register_roots(m, k - 1) + if p.prim@ == "FDRE"@ && p.input_ports().len() > 0 {
            let d = p.inputs_view()[p.input_ports()[0]];
            if m.driving_module@.contains_key(d) && m.instances@[m.driving_module@[d] as int].prim@
                == "FDRE"@ {
                Seq::empty()
            } else {
                seq![d]
            }
        } else {
            Seq::empty()
        }
    }
}

/// The roots of the register-to-register view: the outputs, then the data
/// inputs of the registers that a register does not drive.
pub open spec fn cone_root_names(m: SVModule) -> Seq<Seq<char>> {
    signal_names(m.outputs@) + register_roots(m, m.instances@.len() as int)
}

/// `s` drives an input of a register.
pub open spec fn is_register_input(m: SVModule, s: Seq<char>) -> bool {
    exists|k: int|
        0 <= k < m.instances@.len() && m.instances@[k].prim@ == "FDRE"@ && (#[trigger] m.instances@[k]).inputs_view().values().contains(s)
}

/// Every entry of `map` names a node of `expr`.
pub open spec fn memo_ok(map: Map<Seq<char>, usize>, len: nat) -> bool {
    forall|s: Seq<char>| #[trigger] map.contains_key(s) ==> map[s] < len
}

/// `b` is `a` with nodes added at the end.
pub open spec fn extends(a: Seq<LutLang>, b: Seq<LutLang>) -> bool {
    a.len() <= b.len() && b.subrange(0, a.len() as int) == a
}

/// Adding a node whose children all precede it keeps a term well formed.
pub proof fn lemma_push_wf(e: Seq<LutLang>, n: LutLang)
    requires
        wf_expr(e),
        forall|j: int| 0 <= j < n.children().len() ==> #[trigger] n.children()[j] < e.len(),
    ensures
        wf_expr(e.push(n)),
        extends(e, e.push(n)),
{
    assert(e.push(n).subrange(0, e.len() as int) =~= e);
    assert forall|i: int, j: int|
        0 <= i < e.push(n).len() && 0 <= j < e.push(n)[i].children().len() implies #[trigger] e.push(n)[i].children()[j] < i by {
        if i < e.len() {
            assert(e.push(n)[i] == e[i]);
        }
    }
}

/// `extends` is transitive.
pub proof fn lemma_extends_trans(a: Seq<LutLang>, b: Seq<LutLang>, c: Seq<LutLang>)
    requires
        extends(a, b),
        extends(b, c),
    ensures
        extends(a, c),
{
    assert(c.subrange(0, a.len() as int) =~= c.subrange(0, b.len() as int).subrange(0, a.len() as int));
}

/// Appends node `n` to `expr` and returns its position.
fn add_node(expr: &mut Vec<LutLang>, n: LutLang) -> (id: usize)
    requires
        wf_expr(old(expr)@),
        forall|j: int| 0 <= j < n.children().len() ==> #[trigger] n.children()[j] < old(expr)@.len(),
    ensures
        wf_expr(final(expr)@),
        extends(old(expr)@, final(expr)@),
        final(expr)@ == old(expr)@.push(n),
        id == old(expr)@.len(),
{
    proof {
        lemma_push_wf(expr@, n);
    }
    let id = expr.len();
    expr.push(n);
    id
}

/// When terms are built, signal `a` is computed from signal `b`: `b` drives
/// an input of the instance that drives `a`, or that instance is a wire from
/// `b`. With `cut`, the output of a register is computed from nothing.
pub open spec fn edge(m: SVModule, cut: bool, a: Seq<char>, b: Seq<char>) -> bool {
    m.driving_module@.contains_key(a) && !(cut && m.instances@[m.driving_module@[a] as int].prim@
        == "FDRE"@) && (m.instances@[m.driving_module@[a] as int].inputs_view().values().contains(b)
        || (m.instances@[m.driving_module@[a] as int].prim@ == "WIRE"@
        && m.instances@[m.driving_module@[a] as int].attributes_view().contains_key("VAL"@)
        && m.instances@[m.driving_module@[a] as int].attributes_view()["VAL"@] == b))
}

/// Each signal of `p` is computed from the next one.
pub open spec fn is_path_e(m: SVModule, cut: bool, p: Seq<Seq<char>>) -> bool {
    forall|i: int| 0 <= i < p.len() - 1 ==> edge(m, cut, #[trigger] p[i], p[i + 1])
}

/// `b` is `a`, or `a` is computed, through one step or more, from `b`.
pub open spec fn reaches_e(m: SVModule, cut: bool, a: Seq<char>, b: Seq<char>) -> bool {
    exists|p: Seq<Seq<char>>| p.len() >= 1 && p[0] == a && p.last() == b && is_path_e(m, cut, p)
}

/// `s` is computed, through one step or more, from itself.
pub open spec fn cycle_e(m: SVModule, cut: bool, s: Seq<char>) -> bool {
    exists|p: Seq<Seq<char>>| p.len() >= 2 && p[0] == s && p.last() == s && is_path_e(m, cut, p)
}

/// The primitive has what its term needs: the ports of a gate, the data
/// input of a register, the value of an assignment, or the `INIT` program
/// and the inputs `I0`, `I1`, ... of a LUT.
pub open spec fn prim_ok(p: SVPrimitive) -> bool {
    let n = p.prim@;
    let ins = p.inputs_view();
    if n == "AND2"@ || n == "NOR2"@ || n == "XOR2"@ {
        ins.contains_key("A"@) && ins.contains_key("B"@)
    } else if n == "MUX"@ {
        ins.contains_key("S"@) && ins.contains_key("A"@) && ins.contains_key("B"@)
    } else if n == "NOT"@ {
        ins.contains_key("A"@)
    } else if n == "INV"@ {
        ins.contains_key("I"@)
    } else if n == "FDRE"@ {
        p.input_ports().len() > 0
    } else if n == "CONST"@ || n == "WIRE"@ {
        p.attributes_view().contains_key("VAL"@)
    } else {
        p.attributes_view().contains_key("INIT"@) && init_value(p.attributes_view()["INIT"@]) is Some
            && forall|x: nat| x < p.input_ports().len() ==> ins.contains_key(#[trigger] lut_port(x))
    }
}

/// The name of input `x` of a LUT.
pub open spec fn lut_port(x: nat) -> Seq<char> {
    "I"@ + digits_of(x, 10)
}

/// A signal that terms can start from: a module input, a register output
/// when cutting, or the output of a primitive that has what its term needs.
pub open spec fn local_ok(m: SVModule, cut: bool, t: Seq<char>) -> bool {
    if m.driving_module@.contains_key(t) {
        (cut && m.instances@[m.driving_module@[t] as int].prim@ == "FDRE"@) || prim_ok(
            m.instances@[m.driving_module@[t] as int],
        )
    } else {
        signal_names(m.inputs@).contains(t)
    }
}

/// Every signal that `s` is computed from can start a term and lies on no
/// cycle.
pub open spec fn good(m: SVModule, cut: bool, s: Seq<char>) -> bool {
    forall|t: Seq<char>| #[trigger] reaches_e(m, cut, s, t) ==> local_ok(m, cut, t) && !cycle_e(m, cut, t)
}

/// A signal reaches itself.
pub proof fn lemma_reach_self(m: SVModule, cut: bool, a: Seq<char>)
    ensures
        reaches_e(m, cut, a, a),
{
    let p = seq![a];
    assert(p.len() >= 1 && p[0] == a && p.last() == a && is_path_e(m, cut, p));
}

/// What the next signal is computed from, a signal is computed from too;
/// so a signal that can start terms passes that on to the next one.
pub proof fn lemma_good_step(m: SVModule, cut: bool, a: Seq<char>, b: Seq<char>)
    requires
        edge(m, cut, a, b),
        good(m, cut, a),
    ensures
        good(m, cut, b),
{
    assert forall|t: Seq<char>| #[trigger] reaches_e(m, cut, b, t) implies local_ok(m, cut, t) && !cycle_e(m, cut, t) by {
        let p = choose|p: Seq<Seq<char>>| p.len() >= 1 && p[0] == b && p.last() == t && is_path_e(m, cut, p);
        let q = seq![a] + p;
        assert forall|i: int| 0 <= i < q.len() - 1 implies edge(m, cut, #[trigger] q[i], q[i + 1]) by {
            if i > 0 {
                assert(q[i] == p[i - 1]);
                assert(q[i + 1] == p[i]);
            }
        }
        assert(q.len() >= 1 && q[0] == a && q.last() == t && is_path_e(m, cut, q));
        assert(reaches_e(m, cut, a, t));
    }
}

/// A signal that can start terms and is driven by a primitive, not a cut
/// register, has a primitive with what its term needs.
pub proof fn lemma_good_prim(m: SVModule, cut: bool, s: Seq<char>)
    requires
        good(m, cut, s),
        m.driving_module@.contains_key(s),
        !(cut && m.instances@[m.driving_module@[s] as int].prim@ == "FDRE"@),
    ensures
        prim_ok(m.instances@[m.driving_module@[s] as int]),
{
    lemma_reach_self(m, cut, s);
}

/// The signal on input port `k` of the instance that drives `s` is one that
/// `s` is computed from.
pub proof fn lemma_input_edge(m: SVModule, cut: bool, s: Seq<char>, k: Seq<char>)
    requires
        m.driving_module@.contains_key(s),
        !(cut && m.instances@[m.driving_module@[s] as int].prim@ == "FDRE"@),
        m.instances@[m.driving_module@[s] as int].inputs_view().contains_key(k),
    ensures
        edge(m, cut, s, m.instances@[m.driving_module@[s] as int].inputs_view()[k]),
{
    let iv = m.instances@[m.driving_module@[s] as int].inputs_view();
    assert(iv.values().contains(iv[k]));
}

/// Without cutting, the edges of `depends_on` are edges of terms.
pub proof fn lemma_feedback_is_cycle(m: SVModule)
    requires
        has_feedback(m),
    ensures
        exists|i: int| 0 <= i < m.outputs@.len() && !good(m, false, #[trigger] m.outputs@[i].name_spec()),
{
    let (i, s) = choose|i: int, s: Seq<char>|
        0 <= i < m.outputs@.len() && #[trigger] reaches(m, m.outputs@[i].name_spec(), s) && on_cycle(m, s);
    let p = choose|p: Seq<Seq<char>>| p.len() >= 1 && p[0] == m.outputs@[i].name_spec() && p.last() == s && is_path(m, p);
    assert(is_path_e(m, false, p)) by {
        assert forall|j: int| 0 <= j < p.len() - 1 implies edge(m, false, #[trigger] p[j], p[j + 1]) by {
            assert(depends_on(m, p[j], p[j + 1]));
        }
    }
    assert(reaches_e(m, false, m.outputs@[i].name_spec(), s));
    let c = choose|c: Seq<Seq<char>>| c.len() >= 2 && c[0] == s && c.last() == s && is_path(m, c);
    assert(is_path_e(m, false, c)) by {
        assert forall|j: int| 0 <= j < c.len() - 1 implies edge(m, false, #[trigger] c[j], c[j + 1]) by {
            assert(depends_on(m, c[j], c[j + 1]));
        }
    }
    assert(cycle_e(m, false, s));
    assert(!good(m, false, m.outputs@[i].name_spec()));
}

/// The node at `id` of `e` is what primitive `p` becomes: the matching gate
/// operator, a register, a constant of its `VAL`, or a LUT whose first child
/// is the program that its `INIT` literal holds.
pub open spec fn built(e: Seq<LutLang>, id: int, p: SVPrimitive) -> bool {
    let n = p.prim@;
    if n == "AND2"@ {
        e[id] is And
    } else if n == "NOR2"@ {
        e[id] is Nor
    } else if n == "XOR2"@ {
        e[id] is Xor
    } else if n == "MUX"@ {
        e[id] is Mux
    } else if n == "NOT"@ || n == "INV"@ {
        e[id] is Not
    } else if n == "FDRE"@ {
        e[id] is Reg
    } else if n == "CONST"@ {
        e[id] == LutLang::Const(p.attributes_view()["VAL"@] == "1'b1"@)
    } else if n == "WIRE"@ {
        true
    } else {
        match (e[id], init_value(p.attributes_view()["INIT"@])) {
            (LutLang::Lut(l), Some(prog)) => l@.len() > 0 && l@[0] < e.len() && e[l@[0] as int]
                == LutLang::Program(prog),
            _ => false,
        }
    }
}

/// Node `id` of `e` is the term of signal `s`: the node its driving
/// primitive becomes (see [`built`]), or an input leaf named `s` for a module
/// input, and for a register output when cutting.
pub open spec fn denotes_top(m: SVModule, cut: bool, e: Seq<LutLang>, id: int, s: Seq<char>) -> bool {
    0 <= id < e.len() && if m.driving_module@.contains_key(s) && !(cut && m.instances@[m.driving_module@[s] as int].prim@ == "FDRE"@) {
        built(e, id, m.instances@[m.driving_module@[s] as int])
    } else {
        is_var_node(e, id, s)
    }
}

/// Every signal in `map` names its term in `e`.
pub open spec fn memo_sound(m: SVModule, cut: bool, map: Map<Seq<char>, usize>, e: Seq<LutLang>) -> bool {
    forall|s: Seq<char>| #[trigger] map.contains_key(s) ==> denotes_top(m, cut, e, map[s] as int, s)
}

proof fn lemma_denotes_extend(m: SVModule, cut: bool, e: Seq<LutLang>, e2: Seq<LutLang>, id: int, s: Seq<char>)
    requires
        denotes_top(m, cut, e, id, s),
        extends(e, e2),
    ensures
        denotes_top(m, cut, e2, id, s),
{
    assert(e2[id] == e2.subrange(0, e.len() as int)[id]);
    match e[id] {
        LutLang::Lut(l) => {
            if l@.len() > 0 && l@[0] < e.len() {
                assert(e2[l@[0] as int] == e2.subrange(0, e.len() as int)[l@[0] as int]);
            }
        },
        _ => {},
    }
}

proof fn lemma_memo_extend(m: SVModule, cut: bool, map: Map<Seq<char>, usize>, e: Seq<LutLang>, e2: Seq<LutLang>)
    requires
        memo_sound(m, cut, map, e),
        extends(e, e2),
    ensures
        memo_sound(m, cut, map, e2),
{
    assert forall|s: Seq<char>| #[trigger] map.contains_key(s) implies denotes_top(m, cut, e2, map[s] as int, s) by {
        lemma_denotes_extend(m, cut, e, e2, map[s] as int, s);
    }
}

/// The node at `id` is the input `signal`.
pub open spec fn is_var_node(e: Seq<LutLang>, id: int, signal: Seq<char>) -> bool {
    0 <= id < e.len() && (e[id] matches LutLang::Var(v) && v@ == signal)
}

proof fn lemma_memo_grow(map: Map<Seq<char>, usize>, a: nat, b: nat)
    requires
        memo_ok(map, a),
        a <= b,
    ensures
        memo_ok(map, b),
{
}

impl SVModule {
    /// Builds the term of `signal` into `expr`, sharing the terms already
    /// built for the signals in `map`; `walk` is the path of signals that led
    /// here, and a signal met again on it fails as feedback. With `cut`, the
    /// output of a register is a free input of the term.
    fn get_expr<'a>(
        &'a self,
        signal: &'a str,
        expr: &mut Vec<LutLang>,
        map: &mut NameMap<usize>,
        walk: &mut Vec<&'a str>,
        cut: bool,
    ) -> (r: Result<usize, String>)
        requires
            self.wf(),
            wf_expr(old(expr)@),
            old(map).wf(),
            memo_ok(old(map)@, old(expr)@.len()),
            memo_sound(*self, cut, old(map)@, old(expr)@),
            walk_view(old(walk)@).no_duplicates(),
            forall|i: int| 0 <= i < old(walk)@.len() ==> self.driving_module@.contains_key(#[trigger] walk_view(old(walk)@)[i]),
            is_path_e(*self, cut, walk_view(old(walk)@)),
            old(walk)@.len() > 0 ==> edge(*self, cut, walk_view(old(walk)@).last(), signal@),
        ensures
            final(walk)@ == old(walk)@,
            wf_expr(final(expr)@),
            extends(old(expr)@, final(expr)@),
            final(map).wf(),
            memo_ok(final(map)@, final(expr)@.len()),
            memo_sound(*self, cut, final(map)@, final(expr)@),
            forall|t: Seq<char>| #[trigger] old(map)@.contains_key(t) ==> final(map)@.contains_key(t)
                && final(map)@[t] == old(map)@[t],
            r matches Ok(id) ==> denotes_top(*self, cut, final(expr)@, id as int, signal@),
            old(map)@ == Map::<Seq<char>, usize>::empty() ==> (r matches Ok(id) ==> id == final(expr)@.len() - 1),
            r matches Ok(id) ==> id < final(expr)@.len() && final(map)@.contains_key(signal@)
                && final(map)@[signal@] == id,
            good(*self, cut, signal@) ==> r is Ok,
            old(map)@.contains_key(signal@) ==> r == Ok::<usize, String>(old(map)@[signal@]),
            r is Ok && !old(map)@.contains_key(signal@) && !self.driving_module@.contains_key(
                signal@,
            ) ==> is_var_node(final(expr)@, r->Ok_0 as int, signal@),
            !old(map)@.contains_key(signal@) && !self.driving_module@.contains_key(signal@) ==> (r is Ok
                <==> signal_names(self.inputs@).contains(signal@)),
            !old(map)@.contains_key(signal@) && !self.driving_module@.contains_key(signal@)
                && !signal_names(self.inputs@).contains(signal@) ==> final(expr)@ == old(expr)@
                && final(map)@ == old(map)@,
            cut && !old(map)@.contains_key(signal@) && self.driving_module@.contains_key(signal@)
                && self.instances@[self.driving_module@[signal@] as int].prim@ == "FDRE"@
                && !walk_view(old(walk)@).contains(signal@) ==> (r
                is Ok && is_var_node(final(expr)@, r->Ok_0 as int, signal@)),
            r is Ok && !old(map)@.contains_key(signal@) && self.driving_module@.contains_key(signal@)
                && !(cut && self.instances@[self.driving_module@[signal@] as int].prim@ == "FDRE"@)
                ==> built(
                final(expr)@,
                r->Ok_0 as int,
                self.instances@[self.driving_module@[signal@] as int],
            ),
        decreases self.driving_module@.dom().len() - old(walk)@.len(), 0int,
    {
        if let Some(id) = map.get(signal) {
            assert(expr@.subrange(0, expr@.len() as int) =~= expr@);
            return Ok(*id);
        }
        let ghost w0 = walk_view(walk@);
        proof {
            self.lemma_walk_bound(w0);
        }
        let mut k: usize = 0;
        while k < walk.len()
            invariant
                k <= walk@.len(),
                walk@ == old(walk)@,
                w0 == walk_view(walk@),
                expr@ == old(expr)@,
                wf_expr(expr@),
                map.wf(),
                memo_ok(map@, expr@.len()),
                memo_sound(*self, cut, map@, expr@),
                forall|t: Seq<char>| #[trigger] old(map)@.contains_key(t) ==> map@.contains_key(t) && map@[t] == old(map)@[t],
                !map@.contains_key(signal@),
                map@ == old(map)@,
                forall|i: int| 0 <= i < walk@.len() ==> self.driving_module@.contains_key(#[trigger] walk_view(walk@)[i]),
                is_path_e(*self, cut, w0),
                walk@.len() > 0 ==> edge(*self, cut, w0.last(), signal@),
                forall|j: int| 0 <= j < k ==> walk@[j]@ != signal@,
            decreases walk@.len() - k,
        {
            if str_eq(walk[k], signal) {
                assert(expr@.subrange(0, expr@.len() as int) =~= expr@);
                assert(walk_view(walk@)[k as int] == signal@);
                assert(self.driving_module@.contains_key(signal@));
                assert(walk_view(old(walk)@).contains(signal@));
                proof {
                    let p = w0.subrange(k as int, w0.len() as int).push(signal@);
                    assert forall|i: int| 0 <= i < p.len() - 1 implies edge(*self, cut, #[trigger] p[i], p[i + 1]) by {
                        if i < p.len() - 2 {
                            assert(p[i] == w0[k + i]);
                            assert(p[i + 1] == w0[k + i + 1]);
                        } else {
                            assert(p[i] == w0.last());
                        }
                    }
                    assert(p.len() >= 2 && p[0] == signal@ && p.last() == signal@ && is_path_e(*self, cut, p));
                    lemma_reach_self(*self, cut, signal@);
                }
                let mut m = string_from("Feedback on signal ");
                push_str(&mut m, signal);
                return Err(m);
            }
            k = k + 1;
        }
        let prim = match self.get_driving_primitive(signal) {
            Ok(p) => p,
            Err(e) => {
                if self.is_an_input(signal) {
                    let id = add_node(expr, LutLang::Var(string_from(signal)));
                    map.insert(string_from(signal), id);
                    return Ok(id);
                } else {
                    assert(expr@.subrange(0, expr@.len() as int) =~= expr@);
                    proof {
                        lemma_reach_self(*self, cut, signal@);
                    }
                    return Err(e);
                }
            },
        };
        if cut && Self::is_reg_prim(prim.prim.as_str()) {
            let id = add_node(expr, LutLang::Var(string_from(signal)));
            map.insert(string_from(signal), id);
            return Ok(id);
        }
        walk.push(signal);
        let ghost w1 = walk_view(walk@);
        proof {
            assert(w1 =~= w0.push(signal@));
            assert forall|i: int, j: int| 0 <= i < j < w1.len() implies w1[i] != w1[j] by {
                if j == w1.len() - 1 {
                    assert(walk@[i]@ != signal@);
                }
            }
            self.lemma_walk_bound(w1);
            assert forall|i: int| 0 <= i < w1.len() - 1 implies edge(*self, cut, #[trigger] w1[i], w1[i + 1]) by {
                if i < w1.len() - 2 {
                    assert(w1[i] == w0[i] && w1[i + 1] == w0[i + 1]);
                }
            }
            if good(*self, cut, signal@) {
                lemma_reach_self(*self, cut, signal@);
            }
        }
        let ghost e0 = expr@;
        let res = self.build_driven(prim, expr, map, walk, cut);
        walk.pop();
        assert(walk@ =~= old(walk)@);
        match res {
            Ok(id) => {
                map.insert(string_from(signal), id);
                Ok(id)
            },
            Err(e) => Err(e),
        }
    }

    fn port_id(ports: &NameMap<usize>, port: &str, len: usize) -> (r: Result<usize, String>)
        requires
            ports.wf(),
            memo_ok(ports@, len as nat),
        ensures
            r matches Ok(id) ==> id < len,
            ports@.contains_key(port@) ==> r is Ok,
    {
        match ports.get(port) {
            Some(id) => Ok(*id),
            None => {
                let mut m = string_from("Expected port ");
                push_str(&mut m, port);
                push_str(&mut m, " to be driven");
                Err(m)
            },
        }
    }

    fn lut_port_name(x: usize) -> (r: String)
        ensures
            r@ == lut_port(x as nat),
    {
        let mut m = string_from("I");
        let d = write_digits(x as u64, 10);
        let ds = string_of(&d, 0, d.len());
        assert(d@.subrange(0, d@.len() as int) =~= d@);
        push_str(&mut m, ds.as_str());
        m
    }

    /// Builds the term of the output of `prim` into `expr`; `walk` ends with
    /// the signal that `prim` drives.
    #[verifier::rlimit(60)]
    fn build_driven<'a>(
        &'a self,
        prim: &'a SVPrimitive,
        expr: &mut Vec<LutLang>,
        map: &mut NameMap<usize>,
        walk: &mut Vec<&'a str>,
        cut: bool,
    ) -> (r: Result<usize, String>)
        requires
            self.wf(),
            prim.wf(),
            wf_expr(old(expr)@),
            old(map).wf(),
            memo_ok(old(map)@, old(expr)@.len()),
            memo_sound(*self, cut, old(map)@, old(expr)@),
            walk_view(old(walk)@).no_duplicates(),
            forall|i: int| 0 <= i < old(walk)@.len() ==> self.driving_module@.contains_key(#[trigger] walk_view(old(walk)@)[i]),
            is_path_e(*self, cut, walk_view(old(walk)@)),
            old(walk)@.len() > 0,
            *prim == self.instances@[self.driving_module@[walk_view(old(walk)@).last()] as int],
            !(cut && prim.prim@ == "FDRE"@),
        ensures
            final(walk)@ == old(walk)@,
            wf_expr(final(expr)@),
            extends(old(expr)@, final(expr)@),
            final(map).wf(),
            memo_ok(final(map)@, final(expr)@.len()),
            memo_sound(*self, cut, final(map)@, final(expr)@),
            forall|t: Seq<char>| #[trigger] old(map)@.contains_key(t) ==> final(map)@.contains_key(t)
                && final(map)@[t] == old(map)@[t],
            old(map)@ == Map::<Seq<char>, usize>::empty() ==> (r matches Ok(id) ==> id == final(expr)@.len() - 1),
            r matches Ok(id) ==> id < final(expr)@.len(),
            good(*self, cut, walk_view(old(walk)@).last()) ==> r is Ok,
            r matches Ok(id) ==> built(final(expr)@, id as int, *prim),
        decreases self.driving_module@.dom().len() - old(walk)@.len(), 1int,
    {
        proof {
            self.lemma_walk_bound(walk_view(walk@));
        }
        let ghost e0 = expr@;
        let ghost sig = walk_view(walk@).last();
        let ghost ok = good(*self, cut, sig);
        assert(self.driving_module@.contains_key(sig)) by {
            assert(sig == walk_view(walk@)[walk@.len() - 1]);
        }
        proof {
            if ok {
                lemma_good_prim(*self, cut, sig);
            }
        }
        assert(expr@.subrange(0, expr@.len() as int) =~= expr@);
        let ins = prim.inputs();
        let n = ins.len();
        if Self::is_gate_prim(prim.prim.as_str()) {
            let mut ports: NameMap<usize> = NameMap::new();
            let mut j: usize = 0;
            while j < n
                invariant
                    self.wf(),
                    j <= n,
                    ins.wf(),
                    n == ins.keys().len(),
                    wf_expr(expr@),
                    e0 == old(expr)@,
                    extends(e0, expr@),
                    map.wf(),
                    memo_ok(map@, expr@.len()),
                    memo_sound(*self, cut, map@, expr@),
                    forall|t: Seq<char>| #[trigger] old(map)@.contains_key(t) ==> map@.contains_key(t) && map@[t] == old(map)@[t],
                    ports.wf(),
                    memo_ok(ports@, expr@.len()),
                    forall|jj: int| 0 <= jj < j ==> ports@.contains_key(#[trigger] ins.keys()[jj]),
                    walk_view(walk@).last() == sig,
                    walk@.len() > 0,
                    self.driving_module@.contains_key(sig),
                    *prim == self.instances@[self.driving_module@[sig] as int],
                    !(cut && prim.prim@ == "FDRE"@),
                    is_path_e(*self, cut, walk_view(walk@)),
                    string_values(ins@) == prim.inputs_view(),
                    ok == good(*self, cut, sig),
                    ok ==> prim_ok(*prim),
                    walk@ == old(walk)@,
                    walk_view(walk@).no_duplicates(),
                    forall|i: int| 0 <= i < walk@.len() ==> self.driving_module@.contains_key(#[trigger] walk_view(walk@)[i]),
                    walk@.len() <= self.driving_module@.dom().len(),
                decreases n - j,
            {
                let ghost e1 = expr@;
                proof {
                    ins.lemma_index(j as int);
                    let k = ins.keys()[j as int];
                    lemma_input_edge(*self, cut, sig, k);
                    assert(ins@.contains_key(k));
                    assert(prim.inputs_view().contains_key(k));
                    assert(prim.inputs_view()[k] == ins@[k]@);
                    if ok {
                        lemma_good_step(*self, cut, sig, prim.inputs_view()[k]);
                    }
                }
                let res = self.get_expr(ins.value_at(j).as_str(), expr, map, walk, cut);
                proof {
                    lemma_extends_trans(e0, e1, expr@);
                    lemma_memo_grow(ports@, e1.len(), expr@.len());
                }
                let id = res?;
                let ghost p0 = ports@;
                ports.insert(ins.key_at(j).clone(), id);
                j = j + 1;
            }
            let len = expr.len();
            let ghost e2 = expr@;
            let node = if str_eq(prim.prim.as_str(), "AND2") {
                LutLang::And(Self::port_id(&ports, "A", len)?, Self::port_id(&ports, "B", len)?)
            } else if str_eq(prim.prim.as_str(), "NOR2") {
                LutLang::Nor(Self::port_id(&ports, "A", len)?, Self::port_id(&ports, "B", len)?)
            } else if str_eq(prim.prim.as_str(), "XOR2") {
                LutLang::Xor(Self::port_id(&ports, "A", len)?, Self::port_id(&ports, "B", len)?)
            } else if str_eq(prim.prim.as_str(), "MUX") {
                LutLang::Mux(
                    Self::port_id(&ports, "S", len)?,
                    Self::port_id(&ports, "A", len)?,
                    Self::port_id(&ports, "B", len)?,
                )
            } else if str_eq(prim.prim.as_str(), "NOT") {
                LutLang::Not(Self::port_id(&ports, "A", len)?)
            } else {
                LutLang::Not(Self::port_id(&ports, "I", len)?)
            };
            let id = add_node(expr, node);
            proof {
                lemma_extends_trans(e0, e2, expr@);
            }
            Ok(id)
        } else if Self::is_reg_prim(prim.prim.as_str()) {
            if n == 0 {
                return Err(string_from("The register has no data input"));
            }
            proof {
                ins.lemma_index(0);
                let k = ins.keys()[0];
                assert(ins@.contains_key(k));
                assert(prim.inputs_view().contains_key(k));
                lemma_input_edge(*self, cut, sig, k);
                assert(prim.inputs_view()[k] == ins@[k]@);
                if ok {
                    lemma_good_step(*self, cut, sig, prim.inputs_view()[k]);
                }
            }
            let d = self.get_expr(ins.value_at(0).as_str(), expr, map, walk, cut)?;
            let ghost e2 = expr@;
            let id = add_node(expr, LutLang::Reg(d));
            proof {
                lemma_extends_trans(e0, e2, expr@);
            }
            Ok(id)
        } else if Self::is_assign_prim(prim.prim.as_str()) {
            let val = match prim.attributes.get("VAL") {
                Some(v) => v,
                None => {
                    return Err(string_from("The assignment has no value"));
                },
            };
            if str_eq(prim.prim.as_str(), "CONST") {
                let id = add_node(expr, LutLang::Const(str_eq(val.as_str(), "1'b1")));
                Ok(id)
            } else {
                proof {
                    assert(prim.attributes_view().contains_key("VAL"@));
                    assert(prim.attributes_view()["VAL"@] == val@);
                    assert(edge(*self, cut, sig, val@));
                    if ok {
                        lemma_good_step(*self, cut, sig, val@);
                    }
                }
                self.get_expr(val.as_str(), expr, map, walk, cut)
            }
        } else {
            let init = match prim.attributes.get("INIT") {
                Some(v) => v,
                None => {
                    return Err(string_from("Only LUT and FDRE primitives are supported. INIT not found."));
                },
            };
            let program = init_parser(init.as_str())?;
            assert(prim.attributes_view()["INIT"@] == init@);
            assert(init_value(prim.attributes_view()["INIT"@]) == Some(program));
            let p = add_node(expr, LutLang::Program(program));
            let mut children: Vec<usize> = vec![p];
            assert(ok ==> forall|y: nat| y < prim.input_ports().len() ==> prim.inputs_view().contains_key(#[trigger] lut_port(y)));
            let mut x: usize = n;
            while x > 0
                invariant
                    p < expr@.len(),
                    expr@[p as int] == LutLang::Program(program),
                    children@.len() > 0,
                    children@[0] == p,
                    ok ==> forall|y: nat| y < prim.input_ports().len() ==> prim.inputs_view().contains_key(#[trigger] lut_port(y)),
                    ins.keys() == prim.input_ports(),
                    walk_view(walk@).last() == sig,
                    walk@.len() > 0,
                    self.driving_module@.contains_key(sig),
                    *prim == self.instances@[self.driving_module@[sig] as int],
                    !(cut && prim.prim@ == "FDRE"@),
                    is_path_e(*self, cut, walk_view(walk@)),
                    string_values(ins@) == prim.inputs_view(),
                    ok == good(*self, cut, sig),
                    ok ==> prim_ok(*prim),
                    n == ins.keys().len(),
                    self.wf(),
                    x <= n,
                    ins.wf(),
                    wf_expr(expr@),
                    e0 == old(expr)@,
                    extends(e0, expr@),
                    map.wf(),
                    memo_ok(map@, expr@.len()),
                    memo_sound(*self, cut, map@, expr@),
                    forall|t: Seq<char>| #[trigger] old(map)@.contains_key(t) ==> map@.contains_key(t) && map@[t] == old(map)@[t],
                    forall|j: int| 0 <= j < children@.len() ==> #[trigger] children@[j] < expr@.len(),
                    walk@ == old(walk)@,
                    walk_view(walk@).no_duplicates(),
                    forall|i: int| 0 <= i < walk@.len() ==> self.driving_module@.contains_key(#[trigger] walk_view(walk@)[i]),
                    walk@.len() <= self.driving_module@.dom().len(),
                decreases x,
            {
                x = x - 1;
                let port = Self::lut_port_name(x);
                proof {
                    if ok {
                        assert(prim.inputs_view().contains_key(lut_port(x as nat)));
                    }
                }
                let driver = match ins.get(port.as_str()) {
                    Some(d) => d,
                    None => {
                        let mut m = string_from("Expected ");
                        push_str(&mut m, port.as_str());
                        push_str(&mut m, " on LUT to be driven.");
                        return Err(m);
                    },
                };
                let ghost e1 = expr@;
                proof {
                    assert(ins@.contains_key(port@));
                    assert(prim.inputs_view().contains_key(port@));
                    lemma_input_edge(*self, cut, sig, port@);
                    assert(prim.inputs_view()[port@] == driver@);
                    if ok {
                        lemma_good_step(*self, cut, sig, driver@);
                    }
                }
                let res = self.get_expr(driver.as_str(), expr, map, walk, cut);
                proof {
                    lemma_extends_trans(e0, e1, expr@);
                    assert(expr@[p as int] == expr@.subrange(0, e1.len() as int)[p as int]);
                }
                let id = res?;
                children.push(id);
            }
            let ghost e2 = expr@;
            let id = add_node(expr, LutLang::Lut(children));
            proof {
                lemma_extends_trans(e0, e2, expr@);
            }
            Ok(id)
        }
    }

    fn feedback_error(s: &str) -> (r: String)
        ensures
            r@ == "Cannot convert module with feedback on signal "@ + s@,
    {
        let mut m = string_from("Cannot convert module with feedback on signal ");
        push_str(&mut m, s);
        m
    }

    /// One term for each output, in order, each named by its output; fails
    /// when an output depends on a cycle or a signal that is neither driven
    /// nor an input.
    pub fn get_exprs(&self) -> (r: Result<Vec<(String, Vec<LutLang>)>, String>)
        requires
            self.wf(),
        ensures
            has_feedback(*self) ==> r is Err,
            (forall|i: int| 0 <= i < self.outputs@.len() ==> good(*self, false, #[trigger] self.outputs@[i].name_spec()))
                ==> r is Ok,
            r matches Ok(v) ==> v@.len() == self.outputs@.len() && forall|i: int|
                0 <= i < v@.len() ==> (#[trigger] v@[i]).0@ == self.outputs@[i].name_spec()
                    && wf_expr(v@[i].1@) && v@[i].1@.len() > 0 && denotes_top(
                    *self,
                    false,
                    v@[i].1@,
                    v@[i].1@.len() - 1,
                    self.outputs@[i].name_spec(),
                ),
    {
        proof {
            if has_feedback(*self) {
                lemma_feedback_is_cycle(*self);
            }
        }
        if let Err(s) = self.contains_cycles() {
            return Err(Self::feedback_error(s));
        }
        let mut exprs: Vec<(String, Vec<LutLang>)> = Vec::new();
        let mut i: usize = 0;
        while i < self.outputs.len()
            invariant
                self.wf(),
                i <= self.outputs@.len(),
                exprs@.len() == i,
                forall|j: int|
                    0 <= j < i ==> (#[trigger] exprs@[j]).0@ == self.outputs@[j].name_spec()
                        && wf_expr(exprs@[j].1@) && exprs@[j].1@.len() > 0 && denotes_top(
                        *self,
                        false,
                        exprs@[j].1@,
                        exprs@[j].1@.len() - 1,
                        self.outputs@[j].name_spec(),
                    ),
            decreases self.outputs@.len() - i,
        {
            let mut expr: Vec<LutLang> = Vec::new();
            let mut map: NameMap<usize> = NameMap::new();
            let mut walk: Vec<&str> = Vec::new();
            proof {
                assert(walk_view(walk@) =~= Seq::<Seq<char>>::empty());
            }
            let name = self.outputs[i].get_name();
            proof {
                assert(memo_sound(*self, false, map@, expr@));
            }
            let id = self.get_expr(name, &mut expr, &mut map, &mut walk, false)?;
            exprs.push((string_from(name), expr));
            i = i + 1;
        }
        Ok(exprs)
    }

    /// One term for the whole module: the outputs share their common
    /// subterms, and a module of several outputs ends with a bus of them, in
    /// order.
    pub fn to_single_expr(&self) -> (r: Result<Vec<LutLang>, String>)
        requires
            self.wf(),
        ensures
            has_feedback(*self) ==> r is Err,
            (forall|i: int| 0 <= i < self.outputs@.len() ==> good(*self, false, #[trigger] self.outputs@[i].name_spec()))
                ==> r is Ok,
            r matches Ok(e) ==> wf_expr(e@) && (self.outputs@.len() > 1 ==> e@.last() is Bus
                && e@.last().children().len() == self.outputs@.len()),
            r matches Ok(e) ==> (self.outputs@.len() > 0 ==> e@.len() > 0) && (self.outputs@.len() == 1
                ==> denotes_top(*self, false, e@, e@.len() - 1, self.outputs@[0].name_spec())) && (
            self.outputs@.len() > 1 ==> forall|i: int|
                0 <= i < self.outputs@.len() ==> denotes_top(
                    *self,
                    false,
                    e@,
                    #[trigger] e@.last().children()[i] as int,
                    self.outputs@[i].name_spec(),
                )),
    {
        proof {
            if has_feedback(*self) {
                lemma_feedback_is_cycle(*self);
            }
        }
        if let Err(s) = self.contains_cycles() {
            return Err(Self::feedback_error(s));
        }
        let mut expr: Vec<LutLang> = Vec::new();
        let mut map: NameMap<usize> = NameMap::new();
        let mut outputs: Vec<usize> = Vec::new();
        let mut i: usize = 0;
        while i < self.outputs.len()
            invariant
                self.wf(),
                i <= self.outputs@.len(),
                wf_expr(expr@),
                map.wf(),
                memo_ok(map@, expr@.len()),
                memo_sound(*self, false, map@, expr@),
                outputs@.len() == i,
                forall|j: int| 0 <= j < i ==> #[trigger] outputs@[j] < expr@.len(),
                forall|j: int| 0 <= j < i ==> denotes_top(*self, false, expr@, #[trigger] outputs@[j] as int, self.outputs@[j].name_spec()),
                i == 0 ==> map@ == Map::<Seq<char>, usize>::empty(),
                i == 1 ==> outputs@[0] == expr@.len() - 1,
                i > 0 ==> expr@.len() > 0,
            decreases self.outputs@.len() - i,
        {
            let mut walk: Vec<&str> = Vec::new();
            proof {
                assert(walk_view(walk@) =~= Seq::<Seq<char>>::empty());
            }
            let ghost e0 = expr@;
            let id = self.get_expr(self.outputs[i].get_name(), &mut expr, &mut map, &mut walk, false)?;
            proof {
                assert forall|j: int| 0 <= j < i implies denotes_top(*self, false, expr@, #[trigger] outputs@[j] as int, self.outputs@[j].name_spec()) by {
                    lemma_denotes_extend(*self, false, e0, expr@, outputs@[j] as int, self.outputs@[j].name_spec());
                }
            }
            outputs.push(id);
            i = i + 1;
        }
        if outputs.len() > 1 {
            let n = outputs.len();
            let ghost e0 = expr@;
            let ghost ov = outputs@;
            add_node(&mut expr, LutLang::Bus(outputs));
            assert(expr@.last().children().len() == n);
            proof {
                assert(expr@.last().children() == ov);
                assert forall|j: int| 0 <= j < n implies denotes_top(*self, false, expr@, #[trigger] expr@.last().children()[j] as int, self.outputs@[j].name_spec()) by {
                    lemma_denotes_extend(*self, false, e0, expr@, ov[j] as int, self.outputs@[j].name_spec());
                }
            }
        }
        Ok(expr)
    }

    /// The term of a module of exactly one output.
    pub fn to_expr(&self) -> (r: Result<Vec<LutLang>, String>)
        requires
            self.wf(),
        ensures
            has_feedback(*self) ==> r is Err,
            self.outputs@.len() != 1 ==> r is Err,
            self.outputs@.len() == 1 && good(*self, false, self.outputs@[0].name_spec()) ==> r is Ok,
            r matches Ok(e) ==> wf_expr(e@) && e@.len() > 0 && denotes_top(
                *self,
                false,
                e@,
                e@.len() - 1,
                self.outputs@[0].name_spec(),
            ),
            has_feedback(*self) ==> (r matches Err(m) && exists|s: Seq<char>|
                on_cycle(*self, s) && m@ == "Cannot convert module with feedback on signal "@ + s),
    {
        proof {
            if has_feedback(*self) {
                lemma_feedback_is_cycle(*self);
            }
        }
        if let Err(s) = self.contains_cycles() {
            return Err(Self::feedback_error(s));
        }
        if self.outputs.len() != 1 {
            let mut m = match &self.fname {
                Some(f) => f.clone(),
                None => String::new(),
            };
            push_str(&mut m, ": Expected exactly one output in module ");
            push_str(&mut m, self.name.as_str());
            push_str(&mut m, ".");
            return Err(m);
        }
        let mut exprs = self.get_exprs()?;
        match exprs.pop() {
            Some((_, e)) => Ok(e),
            None => Err(string_from("Expected exactly one output")),
        }
    }

    /// Adds instance `inst` as the driver of `signal`.
    fn push_driver(&mut self, signal: String, inst: SVPrimitive)
        requires
            old(self).wf(),
            inst.wf(),
            old(self).instances@.len() < usize::MAX,
        ensures
            final(self).wf(),
            final(self).instances@ == old(self).instances@.push(inst),
            final(self).driving_module@ == old(self).driving_module@.insert(
                signal@,
                old(self).instances@.len() as usize,
            ),
            final(self).inputs == old(self).inputs,
            final(self).outputs == old(self).outputs,
            final(self).signals == old(self).signals,
            final(self).name == old(self).name,
            final(self).fname == old(self).fname,
            final(self).clk == old(self).clk,
    {
        let idx = self.instances.len();
        self.driving_module.insert(signal, idx);
        self.instances.push(inst);
        assert forall|i: int| 0 <= i < self.instances@.len() implies #[trigger] self.instances@[i].wf() by {
            if i < idx {
                assert(self.instances@[i] == old(self).instances@[i]);
            }
        }
    }

    /// Names the output driven by node `id` `name`: the node takes the name
    /// when it has none yet, otherwise a wire from its name drives `name`.
    pub fn name_output(&mut self, id: usize, name: String, mapping: &mut Vec<Option<String>>)
        requires
            old(self).wf(),
            id < old(mapping)@.len(),
            old(self).instances@.len() < usize::MAX,
        ensures
            final(self).wf(),
            final(self).outputs@.len() == old(self).outputs@.len() + 1,
            final(self).instances@.len() <= old(self).instances@.len() + 1,
            final(self).outputs@.last().name_spec() == name@,
            final(self).outputs@.last().bw_spec() == 1,
            final(self).outputs@.subrange(0, old(self).outputs@.len() as int) == old(self).outputs@,
            final(self).inputs == old(self).inputs,
            final(self).name == old(self).name,
            final(self).clk == old(self).clk,
            final(mapping)@.len() == old(mapping)@.len(),
            final(mapping)@[id as int] is Some,
            forall|j: int| 0 <= j < old(mapping)@.len() && j != id ==> final(mapping)@[j] == old(mapping)@[j],
            old(mapping)@[id as int] is Some ==> final(mapping)@ == old(mapping)@,
            old(mapping)@[id as int] is None ==> (final(mapping)@[id as int] matches Some(n) && n@ == name@),
            old(mapping)@[id as int] is None ==> final(self).instances == old(self).instances
                && final(self).driving_module == old(self).driving_module,
            old(mapping)@[id as int] matches Some(d) ==> final(self).instances@.len()
                == old(self).instances@.len() + 1 && final(self).instances@.last().prim@ == "WIRE"@
                && final(self).instances@.drop_last() == old(self).instances@
                && final(self).instances@.last().attributes_view() == map!["VAL"@ => d@]
                && final(self).instances@.last().outputs_view() == map![name@ => "Y"@]
                && final(self).driving_module@ == old(self).driving_module@.insert(
                name@,
                old(self).instances@.len() as usize,
            ),
    {
        let len0 = self.outputs.len();
        match &mapping[id] {
            Some(driver) => {
                let driver = driver.clone();
                let mut wname = name.clone();
                push_str(&mut wname, "_wire_");
                push_str(&mut wname, driver.as_str());
                let wire = SVPrimitive::new_wire(driver, name.clone(), wname);
                self.push_driver(name.clone(), wire);
                self.signals.push(SVSignal::new(1, name.clone()));
            },
            None => {
                mapping.set(id, Some(name.clone()));
            },
        }
        self.outputs.push(SVSignal::new(1, name));
        assert(self.outputs@.subrange(0, len0 as int) =~= old(self).outputs@);
    }
}

/// Instance `p` is what node `c` of `e` becomes: `LUT<k>` for a LUT of `k`
/// inputs, with `INIT` holding the program of the node's first child; the
/// gate of the same operator; a register; or a constant of the same value.
pub open spec fn cell_instance_of(e: Seq<LutLang>, c: int, p: SVPrimitive) -> bool {
    match e[c] {
        LutLang::Lut(l) => l@.len() >= 2 && 0 <= l@[0] < e.len() && match e[l@[0] as int] {
            LutLang::Program(prog) => p.prim@ == "LUT"@ + digits_of((l@.len() - 1) as nat, 10)
                && p.attributes_view() == map!["INIT"@ => init_literal(prog, (l@.len() - 1) as nat)],
            _ => false,
        },
        LutLang::And(..) => p.prim@ == "AND2"@,
        LutLang::Nor(..) => p.prim@ == "NOR2"@,
        LutLang::Xor(..) => p.prim@ == "XOR2"@,
        LutLang::Mux(..) => p.prim@ == "MUX"@,
        LutLang::Not(..) => p.prim@ == "NOT"@,
        LutLang::Reg(..) => p.prim@ == "FDRE"@,
        LutLang::Const(b) => p.prim@ == "CONST"@ && p.attributes_view() == map!["VAL"@ => if b {
            "1'b1"@
        } else {
            "1'b0"@
        }],
        _ => true,
    }
}

/// The node becomes an instance of its own.
pub open spec fn makes_cell(n: LutLang) -> bool {
    n is Lut || n is And || n is Nor || n is Xor || n is Mux || n is Not || n is Reg || n is Const
}

/// Every node of `e` before `n` that becomes an instance has it among
/// `insts`.
pub open spec fn cells_placed(e: Seq<LutLang>, n: int, insts: Seq<SVPrimitive>) -> bool {
    forall|c: int|
        0 <= c < n && makes_cell(#[trigger] e[c]) ==> exists|k: int| 0 <= k < insts.len() && cell_instance_of(e, c, insts[k])
}

/// The number of instances that are `k`-input LUTs.
pub open spec fn lut_prim_count(insts: Seq<SVPrimitive>, k: nat) -> nat
    decreases insts.len(),
{
    if insts.len() == 0 {
        0
    } else {
        lut_prim_count(insts.drop_last(), k) + if insts.last().prim@ == "LUT"@ + digits_of(k, 10) {
            1nat
        } else {
            0nat
        }
    }
}

proof fn lemma_lut_prim_push(insts: Seq<SVPrimitive>, x: SVPrimitive, k: nat)
    ensures
        lut_prim_count(insts.push(x), k) == lut_prim_count(insts, k) + if x.prim@ == "LUT"@ + digits_of(k, 10) {
            1nat
        } else {
            0nat
        },
{
    assert(insts.push(x).drop_last() =~= insts);
}

proof fn lemma_single_digit(k: nat)
    requires
        k < 10,
    ensures
        digits_of(k, 10) == seq![crate::literal::digit_char(k)],
{
}

/// The name of a gate, register, constant or wire is not the name of a LUT.
proof fn lemma_not_lut_name(p: Seq<char>, k: nat)
    requires
        k < 10,
        p == "WIRE"@ || p == "FDRE"@ || p == "CONST"@ || p == "AND2"@ || p == "NOR2"@ || p == "XOR2"@
            || p == "NOT"@ || p == "MUX"@,
    ensures
        p != "LUT"@ + digits_of(k, 10),
{
    reveal_strlit("WIRE");
    reveal_strlit("FDRE");
    reveal_strlit("CONST");
    reveal_strlit("AND2");
    reveal_strlit("NOR2");
    reveal_strlit("XOR2");
    reveal_strlit("NOT");
    reveal_strlit("MUX");
    reveal_strlit("LUT");
    assert(("LUT"@ + digits_of(k, 10))[0] == 'L');
}

/// LUT names of one digit differ exactly when their sizes do.
proof fn lemma_lut_name_eq(a: nat, b: nat)
    requires
        a < 10,
        b < 10,
    ensures
        ("LUT"@ + digits_of(a, 10) == "LUT"@ + digits_of(b, 10)) <==> a == b,
{
    reveal_strlit("LUT");
    lemma_single_digit(a);
    lemma_single_digit(b);
    if "LUT"@ + digits_of(a, 10) == "LUT"@ + digits_of(b, 10) {
        assert(("LUT"@ + digits_of(a, 10))[3] == crate::literal::digit_char(a));
        assert(("LUT"@ + digits_of(b, 10))[3] == crate::literal::digit_char(b));
    }
}

fn numbered(prefix: &str, n: usize, suffix: &str) -> (r: String)
    ensures
        r@ == prefix@ + digits_of(n as nat, 10) + suffix@,
{
    let mut m = string_from(prefix);
    let d = write_digits(n as u64, 10);
    let ds = string_of(&d, 0, d.len());
    assert(d@.subrange(0, d@.len() as int) =~= d@);
    push_str(&mut m, ds.as_str());
    push_str(&mut m, suffix);
    m
}

/// The name of output `i`: the `i`-th of `names`, or else `y<i>` for the
/// outputs of a bus and `y` for a lone root.
pub open spec fn output_name(names: Seq<String>, i: int, bus: bool) -> Seq<char> {
    if i < names.len() {
        names[i]@
    } else if bus {
        "y"@ + digits_of(i as nat, 10)
    } else {
        "y"@
    }
}

fn count_assigned(mapping: &Vec<Option<String>>) -> (r: usize)
    ensures
        r <= mapping@.len(),
{
    let mut n: usize = 0;
    let mut i: usize = 0;
    while i < mapping.len()
        invariant
            i <= mapping@.len(),
            n <= i,
        decreases mapping@.len() - i,
    {
        if mapping[i].is_some() {
            n = n + 1;
        }
        i = i + 1;
    }
    n
}

/// The signal of node `id`, naming it `tmp<n>` when it has none yet, `n`
/// being the number of nodes named so far.
fn fresh_wire(id: usize, mapping: &mut Vec<Option<String>>) -> (r: String)
    requires
        id < old(mapping)@.len(),
    ensures
        final(mapping)@.len() == old(mapping)@.len(),
        final(mapping)@[id as int] matches Some(s) && s@ == r@,
        forall|j: int| 0 <= j < old(mapping)@.len() && j != id ==> final(mapping)@[j] == old(mapping)@[j],
{
    match &mapping[id] {
        Some(s) => s.clone(),
        None => {
            let n = count_assigned(mapping);
            let s = numbered("tmp", n, "");
            mapping.set(id, Some(s.clone()));
            s
        },
    }
}

/// The signal of child `c`.
fn signal_of(c: usize, mapping: &Vec<Option<String>>) -> (r: Result<String, String>)
    ensures
        c < mapping@.len() && mapping@[c as int] is Some ==> r is Ok,
{
    if c >= mapping.len() {
        return Err(string_from("A child refers to a node that does not exist"));
    }
    match &mapping[c] {
        Some(s) => Ok(s.clone()),
        None => Err(string_from("A child refers to a node without a signal")),
    }
}

/// An input name that the netlist can hold: no line break, comma or
/// semicolon, and none of the reserved words `tmp`, `clk` and `input`.
pub open spec fn name_ok(s: Seq<char>) -> bool {
    find(s, "\n"@) is None && find(s, ","@) is None && find(s, ";"@) is None && find(s, "tmp"@)
        is None && find(s, "clk"@) is None && find(s, "input"@) is None
}

/// The node becomes a signal of the netlist.
pub open spec fn makes_signal(n: LutLang) -> bool {
    n is Var || n is Reg || n is Lut || n is And || n is Xor || n is Nor || n is Not || n is Mux
        || n is Const
}

/// Node `c` comes before node `i` and becomes a signal.
pub open spec fn has_signal(e: Seq<LutLang>, i: int, c: int) -> bool {
    0 <= c < i && makes_signal(e[c])
}

/// Node `i` of `e` can be turned into netlist primitives.
pub open spec fn node_ok(e: Seq<LutLang>, i: int) -> bool {
    match e[i] {
        LutLang::Var(s) => name_ok(s@),
        LutLang::Program(_) | LutLang::Const(_) => true,
        LutLang::Reg(d) => has_signal(e, i, d as int),
        LutLang::Lut(l) => 2 <= l@.len() <= 7 && l@[0] < i && e[l@[0] as int] is Program && forall|j: int|
            1 <= j < l@.len() ==> has_signal(e, i, #[trigger] l@[j] as int),
        LutLang::Bus(l) => i == e.len() - 1 && forall|j: int| 0 <= j < l@.len() ==> #[trigger] l@[j] < e.len(),
        LutLang::And(a, b) | LutLang::Xor(a, b) | LutLang::Nor(a, b) => has_signal(e, i, a as int)
            && has_signal(e, i, b as int),
        LutLang::Not(a) => has_signal(e, i, a as int),
        LutLang::Mux(c, a, b) => has_signal(e, i, c as int) && has_signal(e, i, a as int) && has_signal(
            e,
            i,
            b as int,
        ),
        _ => false,
    }
}

/// A term that can be turned into a netlist: non-empty, and every node
/// convertible (inputs with acceptable names, LUTs with a program first and
/// at most six inputs, a bus only at the root, no placeholder nodes).
pub open spec fn term_ok(e: Seq<LutLang>) -> bool {
    e.len() > 0 && forall|i: int| 0 <= i < e.len() ==> node_ok(e, i)
}

fn makes_signal_at(expr: &Vec<LutLang>, i: usize, c: usize) -> (r: bool)
    requires
        i < expr@.len(),
    ensures
        r == has_signal(expr@, i as int, c as int),
{
    if c >= i {
        return false;
    }
    match &expr[c] {
        LutLang::Var(_) | LutLang::Reg(_) | LutLang::Lut(_) | LutLang::And(..) | LutLang::Xor(..)
        | LutLang::Nor(..) | LutLang::Not(_) | LutLang::Mux(..) | LutLang::Const(_) => true,
        _ => false,
    }
}

fn node_ok_at(expr: &Vec<LutLang>, i: usize) -> (r: bool)
    requires
        i < expr@.len(),
    ensures
        r == node_ok(expr@, i as int),
{
    match &expr[i] {
        LutLang::Var(s) => SVModule::check_input_name(s.as_str()).is_ok(),
        LutLang::Program(_) | LutLang::Const(_) => true,
        LutLang::Reg(d) => makes_signal_at(expr, i, *d),
        LutLang::Lut(l) => {
            if l.len() < 2 || l.len() > 7 || l[0] >= i {
                return false;
            }
            if !matches!(expr[l[0]], LutLang::Program(_)) {
                return false;
            }
            let mut j: usize = 1;
            while j < l.len()
                invariant
                    1 <= j <= l@.len(),
                    i < expr@.len(),
                    expr@[i as int] == LutLang::Lut(*l),
                    forall|m: int| 1 <= m < j ==> has_signal(expr@, i as int, #[trigger] l@[m] as int),
                decreases l@.len() - j,
            {
                if !makes_signal_at(expr, i, l[j]) {
                    return false;
                }
                j = j + 1;
            }
            true
        },
        LutLang::Bus(l) => {
            if i != expr.len() - 1 {
                return false;
            }
            let mut j: usize = 0;
            while j < l.len()
                invariant
                    j <= l@.len(),
                    i == expr@.len() - 1,
                    expr@[i as int] == LutLang::Bus(*l),
                    forall|m: int| 0 <= m < j ==> #[trigger] l@[m] < expr@.len(),
                decreases l@.len() - j,
            {
                if l[j] >= expr.len() {
                    proof {
                        let ll = l@;
                        assert(!(ll[j as int] < expr@.len()));
                        assert(!(forall|m: int| 0 <= m < ll.len() ==> #[trigger] ll[m] < expr@.len()));
                        match expr@[i as int] {
                            LutLang::Bus(l2) => {
                                assert(l2@ == ll);
                            },
                            _ => {},
                        }
                        assert(!node_ok(expr@, i as int));
                    }
                    return false;
                }
                j = j + 1;
            }
            true
        },
        LutLang::And(a, b) | LutLang::Xor(a, b) | LutLang::Nor(a, b) => makes_signal_at(expr, i, *a)
            && makes_signal_at(expr, i, *b),
        LutLang::Not(a) => makes_signal_at(expr, i, *a),
        LutLang::Mux(c, a, b) => makes_signal_at(expr, i, *c) && makes_signal_at(expr, i, *a)
            && makes_signal_at(expr, i, *b),
        _ => false,
    }
}

fn check_term(expr: &Vec<LutLang>) -> (r: bool)
    ensures
        r == term_ok(expr@),
{
    if expr.len() == 0 {
        return false;
    }
    let mut i: usize = 0;
    while i < expr.len()
        invariant
            i <= expr@.len(),
            forall|m: int| 0 <= m < i ==> node_ok(expr@, m),
        decreases expr@.len() - i,
    {
        if !node_ok_at(expr, i) {
            return false;
        }
        i = i + 1;
    }
    true
}

impl SVModule {
    fn prim_counted(count: &mut usize) -> (r: Result<String, String>)
        ensures
            r is Ok ==> *final(count) == *old(count) + 1,
            r is Err ==> *final(count) == *old(count),
            *old(count) < usize::MAX ==> r is Ok,
    {
        if *count == usize::MAX {
            return Err(string_from("Too many primitives"));
        }
        let s = numbered("__", *count, "__");
        *count = *count + 1;
        Ok(s)
    }

    /// Checks that an input name can stand in the netlist.
    fn check_input_name(s: &str) -> (r: Result<(), String>)
        ensures
            r is Ok <==> name_ok(s@),
    {
        if contains_str(s, "\n") || contains_str(s, ",") || contains_str(s, ";") {
            return Err(string_from("Input cannot span multiple lines or contain delimiters"));
        }
        if contains_str(s, "tmp") {
            return Err(string_from("'tmp' is a reserved keyword"));
        }
        if contains_str(s, "clk") {
            return Err(string_from("'clk' is a reserved keyword"));
        }
        if contains_str(s, "input") {
            return Err(string_from("'input' is a reserved keyword"));
        }
        Ok(())
    }

    /// Builds a module called `mod_name` out of a term. The outputs are the
    /// children of a root bus, or else the root; they take the names in
    /// `outputs`, in order, and `y0`, `y1`, ... (or `y` for a lone root)
    /// beyond them.
    pub fn from_expr(expr: Vec<LutLang>, mod_name: String, outputs: Vec<String>) -> (r: Result<SVModule, String>)
        ensures
            r is Ok ==> term_ok(expr@),
            term_ok(expr@) && expr@.len() + expr@.last().children().len() + 2 < usize::MAX ==> r is Ok,
            r matches Ok(m) ==> forall|k: nat|
                k < 10 ==> #[trigger] lut_prim_count(m.instances@, k) == lut_count_k(expr@, k),
            r matches Ok(m) ==> cells_placed(expr@, expr@.len() as int, m.instances@),
            r matches Ok(m) ==> m.wf() && m.name == mod_name && expr@.len() > 0 && (
            expr@.last() is Bus ==> m.outputs@.len() == expr@.last().children().len()) && (!(
            expr@.last() is Bus) ==> m.outputs@.len() == 1) && forall|i: int|
                0 <= i < m.outputs@.len() ==> #[trigger] m.outputs@[i].name_spec() == output_name(
                    outputs@,
                    i,
                    expr@.last() is Bus,
                ),
    {
        if !check_term(&expr) {
            return Err(string_from("The expression cannot be turned into a netlist"));
        }
        let size = expr.len();
        let ghost small = expr@.len() + expr@.last().children().len() + 2 < usize::MAX;
        let mut module = SVModule::new(mod_name);
        let mut mapping: Vec<Option<String>> = Vec::new();
        let mut programs: Vec<Option<u64>> = Vec::new();
        while mapping.len() < size
            invariant
                mapping@.len() == programs@.len(),
                mapping@.len() <= size,
            decreases size - mapping@.len(),
        {
            mapping.push(None);
            programs.push(None);
        }
        let mut prim_count: usize = 0;
        assert(module.instances@.len() == 0);
        match &expr[size - 1] {
            LutLang::Bus(l) => {
                let mut i: usize = 0;
                while i < l.len()
                    invariant
                        module.wf(),
                        module.name == mod_name,
                        i <= l@.len(),
                        module.outputs@.len() == i,
                        module.instances@.len() <= i,
                        mapping@.len() == size,
                        size == expr@.len(),
                        term_ok(expr@),
                        expr@.last() == LutLang::Bus(*l),
                        forall|j: int| 0 <= j < i ==> #[trigger] module.outputs@[j].name_spec() == output_name(outputs@, j, true),
                        forall|k: nat| k < 10 ==> #[trigger] lut_prim_count(module.instances@, k) == 0,
                    decreases l@.len() - i,
                {
                    let t = l[i];
                    proof {
                        assert(node_ok(expr@, size - 1));
                        match expr@[size - 1] {
                            LutLang::Bus(l2) => {
                                assert(l2@ == l@);
                            },
                            _ => {},
                        }
                        assert(l@[i as int] < expr@.len());
                    }
                    let name = if i < outputs.len() {
                        outputs[i].clone()
                    } else {
                        numbered("y", i, "")
                    };
                    assert(name@ == output_name(outputs@, i as int, true)) by {
                        reveal_strlit("");
                        if i >= outputs@.len() {
                            assert(name@ =~= "y"@ + digits_of(i as nat, 10));
                        }
                    }
                    let ghost before = module.outputs@;
                    let ghost ib = module.instances@;
                    module.name_output(t, name, &mut mapping);
                    proof {
                        assert forall|k: nat| k < 10 implies #[trigger] lut_prim_count(module.instances@, k) == 0 by {
                            if module.instances@.len() != ib.len() {
                                assert(module.instances@ =~= ib.push(module.instances@.last()));
                                lemma_lut_prim_push(ib, module.instances@.last(), k);
                                lemma_not_lut_name(module.instances@.last().prim@, k);
                            }
                        }
                    }
                    proof {
                        assert forall|j: int| 0 <= j < i + 1 implies #[trigger] module.outputs@[j].name_spec() == output_name(outputs@, j, true) by {
                            if j < i {
                                assert(module.outputs@[j] == module.outputs@.subrange(0, before.len() as int)[j]);
                            }
                        }
                    }
                    i = i + 1;
                }
            },
            _ => {
                let name = if outputs.len() > 0 {
                    outputs[0].clone()
                } else {
                    string_from("y")
                };
                let ghost ib = module.instances@;
                module.name_output(size - 1, name, &mut mapping);
                assert(module.outputs@[0].name_spec() == output_name(outputs@, 0, false));
                proof {
                    assert forall|k: nat| k < 10 implies #[trigger] lut_prim_count(module.instances@, k) == 0 by {
                        if module.instances@.len() != ib.len() {
                            assert(module.instances@ =~= ib.push(module.instances@.last()));
                            lemma_lut_prim_push(ib, module.instances@.last(), k);
                            lemma_not_lut_name(module.instances@.last().prim@, k);
                        }
                    }
                }
            },
        }
        let ghost n_out = module.outputs@.len();
        let ghost outs0 = module.outputs@;
        assert(expr@.subrange(0, 0) =~= Seq::<LutLang>::empty());
        assert(n_out == expr@.last().children().len() || n_out == 1);
        let mut id: usize = 0;
        while id < size
            invariant
                module.wf(),
                module.name == mod_name,
                module.outputs@.len() == n_out,
                module.outputs@ == outs0,
                mapping@.len() == size,
                programs@.len() == size,
                size == expr@.len(),
                term_ok(expr@),
                id <= size,
                prim_count <= id,
                module.instances@.len() <= n_out + id,
                n_out == expr@.last().children().len() || n_out == 1,
                small == (expr@.len() + expr@.last().children().len() + 2 < usize::MAX),
                forall|c: int| 0 <= c < id && makes_signal(#[trigger] expr@[c]) ==> mapping@[c] is Some,
                forall|c: int| 0 <= c < id ==> (#[trigger] expr@[c] matches LutLang::Program(p) ==> programs@[c] == Some(p)),
                forall|k: nat| k < 10 ==> #[trigger] lut_prim_count(module.instances@, k) == lut_count_k(expr@.subrange(0, id as int), k),
                cells_placed(expr@, id as int, module.instances@),
            decreases size - id,
        {
            if module.instances.len() >= usize::MAX - 1 {
                return Err(string_from("The module is too large"));
            }
            proof {
                assert(node_ok(expr@, id as int));
            }
            let ghost map0 = mapping@;
            let ghost insts0 = module.instances@;
            let ghost mut pushed = false;
            let ghost mut px: SVPrimitive = arbitrary();
            let ghost progs0 = programs@;
            match &expr[id] {
                LutLang::Var(s) => {
                    Self::check_input_name(s.as_str())?;
                    let signal = SVSignal::new(1, s.clone());
                    module.signals.push(signal.clone());
                    module.inputs.push(signal);
                    match &mapping[id] {
                        Some(output) => {
                            let output = output.clone();
                            let pname = Self::prim_counted(&mut prim_count)?;
                            let wire = SVPrimitive::new_wire(s.clone(), output.clone(), pname);
                            proof {
                                pushed = true;
                                px = wire;
                            }
                            module.push_driver(output.clone(), wire);
                            assert(module.instances@ == insts0.push(px));
                            assert(px.prim@ == "WIRE"@ || px.prim@ == "FDRE"@ || px.prim@ == "CONST"@ || px.prim@ == "AND2"@ || px.prim@ == "NOR2"@ || px.prim@ == "XOR2"@ || px.prim@ == "NOT"@ || px.prim@ == "MUX"@);
                            module.signals.push(SVSignal::new(1, output));
                        },
                        None => {},
                    }
                    mapping.set(id, Some(s.clone()));
                },
                LutLang::Program(p) => {
                    programs.set(id, Some(*p));
                },
                LutLang::Reg(d) => {
                    let sname = fresh_wire(id, &mut mapping);
                    let pname = Self::prim_counted(&mut prim_count)?;
                    let mut inst = SVPrimitive::new_reg(pname);
                    inst.inputs.insert(string_from("D"), signal_of(*d, &mapping)?);
                    inst.add_output(string_from("Q"), sname.clone())?;
                    module.signals.push(SVSignal::new(1, sname.clone()));
                    proof {
                        pushed = true;
                        px = inst;
                    }
                    module.push_driver(sname, inst);
                    assert(module.instances@ == insts0.push(px));
                    assert(px.prim@ == "WIRE"@ || px.prim@ == "FDRE"@ || px.prim@ == "CONST"@ || px.prim@ == "AND2"@ || px.prim@ == "NOR2"@ || px.prim@ == "XOR2"@ || px.prim@ == "NOT"@ || px.prim@ == "MUX"@);
                    module.add_clk();
                },
                LutLang::Lut(l) => {
                    if l.len() < 2 || l.len() > 7 || l[0] >= size {
                        return Err(string_from("A LUT must have a program and between 1 and 6 inputs"));
                    }
                    let program = match programs[l[0]] {
                        Some(p) => p,
                        None => {
                            return Err(string_from("The first child of a LUT must be its program"));
                        },
                    };
                    let sname = fresh_wire(id, &mut mapping);
                    let pname = Self::prim_counted(&mut prim_count)?;
                    let mut inst = SVPrimitive::new_lut(l.len() - 1, pname, program);
                    let mut i: usize = 0;
                    let k = l.len() - 1;
                    while i < k
                        invariant
                            inst.wf(),
                            inst.outputs_view() == Map::<Seq<char>, Seq<char>>::empty(),
                            inst.prim@ == "LUT"@ + digits_of(k as nat, 10),
                            inst.attributes_view() == map!["INIT"@ => init_literal(program, k as nat)],
                            i <= k,
                            k + 1 == l@.len(),
                            id < size,
                            mapping@.len() == size,
                            expr@[id as int] == LutLang::Lut(*l),
                            node_ok(expr@, id as int),
                            forall|c: int| 0 <= c < id && makes_signal(#[trigger] expr@[c]) ==> mapping@[c] is Some,
                        decreases k - i,
                    {
                        let c = l[k - i];
                        proof {
                            assert(has_signal(expr@, id as int, l@[(k - i) as int] as int));
                        }
                        inst.inputs.insert(numbered("I", i, ""), signal_of(c, &mapping)?);
                        i = i + 1;
                    }
                    inst.add_output(string_from("O"), sname.clone())?;
                    module.signals.push(SVSignal::new(1, sname.clone()));
                    proof {
                        pushed = true;
                        px = inst;
                    }
                    module.push_driver(sname, inst);
                    assert(module.instances@ == insts0.push(px));
                    assert(px.prim@ == "LUT"@ + digits_of((l@.len() - 1) as nat, 10));
                },
                LutLang::Bus(_) => {
                    if id != size - 1 {
                        return Err(string_from("Busses should be the root of the expression"));
                    }
                },
                LutLang::And(a, b) | LutLang::Xor(a, b) | LutLang::Nor(a, b) => {
                    let gate = match expr[id].get_prim_name() {
                        Some(g) => g,
                        None => {
                            return Err(string_from("Unsupported gate"));
                        },
                    };
                    let sname = fresh_wire(id, &mut mapping);
                    let pname = Self::prim_counted(&mut prim_count)?;
                    let mut inst = SVPrimitive::new_gate(gate, pname);
                    inst.inputs.insert(string_from("A"), signal_of(*a, &mapping)?);
                    inst.inputs.insert(string_from("B"), signal_of(*b, &mapping)?);
                    inst.add_output(string_from("Y"), sname.clone())?;
                    module.signals.push(SVSignal::new(1, sname.clone()));
                    proof {
                        pushed = true;
                        px = inst;
                    }
                    module.push_driver(sname, inst);
                    assert(module.instances@ == insts0.push(px));
                    assert(px.prim@ == "WIRE"@ || px.prim@ == "FDRE"@ || px.prim@ == "CONST"@ || px.prim@ == "AND2"@ || px.prim@ == "NOR2"@ || px.prim@ == "XOR2"@ || px.prim@ == "NOT"@ || px.prim@ == "MUX"@);
                },
                LutLang::Not(a) => {
                    let sname = fresh_wire(id, &mut mapping);
                    let pname = Self::prim_counted(&mut prim_count)?;
                    let mut inst = SVPrimitive::new_gate(string_from("NOT"), pname);
                    inst.inputs.insert(string_from("A"), signal_of(*a, &mapping)?);
                    inst.add_output(string_from("Y"), sname.clone())?;
                    module.signals.push(SVSignal::new(1, sname.clone()));
                    proof {
                        pushed = true;
                        px = inst;
                    }
                    module.push_driver(sname, inst);
                    assert(module.instances@ == insts0.push(px));
                    assert(px.prim@ == "WIRE"@ || px.prim@ == "FDRE"@ || px.prim@ == "CONST"@ || px.prim@ == "AND2"@ || px.prim@ == "NOR2"@ || px.prim@ == "XOR2"@ || px.prim@ == "NOT"@ || px.prim@ == "MUX"@);
                },
                LutLang::Mux(sel, a, b) => {
                    let sname = fresh_wire(id, &mut mapping);
                    let pname = Self::prim_counted(&mut prim_count)?;
                    let mut inst = SVPrimitive::new_gate(string_from("MUX"), pname);
                    inst.inputs.insert(string_from("A"), signal_of(*a, &mapping)?);
                    inst.inputs.insert(string_from("B"), signal_of(*b, &mapping)?);
                    inst.inputs.insert(string_from("S"), signal_of(*sel, &mapping)?);
                    inst.add_output(string_from("Y"), sname.clone())?;
                    module.signals.push(SVSignal::new(1, sname.clone()));
                    proof {
                        pushed = true;
                        px = inst;
                    }
                    module.push_driver(sname, inst);
                    assert(module.instances@ == insts0.push(px));
                    assert(px.prim@ == "WIRE"@ || px.prim@ == "FDRE"@ || px.prim@ == "CONST"@ || px.prim@ == "AND2"@ || px.prim@ == "NOR2"@ || px.prim@ == "XOR2"@ || px.prim@ == "NOT"@ || px.prim@ == "MUX"@);
                },
                LutLang::Const(b) => {
                    let sname = fresh_wire(id, &mut mapping);
                    let pname = Self::prim_counted(&mut prim_count)?;
                    let inst = SVPrimitive::new_const(*b, sname.clone(), pname);
                    module.signals.push(SVSignal::new(1, sname.clone()));
                    proof {
                        pushed = true;
                        px = inst;
                    }
                    module.push_driver(sname, inst);
                    assert(module.instances@ == insts0.push(px));
                    assert(px.prim@ == "WIRE"@ || px.prim@ == "FDRE"@ || px.prim@ == "CONST"@ || px.prim@ == "AND2"@ || px.prim@ == "NOR2"@ || px.prim@ == "XOR2"@ || px.prim@ == "NOT"@ || px.prim@ == "MUX"@);
                },
                _ => {
                    return Err(string_from("Unsupported node type"));
                },
            }
            proof {
                assert forall|c: int| 0 <= c < id + 1 && makes_signal(#[trigger] expr@[c]) implies mapping@[c] is Some by {
                    if c < id {
                        assert(map0[c] is Some);
                    }
                }
                assert forall|c: int| 0 <= c < id + 1 implies (#[trigger] expr@[c] matches LutLang::Program(p) ==> programs@[c] == Some(p)) by {
                    if c < id {
                        assert(progs0[c] == programs@[c]);
                    }
                }
                assert(expr@.subrange(0, id + 1).drop_last() =~= expr@.subrange(0, id as int));
                assert(expr@.subrange(0, id + 1).last() == expr@[id as int]);
                assert forall|c: int|
                    0 <= c < id + 1 && makes_cell(#[trigger] expr@[c]) implies exists|kk: int|
                        0 <= kk < module.instances@.len() && cell_instance_of(expr@, c, module.instances@[kk]) by {
                    if c < id {
                        let kk = choose|kk: int| 0 <= kk < insts0.len() && cell_instance_of(expr@, c, insts0[kk]);
                        assert(module.instances@[kk] == insts0[kk]);
                    } else {
                        assert(pushed);
                        assert(module.instances@[insts0.len() as int] == px);
                        assert(cell_instance_of(expr@, c, px));
                    }
                }
                assert forall|k: nat| k < 10 implies #[trigger] lut_prim_count(module.instances@, k) == lut_count_k(expr@.subrange(0, id + 1), k) by {
                    if !pushed {
                        assert(module.instances@ == insts0);
                        assert(!(expr@[id as int] is Lut));
                    } else {
                        assert(module.instances@ == insts0.push(px));
                        lemma_lut_prim_push(insts0, px, k);
                        match expr@[id as int] {
                            LutLang::Lut(l) => {
                                lemma_lut_name_eq((l@.len() - 1) as nat, k);
                            },
                            _ => {
                                lemma_not_lut_name(px.prim@, k);
                            },
                        }
                    }
                }
            }
            id = id + 1;
        }
        assert(expr@.subrange(0, size as int) =~= expr@);
        Ok(module)
    }
}

/// The views of a list of strings.
pub open spec fn string_views(v: Seq<String>) -> Seq<Seq<char>> {
    v.map_values(|x: String| x@)
}

/// One `.key(value)` line of an instance, closed by `,` but for the last.
pub open spec fn port_line(k: Seq<char>, v: Seq<char>, last: bool) -> Seq<char> {
    "      ."@ + k + "("@ + v + ")"@ + if last {
        "\n"@
    } else {
        ",\n"@
    }
}

/// The first `i` lines `.ks[j](vs[j])`, the last of all `n` without a comma.
pub open spec fn port_lines(ks: Seq<Seq<char>>, vs: Seq<Seq<char>>, i: int, n: int) -> Seq<char>
    decreases i,
{
    if i <= 0 {
        Seq::empty()
    } else {
        port_lines(ks, vs, i - 1, n) + port_line(ks[i - 1], vs[i - 1], i == n)
    }
}

/// The first `i` input connections `.port(signal),`, one per line.
pub open spec fn input_lines(ks: Seq<Seq<char>>, vs: Seq<Seq<char>>, i: int) -> Seq<char>
    decreases i,
{
    if i <= 0 {
        Seq::empty()
    } else {
        input_lines(ks, vs, i - 1) + "      ."@ + ks[i - 1] + "("@ + vs[i - 1] + "),\n"@
    }
}

/// The Verilog text of an instance.
pub open spec fn primitive_text(p: SVPrimitive) -> Seq<char> {
    let is_reg = p.prim@ == "FDRE"@;
    if p.prim@ == "CONST"@ || p.prim@ == "WIRE"@ {
        "  assign "@ + (if p.outputs.keys().len() > 0 {
            p.outputs.keys()[0]
        } else {
            Seq::empty()
        }) + " = "@ + (if p.attributes_view().contains_key("VAL"@) {
            p.attributes_view()["VAL"@]
        } else {
            Seq::empty()
        }) + ";"@
    } else {
        "  "@ + p.prim@ + " #(\n"@ + port_lines(
            p.attributes.keys(),
            string_views(p.attributes.values()),
            p.attributes.keys().len() as int,
            p.attributes.keys().len() as int,
        ) + "  ) "@ + p.name@ + " (\n"@ + (if is_reg {
            "      .C(clk),\n      .CE(1'h1),\n"@
        } else {
            Seq::empty()
        }) + input_lines(
            p.inputs.keys(),
            string_views(p.inputs.values()),
            p.inputs.keys().len() as int,
        ) + (if is_reg {
            "      .R(1'h0),\n"@
        } else {
            Seq::empty()
        }) + port_lines(
            string_views(p.outputs.values()),
            p.outputs.keys(),
            p.outputs.keys().len() as int,
            p.outputs.keys().len() as int,
        ) + "  );"@
    }
}

fn push_port_lines(s: &mut String, ks: &NameMap<String>, swap: bool)
    requires
        ks.wf(),
    ensures
        !swap ==> final(s)@ == old(s)@ + port_lines(
            ks.keys(),
            string_views(ks.values()),
            ks.keys().len() as int,
            ks.keys().len() as int,
        ),
        swap ==> final(s)@ == old(s)@ + port_lines(
            string_views(ks.values()),
            ks.keys(),
            ks.keys().len() as int,
            ks.keys().len() as int,
        ),
{
    let n = ks.len();
    let mut i: usize = 0;
    while i < n
        invariant
            ks.wf(),
            n == ks.keys().len(),
            i <= n,
            !swap ==> s@ == old(s)@ + port_lines(ks.keys(), string_views(ks.values()), i as int, n as int),
            swap ==> s@ == old(s)@ + port_lines(string_views(ks.values()), ks.keys(), i as int, n as int),
        decreases n - i,
    {
        let k = ks.key_at(i);
        let v = ks.value_at(i);
        let ghost before = s@;
        push_str(s, "      .");
        if swap {
            push_str(s, v.as_str());
        } else {
            push_str(s, k.as_str());
        }
        push_str(s, "(");
        if swap {
            push_str(s, k.as_str());
        } else {
            push_str(s, v.as_str());
        }
        push_str(s, ")");
        if i + 1 == n {
            push_str(s, "\n");
        } else {
            push_str(s, ",\n");
        }
        proof {
            assert(string_views(ks.values())[i as int] == v@);
            let line = if swap {
                port_line(v@, k@, i + 1 == n)
            } else {
                port_line(k@, v@, i + 1 == n)
            };
            assert(s@ =~= before + line);
        }
        i = i + 1;
    }
}

impl SVPrimitive {
    /// The Verilog text of the instance.
    pub fn to_verilog(&self) -> (r: String)
        requires
            self.wf(),
        ensures
            r@ == primitive_text(*self),
    {
        let mut s = String::new();
        if SVModule::is_assign_prim(self.prim.as_str()) {
            push_str(&mut s, "  assign ");
            if self.outputs.len() > 0 {
                push_str(&mut s, self.outputs.key_at(0).as_str());
            }
            push_str(&mut s, " = ");
            match self.attributes.get("VAL") {
                Some(v) => push_str(&mut s, v.as_str()),
                None => {},
            }
            push_str(&mut s, ";");
            assert(s@ =~= primitive_text(*self));
            return s;
        }
        let is_reg = SVModule::is_reg_prim(self.prim.as_str());
        push_str(&mut s, "  ");
        push_str(&mut s, self.prim.as_str());
        push_str(&mut s, " #(\n");
        let ghost s1 = s@;
        push_port_lines(&mut s, &self.attributes, false);
        let ghost s2 = s@;
        push_str(&mut s, "  ) ");
        push_str(&mut s, self.name.as_str());
        push_str(&mut s, " (\n");
        if is_reg {
            push_str(&mut s, "      .C(clk),\n      .CE(1'h1),\n");
        }
        let ghost s3 = s@;
        let n = self.inputs.len();
        let mut i: usize = 0;
        while i < n
            invariant
                self.wf(),
                n == self.inputs.keys().len(),
                i <= n,
                s@ == s3 + input_lines(self.inputs.keys(), string_views(self.inputs.values()), i as int),
            decreases n - i,
        {
            let k = self.inputs.key_at(i);
            let v = self.inputs.value_at(i);
            let ghost before = s@;
            push_str(&mut s, "      .");
            push_str(&mut s, k.as_str());
            push_str(&mut s, "(");
            push_str(&mut s, v.as_str());
            push_str(&mut s, "),\n");
            proof {
                assert(string_views(self.inputs.values())[i as int] == v@);
                assert(s@ =~= s3 + input_lines(self.inputs.keys(), string_views(self.inputs.values()), i + 1));
            }
            i = i + 1;
        }
        let ghost s4 = s@;
        if is_reg {
            push_str(&mut s, "      .R(1'h0),\n");
        }
        let ghost s5 = s@;
        push_port_lines(&mut s, &self.outputs, true);
        push_str(&mut s, "  );");
        proof {
            assert(s@ =~= primitive_text(*self));
        }
        s
    }
}

/// For each of the first `i` names, `pre`, the name and `post`.
pub open spec fn name_lines(names: Seq<Seq<char>>, i: int, pre: Seq<char>, post: Seq<char>) -> Seq<char>
    decreases i,
{
    if i <= 0 {
        Seq::empty()
    } else {
        name_lines(names, i - 1, pre, post) + pre + names[i - 1] + post
    }
}

/// The declarations of the first `i` names as `kind` and as wires.
pub open spec fn decl_lines(names: Seq<Seq<char>>, i: int, kind: Seq<char>) -> Seq<char>
    decreases i,
{
    if i <= 0 {
        Seq::empty()
    } else {
        decl_lines(names, i - 1, kind) + "  "@ + kind + " "@ + names[i - 1] + ";\n  wire "@ + names[
            i - 1] + ";\n"@
    }
}

/// The first `i` output names of the port list, the last of all without a comma.
pub open spec fn output_header(names: Seq<Seq<char>>, i: int) -> Seq<char>
    decreases i,
{
    if i <= 0 {
        Seq::empty()
    } else {
        output_header(names, i - 1) + "    "@ + names[i - 1] + if i == names.len() {
            "\n"@
        } else {
            ",\n"@
        }
    }
}

/// The wire declarations of the first `i` signals that are neither inputs
/// nor outputs.
pub open spec fn wire_lines(m: SVModule, i: int) -> Seq<char>
    decreases i,
{
    if i <= 0 {
        Seq::empty()
    } else {
        let n = m.signals@[i - 1].name_spec();
        wire_lines(m, i - 1) + if signal_names(m.inputs@).contains(n) || signal_names(
            m.outputs@,
        ).contains(n) {
            Seq::empty()
        } else {
            "  wire "@ + n + ";\n"@
        }
    }
}

/// The text of the first `i` instances, one per line.
pub open spec fn instance_lines(insts: Seq<SVPrimitive>, i: int) -> Seq<char>
    decreases i,
{
    if i <= 0 {
        Seq::empty()
    } else {
        instance_lines(insts, i - 1) + primitive_text(insts[i - 1]) + "\n"@
    }
}

/// The Verilog text of a module.
pub open spec fn module_text(m: SVModule) -> Seq<char> {
    let ins = signal_names(m.inputs@);
    let outs = signal_names(m.outputs@);
    "module "@ + m.name@ + " (\n"@ + name_lines(ins, ins.len() as int, "    "@, ",\n"@)
        + output_header(outs, outs.len() as int) + ");\n"@ + decl_lines(
        ins,
        ins.len() as int,
        "input"@,
    ) + decl_lines(outs, outs.len() as int, "output"@) + wire_lines(
        m,
        m.signals@.len() as int,
    ) + instance_lines(m.instances@, m.instances@.len() as int) + "endmodule"@
}

fn push_decl_lines(s: &mut String, sigs: &Vec<SVSignal>, kind: &str)
    ensures
        final(s)@ == old(s)@ + decl_lines(signal_names(sigs@), sigs@.len() as int, kind@),
{
    let mut i: usize = 0;
    while i < sigs.len()
        invariant
            i <= sigs@.len(),
            s@ == old(s)@ + decl_lines(signal_names(sigs@), i as int, kind@),
        decreases sigs@.len() - i,
    {
        push_str(s, "  ");
        push_str(s, kind);
        push_str(s, " ");
        push_str(s, sigs[i].get_name());
        push_str(s, ";\n  wire ");
        push_str(s, sigs[i].get_name());
        push_str(s, ";\n");
        assert(signal_names(sigs@)[i as int] == sigs@[i as int].name_spec());
        assert(s@ =~= old(s)@ + decl_lines(signal_names(sigs@), i + 1, kind@));
        i = i + 1;
    }
}

fn push_name_lines(s: &mut String, sigs: &Vec<SVSignal>, pre: &str, post: &str)
    ensures
        final(s)@ == old(s)@ + name_lines(
            signal_names(sigs@),
            sigs@.len() as int,
            pre@,
            post@,
        ),
{
    let mut i: usize = 0;
    while i < sigs.len()
        invariant
            i <= sigs@.len(),
            s@ == old(s)@ + name_lines(signal_names(sigs@), i as int, pre@, post@),
        decreases sigs@.len() - i,
    {
        let ghost before = s@;
        push_str(s, pre);
        push_str(s, sigs[i].get_name());
        push_str(s, post);
        assert(signal_names(sigs@)[i as int] == sigs@[i as int].name_spec());
        assert(s@ =~= old(s)@ + name_lines(signal_names(sigs@), i + 1, pre@, post@));
        i = i + 1;
    }
}

impl SVModule {
    /// Whether `signal` is an output of the module.
    pub fn is_an_output(&self, signal: &str) -> (r: bool)
        ensures
            r == signal_names(self.outputs@).contains(signal@),
    {
        let mut i: usize = 0;
        while i < self.outputs.len()
            invariant
                i <= self.outputs@.len(),
                forall|j: int| 0 <= j < i ==> self.outputs@[j].name_spec() != signal@,
            decreases self.outputs@.len() - i,
        {
            if str_eq(self.outputs[i].get_name(), signal) {
                assert(signal_names(self.outputs@)[i as int] == signal@);
                return true;
            }
            i = i + 1;
        }
        proof {
            if signal_names(self.outputs@).contains(signal@) {
                let j = choose|j: int|
                    0 <= j < signal_names(self.outputs@).len() && signal_names(self.outputs@)[j]
                        == signal@;
                assert(self.outputs@[j].name_spec() == signal@);
            }
        }
        false
    }

    /// The Verilog text of the module.
    pub fn to_verilog(&self) -> (r: String)
        requires
            self.wf(),
        ensures
            r@ == module_text(*self),
    {
        let mut s = String::new();
        push_str(&mut s, "module ");
        push_str(&mut s, self.name.as_str());
        push_str(&mut s, " (\n");
        push_name_lines(&mut s, &self.inputs, "    ", ",\n");
        let ghost s1 = s@;
        let n_out = self.outputs.len();
        let ghost outs = signal_names(self.outputs@);
        let mut i: usize = 0;
        while i < n_out
            invariant
                n_out == self.outputs@.len(),
                outs == signal_names(self.outputs@),
                i <= n_out,
                s@ == s1 + output_header(outs, i as int),
            decreases n_out - i,
        {
            push_str(&mut s, "    ");
            push_str(&mut s, self.outputs[i].get_name());
            if i + 1 == n_out {
                push_str(&mut s, "\n");
            } else {
                push_str(&mut s, ",\n");
            }
            assert(outs[i as int] == self.outputs@[i as int].name_spec());
            assert(s@ =~= s1 + output_header(outs, i + 1));
            i = i + 1;
        }
        push_str(&mut s, ");\n");
        push_decl_lines(&mut s, &self.inputs, "input");
        push_decl_lines(&mut s, &self.outputs, "output");
        let ghost s2 = s@;
        let mut j: usize = 0;
        while j < self.signals.len()
            invariant
                j <= self.signals@.len(),
                s@ == s2 + wire_lines(*self, j as int),
            decreases self.signals@.len() - j,
        {
            let name = self.signals[j].get_name();
            if !(self.is_an_input(name) || self.is_an_output(name)) {
                push_str(&mut s, "  wire ");
                push_str(&mut s, name);
                push_str(&mut s, ";\n");
            }
            assert(s@ =~= s2 + wire_lines(*self, j + 1));
            j = j + 1;
        }
        let ghost s3 = s@;
        let mut k: usize = 0;
        while k < self.instances.len()
            invariant
                self.wf(),
                k <= self.instances@.len(),
                s@ == s3 + instance_lines(self.instances@, k as int),
            decreases self.instances@.len() - k,
        {
            let t = self.instances[k].to_verilog();
            push_str(&mut s, t.as_str());
            push_str(&mut s, "\n");
            assert(s@ =~= s3 + instance_lines(self.instances@, k + 1));
            k = k + 1;
        }
        push_str(&mut s, "endmodule");
        assert(s@ =~= module_text(*self));
        s
    }
}

impl SVModule {
    /// The roots of the register-to-register view: the outputs, then the
    /// data input of each register that a register does not drive itself.
    fn cone_roots<'a>(&'a self) -> (r: Vec<&'a str>)
        requires
            self.wf(),
        ensures
            forall|j: int|
                0 <= j < r@.len() ==> (exists|i: int|
                    0 <= i < self.outputs@.len() && (#[trigger] r@[j])@ == self.outputs@[i].name_spec())
                    || is_register_input(*self, r@[j]@),
            r@.len() >= self.outputs@.len(),
            walk_view(r@) == cone_root_names(*self),
    {
        let mut roots: Vec<&'a str> = Vec::new();
        let mut i: usize = 0;
        while i < self.outputs.len()
            invariant
                i <= self.outputs@.len(),
                roots@.len() == i,
                forall|j: int| 0 <= j < i ==> (#[trigger] roots@[j])@ == self.outputs@[j].name_spec(),
                walk_view(roots@) == signal_names(self.outputs@).subrange(0, i as int),
            decreases self.outputs@.len() - i,
        {
            roots.push(self.outputs[i].get_name());
            i = i + 1;
            assert(walk_view(roots@) =~= signal_names(self.outputs@).subrange(0, i as int));
        }
        assert(signal_names(self.outputs@).subrange(0, i as int) =~= signal_names(self.outputs@));
        assert(register_roots(*self, 0) =~= Seq::<Seq<char>>::empty());
        let mut k: usize = 0;
        while k < self.instances.len()
            invariant
                self.wf(),
                k <= self.instances@.len(),
                forall|j: int|
                    0 <= j < roots@.len() ==> (exists|i: int|
                        0 <= i < self.outputs@.len() && (#[trigger] roots@[j])@ == self.outputs@[i].name_spec())
                        || is_register_input(*self, roots@[j]@),
                roots@.len() >= self.outputs@.len(),
                walk_view(roots@) == signal_names(self.outputs@) + register_roots(*self, k as int),
            decreases self.instances@.len() - k,
        {
            let inst = &self.instances[k];
            let ghost before = walk_view(roots@);
            if Self::is_reg_prim(inst.prim.as_str()) {
                let ins = inst.inputs();
                if ins.len() > 0 {
                    let d = ins.value_at(0).as_str();
                    proof {
                        ins.lemma_index(0);
                        let key = ins.keys()[0];
                        assert(ins@.contains_key(key));
                        assert(inst.inputs_view().contains_key(key));
                        assert(inst.inputs_view()[key] == d@);
                        assert(inst.inputs_view().values().contains(d@));
                        assert(is_register_input(*self, d@));
                    }
                    let sequential = match self.get_driving_primitive(d) {
                        Ok(p) => Self::is_reg_prim(p.prim.as_str()),
                        Err(_) => false,
                    };
                    assert(inst.input_ports() == ins.keys());
                    if !sequential {
                        roots.push(d);
                        assert(walk_view(roots@) =~= before.push(d@));
                    }
                }
            }
            k = k + 1;
            assert(walk_view(roots@) =~= signal_names(self.outputs@) + register_roots(*self, k as int));
        }
        roots
    }

    /// One term for the combinational logic between registers: each
    /// register output is a free input, and the roots are the outputs
    /// followed by the data inputs of the registers, gathered in a bus when
    /// there are several. Registers stay where they are.
    pub fn to_register_cone_expr(&self) -> (r: Result<Vec<LutLang>, String>)
        requires
            self.wf(),
        ensures
            r matches Ok(e) ==> wf_expr(e@) && e@.len() > 0,
            (forall|i: int| 0 <= i < self.outputs@.len() ==> good(*self, true, #[trigger] self.outputs@[i].name_spec()))
                && (forall|s: Seq<char>| #[trigger] is_register_input(*self, s) ==> good(*self, true, s))
                && self.outputs@.len() > 0 ==> r is Ok,
            r matches Ok(e) ==> (cone_root_names(*self).len() == 1 ==> denotes_top(
                *self,
                true,
                e@,
                e@.len() - 1,
                cone_root_names(*self)[0],
            )) && (cone_root_names(*self).len() > 1 ==> e@.last() is Bus && e@.last().children().len()
                == cone_root_names(*self).len() && forall|i: int|
                0 <= i < cone_root_names(*self).len() ==> denotes_top(
                    *self,
                    true,
                    e@,
                    #[trigger] e@.last().children()[i] as int,
                    cone_root_names(*self)[i],
                )),
    {
        let roots = self.cone_roots();
        let mut expr: Vec<LutLang> = Vec::new();
        let mut map: NameMap<usize> = NameMap::new();
        let mut ids: Vec<usize> = Vec::new();
        let mut i: usize = 0;
        while i < roots.len()
            invariant
                self.wf(),
                i <= roots@.len(),
                wf_expr(expr@),
                map.wf(),
                memo_ok(map@, expr@.len()),
                memo_sound(*self, true, map@, expr@),
                forall|j: int| 0 <= j < ids@.len() ==> #[trigger] ids@[j] < expr@.len(),
                i > 0 ==> expr@.len() > 0,
                roots@.len() >= self.outputs@.len(),
                forall|j: int|
                    0 <= j < roots@.len() ==> (exists|ii: int|
                        0 <= ii < self.outputs@.len() && (#[trigger] roots@[j])@ == self.outputs@[ii].name_spec())
                        || is_register_input(*self, roots@[j]@),
                walk_view(roots@) == cone_root_names(*self),
                ids@.len() == i,
                forall|j: int| 0 <= j < i ==> denotes_top(*self, true, expr@, #[trigger] ids@[j] as int, cone_root_names(*self)[j]),
                i == 0 ==> map@ == Map::<Seq<char>, usize>::empty(),
                i == 1 ==> ids@[0] == expr@.len() - 1,
            decreases roots@.len() - i,
        {
            let mut walk: Vec<&str> = Vec::new();
            proof {
                assert(walk_view(walk@) =~= Seq::<Seq<char>>::empty());
            }
            proof {
                if (forall|ii: int| 0 <= ii < self.outputs@.len() ==> good(*self, true, #[trigger] self.outputs@[ii].name_spec()))
                    && (forall|t: Seq<char>| #[trigger] is_register_input(*self, t) ==> good(*self, true, t)) {
                    if !is_register_input(*self, roots@[i as int]@) {
                        let ii = choose|ii: int| 0 <= ii < self.outputs@.len() && roots@[i as int]@ == self.outputs@[ii].name_spec();
                        assert(good(*self, true, self.outputs@[ii].name_spec()));
                    }
                    assert(good(*self, true, roots@[i as int]@));
                }
            }
            let ghost e0 = expr@;
            let id = self.get_expr(roots[i], &mut expr, &mut map, &mut walk, true)?;
            proof {
                assert(roots@[i as int]@ == walk_view(roots@)[i as int]);
                assert forall|j: int| 0 <= j < i implies denotes_top(*self, true, expr@, #[trigger] ids@[j] as int, cone_root_names(*self)[j]) by {
                    lemma_denotes_extend(*self, true, e0, expr@, ids@[j] as int, cone_root_names(*self)[j]);
                }
            }
            ids.push(id);
            i = i + 1;
        }
        assert(roots@.len() == cone_root_names(*self).len());
        if ids.len() > 1 {
            let n = ids.len();
            let ghost e0 = expr@;
            let ghost iv = ids@;
            add_node(&mut expr, LutLang::Bus(ids));
            proof {
                assert(expr@.last().children() == iv);
                assert forall|j: int| 0 <= j < n implies denotes_top(*self, true, expr@, #[trigger] expr@.last().children()[j] as int, cone_root_names(*self)[j]) by {
                    lemma_denotes_extend(*self, true, e0, expr@, iv[j] as int, cone_root_names(*self)[j]);
                }
            }
        }
        if expr.len() == 0 {
            return Err(string_from("The module has no output"));
        }
        Ok(expr)
    }
}

} // verus!
