//! A built netlist: gates in topological order over numbered wires, and its
//! text in single-assignment form.

use vstd::prelude::*;

use crate::builder::entry::Source;
use crate::builder::graph::position;
use crate::builder::handles::{Gate, Node, Wire};

verus! {

/// One gate of a netlist with the wires it reads and the wire it writes.
pub struct NetlistEntry<T: Gate> {
    gate: T,
    input_wires: Vec<Wire>,
    output_wire: Wire,
}

/// A complete acyclic netlist. Circuit inputs drive the first wires; each
/// gate writes one wire of its own, after the wires it reads are written.
pub struct Netlist<T: Gate> {
    entries: Vec<NetlistEntry<T>>,
    input_wires: Vec<Wire>,
    output_wires: Vec<Wire>,
    wire_count: usize,
}

/// The wire a source drives in a netlist with `ni` circuit inputs whose
/// gates are evaluated in `order`.
pub open spec fn source_wire(ni: nat, order: Seq<usize>, s: Source) -> Wire {
    match s {
        Source::Input(i) => Wire(i.0),
        Source::Gate(g) => Wire((ni + position(order, g.0 as int)) as usize),
    }
}

/// Decimal text of a digit.
pub open spec fn digit_text(d: nat) -> Seq<char> {
    if d == 0 {
        "0"@
    } else if d == 1 {
        "1"@
    } else if d == 2 {
        "2"@
    } else if d == 3 {
        "3"@
    } else if d == 4 {
        "4"@
    } else if d == 5 {
        "5"@
    } else if d == 6 {
        "6"@
    } else if d == 7 {
        "7"@
    } else if d == 8 {
        "8"@
    } else {
        "9"@
    }
}

/// Decimal text of a number, most significant digit first.
pub open spec fn decimal_text(n: nat) -> Seq<char>
    decreases n,
{
    if n < 10 {
        digit_text(n)
    } else {
        decimal_text(n / 10) + digit_text(n % 10)
    }
}

/// The number that a text of decimal digits, most significant first, reads
/// as.
pub open spec fn digits_value(s: Seq<char>) -> int
    decreases s.len(),
{
    if s.len() == 0 {
        0
    } else {
        digits_value(s.drop_last()) * 10 + (s.last() as int - '0' as int)
    }
}

/// The text of a digit is that one digit character.
proof fn lemma_digit_text(d: nat)
    requires
        d < 10,
    ensures
        digit_text(d).len() == 1,
        digit_text(d)[0] as int == '0' as int + d,
{
    reveal_strlit("0");
    reveal_strlit("1");
    reveal_strlit("2");
    reveal_strlit("3");
    reveal_strlit("4");
    reveal_strlit("5");
    reveal_strlit("6");
    reveal_strlit("7");
    reveal_strlit("8");
    reveal_strlit("9");
}

/// The decimal text of `n` is a nonempty run of digit characters, with no
/// leading zero, that reads back as `n`.
pub proof fn law_decimal_text_reads_back(n: nat)
    ensures
        decimal_text(n).len() >= 1,
        forall|i: int| 0 <= i < decimal_text(n).len() ==> '0' <= #[trigger] decimal_text(n)[i] <= '9',
        decimal_text(n).len() > 1 ==> decimal_text(n)[0] != '0',
        digits_value(decimal_text(n)) == n,
    decreases n,
{
    if n < 10 {
        lemma_digit_text(n);
        let s = decimal_text(n);
        assert(s.drop_last().len() == 0);
        assert(digits_value(s.drop_last()) == 0);
    } else {
        law_decimal_text_reads_back(n / 10);
        lemma_digit_text(n % 10);
        let p = decimal_text(n / 10);
        let s = decimal_text(n);
        assert(s == p + digit_text(n % 10));
        assert(s.drop_last() =~= p);
        assert(s.last() == digit_text(n % 10)[0]);
        assert forall|i: int| 0 <= i < s.len() implies '0' <= #[trigger] s[i] <= '9' by {
            if i < p.len() {
                assert(s[i] == p[i]);
            }
        }
        assert(s[0] == p[0]);
        if p.len() == 1 {
            assert(p[0] != '0') by {
                if p[0] == '0' {
                    assert(p.drop_last().len() == 0);
                    assert(digits_value(p.drop_last()) == 0);
                    assert(p.last() == p[0]);
                    assert(digits_value(p) == 0);
                }
            }
        }
        assert(n == (n / 10) * 10 + n % 10);
    }
}

/// Text naming a wire.
pub open spec fn wire_text(w: Wire) -> Seq<char> {
    "%w"@ + decimal_text(w.0 as nat)
}

/// The wires, named and separated by commas.
pub open spec fn wire_list_text(ws: Seq<Wire>) -> Seq<char>
    decreases ws.len(),
{
    if ws.len() == 0 {
        Seq::empty()
    } else if ws.len() == 1 {
        wire_text(ws[0])
    } else {
        wire_list_text(ws.drop_last()) + ", "@ + wire_text(ws.last())
    }
}

/// The first line of a netlist's text.
pub open spec fn header_text(inputs: nat, gates: nat, outputs: nat) -> Seq<char> {
    "; Circuit with "@ + decimal_text(inputs) + " inputs, "@ + decimal_text(gates) + " gates, "@
        + decimal_text(outputs) + " outputs"@
}

/// The line defining the wire of circuit input `i`.
pub open spec fn input_line(i: nat, w: Wire) -> Seq<char> {
    "\n"@ + wire_text(w) + " = input @i"@ + decimal_text(i)
}

/// The line defining a gate's output wire from its input wires.
pub open spec fn gate_line(out: Wire, name: Seq<char>, ins: Seq<Wire>) -> Seq<char> {
    "\n"@ + wire_text(out) + " = "@ + name + "("@ + wire_list_text(ins) + ")"@
}

/// The line naming the wire of circuit output `o`.
pub open spec fn output_line(o: nat, w: Wire) -> Seq<char> {
    "\n"@ + "output @o"@ + decimal_text(o) + " = "@ + wire_text(w)
}

/// The concatenation of `parts`.
pub open spec fn concat(parts: Seq<Seq<char>>) -> Seq<char>
    decreases parts.len(),
{
    if parts.len() == 0 {
        Seq::empty()
    } else {
        concat(parts.drop_last()) + parts.last()
    }
}

/// Appends the decimal text of `n`.
fn append_decimal(s: &mut String, n: usize)
    ensures
        final(s)@ == old(s)@ + decimal_text(n as nat),
    decreases n,
{
    if n >= 10 {
        append_decimal(s, n / 10);
    }
    let d = n % 10;
    if d == 0 {
        s.append("0");
    } else if d == 1 {
        s.append("1");
    } else if d == 2 {
        s.append("2");
    } else if d == 3 {
        s.append("3");
    } else if d == 4 {
        s.append("4");
    } else if d == 5 {
        s.append("5");
    } else if d == 6 {
        s.append("6");
    } else if d == 7 {
        s.append("7");
    } else if d == 8 {
        s.append("8");
    } else {
        s.append("9");
    }
}

/// Appends the text naming a wire.
fn append_wire(s: &mut String, w: Wire)
    ensures
        final(s)@ == old(s)@ + wire_text(w),
{
    let ghost before = s@;
    s.append("%w");
    append_decimal(s, w.0);
    proof {
        assert(s@ =~= before + wire_text(w));
    }
}

impl<T: Gate> NetlistEntry<T> {
    /// Gate descriptor.
    pub closed spec fn gate(&self) -> T {
        self.gate
    }

    /// Wires this gate reads, in port order.
    pub closed spec fn inputs(&self) -> Seq<Wire> {
        self.input_wires@
    }

    /// Wire this gate writes.
    pub closed spec fn output(&self) -> Wire {
        self.output_wire
    }

    /// An entry with the given gate and wires.
    pub(crate) fn new(gate: T, input_wires: Vec<Wire>, output_wire: Wire) -> (r: Self)
        ensures
            r.gate() == gate,
            r.inputs() == input_wires@,
            r.output() == output_wire,
    {
        Self { gate, input_wires, output_wire }
    }

    /// Appends the line defining this gate's output wire.
    fn append_line(&self, s: &mut String)
        ensures
            final(s)@ == old(s)@ + gate_line(self.output(), self.gate().spec_name()@, self.inputs()),
    {
        let ghost before = s@;
        s.append("\n");
        append_wire(s, self.output_wire);
        s.append(" = ");
        let ghost mid = s@;
        let name = self.gate.name();
        s.append(name);
        s.append("(");
        let ghost open = s@;
        let mut i: usize = 0;
        while i < self.input_wires.len()
            invariant
                i <= self.input_wires@.len(),
                s@ == open + wire_list_text(self.input_wires@.take(i as int)),
            decreases self.input_wires@.len() - i,
        {
            let ghost prev = s@;
            if i > 0 {
                s.append(", ");
            }
            append_wire(s, self.input_wires[i]);
            proof {
                let t = self.input_wires@.take(i as int + 1);
                assert(t.drop_last() =~= self.input_wires@.take(i as int));
                assert(t.last() == self.input_wires@[i as int]);
                if i == 0 {
                    assert(self.input_wires@.take(0) =~= Seq::<Wire>::empty());
                    assert(s@ =~= open + wire_list_text(t));
                } else {
                    assert(s@ =~= open + wire_list_text(t));
                }
            }
            i = i + 1;
        }
        s.append(")");
        proof {
            assert(self.input_wires@.take(self.input_wires@.len() as int) =~= self.input_wires@);
            assert(s@ =~= before + gate_line(self.output(), self.gate().spec_name()@, self.inputs()));
        }
    }
}

impl<T: Gate> Netlist<T> {
    /// The gates in the order they are evaluated.
    pub closed spec fn entries(&self) -> Seq<NetlistEntry<T>> {
        self.entries@
    }

    /// The wire each circuit input drives.
    pub closed spec fn inputs(&self) -> Seq<Wire> {
        self.input_wires@
    }

    /// The wire each circuit output reads.
    pub closed spec fn outputs(&self) -> Seq<Wire> {
        self.output_wires@
    }

    /// The number of wires.
    pub closed spec fn wires(&self) -> nat {
        self.wire_count as nat
    }

    /// This netlist evaluates the gates `gates` in `order`: circuit input
    /// `i` drives wire `i`, the `k`-th gate evaluated writes wire `ni + k`
    /// and reads the wires of its sources in port order, and each circuit
    /// output reads the wire of whichever gate feeds it.
    pub open spec fn is_built_from(
        &self,
        gates: Seq<T>,
        srcs: Seq<Seq<Source>>,
        ni: nat,
        outs: Seq<Option<Node>>,
        order: Seq<usize>,
    ) -> bool {
        &&& self.inputs() == Seq::new(ni, |i: int| Wire(i as usize))
        &&& self.entries().len() == order.len()
        &&& forall|k: int| 0 <= k < order.len() ==> {
            &&& (#[trigger] self.entries()[k]).gate() == gates[order[k] as int]
            &&& self.entries()[k].output() == Wire((ni + k) as usize)
            &&& self.entries()[k].inputs() == srcs[order[k] as int].map_values(|s: Source| source_wire(ni, order, s))
        }
        &&& self.outputs().len() == outs.len()
        &&& forall|o: int| 0 <= o < outs.len() ==> #[trigger] self.outputs()[o] == Wire(
            (ni + position(order, (outs[o]->0).0 as int)) as usize,
        )
        &&& self.wires() == ni + order.len()
    }

    /// A netlist with the given parts.
    pub(crate) fn from_parts(
        entries: Vec<NetlistEntry<T>>,
        input_wires: Vec<Wire>,
        output_wires: Vec<Wire>,
        wire_count: usize,
    ) -> (r: Self)
        ensures
            r.entries() == entries@,
            r.inputs() == input_wires@,
            r.outputs() == output_wires@,
            r.wires() == wire_count,
    {
        Self { entries, input_wires, output_wires, wire_count }
    }

    /// Number of gates.
    pub fn gate_count(&self) -> (r: usize)
        ensures
            r == self.entries().len(),
    {
        self.entries.len()
    }

    /// Number of circuit inputs.
    pub fn input_count(&self) -> (r: usize)
        ensures
            r == self.inputs().len(),
    {
        self.input_wires.len()
    }

    /// Number of circuit outputs.
    pub fn output_count(&self) -> (r: usize)
        ensures
            r == self.outputs().len(),
    {
        self.output_wires.len()
    }

    /// Number of wires.
    pub fn wire_count(&self) -> (r: usize)
        ensures
            r == self.wires(),
    {
        self.wire_count
    }

    /// Appends one line per circuit input.
    fn append_input_lines(&self, s: &mut String)
        ensures
            final(s)@ == old(s)@ + concat(Seq::new(self.inputs().len(), |i: int| input_line(i as nat, self.inputs()[i]))),
    {
        let ghost head = s@;
        let ghost ins = Seq::new(self.inputs().len(), |i: int| input_line(i as nat, self.inputs()[i]));
        let mut i: usize = 0;
        while i < self.input_wires.len()
            invariant
                i <= self.input_wires@.len(),
                ins == Seq::new(self.inputs().len(), |i: int| input_line(i as nat, self.inputs()[i])),
                s@ == head + concat(ins.take(i as int)),
            decreases self.input_wires@.len() - i,
        {
            let ghost prev = s@;
            s.append("\n");
            append_wire(s, self.input_wires[i]);
            s.append(" = input @i");
            append_decimal(s, i);
            proof {
                assert(ins.take(i as int + 1).drop_last() =~= ins.take(i as int));
                assert(s@ =~= head + concat(ins.take(i as int + 1)));
            }
            i = i + 1;
        }
        proof {
            assert(ins.take(ins.len() as int) =~= ins);
        }
    }

    /// Appends one line per gate, in evaluation order.
    fn append_gate_lines(&self, s: &mut String)
        ensures
            final(s)@ == old(s)@ + concat(Seq::new(
                self.entries().len(),
                |k: int| gate_line(self.entries()[k].output(), self.entries()[k].gate().spec_name()@, self.entries()[k].inputs()),
            )),
    {
        let ghost head = s@;
        let mut k: usize = 0;
        while k < self.entries.len()
            invariant
                k <= self.entries@.len(),
                s@ == head + concat(
                    Seq::new(k as nat, |j: int| gate_line(self.entries@[j].output(), self.entries@[j].gate().spec_name()@, self.entries@[j].inputs())),
                ),
            decreases self.entries@.len() - k,
        {
            let ghost prev = s@;
            self.entries[k].append_line(s);
            proof {
                let a = Seq::new(k as nat, |j: int| gate_line(self.entries@[j].output(), self.entries@[j].gate().spec_name()@, self.entries@[j].inputs()));
                let b = Seq::new(k as nat + 1, |j: int| gate_line(self.entries@[j].output(), self.entries@[j].gate().spec_name()@, self.entries@[j].inputs()));
                assert(b.drop_last() =~= a);
            }
            k = k + 1;
        }
        proof {
            assert(Seq::new(k as nat, |j: int| gate_line(self.entries@[j].output(), self.entries@[j].gate().spec_name()@, self.entries@[j].inputs()))
                =~= Seq::new(self.entries().len(), |j: int| gate_line(self.entries()[j].output(), self.entries()[j].gate().spec_name()@, self.entries()[j].inputs())));
        }
    }

    /// Appends one line per circuit output.
    fn append_output_lines(&self, s: &mut String)
        ensures
            final(s)@ == old(s)@ + concat(Seq::new(self.outputs().len(), |o: int| output_line(o as nat, self.outputs()[o]))),
    {
        let ghost head = s@;
        let ghost outs = Seq::new(self.outputs().len(), |o: int| output_line(o as nat, self.outputs()[o]));
        let mut o: usize = 0;
        while o < self.output_wires.len()
            invariant
                o <= self.output_wires@.len(),
                outs == Seq::new(self.outputs().len(), |o: int| output_line(o as nat, self.outputs()[o])),
                s@ == head + concat(outs.take(o as int)),
            decreases self.output_wires@.len() - o,
        {
            s.append("\n");
            s.append("output @o");
            append_decimal(s, o);
            s.append(" = ");
            append_wire(s, self.output_wires[o]);
            proof {
                assert(outs.take(o as int + 1).drop_last() =~= outs.take(o as int));
                assert(s@ =~= head + concat(outs.take(o as int + 1)));
            }
            o = o + 1;
        }
        proof {
            assert(outs.take(outs.len() as int) =~= outs);
        }
    }

    /// The netlist as text: a header line, one line per circuit input, one
    /// line per gate in evaluation order, and one line per circuit output.
    /// Gate names are those the gates report.
    pub fn to_ssa(&self) -> (r: String)
        ensures
            r@ == header_text(self.inputs().len(), self.entries().len(), self.outputs().len())
                + concat(Seq::new(self.inputs().len(), |i: int| input_line(i as nat, self.inputs()[i])))
                + concat(Seq::new(
                    self.entries().len(),
                    |k: int| gate_line(self.entries()[k].output(), self.entries()[k].gate().spec_name()@, self.entries()[k].inputs()),
                )) + concat(Seq::new(self.outputs().len(), |o: int| output_line(o as nat, self.outputs()[o]))),
    {
        let mut s = String::new();
        s.append("; Circuit with ");
        append_decimal(&mut s, self.input_wires.len());
        s.append(" inputs, ");
        append_decimal(&mut s, self.entries.len());
        s.append(" gates, ");
        append_decimal(&mut s, self.output_wires.len());
        s.append(" outputs");
        let ghost head = s@;
        proof {
            assert(head =~= header_text(self.inputs().len(), self.entries().len(), self.outputs().len()));
        }
        self.append_input_lines(&mut s);
        let ghost a1 = s@;
        self.append_gate_lines(&mut s);
        let ghost a2 = s@;
        self.append_output_lines(&mut s);
        s
    }
}

} // verus!
