//! The assembler: the token grammar's instruction list, two-pass label
//! resolution, and the encoding into the flat nibble stream the simulator
//! loads.
//!
//! Node lengths in nibbles are fixed per kind and are computed before any
//! label is resolved, because resolution needs final addresses, which need
//! the total layout. A reference to an undefined label is not fatal: it is
//! compiled as a two-nibble zero placeholder, a deliberate best-effort
//! policy.

use crate::nibble::hex_val;
use crate::nibble::hex_digit;
use crate::nibble::u4;
use crate::vm::decode_spec;
use crate::vm::Opcode;
use vstd::prelude::*;
use vstd::string::StrSliceExecFns;

verus! {

/// An immediate operand: either a literal nibble sequence or a named label
/// reference (an unresolved address, always exactly two nibbles once
/// resolved).
#[derive(Clone, Debug)]
pub enum Datum {
    Literal(Vec<u4>),
    Label(String),
}

/// The mathematical shape of a `Datum`.
pub enum DatumView {
    Literal(Seq<u4>),
    Label(Seq<char>),
}

/// One node of a parsed program: a data filler, a label definition, a
/// comment, or one of the eleven instruction mnemonics.
#[derive(Clone, Debug)]
pub enum Syntax {
    Filler(Datum),
    Label(String),
    Nop,
    Push(Datum),
    Pop,
    Add,
    Subtract,
    JumpNonZero,
    Call,
    Return,
    Load,
    Store,
    Halt,
    Comment(String),
}

/// The mathematical shape of a `Syntax` node.
pub enum SyntaxView {
    Filler(DatumView),
    Label(Seq<char>),
    Nop,
    Push(DatumView),
    Pop,
    Add,
    Subtract,
    JumpNonZero,
    Call,
    Return,
    Load,
    Store,
    Halt,
    Comment(Seq<char>),
}

impl View for Datum {
    type V = DatumView;

    open spec fn view(&self) -> DatumView {
        match self {
            Datum::Literal(v) => DatumView::Literal(v@),
            Datum::Label(s) => DatumView::Label(s@),
        }
    }
}

impl View for Syntax {
    type V = SyntaxView;

    open spec fn view(&self) -> SyntaxView {
        match self {
            Syntax::Filler(d) => SyntaxView::Filler(d@),
            Syntax::Label(s) => SyntaxView::Label(s@),
            Syntax::Nop => SyntaxView::Nop,
            Syntax::Push(d) => SyntaxView::Push(d@),
            Syntax::Pop => SyntaxView::Pop,
            Syntax::Add => SyntaxView::Add,
            Syntax::Subtract => SyntaxView::Subtract,
            Syntax::JumpNonZero => SyntaxView::JumpNonZero,
            Syntax::Call => SyntaxView::Call,
            Syntax::Return => SyntaxView::Return,
            Syntax::Load => SyntaxView::Load,
            Syntax::Store => SyntaxView::Store,
            Syntax::Halt => SyntaxView::Halt,
            Syntax::Comment(s) => SyntaxView::Comment(s@),
        }
    }
}

/// The views of a whole instruction list.
pub open spec fn views_of(p: Seq<Syntax>) -> Seq<SyntaxView> {
    p.map_values(|s: Syntax| s@)
}

/// The length in nibbles a datum occupies: a literal contributes one nibble
/// per hex digit; a label reference always resolves to two nibbles.
pub open spec fn datum_len(d: DatumView) -> nat {
    match d {
        DatumView::Literal(v) => v.len(),
        DatumView::Label(_) => 2,
    }
}

/// The fixed length in nibbles of one node: labels and comments occupy
/// nothing, push occupies an opcode nibble per operand nibble, a filler its
/// datum's own length, and every other instruction one nibble.
pub open spec fn syntax_len(s: SyntaxView) -> nat {
    match s {
        SyntaxView::Filler(d) => datum_len(d),
        SyntaxView::Label(_) => 0,
        SyntaxView::Comment(_) => 0,
        SyntaxView::Push(d) => datum_len(d) * 2,
        _ => 1,
    }
}

/// The nibble offset at which node `i` of the program will be laid out: the
/// sum of the lengths of all nodes before it.
pub open spec fn layout_offset(p: Seq<SyntaxView>, i: int) -> nat
    decreases i,
{
    if i <= 0 {
        0
    } else {
        layout_offset(p, i - 1) + syntax_len(p[i - 1])
    }
}

proof fn lemma_layout_offset_mono(p: Seq<SyntaxView>, i: int, j: int)
    requires
        0 <= i <= j,
    ensures
        layout_offset(p, i) <= layout_offset(p, j),
    decreases j,
{
    if i < j {
        lemma_layout_offset_mono(p, i, j - 1);
    }
}

/// The label definitions among the first `i` nodes, in order, each with the
/// offset at which it stands.
pub open spec fn label_defs(p: Seq<SyntaxView>, i: int) -> Seq<(Seq<char>, nat)>
    decreases i,
{
    if i <= 0 {
        Seq::empty()
    } else {
        let rest = label_defs(p, i - 1);
        match p[i - 1] {
            SyntaxView::Label(name) => rest.push((name, layout_offset(p, i - 1))),
            _ => rest,
        }
    }
}

/// Look a name up in the definition table; a later definition of the same
/// name shadows an earlier one, as insertion into a single table does.
pub open spec fn lookup_label(t: Seq<(Seq<char>, nat)>, name: Seq<char>) -> Option<nat>
    decreases t.len(),
{
    if t.len() == 0 {
        None
    } else if t.last().0 == name {
        Some(t.last().1)
    } else {
        lookup_label(t.drop_last(), name)
    }
}

/// A resolved address as its two nibbles, high then low. The offset is
/// truncated to the 8-bit address space; an undefined label resolves to the
/// two-nibble zero placeholder.
pub open spec fn addr_nibbles(off: Option<nat>) -> Seq<u4> {
    let a = (match off {
        Some(o) => o % 256,
        None => 0,
    }) as u8;
    seq![u4::of(a / 16), u4::of(a)]
}

/// One node after label resolution: a label reference in filler or push
/// position is replaced by its resolved address; everything else is kept.
pub open spec fn resolve_view(s: SyntaxView, t: Seq<(Seq<char>, nat)>) -> SyntaxView {
    match s {
        SyntaxView::Filler(DatumView::Label(name)) => SyntaxView::Filler(
            DatumView::Literal(addr_nibbles(lookup_label(t, name))),
        ),
        SyntaxView::Push(DatumView::Label(name)) => SyntaxView::Push(
            DatumView::Literal(addr_nibbles(lookup_label(t, name))),
        ),
        _ => s,
    }
}

/// The whole program after the two passes: addresses assigned by the first
/// walk, every label reference substituted by the second.
pub open spec fn resolve_program_view(p: Seq<SyntaxView>) -> Seq<SyntaxView> {
    p.map_values(|s: SyntaxView| resolve_view(s, label_defs(p, p.len() as int)))
}

/// The encoding of a push: an opcode nibble `1` before each operand nibble.
pub open spec fn encode_push(v: Seq<u4>) -> Seq<u4>
    decreases v.len(),
{
    if v.len() == 0 {
        Seq::empty()
    } else {
        seq![u4::of(1), v[0]] + encode_push(v.skip(1))
    }
}

/// The fixed per-node encoding: opcodes to their numeric value, push to
/// `[1, nibble]` pairs, fillers to their bytes, labels and comments to
/// nothing. An unresolved label datum encodes as a zero placeholder.
pub open spec fn encode_syntax(s: SyntaxView) -> Seq<u4> {
    match s {
        SyntaxView::Filler(DatumView::Literal(d)) => d,
        SyntaxView::Filler(DatumView::Label(_)) => seq![u4::of(0), u4::of(0)],
        SyntaxView::Label(_) => Seq::empty(),
        SyntaxView::Nop => seq![u4::of(0)],
        SyntaxView::Push(DatumView::Literal(d)) => encode_push(d),
        SyntaxView::Push(DatumView::Label(_)) => seq![u4::of(1), u4::of(0), u4::of(1), u4::of(0)],
        SyntaxView::Pop => seq![u4::of(2)],
        SyntaxView::Add => seq![u4::of(3)],
        SyntaxView::Subtract => seq![u4::of(4)],
        SyntaxView::JumpNonZero => seq![u4::of(5)],
        SyntaxView::Call => seq![u4::of(6)],
        SyntaxView::Return => seq![u4::of(7)],
        SyntaxView::Load => seq![u4::of(8)],
        SyntaxView::Store => seq![u4::of(9)],
        SyntaxView::Halt => seq![u4::of(15)],
        SyntaxView::Comment(_) => Seq::empty(),
    }
}

/// The concatenated encodings of the nodes from `i` on, in program order.
pub open spec fn encode_program(p: Seq<SyntaxView>, i: int) -> Seq<u4>
    decreases p.len() - i,
{
    if i < 0 || i >= p.len() {
        Seq::empty()
    } else {
        encode_syntax(p[i]) + encode_program(p, i + 1)
    }
}

/// What `Syntax::compile` produces: the program is resolved, then each
/// node's encoding is laid out in order, directly loadable at address 0.
pub open spec fn compile_spec(p: Seq<SyntaxView>) -> Seq<u4> {
    encode_program(resolve_program_view(p), 0)
}

/// The executable definition table: the first pass's label-to-offset pairs
/// in definition order.
pub open spec fn table_view(t: Seq<(String, usize)>) -> Seq<(Seq<char>, nat)> {
    t.map_values(|e: (String, usize)| (e.0@, e.1 as nat))
}

impl Datum {
    /// The length in nibbles this datum occupies once resolved.
    #[must_use]
    pub fn len(&self) -> (r: usize)
        ensures
            r == datum_len(self@),
    {
        match self {
            Datum::Literal(d) => d.len(),
            Datum::Label(_) => 2,
        }
    }

    /// Whether the datum occupies no nibbles at all (an empty literal).
    #[must_use]
    pub fn is_empty(&self) -> (r: bool)
        ensures
            r == (datum_len(self@) == 0),
    {
        self.len() == 0
    }
}

impl Syntax {
    /// The fixed length in nibbles of this node.
    #[must_use]
    pub fn len(&self) -> (r: usize)
        requires
            syntax_len(self@) <= usize::MAX,
        ensures
            r == syntax_len(self@),
    {
        match self {
            Syntax::Filler(d) => d.len(),
            Syntax::Label(_) => 0,
            Syntax::Comment(_) => 0,
            Syntax::Push(d) => d.len() * 2,
            _ => 1,
        }
    }

    /// Whether the node occupies no nibbles (a label, a comment, or an
    /// empty filler).
    #[must_use]
    pub fn is_empty(&self) -> (r: bool)
        requires
            syntax_len(self@) <= usize::MAX,
        ensures
            r == (syntax_len(self@) == 0),
    {
        self.len() == 0
    }

    /// Two-pass label resolution, in place. The first walk accumulates a
    /// running nibble offset and records each label definition at its
    /// offset; the second substitutes every label reference by its resolved
    /// address, high nibble first, or by a two-nibble zero placeholder when
    /// the label is undefined.
    pub fn resolve_labels(program: &mut [Syntax])
        requires
            layout_offset(views_of(old(program)@), old(program)@.len() as int) <= usize::MAX,
        ensures
            views_of(final(program)@) == resolve_program_view(views_of(old(program)@)),
    {
        let ghost p0 = views_of(program@);
        let n = program.len();
        let mut table: Vec<(String, usize)> = Vec::new();
        let mut address: usize = 0;
        let mut idx: usize = 0;
        while idx < n
            invariant
                n == program@.len(),
                idx <= n,
                program@.len() == p0.len(),
                views_of(program@) == p0,
                layout_offset(p0, n as int) <= usize::MAX,
                address == layout_offset(p0, idx as int),
                table_view(table@) == label_defs(p0, idx as int),
            decreases n - idx,
        {
            proof {
                assert(p0[idx as int] == program@[idx as int]@);
            }
            match &program[idx] {
                Syntax::Label(l) => {
                    table.push((l.clone(), address));
                    proof {
                        assert(table_view(table@) =~= label_defs(p0, idx + 1 as int));
                    }
                },
                _ => {
                    proof {
                        assert(table_view(table@) =~= label_defs(p0, idx + 1 as int));
                    }
                },
            }
            proof {
                lemma_layout_offset_mono(p0, idx + 1 as int, n as int);
            }
            let step = program[idx].len();
            address = address + step;
            idx = idx + 1;
        }
        let ghost t = label_defs(p0, n as int);
        idx = 0;
        while idx < n
            invariant
                n == program@.len(),
                idx <= n,
                program@.len() == p0.len(),
                table_view(table@) == t,
                t == label_defs(p0, p0.len() as int),
                forall|i: int|
                    0 <= i < idx ==> #[trigger] program@[i]@ == resolve_view(p0[i], t),
                forall|i: int| idx <= i < n ==> #[trigger] program@[i]@ == p0[i],
            decreases n - idx,
        {
            let replacement: Option<Syntax> = resolve_node(&program[idx], &table);
            match replacement {
                Some(s) => {
                    program[idx] = s;
                },
                None => {},
            }
            proof {
                assert(program@[idx as int]@ == resolve_view(p0[idx as int], t));
                assert(forall|i: int|
                    0 <= i < idx + 1 ==> #[trigger] program@[i]@ == resolve_view(p0[i], t));
                assert(forall|i: int| idx + 1 <= i < n ==> #[trigger] program@[i]@ == p0[i]);
            }
            idx = idx + 1;
        }
        proof {
            assert(views_of(program@) =~= resolve_program_view(p0));
        }
    }

    /// Resolve the program's labels and concatenate every node's encoding, in
    /// program order: the flat nibble stream the simulator loads at
    /// address 0.
    pub fn compile(program: Vec<Syntax>) -> (r: Vec<u4>)
        requires
            layout_offset(views_of(program@), program@.len() as int) <= usize::MAX,
        ensures
            r@ == compile_spec(views_of(program@)),
    {
        let ghost p0 = views_of(program@);
        let mut prog = program;
        Self::resolve_labels(prog.as_mut_slice());
        let ghost q = resolve_program_view(p0);
        let mut out: Vec<u4> = Vec::new();
        let n = prog.len();
        let mut idx: usize = 0;
        while idx < n
            invariant
                n == prog@.len(),
                idx <= n,
                views_of(prog@) == q,
                q.len() == n,
                encode_program(q, 0) == out@ + encode_program(q, idx as int),
            decreases n - idx,
        {
            proof {
                assert(q[idx as int] == prog@[idx as int]@);
            }
            let mut piece = prog[idx].encode();
            out.append(&mut piece);
            idx = idx + 1;
        }
        proof {
            assert(out@ =~= compile_spec(p0));
        }
        out
    }

    /// This node's own encoding as a fresh nibble vector.
    pub fn encode(&self) -> (r: Vec<u4>)
        ensures
            r@ == encode_syntax(self@),
    {
        match self {
            Syntax::Filler(Datum::Literal(d)) => {
                let mut v: Vec<u4> = Vec::new();
                let mut i: usize = 0;
                let n = d.len();
                while i < n
                    invariant
                        n == d@.len(),
                        i <= n,
                        v@ == d@.take(i as int),
                    decreases n - i,
                {
                    v.push(d[i]);
                    proof {
                        assert(v@ =~= d@.take(i + 1 as int));
                    }
                    i = i + 1;
                }
                proof {
                    assert(d@.take(n as int) =~= d@);
                }
                v
            },
            Syntax::Filler(Datum::Label(_)) => {
                let mut v: Vec<u4> = Vec::new();
                v.push(u4::from_u8(0));
                v.push(u4::from_u8(0));
                proof {
                    assert(v@ =~= seq![u4::of(0), u4::of(0)]);
                }
                v
            },
            Syntax::Label(_) => Vec::new(),
            Syntax::Push(Datum::Literal(d)) => {
                let mut v: Vec<u4> = Vec::new();
                let mut i: usize = 0;
                let n = d.len();
                proof {
                    assert(d@.skip(0) =~= d@);
                    assert(Seq::<u4>::empty() + encode_push(d@) =~= encode_push(d@));
                }
                while i < n
                    invariant
                        n == d@.len(),
                        i <= n,
                        encode_push(d@) == v@ + encode_push(d@.skip(i as int)),
                    decreases n - i,
                {
                    let ghost v_old = v@;
                    v.push(u4::from_u8(1));
                    v.push(d[i]);
                    proof {
                        assert(d@.skip(i as int)[0] == d@[i as int]);
                        assert(d@.skip(i as int).skip(1) =~= d@.skip(i + 1 as int));
                        assert(v@ =~= v_old + seq![u4::of(1), d@[i as int]]);
                        assert(v_old + (seq![u4::of(1), d@[i as int]] + encode_push(
                            d@.skip(i + 1),
                        )) =~= v@ + encode_push(d@.skip(i + 1)));
                    }
                    i = i + 1;
                }
                proof {
                    assert(encode_push(d@.skip(n as int)) =~= Seq::<u4>::empty());
                    assert(v@ =~= encode_push(d@));
                }
                v
            },
            Syntax::Push(Datum::Label(_)) => {
                let mut v: Vec<u4> = Vec::new();
                v.push(u4::from_u8(1));
                v.push(u4::from_u8(0));
                v.push(u4::from_u8(1));
                v.push(u4::from_u8(0));
                proof {
                    assert(v@ =~= seq![u4::of(1), u4::of(0), u4::of(1), u4::of(0)]);
                }
                v
            },
            Syntax::Nop => single_nibble(0),
            Syntax::Pop => single_nibble(2),
            Syntax::Add => single_nibble(3),
            Syntax::Subtract => single_nibble(4),
            Syntax::JumpNonZero => single_nibble(5),
            Syntax::Call => single_nibble(6),
            Syntax::Return => single_nibble(7),
            Syntax::Load => single_nibble(8),
            Syntax::Store => single_nibble(9),
            Syntax::Halt => single_nibble(15),
            Syntax::Comment(_) => Vec::new(),
        }
    }
}

/// One opcode nibble on its own.
fn single_nibble(v: u8) -> (r: Vec<u4>)
    ensures
        r@ == seq![u4::of(v)],
{
    let mut out: Vec<u4> = Vec::new();
    out.push(u4::from_u8(v));
    proof {
        assert(out@ =~= seq![u4::of(v)]);
    }
    out
}

/// The second pass's work on one node: the substituted node for a label
/// reference in filler or push position, or nothing where the node is kept.
fn resolve_node(node: &Syntax, table: &Vec<(String, usize)>) -> (r: Option<Syntax>)
    ensures
        (match r {
            Some(s) => s@ == resolve_view(node@, table_view(table@)),
            None => resolve_view(node@, table_view(table@)) == node@,
        }),
{
    match node {
        Syntax::Filler(Datum::Label(l)) => {
            let v = resolve_addr_vec(table, l);
            let s = Syntax::Filler(Datum::Literal(v));
            proof {
                assert(s@ == resolve_view(node@, table_view(table@)));
            }
            Some(s)
        },
        Syntax::Push(Datum::Label(l)) => {
            let v = resolve_addr_vec(table, l);
            let s = Syntax::Push(Datum::Literal(v));
            proof {
                assert(s@ == resolve_view(node@, table_view(table@)));
            }
            Some(s)
        },
        _ => None,
    }
}

/// Look a label up in the executable definition table: the last definition
/// of the name wins, matching `lookup_label`.
fn lookup_addr(table: &Vec<(String, usize)>, name: &String) -> (r: Option<usize>)
    ensures
        match r {
            Some(a) => lookup_label(table_view(table@), name@) == Some(a as nat),
            None => lookup_label(table_view(table@), name@) is None,
        },
{
    let mut i: usize = table.len();
    proof {
        assert(table_view(table@).take(table@.len() as int) =~= table_view(table@));
    }
    while i > 0
        invariant
            i <= table@.len(),
            lookup_label(table_view(table@), name@) == lookup_label(
                table_view(table@).take(i as int),
                name@,
            ),
        decreases i,
    {
        i = i - 1;
        let entry = &table[i];
        proof {
            assert(table_view(table@).take(i + 1 as int).last() == (entry.0@, entry.1 as nat));
            assert(table_view(table@).take(i + 1 as int).drop_last() =~= table_view(
                table@,
            ).take(i as int));
        }
        if entry.0 == *name {
            return Some(entry.1);
        }
    }
    None
}

/// The two address nibbles a label reference resolves to, high then low:
/// the defined offset truncated to 8 bits, or zero for an undefined name.
fn resolve_addr_vec(table: &Vec<(String, usize)>, name: &String) -> (r: Vec<u4>)
    ensures
        r@ == addr_nibbles(lookup_label(table_view(table@), name@)),
{
    let a: u8 = match lookup_addr(table, name) {
        Some(o) => (o % 256) as u8,
        None => 0,
    };
    let parts = u4::split(a);
    let mut v: Vec<u4> = Vec::new();
    v.push(parts[0]);
    v.push(parts[1]);
    proof {
        assert(v@ =~= addr_nibbles(lookup_label(table_view(table@), name@)));
    }
    v
}

/// Which instruction a plain, operand-free node is, if it is one: neither a
/// filler, a label, a comment, nor a push.
pub open spec fn plain_opcode(s: SyntaxView) -> Option<Opcode> {
    match s {
        SyntaxView::Nop => Some(Opcode::Nop),
        SyntaxView::Pop => Some(Opcode::Pop),
        SyntaxView::Add => Some(Opcode::Add),
        SyntaxView::Subtract => Some(Opcode::Subtract),
        SyntaxView::JumpNonZero => Some(Opcode::JumpNonZero),
        SyntaxView::Call => Some(Opcode::Call),
        SyntaxView::Return => Some(Opcode::Return),
        SyntaxView::Load => Some(Opcode::Load),
        SyntaxView::Store => Some(Opcode::Store),
        SyntaxView::Halt => Some(Opcode::Halt),
        _ => None,
    }
}

proof fn lemma_round_trip_from(p: Seq<SyntaxView>, j: int)
    requires
        0 <= j <= p.len(),
        forall|i: int| 0 <= i < p.len() ==> #[trigger] plain_opcode(p[i]) is Some,
    ensures
        encode_program(p, j).len() == p.len() - j,
        forall|i: int|
            j <= i < p.len() ==> decode_spec(#[trigger] encode_program(p, j)[i - j]@)
                == plain_opcode(p[i]),
    decreases p.len() - j,
{
    if j < p.len() {
        lemma_round_trip_from(p, j + 1);
        assert(plain_opcode(p[j]) is Some);
        assert forall|v: u8| v <= 15 implies #[trigger] u4::of(v)@ == v by {
            u4::lemma_of_view(v);
        }
        assert forall|i: int|
            j <= i < p.len() implies decode_spec(#[trigger] encode_program(p, j)[i - j]@)
            == plain_opcode(p[i]) by {
            assert(encode_program(p, j) == encode_syntax(p[j]) + encode_program(p, j + 1));
            match p[j] {
                SyntaxView::Nop => {},
                SyntaxView::Pop => {},
                SyntaxView::Add => {},
                SyntaxView::Subtract => {},
                SyntaxView::JumpNonZero => {},
                SyntaxView::Call => {},
                SyntaxView::Return => {},
                SyntaxView::Load => {},
                SyntaxView::Store => {},
                SyntaxView::Halt => {},
                _ => {},
            }
            if i > j {
                assert(decode_spec(encode_program(p, j + 1)[i - (j + 1)]@) == plain_opcode(p[i]));
                assert(encode_program(p, j)[i - j] == encode_program(p, j + 1)[i - (j + 1)]);
            }
        }
    }
}

/// Round-trip: a label-free program of plain instructions — no data, no
/// operands — assembles to exactly one nibble per instruction, and decoding
/// each nibble through the fixed opcode table recovers the original
/// instruction sequence exactly.
pub proof fn lemma_round_trip(p: Seq<SyntaxView>)
    requires
        forall|i: int| 0 <= i < p.len() ==> #[trigger] plain_opcode(p[i]) is Some,
    ensures
        compile_spec(p).len() == p.len(),
        forall|i: int|
            0 <= i < p.len() ==> decode_spec(#[trigger] compile_spec(p)[i]@) == plain_opcode(p[i]),
{
    assert forall|i: int| 0 <= i < p.len() implies resolve_program_view(p)[i] == p[i] by {
        assert(plain_opcode(p[i]) is Some);
    }
    assert(resolve_program_view(p) =~= p);
    lemma_round_trip_from(p, 0);
    assert forall|i: int|
        0 <= i < p.len() implies decode_spec(#[trigger] compile_spec(p)[i]@) == plain_opcode(
        p[i],
    ) by {
        assert(decode_spec(encode_program(p, 0)[i - 0]@) == plain_opcode(p[i]));
        assert(compile_spec(p)[i] == encode_program(p, 0)[i - 0]);
    }
}

proof fn lemma_label_defs_lookup(p: Seq<SyntaxView>, n: int, j: int, name: Seq<char>)
    requires
        0 <= j < n <= p.len(),
        p[j] == SyntaxView::Label(name),
        forall|k: int| j < k < n ==> p[k] != SyntaxView::Label(name),
    ensures
        lookup_label(label_defs(p, n), name) == Some(layout_offset(p, j)),
    decreases n,
{
    if n - 1 == j {
        assert(label_defs(p, n).drop_last() =~= label_defs(p, n - 1));
    } else {
        lemma_label_defs_lookup(p, n - 1, j, name);
        match p[n - 1] {
            SyntaxView::Label(other) => {
                assert(label_defs(p, n).drop_last() =~= label_defs(p, n - 1));
                assert(other != name);
            },
            _ => {},
        }
    }
}

/// Two-pass resolution: a label reference resolves to the nibble offset of
/// the label's definition wherever that definition stands — in particular a
/// label defined only after its reference (a forward reference) resolves to
/// the correct forward address, independent of definition order. The one
/// premise is that no later definition of the same name shadows it.
pub proof fn lemma_label_reference_resolves(p: Seq<SyntaxView>, i: int, j: int, name: Seq<char>)
    requires
        0 <= i < p.len(),
        0 <= j < p.len(),
        p[i] == SyntaxView::Push(DatumView::Label(name)) || p[i] == SyntaxView::Filler(
            DatumView::Label(name),
        ),
        p[j] == SyntaxView::Label(name),
        forall|k: int| j < k < p.len() ==> p[k] != SyntaxView::Label(name),
    ensures
        resolve_program_view(p)[i] == (if p[i] == SyntaxView::Push(DatumView::Label(name)) {
            SyntaxView::Push(DatumView::Literal(addr_nibbles(Some(layout_offset(p, j)))))
        } else {
            SyntaxView::Filler(DatumView::Literal(addr_nibbles(Some(layout_offset(p, j)))))
        }),
{
    lemma_label_defs_lookup(p, p.len() as int, j, name);
}

proof fn lemma_encode_push_len(v: Seq<u4>)
    ensures
        encode_push(v).len() == 2 * v.len(),
    decreases v.len(),
{
    if v.len() > 0 {
        lemma_encode_push_len(v.skip(1));
    }
}

proof fn lemma_resolved_encode_len(s: SyntaxView, t: Seq<(Seq<char>, nat)>)
    ensures
        encode_syntax(resolve_view(s, t)).len() == syntax_len(s),
{
    match s {
        SyntaxView::Push(DatumView::Literal(d)) => {
            lemma_encode_push_len(d);
        },
        SyntaxView::Push(DatumView::Label(name)) => {
            lemma_encode_push_len(addr_nibbles(lookup_label(t, name)));
        },
        _ => {},
    }
}

proof fn lemma_encode_suffix_len(p: Seq<SyntaxView>, q: Seq<SyntaxView>, i: int)
    requires
        q == resolve_program_view(p),
        0 <= i <= p.len(),
    ensures
        encode_program(q, i).len() == layout_offset(p, p.len() as int) - layout_offset(p, i),
    decreases p.len() - i,
{
    if i < p.len() {
        lemma_encode_suffix_len(p, q, i + 1);
        lemma_resolved_encode_len(p[i], label_defs(p, p.len() as int));
        assert(q[i] == resolve_view(p[i], label_defs(p, p.len() as int)));
        assert(encode_program(q, i) == encode_syntax(q[i]) + encode_program(q, i + 1));
    }
}

proof fn lemma_code_position(p: Seq<SyntaxView>, i: int)
    requires
        0 <= i <= p.len(),
    ensures
        layout_offset(p, i) <= compile_spec(p).len(),
        compile_spec(p).subrange(layout_offset(p, i) as int, compile_spec(p).len() as int)
            == encode_program(resolve_program_view(p), i),
    decreases i,
{
    let q = resolve_program_view(p);
    lemma_encode_suffix_len(p, q, 0);
    lemma_encode_suffix_len(p, q, i);
    if i == 0 {
        assert(compile_spec(p).subrange(0, compile_spec(p).len() as int) =~= encode_program(q, 0));
    } else {
        lemma_code_position(p, i - 1);
        lemma_encode_suffix_len(p, q, i - 1);
        lemma_resolved_encode_len(p[i - 1], label_defs(p, p.len() as int));
        assert(q[i - 1] == resolve_view(p[i - 1], label_defs(p, p.len() as int)));
        assert(encode_program(q, i - 1) == encode_syntax(q[i - 1]) + encode_program(q, i));
        let total = compile_spec(p).len() as int;
        let off1 = layout_offset(p, i - 1) as int;
        let off = layout_offset(p, i) as int;
        let len1 = syntax_len(p[i - 1]) as int;
        assert(off == off1 + len1);
        assert forall|k: int| 0 <= k < total - off implies compile_spec(p)[off + k]
            == encode_program(q, i)[k] by {
            assert(compile_spec(p).subrange(off1, total)[len1 + k] == (encode_syntax(q[i - 1])
                + encode_program(q, i))[len1 + k]);
        }
        assert(compile_spec(p).subrange(layout_offset(p, i) as int, compile_spec(p).len() as int)
            =~= encode_program(q, i));
    }
}

/// Address assignment agrees with the final layout: the assembled stream is
/// exactly as long as the accumulated offsets say, and node `i`'s encoding
/// occupies exactly the nibbles from its assigned offset on. A resolved
/// label reference therefore addresses precisely the first nibble of its
/// node's code (`lemma_label_reference_resolves` shows which offset the
/// reference carries).
pub proof fn lemma_assigned_offset_locates_the_code(p: Seq<SyntaxView>, i: int)
    requires
        0 <= i < p.len(),
    ensures
        compile_spec(p).len() == layout_offset(p, p.len() as int),
        layout_offset(p, i) + syntax_len(p[i]) <= compile_spec(p).len(),
        compile_spec(p).subrange(
            layout_offset(p, i) as int,
            layout_offset(p, i) + syntax_len(p[i]) as int,
        ) == encode_syntax(resolve_program_view(p)[i]),
{
    let q = resolve_program_view(p);
    lemma_encode_suffix_len(p, q, 0);
    lemma_encode_suffix_len(p, q, i);
    lemma_encode_suffix_len(p, q, i + 1);
    lemma_code_position(p, i);
    lemma_resolved_encode_len(p[i], label_defs(p, p.len() as int));
    assert(q[i] == resolve_view(p[i], label_defs(p, p.len() as int)));
    assert(encode_program(q, i) == encode_syntax(q[i]) + encode_program(q, i + 1));
    assert(compile_spec(p).subrange(
        layout_offset(p, i) as int,
        layout_offset(p, i) + syntax_len(p[i]) as int,
    ) =~= encode_syntax(q[i]));
}

/// Why a program text was rejected.
#[derive(Clone, Copy, Debug, PartialEq, Eq, Structural)]
pub enum ParseErrorKind {
    /// A token begins with a character no rule recognizes.
    UnrecognizedToken,
    /// A datum position holds neither a hex literal nor a label reference.
    MalformedLiteral,
    /// A label sigil is not followed by an identifier.
    MalformedLabel,
    /// A comment's opening parenthesis is never closed.
    UnterminatedComment,
}

/// A fatal parse failure: the character position in the text at which the
/// grammar was violated, and what was wrong there. No partial program is
/// produced.
#[derive(Clone, Copy, Debug, PartialEq, Eq, Structural)]
pub struct ParseError {
    pub position: usize,
    pub kind: ParseErrorKind,
}

/// What the whitespace separating tokens is. Resolved by
/// `is_whitespace_char` below.
pub uninterp spec fn whitespace(c: char) -> bool;

/// Relies on char::is_whitespace: a pure predicate of the character alone
/// (the Unicode `White_Space` property); among the ASCII characters exactly
/// the space and the five controls 0x09 through 0x0D have it.
#[verifier::external_body]
fn is_whitespace_char(c: char) -> (r: bool)
    ensures
        r == whitespace(c),
        (c as u32) < 128 ==> (r <==> (c == ' ' || (9 <= c as u32 && c as u32 <= 13))),
{
    c.is_whitespace()
}

/// Whether a character may open an identifier: an ASCII letter or `_`.
pub open spec fn ident_start(c: char) -> bool {
    (65 <= c as u32 && c as u32 <= 90) || (97 <= c as u32 && c as u32 <= 122) || c == '_'
}

/// Whether a character may continue an identifier: an identifier opener or
/// an ASCII digit.
pub open spec fn ident_char(c: char) -> bool {
    ident_start(c) || (48 <= c as u32 && c as u32 <= 57)
}

fn is_ident_start_char(c: char) -> (r: bool)
    ensures
        r == ident_start(c),
{
    let u = c as u32;
    (65 <= u && u <= 90) || (97 <= u && u <= 122) || c == '_'
}

fn is_ident_char_exec(c: char) -> (r: bool)
    ensures
        r == ident_char(c),
{
    let u = c as u32;
    is_ident_start_char(c) || (48 <= u && u <= 57)
}

/// Where the run of hex digits beginning at `i` ends: the first position at
/// or after `i` holding no hex digit.
pub open spec fn hex_run_end(s: Seq<char>, i: int) -> int
    decreases s.len() - i,
{
    if !(0 <= i < s.len()) {
        i
    } else if hex_val(s[i]) is Some {
        hex_run_end(s, i + 1)
    } else {
        i
    }
}

proof fn lemma_hex_run_end_bounds(s: Seq<char>, i: int)
    requires
        0 <= i,
    ensures
        i <= hex_run_end(s, i),
        i <= s.len() ==> hex_run_end(s, i) <= s.len(),
    decreases s.len() - i,
{
    if 0 <= i < s.len() && hex_val(s[i]) is Some {
        lemma_hex_run_end_bounds(s, i + 1);
    }
}

/// Where the run of identifier characters beginning at `i` ends.
pub open spec fn ident_run_end(s: Seq<char>, i: int) -> int
    decreases s.len() - i,
{
    if !(0 <= i < s.len()) {
        i
    } else if ident_char(s[i]) {
        ident_run_end(s, i + 1)
    } else {
        i
    }
}

proof fn lemma_ident_run_end_bounds(s: Seq<char>, i: int)
    requires
        0 <= i,
    ensures
        i <= ident_run_end(s, i),
        i <= s.len() ==> ident_run_end(s, i) <= s.len(),
    decreases s.len() - i,
{
    if 0 <= i < s.len() && ident_char(s[i]) {
        lemma_ident_run_end_bounds(s, i + 1);
    }
}

/// The position of the first closing parenthesis at or after `i`, if any.
pub open spec fn find_close(s: Seq<char>, i: int) -> Option<int>
    decreases s.len() - i,
{
    if !(0 <= i < s.len()) {
        None
    } else if s[i] == ')' {
        Some(i)
    } else {
        find_close(s, i + 1)
    }
}

proof fn lemma_find_close_bounds(s: Seq<char>, i: int)
    requires
        0 <= i,
    ensures
        (match find_close(s, i) {
            Some(j) => i <= j < s.len(),
            None => true,
        }),
    decreases s.len() - i,
{
    if 0 <= i < s.len() && s[i] != ')' {
        lemma_find_close_bounds(s, i + 1);
    }
}

/// The value of a hex digit character, zero for any other character.
pub open spec fn hex_val_or_zero(c: char) -> u8 {
    match hex_val(c) {
        Some(d) => d,
        None => 0,
    }
}

/// The nibbles a literal's hex digits `s[i..j]` denote, one per digit, in
/// sequence order.
pub open spec fn lit_nibbles(s: Seq<char>, i: int, j: int) -> Seq<u4> {
    Seq::new((j - i) as nat, |k: int| u4::of(hex_val_or_zero(s[i + k])))
}

/// The grammar of a label name at position `p`: an identifier, whose run of
/// characters ends the token.
pub open spec fn parse_label_name(s: Seq<char>, p: int) -> Result<(Seq<char>, int), ParseError> {
    if p < s.len() && ident_start(s[p]) {
        let j = ident_run_end(s, p + 1);
        Ok((s.subrange(p, j), j))
    } else {
        Err(ParseError { position: p as usize, kind: ParseErrorKind::MalformedLabel })
    }
}

/// The grammar of a datum at position `p`: `x` followed by one or more hex
/// digits, each digit one nibble, or `'` followed by an identifier naming a
/// label.
pub open spec fn parse_datum(s: Seq<char>, p: int) -> Result<(DatumView, int), ParseError> {
    if p < s.len() && s[p] == 'x' {
        let j = hex_run_end(s, p + 1);
        if j == p + 1 {
            Err(ParseError { position: (p + 1) as usize, kind: ParseErrorKind::MalformedLiteral })
        } else {
            Ok((DatumView::Literal(lit_nibbles(s, p + 1, j)), j))
        }
    } else if p < s.len() && s[p] == '\'' {
        match parse_label_name(s, p + 1) {
            Ok((name, j)) => Ok((DatumView::Label(name), j)),
            Err(e) => Err(e),
        }
    } else {
        Err(ParseError { position: p as usize, kind: ParseErrorKind::MalformedLiteral })
    }
}

/// The grammar of a whole program from position `i` on, with the nodes
/// parsed so far: whitespace-separated tokens, each selected by its leading
/// character — `.` a data filler, `'` a label definition, `(` a comment
/// running to the matching close, single-character sigils for the
/// instructions, and a datum after `.` and `<`. Any other character is a
/// fatal parse failure. The source grammar binds both Add and Subtract to
/// `+`, so Subtract is unreachable from text and is kept only for programs
/// built programmatically.
pub open spec fn parse_prog(s: Seq<char>, i: int, acc: Seq<SyntaxView>) -> Result<
    Seq<SyntaxView>,
    ParseError,
>
    decreases s.len() - i
        when 0 <= i
        via parse_prog_decreases
{
    if i >= s.len() {
        Ok(acc)
    } else {
        let c = s[i];
        if whitespace(c) {
            parse_prog(s, i + 1, acc)
        } else if c == '?' {
            parse_prog(s, i + 1, acc.push(SyntaxView::Nop))
        } else if c == '>' {
            parse_prog(s, i + 1, acc.push(SyntaxView::Pop))
        } else if c == '+' {
            parse_prog(s, i + 1, acc.push(SyntaxView::Add))
        } else if c == 'j' {
            parse_prog(s, i + 1, acc.push(SyntaxView::JumpNonZero))
        } else if c == 'c' {
            parse_prog(s, i + 1, acc.push(SyntaxView::Call))
        } else if c == 'r' {
            parse_prog(s, i + 1, acc.push(SyntaxView::Return))
        } else if c == 'l' {
            parse_prog(s, i + 1, acc.push(SyntaxView::Load))
        } else if c == 's' {
            parse_prog(s, i + 1, acc.push(SyntaxView::Store))
        } else if c == '!' {
            parse_prog(s, i + 1, acc.push(SyntaxView::Halt))
        } else if c == '(' {
            match find_close(s, i + 1) {
                Some(j) => parse_prog(s, j + 1, acc.push(SyntaxView::Comment(s.subrange(i + 1, j)))),
                None => Err(
                    ParseError { position: i as usize, kind: ParseErrorKind::UnterminatedComment },
                ),
            }
        } else if c == '.' {
            match parse_datum(s, i + 1) {
                Ok((d, j)) => parse_prog(s, j, acc.push(SyntaxView::Filler(d))),
                Err(e) => Err(e),
            }
        } else if c == '<' {
            match parse_datum(s, i + 1) {
                Ok((d, j)) => parse_prog(s, j, acc.push(SyntaxView::Push(d))),
                Err(e) => Err(e),
            }
        } else if c == '\'' {
            match parse_label_name(s, i + 1) {
                Ok((name, j)) => parse_prog(s, j, acc.push(SyntaxView::Label(name))),
                Err(e) => Err(e),
            }
        } else {
            Err(ParseError { position: i as usize, kind: ParseErrorKind::UnrecognizedToken })
        }
    }
}

#[via_fn]
proof fn parse_prog_decreases(s: Seq<char>, i: int, acc: Seq<SyntaxView>) {
    if 0 <= i < s.len() {
        lemma_find_close_bounds(s, i + 1);
        lemma_hex_run_end_bounds(s, i + 2);
        lemma_ident_run_end_bounds(s, i + 2);
        lemma_ident_run_end_bounds(s, i + 3);
    }
}

/// Append one parsed node, keeping the view of the list in step.
fn push_node(out: &mut Vec<Syntax>, s: Syntax)
    ensures
        views_of(final(out)@) == views_of(old(out)@).push(s@),
{
    let ghost before = out@;
    out.push(s);
    proof {
        assert(views_of(out@) =~= views_of(before).push(s@));
    }
}

/// Scan for the first closing parenthesis at or after `from`.
fn scan_close(src: &str, from: usize) -> (r: Option<usize>)
    requires
        from <= src@.len(),
    ensures
        (match r {
            Some(j) => find_close(src@, from as int) == Some(j as int) && from <= j
                < src@.len(),
            None => find_close(src@, from as int) is None,
        }),
{
    let n = src.unicode_len();
    let mut j = from;
    while j < n
        invariant
            from <= j <= n,
            n == src@.len(),
            find_close(src@, from as int) == find_close(src@, j as int),
        decreases n - j,
    {
        let c = src.get_char(j);
        if c == ')' {
            return Some(j);
        }
        j = j + 1;
    }
    None
}

/// Parse an identifier at `p` into an owned label name.
fn parse_label_exec(src: &str, p: usize) -> (r: Result<(String, usize), ParseError>)
    requires
        p <= src@.len(),
    ensures
        (match r {
            Ok((name, j)) => parse_label_name(src@, p as int) == Ok::<(Seq<char>, int), ParseError>(
                (name@, j as int),
            ) && p < j <= src@.len(),
            Err(e) => parse_label_name(src@, p as int) == Err::<(Seq<char>, int), ParseError>(e),
        }),
{
    let n = src.unicode_len();
    if p < n {
        let c = src.get_char(p);
        if is_ident_start_char(c) {
            let mut j = p + 1;
            while j < n
                invariant
                    p + 1 <= j <= n,
                    n == src@.len(),
                    ident_run_end(src@, (p + 1) as int) == ident_run_end(src@, j as int),
                ensures
                    p + 1 <= j <= n,
                    ident_run_end(src@, (p + 1) as int) == j as int,
                decreases n - j,
            {
                let c2 = src.get_char(j);
                if !is_ident_char_exec(c2) {
                    break ;
                }
                j = j + 1;
            }
            let name = src.substring_char(p, j).to_owned();
            return Ok((name, j));
        }
    }
    Err(ParseError { position: p, kind: ParseErrorKind::MalformedLabel })
}

/// Parse a datum at `p`: a hex literal or a label reference.
fn parse_datum_exec(src: &str, p: usize) -> (r: Result<(Datum, usize), ParseError>)
    requires
        p <= src@.len(),
    ensures
        (match r {
            Ok((d, j)) => parse_datum(src@, p as int) == Ok::<(DatumView, int), ParseError>(
                (d@, j as int),
            ) && p < j <= src@.len(),
            Err(e) => parse_datum(src@, p as int) == Err::<(DatumView, int), ParseError>(e),
        }),
{
    let n = src.unicode_len();
    if p < n {
        let c = src.get_char(p);
        if c == 'x' {
            let mut j = p + 1;
            while j < n
                invariant
                    p + 1 <= j <= n,
                    n == src@.len(),
                    hex_run_end(src@, (p + 1) as int) == hex_run_end(src@, j as int),
                ensures
                    p + 1 <= j <= n,
                    hex_run_end(src@, (p + 1) as int) == j as int,
                decreases n - j,
            {
                let c2 = src.get_char(j);
                if hex_digit(c2).is_none() {
                    break ;
                }
                j = j + 1;
            }
            if j == p + 1 {
                return Err(
                    ParseError { position: p + 1, kind: ParseErrorKind::MalformedLiteral },
                );
            }
            let mut v: Vec<u4> = Vec::new();
            let mut k = p + 1;
            proof {
                assert(v@ =~= lit_nibbles(src@, (p + 1) as int, (p + 1) as int));
            }
            while k < j
                invariant
                    p + 1 <= k <= j <= n,
                    n == src@.len(),
                    hex_run_end(src@, (p + 1) as int) == j as int,
                    hex_run_end(src@, k as int) == j as int,
                    v@ == lit_nibbles(src@, (p + 1) as int, k as int),
                decreases j - k,
            {
                let c2 = src.get_char(k);
                let d = match hex_digit(c2) {
                    Some(x) => x,
                    None => 0,
                };
                v.push(u4::from_u8(d));
                proof {
                    assert(v@ =~= lit_nibbles(src@, (p + 1) as int, (k + 1) as int));
                }
                k = k + 1;
            }
            return Ok((Datum::Literal(v), j));
        }
        if c == '\'' {
            return (match parse_label_exec(src, p + 1) {
                Ok((name, j)) => Ok((Datum::Label(name), j)),
                Err(e) => Err(e),
            });
        }
    }
    Err(ParseError { position: p, kind: ParseErrorKind::MalformedLiteral })
}

/// Parse a whole program text into its instruction list, exactly as the
/// grammar `parse_prog` states it. Parse failure is fatal and reported with
/// its position: no partial program is produced.
pub fn program(src: &str) -> (r: Result<Vec<Syntax>, ParseError>)
    ensures
        (match r {
            Ok(v) => parse_prog(src@, 0, Seq::empty()) == Ok::<Seq<SyntaxView>, ParseError>(
                views_of(v@),
            ),
            Err(e) => parse_prog(src@, 0, Seq::empty()) == Err::<Seq<SyntaxView>, ParseError>(e),
        }),
{
    let n = src.unicode_len();
    let mut out: Vec<Syntax> = Vec::new();
    let mut i: usize = 0;
    proof {
        assert(views_of(out@) =~= Seq::<SyntaxView>::empty());
    }
    while i < n
        invariant
            i <= n,
            n == src@.len(),
            parse_prog(src@, 0, Seq::empty()) == parse_prog(src@, i as int, views_of(out@)),
        decreases n - i,
    {
        let c = src.get_char(i);
        if is_whitespace_char(c) {
            i = i + 1;
        } else if c == '?' {
            push_node(&mut out, Syntax::Nop);
            i = i + 1;
        } else if c == '>' {
            push_node(&mut out, Syntax::Pop);
            i = i + 1;
        } else if c == '+' {
            push_node(&mut out, Syntax::Add);
            i = i + 1;
        } else if c == 'j' {
            push_node(&mut out, Syntax::JumpNonZero);
            i = i + 1;
        } else if c == 'c' {
            push_node(&mut out, Syntax::Call);
            i = i + 1;
        } else if c == 'r' {
            push_node(&mut out, Syntax::Return);
            i = i + 1;
        } else if c == 'l' {
            push_node(&mut out, Syntax::Load);
            i = i + 1;
        } else if c == 's' {
            push_node(&mut out, Syntax::Store);
            i = i + 1;
        } else if c == '!' {
            push_node(&mut out, Syntax::Halt);
            i = i + 1;
        } else if c == '(' {
            match scan_close(src, i + 1) {
                Some(j) => {
                    let text = src.substring_char(i + 1, j).to_owned();
                    push_node(&mut out, Syntax::Comment(text));
                    i = j + 1;
                },
                None => {
                    return Err(
                        ParseError { position: i, kind: ParseErrorKind::UnterminatedComment },
                    );
                },
            }
        } else if c == '.' {
            match parse_datum_exec(src, i + 1) {
                Ok((d, j)) => {
                    push_node(&mut out, Syntax::Filler(d));
                    i = j;
                },
                Err(e) => {
                    return Err(e);
                },
            }
        } else if c == '<' {
            match parse_datum_exec(src, i + 1) {
                Ok((d, j)) => {
                    push_node(&mut out, Syntax::Push(d));
                    i = j;
                },
                Err(e) => {
                    return Err(e);
                },
            }
        } else if c == '\'' {
            match parse_label_exec(src, i + 1) {
                Ok((name, j)) => {
                    push_node(&mut out, Syntax::Label(name));
                    i = j;
                },
                Err(e) => {
                    return Err(e);
                },
            }
        } else {
            return Err(ParseError { position: i, kind: ParseErrorKind::UnrecognizedToken });
        }
    }
    Ok(out)
}

} // verus!
