//! The CPU core: a 256-cell open-bus memory model, the register set, the
//! fixed opcode table and the fetch/execute cycle.
//!
//! Memory is an ordered sequence of exactly 256 cells, each either
//! *unwritten* (`None`) or holding one nibble. Reading an unwritten cell does
//! not return zero: it returns whatever the machine's last successful read
//! produced (a one-nibble latch on the CPU, not the bus), modelling a
//! tri-state data bus that floats to the last driven value.

use crate::nibble::u4;
use vstd::prelude::*;

verus! {

broadcast use vstd::array::group_array_axioms;

/// The run state of one machine. `Halted` is terminal: a halted machine's
/// cycle is a no-op.
#[derive(Clone, Copy, Debug, PartialEq, Eq, Structural)]
pub enum State {
    Running,
    Halted,
}

/// The eleven defined instructions of the fixed opcode table.
#[derive(Clone, Copy, Debug, PartialEq, Eq, Structural)]
pub enum Opcode {
    /// Nothing.
    Nop,
    /// Pushes the next nibble onto the stack.
    Push,
    /// Drops the top of the stack.
    Pop,
    /// Pops an initial carry, then ripples it through the stack cells,
    /// carrying as far back as it needs to.
    Add,
    /// Pops a nibble, negates it, then ripples exactly as Add.
    Subtract,
    /// Pops two address nibbles and a condition; jumps if the condition is
    /// nonzero.
    JumpNonZero,
    /// Pops an address, jumps to it, and pushes the old instruction pointer
    /// plus one.
    Call,
    /// Pops an address and jumps to it.
    Return,
    /// Pops an address, pushes the nibble read at that address.
    Load,
    /// Pops an address and a nibble, writes the nibble to that address.
    Store,
    /// Stops the machine.
    Halt,
}

/// The fixed decode table: values 0 through 9 map to the first ten
/// instructions, 15 maps to Halt, and every other nibble value is undefined.
pub open spec fn decode_spec(v: u8) -> Option<Opcode> {
    if v == 0 {
        Some(Opcode::Nop)
    } else if v == 1 {
        Some(Opcode::Push)
    } else if v == 2 {
        Some(Opcode::Pop)
    } else if v == 3 {
        Some(Opcode::Add)
    } else if v == 4 {
        Some(Opcode::Subtract)
    } else if v == 5 {
        Some(Opcode::JumpNonZero)
    } else if v == 6 {
        Some(Opcode::Call)
    } else if v == 7 {
        Some(Opcode::Return)
    } else if v == 8 {
        Some(Opcode::Load)
    } else if v == 9 {
        Some(Opcode::Store)
    } else if v == 15 {
        Some(Opcode::Halt)
    } else {
        None
    }
}

impl Opcode {
    /// Look a nibble up in the fixed opcode table.
    pub fn decode(n: u4) -> (r: Option<Opcode>)
        ensures
            r == decode_spec(n@),
    {
        match n.to_u8() {
            0 => Some(Opcode::Nop),
            1 => Some(Opcode::Push),
            2 => Some(Opcode::Pop),
            3 => Some(Opcode::Add),
            4 => Some(Opcode::Subtract),
            5 => Some(Opcode::JumpNonZero),
            6 => Some(Opcode::Call),
            7 => Some(Opcode::Return),
            8 => Some(Opcode::Load),
            9 => Some(Opcode::Store),
            15 => Some(Opcode::Halt),
            _ => None,
        }
    }
}

/// Increment in the 8-bit address ring: 255 wraps to 0.
pub open spec fn wrap_inc(x: u8) -> u8 {
    if x == 255 {
        0
    } else {
        (x + 1) as u8
    }
}

/// Decrement in the 8-bit address ring: 0 wraps to 255.
pub open spec fn wrap_dec(x: u8) -> u8 {
    if x == 0 {
        255
    } else {
        (x - 1) as u8
    }
}

/// What a read at `addr` returns under open-bus semantics: the cell's nibble
/// if the cell was ever written, else the current latch value.
pub open spec fn spec_read(m: Seq<Option<u4>>, latch: u4, addr: u8) -> u4 {
    match m[addr as int] {
        Some(v) => v,
        None => latch,
    }
}

/// An address operand joined from its high and low nibble.
pub open spec fn spec_combine(high: u4, low: u4) -> u8 {
    (high@ * 16 + low@) as u8
}

/// One machine stepping against one memory. The registers are an 8-bit
/// instruction pointer, an 8-bit stack pointer (both wrap), the one-nibble
/// last-read latch and the run state. Memory is passed to each operation, so
/// several independently stepped machines can drive one shared buffer.
#[derive(Clone, Copy, Debug)]
pub struct Vm {
    pub state: State,
    pub last_read: u4,
    pub stack_pointer: u8,
    pub instruction_pointer: u8,
}

/// The machine after its instruction pointer advanced by one, wrapping.
pub open spec fn spec_advance(v: Vm) -> Vm {
    Vm { instruction_pointer: wrap_inc(v.instruction_pointer), ..v }
}

/// The machine and the value after one pop: the value is read at the stack
/// pointer (open bus), the latch takes that value and the stack pointer
/// decrements, wrapping.
pub open spec fn spec_pop(v: Vm, m: Seq<Option<u4>>) -> (Vm, u4) {
    let val = spec_read(m, v.last_read, v.stack_pointer);
    (Vm { last_read: val, stack_pointer: wrap_dec(v.stack_pointer), ..v }, val)
}

/// The machine and the memory after one push: the stack pointer increments,
/// wrapping, then the value is written there and latched.
pub open spec fn spec_push(v: Vm, m: Seq<Option<u4>>, data: u4) -> (Vm, Seq<Option<u4>>) {
    let sp = wrap_inc(v.stack_pointer);
    (
        Vm { last_read: data, stack_pointer: sp, ..v },
        m.update(sp as int, Some(data)),
    )
}

/// The carry ripple that Add and Subtract perform, with explicit fuel. One
/// step reads the operand at `addr` (open bus), adds the carry, writes the
/// truncated sum back and latches it; the ripple ends as soon as a zero carry
/// is produced, else it moves one address toward lower addresses. `None`
/// means the fuel ran out before the carry died; the executable loop's result
/// is the unique `Some` this function takes for any sufficient fuel.
pub open spec fn ripple(
    m: Seq<Option<u4>>,
    latch: u4,
    addr: u8,
    carry: u8,
    fuel: nat,
) -> Option<(Seq<Option<u4>>, u4)>
    decreases fuel,
{
    let operand = spec_read(m, latch, addr);
    let sum = operand@ + carry;
    let res = u4::of((sum % 16) as u8);
    let m1 = m.update(addr as int, Some(res));
    if sum / 16 == 0 {
        Some((m1, res))
    } else if fuel == 0 {
        None
    } else {
        ripple(m1, res, wrap_dec(addr), (sum / 16) as u8, (fuel - 1) as nat)
    }
}

/// The address the ripple visits at its step `j`: `j` cells below the
/// starting stack pointer in the 8-bit address ring.
pub open spec fn ripple_addr(sp: int, j: int) -> int {
    (sp - j) % 256
}

proof fn lemma_ripple_addr_bound(sp: int, j: int)
    ensures
        0 <= ripple_addr(sp, j) < 256,
{
    vstd::arithmetic::div_mod::lemma_mod_division_less_than_divisor(sp - j, 256);
}

proof fn lemma_ripple_addr_zero(sp: u8)
    ensures
        ripple_addr(sp as int, 0) == sp as int,
{
    vstd::arithmetic::div_mod::lemma_small_mod(sp as nat, 256);
}

proof fn lemma_ripple_addr_full(sp: u8)
    ensures
        ripple_addr(sp as int, 256) == sp as int,
{
    vstd::arithmetic::div_mod::lemma_fundamental_div_mod_converse_mod(
        sp as int - 256,
        256,
        -1,
        sp as int,
    );
}

proof fn lemma_ripple_addr_step(sp: int, j: int)
    ensures
        ripple_addr(sp, j + 1) == (if ripple_addr(sp, j) == 0 {
            255int
        } else {
            ripple_addr(sp, j) - 1
        }),
{
    let z = sp - j;
    vstd::arithmetic::div_mod::lemma_fundamental_div_mod(z, 256);
    vstd::arithmetic::div_mod::lemma_mod_division_less_than_divisor(z, 256);
    if z % 256 == 0 {
        vstd::arithmetic::div_mod::lemma_fundamental_div_mod_converse_mod(
            z - 1,
            256,
            z / 256 - 1,
            255,
        );
    } else {
        vstd::arithmetic::div_mod::lemma_fundamental_div_mod_converse_mod(
            z - 1,
            256,
            z / 256,
            z % 256 - 1,
        );
    }
}

/// Within one wrap of the ring, the ripple never revisits an address.
proof fn lemma_ripple_addr_distinct(sp: int, a: int, b: int)
    requires
        0 <= a < b < 256,
    ensures
        ripple_addr(sp, a) != ripple_addr(sp, b),
{
    let x = sp - a;
    let y = sp - b;
    vstd::arithmetic::div_mod::lemma_fundamental_div_mod(x, 256);
    vstd::arithmetic::div_mod::lemma_fundamental_div_mod(y, 256);
    if x % 256 == y % 256 {
        assert(b - a == 256 * (x / 256) - 256 * (y / 256));
        assert(b - a == 256 * (x / 256 - y / 256)) by (nonlinear_arith)
            requires
                b - a == 256 * (x / 256) - 256 * (y / 256),
        ;
        let q = x / 256 - y / 256;
        assert(q >= 1 ==> 256 * q >= 256) by (nonlinear_arith);
        assert(q <= 0 ==> 256 * q <= 0) by (nonlinear_arith);
        assert(false);
    }
}

/// More fuel never changes a ripple that already finished.
pub proof fn lemma_ripple_fuel_mono(
    m: Seq<Option<u4>>,
    latch: u4,
    addr: u8,
    carry: u8,
    f1: nat,
    f2: nat,
)
    requires
        f1 <= f2,
        ripple(m, latch, addr, carry, f1) is Some,
    ensures
        ripple(m, latch, addr, carry, f2) == ripple(m, latch, addr, carry, f1),
    decreases f1,
{
    let operand = spec_read(m, latch, addr);
    let sum = operand@ + carry;
    if sum / 16 == 0 {
    } else {
        let res = u4::of((sum % 16) as u8);
        let m1 = m.update(addr as int, Some(res));
        lemma_ripple_fuel_mono(
            m1,
            res,
            wrap_dec(addr),
            (sum / 16) as u8,
            (f1 - 1) as nat,
            (f2 - 1) as nat,
        );
    }
}

/// What one call of `cycle` does: the full fetch/decode/execute relation
/// between the machine and memory before and after. A halted machine does
/// nothing; an undefined opcode silently halts the machine; each defined
/// opcode acts as the instruction table states. The relation determines the
/// outcome uniquely (`lemma_cycle_rel_deterministic`).
pub open spec fn cycle_rel(v0: Vm, m0: Seq<Option<u4>>, v1: Vm, m1: Seq<Option<u4>>) -> bool {
    if v0.state is Halted {
        v1 == v0 && m1 == m0
    } else {
        let fetched = spec_read(m0, v0.last_read, v0.instruction_pointer);
        let v = Vm { last_read: fetched, ..v0 };
        match decode_spec(fetched@) {
            None => v1 == (Vm { state: State::Halted, ..v }) && m1 == m0,
            Some(op) => match op {
                Opcode::Nop => v1 == spec_advance(v) && m1 == m0,
                Opcode::Push => {
                    let va = spec_advance(v);
                    let data = spec_read(m0, va.last_read, va.instruction_pointer);
                    let vb = spec_advance(Vm { last_read: data, ..va });
                    (v1, m1) == spec_push(vb, m0, data)
                },
                Opcode::Pop => v1 == spec_pop(spec_advance(v), m0).0 && m1 == m0,
                Opcode::Add => {
                    let (vb, carry) = spec_pop(spec_advance(v), m0);
                    v1.state == vb.state && v1.stack_pointer == vb.stack_pointer
                        && v1.instruction_pointer == vb.instruction_pointer && ripple(
                        m0,
                        vb.last_read,
                        vb.stack_pointer,
                        carry@,
                        256,
                    ) == Some((m1, v1.last_read))
                },
                Opcode::Subtract => {
                    let (vb, popped) = spec_pop(v, m0);
                    let neg = ((16 - popped@) % 16) as u8;
                    v1.state == vb.state && v1.stack_pointer == vb.stack_pointer
                        && v1.instruction_pointer == vb.instruction_pointer && ripple(
                        m0,
                        vb.last_read,
                        vb.stack_pointer,
                        neg,
                        256,
                    ) == Some((m1, v1.last_read))
                },
                Opcode::JumpNonZero => {
                    let (va, low) = spec_pop(v, m0);
                    let (vb, high) = spec_pop(va, m0);
                    let (vc, cond) = spec_pop(vb, m0);
                    m1 == m0 && v1 == (if cond@ == 0 {
                        spec_advance(vc)
                    } else {
                        Vm { instruction_pointer: spec_combine(high, low), ..vc }
                    })
                },
                Opcode::Call => {
                    let (va, low) = spec_pop(v, m0);
                    let (vb, high) = spec_pop(va, m0);
                    let ret = wrap_inc(vb.instruction_pointer);
                    let vc = Vm { instruction_pointer: spec_combine(high, low), ..vb };
                    let (vd, md) = spec_push(vc, m0, u4::of(ret / 16));
                    (v1, m1) == spec_push(vd, md, u4::of(ret))
                },
                Opcode::Return => {
                    let (va, low) = spec_pop(v, m0);
                    let (vb, high) = spec_pop(va, m0);
                    m1 == m0 && v1 == (Vm {
                        instruction_pointer: spec_combine(high, low),
                        ..vb
                    })
                },
                Opcode::Load => {
                    let (va, low) = spec_pop(v, m0);
                    let (vb, high) = spec_pop(va, m0);
                    let data = spec_read(m0, vb.last_read, spec_combine(high, low));
                    let (vd, md) = spec_push(Vm { last_read: data, ..vb }, m0, data);
                    v1 == spec_advance(vd) && m1 == md
                },
                Opcode::Store => {
                    let (va, low) = spec_pop(v, m0);
                    let (vb, high) = spec_pop(va, m0);
                    let (vc, data) = spec_pop(vb, m0);
                    m1 == m0.update(spec_combine(high, low) as int, Some(data)) && v1
                        == spec_advance(Vm { last_read: data, ..vc })
                },
                Opcode::Halt => v1 == (Vm { state: State::Halted, ..v }) && m1 == m0,
            },
        }
    }
}

impl Vm {
    /// A freshly reset machine: running, all registers zero.
    pub fn new() -> (r: Self)
        ensures
            r.state == State::Running,
            r.last_read@ == 0,
            r.stack_pointer == 0,
            r.instruction_pointer == 0,
    {
        Self {
            state: State::Running,
            last_read: u4::from_u8(0),
            stack_pointer: 0,
            instruction_pointer: 0,
        }
    }

    /// Read one cell, emulating open bus: a written cell returns its nibble
    /// and latches it; an unwritten cell returns the latch unchanged.
    pub fn read(&mut self, memory: &[Option<u4>; 256], addr: u8) -> (r: u4)
        ensures
            r == spec_read(memory@, old(self).last_read, addr),
            final(self).last_read == r,
            final(self).state == old(self).state,
            final(self).stack_pointer == old(self).stack_pointer,
            final(self).instruction_pointer == old(self).instruction_pointer,
    {
        match memory[addr as usize] {
            Some(n) => {
                self.last_read = n;
                n
            },
            None => self.last_read,
        }
    }

    /// Whether a cell has never been written. Used by surrounding tooling,
    /// not by instruction semantics.
    pub fn is_open_bus(&mut self, memory: &[Option<u4>; 256], addr: u8) -> (r: bool)
        ensures
            r == (memory@[addr as int] is None),
            *final(self) == *old(self),
    {
        memory[addr as usize].is_none()
    }

    /// Write one cell. A write always sets the cell and updates the latch to
    /// the written value.
    pub fn write(&mut self, memory: &mut [Option<u4>; 256], addr: u8, data: u4)
        ensures
            final(memory)@ == old(memory)@.update(addr as int, Some(data)),
            final(self).last_read == data,
            final(self).state == old(self).state,
            final(self).stack_pointer == old(self).stack_pointer,
            final(self).instruction_pointer == old(self).instruction_pointer,
    {
        self.last_read = data;
        memory[addr as usize] = Some(data);
    }

    /// Push: increment the stack pointer (wrapping past 255 to 0), then
    /// write the value there.
    pub fn push(&mut self, memory: &mut [Option<u4>; 256], data: u4)
        ensures
            (*final(self), final(memory)@) == spec_push(*old(self), old(memory)@, data),
    {
        let sp = if self.stack_pointer == 255 {
            0
        } else {
            self.stack_pointer + 1
        };
        self.stack_pointer = sp;
        self.write(memory, sp, data);
    }

    /// Pop: read the value at the stack pointer (open bus), then decrement
    /// the stack pointer (wrapping past 0 to 255).
    pub fn pop(&mut self, memory: &[Option<u4>; 256]) -> (r: u4)
        ensures
            (*final(self), r) == spec_pop(*old(self), memory@),
    {
        let sp = self.stack_pointer;
        let val = self.read(memory, sp);
        self.stack_pointer = if sp == 0 {
            255
        } else {
            sp - 1
        };
        val
    }

    /// Advance the instruction pointer by one, wrapping past 255 to 0.
    pub fn advance_ip(&mut self)
        ensures
            *final(self) == spec_advance(*old(self)),
    {
        self.instruction_pointer = if self.instruction_pointer == 255 {
            0
        } else {
            self.instruction_pointer + 1
        };
    }

    /// The in-place carry ripple shared by Add and Subtract: starting at the
    /// current stack pointer, read, add the carry, write back, and move one
    /// address down while the carry is nonzero.
    fn run_ripple(&mut self, memory: &mut [Option<u4>; 256], carry0: u4)
        ensures
            final(self).state == old(self).state,
            final(self).stack_pointer == old(self).stack_pointer,
            final(self).instruction_pointer == old(self).instruction_pointer,
            ripple(old(memory)@, old(self).last_read, old(self).stack_pointer, carry0@, 256)
                == Some((final(memory)@, final(self).last_read)),
    {
        let ghost v0 = *self;
        let ghost m0 = memory@;
        let ghost sp = v0.stack_pointer as int;
        let mut carry = carry0;
        let mut addr = self.stack_pointer;
        let ghost mut k: nat = 0;
        proof {
            u4::lemma_view_bound(carry0);
            lemma_ripple_addr_zero(v0.stack_pointer);
        }
        loop
            invariant_except_break
                carry@ <= 15,
                k <= 256,
                addr as int == ripple_addr(sp, k as int),
                k >= 1 ==> carry@ == 1,
                k >= 1 ==> (memory@[sp] matches Some(w) && w@ <= 14),
                forall|j: int|
                    1 <= j < k ==> memory@[#[trigger] ripple_addr(sp, j)] == Some(u4::of(0)),
                forall|f: nat|
                    ripple(m0, v0.last_read, v0.stack_pointer, carry0@, (k + f) as nat)
                        == #[trigger] ripple(memory@, self.last_read, addr, carry@, f),
            invariant
                self.state == v0.state,
                self.stack_pointer == v0.stack_pointer,
                self.instruction_pointer == v0.instruction_pointer,
                sp == v0.stack_pointer as int,
            ensures
                ripple(m0, v0.last_read, v0.stack_pointer, carry0@, 256) == Some(
                    (memory@, self.last_read),
                ),
            decreases 300 - k,
        {
            let ghost m_head = memory@;
            let ghost latch_head = self.last_read;
            let ghost carry_head = carry;
            let operand = self.read(memory, addr);
            proof {
                u4::lemma_view_bound(operand);
            }
            let (res, c) = operand.add_with_carry(carry);
            let ghost sum = operand@ + carry_head@;
            self.write(memory, addr, res);
            proof {
                u4::lemma_of_view(((sum % 16) as u8));
                u4::lemma_of_view(((sum / 16) as u8));
                lemma_ripple_addr_bound(sp, k as int);
            }
            if c.to_u8() == 0 {
                proof {
                    assert(ripple(m_head, latch_head, addr, carry_head@, 0) == Some(
                        (memory@, self.last_read),
                    ));
                    assert(ripple(m0, v0.last_read, v0.stack_pointer, carry0@, (k + 0) as nat)
                        == ripple(m_head, latch_head, addr, carry_head@, 0));
                    lemma_ripple_fuel_mono(m0, v0.last_read, v0.stack_pointer, carry0@, k, 256);
                }
                break ;
            }
            proof {
                // the carry out is nonzero, so it is exactly one
                assert(c@ == sum / 16 && sum / 16 == 1);
                // a full wrap would have re-read the first written cell,
                // whose value is at most 14, and ended the ripple
                if k == 256 {
                    lemma_ripple_addr_full(v0.stack_pointer);
                    assert(false);
                }
            }
            let ghost addr_head = addr;
            carry = c;
            addr = if addr == 0 {
                255
            } else {
                addr - 1
            };
            proof {
                lemma_ripple_addr_step(sp, k as int);
                if k >= 1 {
                    lemma_ripple_addr_zero(v0.stack_pointer);
                    lemma_ripple_addr_distinct(sp, 0, k as int);
                }
                assert forall|j: int| 1 <= j < k + 1 implies memory@[#[trigger] ripple_addr(
                    sp,
                    j,
                )] == Some(u4::of(0)) by {
                    lemma_ripple_addr_bound(sp, j);
                    if j < k {
                        lemma_ripple_addr_distinct(sp, j, k as int);
                    }
                }
                assert forall|f: nat|
                    ripple(m0, v0.last_read, v0.stack_pointer, carry0@, ((k + 1) + f) as nat)
                        == #[trigger] ripple(memory@, self.last_read, addr, carry@, f) by {
                    assert(ripple(m0, v0.last_read, v0.stack_pointer, carry0@, (k + (f + 1)) as nat)
                        == ripple(m_head, latch_head, addr_head, carry_head@, (f + 1) as nat));
                    assert(ripple(m_head, latch_head, addr_head, carry_head@, (f + 1) as nat)
                        == ripple(memory@, self.last_read, addr, carry@, f));
                }
                k = k + 1;
            }
        }
    }

    /// One fetch/decode/execute step, as `cycle_rel` states it. A halted
    /// machine does nothing; an undefined opcode at the instruction pointer
    /// silently halts the machine — the simulator's only failure path.
    pub fn cycle(&mut self, memory: &mut [Option<u4>; 256])
        ensures
            cycle_rel(*old(self), old(memory)@, *final(self), final(memory)@),
    {
        if matches!(self.state, State::Halted) {
            return ;
        }
        let ip = self.instruction_pointer;
        let fetched = self.read(memory, ip);
        match Opcode::decode(fetched) {
            Some(op) => match op {
                Opcode::Nop => {
                    self.advance_ip();
                },
                Opcode::Push => {
                    self.advance_ip();
                    let ip1 = self.instruction_pointer;
                    let data = self.read(memory, ip1);
                    self.advance_ip();
                    self.push(memory, data);
                },
                Opcode::Pop => {
                    self.advance_ip();
                    let _ = self.pop(memory);
                },
                Opcode::Add => {
                    self.advance_ip();
                    let carry = self.pop(memory);
                    self.run_ripple(memory, carry);
                },
                Opcode::Subtract => {
                    let popped = self.pop(memory);
                    let carry = u4::from_u8(0).sub(popped);
                    proof {
                        u4::lemma_view_bound(popped);
                    }
                    self.run_ripple(memory, carry);
                },
                Opcode::JumpNonZero => {
                    let low = self.pop(memory);
                    let high = self.pop(memory);
                    let cond = self.pop(memory);
                    let addr = u4::combine([high, low]);
                    proof {
                        u4::lemma_view_bound(high);
                        u4::lemma_view_bound(low);
                    }
                    if cond.to_u8() == 0 {
                        self.advance_ip();
                    } else {
                        self.instruction_pointer = addr;
                    }
                },
                Opcode::Call => {
                    let low = self.pop(memory);
                    let high = self.pop(memory);
                    let ret = if self.instruction_pointer == 255 {
                        0
                    } else {
                        self.instruction_pointer + 1
                    };
                    proof {
                        u4::lemma_view_bound(high);
                        u4::lemma_view_bound(low);
                    }
                    self.instruction_pointer = u4::combine([high, low]);
                    let parts = u4::split(ret);
                    self.push(memory, parts[0]);
                    self.push(memory, parts[1]);
                },
                Opcode::Return => {
                    let low = self.pop(memory);
                    let high = self.pop(memory);
                    proof {
                        u4::lemma_view_bound(high);
                        u4::lemma_view_bound(low);
                    }
                    self.instruction_pointer = u4::combine([high, low]);
                },
                Opcode::Load => {
                    let low = self.pop(memory);
                    let high = self.pop(memory);
                    proof {
                        u4::lemma_view_bound(high);
                        u4::lemma_view_bound(low);
                    }
                    let addr = u4::combine([high, low]);
                    let data = self.read(memory, addr);
                    self.push(memory, data);
                    self.advance_ip();
                },
                Opcode::Store => {
                    let low = self.pop(memory);
                    let high = self.pop(memory);
                    let data = self.pop(memory);
                    proof {
                        u4::lemma_view_bound(high);
                        u4::lemma_view_bound(low);
                    }
                    let addr = u4::combine([high, low]);
                    self.write(memory, addr, data);
                    self.advance_ip();
                },
                Opcode::Halt => {
                    self.state = State::Halted;
                },
            },
            None => {
                self.state = State::Halted;
            },
        }
    }
}

impl Default for Vm {
    /// Same as `Vm::new`.
    fn default() -> (r: Self)
        ensures
            r.state == State::Running,
            r.last_read@ == 0,
            r.stack_pointer == 0,
            r.instruction_pointer == 0,
    {
        Self::new()
    }
}

/// Two outcomes of one cycle from the same machine and memory are the same
/// machine and memory: the cycle relation is a function of its inputs.
pub proof fn lemma_cycle_rel_deterministic(
    v0: Vm,
    m0: Seq<Option<u4>>,
    v1: Vm,
    m1: Seq<Option<u4>>,
    v2: Vm,
    m2: Seq<Option<u4>>,
)
    requires
        cycle_rel(v0, m0, v1, m1),
        cycle_rel(v0, m0, v2, m2),
    ensures
        v1 == v2,
        m1 == m2,
{
    if v0.state is Running {
        let fetched = spec_read(m0, v0.last_read, v0.instruction_pointer);
        let v = Vm { last_read: fetched, ..v0 };
        match decode_spec(fetched@) {
            Some(Opcode::Add) | Some(Opcode::Subtract) => {
                assert(v1.last_read == v2.last_read && m1 == m2);
                assert(v1 == v2);
            },
            _ => {},
        }
    }
}

/// An undefined opcode at the instruction pointer halts the machine in one
/// cycle: the run state goes from `Running` to `Halted`, the pointers and
/// the memory stay as they were, and the latch holds the fetched nibble (the
/// fetch itself is a successful read when the cell is written).
pub proof fn lemma_illegal_opcode_halts(v0: Vm, m0: Seq<Option<u4>>, v1: Vm, m1: Seq<Option<u4>>)
    requires
        v0.state is Running,
        decode_spec(spec_read(m0, v0.last_read, v0.instruction_pointer)@) is None,
        cycle_rel(v0, m0, v1, m1),
    ensures
        v1.state is Halted,
        v1.instruction_pointer == v0.instruction_pointer,
        v1.stack_pointer == v0.stack_pointer,
        v1.last_read == spec_read(m0, v0.last_read, v0.instruction_pointer),
        m1 == m0,
{
}

/// A halted machine's cycle is a no-op: nothing about the machine or the
/// memory changes.
pub proof fn lemma_halted_cycle_is_noop(v0: Vm, m0: Seq<Option<u4>>, v1: Vm, m1: Seq<Option<u4>>)
    requires
        v0.state is Halted,
        cycle_rel(v0, m0, v1, m1),
    ensures
        v1 == v0,
        m1 == m0,
{
}

/// A sequence of single-cell writes applied in order: the memory model of
/// shared mode, where independently stepped machines drive one buffer and
/// every individual access holds the bus exclusively, so any interleaving of
/// two machines' accesses is some such sequence.
pub open spec fn apply_writes(m: Seq<Option<u4>>, ws: Seq<(u8, u4)>) -> Seq<Option<u4>>
    decreases ws.len(),
{
    if ws.len() == 0 {
        m
    } else {
        apply_writes(m, ws.drop_last()).update(ws.last().0 as int, Some(ws.last().1))
    }
}

/// The value of the last write to `addr` in the interleaving, if any wrote
/// to it.
pub open spec fn last_write_to(ws: Seq<(u8, u4)>, addr: u8) -> Option<u4>
    decreases ws.len(),
{
    if ws.len() == 0 {
        None
    } else if ws.last().0 == addr {
        Some(ws.last().1)
    } else {
        last_write_to(ws.drop_last(), addr)
    }
}

proof fn lemma_apply_writes_len(m: Seq<Option<u4>>, ws: Seq<(u8, u4)>)
    requires
        m.len() == 256,
    ensures
        apply_writes(m, ws).len() == m.len(),
    decreases ws.len(),
{
    if ws.len() > 0 {
        lemma_apply_writes_len(m, ws.drop_last());
    }
}

/// Shared-mode cell integrity: under any interleaving of machines' writes
/// to one 256-cell buffer, each cell ends up holding exactly the nibble of
/// the last write to that cell — or its original content where nobody wrote
/// — never a bitwise mix of two writes. Every mutation the core makes goes
/// through `Vm::write`, whose contract is a single-cell update, so this
/// covers every interleaving of independently stepped machines.
pub proof fn lemma_interleaved_writes_cell_integrity(
    m: Seq<Option<u4>>,
    ws: Seq<(u8, u4)>,
    addr: u8,
)
    requires
        m.len() == 256,
    ensures
        apply_writes(m, ws)[addr as int] == (match last_write_to(ws, addr) {
            Some(v) => Some(v),
            None => m[addr as int],
        }),
    decreases ws.len(),
{
    if ws.len() > 0 {
        lemma_interleaved_writes_cell_integrity(m, ws.drop_last(), addr);
        lemma_apply_writes_len(m, ws.drop_last());
    }
}

/// Why a memory-dump text was rejected: the character position in the text
/// of the alphanumeric character that is not a hex digit.
#[derive(Clone, Copy, Debug, PartialEq, Eq, Structural)]
pub struct LoadError {
    pub position: usize,
}

/// Whether a character counts toward the dump's cells. Resolved by
/// `is_alphanumeric_char` below.
pub uninterp spec fn alphanumeric(c: char) -> bool;

/// Relies on char::is_alphanumeric: a pure predicate of the character alone
/// (Unicode alphabetic or numeric); among the ASCII characters exactly the
/// digits and letters have it, and the space does not.
#[verifier::external_body]
fn is_alphanumeric_char(c: char) -> (r: bool)
    ensures
        r == alphanumeric(c),
        (c as u32) < 128 ==> (r <==> ((48 <= c as u32 && c as u32 <= 57) || (65 <= c as u32
            && c as u32 <= 90) || (97 <= c as u32 && c as u32 <= 122))),
{
    c.is_alphanumeric()
}

/// What loading a memory dump means, one character at a time: a hex digit
/// fills the next cell, a space is consulted but skipped without consuming a
/// cell, any other non-alphanumeric character is ignored entirely, and an
/// alphanumeric character that is no hex digit is a fatal error at its
/// position. At most 256 characters are consulted.
pub open spec fn load_spec(
    s: Seq<char>,
    i: int,
    consulted: int,
    cell: int,
    m: Seq<Option<u4>>,
) -> Result<Seq<Option<u4>>, LoadError>
    decreases s.len() - i,
{
    if i < 0 || i >= s.len() || consulted >= 256 {
        Ok(m)
    } else {
        let c = s[i];
        if c == ' ' {
            load_spec(s, i + 1, consulted + 1, cell, m)
        } else if alphanumeric(c) {
            match crate::nibble::hex_val(c) {
                Some(d) => load_spec(
                    s,
                    i + 1,
                    consulted + 1,
                    cell + 1,
                    m.update(cell, Some(u4::of(d))),
                ),
                None => Err(LoadError { position: i as usize }),
            }
        } else {
            load_spec(s, i + 1, consulted, cell, m)
        }
    }
}

/// Load a fresh 256-cell memory from a dump text, as `load_spec` states it.
/// A failed load hands back no memory at all, so no partial state is ever
/// visible.
pub fn load_memory_from_file(data: String) -> (r: Result<[Option<u4>; 256], LoadError>)
    ensures
        (match r {
            Ok(m) => load_spec(data@, 0, 0, 0, Seq::new(256, |j: int| Option::<u4>::None)) == Ok::<
                Seq<Option<u4>>,
                LoadError,
            >(m@),
            Err(e) => load_spec(data@, 0, 0, 0, Seq::new(256, |j: int| Option::<u4>::None))
                == Err::<Seq<Option<u4>>, LoadError>(e),
        }),
{
    let mut memory: [Option<u4>; 256] = [None;256];
    proof {
        assert(memory@ =~= Seq::new(256, |j: int| Option::<u4>::None));
    }
    let s = data.as_str();
    let n = s.unicode_len();
    let mut i: usize = 0;
    let mut consulted: usize = 0;
    let mut cell: usize = 0;
    while i < n
        invariant
            i <= n,
            n == data@.len(),
            s@ == data@,
            consulted <= 256,
            cell <= consulted,
            load_spec(data@, 0, 0, 0, Seq::new(256, |j: int| Option::<u4>::None)) == load_spec(
                data@,
                i as int,
                consulted as int,
                cell as int,
                memory@,
            ),
        ensures
            load_spec(data@, 0, 0, 0, Seq::new(256, |j: int| Option::<u4>::None)) == Ok::<
                Seq<Option<u4>>,
                LoadError,
            >(memory@),
        decreases n - i,
    {
        if consulted == 256 {
            break ;
        }
        let c = s.get_char(i);
        if c == ' ' {
            consulted = consulted + 1;
        } else if is_alphanumeric_char(c) {
            match crate::nibble::hex_digit(c) {
                Some(d) => {
                    memory[cell] = Some(u4::from_u8(d));
                    cell = cell + 1;
                    consulted = consulted + 1;
                },
                None => {
                    return Err(LoadError { position: i });
                },
            }
        }
        i = i + 1;
    }
    Ok(memory)
}

} // verus!
