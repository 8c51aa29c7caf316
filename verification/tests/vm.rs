use adversembly::assembler::{program, Syntax};
use adversembly::nibble::u4;
use adversembly::vm::{load_memory_from_file, LoadError, Opcode, State, Vm};

fn fresh_memory() -> [Option<u4>; 256] {
    [None; 256]
}

fn load_nibbles(code: &[u8]) -> [Option<u4>; 256] {
    let mut memory = fresh_memory();
    for (i, n) in code.iter().enumerate() {
        memory[i] = Some(u4::from_u8(*n));
    }
    memory
}

fn assemble(text: &str) -> Vec<u8> {
    let nodes = program(text).expect("parse failure");
    Syntax::compile(nodes).into_iter().map(|n| n.to_u8()).collect()
}

#[test]
fn open_bus_returns_latch_not_zero() {
    let mut vm = Vm::new();
    let mut memory = fresh_memory();
    // with no prior read the latch's initial value, zero, is returned
    assert_eq!(vm.read(&memory, 42).to_u8(), 0);
    vm.write(&mut memory, 3, u4::from_u8(5));
    // a successful read of a written cell drives the latch
    assert_eq!(vm.read(&memory, 3).to_u8(), 5);
    // an unwritten cell floats to the most recent successful read, not zero
    assert_eq!(vm.read(&memory, 200).to_u8(), 5);
    assert_eq!(vm.read(&memory, 201).to_u8(), 5);
    // a write also drives the latch
    vm.write(&mut memory, 9, u4::from_u8(0xC));
    assert_eq!(vm.read(&memory, 77).to_u8(), 0xC);
}

#[test]
fn is_open_bus_reports_unwritten_cells() {
    let mut vm = Vm::new();
    let mut memory = fresh_memory();
    assert!(vm.is_open_bus(&memory, 0));
    vm.write(&mut memory, 0, u4::from_u8(1));
    assert!(!vm.is_open_bus(&memory, 0));
    assert!(vm.is_open_bus(&memory, 1));
}

#[test]
fn stack_pointer_wraps_both_ways() {
    let mut vm = Vm::new();
    let mut memory = fresh_memory();
    vm.push(&mut memory, u4::from_u8(7));
    assert_eq!(vm.stack_pointer, 1);
    assert_eq!(vm.pop(&memory).to_u8(), 7);
    assert_eq!(vm.stack_pointer, 0);
    // popping past 0 wraps to 255
    let _ = vm.pop(&memory);
    assert_eq!(vm.stack_pointer, 255);
    // pushing past 255 wraps to 0
    vm.push(&mut memory, u4::from_u8(4));
    assert_eq!(vm.stack_pointer, 0);
    assert_eq!(memory[0], Some(u4::from_u8(4)));
}

#[test]
fn instruction_pointer_wraps() {
    let mut vm = Vm::new();
    vm.instruction_pointer = 255;
    vm.advance_ip();
    assert_eq!(vm.instruction_pointer, 0);
}

#[test]
fn cycle_push_and_pop() {
    let mut vm = Vm::new();
    let mut memory = load_nibbles(&[1, 0xB, 2]);
    vm.cycle(&mut memory); // push 0xB
    assert_eq!(vm.instruction_pointer, 2);
    assert_eq!(vm.stack_pointer, 1);
    assert_eq!(memory[1], Some(u4::from_u8(0xB)));
    vm.cycle(&mut memory); // pop it again
    assert_eq!(vm.instruction_pointer, 3);
    assert_eq!(vm.stack_pointer, 0);
}

#[test]
fn carry_ripples_one_step_and_stops() {
    // stack [..., 0xE, 0xF] with pushed addend 1: one carry step, two cells
    let mut vm = Vm::new();
    let mut memory = fresh_memory();
    memory[0] = Some(u4::from_u8(3)); // Add
    memory[1] = Some(u4::from_u8(0xE));
    memory[2] = Some(u4::from_u8(0xF));
    memory[3] = Some(u4::from_u8(1)); // the pushed addend, popped as carry
    vm.stack_pointer = 3;
    vm.cycle(&mut memory);
    assert_eq!(memory[2], Some(u4::from_u8(0)));
    assert_eq!(memory[1], Some(u4::from_u8(0xF)));
    assert_eq!(vm.stack_pointer, 2);
    assert_eq!(vm.instruction_pointer, 1);
    assert!(matches!(vm.state, State::Running));
}

#[test]
fn carry_ripples_until_zero_carry() {
    // stack [0xF, 0xF]: the carry keeps rippling past both cells and only
    // halts once a zero carry is produced (here in the opcode's own cell)
    let mut vm = Vm::new();
    let mut memory = fresh_memory();
    memory[0] = Some(u4::from_u8(3)); // Add; 3 + 1 = 4 ends the ripple
    memory[1] = Some(u4::from_u8(0xF));
    memory[2] = Some(u4::from_u8(0xF));
    memory[3] = Some(u4::from_u8(1));
    vm.stack_pointer = 3;
    vm.cycle(&mut memory);
    assert_eq!(memory[2], Some(u4::from_u8(0)));
    assert_eq!(memory[1], Some(u4::from_u8(0)));
    assert_eq!(memory[0], Some(u4::from_u8(4)));
}

#[test]
fn push_push_add_end_to_end() {
    // push 5, push 3, add: the cell under the stack pointer holds 8
    let code = assemble("<x5 <x3 +");
    assert_eq!(code, vec![1, 5, 1, 3, 3]);
    let mut vm = Vm::new();
    let mut memory = load_nibbles(&code);
    vm.cycle(&mut memory);
    vm.cycle(&mut memory);
    vm.cycle(&mut memory);
    let sp = vm.stack_pointer;
    assert_eq!(sp, 1);
    assert_eq!(memory[sp as usize], Some(u4::from_u8(8)));
    assert_eq!(vm.read(&memory, sp).to_u8(), 8);
    // push and push occupy two nibbles each, add one
    assert_eq!(vm.instruction_pointer, 5);
}

#[test]
fn illegal_opcode_halts_silently() {
    let mut vm = Vm::new();
    let mut memory = fresh_memory();
    memory[0] = Some(u4::from_u8(0xA)); // undefined opcode
    memory[1] = Some(u4::from_u8(1));
    let before_sp = vm.stack_pointer;
    vm.cycle(&mut memory);
    assert!(matches!(vm.state, State::Halted));
    assert_eq!(vm.instruction_pointer, 0);
    assert_eq!(vm.stack_pointer, before_sp);
    // the fetch itself was a successful read, so the latch holds the nibble
    assert_eq!(vm.last_read.to_u8(), 0xA);
    assert_eq!(memory[0], Some(u4::from_u8(0xA)));
    assert_eq!(memory[1], Some(u4::from_u8(1)));
}

#[test]
fn halted_machine_cycle_is_noop() {
    let mut vm = Vm::new();
    let mut memory = load_nibbles(&[15, 0]); // halt
    vm.cycle(&mut memory);
    assert!(matches!(vm.state, State::Halted));
    let ip = vm.instruction_pointer;
    let sp = vm.stack_pointer;
    vm.cycle(&mut memory);
    vm.cycle(&mut memory);
    assert!(matches!(vm.state, State::Halted));
    assert_eq!(vm.instruction_pointer, ip);
    assert_eq!(vm.stack_pointer, sp);
}

#[test]
fn store_writes_through_popped_address() {
    // write 7 to address 0x20: data first, then high, then low
    let code = assemble("<x7 <x2 <x0 s");
    let mut vm = Vm::new();
    let mut memory = load_nibbles(&code);
    for _ in 0..4 {
        vm.cycle(&mut memory);
    }
    assert_eq!(memory[0x20], Some(u4::from_u8(7)));
    assert_eq!(vm.instruction_pointer, 7);
}

#[test]
fn load_pushes_the_addressed_nibble() {
    let code = assemble("<x0 <x9 l");
    let mut vm = Vm::new();
    let mut memory = load_nibbles(&code);
    memory[9] = Some(u4::from_u8(0xD));
    for _ in 0..3 {
        vm.cycle(&mut memory);
    }
    let sp = vm.stack_pointer;
    assert_eq!(memory[sp as usize], Some(u4::from_u8(0xD)));
}

#[test]
fn jump_nonzero_takes_the_branch() {
    // condition 1, then target address high 0 low 8
    let code = assemble("<x1 <x0 <x8 j");
    let mut vm = Vm::new();
    let mut memory = load_nibbles(&code);
    for _ in 0..4 {
        vm.cycle(&mut memory);
    }
    assert_eq!(vm.instruction_pointer, 8);
}

#[test]
fn jump_zero_falls_through() {
    let code = assemble("<x0 <x0 <x8 j");
    let mut vm = Vm::new();
    let mut memory = load_nibbles(&code);
    for _ in 0..4 {
        vm.cycle(&mut memory);
    }
    assert_eq!(vm.instruction_pointer, 7);
}

#[test]
fn call_jumps_and_pushes_return_address() {
    let code = assemble("<x0 <x8 c");
    let mut vm = Vm::new();
    let mut memory = load_nibbles(&code);
    memory[8] = Some(u4::from_u8(7)); // Return
    vm.cycle(&mut memory);
    vm.cycle(&mut memory);
    vm.cycle(&mut memory); // call: jumps to 8, pushes return address 5
    assert_eq!(vm.instruction_pointer, 8);
    assert_eq!(vm.stack_pointer, 2);
    assert_eq!(memory[1], Some(u4::from_u8(0))); // high nibble of 5
    assert_eq!(memory[2], Some(u4::from_u8(5))); // low nibble of 5
    vm.cycle(&mut memory); // return
    assert_eq!(vm.instruction_pointer, 5);
    assert_eq!(vm.stack_pointer, 0);
}

#[test]
fn decode_matches_the_fixed_table() {
    assert_eq!(Opcode::decode(u4::from_u8(0)), Some(Opcode::Nop));
    assert_eq!(Opcode::decode(u4::from_u8(1)), Some(Opcode::Push));
    assert_eq!(Opcode::decode(u4::from_u8(2)), Some(Opcode::Pop));
    assert_eq!(Opcode::decode(u4::from_u8(3)), Some(Opcode::Add));
    assert_eq!(Opcode::decode(u4::from_u8(4)), Some(Opcode::Subtract));
    assert_eq!(Opcode::decode(u4::from_u8(5)), Some(Opcode::JumpNonZero));
    assert_eq!(Opcode::decode(u4::from_u8(6)), Some(Opcode::Call));
    assert_eq!(Opcode::decode(u4::from_u8(7)), Some(Opcode::Return));
    assert_eq!(Opcode::decode(u4::from_u8(8)), Some(Opcode::Load));
    assert_eq!(Opcode::decode(u4::from_u8(9)), Some(Opcode::Store));
    assert_eq!(Opcode::decode(u4::from_u8(15)), Some(Opcode::Halt));
    for v in 10u8..15 {
        assert_eq!(Opcode::decode(u4::from_u8(v)), None);
    }
}

#[test]
fn interleaved_machines_never_tear_a_cell() {
    // two independently stepped machines share one buffer; each cell ends up
    // holding exactly one machine's written nibble, never a mix
    let mut memory = fresh_memory();
    let code_a = [1u8, 5]; // push 5
    let code_b = [1u8, 9]; // push 9
    for (i, n) in code_a.iter().enumerate() {
        memory[i] = Some(u4::from_u8(*n));
    }
    for (i, n) in code_b.iter().enumerate() {
        memory[0x10 + i] = Some(u4::from_u8(*n));
    }
    let mut vm_a = Vm::new();
    let mut vm_b = Vm::new();
    vm_a.stack_pointer = 0x7F;
    vm_b.instruction_pointer = 0x10;
    vm_b.stack_pointer = 0xBF;
    vm_a.cycle(&mut memory);
    vm_b.cycle(&mut memory);
    assert_eq!(memory[0x80], Some(u4::from_u8(5)));
    assert_eq!(memory[0xC0], Some(u4::from_u8(9)));
    for (addr, cell) in memory.iter().enumerate() {
        match cell {
            None => assert!(addr != 0x80 && addr != 0xC0),
            Some(n) => {
                // every written cell holds a whole nibble some machine wrote
                let v = n.to_u8();
                assert!(v == 5 || v == 9 || v == 1);
            }
        }
    }
}

#[test]
fn load_memory_reads_hex_and_skips_spaces() {
    let memory = load_memory_from_file(String::from("0f 3")).expect("load failure");
    // a space is consulted but consumes no cell
    assert_eq!(memory[0], Some(u4::from_u8(0)));
    assert_eq!(memory[1], Some(u4::from_u8(0xF)));
    assert_eq!(memory[2], Some(u4::from_u8(3)));
    assert_eq!(memory[3], None);
}

#[test]
fn load_memory_ignores_punctuation() {
    let memory = load_memory_from_file(String::from("1,2-3")).expect("load failure");
    assert_eq!(memory[0], Some(u4::from_u8(1)));
    assert_eq!(memory[1], Some(u4::from_u8(2)));
    assert_eq!(memory[2], Some(u4::from_u8(3)));
    assert_eq!(memory[3], None);
}

#[test]
fn load_memory_rejects_nonhex_alphanumerics() {
    let r = load_memory_from_file(String::from("1g2"));
    assert_eq!(r, Err(LoadError { position: 1 }));
    let r = load_memory_from_file(String::from("zz"));
    assert_eq!(r, Err(LoadError { position: 0 }));
}

#[test]
fn load_memory_consults_at_most_256_characters() {
    let text: String = std::iter::repeat('1').take(300).collect();
    let memory = load_memory_from_file(text).expect("load failure");
    for cell in memory.iter() {
        assert_eq!(*cell, Some(u4::from_u8(1)));
    }
}

#[test]
fn loaded_dump_runs_in_the_machine() {
    // the dump of push 5, push 3, add
    let memory = load_memory_from_file(String::from("15133")).expect("load failure");
    let mut vm = Vm::new();
    let mut memory = memory;
    for _ in 0..3 {
        vm.cycle(&mut memory);
    }
    assert_eq!(memory[1], Some(u4::from_u8(8)));
}

#[test]
fn default_is_a_fresh_machine() {
    let vm = Vm::default();
    assert!(matches!(vm.state, State::Running));
    assert_eq!(vm.stack_pointer, 0);
    assert_eq!(vm.instruction_pointer, 0);
    assert_eq!(vm.last_read.to_u8(), 0);
}
