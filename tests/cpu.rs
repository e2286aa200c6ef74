use dcpu::alu::{alu, cond};
use dcpu::cpu::{Computer, Cpu, CpuError};
use dcpu::debugger::{Debugger, Stop};
use dcpu::device::{cell_of, Cell, Clock, Device, Keyboard, Lem1802, CLOCK_ID, KEYBOARD_ID};
use dcpu::instruction::{BasicOp, Instruction, Register, SpecialOp, Value};
use dcpu::ram::Ram;

fn encode(i: &Instruction<u16>) -> Vec<u16> {
    let mut out = Vec::new();
    i.encode(false, &mut out);
    out
}

fn step(cpu: &mut Cpu) -> Result<(), CpuError> {
    let mut devices: Vec<Device> = Vec::new();
    cpu.step(&mut devices)
}

#[test]
fn add_sets_carry() {
    assert_eq!(alu(BasicOp::ADD, 0xffff, 1, 0), (0, 1));
    assert_eq!(alu(BasicOp::ADD, 0x7fff, 1, 5), (0x8000, 0));
}

#[test]
fn sub_sets_borrow() {
    assert_eq!(alu(BasicOp::SUB, 0, 1, 0), (0xffff, 0xffff));
    assert_eq!(alu(BasicOp::SUB, 5, 3, 0xffff), (2, 0));
}

#[test]
fn mul_keeps_whole_product() {
    let (lo, hi) = alu(BasicOp::MUL, 0x1234, 0x5678, 0);
    assert_eq!(((hi as u32) << 16) | lo as u32, 0x1234u32 * 0x5678);
    assert_eq!(alu(BasicOp::MLI, 0xffff, 2, 0), (0xfffe, 0xffff));
}

#[test]
fn division_rules() {
    assert_eq!(alu(BasicOp::DIV, 1234, 0, 77), (0, 0));
    assert_eq!(alu(BasicOp::DVI, 1234, 0, 77), (0, 0));
    assert_eq!(alu(BasicOp::DIV, 7, 2, 0), (3, 0x8000));
    assert_eq!(alu(BasicOp::DVI, (-7i16) as u16, 2, 0), ((-3i16) as u16, 0x8000));
    assert_eq!(alu(BasicOp::MOD, 7, 0, 9), (0, 9));
    assert_eq!(alu(BasicOp::MOD, 7, 4, 9), (3, 9));
    assert_eq!(alu(BasicOp::MDI, (-7i16) as u16, 16, 0), ((-7i16) as u16, 0));
}

#[test]
fn shifts_and_logic() {
    assert_eq!(alu(BasicOp::SHL, 0x8001, 1, 0), (0x0002, 0x0001));
    assert_eq!(alu(BasicOp::SHR, 0x0003, 1, 0), (0x0001, 0x8000));
    assert_eq!(alu(BasicOp::ASR, 0x8000, 4, 0), (0xf800, 0x0000));
    assert_eq!(alu(BasicOp::AND, 0xff0f, 0x0ff0, 1), (0x0f00, 1));
    assert_eq!(alu(BasicOp::BOR, 0xf000, 0x000f, 1), (0xf00f, 1));
    assert_eq!(alu(BasicOp::XOR, 0xffff, 0x0f0f, 1), (0xf0f0, 1));
    assert_eq!(alu(BasicOp::ADX, 0xffff, 0, 1), (0, 1));
    assert_eq!(alu(BasicOp::SBX, 0, 1, 0), (0xffff, 0xffff));
}

#[test]
fn conditions() {
    assert!(cond(BasicOp::IFE, 3, 3));
    assert!(!cond(BasicOp::IFN, 3, 3));
    assert!(cond(BasicOp::IFA, 1, 0xffff));
    assert!(!cond(BasicOp::IFG, 1, 0xffff));
    assert!(cond(BasicOp::IFU, 0xffff, 1));
    assert!(cond(BasicOp::IFB, 0x10, 0x30));
    assert!(cond(BasicOp::IFC, 0x10, 0x20));
}

#[test]
fn encode_decode_round_trip() {
    let cases = vec![
        Instruction::Basic(BasicOp::SET, Value::Reg(Register::A), Value::Literal(0x1e)),
        Instruction::Basic(BasicOp::ADD, Value::AtRegPlus(Register::I, 5), Value::Literal(0xffff)),
        Instruction::Basic(BasicOp::IFE, Value::PushPop, Value::Pick(3)),
        Instruction::Basic(BasicOp::STD, Value::AtAddr(0x8000), Value::Literal(0x1234)),
        Instruction::Special(SpecialOp::JSR, Value::AtReg(Register::J)),
        Instruction::Special(SpecialOp::HWI, Value::Literal(1)),
    ];
    let lens = [1usize, 2, 2, 3, 1, 1];
    for (i, n) in cases.iter().zip(lens.iter()) {
        let mut words = encode(i);
        assert_eq!(words.len(), *n);
        words.extend_from_slice(&[0xdead, 0xbeef]);
        let (d, used) = Instruction::decode_words(words[0], words[1], words[2]).unwrap();
        assert_eq!(&d, i);
        assert_eq!(used as usize, *n);
    }
    let mut long = Vec::new();
    let short_literal = Instruction::Special(SpecialOp::INT, Value::Literal(3));
    assert_eq!(short_literal.encode(true, &mut long), 2);
    assert_eq!(long, vec![(0x08 << 5) | (0x1f << 10), 3]);
    assert_eq!(Instruction::decode_words(0x0018 << 5 | 0, 0, 0), None);
}

#[test]
fn ia_zero_interrupts_do_nothing() {
    let mut cpu = Cpu::new();
    cpu.registers[0] = 0x55;
    cpu.pc = 0x10;
    for m in 1..10u16 {
        cpu.trigger_interrupt(m);
    }
    for _ in 0..9 {
        assert_eq!(step(&mut cpu), Ok(()));
        assert_eq!(cpu.pc, 0x10);
        assert_eq!(cpu.registers[0], 0x55);
        assert_eq!(cpu.sp, 0);
    }
    assert!(cpu.queue.is_empty());
}

#[test]
fn one_interrupt_per_step() {
    let mut cpu = Cpu::new();
    cpu.ia = 0x200;
    cpu.pc = 0x10;
    cpu.registers[0] = 0x77;
    cpu.trigger_interrupt(0xa1);
    cpu.trigger_interrupt(0xa2);
    assert_eq!(step(&mut cpu), Ok(()));
    assert_eq!(cpu.pc, 0x200);
    assert_eq!(cpu.registers[0], 0xa1);
    assert_eq!(cpu.sp, 0xfffe);
    assert_eq!(cpu.ram.get(0xffff), 0x10);
    assert_eq!(cpu.ram.get(0xfffe), 0x77);
    assert!(cpu.interrupt_queueing);
    assert_eq!(cpu.queue, vec![0xa2]);
    // the next step runs the instruction at IA (zero memory: BRK)
    assert_eq!(step(&mut cpu), Err(CpuError::Halted));
    assert_eq!(cpu.queue, vec![0xa2]);
}

#[test]
fn rfi_returns_from_handler() {
    let mut cpu = Cpu::new();
    cpu.ia = 0x200;
    cpu.pc = 0x10;
    cpu.registers[0] = 0x77;
    let rfi = encode(&Instruction::Special(SpecialOp::RFI, Value::Literal(0)));
    cpu.load(&rfi, 0x200);
    cpu.trigger_interrupt(0xa1);
    assert_eq!(step(&mut cpu), Ok(()));
    assert_eq!(step(&mut cpu), Ok(()));
    assert_eq!(cpu.pc, 0x10);
    assert_eq!(cpu.registers[0], 0x77);
    assert_eq!(cpu.sp, 0);
    assert!(!cpu.interrupt_queueing);
}

#[test]
fn queue_overflow_catches_fire() {
    let mut cpu = Cpu::new();
    cpu.interrupt_queueing = true;
    for m in 0..256u16 {
        cpu.trigger_interrupt(m);
    }
    assert!(!cpu.on_fire);
    cpu.trigger_interrupt(256);
    assert!(cpu.on_fire);
    assert_eq!(cpu.queue.len(), 256);
    let pc = cpu.pc;
    assert_eq!(step(&mut cpu), Err(CpuError::OnFire));
    assert_eq!(step(&mut cpu), Err(CpuError::OnFire));
    assert_eq!(cpu.pc, pc);
}

#[test]
fn skipped_branch_chains() {
    let mut program = Vec::new();
    program.extend(encode(&Instruction::Basic(BasicOp::IFE, Value::Reg(Register::A), Value::Literal(1))));
    program.extend(encode(&Instruction::Basic(BasicOp::IFE, Value::Reg(Register::A), Value::Literal(0))));
    program.extend(encode(&Instruction::Basic(BasicOp::SET, Value::Reg(Register::B), Value::Literal(0x1234))));
    program.extend(encode(&Instruction::Basic(BasicOp::SET, Value::Reg(Register::C), Value::Literal(2))));
    let mut cpu = Cpu::new();
    cpu.load(&program, 0);
    assert_eq!(step(&mut cpu), Ok(()));
    assert!(cpu.skip);
    assert_eq!(step(&mut cpu), Ok(()));
    assert!(cpu.skip);
    assert_eq!(step(&mut cpu), Ok(()));
    assert!(!cpu.skip);
    assert_eq!(cpu.registers[1], 0);
    assert_eq!(step(&mut cpu), Ok(()));
    assert_eq!(cpu.registers[2], 2);
}

#[test]
fn push_pop_and_jsr() {
    let mut program = Vec::new();
    program.extend(encode(&Instruction::Basic(BasicOp::SET, Value::PushPop, Value::Literal(7))));
    program.extend(encode(&Instruction::Basic(BasicOp::SET, Value::Reg(Register::X), Value::PushPop)));
    program.extend(encode(&Instruction::Special(SpecialOp::JSR, Value::Literal(0x40))));
    let mut cpu = Cpu::new();
    cpu.load(&program, 0);
    assert_eq!(step(&mut cpu), Ok(()));
    assert_eq!(cpu.sp, 0xffff);
    assert_eq!(cpu.ram.get(0xffff), 7);
    assert_eq!(step(&mut cpu), Ok(()));
    assert_eq!(cpu.registers[3], 7);
    assert_eq!(cpu.sp, 0);
    assert_eq!(step(&mut cpu), Ok(()));
    assert_eq!(cpu.pc, 0x40);
    assert_eq!(cpu.ram.get(0xffff), 4);
}

#[test]
fn unknown_opcode_is_reported() {
    let mut cpu = Cpu::new();
    cpu.load(&[0x0018], 0);
    assert_eq!(step(&mut cpu), Err(CpuError::UnknownOpcode(0x0018)));
}

#[test]
fn clock_ticks_and_interrupts() {
    let mut cpu = Cpu::new();
    cpu.ia = 0x300;
    // SET PC, 0: spin in place
    let spin = encode(&Instruction::Basic(BasicOp::SET, Value::PC, Value::Literal(0)));
    cpu.load(&spin, 0);
    let mut clock = Clock::new(60);
    cpu.registers[0] = 0;
    cpu.registers[1] = 60;
    clock.interrupt(&mut cpu);
    cpu.registers[0] = 2;
    cpu.registers[1] = 0x42;
    clock.interrupt(&mut cpu);
    cpu.registers[0] = 0;
    let mut computer = Computer::new(cpu, vec![Device::Clock(clock)]);
    for _ in 0..59 {
        assert_eq!(computer.tick(), Ok(()));
        assert_eq!(computer.cpu.pc, 0);
    }
    assert_eq!(computer.tick(), Ok(()));
    assert_eq!(computer.cpu.pc, 0x300);
    assert_eq!(computer.cpu.registers[0], 0x42);
    match &computer.devices[0] {
        Device::Clock(c) => assert_eq!(c.elapsed, 1),
        _ => panic!("clock expected"),
    }
}

#[test]
fn hardware_queries() {
    let mut program = Vec::new();
    program.extend(encode(&Instruction::Special(SpecialOp::HWN, Value::Reg(Register::Z))));
    program.extend(encode(&Instruction::Special(SpecialOp::HWQ, Value::Literal(1))));
    let mut cpu = Cpu::new();
    cpu.load(&program, 0);
    let mut devices = vec![Device::Clock(Clock::new(60)), Device::Keyboard(Keyboard::new())];
    assert_eq!(cpu.step(&mut devices), Ok(()));
    assert_eq!(cpu.registers[5], 2);
    assert_eq!(cpu.step(&mut devices), Ok(()));
    assert_eq!(cpu.registers[0], (KEYBOARD_ID & 0xffff) as u16);
    assert_eq!(cpu.registers[1], (KEYBOARD_ID >> 16) as u16);
    assert_eq!(cpu.registers[2], 1);
    assert_eq!(devices[0].id(), CLOCK_ID);
}

#[test]
fn keyboard_buffer() {
    let mut kb = Keyboard::new();
    let mut cpu = Cpu::new();
    cpu.registers[0] = 3;
    cpu.registers[1] = 9;
    kb.interrupt(&mut cpu);
    kb.push_key(0x41);
    kb.set_pressed(0x41, true);
    assert_eq!(kb.tick(), Some(9));
    assert_eq!(kb.tick(), None);
    cpu.registers[0] = 2;
    cpu.registers[1] = 0x41;
    kb.interrupt(&mut cpu);
    assert_eq!(cpu.registers[2], 1);
    cpu.registers[0] = 1;
    kb.interrupt(&mut cpu);
    assert_eq!(cpu.registers[2], 0x41);
    kb.interrupt(&mut cpu);
    assert_eq!(cpu.registers[2], 0);
    kb.set_pressed(0x41, false);
    cpu.registers[0] = 2;
    kb.interrupt(&mut cpu);
    assert_eq!(cpu.registers[2], 0);
}

#[test]
fn ram_ranges_and_wrapping_load() {
    let mut ram = Ram::new();
    ram.load(&[1, 2, 3], 0xfffe);
    assert_eq!(ram.get(0xfffe), 1);
    assert_eq!(ram.get(0xffff), 2);
    assert_eq!(ram.get(0), 3);
    assert_eq!(ram.range(0xfffe, 0xffff), vec![1]);
    assert_eq!(ram.range_from(0xfffe), vec![1, 2]);
    assert_eq!(ram.range_to(2), vec![3, 0]);
    ram.set(5, 9);
    assert_eq!(ram.get(5), 9);
}

#[test]
fn debugger_breakpoints_and_inspection() {
    let mut program = Vec::new();
    program.extend(encode(&Instruction::Basic(BasicOp::SET, Value::Reg(Register::A), Value::Literal(1))));
    program.extend(encode(&Instruction::Basic(BasicOp::ADD, Value::Reg(Register::A), Value::Literal(2))));
    program.extend(encode(&Instruction::Basic(BasicOp::SET, Value::PC, Value::Literal(1))));
    let mut cpu = Cpu::new();
    cpu.load(&program, 0);
    let mut dbg = Debugger::new(cpu, Vec::new());
    dbg.set_breakpoint(2);
    dbg.set_breakpoint(2);
    assert_eq!(dbg.breakpoints, vec![2]);
    assert_eq!(dbg.run(100), Ok(Stop::Breakpoint(2)));
    assert_eq!(dbg.registers()[0], 3);
    assert_eq!(dbg.registers()[8], 2);
    dbg.clear_breakpoint(2);
    assert!(!dbg.has_breakpoint(2));
    assert_eq!(dbg.run(10), Ok(Stop::Budget));
    assert_eq!(dbg.step(), Ok(()));
    assert_eq!(dbg.memory(0, 3), program);
    let listing = dbg.disassemble(0, 5);
    assert_eq!(listing.len(), 5);
    assert_eq!(listing[1], (1, Instruction::Basic(BasicOp::ADD, Value::Reg(Register::A), Value::Literal(2))));
    assert_eq!(listing[2].0, 2);
}

#[test]
fn screen_maps_memory_and_dumps_palette() {
    let mut font = vec![0u16; 256];
    font[0] = 0xabcd;
    font[255] = 0x1234;
    let mut screen = Lem1802::new(font);
    let mut cpu = Cpu::new();
    cpu.registers[0] = 0;
    cpu.registers[1] = 0x8000;
    assert!(screen.cells(&cpu).is_none());
    screen.interrupt(&mut cpu);
    cpu.ram.set(0x8000, 0xf0c1);
    let cells = screen.cells(&cpu).unwrap();
    assert_eq!(cells.len(), 384);
    assert_eq!(cells[0], Cell { fg: 0xf, bg: 0x0, blink: true, ch: 0x41 });
    assert_eq!(cell_of(0x2741), Cell { fg: 2, bg: 7, blink: false, ch: 0x41 });
    cpu.registers[0] = 3;
    cpu.registers[1] = 0x1f;
    screen.interrupt(&mut cpu);
    assert_eq!(screen.border, 0xf);
    cpu.registers[0] = 5;
    cpu.registers[1] = 0x9000;
    screen.interrupt(&mut cpu);
    assert_eq!(cpu.ram.get(0x9000 + 6), 0xa50);
    assert_eq!(screen.color(&cpu, 9), 0x55f);
    cpu.registers[0] = 2;
    screen.interrupt(&mut cpu);
    cpu.ram.set(0x9001, 0xf123);
    assert_eq!(screen.color(&cpu, 17), 0x123);
    cpu.registers[0] = 4;
    cpu.registers[1] = 0xa000;
    screen.interrupt(&mut cpu);
    assert_eq!(cpu.ram.get(0xa000), 0xabcd);
    assert_eq!(cpu.ram.get(0xa0ff), 0x1234);
    let mut devices = vec![Device::Lem1802(screen)];
    assert_eq!(devices[0].version(), 0x1802);
    assert_eq!(devices[0].manufacturer(), 0x1c6c8b36);
    assert_eq!(devices[0].tick(), None);
}

#[test]
fn cycle_costs() {
    let set = Instruction::Basic(BasicOp::SET, Value::Reg(Register::A), Value::Literal(5));
    assert_eq!(set.cycles(false), 1);
    assert_eq!(set.cycles(true), 2);
    let div = Instruction::Basic(BasicOp::DIV, Value::AtAddr(0x1000), Value::Literal(0x100));
    assert_eq!(div.cycles(false), 5);
    assert_eq!(Instruction::Special(SpecialOp::HWQ, Value::Reg(Register::A)).cycles(false), 4);
}
