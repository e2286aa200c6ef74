use vstd::prelude::*;

use crate::alu::{alu, alu_spec, cond, cond_spec, is_cond};
use crate::instruction::{decode_spec, reg_code, BasicOp, Instruction, SpecialOp, Value};
use crate::device::{device_hwi, device_tick_spec, Device};
use crate::ram::{Ram, RAM_SIZE};

verus! {

/// Most interrupts that may wait in the queue.
pub const QUEUE_LIMIT: usize = 256;

/// Why a step did not run an instruction.
#[derive(Debug, Clone, Copy, PartialEq, Eq, Structural)]
pub enum CpuError {
    /// The interrupt queue overflowed; the processor does nothing more.
    OnFire,
    /// The word at PC holds no known opcode.
    UnknownOpcode(u16),
    /// `BRK` was executed.
    Halted,
}

/// The processor: registers A, B, C, X, Y, Z, I, J (in that order), the
/// special registers, the interrupt state and the memory.
pub struct Cpu {
    pub registers: Vec<u16>,
    pub pc: u16,
    pub sp: u16,
    pub ex: u16,
    pub ia: u16,
    pub skip: bool,
    pub interrupts_enabled: bool,
    pub interrupt_queueing: bool,
    pub queue: Vec<u16>,
    pub on_fire: bool,
    pub ram: Ram,
}

/// Where an operand reads and writes.
#[derive(Debug, Clone, Copy, PartialEq, Eq, Structural)]
pub enum Location {
    Reg(usize),
    Mem(u16),
    SP,
    PC,
    EX,
    Lit(u16),
}

pub open spec fn wrap_add(x: u16, y: int) -> u16 {
    ((x + y) % 0x10000) as u16
}

/// `o` took the first queued interrupt: with IA set it pushed PC then A, jumped
/// to IA with the message in A and turned queueing on; with IA clear it only
/// dropped the message.
pub open spec fn dispatched(o: Cpu, n: Cpu) -> bool {
    let m = o.queue@[0];
    &&& n.queue@ == o.queue@.drop_first()
    &&& n.on_fire == o.on_fire
    &&& n.skip == o.skip
    &&& n.ex == o.ex
    &&& n.ia == o.ia
    &&& n.interrupts_enabled == o.interrupts_enabled
    &&& if o.ia != 0 {
        &&& n.sp == wrap_add(o.sp, -2)
        &&& n.ram@ == o.ram@.update(wrap_add(o.sp, -1) as int, o.pc).update(wrap_add(o.sp, -2) as int, o.registers@[0])
        &&& n.pc == o.ia
        &&& n.registers@ == o.registers@.update(0, m)
        &&& n.interrupt_queueing
    } else {
        &&& n.sp == o.sp
        &&& n.ram@ == o.ram@
        &&& n.pc == o.pc
        &&& n.registers@ == o.registers@
        &&& n.interrupt_queueing == o.interrupt_queueing
    }
}

/// `n` is `o` after message `m` was raised: it waits in the queue, or, with
/// the queue full, the processor catches fire.
pub open spec fn raised(o: Cpu, n: Cpu, m: u16) -> bool {
    &&& n.registers@ == o.registers@
    &&& n.pc == o.pc
    &&& n.sp == o.sp
    &&& n.ex == o.ex
    &&& n.ia == o.ia
    &&& n.ram@ == o.ram@
    &&& n.skip == o.skip
    &&& n.interrupt_queueing == o.interrupt_queueing
    &&& n.interrupts_enabled == o.interrupts_enabled
    &&& if o.queue@.len() >= QUEUE_LIMIT {
        n.on_fire && n.queue@ == o.queue@
    } else {
        n.on_fire == o.on_fire && n.queue@ == o.queue@.push(m)
    }
}

/// The instruction at PC, as the decoder reads it.
pub open spec fn fetched(c: Cpu) -> Option<(Instruction<u16>, nat)> {
    decode_spec(c.ram@[c.pc as int], c.ram@[wrap_add(c.pc, 1) as int], c.ram@[wrap_add(c.pc, 2) as int])
}

/// Where operand `v` points, given the registers and SP, and the SP after
/// `POP` (operand a) or `PUSH` (operand b) has moved it.
pub open spec fn locate_spec(regs: Seq<u16>, sp: u16, v: Value<u16>, is_a: bool) -> (Location, u16) {
    match v {
        Value::Reg(r) => (Location::Reg(reg_code(r) as usize), sp),
        Value::AtReg(r) => (Location::Mem(regs[reg_code(r) as int]), sp),
        Value::AtRegPlus(r, n) => (Location::Mem(wrap_add(regs[reg_code(r) as int], n as int)), sp),
        Value::PushPop => if is_a {
            (Location::Mem(sp), wrap_add(sp, 1))
        } else {
            (Location::Mem(wrap_add(sp, -1)), wrap_add(sp, -1))
        },
        Value::Peek => (Location::Mem(sp), sp),
        Value::Pick(n) => (Location::Mem(wrap_add(sp, n as int)), sp),
        Value::SP => (Location::SP, sp),
        Value::PC => (Location::PC, sp),
        Value::EX => (Location::EX, sp),
        Value::AtAddr(n) => (Location::Mem(n), sp),
        Value::Literal(n) => (Location::Lit(n), sp),
    }
}

/// The word at `l` in the state `c`, whose SP is taken to be `sp`.
pub open spec fn read_spec(c: Cpu, sp: u16, l: Location) -> u16 {
    match l {
        Location::Reg(i) => c.registers@[i as int],
        Location::Mem(a) => c.ram@[a as int],
        Location::SP => sp,
        Location::PC => c.pc,
        Location::EX => c.ex,
        Location::Lit(n) => n,
    }
}

/// `n` is `o` with `v` stored at `l`.
pub open spec fn stored(o: Cpu, n: Cpu, l: Location, v: u16) -> bool {
    &&& n.registers@ == match l {
        Location::Reg(i) => o.registers@.update(i as int, v),
        _ => o.registers@,
    }
    &&& n.ram@ == match l {
        Location::Mem(a) => o.ram@.update(a as int, v),
        _ => o.ram@,
    }
    &&& n.sp == match l {
        Location::SP => v,
        _ => o.sp,
    }
    &&& n.pc == match l {
        Location::PC => v,
        _ => o.pc,
    }
    &&& n.ex == match l {
        Location::EX => v,
        _ => o.ex,
    }
}

impl Cpu {
    pub open spec fn wf(&self) -> bool {
        &&& self.registers@.len() == 8
        &&& self.ram.wf()
        &&& self.queue@.len() <= QUEUE_LIMIT
    }

    /// A processor with every register, flag and word of memory at zero and
    /// interrupts enabled.
    pub fn new() -> (r: Cpu)
        ensures
            r.wf(),
            r.registers@ == seq![0u16, 0, 0, 0, 0, 0, 0, 0],
            r.pc == 0 && r.sp == 0 && r.ex == 0 && r.ia == 0,
            !r.skip && r.interrupts_enabled && !r.interrupt_queueing && !r.on_fire,
            r.queue@.len() == 0,
            forall|i: int| 0 <= i < RAM_SIZE ==> r.ram@[i] == 0,
    {
        let registers = vec![0u16; 8];
        assert(registers@ =~= seq![0u16, 0, 0, 0, 0, 0, 0, 0]);
        Cpu {
            registers,
            pc: 0,
            sp: 0,
            ex: 0,
            ia: 0,
            skip: false,
            interrupts_enabled: true,
            interrupt_queueing: false,
            queue: Vec::new(),
            on_fire: false,
            ram: Ram::new(),
        }
    }

    /// Copies `image` into memory from `base` on.
    pub fn load(&mut self, image: &[u16], base: u16)
        requires
            old(self).wf(),
            image@.len() <= RAM_SIZE,
        ensures
            final(self).wf(),
            forall|k: int| 0 <= k < image@.len() ==> final(self).ram@[crate::ram::wrap_addr(base as int, k)] == image@[k],
            forall|j: int|
                0 <= j < RAM_SIZE && !(exists|k: int|
                    0 <= k < image@.len() && j == #[trigger] crate::ram::wrap_addr(base as int, k))
                    ==> final(self).ram@[j] == old(self).ram@[j],
            same_but_data(*old(self), *final(self)),
            final(self).registers@ == old(self).registers@,
    {
        self.ram.load(image, base);
    }

    /// Queues interrupt message `m`; with 256 messages already waiting the
    /// processor catches fire instead.
    pub fn trigger_interrupt(&mut self, m: u16)
        requires
            old(self).wf(),
        ensures
            final(self).wf(),
            raised(*old(self), *final(self), m),
    {
        if self.queue.len() >= QUEUE_LIMIT {
            self.on_fire = true;
        } else {
            self.queue.push(m);
        }
    }

    fn push_word(&mut self, v: u16)
        requires
            old(self).wf(),
        ensures
            final(self).wf(),
            final(self).sp == wrap_add(old(self).sp, -1),
            final(self).ram@ == old(self).ram@.update(final(self).sp as int, v),
            final(self).registers@ == old(self).registers@,
            final(self).queue@ == old(self).queue@,
            final(self).pc == old(self).pc && final(self).ex == old(self).ex && final(self).ia == old(self).ia,
            final(self).skip == old(self).skip && final(self).on_fire == old(self).on_fire,
            final(self).interrupt_queueing == old(self).interrupt_queueing,
            final(self).interrupts_enabled == old(self).interrupts_enabled,
    {
        self.sp = self.sp.wrapping_sub(1);
        self.ram.set(self.sp, v);
    }

    fn pop_word(&mut self) -> (v: u16)
        requires
            old(self).wf(),
        ensures
            final(self).wf(),
            v == old(self).ram@[old(self).sp as int],
            final(self).sp == wrap_add(old(self).sp, 1),
            final(self).ram@ == old(self).ram@,
            final(self).registers@ == old(self).registers@,
            final(self).queue@ == old(self).queue@,
            final(self).pc == old(self).pc && final(self).ex == old(self).ex && final(self).ia == old(self).ia,
            final(self).skip == old(self).skip && final(self).on_fire == old(self).on_fire,
            final(self).interrupt_queueing == old(self).interrupt_queueing,
            final(self).interrupts_enabled == old(self).interrupts_enabled,
    {
        let v = self.ram.get(self.sp);
        self.sp = self.sp.wrapping_add(1);
        v
    }

    /// Takes the first queued interrupt.
    fn dispatch_interrupt(&mut self)
        requires
            old(self).wf(),
            old(self).queue@.len() > 0,
        ensures
            final(self).wf(),
            dispatched(*old(self), *final(self)),
    {
        let m = self.queue.remove(0);
        if self.ia != 0 {
            let pc = self.pc;
            self.push_word(pc);
            let a = self.registers[0];
            self.push_word(a);
            self.pc = self.ia;
            self.registers.set(0, m);
            self.interrupt_queueing = true;
        }
    }

    fn locate(&mut self, v: &Value<u16>, is_a: bool) -> (l: Location)
        requires
            old(self).wf(),
        ensures
            final(self).wf(),
            final(self).registers@ == old(self).registers@,
            final(self).ram@ == old(self).ram@,
            final(self).queue@ == old(self).queue@,
            final(self).pc == old(self).pc && final(self).ex == old(self).ex && final(self).ia == old(self).ia,
            final(self).skip == old(self).skip && final(self).on_fire == old(self).on_fire,
            final(self).interrupt_queueing == old(self).interrupt_queueing,
            final(self).interrupts_enabled == old(self).interrupts_enabled,
            match l {
                Location::Reg(i) => i < 8,
                _ => true,
            },
            (l, final(self).sp) == locate_spec(old(self).registers@, old(self).sp, *v, is_a),
    {
        match v {
            Value::Reg(r) => Location::Reg(r.index()),
            Value::AtReg(r) => Location::Mem(self.registers[r.index()]),
            Value::AtRegPlus(r, n) => Location::Mem(self.registers[r.index()].wrapping_add(*n)),
            Value::PushPop => if is_a {
                let at = self.sp;
                self.sp = self.sp.wrapping_add(1);
                Location::Mem(at)
            } else {
                self.sp = self.sp.wrapping_sub(1);
                Location::Mem(self.sp)
            },
            Value::Peek => Location::Mem(self.sp),
            Value::Pick(n) => Location::Mem(self.sp.wrapping_add(*n)),
            Value::SP => Location::SP,
            Value::PC => Location::PC,
            Value::EX => Location::EX,
            Value::AtAddr(n) => Location::Mem(*n),
            Value::Literal(n) => Location::Lit(*n),
        }
    }

    fn read(&self, l: &Location) -> (v: u16)
        requires
            self.wf(),
            match *l {
                Location::Reg(i) => i < 8,
                _ => true,
            },
        ensures
            v == read_spec(*self, self.sp, *l),
    {
        match l {
            Location::Reg(i) => self.registers[*i],
            Location::Mem(a) => self.ram.get(*a),
            Location::SP => self.sp,
            Location::PC => self.pc,
            Location::EX => self.ex,
            Location::Lit(n) => *n,
        }
    }

    /// Stores `v` where `l` points; a literal ignores the store.
    fn write(&mut self, l: &Location, v: u16)
        requires
            old(self).wf(),
            match *l {
                Location::Reg(i) => i < 8,
                _ => true,
            },
        ensures
            final(self).wf(),
            final(self).queue@ == old(self).queue@,
            final(self).ia == old(self).ia && final(self).skip == old(self).skip,
            final(self).on_fire == old(self).on_fire,
            final(self).interrupt_queueing == old(self).interrupt_queueing,
            final(self).interrupts_enabled == old(self).interrupts_enabled,
            stored(*old(self), *final(self), *l, v),
    {
        match l {
            Location::Reg(i) => self.registers.set(*i, v),
            Location::Mem(a) => self.ram.set(*a, v),
            Location::SP => self.sp = v,
            Location::PC => self.pc = v,
            Location::EX => self.ex = v,
            Location::Lit(_) => {},
        }
    }
}


/// Every device on the bus is well formed.
pub open spec fn devices_wf(d: Seq<Device>) -> bool {
    forall|i: int| 0 <= i < d.len() ==> (#[trigger] d[i]).wf()
}

/// The step dispatches an interrupt rather than run an instruction.
pub open spec fn dispatching(c: Cpu) -> bool {
    c.interrupts_enabled && !c.interrupt_queueing && c.queue@.len() > 0
}

pub open spec fn is_cond_instr(i: Instruction<u16>) -> bool {
    match i {
        Instruction::Basic(op, _, _) => is_cond(op),
        _ => false,
    }
}

/// `n` is `o` after the basic instruction `op b, a` has run, PC having
/// already moved past it in `o`. Operand a is located and read before b; a
/// test only decides whether the next instruction is skipped; an arithmetic
/// opcode sets EX before b is stored, so a result stored in EX wins.
#[verifier::opaque]
pub open spec fn basic_effect(o: Cpu, n: Cpu, op: BasicOp, b: Value<u16>, a: Value<u16>) -> bool {
    let (la, sp1) = locate_spec(o.registers@, o.sp, a, true);
    let va = read_spec(o, sp1, la);
    let (lb, sp2) = locate_spec(o.registers@, sp1, b, false);
    let vb = read_spec(o, sp2, lb);
    let moved = Cpu { sp: sp2, ..o };
    &&& n.queue@ == o.queue@ && n.on_fire == o.on_fire && n.ia == o.ia
    &&& n.interrupts_enabled == o.interrupts_enabled && n.interrupt_queueing == o.interrupt_queueing
    &&& if is_cond(op) {
        &&& n.registers@ == o.registers@ && n.ram@ == o.ram@
        &&& n.sp == sp2 && n.pc == o.pc && n.ex == o.ex
        &&& n.skip == !cond_spec(op, vb, va)
    } else if op == BasicOp::STI || op == BasicOp::STD {
        let step: int = if op == BasicOp::STI { 1 } else { -1 };
        exists|mid: Cpu| {
            &&& #[trigger] stored(moved, mid, lb, va)
            &&& n.registers@ == mid.registers@.update(6, wrap_add(mid.registers@[6], step)).update(7, wrap_add(mid.registers@[7], step))
            &&& n.ram@ == mid.ram@ && n.sp == mid.sp && n.pc == mid.pc && n.ex == mid.ex
            &&& n.skip == o.skip
        }
    } else {
        &&& stored(Cpu { ex: alu_spec(op, vb, va, o.ex).1, ..moved }, n, lb, alu_spec(op, vb, va, o.ex).0)
        &&& n.skip == o.skip
    }
}

/// `n` and `o` agree on every register, flag, the queue and memory.
pub open spec fn same_state(o: Cpu, n: Cpu) -> bool {
    &&& n.registers@ == o.registers@ && n.ram@ == o.ram@ && n.queue@ == o.queue@
    &&& n.pc == o.pc && n.sp == o.sp && n.ex == o.ex && n.ia == o.ia
    &&& n.skip == o.skip && n.on_fire == o.on_fire
    &&& n.interrupts_enabled == o.interrupts_enabled && n.interrupt_queueing == o.interrupt_queueing
}

/// `n` agrees with `o` but on the registers and memory.
pub open spec fn same_but_data(o: Cpu, n: Cpu) -> bool {
    &&& n.queue@ == o.queue@
    &&& n.pc == o.pc && n.sp == o.sp && n.ex == o.ex && n.ia == o.ia
    &&& n.skip == o.skip && n.on_fire == o.on_fire
    &&& n.interrupts_enabled == o.interrupts_enabled && n.interrupt_queueing == o.interrupt_queueing
}

/// `n` is `o` after the special instruction `op a` has run on a bus holding
/// `devices`, PC having already moved past it in `o`. What a device does
/// with `HWI` is up to the device; the processor's control state is kept.
#[verifier::opaque]
pub open spec fn special_effect(o: Cpu, n: Cpu, op: SpecialOp, a: Value<u16>, devices: Seq<Device>, nd: Seq<Device>) -> bool {
    let (la, sp1) = locate_spec(o.registers@, o.sp, a, true);
    let v = read_spec(o, sp1, la);
    let moved = Cpu { sp: sp1, ..o };
    &&& if op == SpecialOp::HWI && (v as int) < devices.len() {
        nd == devices.update(v as int, nd[v as int]) && device_hwi(devices[v as int], nd[v as int], moved, n)
    } else {
        nd == devices
    }
    &&& match op {
        SpecialOp::BRK => same_state(o, n),
        SpecialOp::JSR => {
            &&& n.sp == wrap_add(sp1, -1)
            &&& n.ram@ == o.ram@.update(wrap_add(sp1, -1) as int, o.pc)
            &&& n.pc == v
            &&& same_state(Cpu { sp: n.sp, pc: n.pc, ..moved }, Cpu { ram: o.ram, ..n })
        },
        SpecialOp::INT => raised(moved, n, v),
        SpecialOp::IAG => stored(moved, n, la, o.ia) && same_but_data(Cpu { sp: n.sp, pc: n.pc, ex: n.ex, ..moved }, n),
        SpecialOp::IAS => same_state(Cpu { ia: v, ..moved }, n),
        SpecialOp::RFI => {
            &&& n.registers@ == o.registers@.update(0, o.ram@[sp1 as int])
            &&& n.pc == o.ram@[wrap_add(sp1, 1) as int]
            &&& n.sp == wrap_add(sp1, 2)
            &&& !n.interrupt_queueing
            &&& n.ram@ == o.ram@ && n.queue@ == o.queue@ && n.ex == o.ex && n.ia == o.ia
            &&& n.skip == o.skip && n.on_fire == o.on_fire && n.interrupts_enabled == o.interrupts_enabled
        },
        SpecialOp::IAQ => same_state(Cpu { interrupt_queueing: v != 0, ..moved }, n),
        SpecialOp::HWN => stored(moved, n, la, if devices.len() > 0xffff { 0xffffu16 } else { devices.len() as u16 })
            && same_but_data(Cpu { sp: n.sp, pc: n.pc, ex: n.ex, ..moved }, n),
        SpecialOp::HWQ => if (v as int) < devices.len() {
            let d = devices[v as int];
            &&& n.registers@ == o.registers@.update(0, (d.id_spec() % 0x10000) as u16)
                .update(1, (d.id_spec() / 0x10000) as u16)
                .update(2, d.version_spec())
                .update(3, (d.manufacturer_spec() % 0x10000) as u16)
                .update(4, (d.manufacturer_spec() / 0x10000) as u16)
            &&& n.ram@ == o.ram@ && same_but_data(moved, n)
        } else {
            same_state(moved, n)
        },
        SpecialOp::HWI => if (v as int) < devices.len() {
            &&& n.pc == o.pc && n.sp == sp1 && n.queue@ == o.queue@ && n.on_fire == o.on_fire
            &&& n.ex == o.ex && n.ia == o.ia && n.skip == o.skip
            &&& n.interrupts_enabled == o.interrupts_enabled && n.interrupt_queueing == o.interrupt_queueing
        } else {
            same_state(moved, n)
        },
    }
}

/// What one step does: `o` and `od` are the processor and the devices
/// before it, `n` and `nd` after it, `r` what it returned.
pub open spec fn step_post(o: Cpu, n: Cpu, od: Seq<Device>, nd: Seq<Device>, r: Result<(), CpuError>) -> bool {
    &&& (o.on_fire ==> r == Err::<(), CpuError>(CpuError::OnFire) && n == o && nd == od)
    &&& (!o.on_fire && o.skip ==> match fetched(o) {
            None => r == Err::<(), CpuError>(CpuError::UnknownOpcode(o.ram@[o.pc as int])),
            Some((i, w)) => {
                &&& r is Ok
                &&& n.pc == wrap_add(o.pc, w as int)
                &&& n.skip == is_cond_instr(i)
                &&& n.registers@ == o.registers@ && n.ram@ == o.ram@
                &&& n.sp == o.sp && n.queue@ == o.queue@
                &&& n.ex == o.ex && n.ia == o.ia && n.on_fire == o.on_fire
                &&& n.interrupts_enabled == o.interrupts_enabled && n.interrupt_queueing == o.interrupt_queueing
                &&& nd == od
            },
        })
    &&& (!o.on_fire && !o.skip && dispatching(o) ==> r is Ok && dispatched(o, n) && nd == od)
    &&& (!o.on_fire && !o.skip && !dispatching(o) ==> match fetched(o) {
            None => r == Err::<(), CpuError>(CpuError::UnknownOpcode(o.ram@[o.pc as int])),
            Some((Instruction::Basic(op, b, a), w)) => {
                &&& r is Ok
                &&& n.queue@ == o.queue@ && n.on_fire == o.on_fire
                &&& nd == od
                &&& basic_effect(Cpu { pc: wrap_add(o.pc, w as int), ..o }, n, op, b, a)
            },
            Some((Instruction::Special(op, a), w)) => {
                &&& (r == Err::<(), CpuError>(CpuError::Halted)) <==> (op == SpecialOp::BRK)
                &&& special_effect(Cpu { pc: wrap_add(o.pc, w as int), ..o }, n, op, a, od, nd)
            },
        })
}

impl Cpu {
    #[verifier::rlimit(100)]
    #[verifier::spinoff_prover]
    fn execute_basic(&mut self, op: BasicOp, b: &Value<u16>, a: &Value<u16>)
        requires
            old(self).wf(),
            !old(self).skip,
        ensures
            final(self).wf(),
            final(self).queue@ == old(self).queue@ && final(self).on_fire == old(self).on_fire,
            basic_effect(*old(self), *final(self), op, *b, *a),
    {
        proof {
            reveal(basic_effect);
        }
        let la = self.locate(a, true);
        let va = self.read(&la);
        let lb = self.locate(b, false);
        let vb = self.read(&lb);
        let ghost moved = Cpu { sp: self.sp, ..*old(self) };
        if is_cond_op(op) {
            if !cond(op, vb, va) {
                self.skip = true;
            }
        } else if op == BasicOp::STI || op == BasicOp::STD {
            self.write(&lb, va);
            let ghost mid = *self;
            let i = self.registers[6];
            let j = self.registers[7];
            if op == BasicOp::STI {
                self.registers.set(6, i.wrapping_add(1));
                self.registers.set(7, j.wrapping_add(1));
            } else {
                self.registers.set(6, i.wrapping_sub(1));
                self.registers.set(7, j.wrapping_sub(1));
            }
            assert(stored(moved, mid, lb, va));
        } else {
            let (nb, nex) = alu(op, vb, va, self.ex);
            self.ex = nex;
            self.write(&lb, nb);
            assert(stored(Cpu { ex: nex, ..moved }, *self, lb, nb));
        }
    }

    fn execute_special(&mut self, op: SpecialOp, a: &Value<u16>, devices: &mut Vec<Device>) -> (r: Result<(), CpuError>)
        requires
            old(self).wf(),
            devices_wf(old(devices)@),
        ensures
            final(self).wf(),
            final(devices)@.len() == old(devices)@.len(),
            devices_wf(final(devices)@),
            (r == Err::<(), CpuError>(CpuError::Halted)) <==> (op == SpecialOp::BRK),
            r is Err ==> *final(self) == *old(self),
            special_effect(*old(self), *final(self), op, *a, old(devices)@, final(devices)@),
            op != SpecialOp::INT ==> final(self).queue@ == old(self).queue@ && final(self).on_fire == old(self).on_fire,
    {
        proof {
            reveal(special_effect);
        }
        if let SpecialOp::BRK = op {
            return Err(CpuError::Halted);
        }
        let la = self.locate(a, true);
        let v = self.read(&la);
        match op {
            SpecialOp::JSR => {
                let pc = self.pc;
                self.push_word(pc);
                self.pc = v;
            },
            SpecialOp::INT => self.trigger_interrupt(v),
            SpecialOp::IAG => {
                let ia = self.ia;
                self.write(&la, ia);
            },
            SpecialOp::IAS => self.ia = v,
            SpecialOp::RFI => {
                self.interrupt_queueing = false;
                let a = self.pop_word();
                self.registers.set(0, a);
                self.pc = self.pop_word();
            },
            SpecialOp::IAQ => self.interrupt_queueing = v != 0,
            SpecialOp::HWN => {
                let n: u16 = if devices.len() > 0xffff { 0xffff } else { devices.len() as u16 };
                self.write(&la, n);
            },
            SpecialOp::HWQ => {
                if (v as usize) < devices.len() {
                    let id = devices[v as usize].id();
                    let version = devices[v as usize].version();
                    let mfr = devices[v as usize].manufacturer();
                    self.registers.set(0, (id % 0x10000) as u16);
                    self.registers.set(1, (id / 0x10000) as u16);
                    self.registers.set(2, version);
                    self.registers.set(3, (mfr % 0x10000) as u16);
                    self.registers.set(4, (mfr / 0x10000) as u16);
                }
            },
            SpecialOp::HWI => {
                if (v as usize) < devices.len() {
                    let ghost before = devices@;
                    let mut d = devices.remove(v as usize);
                    d.interrupt(self);
                    devices.insert(v as usize, d);
                    assert(devices@ =~= before.update(v as int, devices@[v as int]));
                    proof {
                        assert forall|i: int| 0 <= i < devices@.len() implies (#[trigger] devices@[i]).wf() by {
                            if i != v as int {
                                if i < v as int {
                                    assert(devices@[i] == before[i]);
                                } else {
                                    assert(devices@[i] == before[i]);
                                }
                            }
                        }
                    }
                }
            },
            SpecialOp::BRK => {},
        }
        Ok(())
    }

    /// One step: skip an instruction, take an interrupt, or run an instruction.
    #[verifier::rlimit(100)]
    #[verifier::spinoff_prover]
    pub fn step(&mut self, devices: &mut Vec<Device>) -> (r: Result<(), CpuError>)
        requires
            old(self).wf(),
            devices_wf(old(devices)@),
        ensures
            final(self).wf(),
            final(devices)@.len() == old(devices)@.len(),
            devices_wf(final(devices)@),
            step_post(*old(self), *final(self), old(devices)@, final(devices)@, r),
    {
        if self.on_fire {
            return Err(CpuError::OnFire);
        }
        if !self.skip && self.interrupts_enabled && !self.interrupt_queueing && self.queue.len() > 0 {
            self.dispatch_interrupt();
            return Ok(());
        }
        let w0 = self.ram.get(self.pc);
        let w1 = self.ram.get(self.pc.wrapping_add(1));
        let w2 = self.ram.get(self.pc.wrapping_add(2));
        let (instr, n) = match Instruction::decode_words(w0, w1, w2) {
            Some(d) => d,
            None => return Err(CpuError::UnknownOpcode(w0)),
        };
        if self.skip {
            self.pc = self.pc.wrapping_add(n);
            self.skip = is_cond_instruction(&instr);
            return Ok(());
        }
        self.pc = self.pc.wrapping_add(n);
        assert(*self == Cpu { pc: wrap_add(old(self).pc, n as int), ..*old(self) });
        match &instr {
            Instruction::Basic(op, b, a) => {
                self.execute_basic(*op, b, a);
                Ok(())
            },
            Instruction::Special(op, a) => {
                let r = self.execute_special(*op, a, devices);
                r
            },
        }
    }
}

fn is_cond_op(op: BasicOp) -> (r: bool)
    ensures
        r == is_cond(op),
{
    match op {
        BasicOp::IFB | BasicOp::IFC | BasicOp::IFE | BasicOp::IFN | BasicOp::IFG | BasicOp::IFA
        | BasicOp::IFL | BasicOp::IFU => true,
        _ => false,
    }
}

fn is_cond_instruction(i: &Instruction<u16>) -> (r: bool)
    ensures
        r == is_cond_instr(*i),
{
    match i {
        Instruction::Basic(op, _, _) => is_cond_op(*op),
        _ => false,
    }
}

/// With IA clear, interrupts never reach the program: however many are
/// raised and taken, PC, the registers, SP and memory stay as they were.
pub proof fn lemma_ia_zero_interrupts_inert(states: Seq<Cpu>, msgs: Seq<u16>)
    requires
        states.len() >= 1,
        msgs.len() + 1 == states.len(),
        states[0].ia == 0,
        forall|i: int| 0 <= i < msgs.len() ==>
            raised(#[trigger] states[i], states[i + 1], msgs[i])
            || (states[i].queue@.len() > 0 && dispatched(states[i], states[i + 1])),
    ensures
        ({
            let l = states.last();
            &&& l.ia == 0
            &&& l.pc == states[0].pc
            &&& l.registers@ == states[0].registers@
            &&& l.sp == states[0].sp
            &&& l.ram@ == states[0].ram@
        }),
    decreases states.len(),
{
    if states.len() > 1 {
        let prefix = states.drop_last();
        let pm = msgs.drop_last();
        assert forall|i: int| 0 <= i < pm.len() implies
            raised(#[trigger] prefix[i], prefix[i + 1], pm[i])
            || (prefix[i].queue@.len() > 0 && dispatched(prefix[i], prefix[i + 1])) by {
            assert(prefix[i] == states[i] && prefix[i + 1] == states[i + 1] && pm[i] == msgs[i]);
        }
        lemma_ia_zero_interrupts_inert(prefix, pm);
        let k = msgs.len() - 1;
        assert(states[k] == prefix.last());
        assert(raised(states[k], states[k + 1], msgs[k])
            || (states[k].queue@.len() > 0 && dispatched(states[k], states[k + 1])));
    }
}

/// With IA set and queueing off, a step takes exactly one interrupt: it pushes
/// PC and then A, jumps to IA with the message in A, and turns queueing on, so
/// the next step takes none.
pub proof fn lemma_dispatch_takes_one(o: Cpu, n: Cpu)
    requires
        o.wf(),
        o.ia != 0,
        dispatching(o),
        dispatched(o, n),
    ensures
        n.queue@ == o.queue@.drop_first(),
        n.sp == wrap_add(o.sp, -2),
        n.ram@[wrap_add(o.sp, -1) as int] == o.pc,
        n.ram@[wrap_add(o.sp, -2) as int] == o.registers@[0],
        n.pc == o.ia,
        n.registers@[0] == o.queue@[0],
        !dispatching(n),
{
}

/// Raising an interrupt while 256 wait sets the processor on fire, and a
/// processor on fire stays as it is.
pub proof fn lemma_queue_overflow_fire(o: Cpu, n: Cpu, m: u16)
    requires
        o.queue@.len() == QUEUE_LIMIT,
        raised(o, n, m),
    ensures
        n.on_fire,
        n.queue@ == o.queue@,
{
}

/// The queue and fire flag after message `m`, if any, is raised.
pub open spec fn raise_one(q: Seq<u16>, fire: bool, m: Option<u16>) -> (Seq<u16>, bool) {
    match m {
        None => (q, fire),
        Some(x) => if q.len() >= QUEUE_LIMIT { (q, true) } else { (q.push(x), fire) },
    }
}

/// The queue and fire flag after the messages `msgs` are raised in order.
pub open spec fn raise_all(q: Seq<u16>, fire: bool, msgs: Seq<Option<u16>>) -> (Seq<u16>, bool)
    decreases msgs.len(),
{
    if msgs.len() == 0 {
        (q, fire)
    } else {
        let (q1, f1) = raise_all(q, fire, msgs.drop_last());
        raise_one(q1, f1, msgs.last())
    }
}

/// The messages the devices of `d` return when each ticks once.
pub open spec fn tick_messages(d: Seq<Device>) -> Seq<Option<u16>> {
    Seq::new(d.len(), |i: int| device_tick_spec(d[i]).1)
}

/// `c` and `nd` are the processor and devices of `o` after every device
/// ticked once, in order, and the messages they returned were raised.
pub open spec fn devices_ticked(o: Computer, c: Cpu, nd: Seq<Device>) -> bool {
    &&& nd == Seq::new(o.devices@.len(), |i: int| device_tick_spec(o.devices@[i]).0)
    &&& (c.queue@, c.on_fire) == raise_all(o.cpu.queue@, o.cpu.on_fire, tick_messages(o.devices@))
    &&& c.registers@ == o.cpu.registers@ && c.ram@ == o.cpu.ram@
    &&& c.pc == o.cpu.pc && c.sp == o.cpu.sp && c.ex == o.cpu.ex && c.ia == o.cpu.ia && c.skip == o.cpu.skip
    &&& c.interrupts_enabled == o.cpu.interrupts_enabled && c.interrupt_queueing == o.cpu.interrupt_queueing
}

/// `n` is `o` after one tick that returned `r`: the devices tick, then the
/// processor steps.
pub open spec fn computer_ticked(o: Computer, n: Computer, r: Result<(), CpuError>) -> bool {
    &&& n.current_tick == wrap_add64(o.current_tick, 1)
    &&& exists|c: Cpu, d: Seq<Device>| devices_ticked(o, c, d) && #[trigger] step_post(c, n.cpu, d, n.devices@, r)
}

/// A step that runs an arithmetic instruction `op [x], v` stores in memory
/// at `x` exactly what the arithmetic unit computes from the old word, `v`
/// and EX, sets EX to its second result, and neither raises nor takes an
/// interrupt. With the laws of `crate::alu` this gives the carry of `ADD`, the
/// borrow of `SUB`, the whole product of `MUL` and the zero of `DIV` by zero.
pub proof fn lemma_step_arith_to_memory(
    o: Cpu,
    n: Cpu,
    od: Seq<Device>,
    nd: Seq<Device>,
    r: Result<(), CpuError>,
    op: BasicOp,
    x: u16,
    v: u16,
    w: nat,
)
    requires
        o.wf(),
        step_post(o, n, od, nd, r),
        !o.on_fire && !o.skip && !dispatching(o),
        fetched(o) == Some((Instruction::Basic(op, Value::AtAddr(x), Value::Literal(v)), w)),
        !is_cond(op) && op != BasicOp::STI && op != BasicOp::STD,
    ensures
        r is Ok,
        n.ram@ == o.ram@.update(x as int, alu_spec(op, o.ram@[x as int], v, o.ex).0),
        n.ex == alu_spec(op, o.ram@[x as int], v, o.ex).1,
        n.queue@ == o.queue@ && !n.on_fire,
        n.pc == wrap_add(o.pc, w as int),
        n.registers@ == o.registers@,
{
    reveal(basic_effect);
}

/// A processor and the devices on its bus.
pub struct Computer {
    pub cpu: Cpu,
    pub devices: Vec<Device>,
    pub current_tick: u64,
}

impl Computer {
    pub open spec fn wf(&self) -> bool {
        self.cpu.wf() && devices_wf(self.devices@)
    }

    pub fn new(cpu: Cpu, devices: Vec<Device>) -> (r: Computer)
        requires
            cpu.wf(),
            devices_wf(devices@),
        ensures
            r.cpu == cpu,
            r.devices@ == devices@,
            r.current_tick == 0,
    {
        Computer { cpu, devices, current_tick: 0 }
    }

    /// One tick: each device ticks in turn and may raise its message, then
    /// the processor steps.
    pub fn tick(&mut self) -> (r: Result<(), CpuError>)
        requires
            old(self).wf(),
        ensures
            final(self).wf(),
            final(self).devices@.len() == old(self).devices@.len(),
            computer_ticked(*old(self), *final(self), r),
            old(self).cpu.on_fire ==> r == Err::<(), CpuError>(CpuError::OnFire),
    {
        let ghost od = old(self).devices@;
        let ghost oc = old(self).cpu;
        let mut i: usize = 0;
        while i < self.devices.len()
            invariant
                self.wf(),
                i <= self.devices@.len(),
                self.devices@.len() == od.len(),
                od == old(self).devices@,
                oc == old(self).cpu,
                self.current_tick == old(self).current_tick,
                old(self).cpu.on_fire ==> self.cpu.on_fire,
                self.devices@ == Seq::new(od.len(), |k: int| if k < i { device_tick_spec(od[k]).0 } else { od[k] }),
                (self.cpu.queue@, self.cpu.on_fire) == raise_all(oc.queue@, oc.on_fire, tick_messages(od).subrange(0, i as int)),
                self.cpu.registers@ == oc.registers@ && self.cpu.ram@ == oc.ram@,
                self.cpu.pc == oc.pc && self.cpu.sp == oc.sp && self.cpu.ex == oc.ex && self.cpu.ia == oc.ia,
                self.cpu.skip == oc.skip,
                self.cpu.interrupts_enabled == oc.interrupts_enabled,
                self.cpu.interrupt_queueing == oc.interrupt_queueing,
            decreases self.devices@.len() - i,
        {
            let ghost before = self.devices@;
            let ghost msgs = tick_messages(od).subrange(0, i as int);
            let mut d = self.devices.remove(i);
            let msg = d.tick();
            self.devices.insert(i, d);
            assert(self.devices@ =~= Seq::new(od.len(), |k: int| if k < i + 1 { device_tick_spec(od[k]).0 } else { od[k] }));
            assert(tick_messages(od).subrange(0, i + 1).drop_last() =~= msgs);
            assert(tick_messages(od).subrange(0, i + 1).last() == msg);
            proof {
                assert forall|k: int| 0 <= k < self.devices@.len() implies (#[trigger] self.devices@[k]).wf() by {
                    if k != i as int {
                        assert(self.devices@[k] == before[k]);
                    }
                }
            }
            if let Some(m) = msg {
                self.cpu.trigger_interrupt(m);
            }
            i = i + 1;
        }
        let ghost mid = self.cpu;
        let ghost md = self.devices@;
        proof {
            assert(tick_messages(od).subrange(0, od.len() as int) =~= tick_messages(od));
            assert(md =~= Seq::new(od.len(), |k: int| device_tick_spec(od[k]).0));
            assert(devices_ticked(*old(self), mid, md));
        }
        let r = self.cpu.step(&mut self.devices);
        self.current_tick = self.current_tick.wrapping_add(1);
        assert(step_post(mid, self.cpu, md, self.devices@, r));
        r
    }
}

pub open spec fn wrap_add64(x: u64, y: int) -> u64 {
    ((x + y) % 0x1_0000_0000_0000_0000) as u64
}

} // verus!
