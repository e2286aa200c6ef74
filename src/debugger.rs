use vstd::prelude::*;

use crate::cpu::{computer_ticked, Computer, Cpu, CpuError};
use crate::device::Device;
use crate::instruction::{decode_spec, Instruction};

verus! {

/// The instruction of `e` is what memory holds at the address of `e`.
#[verifier::opaque]
pub open spec fn decodes_at(ram: Seq<u16>, e: (u16, Instruction<u16>)) -> bool {
    decode_spec(ram[e.0 as int], ram[((e.0 + 1) % 0x10000) as int], ram[((e.0 + 2) % 0x10000) as int]) matches Some((i, _))
        && i == e.1
}

/// Words taken by the instruction at `p`, or 0 where none decodes.
#[verifier::opaque]
pub open spec fn width_at(ram: Seq<u16>, p: u16) -> nat {
    match decode_spec(ram[p as int], ram[((p + 1) % 0x10000) as int], ram[((p + 2) % 0x10000) as int]) {
        Some((_, n)) => n,
        None => 0,
    }
}

/// `cs` are the computers from `o` to `n` through the ticks that returned
/// `rs`; every tick but the last succeeded and left PC off the breakpoints.
pub open spec fn run_trace(o: Computer, n: Computer, cs: Seq<Computer>, rs: Seq<Result<(), CpuError>>, bps: Seq<u16>) -> bool {
    &&& cs.len() == rs.len() + 1
    &&& cs[0] == o
    &&& cs.last() == n
    &&& forall|k: int| 0 <= k < rs.len() ==> computer_ticked(cs[k], cs[k + 1], #[trigger] rs[k])
    &&& forall|k: int| 0 <= k < rs.len() - 1 ==> (#[trigger] rs[k]) is Ok && !bps.contains(cs[k + 1].cpu.pc)
}

/// Why `run` gave control back.
#[derive(Debug, Clone, Copy, PartialEq, Eq, Structural)]
pub enum Stop {
    /// PC reached a breakpoint.
    Breakpoint(u16),
    /// The tick budget ran out.
    Budget,
}

/// A processor with its devices under the control of a user: single steps,
/// runs up to a breakpoint, and inspection of memory, registers and code.
pub struct Debugger {
    pub computer: Computer,
    pub breakpoints: Vec<u16>,
}

impl Debugger {
    pub open spec fn wf(&self) -> bool {
        self.computer.wf()
    }

    pub fn new(cpu: Cpu, devices: Vec<Device>) -> (r: Debugger)
        requires
            cpu.wf(),
            crate::cpu::devices_wf(devices@),
        ensures
            r.wf(),
            r.computer.cpu == cpu,
            r.computer.devices@ == devices@,
            r.breakpoints@.len() == 0,
    {
        Debugger { computer: Computer::new(cpu, devices), breakpoints: Vec::new() }
    }

    /// One tick of the devices and one processor step.
    pub fn step(&mut self) -> (r: Result<(), CpuError>)
        requires
            old(self).wf(),
        ensures
            final(self).wf(),
            final(self).breakpoints@ == old(self).breakpoints@,
            computer_ticked(old(self).computer, final(self).computer, r),
            old(self).computer.cpu.on_fire ==> r == Err::<(), CpuError>(CpuError::OnFire),
    {
        self.computer.tick()
    }

    pub fn set_breakpoint(&mut self, addr: u16)
        ensures
            final(self).breakpoints@.contains(addr),
            forall|a: u16| a != addr ==> (final(self).breakpoints@.contains(a) <==> old(self).breakpoints@.contains(a)),
            final(self).computer == old(self).computer,
    {
        if !self.has_breakpoint(addr) {
            self.breakpoints.push(addr);
            assert(self.breakpoints@[self.breakpoints@.len() - 1] == addr);
        }
        proof {
            assert forall|a: u16| a != addr implies (self.breakpoints@.contains(a) <==> old(self).breakpoints@.contains(a)) by {
                if self.breakpoints@.contains(a) {
                    let j = choose|j: int| 0 <= j < self.breakpoints@.len() && self.breakpoints@[j] == a;
                    if j < old(self).breakpoints@.len() {
                        assert(old(self).breakpoints@[j] == a);
                    }
                }
                if old(self).breakpoints@.contains(a) {
                    let j = choose|j: int| 0 <= j < old(self).breakpoints@.len() && old(self).breakpoints@[j] == a;
                    assert(self.breakpoints@[j] == a);
                }
            }
        }
    }

    pub fn clear_breakpoint(&mut self, addr: u16)
        ensures
            !final(self).breakpoints@.contains(addr),
            forall|a: u16| a != addr ==> (final(self).breakpoints@.contains(a) <==> old(self).breakpoints@.contains(a)),
            final(self).computer == old(self).computer,
    {
        let mut kept: Vec<u16> = Vec::new();
        let mut i: usize = 0;
        while i < self.breakpoints.len()
            invariant
                i <= self.breakpoints@.len(),
                self.breakpoints@ == old(self).breakpoints@,
                forall|j: int| 0 <= j < kept@.len() ==> kept@[j] != addr,
                forall|a: u16| a != addr ==> (kept@.contains(a) <==> self.breakpoints@.subrange(0, i as int).contains(a)),
            decreases self.breakpoints@.len() - i,
        {
            let b = self.breakpoints[i];
            proof {
                let s = self.breakpoints@.subrange(0, i as int);
                let t = self.breakpoints@.subrange(0, i + 1);
                assert(t =~= s.push(b));
                assert forall|a: u16| #[trigger] t.contains(a) <==> (s.contains(a) || a == b) by {
                    if t.contains(a) {
                        let j = choose|j: int| 0 <= j < t.len() && t[j] == a;
                        if j < s.len() {
                            assert(s[j] == a);
                        }
                    }
                    if s.contains(a) {
                        let j = choose|j: int| 0 <= j < s.len() && s[j] == a;
                        assert(t[j] == a);
                    }
                    if a == b {
                        assert(t[i as int] == a);
                    }
                }
            }
            let ghost before = kept@;
            if b != addr {
                kept.push(b);
                proof {
                    assert forall|a: u16| #[trigger] kept@.contains(a) <==> (before.contains(a) || a == b) by {
                        if kept@.contains(a) {
                            let j = choose|j: int| 0 <= j < kept@.len() && kept@[j] == a;
                            if j < before.len() {
                                assert(before[j] == a);
                            }
                        }
                        if before.contains(a) {
                            let j = choose|j: int| 0 <= j < before.len() && before[j] == a;
                            assert(kept@[j] == a);
                        }
                        if a == b {
                            assert(kept@[before.len() as int] == a);
                        }
                    }
                }
            }
            i = i + 1;
        }
        assert(self.breakpoints@.subrange(0, i as int) =~= self.breakpoints@);
        self.breakpoints = kept;
    }

    pub fn has_breakpoint(&self, addr: u16) -> (r: bool)
        ensures
            r == self.breakpoints@.contains(addr),
    {
        let mut i: usize = 0;
        while i < self.breakpoints.len()
            invariant
                i <= self.breakpoints@.len(),
                forall|j: int| 0 <= j < i ==> self.breakpoints@[j] != addr,
            decreases self.breakpoints@.len() - i,
        {
            if self.breakpoints[i] == addr {
                return true;
            }
            i = i + 1;
        }
        false
    }

    /// Steps until PC stands on a breakpoint, a step fails, or `budget`
    /// ticks have run.
    pub fn run(&mut self, budget: u64) -> (r: Result<Stop, CpuError>)
        requires
            old(self).wf(),
        ensures
            final(self).wf(),
            final(self).breakpoints@ == old(self).breakpoints@,
            exists|cs: Seq<Computer>, rs: Seq<Result<(), CpuError>>| {
                &&& #[trigger] run_trace(old(self).computer, final(self).computer, cs, rs, old(self).breakpoints@)
                &&& rs.len() <= budget
                &&& match r {
                    Ok(Stop::Budget) => rs.len() == budget && (rs.len() > 0 ==>
                        rs.last() is Ok && !old(self).breakpoints@.contains(final(self).computer.cpu.pc)),
                    Ok(Stop::Breakpoint(a)) => rs.len() > 0 && rs.last() is Ok
                        && a == final(self).computer.cpu.pc && old(self).breakpoints@.contains(a),
                    Err(e) => rs.len() > 0 && rs.last() == Err::<(), CpuError>(e),
                }
            },
    {
        let ghost mut cs: Seq<Computer> = seq![self.computer];
        let ghost mut rs: Seq<Result<(), CpuError>> = seq![];
        let mut n: u64 = 0;
        while n < budget
            invariant
                self.wf(),
                self.breakpoints@ == old(self).breakpoints@,
                rs.len() == n,
                n <= budget,
                run_trace(old(self).computer, self.computer, cs, rs, old(self).breakpoints@),
                rs.len() > 0 ==> rs.last() is Ok && !old(self).breakpoints@.contains(self.computer.cpu.pc),
            decreases budget - n,
        {
            let ghost prev = self.computer;
            let ghost pcs = cs;
            let ghost prs = rs;
            let t = self.step();
            proof {
                cs = cs.push(self.computer);
                rs = rs.push(t);
                assert forall|k: int| 0 <= k < rs.len() implies computer_ticked(cs[k], cs[k + 1], #[trigger] rs[k]) by {
                    if k < prs.len() {
                        assert(cs[k] == pcs[k] && cs[k + 1] == pcs[k + 1] && rs[k] == prs[k]);
                    }
                }
                assert forall|k: int| 0 <= k < rs.len() - 1 implies (#[trigger] rs[k]) is Ok && !old(self).breakpoints@.contains(cs[k + 1].cpu.pc) by {
                    if k < prs.len() - 1 {
                        assert(cs[k + 1] == pcs[k + 1] && rs[k] == prs[k]);
                    } else {
                        assert(rs[k] == prs.last() && cs[k + 1] == pcs.last());
                    }
                }
            }
            if let Err(e) = t {
                assert(run_trace(old(self).computer, self.computer, cs, rs, old(self).breakpoints@));
                return Err(e);
            }
            let pc = self.computer.cpu.pc;
            if self.has_breakpoint(pc) {
                assert(run_trace(old(self).computer, self.computer, cs, rs, old(self).breakpoints@));
                return Ok(Stop::Breakpoint(pc));
            }
            n = n + 1;
        }
        assert(run_trace(old(self).computer, self.computer, cs, rs, old(self).breakpoints@));
        Ok(Stop::Budget)
    }

    /// The words of memory in `[lo, hi)`.
    pub fn memory(&self, lo: u16, hi: u16) -> (r: Vec<u16>)
        requires
            self.wf(),
            lo <= hi,
        ensures
            r@ == self.computer.cpu.ram@.subrange(lo as int, hi as int),
    {
        self.computer.cpu.ram.range(lo, hi)
    }

    /// A, B, C, X, Y, Z, I, J, then PC, SP, EX and IA.
    pub fn registers(&self) -> (r: Vec<u16>)
        requires
            self.wf(),
        ensures
            r@ == self.computer.cpu.registers@ + seq![
                self.computer.cpu.pc,
                self.computer.cpu.sp,
                self.computer.cpu.ex,
                self.computer.cpu.ia,
            ],
    {
        let c = &self.computer.cpu;
        let mut r: Vec<u16> = Vec::new();
        let mut i: usize = 0;
        while i < 8
            invariant
                c.registers@.len() == 8,
                i <= 8,
                r@ == c.registers@.subrange(0, i as int),
            decreases 8 - i,
        {
            r.push(c.registers[i]);
            i = i + 1;
        }
        r.push(c.pc);
        r.push(c.sp);
        r.push(c.ex);
        r.push(c.ia);
        assert(r@ =~= c.registers@ + seq![c.pc, c.sp, c.ex, c.ia]);
        r
    }

    /// Decodes up to `count` instructions from `addr` on, each with its
    /// address; stops at the first word that holds no opcode.
    #[verifier::rlimit(80)]
    pub fn disassemble(&self, addr: u16, count: usize) -> (r: Vec<(u16, Instruction<u16>)>)
        requires
            self.wf(),
        ensures
            r@.len() <= count,
            r@.len() > 0 ==> r@[0].0 == addr,
            forall|k: int| 0 <= k < r@.len() ==> decodes_at(self.computer.cpu.ram@, #[trigger] r@[k]),
            forall|k: int| 0 < k < r@.len() ==> (#[trigger] r@[k]).0
                == (r@[k - 1].0 + width_at(self.computer.cpu.ram@, r@[k - 1].0)) % 0x10000,
            r@.len() < count ==> width_at(self.computer.cpu.ram@, if r@.len() == 0 { addr } else {
                ((r@.last().0 + width_at(self.computer.cpu.ram@, r@.last().0)) % 0x10000) as u16
            }) == 0,
    {
        let ram = &self.computer.cpu.ram;
        let mut out: Vec<(u16, Instruction<u16>)> = Vec::new();
        let mut p: u16 = addr;
        let mut k: usize = 0;
        while k < count
            invariant
                ram.wf(),
                ram@ == self.computer.cpu.ram@,
                k <= count,
                out@.len() == k,
                k == 0 ==> p == addr,
                out@.len() > 0 ==> out@[0].0 == addr,
                forall|m: int| 0 <= m < out@.len() ==> decodes_at(ram@, #[trigger] out@[m]),
                forall|m: int| 0 < m < out@.len() ==> (#[trigger] out@[m]).0
                    == (out@[m - 1].0 + width_at(ram@, out@[m - 1].0)) % 0x10000,
                out@.len() > 0 ==> p == (out@.last().0 + width_at(ram@, out@.last().0)) % 0x10000,
            decreases count - k,
        {
            let ghost old_out = out@;
            let w0 = ram.get(p);
            let w1 = ram.get(p.wrapping_add(1));
            let w2 = ram.get(p.wrapping_add(2));
            assert(w1 == ram@[((p + 1) % 0x10000) as int] && w2 == ram@[((p + 2) % 0x10000) as int]);
            match Instruction::decode_words(w0, w1, w2) {
                Some((i, n)) => {
                    assert(width_at(ram@, p) == n) by {
                        reveal(width_at);
                    }
                    assert(decodes_at(ram@, (p, i))) by {
                        reveal(decodes_at);
                    }
                    out.push((p, i));
                    assert(forall|m: int| 0 <= m < old_out.len() ==> out@[m] == old_out[m]);
                    p = p.wrapping_add(n);
                },
                None => {
                    assert(width_at(ram@, p) == 0) by {
                        reveal(width_at);
                    }
                    return out;
                },
            }
            k = k + 1;
        }
        out
    }
}

} // verus!
