use vstd::prelude::*;

use crate::cpu::Cpu;

verus! {

pub const CLOCK_ID: u32 = 0x12d0b402;
pub const KEYBOARD_ID: u32 = 0x30cf7406;
pub const LEM1802_ID: u32 = 0x7349f615;
pub const LEM1802_VERSION: u16 = 0x1802;
pub const LEM1802_MANUFACTURER: u32 = 0x1c6c8b36;

/// Character cells on the screen: 32 columns by 12 rows.
pub const SCREEN_CELLS: usize = 384;
/// Words of a font: two per character, 128 characters.
pub const FONT_WORDS: usize = 256;
/// Entries of a palette.
pub const PALETTE_WORDS: usize = 16;

/// The generic clock. `tick_rate` is the number of processor ticks in a
/// second; a divisor R set through `HWI` makes it tick every R/60 seconds.
pub struct Clock {
    pub tick_rate: u32,
    /// Processor ticks between two clock ticks; 0 when the clock is off.
    pub period: u64,
    /// Processor ticks left before the next clock tick.
    pub countdown: u64,
    /// Clock ticks since the divisor was last set.
    pub elapsed: u16,
    /// Interrupt message posted on each clock tick; 0 posts none.
    pub message: u16,
}

impl Clock {
    pub fn new(tick_rate: u32) -> (r: Clock)
        ensures
            r.tick_rate == tick_rate,
            r.period == 0 && r.countdown == 0 && r.elapsed == 0 && r.message == 0,
    {
        Clock { tick_rate, period: 0, countdown: 0, elapsed: 0, message: 0 }
    }

    /// One processor tick; returns the message to raise when the clock ticks.
    pub fn tick(&mut self) -> (r: Option<u16>)
        ensures
            (*final(self), r) == clock_tick_spec(*old(self)),
    {
        if self.period == 0 {
            return None;
        }
        if self.countdown > 1 {
            self.countdown = self.countdown - 1;
            None
        } else {
            self.countdown = self.period;
            self.elapsed = self.elapsed.wrapping_add(1);
            if self.message != 0 { Some(self.message) } else { None }
        }
    }

    /// `HWI`: A=0 sets the divisor from B, A=1 reads the ticks since then into
    /// C, A=2 sets the interrupt message from B.
    pub fn interrupt(&mut self, cpu: &mut Cpu)
        requires
            old(cpu).wf(),
        ensures
            final(cpu).wf(),
            clock_hwi(*old(self), *final(self), *old(cpu), *final(cpu)),
    {
        let a = cpu.registers[0];
        let b = cpu.registers[1];
        if a == 0 {
            assert(b as u64 * self.tick_rate as u64 <= 0xffff * 0xffff_ffff) by (nonlinear_arith)
                requires b <= 0xffff, self.tick_rate <= 0xffff_ffff;
            let p: u64 = b as u64 * self.tick_rate as u64 / 60;
            self.period = p;
            self.countdown = p;
            self.elapsed = 0;
        } else if a == 1 {
            cpu.registers.set(2, self.elapsed);
        } else if a == 2 {
            self.message = b;
        }
    }
}

/// The generic keyboard: keys typed wait in a buffer; the keys held down are
/// listed apart.
pub struct Keyboard {
    pub buffer: Vec<u16>,
    pub pressed: Vec<u16>,
    /// Interrupt message posted when a key arrives; 0 posts none.
    pub message: u16,
    /// A key arrived since the last tick.
    pub pending: bool,
}

impl Keyboard {
    pub fn new() -> (r: Keyboard)
        ensures
            r.buffer@.len() == 0 && r.pressed@.len() == 0 && r.message == 0 && !r.pending,
    {
        Keyboard { buffer: Vec::new(), pressed: Vec::new(), message: 0, pending: false }
    }

    /// A key typed by the user.
    pub fn push_key(&mut self, k: u16)
        ensures
            final(self).buffer@ == old(self).buffer@.push(k),
            final(self).pending,
            final(self).pressed@ == old(self).pressed@ && final(self).message == old(self).message,
    {
        self.buffer.push(k);
        self.pending = true;
    }

    /// A key goes down or comes up.
    pub fn set_pressed(&mut self, k: u16, down: bool)
        ensures
            down ==> final(self).pressed@.contains(k),
            !down ==> !final(self).pressed@.contains(k),
            forall|j: u16| j != k ==> (final(self).pressed@.contains(j) <==> old(self).pressed@.contains(j)),
            final(self).buffer@ == old(self).buffer@ && final(self).message == old(self).message,
            final(self).pending == old(self).pending,
    {
        let mut kept: Vec<u16> = Vec::new();
        let mut i: usize = 0;
        while i < self.pressed.len()
            invariant
                i <= self.pressed@.len(),
                self.pressed@ == old(self).pressed@,
                forall|j: int| 0 <= j < kept@.len() ==> kept@[j] != k,
                forall|x: u16| x != k ==> (kept@.contains(x) <==> self.pressed@.subrange(0, i as int).contains(x)),
            decreases self.pressed@.len() - i,
        {
            let ghost before = kept@;
            let x = self.pressed[i];
            proof {
                let s = self.pressed@.subrange(0, i as int);
                let t = self.pressed@.subrange(0, i + 1);
                assert(t =~= s.push(x));
                assert forall|y: u16| #[trigger] t.contains(y) <==> (s.contains(y) || y == x) by {
                    if t.contains(y) {
                        let j = choose|j: int| 0 <= j < t.len() && t[j] == y;
                        if j < s.len() {
                            assert(s[j] == y);
                        }
                    }
                    if s.contains(y) {
                        let j = choose|j: int| 0 <= j < s.len() && s[j] == y;
                        assert(t[j] == y);
                    }
                    if y == x {
                        assert(t[i as int] == y);
                    }
                }
            }
            if x != k {
                kept.push(x);
                proof {
                    assert forall|y: u16| #[trigger] kept@.contains(y) <==> (before.contains(y) || y == x) by {
                        if kept@.contains(y) {
                            let j = choose|j: int| 0 <= j < kept@.len() && kept@[j] == y;
                            if j < before.len() {
                                assert(before[j] == y);
                            }
                        }
                        if before.contains(y) {
                            let j = choose|j: int| 0 <= j < before.len() && before[j] == y;
                            assert(kept@[j] == y);
                        }
                        if y == x {
                            assert(kept@[before.len() as int] == y);
                        }
                    }
                }
            }
            i = i + 1;
        }
        assert(self.pressed@.subrange(0, i as int) =~= self.pressed@);
        let ghost without = kept@;
        assert(forall|y: u16| y != k ==> (without.contains(y) <==> old(self).pressed@.contains(y)));
        if down {
            kept.push(k);
            assert(kept@[kept@.len() - 1] == k);
            assert forall|y: u16| y != k implies (kept@.contains(y) <==> without.contains(y)) by {
                if kept@.contains(y) {
                    let j = choose|j: int| 0 <= j < kept@.len() && kept@[j] == y;
                    assert(without[j] == y);
                }
                if without.contains(y) {
                    let j = choose|j: int| 0 <= j < without.len() && without[j] == y;
                    assert(kept@[j] == y);
                }
            }
        } else {
            assert(!kept@.contains(k)) by {
                if kept@.contains(k) {
                    let j = choose|j: int| 0 <= j < kept@.len() && kept@[j] == k;
                }
            }
        }
        assert forall|y: u16| y != k implies (kept@.contains(y) <==> old(self).pressed@.contains(y)) by {
            if down {
                assert(kept@.contains(y) <==> without.contains(y));
            } else {
                assert(kept@ == without);
            }
            assert(without.contains(y) <==> old(self).pressed@.contains(y));
        }
        self.pressed = kept;
    }

    fn is_pressed(&self, k: u16) -> (r: bool)
        ensures
            r == self.pressed@.contains(k),
    {
        let mut i: usize = 0;
        while i < self.pressed.len()
            invariant
                i <= self.pressed@.len(),
                forall|j: int| 0 <= j < i ==> self.pressed@[j] != k,
            decreases self.pressed@.len() - i,
        {
            if self.pressed[i] == k {
                return true;
            }
            i = i + 1;
        }
        false
    }

    /// One processor tick; returns the message to raise when a key arrived.
    pub fn tick(&mut self) -> (r: Option<u16>)
        ensures
            (*final(self), r) == keyboard_tick_spec(*old(self)),
    {
        let fire = self.pending && self.message != 0;
        self.pending = false;
        if fire { Some(self.message) } else { None }
    }

    /// `HWI`: A=0 clears the buffer, A=1 takes the next key into C (0 when
    /// there is none), A=2 sets C to 1 when key B is held down and to 0
    /// otherwise, A=3 sets the interrupt message from B.
    pub fn interrupt(&mut self, cpu: &mut Cpu)
        requires
            old(cpu).wf(),
        ensures
            final(cpu).wf(),
            keyboard_hwi(*old(self), *final(self), *old(cpu), *final(cpu)),
    {
        let a = cpu.registers[0];
        let b = cpu.registers[1];
        if a == 0 {
            self.buffer = Vec::new();
        } else if a == 1 {
            if self.buffer.len() == 0 {
                cpu.registers.set(2, 0);
            } else {
                let k = self.buffer.remove(0);
                cpu.registers.set(2, k);
            }
        } else if a == 2 {
            let down = self.is_pressed(b);
            cpu.registers.set(2, if down { 1 } else { 0 });
        } else if a == 3 {
            self.message = b;
        }
    }
}

pub open spec fn default_palette() -> Seq<u16> {
    seq![
        0x000u16, 0x00a, 0x0a0, 0x0aa, 0xa00, 0xa0a, 0xa50, 0xaaa,
        0x555, 0x55f, 0x5f5, 0x5ff, 0xf55, 0xf5f, 0xff5, 0xfff,
    ]
}

/// One character cell: foreground and background palette indices, the blink
/// bit and the character.
#[derive(Debug, Clone, Copy, PartialEq, Eq, Structural)]
pub struct Cell {
    pub fg: u16,
    pub bg: u16,
    pub blink: bool,
    pub ch: u16,
}

pub open spec fn cell_spec(w: u16) -> Cell {
    Cell { fg: w / 0x1000, bg: (w / 0x100) % 0x10, blink: (w / 0x80) % 2 == 1, ch: w % 0x80 }
}

/// The cell held by a word of video memory: `ffffbbbbBccccccc`.
pub fn cell_of(w: u16) -> (r: Cell)
    ensures
        r == cell_spec(w),
{
    Cell { fg: w / 0x1000, bg: (w / 0x100) % 0x10, blink: (w / 0x80) % 2 == 1, ch: w % 0x80 }
}

/// Copies `words` into memory from `base` on; addresses wrap.
fn dump(cpu: &mut Cpu, words: &Vec<u16>, base: u16)
    requires
        old(cpu).wf(),
        words@.len() <= crate::ram::RAM_SIZE,
    ensures
        final(cpu).wf(),
        forall|k: int| 0 <= k < words@.len() ==> final(cpu).ram@[crate::ram::wrap_addr(base as int, k)] == words@[k],
        forall|j: int|
            0 <= j < crate::ram::RAM_SIZE && !(exists|k: int|
                0 <= k < words@.len() && j == #[trigger] crate::ram::wrap_addr(base as int, k))
                ==> final(cpu).ram@[j] == old(cpu).ram@[j],
        control_kept(*old(cpu), *final(cpu)),
        final(cpu).registers@ == old(cpu).registers@,
        final(cpu).pc == old(cpu).pc && final(cpu).sp == old(cpu).sp,
        final(cpu).queue@ == old(cpu).queue@ && final(cpu).on_fire == old(cpu).on_fire,
{
    cpu.ram.load(words.as_slice(), base);
}

/// The LEM1802 screen. Its video, font and palette memories are mapped into
/// main memory; an address of 0 means the screen is off, or that the built-in
/// font or palette is used.
pub struct Lem1802 {
    pub video: u16,
    pub font_addr: u16,
    pub palette_addr: u16,
    pub border: u16,
    /// The built-in font.
    pub font: Vec<u16>,
}

impl Lem1802 {
    pub open spec fn wf(&self) -> bool {
        self.font@.len() == FONT_WORDS
    }

    pub fn new(font: Vec<u16>) -> (r: Lem1802)
        requires
            font@.len() == FONT_WORDS,
        ensures
            r.wf(),
            r.font@ == font@,
            r.video == 0 && r.font_addr == 0 && r.palette_addr == 0 && r.border == 0,
    {
        Lem1802 { video: 0, font_addr: 0, palette_addr: 0, border: 0, font }
    }

    /// `HWI`: A=0 maps video memory at B, A=1 the font at B, A=2 the palette
    /// at B; A=3 sets the border colour to the low four bits of B; A=4 and
    /// A=5 copy the built-in font and palette into memory at B.
    pub fn interrupt(&mut self, cpu: &mut Cpu)
        requires
            old(cpu).wf(),
            old(self).wf(),
        ensures
            final(cpu).wf(),
            final(self).wf(),
            screen_hwi(*old(self), *final(self), *old(cpu), *final(cpu)),
    {
        let a = cpu.registers[0];
        let b = cpu.registers[1];
        if a == 0 {
            self.video = b;
        } else if a == 1 {
            self.font_addr = b;
        } else if a == 2 {
            self.palette_addr = b;
        } else if a == 3 {
            self.border = b % 16;
        } else if a == 4 {
            dump(cpu, &self.font, b);
        } else if a == 5 {
            let palette: Vec<u16> = vec![
                0x000, 0x00a, 0x0a0, 0x0aa, 0xa00, 0xa0a, 0xa50, 0xaaa,
                0x555, 0x55f, 0x5f5, 0x5ff, 0xf55, 0xf5f, 0xff5, 0xfff,
            ];
            assert(palette@ =~= default_palette());
            dump(cpu, &palette, b);
        }
    }

    /// The cells on the screen, row by row; `None` while the screen is off.
    pub fn cells(&self, cpu: &Cpu) -> (r: Option<Vec<Cell>>)
        requires
            cpu.wf(),
        ensures
            self.video == 0 <==> r is None,
            r matches Some(v) ==> v@.len() == SCREEN_CELLS && forall|k: int| 0 <= k < SCREEN_CELLS ==>
                #[trigger] v@[k] == cell_spec(cpu.ram@[crate::ram::wrap_addr(self.video as int, k)]),
    {
        if self.video == 0 {
            return None;
        }
        let mut out: Vec<Cell> = Vec::new();
        let mut k: usize = 0;
        while k < SCREEN_CELLS
            invariant
                cpu.wf(),
                k <= SCREEN_CELLS,
                out@.len() == k,
                forall|m: int| 0 <= m < k ==> #[trigger] out@[m] == cell_spec(cpu.ram@[crate::ram::wrap_addr(self.video as int, m)]),
            decreases SCREEN_CELLS - k,
        {
            let addr = ((self.video as usize + k) % crate::ram::RAM_SIZE) as u16;
            out.push(cell_of(cpu.ram.get(addr)));
            k = k + 1;
        }
        Some(out)
    }

    /// The 12-bit colour of palette entry `index` (taken modulo 16).
    pub fn color(&self, cpu: &Cpu, index: u16) -> (r: u16)
        requires
            cpu.wf(),
        ensures
            self.palette_addr == 0 ==> r == default_palette()[(index % 16) as int],
            self.palette_addr != 0 ==> r == cpu.ram@[crate::ram::wrap_addr(self.palette_addr as int, (index % 16) as int)] % 0x1000,
    {
        let i = index % 16;
        if self.palette_addr == 0 {
            let palette: [u16; 16] = [
                0x000, 0x00a, 0x0a0, 0x0aa, 0xa00, 0xa0a, 0xa50, 0xaaa,
                0x555, 0x55f, 0x5f5, 0x5ff, 0xf55, 0xf5f, 0xff5, 0xfff,
            ];
            assert(palette@ =~= default_palette());
            palette[i as usize]
        } else {
            let addr = ((self.palette_addr as usize + i as usize) % crate::ram::RAM_SIZE) as u16;
            cpu.ram.get(addr) % 0x1000
        }
    }
}

/// The processor's control registers and flags are as they were.
pub open spec fn control_kept(oc: Cpu, nc: Cpu) -> bool {
    &&& nc.ex == oc.ex && nc.ia == oc.ia && nc.skip == oc.skip
    &&& nc.interrupts_enabled == oc.interrupts_enabled && nc.interrupt_queueing == oc.interrupt_queueing
}

/// What `HWI` does to a clock and the processor.
pub open spec fn clock_hwi(o: Clock, n: Clock, oc: Cpu, nc: Cpu) -> bool {
    &&& (n.tick_rate == o.tick_rate)
    &&& (oc.registers@[0] == 0 ==> {
        let p = oc.registers@[1] as int * o.tick_rate as int / 60;
        &&& n.period == p && n.countdown == p
        &&& n.elapsed == 0 && n.message == o.message
        &&& nc.registers@ == oc.registers@
    })
    &&& (oc.registers@[0] == 1 ==> n == o
        && nc.registers@ == oc.registers@.update(2, o.elapsed))
    &&& (oc.registers@[0] == 2 ==> n.message == oc.registers@[1]
        && n.period == o.period && n.countdown == o.countdown
        && n.elapsed == o.elapsed
        && nc.registers@ == oc.registers@)
    &&& (oc.registers@[0] > 2 ==> n == o && nc.registers@ == oc.registers@)
    &&& (nc.pc == oc.pc && nc.sp == oc.sp && nc.ram@ == oc.ram@)
    &&& (nc.queue@ == oc.queue@ && nc.on_fire == oc.on_fire)
    &&& control_kept(oc, nc)
}

/// What `HWI` does to a keyboard and the processor.
pub open spec fn keyboard_hwi(o: Keyboard, n: Keyboard, oc: Cpu, nc: Cpu) -> bool {
    &&& (oc.registers@[0] == 0 ==> n.buffer@.len() == 0 && nc.registers@ == oc.registers@)
    &&& (oc.registers@[0] == 1 ==> if o.buffer@.len() == 0 {
        nc.registers@ == oc.registers@.update(2, 0) && n.buffer@ == o.buffer@
    } else {
        nc.registers@ == oc.registers@.update(2, o.buffer@[0])
            && n.buffer@ == o.buffer@.drop_first()
    })
    &&& (oc.registers@[0] == 2 ==> nc.registers@ == oc.registers@.update(
        2, if o.pressed@.contains(oc.registers@[1]) { 1u16 } else { 0u16 }))
    &&& (oc.registers@[0] == 3 ==> n.message == oc.registers@[1])
    &&& (oc.registers@[0] != 3 ==> n.message == o.message)
    &&& (oc.registers@[0] > 3 ==> nc.registers@ == oc.registers@)
    &&& (nc.pc == oc.pc && nc.sp == oc.sp && nc.ram@ == oc.ram@)
    &&& (nc.queue@ == oc.queue@ && nc.on_fire == oc.on_fire)
    &&& control_kept(oc, nc)
}

/// What `HWI` does to a screen and the processor.
pub open spec fn screen_hwi(o: Lem1802, n: Lem1802, oc: Cpu, nc: Cpu) -> bool {
    &&& (n.font@ == o.font@)
    &&& (({
        let a = oc.registers@[0];
        let b = oc.registers@[1];
        &&& n.video == if a == 0 { b } else { o.video }
        &&& n.font_addr == if a == 1 { b } else { o.font_addr }
        &&& n.palette_addr == if a == 2 { b } else { o.palette_addr }
        &&& n.border == if a == 3 { (b % 16) as u16 } else { o.border }
        &&& a == 4 ==> forall|k: int| 0 <= k < FONT_WORDS ==>
            nc.ram@[crate::ram::wrap_addr(b as int, k)] == o.font@[k]
        &&& a == 4 ==> forall|j: int|
            0 <= j < crate::ram::RAM_SIZE && !(exists|k: int|
                0 <= k < FONT_WORDS && j == #[trigger] crate::ram::wrap_addr(b as int, k))
                ==> nc.ram@[j] == oc.ram@[j]
        &&& a == 5 ==> forall|k: int| 0 <= k < PALETTE_WORDS ==>
            nc.ram@[crate::ram::wrap_addr(b as int, k)] == default_palette()[k]
        &&& a == 5 ==> forall|j: int|
            0 <= j < crate::ram::RAM_SIZE && !(exists|k: int|
                0 <= k < PALETTE_WORDS && j == #[trigger] crate::ram::wrap_addr(b as int, k))
                ==> nc.ram@[j] == oc.ram@[j]
        &&& a != 4 && a != 5 ==> nc.ram@ == oc.ram@
    }))
    &&& (nc.registers@ == oc.registers@)
    &&& (nc.pc == oc.pc && nc.sp == oc.sp)
    &&& (nc.queue@ == oc.queue@ && nc.on_fire == oc.on_fire)
    &&& control_kept(oc, nc)
}

/// One processor tick of a clock, and the message it raises.
pub open spec fn clock_tick_spec(c: Clock) -> (Clock, Option<u16>) {
    if c.period == 0 {
        (c, None)
    } else if c.countdown > 1 {
        (Clock { countdown: (c.countdown - 1) as u64, ..c }, None)
    } else {
        (Clock { countdown: c.period, elapsed: crate::cpu::wrap_add(c.elapsed, 1), ..c },
            if c.message != 0 { Some(c.message) } else { None })
    }
}

/// One processor tick of a keyboard, and the message it raises.
pub open spec fn keyboard_tick_spec(k: Keyboard) -> (Keyboard, Option<u16>) {
    (Keyboard { pending: false, ..k }, if k.pending && k.message != 0 { Some(k.message) } else { None })
}

/// One processor tick of a device, and the message it raises.
pub open spec fn device_tick_spec(d: Device) -> (Device, Option<u16>) {
    match d {
        Device::Clock(c) => (Device::Clock(clock_tick_spec(c).0), clock_tick_spec(c).1),
        Device::Keyboard(k) => (Device::Keyboard(keyboard_tick_spec(k).0), keyboard_tick_spec(k).1),
        Device::Lem1802(s) => (Device::Lem1802(s), None),
    }
}

/// What `HWI` does to a device and the processor.
pub open spec fn device_hwi(o: Device, n: Device, oc: Cpu, nc: Cpu) -> bool {
    match (o, n) {
        (Device::Clock(a), Device::Clock(b)) => clock_hwi(a, b, oc, nc),
        (Device::Keyboard(a), Device::Keyboard(b)) => keyboard_hwi(a, b, oc, nc),
        (Device::Lem1802(a), Device::Lem1802(b)) => screen_hwi(a, b, oc, nc),
        _ => false,
    }
}

/// A device on the hardware bus.
pub enum Device {
    Clock(Clock),
    Keyboard(Keyboard),
    Lem1802(Lem1802),
}

impl Device {
    pub open spec fn id_spec(&self) -> u32 {
        match self {
            Device::Clock(_) => CLOCK_ID,
            Device::Keyboard(_) => KEYBOARD_ID,
            Device::Lem1802(_) => LEM1802_ID,
        }
    }

    pub open spec fn wf(&self) -> bool {
        match self {
            Device::Lem1802(s) => s.wf(),
            _ => true,
        }
    }

    pub fn id(&self) -> (r: u32)
        ensures
            r == self.id_spec(),
    {
        match self {
            Device::Clock(_) => CLOCK_ID,
            Device::Keyboard(_) => KEYBOARD_ID,
            Device::Lem1802(_) => LEM1802_ID,
        }
    }

    pub open spec fn version_spec(&self) -> u16 {
        match self {
            Device::Lem1802(_) => LEM1802_VERSION,
            _ => 1u16,
        }
    }

    pub open spec fn manufacturer_spec(&self) -> u32 {
        match self {
            Device::Lem1802(_) => LEM1802_MANUFACTURER,
            _ => 0u32,
        }
    }

    pub fn version(&self) -> (r: u16)
        ensures
            r == self.version_spec(),
    {
        match self {
            Device::Lem1802(_) => LEM1802_VERSION,
            _ => 1,
        }
    }

    pub fn manufacturer(&self) -> (r: u32)
        ensures
            r == self.manufacturer_spec(),
    {
        match self {
            Device::Lem1802(_) => LEM1802_MANUFACTURER,
            _ => 0,
        }
    }

    /// One processor tick; returns the message to raise, if any.
    pub fn tick(&mut self) -> (r: Option<u16>)
        ensures
            (*final(self), r) == device_tick_spec(*old(self)),
            final(self).id_spec() == old(self).id_spec(),
            old(self).wf() ==> final(self).wf(),
    {
        match self {
            Device::Clock(c) => c.tick(),
            Device::Keyboard(k) => k.tick(),
            Device::Lem1802(_) => None,
        }
    }

    /// The device's answer to `HWI`.
    pub fn interrupt(&mut self, cpu: &mut Cpu)
        requires
            old(cpu).wf(),
            old(self).wf(),
        ensures
            final(cpu).wf(),
            final(self).wf(),
            final(self).id_spec() == old(self).id_spec(),
            device_hwi(*old(self), *final(self), *old(cpu), *final(cpu)),
            final(cpu).pc == old(cpu).pc && final(cpu).sp == old(cpu).sp,
            final(cpu).queue@ == old(cpu).queue@ && final(cpu).on_fire == old(cpu).on_fire,
    {
        match self {
            Device::Clock(c) => c.interrupt(cpu),
            Device::Keyboard(k) => k.interrupt(cpu),
            Device::Lem1802(s) => s.interrupt(cpu),
        }
    }
}

} // verus!
