use vstd::prelude::*;

use crate::instruction::BasicOp;

verus! {

/// `x` read as a two's-complement 16-bit number.
pub open spec fn signed(x: u16) -> int {
    if x >= 0x8000 { x - 0x10000 } else { x as int }
}

/// `x` reduced modulo 2^16.
pub open spec fn word(x: int) -> u16 {
    (x % 0x10000) as u16
}

pub open spec fn abs(x: int) -> int {
    if x < 0 { -x } else { x }
}

/// Division rounding towards zero.
pub open spec fn trunc_div(x: int, y: int) -> int {
    if (x < 0) == (y < 0) { abs(x) / abs(y) } else { -(abs(x) / abs(y)) }
}

/// Remainder taking the sign of the dividend.
pub open spec fn trunc_rem(x: int, y: int) -> int {
    if x < 0 { -(abs(x) % abs(y)) } else { abs(x) % abs(y) }
}

pub open spec fn shr_spec(b: u16, a: u16) -> (u16, u16) {
    if a >= 32 {
        (0, 0)
    } else {
        (((b as u32) >> (a as u32)) as u16, ((((b as u32) << 16u32) >> (a as u32)) & 0xffff) as u16)
    }
}

pub open spec fn shl_spec(b: u16, a: u16) -> (u16, u16) {
    if a >= 32 {
        (0, 0)
    } else {
        ((((b as u32) << (a as u32)) & 0xffff) as u16, ((((b as u32) << (a as u32)) >> 16u32) & 0xffff) as u16)
    }
}

/// Arithmetic shift: the sign bit fills in from the left.
pub open spec fn asr_spec(b: u16, a: u16) -> (u16, u16) {
    let x: int = signed(b) * 0x10000;
    let s: nat = if a >= 32 { 32 } else { a as nat };
    let y: int = x / (vstd::arithmetic::power2::pow2(s) as int);
    (word(y / 0x10000), word(y))
}

/// What a basic arithmetic or logic opcode computes from `b`, `a` and EX: the
/// new value of b and the new EX.
pub open spec fn alu_spec(op: BasicOp, b: u16, a: u16, ex: u16) -> (u16, u16) {
    match op {
        BasicOp::SET => (a, ex),
        BasicOp::ADD => (word(b + a), if b + a > 0xffff { 1 } else { 0 }),
        BasicOp::SUB => (word(b - a), if b < a { 0xffff } else { 0 }),
        BasicOp::MUL => (word(b * a), word((b * a) / 0x10000)),
        BasicOp::MLI => (word(signed(b) * signed(a)), word((signed(b) * signed(a)) / 0x10000)),
        BasicOp::DIV => if a == 0 { (0, 0) } else { ((b / a) as u16, word((b * 0x10000) / (a as int))) },
        BasicOp::DVI => if a == 0 {
            (0, 0)
        } else {
            (word(trunc_div(signed(b), signed(a))), word(trunc_div(signed(b) * 0x10000, signed(a))))
        },
        BasicOp::MOD => if a == 0 { (0, ex) } else { ((b % a) as u16, ex) },
        BasicOp::MDI => if a == 0 { (0, ex) } else { (word(trunc_rem(signed(b), signed(a))), ex) },
        BasicOp::AND => (b & a, ex),
        BasicOp::BOR => (b | a, ex),
        BasicOp::XOR => (b ^ a, ex),
        BasicOp::SHR => shr_spec(b, a),
        BasicOp::ASR => asr_spec(b, a),
        BasicOp::SHL => shl_spec(b, a),
        BasicOp::ADX => (word(b + a + ex), if b + a + ex > 0xffff { 1 } else { 0 }),
        BasicOp::SBX => (word(b - a + ex), if b - a + ex < 0 { 0xffff } else if b - a + ex > 0xffff { 1 } else { 0 }),
        _ => (a, ex),
    }
}

/// Whether a conditional opcode's test holds; other opcodes always "hold".
pub open spec fn cond_spec(op: BasicOp, b: u16, a: u16) -> bool {
    match op {
        BasicOp::IFB => (b & a) != 0,
        BasicOp::IFC => (b & a) == 0,
        BasicOp::IFE => b == a,
        BasicOp::IFN => b != a,
        BasicOp::IFG => b > a,
        BasicOp::IFA => signed(b) > signed(a),
        BasicOp::IFL => b < a,
        BasicOp::IFU => signed(b) < signed(a),
        _ => true,
    }
}

pub open spec fn is_cond(op: BasicOp) -> bool {
    match op {
        BasicOp::IFB | BasicOp::IFC | BasicOp::IFE | BasicOp::IFN | BasicOp::IFG | BasicOp::IFA
        | BasicOp::IFL | BasicOp::IFU => true,
        _ => false,
    }
}

fn signed_of(x: u16) -> (r: i32)
    ensures
        r == signed(x),
{
    if x >= 0x8000 { x as i32 - 0x10000 } else { x as i32 }
}

fn word_of(x: i64) -> (r: u16)
    ensures
        r == word(x as int),
{
    let m: i64 = x % 0x10000;
    let m: i64 = if m < 0 { m + 0x10000 } else { m };
    assert(m == (x as int) % 0x10000);
    m as u16
}

fn trunc_div_exec(x: i64, y: i64) -> (r: i64)
    requires
        y != 0,
        -0x1_0000_0000_0000 < x < 0x1_0000_0000_0000,
        -0x1_0000_0000_0000 < y < 0x1_0000_0000_0000,
    ensures
        r == trunc_div(x as int, y as int),
{
    let ax: u64 = if x < 0 { (-x) as u64 } else { x as u64 };
    let ay: u64 = if y < 0 { (-y) as u64 } else { y as u64 };
    let q: i64 = (ax / ay) as i64;
    if (x < 0) == (y < 0) { q } else { -q }
}

fn trunc_rem_exec(x: i64, y: i64) -> (r: i64)
    requires
        y != 0,
        -0x1_0000_0000_0000 < x < 0x1_0000_0000_0000,
        -0x1_0000_0000_0000 < y < 0x1_0000_0000_0000,
    ensures
        r == trunc_rem(x as int, y as int),
{
    let ax: u64 = if x < 0 { (-x) as u64 } else { x as u64 };
    let ay: u64 = if y < 0 { (-y) as u64 } else { y as u64 };
    let m: i64 = (ax % ay) as i64;
    if x < 0 { -m } else { m }
}

fn asr_exec(b: u16, a: u16) -> (r: (u16, u16))
    ensures
        r == asr_spec(b, a),
{
    let x: i64 = signed_of(b) as i64 * 0x10000;
    let s: u16 = if a >= 32 { 32 } else { a };
    let mut d: i64 = 1;
    let mut k: u16 = 0;
    proof {
        vstd::arithmetic::power2::lemma2_to64();
    }
    while k < s
        invariant
            k <= s <= 32,
            d == vstd::arithmetic::power2::pow2(k as nat),
        decreases s - k,
    {
        proof {
            vstd::arithmetic::power2::lemma_pow2_unfold((k + 1) as nat);
            vstd::arithmetic::power2::lemma_pow2_strictly_increases(k as nat, 32);
            vstd::arithmetic::power2::lemma2_to64();
        }
        d = d * 2;
        k = k + 1;
    }
    proof {
        vstd::arithmetic::power2::lemma_pow2_pos(s as nat);
    }
    let y: i64 = floor_div(x, d);
    (word_of(floor_div(y, 0x10000)), word_of(y))
}

fn floor_div(x: i64, d: i64) -> (r: i64)
    requires
        0 < d < 0x1_0000_0000_0000,
        -0x1_0000_0000_0000 < x < 0x1_0000_0000_0000,
    ensures
        r == (x as int) / (d as int),
        x >= 0 ==> 0 <= r <= x,
        x < 0 ==> x <= r <= 0,
{
    if x >= 0 {
        ((x as u64) / (d as u64)) as i64
    } else {
        let n: u64 = (-x) as u64;
        let q: u64 = (n + d as u64 - 1) / (d as u64);
        proof {
            let xi = x as int;
            let di = d as int;
            let ni = n as int;
            assert(ni == -xi);
            assert(xi / di == -((ni + di - 1) / di)) by (nonlinear_arith)
                requires ni == -xi, ni > 0, di > 0;
            assert((ni + di - 1) / di <= ni) by (nonlinear_arith)
                requires ni > 0, di > 0;
        }
        -(q as i64)
    }
}

/// The new b and EX of a basic arithmetic or logic opcode.
pub fn alu(op: BasicOp, b: u16, a: u16, ex: u16) -> (r: (u16, u16))
    ensures
        r == alu_spec(op, b, a, ex),
{
    let (b64, a64, ex64) = (b as i64, a as i64, ex as i64);
    match op {
        BasicOp::SET => (a, ex),
        BasicOp::ADD => (word_of(b64 + a64), if b64 + a64 > 0xffff { 1 } else { 0 }),
        BasicOp::SUB => (word_of(b64 - a64), if b < a { 0xffff } else { 0 }),
        BasicOp::MUL => {
            assert(b64 * a64 <= 0xffff * 0xffff) by (nonlinear_arith)
                requires 0 <= b64 <= 0xffff, 0 <= a64 <= 0xffff;
            assert(b64 * a64 >= 0) by (nonlinear_arith)
                requires 0 <= b64, 0 <= a64;
            let p: i64 = b64 * a64;
            (word_of(p), word_of(floor_div(p, 0x10000)))
        },
        BasicOp::MLI => {
            let sb = signed_of(b) as i64;
            let sa = signed_of(a) as i64;
            assert(-0x8000 * 0x8000 <= sb * sa <= 0x8000 * 0x8000) by (nonlinear_arith)
                requires -0x8000 <= sb <= 0x7fff, -0x8000 <= sa <= 0x7fff;
            let p: i64 = sb * sa;
            (word_of(p), word_of(floor_div(p, 0x10000)))
        },
        BasicOp::DIV => if a == 0 {
            (0, 0)
        } else {
            (b / a, word_of(b64 * 0x10000 / a64))
        },
        BasicOp::DVI => if a == 0 {
            (0, 0)
        } else {
            let sb = signed_of(b) as i64;
            let sa = signed_of(a) as i64;
            (word_of(trunc_div_exec(sb, sa)), word_of(trunc_div_exec(sb * 0x10000, sa)))
        },
        BasicOp::MOD => if a == 0 { (0, ex) } else { (b % a, ex) },
        BasicOp::MDI => if a == 0 {
            (0, ex)
        } else {
            (word_of(trunc_rem_exec(signed_of(b) as i64, signed_of(a) as i64)), ex)
        },
        BasicOp::AND => (b & a, ex),
        BasicOp::BOR => (b | a, ex),
        BasicOp::XOR => (b ^ a, ex),
        BasicOp::SHR => if a >= 32 {
            (0, 0)
        } else {
            (((b as u32) >> (a as u32)) as u16, ((((b as u32) << 16u32) >> (a as u32)) & 0xffff) as u16)
        },
        BasicOp::ASR => asr_exec(b, a),
        BasicOp::SHL => if a >= 32 {
            (0, 0)
        } else {
            ((((b as u32) << (a as u32)) & 0xffff) as u16, ((((b as u32) << (a as u32)) >> 16u32) & 0xffff) as u16)
        },
        BasicOp::ADX => (word_of(b64 + a64 + ex64), if b64 + a64 + ex64 > 0xffff { 1 } else { 0 }),
        BasicOp::SBX => {
            let t: i64 = b64 - a64 + ex64;
            (word_of(t), if t < 0 { 0xffff } else if t > 0xffff { 1 } else { 0 })
        },
        _ => (a, ex),
    }
}

/// Whether the test of a conditional opcode holds.
pub fn cond(op: BasicOp, b: u16, a: u16) -> (r: bool)
    ensures
        r == cond_spec(op, b, a),
{
    match op {
        BasicOp::IFB => (b & a) != 0,
        BasicOp::IFC => (b & a) == 0,
        BasicOp::IFE => b == a,
        BasicOp::IFN => b != a,
        BasicOp::IFG => b > a,
        BasicOp::IFA => signed_of(b) > signed_of(a),
        BasicOp::IFL => b < a,
        BasicOp::IFU => signed_of(b) < signed_of(a),
        _ => true,
    }
}

/// `ADD` sets EX to 1 exactly when the true sum does not fit in a word, and
/// to 0 otherwise.
pub proof fn lemma_add_carry(b: u16, a: u16, ex: u16)
    ensures
        (alu_spec(BasicOp::ADD, b, a, ex).1 == 1) <==> (b + a > 0xffff),
        (alu_spec(BasicOp::ADD, b, a, ex).1 == 0) <==> (b + a <= 0xffff),
        alu_spec(BasicOp::ADD, b, a, ex).0 as int + 0x10000 * alu_spec(BasicOp::ADD, b, a, ex).1 as int == b + a,
{
}

/// `SUB` sets EX to 0xffff exactly when the difference is negative, and to 0
/// otherwise.
pub proof fn lemma_sub_borrow(b: u16, a: u16, ex: u16)
    ensures
        (alu_spec(BasicOp::SUB, b, a, ex).1 == 0xffff) <==> (b < a),
        (alu_spec(BasicOp::SUB, b, a, ex).1 == 0) <==> (b >= a),
{
}

/// `MUL` keeps the whole product: EX holds its high word, b its low word.
pub proof fn lemma_mul_exact(b: u16, a: u16, ex: u16)
    ensures
        alu_spec(BasicOp::MUL, b, a, ex).1 as int * 0x10000 + alu_spec(BasicOp::MUL, b, a, ex).0 as int == b as int * a as int,
{
    let p: int = b as int * a as int;
    assert(0 <= p < 0x10000 * 0x10000) by (nonlinear_arith)
        requires p == b as int * a as int, b < 0x10000, a < 0x10000;
    assert(word(p / 0x10000) as int == p / 0x10000);
    assert(word(p) as int == p % 0x10000);
}

/// Dividing by zero gives 0 and clears EX.
pub proof fn lemma_div_by_zero(b: u16, ex: u16)
    ensures
        alu_spec(BasicOp::DIV, b, 0, ex) == (0u16, 0u16),
        alu_spec(BasicOp::DVI, b, 0, ex) == (0u16, 0u16),
        alu_spec(BasicOp::MOD, b, 0, ex).0 == 0,
        alu_spec(BasicOp::MDI, b, 0, ex).0 == 0,
{
}

} // verus!
