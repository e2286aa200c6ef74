use vstd::prelude::*;

verus! {

/// The eight general-purpose registers.
#[derive(Debug, Clone, Copy, PartialEq, Eq, Structural)]
pub enum Register {
    A,
    B,
    C,
    X,
    Y,
    Z,
    I,
    J,
}

pub open spec fn reg_code(r: Register) -> u16 {
    match r {
        Register::A => 0,
        Register::B => 1,
        Register::C => 2,
        Register::X => 3,
        Register::Y => 4,
        Register::Z => 5,
        Register::I => 6,
        Register::J => 7,
    }
}

pub open spec fn reg_of_code(c: u16) -> Register {
    if c == 0 {
        Register::A
    } else if c == 1 {
        Register::B
    } else if c == 2 {
        Register::C
    } else if c == 3 {
        Register::X
    } else if c == 4 {
        Register::Y
    } else if c == 5 {
        Register::Z
    } else if c == 6 {
        Register::I
    } else {
        Register::J
    }
}

impl Register {
    /// Position of the register in the register file.
    pub fn index(&self) -> (r: usize)
        ensures
            r == reg_code(*self),
            r < 8,
    {
        match self {
            Register::A => 0,
            Register::B => 1,
            Register::C => 2,
            Register::X => 3,
            Register::Y => 4,
            Register::Z => 5,
            Register::I => 6,
            Register::J => 7,
        }
    }

    /// The register whose operand code is `c` (only the low three bits count).
    pub fn from_code(c: u16) -> (r: Register)
        requires
            c < 8,
        ensures
            r == reg_of_code(c),
            reg_code(r) == c,
    {
        if c == 0 {
            Register::A
        } else if c == 1 {
            Register::B
        } else if c == 2 {
            Register::C
        } else if c == 3 {
            Register::X
        } else if c == 4 {
            Register::Y
        } else if c == 5 {
            Register::Z
        } else if c == 6 {
            Register::I
        } else {
            Register::J
        }
    }
}

/// An operand. `E` is the payload of the forms that carry a number: a word once
/// resolved, an expression over labels before linking.
#[derive(Debug, Clone, PartialEq, Eq)]
pub enum Value<E> {
    Reg(Register),
    AtReg(Register),
    AtRegPlus(Register, E),
    /// `PUSH` in operand b, `POP` in operand a.
    PushPop,
    Peek,
    Pick(E),
    SP,
    PC,
    EX,
    AtAddr(E),
    Literal(E),
}

/// Basic opcodes, named by their mnemonics.
#[allow(non_camel_case_types)]
#[derive(Debug, Clone, Copy, PartialEq, Eq, Structural)]
pub enum BasicOp {
    SET,
    ADD,
    SUB,
    MUL,
    MLI,
    DIV,
    DVI,
    MOD,
    MDI,
    AND,
    BOR,
    XOR,
    SHR,
    ASR,
    SHL,
    IFB,
    IFC,
    IFE,
    IFN,
    IFG,
    IFA,
    IFL,
    IFU,
    ADX,
    SBX,
    STI,
    STD,
}

/// Special opcodes, named by their mnemonics.
#[allow(non_camel_case_types)]
#[derive(Debug, Clone, Copy, PartialEq, Eq, Structural)]
pub enum SpecialOp {
    BRK,
    JSR,
    INT,
    IAG,
    IAS,
    RFI,
    IAQ,
    HWN,
    HWQ,
    HWI,
}

/// An instruction: a basic opcode with operands b and a, or a special opcode
/// with its single operand a.
#[derive(Debug, Clone, PartialEq, Eq)]
pub enum Instruction<E> {
    Basic(BasicOp, Value<E>, Value<E>),
    Special(SpecialOp, Value<E>),
}

pub open spec fn basic_code(op: BasicOp) -> u16 {
    match op {
        BasicOp::SET => 0x01,
        BasicOp::ADD => 0x02,
        BasicOp::SUB => 0x03,
        BasicOp::MUL => 0x04,
        BasicOp::MLI => 0x05,
        BasicOp::DIV => 0x06,
        BasicOp::DVI => 0x07,
        BasicOp::MOD => 0x08,
        BasicOp::MDI => 0x09,
        BasicOp::AND => 0x0a,
        BasicOp::BOR => 0x0b,
        BasicOp::XOR => 0x0c,
        BasicOp::SHR => 0x0d,
        BasicOp::ASR => 0x0e,
        BasicOp::SHL => 0x0f,
        BasicOp::IFB => 0x10,
        BasicOp::IFC => 0x11,
        BasicOp::IFE => 0x12,
        BasicOp::IFN => 0x13,
        BasicOp::IFG => 0x14,
        BasicOp::IFA => 0x15,
        BasicOp::IFL => 0x16,
        BasicOp::IFU => 0x17,
        BasicOp::ADX => 0x1a,
        BasicOp::SBX => 0x1b,
        BasicOp::STI => 0x1e,
        BasicOp::STD => 0x1f,
    }
}

pub open spec fn special_code(op: SpecialOp) -> u16 {
    match op {
        SpecialOp::BRK => 0x00,
        SpecialOp::JSR => 0x01,
        SpecialOp::INT => 0x08,
        SpecialOp::IAG => 0x09,
        SpecialOp::IAS => 0x0a,
        SpecialOp::RFI => 0x0b,
        SpecialOp::IAQ => 0x0c,
        SpecialOp::HWN => 0x10,
        SpecialOp::HWQ => 0x11,
        SpecialOp::HWI => 0x12,
    }
}

pub open spec fn basic_of_code(c: u16) -> Option<BasicOp> {
    if c == 0x01 { Some(BasicOp::SET) }
    else if c == 0x02 { Some(BasicOp::ADD) }
    else if c == 0x03 { Some(BasicOp::SUB) }
    else if c == 0x04 { Some(BasicOp::MUL) }
    else if c == 0x05 { Some(BasicOp::MLI) }
    else if c == 0x06 { Some(BasicOp::DIV) }
    else if c == 0x07 { Some(BasicOp::DVI) }
    else if c == 0x08 { Some(BasicOp::MOD) }
    else if c == 0x09 { Some(BasicOp::MDI) }
    else if c == 0x0a { Some(BasicOp::AND) }
    else if c == 0x0b { Some(BasicOp::BOR) }
    else if c == 0x0c { Some(BasicOp::XOR) }
    else if c == 0x0d { Some(BasicOp::SHR) }
    else if c == 0x0e { Some(BasicOp::ASR) }
    else if c == 0x0f { Some(BasicOp::SHL) }
    else if c == 0x10 { Some(BasicOp::IFB) }
    else if c == 0x11 { Some(BasicOp::IFC) }
    else if c == 0x12 { Some(BasicOp::IFE) }
    else if c == 0x13 { Some(BasicOp::IFN) }
    else if c == 0x14 { Some(BasicOp::IFG) }
    else if c == 0x15 { Some(BasicOp::IFA) }
    else if c == 0x16 { Some(BasicOp::IFL) }
    else if c == 0x17 { Some(BasicOp::IFU) }
    else if c == 0x1a { Some(BasicOp::ADX) }
    else if c == 0x1b { Some(BasicOp::SBX) }
    else if c == 0x1e { Some(BasicOp::STI) }
    else if c == 0x1f { Some(BasicOp::STD) }
    else { None }
}

pub open spec fn special_of_code(c: u16) -> Option<SpecialOp> {
    if c == 0x00 { Some(SpecialOp::BRK) }
    else if c == 0x01 { Some(SpecialOp::JSR) }
    else if c == 0x08 { Some(SpecialOp::INT) }
    else if c == 0x09 { Some(SpecialOp::IAG) }
    else if c == 0x0a { Some(SpecialOp::IAS) }
    else if c == 0x0b { Some(SpecialOp::RFI) }
    else if c == 0x0c { Some(SpecialOp::IAQ) }
    else if c == 0x10 { Some(SpecialOp::HWN) }
    else if c == 0x11 { Some(SpecialOp::HWQ) }
    else if c == 0x12 { Some(SpecialOp::HWI) }
    else { None }
}

/// Whether `n` has a short-literal form (-1..30).
pub open spec fn fits_short(n: u16) -> bool {
    n == 0xffff || n <= 30
}

/// Whether a literal in operand a is written in its short form: it fits and
/// the long form was not asked for.
pub open spec fn is_short(v: Value<u16>, is_a: bool, long: bool) -> bool {
    match v {
        Value::Literal(n) => is_a && !long && fits_short(n),
        _ => false,
    }
}

/// The operand field of `v`.
pub open spec fn value_code(v: Value<u16>, is_a: bool, long: bool) -> u16 {
    match v {
        Value::Reg(r) => reg_code(r),
        Value::AtReg(r) => (0x08 + reg_code(r)) as u16,
        Value::AtRegPlus(r, _) => (0x10 + reg_code(r)) as u16,
        Value::PushPop => 0x18,
        Value::Peek => 0x19,
        Value::Pick(_) => 0x1a,
        Value::SP => 0x1b,
        Value::PC => 0x1c,
        Value::EX => 0x1d,
        Value::AtAddr(_) => 0x1e,
        Value::Literal(n) => if is_short(v, is_a, long) {
            if n == 0xffff { 0x20 } else { (n + 0x21) as u16 }
        } else {
            0x1f
        },
    }
}

/// The next-word trailer of `v`, if it has one.
pub open spec fn value_trailer(v: Value<u16>, is_a: bool, long: bool) -> Seq<u16> {
    match v {
        Value::AtRegPlus(_, n) => seq![n],
        Value::Pick(n) => seq![n],
        Value::AtAddr(n) => seq![n],
        Value::Literal(n) => if is_short(v, is_a, long) { seq![] } else { seq![n] },
        _ => seq![],
    }
}

pub open spec fn pack(o: u16, b: u16, a: u16) -> u16 {
    (o + b * 32 + a * 1024) as u16
}

/// The words of `i`; `long` asks for the long form of a literal in operand a.
/// Operand a's trailer comes before operand b's.
pub open spec fn encode_spec(i: Instruction<u16>, long: bool) -> Seq<u16> {
    match i {
        Instruction::Basic(op, b, a) => seq![
            pack(basic_code(op), value_code(b, false, false), value_code(a, true, long)),
        ] + value_trailer(a, true, long) + value_trailer(b, false, false),
        Instruction::Special(op, a) => seq![
            pack(0, special_code(op), value_code(a, true, long)),
        ] + value_trailer(a, true, long),
    }
}

/// The operand whose field is `c`, with `next` as its trailer if it takes one;
/// the flag says whether it did.
pub open spec fn decode_value(c: u16, next: u16) -> (Value<u16>, bool) {
    if c < 0x08 {
        (Value::Reg(reg_of_code(c)), false)
    } else if c < 0x10 {
        (Value::AtReg(reg_of_code((c - 0x08) as u16)), false)
    } else if c < 0x18 {
        (Value::AtRegPlus(reg_of_code((c - 0x10) as u16), next), true)
    } else if c == 0x18 {
        (Value::PushPop, false)
    } else if c == 0x19 {
        (Value::Peek, false)
    } else if c == 0x1a {
        (Value::Pick(next), true)
    } else if c == 0x1b {
        (Value::SP, false)
    } else if c == 0x1c {
        (Value::PC, false)
    } else if c == 0x1d {
        (Value::EX, false)
    } else if c == 0x1e {
        (Value::AtAddr(next), true)
    } else if c == 0x1f {
        (Value::Literal(next), true)
    } else if c == 0x20 {
        (Value::Literal(0xffff), false)
    } else {
        (Value::Literal((c - 0x21) as u16), false)
    }
}

/// The instruction held by `w0` and the trailers `w1`, `w2` that follow it, and
/// the number of words it takes; `None` for an opcode that does not exist.
pub open spec fn decode_spec(w0: u16, w1: u16, w2: u16) -> Option<(Instruction<u16>, nat)> {
    let o = w0 % 32;
    let bc = ((w0 / 32) % 32) as u16;
    let ac = (w0 / 1024) as u16;
    let (a, a_used) = decode_value(ac, w1);
    if o == 0 {
        match special_of_code(bc) {
            Some(op) => Some((Instruction::Special(op, a), if a_used { 2nat } else { 1nat })),
            None => None,
        }
    } else {
        match basic_of_code(o as u16) {
            Some(op) => {
                let (b, b_used) = decode_value(bc, if a_used { w2 } else { w1 });
                let n: nat = 1 + (if a_used { 1nat } else { 0nat }) + (if b_used { 1nat } else { 0nat });
                Some((Instruction::Basic(op, b, a), n))
            },
            None => None,
        }
    }
}

proof fn lemma_pack(o: u16, b: u16, a: u16)
    requires
        o < 32,
        b < 32,
        a < 64,
    ensures
        pack(o, b, a) % 32 == o,
        ((pack(o, b, a) / 32) % 32) as u16 == b,
        (pack(o, b, a) / 1024) as u16 == a,
{
    assert(o + b * 32 + a * 1024 < 0x10000) by (nonlinear_arith)
        requires o < 32, b < 32, a < 64;
    let w: int = o + b * 32 + a * 1024;
    assert(w % 32 == o && (w / 32) % 32 == b && w / 1024 == a) by (nonlinear_arith)
        requires w == o + b * 32 + a * 1024, 0 <= o < 32, 0 <= b < 32, 0 <= a < 64;
}

proof fn lemma_value_round_trip(v: Value<u16>, is_a: bool, long: bool, next: u16)
    requires
        value_trailer(v, is_a, long).len() == 0 || value_trailer(v, is_a, long)[0] == next,
    ensures
        value_code(v, is_a, long) < 64,
        !is_a ==> value_code(v, is_a, long) < 32,
        decode_value(value_code(v, is_a, long), next) == (v, value_trailer(v, is_a, long).len() == 1),
        value_trailer(v, is_a, long).len() <= 1,
{
    match v {
        Value::Reg(r) => { assert(reg_of_code(reg_code(r)) == r); },
        Value::AtReg(r) => { assert(reg_of_code(reg_code(r)) == r); },
        Value::AtRegPlus(r, _) => { assert(reg_of_code(reg_code(r)) == r); },
        _ => {},
    }
}

/// Decoding what the encoder wrote gives back the instruction and the number
/// of words written, whatever follows it in memory.
pub proof fn lemma_decode_encode(i: Instruction<u16>, long: bool, pad0: u16, pad1: u16)
    ensures
        ({
            let w = encode_spec(i, long) + seq![pad0, pad1];
            decode_spec(w[0], w[1], w[2]) == Some((i, encode_spec(i, long).len()))
        }),
        1 <= encode_spec(i, long).len() <= 3,
{
    let w = encode_spec(i, long) + seq![pad0, pad1];
    match i {
        Instruction::Basic(op, b, a) => {
            let ta = value_trailer(a, true, long);
            let tb = value_trailer(b, false, false);
            lemma_value_round_trip(a, true, long, w[1]);
            let nb = if ta.len() == 1 { w[2] } else { w[1] };
            lemma_value_round_trip(b, false, false, nb);
            lemma_pack(basic_code(op), value_code(b, false, false), value_code(a, true, long));
            assert(basic_of_code(basic_code(op)) == Some(op));
        },
        Instruction::Special(op, a) => {
            lemma_value_round_trip(a, true, long, w[1]);
            lemma_pack(0, special_code(op), value_code(a, true, long));
            assert(special_of_code(special_code(op)) == Some(op));
        },
    }
}


fn basic_code_of(op: BasicOp) -> (r: u16)
    ensures
        r == basic_code(op),
{
    match op {
        BasicOp::SET => 0x01,
        BasicOp::ADD => 0x02,
        BasicOp::SUB => 0x03,
        BasicOp::MUL => 0x04,
        BasicOp::MLI => 0x05,
        BasicOp::DIV => 0x06,
        BasicOp::DVI => 0x07,
        BasicOp::MOD => 0x08,
        BasicOp::MDI => 0x09,
        BasicOp::AND => 0x0a,
        BasicOp::BOR => 0x0b,
        BasicOp::XOR => 0x0c,
        BasicOp::SHR => 0x0d,
        BasicOp::ASR => 0x0e,
        BasicOp::SHL => 0x0f,
        BasicOp::IFB => 0x10,
        BasicOp::IFC => 0x11,
        BasicOp::IFE => 0x12,
        BasicOp::IFN => 0x13,
        BasicOp::IFG => 0x14,
        BasicOp::IFA => 0x15,
        BasicOp::IFL => 0x16,
        BasicOp::IFU => 0x17,
        BasicOp::ADX => 0x1a,
        BasicOp::SBX => 0x1b,
        BasicOp::STI => 0x1e,
        BasicOp::STD => 0x1f,
    }
}

fn special_code_of(op: SpecialOp) -> (r: u16)
    ensures
        r == special_code(op),
{
    match op {
        SpecialOp::BRK => 0x00,
        SpecialOp::JSR => 0x01,
        SpecialOp::INT => 0x08,
        SpecialOp::IAG => 0x09,
        SpecialOp::IAS => 0x0a,
        SpecialOp::RFI => 0x0b,
        SpecialOp::IAQ => 0x0c,
        SpecialOp::HWN => 0x10,
        SpecialOp::HWQ => 0x11,
        SpecialOp::HWI => 0x12,
    }
}

fn basic_from_code(c: u16) -> (r: Option<BasicOp>)
    ensures
        r == basic_of_code(c),
{
    if c == 0x01 { Some(BasicOp::SET) }
    else if c == 0x02 { Some(BasicOp::ADD) }
    else if c == 0x03 { Some(BasicOp::SUB) }
    else if c == 0x04 { Some(BasicOp::MUL) }
    else if c == 0x05 { Some(BasicOp::MLI) }
    else if c == 0x06 { Some(BasicOp::DIV) }
    else if c == 0x07 { Some(BasicOp::DVI) }
    else if c == 0x08 { Some(BasicOp::MOD) }
    else if c == 0x09 { Some(BasicOp::MDI) }
    else if c == 0x0a { Some(BasicOp::AND) }
    else if c == 0x0b { Some(BasicOp::BOR) }
    else if c == 0x0c { Some(BasicOp::XOR) }
    else if c == 0x0d { Some(BasicOp::SHR) }
    else if c == 0x0e { Some(BasicOp::ASR) }
    else if c == 0x0f { Some(BasicOp::SHL) }
    else if c == 0x10 { Some(BasicOp::IFB) }
    else if c == 0x11 { Some(BasicOp::IFC) }
    else if c == 0x12 { Some(BasicOp::IFE) }
    else if c == 0x13 { Some(BasicOp::IFN) }
    else if c == 0x14 { Some(BasicOp::IFG) }
    else if c == 0x15 { Some(BasicOp::IFA) }
    else if c == 0x16 { Some(BasicOp::IFL) }
    else if c == 0x17 { Some(BasicOp::IFU) }
    else if c == 0x1a { Some(BasicOp::ADX) }
    else if c == 0x1b { Some(BasicOp::SBX) }
    else if c == 0x1e { Some(BasicOp::STI) }
    else if c == 0x1f { Some(BasicOp::STD) }
    else { None }
}

fn special_from_code(c: u16) -> (r: Option<SpecialOp>)
    ensures
        r == special_of_code(c),
{
    if c == 0x00 { Some(SpecialOp::BRK) }
    else if c == 0x01 { Some(SpecialOp::JSR) }
    else if c == 0x08 { Some(SpecialOp::INT) }
    else if c == 0x09 { Some(SpecialOp::IAG) }
    else if c == 0x0a { Some(SpecialOp::IAS) }
    else if c == 0x0b { Some(SpecialOp::RFI) }
    else if c == 0x0c { Some(SpecialOp::IAQ) }
    else if c == 0x10 { Some(SpecialOp::HWN) }
    else if c == 0x11 { Some(SpecialOp::HWQ) }
    else if c == 0x12 { Some(SpecialOp::HWI) }
    else { None }
}

/// The operand field of `v` and its trailer, if any.
fn value_fields(v: &Value<u16>, is_a: bool, long: bool) -> (r: (u16, Option<u16>))
    ensures
        r.0 == value_code(*v, is_a, long),
        r.0 < 64,
        !is_a ==> r.0 < 32,
        r.1 is None <==> value_trailer(*v, is_a, long).len() == 0,
        r.1 is Some ==> value_trailer(*v, is_a, long) == seq![r.1->0],
{
    match v {
        Value::Reg(r) => (r.index() as u16, None),
        Value::AtReg(r) => (0x08 + r.index() as u16, None),
        Value::AtRegPlus(r, n) => (0x10 + r.index() as u16, Some(*n)),
        Value::PushPop => (0x18, None),
        Value::Peek => (0x19, None),
        Value::Pick(n) => (0x1a, Some(*n)),
        Value::SP => (0x1b, None),
        Value::PC => (0x1c, None),
        Value::EX => (0x1d, None),
        Value::AtAddr(n) => (0x1e, Some(*n)),
        Value::Literal(n) => {
            let n = *n;
            if is_a && !long && (n == 0xffff || n <= 30) {
                if n == 0xffff {
                    (0x20, None)
                } else {
                    (n + 0x21, None)
                }
            } else {
                (0x1f, Some(n))
            }
        },
    }
}

fn push_trailer(out: &mut Vec<u16>, t: Option<u16>)
    ensures
        t is None ==> final(out)@ == old(out)@,
        t is Some ==> final(out)@ == old(out)@.push(t->0),
{
    if let Some(w) = t {
        out.push(w);
    }
}

/// The operand whose field is `c`, with `next` as its trailer if it takes one.
fn decode_value_exec(c: u16, next: u16) -> (r: (Value<u16>, bool))
    requires
        c < 64,
    ensures
        r == decode_value(c, next),
{
    if c < 0x08 {
        (Value::Reg(Register::from_code(c)), false)
    } else if c < 0x10 {
        (Value::AtReg(Register::from_code(c - 0x08)), false)
    } else if c < 0x18 {
        (Value::AtRegPlus(Register::from_code(c - 0x10), next), true)
    } else if c == 0x18 {
        (Value::PushPop, false)
    } else if c == 0x19 {
        (Value::Peek, false)
    } else if c == 0x1a {
        (Value::Pick(next), true)
    } else if c == 0x1b {
        (Value::SP, false)
    } else if c == 0x1c {
        (Value::PC, false)
    } else if c == 0x1d {
        (Value::EX, false)
    } else if c == 0x1e {
        (Value::AtAddr(next), true)
    } else if c == 0x1f {
        (Value::Literal(next), true)
    } else if c == 0x20 {
        (Value::Literal(0xffff), false)
    } else {
        (Value::Literal(c - 0x21), false)
    }
}

impl Instruction<u16> {
    /// Appends the words of this instruction to `out` and returns how many were
    /// written; `long` asks for the long form of a literal in operand a.
    pub fn encode(&self, long: bool, out: &mut Vec<u16>) -> (n: usize)
        ensures
            final(out)@ == old(out)@ + encode_spec(*self, long),
            n == encode_spec(*self, long).len(),
            1 <= n <= 3,
    {
        proof {
            lemma_decode_encode(*self, long, 0, 0);
        }
        let start = Ghost(out@);
        let start_len = out.len();
        match self {
            Instruction::Basic(op, b, a) => {
                let (ac, at) = value_fields(a, true, long);
                let (bc, bt) = value_fields(b, false, false);
                let oc = basic_code_of(*op);
                out.push(oc + bc * 32 + ac * 1024);
                push_trailer(out, at);
                push_trailer(out, bt);
                assert(out@ =~= start@ + encode_spec(*self, long));
            },
            Instruction::Special(op, a) => {
                let (ac, at) = value_fields(a, true, long);
                let sc = special_code_of(*op);
                out.push(sc * 32 + ac * 1024);
                push_trailer(out, at);
                assert(out@ =~= start@ + encode_spec(*self, long));
            },
        }
        proof {
            assert(out@.len() == start@.len() + encode_spec(*self, long).len());
        }
        out.len() - start_len
    }

    /// The instruction held by `w0`, read with trailers `w1` and `w2`, and the
    /// number of words it takes; `None` for an opcode that does not exist.
    pub fn decode_words(w0: u16, w1: u16, w2: u16) -> (r: Option<(Instruction<u16>, u16)>)
        ensures
            match decode_spec(w0, w1, w2) {
                Some((i, n)) => r == Some((i, n as u16)),
                None => r is None,
            },
    {
        let o = w0 % 32;
        let bc = (w0 / 32) % 32;
        let ac = w0 / 1024;
        let (a, a_used) = decode_value_exec(ac, w1);
        if o == 0 {
            match special_from_code(bc) {
                Some(op) => Some((Instruction::Special(op, a), if a_used { 2 } else { 1 })),
                None => None,
            }
        } else {
            match basic_from_code(o) {
                Some(op) => {
                    let (b, b_used) = decode_value_exec(bc, if a_used { w2 } else { w1 });
                    let n: u16 = 1 + (if a_used { 1u16 } else { 0u16 }) + (if b_used { 1u16 } else { 0u16 });
                    Some((Instruction::Basic(op, b, a), n))
                },
                None => None,
            }
        }
    }
}


pub open spec fn basic_cycles(op: BasicOp) -> nat {
    match op {
        BasicOp::SET | BasicOp::AND | BasicOp::BOR | BasicOp::XOR | BasicOp::SHR | BasicOp::ASR
        | BasicOp::SHL => 1,
        BasicOp::ADD | BasicOp::SUB | BasicOp::MUL | BasicOp::MLI | BasicOp::IFB | BasicOp::IFC
        | BasicOp::IFE | BasicOp::IFN | BasicOp::IFG | BasicOp::IFA | BasicOp::IFL | BasicOp::IFU
        | BasicOp::STI | BasicOp::STD => 2,
        BasicOp::DIV | BasicOp::DVI | BasicOp::MOD | BasicOp::MDI | BasicOp::ADX | BasicOp::SBX => 3,
    }
}

pub open spec fn special_cycles(op: SpecialOp) -> nat {
    match op {
        SpecialOp::BRK | SpecialOp::IAG | SpecialOp::IAS => 1,
        SpecialOp::IAQ | SpecialOp::HWN => 2,
        SpecialOp::JSR | SpecialOp::RFI => 3,
        SpecialOp::INT | SpecialOp::HWQ | SpecialOp::HWI => 4,
    }
}

/// Cycles an instruction takes: its opcode's base cost plus one for each
/// next-word trailer. A failed test and a device's answer to `HWI` add their
/// own cycles on top.
pub open spec fn cycles_spec(i: Instruction<u16>, long: bool) -> nat {
    let base = match i {
        Instruction::Basic(op, _, _) => basic_cycles(op),
        Instruction::Special(op, _) => special_cycles(op),
    };
    base + (encode_spec(i, long).len() - 1) as nat
}

impl Instruction<u16> {
    /// Cycles this instruction takes; `long` as for `encode`.
    pub fn cycles(&self, long: bool) -> (r: u32)
        ensures
            r == cycles_spec(*self, long),
    {
        let base: u32 = match self {
            Instruction::Basic(op, _, _) => match op {
                BasicOp::SET | BasicOp::AND | BasicOp::BOR | BasicOp::XOR | BasicOp::SHR | BasicOp::ASR
                | BasicOp::SHL => 1,
                BasicOp::ADD | BasicOp::SUB | BasicOp::MUL | BasicOp::MLI | BasicOp::IFB | BasicOp::IFC
                | BasicOp::IFE | BasicOp::IFN | BasicOp::IFG | BasicOp::IFA | BasicOp::IFL | BasicOp::IFU
                | BasicOp::STI | BasicOp::STD => 2,
                BasicOp::DIV | BasicOp::DVI | BasicOp::MOD | BasicOp::MDI | BasicOp::ADX | BasicOp::SBX => 3,
            },
            Instruction::Special(op, _) => match op {
                SpecialOp::BRK | SpecialOp::IAG | SpecialOp::IAS => 1,
                SpecialOp::IAQ | SpecialOp::HWN => 2,
                SpecialOp::JSR | SpecialOp::RFI => 3,
                SpecialOp::INT | SpecialOp::HWQ | SpecialOp::HWI => 4,
            },
        };
        let mut words: Vec<u16> = Vec::new();
        let n = self.encode(long, &mut words);
        proof {
            assert(words@ =~= Seq::<u16>::empty() + encode_spec(*self, long));
        }
        base + (n as u32 - 1)
    }
}

} // verus!
