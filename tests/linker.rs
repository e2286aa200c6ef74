use dcpu::cpu::{Cpu, CpuError};
use dcpu::device::Device;
use dcpu::instruction::{BasicOp, Instruction, Register, SpecialOp, Value};
use dcpu::linker::{extract_labels, link, Directive, Expr, LinkError, ParsedItem};

fn label(s: &str) -> ParsedItem {
    ParsedItem::LabelDecl(s.to_string())
}

fn local(s: &str) -> ParsedItem {
    ParsedItem::LocalLabelDecl(s.to_string())
}

fn set(b: Value<Expr>, a: Value<Expr>) -> ParsedItem {
    ParsedItem::Instruction(Instruction::Basic(BasicOp::SET, b, a))
}

fn lit_label(s: &str) -> Value<Expr> {
    Value::Literal(Expr::Label(s.to_string()))
}

fn num(n: u16) -> Value<Expr> {
    Value::Literal(Expr::Num(n))
}

fn run_steps(cpu: &mut Cpu, n: usize) -> Vec<Result<(), CpuError>> {
    let mut devices: Vec<Device> = Vec::new();
    (0..n).map(|_| cpu.step(&mut devices)).collect()
}

#[test]
fn duplicated_label_is_rejected() {
    let items = vec![label("foo"), set(Value::Reg(Register::A), num(1)), label("foo")];
    assert_eq!(link(&items), Err(LinkError::DuplicatedLabel("foo".to_string())).map(|x: (Vec<u16>, _)| x));
    assert_eq!(
        extract_labels(&items).err(),
        Some(LinkError::DuplicatedLabel("foo".to_string()))
    );
}

#[test]
fn local_before_global_is_rejected() {
    let items = vec![local(".loop"), label("main")];
    assert_eq!(link(&items).err(), Some(LinkError::LocalBeforeGlobal(".loop".to_string())));
}

#[test]
fn duplicated_local_is_rejected_but_shared_across_globals() {
    let dup = vec![label("a"), local(".x"), local(".x")];
    assert_eq!(link(&dup).err(), Some(LinkError::DuplicatedLocalLabel(".x".to_string())));
    let shared = vec![label("a"), local(".x"), label("b"), local(".x")];
    assert!(link(&shared).is_ok());
}

#[test]
fn unknown_labels_are_reported() {
    let items = vec![set(Value::Reg(Register::A), lit_label("nowhere"))];
    assert_eq!(link(&items).err(), Some(LinkError::UnknownLabel("nowhere".to_string())));
    let items = vec![
        label("main"),
        set(Value::Reg(Register::A), Value::Literal(Expr::LocalLabel(".missing".to_string()))),
    ];
    assert_eq!(link(&items).err(), Some(LinkError::UnknownLocalLabel(".missing".to_string())));
}

#[test]
fn image_too_large_is_reported() {
    let items = vec![
        ParsedItem::Directive(Directive::Lcomm("a".to_string(), 0xffff)),
        ParsedItem::Directive(Directive::Lcomm("b".to_string(), 0xffff)),
    ];
    assert_eq!(link(&items).err(), Some(LinkError::ImageTooLarge));
}

#[test]
fn forward_reference_widens_operand() {
    // with a short operand the label would stand 40 words ahead
    let mut items = vec![set(Value::Reg(Register::A), lit_label("end"))];
    items.push(ParsedItem::Directive(Directive::Word(vec![0u16; 39])));
    items.push(label("end"));
    let (image, globals) = link(&items).unwrap();
    // the operand needs a trailer, which moves the label one word further
    assert_eq!(image.len(), 41);
    assert_eq!(image[1], 40 + 1);
    assert_eq!(image[0], 0x01 | (0x00 << 5) | (0x1f << 10));
    assert_eq!(globals.symbols[0].name, "end");
    assert_eq!(globals.symbols[0].addr, 41);
}

#[test]
fn near_reference_stays_short() {
    let items = vec![
        label("start"),
        set(Value::Reg(Register::A), lit_label("start")),
        set(Value::Reg(Register::B), lit_label("next")),
        label("next"),
    ];
    let (image, globals) = link(&items).unwrap();
    assert_eq!(image.len(), 2);
    // short literal of 0 is 0x21, of 2 is 0x23
    assert_eq!(image[0], 0x01 | (0x00 << 5) | (0x21 << 10));
    assert_eq!(image[1], 0x01 | (0x01 << 5) | (0x23 << 10));
    assert_eq!(globals.symbols[1].addr, 2);
}

#[test]
fn label_reference_decodes_to_its_address() {
    let mut items = vec![label("main"), set(Value::Reg(Register::C), lit_label("data"))];
    items.push(ParsedItem::Directive(Directive::Word(vec![7u16; 35])));
    items.push(label("data"));
    items.push(local(".inner"));
    let (image, globals) = link(&items).unwrap();
    let addr = globals.symbols.iter().find(|s| s.name == "data").unwrap().addr;
    let (ins, n) = Instruction::decode_words(image[0], image[1], image[2]).unwrap();
    assert_eq!(n, 2);
    assert_eq!(ins, Instruction::Basic(BasicOp::SET, Value::Reg(Register::C), Value::Literal(addr)));
    assert_eq!(addr, 37);
    assert_eq!(globals.symbols[2].scope, Some("data".to_string()));
    assert_eq!(globals.symbols[2].addr, 37);
}

#[test]
fn linking_is_deterministic() {
    let items = vec![
        label("main"),
        set(Value::Reg(Register::A), lit_label("far")),
        ParsedItem::Directive(Directive::Align(8)),
        ParsedItem::Directive(Directive::Ascii(b"hello world, this is long enough".to_vec())),
        label("far"),
        ParsedItem::Directive(Directive::Byte(vec![1, 2, 3])),
    ];
    let first = link(&items).unwrap();
    let second = link(&items).unwrap();
    assert_eq!(first.0, second.0);
    assert_eq!(first.1, second.1);
    // .align 8 after the two-word SET pads with six zero words
    assert_eq!(&first.0[2..8], &[0u16; 6]);
    assert_eq!(first.1.symbols[1].addr, 8 + 32);
    assert_eq!(&first.0[40..42], &[0x0102, 0x0300]);
}

#[test]
fn data_directives_emit_words() {
    let items = vec![
        ParsedItem::Directive(Directive::Asciiz(b"hi".to_vec())),
        ParsedItem::Directive(Directive::Word(vec![0xbeef])),
        ParsedItem::Comment("; nothing".to_string()),
    ];
    let (image, _) = link(&items).unwrap();
    assert_eq!(image, vec![b'h' as u16, b'i' as u16, 0, 0xbeef]);
}

#[test]
fn three_instruction_program_runs() {
    let items = vec![
        set(Value::Reg(Register::A), num(0x1234)),
        set(Value::Reg(Register::B), Value::Reg(Register::A)),
        ParsedItem::Instruction(Instruction::Special(SpecialOp::BRK, num(0))),
    ];
    let (image, _) = link(&items).unwrap();
    let mut cpu = Cpu::new();
    cpu.load(&image, 0);
    let results = run_steps(&mut cpu, 3);
    assert_eq!(results[0], Ok(()));
    assert_eq!(results[1], Ok(()));
    assert_eq!(results[2], Err(CpuError::Halted));
    assert_eq!(cpu.registers[0], 0x1234);
    assert_eq!(cpu.registers[1], 0x1234);
    assert_eq!(cpu.pc, image.len() as u16);
}

#[test]
fn lcomm_buffer_is_written() {
    let items = vec![
        ParsedItem::Directive(Directive::Lcomm("buf".to_string(), 4)),
        set(Value::AtAddr(Expr::Label("buf".to_string())), num(0xaaaa)),
    ];
    let (image, globals) = link(&items).unwrap();
    let buf = globals.symbols[0].addr;
    assert_eq!(buf, 0);
    let mut cpu = Cpu::new();
    cpu.load(&image, 0);
    cpu.pc = 4;
    let results = run_steps(&mut cpu, 1);
    assert_eq!(results[0], Ok(()));
    assert_eq!(cpu.ram.get(buf), 0xaaaa);
    assert_eq!(cpu.ram.range(buf + 1, buf + 4), vec![0, 0, 0]);
}

#[test]
fn symbol_lookups() {
    let items = vec![
        label("a"),
        local(".x"),
        set(Value::Reg(Register::A), num(0x1234)),
        label("b"),
        set(Value::Reg(Register::B), num(1)),
        local(".x"),
    ];
    let (_, globals) = link(&items).unwrap();
    assert_eq!(globals.global_addr(&"a".to_string()), Some(0));
    assert_eq!(globals.global_addr(&"b".to_string()), Some(2));
    assert_eq!(globals.global_addr(&".x".to_string()), None);
    assert_eq!(globals.local_addr(&"a".to_string(), &".x".to_string()), Some(0));
    assert_eq!(globals.local_addr(&"b".to_string(), &".x".to_string()), Some(3));
    assert_eq!(globals.local_addr(&"b".to_string(), &".y".to_string()), None);
}

#[test]
fn resolution_error_comes_before_size_error() {
    let items = vec![
        ParsedItem::Directive(Directive::Lcomm("a".to_string(), 0xffff)),
        ParsedItem::Directive(Directive::Lcomm("b".to_string(), 0xffff)),
        set(Value::Reg(Register::A), lit_label("nowhere")),
    ];
    assert_eq!(link(&items).err(), Some(LinkError::UnknownLabel("nowhere".to_string())));
}
