use vstd::prelude::*;

use crate::instruction::{decode_spec, encode_spec, fits_short, lemma_decode_encode, Instruction, Value};

verus! {

/// A number, or a reference to a global or (with its leading dot) a local label.
#[derive(Debug, Clone, PartialEq, Eq)]
pub enum Expr {
    Num(u16),
    Label(String),
    LocalLabel(String),
}

#[derive(Debug, Clone, PartialEq, Eq)]
pub enum Directive {
    /// `.word`: one word each.
    Word(Vec<u16>),
    /// `.byte`: two bytes per word, the first in the high half.
    Byte(Vec<u8>),
    /// `.ascii`: one character per word.
    Ascii(Vec<u8>),
    /// `.asciiz`: `.ascii` followed by a zero word.
    Asciiz(Vec<u8>),
    /// `.align n`: zero words up to the next multiple of `n`.
    Align(u16),
    /// `.lcomm name, size`: declares the global `name` and reserves `size` zero words.
    Lcomm(String, u16),
}

/// What the parser hands to the linker.
#[derive(Debug, Clone, PartialEq, Eq)]
pub enum ParsedItem {
    Instruction(Instruction<Expr>),
    Directive(Directive),
    LabelDecl(String),
    LocalLabelDecl(String),
    Comment(String),
}

#[derive(Debug, Clone, PartialEq, Eq)]
pub enum LinkError {
    UnknownLabel(String),
    UnknownLocalLabel(String),
    DuplicatedLabel(String),
    DuplicatedLocalLabel(String),
    LocalBeforeGlobal(String),
    ImageTooLarge,
}

pub open spec fn global_name(it: ParsedItem) -> Option<Seq<char>> {
    match it {
        ParsedItem::LabelDecl(s) => Some(s@),
        ParsedItem::Directive(Directive::Lcomm(s, _)) => Some(s@),
        _ => None,
    }
}

pub open spec fn local_name(it: ParsedItem) -> Option<Seq<char>> {
    match it {
        ParsedItem::LocalLabelDecl(s) => Some(s@),
        _ => None,
    }
}

pub open spec fn is_decl(it: ParsedItem) -> bool {
    global_name(it) is Some || local_name(it) is Some
}

/// The first declaration of the global `name` in `items[from..to)`.
pub open spec fn find_global(items: Seq<ParsedItem>, name: Seq<char>, from: int, to: int) -> Option<int>
    decreases to - from,
{
    if from < 0 || from >= to || from >= items.len() {
        None
    } else if global_name(items[from]) == Some(name) {
        Some(from)
    } else {
        find_global(items, name, from + 1, to)
    }
}

/// The first declaration of the local `name` in `items[from..to)` that comes
/// before any global declaration.
pub open spec fn find_local(items: Seq<ParsedItem>, name: Seq<char>, from: int, to: int) -> Option<int>
    decreases to - from,
{
    if from < 0 || from >= to || from >= items.len() {
        None
    } else if global_name(items[from]) is Some {
        None
    } else if local_name(items[from]) == Some(name) {
        Some(from)
    } else {
        find_local(items, name, from + 1, to)
    }
}

/// The last global declaration before item `i`.
pub open spec fn cur_global(items: Seq<ParsedItem>, i: int) -> Option<int>
    decreases i,
{
    if i <= 0 || i > items.len() {
        None
    } else if global_name(items[i - 1]) is Some {
        Some(i - 1)
    } else {
        cur_global(items, i - 1)
    }
}

/// What is wrong with the declaration at item `i`, given the items before it.
pub open spec fn decl_error_at(items: Seq<ParsedItem>, i: int) -> Option<LinkError> {
    match items[i] {
        ParsedItem::LabelDecl(s) => if find_global(items, s@, 0, i) is Some {
            Some(LinkError::DuplicatedLabel(s))
        } else {
            None
        },
        ParsedItem::Directive(Directive::Lcomm(s, _)) => if find_global(items, s@, 0, i) is Some {
            Some(LinkError::DuplicatedLabel(s))
        } else {
            None
        },
        ParsedItem::LocalLabelDecl(s) => match cur_global(items, i) {
            None => Some(LinkError::LocalBeforeGlobal(s)),
            Some(g) => if find_local(items, s@, g + 1, i) is Some {
                Some(LinkError::DuplicatedLocalLabel(s))
            } else {
                None
            },
        },
        _ => None,
    }
}

/// The first declaration error at or after item `i`.
pub open spec fn first_decl_error(items: Seq<ParsedItem>, i: int) -> Option<LinkError>
    decreases items.len() - i,
{
    if i < 0 || i >= items.len() {
        None
    } else if decl_error_at(items, i) is Some {
        decl_error_at(items, i)
    } else {
        first_decl_error(items, i + 1)
    }
}

/// The value of `e` at item `i`, where `addrs[j]` is the address of item `j`.
pub open spec fn expr_value(items: Seq<ParsedItem>, addrs: Seq<u16>, i: int, e: Expr) -> Result<u16, LinkError> {
    match e {
        Expr::Num(n) => Ok(n),
        Expr::Label(s) => match find_global(items, s@, 0, items.len() as int) {
            Some(j) => Ok(addrs[j]),
            None => Err(LinkError::UnknownLabel(s)),
        },
        Expr::LocalLabel(s) => match cur_global(items, i) {
            None => Err(LinkError::UnknownLocalLabel(s)),
            Some(g) => match find_local(items, s@, g + 1, items.len() as int) {
                Some(j) => Ok(addrs[j]),
                None => Err(LinkError::UnknownLocalLabel(s)),
            },
        },
    }
}

pub open spec fn value_resolve(items: Seq<ParsedItem>, addrs: Seq<u16>, i: int, v: Value<Expr>) -> Result<Value<u16>, LinkError> {
    match v {
        Value::Reg(r) => Ok(Value::Reg(r)),
        Value::AtReg(r) => Ok(Value::AtReg(r)),
        Value::AtRegPlus(r, e) => match expr_value(items, addrs, i, e) {
            Ok(n) => Ok(Value::AtRegPlus(r, n)),
            Err(x) => Err(x),
        },
        Value::PushPop => Ok(Value::PushPop),
        Value::Peek => Ok(Value::Peek),
        Value::Pick(e) => match expr_value(items, addrs, i, e) {
            Ok(n) => Ok(Value::Pick(n)),
            Err(x) => Err(x),
        },
        Value::SP => Ok(Value::SP),
        Value::PC => Ok(Value::PC),
        Value::EX => Ok(Value::EX),
        Value::AtAddr(e) => match expr_value(items, addrs, i, e) {
            Ok(n) => Ok(Value::AtAddr(n)),
            Err(x) => Err(x),
        },
        Value::Literal(e) => match expr_value(items, addrs, i, e) {
            Ok(n) => Ok(Value::Literal(n)),
            Err(x) => Err(x),
        },
    }
}

/// The instruction at item `i` with its labels replaced by `addrs`; operand a
/// is resolved before operand b.
pub open spec fn instr_resolve(items: Seq<ParsedItem>, addrs: Seq<u16>, i: int, ins: Instruction<Expr>) -> Result<Instruction<u16>, LinkError> {
    match ins {
        Instruction::Basic(op, b, a) => match value_resolve(items, addrs, i, a) {
            Err(x) => Err(x),
            Ok(ra) => match value_resolve(items, addrs, i, b) {
                Err(x) => Err(x),
                Ok(rb) => Ok(Instruction::Basic(op, rb, ra)),
            },
        },
        Instruction::Special(op, a) => match value_resolve(items, addrs, i, a) {
            Err(x) => Err(x),
            Ok(ra) => Ok(Instruction::Special(op, ra)),
        },
    }
}

pub open spec fn operand_a(ins: Instruction<Expr>) -> Value<Expr> {
    match ins {
        Instruction::Basic(_, _, a) => a,
        Instruction::Special(_, a) => a,
    }
}

/// Operand a is a literal whose value is a label's address: the
/// span-dependent case.
pub open spec fn label_literal(ins: Instruction<Expr>) -> bool {
    match operand_a(ins) {
        Value::Literal(Expr::Num(_)) => false,
        Value::Literal(_) => true,
        _ => false,
    }
}

pub open spec fn resolved_literal(r: Instruction<u16>) -> u16 {
    match r {
        Instruction::Basic(_, _, Value::Literal(n)) => n,
        Instruction::Special(_, Value::Literal(n)) => n,
        _ => 0,
    }
}

/// The resolution error of item `i`, if any; it does not depend on addresses.
pub open spec fn resolve_error_at(items: Seq<ParsedItem>, i: int) -> Option<LinkError> {
    match items[i] {
        ParsedItem::Instruction(ins) => match instr_resolve(items, Seq::new(items.len(), |j: int| 0u16), i, ins) {
            Err(e) => Some(e),
            Ok(_) => None,
        },
        _ => None,
    }
}

/// The first resolution error at or after item `i`.
pub open spec fn first_resolve_error(items: Seq<ParsedItem>, i: int) -> Option<LinkError>
    decreases items.len() - i,
{
    if i < 0 || i >= items.len() {
        None
    } else if resolve_error_at(items, i) is Some {
        resolve_error_at(items, i)
    } else {
        first_resolve_error(items, i + 1)
    }
}

proof fn lemma_value_error_indep(items: Seq<ParsedItem>, a1: Seq<u16>, a2: Seq<u16>, i: int, v: Value<Expr>)
    ensures
        value_resolve(items, a1, i, v) is Err <==> value_resolve(items, a2, i, v) is Err,
        value_resolve(items, a1, i, v) is Err ==> value_resolve(items, a1, i, v) == value_resolve(items, a2, i, v),
{
}

proof fn lemma_resolve_error_indep(items: Seq<ParsedItem>, addrs: Seq<u16>, i: int, ins: Instruction<Expr>)
    ensures
        ({
            let z = Seq::new(items.len(), |j: int| 0u16);
            &&& instr_resolve(items, addrs, i, ins) is Err <==> instr_resolve(items, z, i, ins) is Err
            &&& instr_resolve(items, addrs, i, ins) is Err ==> instr_resolve(items, addrs, i, ins) == instr_resolve(items, z, i, ins)
        }),
{
    let z = Seq::new(items.len(), |j: int| 0u16);
    match ins {
        Instruction::Basic(op, b, a) => {
            lemma_value_error_indep(items, addrs, z, i, a);
            lemma_value_error_indep(items, addrs, z, i, b);
        },
        Instruction::Special(op, a) => {
            lemma_value_error_indep(items, addrs, z, i, a);
        },
    }
}

/// Whether item `i` takes the long form after a pass over `addrs` that started
/// with the flags `ws`: once long, an operand stays long.
pub open spec fn wide_after(items: Seq<ParsedItem>, addrs: Seq<u16>, ws: Seq<bool>, i: int) -> bool {
    ws[i] || match items[i] {
        ParsedItem::Instruction(ins) => label_literal(ins) && match instr_resolve(items, addrs, i, ins) {
            Ok(r) => !fits_short(resolved_literal(r)),
            Err(_) => false,
        },
        _ => false,
    }
}

pub open spec fn wide_seq(items: Seq<ParsedItem>, addrs: Seq<u16>, ws: Seq<bool>) -> Seq<bool> {
    Seq::new(items.len(), |i: int| wide_after(items, addrs, ws, i))
}

pub open spec fn operand_len(v: Value<Expr>, is_a: bool, long: bool) -> int {
    match v {
        Value::AtRegPlus(_, _) => 1,
        Value::Pick(_) => 1,
        Value::AtAddr(_) => 1,
        Value::Literal(Expr::Num(n)) => if is_a && !long && fits_short(n) { 0 } else { 1 },
        Value::Literal(_) => if is_a && !long { 0 } else { 1 },
        _ => 0,
    }
}

pub open spec fn instr_len(ins: Instruction<Expr>, long: bool) -> int {
    match ins {
        Instruction::Basic(_, b, a) => 1 + operand_len(a, true, long) + operand_len(b, false, false),
        Instruction::Special(_, a) => 1 + operand_len(a, true, long),
    }
}

pub open spec fn align_pad(n: u16, index: int) -> int {
    if n == 0 { 0 } else { (n - index % (n as int)) % (n as int) }
}

pub open spec fn pack_bytes(b: Seq<u8>) -> Seq<u16> {
    Seq::new(((b.len() + 1) / 2) as nat, |k: int|
        (b[2 * k] as int * 256 + if 2 * k + 1 < b.len() { b[2 * k + 1] as int } else { 0 }) as u16)
}

/// The words that directive `d` emits at address `index`.
pub open spec fn data_words(d: Directive, index: int) -> Seq<u16> {
    match d {
        Directive::Word(v) => v@,
        Directive::Byte(v) => pack_bytes(v@),
        Directive::Ascii(v) => v@.map_values(|c: u8| c as u16),
        Directive::Asciiz(v) => v@.map_values(|c: u8| c as u16).push(0),
        Directive::Align(n) => Seq::new(align_pad(n, index) as nat, |k: int| 0u16),
        Directive::Lcomm(_, size) => Seq::new(size as nat, |k: int| 0u16),
    }
}

pub open spec fn item_len(it: ParsedItem, index: int, long: bool) -> int {
    match it {
        ParsedItem::Instruction(ins) => instr_len(ins, long),
        ParsedItem::Directive(d) => data_words(d, index).len() as int,
        _ => 0,
    }
}

/// The address of item `i` when the flags `ws` say which operands are long.
pub open spec fn addr_with(items: Seq<ParsedItem>, ws: Seq<bool>, i: int) -> int
    decreases i,
{
    if i <= 0 {
        0
    } else {
        addr_with(items, ws, i - 1) + item_len(items[i - 1], addr_with(items, ws, i - 1), ws[i - 1])
    }
}

/// The words that item `i` emits in a pass over `addrs` with the flags `ws`.
pub open spec fn item_words(items: Seq<ParsedItem>, addrs: Seq<u16>, ws: Seq<bool>, i: int) -> Seq<u16> {
    match items[i] {
        ParsedItem::Instruction(ins) => match instr_resolve(items, addrs, i, ins) {
            Ok(r) => encode_spec(r, ws[i]),
            Err(_) => seq![],
        },
        ParsedItem::Directive(d) => data_words(d, addr_with(items, ws, i)),
        _ => seq![],
    }
}

/// The image that a pass over `addrs` with the flags `ws` emits for `items[..i)`.
pub open spec fn image_upto(items: Seq<ParsedItem>, addrs: Seq<u16>, ws: Seq<bool>, i: int) -> Seq<u16>
    decreases i,
{
    if i <= 0 {
        seq![]
    } else {
        image_upto(items, addrs, ws, i - 1) + item_words(items, addrs, ws, i - 1)
    }
}

/// The item addresses that a pass records: each declaration gets its address
/// under `ws`, the other items keep theirs.
pub open spec fn addrs_after(items: Seq<ParsedItem>, addrs: Seq<u16>, ws: Seq<bool>) -> Seq<u16> {
    Seq::new(items.len(), |j: int| if is_decl(items[j]) { addr_with(items, ws, j) as u16 } else { addrs[j] })
}

/// Under the flags `ws` some item would start past the end of memory, or a
/// declaration would stand at an address that is not a word.
pub open spec fn too_large(items: Seq<ParsedItem>, ws: Seq<bool>) -> bool {
    ||| exists|i: int| 0 <= i <= items.len() && #[trigger] addr_with(items, ws, i) > 0x10000
    ||| exists|j: int| 0 <= j < items.len() && is_decl(#[trigger] items[j]) && addr_with(items, ws, j) >= 0x10000
}

/// `ws` only adds long operands to `vs`.
pub open spec fn flags_grow(vs: Seq<bool>, ws: Seq<bool>) -> bool {
    vs.len() == ws.len() && forall|i: int| 0 <= i < vs.len() && #[trigger] vs[i] ==> ws[i]
}

/// `addrs` and `ws` are a settled layout: a further pass leaves every address
/// and every flag as it is.
pub open spec fn settled(items: Seq<ParsedItem>, addrs: Seq<u16>, ws: Seq<bool>) -> bool {
    &&& addrs.len() == items.len()
    &&& ws.len() == items.len()
    &&& wide_seq(items, addrs, ws) == ws
    &&& addrs_after(items, addrs, ws) == addrs
    &&& forall|j: int| 0 <= j < items.len() && is_decl(#[trigger] items[j]) ==> addr_with(items, ws, j) < 0x10000
}


fn global_name_of(it: &ParsedItem) -> (r: Option<&String>)
    ensures
        r is None <==> global_name(*it) is None,
        r is Some ==> global_name(*it) == Some(r->0@),
{
    match it {
        ParsedItem::LabelDecl(s) => Some(s),
        ParsedItem::Directive(Directive::Lcomm(s, _)) => Some(s),
        _ => None,
    }
}

fn local_name_of(it: &ParsedItem) -> (r: Option<&String>)
    ensures
        r is None <==> local_name(*it) is None,
        r is Some ==> local_name(*it) == Some(r->0@),
{
    match it {
        ParsedItem::LocalLabelDecl(s) => Some(s),
        _ => None,
    }
}

fn find_global_exec(ast: &[ParsedItem], name: &String, from: usize, to: usize) -> (r: Option<usize>)
    requires
        to <= ast@.len(),
    ensures
        r is None <==> find_global(ast@, name@, from as int, to as int) is None,
        r is Some ==> find_global(ast@, name@, from as int, to as int) == Some(r->0 as int),
{
    let mut k: usize = from;
    while k < to
        invariant
            to <= ast@.len(),
            from <= k,
            find_global(ast@, name@, from as int, to as int) == find_global(ast@, name@, k as int, to as int),
        decreases to - k,
    {
        if let Some(g) = global_name_of(&ast[k]) {
            if g.eq(name) {
                return Some(k);
            }
        }
        k = k + 1;
    }
    None
}

fn find_local_exec(ast: &[ParsedItem], name: &String, from: usize, to: usize) -> (r: Option<usize>)
    requires
        to <= ast@.len(),
    ensures
        r is None <==> find_local(ast@, name@, from as int, to as int) is None,
        r is Some ==> find_local(ast@, name@, from as int, to as int) == Some(r->0 as int),
{
    let mut k: usize = from;
    while k < to
        invariant
            to <= ast@.len(),
            from <= k,
            find_local(ast@, name@, from as int, to as int) == find_local(ast@, name@, k as int, to as int),
        decreases to - k,
    {
        if global_name_of(&ast[k]).is_some() {
            return None;
        }
        if let Some(l) = local_name_of(&ast[k]) {
            if l.eq(name) {
                return Some(k);
            }
        }
        k = k + 1;
    }
    None
}

fn expr_value_exec(ast: &[ParsedItem], addrs: &Vec<u16>, i: usize, cur: Option<usize>, e: &Expr) -> (r: Result<u16, LinkError>)
    requires
        i < ast@.len(),
        addrs@.len() == ast@.len(),
        cur is None <==> cur_global(ast@, i as int) is None,
        cur is Some ==> cur_global(ast@, i as int) == Some(cur->0 as int),
    ensures
        r == expr_value(ast@, addrs@, i as int, *e),
{
    match e {
        Expr::Num(n) => Ok(*n),
        Expr::Label(s) => {
            proof {
                lemma_find_global_bound(ast@, s@, 0, ast@.len() as int);
            }
            match find_global_exec(ast, s, 0, ast.len()) {
            Some(j) => Ok(addrs[j]),
            None => Err(LinkError::UnknownLabel(s.clone())),
        }},
        Expr::LocalLabel(s) => match cur {
            None => Err(LinkError::UnknownLocalLabel(s.clone())),
            Some(g) => {
                proof {
                    lemma_cur_global_bound(ast@, i as int);
                    lemma_find_local_bound(ast@, s@, g + 1, ast@.len() as int);
                }
                match find_local_exec(ast, s, g + 1, ast.len()) {
                    Some(j) => Ok(addrs[j]),
                    None => Err(LinkError::UnknownLocalLabel(s.clone())),
                }
            },
        },
    }
}

proof fn lemma_cur_global_bound(items: Seq<ParsedItem>, i: int)
    ensures
        cur_global(items, i) is Some ==> 0 <= cur_global(items, i)->0 < i && i <= items.len(),
    decreases i,
{
    if i > 0 && i <= items.len() && global_name(items[i - 1]) is None {
        lemma_cur_global_bound(items, i - 1);
    }
}

proof fn lemma_find_global_bound(items: Seq<ParsedItem>, name: Seq<char>, from: int, to: int)
    ensures
        find_global(items, name, from, to) is Some ==> {
            let j = find_global(items, name, from, to)->0;
            from <= j < to && j < items.len() && global_name(items[j]) == Some(name)
        },
    decreases to - from,
{
    if !(from < 0 || from >= to || from >= items.len()) && global_name(items[from]) != Some(name) {
        lemma_find_global_bound(items, name, from + 1, to);
    }
}

proof fn lemma_find_local_bound(items: Seq<ParsedItem>, name: Seq<char>, from: int, to: int)
    ensures
        find_local(items, name, from, to) is Some ==> {
            let j = find_local(items, name, from, to)->0;
            from <= j < to && j < items.len() && local_name(items[j]) == Some(name)
        },
    decreases to - from,
{
    if !(from < 0 || from >= to || from >= items.len()) && global_name(items[from]) is None
        && local_name(items[from]) != Some(name) {
        lemma_find_local_bound(items, name, from + 1, to);
    }
}

fn value_resolve_exec(ast: &[ParsedItem], addrs: &Vec<u16>, i: usize, cur: Option<usize>, v: &Value<Expr>) -> (r: Result<Value<u16>, LinkError>)
    requires
        i < ast@.len(),
        addrs@.len() == ast@.len(),
        cur is None <==> cur_global(ast@, i as int) is None,
        cur is Some ==> cur_global(ast@, i as int) == Some(cur->0 as int),
    ensures
        r == value_resolve(ast@, addrs@, i as int, *v),
{
    match v {
        Value::Reg(r) => Ok(Value::Reg(*r)),
        Value::AtReg(r) => Ok(Value::AtReg(*r)),
        Value::AtRegPlus(r, e) => match expr_value_exec(ast, addrs, i, cur, e) {
            Ok(n) => Ok(Value::AtRegPlus(*r, n)),
            Err(x) => Err(x),
        },
        Value::PushPop => Ok(Value::PushPop),
        Value::Peek => Ok(Value::Peek),
        Value::Pick(e) => match expr_value_exec(ast, addrs, i, cur, e) {
            Ok(n) => Ok(Value::Pick(n)),
            Err(x) => Err(x),
        },
        Value::SP => Ok(Value::SP),
        Value::PC => Ok(Value::PC),
        Value::EX => Ok(Value::EX),
        Value::AtAddr(e) => match expr_value_exec(ast, addrs, i, cur, e) {
            Ok(n) => Ok(Value::AtAddr(n)),
            Err(x) => Err(x),
        },
        Value::Literal(e) => match expr_value_exec(ast, addrs, i, cur, e) {
            Ok(n) => Ok(Value::Literal(n)),
            Err(x) => Err(x),
        },
    }
}

fn instr_resolve_exec(ast: &[ParsedItem], addrs: &Vec<u16>, i: usize, cur: Option<usize>, ins: &Instruction<Expr>) -> (r: Result<Instruction<u16>, LinkError>)
    requires
        i < ast@.len(),
        addrs@.len() == ast@.len(),
        cur is None <==> cur_global(ast@, i as int) is None,
        cur is Some ==> cur_global(ast@, i as int) == Some(cur->0 as int),
    ensures
        r == instr_resolve(ast@, addrs@, i as int, *ins),
{
    match ins {
        Instruction::Basic(op, b, a) => match value_resolve_exec(ast, addrs, i, cur, a) {
            Err(x) => Err(x),
            Ok(ra) => match value_resolve_exec(ast, addrs, i, cur, b) {
                Err(x) => Err(x),
                Ok(rb) => Ok(Instruction::Basic(*op, rb, ra)),
            },
        },
        Instruction::Special(op, a) => match value_resolve_exec(ast, addrs, i, cur, a) {
            Err(x) => Err(x),
            Ok(ra) => Ok(Instruction::Special(*op, ra)),
        },
    }
}

fn is_label_literal(ins: &Instruction<Expr>) -> (r: bool)
    ensures
        r == label_literal(*ins),
{
    let a = match ins {
        Instruction::Basic(_, _, a) => a,
        Instruction::Special(_, a) => a,
    };
    match a {
        Value::Literal(Expr::Num(_)) => false,
        Value::Literal(_) => true,
        _ => false,
    }
}

fn literal_of(r: &Instruction<u16>) -> (n: u16)
    ensures
        n == resolved_literal(*r),
{
    match r {
        Instruction::Basic(_, _, Value::Literal(n)) => *n,
        Instruction::Special(_, Value::Literal(n)) => *n,
        _ => 0,
    }
}

proof fn lemma_value_len(items: Seq<ParsedItem>, addrs: Seq<u16>, i: int, v: Value<Expr>, is_a: bool, long: bool)
    requires
        value_resolve(items, addrs, i, v) is Ok,
        is_a && !long ==> match v {
            Value::Literal(Expr::Num(_)) => true,
            Value::Literal(_) => fits_short(value_resolve(items, addrs, i, v)->Ok_0->Literal_0),
            _ => true,
        },
    ensures
        crate::instruction::value_trailer(value_resolve(items, addrs, i, v)->Ok_0, is_a, long).len()
            == operand_len(v, is_a, long),
{
}

proof fn lemma_instr_len(items: Seq<ParsedItem>, addrs: Seq<u16>, i: int, ins: Instruction<Expr>, long: bool)
    requires
        instr_resolve(items, addrs, i, ins) is Ok,
        label_literal(ins) && !long ==> fits_short(resolved_literal(instr_resolve(items, addrs, i, ins)->Ok_0)),
    ensures
        encode_spec(instr_resolve(items, addrs, i, ins)->Ok_0, long).len() == instr_len(ins, long),
{
    match ins {
        Instruction::Basic(op, b, a) => {
            lemma_value_len(items, addrs, i, a, true, long);
            lemma_value_len(items, addrs, i, b, false, false);
        },
        Instruction::Special(op, a) => {
            lemma_value_len(items, addrs, i, a, true, long);
        },
    }
}


fn push_zeros(out: &mut Vec<u16>, n: usize)
    ensures
        final(out)@ == old(out)@ + Seq::new(n as nat, |k: int| 0u16),
{
    let ghost start = out@;
    let mut k: usize = 0;
    while k < n
        invariant
            k <= n,
            out@ == start + Seq::new(k as nat, |m: int| 0u16),
        decreases n - k,
    {
        out.push(0);
        k = k + 1;
        assert(out@ =~= start + Seq::new(k as nat, |m: int| 0u16));
    }
}

fn push_chars(out: &mut Vec<u16>, v: &Vec<u8>)
    ensures
        final(out)@ == old(out)@ + v@.map_values(|c: u8| c as u16),
{
    let ghost start = out@;
    let mut k: usize = 0;
    while k < v.len()
        invariant
            k <= v@.len(),
            out@ == start + v@.subrange(0, k as int).map_values(|c: u8| c as u16),
        decreases v@.len() - k,
    {
        out.push(v[k] as u16);
        k = k + 1;
        assert(out@ =~= start + v@.subrange(0, k as int).map_values(|c: u8| c as u16));
    }
    assert(v@.subrange(0, k as int) =~= v@);
}

/// Appends the words that `d` emits at address `index` and returns their number.
fn push_data(out: &mut Vec<u16>, d: &Directive, index: usize) -> (n: usize)
    ensures
        final(out)@ == old(out)@ + data_words(*d, index as int),
        n == data_words(*d, index as int).len(),
{
    let ghost start = out@;
    match d {
        Directive::Word(v) => {
            let mut k: usize = 0;
            while k < v.len()
                invariant
                    k <= v@.len(),
                    out@ == start + v@.subrange(0, k as int),
                decreases v@.len() - k,
            {
                out.push(v[k]);
                k = k + 1;
                assert(out@ =~= start + v@.subrange(0, k as int));
            }
            assert(v@.subrange(0, k as int) =~= v@);
            v.len()
        },
        Directive::Byte(v) => {
            let words: usize = v.len() / 2 + v.len() % 2;
            let mut k: usize = 0;
            while k < words
                invariant
                    words == (v@.len() + 1) / 2,
                    v@.len() <= usize::MAX,
                    k <= words,
                    out@ == start + pack_bytes(v@).subrange(0, k as int),
                decreases words - k,
            {
                let hi = v[2 * k] as u16;
                let lo: u16 = if 2 * k + 1 < v.len() { v[2 * k + 1] as u16 } else { 0 };
                out.push(hi * 256 + lo);
                k = k + 1;
                assert(out@ =~= start + pack_bytes(v@).subrange(0, k as int));
            }
            assert(pack_bytes(v@).subrange(0, k as int) =~= pack_bytes(v@));
            words
        },
        Directive::Ascii(v) => {
            push_chars(out, v);
            v.len()
        },
        Directive::Asciiz(v) => {
            let start_len = out.len();
            push_chars(out, v);
            out.push(0);
            assert(out@ =~= start + v@.map_values(|c: u8| c as u16).push(0));
            out.len() - start_len
        },
        Directive::Align(n) => {
            let pad: usize = if *n == 0 { 0 } else { (*n as usize - index % (*n as usize)) % (*n as usize) };
            push_zeros(out, pad);
            pad
        },
        Directive::Lcomm(_, size) => {
            push_zeros(out, *size as usize);
            *size as usize
        },
    }
}

/// One layout pass: labels resolve against `addrs`, the flags `ws` say which
/// operands were long already. Returns the image, the new item addresses, the
/// new flags, and whether a declaration moved.
fn layout_pass(ast: &[ParsedItem], addrs: &Vec<u16>, ws: &Vec<bool>) -> (r: Result<(Vec<u16>, Vec<u16>, Vec<bool>, bool), LinkError>)
    requires
        addrs@.len() == ast@.len(),
        ws@.len() == ast@.len(),
    ensures
        match r {
            Ok((image, new_addrs, new_ws, changed)) => {
                let nws = wide_seq(ast@, addrs@, ws@);
                &&& new_ws@ == nws
                &&& new_addrs@ == addrs_after(ast@, addrs@, nws)
                &&& image@ == image_upto(ast@, addrs@, nws, ast@.len() as int)
                &&& image@.len() <= 0x10000
                &&& changed <==> new_addrs@ != addrs@
                &&& forall|j: int| 0 <= j < ast@.len() && is_decl(#[trigger] ast@[j]) ==> addr_with(ast@, nws, j) < 0x10000
                &&& first_resolve_error(ast@, 0) is None
                &&& !too_large(ast@, nws)
            },
            Err(e) => (e == LinkError::ImageTooLarge && too_large(ast@, wide_seq(ast@, addrs@, ws@)))
                || Some(e) == first_resolve_error(ast@, 0),
        },
{
    let ghost items = ast@;
    let ghost nws = wide_seq(items, addrs@, ws@);
    let ghost after = addrs_after(items, addrs@, nws);
    let mut image: Vec<u16> = Vec::new();
    let mut new_addrs: Vec<u16> = Vec::new();
    let mut new_ws: Vec<bool> = Vec::new();
    let mut changed = false;
    let mut index: usize = 0;
    let mut cur: Option<usize> = None;
    let mut i: usize = 0;
    while i < ast.len()
        invariant
            items == ast@,
            addrs@.len() == items.len(),
            ws@.len() == items.len(),
            nws == wide_seq(items, addrs@, ws@),
            after == addrs_after(items, addrs@, nws),
            i <= items.len(),
            new_ws@ == nws.subrange(0, i as int),
            new_addrs@ == after.subrange(0, i as int),
            index == addr_with(items, nws, i as int),
            index <= 0x10000,
            image@ == image_upto(items, addrs@, nws, i as int),
            image@.len() == index,
            forall|j: int| 0 <= j < i && is_decl(#[trigger] items[j]) ==> addr_with(items, nws, j) < 0x10000,
            changed <==> exists|k: int| 0 <= k < i && new_addrs@[k] != addrs@[k],
            cur is None <==> cur_global(items, i as int) is None,
            cur is Some ==> cur_global(items, i as int) == Some(cur->0 as int),
            first_resolve_error(items, 0) == first_resolve_error(items, i as int),
            forall|k: int| 0 <= k <= i ==> #[trigger] addr_with(items, nws, k) <= 0x10000,
        decreases items.len() - i,
    {
        let ghost old_addrs = new_addrs@;
        let ghost old_changed = changed;
        match &ast[i] {
            ParsedItem::Instruction(ins) => {
                proof {
                    lemma_resolve_error_indep(items, addrs@, i as int, *ins);
                }
                let solved = match instr_resolve_exec(ast, addrs, i, cur, ins) {
                    Ok(s) => s,
                    Err(e) => return Err(e),
                };
                let long = ws[i] || (is_label_literal(ins) && !(literal_of(&solved) == 0xffff || literal_of(&solved) <= 30));
                assert(long == nws[i as int]);
                proof {
                    lemma_instr_len(items, addrs@, i as int, *ins, long);
                }
                let n = solved.encode(long, &mut image);
                if n > 0x10000 - index {
                    assert(addr_with(items, nws, i + 1) > 0x10000);
                    return Err(LinkError::ImageTooLarge);
                }
                index = index + n;
                new_ws.push(long);
                new_addrs.push(addrs[i]);
            },
            ParsedItem::Directive(d) => {
                let is_global = match d {
                    Directive::Lcomm(_, _) => true,
                    _ => false,
                };
                if is_global {
                    if index >= 0x10000 {
                        assert(is_decl(items[i as int]) && addr_with(items, nws, i as int) >= 0x10000);
                        return Err(LinkError::ImageTooLarge);
                    }
                    if index as u16 != addrs[i] {
                        changed = true;
                    }
                    new_addrs.push(index as u16);
                    cur = Some(i);
                } else {
                    new_addrs.push(addrs[i]);
                }
                let n = push_data(&mut image, d, index);
                if n > 0x10000 - index {
                    assert(addr_with(items, nws, i + 1) > 0x10000);
                    return Err(LinkError::ImageTooLarge);
                }
                index = index + n;
                new_ws.push(ws[i]);
            },
            ParsedItem::LabelDecl(_) | ParsedItem::LocalLabelDecl(_) => {
                if index >= 0x10000 {
                    assert(is_decl(items[i as int]) && addr_with(items, nws, i as int) >= 0x10000);
                    return Err(LinkError::ImageTooLarge);
                }
                if index as u16 != addrs[i] {
                    changed = true;
                }
                new_addrs.push(index as u16);
                if let ParsedItem::LabelDecl(_) = &ast[i] {
                    cur = Some(i);
                }
                new_ws.push(ws[i]);
            },
            ParsedItem::Comment(_) => {
                new_addrs.push(addrs[i]);
                new_ws.push(ws[i]);
            },
        }
        proof {
            assert(new_ws@ =~= nws.subrange(0, i + 1));
            assert(new_addrs@ =~= after.subrange(0, i + 1));
            assert(new_addrs@[i as int] == after[i as int]);
            if changed {
                if !old_changed {
                    assert(new_addrs@[i as int] != addrs@[i as int]);
                } else {
                    let k = choose|k: int| 0 <= k < i && old_addrs[k] != addrs@[k];
                    assert(new_addrs@[k] == old_addrs[k]);
                }
            }
            if exists|k: int| 0 <= k < i + 1 && new_addrs@[k] != addrs@[k] {
                let k = choose|k: int| 0 <= k < i + 1 && new_addrs@[k] != addrs@[k];
                if k < i {
                    assert(old_addrs[k] == new_addrs@[k]);
                }
            }
        }
        i = i + 1;
    }
    proof {
        assert(new_ws@ =~= nws);
        assert(new_addrs@ =~= after);
        assert(!too_large(items, nws)) by {
            assert forall|k: int| 0 <= k <= items.len() implies #[trigger] addr_with(items, nws, k) <= 0x10000 by {}
        }
        if !changed {
            assert(new_addrs@ =~= addrs@);
        }
    }
    Ok((image, new_addrs, new_ws, changed))
}


/// A label of the symbol table: a global has no scope, a local names the
/// global it belongs to.
#[derive(Debug, Clone, PartialEq, Eq)]
pub struct Symbol {
    pub name: String,
    pub addr: u16,
    pub scope: Option<String>,
}

/// The symbol table, in declaration order.
#[derive(Debug, Clone, PartialEq, Eq)]
pub struct Globals {
    pub symbols: Vec<Symbol>,
}

pub open spec fn symbol_view(s: Symbol) -> (Seq<char>, u16, Option<Seq<char>>) {
    (s.name@, s.addr, match s.scope {
        Some(g) => Some(g@),
        None => None,
    })
}

impl View for Globals {
    type V = Seq<(Seq<char>, u16, Option<Seq<char>>)>;

    open spec fn view(&self) -> Seq<(Seq<char>, u16, Option<Seq<char>>)> {
        self.symbols@.map_values(|s: Symbol| symbol_view(s))
    }
}

impl Globals {
    /// The address of the global label `name`, the first one so named.
    pub fn global_addr(&self, name: &String) -> (r: Option<u16>)
        ensures
            r is None <==> !(exists|k: int| 0 <= k < self@.len() && (#[trigger] self@[k]).0 == name@ && self@[k].2 is None),
            r matches Some(a) ==> exists|k: int| 0 <= k < self@.len() && #[trigger] self@[k] == (name@, a, None::<Seq<char>>),
    {
        let mut k: usize = 0;
        while k < self.symbols.len()
            invariant
                k <= self@.len(),
                self@.len() == self.symbols@.len(),
                forall|m: int| 0 <= m < k ==> !((#[trigger] self@[m]).0 == name@ && self@[m].2 is None),
            decreases self.symbols@.len() - k,
        {
            let s = &self.symbols[k];
            assert(self@[k as int] == symbol_view(*s));
            if s.scope.is_none() && s.name.eq(name) {
                return Some(s.addr);
            }
            k = k + 1;
        }
        None
    }

    /// The address of the local label `local` declared under the global
    /// `global`.
    pub fn local_addr(&self, global: &String, local: &String) -> (r: Option<u16>)
        ensures
            r is None <==> !(exists|k: int| 0 <= k < self@.len() && (#[trigger] self@[k]).0 == local@ && self@[k].2 == Some(global@)),
            r matches Some(a) ==> exists|k: int| 0 <= k < self@.len() && #[trigger] self@[k] == (local@, a, Some(global@)),
    {
        let mut k: usize = 0;
        while k < self.symbols.len()
            invariant
                k <= self@.len(),
                self@.len() == self.symbols@.len(),
                forall|m: int| 0 <= m < k ==> !((#[trigger] self@[m]).0 == local@ && self@[m].2 == Some(global@)),
            decreases self.symbols@.len() - k,
        {
            let s = &self.symbols[k];
            assert(self@[k as int] == symbol_view(*s));
            if let Some(g) = &s.scope {
                if g.eq(global) && s.name.eq(local) {
                    return Some(s.addr);
                }
            }
            k = k + 1;
        }
        None
    }
}

/// The symbol table of `items[..i)` when item `j` stands at `addrs[j]`.
pub open spec fn symbol_table(items: Seq<ParsedItem>, addrs: Seq<u16>, i: int) -> Seq<(Seq<char>, u16, Option<Seq<char>>)>
    decreases i,
{
    if i <= 0 {
        seq![]
    } else {
        let prev = symbol_table(items, addrs, i - 1);
        match global_name(items[i - 1]) {
            Some(g) => prev.push((g, addrs[i - 1], None)),
            None => match local_name(items[i - 1]) {
                Some(l) => match cur_global(items, i - 1) {
                    Some(g) => prev.push((l, addrs[i - 1], global_name(items[g]))),
                    None => prev,
                },
                None => prev,
            },
        }
    }
}

proof fn lemma_cur_global_is_global(items: Seq<ParsedItem>, i: int)
    ensures
        cur_global(items, i) is Some ==> global_name(items[cur_global(items, i)->0]) is Some,
    decreases i,
{
    if i > 0 && i <= items.len() && global_name(items[i - 1]) is None {
        lemma_cur_global_is_global(items, i - 1);
    }
}

fn build_table(ast: &[ParsedItem], addrs: &Vec<u16>) -> (r: Globals)
    requires
        addrs@.len() == ast@.len(),
    ensures
        r@ == symbol_table(ast@, addrs@, ast@.len() as int),
{
    let mut symbols: Vec<Symbol> = Vec::new();
    let mut cur: Option<usize> = None;
    let mut i: usize = 0;
    while i < ast.len()
        invariant
            addrs@.len() == ast@.len(),
            i <= ast@.len(),
            symbols@.map_values(|s: Symbol| symbol_view(s)) == symbol_table(ast@, addrs@, i as int),
            cur is None <==> cur_global(ast@, i as int) is None,
            cur is Some ==> cur_global(ast@, i as int) == Some(cur->0 as int),
        decreases ast@.len() - i,
    {
        let ghost prev = symbols@;
        proof {
            lemma_cur_global_bound(ast@, i as int);
            lemma_cur_global_is_global(ast@, i as int);
        }
        if let Some(g) = global_name_of(&ast[i]) {
            symbols.push(Symbol { name: g.clone(), addr: addrs[i], scope: None });
            cur = Some(i);
        } else if let Some(l) = local_name_of(&ast[i]) {
            if let Some(c) = cur {
                let gname = global_name_of(&ast[c]);
                if let Some(gn) = gname {
                    symbols.push(Symbol { name: l.clone(), addr: addrs[i], scope: Some(gn.clone()) });
                }
            }
        }
        assert(symbols@.map_values(|s: Symbol| symbol_view(s)) =~= symbol_table(ast@, addrs@, i + 1));
        i = i + 1;
    }
    Globals { symbols }
}

/// Checks the declarations of `ast` and returns its symbol table with every
/// address at zero.
pub fn extract_labels(ast: &[ParsedItem]) -> (r: Result<Globals, LinkError>)
    ensures
        match first_decl_error(ast@, 0) {
            Some(e) => r == Err::<Globals, LinkError>(e),
            None => r is Ok && r->Ok_0@ == symbol_table(ast@, Seq::new(ast@.len(), |j: int| 0u16), ast@.len() as int),
        },
{
    let mut cur: Option<usize> = None;
    let mut i: usize = 0;
    while i < ast.len()
        invariant
            i <= ast@.len(),
            first_decl_error(ast@, 0) == first_decl_error(ast@, i as int),
            cur is None <==> cur_global(ast@, i as int) is None,
            cur is Some ==> cur_global(ast@, i as int) == Some(cur->0 as int),
        decreases ast@.len() - i,
    {
        proof {
            lemma_cur_global_bound(ast@, i as int);
        }
        match &ast[i] {
            ParsedItem::LabelDecl(s) | ParsedItem::Directive(Directive::Lcomm(s, _)) => {
                if find_global_exec(ast, s, 0, i).is_some() {
                    return Err(LinkError::DuplicatedLabel(s.clone()));
                }
                cur = Some(i);
            },
            ParsedItem::LocalLabelDecl(s) => match cur {
                None => return Err(LinkError::LocalBeforeGlobal(s.clone())),
                Some(g) => {
                    if find_local_exec(ast, s, g + 1, i).is_some() {
                        return Err(LinkError::DuplicatedLocalLabel(s.clone()));
                    }
                },
            },
            _ => {},
        }
        i = i + 1;
    }
    let zeros: Vec<u16> = vec![0u16; ast.len()];
    assert(zeros@ =~= Seq::new(ast@.len(), |j: int| 0u16));
    Ok(build_table(ast, &zeros))
}

/// Layout passes from `addrs` and `ws` until no declaration moves, or
/// `fuel` more passes have run.
pub open spec fn layout_iter(items: Seq<ParsedItem>, addrs: Seq<u16>, ws: Seq<bool>, fuel: nat) -> (Seq<u16>, Seq<bool>)
    decreases fuel,
{
    let nws = wide_seq(items, addrs, ws);
    let na = addrs_after(items, addrs, nws);
    if na == addrs || fuel == 0 {
        (na, nws)
    } else {
        layout_iter(items, na, nws, (fuel - 1) as nat)
    }
}

/// The layout that linking settles on: passes from all addresses at zero and
/// every operand short. The fuel is never the reason the passes stop.
pub open spec fn layout_of(items: Seq<ParsedItem>) -> (Seq<u16>, Seq<bool>) {
    layout_iter(items, Seq::new(items.len(), |j: int| 0u16), Seq::new(items.len(), |j: int| false), (2 * items.len() + 2) as nat)
}

/// The settled layout of `items` fits in memory: the image holds at most
/// 0x10000 words and every label has a word for its address.
pub open spec fn fits(items: Seq<ParsedItem>) -> bool {
    !too_large(items, layout_of(items).1)
}

/// The declaration that the label literal of item `i` refers to.
pub open spec fn literal_decl(items: Seq<ParsedItem>, i: int) -> Option<int> {
    match items[i] {
        ParsedItem::Instruction(ins) => match operand_a(ins) {
            Value::Literal(Expr::Label(s)) => find_global(items, s@, 0, items.len() as int),
            Value::Literal(Expr::LocalLabel(s)) => match cur_global(items, i) {
                Some(g) => find_local(items, s@, g + 1, items.len() as int),
                None => None,
            },
            _ => None,
        },
        _ => None,
    }
}

/// Every long flag stands on a label literal whose label lies above the
/// short-literal range under the flags.
pub open spec fn flags_justified(items: Seq<ParsedItem>, ws: Seq<bool>) -> bool {
    forall|i: int| 0 <= i < items.len() && #[trigger] ws[i] ==>
        literal_decl(items, i) is Some && addr_with(items, ws, literal_decl(items, i)->0) > 30
}

proof fn lemma_literal_value(items: Seq<ParsedItem>, addrs: Seq<u16>, i: int)
    requires
        0 <= i < items.len(),
        addrs.len() == items.len(),
        items[i] is Instruction,
        label_literal(items[i]->Instruction_0),
        instr_resolve(items, addrs, i, items[i]->Instruction_0) is Ok,
    ensures
        literal_decl(items, i) is Some,
        0 <= literal_decl(items, i)->0 < items.len(),
        is_decl(items[literal_decl(items, i)->0]),
        resolved_literal(instr_resolve(items, addrs, i, items[i]->Instruction_0)->Ok_0) == addrs[literal_decl(items, i)->0],
{
    let ins = items[i]->Instruction_0;
    match operand_a(ins) {
        Value::Literal(Expr::Label(s)) => {
            lemma_find_global_bound(items, s@, 0, items.len() as int);
        },
        Value::Literal(Expr::LocalLabel(s)) => {
            lemma_cur_global_bound(items, i);
            let g = cur_global(items, i)->0;
            lemma_find_local_bound(items, s@, g + 1, items.len() as int);
        },
        _ => {},
    }
}

/// A pass keeps the flags justified.
proof fn lemma_pass_justified(items: Seq<ParsedItem>, addrs: Seq<u16>, ws: Seq<bool>)
    requires
        addrs.len() == items.len(),
        ws.len() == items.len(),
        flags_justified(items, ws),
        addrs_after(items, addrs, ws) == addrs,
        !too_large(items, ws),
        first_resolve_error(items, 0) is None,
        flags_grow(ws, wide_seq(items, addrs, ws)),
    ensures
        flags_justified(items, wide_seq(items, addrs, ws)),
{
    let nws = wide_seq(items, addrs, ws);
    assert forall|i: int| 0 <= i < items.len() && #[trigger] nws[i] implies
        literal_decl(items, i) is Some && addr_with(items, nws, literal_decl(items, i)->0) > 30 by {
        if ws[i] {
            lemma_no_resolve_error(items, addrs, 0, i);
            lemma_literal_value(items, addrs, i);
            let j = literal_decl(items, i)->0;
            lemma_addr_monotone(items, ws, nws, j);
        } else {
            let ins = items[i]->Instruction_0;
            lemma_no_resolve_error(items, addrs, 0, i);
            lemma_literal_value(items, addrs, i);
            let j = literal_decl(items, i)->0;
            assert(addrs_after(items, addrs, ws)[j] == addrs[j]);
            lemma_addr_nonneg(items, ws, j);
            assert(addr_with(items, ws, j) < 0x10000);
            lemma_addr_monotone(items, ws, nws, j);
        }
    }
}

/// The form of each label literal in operand a, in a settled layout whose
/// flags are justified: short where the flag is clear, which the address then
/// fits; long only where the address lies above the short range.
pub open spec fn shortest_forms(items: Seq<ParsedItem>, addrs: Seq<u16>, ws: Seq<bool>) -> bool {
    forall|i: int| 0 <= i < items.len() && (#[trigger] items[i]) is Instruction && label_literal(items[i]->Instruction_0) ==> {
        &&& literal_decl(items, i) is Some
        &&& !ws[i] ==> fits_short(addrs[literal_decl(items, i)->0])
        &&& ws[i] ==> addrs[literal_decl(items, i)->0] > 30
    }
}

proof fn lemma_shortest(items: Seq<ParsedItem>, addrs: Seq<u16>, ws: Seq<bool>)
    requires
        settled(items, addrs, ws),
        flags_justified(items, ws),
        first_resolve_error(items, 0) is None,
    ensures
        shortest_forms(items, addrs, ws),
{
    lemma_layout_fixed_point(items, addrs, ws);
    assert forall|i: int| 0 <= i < items.len() && (#[trigger] items[i]) is Instruction && label_literal(items[i]->Instruction_0) implies {
        &&& literal_decl(items, i) is Some
        &&& !ws[i] ==> fits_short(addrs[literal_decl(items, i)->0])
        &&& ws[i] ==> addrs[literal_decl(items, i)->0] > 30
    } by {
        lemma_no_resolve_error(items, addrs, 0, i);
        lemma_literal_value(items, addrs, i);
        assert(wide_seq(items, addrs, ws)[i] == ws[i]);
    }
}

/// Number of set flags.
pub open spec fn count_set(s: Seq<bool>) -> nat
    decreases s.len(),
{
    if s.len() == 0 {
        0
    } else {
        count_set(s.drop_last()) + if s.last() { 1nat } else { 0nat }
    }
}

proof fn lemma_count_grows(a: Seq<bool>, b: Seq<bool>)
    requires
        a.len() == b.len(),
        forall|i: int| 0 <= i < a.len() && #[trigger] a[i] ==> b[i],
    ensures
        count_set(a) <= count_set(b) <= b.len(),
        a != b ==> count_set(a) < count_set(b),
    decreases a.len(),
{
    if a.len() == 0 {
        assert(a =~= b);
    } else {
        lemma_count_grows(a.drop_last(), b.drop_last());
        assert(a[a.len() - 1] ==> b[b.len() - 1]);
        if a != b && a.drop_last() == b.drop_last() {
            assert(a =~= a.drop_last().push(a.last()));
            assert(b =~= b.drop_last().push(b.last()));
            assert(a.last() != b.last());
        }
    }
}

proof fn lemma_pass_settles(items: Seq<ParsedItem>, old_addrs: Seq<u16>, ws: Seq<bool>)
    requires
        old_addrs.len() == items.len(),
        ws.len() == items.len(),
    ensures
        ({
            let nws = wide_seq(items, old_addrs, ws);
            let na = addrs_after(items, old_addrs, nws);
            &&& forall|i: int| 0 <= i < items.len() && #[trigger] ws[i] ==> nws[i]
            &&& addrs_after(items, na, nws) == na
            &&& wide_seq(items, old_addrs, nws) == nws
            &&& (addrs_after(items, old_addrs, ws) == old_addrs && nws == ws ==> na == old_addrs)
        }),
{
    let nws = wide_seq(items, old_addrs, ws);
    let na = addrs_after(items, old_addrs, nws);
    assert(addrs_after(items, na, nws) =~= na);
    assert(wide_seq(items, old_addrs, nws) =~= nws);
    if addrs_after(items, old_addrs, ws) == old_addrs && nws == ws {
        assert(na =~= old_addrs);
    }
}

proof fn lemma_align_monotone(n: u16, a: int, b: int)
    requires
        0 <= a <= b,
    ensures
        a + align_pad(n, a) <= b + align_pad(n, b),
{
    if n != 0 {
        let m = n as int;
        let ra = a % m;
        let rb = b % m;
        let qa = a / m;
        let qb = b / m;
        assert(a == qa * m + ra && 0 <= ra < m) by (nonlinear_arith)
            requires m > 0, qa == a / m, ra == a % m;
        assert(b == qb * m + rb && 0 <= rb < m) by (nonlinear_arith)
            requires m > 0, qb == b / m, rb == b % m;
        assert(qa <= qb) by (nonlinear_arith)
            requires m > 0, a <= b, a == qa * m + ra, b == qb * m + rb, 0 <= ra < m, 0 <= rb < m;
        let x = if ra == 0 { a } else { (qa + 1) * m };
        let y = if rb == 0 { b } else { (qb + 1) * m };
        assert(a + align_pad(n, a) == x) by {
            if ra != 0 {
                vstd::arithmetic::div_mod::lemma_small_mod((m - ra) as nat, m as nat);
                assert((qa + 1) * m == qa * m + m) by (nonlinear_arith);
            } else {
                vstd::arithmetic::div_mod::lemma_mod_self_0(m);
            }
        }
        assert(b + align_pad(n, b) == y) by {
            if rb != 0 {
                vstd::arithmetic::div_mod::lemma_small_mod((m - rb) as nat, m as nat);
                assert((qb + 1) * m == qb * m + m) by (nonlinear_arith);
            } else {
                vstd::arithmetic::div_mod::lemma_mod_self_0(m);
            }
        }
        assert(x <= y) by (nonlinear_arith)
            requires m > 0, a <= b, a == qa * m + ra, b == qb * m + rb, 0 <= ra < m, 0 <= rb < m, qa <= qb,
                x == (if ra == 0 { a } else { (qa + 1) * m }), y == (if rb == 0 { b } else { (qb + 1) * m });
    }
}

proof fn lemma_item_end_monotone(it: ParsedItem, a: int, b: int, v: bool, w: bool)
    requires
        0 <= a <= b,
        v ==> w,
    ensures
        a + item_len(it, a, v) <= b + item_len(it, b, w),
        item_len(it, a, v) >= 0,
{
    match it {
        ParsedItem::Directive(Directive::Align(n)) => lemma_align_monotone(n, a, b),
        _ => {},
    }
}

/// Addresses only grow when more operands are long.
proof fn lemma_addr_monotone(items: Seq<ParsedItem>, vs: Seq<bool>, ws: Seq<bool>, i: int)
    requires
        flags_grow(vs, ws),
        vs.len() == items.len(),
        0 <= i <= items.len(),
    ensures
        0 <= addr_with(items, vs, i) <= addr_with(items, ws, i),
    decreases i,
{
    if i > 0 {
        lemma_addr_monotone(items, vs, ws, i - 1);
        lemma_item_end_monotone(items[i - 1], addr_with(items, vs, i - 1), addr_with(items, ws, i - 1), vs[i - 1], ws[i - 1]);
    }
}

proof fn lemma_too_large_grows(items: Seq<ParsedItem>, vs: Seq<bool>, ws: Seq<bool>)
    requires
        flags_grow(vs, ws),
        vs.len() == items.len(),
        too_large(items, vs),
    ensures
        too_large(items, ws),
{
    if exists|i: int| 0 <= i <= items.len() && #[trigger] addr_with(items, vs, i) > 0x10000 {
        let i = choose|i: int| 0 <= i <= items.len() && #[trigger] addr_with(items, vs, i) > 0x10000;
        lemma_addr_monotone(items, vs, ws, i);
    } else {
        let j = choose|j: int| 0 <= j < items.len() && is_decl(#[trigger] items[j]) && addr_with(items, vs, j) >= 0x10000;
        lemma_addr_monotone(items, vs, ws, j);
    }
}

/// The passes never drop a long flag: the layout they reach has at least the
/// flags of the first pass.
proof fn lemma_iter_grows(items: Seq<ParsedItem>, addrs: Seq<u16>, ws: Seq<bool>, fuel: nat)
    requires
        addrs.len() == items.len(),
        ws.len() == items.len(),
    ensures
        flags_grow(wide_seq(items, addrs, ws), layout_iter(items, addrs, ws, fuel).1),
    decreases fuel,
{
    let nws = wide_seq(items, addrs, ws);
    let na = addrs_after(items, addrs, nws);
    if !(na == addrs || fuel == 0) {
        lemma_iter_grows(items, na, nws, (fuel - 1) as nat);
        let r = layout_iter(items, na, nws, (fuel - 1) as nat).1;
        assert(flags_grow(nws, r)) by {
            assert forall|i: int| 0 <= i < nws.len() && #[trigger] nws[i] implies r[i] by {
                assert(wide_seq(items, na, nws)[i]);
            }
        }
    }
}

/// Resolves every operand once, against zero addresses, to find the first
/// unresolvable one.
fn check_resolution(ast: &[ParsedItem]) -> (r: Result<(), LinkError>)
    ensures
        match first_resolve_error(ast@, 0) {
            Some(e) => r == Err::<(), LinkError>(e),
            None => r is Ok,
        },
{
    let zeros: Vec<u16> = vec![0u16; ast.len()];
    assert(zeros@ =~= Seq::new(ast@.len(), |j: int| 0u16));
    let mut cur: Option<usize> = None;
    let mut i: usize = 0;
    while i < ast.len()
        invariant
            i <= ast@.len(),
            zeros@ == Seq::new(ast@.len(), |j: int| 0u16),
            first_resolve_error(ast@, 0) == first_resolve_error(ast@, i as int),
            cur is None <==> cur_global(ast@, i as int) is None,
            cur is Some ==> cur_global(ast@, i as int) == Some(cur->0 as int),
        decreases ast@.len() - i,
    {
        if let ParsedItem::Instruction(ins) = &ast[i] {
            match instr_resolve_exec(ast, &zeros, i, cur, ins) {
                Ok(_) => {},
                Err(e) => return Err(e),
            }
        }
        if global_name_of(&ast[i]).is_some() {
            cur = Some(i);
        }
        i = i + 1;
    }
    Ok(())
}

/// Lays out `ast`: assigns every label its address and emits the image, with
/// each span-dependent operand in its shortest admissible form.
pub fn link(ast: &[ParsedItem]) -> (r: Result<(Vec<u16>, Globals), LinkError>)
    ensures
        first_decl_error(ast@, 0) is Some ==> r == Err::<(Vec<u16>, Globals), LinkError>(first_decl_error(ast@, 0)->0),
        first_decl_error(ast@, 0) is None && first_resolve_error(ast@, 0) is Some
            ==> r == Err::<(Vec<u16>, Globals), LinkError>(first_resolve_error(ast@, 0)->0),
        first_decl_error(ast@, 0) is None && first_resolve_error(ast@, 0) is None ==> {
            &&& fits(ast@) ==> r is Ok
            &&& !fits(ast@) ==> r == Err::<(Vec<u16>, Globals), LinkError>(LinkError::ImageTooLarge)
        },
        r is Ok ==> ({
            let (addrs, ws) = layout_of(ast@);
            &&& fits(ast@)
            &&& r->Ok_0.0@.len() <= 0x10000
            &&& settled(ast@, addrs, ws)
            &&& shortest_forms(ast@, addrs, ws)
            &&& r->Ok_0.0@ == image_upto(ast@, addrs, ws, ast@.len() as int)
            &&& r->Ok_0.1@ == symbol_table(ast@, addrs, ast@.len() as int)
        }),
{
    let _ = extract_labels(ast)?;
    check_resolution(ast)?;
    let zeros: Vec<u16> = vec![0u16; ast.len()];
    let flags: Vec<bool> = vec![false; ast.len()];
    proof {
        assert(zeros@ =~= Seq::new(ast@.len(), |j: int| 0u16));
        assert(flags@ =~= Seq::new(ast@.len(), |j: int| false));
        lemma_iter_grows(ast@, zeros@, flags@, (2 * ast@.len() + 2) as nat);
    }
    let first = layout_pass(ast, &zeros, &flags);
    let (mut image, mut addrs, mut ws, mut changed) = match first {
        Ok(p) => p,
        Err(e) => {
            proof {
                lemma_too_large_grows(ast@, wide_seq(ast@, zeros@, flags@), layout_of(ast@).1);
            }
            return Err(e);
        },
    };
    let ghost mut fuel: nat = (2 * ast@.len() + 1) as nat;
    proof {
        lemma_pass_settles(ast@, zeros@, flags@);
        lemma_count_grows(ws@, ws@);
        assert forall|i: int| 0 <= i < ast@.len() implies !(#[trigger] ws@[i]) by {
            if ast@[i] is Instruction && label_literal(ast@[i]->Instruction_0) {
                lemma_no_resolve_error(ast@, zeros@, 0, i);
                lemma_literal_value(ast@, zeros@, i);
            }
        }
    }
    while changed
        invariant
            addrs@.len() == ast@.len(),
            ws@.len() == ast@.len(),
            addrs_after(ast@, addrs@, ws@) == addrs@,
            first_decl_error(ast@, 0) is None,
            first_resolve_error(ast@, 0) is None,
            count_set(ws@) <= ws@.len(),
            flags_justified(ast@, ws@),
            !too_large(ast@, ws@),
            !changed ==> settled(ast@, addrs@, ws@) && image@ == image_upto(ast@, addrs@, ws@, ast@.len() as int)
                && !too_large(ast@, ws@) && image@.len() <= 0x10000,
            changed ==> fuel >= 2 * (ast@.len() - count_set(ws@)) + 1,
            layout_of(ast@) == if changed { layout_iter(ast@, addrs@, ws@, fuel) } else { (addrs@, ws@) },
        decreases 2 * (ast@.len() - count_set(ws@)) + if changed { 1int } else { 0int },
    {
        let ghost prev_ws = ws@;
        let ghost prev_addrs = addrs@;
        proof {
            lemma_iter_grows(ast@, addrs@, ws@, fuel);
        }
        let pass = layout_pass(ast, &addrs, &ws);
        let (img, na, nws, ch) = match pass {
            Ok(p) => p,
            Err(e) => {
                proof {
                    lemma_too_large_grows(ast@, wide_seq(ast@, addrs@, ws@), layout_of(ast@).1);
                }
                return Err(e);
            },
        };
        proof {
            lemma_pass_settles(ast@, addrs@, ws@);
            lemma_count_grows(ws@, nws@);
            lemma_pass_justified(ast@, addrs@, ws@);
        }
        image = img;
        addrs = na;
        ws = nws;
        changed = ch;
        proof {
            if changed {
                assert(ws@ != prev_ws);
                assert(count_set(prev_ws) < count_set(ws@));
            }
            assert(fuel > 0);
            assert(layout_iter(ast@, prev_addrs, prev_ws, fuel) == if changed {
                layout_iter(ast@, addrs@, ws@, (fuel - 1) as nat)
            } else {
                (addrs@, ws@)
            });
            fuel = (fuel - 1) as nat;
        }
    }
    proof {
        lemma_shortest(ast@, addrs@, ws@);
    }
    let table = build_table(ast, &addrs);
    Ok((image, table))
}


proof fn lemma_addr_nonneg(items: Seq<ParsedItem>, ws: Seq<bool>, i: int)
    ensures
        addr_with(items, ws, i) >= 0,
    decreases i,
{
    if i > 0 {
        lemma_addr_nonneg(items, ws, i - 1);
        let it = items[i - 1];
        if let ParsedItem::Instruction(ins) = it {
            assert(instr_len(ins, ws[i - 1]) >= 1);
        }
    }
}

/// A settled layout is a fixed point: one more pass computes the same flags,
/// records the same addresses and emits the same image.
pub proof fn lemma_layout_fixed_point(items: Seq<ParsedItem>, addrs: Seq<u16>, ws: Seq<bool>)
    requires
        settled(items, addrs, ws),
    ensures
        wide_seq(items, addrs, ws) == ws,
        addrs_after(items, addrs, wide_seq(items, addrs, ws)) == addrs,
        image_upto(items, addrs, wide_seq(items, addrs, ws), items.len() as int)
            == image_upto(items, addrs, ws, items.len() as int),
        forall|j: int| 0 <= j < items.len() && is_decl(#[trigger] items[j]) ==> addrs[j] as int == addr_with(items, ws, j),
{
    assert forall|j: int| 0 <= j < items.len() && is_decl(#[trigger] items[j]) implies addrs[j] as int == addr_with(items, ws, j) by {
        lemma_addr_nonneg(items, ws, j);
        assert(addrs_after(items, addrs, ws)[j] == addrs[j]);
    }
}

/// Linking is idempotent: layout passes started from a settled layout,
/// such as the one `link` returns, give that layout back unchanged, and so
/// the same image and symbol table.
pub proof fn lemma_relink_idempotent(items: Seq<ParsedItem>, addrs: Seq<u16>, ws: Seq<bool>, fuel: nat)
    requires
        settled(items, addrs, ws),
    ensures
        layout_iter(items, addrs, ws, fuel) == (addrs, ws),
{
}

proof fn lemma_table_has_global(items: Seq<ParsedItem>, addrs: Seq<u16>, j: int, k: int)
    requires
        0 <= j < k <= items.len(),
        global_name(items[j]) is Some,
    ensures
        symbol_table(items, addrs, k).contains((global_name(items[j])->0, addrs[j], None::<Seq<char>>)),
    decreases k,
{
    let e = (global_name(items[j])->0, addrs[j], None::<Seq<char>>);
    let prev = symbol_table(items, addrs, k - 1);
    if j == k - 1 {
        assert(symbol_table(items, addrs, k) == prev.push(e));
        assert(symbol_table(items, addrs, k)[prev.len() as int] == e);
    } else {
        lemma_table_has_global(items, addrs, j, k - 1);
        let i = choose|i: int| 0 <= i < prev.len() && prev[i] == e;
        assert(symbol_table(items, addrs, k)[i] == e);
    }
}

/// In a settled layout, the words emitted for an instruction whose operand a
/// names a label decode back to that operand as a literal holding the
/// label's address.
proof fn lemma_label_reference_round_trip(
    items: Seq<ParsedItem>,
    addrs: Seq<u16>,
    ws: Seq<bool>,
    i: int,
    pad0: u16,
    pad1: u16,
)
    requires
        settled(items, addrs, ws),
        0 <= i < items.len(),
        items[i] is Instruction,
        instr_resolve(items, addrs, i, items[i]->Instruction_0) is Ok,
        label_literal(items[i]->Instruction_0),
    ensures
        ({
            let j = literal_decl(items, i)->0;
            let w = item_words(items, addrs, ws, i) + seq![pad0, pad1];
            let d = decode_spec(w[0], w[1], w[2]);
            &&& literal_decl(items, i) is Some
            &&& d is Some
            &&& (d->0).1 == item_words(items, addrs, ws, i).len()
            &&& match (d->0).0 {
                Instruction::Basic(_, _, a) => a == Value::Literal(addrs[j]),
                Instruction::Special(_, a) => a == Value::Literal(addrs[j]),
            }
            &&& addrs[j] as int == addr_with(items, ws, j)
        }),
{
    let ins = items[i]->Instruction_0;
    let r = instr_resolve(items, addrs, i, ins)->Ok_0;
    lemma_literal_value(items, addrs, i);
    lemma_decode_encode(r, ws[i], pad0, pad1);
    lemma_layout_fixed_point(items, addrs, ws);
}

proof fn lemma_no_resolve_error(items: Seq<ParsedItem>, addrs: Seq<u16>, k: int, i: int)
    requires
        0 <= k <= i < items.len(),
        first_resolve_error(items, k) is None,
        items[i] is Instruction,
    ensures
        instr_resolve(items, addrs, i, items[i]->Instruction_0) is Ok,
    decreases i - k,
{
    if k < i {
        lemma_no_resolve_error(items, addrs, k + 1, i);
    } else {
        lemma_resolve_error_indep(items, addrs, i, items[i]->Instruction_0);
    }
}

/// In a settled layout without resolution errors the image is laid out as
/// the addresses say: the prefix emitted before item `k` is `addr_with(k)`
/// words long, and a longer prefix extends a shorter one.
proof fn lemma_image_layout(items: Seq<ParsedItem>, addrs: Seq<u16>, ws: Seq<bool>, m: int, k: int)
    requires
        settled(items, addrs, ws),
        first_resolve_error(items, 0) is None,
        0 <= m <= k <= items.len(),
    ensures
        image_upto(items, addrs, ws, k).len() == addr_with(items, ws, k),
        image_upto(items, addrs, ws, m).len() <= image_upto(items, addrs, ws, k).len(),
        image_upto(items, addrs, ws, k).subrange(0, image_upto(items, addrs, ws, m).len() as int)
            == image_upto(items, addrs, ws, m),
    decreases k,
{
    if k > 0 {
        let i = k - 1;
        if m < k {
            lemma_image_layout(items, addrs, ws, m, k - 1);
        } else {
            lemma_image_layout(items, addrs, ws, k - 1, k - 1);
        }
        let prev = image_upto(items, addrs, ws, k - 1);
        let cur = image_upto(items, addrs, ws, k);
        assert(cur == prev + item_words(items, addrs, ws, i));
        if let ParsedItem::Instruction(ins) = items[i] {
            lemma_no_resolve_error(items, addrs, 0, i);
            assert(wide_seq(items, addrs, ws)[i] == ws[i]);
            lemma_instr_len(items, addrs, i, ins, ws[i]);
        }
        assert(item_words(items, addrs, ws, i).len() == item_len(items[i], addr_with(items, ws, i), ws[i]));
        if m < k {
            let pm = image_upto(items, addrs, ws, m);
            assert(cur.subrange(0, pm.len() as int) =~= prev.subrange(0, pm.len() as int));
        } else {
            assert(cur.subrange(0, cur.len() as int) =~= cur);
        }
    } else {
        assert(image_upto(items, addrs, ws, k).subrange(0, 0) =~= image_upto(items, addrs, ws, m));
    }
}

/// In a settled layout without resolution errors, an instruction whose
/// operand a names a label, global or local, stands in the image at its own
/// address; decoding the image there takes exactly its words and gives back
/// that operand as a literal holding the label's address. For a global label
/// that is the address the symbol table records for it.
#[verifier::rlimit(40)]
pub proof fn lemma_label_reference_in_image(items: Seq<ParsedItem>, addrs: Seq<u16>, ws: Seq<bool>, i: int)
    requires
        settled(items, addrs, ws),
        first_resolve_error(items, 0) is None,
        0 <= i < items.len(),
        items[i] is Instruction,
        label_literal(items[i]->Instruction_0),
    ensures
        ({
            let j = literal_decl(items, i)->0;
            let image = image_upto(items, addrs, ws, items.len() as int) + seq![0u16, 0u16];
            let p = addr_with(items, ws, i);
            let d = decode_spec(image[p], image[p + 1], image[p + 2]);
            &&& literal_decl(items, i) is Some
            &&& d is Some
            &&& (d->0).1 == addr_with(items, ws, i + 1) - p
            &&& match (d->0).0 {
                Instruction::Basic(_, _, a) => a == Value::Literal(addrs[j]),
                Instruction::Special(_, a) => a == Value::Literal(addrs[j]),
            }
            &&& addrs[j] as int == addr_with(items, ws, j)
            &&& (operand_a(items[i]->Instruction_0) matches Value::Literal(Expr::Label(s)) ==>
                symbol_table(items, addrs, items.len() as int).contains((s@, addrs[j], None::<Seq<char>>)))
        }),
{
    let n = items.len() as int;
    lemma_no_resolve_error(items, addrs, 0, i);
    lemma_image_layout(items, addrs, ws, i, i);
    lemma_image_layout(items, addrs, ws, i + 1, n);
    lemma_image_layout(items, addrs, ws, i + 1, i + 1);
    let full = image_upto(items, addrs, ws, n);
    let upto = image_upto(items, addrs, ws, i + 1);
    let before = image_upto(items, addrs, ws, i);
    let w = item_words(items, addrs, ws, i);
    let p = addr_with(items, ws, i);
    assert(upto == before + w);
    assert(upto.len() <= full.len());
    assert(full.subrange(0, upto.len() as int) == upto);
    assert forall|k: int| 0 <= k < upto.len() implies full[k] == upto[k] by {
        assert(full.subrange(0, upto.len() as int)[k] == full[k]);
    }
    let image = full + seq![0u16, 0u16];
    let rest = image.subrange(p + w.len(), image.len() as int);
    lemma_label_reference_round_trip(items, addrs, ws, i, rest[0], rest[1]);
    if let Value::Literal(Expr::Label(s)) = operand_a(items[i]->Instruction_0) {
        lemma_find_global_bound(items, s@, 0, n);
        lemma_table_has_global(items, addrs, literal_decl(items, i)->0, n);
    }
    let padded = w + seq![rest[0], rest[1]];
    assert forall|k: int| 0 <= k < 3 implies image[p + k] == padded[k] by {
        if k < w.len() {
            assert(upto[p + k] == w[k]);
            assert(full[p + k] == upto[p + k]);
            assert(image[p + k] == full[p + k]);
        } else {
            assert(rest[k - w.len()] == image[p + w.len() + (k - w.len())]);
        }
    }
}

} // verus!
