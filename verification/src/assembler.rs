//! The two-pass assembler: statement grammar, label and constant tables, and
//! the encoding of statements into 24-bit machine words.
//!
//! A source text (already preprocessed) consists of a CPU-type line followed
//! by statements. Pass 1 walks the statements and binds each address label to
//! the index of the next code-emitting statement; pass 2 walks them again,
//! collects `equ` constants as it goes, and emits one machine word per
//! code-emitting statement.

use vstd::prelude::*;

use crate::text::{
    spec_splitter, spec_parse_num, splitter, parse_num, split_lines, BYTE_COLON, BYTE_EQUALS,
};

verus! {

/// The boolean function that is this machine's only operation, fixed for a whole program.
#[derive(Clone, Copy, PartialEq, Eq, Structural, Debug)]
pub enum CpuType {
    Nand,
    Nor,
    Xor,
    Xnor,
}

/// A fatal assembly error; `line` is the 1-based source line of the fault.
#[derive(Clone, Copy, PartialEq, Eq, Structural, Debug)]
pub enum AsmError {
    /// No line of the source holds any token, so no CPU type is declared.
    MissingCpuType,
    /// The first token-bearing line does not start with a CPU-type keyword.
    BadCpuType { line: usize },
    /// A statement matches none of the recognized forms.
    UnknownStatement { line: usize },
    /// A numeric literal failed to parse or an operand resolved to no table
    /// entry and no literal.
    BadLiteral { line: usize },
}

// The keywords of the statement grammar, as byte strings (tokens reach the
// assembler already lowercased by the tokenizer).
/// The bytes of the keyword `equ`.
pub open spec fn kw_equ() -> Seq<u8> {
    seq![101u8, 113u8, 117u8]
}

/// The bytes of the operation mnemonic `nand`.
pub open spec fn kw_nand() -> Seq<u8> {
    seq![110u8, 97u8, 110u8, 100u8]
}

/// The bytes of the keyword `skip_nand`.
pub open spec fn kw_skip_nand() -> Seq<u8> {
    seq![115u8, 107u8, 105u8, 112u8, 95u8, 110u8, 97u8, 110u8, 100u8]
}

/// The bytes of the keyword `jmp`.
pub open spec fn kw_jmp() -> Seq<u8> {
    seq![106u8, 109u8, 112u8]
}

/// The bytes of the keyword `call`.
pub open spec fn kw_call() -> Seq<u8> {
    seq![99u8, 97u8, 108u8, 108u8]
}

/// The bytes of the keyword `ret`.
pub open spec fn kw_ret() -> Seq<u8> {
    seq![114u8, 101u8, 116u8]
}

/// The bytes of the CPU-type keyword `nand_cpu`.
pub open spec fn kw_nand_cpu() -> Seq<u8> {
    seq![110u8, 97u8, 110u8, 100u8, 95u8, 99u8, 112u8, 117u8]
}

/// The bytes of the CPU-type keyword `nor_cpu`.
pub open spec fn kw_nor_cpu() -> Seq<u8> {
    seq![110u8, 111u8, 114u8, 95u8, 99u8, 112u8, 117u8]
}

/// The bytes of the CPU-type keyword `xor_cpu`.
pub open spec fn kw_xor_cpu() -> Seq<u8> {
    seq![120u8, 111u8, 114u8, 95u8, 99u8, 112u8, 117u8]
}

/// The bytes of the CPU-type keyword `xnor_cpu`.
pub open spec fn kw_xnor_cpu() -> Seq<u8> {
    seq![120u8, 110u8, 111u8, 114u8, 95u8, 99u8, 112u8, 117u8]
}

/// A statement, classified from its token list.
pub ghost enum SpecStmt {
    /// A line with no tokens (blank or comment-only).
    Empty,
    /// `NAME:` — an address label declaration.
    Label { name: Seq<u8> },
    /// `NAME equ VALUE` — a named constant declaration.
    Equ { name: Seq<u8>, lit: Seq<u8> },
    /// `DEST = nand(A, B)` — an ALU-form instruction.
    Alu { d: Seq<u8>, a: Seq<u8>, b: Seq<u8> },
    /// `skip_nand(A, B)` — compute the operation, skip the next word if true.
    Skip { a: Seq<u8>, b: Seq<u8> },
    /// `jmp ADDR` — an absolute jump.
    Jmp { target: Seq<u8> },
    /// `call ADDR` — an absolute call.
    Call { target: Seq<u8> },
    /// `ret` — return to the most recent caller.
    Ret,
    /// Anything else: a fatal syntax error.
    Unknown,
}

/// Classifies a token list into one statement form. The forms are tried in
/// the order written here; a token list that fits none is `Unknown`.
pub open spec fn spec_classify(ws: Seq<Seq<u8>>) -> SpecStmt {
    if ws.len() == 0 {
        SpecStmt::Empty
    } else if ws.len() == 1 && ws[0].len() >= 2 && ws[0][ws[0].len() - 1] == BYTE_COLON {
        SpecStmt::Label { name: ws[0].drop_last() }
    } else if ws.len() == 3 && ws[1] == kw_equ() {
        SpecStmt::Equ { name: ws[0], lit: ws[2] }
    } else if ws.len() == 5 && ws[1] == seq![BYTE_EQUALS] && ws[2] == kw_nand() {
        SpecStmt::Alu { d: ws[0], a: ws[3], b: ws[4] }
    } else if ws.len() == 3 && ws[0] == kw_skip_nand() {
        SpecStmt::Skip { a: ws[1], b: ws[2] }
    } else if ws.len() == 2 && ws[0] == kw_jmp() {
        SpecStmt::Jmp { target: ws[1] }
    } else if ws.len() == 2 && ws[0] == kw_call() {
        SpecStmt::Call { target: ws[1] }
    } else if ws.len() == 1 && ws[0] == kw_ret() {
        SpecStmt::Ret
    } else {
        SpecStmt::Unknown
    }
}

/// True of the statements that emit one machine word in pass 2 and therefore
/// advance the address counter in pass 1.
pub open spec fn spec_emits_code(st: SpecStmt) -> bool {
    match st {
        SpecStmt::Alu { .. } => true,
        SpecStmt::Skip { .. } => true,
        SpecStmt::Jmp { .. } => true,
        SpecStmt::Call { .. } => true,
        SpecStmt::Ret => true,
        _ => false,
    }
}

/// The CPU type declared by a keyword token, if any.
pub open spec fn spec_cpu_type_of(tok: Seq<u8>) -> Option<CpuType> {
    if tok == kw_nand_cpu() {
        Some(CpuType::Nand)
    } else if tok == kw_nor_cpu() {
        Some(CpuType::Nor)
    } else if tok == kw_xor_cpu() {
        Some(CpuType::Xor)
    } else if tok == kw_xnor_cpu() {
        Some(CpuType::Xnor)
    } else {
        None
    }
}

/// A statement as the executable passes see it; its view is [`SpecStmt`].
pub enum Stmt {
    Empty,
    Label { name: Vec<u8> },
    Equ { name: Vec<u8>, lit: Vec<u8> },
    Alu { d: Vec<u8>, a: Vec<u8>, b: Vec<u8> },
    Skip { a: Vec<u8>, b: Vec<u8> },
    Jmp { target: Vec<u8> },
    Call { target: Vec<u8> },
    Ret,
    Unknown,
}

impl DeepView for Stmt {
    type V = SpecStmt;

    open spec fn deep_view(&self) -> SpecStmt {
        match self {
            Stmt::Empty => SpecStmt::Empty,
            Stmt::Label { name } => SpecStmt::Label { name: name@ },
            Stmt::Equ { name, lit } => SpecStmt::Equ { name: name@, lit: lit@ },
            Stmt::Alu { d, a, b } => SpecStmt::Alu { d: d@, a: a@, b: b@ },
            Stmt::Skip { a, b } => SpecStmt::Skip { a: a@, b: b@ },
            Stmt::Jmp { target } => SpecStmt::Jmp { target: target@ },
            Stmt::Call { target } => SpecStmt::Call { target: target@ },
            Stmt::Ret => SpecStmt::Ret,
            Stmt::Unknown => SpecStmt::Unknown,
        }
    }
}

/// Copies one byte string.
pub(crate) fn clone_bytes(v: &Vec<u8>) -> (r: Vec<u8>)
    ensures
        r@ == v@,
{
    let mut r: Vec<u8> = Vec::new();
    let mut i: usize = 0;
    while i < v.len()
        invariant
            i <= v@.len(),
            r@ == v@.take(i as int),
        decreases v@.len() - i,
    {
        r.push(v[i]);
        proof {
            assert(r@ =~= v@.take(i as int + 1));
        }
        i = i + 1;
    }
    proof {
        assert(v@.take(v@.len() as int) =~= v@);
    }
    r
}

/// The keyword `equ` as a byte vector.
fn kw_equ_vec() -> (v: Vec<u8>)
    ensures
        v@ == kw_equ(),
{
    let mut v: Vec<u8> = Vec::new();
    v.push(101);
    v.push(113);
    v.push(117);
    proof {
        assert(v@ =~= kw_equ());
    }
    v
}

/// The operation mnemonic `nand` as a byte vector.
fn kw_nand_vec() -> (v: Vec<u8>)
    ensures
        v@ == kw_nand(),
{
    let mut v: Vec<u8> = Vec::new();
    v.push(110);
    v.push(97);
    v.push(110);
    v.push(100);
    proof {
        assert(v@ =~= kw_nand());
    }
    v
}

/// The keyword `skip_nand` as a byte vector.
fn kw_skip_nand_vec() -> (v: Vec<u8>)
    ensures
        v@ == kw_skip_nand(),
{
    let mut v: Vec<u8> = Vec::new();
    v.push(115);
    v.push(107);
    v.push(105);
    v.push(112);
    v.push(95);
    v.push(110);
    v.push(97);
    v.push(110);
    v.push(100);
    proof {
        assert(v@ =~= kw_skip_nand());
    }
    v
}

/// The keyword `jmp` as a byte vector.
fn kw_jmp_vec() -> (v: Vec<u8>)
    ensures
        v@ == kw_jmp(),
{
    let mut v: Vec<u8> = Vec::new();
    v.push(106);
    v.push(109);
    v.push(112);
    proof {
        assert(v@ =~= kw_jmp());
    }
    v
}

/// The keyword `call` as a byte vector.
fn kw_call_vec() -> (v: Vec<u8>)
    ensures
        v@ == kw_call(),
{
    let mut v: Vec<u8> = Vec::new();
    v.push(99);
    v.push(97);
    v.push(108);
    v.push(108);
    proof {
        assert(v@ =~= kw_call());
    }
    v
}

/// The keyword `ret` as a byte vector.
fn kw_ret_vec() -> (v: Vec<u8>)
    ensures
        v@ == kw_ret(),
{
    let mut v: Vec<u8> = Vec::new();
    v.push(114);
    v.push(101);
    v.push(116);
    proof {
        assert(v@ =~= kw_ret());
    }
    v
}

/// The CPU-type keyword `nand_cpu` as a byte vector.
fn kw_nand_cpu_vec() -> (v: Vec<u8>)
    ensures
        v@ == kw_nand_cpu(),
{
    let mut v: Vec<u8> = Vec::new();
    v.push(110);
    v.push(97);
    v.push(110);
    v.push(100);
    v.push(95);
    v.push(99);
    v.push(112);
    v.push(117);
    proof {
        assert(v@ =~= kw_nand_cpu());
    }
    v
}

/// The CPU-type keyword `nor_cpu` as a byte vector.
fn kw_nor_cpu_vec() -> (v: Vec<u8>)
    ensures
        v@ == kw_nor_cpu(),
{
    let mut v: Vec<u8> = Vec::new();
    v.push(110);
    v.push(111);
    v.push(114);
    v.push(95);
    v.push(99);
    v.push(112);
    v.push(117);
    proof {
        assert(v@ =~= kw_nor_cpu());
    }
    v
}

/// The CPU-type keyword `xor_cpu` as a byte vector.
fn kw_xor_cpu_vec() -> (v: Vec<u8>)
    ensures
        v@ == kw_xor_cpu(),
{
    let mut v: Vec<u8> = Vec::new();
    v.push(120);
    v.push(111);
    v.push(114);
    v.push(95);
    v.push(99);
    v.push(112);
    v.push(117);
    proof {
        assert(v@ =~= kw_xor_cpu());
    }
    v
}

/// The CPU-type keyword `xnor_cpu` as a byte vector.
fn kw_xnor_cpu_vec() -> (v: Vec<u8>)
    ensures
        v@ == kw_xnor_cpu(),
{
    let mut v: Vec<u8> = Vec::new();
    v.push(120);
    v.push(110);
    v.push(111);
    v.push(114);
    v.push(95);
    v.push(99);
    v.push(112);
    v.push(117);
    proof {
        assert(v@ =~= kw_xnor_cpu());
    }
    v
}

/// Classifies one token list; see [`spec_classify`].
pub fn classify(words: &Vec<Vec<u8>>) -> (st: Stmt)
    ensures
        st.deep_view() == spec_classify(words.deep_view()),
{
    let ghost wsv = words.deep_view();
    proof {
        assert(wsv.len() == words@.len());
        assert(forall|j: int| 0 <= j < words@.len() ==> wsv[j] == words@[j]@);
    }
    let n = words.len();
    if n == 0 {
        return Stmt::Empty;
    }
    let w0_len = words[0].len();
    if n == 1 && w0_len >= 2 && words[0][w0_len - 1] == BYTE_COLON {
        let mut name = clone_bytes(&words[0]);
        name.pop();
        proof {
            assert(name@ =~= wsv[0].drop_last());
        }
        return Stmt::Label { name };
    }
    if n == 3 && bytes_eq(words[1].as_slice(), kw_equ_vec().as_slice()) {
        return Stmt::Equ { name: clone_bytes(&words[0]), lit: clone_bytes(&words[2]) };
    }
    if n == 5 && words[1].len() == 1 && words[1][0] == BYTE_EQUALS && bytes_eq(
        words[2].as_slice(),
        kw_nand_vec().as_slice(),
    ) {
        proof {
            assert(wsv[1] =~= seq![BYTE_EQUALS]);
        }
        return Stmt::Alu {
            d: clone_bytes(&words[0]),
            a: clone_bytes(&words[3]),
            b: clone_bytes(&words[4]),
        };
    }
    proof {
        // Falling through here rules the ALU form out: had the token list
        // fit it, the `=` token test above would have matched.
        if wsv.len() == 5 && wsv[1] == seq![BYTE_EQUALS] && wsv[2] == kw_nand() {
            assert(words@[1]@.len() == 1 && words@[1]@[0] == BYTE_EQUALS);
        }
    }
    if n == 3 && bytes_eq(words[0].as_slice(), kw_skip_nand_vec().as_slice()) {
        return Stmt::Skip { a: clone_bytes(&words[1]), b: clone_bytes(&words[2]) };
    }
    if n == 2 && bytes_eq(words[0].as_slice(), kw_jmp_vec().as_slice()) {
        return Stmt::Jmp { target: clone_bytes(&words[1]) };
    }
    if n == 2 && bytes_eq(words[0].as_slice(), kw_call_vec().as_slice()) {
        return Stmt::Call { target: clone_bytes(&words[1]) };
    }
    if n == 1 && bytes_eq(words[0].as_slice(), kw_ret_vec().as_slice()) {
        return Stmt::Ret;
    }
    Stmt::Unknown
}

/// Reads the CPU type off a keyword token; see [`spec_cpu_type_of`].
pub fn cpu_type_of(tok: &[u8]) -> (r: Option<CpuType>)
    ensures
        r == spec_cpu_type_of(tok@),
{
    if bytes_eq(tok, kw_nand_cpu_vec().as_slice()) {
        Some(CpuType::Nand)
    } else if bytes_eq(tok, kw_nor_cpu_vec().as_slice()) {
        Some(CpuType::Nor)
    } else if bytes_eq(tok, kw_xor_cpu_vec().as_slice()) {
        Some(CpuType::Xor)
    } else if bytes_eq(tok, kw_xnor_cpu_vec().as_slice()) {
        Some(CpuType::Xnor)
    } else {
        None
    }
}

/// Compares two byte strings for equality.
pub fn bytes_eq(a: &[u8], b: &[u8]) -> (r: bool)
    ensures
        r == (a@ == b@),
{
    if a.len() != b.len() {
        proof {
            assert(a@.len() != b@.len());
        }
        return false;
    }
    let mut i: usize = 0;
    while i < a.len()
        invariant
            i <= a@.len(),
            a@.len() == b@.len(),
            forall|j: int| 0 <= j < i ==> a@[j] == b@[j],
        decreases a@.len() - i,
    {
        if a[i] != b[i] {
            return false;
        }
        i = i + 1;
    }
    proof {
        assert(a@ =~= b@);
    }
    true
}

/// View of the constant table: each entry's name as a byte sequence.
pub open spec fn view_syms(t: Seq<(Vec<u8>, u32)>) -> Seq<(Seq<u8>, u32)> {
    t.map_values(|e: (Vec<u8>, u32)| (e.0@, e.1))
}

/// View of the label table: names as byte sequences, addresses as naturals.
pub open spec fn view_labels(t: Seq<(Vec<u8>, usize)>) -> Seq<(Seq<u8>, nat)> {
    t.map_values(|e: (Vec<u8>, usize)| (e.0@, e.1 as nat))
}

/// Looks a name up in the constant table; the latest entry for a name wins,
/// as a re-declaration overwrites the earlier one.
pub open spec fn spec_lookup_const(t: Seq<(Seq<u8>, u32)>, name: Seq<u8>) -> Option<u32>
    decreases t.len(),
{
    if t.len() == 0 {
        None
    } else if t.last().0 == name {
        Some(t.last().1)
    } else {
        spec_lookup_const(t.drop_last(), name)
    }
}

/// Looks a name up in the label table; the latest entry for a name wins.
pub open spec fn spec_lookup_label(t: Seq<(Seq<u8>, nat)>, name: Seq<u8>) -> Option<nat>
    decreases t.len(),
{
    if t.len() == 0 {
        None
    } else if t.last().0 == name {
        Some(t.last().1)
    } else {
        spec_lookup_label(t.drop_last(), name)
    }
}

/// Resolves an 8-bit operand: a name in the constant table gives its stored
/// value, anything else must be a numeric literal; either way the result is
/// masked to 8 bits.
pub open spec fn spec_equ_get(equs: Seq<(Seq<u8>, u32)>, keyword: Seq<u8>) -> Option<u32> {
    match spec_lookup_const(equs, keyword) {
        Some(v) => Some(v % 0x100),
        None => match spec_parse_num(keyword) {
            Some(n) => Some(n % 0x100),
            None => None,
        },
    }
}

/// Resolves a jump or call target: a name in the label table gives its slot
/// index, anything else must be a numeric literal; either way the result is
/// masked to the 16-bit address field.
pub open spec fn spec_resolve_target(labels: Seq<(Seq<u8>, nat)>, tok: Seq<u8>) -> Option<u32> {
    match spec_lookup_label(labels, tok) {
        Some(a) => Some((a % 0x10000) as u32),
        None => match spec_parse_num(tok) {
            Some(n) => Some(n % 0x10000),
            None => None,
        },
    }
}

/// The machine word of an ALU-form instruction: destination, source A and
/// source B, each in one 8-bit field.
pub open spec fn spec_alu_word(d: u32, a: u32, b: u32) -> u32
    recommends
        d < 0x100,
        a < 0x100,
        b < 0x100,
{
    (d * 0x10000 + a * 0x100 + b) as u32
}

/// The machine word of `skip_nand(A, B)`: the skip tag with the two sources.
pub open spec fn spec_skip_word(a: u32, b: u32) -> u32
    recommends
        a < 0x100,
        b < 0x100,
{
    (0xfe0000 + a * 0x100 + b) as u32
}

/// The machine word of `jmp ADDR`: the jump tag with a 16-bit target.
pub open spec fn spec_jmp_word(t: u32) -> u32
    recommends
        t < 0x10000,
{
    (0xff0000 + t) as u32
}

/// The machine word of `call ADDR`: the call tag with a 16-bit target.
pub open spec fn spec_call_word(t: u32) -> u32
    recommends
        t < 0x10000,
{
    (0xfc0000 + t) as u32
}

/// The fixed machine word of `ret`: the return tag with no operand.
pub const RET_WORD: u32 = 0xfd0000;

/// Pass 1 from line `i` on: labels bind to the current address counter, and
/// each code-emitting statement advances the counter by exactly one.
pub open spec fn spec_pass1_go(
    lines: Seq<Seq<u8>>,
    i: int,
    addr: nat,
    labels: Seq<(Seq<u8>, nat)>,
) -> Seq<(Seq<u8>, nat)>
    decreases lines.len() - i,
{
    if i < 0 || i >= lines.len() {
        labels
    } else {
        let st = spec_classify(spec_splitter(lines[i]));
        match st {
            SpecStmt::Label { name } => spec_pass1_go(lines, i + 1, addr, labels.push((name, addr))),
            _ => spec_pass1_go(
                lines,
                i + 1,
                if spec_emits_code(st) {
                    addr + 1
                } else {
                    addr
                },
                labels,
            ),
        }
    }
}

/// The label table of a statement list: pass 1 starting at `start` with the
/// address counter at zero.
pub open spec fn spec_pass1(lines: Seq<Seq<u8>>, start: int) -> Seq<(Seq<u8>, nat)> {
    spec_pass1_go(lines, start, 0, Seq::empty())
}

/// Pass 2 from line `i` on, with the label table from pass 1, the constants
/// declared so far, and the code emitted so far. Constants take effect in
/// source order, so a constant must be declared before its first use; labels
/// come complete from pass 1, so forward references resolve.
pub open spec fn spec_pass2_go(
    lines: Seq<Seq<u8>>,
    i: int,
    labels: Seq<(Seq<u8>, nat)>,
    equs: Seq<(Seq<u8>, u32)>,
    code: Seq<u32>,
) -> Result<Seq<u32>, AsmError>
    decreases lines.len() - i,
{
    if i < 0 || i >= lines.len() {
        Ok(code)
    } else {
        let st = spec_classify(spec_splitter(lines[i]));
        let line = (i + 1) as usize;
        match st {
            SpecStmt::Empty => spec_pass2_go(lines, i + 1, labels, equs, code),
            SpecStmt::Label { .. } => spec_pass2_go(lines, i + 1, labels, equs, code),
            SpecStmt::Equ { name, lit } => match spec_parse_num(lit) {
                Some(v) => spec_pass2_go(lines, i + 1, labels, equs.push((name, v % 0x100)), code),
                None => Err(AsmError::BadLiteral { line }),
            },
            SpecStmt::Alu { d, a, b } => {
                match (spec_equ_get(equs, d), spec_equ_get(equs, a), spec_equ_get(equs, b)) {
                    (Some(dv), Some(av), Some(bv)) => spec_pass2_go(
                        lines,
                        i + 1,
                        labels,
                        equs,
                        code.push(spec_alu_word(dv, av, bv)),
                    ),
                    _ => Err(AsmError::BadLiteral { line }),
                }
            },
            SpecStmt::Skip { a, b } => {
                match (spec_equ_get(equs, a), spec_equ_get(equs, b)) {
                    (Some(av), Some(bv)) => spec_pass2_go(
                        lines,
                        i + 1,
                        labels,
                        equs,
                        code.push(spec_skip_word(av, bv)),
                    ),
                    _ => Err(AsmError::BadLiteral { line }),
                }
            },
            SpecStmt::Jmp { target } => match spec_resolve_target(labels, target) {
                Some(t) => spec_pass2_go(lines, i + 1, labels, equs, code.push(spec_jmp_word(t))),
                None => Err(AsmError::BadLiteral { line }),
            },
            SpecStmt::Call { target } => match spec_resolve_target(labels, target) {
                Some(t) => spec_pass2_go(lines, i + 1, labels, equs, code.push(spec_call_word(t))),
                None => Err(AsmError::BadLiteral { line }),
            },
            SpecStmt::Ret => spec_pass2_go(lines, i + 1, labels, equs, code.push(RET_WORD)),
            SpecStmt::Unknown => Err(AsmError::UnknownStatement { line }),
        }
    }
}

/// Index of the first line at or after `i` that holds any token, or the
/// number of lines when none does.
pub open spec fn spec_first_token_line(lines: Seq<Seq<u8>>, i: int) -> int
    decreases lines.len() - i,
{
    if i < 0 || i >= lines.len() {
        lines.len() as int
    } else if spec_splitter(lines[i]).len() > 0 {
        i
    } else {
        spec_first_token_line(lines, i + 1)
    }
}

/// Looks a name up in the constant table; see [`spec_lookup_const`].
fn lookup_const(t: &Vec<(Vec<u8>, u32)>, name: &[u8]) -> (r: Option<u32>)
    ensures
        r == spec_lookup_const(view_syms(t@), name@),
{
    let ghost tv = view_syms(t@);
    let mut i: usize = t.len();
    proof {
        assert(tv.take(t@.len() as int) =~= tv);
    }
    while i > 0
        invariant
            i <= t@.len(),
            tv == view_syms(t@),
            tv.len() == t@.len(),
            forall|j: int| 0 <= j < t@.len() ==> tv[j] == (t@[j].0@, t@[j].1),
            spec_lookup_const(tv.take(i as int), name@) == spec_lookup_const(tv, name@),
        decreases i,
    {
        i = i - 1;
        if bytes_eq(t[i].0.as_slice(), name) {
            proof {
                assert(tv.take(i as int + 1).last() == tv[i as int]);
            }
            return Some(t[i].1);
        }
        proof {
            assert(tv.take(i as int + 1).drop_last() =~= tv.take(i as int));
        }
    }
    proof {
        assert(tv.take(0) =~= Seq::<(Seq<u8>, u32)>::empty());
    }
    None
}

/// Looks a name up in the label table; see [`spec_lookup_label`].
fn lookup_label(t: &Vec<(Vec<u8>, usize)>, name: &[u8]) -> (r: Option<usize>)
    ensures
        match r {
            Some(v) => spec_lookup_label(view_labels(t@), name@) == Some(v as nat),
            None => spec_lookup_label(view_labels(t@), name@) is None,
        },
{
    let ghost tv = view_labels(t@);
    let mut i: usize = t.len();
    proof {
        assert(tv.take(t@.len() as int) =~= tv);
    }
    while i > 0
        invariant
            i <= t@.len(),
            tv == view_labels(t@),
            tv.len() == t@.len(),
            forall|j: int| 0 <= j < t@.len() ==> tv[j] == (t@[j].0@, t@[j].1 as nat),
            spec_lookup_label(tv.take(i as int), name@) == spec_lookup_label(tv, name@),
        decreases i,
    {
        i = i - 1;
        if bytes_eq(t[i].0.as_slice(), name) {
            proof {
                assert(tv.take(i as int + 1).last() == tv[i as int]);
            }
            return Some(t[i].1);
        }
        proof {
            assert(tv.take(i as int + 1).drop_last() =~= tv.take(i as int));
        }
    }
    proof {
        assert(tv.take(0) =~= Seq::<(Seq<u8>, nat)>::empty());
    }
    None
}

/// Parses a numeric literal on behalf of the statement at 1-based source
/// line `linenum`; a malformed or out-of-range literal is the fatal error
/// [`AsmError::BadLiteral`] naming that line.
pub fn parsenum(s: &[u8], linenum: usize) -> (r: Result<u32, AsmError>)
    ensures
        match spec_parse_num(s@) {
            Some(v) => r == Ok::<u32, AsmError>(v),
            None => r == Err::<u32, AsmError>(AsmError::BadLiteral { line: linenum }),
        },
{
    match parse_num(s) {
        Some(v) => Ok(v),
        None => Err(AsmError::BadLiteral { line: linenum }),
    }
}

/// Resolves an 8-bit operand through the constant table, else as a literal,
/// masked to 8 bits; see [`spec_equ_get`]. A keyword that is neither a
/// declared constant nor a literal is the fatal error
/// [`AsmError::BadLiteral`] naming the 1-based line `linenum`.
pub fn equ_get(equ_labels: &Vec<(Vec<u8>, u32)>, keyword: &[u8], linenum: usize) -> (r: Result<
    u32,
    AsmError,
>)
    ensures
        match spec_equ_get(view_syms(equ_labels@), keyword@) {
            Some(v) => r == Ok::<u32, AsmError>(v) && v < 0x100,
            None => r == Err::<u32, AsmError>(AsmError::BadLiteral { line: linenum }),
        },
{
    match lookup_const(equ_labels, keyword) {
        Some(v) => Ok(v % 0x100),
        None => match parse_num(keyword) {
            Some(n) => Ok(n % 0x100),
            None => Err(AsmError::BadLiteral { line: linenum }),
        },
    }
}

/// Resolves a jump or call target through the label table, else as a
/// literal, masked to 16 bits; see [`spec_resolve_target`].
fn resolve_target(labels: &Vec<(Vec<u8>, usize)>, tok: &[u8], linenum: usize) -> (r: Result<
    u32,
    AsmError,
>)
    ensures
        match spec_resolve_target(view_labels(labels@), tok@) {
            Some(v) => r == Ok::<u32, AsmError>(v) && v < 0x10000,
            None => r == Err::<u32, AsmError>(AsmError::BadLiteral { line: linenum }),
        },
{
    match lookup_label(labels, tok) {
        Some(a) => Ok((a % 0x10000) as u32),
        None => match parse_num(tok) {
            Some(n) => Ok(n % 0x10000),
            None => Err(AsmError::BadLiteral { line: linenum }),
        },
    }
}

/// Pass 1: binds every address label to the slot index of the next emitted
/// instruction; see [`spec_pass1`].
fn pass1(lines: &Vec<Vec<u8>>, start: usize) -> (labels: Vec<(Vec<u8>, usize)>)
    ensures
        view_labels(labels@) == spec_pass1(lines.deep_view(), start as int),
{
    let ghost linesv = lines.deep_view();
    proof {
        assert(linesv.len() == lines@.len());
        assert(forall|j: int| 0 <= j < lines@.len() ==> linesv[j] == lines@[j]@);
    }
    let mut labels: Vec<(Vec<u8>, usize)> = Vec::new();
    let mut addr: usize = 0;
    let mut i: usize = start;
    proof {
        assert(view_labels(labels@) =~= Seq::<(Seq<u8>, nat)>::empty());
    }
    while i < lines.len()
        invariant
            start <= i,
            i <= lines@.len() || i == start,
            addr <= i,
            linesv == lines.deep_view(),
            linesv.len() == lines@.len(),
            forall|j: int| 0 <= j < lines@.len() ==> linesv[j] == lines@[j]@,
            spec_pass1(linesv, start as int) == spec_pass1_go(
                linesv,
                i as int,
                addr as nat,
                view_labels(labels@),
            ),
        decreases lines@.len() - i,
    {
        let words = splitter(lines[i].as_slice());
        let st = classify(&words);
        proof {
            assert(st.deep_view() == spec_classify(spec_splitter(linesv[i as int])));
        }
        match st {
            Stmt::Label { name } => {
                let ghost old_labels = view_labels(labels@);
                let ghost namev = name@;
                labels.push((name, addr));
                proof {
                    assert(view_labels(labels@) =~= old_labels.push((namev, addr as nat)));
                }
            },
            Stmt::Alu { .. } => {
                addr = addr + 1;
            },
            Stmt::Skip { .. } => {
                addr = addr + 1;
            },
            Stmt::Jmp { .. } => {
                addr = addr + 1;
            },
            Stmt::Call { .. } => {
                addr = addr + 1;
            },
            Stmt::Ret => {
                addr = addr + 1;
            },
            _ => {},
        }
        i = i + 1;
    }
    labels
}

/// Pass 2: emits one machine word per code-emitting statement, collecting
/// `equ` constants in source order; see [`spec_pass2_go`].
fn pass2(lines: &Vec<Vec<u8>>, start: usize, labels: &Vec<(Vec<u8>, usize)>) -> (r: Result<
    Vec<u32>,
    AsmError,
>)
    ensures
        match r {
            Ok(code) => spec_pass2_go(
                lines.deep_view(),
                start as int,
                view_labels(labels@),
                Seq::empty(),
                Seq::empty(),
            ) == Ok::<Seq<u32>, AsmError>(code@),
            Err(e) => spec_pass2_go(
                lines.deep_view(),
                start as int,
                view_labels(labels@),
                Seq::empty(),
                Seq::empty(),
            ) == Err::<Seq<u32>, AsmError>(e),
        },
{
    let ghost linesv = lines.deep_view();
    let ghost labelsv = view_labels(labels@);
    proof {
        assert(linesv.len() == lines@.len());
        assert(forall|j: int| 0 <= j < lines@.len() ==> linesv[j] == lines@[j]@);
    }
    let mut equs: Vec<(Vec<u8>, u32)> = Vec::new();
    let mut code: Vec<u32> = Vec::new();
    let mut i: usize = start;
    proof {
        assert(view_syms(equs@) =~= Seq::<(Seq<u8>, u32)>::empty());
        assert(code@ =~= Seq::<u32>::empty());
    }
    while i < lines.len()
        invariant
            start <= i,
            linesv == lines.deep_view(),
            labelsv == view_labels(labels@),
            linesv.len() == lines@.len(),
            forall|j: int| 0 <= j < lines@.len() ==> linesv[j] == lines@[j]@,
            spec_pass2_go(linesv, start as int, labelsv, Seq::empty(), Seq::empty())
                == spec_pass2_go(linesv, i as int, labelsv, view_syms(equs@), code@),
        decreases lines@.len() - i,
    {
        let words = splitter(lines[i].as_slice());
        let st = classify(&words);
        let linenum = i + 1;
        proof {
            assert(st.deep_view() == spec_classify(spec_splitter(linesv[i as int])));
        }
        match st {
            Stmt::Empty => {},
            Stmt::Label { .. } => {},
            Stmt::Equ { name, lit } => {
                let v = match parsenum(lit.as_slice(), linenum) {
                    Ok(v) => v,
                    Err(e) => {
                        return Err(e);
                    },
                };
                let ghost old_equs = view_syms(equs@);
                let ghost namev = name@;
                equs.push((name, v % 0x100));
                proof {
                    assert(view_syms(equs@) =~= old_equs.push((namev, v % 0x100)));
                }
            },
            Stmt::Alu { d, a, b } => {
                let dv = match equ_get(&equs, d.as_slice(), linenum) {
                    Ok(v) => v,
                    Err(e) => {
                        return Err(e);
                    },
                };
                let av = match equ_get(&equs, a.as_slice(), linenum) {
                    Ok(v) => v,
                    Err(e) => {
                        return Err(e);
                    },
                };
                let bv = match equ_get(&equs, b.as_slice(), linenum) {
                    Ok(v) => v,
                    Err(e) => {
                        return Err(e);
                    },
                };
                code.push(dv * 0x10000 + av * 0x100 + bv);
            },
            Stmt::Skip { a, b } => {
                let av = match equ_get(&equs, a.as_slice(), linenum) {
                    Ok(v) => v,
                    Err(e) => {
                        return Err(e);
                    },
                };
                let bv = match equ_get(&equs, b.as_slice(), linenum) {
                    Ok(v) => v,
                    Err(e) => {
                        return Err(e);
                    },
                };
                code.push(0xfe0000 + av * 0x100 + bv);
            },
            Stmt::Jmp { target } => {
                let t = match resolve_target(labels, target.as_slice(), linenum) {
                    Ok(v) => v,
                    Err(e) => {
                        return Err(e);
                    },
                };
                code.push(0xff0000 + t);
            },
            Stmt::Call { target } => {
                let t = match resolve_target(labels, target.as_slice(), linenum) {
                    Ok(v) => v,
                    Err(e) => {
                        return Err(e);
                    },
                };
                code.push(0xfc0000 + t);
            },
            Stmt::Ret => {
                code.push(RET_WORD);
            },
            Stmt::Unknown => {
                return Err(AsmError::UnknownStatement { line: linenum });
            },
        }
        i = i + 1;
    }
    Ok(code)
}

/// Index of the first line holding any token; see [`spec_first_token_line`].
fn first_token_line(lines: &Vec<Vec<u8>>) -> (g: usize)
    ensures
        g as int == spec_first_token_line(lines.deep_view(), 0),
        g <= lines@.len(),
        g < lines@.len() ==> spec_splitter(lines.deep_view()[g as int]).len() > 0,
{
    let ghost linesv = lines.deep_view();
    proof {
        assert(linesv.len() == lines@.len());
        assert(forall|j: int| 0 <= j < lines@.len() ==> linesv[j] == lines@[j]@);
    }
    let mut g: usize = 0;
    while g < lines.len()
        invariant
            g <= lines@.len(),
            linesv == lines.deep_view(),
            linesv.len() == lines@.len(),
            forall|j: int| 0 <= j < lines@.len() ==> linesv[j] == lines@[j]@,
            spec_first_token_line(linesv, 0) == spec_first_token_line(linesv, g as int),
        decreases lines@.len() - g,
    {
        let ws = splitter(lines[g].as_slice());
        if ws.len() > 0 {
            proof {
                assert(spec_splitter(linesv[g as int]).len() > 0);
                assert(spec_first_token_line(linesv, g as int) == g as int);
            }
            return g;
        }
        g = g + 1;
    }
    g
}

/// Assembles a preprocessed source text into its CPU type and machine
/// words, or reports the first fatal error; see [`spec_assemble`].
pub fn assembler(assembly_code: &[u8]) -> (r: Result<(CpuType, Vec<u32>), AsmError>)
    ensures
        match r {
            Ok(p) => spec_assemble(assembly_code@) == Ok::<(CpuType, Seq<u32>), AsmError>(
                (p.0, p.1@),
            ),
            Err(e) => spec_assemble(assembly_code@) == Err::<(CpuType, Seq<u32>), AsmError>(e),
        },
{
    let lines = split_lines(assembly_code);
    let ghost linesv = lines.deep_view();
    proof {
        assert(linesv.len() == lines@.len());
        assert(forall|j: int| 0 <= j < lines@.len() ==> linesv[j] == lines@[j]@);
    }
    let g = first_token_line(&lines);
    if g == lines.len() {
        return Err(AsmError::MissingCpuType);
    }
    let words = splitter(lines[g].as_slice());
    proof {
        assert(words.deep_view()[0] == words@[0]@);
    }
    let gt = match cpu_type_of(words[0].as_slice()) {
        None => {
            return Err(AsmError::BadCpuType { line: g + 1 });
        },
        Some(gt) => gt,
    };
    let labels = pass1(&lines, g + 1);
    match pass2(&lines, g + 1, &labels) {
        Ok(code) => Ok((gt, code)),
        Err(e) => Err(e),
    }
}

/// The whole assembly of a source text: its lines' first token-bearing line
/// declares the CPU type, pass 1 binds the labels of the following
/// statements, and pass 2 encodes them.
pub open spec fn spec_assemble(text: Seq<u8>) -> Result<(CpuType, Seq<u32>), AsmError> {
    let lines = crate::text::spec_lines(text);
    let g = spec_first_token_line(lines, 0);
    if g >= lines.len() {
        Err(AsmError::MissingCpuType)
    } else {
        let ws = spec_splitter(lines[g]);
        match spec_cpu_type_of(ws[0]) {
            None => Err(AsmError::BadCpuType { line: (g + 1) as usize }),
            Some(gt) => match spec_pass2_go(
                lines,
                g + 1,
                spec_pass1(lines, g + 1),
                Seq::empty(),
                Seq::empty(),
            ) {
                Ok(code) => Ok((gt, code)),
                Err(e) => Err(e),
            },
        }
    }
}

/// True when line `m` declares `name` as an address label.
pub open spec fn spec_declares_label(lines: Seq<Seq<u8>>, m: int, name: Seq<u8>) -> bool {
    spec_classify(spec_splitter(lines[m])) == (SpecStmt::Label { name })
}

/// The number of code-emitting statements among lines `i` (inclusive) to `j`
/// (exclusive): the distance the pass-1 address counter moves across them.
pub open spec fn spec_code_count(lines: Seq<Seq<u8>>, i: int, j: int) -> nat
    decreases j - i,
{
    if i < 0 || i >= j {
        0
    } else {
        (if spec_emits_code(spec_classify(spec_splitter(lines[i]))) {
            1 as nat
        } else {
            0 as nat
        }) + spec_code_count(lines, i + 1, j)
    }
}

/// Pass 1 leaves the lookup of a name untouched when no remaining line
/// declares it.
proof fn lemma_pass1_lookup_absent(
    lines: Seq<Seq<u8>>,
    i: int,
    addr: nat,
    labels: Seq<(Seq<u8>, nat)>,
    name: Seq<u8>,
)
    requires
        forall|m: int| i <= m < lines.len() ==> !spec_declares_label(lines, m, name),
    ensures
        spec_lookup_label(spec_pass1_go(lines, i, addr, labels), name) == spec_lookup_label(
            labels,
            name,
        ),
    decreases lines.len() - i,
{
    if i < 0 || i >= lines.len() {
    } else {
        let st = spec_classify(spec_splitter(lines[i]));
        match st {
            SpecStmt::Label { name: n2 } => {
                assert(!spec_declares_label(lines, i, name));
                assert(n2 != name);
                let labels2 = labels.push((n2, addr));
                lemma_pass1_lookup_absent(lines, i + 1, addr, labels2, name);
                assert(labels2.drop_last() =~= labels);
                assert(spec_lookup_label(labels2, name) == spec_lookup_label(labels, name));
            },
            _ => {
                lemma_pass1_lookup_absent(
                    lines,
                    i + 1,
                    if spec_emits_code(st) {
                        addr + 1
                    } else {
                        addr
                    },
                    labels,
                    name,
                );
            },
        }
    }
}

/// Pass 1 binds a label to the address counter's value at its declaration:
/// the counter at entry plus one for each code-emitting statement passed on
/// the way there. The label's last declaration wins, so no later line may
/// re-declare the name.
proof fn lemma_pass1_binds_go(
    lines: Seq<Seq<u8>>,
    i: int,
    addr: nat,
    labels: Seq<(Seq<u8>, nat)>,
    j: int,
    name: Seq<u8>,
)
    requires
        0 <= i <= j < lines.len(),
        spec_declares_label(lines, j, name),
        forall|m: int| j < m < lines.len() ==> !spec_declares_label(lines, m, name),
    ensures
        spec_lookup_label(spec_pass1_go(lines, i, addr, labels), name) == Some(
            (addr + spec_code_count(lines, i, j)) as nat,
        ),
    decreases j - i,
{
    let st = spec_classify(spec_splitter(lines[i]));
    if i == j {
        let labels2 = labels.push((name, addr));
        lemma_pass1_lookup_absent(lines, j + 1, addr, labels2, name);
        assert(spec_lookup_label(labels2, name) == Some(addr));
        assert(spec_code_count(lines, i, j) == 0);
    } else {
        match st {
            SpecStmt::Label { name: n2 } => {
                lemma_pass1_binds_go(lines, i + 1, addr, labels.push((n2, addr)), j, name);
            },
            _ => {
                lemma_pass1_binds_go(
                    lines,
                    i + 1,
                    if spec_emits_code(st) {
                        addr + 1
                    } else {
                        addr
                    },
                    labels,
                    j,
                    name,
                );
            },
        }
    }
}

/// Pass 2 only appends: whatever it has emitted so far is a prefix of what
/// it returns on success.
proof fn lemma_pass2_prefix(
    lines: Seq<Seq<u8>>,
    i: int,
    labels: Seq<(Seq<u8>, nat)>,
    equs: Seq<(Seq<u8>, u32)>,
    acc: Seq<u32>,
    code: Seq<u32>,
)
    requires
        spec_pass2_go(lines, i, labels, equs, acc) == Ok::<Seq<u32>, AsmError>(code),
    ensures
        code.len() >= acc.len(),
        code.take(acc.len() as int) == acc,
    decreases lines.len() - i,
{
    if i < 0 || i >= lines.len() {
        assert(code == acc);
        assert(code.take(acc.len() as int) =~= acc);
    } else {
        let st = spec_classify(spec_splitter(lines[i]));
        match st {
            SpecStmt::Empty => {
                lemma_pass2_prefix(lines, i + 1, labels, equs, acc, code);
            },
            SpecStmt::Label { .. } => {
                lemma_pass2_prefix(lines, i + 1, labels, equs, acc, code);
            },
            SpecStmt::Equ { name, lit } => {
                if let Some(v) = spec_parse_num(lit) {
                    lemma_pass2_prefix(lines, i + 1, labels, equs.push((name, v % 0x100)), acc, code);
                }
            },
            SpecStmt::Alu { d, a, b } => {
                if let (Some(dv), Some(av), Some(bv)) = (
                    spec_equ_get(equs, d),
                    spec_equ_get(equs, a),
                    spec_equ_get(equs, b),
                ) {
                    let acc2 = acc.push(spec_alu_word(dv, av, bv));
                    lemma_pass2_prefix(lines, i + 1, labels, equs, acc2, code);
                    assert(code.take(acc.len() as int) =~= acc);
                }
            },
            SpecStmt::Skip { a, b } => {
                if let (Some(av), Some(bv)) = (spec_equ_get(equs, a), spec_equ_get(equs, b)) {
                    let acc2 = acc.push(spec_skip_word(av, bv));
                    lemma_pass2_prefix(lines, i + 1, labels, equs, acc2, code);
                    assert(code.take(acc.len() as int) =~= acc);
                }
            },
            SpecStmt::Jmp { target } => {
                if let Some(t) = spec_resolve_target(labels, target) {
                    let acc2 = acc.push(spec_jmp_word(t));
                    lemma_pass2_prefix(lines, i + 1, labels, equs, acc2, code);
                    assert(code.take(acc.len() as int) =~= acc);
                }
            },
            SpecStmt::Call { target } => {
                if let Some(t) = spec_resolve_target(labels, target) {
                    let acc2 = acc.push(spec_call_word(t));
                    lemma_pass2_prefix(lines, i + 1, labels, equs, acc2, code);
                    assert(code.take(acc.len() as int) =~= acc);
                }
            },
            SpecStmt::Ret => {
                let acc2 = acc.push(RET_WORD);
                lemma_pass2_prefix(lines, i + 1, labels, equs, acc2, code);
                assert(code.take(acc.len() as int) =~= acc);
            },
            SpecStmt::Unknown => {},
        }
    }
}

/// On success, the word emitted for a `jmp` statement stands at the slot
/// counted by [`spec_code_count`] and encodes the resolved target.
proof fn lemma_pass2_jmp_slot(
    lines: Seq<Seq<u8>>,
    m: int,
    labels: Seq<(Seq<u8>, nat)>,
    equs: Seq<(Seq<u8>, u32)>,
    acc: Seq<u32>,
    code: Seq<u32>,
    i: int,
    target: Seq<u8>,
    t: u32,
)
    requires
        0 <= m <= i < lines.len(),
        spec_classify(spec_splitter(lines[i])) == (SpecStmt::Jmp { target }),
        spec_resolve_target(labels, target) == Some(t),
        spec_pass2_go(lines, m, labels, equs, acc) == Ok::<Seq<u32>, AsmError>(code),
    ensures
        acc.len() + spec_code_count(lines, m, i) < code.len(),
        code[acc.len() + spec_code_count(lines, m, i) as int] == spec_jmp_word(t),
    decreases i - m,
{
    let st = spec_classify(spec_splitter(lines[m]));
    if m == i {
        let acc2 = acc.push(spec_jmp_word(t));
        lemma_pass2_prefix(lines, m + 1, labels, equs, acc2, code);
        assert(code.take(acc2.len() as int)[acc.len() as int] == code[acc.len() as int]);
        assert(code[acc.len() as int] == spec_jmp_word(t));
        assert(spec_code_count(lines, m, i) == 0);
    } else {
        match st {
            SpecStmt::Empty => {
                lemma_pass2_jmp_slot(lines, m + 1, labels, equs, acc, code, i, target, t);
            },
            SpecStmt::Label { .. } => {
                lemma_pass2_jmp_slot(lines, m + 1, labels, equs, acc, code, i, target, t);
            },
            SpecStmt::Equ { name, lit } => {
                if let Some(v) = spec_parse_num(lit) {
                    lemma_pass2_jmp_slot(
                        lines,
                        m + 1,
                        labels,
                        equs.push((name, v % 0x100)),
                        acc,
                        code,
                        i,
                        target,
                        t,
                    );
                }
            },
            SpecStmt::Alu { d, a, b } => {
                if let (Some(dv), Some(av), Some(bv)) = (
                    spec_equ_get(equs, d),
                    spec_equ_get(equs, a),
                    spec_equ_get(equs, b),
                ) {
                    lemma_pass2_jmp_slot(
                        lines,
                        m + 1,
                        labels,
                        equs,
                        acc.push(spec_alu_word(dv, av, bv)),
                        code,
                        i,
                        target,
                        t,
                    );
                }
            },
            SpecStmt::Skip { a, b } => {
                if let (Some(av), Some(bv)) = (spec_equ_get(equs, a), spec_equ_get(equs, b)) {
                    lemma_pass2_jmp_slot(
                        lines,
                        m + 1,
                        labels,
                        equs,
                        acc.push(spec_skip_word(av, bv)),
                        code,
                        i,
                        target,
                        t,
                    );
                }
            },
            SpecStmt::Jmp { target: t2 } => {
                if let Some(tv) = spec_resolve_target(labels, t2) {
                    lemma_pass2_jmp_slot(
                        lines,
                        m + 1,
                        labels,
                        equs,
                        acc.push(spec_jmp_word(tv)),
                        code,
                        i,
                        target,
                        t,
                    );
                }
            },
            SpecStmt::Call { target: t2 } => {
                if let Some(tv) = spec_resolve_target(labels, t2) {
                    lemma_pass2_jmp_slot(
                        lines,
                        m + 1,
                        labels,
                        equs,
                        acc.push(spec_call_word(tv)),
                        code,
                        i,
                        target,
                        t,
                    );
                }
            },
            SpecStmt::Ret => {
                lemma_pass2_jmp_slot(
                    lines,
                    m + 1,
                    labels,
                    equs,
                    acc.push(RET_WORD),
                    code,
                    i,
                    target,
                    t,
                );
            },
            SpecStmt::Unknown => {},
        }
    }
}

/// The label-resolution law. For a statement list whose line `j` declares
/// the label `name` (and no later line re-declares it), and whose line `i`
/// is `jmp name`, a successful pass 2 places at the `jmp`'s slot a jump word
/// whose encoded target is exactly the pass-1 address counter value at the
/// label's declaration — the number of code-emitting statements before line
/// `j` — masked to the 16-bit address field. This holds for forward and
/// backward references alike, wherever other labels stand.
pub proof fn lemma_label_resolution(
    lines: Seq<Seq<u8>>,
    start: int,
    j: int,
    name: Seq<u8>,
    i: int,
    code: Seq<u32>,
)
    requires
        0 <= start <= j < lines.len(),
        start <= i < lines.len(),
        spec_declares_label(lines, j, name),
        forall|m: int| j < m < lines.len() ==> !spec_declares_label(lines, m, name),
        spec_classify(spec_splitter(lines[i])) == (SpecStmt::Jmp { target: name }),
        spec_pass2_go(lines, start, spec_pass1(lines, start), Seq::empty(), Seq::empty())
            == Ok::<Seq<u32>, AsmError>(code),
    ensures
        spec_code_count(lines, start, i) < code.len(),
        code[spec_code_count(lines, start, i) as int] == spec_jmp_word(
            ((spec_code_count(lines, start, j) % 0x10000) as u32),
        ),
{
    let labels = spec_pass1(lines, start);
    lemma_pass1_binds_go(lines, start, 0, Seq::empty(), j, name);
    assert(spec_lookup_label(labels, name) == Some(spec_code_count(lines, start, j)));
    let t = ((spec_code_count(lines, start, j) % 0x10000) as u32);
    assert(spec_resolve_target(labels, name) == Some(t));
    lemma_pass2_jmp_slot(
        lines,
        start,
        labels,
        Seq::empty(),
        Seq::empty(),
        code,
        i,
        name,
        t,
    );
}

/// The masking law. Processing `NAME equ VALUE` stores exactly the literal's
/// value masked to 8 bits — whatever the value and however the literal was
/// spelled, decimal or hexadecimal, since only the parsed value `v` enters —
/// and substituting the name afterwards yields exactly the stored constant.
pub proof fn lemma_equ_masking(
    lines: Seq<Seq<u8>>,
    i: int,
    labels: Seq<(Seq<u8>, nat)>,
    equs: Seq<(Seq<u8>, u32)>,
    code: Seq<u32>,
    name: Seq<u8>,
    lit: Seq<u8>,
    v: u32,
)
    requires
        0 <= i < lines.len(),
        spec_classify(spec_splitter(lines[i])) == (SpecStmt::Equ { name, lit }),
        spec_parse_num(lit) == Some(v),
    ensures
        spec_pass2_go(lines, i, labels, equs, code) == spec_pass2_go(
            lines,
            i + 1,
            labels,
            equs.push((name, v % 0x100)),
            code,
        ),
        spec_equ_get(equs.push((name, v % 0x100)), name) == Some(v % 0x100),
{
    let equs2 = equs.push((name, v % 0x100));
    assert(equs2.last() == (name, v % 0x100));
    assert(spec_lookup_const(equs2, name) == Some(v % 0x100));
}

/// Every word pass 2 emits fits the 24 encoded bits: operand fields are
/// masked to 8 bits, targets to 16, and the tags fill the top field.
proof fn lemma_pass2_words_fit(
    lines: Seq<Seq<u8>>,
    i: int,
    labels: Seq<(Seq<u8>, nat)>,
    equs: Seq<(Seq<u8>, u32)>,
    acc: Seq<u32>,
    code: Seq<u32>,
)
    requires
        spec_pass2_go(lines, i, labels, equs, acc) == Ok::<Seq<u32>, AsmError>(code),
        forall|j: int| 0 <= j < acc.len() ==> acc[j] < 0x1000000,
    ensures
        forall|j: int| 0 <= j < code.len() ==> code[j] < 0x1000000,
    decreases lines.len() - i,
{
    if i < 0 || i >= lines.len() {
    } else {
        let st = spec_classify(spec_splitter(lines[i]));
        match st {
            SpecStmt::Empty => {
                lemma_pass2_words_fit(lines, i + 1, labels, equs, acc, code);
            },
            SpecStmt::Label { .. } => {
                lemma_pass2_words_fit(lines, i + 1, labels, equs, acc, code);
            },
            SpecStmt::Equ { name, lit } => {
                if let Some(v) = spec_parse_num(lit) {
                    lemma_pass2_words_fit(
                        lines,
                        i + 1,
                        labels,
                        equs.push((name, v % 0x100)),
                        acc,
                        code,
                    );
                }
            },
            SpecStmt::Alu { d, a, b } => {
                if let (Some(dv), Some(av), Some(bv)) = (
                    spec_equ_get(equs, d),
                    spec_equ_get(equs, a),
                    spec_equ_get(equs, b),
                ) {
                    lemma_pass2_words_fit(
                        lines,
                        i + 1,
                        labels,
                        equs,
                        acc.push(spec_alu_word(dv, av, bv)),
                        code,
                    );
                }
            },
            SpecStmt::Skip { a, b } => {
                if let (Some(av), Some(bv)) = (spec_equ_get(equs, a), spec_equ_get(equs, b)) {
                    lemma_pass2_words_fit(
                        lines,
                        i + 1,
                        labels,
                        equs,
                        acc.push(spec_skip_word(av, bv)),
                        code,
                    );
                }
            },
            SpecStmt::Jmp { target } => {
                if let Some(t) = spec_resolve_target(labels, target) {
                    lemma_pass2_words_fit(lines, i + 1, labels, equs, acc.push(spec_jmp_word(t)), code);
                }
            },
            SpecStmt::Call { target } => {
                if let Some(t) = spec_resolve_target(labels, target) {
                    lemma_pass2_words_fit(
                        lines,
                        i + 1,
                        labels,
                        equs,
                        acc.push(spec_call_word(t)),
                        code,
                    );
                }
            },
            SpecStmt::Ret => {
                lemma_pass2_words_fit(lines, i + 1, labels, equs, acc.push(RET_WORD), code);
            },
            SpecStmt::Unknown => {},
        }
    }
}

/// The word-width law: whatever a successful assembly emits fits the 24
/// encoded bits, so every assembled program can be written as a listing.
pub proof fn lemma_assembled_words_fit(
    text: Seq<u8>,
    gt: CpuType,
    code: Seq<u32>,
)
    requires
        spec_assemble(text) == Ok::<(CpuType, Seq<u32>), AsmError>((gt, code)),
    ensures
        forall|j: int| 0 <= j < code.len() ==> code[j] < 0x1000000,
{
    let lines = crate::text::spec_lines(text);
    let g = spec_first_token_line(lines, 0);
    lemma_pass2_words_fit(
        lines,
        g + 1,
        spec_pass1(lines, g + 1),
        Seq::empty(),
        Seq::empty(),
        code,
    );
}

/// The determinism law for assembly: the result is a function of the input
/// text alone, so identical texts assemble to identical CPU types and
/// machine-word sequences.
pub proof fn lemma_assemble_deterministic(
    text1: Seq<u8>,
    text2: Seq<u8>,
    r1: Result<(CpuType, Seq<u32>), AsmError>,
    r2: Result<(CpuType, Seq<u32>), AsmError>,
)
    requires
        text1 == text2,
        r1 == spec_assemble(text1),
        r2 == spec_assemble(text2),
    ensures
        r1 == r2,
{
}

} // verus!
