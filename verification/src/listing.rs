//! The machine-code listing format: the toolchain's output and the CPU's
//! load format. The first line is the resolved CPU-type keyword in upper
//! case; every further line is one machine word, written `0x` followed by
//! six lowercase hexadecimal digits, in execution order.

use vstd::prelude::*;

use crate::assembler::CpuType;
use crate::cpu::Instr;
use crate::text::{
    lemma_find_byte, spec_find_byte, spec_lines, spec_parse_num, split_lines, parse_num,
    spec_is_hex_digit, spec_digit_value, spec_value_go, BYTE_HASH, BYTE_NEWLINE, BYTE_TAB,
    BYTE_CR, BYTE_SPACE, BYTE_0, BYTE_LOWER_X,
};

verus! {

/// A fatal error loading a listing; `line` is 1-based.
#[derive(Clone, Copy, PartialEq, Eq, Structural, Debug)]
pub enum LoadError {
    /// No line of the listing holds anything but blanks and comments.
    MissingHeader,
    /// The first content line is not an upper-case CPU-type keyword.
    BadHeader { line: usize },
    /// A word line is not a numeric literal that fits 32 bits.
    BadWord { line: usize },
}

/// The bytes of the upper-case keyword `NAND_CPU`.
pub open spec fn kw_upper_nand_cpu() -> Seq<u8> {
    seq![78u8, 65u8, 78u8, 68u8, 95u8, 67u8, 80u8, 85u8]
}

/// The bytes of the upper-case keyword `NOR_CPU`.
pub open spec fn kw_upper_nor_cpu() -> Seq<u8> {
    seq![78u8, 79u8, 82u8, 95u8, 67u8, 80u8, 85u8]
}

/// The bytes of the upper-case keyword `XOR_CPU`.
pub open spec fn kw_upper_xor_cpu() -> Seq<u8> {
    seq![88u8, 79u8, 82u8, 95u8, 67u8, 80u8, 85u8]
}

/// The bytes of the upper-case keyword `XNOR_CPU`.
pub open spec fn kw_upper_xnor_cpu() -> Seq<u8> {
    seq![88u8, 78u8, 79u8, 82u8, 95u8, 67u8, 80u8, 85u8]
}

/// The keyword a CPU type is written as in a listing's first line.
pub open spec fn spec_cpu_keyword(g: CpuType) -> Seq<u8> {
    match g {
        CpuType::Nand => kw_upper_nand_cpu(),
        CpuType::Nor => kw_upper_nor_cpu(),
        CpuType::Xor => kw_upper_xor_cpu(),
        CpuType::Xnor => kw_upper_xnor_cpu(),
    }
}

/// The CPU type a listing's first content line declares, if any.
pub open spec fn spec_load_cpu_type(tok: Seq<u8>) -> Option<CpuType> {
    if tok == kw_upper_nand_cpu() {
        Some(CpuType::Nand)
    } else if tok == kw_upper_nor_cpu() {
        Some(CpuType::Nor)
    } else if tok == kw_upper_xor_cpu() {
        Some(CpuType::Xor)
    } else if tok == kw_upper_xnor_cpu() {
        Some(CpuType::Xnor)
    } else {
        None
    }
}

/// The lowercase hexadecimal digit of a value below 16.
pub open spec fn spec_hex_digit(v: u32) -> u8
    recommends
        v < 16,
{
    if v < 10 {
        (48 + v) as u8
    } else {
        (87 + v) as u8
    }
}

/// A machine word written as `0x` and six lowercase hexadecimal digits.
pub open spec fn spec_hex6(w: u32) -> Seq<u8>
    recommends
        w < 0x1000000,
{
    seq![
        48u8,
        120u8,
        spec_hex_digit(w / 0x100000 % 16),
        spec_hex_digit(w / 0x10000 % 16),
        spec_hex_digit(w / 0x1000 % 16),
        spec_hex_digit(w / 0x100 % 16),
        spec_hex_digit(w / 0x10 % 16),
        spec_hex_digit(w % 16),
    ]
}

/// The word lines of a listing, one per machine word, each with its newline.
pub open spec fn spec_listing_words(words: Seq<u32>) -> Seq<u8>
    decreases words.len(),
{
    if words.len() == 0 {
        Seq::empty()
    } else {
        spec_hex6(words.first()) + seq![BYTE_NEWLINE] + spec_listing_words(words.drop_first())
    }
}

/// A whole listing: the CPU keyword line, then the word lines.
pub open spec fn spec_listing(g: CpuType, words: Seq<u32>) -> Seq<u8> {
    spec_cpu_keyword(g) + seq![BYTE_NEWLINE] + spec_listing_words(words)
}

/// Decodes a machine word into its three 8-bit fields; bits beyond the 24
/// encoded ones are dropped, as a field keeps only the width it occupies.
pub open spec fn spec_decode(w: u32) -> Instr {
    Instr { dst: (w / 0x10000 % 0x100) as u8, a: (w / 0x100 % 0x100) as u8, b: (w % 0x100) as u8 }
}

/// One listing line reduced to its content: the bytes before any `#`
/// comment, with leading and trailing blanks (space, tab, carriage return)
/// removed.
pub open spec fn spec_line_content(line: Seq<u8>) -> Seq<u8> {
    spec_trim(line.take(spec_find_byte(line, BYTE_HASH)))
}

/// True of the bytes trimmed off a listing line's ends.
pub open spec fn spec_is_blank(b: u8) -> bool {
    b == BYTE_SPACE || b == BYTE_TAB || b == BYTE_CR
}

/// A byte string with leading blanks removed.
pub open spec fn spec_trim_front(s: Seq<u8>) -> Seq<u8>
    decreases s.len(),
{
    if s.len() > 0 && spec_is_blank(s.first()) {
        spec_trim_front(s.drop_first())
    } else {
        s
    }
}

/// A byte string with trailing blanks removed.
pub open spec fn spec_trim_back(s: Seq<u8>) -> Seq<u8>
    decreases s.len(),
{
    if s.len() > 0 && spec_is_blank(s.last()) {
        spec_trim_back(s.drop_last())
    } else {
        s
    }
}

/// A byte string with blanks removed at both ends.
pub open spec fn spec_trim(s: Seq<u8>) -> Seq<u8> {
    spec_trim_back(spec_trim_front(s))
}

/// Loading the word lines from line `i` on: blank lines are skipped, every
/// other line must be a numeric literal, decoded into an instruction.
pub open spec fn spec_load_words(lines: Seq<Seq<u8>>, i: int, prog: Seq<Instr>) -> Result<
    Seq<Instr>,
    LoadError,
>
    decreases lines.len() - i,
{
    if i < 0 || i >= lines.len() {
        Ok(prog)
    } else {
        let c = spec_line_content(lines[i]);
        if c.len() == 0 {
            spec_load_words(lines, i + 1, prog)
        } else {
            match spec_parse_num(c) {
                Some(w) => spec_load_words(lines, i + 1, prog.push(spec_decode(w))),
                None => Err(LoadError::BadWord { line: (i + 1) as usize }),
            }
        }
    }
}

/// Index of the first line with any content, or the number of lines.
pub open spec fn spec_first_content_line(lines: Seq<Seq<u8>>, i: int) -> int
    decreases lines.len() - i,
{
    if i < 0 || i >= lines.len() {
        lines.len() as int
    } else if spec_line_content(lines[i]).len() > 0 {
        i
    } else {
        spec_first_content_line(lines, i + 1)
    }
}

/// Index of the first `b` in `s`, or its length; see
/// [`spec_find_byte`].
fn find_byte_at(s: &[u8], b: u8) -> (k: usize)
    ensures
        k as int == spec_find_byte(s@, b),
        k <= s@.len(),
{
    let mut i: usize = 0;
    while i < s.len()
        invariant
            i <= s@.len(),
            forall|j: int| 0 <= j < i ==> s@[j] != b,
        decreases s@.len() - i,
    {
        if s[i] == b {
            proof {
                lemma_find_byte(s@, b, i as int);
            }
            return i;
        }
        i = i + 1;
    }
    proof {
        lemma_find_byte(s@, b, s@.len() as int);
    }
    i
}

/// [`spec_trim_front`] pinned down: with blanks exactly before `j`, the
/// front-trimmed string is the bytes from `j` on.
proof fn lemma_trim_front_at(s: Seq<u8>, j: int)
    requires
        0 <= j <= s.len(),
        forall|i: int| 0 <= i < j ==> spec_is_blank(s[i]),
        j < s.len() ==> !spec_is_blank(s[j]),
    ensures
        spec_trim_front(s) == s.skip(j),
    decreases j,
{
    if j == 0 {
        assert(s.skip(0) =~= s);
    } else {
        lemma_trim_front_at(s.drop_first(), j - 1);
        assert(s.drop_first().skip(j - 1) =~= s.skip(j));
    }
}

/// [`spec_trim_back`] pinned down: with blanks exactly from `j` on, the
/// back-trimmed string is the bytes before `j`.
proof fn lemma_trim_back_at(s: Seq<u8>, j: int)
    requires
        0 <= j <= s.len(),
        forall|i: int| j <= i < s.len() ==> spec_is_blank(s[i]),
        j > 0 ==> !spec_is_blank(s[j - 1]),
    ensures
        spec_trim_back(s) == s.take(j),
    decreases s.len(),
{
    if s.len() == 0 {
        assert(s.take(0) =~= s);
    } else if spec_is_blank(s.last()) {
        assert(j < s.len());
        lemma_trim_back_at(s.drop_last(), j);
        assert(s.drop_last().take(j) =~= s.take(j));
    } else {
        assert(j == s.len());
        assert(s.take(j) =~= s);
    }
}

/// Copies the bytes of `s` from `a` (inclusive) to `b` (exclusive).
fn copy_range(s: &[u8], a: usize, b: usize) -> (r: Vec<u8>)
    requires
        a <= b <= s@.len(),
    ensures
        r@ == s@.subrange(a as int, b as int),
{
    let mut r: Vec<u8> = Vec::new();
    let mut i: usize = a;
    proof {
        assert(r@ =~= s@.subrange(a as int, a as int));
    }
    while i < b
        invariant
            a <= i <= b <= s@.len(),
            r@ == s@.subrange(a as int, i as int),
        decreases b - i,
    {
        r.push(s[i]);
        proof {
            assert(r@ =~= s@.subrange(a as int, i as int + 1));
        }
        i = i + 1;
    }
    r
}

/// True of a blank byte; see [`spec_is_blank`].
fn is_blank(b: u8) -> (r: bool)
    ensures
        r == spec_is_blank(b),
{
    b == BYTE_SPACE || b == BYTE_TAB || b == BYTE_CR
}

/// The content of one listing line; see [`spec_line_content`].
fn line_content(line: &[u8]) -> (r: Vec<u8>)
    ensures
        r@ == spec_line_content(line@),
{
    let cut = find_byte_at(line, BYTE_HASH);
    let ghost pre = line@.take(cut as int);
    proof {
        assert(forall|j: int| 0 <= j < cut ==> pre[j] == line@[j]);
    }
    let mut start: usize = 0;
    while start < cut && is_blank(line[start])
        invariant
            start <= cut <= line@.len(),
            pre == line@.take(cut as int),
            forall|j: int| 0 <= j < start ==> spec_is_blank(pre[j]),
        decreases cut - start,
    {
        start = start + 1;
    }
    let mut end: usize = cut;
    while end > start && is_blank(line[end - 1])
        invariant
            start <= end <= cut <= line@.len(),
            pre == line@.take(cut as int),
            forall|j: int| end <= j < cut ==> spec_is_blank(pre[j]),
        decreases end,
    {
        end = end - 1;
    }
    proof {
        lemma_trim_front_at(pre, start as int);
        let mid = pre.skip(start as int);
        assert(forall|j: int|
            0 <= j < mid.len() ==> mid[j] == pre[start as int + j]);
        lemma_trim_back_at(mid, end as int - start as int);
        assert(mid.take(end as int - start as int) =~= line@.subrange(start as int, end as int));
    }
    copy_range(line, start, end)
}

/// Loading a whole listing: the first content line declares the CPU type,
/// every later content line is one machine word.
pub open spec fn spec_compile(src: Seq<u8>) -> Result<(CpuType, Seq<Instr>), LoadError> {
    let lines = spec_lines(src);
    let g = spec_first_content_line(lines, 0);
    if g >= lines.len() {
        Err(LoadError::MissingHeader)
    } else {
        match spec_load_cpu_type(spec_line_content(lines[g])) {
            None => Err(LoadError::BadHeader { line: (g + 1) as usize }),
            Some(gt) => match spec_load_words(lines, g + 1, Seq::empty()) {
                Ok(prog) => Ok((gt, prog)),
                Err(e) => Err(e),
            },
        }
    }
}

/// The keyword a CPU type is written as, as a byte vector.
pub fn cpu_keyword(g: CpuType) -> (v: Vec<u8>)
    ensures
        v@ == spec_cpu_keyword(g),
{
    let mut v: Vec<u8> = Vec::new();
    match g {
        CpuType::Nand => {
            v.push(78);
            v.push(65);
            v.push(78);
            v.push(68);
            v.push(95);
            v.push(67);
            v.push(80);
            v.push(85);
            proof {
                assert(v@ =~= kw_upper_nand_cpu());
            }
        },
        CpuType::Nor => {
            v.push(78);
            v.push(79);
            v.push(82);
            v.push(95);
            v.push(67);
            v.push(80);
            v.push(85);
            proof {
                assert(v@ =~= kw_upper_nor_cpu());
            }
        },
        CpuType::Xor => {
            v.push(88);
            v.push(79);
            v.push(82);
            v.push(95);
            v.push(67);
            v.push(80);
            v.push(85);
            proof {
                assert(v@ =~= kw_upper_xor_cpu());
            }
        },
        CpuType::Xnor => {
            v.push(88);
            v.push(78);
            v.push(79);
            v.push(82);
            v.push(95);
            v.push(67);
            v.push(80);
            v.push(85);
            proof {
                assert(v@ =~= kw_upper_xnor_cpu());
            }
        },
    }
    v
}

/// Appends one word as `0x` and six lowercase hexadecimal digits.
fn push_hex6(out: &mut Vec<u8>, w: u32)
    requires
        w < 0x1000000,
    ensures
        final(out)@ == old(out)@ + spec_hex6(w),
{
    out.push(48);
    out.push(120);
    out.push(hex_digit(w / 0x100000 % 16));
    out.push(hex_digit(w / 0x10000 % 16));
    out.push(hex_digit(w / 0x1000 % 16));
    out.push(hex_digit(w / 0x100 % 16));
    out.push(hex_digit(w / 0x10 % 16));
    out.push(hex_digit(w % 16));
    proof {
        assert(out@ =~= old(out)@ + spec_hex6(w));
    }
}

/// The lowercase hexadecimal digit of a value below 16.
fn hex_digit(v: u32) -> (r: u8)
    requires
        v < 16,
    ensures
        r == spec_hex_digit(v),
{
    if v < 10 {
        (48 + v) as u8
    } else {
        (87 + v) as u8
    }
}

/// The word lines of a prefix grow one line per word.
proof fn lemma_listing_words_snoc(words: Seq<u32>, n: int)
    requires
        0 <= n < words.len(),
    ensures
        spec_listing_words(words.take(n + 1)) == spec_listing_words(words.take(n)) + spec_hex6(
            words[n],
        ) + seq![BYTE_NEWLINE],
    decreases n,
{
    if n == 0 {
        assert(words.take(1) =~= seq![words[0]]);
        assert(words.take(0) =~= Seq::<u32>::empty());
        assert(seq![words[0]].drop_first() =~= Seq::<u32>::empty());
        assert(spec_listing_words(words.take(1)) =~= spec_listing_words(words.take(0)) + spec_hex6(
            words[0],
        ) + seq![BYTE_NEWLINE]);
    } else {
        let w2 = words.drop_first();
        lemma_listing_words_snoc(w2, n - 1);
        assert(words.take(n + 1).first() == words[0]);
        assert(words.take(n + 1).drop_first() =~= w2.take(n));
        assert(words.take(n).first() == words[0]);
        assert(words.take(n).drop_first() =~= w2.take(n - 1));
        assert(w2[n - 1] == words[n]);
        assert(spec_listing_words(words.take(n + 1)) =~= spec_listing_words(words.take(n))
            + spec_hex6(words[n]) + seq![BYTE_NEWLINE]);
    }
}

/// Writes a program as its listing text: the CPU keyword line, then one
/// hexadecimal word line per machine word, in order; see [`spec_listing`].
/// Assembled words always fit the 24 encoded bits.
pub fn program_to_listing(cputype: CpuType, machine_code: &Vec<u32>) -> (r: Vec<u8>)
    requires
        forall|j: int| 0 <= j < machine_code@.len() ==> machine_code@[j] < 0x1000000,
    ensures
        r@ == spec_listing(cputype, machine_code@),
{
    let mut out: Vec<u8> = cpu_keyword(cputype);
    out.push(BYTE_NEWLINE);
    let ghost head = spec_cpu_keyword(cputype) + seq![BYTE_NEWLINE];
    proof {
        assert(out@ =~= head);
        assert(machine_code@.take(0) =~= Seq::<u32>::empty());
        assert(out@ =~= head + spec_listing_words(machine_code@.take(0)));
    }
    let mut i: usize = 0;
    while i < machine_code.len()
        invariant
            i <= machine_code@.len(),
            forall|j: int| 0 <= j < machine_code@.len() ==> machine_code@[j] < 0x1000000,
            out@ == head + spec_listing_words(machine_code@.take(i as int)),
            head == spec_cpu_keyword(cputype) + seq![BYTE_NEWLINE],
        decreases machine_code@.len() - i,
    {
        push_hex6(&mut out, machine_code[i]);
        out.push(BYTE_NEWLINE);
        proof {
            lemma_listing_words_snoc(machine_code@, i as int);
            assert(out@ =~= head + spec_listing_words(machine_code@.take(i as int + 1)));
        }
        i = i + 1;
    }
    proof {
        assert(machine_code@.take(machine_code@.len() as int) =~= machine_code@);
        assert(out@ =~= spec_listing(cputype, machine_code@));
    }
    out
}

/// Parses one machine-word literal of the load format, `0x`-prefixed
/// hexadecimal or decimal; see [`spec_parse_num`].
pub fn parser(value: &[u8]) -> (r: Option<u32>)
    ensures
        r == spec_parse_num(value@),
{
    parse_num(value)
}

/// Reads the CPU type off a listing's first content line.
fn load_cpu_type(tok: &[u8]) -> (r: Option<CpuType>)
    ensures
        r == spec_load_cpu_type(tok@),
{
    let nand = cpu_keyword(CpuType::Nand);
    let nor = cpu_keyword(CpuType::Nor);
    let xor = cpu_keyword(CpuType::Xor);
    let xnor = cpu_keyword(CpuType::Xnor);
    if crate::assembler::bytes_eq(tok, nand.as_slice()) {
        Some(CpuType::Nand)
    } else if crate::assembler::bytes_eq(tok, nor.as_slice()) {
        Some(CpuType::Nor)
    } else if crate::assembler::bytes_eq(tok, xor.as_slice()) {
        Some(CpuType::Xor)
    } else if crate::assembler::bytes_eq(tok, xnor.as_slice()) {
        Some(CpuType::Xnor)
    } else {
        None
    }
}

/// Index of the first line with content; see [`spec_first_content_line`].
fn first_content_line(lines: &Vec<Vec<u8>>) -> (g: usize)
    ensures
        g as int == spec_first_content_line(lines.deep_view(), 0),
        g <= lines@.len(),
        g < lines@.len() ==> spec_line_content(lines.deep_view()[g as int]).len() > 0,
{
    let ghost linesv = lines.deep_view();
    proof {
        assert(linesv.len() == lines@.len());
        assert(forall|j: int| 0 <= j < lines@.len() ==> linesv[j] == lines@[j]@);
    }
    let mut g: usize = 0;
    while g < lines.len()
        invariant
            g <= lines@.len(),
            linesv == lines.deep_view(),
            linesv.len() == lines@.len(),
            forall|j: int| 0 <= j < lines@.len() ==> linesv[j] == lines@[j]@,
            spec_first_content_line(linesv, 0) == spec_first_content_line(linesv, g as int),
        decreases lines@.len() - g,
    {
        let c = line_content(lines[g].as_slice());
        if c.len() > 0 {
            proof {
                assert(spec_first_content_line(linesv, g as int) == g as int);
            }
            return g;
        }
        g = g + 1;
    }
    g
}

/// Loads a listing into its CPU type and decoded program, or reports the
/// first bad line; see [`spec_compile`]. This is the inverse of
/// [`program_to_listing`]: what the toolchain writes, the machine loads.
pub fn compiler(src: &[u8]) -> (r: Result<(CpuType, Vec<Instr>), LoadError>)
    ensures
        match r {
            Ok(p) => spec_compile(src@) == Ok::<(CpuType, Seq<Instr>), LoadError>((p.0, p.1@)),
            Err(e) => spec_compile(src@) == Err::<(CpuType, Seq<Instr>), LoadError>(e),
        },
{
    let lines = split_lines(src);
    let ghost linesv = lines.deep_view();
    proof {
        assert(linesv.len() == lines@.len());
        assert(forall|j: int| 0 <= j < lines@.len() ==> linesv[j] == lines@[j]@);
    }
    let g = first_content_line(&lines);
    if g == lines.len() {
        return Err(LoadError::MissingHeader);
    }
    let hdr = line_content(lines[g].as_slice());
    let gt = match load_cpu_type(hdr.as_slice()) {
        None => {
            return Err(LoadError::BadHeader { line: g + 1 });
        },
        Some(gt) => gt,
    };
    let mut prog: Vec<Instr> = Vec::new();
    let mut i: usize = g + 1;
    proof {
        assert(prog@ =~= Seq::<Instr>::empty());
    }
    while i < lines.len()
        invariant
            g + 1 <= i,
            linesv == lines.deep_view(),
            linesv.len() == lines@.len(),
            forall|j: int| 0 <= j < lines@.len() ==> linesv[j] == lines@[j]@,
            linesv == spec_lines(src@),
            g as int == spec_first_content_line(linesv, 0),
            g < lines@.len(),
            spec_load_cpu_type(spec_line_content(linesv[g as int])) == Some(gt),
            spec_load_words(linesv, g + 1 as int, Seq::empty()) == spec_load_words(
                linesv,
                i as int,
                prog@,
            ),
        decreases lines@.len() - i,
    {
        let c = line_content(lines[i].as_slice());
        if c.len() > 0 {
            let w = match parse_num(c.as_slice()) {
                None => {
                    return Err(LoadError::BadWord { line: i + 1 });
                },
                Some(w) => w,
            };
            let ins = Instr {
                dst: ((w / 0x10000) % 0x100) as u8,
                a: ((w / 0x100) % 0x100) as u8,
                b: (w % 0x100) as u8,
            };
            proof {
                assert(ins == spec_decode(w));
            }
            prog.push(ins);
        }
        i = i + 1;
    }
    Ok((gt, prog))
}

/// One hexadecimal digit is a valid hexadecimal digit byte, and reads back
/// as the value it was written for.
proof fn lemma_hex_digit_valid(v: u32)
    requires
        v < 16,
    ensures
        spec_is_hex_digit(spec_hex_digit(v)),
        spec_digit_value(spec_hex_digit(v)) == v,
{
}

/// The facts the loader needs of one written word: eight bytes, none of them
/// a newline, comment byte or blank, that are their own line content and
/// parse back to exactly the word they were written for.
proof fn lemma_hex6_reads_back(w: u32)
    requires
        w < 0x1000000,
    ensures
        spec_hex6(w).len() == 8,
        forall|j: int|
            0 <= j < 8 ==> (#[trigger] spec_hex6(w)[j]) != BYTE_NEWLINE && spec_hex6(w)[j]
                != BYTE_HASH && !spec_is_blank(spec_hex6(w)[j]),
        spec_line_content(spec_hex6(w)) == spec_hex6(w),
        spec_parse_num(spec_hex6(w)) == Some(w),
{
    let s = spec_hex6(w);
    let v5 = w / 0x100000 % 16;
    let v4 = w / 0x10000 % 16;
    let v3 = w / 0x1000 % 16;
    let v2 = w / 0x100 % 16;
    let v1 = w / 0x10 % 16;
    let v0 = w % 16;
    lemma_hex_digit_valid(v5);
    lemma_hex_digit_valid(v4);
    lemma_hex_digit_valid(v3);
    lemma_hex_digit_valid(v2);
    lemma_hex_digit_valid(v1);
    lemma_hex_digit_valid(v0);
    assert forall|j: int|
        0 <= j < 8 implies (#[trigger] s[j]) != BYTE_NEWLINE && s[j] != BYTE_HASH
        && !spec_is_blank(s[j]) by {
        assert(spec_is_hex_digit(s[2]) && spec_is_hex_digit(s[3]) && spec_is_hex_digit(s[4])
            && spec_is_hex_digit(s[5]) && spec_is_hex_digit(s[6]) && spec_is_hex_digit(s[7]));
    }
    // The line is its own content: no comment byte, no blank at either end.
    lemma_find_byte(s, BYTE_HASH, 8);
    assert(s.take(8) =~= s);
    lemma_trim_front_at(s, 0);
    lemma_trim_back_at(s, 8);
    // It parses back: `0x`, then six digits whose accumulated value is `w`.
    assert(s[0] == BYTE_0 && s[1] == BYTE_LOWER_X);
    let d = s.skip(2);
    assert(d =~= seq![
        spec_hex_digit(v5),
        spec_hex_digit(v4),
        spec_hex_digit(v3),
        spec_hex_digit(v2),
        spec_hex_digit(v1),
        spec_hex_digit(v0),
    ]);
    assert(forall|j: int| 0 <= j < 6 ==> spec_is_hex_digit(#[trigger] d[j]));
    let a1: nat = (v5) as nat;
    let a2: nat = (a1 * 16 + v4) as nat;
    let a3: nat = (a2 * 16 + v3) as nat;
    let a4: nat = (a3 * 16 + v2) as nat;
    let a5: nat = (a4 * 16 + v1) as nat;
    let a6: nat = (a5 * 16 + v0) as nat;
    assert(spec_value_go(d, 16, 0, 0) == spec_value_go(d, 16, 1, a1));
    assert(spec_value_go(d, 16, 1, a1) == spec_value_go(d, 16, 2, a2));
    assert(spec_value_go(d, 16, 2, a2) == spec_value_go(d, 16, 3, a3));
    assert(spec_value_go(d, 16, 3, a3) == spec_value_go(d, 16, 4, a4));
    assert(spec_value_go(d, 16, 4, a4) == spec_value_go(d, 16, 5, a5));
    assert(spec_value_go(d, 16, 5, a5) == spec_value_go(d, 16, 6, a6));
    assert(spec_value_go(d, 16, 6, a6) == a6);
    assert(((((w / 0x100000 % 16 * 16 + w / 0x10000 % 16) * 16 + w / 0x1000 % 16) * 16 + w / 0x100
        % 16) * 16 + w / 0x10 % 16) * 16 + w % 16 == w) by (bit_vector)
        requires
            w < 0x1000000,
    ;
}

/// Splitting off one newline-terminated line without inner newlines or a
/// trailing carriage return.
proof fn lemma_lines_cons(a: Seq<u8>, rest: Seq<u8>)
    requires
        forall|j: int| 0 <= j < a.len() ==> a[j] != BYTE_NEWLINE,
        a.len() > 0 ==> a[a.len() - 1] != BYTE_CR,
    ensures
        spec_lines(a + seq![BYTE_NEWLINE] + rest) == seq![a] + spec_lines(rest),
{
    let s = a + seq![BYTE_NEWLINE] + rest;
    assert(s[a.len() as int] == BYTE_NEWLINE);
    assert(forall|j: int| 0 <= j < a.len() ==> s[j] == a[j]);
    lemma_find_byte(s, BYTE_NEWLINE, a.len() as int);
    assert(s.take(a.len() as int) =~= a);
    assert(s.skip(a.len() as int + 1) =~= rest);
    assert(spec_lines(s) =~= seq![a] + spec_lines(rest));
}

/// The written word lines split back into one line per word.
proof fn lemma_lines_of_listing_words(words: Seq<u32>)
    requires
        forall|j: int| 0 <= j < words.len() ==> words[j] < 0x1000000,
    ensures
        spec_lines(spec_listing_words(words)) == words.map_values(|w: u32| spec_hex6(w)),
    decreases words.len(),
{
    if words.len() == 0 {
        assert(spec_lines(spec_listing_words(words)) =~= words.map_values(
            |w: u32| spec_hex6(w),
        ));
    } else {
        let w0 = words.first();
        lemma_hex6_reads_back(w0);
        lemma_lines_of_listing_words(words.drop_first());
        lemma_lines_cons(spec_hex6(w0), spec_listing_words(words.drop_first()));
        assert(spec_lines(spec_listing_words(words)) =~= words.map_values(
            |w: u32| spec_hex6(w),
        ));
    }
}

/// Loading lines that each hold one written word appends their decodings.
proof fn lemma_load_word_lines(lines: Seq<Seq<u8>>, i: int, ws: Seq<u32>, prog: Seq<Instr>)
    requires
        0 <= i,
        lines.len() == i + ws.len(),
        forall|k: int| 0 <= k < ws.len() ==> lines[i + k] == spec_hex6(ws[k]),
        forall|k: int| 0 <= k < ws.len() ==> ws[k] < 0x1000000,
    ensures
        spec_load_words(lines, i, prog) == Ok::<Seq<Instr>, LoadError>(
            prog + ws.map_values(|w: u32| spec_decode(w)),
        ),
    decreases ws.len(),
{
    let m = ws.map_values(|w: u32| spec_decode(w));
    if ws.len() == 0 {
        assert(prog + m =~= prog);
    } else {
        let w0 = ws[0];
        lemma_hex6_reads_back(w0);
        assert(lines[i] == spec_hex6(w0));
        let ws2 = ws.drop_first();
        assert(forall|k: int| 0 <= k < ws2.len() ==> lines[i + 1 + k] == spec_hex6(#[trigger] ws2[k]));
        lemma_load_word_lines(lines, i + 1, ws2, prog.push(spec_decode(w0)));
        assert(prog.push(spec_decode(w0)) + ws2.map_values(|w: u32| spec_decode(w)) =~= prog + m);
    }
}

/// The load-format law: a listing written for a program loads back to that
/// very program — the toolchain's output format is the machine's input
/// contract. For every CPU type and every sequence of 24-bit machine words,
/// loading the written listing yields the same CPU type and, word for word,
/// the decoded instructions.
pub proof fn lemma_listing_round_trip(g: CpuType, words: Seq<u32>)
    requires
        forall|j: int| 0 <= j < words.len() ==> words[j] < 0x1000000,
    ensures
        spec_compile(spec_listing(g, words)) == Ok::<(CpuType, Seq<Instr>), LoadError>(
            (g, words.map_values(|w: u32| spec_decode(w))),
        ),
{
    let kw = spec_cpu_keyword(g);
    assert forall|j: int|
        0 <= j < kw.len() implies (#[trigger] kw[j]) != BYTE_NEWLINE && kw[j] != BYTE_HASH
        && !spec_is_blank(kw[j]) by {
        match g {
            CpuType::Nand => assert(kw == kw_upper_nand_cpu()),
            CpuType::Nor => assert(kw == kw_upper_nor_cpu()),
            CpuType::Xor => assert(kw == kw_upper_xor_cpu()),
            CpuType::Xnor => assert(kw == kw_upper_xnor_cpu()),
        }
    }
    let text = spec_listing(g, words);
    assert(text =~= kw + seq![BYTE_NEWLINE] + spec_listing_words(words));
    lemma_lines_cons(kw, spec_listing_words(words));
    lemma_lines_of_listing_words(words);
    let wl = words.map_values(|w: u32| spec_hex6(w));
    let lines = spec_lines(text);
    assert(lines == seq![kw] + wl);
    assert(lines[0] == kw);
    // The keyword line is its own content and declares the CPU type.
    lemma_find_byte(kw, BYTE_HASH, kw.len() as int);
    assert(kw.take(kw.len() as int) =~= kw);
    lemma_trim_front_at(kw, 0);
    lemma_trim_back_at(kw, kw.len() as int);
    assert(spec_line_content(kw) == kw);
    assert(spec_first_content_line(lines, 0) == 0);
    assert(spec_load_cpu_type(kw) == Some(g));
    // Every later line holds one written word.
    assert(forall|k: int| 0 <= k < words.len() ==> lines[1 + k] == spec_hex6(#[trigger] words[k]));
    lemma_load_word_lines(lines, 1, words, Seq::empty());
    assert(Seq::<Instr>::empty() + words.map_values(|w: u32| spec_decode(w)) =~= words.map_values(
        |w: u32| spec_decode(w),
    ));
}

} // verus!
