//! The preprocessor: two passes over assembly text. The first resolves the
//! `%`-prefixed file-splicing directive, replacing each such line by the
//! fully preprocessed contents of the file it names and rejecting any file
//! spliced in twice anywhere in the whole expansion. The second captures
//! `%macro NAME ARGCOUNT` ... `%endmacro` blocks and replaces each later
//! line starting with a defined macro's name by the captured body, verbatim,
//! between two marker comments. The declared argument count is recorded but
//! plays no part in expansion: no invocation-site arguments are substituted
//! into the body.

use vstd::prelude::*;

use crate::assembler::{bytes_eq, clone_bytes};
use crate::text::{
    spec_lines, spec_splitter, spec_parse_radix, split_lines, splitter, parse_radix, BYTE_NEWLINE,
    BYTE_QUOTE, BYTE_SLASH,
};

verus! {

/// A fatal preprocessing error.
#[derive(Debug, PartialEq, Eq)]
pub enum PpError {
    /// `%macro` opened while a macro body was already being captured.
    NestedMacro { line: usize },
    /// `%macro` without a name token and a decimal argument count of at
    /// most 255.
    MacroHeader { line: usize },
    /// A file-splicing directive without a path operand.
    DirectiveSyntax { line: usize },
    /// The directive names a file that was already spliced in once before,
    /// anywhere in the whole expansion: the fatal repeat-inclusion
    /// condition that stops self-referential sources.
    RepeatInclusion { path: Vec<u8> },
    /// The directive names a file that the file table does not hold.
    FileNotFound { path: Vec<u8> },
}

/// The mathematical shape of a [`PpError`].
pub ghost enum SpecPpError {
    NestedMacro { line: usize },
    MacroHeader { line: usize },
    DirectiveSyntax { line: usize },
    RepeatInclusion { path: Seq<u8> },
    FileNotFound { path: Seq<u8> },
}

impl DeepView for PpError {
    type V = SpecPpError;

    open spec fn deep_view(&self) -> SpecPpError {
        match self {
            PpError::NestedMacro { line } => SpecPpError::NestedMacro { line: *line },
            PpError::MacroHeader { line } => SpecPpError::MacroHeader { line: *line },
            PpError::DirectiveSyntax { line } => SpecPpError::DirectiveSyntax { line: *line },
            PpError::RepeatInclusion { path } => SpecPpError::RepeatInclusion { path: path@ },
            PpError::FileNotFound { path } => SpecPpError::FileNotFound { path: path@ },
        }
    }
}

/// The bytes of the `%macro` directive keyword.
pub open spec fn kw_macro_open() -> Seq<u8> {
    seq![37u8, 109u8, 97u8, 99u8, 114u8, 111u8]
}

/// The bytes of the `%endmacro` directive keyword.
pub open spec fn kw_macro_close() -> Seq<u8> {
    seq![37u8, 101u8, 110u8, 100u8, 109u8, 97u8, 99u8, 114u8, 111u8]
}

/// The bytes of the file-splicing directive keyword.
pub open spec fn kw_splice() -> Seq<u8> {
    seq![37u8, 105u8, 110u8, 99u8, 108u8, 117u8, 100u8, 101u8]
}

/// A macro definition: the declared (inert) argument count and the body
/// text captured verbatim.
pub struct MacroDef {
    /// The argument count declared at `%macro`; recorded, never consumed.
    pub argnum: u8,
    /// The captured body lines, each with its newline.
    pub body: Vec<u8>,
}

/// The mathematical shape of a [`MacroDef`].
pub ghost struct SpecMacroDef {
    pub argnum: u8,
    pub body: Seq<u8>,
}

impl DeepView for MacroDef {
    type V = SpecMacroDef;

    open spec fn deep_view(&self) -> SpecMacroDef {
        SpecMacroDef { argnum: self.argnum, body: self.body@ }
    }
}

/// View of the macro table as an association sequence.
pub open spec fn view_macros(t: Seq<(Vec<u8>, MacroDef)>) -> Seq<(Seq<u8>, SpecMacroDef)> {
    t.map_values(|e: (Vec<u8>, MacroDef)| (e.0@, e.1.deep_view()))
}

/// Looks a macro name up; the latest definition of a name wins.
pub open spec fn spec_lookup_macro(t: Seq<(Seq<u8>, SpecMacroDef)>, name: Seq<u8>) -> Option<
    SpecMacroDef,
>
    decreases t.len(),
{
    if t.len() == 0 {
        None
    } else if t.last().0 == name {
        Some(t.last().1)
    } else {
        spec_lookup_macro(t.drop_last(), name)
    }
}

/// The marker comment opening an expansion: `; macro ` then the name.
pub open spec fn spec_marker_open(name: Seq<u8>) -> Seq<u8> {
    seq![59u8, 32u8, 109u8, 97u8, 99u8, 114u8, 111u8, 32u8] + name + seq![BYTE_NEWLINE]
}

/// The marker comment closing an expansion: `; endmacro` then the name.
pub open spec fn spec_marker_close(name: Seq<u8>) -> Seq<u8> {
    seq![59u8, 32u8, 101u8, 110u8, 100u8, 109u8, 97u8, 99u8, 114u8, 111u8] + name + seq![
        BYTE_NEWLINE,
    ]
}

/// The declared argument count: a decimal literal of at most 255.
pub open spec fn spec_parse_argnum(tok: Seq<u8>) -> Option<u8> {
    match spec_parse_radix(tok, 10) {
        Some(v) => if v <= 255 {
            Some(v as u8)
        } else {
            None
        },
        None => None,
    }
}

/// One line of macro processing, from line `i` with the table built so far,
/// the capture state (`mode` with the pending name, argument count and body)
/// and the output so far. Lines without tokens are dropped. `%macro` opens
/// capture (fatal while capturing), `%endmacro` commits the pending
/// definition; while capturing, every other line is appended verbatim to the
/// body. Outside capture, a line whose first token names a defined macro is
/// replaced by the markers around the stored body; every other line passes
/// through unchanged with its newline.
pub open spec fn spec_macro_go(
    lines: Seq<Seq<u8>>,
    i: int,
    table: Seq<(Seq<u8>, SpecMacroDef)>,
    mode: bool,
    cur_name: Seq<u8>,
    cur_argnum: u8,
    cur_body: Seq<u8>,
    out: Seq<u8>,
) -> Result<Seq<u8>, SpecPpError>
    decreases lines.len() - i,
{
    if i < 0 || i >= lines.len() {
        Ok(out)
    } else {
        let ws = spec_splitter(lines[i]);
        let line = (i + 1) as usize;
        if ws.len() == 0 {
            spec_macro_go(lines, i + 1, table, mode, cur_name, cur_argnum, cur_body, out)
        } else if ws[0] == kw_macro_open() {
            if mode {
                Err(SpecPpError::NestedMacro { line })
            } else if ws.len() < 3 {
                Err(SpecPpError::MacroHeader { line })
            } else {
                match spec_parse_argnum(ws[2]) {
                    None => Err(SpecPpError::MacroHeader { line }),
                    Some(n) => spec_macro_go(
                        lines,
                        i + 1,
                        table,
                        true,
                        ws[1],
                        n,
                        Seq::empty(),
                        out,
                    ),
                }
            }
        } else if ws[0] == kw_macro_close() {
            spec_macro_go(
                lines,
                i + 1,
                table.push((cur_name, SpecMacroDef { argnum: cur_argnum, body: cur_body })),
                false,
                cur_name,
                cur_argnum,
                Seq::empty(),
                out,
            )
        } else if mode {
            spec_macro_go(
                lines,
                i + 1,
                table,
                true,
                cur_name,
                cur_argnum,
                cur_body + lines[i] + seq![BYTE_NEWLINE],
                out,
            )
        } else {
            match spec_lookup_macro(table, ws[0]) {
                Some(def) => spec_macro_go(
                    lines,
                    i + 1,
                    table,
                    false,
                    cur_name,
                    cur_argnum,
                    cur_body,
                    out + spec_marker_open(ws[0]) + def.body + spec_marker_close(ws[0]),
                ),
                None => spec_macro_go(
                    lines,
                    i + 1,
                    table,
                    false,
                    cur_name,
                    cur_argnum,
                    cur_body,
                    out + lines[i] + seq![BYTE_NEWLINE],
                ),
            }
        }
    }
}

/// The whole macro pass over a text.
pub open spec fn spec_preprocessor_macro(text: Seq<u8>) -> Result<Seq<u8>, SpecPpError> {
    spec_macro_go(
        spec_lines(text),
        0,
        Seq::empty(),
        false,
        Seq::empty(),
        0,
        Seq::empty(),
        Seq::empty(),
    )
}

/// Appends a byte string to a buffer.
fn append_bytes(out: &mut Vec<u8>, s: &[u8])
    ensures
        final(out)@ == old(out)@ + s@,
{
    let mut i: usize = 0;
    while i < s.len()
        invariant
            i <= s@.len(),
            out@ == old(out)@ + s@.take(i as int),
        decreases s@.len() - i,
    {
        out.push(s[i]);
        proof {
            assert(old(out)@ + s@.take(i as int + 1) =~= (old(out)@ + s@.take(i as int)).push(
                s@[i as int],
            ));
        }
        i = i + 1;
    }
    proof {
        assert(s@.take(s@.len() as int) =~= s@);
    }
}

/// The `%macro` keyword as a byte vector.
fn kw_macro_open_vec() -> (v: Vec<u8>)
    ensures
        v@ == kw_macro_open(),
{
    let mut v: Vec<u8> = Vec::new();
    v.push(37);
    v.push(109);
    v.push(97);
    v.push(99);
    v.push(114);
    v.push(111);
    proof {
        assert(v@ =~= kw_macro_open());
    }
    v
}

/// The `%endmacro` keyword as a byte vector.
fn kw_macro_close_vec() -> (v: Vec<u8>)
    ensures
        v@ == kw_macro_close(),
{
    let mut v: Vec<u8> = Vec::new();
    v.push(37);
    v.push(101);
    v.push(110);
    v.push(100);
    v.push(109);
    v.push(97);
    v.push(99);
    v.push(114);
    v.push(111);
    proof {
        assert(v@ =~= kw_macro_close());
    }
    v
}

/// The file-splicing directive keyword as a byte vector.
fn kw_splice_vec() -> (v: Vec<u8>)
    ensures
        v@ == kw_splice(),
{
    let mut v: Vec<u8> = Vec::new();
    v.push(37);
    v.push(105);
    v.push(110);
    v.push(99);
    v.push(108);
    v.push(117);
    v.push(100);
    v.push(101);
    proof {
        assert(v@ =~= kw_splice());
    }
    v
}

/// Appends the opening marker comment for `name`.
fn push_marker_open(out: &mut Vec<u8>, name: &[u8])
    ensures
        final(out)@ == old(out)@ + spec_marker_open(name@),
{
    let ghost base = out@;
    out.push(59);
    out.push(32);
    out.push(109);
    out.push(97);
    out.push(99);
    out.push(114);
    out.push(111);
    out.push(32);
    append_bytes(out, name);
    out.push(BYTE_NEWLINE);
    proof {
        assert(out@ =~= base + spec_marker_open(name@));
    }
}

/// Appends the closing marker comment for `name`.
fn push_marker_close(out: &mut Vec<u8>, name: &[u8])
    ensures
        final(out)@ == old(out)@ + spec_marker_close(name@),
{
    let ghost base = out@;
    out.push(59);
    out.push(32);
    out.push(101);
    out.push(110);
    out.push(100);
    out.push(109);
    out.push(97);
    out.push(99);
    out.push(114);
    out.push(111);
    append_bytes(out, name);
    out.push(BYTE_NEWLINE);
    proof {
        assert(out@ =~= base + spec_marker_close(name@));
    }
}

/// Looks a macro up and hands back a copy of its body, or `None`.
fn lookup_macro_body(t: &Vec<(Vec<u8>, MacroDef)>, name: &[u8]) -> (r: Option<Vec<u8>>)
    ensures
        match spec_lookup_macro(view_macros(t@), name@) {
            Some(def) => r is Some && r.unwrap()@ == def.body,
            None => r is None,
        },
{
    let ghost tv = view_macros(t@);
    let mut i: usize = t.len();
    proof {
        assert(tv.take(t@.len() as int) =~= tv);
        assert(tv.len() == t@.len());
        assert(forall|j: int|
            0 <= j < t@.len() ==> tv[j] == (t@[j].0@, t@[j].1.deep_view()));
    }
    while i > 0
        invariant
            i <= t@.len(),
            tv == view_macros(t@),
            tv.len() == t@.len(),
            forall|j: int| 0 <= j < t@.len() ==> tv[j] == (t@[j].0@, t@[j].1.deep_view()),
            spec_lookup_macro(tv.take(i as int), name@) == spec_lookup_macro(tv, name@),
        decreases i,
    {
        i = i - 1;
        if bytes_eq(t[i].0.as_slice(), name) {
            proof {
                assert(tv.take(i as int + 1).last() == tv[i as int]);
            }
            return Some(clone_bytes(&t[i].1.body));
        }
        proof {
            assert(tv.take(i as int + 1).drop_last() =~= tv.take(i as int));
        }
    }
    proof {
        assert(tv.take(0) =~= Seq::<(Seq<u8>, SpecMacroDef)>::empty());
    }
    None
}

/// The macro pass: captures `%macro` ... `%endmacro` definitions and
/// replaces each later invocation line by the stored body between marker
/// comments; see [`spec_macro_go`]. Lines without tokens are dropped, and
/// the declared argument count, though recorded, never alters the body.
pub fn preprocessor_macro(assembly_code: &[u8]) -> (r: Result<Vec<u8>, PpError>)
    ensures
        match r {
            Ok(out) => spec_preprocessor_macro(assembly_code@) == Ok::<Seq<u8>, SpecPpError>(out@),
            Err(e) => spec_preprocessor_macro(assembly_code@) == Err::<Seq<u8>, SpecPpError>(
                e.deep_view(),
            ),
        },
{
    let lines = split_lines(assembly_code);
    let ghost linesv = lines.deep_view();
    proof {
        assert(linesv.len() == lines@.len());
        assert(forall|j: int| 0 <= j < lines@.len() ==> linesv[j] == lines@[j]@);
    }
    let mut table: Vec<(Vec<u8>, MacroDef)> = Vec::new();
    let mut mode: bool = false;
    let mut cur_name: Vec<u8> = Vec::new();
    let mut cur_argnum: u8 = 0;
    let mut cur_body: Vec<u8> = Vec::new();
    let mut out: Vec<u8> = Vec::new();
    let mut i: usize = 0;
    proof {
        assert(view_macros(table@) =~= Seq::<(Seq<u8>, SpecMacroDef)>::empty());
        assert(cur_name@ =~= Seq::<u8>::empty());
        assert(cur_body@ =~= Seq::<u8>::empty());
        assert(out@ =~= Seq::<u8>::empty());
    }
    while i < lines.len()
        invariant
            linesv == lines.deep_view(),
            linesv.len() == lines@.len(),
            forall|j: int| 0 <= j < lines@.len() ==> linesv[j] == lines@[j]@,
            spec_preprocessor_macro(assembly_code@) == spec_macro_go(
                linesv,
                i as int,
                view_macros(table@),
                mode,
                cur_name@,
                cur_argnum,
                cur_body@,
                out@,
            ),
        decreases lines@.len() - i,
    {
        let words = splitter(lines[i].as_slice());
        let ghost ws = spec_splitter(linesv[i as int]);
        proof {
            assert(words.deep_view() == ws);
            assert(forall|j: int| 0 <= j < words@.len() ==> ws[j] == words@[j]@);
        }
        let linenum = i + 1;
        if words.len() == 0 {
        } else if bytes_eq(words[0].as_slice(), kw_macro_open_vec().as_slice()) {
            if mode {
                return Err(PpError::NestedMacro { line: linenum });
            }
            if words.len() < 3 {
                return Err(PpError::MacroHeader { line: linenum });
            }
            proof {
                assert(words@[2 as int]@ == ws[2]);
                assert(words@[2 as int]@.skip(0) =~= ws[2]);
            }
            let n: u8 = match parse_radix(words[2].as_slice(), 0, 10) {
                Some(v) => if v <= 255 {
                    v as u8
                } else {
                    return Err(PpError::MacroHeader { line: linenum });
                },
                None => {
                    return Err(PpError::MacroHeader { line: linenum });
                },
            };
            proof {
                assert(words[1 as int]@ == ws[1]);
            }
            mode = true;
            cur_name = clone_bytes(&words[1]);
            cur_argnum = n;
            cur_body = Vec::new();
            proof {
                assert(cur_body@ =~= Seq::<u8>::empty());
            }
        } else if bytes_eq(words[0].as_slice(), kw_macro_close_vec().as_slice()) {
            let ghost old_table = view_macros(table@);
            let name_copy = clone_bytes(&cur_name);
            let def = MacroDef { argnum: cur_argnum, body: cur_body };
            let ghost defv = def.deep_view();
            table.push((name_copy, def));
            proof {
                assert(view_macros(table@) =~= old_table.push((cur_name@, defv)));
            }
            mode = false;
            cur_body = Vec::new();
            proof {
                assert(cur_body@ =~= Seq::<u8>::empty());
            }
        } else if mode {
            let ghost prev_body = cur_body@;
            append_bytes(&mut cur_body, lines[i].as_slice());
            cur_body.push(BYTE_NEWLINE);
            proof {
                assert(cur_body@ =~= prev_body + linesv[i as int] + seq![BYTE_NEWLINE]);
            }
        } else {
            let ghost old_out = out@;
            match lookup_macro_body(&table, words[0].as_slice()) {
                Some(body) => {
                    push_marker_open(&mut out, words[0].as_slice());
                    append_bytes(&mut out, body.as_slice());
                    push_marker_close(&mut out, words[0].as_slice());
                    proof {
                        assert(out@ =~= old_out + spec_marker_open(ws[0]) + body@
                            + spec_marker_close(ws[0]));
                    }
                },
                None => {
                    append_bytes(&mut out, lines[i].as_slice());
                    out.push(BYTE_NEWLINE);
                    proof {
                        assert(out@ =~= old_out + linesv[i as int] + seq![BYTE_NEWLINE]);
                    }
                },
            }
        }
        i = i + 1;
    }
    Ok(out)
}

/// The macro law: outside capture, a line whose first token names a defined
/// macro contributes to the output exactly the opening marker, the stored
/// body verbatim and the closing marker, with the table and capture state
/// untouched. The equation mentions only the definition's body: the declared
/// argument count plays no part in the expansion, whatever it was.
pub proof fn lemma_macro_expansion_verbatim(
    lines: Seq<Seq<u8>>,
    i: int,
    table: Seq<(Seq<u8>, SpecMacroDef)>,
    cur_name: Seq<u8>,
    cur_argnum: u8,
    cur_body: Seq<u8>,
    out: Seq<u8>,
    def: SpecMacroDef,
)
    requires
        0 <= i < lines.len(),
        spec_splitter(lines[i]).len() > 0,
        spec_splitter(lines[i])[0] != kw_macro_open(),
        spec_splitter(lines[i])[0] != kw_macro_close(),
        spec_lookup_macro(table, spec_splitter(lines[i])[0]) == Some(def),
    ensures
        spec_macro_go(lines, i, table, false, cur_name, cur_argnum, cur_body, out)
            == spec_macro_go(
            lines,
            i + 1,
            table,
            false,
            cur_name,
            cur_argnum,
            cur_body,
            out + spec_marker_open(spec_splitter(lines[i])[0]) + def.body + spec_marker_close(
                spec_splitter(lines[i])[0],
            ),
        ),
{
}

/// Two macro tables that agree on every name and body, whatever the
/// declared argument counts.
pub open spec fn spec_tables_agree_but_argnum(
    t1: Seq<(Seq<u8>, SpecMacroDef)>,
    t2: Seq<(Seq<u8>, SpecMacroDef)>,
) -> bool {
    &&& t1.len() == t2.len()
    &&& forall|j: int|
        0 <= j < t1.len() ==> (#[trigger] t1[j]).0 == t2[j].0 && t1[j].1.body == t2[j].1.body
}

/// Lookups in tables that agree but for argument counts find the same
/// macros with the same bodies.
proof fn lemma_lookup_agrees_but_argnum(
    t1: Seq<(Seq<u8>, SpecMacroDef)>,
    t2: Seq<(Seq<u8>, SpecMacroDef)>,
    name: Seq<u8>,
)
    requires
        spec_tables_agree_but_argnum(t1, t2),
    ensures
        spec_lookup_macro(t1, name) is Some <==> spec_lookup_macro(t2, name) is Some,
        spec_lookup_macro(t1, name) is Some ==> spec_lookup_macro(t1, name)->Some_0.body
            == spec_lookup_macro(t2, name)->Some_0.body,
    decreases t1.len(),
{
    if t1.len() == 0 {
    } else {
        assert(t1[t1.len() - 1].0 == t2[t2.len() - 1].0);
        if t1.last().0 == name {
        } else {
            assert(forall|j: int|
                0 <= j < t1.drop_last().len() ==> (#[trigger] t1.drop_last()[j]) == t1[j]
                    && t2.drop_last()[j] == t2[j]);
            lemma_lookup_agrees_but_argnum(t1.drop_last(), t2.drop_last(), name);
        }
    }
}

/// The macro law in whole: the pass's entire outcome — output text or error
/// alike — depends on the captured names and bodies alone. Changing every
/// declared argument count, in the table and in the capture state, changes
/// nothing: the counts are recorded and inert.
pub proof fn lemma_macro_argnum_inert(
    lines: Seq<Seq<u8>>,
    i: int,
    t1: Seq<(Seq<u8>, SpecMacroDef)>,
    t2: Seq<(Seq<u8>, SpecMacroDef)>,
    mode: bool,
    cur_name: Seq<u8>,
    ca1: u8,
    ca2: u8,
    cur_body: Seq<u8>,
    out: Seq<u8>,
)
    requires
        spec_tables_agree_but_argnum(t1, t2),
    ensures
        spec_macro_go(lines, i, t1, mode, cur_name, ca1, cur_body, out) == spec_macro_go(
            lines,
            i,
            t2,
            mode,
            cur_name,
            ca2,
            cur_body,
            out,
        ),
    decreases lines.len() - i,
{
    if i < 0 || i >= lines.len() {
    } else {
        let ws = spec_splitter(lines[i]);
        if ws.len() == 0 {
            lemma_macro_argnum_inert(lines, i + 1, t1, t2, mode, cur_name, ca1, ca2, cur_body, out);
        } else if ws[0] == kw_macro_open() {
            if !mode && ws.len() >= 3 {
                if let Some(n) = spec_parse_argnum(ws[2]) {
                    lemma_macro_argnum_inert(
                        lines,
                        i + 1,
                        t1,
                        t2,
                        true,
                        ws[1],
                        n,
                        n,
                        Seq::empty(),
                        out,
                    );
                }
            }
        } else if ws[0] == kw_macro_close() {
            let p1 = t1.push((cur_name, SpecMacroDef { argnum: ca1, body: cur_body }));
            let p2 = t2.push((cur_name, SpecMacroDef { argnum: ca2, body: cur_body }));
            assert(forall|j: int|
                0 <= j < t1.len() ==> (#[trigger] p1[j]) == t1[j] && p2[j] == t2[j]);
            assert(spec_tables_agree_but_argnum(p1, p2));
            lemma_macro_argnum_inert(
                lines,
                i + 1,
                p1,
                p2,
                false,
                cur_name,
                ca1,
                ca2,
                Seq::empty(),
                out,
            );
        } else if mode {
            lemma_macro_argnum_inert(
                lines,
                i + 1,
                t1,
                t2,
                true,
                cur_name,
                ca1,
                ca2,
                cur_body + lines[i] + seq![BYTE_NEWLINE],
                out,
            );
        } else {
            lemma_lookup_agrees_but_argnum(t1, t2, ws[0]);
            match spec_lookup_macro(t1, ws[0]) {
                Some(def) => {
                    lemma_macro_argnum_inert(
                        lines,
                        i + 1,
                        t1,
                        t2,
                        false,
                        cur_name,
                        ca1,
                        ca2,
                        cur_body,
                        out + spec_marker_open(ws[0]) + def.body + spec_marker_close(ws[0]),
                    );
                },
                None => {
                    lemma_macro_argnum_inert(
                        lines,
                        i + 1,
                        t1,
                        t2,
                        false,
                        cur_name,
                        ca1,
                        ca2,
                        cur_body,
                        out + lines[i] + seq![BYTE_NEWLINE],
                    );
                },
            }
        }
    }
}

// ---------------------------------------------------------------------------
// File splicing.
/// The directory part of a path: the bytes before its last slash, empty when
/// it has none.
pub open spec fn spec_dirname(p: Seq<u8>) -> Seq<u8>
    decreases p.len(),
{
    if p.len() == 0 {
        Seq::empty()
    } else if p.last() == BYTE_SLASH {
        p.drop_last()
    } else {
        spec_dirname(p.drop_last())
    }
}

/// A token with every double-quote byte removed.
pub open spec fn spec_dequote(t: Seq<u8>) -> Seq<u8>
    decreases t.len(),
{
    if t.len() == 0 {
        Seq::empty()
    } else if t.first() == BYTE_QUOTE {
        spec_dequote(t.drop_first())
    } else {
        seq![t.first()] + spec_dequote(t.drop_first())
    }
}

/// A directive operand resolved against the directory of the file it stands
/// in: the directory, a slash, and the dequoted operand.
pub open spec fn spec_join_path(parent: Seq<u8>, name: Seq<u8>) -> Seq<u8> {
    parent + seq![BYTE_SLASH] + name
}

/// View of the file table as an association sequence of (path, contents).
pub open spec fn view_files(t: Seq<(Vec<u8>, Vec<u8>)>) -> Seq<(Seq<u8>, Seq<u8>)> {
    t.map_values(|e: (Vec<u8>, Vec<u8>)| (e.0@, e.1@))
}

/// The set of paths a file table holds.
pub open spec fn spec_paths(files: Seq<(Seq<u8>, Seq<u8>)>) -> Set<Seq<u8>> {
    files.map_values(|e: (Seq<u8>, Seq<u8>)| e.0).to_set()
}

/// Contents of the file at `path`; the first entry for a path wins.
pub open spec fn spec_lookup_file(files: Seq<(Seq<u8>, Seq<u8>)>, path: Seq<u8>) -> Option<Seq<u8>>
    decreases files.len(),
{
    if files.len() == 0 {
        None
    } else if files.first().0 == path {
        Some(files.first().1)
    } else {
        spec_lookup_file(files.drop_first(), path)
    }
}

/// A path with a table entry is one of the table's paths.
proof fn lemma_lookup_file_in_paths(files: Seq<(Seq<u8>, Seq<u8>)>, path: Seq<u8>)
    requires
        spec_lookup_file(files, path) is Some,
    ensures
        spec_paths(files).contains(path),
    decreases files.len(),
{
    let mapped = files.map_values(|e: (Seq<u8>, Seq<u8>)| e.0);
    if files.len() == 0 {
    } else if files.first().0 == path {
        assert(mapped[0] == path);
        assert(mapped.contains(path));
    } else {
        lemma_lookup_file_in_paths(files.drop_first(), path);
        let mapped2 = files.drop_first().map_values(|e: (Seq<u8>, Seq<u8>)| e.0);
        assert(mapped2.contains(path));
        let j = choose|j: int| 0 <= j < mapped2.len() && mapped2[j] == path;
        assert(mapped[j + 1] == path);
        assert(mapped.contains(path));
    }
}

/// How many of the table's paths are not yet in `visited`: the measure that
/// shrinks whenever a new file is spliced in, bounding the recursion.
pub open spec fn spec_unvisited_count(files: Seq<(Seq<u8>, Seq<u8>)>, visited: Set<Seq<u8>>) -> nat {
    spec_paths(files).difference(visited).len()
}

/// Growing the visited set never grows the measure.
proof fn lemma_unvisited_superset(
    files: Seq<(Seq<u8>, Seq<u8>)>,
    v1: Set<Seq<u8>>,
    v2: Set<Seq<u8>>,
)
    requires
        v1.subset_of(v2),
    ensures
        spec_unvisited_count(files, v2) <= spec_unvisited_count(files, v1),
{
    broadcast use vstd::seq_lib::seq_to_set_is_finite;

    let paths = spec_paths(files);
    let d1 = paths.difference(v1);
    let d2 = paths.difference(v2);
    assert(d2.subset_of(d1));
    assert(d1.subset_of(paths));
    vstd::set_lib::lemma_len_subset(d1, paths);
    vstd::set_lib::lemma_len_subset(d2, d1);
}

/// The resolution of a list of source lines against a file table. A plain
/// line passes through with its newline. A line whose first token is the
/// splicing directive names a file: a repeat of a path already visited is
/// fatal, a path without a table entry is fatal, and otherwise the named
/// file's lines are resolved in its own directory — with the path recorded
/// in the visited set for the whole rest of the expansion — and their output
/// stands in place of the directive line. The result carries the output text
/// and the set of paths newly recorded.
pub open spec fn spec_resolve_lines(
    files: Seq<(Seq<u8>, Seq<u8>)>,
    lines: Seq<Seq<u8>>,
    parent: Seq<u8>,
    visited: Set<Seq<u8>>,
    lineno: int,
) -> Result<(Seq<u8>, Set<Seq<u8>>), SpecPpError>
    decreases spec_unvisited_count(files, visited), lines.len(),
    via spec_resolve_lines_decreases
{
    if lines.len() == 0 {
        Ok((Seq::empty(), Set::empty()))
    } else {
        let ws = spec_splitter(lines[0]);
        if ws.len() > 0 && ws[0] == kw_splice() {
            if ws.len() < 2 {
                Err(SpecPpError::DirectiveSyntax { line: lineno as usize })
            } else {
                let fname = spec_join_path(parent, spec_dequote(ws[1]));
                if visited.contains(fname) {
                    Err(SpecPpError::RepeatInclusion { path: fname })
                } else {
                    match spec_lookup_file(files, fname) {
                        None => Err(SpecPpError::FileNotFound { path: fname }),
                        Some(contents) => match spec_resolve_lines(
                            files,
                            spec_lines(contents),
                            spec_dirname(fname),
                            visited.insert(fname),
                            1,
                        ) {
                            Err(e) => Err(e),
                            Ok(inner) => match spec_resolve_lines(
                                files,
                                lines.drop_first(),
                                parent,
                                visited.insert(fname).union(inner.1),
                                lineno + 1,
                            ) {
                                Err(e) => Err(e),
                                Ok(rest) => Ok(
                                    (inner.0 + rest.0, inner.1.insert(fname).union(rest.1)),
                                ),
                            },
                        },
                    }
                }
            }
        } else {
            match spec_resolve_lines(files, lines.drop_first(), parent, visited, lineno + 1) {
                Err(e) => Err(e),
                Ok(rest) => Ok((lines[0] + seq![BYTE_NEWLINE] + rest.0, rest.1)),
            }
        }
    }
}

/// The set of paths a list of path strings holds.
pub open spec fn set_view(l: Seq<Vec<u8>>) -> Set<Seq<u8>> {
    l.map_values(|v: Vec<u8>| v@).to_set()
}

/// Recording one more path in the list records exactly it in the set.
proof fn lemma_set_view_push(l: Seq<Vec<u8>>, x: Vec<u8>)
    ensures
        set_view(l.push(x)) == set_view(l).insert(x@),
{
    let m1 = l.push(x).map_values(|v: Vec<u8>| v@);
    let m0 = l.map_values(|v: Vec<u8>| v@);
    assert(m1 =~= m0.push(x@));
    assert forall|a: Seq<u8>| #[trigger] m1.contains(a) implies m0.contains(a) || a == x@ by {
        let j = choose|j: int| 0 <= j < m1.len() && m1[j] == a;
        if j < m0.len() {
            assert(m0[j] == a);
            assert(m0.contains(a));
        }
    }
    assert forall|a: Seq<u8>| #[trigger] m0.contains(a) implies m1.contains(a) by {
        let j = choose|j: int| 0 <= j < m0.len() && m0[j] == a;
        assert(m1[j] == a);
    }
    assert(m1.contains(x@)) by {
        assert(m1[m0.len() as int] == x@);
    }
    assert(set_view(l.push(x)) =~= set_view(l).insert(x@));
}

/// The directory part of a path; see [`spec_dirname`].
fn dirname_bytes(p: &[u8]) -> (r: Vec<u8>)
    ensures
        r@ == spec_dirname(p@),
{
    let mut k: usize = p.len();
    while k > 0
        invariant
            k <= p@.len(),
            forall|j: int| k <= j < p@.len() ==> p@[j] != BYTE_SLASH,
        decreases k,
    {
        if p[k - 1] == BYTE_SLASH {
            proof {
                lemma_dirname_at(p@, k as int);
            }
            let mut r: Vec<u8> = Vec::new();
            let mut i: usize = 0;
            while i < k - 1
                invariant
                    i <= k - 1 < p@.len(),
                    r@ == p@.take(k as int - 1).take(i as int),
                decreases k - i,
            {
                r.push(p[i]);
                proof {
                    assert(p@.take(k as int - 1).take(i as int + 1) =~= p@.take(
                        k as int - 1,
                    ).take(i as int).push(p@[i as int]));
                }
                i = i + 1;
            }
            proof {
                assert(p@.take(k as int - 1).take(k as int - 1) =~= p@.take(k as int - 1));
            }
            return r;
        }
        k = k - 1;
    }
    proof {
        lemma_dirname_at(p@, 0);
    }
    Vec::new()
}

/// [`spec_dirname`] pinned down by the position after the last slash: when
/// no slash stands at or after `k`, the directory is the bytes before `k`
/// minus the slash at `k - 1`, or empty when `k` is zero.
proof fn lemma_dirname_at(p: Seq<u8>, k: int)
    requires
        0 <= k <= p.len(),
        forall|j: int| k <= j < p.len() ==> p[j] != BYTE_SLASH,
        k > 0 ==> p[k - 1] == BYTE_SLASH,
    ensures
        spec_dirname(p) == if k == 0 {
            Seq::<u8>::empty()
        } else {
            p.take(k - 1)
        },
    decreases p.len(),
{
    if p.len() == 0 {
    } else if p.last() == BYTE_SLASH {
        assert(k == p.len());
        assert(p.drop_last() =~= p.take(k - 1));
    } else {
        assert(k < p.len());
        lemma_dirname_at(p.drop_last(), k);
        if k > 0 {
            assert(p.drop_last().take(k - 1) =~= p.take(k - 1));
        }
    }
}

/// Removes the double-quote bytes of a token; see [`spec_dequote`].
fn dequote_bytes(t: &[u8]) -> (r: Vec<u8>)
    ensures
        r@ == spec_dequote(t@),
{
    let mut r: Vec<u8> = Vec::new();
    let mut i: usize = 0;
    proof {
        assert(t@.skip(0) =~= t@);
        assert(Seq::<u8>::empty() + spec_dequote(t@) =~= spec_dequote(t@));
    }
    while i < t.len()
        invariant
            i <= t@.len(),
            spec_dequote(t@) == r@ + spec_dequote(t@.skip(i as int)),
        decreases t@.len() - i,
    {
        let ghost rest = t@.skip(i as int);
        proof {
            assert(rest.first() == t@[i as int]);
            assert(rest.drop_first() =~= t@.skip(i as int + 1));
        }
        if t[i] != BYTE_QUOTE {
            let ghost old_r = r@;
            r.push(t[i]);
            proof {
                assert(r@ =~= old_r + seq![t@[i as int]]);
                assert(old_r + (seq![t@[i as int]] + spec_dequote(t@.skip(i as int + 1))) =~= r@
                    + spec_dequote(t@.skip(i as int + 1)));
            }
        }
        i = i + 1;
    }
    proof {
        assert(t@.skip(t@.len() as int) =~= Seq::<u8>::empty());
        assert(r@ + Seq::<u8>::empty() =~= r@);
    }
    r
}

/// Joins a directory and a file name; see [`spec_join_path`].
fn join_path(parent: &[u8], name: &[u8]) -> (r: Vec<u8>)
    ensures
        r@ == spec_join_path(parent@, name@),
{
    let mut r: Vec<u8> = Vec::new();
    append_bytes(&mut r, parent);
    r.push(BYTE_SLASH);
    append_bytes(&mut r, name);
    proof {
        assert(r@ =~= spec_join_path(parent@, name@));
    }
    r
}

/// Looks a path up in the file table and copies its contents; see
/// [`spec_lookup_file`].
fn lookup_file(files: &Vec<(Vec<u8>, Vec<u8>)>, path: &[u8]) -> (r: Option<Vec<u8>>)
    ensures
        match spec_lookup_file(view_files(files@), path@) {
            Some(c) => r is Some && r.unwrap()@ == c,
            None => r is None,
        },
{
    let ghost fv = view_files(files@);
    proof {
        assert(fv.len() == files@.len());
        assert(forall|j: int|
            0 <= j < files@.len() ==> fv[j] == (files@[j].0@, files@[j].1@));
        assert(fv.skip(0) =~= fv);
    }
    let mut i: usize = 0;
    while i < files.len()
        invariant
            i <= files@.len(),
            fv == view_files(files@),
            fv.len() == files@.len(),
            forall|j: int| 0 <= j < files@.len() ==> fv[j] == (files@[j].0@, files@[j].1@),
            spec_lookup_file(fv, path@) == spec_lookup_file(fv.skip(i as int), path@),
        decreases files@.len() - i,
    {
        let ghost rest = fv.skip(i as int);
        proof {
            assert(rest.first() == fv[i as int]);
            assert(rest.drop_first() =~= fv.skip(i as int + 1));
        }
        if bytes_eq(files[i].0.as_slice(), path) {
            return Some(clone_bytes(&files[i].1));
        }
        i = i + 1;
    }
    proof {
        assert(fv.skip(fv.len() as int) =~= Seq::<(Seq<u8>, Seq<u8>)>::empty());
    }
    None
}

/// True when the list already records this path.
fn contains_path(fnamelist: &Vec<Vec<u8>>, path: &[u8]) -> (r: bool)
    ensures
        r == set_view(fnamelist@).contains(path@),
{
    let ghost m = fnamelist@.map_values(|v: Vec<u8>| v@);
    proof {
        assert(m.len() == fnamelist@.len());
        assert(forall|j: int| 0 <= j < fnamelist@.len() ==> m[j] == fnamelist@[j]@);
    }
    let mut i: usize = 0;
    while i < fnamelist.len()
        invariant
            i <= fnamelist@.len(),
            m == fnamelist@.map_values(|v: Vec<u8>| v@),
            m.len() == fnamelist@.len(),
            forall|j: int| 0 <= j < fnamelist@.len() ==> m[j] == fnamelist@[j]@,
            forall|j: int| 0 <= j < i ==> m[j] != path@,
        decreases fnamelist@.len() - i,
    {
        if bytes_eq(fnamelist[i].as_slice(), path) {
            proof {
                assert(m[i as int] == path@);
                assert(m.contains(path@));
            }
            return true;
        }
        i = i + 1;
    }
    proof {
        assert(!m.contains(path@));
    }
    false
}

/// Resolves every file-splicing directive of `assembly_code` (loaded from
/// `filename`) against the file table `files`, replacing each directive line
/// by the fully resolved contents of the file it names; `fnamelist` records
/// every path spliced in, across the whole expansion, and a repeat of any
/// recorded path is the fatal repeat-inclusion error. See
/// [`spec_resolve_lines`].
pub fn preprocessor_inclusion(
    files: &Vec<(Vec<u8>, Vec<u8>)>,
    assembly_code: &[u8],
    filename: &[u8],
    fnamelist: &mut Vec<Vec<u8>>,
) -> (r: Result<Vec<u8>, PpError>)
    ensures
        match r {
            Ok(out) => ({
                let res = spec_resolve_lines(
                    view_files(files@),
                    spec_lines(assembly_code@),
                    spec_dirname(filename@),
                    set_view(old(fnamelist)@),
                    1,
                );
                &&& res is Ok
                &&& out@ == res->Ok_0.0
                &&& set_view(final(fnamelist)@) == set_view(old(fnamelist)@).union(res->Ok_0.1)
            }),
            Err(e) => spec_resolve_lines(
                view_files(files@),
                spec_lines(assembly_code@),
                spec_dirname(filename@),
                set_view(old(fnamelist)@),
                1,
            ) == Err::<(Seq<u8>, Set<Seq<u8>>), SpecPpError>(e.deep_view()),
        },
    decreases spec_unvisited_count(view_files(files@), set_view(old(fnamelist)@)),
{
    let ghost filesv = view_files(files@);
    let ghost visited0 = set_view(old(fnamelist)@);
    let ghost full = spec_resolve_lines(
        filesv,
        spec_lines(assembly_code@),
        spec_dirname(filename@),
        visited0,
        1,
    );
    let parent = dirname_bytes(filename);
    let lines = split_lines(assembly_code);
    let ghost linesv = lines.deep_view();
    proof {
        assert(linesv.len() == lines@.len());
        assert(forall|j: int| 0 <= j < lines@.len() ==> linesv[j] == lines@[j]@);
        assert(linesv.skip(0) =~= linesv);
        assert(visited0.union(Set::<Seq<u8>>::empty()) =~= visited0);
    }
    let mut out: Vec<u8> = Vec::new();
    let ghost mut added: Set<Seq<u8>> = Set::empty();
    let mut i: usize = 0;
    proof {
        assert(out@ =~= Seq::<u8>::empty());
        match spec_resolve_lines(filesv, linesv, parent@, visited0, 1) {
            Ok(rest) => {
                assert(out@ + rest.0 =~= rest.0);
                assert(added.union(rest.1) =~= rest.1);
            },
            Err(_) => {},
        }
    }
    while i < lines.len()
        invariant
            i <= lines@.len(),
            filesv == view_files(files@),
            visited0 == set_view(old(fnamelist)@),
            full == spec_resolve_lines(filesv, spec_lines(assembly_code@), spec_dirname(filename@), visited0, 1),
            parent@ == spec_dirname(filename@),
            linesv == lines.deep_view(),
            linesv.len() == lines@.len(),
            forall|j: int| 0 <= j < lines@.len() ==> linesv[j] == lines@[j]@,
            set_view(fnamelist@) == visited0.union(added),
            match spec_resolve_lines(filesv, linesv.skip(i as int), parent@, set_view(fnamelist@), i as int + 1) {
                Ok(rest) => full == Ok::<(Seq<u8>, Set<Seq<u8>>), SpecPpError>(
                    (out@ + rest.0, added.union(rest.1)),
                ),
                Err(e) => full == Err::<(Seq<u8>, Set<Seq<u8>>), SpecPpError>(e),
            },
        decreases lines@.len() - i,
    {
        let ghost restl = linesv.skip(i as int);
        let ghost cur_visited = set_view(fnamelist@);
        proof {
            assert(restl.len() > 0);
            assert(restl[0] == linesv[i as int]);
            assert(restl.drop_first() =~= linesv.skip(i as int + 1));
        }
        let words = splitter(lines[i].as_slice());
        let ghost ws = spec_splitter(linesv[i as int]);
        proof {
            assert(words.deep_view() == ws);
            assert(forall|j: int| 0 <= j < words@.len() ==> ws[j] == words@[j]@);
        }
        let mut is_directive = false;
        if words.len() > 0 {
            if bytes_eq(words[0].as_slice(), kw_splice_vec().as_slice()) {
                is_directive = true;
            }
        }
        if is_directive {
            if words.len() < 2 {
                return Err(PpError::DirectiveSyntax { line: i + 1 });
            }
            let nm = dequote_bytes(words[1].as_slice());
            let fname = join_path(parent.as_slice(), nm.as_slice());
            proof {
                assert(fname@ == spec_join_path(parent@, spec_dequote(ws[1])));
            }
            if contains_path(fnamelist, fname.as_slice()) {
                return Err(PpError::RepeatInclusion { path: fname });
            }
            let ghost fnamev = fname@;
            let ghost old_added = added;
            let fname_rec = clone_bytes(&fname);
            let ghost pre_list = fnamelist@;
            fnamelist.push(fname_rec);
            proof {
                lemma_set_view_push(pre_list, fname_rec);
                added = added.insert(fnamev);
                assert(set_view(fnamelist@) == cur_visited.insert(fnamev));
                assert(set_view(fnamelist@) =~= visited0.union(added));
            }
            match lookup_file(files, fname.as_slice()) {
                None => {
                    return Err(PpError::FileNotFound { path: fname });
                },
                Some(contents) => {
                    proof {
                        lemma_lookup_file_in_paths(filesv, fnamev);
                        spec_paths(filesv).lemma_set_insert_diff_decreases(cur_visited, fnamev);
                        lemma_unvisited_superset(filesv, visited0, cur_visited);
                    }
                    let ghost inner_spec = spec_resolve_lines(
                        filesv,
                        spec_lines(contents@),
                        spec_dirname(fnamev),
                        cur_visited.insert(fnamev),
                        1,
                    );
                    match preprocessor_inclusion(
                        files,
                        contents.as_slice(),
                        fname.as_slice(),
                        fnamelist,
                    ) {
                        Err(e) => {
                            return Err(e);
                        },
                        Ok(inner) => {
                            let ghost old_out = out@;
                            append_bytes(&mut out, inner.as_slice());
                            proof {
                                let iv = inner_spec->Ok_0;
                                added = old_added.insert(fnamev).union(iv.1);
                                assert(set_view(fnamelist@) == cur_visited.insert(fnamev).union(
                                    iv.1,
                                ));
                                assert(set_view(fnamelist@) =~= visited0.union(added));
                                match spec_resolve_lines(
                                    filesv,
                                    linesv.skip(i as int + 1),
                                    parent@,
                                    set_view(fnamelist@),
                                    i as int + 2,
                                ) {
                                    Ok(rest) => {
                                        assert(old_out + (iv.0 + rest.0) =~= out@ + rest.0);
                                        assert(old_added.union(iv.1.insert(fnamev).union(rest.1))
                                            =~= added.union(rest.1));
                                    },
                                    Err(_) => {},
                                }
                            }
                        },
                    }
                },
            }
        } else {
            let ghost old_out = out@;
            append_bytes(&mut out, lines[i].as_slice());
            out.push(BYTE_NEWLINE);
            proof {
                assert(out@ =~= old_out + linesv[i as int] + seq![BYTE_NEWLINE]);
                match spec_resolve_lines(
                    filesv,
                    linesv.skip(i as int + 1),
                    parent@,
                    set_view(fnamelist@),
                    i as int + 2,
                ) {
                    Ok(rest) => {
                        assert(old_out + (linesv[i as int] + seq![BYTE_NEWLINE] + rest.0) =~= out@
                            + rest.0);
                    },
                    Err(_) => {},
                }
            }
        }
        i = i + 1;
    }
    proof {
        assert(linesv.skip(linesv.len() as int) =~= Seq::<Seq<u8>>::empty());
        assert(out@ + Seq::<u8>::empty() =~= out@);
        assert(added.union(Set::<Seq<u8>>::empty()) =~= added);
    }
    Ok(out)
}

/// True when `line` is a splicing directive that must fail under `visited`:
/// it lacks a path operand, or the path it resolves to against `parent` is
/// already recorded.
pub open spec fn spec_line_repeats(line: Seq<u8>, parent: Seq<u8>, visited: Set<Seq<u8>>) -> bool {
    let ws = spec_splitter(line);
    &&& ws.len() > 0
    &&& ws[0] == kw_splice()
    &&& (ws.len() >= 2 ==> visited.contains(spec_join_path(parent, spec_dequote(ws[1]))))
}

/// A line list holding a directive that names an already-recorded path
/// resolves to a fatal error, whatever stands on the other lines: lines
/// before it either fail themselves or only grow the recorded set, which
/// keeps the repeat a repeat.
pub proof fn lemma_repeat_line_fails(
    files: Seq<(Seq<u8>, Seq<u8>)>,
    lines: Seq<Seq<u8>>,
    parent: Seq<u8>,
    visited: Set<Seq<u8>>,
    lineno: int,
    k: int,
)
    requires
        0 <= k < lines.len(),
        spec_line_repeats(lines[k], parent, visited),
    ensures
        spec_resolve_lines(files, lines, parent, visited, lineno) is Err,
    decreases k,
{
    if k == 0 {
    } else {
        let ws0 = spec_splitter(lines[0]);
        assert(lines.drop_first()[k - 1] == lines[k]);
        if ws0.len() > 0 && ws0[0] == kw_splice() {
            if ws0.len() < 2 {
            } else {
                let fname = spec_join_path(parent, spec_dequote(ws0[1]));
                if visited.contains(fname) {
                } else {
                    match spec_lookup_file(files, fname) {
                        None => {},
                        Some(contents) => {
                            match spec_resolve_lines(
                                files,
                                spec_lines(contents),
                                spec_dirname(fname),
                                visited.insert(fname),
                                1,
                            ) {
                                Err(_) => {},
                                Ok(inner) => {
                                    lemma_repeat_line_fails(
                                        files,
                                        lines.drop_first(),
                                        parent,
                                        visited.insert(fname).union(inner.1),
                                        lineno + 1,
                                        k - 1,
                                    );
                                },
                            }
                        },
                    }
                }
            }
        } else {
            lemma_repeat_line_fails(files, lines.drop_first(), parent, visited, lineno + 1, k - 1);
        }
    }
}

/// A line list holding a directive whose target file fails to resolve under
/// every recorded set that contains the target resolves to a fatal error
/// itself.
proof fn lemma_poisoned_target_fails(
    files: Seq<(Seq<u8>, Seq<u8>)>,
    lines: Seq<Seq<u8>>,
    parent: Seq<u8>,
    visited: Set<Seq<u8>>,
    lineno: int,
    k: int,
    t: Seq<u8>,
    tc: Seq<u8>,
)
    requires
        0 <= k < lines.len(),
        spec_splitter(lines[k]).len() >= 2,
        spec_splitter(lines[k])[0] == kw_splice(),
        spec_join_path(parent, spec_dequote(spec_splitter(lines[k])[1])) == t,
        spec_lookup_file(files, t) == Some(tc),
        forall|v2: Set<Seq<u8>>|
            visited.insert(t).subset_of(v2) ==> (#[trigger] spec_resolve_lines(
                files,
                spec_lines(tc),
                spec_dirname(t),
                v2,
                1,
            )) is Err,
    ensures
        spec_resolve_lines(files, lines, parent, visited, lineno) is Err,
    decreases k,
{
    let ws0 = spec_splitter(lines[0]);
    if k == 0 {
        if visited.contains(t) {
        } else {
            assert(visited.insert(t).subset_of(visited.insert(t)));
            assert(spec_resolve_lines(files, spec_lines(tc), spec_dirname(t), visited.insert(t), 1)
                is Err);
        }
    } else {
        assert(lines.drop_first()[k - 1] == lines[k]);
        if ws0.len() > 0 && ws0[0] == kw_splice() {
            if ws0.len() < 2 {
            } else {
                let fname = spec_join_path(parent, spec_dequote(ws0[1]));
                if visited.contains(fname) {
                } else {
                    match spec_lookup_file(files, fname) {
                        None => {},
                        Some(contents) => {
                            match spec_resolve_lines(
                                files,
                                spec_lines(contents),
                                spec_dirname(fname),
                                visited.insert(fname),
                                1,
                            ) {
                                Err(_) => {},
                                Ok(inner) => {
                                    let v2 = visited.insert(fname).union(inner.1);
                                    assert forall|v3: Set<Seq<u8>>|
                                        v2.insert(t).subset_of(v3) implies (
                                    #[trigger] spec_resolve_lines(
                                        files,
                                        spec_lines(tc),
                                        spec_dirname(t),
                                        v3,
                                        1,
                                    )) is Err by {
                                        assert(visited.insert(t).subset_of(v3));
                                    }
                                    lemma_poisoned_target_fails(
                                        files,
                                        lines.drop_first(),
                                        parent,
                                        v2,
                                        lineno + 1,
                                        k - 1,
                                        t,
                                        tc,
                                    );
                                },
                            }
                        },
                    }
                }
            }
        } else {
            lemma_poisoned_target_fails(
                files,
                lines.drop_first(),
                parent,
                visited,
                lineno + 1,
                k - 1,
                t,
                tc,
            );
        }
    }
}

/// The repeat-inclusion law, direct form: resolving a file that splices
/// itself in again fails fatally — no output text, and so no machine code,
/// can come of it — whatever else the file holds and whatever the recorded
/// set held at entry.
pub proof fn lemma_self_inclusion_fails(
    files: Seq<(Seq<u8>, Seq<u8>)>,
    t: Seq<u8>,
    tc: Seq<u8>,
    visited: Set<Seq<u8>>,
    lineno: int,
    k: int,
)
    requires
        spec_lookup_file(files, t) == Some(tc),
        0 <= k < spec_lines(tc).len(),
        spec_splitter(spec_lines(tc)[k]).len() >= 2,
        spec_splitter(spec_lines(tc)[k])[0] == kw_splice(),
        spec_join_path(spec_dirname(t), spec_dequote(spec_splitter(spec_lines(tc)[k])[1])) == t,
    ensures
        spec_resolve_lines(files, spec_lines(tc), spec_dirname(t), visited, lineno) is Err,
{
    if visited.contains(t) {
        lemma_repeat_line_fails(files, spec_lines(tc), spec_dirname(t), visited, lineno, k);
    } else {
        assert forall|v2: Set<Seq<u8>>| visited.insert(t).subset_of(v2) implies (
        #[trigger] spec_resolve_lines(files, spec_lines(tc), spec_dirname(t), v2, 1)) is Err by {
            assert(v2.contains(t));
            lemma_repeat_line_fails(files, spec_lines(tc), spec_dirname(t), v2, 1, k);
        }
        lemma_poisoned_target_fails(
            files,
            spec_lines(tc),
            spec_dirname(t),
            visited,
            lineno,
            k,
            t,
            tc,
        );
    }
}

/// The repeat-inclusion law through an intermediate file: a file `p` that
/// splices `q` in, where `q` splices `p` back, fails fatally as well.
pub proof fn lemma_inclusion_cycle_fails(
    files: Seq<(Seq<u8>, Seq<u8>)>,
    p: Seq<u8>,
    cp: Seq<u8>,
    q: Seq<u8>,
    cq: Seq<u8>,
    visited: Set<Seq<u8>>,
    lineno: int,
    kp: int,
    kq: int,
)
    requires
        spec_lookup_file(files, p) == Some(cp),
        spec_lookup_file(files, q) == Some(cq),
        0 <= kp < spec_lines(cp).len(),
        spec_splitter(spec_lines(cp)[kp]).len() >= 2,
        spec_splitter(spec_lines(cp)[kp])[0] == kw_splice(),
        spec_join_path(spec_dirname(p), spec_dequote(spec_splitter(spec_lines(cp)[kp])[1])) == q,
        0 <= kq < spec_lines(cq).len(),
        spec_splitter(spec_lines(cq)[kq]).len() >= 2,
        spec_splitter(spec_lines(cq)[kq])[0] == kw_splice(),
        spec_join_path(spec_dirname(q), spec_dequote(spec_splitter(spec_lines(cq)[kq])[1])) == p,
    ensures
        spec_resolve_lines(files, spec_lines(cp), spec_dirname(p), visited, lineno) is Err,
{
    if visited.contains(q) {
        lemma_repeat_line_fails(files, spec_lines(cp), spec_dirname(p), visited, lineno, kp);
    } else {
        assert forall|v2: Set<Seq<u8>>| visited.insert(q).subset_of(v2) implies (
        #[trigger] spec_resolve_lines(files, spec_lines(cq), spec_dirname(q), v2, 1)) is Err by {
            assert(v2.contains(q));
            if v2.contains(p) {
                lemma_repeat_line_fails(files, spec_lines(cq), spec_dirname(q), v2, 1, kq);
            } else {
                assert forall|v3: Set<Seq<u8>>| v2.insert(p).subset_of(v3) implies (
                #[trigger] spec_resolve_lines(files, spec_lines(cp), spec_dirname(p), v3, 1))
                    is Err by {
                    assert(v3.contains(q));
                    lemma_repeat_line_fails(files, spec_lines(cp), spec_dirname(p), v3, 1, kp);
                }
                lemma_poisoned_target_fails(
                    files,
                    spec_lines(cq),
                    spec_dirname(q),
                    v2,
                    1,
                    kq,
                    p,
                    cp,
                );
            }
        }
        lemma_poisoned_target_fails(
            files,
            spec_lines(cp),
            spec_dirname(p),
            visited,
            lineno,
            kp,
            q,
            cq,
        );
    }
}

/// The whole preprocessing of a root source: every file-splicing directive
/// resolved (starting from an empty record of spliced paths), then all
/// macros expanded.
pub open spec fn spec_preprocess(
    files: Seq<(Seq<u8>, Seq<u8>)>,
    text: Seq<u8>,
    filename: Seq<u8>,
) -> Result<Seq<u8>, SpecPpError> {
    match spec_resolve_lines(
        files,
        spec_lines(text),
        spec_dirname(filename),
        Set::empty(),
        1,
    ) {
        Err(e) => Err(e),
        Ok(flat) => spec_preprocessor_macro(flat.0),
    }
}

/// Preprocesses a root source: file splicing, then macro expansion; see
/// [`spec_preprocess`]. This is the text the assembler takes.
pub fn preprocess(
    files: &Vec<(Vec<u8>, Vec<u8>)>,
    assembly_code: &[u8],
    filename: &[u8],
) -> (r: Result<Vec<u8>, PpError>)
    ensures
        match r {
            Ok(out) => spec_preprocess(view_files(files@), assembly_code@, filename@)
                == Ok::<Seq<u8>, SpecPpError>(out@),
            Err(e) => spec_preprocess(view_files(files@), assembly_code@, filename@)
                == Err::<Seq<u8>, SpecPpError>(e.deep_view()),
        },
{
    let mut fnamelist: Vec<Vec<u8>> = Vec::new();
    proof {
        assert(set_view(fnamelist@) =~= Set::<Seq<u8>>::empty());
    }
    let flat = match preprocessor_inclusion(files, assembly_code, filename, &mut fnamelist) {
        Ok(flat) => flat,
        Err(e) => {
            return Err(e);
        },
    };
    preprocessor_macro(flat.as_slice())
}

/// The determinism law for the whole toolchain front end: preprocessing is a
/// function of the file table, the root text and its path alone, and
/// assembling is a function of the preprocessed text alone — so identical
/// inputs always yield the identical CPU type and machine-word sequence.
pub proof fn lemma_toolchain_deterministic(
    files: Seq<(Seq<u8>, Seq<u8>)>,
    text: Seq<u8>,
    filename: Seq<u8>,
    t1: Result<Seq<u8>, SpecPpError>,
    t2: Result<Seq<u8>, SpecPpError>,
)
    requires
        t1 == spec_preprocess(files, text, filename),
        t2 == spec_preprocess(files, text, filename),
    ensures
        t1 == t2,
        t1 is Ok ==> crate::assembler::spec_assemble(t1->Ok_0) == crate::assembler::spec_assemble(
            t2->Ok_0,
        ),
{
}

#[via_fn]
proof fn spec_resolve_lines_decreases(
    files: Seq<(Seq<u8>, Seq<u8>)>,
    lines: Seq<Seq<u8>>,
    parent: Seq<u8>,
    visited: Set<Seq<u8>>,
    lineno: int,
) {
    broadcast use vstd::seq_lib::seq_to_set_is_finite;

    if lines.len() > 0 {
        let ws = spec_splitter(lines[0]);
        if ws.len() > 0 && ws[0] == kw_splice() && ws.len() >= 2 {
            let fname = spec_join_path(parent, spec_dequote(ws[1]));
            if !visited.contains(fname) && spec_lookup_file(files, fname) is Some {
                lemma_lookup_file_in_paths(files, fname);
                spec_paths(files).lemma_set_insert_diff_decreases(visited, fname);
                assert forall|x: Set<Seq<u8>>|
                    #[trigger] spec_unvisited_count(files, visited.insert(fname).union(x))
                        <= spec_unvisited_count(files, visited) by {
                    lemma_unvisited_superset(files, visited, visited.insert(fname).union(x));
                }
            }
        }
    }
}

} // verus!
