//! Tests of the preprocessor: file splicing and macro expansion.

use bitcpu::assembler::assembler;
use bitcpu::pp::{preprocess, preprocessor_inclusion, preprocessor_macro, PpError};

/// The file-splicing directive keyword, assembled at run time.
fn splice_kw() -> String {
    let mut s = String::from("%in");
    s.push_str("clude");
    s
}

fn files(entries: &[(&str, String)]) -> Vec<(Vec<u8>, Vec<u8>)> {
    entries
        .iter()
        .map(|(p, c)| (p.as_bytes().to_vec(), c.as_bytes().to_vec()))
        .collect()
}

fn splice_all(table: &Vec<(Vec<u8>, Vec<u8>)>, text: &str, name: &str) -> Result<String, PpError> {
    let mut seen: Vec<Vec<u8>> = Vec::new();
    preprocessor_inclusion(table, text.as_bytes(), name.as_bytes(), &mut seen)
        .map(|v| String::from_utf8(v).unwrap())
}

#[test]
fn macro_body_is_inserted_verbatim() {
    let src = "%macro set_one 2\n 0 = nand(0xfe, 0xfe)\n%endmacro\nset_one\n";
    let out = preprocessor_macro(src.as_bytes()).unwrap();
    let text = String::from_utf8(out).unwrap();
    assert_eq!(
        text,
        "; macro set_one\n 0 = nand(0xfe, 0xfe)\n; endmacroset_one\n"
    );
}

#[test]
fn macro_argument_count_is_inert() {
    // The same body under argument counts 0 and 9 expands identically.
    let with = |n: u8| {
        let src = format!("%macro m {}\n ret\n%endmacro\nm\n", n);
        String::from_utf8(preprocessor_macro(src.as_bytes()).unwrap()).unwrap()
    };
    assert_eq!(with(0), with(9));
    assert_eq!(with(0), "; macro m\n ret\n; endmacrom\n");
}

#[test]
fn macro_must_be_defined_before_use() {
    // Before its `%endmacro`, the name is ordinary text and passes through.
    let src = "m\n%macro m 0\n ret\n%endmacro\nm\n";
    let out = String::from_utf8(preprocessor_macro(src.as_bytes()).unwrap()).unwrap();
    assert_eq!(out, "m\n; macro m\n ret\n; endmacrom\n");
}

#[test]
fn macro_definitions_do_not_nest() {
    let src = "%macro a 0\n%macro b 0\n%endmacro\n%endmacro\n";
    assert_eq!(
        preprocessor_macro(src.as_bytes()),
        Err(PpError::NestedMacro { line: 2 })
    );
}

#[test]
fn macro_header_needs_name_and_count() {
    assert_eq!(
        preprocessor_macro(b"%macro lonely\n"),
        Err(PpError::MacroHeader { line: 1 })
    );
    assert_eq!(
        preprocessor_macro(b"%macro m many\n"),
        Err(PpError::MacroHeader { line: 1 })
    );
    assert_eq!(
        preprocessor_macro(b"%macro m 300\n"),
        Err(PpError::MacroHeader { line: 1 })
    );
}

#[test]
fn splicing_replaces_the_directive_line() {
    let table = files(&[("lib/io.asm", " 5 = nand(6, 7)\n".to_string())]);
    let root = format!("nand_cpu\n{} \"io.asm\"\n ret\n", splice_kw());
    let out = splice_all(&table, &root, "lib/main.asm").unwrap();
    assert_eq!(out, "nand_cpu\n 5 = nand(6, 7)\n ret\n");
}

#[test]
fn splicing_resolves_against_the_file_directory() {
    // A spliced file splices its own neighbour, relative to itself.
    let inner = format!("{} \"deep.asm\"\n", splice_kw());
    let table = files(&[
        ("lib/sub/mid.asm", inner),
        ("lib/sub/deep.asm", "ret\n".to_string()),
    ]);
    let root = format!("{} \"sub/mid.asm\"\n", splice_kw());
    let out = splice_all(&table, &root, "lib/root.asm").unwrap();
    assert_eq!(out, "ret\n");
}

#[test]
fn direct_self_splice_fails() {
    // A file that splices itself in again fails fatally before any machine
    // code can be produced.
    let own = format!("{} \"me.asm\"\n", splice_kw());
    let table = files(&[("d/me.asm", own.clone())]);
    let r = splice_all(&table, &own, "d/me.asm");
    assert_eq!(
        r,
        Err(PpError::RepeatInclusion {
            path: b"d/me.asm".to_vec()
        })
    );
}

#[test]
fn splice_cycle_through_intermediate_fails() {
    let a = format!("{} \"b.asm\"\n", splice_kw());
    let b = format!("{} \"a.asm\"\n", splice_kw());
    let table = files(&[("d/a.asm", a.clone()), ("d/b.asm", b)]);
    let r = splice_all(&table, &a, "d/a.asm");
    // The repeat surfaces at b's second splice of a's neighbour: the first
    // path recorded twice is d/b.asm.
    assert_eq!(
        r,
        Err(PpError::RepeatInclusion {
            path: b"d/b.asm".to_vec()
        })
    );
}

#[test]
fn diamond_splice_is_rejected_too() {
    // Splicing one file from two places is a repeat, even without a cycle.
    let root = format!("{0} \"x.asm\"\n{0} \"x.asm\"\n", splice_kw());
    let table = files(&[("d/x.asm", "ret\n".to_string())]);
    let r = splice_all(&table, &root, "d/root.asm");
    assert_eq!(
        r,
        Err(PpError::RepeatInclusion {
            path: b"d/x.asm".to_vec()
        })
    );
}

#[test]
fn missing_file_and_missing_operand_fail() {
    let table = files(&[]);
    let root = format!("{} \"ghost.asm\"\n", splice_kw());
    assert_eq!(
        splice_all(&table, &root, "d/root.asm"),
        Err(PpError::FileNotFound {
            path: b"d/ghost.asm".to_vec()
        })
    );
    let bare = format!("{}\n", splice_kw());
    assert_eq!(
        splice_all(&table, &bare, "d/root.asm"),
        Err(PpError::DirectiveSyntax { line: 1 })
    );
}

#[test]
fn pipeline_is_deterministic() {
    // The same table, text and path preprocess and assemble identically on
    // repeated runs.
    let table = files(&[("d/io.asm", " out equ 0xfb\n".to_string())]);
    let root = format!(
        "nand_cpu\n{} \"io.asm\"\n%macro emit 0\n out = nand(0xfb, 0xfb)\n%endmacro\nemit\n",
        splice_kw()
    );
    let run = || {
        let flat = preprocess(&table, root.as_bytes(), b"d/main.asm").unwrap();
        assembler(&flat).unwrap()
    };
    let (g1, c1) = run();
    let (g2, c2) = run();
    assert_eq!(g1, g2);
    assert_eq!(c1, c2);
    assert_eq!(c1, vec![0xfbfbfb]);
}

#[test]
fn blank_lines_vanish_in_the_macro_pass() {
    let out = preprocessor_macro(b"a\n\n  \nb\n").unwrap();
    assert_eq!(out, b"a\nb\n".to_vec());
}
