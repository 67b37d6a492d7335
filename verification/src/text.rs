//! Byte-level text primitives shared by the preprocessor and the assembler:
//! line splitting, tokenization and numeric literals.

use vstd::prelude::*;

verus! {

// ASCII byte values used throughout the toolchain.
pub const BYTE_TAB: u8 = 9; // '\t'
pub const BYTE_NEWLINE: u8 = 10; // '\n'
pub const BYTE_CR: u8 = 13; // '\r'
pub const BYTE_SPACE: u8 = 32; // ' '
pub const BYTE_QUOTE: u8 = 34; // '"'
pub const BYTE_HASH: u8 = 35; // '#'
pub const BYTE_LPAREN: u8 = 40; // '('
pub const BYTE_RPAREN: u8 = 41; // ')'
pub const BYTE_COMMA: u8 = 44; // ','
pub const BYTE_SLASH: u8 = 47; // '/'
pub const BYTE_0: u8 = 48; // '0'
pub const BYTE_9: u8 = 57; // '9'
pub const BYTE_COLON: u8 = 58; // ':'
pub const BYTE_EQUALS: u8 = 61; // '='
pub const BYTE_SEMI: u8 = 59; // ';'
pub const BYTE_UPPER_A: u8 = 65; // 'A'
pub const BYTE_UPPER_F: u8 = 70; // 'F'
pub const BYTE_UPPER_Z: u8 = 90; // 'Z'
pub const BYTE_LOWER_A: u8 = 97; // 'a'
pub const BYTE_LOWER_F: u8 = 102; // 'f'
pub const BYTE_LOWER_X: u8 = 120; // 'x'

/// Lowercases one byte: ASCII 'A' through 'Z' map to 'a' through 'z'; every
/// other byte is unchanged.
pub open spec fn spec_lower(b: u8) -> u8 {
    if BYTE_UPPER_A <= b && b <= BYTE_UPPER_Z {
        (b + 32) as u8
    } else {
        b
    }
}

/// Executable counterpart of [`spec_lower`].
pub fn lower(b: u8) -> (r: u8)
    ensures
        r == spec_lower(b),
{
    if BYTE_UPPER_A <= b && b <= BYTE_UPPER_Z {
        b + 32
    } else {
        b
    }
}

/// Index of the first occurrence of `b` in `s`, or `s.len()` if absent.
pub open spec fn spec_find_byte(s: Seq<u8>, b: u8) -> int
    decreases s.len(),
{
    if s.len() == 0 {
        0
    } else if s[0] == b {
        0
    } else {
        1 + spec_find_byte(s.drop_first(), b)
    }
}

/// [`spec_find_byte`] returns `k` exactly when the bytes before `k` differ
/// from `b` and either `k` is the whole length or `s[k] == b`.
pub proof fn lemma_find_byte(s: Seq<u8>, b: u8, k: int)
    requires
        0 <= k <= s.len(),
        forall|j: int| 0 <= j < k ==> s[j] != b,
        k < s.len() ==> s[k] == b,
    ensures
        spec_find_byte(s, b) == k,
    decreases k,
{
    if s.len() == 0 {
    } else if s[0] == b {
        assert(k == 0);
    } else {
        lemma_find_byte(s.drop_first(), b, k - 1);
    }
}

/// Bounds of [`spec_find_byte`]: the result is a position in `s` or `s.len()`,
/// and it points at `b` when `b` occurs.
pub proof fn lemma_find_byte_bounds(s: Seq<u8>, b: u8)
    ensures
        0 <= spec_find_byte(s, b) <= s.len(),
        spec_find_byte(s, b) < s.len() ==> s[spec_find_byte(s, b)] == b,
        forall|j: int| 0 <= j < spec_find_byte(s, b) ==> s[j] != b,
    decreases s.len(),
{
    if s.len() == 0 {
    } else if s[0] == b {
    } else {
        lemma_find_byte_bounds(s.drop_first(), b);
        assert forall|j: int| 0 <= j < spec_find_byte(s, b) implies s[j] != b by {
            if j > 0 {
                assert(s.drop_first()[j - 1] == s[j]);
            }
        }
    }
}

/// A line segment before a newline loses one trailing carriage return, as the
/// usual line iterator does for a `\r\n` ending.
pub open spec fn spec_strip_cr(s: Seq<u8>) -> Seq<u8> {
    if s.len() > 0 && s[s.len() - 1] == BYTE_CR {
        s.drop_last()
    } else {
        s
    }
}

/// Splits text into lines at `\n`, stripping a `\r` that stood before the
/// `\n`; a final line without a newline is kept as it is, and a trailing
/// newline adds no empty final line.
pub open spec fn spec_lines(s: Seq<u8>) -> Seq<Seq<u8>>
    decreases s.len(),
{
    if s.len() == 0 {
        Seq::empty()
    } else {
        let i = spec_find_byte(s, BYTE_NEWLINE);
        if 0 <= i && i < s.len() {
            seq![spec_strip_cr(s.take(i))] + spec_lines(s.skip(i + 1))
        } else {
            seq![s]
        }
    }
}

/// Splits `s` into its lines; see [`spec_lines`].
pub fn split_lines(s: &[u8]) -> (r: Vec<Vec<u8>>)
    ensures
        r.deep_view() == spec_lines(s@),
{
    let mut out: Vec<Vec<u8>> = Vec::new();
    let mut cur: Vec<u8> = Vec::new();
    let ghost mut line_start: int = 0;
    let mut i: usize = 0;
    proof {
        assert(out.deep_view() =~~= Seq::<Seq<u8>>::empty());
        assert(s@.skip(0) =~= s@);
        assert(Seq::<Seq<u8>>::empty() + spec_lines(s@) =~= spec_lines(s@));
    }
    while i < s.len()
        invariant
            0 <= line_start <= i as int <= s@.len(),
            cur@ == s@.subrange(line_start, i as int),
            forall|j: int| line_start <= j < i as int ==> s@[j] != BYTE_NEWLINE,
            spec_lines(s@) == out.deep_view() + spec_lines(s@.skip(line_start)),
        decreases s@.len() - i,
    {
        let b = s[i];
        if b == BYTE_NEWLINE {
            let ghost rest = s@.skip(line_start);
            let ghost cur_view = cur@;
            proof {
                assert(rest.len() > 0);
                assert forall|j: int| 0 <= j < i as int - line_start implies rest[j]
                    != BYTE_NEWLINE by {
                    assert(rest[j] == s@[line_start + j]);
                }
                assert(rest[i as int - line_start] == BYTE_NEWLINE);
                lemma_find_byte(rest, BYTE_NEWLINE, i as int - line_start);
                assert(rest.take(i as int - line_start) =~= cur_view);
                assert(rest.skip(i as int - line_start + 1) =~= s@.skip(i as int + 1));
                assert(spec_lines(rest) == seq![spec_strip_cr(cur_view)] + spec_lines(
                    s@.skip(i as int + 1),
                ));
            }
            let ghost old_out = out.deep_view();
            let line = strip_cr_vec(cur);
            out.push(line);
            proof {
                assert(out.deep_view() =~~= old_out.push(spec_strip_cr(cur_view)));
                assert(out.deep_view() + spec_lines(s@.skip(i as int + 1)) =~= old_out
                    + spec_lines(rest));
            }
            cur = Vec::new();
            proof {
                line_start = i as int + 1;
                assert(cur@ =~= s@.subrange(line_start, i as int + 1));
            }
        } else {
            cur.push(b);
            proof {
                assert(cur@ =~= s@.subrange(line_start, i as int + 1));
            }
        }
        i = i + 1;
    }
    if cur.len() > 0 {
        proof {
            let rest = s@.skip(line_start);
            assert(rest =~= cur@);
            lemma_find_byte_bounds(rest, BYTE_NEWLINE);
            assert(spec_lines(rest) =~= seq![cur@]);
        }
        let ghost old_out = out.deep_view();
        out.push(cur);
        proof {
            assert(out.deep_view() =~~= old_out.push(s@.skip(line_start)));
            assert(spec_lines(s@) =~= out.deep_view());
        }
    } else {
        proof {
            assert(s@.skip(line_start) =~= Seq::<u8>::empty());
            assert(spec_lines(s@) =~= out.deep_view());
        }
    }
    out
}

/// True of the bytes that separate tokens: space, tab, parentheses and comma.
pub open spec fn spec_is_separator(b: u8) -> bool {
    b == BYTE_SPACE || b == BYTE_TAB || b == BYTE_LPAREN || b == BYTE_RPAREN || b == BYTE_COMMA
}

/// True of the bytes that start a comment running to the end of the line.
pub open spec fn spec_is_comment_start(b: u8) -> bool {
    b == BYTE_SEMI || b == BYTE_HASH
}

/// One step of tokenization from position `i` with the token built so far in
/// `cur` and the finished tokens in `words`: bytes are lowercased, separators
/// end the current token, and a comment byte ends the whole line.
pub open spec fn spec_splitter_go(s: Seq<u8>, i: int, cur: Seq<u8>, words: Seq<Seq<u8>>) -> Seq<
    Seq<u8>,
>
    decreases s.len() - i,
{
    if i < 0 || i >= s.len() {
        if cur.len() > 0 {
            words.push(cur)
        } else {
            words
        }
    } else {
        let b = spec_lower(s[i]);
        if spec_is_comment_start(b) {
            if cur.len() > 0 {
                words.push(cur)
            } else {
                words
            }
        } else if spec_is_separator(b) {
            spec_splitter_go(
                s,
                i + 1,
                Seq::empty(),
                if cur.len() > 0 {
                    words.push(cur)
                } else {
                    words
                },
            )
        } else {
            spec_splitter_go(s, i + 1, cur.push(b), words)
        }
    }
}

/// The tokens of one line: lowercased maximal runs of non-separator bytes,
/// cut short at the first `;` or `#`.
pub open spec fn spec_splitter(s: Seq<u8>) -> Seq<Seq<u8>> {
    spec_splitter_go(s, 0, Seq::empty(), Seq::empty())
}

/// Tokenizes one line; see [`spec_splitter`]. Tokens come back lowercased;
/// `;` and `#` start a comment; space, tab, `(`, `)` and `,` separate tokens.
pub fn splitter(s_in: &[u8]) -> (words: Vec<Vec<u8>>)
    ensures
        words.deep_view() == spec_splitter(s_in@),
{
    let mut words: Vec<Vec<u8>> = Vec::new();
    let mut cur: Vec<u8> = Vec::new();
    let mut i: usize = 0;
    proof {
        assert(words.deep_view() =~~= Seq::<Seq<u8>>::empty());
    }
    while i < s_in.len()
        invariant
            i <= s_in@.len(),
            spec_splitter(s_in@) == spec_splitter_go(s_in@, i as int, cur@, words.deep_view()),
        decreases s_in@.len() - i,
    {
        let b = lower(s_in[i]);
        if b == BYTE_SEMI || b == BYTE_HASH {
            if cur.len() > 0 {
                let ghost old_words = words.deep_view();
                words.push(cur);
                proof {
                    assert(words.deep_view() =~~= old_words.push(cur@));
                }
            }
            return words;
        } else if b == BYTE_SPACE || b == BYTE_TAB || b == BYTE_LPAREN || b == BYTE_RPAREN || b
            == BYTE_COMMA {
            if cur.len() > 0 {
                let ghost old_words = words.deep_view();
                words.push(cur);
                proof {
                    assert(words.deep_view() =~~= old_words.push(cur@));
                }
                cur = Vec::new();
            }
            proof {
                assert(cur@ =~= Seq::<u8>::empty());
            }
        } else {
            cur.push(b);
        }
        i = i + 1;
    }
    if cur.len() > 0 {
        let ghost old_words = words.deep_view();
        words.push(cur);
        proof {
            assert(words.deep_view() =~~= old_words.push(cur@));
        }
    }
    words
}

/// True of an ASCII decimal digit.
pub open spec fn spec_is_dec_digit(b: u8) -> bool {
    BYTE_0 <= b && b <= BYTE_9
}

/// True of an ASCII hexadecimal digit, either case.
pub open spec fn spec_is_hex_digit(b: u8) -> bool {
    spec_is_dec_digit(b) || (BYTE_LOWER_A <= b && b <= BYTE_LOWER_F) || (BYTE_UPPER_A <= b && b
        <= BYTE_UPPER_F)
}

/// True of a digit valid under the given radix (10 or 16).
pub open spec fn spec_is_digit(b: u8, radix: nat) -> bool {
    if radix == 16 {
        spec_is_hex_digit(b)
    } else {
        spec_is_dec_digit(b)
    }
}

/// Numeric value of one digit byte; meaningful only for valid digits.
pub open spec fn spec_digit_value(b: u8) -> nat {
    if BYTE_0 <= b && b <= BYTE_9 {
        (b - BYTE_0) as nat
    } else if BYTE_LOWER_A <= b && b <= BYTE_LOWER_F {
        (b - BYTE_LOWER_A + 10) as nat
    } else if BYTE_UPPER_A <= b && b <= BYTE_UPPER_F {
        (b - BYTE_UPPER_A + 10) as nat
    } else {
        0
    }
}

/// Left-to-right accumulation of the digits of `s` from position `i` onto
/// `acc`: the value of the whole string is `spec_value_go(s, radix, 0, 0)`.
pub open spec fn spec_value_go(s: Seq<u8>, radix: nat, i: int, acc: nat) -> nat
    decreases s.len() - i,
{
    if i < 0 || i >= s.len() {
        acc
    } else {
        spec_value_go(s, radix, i + 1, acc * radix + spec_digit_value(s[i]))
    }
}

/// The numeric value of a digit string under the given radix.
pub open spec fn spec_radix_value(s: Seq<u8>, radix: nat) -> nat {
    spec_value_go(s, radix, 0, 0)
}

/// The accumulated value never falls below the accumulator it started from.
proof fn lemma_value_go_lower_bound(s: Seq<u8>, radix: nat, i: int, acc: nat)
    requires
        radix >= 1,
    ensures
        spec_value_go(s, radix, i, acc) >= acc,
    decreases s.len() - i,
{
    if i < 0 || i >= s.len() {
    } else {
        assert(acc * radix >= acc * 1) by (nonlinear_arith)
            requires
                radix >= 1,
                acc >= 0,
        ;
        lemma_value_go_lower_bound(s, radix, i + 1, acc * radix + spec_digit_value(s[i]));
    }
}

/// Parse of a bare digit string under a radix: defined exactly when the
/// string is non-empty, all its bytes are digits of the radix, and the value
/// fits in 32 bits.
pub open spec fn spec_parse_radix(s: Seq<u8>, radix: nat) -> Option<u32> {
    if s.len() > 0 && (forall|j: int| 0 <= j < s.len() ==> spec_is_digit(s[j], radix))
        && spec_radix_value(s, radix) <= u32::MAX {
        Some(spec_radix_value(s, radix) as u32)
    } else {
        None
    }
}

/// Parse of a numeric literal: a `0x` prefix makes the rest hexadecimal,
/// anything else is decimal; malformed or out-of-range literals parse to
/// `None`.
pub open spec fn spec_parse_num(s: Seq<u8>) -> Option<u32> {
    if s.len() >= 2 && s[0] == BYTE_0 && s[1] == BYTE_LOWER_X {
        spec_parse_radix(s.skip(2), 16)
    } else {
        spec_parse_radix(s, 10)
    }
}

/// Value of one digit byte under `radix`, or `None` for a non-digit.
fn digit_value(b: u8, radix: u32) -> (r: Option<u8>)
    requires
        radix == 10 || radix == 16,
    ensures
        match r {
            Some(v) => spec_is_digit(b, radix as nat) && v as nat == spec_digit_value(b),
            None => !spec_is_digit(b, radix as nat),
        },
{
    if BYTE_0 <= b && b <= BYTE_9 {
        Some(b - BYTE_0)
    } else if radix == 16 && BYTE_LOWER_A <= b && b <= BYTE_LOWER_F {
        Some(b - BYTE_LOWER_A + 10)
    } else if radix == 16 && BYTE_UPPER_A <= b && b <= BYTE_UPPER_F {
        Some(b - BYTE_UPPER_A + 10)
    } else {
        None
    }
}

/// Parses the digits of `s` from `start` on under `radix`; see
/// [`spec_parse_radix`].
pub(crate) fn parse_radix(s: &[u8], start: usize, radix: u32) -> (r: Option<u32>)
    requires
        start <= s@.len(),
        radix == 10 || radix == 16,
    ensures
        r == spec_parse_radix(s@.skip(start as int), radix as nat),
{
    let ghost t = s@.skip(start as int);
    if start == s.len() {
        return None;
    }
    let mut acc: u64 = 0;
    let mut i: usize = start;
    while i < s.len()
        invariant
            start <= i <= s@.len(),
            start < s@.len(),
            radix == 10 || radix == 16,
            t == s@.skip(start as int),
            acc <= u32::MAX,
            forall|j: int| 0 <= j < i - start ==> spec_is_digit(t[j], radix as nat),
            spec_value_go(t, radix as nat, i - start, acc as nat) == spec_radix_value(
                t,
                radix as nat,
            ),
        decreases s@.len() - i,
    {
        let b = s[i];
        proof {
            assert(t[i - start] == s@[i as int]);
        }
        match digit_value(b, radix) {
            None => {
                proof {
                    assert(!spec_is_digit(t[i - start], radix as nat));
                }
                return None;
            },
            Some(d) => {
                let next: u64 = acc * (radix as u64) + (d as u64);
                proof {
                    assert(spec_value_go(t, radix as nat, i - start, acc as nat)
                        == spec_value_go(
                        t,
                        radix as nat,
                        i - start + 1,
                        acc as nat * radix as nat + spec_digit_value(t[i - start]),
                    ));
                }
                if next > 0xffff_ffff {
                    proof {
                        lemma_value_go_lower_bound(
                            t,
                            radix as nat,
                            i - start + 1,
                            next as nat,
                        );
                        assert(spec_radix_value(t, radix as nat) > u32::MAX);
                    }
                    return None;
                }
                acc = next;
            },
        }
        i = i + 1;
    }
    proof {
        assert(spec_value_go(t, radix as nat, t.len() as int, acc as nat) == acc as nat);
        assert(spec_radix_value(t, radix as nat) == acc as nat);
    }
    Some(acc as u32)
}

/// Parses a numeric literal, `0x`-prefixed hexadecimal or decimal; see
/// [`spec_parse_num`].
pub fn parse_num(s: &[u8]) -> (r: Option<u32>)
    ensures
        r == spec_parse_num(s@),
{
    if s.len() >= 2 && s[0] == BYTE_0 && s[1] == BYTE_LOWER_X {
        parse_radix(s, 2, 16)
    } else {
        proof {
            assert(s@.skip(0) =~= s@);
        }
        parse_radix(s, 0, 10)
    }
}

/// Removes one trailing carriage return; see [`spec_strip_cr`].
fn strip_cr_vec(v: Vec<u8>) -> (r: Vec<u8>)
    ensures
        r@ == spec_strip_cr(v@),
{
    let ghost orig = v@;
    let mut v = v;
    if v.len() > 0 && v[v.len() - 1] == BYTE_CR {
        v.pop();
        proof {
            assert(v@ =~= spec_strip_cr(orig));
        }
    }
    v
}

} // verus!
