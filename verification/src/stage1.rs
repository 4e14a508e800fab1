//! Tokenization: the offsets of the bytes that start or delimit a token.
//!
//! A byte is *structural* when it is one of `:` `[` `{` `,` `|` `-` `]` `}`
//! `\r` `\t` `\n` outside a quoted string, when it opens a quoted string, or
//! when it is the first byte of a token, i.e. a byte that is neither a space
//! nor inside a quoted string and follows a space, a structural byte, the end
//! of a quoted string, or the start of the document. A document of `n` bytes is
//! read as if it ended with one more newline, at offset `n`, which is always
//! the last structural offset.
use vstd::prelude::*;

use crate::error::{Error, ErrorType};

verus! {

/// A byte that delimits tokens wherever it stands outside a quoted string.
pub open spec fn is_delimiter_byte(c: u8) -> bool {
    c == 58u8 || c == 91u8 || c == 123u8 || c == 44u8 || c == 124u8 || c == 45u8 || c == 93u8
        || c == 125u8 || c == 13u8 || c == 9u8 || c == 10u8
}

/// What the scanner knows before it reads a byte.
pub struct ScanState {
    /// Inside a quoted string.
    pub in_string: bool,
    /// Inside a quoted string, right after a backslash that escapes the next byte.
    pub escaped: bool,
    /// Outside a quoted string, right after a space, a structural byte, the end
    /// of a quoted string or the start of the document.
    pub after_separator: bool,
}

/// The state at the start of the document.
pub open spec fn scan_start() -> ScanState {
    ScanState { in_string: false, escaped: false, after_separator: true }
}

/// Whether byte `c`, read in state `st`, is structural.
pub open spec fn is_structural_in(st: ScanState, c: u8) -> bool {
    if st.in_string {
        false
    } else if is_delimiter_byte(c) || c == 34u8 {
        true
    } else if c == 32u8 {
        false
    } else {
        st.after_separator
    }
}

/// The state after reading byte `c` in state `st`.
pub open spec fn scan_step(st: ScanState, c: u8) -> ScanState {
    if st.in_string {
        if st.escaped {
            ScanState { in_string: true, escaped: false, after_separator: false }
        } else if c == 92u8 {
            ScanState { in_string: true, escaped: true, after_separator: false }
        } else if c == 34u8 {
            ScanState { in_string: false, escaped: false, after_separator: true }
        } else {
            ScanState { in_string: true, escaped: false, after_separator: false }
        }
    } else if c == 34u8 {
        ScanState { in_string: true, escaped: false, after_separator: false }
    } else {
        ScanState {
            in_string: false,
            escaped: false,
            after_separator: is_delimiter_byte(c) || c == 32u8,
        }
    }
}

/// The state before the byte at offset `p`.
pub open spec fn scan_state_at(b: Seq<u8>, p: int) -> ScanState
    decreases p,
{
    if p <= 0 {
        scan_start()
    } else {
        scan_step(scan_state_at(b, p - 1), b[p - 1])
    }
}

/// The byte at offset `p` is structural.
pub open spec fn is_structural_at(b: Seq<u8>, p: int) -> bool {
    is_structural_in(scan_state_at(b, p), b[p])
}

/// The structural offsets among the first `p` bytes, in increasing order.
pub open spec fn structurals_before(b: Seq<u8>, p: int) -> Seq<u32>
    decreases p,
{
    if p <= 0 {
        Seq::empty()
    } else if is_structural_at(b, p - 1) {
        structurals_before(b, p - 1).push((p - 1) as u32)
    } else {
        structurals_before(b, p - 1)
    }
}

/// All structural offsets of the document, ending with the end-of-document newline.
pub open spec fn structural_indexes(b: Seq<u8>) -> Seq<u32> {
    structurals_before(b, b.len() as int).push(b.len() as u32)
}

/// The document ends inside a quoted string.
pub open spec fn ends_in_string(b: Seq<u8>) -> bool {
    scan_state_at(b, b.len() as int).in_string
}

/// The structural offsets are in increasing order and each names a byte of the
/// document, except the last, which names the end-of-document newline.
pub open spec fn indexes_well_formed(b: Seq<u8>, s: Seq<u32>) -> bool {
    &&& s.len() >= 1
    &&& s.last() == b.len()
    &&& forall|k: int| 0 <= k < s.len() ==> s[k] <= b.len()
    &&& forall|k: int, j: int| 0 <= k < j < s.len() ==> s[k] < s[j]
}

proof fn lemma_structurals_before_bounds(b: Seq<u8>, p: int)
    requires
        0 <= p <= b.len(),
        b.len() < 0xffff_ffff,
    ensures
        forall|k: int|
            0 <= k < structurals_before(b, p).len() ==> structurals_before(b, p)[k] < p,
        forall|k: int, j: int|
            0 <= k < j < structurals_before(b, p).len() ==> structurals_before(b, p)[k]
                < structurals_before(b, p)[j],
    decreases p,
{
    if p > 0 {
        lemma_structurals_before_bounds(b, p - 1);
        let prev = structurals_before(b, p - 1);
        if is_structural_at(b, p - 1) {
            let cur = prev.push((p - 1) as u32);
            assert(((p - 1) as u32) as int == p - 1);
            assert forall|k: int| 0 <= k < cur.len() implies cur[k] < p by {
                if k < prev.len() {
                    assert(cur[k] == prev[k]);
                }
            }
            assert forall|k: int, j: int| 0 <= k < j < cur.len() implies cur[k] < cur[j] by {
                assert(cur[k] == prev[k]);
            }
        }
    }
}

/// The well-formedness of the offsets follows from their definition.
pub proof fn lemma_structural_indexes_well_formed(b: Seq<u8>)
    requires
        b.len() < 0xffff_ffff,
    ensures
        indexes_well_formed(b, structural_indexes(b)),
{
    lemma_structurals_before_bounds(b, b.len() as int);
}

/// A structural byte's offset is among the structural offsets of every
/// prefix that holds it.
proof fn lemma_structural_listed(b: Seq<u8>, q: int, p: int)
    requires
        0 <= q < p <= b.len(),
        b.len() < 0xffff_ffff,
        is_structural_at(b, q),
    ensures
        structurals_before(b, p).contains(q as u32),
    decreases p,
{
    let prev = structurals_before(b, p - 1);
    if q == p - 1 {
        assert(structurals_before(b, p) == prev.push(q as u32));
        assert(structurals_before(b, p)[prev.len() as int] == q as u32);
    } else {
        lemma_structural_listed(b, q, p - 1);
        let k = choose|k: int| 0 <= k < prev.len() && prev[k] == q as u32;
        if is_structural_at(b, p - 1) {
            assert(structurals_before(b, p)[k] == q as u32);
        }
    }
}

/// Outside a quoted string, each of `:` `[` `{` `,` `|` `-` `]` `}`, carriage
/// return, tab and newline is structural, and so is the byte after a tab
/// unless it is a space: a tab separates tokens as `,` and `|` do.
pub proof fn law_separators_structural(b: Seq<u8>, p: int)
    requires
        b.len() < 0xffff_ffff,
        0 <= p < b.len(),
        !scan_state_at(b, p).in_string,
    ensures
        (b[p] == 58u8 || b[p] == 91u8 || b[p] == 123u8 || b[p] == 44u8 || b[p] == 124u8 || b[p] == 45u8 || b[p]
            == 93u8 || b[p] == 125u8 || b[p] == 13u8 || b[p] == 9u8 || b[p] == 10u8) ==> structural_indexes(b).contains(
            p as u32,
        ),
        b[p] == 9u8 && p + 1 < b.len() && b[p + 1] != 32u8 ==> structural_indexes(b).contains((p + 1) as u32),
{
    let all = structural_indexes(b);
    let before = structurals_before(b, b.len() as int);
    if is_structural_at(b, p) {
        lemma_structural_listed(b, p, b.len() as int);
        let k = choose|k: int| 0 <= k < before.len() && before[k] == p as u32;
        assert(all[k] == p as u32);
    }
    if b[p] == 9u8 && p + 1 < b.len() && b[p + 1] != 32u8 {
        assert(scan_state_at(b, p + 1) == scan_step(scan_state_at(b, p), b[p]));
        assert(is_structural_at(b, p + 1));
        lemma_structural_listed(b, p + 1, b.len() as int);
        let k = choose|k: int| 0 <= k < before.len() && before[k] == (p + 1) as u32;
        assert(all[k] == (p + 1) as u32);
    }
}

/// Computes the structural offsets of a document (without its end-of-document
/// newline), writing them to `out`.
pub fn find_structural_indexes(input: &[u8], out: &mut Vec<u32>) -> (r: Result<(), Error>)
    ensures
        input@.len() >= 0xffff_ffff ==> r is Err,
        input@.len() < 0xffff_ffff ==> (r is Err <==> ends_in_string(input@)),
        r matches Err(e) ==> if input@.len() >= 0xffff_ffff {
            e.error == ErrorType::InputTooLarge
        } else {
            e.error == ErrorType::UnterminatedString
        },
        r is Ok ==> final(out)@ == structural_indexes(input@),
        input@.len() >= 0xffff_ffff ==> final(out)@ == old(out)@,
        input@.len() < 0xffff_ffff && r is Err ==> final(out)@ == structurals_before(
            input@,
            input@.len() as int,
        ),
{
    let n = input.len();
    if n >= 0xffff_ffff {
        return Err(Error::generic(ErrorType::InputTooLarge));
    }
    out.clear();
    let mut in_string = false;
    let mut escaped = false;
    let mut after_separator = true;
    let mut p: usize = 0;
    while p < n
        invariant
            n == input@.len(),
            n < 0xffff_ffff,
            p <= n,
            scan_state_at(input@, p as int) == (ScanState { in_string, escaped, after_separator }),
            out@ == structurals_before(input@, p as int),
        decreases n - p,
    {
        let c = input[p];
        let delim = c == 58u8 || c == 91u8 || c == 123u8 || c == 44u8 || c == 124u8 || c == 45u8
            || c == 93u8 || c == 125u8 || c == 13u8 || c == 9u8 || c == 10u8;
        let structural = if in_string {
            false
        } else if delim || c == 34u8 {
            true
        } else if c == 32u8 {
            false
        } else {
            after_separator
        };
        if structural {
            out.push(p as u32);
        }
        if in_string {
            if escaped {
                escaped = false;
            } else if c == 92u8 {
                escaped = true;
            } else if c == 34u8 {
                in_string = false;
                after_separator = true;
            }
        } else if c == 34u8 {
            in_string = true;
            after_separator = false;
        } else {
            after_separator = delim || c == 32u8;
        }
        p = p + 1;
    }
    if in_string {
        return Err(Error::new_c(n, 10u8, ErrorType::UnterminatedString));
    }
    out.push(n as u32);
    Ok(())
}

} // verus!
