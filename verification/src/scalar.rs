//! Scalar tokens: classification, numbers and strings.
use vstd::prelude::*;
use vstd::utf8::{encode_utf8, valid_utf8, partial_valid_utf8, partial_valid_utf8_extend_ascii_block};

use crate::tape::{int_kind_ok, Node, NodeView, StaticNode};
use crate::utf8::checked_str;

verus! {

pub open spec fn is_digit(c: u8) -> bool {
    48u8 <= c <= 57u8
}

pub open spec fn is_exp_char(c: u8) -> bool {
    c == 101u8 || c == 69u8
}

pub open spec fn is_sign_char(c: u8) -> bool {
    c == 43u8 || c == 45u8
}

pub open spec fn is_number_char(c: u8) -> bool {
    is_digit(c) || c == 46u8 || is_exp_char(c) || is_sign_char(c)
}

/// `true`, `false` and `null` as bytes.
pub open spec fn lit_true() -> Seq<u8> {
    seq![116u8, 114u8, 117u8, 101u8]
}

pub open spec fn lit_false() -> Seq<u8> {
    seq![102u8, 97u8, 108u8, 115u8, 101u8]
}

pub open spec fn lit_null() -> Seq<u8> {
    seq![110u8, 117u8, 108u8, 108u8]
}

/// The coarse kind of a token, as far as its bytes tell.
#[derive(Clone, Copy, Debug, PartialEq, Eq, Structural)]
pub enum BasicTypes {
    Boolean(bool),
    Null,
    Number,
    String,
}

/// Bytes that could belong to a number: only digits, `.`, `e`, `E`, `+` and
/// `-`; at most one exponent marker and at most one `.`, no `.` after the
/// exponent marker, and every sign right after an exponent marker.
pub open spec fn number_shaped(b: Seq<u8>) -> bool {
    &&& forall|i: int| 0 <= i < b.len() ==> is_number_char(#[trigger] b[i])
    &&& forall|i: int, j: int|
        0 <= i < j < b.len() ==> !(is_exp_char(#[trigger] b[i]) && is_exp_char(#[trigger] b[j]))
    &&& forall|i: int, j: int|
        0 <= i < j < b.len() ==> !(#[trigger] b[i] == 46u8 && #[trigger] b[j] == 46u8)
    &&& forall|i: int, j: int|
        0 <= i < j < b.len() ==> !(is_exp_char(#[trigger] b[i]) && #[trigger] b[j] == 46u8)
    &&& forall|i: int|
        0 <= i < b.len() && is_sign_char(#[trigger] b[i]) ==> i > 0 && is_exp_char(b[i - 1])
}

/// The kind of a token: the three literals, a number-shaped token (with an
/// optional leading `-`, and not just `.` or `-.` or `-`), or else a string.
pub open spec fn classify_spec(s: Seq<u8>) -> BasicTypes {
    if s == lit_true() {
        BasicTypes::Boolean(true)
    } else if s == lit_false() {
        BasicTypes::Boolean(false)
    } else if s == lit_null() {
        BasicTypes::Null
    } else if s[0] == 45u8 {
        let b = s.drop_first();
        if b.len() == 0 || (b.len() == 1 && b[0] == 46u8) {
            BasicTypes::String
        } else if number_shaped(b) {
            BasicTypes::Number
        } else {
            BasicTypes::String
        }
    } else if s.len() == 1 && s[0] == 46u8 {
        BasicTypes::String
    } else if number_shaped(s) {
        BasicTypes::Number
    } else {
        BasicTypes::String
    }
}

fn eq_literal(input: &[u8], lit: &[u8]) -> (r: bool)
    ensures
        r == (input@ == lit@),
{
    if input.len() != lit.len() {
        return false;
    }
    let mut i: usize = 0;
    while i < input.len()
        invariant
            input@.len() == lit@.len(),
            i <= input@.len(),
            forall|j: int| 0 <= j < i ==> input@[j] == lit@[j],
        decreases input@.len() - i,
    {
        if input[i] != lit[i] {
            return false;
        }
        i = i + 1;
    }
    assert(input@ =~= lit@);
    true
}

fn number_shaped_from(input: &[u8], start: usize) -> (r: bool)
    requires
        start <= input@.len(),
    ensures
        r == number_shaped(input@.subrange(start as int, input@.len() as int)),
{
    let ghost b = input@.subrange(start as int, input@.len() as int);
    let n = input.len();
    let mut i = start;
    let mut dot_seen = false;
    let mut exp_seen = false;
    let mut expects_sign = false;
    while i < n
        invariant
            start <= i <= n,
            n == input@.len(),
            b == input@.subrange(start as int, n as int),
            number_shaped(b.subrange(0, i - start)),
            dot_seen <==> exists|j: int| 0 <= j < i - start && b[j] == 46u8,
            exp_seen <==> exists|j: int| 0 <= j < i - start && is_exp_char(b[j]),
            expects_sign <==> (i > start && is_exp_char(b[i - start - 1])),
        decreases n - i,
    {
        let c = input[i];
        let k = i - start;
        let ghost pre = b.subrange(0, k as int);
        let ghost post = b.subrange(0, k + 1);
        assert(b[k as int] == c);
        assert(forall|j: int| 0 <= j < k ==> post[j] == pre[j]);
        if 48u8 <= c && c <= 57u8 {
            expects_sign = false;
        } else if c == 46u8 {
            if exp_seen || dot_seen {
                proof {
                    if dot_seen {
                        let j = choose|j: int| 0 <= j < k && b[j] == 46u8;
                        assert(post[j] == 46u8 && post[k as int] == 46u8);
                        assert(!number_shaped(b));
                    } else {
                        let j = choose|j: int| 0 <= j < k && is_exp_char(b[j]);
                        assert(is_exp_char(post[j]) && post[k as int] == 46u8);
                    }
                    assert(!number_shaped(post));
                    assert(b.subrange(0, k + 1) == post);
                    assert(forall|j: int| 0 <= j <= k ==> b[j] == post[j]);
                }
                return false;
            }
            dot_seen = true;
            expects_sign = false;
        } else if c == 101u8 || c == 69u8 {
            if exp_seen {
                proof {
                    let j = choose|j: int| 0 <= j < k && is_exp_char(b[j]);
                    assert(is_exp_char(b[j]) && is_exp_char(b[k as int]));
                }
                return false;
            }
            exp_seen = true;
            expects_sign = true;
        } else if c == 43u8 || c == 45u8 {
            if !expects_sign {
                return false;
            }
            expects_sign = false;
        } else {
            return false;
        }
        i = i + 1;
        proof {
            assert(post == b.subrange(0, i - start));
            assert forall|j1: int, j2: int| 0 <= j1 < j2 < post.len() implies !(is_exp_char(#[trigger] post[j1]) && is_exp_char(#[trigger] post[j2])) by {
                if j2 < k {
                    assert(post[j1] == pre[j1] && post[j2] == pre[j2]);
                }
            }
            assert forall|j1: int, j2: int| 0 <= j1 < j2 < post.len() implies !(#[trigger] post[j1] == 46u8 && #[trigger] post[j2] == 46u8) by {
                if j2 < k {
                    assert(post[j1] == pre[j1] && post[j2] == pre[j2]);
                }
            }
            assert forall|j1: int, j2: int| 0 <= j1 < j2 < post.len() implies !(is_exp_char(#[trigger] post[j1]) && #[trigger] post[j2] == 46u8) by {
                if j2 < k {
                    assert(post[j1] == pre[j1] && post[j2] == pre[j2]);
                }
            }
            assert forall|j: int| 0 <= j < post.len() && is_sign_char(#[trigger] post[j]) implies j > 0 && is_exp_char(post[j - 1]) by {
                if j < k {
                    assert(post[j] == pre[j]);
                }
            }
            if c == 46u8 {
                assert(post[k as int] == 46u8);
            }
            if c == 101u8 || c == 69u8 {
                assert(is_exp_char(b[k as int]));
            }
        }
    }
    proof {
        assert(b.subrange(0, n - start) == b);
    }
    true
}

/// Classifies a token as a literal, a number-shaped token, or a string.
pub fn classify_bytes(input: &[u8]) -> (r: BasicTypes)
    requires
        input@.len() > 0,
    ensures
        r == classify_spec(input@),
{
    let t: [u8; 4] = [116u8, 114u8, 117u8, 101u8];
    let f: [u8; 5] = [102u8, 97u8, 108u8, 115u8, 101u8];
    let nl: [u8; 4] = [110u8, 117u8, 108u8, 108u8];
    if eq_literal(input, t.as_slice()) {
        assert(t@ == lit_true());
        return BasicTypes::Boolean(true);
    }
    assert(t@ == lit_true());
    if eq_literal(input, f.as_slice()) {
        assert(f@ == lit_false());
        return BasicTypes::Boolean(false);
    }
    assert(f@ == lit_false());
    if eq_literal(input, nl.as_slice()) {
        assert(nl@ == lit_null());
        return BasicTypes::Null;
    }
    assert(nl@ == lit_null());
    let len = input.len();
    if input[0] == 45u8 {
        proof {
            assert(input@.drop_first() == input@.subrange(1, len as int));
        }
        if len == 1 || (len == 2 && input[1] == 46u8) {
            return BasicTypes::String;
        }
        if number_shaped_from(input, 1) {
            BasicTypes::Number
        } else {
            BasicTypes::String
        }
    } else if len == 1 && input[0] == 46u8 {
        BasicTypes::String
    } else {
        proof {
            assert(input@.subrange(0, len as int) == input@);
        }
        if number_shaped_from(input, 0) {
            BasicTypes::Number
        } else {
            BasicTypes::String
        }
    }
}


/// The first index at or after `i` that does not hold a digit.
pub open spec fn digits_end(s: Seq<u8>, i: int) -> int
    decreases s.len() - i,
{
    if i < 0 || i >= s.len() || !is_digit(s[i]) {
        i
    } else {
        digits_end(s, i + 1)
    }
}

pub open spec fn int_start(s: Seq<u8>) -> int {
    if s.len() > 0 && s[0] == 45u8 { 1 } else { 0 }
}

pub open spec fn int_end(s: Seq<u8>) -> int {
    digits_end(s, int_start(s))
}

pub open spec fn frac_end(s: Seq<u8>) -> int {
    let d = int_end(s);
    if d < s.len() && s[d] == 46u8 { digits_end(s, d + 1) } else { d }
}

pub open spec fn exp_digits_start(s: Seq<u8>) -> int {
    let f = frac_end(s);
    if f + 1 < s.len() && is_sign_char(s[f + 1]) { f + 2 } else { f + 1 }
}

/// The number grammar: `-?(0|[1-9][0-9]*)(\.[0-9]+)?([eE][+-]?[0-9]+)?`.
pub open spec fn is_number(s: Seq<u8>) -> bool {
    let a = int_start(s);
    let d = int_end(s);
    let f = frac_end(s);
    let k = exp_digits_start(s);
    &&& d > a
    &&& (s[a] == 48u8 ==> d == a + 1)
    &&& (d < s.len() && s[d] == 46u8 ==> f > d + 1)
    &&& (f == s.len() || (is_exp_char(s[f]) && digits_end(s, k) > k && digits_end(s, k) == s.len()))
}

/// The value of the decimal digits `s[i..j]`.
pub open spec fn digits_value(s: Seq<u8>, i: int, j: int) -> nat
    decreases j - i,
{
    if j <= i {
        0
    } else {
        digits_value(s, i, j - 1) * 10 + (s[j - 1] - 48u8) as nat
    }
}

/// What a number token stands for: an integer when it has neither fraction
/// nor exponent and fits 64 bits, otherwise the text itself.
pub open spec fn number_view(s: Seq<u8>) -> NodeView {
    if int_end(s) == s.len() {
        let m = digits_value(s, int_start(s), s.len() as int);
        if s[0] == 45u8 {
            if m <= 0x8000_0000_0000_0000 { NodeView::Int(-m) } else { NodeView::Float(s) }
        } else {
            if m <= 0xffff_ffff_ffff_ffff { NodeView::Int(m as int) } else { NodeView::Float(s) }
        }
    } else {
        NodeView::Float(s)
    }
}

proof fn lemma_ascii_valid_utf8(b: Seq<u8>)
    requires
        forall|i: int| 0 <= i < b.len() ==> b[i] < 128,
    ensures
        valid_utf8(b),
{
    assert(b.subrange(0, 0) =~= Seq::<u8>::empty());
    assert(valid_utf8(Seq::<u8>::empty()));
    assert(partial_valid_utf8(b, 0));
    partial_valid_utf8_extend_ascii_block(b, 0, b.len() as int);
    assert(b.subrange(0, b.len() as int) =~= b);
}

/// A `String` holding the given bytes, if they are valid UTF-8.
pub fn string_from_bytes(b: &[u8]) -> (r: Option<String>)
    ensures
        r is Some <==> valid_utf8(b@),
        r matches Some(s) ==> encode_utf8(s@) == b@,
{
    match checked_str(b) {
        Some(s) => Some(s.to_owned()),
        None => None,
    }
}

proof fn lemma_digits_end_bounds(s: Seq<u8>, i: int)
    requires
        0 <= i <= s.len(),
    ensures
        i <= digits_end(s, i) <= s.len(),
        forall|j: int| i <= j < digits_end(s, i) ==> is_digit(s[j]),
        digits_end(s, i) < s.len() ==> !is_digit(s[digits_end(s, i)]),
    decreases s.len() - i,
{
    if i < s.len() && is_digit(s[i]) {
        lemma_digits_end_bounds(s, i + 1);
    }
}

/// Scans digits from `i`, returning the first index that holds none.
fn scan_digits(s: &[u8], i: usize) -> (e: usize)
    requires
        i <= s@.len(),
    ensures
        e == digits_end(s@, i as int),
{
    let mut e = i;
    while e < s.len() && 48u8 <= s[e] && s[e] <= 57u8
        invariant
            i <= e <= s@.len(),
            digits_end(s@, i as int) == digits_end(s@, e as int),
        decreases s@.len() - e,
    {
        e = e + 1;
    }
    e
}

/// Parses a number token, returning `None` if it does not follow the number grammar.
pub fn parse_number(s: &[u8]) -> (r: Option<StaticNode>)
    ensures
        r is Some <==> is_number(s@),
        r matches Some(n) ==> n@ == number_view(s@),
        r matches Some(n) ==> (n is I64 <==> (n@ is Int && s@.len() > 0 && s@[0] == 45u8)),
        r matches Some(n) ==> (n is U64 <==> (n@ is Int && !(s@.len() > 0 && s@[0] == 45u8))),
        r matches Some(StaticNode::I64(v)) ==> v <= 0,
{
    let n = s.len();
    let a: usize = if n > 0 && s[0] == 45u8 { 1 } else { 0 };
    let d = scan_digits(s, a);
    proof {
        lemma_digits_end_bounds(s@, a as int);
    }
    if d == a {
        return None;
    }
    if s[a] == 48u8 && d != a + 1 {
        return None;
    }
    let mut f = d;
    if d < n && s[d] == 46u8 {
        f = scan_digits(s, d + 1);
        proof {
            lemma_digits_end_bounds(s@, d + 1);
        }
        if f == d + 1 {
            return None;
        }
    }
    assert(f == frac_end(s@));
    if f < n {
        if !(s[f] == 101u8 || s[f] == 69u8) {
            return None;
        }
        let k = if f + 1 < n && (s[f + 1] == 43u8 || s[f + 1] == 45u8) { f + 2 } else { f + 1 };
        assert(k == exp_digits_start(s@));
        let e = scan_digits(s, k);
        proof {
            lemma_digits_end_bounds(s@, k as int);
        }
        if e == k || e != n {
            return None;
        }
    }
    assert(is_number(s@));
    if d == n {
        // an integer: accumulate its magnitude
        let mut m: u64 = 0;
        let mut overflow = false;
        let mut i = a;
        while i < n
            invariant
                a <= i <= n,
                n == s@.len(),
                forall|j: int| a <= j < n ==> is_digit(s@[j]),
                !overflow ==> m as nat == digits_value(s@, a as int, i as int),
                overflow ==> digits_value(s@, a as int, i as int) > 0xffff_ffff_ffff_ffff,
            decreases n - i,
        {
            let dgt = (s[i] - 48u8) as u64;
            if !overflow {
                if m > 1844674407370955161u64 || (m == 1844674407370955161u64 && dgt > 5) {
                    overflow = true;
                } else {
                    m = m * 10 + dgt;
                }
            }
            i = i + 1;
        }
        if !overflow {
            if a == 1 {
                if m <= 0x8000_0000_0000_0000u64 {
                    let v: i64 = if m == 0x8000_0000_0000_0000u64 {
                        -9223372036854775808i64
                    } else {
                        -(m as i64)
                    };
                    return Some(StaticNode::I64(v));
                }
            } else {
                return Some(StaticNode::U64(m));
            }
        }
    }
    proof {
        assert forall|j: int| 0 <= j < n implies s@[j] < 128 by {
            if j >= a && j < d {
            } else if j < a {
            } else {
                lemma_digits_end_bounds(s@, d + 1);
            }
        }
        lemma_ascii_valid_utf8(s@);
    }
    match string_from_bytes(s) {
        Some(text) => Some(StaticNode::Float(text)),
        None => None,
    }
}


/// The value of a hexadecimal digit, or `-1`.
pub open spec fn hex_value(c: u8) -> int {
    if 48u8 <= c <= 57u8 {
        c - 48
    } else if 97u8 <= c <= 102u8 {
        c - 87
    } else if 65u8 <= c <= 70u8 {
        c - 55
    } else {
        -1
    }
}

/// The value of the four hexadecimal digits at `s[i..i + 4]`, or `-1`.
pub open spec fn hex4(s: Seq<u8>, i: int) -> int {
    if i < 0 || i + 4 > s.len() || hex_value(s[i]) < 0 || hex_value(s[i + 1]) < 0 || hex_value(
        s[i + 2],
    ) < 0 || hex_value(s[i + 3]) < 0 {
        -1
    } else {
        hex_value(s[i]) * 4096 + hex_value(s[i + 1]) * 256 + hex_value(s[i + 2]) * 16 + hex_value(
            s[i + 3],
        )
    }
}

/// The UTF-8 bytes of a code point below `0x110000`.
pub open spec fn utf8_bytes(cp: int) -> Seq<u8> {
    if cp < 0x80 {
        seq![cp as u8]
    } else if cp < 0x800 {
        seq![(0xC0 + cp / 64) as u8, (0x80 + cp % 64) as u8]
    } else if cp < 0x10000 {
        seq![(0xE0 + cp / 4096) as u8, (0x80 + (cp / 64) % 64) as u8, (0x80 + cp % 64) as u8]
    } else {
        seq![
            (0xF0 + cp / 262144) as u8,
            (0x80 + (cp / 4096) % 64) as u8,
            (0x80 + (cp / 64) % 64) as u8,
            (0x80 + cp % 64) as u8,
        ]
    }
}

/// The byte a one-letter escape stands for, or `-1`.
pub open spec fn simple_escape(c: u8) -> int {
    if c == 34u8 {
        34
    } else if c == 92u8 {
        92
    } else if c == 47u8 {
        47
    } else if c == 98u8 {
        8
    } else if c == 102u8 {
        12
    } else if c == 110u8 {
        10
    } else if c == 114u8 {
        13
    } else if c == 116u8 {
        9
    } else {
        -1
    }
}

pub open spec fn prepend(p: Seq<u8>, o: Option<Seq<u8>>) -> Option<Seq<u8>> {
    match o {
        Some(r) => Some(p + r),
        None => None,
    }
}

/// The content of a quoted string with its escapes resolved, or `None` if it
/// holds an unescaped quote or an escape that is not allowed. The escapes are
/// `\"` `\\` `\/` `\b` `\f` `\n` `\r` `\t` and `\uXXXX`, where a high surrogate
/// must be followed by an escaped low surrogate.
pub open spec fn unescape(s: Seq<u8>) -> Option<Seq<u8>>
    decreases s.len(),
{
    if s.len() == 0 {
        Some(Seq::empty())
    } else if s[0] == 34u8 {
        None
    } else if s[0] != 92u8 {
        prepend(seq![s[0]], unescape(s.subrange(1, s.len() as int)))
    } else if s.len() < 2 {
        None
    } else if s[1] == 117u8 {
        let cp = hex4(s, 2);
        if cp < 0 {
            None
        } else if 0xD800 <= cp < 0xDC00 {
            let lo = hex4(s, 8);
            if s.len() >= 12 && s[6] == 92u8 && s[7] == 117u8 && 0xDC00 <= lo < 0xE000 {
                prepend(
                    utf8_bytes(0x10000 + (cp - 0xD800) * 1024 + (lo - 0xDC00)),
                    unescape(s.subrange(12, s.len() as int)),
                )
            } else {
                None
            }
        } else if 0xDC00 <= cp < 0xE000 {
            None
        } else {
            prepend(utf8_bytes(cp), unescape(s.subrange(6, s.len() as int)))
        }
    } else if simple_escape(s[1]) < 0 {
        None
    } else {
        prepend(seq![simple_escape(s[1]) as u8], unescape(s.subrange(2, s.len() as int)))
    }
}

/// The bytes a string token stands for: a token that starts with a quote must
/// end with one and has its content unescaped; any other token stands for itself.
pub open spec fn token_string(t: Seq<u8>) -> Option<Seq<u8>> {
    if t.len() > 0 && t[0] == 34u8 {
        if t.len() >= 2 && t[t.len() - 1] == 34u8 {
            unescape(t.subrange(1, t.len() - 1))
        } else {
            None
        }
    } else {
        Some(t)
    }
}

/// The byte with an upper-case ASCII letter turned to lower case.
pub open spec fn ascii_lower(c: u8) -> u8 {
    if 65u8 <= c <= 90u8 {
        (c + 32) as u8
    } else {
        c
    }
}

/// The hexadecimal digits: `0`-`9` stand for 0 to 9, and the letters `a`-`f`
/// and `A`-`F` alike stand for 10 to 15; no other byte is a digit.
pub proof fn law_hex_digits(v: int, c: u8)
    requires
        0 <= v < 16,
    ensures
        v < 10 ==> hex_value((48 + v) as u8) == v,
        v >= 10 ==> hex_value((97 + (v - 10)) as u8) == v && hex_value((65 + (v - 10)) as u8) == v,
        hex_value(c) >= 0 <==> (48u8 <= c <= 57u8 || 97u8 <= c <= 102u8 || 65u8 <= c <= 70u8),
        hex_value(c) < 16,
{
}

/// A `\uXXXX` escape reads its four hexadecimal digits without regard to
/// case: writing any of them in lower case gives the same string.
pub proof fn law_unicode_escape_case(s: Seq<u8>)
    requires
        s.len() >= 6,
        s[0] == 92u8,
        s[1] == 117u8,
    ensures
        unescape(s) == unescape(Seq::new(s.len(), |k: int| if 2 <= k < 6 { ascii_lower(s[k]) } else { s[k] })),
{
    let t = Seq::new(s.len(), |k: int| if 2 <= k < 6 { ascii_lower(s[k]) } else { s[k] });
    assert forall|k: int| 2 <= k < 6 implies hex_value(t[k]) == hex_value(s[k]) by {}
    assert(hex4(t, 2) == hex4(s, 2));
    assert(hex4(t, 8) == hex4(s, 8));
    assert(t.subrange(6, t.len() as int) =~= s.subrange(6, s.len() as int));
    if s.len() >= 12 {
        assert(t.subrange(12, t.len() as int) =~= s.subrange(12, s.len() as int));
        assert(t[6] == s[6] && t[7] == s[7]);
    }
}

/// The lower-case hexadecimal digit for `0 <= v < 16`.
pub open spec fn hex_char(v: int) -> u8 {
    if v < 10 {
        (48 + v) as u8
    } else {
        (87 + v) as u8
    }
}

/// A code point written as four hexadecimal digits.
pub open spec fn hex_spelling(cp: int) -> Seq<u8> {
    seq![hex_char(cp / 4096), hex_char((cp / 256) % 16), hex_char((cp / 16) % 16), hex_char(cp % 16)]
}

/// `\uXXXX` stands for the code point whose hexadecimal spelling is `XXXX`
/// (outside the surrogates): its UTF-8 bytes, followed by the rest of the
/// string.
pub proof fn law_unicode_escape_value(cp: int, rest: Seq<u8>)
    requires
        0 <= cp < 0x10000,
        cp < 0xD800 || cp >= 0xE000,
    ensures
        unescape(seq![92u8, 117u8] + hex_spelling(cp) + rest) == prepend(utf8_bytes(cp), unescape(rest)),
{
    let s = seq![92u8, 117u8] + hex_spelling(cp) + rest;
    let d0 = cp / 4096;
    let d1 = (cp / 256) % 16;
    let d2 = (cp / 16) % 16;
    let d3 = cp % 16;
    assert(0 <= d0 < 16 && 0 <= d1 < 16 && 0 <= d2 < 16 && 0 <= d3 < 16) by (nonlinear_arith)
        requires
            0 <= cp < 0x10000,
            d0 == cp / 4096,
            d1 == (cp / 256) % 16,
            d2 == (cp / 16) % 16,
            d3 == cp % 16,
    ;
    assert(d0 * 4096 + d1 * 256 + d2 * 16 + d3 == cp) by (nonlinear_arith)
        requires
            0 <= cp < 0x10000,
            d0 == cp / 4096,
            d1 == (cp / 256) % 16,
            d2 == (cp / 16) % 16,
            d3 == cp % 16,
    ;
    assert(hex_value(hex_char(d0)) == d0);
    assert(hex_value(hex_char(d1)) == d1);
    assert(hex_value(hex_char(d2)) == d2);
    assert(hex_value(hex_char(d3)) == d3);
    assert(s[2] == hex_char(d0) && s[3] == hex_char(d1) && s[4] == hex_char(d2) && s[5] == hex_char(d3));
    assert(hex4(s, 2) == cp);
    assert(s.subrange(6, s.len() as int) =~= rest);
}

fn hex_digit(c: u8) -> (v: i32)
    ensures
        v == hex_value(c),
{
    if 48u8 <= c && c <= 57u8 {
        (c - 48u8) as i32
    } else if 97u8 <= c && c <= 102u8 {
        (c - 87u8) as i32
    } else if 65u8 <= c && c <= 70u8 {
        (c - 55u8) as i32
    } else {
        -1
    }
}

fn read_hex4(s: &[u8], i: usize) -> (v: i64)
    ensures
        v == hex4(s@, i as int),
{
    if i > s.len() || s.len() - i < 4 {
        return -1;
    }
    let h0 = hex_digit(s[i]);
    let h1 = hex_digit(s[i + 1]);
    let h2 = hex_digit(s[i + 2]);
    let h3 = hex_digit(s[i + 3]);
    if h0 < 0 || h1 < 0 || h2 < 0 || h3 < 0 {
        return -1;
    }
    (h0 as i64) * 4096 + (h1 as i64) * 256 + (h2 as i64) * 16 + (h3 as i64)
}

fn push_utf8(out: &mut Vec<u8>, cp: u32)
    requires
        cp < 0x110000,
    ensures
        final(out)@ == old(out)@ + utf8_bytes(cp as int),
{
    if cp < 0x80 {
        out.push(cp as u8);
    } else if cp < 0x800 {
        out.push((0xC0 + cp / 64) as u8);
        out.push((0x80 + cp % 64) as u8);
    } else if cp < 0x10000 {
        out.push((0xE0 + cp / 4096) as u8);
        out.push((0x80 + (cp / 64) % 64) as u8);
        out.push((0x80 + cp % 64) as u8);
    } else {
        out.push((0xF0 + cp / 262144) as u8);
        out.push((0x80 + (cp / 4096) % 64) as u8);
        out.push((0x80 + (cp / 64) % 64) as u8);
        out.push((0x80 + cp % 64) as u8);
    }
    assert(final(out)@ =~= old(out)@ + utf8_bytes(cp as int));
}

proof fn lemma_prepend_assoc(out: Seq<u8>, pre: Seq<u8>, o: Option<Seq<u8>>)
    ensures
        prepend(out, prepend(pre, o)) == prepend(out + pre, o),
{
    match o {
        Some(x) => {
            assert(out + (pre + x) =~= (out + pre) + x);
        },
        None => {},
    }
}

/// One step of `unescape` on the bytes `s[i..end]`, whose first byte is at `i`.
#[verifier::spinoff_prover]
#[verifier::rlimit(40)]
proof fn lemma_unescape_unfold(s: Seq<u8>, i: int, end: int)
    requires
        0 <= i < end <= s.len(),
    ensures
        ({
            let rest = s.subrange(i, end);
            &&& s[i] == 34u8 ==> unescape(rest) is None
            &&& (s[i] != 34u8 && s[i] != 92u8) ==> unescape(rest) == prepend(
                seq![s[i]],
                unescape(s.subrange(i + 1, end)),
            )
            &&& (s[i] == 92u8 && end - i < 2) ==> unescape(rest) is None
            &&& (s[i] == 92u8 && end - i >= 2 && s[i + 1] != 117u8) ==> unescape(rest) == (
            if simple_escape(s[i + 1]) < 0 {
                None
            } else {
                prepend(seq![simple_escape(s[i + 1]) as u8], unescape(s.subrange(i + 2, end)))
            })
            &&& (s[i] == 92u8 && end - i >= 2 && s[i + 1] == 117u8) ==> unescape(rest) == ({
                let cp = hex4(s, i + 2);
                let cp = if end - i < 6 { -1 } else { cp };
                if cp < 0 {
                    None
                } else if 0xD800 <= cp < 0xDC00 {
                    let lo = hex4(s, i + 8);
                    if end - i >= 12 && s[i + 6] == 92u8 && s[i + 7] == 117u8 && 0xDC00 <= lo
                        < 0xE000 {
                        prepend(
                            utf8_bytes(0x10000 + (cp - 0xD800) * 1024 + (lo - 0xDC00)),
                            unescape(s.subrange(i + 12, end)),
                        )
                    } else {
                        None
                    }
                } else if 0xDC00 <= cp < 0xE000 {
                    None
                } else {
                    prepend(utf8_bytes(cp), unescape(s.subrange(i + 6, end)))
                }
            })
        }),
{
    let rest = s.subrange(i, end);
    assert(rest.subrange(1, rest.len() as int) =~= s.subrange(i + 1, end));
    if rest.len() >= 2 {
        assert(rest.subrange(2, rest.len() as int) =~= s.subrange(i + 2, end));
    }
    if rest.len() >= 6 {
        assert(rest.subrange(6, rest.len() as int) =~= s.subrange(i + 6, end));
        assert(hex4(rest, 2) == hex4(s, i + 2));
    } else {
        assert(hex4(rest, 2) == -1);
    }
    if rest.len() >= 12 {
        assert(rest.subrange(12, rest.len() as int) =~= s.subrange(i + 12, end));
        assert(hex4(rest, 8) == hex4(s, i + 8));
    }
}

/// Resolves the escapes of the bytes `s[start..end]`.
fn unescape_range(s: &[u8], start: usize, end: usize) -> (r: Option<Vec<u8>>)
    requires
        start <= end <= s@.len(),
    ensures
        match r {
            Some(v) => unescape(s@.subrange(start as int, end as int)) == Some(v@),
            None => unescape(s@.subrange(start as int, end as int)) is None,
        },
{
    let ghost full = s@.subrange(start as int, end as int);
    let mut out: Vec<u8> = Vec::new();
    let mut i = start;
    assert(out@ + Seq::<u8>::empty() =~= Seq::<u8>::empty());
    proof {
        match unescape(full) {
            Some(x) => { assert(out@ + x =~= x); }
            None => {}
        }
    }
    while i < end
        invariant
            start <= i <= end <= s@.len(),
            full == s@.subrange(start as int, end as int),
            unescape(full) == prepend(out@, unescape(s@.subrange(i as int, end as int))),
        decreases end - i,
    {
        proof {
            lemma_unescape_unfold(s@, i as int, end as int);
        }
        let c = s[i];
        if c == 34u8 {
            return None;
        }
        if c != 92u8 {
            proof {
                lemma_prepend_assoc(out@, seq![c], unescape(s@.subrange(i + 1, end as int)));
                assert(out@ + seq![c] =~= out@.push(c));
            }
            out.push(c);
            i = i + 1;
        } else {
            if end - i < 2 {
                return None;
            }
            let e = s[i + 1];
            if e == 117u8 {
                if end - i < 6 {
                    return None;
                }
                let cp = read_hex4(s, i + 2);
                if cp < 0 {
                    return None;
                }
                if 0xD800 <= cp && cp < 0xDC00 {
                    if end - i < 12 || s[i + 6] != 92u8 || s[i + 7] != 117u8 {
                        return None;
                    }
                    let lo = read_hex4(s, i + 8);
                    if !(0xDC00 <= lo && lo < 0xE000) {
                        return None;
                    }
                    let scalar = (0x10000 + (cp - 0xD800) * 1024 + (lo - 0xDC00)) as u32;
                    proof {
                        lemma_prepend_assoc(
                            out@,
                            utf8_bytes(scalar as int),
                            unescape(s@.subrange(i + 12, end as int)),
                        );
                    }
                    push_utf8(&mut out, scalar);
                    i = i + 12;
                } else if 0xDC00 <= cp && cp < 0xE000 {
                    return None;
                } else {
                    proof {
                        lemma_prepend_assoc(
                            out@,
                            utf8_bytes(cp as int),
                            unescape(s@.subrange(i + 6, end as int)),
                        );
                    }
                    push_utf8(&mut out, cp as u32);
                    i = i + 6;
                }
            } else {
                let m: i32 = if e == 34u8 {
                    34
                } else if e == 92u8 {
                    92
                } else if e == 47u8 {
                    47
                } else if e == 98u8 {
                    8
                } else if e == 102u8 {
                    12
                } else if e == 110u8 {
                    10
                } else if e == 114u8 {
                    13
                } else if e == 116u8 {
                    9
                } else {
                    -1
                };
                assert(m == simple_escape(e));
                if m < 0 {
                    return None;
                }
                proof {
                    lemma_prepend_assoc(out@, seq![m as u8], unescape(s@.subrange(i + 2, end as int)));
                    assert(out@ + seq![m as u8] =~= out@.push(m as u8));
                }
                out.push(m as u8);
                i = i + 2;
            }
        }
    }
    proof {
        assert(s@.subrange(end as int, end as int) =~= Seq::<u8>::empty());
        assert(out@ + Seq::<u8>::empty() =~= out@);
    }
    Some(out)
}

/// Why a string token could not be decoded.
#[derive(Clone, Copy, Debug, PartialEq, Eq, Structural)]
pub enum StringError {
    /// A quoted token that is not closed, or holds a quote or escape it may not.
    BadQuoting,
    /// The bytes it stands for are not valid UTF-8.
    NotUtf8,
}

/// Decodes the string token `s[start..end]`.
pub fn decode_string(s: &[u8], start: usize, end: usize) -> (r: Result<String, StringError>)
    requires
        start <= end <= s@.len(),
    ensures
        ({
            let t = token_string(s@.subrange(start as int, end as int));
            match r {
                Ok(v) => t == Some(encode_utf8(v@)),
                Err(StringError::BadQuoting) => t is None,
                Err(StringError::NotUtf8) => (t matches Some(x) && !valid_utf8(x)),
            }
        }),
        r is Ok ==> (token_string(s@.subrange(start as int, end as int)) matches Some(x) && valid_utf8(x)),
{
    let ghost t = s@.subrange(start as int, end as int);
    if end > start && s[start] == 34u8 {
        if end - start < 2 || s[end - 1] != 34u8 {
            return Err(StringError::BadQuoting);
        }
        proof {
            assert(t.subrange(1, t.len() - 1) =~= s@.subrange(start + 1, end - 1));
        }
        match unescape_range(s, start + 1, end - 1) {
            Some(v) => match string_from_bytes(v.as_slice()) {
                Some(st) => Ok(st),
                None => Err(StringError::NotUtf8),
            },
            None => Err(StringError::BadQuoting),
        }
    } else {
        let mut v: Vec<u8> = Vec::new();
        let mut k = start;
        while k < end
            invariant
                start <= k <= end <= s@.len(),
                v@ == s@.subrange(start as int, k as int),
            decreases end - k,
        {
            v.push(s[k]);
            k = k + 1;
            assert(v@ =~= s@.subrange(start as int, k as int));
        }
        match string_from_bytes(v.as_slice()) {
            Some(st) => Ok(st),
            None => Err(StringError::NotUtf8),
        }
    }
}


/// The node a string token stands for, if it can be decoded.
pub open spec fn string_view(t: Seq<u8>) -> Option<NodeView> {
    match token_string(t) {
        Some(x) => if valid_utf8(x) { Some(NodeView::Str(x)) } else { None },
        None => None,
    }
}

/// The node an unquoted or quoted value token stands for: a token that starts
/// with a digit or `-` is a number if it follows the number grammar, the
/// tokens `true`, `false` and `null` are literals, and anything else is a
/// string. `None` when the token is a string that cannot be decoded.
pub open spec fn inferred_view(t: Seq<u8>) -> Option<NodeView> {
    if t.len() > 0 && (is_digit(t[0]) || t[0] == 45u8) {
        if is_number(t) { Some(number_view(t)) } else { string_view(t) }
    } else if t == lit_true() {
        Some(NodeView::Bool(true))
    } else if t == lit_false() {
        Some(NodeView::Bool(false))
    } else if t == lit_null() {
        Some(NodeView::Null)
    } else {
        string_view(t)
    }
}

/// The bytes `s[start..end]` as a vector.
pub fn copy_range(s: &[u8], start: usize, end: usize) -> (v: Vec<u8>)
    requires
        start <= end <= s@.len(),
    ensures
        v@ == s@.subrange(start as int, end as int),
{
    let mut v: Vec<u8> = Vec::new();
    let mut k = start;
    while k < end
        invariant
            start <= k <= end <= s@.len(),
            v@ == s@.subrange(start as int, k as int),
        decreases end - k,
    {
        v.push(s[k]);
        k = k + 1;
        assert(v@ =~= s@.subrange(start as int, k as int));
    }
    v
}

/// Decodes the value token `s[start..end]` into a node; an integer token is
/// an `I64` where it starts with `-` and a `U64` otherwise.
pub fn infer_value(s: &[u8], start: usize, end: usize) -> (r: Result<Node, StringError>)
    requires
        start <= end <= s@.len(),
    ensures
        match r {
            Ok(n) => inferred_view(s@.subrange(start as int, end as int)) == Some(n@),
            Err(_) => inferred_view(s@.subrange(start as int, end as int)) is None,
        },
        r matches Ok(n) ==> (n matches Node::Static(StaticNode::I64(_)) <==> (n@ is Int && s@[start as int]
            == 45u8)),
        r matches Ok(n) ==> (n matches Node::Static(StaticNode::U64(_)) <==> (n@ is Int && s@[start as int]
            != 45u8)),
        r matches Ok(n) ==> int_kind_ok(n),
{
    let tok = copy_range(s, start, end);
    let t = tok.as_slice();
    if end > start && ((48u8 <= s[start] && s[start] <= 57u8) || s[start] == 45u8) {
        match parse_number(t) {
            Some(n) => return Ok(Node::Static(n)),
            None => {},
        }
    } else {
        let lt: [u8; 4] = [116u8, 114u8, 117u8, 101u8];
        let lf: [u8; 5] = [102u8, 97u8, 108u8, 115u8, 101u8];
        let ln: [u8; 4] = [110u8, 117u8, 108u8, 108u8];
        assert(lt@ == lit_true());
        assert(lf@ == lit_false());
        assert(ln@ == lit_null());
        if eq_literal(t, lt.as_slice()) {
            return Ok(Node::Static(StaticNode::Bool(true)));
        }
        if eq_literal(t, lf.as_slice()) {
            return Ok(Node::Static(StaticNode::Bool(false)));
        }
        if eq_literal(t, ln.as_slice()) {
            return Ok(Node::Static(StaticNode::Null));
        }
    }
    match decode_string(s, start, end) {
        Ok(st) => Ok(Node::String(st)),
        Err(e) => Err(e),
    }
}

} // verus!
