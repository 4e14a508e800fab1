//! Building the tape from the structural offsets: an indentation-driven state
//! machine over the tokens of the document.
use vstd::prelude::*;

use crate::error::{Error, ErrorType};
use crate::scalar::{
    decode_string, digits_value, infer_value, inferred_view, is_digit, string_view, StringError,
};
use crate::tape::{int_kind_ok, int_kinds, lemma_int_kinds_change, lemma_int_kinds_empty, tape_view, Node, NodeView, StaticNode};
use crate::value::{
    agree_on, lemma_read_elems_agree, lemma_read_elems_bounds, lemma_read_fields_agree,
    lemma_read_fields_bounds, read_at, read_elems, read_fields,
};

verus! {

/// What kind of container a saved frame belongs to.
#[derive(Clone, Copy, Debug, PartialEq, Eq, Structural)]
pub enum FrameKind {
    Start,
    Object,
    Array,
}

/// The saved state of the container that encloses the one being built.
#[derive(Clone, Copy, Debug, PartialEq, Eq, Structural)]
pub struct Frame {
    pub kind: FrameKind,
    pub last_start: usize,
    pub cnt: usize,
}

/// One step of the depth-first walk over the fields of a tabular header with
/// nested field groups: a leaf field, the opening of a named group, or the
/// closing of the innermost open group.
#[derive(Clone, Copy, Debug, PartialEq, Eq, Structural)]
pub enum FieldOp {
    Leaf(usize, usize),
    Open(usize, usize),
    Close,
}

/// A classified header line.
pub enum Header {
    /// A lone value (in a block array item or as the whole document).
    PrimitiveValue(usize, usize),
    /// `key:`
    ObjectStart(usize, usize),
    /// Nothing before the end of the line.
    EmptyObject,
    /// `key[N]:` with `N > 0`, inline or block.
    SimpleArray { count: usize, key: Option<(usize, usize)>, delimiter: u8 },
    /// `key[0]:`
    EmptyArray { key: Option<(usize, usize)> },
    /// `key[N:]{fields}:`
    KeyedTabularObjects {
        key: Option<(usize, usize)>,
        headers: Vec<(usize, usize)>,
        rows: usize,
        delimiter: u8,
    },
    /// `key[N]{fields}:`
    TabularArray { key: Option<(usize, usize)>, headers: Vec<(usize, usize)>, rows: usize, delimiter: u8 },
    /// `key[N]{a,b{c,d},e}:`
    NestedFieldGroupsArray {
        key: Option<(usize, usize)>,
        ops: Vec<FieldOp>,
        rows: usize,
        delimiter: u8,
    },
}

/// How the next line relates to the current one.
#[derive(Clone, Copy, Debug, PartialEq, Eq, Structural)]
pub enum Eol {
    Sibling,
    CloseScope,
    Nested,
}

/// A node is what some token of the document stands for.
pub open spec fn from_token(n: NodeView, b: Seq<u8>) -> bool {
    exists|a: int, e: int|
        #![trigger b.subrange(a, e)]
        0 <= a <= e <= b.len() && (inferred_view(b.subrange(a, e)) == Some(n) || string_view(
            b.subrange(a, e),
        ) == Some(n))
}

/// Every node of the tape that is not a container stands for a token of the document.
pub open spec fn leaves_from(t: Seq<NodeView>, b: Seq<u8>) -> bool {
    forall|k: int| 0 <= k < t.len() && !is_container(t[k]) ==> from_token(#[trigger] t[k], b)
}

/// Appending a container, or a node that stands for a token, keeps every
/// leaf standing for a token.
pub proof fn lemma_leaves_push(t: Seq<NodeView>, b: Seq<u8>, n: NodeView)
    requires
        leaves_from(t, b),
        is_container(n) || from_token(n, b),
    ensures
        leaves_from(t.push(n), b),
{
    assert forall|k: int| 0 <= k < t.push(n).len() && !is_container(t.push(n)[k]) implies from_token(
        #[trigger] t.push(n)[k],
        b,
    ) by {
        if k < t.len() {
            assert(t.push(n)[k] == t[k]);
        }
    }
}

/// A node that opens a container.
pub open spec fn is_container(n: NodeView) -> bool {
    n is Object || n is Array
}

/// A saved frame names the kind of the container it belongs to.
pub open spec fn kind_matches(k: FrameKind, n: NodeView) -> bool {
    (k == FrameKind::Object && n is Object) || (k == FrameKind::Array && n is Array)
}

/// The container opened at `p` holds `c` complete entries, which end at `e`.
pub open spec fn complete_at(t: Seq<NodeView>, p: int, c: int, e: int) -> bool {
    &&& 0 <= p < t.len()
    &&& c >= 0
    &&& match t[p] {
        NodeView::Array { .. } => read_elems(t, p + 1, c as nat) matches Some((vs, f)) && f == e,
        NodeView::Object { .. } => read_fields(t, p + 1, c as nat) matches Some((es, f)) && f == e,
        _ => false,
    }
}

/// The container opened at `p` holds `c - 1` complete entries and, if it is
/// an object, the key of one more; the value of that entry starts at `e`.
pub open spec fn pending_at(t: Seq<NodeView>, p: int, c: int, e: int) -> bool {
    &&& 0 <= p < t.len()
    &&& c >= 1
    &&& match t[p] {
        NodeView::Array { .. } => read_elems(t, p + 1, (c - 1) as nat) matches Some((vs, f)) && f == e,
        NodeView::Object { .. } => read_fields(t, p + 1, (c - 1) as nat) matches Some((es, f)) && f + 1
            == e && e <= t.len() && t[f] is Str,
        _ => false,
    }
}

pub open spec fn level_start(stack: Seq<Frame>, ls: int, j: int) -> int {
    if j + 1 < stack.len() {
        stack[j + 1].last_start as int
    } else {
        ls
    }
}

pub open spec fn level_count(stack: Seq<Frame>, cnt: int, j: int) -> int {
    if j + 1 < stack.len() {
        stack[j + 1].cnt as int
    } else {
        cnt
    }
}

pub open spec fn level_shape(stack: Seq<Frame>, t: Seq<NodeView>, ls: int, cnt: int, j: int) -> bool {
    &&& 0 <= level_start(stack, ls, j) < level_start(stack, ls, j + 1)
    &&& kind_matches(stack[j + 1].kind, t[level_start(stack, ls, j)])
    &&& pending_at(t, level_start(stack, ls, j), level_count(stack, cnt, j), level_start(stack, ls, j + 1))
}

pub open spec fn chain_shape(stack: Seq<Frame>, t: Seq<NodeView>, ls: int, cnt: int) -> bool {
    &&& stack.len() >= 1
    &&& stack[0].kind == FrameKind::Start
    &&& level_start(stack, ls, 0) == 0
    &&& 0 <= ls < t.len()
    &&& is_container(t[ls])
    &&& forall|j: int| 0 <= j < stack.len() - 1 ==> #[trigger] level_shape(stack, t, ls, cnt, j)
}

/// The tape holds one value and nothing else.
pub open spec fn tape_complete(t: Seq<NodeView>) -> bool {
    read_at(t, 0) matches Some((v, e)) && e == t.len()
}

/// A value that starts where a pending entry expects it completes the entry.
pub proof fn lemma_pending_then_value(t: Seq<NodeView>, p: int, c: int, e: int)
    requires
        pending_at(t, p, c, e),
        read_at(t, e) is Some,
    ensures
        complete_at(t, p, c, read_at(t, e)->Some_0.1),
{
    match t[p] {
        NodeView::Array { .. } => {
            lemma_read_elems_bounds(t, p + 1, (c - 1) as nat);
            assert(((c - 1) as nat + 1) as nat == c as nat);
        },
        NodeView::Object { .. } => {
            lemma_read_fields_bounds(t, p + 1, (c - 1) as nat);
            assert(((c - 1) as nat + 1) as nat == c as nat);
        },
        _ => {},
    }
}

/// Whether an entry is complete or pending depends only on the nodes from
/// the container to where its entries end.
pub proof fn lemma_shape_agree(t: Seq<NodeView>, u: Seq<NodeView>, p: int, c: int, e: int)
    requires
        0 <= p < e,
        agree_on(t, u, p, e),
    ensures
        complete_at(t, p, c, e) ==> complete_at(u, p, c, e),
        pending_at(t, p, c, e) ==> pending_at(u, p, c, e),
{
    assert(t[p] == u[p]);
    if c >= 0 {
        lemma_read_elems_agree(t, u, p + 1, c as nat);
        lemma_read_fields_agree(t, u, p + 1, c as nat);
        lemma_read_elems_bounds(t, p + 1, c as nat);
        lemma_read_fields_bounds(t, p + 1, c as nat);
    }
    if c >= 1 {
        lemma_read_elems_agree(t, u, p + 1, (c - 1) as nat);
        lemma_read_fields_agree(t, u, p + 1, (c - 1) as nat);
        lemma_read_elems_bounds(t, p + 1, (c - 1) as nat);
        lemma_read_fields_bounds(t, p + 1, (c - 1) as nat);
        if let Some((es, f)) = read_fields(t, p + 1, (c - 1) as nat) {
            if f + 1 == e {
                assert(t[f] == u[f]);
            }
        }
    }
}

/// `a + b`, saturated at the largest `usize`.
pub open spec fn sat_add(a: int, b: int) -> int {
    if a + b > usize::MAX {
        usize::MAX as int
    } else {
        a + b
    }
}

/// How a line indented by `ws` spaces relates to lines indented by `cur`,
/// a level being `step` spaces deeper; `None` for an indentation that is
/// none of the three.
pub open spec fn classify_indent(ws: int, cur: int, step: int) -> Option<Eol> {
    if ws == cur {
        Some(Eol::Sibling)
    } else if ws < cur {
        Some(Eol::CloseScope)
    } else if ws == sat_add(cur, step) {
        Some(Eol::Nested)
    } else {
        None
    }
}

/// The byte the cursor is on after `j` structural bytes were taken (`0`
/// before the first).
pub open spec fn byte_at(input: Seq<u8>, si: Seq<u32>, j: int) -> u8 {
    if 1 <= j <= si.len() {
        input[si[j - 1] as int]
    } else {
        0
    }
}

/// Where a walk over the structural bytes from cursor `j` stops at one of
/// three delimiters; `None` if a newline that is none of them, or the end of
/// the offsets, comes first.
pub open spec fn delim_stop(input: Seq<u8>, si: Seq<u32>, j: int, d0: u8, d1: u8, d2: u8) -> Option<int>
    decreases si.len() - j,
{
    if j < 0 || j > si.len() {
        None
    } else {
        let c = byte_at(input, si, j);
        if c == d0 || c == d1 || c == d2 {
            Some(j)
        } else if c == 10u8 {
            None
        } else if j >= si.len() {
            None
        } else {
            delim_stop(input, si, j + 1, d0, d1, d2)
        }
    }
}

/// A walk that stops, stops on one of its delimiters, at or after where it started.
pub proof fn lemma_delim_stop_byte(input: Seq<u8>, si: Seq<u32>, j: int, d0: u8, d1: u8, d2: u8)
    ensures
        delim_stop(input, si, j, d0, d1, d2) matches Some(k) ==> j <= k <= si.len() && (byte_at(input, si, k)
            == d0 || byte_at(input, si, k) == d1 || byte_at(input, si, k) == d2),
    decreases si.len() - j,
{
    if 0 <= j < si.len() {
        lemma_delim_stop_byte(input, si, j + 1, d0, d1, d2);
    }
}

/// The end of `b[start..end]` with trailing spaces and carriage returns dropped.
pub open spec fn trim_end(b: Seq<u8>, start: int, end: int) -> int
    decreases end - start,
{
    if end > start && is_blank_byte(b[end - 1]) {
        trim_end(b, start, end - 1)
    } else {
        end
    }
}

/// Trimming keeps the end within `start..=end`.
pub proof fn lemma_trim_end_bounds(b: Seq<u8>, start: int, end: int)
    requires
        start <= end,
    ensures
        start <= trim_end(b, start, end) <= end,
    decreases end - start,
{
    if end > start && is_blank_byte(b[end - 1]) {
        lemma_trim_end_bounds(b, start, end - 1);
    }
}

/// The cursor after every newline from cursor `j` on has been passed.
pub open spec fn skip_newlines(input: Seq<u8>, si: Seq<u32>, j: int) -> int
    decreases si.len() - j,
{
    if 1 <= j < si.len() && byte_at(input, si, j) == 10u8 {
        skip_newlines(input, si, j + 1)
    } else {
        j
    }
}

/// The next line, indented by `w`, still lies inside the outermost block
/// array that is waiting for its items.
pub open spec fn inside_pending(pending: Seq<(usize, usize)>, ws: Seq<usize>, w: int) -> bool {
    pending.len() > 0 && pending[0].0 >= 1 && pending[0].0 - 1 < ws.len() && w >= ws[pending[0].0 - 1]
}

/// The number of field steps that put a key on the tape: leaves and group openings.
pub open spec fn keyed_ops(ops: Seq<FieldOp>) -> nat
    decreases ops.len(),
{
    if ops.len() == 0 {
        0
    } else {
        keyed_ops(ops.drop_last()) + if ops.last() is Close {
            0nat
        } else {
            1nat
        }
    }
}

/// The indentation of the lines inside the innermost open container.
pub open spec fn indent_of(ws: Seq<usize>) -> int {
    if ws.len() > 0 {
        ws.last() as int
    } else {
        0
    }
}

/// `Machine::eol_outcome` of a machine whose cursor, pending counts and
/// indentation stack are the given ones.
pub open spec fn eol_outcome_of(
    input: Seq<u8>,
    si: Seq<u32>,
    strict: bool,
    step: int,
    i: int,
    c: u8,
    pending: Seq<(usize, usize)>,
    ws: Seq<usize>,
    blank_err: bool,
) -> Option<Eol> {
    if i >= si.len() {
        Some(Eol::CloseScope)
    } else if c != 10u8 {
        None
    } else {
        let j = skip_newlines(input, si, i + 1);
        if j >= si.len() {
            Some(Eol::CloseScope)
        } else {
            let w = si[j - 1] - si[j - 2] - 1;
            if j > i + 1 && strict && (blank_err || inside_pending(pending, ws, w)) {
                None
            } else {
                classify_indent(w, indent_of(ws), step)
            }
        }
    }
}

/// A header's key, if it has one, can be counted and decoded.
pub open spec fn key_decodes(input: Seq<u8>, cnt: int, key: Option<(usize, usize)>) -> bool {
    match key {
        Some(k) => cnt < usize::MAX && string_view(input.subrange(k.0 as int, k.1 as int)) is Some,
        None => true,
    }
}

/// The byte offset of the cursor after `i` structural bytes were taken.
pub open spec fn cursor_pos(si: Seq<u32>, i: int) -> int {
    if 1 <= i <= si.len() {
        si[i - 1] as int
    } else {
        0
    }
}

/// The token from the cursor `i` up to the structural byte at cursor `j`,
/// without trailing spaces.
pub open spec fn token_to(input: Seq<u8>, si: Seq<u32>, i: int, j: int) -> Seq<u8> {
    let a = cursor_pos(si, i);
    input.subrange(a, trim_end(input, a, si[j - 1] as int))
}

/// The cursor after `n` values from cursor `i` on, each ended by the
/// delimiter `d` and decodable; `None` where one is not.
pub open spec fn inline_items(input: Seq<u8>, si: Seq<u32>, i: int, n: nat, d: u8) -> Option<int>
    decreases n,
{
    if n == 0 {
        Some(i)
    } else {
        match delim_stop(input, si, i, d, d, d) {
            Some(j) => if j < si.len() && inferred_view(token_to(input, si, i, j)) is Some {
                inline_items(input, si, j + 1, (n - 1) as nat, d)
            } else {
                None
            },
            None => None,
        }
    }
}

/// Every field name decodes as a string.
pub open spec fn names_decode(input: Seq<u8>, names: Seq<(usize, usize)>) -> bool {
    forall|h: int| 0 <= h < names.len() ==> (#[trigger] string_view(input.subrange(names[h].0 as int, names[h].1 as int))) is Some
}

/// A field name that does not decode spoils the list.
pub proof fn lemma_name_fails(input: Seq<u8>, names: Seq<(usize, usize)>, h: int)
    requires
        0 <= h < names.len(),
        string_view(input.subrange(names[h].0 as int, names[h].1 as int)) is None,
    ensures
        !names_decode(input, names),
{
}

/// The cursor on the newline that ends a row of `n` cells from cursor `i`:
/// `n - 1` values ended by the delimiter `d`, the last by the end of the line.
pub open spec fn row_cells_end(input: Seq<u8>, si: Seq<u32>, i: int, n: int, d: u8) -> Option<int> {
    match inline_items(input, si, i, (n - 1) as nat, d) {
        Some(j) => delim_stop(input, si, j, 10u8, 10u8, 10u8),
        None => None,
    }
}

/// The values of a row of `n` cells from cursor `i` can be read and
/// decoded; where `reject_empty` holds, a row of one cell is not empty.
pub open spec fn row_cells_ok(input: Seq<u8>, si: Seq<u32>, i: int, n: int, d: u8, reject_empty: bool) -> bool {
    match inline_items(input, si, i, (n - 1) as nat, d) {
        Some(j) => match delim_stop(input, si, j, 10u8, 10u8, 10u8) {
            Some(m) => inferred_view(token_to(input, si, j, m)) is Some && !(reject_empty && n == 1 && token_to(
                input,
                si,
                j,
                m,
            ).len() == 0),
            None => false,
        },
        None => false,
    }
}

/// The cursor on the first line of a document: past its first structural
/// byte, a leading comment marker and the blank lines.
pub open spec fn first_line(input: Seq<u8>, si: Seq<u32>) -> int {
    skip_newlines(input, si, if byte_at(input, si, 1) == 35u8 { 2 } else { 1 })
}

/// The token `input[a..e]` of a document that is one value on one line.
pub open spec fn lone_value(input: Seq<u8>, si: Seq<u32>) -> Option<(int, int)> {
    let k = first_line(input, si);
    if si.len() == 0 || (byte_at(input, si, 1) == 35u8 && si.len() < 2) || byte_at(input, si, k) == 10u8 {
        None
    } else {
        match delim_stop(input, si, k, 58u8, 91u8, 10u8) {
            Some(j) => {
                let a = cursor_pos(si, k);
                let e = trim_end(input, a, si[j - 1] as int);
                if j == si.len() && byte_at(input, si, j) == 10u8 && e > a {
                    Some((a, e))
                } else {
                    None
                }
            },
            None => None,
        }
    }
}

/// One `name: cells` row of keyed tabular objects from cursor `i` can be
/// read, its name counted as the `cnt + 1`-th key and decoded.
#[verifier::opaque]
pub open spec fn object_row_ok(input: Seq<u8>, si: Seq<u32>, i: int, cnt: int, names: Seq<(usize, usize)>, d: u8) -> bool {
    match delim_stop(input, si, i, 58u8, 58u8, 58u8) {
        Some(k) => {
            let a = cursor_pos(si, i);
            let e = trim_end(input, a, si[k - 1] as int);
            &&& cnt < usize::MAX
            &&& string_view(input.subrange(a, e)) is Some
            &&& k < si.len()
            &&& names_decode(input, names)
            &&& row_cells_ok(input, si, k + 1, names.len() as int, d, true)
        },
        None => false,
    }
}

/// The cursor on the newline that ends a `name: cells` row from cursor `i`.
#[verifier::opaque]
pub open spec fn object_row_end(input: Seq<u8>, si: Seq<u32>, i: int, n: int, d: u8) -> Option<int> {
    match delim_stop(input, si, i, 58u8, 58u8, 58u8) {
        Some(k) => row_cells_end(input, si, k + 1, n, d),
        None => None,
    }
}

/// `r` rows of keyed tabular objects from cursor `i` can be read, each
/// followed, but the last, by a sibling line.
#[verifier::opaque]
pub open spec fn object_rows_ok(
    input: Seq<u8>,
    si: Seq<u32>,
    strict: bool,
    step: int,
    i: int,
    pending: Seq<(usize, usize)>,
    ws: Seq<usize>,
    names: Seq<(usize, usize)>,
    d: u8,
    r: nat,
    cnt: int,
) -> bool
    decreases r,
{
    if r == 0 {
        true
    } else {
        object_row_ok(input, si, i, cnt, names, d) && match object_row_end(input, si, i, names.len() as int, d) {
            Some(m) => r == 1 || (eol_outcome_of(input, si, strict, step, m, 10u8, pending, ws, true) == Some(
                Eol::Sibling,
            ) && object_rows_ok(
                input,
                si,
                strict,
                step,
                skip_newlines(input, si, m + 1),
                pending,
                ws,
                names,
                d,
                (r - 1) as nat,
                cnt + 1,
            )),
            None => false,
        }
    }
}

/// One step of `object_rows_ok`: the first row, then the rest.
pub proof fn lemma_object_rows_step(
    input: Seq<u8>,
    si: Seq<u32>,
    strict: bool,
    step: int,
    i: int,
    pending: Seq<(usize, usize)>,
    ws: Seq<usize>,
    names: Seq<(usize, usize)>,
    d: u8,
    r: nat,
    cnt: int,
)
    requires
        r >= 1,
    ensures
        object_rows_ok(input, si, strict, step, i, pending, ws, names, d, r, cnt) == (object_row_ok(
            input,
            si,
            i,
            cnt,
            names,
            d,
        ) && match object_row_end(input, si, i, names.len() as int, d) {
            Some(m) => r == 1 || (eol_outcome_of(input, si, strict, step, m, 10u8, pending, ws, true) == Some(
                Eol::Sibling,
            ) && object_rows_ok(
                input,
                si,
                strict,
                step,
                skip_newlines(input, si, m + 1),
                pending,
                ws,
                names,
                d,
                (r - 1) as nat,
                cnt + 1,
            )),
            None => false,
        }),
{
    reveal(object_rows_ok);
}

/// Rows of a tabular array from cursor `i`: `r` of them where `count`
/// holds, else as many as there are until a line that closes the array;
/// each row's values can be read and decoded, its item counted as the
/// `cnt + 1`-th, and each row but the last is followed by a sibling line.
#[verifier::opaque]
pub open spec fn array_rows_ok(
    input: Seq<u8>,
    si: Seq<u32>,
    strict: bool,
    step: int,
    i: int,
    pending: Seq<(usize, usize)>,
    ws: Seq<usize>,
    names: Seq<(usize, usize)>,
    d: u8,
    r: nat,
    count: bool,
    cnt: int,
) -> bool
    decreases (if count { r } else { 0 }), si.len() - i,
{
    if count && r == 0 {
        true
    } else {
        &&& cnt < usize::MAX
        &&& names_decode(input, names)
        &&& row_cells_ok(input, si, i, names.len() as int, d, false)
        &&& match row_cells_end(input, si, i, names.len() as int, d) {
            Some(m) => if count && r == 1 {
                true
            } else {
                match eol_outcome_of(input, si, strict, step, m, 10u8, pending, ws, true) {
                    Some(Eol::Sibling) => {
                        let j = skip_newlines(input, si, m + 1);
                        i < j <= si.len() && array_rows_ok(
                            input,
                            si,
                            strict,
                            step,
                            j,
                            pending,
                            ws,
                            names,
                            d,
                            if count { (r - 1) as nat } else { r },
                            count,
                            cnt + 1,
                        )
                    },
                    Some(Eol::CloseScope) => !count,
                    _ => false,
                }
            },
            None => false,
        }
    }
}

/// One step of `array_rows_ok`: the first row, then the rest.
pub proof fn lemma_array_rows_step(
    input: Seq<u8>,
    si: Seq<u32>,
    strict: bool,
    step: int,
    i: int,
    pending: Seq<(usize, usize)>,
    ws: Seq<usize>,
    names: Seq<(usize, usize)>,
    d: u8,
    r: nat,
    count: bool,
    cnt: int,
)
    requires
        !(count && r == 0),
    ensures
        array_rows_ok(input, si, strict, step, i, pending, ws, names, d, r, count, cnt) == (cnt < usize::MAX
            && names_decode(input, names) && row_cells_ok(input, si, i, names.len() as int, d, false)
            && match row_cells_end(input, si, i, names.len() as int, d) {
            Some(m) => if count && r == 1 {
                true
            } else {
                match eol_outcome_of(input, si, strict, step, m, 10u8, pending, ws, true) {
                    Some(Eol::Sibling) => {
                        let j = skip_newlines(input, si, m + 1);
                        i < j <= si.len() && array_rows_ok(
                            input,
                            si,
                            strict,
                            step,
                            j,
                            pending,
                            ws,
                            names,
                            d,
                            if count { (r - 1) as nat } else { r },
                            count,
                            cnt + 1,
                        )
                    },
                    Some(Eol::CloseScope) => !count,
                    _ => false,
                }
            },
            None => false,
        }),
{
    reveal(array_rows_ok);
}

/// The field steps `ops[k..]` of a row with nested groups can be taken from
/// cursor `i`: `cnts` holds the key counts of the open groups, the current
/// one last, and `leaves` the values read so far; each name decodes, each
/// value up to the delimiter `d` (the `leaf_count`-th up to the end of the
/// line) decodes, no group closes more than was opened, and all are closed
/// at the end.
#[verifier::opaque]
pub open spec fn nested_ops_ok(
    input: Seq<u8>,
    si: Seq<u32>,
    ops: Seq<FieldOp>,
    k: int,
    i: int,
    cnts: Seq<int>,
    leaves: int,
    leaf_count: int,
    d: u8,
) -> bool
    decreases ops.len() - k,
{
    if k < 0 || cnts.len() == 0 {
        false
    } else if k >= ops.len() {
        cnts.len() == 1
    } else {
        let cnt = cnts.last();
        let counted = cnts.update(cnts.len() - 1, cnt + 1);
        match ops[k] {
            FieldOp::Leaf(a, b) => {
                let lv = sat_add(leaves, 1);
                let e = if lv == leaf_count { 10u8 } else { d };
                &&& string_view(input.subrange(a as int, b as int)) is Some
                &&& cnt < usize::MAX
                &&& match delim_stop(input, si, i, e, e, e) {
                    Some(j) => inferred_view(token_to(input, si, i, j)) is Some && if lv == leaf_count {
                        nested_ops_ok(input, si, ops, k + 1, j, counted, lv, leaf_count, d)
                    } else {
                        j < si.len() && nested_ops_ok(input, si, ops, k + 1, j + 1, counted, lv, leaf_count, d)
                    },
                    None => false,
                }
            },
            FieldOp::Open(a, b) => {
                &&& string_view(input.subrange(a as int, b as int)) is Some
                &&& cnt < usize::MAX
                &&& nested_ops_ok(input, si, ops, k + 1, i, counted.push(0), leaves, leaf_count, d)
            },
            FieldOp::Close => cnts.len() > 1 && nested_ops_ok(input, si, ops, k + 1, i, cnts.drop_last(), leaves, leaf_count, d),
        }
    }
}

/// One step of `nested_ops_ok`.
pub proof fn lemma_nested_ops_step(
    input: Seq<u8>,
    si: Seq<u32>,
    ops: Seq<FieldOp>,
    k: int,
    i: int,
    cnts: Seq<int>,
    leaves: int,
    leaf_count: int,
    d: u8,
)
    requires
        0 <= k,
        cnts.len() > 0,
    ensures
        nested_ops_ok(input, si, ops, k, i, cnts, leaves, leaf_count, d) == if k >= ops.len() {
            cnts.len() == 1
        } else {
            let cnt = cnts.last();
            let counted = cnts.update(cnts.len() - 1, cnt + 1);
            match ops[k] {
                FieldOp::Leaf(a, b) => {
                    let lv = sat_add(leaves, 1);
                    let e = if lv == leaf_count { 10u8 } else { d };
                    &&& string_view(input.subrange(a as int, b as int)) is Some
                    &&& cnt < usize::MAX
                    &&& match delim_stop(input, si, i, e, e, e) {
                        Some(j) => inferred_view(token_to(input, si, i, j)) is Some && if lv == leaf_count {
                            nested_ops_ok(input, si, ops, k + 1, j, counted, lv, leaf_count, d)
                        } else {
                            j < si.len() && nested_ops_ok(input, si, ops, k + 1, j + 1, counted, lv, leaf_count, d)
                        },
                        None => false,
                    }
                },
                FieldOp::Open(a, b) => {
                    &&& string_view(input.subrange(a as int, b as int)) is Some
                    &&& cnt < usize::MAX
                    &&& nested_ops_ok(input, si, ops, k + 1, i, counted.push(0), leaves, leaf_count, d)
                },
                FieldOp::Close => cnts.len() > 1 && nested_ops_ok(input, si, ops, k + 1, i, cnts.drop_last(), leaves, leaf_count, d),
            }
        },
{
    reveal(nested_ops_ok);
}

/// Where the field steps `ops[k..]` of a row with nested groups leave the
/// cursor and the byte under it, from cursor `i` on byte `c` with `leaves`
/// values read so far.
pub open spec fn nested_ops_end(
    input: Seq<u8>,
    si: Seq<u32>,
    ops: Seq<FieldOp>,
    k: int,
    i: int,
    c: u8,
    leaves: int,
    leaf_count: int,
    d: u8,
) -> Option<(int, u8)>
    decreases ops.len() - k,
{
    if k < 0 {
        None
    } else if k >= ops.len() {
        Some((i, c))
    } else {
        match ops[k] {
            FieldOp::Leaf(_, _) => {
                let lv = sat_add(leaves, 1);
                let e = if lv == leaf_count { 10u8 } else { d };
                match delim_stop(input, si, i, e, e, e) {
                    Some(j) => if lv == leaf_count {
                        nested_ops_end(input, si, ops, k + 1, j, e, lv, leaf_count, d)
                    } else {
                        nested_ops_end(input, si, ops, k + 1, j + 1, byte_at(input, si, j + 1), lv, leaf_count, d)
                    },
                    None => None,
                }
            },
            _ => nested_ops_end(input, si, ops, k + 1, i, c, leaves, leaf_count, d),
        }
    }
}

/// The number of values in a row: its leaf steps.
pub open spec fn leaf_total(ops: Seq<FieldOp>) -> int
    decreases ops.len(),
{
    if ops.len() == 0 {
        0
    } else {
        leaf_total(ops.drop_last()) + if ops.last() is Leaf {
            1int
        } else {
            0int
        }
    }
}

/// `r` rows with nested field groups from cursor `i` can be read, each row
/// counted as the `cnt + 1`-th item and followed, but the last, by a
/// sibling line.
#[verifier::opaque]
pub open spec fn group_rows_ok(
    input: Seq<u8>,
    si: Seq<u32>,
    strict: bool,
    step: int,
    i: int,
    pending: Seq<(usize, usize)>,
    ws: Seq<usize>,
    ops: Seq<FieldOp>,
    leaf_count: int,
    d: u8,
    r: nat,
    cnt: int,
) -> bool
    decreases r,
{
    if r == 0 {
        true
    } else {
        &&& cnt < usize::MAX
        &&& nested_ops_ok(input, si, ops, 0, i, seq![0int], 0, leaf_count, d)
        &&& match nested_ops_end(input, si, ops, 0, i, byte_at(input, si, i), 0, leaf_count, d) {
            Some((m, c)) => r == 1 || (eol_outcome_of(input, si, strict, step, m, c, pending, ws, true) == Some(
                Eol::Sibling,
            ) && group_rows_ok(
                input,
                si,
                strict,
                step,
                skip_newlines(input, si, m + 1),
                pending,
                ws,
                ops,
                leaf_count,
                d,
                (r - 1) as nat,
                cnt + 1,
            )),
            None => false,
        }
    }
}

/// One step of `group_rows_ok`: the first row, then the rest.
pub proof fn lemma_group_rows_step(
    input: Seq<u8>,
    si: Seq<u32>,
    strict: bool,
    step: int,
    i: int,
    pending: Seq<(usize, usize)>,
    ws: Seq<usize>,
    ops: Seq<FieldOp>,
    leaf_count: int,
    d: u8,
    r: nat,
    cnt: int,
)
    requires
        r >= 1,
    ensures
        group_rows_ok(input, si, strict, step, i, pending, ws, ops, leaf_count, d, r, cnt) == (cnt < usize::MAX
            && nested_ops_ok(input, si, ops, 0, i, seq![0int], 0, leaf_count, d) && match nested_ops_end(
            input,
            si,
            ops,
            0,
            i,
            byte_at(input, si, i),
            0,
            leaf_count,
            d,
        ) {
            Some((m, c)) => r == 1 || (eol_outcome_of(input, si, strict, step, m, c, pending, ws, true) == Some(
                Eol::Sibling,
            ) && group_rows_ok(
                input,
                si,
                strict,
                step,
                skip_newlines(input, si, m + 1),
                pending,
                ws,
                ops,
                leaf_count,
                d,
                (r - 1) as nat,
                cnt + 1,
            )),
            None => false,
        }),
{
    reveal(group_rows_ok);
}

/// The walk over a `{...}` field list from cursor `i` (on the `{` or a
/// delimiter): the spans of the names read, the cursor it ends at (past the
/// `}`), and whether it stopped at a nested group's `{` instead; `None`
/// where the list breaks off.
pub open spec fn field_walk(input: Seq<u8>, si: Seq<u32>, i: int, d: u8) -> Option<(Seq<(usize, usize)>, int, bool)>
    decreases si.len() - i,
{
    if i < 0 || i >= si.len() {
        None
    } else {
        let a = si[i] as int;
        match delim_stop(input, si, i + 1, d, 125u8, 123u8) {
            Some(j) => {
                let e = trim_end(input, a, si[j - 1] as int);
                let b = byte_at(input, si, j);
                if b == 123u8 {
                    Some((Seq::<(usize, usize)>::empty(), j, true))
                } else if b == 125u8 {
                    if j < si.len() {
                        Some((seq![(a as usize, e as usize)], j + 1, false))
                    } else {
                        None
                    }
                } else if i < j <= si.len() {
                    match field_walk(input, si, j, d) {
                        Some((fs, m, n)) => Some((seq![(a as usize, e as usize)] + fs, m, n)),
                        None => None,
                    }
                } else {
                    None
                }
            },
            None => None,
        }
    }
}

/// A walk that stops passes over no structural byte that is one of its
/// delimiters.
proof fn lemma_delim_stop_passes(input: Seq<u8>, si: Seq<u32>, j: int, d0: u8, d1: u8, d2: u8)
    ensures
        delim_stop(input, si, j, d0, d1, d2) matches Some(k) ==> forall|c: int|
            j <= c < k ==> byte_at(input, si, c) != d0 && byte_at(input, si, c) != d1 && byte_at(input, si, c) != d2,
    decreases si.len() - j,
{
    if 0 <= j < si.len() {
        lemma_delim_stop_passes(input, si, j + 1, d0, d1, d2);
    }
}

/// The names of a `{...}` field list are the pieces between the declared
/// delimiter `d`: no name holds a structural byte `d`, and between each name
/// and the next stands a structural `d`.
pub proof fn law_field_names_split(input: Seq<u8>, si: Seq<u32>, i: int, d: u8)
    requires
        offsets_ok(input, si),
    ensures
        field_walk(input, si, i, d) matches Some((fs, m, nested)) ==> {
            &&& forall|h: int, q: int|
                #![trigger fs[h], si[q]]
                0 <= h < fs.len() && 0 <= q < si.len() && fs[h].0 <= si[q] < fs[h].1 ==> input[si[q] as int] != d
            &&& forall|h: int|
                #![trigger fs[h]]
                0 <= h < fs.len() - 1 ==> exists|q: int|
                    #![trigger si[q]]
                    0 <= q < si.len() && fs[h].1 <= si[q] < fs[h + 1].0 && input[si[q] as int] == d
        },
    decreases si.len() - i,
{
    if 0 <= i < si.len() {
        let a = si[i] as int;
        lemma_delim_stop_byte(input, si, i + 1, d, 125u8, 123u8);
        lemma_delim_stop_passes(input, si, i + 1, d, 125u8, 123u8);
        if let Some(j) = delim_stop(input, si, i + 1, d, 125u8, 123u8) {
            assert(si[j - 1] >= si[i]) by {
                if j - 1 > i {
                    assert(si[i] < si[j - 1]);
                }
            }
            lemma_trim_end_bounds(input, a, si[j - 1] as int);
            let e = trim_end(input, a, si[j - 1] as int);
            let b = byte_at(input, si, j);
            assert forall|q: int| 0 <= q < si.len() && a <= si[q] < e implies input[si[q] as int] != d by {
                if q < i {
                    assert(si[q] < si[i]);
                }
                if q >= j - 1 {
                    if q > j - 1 {
                        assert(si[j - 1] < si[q]);
                    }
                }
                assert(byte_at(input, si, q + 1) == input[si[q] as int]);
            }
            if b != 123u8 && b != 125u8 && i < j <= si.len() {
                law_field_names_split(input, si, j, d);
                if let Some((fs, m, n)) = field_walk(input, si, j, d) {
                    let all = seq![(a as usize, e as usize)] + fs;
                    assert forall|h: int, q: int|
                        #![trigger all[h], si[q]]
                        0 <= h < all.len() && 0 <= q < si.len() && all[h].0 <= si[q] < all[h].1 implies input[si[q]
                        as int] != d by {
                        if h > 0 {
                            assert(all[h] == fs[h - 1]);
                        }
                    }
                    assert forall|h: int| #![trigger all[h]] 0 <= h < all.len() - 1 implies exists|q: int|
                        #![trigger si[q]]
                        0 <= q < si.len() && all[h].1 <= si[q] < all[h + 1].0 && input[si[q] as int] == d by {
                        if h > 0 {
                            assert(all[h] == fs[h - 1] && all[h + 1] == fs[h]);
                        } else {
                            assert(fs.len() > 0);
                            lemma_field_walk_first(input, si, j, d);
                            assert(all[1] == fs[0]);
                            assert(byte_at(input, si, j) == input[si[j - 1] as int]);
                            assert(si[j - 1] < si[j as int]);
                            assert(0 <= j - 1 < si.len() && all[0].1 <= si[j - 1] < all[1].0 && input[si[j - 1] as int] == d);
                        }
                    }
                }
            }
        }
    }
}

/// A walk that gives names starts its first name at the offset of cursor `j`.
proof fn lemma_field_walk_first(input: Seq<u8>, si: Seq<u32>, j: int, d: u8)
    ensures
        field_walk(input, si, j, d) matches Some((fs, m, n)) ==> fs.len() > 0 ==> 0 <= j < si.len() && fs[0].0 == si[j],
{
    if let Some((fs, m, n)) = field_walk(input, si, j, d) {
        if fs.len() > 0 && 0 <= j < si.len() {
            match delim_stop(input, si, j + 1, d, 125u8, 123u8) {
                Some(k) => {
                    if byte_at(input, si, k) != 123u8 && byte_at(input, si, k) != 125u8 {
                        if let Some((fs2, m2, n2)) = field_walk(input, si, k, d) {
                            assert(fs[0] == (si[j] as usize, trim_end(input, si[j] as int, si[k - 1] as int) as usize));
                        }
                    }
                },
                None => {},
            }
        }
    }
}

/// Trimming drops exactly the trailing spaces and carriage returns: what it
/// keeps is empty or ends in neither, and all it drops is spaces and
/// carriage returns.
pub proof fn law_trim_end(b: Seq<u8>, start: int, end: int)
    requires
        0 <= start <= end <= b.len(),
    ensures
        start <= trim_end(b, start, end) <= end,
        forall|j: int| trim_end(b, start, end) <= j < end ==> b[j] == 32u8 || b[j] == 13u8,
        trim_end(b, start, end) > start ==> b[trim_end(b, start, end) - 1] != 32u8 && b[trim_end(b, start, end) - 1]
            != 13u8,
    decreases end - start,
{
    if end > start && is_blank_byte(b[end - 1]) {
        law_trim_end(b, start, end - 1);
    }
}

/// Spaces and carriage returns added at the end of a token change nothing:
/// `b[start..end2]` trims to where `b[start..end]` does when all of
/// `b[end..end2]` is spaces and carriage returns.
pub proof fn law_trim_end_blank_tail(b: Seq<u8>, start: int, end: int, end2: int)
    requires
        0 <= start <= end <= end2 <= b.len(),
        forall|j: int| end <= j < end2 ==> b[j] == 32u8 || b[j] == 13u8,
    ensures
        trim_end(b, start, end2) == trim_end(b, start, end),
    decreases end2 - end,
{
    if end2 > end {
        assert(b[end2 - 1] == 32u8 || b[end2 - 1] == 13u8);
        law_trim_end_blank_tail(b, start, end, end2 - 1);
    }
}

/// The value after a `key:` whose cursor is `i` on byte `c`, with the
/// pending counts and indentation stack of its container: the node it puts
/// on the tape, the state to continue in and the cursor there; `None` where
/// it is refused. A value nested on the next lines is not covered.
pub open spec fn value_step(
    input: Seq<u8>,
    si: Seq<u32>,
    strict: bool,
    step: int,
    i: int,
    c: u8,
    pending: Seq<(usize, usize)>,
    ws: Seq<usize>,
) -> Option<(NodeView, Next, int)> {
    let empty_object = NodeView::Object { len: 0, count: 0 };
    if c == 10u8 {
        if i >= si.len() {
            Some((empty_object, Next::ScopeEnd, i))
        } else {
            match eol_outcome_of(input, si, strict, step, i, 10u8, pending, ws, false) {
                Some(Eol::Sibling) => Some((empty_object, Next::Header, skip_newlines(input, si, i + 1))),
                Some(Eol::CloseScope) => Some((empty_object, Next::ScopeEnd, skip_newlines(input, si, i + 1))),
                _ => None,
            }
        }
    } else {
        match delim_stop(input, si, i, 10u8, 10u8, 10u8) {
            Some(m) => {
                let a = cursor_pos(si, i);
                let tok = input.subrange(a, trim_end(input, a, si[m - 1] as int));
                let v = if tok == seq![91u8, 93u8] {
                    Some(NodeView::Array { len: 0, count: 0 })
                } else {
                    inferred_view(tok)
                };
                match v {
                    Some(v) => if m >= si.len() {
                        Some((v, Next::ScopeEnd, m))
                    } else {
                        match eol_outcome_of(input, si, strict, step, m, 10u8, pending, ws, false) {
                            Some(Eol::Sibling) => Some((v, Next::Header, skip_newlines(input, si, m + 1))),
                            Some(Eol::CloseScope) => Some((v, Next::ScopeEnd, skip_newlines(input, si, m + 1))),
                            _ => None,
                        }
                    },
                    None => None,
                }
            },
            None => None,
        }
    }
}

/// The key of a `key:` line at cursor `i` inside an object: its text
/// `input[a..e]` and the cursor `j` on its `:` (a key leniently followed by
/// a second bracket segment runs up to the `:`); `Some(None)` where the line
/// is refused there; `None` for an array header.
pub open spec fn line_key(input: Seq<u8>, si: Seq<u32>, strict: bool, i: int) -> Option<Option<(int, int, int)>> {
    match delim_stop(input, si, i, 58u8, 91u8, 10u8) {
        None => Some(None),
        Some(j) => {
            let b = byte_at(input, si, j);
            let a = cursor_pos(si, i);
            let e = trim_end(input, a, si[j - 1] as int);
            if b == 58u8 {
                if e > a {
                    Some(Some((a, e, j)))
                } else {
                    Some(None)
                }
            } else if b == 10u8 {
                Some(None)
            } else {
                match bracket_header(input, si, strict, j) {
                    None => Some(None),
                    Some((form, rows, d, cur, ke)) => if form == 0 {
                        Some(Some((a, ke, cur)))
                    } else if form < 4 && e <= a {
                        Some(None)
                    } else {
                        None
                    },
                }
            }
        },
    }
}

/// The values of an inline array of `n` from cursor `i` on, separated by
/// `d`, can be read: each decodes, and the line after the last does not
/// nest below the indentation stack `ws`.
pub open spec fn inline_ok(
    input: Seq<u8>,
    si: Seq<u32>,
    strict: bool,
    step: int,
    i: int,
    n: int,
    d: u8,
    ws: Seq<usize>,
) -> bool {
    match inline_items(input, si, i, (n - 1) as nat, d) {
        Some(j) => match delim_stop(input, si, j, 10u8, 10u8, 10u8) {
            Some(m) => inferred_view(token_to(input, si, j, m)) is Some && (eol_outcome_of(
                input,
                si,
                strict,
                step,
                m,
                10u8,
                seq![],
                ws,
                true,
            ) matches Some(e) && e != Eol::Nested),
            None => false,
        },
        None => false,
    }
}

/// How an object with indentation stack `ws` goes on after an inline array
/// whose line ends at cursor `m`, `lw` being the indentation last recorded:
/// how the next line relates to the object's keys, the cursor on it and the
/// indentation recorded there.
pub open spec fn inline_close(input: Seq<u8>, si: Seq<u32>, strict: bool, step: int, m: int, ws: Seq<usize>, lw: int) -> (
    Option<Eol>,
    int,
    int,
) {
    let i1 = if m < si.len() {
        skip_newlines(input, si, m + 1)
    } else {
        m
    };
    let lw1 = eol_ws(input, si, m, lw);
    let c1 = byte_at(input, si, i1);
    let dd = if c1 == 10u8 {
        eol_outcome_of(input, si, strict, step, i1, 10u8, seq![], ws, false)
    } else {
        classify_indent(lw1, indent_of(ws), step)
    };
    let k = if c1 == 10u8 && i1 < si.len() {
        skip_newlines(input, si, i1 + 1)
    } else {
        i1
    };
    let lw2 = if c1 == 10u8 {
        eol_ws(input, si, i1, lw1)
    } else {
        lw1
    };
    (dd, k, lw2)
}

/// A line `key[N]: v1,...` or `key[0]:` at cursor `i` inside an object with `cnt` keys,
/// indentation stack `ws` and `lw` the indentation last recorded: the key,
/// the array and its values as nodes, the cursor and recorded indentation
/// where the object goes on, and whether it goes on with a sibling key
/// (else it ends there); `Some(None)` where the line is refused; `None` for
/// any other line.
#[verifier::opaque]
pub open spec fn inline_line(
    input: Seq<u8>,
    si: Seq<u32>,
    strict: bool,
    step: int,
    i: int,
    cnt: int,
    ws: Seq<usize>,
    lw: int,
) -> Option<Option<(Seq<NodeView>, int, int, bool)>> {
    match delim_stop(input, si, i, 58u8, 91u8, 10u8) {
        Some(j) => {
            let a = cursor_pos(si, i);
            let e = trim_end(input, a, si[j - 1] as int);
            if byte_at(input, si, j) != 91u8 || e <= a {
                None
            } else {
                match bracket_header(input, si, strict, j) {
                    Some((form, rows, d, cur, ke)) => if !(form == 2 || form == 3) || (form == 3 && cur < si.len()
                        && byte_at(input, si, cur + 1) == 10u8) {
                        None
                    } else if cur >= si.len() {
                        Some(None)
                    } else {
                        let p = cur + 1;
                        let n = if form == 2 {
                            0
                        } else if rows >= 1 {
                            rows
                        } else {
                            1
                        };
                        let values_ok = if form == 2 {
                            eol_outcome_of(
                                input,
                                si,
                                strict,
                                step,
                                p,
                                byte_at(input, si, p),
                                seq![],
                                ws.push(sat_add(indent_of(ws), step) as usize),
                                false,
                            ) matches Some(e) && e != Eol::Nested
                        } else {
                            inline_ok(input, si, strict, step, p, n, d, ws.push(indent_of(ws) as usize))
                        };
                        if !(cnt < usize::MAX && string_view(input.subrange(a, e)) is Some && values_ok) {
                            Some(None)
                        } else {
                            let cells = if form == 2 {
                                Seq::<NodeView>::empty()
                            } else {
                                cell_values(input, si, p, n, n, d)
                            };
                            let m = if form == 2 {
                                p
                            } else {
                                inline_end(input, si, p, n, d)
                            };
                            let nodes = seq![
                                string_view(input.subrange(a, e))->0,
                                NodeView::Array { len: n as nat, count: n as nat },
                            ] + cells;
                            let (dd, k, lw2) = inline_close(input, si, strict, step, m, ws, lw);
                            match dd {
                                Some(Eol::Sibling) => Some(Some((nodes, k, lw2, true))),
                                Some(Eol::CloseScope) => Some(Some((nodes, k, lw2, false))),
                                _ => Some(None),
                            }
                        }
                    },
                    None => None,
                }
            }
        },
        None => None,
    }
}

/// Only a line whose header is `key[0]:`, or `key[N]:` with values after
/// the `:`, is an inline array line.
pub proof fn lemma_inline_line_shape(
    input: Seq<u8>,
    si: Seq<u32>,
    strict: bool,
    step: int,
    i: int,
    cnt: int,
    ws: Seq<usize>,
    lw: int,
)
    ensures
        inline_line(input, si, strict, step, i, cnt, ws, lw) is Some ==> (delim_stop(input, si, i, 58u8, 91u8, 10u8) matches Some(
            j,
        ) && byte_at(input, si, j) == 91u8 && trim_end(input, cursor_pos(si, i), si[j - 1] as int) > cursor_pos(si, i)
            && (bracket_header(input, si, strict, j) matches Some((form, rows, d, cur, ke)) && (form == 2 || form == 3)
            && (form == 3 && cur < si.len() ==> byte_at(input, si, cur + 1) != 10u8))),
{
    reveal(inline_line);
}

/// `f` with the nodes `acc` put before its nodes.
pub open spec fn after4(acc: Seq<NodeView>, f: Option<Option<(Seq<NodeView>, int, int, int)>>) -> Option<
    Option<(Seq<NodeView>, int, int, int)>,
> {
    match f {
        Some(Some((es, n, k, lw))) => Some(Some((acc + es, n, k, lw))),
        _ => f,
    }
}

/// The indentation stack of an object nested in one with stack `ws`.
pub open spec fn child_ws(ws: Seq<usize>, step: int) -> Seq<usize> {
    ws.push(sat_add(indent_of(ws), step) as usize)
}

/// The rest of an object whose lines are `key: value`, `key:` with nothing
/// below, `key:` with a nested object below, `key[N]: v1,...` with an
/// inline array or `key[0]:` with an empty one (a key may leniently carry a
/// second bracket segment, which
/// makes the text up to its `:` the key), from cursor `i`, where
/// `mode` is `Header` at the start of a line and `SimpleValue` after a `:`,
/// `cnt` keys were read before, `ws` is the object's indentation stack and
/// `lw` the indentation last recorded: `Some(Some((nodes, keys, k, lw2)))`
/// with the key and value nodes it puts on the tape, its number of keys, and
/// the cursor and recorded indentation where it ends; `Some(None)` where it
/// is refused; `None` where the rest is not of this form (another array
/// header).
#[verifier::opaque]
pub open spec fn obj_body(
    input: Seq<u8>,
    si: Seq<u32>,
    strict: bool,
    step: int,
    i: int,
    mode: Next,
    cnt: int,
    ws: Seq<usize>,
    lw: int,
) -> Option<Option<(Seq<NodeView>, int, int, int)>>
    decreases si.len() - i, 1int,
{
    match mode {
        Next::Header => match line_key(input, si, strict, i) {
            None => match inline_line(input, si, strict, step, i, cnt, ws, lw) {
                Some(Some((nodes, k, lw2, sib))) => if i < k <= si.len() {
                    if sib {
                        after4(nodes, obj_body(input, si, strict, step, k, Next::Header, cnt + 1, ws, lw2))
                    } else {
                        Some(Some((nodes, cnt + 1, k, lw2)))
                    }
                } else {
                    Some(None)
                },
                Some(None) => Some(None),
                None => None,
            },
            Some(None) => Some(None),
            Some(Some((a, e, j))) => if cnt < usize::MAX && string_view(input.subrange(a, e)) is Some && j < si.len()
                && i < j + 1 {
                after4(
                    seq![string_view(input.subrange(a, e))->0],
                    obj_body(input, si, strict, step, j + 1, Next::SimpleValue, cnt + 1, ws, lw),
                )
            } else {
                Some(None)
            },
        },
        Next::SimpleValue => {
            let c = byte_at(input, si, i);
            if c == 10u8 && i < si.len() && eol_outcome_of(input, si, strict, step, i, 10u8, seq![], ws, false) == Some(
                Eol::Nested,
            ) {
                let k0 = skip_newlines(input, si, i + 1);
                if i < k0 <= si.len() {
                    after_child(
                        input,
                        si,
                        strict,
                        step,
                        i,
                        cnt,
                        ws,
                        obj_body(input, si, strict, step, k0, Next::Header, 0, child_ws(ws, step), eol_ws(input, si, i, lw)),
                    )
                } else {
                    Some(None)
                }
            } else {
                match value_step(input, si, strict, step, i, c, seq![], ws) {
                    None => Some(None),
                    Some((v, n, k)) => {
                        let lw2 = value_lw(input, si, i, c, lw);
                        if n == Next::Header {
                            if i < k <= si.len() {
                                after4(seq![v], obj_body(input, si, strict, step, k, Next::Header, cnt, ws, lw2))
                            } else {
                                Some(None)
                            }
                        } else {
                            Some(Some((seq![v], cnt, k, lw2)))
                        }
                    },
                }
            }
        },
        _ => None,
    }
}

/// How an object with indentation stack `ws` and `cnt` keys goes on after
/// the object nested under its key at cursor `i` has been read with result
/// `child`: the nested object becomes one node holding the child's nodes,
/// and the line where the child ended is a sibling key or ends this object too.
#[verifier::opaque]
pub open spec fn after_child(
    input: Seq<u8>,
    si: Seq<u32>,
    strict: bool,
    step: int,
    i: int,
    cnt: int,
    ws: Seq<usize>,
    child: Option<Option<(Seq<NodeView>, int, int, int)>>,
) -> Option<Option<(Seq<NodeView>, int, int, int)>>
    decreases si.len() - i, 0int,
{
    match child {
        Some(Some((es, n, k, lwc))) => if i < k <= si.len() {
            let node = NodeView::Object { len: n as nat, count: es.len() };
            let c2 = byte_at(input, si, k);
            let d = if c2 == 10u8 {
                eol_outcome_of(input, si, strict, step, k, 10u8, seq![], ws, false)
            } else {
                classify_indent(lwc, indent_of(ws), step)
            };
            let k2 = if c2 == 10u8 && k < si.len() {
                skip_newlines(input, si, k + 1)
            } else {
                k
            };
            let lw2 = if c2 == 10u8 {
                eol_ws(input, si, k, lwc)
            } else {
                lwc
            };
            match d {
                Some(Eol::Sibling) => if k <= k2 <= si.len() {
                    after4(seq![node] + es, obj_body(input, si, strict, step, k2, Next::Header, cnt, ws, lw2))
                } else {
                    Some(None)
                },
                Some(Eol::CloseScope) => Some(Some((seq![node] + es, cnt, k2, lw2))),
                _ => Some(None),
            }
        } else {
            Some(None)
        },
        _ => child,
    }
}

/// The objects a reader has entered and not yet closed, each with its
/// nodes so far, its number of keys, its indentation stack and the cursor
/// of the key whose object is open: the result for the outermost one once
/// the innermost gives `r`.
#[verifier::opaque]
pub open spec fn close_up(
    input: Seq<u8>,
    si: Seq<u32>,
    strict: bool,
    step: int,
    levels: Seq<(Seq<NodeView>, int, Seq<usize>, int)>,
    r: Option<Option<(Seq<NodeView>, int, int, int)>>,
) -> Option<Option<(Seq<NodeView>, int, int, int)>>
    decreases levels.len(),
{
    if levels.len() == 0 {
        r
    } else {
        let p = levels.last();
        close_up(input, si, strict, step, levels.drop_last(), after4(p.0, after_child(input, si, strict, step, p.3, p.1, p.2, r)))
    }
}

/// The root object ends where only newlines are left.
#[verifier::opaque]
pub open spec fn root_done(si: Seq<u32>, input: Seq<u8>, r: Option<Option<(Seq<NodeView>, int, int, int)>>) -> Option<
    Option<(Seq<NodeView>, int)>,
> {
    match r {
        Some(Some((es, n, k, lw))) => if skip_newlines(input, si, k) == si.len() {
            Some(Some((es, n)))
        } else {
            Some(None)
        },
        Some(None) => Some(None),
        None => None,
    }
}

/// The nodes put on the tape for the objects entered: each one's nodes so
/// far and the node of the object nested in it.
pub open spec fn zip_nodes(levels: Seq<(Seq<NodeView>, int, Seq<usize>, int)>) -> Seq<NodeView>
    decreases levels.len(),
{
    if levels.len() == 0 {
        seq![]
    } else {
        zip_nodes(levels.drop_last()) + levels.last().0 + seq![NodeView::Object { len: 0, count: 0 }]
    }
}

/// The tape of a document whose root is an object whose lines are all of
/// the forms `obj_body` covers, nested objects included, the first line
/// (as `lone_value` finds it) being a `key:` line or an inline or empty
/// array (`root_inline`):
/// `Some(Some(tape))` where it decodes, `Some(None)` where it is refused,
/// `None` for any other document.
#[verifier::opaque]
pub open spec fn object_document(input: Seq<u8>, si: Seq<u32>, strict: bool, step: int) -> Option<Option<Seq<NodeView>>> {
    let k = first_line(input, si);
    if si.len() == 0 || (byte_at(input, si, 1) == 35u8 && si.len() < 2) || byte_at(input, si, k) == 10u8 {
        Some(None)
    } else {
        root_line(input, si, strict, step, k)
    }
}

/// `object_document` from its first line, at cursor `k`: the root object's
/// first key, or its first line when that is an inline or empty array, and
/// the rest of the object after it.
pub open spec fn root_line(input: Seq<u8>, si: Seq<u32>, strict: bool, step: int, k: int) -> Option<Option<Seq<NodeView>>> {
    match delim_stop(input, si, k, 58u8, 91u8, 10u8) {
        Some(j0) => if byte_at(input, si, j0) == 10u8 {
            None
        } else {
            match line_key(input, si, strict, k) {
                Some(Some((a, e, j))) => if string_view(input.subrange(a, e)) is Some && j < si.len() {
                    match root_done(
                        si,
                        input,
                        obj_body(input, si, strict, step, j + 1, Next::SimpleValue, 1, seq![0usize], 0),
                    ) {
                        Some(Some((es, n))) => Some(
                            Some(
                                seq![
                                    NodeView::Object { len: n as nat, count: (es.len() + 1) as nat },
                                    string_view(input.subrange(a, e))->0,
                                ] + es,
                            ),
                        ),
                        Some(None) => Some(None),
                        None => None,
                    }
                } else {
                    Some(None)
                },
                Some(None) => if byte_at(input, si, j0) == 58u8 {
                    Some(None)
                } else {
                    None
                },
                None => root_inline(input, si, strict, step, k),
            }
        },
        None => Some(None),
    }
}

/// The tape of a document whose root object's first line, at cursor `k`,
/// is an inline or empty array (`inline_line`), with the rest of the object
/// after it; `None` for any other first line.
#[verifier::opaque]
pub open spec fn root_inline(input: Seq<u8>, si: Seq<u32>, strict: bool, step: int, k: int) -> Option<Option<Seq<NodeView>>> {
    match inline_line(input, si, strict, step, k, 0, seq![0usize], 0) {
        Some(Some((nodes, k2, lw2, sib))) => match root_done(
            si,
            input,
            if sib {
                after4(nodes, obj_body(input, si, strict, step, k2, Next::Header, 1, seq![0usize], lw2))
            } else {
                Some(Some((nodes, 1, k2, lw2)))
            },
        ) {
            Some(Some((es, n))) => Some(Some(seq![NodeView::Object { len: n as nat, count: es.len() }] + es)),
            Some(None) => Some(None),
            None => None,
        },
        Some(None) => Some(None),
        None => None,
    }
}

/// Only a first line that `inline_line` covers starts such a document.
pub proof fn lemma_root_inline_none(input: Seq<u8>, si: Seq<u32>, strict: bool, step: int, k: int)
    ensures
        inline_line(input, si, strict, step, k, 0, seq![0usize], 0) is None ==> root_inline(input, si, strict, step, k) is None,
{
    reveal(root_inline);
}

/// Putting nothing before the nodes leaves a result as it is.
pub proof fn lemma_after4_empty(f: Option<Option<(Seq<NodeView>, int, int, int)>>)
    ensures
        after4(seq![], f) == f,
{
    if let Some(Some((es, n, k, lw))) = f {
        assert(Seq::<NodeView>::empty() + es =~= es);
    }
}

/// Putting `a` and then `b` before the nodes is putting `a + b` before them.
pub proof fn lemma_after4_assoc(a: Seq<NodeView>, b: Seq<NodeView>, f: Option<Option<(Seq<NodeView>, int, int, int)>>)
    ensures
        after4(a, after4(b, f)) == after4(a + b, f),
{
    if let Some(Some((es, n, k, lw))) = f {
        assert(a + (b + es) =~= (a + b) + es);
    }
}

/// A refused or uncovered innermost result stays so for the outermost object.
pub proof fn lemma_close_up_stuck(
    input: Seq<u8>,
    si: Seq<u32>,
    strict: bool,
    step: int,
    levels: Seq<(Seq<NodeView>, int, Seq<usize>, int)>,
    r: Option<Option<(Seq<NodeView>, int, int, int)>>,
)
    ensures
        r == Some(None::<(Seq<NodeView>, int, int, int)>) ==> close_up(input, si, strict, step, levels, r) == r,
        r is None ==> close_up(input, si, strict, step, levels, r) is None,
    decreases levels.len(),
{
    reveal(close_up);
    reveal(after_child);
    if levels.len() > 0 {
        let p = levels.last();
        lemma_close_up_stuck(
            input,
            si,
            strict,
            step,
            levels.drop_last(),
            after4(p.0, after_child(input, si, strict, step, p.3, p.1, p.2, r)),
        );
    }
}

/// A document without a first line to read is refused.
pub proof fn lemma_object_document_refused(input: Seq<u8>, si: Seq<u32>, strict: bool, step: int)
    ensures
        si.len() == 0 || (byte_at(input, si, 1) == 35u8 && si.len() < 2) || byte_at(input, si, first_line(input, si))
            == 10u8 ==> object_document(input, si, strict, step) == Some(None::<Seq<NodeView>>),
{
    reveal(object_document);
}

/// What `object_document` says of a document with a first line.
pub proof fn lemma_object_document_line(input: Seq<u8>, si: Seq<u32>, strict: bool, step: int)
    requires
        !(si.len() == 0 || (byte_at(input, si, 1) == 35u8 && si.len() < 2) || byte_at(input, si, first_line(input, si))
            == 10u8),
    ensures
        object_document(input, si, strict, step) == root_line(input, si, strict, step, first_line(input, si)),
{
    reveal(object_document);
}

/// A cursor never moves back over blank lines.
pub proof fn lemma_skip_newlines_ge(input: Seq<u8>, si: Seq<u32>, j: int)
    ensures
        skip_newlines(input, si, j) >= j,
        j <= si.len() ==> skip_newlines(input, si, j) <= si.len(),
    decreases si.len() - j,
{
    if 1 <= j < si.len() && byte_at(input, si, j) == 10u8 {
        lemma_skip_newlines_ge(input, si, j + 1);
    }
}

/// The indentation `get_eol_state` records from cursor `i`: that of the
/// next line that is not blank, where there is one; else `lw` unchanged.
pub open spec fn eol_ws(input: Seq<u8>, si: Seq<u32>, i: int, lw: int) -> int {
    if 0 <= i < si.len() {
        let j = skip_newlines(input, si, i + 1);
        if j < si.len() {
            si[j - 1] - si[j - 2] - 1
        } else {
            lw
        }
    } else {
        lw
    }
}

/// The indentation recorded after the value at cursor `i` on byte `c` is
/// read, the one recorded before being `lw`.
pub open spec fn value_lw(input: Seq<u8>, si: Seq<u32>, i: int, c: u8, lw: int) -> int {
    if c == 10u8 {
        eol_ws(input, si, i, lw)
    } else {
        match delim_stop(input, si, i, 10u8, 10u8, 10u8) {
            Some(m) => eol_ws(input, si, m, lw),
            None => lw,
        }
    }
}

/// The cursor at the start of cell `h` of a row whose cells from cursor `i`
/// are ended by the delimiter `d` (`-1` where the row breaks off before it).
pub open spec fn cell_at(input: Seq<u8>, si: Seq<u32>, i: int, h: nat, d: u8) -> int
    decreases h,
{
    if h == 0 {
        i
    } else {
        match delim_stop(input, si, cell_at(input, si, i, (h - 1) as nat, d), d, d, d) {
            Some(j) => j + 1,
            None => -1,
        }
    }
}

/// The value of cell `h` of a row of `n` cells from cursor `i`, each ended by
/// the delimiter `d` and the last by the end of the line.
pub open spec fn cell_value(input: Seq<u8>, si: Seq<u32>, i: int, h: nat, n: int, d: u8) -> Option<NodeView> {
    let a = cell_at(input, si, i, h, d);
    let e = if h + 1 == n {
        10u8
    } else {
        d
    };
    match delim_stop(input, si, a, e, e, e) {
        Some(j) => inferred_view(token_to(input, si, a, j)),
        None => None,
    }
}

/// The node of a header's key, if it has one.
pub open spec fn key_nodes(input: Seq<u8>, key: Option<(usize, usize)>) -> Seq<NodeView> {
    match key {
        Some(k) => seq![string_view(input.subrange(k.0 as int, k.1 as int))->0],
        None => seq![],
    }
}

/// The values of the first `m` cells of a row of `n` cells from cursor `i`.
pub open spec fn cell_values(input: Seq<u8>, si: Seq<u32>, i: int, m: int, n: int, d: u8) -> Seq<NodeView> {
    Seq::new(m as nat, |h: int| cell_value(input, si, i, h as nat, n, d)->0)
}

/// The cursor on the newline that ends an inline array of `n` values from
/// cursor `i` on, separated by `d` (`-1` where there is none).
pub open spec fn inline_end(input: Seq<u8>, si: Seq<u32>, i: int, n: int, d: u8) -> int {
    match inline_items(input, si, i, (n - 1) as nat, d) {
        Some(j) => match delim_stop(input, si, j, 10u8, 10u8, 10u8) {
            Some(m) => m,
            None => -1,
        },
        None => -1,
    }
}

/// The bracket segment of a header from cursor `j` on its `[`: the row
/// count, then `:` where the rows are keyed, a `|` or tab delimiter, and the
/// closing `]`. Gives the header's form (`0`: a second bracket segment,
/// which makes the text up to the `:` a key; `1`: keyed rows without
/// fields; `2`: no items; `3`: `count` items; `4`: a field list follows),
/// the count, the delimiter, the cursor after the `]` (for form `0`, on
/// the `:`) and, for form `0`, where the key ends; `None` where the header
/// is refused.
pub open spec fn bracket_header(input: Seq<u8>, si: Seq<u32>, strict: bool, j: int) -> Option<(int, int, u8, int, int)> {
    if !(0 <= j && j + 1 < si.len()) {
        None
    } else if !(all_digits(input, si[j] as int, si[j + 1] as int) && digits_value(input, si[j] as int, si[j + 1] as int)
        <= 0xffff_ffff) {
        None
    } else {
        let rows = digits_value(input, si[j] as int, si[j + 1] as int) as int;
        let p0 = j + 2;
        let keyed = byte_at(input, si, p0) == 58u8;
        if keyed && p0 >= si.len() {
            None
        } else {
            let p1 = if keyed {
                p0 + 1
            } else {
                p0
            };
            let dc = byte_at(input, si, p1);
            let has_d = dc == 124u8 || dc == 9u8;
            if has_d && p1 >= si.len() {
                None
            } else {
                let d = if has_d {
                    dc
                } else {
                    44u8
                };
                let p2 = if has_d {
                    p1 + 1
                } else {
                    p1
                };
                if byte_at(input, si, p2) != 93u8 || p2 >= si.len() {
                    None
                } else {
                    let p3 = p2 + 1;
                    let c = byte_at(input, si, p3);
                    if c == 91u8 {
                        if strict {
                            None
                        } else {
                            match delim_stop(input, si, p3, 58u8, 58u8, 58u8) {
                                Some(m) => Some((0, rows, d, m, trim_end(input, si[p3 - 1] as int, si[m - 1] as int))),
                                None => None,
                            }
                        }
                    } else if c == 123u8 {
                        Some((4, rows, d, p3, 0))
                    } else if keyed {
                        Some((1, rows, d, p3, 0))
                    } else if rows == 0 {
                        Some((2, rows, d, p3, 0))
                    } else {
                        Some((3, rows, d, p3, 0))
                    }
                }
            }
        }
    }
}

/// Whether the header `h` is the one of form `form` (below `4`) that
/// `bracket_header` gives, for key `key` and, for form `0`, the text
/// `input[a..ke]` as the key.
pub open spec fn bracket_result(h: Header, form: int, rows: int, d: u8, key: Option<(usize, usize)>, a: int, ke: int) -> bool {
    if form == 0 {
        h matches Header::ObjectStart(x, y) && x == a && y == ke
    } else if form == 1 {
        h matches Header::KeyedTabularObjects { key: k2, headers, rows: r2, delimiter: d2 } && k2 == key
            && headers@.len() == 0 && r2 == rows && d2 == d
    } else if form == 2 {
        h == Header::EmptyArray { key }
    } else {
        h == Header::SimpleArray { count: rows as usize, key, delimiter: d }
    }
}

/// The state to continue in.
#[derive(Clone, Copy, Debug, PartialEq, Eq, Structural)]
pub enum Next {
    Header,
    SimpleValue,
    ExpectItem,
    ScopeEnd,
    Done,
}

pub open spec fn next_rank(n: Next) -> nat {
    match n {
        Next::Done => 0,
        Next::ScopeEnd => 1,
        Next::SimpleValue => 2,
        Next::Header => 3,
        Next::ExpectItem => 3,
    }
}

/// The state of the tape builder.
pub struct Machine<'a> {
    pub input: &'a [u8],
    pub si: &'a [u32],
    pub strict: bool,
    pub indent_size: usize,
    pub res: Vec<Node>,
    pub stack: Vec<Frame>,
    pub ws: Vec<usize>,
    pub pending: Vec<(usize, usize)>,
    pub last_dedent_ws: usize,
    pub last_start: usize,
    pub cnt: usize,
    pub i: usize,
    pub idx: usize,
    pub c: u8,
}

pub open spec fn span_ok(sp: (usize, usize), len: int) -> bool {
    sp.0 <= sp.1 <= len
}

pub open spec fn key_ok(key: Option<(usize, usize)>, len: int) -> bool {
    key matches Some(sp) ==> span_ok(sp, len)
}

pub open spec fn spans_ok(v: Seq<(usize, usize)>, len: int) -> bool {
    forall|k: int| 0 <= k < v.len() ==> span_ok(#[trigger] v[k], len)
}

pub open spec fn ops_ok(v: Seq<FieldOp>, len: int) -> bool {
    forall|k: int|
        0 <= k < v.len() ==> match #[trigger] v[k] {
            FieldOp::Leaf(a, b) => span_ok((a, b), len),
            FieldOp::Open(a, b) => span_ok((a, b), len),
            FieldOp::Close => true,
        }
}

/// Every offset a header records lies within the document.
pub open spec fn header_ok(h: Header, len: int) -> bool {
    match h {
        Header::PrimitiveValue(a, b) => span_ok((a, b), len),
        Header::ObjectStart(a, b) => span_ok((a, b), len),
        Header::EmptyObject => true,
        Header::SimpleArray { count, key, delimiter } => key_ok(key, len),
        Header::EmptyArray { key } => key_ok(key, len),
        Header::KeyedTabularObjects { key, headers, rows, delimiter } => key_ok(key, len)
            && spans_ok(headers@, len),
        Header::TabularArray { key, headers, rows, delimiter } => key_ok(key, len) && spans_ok(
            headers@,
            len,
        ),
        Header::NestedFieldGroupsArray { key, ops, rows, delimiter } => key_ok(key, len) && ops_ok(
            ops@,
            len,
        ),
    }
}

/// The header of a line whose key, `input[a..e]`, ends at a `:` (`c`) or
/// at the end of the line; `None` for a `:` with no key before it.
pub open spec fn plain_header(a: int, e: int, c: u8) -> Option<Header> {
    if c == 58u8 {
        if e > a {
            Some(Header::ObjectStart(a as usize, e as usize))
        } else {
            None
        }
    } else if e > a {
        Some(Header::PrimitiveValue(a as usize, e as usize))
    } else {
        Some(Header::EmptyObject)
    }
}

/// The key a header carries, if any.
pub open spec fn header_key(h: Header) -> Option<(usize, usize)> {
    match h {
        Header::SimpleArray { key, .. } => key,
        Header::EmptyArray { key } => key,
        Header::KeyedTabularObjects { key, .. } => key,
        Header::TabularArray { key, .. } => key,
        Header::NestedFieldGroupsArray { key, .. } => key,
        Header::ObjectStart(a, b) => Some((a, b)),
        _ => None,
    }
}

/// Reading the header moved past at least one structural byte.
pub open spec fn header_consumes(h: Header) -> bool {
    !(h is PrimitiveValue) && !(h is EmptyObject)
}

pub open spec fn offsets_ok(input: Seq<u8>, si: Seq<u32>) -> bool {
    &&& input.len() >= 1
    &&& forall|k: int| 0 <= k < si.len() ==> (si[k] as int) < input.len()
    &&& forall|k: int, j: int| 0 <= k < j < si.len() ==> si[k] < si[j]
}

/// A space or a carriage return.
pub open spec fn is_blank_byte(c: u8) -> bool {
    c == 32u8 || c == 13u8
}

/// Every byte of `s[i..j]` is a decimal digit.
pub open spec fn all_digits(s: Seq<u8>, i: int, j: int) -> bool {
    forall|k: int| i <= k < j ==> is_digit(#[trigger] s[k])
}

/// More digits never spell a smaller number.
pub proof fn lemma_digits_value_grows(s: Seq<u8>, i: int, j: int, k: int)
    requires
        i <= j <= k,
    ensures
        all_digits(s, i, k) ==> digits_value(s, i, j) <= digits_value(s, i, k),
    decreases k - j,
{
    if j < k {
        lemma_digits_value_grows(s, i, j, k - 1);
    }
}

impl<'a> Machine<'a> {
    pub open spec fn ok(&self) -> bool {
        &&& offsets_ok(self.input@, self.si@)
        &&& self.i <= self.si@.len()
        &&& self.idx < self.input@.len()
        &&& (self.i > 0 ==> self.idx == self.si@[self.i - 1] && self.c == self.input@[self.idx as int])
        &&& (self.i == 0 ==> self.idx == 0 && self.c == 0)
        &&& (self.res@.len() > 0 ==> self.last_start < self.res@.len())
        &&& (self.res@.len() == 0 ==> self.last_start == 0)
        &&& forall|k: int|
            0 <= k < self.stack@.len() ==> (#[trigger] self.stack@[k]).kind != FrameKind::Start
                ==> self.stack@[k].last_start < self.res@.len()
        &&& leaves_from(tape_view(self.res@), self.input@)
        &&& int_kinds(self.res@)
    }

    /// The views of the nodes built so far.
    pub open spec fn tv(&self) -> Seq<NodeView> {
        tape_view(self.res@)
    }

    /// Where the container of nesting level `j` starts: the saved frames
    /// above the bottom one hold the enclosing containers, the machine the
    /// current one.
    pub open spec fn lpos(&self, j: int) -> int {
        level_start(self.stack@, self.last_start as int, j)
    }

    /// The entry count of nesting level `j`.
    pub open spec fn lcnt(&self, j: int) -> int {
        level_count(self.stack@, self.cnt as int, j)
    }

    /// Enclosing level `j` holds complete entries and the start of the one
    /// that the next level is the value of.
    pub open spec fn level_ok(&self, j: int) -> bool {
        level_shape(self.stack@, self.tv(), self.last_start as int, self.cnt as int, j)
    }

    /// The tape is a chain of open containers, outermost first at position 0,
    /// each pending on the next, the last one being the current container.
    pub open spec fn parents_ok(&self) -> bool {
        chain_shape(self.stack@, self.tv(), self.last_start as int, self.cnt as int)
    }

    pub open spec fn cur_complete(&self) -> bool {
        complete_at(self.tv(), self.last_start as int, self.cnt as int, self.tv().len() as int)
    }

    pub open spec fn cur_pending(&self) -> bool {
        pending_at(self.tv(), self.last_start as int, self.cnt as int, self.tv().len() as int)
    }

    pub open spec fn cur_object(&self) -> bool {
        self.tv()[self.last_start as int] is Object
    }

    pub open spec fn cur_array(&self) -> bool {
        self.tv()[self.last_start as int] is Array
    }

    /// The shape of the tape that each state continues from.
    pub open spec fn mode_ok(&self, n: Next) -> bool {
        match n {
            Next::Done => tape_complete(self.tv()),
            Next::Header => self.parents_ok() && self.cur_object() && self.cur_complete(),
            Next::ExpectItem => self.parents_ok() && self.cur_array() && self.cur_complete(),
            Next::SimpleValue => self.parents_ok() && self.cur_object() && self.cur_pending(),
            Next::ScopeEnd => self.parents_ok() && self.cur_complete(),
        }
    }

    /// The enclosing levels only look at the nodes before the current container.
    proof fn lemma_parents_stable(a: &Machine<'a>, b: &Machine<'a>)
        requires
            a.parents_ok(),
            b.stack == a.stack,
            b.last_start == a.last_start,
            b.res@.len() >= a.res@.len(),
            agree_on(a.tv(), b.tv(), 0, a.last_start + 1),
        ensures
            b.parents_ok(),
    {
        assert(a.tv()[a.last_start as int] == b.tv()[b.last_start as int]);
        assert forall|j: int| 0 <= j < b.stack@.len() - 1 implies #[trigger] level_shape(b.stack@, b.tv(), b.last_start as int, b.cnt as int, j) by {
            assert(a.level_ok(j));
            assert(a.lpos(j) == b.lpos(j) && a.lpos(j + 1) == b.lpos(j + 1));
            assert(a.lcnt(j) == b.lcnt(j));
            // every level ends at or before the current container
            Self::lemma_lpos_increasing(a, j + 1);
            assert(agree_on(a.tv(), b.tv(), a.lpos(j), a.lpos(j + 1)));
            lemma_shape_agree(a.tv(), b.tv(), a.lpos(j), a.lcnt(j), a.lpos(j + 1));
            assert(a.tv()[a.lpos(j)] == b.tv()[b.lpos(j)]);
        }
    }

    /// The level starts increase up to the current container.
    proof fn lemma_lpos_increasing(a: &Machine<'a>, j: int)
        requires
            a.parents_ok(),
            0 <= j < a.stack@.len(),
        ensures
            a.lpos(j) <= a.last_start,
        decreases a.stack@.len() - j,
    {
        if j + 1 < a.stack@.len() {
            assert(a.level_ok(j + 1 - 1));
            Self::lemma_lpos_increasing(a, j + 1);
        }
    }

    /// Opening a container as the value of the pending entry of the current one.
    proof fn lemma_open(a: &Machine<'a>, b: &Machine<'a>, parent: FrameKind)
        requires
            a.parents_ok(),
            a.cur_pending(),
            kind_matches(parent, a.tv()[a.last_start as int]),
            b.stack@ == a.stack@.push(Frame { kind: parent, last_start: a.last_start, cnt: a.cnt }),
            b.last_start == a.res@.len(),
            b.cnt == 0,
            b.tv().len() == a.tv().len() + 1,
            agree_on(a.tv(), b.tv(), 0, a.tv().len() as int),
            is_container(b.tv()[b.last_start as int]),
        ensures
            b.parents_ok(),
            b.cur_complete(),
    {
        let s = a.stack@.len();
        assert(b.lpos(0) == 0) by {
            if s > 1 {
                assert(b.stack@[1] == a.stack@[1]);
            }
        }
        assert forall|j: int| 0 <= j < b.stack@.len() - 1 implies #[trigger] level_shape(b.stack@, b.tv(), b.last_start as int, b.cnt as int, j) by {
            if j < s - 1 {
                assert(a.level_ok(j));
                assert(b.stack@[j + 1] == a.stack@[j + 1]);
                assert(a.lpos(j) == b.lpos(j));
                if j + 1 < s - 1 {
                    assert(b.stack@[j + 2] == a.stack@[j + 2]);
                }
                assert(a.lpos(j + 1) == b.lpos(j + 1));
                assert(a.lcnt(j) == b.lcnt(j));
                Self::lemma_lpos_increasing(a, j + 1);
                lemma_shape_agree(a.tv(), b.tv(), a.lpos(j), a.lcnt(j), a.lpos(j + 1));
                assert(a.tv()[a.lpos(j)] == b.tv()[b.lpos(j)]);
            } else {
                assert(j == s - 1);
                assert(b.lpos(j) == a.last_start);
                assert(b.lcnt(j) == a.cnt);
                assert(b.lpos(j + 1) == b.last_start);
                lemma_shape_agree(a.tv(), b.tv(), a.last_start as int, a.cnt as int, a.tv().len() as int);
                assert(a.tv()[a.last_start as int] == b.tv()[a.last_start as int]);
            }
        }
        assert(read_elems(b.tv(), b.last_start + 1, 0) == Some((Seq::<crate::value::ValueView>::empty(), b.last_start + 1)));
        assert(read_fields(b.tv(), b.last_start + 1, 0) == Some((Seq::<(Seq<u8>, crate::value::ValueView)>::empty(), b.last_start + 1)));
    }

    /// Appending a value to the pending entry of the current container completes it.
    proof fn lemma_append_value(a: &Machine<'a>, b: &Machine<'a>)
        requires
            a.parents_ok(),
            a.cur_pending(),
            b.stack == a.stack,
            b.last_start == a.last_start,
            b.cnt == a.cnt,
            b.res@.len() > a.res@.len(),
            agree_on(a.tv(), b.tv(), 0, a.tv().len() as int),
            read_at(b.tv(), a.tv().len() as int) matches Some((v, e)) && e == b.tv().len(),
        ensures
            b.parents_ok(),
            b.cur_complete(),
            b.tv()[b.last_start as int] == a.tv()[a.last_start as int],
    {
        Self::lemma_parents_stable(a, b);
        lemma_shape_agree(a.tv(), b.tv(), a.last_start as int, a.cnt as int, a.tv().len() as int);
        lemma_pending_then_value(b.tv(), a.last_start as int, a.cnt as int, a.tv().len() as int);
        assert(a.tv()[a.last_start as int] == b.tv()[a.last_start as int]);
    }

    /// Appending a key to a complete object, counting it, leaves its value pending.
    proof fn lemma_append_key(a: &Machine<'a>, b: &Machine<'a>)
        requires
            a.parents_ok(),
            a.cur_complete(),
            a.cur_object(),
            b.stack == a.stack,
            b.last_start == a.last_start,
            b.cnt == a.cnt + 1,
            b.tv().len() == a.tv().len() + 1,
            agree_on(a.tv(), b.tv(), 0, a.tv().len() as int),
            b.tv()[a.tv().len() as int] is Str,
        ensures
            b.parents_ok(),
            b.cur_pending(),
            b.cur_object(),
    {
        Self::lemma_parents_stable(a, b);
        lemma_shape_agree(a.tv(), b.tv(), a.last_start as int, a.cnt as int, a.tv().len() as int);
        assert(a.tv()[a.last_start as int] == b.tv()[a.last_start as int]);
        assert(((b.cnt - 1) as nat) == a.cnt as nat);
    }

    /// Counting one more item of a complete array leaves that item pending.
    proof fn lemma_count_item(a: &Machine<'a>, b: &Machine<'a>)
        requires
            a.parents_ok(),
            a.cur_complete(),
            a.cur_array(),
            b.stack == a.stack,
            b.last_start == a.last_start,
            b.res == a.res,
            b.cnt == a.cnt + 1,
        ensures
            b.parents_ok(),
            b.cur_pending(),
            b.cur_array(),
    {
        Self::lemma_parents_stable(a, b);
        assert(((b.cnt - 1) as nat) == a.cnt as nat);
    }

    /// The node that records a finished container: its entry count and the
    /// number of nodes after it.
    pub open spec fn closed_node(t: Seq<NodeView>, p: int, c: int) -> NodeView {
        match t[p] {
            NodeView::Object { .. } => NodeView::Object { len: c as nat, count: (t.len() - p - 1) as nat },
            _ => NodeView::Array { len: c as nat, count: (t.len() - p - 1) as nat },
        }
    }

    /// Recording the counts of a complete current container makes it a value.
    proof fn lemma_closed_value(a: &Machine<'a>, t: Seq<NodeView>)
        requires
            a.parents_ok(),
            a.cur_complete(),
            t == a.tv().update(a.last_start as int, Self::closed_node(a.tv(), a.last_start as int, a.cnt as int)),
        ensures
            read_at(t, a.last_start as int) matches Some((v, e)) && e == t.len(),
    {
        let p = a.last_start as int;
        assert(agree_on(a.tv(), t, p + 1, a.tv().len() as int));
        lemma_read_elems_agree(a.tv(), t, p + 1, a.cnt as nat);
        lemma_read_fields_agree(a.tv(), t, p + 1, a.cnt as nat);
    }

    /// Closing the current container completes the entry of the enclosing one.
    proof fn lemma_close(a: &Machine<'a>, b: &Machine<'a>)
        requires
            a.parents_ok(),
            a.cur_complete(),
            a.stack@.len() >= 2,
            b.stack@ == a.stack@.drop_last(),
            b.last_start == a.stack@.last().last_start,
            b.cnt == a.stack@.last().cnt,
            b.tv() == a.tv().update(a.last_start as int, Self::closed_node(a.tv(), a.last_start as int, a.cnt as int)),
        ensures
            b.parents_ok(),
            b.cur_complete(),
            kind_matches(a.stack@.last().kind, b.tv()[b.last_start as int]),
    {
        let s = a.stack@.len();
        let p = a.last_start as int;
        let t = b.tv();
        Self::lemma_closed_value(a, t);
        assert(a.level_ok(s - 2));
        assert(a.lpos(s - 2) == b.last_start);
        assert(a.lpos(s - 1) == p);
        assert(a.lcnt(s - 2) == b.cnt);
        assert(agree_on(a.tv(), t, 0, p));
        lemma_shape_agree(a.tv(), t, b.last_start as int, b.cnt as int, p);
        lemma_pending_then_value(t, b.last_start as int, b.cnt as int, p);
        assert(a.tv()[b.last_start as int] == t[b.last_start as int]);
        assert(b.lpos(0) == 0) by {
            if s > 2 {
                assert(b.stack@[1] == a.stack@[1]);
            }
        }
        assert forall|j: int| 0 <= j < b.stack@.len() - 1 implies #[trigger] level_shape(b.stack@, b.tv(), b.last_start as int, b.cnt as int, j) by {
            assert(a.level_ok(j));
            assert(b.stack@[j + 1] == a.stack@[j + 1]);
            assert(a.lpos(j) == b.lpos(j));
            if j + 2 < s - 1 {
                assert(b.stack@[j + 2] == a.stack@[j + 2]);
            }
            assert(a.lpos(j + 1) == b.lpos(j + 1));
            assert(a.lcnt(j) == b.lcnt(j));
            Self::lemma_lpos_increasing(a, j + 1);
            lemma_shape_agree(a.tv(), t, a.lpos(j), a.lcnt(j), a.lpos(j + 1));
            assert(a.tv()[a.lpos(j)] == t[a.lpos(j)]);
        }
    }

    /// Closing the outermost container finishes the tape.
    proof fn lemma_close_root(a: &Machine<'a>, t: Seq<NodeView>)
        requires
            a.parents_ok(),
            a.cur_complete(),
            a.stack@.len() == 1,
            t == a.tv().update(a.last_start as int, Self::closed_node(a.tv(), a.last_start as int, a.cnt as int)),
        ensures
            tape_complete(t),
    {
        Self::lemma_closed_value(a, t);
    }

    /// The parts that never change while a document is processed.
    pub open spec fn same_config(&self, other: &Machine<'a>) -> bool {
        &&& self.input == other.input
        &&& self.si == other.si
        &&& self.strict == other.strict
        &&& self.indent_size == other.indent_size
    }

    /// Only the cursor moved (forward).
    pub open spec fn cursor_moved(&self, old: &Machine<'a>) -> bool {
        &&& self.same_config(old)
        &&& self.i >= old.i
        &&& (self.i == old.i ==> self.idx == old.idx && self.c == old.c)
        &&& self.res == old.res
        &&& self.stack == old.stack
        &&& self.ws == old.ws
        &&& self.pending == old.pending
        &&& self.last_start == old.last_start
        &&& self.cnt == old.cnt
    }

    /// Everything may have changed, but consistently with the old state.
    pub open spec fn moved_on(&self, old: &Machine<'a>) -> bool {
        &&& self.same_config(old)
        &&& self.i >= old.i
        &&& (self.i == old.i ==> self.idx == old.idx && self.c == old.c)
        &&& self.res@.len() >= old.res@.len()
    }

    fn fail(&self, t: ErrorType) -> (e: Error)
        ensures
            e.error == t,
    {
        Error::new_c(self.idx, self.c, t)
    }

    /// Moves to the next structural byte.
    fn update_char(&mut self) -> (r: Result<(), Error>)
        requires
            old(self).ok(),
        ensures
            final(self).ok(),
            final(self).cursor_moved(old(self)),
            r is Ok <==> old(self).i < old(self).si@.len(),
            r is Ok ==> final(self).i == old(self).i + 1,
            r is Err ==> final(self).i == old(self).i,
            r matches Err(e) ==> e.error == ErrorType::Syntax,
            final(self).last_dedent_ws == old(self).last_dedent_ws,
    {
        if self.i < self.si.len() {
            self.idx = self.si[self.i] as usize;
            self.i = self.i + 1;
            self.c = self.input[self.idx];
            Ok(())
        } else {
            Err(self.fail(ErrorType::Syntax))
        }
    }

    fn inc_cnt(&mut self) -> (r: Result<(), Error>)
        requires
            old(self).ok(),
        ensures
            final(self).ok(),
            final(self).same_config(old(self)),
            final(self).i == old(self).i && final(self).idx == old(self).idx && final(self).c == old(self).c,
            final(self).res == old(self).res,
            final(self).stack == old(self).stack,
            final(self).ws == old(self).ws,
            final(self).pending == old(self).pending,
            final(self).last_start == old(self).last_start,
            final(self).last_dedent_ws == old(self).last_dedent_ws,
            r is Ok <==> old(self).cnt < usize::MAX,
            r is Ok ==> final(self).cnt == old(self).cnt + 1,
            r is Err ==> final(self).cnt == old(self).cnt,
            r matches Err(e) ==> e.error == ErrorType::TapeError,
    {
        if self.cnt < usize::MAX {
            self.cnt = self.cnt + 1;
            Ok(())
        } else {
            Err(self.fail(ErrorType::TapeError))
        }
    }

    /// Trailing spaces and carriage returns are not part of a token: the end
    /// moves back over them, but not before `start`.
    fn trim_trailing_spaces(&self, start: usize, hard_end: usize) -> (e: usize)
        requires
            start <= hard_end <= self.input@.len(),
        ensures
            start <= e <= hard_end,
            e == trim_end(self.input@, start as int, hard_end as int),
            forall|k: int| e <= k < hard_end ==> is_blank_byte(#[trigger] self.input@[k]),
            e > start ==> !is_blank_byte(self.input@[e - 1]),
    {
        let mut end = hard_end;
        while end > start
            invariant
                start <= end <= hard_end <= self.input@.len(),
                trim_end(self.input@, start as int, hard_end as int) == trim_end(self.input@, start as int, end as int),
                forall|k: int| end <= k < hard_end ==> is_blank_byte(#[trigger] self.input@[k]),
            ensures
                start <= end <= hard_end,
                trim_end(self.input@, start as int, hard_end as int) == end,
                forall|k: int| end <= k < hard_end ==> is_blank_byte(#[trigger] self.input@[k]),
                end > start ==> !is_blank_byte(self.input@[end - 1]),
            decreases end,
        {
            let prev = self.input[end - 1];
            if prev == 32u8 || prev == 13u8 {
                end = end - 1;
            } else {
                break;
            }
        }
        end
    }

    /// Walks forward to the next structural byte that is one of the three
    /// delimiters, failing at a newline that is not one of them; returns the
    /// end of the token that started at the current byte.
    fn value_end(&mut self, d0: u8, d1: u8, d2: u8) -> (r: Result<usize, Error>)
        requires
            old(self).ok(),
        ensures
            final(self).ok(),
            final(self).cursor_moved(old(self)),
            final(self).last_dedent_ws == old(self).last_dedent_ws,
            r matches Ok(e) ==> old(self).idx <= e <= final(self).idx,
            r is Ok ==> final(self).c == d0 || final(self).c == d1 || final(self).c == d2,
            r matches Ok(e) ==> (e > old(self).idx ==> final(self).i > old(self).i),
            r is Ok <==> delim_stop(old(self).input@, old(self).si@, old(self).i as int, d0, d1, d2) is Some,
            r is Ok ==> Some(final(self).i as int) == delim_stop(
                old(self).input@,
                old(self).si@,
                old(self).i as int,
                d0,
                d1,
                d2,
            ),
            r matches Ok(e) ==> e == trim_end(old(self).input@, old(self).idx as int, final(self).idx as int),
            r matches Err(e) ==> e.error == ErrorType::Syntax,
    {
        let token_start = self.idx;
        loop
            invariant
                self.ok(),
                self.cursor_moved(old(self)),
                self.last_dedent_ws == old(self).last_dedent_ws,
                delim_stop(self.input@, self.si@, self.i as int, d0, d1, d2) == delim_stop(
                    old(self).input@,
                    old(self).si@,
                    old(self).i as int,
                    d0,
                    d1,
                    d2,
                ),
                token_start == old(self).idx,
                token_start <= self.idx,
                self.i == old(self).i ==> self.idx == token_start,
            ensures
                self.c == d0 || self.c == d1 || self.c == d2,
                delim_stop(self.input@, self.si@, self.i as int, d0, d1, d2) == Some(self.i as int),
            decreases self.si@.len() - self.i,
        {
            proof {
                assert(byte_at(self.input@, self.si@, self.i as int) == self.c);
            }
            if self.c == d0 || self.c == d1 || self.c == d2 {
                break;
            }
            if self.c == 10u8 {
                return Err(self.fail(ErrorType::Syntax));
            }
            let ghost before = self.i;
            let ghost before_idx = self.idx;
            self.update_char()?;
            proof {
                // offsets increase, so the cursor only moves forward
                if before > 0 {
                    assert(self.si@[before - 1] < self.si@[before as int]);
                }
                assert(before_idx <= self.idx);
            }
        }
        let hard_end = self.idx;
        Ok(self.trim_trailing_spaces(token_start, hard_end))
    }

    /// The indentation of the lines inside the current container.
    fn curr_indent(&self) -> (n: usize)
        ensures
            n == self.spec_curr_indent(),
    {
        match self.ws.last() {
            Some(v) => *v,
            None => 0,
        }
    }

    fn eol_state_from_ws(&self, actual_ws: usize) -> (r: Result<Eol, Error>)
        ensures
            r is Ok <==> classify_indent(actual_ws as int, self.spec_curr_indent(), self.indent_size as int) is Some,
            r matches Ok(e) ==> Some(e) == classify_indent(
                actual_ws as int,
                self.spec_curr_indent(),
                self.indent_size as int,
            ),
            r matches Err(e) ==> e.error == ErrorType::Syntax,
    {
        let sibling_ws = self.curr_indent();
        if actual_ws == sibling_ws {
            Ok(Eol::Sibling)
        } else if actual_ws < sibling_ws {
            Ok(Eol::CloseScope)
        } else if actual_ws == sibling_ws.saturating_add(self.indent_size) {
            Ok(Eol::Nested)
        } else {
            Err(self.fail(ErrorType::Syntax))
        }
    }

    pub open spec fn spec_curr_indent(&self) -> int {
        if self.ws@.len() > 0 { self.ws@.last() as int } else { 0 }
    }

    /// How the line after the current one relates to it, read past the
    /// newline that ends it and any blank lines: `None` where that is an
    /// error (no newline at the cursor, an indentation of no level, or, when
    /// strict, blank lines where they are refused).
    pub open spec fn eol_outcome(&self, blank_err: bool) -> Option<Eol> {
        eol_outcome_of(
            self.input@,
            self.si@,
            self.strict,
            self.indent_size as int,
            self.i as int,
            self.c,
            self.pending@,
            self.ws@,
            blank_err,
        )
    }

    /// Reads past the newline that ends the current line (and any blank lines
    /// after it) and tells how the next line relates to the current one.
    fn get_eol_state(&mut self, error_on_blank_line: bool) -> (r: Result<Eol, Error>)
        requires
            old(self).ok(),
        ensures
            final(self).ok(),
            final(self).cursor_moved(old(self)),
            r matches Ok(e) ==> (e != Eol::CloseScope ==> final(self).i > old(self).i),
            r is Ok <==> old(self).eol_outcome(error_on_blank_line) is Some,
            r matches Ok(e) ==> Some(e) == old(self).eol_outcome(error_on_blank_line),
            r is Ok && old(self).i < old(self).si@.len() ==> final(self).i == skip_newlines(
                old(self).input@,
                old(self).si@,
                old(self).i + 1,
            ),
            r matches Err(e) ==> e.error == ErrorType::Syntax,
            old(self).i >= old(self).si@.len() ==> r == Ok::<Eol, Error>(Eol::CloseScope) && *final(self) == *old(self),
            r is Ok ==> final(self).last_dedent_ws == eol_ws(
                old(self).input@,
                old(self).si@,
                old(self).i as int,
                old(self).last_dedent_ws as int,
            ),
    {
        if self.i >= self.si.len() {
            return Ok(Eol::CloseScope);
        }
        if self.c != 10u8 {
            return Err(self.fail(ErrorType::Syntax));
        }
        let mut old_idx = self.idx;
        let ghost start = *self;
        self.update_char()?;
        let mut consecutive = false;
        while self.c == 10u8 && self.i < self.si.len()
            invariant
                self.ok(),
                self.cursor_moved(&start),
                start.ok(),
                start.i >= 1,
                start.i < start.si@.len(),
                self.i >= start.i + 1,
                self.i >= 2,
                skip_newlines(self.input@, self.si@, self.i as int) == skip_newlines(
                    start.input@,
                    start.si@,
                    start.i + 1,
                ),
                consecutive == (self.i > start.i + 1),
                old_idx == self.si@[self.i - 2],
                old_idx < self.idx,
                self.last_dedent_ws == start.last_dedent_ws,
            decreases self.si@.len() - self.i,
        {
            proof {
                assert(byte_at(self.input@, self.si@, self.i as int) == self.c);
            }
            consecutive = true;
            old_idx = self.idx;
            let ghost b = self.i;
            self.update_char()?;
            proof {
                assert(self.si@[b - 1] < self.si@[b as int]);
            }
        }
        proof {
            assert(byte_at(self.input@, self.si@, self.i as int) == self.c);
            assert(skip_newlines(self.input@, self.si@, self.i as int) == self.i);
        }
        if self.i >= self.si.len() {
            return Ok(Eol::CloseScope);
        }
        self.last_dedent_ws = self.idx - old_idx - 1;
        let still_inside_pending_array = match self.pending.first() {
            Some(p) => {
                let d = p.0;
                d >= 1 && d - 1 < self.ws.len() && self.last_dedent_ws >= self.ws[d - 1]
            },
            None => false,
        };
        proof {
            assert(still_inside_pending_array == inside_pending(
                self.pending@,
                self.ws@,
                self.last_dedent_ws as int,
            ));
        }
        if consecutive && self.strict && (error_on_blank_line || still_inside_pending_array) {
            return Err(self.fail(ErrorType::Syntax));
        }
        self.eol_state_from_ws(self.last_dedent_ws)
    }

    /// The unsigned decimal number spelled by `input[start..end]` (`0` for no
    /// digits); an error unless every byte is a digit and the value fits 32 bits.
    fn parse_string_number(&self, start: usize, end: usize) -> (r: Result<usize, Error>)
        requires
            start <= end <= self.input@.len(),
        ensures
            r is Ok <==> all_digits(self.input@, start as int, end as int) && digits_value(
                self.input@,
                start as int,
                end as int,
            ) <= 0xffff_ffff,
            r matches Ok(n) ==> n == digits_value(self.input@, start as int, end as int),
    {
        let mut acc: u32 = 0;
        let mut k = start;
        while k < end
            invariant
                start <= k <= end <= self.input@.len(),
                all_digits(self.input@, start as int, k as int),
                acc == digits_value(self.input@, start as int, k as int),
            decreases end - k,
        {
            let b = self.input[k];
            if !(48u8 <= b && b <= 57u8) {
                return Err(self.fail(ErrorType::Syntax));
            }
            let d = (b - 48u8) as u32;
            match acc.checked_mul(10) {
                Some(m) => match m.checked_add(d) {
                    Some(v) => {
                        acc = v;
                    },
                    None => {
                        proof {
                            lemma_digits_value_grows(self.input@, start as int, (k + 1) as int, end as int);
                        }
                        return Err(self.fail(ErrorType::Syntax));
                    },
                },
                None => {
                    proof {
                        lemma_digits_value_grows(self.input@, start as int, (k + 1) as int, end as int);
                    }
                    return Err(self.fail(ErrorType::Syntax));
                },
            }
            k = k + 1;
        }
        Ok(acc as usize)
    }

    /// Reads one line's header and classifies it, leaving the cursor on the
    /// `:` that ends a keyed form or on the newline after a lone value.
    fn read_header(&mut self) -> (r: Result<Header, Error>)
        requires
            old(self).ok(),
        ensures
            final(self).ok(),
            final(self).cursor_moved(old(self)),
            r matches Ok(h) ==> header_ok(h, old(self).input@.len() as int),
            r matches Ok(h) ==> (header_consumes(h) ==> final(self).i > old(self).i),
            (match delim_stop(old(self).input@, old(self).si@, old(self).i as int, 58u8, 91u8, 10u8) {
                None => r is Err,
                Some(j) => byte_at(old(self).input@, old(self).si@, j) != 91u8 ==> {
                    let h = plain_header(
                        old(self).idx as int,
                        trim_end(old(self).input@, old(self).idx as int, old(self).si@[j - 1] as int),
                        byte_at(old(self).input@, old(self).si@, j),
                    );
                    &&& (r is Ok <==> h is Some)
                    &&& (r matches Ok(hd) ==> Some(hd) == h)
                    &&& final(self).i == j
                    &&& final(self).c == byte_at(old(self).input@, old(self).si@, j)
                    &&& final(self).last_dedent_ws == old(self).last_dedent_ws
                },
            }),
            (match delim_stop(old(self).input@, old(self).si@, old(self).i as int, 58u8, 91u8, 10u8) {
                None => true,
                Some(j) => byte_at(old(self).input@, old(self).si@, j) == 91u8 ==> {
                    let a = old(self).idx as int;
                    let e = trim_end(old(self).input@, a, old(self).si@[j - 1] as int);
                    let key = if e > a {
                        Some((a as usize, e as usize))
                    } else {
                        None
                    };
                    match bracket_header(old(self).input@, old(self).si@, old(self).strict, j) {
                        None => r is Err,
                        Some((form, rows, d, cur, ke)) => form < 4 ==> {
                            &&& r matches Ok(h) && bracket_result(h, form, rows, d, key, a, ke)
                            &&& final(self).i == cur
                            &&& final(self).last_dedent_ws == old(self).last_dedent_ws
                        },
                    }
                },
            }),
    {
        let ghost start = *self;
        let key_start = self.idx;
        let key_end = self.value_end(58u8, 91u8, 10u8)?;
        let key: Option<(usize, usize)> = if key_end > key_start {
            Some((key_start, key_end))
        } else {
            None
        };
        if self.c == 58u8 {
            match key {
                Some(k) => Ok(Header::ObjectStart(k.0, k.1)),
                None => Err(self.fail(ErrorType::Syntax)),
            }
        } else if self.c == 10u8 {
            match key {
                Some(k) => Ok(Header::PrimitiveValue(k.0, k.1)),
                None => Ok(Header::EmptyObject),
            }
        } else {
            proof {
                assert(self.c == 91u8);
            }
            self.read_bracket(key, key_start)
        }
    }

    /// Reads the bracket segment of a header and what follows it, the cursor
    /// being on the `[` and the key, if any, starting at `key_start`.
    #[verifier::spinoff_prover]
    #[verifier::rlimit(80)]
    fn read_bracket(&mut self, key: Option<(usize, usize)>, key_start: usize) -> (r: Result<Header, Error>)
        requires
            old(self).ok(),
            old(self).c == 91u8,
            old(self).i > 0,
            key_start <= old(self).idx,
            key_ok(key, old(self).input@.len() as int),
        ensures
            final(self).ok(),
            final(self).cursor_moved(old(self)),
            r matches Ok(h) ==> header_ok(h, old(self).input@.len() as int),
            r is Ok ==> final(self).i > old(self).i,
            match bracket_header(old(self).input@, old(self).si@, old(self).strict, old(self).i as int) {
                None => r is Err,
                Some((form, rows, d, cur, ke)) => form < 4 ==> {
                    &&& r matches Ok(h) && bracket_result(h, form, rows, d, key, key_start as int, ke)
                    &&& final(self).i == cur
                    &&& final(self).last_dedent_ws == old(self).last_dedent_ws
                },
            },
    {
        let ghost start = *self;
        let mut delimiter: u8 = 44u8;
        self.update_char()?;
        let rows_start = self.idx;
        let ghost i1 = self.i;
        let ghost idx1 = self.idx;
        self.update_char()?;
        proof {
            assert(self.si@[i1 - 1] < self.si@[i1 as int]);
        }
        let rows = self.parse_string_number(rows_start, self.idx)?;
        let keyed = self.c == 58u8;
        if keyed {
            self.update_char()?;
        }
        if self.c == 124u8 || self.c == 9u8 {
            delimiter = self.c;
            self.update_char()?;
        }
        if self.c != 93u8 {
            return Err(self.fail(ErrorType::Syntax));
        }
        self.update_char()?;
        if self.c == 91u8 {
            // a second bracket segment: the line is no array header, and
            // leniently everything before its `:` is the key
            if self.strict {
                return Err(self.fail(ErrorType::Syntax));
            }
            proof {
                Self::lemma_idx_monotone(&start, self);
            }
            let ke = self.value_end(58u8, 58u8, 58u8)?;
            return Ok(Header::ObjectStart(key_start, ke));
        }
        if self.c != 123u8 {
            if keyed {
                Ok(Header::KeyedTabularObjects { key, headers: Vec::new(), rows, delimiter })
            } else if rows == 0 {
                Ok(Header::EmptyArray { key })
            } else {
                Ok(Header::SimpleArray { count: rows, key, delimiter })
            }
        } else {
            self.read_fields(key, keyed, rows, delimiter)
        }
    }

    /// Reads the `{...}` field list of a tabular header, the cursor being on the `{`.
    fn read_fields(
        &mut self,
        key: Option<(usize, usize)>,
        keyed: bool,
        rows: usize,
        delimiter: u8,
    ) -> (r: Result<Header, Error>)
        requires
            old(self).ok(),
            key_ok(key, old(self).input@.len() as int),
        ensures
            final(self).ok(),
            final(self).cursor_moved(old(self)),
            r matches Ok(h) ==> header_ok(h, old(self).input@.len() as int),
            r matches Ok(h) ==> header_consumes(h),
            (match field_walk(old(self).input@, old(self).si@, old(self).i as int, delimiter) {
                None => r is Err,
                Some((fs, m, nested)) => !nested ==> final(self).i == m && if keyed {
                    r matches Ok(Header::KeyedTabularObjects { key: k2, headers, rows: r2, delimiter: d2 }) && k2
                        == key && headers@ == fs && r2 == rows && d2 == delimiter
                } else {
                    r matches Ok(Header::TabularArray { key: k2, headers, rows: r2, delimiter: d2 }) && k2 == key
                        && headers@ == fs && r2 == rows && d2 == delimiter
                },
            }),
    {
        let ghost len = self.input@.len() as int;
        let ghost walk = field_walk(old(self).input@, old(self).si@, old(self).i as int, delimiter);
        let mut fields: Vec<(usize, usize)> = Vec::new();
        let mut nested = false;
        let mut first_group: (usize, usize) = (0, 0);
        loop
            invariant_except_break
                !nested,
                match field_walk(self.input@, self.si@, self.i as int, delimiter) {
                    Some((fs, m, n)) => walk == Some((fields@ + fs, m, n)),
                    None => walk is None,
                },
            invariant
                self.ok(),
                self.cursor_moved(old(self)),
                len == self.input@.len(),
                spans_ok(fields@, len),
                nested ==> span_ok(first_group, len),
                walk == field_walk(old(self).input@, old(self).si@, old(self).i as int, delimiter),
            ensures
                spans_ok(fields@, len),
                nested ==> span_ok(first_group, len),
                walk == field_walk(old(self).input@, old(self).si@, old(self).i as int, delimiter),
                walk is Some,
                !nested ==> walk == Some((fields@, self.i as int, false)),
                nested ==> (walk matches Some((_, _, n)) && n),
            decreases self.si@.len() - self.i,
        {
            let ghost before = self.i;
            let ghost sb = *self;
            self.update_char()?;
            let vs = self.idx;
            let ghost sa = *self;
            let ve = self.value_end(delimiter, 125u8, 123u8)?;
            proof {
                lemma_delim_stop_byte(sa.input@, sa.si@, sa.i as int, delimiter, 125u8, 123u8);
                assert(vs == sb.si@[sb.i as int]);
                assert(self.idx == sb.si@[self.i - 1]);
                lemma_trim_end_bounds(sb.input@, vs as int, self.idx as int);
                assert(ve == trim_end(sb.input@, sb.si@[sb.i as int] as int, sb.si@[self.i - 1] as int));
            }
            proof {
                assert(sb.i < self.i <= self.si@.len());
                assert(byte_at(self.input@, self.si@, self.i as int) == self.c);
            }
            if self.c == 123u8 {
                nested = true;
                first_group = (vs, ve);
                proof {
                    assert(field_walk(sb.input@, sb.si@, sb.i as int, delimiter) == Some((Seq::<(usize, usize)>::empty(), self.i as int, true)));
                    assert(fields@ + Seq::<(usize, usize)>::empty() =~= fields@);
                }
                break;
            }
            let ghost f0 = fields@;
            fields.push((vs, ve));
            proof {
                assert forall|k: int| 0 <= k < fields@.len() implies span_ok(#[trigger] fields@[k], len) by {
                    if k < fields@.len() - 1 {
                    }
                }
            }
            if self.c == 125u8 {
                let ghost sc = *self;
                match self.update_char() {
                    Ok(()) => {},
                    Err(e) => {
                        proof {
                            assert(field_walk(sb.input@, sb.si@, sb.i as int, delimiter) is None);
                        }
                        return Err(e);
                    },
                }
                proof {
                    assert(field_walk(sb.input@, sb.si@, sb.i as int, delimiter) == Some((seq![(vs, ve)], sc.i + 1, false)));
                    assert(f0 + seq![(vs, ve)] =~= fields@);
                }
                break;
            }
            proof {
                assert(field_walk(sb.input@, sb.si@, sb.i as int, delimiter) == match field_walk(self.input@, self.si@, self.i as int, delimiter) {
                    Some((fs, m, n)) => Some((seq![(vs, ve)] + fs, m, n)),
                    None => None,
                });
                if let Some((fs, m, n)) = field_walk(self.input@, self.si@, self.i as int, delimiter) {
                    assert(f0 + (seq![(vs, ve)] + fs) =~= fields@ + fs);
                }
            }
        }
        if !nested {
            if keyed {
                return Ok(Header::KeyedTabularObjects { key, headers: fields, rows, delimiter });
            } else {
                return Ok(Header::TabularArray { key, headers: fields, rows, delimiter });
            }
        }
        // A nested field group: record the depth-first walk over the fields.
        let mut ops: Vec<FieldOp> = Vec::new();
        let mut k: usize = 0;
        while k < fields.len()
            invariant
                walk == field_walk(old(self).input@, old(self).si@, old(self).i as int, delimiter),
                walk matches Some((_, _, n)) && n,
                k <= fields@.len(),
                spans_ok(fields@, len),
                ops_ok(ops@, len),
            decreases fields@.len() - k,
        {
            let f = fields[k];
            ops.push(FieldOp::Leaf(f.0, f.1));
            proof {
                assert(span_ok(fields@[k as int], len));
                assert forall|j: int| 0 <= j < ops@.len() implies match #[trigger] ops@[j] {
                    FieldOp::Leaf(a, b) => span_ok((a, b), len),
                    FieldOp::Open(a, b) => span_ok((a, b), len),
                    FieldOp::Close => true,
                } by {
                    if j < ops@.len() - 1 {
                    }
                }
            }
            k = k + 1;
        }
        ops.push(FieldOp::Open(first_group.0, first_group.1));
        proof {
            assert forall|j: int| 0 <= j < ops@.len() implies match #[trigger] ops@[j] {
                FieldOp::Leaf(a, b) => span_ok((a, b), len),
                FieldOp::Open(a, b) => span_ok((a, b), len),
                FieldOp::Close => true,
            } by {
                if j < ops@.len() - 1 {
                }
            }
        }
        let mut level: usize = 1;
        loop
            invariant
                walk == field_walk(old(self).input@, old(self).si@, old(self).i as int, delimiter),
                walk matches Some((_, _, n)) && n,
                self.ok(),
                self.cursor_moved(old(self)),
                len == self.input@.len(),
                ops_ok(ops@, len),
            ensures
                ops_ok(ops@, len),
            decreases self.si@.len() - self.i,
        {
            let ghost head = self.i;
            self.update_char()?;
            let ghost it = self.i;
            let vs = self.idx;
            let ve = self.value_end(delimiter, 125u8, 123u8)?;
            if self.c == 123u8 {
                ops.push(FieldOp::Open(vs, ve));
                proof {
                    assert forall|j: int| 0 <= j < ops@.len() implies match #[trigger] ops@[j] {
                        FieldOp::Leaf(a, b) => span_ok((a, b), len),
                        FieldOp::Open(a, b) => span_ok((a, b), len),
                        FieldOp::Close => true,
                    } by {
                        if j < ops@.len() - 1 {
                        }
                    }
                }
                if level == usize::MAX {
                    return Err(self.fail(ErrorType::Syntax));
                }
                level = level + 1;
                continue;
            }
            ops.push(FieldOp::Leaf(vs, ve));
            proof {
                assert forall|j: int| 0 <= j < ops@.len() implies match #[trigger] ops@[j] {
                    FieldOp::Leaf(a, b) => span_ok((a, b), len),
                    FieldOp::Open(a, b) => span_ok((a, b), len),
                    FieldOp::Close => true,
                } by {
                    if j < ops@.len() - 1 {
                    }
                }
            }
            let mut done = false;
            while self.c == 125u8
                invariant
                    walk == field_walk(old(self).input@, old(self).si@, old(self).i as int, delimiter),
                    walk matches Some((_, _, n)) && n,
                    self.ok(),
                    self.cursor_moved(old(self)),
                    self.i >= it,
                    it > head,
                    len == self.input@.len(),
                    ops_ok(ops@, len),
                decreases self.si@.len() - self.i,
            {
                if level == 0 {
                    // the `}` that closes the whole field list
                    self.update_char()?;
                    done = true;
                    break;
                }
                level = level - 1;
                ops.push(FieldOp::Close);
                proof {
                    assert forall|j: int| 0 <= j < ops@.len() implies match #[trigger] ops@[j] {
                        FieldOp::Leaf(a, b) => span_ok((a, b), len),
                        FieldOp::Open(a, b) => span_ok((a, b), len),
                        FieldOp::Close => true,
                    } by {
                        if j < ops@.len() - 1 {
                        }
                    }
                }
                self.update_char()?;
            }
            if done {
                break;
            }
        }
        if keyed {
            // nested field groups in keyed headers are not supported
            return Err(self.fail(ErrorType::NoStructure));
        }
        Ok(Header::NestedFieldGroupsArray { key, ops, rows, delimiter })
    }

    /// The cursor's byte offset only grows as the cursor moves on.
    proof fn lemma_idx_monotone(a: &Machine<'a>, b: &Machine<'a>)
        requires
            a.ok(),
            b.ok(),
            b.same_config(a),
            b.i >= a.i,
        ensures
            b.idx >= a.idx,
    {
        if a.i > 0 && b.i > a.i {
            assert(b.si@[a.i - 1] < b.si@[b.i - 1]);
        }
    }

    proof fn lemma_grown_ok(a: &Machine<'a>, b: &Machine<'a>)
        requires
            a.ok(),
            b.same_config(a),
            b.i == a.i && b.idx == a.idx && b.c == a.c,
            b.stack == a.stack,
            b.last_start == a.last_start,
            b.res@.len() >= a.res@.len(),
            a.res@.len() > 0 || b.res@.len() > 0 ==> b.last_start < b.res@.len(),
            leaves_from(tape_view(b.res@), b.input@),
            int_kinds(b.res@),
        ensures
            b.ok(),
    {
        assert forall|k: int| 0 <= k < b.stack@.len() && (#[trigger] b.stack@[k]).kind
            != FrameKind::Start implies b.stack@[k].last_start < b.res@.len() by {
            assert(a.stack@[k] == b.stack@[k]);
        }
    }

    /// Only the tape grew.
    pub open spec fn tape_grew(&self, old: &Machine<'a>) -> bool {
        &&& self.same_config(old)
        &&& self.i == old.i && self.idx == old.idx && self.c == old.c
        &&& self.stack == old.stack
        &&& self.ws == old.ws
        &&& self.pending == old.pending
        &&& self.last_start == old.last_start
        &&& self.cnt == old.cnt
        &&& self.last_dedent_ws == old.last_dedent_ws
        &&& self.res@.len() >= old.res@.len()
    }

    fn insert_str(&mut self, start: usize, end: usize) -> (r: Result<(), Error>)
        requires
            old(self).ok(),
            start <= end <= old(self).input@.len(),
        ensures
            final(self).ok(),
            final(self).tape_grew(old(self)),
            r is Ok ==> final(self).tv() == old(self).tv().push(final(self).tv().last())
                && final(self).tv().last() is Str,
            r is Ok <==> string_view(old(self).input@.subrange(start as int, end as int)) is Some,
            r is Ok ==> string_view(old(self).input@.subrange(start as int, end as int)) == Some(
                final(self).tv().last(),
            ),
            r is Err ==> final(self).res == old(self).res,
            r matches Err(e) ==> e.error == ErrorType::InvalidString || e.error == ErrorType::InvalidUtf8,
    {
        match decode_string(self.input, start, end) {
            Ok(st) => {
                let node = Node::String(st);
                proof {
                    assert(string_view(self.input@.subrange(start as int, end as int)) == Some(node@));
                    assert(from_token(node@, self.input@));
                    lemma_leaves_push(self.tv(), self.input@, node@);
                }
                proof {
                    lemma_int_kinds_change(self.res@, self.res@.len() as int, node);
                }
                self.res.push(node);
                proof {
                    assert(self.tv() =~= old(self).tv().push(node@));
                    Self::lemma_grown_ok(old(self), self);
                    assert(self.tv() =~= old(self).tv().push(self.tv().last()));
                }
                Ok(())
            },
            Err(StringError::BadQuoting) => Err(self.fail(ErrorType::InvalidString)),
            Err(StringError::NotUtf8) => Err(self.fail(ErrorType::InvalidUtf8)),
        }
    }

    fn insert_inferred(&mut self, start: usize, end: usize) -> (r: Result<(), Error>)
        requires
            old(self).ok(),
            start <= end <= old(self).input@.len(),
        ensures
            final(self).ok(),
            final(self).tape_grew(old(self)),
            r is Ok ==> final(self).tv() == old(self).tv().push(final(self).tv().last())
                && !is_container(final(self).tv().last()),
            r is Ok <==> inferred_view(old(self).input@.subrange(start as int, end as int)) is Some,
            r is Ok ==> inferred_view(old(self).input@.subrange(start as int, end as int)) == Some(
                final(self).tv().last(),
            ),
            r is Err ==> final(self).res == old(self).res,
            r matches Err(e) ==> e.error == ErrorType::InvalidString || e.error == ErrorType::InvalidUtf8,
    {
        match infer_value(self.input, start, end) {
            Ok(n) => {
                proof {
                    assert(inferred_view(self.input@.subrange(start as int, end as int)) == Some(n@));
                    assert(from_token(n@, self.input@));
                    lemma_leaves_push(self.tv(), self.input@, n@);
                }
                let ghost nv = n@;
                proof {
                    lemma_int_kinds_change(self.res@, self.res@.len() as int, n);
                }
                self.res.push(n);
                proof {
                    assert(self.tv() =~= old(self).tv().push(nv));
                    Self::lemma_grown_ok(old(self), self);
                    assert(self.tv() =~= old(self).tv().push(self.tv().last()));
                }
                Ok(())
            },
            Err(StringError::BadQuoting) => Err(self.fail(ErrorType::InvalidString)),
            Err(StringError::NotUtf8) => Err(self.fail(ErrorType::InvalidUtf8)),
        }
    }

    fn insert_key(&mut self, key: Option<(usize, usize)>) -> (r: Result<(), Error>)
        requires
            old(self).ok(),
            key_ok(key, old(self).input@.len() as int),
        ensures
            final(self).ok(),
            final(self).moved_on(old(self)),
            final(self).i == old(self).i,
            final(self).stack == old(self).stack,
            final(self).last_start == old(self).last_start,
            final(self).ws == old(self).ws,
            final(self).pending == old(self).pending,
            final(self).last_dedent_ws == old(self).last_dedent_ws,
            r is Ok ==> match key {
                Some(_) => final(self).cnt == old(self).cnt + 1 && final(self).tv() == old(self).tv().push(
                    final(self).tv().last(),
                ) && final(self).tv().last() is Str,
                None => final(self).cnt == old(self).cnt && final(self).res == old(self).res,
            },
            r is Ok <==> match key {
                Some(k) => old(self).cnt < usize::MAX && string_view(
                    old(self).input@.subrange(k.0 as int, k.1 as int),
                ) is Some,
                None => true,
            },
            r is Ok ==> match key {
                Some(k) => string_view(old(self).input@.subrange(k.0 as int, k.1 as int)) == Some(
                    final(self).tv().last(),
                ),
                None => true,
            },
    {
        match key {
            Some(k) => {
                self.inc_cnt()?;
                self.insert_str(k.0, k.1)
            },
            None => Ok(()),
        }
    }

    fn push_empty(&mut self, object: bool)
        requires
            old(self).ok(),
        ensures
            final(self).ok(),
            final(self).tape_grew(old(self)),
            final(self).res@.len() == old(self).res@.len() + 1,
            final(self).tv() == old(self).tv().push(
                if object {
                    NodeView::Object { len: 0, count: 0 }
                } else {
                    NodeView::Array { len: 0, count: 0 }
                },
            ),
    {
        proof {
            lemma_leaves_push(
                self.tv(),
                self.input@,
                if object {
                    NodeView::Object { len: 0, count: 0 }
                } else {
                    NodeView::Array { len: 0, count: 0 }
                },
            );
        }
        if object {
            proof {
                lemma_int_kinds_change(self.res@, self.res@.len() as int, Node::Object { len: 0, count: 0 });
            }
            self.res.push(Node::Object { len: 0, count: 0 });
        } else {
            proof {
                lemma_int_kinds_change(self.res@, self.res@.len() as int, Node::Array { len: 0, count: 0 });
            }
            self.res.push(Node::Array { len: 0, count: 0 });
        }
        proof {
            assert(self.tv() =~= old(self).tv().push(
                if object {
                    NodeView::Object { len: 0, count: 0 }
                } else {
                    NodeView::Array { len: 0, count: 0 }
                },
            ));
            Self::lemma_grown_ok(old(self), self);
            assert(self.tv() =~= old(self).tv().push(
                if object {
                    NodeView::Object { len: 0, count: 0 }
                } else {
                    NodeView::Array { len: 0, count: 0 }
                },
            ));
        }
    }

    /// Saves the enclosing container and starts a new one at the end of the tape.
    fn open_scope(&mut self, object: bool, parent: FrameKind, indent: usize)
        requires
            old(self).ok(),
            old(self).res@.len() > 0,
            parent != FrameKind::Start,
        ensures
            final(self).ok(),
            final(self).moved_on(old(self)),
            final(self).i == old(self).i,
            final(self).stack@ == old(self).stack@.push(
                Frame { kind: parent, last_start: old(self).last_start, cnt: old(self).cnt },
            ),
            final(self).last_start == old(self).res@.len(),
            final(self).cnt == 0,
            final(self).ws@ == old(self).ws@.push(indent),
            final(self).pending == old(self).pending,
            final(self).last_dedent_ws == old(self).last_dedent_ws,
            final(self).tv() == old(self).tv().push(
                if object {
                    NodeView::Object { len: 0, count: 0 }
                } else {
                    NodeView::Array { len: 0, count: 0 }
                },
            ),
    {
        let f = Frame { kind: parent, last_start: self.last_start, cnt: self.cnt };
        self.stack.push(f);
        self.ws.push(indent);
        self.last_start = self.res.len();
        if object {
            proof {
                lemma_int_kinds_change(self.res@, self.res@.len() as int, Node::Object { len: 0, count: 0 });
            }
            self.res.push(Node::Object { len: 0, count: 0 });
        } else {
            proof {
                lemma_int_kinds_change(self.res@, self.res@.len() as int, Node::Array { len: 0, count: 0 });
            }
            self.res.push(Node::Array { len: 0, count: 0 });
        }
        self.cnt = 0;
        proof {
            assert forall|k: int| 0 <= k < self.stack@.len() && (#[trigger] self.stack@[k]).kind
                != FrameKind::Start implies self.stack@[k].last_start < self.res@.len() by {
                if k < self.stack@.len() - 1 {
                    assert(self.stack@[k] == old(self).stack@[k]);
                }
            }
            assert(self.tv() =~= old(self).tv().push(
                if object {
                    NodeView::Object { len: 0, count: 0 }
                } else {
                    NodeView::Array { len: 0, count: 0 }
                },
            ));
        }
    }

    /// The frame of the container we are inside of: a keyed header only occurs
    /// inside an object, an unkeyed one only inside an array.
    fn keyed_kind(key: Option<(usize, usize)>) -> (k: FrameKind)
        ensures
            k != FrameKind::Start,
            k == (if key is Some { FrameKind::Object } else { FrameKind::Array }),
    {
        match key {
            Some(_) => FrameKind::Object,
            None => FrameKind::Array,
        }
    }

    /// Records the entry count and node count in the current container's slot.
    fn backfill(&mut self, allow_array: bool) -> (r: Result<(), Error>)
        requires
            old(self).ok(),
            old(self).res@.len() > 0,
        ensures
            final(self).ok(),
            final(self).tape_grew(old(self)),
            final(self).res@.len() == old(self).res@.len(),
            r is Ok ==> final(self).tv() == old(self).tv().update(
                old(self).last_start as int,
                Self::closed_node(old(self).tv(), old(self).last_start as int, old(self).cnt as int),
            ),
            r is Ok ==> is_container(old(self).tv()[old(self).last_start as int]),
            r is Ok <==> old(self).cur_object() || (allow_array && old(self).cur_array()),
    {
        let ls = self.last_start;
        let count = self.res.len() - ls - 1;
        let is_object = match &self.res[ls] {
            Node::Object { .. } => true,
            _ => false,
        };
        let is_array = match &self.res[ls] {
            Node::Array { .. } => true,
            _ => false,
        };
        proof {
            assert(self.tv()[ls as int] == self.res@[ls as int]@);
        }
        if is_object {
            proof {
                lemma_int_kinds_change(self.res@, ls as int, Node::Object { len: self.cnt, count });
            }
            self.res.set(ls, Node::Object { len: self.cnt, count });
            proof {
                assert(self.tv() =~= old(self).tv().update(
                    ls as int,
                    Self::closed_node(old(self).tv(), ls as int, old(self).cnt as int),
                ));
            }
            Ok(())
        } else if is_array && allow_array {
            proof {
                lemma_int_kinds_change(self.res@, ls as int, Node::Array { len: self.cnt, count });
            }
            self.res.set(ls, Node::Array { len: self.cnt, count });
            proof {
                assert(self.tv() =~= old(self).tv().update(
                    ls as int,
                    Self::closed_node(old(self).tv(), ls as int, old(self).cnt as int),
                ));
            }
            Ok(())
        } else {
            Err(self.fail(ErrorType::TapeError))
        }
    }

    /// Closes the current row object of a tabular form and returns to its parent.
    fn close_and_pop(&mut self) -> (r: Result<(), Error>)
        requires
            old(self).ok(),
            old(self).res@.len() > 0,
        ensures
            final(self).ok(),
            final(self).moved_on(old(self)),
            final(self).i == old(self).i,
            final(self).res@.len() == old(self).res@.len(),
            old(self).ws@.len() > 0 ==> final(self).ws@ == old(self).ws@.drop_last(),
            final(self).pending == old(self).pending,
            r is Ok ==> final(self).cnt == old(self).stack@.last().cnt && final(self).last_start == old(self).stack@.last().last_start,
            old(self).parents_ok() && old(self).cur_complete() ==> (r is Ok <==> old(self).cur_object()
                && old(self).stack@.len() >= 2),
            r is Ok && old(self).parents_ok() && old(self).cur_complete() ==> final(self).parents_ok()
                && final(self).cur_complete() && final(self).stack@ == old(self).stack@.drop_last()
                && old(self).stack@.len() >= 2 && kind_matches(
                old(self).stack@.last().kind,
                final(self).tv()[final(self).last_start as int],
            ),
    {
        self.ws.pop();
        let ghost before = *self;
        self.backfill(false)?;
        match self.stack.pop() {
            Some(f) => {
                match f.kind {
                    FrameKind::Start => {
                        proof {
                            assert(old(self).stack@[old(self).stack@.len() - 1] == f);
                            if old(self).parents_ok() && old(self).stack@.len() >= 2 {
                                assert(old(self).level_ok(old(self).stack@.len() - 2));
                            }
                        }
                        Err(self.fail(ErrorType::NoStructure))
                    },
                    _ => {
                        self.last_start = f.last_start;
                        self.cnt = f.cnt;
                        proof {
                            assert(old(self).stack@[old(self).stack@.len() - 1] == f);
                            if old(self).parents_ok() && old(self).cur_complete() {
                                assert(before.parents_ok()) by {
                                    Self::lemma_parents_stable(old(self), &before);
                                }
                                // only the bottom frame is the start frame
                                if old(self).stack@.len() == 1 {
                                    assert(f == old(self).stack@[0]);
                                }
                                Self::lemma_close(&before, self);
                            }
                        }
                        Ok(())
                    },
                }
            },
            None => Err(self.fail(ErrorType::TapeError)),
        }
    }

    /// The machine made progress consistently with its old state and the tape is started.
    pub open spec fn advanced(&self, old: &Machine<'a>) -> bool {
        &&& self.ok()
        &&& self.moved_on(old)
        &&& self.res@.len() > 0
    }

    /// The cells of one tabular row: `key, value` for every field, the last
    /// value running to the end of the line.
    #[verifier::spinoff_prover]
    #[verifier::rlimit(60)]
    fn tabular_cells(&mut self, headers: &Vec<(usize, usize)>, delimiter: u8, reject_empty_single: bool) -> (r: Result<(), Error>)
        requires
            old(self).ok(),
            old(self).res@.len() > 0,
            old(self).i > 0,
            headers@.len() >= 1,
            spans_ok(headers@, old(self).input@.len() as int),
            old(self).parents_ok(),
            old(self).cur_object(),
            old(self).cur_complete(),
        ensures
            final(self).advanced(old(self)),
            final(self).stack == old(self).stack,
            final(self).last_start == old(self).last_start,
            final(self).ws == old(self).ws,
            final(self).pending == old(self).pending,
            r is Ok ==> final(self).parents_ok() && final(self).cur_object() && final(self).cur_complete(),
            r is Ok ==> final(self).cnt == old(self).cnt + headers@.len(),
            r is Ok ==> final(self).tv().len() == old(self).tv().len() + 2 * headers@.len(),
            r is Ok ==> forall|h: int|
                0 <= h < headers@.len() ==> string_view(
                    old(self).input@.subrange(headers@[h].0 as int, headers@[h].1 as int),
                ) == Some(#[trigger] final(self).tv()[old(self).tv().len() + 2 * h]) && !is_container(
                    final(self).tv()[old(self).tv().len() + 2 * h + 1],
                ),
            r is Ok <==> old(self).cnt + headers@.len() <= usize::MAX && names_decode(old(self).input@, headers@)
                && row_cells_ok(
                old(self).input@,
                old(self).si@,
                old(self).i as int,
                headers@.len() as int,
                delimiter,
                reject_empty_single,
            ),
            r is Ok ==> final(self).c == 10u8 && Some(final(self).i as int) == row_cells_end(
                old(self).input@,
                old(self).si@,
                old(self).i as int,
                headers@.len() as int,
                delimiter,
            ),
            r is Ok ==> forall|h: int|
                0 <= h < headers@.len() ==> Some(#[trigger] final(self).tv()[old(self).tv().len() + 2 * h + 1])
                    == cell_value(old(self).input@, old(self).si@, old(self).i as int, h as nat, headers@.len() as int, delimiter),
    {
        let n = headers.len();
        let mut h: usize = 0;
        while h < n - 1
            invariant
                h <= n - 1,
                n == headers@.len(),
                self.i == cell_at(old(self).input@, old(self).si@, old(self).i as int, h as nat, delimiter),
                forall|g: int|
                    0 <= g < h ==> Some(#[trigger] self.tv()[old(self).tv().len() + 2 * g + 1]) == cell_value(
                        old(self).input@,
                        old(self).si@,
                        old(self).i as int,
                        g as nat,
                        n as int,
                        delimiter,
                    ),
                spans_ok(headers@, self.input@.len() as int),
                self.advanced(old(self)),
                self.stack == old(self).stack,
                self.last_start == old(self).last_start,
                self.parents_ok(),
                self.cur_object(),
                self.cur_complete(),
                self.i > 0,
                self.cnt == old(self).cnt + h,
                self.tv().len() == old(self).tv().len() + 2 * h,
                self.input == old(self).input,
                self.si == old(self).si,
                self.ws == old(self).ws,
                self.pending == old(self).pending,
                forall|g: int| 0 <= g < h ==> (#[trigger] string_view(
                    old(self).input@.subrange(headers@[g].0 as int, headers@[g].1 as int),
                )) is Some,
                forall|g: int|
                    0 <= g < h ==> string_view(
                        old(self).input@.subrange(headers@[g].0 as int, headers@[g].1 as int),
                    ) == Some(#[trigger] self.tv()[old(self).tv().len() + 2 * g]) && !is_container(
                        self.tv()[old(self).tv().len() + 2 * g + 1],
                    ),
                inline_items(self.input@, self.si@, self.i as int, (n - 1 - h) as nat, delimiter) == inline_items(
                    old(self).input@,
                    old(self).si@,
                    old(self).i as int,
                    (n - 1) as nat,
                    delimiter,
                ),
            decreases n - 1 - h,
        {
            let hs = headers[h];
            proof { assert(span_ok(headers@[h as int], self.input@.len() as int)); }
            let ghost s0 = *self;
            match self.row_cell(hs, delimiter, false) {
                Ok(()) => {},
                Err(e) => {
                    proof {
                        if string_view(old(self).input@.subrange(hs.0 as int, hs.1 as int)) is None {
                            lemma_name_fails(old(self).input@, headers@, h as int);
                        }
                    }
                    return Err(e);
                },
            }
            proof {
                let base = old(self).tv().len();
                assert forall|g: int| 0 <= g < h + 1 implies Some(#[trigger] self.tv()[base + 2 * g + 1]) == cell_value(
                    old(self).input@,
                    old(self).si@,
                    old(self).i as int,
                    g as nat,
                    n as int,
                    delimiter,
                ) by {
                    if g < h {
                        assert(self.tv()[base + 2 * g + 1] == s0.tv()[base + 2 * g + 1]);
                    } else {
                        assert(h + 1 != n);
                    }
                }
                assert forall|g: int| 0 <= g < h + 1 implies string_view(
                    old(self).input@.subrange(headers@[g].0 as int, headers@[g].1 as int),
                ) == Some(#[trigger] self.tv()[base + 2 * g]) && !is_container(
                    self.tv()[base + 2 * g + 1],
                ) by {
                    if g < h {
                        assert(self.tv()[base + 2 * g] == s0.tv()[base + 2 * g]);
                        assert(self.tv()[base + 2 * g + 1] == s0.tv()[base + 2 * g + 1]);
                    }
                }
                assert forall|g: int| 0 <= g < h + 1 implies (#[trigger] string_view(
                    old(self).input@.subrange(headers@[g].0 as int, headers@[g].1 as int),
                )) is Some by {
                    if g == h {
                        assert(headers@[g] == hs);
                    }
                }
            }
            let ghost s1 = *self;
            match self.update_char() {
                Ok(()) => {},
                Err(e) => {
                    proof {
                        assert(inline_items(s0.input@, s0.si@, s0.i as int, (n - 1 - h) as nat, delimiter) is None);
                    }
                    return Err(e);
                },
            }
            proof {
                assert(((n - 1 - h) as nat - 1) as nat == (n - 1 - (h + 1)) as nat);
                assert(cell_at(old(self).input@, old(self).si@, old(self).i as int, (h + 1) as nat, delimiter) == s1.i + 1);
            }
            h = h + 1;
        }
        let hs = headers[n - 1];
        proof { assert(span_ok(headers@[n - 1], self.input@.len() as int)); }
        let ghost s0 = *self;
        match self.row_cell(hs, 10u8, reject_empty_single && n == 1) {
            Ok(()) => {},
            Err(e) => {
                proof {
                    if string_view(old(self).input@.subrange(hs.0 as int, hs.1 as int)) is None {
                        lemma_name_fails(old(self).input@, headers@, n - 1);
                    }
                }
                return Err(e);
            },
        }
        proof {
            let base = old(self).tv().len();
            assert forall|g: int| 0 <= g < headers@.len() implies Some(#[trigger] self.tv()[base + 2 * g + 1]) == cell_value(
                old(self).input@,
                old(self).si@,
                old(self).i as int,
                g as nat,
                n as int,
                delimiter,
            ) by {
                if g < n - 1 {
                    assert(self.tv()[base + 2 * g + 1] == s0.tv()[base + 2 * g + 1]);
                }
            }
            assert forall|g: int| 0 <= g < headers@.len() implies string_view(
                old(self).input@.subrange(headers@[g].0 as int, headers@[g].1 as int),
            ) == Some(#[trigger] self.tv()[base + 2 * g]) && !is_container(
                self.tv()[base + 2 * g + 1],
            ) by {
                if g < n - 1 {
                    assert(self.tv()[base + 2 * g] == s0.tv()[base + 2 * g]);
                    assert(self.tv()[base + 2 * g + 1] == s0.tv()[base + 2 * g + 1]);
                }
            }
            assert forall|g: int| 0 <= g < headers@.len() implies (#[trigger] string_view(
                old(self).input@.subrange(headers@[g].0 as int, headers@[g].1 as int),
            )) is Some by {
                if g == n - 1 {
                    assert(headers@[g] == hs);
                }
            }
        }
        Ok(())
    }

    /// One cell of a tabular row: the field name `name` as a key, then the
    /// value up to the delimiter `d`; with `reject_empty`, an empty value is refused.
    #[verifier::spinoff_prover]
    #[verifier::rlimit(40)]
    fn row_cell(&mut self, name: (usize, usize), d: u8, reject_empty: bool) -> (r: Result<(), Error>)
        requires
            old(self).ok(),
            old(self).res@.len() > 0,
            old(self).i > 0,
            span_ok(name, old(self).input@.len() as int),
            old(self).parents_ok(),
            old(self).cur_object(),
            old(self).cur_complete(),
        ensures
            final(self).advanced(old(self)),
            final(self).stack == old(self).stack,
            final(self).last_start == old(self).last_start,
            final(self).input == old(self).input,
            final(self).si == old(self).si,
            final(self).ws == old(self).ws,
            final(self).pending == old(self).pending,
            final(self).i > 0,
            r is Ok ==> final(self).parents_ok() && final(self).cur_object() && final(self).cur_complete(),
            r is Ok ==> final(self).cnt == old(self).cnt + 1,
            r is Ok ==> final(self).tv().len() == old(self).tv().len() + 2,
            r is Ok ==> forall|g: int| 0 <= g < old(self).tv().len() ==> #[trigger] final(self).tv()[g] == old(self).tv()[g],
            r is Ok ==> string_view(old(self).input@.subrange(name.0 as int, name.1 as int)) == Some(
                final(self).tv()[old(self).tv().len() as int],
            ) && !is_container(final(self).tv()[old(self).tv().len() + 1int]),
            r is Ok <==> string_view(old(self).input@.subrange(name.0 as int, name.1 as int)) is Some
                && old(self).cnt < usize::MAX && (delim_stop(old(self).input@, old(self).si@, old(self).i as int, d, d, d)
                matches Some(j) && inferred_view(token_to(old(self).input@, old(self).si@, old(self).i as int, j)) is Some
                && !(reject_empty && token_to(old(self).input@, old(self).si@, old(self).i as int, j).len() == 0)),
            r is Ok ==> Some(final(self).i as int) == delim_stop(old(self).input@, old(self).si@, old(self).i as int, d, d, d)
                && final(self).c == d,
            r is Ok ==> Some(final(self).tv()[old(self).tv().len() + 1int]) == inferred_view(
                token_to(old(self).input@, old(self).si@, old(self).i as int, final(self).i as int),
            ),
    {
        let ghost s0 = *self;
        self.insert_str(name.0, name.1)?;
        self.inc_cnt()?;
        proof { Self::lemma_append_key(&s0, self); }
        let ghost s1 = *self;
        let vs = self.idx;
        let ve = self.value_end(d, d, d)?;
        proof {
            assert(vs == cursor_pos(self.si@, s1.i as int));
            assert(self.idx == self.si@[self.i - 1]);
            assert(self.input@.subrange(vs as int, ve as int) == token_to(s1.input@, s1.si@, s1.i as int, self.i as int));
        }
        if reject_empty && vs == ve {
            return Err(self.fail(ErrorType::ExpectedArrayContent));
        }
        self.insert_inferred(vs, ve)?;
        proof {
            Self::lemma_append_value(&s1, self);
            assert(self.tv()[s0.tv().len() as int] == s1.tv()[s0.tv().len() as int]);
        }
        Ok(())
    }

    /// The content of a block-level container starts on the next line, one level deeper.
    fn expect_nested(&mut self) -> (r: Result<(), Error>)
        requires
            old(self).ok(),
        ensures
            final(self).ok(),
            final(self).cursor_moved(old(self)),
            r is Ok <==> old(self).eol_outcome(false) == Some(Eol::Nested),
            r is Ok ==> final(self).i == skip_newlines(old(self).input@, old(self).si@, old(self).i + 1),
    {
        match self.get_eol_state(false)? {
            Eol::Nested => Ok(()),
            _ => Err(self.fail(ErrorType::ExpectedArrayContent)),
        }
    }

    /// Where a header's content may be opened: at the root, in the root
    /// container itself; after a key, inside a complete object; without a key,
    /// as the pending item of an array.
    pub open spec fn header_ctx(&self, key: Option<(usize, usize)>, is_root: bool, object: bool) -> bool {
        &&& self.parents_ok()
        &&& if is_root {
            key is None && self.cur_complete() && (if object {
                self.cur_object()
            } else {
                self.cur_array()
            })
        } else if key is Some {
            self.cur_object() && self.cur_complete()
        } else {
            self.cur_array() && self.cur_pending()
        }
    }

    /// The current container is an empty-so-far container of the given kind
    /// that entries can be added to.
    pub open spec fn content_ready(&self, object: bool) -> bool {
        &&& self.parents_ok()
        &&& self.cur_complete()
        &&& if object {
            self.cur_object()
        } else {
            self.cur_array()
        }
    }

    /// After a header's key is written, the container for its content can be opened.
    proof fn lemma_after_key(a: &Machine<'a>, b: &Machine<'a>, key: Option<(usize, usize)>, object: bool)
        requires
            a.header_ctx(key, false, object),
            b.stack == a.stack,
            b.last_start == a.last_start,
            match key {
                Some(_) => b.cnt == a.cnt + 1 && b.tv() == a.tv().push(b.tv().last()) && b.tv().last() is Str,
                None => b.cnt == a.cnt && b.res == a.res,
            },
        ensures
            b.parents_ok(),
            b.cur_pending(),
            kind_matches(
                if key is Some { FrameKind::Object } else { FrameKind::Array },
                b.tv()[b.last_start as int],
            ),
    {
        if key is Some {
            Self::lemma_append_key(a, b);
        } else {
            Self::lemma_parents_stable(a, b);
        }
    }

    /// Opens the container for a header's content, or, for the root container
    /// that is already on the tape, only records the indentation of its lines.
    fn open_content(&mut self, object: bool, key: Option<(usize, usize)>, is_root: bool, indent: usize)
        requires
            old(self).ok(),
            old(self).res@.len() > 0,
            is_root ==> old(self).content_ready(object),
            !is_root ==> old(self).parents_ok() && old(self).cur_pending() && kind_matches(
                if key is Some { FrameKind::Object } else { FrameKind::Array },
                old(self).tv()[old(self).last_start as int],
            ),
        ensures
            final(self).ok(),
            final(self).moved_on(old(self)),
            final(self).i == old(self).i,
            final(self).content_ready(object),
            final(self).ws@ == old(self).ws@.push(indent),
            final(self).pending == old(self).pending,
            final(self).last_dedent_ws == old(self).last_dedent_ws,
            is_root ==> final(self).cnt == old(self).cnt,
            !is_root ==> final(self).cnt == 0,
            is_root ==> final(self).tv() == old(self).tv() && final(self).stack == old(self).stack
                && final(self).last_start == old(self).last_start,
            !is_root ==> final(self).tv() == old(self).tv().push(
                if object {
                    NodeView::Object { len: 0, count: 0 }
                } else {
                    NodeView::Array { len: 0, count: 0 }
                },
            ) && final(self).stack@ == old(self).stack@.push(
                Frame {
                    kind: if key is Some {
                        FrameKind::Object
                    } else {
                        FrameKind::Array
                    },
                    last_start: old(self).last_start,
                    cnt: old(self).cnt,
                },
            ) && final(self).last_start == old(self).tv().len(),
    {
        if is_root {
            self.ws.push(indent);
            proof { Self::lemma_parents_stable(old(self), self); }
        } else {
            let parent = Self::keyed_kind(key);
            self.open_scope(object, parent, indent);
            proof { Self::lemma_open(old(self), self, parent); }
        }
    }

    /// `key[0]:`
    fn empty_array(&mut self, key: Option<(usize, usize)>, is_root: bool) -> (r: Result<Next, Error>)
        requires
            old(self).ok(),
            old(self).res@.len() > 0,
            key_ok(key, old(self).input@.len() as int),
            old(self).header_ctx(key, is_root, false),
        ensures
            final(self).advanced(old(self)),
            r matches Ok(n) ==> final(self).mode_ok(n),
            r is Ok <==> old(self).i < old(self).si@.len() && key_decodes(old(self).input@, old(self).cnt as int, key)
                && (eol_outcome_of(
                old(self).input@,
                old(self).si@,
                old(self).strict,
                old(self).indent_size as int,
                old(self).i + 1,
                byte_at(old(self).input@, old(self).si@, old(self).i + 1),
                old(self).pending@,
                old(self).ws@.push(sat_add(old(self).spec_curr_indent(), old(self).indent_size as int) as usize),
                false,
            ) matches Some(e) && e != Eol::Nested),
            r is Ok ==> r == Ok::<Next, Error>(Next::ScopeEnd),
            r is Ok && !is_root && key is Some ==> {
                let m = old(self).i + 1;
                &&& final(self).tv() == old(self).tv() + key_nodes(old(self).input@, key) + seq![
                    NodeView::Array { len: 0, count: 0 },
                ]
                &&& final(self).stack@ == old(self).stack@.push(
                    Frame { kind: FrameKind::Object, last_start: old(self).last_start, cnt: (old(self).cnt + 1) as usize },
                )
                &&& final(self).last_start == old(self).tv().len() + 1
                &&& final(self).cnt == 0
                &&& final(self).ws@.len() > 0
                &&& final(self).ws@.drop_last() == old(self).ws@
                &&& final(self).pending == old(self).pending
                &&& final(self).i == (if m < old(self).si@.len() {
                    skip_newlines(old(self).input@, old(self).si@, m + 1)
                } else {
                    m
                })
                &&& final(self).last_dedent_ws == eol_ws(old(self).input@, old(self).si@, m, old(self).last_dedent_ws as int)
            },
    {
        self.update_char()?;
        let ghost s0 = *self;
        self.insert_key(key)?;
        proof {
            if !is_root {
                Self::lemma_after_key(&s0, self, key, false);
            } else {
                Self::lemma_parents_stable(&s0, self);
            }
        }
        let indent = self.curr_indent().saturating_add(self.indent_size);
        self.open_content(false, key, is_root, indent);
        proof {
            assert(self.ws@.drop_last() =~= old(self).ws@);
            if key is Some {
                assert(self.tv() =~= old(self).tv() + key_nodes(old(self).input@, key) + seq![
                    NodeView::Array { len: 0, count: 0 },
                ]);
            }
        }
        match self.get_eol_state(false)? {
            Eol::Nested => Err(self.fail(ErrorType::NoStructure)),
            _ => Ok(Next::ScopeEnd),
        }
    }

    /// An inline array of `count` values (at least one) can be read: its
    /// key decodes, its values decode, each ended by the delimiter and the
    /// last by the end of the line, and the next line does not nest.
    pub open spec fn inline_array_ok(&self, count: int, key: Option<(usize, usize)>, delimiter: u8, is_root: bool) -> bool {
        let n = if count >= 1 {
            count
        } else {
            1
        };
        let indent = if is_root {
            sat_add(self.spec_curr_indent(), self.indent_size as int)
        } else {
            self.spec_curr_indent()
        };
        &&& key_decodes(self.input@, self.cnt as int, key)
        &&& (is_root ==> self.cnt + n <= usize::MAX)
        &&& match inline_items(self.input@, self.si@, self.i as int, (n - 1) as nat, delimiter) {
            Some(j) => match delim_stop(self.input@, self.si@, j, 10u8, 10u8, 10u8) {
                Some(m) => inferred_view(token_to(self.input@, self.si@, j, m)) is Some && (eol_outcome_of(
                    self.input@,
                    self.si@,
                    self.strict,
                    self.indent_size as int,
                    m,
                    10u8,
                    self.pending@,
                    self.ws@.push(indent as usize),
                    true,
                ) matches Some(e) && e != Eol::Nested),
                None => false,
            },
            None => false,
        }
    }

    /// `key[N]: v1,v2,...`
    #[verifier::spinoff_prover]
    #[verifier::rlimit(100)]
    fn inline_array(&mut self, count: usize, key: Option<(usize, usize)>, delimiter: u8, is_root: bool) -> (r: Result<Next, Error>)
        requires
            old(self).ok(),
            old(self).res@.len() > 0,
            key_ok(key, old(self).input@.len() as int),
            old(self).header_ctx(key, is_root, false),
            old(self).i > 0,
        ensures
            final(self).advanced(old(self)),
            r matches Ok(n) ==> final(self).mode_ok(n),
            r is Ok <==> old(self).inline_array_ok(count as int, key, delimiter, is_root),
            r is Ok ==> final(self).tv() == old(self).tv() + key_nodes(old(self).input@, key) + (if is_root {
                Seq::<NodeView>::empty()
            } else {
                seq![NodeView::Array { len: 0, count: 0 }]
            }) + cell_values(
                old(self).input@,
                old(self).si@,
                old(self).i as int,
                if count >= 1 {
                    count as int
                } else {
                    1
                },
                if count >= 1 {
                    count as int
                } else {
                    1
                },
                delimiter,
            ),
            r is Ok ==> r == Ok::<Next, Error>(Next::ScopeEnd),
            r is Ok && !is_root && key is Some ==> {
                let m = inline_end(
                    old(self).input@,
                    old(self).si@,
                    old(self).i as int,
                    if count >= 1 {
                        count as int
                    } else {
                        1
                    },
                    delimiter,
                );
                &&& final(self).stack@ == old(self).stack@.push(
                    Frame { kind: FrameKind::Object, last_start: old(self).last_start, cnt: (old(self).cnt + 1) as usize },
                )
                &&& final(self).last_start == old(self).tv().len() + 1
                &&& final(self).cnt == (if count >= 1 {
                    count as int
                } else {
                    1
                })
                &&& final(self).ws@ == old(self).ws@.push(old(self).spec_curr_indent() as usize)
                &&& final(self).pending == old(self).pending
                &&& final(self).i == (if m < old(self).si@.len() {
                    skip_newlines(old(self).input@, old(self).si@, m + 1)
                } else {
                    m
                })
                &&& final(self).last_dedent_ws == eol_ws(old(self).input@, old(self).si@, m, old(self).last_dedent_ws as int)
            },
    {
        let ghost n: int = if count >= 1 { count as int } else { 1 };
        let ghost base: int = if is_root { old(self).cnt as int } else { 0 };
        let ghost ind: int = if is_root {
            sat_add(old(self).spec_curr_indent(), old(self).indent_size as int)
        } else {
            old(self).spec_curr_indent()
        };
        let ghost s0 = *self;
        self.insert_key(key)?;
        proof {
            if !is_root {
                Self::lemma_after_key(&s0, self, key, false);
            } else {
                Self::lemma_parents_stable(&s0, self);
            }
        }
        let indent = if is_root {
            self.curr_indent().saturating_add(self.indent_size)
        } else {
            self.curr_indent()
        };
        self.open_content(false, key, is_root, indent);
        let ghost head = self.tv();
        let ghost stk = self.stack@;
        let ghost ls0 = self.last_start;
        proof {
            assert(head =~= old(self).tv() + key_nodes(old(self).input@, key) + (if is_root {
                Seq::<NodeView>::empty()
            } else {
                seq![NodeView::Array { len: 0, count: 0 }]
            }));
            assert(head + cell_values(old(self).input@, old(self).si@, old(self).i as int, 0, n, delimiter) =~= self.tv());
        }
        let mut k: usize = 1;
        while k < count
            invariant
                head =~= old(self).tv() + key_nodes(old(self).input@, key) + (if is_root {
                    Seq::<NodeView>::empty()
                } else {
                    seq![NodeView::Array { len: 0, count: 0 }]
                }),
                self.tv() == head + cell_values(old(self).input@, old(self).si@, old(self).i as int, k - 1, n, delimiter),
                self.i == cell_at(old(self).input@, old(self).si@, old(self).i as int, (k - 1) as nat, delimiter),
                1 <= k,
                k <= n,
                n >= 1,
                n == (if count >= 1 { count as int } else { 1 }),
                base == (if is_root { old(self).cnt as int } else { 0 }),
                is_root ==> key is None,
                old(self).ok(),
                self.advanced(old(self)),
                self.content_ready(false),
                self.i > 0,
                self.cnt == base + (k - 1),
                self.ws@ == old(self).ws@.push(ind as usize),
                self.pending == old(self).pending,
                self.stack@ == stk,
                self.last_start == ls0,
                self.last_dedent_ws == old(self).last_dedent_ws,
                key_decodes(old(self).input@, old(self).cnt as int, key),
                inline_items(self.input@, self.si@, self.i as int, (n - k) as nat, delimiter) == inline_items(
                    old(self).input@,
                    old(self).si@,
                    old(self).i as int,
                    (n - 1) as nat,
                    delimiter,
                ),
            decreases count - k,
        {
            let ghost s1 = *self;
            match self.inline_cell(delimiter) {
                Ok(()) => {},
                Err(e) => {
                    proof {
                        if s1.cnt < usize::MAX {
                            assert(inline_items(s1.input@, s1.si@, s1.i as int, (n - k) as nat, delimiter) is None);
                        }
                    }
                    return Err(e);
                },
            }
            let ghost s2 = *self;
            match self.update_char() {
                Ok(()) => {},
                Err(e) => {
                    proof {
                        assert(inline_items(s1.input@, s1.si@, s1.i as int, (n - k) as nat, delimiter) is None);
                    }
                    return Err(e);
                },
            }
            proof {
                assert(((n - k) as nat - 1) as nat == (n - (k + 1)) as nat);
                assert(cell_at(old(self).input@, old(self).si@, old(self).i as int, k as nat, delimiter) == s2.i + 1);
                assert(k != n);
                assert(cell_values(old(self).input@, old(self).si@, old(self).i as int, k as int, n, delimiter) =~= cell_values(
                    old(self).input@,
                    old(self).si@,
                    old(self).i as int,
                    k - 1,
                    n,
                    delimiter,
                ).push(inferred_view(token_to(s1.input@, s1.si@, s1.i as int, s2.i as int))->0));
                assert(self.tv() =~= head + cell_values(old(self).input@, old(self).si@, old(self).i as int, k as int, n, delimiter));
            }
            k = k + 1;
        }
        proof {
            assert(k == n);
        }
        let ghost s1 = *self;
        match self.inline_cell(10u8) {
            Ok(()) => {},
            Err(e) => {
                return Err(e);
            },
        }
        proof {
            assert(cell_values(old(self).input@, old(self).si@, old(self).i as int, n, n, delimiter) =~= cell_values(
                old(self).input@,
                old(self).si@,
                old(self).i as int,
                n - 1,
                n,
                delimiter,
            ).push(inferred_view(token_to(s1.input@, s1.si@, s1.i as int, self.i as int))->0));
            assert(self.tv() =~= head + cell_values(old(self).input@, old(self).si@, old(self).i as int, n, n, delimiter));
            assert(inline_end(old(self).input@, old(self).si@, old(self).i as int, n, delimiter) == self.i);
        }
        match self.get_eol_state(true)? {
            Eol::Nested => Err(self.fail(ErrorType::NoStructure)),
            _ => Ok(Next::ScopeEnd),
        }
    }

    /// One value of an inline array: counted, read up to the delimiter `d`
    /// and decoded onto the tape.
    #[verifier::spinoff_prover]
    #[verifier::rlimit(40)]
    fn inline_cell(&mut self, d: u8) -> (r: Result<(), Error>)
        requires
            old(self).ok(),
            old(self).res@.len() > 0,
            old(self).content_ready(false),
            old(self).i > 0,
        ensures
            final(self).advanced(old(self)),
            r is Ok ==> final(self).content_ready(false),
            final(self).ws == old(self).ws,
            final(self).pending == old(self).pending,
            final(self).stack == old(self).stack,
            final(self).last_start == old(self).last_start,
            final(self).last_dedent_ws == old(self).last_dedent_ws,
            r is Ok <==> old(self).cnt < usize::MAX && (delim_stop(old(self).input@, old(self).si@, old(self).i as int, d, d, d)
                matches Some(j) && inferred_view(token_to(old(self).input@, old(self).si@, old(self).i as int, j)) is Some),
            r is Ok ==> Some(final(self).i as int) == delim_stop(old(self).input@, old(self).si@, old(self).i as int, d, d, d)
                && final(self).cnt == old(self).cnt + 1 && final(self).c == d,
            r is Ok ==> final(self).tv() == old(self).tv().push(
                inferred_view(token_to(old(self).input@, old(self).si@, old(self).i as int, final(self).i as int))->0,
            ),
    {
        let ghost s1 = *self;
        self.inc_cnt()?;
        proof { Self::lemma_count_item(&s1, self); }
        let ghost s2 = *self;
        let vs = self.idx;
        let ve = self.value_end(d, d, d)?;
        proof {
            assert(vs == cursor_pos(self.si@, s2.i as int));
            assert(self.idx == self.si@[self.i - 1]);
            assert(self.input@.subrange(vs as int, ve as int) == token_to(s1.input@, s1.si@, s1.i as int, self.i as int));
        }
        self.insert_inferred(vs, ve)?;
        proof { Self::lemma_append_value(&s2, self); }
        Ok(())
    }

    /// `key[N]:` followed by `- item` lines.
    fn block_array(&mut self, count: usize, key: Option<(usize, usize)>, is_root: bool) -> (r: Result<Next, Error>)
        requires
            old(self).ok(),
            old(self).res@.len() > 0,
            key_ok(key, old(self).input@.len() as int),
            old(self).header_ctx(key, is_root, false),
        ensures
            final(self).advanced(old(self)),
            r matches Ok(n) ==> final(self).mode_ok(n),
            r is Ok <==> key_decodes(old(self).input@, old(self).cnt as int, key) && old(self).eol_outcome(false)
                == Some(Eol::Nested),
    {
        let ghost s0 = *self;
        self.insert_key(key)?;
        proof {
            if !is_root {
                Self::lemma_after_key(&s0, self, key, false);
            } else {
                Self::lemma_parents_stable(&s0, self);
            }
        }
        self.expect_nested()?;
        let indent = self.curr_indent().saturating_add(self.indent_size);
        self.open_content(false, key, is_root, indent);
        let depth = self.stack.len();
        self.pending.push((depth, count));
        Ok(Next::ExpectItem)
    }

    /// `key[N:]{fields}:` followed by `name: v1,v2` rows.
    #[verifier::spinoff_prover]
    #[verifier::rlimit(100)]
    fn tabular_objects(
        &mut self,
        key: Option<(usize, usize)>,
        headers: &Vec<(usize, usize)>,
        rows: usize,
        is_root: bool,
        delimiter: u8,
    ) -> (r: Result<Next, Error>)
        requires
            old(self).ok(),
            old(self).res@.len() > 0,
            key_ok(key, old(self).input@.len() as int),
            spans_ok(headers@, old(self).input@.len() as int),
            old(self).header_ctx(key, is_root, true),
        ensures
            final(self).advanced(old(self)),
            r matches Ok(n) ==> final(self).mode_ok(n),
            r is Ok <==> key_decodes(old(self).input@, old(self).cnt as int, key) && old(self).i < old(self).si@.len()
                && old(self).stepped().eol_outcome(false) == Some(Eol::Nested) && headers@.len() > 0 && rows > 0
                && object_rows_ok(
                old(self).input@,
                old(self).si@,
                old(self).strict,
                old(self).indent_size as int,
                skip_newlines(old(self).input@, old(self).si@, old(self).i + 2),
                old(self).pending@,
                old(self).ws@.push(sat_add(old(self).spec_curr_indent(), old(self).indent_size as int) as usize),
                headers@,
                delimiter,
                rows as nat,
                if is_root {
                    old(self).cnt as int
                } else {
                    0
                },
            ),
    {
        let ghost s0 = *self;
        self.insert_key(key)?;
        proof {
            if !is_root {
                Self::lemma_after_key(&s0, self, key, true);
            } else {
                Self::lemma_parents_stable(&s0, self);
            }
        }
        let ghost sk = *self;
        self.update_char()?;
        proof {
            assert(self.eol_outcome(false) == old(self).stepped().eol_outcome(false));
        }
        self.expect_nested()?;
        let indent = self.curr_indent().saturating_add(self.indent_size);
        self.open_content(true, key, is_root, indent);
        let ghost ws_c = self.ws@;
        let ghost base: int = self.cnt as int;
        let ghost i0: int = self.i as int;
        proof {
            assert(ws_c == old(self).ws@.push(sat_add(old(self).spec_curr_indent(), old(self).indent_size as int) as usize));
            assert(i0 == skip_newlines(old(self).input@, old(self).si@, old(self).i + 2));
            assert(base == if is_root { old(self).cnt as int } else { 0 });
        }
        if headers.len() == 0 || rows == 0 {
            return Err(self.fail(ErrorType::Syntax));
        }
        let ghost all_ok = object_rows_ok(
            old(self).input@,
            old(self).si@,
            old(self).strict,
            old(self).indent_size as int,
            i0,
            old(self).pending@,
            ws_c,
            headers@,
            delimiter,
            rows as nat,
            base,
        );
        proof {
            assert(key_decodes(old(self).input@, old(self).cnt as int, key) && old(self).i < old(self).si@.len()
                && old(self).stepped().eol_outcome(false) == Some(Eol::Nested));
        }
        let mut row: usize = 0;
        loop
            invariant_except_break
                self.cnt == base + row,
                all_ok == object_rows_ok(
                    old(self).input@,
                    old(self).si@,
                    old(self).strict,
                    old(self).indent_size as int,
                    self.i as int,
                    old(self).pending@,
                    ws_c,
                    headers@,
                    delimiter,
                    (rows - row) as nat,
                    base + row,
                ),
            invariant
                row < rows,
                headers@.len() >= 1,
                key_decodes(old(self).input@, old(self).cnt as int, key) && old(self).i < old(self).si@.len()
                    && old(self).stepped().eol_outcome(false) == Some(Eol::Nested),
                i0 == skip_newlines(old(self).input@, old(self).si@, old(self).i + 2),
                ws_c == old(self).ws@.push(sat_add(old(self).spec_curr_indent(), old(self).indent_size as int) as usize),
                base == if is_root { old(self).cnt as int } else { 0 },
                all_ok == object_rows_ok(
                    old(self).input@,
                    old(self).si@,
                    old(self).strict,
                    old(self).indent_size as int,
                    i0,
                    old(self).pending@,
                    ws_c,
                    headers@,
                    delimiter,
                    rows as nat,
                    base,
                ),
                spans_ok(headers@, self.input@.len() as int),
                self.advanced(old(self)),
                self.content_ready(true),
                self.ws@ == ws_c,
                self.pending == old(self).pending,
            ensures
                all_ok,
                i0 == skip_newlines(old(self).input@, old(self).si@, old(self).i + 2),
                ws_c == old(self).ws@.push(sat_add(old(self).spec_curr_indent(), old(self).indent_size as int) as usize),
                base == if is_root { old(self).cnt as int } else { 0 },
                self.advanced(old(self)),
                self.content_ready(true),
            decreases rows - row,
        {
            proof {
                lemma_object_rows_step(
                    old(self).input@,
                    old(self).si@,
                    old(self).strict,
                    old(self).indent_size as int,
                    self.i as int,
                    old(self).pending@,
                    ws_c,
                    headers@,
                    delimiter,
                    (rows - row) as nat,
                    base + row,
                );
            }
            let ghost sr = *self;
            match self.object_row(headers, delimiter) {
                Ok(()) => {},
                Err(e) => {
                    proof {
                        assert(!object_row_ok(old(self).input@, old(self).si@, sr.i as int, base + row, headers@, delimiter));
                        assert(!all_ok);
                        assert(!object_rows_ok(
                        old(self).input@,
                        old(self).si@,
                        old(self).strict,
                        old(self).indent_size as int,
                        skip_newlines(old(self).input@, old(self).si@, old(self).i + 2),
                        old(self).pending@,
                        old(self).ws@.push(sat_add(old(self).spec_curr_indent(), old(self).indent_size as int) as usize),
                        headers@,
                        delimiter,
                        rows as nat,
                        if is_root {
                            old(self).cnt as int
                        } else {
                            0
                        },
                    ));
                    }
                    return Err(e);
                },
            }
            if row + 1 == rows {
                proof {
                    assert(all_ok);
                    assert(object_rows_ok(
                        old(self).input@,
                        old(self).si@,
                        old(self).strict,
                        old(self).indent_size as int,
                        skip_newlines(old(self).input@, old(self).si@, old(self).i + 2),
                        old(self).pending@,
                        old(self).ws@.push(sat_add(old(self).spec_curr_indent(), old(self).indent_size as int) as usize),
                        headers@,
                        delimiter,
                        rows as nat,
                        if is_root {
                            old(self).cnt as int
                        } else {
                            0
                        },
                    ));
                    assert(headers@.len() > 0 && rows > 0);
                }
                break;
            }
            proof {
                assert(((rows - row) as nat - 1) as nat == (rows - (row + 1)) as nat);
            }
            let ghost se = *self;
            match self.next_row() {
                Ok(()) => {},
                Err(e) => {
                    proof {
                        assert(se.eol_outcome(true) == eol_outcome_of(
                            old(self).input@,
                            old(self).si@,
                            old(self).strict,
                            old(self).indent_size as int,
                            se.i as int,
                            10u8,
                            old(self).pending@,
                            ws_c,
                            true,
                        ));
                        assert(!all_ok);
                        assert(!object_rows_ok(
                        old(self).input@,
                        old(self).si@,
                        old(self).strict,
                        old(self).indent_size as int,
                        skip_newlines(old(self).input@, old(self).si@, old(self).i + 2),
                        old(self).pending@,
                        old(self).ws@.push(sat_add(old(self).spec_curr_indent(), old(self).indent_size as int) as usize),
                        headers@,
                        delimiter,
                        rows as nat,
                        if is_root {
                            old(self).cnt as int
                        } else {
                            0
                        },
                    ));
                    }
                    return Err(e);
                },
            }
            row = row + 1;
        }
        proof {
            assert(object_rows_ok(
                        old(self).input@,
                        old(self).si@,
                        old(self).strict,
                        old(self).indent_size as int,
                        skip_newlines(old(self).input@, old(self).si@, old(self).i + 2),
                        old(self).pending@,
                        old(self).ws@.push(sat_add(old(self).spec_curr_indent(), old(self).indent_size as int) as usize),
                        headers@,
                        delimiter,
                        rows as nat,
                        if is_root {
                            old(self).cnt as int
                        } else {
                            0
                        },
                    ));
        }
        Ok(Next::ScopeEnd)
    }

    /// The next line is a sibling: the cursor is moved onto it.
    fn next_row(&mut self) -> (r: Result<(), Error>)
        requires
            old(self).ok(),
        ensures
            final(self).ok(),
            final(self).cursor_moved(old(self)),
            r is Ok <==> old(self).eol_outcome(true) == Some(Eol::Sibling),
            r is Ok ==> final(self).i == skip_newlines(old(self).input@, old(self).si@, old(self).i + 1),
    {
        match self.get_eol_state(true)? {
            Eol::Sibling => Ok(()),
            _ => Err(self.fail(ErrorType::Syntax)),
        }
    }

    /// One `name: cells` row of keyed tabular objects: the name as the key of
    /// an object that holds the row's cells.
    #[verifier::spinoff_prover]
    #[verifier::rlimit(60)]
    fn object_row(&mut self, headers: &Vec<(usize, usize)>, delimiter: u8) -> (r: Result<(), Error>)
        requires
            old(self).ok(),
            old(self).res@.len() > 0,
            headers@.len() >= 1,
            spans_ok(headers@, old(self).input@.len() as int),
            old(self).content_ready(true),
        ensures
            final(self).advanced(old(self)),
            final(self).pending == old(self).pending,
            r is Ok ==> final(self).ws@ == old(self).ws@,
            r is Ok ==> final(self).content_ready(true) && final(self).cnt == old(self).cnt + 1,
            r is Ok <==> object_row_ok(old(self).input@, old(self).si@, old(self).i as int, old(self).cnt as int, headers@, delimiter),
            r is Ok ==> final(self).c == 10u8 && Some(final(self).i as int) == object_row_end(
                old(self).input@,
                old(self).si@,
                old(self).i as int,
                headers@.len() as int,
                delimiter,
            ),
    {
        proof {
            reveal(object_row_ok);
            reveal(object_row_end);
        }
        let ghost s0 = *self;
        self.row_name()?;
        let ghost s3 = *self;
        let n: usize = headers.len();
        proof {
            assert(s3.cnt + n <= usize::MAX);
            let k = delim_stop(s0.input@, s0.si@, s0.i as int, 58u8, 58u8, 58u8)->0;
            assert(s3.i == k + 1);
        }
        self.tabular_cells(headers, delimiter, true)?;
        let ghost s4 = *self;
        self.close_and_pop()?;
        proof {
            assert(s4.stack@.last() == s3.stack@.last());
            assert(self.ws@ == s3.ws@.drop_last());
        }
        Ok(())
    }

    /// The `name:` that opens a row of keyed tabular objects: the name as a
    /// key, then the object of the row opened and the cursor past the `:`.
    #[verifier::spinoff_prover]
    #[verifier::rlimit(60)]
    fn row_name(&mut self) -> (r: Result<(), Error>)
        requires
            old(self).ok(),
            old(self).res@.len() > 0,
            old(self).content_ready(true),
        ensures
            final(self).advanced(old(self)),
            final(self).pending == old(self).pending,
            r is Ok ==> final(self).parents_ok() && final(self).cur_object() && final(self).cur_complete(),
            r is Ok ==> final(self).i > 0 && final(self).cnt == 0,
            r is Ok ==> final(self).stack@ == old(self).stack@.push(
                Frame { kind: FrameKind::Object, last_start: old(self).last_start, cnt: (old(self).cnt + 1) as usize },
            ),
            r is Ok ==> final(self).ws@ == old(self).ws@.push(old(self).spec_curr_indent() as usize),
            r is Ok <==> match delim_stop(old(self).input@, old(self).si@, old(self).i as int, 58u8, 58u8, 58u8) {
                Some(k) => {
                    let a = cursor_pos(old(self).si@, old(self).i as int);
                    &&& old(self).cnt < usize::MAX
                    &&& string_view(old(self).input@.subrange(a, trim_end(old(self).input@, a, old(self).si@[k - 1] as int))) is Some
                    &&& k < old(self).si@.len()
                },
                None => false,
            },
            r is Ok ==> Some(final(self).i - 1) == delim_stop(old(self).input@, old(self).si@, old(self).i as int, 58u8, 58u8, 58u8),
    {
        let rks = self.idx;
        let ghost s0 = *self;
        let rke = self.value_end(58u8, 58u8, 58u8)?;
        proof {
            lemma_delim_stop_byte(s0.input@, s0.si@, s0.i as int, 58u8, 58u8, 58u8);
            assert(rks == cursor_pos(s0.si@, s0.i as int));
            assert(self.idx == s0.si@[self.i - 1]);
        }
        let ghost s1 = *self;
        self.inc_cnt()?;
        self.insert_str(rks, rke)?;
        proof { Self::lemma_append_key(&s1, self); }
        let indent = self.curr_indent();
        let ghost s2 = *self;
        self.open_scope(true, FrameKind::Object, indent);
        proof { Self::lemma_open(&s2, self, FrameKind::Object); }
        self.update_char()?;
        Ok(())
    }

    /// `key[N]{fields}:` followed by `v1,v2` rows, exactly `N` of them in
    /// strict mode, as many as there are in lenient mode.
    #[verifier::spinoff_prover]
    #[verifier::rlimit(100)]
    fn tabular_array(
        &mut self,
        key: Option<(usize, usize)>,
        headers: &Vec<(usize, usize)>,
        rows: usize,
        is_root: bool,
        delimiter: u8,
        count_rows: bool,
    ) -> (r: Result<Next, Error>)
        requires
            old(self).ok(),
            old(self).res@.len() > 0,
            key_ok(key, old(self).input@.len() as int),
            spans_ok(headers@, old(self).input@.len() as int),
            old(self).header_ctx(key, is_root, false),
        ensures
            final(self).advanced(old(self)),
            r matches Ok(n) ==> final(self).mode_ok(n),
            r is Ok <==> key_decodes(old(self).input@, old(self).cnt as int, key) && old(self).i < old(self).si@.len()
                && old(self).stepped().eol_outcome(false) == Some(Eol::Nested) && headers@.len() > 0 && (count_rows
                ==> rows > 0) && array_rows_ok(
                old(self).input@,
                old(self).si@,
                old(self).strict,
                old(self).indent_size as int,
                skip_newlines(old(self).input@, old(self).si@, old(self).i + 2),
                old(self).pending@,
                old(self).ws@.push(sat_add(old(self).spec_curr_indent(), old(self).indent_size as int) as usize),
                headers@,
                delimiter,
                rows as nat,
                count_rows,
                if is_root {
                    old(self).cnt as int
                } else {
                    0
                },
            ),
    {
        let ghost s0 = *self;
        self.insert_key(key)?;
        proof {
            if !is_root {
                Self::lemma_after_key(&s0, self, key, false);
            } else {
                Self::lemma_parents_stable(&s0, self);
            }
        }
        self.update_char()?;
        proof {
            assert(self.eol_outcome(false) == old(self).stepped().eol_outcome(false));
        }
        self.expect_nested()?;
        let indent = self.curr_indent().saturating_add(self.indent_size);
        self.open_content(false, key, is_root, indent);
        let ghost ws_c = self.ws@;
        let ghost base: int = self.cnt as int;
        let ghost i0: int = self.i as int;
        proof {
            assert(ws_c == old(self).ws@.push(sat_add(old(self).spec_curr_indent(), old(self).indent_size as int) as usize));
            assert(i0 == skip_newlines(old(self).input@, old(self).si@, old(self).i + 2));
            assert(base == if is_root { old(self).cnt as int } else { 0 });
            assert(self.i > old(self).i);
        }
        if headers.len() == 0 || (count_rows && rows == 0) {
            return Err(self.fail(ErrorType::Syntax));
        }
        let ghost all_ok = array_rows_ok(
            old(self).input@,
            old(self).si@,
            old(self).strict,
            old(self).indent_size as int,
            i0,
            old(self).pending@,
            ws_c,
            headers@,
            delimiter,
            rows as nat,
            count_rows,
            base,
        );
        proof {
            assert(key_decodes(old(self).input@, old(self).cnt as int, key) && old(self).i < old(self).si@.len()
                && old(self).stepped().eol_outcome(false) == Some(Eol::Nested));
        }
        let ghost mut k: int = 0;
        let mut row: usize = 0;
        loop
            invariant_except_break
                self.cnt == base + k,
                all_ok == array_rows_ok(
                    old(self).input@,
                    old(self).si@,
                    old(self).strict,
                    old(self).indent_size as int,
                    self.i as int,
                    old(self).pending@,
                    ws_c,
                    headers@,
                    delimiter,
                    (rows - row) as nat,
                    count_rows,
                    base + k,
                ),
            invariant
                count_rows ==> row < rows,
                headers@.len() >= 1,
                key_decodes(old(self).input@, old(self).cnt as int, key) && old(self).i < old(self).si@.len()
                    && old(self).stepped().eol_outcome(false) == Some(Eol::Nested),
                i0 == skip_newlines(old(self).input@, old(self).si@, old(self).i + 2),
                ws_c == old(self).ws@.push(sat_add(old(self).spec_curr_indent(), old(self).indent_size as int) as usize),
                base == if is_root { old(self).cnt as int } else { 0 },
                all_ok == array_rows_ok(
                    old(self).input@,
                    old(self).si@,
                    old(self).strict,
                    old(self).indent_size as int,
                    i0,
                    old(self).pending@,
                    ws_c,
                    headers@,
                    delimiter,
                    rows as nat,
                    count_rows,
                    base,
                ),
                spans_ok(headers@, self.input@.len() as int),
                self.advanced(old(self)),
                self.content_ready(false),
                self.i > 0,
                self.ws@ == ws_c,
                self.pending == old(self).pending,
            ensures
                all_ok,
                self.advanced(old(self)),
                self.content_ready(false),
            decreases (if count_rows { rows - row } else { 0 }), self.si@.len() - self.i,
        {
            proof {
                lemma_array_rows_step(
                    old(self).input@,
                    old(self).si@,
                    old(self).strict,
                    old(self).indent_size as int,
                    self.i as int,
                    old(self).pending@,
                    ws_c,
                    headers@,
                    delimiter,
                    (rows - row) as nat,
                    count_rows,
                    base + k,
                );
            }
            let ghost sr = *self;
            match self.array_row(headers, delimiter) {
                Ok(()) => {},
                Err(e) => {
                    proof {
                        assert(!all_ok);
                        assert(!array_rows_ok(
                old(self).input@,
                old(self).si@,
                old(self).strict,
                old(self).indent_size as int,
                skip_newlines(old(self).input@, old(self).si@, old(self).i + 2),
                old(self).pending@,
                old(self).ws@.push(sat_add(old(self).spec_curr_indent(), old(self).indent_size as int) as usize),
                headers@,
                delimiter,
                rows as nat,
                count_rows,
                if is_root {
                    old(self).cnt as int
                } else {
                    0
                },
            ));
                    }
                    return Err(e);
                },
            }
            if count_rows && row + 1 == rows {
                proof {
                    assert(all_ok);
                }
                break;
            }
            let ghost se = *self;
            proof {
                assert(se.eol_outcome(true) == eol_outcome_of(
                    old(self).input@,
                    old(self).si@,
                    old(self).strict,
                    old(self).indent_size as int,
                    se.i as int,
                    10u8,
                    old(self).pending@,
                    ws_c,
                    true,
                ));
            }
            match self.get_eol_state(true) {
                Ok(Eol::Sibling) => {},
                Ok(Eol::CloseScope) => {
                    if count_rows {
                        proof {
                            assert(!all_ok);
                            assert(!array_rows_ok(
                old(self).input@,
                old(self).si@,
                old(self).strict,
                old(self).indent_size as int,
                skip_newlines(old(self).input@, old(self).si@, old(self).i + 2),
                old(self).pending@,
                old(self).ws@.push(sat_add(old(self).spec_curr_indent(), old(self).indent_size as int) as usize),
                headers@,
                delimiter,
                rows as nat,
                count_rows,
                if is_root {
                    old(self).cnt as int
                } else {
                    0
                },
            ));
                        }
                        return Err(self.fail(ErrorType::Syntax));
                    }
                    proof {
                        assert(all_ok);
                    }
                    break;
                },
                Ok(Eol::Nested) => {
                    proof {
                        assert(!all_ok);
                        assert(!array_rows_ok(
                old(self).input@,
                old(self).si@,
                old(self).strict,
                old(self).indent_size as int,
                skip_newlines(old(self).input@, old(self).si@, old(self).i + 2),
                old(self).pending@,
                old(self).ws@.push(sat_add(old(self).spec_curr_indent(), old(self).indent_size as int) as usize),
                headers@,
                delimiter,
                rows as nat,
                count_rows,
                if is_root {
                    old(self).cnt as int
                } else {
                    0
                },
            ));
                    }
                    return Err(self.fail(ErrorType::Syntax));
                },
                Err(e) => {
                    proof {
                        assert(!all_ok);
                        assert(!array_rows_ok(
                old(self).input@,
                old(self).si@,
                old(self).strict,
                old(self).indent_size as int,
                skip_newlines(old(self).input@, old(self).si@, old(self).i + 2),
                old(self).pending@,
                old(self).ws@.push(sat_add(old(self).spec_curr_indent(), old(self).indent_size as int) as usize),
                headers@,
                delimiter,
                rows as nat,
                count_rows,
                if is_root {
                    old(self).cnt as int
                } else {
                    0
                },
            ));
                    }
                    return Err(e);
                },
            }
            proof {
                assert(self.i > sr.i);
                k = k + 1;
                if count_rows {
                    assert(((rows - row) as nat - 1) as nat == (rows - (row + 1)) as nat);
                }
            }
            if count_rows {
                row = row + 1;
            }
        }
        proof {
            assert(array_rows_ok(
                old(self).input@,
                old(self).si@,
                old(self).strict,
                old(self).indent_size as int,
                skip_newlines(old(self).input@, old(self).si@, old(self).i + 2),
                old(self).pending@,
                old(self).ws@.push(sat_add(old(self).spec_curr_indent(), old(self).indent_size as int) as usize),
                headers@,
                delimiter,
                rows as nat,
                count_rows,
                if is_root {
                    old(self).cnt as int
                } else {
                    0
                },
            ));
        }
        Ok(Next::ScopeEnd)
    }

    /// One row of a tabular array: an object that holds the row's cells,
    /// counted as an item of the array.
    #[verifier::spinoff_prover]
    #[verifier::rlimit(60)]
    fn array_row(&mut self, headers: &Vec<(usize, usize)>, delimiter: u8) -> (r: Result<(), Error>)
        requires
            old(self).ok(),
            old(self).res@.len() > 0,
            old(self).i > 0,
            headers@.len() >= 1,
            spans_ok(headers@, old(self).input@.len() as int),
            old(self).content_ready(false),
        ensures
            final(self).advanced(old(self)),
            final(self).pending == old(self).pending,
            final(self).i > 0,
            r is Ok ==> final(self).ws@ == old(self).ws@,
            r is Ok ==> final(self).content_ready(false) && final(self).cnt == old(self).cnt + 1,
            r is Ok <==> old(self).cnt < usize::MAX && names_decode(old(self).input@, headers@) && row_cells_ok(
                old(self).input@,
                old(self).si@,
                old(self).i as int,
                headers@.len() as int,
                delimiter,
                false,
            ),
            r is Ok ==> final(self).c == 10u8 && Some(final(self).i as int) == row_cells_end(
                old(self).input@,
                old(self).si@,
                old(self).i as int,
                headers@.len() as int,
                delimiter,
            ),
    {
        let ghost s1 = *self;
        self.inc_cnt()?;
        proof { Self::lemma_count_item(&s1, self); }
        let indent = self.curr_indent();
        let ghost s2 = *self;
        self.open_scope(true, FrameKind::Array, indent);
        proof { Self::lemma_open(&s2, self, FrameKind::Array); }
        let ghost s3 = *self;
        let n: usize = headers.len();
        proof {
            assert(s3.cnt + n <= usize::MAX);
        }
        self.tabular_cells(headers, delimiter, false)?;
        let ghost s4 = *self;
        self.close_and_pop()?;
        proof {
            assert(s4.stack@.last() == Frame { kind: FrameKind::Array, last_start: s2.last_start, cnt: s2.cnt });
            assert(self.ws@ == s3.ws@.drop_last());
        }
        Ok(())
    }

    /// One row of a tabular array whose header has nested field groups; a
    /// group that closes more than it opened, or stays open at the end of
    /// the row, is refused.
    #[verifier::spinoff_prover]
    #[verifier::rlimit(100)]
    fn nested_row(&mut self, ops: &Vec<FieldOp>, leaf_count: usize, delimiter: u8) -> (r: Result<(), Error>)
        requires
            old(self).ok(),
            old(self).res@.len() > 0,
            old(self).i > 0,
            ops_ok(ops@, old(self).input@.len() as int),
            old(self).content_ready(true),
        ensures
            final(self).advanced(old(self)),
            final(self).i > 0,
            final(self).pending == old(self).pending,
            r is Ok ==> final(self).ws@ == old(self).ws@,
            r is Ok ==> final(self).content_ready(true) && final(self).stack@ == old(self).stack@,
            r is Ok ==> final(self).tv().len() == old(self).tv().len() + 2 * keyed_ops(ops@),
            r is Ok <==> nested_ops_ok(
                old(self).input@,
                old(self).si@,
                ops@,
                0,
                old(self).i as int,
                seq![old(self).cnt as int],
                0,
                leaf_count as int,
                delimiter,
            ),
            r is Ok ==> nested_ops_end(
                old(self).input@,
                old(self).si@,
                ops@,
                0,
                old(self).i as int,
                old(self).c,
                0,
                leaf_count as int,
                delimiter,
            ) == Some((final(self).i as int, final(self).c)),
    {
        let ghost end0 = nested_ops_end(
            old(self).input@,
            old(self).si@,
            ops@,
            0,
            old(self).i as int,
            old(self).c,
            0,
            leaf_count as int,
            delimiter,
        );
        let ghost all_ok = nested_ops_ok(
            old(self).input@,
            old(self).si@,
            ops@,
            0,
            old(self).i as int,
            seq![old(self).cnt as int],
            0,
            leaf_count as int,
            delimiter,
        );
        let ghost mut cnts: Seq<int> = seq![old(self).cnt as int];
        let mut curr_leaf_count: usize = 0;
        let base = self.stack.len();
        let mut k: usize = 0;
        while k < ops.len()
            invariant
                k <= ops@.len(),
                ops_ok(ops@, self.input@.len() as int),
                self.advanced(old(self)),
                self.content_ready(true),
                base == old(self).stack@.len(),
                self.tv().len() == old(self).tv().len() + 2 * keyed_ops(ops@.take(k as int)),
                self.stack@.len() >= base,
                self.stack@.subrange(0, old(self).stack@.len() as int) == old(self).stack@,
                forall|m: int|
                    old(self).stack@.len() <= m < self.stack@.len() ==> (#[trigger] self.stack@[m]).kind
                        == FrameKind::Object,
                self.i > 0,
                self.input == old(self).input,
                self.si == old(self).si,
                self.pending == old(self).pending,
                self.ws@.len() == old(self).ws@.len() + (self.stack@.len() - base),
                self.ws@.subrange(0, old(self).ws@.len() as int) == old(self).ws@,
                cnts.len() == self.stack@.len() - base + 1,
                cnts.last() == self.cnt,
                forall|m: int| 0 <= m < cnts.len() - 1 ==> #[trigger] cnts[m] == self.stack@[base + m].cnt,
                all_ok == nested_ops_ok(
                    old(self).input@,
                    old(self).si@,
                    ops@,
                    k as int,
                    self.i as int,
                    cnts,
                    curr_leaf_count as int,
                    leaf_count as int,
                    delimiter,
                ),
                all_ok == nested_ops_ok(
                    old(self).input@,
                    old(self).si@,
                    ops@,
                    0,
                    old(self).i as int,
                    seq![old(self).cnt as int],
                    0,
                    leaf_count as int,
                    delimiter,
                ),
                end0 == nested_ops_end(
                    old(self).input@,
                    old(self).si@,
                    ops@,
                    k as int,
                    self.i as int,
                    self.c,
                    curr_leaf_count as int,
                    leaf_count as int,
                    delimiter,
                ),
                end0 == nested_ops_end(
                    old(self).input@,
                    old(self).si@,
                    ops@,
                    0,
                    old(self).i as int,
                    old(self).c,
                    0,
                    leaf_count as int,
                    delimiter,
                ),
            decreases ops@.len() - k,
        {
            proof {
                lemma_nested_ops_step(
                    old(self).input@,
                    old(self).si@,
                    ops@,
                    k as int,
                    self.i as int,
                    cnts,
                    curr_leaf_count as int,
                    leaf_count as int,
                    delimiter,
                );
            }
            let op = ops[k];
            proof { assert(ops_ok(ops@, self.input@.len() as int)); let _ = ops@[k as int]; }
            match op {
                FieldOp::Leaf(hs, he) => {
                    let ghost s1 = *self;
                    self.insert_str(hs, he)?;
                    self.inc_cnt()?;
                    proof { Self::lemma_append_key(&s1, self); }
                    let ghost s2 = *self;
                    curr_leaf_count = curr_leaf_count.saturating_add(1);
                    let vs = self.idx;
                    if curr_leaf_count == leaf_count {
                        let ve = self.value_end(10u8, 10u8, 10u8)?;
                        proof {
                            lemma_delim_stop_byte(s2.input@, s2.si@, s2.i as int, 10u8, 10u8, 10u8);
                            assert(vs == cursor_pos(self.si@, s2.i as int));
                            assert(self.idx == self.si@[self.i - 1]);
                            assert(self.input@.subrange(vs as int, ve as int) == token_to(s2.input@, s2.si@, s2.i as int, self.i as int));
                        }
                        self.insert_inferred(vs, ve)?;
                        proof { Self::lemma_append_value(&s2, self); }
                    } else {
                        let ve = self.value_end(delimiter, delimiter, delimiter)?;
                        proof {
                            lemma_delim_stop_byte(s2.input@, s2.si@, s2.i as int, delimiter, delimiter, delimiter);
                            assert(vs == cursor_pos(self.si@, s2.i as int));
                            assert(self.idx == self.si@[self.i - 1]);
                            assert(self.input@.subrange(vs as int, ve as int) == token_to(s2.input@, s2.si@, s2.i as int, self.i as int));
                        }
                        self.insert_inferred(vs, ve)?;
                        proof { Self::lemma_append_value(&s2, self); }
                        self.update_char()?;
                    }
                    proof {
                        cnts = cnts.update(cnts.len() - 1, cnts.last() + 1);
                    }
                },
                FieldOp::Open(hs, he) => {
                    let ghost s1 = *self;
                    self.insert_str(hs, he)?;
                    self.inc_cnt()?;
                    proof {
                        Self::lemma_append_key(&s1, self);
                        cnts = cnts.update(cnts.len() - 1, cnts.last() + 1);
                    }
                    let indent = self.curr_indent();
                    let ghost s2 = *self;
                    self.open_scope(true, FrameKind::Object, indent);
                    proof {
                        Self::lemma_open(&s2, self, FrameKind::Object);
                        assert(self.stack@.subrange(0, old(self).stack@.len() as int) =~= s2.stack@.subrange(0, old(self).stack@.len() as int));
                        assert forall|m: int|
                            old(self).stack@.len() <= m < self.stack@.len() implies (#[trigger] self.stack@[m]).kind
                                == FrameKind::Object by {
                            if m < s2.stack@.len() {
                                assert(self.stack@[m] == s2.stack@[m]);
                            }
                        }
                        assert(self.ws@.subrange(0, old(self).ws@.len() as int) =~= s2.ws@.subrange(0, old(self).ws@.len() as int));
                        let c0 = cnts;
                        cnts = cnts.push(0);
                        assert forall|m: int| 0 <= m < cnts.len() - 1 implies #[trigger] cnts[m] == self.stack@[base + m].cnt by {
                            if m < c0.len() - 1 {
                                assert(cnts[m] == c0[m]);
                                assert(self.stack@[base + m] == s2.stack@[base + m]);
                            }
                        }
                    }
                },
                FieldOp::Close => {
                    if self.stack.len() == base {
                        return Err(self.fail(ErrorType::NoStructure));
                    }
                    let ghost s1 = *self;
                    self.close_and_pop()?;
                    proof {
                        assert(s1.stack@.last().kind == FrameKind::Object);
                        assert(self.stack@.subrange(0, old(self).stack@.len() as int) =~= s1.stack@.subrange(0, old(self).stack@.len() as int));
                        assert forall|m: int|
                            old(self).stack@.len() <= m < self.stack@.len() implies (#[trigger] self.stack@[m]).kind
                                == FrameKind::Object by {
                            assert(self.stack@[m] == s1.stack@[m]);
                        }
                        assert(self.ws@.subrange(0, old(self).ws@.len() as int) =~= s1.ws@.subrange(0, old(self).ws@.len() as int));
                        let c0 = cnts;
                        assert(c0[c0.len() - 2] == s1.stack@[base + c0.len() - 2].cnt);
                        cnts = cnts.drop_last();
                        assert forall|m: int| 0 <= m < cnts.len() - 1 implies #[trigger] cnts[m] == self.stack@[base + m].cnt by {
                            assert(cnts[m] == c0[m]);
                            assert(self.stack@[base + m] == s1.stack@[base + m]);
                        }
                    }
                },
            }
            proof {
                assert(ops@.take(k + 1).drop_last() =~= ops@.take(k as int));
            }
            k = k + 1;
        }
        proof {
            assert(ops@.take(k as int) =~= ops@);
            lemma_nested_ops_step(
                old(self).input@,
                old(self).si@,
                ops@,
                k as int,
                self.i as int,
                cnts,
                curr_leaf_count as int,
                leaf_count as int,
                delimiter,
            );
        }
        if self.stack.len() != base {
            return Err(self.fail(ErrorType::NoStructure));
        }
        proof {
            assert(self.stack@ =~= self.stack@.subrange(0, old(self).stack@.len() as int));
            assert(self.ws@ =~= self.ws@.subrange(0, old(self).ws@.len() as int));
        }
        Ok(())
    }

    /// `key[N]{a,b{c,d},e}:` followed by flat rows.
    #[verifier::spinoff_prover]
    #[verifier::rlimit(100)]
    fn nested_groups(
        &mut self,
        key: Option<(usize, usize)>,
        ops: &Vec<FieldOp>,
        rows: usize,
        is_root: bool,
        delimiter: u8,
    ) -> (r: Result<Next, Error>)
        requires
            old(self).ok(),
            old(self).res@.len() > 0,
            key_ok(key, old(self).input@.len() as int),
            ops_ok(ops@, old(self).input@.len() as int),
            old(self).header_ctx(key, is_root, false),
        ensures
            final(self).advanced(old(self)),
            r matches Ok(n) ==> final(self).mode_ok(n),
            r is Ok <==> key_decodes(old(self).input@, old(self).cnt as int, key) && old(self).i < old(self).si@.len()
                && old(self).stepped().eol_outcome(false) == Some(Eol::Nested) && rows > 0 && group_rows_ok(
                old(self).input@,
                old(self).si@,
                old(self).strict,
                old(self).indent_size as int,
                skip_newlines(old(self).input@, old(self).si@, old(self).i + 2),
                old(self).pending@,
                old(self).ws@.push(sat_add(old(self).spec_curr_indent(), old(self).indent_size as int) as usize),
                ops@,
                leaf_total(ops@),
                delimiter,
                rows as nat,
                if is_root {
                    old(self).cnt as int
                } else {
                    0
                },
            ),
    {
        let mut leaf_count: usize = 0;
        let mut k: usize = 0;
        while k < ops.len()
            invariant
                k <= ops@.len(),
                leaf_count <= k,
                leaf_count == leaf_total(ops@.take(k as int)),
            decreases ops@.len() - k,
        {
            proof {
                assert(ops@.take(k + 1).drop_last() =~= ops@.take(k as int));
            }
            match ops[k] {
                FieldOp::Leaf(_, _) => {
                    leaf_count = leaf_count + 1;
                },
                _ => {},
            }
            k = k + 1;
        }
        proof {
            assert(ops@.take(k as int) =~= ops@);
        }
        let ghost s0 = *self;
        self.insert_key(key)?;
        proof {
            if !is_root {
                Self::lemma_after_key(&s0, self, key, false);
            } else {
                Self::lemma_parents_stable(&s0, self);
            }
        }
        self.update_char()?;
        proof {
            assert(self.eol_outcome(false) == old(self).stepped().eol_outcome(false));
        }
        self.expect_nested()?;
        let indent = self.curr_indent().saturating_add(self.indent_size);
        self.open_content(false, key, is_root, indent);
        let ghost ws_c = self.ws@;
        let ghost base: int = self.cnt as int;
        let ghost i0: int = self.i as int;
        proof {
            assert(ws_c == old(self).ws@.push(sat_add(old(self).spec_curr_indent(), old(self).indent_size as int) as usize));
            assert(i0 == skip_newlines(old(self).input@, old(self).si@, old(self).i + 2));
            assert(base == if is_root { old(self).cnt as int } else { 0 });
        }
        if rows == 0 {
            return Err(self.fail(ErrorType::Syntax));
        }
        let ghost all_ok = group_rows_ok(
            old(self).input@,
            old(self).si@,
            old(self).strict,
            old(self).indent_size as int,
            i0,
            old(self).pending@,
            ws_c,
            ops@,
            leaf_count as int,
            delimiter,
            rows as nat,
            base,
        );
        proof {
            assert(key_decodes(old(self).input@, old(self).cnt as int, key) && old(self).i < old(self).si@.len()
                && old(self).stepped().eol_outcome(false) == Some(Eol::Nested));
        }
        let mut row: usize = 0;
        loop
            invariant_except_break
                self.cnt == base + row,
                all_ok == group_rows_ok(
                    old(self).input@,
                    old(self).si@,
                    old(self).strict,
                    old(self).indent_size as int,
                    self.i as int,
                    old(self).pending@,
                    ws_c,
                    ops@,
                    leaf_count as int,
                    delimiter,
                    (rows - row) as nat,
                    base + row,
                ),
            invariant
                row < rows,
                leaf_count == leaf_total(ops@),
                key_decodes(old(self).input@, old(self).cnt as int, key) && old(self).i < old(self).si@.len()
                    && old(self).stepped().eol_outcome(false) == Some(Eol::Nested),
                i0 == skip_newlines(old(self).input@, old(self).si@, old(self).i + 2),
                ws_c == old(self).ws@.push(sat_add(old(self).spec_curr_indent(), old(self).indent_size as int) as usize),
                base == if is_root { old(self).cnt as int } else { 0 },
                all_ok == group_rows_ok(
                    old(self).input@,
                    old(self).si@,
                    old(self).strict,
                    old(self).indent_size as int,
                    i0,
                    old(self).pending@,
                    ws_c,
                    ops@,
                    leaf_count as int,
                    delimiter,
                    rows as nat,
                    base,
                ),
                ops_ok(ops@, self.input@.len() as int),
                self.advanced(old(self)),
                self.content_ready(false),
                self.i > 0,
                self.ws@ == ws_c,
                self.pending == old(self).pending,
            ensures
                all_ok,
                self.advanced(old(self)),
                self.content_ready(false),
            decreases rows - row,
        {
            proof {
                lemma_group_rows_step(
                    old(self).input@,
                    old(self).si@,
                    old(self).strict,
                    old(self).indent_size as int,
                    self.i as int,
                    old(self).pending@,
                    ws_c,
                    ops@,
                    leaf_count as int,
                    delimiter,
                    (rows - row) as nat,
                    base + row,
                );
                assert(self.c == byte_at(self.input@, self.si@, self.i as int));
            }
            match self.group_row(ops, leaf_count, delimiter) {
                Ok(()) => {},
                Err(e) => {
                    proof {
                        assert(!all_ok);
                        assert(!group_rows_ok(
                old(self).input@,
                old(self).si@,
                old(self).strict,
                old(self).indent_size as int,
                skip_newlines(old(self).input@, old(self).si@, old(self).i + 2),
                old(self).pending@,
                old(self).ws@.push(sat_add(old(self).spec_curr_indent(), old(self).indent_size as int) as usize),
                ops@,
                leaf_total(ops@),
                delimiter,
                rows as nat,
                if is_root {
                    old(self).cnt as int
                } else {
                    0
                },
            ));
                    }
                    return Err(e);
                },
            }
            if row + 1 == rows {
                proof {
                    assert(all_ok);
                }
                break;
            }
            let ghost se = *self;
            proof {
                assert(((rows - row) as nat - 1) as nat == (rows - (row + 1)) as nat);
                assert(se.eol_outcome(true) == eol_outcome_of(
                    old(self).input@,
                    old(self).si@,
                    old(self).strict,
                    old(self).indent_size as int,
                    se.i as int,
                    se.c,
                    old(self).pending@,
                    ws_c,
                    true,
                ));
            }
            match self.next_row() {
                Ok(()) => {},
                Err(e) => {
                    proof {
                        assert(!all_ok);
                        assert(!group_rows_ok(
                old(self).input@,
                old(self).si@,
                old(self).strict,
                old(self).indent_size as int,
                skip_newlines(old(self).input@, old(self).si@, old(self).i + 2),
                old(self).pending@,
                old(self).ws@.push(sat_add(old(self).spec_curr_indent(), old(self).indent_size as int) as usize),
                ops@,
                leaf_total(ops@),
                delimiter,
                rows as nat,
                if is_root {
                    old(self).cnt as int
                } else {
                    0
                },
            ));
                    }
                    return Err(e);
                },
            }
            row = row + 1;
        }
        proof {
            assert(group_rows_ok(
                old(self).input@,
                old(self).si@,
                old(self).strict,
                old(self).indent_size as int,
                skip_newlines(old(self).input@, old(self).si@, old(self).i + 2),
                old(self).pending@,
                old(self).ws@.push(sat_add(old(self).spec_curr_indent(), old(self).indent_size as int) as usize),
                ops@,
                leaf_total(ops@),
                delimiter,
                rows as nat,
                if is_root {
                    old(self).cnt as int
                } else {
                    0
                },
            ));
        }
        Ok(Next::ScopeEnd)
    }

    /// One row with nested field groups: an object counted as an item of the array.
    #[verifier::spinoff_prover]
    #[verifier::rlimit(60)]
    fn group_row(&mut self, ops: &Vec<FieldOp>, leaf_count: usize, delimiter: u8) -> (r: Result<(), Error>)
        requires
            old(self).ok(),
            old(self).res@.len() > 0,
            old(self).i > 0,
            ops_ok(ops@, old(self).input@.len() as int),
            old(self).content_ready(false),
        ensures
            final(self).advanced(old(self)),
            final(self).pending == old(self).pending,
            final(self).i > 0,
            r is Ok ==> final(self).ws@ == old(self).ws@,
            r is Ok ==> final(self).content_ready(false) && final(self).cnt == old(self).cnt + 1,
            r is Ok <==> old(self).cnt < usize::MAX && nested_ops_ok(
                old(self).input@,
                old(self).si@,
                ops@,
                0,
                old(self).i as int,
                seq![0int],
                0,
                leaf_count as int,
                delimiter,
            ),
            r is Ok ==> nested_ops_end(
                old(self).input@,
                old(self).si@,
                ops@,
                0,
                old(self).i as int,
                old(self).c,
                0,
                leaf_count as int,
                delimiter,
            ) == Some((final(self).i as int, final(self).c)),
    {
        let ghost s1 = *self;
        self.inc_cnt()?;
        proof { Self::lemma_count_item(&s1, self); }
        let indent = self.curr_indent();
        let ghost s2 = *self;
        self.open_scope(true, FrameKind::Array, indent);
        proof {
            Self::lemma_open(&s2, self, FrameKind::Array);
            assert(seq![self.cnt as int] =~= seq![0int]);
        }
        let ghost s3 = *self;
        self.nested_row(ops, leaf_count, delimiter)?;
        let ghost s4 = *self;
        self.close_and_pop()?;
        proof {
            assert(s4.stack@ == s3.stack@);
            assert(s4.stack@.last() == Frame { kind: FrameKind::Array, last_start: s2.last_start, cnt: s2.cnt });
            assert(self.ws@ == s3.ws@.drop_last());
        }
        Ok(())
    }

    /// The machine with its cursor moved on by one structural byte.
    pub open spec fn stepped(&self) -> Machine<'a> {
        Machine {
            i: (self.i + 1) as usize,
            idx: self.si@[self.i as int] as usize,
            c: self.input@[self.si@[self.i as int] as int],
            ..*self
        }
    }

    /// Continues with the content of a header that opens a container or holds a value.
    #[verifier::spinoff_prover]
    #[verifier::rlimit(100)]
    fn after_header(&mut self, h: Header, at_root: bool) -> (r: Result<Next, Error>)
        requires
            old(self).ok(),
            old(self).res@.len() > 0,
            header_ok(h, old(self).input@.len() as int),
            old(self).header_ctx(header_key(h), at_root && header_key(h) is None, h is KeyedTabularObjects),
        ensures
            final(self).advanced(old(self)),
            r matches Ok(n) ==> final(self).mode_ok(n),
            (h is PrimitiveValue || h is ObjectStart || h is EmptyObject) ==> r is Err,
            (match h {
                Header::SimpleArray { count, key, delimiter } => key is Some && old(self).i
                < old(self).si@.len() && old(self).stepped().c != 10u8 && r is Ok ==> {
                let n = if count >= 1 {
                    count as int
                } else {
                    1
                };
                let p = old(self).i + 1;
                let m = inline_end(old(self).input@, old(self).si@, p, n, delimiter);
                &&& r == Ok::<Next, Error>(Next::ScopeEnd)
                &&& final(self).tv() == old(self).tv() + key_nodes(old(self).input@, key) + seq![
                    NodeView::Array { len: 0, count: 0 },
                ] + cell_values(old(self).input@, old(self).si@, p, n, n, delimiter)
                &&& final(self).stack@ == old(self).stack@.push(
                    Frame { kind: FrameKind::Object, last_start: old(self).last_start, cnt: (old(self).cnt + 1) as usize },
                )
                &&& final(self).last_start == old(self).tv().len() + 1
                &&& final(self).cnt == n
                &&& final(self).ws@ == old(self).ws@.push(old(self).spec_curr_indent() as usize)
                &&& final(self).pending == old(self).pending
                &&& final(self).i == (if m < old(self).si@.len() {
                    skip_newlines(old(self).input@, old(self).si@, m + 1)
                } else {
                    m
                })
                &&& final(self).last_dedent_ws == eol_ws(old(self).input@, old(self).si@, m, old(self).last_dedent_ws as int)
            },
                _ => true,
            }),
            h matches Header::SimpleArray { count, key, delimiter } ==> (r is Ok <==> old(self).i < old(self).si@.len()
                && if old(self).stepped().c == 10u8 {
                key_decodes(old(self).input@, old(self).cnt as int, key) && old(self).stepped().eol_outcome(false)
                    == Some(Eol::Nested)
            } else {
                old(self).stepped().inline_array_ok(count as int, key, delimiter, at_root && key is None)
            }),
            h matches Header::EmptyArray { key } ==> (r is Ok <==> old(self).i < old(self).si@.len() && key_decodes(
                old(self).input@,
                old(self).cnt as int,
                key,
            ) && (eol_outcome_of(
                old(self).input@,
                old(self).si@,
                old(self).strict,
                old(self).indent_size as int,
                old(self).i + 1,
                byte_at(old(self).input@, old(self).si@, old(self).i + 1),
                old(self).pending@,
                old(self).ws@.push(sat_add(old(self).spec_curr_indent(), old(self).indent_size as int) as usize),
                false,
            ) matches Some(e) && e != Eol::Nested)),
            (match h {
                Header::EmptyArray { key } => key is Some && r is Ok ==> {
                    let m = old(self).i + 1;
                    &&& r == Ok::<Next, Error>(Next::ScopeEnd)
                    &&& final(self).tv() == old(self).tv() + key_nodes(old(self).input@, key) + seq![
                        NodeView::Array { len: 0, count: 0 },
                    ]
                    &&& final(self).stack@ == old(self).stack@.push(
                        Frame { kind: FrameKind::Object, last_start: old(self).last_start, cnt: (old(self).cnt + 1) as usize },
                    )
                    &&& final(self).last_start == old(self).tv().len() + 1
                    &&& final(self).cnt == 0
                    &&& final(self).ws@.len() > 0
                    &&& final(self).ws@.drop_last() == old(self).ws@
                    &&& final(self).pending == old(self).pending
                    &&& final(self).i == (if m < old(self).si@.len() {
                        skip_newlines(old(self).input@, old(self).si@, m + 1)
                    } else {
                        m
                    })
                    &&& final(self).last_dedent_ws == eol_ws(old(self).input@, old(self).si@, m, old(self).last_dedent_ws as int)
                },
                _ => true,
            }),
    {
        match h {
            Header::SimpleArray { count, key, delimiter } => {
                let ghost s0 = *self;
                self.update_char()?;
                proof {
                    assert(*self == s0.stepped());
                }
                if self.c == 10u8 {
                    self.block_array(count, key, at_root && key.is_none())
                } else {
                    proof {
                        assert(self.tv() == s0.tv());
                        assert(self.spec_curr_indent() == s0.spec_curr_indent());
                    }
                    self.inline_array(count, key, delimiter, at_root && key.is_none())
                }
            },
            Header::EmptyArray { key } => self.empty_array(key, at_root && key.is_none()),
            Header::KeyedTabularObjects { key, headers, rows, delimiter } => self.tabular_objects(
                key,
                &headers,
                rows,
                at_root && key.is_none(),
                delimiter,
            ),
            Header::TabularArray { key, headers, rows, delimiter } => {
                // only a header at the root of a lenient document goes by the rows it finds
                let count_rows = self.strict || !at_root;
                self.tabular_array(key, &headers, rows, at_root && key.is_none(), delimiter, count_rows)
            },
            Header::NestedFieldGroupsArray { key, ops, rows, delimiter } => self.nested_groups(
                key,
                &ops,
                rows,
                at_root && key.is_none(),
                delimiter,
            ),
            _ => Err(self.fail(ErrorType::NoStructure)),
        }
    }

    /// Closing the array of an inline `key[N]: ...` line inside an object
    /// leaves the object with its key and the array's values added, and goes
    /// on by how the next line relates to the object.
    #[verifier::spinoff_prover]
    #[verifier::rlimit(100)]
    proof fn lemma_inline_scope(
        s0: &Machine<'a>,
        s1: &Machine<'a>,
        s2: &Machine<'a>,
        r: Result<Next, Error>,
        m: int,
        cells: Seq<NodeView>,
        key: Option<(usize, usize)>,
    )
        requires
            s0.ok(),
            s1.ok(),
            s1.same_config(s0),
            key is Some,
            s0.cnt < usize::MAX,
            s0.pending@.len() == 0,
            s0.ws@.len() > 0,
            s1.tv() == s0.tv() + key_nodes(s0.input@, key) + seq![NodeView::Array { len: 0, count: 0 }] + cells,
            s1.stack@ == s0.stack@.push(
                Frame { kind: FrameKind::Object, last_start: s0.last_start, cnt: (s0.cnt + 1) as usize },
            ),
            s1.last_start == s0.tv().len() + 1,
            s1.cnt == cells.len(),
            s1.ws@.len() > 0,
            s1.ws@.drop_last() == s0.ws@,
            s1.pending == s0.pending,
            s1.i == (if m < s0.si@.len() {
                skip_newlines(s0.input@, s0.si@, m + 1)
            } else {
                m
            }),
            s1.last_dedent_ws == eol_ws(s0.input@, s0.si@, m, s0.last_dedent_ws as int),
            s1.object_close(*s2, r),
        ensures
            ({
                let (dd, k, lw2) = inline_close(
                    s0.input@,
                    s0.si@,
                    s0.strict,
                    s0.indent_size as int,
                    m,
                    s0.ws@,
                    s0.last_dedent_ws as int,
                );
                &&& (r is Ok <==> (dd matches Some(e) && e != Eol::Nested))
                &&& (r is Ok ==> r == Ok::<Next, Error>(
                    if dd == Some(Eol::Sibling) {
                        Next::Header
                    } else {
                        Next::ScopeEnd
                    },
                ))
                &&& (r is Ok ==> s2.i == k && s2.last_dedent_ws == lw2 && s2.tv() == s0.tv() + key_nodes(s0.input@, key)
                    + seq![NodeView::Array { len: cells.len(), count: cells.len() }] + cells && s2.cnt == s0.cnt + 1
                    && s2.stack@ == s0.stack@ && s2.last_start == s0.last_start && s2.ws@ == s0.ws@ && s2.pending
                    == s0.pending)
            }),
    {
        let n = cells.len();
        assert(s1.c == byte_at(s1.input@, s1.si@, s1.i as int));
        let t1 = s1.tv();
        let ls = s1.last_start as int;
        assert(key_nodes(s0.input@, key).len() == 1);
        assert(t1[ls] == NodeView::Array { len: 0, count: 0 });
        assert(Self::closed_node(t1, ls, s1.cnt as int) == NodeView::Array { len: n, count: n });
        if r is Ok {
            assert(s2.tv() =~= s0.tv() + key_nodes(s0.input@, key) + seq![NodeView::Array { len: n, count: n }] + cells);
            assert(s2.stack@ =~= s0.stack@);
        }
    }

    /// The content of a keyed header inside an object; content that ends
    /// with its own line is closed at once.
    #[verifier::spinoff_prover]
    #[verifier::rlimit(100)]
    fn keyed_content(&mut self, h: Header, at_root: bool) -> (r: Result<Next, Error>)
        requires
            old(self).ok(),
            old(self).res@.len() > 0,
            header_ok(h, old(self).input@.len() as int),
            header_key(h) is Some,
            old(self).header_ctx(header_key(h), false, h is KeyedTabularObjects),
        ensures
            final(self).advanced(old(self)),
            r matches Ok(n) ==> final(self).mode_ok(n),
            h is SimpleArray && old(self).i >= old(self).si@.len() ==> r is Err,
            (match h {
                Header::SimpleArray { count, key, delimiter } => old(self).i < old(self).si@.len()
                    && old(self).stepped().c != 10u8 && old(self).pending@.len() == 0 && old(self).ws@.len() > 0 ==> {
                    let n = if count >= 1 {
                        count as int
                    } else {
                        1
                    };
                    let p = old(self).i + 1;
                    let (dd, k, lw2) = inline_close(
                        old(self).input@,
                        old(self).si@,
                        old(self).strict,
                        old(self).indent_size as int,
                        inline_end(old(self).input@, old(self).si@, p, n, delimiter),
                        old(self).ws@,
                        old(self).last_dedent_ws as int,
                    );
                    &&& (r is Ok <==> old(self).stepped().inline_array_ok(count as int, key, delimiter, false) && (dd matches Some(
                        e,
                    ) && e != Eol::Nested))
                    &&& (r is Ok ==> r == Ok::<Next, Error>(
                        if dd == Some(Eol::Sibling) {
                            Next::Header
                        } else {
                            Next::ScopeEnd
                        },
                    ))
                    &&& (r is Ok ==> final(self).i == k && final(self).last_dedent_ws == lw2 && final(self).tv()
                        == old(self).tv() + key_nodes(old(self).input@, key) + seq![
                        NodeView::Array { len: n as nat, count: n as nat },
                    ] + cell_values(old(self).input@, old(self).si@, p, n, n, delimiter) && final(self).cnt == old(self).cnt
                        + 1 && final(self).stack@ == old(self).stack@ && final(self).last_start == old(self).last_start
                        && final(self).ws@ == old(self).ws@ && final(self).pending == old(self).pending)
                },
                _ => true,
            }),
            (match h {
                Header::EmptyArray { key } => old(self).pending@.len() == 0 && old(self).ws@.len() > 0 ==> {
                    let (dd, k, lw2) = inline_close(
                        old(self).input@,
                        old(self).si@,
                        old(self).strict,
                        old(self).indent_size as int,
                        old(self).i + 1,
                        old(self).ws@,
                        old(self).last_dedent_ws as int,
                    );
                    &&& (r is Ok <==> old(self).i < old(self).si@.len() && key_decodes(
                        old(self).input@,
                        old(self).cnt as int,
                        key,
                    ) && (eol_outcome_of(
                        old(self).input@,
                        old(self).si@,
                        old(self).strict,
                        old(self).indent_size as int,
                        old(self).i + 1,
                        byte_at(old(self).input@, old(self).si@, old(self).i + 1),
                        old(self).pending@,
                        old(self).ws@.push(sat_add(old(self).spec_curr_indent(), old(self).indent_size as int) as usize),
                        false,
                    ) matches Some(e) && e != Eol::Nested) && (dd matches Some(e2) && e2 != Eol::Nested))
                    &&& (r is Ok ==> r == Ok::<Next, Error>(
                        if dd == Some(Eol::Sibling) {
                            Next::Header
                        } else {
                            Next::ScopeEnd
                        },
                    ))
                    &&& (r is Ok ==> final(self).i == k && final(self).last_dedent_ws == lw2 && final(self).tv()
                        == old(self).tv() + key_nodes(old(self).input@, key) + seq![NodeView::Array { len: 0, count: 0 }]
                        && final(self).cnt == old(self).cnt + 1 && final(self).stack@ == old(self).stack@
                        && final(self).last_start == old(self).last_start && final(self).ws@ == old(self).ws@
                        && final(self).pending == old(self).pending)
                },
                _ => true,
            }),
    {
        let ghost s0 = *self;
        let ghost hg = h;
        let n = self.after_header(h, at_root)?;
        let ghost s1 = *self;
        match n {
            // content that ended with its own line closes at once
            Next::ScopeEnd => {
                let r = self.scope_end();
                proof {
                    if let Header::SimpleArray { count, key, delimiter } = hg {
                        if s0.i < s0.si@.len() && s0.stepped().c != 10u8 && s0.pending@.len() == 0 && s0.ws@.len() > 0 {
                            let nn: int = if count >= 1 { count as int } else { 1 };
                            assert(s1.ws@.drop_last() =~= s0.ws@);
                            Self::lemma_inline_scope(
                                &s0,
                                &s1,
                                self,
                                r,
                                inline_end(s0.input@, s0.si@, s0.i + 1, nn, delimiter),
                                cell_values(s0.input@, s0.si@, s0.i + 1, nn, nn, delimiter),
                                key,
                            );
                        }
                    } else if let Header::EmptyArray { key } = hg {
                        if s0.pending@.len() == 0 && s0.ws@.len() > 0 && key is Some {
                            assert(s1.tv() == s0.tv() + key_nodes(s0.input@, key) + seq![NodeView::Array { len: 0, count: 0 }]
                                + Seq::<NodeView>::empty()) by {
                                assert(s1.tv() =~= s0.tv() + key_nodes(s0.input@, key) + seq![
                                    NodeView::Array { len: 0, count: 0 },
                                ] + Seq::<NodeView>::empty());
                            }
                            Self::lemma_inline_scope(&s0, &s1, self, r, s0.i + 1, Seq::<NodeView>::empty(), key);
                        }
                    }
                }
                r
            },
            _ => Ok(n),
        }
    }

    /// A line `key[N]: v1,...` inside an object, as `header_state` reads it.
    #[verifier::spinoff_prover]
    #[verifier::rlimit(100)]
    proof fn lemma_inline_header(start: &Machine<'a>, s1: &Machine<'a>, s2: &Machine<'a>, h: Header, r: Result<Next, Error>)
        requires
            start.ok(),
            s1.ok(),
            s1.same_config(start),
            s1.cnt == start.cnt,
            s1.res == start.res,
            s1.stack == start.stack,
            s1.ws == start.ws,
            s1.pending == start.pending,
            s1.last_start == start.last_start,
            start.si@.len() <= usize::MAX,
            start.idx == cursor_pos(start.si@, start.i as int),
            header_key(h) is Some,
            (match delim_stop(start.input@, start.si@, start.i as int, 58u8, 91u8, 10u8) {
                None => true,
                Some(j) => byte_at(start.input@, start.si@, j) == 91u8 ==> {
                    let a = start.idx as int;
                    let e = trim_end(start.input@, a, start.si@[j - 1] as int);
                    let key = if e > a {
                        Some((a as usize, e as usize))
                    } else {
                        None
                    };
                    match bracket_header(start.input@, start.si@, start.strict, j) {
                        None => false,
                        Some((form, rows, d, cur, ke)) => form < 4 ==> bracket_result(h, form, rows, d, key, a, ke)
                            && s1.i == cur && s1.last_dedent_ws == start.last_dedent_ws,
                    }
                },
            }),
            h is SimpleArray && s1.i >= s1.si@.len() ==> r is Err,
            (match h {
                Header::SimpleArray { count, key, delimiter } => s1.i < s1.si@.len()
                    && s1.stepped().c != 10u8 && s1.pending@.len() == 0 && s1.ws@.len() > 0 ==> {
                    let n = if count >= 1 {
                        count as int
                    } else {
                        1
                    };
                    let p = s1.i + 1;
                    let (dd, k, lw2) = inline_close(
                        s1.input@,
                        s1.si@,
                        s1.strict,
                        s1.indent_size as int,
                        inline_end(s1.input@, s1.si@, p, n, delimiter),
                        s1.ws@,
                        s1.last_dedent_ws as int,
                    );
                    &&& (r is Ok <==> s1.stepped().inline_array_ok(count as int, key, delimiter, false) && (dd matches Some(
                        e,
                    ) && e != Eol::Nested))
                    &&& (r is Ok ==> r == Ok::<Next, Error>(
                        if dd == Some(Eol::Sibling) {
                            Next::Header
                        } else {
                            Next::ScopeEnd
                        },
                    ))
                    &&& (r is Ok ==> s2.i == k && s2.last_dedent_ws == lw2 && s2.tv()
                        == s1.tv() + key_nodes(s1.input@, key) + seq![
                        NodeView::Array { len: n as nat, count: n as nat },
                    ] + cell_values(s1.input@, s1.si@, p, n, n, delimiter) && s2.cnt == s1.cnt
                        + 1 && s2.stack@ == s1.stack@ && s2.last_start == s1.last_start
                        && s2.ws@ == s1.ws@ && s2.pending == s1.pending)
                },
                _ => true,
            }),
            (match h {
                Header::EmptyArray { key } => s1.pending@.len() == 0 && s1.ws@.len() > 0 ==> {
                    let (dd, k, lw2) = inline_close(
                        s1.input@,
                        s1.si@,
                        s1.strict,
                        s1.indent_size as int,
                        s1.i + 1,
                        s1.ws@,
                        s1.last_dedent_ws as int,
                    );
                    &&& (r is Ok <==> s1.i < s1.si@.len() && key_decodes(
                        s1.input@,
                        s1.cnt as int,
                        key,
                    ) && (eol_outcome_of(
                        s1.input@,
                        s1.si@,
                        s1.strict,
                        s1.indent_size as int,
                        s1.i + 1,
                        byte_at(s1.input@, s1.si@, s1.i + 1),
                        s1.pending@,
                        s1.ws@.push(sat_add(s1.spec_curr_indent(), s1.indent_size as int) as usize),
                        false,
                    ) matches Some(e) && e != Eol::Nested) && (dd matches Some(e2) && e2 != Eol::Nested))
                    &&& (r is Ok ==> r == Ok::<Next, Error>(
                        if dd == Some(Eol::Sibling) {
                            Next::Header
                        } else {
                            Next::ScopeEnd
                        },
                    ))
                    &&& (r is Ok ==> s2.i == k && s2.last_dedent_ws == lw2 && s2.tv()
                        == s1.tv() + key_nodes(s1.input@, key) + seq![NodeView::Array { len: 0, count: 0 }]
                        && s2.cnt == s1.cnt + 1 && s2.stack@ == s1.stack@
                        && s2.last_start == s1.last_start && s2.ws@ == s1.ws@
                        && s2.pending == s1.pending)
                },
                _ => true,
            }),
        ensures
            start.pending@.len() == 0 && start.ws@.len() > 0 ==> match inline_line(
                start.input@,
                start.si@,
                start.strict,
                start.indent_size as int,
                start.i as int,
                start.cnt as int,
                start.ws@,
                start.last_dedent_ws as int,
            ) {
                None => true,
                Some(None) => r is Err,
                Some(Some((nodes, k, lw2, sib))) => {
                    &&& r == Ok::<Next, Error>(
                        if sib {
                            Next::Header
                        } else {
                            Next::ScopeEnd
                        },
                    )
                    &&& s2.i == k
                    &&& s2.tv() == start.tv() + nodes
                    &&& s2.cnt == start.cnt + 1
                    &&& s2.stack@ == start.stack@
                    &&& s2.last_start == start.last_start
                    &&& s2.ws@ == start.ws@
                    &&& s2.pending == start.pending
                    &&& s2.last_dedent_ws == lw2
                },
            },
    {
        reveal(inline_line);
        lemma_delim_stop_byte(start.input@, start.si@, start.i as int, 58u8, 91u8, 10u8);
        if let Some(j) = delim_stop(start.input@, start.si@, start.i as int, 58u8, 91u8, 10u8) {
            if let Some((form, rows, d, cur, kend)) = bracket_header(start.input@, start.si@, start.strict, j) {
                if byte_at(start.input@, start.si@, j) == 91u8 && form == 2 {
                    let a = start.idx as int;
                    let e = trim_end(start.input@, a, start.si@[j - 1] as int);
                    lemma_trim_end_bounds(start.input@, a, start.si@[j - 1] as int);
                    if start.pending@.len() == 0 {
                        assert(start.pending@ =~= Seq::<(usize, usize)>::empty());
                    }
                    if e > a {
                        let kv = string_view(start.input@.subrange(a, e))->0;
                        assert(h == Header::EmptyArray { key: Some((a as usize, e as usize)) });
                        assert(key_nodes(start.input@, Some((a as usize, e as usize))) =~= seq![kv]);
                        assert(s1.spec_curr_indent() == indent_of(start.ws@));
                        if r is Ok && start.pending@.len() == 0 && start.ws@.len() > 0 {
                            assert(s2.tv() =~= start.tv() + (seq![kv, NodeView::Array { len: 0, count: 0 }]
                                + Seq::<NodeView>::empty()));
                        }
                    }
                }
                if byte_at(start.input@, start.si@, j) == 91u8 && form == 3 {
                    let a = start.idx as int;
                    let e = trim_end(start.input@, a, start.si@[j - 1] as int);
                    lemma_trim_end_bounds(start.input@, a, start.si@[j - 1] as int);
                    if start.pending@.len() == 0 {
                        assert(start.pending@ =~= Seq::<(usize, usize)>::empty());
                    }
                    if e > a {
                        let kv = string_view(start.input@.subrange(a, e))->0;
                        assert(h == Header::SimpleArray { count: rows as usize, key: Some((a as usize, e as usize)), delimiter: d });
                        assert(key_nodes(start.input@, Some((a as usize, e as usize))) =~= seq![kv]);
                        assert((rows as usize) as int == rows);
                        let st = s1.stepped();
                        if cur < start.si@.len() {
                            assert(st.c == byte_at(start.input@, start.si@, cur + 1));
                            assert(st.i == cur + 1);
                            assert(st.spec_curr_indent() == indent_of(start.ws@));
                            assert(st.tv() == start.tv());
                            assert(st.pending == start.pending);
                            assert(st.cnt == start.cnt);
                        }
                        let n: int = if rows >= 1 { rows } else { 1 };
                        let cells = cell_values(start.input@, start.si@, cur + 1, n, n, d);
                        if r is Ok && start.pending@.len() == 0 && start.ws@.len() > 0 && cur < start.si@.len() && byte_at(
                            start.input@,
                            start.si@,
                            cur + 1,
                        ) != 10u8 {
                            assert(s2.tv() =~= start.tv() + (seq![kv, NodeView::Array { len: n as nat, count: n as nat }]
                                + cells));
                        }
                    }
                }
            }
        }
    }

    /// Expect a key header inside an object.
    #[verifier::spinoff_prover]
    #[verifier::rlimit(80)]
    fn header_state(&mut self) -> (r: Result<Next, Error>)
        requires
            old(self).ok(),
            old(self).res@.len() > 0,
            old(self).mode_ok(Next::Header),
        ensures
            final(self).advanced(old(self)),
            r is Ok ==> final(self).i > old(self).i,
            r matches Ok(n) ==> final(self).mode_ok(n),
            (match line_key(old(self).input@, old(self).si@, old(self).strict, old(self).i as int) {
                None => true,
                Some(None) => r is Err,
                Some(Some((a, e, j))) => {
                    &&& (r is Ok <==> old(self).cnt < usize::MAX && string_view(old(self).input@.subrange(a, e)) is Some
                        && j < old(self).si@.len())
                    &&& (r is Ok ==> r == Ok::<Next, Error>(Next::SimpleValue) && final(self).i == j + 1)
                    &&& (r is Ok ==> final(self).tv() == old(self).tv().push(string_view(old(self).input@.subrange(a, e))->0)
                        && final(self).cnt == old(self).cnt + 1 && final(self).stack == old(self).stack
                        && final(self).last_start == old(self).last_start && final(self).ws == old(self).ws
                        && final(self).pending == old(self).pending && final(self).last_dedent_ws
                        == old(self).last_dedent_ws)
                },
            }),
            old(self).pending@.len() == 0 && old(self).ws@.len() > 0 ==> match inline_line(
                old(self).input@,
                old(self).si@,
                old(self).strict,
                old(self).indent_size as int,
                old(self).i as int,
                old(self).cnt as int,
                old(self).ws@,
                old(self).last_dedent_ws as int,
            ) {
                None => true,
                Some(None) => r is Err,
                Some(Some((nodes, k, lw2, sib))) => {
                    &&& r == Ok::<Next, Error>(
                        if sib {
                            Next::Header
                        } else {
                            Next::ScopeEnd
                        },
                    )
                    &&& final(self).i == k
                    &&& final(self).tv() == old(self).tv() + nodes
                    &&& final(self).cnt == old(self).cnt + 1
                    &&& final(self).stack@ == old(self).stack@
                    &&& final(self).last_start == old(self).last_start
                    &&& final(self).ws@ == old(self).ws@
                    &&& final(self).pending == old(self).pending
                    &&& final(self).last_dedent_ws == lw2
                },
            },
    {
        let ghost start = *self;
        let ghost stop = delim_stop(self.input@, self.si@, self.i as int, 58u8, 91u8, 10u8);
        proof {
            assert(self.idx == cursor_pos(self.si@, self.i as int));
            assert(self.si@.len() == self.si.len());
            lemma_delim_stop_byte(self.input@, self.si@, self.i as int, 58u8, 91u8, 10u8);
            lemma_inline_line_shape(
                self.input@,
                self.si@,
                self.strict,
                self.indent_size as int,
                self.i as int,
                self.cnt as int,
                self.ws@,
                self.last_dedent_ws as int,
            );
        }
        let h = self.read_header()?;
        match h {
            Header::ObjectStart(ks, ke) => {
                proof {
                    if let Some(j) = stop {
                        if byte_at(start.input@, start.si@, j) != 91u8 {
                            assert(ks == start.idx);
                            assert(self.idx == start.si@[j - 1]);
                            lemma_trim_end_bounds(start.input@, start.idx as int, start.si@[j - 1] as int);
                            assert(ke == trim_end(start.input@, start.idx as int, start.si@[j - 1] as int));
                            assert(self.i == j);
                        } else if let Some((form, rows, d, cur, kend)) = bracket_header(start.input@, start.si@, start.strict, j) {
                            if form == 0 {
                                assert(ks == start.idx && ke == kend);
                                assert(self.i == cur);
                            }
                        }
                    }
                }
                let ghost s0 = *self;
                self.inc_cnt()?;
                self.insert_str(ks, ke)?;
                proof { Self::lemma_append_key(&s0, self); }
                self.update_char()?;
                Ok(Next::SimpleValue)
            },
            Header::PrimitiveValue(_, _) => Err(self.fail(ErrorType::NoStructure)),
            Header::EmptyObject => Err(self.fail(ErrorType::NoStructure)),
            _ => {
                // inside an object every header names its key
                let keyed = match &h {
                    Header::SimpleArray { key, .. } => key.is_some(),
                    Header::EmptyArray { key } => key.is_some(),
                    Header::KeyedTabularObjects { key, .. } => key.is_some(),
                    Header::TabularArray { key, .. } => key.is_some(),
                    Header::NestedFieldGroupsArray { key, .. } => key.is_some(),
                    _ => false,
                };
                if !keyed {
                    return Err(self.fail(ErrorType::NoStructure));
                }
                let ghost s1 = *self;
                let ghost hg = h;
                let r = self.keyed_content(h, false);
                proof {
                    Self::lemma_inline_header(&start, &s1, self, hg, r);
                }
                r
            },
        }
    }

    /// The value after `key:` can be taken: a newline (then the next line
    /// must be well indented), or a token up to the end of the line that is
    /// `[]` or decodes, followed by the end or a line that does not nest.
    pub open spec fn simple_value_ok(&self) -> bool {
        if self.c == 10u8 {
            self.i >= self.si@.len() || self.eol_outcome(false) is Some
        } else {
            match delim_stop(self.input@, self.si@, self.i as int, 10u8, 10u8, 10u8) {
                Some(j) => {
                    let ve = trim_end(self.input@, self.idx as int, self.si@[j - 1] as int);
                    let tok = self.input@.subrange(self.idx as int, ve);
                    &&& (tok == seq![91u8, 93u8] || inferred_view(tok) is Some)
                    &&& (j >= self.si@.len() || (eol_outcome_of(
                        self.input@,
                        self.si@,
                        self.strict,
                        self.indent_size as int,
                        j,
                        10u8,
                        self.pending@,
                        self.ws@,
                        false,
                    ) matches Some(e) && e != Eol::Nested))
                },
                None => false,
            }
        }
    }

    /// The value after `key:`: the rest of the line, or an object nested
    /// below; nothing at all makes the value an empty object.
    fn simple_value(&mut self) -> (r: Result<Next, Error>)
        requires
            old(self).ok(),
            old(self).res@.len() > 0,
            old(self).mode_ok(Next::SimpleValue),
        ensures
            final(self).advanced(old(self)),
            r matches Ok(n) ==> final(self).i > old(self).i || (n == Next::ScopeEnd
                && final(self).stack@.len() == old(self).stack@.len()),
            r matches Ok(n) ==> final(self).mode_ok(n),
            r is Ok <==> old(self).simple_value_ok(),
            !(old(self).c == 10u8 && old(self).i < old(self).si@.len() && old(self).eol_outcome(false) == Some(
                Eol::Nested,
            )) ==> match value_step(
                old(self).input@,
                old(self).si@,
                old(self).strict,
                old(self).indent_size as int,
                old(self).i as int,
                old(self).c,
                old(self).pending@,
                old(self).ws@,
            ) {
                Some((v, n, k)) => r == Ok::<Next, Error>(n) && final(self).tv() == old(self).tv().push(v)
                    && final(self).i == k && final(self).stack == old(self).stack && final(self).last_start
                    == old(self).last_start && final(self).cnt == old(self).cnt && final(self).ws == old(self).ws
                    && final(self).pending == old(self).pending && final(self).last_dedent_ws == value_lw(
                    old(self).input@,
                    old(self).si@,
                    old(self).i as int,
                    old(self).c,
                    old(self).last_dedent_ws as int,
                ),
                None => r is Err,
            },
            old(self).c == 10u8 && old(self).i < old(self).si@.len() && old(self).eol_outcome(false) == Some(
                Eol::Nested,
            ) ==> r == Ok::<Next, Error>(Next::Header) && final(self).tv() == old(self).tv().push(
                NodeView::Object { len: 0, count: 0 },
            ) && final(self).stack@ == old(self).stack@.push(
                Frame { kind: FrameKind::Object, last_start: old(self).last_start, cnt: old(self).cnt },
            ) && final(self).last_start == old(self).tv().len() && final(self).cnt == 0 && final(self).ws@
                == old(self).ws@.push(sat_add(old(self).spec_curr_indent(), old(self).indent_size as int) as usize)
                && final(self).pending == old(self).pending && final(self).i == skip_newlines(
                old(self).input@,
                old(self).si@,
                old(self).i + 1,
            ) && final(self).last_dedent_ws == eol_ws(
                old(self).input@,
                old(self).si@,
                old(self).i as int,
                old(self).last_dedent_ws as int,
            ),
    {
        if self.c == 10u8 {
            if self.i >= self.si.len() {
                self.push_empty(true);
                proof { Self::lemma_append_value(old(self), self); }
                return Ok(Next::ScopeEnd);
            }
            match self.get_eol_state(false)? {
                Eol::Nested => {
                    let indent = self.curr_indent().saturating_add(self.indent_size);
                    let ghost s0 = *self;
                    self.open_scope(true, FrameKind::Object, indent);
                    proof { Self::lemma_open(&s0, self, FrameKind::Object); }
                    return Ok(Next::Header);
                },
                Eol::Sibling => {
                    // nothing below the key: an empty object
                    let ghost s0 = *self;
                    self.push_empty(true);
                    proof { Self::lemma_append_value(&s0, self); }
                    return Ok(Next::Header);
                },
                Eol::CloseScope => {
                    // nothing below the key: an empty object
                    let ghost s0 = *self;
                    self.push_empty(true);
                    proof { Self::lemma_append_value(&s0, self); }
                    return Ok(Next::ScopeEnd);
                },
            }
        }
        let vs = self.idx;
        let ve = self.value_end(10u8, 10u8, 10u8)?;
        let ghost s0 = *self;
        proof {
            let tok = self.input@.subrange(vs as int, ve as int);
            assert((ve - vs == 2 && self.input@[vs as int] == 91u8 && self.input@[vs + 1] == 93u8) <==> tok
                =~= seq![91u8, 93u8]);
        }
        if ve - vs == 2 && self.input[vs] == 91u8 && self.input[vs + 1] == 93u8 {
            // `key: []` is an empty array
            self.push_empty(false);
        } else {
            self.insert_inferred(vs, ve)?;
        }
        proof { Self::lemma_append_value(&s0, self); }
        if self.i >= self.si.len() {
            return Ok(Next::ScopeEnd);
        }
        match self.get_eol_state(false)? {
            Eol::Sibling => Ok(Next::Header),
            Eol::CloseScope => Ok(Next::ScopeEnd),
            Eol::Nested => Err(self.fail(ErrorType::NoStructure)),
        }
    }

    /// A strict block array already has as many items as it declared.
    pub open spec fn items_full(&self) -> bool {
        &&& self.strict
        &&& self.pending@.len() > 0
        &&& self.pending@.last().0 == self.stack@.len()
        &&& self.cnt >= self.pending@.last().1
    }

    /// An item line `- ...` whose rest, `input[a..e]`, ends at the `:` or
    /// newline at cursor `j` can be taken: `- key:` needs its key to decode
    /// and a byte after the `:`; a lone value must decode, and the next
    /// line must not nest.
    pub open spec fn item_line_ok(&self, j: int, a: int, e: int) -> bool {
        if byte_at(self.input@, self.si@, j) == 58u8 {
            e > a && string_view(self.input@.subrange(a, e)) is Some && j < self.si@.len()
        } else {
            &&& (e > a ==> inferred_view(self.input@.subrange(a, e)) is Some)
            &&& eol_outcome_of(
                self.input@,
                self.si@,
                self.strict,
                self.indent_size as int,
                j,
                10u8,
                self.pending@,
                self.ws@,
                false,
            ) matches Some(o) && o != Eol::Nested
        }
    }

    /// Expect the next `- item` of a block array.
    #[verifier::spinoff_prover]
    #[verifier::rlimit(100)]
    fn expect_item(&mut self) -> (r: Result<Next, Error>)
        requires
            old(self).ok(),
            old(self).res@.len() > 0,
            old(self).mode_ok(Next::ExpectItem),
        ensures
            final(self).advanced(old(self)),
            r is Ok ==> final(self).i > old(self).i,
            r matches Ok(n) ==> final(self).mode_ok(n),
            old(self).c != 45u8 || old(self).items_full() || old(self).i >= old(self).si@.len() || old(self).cnt
                == usize::MAX ==> r is Err,
            old(self).c == 45u8 && !old(self).items_full() && old(self).i < old(self).si@.len() && old(self).cnt
                < usize::MAX ==> (match delim_stop(old(self).input@, old(self).si@, old(self).i + 1, 58u8, 91u8, 10u8) {
                None => r is Err,
                Some(j) => byte_at(old(self).input@, old(self).si@, j) != 91u8 ==> {
                    let a = old(self).si@[old(self).i as int] as int;
                    let e = trim_end(old(self).input@, a, old(self).si@[j - 1] as int);
                    &&& (r is Ok <==> old(self).item_line_ok(j, a, e))
                    &&& (r is Ok ==> final(self).tv() == old(self).tv() + if byte_at(old(self).input@, old(self).si@, j)
                        == 58u8 {
                        seq![NodeView::Object { len: 0, count: 0 }, string_view(old(self).input@.subrange(a, e))->0]
                    } else if e > a {
                        seq![inferred_view(old(self).input@.subrange(a, e))->0]
                    } else {
                        seq![NodeView::Object { len: 0, count: 0 }]
                    })
                },
            }),
    {
        if self.c != 45u8 {
            return Err(self.fail(ErrorType::ExpectedArray));
        }
        if self.strict {
            match self.pending.last() {
                Some(p) => {
                    if p.0 == self.stack.len() && self.cnt >= p.1 {
                        // more items than declared
                        return Err(self.fail(ErrorType::Syntax));
                    }
                },
                None => {},
            }
        }
        self.update_char()?;
        let ghost s0 = *self;
        self.inc_cnt()?;
        proof { Self::lemma_count_item(&s0, self); }
        let ghost sh = *self;
        let h = self.read_header()?;
        proof {
            lemma_delim_stop_byte(sh.input@, sh.si@, sh.i as int, 58u8, 91u8, 10u8);
            if let Some(j) = delim_stop(sh.input@, sh.si@, sh.i as int, 58u8, 91u8, 10u8) {
                if byte_at(sh.input@, sh.si@, j) != 91u8 {
                    assert(self.idx == sh.si@[j - 1]);
                    lemma_trim_end_bounds(sh.input@, sh.idx as int, sh.si@[j - 1] as int);
                }
            }
        }
        match h {
            Header::PrimitiveValue(vs, ve) => {
                proof {
                    if let Some(j) = delim_stop(sh.input@, sh.si@, sh.i as int, 58u8, 91u8, 10u8) {
                        if byte_at(sh.input@, sh.si@, j) != 91u8 {
                            assert(vs == sh.idx);
                            assert(ve == trim_end(sh.input@, sh.idx as int, sh.si@[j - 1] as int));
                            assert(self.i == j);
                            assert(self.c == 10u8);
                        }
                    }
                }
                let ghost s1 = *self;
                self.insert_inferred(vs, ve)?;
                proof {
                    Self::lemma_append_value(&s1, self);
                    assert(self.ws == old(self).ws && self.pending == old(self).pending);
                    assert(self.strict == old(self).strict && self.indent_size == old(self).indent_size);
                }
                self.item_eol()
            },
            Header::EmptyObject => {
                let ghost s1 = *self;
                self.push_empty(true);
                proof {
                    Self::lemma_append_value(&s1, self);
                    assert(self.ws == old(self).ws && self.pending == old(self).pending);
                    assert(self.strict == old(self).strict && self.indent_size == old(self).indent_size);
                }
                self.item_eol()
            },
            Header::ObjectStart(ks, ke) => {
                // `- key: value`: the item is an object whose first field this is
                let indent = self.curr_indent().saturating_add(2);
                let ghost s1 = *self;
                self.open_scope(true, FrameKind::Array, indent);
                proof { Self::lemma_open(&s1, self, FrameKind::Array); }
                let ghost s2 = *self;
                self.insert_str(ks, ke)?;
                self.inc_cnt()?;
                proof { Self::lemma_append_key(&s2, self); }
                self.update_char()?;
                Ok(Next::SimpleValue)
            },
            _ => {
                let key = match &h {
                    Header::SimpleArray { key, .. } => *key,
                    Header::EmptyArray { key } => *key,
                    Header::KeyedTabularObjects { key, .. } => *key,
                    Header::TabularArray { key, .. } => *key,
                    Header::NestedFieldGroupsArray { key, .. } => *key,
                    _ => None,
                };
                if key.is_some() {
                    // `- key[N]...:` is an object whose first field is that array
                    let indent = self.curr_indent().saturating_add(self.indent_size);
                    let ghost s1 = *self;
                    self.open_scope(true, FrameKind::Array, indent);
                    proof { Self::lemma_open(&s1, self, FrameKind::Array); }
                }
                self.after_header(h, false)
            },
        }
    }

    fn item_eol(&mut self) -> (r: Result<Next, Error>)
        requires
            old(self).ok(),
            old(self).res@.len() > 0,
            old(self).parents_ok(),
            old(self).cur_array(),
            old(self).cur_complete(),
        ensures
            final(self).advanced(old(self)),
            final(self).res == old(self).res,
            r matches Ok(n) ==> final(self).mode_ok(n),
            r is Ok <==> (old(self).eol_outcome(false) matches Some(e) && e != Eol::Nested),
            r == Ok::<Next, Error>(Next::ExpectItem) <==> old(self).eol_outcome(false) == Some(Eol::Sibling),
            r == Ok::<Next, Error>(Next::ScopeEnd) <==> old(self).eol_outcome(false) == Some(Eol::CloseScope),
    {
        match self.get_eol_state(false)? {
            Eol::Sibling => Ok(Next::ExpectItem),
            Eol::CloseScope => Ok(Next::ScopeEnd),
            Eol::Nested => Err(self.fail(ErrorType::NoStructure)),
        }
    }

    /// Closing the current container succeeds: a strict block array got as
    /// many items as it declared; at the outermost level only newlines are
    /// left; else the next line is a sibling or closes further, or, after an
    /// array, the document ends.
    pub open spec fn scope_end_ok(&self) -> bool {
        let depth = self.stack@.len();
        let popped = self.pending@.len() > 0 && self.pending@.last().0 == depth;
        let pend = if popped {
            self.pending@.drop_last()
        } else {
            self.pending@
        };
        let ws = if self.ws@.len() > 0 {
            self.ws@.drop_last()
        } else {
            self.ws@
        };
        let eol = if self.c == 10u8 {
            eol_outcome_of(
                self.input@,
                self.si@,
                self.strict,
                self.indent_size as int,
                self.i as int,
                self.c,
                pend,
                ws,
                false,
            )
        } else {
            classify_indent(self.last_dedent_ws as int, indent_of(ws), self.indent_size as int)
        };
        &&& !(popped && self.strict && self.cnt != self.pending@.last().1)
        &&& if depth == 1 {
            skip_newlines(self.input@, self.si@, self.i as int) == self.si@.len()
        } else if self.stack@.last().kind == FrameKind::Array && self.i >= self.si@.len() {
            true
        } else {
            eol matches Some(e) && e != Eol::Nested
        }
    }

    /// Closing the current object, whose frame is the last of the stack, and
    /// continuing by how the next line relates to the enclosing object.
    pub open spec fn object_close(&self, after: Machine<'a>, r: Result<Next, Error>) -> bool {
        let pws = self.ws@.drop_last();
        let d = if self.c == 10u8 {
            eol_outcome_of(self.input@, self.si@, self.strict, self.indent_size as int, self.i as int, 10u8, seq![], pws, false)
        } else {
            classify_indent(self.last_dedent_ws as int, indent_of(pws), self.indent_size as int)
        };
        &&& (r is Ok <==> (d matches Some(e) && e != Eol::Nested))
        &&& (r is Ok ==> r == Ok::<Next, Error>(
            if d == Some(Eol::Sibling) {
                Next::Header
            } else {
                Next::ScopeEnd
            },
        ))
        &&& (r is Ok ==> after.tv() == self.tv().update(
            self.last_start as int,
            Self::closed_node(self.tv(), self.last_start as int, self.cnt as int),
        ) && after.stack@ == self.stack@.drop_last() && after.last_start == self.stack@.last().last_start
            && after.cnt == self.stack@.last().cnt && after.ws@ == pws && after.pending == self.pending
            && after.i == (if self.c == 10u8 && self.i < self.si@.len() {
            skip_newlines(self.input@, self.si@, self.i + 1)
        } else {
            self.i as int
        }) && after.last_dedent_ws == (if self.c == 10u8 {
            eol_ws(self.input@, self.si@, self.i as int, self.last_dedent_ws as int)
        } else {
            self.last_dedent_ws as int
        }))
    }

    /// Closes the current container and decides, from the next line, where to continue.
    fn scope_end(&mut self) -> (r: Result<Next, Error>)
        requires
            old(self).ok(),
            old(self).res@.len() > 0,
            old(self).mode_ok(Next::ScopeEnd),
        ensures
            final(self).advanced(old(self)),
            r is Ok ==> final(self).stack@.len() < old(self).stack@.len(),
            r matches Ok(n) ==> final(self).mode_ok(n),
            r is Ok <==> old(self).scope_end_ok(),
            old(self).stack@.len() == 1 && old(self).stack@[0].kind == FrameKind::Start && r is Ok ==> r
                == Ok::<Next, Error>(Next::Done) && final(self).tv() == old(self).tv().update(
                old(self).last_start as int,
                Self::closed_node(old(self).tv(), old(self).last_start as int, old(self).cnt as int),
            ),
            old(self).stack@.len() >= 2 && old(self).stack@.last().kind == FrameKind::Object && old(self).pending@.len()
                == 0 && old(self).ws@.len() > 0 ==> old(self).object_close(*final(self), r),
    {
        if self.stack.len() == 0 {
            return Err(self.fail(ErrorType::Syntax));
        }
        let depth = self.stack.len();
        match self.pending.last() {
            Some(p) => {
                if p.0 == depth {
                    let expected = p.1;
                    self.pending.pop();
                    if self.strict && self.cnt != expected {
                        // fewer items than declared
                        return Err(self.fail(ErrorType::Syntax));
                    }
                }
            },
            None => {},
        }
        self.ws.pop();
        let ghost s0 = *self;
        proof { Self::lemma_parents_stable(old(self), &s0); }
        self.backfill(true)?;
        let ghost s1 = *self;
        let f = match self.stack.pop() {
            Some(f) => f,
            None => {
                return Err(self.fail(ErrorType::TapeError));
            },
        };
        proof {
            assert(old(self).stack@[old(self).stack@.len() - 1] == f);
            if old(self).stack@.len() >= 2 {
                assert(old(self).level_ok(old(self).stack@.len() - 2));
            }
            if f.kind == FrameKind::Start {
                // only the bottom frame is the start frame
                if s0.stack@.len() >= 2 {
                    assert(s0.level_ok(s0.stack@.len() - 2));
                }
                Self::lemma_close_root(&s0, self.tv());
            }
        }
        match f.kind {
            FrameKind::Start => {
                let ghost closed = self.tv();
                proof {
                    assert(closed == s1.tv());
                }
                // skip the trailing newlines that end the document
                while self.i < self.si.len() && self.c == 10u8
                    invariant
                        self.tv() == closed,
                        self.advanced(old(self)),
                        self.stack@.len() < old(self).stack@.len(),
                        tape_complete(self.tv()),
                        skip_newlines(self.input@, self.si@, self.i as int) == skip_newlines(
                            old(self).input@,
                            old(self).si@,
                            old(self).i as int,
                        ),
                    decreases self.si@.len() - self.i,
                {
                    proof {
                        assert(byte_at(self.input@, self.si@, self.i as int) == self.c);
                    }
                    self.update_char()?;
                }
                proof {
                    assert(byte_at(self.input@, self.si@, self.i as int) == self.c);
                }
                if self.i == self.si.len() {
                    Ok(Next::Done)
                } else {
                    Err(self.fail(ErrorType::TapeError))
                }
            },
            FrameKind::Object => {
                self.last_start = f.last_start;
                self.cnt = f.cnt;
                proof { Self::lemma_close(&s0, self); }
                let eol = if self.c == 10u8 {
                    self.get_eol_state(false)?
                } else {
                    self.eol_state_from_ws(self.last_dedent_ws)?
                };
                match eol {
                    Eol::CloseScope => Ok(Next::ScopeEnd),
                    Eol::Nested => Err(self.fail(ErrorType::NoStructure)),
                    Eol::Sibling => Ok(Next::Header),
                }
            },
            FrameKind::Array => {
                self.last_start = f.last_start;
                self.cnt = f.cnt;
                proof { Self::lemma_close(&s0, self); }
                if self.i >= self.si.len() {
                    return Ok(Next::ScopeEnd);
                }
                let eol = if self.c == 10u8 {
                    self.get_eol_state(false)?
                } else {
                    self.eol_state_from_ws(self.last_dedent_ws)?
                };
                match eol {
                    Eol::CloseScope => Ok(Next::ScopeEnd),
                    Eol::Nested => Err(self.fail(ErrorType::NoStructure)),
                    Eol::Sibling => Ok(Next::ExpectItem),
                }
            },
        }
    }

    /// What is left of the root object when the machine starts in mode
    /// `first`: its body from the cursor, or, when the current line already
    /// ended the object's last entry, nothing more.
    pub open spec fn run_body(&self, first: Next) -> Option<Option<(Seq<NodeView>, int, int, int)>> {
        if first == Next::ScopeEnd {
            Some(Some((seq![], self.cnt as int, self.i as int, self.last_dedent_ws as int)))
        } else {
            obj_body(
                self.input@,
                self.si@,
                self.strict,
                self.indent_size as int,
                self.i as int,
                first,
                self.cnt as int,
                self.ws@,
                self.last_dedent_ws as int,
            )
        }
    }

    /// Runs the state machine until the document is complete.
    #[verifier::spinoff_prover]
    #[verifier::rlimit(100)]
    fn run(&mut self, first: Next) -> (r: Result<(), Error>)
        requires
            old(self).ok(),
            old(self).res@.len() > 0,
            old(self).mode_ok(first),
        ensures
            final(self).advanced(old(self)),
            r is Ok ==> tape_complete(final(self).tv()),
            first == Next::Done ==> r is Ok && *final(self) == *old(self),
            old(self).object_root() && (first == Next::Header || first == Next::SimpleValue || first == Next::ScopeEnd)
                ==> match root_done(old(self).si@, old(self).input@, old(self).run_body(first)) {
                Some(Some((es, n))) => r is Ok && final(self).tv() == (old(self).tv() + es).update(
                    0,
                    Self::closed_node(old(self).tv() + es, 0, n),
                ),
                Some(None) => r is Err,
                None => true,
            },
    {
        let ghost obj_case = old(self).object_root() && (first == Next::Header || first == Next::SimpleValue || first
            == Next::ScopeEnd);
        let ghost f0 = root_done(old(self).si@, old(self).input@, old(self).run_body(first));
        let ghost mut acc: Seq<NodeView> = seq![];
        let ghost mut levels: Seq<(Seq<NodeView>, int, Seq<usize>, int)> = seq![];
        proof {
            if obj_case && f0 is Some {
                assert(after4(seq![], obj_body(
                    old(self).input@,
                    old(self).si@,
                    old(self).strict,
                    old(self).indent_size as int,
                    old(self).i as int,
                    first,
                    old(self).cnt as int,
                    old(self).ws@,
                    old(self).last_dedent_ws as int,
                )) == obj_body(
                    old(self).input@,
                    old(self).si@,
                    old(self).strict,
                    old(self).indent_size as int,
                    old(self).i as int,
                    first,
                    old(self).cnt as int,
                    old(self).ws@,
                    old(self).last_dedent_ws as int,
                )) by {
                    lemma_after4_empty(obj_body(
                        old(self).input@,
                        old(self).si@,
                        old(self).strict,
                        old(self).indent_size as int,
                        old(self).i as int,
                        first,
                        old(self).cnt as int,
                        old(self).ws@,
                        old(self).last_dedent_ws as int,
                    ));
                }
                reveal(close_up);
                assert(old(self).stack@ + Self::frames_of(old(self), levels) =~= old(self).stack@);
                assert(old(self).tv() + zip_nodes(levels) + acc =~= old(self).tv());
            }
        }
        let mut next = first;
        loop
            invariant
                self.advanced(old(self)),
                self.mode_ok(next),
                first == Next::Done ==> next == Next::Done && *self == *old(self),
                obj_case == (old(self).object_root() && (first == Next::Header || first == Next::SimpleValue || first
                    == Next::ScopeEnd)),
                f0 == root_done(old(self).si@, old(self).input@, old(self).run_body(first)),
                obj_case && f0 is Some ==> self.obj_progress(old(self), next, levels, acc, f0),
            decreases self.si@.len() - self.i, self.stack@.len(), next_rank(next),
        {
            match next {
                Next::Done => {
                    return Ok(());
                },
                Next::Header => {
                    let ghost s0 = *self;
                    let res = self.header_state();
                    proof {
                        if obj_case && f0 is Some {
                            acc = Self::lemma_obj_header(&s0, self, old(self), levels, acc, f0, res);
                        }
                    }
                    next = res?;
                },
                Next::SimpleValue => {
                    let ghost s0 = *self;
                    let res = self.simple_value();
                    proof {
                        if obj_case && f0 is Some {
                            let (l2, a2) = if s0.c == 10u8 && s0.i < s0.si@.len() && s0.eol_outcome(false) == Some(
                                Eol::Nested,
                            ) {
                                Self::lemma_obj_nest(&s0, self, old(self), levels, acc, f0, res)
                            } else {
                                Self::lemma_obj_leaf(&s0, self, old(self), levels, acc, f0, res)
                            };
                            levels = l2;
                            acc = a2;
                        }
                    }
                    next = res?;
                },
                Next::ExpectItem => {
                    next = self.expect_item()?;
                },
                Next::ScopeEnd => {
                    let ghost s0 = *self;
                    let res = self.scope_end();
                    proof {
                        if obj_case && f0 is Some {
                            let (l2, a2) = Self::lemma_obj_close(&s0, self, old(self), levels, acc, f0, res);
                            levels = l2;
                            acc = a2;
                        }
                    }
                    next = res?;
                },
            }
        }
    }

    /// The frames the reader has pushed for the objects `levels` entered
    /// since `start`.
    pub open spec fn frames_of(start: &Machine<'a>, levels: Seq<(Seq<NodeView>, int, Seq<usize>, int)>) -> Seq<Frame>
        decreases levels.len(),
    {
        if levels.len() == 0 {
            seq![]
        } else {
            Self::frames_of(start, levels.drop_last()).push(
                Frame {
                    kind: FrameKind::Object,
                    last_start: Self::ls_of(start, levels.drop_last()) as usize,
                    cnt: levels.last().1 as usize,
                },
            )
        }
    }

    /// Where the node of the innermost object entered lies on the tape.
    pub open spec fn ls_of(start: &Machine<'a>, levels: Seq<(Seq<NodeView>, int, Seq<usize>, int)>) -> int {
        if levels.len() == 0 {
            start.last_start as int
        } else {
            start.tv().len() + zip_nodes(levels).len() - 1
        }
    }

    /// The machine is at the outermost level of a document whose root is an
    /// object: only the start frame, the root container first on the tape,
    /// the indentation of the first line and no pending counts.
    pub open spec fn object_root(&self) -> bool {
        &&& self.stack@.len() == 1
        &&& self.stack@[0].kind == FrameKind::Start
        &&& self.last_start == 0
        &&& self.ws@ == seq![0usize]
        &&& self.pending@.len() == 0
    }

    /// Reading an object from `start` on has entered the objects `levels`,
    /// put `acc` on the tape for the innermost one, and left what `obj_body`
    /// says of the rest.
    pub open spec fn obj_progress(
        &self,
        start: &Machine<'a>,
        next: Next,
        levels: Seq<(Seq<NodeView>, int, Seq<usize>, int)>,
        acc: Seq<NodeView>,
        f0: Option<Option<(Seq<NodeView>, int)>>,
    ) -> bool {
        &&& start.object_root()
        &&& start.tv().len() > 0
        &&& next != Next::Done ==> {
            &&& self.pending@.len() == 0
            &&& self.stack@ == start.stack@ + Self::frames_of(start, levels)
            &&& self.last_start == Self::ls_of(start, levels)
            &&& self.tv() == start.tv() + zip_nodes(levels) + acc
            &&& (levels.len() == 0 ==> self.ws@ == seq![0usize])
            &&& (levels.len() > 0 ==> levels[0].2 == seq![0usize] && self.ws@ == child_ws(
                levels.last().2,
                self.indent_size as int,
            ) && levels.last().3 < self.i)
            &&& forall|j: int|
                0 <= j < levels.len() - 1 ==> levels[j + 1].2 == child_ws(#[trigger] levels[j].2, self.indent_size as int)
                    && levels[j].3 < levels[j + 1].3
            &&& forall|j: int| 0 <= j < levels.len() ==> 0 <= #[trigger] levels[j].1 <= usize::MAX
        }
        &&& match next {
            Next::Header | Next::SimpleValue => f0 == root_done(
                self.si@,
                self.input@,
                close_up(
                    self.input@,
                    self.si@,
                    self.strict,
                    self.indent_size as int,
                    levels,
                    after4(
                        acc,
                        obj_body(
                            self.input@,
                            self.si@,
                            self.strict,
                            self.indent_size as int,
                            self.i as int,
                            next,
                            self.cnt as int,
                            self.ws@,
                            self.last_dedent_ws as int,
                        ),
                    ),
                ),
            ),
            Next::ScopeEnd => f0 == root_done(
                self.si@,
                self.input@,
                close_up(
                    self.input@,
                    self.si@,
                    self.strict,
                    self.indent_size as int,
                    levels,
                    Some(Some((acc, self.cnt as int, self.i as int, self.last_dedent_ws as int))),
                ),
            ),
            Next::Done => levels.len() == 0 && (f0 matches Some(Some((es, n))) && es == acc && self.tv() == (
            start.tv() + acc).update(0, Self::closed_node(start.tv() + acc, 0, n))),
            Next::ExpectItem => false,
        }
    }

    /// One `key:` of an object, as `header_state` reads it.
    #[verifier::spinoff_prover]
    #[verifier::rlimit(100)]
    proof fn lemma_obj_header(
        s0: &Machine<'a>,
        s1: &Machine<'a>,
        start: &Machine<'a>,
        levels: Seq<(Seq<NodeView>, int, Seq<usize>, int)>,
        acc: Seq<NodeView>,
        f0: Option<Option<(Seq<NodeView>, int)>>,
        r: Result<Next, Error>,
    ) -> (acc2: Seq<NodeView>)
        requires
            f0 is Some,
            s1.i >= s0.i,
            r is Ok ==> s1.i > s0.i,
            s0.obj_progress(start, Next::Header, levels, acc, f0),
            s0.ok(),
            s1.ok(),
            s1.same_config(s0),
            (match line_key(s0.input@, s0.si@, s0.strict, s0.i as int) {
                None => true,
                Some(None) => r is Err,
                Some(Some((a, e, j))) => {
                    &&& (r is Ok <==> s0.cnt < usize::MAX && string_view(s0.input@.subrange(a, e)) is Some
                        && j < s0.si@.len())
                    &&& (r is Ok ==> r == Ok::<Next, Error>(Next::SimpleValue) && s1.i == j + 1)
                    &&& (r is Ok ==> s1.tv() == s0.tv().push(string_view(s0.input@.subrange(a, e))->0)
                        && s1.cnt == s0.cnt + 1 && s1.stack == s0.stack && s1.last_start == s0.last_start && s1.ws
                        == s0.ws && s1.pending == s0.pending && s1.last_dedent_ws == s0.last_dedent_ws)
                },
            }),
            s0.pending@.len() == 0 && s0.ws@.len() > 0 ==> match inline_line(
                s0.input@,
                s0.si@,
                s0.strict,
                s0.indent_size as int,
                s0.i as int,
                s0.cnt as int,
                s0.ws@,
                s0.last_dedent_ws as int,
            ) {
                None => true,
                Some(None) => r is Err,
                Some(Some((nodes, k, lw2, sib))) => {
                    &&& r == Ok::<Next, Error>(
                        if sib {
                            Next::Header
                        } else {
                            Next::ScopeEnd
                        },
                    )
                    &&& s1.i == k
                    &&& s1.tv() == s0.tv() + nodes
                    &&& s1.cnt == s0.cnt + 1
                    &&& s1.stack@ == s0.stack@
                    &&& s1.last_start == s0.last_start
                    &&& s1.ws@ == s0.ws@
                    &&& s1.pending == s0.pending
                    &&& s1.last_dedent_ws == lw2
                },
            },
        ensures
            r is Err ==> f0 == Some(None::<(Seq<NodeView>, int)>),
            r matches Ok(n) ==> s1.obj_progress(start, n, levels, acc2, f0),
    {
        reveal(obj_body);
        reveal(root_done);
        let ob = obj_body(
            s0.input@,
            s0.si@,
            s0.strict,
            s0.indent_size as int,
            s0.i as int,
            Next::Header,
            s0.cnt as int,
            s0.ws@,
            s0.last_dedent_ws as int,
        );
        lemma_close_up_stuck(s0.input@, s0.si@, s0.strict, s0.indent_size as int, levels, after4(acc, ob));
        match line_key(s0.input@, s0.si@, s0.strict, s0.i as int) {
            Some(Some((a, e, j))) => {
                let kv = string_view(s0.input@.subrange(a, e))->0;
                if r is Ok {
                    let acc2 = acc + seq![kv];
                    assert(s1.tv() =~= start.tv() + zip_nodes(levels) + acc2);
                    lemma_after4_assoc(
                        acc,
                        seq![kv],
                        obj_body(
                            s1.input@,
                            s1.si@,
                            s1.strict,
                            s1.indent_size as int,
                            s1.i as int,
                            Next::SimpleValue,
                            s1.cnt as int,
                            s1.ws@,
                            s1.last_dedent_ws as int,
                        ),
                    );
                    acc2
                } else {
                    acc
                }
            },
            Some(None) => acc,
            None => {
                assert(s0.ws@.len() > 0);
                match inline_line(
                    s0.input@,
                    s0.si@,
                    s0.strict,
                    s0.indent_size as int,
                    s0.i as int,
                    s0.cnt as int,
                    s0.ws@,
                    s0.last_dedent_ws as int,
                ) {
                    Some(Some((nodes, k, lw2, sib))) => {
                        let acc2 = acc + nodes;
                        assert(s1.tv() =~= start.tv() + zip_nodes(levels) + acc2);
                        if sib {
                            lemma_after4_assoc(
                                acc,
                                nodes,
                                obj_body(
                                    s1.input@,
                                    s1.si@,
                                    s1.strict,
                                    s1.indent_size as int,
                                    s1.i as int,
                                    Next::Header,
                                    s1.cnt as int,
                                    s1.ws@,
                                    s1.last_dedent_ws as int,
                                ),
                            );
                        }
                        acc2
                    },
                    _ => acc,
                }
            },
        }
    }

    /// An object nested below a key, as `simple_value` enters it.
    #[verifier::spinoff_prover]
    #[verifier::rlimit(100)]
    proof fn lemma_obj_nest(
        s0: &Machine<'a>,
        s1: &Machine<'a>,
        start: &Machine<'a>,
        levels: Seq<(Seq<NodeView>, int, Seq<usize>, int)>,
        acc: Seq<NodeView>,
        f0: Option<Option<(Seq<NodeView>, int)>>,
        r: Result<Next, Error>,
    ) -> (res: (Seq<(Seq<NodeView>, int, Seq<usize>, int)>, Seq<NodeView>))
        requires
            f0 is Some,
            s1.i >= s0.i,
            s0.c == 10u8 && s0.i < s0.si@.len() && s0.eol_outcome(false) == Some(Eol::Nested),
            s0.obj_progress(start, Next::SimpleValue, levels, acc, f0),
            s0.ok(),
            s1.ok(),
            s1.same_config(s0),
            !(s0.c == 10u8 && s0.i < s0.si@.len() && s0.eol_outcome(false) == Some(Eol::Nested)) ==> match value_step(
                s0.input@,
                s0.si@,
                s0.strict,
                s0.indent_size as int,
                s0.i as int,
                s0.c,
                s0.pending@,
                s0.ws@,
            ) {
                Some((v, n, k)) => r == Ok::<Next, Error>(n) && s1.tv() == s0.tv().push(v) && s1.i == k && s1.stack
                    == s0.stack && s1.last_start == s0.last_start && s1.cnt == s0.cnt && s1.ws == s0.ws && s1.pending
                    == s0.pending && s1.last_dedent_ws == value_lw(
                    s0.input@,
                    s0.si@,
                    s0.i as int,
                    s0.c,
                    s0.last_dedent_ws as int,
                ),
                None => r is Err,
            },
            s0.c == 10u8 && s0.i < s0.si@.len() && s0.eol_outcome(false) == Some(Eol::Nested) ==> r == Ok::<
                Next,
                Error,
            >(Next::Header) && s1.tv() == s0.tv().push(NodeView::Object { len: 0, count: 0 }) && s1.stack@
                == s0.stack@.push(Frame { kind: FrameKind::Object, last_start: s0.last_start, cnt: s0.cnt })
                && s1.last_start == s0.tv().len() && s1.cnt == 0 && s1.ws@ == s0.ws@.push(
                sat_add(s0.spec_curr_indent(), s0.indent_size as int) as usize,
            ) && s1.pending == s0.pending && s1.i == skip_newlines(s0.input@, s0.si@, s0.i + 1) && s1.last_dedent_ws
                == eol_ws(s0.input@, s0.si@, s0.i as int, s0.last_dedent_ws as int),
        ensures
            r is Err ==> f0 == Some(None::<(Seq<NodeView>, int)>),
            r matches Ok(n) ==> s1.obj_progress(start, n, res.0, res.1, f0),
    {
        reveal(obj_body);
        reveal(root_done);
        reveal(close_up);
        assert(s0.c == byte_at(s0.input@, s0.si@, s0.i as int));
        assert(s0.pending@ =~= Seq::<(usize, usize)>::empty());
        let ob = obj_body(
            s0.input@,
            s0.si@,
            s0.strict,
            s0.indent_size as int,
            s0.i as int,
            Next::SimpleValue,
            s0.cnt as int,
            s0.ws@,
            s0.last_dedent_ws as int,
        );
        lemma_close_up_stuck(s0.input@, s0.si@, s0.strict, s0.indent_size as int, levels, after4(acc, ob));
        lemma_skip_newlines_ge(s0.input@, s0.si@, s0.i + 1);
        let levels2 = levels.push((acc, s0.cnt as int, s0.ws@, s0.i as int));
        let y = obj_body(
            s1.input@,
            s1.si@,
            s1.strict,
            s1.indent_size as int,
            s1.i as int,
            Next::Header,
            0,
            s1.ws@,
            s1.last_dedent_ws as int,
        );
        assert(s1.ws@ == child_ws(s0.ws@, s0.indent_size as int));
        lemma_after4_empty(y);
        assert(levels2.drop_last() =~= levels);
        assert(zip_nodes(levels2) =~= zip_nodes(levels) + acc + seq![NodeView::Object { len: 0, count: 0 }]);
        assert(s1.tv() =~= start.tv() + zip_nodes(levels2) + seq![]);
        assert(s1.stack@ =~= start.stack@ + Self::frames_of(start, levels2));
        assert forall|j: int|
            0 <= j < levels2.len() - 1 implies levels2[j + 1].2 == child_ws(#[trigger] levels2[j].2, s1.indent_size as int)
                && levels2[j].3 < levels2[j + 1].3 by {
            if j < levels.len() - 1 {
                assert(levels2[j] == levels[j] && levels2[j + 1] == levels[j + 1]);
            }
        }
        assert forall|j: int| 0 <= j < levels2.len() implies 0 <= #[trigger] levels2[j].1 <= usize::MAX by {
            if j < levels.len() {
                assert(levels2[j] == levels[j]);
            }
        }
        if levels.len() > 0 {
            assert(levels2[0] == levels[0]);
        }
        (levels2, seq![])
    }

    /// A value on the line after a key, as `simple_value` reads it.
    #[verifier::spinoff_prover]
    #[verifier::rlimit(100)]
    proof fn lemma_obj_leaf(
        s0: &Machine<'a>,
        s1: &Machine<'a>,
        start: &Machine<'a>,
        levels: Seq<(Seq<NodeView>, int, Seq<usize>, int)>,
        acc: Seq<NodeView>,
        f0: Option<Option<(Seq<NodeView>, int)>>,
        r: Result<Next, Error>,
    ) -> (res: (Seq<(Seq<NodeView>, int, Seq<usize>, int)>, Seq<NodeView>))
        requires
            f0 is Some,
            s1.i >= s0.i,
            r matches Ok(n) ==> s1.i > s0.i || n == Next::ScopeEnd,
            !(s0.c == 10u8 && s0.i < s0.si@.len() && s0.eol_outcome(false) == Some(Eol::Nested)),
            s0.obj_progress(start, Next::SimpleValue, levels, acc, f0),
            s0.ok(),
            s1.ok(),
            s1.same_config(s0),
            !(s0.c == 10u8 && s0.i < s0.si@.len() && s0.eol_outcome(false) == Some(Eol::Nested)) ==> match value_step(
                s0.input@,
                s0.si@,
                s0.strict,
                s0.indent_size as int,
                s0.i as int,
                s0.c,
                s0.pending@,
                s0.ws@,
            ) {
                Some((v, n, k)) => r == Ok::<Next, Error>(n) && s1.tv() == s0.tv().push(v) && s1.i == k && s1.stack
                    == s0.stack && s1.last_start == s0.last_start && s1.cnt == s0.cnt && s1.ws == s0.ws && s1.pending
                    == s0.pending && s1.last_dedent_ws == value_lw(
                    s0.input@,
                    s0.si@,
                    s0.i as int,
                    s0.c,
                    s0.last_dedent_ws as int,
                ),
                None => r is Err,
            },
            s0.c == 10u8 && s0.i < s0.si@.len() && s0.eol_outcome(false) == Some(Eol::Nested) ==> r == Ok::<
                Next,
                Error,
            >(Next::Header) && s1.tv() == s0.tv().push(NodeView::Object { len: 0, count: 0 }) && s1.stack@
                == s0.stack@.push(Frame { kind: FrameKind::Object, last_start: s0.last_start, cnt: s0.cnt })
                && s1.last_start == s0.tv().len() && s1.cnt == 0 && s1.ws@ == s0.ws@.push(
                sat_add(s0.spec_curr_indent(), s0.indent_size as int) as usize,
            ) && s1.pending == s0.pending && s1.i == skip_newlines(s0.input@, s0.si@, s0.i + 1) && s1.last_dedent_ws
                == eol_ws(s0.input@, s0.si@, s0.i as int, s0.last_dedent_ws as int),
        ensures
            r is Err ==> f0 == Some(None::<(Seq<NodeView>, int)>),
            r matches Ok(n) ==> s1.obj_progress(start, n, res.0, res.1, f0),
    {
        reveal(obj_body);
        reveal(root_done);
        assert(s0.c == byte_at(s0.input@, s0.si@, s0.i as int));
        assert(s0.pending@ =~= Seq::<(usize, usize)>::empty());
        let ob = obj_body(
            s0.input@,
            s0.si@,
            s0.strict,
            s0.indent_size as int,
            s0.i as int,
            Next::SimpleValue,
            s0.cnt as int,
            s0.ws@,
            s0.last_dedent_ws as int,
        );
        lemma_close_up_stuck(s0.input@, s0.si@, s0.strict, s0.indent_size as int, levels, after4(acc, ob));
        lemma_skip_newlines_ge(s0.input@, s0.si@, s0.i + 1);
        match value_step(s0.input@, s0.si@, s0.strict, s0.indent_size as int, s0.i as int, s0.c, s0.pending@, s0.ws@) {
            None => (levels, acc),
            Some((v, n, k)) => {
                let acc2 = acc + seq![v];
                if r is Ok {
                    assert(s1.tv() =~= start.tv() + zip_nodes(levels) + acc2);
                    if n == Next::Header {
                        lemma_after4_assoc(
                            acc,
                            seq![v],
                            obj_body(
                                s1.input@,
                                s1.si@,
                                s1.strict,
                                s1.indent_size as int,
                                s1.i as int,
                                Next::Header,
                                s1.cnt as int,
                                s1.ws@,
                                s1.last_dedent_ws as int,
                            ),
                        );
                    }
                }
                (levels, acc2)
            },
        }
    }

    /// The end of an object, as `scope_end` reads it: the innermost object
    /// entered is closed into one node, or, at the outermost level, the
    /// document ends.
    #[verifier::spinoff_prover]
    #[verifier::rlimit(100)]
    proof fn lemma_obj_close(
        s0: &Machine<'a>,
        s1: &Machine<'a>,
        start: &Machine<'a>,
        levels: Seq<(Seq<NodeView>, int, Seq<usize>, int)>,
        acc: Seq<NodeView>,
        f0: Option<Option<(Seq<NodeView>, int)>>,
        r: Result<Next, Error>,
    ) -> (res: (Seq<(Seq<NodeView>, int, Seq<usize>, int)>, Seq<NodeView>))
        requires
            f0 is Some,
            s1.i >= s0.i,
            s0.obj_progress(start, Next::ScopeEnd, levels, acc, f0),
            s0.ok(),
            s1.ok(),
            s1.same_config(s0),
            r is Ok <==> s0.scope_end_ok(),
            s0.stack@.len() == 1 && s0.stack@[0].kind == FrameKind::Start && r is Ok ==> r == Ok::<Next, Error>(
                Next::Done,
            ) && s1.tv() == s0.tv().update(
                s0.last_start as int,
                Self::closed_node(s0.tv(), s0.last_start as int, s0.cnt as int),
            ),
            s0.stack@.len() >= 2 && s0.stack@.last().kind == FrameKind::Object && s0.pending@.len() == 0
                && s0.ws@.len() > 0 ==> s0.object_close(*s1, r),
        ensures
            r is Err ==> f0 == Some(None::<(Seq<NodeView>, int)>),
            r matches Ok(n) ==> s1.obj_progress(start, n, res.0, res.1, f0),
    {
        reveal(close_up);
        reveal(after_child);
        reveal(root_done);
        if levels.len() == 0 {
            assert(Self::frames_of(start, levels) =~= Seq::<Frame>::empty());
            assert(s0.stack@ =~= start.stack@);
            (levels, acc)
        } else {
            let p = levels.last();
            let levels2 = levels.drop_last();
            let cur = Some(Some((acc, s0.cnt as int, s0.i as int, s0.last_dedent_ws as int)));
            assert(s0.stack@.last() == Frame {
                kind: FrameKind::Object,
                last_start: Self::ls_of(start, levels2) as usize,
                cnt: p.1 as usize,
            });
            assert(zip_nodes(levels) =~= zip_nodes(levels2) + p.0 + seq![NodeView::Object { len: 0, count: 0 }]);
            assert(0 <= Self::ls_of(start, levels2) < Self::ls_of(start, levels));
            assert(s0.ws@.drop_last() =~= p.2);
            let node = NodeView::Object { len: s0.cnt as nat, count: acc.len() };
            let acc2 = p.0 + seq![node] + acc;
            lemma_skip_newlines_ge(s0.input@, s0.si@, s0.i + 1);
            lemma_close_up_stuck(
                s0.input@,
                s0.si@,
                s0.strict,
                s0.indent_size as int,
                levels2,
                after4(p.0, after_child(s0.input@, s0.si@, s0.strict, s0.indent_size as int, p.3, p.1, p.2, cur)),
            );
            if r is Ok {
                let ls = Self::ls_of(start, levels);
                let z = zip_nodes(levels);
                assert(s0.tv().len() == start.tv().len() + z.len() + acc.len());
                assert(ls == start.tv().len() + z.len() - 1);
                assert((start.tv() + z + acc)[ls] == z[z.len() - 1]);
                assert(s0.tv()[ls] == NodeView::Object { len: 0, count: 0 });
                assert(Self::closed_node(s0.tv(), ls, s0.cnt as int) == node);
                assert(s1.tv() =~= start.tv() + zip_nodes(levels2) + acc2);
                assert(s1.stack@ =~= start.stack@ + Self::frames_of(start, levels2));
                if levels2.len() > 0 {
                    assert(levels[levels.len() - 1].2 == child_ws(levels[levels.len() - 2].2, s0.indent_size as int));
                    assert(levels2.last() == levels[levels.len() - 2]);
                    assert(levels2[0] == levels[0]);
                }
                assert forall|j: int|
                    0 <= j < levels2.len() - 1 implies levels2[j + 1].2 == child_ws(#[trigger] levels2[j].2, s1.indent_size as int)
                        && levels2[j].3 < levels2[j + 1].3 by {
                    assert(levels2[j] == levels[j] && levels2[j + 1] == levels[j + 1]);
                }
                assert forall|j: int| 0 <= j < levels2.len() implies 0 <= #[trigger] levels2[j].1 <= usize::MAX by {
                    assert(levels2[j] == levels[j]);
                }
                if levels2.len() > 0 {
                    assert(levels[levels.len() - 2].3 < levels[levels.len() - 1].3);
                }
                let ob = obj_body(
                    s1.input@,
                    s1.si@,
                    s1.strict,
                    s1.indent_size as int,
                    s1.i as int,
                    Next::Header,
                    s1.cnt as int,
                    s1.ws@,
                    s1.last_dedent_ws as int,
                );
                lemma_after4_assoc(p.0, seq![node] + acc, ob);
                assert(p.0 + (seq![node] + acc) =~= acc2);
            }
            (levels2, acc2)
        }
    }

    /// The root object whose first line, read from the machine `pre`, is a
    /// keyed array, and the rest of the document after it.
    #[verifier::spinoff_prover]
    #[verifier::rlimit(100)]
    fn root_array(&mut self, h: Header, pre: Ghost<Machine<'a>>) -> (r: Result<(), Error>)
        requires
            old(self).ok(),
            old(self).res@.len() > 0,
            header_ok(h, old(self).input@.len() as int),
            header_key(h) is Some,
            h is SimpleArray || h is EmptyArray,
            old(self).object_root(),
            old(self).tv() == seq![NodeView::Object { len: 0, count: 0 }],
            old(self).cnt == 0,
            pre@.last_dedent_ws == 0,
            old(self).parents_ok(),
            old(self).cur_object(),
            old(self).cur_complete(),
            pre@.ok(),
            old(self).same_config(&pre@),
            pre@.si@.len() <= usize::MAX,
            pre@.idx == cursor_pos(pre@.si@, pre@.i as int),
            (match delim_stop(pre@.input@, pre@.si@, pre@.i as int, 58u8, 91u8, 10u8) {
                None => true,
                Some(j) => byte_at(pre@.input@, pre@.si@, j) == 91u8 ==> {
                    let a = pre@.idx as int;
                    let e = trim_end(pre@.input@, a, pre@.si@[j - 1] as int);
                    let key = if e > a {
                        Some((a as usize, e as usize))
                    } else {
                        None
                    };
                    match bracket_header(pre@.input@, pre@.si@, pre@.strict, j) {
                        None => false,
                        Some((form, rows, d, cur, ke)) => form < 4 ==> bracket_result(h, form, rows, d, key, a, ke)
                            && old(self).i == cur && old(self).last_dedent_ws == pre@.last_dedent_ws,
                    }
                },
            }),
        ensures
            final(self).advanced(old(self)),
            r is Ok ==> tape_complete(final(self).tv()),
            match root_inline(old(self).input@, old(self).si@, old(self).strict, old(self).indent_size as int, pre@.i as int) {
                Some(Some(t)) => r is Ok && final(self).tv() == t,
                Some(None) => r is Err,
                None => true,
            },
    {
        let ghost s1 = *self;
        let ghost st = Machine { i: pre@.i, idx: pre@.idx, c: pre@.c, last_dedent_ws: pre@.last_dedent_ws, ..s1 };
        let ghost hg = h;
        let r = self.keyed_content(h, true);
        proof {
            assert(st.ok());
            assert(st.ws@ =~= seq![0usize]);
            Self::lemma_inline_header(&st, &s1, self, hg, r);
            reveal(root_inline);
            reveal(root_done);
        }
        let first = r?;
        let ghost before_run = *self;
        let ghost il = inline_line(
            self.input@,
            self.si@,
            self.strict,
            self.indent_size as int,
            pre@.i as int,
            0,
            seq![0usize],
            0,
        );
        proof {
            if il is Some {
                assert(self.object_root());
            }
            if let Some(Some((nodes, k2, lw2, sib))) = il {
                assert(nodes + Seq::<NodeView>::empty() =~= nodes);
            }
        }
        self.run(first)?;
        proof {
            if let Some(Some((nodes, k2, lw2, sib))) = il {
                assert(before_run.tv() =~= seq![NodeView::Object { len: 0, count: 0 }] + nodes);
                if let Some(Some((es, n, kk, lw))) = before_run.run_body(first) {
                    assert(self.tv() =~= seq![NodeView::Object { len: n as nat, count: (nodes + es).len() }] + (nodes + es));
                }
            }
        }
        Ok(())
    }

    /// The first `key:` of a document whose root is an object, the cursor on
    /// its `:`, and the rest of the document after it.
    #[verifier::spinoff_prover]
    #[verifier::rlimit(60)]
    fn root_object(&mut self, ks: usize, ke: usize) -> (r: Result<(), Error>)
        requires
            old(self).ok(),
            ks <= ke <= old(self).input@.len(),
            old(self).stack@ == seq![Frame { kind: FrameKind::Start, last_start: 0, cnt: 0 }],
            old(self).last_start == 0,
            old(self).cnt == 0,
            old(self).ws@ == seq![0usize],
            old(self).pending@.len() == 0,
            old(self).tv() == seq![NodeView::Object { len: 0, count: 0 }],
            old(self).parents_ok(),
            old(self).cur_object(),
            old(self).cur_complete(),
        ensures
            final(self).advanced(old(self)),
            r is Ok ==> tape_complete(final(self).tv()),
            string_view(old(self).input@.subrange(ks as int, ke as int)) is None || old(self).i >= old(self).si@.len()
                ==> r is Err,
            string_view(old(self).input@.subrange(ks as int, ke as int)) is Some && old(self).i < old(self).si@.len()
                ==> match root_done(
                old(self).si@,
                old(self).input@,
                obj_body(
                    old(self).input@,
                    old(self).si@,
                    old(self).strict,
                    old(self).indent_size as int,
                    old(self).i + 1,
                    Next::SimpleValue,
                    1,
                    seq![0usize],
                    old(self).last_dedent_ws as int,
                ),
            ) {
                Some(Some((es, n))) => r is Ok && final(self).tv() == seq![
                    NodeView::Object { len: n as nat, count: (es.len() + 1) as nat },
                    string_view(old(self).input@.subrange(ks as int, ke as int))->0,
                ] + es,
                Some(None) => r is Err,
                None => true,
            },
    {
        let ghost s0 = *self;
        self.inc_cnt()?;
        self.insert_str(ks, ke)?;
        proof { Self::lemma_append_key(&s0, self); }
        self.update_char()?;
        let ghost before_run = *self;
        proof {
            assert(self.object_root());
        }
        self.run(Next::SimpleValue)?;
        proof {
            if let Some(Some((es, n))) = root_done(
                before_run.si@,
                before_run.input@,
                obj_body(
                    before_run.input@,
                    before_run.si@,
                    before_run.strict,
                    before_run.indent_size as int,
                    before_run.i as int,
                    Next::SimpleValue,
                    1,
                    before_run.ws@,
                    before_run.last_dedent_ws as int,
                ),
            ) {
                assert(before_run.tv() + es =~= seq![before_run.tv()[0], before_run.tv()[1]] + es);
                assert(self.tv() =~= seq![
                    NodeView::Object { len: n as nat, count: (es.len() + 1) as nat },
                    before_run.tv()[1],
                ] + es);
            }
        }
        Ok(())
    }
}

/// Builds the tape of a document from its bytes (followed by the
/// end-of-document newline) and its structural offsets. A tape it hands out
/// holds exactly one value, with every container's counts recorded, and each
/// of its scalars and strings stands for a token of the document.
#[verifier::spinoff_prover]
#[verifier::rlimit(100)]
pub fn build_tape(input: &[u8], si: &[u32], strict: bool, indent_size: usize) -> (r: Result<Vec<Node>, Error>)
    requires
        offsets_ok(input@, si@),
    ensures
        r matches Ok(t) ==> tape_complete(tape_view(t@)),
        r matches Ok(t) ==> leaves_from(tape_view(t@), input@),
        r matches Ok(t) ==> int_kinds(t@),
        lone_value(input@, si@) matches Some((a, e)) ==> (r is Ok <==> inferred_view(input@.subrange(a, e)) is Some),
        lone_value(input@, si@) matches Some((a, e)) ==> (r matches Ok(t) ==> t@.len() == 1 && Some(
            tape_view(t@)[0],
        ) == inferred_view(input@.subrange(a, e))),
        object_document(input@, si@, strict, indent_size as int) matches Some(f) ==> match f {
            Some(tape) => r matches Ok(t) && tape_view(t@) == tape,
            None => r is Err,
        },
{
    proof {
        lemma_object_document_refused(input@, si@, strict, indent_size as int);
    }
    let mut m = Machine {
        input,
        si,
        strict,
        indent_size,
        res: Vec::new(),
        stack: Vec::new(),
        ws: Vec::new(),
        pending: Vec::new(),
        last_dedent_ws: 0,
        last_start: 0,
        cnt: 0,
        i: 0,
        idx: 0,
        c: 0,
    };
    assert(int_kinds(m.res@)) by {
        lemma_int_kinds_empty();
        assert(m.res@ =~= Seq::<Node>::empty());
    }
    m.stack.push(Frame { kind: FrameKind::Start, last_start: 0, cnt: 0 });
    m.ws.push(0);
    m.update_char()?;
    proof {
        assert(m.i == 1);
        assert(m.c == byte_at(m.input@, m.si@, 1));
    }
    // a comment that opens the document
    if m.c == 35u8 {
        m.update_char()?;
    }
    proof {
        assert(m.i == (if byte_at(input@, si@, 1) == 35u8 { 2int } else { 1int }));
    }
    // blank lines before the first header
    while m.c == 10u8
        invariant
            m.ok(),
            m.i >= 1,
            skip_newlines(input@, si@, m.i as int) == first_line(input@, si@),
            m.res@.len() == 0,
            m.si == si,
            m.input == input,
            m.stack@ == seq![Frame { kind: FrameKind::Start, last_start: 0, cnt: 0 }],
            m.last_start == 0,
            m.cnt == 0,
            m.ws@ == seq![0usize],
            m.pending@.len() == 0,
            m.last_dedent_ws == 0,
            m.strict == strict,
            si@.len() == 0 || (byte_at(input@, si@, 1) == 35u8 && si@.len() < 2) || byte_at(input@, si@, first_line(input@, si@))
                == 10u8 ==> object_document(input@, si@, strict, indent_size as int) == Some(None::<Seq<NodeView>>),
            m.indent_size == indent_size,
        decreases m.si@.len() - m.i,
    {
        m.update_char()?;
    }
    let ghost k = m.i as int;
    let ghost a = m.idx as int;
    proof {
        assert(k == first_line(input@, si@));
        assert(a == cursor_pos(si@, k));
        assert(byte_at(input@, si@, k) != 10u8);
        lemma_object_document_line(input@, si@, strict, indent_size as int);
    }
    let ghost pre = m;
    proof {
        assert(si@.len() == si.len());
        lemma_inline_line_shape(input@, si@, strict, indent_size as int, k, 0, seq![0usize], 0);
        lemma_root_inline_none(input@, si@, strict, indent_size as int, k);
    }
    let h = m.read_header()?;
    proof {
        lemma_delim_stop_byte(input@, si@, k, 58u8, 91u8, 10u8);
        if let Some(j) = delim_stop(input@, si@, k, 58u8, 91u8, 10u8) {
            if byte_at(input@, si@, j) == 58u8 {
                assert(m.last_dedent_ws == 0);
                assert(m.idx == si@[j - 1]);
                lemma_trim_end_bounds(input@, a, si@[j - 1] as int);
                assert(m.i == j);
            } else if let Some((form, rows, d, cur, kend)) = bracket_header(input@, si@, strict, j) {
                if byte_at(input@, si@, j) == 91u8 && form == 0 {
                    assert(h == Header::ObjectStart(a as usize, kend as usize));
                    assert(m.i == cur);
                    assert(m.last_dedent_ws == 0);
                }
            }
        }
        if let Some((a1, e1)) = lone_value(input@, si@) {
            let j = delim_stop(input@, si@, k, 58u8, 91u8, 10u8)->0;
            lemma_trim_end_bounds(input@, a, si@[j - 1] as int);
            assert(h == Header::PrimitiveValue(a1 as usize, e1 as usize));
            assert(m.i == si@.len());
        }
    }
    if let Header::PrimitiveValue(vs, ve) = h {
        // the whole document is one value
        if m.i < m.si.len() {
            return Err(m.fail(ErrorType::Syntax));
        }
        m.insert_inferred(vs, ve)?;
        proof {
            assert(m.tv().len() == 1);
        }
        return Ok(m.res);
    }
    let (root_is_object, root_is_array) = match &h {
        Header::ObjectStart(_, _) => (true, false),
        Header::KeyedTabularObjects { .. } => (true, false),
        Header::EmptyObject => (true, false),
        Header::SimpleArray { key, .. } => (key.is_some(), key.is_none()),
        Header::EmptyArray { key } => (key.is_some(), key.is_none()),
        Header::TabularArray { key, .. } => (key.is_some(), key.is_none()),
        Header::NestedFieldGroupsArray { key, .. } => (key.is_some(), key.is_none()),
        Header::PrimitiveValue(_, _) => (false, false),
    };
    if root_is_object {
        m.push_empty(true);
    }
    if root_is_array {
        m.push_empty(false);
    }
    if m.res.len() == 0 {
        return Err(m.fail(ErrorType::NoStructure));
    }
    proof {
        // the root container is the only node, and the current one
        assert(m.tv().len() == 1);
        assert(m.lpos(0) == 0);
        assert(read_elems(m.tv(), 1, 0) is Some);
        assert(read_fields(m.tv(), 1, 0) is Some);
        assert(root_is_object ==> m.cur_object());
        assert(root_is_array ==> m.cur_array());
        assert(m.parents_ok());
    }
    let first = match h {
        Header::ObjectStart(ks, ke) => {
            proof {
                assert(root_is_object && !root_is_array);
                assert(m.tv() =~= seq![NodeView::Object { len: 0, count: 0 }]);
            }
            m.root_object(ks, ke)?;
            return Ok(m.res);
        },
        Header::EmptyObject => {
            return Err(m.fail(ErrorType::NoStructure));
        },
        Header::SimpleArray { key: Some(_), .. } | Header::EmptyArray { key: Some(_) } => {
            // the root object's first line is a keyed array
            proof {
                assert(m.tv() =~= seq![NodeView::Object { len: 0, count: 0 }]);
            }
            m.root_array(h, Ghost(pre))?;
            return Ok(m.res);
        },
        _ => m.after_header(h, true)?,
    };
    m.run(first)?;
    Ok(m.res)
}

} // verus!
