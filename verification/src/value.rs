//! The document as a tree of values, and its correspondence with the tape.
//!
//! Reading a tape into a tree keeps, for a key that an object repeats, the
//! position of its first occurrence and the value of its last one
//! (last write wins). Writing a tree flattens it back into a tape.
use vstd::prelude::*;
use vstd::string::StringSliceAdditionalSpecFns;
use vstd::utf8::encode_utf8;

use crate::tape::{int_kind_ok, int_kinds, lemma_int_kinds_change, tape_view, Node, NodeView, StaticNode};

verus! {

/// A decoded document, or a part of it.
#[derive(Debug, PartialEq)]
pub enum Value {
    Static(StaticNode),
    String(String),
    Array(Vec<Value>),
    Object(Vec<(String, Value)>),
}

/// The mathematical content of a value.
pub enum ValueView {
    Null,
    Bool(bool),
    Int(int),
    Float(Seq<u8>),
    Str(Seq<u8>),
    Array(Seq<ValueView>),
    Object(Seq<(Seq<u8>, ValueView)>),
}

/// The view of a scalar as a value.
pub open spec fn static_value(s: NodeView) -> ValueView {
    match s {
        NodeView::Null => ValueView::Null,
        NodeView::Bool(b) => ValueView::Bool(b),
        NodeView::Int(i) => ValueView::Int(i),
        NodeView::Float(f) => ValueView::Float(f),
        NodeView::Str(s) => ValueView::Str(s),
        _ => ValueView::Null,
    }
}

impl Value {
    pub open spec fn spec_view(self) -> ValueView
        decreases self,
    {
        match self {
            Value::Static(s) => static_value(s@),
            Value::String(s) => ValueView::Str(encode_utf8(s@)),
            Value::Array(v) => ValueView::Array(elems_view(v@)),
            Value::Object(v) => ValueView::Object(fields_view(v@)),
        }
    }
}

/// Every integer in the value keeps the kind of its token: a signed `I64`
/// only for one that is not positive.
pub open spec fn value_kinds(v: Value) -> bool
    decreases v,
{
    match v {
        Value::Static(s) => int_kind_ok(Node::Static(s)),
        Value::String(_) => true,
        Value::Array(vs) => elems_kinds(vs@),
        Value::Object(es) => fields_kinds(es@),
    }
}

/// `value_kinds` of every value of a sequence.
pub open spec fn elems_kinds(s: Seq<Value>) -> bool
    decreases s,
{
    if s.len() == 0 {
        true
    } else {
        elems_kinds(s.drop_last()) && value_kinds(s.last())
    }
}

/// `value_kinds` of the value of every entry of a sequence.
pub open spec fn fields_kinds(s: Seq<(String, Value)>) -> bool
    decreases s,
{
    if s.len() == 0 {
        true
    } else {
        fields_kinds(s.drop_last()) && value_kinds(s.last().1)
    }
}

/// Each value of a sequence whose values keep their kinds keeps its kind.
pub proof fn lemma_elems_kinds_at(s: Seq<Value>, i: int)
    requires
        elems_kinds(s),
        0 <= i < s.len(),
    ensures
        value_kinds(s[i]),
    decreases s.len(),
{
    if i < s.len() - 1 {
        lemma_elems_kinds_at(s.drop_last(), i);
    }
}

/// Each entry's value of a sequence whose values keep their kinds keeps its kind.
pub proof fn lemma_fields_kinds_at(s: Seq<(String, Value)>, i: int)
    requires
        fields_kinds(s),
        0 <= i < s.len(),
    ensures
        value_kinds(s[i].1),
    decreases s.len(),
{
    if i < s.len() - 1 {
        lemma_fields_kinds_at(s.drop_last(), i);
    }
}

/// Setting an entry to one whose value keeps its kind keeps every kind.
pub proof fn lemma_fields_kinds_update(s: Seq<(String, Value)>, j: int, x: (String, Value))
    requires
        fields_kinds(s),
        value_kinds(x.1),
        0 <= j < s.len(),
    ensures
        fields_kinds(s.update(j, x)),
    decreases s.len(),
{
    let u = s.update(j, x);
    if j == s.len() - 1 {
        assert(u.drop_last() =~= s.drop_last());
    } else {
        assert(u.drop_last() =~= s.drop_last().update(j, x));
        lemma_fields_kinds_update(s.drop_last(), j, x);
    }
}

/// The views of a sequence of values.
pub open spec fn elems_view(s: Seq<Value>) -> Seq<ValueView>
    decreases s,
{
    if s.len() == 0 {
        Seq::empty()
    } else {
        elems_view(s.drop_last()).push(s.last().spec_view())
    }
}

/// The views of a sequence of object entries.
pub open spec fn fields_view(s: Seq<(String, Value)>) -> Seq<(Seq<u8>, ValueView)>
    decreases s,
{
    if s.len() == 0 {
        Seq::empty()
    } else {
        fields_view(s.drop_last()).push((encode_utf8(s.last().0@), s.last().1.spec_view()))
    }
}

/// The first index of an entry with key `k`, or -1.
pub open spec fn find_key(es: Seq<(Seq<u8>, ValueView)>, k: Seq<u8>) -> int
    decreases es.len(),
{
    if es.len() == 0 {
        -1
    } else {
        let i = find_key(es.drop_last(), k);
        if i >= 0 {
            i
        } else if es.last().0 == k {
            es.len() - 1
        } else {
            -1
        }
    }
}

/// Writes `k: v` into the entries: over the entry that already has key `k`,
/// else at the end.
pub open spec fn lww_insert(es: Seq<(Seq<u8>, ValueView)>, k: Seq<u8>, v: ValueView) -> Seq<
    (Seq<u8>, ValueView),
> {
    let i = find_key(es, k);
    if i >= 0 {
        es.update(i, (k, v))
    } else {
        es.push((k, v))
    }
}

/// The entries of an object whose keys may repeat, written one after the
/// other: each key keeps its first position and takes its last value.
pub open spec fn lww(es: Seq<(Seq<u8>, ValueView)>) -> Seq<(Seq<u8>, ValueView)>
    decreases es.len(),
{
    if es.len() == 0 {
        Seq::empty()
    } else {
        lww_insert(lww(es.drop_last()), es.last().0, es.last().1)
    }
}

/// The nodes of a value in pre-order: a container node, which records its
/// number of entries and of nodes below it, followed by the nodes of its
/// entries, an object's entries each as a key node and the value's nodes.
pub open spec fn flatten(v: ValueView) -> Seq<NodeView>
    decreases v,
{
    match v {
        ValueView::Null => seq![NodeView::Null],
        ValueView::Bool(b) => seq![NodeView::Bool(b)],
        ValueView::Int(i) => seq![NodeView::Int(i)],
        ValueView::Float(f) => seq![NodeView::Float(f)],
        ValueView::Str(s) => seq![NodeView::Str(s)],
        ValueView::Array(vs) => seq![NodeView::Array { len: vs.len(), count: flat_elems(vs).len() }]
            + flat_elems(vs),
        ValueView::Object(es) => seq![
            NodeView::Object { len: es.len(), count: flat_fields(es).len() },
        ] + flat_fields(es),
    }
}

pub open spec fn flat_elems(vs: Seq<ValueView>) -> Seq<NodeView>
    decreases vs,
{
    if vs.len() == 0 {
        Seq::empty()
    } else {
        flat_elems(vs.drop_last()) + flatten(vs.last())
    }
}

pub open spec fn flat_fields(es: Seq<(Seq<u8>, ValueView)>) -> Seq<NodeView>
    decreases es,
{
    if es.len() == 0 {
        Seq::empty()
    } else {
        flat_fields(es.drop_last()) + seq![NodeView::Str(es.last().0)] + flatten(es.last().1)
    }
}

/// The value whose nodes start at position `p` of tape `t`, and the position
/// after its last node; `None` where the nodes there do not form a value.
pub open spec fn read_at(t: Seq<NodeView>, p: int) -> Option<(ValueView, int)>
    decreases t.len() - p, 0int, 0nat,
{
    if p < 0 || p >= t.len() {
        None
    } else {
        match t[p] {
            NodeView::Array { len, count } => match read_elems(t, p + 1, len) {
                Some((vs, e)) => if e == p + 1 + count {
                    Some((ValueView::Array(vs), e))
                } else {
                    None
                },
                None => None,
            },
            NodeView::Object { len, count } => match read_fields(t, p + 1, len) {
                Some((es, e)) => if e == p + 1 + count {
                    Some((ValueView::Object(lww(es)), e))
                } else {
                    None
                },
                None => None,
            },
            _ => Some((static_value(t[p]), p + 1)),
        }
    }
}

/// `n` values one after the other from position `q0`.
pub open spec fn read_elems(t: Seq<NodeView>, q0: int, n: nat) -> Option<(Seq<ValueView>, int)>
    decreases t.len() - q0, 1int, n,
{
    if n == 0 {
        Some((Seq::empty(), q0))
    } else {
        match read_elems(t, q0, (n - 1) as nat) {
            Some((vs, q)) => if q < q0 || q >= t.len() {
                None
            } else {
                match read_at(t, q) {
                    Some((v, e)) => Some((vs.push(v), e)),
                    None => None,
                }
            },
            None => None,
        }
    }
}

/// `n` key and value pairs one after the other from position `q0`, keys
/// repeated as they stand.
pub open spec fn read_fields(t: Seq<NodeView>, q0: int, n: nat) -> Option<
    (Seq<(Seq<u8>, ValueView)>, int),
>
    decreases t.len() - q0, 1int, n,
{
    if n == 0 {
        Some((Seq::empty(), q0))
    } else {
        match read_fields(t, q0, (n - 1) as nat) {
            Some((es, q)) => if q < q0 || q + 1 >= t.len() {
                None
            } else {
                match t[q] {
                    NodeView::Str(k) => match read_at(t, q + 1) {
                        Some((v, e)) => Some((es.push((k, v)), e)),
                        None => None,
                    },
                    _ => None,
                }
            },
            None => None,
        }
    }
}

/// The position after a value lies after its first node and within the tape.
pub proof fn lemma_read_at_bounds(t: Seq<NodeView>, p: int)
    ensures
        read_at(t, p) matches Some((v, e)) ==> p < e <= t.len(),
    decreases t.len() - p, 0int, 0nat,
{
    if 0 <= p < t.len() {
        match t[p] {
            NodeView::Array { len, count } => {
                lemma_read_elems_bounds(t, p + 1, len);
            },
            NodeView::Object { len, count } => {
                lemma_read_fields_bounds(t, p + 1, len);
            },
            _ => {},
        }
    }
}

pub proof fn lemma_read_elems_bounds(t: Seq<NodeView>, q0: int, n: nat)
    ensures
        read_elems(t, q0, n) matches Some((vs, e)) ==> q0 <= e && (n > 0 ==> e <= t.len())
            && vs.len() == n,
    decreases t.len() - q0, 1int, n,
{
    if n > 0 {
        lemma_read_elems_bounds(t, q0, (n - 1) as nat);
        if let Some((vs, q)) = read_elems(t, q0, (n - 1) as nat) {
            if q0 <= q < t.len() {
                lemma_read_at_bounds(t, q);
            }
        }
    }
}

pub proof fn lemma_read_fields_bounds(t: Seq<NodeView>, q0: int, n: nat)
    ensures
        read_fields(t, q0, n) matches Some((es, e)) ==> q0 <= e && (n > 0 ==> e <= t.len())
            && es.len() == n,
    decreases t.len() - q0, 1int, n,
{
    if n > 0 {
        lemma_read_fields_bounds(t, q0, (n - 1) as nat);
        if let Some((es, q)) = read_fields(t, q0, (n - 1) as nat) {
            if q0 <= q && q + 1 < t.len() {
                lemma_read_at_bounds(t, q + 1);
            }
        }
    }
}

/// Once the entries run out, more entries do too.
pub proof fn lemma_read_elems_none(t: Seq<NodeView>, q0: int, m: nat, n: nat)
    requires
        m <= n,
        read_elems(t, q0, m) is None,
    ensures
        read_elems(t, q0, n) is None,
    decreases n,
{
    if m < n {
        lemma_read_elems_none(t, q0, m, (n - 1) as nat);
    }
}

pub proof fn lemma_read_fields_none(t: Seq<NodeView>, q0: int, m: nat, n: nat)
    requires
        m <= n,
        read_fields(t, q0, m) is None,
    ensures
        read_fields(t, q0, n) is None,
    decreases n,
{
    if m < n {
        lemma_read_fields_none(t, q0, m, (n - 1) as nat);
    }
}

/// `elems_view` maps each value to its view.
pub proof fn lemma_elems_view(s: Seq<Value>)
    ensures
        elems_view(s).len() == s.len(),
        forall|j: int| 0 <= j < s.len() ==> #[trigger] elems_view(s)[j] == s[j]@,
    decreases s.len(),
{
    if s.len() > 0 {
        lemma_elems_view(s.drop_last());
    }
}

/// `fields_view` maps each entry to the bytes of its key and the view of its value.
pub proof fn lemma_fields_view(s: Seq<(String, Value)>)
    ensures
        fields_view(s).len() == s.len(),
        forall|j: int|
            0 <= j < s.len() ==> #[trigger] fields_view(s)[j] == (encode_utf8(s[j].0@), s[j].1@),
    decreases s.len(),
{
    if s.len() > 0 {
        lemma_fields_view(s.drop_last());
    }
}

/// `find_key` finds the first entry with the key.
pub proof fn lemma_find_key(es: Seq<(Seq<u8>, ValueView)>, k: Seq<u8>)
    ensures
        -1 <= find_key(es, k) < es.len(),
        find_key(es, k) >= 0 ==> es[find_key(es, k)].0 == k,
        forall|j: int| 0 <= j < es.len() && j < find_key(es, k) ==> es[j].0 != k,
        find_key(es, k) == -1 ==> forall|j: int| 0 <= j < es.len() ==> es[j].0 != k,
    decreases es.len(),
{
    if es.len() > 0 {
        lemma_find_key(es.drop_last(), k);
        assert forall|j: int| 0 <= j < es.len() - 1 implies es.drop_last()[j] == es[j] by {}
    }
}

/// A copy of a scalar.
fn copy_static(s: &StaticNode) -> (r: StaticNode)
    ensures
        r == *s,
{
    match s {
        StaticNode::Null => StaticNode::Null,
        StaticNode::Bool(b) => StaticNode::Bool(*b),
        StaticNode::I64(i) => StaticNode::I64(*i),
        StaticNode::U64(u) => StaticNode::U64(*u),
        StaticNode::Float(f) => StaticNode::Float(f.clone()),
    }
}

/// Two strings are equal exactly where their UTF-8 bytes are.
fn same_key(a: &String, b: &String) -> (r: bool)
    ensures
        r == (encode_utf8(a@) == encode_utf8(b@)),
{
    proof {
        vstd::utf8::encode_utf8_decode_utf8(a@);
        vstd::utf8::encode_utf8_decode_utf8(b@);
    }
    let r = a.eq(b);
    proof {
        if encode_utf8(a@) == encode_utf8(b@) {
            assert(a@ == b@);
        }
    }
    r
}

/// The index of the first entry with key `k`.
fn find_entry(es: &Vec<(String, Value)>, k: &String) -> (r: Option<usize>)
    ensures
        match r {
            Some(j) => find_key(fields_view(es@), encode_utf8(k@)) == j as int,
            None => find_key(fields_view(es@), encode_utf8(k@)) == -1,
        },
{
    let ghost fv = fields_view(es@);
    let ghost kb = encode_utf8(k@);
    proof {
        lemma_fields_view(es@);
        lemma_find_key(fv, kb);
    }
    let mut j: usize = 0;
    while j < es.len()
        invariant
            j <= es.len(),
            fv == fields_view(es@),
            fv.len() == es.len(),
            kb == encode_utf8(k@),
            forall|m: int| 0 <= m < es.len() ==> #[trigger] fv[m] == (encode_utf8(es@[m].0@), es@[m].1@),
            forall|m: int| 0 <= m < j ==> fv[m].0 != kb,
            -1 <= find_key(fv, kb) < fv.len(),
            find_key(fv, kb) >= 0 ==> fv[find_key(fv, kb)].0 == kb,
            forall|m: int| 0 <= m < fv.len() && m < find_key(fv, kb) ==> fv[m].0 != kb,
            find_key(fv, kb) == -1 ==> forall|m: int| 0 <= m < fv.len() ==> fv[m].0 != kb,
        decreases es.len() - j,
    {
        if same_key(&es[j].0, k) {
            proof {
                assert(fv[j as int].0 == kb);
            }
            return Some(j);
        }
        proof {
            assert(fv[j as int].0 != kb);
        }
        j = j + 1;
    }
    None
}

/// Reads the value whose nodes start at position `p` of a tape, applying
/// last-write-wins to the keys of each object; also gives the position after
/// its last node.
pub fn read_value(t: &Vec<Node>, p: usize) -> (r: Option<(Value, usize)>)
    ensures
        match r {
            Some((v, e)) => read_at(tape_view(t@), p as int) == Some((v@, e as int)),
            None => read_at(tape_view(t@), p as int) is None,
        },
        int_kinds(t@) ==> match r {
            Some((v, _)) => value_kinds(v),
            None => true,
        },
    decreases t.len() - p,
{
    let ghost tv = tape_view(t@);
    if p >= t.len() {
        return None;
    }
    proof {
        assert(tv[p as int] == t@[p as int]@);
    }
    proof {
        if int_kinds(t@) {
            reveal(int_kinds);
            assert(int_kind_ok(t@[p as int]));
        }
    }
    match &t[p] {
        Node::String(s) => Some((Value::String(s.clone()), p + 1)),
        Node::Static(sn) => Some((Value::Static(copy_static(sn)), p + 1)),
        Node::Array { len, count } => {
            let n = *len;
            let c = *count;
            let mut out: Vec<Value> = Vec::new();
            let mut q = p + 1;
            let mut i: usize = 0;
            while i < n
                invariant
                    tv == tape_view(t@),
                    p < q <= t.len(),
                    i <= n,
                    read_elems(tv, p + 1, i as nat) == Some((elems_view(out@), q as int)),
                    tv[p as int] == (NodeView::Array { len: n as nat, count: c as nat }),
                    int_kinds(t@) ==> elems_kinds(out@),
                decreases n - i,
            {
                if q >= t.len() {
                    proof {
                        lemma_read_elems_none(tv, p + 1, (i + 1) as nat, n as nat);
                    }
                    return None;
                }
                match read_value(t, q) {
                    Some((v, e)) => {
                        proof {
                            lemma_read_at_bounds(tv, q as int);
                            assert(out@.push(v).drop_last() =~= out@);
                        }
                        let ghost out0 = out@;
                        out.push(v);
                        proof {
                            assert(out@.drop_last() =~= out0);
                        }
                        q = e;
                    },
                    None => {
                        proof {
                            lemma_read_elems_none(tv, p + 1, (i + 1) as nat, n as nat);
                        }
                        return None;
                    },
                }
                i = i + 1;
            }
            if q - p - 1 == c {
                Some((Value::Array(out), q))
            } else {
                None
            }
        },
        Node::Object { len, count } => {
            let n = *len;
            let c = *count;
            let mut out: Vec<(String, Value)> = Vec::new();
            let ghost mut raw: Seq<(Seq<u8>, ValueView)> = Seq::empty();
            let mut q = p + 1;
            let mut i: usize = 0;
            while i < n
                invariant
                    tv == tape_view(t@),
                    p < q <= t.len(),
                    i <= n,
                    read_fields(tv, p + 1, i as nat) == Some((raw, q as int)),
                    fields_view(out@) == lww(raw),
                    tv[p as int] == (NodeView::Object { len: n as nat, count: c as nat }),
                    int_kinds(t@) ==> fields_kinds(out@),
                decreases n - i,
            {
                if q >= t.len() - 1 {
                    proof {
                        lemma_read_fields_none(tv, p + 1, (i + 1) as nat, n as nat);
                    }
                    return None;
                }
                proof {
                    assert(tv[q as int] == t@[q as int]@);
                }
                let k = match &t[q] {
                    Node::String(k) => k,
                    _ => {
                        proof {
                            lemma_read_fields_none(tv, p + 1, (i + 1) as nat, n as nat);
                        }
                        return None;
                    },
                };
                match read_value(t, q + 1) {
                    Some((v, e)) => {
                        proof {
                            lemma_read_at_bounds(tv, q + 1);
                        }
                        let ghost old_out = out@;
                        let ghost kb = encode_utf8(k@);
                        let ghost vv = v@;
                        match find_entry(&out, k) {
                            Some(j) => {
                                proof {
                                    lemma_fields_view(old_out);
                                    lemma_find_key(fields_view(old_out), kb);
                                }
                                out.set(j, (k.clone(), v));
                                proof {
                                    if int_kinds(t@) {
                                        lemma_fields_kinds_update(old_out, j as int, out@[j as int]);
                                        assert(out@ =~= old_out.update(j as int, out@[j as int]));
                                    }
                                    lemma_fields_view(old_out);
                                    lemma_fields_view(out@);
                                    assert(fields_view(out@) =~= fields_view(old_out).update(
                                        j as int,
                                        (kb, vv),
                                    ));
                                }
                            },
                            None => {
                                out.push((k.clone(), v));
                                proof {
                                    assert(out@.drop_last() =~= old_out);
                                }
                            },
                        }
                        proof {
                            let nraw = raw.push((kb, vv));
                            assert(nraw.drop_last() =~= raw);
                            raw = nraw;
                        }
                        q = e;
                    },
                    None => {
                        proof {
                            lemma_read_fields_none(tv, p + 1, (i + 1) as nat, n as nat);
                        }
                        return None;
                    },
                }
                i = i + 1;
            }
            if q - p - 1 == c {
                Some((Value::Object(out), q))
            } else {
                None
            }
        },
    }
}

/// Appends the nodes of a value to a tape.
pub fn write_value(v: &Value, out: &mut Vec<Node>)
    ensures
        tape_view(final(out)@) == tape_view(old(out)@) + flatten(v@),
        value_kinds(*v) && int_kinds(old(out)@) ==> int_kinds(final(out)@),
    decreases v,
{
    let ghost t0 = tape_view(out@);
    let ghost kinds = value_kinds(*v) && int_kinds(out@);
    match v {
        Value::Static(sn) => {
            proof {
                if kinds {
                    lemma_int_kinds_change(out@, out@.len() as int, Node::Static(*sn));
                }
            }
            out.push(Node::Static(copy_static(sn)));
            proof {
                assert(tape_view(out@) =~= t0 + flatten(v@));
            }
        },
        Value::String(s) => {
            proof {
                if kinds {
                    lemma_int_kinds_change(out@, out@.len() as int, Node::String(*s));
                }
            }
            out.push(Node::String(s.clone()));
            proof {
                assert(tape_view(out@) =~= t0 + flatten(v@));
            }
        },
        Value::Array(vs) => {
            let start = out.len();
            let n = vs.len();
            proof {
                if kinds {
                    lemma_int_kinds_change(out@, out@.len() as int, Node::Array { len: n, count: 0 });
                }
            }
            out.push(Node::Array { len: n, count: 0 });
            let ghost head = seq![NodeView::Array { len: n as nat, count: 0 }];
            proof {
                assert(tape_view(out@) =~= t0 + head);
                assert(vs@.take(0) =~= Seq::<Value>::empty());
                assert(t0 + head + flat_elems(elems_view(vs@.take(0))) =~= t0 + head);
            }
            let mut i: usize = 0;
            while i < n
                invariant
                    i <= n,
                    n == vs@.len(),
                    start == t0.len(),
                    head == seq![NodeView::Array { len: n as nat, count: 0 }],
                    tape_view(out@) == t0 + head + flat_elems(elems_view(vs@.take(i as int))),
                    *v == Value::Array(*vs),
                    kinds ==> int_kinds(out@) && elems_kinds(vs@),
                decreases n - i,
            {
                let ghost before = tape_view(out@);
                proof {
                    assert(decreases_to!(*v => v->Array_0));
                    assert(decreases_to!(*vs => vs@));
                    assert(decreases_to!(vs@ => vs@[i as int]));
                    if kinds {
                        lemma_elems_kinds_at(vs@, i as int);
                    }
                }
                write_value(&vs[i], out);
                proof {
                    let tk = vs@.take(i as int);
                    let tk1 = vs@.take(i + 1);
                    assert(tk1.drop_last() =~= tk);
                    assert(elems_view(tk1) == elems_view(tk).push(vs@[i as int]@));
                    assert(elems_view(tk1).drop_last() =~= elems_view(tk));
                    assert(tape_view(out@) =~= t0 + head + flat_elems(elems_view(tk1)));
                }
                i = i + 1;
            }
            let count = out.len() - start - 1;
            let ghost full = tape_view(out@);
            proof {
                if kinds {
                    lemma_int_kinds_change(out@, start as int, Node::Array { len: n, count });
                }
            }
            out.set(start, Node::Array { len: n, count });
            proof {
                assert(vs@.take(n as int) =~= vs@);
                lemma_elems_view(vs@);
                assert(tape_view(out@) =~= full.update(start as int, NodeView::Array { len: n as nat, count: count as nat }));
                assert(tape_view(out@) =~= t0 + flatten(v@));
            }
        },
        Value::Object(es) => {
            let start = out.len();
            let n = es.len();
            proof {
                if kinds {
                    lemma_int_kinds_change(out@, out@.len() as int, Node::Object { len: n, count: 0 });
                }
            }
            out.push(Node::Object { len: n, count: 0 });
            let ghost head = seq![NodeView::Object { len: n as nat, count: 0 }];
            proof {
                assert(tape_view(out@) =~= t0 + head);
                assert(es@.take(0) =~= Seq::<(String, Value)>::empty());
                assert(t0 + head + flat_fields(fields_view(es@.take(0))) =~= t0 + head);
            }
            let mut i: usize = 0;
            while i < n
                invariant
                    i <= n,
                    n == es@.len(),
                    start == t0.len(),
                    head == seq![NodeView::Object { len: n as nat, count: 0 }],
                    tape_view(out@) == t0 + head + flat_fields(fields_view(es@.take(i as int))),
                    *v == Value::Object(*es),
                    kinds ==> int_kinds(out@) && fields_kinds(es@),
                decreases n - i,
            {
                let ghost before = tape_view(out@);
                let ghost mid = before.push(NodeView::Str(encode_utf8(es@[i as int].0@)));
                proof {
                    if kinds {
                        lemma_int_kinds_change(out@, out@.len() as int, Node::String(es@[i as int].0));
                        lemma_fields_kinds_at(es@, i as int);
                    }
                }
                out.push(Node::String(es[i].0.clone()));
                proof {
                    assert(tape_view(out@) =~= mid);
                    assert(decreases_to!(*v => v->Object_0));
                    assert(decreases_to!(*es => es@));
                    assert(decreases_to!(es@ => es@[i as int]));
                    assert(decreases_to!(es@[i as int] => es@[i as int].1));
                }
                write_value(&es[i].1, out);
                proof {
                    let tk = es@.take(i as int);
                    let tk1 = es@.take(i + 1);
                    assert(tk1.drop_last() =~= tk);
                    let ent = (encode_utf8(es@[i as int].0@), es@[i as int].1@);
                    assert(fields_view(tk1) == fields_view(tk).push(ent));
                    assert(fields_view(tk1).drop_last() =~= fields_view(tk));
                    assert(tape_view(out@) =~= t0 + head + flat_fields(fields_view(tk1)));
                }
                i = i + 1;
            }
            let count = out.len() - start - 1;
            let ghost full = tape_view(out@);
            proof {
                if kinds {
                    lemma_int_kinds_change(out@, start as int, Node::Object { len: n, count });
                }
            }
            out.set(start, Node::Object { len: n, count });
            proof {
                assert(es@.take(n as int) =~= es@);
                lemma_fields_view(es@);
                assert(tape_view(out@) =~= full.update(start as int, NodeView::Object { len: n as nat, count: count as nat }));
                assert(tape_view(out@) =~= t0 + flatten(v@));
            }
        },
    }
}

/// No two entries share a key.
pub open spec fn keys_unique(es: Seq<(Seq<u8>, ValueView)>) -> bool {
    forall|i: int, j: int| 0 <= i < j < es.len() ==> es[i].0 != es[j].0
}

/// Every object in the value, at any depth, has unique keys.
pub open spec fn deduped(v: ValueView) -> bool
    decreases v,
{
    match v {
        ValueView::Array(vs) => forall|i: int| 0 <= i < vs.len() ==> deduped(#[trigger] vs[i]),
        ValueView::Object(es) => keys_unique(es) && forall|i: int|
            0 <= i < es.len() ==> deduped(#[trigger] es[i].1),
        _ => true,
    }
}

/// Every value among the entries is deduplicated.
pub open spec fn all_deduped(es: Seq<(Seq<u8>, ValueView)>) -> bool {
    forall|i: int| 0 <= i < es.len() ==> deduped(#[trigger] es[i].1)
}

/// Last-write-wins leaves entries whose keys are already unique as they are.
pub proof fn lemma_lww_unique(es: Seq<(Seq<u8>, ValueView)>)
    requires
        keys_unique(es),
    ensures
        lww(es) == es,
    decreases es.len(),
{
    if es.len() > 0 {
        let d = es.drop_last();
        assert(keys_unique(d));
        lemma_lww_unique(d);
        lemma_find_key(d, es.last().0);
        assert forall|j: int| 0 <= j < d.len() implies d[j].0 != es.last().0 by {
            assert(es[j].0 != es[es.len() - 1].0);
        }
        assert(d.push(es.last()) =~= es);
    }
}

/// After last-write-wins every key occurs once, every key written occurs,
/// and the value a key holds is one that was written for it.
pub proof fn lemma_lww_result(es: Seq<(Seq<u8>, ValueView)>)
    ensures
        keys_unique(lww(es)),
        all_deduped(es) ==> all_deduped(lww(es)),
        forall|i: int| 0 <= i < es.len() ==> find_key(lww(es), #[trigger] es[i].0) >= 0,
        forall|j: int|
            #![trigger lww(es)[j]]
            0 <= j < lww(es).len() ==> exists|i: int| 0 <= i < es.len() && #[trigger] es[i] == lww(es)[j],
    decreases es.len(),
{
    if es.len() > 0 {
        let d = es.drop_last();
        let prev = lww(d);
        let (k, v) = es.last();
        lemma_lww_result(d);
        lemma_find_key(prev, k);
        let cur = lww(es);
        assert(cur == lww_insert(prev, k, v));
        let f = find_key(prev, k);
        assert forall|i: int| 0 <= i < es.len() implies find_key(cur, #[trigger] es[i].0) >= 0 by {
            lemma_find_key(cur, es[i].0);
            if i < d.len() {
                assert(d[i] == es[i]);
                lemma_find_key(prev, d[i].0);
                let g = find_key(prev, d[i].0);
                assert(cur[g].0 == es[i].0);
            } else {
                assert(cur[cur.len() - 1].0 == k || cur[f].0 == k);
            }
        }
        assert forall|j: int| #![trigger cur[j]] 0 <= j < cur.len() implies exists|i: int|
            0 <= i < es.len() && #[trigger] es[i] == cur[j] by {
            if (f >= 0 && j == f) || (f < 0 && j == prev.len()) {
                assert(es[es.len() - 1] == cur[j]);
            } else {
                assert(cur[j] == prev[j]);
                let i = choose|i: int| 0 <= i < d.len() && #[trigger] d[i] == prev[j];
                assert(es[i] == d[i]);
            }
        }
        if all_deduped(es) {
            assert(all_deduped(d)) by {
                assert forall|i: int| 0 <= i < d.len() implies deduped(#[trigger] d[i].1) by {
                    assert(d[i] == es[i]);
                }
            }
            assert forall|j: int| 0 <= j < cur.len() implies deduped(#[trigger] cur[j].1) by {
                if (f >= 0 && j == f) || (f < 0 && j == prev.len()) {
                    assert(es[es.len() - 1].1 == v);
                } else {
                    assert(cur[j] == prev[j]);
                }
            }
        }
    }
}

/// Every value read from a tape has unique keys in each of its objects.
pub proof fn lemma_read_at_deduped(t: Seq<NodeView>, p: int)
    ensures
        read_at(t, p) matches Some((v, e)) ==> deduped(v),
    decreases t.len() - p, 0int, 0nat,
{
    if 0 <= p < t.len() {
        match t[p] {
            NodeView::Array { len, count } => {
                lemma_read_elems_deduped(t, p + 1, len);
            },
            NodeView::Object { len, count } => {
                lemma_read_fields_deduped(t, p + 1, len);
                if let Some((es, e)) = read_fields(t, p + 1, len) {
                    lemma_lww_result(es);
                }
            },
            _ => {},
        }
    }
}

pub proof fn lemma_read_elems_deduped(t: Seq<NodeView>, q0: int, n: nat)
    ensures
        read_elems(t, q0, n) matches Some((vs, e)) ==> forall|i: int|
            0 <= i < vs.len() ==> deduped(#[trigger] vs[i]),
    decreases t.len() - q0, 1int, n,
{
    if n > 0 {
        lemma_read_elems_deduped(t, q0, (n - 1) as nat);
        if let Some((vs, q)) = read_elems(t, q0, (n - 1) as nat) {
            if q0 <= q < t.len() {
                lemma_read_at_deduped(t, q);
                if let Some((v, e)) = read_at(t, q) {
                    let nv = vs.push(v);
                    assert forall|i: int| 0 <= i < nv.len() implies deduped(#[trigger] nv[i]) by {
                        if i < vs.len() {
                            assert(nv[i] == vs[i]);
                        }
                    }
                }
            }
        }
    }
}

pub proof fn lemma_read_fields_deduped(t: Seq<NodeView>, q0: int, n: nat)
    ensures
        read_fields(t, q0, n) matches Some((es, e)) ==> all_deduped(es),
    decreases t.len() - q0, 1int, n,
{
    if n > 0 {
        lemma_read_fields_deduped(t, q0, (n - 1) as nat);
        if let Some((es, q)) = read_fields(t, q0, (n - 1) as nat) {
            if q0 <= q && q + 1 < t.len() {
                lemma_read_at_deduped(t, q + 1);
                if let (NodeView::Str(k), Some((v, e))) = (t[q], read_at(t, q + 1)) {
                    let ne = es.push((k, v));
                    assert forall|i: int| 0 <= i < ne.len() implies deduped(#[trigger] ne[i].1) by {
                        if i < es.len() {
                            assert(ne[i] == es[i]);
                        }
                    }
                }
            }
        }
    }
}

/// A flattened value is at least one node long.
pub proof fn lemma_flatten_nonempty(v: ValueView)
    ensures
        flatten(v).len() >= 1,
{
}

/// Reading back the nodes that a deduplicated value flattens to gives the value.
pub proof fn lemma_read_flatten(t: Seq<NodeView>, p: int, v: ValueView)
    requires
        deduped(v),
        0 <= p,
        p + flatten(v).len() <= t.len(),
        t.subrange(p, p + flatten(v).len()) == flatten(v),
    ensures
        read_at(t, p) == Some((v, p + flatten(v).len())),
    decreases v,
{
    let f = flatten(v);
    assert(t[p] == f[0]);
    match v {
        ValueView::Array(vs) => {
            let fe = flat_elems(vs);
            assert(t.subrange(p + 1, p + 1 + fe.len()) =~= fe) by {
                assert forall|j: int| 0 <= j < fe.len() implies t[p + 1 + j] == fe[j] by {
                    assert(t.subrange(p, p + f.len())[1 + j] == f[1 + j]);
                }
            }
            lemma_read_flat_elems(t, p + 1, vs);
        },
        ValueView::Object(es) => {
            let ff = flat_fields(es);
            assert(t.subrange(p + 1, p + 1 + ff.len()) =~= ff) by {
                assert forall|j: int| 0 <= j < ff.len() implies t[p + 1 + j] == ff[j] by {
                    assert(t.subrange(p, p + f.len())[1 + j] == f[1 + j]);
                }
            }
            assert(all_deduped(es));
            lemma_read_flat_fields(t, p + 1, es);
            lemma_lww_unique(es);
        },
        _ => {},
    }
}

pub proof fn lemma_read_flat_elems(t: Seq<NodeView>, q0: int, vs: Seq<ValueView>)
    requires
        forall|i: int| 0 <= i < vs.len() ==> deduped(#[trigger] vs[i]),
        0 <= q0,
        q0 + flat_elems(vs).len() <= t.len(),
        t.subrange(q0, q0 + flat_elems(vs).len()) == flat_elems(vs),
    ensures
        read_elems(t, q0, vs.len()) == Some((vs, q0 + flat_elems(vs).len())),
    decreases vs,
{
    if vs.len() > 0 {
        let d = vs.drop_last();
        let x = vs.last();
        let fd = flat_elems(d);
        let fx = flatten(x);
        let fa = flat_elems(vs);
        assert(fa == fd + fx);
        assert(t.subrange(q0, q0 + fd.len()) =~= fd) by {
            assert forall|j: int| 0 <= j < fd.len() implies t[q0 + j] == fd[j] by {
                assert(t.subrange(q0, q0 + fa.len())[j] == fa[j]);
            }
        }
        assert(t.subrange(q0 + fd.len(), q0 + fd.len() + fx.len()) =~= fx) by {
            assert forall|j: int| 0 <= j < fx.len() implies t[q0 + fd.len() + j] == fx[j] by {
                assert(t.subrange(q0, q0 + fa.len())[fd.len() + j] == fa[fd.len() + j]);
            }
        }
        assert forall|i: int| 0 <= i < d.len() implies deduped(#[trigger] d[i]) by {
            assert(d[i] == vs[i]);
        }
        lemma_read_flat_elems(t, q0, d);
        lemma_flatten_nonempty(x);
        assert(deduped(vs[vs.len() - 1]));
        lemma_read_flatten(t, q0 + fd.len(), x);
        assert(d.len() == (vs.len() - 1) as nat);
        assert(d.push(x) =~= vs);
    }
}

pub proof fn lemma_read_flat_fields(t: Seq<NodeView>, q0: int, es: Seq<(Seq<u8>, ValueView)>)
    requires
        all_deduped(es),
        0 <= q0,
        q0 + flat_fields(es).len() <= t.len(),
        t.subrange(q0, q0 + flat_fields(es).len()) == flat_fields(es),
    ensures
        read_fields(t, q0, es.len()) == Some((es, q0 + flat_fields(es).len())),
    decreases es,
{
    if es.len() > 0 {
        let d = es.drop_last();
        let (k, x) = es.last();
        let fd = flat_fields(d);
        let fx = flatten(x);
        let fa = flat_fields(es);
        assert(fa == fd + seq![NodeView::Str(k)] + fx);
        assert(t.subrange(q0, q0 + fd.len()) =~= fd) by {
            assert forall|j: int| 0 <= j < fd.len() implies t[q0 + j] == fd[j] by {
                assert(t.subrange(q0, q0 + fa.len())[j] == fa[j]);
            }
        }
        assert(t[q0 + fd.len()] == NodeView::Str(k)) by {
            assert(t.subrange(q0, q0 + fa.len())[fd.len() as int] == fa[fd.len() as int]);
        }
        assert(t.subrange(q0 + fd.len() + 1, q0 + fd.len() + 1 + fx.len()) =~= fx) by {
            assert forall|j: int| 0 <= j < fx.len() implies t[q0 + fd.len() + 1 + j] == fx[j] by {
                assert(t.subrange(q0, q0 + fa.len())[fd.len() + 1 + j] == fa[fd.len() + 1 + j]);
            }
        }
        assert(all_deduped(d)) by {
            assert forall|i: int| 0 <= i < d.len() implies deduped(#[trigger] d[i].1) by {
                assert(d[i] == es[i]);
            }
        }
        lemma_read_flat_fields(t, q0, d);
        lemma_flatten_nonempty(x);
        assert(deduped(es[es.len() - 1].1));
        lemma_read_flatten(t, q0 + fd.len() + 1, x);
        assert(d.len() == (es.len() - 1) as nat);
        assert(d.push((k, x)) =~= es);
    }
}

/// The value an object's entries hold for key `k`: the first entry with it.
pub open spec fn lookup(es: Seq<(Seq<u8>, ValueView)>, k: Seq<u8>) -> Option<ValueView> {
    let i = find_key(es, k);
    if i >= 0 {
        Some(es[i].1)
    } else {
        None
    }
}

/// The value a value holds for key `k`: `None` unless it is an object with
/// that key.
pub open spec fn value_get(v: ValueView, k: Seq<u8>) -> Option<ValueView> {
    match v {
        ValueView::Object(es) => lookup(es, k),
        _ => None,
    }
}

/// Two byte strings are equal.
fn bytes_equal(a: &[u8], b: &[u8]) -> (r: bool)
    ensures
        r == (a@ == b@),
{
    if a.len() != b.len() {
        return false;
    }
    let mut i: usize = 0;
    while i < a.len()
        invariant
            i <= a.len(),
            a.len() == b.len(),
            forall|j: int| 0 <= j < i ==> a@[j] == b@[j],
        decreases a.len() - i,
    {
        if a[i] != b[i] {
            return false;
        }
        i = i + 1;
    }
    proof {
        assert(a@ =~= b@);
    }
    true
}

impl Value {
    /// The value this object holds for a key; `None` if it is not an object or
    /// has no such key.
    pub fn get(&self, key: &str) -> (r: Option<&Value>)
        ensures
            match value_get(self@, key.spec_bytes()) {
                Some(x) => r matches Some(y) && y@ == x,
                None => r is None,
            },
    {
        match self {
            Value::Object(es) => {
                let kb = key.as_bytes();
                let ghost fv = fields_view(es@);
                proof {
                    lemma_fields_view(es@);
                    lemma_find_key(fv, kb@);
                }
                let mut j: usize = 0;
                while j < es.len()
                    invariant
                        j <= es.len(),
                        fv == fields_view(es@),
                        fv.len() == es.len(),
                        kb@ == key.spec_bytes(),
                        self@ == ValueView::Object(fv),
                        forall|m: int|
                            0 <= m < es.len() ==> #[trigger] fv[m] == (
                                encode_utf8(es@[m].0@),
                                es@[m].1@,
                            ),
                        forall|m: int| 0 <= m < j ==> fv[m].0 != kb@,
                        -1 <= find_key(fv, kb@) < fv.len(),
                        find_key(fv, kb@) >= 0 ==> fv[find_key(fv, kb@)].0 == kb@,
                        forall|m: int| 0 <= m < fv.len() && m < find_key(fv, kb@) ==> fv[m].0 != kb@,
                        find_key(fv, kb@) == -1 ==> forall|m: int| 0 <= m < fv.len() ==> fv[m].0 != kb@,
                    decreases es.len() - j,
                {
                    let entry = &es[j];
                    let eb = entry.0.as_str().as_bytes();
                    if bytes_equal(eb, kb) {
                        proof {
                            assert(fv[j as int].0 == kb@);
                            assert(find_key(fv, kb@) == j);
                            assert(fv[j as int].1 == es@[j as int].1@);
                        }
                        return Some(&entry.1);
                    }
                    proof {
                        assert(fv[j as int].0 != kb@);
                    }
                    j = j + 1;
                }
                None
            },
            _ => None,
        }
    }

    /// The string this value is, if it is one.
    pub fn as_str(&self) -> (r: Option<&str>)
        ensures
            match self@ {
                ValueView::Str(b) => r matches Some(x) && x.spec_bytes() == b,
                _ => r is None,
            },
    {
        match self {
            Value::String(s) => Some(s.as_str()),
            _ => None,
        }
    }

    /// The string this object holds for a key; `None` if there is no such key
    /// or its value is not a string.
    pub fn get_str(&self, key: &str) -> (r: Option<&str>)
        ensures
            match value_get(self@, key.spec_bytes()) {
                Some(ValueView::Str(b)) => r matches Some(x) && x.spec_bytes() == b,
                _ => r is None,
            },
    {
        match self.get(key) {
            Some(v) => v.as_str(),
            None => None,
        }
    }
}

/// The value of the last entry with key `k`, if any.
pub open spec fn last_value(es: Seq<(Seq<u8>, ValueView)>, k: Seq<u8>) -> Option<ValueView>
    decreases es.len(),
{
    if es.len() == 0 {
        None
    } else if es.last().0 == k {
        Some(es.last().1)
    } else {
        last_value(es.drop_last(), k)
    }
}

/// The keys of the entries, each once, in the order they first occur.
pub open spec fn first_keys(es: Seq<(Seq<u8>, ValueView)>) -> Seq<Seq<u8>>
    decreases es.len(),
{
    if es.len() == 0 {
        Seq::empty()
    } else {
        let d = first_keys(es.drop_last());
        if d.contains(es.last().0) {
            d
        } else {
            d.push(es.last().0)
        }
    }
}

/// The keys of the entries, in order.
pub open spec fn keys_of(es: Seq<(Seq<u8>, ValueView)>) -> Seq<Seq<u8>> {
    es.map_values(|e: (Seq<u8>, ValueView)| e.0)
}

/// Last write wins: after writing the entries one after the other, a key
/// holds the value written last for it, and the keys stand in the order in
/// which each was first written.
pub proof fn law_last_write_wins(es: Seq<(Seq<u8>, ValueView)>, k: Seq<u8>)
    ensures
        lookup(lww(es), k) == last_value(es, k),
        keys_of(lww(es)) == first_keys(es),
    decreases es.len(),
{
    if es.len() > 0 {
        let d = es.drop_last();
        let (lk, lv) = es.last();
        let prev = lww(d);
        law_last_write_wins(d, k);
        law_last_write_wins(d, lk);
        lemma_lww_result(d);
        lemma_find_key(prev, k);
        lemma_find_key(prev, lk);
        let cur = lww(es);
        let f = find_key(prev, lk);
        assert(cur == lww_insert(prev, lk, lv));
        lemma_find_key(cur, k);
        // the keys of `prev` are its keys in order, so `lk` occurs there iff `f >= 0`
        assert(keys_of(prev) == first_keys(d));
        assert(first_keys(d).contains(lk) <==> f >= 0) by {
            if f >= 0 {
                assert(keys_of(prev)[f] == lk);
            }
            if first_keys(d).contains(lk) {
                let j = choose|j: int| 0 <= j < first_keys(d).len() && first_keys(d)[j] == lk;
                assert(keys_of(prev)[j] == prev[j].0);
            }
        }
        if f >= 0 {
            assert(keys_of(cur) =~= keys_of(prev));
        } else {
            assert(keys_of(cur) =~= keys_of(prev).push(lk));
        }
        if k == lk {
            assert(find_key(cur, k) == (if f >= 0 { f } else { prev.len() as int })) by {
                lemma_find_key(cur, k);
                if f >= 0 {
                    assert(cur[f].0 == k);
                } else {
                    assert(cur[prev.len() as int].0 == k);
                }
            }
        } else {
            // entries other than the one written keep their place
            assert forall|j: int| 0 <= j < prev.len() implies cur[j].0 == prev[j].0 by {}
            assert(find_key(cur, k) == find_key(prev, k)) by {
                let g = find_key(prev, k);
                let h = find_key(cur, k);
                if g >= 0 {
                    assert(cur[g].0 == k);
                    assert(cur[g] == prev[g]);
                }
                if h >= 0 && h < prev.len() {
                    assert(prev[h].0 == k);
                }
            }
            let g = find_key(prev, k);
            if g >= 0 {
                assert(cur[g] == prev[g]);
            }
        }
    }
}

/// Two tapes that agree on positions `lo..hi`.
pub open spec fn agree_on(t: Seq<NodeView>, u: Seq<NodeView>, lo: int, hi: int) -> bool {
    &&& hi <= t.len()
    &&& hi <= u.len()
    &&& forall|k: int| lo <= k < hi ==> #[trigger] t[k] == u[k]
}

/// A value read from a tape depends only on the nodes it spans.
pub proof fn lemma_read_at_agree(t: Seq<NodeView>, u: Seq<NodeView>, p: int)
    ensures
        read_at(t, p) matches Some((v, e)) ==> (agree_on(t, u, p, e) ==> read_at(u, p) == read_at(t, p)),
    decreases t.len() - p, 0int, 0nat,
{
    if 0 <= p < t.len() {
        match t[p] {
            NodeView::Array { len, count } => {
                lemma_read_elems_agree(t, u, p + 1, len);
                lemma_read_elems_bounds(t, p + 1, len);
            },
            NodeView::Object { len, count } => {
                lemma_read_fields_agree(t, u, p + 1, len);
                lemma_read_fields_bounds(t, p + 1, len);
            },
            _ => {},
        }
        if let Some((v, e)) = read_at(t, p) {
            if agree_on(t, u, p, e) {
                lemma_read_at_bounds(t, p);
                assert(t[p] == u[p]);
            }
        }
    }
}

pub proof fn lemma_read_elems_agree(t: Seq<NodeView>, u: Seq<NodeView>, q0: int, n: nat)
    ensures
        read_elems(t, q0, n) matches Some((vs, e)) ==> (agree_on(t, u, q0, e) ==> read_elems(u, q0, n)
            == read_elems(t, q0, n)),
    decreases t.len() - q0, 1int, n,
{
    if n > 0 {
        lemma_read_elems_agree(t, u, q0, (n - 1) as nat);
        if let Some((vs, q)) = read_elems(t, q0, (n - 1) as nat) {
            if q0 <= q < t.len() {
                lemma_read_at_agree(t, u, q);
                lemma_read_at_bounds(t, q);
                lemma_read_elems_bounds(t, q0, (n - 1) as nat);
            }
        }
    }
}

pub proof fn lemma_read_fields_agree(t: Seq<NodeView>, u: Seq<NodeView>, q0: int, n: nat)
    ensures
        read_fields(t, q0, n) matches Some((es, e)) ==> (agree_on(t, u, q0, e) ==> read_fields(u, q0, n)
            == read_fields(t, q0, n)),
    decreases t.len() - q0, 1int, n,
{
    if n > 0 {
        lemma_read_fields_agree(t, u, q0, (n - 1) as nat);
        if let Some((es, q)) = read_fields(t, q0, (n - 1) as nat) {
            if q0 <= q && q + 1 < t.len() {
                lemma_read_at_agree(t, u, q + 1);
                lemma_read_at_bounds(t, q + 1);
                lemma_read_fields_bounds(t, q0, (n - 1) as nat);
                if let Some((v, e)) = read_at(t, q + 1) {
                    if agree_on(t, u, q0, e) {
                        assert(t[q] == u[q]);
                    }
                }
            }
        }
    }
}

impl View for Value {
    type V = ValueView;

    open spec fn view(&self) -> ValueView {
        self.spec_view()
    }
}

} // verus!
