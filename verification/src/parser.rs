//! The decoding pipeline and its entry points: comment stripping, structural
//! indexing, tape building, and last-write-wins on repeated keys.
//!
//! Every parse needs two things that are orthogonal to the input: how to
//! decode it ([`DecodeOptions`]) and somewhere to scratch ([`Buffers`]). A
//! [`Parser`] keeps both, so that a caller parsing many documents configures
//! once.
use vstd::prelude::*;
use vstd::utf8::valid_utf8;

use crate::comments::{strip_comments, CommentStripper};
use crate::error::{Error, ErrorType};
use crate::options::DecodeOptions;
use crate::stage1::{
    ends_in_string, find_structural_indexes, indexes_well_formed, lemma_structural_indexes_well_formed,
    structural_indexes,
};
use crate::stage2::{build_tape, object_document, from_token, is_container, leaves_from};
use crate::tape::{int_kinds, lemma_int_kinds_change, lemma_int_kinds_empty, tape_view, Node, NodeView, StaticNode};
use crate::utf8::checked_str;
use crate::value::{
    deduped, flatten, lemma_lww_result, lemma_read_at_deduped, lemma_read_flatten, lww, read_at,
    read_elems, read_fields, read_value, value_kinds, write_value, Value, ValueView,
};

verus! {

/// A decoded document, borrowed form.
pub type BorrowedValue = Value;

/// A decoded document, owned form.
pub type OwnedValue = Value;

/// The tape of a decoded document is exactly the flattening of the value it
/// reads back as, and that value has unique keys in every object.
pub open spec fn tape_well_formed(t: Seq<NodeView>) -> bool {
    read_at(t, 0) matches Some((v, e)) && e == t.len() && deduped(v) && flatten(v) == t
}

/// The value a well-formed tape holds.
pub open spec fn tape_value(t: Seq<NodeView>) -> ValueView {
    read_at(t, 0)->Some_0.0
}

/// Writing a value whose objects have unique keys as a tape and reading the
/// tape back gives the value again: the tape is well formed and holds exactly it.
pub proof fn law_write_then_read(v: ValueView)
    requires
        deduped(v),
    ensures
        tape_well_formed(flatten(v)),
        tape_value(flatten(v)) == v,
{
    let t = flatten(v);
    assert(t.subrange(0, t.len() as int) =~= t);
    lemma_read_flatten(t, 0, v);
}

/// The node a scalar or string value is read from.
pub open spec fn leaf_node(v: ValueView) -> NodeView {
    match v {
        ValueView::Null => NodeView::Null,
        ValueView::Bool(b) => NodeView::Bool(b),
        ValueView::Int(i) => NodeView::Int(i),
        ValueView::Float(f) => NodeView::Float(f),
        ValueView::Str(s) => NodeView::Str(s),
        _ => NodeView::Null,
    }
}

/// Every key, string and scalar in the value stands for a token of the document.
pub open spec fn value_from_tokens(v: ValueView, b: Seq<u8>) -> bool
    decreases v,
{
    match v {
        ValueView::Array(vs) => forall|i: int| 0 <= i < vs.len() ==> value_from_tokens(#[trigger] vs[i], b),
        ValueView::Object(es) => forall|i: int|
            0 <= i < es.len() ==> from_token(NodeView::Str(#[trigger] es[i].0), b) && value_from_tokens(
                es[i].1,
                b,
            ),
        _ => from_token(leaf_node(v), b),
    }
}

/// A value read from a tape whose leaves stand for tokens has only such
/// keys, strings and scalars.
pub proof fn lemma_read_from_tokens(t: Seq<NodeView>, b: Seq<u8>, p: int)
    requires
        leaves_from(t, b),
    ensures
        read_at(t, p) matches Some((v, e)) ==> value_from_tokens(v, b),
    decreases t.len() - p, 0int, 0nat,
{
    if 0 <= p < t.len() {
        match t[p] {
            NodeView::Array { len, count } => {
                lemma_elems_from_tokens(t, b, p + 1, len);
            },
            NodeView::Object { len, count } => {
                lemma_fields_from_tokens(t, b, p + 1, len);
                if let Some((es, e)) = read_fields(t, p + 1, len) {
                    lemma_lww_result(es);
                    let w = lww(es);
                    assert forall|j: int| 0 <= j < w.len() implies from_token(NodeView::Str(#[trigger] w[j].0), b)
                        && value_from_tokens(w[j].1, b) by {
                        let i = choose|i: int| 0 <= i < es.len() && #[trigger] es[i] == w[j];
                    }
                }
            },
            _ => {
                assert(!is_container(t[p]));
                assert(from_token(t[p], b));
            },
        }
    }
}

pub proof fn lemma_elems_from_tokens(t: Seq<NodeView>, b: Seq<u8>, q0: int, n: nat)
    requires
        leaves_from(t, b),
    ensures
        read_elems(t, q0, n) matches Some((vs, e)) ==> forall|i: int|
            0 <= i < vs.len() ==> value_from_tokens(#[trigger] vs[i], b),
    decreases t.len() - q0, 1int, n,
{
    if n > 0 {
        lemma_elems_from_tokens(t, b, q0, (n - 1) as nat);
        if let Some((vs, q)) = read_elems(t, q0, (n - 1) as nat) {
            if q0 <= q < t.len() {
                lemma_read_from_tokens(t, b, q);
                if let Some((v, e)) = read_at(t, q) {
                    let nv = vs.push(v);
                    assert forall|i: int| 0 <= i < nv.len() implies value_from_tokens(#[trigger] nv[i], b) by {
                        if i < vs.len() {
                            assert(nv[i] == vs[i]);
                        }
                    }
                }
            }
        }
    }
}

pub proof fn lemma_fields_from_tokens(t: Seq<NodeView>, b: Seq<u8>, q0: int, n: nat)
    requires
        leaves_from(t, b),
        q0 >= 0,
    ensures
        read_fields(t, q0, n) matches Some((es, e)) ==> forall|i: int|
            0 <= i < es.len() ==> from_token(NodeView::Str(#[trigger] es[i].0), b) && value_from_tokens(
                es[i].1,
                b,
            ),
    decreases t.len() - q0, 1int, n,
{
    if n > 0 {
        lemma_fields_from_tokens(t, b, q0, (n - 1) as nat);
        if let Some((es, q)) = read_fields(t, q0, (n - 1) as nat) {
            if q0 <= q && q + 1 < t.len() {
                lemma_read_from_tokens(t, b, q + 1);
                if !is_container(t[q]) {
                    assert(from_token(t[q], b));
                }
                if let (NodeView::Str(k), Some((v, e))) = (t[q], read_at(t, q + 1)) {
                    let ne = es.push((k, v));
                    assert(t[q] == NodeView::Str(k));
                    assert(from_token(NodeView::Str(k), b));
                    assert(value_from_tokens(v, b));
                    assert forall|i: int| 0 <= i < ne.len() implies from_token(NodeView::Str(#[trigger] ne[i].0), b)
                        && value_from_tokens(ne[i].1, b) by {
                        if i < es.len() {
                            assert(ne[i] == es[i]);
                        } else {
                            assert(ne[i] == (k, v));
                        }
                    }
                    assert(read_fields(t, q0, n) == Some((ne, e)));
                }
            }
        }
    }
}

/// Scratch space a parse fills and later parses reuse: the structural
/// offsets of the last document and a copy of it that ends in a newline.
#[derive(Debug)]
pub struct Buffers {
    structural_indexes: Vec<u32>,
    padded: Vec<u8>,
}

impl Buffers {
    /// The structural offsets the last parse computed.
    pub closed spec fn spec_structural_indexes(&self) -> Seq<u32> {
        self.structural_indexes@
    }

    /// Buffers sized for documents of about `capacity` bytes.
    pub fn new(capacity: usize) -> (b: Buffers)
        ensures
            b.spec_structural_indexes() == Seq::<u32>::empty(),
    {
        Buffers { structural_indexes: Vec::with_capacity(capacity), padded: Vec::with_capacity(capacity) }
    }

    /// The structural offsets of the last document parsed with these buffers
    /// (its end included), empty before the first.
    pub fn structural_indexes(&self) -> (s: &Vec<u32>)
        ensures
            s@ == self.spec_structural_indexes(),
    {
        &self.structural_indexes
    }
}

impl Default for Buffers {
    fn default() -> (b: Buffers)
        ensures
            b.spec_structural_indexes() == Seq::<u32>::empty(),
    {
        Buffers::new(0)
    }
}

/// A document whose stripped text is an object of `key: value`, `key:`,
/// `key[N]: v1,...` and `key[0]:` lines (`object_document`, decoded with the given
/// strictness and indentation step) decodes to the value of that tape, or
/// is refused where that tape is refused.
pub open spec fn decodes_object(input: Seq<u8>, stripped: Seq<u8>, strict: bool, step: int, r: Result<ValueView, ErrorType>) -> bool {
    valid_utf8(input) && input.len() < 0xffff_ffff && !ends_in_string(stripped) ==> match object_document(
        stripped.push(10u8),
        structural_indexes(stripped),
        strict,
        step,
    ) {
        Some(Some(t)) => r == Ok::<ValueView, ErrorType>(tape_value(t)),
        Some(None) => r is Err,
        None => true,
    }
}

/// What every decode promises: the input is checked to be UTF-8 and then has
/// its comments blanked in place, the errors of those steps and of indexing
/// come where their conditions hold, and a decoded value has unique keys in
/// every object and holds only keys, strings and scalars that tokens of the
/// stripped document (ended by a newline) stand for.
pub open spec fn decode_result(
    input: Seq<u8>,
    stripped: Seq<u8>,
    strict: bool,
    step: int,
    r: Result<ValueView, ErrorType>,
) -> bool {
    &&& decodes_object(input, stripped, strict, step, r)
    &&& !valid_utf8(input) ==> r == Err::<ValueView, ErrorType>(ErrorType::InvalidUtf8) && stripped
        == input
    &&& valid_utf8(input) ==> stripped == strip_comments(input)
    &&& valid_utf8(input) && input.len() >= 0xffff_ffff ==> r == Err::<ValueView, ErrorType>(
        ErrorType::InputTooLarge,
    )
    &&& valid_utf8(input) && input.len() < 0xffff_ffff && ends_in_string(stripped) ==> r == Err::<
        ValueView,
        ErrorType,
    >(ErrorType::UnterminatedString)
    &&& r matches Ok(v) ==> valid_utf8(input) && input.len() < 0xffff_ffff && !ends_in_string(
        stripped,
    ) && deduped(v) && value_from_tokens(v, stripped.push(10u8))
}

/// `decode_result`, and the structural offsets of the stripped document land
/// in the buffers wherever indexing was reached and succeeded.
pub open spec fn decode_outcome(
    input: Seq<u8>,
    stripped: Seq<u8>,
    indexes: Seq<u32>,
    strict: bool,
    step: int,
    r: Result<ValueView, ErrorType>,
) -> bool {
    &&& decode_result(input, stripped, strict, step, r)
    &&& valid_utf8(input) && input.len() < 0xffff_ffff && !ends_in_string(stripped) ==> indexes
        == structural_indexes(stripped)
}

/// The kind of a result, with the value taken by its view.
pub open spec fn outcome_of<T: View<V = ValueView>>(r: Result<T, Error>) -> Result<ValueView, ErrorType> {
    match r {
        Ok(v) => Ok(v@),
        Err(e) => Err(e.error),
    }
}

/// Decodes a document into a value, blanking its comments in place.
fn decode_document(input: &mut [u8], buffers: &mut Buffers, options: DecodeOptions) -> (r: Result<Value, Error>)
    ensures
        decode_outcome(old(input)@, final(input)@, final(buffers).spec_structural_indexes(), options.spec_strict(), options.spec_indent_size() as int, outcome_of(r)),
        r matches Ok(v) ==> value_kinds(v),
{
    match checked_str(input) {
        Some(_) => {},
        None => {
            return Err(Error::generic(ErrorType::InvalidUtf8));
        },
    }
    let stripper = CommentStripper::new(input.len());
    stripper.strip(input);
    match find_structural_indexes(input, &mut buffers.structural_indexes) {
        Ok(()) => {},
        Err(e) => {
            return Err(e);
        },
    }
    proof {
        lemma_structural_indexes_well_formed(input@);
    }
    // the tape builder reads one newline past the end of the document
    buffers.padded.clear();
    let n = input.len();
    let mut i: usize = 0;
    while i < n
        invariant
            i <= n,
            n == input@.len(),
            buffers.padded@ == input@.take(i as int),
            buffers.structural_indexes@ == structural_indexes(input@),
            indexes_well_formed(input@, structural_indexes(input@)),
        decreases n - i,
    {
        buffers.padded.push(input[i]);
        proof {
            assert(input@.take(i + 1) =~= input@.take(i as int).push(input@[i as int]));
        }
        i = i + 1;
    }
    buffers.padded.push(10u8);
    proof {
        assert(input@.take(n as int) =~= input@);
        assert(buffers.padded@ == input@.push(10u8));
        let si = buffers.structural_indexes@;
        assert(indexes_well_formed(input@, si));
        assert forall|k: int| 0 <= k < si.len() implies (si[k] as int) < buffers.padded@.len() by {}
    }
    let raw = build_tape(buffers.padded.as_slice(), buffers.structural_indexes.as_slice(), options.strict(), options.indent_size())?;
    // the tape builder only hands out tapes that hold exactly one value
    match read_value(&raw, 0) {
        Some((v, _)) => {
            proof {
                lemma_read_at_deduped(tape_view(raw@), 0);
                lemma_read_from_tokens(tape_view(raw@), input@.push(10u8), 0);
            }
            Ok(v)
        },
        None => {
            proof {
                assert(false);
            }
            Err(Error::generic(ErrorType::TapeError))
        },
    }
}

/// The tape of a deduplicated value.
fn tape_of(v: &Value) -> (t: Vec<Node>)
    requires
        deduped(v@),
    ensures
        tape_view(t@) == flatten(v@),
        tape_well_formed(tape_view(t@)),
        value_kinds(*v) ==> int_kinds(t@),
{
    let mut t: Vec<Node> = Vec::new();
    proof {
        lemma_int_kinds_empty();
        assert(t@ =~= Seq::<Node>::empty());
    }
    write_value(v, &mut t);
    proof {
        assert(tape_view(t@) =~= flatten(v@));
        law_write_then_read(v@);
    }
    t
}

/// A decoded document as a sequence of nodes in pre-order.
#[derive(Debug)]
pub struct Tape {
    nodes: Vec<Node>,
}

impl Tape {
    #[verifier::type_invariant]
    spec fn wf(self) -> bool {
        &&& tape_well_formed(tape_view(self.nodes@))
        &&& int_kinds(self.nodes@)
    }

    /// The nodes of the tape.
    pub closed spec fn spec_nodes(self) -> Seq<NodeView> {
        tape_view(self.nodes@)
    }

    /// The tape of the document `null`.
    pub fn null() -> (t: Tape)
        ensures
            t.spec_nodes() == seq![NodeView::Null],
    {
        let mut nodes: Vec<Node> = Vec::new();
        proof {
            lemma_int_kinds_empty();
            assert(nodes@ =~= Seq::<Node>::empty());
            lemma_int_kinds_change(nodes@, 0, Node::Static(StaticNode::Null));
        }
        nodes.push(Node::Static(StaticNode::Null));
        proof {
            assert(tape_view(nodes@) =~= seq![NodeView::Null]);
            assert(flatten(ValueView::Null) =~= seq![NodeView::Null]);
            law_write_then_read(ValueView::Null);
        }
        Tape { nodes }
    }

    /// The nodes of the tape.
    pub fn nodes(&self) -> (n: &Vec<Node>)
        ensures
            tape_view(n@) == self.spec_nodes(),
            int_kinds(n@),
    {
        proof {
            use_type_invariant(self);
        }
        &self.nodes
    }

    /// The document the tape holds.
    pub fn as_value(&self) -> (v: Value)
        ensures
            v@ == tape_value(self.spec_nodes()),
            flatten(v@) == self.spec_nodes(),
            value_kinds(v),
    {
        proof {
            use_type_invariant(self);
        }
        match read_value(&self.nodes, 0) {
            Some((v, _)) => v,
            None => {
                proof {
                    assert(false);
                }
                Value::Static(StaticNode::Null)
            },
        }
    }
}

/// A decoded document, ready to be handed out as a tape.
#[derive(Debug)]
pub struct Deserializer {
    tape: Vec<Node>,
}

impl Deserializer {
    #[verifier::type_invariant]
    spec fn wf(self) -> bool {
        &&& tape_well_formed(tape_view(self.tape@))
        &&& int_kinds(self.tape@)
    }

    /// The nodes of the decoded document.
    pub closed spec fn spec_tape(self) -> Seq<NodeView> {
        tape_view(self.tape@)
    }

    /// Decodes a document with the default options, blanking its comments in
    /// place.
    pub fn from_slice(input: &mut [u8]) -> (r: Result<Deserializer, Error>)
        ensures
            decode_result(old(input)@, final(input)@, true, crate::options::DEFAULT_INDENT_SIZE as int, deserializer_outcome(r)),
            r matches Ok(de) ==> tape_well_formed(de.spec_tape()),
    {
        let mut buffers = Buffers::default();
        Deserializer::from_slice_with_buffers_and_options(input, &mut buffers, DecodeOptions::new())
    }

    /// Decodes a document with the given options, blanking its comments in
    /// place.
    pub fn from_slice_with_options(input: &mut [u8], options: DecodeOptions) -> (r: Result<Deserializer, Error>)
        ensures
            decode_result(old(input)@, final(input)@, options.spec_strict(), options.spec_indent_size() as int, deserializer_outcome(r)),
            r matches Ok(de) ==> tape_well_formed(de.spec_tape()),
    {
        let mut buffers = Buffers::default();
        Deserializer::from_slice_with_buffers_and_options(input, &mut buffers, options)
    }

    /// Decodes a document with the default options and the given buffers.
    pub fn from_slice_with_buffers(input: &mut [u8], buffers: &mut Buffers) -> (r: Result<Deserializer, Error>)
        ensures
            decode_outcome(old(input)@, final(input)@, final(buffers).spec_structural_indexes(), true, crate::options::DEFAULT_INDENT_SIZE as int, deserializer_outcome(r)),
            r matches Ok(de) ==> tape_well_formed(de.spec_tape()),
    {
        Deserializer::from_slice_with_buffers_and_options(input, buffers, DecodeOptions::new())
    }

    /// Decodes a document with the given buffers and options, blanking its
    /// comments in place.
    pub fn from_slice_with_buffers_and_options(
        input: &mut [u8],
        buffers: &mut Buffers,
        options: DecodeOptions,
    ) -> (r: Result<Deserializer, Error>)
        ensures
            decode_outcome(old(input)@, final(input)@, final(buffers).spec_structural_indexes(), options.spec_strict(), options.spec_indent_size() as int, deserializer_outcome(r)),
            r matches Ok(de) ==> tape_well_formed(de.spec_tape()),
    {
        let v = decode_document(input, buffers, options)?;
        let tape = tape_of(&v);
        proof {
            law_write_then_read(v@);
        }
        Ok(Deserializer { tape })
    }

    /// Decodes a document into an existing tape, replacing what it held. A
    /// `Tape` always holds exactly one value (its type invariant), so it is
    /// never emptied: on an error it is left as it was.
    pub fn fill_tape(input: &mut [u8], buffers: &mut Buffers, tape: &mut Tape, options: DecodeOptions) -> (r: Result<(), Error>)
        ensures
            decode_outcome(
                old(input)@,
                final(input)@,
                final(buffers).spec_structural_indexes(),
                options.spec_strict(),
                options.spec_indent_size() as int,
                match r {
                    Ok(_) => Ok(tape_value(final(tape).spec_nodes())),
                    Err(e) => Err(e.error),
                },
            ),
            r is Err ==> final(tape).spec_nodes() == old(tape).spec_nodes(),
    {
        let v = decode_document(input, buffers, options)?;
        let nodes = tape_of(&v);
        proof {
            law_write_then_read(v@);
        }
        *tape = Tape { nodes };
        Ok(())
    }

    /// The nodes of the decoded document.
    pub fn tape(&self) -> (t: &Vec<Node>)
        ensures
            tape_view(t@) == self.spec_tape(),
            int_kinds(t@),
    {
        proof {
            use_type_invariant(self);
        }
        &self.tape
    }

    /// The decoded document as a tape.
    pub fn into_tape(self) -> (t: Tape)
        ensures
            t.spec_nodes() == self.spec_tape(),
    {
        proof {
            use_type_invariant(&self);
        }
        Tape { nodes: self.tape }
    }

    /// The decoded document as a value.
    pub fn into_value(self) -> (v: Value)
        ensures
            v@ == tape_value(self.spec_tape()),
            flatten(v@) == self.spec_tape(),
            value_kinds(v),
    {
        self.into_tape().as_value()
    }
}

/// The kind of a decode result, with a deserializer taken by the value its
/// tape holds.
pub open spec fn deserializer_outcome(r: Result<Deserializer, Error>) -> Result<ValueView, ErrorType> {
    match r {
        Ok(de) => Ok(tape_value(de.spec_tape())),
        Err(e) => Err(e.error),
    }
}

/// A parser that carries its [`DecodeOptions`] and reuses its [`Buffers`]
/// across documents.
///
/// The free functions (`to_tape`, `to_owned_value`, ...) are this with the
/// default options and a fresh set of buffers per call.
#[derive(Debug)]
pub struct Parser {
    options: DecodeOptions,
    buffers: Buffers,
}

impl Parser {
    /// The options the parser decodes with.
    pub closed spec fn spec_options(&self) -> DecodeOptions {
        self.options
    }

    /// The structural offsets of the last document the parser saw.
    pub closed spec fn spec_structural_indexes(&self) -> Seq<u32> {
        self.buffers.spec_structural_indexes()
    }

    /// A parser with the default options (strict, two space indentation).
    pub fn new() -> (p: Parser)
        ensures
            p.spec_options().spec_strict(),
            p.spec_options().spec_indent_size() == crate::options::DEFAULT_INDENT_SIZE,
            p.spec_structural_indexes() == Seq::<u32>::empty(),
    {
        Parser::with_options(DecodeOptions::new())
    }

    /// A parser with the given options.
    pub fn with_options(options: DecodeOptions) -> (p: Parser)
        ensures
            p.spec_options() == options,
            p.spec_structural_indexes() == Seq::<u32>::empty(),
    {
        Parser { options, buffers: Buffers::default() }
    }

    /// A parser whose buffers are sized for documents of about `capacity`
    /// bytes, with the default options.
    pub fn with_capacity(capacity: usize) -> (p: Parser)
        ensures
            p.spec_options().spec_strict(),
            p.spec_options().spec_indent_size() == crate::options::DEFAULT_INDENT_SIZE,
            p.spec_structural_indexes() == Seq::<u32>::empty(),
    {
        Parser::with_capacity_and_options(capacity, DecodeOptions::new())
    }

    /// A parser whose buffers are sized for documents of about `capacity`
    /// bytes, with the given options.
    pub fn with_capacity_and_options(capacity: usize, options: DecodeOptions) -> (p: Parser)
        ensures
            p.spec_options() == options,
            p.spec_structural_indexes() == Seq::<u32>::empty(),
    {
        Parser { options, buffers: Buffers::new(capacity) }
    }

    /// The options the parser decodes with.
    pub fn options(&self) -> (o: DecodeOptions)
        ensures
            o == self.spec_options(),
    {
        self.options
    }

    /// Mutable access to the options, for changing them between documents.
    pub fn options_mut(&mut self) -> (o: &mut DecodeOptions)
        ensures
            *o == old(self).spec_options(),
            final(self).spec_options() == *final(o),
            final(self).spec_structural_indexes() == old(self).spec_structural_indexes(),
    {
        &mut self.options
    }

    /// Replaces the options the parser decodes with.
    pub fn set_options(&mut self, options: DecodeOptions)
        ensures
            final(self).spec_options() == options,
            final(self).spec_structural_indexes() == old(self).spec_structural_indexes(),
    {
        self.options = options;
    }

    /// The buffers the parser reuses.
    pub fn buffers(&self) -> (b: &Buffers)
        ensures
            b.spec_structural_indexes() == self.spec_structural_indexes(),
    {
        &self.buffers
    }

    /// Mutable access to the buffers the parser reuses.
    pub fn buffers_mut(&mut self) -> (b: &mut Buffers)
        ensures
            b.spec_structural_indexes() == old(self).spec_structural_indexes(),
            final(self).spec_structural_indexes() == final(b).spec_structural_indexes(),
            final(self).spec_options() == old(self).spec_options(),
    {
        &mut self.buffers
    }

    /// Decodes a document into a [`Deserializer`]; the document's comments
    /// are blanked in place.
    pub fn deserializer(&mut self, input: &mut [u8]) -> (r: Result<Deserializer, Error>)
        ensures
            decode_outcome(old(input)@, final(input)@, final(self).spec_structural_indexes(), old(self).spec_options().spec_strict(), old(self).spec_options().spec_indent_size() as int, deserializer_outcome(r)),
            r matches Ok(de) ==> tape_well_formed(de.spec_tape()),
            final(self).spec_options() == old(self).spec_options(),
    {
        Deserializer::from_slice_with_buffers_and_options(input, &mut self.buffers, self.options)
    }

    /// Decodes a document into a tape; the document's comments are blanked in
    /// place.
    pub fn parse_to_tape(&mut self, input: &mut [u8]) -> (r: Result<Tape, Error>)
        ensures
            decode_outcome(old(input)@, final(input)@, final(self).spec_structural_indexes(), old(self).spec_options().spec_strict(), old(self).spec_options().spec_indent_size() as int, match r {
                Ok(t) => Ok(tape_value(t.spec_nodes())),
                Err(e) => Err(e.error),
            }),
            final(self).spec_options() == old(self).spec_options(),
    {
        match self.deserializer(input) {
            Ok(de) => Ok(de.into_tape()),
            Err(e) => Err(e),
        }
    }

    /// Decodes a document into an existing tape, replacing what it held. A
    /// `Tape` always holds exactly one value (its type invariant), so it is
    /// never emptied: on an error it is left as it was.
    pub fn fill_tape(&mut self, input: &mut [u8], tape: &mut Tape) -> (r: Result<(), Error>)
        ensures
            decode_outcome(old(input)@, final(input)@, final(self).spec_structural_indexes(), old(self).spec_options().spec_strict(), old(self).spec_options().spec_indent_size() as int, match r {
                Ok(_) => Ok(tape_value(final(tape).spec_nodes())),
                Err(e) => Err(e.error),
            }),
            r is Err ==> final(tape).spec_nodes() == old(tape).spec_nodes(),
            final(self).spec_options() == old(self).spec_options(),
    {
        Deserializer::fill_tape(input, &mut self.buffers, tape, self.options)
    }

    /// Decodes a document into a value; the document's comments are blanked
    /// in place.
    pub fn parse_to_borrowed_value(&mut self, input: &mut [u8]) -> (r: Result<BorrowedValue, Error>)
        ensures
            decode_outcome(old(input)@, final(input)@, final(self).spec_structural_indexes(), old(self).spec_options().spec_strict(), old(self).spec_options().spec_indent_size() as int, outcome_of(r)),
            r matches Ok(v) ==> value_kinds(v),
            final(self).spec_options() == old(self).spec_options(),
    {
        decode_document(input, &mut self.buffers, self.options)
    }

    /// Decodes a document into a value; the document's comments are blanked
    /// in place.
    pub fn parse_to_owned_value(&mut self, input: &mut [u8]) -> (r: Result<OwnedValue, Error>)
        ensures
            decode_outcome(old(input)@, final(input)@, final(self).spec_structural_indexes(), old(self).spec_options().spec_strict(), old(self).spec_options().spec_indent_size() as int, outcome_of(r)),
            r matches Ok(v) ==> value_kinds(v),
            final(self).spec_options() == old(self).spec_options(),
    {
        decode_document(input, &mut self.buffers, self.options)
    }
}

impl Default for Parser {
    fn default() -> (p: Parser)
        ensures
            p.spec_options().spec_strict(),
            p.spec_options().spec_indent_size() == crate::options::DEFAULT_INDENT_SIZE,
            p.spec_structural_indexes() == Seq::<u32>::empty(),
    {
        Parser::new()
    }
}

/// Decodes a document into a tape with the default options.
pub fn to_tape(input: &mut [u8]) -> (r: Result<Tape, Error>)
    ensures
        decode_result(old(input)@, final(input)@, true, crate::options::DEFAULT_INDENT_SIZE as int, match r {
            Ok(t) => Ok(tape_value(t.spec_nodes())),
            Err(e) => Err(e.error),
        }),
{
    to_tape_with_options(input, DecodeOptions::new())
}

/// Decodes a document into a tape with the given options.
pub fn to_tape_with_options(input: &mut [u8], options: DecodeOptions) -> (r: Result<Tape, Error>)
    ensures
        decode_result(old(input)@, final(input)@, options.spec_strict(), options.spec_indent_size() as int, match r {
            Ok(t) => Ok(tape_value(t.spec_nodes())),
            Err(e) => Err(e.error),
        }),
{
    let mut parser = Parser::with_options(options);
    parser.parse_to_tape(input)
}

/// Decodes a document into a value with the default options.
pub fn to_borrowed_value(input: &mut [u8]) -> (r: Result<BorrowedValue, Error>)
    ensures
        decode_result(old(input)@, final(input)@, true, crate::options::DEFAULT_INDENT_SIZE as int, outcome_of(r)),
        r matches Ok(v) ==> value_kinds(v),
{
    to_borrowed_value_with_options(input, DecodeOptions::new())
}

/// Decodes a document into a value with the given options.
pub fn to_borrowed_value_with_options(input: &mut [u8], options: DecodeOptions) -> (r: Result<BorrowedValue, Error>)
    ensures
        decode_result(old(input)@, final(input)@, options.spec_strict(), options.spec_indent_size() as int, outcome_of(r)),
        r matches Ok(v) ==> value_kinds(v),
{
    let mut buffers = Buffers::default();
    decode_document(input, &mut buffers, options)
}

/// Decodes a document into a value with the default options and the given
/// buffers.
pub fn to_borrowed_value_with_buffers(input: &mut [u8], buffers: &mut Buffers) -> (r: Result<BorrowedValue, Error>)
    ensures
        decode_outcome(old(input)@, final(input)@, final(buffers).spec_structural_indexes(), true, crate::options::DEFAULT_INDENT_SIZE as int, outcome_of(r)),
        r matches Ok(v) ==> value_kinds(v),
{
    decode_document(input, buffers, DecodeOptions::new())
}

/// Decodes a document into a value with the default options.
pub fn to_owned_value(input: &mut [u8]) -> (r: Result<OwnedValue, Error>)
    ensures
        decode_result(old(input)@, final(input)@, true, crate::options::DEFAULT_INDENT_SIZE as int, outcome_of(r)),
        r matches Ok(v) ==> value_kinds(v),
{
    to_owned_value_with_options(input, DecodeOptions::new())
}

/// Decodes a document into a value with the given options.
pub fn to_owned_value_with_options(input: &mut [u8], options: DecodeOptions) -> (r: Result<OwnedValue, Error>)
    ensures
        decode_result(old(input)@, final(input)@, options.spec_strict(), options.spec_indent_size() as int, outcome_of(r)),
        r matches Ok(v) ==> value_kinds(v),
{
    let mut buffers = Buffers::default();
    decode_document(input, &mut buffers, options)
}

/// Decodes a document into a value with the default options and the given
/// buffers.
pub fn to_owned_value_with_buffers(input: &mut [u8], buffers: &mut Buffers) -> (r: Result<OwnedValue, Error>)
    ensures
        decode_outcome(old(input)@, final(input)@, final(buffers).spec_structural_indexes(), true, crate::options::DEFAULT_INDENT_SIZE as int, outcome_of(r)),
        r matches Ok(v) ==> value_kinds(v),
{
    decode_document(input, buffers, DecodeOptions::new())
}

} // verus!
