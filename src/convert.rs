//! Conversion of a block document into a `Program`.
//!
//! The meaning of a conversion is stated by spec functions over the input
//! tree: `sequence_error` and friends say which error, if any, a conversion
//! meets first in document order; `block_built`, `seq_built` and `body_built`
//! say which value a successful conversion returns.
use vstd::prelude::*;
use crate::tree::{XmlElement, XmlNode, XmlDocument, is_element_named, find_named, attribute_value, first_child_element, next_block, chain, lemma_find_named, lemma_first_child_smaller, lemma_next_block_smaller, lemma_child_smaller, name_is, get_attribute, get_first_child_element, get_next_block_element};
use crate::named_map::NamedMap;
use crate::ast::{Program, StatementBody, Block, FieldValue, map_or_empty};

verus! {

broadcast use vstd::std_specs::vec::group_vec_axioms;

/// Why a conversion failed.
#[derive(Debug, Clone, Copy, PartialEq, Eq, Structural)]
pub enum ConvertError {
    /// The document has no top-level `xml` element.
    Structure,
    /// A `field` or `statement` element has no `name` attribute.
    Attribute,
    /// A `field` element has no content.
    MalformedInput,
    /// A `field` element holds something other than text first (an
    /// expression block); such fields are not supported.
    UnsupportedFeature,
}

// ---------------------------------------------------------------------------
// What a field holds

/// The text of a field element: its first child, which must be a text node.
pub open spec fn field_value_of(el: XmlElement) -> Result<Seq<char>, ConvertError> {
    if el.children@.len() == 0 {
        Err(ConvertError::MalformedInput)
    } else {
        match el.children@[0] {
            XmlNode::Text(t) => Ok(t@),
            _ => Err(ConvertError::UnsupportedFeature),
        }
    }
}

// ---------------------------------------------------------------------------
// Which error a conversion meets first

/// The first error met in a child element of a block: a `statement` or
/// `field` without a name, an error in a statement slot's chain, or a bad
/// field value. Other children are ignored.
pub open spec fn slot_error(c: XmlElement) -> Option<ConvertError>
    decreases c, 0int,
    via slot_error_decreases
{
    if c.name@ == "statement"@ {
        if attribute_value(c, "name"@) is None {
            Some(ConvertError::Attribute)
        } else {
            match first_child_element(c) {
                Some(f) => sequence_error(f),
                None => None,
            }
        }
    } else if c.name@ == "field"@ {
        if attribute_value(c, "name"@) is None {
            Some(ConvertError::Attribute)
        } else {
            match field_value_of(c) {
                Err(e) => Some(e),
                Ok(_) => None,
            }
        }
    } else {
        None
    }
}

/// The first error met in the children of `el` from index `i` on.
pub open spec fn children_error(el: XmlElement, i: int) -> Option<ConvertError>
    decreases el, el.children@.len() - i,
{
    if i < 0 || i >= el.children@.len() {
        None
    } else {
        let e = if el.children@[i] is Element {
            slot_error(el.children@[i]->Element_0)
        } else {
            None
        };
        match e {
            Some(e) => Some(e),
            None => children_error(el, i + 1),
        }
    }
}

/// The first error met while converting the chain that starts at `el`.
pub open spec fn sequence_error(el: XmlElement) -> Option<ConvertError>
    decreases el, el.children@.len() + 1,
    via sequence_error_decreases
{
    match children_error(el, 0) {
        Some(e) => Some(e),
        None => match next_block(el) {
            Some(n) => sequence_error(n),
            None => None,
        },
    }
}

#[via_fn]
proof fn slot_error_decreases(c: XmlElement) {
    lemma_first_child_smaller(c);
}

#[via_fn]
proof fn sequence_error_decreases(el: XmlElement) {
    lemma_next_block_smaller(el);
}

// ---------------------------------------------------------------------------
// What a successful conversion returns

pub open spec fn attribute_or_empty(el: XmlElement, name: Seq<char>) -> Seq<char> {
    match attribute_value(el, name) {
        Some(v) => v,
        None => Seq::empty(),
    }
}

/// Whether a child element named `kind` stands before index `i`.
pub open spec fn kind_before(el: XmlElement, kind: Seq<char>, i: int) -> bool {
    exists|j: int| 0 <= j < i && j < el.children@.len() && is_element_named(#[trigger] el.children@[j], kind)
}

/// Index of the last child before index `i` that is an element named `kind`
/// whose `name` attribute is `name`: the one whose value a block keeps.
pub open spec fn last_slot(el: XmlElement, kind: Seq<char>, name: Seq<char>, i: int) -> Option<int>
    decreases i,
{
    if i <= 0 || i > el.children@.len() {
        None
    } else if is_element_named(el.children@[i - 1], kind) && attribute_value(
        el.children@[i - 1]->Element_0,
        "name"@,
    ) == Some(name) {
        Some(i - 1)
    } else {
        last_slot(el, kind, name, i - 1)
    }
}

/// The field element that gives field `k` its value, among the first `n` children.
pub open spec fn field_slot(el: XmlElement, k: Seq<char>, n: int) -> XmlElement {
    el.children@[last_slot(el, "field"@, k, n)->0]->Element_0
}

/// The fields of a block converted from the first `n` children of `el`.
pub open spec fn fields_built(f: Option<NamedMap<FieldValue>>, el: XmlElement, n: int) -> bool {
    match f {
        None => !kind_before(el, "field"@, n),
        Some(m) => {
            &&& kind_before(el, "field"@, n)
            &&& forall|k: Seq<char>| #[trigger] m@.contains_key(k) <==> last_slot(el, "field"@, k, n) is Some
            &&& forall|k: Seq<char>| #[trigger] m@.contains_key(k) ==> (m@[k] matches FieldValue::SimpleField(s)
                && field_value_of(field_slot(el, k, n)) == Ok::<Seq<char>, ConvertError>(s@))
        },
    }
}

/// The statement slots of a block converted from the first `n` children of `el`.
pub open spec fn statements_built(s: Option<NamedMap<StatementBody>>, el: XmlElement, n: int) -> bool
    decreases el, 0int,
{
    match s {
        None => !kind_before(el, "statement"@, n),
        Some(m) => {
            &&& kind_before(el, "statement"@, n)
            &&& forall|k: Seq<char>| #[trigger] m@.contains_key(k) <==> last_slot(el, "statement"@, k, n) is Some
            &&& forall|k: Seq<char>| #[trigger] m@.contains_key(k) ==> (last_slot(el, "statement"@, k, n) matches Some(j)
                && 0 <= j < el.children@.len() && el.children@[j] is Element
                && body_built(m@[k], el.children@[j]->Element_0))
        },
    }
}

/// The block converted from element `el`.
pub open spec fn block_built(b: Block, el: XmlElement) -> bool
    decreases el, 1int,
{
    &&& b.block_type@ == attribute_or_empty(el, "type"@)
    &&& b.id@ == attribute_or_empty(el, "id"@)
    &&& fields_built(b.fields, el, el.children@.len() as int)
    &&& statements_built(b.statements, el, el.children@.len() as int)
}

/// The blocks converted from the chain that starts at `el`, in chain order.
pub open spec fn seq_built(bs: Seq<Block>, el: XmlElement) -> bool
    decreases el, 2int,
    via seq_built_decreases
{
    &&& bs.len() >= 1
    &&& block_built(bs[0], el)
    &&& match next_block(el) {
        Some(n) => seq_built(bs.drop_first(), n),
        None => bs.len() == 1,
    }
}

/// The body converted from statement element `st`: the chain that starts at
/// its first child element, or no block if it has none.
pub open spec fn body_built(body: StatementBody, st: XmlElement) -> bool
    decreases st, 3int,
    via body_built_decreases
{
    match first_child_element(st) {
        Some(f) => seq_built(body.blocks@, f),
        None => body.blocks@.len() == 0,
    }
}

#[via_fn]
proof fn seq_built_decreases(bs: Seq<Block>, el: XmlElement) {
    lemma_next_block_smaller(el);
}

#[via_fn]
proof fn body_built_decreases(body: StatementBody, st: XmlElement) {
    lemma_first_child_smaller(st);
}

// ---------------------------------------------------------------------------
// The whole document

/// The document's root: its first top-level element named `xml`.
pub open spec fn root_element(doc: XmlDocument) -> Option<XmlElement> {
    match find_named(doc.children@, "xml"@, 0) {
        Some(i) => Some(doc.children@[i]->Element_0),
        None => None,
    }
}

/// The `block` elements among the first `i` nodes of `cs`, in document order.
pub open spec fn top_blocks(cs: Seq<XmlNode>, i: int) -> Seq<XmlElement>
    decreases i,
{
    if i <= 0 || i > cs.len() {
        Seq::empty()
    } else if is_element_named(cs[i - 1], "block"@) {
        top_blocks(cs, i - 1).push(cs[i - 1]->Element_0)
    } else {
        top_blocks(cs, i - 1)
    }
}

/// The chains that a program is built from: the `block` children of the root.
pub open spec fn program_chains(root: XmlElement) -> Seq<XmlElement> {
    top_blocks(root.children@, root.children@.len() as int)
}

/// The first error met while converting the chains `tops` in order.
pub open spec fn first_error(tops: Seq<XmlElement>) -> Option<ConvertError>
    decreases tops.len(),
{
    if tops.len() == 0 {
        None
    } else {
        match first_error(tops.drop_last()) {
            Some(e) => Some(e),
            None => sequence_error(tops.last()),
        }
    }
}

/// Whether `groups` are the bodies converted from the chains `tops`, one for one.
pub open spec fn groups_built(groups: Seq<StatementBody>, tops: Seq<XmlElement>) -> bool {
    &&& groups.len() == tops.len()
    &&& forall|i: int| 0 <= i < tops.len() ==> seq_built((#[trigger] groups[i]).blocks@, tops[i])
}

proof fn lemma_first_error_kept(cs: Seq<XmlNode>, i: int, n: int)
    requires
        0 <= i <= n <= cs.len(),
        first_error(top_blocks(cs, i)) is Some,
    ensures
        first_error(top_blocks(cs, n)) == first_error(top_blocks(cs, i)),
    decreases n - i,
{
    if i < n {
        lemma_first_error_kept(cs, i, n - 1);
        let t = top_blocks(cs, n);
        if is_element_named(cs[n - 1], "block"@) {
            assert(t.drop_last() =~= top_blocks(cs, n - 1));
        }
    }
}

// ---------------------------------------------------------------------------
// One child of a block at a time

proof fn lemma_fields_kept(f: Option<NamedMap<FieldValue>>, el: XmlElement, i: int)
    requires
        0 <= i < el.children@.len(),
        !is_element_named(el.children@[i], "field"@),
        fields_built(f, el, i),
    ensures
        fields_built(f, el, i + 1),
{
    assert(kind_before(el, "field"@, i + 1) == kind_before(el, "field"@, i));
    assert forall|k: Seq<char>| last_slot(el, "field"@, k, i + 1) == last_slot(el, "field"@, k, i) by {}
}

proof fn lemma_statements_kept(s: Option<NamedMap<StatementBody>>, el: XmlElement, i: int)
    requires
        0 <= i < el.children@.len(),
        !is_element_named(el.children@[i], "statement"@),
        statements_built(s, el, i),
    ensures
        statements_built(s, el, i + 1),
{
    assert(kind_before(el, "statement"@, i + 1) == kind_before(el, "statement"@, i));
    assert forall|k: Seq<char>| last_slot(el, "statement"@, k, i + 1) == last_slot(el, "statement"@, k, i) by {}
}

pub proof fn lemma_last_slot(el: XmlElement, kind: Seq<char>, k: Seq<char>, i: int)
    ensures
        last_slot(el, kind, k, i) matches Some(j) ==> {
            &&& 0 <= j < i
            &&& j < el.children@.len()
            &&& is_element_named(el.children@[j], kind)
            &&& attribute_value(el.children@[j]->Element_0, "name"@) == Some(k)
        },
    decreases i,
{
    if 0 < i <= el.children@.len() {
        lemma_last_slot(el, kind, k, i - 1);
    }
}

proof fn lemma_fields_added(
    f: Option<NamedMap<FieldValue>>,
    m: NamedMap<FieldValue>,
    el: XmlElement,
    i: int,
    name: Seq<char>,
    v: FieldValue,
)
    requires
        0 <= i < el.children@.len(),
        is_element_named(el.children@[i], "field"@),
        attribute_value(el.children@[i]->Element_0, "name"@) == Some(name),
        v matches FieldValue::SimpleField(s) && field_value_of(el.children@[i]->Element_0)
            == Ok::<Seq<char>, ConvertError>(s@),
        fields_built(f, el, i),
        m@ == map_or_empty(f).insert(name, v),
    ensures
        fields_built(Some(m), el, i + 1),
{
    assert(kind_before(el, "field"@, i + 1)) by {
        assert(is_element_named(el.children@[i], "field"@));
    }
    assert forall|k: Seq<char>| #[trigger] m@.contains_key(k) <==> last_slot(el, "field"@, k, i + 1) is Some by {
        lemma_last_slot(el, "field"@, k, i);
        if k != name && f is None {
            if let Some(j) = last_slot(el, "field"@, k, i) {
                assert(is_element_named(el.children@[j], "field"@));
            }
        }
    }
    assert forall|k: Seq<char>| #[trigger] m@.contains_key(k) implies (m@[k] matches FieldValue::SimpleField(s)
        && field_value_of(field_slot(el, k, i + 1)) == Ok::<Seq<char>, ConvertError>(s@)) by {
        if k != name {
            assert(f is Some);
            assert(field_slot(el, k, i + 1) == field_slot(el, k, i));
        }
    }
}

proof fn lemma_statements_added(
    s: Option<NamedMap<StatementBody>>,
    m: NamedMap<StatementBody>,
    el: XmlElement,
    i: int,
    name: Seq<char>,
    body: StatementBody,
)
    requires
        0 <= i < el.children@.len(),
        is_element_named(el.children@[i], "statement"@),
        attribute_value(el.children@[i]->Element_0, "name"@) == Some(name),
        body_built(body, el.children@[i]->Element_0),
        statements_built(s, el, i),
        m@ == map_or_empty(s).insert(name, body),
    ensures
        statements_built(Some(m), el, i + 1),
{
    assert(kind_before(el, "statement"@, i + 1)) by {
        assert(is_element_named(el.children@[i], "statement"@));
    }
    assert forall|k: Seq<char>| #[trigger] m@.contains_key(k) <==> last_slot(el, "statement"@, k, i + 1) is Some by {
        lemma_last_slot(el, "statement"@, k, i);
        if k != name && s is None {
            if let Some(j) = last_slot(el, "statement"@, k, i) {
                assert(is_element_named(el.children@[j], "statement"@));
            }
        }
    }
    assert forall|k: Seq<char>| #[trigger] m@.contains_key(k) implies (last_slot(el, "statement"@, k, i + 1) matches Some(j)
        && 0 <= j < el.children@.len() && el.children@[j] is Element
        && body_built(m@[k], el.children@[j]->Element_0)) by {
        if k != name {
            assert(s is Some);
            assert(last_slot(el, "statement"@, k, i + 1) == last_slot(el, "statement"@, k, i));
        }
    }
}

// ---------------------------------------------------------------------------
// Conversion

/// The value of a field element: its first child, which must be text.
/// No child at all is `MalformedInput`; an element (an expression block) or
/// any other node first is `UnsupportedFeature`.
pub fn make_field_value(field_el: &XmlElement) -> (r: Result<FieldValue, ConvertError>)
    ensures
        r matches Ok(v) ==> (v matches FieldValue::SimpleField(s) && field_value_of(*field_el)
            == Ok::<Seq<char>, ConvertError>(s@)),
        r matches Err(e) ==> field_value_of(*field_el) == Err::<Seq<char>, ConvertError>(e),
{
    if field_el.children.len() == 0 {
        return Err(ConvertError::MalformedInput);
    }
    match &field_el.children[0] {
        XmlNode::Text(t) => Ok(FieldValue::SimpleField(t.clone())),
        _ => Err(ConvertError::UnsupportedFeature),
    }
}

/// Converts one `block` element: its `type` and `id` attributes (empty when
/// missing), then its `field` and `statement` children in document order.
/// A later field or slot with the same name replaces an earlier one; other
/// children, `next` among them, are ignored.
pub fn make_block(block_el: &XmlElement) -> (r: Result<Block, ConvertError>)
    ensures
        r matches Ok(b) ==> children_error(*block_el, 0) is None && block_built(b, *block_el),
        r matches Err(e) ==> children_error(*block_el, 0) == Some(e),
    decreases *block_el, 1int,
{
    let mut block = Block::new();
    match get_attribute(block_el, "type") {
        Some(t) => block.block_type = t,
        None => {},
    }
    match get_attribute(block_el, "id") {
        Some(id) => block.id = id,
        None => {},
    }
    let ghost el = *block_el;
    let mut i: usize = 0;
    while i < block_el.children.len()
        invariant
            el == *block_el,
            i <= el.children@.len(),
            block.block_type@ == attribute_or_empty(el, "type"@),
            block.id@ == attribute_or_empty(el, "id"@),
            fields_built(block.fields, el, i as int),
            statements_built(block.statements, el, i as int),
            children_error(el, 0) == children_error(el, i as int),
        decreases el.children@.len() - i,
    {
        let ghost old_fields = block.fields;
        let ghost old_statements = block.statements;
        if let XmlNode::Element(child_el) = &block_el.children[i] {
            if name_is(&child_el.name, "statement") {
                let name = match get_attribute(child_el, "name") {
                    Some(n) => n,
                    None => return Err(ConvertError::Attribute),
                };
                let body = match get_first_child_element(child_el) {
                    Some(first) => {
                        proof {
                            lemma_child_smaller(el, i as int);
                            lemma_first_child_smaller(*child_el);
                        }
                        match make_statement_body(first) {
                            Ok(b) => b,
                            Err(e) => {
                                proof {
                                    assert(slot_error(*child_el) == Some(e));
                                    assert(children_error(el, i as int) == Some(e));
                                }
                                return Err(e);
                            },
                        }
                    },
                    None => StatementBody::new(),
                };
                let ghost gbody = body;
                block.add_statement_body(name, body);
                proof {
                    lemma_statements_added(old_statements, block.statements->0, el, i as int, name@, gbody);
                }
            } else if name_is(&child_el.name, "field") {
                let name = match get_attribute(child_el, "name") {
                    Some(n) => n,
                    None => return Err(ConvertError::Attribute),
                };
                let value = match make_field_value(child_el) {
                    Ok(v) => v,
                    Err(e) => return Err(e),
                };
                let ghost gname = name@;
                let ghost gvalue = value;
                block.add_field(name, value);
                proof {
                    lemma_fields_added(old_fields, block.fields->0, el, i as int, gname, gvalue);
                }
            }
        }
        proof {
            reveal_strlit("statement");
            reveal_strlit("field");
            assert("statement"@ != "field"@) by {
                assert("statement"@.len() != "field"@.len());
            }
            let c = el.children@[i as int];
            if !is_element_named(c, "field"@) {
                lemma_fields_kept(block.fields, el, i as int);
            }
            if !is_element_named(c, "statement"@) {
                lemma_statements_kept(block.statements, el, i as int);
            }
            if c is Element {
                assert(slot_error(c->Element_0) is None);
            }
            assert(children_error(el, i as int) == children_error(el, i + 1));
        }
        i = i + 1;
    }
    Ok(block)
}

/// The document's root `xml` element.
fn find_root(doc: &XmlDocument) -> (r: Option<&XmlElement>)
    ensures
        r matches Some(e) ==> root_element(*doc) == Some(*e),
        r is None ==> root_element(*doc) is None,
{
    proof {
        lemma_find_named(doc.children@, "xml"@, 0);
    }
    let mut k: usize = 0;
    while k < doc.children.len()
        invariant
            find_named(doc.children@, "xml"@, 0) == find_named(doc.children@, "xml"@, k as int),
        decreases doc.children.len() - k,
    {
        if let XmlNode::Element(el) = &doc.children[k] {
            if name_is(&el.name, "xml") {
                return Some(el);
            }
        }
        k = k + 1;
    }
    None
}

/// Converts a parsed document: one body for each top-level chain, that is for
/// each `block` child of the root `xml` element, in document order. Other
/// children of the root are ignored. Fails with `Structure` when there is no
/// root `xml` element, and otherwise with the first error met, in document order.
pub fn program_from_xml(doc: &XmlDocument) -> (r: Result<Program, ConvertError>)
    ensures
        root_element(*doc) is None ==> r == Err::<Program, ConvertError>(ConvertError::Structure),
        root_element(*doc) matches Some(root) ==> match r {
            Ok(p) => first_error(program_chains(root)) is None && groups_built(p.groups@, program_chains(root)),
            Err(e) => first_error(program_chains(root)) == Some(e),
        },
{
    let root = match find_root(doc) {
        Some(root) => root,
        None => return Err(ConvertError::Structure),
    };
    let ghost cs = root.children@;
    let mut program = Program::new();
    let mut i: usize = 0;
    while i < root.children.len()
        invariant
            cs == root.children@,
            i <= cs.len(),
            root_element(*doc) == Some(*root),
            first_error(top_blocks(cs, i as int)) is None,
            groups_built(program.groups@, top_blocks(cs, i as int)),
        decreases cs.len() - i,
    {
        if let XmlNode::Element(el) = &root.children[i] {
            if name_is(&el.name, "block") {
                let ghost tops = top_blocks(cs, i + 1);
                assert(tops.drop_last() =~= top_blocks(cs, i as int));
                match make_statement_body(el) {
                    Ok(body) => {
                        program.groups.push(body);
                    },
                    Err(e) => {
                        proof {
                            lemma_first_error_kept(cs, i + 1, cs.len() as int);
                        }
                        return Err(e);
                    },
                }
            }
        }
        i = i + 1;
    }
    Ok(program)
}

/// Converts the chain that starts at `block_el` and appends its blocks to `blocks`.
fn collect_chain(block_el: &XmlElement, blocks: &mut Vec<Block>) -> (r: Result<(), ConvertError>)
    ensures
        r is Ok ==> {
            &&& sequence_error(*block_el) is None
            &&& final(blocks)@.len() > old(blocks)@.len()
            &&& final(blocks)@.subrange(0, old(blocks)@.len() as int) == old(blocks)@
            &&& seq_built(final(blocks)@.subrange(old(blocks)@.len() as int, final(blocks)@.len() as int), *block_el)
        },
        r matches Err(e) ==> sequence_error(*block_el) == Some(e),
    decreases *block_el, 2int,
{
    let ghost start = blocks@;
    let block = match make_block(block_el) {
        Ok(b) => b,
        Err(e) => return Err(e),
    };
    blocks.push(block);
    let ghost pushed = blocks@;
    proof {
        lemma_next_block_smaller(*block_el);
    }
    match get_next_block_element(block_el) {
        Some(next_el) => {
            match collect_chain(next_el, blocks) {
                Ok(()) => {
                    proof {
                        let f = blocks@;
                        let tail = f.subrange(start.len() as int, f.len() as int);
                        assert(pushed.subrange(0, start.len() as int) =~= start);
                        assert(f.subrange(0, pushed.len() as int) == pushed);
                        assert(f.subrange(0, start.len() as int) =~= start) by {
                            assert forall|j: int| 0 <= j < start.len() implies f[j] == start[j] by {
                                assert(f.subrange(0, pushed.len() as int)[j] == pushed[j]);
                            }
                        }
                        assert(tail[0] == f.subrange(0, pushed.len() as int)[start.len() as int]);
                        assert(tail.drop_first() =~= f.subrange(pushed.len() as int, f.len() as int));
                    }
                    Ok(())
                },
                Err(e) => Err(e),
            }
        },
        None => {
            proof {
                let tail = blocks@.subrange(start.len() as int, blocks@.len() as int);
                assert(blocks@.subrange(0, start.len() as int) =~= start);
                assert(tail =~= seq![block]);
            }
            Ok(())
        },
    }
}

/// Converts the chain of blocks that starts at `first_block`, following
/// `next` links, into a body in chain order.
pub fn make_statement_body(first_block: &XmlElement) -> (r: Result<StatementBody, ConvertError>)
    ensures
        r matches Ok(body) ==> sequence_error(*first_block) is None && seq_built(body.blocks@, *first_block),
        r matches Err(e) ==> sequence_error(*first_block) == Some(e),
    decreases *first_block, 3int,
{
    let mut blocks: Vec<Block> = Vec::new();
    match collect_chain(first_block, &mut blocks) {
        Ok(()) => {
            proof {
                assert(blocks@.subrange(0, blocks@.len() as int) =~= blocks@);
            }
            Ok(StatementBody { blocks })
        },
        Err(e) => Err(e),
    }
}

} // verus!
