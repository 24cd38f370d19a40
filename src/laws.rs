//! Facts about the conversion as a whole, proved from the specification of
//! its parts.
use vstd::prelude::*;
use crate::tree::{XmlElement, is_element_named, first_child_element, next_block, chain, attribute_value, lemma_next_block_smaller};
use crate::ast::{Block, StatementBody, has_key};
use crate::convert::{
    slot_error, children_error, kind_before, last_slot, block_built, seq_built, body_built,
};

verus! {

/// The statement element that fills slot `k` of a block converted from `el`.
pub open spec fn statement_slot(el: XmlElement, k: Seq<char>) -> XmlElement {
    el.children@[last_slot(el, "statement"@, k, el.children@.len() as int)->0]->Element_0
}

/// Converting a chain of blocks linked by `next` gives one block per link,
/// in chain order: the i-th block is the one converted from the i-th link.
pub proof fn law_sequence_follows_chain(blocks: Seq<Block>, first: XmlElement)
    requires
        seq_built(blocks, first),
    ensures
        blocks.len() == chain(first).len(),
        forall|i: int| 0 <= i < blocks.len() ==> block_built(#[trigger] blocks[i], chain(first)[i]),
    decreases first,
{
    lemma_next_block_smaller(first);
    match next_block(first) {
        Some(n) => {
            law_sequence_follows_chain(blocks.drop_first(), n);
            assert forall|i: int| 0 <= i < blocks.len() implies block_built(#[trigger] blocks[i], chain(first)[i]) by {
                if i > 0 {
                    assert(blocks[i] == blocks.drop_first()[i - 1]);
                }
            }
        },
        None => {},
    }
}

proof fn lemma_no_child_error(el: XmlElement, i: int)
    requires
        0 <= i,
        children_error(el, i) is None,
    ensures
        forall|j: int| i <= j < el.children@.len() && el.children@[j] is Element ==> slot_error(
            #[trigger] el.children@[j]->Element_0,
        ) is None,
    decreases el.children@.len() - i,
{
    if i < el.children@.len() {
        lemma_no_child_error(el, i + 1);
    }
}

proof fn lemma_last_slot_found(el: XmlElement, kind: Seq<char>, k: Seq<char>, j: int, i: int)
    requires
        0 <= j < i <= el.children@.len(),
        is_element_named(el.children@[j], kind),
        attribute_value(el.children@[j]->Element_0, "name"@) == Some(k),
    ensures
        last_slot(el, kind, k, i) is Some,
    decreases i,
{
    if j < i - 1 {
        lemma_last_slot_found(el, kind, k, j, i - 1);
    }
}

/// A block converted without error has a field map exactly when it has a
/// `field` child, and a statement map exactly when it has a `statement`
/// child; a map that is present is never empty.
pub proof fn law_absent_not_empty(b: Block, el: XmlElement)
    requires
        children_error(el, 0) is None,
        block_built(b, el),
    ensures
        b.fields is None <==> !kind_before(el, "field"@, el.children@.len() as int),
        b.statements is None <==> !kind_before(el, "statement"@, el.children@.len() as int),
        b.fields matches Some(m) ==> exists|k: Seq<char>| m@.contains_key(k),
        b.statements matches Some(m) ==> exists|k: Seq<char>| m@.contains_key(k),
{
    reveal_strlit("statement");
    reveal_strlit("field");
    assert("statement"@ != "field"@) by {
        assert("statement"@.len() != "field"@.len());
    }
    let n = el.children@.len() as int;
    lemma_no_child_error(el, 0);
    if let Some(m) = b.fields {
        let j = choose|j: int| 0 <= j < n && j < el.children@.len() && is_element_named(#[trigger] el.children@[j], "field"@);
        assert(slot_error(el.children@[j]->Element_0) is None);
        let k = attribute_value(el.children@[j]->Element_0, "name"@)->0;
        lemma_last_slot_found(el, "field"@, k, j, n);
        assert(m@.contains_key(k));
    }
    if let Some(m) = b.statements {
        let j = choose|j: int| 0 <= j < n && j < el.children@.len() && is_element_named(#[trigger] el.children@[j], "statement"@);
        assert(slot_error(el.children@[j]->Element_0) is None);
        let k = attribute_value(el.children@[j]->Element_0, "name"@)->0;
        lemma_last_slot_found(el, "statement"@, k, j, n);
        assert(m@.contains_key(k));
    }
}

/// The body in statement slot `k` holds exactly as many blocks as the chain
/// that starts at the slot's first child element (none when it has no child
/// element), however deep in the document the slot stands.
pub proof fn law_slot_follows_chain(b: Block, el: XmlElement, k: Seq<char>)
    requires
        block_built(b, el),
        has_key(b.statements, k),
    ensures
        match first_child_element(statement_slot(el, k)) {
            Some(f) => b.statements->0@[k].blocks@.len() == chain(f).len(),
            None => b.statements->0@[k].blocks@.len() == 0,
        },
{
    let body = b.statements->0@[k];
    assert(body_built(body, statement_slot(el, k)));
    if let Some(f) = first_child_element(statement_slot(el, k)) {
        law_sequence_follows_chain(body.blocks@, f);
    }
}

/// A named statement slot with no child element converts, without error,
/// to a body with no block.
pub proof fn law_empty_slot(st: XmlElement, body: StatementBody)
    requires
        st.name@ == "statement"@,
        attribute_value(st, "name"@) is Some,
        first_child_element(st) is None,
    ensures
        slot_error(st) is None,
        body_built(body, st) <==> body.blocks@.len() == 0,
{
}

} // verus!
