//! The program tree that a block document converts to.
use vstd::prelude::*;
use crate::named_map::NamedMap;

verus! {

/// A converted document: one statement body per top-level chain of blocks.
#[derive(Debug)]
pub struct Program {
    pub groups: Vec<StatementBody>,
}

/// An ordered sequence of blocks, first to run first.
#[derive(Debug, PartialEq)]
pub struct StatementBody {
    pub blocks: Vec<Block>,
}

/// One block. A converted block has `fields` (`statements`) set to `None`
/// when its element has no `field` (`statement`) child, never to an empty map.
#[derive(Debug, PartialEq)]
pub struct Block {
    pub block_type: String,
    pub id: String,
    pub fields: Option<NamedMap<FieldValue>>,
    pub statements: Option<NamedMap<StatementBody>>,
}

/// The value of a field: literal text, or (not produced by the converter)
/// a block that computes the value.
#[derive(Debug, PartialEq)]
pub enum FieldValue {
    SimpleField(String),
    ExpressionField(Block),
}

/// The contents of an optional map, with `None` read as the empty map.
pub open spec fn map_or_empty<V>(m: Option<NamedMap<V>>) -> Map<Seq<char>, V> {
    match m {
        Some(m) => m@,
        None => Map::empty(),
    }
}

/// Whether an optional map holds a value for `name`.
pub open spec fn has_key<V>(m: Option<NamedMap<V>>, name: Seq<char>) -> bool {
    m matches Some(m) && m@.contains_key(name)
}

impl Program {
    /// A program with no groups.
    pub fn new() -> (r: Self)
        ensures
            r.groups@.len() == 0,
    {
        Program { groups: Vec::new() }
    }
}

impl StatementBody {
    /// A body with no blocks.
    pub fn new() -> (r: Self)
        ensures
            r.blocks@.len() == 0,
    {
        StatementBody { blocks: Vec::new() }
    }
}

impl Block {
    /// A block with empty type and id, and neither fields nor statements.
    pub fn new() -> (r: Self)
        ensures
            r.block_type@.len() == 0,
            r.id@.len() == 0,
            r.fields is None,
            r.statements is None,
    {
        Block { block_type: String::new(), id: String::new(), fields: None, statements: None }
    }

    /// Sets field `name` to `value`, creating the field map if there was none.
    pub fn add_field(&mut self, name: String, value: FieldValue)
        ensures
            final(self).fields matches Some(m) && m@ == map_or_empty(old(self).fields).insert(name@, value),
            final(self).block_type == old(self).block_type,
            final(self).id == old(self).id,
            final(self).statements == old(self).statements,
    {
        let mut fields = match self.fields.take() {
            Some(f) => f,
            None => NamedMap::new(),
        };
        fields.insert(name, value);
        self.fields = Some(fields);
    }

    /// The value of field `name`, if the block has that field.
    pub fn get_field(&self, name: &str) -> (r: Option<&FieldValue>)
        ensures
            r matches Some(v) ==> has_key(self.fields, name@) && *v == self.fields->0@[name@],
            r is None ==> !has_key(self.fields, name@),
    {
        match &self.fields {
            Some(fields) => fields.get(name),
            None => None,
        }
    }

    /// Sets statement slot `name` to `body`, creating the statement map if
    /// there was none.
    pub fn add_statement_body(&mut self, name: String, body: StatementBody)
        ensures
            final(self).statements matches Some(m) && m@ == map_or_empty(old(self).statements).insert(name@, body),
            final(self).block_type == old(self).block_type,
            final(self).id == old(self).id,
            final(self).fields == old(self).fields,
    {
        let mut statements = match self.statements.take() {
            Some(s) => s,
            None => NamedMap::new(),
        };
        statements.insert(name, body);
        self.statements = Some(statements);
    }

    /// The body in statement slot `name`, if the block has that slot.
    pub fn get_statement(&self, name: &str) -> (r: Option<&StatementBody>)
        ensures
            r matches Some(b) ==> has_key(self.statements, name@) && *b == self.statements->0@[name@],
            r is None ==> !has_key(self.statements, name@),
    {
        match &self.statements {
            Some(statements) => statements.get(name),
            None => None,
        }
    }
}

} // verus!
