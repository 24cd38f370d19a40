//! Conversion of block-editor documents (an XML tree of `block`, `field`,
//! `statement` and `next` elements) into a typed program tree.
//!
//! The document arrives already parsed, as an `XmlDocument`; `convert` walks
//! it and builds a `Program`.

pub mod tree;
pub mod named_map;
pub mod ast;
pub mod convert;
pub mod laws;

pub use tree::{XmlAttribute, XmlElement, XmlNode, XmlDocument, get_attribute, get_first_child_element, get_next_block_element};
pub use named_map::NamedMap;
pub use ast::{Program, StatementBody, Block, FieldValue};
pub use convert::{ConvertError, make_field_value, make_block, make_statement_body, program_from_xml};
