use blockly_ast::{
    get_attribute, get_first_child_element, get_next_block_element, make_block, make_field_value,
    make_statement_body, program_from_xml, Block, ConvertError, FieldValue, NamedMap, Program,
    StatementBody, XmlAttribute, XmlDocument, XmlElement, XmlNode,
};
use sxd_document::dom::{ChildOfElement, ChildOfRoot, Element};
use sxd_document::parser;

fn element_of(el: Element) -> XmlElement {
    let attributes = el
        .attributes()
        .iter()
        .map(|a| XmlAttribute {
            name: a.name().local_part().to_string(),
            value: a.value().to_string(),
        })
        .collect();
    let children = el
        .children()
        .iter()
        .map(|c| match c {
            ChildOfElement::Element(e) => XmlNode::Element(element_of(*e)),
            ChildOfElement::Text(t) => XmlNode::Text(t.text().to_string()),
            _ => XmlNode::Other,
        })
        .collect();
    XmlElement { name: el.name().local_part().to_string(), attributes, children }
}

fn document_of(xml: &str) -> XmlDocument {
    let package = parser::parse(xml).expect("Failed to parse XML!");
    let document = package.as_document();
    let children = document
        .root()
        .children()
        .iter()
        .map(|c| match c {
            ChildOfRoot::Element(e) => XmlNode::Element(element_of(*e)),
            _ => XmlNode::Other,
        })
        .collect();
    XmlDocument { children }
}

fn first_element(doc: XmlDocument) -> Option<XmlElement> {
    for child in doc.children {
        if let XmlNode::Element(el) = child {
            return Some(el);
        }
    }
    None
}

fn text(s: &str) -> XmlNode {
    XmlNode::Text(s.to_string())
}

fn attr(name: &str, value: &str) -> XmlAttribute {
    XmlAttribute { name: name.to_string(), value: value.to_string() }
}

fn elem(name: &str, attributes: Vec<XmlAttribute>, children: Vec<XmlNode>) -> XmlElement {
    XmlElement { name: name.to_string(), attributes, children }
}

fn node(e: XmlElement) -> XmlNode {
    XmlNode::Element(e)
}

fn block_el(ty: &str, id: &str, children: Vec<XmlNode>) -> XmlElement {
    elem("block", vec![attr("type", ty), attr("id", id)], children)
}

fn field_el(name: &str, value: &str) -> XmlNode {
    node(elem("field", vec![attr("name", name)], vec![text(value)]))
}

fn next_el(b: XmlElement) -> XmlNode {
    node(elem("next", vec![], vec![node(b)]))
}

/// A chain of `n` blocks `b0 -> b1 -> ...` linked by `next`.
fn chain_of(n: usize) -> XmlElement {
    let mut el = block_el(&format!("b{}", n - 1), "", vec![]);
    for i in (0..n - 1).rev() {
        el = block_el(&format!("b{}", i), "", vec![next_el(el)]);
    }
    el
}

#[test]
fn test_make_block() {
    let xml: &str = r#"
        <block type="inner_loop" id="]Lb|t?wfd#;s)[llJx8Y">
            <field name="COUNT">3</field>
            <statement name="BODY">
            </statement>
        </block>
    "#;

    let root_element = first_element(document_of(xml));
    assert!(root_element.is_some());
    let block = make_block(&root_element.unwrap()).unwrap();
    assert_eq!(block.block_type, "inner_loop");
    assert_eq!(block.id, "]Lb|t?wfd#;s)[llJx8Y");
    assert!(block.fields.is_some());
    assert!(block.statements.is_some());
    let count_field = block.get_field("COUNT");
    assert!(count_field.is_some());
    assert_eq!(count_field.unwrap(), &FieldValue::SimpleField("3".to_string()));
}

#[test]
fn test_get_next_block_element() {
    let xml: &str = r#"
        <block type="led_on" id="^3xb.m4E9i0;3$R10(=5">
            <field name="TIME">300</field>
            <next>
                <block type="led_off" id="HX4*sB9=gbJtq$Y{ke6b">
                    <field name="TIME">100</field>
                </block>
            </next>
        </block>
    "#;

    let root_element = first_element(document_of(xml));
    assert!(root_element.is_some());
    let root_element = root_element.unwrap();
    let next_block = get_next_block_element(&root_element);
    assert!(next_block.is_some());
    let next_block_unwrapped = next_block.unwrap();
    assert_eq!(get_attribute(next_block_unwrapped, "type"), Some("led_off".to_string()));
    assert_eq!(get_attribute(next_block_unwrapped, "id"), Some("HX4*sB9=gbJtq$Y{ke6b".to_string()));
}

const ADVANCED: &str = r#"
    <xml xmlns="http://www.w3.org/1999/xhtml">
        <variables></variables>
        <block type="main_loop" id="[.)/fqUYv92(mzb{?:~u" deletable="false" movable="false" x="50" y="50">
            <statement name="BODY">
                <block type="inner_loop" id="]Lb|t?wfd#;s)[llJx8Y">
                    <field name="COUNT">3</field>
                    <statement name="BODY">
                        <block type="led_on" id="^3xb.m4E9i0;3$R10(=5">
                            <field name="TIME">300</field>
                            <next>
                                <block type="led_off" id="HX4*sB9=gbJtq$Y{ke6b">
                                    <field name="TIME">100</field>
                                </block>
                            </next>
                        </block>
                    </statement>
                    <next>
                        <block type="led_on" id="kB~f~7W`wkGa0i4z3mHw">
                            <field name="TIME">100</field>
                            <next>
                                <block type="led_off" id="$fdlZB)btzA8YtB/!xz`">
                                    <field name="TIME">100</field>
                                </block>
                            </next>
                        </block>
                    </next>
                </block>
            </statement>
        </block>
    </xml>
"#;

#[test]
fn test_program_from_xml_advanced() {
    let program: Program = program_from_xml(&document_of(ADVANCED)).unwrap();
    assert_eq!(program.groups.len(), 1);

    let group = program.groups.get(0).unwrap();
    assert_eq!(group.blocks.len(), 1);

    let main_loop_block = group.blocks.get(0).unwrap();
    assert_eq!(main_loop_block.block_type, "main_loop");
    assert_eq!(main_loop_block.id, "[.)/fqUYv92(mzb{?:~u");
    assert!(main_loop_block.statements.is_some());

    let main_loop_statements = main_loop_block.statements.as_ref().unwrap();
    assert_eq!(main_loop_statements.len(), 1);
    assert!(main_loop_statements.contains_key("BODY"));

    let main_loop_body = main_loop_statements.get("BODY");
    let main_loop_body_statement = main_loop_body.as_ref().unwrap();
    assert_eq!(main_loop_body_statement.blocks.len(), 3);

    let inner_loop_block = main_loop_body_statement.blocks.get(0).unwrap();
    assert_eq!(inner_loop_block.block_type, "inner_loop");
    assert_eq!(inner_loop_block.id, "]Lb|t?wfd#;s)[llJx8Y");
    assert!(inner_loop_block.fields.is_some());
    assert_eq!(inner_loop_block.get_field("COUNT"), Some(&FieldValue::SimpleField("3".to_string())));

    let inner_loop_statement_maybe = inner_loop_block.get_statement("BODY");
    assert!(inner_loop_statement_maybe.is_some());
    let inner_loop_statement = inner_loop_statement_maybe.unwrap();
    assert_eq!(inner_loop_statement.blocks.len(), 2);

    let led_on_block = inner_loop_statement.blocks.get(0).unwrap();
    assert_eq!(led_on_block.block_type, "led_on");
    assert_eq!(led_on_block.id, "^3xb.m4E9i0;3$R10(=5");
    assert_eq!(led_on_block.get_field("TIME"), Some(&FieldValue::SimpleField("300".to_string())));

    let led_off_block = inner_loop_statement.blocks.get(1).unwrap();
    assert_eq!(led_off_block.block_type, "led_off");
    assert_eq!(led_off_block.id, "HX4*sB9=gbJtq$Y{ke6b");
}

#[test]
fn end_to_end_orders_and_nests_blocks() {
    let program = program_from_xml(&document_of(ADVANCED)).unwrap();
    assert_eq!(program.groups.len(), 1);
    let main_loop = &program.groups[0].blocks[0];
    assert_eq!(main_loop.block_type, "main_loop");
    let body = main_loop.get_statement("BODY").unwrap();
    let types: Vec<&str> = body.blocks.iter().map(|b| b.block_type.as_str()).collect();
    assert_eq!(types, vec!["inner_loop", "led_on", "led_off"]);
    let inner = body.blocks[0].get_statement("BODY").unwrap();
    let types: Vec<&str> = inner.blocks.iter().map(|b| b.block_type.as_str()).collect();
    assert_eq!(types, vec!["led_on", "led_off"]);
    assert_eq!(inner.blocks[0].get_field("TIME"), Some(&FieldValue::SimpleField("300".to_string())));
    assert_eq!(inner.blocks[1].get_field("TIME"), Some(&FieldValue::SimpleField("100".to_string())));
    assert_eq!(body.blocks[2].id, "$fdlZB)btzA8YtB/!xz`");
}

#[test]
fn chain_of_five_gives_five_blocks_in_order() {
    let body = make_statement_body(&chain_of(5)).unwrap();
    assert_eq!(body.blocks.len(), 5);
    for (i, b) in body.blocks.iter().enumerate() {
        assert_eq!(b.block_type, format!("b{}", i));
    }
}

#[test]
fn single_block_chain() {
    let body = make_statement_body(&chain_of(1)).unwrap();
    assert_eq!(body.blocks.len(), 1);
    assert_eq!(body.blocks[0].block_type, "b0");
}

#[test]
fn next_without_block_ends_chain() {
    let el = block_el("a", "1", vec![node(elem("next", vec![], vec![text(" ")]))]);
    let body = make_statement_body(&el).unwrap();
    assert_eq!(body.blocks.len(), 1);
}

#[test]
fn only_first_next_is_followed() {
    let el = block_el(
        "a",
        "1",
        vec![next_el(block_el("b", "2", vec![])), next_el(block_el("c", "3", vec![]))],
    );
    let body = make_statement_body(&el).unwrap();
    let types: Vec<&str> = body.blocks.iter().map(|b| b.block_type.as_str()).collect();
    assert_eq!(types, vec!["a", "b"]);
}

#[test]
fn block_without_fields_or_statements_has_none() {
    let el = block_el("led_on", "x", vec![text("\n"), next_el(block_el("b", "y", vec![]))]);
    let block = make_block(&el).unwrap();
    assert!(block.fields.is_none());
    assert!(block.statements.is_none());
    assert_eq!(block.get_field("TIME"), None);
    assert!(block.get_statement("BODY").is_none());
}

#[test]
fn field_lookup_and_unknown_field() {
    let el = block_el("inner_loop", "i", vec![field_el("COUNT", "3")]);
    let block = make_block(&el).unwrap();
    assert_eq!(block.get_field("COUNT"), Some(&FieldValue::SimpleField("3".to_string())));
    assert_eq!(block.get_field("TIMES"), None);
    assert!(block.statements.is_none());
}

#[test]
fn later_field_with_same_name_wins() {
    let el = block_el("t", "i", vec![field_el("N", "1"), field_el("M", "5"), field_el("N", "2")]);
    let block = make_block(&el).unwrap();
    let fields = block.fields.as_ref().unwrap();
    assert_eq!(fields.len(), 2);
    assert_eq!(block.get_field("N"), Some(&FieldValue::SimpleField("2".to_string())));
    assert_eq!(block.get_field("M"), Some(&FieldValue::SimpleField("5".to_string())));
}

#[test]
fn nested_chain_length_in_slot() {
    let slot = node(elem("statement", vec![attr("name", "DO")], vec![text(" "), node(chain_of(4))]));
    let outer = block_el("loop", "o", vec![slot]);
    let wrapped = block_el("wrap", "w", vec![node(elem("statement", vec![attr("name", "S")], vec![node(outer)]))]);
    let block = make_block(&wrapped).unwrap();
    let inner_loop = &block.get_statement("S").unwrap().blocks[0];
    assert_eq!(inner_loop.get_statement("DO").unwrap().blocks.len(), 4);
}

#[test]
fn empty_statement_slot_gives_empty_body() {
    let el = block_el("loop", "l", vec![node(elem("statement", vec![attr("name", "BODY")], vec![]))]);
    let block = make_block(&el).unwrap();
    assert_eq!(block.get_statement("BODY"), Some(&StatementBody { blocks: vec![] }));
}

#[test]
fn missing_type_and_id_are_empty() {
    let el = elem("block", vec![attr("x", "1")], vec![]);
    let block = make_block(&el).unwrap();
    assert_eq!(block.block_type, "");
    assert_eq!(block.id, "");
}

#[test]
fn expression_field_is_unsupported() {
    let field = elem("field", vec![attr("name", "X")], vec![node(block_el("math", "m", vec![]))]);
    assert_eq!(make_field_value(&field), Err(ConvertError::UnsupportedFeature));
    let el = block_el("t", "i", vec![node(field)]);
    assert_eq!(make_block(&el), Err(ConvertError::UnsupportedFeature));
}

#[test]
fn empty_field_is_malformed() {
    let field = elem("field", vec![attr("name", "X")], vec![]);
    assert_eq!(make_field_value(&field), Err(ConvertError::MalformedInput));
    let doc = document_of(r#"<xml><block type="a" id="b"><field name="X"></field></block></xml>"#);
    assert_eq!(program_from_xml(&doc).unwrap_err(), ConvertError::MalformedInput);
}

#[test]
fn field_text_is_taken_verbatim() {
    let field = elem("field", vec![attr("name", "X")], vec![text(" 42 ")]);
    assert_eq!(make_field_value(&field), Ok(FieldValue::SimpleField(" 42 ".to_string())));
}

#[test]
fn field_without_name_is_attribute_error() {
    let el = block_el("t", "i", vec![node(elem("field", vec![], vec![text("1")]))]);
    assert_eq!(make_block(&el), Err(ConvertError::Attribute));
}

#[test]
fn statement_without_name_is_attribute_error() {
    let el = block_el("t", "i", vec![node(elem("statement", vec![], vec![]))]);
    assert_eq!(make_block(&el), Err(ConvertError::Attribute));
}

#[test]
fn error_deep_in_chain_fails_whole_body() {
    let bad = block_el("bad", "z", vec![node(elem("field", vec![attr("name", "X")], vec![]))]);
    let el = block_el("a", "1", vec![next_el(block_el("b", "2", vec![next_el(bad)]))]);
    assert_eq!(make_statement_body(&el), Err(ConvertError::MalformedInput));
}

#[test]
fn missing_root_is_structure_error() {
    let doc = document_of(r#"<program><block type="a" id="b"/></program>"#);
    assert_eq!(program_from_xml(&doc).unwrap_err(), ConvertError::Structure);
    let empty = XmlDocument { children: vec![] };
    assert_eq!(program_from_xml(&empty).unwrap_err(), ConvertError::Structure);
}

#[test]
fn one_group_per_top_level_block() {
    let doc = document_of(
        r#"<xml><variables/><block type="a" id="1"><next><block type="b" id="2"/></next></block><block type="c" id="3"/></xml>"#,
    );
    let program = program_from_xml(&doc).unwrap();
    assert_eq!(program.groups.len(), 2);
    assert_eq!(program.groups[0].blocks.len(), 2);
    assert_eq!(program.groups[1].blocks[0].block_type, "c");
}

#[test]
fn empty_root_gives_empty_program() {
    let program = program_from_xml(&document_of("<xml/>")).unwrap();
    assert!(program.groups.is_empty());
}

#[test]
fn attribute_lookup() {
    let el = elem("block", vec![attr("type", "a"), attr("id", "b")], vec![]);
    assert_eq!(get_attribute(&el, "id"), Some("b".to_string()));
    assert_eq!(get_attribute(&el, "name"), None);
}

#[test]
fn first_child_element_skips_text() {
    let el = elem("statement", vec![], vec![text(" "), XmlNode::Other, node(elem("block", vec![], vec![]))]);
    assert_eq!(get_first_child_element(&el).map(|e| e.name.as_str()), Some("block"));
    let empty = elem("statement", vec![], vec![text(" ")]);
    assert!(get_first_child_element(&empty).is_none());
}

#[test]
fn named_map_insert_replaces() {
    let mut m: NamedMap<u32> = NamedMap::new();
    assert_eq!(m.len(), 0);
    m.insert("a".to_string(), 1);
    m.insert("b".to_string(), 2);
    m.insert("a".to_string(), 3);
    assert_eq!(m.len(), 2);
    assert_eq!(m.get("a"), Some(&3));
    assert!(m.contains_key("b"));
    assert!(!m.contains_key("c"));
}

#[test]
fn block_builders() {
    let mut b = Block::new();
    assert!(b.fields.is_none() && b.statements.is_none());
    assert_eq!(b.block_type, "");
    b.add_field("X".to_string(), FieldValue::SimpleField("1".to_string()));
    b.add_field("X".to_string(), FieldValue::SimpleField("2".to_string()));
    assert_eq!(b.get_field("X"), Some(&FieldValue::SimpleField("2".to_string())));
    b.add_statement_body("DO".to_string(), StatementBody::new());
    assert_eq!(b.get_statement("DO").unwrap().blocks.len(), 0);
    assert!(Program::new().groups.is_empty());
}
