use chisel::error::Error;
use chisel::generic::GenericNode;

fn same(a: &GenericNode, b: &GenericNode) -> bool {
    if a.key_value_pairs != b.key_value_pairs {
        return false;
    }
    if a.children_nodes.len() != b.children_nodes.len() {
        return false;
    }
    for ((na, ca), (nb, cb)) in a.children_nodes.iter().zip(b.children_nodes.iter()) {
        if na != nb || ca.len() != cb.len() {
            return false;
        }
        for (x, y) in ca.iter().zip(cb.iter()) {
            if !same(x, y) {
                return false;
            }
        }
    }
    true
}

const DOC: &str = "versioninfo\r\n{\r\n\t\"editorversion\" \"400\"\r\n\t\"prefab\" \"0\"\r\n}\r\nworld\r\n{\r\n\t\"id\" \"1\"\r\n\t\"mapversion\" \"7\"\r\n\tsolid\r\n\t{\r\n\t\t\"id\" \"2\"\r\n\t\tside\r\n\t\t{\r\n\t\t\t\"id\" \"1\"\r\n\t\t}\r\n\t\tside\r\n\t\t{\r\n\t\t\t\"id\" \"2\"\r\n\t\t}\r\n\t}\r\n}\r\n";

#[test]
fn duplicate_keys() {
    let node = GenericNode::parse("\"a\" \"1\"\n\"a\" \"2\"").unwrap();
    assert_eq!(node.key_value_pairs.len(), 1);
    assert_eq!(node.key_value_pairs[0].0, "a");
    assert_eq!(node.key_value_pairs[0].1, vec!["1".to_string(), "2".to_string()]);
    assert_eq!(node.get_value("a"), "1");
}

#[test]
fn repeated_blocks() {
    let node = GenericNode::parse("side\n{\n\"id\" \"1\"\n}\nside\n{\n\"id\" \"2\"\n}\n").unwrap();
    assert_eq!(node.children_nodes.len(), 1);
    assert_eq!(node.children_nodes[0].0, "side");
    let sides = &node.children_nodes[0].1;
    assert_eq!(sides.len(), 2);
    assert_eq!(sides[0].get_value("id"), "1");
    assert_eq!(sides[1].get_value("id"), "2");
}

#[test]
fn round_trip_of_a_document() {
    let node = GenericNode::parse(DOC).unwrap();
    let text = node.to_string();
    assert_eq!(text, DOC);
    let again = GenericNode::parse(&text).unwrap();
    assert!(same(&node, &again));
}

#[test]
fn round_trip_of_built_node() {
    let mut node = GenericNode::new();
    node.set_value("b", "two words");
    node.set_value("a", "");
    node.key_value_pairs[0].1.push("again".to_string());
    let mut child = GenericNode::new();
    child.set_value("k", "v");
    let mut other = GenericNode::new();
    other.set_child("deep", GenericNode::new());
    node.set_children("block", vec![child, other]);
    let again = GenericNode::parse(&node.to_string()).unwrap();
    assert!(same(&node, &again));
    assert_eq!(again.key_value_pairs[0].1, vec!["two words".to_string(), "again".to_string()]);
}

#[test]
fn text_layout() {
    let mut node = GenericNode::new();
    node.set_value("k", "v");
    let mut child = GenericNode::new();
    child.set_value("x", "1");
    node.set_child("b", child);
    assert_eq!(node.to_string(), "\"k\" \"v\"\r\nb\r\n{\r\n\t\"x\" \"1\"\r\n}\r\n");
    assert_eq!(node.to_text(1), "\t\"k\" \"v\"\r\n\tb\r\n\t{\r\n\t\t\"x\" \"1\"\r\n\t}\r\n");
}

#[test]
fn set_value_replaces_all_values() {
    let mut node = GenericNode::parse("\"a\" \"1\" \"a\" \"2\" \"b\" \"3\"").unwrap();
    node.set_value("a", "9");
    assert_eq!(node.key_value_pairs[0], ("a".to_string(), vec!["9".to_string()]));
    assert_eq!(node.key_value_pairs[1], ("b".to_string(), vec!["3".to_string()]));
}

#[test]
fn set_children_replaces_block_list() {
    let mut node = GenericNode::parse("s { } s { } t { }").unwrap();
    node.set_children("s", vec![]);
    assert_eq!(node.children_nodes[0].0, "s");
    assert_eq!(node.children_nodes[0].1.len(), 0);
    assert_eq!(node.children_nodes[1].1.len(), 1);
}

#[test]
fn unexpected_token() {
    assert_eq!(GenericNode::parse("?").unwrap_err(), Error::UnexpectedToken);
    assert_eq!(GenericNode::parse("\"a\" x \"b\"").unwrap_err(), Error::UnexpectedToken);
}

#[test]
fn unexpected_end_of_input() {
    assert_eq!(GenericNode::parse("\"a").unwrap_err(), Error::UnexpectedEndOfInput);
    assert_eq!(GenericNode::parse("\"a\" \"b").unwrap_err(), Error::UnexpectedEndOfInput);
    assert_eq!(GenericNode::parse("block {").unwrap_err(), Error::UnexpectedEndOfInput);
    assert_eq!(GenericNode::parse("block").unwrap_err(), Error::UnexpectedEndOfInput);
    assert_eq!(GenericNode::parse("name \"x\"").unwrap_err(), Error::UnexpectedEndOfInput);
}

#[test]
fn trailing_input() {
    assert_eq!(GenericNode::parse("\"a\" \"b\" } x").unwrap_err(), Error::TrailingInput);
    assert!(GenericNode::parse("\"a\" \"b\" }").is_ok());
}

#[test]
fn empty_document() {
    let node = GenericNode::parse("  \r\n\t ").unwrap();
    assert!(node.key_value_pairs.is_empty());
    assert!(node.children_nodes.is_empty());
    assert_eq!(node.to_string(), "");
}

#[test]
fn take_and_copy() {
    let mut node = GenericNode::parse("\"a\" \"1\" \"a\" \"2\" s { \"k\" \"v\" }").unwrap();
    let copy = node.clone_node();
    assert_eq!(node.take_value("a"), Some("2".to_string()));
    assert!(node.key_value_pairs.is_empty());
    let kids = node.take_children("s").unwrap();
    assert_eq!(kids.len(), 1);
    assert!(node.take_children("s").is_none());
    assert_eq!(copy.key_value_pairs[0].1.len(), 2);
    assert_eq!(copy.children_nodes[0].1[0].get_value("k"), "v");
    assert_eq!(copy.find_value("missing"), None);
}

#[test]
fn unicode_whitespace() {
    let node = GenericNode::parse("\u{A0}").unwrap();
    assert!(node.key_value_pairs.is_empty());
    assert!(node.children_nodes.is_empty());
    let node = GenericNode::parse("\u{3000}\"a\"\u{2003}\"1\"\u{85}b\u{2028}{\u{A0}}\u{205F}").unwrap();
    assert_eq!(node.get_value("a"), "1");
    assert_eq!(node.children_nodes[0].0, "b");
}

#[test]
fn block_name_up_to_brace() {
    let node = GenericNode::parse("a b \t{ \"k\" \"v\" }").unwrap();
    assert_eq!(node.children_nodes[0].0, "a b");
    assert_eq!(node.children_nodes[0].1[0].get_value("k"), "v");
    let again = GenericNode::parse(&node.to_string()).unwrap();
    assert_eq!(again.children_nodes[0].0, "a b");
}
