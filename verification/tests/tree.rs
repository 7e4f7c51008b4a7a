use sanngaa::{Attr, NodeData, NodeId, QualName, Tree, TreeError};

fn named(local: &str) -> QualName {
    QualName { ns: String::new(), local: local.to_string() }
}

fn elem(tree: &mut Tree, local: &str) -> NodeId {
    tree.new_element(named(local), Vec::new())
}

#[test]
fn new_store_is_empty() {
    let tree = Tree::new();
    assert_eq!(tree.len(), 0);
    assert!(!tree.contains(NodeId { index: 0 }));
}

#[test]
fn new_document_is_childless_and_parentless() {
    let mut tree = Tree::new();
    let doc = tree.new_document();
    assert_eq!(doc, NodeId { index: 0 });
    assert_eq!(tree.len(), 1);
    assert_eq!(tree.data(doc), &NodeData::Document);
    assert_eq!(tree.parent(doc), None);
    assert!(tree.children(doc).is_empty());
    assert_eq!(tree.first_child(doc), None);
    assert_eq!(tree.last_child(doc), None);
}

#[test]
fn new_nodes_get_consecutive_handles_and_hold_their_data() {
    let mut tree = Tree::new();
    let doc = tree.new_document();
    let text = tree.new_text("hello".to_string());
    let comment = tree.new_comment("c".to_string());
    let doctype = tree.new_doctype("html".to_string(), "pub".to_string(), "sys".to_string());
    let element = tree.new_element(
        named("e"),
        vec![Attr { name: named("k"), value: "v".to_string() }],
    );
    assert_eq!((doc.index, text.index, comment.index, doctype.index, element.index), (0, 1, 2, 3, 4));
    assert_eq!(tree.data(text), &NodeData::Text { content: "hello".to_string() });
    assert_eq!(tree.data(comment), &NodeData::Comment { content: "c".to_string() });
    assert_eq!(
        tree.data(doctype),
        &NodeData::Doctype {
            name: "html".to_string(),
            public_id: "pub".to_string(),
            system_id: "sys".to_string(),
        }
    );
    assert_eq!(
        tree.data(element),
        &NodeData::Element {
            name: named("e"),
            attributes: vec![Attr { name: named("k"), value: "v".to_string() }],
        }
    );
    assert_eq!(tree.parent(element), None);
}

#[test]
fn new_element_makes_attribute_names_unique() {
    let mut tree = Tree::new();
    let element = tree.new_element(
        named("e"),
        vec![
            Attr { name: named("k"), value: "1".to_string() },
            Attr { name: named("j"), value: "2".to_string() },
            Attr { name: named("k"), value: "3".to_string() },
        ],
    );
    assert_eq!(
        tree.data(element),
        &NodeData::Element {
            name: named("e"),
            attributes: vec![
                Attr { name: named("k"), value: "3".to_string() },
                Attr { name: named("j"), value: "2".to_string() },
            ],
        }
    );
}

#[test]
fn append_child_links_parent_and_child_in_order() {
    let mut tree = Tree::new();
    let doc = tree.new_document();
    let a = elem(&mut tree, "a");
    let b = elem(&mut tree, "b");
    assert_eq!(tree.append_child(doc, a), Ok(()));
    assert_eq!(tree.append_child(doc, b), Ok(()));
    assert_eq!(tree.children(doc), &vec![a, b]);
    assert_eq!(tree.parent(a), Some(doc));
    assert_eq!(tree.parent(b), Some(doc));
    assert_eq!(tree.first_child(doc), Some(a));
    assert_eq!(tree.last_child(doc), Some(b));
}

#[test]
fn append_child_moves_a_node_from_its_old_parent() {
    let mut tree = Tree::new();
    let doc = tree.new_document();
    let a = elem(&mut tree, "a");
    let b = elem(&mut tree, "b");
    let c = elem(&mut tree, "c");
    tree.append_child(doc, a).unwrap();
    tree.append_child(doc, b).unwrap();
    tree.append_child(a, c).unwrap();
    assert_eq!(tree.append_child(b, c), Ok(()));
    assert!(tree.children(a).is_empty());
    assert_eq!(tree.children(b), &vec![c]);
    assert_eq!(tree.parent(c), Some(b));
    assert_eq!(tree.len(), 4);
}

#[test]
fn append_child_to_the_same_parent_moves_it_to_the_end() {
    let mut tree = Tree::new();
    let doc = tree.new_document();
    let a = elem(&mut tree, "a");
    let b = elem(&mut tree, "b");
    tree.append_child(doc, a).unwrap();
    tree.append_child(doc, b).unwrap();
    assert_eq!(tree.append_child(doc, a), Ok(()));
    assert_eq!(tree.children(doc), &vec![b, a]);
}

#[test]
fn append_child_refuses_a_node_under_itself() {
    let mut tree = Tree::new();
    let a = elem(&mut tree, "a");
    assert_eq!(tree.append_child(a, a), Err(TreeError::Cycle));
    assert_eq!(tree.parent(a), None);
    assert!(tree.children(a).is_empty());
}

#[test]
fn append_child_refuses_an_ancestor_under_its_descendant() {
    let mut tree = Tree::new();
    let doc = tree.new_document();
    let a = elem(&mut tree, "a");
    let b = elem(&mut tree, "b");
    tree.append_child(doc, a).unwrap();
    tree.append_child(a, b).unwrap();
    assert_eq!(tree.append_child(b, doc), Err(TreeError::Cycle));
    assert_eq!(tree.append_child(b, a), Err(TreeError::Cycle));
    assert_eq!(tree.children(doc), &vec![a]);
    assert_eq!(tree.children(a), &vec![b]);
    assert!(tree.children(b).is_empty());
    assert_eq!(tree.parent(doc), None);
}

#[test]
fn is_ancestor_or_self_follows_the_parents() {
    let mut tree = Tree::new();
    let doc = tree.new_document();
    let a = elem(&mut tree, "a");
    let b = elem(&mut tree, "b");
    let c = elem(&mut tree, "c");
    tree.append_child(doc, a).unwrap();
    tree.append_child(a, b).unwrap();
    tree.append_child(doc, c).unwrap();
    assert!(tree.is_ancestor_or_self(b, b));
    assert!(tree.is_ancestor_or_self(a, b));
    assert!(tree.is_ancestor_or_self(doc, b));
    assert!(!tree.is_ancestor_or_self(b, a));
    assert!(!tree.is_ancestor_or_self(c, b));
}

#[test]
fn detach_takes_a_node_with_its_subtree() {
    let mut tree = Tree::new();
    let doc = tree.new_document();
    let a = elem(&mut tree, "a");
    let b = elem(&mut tree, "b");
    let c = elem(&mut tree, "c");
    tree.append_child(doc, a).unwrap();
    tree.append_child(doc, b).unwrap();
    tree.append_child(a, c).unwrap();
    tree.detach(a);
    assert_eq!(tree.children(doc), &vec![b]);
    assert_eq!(tree.parent(a), None);
    assert_eq!(tree.children(a), &vec![c]);
    assert_eq!(tree.parent(c), Some(a));
    tree.detach(a);
    assert_eq!(tree.parent(a), None);
}

#[test]
fn as_text_is_some_for_text_nodes_only() {
    let mut tree = Tree::new();
    let text = tree.new_text("abc".to_string());
    let comment = tree.new_comment("abc".to_string());
    assert_eq!(tree.as_text(text), Some(&"abc".to_string()));
    assert_eq!(tree.as_text(comment), None);
    assert!(tree.is_text(text));
    assert!(!tree.is_text(comment));
    assert!(tree.is_comment(comment));
    assert!(!tree.is_element(comment));
}

#[test]
fn extend_text_adds_to_the_end() {
    let mut tree = Tree::new();
    let text = tree.new_text("foo".to_string());
    tree.extend_text(text, "bar");
    tree.extend_text(text, "");
    assert_eq!(tree.as_text(text), Some(&"foobar".to_string()));
}

#[test]
fn siblings_follow_the_order_of_the_children() {
    let mut tree = Tree::new();
    let doc = tree.new_document();
    let a = elem(&mut tree, "a");
    let b = elem(&mut tree, "b");
    let c = elem(&mut tree, "c");
    tree.append_child(doc, a).unwrap();
    tree.append_child(doc, b).unwrap();
    tree.append_child(doc, c).unwrap();
    assert_eq!(tree.next_sibling(a), Some(b));
    assert_eq!(tree.next_sibling(b), Some(c));
    assert_eq!(tree.next_sibling(c), None);
    assert_eq!(tree.previous_sibling(a), None);
    assert_eq!(tree.previous_sibling(b), Some(a));
    assert_eq!(tree.previous_sibling(c), Some(b));
    assert_eq!(tree.next_sibling(doc), None);
    assert_eq!(tree.previous_sibling(doc), None);
}
