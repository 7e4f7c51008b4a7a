use sanngaa::{
    Attr, Attribute, NodeData, NodeId, NodeOrText, QName, QualName, Sink, Tree, TreeError,
};
use std::borrow::Cow;
use std::cell::RefCell;
use std::rc::Rc;

type NoHandler = fn(Cow<'static, str>);

fn quiet() -> Sink<NoHandler> {
    Sink::new(None)
}

fn qname(prefix: &str, local: &str, ns: &str) -> QName {
    QName { prefix: prefix.to_string(), local: local.to_string(), namespace_url: ns.to_string() }
}

fn plain(local: &str) -> QualName {
    QualName { ns: String::new(), local: local.to_string() }
}

fn text(s: &str) -> NodeOrText {
    NodeOrText::AppendText(s.to_string())
}

fn text_of(tree: &Tree, id: NodeId) -> String {
    tree.as_text(id).expect("a text node").clone()
}

#[test]
fn new_sink_holds_one_document_node() {
    let mut sink = quiet();
    let doc = sink.get_document();
    assert_eq!(doc, NodeId { index: 0 });
    assert_eq!(sink.tree().len(), 1);
    assert_eq!(sink.tree().data(doc), &NodeData::Document);
    assert!(sink.tree().children(doc).is_empty());
    assert_eq!(sink.tree().parent(doc), None);
}

#[test]
fn get_document_is_idempotent() {
    let mut sink = quiet();
    let first = sink.get_document();
    let second = sink.get_document();
    assert_eq!(first, second);
    assert_eq!(sink.tree().len(), 1);
}

#[test]
fn text_appended_twice_is_one_text_node() {
    let mut sink = quiet();
    let e = sink.create_element(qname("", "e", ""), Vec::new());
    assert_eq!(sink.append(e, text("foo")), Ok(()));
    assert_eq!(sink.append(e, text("bar")), Ok(()));
    let children = sink.tree().children(e).clone();
    assert_eq!(children.len(), 1);
    assert_eq!(text_of(sink.tree(), children[0]), "foobar");
}

#[test]
fn a_run_of_text_is_one_text_node_with_the_pieces_in_order() {
    let mut sink = quiet();
    let doc = sink.get_document();
    let e = sink.create_element(qname("", "e", ""), Vec::new());
    sink.append(doc, NodeOrText::AppendNode(e)).unwrap();
    let pieces = ["a", "", "bc", "d", "éf", " ", "g"];
    for piece in pieces.iter() {
        sink.append(e, text(piece)).unwrap();
    }
    let children = sink.tree().children(e).clone();
    assert_eq!(children.len(), 1);
    assert_eq!(text_of(sink.tree(), children[0]), "abcdéf g");
    assert_eq!(sink.tree().len(), 3);
}

#[test]
fn text_after_an_element_starts_a_new_text_node() {
    let mut sink = quiet();
    let e = sink.create_element(qname("", "e", ""), Vec::new());
    let inner = sink.create_element(qname("", "i", ""), Vec::new());
    sink.append(e, text("one")).unwrap();
    sink.append(e, NodeOrText::AppendNode(inner)).unwrap();
    sink.append(e, text("two")).unwrap();
    sink.append(e, text("three")).unwrap();
    let children = sink.tree().children(e).clone();
    assert_eq!(children.len(), 3);
    assert_eq!(text_of(sink.tree(), children[0]), "one");
    assert_eq!(children[1], inner);
    assert_eq!(text_of(sink.tree(), children[2]), "twothree");
}

#[test]
fn text_under_different_parents_is_not_joined() {
    let mut sink = quiet();
    let a = sink.create_element(qname("", "a", ""), Vec::new());
    let b = sink.create_element(qname("", "b", ""), Vec::new());
    sink.append(a, text("x")).unwrap();
    sink.append(b, text("y")).unwrap();
    sink.append(a, text("z")).unwrap();
    assert_eq!(text_of(sink.tree(), sink.tree().children(a)[0]), "xz");
    assert_eq!(text_of(sink.tree(), sink.tree().children(b)[0]), "y");
}

#[test]
fn doctype_goes_under_the_document_whatever_is_open() {
    let mut sink = quiet();
    let doc = sink.get_document();
    let root = sink.create_element(qname("", "root", ""), Vec::new());
    sink.append(doc, NodeOrText::AppendNode(root)).unwrap();
    let open = sink.create_element(qname("", "open", ""), Vec::new());
    sink.append(root, NodeOrText::AppendNode(open)).unwrap();
    sink.append_doctype_to_document("note".to_string(), "-//P".to_string(), "note.dtd".to_string());
    let children = sink.tree().children(doc).clone();
    assert_eq!(children.len(), 2);
    assert_eq!(children[0], root);
    let doctype = children[1];
    assert_eq!(sink.tree().parent(doctype), Some(doc));
    assert_eq!(
        sink.tree().data(doctype),
        &NodeData::Doctype {
            name: "note".to_string(),
            public_id: "-//P".to_string(),
            system_id: "note.dtd".to_string(),
        }
    );
    assert!(sink.tree().children(open).is_empty());
    assert_eq!(sink.tree().children(root), &vec![open]);
}

#[test]
fn processing_instruction_is_an_element_with_a_data_attribute() {
    let mut sink = quiet();
    let pi = sink.create_pi("xml-stylesheet".to_string(), "href=\"a.xsl\"".to_string());
    assert_eq!(
        sink.tree().data(pi),
        &NodeData::Element {
            name: QualName { ns: String::new(), local: "xml-stylesheet".to_string() },
            attributes: vec![Attr {
                name: QualName { ns: String::new(), local: "data".to_string() },
                value: "href=\"a.xsl\"".to_string(),
            }],
        }
    );
    assert_eq!(sink.tree().parent(pi), None);
    assert!(sink.tree().children(pi).is_empty());
    assert!(sink.is_created(&pi));
}

#[test]
fn create_element_encodes_the_names() {
    let mut sink = quiet();
    let e = sink.create_element(
        qname("see", "field", "urn:see"),
        vec![
            Attribute { name: qname("", "name", ""), value: "nosee".to_string() },
            Attribute { name: qname("xml", "lang", "urn:xml"), value: "en".to_string() },
        ],
    );
    assert_eq!(
        sink.tree().data(e),
        &NodeData::Element {
            name: QualName { ns: "urn:see".to_string(), local: "see:field".to_string() },
            attributes: vec![
                Attr { name: plain("name"), value: "nosee".to_string() },
                Attr {
                    name: QualName { ns: "urn:xml".to_string(), local: "xml:lang".to_string() },
                    value: "en".to_string(),
                },
            ],
        }
    );
    assert_eq!(sink.tree().parent(e), None);
}

#[test]
fn create_element_joins_attributes_that_encode_to_one_name() {
    let mut sink = quiet();
    let e = sink.create_element(
        qname("", "e", ""),
        vec![
            Attribute { name: qname("a", "b", ""), value: "1".to_string() },
            Attribute { name: qname("", "a:b", ""), value: "2".to_string() },
        ],
    );
    assert_eq!(
        sink.tree().data(e),
        &NodeData::Element {
            name: plain("e"),
            attributes: vec![Attr { name: plain("a:b"), value: "2".to_string() }],
        }
    );
}

#[test]
fn elem_name_decodes_the_stored_name() {
    let mut sink = quiet();
    let e = sink.create_element(qname("see", "field", "urn:see"), Vec::new());
    let f = sink.create_element(qname("", "plain", ""), Vec::new());
    assert!(sink.is_element(&e));
    assert_eq!(sink.elem_name(&e), qname("see", "field", "urn:see"));
    assert_eq!(sink.elem_name(&f), qname("", "plain", ""));
}

#[test]
fn is_element_is_false_for_other_nodes_and_unknown_handles() {
    let mut sink = quiet();
    let doc = sink.get_document();
    let c = sink.create_comment("c".to_string());
    assert!(!sink.is_element(&doc));
    assert!(!sink.is_element(&c));
    assert!(!sink.is_element(&NodeId { index: 99 }));
    assert!(sink.contains(&c));
    assert!(!sink.contains(&NodeId { index: 99 }));
    assert!(sink.is_created(&c));
    assert!(!sink.is_created(&doc));
}

#[test]
fn create_comment_holds_the_text() {
    let mut sink = quiet();
    let c = sink.create_comment(" note ".to_string());
    assert_eq!(sink.tree().data(c), &NodeData::Comment { content: " note ".to_string() });
    assert_eq!(sink.tree().parent(c), None);
}

#[test]
fn append_node_makes_it_the_last_child() {
    let mut sink = quiet();
    let doc = sink.get_document();
    let a = sink.create_element(qname("", "a", ""), Vec::new());
    let c = sink.create_comment("c".to_string());
    assert_eq!(sink.append(doc, NodeOrText::AppendNode(a)), Ok(()));
    assert_eq!(sink.append(doc, NodeOrText::AppendNode(c)), Ok(()));
    assert_eq!(sink.tree().children(doc), &vec![a, c]);
    assert_eq!(sink.tree().parent(c), Some(doc));
}

#[test]
fn append_of_an_ancestor_is_refused_and_changes_nothing() {
    let mut sink = quiet();
    let doc = sink.get_document();
    let a = sink.create_element(qname("", "a", ""), Vec::new());
    let b = sink.create_element(qname("", "b", ""), Vec::new());
    sink.append(doc, NodeOrText::AppendNode(a)).unwrap();
    sink.append(a, NodeOrText::AppendNode(b)).unwrap();
    assert_eq!(sink.append(b, NodeOrText::AppendNode(a)), Err(TreeError::Cycle));
    assert_eq!(sink.append(a, NodeOrText::AppendNode(a)), Err(TreeError::Cycle));
    assert_eq!(sink.tree().children(doc), &vec![a]);
    assert_eq!(sink.tree().children(a), &vec![b]);
    assert!(sink.tree().children(b).is_empty());
}

#[test]
fn parse_error_calls_the_callback_with_the_message() {
    let seen: Rc<RefCell<Vec<String>>> = Rc::new(RefCell::new(Vec::new()));
    let log = seen.clone();
    let mut sink = Sink::new(Some(move |m: Cow<'static, str>| log.borrow_mut().push(m.into_owned())));
    sink.parse_error(Cow::Borrowed("first"));
    sink.parse_error(Cow::Owned("second".to_string()));
    assert_eq!(*seen.borrow(), vec!["first".to_string(), "second".to_string()]);
    assert_eq!(sink.tree().len(), 1);
}

#[test]
fn parse_error_without_callback_is_dropped() {
    let mut sink = quiet();
    sink.parse_error(Cow::Borrowed("nobody listens"));
    assert_eq!(sink.tree().len(), 1);
    let e = sink.create_element(qname("", "e", ""), Vec::new());
    assert_eq!(e, NodeId { index: 1 });
}

#[test]
fn mark_script_already_started_changes_nothing() {
    let mut sink = quiet();
    let e = sink.create_element(qname("", "script", ""), Vec::new());
    sink.mark_script_already_started(e);
    assert_eq!(sink.tree().len(), 2);
    assert_eq!(sink.tree().parent(e), None);
}

#[test]
fn finish_gives_the_tree_and_the_document() {
    let mut sink = quiet();
    let doc = sink.get_document();
    let e = sink.create_element(qname("", "e", ""), Vec::new());
    sink.append(doc, NodeOrText::AppendNode(e)).unwrap();
    let (tree, root) = sink.finish();
    assert_eq!(root, doc);
    assert_eq!(tree.data(root), &NodeData::Document);
    assert_eq!(tree.children(root), &vec![e]);
}
