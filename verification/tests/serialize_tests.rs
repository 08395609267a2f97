use html_stream::dom::{Attribute, Dom, NodeData, NodeKind, QualName, is_void};
use html_stream::emit::{MarkupEvent, SerializeError, emit_command, serialize};
use html_stream::serialize::{SerializationCommand, SerializationIterator, rev_children_iter};

const HTML_NS: &str = "http://www.w3.org/1999/xhtml";

fn qn(ns: &str, local: &str) -> QualName {
    QualName { ns: ns.to_string(), local: local.to_string() }
}

fn node(kind: NodeKind, ns: &str, local: &str, data: &str) -> NodeData {
    NodeData {
        kind,
        name: qn(ns, local),
        data: data.to_string(),
        attrs: vec![],
        template_contents: None,
        children: vec![],
    }
}

fn elem(local: &str) -> NodeData {
    node(NodeKind::Element, HTML_NS, local, "")
}

fn text(data: &str) -> NodeData {
    node(NodeKind::Text, "", "", data)
}

fn start(local: &str) -> MarkupEvent {
    MarkupEvent::StartElem { name: qn(HTML_NS, local), attrs: vec![] }
}

fn end(local: &str) -> MarkupEvent {
    MarkupEvent::EndElem { name: qn(HTML_NS, local) }
}

#[test]
fn fragment_with_paragraph_and_break() {
    // A fragment holding <p>A<br></p>: the break still gets a close
    // event, but no child of it is ever walked.
    let mut dom = Dom::new();
    let frag = dom.add_node(node(NodeKind::DocumentFragment, "", "", ""));
    let p = dom.add_node(elem("p"));
    let a = dom.add_node(text("A"));
    let br = dom.add_node(elem("br"));
    dom.append_child(frag, p);
    dom.append_child(p, a);
    dom.append_child(p, br);

    let events = serialize(&dom, frag, true).unwrap();
    assert_eq!(
        events,
        vec![
            start("p"),
            MarkupEvent::Text { data: "A".to_string() },
            start("br"),
            end("br"),
            end("p"),
        ]
    );
}

#[test]
fn void_element_children_are_never_emitted() {
    // Even if the live tree holds children under a void element, no
    // child command is produced.
    let mut dom = Dom::new();
    let br = dom.add_node(elem("br"));
    let stray = dom.add_node(text("stray"));
    dom.append_child(br, stray);

    let events = serialize(&dom, br, true).unwrap();
    assert_eq!(events, vec![start("br"), end("br")]);
}

#[test]
fn template_serializes_content_fragment_not_direct_children() {
    let mut dom = Dom::new();
    let t = dom.add_node(elem("template"));
    let direct = dom.add_node(text("direct"));
    dom.append_child(t, direct);
    let content = dom.add_node(node(NodeKind::DocumentFragment, "", "", ""));
    dom.set_template_contents(t, content);
    let inside = dom.add_node(text("inside"));
    dom.append_child(content, inside);

    let events = serialize(&dom, t, true).unwrap();
    assert_eq!(
        events,
        vec![
            start("template"),
            MarkupEvent::Text { data: "inside".to_string() },
            end("template"),
        ]
    );
}

#[test]
fn skip_root_drops_exactly_the_outer_pair() {
    let mut dom = Dom::new();
    let p = dom.add_node(elem("p"));
    let a = dom.add_node(text("A"));
    let b = dom.add_node(elem("b"));
    dom.append_child(p, a);
    dom.append_child(p, b);

    let with_root = serialize(&dom, p, true).unwrap();
    let without_root = serialize(&dom, p, false).unwrap();
    assert_eq!(with_root.len(), without_root.len() + 2);
    assert_eq!(with_root[0], start("p"));
    assert_eq!(*with_root.last().unwrap(), end("p"));
    assert_eq!(&with_root[1..with_root.len() - 1], &without_root[..]);
}

#[test]
fn include_root_has_no_effect_on_fragment_roots() {
    let mut dom = Dom::new();
    let frag = dom.add_node(node(NodeKind::DocumentFragment, "", "", ""));
    let x = dom.add_node(text("x"));
    dom.append_child(frag, x);

    assert_eq!(
        serialize(&dom, frag, true).unwrap(),
        serialize(&dom, frag, false).unwrap()
    );
}

#[test]
fn leaf_kinds_emit_their_events() {
    let mut dom = Dom::new();
    let doc = dom.add_node(node(NodeKind::Document, "", "", ""));
    let dt = dom.add_node(node(NodeKind::DocumentType, "", "html", ""));
    let c = dom.add_node(node(NodeKind::Comment, "", "", " hi "));
    let pi = dom.add_node(node(NodeKind::ProcessingInstruction, "", "xml", "version=\"1.0\""));
    dom.append_child(doc, dt);
    dom.append_child(doc, c);
    dom.append_child(doc, pi);

    let events = serialize(&dom, doc, true).unwrap();
    assert_eq!(
        events,
        vec![
            MarkupEvent::Doctype { name: "html".to_string() },
            MarkupEvent::Comment { data: " hi ".to_string() },
            MarkupEvent::ProcessingInstruction {
                target: "xml".to_string(),
                data: "version=\"1.0\"".to_string(),
            },
        ]
    );
}

#[test]
fn attributes_are_snapshotted_in_declaration_order() {
    let mut dom = Dom::new();
    let mut a = elem("a");
    a.attrs.push(Attribute { name: qn("", "href"), value: "x".to_string() });
    a.attrs.push(Attribute { name: qn("", "class"), value: "y".to_string() });
    let id = dom.add_node(a);

    let events = serialize(&dom, id, true).unwrap();
    match &events[0] {
        MarkupEvent::StartElem { name, attrs } => {
            assert_eq!(name.local, "a");
            assert_eq!(attrs.len(), 2);
            assert_eq!(attrs[0].name.local, "href");
            assert_eq!(attrs[0].value, "x");
            assert_eq!(attrs[1].name.local, "class");
            assert_eq!(attrs[1].value, "y");
        },
        other => panic!("expected a start event, got {:?}", other),
    }
}

#[test]
fn document_as_leaf_is_rejected() {
    let mut dom = Dom::new();
    let p = dom.add_node(elem("p"));
    let inner_doc = dom.add_node(node(NodeKind::Document, "", "", ""));
    dom.append_child(p, inner_doc);

    assert_eq!(serialize(&dom, p, true), Err(SerializeError::DocumentAsLeaf));
}

#[test]
fn attr_as_leaf_is_rejected() {
    let mut dom = Dom::new();
    let p = dom.add_node(elem("p"));
    let attr = dom.add_node(node(NodeKind::Attr, "", "id", ""));
    dom.append_child(p, attr);

    assert_eq!(serialize(&dom, p, true), Err(SerializeError::AttrAsLeaf));
}

#[test]
fn element_as_leaf_is_rejected_by_the_emitter() {
    let mut dom = Dom::new();
    let p = dom.add_node(elem("p"));
    let r = emit_command(&dom, SerializationCommand::SerializeNonelement(p));
    assert_eq!(r, Err(SerializeError::ElementAsLeaf));
}

#[test]
fn fragment_leaf_emits_nothing() {
    let mut dom = Dom::new();
    let p = dom.add_node(elem("p"));
    let inner = dom.add_node(node(NodeKind::DocumentFragment, "", "", ""));
    dom.append_child(p, inner);

    let events = serialize(&dom, p, true).unwrap();
    assert_eq!(events, vec![start("p"), end("p")]);
}

#[test]
fn rev_children_iter_reverses_document_order() {
    let mut dom = Dom::new();
    let p = dom.add_node(elem("p"));
    let a = dom.add_node(text("a"));
    let b = dom.add_node(text("b"));
    let c = dom.add_node(text("c"));
    dom.append_child(p, a);
    dom.append_child(p, b);
    dom.append_child(p, c);

    assert_eq!(rev_children_iter(&dom, p), vec![c, b, a]);
}

#[test]
fn iterator_yields_the_command_stream() {
    let mut dom = Dom::new();
    let frag = dom.add_node(node(NodeKind::DocumentFragment, "", "", ""));
    let p = dom.add_node(elem("p"));
    let a = dom.add_node(text("A"));
    let br = dom.add_node(elem("br"));
    dom.append_child(frag, p);
    dom.append_child(p, a);
    dom.append_child(p, br);

    let mut it = SerializationIterator::new(&dom, frag, false);
    let mut cmds = Vec::new();
    while let Some(c) = it.next(&dom) {
        cmds.push(c);
    }
    assert_eq!(
        cmds,
        vec![
            SerializationCommand::OpenElement(p),
            SerializationCommand::SerializeNonelement(a),
            SerializationCommand::OpenElement(br),
            SerializationCommand::CloseElement(br),
            SerializationCommand::CloseElement(p),
        ]
    );
    assert_eq!(it.next(&dom), None);
}

#[test]
fn each_node_is_visited_exactly_once_with_nested_pairs() {
    // <div><b>x</b><i></i></div>: every element gets exactly one
    // open/close pair, every leaf one command, and a child's commands
    // lie strictly between its parent's pair.
    let mut dom = Dom::new();
    let div = dom.add_node(elem("div"));
    let b = dom.add_node(elem("b"));
    let x = dom.add_node(text("x"));
    let i = dom.add_node(elem("i"));
    dom.append_child(div, b);
    dom.append_child(b, x);
    dom.append_child(div, i);

    let mut it = SerializationIterator::new(&dom, div, false);
    let mut cmds = Vec::new();
    while let Some(c) = it.next(&dom) {
        cmds.push(c);
    }

    let pos = |c: SerializationCommand| {
        assert_eq!(cmds.iter().filter(|&&d| d == c).count(), 1, "{:?}", c);
        cmds.iter().position(|&d| d == c).unwrap()
    };
    let open_div = pos(SerializationCommand::OpenElement(div));
    let close_div = pos(SerializationCommand::CloseElement(div));
    let open_b = pos(SerializationCommand::OpenElement(b));
    let close_b = pos(SerializationCommand::CloseElement(b));
    let leaf_x = pos(SerializationCommand::SerializeNonelement(x));
    let open_i = pos(SerializationCommand::OpenElement(i));
    let close_i = pos(SerializationCommand::CloseElement(i));
    assert_eq!(cmds.len(), 7);
    assert!(open_div < open_b && open_b < leaf_x && leaf_x < close_b);
    assert!(close_b < open_i && open_i < close_i && close_i < close_div);
}

#[test]
fn deep_nesting_is_traversed_without_recursion() {
    let mut dom = Dom::new();
    let root = dom.add_node(elem("div"));
    let mut cur = root;
    for _ in 0..200 {
        let c = dom.add_node(elem("div"));
        dom.append_child(cur, c);
        cur = c;
    }
    let events = serialize(&dom, root, true).unwrap();
    assert_eq!(events.len(), 402);
    assert_eq!(events[0], start("div"));
    assert_eq!(events[200], start("div"));
    assert_eq!(events[201], end("div"));
    assert_eq!(events[401], end("div"));
}

#[test]
fn void_table_matches_the_standard_set() {
    for local in [
        "area", "base", "basefont", "bgsound", "br", "col", "embed", "frame", "hr", "img",
        "input", "keygen", "link", "meta", "param", "source", "track", "wbr",
    ] {
        assert!(is_void(&elem(local)), "{} should be void", local);
    }
    assert!(!is_void(&elem("div")));
    assert!(!is_void(&elem("template")));
    assert!(!is_void(&node(NodeKind::Element, "urn:other", "br", "")));
    assert!(!is_void(&text("br")));
}
