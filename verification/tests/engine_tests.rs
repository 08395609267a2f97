//! Sessions against the real streaming engine, driven the way the
//! library's parse driver prescribes.

use html5ever::buffer_queue::BufferQueue;
use html5ever::interface::{ElementFlags, TreeSink};
use html5ever::tendril::StrTendril;
use html5ever::tokenizer::states::{RawKind, State};
use html5ever::interface::TokenizerResult;
use html5ever::tokenizer::{Tokenizer as HtmlTokenizer, TokenizerOpts};
use html5ever::tree_builder::{TreeBuilder, TreeBuilderOpts};
use html5ever::{LocalName, Namespace, QualName};
use markup5ever_rcdom::{Handle, NodeData, RcDom};

use html_stream::dom::Dom;
use html_stream::driver::{LexicalState, tokenizer_state_for_context_elem};

const HTML_NS: &str = "http://www.w3.org/1999/xhtml";

fn html_name(local: &str) -> QualName {
    QualName::new(None, Namespace::from(HTML_NS), LocalName::from(local))
}

fn library_elem(local: &str) -> html_stream::dom::NodeData {
    html_stream::dom::NodeData {
        kind: html_stream::dom::NodeKind::Element,
        name: html_stream::dom::QualName { ns: HTML_NS.to_string(), local: local.to_string() },
        data: String::new(),
        attrs: vec![],
        template_contents: None,
        children: vec![],
    }
}

/// The engine state the library's decision maps to.
fn engine_state(s: LexicalState) -> State {
    match s {
        LexicalState::Data => State::Data,
        LexicalState::Rcdata => State::RawData(RawKind::Rcdata),
        LexicalState::Rawtext => State::RawData(RawKind::Rawtext),
        LexicalState::ScriptData => State::RawData(RawKind::ScriptData),
        LexicalState::Plaintext => State::Plaintext,
    }
}

fn collect_text(h: &Handle, out: &mut String) {
    if let NodeData::Text { contents } = &h.data {
        out.push_str(contents.borrow().as_ref());
    }
    for child in h.children.borrow().iter() {
        collect_text(child, out);
    }
}

fn contains_element(h: &Handle, local: &str) -> bool {
    if let NodeData::Element { name, .. } = &h.data {
        if &*name.local == local {
            return true;
        }
    }
    h.children.borrow().iter().any(|c| contains_element(c, local))
}

#[test]
fn title_fragment_context_keeps_markup_literal() {
    // Fragment parsing with a <title> context element: the library
    // seeds the tokenizer into the text-only state before any input,
    // so an embedded <b> stays literal text, not a nested element.
    let sink = RcDom::default();
    let context = sink.create_element(html_name("title"), vec![], ElementFlags::default());

    let mut library_dom = Dom::new();
    let ctx_id = library_dom.add_node(library_elem("title"));
    let seeded = tokenizer_state_for_context_elem(&library_dom, ctx_id, false);
    assert_eq!(seeded, LexicalState::Rcdata);

    let tb = TreeBuilder::new_for_fragment(
        sink,
        context,
        None,
        TreeBuilderOpts { scripting_enabled: false, ..Default::default() },
    );
    let tok = HtmlTokenizer::new(
        tb,
        TokenizerOpts { initial_state: Some(engine_state(seeded)), ..Default::default() },
    );

    let input = BufferQueue::default();
    input.push_back(StrTendril::from("<b>bold</b>"));
    let _ = tok.feed(&input);
    tok.end();

    let document = tok.sink.sink.get_document();
    let mut text = String::new();
    collect_text(&document, &mut text);
    assert_eq!(text, "<b>bold</b>");
    assert!(!contains_element(&document, "b"));
}

#[test]
fn script_pauses_the_engine_before_following_siblings() {
    // Feeding <script>...</script><p>after</p> pauses the engine on
    // the script element before the sibling is processed; feeding
    // again continues from exactly that point.
    let tb = TreeBuilder::new(
        RcDom::default(),
        TreeBuilderOpts { scripting_enabled: true, ..Default::default() },
    );
    let tok = HtmlTokenizer::new(tb, TokenizerOpts::default());

    let input = BufferQueue::default();
    input.push_back(StrTendril::from("<script>var x = 1;</script><p>after</p>"));

    match tok.feed(&input) {
        TokenizerResult::Script(handle) => {
            match &handle.data {
                NodeData::Element { name, .. } => assert_eq!(&*name.local, "script"),
                other => panic!("engine paused on a non-element: {:?}", other),
            }
            let document = tok.sink.sink.get_document();
            assert!(!contains_element(&document, "p"));
        },
        other => panic!("expected the engine to pause on the script, got {:?}", other),
    }

    // The session resumes from the pause point.
    loop {
        match tok.feed(&input) {
            TokenizerResult::Done => break,
            TokenizerResult::Script(_) => continue,
            TokenizerResult::EncodingIndicator(_) => continue,
        }
    }
    tok.end();

    let document = tok.sink.sink.get_document();
    assert!(contains_element(&document, "p"));
    let mut text = String::new();
    collect_text(&document, &mut text);
    assert!(text.contains("after"));
}

#[test]
fn plaintext_state_turns_markup_into_literal_text() {
    // After the plaintext switch, feeding <div> yields a single text
    // node holding the literal string, not an element.
    let tb = TreeBuilder::new(RcDom::default(), TreeBuilderOpts::default());
    let tok = HtmlTokenizer::new(tb, TokenizerOpts::default());
    tok.set_plaintext_state();

    let input = BufferQueue::default();
    input.push_back(StrTendril::from("<div>"));
    let _ = tok.feed(&input);
    tok.end();

    let document = tok.sink.sink.get_document();
    assert!(!contains_element(&document, "div"));
    let mut text = String::new();
    collect_text(&document, &mut text);
    assert_eq!(text, "<div>");
}
