use html_stream::dom::{Dom, NodeData, NodeKind, QualName};
use html_stream::driver::{
    DriverStatus, FeedResult, FragmentContext, LexicalState, ParsingAlgorithm, Tokenizer,
    is_script_element, tokenizer_state_for_context_elem,
};

const HTML_NS: &str = "http://www.w3.org/1999/xhtml";

fn elem_ns(ns: &str, local: &str) -> NodeData {
    NodeData {
        kind: NodeKind::Element,
        name: QualName { ns: ns.to_string(), local: local.to_string() },
        data: String::new(),
        attrs: vec![],
        template_contents: None,
        children: vec![],
    }
}

fn elem(local: &str) -> NodeData {
    elem_ns(HTML_NS, local)
}

fn dom_with(nd: NodeData) -> (Dom, usize) {
    let mut dom = Dom::new();
    let id = dom.add_node(nd);
    (dom, id)
}

fn state_for(local: &str, scripting: bool) -> LexicalState {
    let (dom, id) = dom_with(elem(local));
    tokenizer_state_for_context_elem(&dom, id, scripting)
}

#[test]
fn context_element_seeds_text_only_states() {
    assert_eq!(state_for("title", false), LexicalState::Rcdata);
    assert_eq!(state_for("textarea", false), LexicalState::Rcdata);
    assert_eq!(state_for("style", false), LexicalState::Rawtext);
    assert_eq!(state_for("xmp", false), LexicalState::Rawtext);
    assert_eq!(state_for("iframe", false), LexicalState::Rawtext);
    assert_eq!(state_for("noembed", false), LexicalState::Rawtext);
    assert_eq!(state_for("noframes", false), LexicalState::Rawtext);
    assert_eq!(state_for("script", false), LexicalState::ScriptData);
    assert_eq!(state_for("plaintext", false), LexicalState::Plaintext);
    assert_eq!(state_for("div", true), LexicalState::Data);
}

#[test]
fn noscript_context_depends_on_scripting() {
    assert_eq!(state_for("noscript", true), LexicalState::Rawtext);
    assert_eq!(state_for("noscript", false), LexicalState::Data);
}

#[test]
fn foreign_namespace_context_stays_in_data_state() {
    let (dom, id) = dom_with(elem_ns("urn:other", "title"));
    assert_eq!(tokenizer_state_for_context_elem(&dom, id, true), LexicalState::Data);
}

#[test]
fn fragment_construction_seeds_initial_state_before_input() {
    // Fragment parsing with a <title> context element must fix the
    // tokenizer's initial state to the text-only state up front, so a
    // <b> in the fed input stays literal text.
    let (dom, title) = dom_with(elem("title"));
    let fc = FragmentContext { context_element: title, form_element: None };
    let tok = Tokenizer::new(
        &dom,
        false,
        "about:blank".to_string(),
        Some(fc),
        ParsingAlgorithm::Fragment,
    );
    assert_eq!(tok.initial_state, Some(LexicalState::Rcdata));
    assert_eq!(tok.fragment, Some(fc));
    assert_eq!(tok.algorithm, ParsingAlgorithm::Fragment);
}

#[test]
fn whole_document_construction_uses_defaults() {
    let dom = Dom::new();
    let tok = Tokenizer::new(
        &dom,
        true,
        "https://example.test/".to_string(),
        None,
        ParsingAlgorithm::Normal,
    );
    assert_eq!(tok.initial_state, None);
    assert!(tok.config.ignore_missing_rules);
    assert!(tok.config.scripting_enabled);
    assert_eq!(tok.current_line, 1);
    assert_eq!(tok.status, DriverStatus::Ready);
    assert_eq!(tok.pending_script, None);
    assert!(!tok.plaintext_forced);
    assert_eq!(tok.url().as_str(), "https://example.test/");
}

#[test]
fn scripting_follows_browsing_context() {
    let dom = Dom::new();
    let tok = Tokenizer::new(&dom, false, String::new(), None, ParsingAlgorithm::Normal);
    assert!(!tok.config.scripting_enabled);
}

#[test]
fn script_found_suspends_until_resumed() {
    let (mut dom, _) = dom_with(elem("div"));
    let script = dom.add_node(elem("script"));
    let mut tok = Tokenizer::new(&dom, true, String::new(), None, ParsingAlgorithm::Normal);

    let r = tok.feed(&dom, FeedResult::ScriptFound(script));
    assert_eq!(r, FeedResult::ScriptFound(script));
    assert_eq!(tok.status, DriverStatus::Suspended);
    assert_eq!(tok.pending_script, Some(script));

    let ran = tok.resume();
    assert_eq!(ran, script);
    assert_eq!(tok.status, DriverStatus::Ready);
    assert_eq!(tok.pending_script, None);

    let r2 = tok.feed(&dom, FeedResult::Done);
    assert_eq!(r2, FeedResult::Done);
    assert_eq!(tok.status, DriverStatus::Ready);
}

#[test]
fn end_closes_the_session() {
    let dom = Dom::new();
    let mut tok = Tokenizer::new(&dom, false, String::new(), None, ParsingAlgorithm::Normal);
    tok.feed(&dom, FeedResult::Done);
    tok.end();
    assert_eq!(tok.status, DriverStatus::Ended);
}

#[test]
fn plaintext_state_is_recorded_and_kept() {
    let dom = Dom::new();
    let mut tok = Tokenizer::new(&dom, false, String::new(), None, ParsingAlgorithm::Normal);
    assert!(!tok.plaintext_forced);
    tok.set_plaintext_state();
    assert!(tok.plaintext_forced);
    tok.feed(&dom, FeedResult::Done);
    assert!(tok.plaintext_forced);
}

#[test]
fn script_elements_are_recognized() {
    let (dom, s) = dom_with(elem("script"));
    assert!(is_script_element(&dom, s));
    let (dom2, d) = dom_with(elem("div"));
    assert!(!is_script_element(&dom2, d));
    let (dom3, f) = dom_with(elem_ns("urn:other", "script"));
    assert!(!is_script_element(&dom3, f));
}
