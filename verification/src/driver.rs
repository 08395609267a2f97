//! The parse driver: the decision core of the adapter around the
//! external streaming tokenizer and tree builder.
//!
//! The driver owns everything the session decides from plain values:
//! the engine configuration (whole-document or fragment mode, the
//! scripting option, the seeded initial lexical state), the base URL,
//! the source line counter, and the suspend/resume discipline around
//! embedded scripts. The surrounding program performs the engine
//! calls and hands their outcomes back.

use vstd::prelude::*;

use crate::dom::{Dom, NodeData, html_ns, str_is};

verus! {

/// The lexical state the tokenizer is seeded into, the fixed set of
/// initial states fragment parsing can require.
#[derive(Clone, Copy, Debug, PartialEq, Eq, Structural)]
pub enum LexicalState {
    Data,
    Rcdata,
    Rawtext,
    ScriptData,
    Plaintext,
}

/// Whether whole-document or fragment parsing drives tree construction.
#[derive(Clone, Copy, Debug, PartialEq, Eq, Structural)]
pub enum ParsingAlgorithm {
    Normal,
    Fragment,
}

/// Seeding state for fragment parsing: the context element whose tag
/// determines the initial lexical state, and an optional associated
/// form element.
#[derive(Clone, Copy, Debug, PartialEq, Eq, Structural)]
pub struct FragmentContext {
    pub context_element: usize,
    pub form_element: Option<usize>,
}

/// What the external engine reported for one feed call: input
/// exhausted, or tree construction paused on a script element.
#[derive(Clone, Copy, Debug, PartialEq, Eq, Structural)]
pub enum FeedResult {
    Done,
    ScriptFound(usize),
}

/// The driver's position in the streaming session.
#[derive(Clone, Copy, Debug, PartialEq, Eq, Structural)]
pub enum DriverStatus {
    Ready,
    Suspended,
    Ended,
}

/// Options handed to the external tree builder at construction.
#[derive(Clone, Copy, Debug, PartialEq, Eq, Structural)]
pub struct TreeBuilderConfig {
    pub ignore_missing_rules: bool,
    pub scripting_enabled: bool,
}

/// The initial lexical state implied by a fragment context element's
/// tag, per the standard fragment-parsing table: verbatim-text modes
/// for the text-only elements, plaintext for `plaintext`, and the
/// normal data state otherwise.
pub open spec fn spec_state_for_context(nodes: Seq<NodeData>, i: int, scripting: bool)
    -> LexicalState {
    let l = nodes[i].name@.local;
    if nodes[i].name@.ns != html_ns() {
        LexicalState::Data
    } else if l == "title"@ || l == "textarea"@ {
        LexicalState::Rcdata
    } else if l == "style"@ || l == "xmp"@ || l == "iframe"@ || l == "noembed"@ || l
        == "noframes"@ {
        LexicalState::Rawtext
    } else if l == "script"@ {
        LexicalState::ScriptData
    } else if l == "noscript"@ {
        if scripting {
            LexicalState::Rawtext
        } else {
            LexicalState::Data
        }
    } else if l == "plaintext"@ {
        LexicalState::Plaintext
    } else {
        LexicalState::Data
    }
}

/// The initial lexical state for the context element `i`.
pub fn tokenizer_state_for_context_elem(dom: &Dom, i: usize, scripting_enabled: bool) -> (r:
    LexicalState)
    requires
        i < dom@.len(),
    ensures
        r == spec_state_for_context(dom@, i as int, scripting_enabled),
{
    let nd = &dom.nodes[i];
    if !str_is(&nd.name.ns, "http://www.w3.org/1999/xhtml") {
        return LexicalState::Data;
    }
    let l = &nd.name.local;
    if str_is(l, "title") || str_is(l, "textarea") {
        LexicalState::Rcdata
    } else if str_is(l, "style") || str_is(l, "xmp") || str_is(l, "iframe") || str_is(l, "noembed")
        || str_is(l, "noframes") {
        LexicalState::Rawtext
    } else if str_is(l, "script") {
        LexicalState::ScriptData
    } else if str_is(l, "noscript") {
        if scripting_enabled {
            LexicalState::Rawtext
        } else {
            LexicalState::Data
        }
    } else if str_is(l, "plaintext") {
        LexicalState::Plaintext
    } else {
        LexicalState::Data
    }
}

/// Whether node `i` is a script element in the HTML namespace.
pub open spec fn spec_is_script(nodes: Seq<NodeData>, i: int) -> bool {
    &&& nodes[i].kind is Element
    &&& nodes[i].name@.ns == html_ns()
    &&& nodes[i].name@.local == "script"@
}

/// Whether node `i` is a script element.
pub fn is_script_element(dom: &Dom, i: usize) -> (r: bool)
    requires
        i < dom@.len(),
    ensures
        r == spec_is_script(dom@, i as int),
{
    let nd = &dom.nodes[i];
    match nd.kind {
        crate::dom::NodeKind::Element => {
            str_is(&nd.name.ns, "http://www.w3.org/1999/xhtml") && str_is(&nd.name.local, "script")
        },
        _ => false,
    }
}

/// The adapter around the external tokenizer and tree builder.
pub struct Tokenizer {
    pub url: String,
    pub algorithm: ParsingAlgorithm,
    pub config: TreeBuilderConfig,
    pub fragment: Option<FragmentContext>,
    pub initial_state: Option<LexicalState>,
    pub current_line: u64,
    pub status: DriverStatus,
    pub pending_script: Option<usize>,
    pub plaintext_forced: bool,
}

/// The construction-time decisions of two driver values agree.
pub open spec fn same_setup(a: Tokenizer, b: Tokenizer) -> bool {
    &&& a.url == b.url
    &&& a.algorithm == b.algorithm
    &&& a.config == b.config
    &&& a.fragment == b.fragment
    &&& a.initial_state == b.initial_state
    &&& a.current_line == b.current_line
}

impl Tokenizer {
    /// Builds the driver ready to accept input.
    ///
    /// Without a fragment context the engine is configured in
    /// whole-document mode, with missing tree-construction rules
    /// ignored and scripting enabled exactly when the document has a
    /// browsing context; the tokenizer starts in its default state.
    /// With a fragment context the engine is configured in fragment
    /// mode seeded with the context (and form) element, and the
    /// tokenizer's initial state is the one the context element's tag
    /// implies, fixed before any input is fed.
    pub fn new(
        dom: &Dom,
        has_browsing_context: bool,
        url: String,
        fragment_context: Option<FragmentContext>,
        parsing_algorithm: ParsingAlgorithm,
    ) -> (r: Tokenizer)
        requires
            match fragment_context {
                Some(fc) => fc.context_element < dom@.len(),
                None => true,
            },
        ensures
            r.url == url,
            r.algorithm == parsing_algorithm,
            r.config == (TreeBuilderConfig {
                ignore_missing_rules: true,
                scripting_enabled: has_browsing_context,
            }),
            r.fragment == fragment_context,
            r.initial_state == match fragment_context {
                Some(fc) => Some(
                    spec_state_for_context(dom@, fc.context_element as int, has_browsing_context),
                ),
                None => None::<LexicalState>,
            },
            r.current_line == 1,
            r.status is Ready,
            r.pending_script is None,
            !r.plaintext_forced,
    {
        let config = TreeBuilderConfig {
            ignore_missing_rules: true,
            scripting_enabled: has_browsing_context,
        };
        let initial_state = match fragment_context {
            Some(fc) => Some(
                tokenizer_state_for_context_elem(dom, fc.context_element, has_browsing_context),
            ),
            None => None,
        };
        Tokenizer {
            url,
            algorithm: parsing_algorithm,
            config,
            fragment: fragment_context,
            initial_state,
            current_line: 1,
            status: DriverStatus::Ready,
            pending_script: None,
            plaintext_forced: false,
        }
    }

    /// Accounts for the outcome of one engine feed call and surfaces
    /// it to the caller.
    ///
    /// The driver must be ready: a suspended session must be resumed
    /// first, and an ended one accepts no further input. When the
    /// engine paused on a script element, the driver suspends and
    /// records the element, so no further input is accepted until the
    /// caller has run the script and signalled resumption.
    pub fn feed(&mut self, dom: &Dom, outcome: FeedResult) -> (r: FeedResult)
        requires
            old(self).status is Ready,
            match outcome {
                FeedResult::ScriptFound(s) => s < dom@.len() && spec_is_script(dom@, s as int),
                FeedResult::Done => true,
            },
        ensures
            r == outcome,
            same_setup(*old(self), *final(self)),
            final(self).plaintext_forced == old(self).plaintext_forced,
            final(self).status == match outcome {
                FeedResult::Done => DriverStatus::Ready,
                FeedResult::ScriptFound(_) => DriverStatus::Suspended,
            },
            final(self).pending_script == match outcome {
                FeedResult::Done => None::<usize>,
                FeedResult::ScriptFound(s) => Some(s),
            },
    {
        match outcome {
            FeedResult::Done => {
                self.pending_script = None;
                outcome
            },
            FeedResult::ScriptFound(s) => {
                self.status = DriverStatus::Suspended;
                self.pending_script = Some(s);
                outcome
            },
        }
    }

    /// Signals that the pending script has run: the driver accepts
    /// input again from exactly where it paused.
    pub fn resume(&mut self) -> (script: usize)
        requires
            old(self).status is Suspended,
            old(self).pending_script is Some,
        ensures
            same_setup(*old(self), *final(self)),
            final(self).plaintext_forced == old(self).plaintext_forced,
            final(self).status is Ready,
            final(self).pending_script is None,
            script == old(self).pending_script->Some_0,
    {
        let s = self.pending_script.unwrap();
        self.status = DriverStatus::Ready;
        self.pending_script = None;
        s
    }

    /// Signals end of input: end-of-stream tree-construction cleanup
    /// runs in the engine, and the session takes no further input.
    pub fn end(&mut self)
        requires
            old(self).status is Ready,
        ensures
            same_setup(*old(self), *final(self)),
            final(self).plaintext_forced == old(self).plaintext_forced,
            final(self).status is Ended,
            final(self).pending_script is None,
    {
        self.pending_script = None;
        self.status = DriverStatus::Ended;
    }

    /// The immutable base URL associated with this parse.
    pub fn url(&self) -> (r: &String)
        ensures
            *r == self.url,
    {
        &self.url
    }

    /// Forces the tokenizer into the plaintext state: from here on no
    /// markup is recognized and everything until end of input is
    /// literal text. Once entered, the state is never left.
    pub fn set_plaintext_state(&mut self)
        ensures
            same_setup(*old(self), *final(self)),
            final(self).status == old(self).status,
            final(self).pending_script == old(self).pending_script,
            final(self).plaintext_forced,
    {
        self.plaintext_forced = true;
    }
}

} // verus!
