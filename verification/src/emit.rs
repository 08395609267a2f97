//! The markup emitter: turns the command stream into concrete output
//! events, rejecting structurally invalid leaves.

use vstd::prelude::*;

use crate::dom::{Attribute, AttrModel, Dom, NameModel, NodeData, NodeKind, QualName};
use crate::serialize::{
    SerializationCommand, SerializationIterator, cmd_wf, lemma_pending_all_first, pending_all,
    serialize_cmds,
};

verus! {

/// One concrete output event, consumable by any text-emitting sink.
#[derive(Debug, PartialEq, Eq)]
pub enum MarkupEvent {
    StartElem { name: QualName, attrs: Vec<Attribute> },
    EndElem { name: QualName },
    Doctype { name: String },
    Text { data: String },
    Comment { data: String },
    ProcessingInstruction { target: String, data: String },
}

/// Mathematical model of an output event.
pub enum EventModel {
    StartElem { name: NameModel, attrs: Seq<AttrModel> },
    EndElem { name: NameModel },
    Doctype { name: Seq<char> },
    Text { data: Seq<char> },
    Comment { data: Seq<char> },
    ProcessingInstruction { target: Seq<char>, data: Seq<char> },
}

impl View for MarkupEvent {
    type V = EventModel;

    open spec fn view(&self) -> EventModel {
        match self {
            MarkupEvent::StartElem { name, attrs } => EventModel::StartElem {
                name: name@,
                attrs: attrs@.map_values(|a: Attribute| a@),
            },
            MarkupEvent::EndElem { name } => EventModel::EndElem { name: name@ },
            MarkupEvent::Doctype { name } => EventModel::Doctype { name: name@ },
            MarkupEvent::Text { data } => EventModel::Text { data: data@ },
            MarkupEvent::Comment { data } => EventModel::Comment { data: data@ },
            MarkupEvent::ProcessingInstruction { target, data } => {
                EventModel::ProcessingInstruction { target: target@, data: data@ }
            },
        }
    }
}

/// A structural invariant violation: a node kind that must never reach
/// the leaf dispatch of the emitter.
#[derive(Clone, Copy, Debug, PartialEq, Eq, Structural)]
pub enum SerializeError {
    DocumentAsLeaf,
    ElementAsLeaf,
    AttrAsLeaf,
}

/// The command's indices are in bounds of the tree.
pub open spec fn cmd_in_range(nodes: Seq<NodeData>, c: SerializationCommand) -> bool {
    match c {
        SerializationCommand::OpenElement(i) => i < nodes.len(),
        SerializationCommand::CloseElement(i) => i < nodes.len(),
        SerializationCommand::SerializeNonelement(i) => i < nodes.len(),
    }
}

/// Whether a command may be emitted: a document, element or attribute
/// node must never arrive as a leaf.
pub open spec fn cmd_ok(nodes: Seq<NodeData>, c: SerializationCommand) -> bool {
    match c {
        SerializationCommand::SerializeNonelement(i) => {
            !(nodes[i as int].kind is Document || nodes[i as int].kind is Element
                || nodes[i as int].kind is Attr)
        },
        _ => true,
    }
}

/// The error reported for an invalid leaf command.
pub open spec fn err_of(nodes: Seq<NodeData>, c: SerializationCommand) -> SerializeError {
    match c {
        SerializationCommand::SerializeNonelement(i) => {
            if nodes[i as int].kind is Document {
                SerializeError::DocumentAsLeaf
            } else if nodes[i as int].kind is Element {
                SerializeError::ElementAsLeaf
            } else {
                SerializeError::AttrAsLeaf
            }
        },
        _ => SerializeError::AttrAsLeaf,
    }
}

/// The name of node `i` as the model of a qualified name.
pub open spec fn name_model(nodes: Seq<NodeData>, i: int) -> NameModel {
    nodes[i].name@
}

/// The attribute snapshot of node `i` as a model sequence.
pub open spec fn attrs_model(nodes: Seq<NodeData>, i: int) -> Seq<AttrModel> {
    nodes[i].attrs@.map_values(|a: Attribute| a@)
}

/// The events one valid command emits: one event for open, close,
/// doctype, text, comment and processing-instruction commands, none
/// for a fragment leaf, none for an invalid leaf.
pub open spec fn emit_cmd(nodes: Seq<NodeData>, c: SerializationCommand) -> Seq<EventModel> {
    match c {
        SerializationCommand::OpenElement(i) => seq![
            EventModel::StartElem {
                name: name_model(nodes, i as int),
                attrs: attrs_model(nodes, i as int),
            },
        ],
        SerializationCommand::CloseElement(i) => seq![
            EventModel::EndElem { name: name_model(nodes, i as int) },
        ],
        SerializationCommand::SerializeNonelement(i) => match nodes[i as int].kind {
            NodeKind::DocumentType => seq![
                EventModel::Doctype { name: nodes[i as int].name@.local },
            ],
            NodeKind::Text => seq![EventModel::Text { data: nodes[i as int].data@ }],
            NodeKind::Comment => seq![EventModel::Comment { data: nodes[i as int].data@ }],
            NodeKind::ProcessingInstruction => seq![
                EventModel::ProcessingInstruction {
                    target: nodes[i as int].name@.local,
                    data: nodes[i as int].data@,
                },
            ],
            _ => Seq::empty(),
        },
    }
}

/// The events a whole command stream emits, in order.
pub open spec fn emit_stream(nodes: Seq<NodeData>, s: Seq<SerializationCommand>) -> Seq<EventModel>
    decreases s.len(),
{
    if s.len() == 0 {
        Seq::empty()
    } else {
        emit_cmd(nodes, s.first()) + emit_stream(nodes, s.drop_first())
    }
}

/// Every command of the stream may be emitted.
pub open spec fn stream_ok(nodes: Seq<NodeData>, s: Seq<SerializationCommand>) -> bool {
    forall|k: int| 0 <= k < s.len() ==> cmd_ok(nodes, #[trigger] s[k])
}

/// A single command's stream is its own emission.
pub proof fn lemma_emit_stream_singleton(nodes: Seq<NodeData>, c: SerializationCommand)
    ensures
        emit_stream(nodes, seq![c]) == emit_cmd(nodes, c),
{
    assert(seq![c].drop_first() =~= Seq::<SerializationCommand>::empty());
    assert(emit_stream(nodes, seq![c].drop_first()) =~= Seq::<EventModel>::empty());
    assert(emit_stream(nodes, seq![c]) =~= emit_cmd(nodes, c));
}

/// Emission distributes over concatenation of command streams.
pub proof fn lemma_emit_stream_add(
    nodes: Seq<NodeData>,
    s1: Seq<SerializationCommand>,
    s2: Seq<SerializationCommand>,
)
    ensures
        emit_stream(nodes, s1 + s2) == emit_stream(nodes, s1) + emit_stream(nodes, s2),
    decreases s1.len(),
{
    if s1.len() == 0 {
        assert(s1 + s2 =~= s2);
        assert(emit_stream(nodes, s1) =~= Seq::<EventModel>::empty());
        assert(emit_stream(nodes, s1) + emit_stream(nodes, s2) =~= emit_stream(nodes, s2));
    } else {
        assert((s1 + s2).drop_first() =~= s1.drop_first() + s2);
        assert((s1 + s2).first() == s1.first());
        lemma_emit_stream_add(nodes, s1.drop_first(), s2);
        assert(emit_stream(nodes, s1 + s2) =~= emit_stream(nodes, s1) + emit_stream(nodes, s2));
    }
}

/// Appending a command appends its events.
pub proof fn lemma_emit_stream_push(
    nodes: Seq<NodeData>,
    s: Seq<SerializationCommand>,
    c: SerializationCommand,
)
    ensures
        emit_stream(nodes, s.push(c)) == emit_stream(nodes, s) + emit_cmd(nodes, c),
    decreases s.len(),
{
    if s.len() == 0 {
        assert(s.push(c).drop_first() =~= s);
        assert(s.push(c).first() == c);
        assert(emit_stream(nodes, s) =~= Seq::<EventModel>::empty());
        assert(emit_stream(nodes, s.push(c)) == emit_cmd(nodes, c) + emit_stream(nodes, s));
        assert(emit_stream(nodes, s.push(c)) =~= emit_stream(nodes, s) + emit_cmd(nodes, c));
    } else {
        assert(s.push(c).drop_first() =~= s.drop_first().push(c));
        assert(s.push(c).first() == s.first());
        lemma_emit_stream_push(nodes, s.drop_first(), c);
        assert(emit_stream(nodes, s.push(c)) =~= emit_stream(nodes, s) + emit_cmd(nodes, c));
    }
}

/// The view of a vector of events.
pub open spec fn events_view(evs: Seq<MarkupEvent>) -> Seq<EventModel> {
    evs.map_values(|e: MarkupEvent| e@)
}

/// Copies the qualified name of node `e`.
fn clone_name(name: &QualName) -> (r: QualName)
    ensures
        r == *name,
{
    QualName { ns: name.ns.clone(), local: name.local.clone() }
}

/// Emits a start-tag event for element `e`, its qualified name and a
/// snapshot of its attributes in declaration order.
pub fn start_element(dom: &Dom, e: usize) -> (ev: MarkupEvent)
    requires
        e < dom@.len(),
    ensures
        ev@ == (EventModel::StartElem {
            name: name_model(dom@, e as int),
            attrs: attrs_model(dom@, e as int),
        }),
{
    let nd = &dom.nodes[e];
    let name = clone_name(&nd.name);
    let mut attrs: Vec<Attribute> = Vec::new();
    let n = nd.attrs.len();
    let mut j: usize = 0;
    while j < n
        invariant
            j <= n,
            n == nd.attrs@.len(),
            attrs@.len() == j,
            forall|t: int| 0 <= t < j ==> attrs@[t] == nd.attrs@[t],
        decreases n - j,
    {
        let a = &nd.attrs[j];
        attrs.push(Attribute { name: clone_name(&a.name), value: a.value.clone() });
        proof {
            assert(attrs@[j as int] == nd.attrs@[j as int]);
        }
        j += 1;
    }
    proof {
        assert(attrs@ =~= nd.attrs@);
    }
    MarkupEvent::StartElem { name, attrs }
}

/// Emits an end-tag event for element `e`.
pub fn end_element(dom: &Dom, e: usize) -> (ev: MarkupEvent)
    requires
        e < dom@.len(),
    ensures
        ev@ == (EventModel::EndElem { name: name_model(dom@, e as int) }),
{
    let nd = &dom.nodes[e];
    MarkupEvent::EndElem { name: clone_name(&nd.name) }
}

/// The events of an optional event value.
pub open spec fn opt_event_view(o: Option<MarkupEvent>) -> Seq<EventModel> {
    match o {
        Some(e) => seq![e@],
        None => Seq::empty(),
    }
}

/// Emits the events of one command: a start tag, an end tag, or the
/// leaf dispatch on the node's kind. A fragment leaf emits nothing; a
/// document, element or attribute leaf is a structural invariant
/// violation and is rejected.
pub fn emit_command(dom: &Dom, cmd: SerializationCommand) -> (r: Result<
    Option<MarkupEvent>,
    SerializeError,
>)
    requires
        cmd_in_range(dom@, cmd),
    ensures
        cmd_ok(dom@, cmd) <==> r is Ok,
        r matches Ok(o) ==> opt_event_view(o) == emit_cmd(dom@, cmd),
        r matches Err(e) ==> e == err_of(dom@, cmd),
{
    match cmd {
        SerializationCommand::OpenElement(e) => {
            let ev = start_element(dom, e);
            proof {
                assert(opt_event_view(Some(ev)) =~= emit_cmd(dom@, cmd));
            }
            Ok(Some(ev))
        },
        SerializationCommand::CloseElement(e) => {
            let ev = end_element(dom, e);
            proof {
                assert(opt_event_view(Some(ev)) =~= emit_cmd(dom@, cmd));
            }
            Ok(Some(ev))
        },
        SerializationCommand::SerializeNonelement(n) => {
            let nd = &dom.nodes[n];
            match nd.kind {
                NodeKind::DocumentType => {
                    let ev = MarkupEvent::Doctype { name: nd.name.local.clone() };
                    proof {
                        assert(opt_event_view(Some(ev)) =~= emit_cmd(dom@, cmd));
                    }
                    Ok(Some(ev))
                },
                NodeKind::Text => {
                    let ev = MarkupEvent::Text { data: nd.data.clone() };
                    proof {
                        assert(opt_event_view(Some(ev)) =~= emit_cmd(dom@, cmd));
                    }
                    Ok(Some(ev))
                },
                NodeKind::Comment => {
                    let ev = MarkupEvent::Comment { data: nd.data.clone() };
                    proof {
                        assert(opt_event_view(Some(ev)) =~= emit_cmd(dom@, cmd));
                    }
                    Ok(Some(ev))
                },
                NodeKind::ProcessingInstruction => {
                    let ev = MarkupEvent::ProcessingInstruction {
                        target: nd.name.local.clone(),
                        data: nd.data.clone(),
                    };
                    proof {
                        assert(opt_event_view(Some(ev)) =~= emit_cmd(dom@, cmd));
                    }
                    Ok(Some(ev))
                },
                NodeKind::DocumentFragment => {
                    proof {
                        assert(opt_event_view(None) =~= emit_cmd(dom@, cmd));
                    }
                    Ok(None)
                },
                NodeKind::Document => Err(SerializeError::DocumentAsLeaf),
                NodeKind::Element => Err(SerializeError::ElementAsLeaf),
                NodeKind::Attr => Err(SerializeError::AttrAsLeaf),
            }
        },
    }
}

/// Serializes the subtree at `node` into output events.
///
/// The event stream is exactly the emission of the command stream of
/// the traversal; if a document, element or attribute node reaches the
/// leaf dispatch, the first such violation aborts the serialization.
pub fn serialize(dom: &Dom, node: usize, include_root: bool) -> (r: Result<
    Vec<MarkupEvent>,
    SerializeError,
>)
    requires
        dom.wf(),
        node < dom@.len(),
    ensures
        stream_ok(dom@, serialize_cmds(dom@, node, include_root)) <==> r is Ok,
        r matches Ok(evs) ==> events_view(evs@) == emit_stream(
            dom@,
            serialize_cmds(dom@, node, include_root),
        ),
        r matches Err(e) ==> exists|k: int|
            {
                &&& 0 <= k < serialize_cmds(dom@, node, include_root).len()
                &&& !cmd_ok(dom@, #[trigger] serialize_cmds(dom@, node, include_root)[k])
                &&& e == err_of(dom@, serialize_cmds(dom@, node, include_root)[k])
                &&& forall|j: int| 0 <= j < k ==> cmd_ok(
                    dom@,
                    #[trigger] serialize_cmds(dom@, node, include_root)[j],
                )
            },
{
    let ghost stream = serialize_cmds(dom@, node, include_root);
    let mut iter = SerializationIterator::new(dom, node, !include_root);
    let mut out: Vec<MarkupEvent> = Vec::new();
    let ghost mut emitted: int = 0;
    loop
        invariant
            dom.wf(),
            node < dom@.len(),
            iter.wf(dom@),
            stream == serialize_cmds(dom@, node, include_root),
            0 <= emitted <= stream.len(),
            pending_all(dom@, iter@) == stream.skip(emitted),
            events_view(out@) == emit_stream(dom@, stream.take(emitted)),
            forall|j: int| 0 <= j < emitted ==> cmd_ok(dom@, #[trigger] stream[j]),
        decreases stream.len() - emitted,
    {
        let ghost stack_before = iter@;
        let step = iter.next(dom);
        match step {
            None => {
                proof {
                    assert(stream.skip(emitted).len() == 0);
                    assert(emitted == stream.len());
                    assert(stream.take(emitted) =~= stream);
                }
                return Ok(out);
            },
            Some(cmd) => {
                proof {
                    lemma_pending_all_first(dom@, stack_before);
                    assert(stream.skip(emitted)[0] == stream[emitted]);
                    assert(cmd == stream[emitted]);
                    assert(cmd == stack_before.last());
                    assert(cmd_wf(dom@, stack_before[stack_before.len() - 1]));
                }
                let res = emit_command(dom, cmd);
                match res {
                    Err(e) => {
                        proof {
                            assert(!cmd_ok(dom@, stream[emitted]));
                            assert(e == err_of(dom@, stream[emitted]));
                        }
                        return Err(e);
                    },
                    Ok(opt) => {
                        match opt {
                            Some(ev) => {
                                let ghost out_before = out@;
                                out.push(ev);
                                proof {
                                    assert(events_view(out@) =~= events_view(out_before).push(
                                        ev@,
                                    ));
                                }
                            },
                            None => {},
                        }
                        proof {
                            lemma_emit_stream_push(dom@, stream.take(emitted), cmd);
                            assert(stream.take(emitted).push(cmd) =~= stream.take(emitted + 1));
                            assert(events_view(out@) =~= emit_stream(
                                dom@,
                                stream.take(emitted + 1),
                            ));
                            assert(stream.skip(emitted).drop_first() =~= stream.skip(emitted + 1));
                            emitted = emitted + 1;
                        }
                    },
                }
            },
        }
    }
}

} // verus!
