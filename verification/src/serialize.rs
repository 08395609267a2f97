//! The serialization engine: linearizes a subtree into a stream of
//! commands with an explicit stack, no recursion.
//!
//! The stream is specified by a recursive walk (`ser_node`), and the
//! iterator is proved to yield exactly that stream, one command per
//! call.

use vstd::prelude::*;

use crate::dom::{Dom, NodeData, NodeKind, is_void, spec_is_void, wf, wf_node};

verus! {

/// One step of the serialization stream: open an element, close an
/// element, or serialize a non-element node in place.
#[derive(Clone, Copy, Debug, PartialEq, Eq, Structural)]
pub enum SerializationCommand {
    OpenElement(usize),
    CloseElement(usize),
    SerializeNonelement(usize),
}

/// The serializable children of node `i`, in document order: none for
/// a void element, the content fragment's children for a template
/// element, and the direct children otherwise.
pub open spec fn ser_children_ids(nodes: Seq<NodeData>, i: int) -> Seq<usize> {
    if spec_is_void(nodes[i]) {
        Seq::empty()
    } else {
        match nodes[i].template_contents {
            Some(c) => nodes[c as int].children@,
            None => nodes[i].children@,
        }
    }
}

/// In a well-formed tree the serializable children of `i` lie in
/// bounds and strictly after `i`.
pub proof fn lemma_ser_children_in_range(nodes: Seq<NodeData>, i: int)
    requires
        wf(nodes),
        0 <= i < nodes.len(),
    ensures
        forall|k: int| 0 <= k < ser_children_ids(nodes, i).len()
            ==> i < #[trigger] ser_children_ids(nodes, i)[k] < nodes.len(),
{
    assert(wf_node(nodes, i));
    if !spec_is_void(nodes[i]) {
        match nodes[i].template_contents {
            Some(c) => {
                assert(wf_node(nodes, c as int));
            },
            None => {},
        }
    }
}

/// The serialization of the subtree at `i`: an element contributes an
/// open command, its serializable children in order, and a close
/// command; any other node contributes a single leaf command.
pub open spec fn ser_node(nodes: Seq<NodeData>, i: usize) -> Seq<SerializationCommand>
    decreases nodes.len() - i, 1int, 0int,
        when wf(nodes) && i < nodes.len()
{
    if nodes[i as int].kind is Element {
        seq![SerializationCommand::OpenElement(i)] + ser_kids(nodes, i, 0) + seq![
            SerializationCommand::CloseElement(i),
        ]
    } else {
        seq![SerializationCommand::SerializeNonelement(i)]
    }
}

/// The serialization of node `i`'s serializable children from
/// position `k` on, concatenated in document order.
pub open spec fn ser_kids(nodes: Seq<NodeData>, i: usize, k: int) -> Seq<SerializationCommand>
    decreases nodes.len() - i, 0int, ser_children_ids(nodes, i as int).len() - k,
        when wf(nodes) && i < nodes.len() && 0 <= k <= ser_children_ids(nodes, i as int).len()
{
    if k == ser_children_ids(nodes, i as int).len() {
        Seq::empty()
    } else {
        proof {
            lemma_ser_children_in_range(nodes, i as int);
        }
        ser_node(nodes, ser_children_ids(nodes, i as int)[k]) + ser_kids(nodes, i, k + 1)
    }
}

/// The full stream for a root node. A document or fragment root, or a
/// traversal that skips the root, contributes only its serializable
/// children's commands; any other root contributes its own subtree.
pub open spec fn serialize_cmds(nodes: Seq<NodeData>, root: usize, include_root: bool) -> Seq<
    SerializationCommand,
> {
    if !include_root || nodes[root as int].kind is DocumentFragment || nodes[root as int].kind
        is Document {
        ser_kids(nodes, root, 0)
    } else {
        ser_node(nodes, root)
    }
}

/// A command's indices are in bounds and its tag agrees with the
/// node's kind.
pub open spec fn cmd_wf(nodes: Seq<NodeData>, c: SerializationCommand) -> bool {
    match c {
        SerializationCommand::OpenElement(i) => i < nodes.len() && nodes[i as int].kind is Element,
        SerializationCommand::CloseElement(i) => i < nodes.len() && nodes[i as int].kind is Element,
        SerializationCommand::SerializeNonelement(i) => i < nodes.len() && !(nodes[i as int].kind
            is Element),
    }
}

/// Every command on the stack is well-formed.
pub open spec fn stack_wf(nodes: Seq<NodeData>, stack: Seq<SerializationCommand>) -> bool {
    forall|j: int| 0 <= j < stack.len() ==> cmd_wf(nodes, #[trigger] stack[j])
}

/// The commands a stack entry still stands for: an open command stands
/// for the whole subtree of its element; the other commands stand for
/// themselves.
pub open spec fn pending(nodes: Seq<NodeData>, c: SerializationCommand) -> Seq<
    SerializationCommand,
> {
    match c {
        SerializationCommand::OpenElement(i) => ser_node(nodes, i),
        _ => seq![c],
    }
}

/// Everything a stack still stands for, top of the stack first.
pub open spec fn pending_all(nodes: Seq<NodeData>, stack: Seq<SerializationCommand>) -> Seq<
    SerializationCommand,
>
    decreases stack.len(),
{
    if stack.len() == 0 {
        Seq::empty()
    } else {
        pending(nodes, stack.last()) + pending_all(nodes, stack.drop_last())
    }
}

/// A subtree's serialization is never empty.
pub proof fn lemma_ser_node_nonempty(nodes: Seq<NodeData>, i: usize)
    requires
        wf(nodes),
        i < nodes.len(),
    ensures
        ser_node(nodes, i).len() >= 1,
{
}

/// Pushing one command appends its pending commands at the front.
pub proof fn lemma_pending_all_push(
    nodes: Seq<NodeData>,
    stack: Seq<SerializationCommand>,
    c: SerializationCommand,
)
    ensures
        pending_all(nodes, stack.push(c)) == pending(nodes, c) + pending_all(nodes, stack),
{
    assert(stack.push(c).last() == c);
    assert(stack.push(c).drop_last() =~= stack);
}

/// A non-empty well-formed stack stands for a non-empty stream.
pub proof fn lemma_pending_all_nonempty(nodes: Seq<NodeData>, stack: Seq<SerializationCommand>)
    requires
        wf(nodes),
        stack_wf(nodes, stack),
        stack.len() > 0,
    ensures
        pending_all(nodes, stack).len() > 0,
{
    assert(cmd_wf(nodes, stack[stack.len() - 1]));
    match stack.last() {
        SerializationCommand::OpenElement(i) => {
            lemma_ser_node_nonempty(nodes, i);
        },
        _ => {},
    }
}

/// The first pending command of a non-empty well-formed stack is its
/// top command itself.
pub proof fn lemma_pending_all_first(nodes: Seq<NodeData>, stack: Seq<SerializationCommand>)
    requires
        wf(nodes),
        stack_wf(nodes, stack),
        stack.len() > 0,
    ensures
        pending_all(nodes, stack).len() > 0,
        pending_all(nodes, stack)[0] == stack.last(),
{
    assert(cmd_wf(nodes, stack[stack.len() - 1]));
    match stack.last() {
        SerializationCommand::OpenElement(i) => {
            lemma_ser_node_nonempty(nodes, i);
            assert(ser_node(nodes, i)[0] == SerializationCommand::OpenElement(i));
        },
        _ => {},
    }
}

/// The command pushed for node `n`: open for an element, a leaf
/// command otherwise.
pub open spec fn cmd_for(nodes: Seq<NodeData>, n: usize) -> SerializationCommand {
    if nodes[n as int].kind is Element {
        SerializationCommand::OpenElement(n)
    } else {
        SerializationCommand::SerializeNonelement(n)
    }
}

/// What the command for `n` stands for is exactly `n`'s subtree.
pub proof fn lemma_pending_cmd_for(nodes: Seq<NodeData>, n: usize)
    requires
        wf(nodes),
        n < nodes.len(),
    ensures
        pending(nodes, cmd_for(nodes, n)) == ser_node(nodes, n),
{
    if !(nodes[n as int].kind is Element) {
        assert(pending(nodes, cmd_for(nodes, n)) =~= ser_node(nodes, n));
    }
}

/// The serializable children of `n`, in reverse document order, ready
/// for stack-based consumption.
pub fn rev_children_iter(dom: &Dom, n: usize) -> (r: Vec<usize>)
    requires
        dom.wf(),
        n < dom@.len(),
    ensures
        r@.len() == ser_children_ids(dom@, n as int).len(),
        forall|t: int| 0 <= t < r@.len()
            ==> r@[t] == ser_children_ids(dom@, n as int)[r@.len() - 1 - t],
        forall|t: int| 0 <= t < r@.len() ==> (n as int) < #[trigger] r@[t] < dom@.len(),
{
    proof {
        lemma_ser_children_in_range(dom@, n as int);
    }
    let nd = &dom.nodes[n];
    if is_void(nd) {
        let r: Vec<usize> = Vec::new();
        return r;
    }
    let src: &Vec<usize> = match nd.template_contents {
        Some(c) => {
            proof {
                assert(wf_node(dom@, n as int));
            }
            &dom.nodes[c].children
        },
        None => &nd.children,
    };
    let len = src.len();
    let mut r: Vec<usize> = Vec::new();
    let mut j: usize = 0;
    while j < len
        invariant
            j <= len,
            len == src@.len(),
            src@ == ser_children_ids(dom@, n as int),
            r@.len() == j,
            forall|t: int| 0 <= t < j ==> r@[t] == src@[len - 1 - t],
        decreases len - j,
    {
        r.push(src[len - 1 - j]);
        j += 1;
    }
    r
}

/// The explicit traversal stack: each entry is a command still to be
/// delivered, the top standing for a whole subtree when it is an open
/// command.
pub struct SerializationIterator {
    pub stack: Vec<SerializationCommand>,
}

impl View for SerializationIterator {
    type V = Seq<SerializationCommand>;

    open spec fn view(&self) -> Seq<SerializationCommand> {
        self.stack@
    }
}

impl SerializationIterator {
    /// Every stacked command is well-formed for this tree.
    pub open spec fn wf(&self, nodes: Seq<NodeData>) -> bool {
        stack_wf(nodes, self.stack@)
    }

    /// Stacks the command for node `n`.
    pub fn push_node(&mut self, dom: &Dom, n: usize)
        requires
            dom.wf(),
            n < dom@.len(),
            old(self).wf(dom@),
        ensures
            final(self).wf(dom@),
            final(self)@ == old(self)@.push(cmd_for(dom@, n)),
    {
        let c = if dom.nodes[n].kind == NodeKind::Element {
            SerializationCommand::OpenElement(n)
        } else {
            SerializationCommand::SerializeNonelement(n)
        };
        self.stack.push(c);
        proof {
            assert forall|j: int| 0 <= j < self@.len() implies cmd_wf(dom@, #[trigger] self@[j]) by {
                if j < old(self)@.len() {
                    assert(cmd_wf(dom@, old(self)@[j]));
                }
            }
        }
    }

    /// Builds the traversal for `node`. The root itself is stacked
    /// unless the traversal skips it or the root is a document or
    /// fragment; then each serializable child is stacked instead, in
    /// reverse order.
    pub fn new(dom: &Dom, node: usize, skip_first: bool) -> (r: SerializationIterator)
        requires
            dom.wf(),
            node < dom@.len(),
        ensures
            r.wf(dom@),
            pending_all(dom@, r@) == serialize_cmds(dom@, node, !skip_first),
    {
        let mut ret = SerializationIterator { stack: Vec::new() };
        let kind = dom.nodes[node].kind;
        if skip_first || kind == NodeKind::DocumentFragment || kind == NodeKind::Document {
            let rev = rev_children_iter(dom, node);
            let ghost d = ser_children_ids(dom@, node as int);
            let mut j: usize = 0;
            proof {
                lemma_ser_children_in_range(dom@, node as int);
            }
            while j < rev.len()
                invariant
                    dom.wf(),
                    node < dom@.len(),
                    j <= rev.len(),
                    d == ser_children_ids(dom@, node as int),
                    rev@.len() == d.len(),
                    forall|t: int| 0 <= t < rev@.len() ==> rev@[t] == d[d.len() - 1 - t],
                    forall|t: int| 0 <= t < rev@.len() ==> (node as int) < #[trigger] rev@[t]
                        < dom@.len(),
                    ret.wf(dom@),
                    pending_all(dom@, ret@) == ser_kids(dom@, node, d.len() - j),
                decreases rev.len() - j,
            {
                let ghost before = ret@;
                let ghost m: int = d.len() - j - 1;
                ret.push_node(dom, rev[j]);
                proof {
                    lemma_pending_all_push(dom@, before, cmd_for(dom@, rev@[j as int]));
                    lemma_pending_cmd_for(dom@, rev@[j as int]);
                    assert(rev@[j as int] == d[m]);
                    assert(ser_kids(dom@, node, m) == ser_node(dom@, d[m]) + ser_kids(
                        dom@,
                        node,
                        m + 1,
                    ));
                }
                j += 1;
            }
            proof {
                assert(pending_all(dom@, ret@) == ser_kids(dom@, node, 0));
            }
        } else {
            let ghost before = ret@;
            ret.push_node(dom, node);
            proof {
                lemma_pending_all_push(dom@, before, cmd_for(dom@, node));
                lemma_pending_cmd_for(dom@, node);
                assert(pending_all(dom@, before) =~= Seq::<SerializationCommand>::empty());
                assert(pending_all(dom@, ret@) =~= ser_node(dom@, node));
            }
        }
        ret
    }

    /// Delivers the next command of the stream: pops the top of the
    /// stack; for an open command, first stacks the matching close
    /// command and then the element's serializable children on top of
    /// it, so they are consumed before the close.
    pub fn next(&mut self, dom: &Dom) -> (r: Option<SerializationCommand>)
        requires
            dom.wf(),
            old(self).wf(dom@),
        ensures
            final(self).wf(dom@),
            old(self)@.len() == 0 ==> r is None && final(self)@ == old(self)@,
            old(self)@.len() > 0 ==> {
                &&& pending_all(dom@, old(self)@).len() > 0
                &&& r == Some(pending_all(dom@, old(self)@)[0])
                &&& pending_all(dom@, final(self)@) == pending_all(dom@, old(self)@).drop_first()
            },
    {
        let res = self.stack.pop();
        match res {
            None => None,
            Some(cmd) => {
                let ghost popped = old(self)@;
                let ghost rest = self@;
                proof {
                    assert(popped.drop_last() =~= rest);
                    assert(cmd_wf(dom@, popped[popped.len() - 1]));
                    lemma_pending_all_nonempty(dom@, popped);
                }
                match cmd {
                    SerializationCommand::OpenElement(e) => {
                        self.stack.push(SerializationCommand::CloseElement(e));
                        let ghost with_close = self@;
                        proof {
                            assert forall|j: int| 0 <= j < self@.len() implies cmd_wf(
                                dom@,
                                #[trigger] self@[j],
                            ) by {
                                if j < rest.len() {
                                    assert(cmd_wf(dom@, popped[j]));
                                }
                            }
                            lemma_pending_all_push(
                                dom@,
                                rest,
                                SerializationCommand::CloseElement(e),
                            );
                        }
                        let rev = rev_children_iter(dom, e);
                        let ghost d = ser_children_ids(dom@, e as int);
                        let mut j: usize = 0;
                        while j < rev.len()
                            invariant
                                dom.wf(),
                                e < dom@.len(),
                                j <= rev.len(),
                                d == ser_children_ids(dom@, e as int),
                                rev@.len() == d.len(),
                                forall|t: int| 0 <= t < rev@.len() ==> rev@[t] == d[d.len() - 1
                                    - t],
                                forall|t: int| 0 <= t < rev@.len() ==> (e as int)
                                    < #[trigger] rev@[t] < dom@.len(),
                                self.wf(dom@),
                                pending_all(dom@, self@) == ser_kids(dom@, e, d.len() - j) + seq![
                                    SerializationCommand::CloseElement(e),
                                ] + pending_all(dom@, rest),
                            decreases rev.len() - j,
                        {
                            let ghost before = self@;
                            let ghost m: int = d.len() - j - 1;
                            self.push_node(dom, rev[j]);
                            proof {
                                lemma_pending_all_push(dom@, before, cmd_for(dom@, rev@[j as int]));
                                lemma_pending_cmd_for(dom@, rev@[j as int]);
                                assert(rev@[j as int] == d[m]);
                                assert(ser_kids(dom@, e, m) == ser_node(dom@, d[m]) + ser_kids(
                                    dom@,
                                    e,
                                    m + 1,
                                ));
                                assert(pending_all(dom@, self@) =~= ser_kids(dom@, e, m) + seq![
                                    SerializationCommand::CloseElement(e),
                                ] + pending_all(dom@, rest));
                            }
                            j += 1;
                        }
                        proof {
                            assert(ser_node(dom@, e) == seq![
                                SerializationCommand::OpenElement(e),
                            ] + ser_kids(dom@, e, 0) + seq![SerializationCommand::CloseElement(e)]);
                            assert(pending_all(dom@, popped) == ser_node(dom@, e) + pending_all(
                                dom@,
                                rest,
                            ));
                            assert(pending_all(dom@, popped)[0]
                                == SerializationCommand::OpenElement(e));
                            assert(pending_all(dom@, self@) =~= pending_all(
                                dom@,
                                popped,
                            ).drop_first());
                        }
                        Some(cmd)
                    },
                    _ => {
                        proof {
                            assert(pending(dom@, cmd) =~= seq![cmd]);
                            assert(pending_all(dom@, popped) == seq![cmd] + pending_all(
                                dom@,
                                rest,
                            ));
                            assert(pending_all(dom@, popped)[0] == cmd);
                            assert(pending_all(dom@, self@) =~= pending_all(
                                dom@,
                                popped,
                            ).drop_first());
                        }
                        Some(cmd)
                    },
                }
            },
        }
    }
}

} // verus!
