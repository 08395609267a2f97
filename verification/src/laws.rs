//! Laws of the serialization engine: what the command stream of a
//! traversal looks like for void elements, template elements, and the
//! two root-inclusion modes.

use vstd::prelude::*;

use crate::dom::{NodeData, spec_is_void, wf, wf_node};
use crate::emit::{emit_cmd, emit_stream, lemma_emit_stream_add, lemma_emit_stream_singleton};
use crate::serialize::{
    SerializationCommand, cmd_wf, lemma_ser_children_in_range, ser_children_ids, ser_kids,
    ser_node, serialize_cmds,
};

verus! {

/// The node a command speaks of.
pub open spec fn cmd_node(c: SerializationCommand) -> usize {
    match c {
        SerializationCommand::OpenElement(i) => i,
        SerializationCommand::CloseElement(i) => i,
        SerializationCommand::SerializeNonelement(i) => i,
    }
}

/// Node `n` is visited by the traversal of the subtree at `i`: it is
/// `i` itself, or a node the traversal reaches through the
/// serializable children of an element.
pub open spec fn reaches(nodes: Seq<NodeData>, i: usize, n: usize) -> bool
    decreases nodes.len() - i, 1int, 0int,
        when wf(nodes) && i < nodes.len()
{
    n == i || (nodes[i as int].kind is Element && reaches_kids(nodes, i, 0, n))
}

/// Node `n` is visited through one of the serializable children of
/// `i` from position `k` on.
pub open spec fn reaches_kids(nodes: Seq<NodeData>, i: usize, k: int, n: usize) -> bool
    decreases nodes.len() - i, 0int, ser_children_ids(nodes, i as int).len() - k,
        when wf(nodes) && i < nodes.len() && 0 <= k <= ser_children_ids(nodes, i as int).len()
{
    if k == ser_children_ids(nodes, i as int).len() {
        false
    } else {
        proof {
            lemma_ser_children_in_range(nodes, i as int);
        }
        reaches(nodes, ser_children_ids(nodes, i as int)[k], n) || reaches_kids(nodes, i, k + 1, n)
    }
}

/// How often command `c` occurs in a stream.
pub open spec fn count_cmd(s: Seq<SerializationCommand>, c: SerializationCommand) -> nat
    decreases s.len(),
{
    if s.len() == 0 {
        0
    } else {
        (if s.first() == c {
            1nat
        } else {
            0nat
        }) + count_cmd(s.drop_first(), c)
    }
}

/// The tree is a proper tree: no node is the serializable child of
/// two positions.
pub open spec fn tree_shaped(nodes: Seq<NodeData>) -> bool {
    forall|p1: int, k1: int, p2: int, k2: int|
        (0 <= p1 < nodes.len() && 0 <= k1 < ser_children_ids(nodes, p1).len() && 0 <= p2
            < nodes.len() && 0 <= k2 < ser_children_ids(nodes, p2).len()
            && #[trigger] ser_children_ids(nodes, p1)[k1] == #[trigger] ser_children_ids(
            nodes,
            p2,
        )[k2]) ==> (p1 == p2 && k1 == k2)
}

proof fn lemma_count_singleton(c: SerializationCommand, t: SerializationCommand)
    ensures
        count_cmd(seq![c], t) == if c == t {
            1nat
        } else {
            0nat
        },
{
    assert(seq![c].drop_first() =~= Seq::<SerializationCommand>::empty());
    assert(count_cmd(Seq::<SerializationCommand>::empty(), t) == 0);
    assert(seq![c].first() == c);
    assert(count_cmd(seq![c], t) == (if c == t {
        1nat
    } else {
        0nat
    }) + count_cmd(seq![c].drop_first(), t));
}

proof fn lemma_count_add(s1: Seq<SerializationCommand>, s2: Seq<SerializationCommand>, t: SerializationCommand)
    ensures
        count_cmd(s1 + s2, t) == count_cmd(s1, t) + count_cmd(s2, t),
    decreases s1.len(),
{
    if s1.len() == 0 {
        assert(s1 + s2 =~= s2);
    } else {
        assert((s1 + s2).drop_first() =~= s1.drop_first() + s2);
        assert((s1 + s2).first() == s1.first());
        lemma_count_add(s1.drop_first(), s2, t);
    }
}

/// A visited node lies at or after the subtree's root.
proof fn lemma_reaches_ge(nodes: Seq<NodeData>, i: usize, n: usize)
    requires
        wf(nodes),
        i < nodes.len(),
        reaches(nodes, i, n),
    ensures
        n >= i,
        n < nodes.len(),
    decreases nodes.len() - i, 1int, 0int,
{
    if n != i {
        lemma_reaches_kids_ge(nodes, i, 0, n);
    }
}

proof fn lemma_reaches_kids_ge(nodes: Seq<NodeData>, i: usize, k: int, n: usize)
    requires
        wf(nodes),
        i < nodes.len(),
        0 <= k <= ser_children_ids(nodes, i as int).len(),
        reaches_kids(nodes, i, k, n),
    ensures
        n > i,
        n < nodes.len(),
    decreases nodes.len() - i, 0int, ser_children_ids(nodes, i as int).len() - k,
{
    lemma_ser_children_in_range(nodes, i as int);
    if k == ser_children_ids(nodes, i as int).len() {
        assert(false);
    } else if reaches(nodes, ser_children_ids(nodes, i as int)[k], n) {
        lemma_reaches_ge(nodes, ser_children_ids(nodes, i as int)[k], n);
    } else {
        lemma_reaches_kids_ge(nodes, i, k + 1, n);
    }
}

/// Visiting is transitive.
proof fn lemma_reaches_trans(nodes: Seq<NodeData>, a: usize, b: usize, n: usize)
    requires
        wf(nodes),
        a < nodes.len(),
        reaches(nodes, a, b),
        b < nodes.len(),
        reaches(nodes, b, n),
    ensures
        reaches(nodes, a, n),
    decreases nodes.len() - a, 1int, 0int,
{
    if a != b {
        lemma_reaches_kids_trans(nodes, a, 0, b, n);
    }
}

proof fn lemma_reaches_kids_trans(nodes: Seq<NodeData>, a: usize, k: int, b: usize, n: usize)
    requires
        wf(nodes),
        a < nodes.len(),
        0 <= k <= ser_children_ids(nodes, a as int).len(),
        reaches_kids(nodes, a, k, b),
        b < nodes.len(),
        reaches(nodes, b, n),
    ensures
        reaches_kids(nodes, a, k, n),
    decreases nodes.len() - a, 0int, ser_children_ids(nodes, a as int).len() - k,
{
    lemma_ser_children_in_range(nodes, a as int);
    if k == ser_children_ids(nodes, a as int).len() {
        assert(false);
    } else if reaches(nodes, ser_children_ids(nodes, a as int)[k], b) {
        lemma_reaches_trans(nodes, ser_children_ids(nodes, a as int)[k], b, n);
    } else {
        lemma_reaches_kids_trans(nodes, a, k + 1, b, n);
    }
}

/// The subtree's root visits each of its serializable children.
proof fn lemma_edge_reaches(nodes: Seq<NodeData>, i: usize, kk: int)
    requires
        wf(nodes),
        i < nodes.len(),
        nodes[i as int].kind is Element,
        0 <= kk < ser_children_ids(nodes, i as int).len(),
    ensures
        reaches(nodes, i, ser_children_ids(nodes, i as int)[kk]),
{
    lemma_ser_children_in_range(nodes, i as int);
    lemma_kids_mono(nodes, i, 0, kk);
}

proof fn lemma_kids_mono(nodes: Seq<NodeData>, i: usize, k: int, kk: int)
    requires
        wf(nodes),
        i < nodes.len(),
        0 <= k <= kk < ser_children_ids(nodes, i as int).len(),
    ensures
        reaches_kids(nodes, i, k, ser_children_ids(nodes, i as int)[kk]),
    decreases kk - k,
{
    lemma_ser_children_in_range(nodes, i as int);
    if k == kk {
        assert(reaches(
            nodes,
            ser_children_ids(nodes, i as int)[kk],
            ser_children_ids(nodes, i as int)[kk],
        ));
    } else {
        lemma_kids_mono(nodes, i, k + 1, kk);
    }
}

/// A visited node other than the root has a parent position inside
/// the subtree: an element whose serializable-child list delivers it.
proof fn lemma_reach_parent(nodes: Seq<NodeData>, x: usize, n: usize)
    requires
        wf(nodes),
        x < nodes.len(),
        reaches(nodes, x, n),
        n != x,
    ensures
        exists|p: int, kk: int|
            #![auto]
            0 <= p < nodes.len() && 0 <= kk < ser_children_ids(nodes, p).len()
                && ser_children_ids(nodes, p)[kk] == n && reaches(nodes, x, p as usize),
    decreases nodes.len() - x, 1int, 0int,
{
    lemma_reach_parent_kids(nodes, x, 0, n);
}

proof fn lemma_reach_parent_kids(nodes: Seq<NodeData>, x: usize, k: int, n: usize)
    requires
        wf(nodes),
        x < nodes.len(),
        nodes[x as int].kind is Element,
        0 <= k <= ser_children_ids(nodes, x as int).len(),
        reaches_kids(nodes, x, k, n),
    ensures
        exists|p: int, kk: int|
            #![auto]
            0 <= p < nodes.len() && 0 <= kk < ser_children_ids(nodes, p).len()
                && ser_children_ids(nodes, p)[kk] == n && reaches(nodes, x, p as usize),
    decreases nodes.len() - x, 0int, ser_children_ids(nodes, x as int).len() - k,
{
    lemma_ser_children_in_range(nodes, x as int);
    if k == ser_children_ids(nodes, x as int).len() {
        assert(false);
    } else {
        let c = ser_children_ids(nodes, x as int)[k];
        if reaches(nodes, c, n) {
            if c == n {
                assert(reaches(nodes, x, x));
                assert(0 <= x < nodes.len() && 0 <= k < ser_children_ids(
                    nodes,
                    x as int,
                ).len() && ser_children_ids(nodes, x as int)[k] == n && reaches(nodes, x, x));
            } else {
                lemma_reach_parent(nodes, c, n);
                let (p, kk): (int, int) = choose|p: int, kk: int|
                    #![auto]
                    0 <= p < nodes.len() && 0 <= kk < ser_children_ids(nodes, p).len()
                        && ser_children_ids(nodes, p)[kk] == n && reaches(nodes, c, p as usize);
                lemma_edge_reaches(nodes, x, k);
                lemma_reaches_trans(nodes, x, c, p as usize);
                assert(0 <= p < nodes.len() && 0 <= kk < ser_children_ids(nodes, p).len()
                    && ser_children_ids(nodes, p)[kk] == n && reaches(nodes, x, p as usize));
            }
        } else {
            lemma_reach_parent_kids(nodes, x, k + 1, n);
        }
    }
}

/// In a proper tree, two subtree roots that both visit a node are
/// comparable: one visits the other.
proof fn lemma_comparable(nodes: Seq<NodeData>, a: usize, b: usize, n: usize)
    requires
        wf(nodes),
        tree_shaped(nodes),
        a < nodes.len(),
        b < nodes.len(),
        reaches(nodes, a, n),
        reaches(nodes, b, n),
    ensures
        reaches(nodes, a, b) || reaches(nodes, b, a),
    decreases n,
{
    if a == n || b == n {
    } else {
        lemma_reach_parent(nodes, a, n);
        lemma_reach_parent(nodes, b, n);
        let (pa, ka): (int, int) = choose|p: int, kk: int|
            #![auto]
            0 <= p < nodes.len() && 0 <= kk < ser_children_ids(nodes, p).len()
                && ser_children_ids(nodes, p)[kk] == n && reaches(nodes, a, p as usize);
        let (pb, kb): (int, int) = choose|p: int, kk: int|
            #![auto]
            0 <= p < nodes.len() && 0 <= kk < ser_children_ids(nodes, p).len()
                && ser_children_ids(nodes, p)[kk] == n && reaches(nodes, b, p as usize);
        assert(pa == pb && ka == kb);
        lemma_ser_children_in_range(nodes, pa);
        assert((pa as usize) < n);
        lemma_comparable(nodes, a, b, pa as usize);
    }
}

/// Some position at or after `k` delivers a node that visits `n`.
proof fn lemma_kids_witness(nodes: Seq<NodeData>, i: usize, k: int, n: usize)
    requires
        wf(nodes),
        i < nodes.len(),
        0 <= k <= ser_children_ids(nodes, i as int).len(),
        reaches_kids(nodes, i, k, n),
    ensures
        exists|kk: int|
            #![auto]
            k <= kk < ser_children_ids(nodes, i as int).len() && reaches(
                nodes,
                ser_children_ids(nodes, i as int)[kk],
                n,
            ),
    decreases ser_children_ids(nodes, i as int).len() - k,
{
    lemma_ser_children_in_range(nodes, i as int);
    if k == ser_children_ids(nodes, i as int).len() {
        assert(false);
    } else if reaches(nodes, ser_children_ids(nodes, i as int)[k], n) {
        assert(k <= k < ser_children_ids(nodes, i as int).len() && reaches(
            nodes,
            ser_children_ids(nodes, i as int)[k],
            n,
        ));
    } else {
        lemma_kids_witness(nodes, i, k + 1, n);
    }
}

/// Distinct sibling subtrees are disjoint: if the child at `k` visits
/// `n`, no later sibling does.
proof fn lemma_siblings_disjoint(nodes: Seq<NodeData>, i: usize, k: int, n: usize)
    requires
        wf(nodes),
        tree_shaped(nodes),
        i < nodes.len(),
        0 <= k < ser_children_ids(nodes, i as int).len(),
        reaches(nodes, ser_children_ids(nodes, i as int)[k], n),
    ensures
        !reaches_kids(nodes, i, k + 1, n),
{
    lemma_ser_children_in_range(nodes, i as int);
    let c = ser_children_ids(nodes, i as int)[k];
    if reaches_kids(nodes, i, k + 1, n) {
        lemma_kids_witness(nodes, i, k + 1, n);
        let kk = choose|kk: int|
            #![auto]
            k + 1 <= kk < ser_children_ids(nodes, i as int).len() && reaches(
                nodes,
                ser_children_ids(nodes, i as int)[kk],
                n,
            );
        let d = ser_children_ids(nodes, i as int)[kk];
        lemma_reaches_ge(nodes, c, n);
        lemma_reaches_ge(nodes, d, n);
        if c == d {
            assert(false);
        } else {
            lemma_comparable(nodes, c, d, n);
            if reaches(nodes, c, d) {
                lemma_reach_parent(nodes, c, d);
                let (p, pk): (int, int) = choose|p: int, pk: int|
                    #![auto]
                    0 <= p < nodes.len() && 0 <= pk < ser_children_ids(nodes, p).len()
                        && ser_children_ids(nodes, p)[pk] == d && reaches(nodes, c, p as usize);
                assert(p == i && pk == kk);
                lemma_reaches_ge(nodes, c, i);
                assert(false);
            } else {
                lemma_reach_parent(nodes, d, c);
                let (p, pk): (int, int) = choose|p: int, pk: int|
                    #![auto]
                    0 <= p < nodes.len() && 0 <= pk < ser_children_ids(nodes, p).len()
                        && ser_children_ids(nodes, p)[pk] == c && reaches(nodes, d, p as usize);
                assert(p == i && pk == k);
                lemma_reaches_ge(nodes, d, i);
                assert(false);
            }
        }
    }
}

/// In the subtree stream of `i`, a well-formed command `t` occurs
/// exactly once if the traversal visits its node, not at all
/// otherwise.
pub proof fn lemma_count_node(nodes: Seq<NodeData>, i: usize, t: SerializationCommand)
    requires
        wf(nodes),
        tree_shaped(nodes),
        i < nodes.len(),
        cmd_wf(nodes, t),
    ensures
        count_cmd(ser_node(nodes, i), t) == if reaches(nodes, i, cmd_node(t)) {
            1nat
        } else {
            0nat
        },
    decreases nodes.len() - i, 1int, 0int,
{
    let n = cmd_node(t);
    if nodes[i as int].kind is Element {
        let open = seq![SerializationCommand::OpenElement(i)];
        let close = seq![SerializationCommand::CloseElement(i)];
        let kids = ser_kids(nodes, i, 0);
        assert(ser_node(nodes, i) == open + kids + close);
        lemma_count_add(open + kids, close, t);
        lemma_count_add(open, kids, t);
        lemma_count_singleton(SerializationCommand::OpenElement(i), t);
        lemma_count_singleton(SerializationCommand::CloseElement(i), t);
        lemma_count_kids(nodes, i, 0, t);
        if reaches_kids(nodes, i, 0, i) {
            lemma_reaches_kids_ge(nodes, i, 0, i);
        }
        if n == i {
            assert(count_cmd(kids, t) == 0);
        } else {
            assert(count_cmd(open, t) == 0);
            assert(count_cmd(close, t) == 0);
        }
    } else {
        lemma_count_singleton(SerializationCommand::SerializeNonelement(i), t);
        assert(ser_node(nodes, i) == seq![SerializationCommand::SerializeNonelement(i)]);
    }
}

/// In the child streams of `i` from position `k` on, a well-formed
/// command `t` occurs exactly once if some child subtree visits its
/// node, not at all otherwise.
pub proof fn lemma_count_kids(nodes: Seq<NodeData>, i: usize, k: int, t: SerializationCommand)
    requires
        wf(nodes),
        tree_shaped(nodes),
        i < nodes.len(),
        0 <= k <= ser_children_ids(nodes, i as int).len(),
        cmd_wf(nodes, t),
    ensures
        count_cmd(ser_kids(nodes, i, k), t) == if reaches_kids(nodes, i, k, cmd_node(t)) {
            1nat
        } else {
            0nat
        },
    decreases nodes.len() - i, 0int, ser_children_ids(nodes, i as int).len() - k,
{
    let n = cmd_node(t);
    lemma_ser_children_in_range(nodes, i as int);
    if k == ser_children_ids(nodes, i as int).len() {
        assert(count_cmd(ser_kids(nodes, i, k), t) == 0);
    } else {
        let c = ser_children_ids(nodes, i as int)[k];
        assert(ser_kids(nodes, i, k) == ser_node(nodes, c) + ser_kids(nodes, i, k + 1));
        lemma_count_add(ser_node(nodes, c), ser_kids(nodes, i, k + 1), t);
        lemma_count_node(nodes, c, t);
        lemma_count_kids(nodes, i, k + 1, t);
        if reaches(nodes, c, n) {
            lemma_siblings_disjoint(nodes, i, k, n);
        }
    }
}

/// Whether a full traversal of `root` visits node `n`: through the
/// serializable children alone for a document or fragment root, which
/// contribute no commands of their own, and through the root's own
/// subtree otherwise.
pub open spec fn visited(nodes: Seq<NodeData>, root: usize, n: usize) -> bool {
    if nodes[root as int].kind is Document || nodes[root as int].kind is DocumentFragment {
        reaches_kids(nodes, root, 0, n)
    } else {
        reaches(nodes, root, n)
    }
}

/// The traversal visits every reachable serializable node exactly
/// once: in the stream of a full traversal, a well-formed command —
/// an element's open or close command, another node's leaf command —
/// occurs exactly once if the traversal visits its node, and not at
/// all otherwise. The stream itself is a finite sequence, so the
/// traversal is finite for every well-formed tree.
pub proof fn lemma_visits_once(nodes: Seq<NodeData>, root: usize, t: SerializationCommand)
    requires
        wf(nodes),
        tree_shaped(nodes),
        root < nodes.len(),
        cmd_wf(nodes, t),
    ensures
        count_cmd(serialize_cmds(nodes, root, true), t) == if visited(nodes, root, cmd_node(t)) {
            1nat
        } else {
            0nat
        },
{
    if nodes[root as int].kind is Document || nodes[root as int].kind is DocumentFragment {
        lemma_count_kids(nodes, root, 0, t);
    } else {
        lemma_count_node(nodes, root, t);
    }
}

/// Every element the traversal visits gets exactly one open and one
/// close command in the full stream.
pub proof fn lemma_element_pair(nodes: Seq<NodeData>, root: usize, e: usize)
    requires
        wf(nodes),
        tree_shaped(nodes),
        root < nodes.len(),
        e < nodes.len(),
        nodes[e as int].kind is Element,
        visited(nodes, root, e),
    ensures
        count_cmd(serialize_cmds(nodes, root, true), SerializationCommand::OpenElement(e)) == 1,
        count_cmd(serialize_cmds(nodes, root, true), SerializationCommand::CloseElement(e)) == 1,
{
    lemma_visits_once(nodes, root, SerializationCommand::OpenElement(e));
    lemma_visits_once(nodes, root, SerializationCommand::CloseElement(e));
}

/// Every visited subtree stands as one contiguous segment of the
/// stream: an element's descendants' commands lie strictly between
/// its open and close commands.
pub proof fn lemma_subtree_segment(nodes: Seq<NodeData>, i: usize, n: usize)
    requires
        wf(nodes),
        i < nodes.len(),
        reaches(nodes, i, n),
    ensures
        exists|x: Seq<SerializationCommand>, y: Seq<SerializationCommand>|
            #![auto]
            ser_node(nodes, i) == x + ser_node(nodes, n) + y,
    decreases nodes.len() - i, 1int, 0int,
{
    if n == i {
        let x = Seq::<SerializationCommand>::empty();
        let y = Seq::<SerializationCommand>::empty();
        assert(ser_node(nodes, i) =~= x + ser_node(nodes, n) + y);
    } else {
        lemma_subtree_segment_kids(nodes, i, 0, n);
        let (x, y): (Seq<SerializationCommand>, Seq<SerializationCommand>) = choose|
            x: Seq<SerializationCommand>,
            y: Seq<SerializationCommand>,
        |
            #![auto]
            ser_kids(nodes, i, 0) == x + ser_node(nodes, n) + y;
        let open = seq![SerializationCommand::OpenElement(i)];
        let close = seq![SerializationCommand::CloseElement(i)];
        assert(ser_node(nodes, i) =~= (open + x) + ser_node(nodes, n) + (y + close));
    }
}

proof fn lemma_subtree_segment_kids(nodes: Seq<NodeData>, i: usize, k: int, n: usize)
    requires
        wf(nodes),
        i < nodes.len(),
        0 <= k <= ser_children_ids(nodes, i as int).len(),
        reaches_kids(nodes, i, k, n),
    ensures
        exists|x: Seq<SerializationCommand>, y: Seq<SerializationCommand>|
            #![auto]
            ser_kids(nodes, i, k) == x + ser_node(nodes, n) + y,
    decreases nodes.len() - i, 0int, ser_children_ids(nodes, i as int).len() - k,
{
    lemma_ser_children_in_range(nodes, i as int);
    if k == ser_children_ids(nodes, i as int).len() {
        assert(false);
    } else {
        let c = ser_children_ids(nodes, i as int)[k];
        assert(ser_kids(nodes, i, k) == ser_node(nodes, c) + ser_kids(nodes, i, k + 1));
        if reaches(nodes, c, n) {
            lemma_subtree_segment(nodes, c, n);
            let (x, y): (Seq<SerializationCommand>, Seq<SerializationCommand>) = choose|
                x: Seq<SerializationCommand>,
                y: Seq<SerializationCommand>,
            |
                #![auto]
                ser_node(nodes, c) == x + ser_node(nodes, n) + y;
            assert(ser_kids(nodes, i, k) =~= x + ser_node(nodes, n) + (y + ser_kids(
                nodes,
                i,
                k + 1,
            )));
        } else {
            lemma_subtree_segment_kids(nodes, i, k + 1, n);
            let (x, y): (Seq<SerializationCommand>, Seq<SerializationCommand>) = choose|
                x: Seq<SerializationCommand>,
                y: Seq<SerializationCommand>,
            |
                #![auto]
                ser_kids(nodes, i, k + 1) == x + ser_node(nodes, n) + y;
            assert(ser_kids(nodes, i, k) =~= (ser_node(nodes, c) + x) + ser_node(nodes, n) + y);
        }
    }
}

/// In a subtree free of void and template elements the serializable
/// children of every visited node are exactly its live children: the
/// traversal walks the live tree itself.
pub proof fn lemma_clean_subtree_children(nodes: Seq<NodeData>, root: usize, n: usize)
    requires
        wf(nodes),
        root < nodes.len(),
        forall|m: usize|
            #![trigger spec_is_void(nodes[m as int])]
            m < nodes.len() && reaches(nodes, root, m) ==> !spec_is_void(nodes[m as int])
                && nodes[m as int].template_contents is None,
        n < nodes.len(),
        reaches(nodes, root, n),
    ensures
        ser_children_ids(nodes, n as int) == nodes[n as int].children@,
{
    assert(!spec_is_void(nodes[n as int]));
}

/// A void element's subtree serializes to its open and close commands
/// alone: no child command is ever emitted, whatever the live tree
/// holds under the element.
pub proof fn lemma_void_element_commands(nodes: Seq<NodeData>, i: usize)
    requires
        wf(nodes),
        i < nodes.len(),
        spec_is_void(nodes[i as int]),
    ensures
        ser_node(nodes, i) == seq![
            SerializationCommand::OpenElement(i),
            SerializationCommand::CloseElement(i),
        ],
{
    assert(ser_children_ids(nodes, i as int) =~= Seq::<usize>::empty());
    assert(ser_kids(nodes, i, 0) =~= Seq::<SerializationCommand>::empty());
    assert(ser_node(nodes, i) =~= seq![
        SerializationCommand::OpenElement(i),
        SerializationCommand::CloseElement(i),
    ]);
}

/// The child commands of a template element from position `k` on are
/// those of its content fragment, which hold the same child list.
proof fn lemma_template_kids(nodes: Seq<NodeData>, t: usize, c: usize, k: int)
    requires
        wf(nodes),
        t < nodes.len(),
        c < nodes.len(),
        !spec_is_void(nodes[t as int]),
        nodes[t as int].template_contents == Some(c),
        nodes[c as int].kind is DocumentFragment,
        nodes[c as int].template_contents is None,
        0 <= k <= nodes[c as int].children@.len(),
    ensures
        ser_kids(nodes, t, k) == ser_kids(nodes, c, k),
    decreases nodes[c as int].children@.len() - k,
{
    assert(ser_children_ids(nodes, t as int) == nodes[c as int].children@);
    assert(ser_children_ids(nodes, c as int) == nodes[c as int].children@);
    if k < nodes[c as int].children@.len() {
        lemma_template_kids(nodes, t, c, k + 1);
    }
}

/// A template element's emitted child commands are exactly the
/// serialization of its associated content fragment, never of its
/// direct children.
pub proof fn lemma_template_contents_commands(nodes: Seq<NodeData>, t: usize, c: usize)
    requires
        wf(nodes),
        t < nodes.len(),
        nodes[t as int].kind is Element,
        !spec_is_void(nodes[t as int]),
        nodes[t as int].template_contents == Some(c),
        nodes[c as int].kind is DocumentFragment,
        nodes[c as int].template_contents is None,
    ensures
        ser_node(nodes, t) == seq![SerializationCommand::OpenElement(t)] + serialize_cmds(
            nodes,
            c,
            true,
        ) + seq![SerializationCommand::CloseElement(t)],
{
    assert(wf_node(nodes, t as int));
    lemma_template_kids(nodes, t, c, 0);
    assert(serialize_cmds(nodes, c, true) == ser_kids(nodes, c, 0));
}

/// Skipping the root removes exactly the root's own open/close pair
/// when the root is an element; for a document or fragment root the
/// flag has no effect, both modes produce only the content commands.
pub proof fn lemma_include_root(nodes: Seq<NodeData>, root: usize)
    requires
        wf(nodes),
        root < nodes.len(),
    ensures
        nodes[root as int].kind is Element ==> serialize_cmds(nodes, root, true) == seq![
            SerializationCommand::OpenElement(root),
        ] + serialize_cmds(nodes, root, false) + seq![SerializationCommand::CloseElement(root)],
        nodes[root as int].kind is Document || nodes[root as int].kind is DocumentFragment
            ==> serialize_cmds(nodes, root, true) == serialize_cmds(nodes, root, false),
{
}


/// At the event level too, skipping an element root removes exactly
/// its own start and end events.
pub proof fn lemma_include_root_events(nodes: Seq<NodeData>, root: usize)
    requires
        wf(nodes),
        root < nodes.len(),
        nodes[root as int].kind is Element,
    ensures
        emit_stream(nodes, serialize_cmds(nodes, root, true)) == emit_cmd(
            nodes,
            SerializationCommand::OpenElement(root),
        ) + emit_stream(nodes, serialize_cmds(nodes, root, false)) + emit_cmd(
            nodes,
            SerializationCommand::CloseElement(root),
        ),
{
    lemma_include_root(nodes, root);
    let open = seq![SerializationCommand::OpenElement(root)];
    let close = seq![SerializationCommand::CloseElement(root)];
    let mid = serialize_cmds(nodes, root, false);
    lemma_emit_stream_add(nodes, open + mid, close);
    lemma_emit_stream_add(nodes, open, mid);
    lemma_emit_stream_singleton(nodes, SerializationCommand::OpenElement(root));
    lemma_emit_stream_singleton(nodes, SerializationCommand::CloseElement(root));
    assert(serialize_cmds(nodes, root, true) == open + mid + close);
}

} // verus!
