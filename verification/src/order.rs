//! The order that every state of a build is in.

use crate::builder::BuilderView;
use crate::builder::claimed;
use crate::builder::completed;
use crate::builder::delivered;
use crate::builder::directives_left;
use crate::builder::entered;
use crate::builder::files_left;
use crate::builder::followed;
use crate::builder::FrameView;
use crate::builder::in_progress;
use crate::builder::initial;
use crate::builder::leaf;
use crate::builder::moved;
use crate::builder::OutcomeView;
use crate::builder::request_of;
use crate::builder::RequestView;
use crate::builder::settled;
use crate::builder::SourceFileView;
use crate::builder::stepped;
use crate::node::alike;
use crate::node::distinct;
use crate::node::has_alike;
use crate::node::has_alike_of;
use crate::node::lemma_alike_symmetric;
use crate::node::lemma_with_child_distinct;
use crate::node::NodeType;
use crate::node::NodeView;
use crate::node::place;
use crate::node::with_child;
use crate::pattern::DirectiveView;
use vstd::prelude::*;

verus! {

/// Whether a procedure named `name` stands in `tree`, at its top or below.
pub open spec fn holds(tree: NodeView, name: Seq<char>) -> bool
    decreases tree,
{
    ||| tree.kind == NodeType::Procedure && tree.name == name
    ||| exists|i: int|
        #![trigger tree.children[i]]
        0 <= i < tree.children.len() && holds(tree.children[i], name)
}

/// Whether a procedure named `name` stands in a tree of the state: under the
/// root, or in the node of a procedure that is being resolved.
pub open spec fn placed(s: BuilderView, name: Seq<char>) -> bool {
    ||| holds(s.root, name)
    ||| exists|k: int| 0 <= k < s.stack.len() && holds((#[trigger] s.stack[k]).node, name)
}

/// What holds of every state of a build: the trees keep their children
/// distinct; the procedures that are being resolved have names of their own,
/// none of which is registered; every listed file that was dealt with is
/// claimed; and every name that is registered stands in a tree.
pub open spec fn in_order(s: BuilderView) -> bool {
    &&& s.cursor <= s.files.len()
    &&& distinct(s.root)
    &&& s.root.kind == NodeType::Procedure
    &&& s.root.name == "root"@
    &&& forall|k: int|
        0 <= k < s.stack.len() ==> distinct((#[trigger] s.stack[k]).node) && s.stack[k].node.kind
            == NodeType::Procedure
    &&& forall|k: int|
        0 <= k < s.stack.len() ==> !s.registry.contains((#[trigger] s.stack[k]).node.name)
    &&& forall|k: int, m: int|
        0 <= k < m < s.stack.len() ==> (#[trigger] s.stack[k]).node.name != (
        #[trigger] s.stack[m]).node.name
    &&& forall|i: int| 0 <= i < s.cursor ==> claimed(s, (#[trigger] s.files[i]).stem)
    &&& forall|name: Seq<char>| #[trigger] s.registry.contains(name) ==> placed(s, name)
}

/// Trees that are alike hold the same procedures.
pub proof fn lemma_alike_holds(a: NodeView, b: NodeView, name: Seq<char>)
    requires
        alike(a, b),
        holds(a, name),
    ensures
        holds(b, name),
    decreases a,
{
    if !(a.kind == NodeType::Procedure && a.name == name) {
        let i = choose|i: int|
            #![trigger a.children[i]]
            0 <= i < a.children.len() && holds(a.children[i], name);
        assert(place(i));
        assert(has_alike_of(a.children[i], b.children));
        let j = choose|j: int|
            #![trigger b.children[j]]
            0 <= j < b.children.len() && alike(a.children[i], b.children[j]);
        lemma_alike_holds(a.children[i], b.children[j], name);
    }
}

/// A tree that was offered a child holds what it held and what the child
/// holds, and nothing else.
pub proof fn lemma_with_child_holds(parent: NodeView, child: NodeView, name: Seq<char>)
    ensures
        holds(with_child(parent, child), name) <==> holds(parent, name) || holds(child, name),
{
    let grown = with_child(parent, child);
    if has_alike(parent.children, child) {
        if holds(child, name) {
            let i = choose|i: int|
                #![trigger parent.children[i]]
                0 <= i < parent.children.len() && alike(parent.children[i], child);
            lemma_alike_symmetric(parent.children[i], child);
            lemma_alike_holds(child, parent.children[i], name);
        }
    } else {
        let last = parent.children.len() as int;
        assert(grown.children[last] == child);
        if holds(parent, name) && !(parent.kind == NodeType::Procedure && parent.name == name) {
            let i = choose|i: int|
                #![trigger parent.children[i]]
                0 <= i < parent.children.len() && holds(parent.children[i], name);
            assert(grown.children[i] == parent.children[i]);
        }
        if holds(grown, name) && !(grown.kind == NodeType::Procedure && grown.name == name) {
            let i = choose|i: int|
                #![trigger grown.children[i]]
                0 <= i < grown.children.len() && holds(grown.children[i], name);
            if i < last {
                assert(grown.children[i] == parent.children[i]);
            }
        }
    }
}

/// The state in which nothing has been done yet is in order.
pub proof fn lemma_initial_in_order(files: Seq<SourceFileView>)
    ensures
        in_order(initial(files)),
{
}

/// A procedure that nobody has claimed may be entered.
pub proof fn lemma_entered_in_order(s: BuilderView, name: Seq<char>, directives: Seq<DirectiveView>)
    requires
        in_order(s),
        !claimed(s, name),
    ensures
        in_order(entered(s, name, directives)),
{
    let e = entered(s, name, directives);
    let depth = s.stack.len() as int;
    assert(e.stack[depth].node == leaf(name, NodeType::Procedure));
    assert forall|k: int| 0 <= k < e.stack.len() implies distinct((#[trigger] e.stack[k]).node)
        && e.stack[k].node.kind == NodeType::Procedure && !e.registry.contains(
        e.stack[k].node.name,
    ) by {
        if k < depth {
            assert(e.stack[k] == s.stack[k]);
        }
    }
    assert forall|k: int, m: int| 0 <= k < m < e.stack.len() implies (#[trigger] e.stack[k]).node.name
        != (#[trigger] e.stack[m]).node.name by {
        assert(e.stack[k] == s.stack[k]);
        if m < depth {
            assert(e.stack[m] == s.stack[m]);
        }
    }
    assert forall|i: int| 0 <= i < e.cursor implies claimed(e, (#[trigger] e.files[i]).stem) by {
        lemma_claim_kept(s, e, s.files[i].stem);
    }
    assert forall|n: Seq<char>| #[trigger] e.registry.contains(n) implies placed(e, n) by {
        lemma_place_kept(s, e, n);
    }
}

/// A name that is being resolved in `s` is being resolved in `e`, where the
/// stack of `e` begins with that of `s`.
proof fn lemma_claim_kept(s: BuilderView, e: BuilderView, name: Seq<char>)
    requires
        claimed(s, name),
        s.registry.subset_of(e.registry),
        s.stack.len() <= e.stack.len(),
        forall|k: int| 0 <= k < s.stack.len() ==> (#[trigger] e.stack[k]).node.name == s.stack[k].node.name,
    ensures
        claimed(e, name),
{
    if !s.registry.contains(name) {
        let k = choose|k: int| 0 <= k < s.stack.len() && (#[trigger] s.stack[k]).node.name == name;
        assert(e.stack[k].node.name == name);
    }
}

/// A name that is placed in `s` is placed in `e`, where the root of `e` and
/// the nodes of its stack hold what those of `s` hold.
proof fn lemma_place_kept(s: BuilderView, e: BuilderView, name: Seq<char>)
    requires
        placed(s, name),
        holds(s.root, name) ==> holds(e.root, name),
        s.stack.len() <= e.stack.len(),
        forall|k: int|
            0 <= k < s.stack.len() && holds((#[trigger] s.stack[k]).node, name) ==> holds(
                e.stack[k].node,
                name,
            ),
    ensures
        placed(e, name),
{
    if !holds(s.root, name) {
        let k = choose|k: int| 0 <= k < s.stack.len() && holds((#[trigger] s.stack[k]).node, name);
        assert(holds(e.stack[k].node, name));
    }
}

/// The innermost procedure may go on with a node that has its name and
/// kind, keeps its children distinct, and holds what its node held.
pub proof fn lemma_followed_in_order(s: BuilderView, node: NodeView)
    requires
        in_order(s),
        s.stack.len() > 0,
        node.name == s.stack.last().node.name,
        node.kind == s.stack.last().node.kind,
        distinct(node),
        forall|n: Seq<char>| holds(s.stack.last().node, n) ==> holds(node, n),
    ensures
        in_order(followed(s, node)),
{
    let e = followed(s, node);
    let top = s.stack.len() - 1;
    assert(e.stack.len() == s.stack.len());
    assert(e.stack[top].node == node);
    assert forall|k: int| 0 <= k < e.stack.len() implies (#[trigger] e.stack[k]).node.name
        == s.stack[k].node.name && e.stack[k].node.kind == s.stack[k].node.kind && distinct(
        e.stack[k].node,
    ) by {
        if k < top {
            assert(e.stack[k] == s.stack[k]);
        }
    }
    assert forall|k: int, m: int| 0 <= k < m < e.stack.len() implies (#[trigger] e.stack[k]).node.name
        != (#[trigger] e.stack[m]).node.name by {
        assert(s.stack[k].node.name != s.stack[m].node.name);
    }
    assert forall|i: int| 0 <= i < e.cursor implies claimed(e, (#[trigger] e.files[i]).stem) by {
        lemma_claim_kept(s, e, s.files[i].stem);
    }
    assert forall|n: Seq<char>| #[trigger] e.registry.contains(n) implies placed(e, n) by {
        assert forall|k: int|
            0 <= k < s.stack.len() && holds((#[trigger] s.stack[k]).node, n) implies holds(
            e.stack[k].node,
            n,
        ) by {
            if k < top {
                assert(e.stack[k] == s.stack[k]);
            }
        }
        lemma_place_kept(s, e, n);
    }
}

/// The innermost procedure may be offered a child whose children are distinct.
pub proof fn lemma_offered_in_order(s: BuilderView, child: NodeView)
    requires
        in_order(s),
        s.stack.len() > 0,
        distinct(child),
    ensures
        in_order(followed(s, with_child(s.stack.last().node, child))),
{
    let top = s.stack.last();
    lemma_with_child_distinct(top.node, child);
    assert forall|n: Seq<char>| holds(top.node, n) implies holds(with_child(top.node, child), n) by {
        lemma_with_child_holds(top.node, child, n);
    }
    lemma_followed_in_order(s, with_child(top.node, child));
}

/// The innermost procedure may be completed.
pub proof fn lemma_completed_in_order(s: BuilderView)
    requires
        in_order(s),
        s.stack.len() > 0,
    ensures
        in_order(completed(s)),
{
    let e = completed(s);
    let top = s.stack.len() - 1;
    let done = s.stack.last().node;
    let rest = s.stack.drop_last();
    assert(s.stack[top].node == done);
    assert(holds(done, done.name));
    if rest.len() == 0 {
        lemma_with_child_distinct(s.root, done);
        assert forall|i: int| 0 <= i < e.cursor implies claimed(e, (#[trigger] e.files[i]).stem) by {
            let stem = s.files[i].stem;
            if !s.registry.contains(stem) {
                let k = choose|k: int|
                    0 <= k < s.stack.len() && (#[trigger] s.stack[k]).node.name == stem;
                assert(k == top);
            }
        }
        assert forall|n: Seq<char>| #[trigger] e.registry.contains(n) implies placed(e, n) by {
            lemma_with_child_holds(s.root, done, n);
            if n != done.name && !holds(s.root, n) {
                let k = choose|k: int|
                    0 <= k < s.stack.len() && holds((#[trigger] s.stack[k]).node, n);
                assert(k == top);
            }
        }
    } else {
        let parent = rest.last();
        let under = top - 1;
        assert(parent == s.stack[under]);
        let grown = with_child(parent.node, done);
        lemma_with_child_distinct(parent.node, done);
        assert(e.stack.len() == top);
        assert(e.stack[under].node == grown);
        assert forall|k: int| 0 <= k < e.stack.len() implies (#[trigger] e.stack[k]).node.name
            == s.stack[k].node.name && e.stack[k].node.kind == s.stack[k].node.kind && distinct(
            e.stack[k].node,
        ) by {
            if k < under {
                assert(e.stack[k] == s.stack[k]);
            }
        }
        assert forall|k: int| 0 <= k < e.stack.len() implies !e.registry.contains(
            (#[trigger] e.stack[k]).node.name,
        ) by {
            assert(s.stack[k].node.name != s.stack[top].node.name);
        }
        assert forall|k: int, m: int| 0 <= k < m < e.stack.len() implies (
        #[trigger] e.stack[k]).node.name != (#[trigger] e.stack[m]).node.name by {
            assert(s.stack[k].node.name != s.stack[m].node.name);
        }
        assert forall|i: int| 0 <= i < e.cursor implies claimed(e, (#[trigger] e.files[i]).stem) by {
            let stem = s.files[i].stem;
            if !s.registry.contains(stem) {
                let k = choose|k: int|
                    0 <= k < s.stack.len() && (#[trigger] s.stack[k]).node.name == stem;
                if k < top {
                    assert(e.stack[k].node.name == stem);
                }
            }
        }
        assert forall|n: Seq<char>| #[trigger] e.registry.contains(n) implies placed(e, n) by {
            lemma_with_child_holds(parent.node, done, n);
            if n == done.name {
                assert(holds(e.stack[under].node, n));
            } else if !holds(s.root, n) {
                let k = choose|k: int|
                    0 <= k < s.stack.len() && holds((#[trigger] s.stack[k]).node, n);
                if k >= under {
                    assert(holds(e.stack[under].node, n));
                } else {
                    assert(e.stack[k] == s.stack[k]);
                    assert(holds(e.stack[k].node, n));
                }
            }
        }
    }
}

/// A move that needs no file keeps the state in order.
pub proof fn lemma_moved_in_order(s: BuilderView)
    requires
        in_order(s),
        request_of(s) is None,
    ensures
        in_order(moved(s)),
{
    if s.stack.len() > 0 {
        let top = s.stack.last();
        if top.pending.len() == 0 {
            lemma_completed_in_order(s);
        } else {
            match top.pending[0] {
                DirectiveView::Definition(symbol) => {
                    lemma_offered_in_order(s, leaf(symbol, NodeType::Function));
                },
                DirectiveView::Inclusion(target) => {
                    lemma_offered_in_order(s, leaf(target, NodeType::Procedure));
                },
            }
        }
    } else {
        let e = moved(s);
        assert forall|i: int| 0 <= i < e.cursor implies claimed(e, (#[trigger] e.files[i]).stem) by {
            if i < s.cursor {
                assert(claimed(s, s.files[i].stem));
            }
        }
        assert forall|n: Seq<char>| #[trigger] e.registry.contains(n) implies placed(e, n) by {
            lemma_place_kept(s, e, n);
        }
    }
}

/// Coming to rest keeps the state in order.
pub proof fn lemma_settled_in_order(s: BuilderView)
    requires
        in_order(s),
    ensures
        in_order(settled(s)),
        request_of(settled(s)) is Some,
    decreases files_left(s), s.stack.len(), directives_left(s),
{
    if request_of(s) is None {
        lemma_moved_in_order(s);
        lemma_settled_in_order(moved(s));
    }
}

/// Handing in an outcome keeps the state in order.
pub proof fn lemma_delivered_in_order(s: BuilderView, outcome: OutcomeView)
    requires
        in_order(s),
    ensures
        in_order(delivered(s, outcome)),
{
    let e = delivered(s, outcome);
    match request_of(s) {
        Some(RequestView::Open(path)) => {
            match outcome {
                OutcomeView::Content(directives) => {
                    let stem = s.files[s.cursor as int].stem;
                    let depth = s.stack.len() as int;
                    assert(e.stack[depth].node == leaf(stem, NodeType::Procedure));
                    assert forall|i: int| 0 <= i < e.cursor implies claimed(
                        e,
                        (#[trigger] e.files[i]).stem,
                    ) by {
                        if i < s.cursor {
                            assert(claimed(s, s.files[i].stem));
                        } else {
                            assert(e.stack[depth].node.name == stem);
                        }
                    }
                    assert forall|n: Seq<char>| #[trigger] e.registry.contains(n) implies placed(
                        e,
                        n,
                    ) by {
                        lemma_place_kept(s, e, n);
                    }
                },
                OutcomeView::Unreadable => {
                    assert forall|i: int| 0 <= i < e.cursor implies claimed(
                        e,
                        (#[trigger] e.files[i]).stem,
                    ) by {
                        lemma_claim_kept(s, e, s.files[i].stem);
                    }
                    assert forall|n: Seq<char>| #[trigger] e.registry.contains(n) implies placed(
                        e,
                        n,
                    ) by {
                        lemma_place_kept(s, e, n);
                    }
                },
                OutcomeView::Absent => {},
            }
        },
        Some(RequestView::Locate(file_name)) => {
            let top = s.stack.last();
            let target = top.pending[0]->Inclusion_0;
            match outcome {
                OutcomeView::Content(directives) => {
                    lemma_followed_in_order(s, top.node);
                    let f = followed(s, top.node);
                    assert(!claimed(f, target)) by {
                        if in_progress(f.stack, target) {
                            let k = choose|k: int|
                                0 <= k < f.stack.len() && (#[trigger] f.stack[k]).node.name
                                    == target;
                            if k < s.stack.len() - 1 {
                                assert(f.stack[k] == s.stack[k]);
                            }
                            assert(s.stack[k].node.name == target);
                        }
                    }
                    lemma_entered_in_order(f, target, directives);
                },
                OutcomeView::Absent => {
                    lemma_offered_in_order(s, leaf(target, NodeType::Procedure));
                },
                OutcomeView::Unreadable => {
                    assert forall|i: int| 0 <= i < e.cursor implies claimed(
                        e,
                        (#[trigger] e.files[i]).stem,
                    ) by {
                        lemma_claim_kept(s, e, s.files[i].stem);
                    }
                    assert forall|n: Seq<char>| #[trigger] e.registry.contains(n) implies placed(
                        e,
                        n,
                    ) by {
                        lemma_place_kept(s, e, n);
                    }
                },
            }
        },
        _ => {},
    }
}

/// Every step of a build keeps the state in order, and ends in a state that
/// waits for something.
pub proof fn lemma_stepped_in_order(s: BuilderView, outcome: OutcomeView)
    requires
        in_order(s),
    ensures
        in_order(stepped(s, outcome)),
        request_of(stepped(s, outcome)) is Some,
{
    lemma_delivered_in_order(s, outcome);
    lemma_settled_in_order(delivered(s, outcome));
}

/// In a forest that is complete, every listed file is registered, and a
/// procedure of its name stands under the root.
pub proof fn lemma_done_holds_every_file(s: BuilderView, i: int)
    requires
        in_order(s),
        request_of(s) == Some(RequestView::Done),
        0 <= i < s.files.len(),
    ensures
        s.registry.contains(s.files[i].stem),
        holds(s.root, s.files[i].stem),
{
    assert(s.stack.len() == 0);
    assert(claimed(s, s.files[i].stem));
    assert(placed(s, s.files[i].stem));
}

/// A name is registered when its procedure is completed, and it was not
/// registered before: no name enters the registry twice.
pub proof fn lemma_registered_once(s: BuilderView)
    requires
        in_order(s),
        s.stack.len() > 0,
    ensures
        !s.registry.contains(s.stack.last().node.name),
        completed(s).registry == s.registry.insert(s.stack.last().node.name),
{
    assert(s.stack[s.stack.len() - 1] == s.stack.last());
}

/// Only the completion of a procedure changes the registry.
pub proof fn lemma_registry_kept(s: BuilderView, outcome: OutcomeView)
    ensures
        delivered(s, outcome).registry == s.registry,
        request_of(s) is None && !(s.stack.len() > 0 && s.stack.last().pending.len() == 0)
            ==> moved(s).registry == s.registry,
{
}

/// A name that is registered stays registered.
pub proof fn lemma_registry_grows(s: BuilderView, outcome: OutcomeView)
    ensures
        s.registry.subset_of(stepped(s, outcome).registry),
{
    lemma_settled_registry(delivered(s, outcome));
}

/// Coming to rest takes no name out of the registry.
pub proof fn lemma_settled_registry(s: BuilderView)
    ensures
        s.registry.subset_of(settled(s).registry),
    decreases files_left(s), s.stack.len(), directives_left(s),
{
    if request_of(s) is None {
        lemma_settled_registry(moved(s));
    }
}

/// A reference to a procedure that is registered, or that is being resolved,
/// is not followed: nothing is asked of the caller, and the procedure that
/// makes the reference is offered a node without children, of the target's
/// name.
pub proof fn lemma_claimed_target_is_leaf(s: BuilderView, target: Seq<char>)
    requires
        s.failed is None,
        s.stack.len() > 0,
        s.stack.last().pending.len() > 0,
        s.stack.last().pending[0] == DirectiveView::Inclusion(target),
        claimed(s, target),
    ensures
        request_of(s) is None,
        moved(s) == followed(
            s,
            with_child(s.stack.last().node, leaf(target, NodeType::Procedure)),
        ),
{
}

/// A reference to a procedure whose file is absent is no error: the
/// procedure that makes the reference is offered a node without children, of
/// the target's name.
pub proof fn lemma_absent_target_is_leaf(s: BuilderView, target: Seq<char>)
    requires
        s.failed is None,
        s.stack.len() > 0,
        s.stack.last().pending.len() > 0,
        s.stack.last().pending[0] == DirectiveView::Inclusion(target),
        !claimed(s, target),
    ensures
        request_of(s) == Some(RequestView::Locate(target + crate::pattern::PROCEDURE_SUFFIX@)),
        delivered(s, OutcomeView::Absent) == followed(
            s,
            with_child(s.stack.last().node, leaf(target, NodeType::Procedure)),
        ),
        delivered(s, OutcomeView::Absent).failed is None,
{
}

/// A procedure is entered only under a name that nobody has claimed: a listed
/// file under its stem, a file that was pulled in under its target.
pub proof fn lemma_entered_unclaimed(s: BuilderView, directives: Seq<DirectiveView>)
    ensures
        request_of(s) matches Some(RequestView::Open(_)) ==> {
            &&& !claimed(s, s.files[s.cursor as int].stem)
            &&& delivered(s, OutcomeView::Content(directives)).stack == s.stack.push(
                FrameView {
                    node: leaf(s.files[s.cursor as int].stem, NodeType::Procedure),
                    pending: directives,
                },
            )
        },
        request_of(s) matches Some(RequestView::Locate(_)) ==> {
            &&& !claimed(s, s.stack.last().pending[0]->Inclusion_0)
            &&& delivered(s, OutcomeView::Content(directives)).stack.last() == (FrameView {
                node: leaf(s.stack.last().pending[0]->Inclusion_0, NodeType::Procedure),
                pending: directives,
            })
        },
{
}

/// A file without directives is resolved to a node without children: once
/// entered, its procedure is completed by the next move, and what is offered
/// to the procedure that pulled it in, or to the root, is a node of its name
/// alone.
pub proof fn lemma_empty_procedure(s: BuilderView, name: Seq<char>)
    requires
        s.failed is None,
    ensures
        request_of(entered(s, name, Seq::empty())) is None,
        moved(entered(s, name, Seq::empty())) == completed(entered(s, name, Seq::empty())),
        entered(s, name, Seq::empty()).stack.last().node == leaf(name, NodeType::Procedure),
        s.stack.len() == 0 ==> completed(entered(s, name, Seq::empty())).root == with_child(
            s.root,
            leaf(name, NodeType::Procedure),
        ),
        s.stack.len() > 0 ==> completed(entered(s, name, Seq::empty())).stack.last().node
            == with_child(s.stack.last().node, leaf(name, NodeType::Procedure)),
{
    let e = entered(s, name, Seq::empty());
    assert(e.stack.drop_last() =~= s.stack);
}

/// The node that stands for a directive that is not followed: a function for
/// a definition, a procedure without children for an inclusion.
pub open spec fn leaf_of(directive: DirectiveView) -> NodeView {
    match directive {
        DirectiveView::Definition(symbol) => leaf(symbol, NodeType::Function),
        DirectiveView::Inclusion(target) => leaf(target, NodeType::Procedure),
    }
}

/// The node `node` after it was offered, in order, the leaf of each of
/// `directives`.
pub open spec fn gathered(node: NodeView, directives: Seq<DirectiveView>) -> NodeView
    decreases directives.len(),
{
    if directives.len() == 0 {
        node
    } else {
        gathered(with_child(node, leaf_of(directives[0])), directives.drop_first())
    }
}

/// The state after `count` moves that need no file.
pub open spec fn moved_times(s: BuilderView, count: nat) -> BuilderView
    decreases count,
{
    if count == 0 {
        s
    } else {
        moved_times(moved(s), (count - 1) as nat)
    }
}

/// Whether every inclusion among `directives` has a target that is claimed
/// in `s`.
pub open spec fn all_claimed(s: BuilderView, directives: Seq<DirectiveView>) -> bool {
    forall|i: int|
        0 <= i < directives.len() ==> (#[trigger] directives[i] matches DirectiveView::Inclusion(
            target,
        ) ==> claimed(s, target))
}

/// A procedure whose pending directives are definitions, and inclusions of
/// targets that are claimed, follows them without asking for anything: one
/// move for each, in the order of the lines, and its node gathers the leaf of
/// each. Nothing else in the state changes.
pub proof fn lemma_gathers_in_order(s: BuilderView)
    requires
        s.failed is None,
        s.stack.len() > 0,
        all_claimed(s, s.stack.last().pending),
    ensures
        forall|k: nat|
            k < s.stack.last().pending.len() ==> request_of(#[trigger] moved_times(s, k)) is None,
        moved_times(s, s.stack.last().pending.len()) == (BuilderView {
            stack: s.stack.drop_last().push(
                FrameView {
                    node: gathered(s.stack.last().node, s.stack.last().pending),
                    pending: Seq::empty(),
                },
            ),
            ..s
        }),
    decreases s.stack.last().pending.len(),
{
    let top = s.stack.last();
    let count = top.pending.len();
    if count == 0 {
        assert(top.pending =~= Seq::empty());
        assert(s.stack.drop_last().push(top) =~= s.stack);
    } else {
        let next = moved(s);
        let first = top.pending[0];
        assert(request_of(s) is None);
        assert(next == followed(s, with_child(top.node, leaf_of(first))));
        assert(next.stack.last().pending == top.pending.drop_first());
        assert(next.stack.drop_last() =~= s.stack.drop_last());
        assert forall|n: Seq<char>| claimed(s, n) implies claimed(next, n) by {
            if !s.registry.contains(n) {
                let k = choose|k: int|
                    0 <= k < s.stack.len() && (#[trigger] s.stack[k]).node.name == n;
                if k < s.stack.len() - 1 {
                    assert(next.stack[k] == s.stack[k]);
                }
                assert(next.stack[k].node.name == n);
            }
        }
        assert(all_claimed(next, next.stack.last().pending)) by {
            let rest = next.stack.last().pending;
            assert forall|i: int| 0 <= i < rest.len() implies (
            #[trigger] rest[i] matches DirectiveView::Inclusion(target) ==> claimed(
                next,
                target,
            )) by {
                assert(rest[i] == top.pending[i + 1]);
            }
        }
        lemma_gathers_in_order(next);
        assert forall|k: nat| k < count implies request_of(#[trigger] moved_times(s, k)) is None by {
            if k > 0 {
                assert(moved_times(s, k) == moved_times(next, (k - 1) as nat));
            }
        }
        assert(moved_times(s, count) == moved_times(next, (count - 1) as nat));
    }
}

} // verus!
