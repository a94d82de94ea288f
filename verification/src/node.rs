//! The tree of procedures and symbols.

use vstd::prelude::*;

verus! {

/// What a node of the tree stands for.
#[derive(Clone, Copy, Debug, PartialEq, Eq, Hash, Structural)]
pub enum NodeType {
    Function,
    Procedure,
    Variable,
}

/// A procedure file, or a symbol defined in one, with the nodes below it.
///
/// The children behave as a set: no two of them are alike, and a child that
/// is alike to one already present is not added again. They are kept in the
/// order in which they were first added.
#[derive(Debug)]
pub struct Node {
    name: String,
    node_type: NodeType,
    children: Vec<Node>,
}

/// The mathematical value of a [`Node`].
pub ghost struct NodeView {
    pub name: Seq<char>,
    pub kind: NodeType,
    pub children: Seq<NodeView>,
}

impl View for Node {
    type V = NodeView;

    closed spec fn view(&self) -> NodeView {
        self.tree()
    }
}

impl Node {
    /// The value of this node and of the trees below it.
    closed spec fn tree(&self) -> NodeView
        decreases self, 1int, 0nat,
    {
        NodeView {
            name: self.name@,
            kind: self.node_type,
            children: self.first_views(self.children@.len()),
        }
    }

    /// The views of the first `count` children.
    closed spec fn first_views(&self, count: nat) -> Seq<NodeView>
        decreases self, 0int, count,
    {
        if count == 0 || count > self.children@.len() {
            Seq::empty()
        } else {
            self.first_views((count - 1) as nat).push(self.children@[count - 1].tree())
        }
    }

    proof fn lemma_first_views(&self, count: nat)
        requires
            count <= self.children@.len(),
        ensures
            self.first_views(count).len() == count,
            forall|i: int|
                0 <= i < count ==> #[trigger] self.first_views(count)[i] == self.children@[i]@,
        decreases count,
    {
        if count > 0 {
            self.lemma_first_views((count - 1) as nat);
        }
    }
}

/// Marks a place among the children of a tree. It is true of every place, and
/// serves to choose the places at which a statement about all of them is used.
pub open spec fn place(i: int) -> bool {
    true
}

/// Whether two trees are the same once the order of children is set aside:
/// equal names and kinds, and each child of one alike to a child of the other.
pub open spec fn alike(a: NodeView, b: NodeView) -> bool
    decreases a, 0int,
{
    &&& a.name == b.name
    &&& a.kind == b.kind
    &&& forall|i: int|
        #![trigger place(i)]
        place(i) && 0 <= i < a.children.len() ==> has_alike_of(a.children[i], b.children)
    &&& forall|j: int|
        #![trigger place(j)]
        place(j) && 0 <= j < b.children.len() ==> has_alike(a.children, b.children[j])
}

/// Whether `node` is alike to some entry of `nodes`.
pub open spec fn has_alike_of(node: NodeView, nodes: Seq<NodeView>) -> bool
    decreases node, 1int,
{
    exists|j: int| #![trigger nodes[j]] 0 <= j < nodes.len() && alike(node, nodes[j])
}

/// Whether some entry of `nodes` is alike to `node`.
pub open spec fn has_alike(nodes: Seq<NodeView>, node: NodeView) -> bool
    decreases nodes, 1int,
{
    exists|i: int| #![trigger nodes[i]] 0 <= i < nodes.len() && alike(nodes[i], node)
}

/// Whether no two children are alike, here and in every tree below.
pub open spec fn distinct(tree: NodeView) -> bool
    decreases tree,
{
    &&& forall|i: int|
        #![trigger tree.children[i]]
        0 <= i < tree.children.len() ==> distinct(tree.children[i])
    &&& forall|i: int, j: int|
        #![trigger tree.children[i], tree.children[j]]
        0 <= i < j < tree.children.len() ==> !alike(tree.children[i], tree.children[j])
}

/// The tree `parent` after `child` was offered to it: unchanged where a child
/// alike to `child` is present, else with `child` as its last child.
pub open spec fn with_child(parent: NodeView, child: NodeView) -> NodeView {
    if has_alike(parent.children, child) {
        parent
    } else {
        NodeView { name: parent.name, kind: parent.kind, children: parent.children.push(child) }
    }
}

/// Every tree is alike to itself.
pub proof fn lemma_alike_reflexive(a: NodeView)
    ensures
        alike(a, a),
    decreases a,
{
    assert forall|i: int| 0 <= i < a.children.len() implies has_alike_of(
        #[trigger] a.children[i],
        a.children,
    ) && has_alike(a.children, a.children[i]) by {
        lemma_alike_reflexive(a.children[i]);
    }
}

/// Where `a` is alike to `b`, `b` is alike to `a`.
pub proof fn lemma_alike_symmetric(a: NodeView, b: NodeView)
    requires
        alike(a, b),
    ensures
        alike(b, a),
    decreases a,
{
    assert forall|j: int| 0 <= j < b.children.len() implies has_alike_of(
        #[trigger] b.children[j],
        a.children,
    ) by {
        assert(place(j));
        let i = choose|i: int|
            #![trigger a.children[i]]
            0 <= i < a.children.len() && alike(a.children[i], b.children[j]);
        lemma_alike_symmetric(a.children[i], b.children[j]);
    }
    assert forall|i: int| 0 <= i < a.children.len() implies has_alike(
        b.children,
        #[trigger] a.children[i],
    ) by {
        assert(place(i));
        let j = choose|j: int|
            #![trigger b.children[j]]
            0 <= j < b.children.len() && alike(a.children[i], b.children[j]);
        lemma_alike_symmetric(a.children[i], b.children[j]);
    }
}

/// Where `a` is alike to `b` and `b` to `c`, `a` is alike to `c`.
pub proof fn lemma_alike_transitive(a: NodeView, b: NodeView, c: NodeView)
    requires
        alike(a, b),
        alike(b, c),
    ensures
        alike(a, c),
    decreases a,
{
    assert forall|i: int| 0 <= i < a.children.len() implies has_alike_of(
        #[trigger] a.children[i],
        c.children,
    ) by {
        assert(place(i));
        let j = choose|j: int|
            #![trigger b.children[j]]
            0 <= j < b.children.len() && alike(a.children[i], b.children[j]);
        assert(place(j));
        let k = choose|k: int|
            #![trigger c.children[k]]
            0 <= k < c.children.len() && alike(b.children[j], c.children[k]);
        lemma_alike_transitive(a.children[i], b.children[j], c.children[k]);
    }
    assert forall|k: int| 0 <= k < c.children.len() implies has_alike(
        a.children,
        #[trigger] c.children[k],
    ) by {
        assert(place(k));
        let j = choose|j: int|
            #![trigger b.children[j]]
            0 <= j < b.children.len() && alike(b.children[j], c.children[k]);
        assert(place(j));
        let i = choose|i: int|
            #![trigger a.children[i]]
            0 <= i < a.children.len() && alike(a.children[i], b.children[j]);
        lemma_alike_transitive(a.children[i], b.children[j], c.children[k]);
    }
}

/// Offering a child keeps the children distinct.
pub proof fn lemma_with_child_distinct(parent: NodeView, child: NodeView)
    requires
        distinct(parent),
        distinct(child),
    ensures
        distinct(with_child(parent, child)),
{
    if !has_alike(parent.children, child) {
        let grown = with_child(parent, child);
        assert forall|i: int| 0 <= i < grown.children.len() implies distinct(
            #[trigger] grown.children[i],
        ) by {
            if i < parent.children.len() {
                assert(grown.children[i] == parent.children[i]);
            }
        }
        assert forall|i: int, j: int|
            #![trigger grown.children[i], grown.children[j]]
            0 <= i < j < grown.children.len() implies !alike(
            grown.children[i],
            grown.children[j],
        ) by {
            assert(grown.children[i] == parent.children[i]);
            if j < parent.children.len() {
                assert(grown.children[j] == parent.children[j]);
            }
        }
    }
}

/// A child that was offered is not added when it is offered again.
pub proof fn lemma_with_child_idempotent(parent: NodeView, child: NodeView)
    ensures
        with_child(with_child(parent, child), child) == with_child(parent, child),
{
    lemma_alike_reflexive(child);
    let once = with_child(parent, child);
    if !has_alike(parent.children, child) {
        assert(once.children[parent.children.len() as int] == child);
    }
    assert(has_alike(once.children, child));
}

/// The name under which a kind is written out.
pub open spec fn kind_name(kind: NodeType) -> Seq<char> {
    match kind {
        NodeType::Function => "Function"@,
        NodeType::Procedure => "Procedure"@,
        NodeType::Variable => "Variable"@,
    }
}

/// Three spaces for each level of depth.
pub open spec fn indentation(level: nat) -> Seq<char>
    decreases level,
{
    if level == 0 {
        Seq::empty()
    } else {
        indentation((level - 1) as nat) + "   "@
    }
}

/// The line of a node that stands behind the margin `margin`.
pub open spec fn render_line(tree: NodeView, margin: Seq<char>) -> Seq<char> {
    margin + tree.name + " ("@ + kind_name(tree.kind) + ")\n"@
}

/// The text of a tree whose first line stands behind `margin`: the line of the
/// node, then the text of each child in order, three spaces deeper.
pub open spec fn render_lines(tree: NodeView, margin: Seq<char>) -> Seq<char>
    decreases tree, 1int, 0nat,
{
    render_line(tree, margin) + render_first(tree, margin + "   "@, tree.children.len())
}

/// The text of the first `count` children of `tree`, each behind `margin`.
pub open spec fn render_first(tree: NodeView, margin: Seq<char>, count: nat) -> Seq<char>
    decreases tree, 0int, count,
{
    if count == 0 || count > tree.children.len() {
        Seq::empty()
    } else {
        render_first(tree, margin, (count - 1) as nat) + render_lines(
            tree.children[count - 1],
            margin,
        )
    }
}

/// The text of a tree at depth `level`.
pub open spec fn render(tree: NodeView, level: nat) -> Seq<char> {
    render_lines(tree, indentation(level))
}

/// Whether `at` is the place of the first entry of `nodes` that is named `name`.
pub open spec fn first_named(nodes: Seq<NodeView>, name: Seq<char>, at: int) -> bool {
    &&& 0 <= at < nodes.len()
    &&& nodes[at].name == name
    &&& forall|k: int| 0 <= k < at ==> (#[trigger] nodes[k]).name != name
}

/// Whether no entry of `nodes` is named `name`.
pub open spec fn none_named(nodes: Seq<NodeView>, name: Seq<char>) -> bool {
    forall|k: int| 0 <= k < nodes.len() ==> (#[trigger] nodes[k]).name != name
}

impl Node {
    /// The view, field by field.
    proof fn lemma_view(&self)
        ensures
            self@.name == self.name@,
            self@.kind == self.node_type,
            self@.children.len() == self.children.len(),
            forall|i: int|
                0 <= i < self.children.len() ==> #[trigger] self@.children[i]
                    == self.children[i]@,
    {
        self.lemma_first_views(self.children@.len());
    }

    /// A node without children.
    pub fn new(name: String, node_type: NodeType) -> (node: Node)
        ensures
            node@ == (NodeView { name: name@, kind: node_type, children: Seq::empty() }),
            distinct(node@),
    {
        let node = Node { name, node_type, children: Vec::new() };
        proof {
            node.lemma_view();
            assert(node@.children =~= Seq::empty());
        }
        node
    }

    /// Whether `self` and `other` are alike.
    pub fn same_as(&self, other: &Node) -> (same: bool)
        ensures
            same == alike(self@, other@),
        decreases self,
    {
        proof {
            self.lemma_view();
            other.lemma_view();
        }
        if self.name != other.name || self.node_type != other.node_type {
            return false;
        }
        let mut i: usize = 0;
        while i < self.children.len()
            invariant
                0 <= i <= self.children.len(),
                self@.children.len() == self.children.len(),
                other@.children.len() == other.children.len(),
                forall|k: int|
                    0 <= k < self.children.len() ==> #[trigger] self@.children[k]
                        == self.children[k]@,
                forall|k: int|
                    0 <= k < other.children.len() ==> #[trigger] other@.children[k]
                        == other.children[k]@,
                forall|k: int|
                    #![trigger self@.children[k]]
                    0 <= k < i ==> has_alike_of(self@.children[k], other@.children),
            decreases self.children.len() - i,
        {
            let mut j: usize = 0;
            let mut found = false;
            while j < other.children.len() && !found
                invariant
                    0 <= j <= other.children.len(),
                    i < self.children.len(),
                    self@.children.len() == self.children.len(),
                    other@.children.len() == other.children.len(),
                    self@.children[i as int] == self.children[i as int]@,
                    forall|k: int|
                        0 <= k < other.children.len() ==> #[trigger] other@.children[k]
                            == other.children[k]@,
                    found ==> has_alike_of(self@.children[i as int], other@.children),
                    !found ==> forall|m: int|
                        #![trigger other@.children[m]]
                        0 <= m < j ==> !alike(self@.children[i as int], other@.children[m]),
                decreases other.children.len() - j, if found { 0int } else { 1int },
            {
                let hit = self.children[i].same_as(&other.children[j]);
                assert(hit == alike(self@.children[i as int], other@.children[j as int]));
                if hit {
                    found = true;
                } else {
                    j += 1;
                }
            }
            if !found {
                assert(place(i as int) && !has_alike_of(self@.children[i as int], other@.children));
                return false;
            }
            i += 1;
        }
        let mut j: usize = 0;
        while j < other.children.len()
            invariant
                0 <= j <= other.children.len(),
                self@.children.len() == self.children.len(),
                other@.children.len() == other.children.len(),
                forall|k: int|
                    0 <= k < self.children.len() ==> #[trigger] self@.children[k]
                        == self.children[k]@,
                forall|k: int|
                    0 <= k < other.children.len() ==> #[trigger] other@.children[k]
                        == other.children[k]@,
                forall|k: int|
                    #![trigger self@.children[k]]
                    0 <= k < self@.children.len() ==> has_alike_of(
                        self@.children[k],
                        other@.children,
                    ),
                forall|k: int|
                    #![trigger other@.children[k]]
                    0 <= k < j ==> has_alike(self@.children, other@.children[k]),
            decreases other.children.len() - j,
        {
            let mut i: usize = 0;
            let mut found = false;
            while i < self.children.len() && !found
                invariant
                    0 <= i <= self.children.len(),
                    j < other.children.len(),
                    self@.children.len() == self.children.len(),
                    other@.children.len() == other.children.len(),
                    other@.children[j as int] == other.children[j as int]@,
                    forall|k: int|
                        0 <= k < self.children.len() ==> #[trigger] self@.children[k]
                            == self.children[k]@,
                    found ==> has_alike(self@.children, other@.children[j as int]),
                    !found ==> forall|m: int|
                        #![trigger self@.children[m]]
                        0 <= m < i ==> !alike(self@.children[m], other@.children[j as int]),
                decreases self.children.len() - i, if found { 0int } else { 1int },
            {
                let hit = self.children[i].same_as(&other.children[j]);
                assert(hit == alike(self@.children[i as int], other@.children[j as int]));
                if hit {
                    found = true;
                } else {
                    i += 1;
                }
            }
            if !found {
                assert(place(j as int) && !has_alike(self@.children, other@.children[j as int]));
                return false;
            }
            j += 1;
        }
        true
    }

    /// Offers `child` to this node's set of children.
    pub fn add_child(&mut self, child: Node)
        ensures
            final(self)@ == with_child(old(self)@, child@),
            distinct(old(self)@) && distinct(child@) ==> distinct(final(self)@),
    {
        proof {
            self.lemma_view();
            if distinct(self@) && distinct(child@) {
                lemma_with_child_distinct(self@, child@);
            }
        }
        let mut i: usize = 0;
        while i < self.children.len()
            invariant
                0 <= i <= self.children.len(),
                *self == *old(self),
                self@.children.len() == self.children.len(),
                forall|k: int|
                    #![trigger self@.children[k]]
                    0 <= k < i ==> !alike(self@.children[k], child@),
            decreases self.children.len() - i,
        {
            proof {
                self.lemma_view();
            }
            if self.children[i].same_as(&child) {
                assert(alike(self@.children[i as int], child@));
                return;
            }
            i += 1;
        }
        self.children.push(child);
        proof {
            self.lemma_view();
            old(self).lemma_view();
            assert(self@.children =~= old(self)@.children.push(child@));
        }
    }

    /// The name of this node.
    pub fn name(&self) -> (name: &String)
        ensures
            name@ == self@.name,
    {
        proof {
            self.lemma_view();
        }
        &self.name
    }

    /// The kind of this node.
    pub fn node_type(&self) -> (kind: NodeType)
        ensures
            kind == self@.kind,
    {
        proof {
            self.lemma_view();
        }
        self.node_type
    }

    /// The children, in the order in which they were first added.
    pub fn children(&self) -> (children: &Vec<Node>)
        ensures
            children@.len() == self@.children.len(),
            forall|i: int| 0 <= i < children@.len() ==> (#[trigger] children@[i])@ == self@.children[i],
    {
        proof {
            self.lemma_view();
        }
        &self.children
    }

    /// The first child that is named `name`, if there is one.
    pub fn find_child(&self, name: &str) -> (found: Option<&Node>)
        ensures
            found is None <==> none_named(self@.children, name@),
            found matches Some(child) ==> exists|at: int|
                first_named(self@.children, name@, at) && self@.children[at] == child@,
    {
        proof {
            self.lemma_view();
        }
        let wanted = String::from_str(name);
        let mut i: usize = 0;
        while i < self.children.len()
            invariant
                0 <= i <= self.children.len(),
                wanted@ == name@,
                self@.children.len() == self.children.len(),
                forall|k: int|
                    0 <= k < self.children.len() ==> #[trigger] self@.children[k]
                        == self.children[k]@,
                forall|k: int| 0 <= k < i ==> (#[trigger] self@.children[k]).name != name@,
            decreases self.children.len() - i,
        {
            let child = &self.children[i];
            if *child.name() == wanted {
                assert(first_named(self@.children, name@, i as int));
                return Some(child);
            }
            i += 1;
        }
        None
    }

    /// The margin of depth `level`.
    fn margin(level: usize) -> (margin: String)
        ensures
            margin@ == indentation(level as nat),
    {
        let mut margin = String::new();
        let mut done: usize = 0;
        while done < level
            invariant
                0 <= done <= level,
                margin@ == indentation(done as nat),
            decreases level - done,
        {
            margin.append("   ");
            done += 1;
        }
        margin
    }

    /// The written name of a kind.
    fn kind_text(kind: NodeType) -> (text: &'static str)
        ensures
            text@ == kind_name(kind),
    {
        match kind {
            NodeType::Function => "Function",
            NodeType::Procedure => "Procedure",
            NodeType::Variable => "Variable",
        }
    }

    /// Writes the text of this tree behind `out`, its first line behind `margin`.
    fn render_into(&self, margin: &str, out: &mut String)
        ensures
            final(out)@ == old(out)@ + render_lines(self@, margin@),
        decreases self,
    {
        proof {
            self.lemma_view();
        }
        out.append(margin);
        out.append(self.name.as_str());
        out.append(" (");
        out.append(Self::kind_text(self.node_type));
        out.append(")\n");
        assert(out@ =~= old(out)@ + render_line(self@, margin@));
        let deeper = String::from_str(margin).concat("   ");
        let mut i: usize = 0;
        while i < self.children.len()
            invariant
                0 <= i <= self.children.len(),
                self@.children.len() == self.children.len(),
                forall|k: int|
                    0 <= k < self.children.len() ==> #[trigger] self@.children[k]
                        == self.children[k]@,
                deeper@ == margin@ + "   "@,
                out@ == old(out)@ + render_line(self@, margin@) + render_first(
                    self@,
                    deeper@,
                    i as nat,
                ),
            decreases self.children.len() - i,
        {
            self.children[i].render_into(deeper.as_str(), out);
            i += 1;
            assert(out@ =~= old(out)@ + render_line(self@, margin@) + render_first(
                self@,
                deeper@,
                i as nat,
            ));
        }
        assert(out@ =~= old(out)@ + render_lines(self@, margin@));
    }

    /// The text of this tree at depth `level`: one line for each node, made of
    /// three spaces for each level of depth, the name, and the kind in round
    /// brackets; the lines of a node's children follow its own.
    pub fn to_string(&self, level: usize) -> (text: String)
        ensures
            text@ == render(self@, level as nat),
    {
        let margin = Self::margin(level);
        let mut text = String::new();
        self.render_into(margin.as_str(), &mut text);
        assert(text@ =~= render(self@, level as nat));
        text
    }
}

} // verus!
