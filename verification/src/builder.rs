//! Building the forest, one request at a time.
//!
//! The builder never touches a file. It asks its caller for the lines of one
//! file at a time, is handed what came of that, and goes on by itself until it
//! needs the next file or the forest is complete.

use crate::error::ForestError;
use crate::error::ForestErrorView;
use crate::node::Node;
use crate::node::NodeType;
use crate::node::NodeView;
use crate::node::with_child;
use crate::order::holds;
use crate::order::in_order;
use crate::order::lemma_done_holds_every_file;
use crate::order::lemma_initial_in_order;
use crate::order::lemma_settled_in_order;
use crate::order::lemma_stepped_in_order;
use crate::pattern::Directive;
use crate::pattern::DirectiveView;
use crate::pattern::PROCEDURE_SUFFIX;
use vstd::hash_set::StringHashSet;
use vstd::pervasive::unreached;
use vstd::prelude::*;

verus! {

/// A file of the list that the builder walks: where it lies, and the name of
/// the procedure that it holds.
#[derive(Debug)]
pub struct SourceFile {
    pub path: String,
    pub stem: String,
}

/// The mathematical value of a [`SourceFile`].
pub ghost struct SourceFileView {
    pub path: Seq<char>,
    pub stem: Seq<char>,
}

impl View for SourceFile {
    type V = SourceFileView;

    open spec fn view(&self) -> SourceFileView {
        SourceFileView { path: self.path@, stem: self.stem@ }
    }
}

impl DeepView for SourceFile {
    type V = SourceFileView;

    open spec fn deep_view(&self) -> SourceFileView {
        self@
    }
}

/// What the builder asks of its caller.
#[derive(Debug)]
pub enum Request {
    /// The lines of the listed file at this path.
    Open(String),
    /// The lines of the file of this name in the directory from which
    /// procedures are pulled in, or the news that there is none.
    Locate(String),
    /// Nothing: the forest is complete.
    Done,
    /// Nothing: the build was given up for this reason.
    Failed(ForestError),
}

/// The mathematical value of a [`Request`].
pub ghost enum RequestView {
    Open(Seq<char>),
    Locate(Seq<char>),
    Done,
    Failed(ForestErrorView),
}

impl View for Request {
    type V = RequestView;

    open spec fn view(&self) -> RequestView {
        match self {
            Request::Open(path) => RequestView::Open(path@),
            Request::Locate(file_name) => RequestView::Locate(file_name@),
            Request::Done => RequestView::Done,
            Request::Failed(error) => RequestView::Failed(error@),
        }
    }
}

/// What came of a request, as the caller found it.
#[derive(Debug)]
pub enum Reply {
    /// The file was read: its lines.
    Lines(Vec<String>),
    /// There is no such file.
    Absent,
    /// The file could not be opened or read.
    Unreadable,
}

/// What came of a request, once the lines were scanned.
#[derive(Debug)]
pub enum Outcome {
    /// The file was read: its directives.
    Content(Vec<Directive>),
    /// There is no such file.
    Absent,
    /// The file could not be opened or read.
    Unreadable,
}

/// The mathematical value of an [`Outcome`].
pub ghost enum OutcomeView {
    Content(Seq<DirectiveView>),
    Absent,
    Unreadable,
}

impl View for Outcome {
    type V = OutcomeView;

    open spec fn view(&self) -> OutcomeView {
        match self {
            Outcome::Content(directives) => OutcomeView::Content(directives.deep_view()),
            Outcome::Absent => OutcomeView::Absent,
            Outcome::Unreadable => OutcomeView::Unreadable,
        }
    }
}

/// The outcome that a reply amounts to.
pub open spec fn scanned(reply: Reply) -> OutcomeView {
    match reply {
        Reply::Lines(lines) => OutcomeView::Content(crate::pattern::scan(lines.deep_view())),
        Reply::Absent => OutcomeView::Absent,
        Reply::Unreadable => OutcomeView::Unreadable,
    }
}

/// A procedure that is being resolved: its node so far, and the directives
/// that are still to be followed.
pub ghost struct FrameView {
    pub node: NodeView,
    pub pending: Seq<DirectiveView>,
}

/// The mathematical value of a [`ForestBuilder`].
pub ghost struct BuilderView {
    /// The files to walk, in order.
    pub files: Seq<SourceFileView>,
    /// How many of them have been dealt with.
    pub cursor: nat,
    /// The names of the procedures that have been resolved in full.
    pub registry: Set<Seq<char>>,
    /// The procedures that are being resolved, the innermost last.
    pub stack: Seq<FrameView>,
    /// The root, with the trees that are complete.
    pub root: NodeView,
    /// The path of the file that could not be read, once the build is given up.
    pub failed: Option<Seq<char>>,
}

/// A node without children.
pub open spec fn leaf(name: Seq<char>, kind: NodeType) -> NodeView {
    NodeView { name, kind, children: Seq::empty() }
}

/// Whether some procedure that is being resolved is named `name`.
pub open spec fn in_progress(stack: Seq<FrameView>, name: Seq<char>) -> bool {
    exists|k: int| 0 <= k < stack.len() && (#[trigger] stack[k]).node.name == name
}

/// Whether `name` is not to be resolved again: it is registered, or it is
/// being resolved.
pub open spec fn claimed(s: BuilderView, name: Seq<char>) -> bool {
    s.registry.contains(name) || in_progress(s.stack, name)
}

/// The state in which nothing has been done yet.
pub open spec fn initial(files: Seq<SourceFileView>) -> BuilderView {
    BuilderView {
        files,
        cursor: 0,
        registry: Set::empty(),
        stack: Seq::empty(),
        root: leaf("root"@, NodeType::Procedure),
        failed: None,
    }
}

/// What a state waits for; `None` where it can go on by itself.
pub open spec fn request_of(s: BuilderView) -> Option<RequestView> {
    if let Some(path) = s.failed {
        Some(RequestView::Failed(ForestErrorView::FileUnreadable(path)))
    } else if s.stack.len() > 0 {
        let top = s.stack.last();
        if top.pending.len() == 0 {
            None
        } else {
            match top.pending[0] {
                DirectiveView::Definition(_) => None,
                DirectiveView::Inclusion(target) => if claimed(s, target) {
                    None
                } else {
                    Some(RequestView::Locate(target + PROCEDURE_SUFFIX@))
                },
            }
        }
    } else if s.cursor < s.files.len() {
        if s.registry.contains(s.files[s.cursor as int].stem) {
            None
        } else {
            Some(RequestView::Open(s.files[s.cursor as int].path))
        }
    } else {
        Some(RequestView::Done)
    }
}

/// The state `s` with `node` in place of the node of the innermost procedure,
/// and that procedure's first pending directive taken off.
pub open spec fn followed(s: BuilderView, node: NodeView) -> BuilderView {
    let top = s.stack.last();
    BuilderView {
        stack: s.stack.drop_last().push(
            FrameView { node, pending: top.pending.drop_first() },
        ),
        ..s
    }
}

/// The state `s` after the innermost procedure, which has no directive left,
/// was completed: its name is registered, and its node is offered to the
/// procedure that pulled it in, or to the root.
pub open spec fn completed(s: BuilderView) -> BuilderView {
    let done = s.stack.last().node;
    let rest = s.stack.drop_last();
    if rest.len() == 0 {
        BuilderView {
            registry: s.registry.insert(done.name),
            stack: rest,
            root: with_child(s.root, done),
            ..s
        }
    } else {
        let parent = rest.last();
        BuilderView {
            registry: s.registry.insert(done.name),
            stack: rest.drop_last().push(
                FrameView { node: with_child(parent.node, done), pending: parent.pending },
            ),
            ..s
        }
    }
}

/// One move that needs no file, from a state that waits for nothing.
pub open spec fn moved(s: BuilderView) -> BuilderView {
    if s.stack.len() > 0 {
        let top = s.stack.last();
        if top.pending.len() == 0 {
            completed(s)
        } else {
            match top.pending[0] {
                DirectiveView::Definition(symbol) => followed(
                    s,
                    with_child(top.node, leaf(symbol, NodeType::Function)),
                ),
                DirectiveView::Inclusion(target) => followed(
                    s,
                    with_child(top.node, leaf(target, NodeType::Procedure)),
                ),
            }
        }
    } else {
        BuilderView { cursor: s.cursor + 1, ..s }
    }
}

/// The files that are still to be dealt with.
pub open spec fn files_left(s: BuilderView) -> nat {
    if s.cursor <= s.files.len() {
        (s.files.len() - s.cursor) as nat
    } else {
        0
    }
}

/// The directives that the innermost procedure has still to follow.
pub open spec fn directives_left(s: BuilderView) -> nat {
    if s.stack.len() > 0 {
        s.stack.last().pending.len()
    } else {
        0
    }
}

/// The state in which `s` comes to rest: the moves that need no file are made
/// until the state waits for something.
pub open spec fn settled(s: BuilderView) -> BuilderView
    decreases files_left(s), s.stack.len(), directives_left(s),
{
    if request_of(s) is Some {
        s
    } else {
        settled(moved(s))
    }
}

/// The state `s` with a new innermost procedure of this name and these
/// directives.
pub open spec fn entered(
    s: BuilderView,
    name: Seq<char>,
    directives: Seq<DirectiveView>,
) -> BuilderView {
    BuilderView {
        stack: s.stack.push(
            FrameView { node: leaf(name, NodeType::Procedure), pending: directives },
        ),
        ..s
    }
}

/// The state `s` once `outcome` was handed in. An outcome that answers
/// nothing the state waits for changes nothing.
pub open spec fn delivered(s: BuilderView, outcome: OutcomeView) -> BuilderView {
    match request_of(s) {
        Some(RequestView::Open(path)) => match outcome {
            OutcomeView::Content(directives) => entered(
                BuilderView { cursor: s.cursor + 1, ..s },
                s.files[s.cursor as int].stem,
                directives,
            ),
            OutcomeView::Unreadable => BuilderView { failed: Some(path), ..s },
            OutcomeView::Absent => s,
        },
        Some(RequestView::Locate(file_name)) => {
            let top = s.stack.last();
            let target = top.pending[0]->Inclusion_0;
            match outcome {
                OutcomeView::Content(directives) => entered(
                    followed(s, top.node),
                    target,
                    directives,
                ),
                OutcomeView::Absent => followed(
                    s,
                    with_child(top.node, leaf(target, NodeType::Procedure)),
                ),
                OutcomeView::Unreadable => BuilderView { failed: Some(file_name), ..s },
            }
        },
        _ => s,
    }
}

/// The state after `outcome` was handed in and the builder came to rest.
pub open spec fn stepped(s: BuilderView, outcome: OutcomeView) -> BuilderView {
    settled(delivered(s, outcome))
}

/// A procedure that is being resolved.
#[derive(Debug)]
struct Frame {
    node: Node,
    directives: Vec<Directive>,
    next: usize,
}

impl Frame {
    /// The mathematical value of a frame.
    closed spec fn value(&self) -> FrameView {
        FrameView {
            node: self.node@,
            pending: if self.next <= self.directives@.len() {
                self.directives.deep_view().skip(self.next as int)
            } else {
                Seq::empty()
            },
        }
    }

    /// The target of the inclusion that this procedure is to follow next.
    fn next_target(&self) -> (target: String)
        requires
            self.value().pending.len() > 0,
            self.value().pending[0] is Inclusion,
        ensures
            self.value().pending[0] == DirectiveView::Inclusion(target@),
    {
        assert(self.value().pending[0] == self.directives[self.next as int]@);
        match &self.directives[self.next] {
            Directive::Inclusion(target) => target.clone(),
            Directive::Definition(_) => unreached(),
        }
    }
}

/// The values of the frames of a stack.
closed spec fn frame_values(stack: Seq<Frame>) -> Seq<FrameView> {
    Seq::new(stack.len(), |k: int| stack[k].value())
}

/// Walks a list of procedure files and gathers their trees under one root.
pub struct ForestBuilder {
    files: Vec<SourceFile>,
    cursor: usize,
    registry: StringHashSet,
    stack: Vec<Frame>,
    root: Node,
    failed: Option<String>,
}

impl View for ForestBuilder {
    type V = BuilderView;

    closed spec fn view(&self) -> BuilderView {
        BuilderView {
            files: self.files.deep_view(),
            cursor: self.cursor as nat,
            registry: self.registry@,
            stack: frame_values(self.stack@),
            root: self.root@,
            failed: self.failed.deep_view(),
        }
    }
}

impl ForestBuilder {
    /// A builder that is to walk the files of `primary` in order, and then
    /// those of `secondary`.
    pub fn new(primary: Vec<SourceFile>, secondary: Vec<SourceFile>) -> (builder: ForestBuilder)
        ensures
            builder@ == initial(primary.deep_view() + secondary.deep_view()),
            in_order(builder@),
    {
        let mut files = primary;
        let mut rest = secondary;
        files.append(&mut rest);
        assert(files.deep_view() =~= primary.deep_view() + secondary.deep_view());
        proof {
            lemma_initial_in_order(files.deep_view());
        }
        let builder = ForestBuilder {
            files,
            cursor: 0,
            registry: StringHashSet::new(),
            stack: Vec::new(),
            root: Node::new(String::from_str("root"), NodeType::Procedure),
            failed: None,
        };
        assert(builder@.stack =~= Seq::empty());
        builder
    }

    /// Whether a procedure that is being resolved is named `name`.
    fn is_in_progress(&self, name: &String) -> (found: bool)
        ensures
            found == in_progress(self@.stack, name@),
    {
        let mut k: usize = 0;
        while k < self.stack.len()
            invariant
                0 <= k <= self.stack.len(),
                self@.stack.len() == self.stack.len(),
                forall|m: int| 0 <= m < k ==> (#[trigger] self@.stack[m]).node.name != name@,
            decreases self.stack.len() - k,
        {
            assert(self@.stack[k as int] == self.stack[k as int].value());
            if *self.stack[k].node.name() == *name {
                return true;
            }
            k += 1;
        }
        false
    }

    /// Whether the procedure named `name` has been resolved in full.
    pub fn is_registered(&self, name: &str) -> (registered: bool)
        ensures
            registered == self@.registry.contains(name@),
    {
        self.registry.contains(name)
    }

    /// What the builder waits for; `None` where it can go on by itself.
    pub fn request(&self) -> (request: Option<Request>)
        ensures
            match request {
                Some(wanted) => request_of(self@) == Some(wanted@),
                None => request_of(self@) is None,
            },
    {
        if let Some(path) = &self.failed {
            return Some(Request::Failed(ForestError::FileUnreadable(path.clone())));
        }
        let depth = self.stack.len();
        if depth > 0 {
            let top = &self.stack[depth - 1];
            assert(self@.stack.last() == top.value());
            if top.next >= top.directives.len() {
                return None;
            }
            assert(top.value().pending[0] == top.directives[top.next as int]@);
            match &top.directives[top.next] {
                Directive::Definition(_) => None,
                Directive::Inclusion(target) => {
                    if self.registry.contains(target.as_str()) || self.is_in_progress(target) {
                        None
                    } else {
                        Some(Request::Locate(target.clone().concat(PROCEDURE_SUFFIX)))
                    }
                },
            }
        } else if self.cursor < self.files.len() {
            let file = &self.files[self.cursor];
            assert(self@.files[self.cursor as int] == file@);
            if self.registry.contains(file.stem.as_str()) {
                None
            } else {
                Some(Request::Open(file.path.clone()))
            }
        } else {
            Some(Request::Done)
        }
    }

    /// Makes one move that needs no file.
    fn move_once(&mut self)
        requires
            request_of(old(self)@) is None,
        ensures
            final(self)@ == moved(old(self)@),
    {
        let depth = self.stack.len();
        if depth == 0 {
            assert(self@.stack.len() == 0);
            assert(self@.files.len() == self.files.len());
            assert(self.cursor < self.files.len());
            self.cursor = self.cursor + 1;
            assert(self@.stack =~= old(self)@.stack);
            return;
        }
        let ghost before = self@.stack;
        assert(before.last() == self.stack[depth - 1].value());
        let mut top = self.stack.pop().unwrap();
        assert(frame_values(self.stack@) =~= before.drop_last());
        if top.next >= top.directives.len() {
            let name = top.node.name().clone();
            self.registry.insert(name);
            if self.stack.len() == 0 {
                self.root.add_child(top.node);
                assert(self@.stack =~= before.drop_last());
            } else {
                let ghost rest = frame_values(self.stack@);
                assert(rest.last() == self.stack[self.stack.len() - 1].value());
                let mut parent = self.stack.pop().unwrap();
                parent.node.add_child(top.node);
                self.stack.push(parent);
                assert(self@.stack =~= rest.drop_last().push(
                    FrameView {
                        node: with_child(rest.last().node, top.node@),
                        pending: rest.last().pending,
                    },
                ));
            }
        } else {
            assert(top.value().pending[0] == top.directives[top.next as int]@);
            let child = match &top.directives[top.next] {
                Directive::Definition(symbol) => Node::new(symbol.clone(), NodeType::Function),
                Directive::Inclusion(target) => Node::new(target.clone(), NodeType::Procedure),
            };
            let ghost earlier = top.value();
            top.node.add_child(child);
            top.next = top.next + 1;
            assert(top.value().pending =~= earlier.pending.drop_first());
            self.stack.push(top);
            assert(self@.stack =~= before.drop_last().push(
                FrameView {
                    node: with_child(earlier.node, child@),
                    pending: earlier.pending.drop_first(),
                },
            ));
        }
    }

    /// Goes on until the builder waits for something, and says for what.
    pub fn start(&mut self) -> (request: Request)
        ensures
            final(self)@ == settled(old(self)@),
            request_of(final(self)@) == Some(request@),
            in_order(old(self)@) ==> in_order(final(self)@),
    {
        proof {
            if in_order(self@) {
                lemma_settled_in_order(self@);
            }
        }
        loop
            invariant
                settled(self@) == settled(old(self)@),
                in_order(old(self)@) ==> in_order(settled(old(self)@)),
            decreases files_left(self@), self@.stack.len(), directives_left(self@),
        {
            match self.request() {
                Some(request) => {
                    return request;
                },
                None => {
                    self.move_once();
                },
            }
        }
    }

    /// Takes in what came of the request that the builder waits for.
    fn deliver(&mut self, outcome: Outcome)
        ensures
            final(self)@ == delivered(old(self)@, outcome@),
    {
        match self.request() {
            Some(Request::Open(path)) => match outcome {
                Outcome::Content(directives) => {
                    assert(self@.stack.len() == self.stack.len());
                    assert(self@.files.len() == self.files.len());
                    assert(self.cursor < self.files.len());
                    let stem = self.files[self.cursor].stem.clone();
                    assert(self@.files[self.cursor as int] == self.files[self.cursor as int]@);
                    self.cursor = self.cursor + 1;
                    let frame = Frame {
                        node: Node::new(stem, NodeType::Procedure),
                        directives,
                        next: 0,
                    };
                    assert(frame.value().pending =~= directives.deep_view());
                    self.stack.push(frame);
                    assert(self@.stack =~= old(self)@.stack.push(frame.value()));
                },
                Outcome::Unreadable => {
                    self.failed = Some(path);
                    assert(self@.stack =~= old(self)@.stack);
                },
                Outcome::Absent => {},
            },
            Some(Request::Locate(file_name)) => {
                let depth = self.stack.len();
                let ghost before = self@.stack;
                assert(before.len() == depth);
                assert(depth > 0);
                assert(before.last() == self.stack[depth - 1].value());
                assert(before.last().pending.len() > 0);
                match outcome {
                    Outcome::Content(directives) => {
                        let mut top = self.stack.pop().unwrap();
                        assert(frame_values(self.stack@) =~= before.drop_last());
                        let target = top.next_target();
                        let ghost earlier = top.value();
                        assert(top.next < top.directives.len());
                        top.next = top.next + 1;
                        assert(top.value().pending =~= earlier.pending.drop_first());
                        self.stack.push(top);
                        let frame = Frame {
                            node: Node::new(target, NodeType::Procedure),
                            directives,
                            next: 0,
                        };
                        assert(frame.value().pending =~= directives.deep_view());
                        self.stack.push(frame);
                        assert(self@.stack =~= before.drop_last().push(
                            FrameView {
                                node: earlier.node,
                                pending: earlier.pending.drop_first(),
                            },
                        ).push(frame.value()));
                    },
                    Outcome::Absent => {
                        let mut top = self.stack.pop().unwrap();
                        assert(frame_values(self.stack@) =~= before.drop_last());
                        let target = top.next_target();
                        let ghost earlier = top.value();
                        let child = Node::new(target, NodeType::Procedure);
                        top.node.add_child(child);
                        assert(top.next < top.directives.len());
                        top.next = top.next + 1;
                        assert(top.value().pending =~= earlier.pending.drop_first());
                        self.stack.push(top);
                        assert(self@.stack =~= before.drop_last().push(
                            FrameView {
                                node: with_child(earlier.node, child@),
                                pending: earlier.pending.drop_first(),
                            },
                        ));
                    },
                    Outcome::Unreadable => {
                        self.failed = Some(file_name);
                        assert(self@.stack =~= old(self)@.stack);
                    },
                }
            },
            _ => {},
        }
    }

    /// Takes in what came of the request that the builder waits for, goes on
    /// until it waits again, and says for what. An outcome that answers
    /// nothing the builder waits for changes nothing.
    pub fn advance(&mut self, outcome: Outcome) -> (request: Request)
        ensures
            final(self)@ == stepped(old(self)@, outcome@),
            request_of(final(self)@) == Some(request@),
            in_order(old(self)@) ==> in_order(final(self)@),
    {
        proof {
            if in_order(self@) {
                lemma_stepped_in_order(self@, outcome@);
            }
        }
        self.deliver(outcome);
        self.start()
    }

    /// Takes in the reply to the request that the builder waits for: scans
    /// the lines, if there are any, and advances on what they hold.
    pub fn step(&mut self, reply: Reply) -> (request: Request)
        ensures
            final(self)@ == stepped(old(self)@, scanned(reply)),
            request_of(final(self)@) == Some(request@),
            in_order(old(self)@) ==> in_order(final(self)@),
    {
        let outcome = match reply {
            Reply::Lines(lines) => Outcome::Content(crate::pattern::scan_lines(&lines)),
            Reply::Absent => Outcome::Absent,
            Reply::Unreadable => Outcome::Unreadable,
        };
        self.advance(outcome)
    }

    /// The forest, where it is complete: the root, with one tree for each
    /// listed file that no other had pulled in before. No part of a forest
    /// is handed out.
    pub fn finish(self) -> (forest: Option<Node>)
        ensures
            forest is Some <==> request_of(self@) == Some(RequestView::Done),
            forest matches Some(root) ==> root@ == self@.root,
            forest matches Some(root) ==> in_order(self@) ==> forall|i: int|
                0 <= i < self@.files.len() ==> holds(root@, (#[trigger] self@.files[i]).stem),
    {
        proof {
            if in_order(self@) && request_of(self@) == Some(RequestView::Done) {
                assert forall|i: int| 0 <= i < self@.files.len() implies holds(
                    self@.root,
                    (#[trigger] self@.files[i]).stem,
                ) by {
                    lemma_done_holds_every_file(self@, i);
                }
            }
        }
        match self.request() {
            Some(Request::Done) => Some(self.root),
            _ => None,
        }
    }
}

} // verus!