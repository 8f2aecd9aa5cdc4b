//! Loading a tree from a root document and the documents it pulls in.
//!
//! The loader neither reads files nor joins paths. It says what it needs
//! next (the text of a document, or the path that an entry of a document's
//! list resolves to) and goes on when it is given. Each resolved path is
//! asked for at most once, so a document that several documents pull in is
//! folded in once, and a document that pulls itself in ends the walk.

use crate::error::{LoadCause, LoadCauseView, LoadError, LoadErrorView, ParseError, ParseErrorView};
use crate::merge::{holds, law_merged_parts, merged};
use crate::parse::{document_of, outcome};
use crate::tree::{SkillTree, SkillTreeView};
use vstd::prelude::*;

verus! {

/// A document whose list of further documents is being walked.
#[derive(Debug)]
struct Frame {
    path: String,
    tree: SkillTree,
    next: usize,
}

/// A document whose list of further documents is being walked.
pub struct FrameView {
    /// The resolved path of the document.
    pub path: Seq<char>,
    /// The document, with what has been folded into it so far.
    pub tree: SkillTreeView,
    /// The position in the document's list that the walk has reached.
    pub next: nat,
}

impl View for Frame {
    type V = FrameView;

    closed spec fn view(&self) -> FrameView {
        FrameView { path: self.path@, tree: self.tree@, next: self.next as nat }
    }
}

impl DeepView for Frame {
    type V = FrameView;

    open spec fn deep_view(&self) -> FrameView {
        self@
    }
}

/// A load that waits for the text of a document.
pub struct ReadingView {
    /// Every path asked for so far, the one now awaited among them.
    pub loaded: Set<Seq<char>>,
    /// The documents whose lists are being walked, the root first.
    pub stack: Seq<FrameView>,
    /// The path of the document that is awaited.
    pub path: Seq<char>,
}

/// A load that waits for an entry of a document's list to be resolved.
pub struct ResolvingView {
    pub loaded: Set<Seq<char>>,
    /// The documents whose lists are being walked, the root first; the
    /// entry comes from the last of them.
    pub stack: Seq<FrameView>,
}

/// Where a load stands.
pub enum ProgressView {
    Read(ReadingView),
    Resolve(ResolvingView),
    Finished(SkillTreeView),
    Failed(LoadErrorView),
}

/// Whether each document of `stack` has an entry of its list in the works.
pub open spec fn waiting(stack: Seq<FrameView>) -> bool {
    forall|i: int|
        0 <= i < stack.len() ==> (#[trigger] stack[i]).next < stack[i].tree.includes().len()
}

/// Of waiting documents, the last waits and so do the ones before it.
pub proof fn lemma_waiting_parts(stack: Seq<FrameView>)
    requires
        waiting(stack),
        stack.len() > 0,
    ensures
        waiting(stack.drop_last()),
        stack.last().next < stack.last().tree.includes().len(),
{
    assert(stack[stack.len() - 1].next < stack[stack.len() - 1].tree.includes().len());
    assert forall|i: int| 0 <= i < stack.drop_last().len() implies (
    #[trigger] stack.drop_last()[i]).next < stack.drop_last()[i].tree.includes().len() by {
        assert(stack[i] == stack.drop_last()[i]);
    }
}

/// Waiting documents still wait when one that waits joins them.
pub proof fn lemma_waiting_push(below: Seq<FrameView>, top: FrameView)
    requires
        waiting(below),
        top.next < top.tree.includes().len(),
    ensures
        waiting(below.push(top)),
{
    let stack = below.push(top);
    assert forall|i: int| 0 <= i < stack.len() implies (#[trigger] stack[i]).next
        < stack[i].tree.includes().len() by {
        if i < below.len() {
            assert(stack[i] == below[i]);
        }
    }
}

/// Where a load stands once the walk of `top` has moved on, `below` being
/// the documents that wait for it. A document whose list is exhausted is
/// folded into the one that pulled it in, whose walk then moves on in turn;
/// the root, once exhausted, is the result.
pub open spec fn settled(
    loaded: Set<Seq<char>>,
    below: Seq<FrameView>,
    top: FrameView,
) -> ProgressView
    decreases below.len(),
{
    if top.next < top.tree.includes().len() {
        ProgressView::Resolve(ResolvingView { loaded, stack: below.push(top) })
    } else if below.len() == 0 {
        ProgressView::Finished(top.tree)
    } else {
        let parent = below.last();
        settled(
            loaded,
            below.drop_last(),
            FrameView {
                path: parent.path,
                tree: merged(parent.tree, top.tree),
                next: parent.next + 1,
            },
        )
    }
}

/// The documents being loaded when the one at `path` fails: that one
/// first, then each document of `stack` from the last to the root.
pub open spec fn trail(path: Seq<char>, stack: Seq<FrameView>) -> Seq<Seq<char>> {
    seq![path] + Seq::new(stack.len(), |i: int| stack[stack.len() - 1 - i].path)
}

/// A load of the document at `root`, before anything was read.
pub open spec fn started(root: Seq<char>) -> ReadingView {
    ReadingView { loaded: set![root], stack: Seq::empty(), path: root }
}

impl ReadingView {
    /// Where the load stands once the awaited document was read with
    /// this outcome.
    pub open spec fn parsed(self, outcome: Result<SkillTreeView, ParseErrorView>) -> ProgressView {
        match outcome {
            Ok(tree) => settled(
                self.loaded,
                self.stack,
                FrameView { path: self.path, tree, next: 0 },
            ),
            Err(e) => ProgressView::Failed(
                LoadErrorView {
                    cause: LoadCauseView::Unparsable(e),
                    trail: trail(self.path, self.stack),
                },
            ),
        }
    }

    /// Where the load stands once the awaited document has this text.
    pub open spec fn text(self, text: Seq<char>) -> ProgressView {
        self.parsed(document_of(text))
    }

    /// The failure of a load whose awaited document cannot be read.
    pub open spec fn unreadable(self, reason: Seq<char>) -> LoadErrorView {
        LoadErrorView {
            cause: LoadCauseView::Unreadable { reason },
            trail: trail(self.path, self.stack),
        }
    }
}

impl ResolvingView {
    /// The path of the document whose entry is to be resolved.
    pub open spec fn from(self) -> Seq<char> {
        self.stack.last().path
    }

    /// The entry, as the document writes it.
    pub open spec fn entry(self) -> Seq<char> {
        self.stack.last().tree.includes()[self.stack.last().next as int]
    }

    /// Where the load stands once the entry resolves to `path`: a path
    /// asked for before is passed over, a new one is asked for.
    pub open spec fn resolved(self, path: Seq<char>) -> ProgressView {
        if self.loaded.contains(path) {
            let top = self.stack.last();
            settled(
                self.loaded,
                self.stack.drop_last(),
                FrameView { path: top.path, tree: top.tree, next: top.next + 1 },
            )
        } else {
            ProgressView::Read(
                ReadingView { loaded: self.loaded.insert(path), stack: self.stack, path },
            )
        }
    }
}

/// A load that waits for the text of the document at `path()`.
#[derive(Debug)]
pub struct Reading {
    loaded: Vec<String>,
    stack: Vec<Frame>,
    path: String,
}

/// A load that waits for the path that `entry()`, written in the document
/// at `from()`, resolves to.
#[derive(Debug)]
pub struct Resolving {
    loaded: Vec<String>,
    stack: Vec<Frame>,
}

/// Where a load stands: what it needs next, or how it ended.
#[derive(Debug)]
pub enum Progress {
    Read(Reading),
    Resolve(Resolving),
    Finished(SkillTree),
    Failed(LoadError),
}

impl View for Reading {
    type V = ReadingView;

    closed spec fn view(&self) -> ReadingView {
        ReadingView {
            loaded: self.loaded.deep_view().to_set(),
            stack: self.stack.deep_view(),
            path: self.path@,
        }
    }
}

impl View for Resolving {
    type V = ResolvingView;

    closed spec fn view(&self) -> ResolvingView {
        ResolvingView { loaded: self.loaded.deep_view().to_set(), stack: self.stack.deep_view() }
    }
}

impl View for Progress {
    type V = ProgressView;

    open spec fn view(&self) -> ProgressView {
        match self {
            Progress::Read(reading) => ProgressView::Read(reading@),
            Progress::Resolve(resolving) => ProgressView::Resolve(resolving@),
            Progress::Finished(tree) => ProgressView::Finished(tree@),
            Progress::Failed(e) => ProgressView::Failed(e@),
        }
    }
}

fn list_len(tree: &SkillTree) -> (r: usize)
    ensures
        r == tree@.includes().len(),
{
    if let Some(doc) = &tree.doc {
        if let Some(list) = &doc.includes {
            return list.len();
        }
    }
    0
}

fn list_entry(tree: &SkillTree, i: usize) -> (r: &String)
    requires
        i < tree@.includes().len(),
    ensures
        r@ == tree@.includes()[i as int],
{
    match &tree.doc {
        Some(doc) => match &doc.includes {
            Some(list) => &list[i],
            None => vstd::pervasive::unreached(),
        },
        None => vstd::pervasive::unreached(),
    }
}

fn trail_of(path: String, stack: &Vec<Frame>) -> (r: Vec<String>)
    ensures
        r.deep_view() == trail(path@, stack.deep_view()),
{
    let mut out: Vec<String> = Vec::new();
    out.push(path);
    let mut i: usize = stack.len();
    while i > 0
        invariant
            i <= stack@.len(),
            out.deep_view() == seq![path@] + Seq::new(
                (stack@.len() - i) as nat,
                |k: int| stack.deep_view()[stack@.len() - 1 - k].path,
            ),
        decreases i,
    {
        i -= 1;
        let ghost before = out.deep_view();
        out.push(stack[i].path.clone());
        assert(out.deep_view() =~= before.push(stack.deep_view()[i as int].path));
    }
    out
}

fn settle(loaded: Vec<String>, below: Vec<Frame>, first: Frame) -> (r: Progress)
    requires
        waiting(below.deep_view()),
        first@.next <= first@.tree.includes().len(),
    ensures
        r@ == settled(loaded.deep_view().to_set(), below.deep_view(), first@),
{
    let ghost goal = settled(loaded.deep_view().to_set(), below.deep_view(), first@);
    let mut stack = below;
    let mut top = first;
    loop
        invariant
            waiting(stack.deep_view()),
            top@.next <= top@.tree.includes().len(),
            settled(loaded.deep_view().to_set(), stack.deep_view(), top@) == goal,
            goal == settled(loaded.deep_view().to_set(), below.deep_view(), first@),
        decreases stack@.len(),
    {
        if top.next < list_len(&top.tree) {
            let ghost below = stack.deep_view();
            proof {
                lemma_waiting_push(below, top@);
            }
            stack.push(top);
            assert(stack.deep_view() =~= below.push(top@));
            return Progress::Resolve(Resolving { loaded, stack });
        }
        let ghost below = stack.deep_view();
        match stack.pop() {
            None => {
                return Progress::Finished(top.tree);
            },
            Some(parent) => {
                assert(stack.deep_view() =~= below.drop_last());
                assert(parent@ == below.last());
                proof {
                    lemma_waiting_parts(below);
                }
                let Frame { path, tree, next } = parent;
                let mut tree = tree;
                let entries: usize = list_len(&tree);
                assert(next < entries);
                proof {
                    law_merged_parts(tree@, top.tree@);
                }
                tree.merge(top.tree);
                top = Frame { path, tree, next: next + 1 };
            },
        }
    }
}

impl SkillTree {
    /// Starts to load the tree whose root document is at `root`. The load
    /// asks for that document first.
    pub fn load(root: &str) -> (r: Reading)
        ensures
            r@ == started(root@),
    {
        let mut loaded: Vec<String> = Vec::new();
        loaded.push(root.to_owned());
        assert(loaded.deep_view() =~= seq![root@]);
        assert(loaded.deep_view()[0] == root@);
        assert(loaded.deep_view().to_set() =~= set![root@]);
        let stack: Vec<Frame> = Vec::new();
        assert(stack.deep_view() =~= Seq::<FrameView>::empty());
        Reading { loaded, stack, path: root.to_owned() }
    }
}

impl Reading {
    #[verifier::type_invariant]
    spec fn well_formed(self) -> bool {
        waiting(self.stack.deep_view())
    }

    /// The path of the document whose text the load waits for.
    pub fn path(&self) -> (r: &str)
        ensures
            r@ == self@.path,
    {
        self.path.as_str()
    }

    /// Goes on with the outcome of reading the awaited document.
    pub fn parsed(self, read: Result<SkillTree, ParseError>) -> (r: Progress)
        ensures
            r@ == self@.parsed(outcome(read)),
    {
        proof {
            use_type_invariant(&self);
        }
        let Reading { loaded, stack, path } = self;
        match read {
            Ok(tree) => settle(loaded, stack, Frame { path, tree, next: 0 }),
            Err(e) => Progress::Failed(
                LoadError { cause: LoadCause::Unparsable(e), trail: trail_of(path, &stack) },
            ),
        }
    }

    /// Goes on with the text of the awaited document.
    pub fn text(self, text: &str) -> (r: Progress)
        ensures
            r@ == self@.text(text@),
    {
        self.parsed(SkillTree::parse(text))
    }

    /// Ends the load: the awaited document cannot be read.
    pub fn unreadable(self, reason: String) -> (r: LoadError)
        ensures
            r@ == self@.unreadable(reason@),
    {
        let Reading { loaded: _, stack, path } = self;
        LoadError { cause: LoadCause::Unreadable { reason }, trail: trail_of(path, &stack) }
    }
}

impl Resolving {
    #[verifier::type_invariant]
    spec fn well_formed(self) -> bool {
        self.stack@.len() > 0 && waiting(self.stack.deep_view())
    }

    /// The path of the document whose entry is to be resolved.
    pub fn from(&self) -> (r: &str)
        ensures
            r@ == self@.from(),
    {
        proof {
            use_type_invariant(self);
        }
        self.stack[self.stack.len() - 1].path.as_str()
    }

    /// The entry to resolve, as the document writes it: a path relative
    /// to the directory of the document.
    pub fn entry(&self) -> (r: &str)
        ensures
            r@ == self@.entry(),
    {
        proof {
            use_type_invariant(self);
        }
        let top = &self.stack[self.stack.len() - 1];
        assert(top@ == self.stack.deep_view()[self.stack@.len() - 1]);
        list_entry(&top.tree, top.next).as_str()
    }

    /// Goes on with the path that the entry resolves to.
    pub fn resolved(self, path: String) -> (r: Progress)
        ensures
            r@ == self@.resolved(path@),
    {
        proof {
            use_type_invariant(&self);
        }
        let Resolving { loaded, stack } = self;
        let mut loaded = loaded;
        let mut stack = stack;
        let ghost before = stack.deep_view();
        if holds(&loaded, path.as_str()) {
            let top = stack.pop().unwrap();
            assert(stack.deep_view() =~= before.drop_last());
            assert(top@ == before.last());
            proof {
                lemma_waiting_parts(before);
            }
            let Frame { path: at, tree, next } = top;
            let entries: usize = list_len(&tree);
            assert(next < entries);
            settle(loaded, stack, Frame { path: at, tree, next: next + 1 })
        } else {
            let ghost known = loaded.deep_view();
            loaded.push(path.clone());
            assert(loaded.deep_view() =~= known.push(path@));
            assert(loaded.deep_view().to_set() =~= known.to_set().insert(path@)) by {
                assert forall|p: Seq<char>|
                    loaded.deep_view().contains(p) <==> (known.contains(p) || p == path@) by {
                    if known.contains(p) {
                        let k = choose|k: int| 0 <= k < known.len() && known[k] == p;
                        assert(loaded.deep_view()[k] == p);
                    }
                    if p == path@ {
                        assert(loaded.deep_view()[known.len() as int] == p);
                    }
                }
            }
            Progress::Read(Reading { loaded, stack, path })
        }
    }
}

} // verus!
