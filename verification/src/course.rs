//! The course that a load takes in a given world, and what holds of every
//! such course: no document is read twice, and where the world has finitely
//! many documents the load comes to an end.

use crate::error::{LoadCauseView, LoadErrorView};
use crate::load::{
    lemma_waiting_parts, lemma_waiting_push, settled, started, trail, waiting, FrameView,
    ProgressView, ReadingView,
};
use crate::merge::{law_merged_parts, merged};
use crate::parse::document_of;
use crate::tree::SkillTreeView;
use vstd::prelude::*;

verus! {

/// What stands outside a load: the documents, and the way paths are resolved.
pub struct World {
    /// What reading the document at a path gives: its text, or the reason
    /// why it cannot be read.
    pub read: spec_fn(Seq<char>) -> Result<Seq<char>, Seq<char>>,
    /// The path that an entry resolves to, given the path of the document
    /// that writes it.
    pub resolve: spec_fn(Seq<char>, Seq<char>) -> Seq<char>,
}

/// Where a load stands once the world has answered what it asks at `at`.
/// A load that has ended stays where it is.
pub open spec fn step(world: World, at: ProgressView) -> ProgressView {
    match at {
        ProgressView::Read(reading) => match (world.read)(reading.path) {
            Ok(text) => reading.text(text),
            Err(reason) => ProgressView::Failed(reading.unreadable(reason)),
        },
        ProgressView::Resolve(resolving) => resolving.resolved(
            (world.resolve)(resolving.from(), resolving.entry()),
        ),
        _ => at,
    }
}

/// Where a load that stands at `at` stands after `n` answers of the world.
pub open spec fn course(world: World, at: ProgressView, n: nat) -> ProgressView
    decreases n,
{
    if n == 0 {
        at
    } else {
        course(world, step(world, at), (n - 1) as nat)
    }
}

/// Where the load of the tree rooted at `root` stands after `n` answers.
pub open spec fn load_of(world: World, root: Seq<char>, n: nat) -> ProgressView {
    course(world, ProgressView::Read(started(root)), n)
}

/// Whether the load has ended, well or badly.
pub open spec fn ended(at: ProgressView) -> bool {
    at is Finished || at is Failed
}

/// The paths asked for so far.
pub open spec fn asked(at: ProgressView) -> Set<Seq<char>> {
    match at {
        ProgressView::Read(reading) => reading.loaded,
        ProgressView::Resolve(resolving) => resolving.loaded,
        _ => Set::empty(),
    }
}

/// What holds wherever a load stands: each document on the way from the
/// root has an entry in the works, and a document that is awaited has been
/// noted as asked for.
pub open spec fn sound(at: ProgressView) -> bool {
    match at {
        ProgressView::Read(reading) => waiting(reading.stack) && reading.loaded.contains(
            reading.path,
        ),
        ProgressView::Resolve(resolving) => resolving.stack.len() > 0 && waiting(resolving.stack),
        _ => true,
    }
}

/// The entries that the waiting documents of `stack` have yet to walk,
/// the ones in the works not counted.
spec fn owed(stack: Seq<FrameView>) -> int
    decreases stack.len(),
{
    if stack.len() == 0 {
        0
    } else {
        owed(stack.drop_last()) + (stack.last().tree.includes().len() - stack.last().next - 1)
    }
}

/// The entries of the document at `path`, where it can be read and is a document.
spec fn entries_at(world: World, path: Seq<char>) -> int {
    match (world.read)(path) {
        Ok(text) => match document_of(text) {
            Ok(tree) => tree.includes().len() as int,
            Err(_) => 0,
        },
        Err(_) => 0,
    }
}

/// The answers that a load can take at most before it ends or asks for a
/// document not asked for before.
spec fn weight(world: World, at: ProgressView) -> int {
    match at {
        ProgressView::Read(reading) => if (world.read)(reading.path) is Ok {
            1 + entries_at(world, reading.path) + owed(reading.stack)
        } else {
            0
        },
        ProgressView::Resolve(resolving) => 1 + owed(resolving.stack),
        _ => 0,
    }
}

proof fn lemma_owed_is_not_negative(stack: Seq<FrameView>)
    requires
        waiting(stack),
    ensures
        owed(stack) >= 0,
    decreases stack.len(),
{
    if stack.len() > 0 {
        lemma_waiting_parts(stack);
        lemma_owed_is_not_negative(stack.drop_last());
    }
}

/// What holds once a walk has moved on: the load asks for an entry or has
/// finished; it has asked for no further path; and it owes as many entries
/// as before.
proof fn lemma_settled(loaded: Set<Seq<char>>, below: Seq<FrameView>, top: FrameView)
    requires
        waiting(below),
        top.next <= top.tree.includes().len(),
    ensures
        sound(settled(loaded, below, top)),
        settled(loaded, below, top) is Resolve || settled(loaded, below, top) is Finished,
        settled(loaded, below, top) matches ProgressView::Resolve(r) ==> {
            &&& r.loaded == loaded
            &&& 1 + owed(r.stack) == owed(below) + top.tree.includes().len() - top.next
        },
    decreases below.len(),
{
    if top.next < top.tree.includes().len() {
        let stack = below.push(top);
        lemma_waiting_push(below, top);
        assert(stack.drop_last() == below);
        assert(stack.last() == top);
    } else if below.len() > 0 {
        let parent = below.last();
        let moved = FrameView {
            path: parent.path,
            tree: merged(parent.tree, top.tree),
            next: parent.next + 1,
        };
        lemma_waiting_parts(below);
        law_merged_parts(parent.tree, top.tree);
        lemma_settled(loaded, below.drop_last(), moved);
    }
}

/// One answer of the world keeps a load sound. A load that has not ended
/// by it has forgotten no path; and it asks for a document only where an
/// entry resolved to a path not asked for before, which is then noted.
proof fn lemma_step(world: World, at: ProgressView)
    requires
        sound(at),
    ensures
        sound(step(world, at)),
        ended(at) ==> step(world, at) == at,
        !ended(step(world, at)) ==> asked(at).subset_of(asked(step(world, at))),
        step(world, at) matches ProgressView::Read(reading) ==> at is Resolve && !asked(
            at,
        ).contains(reading.path),
{
    match at {
        ProgressView::Read(reading) => {
            if let Ok(text) = (world.read)(reading.path) {
                if let Ok(tree) = document_of(text) {
                    lemma_settled(
                        reading.loaded,
                        reading.stack,
                        FrameView { path: reading.path, tree, next: 0 },
                    );
                }
            }
        },
        ProgressView::Resolve(resolving) => {
            let path = (world.resolve)(resolving.from(), resolving.entry());
            if resolving.loaded.contains(path) {
                let top = resolving.stack.last();
                lemma_waiting_parts(resolving.stack);
                lemma_settled(
                    resolving.loaded,
                    resolving.stack.drop_last(),
                    FrameView { path: top.path, tree: top.tree, next: top.next + 1 },
                );
            }
        },
        _ => {},
    }
}

proof fn lemma_course_last(world: World, at: ProgressView, n: nat)
    ensures
        course(world, at, n + 1) == step(world, course(world, at, n)),
    decreases n,
{
    assert(course(world, at, n + 1) == course(world, step(world, at), n));
    if n > 0 {
        lemma_course_last(world, step(world, at), (n - 1) as nat);
        assert(course(world, step(world, at), n) == step(
            world,
            course(world, step(world, at), (n - 1) as nat),
        ));
    } else {
        assert(course(world, step(world, at), 0) == step(world, at));
    }
}

proof fn lemma_course_joins(world: World, at: ProgressView, m: nat, n: nat)
    ensures
        course(world, at, m + n) == course(world, course(world, at, m), n),
    decreases m,
{
    if m > 0 {
        lemma_course_joins(world, step(world, at), (m - 1) as nat, n);
    }
}

proof fn lemma_course(world: World, at: ProgressView, n: nat)
    requires
        sound(at),
    ensures
        sound(course(world, at, n)),
        ended(at) ==> course(world, at, n) == at,
        !ended(course(world, at, n)) ==> asked(at).subset_of(asked(course(world, at, n))),
    decreases n,
{
    if n > 0 {
        lemma_step(world, at);
        lemma_course(world, step(world, at), (n - 1) as nat);
    }
}

/// No document is read twice: wherever a load asks for a document, it has
/// not asked for the document at that path before.
pub proof fn law_no_document_is_read_twice(world: World, root: Seq<char>, m: nat, n: nat)
    requires
        m < n,
        load_of(world, root, m) is Read,
        load_of(world, root, n) is Read,
    ensures
        load_of(world, root, m)->Read_0.path != load_of(world, root, n)->Read_0.path,
{
    let start = ProgressView::Read(started(root));
    let earlier = course(world, start, m);
    let between = (n - m - 1) as nat;
    let before = course(world, earlier, between);
    lemma_course(world, start, m);
    lemma_course(world, earlier, between);
    lemma_course_joins(world, start, m, between);
    lemma_course_last(world, start, m + between);
    assert(load_of(world, root, n) == step(world, before));
    lemma_step(world, before);
}

/// The paths asked for only grow, for as long as the load has not ended.
pub proof fn law_asked_paths_stay(world: World, root: Seq<char>, m: nat, n: nat)
    requires
        m <= n,
        !ended(load_of(world, root, n)),
    ensures
        asked(load_of(world, root, m)).subset_of(asked(load_of(world, root, n))),
        asked(load_of(world, root, m)).contains(root),
{
    let start = ProgressView::Read(started(root));
    lemma_course(world, start, m);
    lemma_course(world, course(world, start, m), (n - m) as nat);
    lemma_course_joins(world, start, m, (n - m) as nat);
    if ended(course(world, start, m)) {
        assert(course(world, start, n) == course(world, start, m));
    }
}

proof fn lemma_ends(world: World, paths: Set<Seq<char>>, at: ProgressView) -> (n: nat)
    requires
        paths.finite(),
        forall|path: Seq<char>| #[trigger] (world.read)(path) is Ok ==> paths.contains(path),
        sound(at),
    ensures
        ended(course(world, at, n)),
    decreases paths.difference(asked(at)).len(), weight(world, at),
{
    if ended(at) {
        0
    } else {
        let next = step(world, at);
        lemma_step(world, at);
        match at {
            ProgressView::Read(reading) => {
                lemma_owed_is_not_negative(reading.stack);
                if let Ok(text) = (world.read)(reading.path) {
                    if let Ok(tree) = document_of(text) {
                        lemma_settled(
                            reading.loaded,
                            reading.stack,
                            FrameView { path: reading.path, tree, next: 0 },
                        );
                    }
                }
            },
            ProgressView::Resolve(resolving) => {
                let top = resolving.stack.last();
                let path = (world.resolve)(resolving.from(), resolving.entry());
                lemma_waiting_parts(resolving.stack);
                lemma_owed_is_not_negative(resolving.stack);
                if resolving.loaded.contains(path) {
                    lemma_settled(
                        resolving.loaded,
                        resolving.stack.drop_last(),
                        FrameView { path: top.path, tree: top.tree, next: top.next + 1 },
                    );
                } else if paths.contains(path) {
                    assert(paths.difference(resolving.loaded.insert(path)) == paths.difference(
                        resolving.loaded,
                    ).remove(path));
                    assert(paths.difference(resolving.loaded).contains(path));
                } else {
                    assert(paths.difference(resolving.loaded.insert(path)) == paths.difference(
                        resolving.loaded,
                    ));
                    assert(!((world.read)(path) is Ok));
                }
            },
            _ => {},
        }
        if ended(next) {
            assert(course(world, at, 1) == course(world, next, 0));
            1
        } else {
            let rest = lemma_ends(world, paths, next);
            rest + 1
        }
    }
}

/// A load comes to an end where the documents are finitely many: where
/// the paths at which a document can be read are finitely many, the load
/// of the tree at `root` finishes or fails after finitely many answers,
/// though documents pull in each other or themselves, and whatever the
/// paths are that their entries resolve to.
pub proof fn law_load_ends(world: World, root: Seq<char>, paths: Set<Seq<char>>) -> (n: nat)
    requires
        paths.finite(),
        forall|path: Seq<char>| #[trigger] (world.read)(path) is Ok ==> paths.contains(path),
    ensures
        ended(load_of(world, root, n)),
{
    lemma_ends(world, paths, ProgressView::Read(started(root)))
}

/// How the load of one document ends: with the tree and all that it pulls
/// in, or with a failure; the paths asked for by then; and the paths of
/// the documents whose text was awaited on the way, in the order in which
/// they were asked for.
pub struct Ending {
    pub result: Result<SkillTreeView, LoadErrorView>,
    pub loaded: Set<Seq<char>>,
    pub order: Seq<Seq<char>>,
}

/// The load of the document at `path`, told as a descent: the document is
/// read, and each entry of its list is pulled in, in order. `loaded` holds
/// the paths asked for so far, `path` among them. `depth` is how many
/// documents deep the descent may go from here; where that is not enough,
/// there is no ending.
pub open spec fn load_one(
    world: World,
    path: Seq<char>,
    loaded: Set<Seq<char>>,
    depth: nat,
) -> Option<Ending>
    decreases depth, 1nat, 0nat,
{
    match (world.read)(path) {
        Err(reason) => Some(
            Ending {
                result: Err(
                    LoadErrorView {
                        cause: LoadCauseView::Unreadable { reason },
                        trail: seq![path],
                    },
                ),
                loaded,
                order: seq![path],
            },
        ),
        Ok(text) => match document_of(text) {
            Err(e) => Some(
                Ending {
                    result: Err(
                        LoadErrorView { cause: LoadCauseView::Unparsable(e), trail: seq![path] },
                    ),
                    loaded,
                    order: seq![path],
                },
            ),
            Ok(tree) => match pull_in(world, path, tree, tree.includes(), 0, loaded, depth) {
                Some(ending) => Some(Ending { order: seq![path] + ending.order, ..ending }),
                None => None,
            },
        },
    }
}

/// The entries of the document at `path` from position `i` on, pulled into
/// `tree` one after the other. An entry that resolves to a path asked for
/// before is passed over. Any other is noted and loaded, with all that it
/// pulls in, and the tree that comes of it is folded into `tree`; where its
/// load fails, the failure is that of this document too.
pub open spec fn pull_in(
    world: World,
    path: Seq<char>,
    tree: SkillTreeView,
    entries: Seq<Seq<char>>,
    i: nat,
    loaded: Set<Seq<char>>,
    depth: nat,
) -> Option<Ending>
    decreases depth, 0nat, entries.len() - i,
{
    if i >= entries.len() {
        Some(Ending { result: Ok(tree), loaded, order: Seq::empty() })
    } else {
        let target = (world.resolve)(path, entries[i as int]);
        if loaded.contains(target) {
            pull_in(world, path, tree, entries, i + 1, loaded, depth)
        } else if depth == 0 {
            None
        } else {
            match load_one(world, target, loaded.insert(target), (depth - 1) as nat) {
                None => None,
                Some(Ending { result: Err(e), loaded: by_then, order }) => Some(
                    Ending {
                        result: Err(LoadErrorView { cause: e.cause, trail: e.trail.push(path) }),
                        loaded: by_then,
                        order,
                    },
                ),
                Some(Ending { result: Ok(pulled), loaded: by_then, order }) => match pull_in(
                    world,
                    path,
                    merged(tree, pulled),
                    entries,
                    i + 1,
                    by_then,
                    depth,
                ) {
                    Some(ending) => Some(Ending { order: order + ending.order, ..ending }),
                    None => None,
                },
            }
        }
    }
}

/// The paths of the documents of `stack`, from the last to the root.
pub open spec fn upward(stack: Seq<FrameView>) -> Seq<Seq<char>> {
    Seq::new(stack.len(), |i: int| stack[stack.len() - 1 - i].path)
}

/// Where a load stands once the document at `path`, pulled in by the
/// documents of `stack`, has come to `ending`.
pub open spec fn landing(stack: Seq<FrameView>, path: Seq<char>, ending: Ending) -> ProgressView {
    match ending.result {
        Ok(tree) => settled(
            ending.loaded,
            stack,
            FrameView { path, tree, next: tree.includes().len() },
        ),
        Err(e) => ProgressView::Failed(
            LoadErrorView { cause: e.cause, trail: e.trail + upward(stack) },
        ),
    }
}

proof fn lemma_upward_push(stack: Seq<FrameView>, top: FrameView)
    ensures
        upward(stack.push(top)) == seq![top.path] + upward(stack),
{
    let longer = stack.push(top);
    assert(upward(longer) =~= seq![top.path] + upward(stack)) by {
        assert forall|i: int| 0 <= i < longer.len() implies upward(longer)[i] == (seq![top.path]
            + upward(stack))[i] by {
            if i > 0 {
                assert(longer[longer.len() - 1 - i] == stack[stack.len() - 1 - (i - 1)]);
            }
        }
    }
}

proof fn lemma_load_one(
    world: World,
    loaded: Set<Seq<char>>,
    stack: Seq<FrameView>,
    path: Seq<char>,
    depth: nat,
) -> (n: nat)
    requires
        load_one(world, path, loaded, depth) is Some,
    ensures
        course(world, ProgressView::Read(ReadingView { loaded, stack, path }), n) == landing(
            stack,
            path,
            load_one(world, path, loaded, depth).unwrap(),
        ),
    decreases depth, 1nat, 0nat,
{
    let at = ProgressView::Read(ReadingView { loaded, stack, path });
    assert(course(world, at, 1) == course(world, step(world, at), 0));
    match (world.read)(path) {
        Err(reason) => {
            assert(seq![path] + upward(stack) == trail(path, stack));
            1
        },
        Ok(text) => match document_of(text) {
            Err(e) => {
                assert(seq![path] + upward(stack) == trail(path, stack));
                1
            },
            Ok(tree) => {
                let rest = lemma_pull_in(world, loaded, stack, path, tree, 0, depth);
                lemma_course_joins(world, at, 1, rest);
                rest + 1
            },
        },
    }
}

proof fn lemma_pull_in(
    world: World,
    loaded: Set<Seq<char>>,
    stack: Seq<FrameView>,
    path: Seq<char>,
    tree: SkillTreeView,
    i: nat,
    depth: nat,
) -> (n: nat)
    requires
        i <= tree.includes().len(),
        pull_in(world, path, tree, tree.includes(), i, loaded, depth) is Some,
    ensures
        course(world, settled(loaded, stack, FrameView { path, tree, next: i }), n) == landing(
            stack,
            path,
            pull_in(world, path, tree, tree.includes(), i, loaded, depth).unwrap(),
        ),
    decreases depth, 0nat, tree.includes().len() - i,
{
    let entries = tree.includes();
    let frame = FrameView { path, tree, next: i };
    let at = settled(loaded, stack, frame);
    if i >= entries.len() {
        0
    } else {
        let waiting_stack = stack.push(frame);
        assert(waiting_stack.last() == frame);
        assert(waiting_stack.drop_last() == stack);
        let target = (world.resolve)(path, entries[i as int]);
        assert(course(world, at, 1) == course(world, step(world, at), 0));
        if loaded.contains(target) {
            let rest = lemma_pull_in(world, loaded, stack, path, tree, i + 1, depth);
            lemma_course_joins(world, at, 1, rest);
            rest + 1
        } else {
            let noted = loaded.insert(target);
            let child = load_one(world, target, noted, (depth - 1) as nat).unwrap();
            let down = lemma_load_one(world, noted, waiting_stack, target, (depth - 1) as nat);
            lemma_course_joins(world, at, 1, down);
            lemma_upward_push(stack, frame);
            match child.result {
                Err(e) => {
                    assert(e.trail + (seq![path] + upward(stack)) == e.trail.push(path) + upward(
                        stack,
                    ));
                    down + 1
                },
                Ok(pulled) => {
                    let folded = merged(tree, pulled);
                    law_merged_parts(tree, pulled);
                    assert(landing(waiting_stack, target, child) == settled(
                        child.loaded,
                        stack,
                        FrameView { path, tree: folded, next: i + 1 },
                    ));
                    let rest = lemma_pull_in(
                        world,
                        child.loaded,
                        stack,
                        path,
                        folded,
                        i + 1,
                        depth,
                    );
                    lemma_course_joins(world, at, down + 1, rest);
                    down + 1 + rest
                },
            }
        }
    }
}

proof fn lemma_load_one_has_an_ending(
    world: World,
    paths: Set<Seq<char>>,
    path: Seq<char>,
    loaded: Set<Seq<char>>,
    depth: nat,
)
    requires
        paths.finite(),
        forall|path: Seq<char>| #[trigger] (world.read)(path) is Ok ==> paths.contains(path),
        (world.read)(path) is Ok ==> paths.difference(loaded).len() < depth,
    ensures
        load_one(world, path, loaded, depth) is Some,
        loaded.subset_of(load_one(world, path, loaded, depth).unwrap().loaded),
    decreases depth, 1nat, 0nat,
{
    if let Ok(text) = (world.read)(path) {
        if let Ok(tree) = document_of(text) {
            let entries = tree.includes();
            lemma_pull_in_has_an_ending(world, paths, path, tree, entries, 0, loaded, depth);
        }
    }
}

proof fn lemma_pull_in_has_an_ending(
    world: World,
    paths: Set<Seq<char>>,
    path: Seq<char>,
    tree: SkillTreeView,
    entries: Seq<Seq<char>>,
    i: nat,
    loaded: Set<Seq<char>>,
    depth: nat,
)
    requires
        paths.finite(),
        forall|path: Seq<char>| #[trigger] (world.read)(path) is Ok ==> paths.contains(path),
        paths.difference(loaded).len() < depth,
    ensures
        pull_in(world, path, tree, entries, i, loaded, depth) is Some,
        loaded.subset_of(pull_in(world, path, tree, entries, i, loaded, depth).unwrap().loaded),
    decreases depth, 0nat, entries.len() - i,
{
    if i < entries.len() {
        let target = (world.resolve)(path, entries[i as int]);
        if loaded.contains(target) {
            lemma_pull_in_has_an_ending(world, paths, path, tree, entries, i + 1, loaded, depth);
        } else {
            let noted = loaded.insert(target);
            if (world.read)(target) is Ok {
                assert(paths.difference(loaded).contains(target));
                assert(paths.difference(noted) == paths.difference(loaded).remove(target));
            }
            lemma_load_one_has_an_ending(world, paths, target, noted, (depth - 1) as nat);
            let child = load_one(world, target, noted, (depth - 1) as nat).unwrap();
            if let Ok(pulled) = child.result {
                assert(paths.difference(child.loaded).subset_of(paths.difference(loaded)));
                vstd::set_lib::lemma_len_subset(
                    paths.difference(child.loaded),
                    paths.difference(loaded),
                );
                lemma_pull_in_has_an_ending(
                    world,
                    paths,
                    path,
                    merged(tree, pulled),
                    entries,
                    i + 1,
                    child.loaded,
                    depth,
                );
            }
        }
    }
}

/// Where the paths at which a document can be read are finitely many, the
/// descent has an ending, and it goes no deeper than there are such paths.
pub proof fn law_descent_has_an_ending(world: World, root: Seq<char>, paths: Set<Seq<char>>)
    requires
        paths.finite(),
        forall|path: Seq<char>| #[trigger] (world.read)(path) is Ok ==> paths.contains(path),
    ensures
        load_one(world, root, set![root], paths.len()) is Some,
{
    if (world.read)(root) is Ok {
        assert(paths.difference(set![root]) == paths.remove(root));
    }
    lemma_load_one_has_an_ending(world, paths, root, set![root], paths.len());
}

/// The course of a load comes to the ending of the descent: where the
/// descent from `root` has an ending within `depth`, the load stands at
/// that ending after finitely many answers: finished with the same tree,
/// or failed with the same failure.
pub proof fn law_course_reaches_the_ending(world: World, root: Seq<char>, depth: nat) -> (n: nat)
    requires
        load_one(world, root, set![root], depth) is Some,
    ensures
        load_of(world, root, n) == (match load_one(world, root, set![root], depth).unwrap().result {
            Ok(tree) => ProgressView::Finished(tree),
            Err(e) => ProgressView::Failed(e),
        }),
{
    let n = lemma_load_one(world, set![root], Seq::empty(), root, depth);
    let ending = load_one(world, root, set![root], depth).unwrap();
    if let Err(e) = ending.result {
        assert(e.trail + upward(Seq::<FrameView>::empty()) == e.trail);
    }
    n
}

} // verus!
