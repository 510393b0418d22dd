//! The directory walker, as a state machine.
//!
//! The walker never touches the filesystem. It asks for the listing of one
//! directory at a time and is told what the listing held; from that it hands
//! out the entries depth first, a directory before what lies in it, and the
//! children of a directory in the order in which they were listed. Only a
//! directory is ever listed: a symbolic link is handed out as the entry it is
//! and never looked into, so no chain of links can lead the walk in a circle.
//! The root itself is listed but not handed out.

use crate::endian::copy_range;
use crate::entry::{Entry, EntryKind, EntryView};
use vstd::prelude::*;

verus! {

/// An operating system error, by its number.
#[derive(Debug, Clone, Copy, PartialEq, Eq)]
pub struct WalkError {
    pub code: i32,
}

/// What the walker is told.
#[derive(Debug)]
pub enum WalkEvent {
    /// Go on.
    Resume,
    /// The directory that was asked for has been listed: its children, each
    /// read or failed, or the error that kept it from being listed at all.
    Listed(Result<Vec<Result<Entry, WalkError>>, WalkError>),
}

/// What the walker wants done, or hands out.
#[derive(Debug)]
pub enum WalkAction {
    /// List this directory and report with [`WalkEvent::Listed`].
    List(Vec<u8>),
    /// The next entry of the walk.
    Yield(Entry),
    /// An entry, or the listing of a directory below the root, could not be
    /// read. The walk goes on without it.
    Skip(WalkError),
    /// The root could not be listed. The walk is over.
    Fail(WalkError),
    /// Every entry has been handed out.
    Done,
}

pub open spec fn child_view(c: Result<Entry, WalkError>) -> Result<EntryView, WalkError> {
    match c {
        Ok(e) => Ok(e@),
        Err(e) => Err(e),
    }
}

/// The mathematical value of a listing.
pub open spec fn children_view(s: Seq<Result<Entry, WalkError>>) -> Seq<
    Result<EntryView, WalkError>,
> {
    Seq::new(s.len(), |i: int| child_view(s[i]))
}

/// The mathematical value of a [`WalkEvent`].
pub enum WalkEventView {
    Resume,
    Listed(Result<Seq<Result<EntryView, WalkError>>, WalkError>),
}

/// The mathematical value of a [`WalkAction`].
pub enum WalkActionView {
    List(Seq<u8>),
    Yield(EntryView),
    Skip(WalkError),
    Fail(WalkError),
    Done,
}

impl View for WalkEvent {
    type V = WalkEventView;

    open spec fn view(&self) -> WalkEventView {
        match *self {
            WalkEvent::Resume => WalkEventView::Resume,
            WalkEvent::Listed(Ok(children)) => WalkEventView::Listed(Ok(children_view(children@))),
            WalkEvent::Listed(Err(e)) => WalkEventView::Listed(Err(e)),
        }
    }
}

impl View for WalkAction {
    type V = WalkActionView;

    open spec fn view(&self) -> WalkActionView {
        match *self {
            WalkAction::List(path) => WalkActionView::List(path@),
            WalkAction::Yield(entry) => WalkActionView::Yield(entry@),
            WalkAction::Skip(e) => WalkActionView::Skip(e),
            WalkAction::Fail(e) => WalkActionView::Fail(e),
            WalkAction::Done => WalkActionView::Done,
        }
    }
}

/// The state of a walk.
pub struct WalkerView {
    /// The directory whose listing is awaited, if any.
    pub wanted: Option<Seq<u8>>,
    /// Whether that directory is the root.
    pub at_root: bool,
    /// For each directory that the walk is inside of, outermost first, the
    /// children that have not been handed out yet, in listing order.
    pub stack: Seq<Seq<Result<EntryView, WalkError>>>,
}

/// Hands out the next child of the innermost directory that has one left.
pub open spec fn advance(stack: Seq<Seq<Result<EntryView, WalkError>>>) -> (
    WalkerView,
    WalkActionView,
)
    decreases stack.len(),
{
    if stack.len() == 0 {
        (WalkerView { wanted: None, at_root: false, stack }, WalkActionView::Done)
    } else if stack.last().len() == 0 {
        advance(stack.drop_last())
    } else {
        let rest = stack.drop_last().push(stack.last().drop_first());
        match stack.last().first() {
            Err(e) => (WalkerView { wanted: None, at_root: false, stack: rest }, WalkActionView::Skip(e)),
            Ok(entry) => (
                WalkerView {
                    wanted: if entry.metadata.kind == EntryKind::Directory {
                        Some(entry.path)
                    } else {
                        None
                    },
                    at_root: false,
                    stack: rest,
                },
                WalkActionView::Yield(entry),
            ),
        }
    }
}

/// The walker's transition: the state and the event give the next state and
/// the action.
///
/// While a listing is awaited, `Resume` asks for it again. A listing that
/// failed ends the walk if it was the root's and is skipped otherwise; one
/// that succeeded is walked before anything else. A listing that nobody asked
/// for is ignored.
pub open spec fn walk_step(s: WalkerView, ev: WalkEventView) -> (WalkerView, WalkActionView) {
    match s.wanted {
        Some(path) => match ev {
            WalkEventView::Resume => (s, WalkActionView::List(path)),
            WalkEventView::Listed(Err(e)) => if s.at_root {
                (
                    WalkerView { wanted: None, at_root: false, stack: Seq::empty() },
                    WalkActionView::Fail(e),
                )
            } else {
                (
                    WalkerView { wanted: None, at_root: false, stack: s.stack },
                    WalkActionView::Skip(e),
                )
            },
            WalkEventView::Listed(Ok(children)) => advance(s.stack.push(children)),
        },
        None => advance(s.stack),
    }
}

/// What is left to hand out, counted so that every step that hands something
/// out, and every directory that is left behind, makes it smaller.
pub open spec fn work(stack: Seq<Seq<Result<EntryView, WalkError>>>) -> nat
    decreases stack.len(),
{
    if stack.len() == 0 {
        0
    } else {
        work(stack.drop_last()) + 1 + stack.last().len()
    }
}

/// Handing out an entry or skipping one uses up work.
pub proof fn lemma_advance_uses_work(stack: Seq<Seq<Result<EntryView, WalkError>>>)
    ensures
        advance(stack).1 is Done ==> advance(stack).0.stack.len() == 0 && advance(stack).0.wanted is None,
        !advance(stack).0.at_root,
        !(advance(stack).1 is Done) ==> work(advance(stack).0.stack) < work(stack),
        advance(stack).1 is Done || advance(stack).1 is Yield || advance(stack).1 is Skip,
    decreases stack.len(),
{
    if stack.len() > 0 {
        if stack.last().len() == 0 {
            lemma_advance_uses_work(stack.drop_last());
        } else {
            let rest = stack.drop_last().push(stack.last().drop_first());
            assert(rest.drop_last() =~= stack.drop_last());
        }
    }
}

/// A walk comes to an end: while no new listing arrives, every step either
/// asks for the listing that is owed, or uses up work, or is the last. A
/// listing adds one unit of work for the directory and one for each child, so
/// a tree with finitely many entries is walked in finitely many steps.
pub proof fn lemma_step_uses_work(s: WalkerView, ev: WalkEventView)
    ensures
        ({
            let (t, a) = walk_step(s, ev);
            match a {
                WalkActionView::List(path) => t == s && s.wanted == Some(path),
                WalkActionView::Fail(_) => s.at_root && t.stack.len() == 0 && t.wanted is None,
                WalkActionView::Done => t.stack.len() == 0 && t.wanted is None,
                _ => match (s.wanted, ev) {
                    (Some(_), WalkEventView::Listed(Ok(children))) => work(t.stack) < work(s.stack)
                        + 1 + children.len(),
                    (Some(_), _) => work(t.stack) == work(s.stack),
                    (None, _) => work(t.stack) < work(s.stack),
                },
            }
        }),
{
    match s.wanted {
        Some(path) => match ev {
            WalkEventView::Listed(Ok(children)) => {
                let pushed = s.stack.push(children);
                assert(pushed.drop_last() =~= s.stack);
                assert(pushed.last() == children);
                assert(work(pushed) == work(s.stack) + 1 + children.len());
                lemma_advance_uses_work(pushed);
            },
            _ => {},
        },
        None => {
            lemma_advance_uses_work(s.stack);
        },
    }
}

/// Only directories are listed: whenever a step leaves the walker waiting
/// for a listing, it is the one it was already waiting for, or that of the
/// directory which the step has just handed out. What is handed out as a
/// symbolic link, a file or anything else is never looked into.
pub proof fn lemma_only_directories_are_listed(s: WalkerView, ev: WalkEventView)
    ensures
        ({
            let (t, a) = walk_step(s, ev);
            t.wanted matches Some(path) ==> (s.wanted == Some(path) && ev is Resume) || (a matches WalkActionView::Yield(
                entry,
            ) && entry.metadata.kind == EntryKind::Directory && entry.path == path)
        }),
{
    match s.wanted {
        Some(path) => match ev {
            WalkEventView::Listed(Ok(children)) => {
                lemma_advance_wants_directory(s.stack.push(children));
            },
            _ => {},
        },
        None => {
            lemma_advance_wants_directory(s.stack);
        },
    }
}

proof fn lemma_advance_wants_directory(stack: Seq<Seq<Result<EntryView, WalkError>>>)
    ensures
        advance(stack).0.wanted matches Some(path) ==> (advance(stack).1 matches WalkActionView::Yield(
            entry,
        ) && entry.metadata.kind == EntryKind::Directory && entry.path == path),
        !advance(stack).0.at_root,
    decreases stack.len(),
{
    if stack.len() > 0 && stack.last().len() == 0 {
        lemma_advance_wants_directory(stack.drop_last());
    }
}

/// The listing in reverse, so that the child to hand out next can be popped.
fn reversed(children: Vec<Result<Entry, WalkError>>) -> (out: Vec<Result<Entry, WalkError>>)
    ensures
        out@ == children@.reverse(),
{
    let mut children = children;
    let ghost orig = children@;
    let mut out: Vec<Result<Entry, WalkError>> = Vec::new();
    while children.len() > 0
        invariant
            children@.len() + out@.len() == orig.len(),
            children@ == orig.take(children@.len() as int),
            forall|j: int| 0 <= j < out@.len() ==> out@[j] == orig[orig.len() - 1 - j],
        decreases children@.len(),
    {
        let ghost before = children@;
        match children.pop() {
            Some(child) => {
                out.push(child);
                proof {
                    assert(children@ =~= orig.take(children@.len() as int));
                }
            },
            None => {},
        }
    }
    proof {
        assert(out@ =~= orig.reverse());
    }
    out
}

/// The directory walker.
pub struct Walker {
    wanted: Option<Vec<u8>>,
    at_root: bool,
    /// Each listing is kept in reverse.
    stack: Vec<Vec<Result<Entry, WalkError>>>,
}

pub open spec fn frame_view(frame: Vec<Result<Entry, WalkError>>) -> Seq<Result<EntryView, WalkError>> {
    children_view(frame@).reverse()
}

pub open spec fn stack_view(stack: Seq<Vec<Result<Entry, WalkError>>>) -> Seq<
    Seq<Result<EntryView, WalkError>>,
> {
    Seq::new(stack.len(), |i: int| frame_view(stack[i]))
}

impl View for Walker {
    type V = WalkerView;

    closed spec fn view(&self) -> WalkerView {
        WalkerView {
            wanted: match self.wanted {
                Some(path) => Some(path@),
                None => None,
            },
            at_root: self.at_root,
            stack: stack_view(self.stack@),
        }
    }
}

impl Walker {
    /// A walk of the tree below `root`. Its first step asks for the listing
    /// of the root.
    pub fn new(root: Vec<u8>) -> (w: Walker)
        ensures
            w@ == (WalkerView { wanted: Some(root@), at_root: true, stack: Seq::empty() }),
    {
        let w = Walker { wanted: Some(root), at_root: true, stack: Vec::new() };
        assert(w@.stack =~= Seq::empty());
        w
    }

    /// Whether every entry has been handed out, or the walk has failed.
    pub fn is_over(&self) -> (over: bool)
        ensures
            over == (self@.wanted is None && self@.stack.len() == 0),
    {
        self.wanted.is_none() && self.stack.len() == 0
    }

    fn advance(&mut self) -> (action: WalkAction)
        requires
            old(self).wanted is None,
        ensures
            (final(self)@, action@) == advance(old(self)@.stack),
    {
        self.at_root = false;
        loop
            invariant
                self.wanted is None,
                !self.at_root,
                advance(self@.stack) == advance(old(self)@.stack),
            decreases self.stack@.len(),
        {
            let ghost stack = self@.stack;
            match self.stack.pop() {
                None => {
                    assert(self@.stack =~= stack);
                    return WalkAction::Done;
                },
                Some(frame) => {
                    let mut frame = frame;
                    let ghost shown = frame_view(frame);
                    assert(self@.stack =~= stack.drop_last());
                    assert(stack.last() == shown);
                    match frame.pop() {
                        None => {
                            assert(shown.len() == 0);
                        },
                        Some(child) => {
                            assert(shown.first() == child_view(child));
                            assert(frame_view(frame) =~= shown.drop_first());
                            self.stack.push(frame);
                            assert(self@.stack =~= stack.drop_last().push(shown.drop_first()));
                            match child {
                                Err(e) => {
                                    return WalkAction::Skip(e);
                                },
                                Ok(entry) => {
                                    match entry.metadata.kind {
                                        EntryKind::Directory => {
                                            let path = copy_range(
                                                entry.path.as_slice(),
                                                0,
                                                entry.path.len(),
                                            );
                                            assert(path@ =~= entry.path@);
                                            self.wanted = Some(path);
                                        },
                                        _ => {},
                                    }
                                    return WalkAction::Yield(entry);
                                },
                            }
                        },
                    }
                },
            }
        }
    }

    /// Takes the walk one step further: the next state and the action are the
    /// ones that [`walk_step`] gives for the state and the event.
    pub fn step(&mut self, event: WalkEvent) -> (action: WalkAction)
        ensures
            (final(self)@, action@) == walk_step(old(self)@, event@),
    {
        let mut wanted: Option<Vec<u8>> = None;
        std::mem::swap(&mut wanted, &mut self.wanted);
        match wanted {
            Some(path) => match event {
                WalkEvent::Resume => {
                    let again = copy_range(path.as_slice(), 0, path.len());
                    assert(again@ =~= path@);
                    self.wanted = Some(path);
                    return WalkAction::List(again);
                },
                WalkEvent::Listed(Err(e)) => {
                    if self.at_root {
                        self.at_root = false;
                        self.stack = Vec::new();
                        assert(self@.stack =~= Seq::empty());
                        return WalkAction::Fail(e);
                    } else {
                        return WalkAction::Skip(e);
                    }
                },
                WalkEvent::Listed(Ok(children)) => {
                    let ghost stack = self@.stack;
                    let ghost listing = children_view(children@);
                    let frame = reversed(children);
                    assert(frame_view(frame) =~= listing);
                    self.stack.push(frame);
                    assert(self@.stack =~= stack.push(listing));
                },
            },
            None => {},
        }
        self.advance()
    }
}

} // verus!
