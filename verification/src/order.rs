//! The order of a walk, stated against a model of the tree.
//!
//! The model is a forest of nodes. A node is what a listing shows at one
//! place, an entry or the error met in reading it, together with what a
//! listing of that very path would bring: more nodes, or an error. Whether a
//! node has anything below it in the walk is for the walker to decide, not
//! for the model: below a symbolic link the model may hold its own ancestors,
//! and the walk does not go there.

use crate::entry::{EntryKind, EntryView};
use crate::walk::{advance, walk_step, WalkActionView, WalkError, WalkEventView, WalkerView};
use vstd::prelude::*;

verus! {

/// One place in the tree.
pub struct Node {
    /// What the listing of the parent shows here.
    pub child: Result<EntryView, WalkError>,
    /// What listing this place would bring.
    pub below: Result<Seq<Node>, WalkError>,
}

/// Whether the walk goes below the node: only where it is shown as a
/// directory.
pub open spec fn is_dir(n: Node) -> bool {
    n.child matches Ok(entry) && entry.metadata.kind == EntryKind::Directory
}

/// What a walk hands out for a node and all that lies below it: the node
/// first, an entry as `Ok` and a skipped error as `Err`; then, for a
/// directory, its children in listing order, each with all that lies below
/// it, or the error that kept the directory from being listed.
pub open spec fn preorder(n: Node) -> Seq<Result<EntryView, WalkError>>
    decreases n,
{
    if is_dir(n) {
        match n.below {
            Ok(nodes) => seq![n.child] + preorder_all(nodes),
            Err(e) => seq![n.child, Err(e)],
        }
    } else {
        seq![n.child]
    }
}

/// What a walk hands out for the nodes of one listing.
pub open spec fn preorder_all(nodes: Seq<Node>) -> Seq<Result<EntryView, WalkError>>
    decreases nodes,
{
    if nodes.len() == 0 {
        Seq::empty()
    } else {
        preorder(nodes[0]) + preorder_all(nodes.subrange(1, nodes.len() as int))
    }
}

/// The listing that shows the given nodes.
pub open spec fn listing_of(nodes: Seq<Node>) -> Seq<Result<EntryView, WalkError>> {
    Seq::new(nodes.len(), |i: int| nodes[i].child)
}

/// The stack of a walker that has the given nodes left to hand out.
pub open spec fn listings_of(forest: Seq<Seq<Node>>) -> Seq<Seq<Result<EntryView, WalkError>>> {
    Seq::new(forest.len(), |i: int| listing_of(forest[i]))
}

/// The answer to a request for a listing.
pub open spec fn answer(below: Result<Seq<Node>, WalkError>) -> WalkEventView {
    match below {
        Ok(nodes) => WalkEventView::Listed(Ok(listing_of(nodes))),
        Err(e) => WalkEventView::Listed(Err(e)),
    }
}

/// What the walker is told next: the listing that it is owed, if any.
pub open spec fn event_for(owed: Option<Result<Seq<Node>, WalkError>>) -> WalkEventView {
    match owed {
        Some(below) => answer(below),
        None => WalkEventView::Resume,
    }
}

/// The node that is handed out next, and the forest without it.
pub open spec fn next_node(forest: Seq<Seq<Node>>) -> Option<(Seq<Seq<Node>>, Node)>
    decreases forest.len(),
{
    if forest.len() == 0 {
        None
    } else if forest.last().len() == 0 {
        next_node(forest.drop_last())
    } else {
        Some(
            (
                forest.drop_last().push(forest.last().subrange(1, forest.last().len() as int)),
                forest.last()[0],
            ),
        )
    }
}

/// The listing that is owed once `n` has been handed out.
pub open spec fn owed_after(n: Node) -> Option<Result<Seq<Node>, WalkError>> {
    if is_dir(n) {
        Some(n.below)
    } else {
        None
    }
}

/// The forest and the listing owed after one more step of the walk.
pub open spec fn after_step(forest: Seq<Seq<Node>>, owed: Option<Result<Seq<Node>, WalkError>>) -> (
    Seq<Seq<Node>>,
    Option<Result<Seq<Node>, WalkError>>,
) {
    match owed {
        Some(Err(_)) => (forest, None),
        _ => {
            let grown = match owed {
                Some(Ok(nodes)) => forest.push(nodes),
                _ => forest,
            };
            match next_node(grown) {
                Some((rest, n)) => (rest, owed_after(n)),
                None => (Seq::empty(), None),
            }
        },
    }
}

/// What is still to be handed out for the nodes left in the forest, innermost
/// directory first.
pub open spec fn rest_of(forest: Seq<Seq<Node>>) -> Seq<Result<EntryView, WalkError>>
    decreases forest.len(),
{
    if forest.len() == 0 {
        Seq::empty()
    } else {
        preorder_all(forest.last()) + rest_of(forest.drop_last())
    }
}

/// What is to be handed out for the listing that is owed.
pub open spec fn owed_part(owed: Option<Result<Seq<Node>, WalkError>>) -> Seq<
    Result<EntryView, WalkError>,
> {
    match owed {
        Some(Ok(nodes)) => preorder_all(nodes),
        Some(Err(e)) => seq![Err(e)],
        None => Seq::empty(),
    }
}

/// All that is still to be handed out.
pub open spec fn remaining(forest: Seq<Seq<Node>>, owed: Option<Result<Seq<Node>, WalkError>>) -> Seq<
    Result<EntryView, WalkError>,
> {
    owed_part(owed) + rest_of(forest)
}

/// The walker stands where the model says: its stack shows the nodes left in
/// the forest, and it waits for a listing exactly when one is owed. Only the
/// root may still be unlisted, and its listing is taken to succeed.
pub open spec fn mirrors(
    w: WalkerView,
    forest: Seq<Seq<Node>>,
    owed: Option<Result<Seq<Node>, WalkError>>,
) -> bool {
    &&& w.stack == listings_of(forest)
    &&& (w.wanted is Some <==> owed is Some)
    &&& (w.at_root ==> owed matches Some(Ok(_)))
}

/// What the walker hands out in up to `fuel` steps when every listing it asks
/// for is answered from the model: entries as `Ok`, skipped errors as `Err`.
pub open spec fn walk_trace(
    w: WalkerView,
    forest: Seq<Seq<Node>>,
    owed: Option<Result<Seq<Node>, WalkError>>,
    fuel: nat,
) -> Seq<Result<EntryView, WalkError>>
    decreases fuel,
{
    if fuel == 0 {
        Seq::empty()
    } else {
        let stepped = walk_step(w, event_for(owed));
        let (forest2, owed2) = after_step(forest, owed);
        match stepped.1 {
            WalkActionView::Yield(entry) => seq![Ok(entry)] + walk_trace(
                stepped.0,
                forest2,
                owed2,
                (fuel - 1) as nat,
            ),
            WalkActionView::Skip(e) => seq![Err(e)] + walk_trace(
                stepped.0,
                forest2,
                owed2,
                (fuel - 1) as nat,
            ),
            _ => Seq::empty(),
        }
    }
}

/// The action that hands out what a listing shows at one place.
pub open spec fn action_for(child: Result<EntryView, WalkError>) -> WalkActionView {
    match child {
        Ok(entry) => WalkActionView::Yield(entry),
        Err(e) => WalkActionView::Skip(e),
    }
}

/// The walker's state once `n` has been handed out and `rest` is left.
pub open spec fn state_after(rest: Seq<Seq<Node>>, n: Node) -> WalkerView {
    WalkerView {
        wanted: match n.child {
            Ok(entry) => if entry.metadata.kind == EntryKind::Directory {
                Some(entry.path)
            } else {
                None
            },
            Err(_) => None,
        },
        at_root: false,
        stack: listings_of(rest),
    }
}

proof fn lemma_preorder_all_unfold(nodes: Seq<Node>)
    requires
        nodes.len() > 0,
    ensures
        preorder_all(nodes) == preorder(nodes[0]) + preorder_all(
            nodes.subrange(1, nodes.len() as int),
        ),
        preorder(nodes[0]) == seq![nodes[0].child] + owed_part(owed_after(nodes[0])),
{
    let n = nodes[0];
    if is_dir(n) {
        match n.below {
            Ok(below) => {},
            Err(e) => {
                assert(seq![n.child, Err(e)] =~= seq![n.child] + seq![Err::<EntryView, WalkError>(e)]);
            },
        }
    } else {
        assert(seq![n.child] =~= seq![n.child] + Seq::empty());
    }
}

/// Handing out from the stack of a walker is handing out the next node of
/// the forest that the stack shows.
proof fn lemma_advance_follows(forest: Seq<Seq<Node>>)
    ensures
        match next_node(forest) {
            None => advance(listings_of(forest)).1 is Done && advance(
                listings_of(forest),
            ).0.wanted is None && rest_of(forest) == Seq::<Result<EntryView, WalkError>>::empty(),
            Some((rest, n)) => advance(listings_of(forest)) == (
                state_after(rest, n),
                action_for(n.child),
            ) && rest_of(forest) == seq![n.child] + owed_part(owed_after(n)) + rest_of(rest),
        },
    decreases forest.len(),
{
    let stack = listings_of(forest);
    if forest.len() == 0 {
    } else {
        let top = forest.last();
        assert(stack.last() == listing_of(top));
        assert(stack.drop_last() =~= listings_of(forest.drop_last()));
        if top.len() == 0 {
            lemma_advance_follows(forest.drop_last());
            assert(rest_of(forest) =~= rest_of(forest.drop_last()));
        } else {
            let n = top[0];
            let tail = top.subrange(1, top.len() as int);
            let rest = forest.drop_last().push(tail);
            assert(stack.last().first() == n.child);
            assert(stack.last().drop_first() =~= listing_of(tail));
            assert(stack.drop_last().push(stack.last().drop_first()) =~= listings_of(rest));
            lemma_preorder_all_unfold(top);
            assert(rest.drop_last() =~= forest.drop_last());
            assert(rest.last() == tail);
            assert(rest_of(forest) =~= seq![n.child] + owed_part(owed_after(n)) + rest_of(rest));
        }
    }
}

/// One step of a walk hands out the next item of the depth-first order, and
/// leaves the walker where the model says; when nothing is left to hand out,
/// the walk is done.
pub proof fn lemma_step_follows_order(
    w: WalkerView,
    forest: Seq<Seq<Node>>,
    owed: Option<Result<Seq<Node>, WalkError>>,
)
    requires
        mirrors(w, forest, owed),
    ensures
        ({
            let (w2, a) = walk_step(w, event_for(owed));
            let (forest2, owed2) = after_step(forest, owed);
            if remaining(forest, owed).len() == 0 {
                a is Done && mirrors(w2, forest2, owed2) && owed2 is None && forest2.len() == 0
            } else {
                &&& a == action_for(remaining(forest, owed)[0])
                &&& remaining(forest, owed) == seq![remaining(forest, owed)[0]] + remaining(
                    forest2,
                    owed2,
                )
                &&& mirrors(w2, forest2, owed2)
            }
        }),
{
    match owed {
        Some(Err(e)) => {
            assert(remaining(forest, owed) =~= seq![Err::<EntryView, WalkError>(e)] + remaining(
                forest,
                None,
            ));
        },
        Some(Ok(nodes)) => {
            let grown = forest.push(nodes);
            assert(w.stack.push(listing_of(nodes)) =~= listings_of(grown));
            lemma_advance_follows(grown);
            assert(grown.drop_last() =~= forest);
            assert(rest_of(grown) == preorder_all(nodes) + rest_of(forest));
            lemma_step_tail(grown);
        },
        None => {
            lemma_advance_follows(forest);
            assert(remaining(forest, owed) =~= rest_of(forest));
            lemma_step_tail(forest);
        },
    }
}

proof fn lemma_step_tail(forest: Seq<Seq<Node>>)
    ensures
        match next_node(forest) {
            None => advance(listings_of(forest)).0.stack =~= listings_of(Seq::empty())
                && !advance(listings_of(forest)).0.at_root,
            Some((rest, n)) => mirrors(state_after(rest, n), rest, owed_after(n)) && seq![n.child]
                + owed_part(owed_after(n)) + rest_of(rest) == seq![n.child] + remaining(
                rest,
                owed_after(n),
            ),
        },
{
    crate::walk::lemma_advance_uses_work(listings_of(forest));
    lemma_advance_follows(forest);
    match next_node(forest) {
        None => {},
        Some((rest, n)) => {
            assert(seq![n.child] + owed_part(owed_after(n)) + rest_of(rest) =~= seq![n.child]
                + remaining(rest, owed_after(n)));
        },
    }
}

/// A walk hands out exactly what the depth-first order holds, in that order:
/// every entry once, a directory before what lies in it, the children of a
/// directory as they were listed, an error in place of what could not be
/// read; and nothing for what lies behind an entry that is no directory. It
/// needs one step for each item and one more to find that it is done.
pub proof fn lemma_walk_follows_order(
    w: WalkerView,
    forest: Seq<Seq<Node>>,
    owed: Option<Result<Seq<Node>, WalkError>>,
    fuel: nat,
)
    requires
        mirrors(w, forest, owed),
        fuel > remaining(forest, owed).len(),
    ensures
        walk_trace(w, forest, owed, fuel) == remaining(forest, owed),
    decreases fuel,
{
    lemma_step_follows_order(w, forest, owed);
    let stepped = walk_step(w, event_for(owed));
    let (forest2, owed2) = after_step(forest, owed);
    if remaining(forest, owed).len() == 0 {
        assert(walk_trace(w, forest, owed, fuel) =~= remaining(forest, owed));
    } else {
        lemma_walk_follows_order(stepped.0, forest2, owed2, (fuel - 1) as nat);
    }
}

/// The walk of a root whose listing shows `nodes` hands out the depth-first
/// order of those nodes. The root itself is not handed out.
pub proof fn lemma_walk_of_root(root: Seq<u8>, nodes: Seq<Node>, fuel: nat)
    requires
        fuel > preorder_all(nodes).len(),
    ensures
        walk_trace(
            WalkerView { wanted: Some(root), at_root: true, stack: Seq::empty() },
            Seq::empty(),
            Some(Ok(nodes)),
            fuel,
        ) == preorder_all(nodes),
{
    let w = WalkerView { wanted: Some(root), at_root: true, stack: Seq::empty() };
    let forest = Seq::<Seq<Node>>::empty();
    assert(w.stack =~= listings_of(forest));
    assert(remaining(forest, Some(Ok(nodes))) =~= preorder_all(nodes));
    lemma_walk_follows_order(w, forest, Some(Ok(nodes)), fuel);
}

} // verus!
