//! An export from its first step to its last, stated against the model of
//! the tree.
//!
//! When every listing is answered from the model and both the sink and the
//! reply channel take what they are given, an export sends the batches of the
//! records of the walk, each followed by its receipt, and then ends well; at
//! the first payload that the compressor gives up on it ends with the error
//! of encoding instead.

use crate::batch::{feed, payloads, payloads_of};
use crate::digest::sha256;
use crate::entry::{record_of, EntryView};
use crate::error::EncodeError;
use crate::export::{
    export_step, plan, plan_walk, sealed, ActionView, EventView, ExportError, ExportView,
    PhaseView,
};
use crate::frame::frames;
use crate::gzip::gzip_compressed;
use crate::order::{
    action_for, after_step, event_for, lemma_step_follows_order, mirrors, preorder_all, remaining,
    Node,
};
use crate::record::RecordView;
use crate::walk::{walk_step, WalkError, WalkEventView, WalkerView};
use vstd::prelude::*;

verus! {

/// The records of what a walk hands out: one for each entry, in order, and
/// none for an error that was skipped.
pub open spec fn records_of(items: Seq<Result<EntryView, WalkError>>) -> Seq<RecordView>
    decreases items.len(),
{
    if items.len() == 0 {
        Seq::empty()
    } else {
        match items[0] {
            Ok(entry) => seq![record_of(entry)] + records_of(items.drop_first()),
            Err(_) => records_of(items.drop_first()),
        }
    }
}

/// The payloads that come of feeding `rs` to an accumulator that already
/// holds `acc`.
pub open spec fn pack_from(acc: Seq<RecordView>, rs: Seq<RecordView>, bound: nat) -> Seq<Seq<u8>>
    decreases rs.len(),
{
    if rs.len() == 0 {
        if acc.len() > 0 {
            seq![frames(acc)]
        } else {
            Seq::empty()
        }
    } else {
        let now = acc.push(rs[0]);
        if frames(now).len() >= bound {
            seq![frames(now)] + pack_from(Seq::empty(), rs.drop_first(), bound)
        } else {
            pack_from(now, rs.drop_first(), bound)
        }
    }
}

proof fn lemma_payloads_of_push(cs: Seq<Seq<RecordView>>, c: Seq<RecordView>)
    ensures
        payloads_of(cs.push(c)) == payloads_of(cs) + seq![frames(c)],
{
    assert(payloads_of(cs.push(c)) =~= payloads_of(cs) + seq![frames(c)]);
}

/// The accumulator after one more record.
proof fn lemma_feed_push(prefix: Seq<RecordView>, r: RecordView, bound: nat)
    ensures
        feed(prefix.push(r), bound) == if frames(feed(prefix, bound).1.push(r)).len() >= bound {
            (feed(prefix, bound).0.push(feed(prefix, bound).1.push(r)), Seq::<RecordView>::empty())
        } else {
            (feed(prefix, bound).0, feed(prefix, bound).1.push(r))
        },
{
    let longer = prefix.push(r);
    assert(longer.drop_last() =~= prefix);
    assert(longer.last() == r);
}

/// The payloads of records that have all gone in.
proof fn lemma_payloads_of_fed(prefix: Seq<RecordView>, bound: nat)
    ensures
        payloads(prefix, bound) == payloads_of(feed(prefix, bound).0) + pack_from(
            feed(prefix, bound).1,
            Seq::empty(),
            bound,
        ),
{
    let done = feed(prefix, bound).0;
    let acc = feed(prefix, bound).1;
    if acc.len() > 0 {
        lemma_payloads_of_push(done, acc);
    } else {
        assert(payloads_of(done) + Seq::<Seq<u8>>::empty() =~= payloads_of(done));
    }
}

/// Feeding records to an accumulator that has seen `prefix` gives the
/// payloads that are still due for `prefix` and the records together.
pub proof fn lemma_pack_from_feed(prefix: Seq<RecordView>, rs: Seq<RecordView>, bound: nat)
    ensures
        payloads(prefix + rs, bound) == payloads_of(feed(prefix, bound).0) + pack_from(
            feed(prefix, bound).1,
            rs,
            bound,
        ),
    decreases rs.len(),
{
    if rs.len() == 0 {
        assert(prefix + rs =~= prefix);
        assert(rs =~= Seq::<RecordView>::empty());
        lemma_payloads_of_fed(prefix, bound);
    } else {
        let done = feed(prefix, bound).0;
        let acc = feed(prefix, bound).1;
        let rest = rs.drop_first();
        let longer = prefix.push(rs[0]);
        let now = acc.push(rs[0]);
        assert(prefix + rs =~= longer + rest);
        lemma_pack_from_feed(longer, rest, bound);
        lemma_feed_push(prefix, rs[0], bound);
        let tail = pack_from(feed(longer, bound).1, rest, bound);
        if frames(now).len() >= bound {
            lemma_payloads_of_push(done, now);
            assert((payloads_of(done) + seq![frames(now)]) + tail =~= payloads_of(done) + (seq![
                frames(now),
            ] + tail));
        }
    }
}

/// An empty accumulator packs records into their payloads.
pub proof fn lemma_pack_from_start(rs: Seq<RecordView>, bound: nat)
    ensures
        pack_from(Seq::empty(), rs, bound) == payloads(rs, bound),
{
    lemma_pack_from_feed(Seq::empty(), rs, bound);
    assert(Seq::<RecordView>::empty() + rs =~= rs);
    assert(payloads_of(feed(Seq::empty(), bound).0) =~= Seq::<Seq<u8>>::empty());
    assert(Seq::<Seq<u8>>::empty() + pack_from(Seq::empty(), rs, bound) =~= pack_from(
        Seq::empty(),
        rs,
        bound,
    ));
}

/// The end of an export that went well.
pub open spec fn ended_well() -> Seq<ActionView> {
    seq![ActionView::Finish(Ok(()))]
}

/// The end of an export whose compressor gave up on a payload.
pub open spec fn ended_unencoded() -> Seq<ActionView> {
    seq![ActionView::Finish(Err(ExportError::Encode(EncodeError::Compression)))]
}

/// What an export wants delivered for the given payloads: for each, in
/// order, its blob to the sink and then the receipt with the blob's digest,
/// and the good end behind the last; but at the first payload that does not
/// compress, the end with the error of encoding and nothing after it.
pub open spec fn deliveries(ps: Seq<Seq<u8>>) -> Seq<ActionView>
    decreases ps.len(),
{
    if ps.len() == 0 {
        ended_well()
    } else {
        match gzip_compressed(ps[0]) {
            Some(blob) => seq![ActionView::Send(blob), ActionView::Reply(sha256(blob))]
                + deliveries(ps.drop_first()),
            None => ended_unencoded(),
        }
    }
}

/// What an export is told next when all goes well outside.
pub open spec fn export_event(
    phase: PhaseView,
    owed: Option<Result<Seq<Node>, WalkError>>,
) -> EventView {
    match phase {
        PhaseView::Sending { .. } => EventView::Sent(Ok(())),
        PhaseView::Replying { .. } => EventView::Replied(Ok(())),
        _ => match event_for(owed) {
            WalkEventView::Listed(listing) => EventView::Listed(listing),
            WalkEventView::Resume => EventView::Resume,
        },
    }
}

/// The forest and the listing owed after one more step of the export.
pub open spec fn model_after(
    s: ExportView,
    forest: Seq<Seq<Node>>,
    owed: Option<Result<Seq<Node>, WalkError>>,
) -> (Seq<Seq<Node>>, Option<Result<Seq<Node>, WalkError>>) {
    match s.phase {
        PhaseView::Walking => after_step(forest, owed),
        PhaseView::Replying { last } => if !last && owed is None {
            after_step(forest, owed)
        } else {
            (forest, owed)
        },
        _ => (forest, owed),
    }
}

/// Whether the action leaves the export for the sink, the reply channel or
/// the caller.
pub open spec fn outward(a: ActionView) -> bool {
    a is Send || a is Reply || a is Finish
}

/// The blobs, receipts and result that an export hands out in up to `fuel`
/// steps when all goes well outside.
pub open spec fn export_trace(
    s: ExportView,
    forest: Seq<Seq<Node>>,
    owed: Option<Result<Seq<Node>, WalkError>>,
    fuel: nat,
) -> Seq<ActionView>
    decreases fuel,
{
    if fuel == 0 {
        Seq::empty()
    } else {
        let stepped = export_step(s, export_event(s.phase, owed));
        let model = model_after(s, forest, owed);
        if stepped.1 is Finish {
            seq![stepped.1]
        } else if outward(stepped.1) {
            seq![stepped.1] + export_trace(stepped.0, model.0, model.1, (fuel - 1) as nat)
        } else {
            export_trace(stepped.0, model.0, model.1, (fuel - 1) as nat)
        }
    }
}

/// What is still to come once the export walks on.
pub open spec fn to_come(
    s: ExportView,
    forest: Seq<Seq<Node>>,
    owed: Option<Result<Seq<Node>, WalkError>>,
) -> Seq<ActionView> {
    deliveries(pack_from(s.held, records_of(remaining(forest, owed)), s.bound))
}

/// What is still to come from where the export stands.
pub open spec fn expected(
    s: ExportView,
    forest: Seq<Seq<Node>>,
    owed: Option<Result<Seq<Node>, WalkError>>,
) -> Seq<ActionView> {
    match s.phase {
        PhaseView::Walking => to_come(s, forest, owed),
        PhaseView::Sending { digest, last } => seq![ActionView::Reply(digest)] + (if last {
            ended_well()
        } else {
            to_come(s, forest, owed)
        }),
        PhaseView::Replying { last } => if last {
            ended_well()
        } else {
            to_come(s, forest, owed)
        },
        PhaseView::Over => Seq::empty(),
    }
}

/// The export is under way and its walker stands where the model says.
pub open spec fn on_course(
    s: ExportView,
    forest: Seq<Seq<Node>>,
    owed: Option<Result<Seq<Node>, WalkError>>,
) -> bool {
    !(s.phase is Over) && mirrors(s.walker, forest, owed)
}

/// A bound on the steps that an export still takes.
pub open spec fn steps_left(
    s: ExportView,
    forest: Seq<Seq<Node>>,
    owed: Option<Result<Seq<Node>, WalkError>>,
) -> nat {
    4 * remaining(forest, owed).len() + (if s.held.len() > 0 {
        3nat
    } else {
        0nat
    }) + (match s.phase {
        PhaseView::Sending { .. } => 2nat,
        PhaseView::Replying { .. } => 1nat,
        _ => 0nat,
    })
}

proof fn lemma_records_of_head(items: Seq<Result<EntryView, WalkError>>, rest: Seq<Result<EntryView, WalkError>>)
    requires
        items.len() > 0,
        items == seq![items[0]] + rest,
    ensures
        records_of(items) == match items[0] {
            Ok(entry) => seq![record_of(entry)] + records_of(rest),
            Err(_) => records_of(rest),
        },
{
    assert(items.drop_first() =~= rest);
}

proof fn lemma_deliveries_head(p: Seq<u8>, ps: Seq<Seq<u8>>)
    ensures
        deliveries(seq![p] + ps) == match gzip_compressed(p) {
            Some(blob) => seq![ActionView::Send(blob), ActionView::Reply(sha256(blob))]
                + deliveries(ps),
            None => ended_unencoded(),
        },
{
    let all = seq![p] + ps;
    assert(all[0] == p);
    assert(all.drop_first() =~= ps);
}

/// What a walking export comes to when its walker moves to `w2` and hands
/// out `head`, or nothing more.
spec fn walking_outcome(
    s: ExportView,
    w2: WalkerView,
    head: Option<Result<EntryView, WalkError>>,
) -> (ExportView, ActionView) {
    let t = ExportView { phase: PhaseView::Walking, walker: w2, ..s };
    match head {
        None => if s.held.len() > 0 {
            sealed(ExportView { held: Seq::empty(), ..t }, frames(s.held), true)
        } else {
            (ExportView { phase: PhaseView::Over, ..t }, ActionView::Finish(Ok(())))
        },
        Some(Err(e)) => (t, ActionView::Warn(e)),
        Some(Ok(entry)) => {
            let now = s.held.push(record_of(entry));
            if frames(now).len() >= s.bound {
                sealed(ExportView { held: Seq::empty(), ..t }, frames(now), false)
            } else {
                (ExportView { held: now, ..t }, ActionView::Next)
            }
        },
    }
}

/// The head of what is still to be handed out, if anything is.
spec fn head_of(items: Seq<Result<EntryView, WalkError>>) -> Option<
    Result<EntryView, WalkError>,
> {
    if items.len() == 0 {
        None
    } else {
        Some(items[0])
    }
}

/// A walking export steps its walker, which hands out the head of what the
/// model has left.
proof fn lemma_walking_step(
    s: ExportView,
    forest: Seq<Seq<Node>>,
    owed: Option<Result<Seq<Node>, WalkError>>,
)
    requires
        s.phase is Walking,
        mirrors(s.walker, forest, owed),
    ensures
        export_step(s, export_event(s.phase, owed)) == walking_outcome(
            s,
            walk_step(s.walker, event_for(owed)).0,
            head_of(remaining(forest, owed)),
        ),
{
    lemma_step_follows_order(s.walker, forest, owed);
    let stepped = walk_step(s.walker, event_for(owed));
    let ev = export_event(s.phase, owed);
    assert(plan(s, ev) == plan_walk(s, stepped));
    let items = remaining(forest, owed);
    if items.len() == 0 {
        assert(stepped.1 is Done);
    } else {
        assert(stepped.1 == action_for(items[0]));
    }
}

/// What is to come, by the head of what the model has left.
proof fn lemma_to_come(
    s: ExportView,
    w2: WalkerView,
    items: Seq<Result<EntryView, WalkError>>,
    items2: Seq<Result<EntryView, WalkError>>,
)
    requires
        items.len() > 0 ==> items == seq![items[0]] + items2,
    ensures
        ({
            let (t, a) = walking_outcome(s, w2, head_of(items));
            let now = deliveries(pack_from(s.held, records_of(items), s.bound));
            let then = deliveries(pack_from(t.held, records_of(items2), t.bound));
            match a {
                ActionView::Finish(_) => now == seq![a],
                ActionView::Send(blob) => now == seq![a, ActionView::Reply(sha256(blob))] + (
                if items.len() == 0 {
                    ended_well()
                } else {
                    then
                }),
                _ => now == then,
            }
        }),
{
    let (t, a) = walking_outcome(s, w2, head_of(items));
    if items.len() == 0 {
        assert(records_of(items) =~= Seq::<RecordView>::empty());
        if s.held.len() > 0 {
            let p = frames(s.held);
            assert(pack_from(s.held, records_of(items), s.bound) =~= seq![p] + Seq::<Seq<u8>>::empty());
            lemma_deliveries_head(p, Seq::empty());
        }
    } else {
        lemma_records_of_head(items, items2);
        match items[0] {
            Err(e) => {},
            Ok(entry) => {
                let rs = records_of(items);
                let rs2 = records_of(items2);
                assert(rs[0] == record_of(entry));
                assert(rs.drop_first() =~= rs2);
                let now = s.held.push(record_of(entry));
                if frames(now).len() >= s.bound {
                    lemma_deliveries_head(frames(now), pack_from(Seq::empty(), rs2, s.bound));
                }
            },
        }
    }
}

/// One step of an export that walks: what it hands out is the head of what
/// is to come, and it stays on course.
proof fn lemma_walking_round(
    s: ExportView,
    forest: Seq<Seq<Node>>,
    owed: Option<Result<Seq<Node>, WalkError>>,
)
    requires
        s.phase is Walking,
        on_course(s, forest, owed),
    ensures
        ({
            let (t, a) = export_step(s, export_event(s.phase, owed));
            let (forest2, owed2) = after_step(forest, owed);
            if a is Finish {
                to_come(s, forest, owed) == seq![a]
            } else {
                &&& on_course(t, forest2, owed2)
                &&& 4 * remaining(forest2, owed2).len() + (if t.held.len() > 0 {
                    3nat
                } else {
                    0nat
                }) + (if t.phase is Walking {
                    0nat
                } else {
                    2nat
                }) < 4 * remaining(forest, owed).len() + (if s.held.len() > 0 {
                    3nat
                } else {
                    0nat
                })
                &&& (t.phase is Walking || t.phase is Sending)
                &&& to_come(s, forest, owed) == (if outward(a) {
                    seq![a]
                } else {
                    Seq::empty()
                }) + expected(t, forest2, owed2)
            }
        }),
{
    lemma_step_follows_order(s.walker, forest, owed);
    lemma_walking_step(s, forest, owed);
    let items = remaining(forest, owed);
    let (forest2, owed2) = after_step(forest, owed);
    let items2 = remaining(forest2, owed2);
    let w2 = walk_step(s.walker, event_for(owed)).0;
    lemma_to_come(s, w2, items, items2);
    let (t, a) = walking_outcome(s, w2, head_of(items));
    let now = to_come(s, forest, owed);
    let then = to_come(t, forest2, owed2);
    match a {
        ActionView::Finish(_) => {},
        ActionView::Send(blob) => {
            let rest = if items.len() == 0 {
                ended_well()
            } else {
                then
            };
            assert(seq![a, ActionView::Reply(sha256(blob))] + rest =~= seq![a] + (seq![
                ActionView::Reply(sha256(blob)),
            ] + rest));
            assert(t.held.len() == 0);
        },
        _ => {
            assert(now =~= Seq::<ActionView>::empty() + then);
        },
    }
}

/// One step of an export: what it hands out is the head of what is
/// expected, it stays on course, and fewer steps are left.
proof fn lemma_round(
    s: ExportView,
    forest: Seq<Seq<Node>>,
    owed: Option<Result<Seq<Node>, WalkError>>,
)
    requires
        on_course(s, forest, owed),
    ensures
        ({
            let (t, a) = export_step(s, export_event(s.phase, owed));
            let (forest2, owed2) = model_after(s, forest, owed);
            if a is Finish {
                expected(s, forest, owed) == seq![a]
            } else {
                &&& on_course(t, forest2, owed2)
                &&& steps_left(t, forest2, owed2) < steps_left(s, forest, owed)
                &&& expected(s, forest, owed) == (if outward(a) {
                    seq![a]
                } else {
                    Seq::empty()
                }) + expected(t, forest2, owed2)
            }
        }),
{
    let (t, a) = export_step(s, export_event(s.phase, owed));
    let (forest2, owed2) = model_after(s, forest, owed);
    match s.phase {
        PhaseView::Walking => {
            lemma_walking_round(s, forest, owed);
        },
        PhaseView::Sending { digest, last } => {
            assert(expected(s, forest, owed) =~= seq![a] + expected(t, forest2, owed2));
        },
        PhaseView::Replying { last } => {
            if last {
            } else if owed is Some {
                assert(expected(s, forest, owed) =~= Seq::<ActionView>::empty() + expected(
                    t,
                    forest2,
                    owed2,
                ));
            } else {
                let walking = ExportView { phase: PhaseView::Walking, ..s };
                lemma_walking_round(walking, forest, owed);
                assert(export_step(walking, export_event(walking.phase, owed)) == (t, a));
            }
        },
        PhaseView::Over => {},
    }
}

/// An export that is on course hands out exactly what is expected of it.
pub proof fn lemma_export_follows_course(
    s: ExportView,
    forest: Seq<Seq<Node>>,
    owed: Option<Result<Seq<Node>, WalkError>>,
    fuel: nat,
)
    requires
        on_course(s, forest, owed),
        fuel > steps_left(s, forest, owed),
    ensures
        export_trace(s, forest, owed, fuel) == expected(s, forest, owed),
    decreases fuel,
{
    lemma_round(s, forest, owed);
    let stepped = export_step(s, export_event(s.phase, owed));
    let model = model_after(s, forest, owed);
    if !(stepped.1 is Finish) {
        lemma_export_follows_course(stepped.0, model.0, model.1, (fuel - 1) as nat);
        if !outward(stepped.1) {
            assert(Seq::<ActionView>::empty() + expected(stepped.0, model.0, model.1) =~= expected(
                stepped.0,
                model.0,
                model.1,
            ));
        }
    }
}

/// The export of a tree, end to end. Where the listing of the root shows
/// `nodes`, the export sends the batches of the records of the depth-first
/// walk of those nodes, cut at the bound, each blob followed by the receipt
/// that holds its digest, and ends well behind the last; or, at the first
/// payload that does not compress, ends with the error of encoding.
pub proof fn lemma_export_of_tree(root: Seq<u8>, bound: nat, nodes: Seq<Node>, fuel: nat)
    requires
        fuel > 4 * preorder_all(nodes).len(),
    ensures
        export_trace(
            ExportView {
                phase: PhaseView::Walking,
                walker: WalkerView { wanted: Some(root), at_root: true, stack: Seq::empty() },
                held: Seq::empty(),
                bound,
            },
            Seq::empty(),
            Some(Ok(nodes)),
            fuel,
        ) == deliveries(payloads(records_of(preorder_all(nodes)), bound)),
{
    let s = ExportView {
        phase: PhaseView::Walking,
        walker: WalkerView { wanted: Some(root), at_root: true, stack: Seq::empty() },
        held: Seq::empty(),
        bound,
    };
    let forest = Seq::<Seq<Node>>::empty();
    let owed = Some(Ok::<Seq<Node>, WalkError>(nodes));
    assert(s.walker.stack =~= crate::order::listings_of(forest));
    assert(remaining(forest, owed) =~= preorder_all(nodes));
    lemma_pack_from_start(records_of(preorder_all(nodes)), bound);
    lemma_export_follows_course(s, forest, owed, fuel);
}

/// An export whose root cannot be listed hands out nothing and ends with
/// that failure.
pub proof fn lemma_export_of_unreadable_root(root: Seq<u8>, bound: nat, e: WalkError)
    ensures
        export_step(
            ExportView {
                phase: PhaseView::Walking,
                walker: WalkerView { wanted: Some(root), at_root: true, stack: Seq::empty() },
                held: Seq::empty(),
                bound,
            },
            EventView::Listed(Err(e)),
        ).1 == ActionView::Finish(Err(ExportError::Root(e))),
{
}

} // verus!
