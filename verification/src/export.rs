//! The export of a timeline, as a state machine.
//!
//! An export walks the tree below a root, turns each entry into a record,
//! packs the records into payloads, compresses each payload into a blob and
//! wants every blob sent and then acknowledged with a receipt that holds the
//! blob's SHA-256. It does none of the outside work itself: each step names
//! one action, and the next step is told what came of it.
//!
//! An entry that cannot be read is reported and left out. Everything else
//! that goes wrong ends the export: a root that cannot be listed, a payload
//! that cannot be compressed, a blob that cannot be sent, a receipt that
//! cannot be delivered.

use crate::batch::Batcher;
use crate::codec::compress;
use crate::digest::{sha256, sha256_of};
use crate::entry::{record_of, Entry, EntryView};
use crate::error::EncodeError;
use crate::frame::frames;
use crate::gzip::{gzip_compressed, gzip_decompressed};
use crate::record::{RecordView, WireRecord};
use crate::walk::{
    children_view, walk_step, WalkAction, WalkActionView, WalkError, WalkEvent, WalkEventView,
    Walker, WalkerView,
};
use vstd::prelude::*;

verus! {

/// What an export is asked for.
#[derive(Debug, Clone, PartialEq, Eq)]
pub struct Args {
    root: Vec<u8>,
}

/// The request as it arrives: the root path, byte for byte.
#[derive(Debug, Clone, PartialEq, Eq)]
pub struct ArgsProto {
    pub root: Vec<u8>,
}

impl Args {
    /// A request for the tree below `root`.
    pub fn new(root: Vec<u8>) -> (args: Args)
        ensures
            args.root_view() == root@,
    {
        Args { root }
    }

    /// The root path.
    pub closed spec fn root_view(&self) -> Seq<u8> {
        self.root@
    }

    /// The root path.
    pub fn root(&self) -> (root: &Vec<u8>)
        ensures
            root@ == self.root_view(),
    {
        &self.root
    }

    /// Reads the request. Every byte string is a path, so none is turned down.
    pub fn from_proto(proto: ArgsProto) -> (args: Args)
        ensures
            args.root_view() == proto.root@,
    {
        Args { root: proto.root }
    }
}

/// The receipt for one blob.
#[derive(Debug, Clone, Copy, PartialEq, Eq)]
pub struct Item {
    blob_sha256: [u8; 32],
}

/// The receipt as it leaves: the digest as a byte string.
#[derive(Debug, Clone, PartialEq, Eq)]
pub struct ItemProto {
    pub blob_sha256: Vec<u8>,
}

impl Item {
    /// The SHA-256 digest of the blob.
    pub closed spec fn digest(&self) -> Seq<u8> {
        self.blob_sha256@
    }

    /// The receipt that holds the given digest.
    pub fn new(blob_sha256: [u8; 32]) -> (item: Item)
        ensures
            item.digest() == blob_sha256@,
    {
        Item { blob_sha256 }
    }

    /// The receipt for `blob`.
    pub fn of_blob(blob: &[u8]) -> (item: Item)
        ensures
            item.digest() == sha256(blob@),
    {
        Item { blob_sha256: sha256_of(blob) }
    }

    /// The SHA-256 digest of the blob.
    pub fn blob_sha256(&self) -> (d: [u8; 32])
        ensures
            d@ == self.digest(),
    {
        self.blob_sha256
    }

    /// The receipt as it leaves.
    pub fn into_proto(self) -> (proto: ItemProto)
        ensures
            proto.blob_sha256@ == self.digest(),
    {
        let mut bytes: Vec<u8> = Vec::new();
        let mut i: usize = 0;
        while i < 32
            invariant
                i <= 32,
                bytes@ == self.blob_sha256@.take(i as int),
            decreases 32 - i,
        {
            bytes.push(self.blob_sha256[i]);
            proof {
                assert(bytes@ =~= self.blob_sha256@.take(i + 1));
            }
            i += 1;
        }
        proof {
            assert(bytes@ =~= self.blob_sha256@);
        }
        ItemProto { blob_sha256: bytes }
    }
}

/// What the sink or the reply channel reports when it fails, by its number.
#[derive(Debug, Clone, Copy, PartialEq, Eq)]
pub struct TransportError {
    pub code: i32,
}

/// Why an export ended early.
#[derive(Debug, Clone, Copy, PartialEq, Eq)]
pub enum ExportError {
    /// The root could not be listed.
    Root(WalkError),
    /// A payload could not be compressed.
    Encode(EncodeError),
    /// The sink did not take a blob.
    Sink(TransportError),
    /// The reply channel did not take a receipt.
    Reply(TransportError),
    /// The export was told of something it had not asked for.
    OutOfTurn,
}

/// What an export is told.
#[derive(Debug)]
pub enum Event {
    /// Go on.
    Resume,
    /// The directory that was asked for has been listed.
    Listed(Result<Vec<Result<Entry, WalkError>>, WalkError>),
    /// The blob has been handed to the sink, or the sink has failed.
    Sent(Result<(), TransportError>),
    /// The receipt has been delivered, or the reply channel has failed.
    Replied(Result<(), TransportError>),
}

/// What an export wants done.
#[derive(Debug)]
pub enum Action {
    /// List this directory and report with [`Event::Listed`].
    List(Vec<u8>),
    /// Note that an entry was left out, and go on with [`Event::Resume`].
    Warn(WalkError),
    /// Hand this blob to the sink and report with [`Event::Sent`].
    Send(Vec<u8>),
    /// Deliver this receipt and report with [`Event::Replied`].
    Reply(Item),
    /// Nothing to do outside; go on with [`Event::Resume`].
    Next,
    /// The export is over, with this result.
    Finish(Result<(), ExportError>),
}

/// Where an export stands.
#[derive(Debug, Clone, Copy, PartialEq, Eq)]
pub enum Phase {
    /// Entries are being collected.
    Walking,
    /// A blob is with the sink; `last` if no entry is left behind it.
    Sending { item: Item, last: bool },
    /// The receipt of the blob is on its way.
    Replying { last: bool },
    /// Nothing more will happen.
    Over,
}

/// The mathematical value of an [`Event`].
pub enum EventView {
    Resume,
    Listed(Result<Seq<Result<EntryView, WalkError>>, WalkError>),
    Sent(Result<(), TransportError>),
    Replied(Result<(), TransportError>),
}

/// The mathematical value of an [`Action`]; a receipt is given by its digest.
pub enum ActionView {
    List(Seq<u8>),
    Warn(WalkError),
    Send(Seq<u8>),
    Reply(Seq<u8>),
    Next,
    Finish(Result<(), ExportError>),
}

/// The mathematical value of a [`Phase`]; a receipt is given by its digest.
pub enum PhaseView {
    Walking,
    Sending { digest: Seq<u8>, last: bool },
    Replying { last: bool },
    Over,
}

impl View for Event {
    type V = EventView;

    open spec fn view(&self) -> EventView {
        match *self {
            Event::Resume => EventView::Resume,
            Event::Listed(Ok(children)) => EventView::Listed(Ok(children_view(children@))),
            Event::Listed(Err(e)) => EventView::Listed(Err(e)),
            Event::Sent(r) => EventView::Sent(r),
            Event::Replied(r) => EventView::Replied(r),
        }
    }
}

impl View for Action {
    type V = ActionView;

    open spec fn view(&self) -> ActionView {
        match *self {
            Action::List(path) => ActionView::List(path@),
            Action::Warn(e) => ActionView::Warn(e),
            Action::Send(blob) => ActionView::Send(blob@),
            Action::Reply(item) => ActionView::Reply(item.digest()),
            Action::Next => ActionView::Next,
            Action::Finish(r) => ActionView::Finish(r),
        }
    }
}

impl View for Phase {
    type V = PhaseView;

    open spec fn view(&self) -> PhaseView {
        match *self {
            Phase::Walking => PhaseView::Walking,
            Phase::Sending { item, last } => PhaseView::Sending { digest: item.digest(), last },
            Phase::Replying { last } => PhaseView::Replying { last },
            Phase::Over => PhaseView::Over,
        }
    }
}

/// The state of an export.
pub struct ExportView {
    pub phase: PhaseView,
    pub walker: WalkerView,
    /// The records that wait for their payload to fill.
    pub held: Seq<RecordView>,
    /// The size at which a payload is sealed.
    pub bound: nat,
}

/// What a step comes to before any compression: either a next state and an
/// action, or a payload that is due to be sealed.
pub enum Plan {
    Act(ExportView, ActionView),
    /// The state with the payload taken out of it, the payload, and whether
    /// it is the last one.
    Seal(ExportView, Seq<u8>, bool),
}

pub open spec fn over(s: ExportView) -> ExportView {
    ExportView { phase: PhaseView::Over, ..s }
}

pub open spec fn out_of_turn(s: ExportView) -> Plan {
    Plan::Act(over(s), ActionView::Finish(Err(ExportError::OutOfTurn)))
}

/// What the export makes of a step of its walker.
///
/// A directory to list and an entry left out are passed on. A root that
/// cannot be listed ends the export. An entry becomes a record and joins the
/// records held; once their payload reaches the bound it is due. When the
/// walk is done, what is still held is due as the last payload, and an export
/// that holds nothing is over.
pub open spec fn plan_walk(s: ExportView, stepped: (WalkerView, WalkActionView)) -> Plan {
    let t = ExportView { walker: stepped.0, ..s };
    match stepped.1 {
        WalkActionView::List(path) => Plan::Act(t, ActionView::List(path)),
        WalkActionView::Skip(e) => Plan::Act(t, ActionView::Warn(e)),
        WalkActionView::Fail(e) => Plan::Act(over(t), ActionView::Finish(Err(ExportError::Root(e)))),
        WalkActionView::Yield(entry) => {
            let now = s.held.push(record_of(entry));
            if frames(now).len() >= s.bound {
                Plan::Seal(ExportView { held: Seq::empty(), ..t }, frames(now), false)
            } else {
                Plan::Act(ExportView { held: now, ..t }, ActionView::Next)
            }
        },
        WalkActionView::Done => if s.held.len() > 0 {
            Plan::Seal(ExportView { held: Seq::empty(), ..t }, frames(s.held), true)
        } else {
            Plan::Act(over(t), ActionView::Finish(Ok(())))
        },
    }
}

/// What a step comes to before any compression.
///
/// While walking, the export steps its walker. While a blob is with the
/// sink it waits to hear of it: the receipt follows a blob that was taken, and
/// a blob that was not ends the export. While a receipt is on its way it waits
/// to hear of that: after a receipt that was delivered the export is over if
/// the blob was the last, and walks on otherwise; a receipt that was not
/// delivered ends the export. Anything else is out of turn and ends it too.
pub open spec fn plan(s: ExportView, ev: EventView) -> Plan {
    match s.phase {
        PhaseView::Walking => match ev {
            EventView::Resume => plan_walk(s, walk_step(s.walker, WalkEventView::Resume)),
            EventView::Listed(listing) => plan_walk(
                s,
                walk_step(s.walker, WalkEventView::Listed(listing)),
            ),
            _ => out_of_turn(s),
        },
        PhaseView::Sending { digest, last } => match ev {
            EventView::Sent(Ok(())) => Plan::Act(
                ExportView { phase: PhaseView::Replying { last }, ..s },
                ActionView::Reply(digest),
            ),
            EventView::Sent(Err(e)) => Plan::Act(
                over(s),
                ActionView::Finish(Err(ExportError::Sink(e))),
            ),
            _ => out_of_turn(s),
        },
        PhaseView::Replying { last } => match ev {
            EventView::Replied(Ok(())) => if last {
                Plan::Act(over(s), ActionView::Finish(Ok(())))
            } else {
                plan_walk(
                    ExportView { phase: PhaseView::Walking, ..s },
                    walk_step(s.walker, WalkEventView::Resume),
                )
            },
            EventView::Replied(Err(e)) => Plan::Act(
                over(s),
                ActionView::Finish(Err(ExportError::Reply(e))),
            ),
            _ => out_of_turn(s),
        },
        PhaseView::Over => out_of_turn(s),
    }
}

/// The state and the action that a payload which is due comes to. Where it
/// compresses, the blob is to be sent, and the receipt that is kept for it
/// holds the blob's digest; a payload that the compressor gives up on ends the
/// export.
pub open spec fn sealed(t: ExportView, payload: Seq<u8>, last: bool) -> (ExportView, ActionView) {
    match gzip_compressed(payload) {
        Some(blob) => (
            ExportView { phase: PhaseView::Sending { digest: sha256(blob), last }, ..t },
            ActionView::Send(blob),
        ),
        None => (over(t), ActionView::Finish(Err(ExportError::Encode(EncodeError::Compression)))),
    }
}

/// The export's transition: the state and the event give the next state and
/// the action.
pub open spec fn export_step(s: ExportView, ev: EventView) -> (ExportView, ActionView) {
    match plan(s, ev) {
        Plan::Act(t, a) => (t, a),
        Plan::Seal(t, payload, last) => sealed(t, payload, last),
    }
}

/// Receipts follow their blobs: once a step wants a blob sent, the next step
/// answers the sink's success with the receipt that holds the digest of that
/// very blob, and an export that is told of a failure, by the sink or by the
/// reply channel, is over at once with that failure. So the receipts that are
/// delivered are, in order, those of the blobs that were sent.
pub proof fn lemma_receipt_follows_blob(s: ExportView, ev: EventView, e: TransportError)
    ensures
        ({
            let (t, a) = export_step(s, ev);
            let (u, b) = export_step(t, EventView::Sent(Ok(())));
            a matches ActionView::Send(blob) ==> {
                &&& b == ActionView::Reply(sha256(blob))
                &&& u.phase is Replying
                &&& export_step(t, EventView::Sent(Err(e))) == (
                    over(t),
                    ActionView::Finish(Err(ExportError::Sink(e))),
                )
                &&& export_step(u, EventView::Replied(Err(e))) == (
                    over(u),
                    ActionView::Finish(Err(ExportError::Reply(e))),
                )
            }
        }),
{
}

/// A timeline export.
pub struct Export {
    phase: Phase,
    walker: Walker,
    batcher: Batcher,
}

impl View for Export {
    type V = ExportView;

    closed spec fn view(&self) -> ExportView {
        ExportView {
            phase: self.phase@,
            walker: self.walker@,
            held: self.batcher.held(),
            bound: self.batcher.bound(),
        }
    }
}

impl Export {
    /// What every export made by [`Export::new`] and moved by
    /// [`Export::step`] satisfies.
    pub closed spec fn wf(&self) -> bool {
        self.batcher.wf()
    }

    /// An export of the tree below the root of `args`, with payloads sealed
    /// at `size_bound` bytes.
    pub fn new(args: Args, size_bound: usize) -> (e: Export)
        ensures
            e.wf(),
            e@ == (ExportView {
                phase: PhaseView::Walking,
                walker: WalkerView {
                    wanted: Some(args.root_view()),
                    at_root: true,
                    stack: Seq::empty(),
                },
                held: Seq::empty(),
                bound: size_bound as nat,
            }),
    {
        Export {
            phase: Phase::Walking,
            walker: Walker::new(args.root),
            batcher: Batcher::new(size_bound),
        }
    }

    /// Whether the export is over.
    pub fn is_over(&self) -> (over: bool)
        ensures
            over == (self@.phase is Over),
    {
        match self.phase {
            Phase::Over => true,
            _ => false,
        }
    }

    fn seal(&mut self, payload: Vec<u8>, last: bool) -> (action: Action)
        requires
            old(self).wf(),
        ensures
            final(self).wf(),
            (final(self)@, action@) == sealed(old(self)@, payload@, last),
            action@ matches ActionView::Send(blob) ==> gzip_decompressed(blob) == Some(payload@),
    {
        match compress(payload.as_slice()) {
            Ok(blob) => {
                let item = Item::of_blob(blob.as_slice());
                self.phase = Phase::Sending { item, last };
                Action::Send(blob)
            },
            Err(e) => {
                self.phase = Phase::Over;
                Action::Finish(Err(ExportError::Encode(e)))
            },
        }
    }

    fn walk(&mut self, event: WalkEvent) -> (action: Action)
        requires
            old(self).wf(),
        ensures
            final(self).wf(),
            ({
                let s = ExportView { phase: PhaseView::Walking, ..old(self)@ };
                let p = plan_walk(s, walk_step(s.walker, event@));
                stepped(p, final(self)@, action@)
            }),
    {
        self.phase = Phase::Walking;
        let ghost s = ExportView { phase: PhaseView::Walking, ..old(self)@ };
        match self.walker.step(event) {
            WalkAction::List(path) => {
                Action::List(path)
            },
            WalkAction::Skip(e) => {
                Action::Warn(e)
            },
            WalkAction::Fail(e) => {
                self.phase = Phase::Over;
                Action::Finish(Err(ExportError::Root(e)))
            },
            WalkAction::Yield(entry) => {
                let record = WireRecord::from_lossy(entry);
                match self.batcher.push(&record) {
                    Some(payload) => {
                        self.seal(payload, false)
                    },
                    None => {
                        Action::Next
                    },
                }
            },
            WalkAction::Done => match self.batcher.flush() {
                Some(payload) => {
                    self.seal(payload, true)
                },
                None => {
                    self.phase = Phase::Over;
                    let action = Action::Finish(Ok(()));
                    assert(s.held =~= Seq::empty());
                    action
                },
            },
        }
    }

    fn refuse(&mut self) -> (action: Action)
        requires
            old(self).wf(),
        ensures
            final(self).wf(),
            stepped(out_of_turn(old(self)@), final(self)@, action@),
    {
        self.phase = Phase::Over;
        Action::Finish(Err(ExportError::OutOfTurn))
    }

    /// Takes the export one step further: the next state and the action are
    /// the ones that [`export_step`] gives for the state and the event. A blob
    /// that is to be sent decompresses to the payload that was due.
    pub fn step(&mut self, event: Event) -> (action: Action)
        requires
            old(self).wf(),
        ensures
            final(self).wf(),
            (final(self)@, action@) == export_step(old(self)@, event@),
            plan(old(self)@, event@) matches Plan::Seal(_, payload, _) ==> (action@ matches ActionView::Send(
                blob,
            ) ==> gzip_decompressed(blob) == Some(payload)),
    {
        let action = match self.phase {
            Phase::Walking => match event {
                Event::Resume => self.walk(WalkEvent::Resume),
                Event::Listed(listing) => self.walk(WalkEvent::Listed(listing)),
                _ => self.refuse(),
            },
            Phase::Sending { item, last } => match event {
                Event::Sent(Ok(())) => {
                    self.phase = Phase::Replying { last };
                    Action::Reply(item)
                },
                Event::Sent(Err(e)) => {
                    self.phase = Phase::Over;
                    Action::Finish(Err(ExportError::Sink(e)))
                },
                _ => self.refuse(),
            },
            Phase::Replying { last } => match event {
                Event::Replied(Ok(())) => {
                    if last {
                        self.phase = Phase::Over;
                        Action::Finish(Ok(()))
                    } else {
                        self.walk(WalkEvent::Resume)
                    }
                },
                Event::Replied(Err(e)) => {
                    self.phase = Phase::Over;
                    Action::Finish(Err(ExportError::Reply(e)))
                },
                _ => self.refuse(),
            },
            Phase::Over => self.refuse(),
        };
        proof {
            assert(stepped(plan(old(self)@, event@), self@, action@));
        }
        action
    }
}

/// The state `t` and the action `a` are what the plan `p` comes to, and a
/// blob that is to be sent decompresses to the payload that was due.
pub open spec fn stepped(p: Plan, t: ExportView, a: ActionView) -> bool {
    match p {
        Plan::Act(t0, a0) => t == t0 && a == a0,
        Plan::Seal(t0, payload, last) => (t, a) == sealed(t0, payload, last) && (a matches ActionView::Send(
            blob,
        ) ==> gzip_decompressed(blob) == Some(payload)),
    }
}

} // verus!
