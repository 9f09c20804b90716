//! The simulation core: the node capability contract, the network's node
//! registry, and the message-conveyance scheduler.
//!
//! The network owns node state in an indexed store (index = identity) and
//! conveys messages on a virtual clock: every in-flight conveyance carries
//! the logical time it was sent and the logical time it is due, and the
//! engine delivers the earliest due conveyance first, ties broken by
//! insertion sequence.  A run is therefore deterministic and as fast as the
//! host allows, while still observing every configured propagation delay.

use vstd::prelude::*;

use crate::logging::Logger;
use crate::message::MessageString;
use crate::numerals::{i32_to_string, u64_to_string};

verus! {

/// The logical time at which something scheduled at `t` with delay `d` is
/// due.  The clock saturates at the largest representable time.
pub open spec fn advance(t: u64, d: u64) -> u64 {
    if t + d <= u64::MAX {
        (t + d) as u64
    } else {
        u64::MAX
    }
}

/// Adds a delay to a logical time, saturating at the clock's end.
pub fn advance_time(t: u64, d: u64) -> (r: u64)
    ensures
        r == advance(t, d),
{
    if t <= u64::MAX - d {
        t + d
    } else {
        u64::MAX
    }
}

/// An opaque, lightweight handle a node holds in place of a back-reference
/// to the network that owns it: the node's own slot index in the network's
/// registry.
#[derive(Debug, Clone, Copy, PartialEq, Eq, Structural)]
pub struct NetworkHandle {
    /// The index of the node's slot in the network's registry.
    pub index: i32,
}

/// What a node asks the network to do, returned from its reactive handler
/// or its run loop and performed by the engine on the node's behalf.
#[derive(Debug)]
pub enum Action {
    /// Send a message to one target, with an optional explicit delay.
    Send {
        /// The identity of the target node.
        target: i32,
        /// The message to convey.
        message: MessageString,
        /// The propagation delay; the network's default when absent.
        delay: Option<u64>,
    },
    /// Send an independent duplicate of a message to every other node.
    Broadcast {
        /// The message to convey.
        message: MessageString,
        /// The propagation delay; the network's default when absent.
        delay: Option<u64>,
    },
    /// Spend the given number of logical time units before the actions
    /// that follow.
    Wait {
        /// How many units to wait.
        units: u64,
    },
    /// Record a node-level event in the log.
    Log {
        /// The event word.
        event: String,
        /// A human-readable detail.
        detail: String,
    },
}

/// A transient record of one in-flight conveyance: who sent what to whom,
/// with which delay, and when it was sent and is due.
pub struct Envelope {
    /// The conveyance's insertion sequence number, for deterministic
    /// tie-breaking; tracked only for reasoning.
    pub seq: Ghost<nat>,
    /// The identity of the sending node.
    pub sender: i32,
    /// The identity of the target node.
    pub target: i32,
    /// The message being conveyed.
    pub message: MessageString,
    /// The resolved propagation delay.
    pub delay: u64,
    /// The logical time the message was sent.
    pub sent_at: u64,
    /// The logical time the conveyance is due: `sent_at` plus `delay`.
    pub deliver_at: u64,
}

/// One recorded event of a simulation run.
pub enum Event {
    /// A node was registered under `ident`.
    Added {
        /// The identity the node was assigned.
        ident: i32,
        /// The logical time of registration.
        time: u64,
    },
    /// A node's run loop was started.
    Started {
        /// The identity of the started node.
        ident: i32,
        /// The logical time of the start.
        time: u64,
    },
    /// A message was sent: one conveyance was scheduled.
    Sent {
        /// The conveyance's sequence number; tracked only for reasoning.
        seq: Ghost<nat>,
        /// The identity of the sending node.
        sender: i32,
        /// The identity of the target node.
        target: i32,
        /// The message's text.
        message: String,
        /// The resolved propagation delay.
        delay: u64,
        /// The logical time of the send.
        time: u64,
    },
    /// A broadcast was issued; one `Sent` follows for each other node.
    Broadcast {
        /// The identity of the broadcasting node.
        sender: i32,
        /// The message's text.
        message: String,
        /// The resolved propagation delay.
        delay: u64,
        /// The logical time of the broadcast.
        time: u64,
    },
    /// A conveyance came due: the message reached its target's identity.
    /// `delivered` is false when no node has that identity; the message is
    /// then dropped silently.
    Received {
        /// The conveyance's sequence number; tracked only for reasoning.
        seq: Ghost<nat>,
        /// The identity of the sending node.
        sender: i32,
        /// The identity the message was addressed to.
        target: i32,
        /// The message's text.
        message: String,
        /// Whether a node with that identity existed to receive it.
        delivered: bool,
        /// The logical time of the receipt.
        time: u64,
    },
    /// A node's handler ran, over the half-open span `start .. end`.
    Handled {
        /// The identity of the handling node.
        ident: i32,
        /// The identity of the message's sender.
        sender: i32,
        /// The handled message's text.
        message: String,
        /// The logical time the handler began.
        start: u64,
        /// The logical time the handler finished.
        end: u64,
    },
    /// A node-level log entry.
    Logged {
        /// The identity of the node that logged.
        ident: i32,
        /// The event word.
        event: String,
        /// A human-readable detail.
        detail: String,
        /// The logical time of the entry.
        time: u64,
    },
}

/// What a node's run loop may read of the network when it starts.
#[derive(Debug, Clone, Copy)]
pub struct NetworkInfo {
    /// How many nodes are registered.
    pub num_nodes: usize,
    /// The network's default propagation delay.
    pub default_delay: u64,
    /// The logical time of the start.
    pub now: u64,
}

/// The capability contract every simulation participant implements.
///
/// A node is initialized exactly once, with its identity and its handle,
/// before any other operation; its identity and handle never change
/// afterward.  A node reacts to messages through `receive`: a
/// mailbox-backed node (`enqueues`) appends them to its inbox for its own
/// run loop to drain, any other node handles them on the spot.  `handle`
/// and `run` return the actions the network performs on the node's behalf;
/// neither touches the inbox, and only `take_next` drains it.
///
/// A node moves through three states: uninitialized, initialized, and
/// running.  `initialize` leaves it initialized and not yet running, and
/// `run` — which may be invoked only once — is the one operation that
/// makes it running: every other operation leaves that state as it was.
/// A caller that sees `running()` therefore knows the node's run loop was
/// launched.
pub trait Node: Sized {
    /// Whether the node has been initialized.
    spec fn initialized(&self) -> bool;

    /// Whether the node's run loop has been invoked.
    spec fn running(&self) -> bool;

    /// The node's identity.
    spec fn ident_of(&self) -> int;

    /// The network handle the node was initialized with.
    spec fn handle_of(&self) -> NetworkHandle;

    /// Whether the node queues received messages in a mailbox instead of
    /// handling them immediately.
    spec fn enqueues(&self) -> bool;

    /// The node's queued inbound messages, oldest first; always empty for
    /// a node that does not enqueue.
    spec fn inbox(&self) -> Seq<(i32, MessageString)>;

    /// Initializes the node with its identity and its network handle.
    /// Must be called exactly once, before any other operation.
    fn initialize(&mut self, ident: i32, network: NetworkHandle)
        requires
            !old(self).initialized(),
            0 <= ident,
        ensures
            final(self).initialized(),
            !final(self).running(),
            final(self).ident_of() == ident,
            final(self).handle_of() == network,
            final(self).enqueues() == old(self).enqueues(),
            final(self).inbox() == old(self).inbox(),
    ;

    /// The node's identity.
    fn ident(&self) -> (r: i32)
        requires
            self.initialized(),
        ensures
            r == self.ident_of(),
    ;

    /// The node's handle to the network.
    fn network(&self) -> (h: NetworkHandle)
        requires
            self.initialized(),
        ensures
            h == self.handle_of(),
    ;

    /// Whether the node's inbox holds a message.
    fn has_mail(&self) -> (r: bool)
        ensures
            r == (self.inbox().len() > 0),
    ;

    /// Whether the node queues received messages in a mailbox.
    fn enqueues_mail(&self) -> (r: bool)
        ensures
            r == self.enqueues(),
    ;

    /// Pops the oldest inbox entry, if there is one.
    fn take_next(&mut self) -> (r: Option<(i32, MessageString)>)
        ensures
            final(self).initialized() == old(self).initialized(),
            final(self).running() == old(self).running(),
            final(self).ident_of() == old(self).ident_of(),
            final(self).handle_of() == old(self).handle_of(),
            final(self).enqueues() == old(self).enqueues(),
            old(self).inbox().len() == 0 ==> (r is None && final(self).inbox() == old(self).inbox()),
            old(self).inbox().len() > 0 ==> (r == Some(old(self).inbox()[0]) && final(self).inbox()
                == old(self).inbox().drop_first()),
    ;

    /// Receives a message from `sender`: a mailbox-backed node appends it
    /// to its inbox and asks for nothing; any other node handles it on the
    /// spot and returns its handler's actions.
    fn receive(&mut self, sender: i32, message: MessageString) -> (actions: Vec<Action>)
        requires
            self.initialized(),
        ensures
            final(self).initialized(),
            final(self).running() == old(self).running(),
            final(self).ident_of() == old(self).ident_of(),
            final(self).handle_of() == old(self).handle_of(),
            final(self).enqueues() == old(self).enqueues(),
            old(self).enqueues() ==> final(self).inbox() == old(self).inbox().push(
                (sender, message),
            ) && actions@.len() == 0,
            !old(self).enqueues() ==> final(self).inbox() == old(self).inbox(),
    ;

    /// Handles a message from `sender`, returning the actions to perform.
    /// Never touches the inbox.
    fn handle(&mut self, sender: i32, message: MessageString) -> (actions: Vec<Action>)
        requires
            self.initialized(),
        ensures
            final(self).initialized(),
            final(self).running() == old(self).running(),
            final(self).ident_of() == old(self).ident_of(),
            final(self).handle_of() == old(self).handle_of(),
            final(self).enqueues() == old(self).enqueues(),
            final(self).inbox() == old(self).inbox(),
    ;

    /// The node's autonomous entry point, invoked exactly once by the
    /// network at start-up; returns the actions of its active phase.
    /// Leaves the node running — no other operation can — and never
    /// touches the inbox.
    fn run(&mut self, info: &NetworkInfo) -> (actions: Vec<Action>)
        requires
            self.initialized(),
            !old(self).running(),
        ensures
            final(self).initialized(),
            final(self).running(),
            final(self).ident_of() == old(self).ident_of(),
            final(self).handle_of() == old(self).handle_of(),
            final(self).enqueues() == old(self).enqueues(),
            final(self).inbox() == old(self).inbox(),
    ;
}

/// One slot of the network's registry: a node together with the engine's
/// bookkeeping for it.
pub struct Slot<N> {
    /// The node itself.
    pub node: N,
    /// The logical time until which the node's handler is busy.
    pub busy_until: u64,
    /// Whether the node's run loop has been started.
    pub started: bool,
}

/// Whether `ev` records the send with the given particulars.
pub open spec fn is_sent_of(
    ev: Event,
    seq: nat,
    sender: i32,
    target: i32,
    message: Seq<char>,
    delay: u64,
    time: u64,
) -> bool {
    ev matches Event::Sent {
        seq: s,
        sender: sd,
        target: tg,
        message: m,
        delay: d,
        time: t,
    } && s@ == seq && sd == sender && tg == target && m@ == message && d == delay && t == time
}

/// Whether `ev` records the receipt with the given particulars.
pub open spec fn is_received_of(
    ev: Event,
    seq: nat,
    sender: i32,
    target: i32,
    message: Seq<char>,
    delivered: bool,
    time: u64,
) -> bool {
    ev matches Event::Received {
        seq: s,
        sender: sd,
        target: tg,
        message: m,
        delivered: dv,
        time: t,
    } && s@ == seq && sd == sender && tg == target && m@ == message && dv == delivered && t == time
}

/// Whether `e` is the envelope with the given particulars, due exactly its
/// delay after its send time.
pub open spec fn env_of(
    e: Envelope,
    seq: nat,
    sender: i32,
    target: i32,
    message: Seq<char>,
    delay: u64,
    sent_at: u64,
) -> bool {
    &&& e.seq@ == seq
    &&& e.sender == sender
    &&& e.target == target
    &&& e.message@ == message
    &&& e.delay == delay
    &&& e.sent_at == sent_at
    &&& e.deliver_at == advance(sent_at, delay)
}

/// Whether the history records the send this envelope came from.
pub open spec fn has_sent_witness(h: Seq<Event>, e: Envelope) -> bool {
    exists|j: int|
        0 <= j < h.len() && is_sent_of(
            h[j],
            e.seq@,
            e.sender,
            e.target,
            e.message@,
            e.delay,
            e.sent_at,
        )
}

/// Whether `ev` is the send record a receipt at time `rtime` answers to:
/// same sequence number, endpoints and message, with the receipt no
/// earlier than the send plus its delay.
pub open spec fn sent_matches_recv(
    ev: Event,
    seq: nat,
    sender: i32,
    target: i32,
    message: Seq<char>,
    rtime: u64,
) -> bool {
    ev matches Event::Sent {
        seq: s,
        sender: sd,
        target: tg,
        message: m,
        delay: d,
        time: t,
    } && s@ == seq && sd == sender && tg == target && m@ == message && rtime >= advance(t, d)
}

/// Whether a receive record at position `k` of the history is justified:
/// an earlier send record carries the same sequence number, endpoints and
/// message, and the receipt is no earlier than that send plus its delay.
pub open spec fn recv_justified(h: Seq<Event>, k: int) -> bool {
    h[k] matches Event::Received {
        seq,
        sender,
        target,
        message,
        delivered: _,
        time,
    } ==> exists|j: int| 0 <= j < k && sent_matches_recv(h[j], seq@, sender, target, message@, time)
}

/// The sender a send record names (zero for any other event).
pub open spec fn spec_sent_sender(ev: Event) -> i32 {
    match ev {
        Event::Sent { sender, .. } => sender,
        _ => 0,
    }
}

/// The sequence number a send or receive record carries (zero for any
/// other event).
pub open spec fn spec_event_seq(ev: Event) -> nat {
    match ev {
        Event::Sent { seq, .. } => seq@,
        Event::Received { seq, .. } => seq@,
        _ => 0,
    }
}

/// Whether `ev` records the handler span with the given particulars.
pub open spec fn is_handled_of(
    ev: Event,
    ident: i32,
    sender: i32,
    message: Seq<char>,
    start: u64,
    end: u64,
) -> bool {
    ev matches Event::Handled {
        ident: id,
        sender: sd,
        message: m,
        start: st,
        end: en,
    } && id == ident && sd == sender && m@ == message && st == start && en == end
}

/// Whether `ev` records a handler span of node `ident`.
pub open spec fn handled_for(ev: Event, ident: int) -> bool {
    ev matches Event::Handled { ident: id, .. } && id == ident
}

/// The start of a handler span (zero for any other event).
pub open spec fn spec_handled_start(ev: Event) -> u64 {
    match ev {
        Event::Handled { start, .. } => start,
        _ => 0,
    }
}

/// The end of a handler span (zero for any other event).
pub open spec fn spec_handled_end(ev: Event) -> u64 {
    match ev {
        Event::Handled { end, .. } => end,
        _ => 0,
    }
}

/// Whether the handler spans of node `ident` recorded in `h` are strictly
/// serialized: each span is well-formed, no span outlives `busy`, and
/// spans recorded earlier end before spans recorded later begin.
pub open spec fn serialized(h: Seq<Event>, ident: int, busy: u64) -> bool {
    &&& forall|j: int|
        0 <= j < h.len() && handled_for(h[j], ident) ==> spec_handled_start(h[j])
            <= spec_handled_end(h[j]) <= busy
    &&& forall|j: int, k: int|
        0 <= j < k < h.len() && handled_for(h[j], ident) && handled_for(h[k], ident)
            ==> spec_handled_end(h[j]) <= spec_handled_start(h[k])
}

/// The identity a handler-span record concerns (zero for any other event).
pub open spec fn spec_handled_ident(ev: Event) -> int {
    match ev {
        Event::Handled { ident, .. } => ident as int,
        _ => 0,
    }
}

/// Whether an envelope is well-formed for a network whose clock reads
/// `now` and whose next sequence number is `next_seq`: it is due exactly
/// its delay after its send time, it is not overdue, and its sequence
/// number has been issued.
pub open spec fn env_ok(e: Envelope, now: u64, next_seq: nat) -> bool {
    &&& e.deliver_at == advance(e.sent_at, e.delay)
    &&& e.deliver_at >= now
    &&& e.seq@ < next_seq
}

/// The sequence-number bookkeeping of a history: every send and receive
/// record carries an issued sequence number, no two sends and no two
/// receives share one, and no receive shares one with a still-pending
/// conveyance.
pub open spec fn seqs_ok(h: Seq<Event>, pending: Seq<Envelope>, next_seq: nat) -> bool {
    &&& forall|j: int| 0 <= j < h.len() && (h[j] is Sent) ==> spec_event_seq(#[trigger] h[j]) < next_seq
    &&& forall|j: int, k: int|
        0 <= j < k < h.len() && (h[j] is Sent) && (h[k] is Sent) ==> spec_event_seq(#[trigger] h[j])
            != spec_event_seq(#[trigger] h[k])
    &&& forall|j: int| 0 <= j < h.len() && (h[j] is Received) ==> spec_event_seq(#[trigger] h[j]) < next_seq
    &&& forall|j: int, k: int|
        0 <= j < k < h.len() && (h[j] is Received) && (h[k] is Received) ==> spec_event_seq(
            #[trigger] h[j],
        ) != spec_event_seq(#[trigger] h[k])
    &&& forall|j: int, p: int|
        0 <= j < h.len() && (h[j] is Received) && 0 <= p < pending.len() ==> spec_event_seq(
            #[trigger] h[j],
        ) != (#[trigger] pending[p]).seq@
}

/// How many conveyances a broadcast from `sender` schedules in an
/// `n`-node network: one for every node other than the sender.
pub open spec fn spec_broadcast_count(n: int, sender: int) -> int {
    if 0 <= sender < n {
        n - 1
    } else {
        n
    }
}

/// The identity of the `k`-th node a broadcast from `sender` reaches, in
/// ascending order with the sender skipped.
pub open spec fn spec_broadcast_target(sender: int, k: int) -> int {
    if 0 <= sender <= k {
        k + 1
    } else {
        k
    }
}

/// The delay a send resolves to: the explicit one if given, the default
/// otherwise.
pub open spec fn spec_resolved_delay(delay: Option<u64>, default_delay: u64) -> u64 {
    match delay {
        Some(d) => d,
        None => default_delay,
    }
}

/// How many conveyances a broadcast from `sender` has scheduled once the
/// identities below `t` have been considered.
pub open spec fn spec_partial_broadcast_count(sender: int, t: int) -> int {
    if 0 <= sender < t {
        t - 1
    } else {
        t
    }
}

/// Whether `ev` records the broadcast with the given particulars.
pub open spec fn is_broadcast_of(
    ev: Event,
    sender: i32,
    message: Seq<char>,
    delay: u64,
    time: u64,
) -> bool {
    ev matches Event::Broadcast {
        sender: sd,
        message: m,
        delay: d,
        time: t,
    } && sd == sender && m@ == message && d == delay && t == time
}

/// Whether `ev` records the node-level log entry with the given
/// particulars.
pub open spec fn is_logged_of(
    ev: Event,
    ident: i32,
    event: Seq<char>,
    detail: Seq<char>,
    time: u64,
) -> bool {
    ev matches Event::Logged {
        ident: id,
        event: e,
        detail: dt,
        time: t,
    } && id == ident && e@ == event && dt@ == detail && t == time
}

/// One history record the engine leaves when it performs one piece of a
/// node's requested work: a scheduled conveyance, a broadcast
/// announcement, or a node-level log entry.
pub enum ActRecord {
    /// One conveyance was scheduled.
    Sending {
        /// The identity of the target node.
        target: i32,
        /// The message's text.
        message: Seq<char>,
        /// The resolved propagation delay.
        delay: u64,
        /// The logical time of the send.
        time: u64,
    },
    /// A broadcast was announced; one `Sending` follows per other node.
    Announcing {
        /// The message's text.
        message: Seq<char>,
        /// The resolved propagation delay.
        delay: u64,
        /// The logical time of the broadcast.
        time: u64,
    },
    /// A node-level log entry was recorded.
    Noting {
        /// The event word.
        event: Seq<char>,
        /// The detail text.
        detail: Seq<char>,
        /// The logical time of the entry.
        time: u64,
    },
}

/// The records performing the one action `a` on behalf of `ident`, at
/// logical offset `at`, appends to the history: a send leaves one
/// `Sending`, a broadcast one `Announcing` and then one `Sending` per
/// node other than the sender in ascending identity order, a log entry
/// one `Noting`, and a wait none at all.
pub open spec fn one_action_records(
    a: Action,
    ident: i32,
    at: u64,
    default_delay: u64,
    n: int,
) -> Seq<ActRecord> {
    match a {
        Action::Send { target, message, delay } => seq![
            ActRecord::Sending {
                target,
                message: message@,
                delay: spec_resolved_delay(delay, default_delay),
                time: at,
            },
        ],
        Action::Broadcast { message, delay } => seq![
            ActRecord::Announcing {
                message: message@,
                delay: spec_resolved_delay(delay, default_delay),
                time: at,
            },
        ] + Seq::new(
            spec_broadcast_count(n, ident as int) as nat,
            |k: int|
                ActRecord::Sending {
                    target: spec_broadcast_target(ident as int, k) as i32,
                    message: message@,
                    delay: spec_resolved_delay(delay, default_delay),
                    time: at,
                },
        ),
        Action::Wait { .. } => Seq::empty(),
        Action::Log { event, detail } => seq![
            ActRecord::Noting { event: event@, detail: detail@, time: at },
        ],
    }
}

/// The logical offset a node's active span has reached after performing
/// `actions`, starting from `at`: each wait advances it, nothing else
/// moves it.
pub open spec fn offset_after(actions: Seq<Action>, at: u64) -> u64
    decreases actions.len(),
{
    if actions.len() == 0 {
        at
    } else {
        match actions.last() {
            Action::Wait { units } => advance(offset_after(actions.drop_last(), at), units),
            _ => offset_after(actions.drop_last(), at),
        }
    }
}

/// The records performing `actions` in order on behalf of `ident` appends
/// to the history, each taken at the offset the waits before it add up to
/// from `at`.
pub open spec fn action_records(
    actions: Seq<Action>,
    ident: i32,
    at: u64,
    default_delay: u64,
    n: int,
) -> Seq<ActRecord>
    decreases actions.len(),
{
    if actions.len() == 0 {
        Seq::empty()
    } else {
        action_records(actions.drop_last(), ident, at, default_delay, n) + one_action_records(
            actions.last(),
            ident,
            offset_after(actions.drop_last(), at),
            default_delay,
            n,
        )
    }
}

/// How many of the records schedule a conveyance.
pub open spec fn sent_count(recs: Seq<ActRecord>) -> int
    decreases recs.len(),
{
    if recs.len() == 0 {
        0
    } else {
        sent_count(recs.drop_last()) + if recs.last() is Sending {
            1int
        } else {
            0int
        }
    }
}

/// Whether `ev` is the history record `rec` describes, left on behalf of
/// `ident` under conveyance sequence number `seq`.
pub open spec fn record_matches(ev: Event, rec: ActRecord, seq: nat, ident: i32) -> bool {
    match rec {
        ActRecord::Sending { target, message, delay, time } => is_sent_of(
            ev,
            seq,
            ident,
            target,
            message,
            delay,
            time,
        ),
        ActRecord::Announcing { message, delay, time } => is_broadcast_of(
            ev,
            ident,
            message,
            delay,
            time,
        ),
        ActRecord::Noting { event, detail, time } => is_logged_of(ev, ident, event, detail, time),
    }
}

/// Whether `e` is the envelope the record `rec` describes, sent by
/// `ident` under conveyance sequence number `seq`.
pub open spec fn env_matches_record(e: Envelope, rec: ActRecord, seq: nat, ident: i32) -> bool {
    rec matches ActRecord::Sending {
        target,
        message,
        delay,
        time,
    } && env_of(e, seq, ident, target, message, delay, time)
}

/// Whether history `h` and in-flight pool `p` extend `h0` and `p0` by
/// exactly the records `recs`, performed by `ident` with conveyance
/// sequence numbers issued from `s0`: the history grows by one record
/// each, in order, and the pool by one envelope per scheduled conveyance,
/// in order.
pub open spec fn records_applied(
    h0: Seq<Event>,
    h: Seq<Event>,
    p0: Seq<Envelope>,
    p: Seq<Envelope>,
    recs: Seq<ActRecord>,
    s0: nat,
    ident: i32,
) -> bool {
    &&& h.len() == h0.len() + recs.len()
    &&& forall|j: int| 0 <= j < h0.len() ==> h[j] == h0[j]
    &&& forall|j: int|
        0 <= j < recs.len() ==> record_matches(
            h[h0.len() + j],
            #[trigger] recs[j],
            (s0 + sent_count(recs.subrange(0, j))) as nat,
            ident,
        )
    &&& p.len() == p0.len() + sent_count(recs)
    &&& forall|j: int| 0 <= j < p0.len() ==> p[j] == p0[j]
    &&& forall|j: int|
        0 <= j < recs.len() && ((#[trigger] recs[j]) is Sending) ==> env_matches_record(
            p[p0.len() + sent_count(recs.subrange(0, j))],
            recs[j],
            (s0 + sent_count(recs.subrange(0, j))) as nat,
            ident,
        )
}

/// A record count is never negative.
proof fn lemma_sent_count_nonneg(recs: Seq<ActRecord>)
    ensures
        sent_count(recs) >= 0,
    decreases recs.len(),
{
    if recs.len() > 0 {
        lemma_sent_count_nonneg(recs.drop_last());
    }
}

/// Counting conveyances distributes over concatenation.
proof fn lemma_sent_count_concat(a: Seq<ActRecord>, b: Seq<ActRecord>)
    ensures
        sent_count(a + b) == sent_count(a) + sent_count(b),
    decreases b.len(),
{
    if b.len() == 0 {
        assert(a + b =~= a);
    } else {
        assert((a + b).drop_last() =~= a + b.drop_last());
        assert((a + b).last() == b.last());
        lemma_sent_count_concat(a, b.drop_last());
    }
}

/// A strict prefix stopping at a conveyance record counts strictly fewer
/// conveyances than the whole.
proof fn lemma_sent_count_prefix_bound(recs: Seq<ActRecord>, j: int)
    requires
        0 <= j < recs.len(),
        recs[j] is Sending,
    ensures
        sent_count(recs.subrange(0, j)) >= 0,
        sent_count(recs.subrange(0, j)) + 1 <= sent_count(recs),
{
    lemma_sent_count_nonneg(recs.subrange(0, j));
    lemma_sent_count_nonneg(recs.subrange(j + 1, recs.len() as int));
    assert(recs.subrange(0, j + 1).drop_last() =~= recs.subrange(0, j));
    assert(recs.subrange(0, j + 1).last() == recs[j]);
    assert(recs =~= recs.subrange(0, j + 1) + recs.subrange(j + 1, recs.len() as int));
    lemma_sent_count_concat(recs.subrange(0, j + 1), recs.subrange(j + 1, recs.len() as int));
}

/// In a block whose head schedules nothing and whose tail is all
/// conveyances, a prefix of length `m` counts `m - 1` conveyances.
proof fn lemma_announce_block_count(block: Seq<ActRecord>, m: int)
    requires
        block.len() >= 1,
        !(block[0] is Sending),
        forall|k: int| 1 <= k < block.len() ==> (#[trigger] block[k]) is Sending,
        0 <= m <= block.len(),
    ensures
        sent_count(block.subrange(0, m)) == if m == 0 {
            0int
        } else {
            m - 1
        },
    decreases m,
{
    if m == 0 {
        assert(block.subrange(0, 0) =~= Seq::<ActRecord>::empty());
    } else {
        lemma_announce_block_count(block, m - 1);
        assert(block.subrange(0, m).drop_last() =~= block.subrange(0, m - 1));
        assert(block.subrange(0, m).last() == block[m - 1]);
    }
}

/// Applying one batch of records after another applies their
/// concatenation.
proof fn lemma_records_applied_trans(
    h0: Seq<Event>,
    h1: Seq<Event>,
    h2: Seq<Event>,
    p0: Seq<Envelope>,
    p1: Seq<Envelope>,
    p2: Seq<Envelope>,
    r1: Seq<ActRecord>,
    r2: Seq<ActRecord>,
    s0: nat,
    ident: i32,
)
    requires
        records_applied(h0, h1, p0, p1, r1, s0, ident),
        records_applied(h1, h2, p1, p2, r2, (s0 + sent_count(r1)) as nat, ident),
    ensures
        records_applied(h0, h2, p0, p2, r1 + r2, s0, ident),
{
    lemma_sent_count_nonneg(r1);
    lemma_sent_count_nonneg(r2);
    lemma_sent_count_concat(r1, r2);
    let r = r1 + r2;
    assert forall|j: int| 0 <= j < h0.len() implies h2[j] == h0[j] by {
        assert(h2[j] == h1[j]);
    }
    assert forall|j: int|
        0 <= j < r.len() implies record_matches(
        h2[h0.len() + j],
        #[trigger] r[j],
        (s0 + sent_count(r.subrange(0, j))) as nat,
        ident,
    ) by {
        if j < r1.len() {
            assert(r.subrange(0, j) =~= r1.subrange(0, j));
            assert(r[j] == r1[j]);
            assert(h2[h0.len() + j] == h1[h0.len() + j]);
        } else {
            let m = j - r1.len();
            assert(r.subrange(0, j) =~= r1 + r2.subrange(0, m));
            lemma_sent_count_concat(r1, r2.subrange(0, m));
            assert(r[j] == r2[m]);
            lemma_sent_count_nonneg(r2.subrange(0, m));
            assert(h2[h1.len() + m] == h2[h0.len() + j]);
        }
    }
    assert forall|j: int| 0 <= j < p0.len() implies p2[j] == p0[j] by {
        assert(p2[j] == p1[j]);
    }
    assert forall|j: int|
        0 <= j < r.len() && ((#[trigger] r[j]) is Sending) implies env_matches_record(
        p2[p0.len() + sent_count(r.subrange(0, j))],
        r[j],
        (s0 + sent_count(r.subrange(0, j))) as nat,
        ident,
    ) by {
        if j < r1.len() {
            assert(r.subrange(0, j) =~= r1.subrange(0, j));
            assert(r[j] == r1[j]);
            lemma_sent_count_prefix_bound(r1, j);
            let idx = p0.len() + sent_count(r1.subrange(0, j));
            assert(idx < p1.len());
            assert(p2[idx] == p1[idx]);
        } else {
            let m = j - r1.len();
            assert(r.subrange(0, j) =~= r1 + r2.subrange(0, m));
            lemma_sent_count_concat(r1, r2.subrange(0, m));
            lemma_sent_count_nonneg(r2.subrange(0, m));
            assert(r[j] == r2[m]);
        }
    }
}

/// Whether slot `b` is slot `a` with at most its node's inbox changed:
/// the node's registration facts and the engine's bookkeeping for it are
/// the same.
pub open spec fn slot_keeps_frame<N: Node>(a: Slot<N>, b: Slot<N>) -> bool {
    &&& b.node.initialized() == a.node.initialized()
    &&& b.node.running() == a.node.running()
    &&& b.node.ident_of() == a.node.ident_of()
    &&& b.node.handle_of() == a.node.handle_of()
    &&& b.node.enqueues() == a.node.enqueues()
    &&& b.started == a.started
    &&& b.busy_until == a.busy_until
}

/// Whether the conveyance numbered `s` is accounted for: it is either
/// still in flight or already recorded as received.
pub open spec fn seq_accounted(h: Seq<Event>, pending: Seq<Envelope>, s: nat) -> bool {
    ||| exists|p: int| 0 <= p < pending.len() && (#[trigger] pending[p]).seq@ == s
    ||| exists|k: int|
        0 <= k < h.len() && ((#[trigger] h[k]) is Received) && spec_event_seq(h[k]) == s
}

/// Accounting survives growing the history and the in-flight pool.
proof fn lemma_accounted_grow(
    h: Seq<Event>,
    h2: Seq<Event>,
    pend: Seq<Envelope>,
    pend2: Seq<Envelope>,
    s: nat,
)
    requires
        seq_accounted(h, pend, s),
        h2.len() >= h.len(),
        forall|k: int| 0 <= k < h.len() ==> h2[k] == h[k],
        pend2.len() >= pend.len(),
        forall|p: int| 0 <= p < pend.len() ==> pend2[p] == pend[p],
    ensures
        seq_accounted(h2, pend2, s),
{
    if exists|p: int| 0 <= p < pend.len() && (#[trigger] pend[p]).seq@ == s {
        let p = choose|p: int| 0 <= p < pend.len() && (#[trigger] pend[p]).seq@ == s;
        assert(pend2[p].seq@ == s);
    } else {
        let k = choose|k: int|
            0 <= k < h.len() && ((#[trigger] h[k]) is Received) && spec_event_seq(h[k]) == s;
        assert((h2[k] is Received) && spec_event_seq(h2[k]) == s);
    }
}

/// Appending an event to a history keeps every send witness, every
/// justified receive record, and — as long as the new event is not a
/// handler span of the node concerned — every serialization fact.
proof fn lemma_push_preserves(h: Seq<Event>, x: Event)
    ensures
        forall|e: Envelope| has_sent_witness(h, e) ==> has_sent_witness(#[trigger] h.push(x), e),
        forall|k: int|
            0 <= k < h.len() && recv_justified(h, k) ==> recv_justified(#[trigger] h.push(x), k),
        forall|i: int, busy: u64|
            serialized(h, i, busy) && !handled_for(x, i) ==> serialized(
                #[trigger] h.push(x),
                i,
                busy,
            ),
{
    assert forall|e: Envelope| has_sent_witness(h, e) implies has_sent_witness(
        #[trigger] h.push(x),
        e,
    ) by {
        let j = choose|j: int|
            0 <= j < h.len() && is_sent_of(
                h[j],
                e.seq@,
                e.sender,
                e.target,
                e.message@,
                e.delay,
                e.sent_at,
            );
        assert(h.push(x)[j] == h[j]);
    }
    assert forall|k: int|
        0 <= k < h.len() && recv_justified(h, k) implies recv_justified(
        #[trigger] h.push(x),
        k,
    ) by {
        assert(h.push(x)[k] == h[k]);
        match h[k] {
            Event::Received { seq, sender, target, message, delivered: _, time } => {
                let j = choose|j: int|
                    0 <= j < k && sent_matches_recv(h[j], seq@, sender, target, message@, time);
                assert(h.push(x)[j] == h[j]);
            },
            _ => {},
        }
    }
    assert forall|i: int, busy: u64|
        serialized(h, i, busy) && !handled_for(x, i) implies serialized(
        #[trigger] h.push(x),
        i,
        busy,
    ) by {
        let g = h.push(x);
        assert forall|j: int|
            0 <= j < g.len() && handled_for(g[j], i) implies spec_handled_start(g[j])
            <= spec_handled_end(g[j]) <= busy by {
            if j < h.len() {
                assert(g[j] == h[j]);
            } else {
                assert(g[j] == x);
            }
        }
        assert forall|j: int, k: int|
            0 <= j < k < g.len() && handled_for(g[j], i) && handled_for(g[k], i) implies
            spec_handled_end(g[j]) <= spec_handled_start(g[k]) by {
            if k < h.len() {
                assert(g[j] == h[j] && g[k] == h[k]);
            } else {
                assert(g[k] == x);
            }
        }
    }
}

/// The network simulation layer: the registry of nodes (index =
/// identity), the default propagation delay, the virtual clock, the
/// in-flight conveyances, the recorded history of the run, and the
/// logging sink.
pub struct Network<N: Node, L: Logger> {
    nodes: Vec<Slot<N>>,
    delay: u64,
    now: u64,
    pending: Vec<Envelope>,
    next_seq: Ghost<nat>,
    history: Vec<Event>,
    logger: L,
}

impl<N: Node, L: Logger> Network<N, L> {
    /// The registry of slots, in identity order.
    pub closed spec fn spec_nodes(&self) -> Seq<Slot<N>> {
        self.nodes@
    }

    /// How many nodes are registered.
    pub open spec fn spec_num_nodes(&self) -> int {
        self.spec_nodes().len() as int
    }

    /// The network's default propagation delay.
    pub closed spec fn spec_default_delay(&self) -> u64 {
        self.delay
    }

    /// The virtual clock's reading.
    pub closed spec fn spec_now(&self) -> u64 {
        self.now
    }

    /// The in-flight conveyances, in insertion order.
    pub closed spec fn spec_pending(&self) -> Seq<Envelope> {
        self.pending@
    }

    /// The recorded events of the run so far, oldest first.
    pub closed spec fn spec_history(&self) -> Seq<Event> {
        self.history@
    }

    /// The next conveyance sequence number to issue.
    pub closed spec fn spec_next_seq(&self) -> nat {
        self.next_seq@
    }

    /// Whether every recorded send is accounted for: its conveyance is
    /// still in flight, or its receipt has been recorded.  With an empty
    /// in-flight pool this means every send was delivered.
    pub open spec fn sends_accounted(&self) -> bool {
        forall|j: int|
            0 <= j < self.spec_history().len() && ((#[trigger] self.spec_history()[j]) is Sent)
                ==> seq_accounted(
                self.spec_history(),
                self.spec_pending(),
                spec_event_seq(self.spec_history()[j]),
            )
    }

    /// The network's well-formedness, maintained by every operation: the
    /// structural conditions of `wf_core`, and the accounting of every
    /// recorded send.
    pub open spec fn wf(&self) -> bool {
        &&& self.wf_core()
        &&& self.sends_accounted()
    }

    /// The structural part of well-formedness.
    ///
    /// Every registered node is initialized and carries its slot index as
    /// its identity, and its slot's started flag records exactly whether
    /// its run loop has been invoked; every in-flight conveyance is due
    /// exactly its delay after the send the history records for it, and
    /// sequence numbers never repeat; every recorded receipt answers to an
    /// earlier recorded send, no earlier than that send plus its delay;
    /// handler spans are recorded only for registered nodes, and for every
    /// mailbox-backed node they never overlap.
    pub open spec fn wf_core(&self) -> bool {
        &&& self.spec_nodes().len() <= i32::MAX
        &&& forall|i: int|
            0 <= i < self.spec_nodes().len() ==> (#[trigger] self.spec_nodes()[i]).node.initialized()
                && self.spec_nodes()[i].node.ident_of() == i
        &&& forall|i: int|
            0 <= i < self.spec_nodes().len() ==> (#[trigger] self.spec_nodes()[i]).started
                == self.spec_nodes()[i].node.running()
        &&& forall|p: int|
            0 <= p < self.spec_pending().len() ==> env_ok(
                #[trigger] self.spec_pending()[p],
                self.spec_now(),
                self.spec_next_seq(),
            ) && has_sent_witness(self.spec_history(), self.spec_pending()[p])
        &&& forall|p: int, q: int|
            0 <= p < q < self.spec_pending().len() ==> (#[trigger] self.spec_pending()[p]).seq@ != (
            #[trigger] self.spec_pending()[q]).seq@
        &&& seqs_ok(self.spec_history(), self.spec_pending(), self.spec_next_seq())
        &&& forall|k: int| 0 <= k < self.spec_history().len() ==> recv_justified(self.spec_history(), k)
        &&& forall|j: int|
            0 <= j < self.spec_history().len() && ((#[trigger] self.spec_history()[j]) is Handled)
                ==> 0 <= spec_handled_ident(self.spec_history()[j]) < self.spec_nodes().len()
        &&& forall|i: int|
            0 <= i < self.spec_nodes().len() && (#[trigger] self.spec_nodes()[i]).node.enqueues()
                ==> serialized(self.spec_history(), i, self.spec_nodes()[i].busy_until)
    }

    /// Creates a network with the given default propagation delay and
    /// logging sink, registering any nodes provided, in order: the node
    /// supplied at position `i` is initialized with identity `i` and this
    /// network's handle, not yet started, and one registration record is
    /// left per node.  Prints the sink's header.
    pub fn new(nodes: Option<Vec<N>>, delay: u64, logger: L) -> (r: Self)
        requires
            (nodes matches Some(v) ==> v@.len() <= i32::MAX && forall|i: int|
                0 <= i < v@.len() ==> !(#[trigger] v@[i]).initialized()),
        ensures
            r.wf(),
            r.spec_now() == 0,
            r.spec_default_delay() == delay,
            r.spec_pending().len() == 0,
            r.spec_next_seq() == 0,
            r.spec_num_nodes() == (match nodes {
                Some(v) => v@.len() as int,
                None => 0,
            }),
            (nodes matches Some(v) ==> forall|i: int|
                0 <= i < v@.len() ==> (#[trigger] r.spec_nodes()[i]).node.enqueues()
                    == v@[i].enqueues() && r.spec_nodes()[i].node.inbox() == v@[i].inbox()
                    && r.spec_nodes()[i].node.handle_of() == (NetworkHandle { index: i as i32 })
                    && !r.spec_nodes()[i].started),
            r.spec_history().len() == r.spec_num_nodes(),
            forall|i: int|
                0 <= i < r.spec_num_nodes() ==> r.spec_history()[i] == (Event::Added {
                    ident: i as i32,
                    time: 0,
                }),
    {
        logger.header();
        let mut net: Network<N, L> = Network {
            nodes: Vec::new(),
            delay,
            now: 0,
            pending: Vec::new(),
            next_seq: Ghost(0),
            history: Vec::new(),
            logger,
        };
        match nodes {
            Some(mut v) => {
                let ghost v0 = v@;
                let ghost total = v@.len();
                while v.len() > 0
                    invariant
                        net.wf(),
                        net.spec_now() == 0,
                        net.spec_default_delay() == delay,
                        net.spec_pending().len() == 0,
                        net.spec_next_seq() == 0,
                        total == v0.len(),
                        total <= i32::MAX,
                        net.spec_num_nodes() + v@.len() == total,
                        v@ == v0.subrange(net.spec_num_nodes(), v0.len() as int),
                        forall|i: int| 0 <= i < v0.len() ==> !(#[trigger] v0[i]).initialized(),
                        forall|i: int|
                            0 <= i < net.spec_num_nodes() ==> (
                            #[trigger] net.spec_nodes()[i]).node.enqueues() == v0[i].enqueues()
                                && net.spec_nodes()[i].node.inbox() == v0[i].inbox()
                                && net.spec_nodes()[i].node.handle_of() == (NetworkHandle {
                                index: i as i32,
                            }) && !net.spec_nodes()[i].started,
                        net.spec_history().len() == net.spec_num_nodes(),
                        forall|i: int|
                            0 <= i < net.spec_num_nodes() ==> net.spec_history()[i] == (
                            Event::Added { ident: i as i32, time: 0 }),
                    decreases v@.len(),
                {
                    let ghost k = net.spec_num_nodes();
                    let n = v.remove(0);
                    proof {
                        assert(n == v0[k]);
                        assert(v@ =~= v0.subrange(k + 1, v0.len() as int));
                    }
                    net.add_node(n);
                }
                proof {
                    assert(net.spec_num_nodes() == v0.len());
                }
            },
            None => {},
        }
        net
    }

    /// Hands one event to the logging sink, keyed by `ident`.
    pub fn log(&self, ident: i32, event: &str, detail: &str) {
        self.logger.log(ident, event, detail);
    }

    /// The recorded events of the run so far, oldest first.
    pub fn history(&self) -> (r: &Vec<Event>)
        ensures
            r@ == self.spec_history(),
    {
        &self.history
    }

    /// The virtual clock's reading.
    pub fn now(&self) -> (r: u64)
        ensures
            r == self.spec_now(),
    {
        self.now
    }

    /// How many conveyances are in flight.
    pub fn pending_count(&self) -> (r: usize)
        ensures
            r == self.spec_pending().len(),
    {
        self.pending.len()
    }

    /// How many nodes are registered.
    pub fn num_nodes(&self) -> (r: usize)
        ensures
            r == self.spec_num_nodes(),
    {
        self.nodes.len()
    }

    /// The node with the given identity, if one is registered.
    pub fn node(&self, ident: i32) -> (r: Option<&N>)
        ensures
            r is Some <==> 0 <= ident < self.spec_num_nodes(),
            r matches Some(n) ==> *n == self.spec_nodes()[ident as int].node,
    {
        if ident >= 0 && (ident as usize) < self.nodes.len() {
            Some(&self.nodes[ident as usize].node)
        } else {
            None
        }
    }

    /// Registers a node: assigns it the next sequential identity — its
    /// index in the registry — and initializes it with that identity and
    /// its handle.
    pub fn add_node(&mut self, node: N)
        requires
            old(self).wf(),
            !node.initialized(),
            old(self).spec_num_nodes() < i32::MAX,
        ensures
            final(self).wf(),
            final(self).spec_num_nodes() == old(self).spec_num_nodes() + 1,
            forall|i: int|
                0 <= i < old(self).spec_num_nodes() ==> final(self).spec_nodes()[i] == old(
                    self,
                ).spec_nodes()[i],
            final(self).spec_nodes()[old(self).spec_num_nodes()].node.ident_of() == old(
                self,
            ).spec_num_nodes(),
            final(self).spec_nodes()[old(self).spec_num_nodes()].node.enqueues()
                == node.enqueues(),
            final(self).spec_nodes()[old(self).spec_num_nodes()].node.inbox() == node.inbox(),
            final(self).spec_nodes()[old(self).spec_num_nodes()].node.handle_of() == (NetworkHandle {
                index: old(self).spec_num_nodes() as i32,
            }),
            !final(self).spec_nodes()[old(self).spec_num_nodes()].started,
            final(self).spec_now() == old(self).spec_now(),
            final(self).spec_default_delay() == old(self).spec_default_delay(),
            final(self).spec_pending() == old(self).spec_pending(),
            final(self).spec_next_seq() == old(self).spec_next_seq(),
            final(self).spec_history().len() == old(self).spec_history().len() + 1,
            forall|j: int|
                0 <= j < old(self).spec_history().len() ==> final(self).spec_history()[j] == old(
                    self,
                ).spec_history()[j],
            final(self).spec_history()[old(self).spec_history().len() as int] == (Event::Added {
                ident: old(self).spec_num_nodes() as i32,
                time: old(self).spec_now(),
            }),
    {
        let ident = self.nodes.len() as i32;
        self.log(ident, "add_node", "adding node");
        let mut node = node;
        node.initialize(ident, NetworkHandle { index: ident });
        let ghost pre0 = *self;
        let ghost h0 = self.history@;
        self.history.push(Event::Added { ident, time: self.now });
        self.nodes.push(Slot { node, busy_until: 0, started: false });
        proof {
            lemma_push_preserves(h0, Event::Added { ident, time: self.now });
            Self::lemma_accounting_preserved(pre0, *self);
            assert forall|p: int|
                0 <= p < self.spec_pending().len() implies env_ok(
                #[trigger] self.spec_pending()[p],
                self.spec_now(),
                self.spec_next_seq(),
            ) && has_sent_witness(self.spec_history(), self.spec_pending()[p]) by {
                assert(env_ok(old(self).spec_pending()[p], self.spec_now(), self.spec_next_seq()));
                assert(has_sent_witness(h0, old(self).spec_pending()[p]));
            }
            assert forall|k: int|
                0 <= k < self.spec_history().len() implies recv_justified(
                self.spec_history(),
                k,
            ) by {
                if k < h0.len() {
                    assert(recv_justified(h0, k));
                } else {
                    assert(self.spec_history()[k] == (Event::Added {
                        ident,
                        time: self.spec_now(),
                    }));
                }
            }
            assert forall|i: int|
                0 <= i < self.spec_nodes().len() && (#[trigger] self.spec_nodes()[i]).node.enqueues()
                    implies serialized(self.spec_history(), i, self.spec_nodes()[i].busy_until) by {
                if i < old(self).spec_nodes().len() {
                    assert(self.spec_nodes()[i] == old(self).spec_nodes()[i]);
                    assert(serialized(h0, i, self.spec_nodes()[i].busy_until));
                } else {
                    assert forall|j: int|
                        0 <= j < self.spec_history().len() && handled_for(
                            self.spec_history()[j],
                            i,
                        ) implies false by {
                        if j < h0.len() {
                            assert(0 <= spec_handled_ident(h0[j]) < old(self).spec_nodes().len());
                        }
                    }
                }
            }
        }
    }

    /// Schedules one conveyance of `message` from `sender` to `target`,
    /// sent at logical time `at` with the given resolved delay, and
    /// records the send.
    fn schedule_at(&mut self, sender: i32, target: i32, message: MessageString, delay: u64, at: u64)
        requires
            old(self).wf(),
            at >= old(self).spec_now(),
        ensures
            final(self).wf(),
            final(self).spec_nodes() == old(self).spec_nodes(),
            final(self).spec_now() == old(self).spec_now(),
            final(self).spec_default_delay() == old(self).spec_default_delay(),
            final(self).spec_next_seq() == old(self).spec_next_seq() + 1,
            final(self).spec_pending().len() == old(self).spec_pending().len() + 1,
            forall|p: int|
                0 <= p < old(self).spec_pending().len() ==> final(self).spec_pending()[p] == old(
                    self,
                ).spec_pending()[p],
            env_of(
                final(self).spec_pending()[old(self).spec_pending().len() as int],
                old(self).spec_next_seq(),
                sender,
                target,
                message@,
                delay,
                at,
            ),
            final(self).spec_history().len() == old(self).spec_history().len() + 1,
            forall|j: int|
                0 <= j < old(self).spec_history().len() ==> final(self).spec_history()[j] == old(
                    self,
                ).spec_history()[j],
            is_sent_of(
                final(self).spec_history()[old(self).spec_history().len() as int],
                old(self).spec_next_seq(),
                sender,
                target,
                message@,
                delay,
                at,
            ),
    {
        let mut detail = String::from_str("to ");
        detail.append(i32_to_string(target).as_str());
        detail.append(" with delay ");
        detail.append(u64_to_string(delay).as_str());
        detail.append(": ");
        detail.append(message.message.as_str());
        self.log(sender, "send", detail.as_str());
        let text = message.message.clone();
        let deliver_at = advance_time(at, delay);
        let ghost h0 = self.history@;
        let ghost seq0 = self.next_seq@;
        let ev = Event::Sent {
            seq: Ghost(self.next_seq@),
            sender,
            target,
            message: text,
            delay,
            time: at,
        };
        self.history.push(ev);
        self.pending.push(
            Envelope {
                seq: Ghost(self.next_seq@),
                sender,
                target,
                message,
                delay,
                sent_at: at,
                deliver_at,
            },
        );
        proof {
            self.next_seq@ = seq0 + 1;
            lemma_push_preserves(h0, ev);
            assert forall|j: int|
                0 <= j < self.spec_history().len() && ((#[trigger] self.spec_history()[j]) is Sent)
                    implies seq_accounted(
                self.spec_history(),
                self.spec_pending(),
                spec_event_seq(self.spec_history()[j]),
            ) by {
                if j < h0.len() {
                    assert(self.spec_history()[j] == h0[j]);
                    assert(seq_accounted(h0, old(self).spec_pending(), spec_event_seq(h0[j])));
                    lemma_accounted_grow(
                        h0,
                        self.spec_history(),
                        old(self).spec_pending(),
                        self.spec_pending(),
                        spec_event_seq(h0[j]),
                    );
                } else {
                    assert(self.spec_history()[j] == ev);
                    assert((self.spec_pending()[self.spec_pending().len() - 1]).seq@ == seq0);
                }
            }
            assert forall|i: int|
                0 <= i < self.spec_nodes().len() implies (#[trigger] self.spec_nodes()[i]).node.initialized()
                && self.spec_nodes()[i].node.ident_of() == i by {
                assert(self.spec_nodes()[i] == old(self).spec_nodes()[i]);
            }
            assert forall|i: int|
                0 <= i < self.spec_nodes().len() && (#[trigger] self.spec_nodes()[i]).node.enqueues()
                    implies serialized(self.spec_history(), i, self.spec_nodes()[i].busy_until) by {
                assert(self.spec_nodes()[i] == old(self).spec_nodes()[i]);
                assert(serialized(h0, i, self.spec_nodes()[i].busy_until));
            }
            assert forall|p: int|
                0 <= p < self.spec_pending().len() implies env_ok(
                #[trigger] self.spec_pending()[p],
                self.spec_now(),
                self.spec_next_seq(),
            ) && has_sent_witness(self.spec_history(), self.spec_pending()[p]) by {
                if p < old(self).spec_pending().len() {
                    assert(env_ok(
                        old(self).spec_pending()[p],
                        self.spec_now(),
                        old(self).spec_next_seq(),
                    ));
                    assert(has_sent_witness(h0, old(self).spec_pending()[p]));
                } else {
                    assert(self.spec_history()[h0.len() as int] == ev);
                    assert(is_sent_of(
                        ev,
                        seq0,
                        sender,
                        target,
                        message@,
                        delay,
                        at,
                    ));
                }
            }
            assert forall|k: int|
                0 <= k < self.spec_history().len() implies recv_justified(
                self.spec_history(),
                k,
            ) by {
                if k < h0.len() {
                    assert(recv_justified(h0, k));
                } else {
                    assert(self.spec_history()[k] == ev);
                }
            }
        }
    }

    /// Sends a message from `sender` to `target`: resolves the delay —
    /// the explicit one if given, the network's default otherwise — and
    /// schedules one conveyance, due exactly that delay after now.
    /// Fire-and-forget: the call never waits for the delivery.
    pub fn send(&mut self, sender: i32, target: i32, message: MessageString, delay: Option<u64>)
        requires
            old(self).wf(),
        ensures
            final(self).wf(),
            final(self).spec_nodes() == old(self).spec_nodes(),
            final(self).spec_now() == old(self).spec_now(),
            final(self).spec_default_delay() == old(self).spec_default_delay(),
            final(self).spec_next_seq() == old(self).spec_next_seq() + 1,
            final(self).spec_pending().len() == old(self).spec_pending().len() + 1,
            forall|p: int|
                0 <= p < old(self).spec_pending().len() ==> final(self).spec_pending()[p] == old(
                    self,
                ).spec_pending()[p],
            env_of(
                final(self).spec_pending()[old(self).spec_pending().len() as int],
                old(self).spec_next_seq(),
                sender,
                target,
                message@,
                spec_resolved_delay(delay, old(self).spec_default_delay()),
                old(self).spec_now(),
            ),
            final(self).spec_history().len() == old(self).spec_history().len() + 1,
            forall|j: int|
                0 <= j < old(self).spec_history().len() ==> final(self).spec_history()[j] == old(
                    self,
                ).spec_history()[j],
            is_sent_of(
                final(self).spec_history()[old(self).spec_history().len() as int],
                old(self).spec_next_seq(),
                sender,
                target,
                message@,
                spec_resolved_delay(delay, old(self).spec_default_delay()),
                old(self).spec_now(),
            ),
    {
        let resolved = match delay {
            Some(d) => d,
            None => self.delay,
        };
        let at = self.now;
        self.schedule_at(sender, target, message, resolved, at);
    }

    /// Appends one bookkeeping event — neither a send, a receipt, nor a
    /// handler span — to the history.
    fn record_event(&mut self, ev: Event)
        requires
            old(self).wf(),
            !(ev is Sent),
            !(ev is Received),
            !(ev is Handled),
        ensures
            final(self).wf(),
            final(self).spec_nodes() == old(self).spec_nodes(),
            final(self).spec_now() == old(self).spec_now(),
            final(self).spec_default_delay() == old(self).spec_default_delay(),
            final(self).spec_next_seq() == old(self).spec_next_seq(),
            final(self).spec_pending() == old(self).spec_pending(),
            final(self).spec_history().len() == old(self).spec_history().len() + 1,
            forall|j: int|
                0 <= j < old(self).spec_history().len() ==> final(self).spec_history()[j] == old(
                    self,
                ).spec_history()[j],
            final(self).spec_history()[old(self).spec_history().len() as int] == ev,
    {
        let ghost pre0 = *self;
        let ghost h0 = self.history@;
        self.history.push(ev);
        proof {
            lemma_push_preserves(h0, ev);
            Self::lemma_accounting_preserved(pre0, *self);
            assert forall|i: int|
                0 <= i < self.spec_nodes().len() implies (#[trigger] self.spec_nodes()[i]).node.initialized()
                && self.spec_nodes()[i].node.ident_of() == i by {
                assert(self.spec_nodes()[i] == old(self).spec_nodes()[i]);
            }
            assert forall|p: int|
                0 <= p < self.spec_pending().len() implies env_ok(
                #[trigger] self.spec_pending()[p],
                self.spec_now(),
                self.spec_next_seq(),
            ) && has_sent_witness(self.spec_history(), self.spec_pending()[p]) by {
                assert(env_ok(old(self).spec_pending()[p], self.spec_now(), self.spec_next_seq()));
                assert(has_sent_witness(h0, old(self).spec_pending()[p]));
            }
            assert forall|k: int|
                0 <= k < self.spec_history().len() implies recv_justified(
                self.spec_history(),
                k,
            ) by {
                if k < h0.len() {
                    assert(recv_justified(h0, k));
                } else {
                    assert(self.spec_history()[k] == ev);
                }
            }
            assert forall|i: int|
                0 <= i < self.spec_nodes().len() && (#[trigger] self.spec_nodes()[i]).node.enqueues()
                    implies serialized(self.spec_history(), i, self.spec_nodes()[i].busy_until) by {
                assert(self.spec_nodes()[i] == old(self).spec_nodes()[i]);
                assert(serialized(h0, i, self.spec_nodes()[i].busy_until));
            }
        }
    }

    /// Schedules one conveyance per node other than `sender`, each with
    /// its own duplicate of `message`, all sent at logical time `at` with
    /// the same resolved delay, after recording the broadcast itself.
    fn broadcast_at(&mut self, sender: i32, message: &MessageString, delay: u64, at: u64)
        requires
            old(self).wf(),
            at >= old(self).spec_now(),
        ensures
            final(self).wf(),
            final(self).spec_nodes() == old(self).spec_nodes(),
            final(self).spec_now() == old(self).spec_now(),
            final(self).spec_default_delay() == old(self).spec_default_delay(),
            final(self).spec_next_seq() == old(self).spec_next_seq() + spec_broadcast_count(
                old(self).spec_num_nodes(),
                sender as int,
            ),
            final(self).spec_pending().len() == old(self).spec_pending().len()
                + spec_broadcast_count(old(self).spec_num_nodes(), sender as int),
            forall|p: int|
                0 <= p < old(self).spec_pending().len() ==> final(self).spec_pending()[p] == old(
                    self,
                ).spec_pending()[p],
            forall|k: int|
                0 <= k < spec_broadcast_count(old(self).spec_num_nodes(), sender as int)
                    ==> env_of(
                    #[trigger] final(self).spec_pending()[old(self).spec_pending().len() + k],
                    (old(self).spec_next_seq() + k) as nat,
                    sender,
                    spec_broadcast_target(sender as int, k) as i32,
                    message@,
                    delay,
                    at,
                ),
            final(self).spec_history().len() == old(self).spec_history().len() + 1
                + spec_broadcast_count(old(self).spec_num_nodes(), sender as int),
            forall|j: int|
                0 <= j < old(self).spec_history().len() ==> final(self).spec_history()[j] == old(
                    self,
                ).spec_history()[j],
            is_broadcast_of(
                final(self).spec_history()[old(self).spec_history().len() as int],
                sender,
                message@,
                delay,
                at,
            ),
            forall|k: int|
                0 <= k < spec_broadcast_count(old(self).spec_num_nodes(), sender as int)
                    ==> is_sent_of(
                    #[trigger] final(self).spec_history()[old(self).spec_history().len() + 1 + k],
                    (old(self).spec_next_seq() + k) as nat,
                    sender,
                    spec_broadcast_target(sender as int, k) as i32,
                    message@,
                    delay,
                    at,
                ),
    {
        let mut detail = String::from_str("to * with delay ");
        detail.append(u64_to_string(delay).as_str());
        detail.append(": ");
        detail.append(message.message.as_str());
        self.log(sender, "broadcast", detail.as_str());
        let bev = Event::Broadcast { sender, message: message.message.clone(), delay, time: at };
        self.record_event(bev);
        let ghost h1 = self.history@;
        let ghost p0 = self.pending@;
        let ghost s0 = self.next_seq@;
        let n = self.nodes.len();
        let mut t: usize = 0;
        while t < n
            invariant
                self.wf(),
                0 <= t <= n,
                n == old(self).spec_num_nodes(),
                n <= i32::MAX,
                at >= self.spec_now(),
                self.spec_nodes() == old(self).spec_nodes(),
                self.spec_now() == old(self).spec_now(),
                self.spec_default_delay() == old(self).spec_default_delay(),
                self.spec_next_seq() == s0 + spec_partial_broadcast_count(sender as int, t as int),
                self.spec_pending().len() == p0.len() + spec_partial_broadcast_count(
                    sender as int,
                    t as int,
                ),
                forall|p: int| 0 <= p < p0.len() ==> self.spec_pending()[p] == p0[p],
                forall|k: int|
                    0 <= k < spec_partial_broadcast_count(sender as int, t as int) ==> env_of(
                        #[trigger] self.spec_pending()[p0.len() + k],
                        (s0 + k) as nat,
                        sender,
                        spec_broadcast_target(sender as int, k) as i32,
                        message@,
                        delay,
                        at,
                    ),
                self.spec_history().len() == h1.len() + spec_partial_broadcast_count(
                    sender as int,
                    t as int,
                ),
                forall|j: int| 0 <= j < h1.len() ==> self.spec_history()[j] == h1[j],
                forall|k: int|
                    0 <= k < spec_partial_broadcast_count(sender as int, t as int) ==> is_sent_of(
                        #[trigger] self.spec_history()[h1.len() + k],
                        (s0 + k) as nat,
                        sender,
                        spec_broadcast_target(sender as int, k) as i32,
                        message@,
                        delay,
                        at,
                    ),
            decreases n - t,
        {
            if t as i32 != sender {
                let ghost c = spec_partial_broadcast_count(sender as int, t as int);
                self.schedule_at(sender, t as i32, message.clone(), delay, at);
                proof {
                    assert(spec_partial_broadcast_count(sender as int, t as int + 1) == c + 1);
                    assert(t as int == spec_broadcast_target(sender as int, c));
                }
            } else {
                proof {
                    assert(spec_partial_broadcast_count(sender as int, t as int + 1)
                        == spec_partial_broadcast_count(sender as int, t as int));
                }
            }
            t = t + 1;
        }
        proof {
            assert(spec_partial_broadcast_count(sender as int, n as int) == spec_broadcast_count(
                old(self).spec_num_nodes(),
                sender as int,
            ));
        }
    }

    /// Broadcasts a message from `sender` to every other registered node:
    /// resolves the delay once, then schedules one independent conveyance
    /// per node whose identity differs from the sender — exactly `N - 1`
    /// conveyances for `N` registered nodes — each carrying its own
    /// duplicate of the message.  Never waits for any completion.
    pub fn broadcast(&mut self, sender: i32, message: MessageString, delay: Option<u64>)
        requires
            old(self).wf(),
        ensures
            final(self).wf(),
            final(self).spec_nodes() == old(self).spec_nodes(),
            final(self).spec_now() == old(self).spec_now(),
            final(self).spec_default_delay() == old(self).spec_default_delay(),
            final(self).spec_next_seq() == old(self).spec_next_seq() + spec_broadcast_count(
                old(self).spec_num_nodes(),
                sender as int,
            ),
            final(self).spec_pending().len() == old(self).spec_pending().len()
                + spec_broadcast_count(old(self).spec_num_nodes(), sender as int),
            forall|p: int|
                0 <= p < old(self).spec_pending().len() ==> final(self).spec_pending()[p] == old(
                    self,
                ).spec_pending()[p],
            forall|k: int|
                0 <= k < spec_broadcast_count(old(self).spec_num_nodes(), sender as int)
                    ==> env_of(
                    #[trigger] final(self).spec_pending()[old(self).spec_pending().len() + k],
                    (old(self).spec_next_seq() + k) as nat,
                    sender,
                    spec_broadcast_target(sender as int, k) as i32,
                    message@,
                    spec_resolved_delay(delay, old(self).spec_default_delay()),
                    old(self).spec_now(),
                ),
            forall|j: int|
                0 <= j < old(self).spec_history().len() ==> final(self).spec_history()[j] == old(
                    self,
                ).spec_history()[j],
            final(self).spec_history().len() == old(self).spec_history().len() + 1
                + spec_broadcast_count(old(self).spec_num_nodes(), sender as int),
            is_broadcast_of(
                final(self).spec_history()[old(self).spec_history().len() as int],
                sender,
                message@,
                spec_resolved_delay(delay, old(self).spec_default_delay()),
                old(self).spec_now(),
            ),
            forall|k: int|
                0 <= k < spec_broadcast_count(old(self).spec_num_nodes(), sender as int)
                    ==> is_sent_of(
                    #[trigger] final(self).spec_history()[old(self).spec_history().len() + 1 + k],
                    (old(self).spec_next_seq() + k) as nat,
                    sender,
                    spec_broadcast_target(sender as int, k) as i32,
                    message@,
                    spec_resolved_delay(delay, old(self).spec_default_delay()),
                    old(self).spec_now(),
                ),
    {
        let resolved = match delay {
            Some(d) => d,
            None => self.delay,
        };
        let at = self.now;
        self.broadcast_at(sender, &message, resolved, at);
    }

    /// Performs the actions a node handed back, on that node's behalf,
    /// starting at logical time `base`: sends and broadcasts are scheduled
    /// at the node's current offset, waits move the offset forward, and
    /// log actions are recorded.  Returns the logical time the node's
    /// active span ends — the offset the waits add up to — and leaves the
    /// history and the in-flight pool extended by exactly the records of
    /// the action list, in order.
    #[verifier::rlimit(100)]
    #[verifier::spinoff_prover]
    fn apply_actions(&mut self, ident: i32, actions: Vec<Action>, base: u64) -> (end: u64)
        requires
            old(self).wf(),
            base >= old(self).spec_now(),
        ensures
            final(self).wf(),
            final(self).spec_nodes() == old(self).spec_nodes(),
            final(self).spec_now() == old(self).spec_now(),
            final(self).spec_default_delay() == old(self).spec_default_delay(),
            final(self).spec_next_seq() >= old(self).spec_next_seq(),
            end >= base,
            end == offset_after(
                actions@,
                base,
            ),
            records_applied(
                old(self).spec_history(),
                final(self).spec_history(),
                old(self).spec_pending(),
                final(self).spec_pending(),
                action_records(
                    actions@,
                    ident,
                    base,
                    old(self).spec_default_delay(),
                    old(self).spec_num_nodes(),
                ),
                old(self).spec_next_seq(),
                ident,
            ),
            final(self).spec_next_seq() == old(self).spec_next_seq() + sent_count(
                action_records(
                    actions@,
                    ident,
                    base,
                    old(self).spec_default_delay(),
                    old(self).spec_num_nodes(),
                ),
            ),
            final(self).spec_pending().len() >= old(self).spec_pending().len(),
            forall|p: int|
                0 <= p < old(self).spec_pending().len() ==> final(self).spec_pending()[p] == old(
                    self,
                ).spec_pending()[p],
            final(self).spec_history().len() >= old(self).spec_history().len(),
            forall|j: int|
                0 <= j < old(self).spec_history().len() ==> final(self).spec_history()[j] == old(
                    self,
                ).spec_history()[j],
            forall|j: int|
                old(self).spec_history().len() <= j < final(self).spec_history().len() && ((
                #[trigger] final(self).spec_history()[j]) is Sent) ==> spec_sent_sender(
                    final(self).spec_history()[j],
                ) == ident,
    {
        let ghost p0 = self.pending@;
        let ghost h0 = self.history@;
        let ghost s0 = self.next_seq@;
        let ghost dd = self.delay;
        let ghost n0 = self.spec_num_nodes();
        let ghost actions0 = actions@;
        let ghost mut done: Seq<Action> = Seq::empty();
        let mut at = base;
        let mut acts = actions;
        proof {
            assert(actions0 =~= done + acts@);
        }
        while acts.len() > 0
            invariant
                self.wf(),
                at >= base,
                base >= self.spec_now(),
                self.spec_nodes() == old(self).spec_nodes(),
                self.spec_now() == old(self).spec_now(),
                self.spec_default_delay() == old(self).spec_default_delay(),
                dd == old(self).spec_default_delay(),
                n0 == old(self).spec_num_nodes(),
                self.spec_next_seq() >= old(self).spec_next_seq(),
                actions0 == done + acts@,
                at == offset_after(done, base),
                records_applied(
                    h0,
                    self.spec_history(),
                    p0,
                    self.spec_pending(),
                    action_records(done, ident, base, dd, n0),
                    s0,
                    ident,
                ),
                self.spec_next_seq() == s0 + sent_count(
                    action_records(done, ident, base, dd, n0),
                ),
                self.spec_pending().len() >= p0.len(),
                forall|p: int| 0 <= p < p0.len() ==> self.spec_pending()[p] == p0[p],
                self.spec_history().len() >= h0.len(),
                forall|j: int| 0 <= j < h0.len() ==> self.spec_history()[j] == h0[j],
                forall|j: int|
                    h0.len() <= j < self.spec_history().len() && ((#[trigger] self.spec_history()[j])
                        is Sent) ==> spec_sent_sender(self.spec_history()[j]) == ident,
            decreases acts@.len(),
        {
            let ghost hp = self.history@;
            let ghost pp = self.pending@;
            let ghost sp = self.next_seq@;
            let ghost at0 = at;
            let a = acts.remove(0);
            let ghost av = a;
            let ghost block = one_action_records(av, ident, at0, dd, n0);
            let ghost recs_done = action_records(done, ident, base, dd, n0);
            match a {
                Action::Send { target, message, delay } => {
                    let resolved = match delay {
                        Some(d) => d,
                        None => self.delay,
                    };
                    let ghost mv = message@;
                    let ghost sq = self.next_seq@;
                    self.schedule_at(ident, target, message, resolved, at);
                    proof {
                        assert forall|j: int|
                            h0.len() <= j < self.spec_history().len() && ((
                        #[trigger] self.spec_history()[j]) is Sent) implies spec_sent_sender(
                            self.spec_history()[j],
                        ) == ident by {
                            if j < hp.len() {
                                assert(self.spec_history()[j] == hp[j]);
                            } else {
                                assert(is_sent_of(
                                    self.spec_history()[j],
                                    sq,
                                    ident,
                                    target,
                                    mv,
                                    resolved,
                                    at,
                                ));
                            }
                        }
                        assert(block =~= seq![
                            ActRecord::Sending { target, message: mv, delay: resolved, time: at0 },
                        ]);
                        assert(block.drop_last() =~= Seq::<ActRecord>::empty());
                        assert(block.subrange(0, 0) =~= Seq::<ActRecord>::empty());
                        assert(sent_count(Seq::<ActRecord>::empty()) == 0);
                        assert(block.last() == block[0] && (block[0] is Sending));
                        assert(sent_count(block) == 1);
                        assert(record_matches(
                            self.spec_history()[hp.len() as int],
                            block[0],
                            sp,
                            ident,
                        ));
                        assert(env_matches_record(
                            self.spec_pending()[pp.len() as int],
                            block[0],
                            sp,
                            ident,
                        ));
                        assert(records_applied(
                            hp,
                            self.spec_history(),
                            pp,
                            self.spec_pending(),
                            block,
                            sp,
                            ident,
                        ));
                        assert(self.spec_next_seq() == sp + sent_count(block));
                        assert(offset_after(done.push(av), base) == at) by {
                            assert(done.push(av).drop_last() =~= done);
                        };
                    }
                },
                Action::Broadcast { message, delay } => {
                    let resolved = match delay {
                        Some(d) => d,
                        None => self.delay,
                    };
                    let ghost sq = self.next_seq@;
                    let ghost mv = message@;
                    self.broadcast_at(ident, &message, resolved, at);
                    proof {
                        assert forall|j: int|
                            h0.len() <= j < self.spec_history().len() && ((
                        #[trigger] self.spec_history()[j]) is Sent) implies spec_sent_sender(
                            self.spec_history()[j],
                        ) == ident by {
                            if j < hp.len() {
                                assert(self.spec_history()[j] == hp[j]);
                            } else if j == hp.len() {
                                assert(is_broadcast_of(
                                    self.spec_history()[j],
                                    ident,
                                    message@,
                                    resolved,
                                    at,
                                ));
                            } else {
                                let k = j - hp.len() - 1;
                                assert(is_sent_of(
                                    self.spec_history()[hp.len() + 1 + k],
                                    (sq + k) as nat,
                                    ident,
                                    spec_broadcast_target(ident as int, k) as i32,
                                    message@,
                                    resolved,
                                    at,
                                ));
                            }
                        }
                        let c = spec_broadcast_count(n0, ident as int);
                        assert(block.len() == 1 + c);
                        assert(!(block[0] is Sending));
                        assert(record_matches(
                            self.spec_history()[hp.len() as int],
                            block[0],
                            sp,
                            ident,
                        ));
                        assert forall|k: int|
                            1 <= k < block.len() implies (#[trigger] block[k]) is Sending by {
                            assert(block[k] == (ActRecord::Sending {
                                target: spec_broadcast_target(ident as int, k - 1) as i32,
                                message: mv,
                                delay: resolved,
                                time: at0,
                            }));
                        }
                        lemma_announce_block_count(block, block.len() as int);
                        assert(block.subrange(0, block.len() as int) =~= block);
                        assert(sent_count(block) == c);
                        assert forall|j: int|
                            0 <= j < block.len() implies record_matches(
                            self.spec_history()[hp.len() + j],
                            #[trigger] block[j],
                            (sp + sent_count(block.subrange(0, j))) as nat,
                            ident,
                        ) by {
                            lemma_announce_block_count(block, j);
                            if j > 0 {
                                let k = j - 1;
                                assert(block[j] == (ActRecord::Sending {
                                    target: spec_broadcast_target(ident as int, k) as i32,
                                    message: mv,
                                    delay: resolved,
                                    time: at0,
                                }));
                                assert(is_sent_of(
                                    self.spec_history()[hp.len() + 1 + k],
                                    (sp + k) as nat,
                                    ident,
                                    spec_broadcast_target(ident as int, k) as i32,
                                    mv,
                                    resolved,
                                    at0,
                                ));
                            }
                        }
                        assert forall|j: int|
                            0 <= j < block.len() && ((#[trigger] block[j]) is Sending) implies
                            env_matches_record(
                            self.spec_pending()[pp.len() + sent_count(block.subrange(0, j))],
                            block[j],
                            (sp + sent_count(block.subrange(0, j))) as nat,
                            ident,
                        ) by {
                            lemma_announce_block_count(block, j);
                            let k = j - 1;
                            assert(block[j] == (ActRecord::Sending {
                                target: spec_broadcast_target(ident as int, k) as i32,
                                message: mv,
                                delay: resolved,
                                time: at0,
                            }));
                            assert(env_of(
                                self.spec_pending()[pp.len() + k],
                                (sp + k) as nat,
                                ident,
                                spec_broadcast_target(ident as int, k) as i32,
                                mv,
                                resolved,
                                at0,
                            ));
                        }
                        assert(records_applied(
                            hp,
                            self.spec_history(),
                            pp,
                            self.spec_pending(),
                            block,
                            sp,
                            ident,
                        ));
                        assert(self.spec_next_seq() == sp + sent_count(block));
                        assert(offset_after(done.push(av), base) == at) by {
                            assert(done.push(av).drop_last() =~= done);
                        };
                    }
                },
                Action::Wait { units } => {
                    at = advance_time(at, units);
                    proof {
                        assert(block =~= Seq::<ActRecord>::empty());
                        assert(sent_count(block) == 0);
                        assert(records_applied(
                            hp,
                            self.spec_history(),
                            pp,
                            self.spec_pending(),
                            block,
                            sp,
                            ident,
                        ));
                        assert(self.spec_next_seq() == sp + sent_count(block));
                        assert(offset_after(done.push(av), base) == at) by {
                            assert(done.push(av).drop_last() =~= done);
                        };
                    }
                },
                Action::Log { event, detail } => {
                    let ghost ev_text = event@;
                    let ghost dt_text = detail@;
                    self.log(ident, event.as_str(), detail.as_str());
                    self.record_event(Event::Logged { ident, event, detail, time: at });
                    proof {
                        assert forall|j: int|
                            h0.len() <= j < self.spec_history().len() && ((
                        #[trigger] self.spec_history()[j]) is Sent) implies spec_sent_sender(
                            self.spec_history()[j],
                        ) == ident by {
                            if j < hp.len() {
                                assert(self.spec_history()[j] == hp[j]);
                            }
                        }
                        assert(block =~= seq![
                            ActRecord::Noting { event: ev_text, detail: dt_text, time: at0 },
                        ]);
                        assert(block.drop_last() =~= Seq::<ActRecord>::empty());
                        assert(block.subrange(0, 0) =~= Seq::<ActRecord>::empty());
                        assert(sent_count(block) == 0);
                        assert(is_logged_of(
                            self.spec_history()[hp.len() as int],
                            ident,
                            ev_text,
                            dt_text,
                            at0,
                        ));
                        assert(record_matches(
                            self.spec_history()[hp.len() as int],
                            block[0],
                            sp,
                            ident,
                        ));
                        assert(records_applied(
                            hp,
                            self.spec_history(),
                            pp,
                            self.spec_pending(),
                            block,
                            sp,
                            ident,
                        ));
                        assert(self.spec_next_seq() == sp + sent_count(block));
                        assert(offset_after(done.push(av), base) == at) by {
                            assert(done.push(av).drop_last() =~= done);
                        };
                    }
                },
            }
            proof {
                lemma_sent_count_nonneg(recs_done);
                assert(done.push(av).drop_last() =~= done);
                assert(action_records(done.push(av), ident, base, dd, n0) == recs_done + block);
                assert((s0 + sent_count(recs_done)) as nat == sp);
                lemma_records_applied_trans(
                    h0,
                    hp,
                    self.spec_history(),
                    p0,
                    pp,
                    self.spec_pending(),
                    recs_done,
                    block,
                    s0,
                    ident,
                );
                lemma_sent_count_concat(recs_done, block);
                assert(done.push(av) + acts@ =~= actions0);
                done = done.push(av);
            }
        }
        proof {
            assert(done =~= actions0);
        }
        at
    }

    /// Starts the node with the given identity, if one is registered and
    /// not already started: records the start, invokes the node's run loop
    /// — witnessed by the node being `running()` afterwards, which only
    /// `run` can establish, and which the started flag then pins for good —
    /// and performs the actions the run loop returned: the history and the
    /// in-flight pool grow by exactly the records of that action list, every
    /// send in it attributed to this node.  Starting an absent or an
    /// already started identity is a complete no-op, so a node's run loop
    /// is invoked at most once.
    pub fn start_node(&mut self, ident: i32)
        requires
            old(self).wf(),
        ensures
            final(self).wf(),
            final(self).spec_num_nodes() == old(self).spec_num_nodes(),
            final(self).spec_now() == old(self).spec_now(),
            final(self).spec_default_delay() == old(self).spec_default_delay(),
            0 <= ident < old(self).spec_num_nodes() ==> final(self).spec_nodes()[ident as int].started,
            0 <= ident < old(self).spec_num_nodes() ==> final(self).spec_nodes()[
                ident as int
            ].node.running(),
            (0 <= ident < old(self).spec_num_nodes() && !old(self).spec_nodes()[
                ident as int
            ].started) ==> (final(self).spec_history().len() > old(self).spec_history().len()
                && final(self).spec_history()[old(self).spec_history().len() as int] == (
            Event::Started { ident, time: old(self).spec_now() })),
            (0 <= ident < old(self).spec_num_nodes() && !old(self).spec_nodes()[
                ident as int
            ].started) ==> (exists|acts: Seq<Action>|
                records_applied(
                    old(self).spec_history().push(
                        Event::Started { ident, time: old(self).spec_now() },
                    ),
                    final(self).spec_history(),
                    old(self).spec_pending(),
                    final(self).spec_pending(),
                    #[trigger] action_records(
                        acts,
                        ident,
                        old(self).spec_now(),
                        old(self).spec_default_delay(),
                        old(self).spec_num_nodes(),
                    ),
                    old(self).spec_next_seq(),
                    ident,
                )),
            (!(0 <= ident < old(self).spec_num_nodes()) || old(self).spec_nodes()[
                ident as int
            ].started) ==> *final(self) == *old(self),
            forall|i: int|
                0 <= i < old(self).spec_num_nodes() && i != ident ==> final(self).spec_nodes()[i]
                    == old(self).spec_nodes()[i],
            0 <= ident < old(self).spec_num_nodes() ==> (
            final(self).spec_nodes()[ident as int].node.ident_of()
                == old(self).spec_nodes()[ident as int].node.ident_of()
                && final(self).spec_nodes()[ident as int].node.handle_of()
                == old(self).spec_nodes()[ident as int].node.handle_of()
                && final(self).spec_nodes()[ident as int].node.enqueues()
                == old(self).spec_nodes()[ident as int].node.enqueues()
                && final(self).spec_nodes()[ident as int].node.inbox()
                == old(self).spec_nodes()[ident as int].node.inbox()
                && final(self).spec_nodes()[ident as int].busy_until
                == old(self).spec_nodes()[ident as int].busy_until),
            forall|p: int|
                0 <= p < old(self).spec_pending().len() ==> final(self).spec_pending()[p] == old(
                    self,
                ).spec_pending()[p],
            final(self).spec_pending().len() >= old(self).spec_pending().len(),
            final(self).spec_history().len() >= old(self).spec_history().len(),
            forall|j: int|
                0 <= j < old(self).spec_history().len() ==> final(self).spec_history()[j] == old(
                    self,
                ).spec_history()[j],
            forall|j: int|
                old(self).spec_history().len() <= j < final(self).spec_history().len() && ((
                #[trigger] final(self).spec_history()[j]) is Sent) ==> spec_sent_sender(
                    final(self).spec_history()[j],
                ) == ident,
    {
        if ident < 0 {
            return ;
        }
        let idx = ident as usize;
        if idx >= self.nodes.len() {
            return ;
        }
        if self.nodes[idx].started {
            return ;
        }
        self.log(ident, "start", "starting run loop");
        self.record_event(Event::Started { ident, time: self.now });
        let info = NetworkInfo {
            num_nodes: self.nodes.len(),
            default_delay: self.delay,
            now: self.now,
        };
        let ghost pre = *self;
        self.nodes[idx].started = true;
        let actions = self.nodes[idx].node.run(&info);
        proof {
            Self::lemma_accounting_preserved(pre, *self);
            assert forall|i: int|
                0 <= i < self.spec_nodes().len() implies (#[trigger] self.spec_nodes()[i]).node.initialized()
                && self.spec_nodes()[i].node.ident_of() == i by {
                if i != idx {
                    assert(self.spec_nodes()[i] == pre.spec_nodes()[i]);
                }
            }
            assert forall|p: int|
                0 <= p < self.spec_pending().len() implies env_ok(
                #[trigger] self.spec_pending()[p],
                self.spec_now(),
                self.spec_next_seq(),
            ) && has_sent_witness(self.spec_history(), self.spec_pending()[p]) by {
                assert(env_ok(pre.spec_pending()[p], pre.spec_now(), pre.spec_next_seq()));
                assert(has_sent_witness(pre.spec_history(), pre.spec_pending()[p]));
            }
            assert forall|i: int|
                0 <= i < self.spec_nodes().len() && (#[trigger] self.spec_nodes()[i]).node.enqueues()
                    implies serialized(self.spec_history(), i, self.spec_nodes()[i].busy_until) by {
                if i != idx {
                    assert(self.spec_nodes()[i] == pre.spec_nodes()[i]);
                    assert(serialized(pre.spec_history(), i, pre.spec_nodes()[i].busy_until));
                } else {
                    assert(pre.spec_nodes()[i].node.enqueues());
                    assert(serialized(pre.spec_history(), i, pre.spec_nodes()[i].busy_until));
                    assert(self.spec_nodes()[i].busy_until == pre.spec_nodes()[i].busy_until);
                }
            }
        }
        let now0 = self.now;
        let ghost before_apply = *self;
        let ghost acts0 = actions@;
        self.apply_actions(ident, actions, now0);
        proof {
            assert forall|j: int|
                old(self).spec_history().len() <= j < self.spec_history().len() && ((
            #[trigger] self.spec_history()[j]) is Sent) implies spec_sent_sender(
                self.spec_history()[j],
            ) == ident by {
                if j < before_apply.spec_history().len() {
                    assert(self.spec_history()[j] == before_apply.spec_history()[j]);
                    assert(before_apply.spec_history()[j] == (Event::Started {
                        ident,
                        time: old(self).spec_now(),
                    }));
                }
            }
            assert(before_apply.spec_history() =~= old(self).spec_history().push(
                Event::Started { ident, time: old(self).spec_now() },
            ));
            assert(records_applied(
                old(self).spec_history().push(Event::Started { ident, time: old(self).spec_now() }),
                self.spec_history(),
                old(self).spec_pending(),
                self.spec_pending(),
                action_records(
                    acts0,
                    ident,
                    old(self).spec_now(),
                    old(self).spec_default_delay(),
                    old(self).spec_num_nodes(),
                ),
                old(self).spec_next_seq(),
                ident,
            ));
        }
    }

    /// Starts every registered node, in ascending identity order.
    pub fn start_all_nodes(&mut self)
        requires
            old(self).wf(),
        ensures
            final(self).wf(),
            final(self).spec_num_nodes() == old(self).spec_num_nodes(),
            final(self).spec_now() == old(self).spec_now(),
            final(self).spec_default_delay() == old(self).spec_default_delay(),
            forall|j: int|
                0 <= j < old(self).spec_history().len() ==> final(self).spec_history()[j] == old(
                    self,
                ).spec_history()[j],
            forall|i: int|
                0 <= i < old(self).spec_num_nodes() ==> (#[trigger] final(self).spec_nodes()[i]).started,
    {
        let n = self.nodes.len();
        let mut i: usize = 0;
        while i < n
            invariant
                self.wf(),
                0 <= i <= n,
                n == self.spec_num_nodes(),
                self.spec_now() == old(self).spec_now(),
                self.spec_default_delay() == old(self).spec_default_delay(),
                forall|j: int|
                    0 <= j < old(self).spec_history().len() ==> self.spec_history()[j] == old(
                        self,
                    ).spec_history()[j],
                self.spec_history().len() >= old(self).spec_history().len(),
                forall|j: int| 0 <= j < i ==> (#[trigger] self.spec_nodes()[j]).started,
            decreases n - i,
        {
            self.start_node(i as i32);
            i = i + 1;
        }
    }

    /// Whether the node in slot `i` has queued mail its run loop should
    /// process.
    pub open spec fn pump_candidate(&self, i: int) -> bool {
        &&& 0 <= i < self.spec_nodes().len()
        &&& self.spec_nodes()[i].started
        &&& self.spec_nodes()[i].node.inbox().len() > 0
    }

    /// The logical time at which the node in slot `i` could process its
    /// next mailbox entry: as soon as it is no longer busy, and no earlier
    /// than now.
    pub open spec fn pump_time(&self, i: int) -> u64 {
        spec_max(self.spec_nodes()[i].busy_until, self.spec_now())
    }

    /// The position of the due-earliest in-flight conveyance, ties broken
    /// by insertion order.
    fn next_delivery(&self) -> (r: Option<usize>)
        ensures
            r is Some <==> self.spec_pending().len() > 0,
            r matches Some(d) ==> 0 <= d < self.spec_pending().len() && (forall|p: int|
                0 <= p < self.spec_pending().len() ==> self.spec_pending()[d as int].deliver_at <= (
                #[trigger] self.spec_pending()[p]).deliver_at) && (forall|p: int|
                0 <= p < d ==> (#[trigger] self.spec_pending()[p]).deliver_at
                    > self.spec_pending()[d as int].deliver_at),
    {
        if self.pending.len() == 0 {
            return None;
        }
        let mut best: usize = 0;
        let mut p: usize = 1;
        while p < self.pending.len()
            invariant
                0 <= best < p <= self.spec_pending().len(),
                forall|q: int|
                    0 <= q < p ==> self.spec_pending()[best as int].deliver_at <= (
                    #[trigger] self.spec_pending()[q]).deliver_at,
                forall|q: int|
                    0 <= q < best ==> (#[trigger] self.spec_pending()[q]).deliver_at
                        > self.spec_pending()[best as int].deliver_at,
            decreases self.spec_pending().len() - p,
        {
            if self.pending[p].deliver_at < self.pending[best].deliver_at {
                best = p;
            }
            p = p + 1;
        }
        Some(best)
    }

    /// The slot of the node that could process mail the soonest, together
    /// with that time; ties broken by slot order.
    fn next_pump(&self) -> (r: Option<(usize, u64)>)
        ensures
            r is Some <==> exists|i: int| self.pump_candidate(i),
            r matches Some(pair) ==> self.pump_candidate(pair.0 as int) && pair.1
                == self.pump_time(pair.0 as int) && (forall|q: int|
                #[trigger] self.pump_candidate(q) ==> pair.1 <= self.pump_time(q)) && (forall|
                q: int,
            |
                0 <= q < pair.0 ==> !(#[trigger] self.pump_candidate(q)) || self.pump_time(q)
                    > pair.1),
    {
        let mut found: Option<(usize, u64)> = None;
        let mut i: usize = 0;
        while i < self.nodes.len()
            invariant
                0 <= i <= self.spec_nodes().len(),
                found is None ==> forall|q: int| 0 <= q < i ==> !(#[trigger] self.pump_candidate(q)),
                found matches Some(pair) ==> self.pump_candidate(pair.0 as int) && pair.0 < i
                    && pair.1 == self.pump_time(pair.0 as int) && (forall|q: int|
                    0 <= q < i && #[trigger] self.pump_candidate(q) ==> pair.1
                        <= self.pump_time(q)) && (forall|q: int|
                    0 <= q < pair.0 ==> !(#[trigger] self.pump_candidate(q)) || self.pump_time(q)
                        > pair.1),
            decreases self.spec_nodes().len() - i,
        {
            let slot = &self.nodes[i];
            if slot.started && slot.node.has_mail() {
                let t = if slot.busy_until >= self.now {
                    slot.busy_until
                } else {
                    self.now
                };
                match found {
                    Some(pair) => {
                        if t < pair.1 {
                            found = Some((i, t));
                        }
                    },
                    None => {
                        found = Some((i, t));
                    },
                }
            }
            i = i + 1;
        }
        found
    }
}

/// The larger of two logical times.
pub open spec fn spec_max(a: u64, b: u64) -> u64 {
    if a >= b {
        a
    } else {
        b
    }
}

impl<N: Node, L: Logger> Network<N, L> {
    /// Send accounting survives any change that only appends non-send
    /// events to the history and only appends to the in-flight pool.
    proof fn lemma_accounting_preserved(pre: Self, post: Self)
        requires
            pre.sends_accounted(),
            post.spec_history().len() >= pre.spec_history().len(),
            forall|k: int|
                0 <= k < pre.spec_history().len() ==> post.spec_history()[k]
                    == pre.spec_history()[k],
            forall|j: int|
                pre.spec_history().len() <= j < post.spec_history().len() ==> !((
                #[trigger] post.spec_history()[j]) is Sent),
            post.spec_pending().len() >= pre.spec_pending().len(),
            forall|p: int|
                0 <= p < pre.spec_pending().len() ==> post.spec_pending()[p]
                    == pre.spec_pending()[p],
        ensures
            post.sends_accounted(),
    {
        assert forall|j: int|
            0 <= j < post.spec_history().len() && ((#[trigger] post.spec_history()[j]) is Sent)
                implies seq_accounted(
            post.spec_history(),
            post.spec_pending(),
            spec_event_seq(post.spec_history()[j]),
        ) by {
            assert(j < pre.spec_history().len());
            assert(post.spec_history()[j] == pre.spec_history()[j]);
            assert(seq_accounted(
                pre.spec_history(),
                pre.spec_pending(),
                spec_event_seq(pre.spec_history()[j]),
            ));
            lemma_accounted_grow(
                pre.spec_history(),
                post.spec_history(),
                pre.spec_pending(),
                post.spec_pending(),
                spec_event_seq(pre.spec_history()[j]),
            );
        }
    }

    /// Mutating one node in a way that keeps its identity, initialization
    /// state, mailbox discipline and busy time keeps the network well
    /// formed, as long as nothing else changed.
    proof fn lemma_wf_node_update(pre: Self, post: Self, idx: int)
        requires
            pre.wf(),
            post.spec_nodes().len() == pre.spec_nodes().len(),
            0 <= idx < pre.spec_nodes().len(),
            forall|i: int|
                0 <= i < pre.spec_nodes().len() && i != idx ==> post.spec_nodes()[i]
                    == pre.spec_nodes()[i],
            post.spec_nodes()[idx].node.initialized(),
            post.spec_nodes()[idx].node.ident_of() == idx,
            post.spec_nodes()[idx].node.running() == pre.spec_nodes()[idx].node.running(),
            post.spec_nodes()[idx].started == pre.spec_nodes()[idx].started,
            post.spec_nodes()[idx].node.enqueues() == pre.spec_nodes()[idx].node.enqueues(),
            post.spec_nodes()[idx].busy_until == pre.spec_nodes()[idx].busy_until,
            post.spec_history() == pre.spec_history(),
            post.spec_pending() == pre.spec_pending(),
            post.spec_now() == pre.spec_now(),
            post.spec_next_seq() == pre.spec_next_seq(),
        ensures
            post.wf(),
    {
        Self::lemma_accounting_preserved(pre, post);
        assert forall|i: int|
            0 <= i < post.spec_nodes().len() implies (#[trigger] post.spec_nodes()[i]).node.initialized()
            && post.spec_nodes()[i].node.ident_of() == i by {
            if i != idx {
                assert(post.spec_nodes()[i] == pre.spec_nodes()[i]);
            }
        }
        assert forall|i: int|
            0 <= i < post.spec_nodes().len() implies (#[trigger] post.spec_nodes()[i]).started
            == post.spec_nodes()[i].node.running() by {
            if i != idx {
                assert(post.spec_nodes()[i] == pre.spec_nodes()[i]);
            }
        }
        assert forall|p: int|
            0 <= p < post.spec_pending().len() implies env_ok(
            #[trigger] post.spec_pending()[p],
            post.spec_now(),
            post.spec_next_seq(),
        ) && has_sent_witness(post.spec_history(), post.spec_pending()[p]) by {
            assert(env_ok(pre.spec_pending()[p], pre.spec_now(), pre.spec_next_seq()));
            assert(has_sent_witness(pre.spec_history(), pre.spec_pending()[p]));
        }
        assert forall|i: int|
            0 <= i < post.spec_nodes().len() && (#[trigger] post.spec_nodes()[i]).node.enqueues()
                implies serialized(post.spec_history(), i, post.spec_nodes()[i].busy_until) by {
            if i != idx {
                assert(post.spec_nodes()[i] == pre.spec_nodes()[i]);
                assert(serialized(pre.spec_history(), i, pre.spec_nodes()[i].busy_until));
            } else {
                assert(pre.spec_nodes()[idx].node.enqueues());
                assert(serialized(pre.spec_history(), idx, pre.spec_nodes()[idx].busy_until));
            }
        }
    }

    /// Removing the due-earliest conveyance and advancing the clock to its
    /// due time keeps the network well formed, and no remaining conveyance
    /// carries the removed one's sequence number.
    proof fn lemma_wf_after_removal(pre: Self, post: Self, d: int)
        requires
            pre.wf(),
            0 <= d < pre.spec_pending().len(),
            forall|p: int|
                0 <= p < pre.spec_pending().len() ==> (#[trigger] pre.spec_pending()[p]).deliver_at
                    >= pre.spec_pending()[d].deliver_at,
            post.spec_pending() == pre.spec_pending().remove(d),
            post.spec_now() == pre.spec_pending()[d].deliver_at,
            post.spec_nodes() == pre.spec_nodes(),
            post.spec_history() == pre.spec_history(),
            post.spec_next_seq() == pre.spec_next_seq(),
        ensures
            post.wf_core(),
            forall|p: int|
                #![trigger post.spec_pending()[p]]
                0 <= p < post.spec_pending().len() ==> post.spec_pending()[p].seq@
                    != pre.spec_pending()[d].seq@,
            forall|j: int|
                #![trigger post.spec_history()[j]]
                0 <= j < post.spec_history().len() && (post.spec_history()[j] is Sent)
                    && spec_event_seq(post.spec_history()[j]) != pre.spec_pending()[d].seq@
                    ==> seq_accounted(
                    post.spec_history(),
                    post.spec_pending(),
                    spec_event_seq(post.spec_history()[j]),
                ),
    {
        let rem = pre.spec_pending().remove(d);
        pre.spec_pending().remove_ensures(d);
        assert forall|j: int|
            #![trigger post.spec_history()[j]]
            0 <= j < post.spec_history().len() && (post.spec_history()[j] is Sent)
                && spec_event_seq(post.spec_history()[j]) != pre.spec_pending()[d].seq@ implies
            seq_accounted(
            post.spec_history(),
            post.spec_pending(),
            spec_event_seq(post.spec_history()[j]),
        ) by {
            let s = spec_event_seq(post.spec_history()[j]);
            assert(post.spec_history()[j] == pre.spec_history()[j]);
            assert(seq_accounted(pre.spec_history(), pre.spec_pending(), s));
            if exists|p: int|
                0 <= p < pre.spec_pending().len() && (#[trigger] pre.spec_pending()[p]).seq@
                    == s {
                let p = choose|p: int|
                    0 <= p < pre.spec_pending().len() && (#[trigger] pre.spec_pending()[p]).seq@
                        == s;
                assert(p != d);
                if p < d {
                    assert(post.spec_pending()[p] == rem[p]);
                    assert(rem[p] == pre.spec_pending()[p]);
                } else {
                    assert(post.spec_pending()[p - 1] == rem[p - 1]);
                    assert(rem[p - 1] == pre.spec_pending()[p]);
                }
            } else {
                let k = choose|k: int|
                    0 <= k < pre.spec_history().len() && ((#[trigger] pre.spec_history()[k])
                        is Received) && spec_event_seq(pre.spec_history()[k]) == s;
                assert((post.spec_history()[k] is Received) && spec_event_seq(
                    post.spec_history()[k],
                ) == s);
            }
        }
        assert forall|i: int|
            0 <= i < post.spec_nodes().len() implies (#[trigger] post.spec_nodes()[i]).node.initialized()
            && post.spec_nodes()[i].node.ident_of() == i by {
            assert(post.spec_nodes()[i] == pre.spec_nodes()[i]);
        }
        assert forall|p: int|
            #![trigger post.spec_pending()[p]]
            0 <= p < post.spec_pending().len() implies env_ok(
            post.spec_pending()[p],
            post.spec_now(),
            post.spec_next_seq(),
        ) && has_sent_witness(post.spec_history(), post.spec_pending()[p])
            && post.spec_pending()[p].seq@ != pre.spec_pending()[d].seq@ by {
            assert(post.spec_pending()[p] == rem[p]);
            if p < d {
                assert(rem[p] == pre.spec_pending()[p]);
                assert(env_ok(pre.spec_pending()[p], pre.spec_now(), pre.spec_next_seq()));
                assert(has_sent_witness(pre.spec_history(), pre.spec_pending()[p]));
                assert(pre.spec_pending()[p].seq@ != pre.spec_pending()[d].seq@);
            } else {
                assert(rem[p] == pre.spec_pending()[p + 1]);
                assert(env_ok(pre.spec_pending()[p + 1], pre.spec_now(), pre.spec_next_seq()));
                assert(has_sent_witness(pre.spec_history(), pre.spec_pending()[p + 1]));
                assert(pre.spec_pending()[p + 1].seq@ != pre.spec_pending()[d].seq@);
            }
        }
        assert forall|p: int, q: int|
            0 <= p < q < post.spec_pending().len() implies (#[trigger] post.spec_pending()[p]).seq@
            != (#[trigger] post.spec_pending()[q]).seq@ by {
            assert(post.spec_pending()[p] == rem[p]);
            assert(post.spec_pending()[q] == rem[q]);
            if q < d {
            } else if p < d {
                assert(rem[p] == pre.spec_pending()[p]);
                assert(rem[q] == pre.spec_pending()[q + 1]);
            } else {
                assert(rem[p] == pre.spec_pending()[p + 1]);
                assert(rem[q] == pre.spec_pending()[q + 1]);
            }
        }
        assert(seqs_ok(post.spec_history(), post.spec_pending(), post.spec_next_seq())) by {
            assert forall|j: int, p: int|
                0 <= j < post.spec_history().len() && (post.spec_history()[j] is Received) && 0 <= p
                    < post.spec_pending().len() implies spec_event_seq(
                #[trigger] post.spec_history()[j],
            ) != (#[trigger] post.spec_pending()[p]).seq@ by {
                assert(post.spec_pending()[p] == rem[p]);
                if p < d {
                    assert(rem[p] == pre.spec_pending()[p]);
                    assert(spec_event_seq(pre.spec_history()[j]) != pre.spec_pending()[p].seq@);
                } else {
                    assert(rem[p] == pre.spec_pending()[p + 1]);
                    assert(spec_event_seq(pre.spec_history()[j]) != pre.spec_pending()[p + 1].seq@);
                }
            }
        }
        assert forall|i: int|
            0 <= i < post.spec_nodes().len() && (#[trigger] post.spec_nodes()[i]).node.enqueues()
                implies serialized(post.spec_history(), i, post.spec_nodes()[i].busy_until) by {
            assert(post.spec_nodes()[i] == pre.spec_nodes()[i]);
            assert(serialized(pre.spec_history(), i, pre.spec_nodes()[i].busy_until));
        }
    }

    /// Delivers the in-flight conveyance at position `d`, which must be
    /// due earliest: advances the clock to its due time, records the
    /// receipt, and — when a node holds the target identity — hands the
    /// message to that node through its `receive`: a mailbox-backed
    /// target has the entry appended to its inbox for its own run loop,
    /// any other target handles it on the spot, its actions are performed
    /// and its handler span is recorded.  A conveyance to an absent
    /// identity only leaves its receipt record, marked undelivered: no
    /// node is touched and no handler runs.
    fn deliver_at_index(&mut self, d: usize)
        requires
            old(self).wf(),
            d < old(self).spec_pending().len(),
            forall|p: int|
                0 <= p < old(self).spec_pending().len() ==> (#[trigger] old(self).spec_pending()[p]).deliver_at
                    >= old(self).spec_pending()[d as int].deliver_at,
        ensures
            final(self).wf(),
            final(self).spec_now() == old(self).spec_pending()[d as int].deliver_at,
            final(self).spec_now() >= old(self).spec_now(),
            final(self).spec_num_nodes() == old(self).spec_num_nodes(),
            final(self).spec_default_delay() == old(self).spec_default_delay(),
            final(self).spec_pending().len() >= old(self).spec_pending().len() - 1,
            final(self).spec_history().len() > old(self).spec_history().len(),
            forall|j: int|
                0 <= j < old(self).spec_history().len() ==> final(self).spec_history()[j] == old(
                    self,
                ).spec_history()[j],
            is_received_of(
                final(self).spec_history()[old(self).spec_history().len() as int],
                old(self).spec_pending()[d as int].seq@,
                old(self).spec_pending()[d as int].sender,
                old(self).spec_pending()[d as int].target,
                old(self).spec_pending()[d as int].message@,
                0 <= old(self).spec_pending()[d as int].target < old(self).spec_num_nodes(),
                old(self).spec_pending()[d as int].deliver_at,
            ),
            !(0 <= old(self).spec_pending()[d as int].target < old(self).spec_num_nodes()) ==> (
            final(self).spec_nodes() == old(self).spec_nodes() && final(self).spec_pending() == old(
                self,
            ).spec_pending().remove(d as int) && final(self).spec_history().len() == old(
                self,
            ).spec_history().len() + 1),
            forall|i: int|
                0 <= i < old(self).spec_num_nodes() && i != old(self).spec_pending()[
                    d as int
                ].target as int ==> final(self).spec_nodes()[i] == old(self).spec_nodes()[i],
            0 <= old(self).spec_pending()[d as int].target < old(self).spec_num_nodes()
                ==> slot_keeps_frame(
                old(self).spec_nodes()[old(self).spec_pending()[d as int].target as int],
                final(self).spec_nodes()[old(self).spec_pending()[d as int].target as int],
            ),
            (0 <= old(self).spec_pending()[d as int].target < old(self).spec_num_nodes() && old(
                self,
            ).spec_nodes()[old(self).spec_pending()[d as int].target as int].node.enqueues()) ==> (
            final(self).spec_nodes()[old(self).spec_pending()[
                d as int
            ].target as int].node.inbox() == old(self).spec_nodes()[old(self).spec_pending()[
                d as int
            ].target as int].node.inbox().push(
                (
                    old(self).spec_pending()[d as int].sender,
                    old(self).spec_pending()[d as int].message,
                ),
            ) && final(self).spec_history().len() == old(self).spec_history().len() + 1
                && final(self).spec_pending() == old(self).spec_pending().remove(d as int)),
            (0 <= old(self).spec_pending()[d as int].target < old(self).spec_num_nodes() && !old(
                self,
            ).spec_nodes()[old(self).spec_pending()[d as int].target as int].node.enqueues()) ==> (
            final(self).spec_nodes()[old(self).spec_pending()[
                d as int
            ].target as int].node.inbox() == old(self).spec_nodes()[old(self).spec_pending()[
                d as int
            ].target as int].node.inbox() && final(self).spec_history().len() >= old(
                self,
            ).spec_history().len() + 2 && (final(self).spec_history()[final(self).spec_history().len()
                - 1] matches Event::Handled {
                ident: hi,
                sender: hs,
                message: hm,
                start: hst,
                end: hen,
            } && hi == old(self).spec_pending()[d as int].target && hs == old(self).spec_pending()[
                d as int
            ].sender && hm@ == old(self).spec_pending()[d as int].message@ && hst == old(
                self,
            ).spec_pending()[d as int].deliver_at && hst <= hen)),
            forall|j: int|
                old(self).spec_history().len() <= j < final(self).spec_history().len() && ((
                #[trigger] final(self).spec_history()[j]) is Sent) ==> spec_sent_sender(
                    final(self).spec_history()[j],
                ) == old(self).spec_pending()[d as int].target,
    {
        let ghost pre = *self;
        let env = self.pending.remove(d);
        self.now = env.deliver_at;
        proof {
            Self::lemma_wf_after_removal(pre, *self, d as int);
        }
        let ghost mid = *self;
        let delivered = env.target >= 0 && (env.target as usize) < self.nodes.len();
        let text = env.message.message.clone();
        let handled_text = env.message.message.clone();
        let mut detail = String::from_str("from ");
        detail.append(i32_to_string(env.sender).as_str());
        detail.append(" with delay ");
        detail.append(u64_to_string(env.delay).as_str());
        detail.append(": ");
        detail.append(text.as_str());
        self.log(env.target, "receive", detail.as_str());
        let rev = Event::Received {
            seq: env.seq,
            sender: env.sender,
            target: env.target,
            message: text,
            delivered,
            time: env.deliver_at,
        };
        let ghost h1 = self.history@;
        self.history.push(rev);
        proof {
            lemma_push_preserves(h1, rev);
            assert forall|i: int|
                0 <= i < self.spec_nodes().len() implies (#[trigger] self.spec_nodes()[i]).node.initialized()
                && self.spec_nodes()[i].node.ident_of() == i by {
                assert(self.spec_nodes()[i] == mid.spec_nodes()[i]);
            }
            assert forall|p: int|
                0 <= p < self.spec_pending().len() implies env_ok(
                #[trigger] self.spec_pending()[p],
                self.spec_now(),
                self.spec_next_seq(),
            ) && has_sent_witness(self.spec_history(), self.spec_pending()[p]) by {
                assert(env_ok(mid.spec_pending()[p], mid.spec_now(), mid.spec_next_seq()));
                assert(has_sent_witness(h1, mid.spec_pending()[p]));
            }
            // the new receipt record: its sequence number is issued and
            // fresh among receipts, and an earlier send justifies it
            assert(env_ok(env, mid.spec_now(), mid.spec_next_seq()));
            assert(has_sent_witness(pre.spec_history(), env));
            let w = choose|j: int|
                0 <= j < pre.spec_history().len() && is_sent_of(
                    pre.spec_history()[j],
                    env.seq@,
                    env.sender,
                    env.target,
                    env.message@,
                    env.delay,
                    env.sent_at,
                );
            assert(self.spec_history()[w] == pre.spec_history()[w]);
            assert(sent_matches_recv(
                self.spec_history()[w],
                env.seq@,
                env.sender,
                env.target,
                env.message@,
                env.deliver_at,
            ));
            assert forall|k: int|
                0 <= k < self.spec_history().len() implies recv_justified(
                self.spec_history(),
                k,
            ) by {
                if k < h1.len() {
                    assert(recv_justified(h1, k));
                } else {
                    assert(self.spec_history()[k] == rev);
                    assert(recv_justified(self.spec_history(), k));
                }
            }
            // sequence bookkeeping: the envelope left the pending pool, so
            // its number is fresh among receipts and absent from the pool
            assert(seqs_ok(self.spec_history(), self.spec_pending(), self.spec_next_seq())) by {
                assert forall|j: int, k: int|
                    0 <= j < k < self.spec_history().len() && (self.spec_history()[j] is Received)
                        && (self.spec_history()[k] is Received) implies spec_event_seq(
                    #[trigger] self.spec_history()[j],
                ) != spec_event_seq(#[trigger] self.spec_history()[k]) by {
                    if k < h1.len() {
                        assert(spec_event_seq(h1[j]) != spec_event_seq(h1[k]));
                    } else {
                        assert(self.spec_history()[k] == rev);
                        assert(spec_event_seq(pre.spec_history()[j]) != pre.spec_pending()[
                            d as int
                        ].seq@);
                    }
                }
                assert forall|j: int, p: int|
                    0 <= j < self.spec_history().len() && (self.spec_history()[j] is Received) && 0
                        <= p < self.spec_pending().len() implies spec_event_seq(
                    #[trigger] self.spec_history()[j],
                ) != (#[trigger] self.spec_pending()[p]).seq@ by {
                    if j < h1.len() {
                        assert(spec_event_seq(h1[j]) != mid.spec_pending()[p].seq@);
                    } else {
                        assert(self.spec_history()[j] == rev);
                        assert(mid.spec_pending()[p].seq@ != pre.spec_pending()[d as int].seq@);
                    }
                }
            }
            assert forall|i: int|
                0 <= i < self.spec_nodes().len() && (#[trigger] self.spec_nodes()[i]).node.enqueues()
                    implies serialized(self.spec_history(), i, self.spec_nodes()[i].busy_until) by {
                assert(self.spec_nodes()[i] == mid.spec_nodes()[i]);
                assert(serialized(h1, i, mid.spec_nodes()[i].busy_until));
            }
            // every recorded send stays accounted for: the delivered one by
            // the new receipt record, every other by what accounted for it
            // before
            assert forall|j: int|
                0 <= j < self.spec_history().len() && ((#[trigger] self.spec_history()[j]) is Sent)
                    implies seq_accounted(
                self.spec_history(),
                self.spec_pending(),
                spec_event_seq(self.spec_history()[j]),
            ) by {
                assert(j < h1.len());
                assert(self.spec_history()[j] == h1[j]);
                assert(mid.spec_history()[j] == h1[j]);
                let s = spec_event_seq(h1[j]);
                if s == env.seq@ {
                    assert((self.spec_history()[h1.len() as int] is Received) && spec_event_seq(
                        self.spec_history()[h1.len() as int],
                    ) == s);
                } else {
                    assert(seq_accounted(mid.spec_history(), mid.spec_pending(), s));
                    lemma_accounted_grow(
                        mid.spec_history(),
                        self.spec_history(),
                        mid.spec_pending(),
                        self.spec_pending(),
                        s,
                    );
                }
            }
        }
        if delivered {
            let t = env.target as usize;
            let ghost before_recv = *self;
            let actions = self.nodes[t].node.receive(env.sender, env.message);
            proof {
                Self::lemma_wf_node_update(before_recv, *self, t as int);
            }
            if !self.nodes[t].node.enqueues_mail() {
                let start = self.now;
                let end = self.apply_actions(env.target, actions, start);
                let hev = Event::Handled {
                    ident: env.target,
                    sender: env.sender,
                    message: handled_text,
                    start,
                    end,
                };
                let ghost h2 = self.history@;
                let ghost pre_h = *self;
                self.history.push(hev);
                proof {
                    lemma_push_preserves(h2, hev);
                    Self::lemma_accounting_preserved(pre_h, *self);
                    assert forall|j: int|
                        h1.len() <= j < self.spec_history().len() && ((
                    #[trigger] self.spec_history()[j]) is Sent) implies spec_sent_sender(
                        self.spec_history()[j],
                    ) == env.target by {
                        if j < h2.len() {
                            assert(self.spec_history()[j] == h2[j]);
                        } else {
                            assert(self.spec_history()[j] == hev);
                        }
                    }
                    assert forall|i: int|
                        0 <= i < self.spec_nodes().len() implies (
                    #[trigger] self.spec_nodes()[i]).node.initialized()
                        && self.spec_nodes()[i].node.ident_of() == i by {
                        assert(self.spec_nodes()[i] == pre_h.spec_nodes()[i]);
                    }
                    assert forall|p: int|
                        0 <= p < self.spec_pending().len() implies env_ok(
                        #[trigger] self.spec_pending()[p],
                        self.spec_now(),
                        self.spec_next_seq(),
                    ) && has_sent_witness(self.spec_history(), self.spec_pending()[p]) by {
                        assert(env_ok(
                            pre_h.spec_pending()[p],
                            pre_h.spec_now(),
                            pre_h.spec_next_seq(),
                        ));
                        assert(has_sent_witness(h2, pre_h.spec_pending()[p]));
                    }
                    assert forall|k: int|
                        0 <= k < self.spec_history().len() implies recv_justified(
                        self.spec_history(),
                        k,
                    ) by {
                        if k < h2.len() {
                            assert(recv_justified(h2, k));
                        } else {
                            assert(self.spec_history()[k] == hev);
                        }
                    }
                    assert forall|i: int|
                        0 <= i < self.spec_nodes().len() && (
                    #[trigger] self.spec_nodes()[i]).node.enqueues() implies serialized(
                        self.spec_history(),
                        i,
                        self.spec_nodes()[i].busy_until,
                    ) by {
                        assert(self.spec_nodes()[i] == pre_h.spec_nodes()[i]);
                        assert(serialized(h2, i, pre_h.spec_nodes()[i].busy_until));
                        assert(!self.spec_nodes()[t as int].node.enqueues());
                        assert(!handled_for(hev, i));
                    }
                }
            }
        }
    }

    /// Lets the started node in slot `i` process its oldest mailbox entry
    /// at logical time `t` — the moment it stops being busy, which must
    /// not be later than any in-flight conveyance is due: the entry is
    /// popped, the node's handler runs over the span `t ..` its waits add
    /// up to, its actions are performed, and the span is recorded.
    fn pump_at_index(&mut self, i: usize, t: u64)
        requires
            old(self).wf(),
            old(self).pump_candidate(i as int),
            t == old(self).pump_time(i as int),
            forall|p: int|
                0 <= p < old(self).spec_pending().len() ==> (#[trigger] old(self).spec_pending()[p]).deliver_at
                    >= t,
        ensures
            final(self).wf(),
            final(self).spec_now() == t,
            final(self).spec_now() >= old(self).spec_now(),
            final(self).spec_num_nodes() == old(self).spec_num_nodes(),
            final(self).spec_default_delay() == old(self).spec_default_delay(),
            final(self).spec_history().len() > old(self).spec_history().len(),
            forall|j: int|
                0 <= j < old(self).spec_history().len() ==> final(self).spec_history()[j] == old(
                    self,
                ).spec_history()[j],
            final(self).spec_nodes()[i as int].node.inbox() == old(self).spec_nodes()[
                i as int
            ].node.inbox().drop_first(),
            is_handled_of(
                final(self).spec_history()[final(self).spec_history().len() - 1],
                i as i32,
                old(self).spec_nodes()[i as int].node.inbox()[0].0,
                old(self).spec_nodes()[i as int].node.inbox()[0].1@,
                t,
                final(self).spec_nodes()[i as int].busy_until,
            ),
            forall|j: int|
                old(self).spec_history().len() <= j < final(self).spec_history().len() && ((
                #[trigger] final(self).spec_history()[j]) is Sent) ==> spec_sent_sender(
                    final(self).spec_history()[j],
                ) == i as i32,
    {
        let ghost pre = *self;
        self.now = t;
        proof {
            Self::lemma_accounting_preserved(pre, *self);
            assert forall|p: int|
                0 <= p < self.spec_pending().len() implies env_ok(
                #[trigger] self.spec_pending()[p],
                self.spec_now(),
                self.spec_next_seq(),
            ) && has_sent_witness(self.spec_history(), self.spec_pending()[p]) by {
                assert(env_ok(pre.spec_pending()[p], pre.spec_now(), pre.spec_next_seq()));
                assert(has_sent_witness(pre.spec_history(), pre.spec_pending()[p]));
            }
            assert forall|j: int|
                0 <= j < self.spec_nodes().len() implies (#[trigger] self.spec_nodes()[j]).node.initialized()
                && self.spec_nodes()[j].node.ident_of() == j by {
                assert(self.spec_nodes()[j] == pre.spec_nodes()[j]);
            }
            assert forall|j: int|
                0 <= j < self.spec_nodes().len() && (#[trigger] self.spec_nodes()[j]).node.enqueues()
                    implies serialized(self.spec_history(), j, self.spec_nodes()[j].busy_until) by {
                assert(self.spec_nodes()[j] == pre.spec_nodes()[j]);
                assert(serialized(pre.spec_history(), j, pre.spec_nodes()[j].busy_until));
            }
        }
        let ghost at_now = *self;
        let popped = self.nodes[i].node.take_next();
        proof {
            Self::lemma_wf_node_update(at_now, *self, i as int);
        }
        if let Some(pair) = popped {
            let (sender, msg) = pair;
            let text = msg.message.clone();
            let mut detail = String::from_str("from ");
            detail.append(i32_to_string(sender).as_str());
            detail.append(": ");
            detail.append(text.as_str());
            self.log(i as i32, "handle", detail.as_str());
            let ghost before_handle = *self;
            let actions = self.nodes[i].node.handle(sender, msg);
            proof {
                Self::lemma_wf_node_update(before_handle, *self, i as int);
            }
            let end = self.apply_actions(i as i32, actions, t);
            let ghost before_busy = *self;
            self.nodes[i].busy_until = end;
            proof {
                Self::lemma_accounting_preserved(before_busy, *self);
                assert forall|j: int|
                    0 <= j < self.spec_nodes().len() implies (#[trigger] self.spec_nodes()[j]).node.initialized()
                    && self.spec_nodes()[j].node.ident_of() == j by {
                    if j != i {
                        assert(self.spec_nodes()[j] == before_busy.spec_nodes()[j]);
                    }
                }
                assert forall|p: int|
                    0 <= p < self.spec_pending().len() implies env_ok(
                    #[trigger] self.spec_pending()[p],
                    self.spec_now(),
                    self.spec_next_seq(),
                ) && has_sent_witness(self.spec_history(), self.spec_pending()[p]) by {
                    assert(env_ok(
                        before_busy.spec_pending()[p],
                        before_busy.spec_now(),
                        before_busy.spec_next_seq(),
                    ));
                    assert(has_sent_witness(before_busy.spec_history(), before_busy.spec_pending()[p]));
                }
                assert forall|j: int|
                    0 <= j < self.spec_nodes().len() && (#[trigger] self.spec_nodes()[j]).node.enqueues()
                        implies serialized(self.spec_history(), j, self.spec_nodes()[j].busy_until) by {
                    if j != i {
                        assert(self.spec_nodes()[j] == before_busy.spec_nodes()[j]);
                        assert(serialized(
                            before_busy.spec_history(),
                            j,
                            before_busy.spec_nodes()[j].busy_until,
                        ));
                    } else {
                        assert(serialized(
                            before_busy.spec_history(),
                            i as int,
                            pre.spec_nodes()[i as int].busy_until,
                        ));
                        assert(pre.spec_nodes()[i as int].busy_until <= t <= end);
                        assert forall|k: int|
                            0 <= k < self.spec_history().len() && handled_for(
                                self.spec_history()[k],
                                i as int,
                            ) implies spec_handled_start(self.spec_history()[k]) <= spec_handled_end(
                            self.spec_history()[k],
                        ) <= end by {
                            assert(spec_handled_end(self.spec_history()[k]) <= pre.spec_nodes()[
                                i as int
                            ].busy_until);
                        }
                    }
                }
            }
            let hev = Event::Handled { ident: i as i32, sender, message: text, start: t, end };
            let ghost h2 = self.history@;
            let ghost pre_h = *self;
            self.history.push(hev);
            proof {
                lemma_push_preserves(h2, hev);
                Self::lemma_accounting_preserved(pre_h, *self);
                assert forall|j: int|
                    old(self).spec_history().len() <= j < self.spec_history().len() && ((
                #[trigger] self.spec_history()[j]) is Sent) implies spec_sent_sender(
                    self.spec_history()[j],
                ) == i as i32 by {
                    if j < h2.len() {
                        assert(self.spec_history()[j] == h2[j]);
                    } else {
                        assert(self.spec_history()[j] == hev);
                    }
                }
                assert forall|j: int|
                    0 <= j < self.spec_nodes().len() implies (#[trigger] self.spec_nodes()[j]).node.initialized()
                    && self.spec_nodes()[j].node.ident_of() == j by {
                    assert(self.spec_nodes()[j] == pre_h.spec_nodes()[j]);
                }
                assert forall|p: int|
                    0 <= p < self.spec_pending().len() implies env_ok(
                    #[trigger] self.spec_pending()[p],
                    self.spec_now(),
                    self.spec_next_seq(),
                ) && has_sent_witness(self.spec_history(), self.spec_pending()[p]) by {
                    assert(env_ok(pre_h.spec_pending()[p], pre_h.spec_now(), pre_h.spec_next_seq()));
                    assert(has_sent_witness(h2, pre_h.spec_pending()[p]));
                }
                assert forall|k: int|
                    0 <= k < self.spec_history().len() implies recv_justified(
                    self.spec_history(),
                    k,
                ) by {
                    if k < h2.len() {
                        assert(recv_justified(h2, k));
                    } else {
                        assert(self.spec_history()[k] == hev);
                    }
                }
                assert forall|j: int|
                    0 <= j < self.spec_nodes().len() && (#[trigger] self.spec_nodes()[j]).node.enqueues()
                        implies serialized(self.spec_history(), j, self.spec_nodes()[j].busy_until)
                    by {
                    assert(self.spec_nodes()[j] == pre_h.spec_nodes()[j]);
                    assert(serialized(h2, j, pre_h.spec_nodes()[j].busy_until));
                    if j != i {
                        assert(!handled_for(hev, j));
                    } else {
                        assert forall|a: int, b: int|
                            0 <= a < b < self.spec_history().len() && handled_for(
                                self.spec_history()[a],
                                j,
                            ) && handled_for(self.spec_history()[b], j) implies spec_handled_end(
                            self.spec_history()[a],
                        ) <= spec_handled_start(self.spec_history()[b]) by {
                            if b < h2.len() {
                                assert(self.spec_history()[a] == h2[a]);
                                assert(self.spec_history()[b] == h2[b]);
                            } else {
                                assert(self.spec_history()[b] == hev);
                                assert(self.spec_history()[a] == h2[a]);
                                assert(spec_handled_end(h2[a]) <= pre.spec_nodes()[
                                    i as int
                                ].busy_until);
                                assert(pre.spec_nodes()[i as int].busy_until <= t);
                            }
                        }
                    }
                }
            }
        } else {
            proof {
                assert(false);
            }
        }
    }

    /// Performs the next due piece of work, if any: the earliest mailbox
    /// pump or in-flight conveyance, whichever comes first on the virtual
    /// clock — a pump at the same instant goes first, and ties beyond that
    /// fall to slot order and insertion order.  Returns whether anything
    /// was done — and then the work is named: either an in-flight
    /// conveyance came due and its receipt was recorded, or a started
    /// node's oldest mailbox entry was popped and handled.  Once nothing
    /// is done, the network is quiescent.
    pub fn step(&mut self) -> (progressed: bool)
        requires
            old(self).wf(),
        ensures
            final(self).wf(),
            final(self).spec_now() >= old(self).spec_now(),
            final(self).spec_num_nodes() == old(self).spec_num_nodes(),
            final(self).spec_default_delay() == old(self).spec_default_delay(),
            final(self).spec_history().len() >= old(self).spec_history().len(),
            forall|j: int|
                0 <= j < old(self).spec_history().len() ==> final(self).spec_history()[j] == old(
                    self,
                ).spec_history()[j],
            !progressed ==> *final(self) == *old(self),
            !progressed ==> final(self).spec_pending().len() == 0 && (forall|i: int|
                !final(self).pump_candidate(i)),
            progressed ==> final(self).spec_history().len() > old(self).spec_history().len(),
            progressed ==> ((exists|q: int|
                0 <= q < old(self).spec_pending().len() && is_received_of(
                    final(self).spec_history()[old(self).spec_history().len() as int],
                    (#[trigger] old(self).spec_pending()[q]).seq@,
                    old(self).spec_pending()[q].sender,
                    old(self).spec_pending()[q].target,
                    old(self).spec_pending()[q].message@,
                    0 <= old(self).spec_pending()[q].target < old(self).spec_num_nodes(),
                    old(self).spec_pending()[q].deliver_at,
                )) || (exists|i: int|
                #[trigger] old(self).pump_candidate(i) && is_handled_of(
                    final(self).spec_history()[final(self).spec_history().len() - 1],
                    i as i32,
                    old(self).spec_nodes()[i].node.inbox()[0].0,
                    old(self).spec_nodes()[i].node.inbox()[0].1@,
                    old(self).pump_time(i),
                    final(self).spec_nodes()[i].busy_until,
                ) && final(self).spec_nodes()[i].node.inbox() == old(self).spec_nodes()[
                    i
                ].node.inbox().drop_first())),
    {
        let del = self.next_delivery();
        let pmp = self.next_pump();
        match (pmp, del) {
            (None, None) => false,
            (Some(pair), None) => {
                self.pump_at_index(pair.0, pair.1);
                proof {
                    assert(old(self).pump_candidate(pair.0 as int));
                }
                true
            },
            (None, Some(d)) => {
                self.deliver_at_index(d);
                proof {
                    assert(0 <= d < old(self).spec_pending().len());
                }
                true
            },
            (Some(pair), Some(d)) => {
                if pair.1 <= self.pending[d].deliver_at {
                    self.pump_at_index(pair.0, pair.1);
                    proof {
                        assert(old(self).pump_candidate(pair.0 as int));
                    }
                } else {
                    self.deliver_at_index(d);
                    proof {
                        assert(0 <= d < old(self).spec_pending().len());
                    }
                }
                true
            },
        }
    }

    /// Steps the simulation until it is quiescent — no conveyance in
    /// flight and no queued mail at any started node — or until
    /// `max_steps` pieces of work have been performed.  Returns whether
    /// quiescence was reached.
    pub fn run_until_idle(&mut self, max_steps: u64) -> (idle: bool)
        requires
            old(self).wf(),
        ensures
            final(self).wf(),
            final(self).spec_now() >= old(self).spec_now(),
            final(self).spec_num_nodes() == old(self).spec_num_nodes(),
            final(self).spec_default_delay() == old(self).spec_default_delay(),
            final(self).spec_history().len() >= old(self).spec_history().len(),
            forall|j: int|
                0 <= j < old(self).spec_history().len() ==> final(self).spec_history()[j] == old(
                    self,
                ).spec_history()[j],
            idle ==> final(self).spec_pending().len() == 0 && (forall|i: int|
                !final(self).pump_candidate(i)),
            !idle ==> final(self).spec_history().len() >= old(self).spec_history().len()
                + max_steps,
    {
        let mut k: u64 = 0;
        while k < max_steps
            invariant
                self.wf(),
                0 <= k <= max_steps,
                self.spec_now() >= old(self).spec_now(),
                self.spec_num_nodes() == old(self).spec_num_nodes(),
                self.spec_default_delay() == old(self).spec_default_delay(),
                self.spec_history().len() >= old(self).spec_history().len() + k,
                forall|j: int|
                    0 <= j < old(self).spec_history().len() ==> self.spec_history()[j] == old(
                        self,
                    ).spec_history()[j],
            decreases max_steps - k,
        {
            if !self.step() {
                return true;
            }
            k = k + 1;
        }
        false
    }

    /// For all nodes registered in order, the identity equals the 0-based
    /// registration index; and since every operation keeps the network
    /// well formed and only appends to the registry, an identity never
    /// changes once assigned.
    pub proof fn lemma_identity_is_registration_index(&self, i: int)
        requires
            self.wf(),
            0 <= i < self.spec_num_nodes(),
        ensures
            self.spec_nodes()[i].node.ident_of() == i,
    {
    }

    /// A mailbox-backed node never has two overlapping handler
    /// invocations: of any two handler spans recorded for it, the one
    /// recorded earlier ends no later than the other begins.
    pub proof fn lemma_serialized_handling(&self, ident: int, j: int, k: int)
        requires
            self.wf(),
            0 <= ident < self.spec_num_nodes(),
            self.spec_nodes()[ident].node.enqueues(),
            0 <= j < k < self.spec_history().len(),
            handled_for(self.spec_history()[j], ident),
            handled_for(self.spec_history()[k], ident),
        ensures
            spec_handled_start(self.spec_history()[j]) <= spec_handled_end(self.spec_history()[j]),
            spec_handled_end(self.spec_history()[j]) <= spec_handled_start(self.spec_history()[k]),
    {
    }

    /// For any message sent with delay `d`, the recorded receive happens
    /// at a logical time at least `d` units after the recorded send, for
    /// that one message, regardless of other concurrent traffic.
    pub proof fn lemma_receive_respects_delay(&self, k: int)
        requires
            self.wf(),
            0 <= k < self.spec_history().len(),
        ensures
            self.spec_history()[k] matches Event::Received {
                seq,
                sender,
                target,
                message,
                delivered: _,
                time,
            } ==> exists|j: int|
                0 <= j < k && sent_matches_recv(
                    #[trigger] self.spec_history()[j],
                    seq@,
                    sender,
                    target,
                    message@,
                    time,
                ),
    {
        assert(recv_justified(self.spec_history(), k));
    }

    /// Once the network is quiescent, every recorded send has been
    /// received: nothing is in flight any more, so each conveyance's
    /// receipt stands in the history.
    pub proof fn lemma_every_send_received_when_idle(&self, j: int)
        requires
            self.wf(),
            self.spec_pending().len() == 0,
            0 <= j < self.spec_history().len(),
            self.spec_history()[j] is Sent,
        ensures
            exists|k: int|
                0 <= k < self.spec_history().len() && ((#[trigger] self.spec_history()[k])
                    is Received) && spec_event_seq(self.spec_history()[k]) == spec_event_seq(
                    self.spec_history()[j],
                ),
    {
        assert(seq_accounted(
            self.spec_history(),
            self.spec_pending(),
            spec_event_seq(self.spec_history()[j]),
        ));
    }

    /// No conveyance is ever delivered twice: any two receive records in
    /// the history answer to different sends.  Together with the exact
    /// count a broadcast schedules, a broadcast from a registered node in
    /// an `N`-node network yields exactly `N - 1` deliveries, one per
    /// other node.
    pub proof fn lemma_at_most_one_delivery(&self, j: int, k: int)
        requires
            self.wf(),
            0 <= j < k < self.spec_history().len(),
            self.spec_history()[j] is Received,
            self.spec_history()[k] is Received,
        ensures
            spec_event_seq(self.spec_history()[j]) != spec_event_seq(self.spec_history()[k]),
    {
    }

    /// A started node's run loop really was invoked, exactly once: its
    /// slot's started flag coincides with the node being `running()`,
    /// which only the one permitted `run` invocation can establish — and
    /// `start_node` is a proven no-op on a node already started.
    pub proof fn lemma_started_means_run_invoked(&self, i: int)
        requires
            self.wf(),
            0 <= i < self.spec_num_nodes(),
        ensures
            self.spec_nodes()[i].started == self.spec_nodes()[i].node.running(),
    {
    }

    /// A handler span is only ever recorded for a registered node: a
    /// message sent to an identity no node holds is dropped at its
    /// receipt, without an error and without any handler running anywhere
    /// in the network.
    pub proof fn lemma_no_handling_without_node(&self, j: int)
        requires
            self.wf(),
            0 <= j < self.spec_history().len(),
            self.spec_history()[j] is Handled,
        ensures
            0 <= spec_handled_ident(self.spec_history()[j]) < self.spec_num_nodes(),
    {
    }
}

/// The mailbox slot a broadcast from `sender` uses to reach identity `m`.
pub open spec fn spec_broadcast_slot(sender: int, m: int) -> int {
    if m < sender {
        m
    } else {
        m - 1
    }
}

/// A broadcast from a registered `sender` in an `n`-node network
/// schedules exactly `n - 1` conveyances: no target is the sender, every
/// target is a registered identity, no two conveyances share a target,
/// and every other registered identity is reached by exactly one of them.
pub proof fn lemma_broadcast_covers(n: int, sender: int)
    requires
        0 <= sender < n,
    ensures
        spec_broadcast_count(n, sender) == n - 1,
        forall|k: int|
            0 <= k < n - 1 ==> #[trigger] spec_broadcast_target(sender, k) != sender && 0
                <= spec_broadcast_target(sender, k) < n,
        forall|k1: int, k2: int|
            0 <= k1 < k2 < n - 1 ==> spec_broadcast_target(sender, k1) != spec_broadcast_target(
                sender,
                k2,
            ),
        forall|m: int|
            0 <= m < n && m != sender ==> 0 <= #[trigger] spec_broadcast_slot(sender, m) < n - 1
                && spec_broadcast_target(sender, spec_broadcast_slot(sender, m)) == m,
{
}

} // verus!
