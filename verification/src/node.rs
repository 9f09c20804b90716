//! The built-in node variants: the baseline no-op reactor and the
//! mailbox-backed, strictly serialized reactor.

use std::collections::VecDeque;
use vstd::prelude::*;

use crate::message::MessageString;
use crate::network::{Action, NetworkHandle, NetworkInfo, Node};
use crate::numerals::{dec_signed, i32_to_string};

verus! {

/// The text of a node-level receive detail: the sender, then the
/// message's text.
pub open spec fn from_detail_text(sender: int, message: Seq<char>) -> Seq<char> {
    "from "@ + dec_signed(sender) + ": "@ + message
}

/// Renders a node-level receive detail: the sender and the message text.
fn render_from(sender: i32, message: &MessageString) -> (r: String)
    ensures
        r@ == from_detail_text(sender as int, message@),
{
    let mut detail = String::from_str("from ");
    detail.append(i32_to_string(sender).as_str());
    detail.append(": ");
    detail.append(message.message.as_str());
    proof {
        reveal_strlit("from ");
        reveal_strlit(": ");
        assert(detail@ =~= from_detail_text(sender as int, message@));
    }
    detail
}

/// The baseline, do-nothing node: its handler only records the receipt,
/// and its run loop records its start and returns at once.
pub struct PassiveNode {
    id: i32,
    network: Option<NetworkHandle>,
    running: bool,
}

impl PassiveNode {
    /// Creates an uninitialized passive node.
    pub fn new() -> (r: Self)
        ensures
            !r.initialized(),
    {
        PassiveNode { id: 0, network: None, running: false }
    }

    /// Records that the run loop was invoked, for a node variant that
    /// embeds this one and supplies a run loop of its own.
    pub(crate) fn mark_running(&mut self)
        ensures
            final(self).running(),
            final(self).initialized() == old(self).initialized(),
            final(self).ident_of() == old(self).ident_of(),
            final(self).handle_of() == old(self).handle_of(),
    {
        self.running = true;
    }
}

impl Node for PassiveNode {
    closed spec fn initialized(&self) -> bool {
        self.network is Some
    }

    closed spec fn running(&self) -> bool {
        self.running
    }

    closed spec fn ident_of(&self) -> int {
        self.id as int
    }

    closed spec fn handle_of(&self) -> NetworkHandle {
        match self.network {
            Some(h) => h,
            None => NetworkHandle { index: 0 },
        }
    }

    open spec fn enqueues(&self) -> bool {
        false
    }

    open spec fn inbox(&self) -> Seq<(i32, MessageString)> {
        Seq::empty()
    }

    fn initialize(&mut self, ident: i32, network: NetworkHandle) {
        self.id = ident;
        self.network = Some(network);
        self.running = false;
    }

    fn ident(&self) -> (r: i32) {
        self.id
    }

    fn network(&self) -> (h: NetworkHandle) {
        match self.network {
            Some(h) => h,
            None => NetworkHandle { index: 0 },
        }
    }

    fn has_mail(&self) -> (r: bool) {
        false
    }

    fn enqueues_mail(&self) -> (r: bool) {
        false
    }

    fn take_next(&mut self) -> (r: Option<(i32, MessageString)>) {
        None
    }

    fn receive(&mut self, sender: i32, message: MessageString) -> (actions: Vec<Action>)
        ensures
            actions@.len() == 1,
            (actions@[0] matches Action::Log { event, detail } && event@ == "RECEIVE"@ && detail@
                == from_detail_text(sender as int, message@)),
    {
        self.handle(sender, message)
    }

    fn handle(&mut self, sender: i32, message: MessageString) -> (actions: Vec<Action>)
        ensures
            actions@.len() == 1,
            (actions@[0] matches Action::Log { event, detail } && event@ == "RECEIVE"@ && detail@
                == from_detail_text(sender as int, message@)),
    {
        let detail = render_from(sender, &message);
        let mut actions: Vec<Action> = Vec::new();
        actions.push(Action::Log { event: String::from_str("RECEIVE"), detail });
        actions
    }

    fn run(&mut self, _info: &NetworkInfo) -> (actions: Vec<Action>)
        ensures
            actions@.len() == 1,
            (actions@[0] matches Action::Log { event, detail } && event@ == "RUN"@ && detail@
                == "passive node"@),
    {
        self.running = true;
        let mut actions: Vec<Action> = Vec::new();
        actions.push(
            Action::Log {
                event: String::from_str("RUN"),
                detail: String::from_str("passive node"),
            },
        );
        actions
    }
}

/// A node that processes messages strictly one at a time: its receipts go
/// into a first-in-first-out mailbox, which only its own run loop drains,
/// one entry per handler invocation.
pub struct SequentialNode {
    ident: i32,
    network: Option<NetworkHandle>,
    mailbox: VecDeque<(i32, MessageString)>,
    running: bool,
}

impl SequentialNode {
    /// Creates an uninitialized sequential node with an empty mailbox.
    pub fn new() -> (r: Self)
        ensures
            !r.initialized(),
            r.inbox().len() == 0,
    {
        SequentialNode { ident: 0, network: None, mailbox: VecDeque::new(), running: false }
    }

    /// Records that the run loop was invoked, for a node variant that
    /// embeds this one and supplies a run loop of its own.
    pub(crate) fn mark_running(&mut self)
        ensures
            final(self).running(),
            final(self).initialized() == old(self).initialized(),
            final(self).ident_of() == old(self).ident_of(),
            final(self).handle_of() == old(self).handle_of(),
            final(self).inbox() == old(self).inbox(),
    {
        self.running = true;
    }
}

impl Default for SequentialNode {
    fn default() -> (r: Self)
        ensures
            !r.initialized(),
            r.inbox().len() == 0,
    {
        SequentialNode::new()
    }
}

impl Node for SequentialNode {
    closed spec fn initialized(&self) -> bool {
        self.network is Some
    }

    closed spec fn running(&self) -> bool {
        self.running
    }

    closed spec fn ident_of(&self) -> int {
        self.ident as int
    }

    closed spec fn handle_of(&self) -> NetworkHandle {
        match self.network {
            Some(h) => h,
            None => NetworkHandle { index: 0 },
        }
    }

    open spec fn enqueues(&self) -> bool {
        true
    }

    closed spec fn inbox(&self) -> Seq<(i32, MessageString)> {
        self.mailbox@
    }

    fn initialize(&mut self, ident: i32, network: NetworkHandle) {
        self.ident = ident;
        self.network = Some(network);
        self.running = false;
    }

    fn ident(&self) -> (r: i32) {
        self.ident
    }

    fn network(&self) -> (h: NetworkHandle) {
        match self.network {
            Some(h) => h,
            None => NetworkHandle { index: 0 },
        }
    }

    fn has_mail(&self) -> (r: bool) {
        self.mailbox.len() > 0
    }

    fn enqueues_mail(&self) -> (r: bool) {
        true
    }

    fn take_next(&mut self) -> (r: Option<(i32, MessageString)>) {
        let r = self.mailbox.pop_front();
        proof {
            if old(self).mailbox@.len() > 0 {
                assert(self.mailbox@ =~= old(self).mailbox@.drop_first());
            }
        }
        r
    }

    fn receive(&mut self, sender: i32, message: MessageString) -> (actions: Vec<Action>) {
        self.mailbox.push_back((sender, message));
        Vec::new()
    }

    fn handle(&mut self, _sender: i32, _message: MessageString) -> (actions: Vec<Action>)
        ensures
            actions@.len() == 0,
    {
        Vec::new()
    }

    fn run(&mut self, _info: &NetworkInfo) -> (actions: Vec<Action>)
        ensures
            actions@.len() == 0,
    {
        self.running = true;
        Vec::new()
    }
}

} // verus!
