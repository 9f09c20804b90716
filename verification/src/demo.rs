//! The ping/pong demonstration protocol: a ping node greets every node
//! once it starts, and pong nodes answer each ping, after a little
//! simulated work, with a pong carrying the same payload.

use vstd::prelude::*;

use crate::message::{MessageString, PayloadMessage};
use crate::network::{Action, NetworkHandle, NetworkInfo, Node};
use crate::node::{PassiveNode, SequentialNode};
use crate::numerals::{
    dec_signed, i32_to_string, parse_u64, signed_dec_value, signed_digits_ok,
};

verus! {

/// The text of a ping carrying `v`.
pub open spec fn ping_text(v: int) -> Seq<char> {
    "Ping("@ + dec_signed(v) + ")"@
}

/// The text of a pong carrying `v`.
pub open spec fn pong_text(v: int) -> Seq<char> {
    "Pong("@ + dec_signed(v) + ")"@
}

/// Whether `s` is the text of a ping whose payload — an optional minus
/// sign, then digits — fits an `i32`.
pub open spec fn ping_payload_ok(s: Seq<char>) -> bool {
    &&& s.len() >= 7
    &&& s.subrange(0, 5) == "Ping("@
    &&& s.last() == ')'
    &&& signed_digits_ok(s.subrange(5, s.len() - 1))
    &&& i32::MIN <= signed_dec_value(s.subrange(5, s.len() - 1)) <= i32::MAX
}

/// A ping message.
#[derive(Debug, Clone, PartialEq, Eq)]
pub struct Ping<T>(pub PayloadMessage<T>);

impl<T> Ping<T> {
    /// The payload this ping carries.
    pub open spec fn spec_payload(&self) -> T {
        self.0.spec_payload()
    }

    /// Wraps a payload in a ping.
    pub fn new(payload: T) -> (r: Self)
        ensures
            r.spec_payload() == payload,
    {
        Ping(PayloadMessage::new(payload))
    }

    /// The payload this ping carries.
    pub fn payload(&self) -> (r: &T)
        ensures
            *r == self.spec_payload(),
    {
        self.0.payload()
    }
}

impl Ping<i32> {
    /// Renders this ping as text.
    pub fn to_string(&self) -> (s: String)
        ensures
            s@ == ping_text(self.spec_payload() as int),
    {
        let mut s = String::from_str("Ping(");
        s.append(i32_to_string(*self.payload()).as_str());
        s.append(")");
        proof {
            reveal_strlit("Ping(");
            reveal_strlit(")");
            assert(s@ =~= ping_text(self.spec_payload() as int));
        }
        s
    }

    /// Reads a ping back out of its text, minus sign and all.
    pub fn from_str(s: &str) -> (r: Option<Ping<i32>>)
        ensures
            r is Some <==> ping_payload_ok(s@),
            r matches Some(p) ==> p.spec_payload() == signed_dec_value(
                s@.subrange(5, s@.len() - 1),
            ),
    {
        proof {
            reveal_strlit("Ping(");
        }
        let n = s.unicode_len();
        if n < 7 {
            return None;
        }
        if !(s.get_char(0) == 'P' && s.get_char(1) == 'i' && s.get_char(2) == 'n' && s.get_char(3)
            == 'g' && s.get_char(4) == '(' && s.get_char(n - 1) == ')') {
            proof {
                assert("Ping("@ =~= seq!['P', 'i', 'n', 'g', '(']);
                if s@.subrange(0, 5) == "Ping("@ {
                    assert(s@[0] == 'P' && s@[1] == 'i' && s@[2] == 'n' && s@[3] == 'g' && s@[4]
                        == '(') by {
                        assert(s@.subrange(0, 5)[0] == s@[0]);
                        assert(s@.subrange(0, 5)[1] == s@[1]);
                        assert(s@.subrange(0, 5)[2] == s@[2]);
                        assert(s@.subrange(0, 5)[3] == s@[3]);
                        assert(s@.subrange(0, 5)[4] == s@[4]);
                    }
                }
            }
            return None;
        }
        proof {
            assert("Ping("@ =~= seq!['P', 'i', 'n', 'g', '(']);
            assert(s@.subrange(0, 5) =~= "Ping("@);
        }
        let ghost middle = s@.subrange(5, s@.len() - 1);
        if s.get_char(5) == '-' {
            proof {
                assert(middle[0] == '-');
            }
            if n < 8 {
                return None;
            }
            let digits = s.substring_char(6, n - 1);
            proof {
                assert(digits@ =~= middle.drop_first());
            }
            match parse_u64(digits) {
                Some(v) => {
                    if v <= 2147483648u64 {
                        let payload: i32 = (-(v as i64)) as i32;
                        Some(Ping::new(payload))
                    } else {
                        None
                    }
                },
                None => None,
            }
        } else {
            proof {
                assert(middle.len() > 0 && middle[0] != '-');
            }
            let digits = s.substring_char(5, n - 1);
            proof {
                assert(digits@ =~= middle);
            }
            match parse_u64(digits) {
                Some(v) => {
                    if v <= i32::MAX as u64 {
                        Some(Ping::new(v as i32))
                    } else {
                        None
                    }
                },
                None => None,
            }
        }
    }
}

/// A pong message.
#[derive(Debug, Clone, PartialEq, Eq)]
pub struct Pong<T>(pub PayloadMessage<T>);

impl<T> Pong<T> {
    /// The payload this pong carries.
    pub open spec fn spec_payload(&self) -> T {
        self.0.spec_payload()
    }

    /// Wraps a payload in a pong.
    pub fn new(payload: T) -> (r: Self)
        ensures
            r.spec_payload() == payload,
    {
        Pong(PayloadMessage::new(payload))
    }

    /// The payload this pong carries.
    pub fn payload(&self) -> (r: &T)
        ensures
            *r == self.spec_payload(),
    {
        self.0.payload()
    }
}

impl Pong<i32> {
    /// Renders this pong as text.
    pub fn to_string(&self) -> (s: String)
        ensures
            s@ == pong_text(self.spec_payload() as int),
    {
        let mut s = String::from_str("Pong(");
        s.append(i32_to_string(*self.payload()).as_str());
        s.append(")");
        proof {
            reveal_strlit("Pong(");
            reveal_strlit(")");
            assert(s@ =~= pong_text(self.spec_payload() as int));
        }
        s
    }
}

/// Whether a message's text opens like a ping.
pub open spec fn is_ping_text(s: Seq<char>) -> bool {
    s.len() >= 5 && s.subrange(0, 5) == "Ping("@
}

/// Whether `message` opens like a ping.
pub fn is_ping(message: &MessageString) -> (r: bool)
    ensures
        r == is_ping_text(message@),
{
    proof {
        reveal_strlit("Ping(");
        assert("Ping("@ =~= seq!['P', 'i', 'n', 'g', '(']);
    }
    let s = message.message.as_str();
    let n = s.unicode_len();
    if n < 5 {
        return false;
    }
    let r = s.get_char(0) == 'P' && s.get_char(1) == 'i' && s.get_char(2) == 'n' && s.get_char(3)
        == 'g' && s.get_char(4) == '(';
    proof {
        assert(s@.subrange(0, 5)[0] == s@[0]);
        assert(s@.subrange(0, 5)[1] == s@[1]);
        assert(s@.subrange(0, 5)[2] == s@[2]);
        assert(s@.subrange(0, 5)[3] == s@[3]);
        assert(s@.subrange(0, 5)[4] == s@[4]);
        if r {
            assert(s@.subrange(0, 5) =~= "Ping("@);
        }
    }
    r
}

/// Round trip of the ping codec: the text a ping renders to is always
/// recognized by `is_ping`, always parses, and parses back to the same
/// payload.  With the contracts of `to_string` and `from_str`, reading a
/// rendered ping always recovers it.
pub proof fn lemma_ping_text_parses(v: int)
    requires
        i32::MIN <= v <= i32::MAX,
    ensures
        is_ping_text(ping_text(v)),
        ping_payload_ok(ping_text(v)),
        signed_dec_value(ping_text(v).subrange(5, ping_text(v).len() - 1)) == v,
{
    reveal_strlit("Ping(");
    reveal_strlit(")");
    let s = ping_text(v);
    let middle = s.subrange(5, s.len() - 1);
    assert(s.subrange(0, 5) =~= "Ping("@);
    assert(middle =~= dec_signed(v));
    assert(s.last() == (")"@)[0]);
    if v >= 0 {
        crate::numerals::lemma_dec_digits_are_digits(v as nat);
        crate::numerals::lemma_dec_round_trip(v as nat);
        assert(crate::numerals::is_digit(middle[0]));
        assert(middle[0] != '-');
    } else {
        let m = (-v) as nat;
        crate::numerals::lemma_dec_digits_are_digits(m);
        crate::numerals::lemma_dec_round_trip(m);
        assert(middle[0] == '-');
        assert(middle.drop_first() =~= crate::numerals::dec_digits(m));
    }
}

/// How many identities the ping node greets in an `n`-node network: every
/// one whose identity fits the identity type.
pub open spec fn spec_ping_rounds(n: usize) -> int {
    if n > i32::MAX {
        i32::MAX as int
    } else {
        n as int
    }
}

/// Whether `actions` carries the `k`-th greeting round of the ping node's
/// run: `Ping(k)` to identity `k`, a unit of waiting, `Ping(k)` again, and
/// two more units of waiting.
pub open spec fn ping_round(actions: Seq<Action>, k: int) -> bool {
    &&& (actions[1 + 4 * k] matches Action::Send {
        target,
        message,
        delay,
    } && target == k && message@ == ping_text(k) && delay is None)
    &&& (actions[2 + 4 * k] matches Action::Wait { units } && units == 1)
    &&& (actions[3 + 4 * k] matches Action::Send {
        target,
        message,
        delay,
    } && target == k && message@ == ping_text(k) && delay is None)
    &&& (actions[4 + 4 * k] matches Action::Wait { units } && units == 2)
}

/// A node that pings every identity when it starts: for each identity in
/// turn it sends `Ping(i)` twice — at once, and again one unit later —
/// then moves on after two more units.
pub struct PingNode {
    base: PassiveNode,
}

impl PingNode {
    /// Creates an uninitialized ping node.
    pub fn new() -> (r: Self)
        ensures
            !r.initialized(),
    {
        PingNode { base: PassiveNode::new() }
    }
}

impl Node for PingNode {
    closed spec fn initialized(&self) -> bool {
        self.base.initialized()
    }

    closed spec fn running(&self) -> bool {
        self.base.running()
    }

    closed spec fn ident_of(&self) -> int {
        self.base.ident_of()
    }

    closed spec fn handle_of(&self) -> NetworkHandle {
        self.base.handle_of()
    }

    closed spec fn enqueues(&self) -> bool {
        false
    }

    closed spec fn inbox(&self) -> Seq<(i32, MessageString)> {
        Seq::empty()
    }

    fn initialize(&mut self, ident: i32, network: NetworkHandle) {
        self.base.initialize(ident, network);
    }

    fn ident(&self) -> (r: i32) {
        self.base.ident()
    }

    fn network(&self) -> (h: NetworkHandle) {
        self.base.network()
    }

    fn has_mail(&self) -> (r: bool) {
        false
    }

    fn enqueues_mail(&self) -> (r: bool) {
        false
    }

    fn take_next(&mut self) -> (r: Option<(i32, MessageString)>) {
        None
    }

    fn receive(&mut self, sender: i32, message: MessageString) -> (actions: Vec<Action>)
        ensures
            actions@.len() == 1,
            (actions@[0] matches Action::Log { event, detail } && event@ == "RECEIVE"@ && detail@
                == crate::node::from_detail_text(sender as int, message@)),
    {
        self.handle(sender, message)
    }

    fn handle(&mut self, sender: i32, message: MessageString) -> (actions: Vec<Action>)
        ensures
            actions@.len() == 1,
            (actions@[0] matches Action::Log { event, detail } && event@ == "RECEIVE"@ && detail@
                == crate::node::from_detail_text(sender as int, message@)),
    {
        self.base.handle(sender, message)
    }

    fn run(&mut self, info: &NetworkInfo) -> (actions: Vec<Action>)
        ensures
            actions@.len() == 1 + 4 * spec_ping_rounds(info.num_nodes),
            actions@[0] is Log,
            forall|k: int| 0 <= k < spec_ping_rounds(info.num_nodes) ==> ping_round(actions@, k),
    {
        self.base.mark_running();
        let mut actions: Vec<Action> = Vec::new();
        actions.push(
            Action::Log { event: String::from_str("RUN"), detail: String::from_str("ping node") },
        );
        let n = if info.num_nodes > (i32::MAX as usize) {
            i32::MAX as usize
        } else {
            info.num_nodes
        };
        let mut i: usize = 0;
        while i < n
            invariant
                0 <= i <= n <= i32::MAX,
                n == spec_ping_rounds(info.num_nodes),
                actions@.len() == 1 + 4 * i,
                actions@[0] is Log,
                forall|k: int| 0 <= k < i ==> ping_round(actions@, k),
            decreases n - i,
        {
            let ghost before = actions@;
            let ping = Ping::new(i as i32);
            actions.push(
                Action::Send {
                    target: i as i32,
                    message: MessageString::new(ping.to_string()),
                    delay: None,
                },
            );
            actions.push(Action::Wait { units: 1 });
            actions.push(
                Action::Send {
                    target: i as i32,
                    message: MessageString::new(ping.to_string()),
                    delay: None,
                },
            );
            actions.push(Action::Wait { units: 2 });
            proof {
                assert forall|k: int| 0 <= k < i + 1 implies ping_round(actions@, k) by {
                    if k < i {
                        assert(ping_round(before, k));
                        assert(actions@[1 + 4 * k] == before[1 + 4 * k]);
                        assert(actions@[2 + 4 * k] == before[2 + 4 * k]);
                        assert(actions@[3 + 4 * k] == before[3 + 4 * k]);
                        assert(actions@[4 + 4 * k] == before[4 + 4 * k]);
                    } else {
                        assert(actions@.len() == before.len() + 4);
                    }
                }
            }
            i = i + 1;
        }
        actions
    }
}

/// A node that answers pings strictly one at a time: on `Ping(v)` it
/// waits five units, then replies `Pong(v)` to the sender; anything else
/// is dropped.
pub struct PongNode {
    base: SequentialNode,
}

impl PongNode {
    /// Creates an uninitialized pong node.
    pub fn new() -> (r: Self)
        ensures
            !r.initialized(),
            r.inbox().len() == 0,
    {
        PongNode { base: SequentialNode::new() }
    }
}

impl Node for PongNode {
    closed spec fn initialized(&self) -> bool {
        self.base.initialized()
    }

    closed spec fn running(&self) -> bool {
        self.base.running()
    }

    closed spec fn ident_of(&self) -> int {
        self.base.ident_of()
    }

    closed spec fn handle_of(&self) -> NetworkHandle {
        self.base.handle_of()
    }

    closed spec fn enqueues(&self) -> bool {
        true
    }

    closed spec fn inbox(&self) -> Seq<(i32, MessageString)> {
        self.base.inbox()
    }

    fn initialize(&mut self, ident: i32, network: NetworkHandle) {
        self.base.initialize(ident, network);
    }

    fn ident(&self) -> (r: i32) {
        self.base.ident()
    }

    fn network(&self) -> (h: NetworkHandle) {
        self.base.network()
    }

    fn has_mail(&self) -> (r: bool) {
        self.base.has_mail()
    }

    fn enqueues_mail(&self) -> (r: bool) {
        true
    }

    fn take_next(&mut self) -> (r: Option<(i32, MessageString)>) {
        self.base.take_next()
    }

    fn receive(&mut self, sender: i32, message: MessageString) -> (actions: Vec<Action>) {
        let ghost entry_message = message;
        let actions = self.base.receive(sender, message);
        proof {
            assert(self.inbox() =~= old(self).inbox().push((sender, entry_message)));
        }
        actions
    }

    fn handle(&mut self, sender: i32, message: MessageString) -> (actions: Vec<Action>)
        ensures
            ping_payload_ok(message@) ==> actions@.len() == 2 && (actions@[0] matches Action::Wait {
                units,
            } && units == 5) && (actions@[1] matches Action::Send {
                target,
                message: reply,
                delay,
            } && target == sender && reply@ == pong_text(
                signed_dec_value(message@.subrange(5, message@.len() - 1)),
            ) && delay is None),
            !ping_payload_ok(message@) ==> actions@.len() == 0,
    {
        match Ping::from_str(message.message.as_str()) {
            Some(ping) => {
                let mut actions: Vec<Action> = Vec::new();
                actions.push(Action::Wait { units: 5 });
                let pong = Pong::new(*ping.payload());
                actions.push(
                    Action::Send {
                        target: sender,
                        message: MessageString::new(pong.to_string()),
                        delay: None,
                    },
                );
                actions
            },
            None => self.base.handle(sender, message),
        }
    }

    fn run(&mut self, _info: &NetworkInfo) -> (actions: Vec<Action>)
        ensures
            actions@.len() == 1,
            (actions@[0] matches Action::Log { event, detail } && event@ == "RUN"@ && detail@
                == "pong node"@),
    {
        self.base.mark_running();
        let mut actions: Vec<Action> = Vec::new();
        actions.push(
            Action::Log { event: String::from_str("RUN"), detail: String::from_str("pong node") },
        );
        actions
    }
}

/// One participant of the demonstration protocol: either the ping node or
/// a pong node, so that both kinds can share one network registry.
pub enum DemoNode {
    /// The pinging participant.
    Ping(PingNode),
    /// A ponging participant.
    Pong(PongNode),
}

impl Node for DemoNode {
    closed spec fn initialized(&self) -> bool {
        match self {
            DemoNode::Ping(p) => p.initialized(),
            DemoNode::Pong(p) => p.initialized(),
        }
    }

    closed spec fn running(&self) -> bool {
        match self {
            DemoNode::Ping(p) => p.running(),
            DemoNode::Pong(p) => p.running(),
        }
    }

    closed spec fn ident_of(&self) -> int {
        match self {
            DemoNode::Ping(p) => p.ident_of(),
            DemoNode::Pong(p) => p.ident_of(),
        }
    }

    closed spec fn handle_of(&self) -> NetworkHandle {
        match self {
            DemoNode::Ping(p) => p.handle_of(),
            DemoNode::Pong(p) => p.handle_of(),
        }
    }

    closed spec fn enqueues(&self) -> bool {
        match self {
            DemoNode::Ping(p) => p.enqueues(),
            DemoNode::Pong(p) => p.enqueues(),
        }
    }

    closed spec fn inbox(&self) -> Seq<(i32, MessageString)> {
        match self {
            DemoNode::Ping(p) => p.inbox(),
            DemoNode::Pong(p) => p.inbox(),
        }
    }

    fn initialize(&mut self, ident: i32, network: NetworkHandle) {
        match self {
            DemoNode::Ping(p) => p.initialize(ident, network),
            DemoNode::Pong(p) => p.initialize(ident, network),
        }
    }

    fn ident(&self) -> (r: i32) {
        match self {
            DemoNode::Ping(p) => p.ident(),
            DemoNode::Pong(p) => p.ident(),
        }
    }

    fn network(&self) -> (h: NetworkHandle) {
        match self {
            DemoNode::Ping(p) => p.network(),
            DemoNode::Pong(p) => p.network(),
        }
    }

    fn has_mail(&self) -> (r: bool) {
        match self {
            DemoNode::Ping(p) => p.has_mail(),
            DemoNode::Pong(p) => p.has_mail(),
        }
    }

    fn enqueues_mail(&self) -> (r: bool) {
        match self {
            DemoNode::Ping(p) => p.enqueues_mail(),
            DemoNode::Pong(p) => p.enqueues_mail(),
        }
    }

    fn take_next(&mut self) -> (r: Option<(i32, MessageString)>) {
        match self {
            DemoNode::Ping(p) => p.take_next(),
            DemoNode::Pong(p) => p.take_next(),
        }
    }

    fn receive(&mut self, sender: i32, message: MessageString) -> (actions: Vec<Action>) {
        match self {
            DemoNode::Ping(p) => p.receive(sender, message),
            DemoNode::Pong(p) => p.receive(sender, message),
        }
    }

    fn handle(&mut self, sender: i32, message: MessageString) -> (actions: Vec<Action>) {
        match self {
            DemoNode::Ping(p) => p.handle(sender, message),
            DemoNode::Pong(p) => p.handle(sender, message),
        }
    }

    fn run(&mut self, info: &NetworkInfo) -> (actions: Vec<Action>) {
        match self {
            DemoNode::Ping(p) => p.run(info),
            DemoNode::Pong(p) => p.run(info),
        }
    }
}

} // verus!
