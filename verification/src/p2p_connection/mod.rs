use vstd::prelude::*;
use std::collections::VecDeque;
use crate::text::{after_first_word, first_word, parse_u64, str_eq};
use crate::utils::munch_u64;
use crate::socket_cmd;

pub mod inner;

verus! {

/// Why a peer-to-peer connection could not be made.
#[derive(PartialEq, Eq, Structural, Clone, Copy, Debug)]
pub enum RtcConnectionError {
    PeerDoesNotExist,
    IdParsingError,
    RtcConnectionInit,
    RtcConnectionFailed,
    RtcConnectionTimeout,
    RtcChannelNeverReceived,
    OfferCreation,
    OfferSDPCreation,
    AnswerCreation,
    SetLocalDescription,
    IceConnectionFailed,
    SetRemoteDescription,
    WebSocketSend,
    CheckResponseTimeout,
    RequestP2PResponseTimeout,
    WaitAnswerTimeout,
}

/// How long (in milliseconds) each stage of a connection may take.
#[derive(Clone, Copy, Debug)]
pub struct ConnectionTimeouts {
    pub ice_gathering: u32,
    pub channel_connected: u32,
    pub answer_received: u32,
    pub socket_response: u32,
}

/// Total length of the messages whose lengths are `sizes`.
pub open spec fn sum_sizes(sizes: Seq<usize>) -> nat
    decreases sizes.len(),
{
    if sizes.len() == 0 {
        0
    } else {
        sizes[0] as nat + sum_sizes(sizes.drop_first())
    }
}

/// Cuts `bytes` into consecutive messages of the lengths in `sizes`.
pub open spec fn split_by_sizes(bytes: Seq<u8>, sizes: Seq<usize>) -> Seq<Seq<u8>>
    decreases sizes.len(),
{
    if sizes.len() == 0 {
        Seq::empty()
    } else {
        seq![bytes.take(sizes[0] as int)] + split_by_sizes(bytes.skip(sizes[0] as int), sizes.drop_first())
    }
}

proof fn lemma_push_message(bytes: Seq<u8>, sizes: Seq<usize>, msg: Seq<u8>)
    requires
        bytes.len() == sum_sizes(sizes),
        msg.len() <= usize::MAX,
    ensures
        sum_sizes(sizes.push(msg.len() as usize)) == sum_sizes(sizes) + msg.len(),
        split_by_sizes(bytes + msg, sizes.push(msg.len() as usize)) == split_by_sizes(bytes, sizes).push(msg),
    decreases sizes.len(),
{
    let s2 = sizes.push(msg.len() as usize);
    if sizes.len() == 0 {
        assert(bytes.len() == 0);
        assert(bytes + msg =~= msg);
        assert(s2.drop_first() =~= Seq::<usize>::empty());
        assert(msg.take(msg.len() as int) =~= msg);
        assert(s2[0] == msg.len() as usize);
        assert(sum_sizes(s2.drop_first()) == 0);
        assert(split_by_sizes(msg.skip(msg.len() as int), s2.drop_first()) =~= Seq::<Seq<u8>>::empty());
        assert(split_by_sizes(bytes + msg, s2) =~= seq![msg]);
        assert(split_by_sizes(bytes, sizes).push(msg) =~= seq![msg]);
    } else {
        let s0 = sizes[0] as int;
        assert(s2.drop_first() =~= sizes.drop_first().push(msg.len() as usize));
        assert(s2[0] == sizes[0]);
        assert(s0 <= bytes.len());
        assert((bytes + msg).take(s0) =~= bytes.take(s0));
        assert((bytes + msg).skip(s0) =~= bytes.skip(s0) + msg);
        lemma_push_message(bytes.skip(s0), sizes.drop_first(), msg);
        assert(split_by_sizes(bytes + msg, s2) =~= split_by_sizes(bytes, sizes).push(msg));
    }
}

/// The receiving side of a data channel: the messages that arrived and were
/// not yet read, kept as one byte queue and the length of each message.
pub struct DataChannel {
    is_open: bool,
    queue: VecDeque<u8>,
    msg_size: VecDeque<usize>,
}

impl DataChannel {
    /// The byte queue holds exactly the bytes of the recorded messages.
    pub closed spec fn wf(&self) -> bool {
        self.queue@.len() == sum_sizes(self.msg_size@)
    }

    /// The messages not yet read, oldest first.
    pub closed spec fn messages(&self) -> Seq<Seq<u8>> {
        split_by_sizes(self.queue@, self.msg_size@)
    }

    pub closed spec fn open(&self) -> bool {
        self.is_open
    }

    pub fn new() -> (r: Self)
        ensures
            r.wf(),
            r.open(),
            r.messages() == Seq::<Seq<u8>>::empty(),
    {
        DataChannel { is_open: true, queue: VecDeque::new(), msg_size: VecDeque::new() }
    }

    pub fn is_open(&self) -> (r: bool)
        ensures
            r == self.open(),
    {
        self.is_open
    }

    /// Whether a message may be sent: only while the channel is open.
    pub fn check_send(&self) -> (r: Result<(), ()>)
        ensures
            r is Ok <==> self.open(),
    {
        if !self.is_open {
            return Err(());
        }
        Ok(())
    }

    /// The channel was closed by the other side.
    pub fn close(&mut self)
        ensures
            !final(self).open(),
            final(self).messages() == old(self).messages(),
            final(self).wf() == old(self).wf(),
    {
        self.is_open = false;
    }

    /// Records a message that arrived.
    pub fn push_message(&mut self, message: &[u8])
        requires
            old(self).wf(),
        ensures
            final(self).wf(),
            final(self).messages() == old(self).messages().push(message@),
            final(self).open() == old(self).open(),
    {
        let ghost bytes0 = self.queue@;
        let ghost sizes0 = self.msg_size@;
        let msg_len = message.len();
        self.msg_size.push_back(msg_len);
        let mut i: usize = 0;
        while i < msg_len
            invariant
                i <= msg_len,
                msg_len == message@.len(),
                self.queue@ == bytes0 + message@.take(i as int),
                self.msg_size@ == sizes0.push(msg_len),
                self.is_open == old(self).is_open,
            decreases msg_len - i,
        {
            self.queue.push_back(message[i]);
            i = i + 1;
            assert(self.queue@ =~= bytes0 + message@.take(i as int));
        }
        proof {
            assert(message@.take(msg_len as int) =~= message@);
            lemma_push_message(bytes0, sizes0, message@);
        }
    }

    /// Appends the oldest unread message to `message` and returns `true`; an
    /// empty message is taken and `false` returned, as when nothing arrived.
    pub fn pop_message(&mut self, message: &mut Vec<u8>) -> (r: bool)
        requires
            old(self).wf(),
        ensures
            final(self).wf(),
            final(self).open() == old(self).open(),
            old(self).messages().len() == 0 ==> !r && final(self).messages() == old(self).messages()
                && final(message)@ == old(message)@,
            old(self).messages().len() > 0 ==> {
                &&& r == (old(self).messages()[0].len() > 0)
                &&& final(self).messages() == old(self).messages().drop_first()
                &&& final(message)@ == old(message)@ + old(self).messages()[0]
            },
    {
        let ghost bytes0 = self.queue@;
        let ghost sizes0 = self.msg_size@;
        let size = match self.msg_size.pop_front() {
            Some(size) => size,
            None => {
                return false;
            },
        };
        assert(self.msg_size@ =~= sizes0.drop_first());
        if size == 0 {
            proof {
                assert(bytes0.skip(0) =~= bytes0);
                assert(bytes0.take(0) =~= Seq::<u8>::empty());
            }
            assert(message@ =~= old(message)@ + bytes0.take(0));
            return false;
        }
        let mut k: usize = 0;
        while k < size
            invariant
                k <= size,
                size == sizes0[0],
                size <= bytes0.len(),
                self.queue@ == bytes0.skip(k as int),
                message@ == old(message)@ + bytes0.take(k as int),
                self.msg_size@ == sizes0.drop_first(),
                self.is_open == old(self).is_open,
            decreases size - k,
        {
            match self.queue.pop_front() {
                Some(b) => {
                    message.push(b);
                    k = k + 1;
                    assert(self.queue@ =~= bytes0.skip(k as int));
                    assert(message@ =~= old(message)@ + bytes0.take(k as int));
                },
                None => {
                    assert(false);
                    return false;
                },
            }
        }
        true
    }
}

/// The states of a peer connection that decide whether a channel is usable.
pub enum PeerConnectionState {
    New,
    Connecting,
    Connected,
    Disconnected,
    Failed,
    Closed,
}

/// The states of the ICE transport of a peer connection.
pub enum IceConnectionState {
    New,
    Checking,
    Connected,
    Completed,
    Failed,
    Disconnected,
    Closed,
}

/// The states of a data channel.
pub enum ChannelState {
    Connecting,
    Open,
    Closing,
    Closed,
}

/// One check while waiting for a channel to open: a failed or dropped
/// connection and a failed ICE transport are errors; the wait is over once the
/// channel exists and either the connection is up or the channel is open.
pub fn channel_open_check(
    rtc_state: PeerConnectionState,
    ice_state: IceConnectionState,
    channel: Option<ChannelState>,
) -> (r: Result<Option<()>, RtcConnectionError>)
    ensures
        (rtc_state is Failed || rtc_state is Disconnected) ==> r == Err::<Option<()>, RtcConnectionError>(
            RtcConnectionError::RtcConnectionFailed,
        ),
        !(rtc_state is Failed || rtc_state is Disconnected) && ice_state is Failed ==> r == Err::<
            Option<()>,
            RtcConnectionError,
        >(RtcConnectionError::IceConnectionFailed),
        !(rtc_state is Failed || rtc_state is Disconnected) && !(ice_state is Failed) ==> r == Ok::<
            Option<()>,
            RtcConnectionError,
        >(
            if channel is Some && (rtc_state is Connected || channel->0 is Open) {
                Some(())
            } else {
                None
            },
        ),
{
    match rtc_state {
        PeerConnectionState::Failed | PeerConnectionState::Disconnected => {
            return Err(RtcConnectionError::RtcConnectionFailed);
        },
        _ => {},
    }
    if let IceConnectionState::Failed = ice_state {
        return Err(RtcConnectionError::IceConnectionFailed);
    }
    if let Some(ch_state) = channel {
        let connected = match rtc_state {
            PeerConnectionState::Connected => true,
            _ => false,
        };
        let open = match ch_state {
            ChannelState::Open => true,
            _ => false,
        };
        if connected || open {
            return Ok(Some(()));
        }
    }
    Ok(None)
}

/// A message a listening peer acts on.
pub enum PeerEvent {
    /// Not a request or an offer, or its ids do not parse.
    Ignored,
    /// A peer asks for a connection.
    Request { sender_id: u64, message: String },
    /// A peer sends its session offer.
    Offer { sender_id: u64, offer: String },
}

/// How a listening peer reads `<command> <target> <sender> <rest>`.
pub open spec fn peer_event_spec(command: Seq<char>, data: Seq<char>) -> Option<(bool, u64, Seq<char>)> {
    if command != socket_cmd::OFFER@ && command != socket_cmd::REQUEST_P2P@ {
        None
    } else if parse_u64(first_word(data)) is None {
        None
    } else if parse_u64(first_word(after_first_word(data))) is None {
        None
    } else {
        Some((
            command == socket_cmd::REQUEST_P2P@,
            parse_u64(first_word(after_first_word(data)))->0,
            after_first_word(after_first_word(data)),
        ))
    }
}

/// A listening peer acts on `#REQUEST_P2P` and `#OFFER` alone: every other
/// command is ignored, whatever its data; a request comes only from
/// `#REQUEST_P2P` and an offer only from `#OFFER`; and either command with two
/// ids that parse is acted on, for the sender named by the second id.
pub proof fn law_only_requests_and_offers_are_acted_on(command: Seq<char>, data: Seq<char>)
    ensures
        command != socket_cmd::OFFER@ && command != socket_cmd::REQUEST_P2P@ ==> peer_event_spec(command, data)
            is None,
        peer_event_spec(command, data) matches Some((true, _, _)) ==> command == socket_cmd::REQUEST_P2P@,
        peer_event_spec(command, data) matches Some((false, _, _)) ==> command == socket_cmd::OFFER@,
        (command == socket_cmd::OFFER@ || command == socket_cmd::REQUEST_P2P@) && parse_u64(first_word(data))
            is Some && parse_u64(first_word(after_first_word(data))) is Some ==> peer_event_spec(command, data)
            == Some(
            (
                command == socket_cmd::REQUEST_P2P@,
                parse_u64(first_word(after_first_word(data)))->0,
                after_first_word(after_first_word(data)),
            ),
        ),
{
    reveal_strlit("#REQUEST_P2P");
    reveal_strlit("#OFFER");
    assert(socket_cmd::REQUEST_P2P@.len() != socket_cmd::OFFER@.len());
}

/// Reads a message on the socket of a listening peer.
pub fn classify_peer_message(command: &str, data: &str) -> (r: PeerEvent)
    ensures
        match peer_event_spec(command@, data@) {
            None => r is Ignored,
            Some((true, sender, rest)) => r matches PeerEvent::Request { sender_id, message }
                && sender_id == sender && message@ == rest,
            Some((false, sender, rest)) => r matches PeerEvent::Offer { sender_id, offer }
                && sender_id == sender && offer@ == rest,
        },
        command@ != socket_cmd::OFFER@ && command@ != socket_cmd::REQUEST_P2P@ ==> r is Ignored,
        r is Request ==> command@ == socket_cmd::REQUEST_P2P@,
        r is Offer ==> command@ == socket_cmd::OFFER@,
{
    proof {
        law_only_requests_and_offers_are_acted_on(command@, data@);
    }
    let is_request = str_eq(command, socket_cmd::REQUEST_P2P);
    let is_offer = str_eq(command, socket_cmd::OFFER);
    if !is_request && !is_offer {
        return PeerEvent::Ignored;
    }
    let data = match munch_u64(data) {
        Ok((_, data)) => data,
        Err(_) => {
            return PeerEvent::Ignored;
        },
    };
    let (sender_id, data) = match munch_u64(data) {
        Ok(pair) => pair,
        Err(_) => {
            return PeerEvent::Ignored;
        },
    };
    if is_request {
        PeerEvent::Request { sender_id, message: data.to_owned() }
    } else {
        PeerEvent::Offer { sender_id, offer: data.to_owned() }
    }
}

/// The state of a peer that listens for connection requests: the peers whose
/// request it accepted, and the time it has listened.
pub struct PeerListener {
    whitelist: Vec<u64>,
    time: u32,
}

impl PeerListener {
    /// The peers whose request was accepted, in order.
    pub closed spec fn accepted(&self) -> Seq<u64> {
        self.whitelist@
    }

    /// Milliseconds spent listening.
    pub closed spec fn elapsed(&self) -> u32 {
        self.time
    }

    pub fn new() -> (r: Self)
        ensures
            r.accepted() == Seq::<u64>::empty(),
            r.elapsed() == 0,
    {
        PeerListener { whitelist: Vec::new(), time: 0 }
    }

    /// One listening period of 200 ms has passed; returns the time listened.
    pub fn tick(&mut self) -> (r: u32)
        requires
            old(self).elapsed() + 200 <= u32::MAX,
        ensures
            r == old(self).elapsed() + 200,
            final(self).elapsed() == r,
            final(self).accepted() == old(self).accepted(),
    {
        self.time = self.time + 200;
        self.time
    }

    /// The time listened.
    pub fn time(&self) -> (r: u32)
        ensures
            r == self.elapsed(),
    {
        self.time
    }

    /// Records the decision on a request of `sender_id` and returns the
    /// answer to send back.
    pub fn answer_request(&mut self, sender_id: u64, my_id: u64, is_valid: bool) -> (r: String)
        ensures
            final(self).accepted() == (if is_valid {
                old(self).accepted().push(sender_id)
            } else {
                old(self).accepted()
            }),
            final(self).elapsed() == old(self).elapsed(),
            r@ == inner::routed(
                socket_cmd::REQUEST_P2P_RES@,
                sender_id,
                my_id,
                inner::bool_text(is_valid),
            ),
    {
        if is_valid {
            self.whitelist.push(sender_id);
        }
        inner::routed_message(socket_cmd::REQUEST_P2P_RES, sender_id, my_id, inner::bool_str(is_valid))
    }

    /// Whether an offer of `sender_id` is taken: only from accepted peers.
    pub fn accepts_offer(&self, sender_id: u64) -> (r: bool)
        ensures
            r == self.accepted().contains(sender_id),
    {
        let mut i: usize = 0;
        while i < self.whitelist.len()
            invariant
                i <= self.whitelist@.len(),
                forall|j: int| 0 <= j < i ==> self.whitelist@[j] != sender_id,
            decreases self.whitelist@.len() - i,
        {
            if self.whitelist[i] == sender_id {
                return true;
            }
            i = i + 1;
        }
        false
    }
}


/// The messages of `ms` end to end.
pub open spec fn concat_messages(ms: Seq<Seq<u8>>) -> Seq<u8>
    decreases ms.len(),
{
    if ms.len() == 0 {
        Seq::empty()
    } else {
        concat_messages(ms.drop_last()) + ms.last()
    }
}

/// Pushing `ms` one after the other onto a channel with no unread message
/// leaves exactly `ms` unread, in arrival order.
pub proof fn law_channel_keeps_arrival_order(states: Seq<DataChannel>, ms: Seq<Seq<u8>>)
    requires
        states.len() == ms.len() + 1,
        states[0].messages().len() == 0,
        forall|i: int| 0 <= i < ms.len() ==> #[trigger] states[i + 1].messages() == states[i].messages().push(ms[i]),
    ensures
        states.last().messages() == ms,
    decreases ms.len(),
{
    if ms.len() == 0 {
        assert(states.last().messages() =~= ms);
    } else {
        let k = ms.len() - 1;
        law_channel_keeps_arrival_order(states.drop_last(), ms.drop_last());
        assert(states.drop_last().last() == states[k]);
        assert(states[k + 1].messages() == states[k].messages().push(ms[k]));
        assert(states.last().messages() =~= ms);
    }
}

/// Popping a channel whose unread messages are the non-empty `ms` returns
/// `true` each time and appends them to the buffer in order: after `i` pops
/// the buffer is `b` followed by the first `i` messages, and the rest are
/// still unread. Once all are read, a pop returns `false` (the contract of
/// `pop_message`).
pub proof fn law_channel_pops_in_order(
    states: Seq<DataChannel>,
    bufs: Seq<Seq<u8>>,
    results: Seq<bool>,
    ms: Seq<Seq<u8>>,
)
    requires
        states.len() == ms.len() + 1,
        bufs.len() == ms.len() + 1,
        results.len() == ms.len(),
        states[0].messages() == ms,
        forall|i: int| 0 <= i < ms.len() ==> (#[trigger] ms[i]).len() > 0,
        forall|i: int|
            0 <= i < ms.len() ==> #[trigger] states[i].messages().len() > 0 ==> {
                &&& results[i] == (states[i].messages()[0].len() > 0)
                &&& states[i + 1].messages() == states[i].messages().drop_first()
                &&& bufs[i + 1] == bufs[i] + states[i].messages()[0]
            },
    ensures
        forall|i: int| 0 <= i <= ms.len() ==> #[trigger] states[i].messages() == ms.skip(i),
        forall|i: int| 0 <= i <= ms.len() ==> #[trigger] bufs[i] == bufs[0] + concat_messages(ms.take(i)),
        forall|i: int| 0 <= i < ms.len() ==> #[trigger] results[i],
        states.last().messages().len() == 0,
    decreases ms.len(),
{
    if ms.len() == 0 {
        assert(states[0].messages() =~= ms.skip(0));
        assert(ms.take(0) =~= Seq::<Seq<u8>>::empty());
        assert(bufs[0] =~= bufs[0] + concat_messages(ms.take(0)));
    } else {
        assert forall|i: int| 0 <= i <= ms.len() implies #[trigger] states[i].messages() == ms.skip(i) by {
            lemma_pops_prefix(states, ms, i);
        }
        assert forall|i: int| 0 <= i < ms.len() implies #[trigger] results[i] by {
            assert(states[i].messages() == ms.skip(i));
            assert(ms.skip(i)[0] == ms[i]);
        }
        assert forall|i: int| 0 <= i <= ms.len() implies #[trigger] bufs[i] == bufs[0] + concat_messages(ms.take(i)) by {
            lemma_bufs_prefix(states, bufs, ms, i);
        }
        assert(ms.skip(ms.len() as int).len() == 0);
    }
}

proof fn lemma_pops_prefix(states: Seq<DataChannel>, ms: Seq<Seq<u8>>, i: int)
    requires
        states.len() == ms.len() + 1,
        0 <= i <= ms.len(),
        states[0].messages() == ms,
        forall|j: int| 0 <= j < ms.len() ==> (#[trigger] ms[j]).len() > 0,
        forall|j: int|
            0 <= j < ms.len() ==> #[trigger] states[j].messages().len() > 0
                ==> states[j + 1].messages() == states[j].messages().drop_first(),
    ensures
        states[i].messages() == ms.skip(i),
    decreases i,
{
    if i == 0 {
        assert(ms.skip(0) =~= ms);
    } else {
        lemma_pops_prefix(states, ms, i - 1);
        assert(ms.skip(i - 1).len() > 0);
        assert(states[i - 1].messages().len() > 0);
        assert(ms.skip(i - 1).drop_first() =~= ms.skip(i));
    }
}

proof fn lemma_bufs_prefix(states: Seq<DataChannel>, bufs: Seq<Seq<u8>>, ms: Seq<Seq<u8>>, i: int)
    requires
        states.len() == ms.len() + 1,
        bufs.len() == ms.len() + 1,
        0 <= i <= ms.len(),
        forall|j: int| 0 <= j <= ms.len() ==> #[trigger] states[j].messages() == ms.skip(j),
        forall|j: int|
            0 <= j < ms.len() ==> #[trigger] states[j].messages().len() > 0 ==> bufs[j + 1] == bufs[j]
                + states[j].messages()[0],
    ensures
        bufs[i] == bufs[0] + concat_messages(ms.take(i)),
    decreases i,
{
    if i == 0 {
        assert(ms.take(0) =~= Seq::<Seq<u8>>::empty());
        assert(bufs[0] =~= bufs[0] + concat_messages(ms.take(0)));
    } else {
        lemma_bufs_prefix(states, bufs, ms, i - 1);
        assert(states[i - 1].messages() == ms.skip(i - 1));
        assert(ms.skip(i - 1)[0] == ms[i - 1]);
        assert(ms.take(i).drop_last() =~= ms.take(i - 1));
        assert(ms.take(i).last() == ms[i - 1]);
        assert(bufs[i] =~= bufs[0] + concat_messages(ms.take(i)));
    }
}

/// The senders of the requests in `decisions` that were accepted, in order.
pub open spec fn accepted_senders(decisions: Seq<(u64, bool)>) -> Seq<u64>
    decreases decisions.len(),
{
    if decisions.len() == 0 {
        Seq::empty()
    } else {
        let rest = accepted_senders(decisions.drop_last());
        if decisions.last().1 {
            rest.push(decisions.last().0)
        } else {
            rest
        }
    }
}

/// A listening peer that answered the requests `decisions` in turn, starting
/// with no accepted peer, takes an offer from `sender` exactly when it
/// accepted an earlier request from `sender`.
pub proof fn law_offer_needs_accepted_request(
    states: Seq<PeerListener>,
    decisions: Seq<(u64, bool)>,
    sender: u64,
)
    requires
        states.len() == decisions.len() + 1,
        states[0].accepted().len() == 0,
        forall|i: int|
            0 <= i < decisions.len() ==> #[trigger] states[i + 1].accepted() == (if decisions[i].1 {
                states[i].accepted().push(decisions[i].0)
            } else {
                states[i].accepted()
            }),
    ensures
        states.last().accepted() == accepted_senders(decisions),
        states.last().accepted().contains(sender) <==> exists|i: int|
            0 <= i < decisions.len() && #[trigger] decisions[i] == (sender, true),
    decreases decisions.len(),
{
    if decisions.len() == 0 {
        assert(states.last().accepted() =~= accepted_senders(decisions));
    } else {
        let k = decisions.len() - 1;
        law_offer_needs_accepted_request(states.drop_last(), decisions.drop_last(), sender);
        assert(states.drop_last().last() == states[k]);
        assert(states[k + 1].accepted() == (if decisions[k].1 {
            states[k].accepted().push(decisions[k].0)
        } else {
            states[k].accepted()
        }));
        let prev = states[k].accepted();
        let last = states.last().accepted();
        if last.contains(sender) {
            let j = choose|j: int| 0 <= j < last.len() && last[j] == sender;
            if j < prev.len() {
                assert(prev[j] == sender);
                assert(prev.contains(sender));
                let i = choose|i: int| 0 <= i < k && #[trigger] decisions.drop_last()[i] == (sender, true);
                assert(decisions[i] == (sender, true));
            } else {
                assert(decisions[k] == (sender, true));
            }
        }
        if exists|i: int| 0 <= i < decisions.len() && #[trigger] decisions[i] == (sender, true) {
            let i = choose|i: int| 0 <= i < decisions.len() && #[trigger] decisions[i] == (sender, true);
            if i < k {
                assert(decisions.drop_last()[i] == (sender, true));
                assert(prev.contains(sender));
                let j = choose|j: int| 0 <= j < prev.len() && prev[j] == sender;
                assert(last[j] == sender);
            } else {
                assert(last[last.len() - 1] == sender);
            }
        }
    }
}

} // verus!
