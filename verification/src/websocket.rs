use vstd::prelude::*;
use std::collections::VecDeque;
use crate::text::{
    after_first_word, decimal, first_word, index_of_char, lemma_char_absent, lemma_decimal_digits, lemma_index_of_char_concat,
    lemma_parse_decimal, lemma_trim_start_concat, lemma_trim_ws_unchanged, parse_u64, parse_u64_str,
    split_first_word, str_eq, trim_start_ws,
};
use crate::socket_cmd;

verus! {

/// Index of the first message whose command is `command`, or `msgs.len()`.
pub open spec fn index_of_command(msgs: Seq<(String, String)>, command: Seq<char>) -> int
    decreases msgs.len(),
{
    if msgs.len() == 0 {
        0
    } else if msgs[0].0@ == command {
        0
    } else {
        1 + index_of_command(msgs.drop_first(), command)
    }
}

pub proof fn lemma_index_of_command(msgs: Seq<(String, String)>, command: Seq<char>)
    ensures
        0 <= index_of_command(msgs, command) <= msgs.len(),
        index_of_command(msgs, command) < msgs.len() ==> msgs[index_of_command(msgs, command)].0@ == command,
        forall|j: int| 0 <= j < index_of_command(msgs, command) ==> msgs[j].0@ != command,
    decreases msgs.len(),
{
    if msgs.len() > 0 && msgs[0].0@ != command {
        lemma_index_of_command(msgs.drop_first(), command);
        assert forall|j: int| 0 <= j < index_of_command(msgs, command) implies msgs[j].0@ != command by {
            if j > 0 {
                assert(msgs[j] == msgs.drop_first()[j - 1]);
            }
        }
    }
}

/// Collects the `(command, data)` messages a socket receives until it is stopped.
pub struct MessageGatherer {
    should_exit: bool,
    messages: VecDeque<(String, String)>,
}

impl MessageGatherer {
    /// The messages received and not yet taken, oldest first.
    pub closed spec fn messages(&self) -> Seq<(String, String)> {
        self.messages@
    }

    /// Whether the gatherer asked to be removed from its socket.
    pub closed spec fn stopped(&self) -> bool {
        self.should_exit
    }

    pub fn new() -> (r: Self)
        ensures
            r.messages() == Seq::<(String, String)>::empty(),
            !r.stopped(),
    {
        MessageGatherer { should_exit: false, messages: VecDeque::new() }
    }

    /// Takes every pending message, oldest first.
    pub fn drain(&mut self) -> (r: Vec<(String, String)>)
        ensures
            r@ == old(self).messages(),
            final(self).messages() == Seq::<(String, String)>::empty(),
            final(self).stopped() == old(self).stopped(),
    {
        let mut out: Vec<(String, String)> = Vec::new();
        loop
            invariant
                out@ + self.messages@ == old(self).messages@,
                self.should_exit == old(self).should_exit,
            decreases self.messages@.len(),
        {
            match self.messages.pop_front() {
                Some(m) => {
                    out.push(m);
                    assert(out@ + self.messages@ =~= old(self).messages@);
                },
                None => {
                    assert(out@ =~= old(self).messages@);
                    return out;
                },
            }
        }
    }

    /// Asks to be removed from the socket at the next message.
    pub fn stop(&mut self)
        ensures
            final(self).stopped(),
            final(self).messages() == old(self).messages(),
    {
        self.should_exit = true;
    }

    /// Takes the oldest pending message.
    pub fn pop_message(&mut self) -> (r: Option<(String, String)>)
        ensures
            old(self).messages().len() == 0 ==> r is None && final(self).messages() == old(self).messages(),
            old(self).messages().len() > 0 ==> r == Some(old(self).messages()[0])
                && final(self).messages() == old(self).messages().drop_first(),
            final(self).stopped() == old(self).stopped(),
    {
        self.messages.pop_front()
    }

    /// Takes messages up to and including the first one whose command is
    /// `command`, and returns that one; takes them all when there is none.
    pub fn pop_messages_until(&mut self, command: &str) -> (r: Option<(String, String)>)
        ensures
            ({
                let msgs = old(self).messages();
                let i = index_of_command(msgs, command@);
                &&& i < msgs.len() ==> r == Some(msgs[i]) && final(self).messages() == msgs.skip(i + 1)
                &&& i == msgs.len() ==> r is None && final(self).messages() == Seq::<(String, String)>::empty()
            }),
            final(self).stopped() == old(self).stopped(),
    {
        let ghost msgs = old(self).messages@;
        let ghost cmd = command@;
        proof { lemma_index_of_command(msgs, cmd); }
        let ghost i = index_of_command(msgs, cmd);
        let ghost mut popped: int = 0;
        loop
            invariant
                0 <= popped <= i,
                i == index_of_command(msgs, cmd),
                0 <= i <= msgs.len(),
                i < msgs.len() ==> msgs[i].0@ == cmd,
                forall|j: int| 0 <= j < i ==> msgs[j].0@ != cmd,
                self.messages@ == msgs.skip(popped),
                msgs == old(self).messages@,
                cmd == command@,
                self.should_exit == old(self).should_exit,
            decreases self.messages@.len(),
        {
            match self.messages.pop_front() {
                Some(m) => {
                    assert(m == msgs[popped]);
                    proof { popped = popped + 1; }
                    assert(self.messages@ =~= msgs.skip(popped));
                    if crate::text::str_eq(m.0.as_str(), command) {
                        return Some(m);
                    }
                },
                None => {
                    assert(msgs.skip(popped).len() == 0);
                    return None;
                },
            }
        }
    }

    /// Drops every pending message.
    pub fn clear_messages(&mut self)
        ensures
            final(self).messages() == Seq::<(String, String)>::empty(),
            final(self).stopped() == old(self).stopped(),
    {
        self.messages.clear();
    }
}

/// Something that reacts to the `(command, data)` messages of a socket. The
/// socket hands each listener a context (`C`) it may read and change, passed
/// on from one listener to the next.
pub trait SocketListener<C> {
    /// What handling one message does: `after` is the listener once it handled
    /// `(command, data)` with `context`, `context_after` the context it passes
    /// on, and `keep` whether it asked for further messages. A listener that
    /// states nothing about itself keeps the default.
    open spec fn heard(
        &self,
        context: &C,
        command: Seq<char>,
        data: Seq<char>,
        after: &Self,
        context_after: &C,
        keep: bool,
    ) -> bool {
        true
    }

    /// Handles one message; returns whether the listener wants further messages.
    fn listen(&mut self, context: &mut C, command: &str, data: &str) -> (keep: bool)
        ensures
            old(self).heard(old(context), command@, data@, final(self), final(context), keep),
    ;
}

impl MessageGatherer {
    /// What listening to `(command, data)` does to a gatherer: the message is
    /// recorded after the pending ones, and it asks to stay until stopped.
    pub open spec fn records(&self, command: Seq<char>, data: Seq<char>, after: &Self, keep: bool) -> bool {
        &&& after.messages().len() == self.messages().len() + 1
        &&& after.messages().drop_last() == self.messages()
        &&& after.messages().last().0@ == command
        &&& after.messages().last().1@ == data
        &&& after.stopped() == self.stopped()
        &&& keep == !self.stopped()
    }
}

impl<C> SocketListener<C> for MessageGatherer {
    /// The gatherer records the message and leaves the context as it is.
    open spec fn heard(
        &self,
        context: &C,
        command: Seq<char>,
        data: Seq<char>,
        after: &Self,
        context_after: &C,
        keep: bool,
    ) -> bool {
        &&& self.records(command, data, after, keep)
        &&& *context_after == *context
    }

    fn listen(&mut self, context: &mut C, command: &str, data: &str) -> (keep: bool) {
        self.messages.push_back((command.to_owned(), data.to_owned()));
        assert(self.messages@.drop_last() =~= old(self).messages@);
        !self.should_exit
    }
}

/// Listening `k` times, with the commands and data of `msgs`, turns a gatherer
/// with no pending messages into one whose pending messages are `msgs` in
/// arrival order, so `drain` returns them in that order.
pub proof fn law_gatherer_keeps_arrival_order(
    states: Seq<MessageGatherer>,
    msgs: Seq<(Seq<char>, Seq<char>)>,
    keeps: Seq<bool>,
)
    requires
        states.len() == msgs.len() + 1,
        keeps.len() == msgs.len(),
        states[0].messages().len() == 0,
        forall|i: int|
            0 <= i < msgs.len() ==> #[trigger] states[i].records(msgs[i].0, msgs[i].1, &states[i + 1], keeps[i]),
    ensures
        states.last().messages().len() == msgs.len(),
        forall|i: int|
            0 <= i < msgs.len() ==> #[trigger] states.last().messages()[i].0@ == msgs[i].0
                && states.last().messages()[i].1@ == msgs[i].1,
    decreases msgs.len(),
{
    if msgs.len() > 0 {
        let k = msgs.len() - 1;
        law_gatherer_keeps_arrival_order(states.drop_last(), msgs.drop_last(), keeps.drop_last());
        assert(states.drop_last().last() == states[k]);
        assert(states[k].records(msgs[k].0, msgs[k].1, &states[k + 1], keeps[k]));
        let last = states.last().messages();
        assert forall|i: int| 0 <= i < msgs.len() implies #[trigger] last[i].0@ == msgs[i].0 && last[i].1@ == msgs[i].1 by {
            if i < k {
                assert(last[i] == last.drop_last()[i]);
                assert(msgs.drop_last()[i] == msgs[i]);
            }
        }
    }
}

/// Splits a socket message into its command, the text up to the first space,
/// and its data, the trimmed rest.
pub fn split_command(msg: &str) -> (r: (&str, &str))
    ensures
        r.0@ == first_word(msg@),
        r.1@ == after_first_word(msg@),
{
    split_first_word(msg)
}


/// The elements of `s` whose flag in `keep` is set, in their order.
pub open spec fn kept<L>(s: Seq<L>, keep: Seq<bool>) -> Seq<L>
    decreases s.len(),
{
    if s.len() == 0 {
        Seq::empty()
    } else {
        let rest = kept(s.drop_first(), keep.drop_first());
        if keep[0] {
            seq![s[0]] + rest
        } else {
            rest
        }
    }
}

/// Removes, from the last to the first, every listener whose flag is unset.
pub fn retain_listeners<L>(listeners: &mut Vec<L>, keep: &Vec<bool>)
    requires
        old(listeners)@.len() == keep@.len(),
    ensures
        final(listeners)@ == kept(old(listeners)@, keep@),
{
    let ghost s = old(listeners)@;
    let mut idx = listeners.len();
    assert(s.skip(idx as int) =~= Seq::<L>::empty());
    assert(s.take(idx as int) =~= s);
    while idx > 0
        invariant
            idx <= s.len(),
            s.len() == keep@.len(),
            s == old(listeners)@,
            listeners@ == s.take(idx as int) + kept(s.skip(idx as int), keep@.skip(idx as int)),
        decreases idx,
    {
        let i = idx - 1;
        let ghost rest = kept(s.skip(idx as int), keep@.skip(idx as int));
        assert(s.skip(i as int).drop_first() =~= s.skip(idx as int));
        assert(keep@.skip(i as int).drop_first() =~= keep@.skip(idx as int));
        assert(s.skip(i as int)[0] == s[i as int]);
        assert(keep@.skip(i as int)[0] == keep@[i as int]);
        if !keep[i] {
            listeners.remove(i);
            assert(listeners@ =~= s.take(i as int) + rest);
        } else {
            assert(listeners@ =~= s.take(i as int) + (seq![s[i as int]] + rest));
        }
        idx = i;
    }
    assert(s.skip(0) =~= s);
    assert(keep@.skip(0) =~= keep@);
    assert(listeners@ =~= kept(s, keep@));
}

/// One dispatch of `(command, data)` to the listeners `all`, last first:
/// listener `i` hears with the context `contexts[i + 1]`, becomes `polled[i]`,
/// passes on `contexts[i]` and answers `keep[i]`. The dispatch starts with
/// `context` and ends with `contexts[0]`.
pub open spec fn dispatch<C, L: SocketListener<C>>(
    all: Seq<L>,
    context: C,
    command: Seq<char>,
    data: Seq<char>,
    polled: Seq<L>,
    keep: Seq<bool>,
    contexts: Seq<C>,
) -> bool {
    &&& polled.len() == all.len()
    &&& keep.len() == all.len()
    &&& contexts.len() == all.len() + 1
    &&& contexts[all.len() as int] == context
    &&& forall|i: int|
        0 <= i < all.len() ==> #[trigger] all[i].heard(
            &contexts[i + 1],
            command,
            data,
            &polled[i],
            &contexts[i],
            keep[i],
        )
}

/// The listeners of a socket whose id the server assigned: new listeners
/// queue up and join before the next message is dispatched.
pub struct WebSocketHandler<L> {
    id: u64,
    listeners: Vec<L>,
    queued_listeners: Vec<L>,
}

impl<L> WebSocketHandler<L> {
    /// The id the server assigned to this socket.
    pub closed spec fn socket_id(&self) -> u64 {
        self.id
    }

    pub fn id(&self) -> (r: u64)
        ensures
            r == self.socket_id(),
    {
        self.id
    }

    /// The listeners that receive messages, in registration order.
    pub closed spec fn listeners(&self) -> Seq<L> {
        self.listeners@
    }

    /// The listeners that join before the next message.
    pub closed spec fn queued(&self) -> Seq<L> {
        self.queued_listeners@
    }

    pub fn new(id: u64) -> (r: Self)
        ensures
            r.socket_id() == id,
            r.listeners() == Seq::<L>::empty(),
            r.queued() == Seq::<L>::empty(),
    {
        WebSocketHandler { id, listeners: Vec::new(), queued_listeners: Vec::new() }
    }

    /// Moves the queued listeners behind the registered ones.
    pub fn drain_queue(&mut self)
        ensures
            final(self).socket_id() == old(self).socket_id(),
            final(self).listeners() == old(self).listeners() + old(self).queued(),
            final(self).queued() == Seq::<L>::empty(),
    {
        self.listeners.append(&mut self.queued_listeners);
    }

    /// Queues a listener; it receives messages from the next one on.
    pub fn push_listener(&mut self, listener: L)
        ensures
            final(self).socket_id() == old(self).socket_id(),
            final(self).listeners() == old(self).listeners(),
            final(self).queued() == old(self).queued().push(listener),
    {
        self.queued_listeners.push(listener);
    }

    /// Hands a message to every listener, last registered first, passing the
    /// context from one to the next, and returns for each listener (by
    /// position) whether it asked to stay.
    fn poll_listeners<C>(&mut self, context: &mut C, command: &str, data: &str) -> (keep: Vec<bool>)
        where
            L: SocketListener<C>,
        ensures
            final(self).queued_listeners@ == old(self).queued_listeners@,
            final(self).id == old(self).id,
            exists|contexts: Seq<C>|
                #![trigger dispatch(old(self).listeners@, *old(context), command@, data@, final(self).listeners@, keep@, contexts)]
                dispatch(old(self).listeners@, *old(context), command@, data@, final(self).listeners@, keep@, contexts)
                && contexts[0] == *final(context),
    {
        let ghost orig = self.listeners@;
        let ghost start = *context;
        let n = self.listeners.len();
        let mut keep: Vec<bool> = vec![true; n];
        let mut idx = n;
        let ghost mut contexts: Seq<C> = Seq::new((n + 1) as nat, |j: int| start);
        while idx > 0
            invariant
                idx <= n,
                n == orig.len(),
                orig == old(self).listeners@,
                start == *old(context),
                keep@.len() == n,
                self.listeners@.len() == n,
                contexts.len() == n + 1,
                contexts[idx as int] == *context,
                contexts[n as int] == start,
                forall|j: int| 0 <= j < idx ==> self.listeners@[j] == orig[j],
                forall|j: int|
                    idx <= j < n ==> #[trigger] orig[j].heard(
                        &contexts[j + 1],
                        command@,
                        data@,
                        &self.listeners@[j],
                        &contexts[j],
                        keep@[j],
                    ),
                self.queued_listeners@ == old(self).queued_listeners@,
                self.id == old(self).id,
            decreases idx,
        {
            let i = idx - 1;
            let ghost before = contexts;
            let stay = self.listeners[i].listen(context, command, data);
            keep.set(i, stay);
            proof {
                contexts = before.update(i as int, *context);
                assert forall|j: int| i <= j < n implies #[trigger] orig[j].heard(
                    &contexts[j + 1],
                    command@,
                    data@,
                    &self.listeners@[j],
                    &contexts[j],
                    keep@[j],
                ) by {
                    if j > i {
                        assert(contexts[j + 1] == before[j + 1]);
                        assert(contexts[j] == before[j]);
                    } else {
                        assert(contexts[j + 1] == before[idx as int]);
                    }
                }
            }
            idx = i;
        }
        assert(dispatch(orig, start, command@, data@, self.listeners@, keep@, contexts));
        keep
    }

    /// Lets the queued listeners join, hands the message to every listener,
    /// each exactly once and from the last to the first, with the context
    /// passed from one to the next, and removes those that did not ask to
    /// stay: `polled` are the listeners after the message and `keep` their
    /// answers.
    pub fn on_received<C>(&mut self, context: &mut C, command: &str, data: &str)
        where
            L: SocketListener<C>,
        ensures
            final(self).socket_id() == old(self).socket_id(),
            final(self).queued() == Seq::<L>::empty(),
            exists|polled: Seq<L>, keep: Seq<bool>, contexts: Seq<C>|
                #![trigger dispatch(old(self).listeners() + old(self).queued(), *old(context), command@, data@, polled, keep, contexts)]
                {
                    &&& dispatch(old(self).listeners() + old(self).queued(), *old(context), command@, data@, polled, keep, contexts)
                    &&& polled.len() == old(self).listeners().len() + old(self).queued().len()
                    &&& keep.len() == polled.len()
                    &&& contexts.len() == polled.len() + 1
                    &&& contexts[polled.len() as int] == *old(context)
                    &&& contexts[0] == *final(context)
                    &&& forall|i: int|
                        0 <= i < polled.len() ==> #[trigger] (old(self).listeners() + old(self).queued())[i].heard(
                            &contexts[i + 1],
                            command@,
                            data@,
                            &polled[i],
                            &contexts[i],
                            keep[i],
                        )
                    &&& final(self).listeners() == kept(polled, keep)
                },
    {
        self.drain_queue();
        let keep = self.poll_listeners(context, command, data);
        let ghost polled = self.listeners@;
        retain_listeners(&mut self.listeners, &keep);
        assert(self.listeners@ == kept(polled, keep@));
    }
}

/// Every listener hears each dispatch, exactly once: listener `i`, for every
/// `i` below the number of listeners, handles the message with the context
/// that listener `i + 1` passed on (the dispatch's own context for the last
/// one) and hands its context to listener `i - 1`; the first listener's
/// context is what the dispatch ends with.
pub proof fn law_every_listener_hears<C, L: SocketListener<C>>(
    all: Seq<L>,
    context: C,
    command: Seq<char>,
    data: Seq<char>,
    polled: Seq<L>,
    keep: Seq<bool>,
    contexts: Seq<C>,
)
    requires
        dispatch(all, context, command, data, polled, keep, contexts),
    ensures
        polled.len() == all.len(),
        keep.len() == all.len(),
        contexts.len() == all.len() + 1,
        contexts[all.len() as int] == context,
        forall|i: int|
            0 <= i < all.len() ==> #[trigger] all[i].heard(&contexts[i + 1], command, data, &polled[i], &contexts[i], keep[i]),
{
}

/// A dispatch to gatherers reaches each of them: every gatherer, the first
/// registered one included, has the message recorded after its pending ones
/// and asks to stay unless it was stopped.
pub proof fn law_dispatch_reaches_every_gatherer<C>(
    all: Seq<MessageGatherer>,
    context: C,
    command: Seq<char>,
    data: Seq<char>,
    polled: Seq<MessageGatherer>,
    keep: Seq<bool>,
    contexts: Seq<C>,
)
    requires
        dispatch(all, context, command, data, polled, keep, contexts),
    ensures
        forall|i: int|
            0 <= i < all.len() ==> {
                &&& (#[trigger] polled[i]).messages() == all[i].messages().push((polled[i].messages().last()))
                &&& polled[i].messages().last().0@ == command
                &&& polled[i].messages().last().1@ == data
                &&& keep[i] == !all[i].stopped()
                &&& contexts[i] == context
            },
{
    law_every_listener_hears(all, context, command, data, polled, keep, contexts);
    assert forall|i: int| 0 <= i < all.len() implies {
        &&& (#[trigger] polled[i]).messages() == all[i].messages().push((polled[i].messages().last()))
        &&& polled[i].messages().last().0@ == command
        &&& polled[i].messages().last().1@ == data
        &&& keep[i] == !all[i].stopped()
        &&& contexts[i] == context
    } by {
        lemma_contexts_unchanged(all, context, command, data, polled, keep, contexts, i);
        assert(all[i].heard(&contexts[i + 1], command, data, &polled[i], &contexts[i], keep[i]));
        assert(polled[i].messages() =~= polled[i].messages().drop_last().push(polled[i].messages().last()));
    }
}

proof fn lemma_contexts_unchanged<C>(
    all: Seq<MessageGatherer>,
    context: C,
    command: Seq<char>,
    data: Seq<char>,
    polled: Seq<MessageGatherer>,
    keep: Seq<bool>,
    contexts: Seq<C>,
    i: int,
)
    requires
        dispatch(all, context, command, data, polled, keep, contexts),
        0 <= i <= all.len(),
    ensures
        contexts[i] == context,
    decreases all.len() - i,
{
    if i < all.len() {
        lemma_contexts_unchanged(all, context, command, data, polled, keep, contexts, i + 1);
        assert(all[i].heard(&contexts[i + 1], command, data, &polled[i], &contexts[i], keep[i]));
    }
}

/// Positions of the set flags of `keep`, in increasing order.
pub open spec fn kept_positions(keep: Seq<bool>) -> Seq<int>
    decreases keep.len(),
{
    if keep.len() == 0 {
        Seq::empty()
    } else {
        let rest = kept_positions(keep.drop_first()).map_values(|p: int| p + 1);
        if keep[0] {
            seq![0int] + rest
        } else {
            rest
        }
    }
}

/// After a dispatch, the listeners are exactly those that asked to stay, in
/// their order: the `j`-th remaining listener is the one at the `j`-th set
/// flag, and a listener that declined is at no remaining position, so no later
/// dispatch reaches it.
pub proof fn law_only_listeners_that_stay_remain<L>(polled: Seq<L>, keep: Seq<bool>)
    requires
        polled.len() == keep.len(),
    ensures
        kept(polled, keep).len() == kept_positions(keep).len(),
        forall|j: int|
            0 <= j < kept_positions(keep).len() ==> 0 <= #[trigger] kept_positions(keep)[j] < keep.len()
                && keep[kept_positions(keep)[j]]
                && kept(polled, keep)[j] == polled[kept_positions(keep)[j]],
        forall|j1: int, j2: int|
            0 <= j1 < j2 < kept_positions(keep).len() ==> kept_positions(keep)[j1] < kept_positions(keep)[j2],
        forall|i: int| 0 <= i < keep.len() ==> (keep[i] <==> #[trigger] kept_positions(keep).contains(i)),
    decreases keep.len(),
{
    if keep.len() > 0 {
        let pt = polled.drop_first();
        let kt = keep.drop_first();
        law_only_listeners_that_stay_remain(pt, kt);
        let rest = kept_positions(kt).map_values(|p: int| p + 1);
        let pos = kept_positions(keep);
        let ks = kept(polled, keep);
        let kr = kept(pt, kt);
        assert(rest.len() == kept_positions(kt).len());
        assert forall|j: int| 0 <= j < rest.len() implies #[trigger] rest[j] == kept_positions(kt)[j] + 1 by {}
        if keep[0] {
            assert(pos == seq![0int] + rest);
            assert(ks == seq![polled[0]] + kr);
            assert(ks.len() == pos.len());
            assert forall|j: int| 0 <= j < pos.len() implies 0 <= #[trigger] pos[j] < keep.len() && keep[pos[j]]
                && ks[j] == polled[pos[j]] by {
                if j > 0 {
                    assert(pos[j] == kept_positions(kt)[j - 1] + 1);
                    assert(ks[j] == kr[j - 1]);
                }
            }
            assert forall|i: int| 0 <= i < keep.len() implies (keep[i] <==> #[trigger] pos.contains(i)) by {
                if i > 0 {
                    if keep[i] {
                        assert(kt[i - 1]);
                        assert(kept_positions(kt).contains(i - 1));
                        let j = choose|j: int| 0 <= j < kept_positions(kt).len() && kept_positions(kt)[j] == i - 1;
                        assert(rest[j] == i);
                        assert(pos[j + 1] == rest[j]);
                        assert(pos.contains(i));
                    }
                    if pos.contains(i) {
                        let j = choose|j: int| 0 <= j < pos.len() && pos[j] == i;
                        assert(j > 0);
                        assert(kept_positions(kt)[j - 1] == i - 1);
                        assert(kept_positions(kt).contains(i - 1));
                    }
                } else {
                    assert(pos[0] == 0);
                }
            }
        } else {
            assert(pos == rest);
            assert(ks == kr);
            assert forall|j: int| 0 <= j < pos.len() implies 0 <= #[trigger] pos[j] < keep.len() && keep[pos[j]]
                && ks[j] == polled[pos[j]] by {
                assert(pos[j] == kept_positions(kt)[j] + 1);
            }
            assert forall|i: int| 0 <= i < keep.len() implies (keep[i] <==> #[trigger] pos.contains(i)) by {
                if i > 0 {
                    if keep[i] {
                        assert(kt[i - 1]);
                        assert(kept_positions(kt).contains(i - 1));
                        let j = choose|j: int| 0 <= j < kept_positions(kt).len() && kept_positions(kt)[j] == i - 1;
                        assert(rest[j] == i);
                        assert(pos.contains(i));
                    }
                    if pos.contains(i) {
                        let j = choose|j: int| 0 <= j < pos.len() && pos[j] == i;
                        assert(kept_positions(kt)[j] == i - 1);
                        assert(kept_positions(kt).contains(i - 1));
                    }
                } else {
                    if pos.contains(0) {
                        let j = choose|j: int| 0 <= j < pos.len() && pos[j] == 0;
                        assert(pos[j] == kept_positions(kt)[j] + 1);
                    }
                }
            }
        }
    }
}

/// A listener queued after a dispatch is heard by the next dispatch, and
/// first of all, since it is the last in line.
pub proof fn law_queued_listener_hears_next<L>(before: WebSocketHandler<L>, after: WebSocketHandler<L>, listener: L)
    requires
        after.listeners() == before.listeners(),
        after.queued() == before.queued().push(listener),
    ensures
        (after.listeners() + after.queued()).last() == listener,
        (after.listeners() + after.queued()).drop_last() == before.listeners() + before.queued(),
{
    assert((after.listeners() + after.queued()).drop_last() =~= before.listeners() + before.queued());
}

/// What a message on a fresh connection says about the id the server assigns.
pub enum IdMessage {
    /// Not an `#ID` message.
    Other,
    /// An `#ID` message with this id.
    Id(u64),
    /// An `#ID` message whose id does not parse.
    Malformed,
}

/// Reads an `#ID <id>` message: the id is the first word after the command.
pub open spec fn id_message(msg: Seq<char>) -> IdMessage {
    if first_word(msg) != socket_cmd::ID@ {
        IdMessage::Other
    } else {
        match parse_u64(first_word(after_first_word(msg))) {
            Some(id) => IdMessage::Id(id),
            None => IdMessage::Malformed,
        }
    }
}

pub fn read_id_message(msg: &str) -> (r: IdMessage)
    ensures
        r == id_message(msg@),
{
    let (command, rest) = split_command(msg);
    if !str_eq(command, socket_cmd::ID) {
        return IdMessage::Other;
    }
    let (word, _) = split_first_word(rest);
    match parse_u64_str(word) {
        Some(id) => IdMessage::Id(id),
        None => IdMessage::Malformed,
    }
}

/// The server's `#ID <id>` message is read as that id.
pub proof fn law_id_message(id: u64)
    ensures
        id_message(socket_cmd::ID@ + seq![' '] + decimal(id as nat)) == IdMessage::Id(id),
{
    reveal_strlit("#ID");
    let c = socket_cmd::ID@;
    let d = decimal(id as nat);
    let sp = seq![' '];
    let m = c + sp + d;
    lemma_char_absent(c, ' ');
    assert(m =~= c + (sp + d));
    lemma_index_of_char_concat(c, sp + d, ' ');
    assert((sp + d)[0] == ' ');
    assert(m.take(c.len() as int) =~= c);
    assert(m.skip(c.len() as int) =~= sp + d);
    lemma_decimal_digits(id as nat);
    lemma_parse_decimal(id);
    lemma_trim_start_concat(sp, d);
    assert(sp.drop_first() =~= Seq::<char>::empty());
    assert(trim_start_ws(sp) == trim_start_ws(Seq::<char>::empty()));
    lemma_trim_ws_unchanged(d);
    assert(after_first_word(m) == d);
    assert(d.take(d.len() as int) =~= d);
}

/// The state of one attempt to open the server socket: it succeeds once the
/// server sent an id, and fails on a socket error or a malformed id.
pub struct ConnectionHandshake {
    error: bool,
    id: Option<u64>,
}

impl ConnectionHandshake {
    pub closed spec fn failed(&self) -> bool {
        self.error
    }

    pub closed spec fn assigned_id(&self) -> Option<u64> {
        self.id
    }

    pub fn new() -> (r: Self)
        ensures
            !r.failed(),
            r.assigned_id() is None,
    {
        ConnectionHandshake { error: false, id: None }
    }

    /// The socket reported an error.
    pub fn on_error(&mut self)
        ensures
            final(self).failed(),
            final(self).assigned_id() == old(self).assigned_id(),
    {
        self.error = true;
    }

    /// Takes a message of the socket; returns whether the socket must be closed.
    pub fn on_message(&mut self, msg: &str) -> (close: bool)
        ensures
            match id_message(msg@) {
                IdMessage::Other => !close && *final(self) == *old(self),
                IdMessage::Id(id) => !close && final(self).assigned_id() == Some(id)
                    && final(self).failed() == old(self).failed(),
                IdMessage::Malformed => close && final(self).failed()
                    && final(self).assigned_id() == old(self).assigned_id(),
            },
    {
        match read_id_message(msg) {
            IdMessage::Other => false,
            IdMessage::Id(id) => {
                self.id = Some(id);
                false
            },
            IdMessage::Malformed => {
                self.error = true;
                true
            },
        }
    }

    /// `Err` once the attempt failed, the assigned id once there is one, and
    /// `None` while the server has not answered.
    pub fn poll(&self) -> (r: Result<Option<u64>, ()>)
        ensures
            self.failed() ==> r is Err,
            !self.failed() ==> r == Ok::<Option<u64>, ()>(self.assigned_id()),
    {
        if self.error {
            Err(())
        } else {
            Ok(self.id)
        }
    }
}

/// Where and how patiently to open the server socket.
pub struct WebSocketCreationConfig<'a> {
    pub url: &'a str,
    pub retry_count: u32,
    pub delay_per_retry: u32,
    pub timeout: u32,
}

impl<'a> WebSocketCreationConfig<'a> {
    /// After `failed_tries` counted failures and one more attempt that did not
    /// connect: the count to go on with when another attempt is due, `None`
    /// when the attempts are used up. An attempt whose socket could not even
    /// be created is retried without being counted.
    pub fn next_attempt(&self, failed_tries: u32, socket_created: bool) -> (r: Option<u32>)
        requires
            failed_tries == 0 || failed_tries < self.retry_count,
        ensures
            !socket_created ==> r == Some(failed_tries),
            socket_created && failed_tries + 1 >= self.retry_count ==> r is None,
            socket_created && failed_tries + 1 < self.retry_count ==> r == Some((failed_tries + 1) as u32),
    {
        if !socket_created {
            return Some(failed_tries);
        }
        let tries = failed_tries + 1;
        if tries >= self.retry_count {
            None
        } else {
            Some(tries)
        }
    }
}

/// The `readyState` of a socket that is open.
pub const SOCKET_OPEN: u16 = 1;

/// Whether a socket in this `readyState` can no longer carry messages.
pub fn socket_closed(ready_state: u16) -> (r: bool)
    ensures
        r == (ready_state != SOCKET_OPEN),
{
    ready_state != SOCKET_OPEN
}

} // verus!
