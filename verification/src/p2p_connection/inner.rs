use vstd::prelude::*;
use crate::text::{
    after_first_word, decimal, first_word, index_of_char, is_white_space, lemma_decimal_digits,
    lemma_index_of_char_concat, lemma_trim_end_concat, lemma_trim_start_concat,
    lemma_trim_ws_of_trim_end, lemma_trim_ws_unchanged, lemma_trim_end_shape, lemma_trim_ws_idempotent,
    lemma_words_of_decimal, lemma_char_absent, parse_u64, push_decimal, str_eq, trim, trim_end_ws, trim_start_ws, trim_ws,
};
use crate::utils::munch_u64;
use crate::websocket::{index_of_command, lemma_index_of_command, MessageGatherer};
use crate::socket_cmd;
use super::RtcConnectionError;

verus! {

/// `<command> <target> <sender> <payload>`, the shape of the messages peers
/// exchange through the server.
pub open spec fn routed(command: Seq<char>, target_id: u64, sender_id: u64, payload: Seq<char>) -> Seq<char> {
    command + seq![' '] + decimal(target_id as nat) + seq![' '] + decimal(sender_id as nat) + seq![' ']
        + payload
}

pub open spec fn bool_text(b: bool) -> Seq<char> {
    if b {
        seq!['t', 'r', 'u', 'e']
    } else {
        seq!['f', 'a', 'l', 's', 'e']
    }
}

/// `true` or `false`, as `bool` displays.
pub fn bool_str(b: bool) -> (r: &'static str)
    ensures
        r@ == bool_text(b),
{
    proof {
        reveal_strlit("true");
        reveal_strlit("false");
    }
    if b {
        "true"
    } else {
        "false"
    }
}

/// Formats `<command> <target> <sender> <payload>`.
pub fn routed_message(command: &str, target_id: u64, sender_id: u64, payload: &str) -> (r: String)
    ensures
        r@ == routed(command@, target_id, sender_id, payload@),
{
    proof { reveal_strlit(" "); }
    let mut out = command.to_owned();
    out.append(" ");
    push_decimal(&mut out, target_id);
    out.append(" ");
    push_decimal(&mut out, sender_id);
    out.append(" ");
    out.append(payload);
    out
}


/// `#CHECK_ID <target>`, asking the server whether `target_id` is connected.
pub fn check_id_message(target_id: u64) -> (r: String)
    ensures
        r@ == socket_cmd::CHECK_ID@ + seq![' '] + decimal(target_id as nat),
{
    proof { reveal_strlit(" "); }
    let mut out = socket_cmd::CHECK_ID.to_owned();
    out.append(" ");
    push_decimal(&mut out, target_id);
    out
}

/// Whether the text of a reply, trimmed, is `true`.
pub open spec fn says_true(text: Seq<char>) -> bool {
    trim_ws(text) == bool_text(true)
}

fn is_true(text: &str) -> (r: bool)
    ensures
        r == says_true(text@),
{
    proof { reveal_strlit("true"); }
    let t = "true";
    assert(t@ =~= bool_text(true));
    str_eq(trim(text), t)
}

/// The server's answer `<target> <true|false>` about `target_id`: `None`
/// when it concerns another peer.
pub open spec fn id_reply(data: Seq<char>, target_id: u64) -> Result<Option<bool>, RtcConnectionError> {
    match parse_u64(first_word(data)) {
        None => Err(RtcConnectionError::IdParsingError),
        Some(id) => if id == target_id {
            Ok(Some(says_true(after_first_word(data))))
        } else {
            Ok(None)
        },
    }
}

/// A peer's answer `<target> <sender> <true|false>` to a request sent to
/// `target_id`: `None` when another peer sent it.
pub open spec fn request_reply(data: Seq<char>, target_id: u64) -> Result<Option<bool>, RtcConnectionError> {
    if parse_u64(first_word(data)) is None {
        Err(RtcConnectionError::IdParsingError)
    } else {
        let rest = after_first_word(data);
        match parse_u64(first_word(rest)) {
            None => Err(RtcConnectionError::IdParsingError),
            Some(sender) => if sender == target_id {
                Ok(Some(says_true(after_first_word(rest))))
            } else {
                Ok(None)
            },
        }
    }
}

/// One check while waiting for the server to say whether `target_id` exists:
/// takes messages up to the first `#CHECK_ID_RES` and reads it.
pub fn check_id_response(gatherer: &mut MessageGatherer, target_id: u64) -> (r: Result<Option<bool>, RtcConnectionError>)
    ensures
        ({
            let msgs = old(gatherer).messages();
            let i = index_of_command(msgs, socket_cmd::CHECK_ID_RES@);
            &&& i == msgs.len() ==> r == Ok::<Option<bool>, RtcConnectionError>(None)
                && final(gatherer).messages() == Seq::<(String, String)>::empty()
            &&& i < msgs.len() ==> r == id_reply(msgs[i].1@, target_id)
                && final(gatherer).messages() == msgs.skip(i + 1)
            &&& i < msgs.len() && parse_u64(first_word(msgs[i].1@)) is Some
                && parse_u64(first_word(msgs[i].1@))->0 != target_id
                ==> r == Ok::<Option<bool>, RtcConnectionError>(None)
            &&& r matches Ok(Some(_)) ==> i < msgs.len()
                && parse_u64(first_word(msgs[i].1@)) == Some(target_id)
        }),
        final(gatherer).stopped() == old(gatherer).stopped(),
{
    proof {
        let msgs = gatherer.messages();
        let i = index_of_command(msgs, socket_cmd::CHECK_ID_RES@);
        lemma_index_of_command(msgs, socket_cmd::CHECK_ID_RES@);
        law_id_reply_concerns_only_its_peer(msgs[i].1@, target_id);
    }
    let (_, data) = match gatherer.pop_messages_until(socket_cmd::CHECK_ID_RES) {
        Some(m) => m,
        None => {
            return Ok(None);
        },
    };
    let (id, data) = match munch_u64(data.as_str()) {
        Ok(pair) => pair,
        Err(_) => {
            return Err(RtcConnectionError::IdParsingError);
        },
    };
    if id == target_id {
        return Ok(Some(is_true(data)));
    }
    Ok(None)
}

/// What follows the wait for the server's answer: the pending messages are
/// dropped, and a peer that does not exist is an error.
pub fn conclude_check_response(
    gatherer: &mut MessageGatherer,
    check: Result<bool, RtcConnectionError>,
) -> (r: Result<(), RtcConnectionError>)
    ensures
        match check {
            Err(e) => r == Err::<(), RtcConnectionError>(e) && *final(gatherer) == *old(gatherer),
            Ok(exists) => final(gatherer).messages() == Seq::<(String, String)>::empty()
                && final(gatherer).stopped() == old(gatherer).stopped()
                && r == (if exists {
                    Ok::<(), RtcConnectionError>(())
                } else {
                    Err(RtcConnectionError::PeerDoesNotExist)
                }),
        },
{
    let exists = match check {
        Ok(exists) => exists,
        Err(e) => {
            return Err(e);
        },
    };
    gatherer.clear_messages();
    if !exists {
        return Err(RtcConnectionError::PeerDoesNotExist);
    }
    Ok(())
}

/// One check while waiting for `target_id` to answer a connection request:
/// takes messages up to the first `#REQUEST_P2P_RES` and reads it.
pub fn request_response(gatherer: &mut MessageGatherer, target_id: u64) -> (r: Result<Option<bool>, RtcConnectionError>)
    ensures
        ({
            let msgs = old(gatherer).messages();
            let i = index_of_command(msgs, socket_cmd::REQUEST_P2P_RES@);
            &&& i == msgs.len() ==> r == Ok::<Option<bool>, RtcConnectionError>(None)
                && final(gatherer).messages() == Seq::<(String, String)>::empty()
            &&& i < msgs.len() ==> r == request_reply(msgs[i].1@, target_id)
                && final(gatherer).messages() == msgs.skip(i + 1)
            &&& i < msgs.len() && parse_u64(first_word(msgs[i].1@)) is Some
                && parse_u64(first_word(after_first_word(msgs[i].1@))) is Some
                && parse_u64(first_word(after_first_word(msgs[i].1@)))->0 != target_id
                ==> r == Ok::<Option<bool>, RtcConnectionError>(None)
            &&& r matches Ok(Some(_)) ==> i < msgs.len()
                && parse_u64(first_word(after_first_word(msgs[i].1@))) == Some(target_id)
        }),
        final(gatherer).stopped() == old(gatherer).stopped(),
{
    proof {
        let msgs = gatherer.messages();
        let i = index_of_command(msgs, socket_cmd::REQUEST_P2P_RES@);
        lemma_index_of_command(msgs, socket_cmd::REQUEST_P2P_RES@);
        law_request_reply_concerns_only_its_sender(msgs[i].1@, target_id);
    }
    let (_, data) = match gatherer.pop_messages_until(socket_cmd::REQUEST_P2P_RES) {
        Some(m) => m,
        None => {
            return Ok(None);
        },
    };
    let data = match munch_u64(data.as_str()) {
        Ok((_, data)) => data,
        Err(_) => {
            return Err(RtcConnectionError::IdParsingError);
        },
    };
    let (sender_id, data) = match munch_u64(data) {
        Ok(pair) => pair,
        Err(_) => {
            return Err(RtcConnectionError::IdParsingError);
        },
    };
    if sender_id == target_id {
        return Ok(Some(is_true(data)));
    }
    Ok(None)
}

/// Scans the pending messages for the session answer of `target_id`: the
/// outcome and how many messages it takes. A message that is not an answer
/// ends the scan without an outcome; answers from other peers are skipped.
pub open spec fn scan_answers(msgs: Seq<(String, String)>, target_id: u64) -> (Result<Option<Seq<char>>, RtcConnectionError>, nat)
    decreases msgs.len(),
{
    if msgs.len() == 0 {
        (Ok(None), 0)
    } else if msgs[0].0@ != socket_cmd::ANSWER@ {
        (Ok(None), 1)
    } else {
        let data = msgs[0].1@;
        if parse_u64(first_word(data)) is None {
            (Err(RtcConnectionError::IdParsingError), 1)
        } else {
            let rest = after_first_word(data);
            match parse_u64(first_word(rest)) {
                None => (Err(RtcConnectionError::IdParsingError), 1),
                Some(sender) => if sender == target_id {
                    (Ok(Some(trim_ws(after_first_word(rest)))), 1)
                } else {
                    let next = scan_answers(msgs.drop_first(), target_id);
                    (next.0, next.1 + 1)
                },
            }
        }
    }
}

pub proof fn lemma_scan_answers_len(msgs: Seq<(String, String)>, target_id: u64)
    ensures
        scan_answers(msgs, target_id).1 <= msgs.len(),
    decreases msgs.len(),
{
    if msgs.len() > 0 {
        lemma_scan_answers_len(msgs.drop_first(), target_id);
    }
}

/// One check while waiting for the session answer of `target_id`.
pub fn answer_response(gatherer: &mut MessageGatherer, target_id: u64) -> (r: Result<Option<String>, RtcConnectionError>)
    ensures
        ({
            let msgs = old(gatherer).messages();
            let scan = scan_answers(msgs, target_id);
            &&& final(gatherer).messages() == msgs.skip(scan.1 as int)
            &&& match scan.0 {
                Ok(None) => r == Ok::<Option<String>, RtcConnectionError>(None),
                Ok(Some(answer)) => r matches Ok(Some(a)) && a@ == answer,
                Err(e) => r == Err::<Option<String>, RtcConnectionError>(e),
            }
        }),
        final(gatherer).stopped() == old(gatherer).stopped(),
{
    let ghost msgs = old(gatherer).messages();
    let ghost mut taken: int = 0;
    proof { lemma_scan_answers_len(msgs, target_id); }
    assert(msgs.skip(0) =~= msgs);
    loop
        invariant
            0 <= taken <= msgs.len(),
            msgs == old(gatherer).messages(),
            gatherer.messages() == msgs.skip(taken),
            gatherer.stopped() == old(gatherer).stopped(),
            scan_answers(msgs, target_id) == ({
                let next = scan_answers(msgs.skip(taken), target_id);
                (next.0, next.1 + taken as nat)
            }),
        decreases msgs.len() - taken,
    {
        let ghost rest_msgs = msgs.skip(taken);
        let (command, data) = match gatherer.pop_message() {
            Some(m) => m,
            None => {
                return Ok(None);
            },
        };
        assert(rest_msgs[0] == (command, data));
        assert(rest_msgs.drop_first() =~= msgs.skip(taken + 1));
        proof { taken = taken + 1; }
        if !str_eq(command.as_str(), socket_cmd::ANSWER) {
            return Ok(None);
        }
        let data = match munch_u64(data.as_str()) {
            Ok((_, data)) => data,
            Err(_) => {
                return Err(RtcConnectionError::IdParsingError);
            },
        };
        let (sender_id, data) = match munch_u64(data) {
            Ok(pair) => pair,
            Err(_) => {
                return Err(RtcConnectionError::IdParsingError);
            },
        };
        if sender_id == target_id {
            let answer = trim(data).to_owned();
            return Ok(Some(answer));
        }
    }
}


/// Reading a routed message word by word gives back its command, both ids and
/// its trimmed payload.
pub proof fn lemma_routed_words(command: Seq<char>, target_id: u64, sender_id: u64, payload: Seq<char>)
    requires
        index_of_char(command, ' ') == command.len(),
    ensures
        ({
            let m = routed(command, target_id, sender_id, payload);
            let data = after_first_word(m);
            let rest = after_first_word(data);
            &&& first_word(m) == command
            &&& parse_u64(first_word(data)) == Some(target_id)
            &&& parse_u64(first_word(rest)) == Some(sender_id)
            &&& after_first_word(rest) == trim_ws(payload)
        }),
{
    let sp = seq![' '];
    let d1 = decimal(target_id as nat);
    let d2 = decimal(sender_id as nat);
    lemma_decimal_digits(target_id as nat);
    lemma_decimal_digits(sender_id as nat);
    let m = routed(command, target_id, sender_id, payload);
    let x = d1 + sp + d2 + sp + payload;
    assert(m =~= command + (sp + x));
    lemma_index_of_char_concat(command, sp + x, ' ');
    assert((sp + x)[0] == ' ');
    assert(m.take(command.len() as int) =~= command);
    assert(m.skip(command.len() as int) =~= sp + x);
    // the data is the message without its command and without trailing whitespace
    assert(sp.drop_first() =~= Seq::<char>::empty());
    assert(trim_start_ws(sp) == trim_start_ws(Seq::<char>::empty()));
    lemma_trim_start_concat(sp, x);
    assert(x[0] == d1[0]);
    assert(trim_start_ws(x) == x);
    let te = trim_end_ws(payload);
    let r: Seq<char> = if te.len() > 0 { sp + te } else { Seq::empty() };
    lemma_trim_end_concat(sp, payload);
    assert(sp.drop_last() =~= Seq::<char>::empty());
    assert(trim_end_ws(sp) == trim_end_ws(Seq::<char>::empty()));
    assert(trim_end_ws(sp + payload) == r);
    let head = d1 + sp + d2;
    assert(x =~= head + (sp + payload));
    lemma_trim_end_concat(head, sp + payload);
    assert(head.last() == d2.last());
    assert(trim_end_ws(head) == head);
    let data = after_first_word(m);
    assert(data == trim_end_ws(x));
    assert(data =~= d1 + sp + (d2 + r));
    lemma_words_of_decimal(target_id, d2 + r);
    // the rest after the first id
    let rest = after_first_word(data);
    assert(rest == trim_ws(d2 + r));
    assert((d2 + r)[0] == d2[0]);
    assert(trim_start_ws(d2 + r) == d2 + r);
    lemma_trim_ws_of_trim_end(payload);
    lemma_trim_end_shape(payload);
    if te.len() > 0 {
        assert(r.last() == te.last());
        assert(trim_end_ws(r) == r);
        lemma_trim_end_concat(d2, r);
        assert(rest == d2 + r);
        assert(rest =~= d2 + sp + te);
        lemma_words_of_decimal(sender_id, te);
    } else {
        assert(d2 + r =~= d2);
        assert(trim_end_ws(d2) == d2);
        assert(rest == d2);
        assert(d2.take(d2.len() as int) =~= d2);
        assert(d2.skip(d2.len() as int) =~= Seq::<char>::empty());
        assert(te =~= Seq::<char>::empty());
        assert(trim_ws(Seq::<char>::empty()) =~= Seq::<char>::empty());
    }
}

proof fn lemma_bool_text(v: bool)
    ensures
        trim_ws(bool_text(v)) == bool_text(v),
        says_true(bool_text(v)) == v,
{
    let t = bool_text(v);
    assert(t[0] == 't' || t[0] == 'f');
    assert(!is_white_space(t[0]));
    assert(t.last() == 'e');
    lemma_trim_ws_unchanged(t);
    if !v {
        assert(t.len() != bool_text(true).len());
    }
}

/// A session answer that `sender_id` formats for `target_id` and that reaches
/// the target's socket is read by the target, waiting for `sender_id`, as the
/// trimmed session description.
pub proof fn law_answer_round_trip(msgs: Seq<(String, String)>, target_id: u64, sender_id: u64, sdp: Seq<char>)
    requires
        msgs.len() > 0,
        msgs[0].0@ == first_word(routed(socket_cmd::ANSWER@, target_id, sender_id, sdp)),
        msgs[0].1@ == after_first_word(routed(socket_cmd::ANSWER@, target_id, sender_id, sdp)),
    ensures
        scan_answers(msgs, sender_id) == (Ok::<Option<Seq<char>>, RtcConnectionError>(Some(trim_ws(sdp))), 1nat),
{
    reveal_strlit("#ANSWER");
    lemma_char_absent(socket_cmd::ANSWER@, ' ');
    lemma_routed_words(socket_cmd::ANSWER@, target_id, sender_id, sdp);
    lemma_trim_ws_idempotent(sdp);
}

/// The answer a peer gives to a connection request reaches the requester,
/// waiting for that peer, as the peer's decision.
pub proof fn law_request_round_trip(requester_id: u64, responder_id: u64, is_valid: bool)
    ensures
        ({
            let m = routed(socket_cmd::REQUEST_P2P_RES@, requester_id, responder_id, bool_text(is_valid));
            &&& first_word(m) == socket_cmd::REQUEST_P2P_RES@
            &&& request_reply(after_first_word(m), responder_id) == Ok::<Option<bool>, RtcConnectionError>(
                Some(is_valid),
            )
        }),
{
    reveal_strlit("#REQUEST_P2P_RES");
    lemma_char_absent(socket_cmd::REQUEST_P2P_RES@, ' ');
    lemma_routed_words(socket_cmd::REQUEST_P2P_RES@, requester_id, responder_id, bool_text(is_valid));
    lemma_bool_text(is_valid);
}

/// A connection request and a session offer that a peer formats reach the
/// listening peer as a request and an offer of that peer, with the trimmed text.
pub proof fn law_peer_messages_round_trip(target_id: u64, sender_id: u64, text: Seq<char>)
    ensures
        ({
            let req = routed(socket_cmd::REQUEST_P2P@, target_id, sender_id, text);
            let offer = routed(socket_cmd::OFFER@, target_id, sender_id, text);
            &&& super::peer_event_spec(first_word(req), after_first_word(req)) == Some((true, sender_id, trim_ws(text)))
            &&& super::peer_event_spec(first_word(offer), after_first_word(offer)) == Some((false, sender_id, trim_ws(text)))
        }),
{
    reveal_strlit("#REQUEST_P2P");
    reveal_strlit("#OFFER");
    lemma_char_absent(socket_cmd::REQUEST_P2P@, ' ');
    lemma_char_absent(socket_cmd::OFFER@, ' ');
    assert(socket_cmd::REQUEST_P2P@.len() != socket_cmd::OFFER@.len());
    lemma_routed_words(socket_cmd::REQUEST_P2P@, target_id, sender_id, text);
    lemma_routed_words(socket_cmd::OFFER@, target_id, sender_id, text);
}

/// The server's answer `<target> true|false` about `target_id` is read as its flag.
pub proof fn law_id_reply(target_id: u64, exists: bool)
    ensures
        id_reply(decimal(target_id as nat) + seq![' '] + bool_text(exists), target_id) == Ok::<
            Option<bool>,
            RtcConnectionError,
        >(Some(exists)),
{
    lemma_words_of_decimal(target_id, bool_text(exists));
    lemma_bool_text(exists);
}

/// The server's answer about a peer decides only for the peer it names: for
/// any other target it is no answer at all, whatever flag it carries, and an
/// answer that decides names the target.
pub proof fn law_id_reply_concerns_only_its_peer(data: Seq<char>, target_id: u64)
    ensures
        parse_u64(first_word(data)) is Some && parse_u64(first_word(data))->0 != target_id
            ==> id_reply(data, target_id) == Ok::<Option<bool>, RtcConnectionError>(None),
        id_reply(data, target_id) matches Ok(Some(_))
            ==> parse_u64(first_word(data)) == Some(target_id),
{
}

/// One answer from the server decides for at most one peer.
pub proof fn law_id_reply_decides_for_one_peer(data: Seq<char>, target_a: u64, target_b: u64)
    requires
        target_a != target_b,
    ensures
        !(id_reply(data, target_a) matches Ok(Some(_)) && id_reply(data, target_b) matches Ok(Some(_))),
{
}

/// A reply to a connection request decides only for the peer that sent it:
/// for any other awaited peer it is no reply at all, whatever it says, and a
/// reply that decides was sent by the awaited peer.
pub proof fn law_request_reply_concerns_only_its_sender(data: Seq<char>, target_id: u64)
    ensures
        parse_u64(first_word(data)) is Some && parse_u64(first_word(after_first_word(data))) is Some
            && parse_u64(first_word(after_first_word(data)))->0 != target_id
            ==> request_reply(data, target_id) == Ok::<Option<bool>, RtcConnectionError>(None),
        request_reply(data, target_id) matches Ok(Some(_))
            ==> parse_u64(first_word(after_first_word(data))) == Some(target_id),
{
}

/// One reply to a connection request decides for at most one awaited peer.
pub proof fn law_request_reply_decides_for_one_peer(data: Seq<char>, target_a: u64, target_b: u64)
    requires
        target_a != target_b,
    ensures
        !(request_reply(data, target_a) matches Ok(Some(_)) && request_reply(data, target_b) matches Ok(Some(
            _,
        ))),
{
}

/// The reply that `responder_id` formats for `requester_id` is no reply for a
/// requester that awaits any other peer, whether it accepts or refuses; the
/// server's answer about `target_id` is no answer for any other peer.
pub proof fn law_replies_reach_only_their_peer(
    requester_id: u64,
    responder_id: u64,
    is_valid: bool,
    awaited_id: u64,
)
    requires
        awaited_id != responder_id,
    ensures
        ({
            let m = routed(socket_cmd::REQUEST_P2P_RES@, requester_id, responder_id, bool_text(is_valid));
            request_reply(after_first_word(m), awaited_id) == Ok::<Option<bool>, RtcConnectionError>(None)
        }),
        id_reply(decimal(responder_id as nat) + seq![' '] + bool_text(is_valid), awaited_id) == Ok::<
            Option<bool>,
            RtcConnectionError,
        >(None),
{
    reveal_strlit("#REQUEST_P2P_RES");
    lemma_char_absent(socket_cmd::REQUEST_P2P_RES@, ' ');
    lemma_routed_words(socket_cmd::REQUEST_P2P_RES@, requester_id, responder_id, bool_text(is_valid));
    lemma_words_of_decimal(responder_id, bool_text(is_valid));
}

} // verus!
