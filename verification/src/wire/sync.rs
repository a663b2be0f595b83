//! Clock-measurement ping/pong messages.

use vstd::prelude::*;

use crate::wire::codec::{
    be_bytes, entry_bytes, exactly, fold_entries, lemma_be_bytes_len, lemma_entry_len,
    lemma_fold_entry, lemma_head_byte, lemma_one_byte, lemma_parse_entry, owned_bytes, parse_entry,
    parse_i64, read_i64, same_bytes, Entries, Error, Reader, Writer,
};
use crate::wire::types::{
    i64_bytes, lemma_i64_value, lemma_parse_id, parse_id, write_i64_entry, write_id_entry,
    SessionId,
};

verus! {

/// Frame magic: ASCII `_link_v` + version byte 0x01.
pub const MAGIC: [u8; 8] = [0x5f, 0x6c, 0x69, 0x6e, 0x6b, 0x5f, 0x76, 0x01];

/// Receivers accept up to 512 bytes; senders stay ≤ 511.
pub const MAX_MESSAGE_SIZE: usize = 512;

/// A responder answers pings whose payload is at most this.
pub const MAX_PING_PAYLOAD: usize = 32;

/// Ping retry timer.
pub const RETRY_MS: u64 = 50;

/// Retries before a measurement fails.
pub const MAX_RETRIES: u32 = 5;

/// A measurement completes once more than this many samples are collected.
pub const SAMPLES_REQUIRED: usize = 100;

pub const TYPE_PING: u8 = 1;

pub const TYPE_PONG: u8 = 2;

/// `__ht`: initiator host time.
pub const KEY_HT: u32 = 0x5f5f_6874;

/// `__gt`: responder ghost time.
pub const KEY_GT: u32 = 0x5f5f_6774;

/// `_pgt`: previous pong's ghost time.
pub const KEY_PGT: u32 = 0x5f70_6774;

/// `sess`: session.
pub const KEY_SESS: u32 = 0x7365_7373;

/// A decoded measurement message. Measurement frames carry no ttl, group or
/// node: the conversation is the UDP 5-tuple.
#[derive(Debug, Clone, PartialEq, Eq)]
pub enum Message {
    Ping(Ping),
    Pong(Pong),
}

/// A ping as the *responder* needs it: the parsed fields plus the verbatim
/// payload bytes, which the pong must echo uninterpreted.
#[derive(Debug, Clone, PartialEq, Eq)]
pub struct Ping {
    /// `__ht`: the initiator's local clock at transmit, µs.
    pub host_time: Option<i64>,
    /// `_pgt`: the previous pong's ghost time, echoed by the initiator.
    pub prev_ghost_time: Option<i64>,
    /// The raw payload (everything after the 9-byte frame prefix).
    pub payload: Vec<u8>,
}

/// A pong: the responder's own entries plus the echoed ping payload.
#[derive(Debug, Clone, PartialEq, Eq)]
pub struct Pong {
    /// `sess`: the responder's current session.
    pub session: SessionId,
    /// `__gt`: the responder's ghost clock at pong transmit, µs.
    pub ghost_time: i64,
    /// Verbatim echo of the ping payload; parse with [`parse_echo`] to recover
    /// `__ht` / `_pgt`.
    pub echo: Vec<u8>,
}

/// The content of a message.
pub enum MessageView {
    Ping { host_time: Option<i64>, prev_ghost_time: Option<i64>, payload: Seq<u8> },
    Pong { session: SessionId, ghost_time: i64, echo: Seq<u8> },
}

impl View for Message {
    type V = MessageView;

    open spec fn view(&self) -> MessageView {
        match *self {
            Message::Ping(p) => MessageView::Ping {
                host_time: p.host_time,
                prev_ghost_time: p.prev_ghost_time,
                payload: p.payload@,
            },
            Message::Pong(p) => MessageView::Pong {
                session: p.session,
                ghost_time: p.ghost_time,
                echo: p.echo@,
            },
        }
    }
}

// --------------------------------------------------------------- encoding

/// The payload of a ping.
pub open spec fn ping_payload(host_time: i64, prev_ghost_time: Option<i64>) -> Seq<u8> {
    entry_bytes(KEY_HT, i64_bytes(host_time)) + match prev_ghost_time {
        Some(pgt) => entry_bytes(KEY_PGT, i64_bytes(pgt)),
        None => Seq::empty(),
    }
}

/// The datagram of a ping.
pub open spec fn ping_bytes(host_time: i64, prev_ghost_time: Option<i64>) -> Seq<u8> {
    MAGIC@ + be_bytes(TYPE_PING as nat, 1) + ping_payload(host_time, prev_ghost_time)
}

/// The datagram of a pong.
pub open spec fn pong_bytes(session: SessionId, ghost_time: i64, echo: Seq<u8>) -> Seq<u8> {
    MAGIC@ + be_bytes(TYPE_PONG as nat, 1) + (entry_bytes(KEY_SESS, session.0@) + (entry_bytes(
        KEY_GT,
        i64_bytes(ghost_time),
    ) + echo))
}

/// Encode a ping: `{__ht}` for a fresh/retry ping, `{__ht, _pgt}` in the
/// steady-state chain.
pub fn encode_ping(host_time: i64, prev_ghost_time: Option<i64>) -> (v: Vec<u8>)
    ensures
        v@ == ping_bytes(host_time, prev_ghost_time),
{
    let mut w = Writer::new();
    w.bytes(MAGIC.as_slice());
    w.u8(TYPE_PING);
    write_i64_entry(&mut w, KEY_HT, host_time);
    if let Some(pgt) = prev_ghost_time {
        write_i64_entry(&mut w, KEY_PGT, pgt);
    }
    proof {
        assert(w@ =~= ping_bytes(host_time, prev_ghost_time));
    }
    w.into_vec()
}

/// Encode a pong: own `sess` and `__gt` entries, then the ping payload
/// appended verbatim.
pub fn encode_pong(session: SessionId, ghost_time: i64, echo: &[u8]) -> (v: Vec<u8>)
    ensures
        v@ == pong_bytes(session, ghost_time, echo@),
{
    let mut w = Writer::new();
    w.bytes(MAGIC.as_slice());
    w.u8(TYPE_PONG);
    write_id_entry(&mut w, KEY_SESS, &session);
    write_i64_entry(&mut w, KEY_GT, ghost_time);
    w.bytes(echo);
    proof {
        assert(w@ =~= pong_bytes(session, ghost_time, echo@));
    }
    w.into_vec()
}

// --------------------------------------------------------------- decoding

/// How one entry updates `(__ht, _pgt)`; other keys are skipped.
pub open spec fn echo_step(
    acc: (Option<i64>, Option<i64>),
    key: u32,
    value: Seq<u8>,
) -> Result<(Option<i64>, Option<i64>), Error> {
    if key == KEY_HT {
        match exactly(parse_i64(value)) {
            Ok(v) => Ok((Some(v), acc.1)),
            Err(e) => Err(e),
        }
    } else if key == KEY_PGT {
        match exactly(parse_i64(value)) {
            Ok(v) => Ok((acc.0, Some(v))),
            Err(e) => Err(e),
        }
    } else {
        Ok(acc)
    }
}

/// The `(__ht, _pgt)` that a payload container holds.
pub open spec fn echo_times(payload: Seq<u8>) -> Result<(Option<i64>, Option<i64>), Error> {
    fold_entries(payload, (None, None), |acc, key, value| echo_step(acc, key, value))
}

/// How one leading pong entry updates `(sess, __gt)`; no other key may lead.
pub open spec fn pong_step(
    acc: (Option<SessionId>, Option<i64>),
    key: u32,
    value: Seq<u8>,
) -> Result<(Option<SessionId>, Option<i64>), Error> {
    if key == KEY_SESS {
        match exactly(parse_id(value)) {
            Ok(v) => Ok((Some(v), acc.1)),
            Err(e) => Err(e),
        }
    } else if key == KEY_GT {
        match exactly(parse_i64(value)) {
            Ok(v) => Ok((acc.0, Some(v))),
            Err(e) => Err(e),
        }
    } else {
        Err(Error::Malformed("unexpected leading pong entry"))
    }
}

/// What up to `n` leading entries make of `acc`, and the bytes after them.
pub open spec fn pong_lead(
    s: Seq<u8>,
    acc: (Option<SessionId>, Option<i64>),
    n: nat,
) -> Result<((Option<SessionId>, Option<i64>), Seq<u8>), Error>
    decreases n,
{
    if n == 0 || s.len() == 0 {
        Ok((acc, s))
    } else {
        match parse_entry(s) {
            (Ok((key, value)), rest) => match pong_step(acc, key, value) {
                Ok(next) => pong_lead(rest, next, (n - 1) as nat),
                Err(e) => Err(e),
            },
            (Err(e), _) => Err(e),
        }
    }
}

/// What a pong payload decodes to: the responder's two entries, in either
/// order, then the echo.
pub open spec fn pong_content(payload: Seq<u8>) -> Result<MessageView, Error> {
    match pong_lead(payload, (None, None), 2) {
        Ok(((Some(session), Some(ghost_time)), echo)) => Ok(
            MessageView::Pong { session, ghost_time, echo },
        ),
        Ok(_) => Err(Error::Malformed("pong missing sess/__gt")),
        Err(e) => Err(e),
    }
}

/// What a datagram decodes to.
pub open spec fn decoded(datagram: Seq<u8>) -> Result<MessageView, Error> {
    if datagram.len() < 9 {
        Err(Error::Truncated)
    } else if datagram.take(8) != MAGIC@ {
        Err(Error::BadMagic)
    } else {
        let msg_type = datagram[8];
        let payload = datagram.skip(9);
        if msg_type == TYPE_PING {
            match echo_times(payload) {
                Ok((host_time, prev_ghost_time)) => Ok(
                    MessageView::Ping { host_time, prev_ghost_time, payload },
                ),
                Err(e) => Err(e),
            }
        } else if msg_type == TYPE_PONG {
            pong_content(payload)
        } else {
            Err(Error::UnknownMessageType(msg_type))
        }
    }
}

/// Recover `(__ht, _pgt)` from a pong's echoed payload: the previous host time
/// and ghost time of the offset estimator.
pub fn parse_echo(echo: &[u8]) -> (res: Result<(Option<i64>, Option<i64>), Error>)
    ensures
        res == echo_times(echo@),
{
    let ghost step = |acc: (Option<i64>, Option<i64>), key: u32, value: Seq<u8>|
        echo_step(acc, key, value);
    let mut ht: Option<i64> = None;
    let mut pgt: Option<i64> = None;
    let mut entries = Entries::new(echo);
    loop
        invariant
            step == (|acc: (Option<i64>, Option<i64>), key: u32, value: Seq<u8>|
                echo_step(acc, key, value)),
            echo_times(echo@) == fold_entries(entries@, (ht, pgt), step),
        decreases entries@.len(),
    {
        let entry = match entries.next() {
            Some(entry) => entry?,
            None => {
                return Ok((ht, pgt));
            },
        };
        if entry.key == KEY_HT {
            ht = Some(entry.decode(read_i64)?);
        } else if entry.key == KEY_PGT {
            pgt = Some(entry.decode(read_i64)?);
        }
    }
}

/// Decode a pong payload: the responder's own two entries (`sess`, `__gt`) in
/// either order; everything after them is the echo.
fn decode_pong(payload: &[u8]) -> (res: Result<Message, Error>)
    ensures
        match res {
            Ok(m) => pong_content(payload@) == Ok::<_, Error>(m@),
            Err(e) => pong_content(payload@) == Err::<MessageView, _>(e),
        },
{
    let mut session: Option<SessionId> = None;
    let mut ghost_time: Option<i64> = None;
    let mut entries = Entries::new(payload);
    let mut i: u8 = 0;
    while i < 2
        invariant_except_break
            i <= 2,
            pong_lead(payload@, (None, None), 2) == pong_lead(
                entries@,
                (session, ghost_time),
                (2 - i) as nat,
            ),
        ensures
            pong_lead(payload@, (None, None), 2) == Ok::<_, Error>(
                ((session, ghost_time), entries@),
            ),
        decreases 2 - i,
    {
        let entry = match entries.next() {
            Some(entry) => entry?,
            None => {
                break;
            },
        };
        if entry.key == KEY_SESS {
            session = Some(entry.decode(SessionId::read)?);
        } else if entry.key == KEY_GT {
            ghost_time = Some(entry.decode(read_i64)?);
        } else {
            return Err(Error::Malformed("unexpected leading pong entry"));
        }
        i = i + 1;
    }
    match (session, ghost_time) {
        (Some(session), Some(ghost_time)) => Ok(
            Message::Pong(Pong { session, ghost_time, echo: owned_bytes(entries.rest()) }),
        ),
        _ => Err(Error::Malformed("pong missing sess/__gt")),
    }
}

/// Decode a measurement datagram.
pub fn decode(datagram: &[u8]) -> (res: Result<Message, Error>)
    ensures
        match res {
            Ok(m) => decoded(datagram@) == Ok::<_, Error>(m@),
            Err(e) => decoded(datagram@) == Err::<MessageView, _>(e),
        },
{
    let mut r = Reader::new(datagram);
    if r.remaining() < 9 {
        return Err(Error::Truncated);
    }
    if !same_bytes(r.take(8)?, MAGIC.as_slice()) {
        return Err(Error::BadMagic);
    }
    let msg_type = r.u8()?;
    let payload = r.rest();
    proof {
        lemma_head_byte(datagram@, 8);
    }
    if msg_type == TYPE_PING {
        let (host_time, prev_ghost_time) = parse_echo(payload)?;
        Ok(Message::Ping(Ping { host_time, prev_ghost_time, payload: owned_bytes(payload) }))
    } else if msg_type == TYPE_PONG {
        decode_pong(payload)
    } else {
        Err(Error::UnknownMessageType(msg_type))
    }
}

// ------------------------------------------------------------------- laws

/// Decoding an encoded ping gives the ping: its two times, and as its payload
/// everything after the frame prefix.
pub proof fn law_ping_roundtrip(host_time: i64, prev_ghost_time: Option<i64>)
    ensures
        decoded(ping_bytes(host_time, prev_ghost_time)) == Ok::<_, Error>(
            MessageView::Ping {
                host_time: Some(host_time),
                prev_ghost_time,
                payload: ping_payload(host_time, prev_ghost_time),
            },
        ),
{
    let payload = ping_payload(host_time, prev_ghost_time);
    let whole = ping_bytes(host_time, prev_ghost_time);
    law_echo_of_ping_payload(host_time, prev_ghost_time);
    lemma_prefix(TYPE_PING, payload);
}

/// The times recovered from an echoed ping payload are those of the ping.
pub proof fn law_echo_of_ping_payload(host_time: i64, prev_ghost_time: Option<i64>)
    ensures
        echo_times(ping_payload(host_time, prev_ghost_time)) == Ok::<_, Error>(
            (Some(host_time), prev_ghost_time),
        ),
{
    let step = |acc: (Option<i64>, Option<i64>), key: u32, value: Seq<u8>|
        echo_step(acc, key, value);
    let none = Seq::<u8>::empty();
    let tail = match prev_ghost_time {
        Some(pgt) => entry_bytes(KEY_PGT, i64_bytes(pgt)),
        None => none,
    };
    lemma_i64_value(host_time);
    lemma_fold_entry(KEY_HT, i64_bytes(host_time), tail, (None, None), step);
    if let Some(pgt) = prev_ghost_time {
        lemma_i64_value(pgt);
        assert(tail =~= tail + none);
        lemma_fold_entry(KEY_PGT, i64_bytes(pgt), none, (Some(host_time), None), step);
    }
}

/// Decoding an encoded pong gives the pong; the echo comes back verbatim,
/// whatever bytes it holds.
pub proof fn law_pong_roundtrip(session: SessionId, ghost_time: i64, echo: Seq<u8>)
    ensures
        decoded(pong_bytes(session, ghost_time, echo)) == Ok::<_, Error>(
            MessageView::Pong { session, ghost_time, echo },
        ),
{
    let none = Seq::<u8>::empty();
    let second = entry_bytes(KEY_GT, i64_bytes(ghost_time)) + echo;
    lemma_prefix(TYPE_PONG, entry_bytes(KEY_SESS, session.0@) + second);
    lemma_parse_id(session, none);
    assert(session.0@ + none =~= session.0@);
    lemma_i64_value(ghost_time);
    lemma_pong_lead(KEY_SESS, session.0@, second, (None, None), 2);
    lemma_pong_lead(KEY_GT, i64_bytes(ghost_time), echo, (Some(session), None), 1);
}

proof fn lemma_pong_lead(
    key: u32,
    value: Seq<u8>,
    rest: Seq<u8>,
    acc: (Option<SessionId>, Option<i64>),
    n: nat,
)
    requires
        value.len() <= u32::MAX,
        n > 0,
    ensures
        pong_lead(entry_bytes(key, value) + rest, acc, n) == match pong_step(acc, key, value) {
            Ok(next) => pong_lead(rest, next, (n - 1) as nat),
            Err(e) => Err(e),
        },
{
    lemma_parse_entry(key, value, rest);
    lemma_entry_len(key, value);
}

/// Sizes on the wire: 25 bytes for a first ping, 41 in the chain, and a pong
/// is 41 bytes longer than the payload it echoes.
pub proof fn law_message_sizes(
    host_time: i64,
    prev_ghost_time: Option<i64>,
    session: SessionId,
    echo: Seq<u8>,
)
    ensures
        ping_bytes(host_time, prev_ghost_time).len() == if prev_ghost_time is Some {
            41nat
        } else {
            25
        },
        ping_payload(host_time, prev_ghost_time).len() <= MAX_PING_PAYLOAD,
        pong_bytes(session, host_time, echo).len() == 41 + echo.len(),
{
    lemma_be_bytes_len(1, 1);
    lemma_be_bytes_len(2, 1);
    lemma_i64_value(host_time);
    lemma_entry_len(KEY_HT, i64_bytes(host_time));
    lemma_entry_len(KEY_SESS, session.0@);
    lemma_entry_len(KEY_GT, i64_bytes(host_time));
    if let Some(pgt) = prev_ghost_time {
        lemma_i64_value(pgt);
        lemma_entry_len(KEY_PGT, i64_bytes(pgt));
    }
}

proof fn lemma_prefix(msg_type: u8, payload: Seq<u8>)
    ensures
        ({
            let whole = MAGIC@ + be_bytes(msg_type as nat, 1) + payload;
            &&& whole.len() == 9 + payload.len()
            &&& whole.take(8) == MAGIC@
            &&& whole[8] == msg_type
            &&& whole.skip(9) == payload
        }),
{
    let whole = MAGIC@ + be_bytes(msg_type as nat, 1) + payload;
    lemma_one_byte(msg_type);
    assert(whole.take(8) =~= MAGIC@);
    assert(whole.skip(9) =~= payload);
}

} // verus!
