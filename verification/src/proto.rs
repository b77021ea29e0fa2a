//! The wire shape of a command: one tag byte followed by the UTF-8 bytes of
//! the payload.

use vstd::prelude::*;
use vstd::string::*;
use vstd::utf8::{encode_utf8, valid_utf8, encode_utf8_decode_utf8};

verus! {

pub const CONNECT: u8 = 0x01;

pub const PUB: u8 = 0x02;

pub const SUB: u8 = 0x03;

pub const UNSUB: u8 = 0x04;

pub const PING: u8 = 0x07;

pub const OK: u8 = 0x09;

/// A parsed command of the wire protocol.
#[derive(Debug)]
pub enum Message {
    Connect(String),
    Pub(String),
    Sub(String),
    Unsub(String),
    Ping(String),
    Ack(String),
}

/// The mathematical value of a `Message`.
pub enum MessageView {
    Connect(Seq<char>),
    Pub(Seq<char>),
    Sub(Seq<char>),
    Unsub(Seq<char>),
    Ping(Seq<char>),
    Ack(Seq<char>),
}

impl View for Message {
    type V = MessageView;

    open spec fn view(&self) -> MessageView {
        match self {
            Message::Connect(s) => MessageView::Connect(s@),
            Message::Pub(s) => MessageView::Pub(s@),
            Message::Sub(s) => MessageView::Sub(s@),
            Message::Unsub(s) => MessageView::Unsub(s@),
            Message::Ping(s) => MessageView::Ping(s@),
            Message::Ack(s) => MessageView::Ack(s@),
        }
    }
}

pub open spec fn tag_of(m: MessageView) -> u8 {
    match m {
        MessageView::Connect(_) => CONNECT,
        MessageView::Pub(_) => PUB,
        MessageView::Sub(_) => SUB,
        MessageView::Unsub(_) => UNSUB,
        MessageView::Ping(_) => PING,
        MessageView::Ack(_) => OK,
    }
}

pub open spec fn payload_of(m: MessageView) -> Seq<char> {
    match m {
        MessageView::Connect(s) => s,
        MessageView::Pub(s) => s,
        MessageView::Sub(s) => s,
        MessageView::Unsub(s) => s,
        MessageView::Ping(s) => s,
        MessageView::Ack(s) => s,
    }
}

pub open spec fn known_tag(t: u8) -> bool {
    t == CONNECT || t == PUB || t == SUB || t == UNSUB || t == PING || t == OK
}

/// The wire bytes of a message: its tag, then its payload in UTF-8.
pub open spec fn encode_spec(m: MessageView) -> Seq<u8> {
    seq![tag_of(m)] + encode_utf8(payload_of(m))
}

/// Relies on String::from_utf8: `Some` exactly on valid UTF-8, and the
/// returned string is the one whose UTF-8 encoding is the input.
#[verifier::external_body]
fn bytes_to_string(v: Vec<u8>) -> (r: Option<String>)
    ensures
        match r {
            Some(s) => valid_utf8(v@) && encode_utf8(s@) == v@,
            None => !valid_utf8(v@),
        },
{
    String::from_utf8(v).ok()
}

/// The datagram codec: one tag byte, then the payload bytes.
#[derive(Default)]
pub struct MessageCodec;

impl MessageCodec {
    /// Parses a datagram: `None` on an empty buffer, an unknown tag, or a
    /// payload that is not UTF-8.
    pub fn decode(&self, buf: &Vec<u8>) -> (r: Option<Message>)
        ensures
            match r {
                Some(m) => {
                    &&& buf@.len() >= 1
                    &&& known_tag(buf@[0])
                    &&& tag_of(m@) == buf@[0]
                    &&& encode_utf8(payload_of(m@)) == buf@.skip(1)
                },
                None => buf@.len() == 0 || !known_tag(buf@[0]) || !valid_utf8(buf@.skip(1)),
            },
    {
        if buf.len() == 0 {
            return None;
        }
        let tag = buf[0];
        let mut rest: Vec<u8> = Vec::new();
        let mut k: usize = 1;
        proof {
            assert(rest@ =~= buf@.subrange(1, 1));
        }
        while k < buf.len()
            invariant
                1 <= k <= buf@.len(),
                rest@ == buf@.subrange(1, k as int),
            decreases buf@.len() - k,
        {
            let b = buf[k];
            proof {
                assert(buf@.subrange(1, k + 1) =~= buf@.subrange(1, k as int).push(
                    buf@[k as int],
                ));
            }
            rest.push(b);
            k = k + 1;
        }
        proof {
            assert(buf@.subrange(1, buf@.len() as int) =~= buf@.skip(1));
        }
        let payload = match bytes_to_string(rest) {
            Some(s) => s,
            None => {
                return None;
            },
        };
        if tag == CONNECT {
            Some(Message::Connect(payload))
        } else if tag == PUB {
            Some(Message::Pub(payload))
        } else if tag == SUB {
            Some(Message::Sub(payload))
        } else if tag == UNSUB {
            Some(Message::Unsub(payload))
        } else if tag == PING {
            Some(Message::Ping(payload))
        } else if tag == OK {
            Some(Message::Ack(payload))
        } else {
            None
        }
    }

    /// Writes a message as a datagram: its tag byte, then its payload's
    /// UTF-8 bytes.
    pub fn encode(&self, msg: &Message) -> (out: Vec<u8>)
        ensures
            out@ == encode_spec(msg@),
    {
        let mut out: Vec<u8> = Vec::new();
        let tag: u8 = match msg {
            Message::Connect(_) => CONNECT,
            Message::Pub(_) => PUB,
            Message::Sub(_) => SUB,
            Message::Unsub(_) => UNSUB,
            Message::Ping(_) => PING,
            Message::Ack(_) => OK,
        };
        out.push(tag);
        let payload: &String = match msg {
            Message::Connect(s) => s,
            Message::Pub(s) => s,
            Message::Sub(s) => s,
            Message::Unsub(s) => s,
            Message::Ping(s) => s,
            Message::Ack(s) => s,
        };
        let mut pb = payload.as_str().as_bytes_vec();
        out.append(&mut pb);
        proof {
            assert(out@ =~= encode_spec(msg@));
        }
        out
    }
}

/// The wire shape is unambiguous: two messages with the same encoding are
/// the same message.
pub proof fn law_encode_injective(m1: MessageView, m2: MessageView)
    requires
        encode_spec(m1) == encode_spec(m2),
    ensures
        m1 == m2,
{
    assert(encode_spec(m1)[0] == tag_of(m1));
    assert(encode_spec(m2)[0] == tag_of(m2));
    assert(tag_of(m1) == tag_of(m2));
    assert(encode_spec(m1).skip(1) =~= encode_utf8(payload_of(m1)));
    assert(encode_spec(m2).skip(1) =~= encode_utf8(payload_of(m2)));
    encode_utf8_decode_utf8(payload_of(m1));
    encode_utf8_decode_utf8(payload_of(m2));
    assert(payload_of(m1) == payload_of(m2));
}

} // verus!
