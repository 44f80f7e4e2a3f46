//! Messages and their record in a segment's log.
//!
//! A log record is variable in width, all integers little-endian:
//!
//! ```text
//! offset:u64 | state:u8 | timestamp:u64 | id:u128 | checksum:u32 |
//! headers_length:u32 | headers | payload_length:u32 | payload
//! ```

use vstd::bytes::*;
use vstd::prelude::*;
use vstd::slice::{slice_subrange, slice_to_vec};
use crate::wire::{
    put_u128, put_u32, put_u64, read_u128, read_u32, read_u64, u128_at, u32_at, u64_at,
};

verus! {

/// Bytes of a log record besides its headers and payload.
pub const RECORD_FIXED_BYTES: u64 = 45;

/// What a consumer may do with a message.
#[derive(Clone, Copy, PartialEq, Eq, Debug, Structural)]
pub enum MessageState {
    Available,
    Unavailable,
    Poisoned,
    MarkedForDeletion,
}

/// The byte that stands for `state` in a log record.
pub open spec fn state_code(state: MessageState) -> u8 {
    match state {
        MessageState::Available => 1,
        MessageState::Unavailable => 10,
        MessageState::Poisoned => 20,
        MessageState::MarkedForDeletion => 30,
    }
}

/// The state that `code` stands for, if any.
pub open spec fn state_of_code(code: u8) -> Option<MessageState> {
    if code == 1 {
        Some(MessageState::Available)
    } else if code == 10 {
        Some(MessageState::Unavailable)
    } else if code == 20 {
        Some(MessageState::Poisoned)
    } else if code == 30 {
        Some(MessageState::MarkedForDeletion)
    } else {
        None
    }
}

impl MessageState {
    /// The byte written for this state.
    pub fn as_code(&self) -> (code: u8)
        ensures
            code == state_code(*self),
    {
        match self {
            MessageState::Available => 1,
            MessageState::Unavailable => 10,
            MessageState::Poisoned => 20,
            MessageState::MarkedForDeletion => 30,
        }
    }

    /// The state written as `code`; `None` for a byte that stands for no state.
    pub fn from_code(code: u8) -> (state: Option<MessageState>)
        ensures
            state == state_of_code(code),
    {
        if code == 1 {
            Some(MessageState::Available)
        } else if code == 10 {
            Some(MessageState::Unavailable)
        } else if code == 20 {
            Some(MessageState::Poisoned)
        } else if code == 30 {
            Some(MessageState::MarkedForDeletion)
        } else {
            None
        }
    }
}

/// A message of a partition. `headers` holds the encoded header map and is
/// empty for a message without headers.
#[derive(Debug)]
pub struct Message {
    pub offset: u64,
    pub state: MessageState,
    pub timestamp: u64,
    pub id: u128,
    pub checksum: u32,
    pub headers: Vec<u8>,
    pub payload: Vec<u8>,
}

/// A message as a mathematical value.
pub struct MessageView {
    pub offset: u64,
    pub state: MessageState,
    pub timestamp: u64,
    pub id: u128,
    pub checksum: u32,
    pub headers: Seq<u8>,
    pub payload: Seq<u8>,
}

impl View for Message {
    type V = MessageView;

    open spec fn view(&self) -> MessageView {
        MessageView {
            offset: self.offset,
            state: self.state,
            timestamp: self.timestamp,
            id: self.id,
            checksum: self.checksum,
            headers: self.headers@,
            payload: self.payload@,
        }
    }
}

impl MessageView {
    /// Both lengths can be written as a `u32`.
    pub open spec fn encodable(self) -> bool {
        self.headers.len() <= u32::MAX && self.payload.len() <= u32::MAX
    }

    /// The width of the message's log record.
    pub open spec fn size(self) -> nat {
        45 + self.headers.len() + self.payload.len()
    }

    /// The same message at another place and time of a partition.
    pub open spec fn stamped(self, offset: u64, timestamp: u64) -> MessageView {
        MessageView { offset, timestamp, ..self }
    }

    /// The message's log record.
    pub open spec fn encoded(self) -> Seq<u8> {
        spec_u64_to_le_bytes(self.offset) + seq![state_code(self.state)] + spec_u64_to_le_bytes(
            self.timestamp,
        ) + spec_u128_to_le_bytes(self.id) + spec_u32_to_le_bytes(self.checksum)
            + spec_u32_to_le_bytes(self.headers.len() as u32) + self.headers
            + spec_u32_to_le_bytes(self.payload.len() as u32) + self.payload
    }
}

/// The message whose record starts at `pos` of `bytes`, and the position
/// behind it; `None` where no whole record with a known state starts there.
pub open spec fn decode_at(bytes: Seq<u8>, pos: int) -> Option<(MessageView, int)> {
    if pos < 0 || pos + 45 > bytes.len() {
        None
    } else {
        let headers_len = u32_at(bytes, pos + 37) as int;
        if pos + 45 + headers_len > bytes.len() {
            None
        } else {
            let payload_len = u32_at(bytes, pos + 41 + headers_len) as int;
            let end = pos + 45 + headers_len + payload_len;
            match state_of_code(bytes[pos + 8]) {
                Some(state) if end <= bytes.len() => Some(
                    (
                        MessageView {
                            offset: u64_at(bytes, pos),
                            state,
                            timestamp: u64_at(bytes, pos + 9),
                            id: u128_at(bytes, pos + 17),
                            checksum: u32_at(bytes, pos + 33),
                            headers: bytes.subrange(pos + 41, pos + 41 + headers_len),
                            payload: bytes.subrange(pos + 45 + headers_len, end),
                        },
                        end,
                    ),
                ),
                _ => None,
            }
        }
    }
}

/// A record is as wide as `size` says.
pub proof fn lemma_encoded_len(m: MessageView)
    ensures
        m.encoded().len() == m.size(),
{
    lemma_auto_spec_u32_to_from_le_bytes();
    lemma_auto_spec_u64_to_from_le_bytes();
    lemma_auto_spec_u128_to_from_le_bytes();
}

/// Decoding a record where it was written gives the message back, whatever
/// stands before and behind it.
pub proof fn lemma_decode_encoded(before: Seq<u8>, m: MessageView, after: Seq<u8>)
    requires
        m.encodable(),
    ensures
        decode_at(before + m.encoded() + after, before.len() as int) == Some(
            (m, (before.len() + m.size()) as int),
        ),
{
    lemma_auto_spec_u32_to_from_le_bytes();
    lemma_auto_spec_u64_to_from_le_bytes();
    lemma_auto_spec_u128_to_from_le_bytes();
    let bytes = before + m.encoded() + after;
    let pos = before.len() as int;
    let h = m.headers.len() as int;
    let p = m.payload.len() as int;
    assert(bytes.len() == before.len() + 45 + h + p + after.len());
    assert(bytes.subrange(pos, pos + 8) =~= spec_u64_to_le_bytes(m.offset));
    assert(bytes[pos + 8] == state_code(m.state));
    assert(bytes.subrange(pos + 9, pos + 17) =~= spec_u64_to_le_bytes(m.timestamp));
    assert(bytes.subrange(pos + 17, pos + 33) =~= spec_u128_to_le_bytes(m.id));
    assert(bytes.subrange(pos + 33, pos + 37) =~= spec_u32_to_le_bytes(m.checksum));
    assert(bytes.subrange(pos + 37, pos + 41) =~= spec_u32_to_le_bytes(h as u32));
    assert(u32_at(bytes, pos + 37) == h);
    assert(bytes.subrange(pos + 41, pos + 41 + h) =~= m.headers);
    assert(bytes.subrange(pos + 41 + h, pos + 45 + h) =~= spec_u32_to_le_bytes(p as u32));
    assert(u32_at(bytes, pos + 41 + h) == p);
    assert(bytes.subrange(pos + 45 + h, pos + 45 + h + p) =~= m.payload);
    assert(state_of_code(state_code(m.state)) == Some(m.state));
}

/// What decodes at `pos` is a message whose record is exactly the bytes
/// from `pos` to the position behind it.
pub proof fn lemma_decoded_record(bytes: Seq<u8>, pos: int)
    requires
        decode_at(bytes, pos) is Some,
    ensures
        ({
            let (m, end) = decode_at(bytes, pos)->0;
            &&& m.encodable()
            &&& end == pos + m.size()
            &&& pos <= end <= bytes.len()
            &&& bytes.subrange(pos, end) == m.encoded()
        }),
{
    lemma_auto_spec_u32_to_from_le_bytes();
    lemma_auto_spec_u64_to_from_le_bytes();
    lemma_auto_spec_u128_to_from_le_bytes();
    let (m, end) = decode_at(bytes, pos)->0;
    let h = m.headers.len() as int;
    let p = m.payload.len() as int;
    assert(h == u32_at(bytes, pos + 37));
    assert(p == u32_at(bytes, pos + 41 + h));
    assert(state_code(m.state) == bytes[pos + 8]);
    assert(spec_u64_to_le_bytes(m.offset) == bytes.subrange(pos, pos + 8));
    assert(spec_u64_to_le_bytes(m.timestamp) == bytes.subrange(pos + 9, pos + 17));
    assert(spec_u128_to_le_bytes(m.id) == bytes.subrange(pos + 17, pos + 33));
    assert(spec_u32_to_le_bytes(m.checksum) == bytes.subrange(pos + 33, pos + 37));
    assert(spec_u32_to_le_bytes(h as u32) == bytes.subrange(pos + 37, pos + 41));
    assert(spec_u32_to_le_bytes(p as u32) == bytes.subrange(pos + 41 + h, pos + 45 + h));
    assert(bytes.subrange(pos, end) =~= m.encoded());
}

impl Clone for Message {
    fn clone(&self) -> (copy: Message)
        ensures
            copy@ == self@,
    {
        Message {
            offset: self.offset,
            state: self.state,
            timestamp: self.timestamp,
            id: self.id,
            checksum: self.checksum,
            headers: slice_to_vec(self.headers.as_slice()),
            payload: slice_to_vec(self.payload.as_slice()),
        }
    }
}

impl Message {
    /// A message that is available to consumers, not yet placed in a partition.
    pub fn new(id: u128, checksum: u32, headers: Vec<u8>, payload: Vec<u8>) -> (message: Message)
        ensures
            message@ == (MessageView {
                offset: 0,
                state: MessageState::Available,
                timestamp: 0,
                id,
                checksum,
                headers: headers@,
                payload: payload@,
            }),
    {
        Message {
            offset: 0,
            state: MessageState::Available,
            timestamp: 0,
            id,
            checksum,
            headers,
            payload,
        }
    }

    /// The width of the message's log record, or `None` where a length does
    /// not fit the record's `u32` fields.
    pub fn size_bytes(&self) -> (size: Option<u64>)
        ensures
            size is Some <==> self@.encodable(),
            size matches Some(n) ==> n == self@.size(),
    {
        let headers_len = self.headers.len();
        let payload_len = self.payload.len();
        if headers_len > 0xffff_ffff || payload_len > 0xffff_ffff {
            None
        } else {
            Some(RECORD_FIXED_BYTES + headers_len as u64 + payload_len as u64)
        }
    }

    /// Appends the message's log record to `buf`.
    pub fn encode_into(&self, buf: &mut Vec<u8>)
        requires
            self@.encodable(),
        ensures
            final(buf)@ == old(buf)@ + self@.encoded(),
    {
        put_u64(buf, self.offset);
        buf.push(self.state.as_code());
        put_u64(buf, self.timestamp);
        put_u128(buf, self.id);
        put_u32(buf, self.checksum);
        put_u32(buf, self.headers.len() as u32);
        let mut headers = slice_to_vec(self.headers.as_slice());
        buf.append(&mut headers);
        put_u32(buf, self.payload.len() as u32);
        let mut payload = slice_to_vec(self.payload.as_slice());
        buf.append(&mut payload);
        assert(buf@ =~= old(buf)@ + self@.encoded());
    }

    /// Reads the record that starts at `pos` of `bytes`.
    pub fn decode(bytes: &[u8], pos: usize) -> (decoded: Option<(Message, usize)>)
        ensures
            match decoded {
                Some((message, end)) => decode_at(bytes@, pos as int) == Some(
                    (message@, end as int),
                ),
                None => decode_at(bytes@, pos as int) is None,
            },
    {
        let len = bytes.len();
        if pos > len || len - pos < 45 {
            return None;
        }
        let headers_len = read_u32(bytes, pos + 37) as usize;
        if len - pos - 45 < headers_len {
            return None;
        }
        let payload_len = read_u32(bytes, pos + 41 + headers_len) as usize;
        if len - pos - 45 - headers_len < payload_len {
            return None;
        }
        let end = pos + 45 + headers_len + payload_len;
        match MessageState::from_code(bytes[pos + 8]) {
            None => None,
            Some(state) => {
                let message = Message {
                    offset: read_u64(bytes, pos),
                    state,
                    timestamp: read_u64(bytes, pos + 9),
                    id: read_u128(bytes, pos + 17),
                    checksum: read_u32(bytes, pos + 33),
                    headers: slice_to_vec(slice_subrange(bytes, pos + 41, pos + 41 + headers_len)),
                    payload: slice_to_vec(slice_subrange(bytes, pos + 45 + headers_len, end)),
                };
                Some((message, end))
            },
        }
    }
}

} // verus!
