//! The binary wire format of broker messages.
//!
//! Every message starts with a two byte header. The two high bits of the
//! first byte give the message type, the remaining six bits of the first byte
//! and the whole second byte give the length of the topic in bytes. The topic
//! (UTF-8) follows the header, and every byte after the topic is the payload.
use vstd::prelude::*;
use vstd::utf8::*;

verus! {

pub type Topic = String;

pub type Payload = Vec<u8>;

/// An error met while decoding a message; it carries a human readable text.
#[derive(Debug, Clone, PartialEq)]
pub struct ProtocolError(String);

impl View for ProtocolError {
    type V = Seq<char>;

    closed spec fn view(&self) -> Seq<char> {
        self.0@
    }
}

impl ProtocolError {
    /// The text of the error.
    pub fn message(&self) -> (text: String)
        ensures
            text@ == self@,
    {
        self.0.clone()
    }
}

pub type ProtocolResult<T> = Result<T, ProtocolError>;

/// The four kinds of broker messages.
#[derive(Debug, Clone, PartialEq, Eq, Hash, PartialOrd, Ord)]
pub enum Message {
    Publish(Topic, Payload),
    Subscribe(Topic),
    Unsubscribe(Topic),
    LastWill(Topic, Payload),
}

/// The mathematical content of a [`Message`]: its topic as characters and
/// its payload as bytes.
pub enum MessageView {
    Publish(Seq<char>, Seq<u8>),
    Subscribe(Seq<char>),
    Unsubscribe(Seq<char>),
    LastWill(Seq<char>, Seq<u8>),
}

impl View for Message {
    type V = MessageView;

    open spec fn view(&self) -> MessageView {
        match self {
            Message::Publish(t, p) => MessageView::Publish(t@, p@),
            Message::Subscribe(t) => MessageView::Subscribe(t@),
            Message::Unsubscribe(t) => MessageView::Unsubscribe(t@),
            Message::LastWill(t, p) => MessageView::LastWill(t@, p@),
        }
    }
}

/// The longest topic, in bytes, that the fourteen length bits of a header can
/// describe.
pub const MAX_TOPIC_LENGTH: usize = 16383;

/// The text of the error returned when the header announces more topic bytes
/// than the buffer holds.
pub open spec fn topic_overflow_text() -> Seq<char> {
    "topic length exceeds buffer size"@
}

/// The topic length that the header of `buffer` announces.
pub open spec fn spec_topic_length(buffer: Seq<u8>) -> int
    recommends
        buffer.len() >= 2,
{
    (buffer[0] % 64) as int * 256 + buffer[1] as int
}

/// The index of the first byte after the topic.
pub open spec fn topic_end(buffer: Seq<u8>) -> int {
    2 + spec_topic_length(buffer)
}

/// The text of the error that `String::from_utf8` reports for `bytes` when
/// they are not valid UTF-8.
pub uninterp spec fn utf8_error_text(bytes: Seq<u8>) -> Seq<char>;

/// The topic of a message buffer, or the text of the error met decoding it.
pub open spec fn spec_get_topic(buffer: Seq<u8>) -> Result<Seq<char>, Seq<char>> {
    if buffer.len() < topic_end(buffer) {
        Err(topic_overflow_text())
    } else {
        let bytes = buffer.subrange(2, topic_end(buffer));
        if valid_utf8(bytes) {
            Ok(decode_utf8(bytes))
        } else {
            Err(utf8_error_text(bytes))
        }
    }
}

/// The payload of a message buffer, or the text of the error met finding it.
pub open spec fn spec_get_payload(buffer: Seq<u8>) -> Result<Seq<u8>, Seq<char>> {
    if buffer.len() < topic_end(buffer) {
        Err(topic_overflow_text())
    } else {
        Ok(buffer.skip(topic_end(buffer)))
    }
}

/// The message of the given type bits (0 to 3), topic and payload.
pub open spec fn message_of_kind(kind: int, topic: Seq<char>, payload: Seq<u8>) -> MessageView {
    if kind == 0 {
        MessageView::Publish(topic, payload)
    } else if kind == 1 {
        MessageView::Subscribe(topic)
    } else if kind == 2 {
        MessageView::Unsubscribe(topic)
    } else {
        MessageView::LastWill(topic, payload)
    }
}

/// The message that a buffer encodes, or the text of the error met decoding it.
pub open spec fn spec_parse_message(buffer: Seq<u8>) -> Result<MessageView, Seq<char>> {
    match spec_get_topic(buffer) {
        Err(e) => Err(e),
        Ok(topic) => match spec_get_payload(buffer) {
            Err(e) => Err(e),
            Ok(payload) => Ok(message_of_kind((buffer[0] / 64) as int, topic, payload)),
        },
    }
}

/// Calls `String::from_utf8`; when the bytes are not valid UTF-8 the text of
/// the `FromUtf8Error` (its `Display`) is handed back.
/// Trusted: `Ok` exactly for valid UTF-8, holding the decoded characters;
/// otherwise the error text, named `utf8_error_text`, a function of the bytes.
#[verifier::external_body]
fn string_from_utf8(bytes: Vec<u8>) -> (res: Result<String, String>)
    ensures
        res is Ok <==> valid_utf8(bytes@),
        res matches Ok(s) ==> s@ == decode_utf8(bytes@),
        res matches Err(text) ==> text@ == utf8_error_text(bytes@),
{
    match String::from_utf8(bytes) {
        Ok(s) => Ok(s),
        Err(e) => Err(e.to_string()),
    }
}

/// Reads the topic length from the two header bytes.
pub fn get_topic_length(buffer: &[u8]) -> (length: u16)
    requires
        buffer@.len() >= 2,
    ensures
        length as int == spec_topic_length(buffer@),
{
    let b0: u8 = buffer[0];
    let b1: u8 = buffer[1];
    let mut length: u16 = b0 as u16;
    length = length & 0b00111111;
    length = length << 8u16;
    length = length | b1 as u16;
    assert((((b0 as u16) & 0x3fu16) << 8u16) | (b1 as u16) == (b0 % 64) as u16 * 256u16 + b1 as u16)
        by (bit_vector);
    length
}

/// Decodes the topic of a message buffer.
pub fn get_topic(buffer: &[u8]) -> (res: ProtocolResult<String>)
    requires
        buffer@.len() >= 2,
    ensures
        match res {
            Ok(topic) => spec_get_topic(buffer@) == Ok::<Seq<char>, Seq<char>>(topic@),
            Err(e) => spec_get_topic(buffer@) == Err::<Seq<char>, Seq<char>>(e@),
        },
{
    let topic_length: u16 = get_topic_length(buffer);
    let start: usize = 2;
    let end: usize = start + topic_length as usize;

    if buffer.len() < end {
        return Err(ProtocolError("topic length exceeds buffer size".to_owned()));
    }
    let topic_buffer = &buffer[start..end];
    match string_from_utf8(vstd::slice::slice_to_vec(topic_buffer)) {
        Ok(topic) => Ok(topic),
        Err(text) => Err(ProtocolError(text)),
    }
}

/// Copies the payload (every byte after the topic) out of a message buffer.
pub fn get_payload(buffer: &[u8]) -> (res: ProtocolResult<Vec<u8>>)
    requires
        buffer@.len() >= 2,
    ensures
        match res {
            Ok(payload) => spec_get_payload(buffer@) == Ok::<Seq<u8>, Seq<char>>(payload@),
            Err(e) => spec_get_payload(buffer@) == Err::<Seq<u8>, Seq<char>>(e@),
        },
        res matches Ok(payload) ==> payload@ == buffer@.subrange(
            2 + (buffer@[0] % 64) as int * 256 + buffer@[1] as int,
            buffer@.len() as int,
        ),
{
    let topic_length: u16 = get_topic_length(buffer);
    let topic_start: usize = 2;
    let payload_start: usize = topic_start + topic_length as usize;

    if buffer.len() < payload_start {
        return Err(ProtocolError("topic length exceeds buffer size".to_owned()));
    }
    let payload_buffer = &buffer[payload_start..buffer.len()];
    Ok(vstd::slice::slice_to_vec(payload_buffer))
}

/// Decodes a whole message buffer.
pub fn parse_message(buffer: &[u8]) -> (res: ProtocolResult<Message>)
    requires
        buffer@.len() >= 2,
    ensures
        match res {
            Ok(msg) => spec_parse_message(buffer@) == Ok::<MessageView, Seq<char>>(msg@),
            Err(e) => spec_parse_message(buffer@) == Err::<MessageView, Seq<char>>(e@),
        },
{
    let topic = match get_topic(buffer) {
        Ok(topic) => topic,
        Err(e) => return Err(e),
    };
    let payload = match get_payload(buffer) {
        Ok(payload) => payload,
        Err(e) => return Err(e),
    };
    let type_byte: u8 = buffer[0];
    let shifted: u8 = type_byte >> 6u8;
    assert(type_byte >> 6u8 == type_byte / 64) by (bit_vector);
    match shifted {
        0u8 => Ok(Message::Publish(topic, payload)),
        1u8 => Ok(Message::Subscribe(topic)),
        2u8 => Ok(Message::Unsubscribe(topic)),
        _ => Ok(Message::LastWill(topic, payload)),
    }
}


/// The type bits of a message: 0 for `Publish`, 1 for `Subscribe`, 2 for
/// `Unsubscribe` and 3 for `LastWill`.
pub open spec fn message_kind(m: MessageView) -> int {
    match m {
        MessageView::Publish(..) => 0,
        MessageView::Subscribe(..) => 1,
        MessageView::Unsubscribe(..) => 2,
        MessageView::LastWill(..) => 3,
    }
}

/// The topic of a message.
pub open spec fn message_topic(m: MessageView) -> Seq<char> {
    match m {
        MessageView::Publish(t, _) => t,
        MessageView::Subscribe(t) => t,
        MessageView::Unsubscribe(t) => t,
        MessageView::LastWill(t, _) => t,
    }
}

/// The payload that goes on the wire with a message: none for `Subscribe`
/// and `Unsubscribe`.
pub open spec fn message_payload(m: MessageView) -> Seq<u8> {
    match m {
        MessageView::Publish(_, p) => p,
        MessageView::LastWill(_, p) => p,
        _ => Seq::empty(),
    }
}

/// The UTF-8 bytes of the topic of a message.
pub open spec fn topic_bytes(m: MessageView) -> Seq<u8> {
    encode_utf8(message_topic(m))
}

/// The wire form of a message: header, topic bytes, payload.
pub open spec fn spec_serialize_message(m: MessageView) -> Seq<u8> {
    let topic = topic_bytes(m);
    seq![(message_kind(m) * 64 + topic.len() / 256) as u8, (topic.len() % 256) as u8] + topic
        + message_payload(m)
}

/// The text of the error returned for a topic longer than a header can announce.
pub open spec fn topic_too_long_text() -> Seq<char> {
    "topic length exceeds the maximum of 16383 bytes"@
}

/// Appends `bytes` to `out`.
fn extend_bytes(out: &mut Vec<u8>, bytes: &[u8])
    ensures
        final(out)@ == old(out)@ + bytes@,
{
    let n: usize = bytes.len();
    let mut i: usize = 0;
    while i < n
        invariant
            n == bytes@.len(),
            i <= n,
            out@ == old(out)@ + bytes@.subrange(0, i as int),
        decreases n - i,
    {
        out.push(bytes[i]);
        i = i + 1;
        assert(bytes@.subrange(0, i as int) == bytes@.subrange(0, i - 1) + seq![bytes@[i - 1]]);
    }
    assert(bytes@.subrange(0, n as int) == bytes@);
}

/// Encodes a message into its wire form. A topic longer than
/// [`MAX_TOPIC_LENGTH`] bytes cannot be encoded and gives an error.
pub fn serialize_message(msg: &Message) -> (res: ProtocolResult<Vec<u8>>)
    ensures
        res is Ok <==> topic_bytes(msg@).len() <= MAX_TOPIC_LENGTH,
        res matches Ok(bytes) ==> bytes@ == spec_serialize_message(msg@),
        res matches Err(e) ==> e@ == topic_too_long_text(),
{
    let (kind, topic): (u8, &String) = match msg {
        Message::Publish(t, _) => (0u8, t),
        Message::Subscribe(t) => (1u8, t),
        Message::Unsubscribe(t) => (2u8, t),
        Message::LastWill(t, _) => (3u8, t),
    };
    let topic_bytes: &[u8] = topic.as_str().as_bytes();
    let n: usize = topic_bytes.len();
    if n > MAX_TOPIC_LENGTH {
        return Err(ProtocolError("topic length exceeds the maximum of 16383 bytes".to_owned()));
    }
    let high: u8 = (n >> 8usize) as u8;
    let first: u8 = (kind << 6u8) | high;
    let second: u8 = (n & 0xffusize) as u8;
    assert(first == (kind * 64 + n / 256) as u8 && second == (n % 256) as u8) by (bit_vector)
        requires
            kind < 4,
            n <= 16383,
            high == (n >> 8usize) as u8,
            first == (kind << 6u8) | high,
            second == (n & 0xffusize) as u8,
    ;
    let mut out: Vec<u8> = Vec::new();
    out.push(first);
    out.push(second);
    extend_bytes(&mut out, topic_bytes);
    match msg {
        Message::Publish(_, p) => extend_bytes(&mut out, p.as_slice()),
        Message::LastWill(_, p) => extend_bytes(&mut out, p.as_slice()),
        _ => {},
    }
    assert(out@ == spec_serialize_message(msg@));
    Ok(out)
}

/// Decoding the wire form of a message gives the message back, for every
/// message whose topic fits the header.
pub proof fn lemma_parse_inverts_serialize(m: MessageView)
    requires
        topic_bytes(m).len() <= MAX_TOPIC_LENGTH,
    ensures
        spec_parse_message(spec_serialize_message(m)) == Ok::<MessageView, Seq<char>>(m),
{
    broadcast use encode_utf8_valid_utf8, encode_utf8_decode_utf8;

    let topic = topic_bytes(m);
    let n: int = topic.len() as int;
    let kind: int = message_kind(m);
    let buffer = spec_serialize_message(m);
    let b0: u8 = (kind * 64 + n / 256) as u8;
    let b1: u8 = (n % 256) as u8;
    assert(buffer[0] == b0 && buffer[1] == b1);
    assert(b0 as int == kind * 64 + n / 256 && b1 as int == n % 256);
    assert(b0 % 64 == n / 256 && b0 / 64 == kind);
    assert(spec_topic_length(buffer) == n);
    assert(buffer.subrange(2, 2 + n) == topic);
    assert(buffer.skip(2 + n) == message_payload(m));
}

/// Encoding a decoded message gives back the buffer it came from, for every
/// buffer that decodes and carries no bytes that decoding drops (a
/// `Subscribe` or `Unsubscribe` ignores any bytes after its topic).
pub proof fn lemma_serialize_inverts_parse(buffer: Seq<u8>)
    requires
        buffer.len() >= 2,
        spec_parse_message(buffer) is Ok,
        buffer[0] / 64 == 1 || buffer[0] / 64 == 2 ==> buffer.len() == topic_end(buffer),
    ensures
        spec_serialize_message(spec_parse_message(buffer)->Ok_0) == buffer,
{
    broadcast use decode_utf8_encode_utf8;

    let m = spec_parse_message(buffer)->Ok_0;
    let n: int = spec_topic_length(buffer);
    let bytes = buffer.subrange(2, 2 + n);
    assert(topic_bytes(m) == bytes);
    let b0: u8 = buffer[0];
    assert(n / 256 == b0 % 64 && n % 256 == buffer[1] as int);
    assert(message_kind(m) == b0 / 64);
    assert(b0 / 64 * 64 + b0 % 64 == b0);
    let out = spec_serialize_message(m);
    assert(out.len() == buffer.len());
    assert forall|i: int| 0 <= i < buffer.len() implies out[i] == buffer[i] by {
        if i >= 2 + n {
            assert(buffer.skip(2 + n)[i - 2 - n] == buffer[i]);
        }
    }
    assert(out == buffer);
}

/// What decoding reads from a buffer: the header announces
/// `(b0 % 64) * 256 + b1` topic bytes; the two high bits of the first byte
/// give the kind (0 publish, 1 subscribe, 2 unsubscribe, 3 last will); the
/// topic is the UTF-8 text of the announced bytes; and the payload is every
/// byte after them, unchanged.
pub proof fn lemma_parse_reads_buffer(buffer: Seq<u8>)
    requires
        buffer.len() >= 2,
        spec_parse_message(buffer) is Ok,
    ensures
        2 + (buffer[0] % 64) as int * 256 + buffer[1] as int <= buffer.len(),
        spec_get_payload(buffer) == Ok::<Seq<u8>, Seq<char>>(
            buffer.subrange(2 + (buffer[0] % 64) as int * 256 + buffer[1] as int, buffer.len() as int),
        ),
        encode_utf8(message_topic(spec_parse_message(buffer)->Ok_0)) == buffer.subrange(
            2,
            2 + (buffer[0] % 64) as int * 256 + buffer[1] as int,
        ),
        buffer[0] / 64 == 0 <==> spec_parse_message(buffer)->Ok_0 is Publish,
        buffer[0] / 64 == 1 <==> spec_parse_message(buffer)->Ok_0 is Subscribe,
        buffer[0] / 64 == 2 <==> spec_parse_message(buffer)->Ok_0 is Unsubscribe,
        buffer[0] / 64 == 3 <==> spec_parse_message(buffer)->Ok_0 is LastWill,
        spec_parse_message(buffer) matches Ok(MessageView::Publish(_, p)) ==> p == buffer.subrange(
            2 + (buffer[0] % 64) as int * 256 + buffer[1] as int,
            buffer.len() as int,
        ),
        spec_parse_message(buffer) matches Ok(MessageView::LastWill(_, p)) ==> p == buffer.subrange(
            2 + (buffer[0] % 64) as int * 256 + buffer[1] as int,
            buffer.len() as int,
        ),
{
    broadcast use decode_utf8_encode_utf8;

    let n: int = (buffer[0] % 64) as int * 256 + buffer[1] as int;
    assert(buffer.skip(2 + n) =~= buffer.subrange(2 + n, buffer.len() as int));
    assert(buffer[0] / 64 < 4) by (nonlinear_arith)
        requires
            buffer[0] < 256,
    ;
}

/// The wire form of each kind of message: the type bits and the high six
/// bits of the topic length, the low eight bits of the topic length, the
/// topic's UTF-8 bytes, and (for a publication or a last will) the payload,
/// unchanged.
pub proof fn lemma_serialize_layout(t: Seq<char>, p: Seq<u8>)
    ensures
        spec_serialize_message(MessageView::Publish(t, p)) == seq![
            (encode_utf8(t).len() / 256) as u8,
            (encode_utf8(t).len() % 256) as u8,
        ] + encode_utf8(t) + p,
        spec_serialize_message(MessageView::Subscribe(t)) == seq![
            (64 + encode_utf8(t).len() / 256) as u8,
            (encode_utf8(t).len() % 256) as u8,
        ] + encode_utf8(t),
        spec_serialize_message(MessageView::Unsubscribe(t)) == seq![
            (128 + encode_utf8(t).len() / 256) as u8,
            (encode_utf8(t).len() % 256) as u8,
        ] + encode_utf8(t),
        spec_serialize_message(MessageView::LastWill(t, p)) == seq![
            (192 + encode_utf8(t).len() / 256) as u8,
            (encode_utf8(t).len() % 256) as u8,
        ] + encode_utf8(t) + p,
{
    assert(spec_serialize_message(MessageView::Subscribe(t)) =~= seq![
        (64 + encode_utf8(t).len() / 256) as u8,
        (encode_utf8(t).len() % 256) as u8,
    ] + encode_utf8(t));
    assert(spec_serialize_message(MessageView::Unsubscribe(t)) =~= seq![
        (128 + encode_utf8(t).len() / 256) as u8,
        (encode_utf8(t).len() % 256) as u8,
    ] + encode_utf8(t));
}

} // verus!
