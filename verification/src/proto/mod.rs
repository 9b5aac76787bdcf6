//! Plaintexts of message packets.
//!
//! A text message:
//!   `0x01 | timestamp(8) | len(4) | content`
//!
//! One chunk of an attachment:
//!   `0x02 | timestamp(8) | len(4) | body`, where the body is
//!   `transfer(16) | kind(1) | index(4) | total(4) | total_size(8) |
//!   name_len(1) | name | data_len(4) | data`
//!
//! An acknowledgement:
//!   `seq(4)`
//!
//! Integers are big-endian. The addressing plaintexts are in [`addressing`].

use vstd::prelude::*;
use vstd::utf8::{decode_utf8, encode_utf8, encode_utf8_decode_utf8, encode_utf8_valid_utf8, valid_utf8};

use crate::bytes::{
    append, array_at, be32, be32_at, be64, be64_at, copy_of, cut, get_be32, get_be64, lemma_be32, lemma_be64,
    lemma_be_at_slice, push_be32, push_be64,
};
use crate::util::unix_millis;

pub mod addressing;
pub mod laws;

verus! {

pub const MSG_TEXT: u8 = 0x01;

pub const MSG_ATTACH: u8 = 0x02;

/// Longest attachment name on the wire, in bytes.
pub const NAME_MAX: usize = 255;

/// Why a plaintext could not be taken apart.
#[derive(Clone, Copy, Debug, PartialEq, Eq, Structural)]
pub enum ProtoError {
    MessageShort,
    MessageLength,
    ChunkShort,
    NotAttachment,
    ChunkLength,
    BodyShort,
    BodyName,
    BodyData,
    AckLength,
    QueryLength,
    AnswerShort,
    AnswerList,
    ListShort,
    ListLength,
    ProbeShort,
    ProbeKind,
    ProbeAckLength,
    GossipShort,
    GossipKind,
    GossipLength,
    PushShort,
}

impl ProtoError {
    pub open spec fn text(self) -> Seq<char> {
        match self {
            ProtoError::MessageShort => "消息体过短"@,
            ProtoError::MessageLength => "消息体长度不匹配"@,
            ProtoError::ChunkShort => "附件分片过短"@,
            ProtoError::NotAttachment => "不是附件消息"@,
            ProtoError::ChunkLength => "附件分片长度不匹配"@,
            ProtoError::BodyShort => "附件体过短"@,
            ProtoError::BodyName => "附件体长度不足"@,
            ProtoError::BodyData => "附件数据长度不匹配"@,
            ProtoError::AckLength => "ACK 包体长度错误"@,
            ProtoError::QueryLength => "寻址请求包体长度错误"@,
            ProtoError::AnswerShort => "寻址应答包体长度错误"@,
            ProtoError::AnswerList => "寻址应答长度不匹配"@,
            ProtoError::ListShort => "IP 列表长度不足"@,
            ProtoError::ListLength => "IP 列表长度不匹配"@,
            ProtoError::ProbeShort => "反向探针包体过短"@,
            ProtoError::ProbeKind => "未知探针子类型"@,
            ProtoError::ProbeAckLength => "探针 ACK 包体长度错误"@,
            ProtoError::GossipShort => "GOSSIP 包体过短"@,
            ProtoError::GossipKind => "未知 GOSSIP 子类型"@,
            ProtoError::GossipLength => "GOSSIP 包体长度不匹配"@,
            ProtoError::PushShort => "PUSH_IP 包体过短"@,
        }
    }

    pub fn message(&self) -> (r: String)
        ensures
            r@ == self.text(),
    {
        match self {
            ProtoError::MessageShort => "消息体过短".to_owned(),
            ProtoError::MessageLength => "消息体长度不匹配".to_owned(),
            ProtoError::ChunkShort => "附件分片过短".to_owned(),
            ProtoError::NotAttachment => "不是附件消息".to_owned(),
            ProtoError::ChunkLength => "附件分片长度不匹配".to_owned(),
            ProtoError::BodyShort => "附件体过短".to_owned(),
            ProtoError::BodyName => "附件体长度不足".to_owned(),
            ProtoError::BodyData => "附件数据长度不匹配".to_owned(),
            ProtoError::AckLength => "ACK 包体长度错误".to_owned(),
            ProtoError::QueryLength => "寻址请求包体长度错误".to_owned(),
            ProtoError::AnswerShort => "寻址应答包体长度错误".to_owned(),
            ProtoError::AnswerList => "寻址应答长度不匹配".to_owned(),
            ProtoError::ListShort => "IP 列表长度不足".to_owned(),
            ProtoError::ListLength => "IP 列表长度不匹配".to_owned(),
            ProtoError::ProbeShort => "反向探针包体过短".to_owned(),
            ProtoError::ProbeKind => "未知探针子类型".to_owned(),
            ProtoError::ProbeAckLength => "探针 ACK 包体长度错误".to_owned(),
            ProtoError::GossipShort => "GOSSIP 包体过短".to_owned(),
            ProtoError::GossipKind => "未知 GOSSIP 子类型".to_owned(),
            ProtoError::GossipLength => "GOSSIP 包体长度不匹配".to_owned(),
            ProtoError::PushShort => "PUSH_IP 包体过短".to_owned(),
        }
    }
}

/// What `String::from_utf8_lossy` makes of bytes that are not UTF-8.
pub uninterp spec fn utf8_replaced(b: Seq<u8>) -> Seq<char>;

/// The text that bytes stand for; what is not UTF-8 in them is replaced.
pub open spec fn lossy_text(b: Seq<u8>) -> Seq<char> {
    if valid_utf8(b) {
        decode_utf8(b)
    } else {
        utf8_replaced(b)
    }
}

/// `String::from_utf8_lossy`: UTF-8 is decoded as it stands, anything else
/// gets replacement characters.
#[verifier::external_body]
pub(crate) fn from_utf8_lossy(b: &[u8]) -> (r: String)
    ensures
        valid_utf8(b@) ==> r@ == decode_utf8(b@),
        !valid_utf8(b@) ==> r@ == utf8_replaced(b@),
{
    String::from_utf8_lossy(b).into_owned()
}

/// The UTF-8 form of a text reads back as that text.
pub proof fn lemma_lossy_text(s: Seq<char>)
    ensures
        lossy_text(encode_utf8(s)) == s,
{
    encode_utf8_valid_utf8(s);
    encode_utf8_decode_utf8(s);
}

// ---------- text messages ----------

/// The plaintext of a text message.
pub open spec fn msg_inner(content: Seq<char>, ts: u64) -> Seq<u8> {
    seq![MSG_TEXT] + be64(ts) + be32(encode_utf8(content).len() as u32) + encode_utf8(content)
}

/// The plaintext of a text message that is sent now.
pub fn encode_msg_inner(content: &str) -> (out: Vec<u8>)
    ensures
        exists|ts: u64| out@ == #[trigger] msg_inner(content@, ts),
{
    encode_msg_inner_at(content, unix_millis())
}

/// The plaintext of a text message with a given timestamp.
pub fn encode_msg_inner_at(content: &str, ts: u64) -> (out: Vec<u8>)
    ensures
        out@ == msg_inner(content@, ts),
{
    let mut out: Vec<u8> = Vec::new();
    out.push(MSG_TEXT);
    push_be64(&mut out, ts);
    let c = content.as_bytes();
    push_be32(&mut out, c.len() as u32);
    append(&mut out, c);
    assert(out@ =~= msg_inner(content@, ts));
    out
}

/// What [`decode_msg_inner`] makes of a plaintext.
pub open spec fn msg_of(buf: Seq<u8>) -> Result<(u8, u64, Seq<char>), ProtoError> {
    if buf.len() < 13 {
        Err(ProtoError::MessageShort)
    } else if buf.len() < 13 + be32_at(buf, 9) {
        Err(ProtoError::MessageLength)
    } else {
        Ok((buf[0], be64_at(buf, 1), lossy_text(buf.subrange(13, 13 + be32_at(buf, 9)))))
    }
}

/// The kind, timestamp and content of a message plaintext.
pub fn decode_msg_inner(buf: &[u8]) -> (r: Result<(u8, u64, String), ProtoError>)
    ensures
        match msg_of(buf@) {
            Ok((kind, ts, content)) => r matches Ok(m) && m.0 == kind && m.1 == ts && m.2@
                == content,
            Err(e) => r matches Err(x) && x == e,
        },
{
    if buf.len() < 13 {
        return Err(ProtoError::MessageShort);
    }
    let mtype: u8 = buf[0];
    let ts: u64 = get_be64(buf, 1);
    let clen: u32 = get_be32(buf, 9);
    if buf.len() - 13 < clen as usize {
        return Err(ProtoError::MessageLength);
    }
    let body = cut(buf, 13, 13 + clen as usize);
    Ok((mtype, ts, from_utf8_lossy(&body)))
}

/// A text message gives back its kind, timestamp and content.
pub proof fn law_msg_round_trip(content: Seq<char>, ts: u64)
    requires
        encode_utf8(content).len() <= u32::MAX,
    ensures
        msg_of(msg_inner(content, ts)) == Ok::<(u8, u64, Seq<char>), ProtoError>(
            (MSG_TEXT, ts, content),
        ),
{
    let b = msg_inner(content, ts);
    let c = encode_utf8(content);
    lemma_be64(ts);
    lemma_be32(c.len() as u32);
    lemma_be_at_slice(b, 1);
    lemma_be_at_slice(b, 9);
    assert(b.subrange(1, 9) =~= be64(ts));
    assert(b.subrange(9, 13) =~= be32(c.len() as u32));
    assert(b.subrange(13, 13 + c.len() as int) =~= c);
    lemma_lossy_text(content);
}

// ---------- attachments ----------

/// One chunk of an attachment.
pub struct AttachChunk {
    pub transfer: [u8; 16],
    pub kind: u8,
    pub index: u32,
    pub total: u32,
    pub total_size: u64,
    pub name: String,
    pub data: Vec<u8>,
}

/// The contents of an [`AttachChunk`].
#[verifier::ext_equal]
pub struct ChunkView {
    pub transfer: Seq<u8>,
    pub kind: u8,
    pub index: u32,
    pub total: u32,
    pub total_size: u64,
    pub name: Seq<char>,
    pub data: Seq<u8>,
}

impl View for AttachChunk {
    type V = ChunkView;

    open spec fn view(&self) -> ChunkView {
        ChunkView {
            transfer: self.transfer@,
            kind: self.kind,
            index: self.index,
            total: self.total,
            total_size: self.total_size,
            name: self.name@,
            data: self.data@,
        }
    }
}

impl Clone for AttachChunk {
    fn clone(&self) -> (r: Self)
        ensures
            r@ == self@,
    {
        AttachChunk {
            transfer: self.transfer,
            kind: self.kind,
            index: self.index,
            total: self.total,
            total_size: self.total_size,
            name: self.name.clone(),
            data: copy_of(&self.data),
        }
    }
}

/// The bytes of a name that are sent.
pub open spec fn sent_name(name: Seq<char>) -> Seq<u8> {
    let b = encode_utf8(name);
    if b.len() > NAME_MAX {
        b.take(NAME_MAX as int)
    } else {
        b
    }
}

/// The body of a chunk plaintext.
#[verifier::opaque]
pub open spec fn chunk_body(c: ChunkView) -> Seq<u8> {
    c.transfer + seq![c.kind] + be32(c.index) + be32(c.total) + be64(c.total_size) + seq![
        sent_name(c.name).len() as u8,
    ] + sent_name(c.name) + be32(c.data.len() as u32) + c.data
}

/// The plaintext of a chunk.
pub open spec fn chunk_inner(c: ChunkView, ts: u64) -> Seq<u8> {
    seq![MSG_ATTACH] + be64(ts) + be32(chunk_body(c).len() as u32) + chunk_body(c)
}

/// The plaintext of a chunk; a name over 255 bytes is cut off.
pub fn encode_attach_chunk(c: &AttachChunk, ts: u64) -> (out: Vec<u8>)
    ensures
        out@ == chunk_inner(c@, ts),
{
    let mut body: Vec<u8> = Vec::new();
    append(&mut body, &c.transfer);
    body.push(c.kind);
    push_be32(&mut body, c.index);
    push_be32(&mut body, c.total);
    push_be64(&mut body, c.total_size);
    let name = c.name.as_str().as_bytes();
    let n: usize = if name.len() > NAME_MAX {
        NAME_MAX
    } else {
        name.len()
    };
    let sent = cut(name, 0, n);
    assert(sent@ =~= sent_name(c.name@));
    body.push(n as u8);
    append(&mut body, &sent);
    push_be32(&mut body, c.data.len() as u32);
    append(&mut body, &c.data);
    assert(body@ =~= chunk_body(c@)) by {
        reveal(chunk_body);
    }
    let mut out: Vec<u8> = Vec::new();
    out.push(MSG_ATTACH);
    push_be64(&mut out, ts);
    push_be32(&mut out, body.len() as u32);
    append(&mut out, &body);
    assert(out@ =~= chunk_inner(c@, ts));
    out
}

/// What the body of a chunk plaintext holds.
pub open spec fn body_of(b: Seq<u8>) -> Result<ChunkView, ProtoError> {
    if b.len() < 38 {
        Err(ProtoError::BodyShort)
    } else {
        let n = b[33] as int;
        if b.len() < 38 + n {
            Err(ProtoError::BodyName)
        } else if b.len() != 38 + n + be32_at(b, 34 + n) {
            Err(ProtoError::BodyData)
        } else {
            Ok(
                ChunkView {
                    transfer: b.subrange(0, 16),
                    kind: b[16],
                    index: be32_at(b, 17),
                    total: be32_at(b, 21),
                    total_size: be64_at(b, 25),
                    name: lossy_text(b.subrange(34, 34 + n)),
                    data: b.skip(38 + n),
                },
            )
        }
    }
}

/// What [`decode_attach_chunk`] makes of a plaintext.
pub open spec fn chunk_of(buf: Seq<u8>) -> Result<(u64, ChunkView), ProtoError> {
    if buf.len() < 13 {
        Err(ProtoError::ChunkShort)
    } else if buf[0] != MSG_ATTACH {
        Err(ProtoError::NotAttachment)
    } else if buf.len() != 13 + be32_at(buf, 9) {
        Err(ProtoError::ChunkLength)
    } else {
        match body_of(buf.skip(13)) {
            Ok(c) => Ok((be64_at(buf, 1), c)),
            Err(e) => Err(e),
        }
    }
}

fn decode_chunk_body(b: &[u8]) -> (r: Result<AttachChunk, ProtoError>)
    ensures
        match body_of(b@) {
            Ok(c) => r matches Ok(x) && x@ == c,
            Err(e) => r matches Err(x) && x == e,
        },
{
    if b.len() < 38 {
        return Err(ProtoError::BodyShort);
    }
    let n: usize = b[33] as usize;
    if b.len() - 38 < n {
        return Err(ProtoError::BodyName);
    }
    let dlen: u32 = get_be32(b, 34 + n);
    if b.len() - 38 - n != dlen as usize {
        return Err(ProtoError::BodyData);
    }
    let name = cut(b, 34, 34 + n);
    let data = cut(b, 38 + n, b.len());
    assert(data@ =~= b@.skip(38 + n));
    Ok(
        AttachChunk {
            transfer: array_at::<16>(b, 0),
            kind: b[16],
            index: get_be32(b, 17),
            total: get_be32(b, 21),
            total_size: get_be64(b, 25),
            name: from_utf8_lossy(&name),
            data,
        },
    )
}

/// The timestamp and the chunk in a chunk plaintext.
pub fn decode_attach_chunk(buf: &[u8]) -> (r: Result<(u64, AttachChunk), ProtoError>)
    ensures
        match chunk_of(buf@) {
            Ok((ts, c)) => r matches Ok(x) && x.0 == ts && x.1@ == c,
            Err(e) => r matches Err(x) && x == e,
        },
{
    if buf.len() < 13 {
        return Err(ProtoError::ChunkShort);
    }
    if buf[0] != MSG_ATTACH {
        return Err(ProtoError::NotAttachment);
    }
    let ts: u64 = get_be64(buf, 1);
    let blen: u32 = get_be32(buf, 9);
    if buf.len() - 13 != blen as usize {
        return Err(ProtoError::ChunkLength);
    }
    let body = cut(buf, 13, buf.len());
    assert(body@ =~= buf@.skip(13));
    match decode_chunk_body(&body) {
        Ok(c) => Ok((ts, c)),
        Err(e) => Err(e),
    }
}

/// The fields of a chunk body stand where they are read.
proof fn lemma_chunk_body(c: ChunkView)
    requires
        c.transfer.len() == 16,
        encode_utf8(c.name).len() <= NAME_MAX,
    ensures
        ({
            let b = chunk_body(c);
            let n = encode_utf8(c.name).len() as int;
            &&& b.len() == 38 + n + c.data.len()
            &&& b.subrange(0, 16) == c.transfer
            &&& b[16] == c.kind
            &&& b.subrange(17, 21) == be32(c.index)
            &&& b.subrange(21, 25) == be32(c.total)
            &&& b.subrange(25, 33) == be64(c.total_size)
            &&& b[33] == n
            &&& b.subrange(34, 34 + n) == encode_utf8(c.name)
            &&& b.subrange(34 + n, 38 + n) == be32(c.data.len() as u32)
            &&& b.skip(38 + n) == c.data
        }),
{
    reveal(chunk_body);
    let name = encode_utf8(c.name);
    let n = name.len() as int;
    let p1 = c.transfer + seq![c.kind];
    let p2 = p1 + be32(c.index) + be32(c.total);
    let p3 = p2 + be64(c.total_size) + seq![n as u8];
    let p4 = p3 + name + be32(c.data.len() as u32);
    let b = chunk_body(c);
    assert(b == p4 + c.data);
    assert(p1.len() == 17 && p2.len() == 25 && p3.len() == 34 && p4.len() == 38 + n);
    assert(b.subrange(0, 16) =~= c.transfer);
    assert(b.subrange(17, 21) =~= be32(c.index));
    assert(b.subrange(21, 25) =~= be32(c.total));
    assert(b.subrange(25, 33) =~= be64(c.total_size));
    assert(b.subrange(34, 34 + n) =~= name);
    assert(b.subrange(34 + n, 38 + n) =~= be32(c.data.len() as u32));
    assert(b.skip(38 + n) =~= c.data);
}

proof fn lemma_body_round_trip(c: ChunkView)
    requires
        c.transfer.len() == 16,
        encode_utf8(c.name).len() <= NAME_MAX,
        chunk_body(c).len() <= u32::MAX,
    ensures
        body_of(chunk_body(c)) == Ok::<ChunkView, ProtoError>(c),
{
    let b = chunk_body(c);
    let n = encode_utf8(c.name).len() as int;
    lemma_chunk_body(c);
    lemma_be32(c.index);
    lemma_be32(c.total);
    lemma_be64(c.total_size);
    lemma_be32(c.data.len() as u32);
    lemma_be_at_slice(b, 17);
    lemma_be_at_slice(b, 21);
    lemma_be_at_slice(b, 25);
    lemma_be_at_slice(b, 34 + n);
    lemma_lossy_text(c.name);
}

/// A body in its frame.
proof fn lemma_frame(b: Seq<u8>, ts: u64)
    requires
        b.len() <= u32::MAX,
    ensures
        ({
            let m = seq![MSG_ATTACH] + be64(ts) + be32(b.len() as u32) + b;
            &&& m.len() == 13 + b.len()
            &&& m[0] == MSG_ATTACH
            &&& be64_at(m, 1) == ts
            &&& be32_at(m, 9) == b.len()
            &&& m.skip(13) == b
        }),
{
    let m = seq![MSG_ATTACH] + be64(ts) + be32(b.len() as u32) + b;
    lemma_be64(ts);
    lemma_be32(b.len() as u32);
    lemma_be_at_slice(m, 1);
    lemma_be_at_slice(m, 9);
    assert(m.subrange(1, 9) =~= be64(ts));
    assert(m.subrange(9, 13) =~= be32(b.len() as u32));
    assert(m.skip(13) =~= b);
}

/// A chunk gives back its timestamp and contents.
pub proof fn law_chunk_round_trip(c: ChunkView, ts: u64)
    requires
        c.transfer.len() == 16,
        encode_utf8(c.name).len() <= NAME_MAX,
        chunk_body(c).len() <= u32::MAX,
    ensures
        chunk_of(chunk_inner(c, ts)) == Ok::<(u64, ChunkView), ProtoError>((ts, c)),
{
    lemma_body_round_trip(c);
    lemma_frame(chunk_body(c), ts);
}

/// A chunk plaintext also reads as a message of the attachment kind with the
/// same timestamp.
pub proof fn lemma_chunk_is_message(c: ChunkView, ts: u64)
    requires
        chunk_body(c).len() <= u32::MAX,
    ensures
        msg_of(chunk_inner(c, ts)) matches Ok(m) && m.0 == MSG_ATTACH && m.1 == ts,
{
    lemma_frame(chunk_body(c), ts);
}

// ---------- acknowledgements ----------

/// The plaintext of an acknowledgement.
pub fn encode_ack_inner(seq: u32) -> (out: Vec<u8>)
    ensures
        out@ == be32(seq),
{
    let mut out: Vec<u8> = Vec::new();
    push_be32(&mut out, seq);
    assert(out@ =~= be32(seq));
    out
}

/// What [`decode_ack_inner`] makes of a plaintext.
pub open spec fn ack_of(buf: Seq<u8>) -> Result<u32, ProtoError> {
    if buf.len() != 4 {
        Err(ProtoError::AckLength)
    } else {
        Ok(be32_at(buf, 0))
    }
}

/// The sequence number in an acknowledgement.
pub fn decode_ack_inner(buf: &[u8]) -> (r: Result<u32, ProtoError>)
    ensures
        r == ack_of(buf@),
{
    if buf.len() != 4 {
        return Err(ProtoError::AckLength);
    }
    Ok(get_be32(buf, 0))
}

/// An acknowledgement gives back its sequence number.
pub proof fn law_ack_round_trip(seq: u32)
    ensures
        ack_of(be32(seq)) == Ok::<u32, ProtoError>(seq),
{
    lemma_be32(seq);
}

} // verus!
