//! The application payload codec: a fixed, self-describing binary layout
//! for [`Message`], identical on both ends of a session and independent of
//! host endianness.
//!
//! Every number is little-endian.  A string is its byte length (eight
//! bytes) followed by its UTF-8 bytes; a list is its element count (eight
//! bytes) followed by the elements; an enum is a one-byte tag followed by
//! the payload of that variant.  The layout is self-delimiting, so a
//! decoder ignores whatever trails a well-formed encoding — in particular
//! the zero padding that reassembly leaves after the last fragment.

use vstd::prelude::*;
use vstd::bytes::{spec_u64_to_le_bytes, spec_u64_from_le_bytes, lemma_auto_spec_u64_to_from_le_bytes, u64_to_le_bytes, u64_from_le_bytes};
use vstd::utf8::{encode_utf8, decode_utf8, valid_utf8, encode_utf8_valid_utf8, encode_utf8_decode_utf8};
use vstd::slice::{slice_index_get, slice_subrange, slice_to_vec};
use vstd::string::StrSliceExecFns;
use crate::message::{Message, MessageV, Request, RequestV, Response, ResponseV, ServerType, ChatResponse, ChatResponseV, ChatMessage, ChatMessageV};

verus! {

// ---------------------------------------------------------------------------
// Spec-level encoding
// ---------------------------------------------------------------------------

/// Encoding of a 64-bit number: eight bytes, little-endian.
pub open spec fn enc_u64(v: u64) -> Seq<u8> {
    spec_u64_to_le_bytes(v)
}

/// Encoding of a byte: itself.
pub open spec fn enc_u8(v: u8) -> Seq<u8> {
    seq![v]
}

/// Encoding of a string: byte length, then UTF-8 bytes.
pub open spec fn enc_str(s: Seq<char>) -> Seq<u8> {
    enc_u64(encode_utf8(s).len() as u64) + encode_utf8(s)
}

/// A string whose UTF-8 byte length fits the length field.
pub open spec fn str_ok(s: Seq<char>) -> bool {
    encode_utf8(s).len() <= u64::MAX
}

// ---------------------------------------------------------------------------
// Spec-level decoding
// ---------------------------------------------------------------------------

/// Reads a 64-bit number at `pos`; fails when fewer than eight bytes remain.
pub open spec fn dec_u64(b: Seq<u8>, pos: int) -> Option<(u64, int)> {
    if 0 <= pos && pos + 8 <= b.len() {
        Some((spec_u64_from_le_bytes(b.subrange(pos, pos + 8)), pos + 8))
    } else {
        None
    }
}

/// Reads one byte at `pos`.
pub open spec fn dec_u8(b: Seq<u8>, pos: int) -> Option<(u8, int)> {
    if 0 <= pos < b.len() {
        Some((b[pos], pos + 1))
    } else {
        None
    }
}

/// Reads a length-prefixed UTF-8 string at `pos`.
pub open spec fn dec_str(b: Seq<u8>, pos: int) -> Option<(Seq<char>, int)> {
    match dec_u64(b, pos) {
        Some((n, p)) => {
            if p + n <= b.len() && valid_utf8(b.subrange(p, p + n)) {
                Some((decode_utf8(b.subrange(p, p + n)), p + n))
            } else {
                None
            }
        },
        None => None,
    }
}

// ---------------------------------------------------------------------------
// Splitting a concatenated encoding
// ---------------------------------------------------------------------------

/// A window of `b` that holds `e1 + e2` holds `e1` and then `e2`.
pub proof fn lemma_enc_split(b: Seq<u8>, pos: int, e1: Seq<u8>, e2: Seq<u8>)
    requires
        0 <= pos,
        pos + e1.len() + e2.len() <= b.len(),
        b.subrange(pos, pos + e1.len() + e2.len()) == e1 + e2,
    ensures
        b.subrange(pos, pos + e1.len()) == e1,
        b.subrange(pos + e1.len(), pos + e1.len() + e2.len()) == e2,
{
    let whole = b.subrange(pos, pos + e1.len() + e2.len());
    assert(b.subrange(pos, pos + e1.len()) =~= e1) by {
        assert forall|i: int| 0 <= i < e1.len() implies b.subrange(pos, pos + e1.len())[i]
            == e1[i] by {
            assert(b.subrange(pos, pos + e1.len())[i] == b[pos + i]);
            assert(whole[i] == b[pos + i]);
            assert(whole[i] == (e1 + e2)[i]);
        }
    }
    assert(b.subrange(pos + e1.len(), pos + e1.len() + e2.len()) =~= e2) by {
        assert forall|i: int| 0 <= i < e2.len() implies b.subrange(
            pos + e1.len(),
            pos + e1.len() + e2.len(),
        )[i] == e2[i] by {
            assert(b.subrange(pos + e1.len(), pos + e1.len() + e2.len())[i]
                == b[pos + e1.len() + i]);
            assert(whole[e1.len() + i] == b[pos + e1.len() + i]);
            assert(whole[e1.len() + i] == (e1 + e2)[e1.len() + i]);
        }
    }
}

// ---------------------------------------------------------------------------
// Primitive round trips
// ---------------------------------------------------------------------------

/// A window holding `enc_u64(v)` decodes to `v`.
pub proof fn lemma_dec_u64(b: Seq<u8>, pos: int, v: u64)
    requires
        0 <= pos,
        pos + 8 <= b.len(),
        b.subrange(pos, pos + 8) == enc_u64(v),
    ensures
        dec_u64(b, pos) == Some((v, pos + 8)),
{
    lemma_auto_spec_u64_to_from_le_bytes();
    assert(enc_u64(v).len() == 8);
}

/// A window holding `enc_u8(v)` decodes to `v`.
pub proof fn lemma_dec_u8(b: Seq<u8>, pos: int, v: u8)
    requires
        0 <= pos,
        pos + 1 <= b.len(),
        b.subrange(pos, pos + 1) == enc_u8(v),
    ensures
        dec_u8(b, pos) == Some((v, pos + 1)),
{
    assert(b[pos] == b.subrange(pos, pos + 1)[0]);
}

/// A window holding `enc_str(s)` decodes to `s`.
pub proof fn lemma_dec_str(b: Seq<u8>, pos: int, s: Seq<char>)
    requires
        0 <= pos,
        str_ok(s),
        pos + enc_str(s).len() <= b.len(),
        b.subrange(pos, pos + enc_str(s).len()) == enc_str(s),
    ensures
        dec_str(b, pos) == Some((s, pos + enc_str(s).len())),
{
    let u = encode_utf8(s);
    let n = u.len() as u64;
    lemma_auto_spec_u64_to_from_le_bytes();
    assert(enc_u64(n).len() == 8);
    lemma_enc_split(b, pos, enc_u64(n), u);
    lemma_dec_u64(b, pos, n);
    assert(b.subrange(pos + 8, pos + 8 + n) == u);
    encode_utf8_valid_utf8(s);
    encode_utf8_decode_utf8(s);
}

// ---------------------------------------------------------------------------
// Composite encodings
// ---------------------------------------------------------------------------

/// Encoding of a server role: a one-byte tag.
pub open spec fn enc_server_type(t: ServerType) -> Seq<u8> {
    match t {
        ServerType::Communication => seq![0u8],
        ServerType::Content => seq![1u8],
    }
}

/// Encoding of a chat listing entry: id, then name.
pub open spec fn enc_chat_response(c: ChatResponseV) -> Seq<u8> {
    enc_u64(c.id) + enc_str(c.name)
}

/// A chat listing entry whose string fits the length field.
pub open spec fn wf_chat_response(c: ChatResponseV) -> bool {
    str_ok(c.name)
}

/// Encoding of a chat entry: author, text, timestamp.
pub open spec fn enc_chat_message(m: ChatMessageV) -> Seq<u8> {
    enc_u8(m.author) + enc_str(m.message) + enc_str(m.timestamp)
}

/// A chat entry whose strings fit their length fields.
pub open spec fn wf_chat_message(m: ChatMessageV) -> bool {
    str_ok(m.message) && str_ok(m.timestamp)
}

/// Encoding of chat listing entries, one after the other.
pub open spec fn enc_chat_response_list(cs: Seq<ChatResponseV>) -> Seq<u8>
    decreases cs.len(),
{
    if cs.len() == 0 {
        Seq::empty()
    } else {
        enc_chat_response(cs[0]) + enc_chat_response_list(cs.drop_first())
    }
}

/// Encoding of chat entries, one after the other.
pub open spec fn enc_chat_message_list(ms: Seq<ChatMessageV>) -> Seq<u8>
    decreases ms.len(),
{
    if ms.len() == 0 {
        Seq::empty()
    } else {
        enc_chat_message(ms[0]) + enc_chat_message_list(ms.drop_first())
    }
}

/// Encoding of strings, one after the other.
pub open spec fn enc_str_list(ss: Seq<Seq<char>>) -> Seq<u8>
    decreases ss.len(),
{
    if ss.len() == 0 {
        Seq::empty()
    } else {
        enc_str(ss[0]) + enc_str_list(ss.drop_first())
    }
}

// ---------------------------------------------------------------------------
// Composite decoding
// ---------------------------------------------------------------------------

/// Reads a server role tag at `pos`.
pub open spec fn dec_server_type(b: Seq<u8>, pos: int) -> Option<(ServerType, int)> {
    match dec_u8(b, pos) {
        Some((t, p)) => {
            if t == 0 {
                Some((ServerType::Communication, p))
            } else if t == 1 {
                Some((ServerType::Content, p))
            } else {
                None
            }
        },
        None => None,
    }
}

/// Reads a chat listing entry at `pos`.
pub open spec fn dec_chat_response(b: Seq<u8>, pos: int) -> Option<(ChatResponseV, int)> {
    match dec_u64(b, pos) {
        Some((id, p)) => match dec_str(b, p) {
            Some((name, p2)) => Some((ChatResponseV { id, name }, p2)),
            None => None,
        },
        None => None,
    }
}

/// Reads a chat entry at `pos`.
pub open spec fn dec_chat_message(b: Seq<u8>, pos: int) -> Option<(ChatMessageV, int)> {
    match dec_u8(b, pos) {
        Some((author, p)) => match dec_str(b, p) {
            Some((message, p2)) => match dec_str(b, p2) {
                Some((timestamp, p3)) => Some(
                    (ChatMessageV { author, message, timestamp }, p3),
                ),
                None => None,
            },
            None => None,
        },
        None => None,
    }
}

/// Reads `n` chat listing entries at `pos`.
pub open spec fn dec_chat_response_list(b: Seq<u8>, pos: int, n: nat) -> Option<
    (Seq<ChatResponseV>, int),
>
    decreases n,
{
    if n == 0 {
        Some((Seq::empty(), pos))
    } else {
        match dec_chat_response(b, pos) {
            Some((c, p)) => match dec_chat_response_list(b, p, (n - 1) as nat) {
                Some((cs, p2)) => Some((seq![c] + cs, p2)),
                None => None,
            },
            None => None,
        }
    }
}

/// Reads `n` chat entries at `pos`.
pub open spec fn dec_chat_message_list(b: Seq<u8>, pos: int, n: nat) -> Option<
    (Seq<ChatMessageV>, int),
>
    decreases n,
{
    if n == 0 {
        Some((Seq::empty(), pos))
    } else {
        match dec_chat_message(b, pos) {
            Some((m, p)) => match dec_chat_message_list(b, p, (n - 1) as nat) {
                Some((ms, p2)) => Some((seq![m] + ms, p2)),
                None => None,
            },
            None => None,
        }
    }
}

/// Reads `n` strings at `pos`.
pub open spec fn dec_str_list(b: Seq<u8>, pos: int, n: nat) -> Option<(Seq<Seq<char>>, int)>
    decreases n,
{
    if n == 0 {
        Some((Seq::empty(), pos))
    } else {
        match dec_str(b, pos) {
            Some((s, p)) => match dec_str_list(b, p, (n - 1) as nat) {
                Some((ss, p2)) => Some((seq![s] + ss, p2)),
                None => None,
            },
            None => None,
        }
    }
}

// ---------------------------------------------------------------------------
// Composite round trips
// ---------------------------------------------------------------------------

/// A window holding `enc_server_type(t)` decodes to `t`.
pub proof fn lemma_dec_server_type(b: Seq<u8>, pos: int, t: ServerType)
    requires
        0 <= pos,
        pos + enc_server_type(t).len() <= b.len(),
        b.subrange(pos, pos + enc_server_type(t).len()) == enc_server_type(t),
    ensures
        dec_server_type(b, pos) == Some((t, pos + enc_server_type(t).len())),
{
    match t {
        ServerType::Communication => lemma_dec_u8(b, pos, 0),
        ServerType::Content => lemma_dec_u8(b, pos, 1),
    }
}

/// A window holding `enc_chat_response(c)` decodes to `c`.
pub proof fn lemma_dec_chat_response(b: Seq<u8>, pos: int, c: ChatResponseV)
    requires
        0 <= pos,
        wf_chat_response(c),
        pos + enc_chat_response(c).len() <= b.len(),
        b.subrange(pos, pos + enc_chat_response(c).len()) == enc_chat_response(c),
    ensures
        dec_chat_response(b, pos) == Some((c, pos + enc_chat_response(c).len())),
{
    lemma_auto_spec_u64_to_from_le_bytes();
    assert(enc_u64(c.id).len() == 8);
    lemma_enc_split(b, pos, enc_u64(c.id), enc_str(c.name));
    lemma_dec_u64(b, pos, c.id);
    lemma_dec_str(b, pos + 8, c.name);
}

/// A window holding `enc_chat_message(m)` decodes to `m`.
pub proof fn lemma_dec_chat_message(b: Seq<u8>, pos: int, m: ChatMessageV)
    requires
        0 <= pos,
        wf_chat_message(m),
        pos + enc_chat_message(m).len() <= b.len(),
        b.subrange(pos, pos + enc_chat_message(m).len()) == enc_chat_message(m),
    ensures
        dec_chat_message(b, pos) == Some((m, pos + enc_chat_message(m).len())),
{
    let e1 = enc_u8(m.author);
    let e2 = enc_str(m.message);
    let e3 = enc_str(m.timestamp);
    lemma_auto_spec_u64_to_from_le_bytes();
    assert(enc_u64(encode_utf8(m.message).len() as u64).len() == 8);
    assert(enc_u64(encode_utf8(m.timestamp).len() as u64).len() == 8);
    assert(enc_chat_message(m) =~= e1 + (e2 + e3));
    lemma_enc_split(b, pos, e1, e2 + e3);
    lemma_dec_u8(b, pos, m.author);
    lemma_enc_split(b, pos + 1, e2, e3);
    lemma_dec_str(b, pos + 1, m.message);
    lemma_dec_str(b, pos + 1 + e2.len(), m.timestamp);
}

/// A window holding the encodings of `cs` decodes to `cs`.
pub proof fn lemma_dec_chat_response_list(b: Seq<u8>, pos: int, cs: Seq<ChatResponseV>)
    requires
        0 <= pos,
        forall|i: int| 0 <= i < cs.len() ==> wf_chat_response(#[trigger] cs[i]),
        pos + enc_chat_response_list(cs).len() <= b.len(),
        b.subrange(pos, pos + enc_chat_response_list(cs).len()) == enc_chat_response_list(cs),
    ensures
        dec_chat_response_list(b, pos, cs.len()) == Some(
            (cs, pos + enc_chat_response_list(cs).len()),
        ),
    decreases cs.len(),
{
    if cs.len() == 0 {
        assert(cs =~= Seq::<ChatResponseV>::empty());
    } else {
        let e1 = enc_chat_response(cs[0]);
        let rest = enc_chat_response_list(cs.drop_first());
        lemma_enc_split(b, pos, e1, rest);
        lemma_dec_chat_response(b, pos, cs[0]);
        lemma_dec_chat_response_list(b, pos + e1.len(), cs.drop_first());
        assert(seq![cs[0]] + cs.drop_first() =~= cs);
    }
}

/// A window holding the encodings of `ms` decodes to `ms`.
pub proof fn lemma_dec_chat_message_list(b: Seq<u8>, pos: int, ms: Seq<ChatMessageV>)
    requires
        0 <= pos,
        forall|i: int| 0 <= i < ms.len() ==> wf_chat_message(#[trigger] ms[i]),
        pos + enc_chat_message_list(ms).len() <= b.len(),
        b.subrange(pos, pos + enc_chat_message_list(ms).len()) == enc_chat_message_list(ms),
    ensures
        dec_chat_message_list(b, pos, ms.len()) == Some(
            (ms, pos + enc_chat_message_list(ms).len()),
        ),
    decreases ms.len(),
{
    if ms.len() == 0 {
        assert(ms =~= Seq::<ChatMessageV>::empty());
    } else {
        let e1 = enc_chat_message(ms[0]);
        let rest = enc_chat_message_list(ms.drop_first());
        lemma_enc_split(b, pos, e1, rest);
        lemma_dec_chat_message(b, pos, ms[0]);
        lemma_dec_chat_message_list(b, pos + e1.len(), ms.drop_first());
        assert(seq![ms[0]] + ms.drop_first() =~= ms);
    }
}

/// A window holding the encodings of `ss` decodes to `ss`.
pub proof fn lemma_dec_str_list(b: Seq<u8>, pos: int, ss: Seq<Seq<char>>)
    requires
        0 <= pos,
        forall|i: int| 0 <= i < ss.len() ==> str_ok(#[trigger] ss[i]),
        pos + enc_str_list(ss).len() <= b.len(),
        b.subrange(pos, pos + enc_str_list(ss).len()) == enc_str_list(ss),
    ensures
        dec_str_list(b, pos, ss.len()) == Some((ss, pos + enc_str_list(ss).len())),
    decreases ss.len(),
{
    if ss.len() == 0 {
        assert(ss =~= Seq::<Seq<char>>::empty());
    } else {
        let e1 = enc_str(ss[0]);
        let rest = enc_str_list(ss.drop_first());
        lemma_enc_split(b, pos, e1, rest);
        lemma_dec_str(b, pos, ss[0]);
        lemma_dec_str_list(b, pos + e1.len(), ss.drop_first());
        assert(seq![ss[0]] + ss.drop_first() =~= ss);
    }
}

// ---------------------------------------------------------------------------
// Requests, responses, messages
// ---------------------------------------------------------------------------

/// A request whose strings fit their length fields.
pub open spec fn wf_request(r: RequestV) -> bool {
    match r {
        RequestV::ServerType => true,
        RequestV::GetChats => true,
        RequestV::SendMessage(_, text) => str_ok(text),
        RequestV::CreateChat(name) => str_ok(name),
        RequestV::DeleteChat(_) => true,
        RequestV::GetMessages(_) => true,
        RequestV::ListPublicFiles => true,
        RequestV::GetPublicFile(name) => str_ok(name),
        RequestV::WritePublicFile(name, data) => str_ok(name) && str_ok(data),
        RequestV::ListPrivateFiles => true,
        RequestV::GetPrivateFile(name) => str_ok(name),
        RequestV::WritePrivateFile(name, data) => str_ok(name) && str_ok(data),
    }
}

/// Encoding of a request: a one-byte tag, then the variant's fields.
pub open spec fn enc_request(r: RequestV) -> Seq<u8> {
    match r {
        RequestV::ServerType => seq![0u8],
        RequestV::GetChats => seq![1u8],
        RequestV::SendMessage(id, text) => seq![2u8] + enc_u64(id) + enc_str(text),
        RequestV::CreateChat(name) => seq![3u8] + enc_str(name),
        RequestV::DeleteChat(id) => seq![4u8] + enc_u64(id),
        RequestV::GetMessages(id) => seq![5u8] + enc_u64(id),
        RequestV::ListPublicFiles => seq![6u8],
        RequestV::GetPublicFile(name) => seq![7u8] + enc_str(name),
        RequestV::WritePublicFile(name, data) => seq![8u8] + enc_str(name) + enc_str(data),
        RequestV::ListPrivateFiles => seq![9u8],
        RequestV::GetPrivateFile(name) => seq![10u8] + enc_str(name),
        RequestV::WritePrivateFile(name, data) => seq![11u8] + enc_str(name) + enc_str(data),
    }
}

/// Reads a request at `pos`.
pub open spec fn dec_request(b: Seq<u8>, pos: int) -> Option<(RequestV, int)> {
    match dec_u8(b, pos) {
        Some((tag, p)) => {
            if tag == 0 {
                Some((RequestV::ServerType, p))
            } else if tag == 1 {
                Some((RequestV::GetChats, p))
            } else if tag == 2 {
                match dec_u64(b, p) {
                    Some((id, p1)) => match dec_str(b, p1) {
                        Some((text, p2)) => Some((RequestV::SendMessage(id, text), p2)),
                        None => None,
                    },
                    None => None,
                }
            } else if tag == 3 {
                match dec_str(b, p) {
                    Some((name, p1)) => Some((RequestV::CreateChat(name), p1)),
                    None => None,
                }
            } else if tag == 4 {
                match dec_u64(b, p) {
                    Some((id, p1)) => Some((RequestV::DeleteChat(id), p1)),
                    None => None,
                }
            } else if tag == 5 {
                match dec_u64(b, p) {
                    Some((id, p1)) => Some((RequestV::GetMessages(id), p1)),
                    None => None,
                }
            } else if tag == 6 {
                Some((RequestV::ListPublicFiles, p))
            } else if tag == 7 {
                match dec_str(b, p) {
                    Some((name, p1)) => Some((RequestV::GetPublicFile(name), p1)),
                    None => None,
                }
            } else if tag == 8 {
                match dec_str(b, p) {
                    Some((name, p1)) => match dec_str(b, p1) {
                        Some((data, p2)) => Some((RequestV::WritePublicFile(name, data), p2)),
                        None => None,
                    },
                    None => None,
                }
            } else if tag == 9 {
                Some((RequestV::ListPrivateFiles, p))
            } else if tag == 10 {
                match dec_str(b, p) {
                    Some((name, p1)) => Some((RequestV::GetPrivateFile(name), p1)),
                    None => None,
                }
            } else if tag == 11 {
                match dec_str(b, p) {
                    Some((name, p1)) => match dec_str(b, p1) {
                        Some((data, p2)) => Some((RequestV::WritePrivateFile(name, data), p2)),
                        None => None,
                    },
                    None => None,
                }
            } else {
                None
            }
        },
        None => None,
    }
}

/// A response whose strings and lists fit their length fields.
pub open spec fn wf_response(r: ResponseV) -> bool {
    match r {
        ResponseV::ServerType(_) => true,
        ResponseV::Chats(cs) => cs.len() <= u64::MAX && forall|i: int|
            0 <= i < cs.len() ==> wf_chat_response(#[trigger] cs[i]),
        ResponseV::NewChat(c) => wf_chat_response(c),
        ResponseV::Messages(ms) => ms.len() <= u64::MAX && forall|i: int|
            0 <= i < ms.len() ==> wf_chat_message(#[trigger] ms[i]),
        ResponseV::Files(fs) => fs.len() <= u64::MAX && forall|i: int|
            0 <= i < fs.len() ==> str_ok(#[trigger] fs[i]),
        ResponseV::File(data) => str_ok(data),
        ResponseV::NoSuchFile => true,
        ResponseV::NotImplemented => true,
    }
}

/// Encoding of a response: a one-byte tag, then the variant's fields;
/// lists are element counts followed by the elements.
pub open spec fn enc_response(r: ResponseV) -> Seq<u8> {
    match r {
        ResponseV::ServerType(t) => seq![0u8] + enc_server_type(t),
        ResponseV::Chats(cs) => seq![1u8] + enc_u64(cs.len() as u64) + enc_chat_response_list(cs),
        ResponseV::NewChat(c) => seq![2u8] + enc_chat_response(c),
        ResponseV::Messages(ms) => seq![3u8] + enc_u64(ms.len() as u64) + enc_chat_message_list(
            ms,
        ),
        ResponseV::Files(fs) => seq![4u8] + enc_u64(fs.len() as u64) + enc_str_list(fs),
        ResponseV::File(data) => seq![5u8] + enc_str(data),
        ResponseV::NoSuchFile => seq![6u8],
        ResponseV::NotImplemented => seq![7u8],
    }
}

/// Reads a response at `pos`.
pub open spec fn dec_response(b: Seq<u8>, pos: int) -> Option<(ResponseV, int)> {
    match dec_u8(b, pos) {
        Some((tag, p)) => {
            if tag == 0 {
                match dec_server_type(b, p) {
                    Some((t, p1)) => Some((ResponseV::ServerType(t), p1)),
                    None => None,
                }
            } else if tag == 1 {
                match dec_u64(b, p) {
                    Some((n, p1)) => match dec_chat_response_list(b, p1, n as nat) {
                        Some((cs, p2)) => Some((ResponseV::Chats(cs), p2)),
                        None => None,
                    },
                    None => None,
                }
            } else if tag == 2 {
                match dec_chat_response(b, p) {
                    Some((c, p1)) => Some((ResponseV::NewChat(c), p1)),
                    None => None,
                }
            } else if tag == 3 {
                match dec_u64(b, p) {
                    Some((n, p1)) => match dec_chat_message_list(b, p1, n as nat) {
                        Some((ms, p2)) => Some((ResponseV::Messages(ms), p2)),
                        None => None,
                    },
                    None => None,
                }
            } else if tag == 4 {
                match dec_u64(b, p) {
                    Some((n, p1)) => match dec_str_list(b, p1, n as nat) {
                        Some((fs, p2)) => Some((ResponseV::Files(fs), p2)),
                        None => None,
                    },
                    None => None,
                }
            } else if tag == 5 {
                match dec_str(b, p) {
                    Some((data, p1)) => Some((ResponseV::File(data), p1)),
                    None => None,
                }
            } else if tag == 6 {
                Some((ResponseV::NoSuchFile, p))
            } else if tag == 7 {
                Some((ResponseV::NotImplemented, p))
            } else {
                None
            }
        },
        None => None,
    }
}

/// A message whose strings and lists fit their length fields.  Every
/// message built from executable values satisfies this.
pub open spec fn wf_message(m: MessageV) -> bool {
    match m {
        MessageV::Request(r) => wf_request(r),
        MessageV::Response(r) => wf_response(r),
    }
}

/// Encoding of a message: a one-byte tag, then the request or response.
pub open spec fn enc_message(m: MessageV) -> Seq<u8> {
    match m {
        MessageV::Request(r) => seq![0u8] + enc_request(r),
        MessageV::Response(r) => seq![1u8] + enc_response(r),
    }
}

/// Reads a message at `pos`.
pub open spec fn dec_message(b: Seq<u8>, pos: int) -> Option<(MessageV, int)> {
    match dec_u8(b, pos) {
        Some((tag, p)) => {
            if tag == 0 {
                match dec_request(b, p) {
                    Some((r, p1)) => Some((MessageV::Request(r), p1)),
                    None => None,
                }
            } else if tag == 1 {
                match dec_response(b, p) {
                    Some((r, p1)) => Some((MessageV::Response(r), p1)),
                    None => None,
                }
            } else {
                None
            }
        },
        None => None,
    }
}

// ---------------------------------------------------------------------------
// Whole-message round trip
// ---------------------------------------------------------------------------

/// A window holding `enc_request(r)` decodes to `r`.
pub proof fn lemma_dec_request(b: Seq<u8>, pos: int, r: RequestV)
    requires
        0 <= pos,
        wf_request(r),
        pos + enc_request(r).len() <= b.len(),
        b.subrange(pos, pos + enc_request(r).len()) == enc_request(r),
    ensures
        dec_request(b, pos) == Some((r, pos + enc_request(r).len())),
{
    lemma_auto_spec_u64_to_from_le_bytes();
    match r {
        RequestV::ServerType => lemma_dec_u8(b, pos, 0),
        RequestV::GetChats => lemma_dec_u8(b, pos, 1),
        RequestV::SendMessage(id, text) => {
            let e2 = enc_u64(id);
            let e3 = enc_str(text);
            assert(enc_request(r) =~= seq![2u8] + (e2 + e3));
            lemma_enc_split(b, pos, seq![2u8], e2 + e3);
            lemma_dec_u8(b, pos, 2);
            lemma_enc_split(b, pos + 1, e2, e3);
            lemma_dec_u64(b, pos + 1, id);
            lemma_dec_str(b, pos + 9, text);
        },
        RequestV::CreateChat(name) => {
            lemma_enc_split(b, pos, seq![3u8], enc_str(name));
            lemma_dec_u8(b, pos, 3);
            lemma_dec_str(b, pos + 1, name);
        },
        RequestV::DeleteChat(id) => {
            lemma_enc_split(b, pos, seq![4u8], enc_u64(id));
            lemma_dec_u8(b, pos, 4);
            lemma_dec_u64(b, pos + 1, id);
        },
        RequestV::GetMessages(id) => {
            lemma_enc_split(b, pos, seq![5u8], enc_u64(id));
            lemma_dec_u8(b, pos, 5);
            lemma_dec_u64(b, pos + 1, id);
        },
        RequestV::ListPublicFiles => lemma_dec_u8(b, pos, 6),
        RequestV::GetPublicFile(name) => {
            lemma_enc_split(b, pos, seq![7u8], enc_str(name));
            lemma_dec_u8(b, pos, 7);
            lemma_dec_str(b, pos + 1, name);
        },
        RequestV::WritePublicFile(name, data) => {
            let e2 = enc_str(name);
            let e3 = enc_str(data);
            assert(enc_request(r) =~= seq![8u8] + (e2 + e3));
            lemma_enc_split(b, pos, seq![8u8], e2 + e3);
            lemma_dec_u8(b, pos, 8);
            lemma_enc_split(b, pos + 1, e2, e3);
            lemma_dec_str(b, pos + 1, name);
            lemma_dec_str(b, pos + 1 + e2.len(), data);
        },
        RequestV::ListPrivateFiles => lemma_dec_u8(b, pos, 9),
        RequestV::GetPrivateFile(name) => {
            lemma_enc_split(b, pos, seq![10u8], enc_str(name));
            lemma_dec_u8(b, pos, 10);
            lemma_dec_str(b, pos + 1, name);
        },
        RequestV::WritePrivateFile(name, data) => {
            let e2 = enc_str(name);
            let e3 = enc_str(data);
            assert(enc_request(r) =~= seq![11u8] + (e2 + e3));
            lemma_enc_split(b, pos, seq![11u8], e2 + e3);
            lemma_dec_u8(b, pos, 11);
            lemma_enc_split(b, pos + 1, e2, e3);
            lemma_dec_str(b, pos + 1, name);
            lemma_dec_str(b, pos + 1 + e2.len(), data);
        },
    }
}

/// A window holding `enc_response(r)` decodes to `r`.
pub proof fn lemma_dec_response(b: Seq<u8>, pos: int, r: ResponseV)
    requires
        0 <= pos,
        wf_response(r),
        pos + enc_response(r).len() <= b.len(),
        b.subrange(pos, pos + enc_response(r).len()) == enc_response(r),
    ensures
        dec_response(b, pos) == Some((r, pos + enc_response(r).len())),
{
    lemma_auto_spec_u64_to_from_le_bytes();
    match r {
        ResponseV::ServerType(t) => {
            lemma_enc_split(b, pos, seq![0u8], enc_server_type(t));
            lemma_dec_u8(b, pos, 0);
            lemma_dec_server_type(b, pos + 1, t);
        },
        ResponseV::Chats(cs) => {
            let e2 = enc_u64(cs.len() as u64);
            let e3 = enc_chat_response_list(cs);
            assert(enc_response(r) =~= seq![1u8] + (e2 + e3));
            lemma_enc_split(b, pos, seq![1u8], e2 + e3);
            lemma_dec_u8(b, pos, 1);
            lemma_enc_split(b, pos + 1, e2, e3);
            lemma_dec_u64(b, pos + 1, cs.len() as u64);
            lemma_dec_chat_response_list(b, pos + 9, cs);
        },
        ResponseV::NewChat(c) => {
            lemma_enc_split(b, pos, seq![2u8], enc_chat_response(c));
            lemma_dec_u8(b, pos, 2);
            lemma_dec_chat_response(b, pos + 1, c);
        },
        ResponseV::Messages(ms) => {
            let e2 = enc_u64(ms.len() as u64);
            let e3 = enc_chat_message_list(ms);
            assert(enc_response(r) =~= seq![3u8] + (e2 + e3));
            lemma_enc_split(b, pos, seq![3u8], e2 + e3);
            lemma_dec_u8(b, pos, 3);
            lemma_enc_split(b, pos + 1, e2, e3);
            lemma_dec_u64(b, pos + 1, ms.len() as u64);
            lemma_dec_chat_message_list(b, pos + 9, ms);
        },
        ResponseV::Files(fs) => {
            let e2 = enc_u64(fs.len() as u64);
            let e3 = enc_str_list(fs);
            assert(enc_response(r) =~= seq![4u8] + (e2 + e3));
            lemma_enc_split(b, pos, seq![4u8], e2 + e3);
            lemma_dec_u8(b, pos, 4);
            lemma_enc_split(b, pos + 1, e2, e3);
            lemma_dec_u64(b, pos + 1, fs.len() as u64);
            lemma_dec_str_list(b, pos + 9, fs);
        },
        ResponseV::File(data) => {
            lemma_enc_split(b, pos, seq![5u8], enc_str(data));
            lemma_dec_u8(b, pos, 5);
            lemma_dec_str(b, pos + 1, data);
        },
        ResponseV::NoSuchFile => lemma_dec_u8(b, pos, 6),
        ResponseV::NotImplemented => lemma_dec_u8(b, pos, 7),
    }
}

/// A buffer that begins with `enc_message(m)` — padded or not — decodes
/// to exactly `m`.
pub proof fn lemma_dec_message(b: Seq<u8>, m: MessageV)
    requires
        wf_message(m),
        enc_message(m).len() <= b.len(),
        b.subrange(0, enc_message(m).len() as int) == enc_message(m),
    ensures
        dec_message(b, 0) == Some((m, enc_message(m).len() as int)),
{
    match m {
        MessageV::Request(r) => {
            lemma_enc_split(b, 0, seq![0u8], enc_request(r));
            lemma_dec_u8(b, 0, 0);
            lemma_dec_request(b, 1, r);
        },
        MessageV::Response(r) => {
            lemma_enc_split(b, 0, seq![1u8], enc_response(r));
            lemma_dec_u8(b, 0, 1);
            lemma_dec_response(b, 1, r);
        },
    }
}

// ---------------------------------------------------------------------------
// Trusted bridge for UTF-8 text
// ---------------------------------------------------------------------------

/// Relies on `String::from_utf8`: it succeeds exactly on valid UTF-8 and
/// returns the string those bytes spell.
#[verifier::external_body]
pub(crate) fn bytes_to_string(v: Vec<u8>) -> (r: Option<String>)
    ensures
        r is Some <==> valid_utf8(v@),
        r is Some ==> encode_utf8(r->0@) == v@,
{
    match String::from_utf8(v) {
        Ok(s) => Some(s),
        Err(_) => None,
    }
}

// ---------------------------------------------------------------------------
// Executable primitives
// ---------------------------------------------------------------------------

/// Appends the encoding of `v` to `out`.
fn encode_u64_into(out: &mut Vec<u8>, v: u64)
    ensures
        final(out)@ == old(out)@ + enc_u64(v),
{
    let mut bytes = u64_to_le_bytes(v);
    out.append(&mut bytes);
}

/// Appends the encoding of string `s` to `out`.
fn encode_str_into(out: &mut Vec<u8>, s: &str)
    ensures
        final(out)@ == old(out)@ + enc_str(s@),
{
    let mut bytes = s.as_bytes_vec();
    encode_u64_into(out, bytes.len() as u64);
    out.append(&mut bytes);
    assert(out@ =~= old(out)@ + enc_str(s@));
}

/// Reads a 64-bit number at `pos`, as the spec decoder does.
fn decode_u64_at(buf: &[u8], pos: usize) -> (r: Option<(u64, usize)>)
    ensures
        match r {
            Some((v, p)) => dec_u64(buf@, pos as int) == Some((v, p as int)),
            None => dec_u64(buf@, pos as int) is None,
        },
{
    if pos <= buf.len() && buf.len() - pos >= 8 {
        let v = u64_from_le_bytes(slice_subrange(buf, pos, pos + 8));
        Some((v, pos + 8))
    } else {
        None
    }
}

/// Reads one byte at `pos`, as the spec decoder does.
fn decode_u8_at(buf: &[u8], pos: usize) -> (r: Option<(u8, usize)>)
    ensures
        match r {
            Some((v, p)) => dec_u8(buf@, pos as int) == Some((v, p as int)),
            None => dec_u8(buf@, pos as int) is None,
        },
{
    if pos < buf.len() {
        Some((*slice_index_get(buf, pos), pos + 1))
    } else {
        None
    }
}

/// Reads a length-prefixed string at `pos`, as the spec decoder does.
fn decode_str_at(buf: &[u8], pos: usize) -> (r: Option<(String, usize)>)
    ensures
        match r {
            Some((s, p)) => dec_str(buf@, pos as int) == Some((s@, p as int)),
            None => dec_str(buf@, pos as int) is None,
        },
{
    match decode_u64_at(buf, pos) {
        Some((n, p)) => {
            if n <= (buf.len() - p) as u64 {
                let end = p + n as usize;
                let bytes = slice_to_vec(slice_subrange(buf, p, end));
                match bytes_to_string(bytes) {
                    Some(s) => {
                        proof {
                            encode_utf8_decode_utf8(s@);
                        }
                        Some((s, end))
                    },
                    None => None,
                }
            } else {
                None
            }
        },
        None => None,
    }
}

// ---------------------------------------------------------------------------
// Executable encoding
// ---------------------------------------------------------------------------

/// Appends the encoding of a server role to `out`.
fn encode_server_type_into(out: &mut Vec<u8>, t: &ServerType)
    ensures
        final(out)@ == old(out)@ + enc_server_type(*t),
{
    match t {
        ServerType::Communication => out.push(0),
        ServerType::Content => out.push(1),
    }
    assert(out@ =~= old(out)@ + enc_server_type(*t));
}

/// Appends the encoding of a chat listing entry to `out`.
fn encode_chat_response_into(out: &mut Vec<u8>, c: &ChatResponse)
    ensures
        final(out)@ == old(out)@ + enc_chat_response(c@),
{
    encode_u64_into(out, c.id);
    encode_str_into(out, c.name.as_str());
    assert(out@ =~= old(out)@ + enc_chat_response(c@));
}

/// Appends the encoding of a chat entry to `out`.
fn encode_chat_message_into(out: &mut Vec<u8>, m: &ChatMessage)
    ensures
        final(out)@ == old(out)@ + enc_chat_message(m@),
{
    out.push(m.author);
    encode_str_into(out, m.message.as_str());
    encode_str_into(out, m.timestamp.as_str());
    assert(out@ =~= old(out)@ + enc_chat_message(m@));
}

/// Appends the encodings of the entries of `cs` from index `i` on.
fn encode_chat_responses_from(out: &mut Vec<u8>, cs: &Vec<ChatResponse>, i: usize)
    requires
        i <= cs@.len(),
    ensures
        final(out)@ == old(out)@ + enc_chat_response_list(cs.deep_view().skip(i as int)),
    decreases cs@.len() - i,
{
    let ghost s = cs.deep_view();
    if i < cs.len() {
        encode_chat_response_into(out, &cs[i]);
        encode_chat_responses_from(out, cs, i + 1);
        proof {
            assert(s.skip(i as int).len() > 0);
            assert(s.skip(i as int)[0] == s[i as int]);
            assert(s[i as int] == cs@[i as int]@);
            assert(s.skip(i as int).drop_first() =~= s.skip(i as int + 1));
            assert(out@ =~= old(out)@ + enc_chat_response_list(s.skip(i as int)));
        }
    } else {
        assert(s.skip(i as int).len() == 0);
        assert(out@ =~= old(out)@ + enc_chat_response_list(s.skip(i as int)));
    }
}

/// Appends the encodings of the entries of `ms` from index `i` on.
fn encode_chat_messages_from(out: &mut Vec<u8>, ms: &Vec<ChatMessage>, i: usize)
    requires
        i <= ms@.len(),
    ensures
        final(out)@ == old(out)@ + enc_chat_message_list(ms.deep_view().skip(i as int)),
    decreases ms@.len() - i,
{
    let ghost s = ms.deep_view();
    if i < ms.len() {
        encode_chat_message_into(out, &ms[i]);
        encode_chat_messages_from(out, ms, i + 1);
        proof {
            assert(s.skip(i as int).len() > 0);
            assert(s.skip(i as int)[0] == s[i as int]);
            assert(s[i as int] == ms@[i as int]@);
            assert(s.skip(i as int).drop_first() =~= s.skip(i as int + 1));
            assert(out@ =~= old(out)@ + enc_chat_message_list(s.skip(i as int)));
        }
    } else {
        assert(s.skip(i as int).len() == 0);
        assert(out@ =~= old(out)@ + enc_chat_message_list(s.skip(i as int)));
    }
}

/// Appends the encodings of the strings of `fs` from index `i` on.
fn encode_strings_from(out: &mut Vec<u8>, fs: &Vec<String>, i: usize)
    requires
        i <= fs@.len(),
    ensures
        final(out)@ == old(out)@ + enc_str_list(fs.deep_view().skip(i as int)),
    decreases fs@.len() - i,
{
    let ghost s = fs.deep_view();
    if i < fs.len() {
        encode_str_into(out, fs[i].as_str());
        encode_strings_from(out, fs, i + 1);
        proof {
            assert(s.skip(i as int).len() > 0);
            assert(s.skip(i as int)[0] == s[i as int]);
            assert(s[i as int] == fs@[i as int]@);
            assert(s.skip(i as int).drop_first() =~= s.skip(i as int + 1));
            assert(out@ =~= old(out)@ + enc_str_list(s.skip(i as int)));
        }
    } else {
        assert(s.skip(i as int).len() == 0);
        assert(out@ =~= old(out)@ + enc_str_list(s.skip(i as int)));
    }
}

/// Appends the encoding of a request to `out`.
fn encode_request_into(out: &mut Vec<u8>, r: &Request)
    ensures
        final(out)@ == old(out)@ + enc_request(r@),
{
    match r {
        Request::ServerType => out.push(0),
        Request::GetChats => out.push(1),
        Request::SendMessage(id, text) => {
            out.push(2);
            encode_u64_into(out, *id);
            encode_str_into(out, text.as_str());
        },
        Request::CreateChat(name) => {
            out.push(3);
            encode_str_into(out, name.as_str());
        },
        Request::DeleteChat(id) => {
            out.push(4);
            encode_u64_into(out, *id);
        },
        Request::GetMessages(id) => {
            out.push(5);
            encode_u64_into(out, *id);
        },
        Request::ListPublicFiles => out.push(6),
        Request::GetPublicFile(name) => {
            out.push(7);
            encode_str_into(out, name.as_str());
        },
        Request::WritePublicFile(name, data) => {
            out.push(8);
            encode_str_into(out, name.as_str());
            encode_str_into(out, data.as_str());
        },
        Request::ListPrivateFiles => out.push(9),
        Request::GetPrivateFile(name) => {
            out.push(10);
            encode_str_into(out, name.as_str());
        },
        Request::WritePrivateFile(name, data) => {
            out.push(11);
            encode_str_into(out, name.as_str());
            encode_str_into(out, data.as_str());
        },
    }
    assert(out@ =~= old(out)@ + enc_request(r@));
}

/// Appends the encoding of a response to `out`.
fn encode_response_into(out: &mut Vec<u8>, r: &Response)
    ensures
        final(out)@ == old(out)@ + enc_response(r@),
{
    match r {
        Response::ServerType(t) => {
            out.push(0);
            encode_server_type_into(out, t);
        },
        Response::Chats(cs) => {
            out.push(1);
            encode_u64_into(out, cs.len() as u64);
            encode_chat_responses_from(out, cs, 0);
            proof {
                assert(cs.deep_view().skip(0) =~= cs.deep_view());
            }
        },
        Response::NewChat(c) => {
            out.push(2);
            encode_chat_response_into(out, c);
        },
        Response::Messages(ms) => {
            out.push(3);
            encode_u64_into(out, ms.len() as u64);
            encode_chat_messages_from(out, ms, 0);
            proof {
                assert(ms.deep_view().skip(0) =~= ms.deep_view());
            }
        },
        Response::Files(fs) => {
            out.push(4);
            encode_u64_into(out, fs.len() as u64);
            encode_strings_from(out, fs, 0);
            proof {
                assert(fs.deep_view().skip(0) =~= fs.deep_view());
            }
        },
        Response::File(data) => {
            out.push(5);
            encode_str_into(out, data.as_str());
        },
        Response::NoSuchFile => out.push(6),
        Response::NotImplemented => out.push(7),
    }
    assert(out@ =~= old(out)@ + enc_response(r@));
}

/// Serializes a message with the fixed binary codec.
pub fn encode_message(m: &Message) -> (r: Vec<u8>)
    ensures
        r@ == enc_message(m@),
        r@.len() >= 1,
{
    let mut out: Vec<u8> = Vec::new();
    match m {
        Message::Request(req) => {
            out.push(0);
            encode_request_into(&mut out, req);
        },
        Message::Response(resp) => {
            out.push(1);
            encode_response_into(&mut out, resp);
        },
    }
    assert(out@ =~= enc_message(m@));
    out
}

// ---------------------------------------------------------------------------
// Executable decoding
// ---------------------------------------------------------------------------

/// Reads a server role at `pos`, as the spec decoder does.
fn decode_server_type_at(buf: &[u8], pos: usize) -> (r: Option<(ServerType, usize)>)
    ensures
        match r {
            Some((t, p)) => dec_server_type(buf@, pos as int) == Some((t, p as int)),
            None => dec_server_type(buf@, pos as int) is None,
        },
{
    match decode_u8_at(buf, pos) {
        Some((tag, p)) => {
            if tag == 0 {
                Some((ServerType::Communication, p))
            } else if tag == 1 {
                Some((ServerType::Content, p))
            } else {
                None
            }
        },
        None => None,
    }
}

/// Reads a chat listing entry at `pos`, as the spec decoder does.
fn decode_chat_response_at(buf: &[u8], pos: usize) -> (r: Option<(ChatResponse, usize)>)
    ensures
        match r {
            Some((c, p)) => dec_chat_response(buf@, pos as int) == Some((c@, p as int)),
            None => dec_chat_response(buf@, pos as int) is None,
        },
{
    match decode_u64_at(buf, pos) {
        Some((id, p)) => match decode_str_at(buf, p) {
            Some((name, p2)) => Some((ChatResponse { id, name }, p2)),
            None => None,
        },
        None => None,
    }
}

/// Reads a chat entry at `pos`, as the spec decoder does.
fn decode_chat_message_at(buf: &[u8], pos: usize) -> (r: Option<(ChatMessage, usize)>)
    ensures
        match r {
            Some((m, p)) => dec_chat_message(buf@, pos as int) == Some((m@, p as int)),
            None => dec_chat_message(buf@, pos as int) is None,
        },
{
    match decode_u8_at(buf, pos) {
        Some((author, p)) => match decode_str_at(buf, p) {
            Some((message, p2)) => match decode_str_at(buf, p2) {
                Some((timestamp, p3)) => Some((ChatMessage { author, message, timestamp }, p3)),
                None => None,
            },
            None => None,
        },
        None => None,
    }
}

/// Reads `n` chat listing entries at `pos`, as the spec decoder does.
fn decode_chat_responses_at(buf: &[u8], pos: usize, n: u64) -> (r: Option<
    (Vec<ChatResponse>, usize),
>)
    ensures
        match r {
            Some((v, p)) => dec_chat_response_list(buf@, pos as int, n as nat) == Some(
                (v.deep_view(), p as int),
            ),
            None => dec_chat_response_list(buf@, pos as int, n as nat) is None,
        },
    decreases n,
{
    if n == 0 {
        let v: Vec<ChatResponse> = Vec::new();
        assert(v.deep_view() =~= Seq::<ChatResponseV>::empty());
        Some((v, pos))
    } else {
        match decode_chat_response_at(buf, pos) {
            Some((c, p)) => match decode_chat_responses_at(buf, p, n - 1) {
                Some((mut v, p2)) => {
                    let ghost pre = v.deep_view();
                    v.insert(0, c);
                    proof {
                        assert(v.deep_view() =~= seq![c@] + pre) by {
                            assert forall|j: int| 0 <= j < v.deep_view().len() implies v.deep_view()[j]
                                == (seq![c@] + pre)[j] by {
                                if j == 0 {
                                    assert(v@[0] == c);
                                }
                            }
                        }
                    }
                    Some((v, p2))
                },
                None => None,
            },
            None => None,
        }
    }
}

/// Reads `n` chat entries at `pos`, as the spec decoder does.
fn decode_chat_messages_at(buf: &[u8], pos: usize, n: u64) -> (r: Option<(Vec<ChatMessage>, usize)>)
    ensures
        match r {
            Some((v, p)) => dec_chat_message_list(buf@, pos as int, n as nat) == Some(
                (v.deep_view(), p as int),
            ),
            None => dec_chat_message_list(buf@, pos as int, n as nat) is None,
        },
    decreases n,
{
    if n == 0 {
        let v: Vec<ChatMessage> = Vec::new();
        assert(v.deep_view() =~= Seq::<ChatMessageV>::empty());
        Some((v, pos))
    } else {
        match decode_chat_message_at(buf, pos) {
            Some((m, p)) => match decode_chat_messages_at(buf, p, n - 1) {
                Some((mut v, p2)) => {
                    let ghost pre = v.deep_view();
                    v.insert(0, m);
                    proof {
                        assert(v.deep_view() =~= seq![m@] + pre) by {
                            assert forall|j: int| 0 <= j < v.deep_view().len() implies v.deep_view()[j]
                                == (seq![m@] + pre)[j] by {
                                if j == 0 {
                                    assert(v@[0] == m);
                                }
                            }
                        }
                    }
                    Some((v, p2))
                },
                None => None,
            },
            None => None,
        }
    }
}

/// Reads `n` strings at `pos`, as the spec decoder does.
fn decode_strings_at(buf: &[u8], pos: usize, n: u64) -> (r: Option<(Vec<String>, usize)>)
    ensures
        match r {
            Some((v, p)) => dec_str_list(buf@, pos as int, n as nat) == Some(
                (v.deep_view(), p as int),
            ),
            None => dec_str_list(buf@, pos as int, n as nat) is None,
        },
    decreases n,
{
    if n == 0 {
        let v: Vec<String> = Vec::new();
        assert(v.deep_view() =~= Seq::<Seq<char>>::empty());
        Some((v, pos))
    } else {
        match decode_str_at(buf, pos) {
            Some((s, p)) => match decode_strings_at(buf, p, n - 1) {
                Some((mut v, p2)) => {
                    let ghost pre = v.deep_view();
                    v.insert(0, s);
                    proof {
                        assert(v.deep_view() =~= seq![s@] + pre) by {
                            assert forall|j: int| 0 <= j < v.deep_view().len() implies v.deep_view()[j]
                                == (seq![s@] + pre)[j] by {
                                if j == 0 {
                                    assert(v@[0] == s);
                                }
                            }
                        }
                    }
                    Some((v, p2))
                },
                None => None,
            },
            None => None,
        }
    }
}

/// Reads a request at `pos`, as the spec decoder does.
fn decode_request_at(buf: &[u8], pos: usize) -> (r: Option<(Request, usize)>)
    ensures
        match r {
            Some((q, p)) => dec_request(buf@, pos as int) == Some((q@, p as int)),
            None => dec_request(buf@, pos as int) is None,
        },
{
    match decode_u8_at(buf, pos) {
        Some((tag, p)) => {
            if tag == 0 {
                Some((Request::ServerType, p))
            } else if tag == 1 {
                Some((Request::GetChats, p))
            } else if tag == 2 {
                match decode_u64_at(buf, p) {
                    Some((id, p1)) => match decode_str_at(buf, p1) {
                        Some((text, p2)) => Some((Request::SendMessage(id, text), p2)),
                        None => None,
                    },
                    None => None,
                }
            } else if tag == 3 {
                match decode_str_at(buf, p) {
                    Some((name, p1)) => Some((Request::CreateChat(name), p1)),
                    None => None,
                }
            } else if tag == 4 {
                match decode_u64_at(buf, p) {
                    Some((id, p1)) => Some((Request::DeleteChat(id), p1)),
                    None => None,
                }
            } else if tag == 5 {
                match decode_u64_at(buf, p) {
                    Some((id, p1)) => Some((Request::GetMessages(id), p1)),
                    None => None,
                }
            } else if tag == 6 {
                Some((Request::ListPublicFiles, p))
            } else if tag == 7 {
                match decode_str_at(buf, p) {
                    Some((name, p1)) => Some((Request::GetPublicFile(name), p1)),
                    None => None,
                }
            } else if tag == 8 {
                match decode_str_at(buf, p) {
                    Some((name, p1)) => match decode_str_at(buf, p1) {
                        Some((data, p2)) => Some((Request::WritePublicFile(name, data), p2)),
                        None => None,
                    },
                    None => None,
                }
            } else if tag == 9 {
                Some((Request::ListPrivateFiles, p))
            } else if tag == 10 {
                match decode_str_at(buf, p) {
                    Some((name, p1)) => Some((Request::GetPrivateFile(name), p1)),
                    None => None,
                }
            } else if tag == 11 {
                match decode_str_at(buf, p) {
                    Some((name, p1)) => match decode_str_at(buf, p1) {
                        Some((data, p2)) => Some((Request::WritePrivateFile(name, data), p2)),
                        None => None,
                    },
                    None => None,
                }
            } else {
                None
            }
        },
        None => None,
    }
}

/// Reads a response at `pos`, as the spec decoder does.
fn decode_response_at(buf: &[u8], pos: usize) -> (r: Option<(Response, usize)>)
    ensures
        match r {
            Some((q, p)) => dec_response(buf@, pos as int) == Some((q@, p as int)),
            None => dec_response(buf@, pos as int) is None,
        },
{
    match decode_u8_at(buf, pos) {
        Some((tag, p)) => {
            if tag == 0 {
                match decode_server_type_at(buf, p) {
                    Some((t, p1)) => Some((Response::ServerType(t), p1)),
                    None => None,
                }
            } else if tag == 1 {
                match decode_u64_at(buf, p) {
                    Some((n, p1)) => match decode_chat_responses_at(buf, p1, n) {
                        Some((cs, p2)) => Some((Response::Chats(cs), p2)),
                        None => None,
                    },
                    None => None,
                }
            } else if tag == 2 {
                match decode_chat_response_at(buf, p) {
                    Some((c, p1)) => Some((Response::NewChat(c), p1)),
                    None => None,
                }
            } else if tag == 3 {
                match decode_u64_at(buf, p) {
                    Some((n, p1)) => match decode_chat_messages_at(buf, p1, n) {
                        Some((ms, p2)) => Some((Response::Messages(ms), p2)),
                        None => None,
                    },
                    None => None,
                }
            } else if tag == 4 {
                match decode_u64_at(buf, p) {
                    Some((n, p1)) => match decode_strings_at(buf, p1, n) {
                        Some((fs, p2)) => Some((Response::Files(fs), p2)),
                        None => None,
                    },
                    None => None,
                }
            } else if tag == 5 {
                match decode_str_at(buf, p) {
                    Some((data, p1)) => Some((Response::File(data), p1)),
                    None => None,
                }
            } else if tag == 6 {
                Some((Response::NoSuchFile, p))
            } else if tag == 7 {
                Some((Response::NotImplemented, p))
            } else {
                None
            }
        },
        None => None,
    }
}

/// Deserializes the message at the start of `buf`, ignoring whatever
/// trails it (such as reassembly padding).
pub fn decode_message(buf: &[u8]) -> (r: Option<Message>)
    ensures
        match r {
            Some(m) => dec_message(buf@, 0) is Some && (dec_message(buf@, 0)->0).0 == m@,
            None => dec_message(buf@, 0) is None,
        },
{
    match decode_u8_at(buf, 0) {
        Some((tag, p)) => {
            if tag == 0 {
                match decode_request_at(buf, p) {
                    Some((q, _p1)) => Some(Message::Request(q)),
                    None => None,
                }
            } else if tag == 1 {
                match decode_response_at(buf, p) {
                    Some((q, _p1)) => Some(Message::Response(q)),
                    None => None,
                }
            } else {
                None
            }
        },
        None => None,
    }
}

} // verus!
