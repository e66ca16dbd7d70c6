//! The payload codec: exact bytes, round trips, and padding tolerance.

use backend::codec::{decode_message, encode_message};
use backend::message::{ChatMessage, ChatResponse, Message, Request, Response, ServerType};

fn round_trip(m: Message) -> Message {
    let bytes = encode_message(&m);
    decode_message(bytes.as_slice()).expect("a fresh encoding must decode")
}

#[test]
fn server_type_request_has_exact_bytes() {
    let bytes = encode_message(&Message::Request(Request::ServerType));
    assert_eq!(bytes, vec![0u8, 0u8]);
}

#[test]
fn delete_chat_request_is_little_endian() {
    let bytes = encode_message(&Message::Request(Request::DeleteChat(7)));
    assert_eq!(bytes, vec![0u8, 4, 7, 0, 0, 0, 0, 0, 0, 0]);
}

#[test]
fn no_such_file_response_has_exact_bytes() {
    let bytes = encode_message(&Message::Response(Response::NoSuchFile));
    assert_eq!(bytes, vec![1u8, 6]);
}

#[test]
fn string_encoding_is_length_prefixed() {
    let bytes = encode_message(&Message::Request(Request::CreateChat(String::from("ab"))));
    assert_eq!(bytes, vec![0u8, 3, 2, 0, 0, 0, 0, 0, 0, 0, 97, 98]);
}

#[test]
fn requests_round_trip() {
    let cases = vec![
        Request::ServerType,
        Request::GetChats,
        Request::SendMessage(42, String::from("hi there")),
        Request::CreateChat(String::from("room")),
        Request::DeleteChat(u64::MAX),
        Request::GetMessages(0),
        Request::ListPublicFiles,
        Request::GetPublicFile(String::from("a.txt")),
        Request::WritePublicFile(String::from("a.txt"), String::from("hello")),
        Request::ListPrivateFiles,
        Request::GetPrivateFile(String::from("b.txt")),
        Request::WritePrivateFile(String::from("b.txt"), String::from("data")),
    ];
    for rq in cases {
        let m = Message::Request(rq.clone());
        assert_eq!(round_trip(m), Message::Request(rq));
    }
}

#[test]
fn responses_round_trip() {
    let cases = vec![
        Response::ServerType(ServerType::Communication),
        Response::ServerType(ServerType::Content),
        Response::Chats(vec![
            ChatResponse { id: 1, name: String::from("a") },
            ChatResponse { id: 2, name: String::from("b") },
        ]),
        Response::NewChat(ChatResponse { id: 9, name: String::from("room") }),
        Response::Messages(vec![ChatMessage {
            author: 1,
            message: String::from("hi"),
            timestamp: String::from("2024-01-01T00:00:00+00:00"),
        }]),
        Response::Files(vec![String::from("a.txt"), String::from("b.txt")]),
        Response::File(String::from("hello")),
        Response::NoSuchFile,
        Response::NotImplemented,
    ];
    for resp in cases {
        let m = Message::Response(resp.clone());
        assert_eq!(round_trip(m), Message::Response(resp));
    }
}

#[test]
fn non_ascii_text_round_trips() {
    let m = Message::Request(Request::SendMessage(5, String::from("héllo wörld ✓")));
    assert_eq!(round_trip(m.clone()), m);
}

#[test]
fn decoding_ignores_trailing_padding() {
    let m = Message::Response(Response::File(String::from("payload")));
    let mut bytes = encode_message(&m);
    for _ in 0..100 {
        bytes.push(0);
    }
    assert_eq!(decode_message(bytes.as_slice()), Some(m));
}

#[test]
fn truncated_encodings_are_refused() {
    let m = Message::Request(Request::CreateChat(String::from("room")));
    let bytes = encode_message(&m);
    let cut = &bytes[0..bytes.len() - 1];
    assert_eq!(decode_message(cut), None);
}

#[test]
fn unknown_tags_are_refused() {
    assert_eq!(decode_message(&[9u8, 0, 0]), None);
    assert_eq!(decode_message(&[0u8, 99]), None);
    assert_eq!(decode_message(&[]), None);
}
