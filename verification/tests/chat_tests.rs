//! The communication role, driven directly: chat bookkeeping, loading
//! persisted chats, deletion, and what it declines to answer.

use backend::communication_server::CommunicationServer;
use backend::content_server::ContentServer;
use backend::message::{Chat, ChatMessage, Message, Request, Response, ServerType};
use backend::role::{FsRequest, RoleStep};

#[test]
fn a_created_chat_is_listed_and_readable() {
    let mut server = CommunicationServer::new(7, String::from("store"));
    let created = server.create_chat_with_id(5, String::from("room"));
    match created {
        Response::NewChat(chat) => {
            assert_eq!(chat.id, 5);
            assert_eq!(chat.name, "room");
        }
        other => panic!("expected the fresh chat's entry, got {:?}", other),
    }
    match server.get_chats() {
        Response::Chats(listing) => {
            assert_eq!(listing.len(), 1);
            assert_eq!(listing[0].id, 5);
            assert_eq!(listing[0].name, "room");
        }
        other => panic!("expected the listing, got {:?}", other),
    }
    match server.get_chat_messages(5) {
        Response::Messages(entries) => assert_eq!(entries.len(), 0),
        other => panic!("expected an empty chat, got {:?}", other),
    }
}

#[test]
fn entries_land_in_their_chat_with_a_timestamp() {
    let mut server = CommunicationServer::new(7, String::from("store"));
    server.create_chat_with_id(5, String::from("room"));
    server.add_message_to_chat(5, 9, String::from("hello"));
    // an unknown chat id swallows the entry
    server.add_message_to_chat(6, 9, String::from("lost"));
    match server.get_chat_messages(5) {
        Response::Messages(entries) => {
            assert_eq!(entries.len(), 1);
            assert_eq!(entries[0].author, 9);
            assert_eq!(entries[0].message, "hello");
            assert!(!entries[0].timestamp.is_empty());
        }
        other => panic!("expected one entry, got {:?}", other),
    }
    match server.get_chat_messages(6) {
        Response::Messages(entries) => assert_eq!(entries.len(), 0),
        other => panic!("expected nothing, got {:?}", other),
    }
}

#[test]
fn deleting_a_chat_forgets_it_and_names_its_file() {
    let mut server = CommunicationServer::new(7, String::from("store"));
    server.create_chat_with_id(5, String::from("room"));
    let request = server.delete_chat(5);
    assert_eq!(request, FsRequest::DeleteFile(String::from("store/7/communication/5")));
    match server.get_chats() {
        Response::Chats(listing) => assert_eq!(listing.len(), 0),
        other => panic!("expected an empty listing, got {:?}", other),
    }
}

#[test]
fn loaded_chats_replace_same_id_entries() {
    let mut server = CommunicationServer::new(7, String::from("store"));
    server.load_chat(
        5,
        Chat {
            name: String::from("old"),
            messages: vec![ChatMessage {
                author: 1,
                message: String::from("kept"),
                timestamp: String::from("2024-01-01T00:00:00+00:00"),
            }],
        },
    );
    server.load_chat(5, Chat { name: String::from("new"), messages: vec![] });
    match server.get_chats() {
        Response::Chats(listing) => {
            assert_eq!(listing.len(), 1);
            assert_eq!(listing[0].name, "new");
        }
        other => panic!("expected one replaced chat, got {:?}", other),
    }
    let records = server.stop();
    assert_eq!(records.len(), 1);
    assert_eq!(records[0].0, 5);
    assert_eq!(records[0].1.name, "new");
}

#[test]
fn file_requests_at_a_chat_server_are_not_implemented() {
    let mut server = CommunicationServer::new(7, String::from("store"));
    let step = server.handle_message(1, Message::Request(Request::ListPublicFiles));
    assert_eq!(step, RoleStep::Reply(Response::NotImplemented));
    let step = server.handle_message(
        1,
        Message::Request(Request::GetPublicFile(String::from("a.txt"))),
    );
    assert_eq!(step, RoleStep::Reply(Response::NotImplemented));
}

#[test]
fn chat_requests_at_a_content_server_are_not_implemented() {
    let mut server = ContentServer::new(3, String::from("store"));
    let step = server.handle_message(1, Message::Request(Request::GetChats));
    assert_eq!(step, RoleStep::Reply(Response::NotImplemented));
    let step = server.handle_message(
        1,
        Message::Request(Request::CreateChat(String::from("room"))),
    );
    assert_eq!(step, RoleStep::Reply(Response::NotImplemented));
}

#[test]
fn stray_responses_are_dropped_by_both_roles() {
    let mut chat_server = CommunicationServer::new(7, String::from("store"));
    let step = chat_server.handle_message(1, Message::Response(Response::NoSuchFile));
    assert_eq!(step, RoleStep::NoReply);
    let mut file_server = ContentServer::new(3, String::from("store"));
    let step = file_server.handle_message(1, Message::Response(Response::NotImplemented));
    assert_eq!(step, RoleStep::NoReply);
}

#[test]
fn private_stores_are_kept_per_peer() {
    let mut server = ContentServer::new(3, String::from("store"));
    let step = server.handle_message(
        4,
        Message::Request(Request::GetPrivateFile(String::from("notes.txt"))),
    );
    assert_eq!(
        step,
        RoleStep::Fs(FsRequest::ReadFile(String::from("store/3/content/4/notes.txt")))
    );
    let step = server.handle_message(4, Message::Request(Request::ListPrivateFiles));
    assert_eq!(step, RoleStep::Fs(FsRequest::ListDir(String::from("store/3/content/4"))));
    // a climbing private name is refused for reads and writes alike
    let step = server.handle_message(
        4,
        Message::Request(Request::GetPrivateFile(String::from("../5/secret"))),
    );
    assert_eq!(step, RoleStep::Reply(Response::NoSuchFile));
    let step = server.handle_message(
        4,
        Message::Request(Request::WritePrivateFile(String::from("../5/x"), String::from("y"))),
    );
    assert_eq!(step, RoleStep::NoReply);
}

#[test]
fn create_chat_draws_an_id_and_keeps_the_name() {
    let mut server = CommunicationServer::new(7, String::from("store"));
    let step = server.handle_message(
        2,
        Message::Request(Request::CreateChat(String::from("fresh"))),
    );
    match step {
        RoleStep::Reply(Response::NewChat(chat)) => {
            assert_eq!(chat.name, "fresh");
            match server.get_chat_messages(chat.id) {
                Response::Messages(entries) => assert_eq!(entries.len(), 0),
                other => panic!("expected the fresh chat, got {:?}", other),
            }
        }
        other => panic!("expected a fresh chat, got {:?}", other),
    }
}
