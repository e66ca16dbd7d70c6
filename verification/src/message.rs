//! Application-layer messages: typed requests and responses exchanged
//! between endpoints, plus the chat records the communication role keeps.

use vstd::prelude::*;
use crate::packet::NodeId;

verus! {

/// A message is either a request or a response.
#[derive(Clone, PartialEq, Eq, Debug)]
pub enum Message {
    Request(Request),
    Response(Response),
}

/// What a peer can ask of a server.
#[derive(Clone, PartialEq, Eq, Debug)]
pub enum Request {
    ServerType,
    GetChats,
    SendMessage(u64, String),
    CreateChat(String),
    DeleteChat(u64),
    GetMessages(u64),
    ListPublicFiles,
    GetPublicFile(String),
    WritePublicFile(String, String),
    ListPrivateFiles,
    GetPrivateFile(String),
    WritePrivateFile(String, String),
}

/// What a server answers.
#[derive(Clone, PartialEq, Eq, Debug)]
pub enum Response {
    ServerType(ServerType),
    Chats(Vec<ChatResponse>),
    NewChat(ChatResponse),
    Messages(Vec<ChatMessage>),
    Files(Vec<String>),
    File(String),
    NoSuchFile,
    NotImplemented,
}

/// The two server roles an endpoint can play.
#[derive(Clone, Copy, PartialEq, Eq, Structural, Debug)]
pub enum ServerType {
    Communication,
    Content,
}

/// A chat as listed to peers: its id and its name.
#[derive(Clone, PartialEq, Eq, Debug)]
pub struct ChatResponse {
    pub id: u64,
    pub name: String,
}

/// One chat entry: who wrote it, what, and when (RFC 3339 text).
#[derive(Clone, PartialEq, Eq, Debug)]
pub struct ChatMessage {
    pub author: NodeId,
    pub message: String,
    pub timestamp: String,
}

/// A chat room held by the communication role.
#[derive(Clone, PartialEq, Eq, Debug)]
pub struct Chat {
    pub name: String,
    pub messages: Vec<ChatMessage>,
}

/// Mathematical model of a [`ChatResponse`].
pub struct ChatResponseV {
    pub id: u64,
    pub name: Seq<char>,
}

impl View for ChatResponse {
    type V = ChatResponseV;

    open spec fn view(&self) -> ChatResponseV {
        ChatResponseV { id: self.id, name: self.name@ }
    }
}

impl DeepView for ChatResponse {
    type V = ChatResponseV;

    open spec fn deep_view(&self) -> ChatResponseV {
        self@
    }
}

/// Mathematical model of a [`ChatMessage`].
pub struct ChatMessageV {
    pub author: NodeId,
    pub message: Seq<char>,
    pub timestamp: Seq<char>,
}

impl View for ChatMessage {
    type V = ChatMessageV;

    open spec fn view(&self) -> ChatMessageV {
        ChatMessageV { author: self.author, message: self.message@, timestamp: self.timestamp@ }
    }
}

impl DeepView for ChatMessage {
    type V = ChatMessageV;

    open spec fn deep_view(&self) -> ChatMessageV {
        self@
    }
}

/// Mathematical model of a [`Chat`].
pub struct ChatV {
    pub name: Seq<char>,
    pub messages: Seq<ChatMessageV>,
}

impl View for Chat {
    type V = ChatV;

    open spec fn view(&self) -> ChatV {
        ChatV { name: self.name@, messages: self.messages.deep_view() }
    }
}

/// Mathematical model of a [`Request`].
pub enum RequestV {
    ServerType,
    GetChats,
    SendMessage(u64, Seq<char>),
    CreateChat(Seq<char>),
    DeleteChat(u64),
    GetMessages(u64),
    ListPublicFiles,
    GetPublicFile(Seq<char>),
    WritePublicFile(Seq<char>, Seq<char>),
    ListPrivateFiles,
    GetPrivateFile(Seq<char>),
    WritePrivateFile(Seq<char>, Seq<char>),
}

impl View for Request {
    type V = RequestV;

    open spec fn view(&self) -> RequestV {
        match self {
            Request::ServerType => RequestV::ServerType,
            Request::GetChats => RequestV::GetChats,
            Request::SendMessage(id, text) => RequestV::SendMessage(*id, text@),
            Request::CreateChat(name) => RequestV::CreateChat(name@),
            Request::DeleteChat(id) => RequestV::DeleteChat(*id),
            Request::GetMessages(id) => RequestV::GetMessages(*id),
            Request::ListPublicFiles => RequestV::ListPublicFiles,
            Request::GetPublicFile(name) => RequestV::GetPublicFile(name@),
            Request::WritePublicFile(name, data) => RequestV::WritePublicFile(name@, data@),
            Request::ListPrivateFiles => RequestV::ListPrivateFiles,
            Request::GetPrivateFile(name) => RequestV::GetPrivateFile(name@),
            Request::WritePrivateFile(name, data) => RequestV::WritePrivateFile(name@, data@),
        }
    }
}

/// Mathematical model of a [`Response`].
pub enum ResponseV {
    ServerType(ServerType),
    Chats(Seq<ChatResponseV>),
    NewChat(ChatResponseV),
    Messages(Seq<ChatMessageV>),
    Files(Seq<Seq<char>>),
    File(Seq<char>),
    NoSuchFile,
    NotImplemented,
}

impl View for Response {
    type V = ResponseV;

    open spec fn view(&self) -> ResponseV {
        match self {
            Response::ServerType(t) => ResponseV::ServerType(*t),
            Response::Chats(cs) => ResponseV::Chats(cs.deep_view()),
            Response::NewChat(c) => ResponseV::NewChat(c@),
            Response::Messages(ms) => ResponseV::Messages(ms.deep_view()),
            Response::Files(fs) => ResponseV::Files(fs.deep_view()),
            Response::File(data) => ResponseV::File(data@),
            Response::NoSuchFile => ResponseV::NoSuchFile,
            Response::NotImplemented => ResponseV::NotImplemented,
        }
    }
}

/// Mathematical model of a [`Message`].
pub enum MessageV {
    Request(RequestV),
    Response(ResponseV),
}

impl View for Message {
    type V = MessageV;

    open spec fn view(&self) -> MessageV {
        match self {
            Message::Request(r) => MessageV::Request(r@),
            Message::Response(r) => MessageV::Response(r@),
        }
    }
}

} // verus!
