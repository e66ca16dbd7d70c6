//! The application role attached to a node, and the small vocabulary the
//! role uses to talk to the embedding program.
//!
//! A role does small synchronous work and never blocks: it answers a
//! message with a reply, with nothing, or with one filesystem action for
//! the embedding program to perform.  The outcome of that action is
//! turned back into a reply by the role's own logic.

use vstd::prelude::*;
use crate::communication_server::{comm_handled, CommunicationServer};
use crate::content_server::{content_fs_reply, content_step, ContentServer};
use crate::message::{Chat, Message, MessageV, Response, ResponseV};
use crate::packet::NodeKind;

verus! {

/// One filesystem action the embedding program performs for a role.
#[derive(Clone, PartialEq, Eq, Debug)]
pub enum FsRequest {
    ReadFile(String),
    WriteFile(String, String),
    ListDir(String),
    DeleteFile(String),
}

/// Mathematical model of an [`FsRequest`].
pub enum FsRequestV {
    ReadFile(Seq<char>),
    WriteFile(Seq<char>, Seq<char>),
    ListDir(Seq<char>),
    DeleteFile(Seq<char>),
}

impl View for FsRequest {
    type V = FsRequestV;

    open spec fn view(&self) -> FsRequestV {
        match self {
            FsRequest::ReadFile(path) => FsRequestV::ReadFile(path@),
            FsRequest::WriteFile(path, data) => FsRequestV::WriteFile(path@, data@),
            FsRequest::ListDir(path) => FsRequestV::ListDir(path@),
            FsRequest::DeleteFile(path) => FsRequestV::DeleteFile(path@),
        }
    }
}

/// What came of a filesystem action.
#[derive(Clone, PartialEq, Eq, Debug)]
pub enum FsOutcome {
    ReadOk(String),
    ReadFailed,
    Listing(Vec<String>),
    ListFailed,
    Done,
}

/// Mathematical model of an [`FsOutcome`].
pub enum FsOutcomeV {
    ReadOk(Seq<char>),
    ReadFailed,
    Listing(Seq<Seq<char>>),
    ListFailed,
    Done,
}

impl View for FsOutcome {
    type V = FsOutcomeV;

    open spec fn view(&self) -> FsOutcomeV {
        match self {
            FsOutcome::ReadOk(data) => FsOutcomeV::ReadOk(data@),
            FsOutcome::ReadFailed => FsOutcomeV::ReadFailed,
            FsOutcome::Listing(names) => FsOutcomeV::Listing(names.deep_view()),
            FsOutcome::ListFailed => FsOutcomeV::ListFailed,
            FsOutcome::Done => FsOutcomeV::Done,
        }
    }
}

/// What a role makes of one incoming message.
#[derive(Clone, PartialEq, Eq, Debug)]
pub enum RoleStep {
    /// Answer the peer.
    Reply(Response),
    /// Nothing to send back.
    NoReply,
    /// Perform this filesystem action; its outcome may yield a reply.
    Fs(FsRequest),
}

/// Mathematical model of a [`RoleStep`].
pub enum RoleStepV {
    Reply(ResponseV),
    NoReply,
    Fs(FsRequestV),
}

impl View for RoleStep {
    type V = RoleStepV;

    open spec fn view(&self) -> RoleStepV {
        match self {
            RoleStep::Reply(r) => RoleStepV::Reply(r@),
            RoleStep::NoReply => RoleStepV::NoReply,
            RoleStep::Fs(f) => RoleStepV::Fs(f@),
        }
    }
}

/// What the supervisor can ask a node to do at the application layer.
pub enum SimControllerMessage {
    SendMessageToPeer(crate::packet::NodeId, Message),
}

/// The pluggable application behaviour of a node.
pub enum Role {
    Communication(CommunicationServer),
    Content(ContentServer),
}

/// What a role makes of one message: the state change and the step, for
/// whichever role the node plays.
pub open spec fn role_handled(pre: Role, post: Role, peer_id: crate::packet::NodeId, m: MessageV, r: RoleStepV) -> bool {
    match pre {
        Role::Communication(c0) => post matches Role::Communication(c1) && c1.spec_base_path()
            == c0.spec_base_path() && comm_handled(
            c0.chats(),
            c1.chats(),
            c0.spec_base_path(),
            peer_id,
            m,
            r,
        ),
        Role::Content(c0) => post matches Role::Content(c1) && c1.spec_base_path()
            == c0.spec_base_path() && r == content_step(c0.spec_base_path(), peer_id, m),
    }
}

impl Role {
    /// The role's internal consistency.
    pub open spec fn wf(&self) -> bool {
        match self {
            Role::Communication(c) => c.wf(),
            Role::Content(_) => true,
        }
    }

    /// One incoming application message, handed to whichever role the
    /// node plays.
    pub fn handle_message(&mut self, peer_id: crate::packet::NodeId, message: Message) -> (r:
        RoleStep)
        requires
            old(self).wf(),
        ensures
            final(self).wf(),
            role_handled(*old(self), *final(self), peer_id, message@, r@),
    {
        match self {
            Role::Communication(c) => c.handle_message(peer_id, message),
            Role::Content(c) => c.handle_message(peer_id, message),
        }
    }

    /// The reply owed once a filesystem action came back: the content
    /// role answers per its own rules, the communication role never
    /// replies from the filesystem.
    pub fn fs_response(&self, outcome: FsOutcome) -> (r: Option<Response>)
        ensures
            match self {
                Role::Content(_) => match r {
                    Some(resp) => content_fs_reply(outcome@) == Some(resp@),
                    None => content_fs_reply(outcome@) is None,
                },
                Role::Communication(_) => r is None,
            },
    {
        match self {
            Role::Content(_) => ContentServer::fs_response(outcome),
            Role::Communication(_) => None,
        }
    }

    /// What the embedding program must persist at shutdown: the chat
    /// store for a communication role, nothing for a content role.
    pub fn stop(&self) -> (r: Option<&Vec<(u64, Chat)>>)
        ensures
            self is Communication <==> r is Some,
    {
        match self {
            Role::Communication(c) => Some(c.stop()),
            Role::Content(_) => None,
        }
    }

    /// Where a node of this role stands in flood traces.
    pub fn get_node_type(&self) -> (r: NodeKind)
        ensures
            r == NodeKind::Server,
    {
        NodeKind::Server
    }

    /// A short label for the role, used by the embedding program for
    /// thread names and log targets.
    pub fn get_node_type_str(&self) -> (r: &str)
        ensures
            self is Communication ==> r@ == "CommunicationServer"@,
            self is Content ==> r@ == "ContentServer"@,
    {
        match self {
            Role::Communication(_) => "CommunicationServer",
            Role::Content(_) => "ContentServer",
        }
    }

    /// A supervisor order at the application layer: hand the message on
    /// to the named peer, with a fresh session.
    pub fn handle_control_message(&mut self, message: SimControllerMessage) -> (r: Option<
        (crate::packet::NodeId, Option<u64>, Message),
    >)
        ensures
            *final(self) == *old(self),
            match message {
                SimControllerMessage::SendMessageToPeer(peer_id, ref m) => {
                    &&& r is Some
                    &&& (r->0).0 == peer_id
                    &&& (r->0).1 is None
                    &&& (r->0).2 == m
                },
            },
    {
        match message {
            SimControllerMessage::SendMessageToPeer(peer_id, m) => Some((peer_id, None, m)),
        }
    }
}

} // verus!
