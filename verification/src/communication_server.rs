//! The communication role: chat rooms kept in memory, loaded by the
//! embedding program at start and handed back to it at shutdown for
//! persistence.

use vstd::prelude::*;
use vstd::string::StringExecFns;
use crate::message::{Chat, ChatV, ChatMessage, ChatMessageV, ChatResponse, ChatResponseV, Message, MessageV, Request, RequestV, Response, ResponseV, ServerType};
use crate::packet::NodeId;
use crate::role::{FsRequest, FsRequestV, RoleStep, RoleStepV};
use crate::utils::{dec_str, now_rfc3339, random_u64, u8_to_string, u64_to_string};
use crate::content_server::joined;

verus! {

/// The id names a chat in the store.
pub open spec fn has_chat(s: Seq<(u64, ChatV)>, id: u64) -> bool {
    exists|i: int| #![trigger s[i]] 0 <= i < s.len() && s[i].0 == id
}

/// Where the id's chat stands in the store.
pub open spec fn chat_idx(s: Seq<(u64, ChatV)>, id: u64) -> int {
    choose|i: int| #![trigger s[i]] 0 <= i < s.len() && s[i].0 == id
}

/// No two chats share an id.
pub open spec fn unique_ids(s: Seq<(u64, ChatV)>) -> bool {
    forall|i: int, j: int| 0 <= i < j < s.len() ==> (#[trigger] s[i]).0 != (#[trigger] s[j]).0
}

/// The store with `(id, chat)` put in: an existing chat with that id is
/// replaced, otherwise the pair joins at the end.
pub open spec fn chats_insert(s: Seq<(u64, ChatV)>, id: u64, c: ChatV) -> Seq<(u64, ChatV)> {
    if has_chat(s, id) {
        s.update(chat_idx(s, id), (id, c))
    } else {
        s.push((id, c))
    }
}

/// The store with the id's chat taken out.
pub open spec fn chats_remove(s: Seq<(u64, ChatV)>, id: u64) -> Seq<(u64, ChatV)> {
    s.filter(|p: (u64, ChatV)| p.0 != id)
}

/// The listing a peer is shown: each chat's id and name, in store order.
pub open spec fn chat_listing(s: Seq<(u64, ChatV)>) -> Seq<ChatResponseV> {
    s.map_values(|p: (u64, ChatV)| ChatResponseV { id: p.0, name: p.1.name })
}

/// The entries of the id's chat, or nothing for an unknown id.
pub open spec fn messages_of(s: Seq<(u64, ChatV)>, id: u64) -> Seq<ChatMessageV> {
    if has_chat(s, id) {
        s[chat_idx(s, id)].1.messages
    } else {
        Seq::empty()
    }
}

/// The store `s1` is `s0` with one entry landed in the id's chat —
/// written by `author`, saying `text`, stamped with whatever the clock
/// read — and is plain `s0` when the id names no chat.
pub open spec fn chat_appended(
    s0: Seq<(u64, ChatV)>,
    s1: Seq<(u64, ChatV)>,
    id: u64,
    author: NodeId,
    text: Seq<char>,
) -> bool {
    if !has_chat(s0, id) {
        s1 == s0
    } else {
        exists|ts: Seq<char>|
            s1 == #[trigger] s0.update(
                chat_idx(s0, id),
                (
                    id,
                    ChatV {
                        name: s0[chat_idx(s0, id)].1.name,
                        messages: s0[chat_idx(s0, id)].1.messages.push(
                            ChatMessageV { author, message: text, timestamp: ts },
                        ),
                    },
                ),
            )
    }
}

/// Where the id's chat is persisted under the role's directory.
pub open spec fn chat_path(base: Seq<char>, id: u64) -> Seq<char> {
    joined(base, dec_str(id as nat))
}

/// What the communication role does with one incoming message: how the
/// store changes and what comes back.
pub open spec fn comm_handled(
    pre: Seq<(u64, ChatV)>,
    post: Seq<(u64, ChatV)>,
    base: Seq<char>,
    peer_id: NodeId,
    m: MessageV,
    r: RoleStepV,
) -> bool {
    match m {
        MessageV::Request(rq) => match rq {
            RequestV::ServerType => r == RoleStepV::Reply(
                ResponseV::ServerType(ServerType::Communication),
            ) && post == pre,
            RequestV::GetChats => r == RoleStepV::Reply(ResponseV::Chats(chat_listing(pre)))
                && post == pre,
            RequestV::SendMessage(chat_id, text) => r == RoleStepV::NoReply && chat_appended(
                pre,
                post,
                chat_id,
                peer_id,
                text,
            ),
            RequestV::CreateChat(name) => r matches RoleStepV::Reply(resp) && resp matches ResponseV::NewChat(c)
                && c.name == name && post == chats_insert(
                pre,
                c.id,
                ChatV { name, messages: Seq::empty() },
            ),
            RequestV::DeleteChat(chat_id) => r == RoleStepV::Fs(
                FsRequestV::DeleteFile(chat_path(base, chat_id)),
            ) && post == chats_remove(pre, chat_id),
            RequestV::GetMessages(chat_id) => r == RoleStepV::Reply(
                ResponseV::Messages(messages_of(pre, chat_id)),
            ) && post == pre,
            _ => r == RoleStepV::Reply(ResponseV::NotImplemented) && post == pre,
        },
        MessageV::Response(_) => r == RoleStepV::NoReply && post == pre,
    }
}

/// The communication role: chat rooms keyed by id, and the directory
/// they are persisted under.
pub struct CommunicationServer {
    chats: Vec<(u64, Chat)>,
    base_path: String,
}

impl CommunicationServer {
    /// The chat store.
    pub closed spec fn chats(&self) -> Seq<(u64, ChatV)> {
        Seq::new(self.chats@.len(), |i: int| (self.chats@[i].0, self.chats@[i].1@))
    }

    /// The directory the chats persist under.
    pub closed spec fn spec_base_path(&self) -> Seq<char> {
        self.base_path@
    }

    /// No two chats share an id.
    pub open spec fn wf(&self) -> bool {
        unique_ids(self.chats())
    }

    /// An empty communication role rooted at
    /// `base_path/<node_id>/communication`.  The embedding program loads
    /// the persisted chats with [`Self::load_chat`].
    pub fn new(node_id: NodeId, base_path: String) -> (r: Self)
        ensures
            r.wf(),
            r.chats().len() == 0,
            r.spec_base_path() == joined(
                joined(base_path@, dec_str(node_id as nat)),
                "communication"@,
            ),
    {
        let ghost b0 = base_path@;
        let mut path = base_path;
        path.append("/");
        let id = u8_to_string(node_id);
        path.append(id.as_str());
        path.append("/");
        path.append("communication");
        proof {
            assert(path@ =~= joined(joined(b0, dec_str(node_id as nat)), "communication"@));
        }
        let r = CommunicationServer { chats: Vec::new(), base_path: path };
        proof {
            assert(r.chats() =~= Seq::<(u64, ChatV)>::empty());
        }
        r
    }

    /// Where the id's chat stands, if anywhere.
    fn find_chat(&self, chat_id: u64) -> (r: Option<usize>)
        requires
            self.wf(),
        ensures
            match r {
                Some(i) => i < self.chats().len() && self.chats()[i as int].0 == chat_id
                    && i as int == chat_idx(self.chats(), chat_id),
                None => !has_chat(self.chats(), chat_id),
            },
    {
        let n = self.chats.len();
        let mut i: usize = 0;
        while i < n
            invariant
                i <= n,
                n == self.chats@.len(),
                self.wf(),
                forall|t: int| 0 <= t < i ==> (#[trigger] self.chats()[t]).0 != chat_id,
            decreases n - i,
        {
            if self.chats[i].0 == chat_id {
                proof {
                    assert(self.chats()[i as int].0 == chat_id);
                    assert(has_chat(self.chats(), chat_id));
                    let j = chat_idx(self.chats(), chat_id);
                    if j != i as int {
                        assert(self.chats()[j].0 == chat_id);
                        assert(false);
                    }
                }
                return Some(i);
            }
            i += 1;
        }
        proof {
            if has_chat(self.chats(), chat_id) {
                let j = choose|j: int|
                    #![trigger self.chats()[j]]
                    0 <= j < self.chats().len() && self.chats()[j].0 == chat_id;
                assert(false);
            }
        }
        None
    }

    /// Puts one persisted chat back into the store, as the embedding
    /// program loads the role's directory.
    pub fn load_chat(&mut self, chat_id: u64, chat: Chat)
        requires
            old(self).wf(),
        ensures
            final(self).wf(),
            final(self).spec_base_path() == old(self).spec_base_path(),
            final(self).chats() == chats_insert(old(self).chats(), chat_id, chat@),
    {
        self.put_chat(chat_id, chat);
    }

    /// Puts `(chat_id, chat)` into the store, replacing any chat of the
    /// same id.
    fn put_chat(&mut self, chat_id: u64, chat: Chat)
        requires
            old(self).wf(),
        ensures
            final(self).wf(),
            final(self).spec_base_path() == old(self).spec_base_path(),
            final(self).chats() == chats_insert(old(self).chats(), chat_id, chat@),
    {
        let ghost s0 = self.chats();
        let ghost cv = chat@;
        match self.find_chat(chat_id) {
            Some(i) => {
                self.chats.set(i, (chat_id, chat));
                proof {
                    assert(self.chats() =~= s0.update(chat_idx(s0, chat_id), (chat_id, cv)));
                    assert forall|a: int, b: int|
                        0 <= a < b < self.chats().len() implies (#[trigger] self.chats()[a]).0 != (
                    #[trigger] self.chats()[b]).0 by {
                        assert(s0[a].0 != s0[b].0);
                    }
                }
            },
            None => {
                self.chats.push((chat_id, chat));
                proof {
                    assert(self.chats() =~= s0.push((chat_id, cv)));
                    assert forall|a: int, b: int|
                        0 <= a < b < self.chats().len() implies (#[trigger] self.chats()[a]).0 != (
                    #[trigger] self.chats()[b]).0 by {
                        if b == self.chats().len() - 1 {
                            assert(self.chats()[a] == s0[a]);
                            if s0[a].0 == chat_id {
                                assert(has_chat(s0, chat_id));
                            }
                        } else {
                            assert(s0[a].0 != s0[b].0);
                        }
                    }
                }
            },
        }
    }

    /// The role's own type, as a reply.
    pub fn handle_server_type_request(&self) -> (r: Response)
        ensures
            r@ == ResponseV::ServerType(ServerType::Communication),
    {
        Response::ServerType(ServerType::Communication)
    }

    /// Every chat's id and name, in store order.
    pub fn get_chats(&self) -> (r: Response)
        ensures
            r@ == ResponseV::Chats(chat_listing(self.chats())),
    {
        let n = self.chats.len();
        let mut listing: Vec<ChatResponse> = Vec::new();
        let mut i: usize = 0;
        while i < n
            invariant
                i <= n,
                n == self.chats@.len(),
                listing.deep_view() =~~= chat_listing(self.chats()).take(i as int),
            decreases n - i,
        {
            let entry = ChatResponse { id: self.chats[i].0, name: self.chats[i].1.name.clone() };
            let ghost pre = listing.deep_view();
            let ghost ev = entry@;
            listing.push(entry);
            proof {
                assert(listing.deep_view() =~= pre.push(ev));
                assert(listing.deep_view() =~~= chat_listing(self.chats()).take(i as int + 1));
            }
            i += 1;
        }
        proof {
            assert(chat_listing(self.chats()).take(n as int) =~~= chat_listing(self.chats()));
        }
        Response::Chats(listing)
    }

    /// Appends an entry to the chat, stamped with the given moment; an
    /// unknown chat id changes nothing.
    pub fn add_message_with_timestamp(
        &mut self,
        chat_id: u64,
        author: NodeId,
        message: String,
        timestamp: String,
    )
        requires
            old(self).wf(),
        ensures
            final(self).wf(),
            final(self).spec_base_path() == old(self).spec_base_path(),
            !has_chat(old(self).chats(), chat_id) ==> final(self).chats() == old(self).chats(),
            has_chat(old(self).chats(), chat_id) ==> final(self).chats() == old(
                self,
            ).chats().update(
                chat_idx(old(self).chats(), chat_id),
                (
                    chat_id,
                    ChatV {
                        name: old(self).chats()[chat_idx(old(self).chats(), chat_id)].1.name,
                        messages: old(self).chats()[chat_idx(
                            old(self).chats(),
                            chat_id,
                        )].1.messages.push(
                            ChatMessageV { author, message: message@, timestamp: timestamp@ },
                        ),
                    },
                ),
            ),
    {
        let ghost s0 = self.chats();
        let ghost pre_vec = self.chats@;
        match self.find_chat(chat_id) {
            Some(i) => {
                let mut entry = self.chats.remove(i);
                let ghost entry0 = entry;
                entry.1.messages.push(ChatMessage { author, message, timestamp });
                proof {
                    assert(entry0 == pre_vec[i as int]);
                    assert(entry.0 == entry0.0);
                    assert(entry.1.name == entry0.1.name);
                    assert(entry.1.messages@ == entry0.1.messages@.push(
                        ChatMessage { author, message, timestamp },
                    ));
                }
                let ghost entry1 = entry;
                self.chats.insert(i, entry);
                proof {
                    let j = chat_idx(s0, chat_id);
                    assert(self.chats@ =~= pre_vec.remove(j).insert(j, entry1));
                    assert(self.chats@ =~= pre_vec.update(j, entry1));
                    assert(entry1.1@.messages =~~= entry0.1@.messages.push(
                        ChatMessageV { author, message: message@, timestamp: timestamp@ },
                    ));
                    assert(self.chats() =~~= s0.update(
                        j,
                        (
                            chat_id,
                            ChatV {
                                name: s0[j].1.name,
                                messages: s0[j].1.messages.push(
                                    ChatMessageV {
                                        author,
                                        message: message@,
                                        timestamp: timestamp@,
                                    },
                                ),
                            },
                        ),
                    ));
                    assert forall|a: int, b: int|
                        0 <= a < b < self.chats().len() implies (#[trigger] self.chats()[a]).0 != (
                    #[trigger] self.chats()[b]).0 by {
                        assert(s0[a].0 != s0[b].0);
                    }
                }
            },
            None => {},
        }
    }

    /// Appends `{author, message, now}` to the chat, stamping the entry
    /// with the clock's RFC 3339 reading; an unknown chat id changes
    /// nothing.
    pub fn add_message_to_chat(&mut self, chat_id: u64, author: NodeId, message: String)
        requires
            old(self).wf(),
        ensures
            final(self).wf(),
            final(self).spec_base_path() == old(self).spec_base_path(),
            chat_appended(old(self).chats(), final(self).chats(), chat_id, author, message@),
    {
        let ghost m0 = message@;
        let timestamp = now_rfc3339();
        let ghost ts = timestamp@;
        self.add_message_with_timestamp(chat_id, author, message, timestamp);
        proof {
            if has_chat(old(self).chats(), chat_id) {
                assert(self.chats() == old(self).chats().update(
                    chat_idx(old(self).chats(), chat_id),
                    (
                        chat_id,
                        ChatV {
                            name: old(self).chats()[chat_idx(old(self).chats(), chat_id)].1.name,
                            messages: old(self).chats()[chat_idx(
                                old(self).chats(),
                                chat_id,
                            )].1.messages.push(
                                ChatMessageV { author, message: m0, timestamp: ts },
                            ),
                        },
                    ),
                ));
            }
        }
    }

    /// Opens a chat under the given id and answers with its listing
    /// entry; an existing chat of that id is replaced.
    pub fn create_chat_with_id(&mut self, chat_id: u64, name: String) -> (r: Response)
        requires
            old(self).wf(),
        ensures
            final(self).wf(),
            final(self).spec_base_path() == old(self).spec_base_path(),
            r@ == ResponseV::NewChat(ChatResponseV { id: chat_id, name: name@ }),
            final(self).chats() == chats_insert(
                old(self).chats(),
                chat_id,
                ChatV { name: name@, messages: Seq::empty() },
            ),
    {
        let response_name = name.clone();
        let chat = Chat { name, messages: Vec::new() };
        proof {
            assert(chat@.messages =~= Seq::<ChatMessageV>::empty());
        }
        self.put_chat(chat_id, chat);
        Response::NewChat(ChatResponse { id: chat_id, name: response_name })
    }

    /// Opens a chat under a fresh random id and answers with its listing
    /// entry.
    pub fn create_chat(&mut self, name: String) -> (r: Response)
        requires
            old(self).wf(),
        ensures
            final(self).wf(),
            final(self).spec_base_path() == old(self).spec_base_path(),
            r@ matches ResponseV::NewChat(c) && c.name == name@ && final(self).chats()
                == chats_insert(
                old(self).chats(),
                c.id,
                ChatV { name: name@, messages: Seq::empty() },
            ),
    {
        let id = random_u64();
        self.create_chat_with_id(id, name)
    }

    /// Forgets the chat and names the file whose deletion the embedding
    /// program owes, best effort.
    pub fn delete_chat(&mut self, chat_id: u64) -> (r: FsRequest)
        requires
            old(self).wf(),
        ensures
            final(self).wf(),
            final(self).spec_base_path() == old(self).spec_base_path(),
            final(self).chats() == chats_remove(old(self).chats(), chat_id),
            r@ == FsRequestV::DeleteFile(chat_path(old(self).spec_base_path(), chat_id)),
    {
        let ghost s0 = self.chats();
        let ghost pred = |p: (u64, ChatV)| p.0 != chat_id;
        match self.find_chat(chat_id) {
            Some(i) => {
                self.chats.remove(i);
                proof {
                    let j = i as int;
                    lemma_remove_unique_is_filter(s0, chat_id, j);
                    assert(self.chats() =~~= s0.remove(j));
                    assert forall|a: int, b: int|
                        0 <= a < b < self.chats().len() implies (#[trigger] self.chats()[a]).0 != (
                    #[trigger] self.chats()[b]).0 by {
                        let sa = if a < j {
                            a
                        } else {
                            a + 1
                        };
                        let sb = if b < j {
                            b
                        } else {
                            b + 1
                        };
                        assert(self.chats()[a] == s0[sa]);
                        assert(self.chats()[b] == s0[sb]);
                        assert(s0[sa].0 != s0[sb].0);
                    }
                }
            },
            None => {
                proof {
                    lemma_filter_no_match(s0, chat_id);
                }
            },
        }
        let mut path = self.base_path.clone();
        path.append("/");
        let id = u64_to_string(chat_id);
        path.append(id.as_str());
        proof {
            assert(path@ =~= chat_path(self.spec_base_path(), chat_id));
        }
        FsRequest::DeleteFile(path)
    }

    /// The chat's entries, oldest first; an unknown id answers with an
    /// empty listing.
    pub fn get_chat_messages(&self, chat_id: u64) -> (r: Response)
        requires
            self.wf(),
        ensures
            r@ == ResponseV::Messages(messages_of(self.chats(), chat_id)),
    {
        match self.find_chat(chat_id) {
            Some(i) => {
                let source = &self.chats[i].1.messages;
                let n = source.len();
                let mut out: Vec<ChatMessage> = Vec::new();
                let mut t: usize = 0;
                while t < n
                    invariant
                        t <= n,
                        n == source@.len(),
                        out.deep_view() =~~= source.deep_view().take(t as int),
                    decreases n - t,
                {
                    let entry = ChatMessage {
                        author: source[t].author,
                        message: source[t].message.clone(),
                        timestamp: source[t].timestamp.clone(),
                    };
                    let ghost pre = out.deep_view();
                    let ghost ev = entry@;
                    out.push(entry);
                    proof {
                        assert(out.deep_view() =~= pre.push(ev));
                        assert(out.deep_view() =~~= source.deep_view().take(t as int + 1));
                    }
                    t += 1;
                }
                proof {
                    assert(source.deep_view().take(n as int) =~~= source.deep_view());
                    assert(source.deep_view() =~~= messages_of(self.chats(), chat_id));
                }
                Response::Messages(out)
            },
            None => {
                let out: Vec<ChatMessage> = Vec::new();
                proof {
                    assert(out.deep_view() =~~= messages_of(self.chats(), chat_id));
                }
                Response::Messages(out)
            },
        }
    }

    /// The store, for the embedding program to persist at shutdown.
    pub fn stop(&self) -> (r: &Vec<(u64, Chat)>)
        ensures
            r@.len() == self.chats().len(),
            forall|i: int|
                0 <= i < r@.len() ==> ((#[trigger] r@[i]).0, r@[i].1@) == self.chats()[i],
    {
        &self.chats
    }

    /// One incoming message: chat requests are served from the store,
    /// file requests are not implemented here, and stray responses are
    /// dropped.
    #[verifier::rlimit(50)]
    pub fn handle_message(&mut self, peer_id: NodeId, message: Message) -> (r: RoleStep)
        requires
            old(self).wf(),
        ensures
            final(self).wf(),
            final(self).spec_base_path() == old(self).spec_base_path(),
            comm_handled(
                old(self).chats(),
                final(self).chats(),
                old(self).spec_base_path(),
                peer_id,
                message@,
                r@,
            ),
    {
        match message {
            Message::Request(rq) => match rq {
                Request::ServerType => {
                    let resp = self.handle_server_type_request();
                    proof {
                        assert(resp@ == ResponseV::ServerType(ServerType::Communication));
                    }
                    RoleStep::Reply(resp)
                },
                Request::GetChats => {
                    let resp = self.get_chats();
                    proof {
                        assert(resp@ == ResponseV::Chats(chat_listing(old(self).chats())));
                    }
                    RoleStep::Reply(resp)
                },
                Request::SendMessage(chat_id, text) => {
                    self.add_message_to_chat(chat_id, peer_id, text);
                    RoleStep::NoReply
                },
                Request::CreateChat(name) => {
                    let resp = self.create_chat(name);
                    RoleStep::Reply(resp)
                },
                Request::DeleteChat(chat_id) => {
                    let req = self.delete_chat(chat_id);
                    proof {
                        assert(req@ == FsRequestV::DeleteFile(
                            chat_path(old(self).spec_base_path(), chat_id),
                        ));
                        assert(self.chats() == chats_remove(old(self).chats(), chat_id));
                    }
                    RoleStep::Fs(req)
                },
                Request::GetMessages(chat_id) => {
                    let resp = self.get_chat_messages(chat_id);
                    proof {
                        assert(resp@ == ResponseV::Messages(messages_of(old(self).chats(), chat_id)));
                    }
                    RoleStep::Reply(resp)
                },
                _ => RoleStep::Reply(Response::NotImplemented),
            },
            Message::Response(_) => RoleStep::NoReply,
        }
    }
}

/// Removing the one entry that carries `id` from a store of unique ids
/// is the same as filtering that id out.
proof fn lemma_remove_unique_is_filter(s: Seq<(u64, ChatV)>, id: u64, j: int)
    requires
        unique_ids(s),
        0 <= j < s.len(),
        s[j].0 == id,
    ensures
        s.remove(j) == chats_remove(s, id),
    decreases s.len(),
{
    reveal(Seq::filter);
    if j == s.len() - 1 {
        assert(s.remove(j) =~= s.drop_last());
        assert(s.last().0 == id);
        assert forall|i: int| 0 <= i < s.drop_last().len() implies (#[trigger] s.drop_last()[i]).0
            != id by {
            assert(s[i].0 != s[s.len() - 1].0);
        }
        lemma_filter_no_match_prefix(s.drop_last(), id);
    } else {
        assert(s.drop_last()[j].0 == id);
        assert(unique_ids(s.drop_last()));
        lemma_remove_unique_is_filter(s.drop_last(), id, j);
        assert(s[j].0 != s[s.len() - 1].0);
        assert(s.last().0 != id);
        assert(s.remove(j) =~= s.drop_last().remove(j).push(s.last()));
    }
}

/// Filtering an id out of a store that never carries it changes nothing.
proof fn lemma_filter_no_match_prefix(s: Seq<(u64, ChatV)>, id: u64)
    requires
        forall|i: int| 0 <= i < s.len() ==> (#[trigger] s[i]).0 != id,
    ensures
        chats_remove(s, id) == s,
    decreases s.len(),
{
    reveal(Seq::filter);
    if s.len() > 0 {
        lemma_filter_no_match_prefix(s.drop_last(), id);
        assert(s.last().0 != id);
        assert(s.drop_last().push(s.last()) =~= s);
    }
}

/// A store without the id is untouched by removing it.
proof fn lemma_filter_no_match(s: Seq<(u64, ChatV)>, id: u64)
    requires
        !has_chat(s, id),
    ensures
        chats_remove(s, id) == s,
{
    assert forall|i: int| 0 <= i < s.len() implies (#[trigger] s[i]).0 != id by {
        if s[i].0 == id {
            assert(has_chat(s, id));
        }
    }
    lemma_filter_no_match_prefix(s, id);
}

} // verus!
