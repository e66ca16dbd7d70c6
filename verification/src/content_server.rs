//! The content role: a public file store plus one private store per
//! peer, kept under the node's own directory.
//!
//! The role itself only decides: it builds paths, refuses any name that
//! could climb out of its directory, and hands the actual reads and
//! writes to the embedding program as [`FsRequest`] actions.

use vstd::prelude::*;
use vstd::string::{StrSliceExecFns, StringExecFns};
use crate::message::{Message, MessageV, Request, RequestV, Response, ResponseV, ServerType};
use crate::packet::NodeId;
use crate::role::{FsOutcome, FsOutcomeV, FsRequest, FsRequestV, RoleStep, RoleStepV};
use crate::utils::{dec_str, u8_to_string};

verus! {

/// The name holds two dots in a row and could climb out of the store.
pub open spec fn has_dotdot(s: Seq<char>) -> bool {
    exists|i: int| #![trigger s[i]] 0 <= i && i + 1 < s.len() && s[i] == '.' && s[i + 1] == '.'
}

/// Path `a`, then a separator, then `b`.
pub open spec fn joined(a: Seq<char>, b: Seq<char>) -> Seq<char> {
    a + "/"@ + b
}

/// The public store of a content directory.
pub open spec fn public_dir_of(base: Seq<char>) -> Seq<char> {
    joined(base, "public"@)
}

/// The private store a peer owns in a content directory.
pub open spec fn private_dir_of(base: Seq<char>, peer_id: NodeId) -> Seq<char> {
    joined(base, dec_str(peer_id as nat))
}

/// What the content role decides for one incoming message.
pub open spec fn content_step(base: Seq<char>, peer_id: NodeId, m: MessageV) -> RoleStepV {
    match m {
        MessageV::Request(rq) => match rq {
            RequestV::ServerType => RoleStepV::Reply(ResponseV::ServerType(ServerType::Content)),
            RequestV::ListPublicFiles => RoleStepV::Fs(FsRequestV::ListDir(public_dir_of(base))),
            RequestV::ListPrivateFiles => RoleStepV::Fs(
                FsRequestV::ListDir(private_dir_of(base, peer_id)),
            ),
            RequestV::GetPublicFile(name) => {
                if has_dotdot(name) {
                    RoleStepV::Reply(ResponseV::NoSuchFile)
                } else {
                    RoleStepV::Fs(FsRequestV::ReadFile(joined(public_dir_of(base), name)))
                }
            },
            RequestV::GetPrivateFile(name) => {
                if has_dotdot(name) {
                    RoleStepV::Reply(ResponseV::NoSuchFile)
                } else {
                    RoleStepV::Fs(
                        FsRequestV::ReadFile(joined(private_dir_of(base, peer_id), name)),
                    )
                }
            },
            RequestV::WritePublicFile(name, data) => {
                if has_dotdot(name) {
                    RoleStepV::NoReply
                } else {
                    RoleStepV::Fs(FsRequestV::WriteFile(joined(public_dir_of(base), name), data))
                }
            },
            RequestV::WritePrivateFile(name, data) => {
                if has_dotdot(name) {
                    RoleStepV::NoReply
                } else {
                    RoleStepV::Fs(
                        FsRequestV::WriteFile(joined(private_dir_of(base, peer_id), name), data),
                    )
                }
            },
            _ => RoleStepV::Reply(ResponseV::NotImplemented),
        },
        MessageV::Response(_) => RoleStepV::NoReply,
    }
}

/// What the content role replies once a filesystem action came back.
pub open spec fn content_fs_reply(outcome: FsOutcomeV) -> Option<ResponseV> {
    match outcome {
        FsOutcomeV::ReadOk(data) => Some(ResponseV::File(data)),
        FsOutcomeV::ReadFailed => Some(ResponseV::NoSuchFile),
        FsOutcomeV::Listing(names) => Some(ResponseV::Files(names)),
        FsOutcomeV::ListFailed => Some(ResponseV::Files(Seq::empty())),
        FsOutcomeV::Done => None,
    }
}

/// The content role: it owns a directory and nothing else.
pub struct ContentServer {
    base_path: String,
}

impl ContentServer {
    /// The node's content directory.
    pub closed spec fn spec_base_path(&self) -> Seq<char> {
        self.base_path@
    }

    /// A content role rooted at `base_path/<node_id>/content`.  The
    /// embedding program creates missing directories on demand.
    pub fn new(node_id: NodeId, base_path: String) -> (r: Self)
        ensures
            r.spec_base_path() == joined(joined(base_path@, dec_str(node_id as nat)), "content"@),
    {
        let ghost b0 = base_path@;
        let mut path = base_path;
        path.append("/");
        let id = u8_to_string(node_id);
        path.append(id.as_str());
        path.append("/");
        path.append("content");
        proof {
            assert(path@ =~= joined(joined(b0, dec_str(node_id as nat)), "content"@));
        }
        ContentServer { base_path: path }
    }

    /// The public store's directory.
    pub fn get_public_dir(&self) -> (r: String)
        ensures
            r@ == public_dir_of(self.spec_base_path()),
    {
        let mut path = self.base_path.clone();
        path.append("/");
        path.append("public");
        proof {
            assert(path@ =~= public_dir_of(self.spec_base_path()));
        }
        path
    }

    /// The private store of `peer_id`.
    pub fn get_private_dir(&self, peer_id: NodeId) -> (r: String)
        ensures
            r@ == private_dir_of(self.spec_base_path(), peer_id),
    {
        let mut path = self.base_path.clone();
        path.append("/");
        let id = u8_to_string(peer_id);
        path.append(id.as_str());
        proof {
            assert(path@ =~= private_dir_of(self.spec_base_path(), peer_id));
        }
        path
    }

    /// Whether the name holds two dots in a row.
    fn contains_dotdot(name: &str) -> (r: bool)
        ensures
            r == has_dotdot(name@),
    {
        let n = name.unicode_len();
        if n < 2 {
            proof {
                if has_dotdot(name@) {
                    let i = choose|i: int|
                        #![trigger name@[i]]
                        0 <= i && i + 1 < name@.len() && name@[i] == '.' && name@[i + 1] == '.';
                    assert(false);
                }
            }
            return false;
        }
        let mut i: usize = 0;
        let mut found = false;
        while i + 1 < n
            invariant
                n == name@.len(),
                i + 1 <= n,
                found <==> exists|t: int|
                    #![trigger name@[t]]
                    0 <= t && t + 1 <= i && name@[t] == '.' && name@[t + 1] == '.',
            decreases n - i,
        {
            if name.get_char(i) == '.' && name.get_char(i + 1) == '.' {
                found = true;
                proof {
                    assert(name@[i as int] == '.' && name@[i as int + 1] == '.');
                }
            }
            i += 1;
        }
        proof {
            if found {
                assert(has_dotdot(name@)) by {
                    let t = choose|t: int|
                        #![trigger name@[t]]
                        0 <= t && t + 1 <= i && name@[t] == '.' && name@[t + 1] == '.';
                    assert(t + 1 < name@.len());
                }
            }
            if has_dotdot(name@) {
                let t = choose|t: int|
                    #![trigger name@[t]]
                    0 <= t && t + 1 < name@.len() && name@[t] == '.' && name@[t + 1] == '.';
                assert(t + 1 <= i);
            }
        }
        found
    }

    /// Joins a directory and a file name.
    fn join_path(dir: String, name: &str) -> (r: String)
        ensures
            r@ == joined(dir@, name@),
    {
        let ghost d0 = dir@;
        let mut path = dir;
        path.append("/");
        path.append(name);
        proof {
            assert(path@ =~= joined(d0, name@));
        }
        path
    }

    /// The read this role would answer a public-file request with.
    pub fn get_public_file(&self, file_name: &str) -> (r: RoleStep)
        ensures
            r@ == content_step(
                self.spec_base_path(),
                0,
                MessageV::Request(RequestV::GetPublicFile(file_name@)),
            ),
    {
        if Self::contains_dotdot(file_name) {
            RoleStep::Reply(Response::NoSuchFile)
        } else {
            RoleStep::Fs(FsRequest::ReadFile(Self::join_path(self.get_public_dir(), file_name)))
        }
    }

    /// The write this role would perform for a public-file request; a
    /// climbing name is refused without any filesystem action.
    pub fn write_public_file(&self, file_name: &str, data: &str) -> (r: RoleStep)
        ensures
            r@ == content_step(
                self.spec_base_path(),
                0,
                MessageV::Request(RequestV::WritePublicFile(file_name@, data@)),
            ),
    {
        if Self::contains_dotdot(file_name) {
            RoleStep::NoReply
        } else {
            RoleStep::Fs(
                FsRequest::WriteFile(
                    Self::join_path(self.get_public_dir(), file_name),
                    data.to_owned(),
                ),
            )
        }
    }

    /// One incoming message: decide the reply or the filesystem action.
    pub fn handle_message(&mut self, peer_id: NodeId, message: Message) -> (r: RoleStep)
        ensures
            final(self).spec_base_path() == old(self).spec_base_path(),
            r@ == content_step(old(self).spec_base_path(), peer_id, message@),
    {
        match message {
            Message::Request(rq) => match rq {
                Request::ServerType => RoleStep::Reply(
                    Response::ServerType(ServerType::Content),
                ),
                Request::ListPublicFiles => RoleStep::Fs(FsRequest::ListDir(self.get_public_dir())),
                Request::ListPrivateFiles => RoleStep::Fs(
                    FsRequest::ListDir(self.get_private_dir(peer_id)),
                ),
                Request::GetPublicFile(name) => self.get_public_file(name.as_str()),
                Request::GetPrivateFile(name) => {
                    if Self::contains_dotdot(name.as_str()) {
                        RoleStep::Reply(Response::NoSuchFile)
                    } else {
                        RoleStep::Fs(
                            FsRequest::ReadFile(
                                Self::join_path(self.get_private_dir(peer_id), name.as_str()),
                            ),
                        )
                    }
                },
                Request::WritePublicFile(name, data) => {
                    if Self::contains_dotdot(name.as_str()) {
                        RoleStep::NoReply
                    } else {
                        RoleStep::Fs(
                            FsRequest::WriteFile(
                                Self::join_path(self.get_public_dir(), name.as_str()),
                                data,
                            ),
                        )
                    }
                },
                Request::WritePrivateFile(name, data) => {
                    if Self::contains_dotdot(name.as_str()) {
                        RoleStep::NoReply
                    } else {
                        RoleStep::Fs(
                            FsRequest::WriteFile(
                                Self::join_path(self.get_private_dir(peer_id), name.as_str()),
                                data,
                            ),
                        )
                    }
                },
                _ => RoleStep::Reply(Response::NotImplemented),
            },
            Message::Response(_) => RoleStep::NoReply,
        }
    }

    /// Turns the outcome of a filesystem action into the reply owed.
    pub fn fs_response(outcome: FsOutcome) -> (r: Option<Response>)
        ensures
            match r {
                Some(resp) => content_fs_reply(outcome@) == Some(resp@),
                None => content_fs_reply(outcome@) is None,
            },
    {
        match outcome {
            FsOutcome::ReadOk(data) => Some(Response::File(data)),
            FsOutcome::ReadFailed => Some(Response::NoSuchFile),
            FsOutcome::Listing(names) => Some(Response::Files(names)),
            FsOutcome::ListFailed => {
                let names: Vec<String> = Vec::new();
                proof {
                    assert(names.deep_view() =~= Seq::<Seq<char>>::empty());
                }
                Some(Response::Files(names))
            },
            FsOutcome::Done => None,
        }
    }
}

} // verus!
