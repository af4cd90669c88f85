//! Envelopes of the node protocol and the replies a node owes to them.
use vstd::prelude::*;

verus! {

/// Whether `c` is a lowercase hexadecimal digit.
pub open spec fn is_lower_hex(c: char) -> bool {
    ('0' <= c && c <= '9') || ('a' <= c && c <= 'f')
}

/// The textual shape of a random (version 4) identifier in hyphenated form:
/// 36 characters, hyphens at 8, 13, 18 and 23, lowercase hex digits
/// elsewhere, and the version digit `4` at 14.
pub open spec fn is_hyphenated_id(s: Seq<char>) -> bool {
    &&& s.len() == 36
    &&& forall|i: int|
        0 <= i < 36 ==> if i == 8 || i == 13 || i == 18 || i == 23 {
            s[i] == '-'
        } else {
            is_lower_hex(#[trigger] s[i])
        }
    &&& s[14] == '4'
}

/// Relies on `uuid::Uuid::new_v4` and its `Display` impl: a fresh random
/// identifier, written as 36 lowercase characters in hyphenated form with
/// the version digit 4.
#[verifier::external_body]
fn fresh_id() -> (r: String)
    ensures
        is_hyphenated_id(r@),
{
    uuid::Uuid::new_v4().to_string()
}

/// One line of the protocol: who sent it, to whom, and what it says.
#[derive(Clone, Debug)]
pub struct Message {
    pub src: String,
    pub dest: String,
    pub body: Body,
}

/// The message kinds of the identifier service.
#[derive(Clone, Debug)]
pub enum Body {
    Init { msg_id: u64, node_id: String, node_ids: Vec<String> },
    InitOk { in_reply_to: u64 },
    Generate { msg_id: u64 },
    GenerateOk { msg_id: u64, in_reply_to: u64, id: String },
    Error { in_reply_to: u64, code: u64, text: String },
}

impl Body {
    /// Whether a node answers this kind of message (the requests), as
    /// opposed to reporting it (replies and errors).
    pub open spec fn is_request(self) -> bool {
        self is Init || self is Generate
    }
}

impl Message {
    /// The reply owed to `self` when `id` is the identifier handed out.
    pub open spec fn reply_spec(self, id: String) -> Option<Message> {
        match self.body {
            Body::Init { msg_id, .. } => Some(
                Message { src: self.dest, dest: self.src, body: Body::InitOk { in_reply_to: msg_id } },
            ),
            Body::Generate { msg_id } => Some(
                Message {
                    src: self.dest,
                    dest: self.src,
                    body: Body::GenerateOk { msg_id, in_reply_to: msg_id, id },
                },
            ),
            _ => None,
        }
    }

    /// The reply to a request, addressed back to its sender, with `id` as the
    /// generated identifier; `None` for replies and errors, which are only
    /// reported.
    pub fn reply(&self, id: String) -> (r: Option<Message>)
        ensures
            r == self.reply_spec(id),
            r is Some <==> self.body.is_request(),
    {
        match &self.body {
            Body::Init { msg_id, .. } => Some(
                Message {
                    src: self.dest.clone(),
                    dest: self.src.clone(),
                    body: Body::InitOk { in_reply_to: *msg_id },
                },
            ),
            Body::Generate { msg_id } => Some(
                Message {
                    src: self.dest.clone(),
                    dest: self.src.clone(),
                    body: Body::GenerateOk { msg_id: *msg_id, in_reply_to: *msg_id, id },
                },
            ),
            _ => None,
        }
    }

    /// The reply to a request, with a freshly drawn random identifier for a
    /// `generate` request.
    pub fn respond(&self) -> (r: Option<Message>)
        ensures
            exists|id: String| is_hyphenated_id(id@) && r == self.reply_spec(id),
            r is Some <==> self.body.is_request(),
    {
        if let Body::Generate { .. } = &self.body {
            self.reply(fresh_id())
        } else {
            proof {
                reveal_strlit("00000000-0000-4000-8000-000000000000");
            }
            // Only a `generate` reply carries the identifier.
            let unused = String::from_str("00000000-0000-4000-8000-000000000000");
            assert(is_hyphenated_id(unused@));
            self.reply(unused)
        }
    }
}

} // verus!
