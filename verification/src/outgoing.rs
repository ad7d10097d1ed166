//! What the library decides about the replies of the local model and vector services.
//! The requests themselves are made by the program around the library.
use crate::text::{
    chars_of, eq_ignore_case, lemma_trim_start_len, same_ignoring_ascii_case, same_text,
    slice_to_vec, string_of, trim, trimmed,
};
use vstd::prelude::*;

verus! {

/// The local chat model.
pub const MODEL: &'static str = "qwen3:4b";

/// A call to a local service failed or answered something unusable.
#[derive(Debug, Clone, Copy, PartialEq, Eq, Structural)]
pub struct UpstreamError;

/// The first position at which `p` occurs in `s` up to ASCII case.
pub open spec fn fold_find(s: Seq<char>, p: Seq<char>) -> Option<int>
    decreases s.len(),
{
    if s.len() < p.len() {
        None
    } else if same_ignoring_ascii_case(s.take(p.len() as int), p) {
        Some(0)
    } else {
        match fold_find(s.drop_first(), p) {
            Some(i) => Some(i + 1),
            None => None,
        }
    }
}

/// The answer of the model: the text after the first `</think>` (in any ASCII case),
/// or the whole text when there is none, trimmed; `None` when nothing is left.
pub open spec fn spec_chat_content(raw: Seq<char>) -> Option<Seq<char>> {
    let clean = match fold_find(raw, "</think>"@) {
        Some(i) => raw.skip(i + "</think>"@.len()),
        None => raw,
    };
    if trim(clean).len() == 0 {
        None
    } else {
        Some(trim(clean))
    }
}

fn fold_find_exec(s: &[char], p: &[char]) -> (r: Option<usize>)
    ensures
        match r {
            Some(i) => fold_find(s@, p@) == Some(i as int) && i + p@.len() <= s@.len(),
            None => fold_find(s@, p@) is None,
        },
{
    if p.len() > s.len() {
        return None;
    }
    let last = s.len() - p.len();
    let mut i: usize = 0;
    assert(s@.skip(0) == s@);
    while i <= last
        invariant
            last + p@.len() == s@.len(),
            i <= last + 1,
            fold_find(s@, p@) == match fold_find(s@.skip(i as int), p@) {
                Some(k) => Some(k + i),
                None => None,
            },
        decreases last + 1 - i,
    {
        let ghost rest = s@.skip(i as int);
        assert(i + p.len() <= s.len());
        assert(rest.take(p@.len() as int) =~= s@.subrange(i as int, i + p@.len()));
        if eq_ignore_case(&slice_to_vec(s, i, i + p.len()), p) {
            return Some(i);
        }
        assert(rest.drop_first() =~= s@.skip(i + 1));
        if i == last {
            assert(s@.skip(i + 1).len() < p@.len());
            return None;
        }
        i = i + 1;
    }
    None
}

/// The answer text of a chat reply, given the reply's `message.content` if it is a
/// string.
pub fn chat_content(content: Option<&str>) -> (r: Result<String, UpstreamError>)
    ensures
        match content {
            None => r == Err::<String, UpstreamError>(UpstreamError),
            Some(raw) => match spec_chat_content(raw@) {
                Some(t) => r matches Ok(s) && s@ == t,
                None => r == Err::<String, UpstreamError>(UpstreamError),
            },
        },
{
    let raw = match content {
        Some(c) => chars_of(c),
        None => return Err(UpstreamError),
    };
    let marker = chars_of("</think>");
    let clean = match fold_find_exec(&raw, &marker) {
        Some(i) => slice_to_vec(&raw, i + marker.len(), raw.len()),
        None => raw,
    };
    let t = trimmed(&clean);
    if t.len() == 0 {
        return Err(UpstreamError);
    }
    Ok(string_of(&t))
}

/// What becomes of a service's reply.
#[derive(Debug, Clone, Copy, PartialEq, Eq, Structural)]
pub enum ReplyUse {
    /// Deleting the vector collection found it already absent: success.
    AlreadyAbsent,
    /// Read the body as JSON.
    ReadBody,
    /// The reply is refused.
    Refused,
}

/// A reply is used only with a success status and no content coding; the one
/// accepted failure is a 404 to the deletion of the fixed vector collection.
pub open spec fn spec_reply_use(status: u16, method: Seq<char>, path: Seq<char>, encoded: bool) -> ReplyUse {
    if status == 404 && method == "DELETE"@ && path == "/collections/lab_semantic_documents"@ {
        ReplyUse::AlreadyAbsent
    } else if !(200 <= status <= 299) || encoded {
        ReplyUse::Refused
    } else {
        ReplyUse::ReadBody
    }
}

/// Decides on a reply from its status, the request's method and path, and whether
/// the reply carries a `Content-Encoding` header.
pub fn reply_use(status: u16, method: &str, path: &str, encoded: bool) -> (r: ReplyUse)
    ensures
        r == spec_reply_use(status, method@, path@, encoded),
{
    if status == 404 && same_text(method, "DELETE") && same_text(
        path,
        "/collections/lab_semantic_documents",
    ) {
        ReplyUse::AlreadyAbsent
    } else if !(200 <= status && status <= 299) || encoded {
        ReplyUse::Refused
    } else {
        ReplyUse::ReadBody
    }
}

} // verus!
