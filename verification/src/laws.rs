//! Properties that hold across the library's operations, stated over the calls
//! that the use cases make to the session verifier, the audit journal and the
//! document reader.
use crate::application::{
    access_protocol, candidates, chat_protocol, chat_view, opt_text, read_docs, read_protocol,
    records, reads, retrieval_calls, retrieval_outcome, retrieval_reads, retrieve_protocol,
    session_calls, session_stage, source_ids, spec_allowed, Call, Document, Failure, Passage,
    PreparedChat, Route, passages_result, context_intro, source_block, spec_context, Application, Audit, AuditDecision, Reader, Sessions,
};
use crate::policy::{
    find_identity, find_resource, texts, Directory, IdentityDefinition, Policy, Resource,
    VerifiedIdentity,
};
use crate::sessions::{
    cookie_pair, first_index, is_tchar, issue_protocol, lemma_pairs_fold_none, unquote,
    pairs_fold, spec_cookie_token, verify_protocol, Claims,
};
use crate::transport::{
    fields, json_body, spec_admission, spec_limit, spec_one_header, spec_route, Admission, Endpoint,
    Reply, RequestHead,
};
use crate::indexing::{lemma_chunks_keep_text, runs_of, lemma_nonblank_chunks, lemma_sentence_parts_words, sentence_parts, spec_chunks, MAX_CHUNK};
use crate::text::{safe_segment, segments, spec_safe_relative, blank, is_ws, lemma_letters_concat, lemma_letters_join, lemma_letters_split_ws, has_prefix, has_suffix, spec_valid_id, join, lemma_split_len, trim_start, lemma_solid_trim, letters, letters_of, split_ws, words_of, lines, lines_acc, split_char, strip_cr, trim};
use crate::tooling::{contains_text, spec_source_hash};
use crate::page::{spec_step, PageEvent, PageView, RequestView};
use crate::display::spec_document_id_acceptable;
use crate::retrieval::{spec_excerpt, best_first, first_n, insert_ranked, lemma_rank, rank, score_first, spec_tokens, Ranked};
use vstd::prelude::*;

verus! {

/// The identity that the session stage of `trace` verified, if it verified one.
pub open spec fn verified(trace: Seq<Call>) -> Option<VerifiedIdentity> {
    if trace.len() == 0 {
        None
    } else {
        match trace[0] {
            Call::Verify(_, Ok(v)) => Some(v),
            _ => None,
        }
    }
}

/// `c` is a call to the document reader.
pub open spec fn is_read(c: Call) -> bool {
    c is Read
}

/// No call of `trace` reads a document.
pub open spec fn no_read(trace: Seq<Call>) -> bool {
    forall|i: int| 0 <= i < trace.len() ==> !is_read(#[trigger] trace[i])
}

/// Every decision journaled in `trace` names either no identity or the identity that
/// the session stage verified.
pub open spec fn attributes_only_verified(trace: Seq<Call>) -> bool {
    forall|i: int|
        0 <= i < trace.len() ==> (#[trigger] trace[i] matches Call::Record(d, _) ==> match opt_text(
            d.identity_id,
        ) {
            None => true,
            Some(x) => verified(trace) matches Some(v) && x == v.spec_id(),
        })
}

proof fn lemma_session_stage(token: Option<Seq<char>>, route: Route, trace: Seq<Call>)
    requires
        session_calls(token, route, trace),
    ensures
        ({
            let (n, s) = session_stage(token, route, trace);
            &&& 1 <= n <= trace.len()
            &&& forall|i: int| 0 <= i < n ==> !is_read(#[trigger] trace[i])
            &&& forall|i: int|
                0 <= i < n ==> (#[trigger] trace[i] matches Call::Record(d, _) ==> opt_text(
                    d.identity_id,
                ) is None && opt_text(d.resource_id) is None && !d.allowed)
            &&& match s {
                Ok(v) => verified(trace) == Some(v) && n == 1,
                Err(f) => verified(trace) is None && f == Failure::Session,
            }
        }),
{
}

/// A document is read only for a verified identity that the policy lets read it, and
/// only after the allowed decision on that resource was written to the journal; a
/// read attempt whose outcome is not `Document` reads nothing. Every journaled
/// decision names no identity or the verified one.
pub proof fn law_read_only_after_granted_audit(
    policy: Policy,
    token: Option<Seq<char>>,
    id: Seq<char>,
    trace: Seq<Call>,
    r: Result<Document, Failure>,
)
    requires
        read_protocol(policy, token, id, trace, r),
    ensures
        forall|i: int|
            0 <= i < trace.len() && #[trigger] is_read(trace[i]) ==> {
                &&& i == trace.len() - 1
                &&& i >= 2
                &&& verified(trace) matches Some(v)
                &&& find_resource(policy.resources@, id) matches Some(x)
                &&& trace[i] matches Call::Read(y, _)
                &&& y == x
                &&& policy.spec_permits(v.spec_groups(), x)
                &&& trace[i - 1] matches Call::Record(d, res)
                &&& res is Ok
                &&& d.route == Route::Document
                &&& d.allowed
                &&& opt_text(d.identity_id) == Some(v.spec_id())
                &&& opt_text(d.resource_id) == Some(id)
            },
        (r is Err && r != Err::<Document, Failure>(Failure::Document)) ==> no_read(trace),
        attributes_only_verified(trace),
{
    lemma_session_stage(token, Route::Document, trace);
    let (n, s) = session_stage(token, Route::Document, trace);
    match s {
        Err(f) => {},
        Ok(identity) => {
            let rest = trace.skip(n);
            assert forall|i: int| n <= i < trace.len() implies trace[i] == rest[i - n] by {}
        },
    }
}

/// `c` is the journal's acceptance of the decision that grants the identity verified in
/// `trace` the resource `id` on the document route.
pub open spec fn accepted_grant<S: Sessions, R: Reader, A: Audit>(
    app: &Application<S, R, A>,
    c: Call,
    id: Seq<char>,
    trace: Seq<Call>,
) -> bool {
    &&& c matches Call::Record(d, a)
    &&& a is Ok
    &&& app.audit.record_answer(d, a)
    &&& d.route == Route::Document
    &&& d.allowed
    &&& opt_text(d.resource_id) == Some(id)
    &&& verified(trace) matches Some(v)
    &&& opt_text(d.identity_id) == Some(v.spec_id())
}

/// `read` was given document `doc` by the reader for the resource named `id`.
pub open spec fn reader_gave<S: Sessions, R: Reader, A: Audit>(
    app: &Application<S, R, A>,
    id: Seq<char>,
    doc: Document,
) -> bool {
    &&& find_resource(app.policy.resources@, id) matches Some(x)
    &&& app.reader.read_answer(x, Ok::<Document, Failure>(doc))
}

/// A document that `read` gives is the reader's answer for the resource named, and
/// the journal accepted, just before the read, the decision that grants the verified
/// identity that resource on the document route.
pub proof fn law_read_gives_reader_answer<S: Sessions, R: Reader, A: Audit>(
    app: &Application<S, R, A>,
    token: Option<Seq<char>>,
    id: Seq<char>,
    trace: Seq<Call>,
    doc: Document,
)
    requires
        app.all_answered(trace),
        read_protocol(*app.policy, token, id, trace, Ok::<Document, Failure>(doc)),
    ensures
        reader_gave(app, id, doc),
        trace.len() >= 2,
        accepted_grant(app, trace[trace.len() - 2], id, trace),
{
    law_read_only_after_granted_audit(app.spec_policy(), token, id, trace, Ok::<Document, Failure>(doc));
    lemma_session_stage(token, Route::Document, trace);
    let (n, s) = session_stage(token, Route::Document, trace);
    let last = trace.len() - 1;
    let rest = trace.skip(n);
    assert(trace[last] == rest[rest.len() - 1]);
    assert(is_read(trace[last]));
    assert(app.answered(trace[last]));
    assert(app.answered(trace[last - 1]));
}

/// Deciding an access never reads a document, and every journaled decision names no
/// identity or the verified one; a granted access was journaled as allowed first.
pub proof fn law_access_never_reads(
    policy: Policy,
    token: Option<Seq<char>>,
    id: Seq<char>,
    trace: Seq<Call>,
    r: Result<(), Failure>,
)
    requires
        access_protocol(policy, token, id, trace, r),
    ensures
        no_read(trace),
        attributes_only_verified(trace),
        r is Ok ==> {
            &&& verified(trace) matches Some(v)
            &&& spec_allowed(policy, v, id)
            &&& trace.last() matches Call::Record(d, res)
            &&& res is Ok
            &&& d.allowed
        },
{
    lemma_session_stage(token, Route::Access, trace);
    let (n, s) = session_stage(token, Route::Access, trace);
    match s {
        Err(f) => {},
        Ok(identity) => {
            let rest = trace.skip(n);
            assert forall|i: int| n <= i < trace.len() implies trace[i] == rest[i - n] by {}
        },
    }
}

/// A resource of the policy, with this identifier and classification, that the
/// identity may read.
pub open spec fn permitted_source(
    policy: Policy,
    v: VerifiedIdentity,
    id: Seq<char>,
    classification: Seq<char>,
) -> bool {
    exists|k: int|
        0 <= k < policy.resources@.len() && (#[trigger] policy.resources@[k]).id@ == id
            && policy.resources@[k].classification@ == classification && policy.spec_permits(
            v.spec_groups(),
            policy.resources@[k],
        )
}

/// Some resource of the policy with this identifier may be read by the identity.
pub open spec fn permitted_id(policy: Policy, v: VerifiedIdentity, id: Seq<char>) -> bool {
    exists|k: int|
        0 <= k < policy.resources@.len() && (#[trigger] policy.resources@[k]).id@ == id
            && policy.spec_permits(v.spec_groups(), policy.resources@[k])
}

/// `x` is one of the policy's resources that the identity may read.
pub open spec fn permitted_resource(policy: Policy, v: VerifiedIdentity, x: Resource) -> bool {
    (exists|k: int| 0 <= k < policy.resources@.len() && #[trigger] policy.resources@[k] == x)
        && policy.spec_permits(v.spec_groups(), x)
}

proof fn lemma_permitted(policy: Policy, groups: Seq<String>, rs: Seq<Resource>)
    ensures
        forall|k: int|
            0 <= k < policy.permitted(groups, rs).len() ==> (exists|j: int|
                0 <= j < rs.len() && rs[j] == #[trigger] policy.permitted(groups, rs)[k])
                && policy.spec_permits(groups, policy.permitted(groups, rs)[k]),
    decreases rs.len(),
{
    if rs.len() > 0 {
        let p = rs.drop_last();
        lemma_permitted(policy, groups, p);
        let q = policy.permitted(groups, rs);
        assert forall|k: int| 0 <= k < q.len() implies (exists|j: int|
            0 <= j < rs.len() && rs[j] == #[trigger] q[k]) && policy.spec_permits(groups, q[k]) by {
            if k < policy.permitted(groups, p).len() {
                let j = choose|j: int| 0 <= j < p.len() && p[j] == policy.permitted(groups, p)[k];
                assert(rs[j] == q[k]);
            } else {
                assert(rs[rs.len() - 1] == q[k]);
            }
        }
    }
}

/// `c` is the passage of the `k`-th resource of `rs`.
pub open spec fn passage_of(c: (Seq<char>, Seq<char>, Seq<char>), rs: Seq<Resource>, n: int) -> bool {
    exists|k: int| 0 <= k < n && #[trigger] rs[k].id@ == c.0 && rs[k].classification@ == c.1
}

proof fn lemma_candidates(toks: Set<Seq<char>>, rs: Seq<Resource>, docs: Seq<Document>)
    ensures
        forall|i: int|
            0 <= i < candidates(toks, rs, docs).len() ==> passage_of(
                (#[trigger] candidates(toks, rs, docs)[i]).1,
                rs,
                docs.len() as int,
            ),
    decreases docs.len(),
{
    if docs.len() > 0 {
        lemma_candidates(toks, rs, docs.drop_last());
        let prev = candidates(toks, rs, docs.drop_last());
        let c = candidates(toks, rs, docs);
        assert forall|i: int| 0 <= i < c.len() implies passage_of(
            (#[trigger] c[i]).1,
            rs,
            docs.len() as int,
        ) by {
            if i < prev.len() {
                assert(c[i] == prev[i]);
                let k = choose|k: int|
                    0 <= k < docs.len() - 1 && #[trigger] rs[k].id@ == prev[i].1.0
                        && rs[k].classification@ == prev[i].1.1;
            } else {
                let k = docs.len() - 1;
                assert(rs[k].id@ == c[i].1.0);
            }
        }
    }
}

proof fn lemma_insert_ranked_members(s: Seq<Ranked>, x: Ranked)
    ensures
        forall|i: int|
            0 <= i < insert_ranked(s, x).len() ==> #[trigger] insert_ranked(s, x)[i] == x
                || s.contains(insert_ranked(s, x)[i]),
    decreases s.len(),
{
    if s.len() > 0 && crate::retrieval::ranks_before(x, s.last()) {
        let p = s.drop_last();
        lemma_insert_ranked_members(p, x);
        let t = insert_ranked(s, x);
        assert forall|i: int| 0 <= i < t.len() implies #[trigger] t[i] == x || s.contains(t[i]) by {
            if i < t.len() - 1 {
                let q = insert_ranked(p, x);
                assert(t[i] == q[i]);
                if q[i] != x {
                    let j = choose|j: int| 0 <= j < p.len() && p[j] == q[i];
                    assert(s[j] == p[j]);
                }
            } else {
                assert(t[i] == s[s.len() - 1]);
            }
        }
    } else if s.len() > 0 {
        let t = insert_ranked(s, x);
        assert forall|i: int| 0 <= i < t.len() implies #[trigger] t[i] == x || s.contains(t[i]) by {
            if i < s.len() {
                assert(t[i] == s[i]);
            }
        }
    }
}

proof fn lemma_rank_members(s: Seq<Ranked>)
    ensures
        forall|i: int| 0 <= i < rank(s).len() ==> s.contains(#[trigger] rank(s)[i]),
    decreases s.len(),
{
    if s.len() > 0 {
        let p = s.drop_last();
        lemma_rank_members(p);
        lemma_insert_ranked_members(rank(p), s.last());
        let t = rank(s);
        assert forall|i: int| 0 <= i < t.len() implies s.contains(#[trigger] t[i]) by {
            if t[i] == s.last() {
                assert(s[s.len() - 1] == t[i]);
            } else {
                assert(rank(p).contains(t[i]));
                let j = choose|j: int| 0 <= j < rank(p).len() && rank(p)[j] == t[i];
                assert(p.contains(rank(p)[j]));
                let m = choose|m: int| 0 <= m < p.len() && p[m] == t[i];
                assert(s[m] == t[i]);
            }
        }
    }
}

/// The passages that a retrieval returns come from resources the identity may read.
proof fn lemma_outcome_sources(
    policy: Policy,
    v: VerifiedIdentity,
    q: Seq<char>,
    reads_trace: Seq<Call>,
    ps: Seq<(Seq<char>, Seq<char>, Seq<char>)>,
)
    requires
        retrieval_calls(retrieval_reads(policy, v, q), reads_trace),
        retrieval_outcome(policy, v, q, reads_trace) == Ok::<
            Seq<(Seq<char>, Seq<char>, Seq<char>)>,
            Failure,
        >(ps),
    ensures
        ps.len() <= 3,
        forall|j: int| 0 <= j < ps.len() ==> permitted_source(policy, v, (#[trigger] ps[j]).0, ps[j].1),
{
    let rs = retrieval_reads(policy, v, q);
    let docs = read_docs(reads_trace);
    let cs = candidates(crate::retrieval::spec_tokens(q), rs, docs);
    let ranked = rank(cs);
    let top = first_n(ranked, 3);
    assert(ps == top.map_values(|c: Ranked| c.1));
    lemma_candidates(crate::retrieval::spec_tokens(q), rs, docs);
    lemma_rank_members(cs);
    lemma_permitted(policy, v.spec_groups(), policy.resources@);
    assert forall|j: int| 0 <= j < ps.len() implies permitted_source(
        policy,
        v,
        (#[trigger] ps[j]).0,
        ps[j].1,
    ) by {
        assert(top[j] == ranked[j]);
        assert(cs.contains(ranked[j]));
        let m = choose|m: int| 0 <= m < cs.len() && cs[m] == ranked[j];
        assert(passage_of(cs[m].1, rs, docs.len() as int));
        let k = choose|k: int|
            0 <= k < docs.len() && #[trigger] rs[k].id@ == cs[m].1.0 && rs[k].classification@
                == cs[m].1.1;
        let perm = policy.permitted(v.spec_groups(), policy.resources@);
        assert(rs == perm);
        let x = perm[k];
        assert(policy.spec_permits(v.spec_groups(), x));
        let i = choose|i: int| 0 <= i < policy.resources@.len() && policy.resources@[i] == x;
        assert(policy.resources@[i].id@ == ps[j].0);
    }
}

/// A search reads only resources that the verified identity may read, returns at most
/// three passages, each from such a resource with its classification, and journals
/// no identity but the verified one.
pub proof fn law_retrieval_confined(
    policy: Policy,
    token: Option<Seq<char>>,
    query: Seq<char>,
    trace: Seq<Call>,
    r: Result<Vec<Passage>, Failure>,
)
    requires
        retrieve_protocol(policy, token, query, trace, r),
    ensures
        attributes_only_verified(trace),
        forall|i: int|
            0 <= i < trace.len() && #[trigger] is_read(trace[i]) ==> {
                &&& verified(trace) matches Some(v)
                &&& trace[i] matches Call::Read(x, _)
                &&& permitted_resource(policy, v, x)
            },
        r matches Ok(ps) ==> {
            &&& ps@.len() <= 3
            &&& verified(trace) matches Some(v)
            &&& forall|j: int|
                0 <= j < ps@.len() ==> permitted_source(
                    policy,
                    v,
                    (#[trigger] ps@[j]).resource_id@,
                    ps@[j].classification@,
                )
        },
{
    lemma_session_stage(token, Route::Retrieve, trace);
    let (n, s) = session_stage(token, Route::Retrieve, trace);
    match s {
        Err(f) => {},
        Ok(identity) => {
            let rest = trace.skip(n);
            assert forall|i: int| n <= i < trace.len() implies trace[i] == rest[i - n] by {}
            let q = crate::text::trim(query);
            if q.len() == 0 || q.len() > 500 {
            } else if rest[0] matches Call::Record(_, Err(_)) {
            } else {
                let rt = rest.skip(1);
                let rs = retrieval_reads(policy, identity, q);
                assert forall|i: int| n + 1 <= i < trace.len() implies trace[i] == rt[i - n - 1] by {}
                lemma_permitted(policy, identity.spec_groups(), policy.resources@);
                assert forall|i: int|
                    0 <= i < trace.len() && #[trigger] is_read(trace[i]) implies {
                        &&& verified(trace) matches Some(v)
                        &&& trace[i] matches Call::Read(x, _)
                        &&& permitted_resource(policy, v, x)
                    } by {
                    assert(i >= n + 1);
                    assert(reads(rt[i - n - 1], rs[i - n - 1]));
                    let x = rs[i - n - 1];
                    let perm = policy.permitted(identity.spec_groups(), policy.resources@);
                    assert(rs == perm);
                    assert(policy.spec_permits(identity.spec_groups(), perm[i - n - 1]));
                }
                assert forall|i: int|
                    0 <= i < trace.len() implies (#[trigger] trace[i] matches Call::Record(d, _)
                    ==> match opt_text(d.identity_id) {
                    None => true,
                    Some(x) => verified(trace) matches Some(v) && x == v.spec_id(),
                }) by {
                    if i >= n + 1 {
                        assert(reads(rt[i - n - 1], rs[i - n - 1]));
                    }
                }
                if r is Ok {
                    let ps = crate::application::passages_view(r->Ok_0@);
                    lemma_outcome_sources(policy, identity, q, rt, ps);
                    assert forall|j: int| 0 <= j < r->Ok_0@.len() implies permitted_source(
                        policy,
                        identity,
                        (#[trigger] r->Ok_0@[j]).resource_id@,
                        r->Ok_0@[j].classification@,
                    ) by {
                        assert(ps[j] == r->Ok_0@[j]@);
                    }
                }
            }
        },
    }
}

/// A chat without documents reads none; a chat with documents reads only resources
/// that the verified identity may read, and its context names at most three
/// sources, each such a resource. No identity but the verified one is journaled.
pub proof fn law_chat_confined(
    policy: Policy,
    token: Option<Seq<char>>,
    message: Seq<char>,
    rag: bool,
    trace: Seq<Call>,
    r: Result<PreparedChat, Failure>,
)
    requires
        chat_protocol(policy, token, message, rag, trace, r),
    ensures
        attributes_only_verified(trace),
        !rag ==> no_read(trace),
        !rag && r is Ok ==> r->Ok_0.context is None && r->Ok_0.sources@.len() == 0,
        forall|i: int|
            0 <= i < trace.len() && #[trigger] is_read(trace[i]) ==> {
                &&& verified(trace) matches Some(v)
                &&& trace[i] matches Call::Read(x, _)
                &&& permitted_resource(policy, v, x)
            },
        r matches Ok(p) ==> {
            &&& p.sources@.len() <= 3
            &&& verified(trace) matches Some(v)
            &&& forall|j: int|
                0 <= j < p.sources@.len() ==> permitted_id(policy, v, (#[trigger] p.sources@[j])@)
        },
{
    let route = if rag {
        Route::Rag
    } else {
        Route::Chat
    };
    lemma_session_stage(token, route, trace);
    let (n, s) = session_stage(token, route, trace);
    match s {
        Err(f) => {},
        Ok(identity) => {
            let rest = trace.skip(n);
            assert forall|i: int| n <= i < trace.len() implies trace[i] == rest[i - n] by {}
            let m = crate::text::trim(message);
            if m.len() == 0 || m.len() > 8000 {
            } else if rest[0] matches Call::Record(_, Err(_)) {
            } else if !rag {
                assert(crate::policy::texts(r->Ok_0.sources@).len() == 0);
                assert(r->Ok_0.sources@.len() == 0);
                assert(verified(trace) == Some(identity));
            } else {
                let rt = rest.skip(1);
                let rs = retrieval_reads(policy, identity, m);
                assert forall|i: int| n + 1 <= i < trace.len() implies trace[i] == rt[i - n - 1] by {}
                lemma_permitted(policy, identity.spec_groups(), policy.resources@);
                assert forall|i: int|
                    0 <= i < trace.len() && #[trigger] is_read(trace[i]) implies {
                        &&& verified(trace) matches Some(v)
                        &&& trace[i] matches Call::Read(x, _)
                        &&& permitted_resource(policy, v, x)
                    } by {
                    assert(reads(rt[i - n - 1], rs[i - n - 1]));
                    let perm = policy.permitted(identity.spec_groups(), policy.resources@);
                    assert(rs == perm);
                    assert(policy.spec_permits(identity.spec_groups(), perm[i - n - 1]));
                }
                assert forall|i: int|
                    0 <= i < trace.len() implies (#[trigger] trace[i] matches Call::Record(d, _)
                    ==> match opt_text(d.identity_id) {
                    None => true,
                    Some(x) => verified(trace) matches Some(v) && x == v.spec_id(),
                }) by {
                    if i >= n + 1 {
                        assert(reads(rt[i - n - 1], rs[i - n - 1]));
                    }
                }
                match retrieval_outcome(policy, identity, m, rt) {
                    Err(f) => {},
                    Ok(ps) => {
                        lemma_outcome_sources(policy, identity, m, rt, ps);
                        let p = r->Ok_0;
                        assert(crate::policy::texts(p.sources@) == source_ids(ps));
                        assert(crate::policy::texts(p.sources@).len() == p.sources@.len());
                        assert(source_ids(ps).len() == ps.len());
                        assert(ps.len() == p.sources@.len());
                        assert forall|j: int| 0 <= j < p.sources@.len() implies permitted_id(
                            policy,
                            identity,
                            (#[trigger] p.sources@[j])@,
                        ) by {
                            assert(crate::policy::texts(p.sources@)[j] == p.sources@[j]@);
                            assert(source_ids(ps)[j] == ps[j].0);
                            assert(permitted_source(policy, identity, ps[j].0, ps[j].1));
                        }
                    },
                }
            }
        },
    }
}

proof fn lemma_find_identity(s: Seq<IdentityDefinition>, id: Seq<char>)
    ensures
        find_identity(s, id) matches Some(e) ==> e.id@ == id,
    decreases s.len(),
{
    if s.len() > 0 && s[0].id@ != id {
        lemma_find_identity(s.drop_first(), id);
    }
}

/// Claims issued for an identity of the directory are accepted by the session check
/// at any time before they expire, and give back that identity with its groups; from
/// their expiry on they are refused.
pub proof fn law_issued_claims_verify(
    d: Directory,
    id: Seq<char>,
    issued_at: u64,
    c: Claims,
    now: u64,
    r: Result<VerifiedIdentity, Failure>,
)
    requires
        issue_protocol(d, id, Some(Ok::<u64, Failure>(issued_at)), Ok::<Claims, Failure>(c)),
        verify_protocol(d, c, Some(Ok::<u64, Failure>(now)), r),
    ensures
        c.exp == issued_at + 900,
        now < c.exp ==> {
            &&& r matches Ok(v)
            &&& v.spec_id() == id
            &&& find_identity(d.identities@, id) matches Some(e)
            &&& texts(v.spec_groups()) == texts(e.groups@)
        },
        now >= c.exp ==> r == Err::<VerifiedIdentity, Failure>(Failure::Session),
{
    lemma_find_identity(d.identities@, id);
}

/// The session is refused without reading the clock when the identity to open a
/// session for is not in the directory, and when decoded claims do not match the
/// directory exactly.
pub proof fn law_refusals_skip_clock(
    d: Directory,
    id: Seq<char>,
    issue_read: Option<Result<u64, Failure>>,
    issued: Result<Claims, Failure>,
    c: Claims,
    verify_read: Option<Result<u64, Failure>>,
    r: Result<VerifiedIdentity, Failure>,
)
    requires
        issue_protocol(d, id, issue_read, issued),
        verify_protocol(d, c, verify_read, r),
    ensures
        find_identity(d.identities@, id) is None ==> issue_read is None && issued == Err::<
            Claims,
            Failure,
        >(Failure::Session),
        d.spec_validate_claims(c.sub@, c.groups@) is None ==> verify_read is None && r == Err::<
            VerifiedIdentity,
            Failure,
        >(Failure::Session),
{
}

/// A request whose `Host` is not exactly the served host is refused before anything
/// else, whatever its method, path or body.
pub proof fn law_foreign_host_refused(head: RequestHead, host: Seq<char>, asset: bool)
    requires
        !(spec_one_header(fields(head.host@)) matches Ok(Some(v)) && trim(v) == host),
    ensures
        spec_admission(head, host, asset) == Admission::Refuse(Reply::Refused),
{
}

/// A `POST` to the API that does not carry the page's origin is refused.
pub proof fn law_cross_site_post_refused(head: RequestHead, host: Seq<char>)
    requires
        spec_one_header(fields(head.host@)) matches Ok(Some(v)) && trim(v) == host,
        !head.absolute,
        has_prefix(head.path@, "/api/"@),
        head.method@ == "POST"@,
        !(spec_one_header(fields(head.origin@)) matches Ok(Some(o)) && o == "http://"@ + host),
    ensures
        spec_admission(head, host, false) == Admission::Refuse(Reply::Refused),
{
}

/// A request reaches an endpoint only with the served host, in origin form, with the
/// endpoint's method, without content coding, with a JSON content type when the
/// endpoint takes a body, and with that endpoint's body limit.
pub proof fn law_admitted_requests(
    head: RequestHead,
    host: Seq<char>,
    asset: bool,
    e: Endpoint,
    limit: usize,
)
    requires
        spec_admission(head, host, asset) == Admission::Handle(e, limit),
    ensures
        spec_one_header(fields(head.host@)) matches Ok(Some(v)) && trim(v) == host,
        !head.absolute,
        !asset,
        spec_route(head.path@) matches Some((x, m)) && x == e && head.method@ == m.spec_text(),
        !head.content_encoding,
        limit == spec_limit(e),
        limit > 0 ==> json_body(head),
{
}

/// Every chunk of an indexed text holds 1 to 700 characters and neither starts nor
/// ends with whitespace, and a blank text has no chunks.
pub proof fn law_chunks_bounded(text: Seq<char>, out: Seq<Seq<char>>)
    requires
        spec_chunks(text) == Some(out),
    ensures
        trim(text).len() > 0,
        out.len() > 0,
        forall|i: int| 0 <= i < out.len() ==> 0 < (#[trigger] out[i]).len() <= MAX_CHUNK,
        forall|i: int| 0 <= i < out.len() ==> trim(#[trigger] out[i]) == out[i],
{
    lemma_nonblank_chunks(text);
    assert forall|i: int| 0 <= i < out.len() implies trim(#[trigger] out[i]) == out[i] by {
        assert(spec_chunks(text)->0[i] == out[i]);
        lemma_solid_trim(out[i]);
    }
}

/// A text is refused for indexing exactly when it is blank.
pub proof fn law_chunks_refused_exactly_when_blank(text: Seq<char>)
    ensures
        spec_chunks(text) is None <==> trim(text).len() == 0,
{
    if trim(text).len() > 0 {
        lemma_nonblank_chunks(text);
    }
}

/// The best `n` of candidates: by non-increasing score, ties by increasing resource
/// id; each is one of the candidates, and a candidate is left out only when every
/// kept one scores at least as much.
pub proof fn law_best_candidates_kept(cs: Seq<Ranked>, n: nat)
    ensures
        ({
            let top = first_n(rank(cs), n);
            &&& top.len() == if cs.len() < n { cs.len() } else { n }
            &&& best_first(top)
            &&& forall|k: int| 0 <= k < top.len() ==> cs.contains(#[trigger] top[k])
            &&& forall|i: int|
                0 <= i < cs.len() ==> top.contains(#[trigger] cs[i]) || forall|k: int|
                    0 <= k < top.len() ==> top[k].0 >= cs[i].0
        }),
{
    broadcast use vstd::seq_lib::group_to_multiset_ensures;

    lemma_rank(cs);
    let r = rank(cs);
    let top = first_n(r, n);
    assert(r.to_multiset().len() == cs.to_multiset().len());
    assert(r.len() == cs.len());
    assert forall|k: int| 0 <= k < top.len() implies cs.contains(#[trigger] top[k]) by {
        assert(top[k] == r[k]);
        assert(r.to_multiset().count(r[k]) > 0);
    }
    assert forall|i: int, j: int| 0 <= i < j < top.len() implies score_first(#[trigger] top[i], #[trigger] top[j]) by {
        assert(top[i] == r[i] && top[j] == r[j]);
    }
    assert forall|i: int| 0 <= i < cs.len() implies top.contains(#[trigger] cs[i]) || forall|k: int|
        0 <= k < top.len() ==> top[k].0 >= cs[i].0 by {
        assert(cs.to_multiset().count(cs[i]) > 0);
        assert(r.contains(cs[i]));
        let m = choose|m: int| 0 <= m < r.len() && r[m] == cs[i];
        if m < top.len() {
            assert(top[m] == r[m]);
        } else {
            assert forall|k: int| 0 <= k < top.len() implies top[k].0 >= cs[i].0 by {
                assert(top[k] == r[k]);
                assert(score_first(r[k], r[m]));
            }
        }
    }
}

/// The passages of a lexical retrieval are its best candidates first: by
/// non-increasing score (the number of distinct query words that the document body
/// holds), ties by increasing resource identifier; at most three are kept, and a
/// matching document is left out only when every kept one scores at least as much.
pub proof fn law_retrieval_best_first(
    policy: Policy,
    identity: VerifiedIdentity,
    query: Seq<char>,
    trace: Seq<Call>,
    ps: Seq<(Seq<char>, Seq<char>, Seq<char>)>,
)
    requires
        retrieval_outcome(policy, identity, query, trace) == Ok::<
            Seq<(Seq<char>, Seq<char>, Seq<char>)>,
            Failure,
        >(ps),
    ensures
        ({
            let cs = candidates(
                spec_tokens(query),
                retrieval_reads(policy, identity, query),
                read_docs(trace),
            );
            let top = first_n(rank(cs), 3);
            &&& ps == top.map_values(|c: Ranked| c.1)
            &&& top.len() == if cs.len() < 3 { cs.len() } else { 3nat }
            &&& best_first(top)
            &&& forall|k: int| 0 <= k < top.len() ==> cs.contains(#[trigger] top[k])
            &&& forall|i: int|
                0 <= i < cs.len() ==> top.contains(#[trigger] cs[i]) || forall|k: int|
                    0 <= k < top.len() ==> top[k].0 >= cs[i].0
        }),
{
    let cs = candidates(
        spec_tokens(query),
        retrieval_reads(policy, identity, query),
        read_docs(trace),
    );
    law_best_candidates_kept(cs, 3);
}

/// Each part of a joined text occurs in it, at offset `k`.
proof fn lemma_join_holds_part(parts: Seq<Seq<char>>, sep: Seq<char>, i: int) -> (k: int)
    requires
        0 <= i < parts.len(),
    ensures
        0 <= k,
        k + parts[i].len() <= join(parts, sep).len(),
        join(parts, sep).subrange(k, k + parts[i].len()) == parts[i],
    decreases parts.len(),
{
    if parts.len() == 1 {
        assert(join(parts, sep).subrange(0, parts[0].len() as int) =~= parts[0]);
        0
    } else {
        let p = parts.drop_last();
        let head = join(p, sep) + sep;
        if i == parts.len() - 1 {
            assert(join(parts, sep).subrange(head.len() as int, (head.len() + parts[i].len()) as int)
                =~= parts[i]);
            head.len() as int
        } else {
            let k = lemma_join_holds_part(p, sep, i);
            assert(p[i] == parts[i]);
            assert(join(parts, sep).subrange(k, k + parts[i].len()) =~= join(p, sep).subrange(
                k,
                k + parts[i].len(),
            ));
            k
        }
    }
}

proof fn lemma_context_block(ps: Seq<(Seq<char>, Seq<char>, Seq<char>)>, i: int)
    requires
        0 <= i < ps.len(),
    ensures
        contains_text(spec_context(ps), "[Source "@ + ps[i].0 + " ("@ + ps[i].1 + ")]\n"@ + ps[i].2),
{
    let blocks = ps.map_values(|p: (Seq<char>, Seq<char>, Seq<char>)| source_block(p));
    let b = "[Source "@ + ps[i].0 + " ("@ + ps[i].1 + ")]\n"@ + ps[i].2;
    assert(blocks[i] == b);
    let k = lemma_join_holds_part(blocks, "\n\n"@, i);
    let j = join(blocks, "\n\n"@);
    let ctx = spec_context(ps);
    let at = context_intro().len() + k;
    assert(ctx == context_intro() + j);
    assert(ctx.subrange(at, at + b.len()) =~= j.subrange(k, k + b.len()));
}

/// The chat context holds, for every passage, its header
/// `[Source <id> (<classification>)]` on a line of its own, followed at once by the
/// passage's excerpt: the model gets the text of every retrieved source.
pub proof fn law_context_cites_every_passage(ps: Seq<(Seq<char>, Seq<char>, Seq<char>)>)
    ensures
        forall|i: int|
            0 <= i < ps.len() ==> contains_text(
                spec_context(ps),
                "[Source "@ + (#[trigger] ps[i]).0 + " ("@ + ps[i].1 + ")]\n"@ + ps[i].2,
            ),
{
    assert forall|i: int| 0 <= i < ps.len() implies contains_text(
        spec_context(ps),
        "[Source "@ + (#[trigger] ps[i]).0 + " ("@ + ps[i].1 + ")]\n"@ + ps[i].2,
    ) by {
        lemma_context_block(ps, i);
    }
}

/// A policy that validates declares each role once, with a non-empty identifier,
/// and each resource once: a well-formed identifier, a classification among
/// `PUBLIC`, `RH` and `IT`, admitted roles that it declares, and a Markdown path
/// under `demo-documents/`.
pub proof fn law_valid_policy_is_consistent(policy: Policy, d: Directory)
    requires
        policy.spec_validate(d) is None,
    ensures
        policy.roles@.len() > 0,
        forall|i: int| 0 <= i < policy.roles@.len() ==> (#[trigger] policy.roles@[i]).id@.len() > 0,
        forall|i: int, j: int|
            0 <= i < j < policy.roles@.len() ==> (#[trigger] policy.roles@[i]).id@ != (
            #[trigger] policy.roles@[j]).id@,
        forall|i: int, j: int|
            0 <= i < j < policy.resources@.len() ==> (#[trigger] policy.resources@[i]).id@ != (
            #[trigger] policy.resources@[j]).id@,
        forall|i: int|
            0 <= i < policy.resources@.len() ==> {
                let r = #[trigger] policy.resources@[i];
                &&& spec_valid_id(r.id@)
                &&& (r.classification@ == "PUBLIC"@ || r.classification@ == "RH"@
                    || r.classification@ == "IT"@)
                &&& r.allowed_roles@.len() > 0
                &&& forall|a: int|
                    0 <= a < r.allowed_roles@.len() ==> policy.has_role(
                        (#[trigger] r.allowed_roles@[a])@,
                    )
                &&& has_prefix(r.path@, "demo-documents/"@)
                &&& has_suffix(r.path@, ".md"@)
            },
{
    assert forall|i: int| 0 <= i < policy.roles@.len() implies (#[trigger] policy.roles@[i]).id@.len() > 0 by {
        assert(policy.role_ids()[i] == policy.roles@[i].id);
    }
    assert forall|i: int, j: int|
        0 <= i < j < policy.roles@.len() implies (#[trigger] policy.roles@[i]).id@ != (
        #[trigger] policy.roles@[j]).id@ by {
        assert(policy.role_ids()[i] == policy.roles@[i].id);
        assert(policy.role_ids()[j] == policy.roles@[j].id);
    }
    assert forall|i: int, j: int|
        0 <= i < j < policy.resources@.len() implies (#[trigger] policy.resources@[i]).id@ != (
        #[trigger] policy.resources@[j]).id@ by {
        assert(policy.resource_ok(j));
    }
    assert forall|i: int| 0 <= i < policy.resources@.len() implies {
        let r = #[trigger] policy.resources@[i];
        &&& spec_valid_id(r.id@)
        &&& (r.classification@ == "PUBLIC"@ || r.classification@ == "RH"@ || r.classification@
            == "IT"@)
        &&& r.allowed_roles@.len() > 0
        &&& forall|a: int|
            0 <= a < r.allowed_roles@.len() ==> policy.has_role((#[trigger] r.allowed_roles@[a])@)
        &&& has_prefix(r.path@, "demo-documents/"@)
        &&& has_suffix(r.path@, ".md"@)
    } by {
        assert(policy.resource_ok(i));
    }
}

/// A policy that validates maps no directory group twice, and maps each group to a
/// role that it defines: every group has exactly one role.
pub proof fn law_valid_policy_maps_each_group_once(policy: Policy, d: Directory)
    requires
        policy.spec_validate(d) is None,
    ensures
        forall|i: int, j: int|
            0 <= i < j < policy.group_role_mappings@.len() ==> (
            #[trigger] policy.group_role_mappings@[i]).group@ != (
            #[trigger] policy.group_role_mappings@[j]).group@,
        forall|i: int|
            0 <= i < policy.group_role_mappings@.len() ==> policy.has_role(
                (#[trigger] policy.group_role_mappings@[i]).role@,
            ),
{
    assert forall|i: int, j: int|
        0 <= i < j < policy.group_role_mappings@.len() implies (
        #[trigger] policy.group_role_mappings@[i]).group@ != (
        #[trigger] policy.group_role_mappings@[j]).group@ by {
        assert(policy.mapping_ok(j));
    }
    assert forall|i: int| 0 <= i < policy.group_role_mappings@.len() implies policy.has_role(
        (#[trigger] policy.group_role_mappings@[i]).role@,
    ) by {
        assert(policy.mapping_ok(i));
    }
}

/// Chunking starts from the sentences and paragraphs of the text, and they hold
/// exactly the words of the text, in order: no word is lost, added or moved.
pub proof fn law_sentences_keep_every_word(text: Seq<char>)
    ensures
        words_of(sentence_parts(text)) == split_ws(text),
{
    lemma_sentence_parts_words(text);
}

/// Chunking loses no text: the chunks of a text join, with spaces, consecutive runs
/// of units that cover every unit once and in order (a run that starts one unit early
/// repeats that unit, of at most 160 characters, as overlap), and the units hold
/// exactly the characters of the text that are not whitespace, in order.
pub proof fn law_chunks_keep_every_character(text: Seq<char>, out: Seq<Seq<char>>)
    requires
        spec_chunks(text) == Some(out),
    ensures
        exists|us: Seq<Seq<char>>, rs: Seq<(int, int)>|
            letters_of(us) == letters(text) && #[trigger] runs_of(out, us, rs) && rs.len() > 0
                && rs.last().1 == us.len(),
{
    let (us, rs) = lemma_chunks_keep_text(text, out);
    assert(runs_of(out, us, rs));
}

/// A passage's excerpt is the document body with its whitespace runs turned into
/// single spaces, cut to 500 characters: at most 500 characters, whose characters
/// other than whitespace begin those of the body, and are all of them when the
/// excerpt is shorter than 500 characters.
pub proof fn law_excerpt_from_body(body: Seq<char>)
    ensures
        spec_excerpt(body).len() <= 500,
        letters(body).take(letters(spec_excerpt(body)).len() as int) == letters(spec_excerpt(body)),
        letters(spec_excerpt(body)).len() <= letters(body).len(),
        spec_excerpt(body).len() < 500 ==> letters(spec_excerpt(body)) == letters(body),
{
    reveal_strlit(" ");
    let normalized = join(split_ws(body), " "@);
    assert(blank(" "@)) by {
        assert forall|i: int| 0 <= i < " "@.len() implies is_ws(#[trigger] " "@[i]) by {
            assert(" "@[i] == ' ');
        }
    }
    lemma_letters_join(split_ws(body), " "@);
    lemma_letters_split_ws(body);
    let ex = spec_excerpt(body);
    if normalized.len() > 500 {
        assert(normalized =~= normalized.take(500) + normalized.skip(500));
        lemma_letters_concat(normalized.take(500), normalized.skip(500));
        assert(letters(body).take(letters(ex).len() as int) =~= letters(ex));
    } else {
        assert(letters(body).take(letters(ex).len() as int) =~= letters(ex));
    }
}

/// A safe relative path is not empty, and every piece between its `/` is a
/// non-empty run of ASCII letters, digits, `-`, `_` and `.` that is neither `.` nor
/// `..`: it never names the root, the current directory or a parent directory.
pub proof fn law_safe_paths_never_climb(path: Seq<char>)
    requires
        spec_safe_relative(path),
    ensures
        path.len() > 0,
        forall|k: int|
            0 <= k < split_char(path, '/').len() ==> {
                let seg = #[trigger] split_char(path, '/')[k];
                &&& seg.len() > 0
                &&& seg != seq!['.']
                &&& seg != seq!['.', '.']
                &&& forall|i: int|
                    0 <= i < seg.len() ==> {
                        let c = #[trigger] seg[i];
                        ||| ('a' <= c && c <= 'z')
                        ||| ('A' <= c && c <= 'Z')
                        ||| ('0' <= c && c <= '9')
                        ||| c == '-' || c == '_' || c == '.'
                    }
            },
{
    assert forall|k: int| 0 <= k < split_char(path, '/').len() implies {
        let seg = #[trigger] split_char(path, '/')[k];
        &&& seg.len() > 0
        &&& seg != seq!['.']
        &&& seg != seq!['.', '.']
        &&& forall|i: int|
            0 <= i < seg.len() ==> {
                let c = #[trigger] seg[i];
                ||| ('a' <= c && c <= 'z')
                ||| ('A' <= c && c <= 'Z')
                ||| ('0' <= c && c <= '9')
                ||| c == '-' || c == '_' || c == '.'
            }
    } by {
        assert(safe_segment(segments(path)[k]));
    }
}

/// Lines written one after the other, each followed by `\n`.
pub open spec fn lf_text(ls: Seq<Seq<char>>) -> Seq<char>
    decreases ls.len(),
{
    if ls.len() == 0 {
        seq![]
    } else {
        lf_text(ls.drop_last()) + ls.last() + seq!['\n']
    }
}

/// Lines written one after the other, each followed by `\r\n`.
pub open spec fn crlf_text(ls: Seq<Seq<char>>) -> Seq<char>
    decreases ls.len(),
{
    if ls.len() == 0 {
        seq![]
    } else {
        crlf_text(ls.drop_last()) + ls.last() + seq!['\r', '\n']
    }
}

/// A line as `str::lines` gives it: without `\n` and without a final `\r`.
pub open spec fn plain_line(l: Seq<char>) -> bool {
    &&& forall|i: int| 0 <= i < l.len() ==> #[trigger] l[i] != '\n'
    &&& (l.len() == 0 || l.last() != '\r')
}

proof fn lemma_lines_acc_append(s: Seq<char>, w: Seq<char>)
    requires
        lines_acc(s).1.len() == 0,
        forall|i: int| 0 <= i < w.len() ==> #[trigger] w[i] != '\n',
    ensures
        lines_acc(s + w) == (lines_acc(s).0, w),
    decreases w.len(),
{
    if w.len() == 0 {
        assert(s + w =~= s);
        assert(lines_acc(s).1 =~= w);
    } else {
        let p = w.drop_last();
        assert forall|i: int| 0 <= i < p.len() implies #[trigger] p[i] != '\n' by {
            assert(p[i] == w[i]);
        }
        lemma_lines_acc_append(s, p);
        assert((s + w).drop_last() =~= s + p);
        assert((s + w).last() == w.last());
        assert(p.push(w.last()) =~= w);
    }
}

proof fn lemma_line_texts(ls: Seq<Seq<char>>)
    requires
        forall|i: int| 0 <= i < ls.len() ==> plain_line(#[trigger] ls[i]),
    ensures
        lines_acc(lf_text(ls)) == (ls, Seq::<char>::empty()),
        lines_acc(crlf_text(ls)) == (ls, Seq::<char>::empty()),
    decreases ls.len(),
{
    if ls.len() == 0 {
        assert(ls =~= Seq::<Seq<char>>::empty());
    } else {
        let p = ls.drop_last();
        let l = ls.last();
        assert(plain_line(ls[ls.len() - 1]));
        assert forall|i: int| 0 <= i < p.len() implies plain_line(#[trigger] p[i]) by {
            assert(p[i] == ls[i]);
        }
        lemma_line_texts(p);
        let x = lf_text(p);
        lemma_lines_acc_append(x, l);
        assert(lf_text(ls) == (x + l).push('\n'));
        assert((x + l).push('\n').drop_last() == x + l);
        assert(strip_cr(l) == l);
        assert(p.push(l) =~= ls);
        let y = crlf_text(p);
        let lr = l.push('\r');
        assert forall|i: int| 0 <= i < lr.len() implies #[trigger] lr[i] != '\n' by {
            if i < l.len() {
                assert(lr[i] == l[i]);
            }
        }
        lemma_lines_acc_append(y, lr);
        assert(crlf_text(ls) =~= (y + lr).push('\n'));
        assert((y + lr).push('\n').drop_last() == y + lr);
        assert(strip_cr(lr) =~= l);
    }
}

/// Text whose lines end in `\r\n` has the same lines, and so the same source
/// fingerprint, as the same lines ending in `\n`.
pub proof fn law_line_endings(ls: Seq<Seq<char>>)
    requires
        forall|i: int| 0 <= i < ls.len() ==> plain_line(#[trigger] ls[i]),
    ensures
        lines(lf_text(ls)) == ls,
        lines(crlf_text(ls)) == ls,
        spec_source_hash(crlf_text(ls)) == spec_source_hash(lf_text(ls)),
{
    lemma_line_texts(ls);
}

/// Access is denied by default: a resource that lists no role, or an identity none
/// of whose groups is mapped to a role, is never permitted.
pub proof fn law_default_deny(policy: Policy, groups: Seq<String>, resource: Resource)
    requires
        resource.allowed_roles@.len() == 0 || forall|g: int, m: int|
            0 <= g < groups.len() && 0 <= m < policy.group_role_mappings@.len() ==> (
            #[trigger] policy.group_role_mappings@[m]).group@ != (#[trigger] groups[g])@,
    ensures
        !policy.spec_permits(groups, resource),
{
}

/// A user's action on the page, as opposed to the answer to a request.
pub open spec fn user_action(e: PageEvent) -> bool {
    match e {
        PageEvent::Select(_) | PageEvent::EditResource(_) | PageEvent::EditQuery(_)
        | PageEvent::EditMessage(_) | PageEvent::Login | PageEvent::Logout | PageEvent::Read
        | PageEvent::Search | PageEvent::Ask(_) => true,
        _ => false,
    }
}

/// The page sends at most one request at a time: while one is under way a user's
/// action changes nothing and sends nothing, and every action that sends a request
/// (other than the first session check) marks the page busy. A document is only
/// asked for by an identifier of acceptable form.
pub proof fn law_page_one_request_at_a_time(p: PageView, e: PageEvent)
    ensures
        p.busy && user_action(e) ==> spec_step(p, e) == (p, None::<RequestView>),
        user_action(e) && spec_step(p, e).1 is Some ==> spec_step(p, e).0.busy,
        spec_step(p, e).1 matches Some(RequestView::Document(id)) ==> spec_document_id_acceptable(id)
            && id == p.resource,
{
}

/// Closing the session clears everything that the session showed.
pub proof fn law_page_logout_clears(p: PageView)
    ensures
        ({
            let q = spec_step(p, PageEvent::LoggedOut(Ok(()))).0;
            &&& q.identity.len() == 0
            &&& q.document.len() == 0
            &&& q.results.len() == 0
            &&& q.answer.len() == 0
            &&& q.query.len() == 0
            &&& q.message.len() == 0
            &&& !q.busy
        }),
{
}

/// The `;`-separated pieces of a list of `Cookie` headers, in order.
pub open spec fn cookie_parts(hs: Seq<Seq<char>>) -> Seq<Seq<char>>
    decreases hs.len(),
{
    if hs.len() == 0 {
        seq![]
    } else {
        cookie_parts(hs.drop_last()) + split_char(hs.last(), ';')
    }
}

/// A text without `sep` is one piece.
proof fn lemma_split_whole(s: Seq<char>, sep: char)
    requires
        forall|k: int| 0 <= k < s.len() ==> s[k] != sep,
    ensures
        split_char(s, sep) == seq![s],
    decreases s.len(),
{
    if s.len() > 0 {
        lemma_split_whole(s.drop_last(), sep);
        assert(s.drop_last().push(s.last()) =~= s);
        let prev = split_char(s.drop_last(), sep);
        assert(prev.update(0, prev.last().push(s.last())) =~= seq![s]);
    } else {
        assert(s =~= seq![]);
    }
}

/// `c` first occurs at `i`.
proof fn lemma_first_index_at(s: Seq<char>, c: char, i: int)
    requires
        0 <= i < s.len(),
        s[i] == c,
        forall|j: int| 0 <= j < i ==> s[j] != c,
    ensures
        first_index(s, c) == Some(i),
    decreases s.len(),
{
    if i < s.len() - 1 {
        lemma_first_index_at(s.drop_last(), c, i);
    } else {
        lemma_first_index_none(s.drop_last(), c);
    }
}

proof fn lemma_first_index_none(s: Seq<char>, c: char)
    requires
        forall|j: int| 0 <= j < s.len() ==> s[j] != c,
    ensures
        first_index(s, c) is None,
    decreases s.len(),
{
    if s.len() > 0 {
        lemma_first_index_none(s.drop_last(), c);
    }
}

/// An RFC 6265 `cookie-octet`: `!`, `#` to `+`, `-` to `:`, `<` to `[`, `]` to `~`.
pub open spec fn rfc_cookie_octet(c: char) -> bool {
    ||| c == '!'
    ||| ('#' <= c && c <= '+')
    ||| ('-' <= c && c <= ':')
    ||| ('<' <= c && c <= '[')
    ||| (']' <= c && c <= '~')
}

/// A value of one or more cookie octets.
pub open spec fn cookie_value(v: Seq<char>) -> bool {
    v.len() > 0 && forall|k: int| 0 <= k < v.len() ==> rfc_cookie_octet(#[trigger] v[k])
}

/// An RFC 7230 token: one or more of the letters, digits and
/// ``!#$%&'*+-.^_`|~``.
pub open spec fn rfc_token(n: Seq<char>) -> bool {
    n.len() > 0 && forall|k: int|
        0 <= k < n.len() ==> {
            let c = #[trigger] n[k];
            ||| ('a' <= c && c <= 'z')
            ||| ('A' <= c && c <= 'Z')
            ||| ('0' <= c && c <= '9')
            ||| c == '!' || c == '#' || c == '$' || c == '%' || c == '&' || c == '\'' || c == '*'
            ||| c == '+' || c == '-' || c == '.' || c == '^' || c == '_' || c == '`' || c == '|'
            ||| c == '~'
        }
}

/// A pair `name=value` with a token name and a cookie value is read as such: it is
/// the session token when the name is the session cookie's, and leaves the token
/// found so far otherwise.
proof fn lemma_cookie_pair_read(n: Seq<char>, v: Seq<char>)
    requires
        rfc_token(n),
        cookie_value(v),
    ensures
        cookie_pair(None, n + "="@ + v) == if n == "chatpurp_demo_session"@ {
            Some(Some(v))
        } else {
            Some(None::<Seq<char>>)
        },
        forall|k: int| 0 <= k < (n + "="@ + v).len() ==> (n + "="@ + v)[k] != ';',
        trim(n + "="@ + v) == n + "="@ + v,
{
    reveal_strlit("=");
    let h = n + "="@ + v;
    let l = n.len() as int;
    assert(h[0] == n[0]);
    assert(h.last() == v.last());
    assert forall|k: int| 0 <= k < h.len() implies h[k] != ';' by {
        if k < l {
            assert(h[k] == n[k]);
        } else if k > l {
            assert(h[k] == v[k - l - 1]);
        }
    }
    lemma_solid_trim(h);
    assert forall|j: int| 0 <= j < l implies h[j] != '=' by {
        assert(h[j] == n[j]);
    }
    lemma_first_index_at(h, '=', l);
    assert(h.take(l) =~= n);
    assert(h.skip(l + 1) =~= v);
    assert(unquote(v) == v);
    assert forall|k: int| 0 <= k < n.len() implies is_tchar(#[trigger] n[k]) by {}
}

/// A text without `sep` and another text, joined by `sep`, split at `sep` into the
/// pieces of each.
proof fn lemma_split_after_sep(a: Seq<char>, b: Seq<char>, sep: char)
    ensures
        split_char(a.push(sep) + b, sep) == split_char(a, sep) + split_char(b, sep),
    decreases b.len(),
{
    let x = a.push(sep);
    if b.len() == 0 {
        assert(x + b =~= x);
        assert(x.drop_last() =~= a);
        assert(split_char(a, sep).push(seq![]) =~= split_char(a, sep) + seq![seq![]]);
    } else {
        lemma_split_after_sep(a, b.drop_last(), sep);
        assert((x + b).drop_last() =~= x + b.drop_last());
        assert((x + b).last() == b.last());
        lemma_split_len(b.drop_last(), sep);
        let pa = split_char(a, sep);
        let pb = split_char(b.drop_last(), sep);
        if b.last() == sep {
            assert((pa + pb).push(seq![]) =~= pa + pb.push(seq![]));
        } else {
            assert((pa + pb).last() == pb.last());
            assert((pa + pb).update((pa + pb).len() - 1, pb.last().push(b.last())) =~= pa + pb.update(
                pb.len() - 1,
                pb.last().push(b.last()),
            ));
        }
    }
}

/// A session cookie whose value is made only of RFC 6265 cookie octets is accepted,
/// and its value is the session token.
pub proof fn law_cookie_octets_accepted(v: Seq<char>)
    requires
        cookie_value(v),
    ensures
        spec_cookie_token(seq!["chatpurp_demo_session="@ + v]) == Some(Some(v)),
{
    reveal_strlit("chatpurp_demo_session=");
    reveal_strlit("chatpurp_demo_session");
    reveal_strlit("=");
    let name = "chatpurp_demo_session"@;
    assert(rfc_token(name));
    let h = "chatpurp_demo_session="@ + v;
    assert(h =~= name + "="@ + v);
    lemma_cookie_pair_read(name, v);
    lemma_split_whole(h, ';');
    let hs = seq![h];
    assert(hs.drop_last() =~= Seq::<Seq<char>>::empty());
    assert(spec_cookie_token(hs.drop_last()) == Some(None::<Seq<char>>));
    assert(hs.last() == h);
    assert(pairs_fold(Some(None::<Seq<char>>), Seq::<Seq<char>>::empty()) == Some(None::<Seq<char>>));
    assert(pairs_fold(Some(None::<Seq<char>>), hs.drop_last()) == Some(None::<Seq<char>>));
    assert(pairs_fold(Some(None::<Seq<char>>), hs) == cookie_pair(None, h));
}

/// A `Cookie` header with another cookie first (such as `lang=fr-FR`), then the
/// session cookie: both names are tokens and both values cookie octets, so the header
/// is accepted and the session cookie's value is the session token.
pub proof fn law_cookie_after_other_cookie(n: Seq<char>, u: Seq<char>, v: Seq<char>)
    requires
        rfc_token(n),
        n != "chatpurp_demo_session"@,
        cookie_value(u),
        cookie_value(v),
    ensures
        spec_cookie_token(seq![n + "="@ + u + "; chatpurp_demo_session="@ + v]) == Some(Some(v)),
{
    reveal_strlit("chatpurp_demo_session=");
    reveal_strlit("chatpurp_demo_session");
    reveal_strlit("; chatpurp_demo_session=");
    reveal_strlit("=");
    let name = "chatpurp_demo_session"@;
    assert(rfc_token(name));
    let p1 = n + "="@ + u;
    let h2 = name + "="@ + v;
    let b = seq![' '] + h2;
    let whole = n + "="@ + u + "; chatpurp_demo_session="@ + v;
    assert(whole =~= p1.push(';') + b);
    lemma_cookie_pair_read(n, u);
    lemma_cookie_pair_read(name, v);
    lemma_split_whole(p1, ';');
    assert forall|k: int| 0 <= k < b.len() implies b[k] != ';' by {
        if k > 0 {
            assert(b[k] == h2[k - 1]);
        }
    }
    lemma_split_whole(b, ';');
    lemma_split_after_sep(p1, b, ';');
    let parts = seq![p1] + seq![b];
    assert(split_char(whole, ';') == parts);
    assert(b[0] == ' ');
    assert(b.drop_first() =~= h2);
    assert(trim_start(b) == trim_start(h2));
    assert(trim(b) == trim(h2));
    assert(cookie_pair(None, b) == cookie_pair(None, h2));
    let hs = seq![whole];
    assert(hs.drop_last() =~= Seq::<Seq<char>>::empty());
    assert(spec_cookie_token(hs.drop_last()) == Some(None::<Seq<char>>));
    assert(hs.last() == whole);
    assert(parts.drop_last() =~= seq![p1]);
    assert(seq![p1].drop_last() =~= Seq::<Seq<char>>::empty());
    assert(pairs_fold(Some(None::<Seq<char>>), Seq::<Seq<char>>::empty()) == Some(None::<Seq<char>>));
    assert(pairs_fold(Some(None::<Seq<char>>), seq![p1]) == cookie_pair(None, p1));
    assert(pairs_fold(Some(None::<Seq<char>>), parts) == cookie_pair(None, b));
    assert(spec_cookie_token(hs) == pairs_fold(Some(None::<Seq<char>>), parts));
}

/// A piece that names the session cookie.
pub open spec fn names_session(part: Seq<char>) -> bool {
    first_index(trim(part), '=') matches Some(i) && trim(part).take(i) == "chatpurp_demo_session"@
}

proof fn lemma_fold_append(st: Option<Option<Seq<char>>>, a: Seq<Seq<char>>, b: Seq<Seq<char>>)
    ensures
        pairs_fold(st, a + b) == pairs_fold(pairs_fold(st, a), b),
    decreases b.len(),
{
    if b.len() == 0 {
        assert(a + b =~= a);
    } else {
        assert((a + b).drop_last() =~= a + b.drop_last());
        assert((a + b).last() == b.last());
        lemma_fold_append(st, a, b.drop_last());
    }
}

proof fn lemma_cookie_parts(hs: Seq<Seq<char>>)
    ensures
        spec_cookie_token(hs) == pairs_fold(Some(None), cookie_parts(hs)),
    decreases hs.len(),
{
    if hs.len() > 0 {
        lemma_cookie_parts(hs.drop_last());
        lemma_fold_append(Some(None), cookie_parts(hs.drop_last()), split_char(hs.last(), ';'));
    }
}

proof fn lemma_token_held(st: Option<Option<Seq<char>>>, ps: Seq<Seq<char>>, i: int, n: int)
    requires
        0 <= i < n <= ps.len(),
        names_session(ps[i]),
    ensures
        pairs_fold(st, ps.take(n)) is None || pairs_fold(st, ps.take(n)) matches Some(Some(_)),
    decreases n,
{
    assert(ps.take(n).drop_last() =~= ps.take(n - 1));
    assert(ps.take(n).last() == ps[n - 1]);
    if n > i + 1 {
        lemma_token_held(st, ps, i, n - 1);
    }
}

/// A set of `Cookie` headers that names the session cookie twice, in one header or
/// in two, is refused as a whole.
pub proof fn law_repeated_session_cookie_refused(hs: Seq<Seq<char>>, i: int, j: int)
    requires
        0 <= i < j < cookie_parts(hs).len(),
        names_session(cookie_parts(hs)[i]),
        names_session(cookie_parts(hs)[j]),
    ensures
        spec_cookie_token(hs) is None,
{
    let ps = cookie_parts(hs);
    lemma_cookie_parts(hs);
    lemma_token_held(Some(None), ps, i, j);
    assert(ps.take(j + 1).drop_last() =~= ps.take(j));
    assert(ps.take(j + 1).last() == ps[j]);
    lemma_pairs_fold_none(Some(None), ps, j + 1);
}

} // verus!
