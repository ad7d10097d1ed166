//! The checks around semantic search: what text may be embedded, which resources a
//! vector query may be filtered to, which returned points are believed, and the
//! stable identifier of an indexed chunk. The vector service itself is reached by
//! the program around the library; these functions only see plain values.
use crate::application::Passage;
use crate::indexing::Chunk;
use crate::outgoing::UpstreamError;
use crate::policy::{find_resource, Resource};
use crate::retrieval::{
    lemma_text_lt_irreflexive, lemma_text_lt_total, lemma_text_lt_transitive, text_less, text_lt,
};
use crate::text::{
    chars_of, decimal, push_chars, push_decimal, same_text, slice_to_vec, spec_valid_id,
    string_of, trim, trimmed, valid_id,
};
use vstd::prelude::*;
use vstd::utf8::encode_utf8;

verus! {

/// The vector collection of the lab.
pub const COLLECTION: &'static str = "lab_semantic_documents";

/// The text sent for embedding: trimmed, not empty and at most 8000 characters.
pub fn embed_input(text: &str) -> (r: Result<String, UpstreamError>)
    ensures
        match r {
            Ok(s) => s@ == trim(text@) && 0 < s@.len() <= 8000,
            Err(_) => trim(text@).len() == 0 || trim(text@).len() > 8000,
        },
{
    let t = trimmed(&chars_of(text));
    if t.len() == 0 || t.len() > 8000 {
        return Err(UpstreamError);
    }
    Ok(string_of(&t))
}

/// The number of chunks that one embedding batch may hold.
pub fn batch_size_acceptable(n: usize) -> (r: bool)
    ensures
        r == (1 <= n <= 512),
{
    1 <= n && n <= 512
}

/// The identifiers of resources, in order.
pub open spec fn resource_ids(rs: Seq<&Resource>) -> Seq<Seq<char>> {
    rs.map_values(|r: &Resource| r.id@)
}

/// Texts in strictly increasing order, hence without repetition.
pub open spec fn strictly_sorted(s: Seq<Seq<char>>) -> bool {
    forall|i: int, j: int| 0 <= i < j < s.len() ==> text_lt(#[trigger] s[i], #[trigger] s[j])
}

/// Inserts `x` into a strictly sorted list of texts, unless it is already there.
fn insert_sorted(v: &mut Vec<String>, x: &str)
    requires
        strictly_sorted(old(v)@.map_values(|s: String| s@)),
    ensures
        strictly_sorted(final(v)@.map_values(|s: String| s@)),
        final(v)@.map_values(|s: String| s@).to_set() == old(v)@.map_values(|s: String| s@).to_set().insert(x@),
{
    let ghost before = v@.map_values(|s: String| s@);
    let xc = chars_of(x);
    let mut k: usize = 0;
    while k < v.len()
        invariant
            k <= v@.len(),
            v@.map_values(|s: String| s@) == before,
            strictly_sorted(before),
            xc@ == x@,
            forall|i: int| 0 <= i < k ==> text_lt(#[trigger] before[i], x@),
        ensures
            k <= v@.len(),
            forall|i: int| 0 <= i < k ==> text_lt(#[trigger] before[i], x@),
            k < v@.len() ==> !text_lt(before[k as int], x@),
        decreases v@.len() - k,
    {
        assert(before[k as int] == v@[k as int]@);
        if !text_less(&chars_of(v[k].as_str()), &xc) {
            break;
        }
        k = k + 1;
    }
    if k < v.len() && same_text(v[k].as_str(), x) {
        assert(before.to_set() =~= before.to_set().insert(x@)) by {
            assert(before[k as int] == x@);
        }
        return;
    }
    v.insert(k, string_of(&xc));
    proof {
        let after = v@.map_values(|s: String| s@);
        assert(after =~= before.insert(k as int, x@));
        if k < before.len() {
            assert(before[k as int] == v@[k as int + 1]@);
            assert(before[k as int] != x@);
            lemma_text_lt_total(before[k as int], x@);
            assert(text_lt(x@, before[k as int]));
        }
        assert forall|i: int, j: int| 0 <= i < j < after.len() implies text_lt(
            #[trigger] after[i],
            #[trigger] after[j],
        ) by {
            if j < k {
            } else if j == k {
            } else if i < k {
                if i < j - 1 {
                    assert(text_lt(before[i], x@));
                    assert(text_lt(x@, before[k as int]));
                    lemma_text_lt_transitive(before[i], x@, before[k as int]);
                    if k < j - 1 {
                        lemma_text_lt_transitive(before[i], before[k as int], before[j - 1]);
                    }
                } else {
                    assert(j - 1 == k);
                    lemma_text_lt_transitive(before[i], x@, before[k as int]);
                }
            } else if i == k {
                if j - 1 > k {
                    lemma_text_lt_transitive(x@, before[k as int], before[j - 1]);
                }
            } else {
                assert(text_lt(before[i - 1], before[j - 1]));
            }
        }
        assert(after.to_set() =~= before.to_set().insert(x@)) by {
            assert forall|y: Seq<char>| after.to_set().contains(y) implies before.to_set().insert(x@).contains(y) by {
                let i = choose|i: int| 0 <= i < after.len() && after[i] == y;
                if i < k {
                    assert(before[i] == y);
                } else if i > k {
                    assert(before[i - 1] == y);
                }
            }
            assert forall|y: Seq<char>| before.to_set().insert(x@).contains(y) implies after.to_set().contains(y) by {
                if y == x@ {
                    assert(after[k as int] == y);
                } else {
                    let i = choose|i: int| 0 <= i < before.len() && before[i] == y;
                    if i < k {
                        assert(after[i] == y);
                    } else {
                        assert(after[i + 1] == y);
                    }
                }
            }
        }
    }
}

/// The identifiers that a vector query is filtered to: those of the allowed
/// resources, in increasing order, each once. Any malformed identifier refuses the
/// query.
pub fn filter_ids(allowed: &[&Resource]) -> (r: Result<Vec<String>, UpstreamError>)
    ensures
        match r {
            Ok(v) => {
                &&& forall|i: int| 0 <= i < allowed@.len() ==> spec_valid_id(#[trigger] allowed@[i].id@)
                &&& strictly_sorted(v@.map_values(|s: String| s@))
                &&& v@.map_values(|s: String| s@).to_set() == resource_ids(allowed@).to_set()
            },
            Err(_) => exists|i: int| 0 <= i < allowed@.len() && !spec_valid_id(#[trigger] allowed@[i].id@),
        },
{
    let mut v: Vec<String> = Vec::new();
    let ghost ids = resource_ids(allowed@);
    assert(v@.map_values(|s: String| s@) =~= Seq::<Seq<char>>::empty());
    assert(ids.take(0).to_set() =~= Set::<Seq<char>>::empty());
    for k in 0..allowed.len()
        invariant
            ids == resource_ids(allowed@),
            strictly_sorted(v@.map_values(|s: String| s@)),
            v@.map_values(|s: String| s@).to_set() == ids.take(k as int).to_set(),
            forall|i: int| 0 <= i < k ==> spec_valid_id(#[trigger] allowed@[i].id@),
    {
        if !valid_id(allowed[k].id.as_str()) {
            return Err(UpstreamError);
        }
        insert_sorted(&mut v, allowed[k].id.as_str());
        assert(ids.take(k + 1) == ids.take(k as int).push(allowed@[k as int].id@));
        assert(ids.take(k + 1).to_set() =~= ids.take(k as int).to_set().insert(allowed@[k as int].id@)) by {
            let a = ids.take(k as int);
            assert forall|y: Seq<char>| a.push(allowed@[k as int].id@).to_set().contains(y) implies a.to_set().insert(allowed@[k as int].id@).contains(y) by {
                let i = choose|i: int| 0 <= i < a.len() + 1 && a.push(allowed@[k as int].id@)[i] == y;
                if i < a.len() {
                    assert(a[i] == y);
                }
            }
            assert forall|y: Seq<char>| a.to_set().insert(allowed@[k as int].id@).contains(y) implies a.push(allowed@[k as int].id@).to_set().contains(y) by {
                if y == allowed@[k as int].id@ {
                    assert(a.push(y)[a.len() as int] == y);
                } else {
                    let i = choose|i: int| 0 <= i < a.len() && a[i] == y;
                    assert(a.push(allowed@[k as int].id@)[i] == y);
                }
            }
        }
    }
    assert(ids.take(allowed@.len() as int) == ids);
    Ok(v)
}

/// A point returned by the vector service, as read from its reply: the payload's
/// `resource_id`, `classification` and `text` where they are strings, and whether
/// the score is a finite number.
pub struct ScoredPoint {
    pub resource_id: Option<String>,
    pub classification: Option<String>,
    pub text: Option<String>,
    pub finite_score: bool,
}

/// At most the first 500 characters of `t`.
pub open spec fn excerpt500(t: Seq<char>) -> Seq<char> {
    if t.len() <= 500 {
        t
    } else {
        t.take(500)
    }
}

/// The passage that a point gives, or `None` when it is not believed: its resource
/// must be one of the allowed ones, with the same classification, and its score finite.
pub open spec fn point_passage(allowed: Seq<&Resource>, p: ScoredPoint) -> Option<
    (Seq<char>, Seq<char>, Seq<char>),
> {
    match (p.resource_id, p.classification, p.text) {
        (Some(id), Some(c), Some(t)) => match find_resource(
            allowed.map_values(|r: &Resource| *r),
            id@,
        ) {
            Some(r) => if c@ == r.classification@ && p.finite_score {
                Some((id@, r.classification@, excerpt500(t@)))
            } else {
                None
            },
            None => None,
        },
        _ => None,
    }
}

/// Every point is believed.
pub open spec fn all_believed(allowed: Seq<&Resource>, points: Seq<ScoredPoint>) -> bool {
    forall|i: int| 0 <= i < points.len() ==> #[trigger] point_passage(allowed, points[i]) is Some
}

fn find_allowed<'a>(allowed: &[&'a Resource], id: &str) -> (r: Option<&'a Resource>)
    ensures
        match r {
            Some(x) => find_resource(allowed@.map_values(|r: &Resource| *r), id@) == Some(*x),
            None => find_resource(allowed@.map_values(|r: &Resource| *r), id@) is None,
        },
{
    let ghost s = allowed@.map_values(|r: &Resource| *r);
    assert(s.skip(0) == s);
    for k in 0..allowed.len()
        invariant
            s == allowed@.map_values(|r: &Resource| *r),
            find_resource(s, id@) == find_resource(s.skip(k as int), id@),
    {
        assert(s.skip(k as int)[0] == *allowed@[k as int]);
        assert(s.skip(k as int).drop_first() == s.skip(k + 1));
        if same_text(allowed[k].id.as_str(), id) {
            return Some(allowed[k]);
        }
    }
    None
}

/// The passages of a search reply: at most three points, each one believed; any
/// other reply is refused as a whole.
pub fn search_results(allowed: &[&Resource], points: &[ScoredPoint]) -> (r: Result<
    Vec<Passage>,
    UpstreamError,
>)
    ensures
        match r {
            Ok(v) => {
                &&& points@.len() <= 3
                &&& all_believed(allowed@, points@)
                &&& v@.len() == points@.len()
                &&& forall|i: int|
                    0 <= i < v@.len() ==> point_passage(allowed@, points@[i]) == Some(
                        #[trigger] v@[i]@,
                    )
            },
            Err(_) => points@.len() > 3 || !all_believed(allowed@, points@),
        },
{
    if points.len() > 3 {
        return Err(UpstreamError);
    }
    let mut out: Vec<Passage> = Vec::new();
    for k in 0..points.len()
        invariant
            points@.len() <= 3,
            out@.len() == k,
            forall|i: int| 0 <= i < k ==> #[trigger] point_passage(allowed@, points@[i]) is Some,
            forall|i: int|
                0 <= i < k ==> point_passage(allowed@, points@[i]) == Some(#[trigger] out@[i]@),
    {
        let p = &points[k];
        let (id, class, text) = match (&p.resource_id, &p.classification, &p.text) {
            (Some(id), Some(c), Some(t)) => (id, c, t),
            _ => {
                assert(point_passage(allowed@, points@[k as int]) is None);
                return Err(UpstreamError);
            },
        };
        let r = match find_allowed(allowed, id.as_str()) {
            Some(r) => r,
            None => {
                assert(point_passage(allowed@, points@[k as int]) is None);
                return Err(UpstreamError);
            },
        };
        if !same_text(class.as_str(), r.classification.as_str()) || !p.finite_score {
            assert(point_passage(allowed@, points@[k as int]) is None);
            return Err(UpstreamError);
        }
        let t = chars_of(text.as_str());
        let excerpt = if t.len() <= 500 {
            string_of(&t)
        } else {
            string_of(&slice_to_vec(&t, 0, 500))
        };
        assert(excerpt@ == excerpt500(text@));
        out.push(
            Passage {
                resource_id: string_of(&chars_of(id.as_str())),
                classification: string_of(&chars_of(r.classification.as_str())),
                excerpt,
            },
        );
    }
    Ok(out)
}

/// The namespace of the point identifiers.
pub open spec fn namespace() -> Seq<u8> {
    seq![
        0xc7u8,
        0x7cu8,
        0x3fu8,
        0xc0u8,
        0xbau8,
        0xa8u8,
        0x4bu8,
        0x0du8,
        0x9du8,
        0x7du8,
        0x9fu8,
        0x30u8,
        0xe4u8,
        0xfcu8,
        0xadu8,
        0x2du8,
    ]
}

/// The SHA-1 digest of `input`, as `aws_lc_rs` computes it.
pub uninterp spec fn sha1(input: Seq<u8>) -> Seq<u8>;

/// `aws_lc_rs::digest::digest` with `SHA1_FOR_LEGACY_USE_ONLY`: its 20 bytes, named `sha1`.
#[verifier::external_body]
fn sha1_digest(input: &[u8]) -> (r: Vec<u8>)
    ensures
        r@ == sha1(input@),
        r@.len() == 20,
{
    aws_lc_rs::digest::digest(&aws_lc_rs::digest::SHA1_FOR_LEGACY_USE_ONLY, input).as_ref().to_vec()
}

/// The name hashed for a chunk: `resource_id:chunk_id:text`.
pub open spec fn point_name(c: Chunk) -> Seq<char> {
    c.resource_id@ + ":"@ + decimal(c.chunk_id as nat) + ":"@ + c.text@
}

/// The 16 bytes of a chunk's identifier: the first bytes of the SHA-1 digest of the
/// namespace and the name, with the version (5) and variant bits of a name-based UUID.
pub open spec fn uuid_bytes(c: Chunk) -> Seq<u8> {
    let d = sha1(namespace() + encode_utf8(point_name(c)));
    d.take(16).update(6, (d[6] & 0x0fu8) | 0x50u8).update(8, (d[8] & 0x3fu8) | 0x80u8)
}

/// The small hexadecimal digit of `n`, from 0 to 15.
pub open spec fn hex_digit(n: int) -> char {
    if n < 10 {
        (n + 48) as char
    } else {
        (n + 87) as char
    }
}

/// The bytes in small hexadecimal, two digits each.
pub open spec fn hex_text(bs: Seq<u8>) -> Seq<char>
    decreases bs.len(),
{
    if bs.len() == 0 {
        seq![]
    } else {
        hex_text(bs.drop_last()) + seq![hex_digit((bs.last() / 16) as int), hex_digit((bs.last() % 16) as int)]
    }
}

/// The hyphenated form of 16 bytes: 8-4-4-4-12 hexadecimal digits.
pub open spec fn uuid_text(bs: Seq<u8>) -> Seq<char> {
    let h = hex_text(bs);
    h.subrange(0, 8) + "-"@ + h.subrange(8, 12) + "-"@ + h.subrange(12, 16) + "-"@ + h.subrange(
        16,
        20,
    ) + "-"@ + h.subrange(20, 32)
}

proof fn lemma_hex_len(bs: Seq<u8>)
    ensures
        hex_text(bs).len() == 2 * bs.len(),
    decreases bs.len(),
{
    if bs.len() > 0 {
        lemma_hex_len(bs.drop_last());
    }
}

fn hex_char(n: u8) -> (r: char)
    requires
        n < 16,
    ensures
        r == hex_digit(n as int),
{
    match n {
        0 => '0',
        1 => '1',
        2 => '2',
        3 => '3',
        4 => '4',
        5 => '5',
        6 => '6',
        7 => '7',
        8 => '8',
        9 => '9',
        10 => 'a',
        11 => 'b',
        12 => 'c',
        13 => 'd',
        14 => 'e',
        _ => 'f',
    }
}

/// The stable identifier of an indexed chunk in the vector collection: a name-based
/// (version 5) UUID of the chunk's resource, number and text.
pub fn point_id(chunk: &Chunk) -> (r: String)
    ensures
        r@ == uuid_text(uuid_bytes(*chunk)),
{
    let mut name = String::new();
    push_chars(&mut name, &chars_of(chunk.resource_id.as_str()));
    push_chars(&mut name, &chars_of(":"));
    push_decimal(&mut name, chunk.chunk_id as u64);
    push_chars(&mut name, &chars_of(":"));
    push_chars(&mut name, &chars_of(chunk.text.as_str()));
    assert(name@ == point_name(*chunk));
    let namespace_bytes: [u8; 16] = [
        0xc7, 0x7c, 0x3f, 0xc0, 0xba, 0xa8, 0x4b, 0x0d, 0x9d, 0x7d, 0x9f, 0x30, 0xe4, 0xfc,
        0xad, 0x2d,
    ];
    assert(namespace_bytes@ =~= namespace());
    let bytes = name.as_str().as_bytes();
    let mut input: Vec<u8> = Vec::new();
    for i in 0..16
        invariant
            input@ == namespace_bytes@.take(i as int),
    {
        input.push(namespace_bytes[i]);
        assert(namespace_bytes@.take(i + 1) == namespace_bytes@.take(i as int).push(
            namespace_bytes@[i as int],
        ));
    }
    assert(namespace_bytes@.take(16) == namespace_bytes@);
    for i in 0..bytes.len()
        invariant
            input@ == namespace() + bytes@.take(i as int),
    {
        input.push(bytes[i]);
        assert(bytes@.take(i + 1) == bytes@.take(i as int).push(bytes@[i as int]));
    }
    assert(bytes@.take(bytes@.len() as int) == bytes@);
    let digest = sha1_digest(&input);
    let ghost d = digest@;
    let mut id: Vec<u8> = slice_to_bytes(&digest, 16);
    let six = (id[6] & 0x0f) | 0x50;
    id.set(6, six);
    let eight = (id[8] & 0x3f) | 0x80;
    id.set(8, eight);
    assert(id@ == uuid_bytes(*chunk));
    let mut hex: Vec<char> = Vec::new();
    for i in 0..16
        invariant
            id@.len() == 16,
            hex@ == hex_text(id@.take(i as int)),
    {
        assert(id@.take(i + 1).drop_last() == id@.take(i as int));
        hex.push(hex_char(id[i] / 16));
        hex.push(hex_char(id[i] % 16));
        assert(hex@ =~= hex_text(id@.take(i + 1)));
    }
    assert(id@.take(16) == id@);
    proof {
        lemma_hex_len(id@);
    }
    let mut s = String::new();
    push_chars(&mut s, &slice_to_vec(&hex, 0, 8));
    push_chars(&mut s, &chars_of("-"));
    push_chars(&mut s, &slice_to_vec(&hex, 8, 12));
    push_chars(&mut s, &chars_of("-"));
    push_chars(&mut s, &slice_to_vec(&hex, 12, 16));
    push_chars(&mut s, &chars_of("-"));
    push_chars(&mut s, &slice_to_vec(&hex, 16, 20));
    push_chars(&mut s, &chars_of("-"));
    push_chars(&mut s, &slice_to_vec(&hex, 20, 32));
    s
}

fn slice_to_bytes(v: &[u8], n: usize) -> (r: Vec<u8>)
    requires
        n <= v@.len(),
    ensures
        r@ == v@.take(n as int),
{
    let mut r: Vec<u8> = Vec::new();
    for i in 0..n
        invariant
            n <= v@.len(),
            r@ == v@.take(i as int),
    {
        r.push(v[i]);
        assert(v@.take(i + 1) == v@.take(i as int).push(v@[i as int]));
    }
    r
}

} // verus!
