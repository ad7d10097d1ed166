//! Lexical retrieval: document bodies, word sets, scores, excerpts and ranking.
use crate::text::{
    chars_of, is_whitespace, join, join_vecs, lines, lines_of, seq_eq, slice_to_vec, split_ws,
    split_ws_of, string_of, trim, trimmed,
};
use vstd::prelude::*;

verus! {

broadcast use {vstd::set::group_set_axioms, vstd::seq_lib::group_seq_properties};

/// `char::is_alphanumeric`: the Unicode `Alphabetic` or `Numeric` property.
pub uninterp spec fn alphanumeric(c: char) -> bool;

/// `str::to_lowercase`: the Unicode lowercase mapping of a text.
pub uninterp spec fn lowercase(s: Seq<char>) -> Seq<char>;

/// `char::is_alphanumeric`: whether `c` has the Unicode `Alphabetic` or `Numeric`
/// property, by the tables of the standard library. Its answer is named
/// `alphanumeric`; nothing else is claimed of it.
#[verifier::external_body]
fn is_alphanumeric(c: char) -> (r: bool)
    ensures
        r == alphanumeric(c),
{
    c.is_alphanumeric()
}

/// `str::to_lowercase`: the Unicode lowercase mapping of `s`, by the tables of the
/// standard library. Its answer is named `lowercase`; nothing else is claimed of it.
#[verifier::external_body]
fn to_lowercase(s: &str) -> (r: String)
    ensures
        r@ == lowercase(s@),
{
    s.to_lowercase()
}

/// The first index `k >= from` with `ls[k] == "---"`.
pub open spec fn closing_line(ls: Seq<Seq<char>>, from: int) -> Option<int>
    decreases ls.len() - from,
{
    if from < 0 || from >= ls.len() {
        None
    } else if ls[from] == "---"@ {
        Some(from)
    } else {
        closing_line(ls, from + 1)
    }
}

/// The body of a document: the text after a `---` front-matter block closed by a
/// `---` line, trimmed; a document without a closed front matter is trimmed whole.
pub open spec fn spec_document_body(content: Seq<char>) -> Seq<char> {
    let ls = lines(content);
    if ls.len() > 0 && ls[0] == "---"@ && closing_line(ls, 1) is Some {
        trim(join(ls.skip(closing_line(ls, 1)->0 + 1), "\n"@))
    } else {
        trim(content)
    }
}

/// The body of a document, front matter removed.
pub fn document_body(content: &str) -> (r: String)
    ensures
        r@ == spec_document_body(content@),
{
    let v = chars_of(content);
    let ls = lines_of(&v);
    let ghost lv = ls@.map_values(|l: Vec<char>| l@);
    let dashes = chars_of("---");
    if ls.len() > 0 && seq_eq(&ls[0], &dashes) {
        assert(lv[0] == ls@[0]@);
        let mut k: usize = 1;
        while k < ls.len()
            invariant
                1 <= k <= ls@.len(),
                lv == ls@.map_values(|l: Vec<char>| l@),
                lv == lines(v@),
                v@ == content@,
                dashes@ == "---"@,
                lv.len() > 0 && lv[0] == "---"@,
                closing_line(lv, 1) == closing_line(lv, k as int),
            decreases ls@.len() - k,
        {
            assert(lv[k as int] == ls@[k as int]@);
            if seq_eq(&ls[k], &dashes) {
                assert(closing_line(lv, k as int) == Some(k as int));
                let mut rest: Vec<Vec<char>> = Vec::new();
                let mut j = k + 1;
                while j < ls.len()
                    invariant
                        k < j <= ls@.len(),
                        lv == ls@.map_values(|l: Vec<char>| l@),
                        rest@.len() == j - (k + 1),
                        forall|t: int| 0 <= t < rest@.len() ==> (#[trigger] rest@[t])@ == lv[k + 1 + t],
                    decreases ls@.len() - j,
                {
                    assert(lv[j as int] == ls@[j as int]@);
                    let line = slice_to_vec(&ls[j], 0, ls[j].len());
                    assert(line@ =~= lv[j as int]);
                    rest.push(line);
                    j = j + 1;
                }
                assert(rest@.map_values(|l: Vec<char>| l@) =~= lv.skip(k + 1));
                let nl = chars_of("\n");
                let joined = join_vecs(&rest, &nl);
                let body = trimmed(&joined);
                assert(lv.len() > 0 && lv[0] == "---"@);
                return string_of(&body);
            }
            k = k + 1;
        }
        assert(closing_line(lv, k as int) is None);
    }
    let body = trimmed(&v);
    string_of(&body)
}

/// A character that belongs to a word: alphanumeric or `_`.
pub open spec fn word_char(c: char) -> bool {
    alphanumeric(c) || c == '_'
}

/// Word splitting state after reading `s`: the kept pieces (two characters or more)
/// and the open piece.
pub open spec fn pieces_acc(s: Seq<char>) -> (Seq<Seq<char>>, Seq<char>)
    decreases s.len(),
{
    if s.len() == 0 {
        (seq![], seq![])
    } else {
        let (done, cur) = pieces_acc(s.drop_last());
        if word_char(s.last()) {
            (done, cur.push(s.last()))
        } else if cur.len() >= 2 {
            (done.push(cur), seq![])
        } else {
            (done, seq![])
        }
    }
}

/// The pieces of `s` between non-word characters that have at least two characters.
pub open spec fn pieces(s: Seq<char>) -> Seq<Seq<char>> {
    let (done, cur) = pieces_acc(s);
    if cur.len() >= 2 {
        done.push(cur)
    } else {
        done
    }
}

/// The set of lowercased words of `s`.
pub open spec fn spec_tokens(s: Seq<char>) -> Set<Seq<char>> {
    pieces(s).map_values(|p: Seq<char>| lowercase(p)).to_set()
}

/// The pieces of `v`.
fn pieces_of(v: &[char]) -> (r: Vec<Vec<char>>)
    ensures
        r@.map_values(|l: Vec<char>| l@) == pieces(v@),
{
    let mut done: Vec<Vec<char>> = Vec::new();
    let mut cur: Vec<char> = Vec::new();
    for i in 0..v.len()
        invariant
            (done@.map_values(|l: Vec<char>| l@), cur@) == pieces_acc(v@.take(i as int)),
    {
        assert(v@.take(i + 1).drop_last() == v@.take(i as int));
        let c = v[i];
        if is_alphanumeric(c) || c == '_' {
            cur.push(c);
        } else {
            if cur.len() >= 2 {
                done.push(cur);
                assert(done@.map_values(|l: Vec<char>| l@) =~= pieces_acc(
                    v@.take(i as int),
                ).0.push(pieces_acc(v@.take(i as int)).1));
            }
            cur = Vec::new();
        }
    }
    assert(v@.take(v.len() as int) == v@);
    if cur.len() >= 2 {
        done.push(cur);
        assert(done@.map_values(|l: Vec<char>| l@) =~= pieces_acc(v@).0.push(pieces_acc(v@).1));
    }
    done
}

/// The texts of a list of character vectors.
pub open spec fn vtexts(v: Seq<Vec<char>>) -> Seq<Seq<char>> {
    v.map_values(|l: Vec<char>| l@)
}

/// Whether `v` holds a vector with the characters of `x`.
fn contains_vec(v: &Vec<Vec<char>>, x: &[char]) -> (r: bool)
    ensures
        r == vtexts(v@).contains(x@),
{
    for i in 0..v.len()
        invariant
            forall|k: int| 0 <= k < i ==> (#[trigger] v@[k])@ != x@,
    {
        if seq_eq(&v[i], x) {
            assert(vtexts(v@)[i as int] == x@);
            return true;
        }
    }
    false
}

/// The distinct lowercased words of `v`, each once.
pub fn words(v: &[char]) -> (r: Vec<Vec<char>>)
    ensures
        vtexts(r@).no_duplicates(),
        vtexts(r@).to_set() == spec_tokens(v@),
{
    let ps = pieces_of(v);
    let ghost lows = pieces(v@).map_values(|p: Seq<char>| lowercase(p));
    let mut r: Vec<Vec<char>> = Vec::new();
    for i in 0..ps.len()
        invariant
            vtexts(ps@) == pieces(v@),
            lows == pieces(v@).map_values(|p: Seq<char>| lowercase(p)),
            vtexts(r@).no_duplicates(),
            vtexts(r@).to_set() == lows.take(i as int).to_set(),
    {
        let s = string_of(&ps[i]);
        let low = chars_of(to_lowercase(s.as_str()).as_str());
        assert(low@ == lows[i as int]) by {
            assert(vtexts(ps@)[i as int] == ps@[i as int]@);
        }
        assert(lows.take(i + 1) == lows.take(i as int).push(lows[i as int]));
        proof {
            lemma_push_to_set(lows.take(i as int), lows[i as int]);
        }
        if !contains_vec(&r, &low) {
            let ghost before = vtexts(r@);
            r.push(low);
            proof {
                assert(vtexts(r@) == before.push(low@));
                lemma_push_to_set(before, low@);
                lemma_push_no_dup(before, low@);
            }
        } else {
            assert(lows.take(i as int).to_set().contains(low@));
            assert(lows.take(i + 1).to_set() =~= lows.take(i as int).to_set());
        }
    }
    assert(lows.take(ps@.len() as int) == lows);
    r
}

pub proof fn lemma_push_to_set(s: Seq<Seq<char>>, x: Seq<char>)
    ensures
        s.push(x).to_set() == s.to_set().insert(x),
{
    assert(s.push(x).to_set() =~= s.to_set().insert(x)) by {
        assert forall|y: Seq<char>| s.push(x).to_set().contains(y) implies s.to_set().insert(
            x,
        ).contains(y) by {
            let k = choose|k: int| 0 <= k < s.push(x).len() && s.push(x)[k] == y;
            if k < s.len() {
                assert(s[k] == y);
            }
        }
        assert forall|y: Seq<char>| s.to_set().insert(x).contains(y) implies s.push(
            x,
        ).to_set().contains(y) by {
            if y == x {
                assert(s.push(x)[s.len() as int] == x);
            } else {
                let k = choose|k: int| 0 <= k < s.len() && s[k] == y;
                assert(s.push(x)[k] == y);
            }
        }
    }
}

pub proof fn lemma_push_no_dup(s: Seq<Seq<char>>, x: Seq<char>)
    requires
        s.no_duplicates(),
        !s.contains(x),
    ensures
        s.push(x).no_duplicates(),
{
    assert forall|i: int, j: int|
        0 <= i < s.push(x).len() && 0 <= j < s.push(x).len() && i != j implies s.push(x)[i]
        != s.push(x)[j] by {
        if i < s.len() && j < s.len() {
            assert(s.push(x)[i] == s[i]);
            assert(s.push(x)[j] == s[j]);
        } else if i < s.len() {
            assert(s.push(x)[i] == s[i]);
        } else {
            assert(s.push(x)[j] == s[j]);
        }
    }
}

/// How many elements of `a` belong to `b`.
pub open spec fn count_in(a: Seq<Seq<char>>, b: Set<Seq<char>>) -> nat
    decreases a.len(),
{
    if a.len() == 0 {
        0
    } else {
        count_in(a.drop_last(), b) + if b.contains(a.last()) {
            1nat
        } else {
            0nat
        }
    }
}

/// For a list without repetition, counting its members of `b` gives the size of the
/// intersection of its set with `b`.
pub proof fn lemma_count_in(a: Seq<Seq<char>>, b: Set<Seq<char>>)
    requires
        a.no_duplicates(),
    ensures
        count_in(a, b) == a.to_set().intersect(b).len(),
        a.to_set().intersect(b).finite(),
    decreases a.len(),
{
    if a.len() == 0 {
        assert(a.to_set().intersect(b) =~= Set::<Seq<char>>::empty());
    } else {
        let p = a.drop_last();
        let x = a.last();
        assert(p.no_duplicates());
        lemma_count_in(p, b);
        assert(a == p.push(x));
        lemma_push_to_set(p, x);
        assert(!p.contains(x)) by {
            if p.contains(x) {
                let k = choose|k: int| 0 <= k < p.len() && p[k] == x;
                assert(a[k] == a[a.len() - 1]);
            }
        }
        if b.contains(x) {
            assert(a.to_set().intersect(b) =~= p.to_set().intersect(b).insert(x));
        } else {
            assert(a.to_set().intersect(b) =~= p.to_set().intersect(b));
        }
    }
}

/// The number of distinct words shared by the query words and the text.
pub open spec fn spec_score(query_tokens: Set<Seq<char>>, text: Seq<char>) -> nat {
    query_tokens.intersect(spec_tokens(text)).len()
}

/// The number of query words (given without repetition) found among the words of `body`.
pub fn score(query_tokens: &Vec<Vec<char>>, body: &[char]) -> (r: usize)
    requires
        vtexts(query_tokens@).no_duplicates(),
    ensures
        r == spec_score(vtexts(query_tokens@).to_set(), body@),
{
    let body_words = words(body);
    let ghost a = vtexts(query_tokens@);
    let ghost b = spec_tokens(body@);
    let mut n: usize = 0;
    for i in 0..query_tokens.len()
        invariant
            a == vtexts(query_tokens@),
            b == spec_tokens(body@),
            vtexts(body_words@).to_set() == b,
            n == count_in(a.take(i as int), b),
            n <= i,
    {
        assert(a.take(i + 1).drop_last() == a.take(i as int));
        assert(a.take(i + 1).last() == query_tokens@[i as int]@);
        if contains_vec(&body_words, &query_tokens[i]) {
            n = n + 1;
        }
    }
    proof {
        assert(a.take(a.len() as int) == a);
        lemma_count_in(a, b);
        assert(a.to_set().intersect(b) == vtexts(query_tokens@).to_set().intersect(
            spec_tokens(body@),
        ));
    }
    n
}

/// At most the first 500 characters of the body, whitespace runs reduced to one space.
pub open spec fn spec_excerpt(body: Seq<char>) -> Seq<char> {
    let normalized = join(split_ws(body), " "@);
    if normalized.len() <= 500 {
        normalized
    } else {
        normalized.take(500)
    }
}

pub fn excerpt(body: &[char]) -> (r: Vec<char>)
    ensures
        r@ == spec_excerpt(body@),
{
    let words = split_ws_of(body);
    let space = chars_of(" ");
    let normalized = join_vecs(&words, &space);
    if normalized.len() <= 500 {
        normalized
    } else {
        slice_to_vec(&normalized, 0, 500)
    }
}

/// Lexicographic order on texts, character by character (the order of `str`
/// comparison, since UTF-8 preserves the order of code points).
pub open spec fn text_lt(a: Seq<char>, b: Seq<char>) -> bool
    decreases a.len(),
{
    if a.len() == 0 {
        b.len() > 0
    } else if b.len() == 0 {
        false
    } else if a[0] != b[0] {
        a[0] < b[0]
    } else {
        text_lt(a.drop_first(), b.drop_first())
    }
}

/// No text comes before itself.
pub proof fn lemma_text_lt_irreflexive(a: Seq<char>)
    ensures
        !text_lt(a, a),
    decreases a.len(),
{
    if a.len() > 0 {
        lemma_text_lt_irreflexive(a.drop_first());
    }
}

/// The order of texts is transitive.
pub proof fn lemma_text_lt_transitive(a: Seq<char>, b: Seq<char>, c: Seq<char>)
    requires
        text_lt(a, b),
        text_lt(b, c),
    ensures
        text_lt(a, c),
    decreases a.len(),
{
    if a.len() > 0 && b.len() > 0 && c.len() > 0 && a[0] == b[0] && b[0] == c[0] {
        lemma_text_lt_transitive(a.drop_first(), b.drop_first(), c.drop_first());
    }
}

/// Of two different texts, one comes before the other.
pub proof fn lemma_text_lt_total(a: Seq<char>, b: Seq<char>)
    requires
        a != b,
    ensures
        text_lt(a, b) || text_lt(b, a),
    decreases a.len(),
{
    if a.len() > 0 && b.len() > 0 && a[0] == b[0] {
        if a.drop_first() == b.drop_first() {
            assert(a =~= seq![a[0]] + a.drop_first());
            assert(b =~= seq![b[0]] + b.drop_first());
        }
        lemma_text_lt_total(a.drop_first(), b.drop_first());
    } else if a.len() > 0 && b.len() > 0 {
        assert(a[0] != b[0]);
    } else if a.len() == 0 && b.len() == 0 {
        assert(a =~= b);
    }
}

pub fn text_less(a: &[char], b: &[char]) -> (r: bool)
    ensures
        r == text_lt(a@, b@),
{
    let mut i: usize = 0;
    while i < a.len() && i < b.len()
        invariant
            i <= a@.len(),
            i <= b@.len(),
            text_lt(a@, b@) == text_lt(a@.skip(i as int), b@.skip(i as int)),
        decreases a@.len() - i,
    {
        assert(a@.skip(i as int)[0] == a@[i as int]);
        assert(b@.skip(i as int)[0] == b@[i as int]);
        if a[i] != b[i] {
            return a[i] < b[i];
        }
        assert(a@.skip(i as int).drop_first() == a@.skip(i + 1));
        assert(b@.skip(i as int).drop_first() == b@.skip(i + 1));
        i = i + 1;
    }
    i == a.len() && i < b.len()
}

/// A retrieval candidate: its score and its passage (resource, classification, excerpt).
pub type Ranked = (nat, (Seq<char>, Seq<char>, Seq<char>));

/// `a` comes before `b`: a higher score, or the same score and a smaller resource id.
pub open spec fn ranks_before(a: Ranked, b: Ranked) -> bool {
    a.0 > b.0 || (a.0 == b.0 && text_lt(a.1.0, b.1.0))
}

/// Inserts `x` into the ranked list `s` after every element that `x` does not precede.
pub open spec fn insert_ranked(s: Seq<Ranked>, x: Ranked) -> Seq<Ranked>
    decreases s.len(),
{
    if s.len() == 0 {
        seq![x]
    } else if ranks_before(x, s.last()) {
        insert_ranked(s.drop_last(), x).push(s.last())
    } else {
        s.push(x)
    }
}

/// `s` sorted by `ranks_before`, elements that neither precedes keeping their order.
pub open spec fn rank(s: Seq<Ranked>) -> Seq<Ranked>
    decreases s.len(),
{
    if s.len() == 0 {
        seq![]
    } else {
        insert_ranked(rank(s.drop_last()), s.last())
    }
}

/// The first `n` elements of `s` (all of them when there are fewer).
pub open spec fn first_n<T>(s: Seq<T>, n: nat) -> Seq<T> {
    if s.len() <= n {
        s
    } else {
        s.take(n as int)
    }
}

/// The ranked views of exec candidates.
pub open spec fn ranked_view(v: Seq<(usize, crate::application::Passage)>) -> Seq<Ranked> {
    v.map_values(|c: (usize, crate::application::Passage)| (c.0 as nat, c.1@))
}

proof fn lemma_insert_at(s: Seq<Ranked>, x: Ranked, j: int)
    requires
        0 <= j <= s.len(),
        j == 0 || !ranks_before(x, s[j - 1]),
        forall|t: int| j <= t < s.len() ==> ranks_before(x, #[trigger] s[t]),
    ensures
        insert_ranked(s, x) == s.insert(j, x),
    decreases s.len(),
{
    if s.len() == 0 {
        assert(s.insert(j, x) =~= seq![x]);
    } else if j == s.len() {
        assert(!ranks_before(x, s.last()));
        assert(s.insert(j, x) =~= s.push(x));
    } else {
        assert(ranks_before(x, s.last()));
        let p = s.drop_last();
        assert forall|t: int| j <= t < p.len() implies ranks_before(x, #[trigger] p[t]) by {
            assert(p[t] == s[t]);
        }
        lemma_insert_at(p, x, j);
        assert(p.insert(j, x).push(s.last()) =~= s.insert(j, x));
    }
}

/// Whether a candidate with this score and resource id ranks before `other`.
fn precedes(score: usize, id: &[char], other: &(usize, crate::application::Passage)) -> (r: bool)
    ensures
        r == ranks_before((score as nat, (id@, seq![], seq![])), (other.0 as nat, other.1@)),
{
    let oid = chars_of(other.1.resource_id.as_str());
    score > other.0 || (score == other.0 && text_less(id, &oid))
}

/// Inserts a candidate at its ranked place.
pub fn insert_candidate(
    v: &mut Vec<(usize, crate::application::Passage)>,
    x: (usize, crate::application::Passage),
)
    ensures
        ranked_view(final(v)@) == insert_ranked(ranked_view(old(v)@), (x.0 as nat, x.1@)),
{
    let ghost s = ranked_view(v@);
    let ghost xv: Ranked = (x.0 as nat, x.1@);
    let xid = chars_of(x.1.resource_id.as_str());
    let mut j = v.len();
    while j > 0 && precedes(x.0, &xid, &v[j - 1])
        invariant
            j <= v@.len(),
            s == ranked_view(v@),
            xv == (x.0 as nat, x.1@),
            xid@ == x.1.resource_id@,
            forall|t: int| j <= t < s.len() ==> ranks_before(xv, #[trigger] s[t]),
        decreases j,
    {
        j = j - 1;
    }
    proof {
        if j > 0 {
            assert(s[j - 1] == (v@[j - 1].0 as nat, v@[j - 1].1@));
        }
        lemma_insert_at(s, xv, j as int);
    }
    v.insert(j, x);
    assert(ranked_view(v@) =~= s.insert(j as int, xv));
}

/// `a` may come before `b` in a ranking: a higher score, or the same score and a
/// resource id that does not come after `b`'s.
pub open spec fn score_first(a: Ranked, b: Ranked) -> bool {
    a.0 > b.0 || (a.0 == b.0 && !text_lt(b.1.0, a.1.0))
}

/// Candidates by non-increasing score, ties by increasing resource id.
pub open spec fn best_first(s: Seq<Ranked>) -> bool {
    forall|i: int, j: int| 0 <= i < j < s.len() ==> score_first(#[trigger] s[i], #[trigger] s[j])
}

proof fn lemma_score_first_transitive(a: Ranked, b: Ranked, c: Ranked)
    requires
        score_first(a, b),
        score_first(b, c),
    ensures
        score_first(a, c),
{
    if a.0 == b.0 && b.0 == c.0 && text_lt(c.1.0, a.1.0) {
        if a.1.0 == b.1.0 {
            assert(text_lt(c.1.0, b.1.0));
        } else {
            lemma_text_lt_total(a.1.0, b.1.0);
            lemma_text_lt_transitive(c.1.0, a.1.0, b.1.0);
        }
    }
}

proof fn lemma_ranks_before_score_first(a: Ranked, b: Ranked)
    ensures
        ranks_before(a, b) ==> score_first(a, b),
        !ranks_before(a, b) ==> score_first(b, a),
{
    if ranks_before(a, b) && a.0 == b.0 && text_lt(b.1.0, a.1.0) {
        lemma_text_lt_transitive(a.1.0, b.1.0, a.1.0);
        lemma_text_lt_irreflexive(a.1.0);
    }
}

proof fn lemma_insert_ranked(s: Seq<Ranked>, x: Ranked)
    requires
        best_first(s),
    ensures
        best_first(insert_ranked(s, x)),
        insert_ranked(s, x).to_multiset() == s.to_multiset().insert(x),
    decreases s.len(),
{
    broadcast use vstd::seq_lib::group_to_multiset_ensures;

    if s.len() == 0 {
        assert(seq![x] == Seq::<Ranked>::empty().push(x));
    } else {
        let p = s.drop_last();
        let l = s.last();
        assert(s == p.push(l));
        lemma_ranks_before_score_first(x, l);
        if ranks_before(x, l) {
            assert forall|i: int, j: int| 0 <= i < j < p.len() implies score_first(#[trigger] p[i], #[trigger] p[j]) by {
                assert(p[i] == s[i] && p[j] == s[j]);
            }
            lemma_insert_ranked(p, x);
            let q = insert_ranked(p, x);
            let r = q.push(l);
            assert forall|i: int, j: int| 0 <= i < j < r.len() implies score_first(#[trigger] r[i], #[trigger] r[j]) by {
                if j == q.len() {
                    assert(r[j] == l);
                    assert(r[i] == q[i]);
                    assert(q.to_multiset().count(q[i]) > 0);
                    if q[i] != x {
                        assert(p.to_multiset().count(q[i]) > 0);
                        let k = choose|k: int| 0 <= k < p.len() && p[k] == q[i];
                        assert(s[k] == p[k]);
                        assert(score_first(s[k], s[s.len() - 1]));
                    }
                } else {
                    assert(r[i] == q[i] && r[j] == q[j]);
                }
            }
        } else {
            let r = s.push(x);
            assert forall|i: int, j: int| 0 <= i < j < r.len() implies score_first(#[trigger] r[i], #[trigger] r[j]) by {
                if j == s.len() {
                    assert(r[j] == x);
                    assert(r[i] == s[i]);
                    if i < s.len() - 1 {
                        assert(score_first(s[i], s[s.len() - 1]));
                        lemma_score_first_transitive(s[i], l, x);
                    }
                } else {
                    assert(r[i] == s[i] && r[j] == s[j]);
                }
            }
        }
    }
}

/// Ranking orders candidates by non-increasing score, ties by increasing resource
/// id, and keeps every candidate exactly as often as it was given.
pub proof fn lemma_rank(s: Seq<Ranked>)
    ensures
        best_first(rank(s)),
        rank(s).to_multiset() == s.to_multiset(),
    decreases s.len(),
{
    broadcast use vstd::seq_lib::group_to_multiset_ensures;

    if s.len() > 0 {
        lemma_rank(s.drop_last());
        lemma_insert_ranked(rank(s.drop_last()), s.last());
        assert(s == s.drop_last().push(s.last()));
    }
}

/// `a` comes before `b` in code point order: at the first position where they
/// differ `a` has the smaller character, or `a` is a proper prefix of `b`.
pub open spec fn code_point_before(a: Seq<char>, b: Seq<char>, k: int) -> bool {
    &&& 0 <= k <= a.len()
    &&& k <= b.len()
    &&& a.take(k) == b.take(k)
    &&& (k == a.len() && k < b.len()) || (k < a.len() && k < b.len() && a[k] < b[k])
}

/// The order of resource identifiers is the code point order of `str`.
pub proof fn law_text_order_is_code_point_order(a: Seq<char>, b: Seq<char>)
    ensures
        text_lt(a, b) <==> exists|k: int| #[trigger] code_point_before(a, b, k),
    decreases a.len(),
{
    if a.len() == 0 {
        if b.len() > 0 {
            assert(a.take(0) =~= b.take(0));
            assert(code_point_before(a, b, 0));
        }
    } else if b.len() == 0 {
    } else if a[0] != b[0] {
        if a[0] < b[0] {
            assert(a.take(0) =~= b.take(0));
            assert(code_point_before(a, b, 0));
        }
        assert forall|k: int| !code_point_before(a, b, k) || a[0] < b[0] by {
            if code_point_before(a, b, k) && k > 0 {
                assert(a.take(k)[0] == b.take(k)[0]);
            }
        }
    } else {
        let a1 = a.drop_first();
        let b1 = b.drop_first();
        law_text_order_is_code_point_order(a1, b1);
        if text_lt(a1, b1) {
            let k = choose|k: int| code_point_before(a1, b1, k);
            assert(a.take(k + 1) =~= seq![a[0]] + a1.take(k));
            assert(b.take(k + 1) =~= seq![b[0]] + b1.take(k));
            assert(code_point_before(a, b, k + 1));
        }
        assert forall|k: int| code_point_before(a, b, k) implies text_lt(a1, b1) by {
            if k == 0 {
                assert(a[0] < b[0]);
            } else {
                assert(a1.take(k - 1) =~= a.take(k).drop_first());
                assert(b1.take(k - 1) =~= b.take(k).drop_first());
                assert(code_point_before(a1, b1, k - 1));
            }
        }
    }
}

} // verus!
