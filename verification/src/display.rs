//! What the browser page shows of the API's answers. The page decides no right: it
//! only checks an identifier's form before asking, and the API checks again.
use crate::contracts::{ChatResponse, SearchResult};
use crate::text::{chars_of, is_id_char, join, join_vecs, push_chars, string_of};
use vstd::prelude::*;

verus! {

/// A document identifier worth sending: not empty, made of small ASCII letters,
/// digits and hyphens.
pub open spec fn spec_document_id_acceptable(id: Seq<char>) -> bool {
    id.len() > 0 && forall|i: int| 0 <= i < id.len() ==> is_id_char(#[trigger] id[i])
}

/// Whether the page sends a read request for `id`.
pub fn document_id_acceptable(id: &str) -> (r: bool)
    ensures
        r == spec_document_id_acceptable(id@),
{
    let v = chars_of(id);
    if v.len() == 0 {
        return false;
    }
    for i in 0..v.len()
        invariant
            v@ == id@,
            forall|j: int| 0 <= j < i ==> is_id_char(#[trigger] v@[j]),
    {
        let c = v[i];
        if !(('a' <= c && c <= 'z') || ('0' <= c && c <= '9') || c == '-') {
            return false;
        }
    }
    true
}

/// One search result as shown: `id (classification)`, then the excerpt on its own line.
pub open spec fn result_block(r: SearchResult) -> Seq<char> {
    r.resource_id@ + " ("@ + r.classification@ + ")\n"@ + r.excerpt@
}

/// The search results as shown, separated by a blank line; a fixed notice when there
/// are none.
pub open spec fn spec_results_text(rs: Seq<SearchResult>) -> Seq<char> {
    let t = join(rs.map_values(|r: SearchResult| result_block(r)), "\n\n"@);
    if t.len() == 0 {
        "Aucun extrait autorisé trouvé."@
    } else {
        t
    }
}

/// The text shown for a search answer.
pub fn results_text(results: &[SearchResult]) -> (r: String)
    ensures
        r@ == spec_results_text(results@),
{
    let mut blocks: Vec<Vec<char>> = Vec::new();
    for k in 0..results.len()
        invariant
            blocks@.map_values(|l: Vec<char>| l@) == results@.take(k as int).map_values(
                |r: SearchResult| result_block(r),
            ),
    {
        let mut b = String::new();
        push_chars(&mut b, &chars_of(results[k].resource_id.as_str()));
        push_chars(&mut b, &chars_of(" ("));
        push_chars(&mut b, &chars_of(results[k].classification.as_str()));
        push_chars(&mut b, &chars_of(")\n"));
        push_chars(&mut b, &chars_of(results[k].excerpt.as_str()));
        let ghost before = blocks@.map_values(|l: Vec<char>| l@);
        blocks.push(chars_of(b.as_str()));
        assert(blocks@.map_values(|l: Vec<char>| l@) =~= before.push(result_block(results@[k as int])));
        assert(results@.take(k + 1).map_values(|r: SearchResult| result_block(r)) =~= results@.take(
            k as int,
        ).map_values(|r: SearchResult| result_block(r)).push(result_block(results@[k as int])));
    }
    assert(results@.take(results@.len() as int) == results@);
    let t = join_vecs(&blocks, &chars_of("\n\n"));
    if t.len() == 0 {
        return string_of(&chars_of("Aucun extrait autorisé trouvé."));
    }
    string_of(&t)
}

/// A chat answer as shown: its content, then its sources when it has some.
pub open spec fn spec_answer_text(content: Seq<char>, sources: Option<Seq<Seq<char>>>) -> Seq<char> {
    match sources {
        None => content,
        Some(s) => content + "\n\nSources : "@ + join(s, ", "@),
    }
}

/// The text shown for a chat answer.
pub fn answer_text(response: &ChatResponse) -> (r: String)
    ensures
        r@ == spec_answer_text(
            response.content@,
            match response.sources {
                Some(v) => Some(v@.map_values(|s: String| s@)),
                None => None,
            },
        ),
{
    let mut text = string_of(&chars_of(response.content.as_str()));
    match &response.sources {
        None => {},
        Some(sources) => {
            let mut parts: Vec<Vec<char>> = Vec::new();
            for k in 0..sources.len()
                invariant
                    parts@.map_values(|l: Vec<char>| l@) == sources@.take(k as int).map_values(
                        |s: String| s@,
                    ),
            {
                let ghost before = parts@.map_values(|l: Vec<char>| l@);
                parts.push(chars_of(sources[k].as_str()));
                assert(parts@.map_values(|l: Vec<char>| l@) =~= before.push(sources@[k as int]@));
                assert(sources@.take(k + 1).map_values(|s: String| s@) =~= sources@.take(
                    k as int,
                ).map_values(|s: String| s@).push(sources@[k as int]@));
            }
            assert(sources@.take(sources@.len() as int) == sources@);
            push_chars(&mut text, &chars_of("\n\nSources : "));
            push_chars(&mut text, &join_vecs(&parts, &chars_of(", ")));
        },
    }
    text
}

/// The message shown for a refused request: the API's `error` text when it gave
/// one, else a fixed notice.
pub fn refusal_text(error: Option<&str>) -> (r: String)
    ensures
        r@ == match error {
            Some(e) => e@,
            None => "Opération refusée."@,
        },
{
    match error {
        Some(e) => string_of(&chars_of(e)),
        None => string_of(&chars_of("Opération refusée.")),
    }
}

} // verus!
