//! The rules of the document store and of the audit journal: which document paths
//! may be opened, what a document's front matter must say, and how a journal line
//! is stamped and when the journal rotates. Opening files is left to the caller.
use crate::application::{AuditDecision, Document, Failure, opt_text};
use crate::policy::Resource;
use crate::sessions::{first_index, first_index_exec};
use crate::text::{
    digit, digit_char,
    chars_of, ends_with, has_prefix, has_suffix, lines, lines_of, safe_relative_chars,
    same_text, seq_eq, segments, slice_to_vec, spec_safe_relative, spec_valid_id, split_of,
    starts_with, string_of, trim, trimmed, valid_id, push_chars,
};
use vstd::prelude::*;

verus! {

/// The largest document, in bytes.
pub const DOCUMENT_LIMIT: u64 = 32768;

/// The value of `key` among front-matter entries.
pub open spec fn lookup(entries: Seq<(Seq<char>, Seq<char>)>, key: Seq<char>) -> Option<Seq<char>>
    decreases entries.len(),
{
    if entries.len() == 0 {
        None
    } else if entries[0].0 == key {
        Some(entries[0].1)
    } else {
        lookup(entries.drop_first(), key)
    }
}

/// The entries of the front-matter lines `ls`, after the entries `acc` already read:
/// up to a `---` line; each line is `key: value` split at its first `:`, with a
/// non-empty key, a value that is not blank once trimmed, and a key not seen before.
/// `None` for a malformed line or when no `---` line closes the block.
pub open spec fn front_entries(ls: Seq<Seq<char>>, acc: Seq<(Seq<char>, Seq<char>)>) -> Option<
    Seq<(Seq<char>, Seq<char>)>,
>
    decreases ls.len(),
{
    if ls.len() == 0 {
        None
    } else if ls[0] == "---"@ {
        Some(acc)
    } else {
        match first_index(ls[0], ':') {
            None => None,
            Some(i) => {
                let key = ls[0].take(i);
                let value = trim(ls[0].skip(i + 1));
                if key.len() == 0 || value.len() == 0 || lookup(acc, key) is Some {
                    None
                } else {
                    front_entries(ls.drop_first(), acc.push((key, value)))
                }
            },
        }
    }
}

/// The front matter of a document: its first line is `---`, then entries up to the
/// next `---` line.
pub open spec fn spec_metadata(content: Seq<char>) -> Option<Seq<(Seq<char>, Seq<char>)>> {
    let ls = lines(content);
    if ls.len() == 0 || ls[0] != "---"@ {
        None
    } else {
        front_entries(ls.drop_first(), seq![])
    }
}

/// The texts of pairs of strings.
pub open spec fn pair_texts(v: Seq<(String, String)>) -> Seq<(Seq<char>, Seq<char>)> {
    v.map_values(|p: (String, String)| (p.0@, p.1@))
}

fn lookup_exec(entries: &Vec<(String, String)>, key: &[char]) -> (r: Option<usize>)
    ensures
        match r {
            Some(k) => k < entries@.len() && lookup(pair_texts(entries@), key@) == Some(
                entries@[k as int].1@,
            ),
            None => lookup(pair_texts(entries@), key@) is None,
        },
{
    let ghost all = pair_texts(entries@);
    assert(all.skip(0) == all);
    for k in 0..entries.len()
        invariant
            all == pair_texts(entries@),
            lookup(all, key@) == lookup(all.skip(k as int), key@),
    {
        assert(all.skip(k as int)[0] == all[k as int]);
        assert(all.skip(k as int).drop_first() == all.skip(k + 1));
        if seq_eq(&chars_of(entries[k].0.as_str()), key) {
            return Some(k);
        }
    }
    None
}

/// The front-matter entries of a document, in order, or `None` when it has none or
/// when they are malformed.
pub fn metadata(content: &str) -> (r: Option<Vec<(String, String)>>)
    ensures
        match r {
            Some(v) => spec_metadata(content@) == Some(pair_texts(v@)),
            None => spec_metadata(content@) is None,
        },
{
    let ls = lines_of(&chars_of(content));
    let ghost lv = lines(content@);
    if ls.len() == 0 {
        return None;
    }
    assert(ls@[0]@ == lv[0]);
    if !seq_eq(&ls[0], &chars_of("---")) {
        return None;
    }
    let mut result: Vec<(String, String)> = Vec::new();
    let dashes = chars_of("---");
    let mut k: usize = 1;
    assert(lv.drop_first() == lv.skip(1));
    assert(pair_texts(result@) =~= seq![]);
    while k < ls.len()
        invariant
            1 <= k <= ls@.len(),
            ls@.map_values(|l: Vec<char>| l@) == lv,
            lv == lines(content@),
            lv.len() > 0 && lv[0] == "---"@,
            dashes@ == "---"@,
            front_entries(lv.drop_first(), seq![]) == front_entries(
                lv.skip(k as int),
                pair_texts(result@),
            ),
        decreases ls@.len() - k,
    {
        let ghost rest = lv.skip(k as int);
        assert(lv[k as int] == ls@[k as int]@);
        assert(rest[0] == ls@[k as int]@);
        assert(rest.drop_first() == lv.skip(k + 1));
        let line = &ls[k];
        assert(rest.len() > 0);
        if seq_eq(line, &dashes) {
            assert(front_entries(rest, pair_texts(result@)) == Some(pair_texts(result@)));
            return Some(result);
        }
        let colon = match first_index_exec(line, ':') {
            None => {
                assert(front_entries(rest, pair_texts(result@)) is None);
                return None;
            },
            Some(i) => i,
        };
        assert(colon < line.len());
        let key = slice_to_vec(line, 0, colon);
        let value = trimmed(&slice_to_vec(line, colon + 1, line.len()));
        assert(key@ == line@.take(colon as int));
        assert(line@.skip(colon + 1) == line@.subrange(colon + 1, line@.len() as int));
        if key.len() == 0 || value.len() == 0 {
            return None;
        }
        if lookup_exec(&result, &key).is_some() {
            return None;
        }
        let ghost before = pair_texts(result@);
        result.push((string_of(&key), string_of(&value)));
        assert(pair_texts(result@) =~= before.push((key@, value@)));
        k = k + 1;
    }
    assert(lv.skip(k as int).len() == 0);
    None
}

/// The path segments, below `demo-documents/`, of a document that may be opened: a
/// portable relative path (see `spec_safe_relative`) ending in `.md`.
pub open spec fn spec_document_parts(path: Seq<char>) -> Option<Seq<Seq<char>>> {
    let prefix = "demo-documents/"@;
    if has_prefix(path, prefix) && has_suffix(path.skip(prefix.len() as int), ".md"@)
        && spec_safe_relative(path.skip(prefix.len() as int)) {
        Some(segments(path.skip(prefix.len() as int)))
    } else {
        None
    }
}

/// The directories and file name to open, in order, for a resource's path.
pub fn document_parts(path: &str) -> (r: Option<Vec<String>>)
    ensures
        match r {
            Some(v) => spec_document_parts(path@) == Some(v@.map_values(|s: String| s@)),
            None => spec_document_parts(path@) is None,
        },
{
    let p = chars_of(path);
    let prefix = chars_of("demo-documents/");
    if !starts_with(&p, &prefix) {
        return None;
    }
    let relative = slice_to_vec(&p, prefix.len(), p.len());
    assert(relative@ == path@.skip("demo-documents/"@.len() as int));
    if !ends_with(&relative, &chars_of(".md")) || !safe_relative_chars(&relative) {
        return None;
    }
    let pieces = split_of(&relative, '/');
    let mut out: Vec<String> = Vec::new();
    for k in 0..pieces.len()
        invariant
            out@.map_values(|s: String| s@) == pieces@.map_values(|l: Vec<char>| l@).take(
                k as int,
            ),
    {
        let ghost before = out@.map_values(|s: String| s@);
        assert(pieces@.map_values(|l: Vec<char>| l@)[k as int] == pieces@[k as int]@);
        out.push(string_of(&pieces[k]));
        assert(out@.map_values(|s: String| s@) =~= before.push(pieces@[k as int]@));
        assert(pieces@.map_values(|l: Vec<char>| l@).take(k + 1) =~= pieces@.map_values(
            |l: Vec<char>| l@,
        ).take(k as int).push(pieces@[k as int]@));
    }
    assert(pieces@.map_values(|l: Vec<char>| l@).take(pieces@.len() as int) == pieces@.map_values(
        |l: Vec<char>| l@,
    ));
    Some(out)
}

/// Whether a file of `size` bytes (as `stat` reports it) may be read as a document.
pub fn size_acceptable(size: i64) -> (r: bool)
    ensures
        r == (0 <= size <= DOCUMENT_LIMIT),
{
    size >= 0 && size <= 32768
}

/// The document that a resource's file holds: its front matter must name the
/// resource's identifier and classification; anything else is `Document`.
pub open spec fn spec_accepts(resource: Resource, content: Seq<char>) -> bool {
    spec_metadata(content) matches Some(m) && lookup(m, "id"@) == Some(resource.id@) && lookup(
        m,
        "classification"@,
    ) == Some(resource.classification@)
}

/// The document read for `resource`, once its text `content` has been read.
pub fn accept_document(resource: &Resource, content: String) -> (r: Result<Document, Failure>)
    ensures
        match r {
            Ok(d) => spec_accepts(*resource, content@) && d.resource_id@ == resource.id@
                && d.classification@ == resource.classification@ && d.content@ == content@,
            Err(f) => !spec_accepts(*resource, content@) && f == Failure::Document,
        },
{
    let m = match metadata(content.as_str()) {
        Some(m) => m,
        None => return Err(Failure::Document),
    };
    let id = lookup_exec(&m, &chars_of("id"));
    let class = lookup_exec(&m, &chars_of("classification"));
    let ok = match (id, class) {
        (Some(i), Some(c)) => same_text(m[i].1.as_str(), resource.id.as_str()) && same_text(
            m[c].1.as_str(),
            resource.classification.as_str(),
        ),
        _ => false,
    };
    if !ok {
        return Err(Failure::Document);
    }
    Ok(
        Document {
            resource_id: string_of(&chars_of(resource.id.as_str())),
            classification: string_of(&chars_of(resource.classification.as_str())),
            content,
        },
    )
}

/// A decision can be journaled only when its identifiers are well formed.
pub open spec fn spec_journaled(d: AuditDecision) -> bool {
    &&& (opt_text(d.identity_id) matches Some(i) ==> spec_valid_id(i))
    &&& (opt_text(d.resource_id) matches Some(i) ==> spec_valid_id(i))
}

/// Whether the identifiers of a decision are well formed.
pub fn journaled(d: &AuditDecision) -> (r: bool)
    ensures
        r == spec_journaled(*d),
{
    let identity_ok = match &d.identity_id {
        Some(i) => valid_id(i.as_str()),
        None => true,
    };
    let resource_ok = match &d.resource_id {
        Some(i) => valid_id(i.as_str()),
        None => true,
    };
    identity_ok && resource_ok
}

/// Whether appending a line of `line` bytes to a journal of `current` bytes would
/// exceed `limit`, so that the journal is first rotated.
pub fn rotation_needed(current: u64, line: u64, limit: u64) -> (r: bool)
    ensures
        r == (current + line > limit),
{
    line > limit || current > limit - line
}

/// The proleptic Gregorian date `(year, month, day)` of the day that comes `days`
/// days after 1970-01-01, for `days >= 0` (days counted from 0000-03-01, in eras of
/// 400 years that start in March).
pub open spec fn civil_date(days: int) -> (int, int, int) {
    let z = days + 719468;
    let era = z / 146097;
    let doe = z - era * 146097;
    let yoe = (doe - doe / 1460 + doe / 36524 - doe / 146096) / 365;
    let doy = doe - (365 * yoe + yoe / 4 - yoe / 100);
    let mp = (5 * doy + 2) / 153;
    let day = doy - (153 * mp + 2) / 5 + 1;
    let month = if mp < 10 {
        mp + 3
    } else {
        mp - 9
    };
    let year = yoe + era * 400 + if month <= 2 {
        1int
    } else {
        0int
    };
    (year, month, day)
}

/// The UTC calendar date `(year, month, day)` of the day that holds a Unix timestamp
/// that is not negative.
pub open spec fn utc_date(unix: i64) -> (int, int, int) {
    civil_date(unix / 86400)
}

/// `time::OffsetDateTime::from_unix_timestamp` read back as year, month, day, hour,
/// minute and second. For a timestamp that is not negative, the crate succeeds up to
/// 9999-12-31T23:59:59Z (253402300799) and fails above; its date is the Gregorian
/// date `utc_date` (a year from 1970 to 9999, a month from 1 to 12, a day from 1 to
/// 31), and the time of day is taken from the seconds within the day, as its source
/// computes it.
#[verifier::external_body]
fn utc_fields(unix: i64) -> (r: Option<(i32, u8, u8, u8, u8, u8)>)
    requires
        unix >= 0,
    ensures
        r is Some <==> unix <= 253402300799,
        r matches Some(f) ==> {
            &&& (f.0 as int, f.1 as int, f.2 as int) == utc_date(unix)
            &&& 1970 <= f.0 <= 9999
            &&& 1 <= f.1 <= 12
            &&& 1 <= f.2 <= 31
            &&& f.3 == (unix % 86400) / 3600
            &&& f.4 == (unix % 86400) % 3600 / 60
            &&& f.5 == (unix % 86400) % 60
        },
{
    match time::OffsetDateTime::from_unix_timestamp(unix) {
        Ok(t) => Some((t.year(), u8::from(t.month()), t.day(), t.hour(), t.minute(), t.second())),
        Err(_) => None,
    }
}

/// `n` written with two digits.
pub open spec fn two_digits(n: int) -> Seq<char> {
    seq![digit(n / 10), digit(n % 10)]
}

/// `n` written with four digits.
pub open spec fn four_digits(n: int) -> Seq<char> {
    seq![digit(n / 1000), digit(n / 100 % 10), digit(n / 10 % 10), digit(n % 10)]
}

/// The journal's timestamp of a Unix time: `YYYY-MM-DDTHH:MM:SSZ` in UTC.
pub open spec fn spec_stamp(unix: i64) -> Seq<char> {
    let (y, mo, d) = utc_date(unix);
    let s = (unix % 86400) as int;
    four_digits(y) + "-"@ + two_digits(mo) + "-"@ + two_digits(d) + "T"@ + two_digits(s / 3600)
        + ":"@ + two_digits(s % 3600 / 60) + ":"@ + two_digits(s % 60) + "Z"@
}

fn push_two(s: &mut String, n: u32)
    requires
        n < 100,
    ensures
        final(s)@ == old(s)@ + two_digits(n as int),
{
    let v = vec![digit_char(n / 10), digit_char(n % 10)];
    assert(v@ =~= two_digits(n as int));
    push_chars(s, &v);
}

/// The timestamp written in a journal line for the clock reading `now` (seconds since
/// the Unix epoch); `None` beyond the year 9999.
pub fn audit_stamp(now: u64) -> (r: Option<String>)
    ensures
        r is Some <==> now <= 253402300799,
        r matches Some(s) ==> s@ == spec_stamp(now as i64),
{
    if now > 253402300799 {
        return None;
    }
    let unix = now as i64;
    let (y, mo, d, h, mi, se) = match utc_fields(unix) {
        Some(f) => f,
        None => return None,
    };
    let year = y as u32;
    let mut s = String::new();
    let v = vec![
        digit_char(year / 1000),
        digit_char(year / 100 % 10),
        digit_char(year / 10 % 10),
        digit_char(year % 10),
    ];
    assert(v@ =~= four_digits(y as int));
    push_chars(&mut s, &v);
    push_chars(&mut s, &chars_of("-"));
    push_two(&mut s, mo as u32);
    push_chars(&mut s, &chars_of("-"));
    push_two(&mut s, d as u32);
    push_chars(&mut s, &chars_of("T"));
    push_two(&mut s, h as u32);
    push_chars(&mut s, &chars_of(":"));
    push_two(&mut s, mi as u32);
    push_chars(&mut s, &chars_of(":"));
    push_two(&mut s, se as u32);
    push_chars(&mut s, &chars_of("Z"));
    assert(s@ =~= spec_stamp(unix));
    Some(s)
}

/// A JSON string of text that needs no escaping, or `null`.
pub open spec fn json_text(o: Option<Seq<char>>) -> Seq<char> {
    match o {
        Some(t) => "\""@ + t + "\""@,
        None => "null"@,
    }
}

/// The journal line of a decision stamped `stamp`: one JSON object, its keys in
/// sorted order, then a line feed. Identifiers that pass `journaled` and stamps of
/// `audit_stamp` hold no character that JSON escapes.
pub open spec fn spec_journal_line(d: AuditDecision, stamp: Seq<char>) -> Seq<char> {
    "{\"event\":\"access_decision\",\"identity_id\":"@ + json_text(opt_text(d.identity_id))
        + ",\"outcome\":"@ + (if d.allowed {
        "\"allowed\""@
    } else {
        "\"denied\""@
    }) + ",\"resource_id\":"@ + json_text(opt_text(d.resource_id)) + ",\"route\":\""@
        + d.route.spec_path() + "\",\"timestamp\":\""@ + stamp + "\"}\n"@
}

fn push_json_text(s: &mut String, o: &Option<String>)
    ensures
        final(s)@ == old(s)@ + json_text(opt_text(*o)),
{
    match o {
        Some(t) => {
            push_chars(s, &chars_of("\""));
            push_chars(s, &chars_of(t.as_str()));
            push_chars(s, &chars_of("\""));
        },
        None => push_chars(s, &chars_of("null")),
    }
}

/// The line that the journal appends for decision `d` stamped `stamp`.
pub fn journal_line(d: &AuditDecision, stamp: &str) -> (r: String)
    ensures
        r@ == spec_journal_line(*d, stamp@),
{
    let mut s = String::new();
    push_chars(&mut s, &chars_of("{\"event\":\"access_decision\",\"identity_id\":"));
    push_json_text(&mut s, &d.identity_id);
    push_chars(&mut s, &chars_of(",\"outcome\":"));
    if d.allowed {
        push_chars(&mut s, &chars_of("\"allowed\""));
    } else {
        push_chars(&mut s, &chars_of("\"denied\""));
    }
    push_chars(&mut s, &chars_of(",\"resource_id\":"));
    push_json_text(&mut s, &d.resource_id);
    push_chars(&mut s, &chars_of(",\"route\":\""));
    push_chars(&mut s, &chars_of(d.route.as_str()));
    push_chars(&mut s, &chars_of("\",\"timestamp\":\""));
    push_chars(&mut s, &chars_of(stamp));
    push_chars(&mut s, &chars_of("\"}\n"));
    s
}

} // verus!
