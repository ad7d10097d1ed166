//! Deterministic administrative preparation of passages for indexing; no transport
//! and no writes here.
use crate::application::{read_answered, Document, Failure, Reader};
use crate::policy::{find_resource, Policy, Resource};
use crate::retrieval::{document_body, spec_document_body};
use crate::text::{
    append_chars, blank, chars_of, is_ws, join, join_vecs, lemma_lines_nonblank,
    lemma_split_ws, lemma_trim_nonblank, lemma_trim_solid, lemma_trim_start_len,
    lemma_trim_start_suffix, lemma_split_ws_word, lemma_split_ws_concat, lemma_split_ws_push_ws,
    no_ws, words_of, letters, letters_of, lemma_letters_of_concat, lemma_letters_concat,
    lemma_letters_trim, lemma_letters_trim_start, lemma_letters_words_of, lemma_letters_split_ws, lemma_words_no_ws, lemma_split_ws_blank, lemma_split_ws_trim, lemma_lines_words,
    lemma_trim_start_skip, lines, lines_of, same_text, skip_ws_forward, slice_to_vec, solid,
    spec_valid_id, split_ws, split_ws_of, string_of, trim, trim_start, trimmed, valid_id,
};
use vstd::prelude::*;

verus! {

pub const MAX_CHUNK: usize = 700;

pub const MAX_OVERLAP: usize = 160;

pub const MAX_PASSAGES: usize = 512;

pub const MAX_DIMENSIONS: usize = 4096;

#[derive(Debug, Clone, Copy, PartialEq, Eq, Structural)]
pub struct IndexError;

#[derive(Debug, Clone, PartialEq)]
pub struct Chunk {
    pub resource_id: String,
    pub classification: String,
    pub chunk_id: usize,
    pub text: String,
}

/// A word that closes a sentence: it ends with `.`, `!` or `?`.
pub open spec fn ends_sentence(w: Seq<char>) -> bool {
    w.len() > 0 && (w.last() == '.' || w.last() == '!' || w.last() == '?')
}

/// Sentence state: the finished parts and the open sentence.
pub type Sentences = (Seq<Seq<char>>, Seq<char>);

/// Adds a word to the open sentence, separated by one space; a closing word ends it.
pub open spec fn word_step(st: Sentences, w: Seq<char>) -> Sentences {
    let s = if st.1.len() > 0 {
        st.1.push(' ') + w
    } else {
        st.1 + w
    };
    if ends_sentence(w) {
        (st.0.push(s), seq![])
    } else {
        (st.0, s)
    }
}

pub open spec fn words_fold(st: Sentences, ws: Seq<Seq<char>>) -> Sentences
    decreases ws.len(),
{
    if ws.len() == 0 {
        st
    } else {
        word_step(words_fold(st, ws.drop_last()), ws.last())
    }
}

/// A blank line closes a non-blank open sentence (paragraph boundary); other lines
/// contribute their words.
pub open spec fn line_step(st: Sentences, line: Seq<char>) -> Sentences {
    if trim(line).len() == 0 {
        if trim(st.1).len() > 0 {
            (st.0.push(trim(st.1)), seq![])
        } else {
            st
        }
    } else {
        words_fold(st, split_ws(line))
    }
}

pub open spec fn lines_fold(ls: Seq<Seq<char>>) -> Sentences
    decreases ls.len(),
{
    if ls.len() == 0 {
        (seq![], seq![])
    } else {
        line_step(lines_fold(ls.drop_last()), ls.last())
    }
}

/// Paragraphs and sentences of the text, in order.
pub open spec fn sentence_parts(text: Seq<char>) -> Seq<Seq<char>> {
    let st = lines_fold(lines(text));
    if st.1.len() > 0 {
        st.0.push(st.1)
    } else {
        st.0
    }
}

/// The last position `p <= hi` with a space, or `-1`.
pub open spec fn last_space(c: Seq<char>, hi: int) -> int
    decreases hi + 1,
{
    if hi < 0 {
        -1
    } else if c[hi] == ' ' {
        hi
    } else {
        last_space(c, hi - 1)
    }
}

/// Where an over-long part is cut: its last space within the first 701 characters
/// when that space is not the first character, else after 700 characters.
pub open spec fn cut_point(c: Seq<char>) -> int {
    let p = last_space(c, MAX_CHUNK as int);
    if p > 0 {
        p
    } else {
        MAX_CHUNK as int
    }
}

pub proof fn lemma_last_space(c: Seq<char>, hi: int)
    ensures
        -1 <= last_space(c, hi),
        hi >= 0 ==> last_space(c, hi) <= hi,
    decreases hi + 1,
{
    if hi >= 0 && c[hi] != ' ' {
        lemma_last_space(c, hi - 1);
    }
}

/// Splits a part into units of at most 700 characters, cutting at a space when
/// possible; leading whitespace after a cut is dropped.
pub open spec fn split_long(c: Seq<char>) -> Seq<Seq<char>>
    decreases c.len(),
{
    if c.len() > MAX_CHUNK {
        let cut = cut_point(c);
        proof {
            lemma_last_space(c, MAX_CHUNK as int);
            lemma_trim_start_len(c.skip(cut));
        }
        seq![trim(c.take(cut))] + split_long(trim_start(c.skip(cut)))
    } else if c.len() > 0 {
        seq![c]
    } else {
        seq![]
    }
}

/// The units of all parts, in order.
pub open spec fn units(parts: Seq<Seq<char>>) -> Seq<Seq<char>>
    decreases parts.len(),
{
    if parts.len() == 0 {
        seq![]
    } else {
        units(parts.drop_last()) + split_long(parts.last())
    }
}

/// Packing state: the finished chunks and the units of the open chunk.
pub type Packing = (Seq<Seq<char>>, Seq<Seq<char>>);

/// Adds a unit to the open chunk, joined by spaces. When it would exceed 700
/// characters the open chunk is finished, and its last unit is carried over as
/// overlap when it has at most 160 characters and fits with the new unit.
pub open spec fn pack_step(st: Packing, unit: Seq<char>) -> Packing {
    let (out, cur) = st;
    let candidate = if cur.len() == 0 {
        unit.len() as int
    } else {
        (join(cur, " "@).len() + 1 + unit.len()) as int
    };
    if cur.len() > 0 && candidate > MAX_CHUNK {
        let last = cur.last();
        let kept = if last.len() <= MAX_OVERLAP && last.len() + 1 + unit.len() <= MAX_CHUNK {
            seq![last]
        } else {
            seq![]
        };
        (out.push(join(cur, " "@)), kept.push(unit))
    } else {
        (out, cur.push(unit))
    }
}

pub open spec fn pack_fold(us: Seq<Seq<char>>) -> Packing
    decreases us.len(),
{
    if us.len() == 0 {
        (seq![], seq![])
    } else {
        pack_step(pack_fold(us.drop_last()), us.last())
    }
}

/// The chunks that packing the units gives.
pub open spec fn pack(us: Seq<Seq<char>>) -> Seq<Seq<char>> {
    let st = pack_fold(us);
    if st.1.len() > 0 {
        st.0.push(join(st.1, " "@))
    } else {
        st.0
    }
}

/// The chunks of a text: `None` for a blank text, or when some chunk would be empty
/// or longer than 700 characters.
pub open spec fn spec_chunks(text: Seq<char>) -> Option<Seq<Seq<char>>> {
    if trim(text).len() == 0 {
        None
    } else {
        let out = pack(units(sentence_parts(text)));
        if out.len() == 0 || exists|i: int|
            0 <= i < out.len() && ((#[trigger] out[i]).len() == 0 || out[i].len() > MAX_CHUNK) {
            None
        } else {
            Some(out)
        }
    }
}

/// Sentence state whose finished parts and open sentence start with a non-whitespace
/// character.
pub open spec fn sentences_ok(st: Sentences) -> bool {
    &&& forall|k: int| 0 <= k < st.0.len() ==> solid(#[trigger] st.0[k])
    &&& st.1.len() > 0 ==> solid(st.1)
}

/// Some text has reached the sentence state.
pub open spec fn started(st: Sentences) -> bool {
    st.0.len() > 0 || st.1.len() > 0
}

proof fn lemma_word_step(st: Sentences, w: Seq<char>)
    requires
        sentences_ok(st),
        solid(w),
    ensures
        sentences_ok(word_step(st, w)),
        started(word_step(st, w)),
{
    let s = if st.1.len() > 0 {
        st.1.push(' ') + w
    } else {
        st.1 + w
    };
    if st.1.len() > 0 {
        assert(s[0] == st.1[0]);
    } else {
        assert(s[0] == w[0]);
    }
    assert(s.last() == w.last());
    assert(solid(s));
    if ends_sentence(w) {
        assert forall|k: int| 0 <= k < st.0.push(s).len() implies solid(#[trigger] st.0.push(s)[k]) by {
            if k < st.0.len() {
                assert(st.0.push(s)[k] == st.0[k]);
            }
        }
    }
}

proof fn lemma_words_fold(st: Sentences, ws: Seq<Seq<char>>)
    requires
        sentences_ok(st),
        forall|k: int| 0 <= k < ws.len() ==> solid(#[trigger] ws[k]),
    ensures
        sentences_ok(words_fold(st, ws)),
        ws.len() > 0 || started(st) ==> started(words_fold(st, ws)),
    decreases ws.len(),
{
    if ws.len() > 0 {
        assert forall|k: int| 0 <= k < ws.drop_last().len() implies solid(#[trigger] ws.drop_last()[k]) by {
            assert(ws.drop_last()[k] == ws[k]);
        }
        lemma_words_fold(st, ws.drop_last());
        assert(solid(ws[ws.len() - 1]));
        lemma_word_step(words_fold(st, ws.drop_last()), ws.last());
    }
}

proof fn lemma_line_step(st: Sentences, line: Seq<char>)
    requires
        sentences_ok(st),
    ensures
        sentences_ok(line_step(st, line)),
        started(st) || !blank(line) ==> started(line_step(st, line)),
{
    lemma_trim_nonblank(line);
    if trim(line).len() == 0 {
        if st.1.len() > 0 {
            lemma_trim_solid(st.1);
            let t = trim(st.1);
            assert forall|k: int| 0 <= k < st.0.push(t).len() implies solid(#[trigger] st.0.push(t)[k]) by {
                if k < st.0.len() {
                    assert(st.0.push(t)[k] == st.0[k]);
                }
            }
        }
    } else {
        lemma_split_ws(line);
        lemma_words_fold(st, split_ws(line));
    }
}

proof fn lemma_lines_fold(ls: Seq<Seq<char>>, k: int)
    ensures
        sentences_ok(lines_fold(ls)),
        0 <= k < ls.len() && !blank(ls[k]) ==> started(lines_fold(ls)),
    decreases ls.len(),
{
    if ls.len() > 0 {
        lemma_lines_fold(ls.drop_last(), k);
        if 0 <= k < ls.len() - 1 {
            assert(ls.drop_last()[k] == ls[k]);
        }
        lemma_line_step(lines_fold(ls.drop_last()), ls.last());
    }
}

/// The parts of a text start with a non-whitespace character, and a text that is not
/// blank has parts.
proof fn lemma_sentence_parts(text: Seq<char>)
    ensures
        forall|k: int| 0 <= k < sentence_parts(text).len() ==> solid(#[trigger] sentence_parts(text)[k]),
        !blank(text) ==> sentence_parts(text).len() > 0,
{
    let ls = lines(text);
    let k = if !blank(text) {
        lemma_lines_nonblank(text)
    } else {
        -1
    };
    lemma_lines_fold(ls, k);
    let st = lines_fold(ls);
    if st.1.len() > 0 {
        assert forall|j: int| 0 <= j < sentence_parts(text).len() implies solid(#[trigger] sentence_parts(text)[j]) by {
            if j < st.0.len() {
                assert(st.0.push(st.1)[j] == st.0[j]);
            }
        }
    }
}

proof fn lemma_split_long(c: Seq<char>)
    requires
        c.len() == 0 || solid(c),
    ensures
        forall|k: int|
            0 <= k < split_long(c).len() ==> solid(#[trigger] split_long(c)[k]) && split_long(c)[k].len()
                <= MAX_CHUNK,
        c.len() > 0 ==> split_long(c).len() > 0,
    decreases c.len(),
{
    if c.len() > MAX_CHUNK {
        let cut = cut_point(c);
        lemma_last_space(c, MAX_CHUNK as int);
        let head = c.take(cut);
        assert(head[0] == c[0]);
        lemma_trim_solid(head);
        let rest = trim_start(c.skip(cut));
        lemma_trim_start_len(c.skip(cut));
        lemma_trim_start_suffix(c.skip(cut));
        if rest.len() > 0 {
            assert(rest.last() == c.last());
        }
        lemma_split_long(rest);
        let out = seq![trim(head)] + split_long(rest);
        assert(split_long(c) == out);
        assert forall|k: int| 0 <= k < out.len() implies solid(#[trigger] out[k]) && out[k].len() <= MAX_CHUNK by {
            if k > 0 {
                assert(out[k] == split_long(rest)[k - 1]);
            }
        }
    }
}

proof fn lemma_units(parts: Seq<Seq<char>>)
    requires
        forall|k: int| 0 <= k < parts.len() ==> solid(#[trigger] parts[k]),
    ensures
        forall|k: int|
            0 <= k < units(parts).len() ==> solid(#[trigger] units(parts)[k]) && units(parts)[k].len()
                <= MAX_CHUNK,
        parts.len() > 0 ==> units(parts).len() > 0,
    decreases parts.len(),
{
    if parts.len() > 0 {
        assert forall|k: int| 0 <= k < parts.drop_last().len() implies solid(#[trigger] parts.drop_last()[k]) by {
            assert(parts.drop_last()[k] == parts[k]);
        }
        lemma_units(parts.drop_last());
        assert(solid(parts[parts.len() - 1]));
        lemma_split_long(parts.last());
        let a = units(parts.drop_last());
        let b = split_long(parts.last());
        assert forall|k: int| 0 <= k < (a + b).len() implies solid(#[trigger] (a + b)[k]) && (a + b)[k].len() <= MAX_CHUNK by {
            if k < a.len() {
                assert((a + b)[k] == a[k]);
            } else {
                assert((a + b)[k] == b[k - a.len()]);
            }
        }
    }
}

/// A packing state whose chunks and open chunk hold 1 to 700 characters, built of
/// units that are not empty.
pub open spec fn packing_ok(st: Packing) -> bool {
    &&& forall|k: int| 0 <= k < st.0.len() ==> solid(#[trigger] st.0[k]) && st.0[k].len() <= MAX_CHUNK
    &&& forall|k: int| 0 <= k < st.1.len() ==> solid(#[trigger] st.1[k])
    &&& st.1.len() > 0 ==> solid(join(st.1, " "@)) && join(st.1, " "@).len() <= MAX_CHUNK
}

proof fn lemma_pack_step(st: Packing, unit: Seq<char>)
    requires
        packing_ok(st),
        solid(unit),
        unit.len() <= MAX_CHUNK,
    ensures
        packing_ok(pack_step(st, unit)),
        pack_step(st, unit).1.len() > 0,
{
    reveal_strlit(" ");
    let (out, cur) = st;
    let candidate = if cur.len() == 0 {
        unit.len() as int
    } else {
        (join(cur, " "@).len() + 1 + unit.len()) as int
    };
    if cur.len() > 0 && candidate > MAX_CHUNK {
        let last = cur.last();
        let kept = if last.len() <= MAX_OVERLAP && last.len() + 1 + unit.len() <= MAX_CHUNK {
            seq![last]
        } else {
            seq![]
        };
        let next = kept.push(unit);
        let done = out.push(join(cur, " "@));
        assert forall|k: int| 0 <= k < done.len() implies solid(#[trigger] done[k]) && done[k].len() <= MAX_CHUNK by {
            if k < out.len() {
                assert(done[k] == out[k]);
            }
        }
        if kept.len() > 0 {
            assert(next.last() == unit);
            assert(next.drop_last() =~= seq![last]);
            assert(join(seq![last], " "@) == last);
            assert(join(next, " "@) == last + " "@ + unit);
            assert(next[0] == last);
            assert(last == cur[cur.len() - 1]);
            assert((last + " "@ + unit)[0] == last[0]);
            assert((last + " "@ + unit).last() == unit.last());
        } else {
            assert(next =~= seq![unit]);
        }
        assert forall|k: int| 0 <= k < next.len() implies solid(#[trigger] next[k]) by {
            if k < kept.len() {
                assert(next[k] == last);
            }
        }
        assert(solid(join(next, " "@)) && join(next, " "@).len() <= MAX_CHUNK);
        assert(pack_step(st, unit) == (done, next));
    } else {
        let next = cur.push(unit);
        if cur.len() == 0 {
            assert(next =~= seq![unit]);
        } else {
            assert(next.last() == unit);
            assert(next.drop_last() =~= cur);
            assert(join(next, " "@) == join(cur, " "@) + " "@ + unit);
            assert((join(cur, " "@) + " "@ + unit)[0] == join(cur, " "@)[0]);
            assert((join(cur, " "@) + " "@ + unit).last() == unit.last());
        }
        assert forall|k: int| 0 <= k < next.len() implies solid(#[trigger] next[k]) by {
            if k < cur.len() {
                assert(next[k] == cur[k]);
            }
        }
        assert(solid(join(next, " "@)) && join(next, " "@).len() <= MAX_CHUNK);
        assert(pack_step(st, unit) == (out, next));
    }
}

proof fn lemma_pack_fold(us: Seq<Seq<char>>)
    requires
        forall|k: int| 0 <= k < us.len() ==> solid(#[trigger] us[k]) && us[k].len() <= MAX_CHUNK,
    ensures
        packing_ok(pack_fold(us)),
        us.len() > 0 ==> pack_fold(us).1.len() > 0,
    decreases us.len(),
{
    if us.len() > 0 {
        assert forall|k: int| 0 <= k < us.drop_last().len() implies solid(#[trigger] us.drop_last()[k]) && us.drop_last()[k].len() <= MAX_CHUNK by {
            assert(us.drop_last()[k] == us[k]);
        }
        lemma_pack_fold(us.drop_last());
        assert(solid(us[us.len() - 1]) && us[us.len() - 1].len() <= MAX_CHUNK);
        lemma_pack_step(pack_fold(us.drop_last()), us.last());
    }
}

/// A text that is not blank always chunks, into chunks that neither start nor end
/// with whitespace.
pub proof fn lemma_nonblank_chunks(text: Seq<char>)
    requires
        trim(text).len() > 0,
    ensures
        spec_chunks(text) matches Some(out) && forall|i: int|
            0 <= i < out.len() ==> solid(#[trigger] out[i]),
{
    lemma_trim_nonblank(text);
    lemma_sentence_parts(text);
    let parts = sentence_parts(text);
    lemma_units(parts);
    let us = units(parts);
    lemma_pack_fold(us);
    let st = pack_fold(us);
    let out = pack(us);
    assert(out == st.0.push(join(st.1, " "@)));
    assert forall|i: int| 0 <= i < out.len() implies solid(#[trigger] out[i]) && out[i].len() <= MAX_CHUNK by {
        if i < st.0.len() {
            assert(out[i] == st.0[i]);
        }
    }
}

/// The words of a sentence state: those of its finished parts, then of its open
/// sentence.
pub open spec fn sentence_words(st: Sentences) -> Seq<Seq<char>> {
    words_of(st.0) + split_ws(st.1)
}

proof fn lemma_word_step_words(st: Sentences, w: Seq<char>)
    requires
        w.len() > 0,
        no_ws(w),
    ensures
        sentence_words(word_step(st, w)) == sentence_words(st).push(w),
{
    let s = if st.1.len() > 0 {
        st.1.push(' ') + w
    } else {
        st.1 + w
    };
    lemma_split_ws_word(w);
    if st.1.len() > 0 {
        lemma_split_ws_concat(st.1.push(' '), w);
        lemma_split_ws_push_ws(st.1, ' ');
    } else {
        assert(s =~= w);
    }
    assert(split_ws(s) == split_ws(st.1).push(w));
    assert(split_ws(Seq::<char>::empty()) =~= Seq::<Seq<char>>::empty());
    if ends_sentence(w) {
        assert(st.0.push(s).drop_last() =~= st.0);
        assert(words_of(st.0.push(s)) + Seq::<Seq<char>>::empty() =~= (words_of(st.0) + split_ws(
            st.1,
        )).push(w));
    } else {
        assert(words_of(st.0) + split_ws(st.1).push(w) =~= (words_of(st.0) + split_ws(st.1)).push(w));
    }
}

proof fn lemma_words_fold_words(st: Sentences, ws: Seq<Seq<char>>)
    requires
        forall|k: int| 0 <= k < ws.len() ==> (#[trigger] ws[k]).len() > 0 && no_ws(ws[k]),
    ensures
        sentence_words(words_fold(st, ws)) == sentence_words(st) + ws,
    decreases ws.len(),
{
    if ws.len() == 0 {
        assert(sentence_words(st) + ws =~= sentence_words(st));
    } else {
        assert forall|k: int| 0 <= k < ws.drop_last().len() implies (
        #[trigger] ws.drop_last()[k]).len() > 0 && no_ws(ws.drop_last()[k]) by {
            assert(ws.drop_last()[k] == ws[k]);
        }
        lemma_words_fold_words(st, ws.drop_last());
        assert(ws[ws.len() - 1].len() > 0 && no_ws(ws[ws.len() - 1]));
        lemma_word_step_words(words_fold(st, ws.drop_last()), ws.last());
        assert((sentence_words(st) + ws.drop_last()).push(ws.last()) =~= sentence_words(st) + ws);
    }
}

proof fn lemma_line_step_words(st: Sentences, line: Seq<char>)
    ensures
        sentence_words(line_step(st, line)) == sentence_words(st) + split_ws(line),
{
    lemma_trim_nonblank(line);
    if trim(line).len() == 0 {
        lemma_split_ws_blank(line);
        assert(sentence_words(st) + split_ws(line) =~= sentence_words(st));
        if trim(st.1).len() > 0 {
            lemma_split_ws_trim(st.1);
            assert(st.0.push(trim(st.1)).drop_last() =~= st.0);
            assert(split_ws(Seq::<char>::empty()) =~= Seq::<Seq<char>>::empty());
            assert(words_of(st.0.push(trim(st.1))) + Seq::<Seq<char>>::empty() =~= words_of(
                st.0,
            ) + split_ws(st.1));
        }
    } else {
        lemma_split_ws(line);
        lemma_words_no_ws(line);
        lemma_words_fold_words(st, split_ws(line));
    }
}

proof fn lemma_lines_fold_words(ls: Seq<Seq<char>>)
    ensures
        sentence_words(lines_fold(ls)) == words_of(ls),
    decreases ls.len(),
{
    if ls.len() == 0 {
        assert(split_ws(Seq::<char>::empty()) =~= Seq::<Seq<char>>::empty());
        assert(sentence_words((seq![], seq![])) =~= Seq::<Seq<char>>::empty());
    } else {
        lemma_lines_fold_words(ls.drop_last());
        lemma_line_step_words(lines_fold(ls.drop_last()), ls.last());
    }
}

/// The sentences and paragraphs that chunking starts from hold exactly the words of
/// the text, in order: no word is lost, added or moved.
pub proof fn lemma_sentence_parts_words(text: Seq<char>)
    ensures
        words_of(sentence_parts(text)) == split_ws(text),
{
    lemma_lines_words(text);
    lemma_lines_fold_words(lines(text));
    let st = lines_fold(lines(text));
    if st.1.len() > 0 {
        assert(st.0.push(st.1).drop_last() =~= st.0);
    } else {
        assert(split_ws(st.1) =~= Seq::<Seq<char>>::empty());
        assert(words_of(st.0) + Seq::<Seq<char>>::empty() =~= words_of(st.0));
    }
}

/// A chunk that starts at unit `start` follows the chunk of units `prev`: it starts
/// where that one ended, or one unit earlier when that unit, carried over as overlap,
/// has at most 160 characters.
pub open spec fn follows(us: Seq<Seq<char>>, prev: (int, int), start: int) -> bool {
    ||| start == prev.1
    ||| start == prev.1 - 1 && us[start].len() <= MAX_OVERLAP
}

/// Chunk `i` of `out` joins, with spaces, the run of units `us[rs[i].0 .. rs[i].1]`;
/// the first run starts at the first unit and each run follows the one before.
pub open spec fn runs_of(out: Seq<Seq<char>>, us: Seq<Seq<char>>, rs: Seq<(int, int)>) -> bool {
    &&& rs.len() == out.len()
    &&& forall|i: int|
        0 <= i < rs.len() ==> 0 <= (#[trigger] rs[i]).0 < rs[i].1 <= us.len() && out[i] == join(
            us.subrange(rs[i].0, rs[i].1),
            " "@,
        )
    &&& rs.len() > 0 ==> rs[0].0 == 0
    &&& forall|i: int| 0 < i < rs.len() ==> follows(us, rs[i - 1], (#[trigger] rs[i]).0)
}

/// A packing state after the units `us`: finished chunks by runs `rs`, and the open
/// chunk holding the units from `start` on.
pub open spec fn packed_upto(st: Packing, us: Seq<Seq<char>>, rs: Seq<(int, int)>, start: int) -> bool {
    &&& runs_of(st.0, us, rs)
    &&& 0 <= start <= us.len()
    &&& st.1 == us.subrange(start, us.len() as int)
    &&& rs.len() == 0 ==> start == 0
    &&& rs.len() > 0 ==> follows(us, rs.last(), start)
    &&& us.len() > 0 ==> start < us.len()
}

proof fn lemma_runs_extend(out: Seq<Seq<char>>, us: Seq<Seq<char>>, rs: Seq<(int, int)>, u: Seq<char>)
    requires
        runs_of(out, us, rs),
    ensures
        runs_of(out, us.push(u), rs),
{
    let v = us.push(u);
    assert forall|i: int| 0 <= i < rs.len() implies 0 <= (#[trigger] rs[i]).0 < rs[i].1 <= v.len()
        && out[i] == join(v.subrange(rs[i].0, rs[i].1), " "@) by {
        assert(v.subrange(rs[i].0, rs[i].1) =~= us.subrange(rs[i].0, rs[i].1));
    }
    assert forall|i: int| 0 < i < rs.len() implies follows(v, rs[i - 1], (#[trigger] rs[i]).0) by {
        assert(follows(us, rs[i - 1], rs[i].0));
        if rs[i].0 == rs[i - 1].1 - 1 {
            assert(v[rs[i].0] == us[rs[i].0]);
        }
    }
}

proof fn lemma_pack_fold_runs(us: Seq<Seq<char>>) -> (r: (Seq<(int, int)>, int))
    ensures
        packed_upto(pack_fold(us), us, r.0, r.1),
    decreases us.len(),
{
    reveal_strlit(" ");
    if us.len() == 0 {
        assert(us.subrange(0, 0) =~= Seq::<Seq<char>>::empty());
        (seq![], 0)
    } else {
        let p = us.drop_last();
        let u = us.last();
        assert(us == p.push(u));
        let (rs, start) = lemma_pack_fold_runs(p);
        let st = pack_fold(p);
        let (out, cur) = st;
        lemma_runs_extend(out, p, rs, u);
        if rs.len() > 0 && start == rs.last().1 - 1 {
            assert(us[start] == p[start]);
        }
        let n = p.len() as int;
        let candidate = if cur.len() == 0 {
            u.len() as int
        } else {
            (join(cur, " "@).len() + 1 + u.len()) as int
        };
        if cur.len() > 0 && candidate > MAX_CHUNK {
            let last = cur.last();
            let rs2 = rs.push((start, n));
            assert(cur =~= us.subrange(start, n));
            let out2 = out.push(join(cur, " "@));
            assert forall|i: int| 0 <= i < rs2.len() implies 0 <= (#[trigger] rs2[i]).0 < rs2[i].1
                <= us.len() && out2[i] == join(us.subrange(rs2[i].0, rs2[i].1), " "@) by {
                if i < rs.len() {
                    assert(rs2[i] == rs[i] && out2[i] == out[i]);
                }
            }
            assert forall|i: int| 0 < i < rs2.len() implies follows(us, rs2[i - 1], (
            #[trigger] rs2[i]).0) by {
                if i < rs.len() {
                    assert(rs2[i] == rs[i] && rs2[i - 1] == rs[i - 1]);
                } else {
                    assert(rs2[i - 1] == rs.last());
                }
            }
            assert(runs_of(out2, us, rs2));
            if last.len() <= MAX_OVERLAP && last.len() + 1 + u.len() <= MAX_CHUNK {
                assert(last == us[n - 1]);
                assert(seq![last].push(u) =~= us.subrange(n - 1, n + 1));
                (rs2, n - 1)
            } else {
                assert(Seq::<Seq<char>>::empty().push(u) =~= us.subrange(n, n + 1));
                (rs2, n)
            }
        } else {
            assert(cur.push(u) =~= us.subrange(start, n + 1));
            (rs, start)
        }
    }
}

/// The chunks of units join, with spaces, consecutive runs of units that cover them
/// all in order: the first run starts at the first unit, the last ends at the last
/// unit, and each run starts where the one before ended or one unit earlier (an
/// overlap of at most 160 characters).
pub proof fn lemma_pack_runs(us: Seq<Seq<char>>) -> (rs: Seq<(int, int)>)
    ensures
        runs_of(pack(us), us, rs),
        rs.len() > 0 ==> rs.last().1 == us.len(),
        us.len() > 0 ==> rs.len() > 0,
{
    let (rs0, start) = lemma_pack_fold_runs(us);
    let st = pack_fold(us);
    if st.1.len() > 0 {
        let rs = rs0.push((start, us.len() as int));
        let out = st.0.push(join(st.1, " "@));
        assert forall|i: int| 0 <= i < rs.len() implies 0 <= (#[trigger] rs[i]).0 < rs[i].1 <= us.len()
            && out[i] == join(us.subrange(rs[i].0, rs[i].1), " "@) by {
            if i < rs0.len() {
                assert(rs[i] == rs0[i] && out[i] == st.0[i]);
            }
        }
        assert forall|i: int| 0 < i < rs.len() implies follows(us, rs[i - 1], (#[trigger] rs[i]).0) by {
            if i < rs0.len() {
                assert(rs[i] == rs0[i] && rs[i - 1] == rs0[i - 1]);
            } else {
                assert(rs[i - 1] == rs0.last());
            }
        }
        rs
    } else {
        assert(us.len() == 0);
        rs0
    }
}

proof fn lemma_letters_single(x: Seq<char>)
    ensures
        letters_of(seq![x]) == letters(x),
{
    assert(seq![x].drop_last() =~= Seq::<Seq<char>>::empty());
    assert(seq![x].last() == x);
    assert(letters_of(Seq::<Seq<char>>::empty()) == Seq::<char>::empty());
    assert(letters_of(seq![x]) == letters_of(seq![x].drop_last()) + letters(seq![x].last()));
    assert(Seq::<char>::empty() + letters(x) =~= letters(x));
}

/// Cutting a part into units keeps its characters that are not whitespace, in order.
proof fn lemma_split_long_letters(c: Seq<char>)
    ensures
        letters_of(split_long(c)) == letters(c),
    decreases c.len(),
{
    if c.len() > MAX_CHUNK {
        let cut = cut_point(c);
        lemma_last_space(c, MAX_CHUNK as int);
        let head = c.take(cut);
        let tail = c.skip(cut);
        let rest = trim_start(tail);
        lemma_trim_start_len(tail);
        lemma_split_long_letters(rest);
        lemma_letters_trim(head);
        lemma_letters_trim_start(tail);
        lemma_letters_single(trim(head));
        lemma_letters_of_concat(seq![trim(head)], split_long(rest));
        assert(c =~= head + tail);
        lemma_letters_concat(head, tail);
    } else if c.len() > 0 {
        lemma_letters_single(c);
    } else {
        assert(letters(c) == Seq::<char>::empty());
    }
}

/// The units of some parts keep their characters that are not whitespace, in order.
proof fn lemma_units_letters(parts: Seq<Seq<char>>)
    ensures
        letters_of(units(parts)) == letters_of(parts),
    decreases parts.len(),
{
    if parts.len() > 0 {
        lemma_units_letters(parts.drop_last());
        lemma_split_long_letters(parts.last());
        lemma_letters_of_concat(units(parts.drop_last()), split_long(parts.last()));
    }
}

/// Chunking loses no text: the chunks of a text join, with spaces, consecutive runs
/// of units that cover every unit once in order (a run starting one unit early
/// repeats that unit as overlap), and the units hold exactly the characters of the
/// text that are not whitespace, in order.
pub proof fn lemma_chunks_keep_text(text: Seq<char>, out: Seq<Seq<char>>) -> (r: (
    Seq<Seq<char>>,
    Seq<(int, int)>,
))
    requires
        spec_chunks(text) == Some(out),
    ensures
        letters_of(r.0) == letters(text),
        runs_of(out, r.0, r.1),
        r.1.len() > 0,
        r.1.last().1 == r.0.len(),
{
    let parts = sentence_parts(text);
    let us = units(parts);
    lemma_units_letters(parts);
    lemma_sentence_parts_words(text);
    lemma_letters_words_of(parts);
    lemma_letters_split_ws(text);
    let rs = lemma_pack_runs(us);
    (us, rs)
}

/// The texts of a list of character vectors.
pub open spec fn vts(v: Seq<Vec<char>>) -> Seq<Seq<char>> {
    v.map_values(|l: Vec<char>| l@)
}

fn word_step_exec(parts: &mut Vec<Vec<char>>, sentence: &mut Vec<char>, w: &[char])
    ensures
        (vts(final(parts)@), final(sentence)@) == word_step((vts(old(parts)@), old(sentence)@), w@),
{
    if sentence.len() > 0 {
        sentence.push(' ');
    }
    append_chars(sentence, w);
    let n = w.len();
    if n > 0 && (w[n - 1] == '.' || w[n - 1] == '!' || w[n - 1] == '?') {
        let mut s: Vec<char> = Vec::new();
        std::mem::swap(&mut s, sentence);
        parts.push(s);
        assert(vts(parts@) =~= vts(old(parts)@).push(s@));
    }
}

fn line_step_exec(parts: &mut Vec<Vec<char>>, sentence: &mut Vec<char>, line: &[char])
    ensures
        (vts(final(parts)@), final(sentence)@) == line_step(
            (vts(old(parts)@), old(sentence)@),
            line@,
        ),
{
    if trimmed(line).len() == 0 {
        let t = trimmed(sentence);
        if t.len() > 0 {
            parts.push(t);
            *sentence = Vec::new();
            assert(vts(parts@) =~= vts(old(parts)@).push(trim(old(sentence)@)));
        }
        return;
    }
    let words = split_ws_of(line);
    let ghost ws = vts(words@);
    let ghost start = (vts(parts@), sentence@);
    for k in 0..words.len()
        invariant
            ws == vts(words@),
            ws == split_ws(line@),
            (vts(parts@), sentence@) == words_fold(start, ws.take(k as int)),
    {
        assert(ws.take(k + 1).drop_last() == ws.take(k as int));
        assert(ws.take(k + 1).last() == words@[k as int]@);
        word_step_exec(parts, sentence, &words[k]);
    }
    assert(ws.take(words@.len() as int) == ws);
}

/// The paragraphs and sentences of a text.
pub fn sentences_of(text: &[char]) -> (r: Vec<Vec<char>>)
    ensures
        vts(r@) == sentence_parts(text@),
{
    let ls = lines_of(text);
    let ghost lv = vts(ls@);
    let mut parts: Vec<Vec<char>> = Vec::new();
    let mut sentence: Vec<char> = Vec::new();
    for i in 0..ls.len()
        invariant
            lv == vts(ls@),
            lv == lines(text@),
            (vts(parts@), sentence@) == lines_fold(lv.take(i as int)),
    {
        assert(lv.take(i + 1).drop_last() == lv.take(i as int));
        assert(lv.take(i + 1).last() == ls@[i as int]@);
        line_step_exec(&mut parts, &mut sentence, &ls[i]);
    }
    assert(lv.take(ls@.len() as int) == lv);
    if sentence.len() > 0 {
        let ghost before = vts(parts@);
        parts.push(sentence);
        assert(vts(parts@) =~= before.push(lines_fold(lv).1));
    }
    parts
}

/// The last position at most `hi` holding a space, or `-1` as `None`.
fn last_space_exec(c: &[char], hi: usize) -> (r: Option<usize>)
    requires
        hi < c@.len(),
    ensures
        match r {
            Some(p) => last_space(c@, hi as int) == p as int,
            None => last_space(c@, hi as int) == -1,
        },
{
    let n = c.len();
    let mut j: usize = hi + 1;
    while j > 0
        invariant
            j <= hi + 1,
            hi < c@.len(),
            last_space(c@, hi as int) == last_space(c@, j - 1),
        decreases j,
    {
        if c[j - 1] == ' ' {
            return Some(j - 1);
        }
        j = j - 1;
    }
    None
}

/// The units of one part.
fn split_long_exec(part: &[char]) -> (r: Vec<Vec<char>>)
    ensures
        vts(r@) == split_long(part@),
{
    let mut out: Vec<Vec<char>> = Vec::new();
    let mut chars = slice_to_vec(part, 0, part.len());
    assert(chars@ =~= part@);
    while chars.len() > MAX_CHUNK
        invariant
            vts(out@) + split_long(chars@) == split_long(part@),
        decreases chars@.len(),
    {
        proof {
            lemma_last_space(chars@, MAX_CHUNK as int);
        }
        let cut = match last_space_exec(&chars, MAX_CHUNK) {
            Some(p) => if p > 0 {
                p
            } else {
                MAX_CHUNK
            },
            None => MAX_CHUNK,
        };
        assert(cut as int == cut_point(chars@));
        let head = slice_to_vec(&chars, 0, cut);
        let unit = trimmed(&head);
        let start = skip_ws_forward(&chars, cut, chars.len());
        let rest = slice_to_vec(&chars, start, chars.len());
        proof {
            assert(head@ == chars@.take(cut as int));
            lemma_trim_start_skip(chars@.skip(cut as int), start - cut);
            assert(chars@.skip(cut as int).skip(start - cut) =~= rest@);
            let s = chars@.skip(cut as int);
            assert forall|j: int| 0 <= j < start - cut implies crate::text::is_ws(#[trigger] s[j]) by {
                assert(s[j] == chars@[cut + j]);
            }
            lemma_trim_start_len(rest@);
            assert(trim_start(chars@.skip(cut as int)) == rest@) by {
                if start < chars@.len() {
                    assert(!crate::text::is_ws(rest@[0]));
                }
            }
            assert(split_long(chars@) == seq![unit@] + split_long(rest@));
        }
        let ghost before = vts(out@);
        out.push(unit);
        assert(vts(out@) =~= before.push(unit@));
        assert(before.push(unit@) + split_long(rest@) =~= before + (seq![unit@] + split_long(rest@)));
        chars = rest;
    }
    if chars.len() > 0 {
        let ghost before = vts(out@);
        out.push(chars);
        assert(vts(out@) =~= before + split_long(part@).skip(before.len() as int));
        assert(vts(out@) =~= split_long(part@));
    } else {
        assert(split_long(chars@) == Seq::<Seq<char>>::empty());
        assert(vts(out@) =~= split_long(part@));
    }
    out
}

/// The units of a list of parts.
fn units_exec(parts: &Vec<Vec<char>>) -> (r: Vec<Vec<char>>)
    ensures
        vts(r@) == units(vts(parts@)),
{
    let ghost ps = vts(parts@);
    let mut out: Vec<Vec<char>> = Vec::new();
    for i in 0..parts.len()
        invariant
            ps == vts(parts@),
            vts(out@) == units(ps.take(i as int)),
    {
        assert(ps.take(i + 1).drop_last() == ps.take(i as int));
        assert(ps.take(i + 1).last() == parts@[i as int]@);
        let more = split_long_exec(&parts[i]);
        let ghost before = vts(out@);
        for j in 0..more.len()
            invariant
                vts(out@) == before + vts(more@).take(j as int),
        {
            assert(vts(more@)[j as int] == more@[j as int]@);
            let x = slice_to_vec(&more[j], 0, more[j].len());
            assert(x@ =~= more@[j as int]@);
            let ghost prev = vts(out@);
            out.push(x);
            assert(vts(out@) =~= prev.push(x@));
            assert(vts(more@).take(j + 1) =~= vts(more@).take(j as int).push(x@));
            assert(prev.push(x@) =~= before + vts(more@).take(j + 1));
        }
        assert(vts(more@).take(more@.len() as int) == vts(more@));
    }
    assert(ps.take(parts@.len() as int) == ps);
    out
}

/// The chunks that packing the units gives.
fn pack_exec(us: &Vec<Vec<char>>) -> (r: Vec<Vec<char>>)
    ensures
        vts(r@) == pack(vts(us@)),
{
    let ghost uv = vts(us@);
    let space = chars_of(" ");
    let mut out: Vec<Vec<char>> = Vec::new();
    let mut cur: Vec<Vec<char>> = Vec::new();
    for i in 0..us.len()
        invariant
            uv == vts(us@),
            space@ == " "@,
            (vts(out@), vts(cur@)) == pack_fold(uv.take(i as int)),
    {
        assert(uv.take(i + 1).drop_last() == uv.take(i as int));
        assert(uv.take(i + 1).last() == us@[i as int]@);
        let ghost st = pack_fold(uv.take(i as int));
        let unit = slice_to_vec(&us[i], 0, us[i].len());
        assert(unit@ =~= us@[i as int]@);
        let ulen = unit.len();
        if cur.len() > 0 {
            let joined = join_vecs(&cur, &space);
            let jl = joined.len();
            if jl >= MAX_CHUNK || ulen >= MAX_CHUNK - jl {
                let ghost before_out = vts(out@);
                let ghost before_cur = vts(cur@);
                out.push(joined);
                assert(vts(out@) =~= before_out.push(join(before_cur, " "@)));
                let last = cur.pop().unwrap();
                assert(last@ == before_cur.last());
                cur = Vec::new();
                if last.len() <= MAX_OVERLAP && ulen <= MAX_CHUNK - 1 - last.len() {
                    cur.push(last);
                    assert(vts(cur@) =~= seq![before_cur.last()]);
                } else {
                    assert(vts(cur@) =~= Seq::<Seq<char>>::empty());
                }
            }
        }
        let ghost before = vts(cur@);
        cur.push(unit);
        assert(vts(cur@) =~= before.push(uv[i as int]));
    }
    assert(uv.take(us@.len() as int) == uv);
    if cur.len() > 0 {
        let joined = join_vecs(&cur, &space);
        let ghost before = vts(out@);
        out.push(joined);
        assert(vts(out@) =~= before.push(join(pack_fold(uv).1, " "@)));
    }
    out
}

/// Splits a text into chunks of at most 700 characters: paragraphs and sentences
/// are kept whole when they fit, longer ones are cut at a space (or at 700
/// characters), and consecutive units are packed with a short overlap.
pub fn chunks(text: &str) -> (r: Result<Vec<String>, IndexError>)
    ensures
        match r {
            Ok(v) => spec_chunks(text@) == Some(crate::policy::texts(v@)),
            Err(_) => spec_chunks(text@) is None,
        },
{
    let v = chars_of(text);
    if trimmed(&v).len() == 0 {
        return Err(IndexError);
    }
    let parts = sentences_of(&v);
    let us = units_exec(&parts);
    let out = pack_exec(&us);
    let ghost ov = vts(out@);
    if out.len() == 0 {
        return Err(IndexError);
    }
    let mut result: Vec<String> = Vec::new();
    for i in 0..out.len()
        invariant
            ov == vts(out@),
            ov == pack(units(sentence_parts(v@))),
            v@ == text@,
            trim(v@).len() > 0,
            ov.len() > 0,
            forall|k: int| 0 <= k < i ==> (#[trigger] ov[k]).len() > 0 && ov[k].len() <= MAX_CHUNK,
            result@.len() == i,
            forall|k: int| 0 <= k < i ==> (#[trigger] result@[k])@ == ov[k],
    {
        assert(ov[i as int] == out@[i as int]@);
        if out[i].len() == 0 || out[i].len() > MAX_CHUNK {
            return Err(IndexError);
        }
        result.push(string_of(&out[i]));
    }
    assert(crate::policy::texts(result@) =~= ov);
    Ok(result)
}

/// A chunk's identifier, classification, position and text.
pub open spec fn chunk_view(c: Chunk) -> (Seq<char>, Seq<char>, nat, Seq<char>) {
    (c.resource_id@, c.classification@, c.chunk_id as nat, c.text@)
}

/// The identifiers to prepare: at least one, no more than the policy's resources,
/// each valid, distinct and naming a resource of the policy.
pub open spec fn ids_ok(policy: Policy, ids: Seq<String>) -> bool {
    &&& ids.len() > 0
    &&& ids.len() <= policy.resources@.len()
    &&& forall|k: int|
        0 <= k < ids.len() ==> spec_valid_id((#[trigger] ids[k])@) && find_resource(
            policy.resources@,
            ids[k]@,
        ) is Some
    &&& forall|a: int, b: int| 0 <= a < b < ids.len() ==> (#[trigger] ids[a])@ != (#[trigger] ids[b])@
}

/// The chunks of the first `docs.len()` documents, tagged with identifier,
/// classification and position; `None` when a body does not chunk or when more
/// than 512 chunks would result.
pub open spec fn prepared(policy: Policy, ids: Seq<String>, docs: Seq<Document>) -> Option<
    Seq<(Seq<char>, Seq<char>, nat, Seq<char>)>,
>
    decreases docs.len(),
{
    if docs.len() == 0 {
        Some(seq![])
    } else {
        let k = docs.len() - 1;
        match prepared(policy, ids, docs.drop_last()) {
            None => None,
            Some(prev) => match spec_chunks(spec_document_body(docs[k].content@)) {
                None => None,
                Some(cs) => if prev.len() + cs.len() > MAX_PASSAGES {
                    None
                } else {
                    Some(
                        prev + cs.map(
                            |j: int, t: Seq<char>|
                                (
                                    ids[k]@,
                                    find_resource(policy.resources@, ids[k]@)->0.classification@,
                                    j as nat,
                                    t,
                                ),
                        ),
                    )
                },
            },
        }
    }
}

/// The documents that the reads of `trace` returned.
pub open spec fn docs_read(trace: Seq<crate::application::Call>) -> Seq<Document> {
    crate::application::read_docs(trace)
}

/// The reads of a preparation: one per identifier in order, stopping at the first
/// failed read, the first body that does not chunk, or when the 512 limit is passed.
pub open spec fn prepare_calls(
    policy: Policy,
    ids: Seq<String>,
    trace: Seq<crate::application::Call>,
) -> bool {
    &&& trace.len() <= ids.len()
    &&& forall|k: int|
        0 <= k < trace.len() ==> crate::application::reads(
            #[trigger] trace[k],
            find_resource(policy.resources@, ids[k]@)->0,
        )
    &&& forall|k: int|
        0 <= k < trace.len() - 1 ==> !crate::application::read_failed(#[trigger] trace[k])
            && prepared(policy, ids, docs_read(trace.take(k + 1))) is Some
    &&& trace.len() < ids.len() ==> trace.len() > 0 && (crate::application::read_failed(
        trace.last(),
    ) || prepared(policy, ids, docs_read(trace)) is None)
}

/// The full protocol of `prepare`: invalid identifiers are refused before any read;
/// otherwise the reads of `prepare_calls` and the chunks of their documents.
pub open spec fn prepare_protocol(
    policy: Policy,
    ids: Seq<String>,
    trace: Seq<crate::application::Call>,
    r: Result<Vec<Chunk>, IndexError>,
) -> bool {
    if !ids_ok(policy, ids) {
        trace.len() == 0 && r is Err
    } else {
        &&& prepare_calls(policy, ids, trace)
        &&& if trace.len() > 0 && crate::application::read_failed(trace.last()) {
            r is Err
        } else {
            match prepared(policy, ids, docs_read(trace)) {
                None => r is Err,
                Some(cs) => r matches Ok(v) && v@.map_values(|c: Chunk| chunk_view(c)) == cs,
            }
        }
    }
}

/// Every call of `trace` is a read whose answer `reader` may give.
pub open spec fn reads_answered<R: Reader + ?Sized>(
    reader: &R,
    trace: Seq<crate::application::Call>,
) -> bool {
    forall|k: int| 0 <= k < trace.len() ==> read_answered(reader, #[trigger] trace[k])
}

/// Whether the identifiers may be prepared.
fn check_ids(policy: &Policy, ids: &[String]) -> (b: bool)
    ensures
        b == ids_ok(*policy, ids@),
{
    if ids.len() == 0 || ids.len() > policy.resources.len() {
        return false;
    }
    for k in 0..ids.len()
        invariant
            forall|a: int|
                0 <= a < k ==> spec_valid_id((#[trigger] ids@[a])@) && find_resource(
                    policy.resources@,
                    ids@[a]@,
                ) is Some,
            forall|a: int, b: int| 0 <= a < b < k ==> (#[trigger] ids@[a])@ != (#[trigger] ids@[b])@,
    {
        if !valid_id(ids[k].as_str()) {
            return false;
        }
        for j in 0..k
            invariant
                k < ids@.len(),
                forall|a: int| 0 <= a < j ==> (#[trigger] ids@[a])@ != ids@[k as int]@,
        {
            if same_text(ids[j].as_str(), ids[k].as_str()) {
                return false;
            }
        }
        if policy.resource(ids[k].as_str()).is_none() {
            return false;
        }
    }
    true
}

/// The view of a list of chunks.
pub open spec fn chunks_view(v: Seq<Chunk>) -> Seq<(Seq<char>, Seq<char>, nat, Seq<char>)> {
    v.map_values(|c: Chunk| chunk_view(c))
}

/// Prepares the chunks of declared resources for indexing. Every identifier is
/// checked before any document is read; the documents are read through the
/// controlled reader, their front matter removed and their bodies chunked.
pub fn prepare<R: Reader + ?Sized>(policy: &Policy, reader: &R, ids: &[String]) -> (r: Result<
    Vec<Chunk>,
    IndexError,
>)
    ensures
        exists|trace: Seq<crate::application::Call>|
            reads_answered(reader, trace) && #[trigger] prepare_protocol(*policy, ids@, trace, r),
{
    let (r, Ghost(trace)) = prepare_traced(policy, reader, ids);
    r
}

/// `prepare`, with the reads it made.
pub fn prepare_traced<R: Reader + ?Sized>(policy: &Policy, reader: &R, ids: &[String]) -> (r: (
    Result<Vec<Chunk>, IndexError>,
    Ghost<Seq<crate::application::Call>>,
))
    ensures
        prepare_protocol(*policy, ids@, r.1@, r.0),
        reads_answered(reader, r.1@),
{
    if !check_ids(policy, ids) {
        return (Err(IndexError), Ghost(Seq::empty()));
    }
    let mut result: Vec<Chunk> = Vec::new();
    let ghost mut trace: Seq<crate::application::Call> = Seq::empty();
    assert(docs_read(trace) =~= Seq::<Document>::empty());
    assert(chunks_view(result@) =~= Seq::<(Seq<char>, Seq<char>, nat, Seq<char>)>::empty());
    for k in 0..ids.len()
        invariant
            ids_ok(*policy, ids@),
            trace.len() == k,
            forall|t: int|
                0 <= t < k ==> crate::application::reads(
                    #[trigger] trace[t],
                    find_resource(policy.resources@, ids@[t]@)->0,
                ),
            forall|t: int| 0 <= t < k ==> !crate::application::read_failed(#[trigger] trace[t]),
            forall|t: int|
                0 <= t < k ==> prepared(*policy, ids@, #[trigger] docs_read(trace.take(t + 1))) is Some,
            prepared(*policy, ids@, docs_read(trace)) == Some(chunks_view(result@)),
            reads_answered(reader, trace),
    {
        let resource = match policy.resource(ids[k].as_str()) {
            Some(r) => r,
            None => {
                assert(false);
                return (Err(IndexError), Ghost(trace));
            },
        };
        let d = reader.read(resource);
        let ghost before = trace;
        proof {
            trace = trace.push(crate::application::Call::Read(*resource, d));
            assert(trace.take(k as int) == before);
            assert(read_answered(reader, trace.last()));
            assert(forall|t: int| 0 <= t < k ==> trace[t] == before[t]);
            assert forall|t: int| 0 <= t < k implies #[trigger] docs_read(trace.take(t + 1))
                == docs_read(before.take(t + 1)) by {
                assert(trace.take(t + 1) =~= before.take(t + 1));
            }
        }
        let doc = match d {
            Err(_) => {
                assert(crate::application::read_failed(trace.last()));
                return (Err(IndexError), Ghost(trace));
            },
            Ok(doc) => doc,
        };
        let ghost docs = docs_read(trace);
        assert(docs =~= docs_read(before).push(doc));
        assert(docs.drop_last() =~= docs_read(before));
        let body = document_body(doc.content.as_str());
        let cs = match chunks(body.as_str()) {
            Err(_) => {
                assert(prepared(*policy, ids@, docs) is None);
                return (Err(IndexError), Ghost(trace));
            },
            Ok(cs) => cs,
        };
        let ghost prev = chunks_view(result@);
        let ghost csv = crate::policy::texts(cs@);
        let ghost cls = find_resource(policy.resources@, ids@[k as int]@)->0.classification@;
        let ghost tagged = csv.map(
            |j: int, t: Seq<char>| (ids@[k as int]@, cls, j as nat, t),
        );
        assert(spec_chunks(spec_document_body(docs.last().content@)) == Some(csv));
        #[verifier::loop_isolation(false)]
        for j in 0..cs.len()
            invariant
                ids_ok(*policy, ids@),
                k < ids@.len(),
                *resource == find_resource(policy.resources@, ids@[k as int]@)->0,
                cls == resource.classification@,
                csv == crate::policy::texts(cs@),
                tagged == csv.map(|j: int, t: Seq<char>| (ids@[k as int]@, cls, j as nat, t)),
                prev.len() + j <= MAX_PASSAGES,
                chunks_view(result@) == prev + tagged.take(j as int),
        {
            if result.len() == MAX_PASSAGES {
                assert(prepared(*policy, ids@, docs) is None);
                return (Err(IndexError), Ghost(trace));
            }
            let c = Chunk {
                resource_id: ids[k].clone(),
                classification: resource.classification.clone(),
                chunk_id: j,
                text: cs[j].clone(),
            };
            let ghost old_view = chunks_view(result@);
            result.push(c);
            assert(tagged[j as int] == chunk_view(c));
            assert(chunks_view(result@) =~= old_view.push(chunk_view(c)));
            assert(tagged.take(j + 1) =~= tagged.take(j as int).push(tagged[j as int]));
        }
        assert(tagged.take(cs@.len() as int) == tagged);
        assert(prepared(*policy, ids@, docs) == Some(prev + tagged));
        assert(trace.take(k + 1) == trace);
    }
    (Ok(result), Ghost(trace))
}

/// What the checks read of an embedding vector: its length, and whether every
/// component is a finite number.
#[derive(Debug, Clone, Copy, PartialEq, Eq, Structural)]
pub struct VectorShape {
    pub len: usize,
    pub finite: bool,
}

/// A vector is usable: 1 to `MAX_DIMENSIONS` finite components.
pub open spec fn spec_vector_ok(v: VectorShape) -> bool {
    0 < v.len <= MAX_DIMENSIONS && v.finite
}

/// Refuses an empty, oversized or non-finite vector.
pub fn validate_vector(v: VectorShape) -> (r: Result<(), IndexError>)
    ensures
        r is Ok <==> spec_vector_ok(v),
{
    if v.len == 0 || v.len > MAX_DIMENSIONS || !v.finite {
        Err(IndexError)
    } else {
        Ok(())
    }
}

/// A chunk with the shape of its embedding.
#[derive(Debug, Clone)]
pub struct ShapedPassage {
    pub chunk: Chunk,
    pub vector: VectorShape,
}

/// The classifications that an indexed chunk may carry.
pub open spec fn known_classification(c: Seq<char>) -> bool {
    c == "PUBLIC"@ || c == "RH"@ || c == "IT"@
}

/// One passage of a batch whose vectors have `dimensions` components.
pub open spec fn passage_ok(p: ShapedPassage, dimensions: usize) -> bool {
    &&& spec_vector_ok(p.vector)
    &&& p.vector.len == dimensions
    &&& spec_valid_id(p.chunk.resource_id@)
    &&& known_classification(p.chunk.classification@)
    &&& trim(p.chunk.text@).len() > 0
    &&& p.chunk.text@.len() <= MAX_CHUNK
}

/// No two passages of a batch share resource and chunk number.
pub open spec fn keys_distinct(ps: Seq<ShapedPassage>) -> bool {
    forall|i: int, j: int|
        0 <= i < j < ps.len() ==> !(#[trigger] ps[i].chunk.resource_id@ == #[trigger] ps[j].chunk.resource_id@
            && ps[i].chunk.chunk_id == ps[j].chunk.chunk_id)
}

/// A batch to index: 1 to `MAX_PASSAGES` passages, every one valid with the
/// dimensions of the first vector, and no repeated (resource, chunk) pair.
pub open spec fn spec_batch_ok(ps: Seq<ShapedPassage>) -> bool {
    &&& 0 < ps.len() <= MAX_PASSAGES
    &&& forall|i: int| 0 <= i < ps.len() ==> passage_ok(#[trigger] ps[i], ps[0].vector.len)
    &&& keys_distinct(ps)
}

/// Checks a batch before any write to the vector collection; gives the dimensions of
/// its vectors.
pub fn validate_batch(passages: &[ShapedPassage]) -> (r: Result<usize, IndexError>)
    ensures
        match r {
            Ok(d) => spec_batch_ok(passages@) && d == passages@[0].vector.len,
            Err(_) => !spec_batch_ok(passages@),
        },
{
    if passages.len() == 0 || passages.len() > MAX_PASSAGES {
        return Err(IndexError);
    }
    let dimensions = passages[0].vector.len;
    for k in 0..passages.len()
        invariant
            0 < passages@.len() <= MAX_PASSAGES,
            dimensions == passages@[0].vector.len,
            forall|i: int| 0 <= i < k ==> passage_ok(#[trigger] passages@[i], dimensions),
            keys_distinct(passages@.take(k as int)),
    {
        let p = &passages[k];
        if validate_vector(p.vector).is_err() || p.vector.len != dimensions || !valid_id(
            p.chunk.resource_id.as_str(),
        ) {
            assert(!passage_ok(passages@[k as int], dimensions));
            return Err(IndexError);
        }
        let c = p.chunk.classification.as_str();
        if !(same_text(c, "PUBLIC") || same_text(c, "RH") || same_text(c, "IT")) {
            assert(!passage_ok(passages@[k as int], dimensions));
            return Err(IndexError);
        }
        let t = chars_of(p.chunk.text.as_str());
        if trimmed(&t).len() == 0 || t.len() > MAX_CHUNK {
            assert(!passage_ok(passages@[k as int], dimensions));
            return Err(IndexError);
        }
        for j in 0..k
            invariant
                j <= k < passages@.len(),
                forall|i: int|
                    0 <= i < j ==> !(passages@[i].chunk.resource_id@ == passages@[k as int].chunk.resource_id@
                        && passages@[i].chunk.chunk_id == passages@[k as int].chunk.chunk_id),
        {
            if passages[j].chunk.chunk_id == passages[k].chunk.chunk_id && same_text(
                passages[j].chunk.resource_id.as_str(),
                passages[k].chunk.resource_id.as_str(),
            ) {
                assert(passages@[j as int].chunk.resource_id@ == passages@[k as int].chunk.resource_id@);
                assert(!keys_distinct(passages@));
                return Err(IndexError);
            }
        }
        assert(keys_distinct(passages@.take(k + 1))) by {
            assert forall|a: int, b: int| 0 <= a < b < passages@.take(k + 1).len() implies !(
            #[trigger] passages@.take(k + 1)[a].chunk.resource_id@
                == #[trigger] passages@.take(k + 1)[b].chunk.resource_id@
                && passages@.take(k + 1)[a].chunk.chunk_id == passages@.take(
                k + 1,
            )[b].chunk.chunk_id) by {
                if b < k {
                    assert(passages@.take(k as int)[a] == passages@[a]);
                    assert(passages@.take(k as int)[b] == passages@[b]);
                }
            }
        }
    }
    assert(passages@.take(passages@.len() as int) == passages@);
    Ok(dimensions)
}

} // verus!
