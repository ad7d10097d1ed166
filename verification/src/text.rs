//! Character-level text model shared by the policy, retrieval and indexing code.
//!
//! Text is modelled as `Seq<char>`. Line splitting, whitespace trimming and word
//! splitting follow the definitions of the corresponding `str` methods of the
//! standard library.
use vstd::prelude::*;

verus! {

/// The Unicode `White_Space` property, as tested by `char::is_whitespace`.
pub open spec fn is_ws(c: char) -> bool {
    ||| ('\t' <= c && c <= '\r')
    ||| c == ' '
    ||| c == '\u{85}'
    ||| c == '\u{A0}'
    ||| c == '\u{1680}'
    ||| ('\u{2000}' <= c && c <= '\u{200A}')
    ||| c == '\u{2028}'
    ||| c == '\u{2029}'
    ||| c == '\u{202F}'
    ||| c == '\u{205F}'
    ||| c == '\u{3000}'
}

pub fn is_whitespace(c: char) -> (r: bool)
    ensures
        r == is_ws(c),
{
    ('\t' <= c && c <= '\r') || c == ' ' || c == '\u{85}' || c == '\u{A0}' || c == '\u{1680}'
        || ('\u{2000}' <= c && c <= '\u{200A}') || c == '\u{2028}' || c == '\u{2029}'
        || c == '\u{202F}' || c == '\u{205F}' || c == '\u{3000}'
}

/// Lower-case ASCII letter, ASCII digit or hyphen.
pub open spec fn is_id_char(c: char) -> bool {
    ('a' <= c && c <= 'z') || ('0' <= c && c <= '9') || c == '-'
}

/// An identifier: 1 to 80 characters, each one an `is_id_char`.
pub open spec fn spec_valid_id(s: Seq<char>) -> bool {
    &&& 1 <= s.len() <= 80
    &&& forall|i: int| 0 <= i < s.len() ==> is_id_char(#[trigger] s[i])
}

/// Whether `value` is a well-formed identifier (the same test as on its bytes:
/// a non-ASCII character never passes, and for ASCII text bytes and characters agree).
pub fn valid_id(value: &str) -> (r: bool)
    ensures
        r == spec_valid_id(value@),
{
    broadcast use vstd::string::axiom_spec_iter;

    let mut n: usize = 0;
    let mut ok = true;
    for c in it: value.chars()
        invariant
            n == if it.index() <= 81 {
                it.index()
            } else {
                81
            },
            it.seq() == value@,
            ok == (forall|i: int| 0 <= i < it.index() ==> is_id_char(#[trigger] value@[i])),
    {
        if !(('a' <= c && c <= 'z') || ('0' <= c && c <= '9') || c == '-') {
            ok = false;
        }
        if n <= 80 {
            n = n + 1;
        }
    }
    ok && n >= 1 && n <= 80
}

/// The characters of a string slice, in order.
pub fn chars_of(s: &str) -> (v: Vec<char>)
    ensures
        v@ == s@,
{
    broadcast use vstd::string::axiom_spec_iter;

    let mut v: Vec<char> = Vec::new();
    for c in it: s.chars()
        invariant
            it.seq() == s@,
            v@ == s@.take(it.index() as int),
    {
        v.push(c);
    }
    v
}

/// `String::push`: appends one character at the end of the string.
#[verifier::external_body]
fn push_char(s: &mut String, c: char)
    ensures
        final(s)@ == old(s)@.push(c),
{
    s.push(c)
}

/// Appends characters to a string.
pub fn push_chars(s: &mut String, v: &[char])
    ensures
        final(s)@ == old(s)@ + v@,
{
    let ghost start = s@;
    for i in 0..v.len()
        invariant
            s@ == start + v@.take(i as int),
    {
        push_char(s, v[i]);
        assert(v@.take(i + 1) == v@.take(i as int).push(v@[i as int]));
    }
    assert(v@.take(v.len() as int) == v@);
}

/// A string holding exactly the given characters.
pub fn string_of(v: &[char]) -> (s: String)
    ensures
        s@ == v@,
{
    let mut s = String::new();
    push_chars(&mut s, v);
    s
}

/// Whether two string slices hold the same characters.
pub fn same_text(a: &str, b: &str) -> (r: bool)
    ensures
        r == (a@ == b@),
{
    let x = chars_of(a);
    let y = chars_of(b);
    seq_eq(&x, &y)
}

/// Whether two character slices are equal.
pub fn seq_eq(x: &[char], y: &[char]) -> (r: bool)
    ensures
        r == (x@ == y@),
{
    if x.len() != y.len() {
        return false;
    }
    for i in 0..x.len()
        invariant
            x@.len() == y@.len(),
            forall|j: int| 0 <= j < i ==> x@[j] == y@[j],
    {
        if x[i] != y[i] {
            return false;
        }
    }
    assert(x@ =~= y@);
    true
}

/// Whether `p` is a prefix of `s`.
pub open spec fn has_prefix(s: Seq<char>, p: Seq<char>) -> bool {
    p.len() <= s.len() && s.take(p.len() as int) == p
}

/// Whether `p` is a suffix of `s`.
pub open spec fn has_suffix(s: Seq<char>, p: Seq<char>) -> bool {
    p.len() <= s.len() && s.skip(s.len() - p.len()) == p
}

pub fn starts_with(s: &[char], p: &[char]) -> (r: bool)
    ensures
        r == has_prefix(s@, p@),
{
    if p.len() > s.len() {
        return false;
    }
    for i in 0..p.len()
        invariant
            p@.len() <= s@.len(),
            forall|j: int| 0 <= j < i ==> s@[j] == p@[j],
    {
        if s[i] != p[i] {
            assert(s@.take(p@.len() as int)[i as int] != p@[i as int]);
            return false;
        }
    }
    assert(s@.take(p@.len() as int) =~= p@);
    true
}

pub fn ends_with(s: &[char], p: &[char]) -> (r: bool)
    ensures
        r == has_suffix(s@, p@),
{
    if p.len() > s.len() {
        return false;
    }
    let off = s.len() - p.len();
    let n = p.len();
    let slen = s.len();
    for i in 0..n
        invariant
            n == p@.len(),
            slen == s@.len(),
            p@.len() <= s@.len(),
            off + p@.len() == s@.len(),
            forall|j: int| 0 <= j < i ==> s@[off + j] == p@[j],
    {
        if s[off + i] != p[i] {
            assert(s@.skip(off as int)[i as int] != p@[i as int]);
            return false;
        }
    }
    assert(s@.skip(off as int) =~= p@);
    true
}

/// `s` without its leading whitespace.
pub open spec fn trim_start(s: Seq<char>) -> Seq<char>
    decreases s.len(),
{
    if s.len() > 0 && is_ws(s[0]) {
        trim_start(s.drop_first())
    } else {
        s
    }
}

/// `s` without its trailing whitespace.
pub open spec fn trim_end(s: Seq<char>) -> Seq<char>
    decreases s.len(),
{
    if s.len() > 0 && is_ws(s.last()) {
        trim_end(s.drop_last())
    } else {
        s
    }
}

/// `s` without leading and trailing whitespace (`str::trim`).
pub open spec fn trim(s: Seq<char>) -> Seq<char> {
    trim_end(trim_start(s))
}

/// Every character of `s` is whitespace.
pub open spec fn blank(s: Seq<char>) -> bool {
    forall|i: int| 0 <= i < s.len() ==> is_ws(#[trigger] s[i])
}

pub proof fn lemma_trim_start_skip(s: Seq<char>, i: int)
    requires
        0 <= i <= s.len(),
        forall|j: int| 0 <= j < i ==> is_ws(#[trigger] s[j]),
    ensures
        trim_start(s) == trim_start(s.skip(i)),
    decreases i,
{
    if i > 0 {
        assert(is_ws(s[0]));
        lemma_trim_start_skip(s.drop_first(), i - 1);
        assert(s.drop_first().skip(i - 1) =~= s.skip(i));
    } else {
        assert(s.skip(0) =~= s);
    }
}

pub proof fn lemma_trim_end_take(s: Seq<char>, i: int)
    requires
        0 <= i <= s.len(),
        forall|j: int| i <= j < s.len() ==> is_ws(#[trigger] s[j]),
    ensures
        trim_end(s) == trim_end(s.take(i)),
    decreases s.len() - i,
{
    if i < s.len() {
        assert(is_ws(s.last()));
        lemma_trim_end_take(s.drop_last(), i);
        assert(s.drop_last().take(i) =~= s.take(i));
    } else {
        assert(s.take(i) =~= s);
    }
}

pub proof fn lemma_trim_start_len(s: Seq<char>)
    ensures
        trim_start(s).len() <= s.len(),
        trim_start(s).len() == 0 <==> blank(s),
        trim_start(s).len() > 0 ==> !is_ws(trim_start(s)[0]),
    decreases s.len(),
{
    if s.len() > 0 && is_ws(s[0]) {
        lemma_trim_start_len(s.drop_first());
        if blank(s.drop_first()) {
            assert forall|i: int| 0 <= i < s.len() implies is_ws(#[trigger] s[i]) by {
                if i > 0 {
                    assert(s[i] == s.drop_first()[i - 1]);
                }
            }
        }
        if blank(s) {
            assert forall|i: int| 0 <= i < s.drop_first().len() implies is_ws(
                #[trigger] s.drop_first()[i],
            ) by {
                assert(s.drop_first()[i] == s[i + 1]);
            }
        }
    } else if s.len() > 0 {
        assert(!is_ws(s[0]));
    }
}

/// The position of the first non-whitespace character at or after `lo`, or `hi`.
pub fn skip_ws_forward(v: &[char], lo: usize, hi: usize) -> (r: usize)
    requires
        lo <= hi <= v@.len(),
    ensures
        lo <= r <= hi,
        forall|j: int| lo <= j < r ==> is_ws(#[trigger] v@[j]),
        r < hi ==> !is_ws(v@[r as int]),
{
    let mut i = lo;
    while i < hi && is_whitespace(v[i])
        invariant
            lo <= i <= hi,
            hi <= v@.len(),
            forall|j: int| lo <= j < i ==> is_ws(#[trigger] v@[j]),
        decreases hi - i,
    {
        i = i + 1;
    }
    i
}

/// Indices `(a, b)` such that `v[a..b]` is `trim(v)`.
pub fn trim_bounds(v: &[char]) -> (r: (usize, usize))
    ensures
        r.0 <= r.1 <= v@.len(),
        v@.subrange(r.0 as int, r.1 as int) == trim(v@),
{
    let a = skip_ws_forward(v, 0, v.len());
    proof {
        lemma_trim_start_skip(v@, a as int);
    }
    let mut b = v.len();
    while b > a && is_whitespace(v[b - 1])
        invariant
            a <= b <= v@.len(),
            forall|j: int| b <= j < v@.len() ==> is_ws(#[trigger] v@[j]),
        decreases b,
    {
        b = b - 1;
    }
    proof {
        let t = v@.skip(a as int);
        assert(trim_start(v@) == t) by {
            if (a as int) < v@.len() {
                assert(!is_ws(t[0]));
            }
        }
        assert forall|j: int| b - a <= j < t.len() implies is_ws(#[trigger] t[j]) by {
            assert(t[j] == v@[a + j]);
        }
        lemma_trim_end_take(t, b - a);
        let u = t.take(b - a);
        assert(u =~= v@.subrange(a as int, b as int));
        if b > a {
            assert(!is_ws(u.last()));
        }
    }
    (a, b)
}

/// `trim(v)` as a new vector.
pub fn trimmed(v: &[char]) -> (r: Vec<char>)
    ensures
        r@ == trim(v@),
{
    let (a, b) = trim_bounds(v);
    slice_to_vec(v, a, b)
}

/// A copy of `v[a..b]`.
pub fn slice_to_vec(v: &[char], a: usize, b: usize) -> (r: Vec<char>)
    requires
        a <= b <= v@.len(),
    ensures
        r@ == v@.subrange(a as int, b as int),
{
    let mut r: Vec<char> = Vec::new();
    for i in a..b
        invariant
            b <= v@.len(),
            r@ == v@.subrange(a as int, i as int),
    {
        r.push(v[i]);
    }
    r
}

/// A line without one trailing carriage return.
pub open spec fn strip_cr(line: Seq<char>) -> Seq<char> {
    if line.len() > 0 && line.last() == '\r' {
        line.drop_last()
    } else {
        line
    }
}

/// Line splitting state after reading `s`: the completed lines and the open line.
pub open spec fn lines_acc(s: Seq<char>) -> (Seq<Seq<char>>, Seq<char>)
    decreases s.len(),
{
    if s.len() == 0 {
        (seq![], seq![])
    } else {
        let (done, cur) = lines_acc(s.drop_last());
        if s.last() == '\n' {
            (done.push(strip_cr(cur)), seq![])
        } else {
            (done, cur.push(s.last()))
        }
    }
}

/// The lines of `s` (`str::lines`): split at `\n`, a `\r` before the `\n` removed,
/// no empty line after a final `\n`.
pub open spec fn lines(s: Seq<char>) -> Seq<Seq<char>> {
    let (done, cur) = lines_acc(s);
    if cur.len() == 0 {
        done
    } else {
        done.push(cur)
    }
}

pub fn strip_cr_vec(line: Vec<char>) -> (r: Vec<char>)
    ensures
        r@ == strip_cr(line@),
{
    let mut line = line;
    if line.len() > 0 && line[line.len() - 1] == '\r' {
        line.pop();
    }
    line
}

/// The lines of `v`.
pub fn lines_of(v: &[char]) -> (r: Vec<Vec<char>>)
    ensures
        r@.map_values(|l: Vec<char>| l@) == lines(v@),
{
    let mut done: Vec<Vec<char>> = Vec::new();
    let mut cur: Vec<char> = Vec::new();
    for i in 0..v.len()
        invariant
            (done@.map_values(|l: Vec<char>| l@), cur@) == lines_acc(v@.take(i as int)),
    {
        assert(v@.take(i + 1).drop_last() == v@.take(i as int));
        if v[i] == '\n' {
            let line = strip_cr_vec(cur);
            done.push(line);
            cur = Vec::new();
            assert(done@.map_values(|l: Vec<char>| l@) =~= lines_acc(v@.take(i as int)).0.push(
                strip_cr(lines_acc(v@.take(i as int)).1),
            ));
        } else {
            cur.push(v[i]);
        }
    }
    assert(v@.take(v.len() as int) == v@);
    if cur.len() > 0 {
        done.push(cur);
        assert(done@.map_values(|l: Vec<char>| l@) =~= lines_acc(v@).0.push(lines_acc(v@).1));
    }
    done
}

/// Joins `parts` with `sep` between consecutive parts (`join`).
pub open spec fn join(parts: Seq<Seq<char>>, sep: Seq<char>) -> Seq<char>
    decreases parts.len(),
{
    if parts.len() == 0 {
        seq![]
    } else if parts.len() == 1 {
        parts[0]
    } else {
        join(parts.drop_last(), sep) + sep + parts.last()
    }
}

/// `parts` joined with `sep`.
pub fn join_vecs(parts: &Vec<Vec<char>>, sep: &[char]) -> (r: Vec<char>)
    ensures
        r@ == join(parts@.map_values(|l: Vec<char>| l@), sep@),
{
    let ghost ps = parts@.map_values(|l: Vec<char>| l@);
    let mut r: Vec<char> = Vec::new();
    for i in 0..parts.len()
        invariant
            ps == parts@.map_values(|l: Vec<char>| l@),
            r@ == join(ps.take(i as int), sep@),
    {
        assert(ps.take(i + 1).drop_last() == ps.take(i as int));
        if i > 0 {
            append_chars(&mut r, sep);
        }
        append_chars(&mut r, &parts[i]);
        proof {
            if i == 0 {
                assert(ps.take(1)[0] == ps[0]);
                assert(r@ =~= parts@[0]@);
            }
        }
    }
    assert(ps.take(parts.len() as int) == ps);
    r
}

/// Appends the characters of `v` to `r`.
pub fn append_chars(r: &mut Vec<char>, v: &[char])
    ensures
        final(r)@ == old(r)@ + v@,
{
    let ghost start = r@;
    for i in 0..v.len()
        invariant
            r@ == start + v@.take(i as int),
    {
        r.push(v[i]);
        assert(v@.take(i + 1) == v@.take(i as int).push(v@[i as int]));
    }
    assert(v@.take(v.len() as int) == v@);
}

/// Whitespace splitting state after reading `s`: completed words and the open word.
pub open spec fn words_acc(s: Seq<char>) -> (Seq<Seq<char>>, Seq<char>)
    decreases s.len(),
{
    if s.len() == 0 {
        (seq![], seq![])
    } else {
        let (done, cur) = words_acc(s.drop_last());
        if is_ws(s.last()) {
            if cur.len() > 0 {
                (done.push(cur), seq![])
            } else {
                (done, cur)
            }
        } else {
            (done, cur.push(s.last()))
        }
    }
}

/// The maximal runs of non-whitespace characters of `s` (`str::split_whitespace`).
pub open spec fn split_ws(s: Seq<char>) -> Seq<Seq<char>> {
    let (done, cur) = words_acc(s);
    if cur.len() == 0 {
        done
    } else {
        done.push(cur)
    }
}

/// The whitespace-separated words of `v`.
pub fn split_ws_of(v: &[char]) -> (r: Vec<Vec<char>>)
    ensures
        r@.map_values(|l: Vec<char>| l@) == split_ws(v@),
{
    let mut done: Vec<Vec<char>> = Vec::new();
    let mut cur: Vec<char> = Vec::new();
    for i in 0..v.len()
        invariant
            (done@.map_values(|l: Vec<char>| l@), cur@) == words_acc(v@.take(i as int)),
    {
        assert(v@.take(i + 1).drop_last() == v@.take(i as int));
        if is_whitespace(v[i]) {
            if cur.len() > 0 {
                done.push(cur);
                cur = Vec::new();
                assert(done@.map_values(|l: Vec<char>| l@) =~= words_acc(
                    v@.take(i as int),
                ).0.push(words_acc(v@.take(i as int)).1));
            }
        } else {
            cur.push(v[i]);
        }
    }
    assert(v@.take(v.len() as int) == v@);
    if cur.len() > 0 {
        done.push(cur);
        assert(done@.map_values(|l: Vec<char>| l@) =~= words_acc(v@).0.push(words_acc(v@).1));
    }
    done
}

/// ASCII letter, ASCII digit, `-`, `_` or `.`: the characters of a path segment.
pub open spec fn is_segment_char(c: char) -> bool {
    ('a' <= c && c <= 'z') || ('A' <= c && c <= 'Z') || ('0' <= c && c <= '9') || c == '-'
        || c == '_' || c == '.'
}

/// The pieces of `s` between occurrences of `sep` (`str::split(sep)`), empty
/// pieces included.
pub open spec fn split_char(s: Seq<char>, sep: char) -> Seq<Seq<char>>
    decreases s.len(),
{
    if s.len() == 0 {
        seq![seq![]]
    } else {
        let prev = split_char(s.drop_last(), sep);
        if s.last() == sep {
            prev.push(seq![])
        } else {
            prev.update(prev.len() - 1, prev.last().push(s.last()))
        }
    }
}

/// The `/`-separated segments of `s`.
pub open spec fn segments(s: Seq<char>) -> Seq<Seq<char>> {
    split_char(s, '/')
}

/// A portable segment: non-empty, not `.` or `..`, made of `is_segment_char`.
pub open spec fn safe_segment(p: Seq<char>) -> bool {
    &&& p.len() > 0
    &&& p != seq!['.']
    &&& p != seq!['.', '.']
    &&& forall|i: int| 0 <= i < p.len() ==> is_segment_char(#[trigger] p[i])
}

/// A non-empty relative path whose every `/`-separated segment is `safe_segment`.
pub open spec fn spec_safe_relative(s: Seq<char>) -> bool {
    &&& s.len() > 0
    &&& forall|k: int| 0 <= k < segments(s).len() ==> safe_segment(#[trigger] segments(s)[k])
}

pub proof fn lemma_split_len(s: Seq<char>, sep: char)
    ensures
        split_char(s, sep).len() >= 1,
    decreases s.len(),
{
    if s.len() > 0 {
        lemma_split_len(s.drop_last(), sep);
    }
}

/// Whether `seg` is a safe segment.
pub fn segment_ok(seg: &[char]) -> (r: bool)
    ensures
        r == safe_segment(seg@),
{
    if seg.len() == 0 {
        return false;
    }
    if seg.len() == 1 && seg[0] == '.' {
        assert(seg@ =~= seq!['.']);
        return false;
    }
    if seg.len() == 2 && seg[0] == '.' && seg[1] == '.' {
        assert(seg@ =~= seq!['.', '.']);
        return false;
    }
    assert(seg@ != seq!['.']) by {
        if seg@.len() == 1 {
            assert(seg@[0] != seq!['.'][0]);
        }
    }
    assert(seg@ != seq!['.', '.']) by {
        if seg@.len() == 2 {
            assert(seg@[0] != '.' || seg@[1] != '.');
        }
    }
    for i in 0..seg.len()
        invariant
            forall|j: int| 0 <= j < i ==> is_segment_char(#[trigger] seg@[j]),
    {
        let c = seg[i];
        if !(('a' <= c && c <= 'z') || ('A' <= c && c <= 'Z') || ('0' <= c && c <= '9') || c
            == '-' || c == '_' || c == '.') {
            return false;
        }
    }
    true
}

/// The pieces of `v` between occurrences of `sep`.
pub fn split_of(v: &[char], sep: char) -> (r: Vec<Vec<char>>)
    ensures
        r@.map_values(|l: Vec<char>| l@) == split_char(v@, sep),
{
    let mut done: Vec<Vec<char>> = Vec::new();
    let mut cur: Vec<char> = Vec::new();
    for i in 0..v.len()
        invariant
            done@.map_values(|l: Vec<char>| l@).push(cur@) == split_char(v@.take(i as int), sep),
    {
        assert(v@.take(i + 1).drop_last() == v@.take(i as int));
        let ghost before = done@.map_values(|l: Vec<char>| l@).push(cur@);
        if v[i] == sep {
            done.push(cur);
            cur = Vec::new();
            assert(done@.map_values(|l: Vec<char>| l@).push(cur@) =~= before.push(seq![]));
        } else {
            cur.push(v[i]);
            assert(done@.map_values(|l: Vec<char>| l@).push(cur@) =~= before.update(
                before.len() - 1,
                before.last().push(v@[i as int]),
            ));
        }
    }
    assert(v@.take(v.len() as int) == v@);
    done.push(cur);
    done
}

/// Whether `path` is a non-empty relative path made only of safe segments.
pub fn safe_relative_chars(path: &[char]) -> (r: bool)
    ensures
        r == spec_safe_relative(path@),
{
    if path.len() == 0 {
        return false;
    }
    let segs = split_of(path, '/');
    let ghost ss = segments(path@);
    for k in 0..segs.len()
        invariant
            segs@.map_values(|l: Vec<char>| l@) == ss,
            ss == segments(path@),
            path@.len() > 0,
            forall|j: int| 0 <= j < k ==> safe_segment(#[trigger] ss[j]),
    {
        assert(segs@[k as int]@ == ss[k as int]);
        if !segment_ok(&segs[k]) {
            return false;
        }
    }
    true
}

/// The code of `c` with an ASCII capital letter mapped to its small letter
/// (`char::to_ascii_lowercase`).
pub open spec fn ascii_lower(c: char) -> int {
    if 'A' <= c && c <= 'Z' {
        c as int + 32
    } else {
        c as int
    }
}

/// Equality up to ASCII case (`str::eq_ignore_ascii_case`): same length, and equal
/// characters once ASCII capitals are mapped to small letters.
pub open spec fn same_ignoring_ascii_case(a: Seq<char>, b: Seq<char>) -> bool {
    &&& a.len() == b.len()
    &&& forall|i: int| 0 <= i < a.len() ==> ascii_lower(#[trigger] a[i]) == ascii_lower(b[i])
}

fn lower_code(c: char) -> (r: u32)
    ensures
        r == ascii_lower(c),
{
    if 'A' <= c && c <= 'Z' {
        (c as u32) + 32
    } else {
        c as u32
    }
}

/// Whether `a` and `b` are equal up to ASCII case.
pub fn eq_ignore_case(a: &[char], b: &[char]) -> (r: bool)
    ensures
        r == same_ignoring_ascii_case(a@, b@),
{
    if a.len() != b.len() {
        return false;
    }
    for i in 0..a.len()
        invariant
            a@.len() == b@.len(),
            forall|j: int| 0 <= j < i ==> ascii_lower(#[trigger] a@[j]) == ascii_lower(b@[j]),
    {
        if lower_code(a[i]) != lower_code(b[i]) {
            return false;
        }
    }
    true
}

/// The decimal digit of `n`, from 0 to 9.
pub open spec fn digit(n: int) -> char {
    (n + 48) as char
}

/// The character of a decimal digit.
pub fn digit_char(n: u32) -> (r: char)
    requires
        n < 10,
    ensures
        r == digit(n as int),
{
    match n {
        0 => '0',
        1 => '1',
        2 => '2',
        3 => '3',
        4 => '4',
        5 => '5',
        6 => '6',
        7 => '7',
        8 => '8',
        _ => '9',
    }
}

/// `n` in decimal, without leading zeros (`u64`'s `Display`).
pub open spec fn decimal(n: nat) -> Seq<char>
    decreases n,
{
    if n < 10 {
        seq![digit(n as int)]
    } else {
        decimal(n / 10).push(digit((n % 10) as int))
    }
}

/// Appends `n` in decimal.
pub fn push_decimal(s: &mut String, n: u64)
    ensures
        final(s)@ == old(s)@ + decimal(n as nat),
    decreases n,
{
    if n >= 10 {
        push_decimal(s, n / 10);
    }
    let d = digit_char((n % 10) as u32);
    let ghost before = s@;
    push_chars(s, &[d]);
    proof {
        if n >= 10 {
            assert(before + seq![d] =~= old(s)@ + decimal(n as nat));
        } else {
            assert(before + seq![d] =~= old(s)@ + decimal(n as nat));
        }
    }
}

/// `s` is not empty and neither starts nor ends with whitespace.
pub open spec fn solid(s: Seq<char>) -> bool {
    s.len() > 0 && !is_ws(s[0]) && !is_ws(s.last())
}

/// `trim_end(s)` is a prefix of `s`, not empty when `s` starts with a non-whitespace
/// character.
pub proof fn lemma_trim_end_prefix(s: Seq<char>)
    ensures
        trim_end(s).len() <= s.len(),
        trim_end(s) == s.take(trim_end(s).len() as int),
        s.len() > 0 && !is_ws(s[0]) ==> trim_end(s).len() > 0,
        trim_end(s).len() > 0 ==> !is_ws(trim_end(s).last()),
    decreases s.len(),
{
    if s.len() > 0 && is_ws(s.last()) {
        lemma_trim_end_prefix(s.drop_last());
        let t = trim_end(s.drop_last());
        assert(s.drop_last().take(t.len() as int) =~= s.take(t.len() as int));
        if s.len() > 0 && !is_ws(s[0]) {
            assert(s.drop_last()[0] == s[0]);
        }
    } else {
        assert(s.take(s.len() as int) =~= s);
    }
}

/// A text that starts with a non-whitespace character keeps it first when trimmed.
pub proof fn lemma_trim_solid(s: Seq<char>)
    requires
        s.len() > 0,
        !is_ws(s[0]),
    ensures
        solid(trim(s)),
        trim(s)[0] == s[0],
        trim(s).len() <= s.len(),
{
    assert(trim_start(s) == s);
    lemma_trim_end_prefix(s);
}

/// A text trims to something exactly when it is not blank.
pub proof fn lemma_trim_nonblank(s: Seq<char>)
    ensures
        trim(s).len() > 0 <==> !blank(s),
        trim(s).len() > 0 ==> solid(trim(s)),
{
    lemma_trim_start_len(s);
    let t = trim_start(s);
    lemma_trim_end_prefix(t);
    if t.len() > 0 {
        assert(trim(s)[0] == t[0]);
    }
}

/// The words of a text start with a non-whitespace character, and a text that is not
/// blank has words.
pub proof fn lemma_words_acc(s: Seq<char>)
    ensures
        forall|k: int| 0 <= k < words_acc(s).0.len() ==> solid(#[trigger] words_acc(s).0[k]),
        words_acc(s).1.len() > 0 ==> solid(words_acc(s).1),
        !blank(s) ==> words_acc(s).0.len() > 0 || words_acc(s).1.len() > 0,
    decreases s.len(),
{
    if s.len() > 0 {
        lemma_words_acc(s.drop_last());
        let (done, cur) = words_acc(s.drop_last());
        if cur.len() > 0 && !is_ws(s.last()) {
            assert(cur.push(s.last())[0] == cur[0]);
        }
        if is_ws(s.last()) && cur.len() > 0 {
            assert forall|k: int| 0 <= k < done.push(cur).len() implies solid(#[trigger] done.push(cur)[k]) by {
                if k < done.len() {
                    assert(done.push(cur)[k] == done[k]);
                }
            }
        }
        if !blank(s) {
            let i = choose|i: int| 0 <= i < s.len() && !is_ws(#[trigger] s[i]);
            if i < s.len() - 1 {
                assert(s.drop_last()[i] == s[i]);
            }
        }
    }
}

/// The words of a text start with a non-whitespace character, and a text that is not
/// blank has words.
pub proof fn lemma_split_ws(s: Seq<char>)
    ensures
        forall|k: int| 0 <= k < split_ws(s).len() ==> solid(#[trigger] split_ws(s)[k]),
        !blank(s) ==> split_ws(s).len() > 0,
{
    lemma_words_acc(s);
    let (done, cur) = words_acc(s);
    if cur.len() > 0 {
        assert forall|k: int| 0 <= k < split_ws(s).len() implies solid(#[trigger] split_ws(s)[k]) by {
            if k < done.len() {
                assert(split_ws(s)[k] == done[k]);
            }
        }
    }
}

/// `trim_start(s)` is a suffix of `s`.
pub proof fn lemma_trim_start_suffix(s: Seq<char>)
    ensures
        trim_start(s).len() <= s.len(),
        trim_start(s) == s.skip(s.len() - trim_start(s).len()),
    decreases s.len(),
{
    if s.len() > 0 && is_ws(s[0]) {
        lemma_trim_start_suffix(s.drop_first());
        let t = trim_start(s.drop_first());
        assert(s.drop_first().skip(s.drop_first().len() - t.len()) =~= s.skip(s.len() - t.len()));
    } else {
        assert(s.skip(0) =~= s);
    }
}

/// A text that neither starts nor ends with whitespace is its own trim.
pub proof fn lemma_solid_trim(s: Seq<char>)
    requires
        solid(s),
    ensures
        trim(s) == s,
{
    assert(trim_start(s) == s);
    assert(trim_end(s) == s);
}

/// A text that is not blank has a line that is not blank; `k` is its index among the
/// completed lines, or `-1` for the open line.
pub proof fn lemma_lines_acc_nonblank(s: Seq<char>) -> (k: int)
    requires
        !blank(s),
    ensures
        -1 <= k < lines_acc(s).0.len(),
        k == -1 ==> !blank(lines_acc(s).1),
        k >= 0 ==> !blank(lines_acc(s).0[k]),
    decreases s.len(),
{
    let (done, cur) = lines_acc(s.drop_last());
    let i = choose|i: int| 0 <= i < s.len() && !is_ws(#[trigger] s[i]);
    if i == s.len() - 1 {
        assert(lines_acc(s).1 == cur.push(s.last()));
        assert(lines_acc(s).1[cur.len() as int] == s.last());
        -1
    } else {
        assert(s.drop_last()[i] == s[i]);
        let k0 = lemma_lines_acc_nonblank(s.drop_last());
        if k0 >= 0 {
            if s.last() == '\n' {
                assert(lines_acc(s).0[k0] == done[k0]);
            }
            k0
        } else {
            let j = choose|j: int| 0 <= j < cur.len() && !is_ws(#[trigger] cur[j]);
            if s.last() == '\n' {
                assert(j < strip_cr(cur).len());
                assert(strip_cr(cur)[j] == cur[j]);
                assert(lines_acc(s).0[done.len() as int] == strip_cr(cur));
                done.len() as int
            } else {
                assert(lines_acc(s).1[j] == cur[j]);
                -1
            }
        }
    }
}

/// A text that is not blank has a line that is not blank, at index `k`.
pub proof fn lemma_lines_nonblank(s: Seq<char>) -> (k: int)
    requires
        !blank(s),
    ensures
        0 <= k < lines(s).len(),
        !blank(lines(s)[k]),
{
    let (done, cur) = lines_acc(s);
    let k0 = lemma_lines_acc_nonblank(s);
    if k0 >= 0 {
        if cur.len() > 0 {
            assert(lines(s)[k0] == done[k0]);
        }
        k0
    } else {
        assert(cur.len() > 0);
        assert(lines(s)[done.len() as int] == cur);
        done.len() as int
    }
}

/// No character of `s` is whitespace.
pub open spec fn no_ws(s: Seq<char>) -> bool {
    forall|i: int| 0 <= i < s.len() ==> !is_ws(#[trigger] s[i])
}

/// The words of a text hold no whitespace.
pub proof fn lemma_words_no_ws(s: Seq<char>)
    ensures
        forall|k: int| 0 <= k < words_acc(s).0.len() ==> no_ws(#[trigger] words_acc(s).0[k]),
        no_ws(words_acc(s).1),
        forall|k: int| 0 <= k < split_ws(s).len() ==> no_ws(#[trigger] split_ws(s)[k]),
    decreases s.len(),
{
    if s.len() > 0 {
        lemma_words_no_ws(s.drop_last());
        let (done, cur) = words_acc(s.drop_last());
        if !is_ws(s.last()) {
            assert forall|i: int| 0 <= i < cur.push(s.last()).len() implies !is_ws(
                #[trigger] cur.push(s.last())[i],
            ) by {
                if i < cur.len() {
                    assert(cur.push(s.last())[i] == cur[i]);
                }
            }
        } else if cur.len() > 0 {
            assert forall|k: int| 0 <= k < done.push(cur).len() implies no_ws(#[trigger] done.push(cur)[k]) by {
                if k < done.len() {
                    assert(done.push(cur)[k] == done[k]);
                }
            }
        }
    }
    let (done, cur) = words_acc(s);
    if cur.len() > 0 {
        assert forall|k: int| 0 <= k < split_ws(s).len() implies no_ws(#[trigger] split_ws(s)[k]) by {
            if k < done.len() {
                assert(split_ws(s)[k] == done[k]);
            }
        }
    }
}

/// A text that ends with whitespace has no open word.
pub proof fn lemma_words_acc_closed(x: Seq<char>)
    requires
        x.len() == 0 || is_ws(x.last()),
    ensures
        words_acc(x).1.len() == 0,
        split_ws(x) == words_acc(x).0,
{
}

/// Splitting words goes through a text that ends with whitespace.
pub proof fn lemma_words_acc_concat(x: Seq<char>, y: Seq<char>)
    requires
        x.len() == 0 || is_ws(x.last()),
    ensures
        words_acc(x + y) == (words_acc(x).0 + words_acc(y).0, words_acc(y).1),
    decreases y.len(),
{
    lemma_words_acc_closed(x);
    if y.len() == 0 {
        assert(x + y =~= x);
        assert(words_acc(x).0 + Seq::<Seq<char>>::empty() =~= words_acc(x).0);
    } else {
        lemma_words_acc_concat(x, y.drop_last());
        assert((x + y).drop_last() =~= x + y.drop_last());
        assert((x + y).last() == y.last());
        let (d, c) = words_acc(y.drop_last());
        assert((words_acc(x).0 + d).push(c) =~= words_acc(x).0 + d.push(c));
    }
}

/// The words of `x + y` are those of `x` then those of `y`, when `x` ends with
/// whitespace.
pub proof fn lemma_split_ws_concat(x: Seq<char>, y: Seq<char>)
    requires
        x.len() == 0 || is_ws(x.last()),
    ensures
        split_ws(x + y) == split_ws(x) + split_ws(y),
{
    lemma_words_acc_concat(x, y);
    lemma_words_acc_closed(x);
    let (d, c) = words_acc(y);
    if c.len() > 0 {
        assert((words_acc(x).0 + d).push(c) =~= words_acc(x).0 + d.push(c));
    }
}

/// A whitespace character adds no word.
pub proof fn lemma_split_ws_push_ws(x: Seq<char>, c: char)
    requires
        is_ws(c),
    ensures
        split_ws(x.push(c)) == split_ws(x),
{
    assert(x.push(c).drop_last() =~= x);
}

/// Trailing whitespace adds no word.
pub proof fn lemma_split_ws_trailing(x: Seq<char>, y: Seq<char>)
    requires
        blank(y),
    ensures
        split_ws(x + y) == split_ws(x),
    decreases y.len(),
{
    if y.len() == 0 {
        assert(x + y =~= x);
    } else {
        assert(blank(y.drop_last()));
        lemma_split_ws_trailing(x, y.drop_last());
        assert(x + y =~= (x + y.drop_last()).push(y.last()));
        lemma_split_ws_push_ws(x + y.drop_last(), y.last());
    }
}

/// A blank text has no word.
pub proof fn lemma_split_ws_blank(y: Seq<char>)
    requires
        blank(y),
    ensures
        split_ws(y) == Seq::<Seq<char>>::empty(),
{
    lemma_split_ws_trailing(seq![], y);
    assert(Seq::<char>::empty() + y =~= y);
}

/// A non-empty run without whitespace is one word.
pub proof fn lemma_split_ws_word(w: Seq<char>)
    requires
        w.len() > 0,
        no_ws(w),
    ensures
        split_ws(w) == seq![w],
{
    lemma_words_acc_word(w);
}

proof fn lemma_words_acc_word(w: Seq<char>)
    requires
        no_ws(w),
    ensures
        words_acc(w) == (Seq::<Seq<char>>::empty(), w),
    decreases w.len(),
{
    if w.len() > 0 {
        lemma_words_acc_word(w.drop_last());
        assert(w.drop_last().push(w.last()) =~= w);
    } else {
        assert(w =~= seq![]);
    }
}

/// Trimming keeps the words.
pub proof fn lemma_split_ws_trim(x: Seq<char>)
    ensures
        split_ws(trim(x)) == split_ws(x),
{
    lemma_trim_start_prefix_ws(x);
    let t = trim_start(x);
    let n = x.len() - t.len();
    assert(x =~= x.take(n) + t);
    lemma_split_ws_concat_blank_head(x.take(n), t);
    lemma_trim_end_prefix(t);
    lemma_trim_end_suffix_ws(t);
    let m = trim_end(t).len();
    assert(t =~= trim_end(t) + t.skip(m as int));
    lemma_split_ws_trailing(trim_end(t), t.skip(m as int));
}

proof fn lemma_split_ws_concat_blank_head(x: Seq<char>, y: Seq<char>)
    requires
        blank(x),
    ensures
        split_ws(x + y) == split_ws(y),
{
    if x.len() > 0 {
        assert(is_ws(x[x.len() - 1]));
    }
    lemma_split_ws_concat(x, y);
    lemma_split_ws_blank(x);
    assert(Seq::<Seq<char>>::empty() + split_ws(y) =~= split_ws(y));
}

proof fn lemma_trim_start_prefix_ws(s: Seq<char>)
    ensures
        trim_start(s).len() <= s.len(),
        trim_start(s) == s.skip(s.len() - trim_start(s).len()),
        blank(s.take(s.len() - trim_start(s).len())),
    decreases s.len(),
{
    lemma_trim_start_suffix(s);
    if s.len() > 0 && is_ws(s[0]) {
        lemma_trim_start_prefix_ws(s.drop_first());
        let n = s.len() - trim_start(s).len();
        assert forall|i: int| 0 <= i < s.take(n).len() implies is_ws(#[trigger] s.take(n)[i]) by {
            if i > 0 {
                assert(s.take(n)[i] == s.drop_first().take(n - 1)[i - 1]);
            }
        }
    } else {
        assert(s.take(0).len() == 0);
    }
}

proof fn lemma_trim_end_suffix_ws(s: Seq<char>)
    ensures
        blank(s.skip(trim_end(s).len() as int)),
    decreases s.len(),
{
    lemma_trim_end_prefix(s);
    if s.len() > 0 && is_ws(s.last()) {
        lemma_trim_end_suffix_ws(s.drop_last());
        lemma_trim_end_prefix(s.drop_last());
        let m = trim_end(s).len() as int;
        assert forall|i: int| 0 <= i < s.skip(m).len() implies is_ws(#[trigger] s.skip(m)[i]) by {
            if m + i < s.len() - 1 {
                assert(s.skip(m)[i] == s.drop_last().skip(m)[i]);
            }
        }
    }
}

/// The words of every text of `parts`, in order.
pub open spec fn words_of(parts: Seq<Seq<char>>) -> Seq<Seq<char>>
    decreases parts.len(),
{
    if parts.len() == 0 {
        seq![]
    } else {
        words_of(parts.drop_last()) + split_ws(parts.last())
    }
}

/// The open line of `s` starts after its last line feed, at `n`, and the completed
/// lines hold the words before it.
proof fn lemma_lines_acc_words(s: Seq<char>) -> (n: int)
    ensures
        0 <= n <= s.len(),
        lines_acc(s).1 == s.skip(n),
        n == 0 || s[n - 1] == '\n',
        words_of(lines_acc(s).0) == split_ws(s.take(n)),
    decreases s.len(),
{
    if s.len() == 0 {
        assert(s.skip(0) =~= seq![]);
        assert(s.take(0) =~= seq![]);
        0
    } else {
        let p = s.drop_last();
        let n0 = lemma_lines_acc_words(p);
        let (done, cur) = lines_acc(p);
        if s.last() == '\n' {
            let sc = strip_cr(cur);
            if cur.len() > 0 && cur.last() == '\r' {
                assert(cur =~= sc.push('\r'));
                lemma_split_ws_push_ws(sc, '\r');
            }
            assert(done.push(sc).drop_last() =~= done);
            assert(p =~= p.take(n0) + cur);
            if n0 > 0 {
                assert(p.take(n0).last() == p[n0 - 1]);
            }
            lemma_split_ws_concat(p.take(n0), cur);
            assert(s =~= p.push('\n'));
            lemma_split_ws_push_ws(p, '\n');
            assert(s.take(s.len() as int) =~= s);
            assert(s.skip(s.len() as int) =~= seq![]);
            s.len() as int
        } else {
            assert(cur.push(s.last()) =~= s.skip(n0));
            assert(s.take(n0) =~= p.take(n0));
            if n0 > 0 {
                assert(s[n0 - 1] == p[n0 - 1]);
            }
            n0
        }
    }
}

/// The lines of a text hold exactly its words, in order.
pub proof fn lemma_lines_words(s: Seq<char>)
    ensures
        words_of(lines(s)) == split_ws(s),
{
    let n = lemma_lines_acc_words(s);
    let (done, cur) = lines_acc(s);
    assert(s =~= s.take(n) + s.skip(n));
    if n > 0 {
        assert(s.take(n).last() == s[n - 1]);
    }
    lemma_split_ws_concat(s.take(n), s.skip(n));
    if cur.len() > 0 {
        assert(done.push(cur).drop_last() =~= done);
    } else {
        assert(split_ws(cur) =~= Seq::<Seq<char>>::empty());
        assert(split_ws(s.take(n)) + Seq::<Seq<char>>::empty() =~= split_ws(s.take(n)));
    }
}

/// The characters of `s` that are not whitespace, in order.
pub open spec fn letters(s: Seq<char>) -> Seq<char>
    decreases s.len(),
{
    if s.len() == 0 {
        seq![]
    } else if is_ws(s.last()) {
        letters(s.drop_last())
    } else {
        letters(s.drop_last()).push(s.last())
    }
}

/// The characters of the texts of `parts` that are not whitespace, in order.
pub open spec fn letters_of(parts: Seq<Seq<char>>) -> Seq<char>
    decreases parts.len(),
{
    if parts.len() == 0 {
        seq![]
    } else {
        letters_of(parts.drop_last()) + letters(parts.last())
    }
}

pub proof fn lemma_letters_concat(a: Seq<char>, b: Seq<char>)
    ensures
        letters(a + b) == letters(a) + letters(b),
    decreases b.len(),
{
    if b.len() == 0 {
        assert(a + b =~= a);
        assert(letters(a) + Seq::<char>::empty() =~= letters(a));
    } else {
        lemma_letters_concat(a, b.drop_last());
        assert((a + b).drop_last() =~= a + b.drop_last());
        assert((a + b).last() == b.last());
        assert((letters(a) + letters(b.drop_last())).push(b.last()) =~= letters(a) + letters(
            b.drop_last(),
        ).push(b.last()));
    }
}

pub proof fn lemma_letters_of_concat(a: Seq<Seq<char>>, b: Seq<Seq<char>>)
    ensures
        letters_of(a + b) == letters_of(a) + letters_of(b),
    decreases b.len(),
{
    if b.len() == 0 {
        assert(a + b =~= a);
        assert(letters_of(a) + Seq::<char>::empty() =~= letters_of(a));
    } else {
        lemma_letters_of_concat(a, b.drop_last());
        assert((a + b).drop_last() =~= a + b.drop_last());
        assert((a + b).last() == b.last());
    }
}

pub proof fn lemma_letters_blank(s: Seq<char>)
    requires
        blank(s),
    ensures
        letters(s) == Seq::<char>::empty(),
    decreases s.len(),
{
    if s.len() > 0 {
        assert(blank(s.drop_last()));
        assert(is_ws(s[s.len() - 1]));
        lemma_letters_blank(s.drop_last());
    }
}

pub proof fn lemma_letters_no_ws(s: Seq<char>)
    requires
        no_ws(s),
    ensures
        letters(s) == s,
    decreases s.len(),
{
    if s.len() > 0 {
        lemma_letters_no_ws(s.drop_last());
        assert(s.drop_last().push(s.last()) =~= s);
    } else {
        assert(s =~= seq![]);
    }
}

/// Trimming keeps the characters that are not whitespace.
pub proof fn lemma_letters_trim_start(x: Seq<char>)
    ensures
        letters(trim_start(x)) == letters(x),
{
    lemma_trim_start_prefix_ws(x);
    let t = trim_start(x);
    let n = x.len() - t.len();
    assert(x =~= x.take(n) + t);
    lemma_letters_concat(x.take(n), t);
    lemma_letters_blank(x.take(n));
    assert(Seq::<char>::empty() + letters(t) =~= letters(t));
}

/// Trimming keeps the characters that are not whitespace.
pub proof fn lemma_letters_trim(x: Seq<char>)
    ensures
        letters(trim(x)) == letters(x),
{
    lemma_letters_trim_start(x);
    let t = trim_start(x);
    lemma_trim_end_prefix(t);
    lemma_trim_end_suffix_ws(t);
    let m = trim_end(t).len();
    assert(t =~= trim_end(t) + t.skip(m as int));
    lemma_letters_concat(trim_end(t), t.skip(m as int));
    lemma_letters_blank(t.skip(m as int));
    assert(letters(trim_end(t)) + Seq::<char>::empty() =~= letters(trim_end(t)));
}

proof fn lemma_letters_words_acc(s: Seq<char>)
    ensures
        letters(s) == letters_of(words_acc(s).0) + words_acc(s).1,
    decreases s.len(),
{
    lemma_words_no_ws(s);
    if s.len() == 0 {
        assert(letters_of(Seq::<Seq<char>>::empty()) + Seq::<char>::empty() =~= Seq::<char>::empty());
    } else {
        lemma_letters_words_acc(s.drop_last());
        lemma_words_no_ws(s.drop_last());
        let (done, cur) = words_acc(s.drop_last());
        if is_ws(s.last()) {
            if cur.len() > 0 {
                assert(done.push(cur).drop_last() =~= done);
                lemma_letters_no_ws(cur);
                assert(letters_of(done.push(cur)) + Seq::<char>::empty() =~= letters_of(done) + cur);
            }
        } else {
            assert((letters_of(done) + cur).push(s.last()) =~= letters_of(done) + cur.push(s.last()));
        }
    }
}

/// The words of a text hold its characters that are not whitespace.
pub proof fn lemma_letters_split_ws(s: Seq<char>)
    ensures
        letters_of(split_ws(s)) == letters(s),
{
    lemma_letters_words_acc(s);
    lemma_words_no_ws(s);
    let (done, cur) = words_acc(s);
    if cur.len() > 0 {
        assert(done.push(cur).drop_last() =~= done);
        lemma_letters_no_ws(cur);
    } else {
        assert(letters_of(done) + cur =~= letters_of(done));
    }
}

/// The words of some texts hold their characters that are not whitespace.
pub proof fn lemma_letters_words_of(parts: Seq<Seq<char>>)
    ensures
        letters_of(words_of(parts)) == letters_of(parts),
    decreases parts.len(),
{
    if parts.len() > 0 {
        lemma_letters_words_of(parts.drop_last());
        lemma_letters_of_concat(words_of(parts.drop_last()), split_ws(parts.last()));
        lemma_letters_split_ws(parts.last());
    }
}

/// Joining texts keeps their characters that are not whitespace, when the
/// separator is whitespace.
pub proof fn lemma_letters_join(parts: Seq<Seq<char>>, sep: Seq<char>)
    requires
        blank(sep),
    ensures
        letters(join(parts, sep)) == letters_of(parts),
    decreases parts.len(),
{
    lemma_letters_blank(sep);
    if parts.len() == 1 {
        assert(parts.drop_last() =~= Seq::<Seq<char>>::empty());
        assert(parts.last() == parts[0]);
        assert(letters_of(Seq::<Seq<char>>::empty()) == Seq::<char>::empty());
        assert(Seq::<char>::empty() + letters(parts[0]) =~= letters(parts[0]));
    } else if parts.len() > 1 {
        let d = parts.drop_last();
        lemma_letters_join(d, sep);
        lemma_letters_concat(join(d, sep) + sep, parts.last());
        lemma_letters_concat(join(d, sep), sep);
        assert(join(parts, sep) == join(d, sep) + sep + parts.last());
        assert(letters_of(d) + Seq::<char>::empty() =~= letters_of(d));
        assert(letters_of(parts) == letters_of(d) + letters(parts.last()));
    } else {
        assert(letters(Seq::<char>::empty()) == Seq::<char>::empty());
    }
}

} // verus!
