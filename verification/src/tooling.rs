//! Checks of the build tools: the environment and the input of the WebAssembly
//! transform, the output files it may write, and the fingerprints of the
//! interpreter sources checked before a frontend build.
use crate::assets::{has_wasm_header, spec_wasm_header};
use crate::text::{
    chars_of, decimal, has_prefix, lines, lines_of, push_chars, push_decimal, slice_to_vec,
    safe_relative_chars, same_text, seq_eq, spec_safe_relative, starts_with, string_of, trim,
    trimmed,
};
use std::collections::hash_map::DefaultHasher;
use std::hash::Hasher;
use vstd::prelude::*;
use vstd::std_specs::hash::DefaultHasherAdditionalSpecFns;
use vstd::utf8::encode_utf8;

verus! {

/// The largest WebAssembly input, in bytes.
pub const MAX_INPUT_BYTES: u64 = 67108864;

/// Some name starts with `WASM_BINDGEN_`.
pub open spec fn inherits_bindgen(names: Seq<String>) -> bool {
    exists|i: int| 0 <= i < names.len() && has_prefix(names[i]@, "WASM_BINDGEN_"@)
}

/// The environment of the transform: `RAYON_NUM_THREADS` must be `1`, and no variable
/// named `WASM_BINDGEN_…` may be inherited. `rayon_threads` is the value of
/// `RAYON_NUM_THREADS` and `names` the names of all variables.
pub fn check_environment(rayon_threads: Option<&str>, names: &[String]) -> (r: Result<
    (),
    &'static str,
>)
    ensures
        !(rayon_threads matches Some(v) && v@ == "1"@) ==> r == Err::<(), &str>(
            "RAYON_NUM_THREADS doit valoir 1",
        ),
        (rayon_threads matches Some(v) && v@ == "1"@) ==> match r {
            Ok(_) => !inherits_bindgen(names@),
            Err(m) => inherits_bindgen(names@) && m == "retirer les variables WASM_BINDGEN_* héritées",
        },
{
    let one = match rayon_threads {
        Some(v) => same_text(v, "1"),
        None => false,
    };
    if !one {
        return Err("RAYON_NUM_THREADS doit valoir 1");
    }
    let prefix = chars_of("WASM_BINDGEN_");
    for k in 0..names.len()
        invariant
            prefix@ == "WASM_BINDGEN_"@,
            rayon_threads matches Some(v) && v@ == "1"@,
            forall|i: int| 0 <= i < k ==> !has_prefix(#[trigger] names@[i]@, "WASM_BINDGEN_"@),
    {
        if starts_with(&chars_of(names[k].as_str()), &prefix) {
            return Err("retirer les variables WASM_BINDGEN_* héritées");
        }
    }
    Ok(())
}

/// Whether an output path is a non-empty portable relative path (see
/// `spec_safe_relative`).
pub fn safe_relative(path: &str) -> (r: bool)
    ensures
        r == spec_safe_relative(path@),
{
    safe_relative_chars(&chars_of(path))
}

/// Whether a WebAssembly input of `bytes` may be transformed: at most
/// `MAX_INPUT_BYTES` long, with the version 1 header.
pub fn input_acceptable(bytes: &[u8]) -> (r: bool)
    ensures
        r == (bytes@.len() <= MAX_INPUT_BYTES && spec_wasm_header(bytes@)),
{
    bytes.len() <= 67108864 && has_wasm_header(bytes)
}

/// The output files of a transform, by relative path, each path once.
pub struct OutputFiles {
    entries: Vec<(String, Vec<u8>)>,
}

/// The texts of the paths of entries.
pub open spec fn entry_paths(v: Seq<(String, Vec<u8>)>) -> Seq<Seq<char>> {
    v.map_values(|e: (String, Vec<u8>)| e.0@)
}

impl OutputFiles {
    /// Each path occurs once, and each is a safe relative path.
    #[verifier::type_invariant]
    spec fn wf(&self) -> bool {
        &&& forall|i: int, j: int|
            0 <= i < j < self.entries@.len() ==> #[trigger] self.entries@[i].0@
                != #[trigger] self.entries@[j].0@
        &&& forall|i: int| 0 <= i < self.entries@.len() ==> spec_safe_relative(#[trigger] self.entries@[i].0@)
    }

    /// The files, by path.
    pub closed spec fn files(&self) -> Map<Seq<char>, Seq<u8>> {
        Map::new(
            |p: Seq<char>| exists|i: int| 0 <= i < self.entries@.len() && self.entries@[i].0@ == p,
            |p: Seq<char>|
                {
                    let i = choose|i: int| 0 <= i < self.entries@.len() && self.entries@[i].0@ == p;
                    self.entries@[i].1@
                },
        )
    }

    pub fn new() -> (r: Self)
        ensures
            r.files() == Map::<Seq<char>, Seq<u8>>::empty(),
    {
        let r = OutputFiles { entries: Vec::new() };
        assert(r.files() =~= Map::<Seq<char>, Seq<u8>>::empty());
        r
    }

    fn position(&self, path: &[char]) -> (r: Option<usize>)
        ensures
            match r {
                Some(i) => i < self.entries@.len() && self.entries@[i as int].0@ == path@,
                None => forall|i: int|
                    0 <= i < self.entries@.len() ==> #[trigger] self.entries@[i].0@ != path@,
            },
    {
        for k in 0..self.entries.len()
            invariant
                forall|i: int| 0 <= i < k ==> #[trigger] self.entries@[i].0@ != path@,
        {
            if seq_eq(&chars_of(self.entries[k].0.as_str()), path) {
                return Some(k);
            }
        }
        None
    }

    /// Adds the file `path` with `bytes`. A path that is not safe is refused and
    /// nothing changes; a path already present is refused after its bytes were
    /// replaced by `bytes`, as a map insertion would do.
    pub fn add_file(&mut self, path: String, bytes: Vec<u8>) -> (r: Result<(), String>)
        ensures
            r is Ok <==> spec_safe_relative(path@) && !old(self).files().contains_key(path@),
            r matches Err(m) ==> m@ == "chemin de sortie interdit ou dupliqué : "@ + path@,
            !spec_safe_relative(path@) ==> final(self).files() == old(self).files(),
            spec_safe_relative(path@) ==> final(self).files() == old(self).files().insert(
                path@,
                bytes@,
            ),
    {
        let p = chars_of(path.as_str());
        let mut message = String::new();
        push_chars(&mut message, &chars_of("chemin de sortie interdit ou dupliqué : "));
        push_chars(&mut message, &p);
        if !safe_relative_chars(&p) {
            return Err(message);
        }
        proof {
            use_type_invariant(&*self);
        }
        let ghost old_entries = self.entries@;
        match self.position(&p) {
            Some(i) => {
                assert(old(self).files().contains_key(path@));
                let mut entries: Vec<(String, Vec<u8>)> = Vec::new();
                std::mem::swap(&mut entries, &mut self.entries);
                entries.set(i, (path, bytes));
                proof {
                    assert forall|a: int, b: int|
                        0 <= a < b < entries@.len() implies #[trigger] entries@[a].0@
                        != #[trigger] entries@[b].0@ by {
                        assert(old_entries[a].0@ != old_entries[b].0@);
                    }
                    assert forall|a: int| 0 <= a < entries@.len() implies spec_safe_relative(
                        #[trigger] entries@[a].0@,
                    ) by {
                        if a != i {
                            assert(entries@[a] == old_entries[a]);
                        }
                    }
                }
                self.entries = entries;
                proof {
                    assert forall|q: Seq<char>| #[trigger]
                        self.files().contains_key(q) == old(self).files().insert(
                            p@,
                            bytes@,
                        ).contains_key(q) by {
                        if old(self).files().contains_key(q) && q != p@ {
                            let j = choose|j: int|
                                0 <= j < old_entries.len() && old_entries[j].0@ == q;
                            assert(self.entries@[j].0@ == q);
                        }
                        if self.files().contains_key(q) && q != p@ {
                            let j = choose|j: int|
                                0 <= j < self.entries@.len() && self.entries@[j].0@ == q;
                            assert(old_entries[j].0@ == q);
                        }
                        if q == p@ {
                            assert(self.entries@[i as int].0@ == q);
                        }
                    }
                    assert forall|q: Seq<char>| #[trigger]
                        self.files().contains_key(q) implies self.files()[q]
                        == old(self).files().insert(p@, bytes@)[q] by {
                        let j = choose|j: int|
                            0 <= j < self.entries@.len() && self.entries@[j].0@ == q;
                        if q != p@ {
                            let k = choose|k: int|
                                0 <= k < old_entries.len() && old_entries[k].0@ == q;
                            assert(j == k) by {
                                if j != k {
                                    assert(old_entries[j].0@ == q);
                                    if j < k {
                                        assert(old_entries[j].0@ != old_entries[k].0@);
                                    } else {
                                        assert(old_entries[k].0@ != old_entries[j].0@);
                                    }
                                }
                            }
                        } else {
                            assert(j == i) by {
                                if j != i {
                                    if j < i {
                                        assert(self.entries@[j].0@ != self.entries@[i as int].0@);
                                    } else {
                                        assert(self.entries@[i as int].0@ != self.entries@[j].0@);
                                    }
                                }
                            }
                        }
                    }
                    assert(self.files() =~= old(self).files().insert(p@, bytes@));
                }
                Err(message)
            },
            None => {
                assert(!old(self).files().contains_key(path@));
                let mut entries: Vec<(String, Vec<u8>)> = Vec::new();
                std::mem::swap(&mut entries, &mut self.entries);
                entries.push((path, bytes));
                proof {
                    let n = old_entries.len() as int;
                    assert forall|a: int, b: int|
                        0 <= a < b < entries@.len() implies #[trigger] entries@[a].0@
                        != #[trigger] entries@[b].0@ by {
                        if b < n {
                            assert(old_entries[a].0@ != old_entries[b].0@);
                        } else {
                            assert(old_entries[a].0@ != p@);
                        }
                    }
                    assert forall|a: int| 0 <= a < entries@.len() implies spec_safe_relative(
                        #[trigger] entries@[a].0@,
                    ) by {
                        if a < n {
                            assert(entries@[a] == old_entries[a]);
                        }
                    }
                }
                self.entries = entries;
                proof {
                    let n = old_entries.len() as int;
                    assert forall|q: Seq<char>| #[trigger]
                        self.files().contains_key(q) == old(self).files().insert(
                            p@,
                            bytes@,
                        ).contains_key(q) by {
                        if old(self).files().contains_key(q) {
                            let j = choose|j: int| 0 <= j < n && old_entries[j].0@ == q;
                            assert(self.entries@[j].0@ == q);
                        }
                        if self.files().contains_key(q) && q != p@ {
                            let j = choose|j: int|
                                0 <= j < self.entries@.len() && self.entries@[j].0@ == q;
                            assert(j < n);
                            assert(old_entries[j].0@ == q);
                        }
                        if q == p@ {
                            assert(self.entries@[n].0@ == q);
                        }
                    }
                    assert forall|q: Seq<char>| #[trigger]
                        self.files().contains_key(q) implies self.files()[q]
                        == old(self).files().insert(p@, bytes@)[q] by {
                        let j = choose|j: int|
                            0 <= j < self.entries@.len() && self.entries@[j].0@ == q;
                        if q != p@ {
                            let k = choose|k: int| 0 <= k < n && old_entries[k].0@ == q;
                            assert(j == k) by {
                                if j != k {
                                    if j < k {
                                        assert(self.entries@[j].0@ != self.entries@[k].0@);
                                    } else {
                                        assert(self.entries@[k].0@ != self.entries@[j].0@);
                                    }
                                }
                            }
                        } else {
                            assert(j == n) by {
                                if j != n {
                                    assert(self.entries@[j].0@ != self.entries@[n].0@);
                                }
                            }
                        }
                    }
                    assert(self.files() =~= old(self).files().insert(p@, bytes@));
                }
                Ok(())
            },
        }
    }

    /// The files, as path and bytes, in the order in which their paths were first added.
    pub fn entries(&self) -> (r: &Vec<(String, Vec<u8>)>)
        ensures
            r.len() == self.files().len(),
            forall|i: int|
                0 <= i < r@.len() ==> self.files().contains_key(#[trigger] r@[i].0@)
                    && self.files()[r@[i].0@] == r@[i].1@,
            forall|p: Seq<char>|
                #[trigger] self.files().contains_key(p) ==> exists|i: int|
                    0 <= i < r@.len() && r@[i].0@ == p,
    {
        proof {
            use_type_invariant(self);
            self.lemma_files_len();
            assert forall|i: int| 0 <= i < self.entries@.len() implies self.files().contains_key(
                #[trigger] self.entries@[i].0@,
            ) && self.files()[self.entries@[i].0@] == self.entries@[i].1@ by {
                let q = self.entries@[i].0@;
                let j = choose|j: int| 0 <= j < self.entries@.len() && self.entries@[j].0@ == q;
                assert(j == i) by {
                    if j < i {
                        assert(self.entries@[j].0@ != self.entries@[i].0@);
                    } else if i < j {
                        assert(self.entries@[i].0@ != self.entries@[j].0@);
                    }
                }
            }
        }
        &self.entries
    }

    proof fn lemma_files_len(&self)
        requires
            self.wf(),
        ensures
            self.files().len() == self.entries@.len(),
            self.files().dom() == entry_paths(self.entries@).to_set(),
    {
        let ps = entry_paths(self.entries@);
        assert(self.files().dom() =~= ps.to_set()) by {
            assert forall|q: Seq<char>| #[trigger] ps.to_set().contains(q) implies self.files().dom().contains(q) by {
                let i = choose|i: int| 0 <= i < ps.len() && ps[i] == q;
                assert(self.entries@[i].0@ == q);
            }
            assert forall|q: Seq<char>| #[trigger] self.files().dom().contains(q) implies ps.to_set().contains(q) by {
                let i = choose|i: int| 0 <= i < self.entries@.len() && self.entries@[i].0@ == q;
                assert(ps[i] == q);
            }
        }
        assert(ps.no_duplicates()) by {
            assert forall|i: int, j: int| 0 <= i < ps.len() && 0 <= j < ps.len() && i != j implies ps[i] != ps[j] by {
                if i < j {
                    assert(self.entries@[i].0@ != self.entries@[j].0@);
                } else {
                    assert(self.entries@[j].0@ != self.entries@[i].0@);
                }
            }
        }
        ps.unique_seq_to_set();
    }
}

/// The path of the `index`-th inline snippet of a snippet identifier.
pub fn inline_snippet_path(identifier: &str, index: usize) -> (r: String)
    ensures
        r@ == "snippets/"@ + identifier@ + "/inline"@ + decimal(index as nat) + ".js"@,
{
    let mut s = String::new();
    push_chars(&mut s, &chars_of("snippets/"));
    push_chars(&mut s, &chars_of(identifier));
    push_chars(&mut s, &chars_of("/inline"));
    push_decimal(&mut s, index as u64);
    push_chars(&mut s, &chars_of(".js"));
    s
}

/// The path of a local module among the snippets.
pub fn module_snippet_path(path: &str) -> (r: String)
    ensures
        r@ == "snippets/"@ + path@,
{
    let mut s = String::new();
    push_chars(&mut s, &chars_of("snippets/"));
    push_chars(&mut s, &chars_of(path));
    s
}

/// `p` occurs in `s`.
pub open spec fn contains_text(s: Seq<char>, p: Seq<char>) -> bool {
    exists|i: int| 0 <= i && i + p.len() <= s.len() && #[trigger] s.subrange(i, i + p.len()) == p
}

fn find_text(s: &[char], p: &[char]) -> (r: bool)
    ensures
        r == contains_text(s@, p@),
{
    if p.len() > s.len() {
        assert forall|i: int| 0 <= i && i + p@.len() <= s@.len() implies #[trigger] s@.subrange(
            i,
            i + p@.len(),
        ) != p@ by {}
        return false;
    }
    let last = s.len() - p.len();
    let mut i: usize = 0;
    while i < last
        invariant
            i <= last,
            last + p@.len() == s@.len(),
            forall|j: int| 0 <= j < i ==> #[trigger] s@.subrange(j, j + p@.len()) != p@,
        decreases last - i,
    {
        assert(s@.subrange(i as int, s@.len() as int).take(p@.len() as int) =~= s@.subrange(
            i as int,
            i + p@.len(),
        ));
        if starts_with(&slice_to_vec(s, i, s.len()), p) {
            return true;
        }
        i = i + 1;
    }
    assert(s@.subrange(last as int, s@.len() as int).take(p@.len() as int) =~= s@.subrange(
        last as int,
        last + p@.len(),
    ));
    if starts_with(&slice_to_vec(s, last, s.len()), p) {
        return true;
    }
    assert forall|j: int| 0 <= j && j + p@.len() <= s@.len() implies #[trigger] s@.subrange(
        j,
        j + p@.len(),
    ) != p@ by {
        assert(j <= last);
    }
    false
}

/// The generated loader is complete: not empty, it exports, and it loads the
/// generated module.
pub open spec fn spec_loader_complete(js: Seq<char>) -> bool {
    js.len() > 0 && contains_text(js, "export"@) && contains_text(js, "chatpurp_web_bg.wasm"@)
}

/// Whether the generated loader is complete.
pub fn loader_complete(js: &str) -> (r: bool)
    ensures
        r == spec_loader_complete(js@),
{
    let v = chars_of(js);
    v.len() > 0 && find_text(&v, &chars_of("export")) && find_text(
        &v,
        &chars_of("chatpurp_web_bg.wasm"),
    )
}

/// The fingerprint of a source file: its lines (see `lines`), each written as its
/// UTF-8 bytes into one `DefaultHasher`, as the JavaScript bundler that reads these fingerprints does.
pub open spec fn spec_source_hash(source: Seq<char>) -> u64 {
    DefaultHasher::spec_finish(lines(source).map_values(|l: Seq<char>| encode_utf8(l)))
}

/// The fingerprint of a source file.
pub fn source_hash(source: &str) -> (r: u64)
    ensures
        r == spec_source_hash(source@),
{
    let mut hash = DefaultHasher::new();
    let ls = lines_of(&chars_of(source));
    let ghost lv = lines(source@);
    for k in 0..ls.len()
        invariant
            ls@.map_values(|l: Vec<char>| l@) == lv,
            hash@ == lv.take(k as int).map_values(|l: Seq<char>| encode_utf8(l)),
    {
        let line = string_of(&ls[k]);
        assert(line@ == lv[k as int]);
        hash.write(line.as_str().as_bytes());
        assert(lv.take(k + 1).map_values(|l: Seq<char>| encode_utf8(l)) =~= lv.take(
            k as int,
        ).map_values(|l: Seq<char>| encode_utf8(l)).push(encode_utf8(lv[k as int])));
    }
    assert(lv.take(ls@.len() as int) == lv);
    hash.finish()
}

/// The debug form of a list of fingerprints, as written in the expected-hash file:
/// `[h1, h2, …]`.
pub open spec fn list_text(hashes: Seq<u64>) -> Seq<char>
    decreases hashes.len(),
{
    if hashes.len() == 0 {
        "[]"@
    } else {
        "["@ + items_text(hashes) + "]"@
    }
}

/// The fingerprints separated by `, `.
pub open spec fn items_text(hashes: Seq<u64>) -> Seq<char>
    decreases hashes.len(),
{
    if hashes.len() <= 1 {
        if hashes.len() == 0 {
            seq![]
        } else {
            decimal(hashes[0] as nat)
        }
    } else {
        items_text(hashes.drop_last()) + ", "@ + decimal(hashes.last() as nat)
    }
}

/// The expected-hash file names exactly these fingerprints, whitespace around aside.
pub fn fingerprints_match(expected: &str, hashes: &[u64]) -> (r: bool)
    ensures
        r == (trim(expected@) == list_text(hashes@)),
{
    let mut items = String::new();
    for k in 0..hashes.len()
        invariant
            items@ == items_text(hashes@.take(k as int)),
    {
        assert(hashes@.take(k + 1).drop_last() == hashes@.take(k as int));
        if k > 0 {
            push_chars(&mut items, &chars_of(", "));
        }
        push_decimal(&mut items, hashes[k]);
        proof {
            if k == 0 {
                assert(items@ =~= items_text(hashes@.take(1)));
            } else {
                assert(items@ =~= items_text(hashes@.take(k + 1)));
            }
        }
    }
    assert(hashes@.take(hashes@.len() as int) == hashes@);
    let mut text = String::new();
    push_chars(&mut text, &chars_of("["));
    push_chars(&mut text, &chars_of(items.as_str()));
    push_chars(&mut text, &chars_of("]"));
    proof {
        reveal_strlit("[]");
        reveal_strlit("[");
        reveal_strlit("]");
        if hashes@.len() == 0 {
            assert(items@ == Seq::<char>::empty());
        }
        assert(text@ =~= list_text(hashes@));
    }
    let t = trimmed(&chars_of(expected));
    seq_eq(&t, &chars_of(text.as_str()))
}

/// The verdict on the interpreter sources before a frontend build: there must be
/// sources, and the expected-hash file must name exactly their fingerprints.
pub fn fingerprint_verdict(expected: &str, hashes: &[u64]) -> (r: Result<(), &'static str>)
    ensures
        hashes@.len() == 0 ==> r == Err::<(), &str>("aucune source JS/TS à vérifier"),
        hashes@.len() > 0 ==> match r {
            Ok(_) => trim(expected@) == list_text(hashes@),
            Err(m) => trim(expected@) != list_text(hashes@) && m == "empreintes différentes : build Bun refusé",
        },
{
    if hashes.len() == 0 {
        return Err("aucune source JS/TS à vérifier");
    }
    if !fingerprints_match(expected, hashes) {
        return Err("empreintes différentes : build Bun refusé");
    }
    Ok(())
}

/// Adds `bytes` at `path` as `OutputFiles::add_file` does: refused when the path is
/// not safe or already present.
pub open spec fn spec_add(fs: Map<Seq<char>, Seq<u8>>, path: Seq<char>, bytes: Seq<u8>) -> Result<
    Map<Seq<char>, Seq<u8>>,
    Seq<char>,
> {
    if spec_safe_relative(path) && !fs.contains_key(path) {
        Ok(fs.insert(path, bytes))
    } else {
        Err("chemin de sortie interdit ou dupliqué : "@ + path)
    }
}

/// The path of the `index`-th inline snippet of `identifier`.
pub open spec fn spec_inline_path(identifier: Seq<char>, index: nat) -> Seq<char> {
    "snippets/"@ + identifier + "/inline"@ + decimal(index) + ".js"@
}

/// The inline snippets of one identifier, added in order.
pub open spec fn plan_inline(
    fs: Map<Seq<char>, Seq<u8>>,
    identifier: Seq<char>,
    list: Seq<Seq<u8>>,
) -> Result<Map<Seq<char>, Seq<u8>>, Seq<char>>
    decreases list.len(),
{
    if list.len() == 0 {
        Ok(fs)
    } else {
        match plan_inline(fs, identifier, list.drop_last()) {
            Err(m) => Err(m),
            Ok(g) => spec_add(g, spec_inline_path(identifier, (list.len() - 1) as nat), list.last()),
        }
    }
}

/// The snippets of every identifier, in order; an identifier that is not a safe
/// relative path is refused.
pub open spec fn plan_snippets(
    fs: Map<Seq<char>, Seq<u8>>,
    snippets: Seq<(Seq<char>, Seq<Seq<u8>>)>,
) -> Result<Map<Seq<char>, Seq<u8>>, Seq<char>>
    decreases snippets.len(),
{
    if snippets.len() == 0 {
        Ok(fs)
    } else {
        match plan_snippets(fs, snippets.drop_last()) {
            Err(m) => Err(m),
            Ok(g) => if !spec_safe_relative(snippets.last().0) {
                Err("identifiant de snippet interdit"@)
            } else {
                plan_inline(g, snippets.last().0, snippets.last().1)
            },
        }
    }
}

/// The local modules, in order, under `snippets/`; a module path that is not a safe
/// relative path is refused.
pub open spec fn plan_modules(
    fs: Map<Seq<char>, Seq<u8>>,
    modules: Seq<(Seq<char>, Seq<u8>)>,
) -> Result<Map<Seq<char>, Seq<u8>>, Seq<char>>
    decreases modules.len(),
{
    if modules.len() == 0 {
        Ok(fs)
    } else {
        match plan_modules(fs, modules.drop_last()) {
            Err(m) => Err(m),
            Ok(g) => if !spec_safe_relative(modules.last().0) {
                Err("chemin de module local interdit"@)
            } else {
                spec_add(g, "snippets/"@ + modules.last().0, modules.last().1)
            },
        }
    }
}

/// The snippet files that a generated output brings: refused when it needs npm
/// dependencies; otherwise every inline snippet, then every local module.
pub open spec fn spec_plan(
    npm_empty: bool,
    snippets: Seq<(Seq<char>, Seq<Seq<u8>>)>,
    modules: Seq<(Seq<char>, Seq<u8>)>,
) -> Result<Map<Seq<char>, Seq<u8>>, Seq<char>> {
    if !npm_empty {
        Err("dépendances npm générées non autorisées pour cette application"@)
    } else {
        match plan_snippets(Map::empty(), snippets) {
            Err(m) => Err(m),
            Ok(g) => plan_modules(g, modules),
        }
    }
}

/// The views of snippet lists.
pub open spec fn snippets_view(v: Seq<(String, Vec<Vec<u8>>)>) -> Seq<(Seq<char>, Seq<Seq<u8>>)> {
    v.map_values(|e: (String, Vec<Vec<u8>>)| (e.0@, e.1@.map_values(|b: Vec<u8>| b@)))
}

/// The views of local modules.
pub open spec fn modules_view(v: Seq<(String, Vec<u8>)>) -> Seq<(Seq<char>, Seq<u8>)> {
    v.map_values(|e: (String, Vec<u8>)| (e.0@, e.1@))
}

/// The files of a plan, or its refusal message.
pub open spec fn plan_view(r: Result<OutputFiles, String>) -> Result<
    Map<Seq<char>, Seq<u8>>,
    Seq<char>,
> {
    match r {
        Ok(f) => Ok(f.files()),
        Err(m) => Err(m@),
    }
}

proof fn lemma_plan_inline_err(
    fs: Map<Seq<char>, Seq<u8>>,
    identifier: Seq<char>,
    list: Seq<Seq<u8>>,
    n: int,
)
    requires
        0 < n <= list.len(),
        plan_inline(fs, identifier, list.take(n)) is Err,
    ensures
        plan_inline(fs, identifier, list) == plan_inline(fs, identifier, list.take(n)),
    decreases list.len() - n,
{
    if n < list.len() {
        assert(list.take(n + 1).drop_last() == list.take(n));
        lemma_plan_inline_err(fs, identifier, list, n + 1);
    } else {
        assert(list.take(n) == list);
    }
}

proof fn lemma_plan_snippets_err(
    fs: Map<Seq<char>, Seq<u8>>,
    snippets: Seq<(Seq<char>, Seq<Seq<u8>>)>,
    n: int,
)
    requires
        0 < n <= snippets.len(),
        plan_snippets(fs, snippets.take(n)) is Err,
    ensures
        plan_snippets(fs, snippets) == plan_snippets(fs, snippets.take(n)),
    decreases snippets.len() - n,
{
    if n < snippets.len() {
        assert(snippets.take(n + 1).drop_last() == snippets.take(n));
        lemma_plan_snippets_err(fs, snippets, n + 1);
    } else {
        assert(snippets.take(n) == snippets);
    }
}

proof fn lemma_plan_modules_err(
    fs: Map<Seq<char>, Seq<u8>>,
    modules: Seq<(Seq<char>, Seq<u8>)>,
    n: int,
)
    requires
        0 < n <= modules.len(),
        plan_modules(fs, modules.take(n)) is Err,
    ensures
        plan_modules(fs, modules) == plan_modules(fs, modules.take(n)),
    decreases modules.len() - n,
{
    if n < modules.len() {
        assert(modules.take(n + 1).drop_last() == modules.take(n));
        lemma_plan_modules_err(fs, modules, n + 1);
    } else {
        assert(modules.take(n) == modules);
    }
}

fn copy_bytes(v: &Vec<u8>) -> (r: Vec<u8>)
    ensures
        r@ == v@,
{
    let mut r: Vec<u8> = Vec::new();
    for i in 0..v.len()
        invariant
            r@ == v@.take(i as int),
    {
        r.push(v[i]);
        assert(v@.take(i + 1) == v@.take(i as int).push(v@[i as int]));
    }
    assert(v@.take(v.len() as int) == v@);
    r
}

/// The snippet files of a generated output, checked before anything is written:
/// `npm_empty` tells whether the output needs no npm dependency, `snippets` lists the
/// inline snippets of each identifier and `modules` the local modules, with their
/// bytes.
#[verifier::loop_isolation(false)]
pub fn plan_outputs(
    npm_empty: bool,
    snippets: &Vec<(String, Vec<Vec<u8>>)>,
    modules: &Vec<(String, Vec<u8>)>,
) -> (r: Result<OutputFiles, String>)
    ensures
        plan_view(r) == spec_plan(npm_empty, snippets_view(snippets@), modules_view(modules@)),
{
    if !npm_empty {
        return Err(string_of(&chars_of("dépendances npm générées non autorisées pour cette application")));
    }
    let ghost sv = snippets_view(snippets@);
    let ghost mv = modules_view(modules@);
    let mut files = OutputFiles::new();
    for i in 0..snippets.len()
        invariant
            sv == snippets_view(snippets@),
            plan_snippets(Map::empty(), sv.take(i as int)) == Ok::<Map<Seq<char>, Seq<u8>>, Seq<char>>(files.files()),
    {
        assert(sv.take(i + 1).drop_last() == sv.take(i as int));
        assert(sv.take(i + 1).last() == sv[i as int]);
        let identifier = &snippets[i].0;
        let list = &snippets[i].1;
        let ghost lv = list@.map_values(|b: Vec<u8>| b@);
        assert(sv[i as int] == (identifier@, lv));
        if !safe_relative(identifier.as_str()) {
            proof {
                lemma_plan_snippets_err(Map::empty(), sv, i + 1);
            }
            return Err(string_of(&chars_of("identifiant de snippet interdit")));
        }
        let ghost start = files.files();
        for j in 0..list.len()
            invariant
                lv == list@.map_values(|b: Vec<u8>| b@),
                plan_inline(start, identifier@, lv.take(j as int)) == Ok::<Map<Seq<char>, Seq<u8>>, Seq<char>>(files.files()),
        {
            assert(lv.take(j + 1).drop_last() == lv.take(j as int));
            assert(lv.take(j + 1).last() == list@[j as int]@);
            let path = inline_snippet_path(identifier.as_str(), j);
            let ghost before = files.files();
            assert(path@ == spec_inline_path(identifier@, j as nat));
            match files.add_file(path, copy_bytes(&list[j])) {
                Ok(()) => {},
                Err(m) => {
                    proof {
                        lemma_plan_inline_err(start, identifier@, lv, j + 1);
                        assert(plan_snippets(Map::empty(), sv.take(i + 1)) == plan_inline(
                            start,
                            identifier@,
                            lv,
                        ));
                        lemma_plan_snippets_err(Map::empty(), sv, i + 1);
                    }
                    return Err(m);
                },
            }
        }
        assert(lv.take(list@.len() as int) == lv);
    }
    assert(sv.take(snippets@.len() as int) == sv);
    let ghost mid = files.files();
    for k in 0..modules.len()
        invariant
            mv == modules_view(modules@),
            plan_snippets(Map::empty(), sv) == Ok::<Map<Seq<char>, Seq<u8>>, Seq<char>>(mid),
            plan_modules(mid, mv.take(k as int)) == Ok::<Map<Seq<char>, Seq<u8>>, Seq<char>>(files.files()),
    {
        assert(mv.take(k + 1).drop_last() == mv.take(k as int));
        assert(mv.take(k + 1).last() == mv[k as int]);
        let path = &modules[k].0;
        assert(mv[k as int] == (path@, modules@[k as int].1@));
        if !safe_relative(path.as_str()) {
            proof {
                lemma_plan_modules_err(mid, mv, k + 1);
            }
            return Err(string_of(&chars_of("chemin de module local interdit")));
        }
        match files.add_file(module_snippet_path(path.as_str()), copy_bytes(&modules[k].1)) {
            Ok(()) => {},
            Err(m) => {
                proof {
                    lemma_plan_modules_err(mid, mv, k + 1);
                }
                return Err(m);
            },
        }
    }
    assert(mv.take(modules@.len() as int) == mv);
    Ok(files)
}

/// Every path of `fs` lies under `snippets/` and is a safe relative path.
pub open spec fn under_snippets(fs: Map<Seq<char>, Seq<u8>>) -> bool {
    forall|p: Seq<char>|
        #[trigger] fs.contains_key(p) ==> has_prefix(p, "snippets/"@) && spec_safe_relative(p)
}

proof fn lemma_add_under(fs: Map<Seq<char>, Seq<u8>>, path: Seq<char>, bytes: Seq<u8>)
    requires
        under_snippets(fs),
        has_prefix(path, "snippets/"@),
    ensures
        spec_add(fs, path, bytes) matches Ok(g) ==> under_snippets(g),
{
}

proof fn lemma_inline_under(fs: Map<Seq<char>, Seq<u8>>, identifier: Seq<char>, list: Seq<Seq<u8>>)
    requires
        under_snippets(fs),
    ensures
        plan_inline(fs, identifier, list) matches Ok(g) ==> under_snippets(g),
    decreases list.len(),
{
    if list.len() > 0 {
        lemma_inline_under(fs, identifier, list.drop_last());
        if let Ok(g) = plan_inline(fs, identifier, list.drop_last()) {
            let path = spec_inline_path(identifier, (list.len() - 1) as nat);
            assert(path.take("snippets/"@.len() as int) =~= "snippets/"@);
            lemma_add_under(g, path, list.last());
        }
    }
}

proof fn lemma_snippets_under(fs: Map<Seq<char>, Seq<u8>>, snippets: Seq<(Seq<char>, Seq<Seq<u8>>)>)
    requires
        under_snippets(fs),
    ensures
        plan_snippets(fs, snippets) matches Ok(g) ==> under_snippets(g),
    decreases snippets.len(),
{
    if snippets.len() > 0 {
        lemma_snippets_under(fs, snippets.drop_last());
        if let Ok(g) = plan_snippets(fs, snippets.drop_last()) {
            lemma_inline_under(g, snippets.last().0, snippets.last().1);
        }
    }
}

proof fn lemma_modules_under(fs: Map<Seq<char>, Seq<u8>>, modules: Seq<(Seq<char>, Seq<u8>)>)
    requires
        under_snippets(fs),
    ensures
        plan_modules(fs, modules) matches Ok(g) ==> under_snippets(g),
    decreases modules.len(),
{
    if modules.len() > 0 {
        lemma_modules_under(fs, modules.drop_last());
        if let Ok(g) = plan_modules(fs, modules.drop_last()) {
            let path = "snippets/"@ + modules.last().0;
            assert(path.take("snippets/"@.len() as int) =~= "snippets/"@);
            lemma_add_under(g, path, modules.last().1);
        }
    }
}

/// Every file that a generated output brings lies under `snippets/`, at a safe
/// relative path: no snippet or local module can name a file elsewhere.
pub proof fn law_planned_files_stay_under_snippets(
    npm_empty: bool,
    snippets: Seq<(Seq<char>, Seq<Seq<u8>>)>,
    modules: Seq<(Seq<char>, Seq<u8>)>,
)
    ensures
        spec_plan(npm_empty, snippets, modules) matches Ok(fs) ==> under_snippets(fs),
{
    assert(under_snippets(Map::<Seq<char>, Seq<u8>>::empty()));
    lemma_snippets_under(Map::empty(), snippets);
    if let Ok(g) = plan_snippets(Map::empty(), snippets) {
        lemma_modules_under(g, modules);
    }
}

} // verus!
