//! Which compiled frontend files are served, and how they are typed.
//!
//! The files are listed and read once at start-up by the caller; each one passes
//! through these checks in the order of the listing.
use crate::text::{
    chars_of, ends_with, has_prefix, has_suffix, safe_relative_chars, same_text,
    spec_safe_relative, starts_with, string_of, push_chars,
};
use vstd::prelude::*;

verus! {

/// The most bytes, all compiled files together.
pub const MAX_ASSET_BYTES: usize = 33554432;

/// The most compiled files.
pub const MAX_ASSET_FILES: usize = 64;

/// The deepest directory level below the asset root.
pub const MAX_ASSET_DEPTH: usize = 8;

/// The content security policy sent with every asset.
pub const CSP: &'static str = "default-src 'none'; script-src 'self' 'wasm-unsafe-eval'; connect-src 'self'; style-src 'self'; worker-src 'none'; frame-src 'none'; object-src 'none'; base-uri 'none'; form-action 'none'; frame-ancestors 'none'";

/// The compiled files that may be served: the generated loader and module, and
/// JavaScript snippets under `snippets/` with portable relative paths.
pub open spec fn spec_allowed_asset(path: Seq<char>) -> bool {
    ||| path == "chatpurp_web.js"@
    ||| path == "chatpurp_web_bg.wasm"@
    ||| (has_prefix(path, "snippets/"@) && has_suffix(path, ".js"@) && spec_safe_relative(path))
}

/// Whether a compiled file, named by its path below the asset root, may be served.
pub fn allowed_asset(path: &str) -> (r: bool)
    ensures
        r == spec_allowed_asset(path@),
{
    if same_text(path, "chatpurp_web.js") || same_text(path, "chatpurp_web_bg.wasm") {
        return true;
    }
    let p = chars_of(path);
    starts_with(&p, &chars_of("snippets/")) && ends_with(&p, &chars_of(".js"))
        && safe_relative_chars(&p)
}

/// The eight bytes that open a WebAssembly version 1 module.
pub open spec fn wasm_magic() -> Seq<u8> {
    seq![0u8, 97u8, 115u8, 109u8, 1u8, 0u8, 0u8, 0u8]
}

/// `bytes` opens with the WebAssembly version 1 header.
pub open spec fn spec_wasm_header(bytes: Seq<u8>) -> bool {
    bytes.len() >= 8 && bytes.take(8) == wasm_magic()
}

/// Whether `bytes` opens with the WebAssembly version 1 header.
pub fn has_wasm_header(bytes: &[u8]) -> (r: bool)
    ensures
        r == spec_wasm_header(bytes@),
{
    if bytes.len() < 8 {
        return false;
    }
    let magic: [u8; 8] = [0u8, 97u8, 115u8, 109u8, 1u8, 0u8, 0u8, 0u8];
    assert(magic@ =~= wasm_magic());
    for i in 0..8
        invariant
            bytes@.len() >= 8,
            magic@ == wasm_magic(),
            forall|j: int| 0 <= j < i ==> bytes@[j] == magic@[j],
    {
        if bytes[i] != magic[i] {
            assert(bytes@.take(8)[i as int] != wasm_magic()[i as int]);
            return false;
        }
    }
    assert(bytes@.take(8) =~= wasm_magic());
    true
}

/// Whether a directory at `depth` below the asset root may still be listed.
pub fn depth_acceptable(depth: usize) -> (r: bool)
    ensures
        r == (depth <= MAX_ASSET_DEPTH),
{
    depth <= 8
}

/// Whether one more file may be kept when `count` files were already kept.
pub fn room_for_asset(count: usize) -> (r: Result<(), &'static str>)
    ensures
        match r {
            Ok(_) => count < MAX_ASSET_FILES,
            Err(m) => count >= MAX_ASSET_FILES && m@ == "too many assets"@,
        },
{
    if count >= 64 {
        return Err("too many assets");
    }
    Ok(())
}

/// Whether a file found under the asset root, named by its relative path, is one
/// that may be served.
pub fn expected_asset(name: &str) -> (r: Result<(), &'static str>)
    ensures
        match r {
            Ok(_) => spec_allowed_asset(name@),
            Err(m) => !spec_allowed_asset(name@) && m@ == "unexpected asset"@,
        },
{
    if !allowed_asset(name) {
        return Err("unexpected asset");
    }
    Ok(())
}

/// How many bytes the next file may be read up to, when `total` bytes were kept: one
/// more than the room left, so that an oversized file is noticed.
pub fn read_budget(total: usize) -> (r: usize)
    requires
        total <= MAX_ASSET_BYTES,
    ensures
        r == MAX_ASSET_BYTES - total + 1,
{
    33554432 - total + 1
}

/// A kept asset: its route, its media type and the new byte total.
pub open spec fn spec_asset_entry(name: Seq<char>, bytes: Seq<u8>, total: int) -> Result<
    (Seq<char>, Seq<char>, int),
    Seq<char>,
> {
    let t = total + bytes.len();
    if t > MAX_ASSET_BYTES {
        Err("asset size limit"@)
    } else if has_suffix(name, ".wasm"@) {
        if spec_wasm_header(bytes) {
            Ok(("/"@ + name, "application/wasm"@, t))
        } else {
            Err("invalid WASM header"@)
        }
    } else {
        Ok(("/"@ + name, "text/javascript; charset=utf-8"@, t))
    }
}

/// The route and media type of the file `name` read as `bytes`, after `total` bytes
/// of earlier files, with the new total; a refusal names its reason.
pub fn asset_entry(name: &str, bytes: &[u8], total: usize) -> (r: Result<
    (String, &'static str, usize),
    &'static str,
>)
    requires
        total <= MAX_ASSET_BYTES,
    ensures
        match r {
            Ok((route, mime, t)) => spec_asset_entry(name@, bytes@, total as int) == Ok::<
                (Seq<char>, Seq<char>, int),
                Seq<char>,
            >((route@, mime@, t as int)),
            Err(m) => spec_asset_entry(name@, bytes@, total as int) == Err::<
                (Seq<char>, Seq<char>, int),
                Seq<char>,
            >(m@),
        },
{
    if bytes.len() > 33554432 - total {
        return Err("asset size limit");
    }
    let t = total + bytes.len();
    let mut route = String::new();
    push_chars(&mut route, &chars_of("/"));
    push_chars(&mut route, &chars_of(name));
    if ends_with(&chars_of(name), &chars_of(".wasm")) {
        if !has_wasm_header(bytes) {
            return Err("invalid WASM header");
        }
        Ok((route, "application/wasm", t))
    } else {
        Ok((route, "text/javascript; charset=utf-8", t))
    }
}

/// Both generated files are among the kept routes.
pub fn complete_bundle(routes: &[String]) -> (r: bool)
    ensures
        r == ((exists|i: int| 0 <= i < routes@.len() && routes@[i]@ == "/chatpurp_web.js"@) && (
        exists|i: int| 0 <= i < routes@.len() && routes@[i]@ == "/chatpurp_web_bg.wasm"@)),
{
    let mut js = false;
    let mut wasm = false;
    for k in 0..routes.len()
        invariant
            js == exists|i: int| 0 <= i < k && routes@[i]@ == "/chatpurp_web.js"@,
            wasm == exists|i: int| 0 <= i < k && routes@[i]@ == "/chatpurp_web_bg.wasm"@,
    {
        if same_text(routes[k].as_str(), "/chatpurp_web.js") {
            js = true;
        }
        if same_text(routes[k].as_str(), "/chatpurp_web_bg.wasm") {
            wasm = true;
        }
    }
    js && wasm
}

} // verus!
