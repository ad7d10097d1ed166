use chatpurp::assets::{
    allowed_asset, asset_entry, complete_bundle, depth_acceptable, has_wasm_header,
    expected_asset, read_budget, room_for_asset, MAX_ASSET_BYTES,
};

#[test]
fn only_generated_files_and_portable_snippets_are_served() {
    for path in ["chatpurp_web.js", "chatpurp_web_bg.wasm", "snippets/dioxus-web-1/inline0.js", "snippets/a.js"] {
        assert!(allowed_asset(path), "{path}");
    }
    for path in ["index.html", "snippets/a.ts", "snippets/../a.js", "snippets//a.js", "snippets/./a.js", "other/a.js", "snippets/a b.js"] {
        assert!(!allowed_asset(path), "{path}");
    }
}

#[test]
fn assets_are_counted_typed_and_bounded() {
    assert_eq!(room_for_asset(63), Ok(()));
    assert_eq!(room_for_asset(64), Err("too many assets"));
    assert_eq!(expected_asset("chatpurp_web.js"), Ok(()));
    assert_eq!(expected_asset("secret.txt"), Err("unexpected asset"));
    let wasm = b"\0asm\x01\0\0\0body".to_vec();
    assert_eq!(
        asset_entry("chatpurp_web_bg.wasm", &wasm, 10),
        Ok(("/chatpurp_web_bg.wasm".to_string(), "application/wasm", 22))
    );
    assert_eq!(asset_entry("chatpurp_web_bg.wasm", b"not wasm", 0), Err("invalid WASM header"));
    assert_eq!(
        asset_entry("chatpurp_web.js", b"x", 0),
        Ok(("/chatpurp_web.js".to_string(), "text/javascript; charset=utf-8", 1))
    );
    assert_eq!(asset_entry("chatpurp_web.js", b"xy", MAX_ASSET_BYTES - 1), Err("asset size limit"));
    assert_eq!(read_budget(0), MAX_ASSET_BYTES + 1);
    assert!(depth_acceptable(8));
    assert!(!depth_acceptable(9));
    assert!(has_wasm_header(b"\0asm\x01\0\0\0"));
    assert!(!has_wasm_header(b"\0asm\x02\0\0\0"));
}

#[test]
fn bundle_needs_both_generated_files() {
    let routes = vec!["/chatpurp_web.js".to_string(), "/chatpurp_web_bg.wasm".to_string()];
    assert!(complete_bundle(&routes));
    assert!(!complete_bundle(&routes[..1]));
    assert!(!complete_bundle(&[]));
}
