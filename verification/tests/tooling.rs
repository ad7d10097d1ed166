use chatpurp::tooling::{
    check_environment, fingerprint_verdict, fingerprints_match, inline_snippet_path, input_acceptable,
    loader_complete, module_snippet_path, plan_outputs, safe_relative, source_hash, OutputFiles,
};

#[test]
fn snippet_paths_are_relative_portable_and_unambiguous() {
    for path in ["dioxus-web-123/inline0.js", "module.js"] {
        assert!(safe_relative(path), "{path}");
    }
    for path in ["", "/a", "../a", "a/../b", "a//b", "a/", "a/./b", "a\\b", "C:/a", "a\0b"] {
        assert!(!safe_relative(path), "{path:?}");
    }
}

#[test]
fn duplicate_snippet_paths_fail() {
    let mut files = OutputFiles::new();
    files.add_file("snippets/a.js".into(), vec![]).unwrap();
    assert!(files.add_file("snippets/a.js".into(), vec![]).is_err());
    assert!(files.add_file("../escape.js".into(), vec![]).is_err());
}

#[test]
fn output_files_keep_one_entry_per_path() {
    let mut files = OutputFiles::new();
    files.add_file("snippets/a.js".into(), b"one".to_vec()).unwrap();
    files.add_file("snippets/b.js".into(), b"two".to_vec()).unwrap();
    let err = files.add_file("snippets/a.js".into(), b"three".to_vec()).unwrap_err();
    assert_eq!(err, "chemin de sortie interdit ou dupliqué : snippets/a.js");
    let err = files.add_file("/abs.js".into(), b"x".to_vec()).unwrap_err();
    assert_eq!(err, "chemin de sortie interdit ou dupliqué : /abs.js");
    let entries = files.entries();
    assert_eq!(entries.len(), 2);
    assert_eq!(entries[0].0, "snippets/a.js");
    assert_eq!(entries[0].1, b"three");
    assert_eq!(entries[1].1, b"two");
}

#[test]
fn line_endings_follow_upstream_normalization() {
    assert_eq!(source_hash("a\r\nb\r\n"), source_hash("a\nb\n"));
}

#[test]
fn fingerprint_follows_the_lines_of_the_source() {
    assert_eq!(source_hash("a\nb"), source_hash("a\nb\n"));
    assert_ne!(source_hash("a\nb\n"), source_hash("b\na\n"));
    assert_ne!(source_hash("const a = 1;\n"), source_hash("changed"));
}

#[test]
fn fingerprint_list_matches_its_debug_form() {
    let h = source_hash("const a = 1;\n");
    assert!(fingerprints_match(&format!("[{h}]"), &[h]));
    assert!(fingerprints_match(&format!("  [{h}]\n"), &[h]));
    assert!(fingerprints_match(&format!("{:?}", vec![h, 7u64, 0]), &[h, 7, 0]));
    assert!(!fingerprints_match(&format!("[{}]", h.wrapping_add(1)), &[h]));
    assert!(fingerprints_match("[]", &[]));
    assert!(!fingerprints_match("", &[]));
}

#[test]
fn environment_requires_one_thread_and_no_inherited_engine_options() {
    assert_eq!(check_environment(Some("1"), &["PATH".into(), "HOME".into()]), Ok(()));
    assert_eq!(check_environment(None, &[]), Err("RAYON_NUM_THREADS doit valoir 1"));
    assert_eq!(check_environment(Some("2"), &[]), Err("RAYON_NUM_THREADS doit valoir 1"));
    assert_eq!(
        check_environment(Some("1"), &["WASM_BINDGEN_ANYREF".into()]),
        Err("retirer les variables WASM_BINDGEN_* héritées")
    );
    assert_eq!(
        check_environment(Some("2"), &["WASM_BINDGEN_MULTI_VALUE".into()]),
        Err("RAYON_NUM_THREADS doit valoir 1")
    );
}

#[test]
fn input_and_generated_loader_checks() {
    let mut module = b"\0asm\x01\0\0\0".to_vec();
    assert!(input_acceptable(&module));
    module.extend_from_slice(b"rest");
    assert!(input_acceptable(&module));
    assert!(!input_acceptable(b"not wasm"));
    assert!(!input_acceptable(b"\0asm"));
    assert!(loader_complete("export { initSync }; new URL('chatpurp_web_bg.wasm', import.meta.url)"));
    assert!(!loader_complete("export {}"));
    assert!(!loader_complete(""));
    assert!(!loader_complete("chatpurp_web_bg.wasm"));
}

#[test]
fn snippet_output_paths() {
    assert_eq!(inline_snippet_path("dioxus-web-123", 0), "snippets/dioxus-web-123/inline0.js");
    assert_eq!(inline_snippet_path("x", 12), "snippets/x/inline12.js");
    assert_eq!(module_snippet_path("src/a.js"), "snippets/src/a.js");
}

#[test]
fn preflight_needs_sources_with_the_recorded_fingerprints() {
    let h = source_hash("const a = 1;\n");
    assert_eq!(fingerprint_verdict(&format!("[{h}]"), &[h]), Ok(()));
    assert_eq!(fingerprint_verdict("[1]", &[]), Err("aucune source JS/TS à vérifier"));
    let changed = source_hash("changed");
    assert_eq!(
        fingerprint_verdict(&format!("[{h}]"), &[changed]),
        Err("empreintes différentes : build Bun refusé")
    );
}

fn entries(files: &OutputFiles) -> Vec<(String, Vec<u8>)> {
    files.entries().clone()
}

#[test]
fn planned_snippets_are_checked_before_any_output() {
    let inline = vec![(
        "dioxus-web-123".to_string(),
        vec![b"export const a = 1;".to_vec(), b"export const b = 2;".to_vec()],
    )];
    let modules = vec![("local/module.js".to_string(), b"export default 3;".to_vec())];
    let files = plan_outputs(true, &inline, &modules).unwrap();
    assert_eq!(
        entries(&files),
        vec![
            ("snippets/dioxus-web-123/inline0.js".to_string(), b"export const a = 1;".to_vec()),
            ("snippets/dioxus-web-123/inline1.js".to_string(), b"export const b = 2;".to_vec()),
            ("snippets/local/module.js".to_string(), b"export default 3;".to_vec()),
        ]
    );
    assert_eq!(
        plan_outputs(false, &inline, &modules).err().unwrap(),
        "dépendances npm générées non autorisées pour cette application"
    );
    let bad_identifier = vec![("../escape".to_string(), vec![b"x".to_vec()])];
    assert_eq!(
        plan_outputs(true, &bad_identifier, &modules).err().unwrap(),
        "identifiant de snippet interdit"
    );
    let bad_module = vec![("/abs.js".to_string(), b"x".to_vec())];
    assert_eq!(plan_outputs(true, &inline, &bad_module).err().unwrap(), "chemin de module local interdit");
    let clash = vec![("dioxus-web-123/inline0.js".to_string(), b"y".to_vec())];
    assert_eq!(
        plan_outputs(true, &inline, &clash).err().unwrap(),
        "chemin de sortie interdit ou dupliqué : snippets/dioxus-web-123/inline0.js"
    );
    assert!(entries(&plan_outputs(true, &vec![], &vec![]).unwrap()).is_empty());
    let nested = vec![("a/b".to_string(), vec![b"x".to_vec()])];
    let planned = plan_outputs(true, &nested, &vec![("c/d.js".to_string(), b"y".to_vec())]).unwrap();
    assert!(entries(&planned).iter().all(|(p, _)| p.starts_with("snippets/") && safe_relative(p)));
}
