use chatpurp::bootstrap::{configuration_check, listen_host, CONFIG_LIMIT};
use chatpurp::json::FieldNames;

#[test]
fn reserved_ports_are_refused() {
    for port in [0, 3210, 11434, 6333] {
        assert_eq!(listen_host(port), Err("Port réservé ou invalide."));
    }
    assert_eq!(listen_host(3211).unwrap(), "127.0.0.1:3211");
    assert_eq!(listen_host(65535).unwrap(), "127.0.0.1:65535");
    assert_eq!(listen_host(1).unwrap(), "127.0.0.1:1");
}

#[test]
fn configuration_files_are_bounded_and_versioned() {
    assert_eq!(configuration_check(10, Some("1.0")), Ok(()));
    assert_eq!(configuration_check(CONFIG_LIMIT, Some("1.0")), Ok(()));
    assert_eq!(configuration_check(CONFIG_LIMIT + 1, Some("1.0")), Err("Configuration trop volumineuse."));
    assert_eq!(configuration_check(10, Some("2.0")), Err("Version de configuration invalide."));
    assert_eq!(configuration_check(10, None), Err("Version de configuration invalide."));
}

#[test]
fn a_field_name_is_new_only_once_per_object() {
    let mut names = FieldNames::new();
    assert!(names.first_use("identity_id"));
    assert!(names.first_use("extra"));
    assert!(!names.first_use("identity_id"));
    let mut other = FieldNames::new();
    assert!(other.first_use("identity_id"));
}
