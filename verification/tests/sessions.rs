use chatpurp::application::Failure;
use chatpurp::policy::{Directory, IdentityDefinition};
use chatpurp::sessions::{
    claims_valid_at, cookie_token, issue_claims, verify_claims, Claims, Clock, COOKIE,
};
use std::sync::atomic::{AtomicU64, Ordering};

fn strings(values: &[&str]) -> Vec<String> {
    values.iter().map(|v| v.to_string()).collect()
}

fn identity(id: &str, name: &str, groups: &[&str]) -> IdentityDefinition {
    IdentityDefinition { id: id.into(), display_name: name.into(), groups: strings(groups) }
}

fn directory() -> Directory {
    Directory {
        issuer: "local-demo-idp".into(),
        audience: "local-llm-lab-api".into(),
        token_ttl_seconds: 900,
        identities: vec![
            identity("alice", "Alice", &["LAB_READERS", "HR"]),
            identity("bob", "Bob", &["LAB_READERS", "IT"]),
            identity("charlie", "Charlie", &["LAB_READERS"]),
            identity("oscar", "Oscar", &["OSCAR_PUBLIC_WELCOME_READERS", "MCP_READERS"]),
        ],
    }
}

struct CountingClock {
    now: AtomicU64,
    calls: AtomicU64,
}

impl Clock for CountingClock {
    fn now(&self) -> Result<u64, Failure> {
        self.calls.fetch_add(1, Ordering::SeqCst);
        let n = self.now.load(Ordering::SeqCst);
        if n == u64::MAX {
            Err(Failure::Session)
        } else {
            Ok(n)
        }
    }
}

fn clock(now: u64) -> CountingClock {
    CountingClock { now: AtomicU64::new(now), calls: AtomicU64::new(0) }
}

#[test]
fn cookie_ambiguities_fail_closed() {
    assert_eq!(
        cookie_token(&["other=ok; chatpurp_demo_session=abc.def.sig"]).unwrap().as_deref(),
        Some("abc.def.sig")
    );
    for values in [
        vec!["chatpurp_demo_session=a; chatpurp_demo_session=a"],
        vec!["chatpurp_demo_session=a", "chatpurp_demo_session=b"],
        vec!["chatpurp_demo_session="],
        vec!["other=\"unfinished"],
        vec!["other=two words"],
        vec!["broken"],
    ] {
        assert!(cookie_token(&values).is_err());
    }
    assert!(cookie_token(&[]).unwrap().is_none());
}

#[test]
fn quoted_cookie_values_are_unquoted_and_other_cookies_ignored() {
    assert_eq!(cookie_token(&["chatpurp_demo_session=\"a.b.c\""]).unwrap().as_deref(), Some("a.b.c"));
    assert_eq!(cookie_token(&["theme=dark", "lang=fr"]).unwrap(), None);
    assert_eq!(COOKIE, "chatpurp_demo_session");
}

#[test]
fn claims_expire_exactly_at_nine_hundred_seconds() {
    let d = directory();
    let c = clock(1000);
    let claims = issue_claims(&d, &c, "oscar").unwrap();
    assert_eq!(claims.sub, "oscar");
    assert_eq!(claims.groups, ["OSCAR_PUBLIC_WELCOME_READERS", "MCP_READERS"]);
    assert_eq!(claims.iss, "local-demo-idp");
    assert_eq!(claims.aud, "local-llm-lab-api");
    assert_eq!((claims.iat, claims.exp), (1000, 1900));
    assert_eq!(verify_claims(&d, &c, &claims).unwrap().id(), "oscar");
    c.now.store(1899, Ordering::SeqCst);
    assert!(verify_claims(&d, &c, &claims).is_ok());
    c.now.store(1900, Ordering::SeqCst);
    assert!(matches!(verify_claims(&d, &c, &claims), Err(Failure::Session)));
    assert!(issue_claims(&d, &c, "unknown").is_err());
    c.now.store(u64::MAX, Ordering::SeqCst);
    assert!(issue_claims(&d, &c, "oscar").is_err());
    assert!(verify_claims(&d, &c, &claims).is_err());
    c.now.store(u64::MAX - 1, Ordering::SeqCst);
    assert!(issue_claims(&d, &c, "oscar").is_err());
}

#[test]
fn inconsistent_claims_never_read_the_clock() {
    let d = directory();
    let c = clock(1000);
    let valid = Claims {
        sub: "oscar".into(),
        groups: strings(&["OSCAR_PUBLIC_WELCOME_READERS", "MCP_READERS"]),
        iss: "local-demo-idp".into(),
        aud: "local-llm-lab-api".into(),
        iat: 1000,
        exp: 1900,
    };
    let mut cases = Vec::new();
    for exp in [1899, 1901, 0] {
        let mut v = valid.clone();
        v.exp = exp;
        cases.push(v);
    }
    let mut v = valid.clone();
    v.sub = "unknown".into();
    cases.push(v);
    for groups in [vec![], vec!["LAB_READERS"], vec!["MCP_READERS", "MCP_READERS"]] {
        let mut v = valid.clone();
        v.groups = strings(&groups);
        cases.push(v);
    }
    let mut v = valid.clone();
    v.sub = "alice".into();
    cases.push(v);
    for claims in &cases {
        assert!(matches!(verify_claims(&d, &c, claims), Err(Failure::Session)));
    }
    assert!(issue_claims(&d, &c, "unknown").is_err());
    assert_eq!(c.calls.load(Ordering::SeqCst), 0);
    assert!(verify_claims(&d, &c, &valid).is_ok());
    assert_eq!(c.calls.load(Ordering::SeqCst), 1);
}

#[test]
fn every_validation_reads_clock_and_iat_is_not_a_not_before() {
    let d = directory();
    let c = clock(1000);
    let claims = issue_claims(&d, &c, "oscar").unwrap();
    c.now.store(4000, Ordering::SeqCst);
    assert!(verify_claims(&d, &c, &claims).is_err());
    c.now.store(1000, Ordering::SeqCst);
    assert!(verify_claims(&d, &c, &claims).is_ok());
    c.now.store(4000, Ordering::SeqCst);
    let future = issue_claims(&d, &c, "oscar").unwrap();
    c.now.store(1000, Ordering::SeqCst);
    assert!(verify_claims(&d, &c, &future).is_ok());
}

#[test]
fn claims_are_valid_strictly_before_their_expiry() {
    let d = directory();
    let claims = Claims {
        sub: "oscar".into(),
        groups: strings(&["OSCAR_PUBLIC_WELCOME_READERS", "MCP_READERS"]),
        iss: "local-demo-idp".into(),
        aud: "local-llm-lab-api".into(),
        iat: 1000,
        exp: 1900,
    };
    assert_eq!(claims_valid_at(&d, &claims, 1000).unwrap().id(), "oscar");
    assert_eq!(claims_valid_at(&d, &claims, 0).unwrap().id(), "oscar");
    assert!(claims_valid_at(&d, &claims, 1899).is_ok());
    assert!(matches!(claims_valid_at(&d, &claims, 1900), Err(Failure::Session)));
    assert!(matches!(claims_valid_at(&d, &claims, u64::MAX), Err(Failure::Session)));
    let mut longer = claims.clone();
    longer.exp = 1901;
    assert!(matches!(claims_valid_at(&d, &longer, 1000), Err(Failure::Session)));
    let mut stranger = claims.clone();
    stranger.sub = "unknown".into();
    assert!(matches!(claims_valid_at(&d, &stranger, 1000), Err(Failure::Session)));
}

#[test]
fn expired_claims_are_refused_whatever_the_clock_says_later() {
    let d = directory();
    let c = clock(1000);
    let claims = issue_claims(&d, &c, "alice").unwrap();
    c.now.store(1900, Ordering::SeqCst);
    assert!(matches!(verify_claims(&d, &c, &claims), Err(Failure::Session)));
    c.now.store(1899, Ordering::SeqCst);
    assert_eq!(verify_claims(&d, &c, &claims).unwrap().groups(), ["LAB_READERS", "HR"]);
    assert_eq!(c.calls.load(Ordering::SeqCst), 3);
}
