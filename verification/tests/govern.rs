use engine_core::govern::{
    compute_govern, consent_ok, k_anonymity_ok, redact_pii, scan_pii, ConsentManifest, PiiFinding,
    K_ANON,
};

fn finding(kind: &str, matched: &str) -> PiiFinding {
    PiiFinding { kind: kind.to_string(), matched: matched.to_string() }
}

fn pairs(v: &[PiiFinding]) -> Vec<(String, String)> {
    v.iter().map(|f| (f.kind.clone(), f.matched.clone())).collect()
}

fn consent(purpose: &str, grains: &[&str]) -> Option<ConsentManifest> {
    Some(ConsentManifest {
        version: "2".to_string(),
        purpose: purpose.to_string(),
        granted_at: "2026-01-01".to_string(),
        data_fields: vec![],
        permitted_grains: grains.iter().map(|g| g.to_string()).collect(),
    })
}

#[test]
fn k_anonymity_threshold_is_five() {
    assert_eq!(K_ANON, 5);
    assert!(!k_anonymity_ok(0));
    assert!(!k_anonymity_ok(4));
    assert!(k_anonymity_ok(5));
    assert!(k_anonymity_ok(6));
}

#[test]
fn k_anonymity_monotone_on_values() {
    for n in 0..20usize {
        if k_anonymity_ok(n) {
            assert!(k_anonymity_ok(n + 1));
        }
    }
}

#[test]
fn scan_finds_email() {
    let f = scan_pii("contact jane.doe@example.org today");
    assert_eq!(pairs(&f), vec![("email".to_string(), "jane.doe@example.org".to_string())]);
}

#[test]
fn scan_ignores_short_email_like_token() {
    // "a@b.c" is 5 bytes: not over 5, so not reported.
    assert!(scan_pii("a@b.c").is_empty());
    assert_eq!(pairs(&scan_pii("ab@c.d")), vec![("email".to_string(), "ab@c.d".to_string())]);
}

#[test]
fn scan_email_length_is_in_bytes() {
    // Five characters but six bytes: reported.
    assert_eq!(pairs(&scan_pii("é@x.c")), vec![("email".to_string(), "é@x.c".to_string())]);
}

#[test]
fn scan_finds_phone_across_separators() {
    let f = scan_pii("call (012) 345-6789 now");
    assert_eq!(pairs(&f), vec![("phone".to_string(), "0123456789".to_string())]);
}

#[test]
fn scan_phone_needs_nine_digits() {
    assert!(scan_pii("call 1234-5678 now").is_empty());
    assert_eq!(pairs(&scan_pii("123456789")), vec![("phone".to_string(), "123456789".to_string())]);
}

#[test]
fn scan_letters_break_phone_runs() {
    // A letter ends the digit run; 12345 and 6789 are both too short, but the
    // word itself is id-like.
    assert_eq!(pairs(&scan_pii("12345x6789")), vec![("ic_or_id".to_string(), "12345x6789".to_string())]);
    assert!(scan_pii("12345 x 6789").is_empty());
}

#[test]
fn scan_finds_ic_number() {
    let f = scan_pii("IC S1234567D on file");
    assert_eq!(pairs(&f), vec![("ic_or_id".to_string(), "S1234567D".to_string())]);
}

#[test]
fn scan_id_needs_letters_and_six_digits() {
    assert!(scan_pii("AB12345").is_empty());
    // Longer than 12 bytes: not an id, though its digits make a phone number.
    assert_eq!(
        pairs(&scan_pii("code X1234567890123")),
        vec![("phone".to_string(), "1234567890123".to_string())]
    );
}

#[test]
fn scan_orders_kinds_email_phone_id() {
    let f = scan_pii("S9876543A mail x.y@mail.com tel 91234567 8");
    assert_eq!(
        pairs(&f),
        vec![
            ("email".to_string(), "x.y@mail.com".to_string()),
            ("phone".to_string(), "912345678".to_string()),
            ("ic_or_id".to_string(), "S9876543A".to_string()),
        ]
    );
}

#[test]
fn scan_clean_text_finds_nothing() {
    assert!(scan_pii("For 18-24|Youth Skills the observed completion is 42%.").is_empty());
    assert!(scan_pii("").is_empty());
}

#[test]
fn redact_replaces_every_occurrence() {
    let (out, found) = redact_pii(
        "{\"a\":\"jane@x.org\",\"b\":\"jane@x.org\"}",
        &[finding("email", "jane@x.org")],
    );
    assert!(found);
    assert_eq!(out, "{\"a\":\"[REDACTED]\",\"b\":\"[REDACTED]\"}");
}

#[test]
fn redact_trims_and_skips_blank() {
    let (out, found) = redact_pii("id S1234567D", &[finding("ic_or_id", "  "), finding("ic_or_id", " S1234567D ")]);
    assert!(found);
    assert_eq!(out, "id [REDACTED]");
}

#[test]
fn redact_absent_token_leaves_text() {
    let (out, found) = redact_pii("nothing here", &[finding("email", "a@b.org")]);
    assert!(!found);
    assert_eq!(out, "nothing here");
    let (out, found) = redact_pii("plain", &[]);
    assert!(!found);
    assert_eq!(out, "plain");
}

#[test]
fn redact_is_clean_afterwards() {
    let (out, _) = redact_pii("aaa@b.org aa@b.org", &[finding("email", "aa@b.org")]);
    assert!(!out.contains("aa@b.org"));
    assert_eq!(out, "a[REDACTED] [REDACTED]");
}

#[test]
fn consent_none_blocks() {
    assert!(!consent_ok(&None, "18-24|Youth Skills"));
}

#[test]
fn consent_purposes() {
    assert!(consent_ok(&consent("impact_reporting", &[]), "s"));
    assert!(consent_ok(&consent("research", &[]), "s"));
    assert!(!consent_ok(&consent("marketing", &[]), "s"));
    assert!(!consent_ok(&consent("", &[]), "s"));
}

#[test]
fn consent_grains() {
    let c = consent("impact_reporting", &["18-24|Youth Skills", "25-40|Food Aid"]);
    assert!(consent_ok(&c, "25-40|Food Aid"));
    assert!(!consent_ok(&c, "25-40|Youth Skills"));
}

#[test]
fn consent_default_is_empty() {
    let c = ConsentManifest::default();
    assert!(c.purpose.is_empty() && c.permitted_grains.is_empty());
    assert!(!consent_ok(&Some(c), "x"));
}

#[test]
fn govern_allows_large_consented_segment() {
    let r = compute_govern(
        "18-24|Youth Skills",
        "{\"segment\":\"18-24|Youth Skills\"}",
        12,
        &consent("impact_reporting", &["18-24|Youth Skills"]),
        "why is completion dropping?",
    );
    assert_eq!(r.verdict, "allow");
    assert_eq!(r.segment_n, 12);
    assert_eq!(r.k, 5);
    assert_eq!(r.redacted_card.as_deref(), Some("{\"segment\":\"18-24|Youth Skills\"}"));
    let statuses: Vec<&str> = r.checks.iter().map(|c| c.status.as_str()).collect();
    assert_eq!(statuses, vec!["pass", "pass", "pass"]);
    let ids: Vec<&str> = r.checks.iter().map(|c| c.id.as_str()).collect();
    assert_eq!(ids, vec!["k_anonymity", "consent", "pii_redaction"]);
    assert_eq!(r.checks[0].detail, "segment n=12 ≥ k=5 — safe to publish aggregated stats");
    assert_eq!(
        r.checks[1].detail,
        "consent v2 granted 2026-01-01 for 'impact_reporting' covers this segment grain"
    );
    assert_eq!(r.checks[2].detail, "no direct identifiers in published text");
    assert_eq!(
        r.audit,
        vec![
            "GOVERN PrePublish verdict=allow".to_string(),
            "  - k-anonymity (segment size) [pass]: segment n=12 ≥ k=5 — safe to publish aggregated stats".to_string(),
            "  - Consent manifest [pass]: consent v2 granted 2026-01-01 for 'impact_reporting' covers this segment grain".to_string(),
            "  - PII redaction [pass]: no direct identifiers in published text".to_string(),
        ]
    );
}

#[test]
fn govern_blocks_small_segment() {
    let r = compute_govern("s", "{}", 4, &consent("research", &[]), "");
    assert_eq!(r.verdict, "block");
    assert!(r.redacted_card.is_none());
    assert_eq!(r.checks[0].status, "fail");
    assert_eq!(
        r.checks[0].detail,
        "segment n=4 < k=5 — too few records, re-identification risk, publish blocked"
    );
}

#[test]
fn govern_blocks_without_consent() {
    let r = compute_govern("s", "{}", 100, &None, "");
    assert_eq!(r.verdict, "block");
    assert!(r.redacted_card.is_none());
    assert_eq!(r.checks[1].status, "fail");
    assert_eq!(
        r.checks[1].detail,
        "no consent manifest supplied — purpose-limitation check failed, publish blocked"
    );
}

#[test]
fn govern_blocks_unpermitted_purpose() {
    let r = compute_govern("s", "{}", 100, &consent("marketing", &[]), "");
    assert_eq!(r.verdict, "block");
    assert_eq!(
        r.checks[1].detail,
        "consent present but purpose 'marketing' / grain not permitted for this segment — publish blocked"
    );
}

#[test]
fn govern_pii_warns_and_redacts_but_allows() {
    let r = compute_govern(
        "s",
        "{\"question\":\"email jane@ngo.org or 0123456789\"}",
        10,
        &consent("impact_reporting", &[]),
        "email jane@ngo.org or 0123456789",
    );
    assert_eq!(r.verdict, "allow");
    assert_eq!(r.checks[2].status, "warn");
    assert_eq!(
        r.checks[2].detail,
        "2 direct identifier(s) found and redacted in the export: email, phone"
    );
    assert_eq!(
        r.redacted_card.as_deref(),
        Some("{\"question\":\"email [REDACTED] or [REDACTED]\"}")
    );
    assert_eq!(r.audit.len(), 6);
    assert_eq!(r.audit[4], "  - REDACTED email: jane@ngo.org");
    assert_eq!(r.audit[5], "  - REDACTED phone: 0123456789");
}

#[test]
fn govern_pii_only_in_scan_text_is_not_a_warning() {
    // Found in the scan text but not in the card: nothing to redact.
    let r = compute_govern("s", "{}", 10, &consent("research", &[]), "jane@ngo.org");
    assert_eq!(r.checks[2].status, "pass");
    assert_eq!(r.audit.len(), 4);
}

#[test]
fn govern_redacts_phone_as_written() {
    let card = "{\"question\":\"call 012-345 6789\"}";
    let r = compute_govern("s", card, 10, &consent("impact_reporting", &[]), "call 012-345 6789");
    let out = r.redacted_card.unwrap();
    assert!(!out.contains("012-345 6789"));
    assert_eq!(out, "{\"question\":\"call [REDACTED]\"}");
    assert_eq!(r.checks[2].status, "warn");
    assert_eq!(r.checks[2].detail, "1 direct identifier(s) found and redacted in the export: phone");
}

#[test]
fn redact_phone_with_parentheses_and_escaped_line_break() {
    let (out, found) = redact_pii("tel (012) 345-6789 / 0123\\n456789", &[finding("phone", "0123456789")]);
    assert!(found);
    assert_eq!(out, "tel ([REDACTED] / [REDACTED]");
}

#[test]
fn redact_quoted_id_in_json() {
    let scan = "IC \"S1234567D\" on file";
    let f = scan_pii(scan);
    assert_eq!(pairs(&f), vec![("ic_or_id".to_string(), "\"S1234567D\"".to_string())]);
    let (out, found) = redact_pii("{\"q\":\"IC \\\"S1234567D\\\" on file\"}", &f);
    assert!(found);
    assert_eq!(out, "{\"q\":\"IC [REDACTED] on file\"}");
}

#[test]
fn redact_twice_changes_nothing() {
    let fs = [finding("email", "jane@x.org"), finding("phone", "0123456789")];
    let (once, found) = redact_pii("jane@x.org 012 345 6789", &fs);
    assert!(found);
    let (twice, again) = redact_pii(&once, &fs);
    assert!(!again);
    assert_eq!(once, twice);
}

#[test]
fn no_at_no_digit_no_findings() {
    assert!(scan_pii("Why is completion dropping for Youth Skills? (see notes)").is_empty());
}
