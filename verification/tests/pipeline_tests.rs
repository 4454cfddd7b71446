use cf_ddns::endpoints::{bearer_value, list_records_url, patch_body, patch_record_url};
use cf_ddns::fetch::{screen_envelope, Envelope, FetchScreen};
use cf_ddns::filter::{filter_records, FilterScreen, FilterSpec};
use cf_ddns::ipv4::Ipv4;
use cf_ddns::record::{DnsRecord, RecordKind};
use cf_ddns::settings::{effective_invert, effective_timeout, missing_required, Settings};

fn rec(id: &str, kind: RecordKind, name: &str, value: Ipv4) -> DnsRecord {
    DnsRecord { id: id.to_string(), kind, name: name.to_string(), value }
}

fn ip(a: u8, b: u8, c: u8, d: u8) -> Ipv4 {
    Ipv4 { a, b, c, d }
}

#[test]
fn listing_failure_is_fatal_api_error() {
    let env = Envelope {
        success: false,
        entries: vec![rec("r1", RecordKind::A, "a.example.com", ip(5, 5, 5, 5))],
        errors: vec!["invalid zone".to_string()],
    };
    match screen_envelope(env) {
        FetchScreen::ApiError(errors) => assert_eq!(errors, vec!["invalid zone".to_string()]),
        _ => panic!("expected an api error"),
    }
}

#[test]
fn listing_keeps_only_address_records() {
    let env = Envelope {
        success: true,
        entries: vec![
            rec("r1", RecordKind::A, "a.example.com", ip(5, 5, 5, 5)),
            rec("r2", RecordKind::Other, "mail.example.com", ip(1, 1, 1, 1)),
            rec("r3", RecordKind::A, "b.example.com", ip(9, 9, 9, 9)),
        ],
        errors: vec![],
    };
    match screen_envelope(env) {
        FetchScreen::Records(records) => {
            assert_eq!(records.len(), 2);
            assert_eq!(records[0].id, "r1");
            assert_eq!(records[1].id, "r3");
        },
        _ => panic!("expected records"),
    }
}

#[test]
fn empty_listing_is_benign_no_records() {
    let none = Envelope { success: true, entries: vec![], errors: vec![] };
    assert!(matches!(screen_envelope(none), FetchScreen::NoRecords));
    let only_other = Envelope {
        success: true,
        entries: vec![rec("r1", RecordKind::Other, "mail.example.com", ip(1, 1, 1, 1))],
        errors: vec![],
    };
    assert!(matches!(screen_envelope(only_other), FetchScreen::NoRecords));
}

#[test]
fn no_filter_keeps_everything() {
    let records = vec![
        rec("r1", RecordKind::A, "a.example.com", ip(5, 5, 5, 5)),
        rec("r2", RecordKind::A, "b.example.com", ip(9, 9, 9, 9)),
    ];
    match filter_records(records, None) {
        FilterScreen::Selected { records, total, excluded } => {
            assert_eq!(records.len(), 2);
            assert_eq!(total, 2);
            assert_eq!(excluded, 0);
        },
        _ => panic!("expected a selection"),
    }
}

#[test]
fn include_patterns_select_matching_names() {
    let records = vec![
        rec("r1", RecordKind::A, "a.example.com", ip(5, 5, 5, 5)),
        rec("r2", RecordKind::A, "b.example.com", ip(9, 9, 9, 9)),
    ];
    let spec = FilterSpec { patterns: vec!["a.*".to_string()], invert: false };
    match filter_records(records, Some(&spec)) {
        FilterScreen::Selected { records, total, excluded } => {
            assert_eq!(records.len(), 1);
            assert_eq!(records[0].name, "a.example.com");
            assert_eq!(total, 2);
            assert_eq!(excluded, 1);
        },
        _ => panic!("expected a selection"),
    }
}

#[test]
fn exclude_patterns_drop_matching_names() {
    let records = vec![
        rec("r1", RecordKind::A, "a.example.com", ip(5, 5, 5, 5)),
        rec("r2", RecordKind::A, "b.example.com", ip(9, 9, 9, 9)),
    ];
    let spec = FilterSpec { patterns: vec!["a.*".to_string()], invert: true };
    match filter_records(records, Some(&spec)) {
        FilterScreen::Selected { records, total, excluded } => {
            assert_eq!(records.len(), 1);
            assert_eq!(records[0].name, "b.example.com");
            assert_eq!(total, 2);
            assert_eq!(excluded, 1);
        },
        _ => panic!("expected a selection"),
    }
}

#[test]
fn filtering_same_inputs_gives_same_selection() {
    let build = || {
        vec![
            rec("r1", RecordKind::A, "a.example.com", ip(5, 5, 5, 5)),
            rec("r2", RecordKind::A, "a.backup.example.com", ip(6, 6, 6, 6)),
            rec("r3", RecordKind::A, "b.example.com", ip(9, 9, 9, 9)),
        ]
    };
    let spec = FilterSpec { patterns: vec!["a.*".to_string()], invert: false };
    let first = match filter_records(build(), Some(&spec)) {
        FilterScreen::Selected { records, .. } => records,
        _ => panic!("expected a selection"),
    };
    let second = match filter_records(build(), Some(&spec)) {
        FilterScreen::Selected { records, .. } => records,
        _ => panic!("expected a selection"),
    };
    let names: Vec<&str> = first.iter().map(|r| r.name.as_str()).collect();
    let names_again: Vec<&str> = second.iter().map(|r| r.name.as_str()).collect();
    assert_eq!(names, names_again);
    assert_eq!(names, vec!["a.example.com", "a.backup.example.com"]);
}

#[test]
fn all_records_filtered_is_benign() {
    let records = vec![rec("r1", RecordKind::A, "a.example.com", ip(5, 5, 5, 5))];
    let spec = FilterSpec { patterns: vec!["zzz.*".to_string()], invert: false };
    assert!(matches!(filter_records(records, Some(&spec)), FilterScreen::AllFiltered));
}

#[test]
fn first_invalid_pattern_is_fatal() {
    let records = vec![rec("r1", RecordKind::A, "a.example.com", ip(5, 5, 5, 5))];
    let spec = FilterSpec { patterns: vec!["a.*".to_string(), "[".to_string()], invert: true };
    match filter_records(records, Some(&spec)) {
        FilterScreen::InvalidPattern { index } => assert_eq!(index, 1),
        _ => panic!("expected an invalid pattern"),
    }
}

#[test]
fn default_settings_hold_documented_values() {
    let s = Settings::default();
    let sources = s.ip_src.as_ref().expect("default sources");
    assert_eq!(sources.len(), 2);
    assert_eq!(sources[0], "https://ipv4.icanhazip.com");
    assert_eq!(sources[1], "https://api.ipify.org");
    assert_eq!(s.http_timeout_s, Some(10));
    assert!(s.patterns.is_none());
    assert!(s.invert_patterns.is_none());
}

#[test]
fn missing_entries_are_reported_collectively() {
    let empty = Settings::default();
    assert_eq!(missing_required(&empty), vec!["auth_key", "auth_email", "zone_id"]);
    let mut partial = Settings::default();
    partial.auth_key = "k".to_string();
    partial.zone_id = "z".to_string();
    assert_eq!(missing_required(&partial), vec!["auth_email"]);
    partial.auth_email = "e".to_string();
    assert!(missing_required(&partial).is_empty());
}

#[test]
fn effective_defaults_fill_absent_options() {
    let mut s = Settings::default();
    s.http_timeout_s = None;
    assert_eq!(effective_timeout(&s), 10);
    s.http_timeout_s = Some(30);
    assert_eq!(effective_timeout(&s), 30);
    assert!(effective_invert(&s));
    s.invert_patterns = Some(false);
    assert!(!effective_invert(&s));
}

#[test]
fn request_shapes_are_exact() {
    assert_eq!(
        list_records_url("zone123"),
        "https://api.cloudflare.com/client/v4/zones/zone123/dns_records?type=A"
    );
    assert_eq!(
        patch_record_url("zone123", "rec9"),
        "https://api.cloudflare.com/client/v4/zones/zone123/dns_records/rec9"
    );
    assert_eq!(bearer_value("secret"), "Bearer secret");
    assert_eq!(patch_body(&ip(1, 2, 3, 4)), b"{\"content\":\"1.2.3.4\"}".to_vec());
    assert_eq!(patch_body(&ip(203, 0, 113, 9)), b"{\"content\":\"203.0.113.9\"}".to_vec());
}
