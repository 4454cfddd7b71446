use cf_ddns::ipv4::Ipv4;
use cf_ddns::reconcile::{Outcome, PatchResult, ReconcileStep, Reconciler, RunVerdict};
use cf_ddns::record::{DnsRecord, RecordKind};
use cf_ddns::resolve::Resolver;

fn rec(id: &str, name: &str, value: Ipv4) -> DnsRecord {
    DnsRecord { id: id.to_string(), kind: RecordKind::A, name: name.to_string(), value }
}

fn ip(a: u8, b: u8, c: u8, d: u8) -> Ipv4 {
    Ipv4 { a, b, c, d }
}

#[test]
fn second_source_wins_after_first_fails() {
    let sources = vec!["https://bad.invalid".to_string(), "https://echo.invalid".to_string()];
    let mut resolver = Resolver::new(sources);
    let first = resolver.next_source().expect("first source").clone();
    assert_eq!(first, "https://bad.invalid");
    assert_eq!(resolver.offer(None), None);
    let second = resolver.next_source().expect("second source").clone();
    assert_eq!(second, "https://echo.invalid");
    assert_eq!(resolver.offer(Some(b"1.2.3.4\n".to_vec())), Some(ip(1, 2, 3, 4)));
    assert_eq!(resolver.resolved(), Some(ip(1, 2, 3, 4)));
    assert!(resolver.next_source().is_none());
}

#[test]
fn first_parseable_body_stops_resolution() {
    let sources = vec!["https://one.invalid".to_string(), "https://two.invalid".to_string()];
    let mut resolver = Resolver::new(sources);
    resolver.next_source().expect("a source to try");
    assert_eq!(resolver.offer(Some(b"9.9.9.9".to_vec())), Some(ip(9, 9, 9, 9)));
    // the first source answered: the second must never be asked for
    assert!(resolver.next_source().is_none());
    assert!(!resolver.exhausted());
}

#[test]
fn unparseable_bodies_exhaust_the_sources() {
    let sources = vec!["https://one.invalid".to_string(), "https://two.invalid".to_string()];
    let mut resolver = Resolver::new(sources);
    resolver.next_source().expect("first source");
    assert_eq!(resolver.offer(Some(b"not an address".to_vec())), None);
    resolver.next_source().expect("second source");
    assert_eq!(resolver.offer(Some(b"2001:db8::1".to_vec())), None);
    assert!(resolver.next_source().is_none());
    assert!(resolver.exhausted());
    assert_eq!(resolver.resolved(), None);
}

#[test]
fn stale_record_is_patched_and_current_one_is_not() {
    // one record drifted, one already current: exactly one update request
    let records = vec![
        rec("r1", "a.example.com", ip(5, 5, 5, 5)),
        rec("r2", "b.example.com", ip(9, 9, 9, 9)),
    ];
    let mut recon = Reconciler::new(records, ip(9, 9, 9, 9));
    match recon.next_step() {
        ReconcileStep::Patch { index } => {
            assert_eq!(index, 0);
            assert_eq!(recon.record_at(index).id, "r1");
        },
        _ => panic!("expected an update request for the first record"),
    }
    assert!(matches!(
        recon.report_patch(PatchResult::Completed { status: 200, errors: vec![] }),
        Outcome::Updated
    ));
    assert!(matches!(recon.next_step(), ReconcileStep::UpToDate { index: 1 }));
    match recon.next_step() {
        ReconcileStep::Done(verdict) => assert_eq!(verdict, RunVerdict::AllOk),
        _ => panic!("expected the run to finish"),
    }
    assert!(matches!(recon.outcomes()[0], Outcome::Updated));
    assert!(matches!(recon.outcomes()[1], Outcome::UpToDate));
}

#[test]
fn record_already_current_gets_no_write() {
    let records = vec![rec("r1", "a.example.com", ip(1, 2, 3, 4))];
    let mut recon = Reconciler::new(records, ip(1, 2, 3, 4));
    assert!(matches!(recon.next_step(), ReconcileStep::UpToDate { index: 0 }));
    match recon.next_step() {
        ReconcileStep::Done(verdict) => assert_eq!(verdict, RunVerdict::AllOk),
        _ => panic!("expected the run to finish"),
    }
}

#[test]
fn failed_update_does_not_stop_the_walk() {
    // both records need updates; the first update fails with 403
    let records = vec![
        rec("r1", "a.example.com", ip(5, 5, 5, 5)),
        rec("r2", "b.example.com", ip(6, 6, 6, 6)),
    ];
    let mut recon = Reconciler::new(records, ip(9, 9, 9, 9));
    assert!(matches!(recon.next_step(), ReconcileStep::Patch { index: 0 }));
    assert!(matches!(
        recon.report_patch(PatchResult::Completed {
            status: 403,
            errors: vec!["forbidden".to_string()],
        }),
        Outcome::FailedApi { status: 403, .. }
    ));
    assert!(matches!(recon.next_step(), ReconcileStep::Patch { index: 1 }));
    assert!(matches!(
        recon.report_patch(PatchResult::Completed { status: 200, errors: vec![] }),
        Outcome::Updated
    ));
    match recon.next_step() {
        ReconcileStep::Done(verdict) => assert_eq!(verdict, RunVerdict::PartialFailure),
        _ => panic!("expected the run to finish"),
    }
    assert!(matches!(recon.outcomes()[0], Outcome::FailedApi { .. }));
    assert!(matches!(recon.outcomes()[1], Outcome::Updated));
}

#[test]
fn transport_failure_counts_against_the_run() {
    let records = vec![rec("r1", "a.example.com", ip(5, 5, 5, 5))];
    let mut recon = Reconciler::new(records, ip(9, 9, 9, 9));
    assert!(matches!(recon.next_step(), ReconcileStep::Patch { index: 0 }));
    assert!(matches!(recon.report_patch(PatchResult::Transport), Outcome::FailedTransport));
    match recon.next_step() {
        ReconcileStep::Done(verdict) => assert_eq!(verdict, RunVerdict::PartialFailure),
        _ => panic!("expected the run to finish"),
    }
}

#[test]
fn every_stale_record_gets_exactly_one_update() {
    // three stale records among five: three update requests, in input order
    let ip_now = ip(9, 9, 9, 9);
    let records = vec![
        rec("r1", "a.example.com", ip(1, 1, 1, 1)),
        rec("r2", "b.example.com", ip_now),
        rec("r3", "c.example.com", ip(2, 2, 2, 2)),
        rec("r4", "d.example.com", ip_now),
        rec("r5", "e.example.com", ip(3, 3, 3, 3)),
    ];
    let mut recon = Reconciler::new(records, ip_now);
    let mut patched: Vec<usize> = Vec::new();
    loop {
        match recon.next_step() {
            ReconcileStep::Patch { index } => {
                patched.push(index);
                // even a failure must not suppress later updates
                recon.report_patch(PatchResult::Transport);
            },
            ReconcileStep::UpToDate { .. } => {},
            ReconcileStep::Done(verdict) => {
                assert_eq!(verdict, RunVerdict::PartialFailure);
                break;
            },
        }
    }
    assert_eq!(patched, vec![0, 2, 4]);
}

#[test]
fn all_records_current_means_all_ok() {
    let ip_now = ip(7, 7, 7, 7);
    let records = vec![
        rec("r1", "a.example.com", ip_now),
        rec("r2", "b.example.com", ip_now),
    ];
    let mut recon = Reconciler::new(records, ip_now);
    assert!(matches!(recon.next_step(), ReconcileStep::UpToDate { index: 0 }));
    assert!(matches!(recon.next_step(), ReconcileStep::UpToDate { index: 1 }));
    match recon.next_step() {
        ReconcileStep::Done(verdict) => assert_eq!(verdict, RunVerdict::AllOk),
        _ => panic!("expected the run to finish"),
    }
}
