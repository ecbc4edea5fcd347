use macrotis::compare::{
    compute_changes, drift_report, known_remotely, local_state, new_remote, orphans, state_remote,
};
use macrotis::driver::{plan_changes, Action, PushProgress, BATCH_LIMIT};
use macrotis::parser::{
    from_lines, from_string, from_string_at, parse_anssoa, parse_lines, parse_soa_at, valid_ipv4,
};
use macrotis::tidy::duplicate_records;
use macrotis::resource::{
    build_reshash, hash_to_vec, record_key, remote_resource, tiny_to_macrotis, vec_from_tiny, ResHash,
    Resource,
};
use macrotis::state::{
    check_bucket_params, provider_role, state_store, store_role, ConfigError, MacrotisState,
    StateStore, APP_VERSION,
};
use macrotis::tinydns::TinyDNSRecord;
use macrotis::{MacrotisProviderConfig, MacrotisStateConfig, Zone};

fn zone(name: &str, domain: &str, id: &str) -> Zone {
    Zone { name: name.to_string(), domain: domain.to_string(), id: id.to_string() }
}

fn res(zone_id: &str, name: &str, rtype: &str, values: &[&str], ttl: i64) -> Resource {
    Resource {
        zone_id: zone_id.to_string(),
        name: name.to_string(),
        rtype: rtype.to_string(),
        records: values.iter().map(|v| v.to_string()).collect(),
        ttl,
    }
}

fn map_of(entries: Vec<(&str, Resource)>) -> ResHash {
    let mut h = ResHash::new();
    for (k, r) in entries {
        h.insert(k.to_string(), r);
    }
    h
}

fn keys(h: &ResHash) -> Vec<String> {
    h.keys.clone()
}

fn state_conf(backend: &str) -> MacrotisStateConfig {
    MacrotisStateConfig {
        backend: backend.to_string(),
        filename: None,
        bucket: None,
        key: None,
        region: None,
        role_arn: None,
        tags: None,
        session_name: None,
    }
}

#[test]
fn basic_a_line() {
    let recs = from_string("+foo.test.com:1.2.3.4:300").unwrap();
    assert_eq!(recs.len(), 1);
    assert_eq!(recs[0].rtype, "A");
    assert_eq!(recs[0].fqdn, "foo.test.com");
    assert_eq!(recs[0].target, "1.2.3.4");
    assert_eq!(recs[0].ttl, 300);
}

#[test]
fn mx_expansion_into_resources() {
    let recs = from_string("@test.com:1.2.3.4:mail:10:600").unwrap();
    let zones = vec![zone("test", "test.com", "Z1")];
    let out = vec_from_tiny(&recs, &zones).unwrap();
    assert_eq!(out.len(), 2);
    assert!(out[0] == res("Z1", "test.com", "MX", &["10 mail.mx.test.com"], 600));
    assert!(out[1] == res("Z1", "mail.mx.test.com", "A", &["1.2.3.4"], 600));
}

#[test]
fn aptr_reverse_name() {
    let recs = from_string("=foo.test.com:1.2.3.4:300").unwrap();
    assert_eq!(recs.len(), 2);
    assert_eq!(recs[1].rtype, "PTR");
    assert_eq!(recs[1].fqdn, "4.3.2.1.in-addr.arpa");
    assert_eq!(recs[1].target, "foo.test.com");
}

#[test]
fn three_way_diff_with_drift() {
    let r1_old = res("Z", "one.test", "A", &["1.1.1.1"], 300);
    let r1_drift = res("Z", "one.test", "A", &["2.2.2.2"], 300);
    let r1_new = res("Z", "one.test", "A", &["3.3.3.3"], 300);
    let r2 = res("Z", "two.test", "A", &["4.4.4.4"], 300);
    let r3 = res("Z", "three.test", "A", &["5.5.5.5"], 300);
    let mut state = map_of(vec![("k1", r1_old)]);
    let remote = map_of(vec![("k1", r1_drift), ("k2", r2)]);
    let local = map_of(vec![("k1", r1_new), ("k3", r3)]);
    let (n, u, d) = compute_changes(&local, &mut state, &remote);
    assert_eq!(keys(&state), vec!["k1".to_string()]);
    assert!(state.vals[0] == res("Z", "one.test", "A", &["2.2.2.2"], 300));
    assert_eq!(keys(&n), vec!["k3".to_string()]);
    assert_eq!(keys(&u), vec!["k1".to_string()]);
    assert!(u.vals[0] == res("Z", "one.test", "A", &["3.3.3.3"], 300));
    assert_eq!(d.len(), 0);
}

#[test]
fn absorb_identical_remote_record() {
    let a = res("Z", "a.test", "A", &["1.2.3.4"], 300);
    let mut state = ResHash::new();
    let remote = map_of(vec![("k", res("Z", "a.test", "A", &["1.2.3.4"], 300))]);
    let local = map_of(vec![("k", a)]);
    state_remote(&mut state, &remote);
    let (mut n, mut u, d) = local_state(&local, &state);
    assert_eq!(keys(&n), vec!["k".to_string()]);
    new_remote(&mut n, &mut u, &remote);
    assert_eq!(n.len(), 0);
    assert_eq!(u.len(), 0);
    assert_eq!(d.len(), 0);
}

#[test]
fn absorb_differing_remote_record() {
    let mut n = map_of(vec![("k", res("Z", "a.test", "A", &["1.2.3.4"], 300))]);
    let mut u = ResHash::new();
    let remote = map_of(vec![("k", res("Z", "a.test", "A", &["9.9.9.9"], 300))]);
    new_remote(&mut n, &mut u, &remote);
    assert_eq!(n.len(), 0);
    assert_eq!(keys(&u), vec!["k".to_string()]);
    assert!(u.vals[0] == res("Z", "a.test", "A", &["1.2.3.4"], 300));
}

#[test]
fn duplicate_ptr_fails_index() {
    let lines = vec!["=a.example:1.2.3.4:300".to_string(), "=b.example:1.2.3.4:300".to_string()];
    let recs = from_lines(&lines, 0).unwrap();
    let zones = vec![zone("fwd", "example", "Z1"), zone("rev", "in-addr.arpa", "Z2")];
    let resources = vec_from_tiny(&recs, &zones).unwrap();
    assert!(build_reshash(resources).is_none());
}

#[test]
fn distinct_ptr_builds_index() {
    let lines = vec!["=a.example:1.2.3.4:300".to_string(), "=b.example:1.2.3.5:300".to_string()];
    let recs = from_lines(&lines, 0).unwrap();
    let zones = vec![zone("fwd", "example", "Z1"), zone("rev", "in-addr.arpa", "Z2")];
    let resources = vec_from_tiny(&recs, &zones).unwrap();
    let h = build_reshash(resources).unwrap();
    assert_eq!(h.len(), 4);
}

#[test]
fn longest_zone_domain_wins() {
    let zones = vec![zone("outer", "example.com", "Z1"), zone("inner", "sub.example.com", "Z2")];
    let rec = TinyDNSRecord {
        rtype: "A".to_string(),
        fqdn: "host.sub.example.com".to_string(),
        target: "1.2.3.4".to_string(),
        ttl: 300,
    };
    assert_eq!(rec.find_zone_id(&zones), Some("Z2".to_string()));
    let other = TinyDNSRecord { fqdn: "host.example.com".to_string(), ..rec };
    assert_eq!(other.find_zone_id(&zones), Some("Z1".to_string()));
}

#[test]
fn zone_tie_goes_to_first() {
    let zones = vec![zone("a", "test.com", "ZA"), zone("b", "test.com", "ZB")];
    let rec = TinyDNSRecord {
        rtype: "A".to_string(),
        fqdn: "x.test.com".to_string(),
        target: "1.2.3.4".to_string(),
        ttl: 300,
    };
    assert_eq!(rec.find_zone_id(&zones), Some("ZA".to_string()));
    let none = TinyDNSRecord { fqdn: "x.other.org".to_string(), ..rec };
    assert_eq!(none.find_zone_id(&zones), None);
}

#[test]
fn record_without_zone_is_dropped() {
    let recs = from_string("+x.other.org:1.2.3.4").unwrap();
    let zones = vec![zone("a", "test.com", "ZA")];
    assert_eq!(vec_from_tiny(&recs, &zones).unwrap().len(), 0);
}

#[test]
fn values_order_does_not_matter() {
    let a = res("Z", "n", "TXT", &["x", "y", "x"], 60);
    let b = res("Z", "n", "TXT", &["y", "x", "x"], 60);
    let c = res("Z", "n", "TXT", &["y", "y", "x"], 60);
    assert!(a == b);
    assert!(a != c);
    let d = res("Z", "n", "TXT", &["x", "y", "x"], 61);
    assert!(a != d);
}

#[test]
fn rerun_after_apply_is_quiet() {
    let local = map_of(vec![
        ("k1", res("Z", "one.test", "A", &["1.1.1.1"], 300)),
        ("k3", res("Z", "three.test", "A", &["3.3.3.3"], 300)),
    ]);
    let mut state = map_of(vec![
        ("k1", res("Z", "one.test", "A", &["1.1.1.1"], 300)),
        ("k3", res("Z", "three.test", "A", &["3.3.3.3"], 300)),
    ]);
    let remote = map_of(vec![
        ("k1", res("Z", "one.test", "A", &["1.1.1.1"], 300)),
        ("k3", res("Z", "three.test", "A", &["3.3.3.3"], 300)),
        ("k9", res("Z", "nine.test", "A", &["9.9.9.9"], 300)),
    ]);
    let (n, u, d) = compute_changes(&local, &mut state, &remote);
    assert_eq!((n.len(), u.len(), d.len()), (0, 0, 0));
}

#[test]
fn change_sets_share_no_key() {
    let mut state = map_of(vec![
        ("a", res("Z", "a", "A", &["1.1.1.1"], 300)),
        ("b", res("Z", "b", "A", &["1.1.1.1"], 300)),
    ]);
    let remote = map_of(vec![
        ("a", res("Z", "a", "A", &["1.1.1.1"], 300)),
        ("b", res("Z", "b", "A", &["1.1.1.1"], 300)),
        ("c", res("Z", "c", "A", &["7.7.7.7"], 300)),
    ]);
    let local = map_of(vec![
        ("a", res("Z", "a", "A", &["2.2.2.2"], 300)),
        ("c", res("Z", "c", "A", &["8.8.8.8"], 300)),
        ("e", res("Z", "e", "A", &["8.8.8.8"], 300)),
    ]);
    let (n, u, d) = compute_changes(&local, &mut state, &remote);
    assert_eq!(keys(&n), vec!["e".to_string()]);
    assert_eq!(keys(&u), vec!["a".to_string(), "c".to_string()]);
    assert_eq!(keys(&d), vec!["b".to_string()]);
}

#[test]
fn lines_round_trip_per_prefix() {
    let a = from_string("+h.test:10.0.0.1:-5").unwrap();
    assert_eq!((a[0].rtype.as_str(), a[0].fqdn.as_str(), a[0].target.as_str(), a[0].ttl), ("A", "h.test", "10.0.0.1", -5));
    let p = from_string("^1.0.0.10.in-addr.arpa:h.test:42").unwrap();
    assert_eq!((p[0].rtype.as_str(), p[0].target.as_str(), p[0].ttl), ("PTR", "h.test", 42));
    let c = from_string("Calias.test:h.test:7").unwrap();
    assert_eq!((c[0].rtype.as_str(), c[0].fqdn.as_str(), c[0].ttl), ("CNAME", "alias.test", 7));
    let t = from_string("'h.test:\"v=spf1 a:b:c\":99").unwrap();
    assert_eq!((t[0].rtype.as_str(), t[0].target.as_str(), t[0].ttl), ("TXT", "v=spf1 a:b:c", 99));
    let e = from_string("=h.test:10.0.0.1:11").unwrap();
    assert_eq!((e[0].rtype.as_str(), e[0].target.as_str(), e[0].ttl), ("A", "10.0.0.1", 11));
}

#[test]
fn txt_starting_with_colon_does_not_round_trip() {
    let t = from_string("'h.test:\":x\":99").unwrap();
    assert_eq!(t[0].target, "");
}

#[test]
fn line_outcomes() {
    assert_eq!(from_string("").unwrap().len(), 0);
    assert_eq!(from_string("# note").unwrap().len(), 0);
    assert!(from_string("%unknown:1").is_none());
    assert!(from_string("+h.test:1.2.3").is_none());
    assert!(from_string("+h.test:01.2.3.4").is_none());
    assert!(from_string("+h.test:1.2.3.256").is_none());
    assert!(from_string("'h.test::300").is_none());
}

#[test]
fn ttl_defaults_and_signs() {
    assert_eq!(from_string("+h.test:1.2.3.4").unwrap()[0].ttl, 300);
    assert_eq!(from_string("+h.test:1.2.3.4:abc").unwrap()[0].ttl, 300);
    assert_eq!(from_string("+h.test:1.2.3.4:+7").unwrap()[0].ttl, 7);
    assert_eq!(from_string("+h.test:1.2.3.4:2147483648").unwrap()[0].ttl, 300);
    assert_eq!(from_string("+h.test:1.2.3.4:-2147483648").unwrap()[0].ttl, -2147483648);
}

#[test]
fn soa_defaults() {
    let r = parse_soa_at("test.com:ns.test.com:admin.test.com", 1234);
    assert_eq!(r[0].target, "ns.test.com admin.test.com 1234 16384 2048 1048576 2560");
    assert_eq!(r[0].ttl, 300);
    let r = parse_soa_at("test.com:ns:admin:x:-1", 77);
    assert_eq!(r[0].target, "ns admin 77 -1 2048 1048576 2560");
    let line = from_string_at("Ztest.com:ns:admin", 5).unwrap();
    assert_eq!(line[0].target, "ns admin 5 16384 2048 1048576 2560");
}

#[test]
fn anssoa_without_ip() {
    let r = parse_anssoa("test.com::a:600");
    assert_eq!(r.len(), 2);
    assert_eq!((r[0].rtype.as_str(), r[0].fqdn.as_str(), r[0].target.as_str()), ("NS", "a.ns.test.com", "test.com"));
    assert_eq!(r[1].target, "a.ns.test.com hostmaster.test.com 1 1 1 1 60");
    assert_eq!(r[1].ttl, 600);
}

#[test]
fn file_lines_sorted_and_deduplicated() {
    let lines = vec![
        "+b.test:1.1.1.1:300".to_string(),
        "+a.test:2.2.2.2:300".to_string(),
        "+b.test:1.1.1.1:600".to_string(),
        "Cc.test:b.test".to_string(),
    ];
    let recs = from_lines(&lines, 0).unwrap();
    let names: Vec<&str> = recs.iter().map(|r| r.fqdn.as_str()).collect();
    assert_eq!(names, vec!["a.test", "b.test", "c.test"]);
    assert_eq!(recs[1].ttl, 300);
    let bad = vec!["+a.test:1.1.1.1".to_string(), "+b.test:999.1.1.1".to_string()];
    assert!(from_lines(&bad, 0).is_none());
    let unknown = vec!["+a.test:1.1.1.1".to_string(), "junk".to_string()];
    assert_eq!(from_lines(&unknown, 0).unwrap().len(), 1);
}

#[test]
fn index_keys_and_merging() {
    assert_eq!(record_key(&"A".to_string(), &"Foo.Test.COM.".to_string()), "a-foo-test-com");
    let h = build_reshash(vec![
        res("Z", "m.test", "A", &["1.1.1.1"], 300),
        res("Z", "M.test.", "A", &["2.2.2.2"], 60),
    ])
    .unwrap();
    assert_eq!(keys(&h), vec!["a-m-test".to_string()]);
    let v = hash_to_vec(h);
    assert_eq!(v[0].records, vec!["1.1.1.1".to_string(), "2.2.2.2".to_string()]);
    assert_eq!(v[0].ttl, 60);
    assert!(build_reshash(vec![res("Z", "m.test", "A", &["1"], 1), res("Z", "m.test", "a", &["2"], 1)]).is_none());
}

#[test]
fn merge_requires_same_type() {
    let mut a = res("Z", "n", "A", &["1"], 1);
    assert!(!a.merge(&res("Z", "n", "MX", &["2"], 1)));
    assert_eq!(a.records, vec!["1".to_string()]);
    assert!(a.merge(&res("Z", "n", "A", &["0"], 1)));
    assert_eq!(a.records, vec!["0".to_string(), "1".to_string()]);
}

#[test]
fn batches_split_by_zone_and_size() {
    let mut n = ResHash::new();
    for i in 0..250 {
        n.insert(format!("k{}", i), res("Z1", &format!("h{}", i), "A", &["1.1.1.1"], 300));
    }
    let u = map_of(vec![("u", res("Z2", "u", "A", &["1.1.1.1"], 300))]);
    let d = map_of(vec![("d", res("Z1", "d", "A", &["1.1.1.1"], 300))]);
    let plan = plan_changes(&n, &u, &d);
    let sizes: Vec<(String, usize)> = plan.iter().map(|b| (b.zone_id.clone(), b.changes.len())).collect();
    assert_eq!(
        sizes,
        vec![("Z1".to_string(), BATCH_LIMIT), ("Z1".to_string(), BATCH_LIMIT), ("Z1".to_string(), 51), ("Z2".to_string(), 1)]
    );
    assert_eq!(plan[0].changes[0].action, Action::Create);
    assert_eq!(plan[2].changes[50].action, Action::Delete);
    assert_eq!(plan[3].changes[0].action.name(), "UPSERT");
}

#[test]
fn config_choices() {
    let mut c = state_conf("local");
    assert!(matches!(state_store(&c), Err(ConfigError::MissingFilename)));
    c.filename = Some("state.json".to_string());
    assert!(matches!(state_store(&c), Ok(StateStore::Local { ref filename }) if filename == "state.json"));
    let mut s = state_conf("s3");
    assert!(!check_bucket_params(&s));
    assert!(matches!(state_store(&s), Err(ConfigError::MissingBucketParams)));
    s.bucket = Some("b".to_string());
    s.key = Some("k".to_string());
    assert!(check_bucket_params(&s));
    assert!(matches!(state_store(&s), Ok(StateStore::S3 { .. })));
    assert!(matches!(state_store(&state_conf("ftp")), Err(ConfigError::UnknownBackend)));
    assert!(store_role(&s).is_none());
    s.role_arn = Some("arn".to_string());
    assert_eq!(store_role(&s).unwrap().session_name, "default");
    let mut p = MacrotisProviderConfig {
        name: "route53".to_string(),
        region: None,
        assume_role: true,
        role_arn: None,
        session_name: Some("me".to_string()),
    };
    assert!(matches!(provider_role(&p), Err(ConfigError::MissingRoleArn)));
    p.role_arn = Some("arn".to_string());
    assert_eq!(provider_role(&p).unwrap().unwrap().session_name, "me");
    p.assume_role = false;
    assert!(provider_role(&p).unwrap().is_none());
}

#[test]
fn empty_state_is_stamped() {
    let st = MacrotisState::new_empty();
    assert_eq!(st.version, 1);
    assert_eq!(st.appversion, APP_VERSION);
    assert_eq!(st.records.len(), 0);
    let st2 = MacrotisState::with_records(ResHash::new(), 99);
    assert_eq!(st2.serial, 99);
}

#[test]
fn dotted_quads() {
    let ok: Vec<char> = "192.168.0.1".chars().collect();
    let bad: Vec<char> = "192.168.0".chars().collect();
    assert!(valid_ipv4(&ok));
    assert!(!valid_ipv4(&bad));
}

#[test]
fn repeated_records_reported_once() {
    let lines = vec![
        "+a.test:1.1.1.1:300".to_string(),
        "+b.test:2.2.2.2".to_string(),
        "+a.test:1.1.1.1:60".to_string(),
        "+a.test:1.1.1.1".to_string(),
        "Cc.test:b.test".to_string(),
    ];
    let raw = parse_lines(&lines, 0).unwrap();
    assert_eq!(raw.len(), 5);
    let dups = duplicate_records(&raw);
    assert_eq!(dups.len(), 1);
    assert_eq!(dups[0].fqdn, "a.test");
    assert_eq!(dups[0].ttl, 300);
}

#[test]
fn drift_and_missing_reported() {
    let state = map_of(vec![
        ("a", res("Z", "a", "A", &["1.1.1.1"], 300)),
        ("b", res("Z", "b", "A", &["1.1.1.1"], 300)),
        ("c", res("Z", "c", "A", &["1.1.1.1"], 300)),
    ]);
    let remote = map_of(vec![
        ("a", res("Z", "a", "A", &["9.9.9.9"], 300)),
        ("b", res("Z", "b", "A", &["1.1.1.1"], 300)),
    ]);
    let (drift, gone) = drift_report(&state, &remote);
    assert_eq!(keys(&drift), vec!["a".to_string()]);
    assert_eq!(drift.vals[0].records, vec!["9.9.9.9".to_string()]);
    assert_eq!(keys(&gone), vec!["c".to_string()]);
    let new = map_of(vec![("b", res("Z", "b", "A", &["1.1.1.1"], 300)), ("x", res("Z", "x", "A", &["1.1.1.1"], 300))]);
    assert_eq!(keys(&known_remotely(&new, &remote)), vec!["b".to_string()]);
}

#[test]
fn records_to_index_in_one_step() {
    let recs = from_lines(&vec!["+a.test.com:1.1.1.1".to_string(), "+A.test.com:2.2.2.2".to_string()], 0).unwrap();
    let zones = vec![zone("t", "test.com", "Z1")];
    let h = tiny_to_macrotis(recs, &zones).unwrap();
    assert_eq!(keys(&h), vec!["a-a-test-com".to_string()]);
    let dup = from_lines(&vec!["^1.0.0.10.in-addr.arpa:a.test.com".to_string(), "^1.0.0.10.in-addr.arpa:b.test.com".to_string()], 0).unwrap();
    let rz = vec![zone("r", "in-addr.arpa", "Z2")];
    assert!(tiny_to_macrotis(dup, &rz).is_none());
}

#[test]
fn remote_record_sets_become_resources() {
    let r = remote_resource(&"Z1".to_string(), &"www.test.com.".to_string(), &"A".to_string(), None, vec!["1.2.3.4".to_string()]);
    assert_eq!(r.name, "www.test.com");
    assert_eq!(r.ttl, 300);
    let r = remote_resource(&"Z1".to_string(), &"www.test.com".to_string(), &"A".to_string(), Some(60), vec![]);
    assert_eq!(r.ttl, 60);
}

#[test]
fn failed_zone_stops_its_batches() {
    let mut p = PushProgress::new();
    let z1 = "Z1".to_string();
    let z2 = "Z2".to_string();
    assert!(p.should_submit(&z1));
    p.record(&z1, true);
    assert!(p.succeeded());
    p.record(&z2, false);
    assert!(!p.should_submit(&z2));
    assert!(p.should_submit(&z1));
    assert!(!p.succeeded());
}

#[test]
fn record_text_form() {
    let r = from_string("+h.test:1.2.3.4:-20").unwrap();
    assert_eq!(r[0].to_text(), "h.test\t-20\tIN\tA\t1.2.3.4");
}

#[test]
fn records_made_elsewhere_are_orphans() {
    let state = map_of(vec![("a", res("Z", "a", "A", &["1.1.1.1"], 300))]);
    let local = map_of(vec![("b", res("Z", "b", "A", &["1.1.1.1"], 300))]);
    let remote = map_of(vec![
        ("a", res("Z", "a", "A", &["1.1.1.1"], 300)),
        ("b", res("Z", "b", "A", &["1.1.1.1"], 300)),
        ("c", res("Z", "c", "A", &["1.1.1.1"], 300)),
    ]);
    assert_eq!(keys(&orphans(&local, &state, &remote)), vec!["c".to_string()]);
}
