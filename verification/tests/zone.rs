use hickory_proto::op::{Message, MessageType};
use hickory_proto::rr::{Name, RecordType};
use unitylan::wire::{self, Data, Query, Rcode, Reply};
use unitylan::zone::{
    rate_limit_caps, tcp_frame, tcp_query_len, Caps, ChallengeStore, DnsState, PublishError, Zone,
    CHALLENGE_TTL, ISSUANCE_WINDOW, MAX_CERTS_PER_DEVICE_PER_WEEK, MAX_LIVE_CHALLENGES,
    MAX_VALUES_PER_NAME,
};

fn zone() -> Zone {
    Zone::new("mesh.example.com", ChallengeStore::new(40), 7).ok().unwrap()
}

/// A distinct device pubkey per `n`, so a test can say whose budget it is spending.
fn dev(n: u8) -> [u8; 32] {
    [n; 32]
}

fn message(name: &str, qtype: RecordType) -> Message {
    let mut m = Message::query();
    m.metadata.id = 1234;
    let name: Name = name.parse().unwrap();
    m.add_query(hickory_proto::op::Query::query(name, qtype));
    m
}

fn query(name: &str, qtype: RecordType) -> Query {
    wire::decode(&message(name, qtype).to_vec().unwrap()).unwrap()
}

fn answer_of(zone: &mut Zone, name: &str, qtype: RecordType) -> Reply {
    zone.answer_at(&query(name, qtype), 1).expect("a reply")
}

fn txt_values(reply: &Reply) -> Vec<String> {
    reply
        .answers
        .iter()
        .filter_map(|r| match &r.data {
            Data::Text(t) => Some(t.clone()),
            _ => None,
        })
        .collect()
}

fn rec(name: &str, value: &str) -> (String, String) {
    (name.to_string(), value.to_string())
}

#[test]
fn serves_a_published_challenge_as_txt() {
    let mut zone = zone();
    zone.store
        .publish(
            &dev(1),
            &[rec("_acme-challenge.laptop.gordon.mesh.example.com", "token-value")],
        )
        .unwrap();

    let resp = answer_of(
        &mut zone,
        "_acme-challenge.laptop.gordon.mesh.example.com.",
        RecordType::TXT,
    );
    assert_eq!(resp.head.code, Rcode::NoError);
    assert!(resp.head.authoritative);
    assert_eq!(txt_values(&resp), vec!["token-value".to_string()]);
}

#[test]
fn a_challenge_is_found_in_any_case_and_reaches_the_wire() {
    let mut zone = zone();
    zone.store
        .publish(&dev(1), &[rec("_acme-challenge.laptop.gordon.mesh.example.com", "token-value")])
        .unwrap();
    let asked = message("_ACME-challenge.Laptop.gordon.MESH.example.com.", RecordType::TXT);
    let bytes = zone.respond(&asked.to_vec().unwrap(), false).unwrap();
    let resp = Message::from_vec(&bytes).unwrap();
    assert_eq!(resp.metadata.id, 1234);
    assert!(resp.metadata.authoritative);
    assert_eq!(resp.answers.len(), 1);
    assert_eq!(resp.answers[0].ttl, 60);
    match &resp.answers[0].data {
        hickory_proto::rr::RData::TXT(t) => assert_eq!(t.to_string(), "token-value"),
        _ => panic!("expected a text"),
    }
}

#[test]
fn unpublished_name_is_nxdomain_with_soa() {
    let mut zone = zone();
    let resp = answer_of(
        &mut zone,
        "_acme-challenge.nobody.mesh.example.com.",
        RecordType::TXT,
    );
    assert_eq!(resp.head.code, Rcode::NXDomain);
    // The SOA in the authority section is what tells a resolver how long to cache the absence.
    assert_eq!(resp.authorities.len(), 1);
}

#[test]
fn refuses_names_outside_the_zone() {
    // Answering these authoritatively is how a DNS server becomes a lying open resolver.
    let mut zone = zone();
    for name in ["example.com.", "google.com.", "mesh.example.org."] {
        let resp = answer_of(&mut zone, name, RecordType::A);
        assert_eq!(resp.head.code, Rcode::Refused, "{name} should be refused");
        assert!(!resp.head.authoritative);
    }
}

#[test]
fn refuses_any_and_zone_transfers() {
    // The amplification levers: a tiny query that would otherwise draw a large answer.
    let mut zone = zone();
    for qtype in [RecordType::ANY, RecordType::AXFR, RecordType::IXFR] {
        let resp = answer_of(&mut zone, "mesh.example.com.", qtype);
        assert_eq!(resp.head.code, Rcode::Refused, "{qtype} should be refused");
    }
}

#[test]
fn never_offers_recursion() {
    let mut zone = zone();
    let mut req = message("_acme-challenge.a.b.mesh.example.com.", RecordType::TXT);
    req.metadata.recursion_desired = true;
    let bytes = zone.respond(&req.to_vec().unwrap(), false).unwrap();
    let resp = Message::from_vec(&bytes).unwrap();
    assert!(!resp.metadata.recursion_available);
    // RD is echoed back, as the protocol requires; RA=0 is what actually declines.
    assert!(resp.metadata.recursion_desired);
}

#[test]
fn serves_soa_and_ns_at_the_apex() {
    let mut zone = zone();
    let soa = answer_of(&mut zone, "mesh.example.com.", RecordType::SOA);
    assert_eq!(soa.answers.len(), 1);
    let ns = answer_of(&mut zone, "mesh.example.com.", RecordType::NS);
    assert_eq!(ns.answers.len(), 1);
    // An apex A query is NODATA — the name exists, the type does not — never NXDOMAIN.
    let a = answer_of(&mut zone, "mesh.example.com.", RecordType::A);
    assert_eq!(a.head.code, Rcode::NoError);
    assert!(a.answers.is_empty());
    assert_eq!(a.authorities.len(), 1);
}

#[test]
fn the_apex_authority_reaches_the_wire() {
    let mut zone = zone();
    let asked = message("mesh.example.com.", RecordType::SOA);
    let bytes = zone.respond(&asked.to_vec().unwrap(), true).unwrap();
    let resp = Message::from_vec(&bytes).unwrap();
    match &resp.answers[0].data {
        hickory_proto::rr::RData::SOA(s) => {
            assert_eq!(s.mname.to_string(), "mesh.example.com.");
            assert_eq!(s.rname.to_string(), "hostmaster.mesh.example.com.");
            assert_eq!(s.serial, 7);
            assert_eq!(s.refresh, 300);
            assert_eq!(s.retry, 300);
            assert_eq!(s.expire, 604_800);
            assert_eq!(s.minimum, 300);
        }
        _ => panic!("expected an authority"),
    }
    let asked = message("mesh.example.com.", RecordType::NS);
    let bytes = zone.respond(&asked.to_vec().unwrap(), true).unwrap();
    let resp = Message::from_vec(&bytes).unwrap();
    match &resp.answers[0].data {
        hickory_proto::rr::RData::NS(n) => assert_eq!(n.0.to_string(), "mesh.example.com."),
        _ => panic!("expected a server"),
    }
    // No answer carries an authority along; an absence does.
    assert!(resp.authorities.is_empty());
    let asked = message("nobody.mesh.example.com.", RecordType::A);
    let bytes = zone.respond(&asked.to_vec().unwrap(), true).unwrap();
    assert_eq!(Message::from_vec(&bytes).unwrap().authorities.len(), 1);
}

#[test]
fn a_published_name_answers_nodata_for_other_types() {
    let mut zone = zone();
    let name = "_acme-challenge.laptop.gordon.mesh.example.com";
    zone.store.publish(&dev(1), &[rec(name, "v")]).unwrap();
    let resp = answer_of(&mut zone, &format!("{name}."), RecordType::A);
    assert_eq!(resp.head.code, Rcode::NoError);
    assert!(resp.answers.is_empty());
}

#[test]
fn never_replies_to_a_reply() {
    // Otherwise two of these pointed at each other become a packet loop.
    let mut zone = zone();
    let mut req = message("mesh.example.com.", RecordType::SOA);
    req.metadata.message_type = MessageType::Response;
    let req = wire::decode(&req.to_vec().unwrap()).unwrap();
    assert!(zone.answer_at(&req, 1).is_none());
}

#[test]
fn unparseable_input_draws_no_reply() {
    let mut zone = zone();
    assert!(zone.respond(b"not a dns message at all", false).is_none());
    assert!(zone.respond(&[], false).is_none());
}

#[test]
fn a_query_that_is_none_is_told_so() {
    let mut zone = zone();
    let mut two = query("mesh.example.com.", RecordType::SOA);
    two.questions.push(query("mesh.example.com.", RecordType::NS).questions.remove(0));
    assert_eq!(zone.answer_at(&two, 1).unwrap().head.code, Rcode::FormErr);
    let mut other = query("mesh.example.com.", RecordType::SOA);
    other.op_code = 5;
    assert_eq!(zone.answer_at(&other, 1).unwrap().head.code, Rcode::NotImp);
}

#[test]
fn a_bad_domain_is_no_zone() {
    assert!(Zone::new("bad..domain", ChallengeStore::new(1), 1).is_err());
}

#[test]
fn an_answer_too_large_for_its_datagram_is_cut() {
    let mut zone = zone();
    let name = "_acme-challenge.laptop.gordon.mesh.example.com";
    let long = "x".repeat(200);
    for (d, v) in [(1, "a"), (2, "b"), (3, "c"), (4, "d")] {
        zone.store.publish(&dev(d), &[rec(name, &format!("{v}{long}"))]).unwrap();
    }
    let asked = message(&format!("{name}."), RecordType::TXT).to_vec().unwrap();
    let cut = Message::from_vec(&zone.respond(&asked, false).unwrap()).unwrap();
    assert!(cut.metadata.truncation);
    assert!(cut.answers.is_empty());
    let whole = Message::from_vec(&zone.respond(&asked, true).unwrap()).unwrap();
    assert!(!whole.metadata.truncation);
    assert_eq!(whole.answers.len(), 4);
}

#[test]
fn challenges_expire() {
    let mut store = ChallengeStore::new(40);
    let start: u64 = 0;
    store
        .publish_at(&dev(1), &[rec("_acme-challenge.a.mesh.example.com", "v")], start)
        .unwrap();
    assert!(store.lookup("_acme-challenge.a.mesh.example.com").is_some());

    // Re-publishing after the TTL prunes the stale entry rather than accumulating it.
    store
        .publish_at(
            &dev(1),
            &[rec("_acme-challenge.b.mesh.example.com", "v")],
            start + CHALLENGE_TTL + 1_000,
        )
        .unwrap();
    assert!(!store.live.contains(&"_acme-challenge.a.mesh.example.com".to_string()));
    assert!(store.live.contains(&"_acme-challenge.b.mesh.example.com".to_string()));
}

#[test]
fn weekly_budget_is_charged_per_order_not_per_name() {
    // A certificate covering a device and its primary alias raises two authorizations but is
    // still one certificate against the CA's cap.
    let mut store = ChallengeStore::new(2);
    let order = |n: u32| {
        vec![
            (
                format!("_acme-challenge.d{n}.gordon.mesh.example.com"),
                "v".to_string(),
            ),
            (
                format!("_acme-challenge.gordon{n}.mesh.example.com"),
                "v".to_string(),
            ),
        ]
    };
    // A device apiece, so this exercises the deployment budget rather than the per-device slice.
    store.publish(&dev(1), &order(1)).unwrap();
    store.publish(&dev(2), &order(2)).unwrap();
    assert_eq!(store.issued_this_week(), 2);
    assert_eq!(
        store.publish(&dev(3), &order(3)),
        Err(PublishError::BudgetExhausted)
    );
}

#[test]
fn a_retry_adds_its_value_rather_than_replacing() {
    // The CA accepts the challenge if *any* TXT at the name matches, so keeping both makes a
    // re-post safe while the first attempt is still being validated.
    let mut store = ChallengeStore::new(40);
    let name = "_acme-challenge.laptop.gordon.mesh.example.com";
    store.publish(&dev(1), &[rec(name, "first")]).unwrap();
    store.publish(&dev(1), &[rec(name, "second")]).unwrap();
    let values = store.lookup(name).unwrap();
    assert_eq!(values, vec!["first".to_string(), "second".to_string()]);
    // ...and an identical re-post does not grow the set without bound.
    store.publish(&dev(1), &[rec(name, "second")]).unwrap();
    assert_eq!(store.lookup(name).unwrap().len(), 2);
}

#[test]
fn one_device_cannot_spend_the_whole_deployment_budget() {
    // The failure this exists to prevent: a single member — hostile, or just crash-looping
    // through orders — locking certificate issuance out for everybody else for a week.
    let mut store = ChallengeStore::new(40);
    let order = |n: u32| {
        vec![(
            "_acme-challenge.laptop.gordon.mesh.example.com".to_string(),
            format!("value{n}"),
        )]
    };
    for n in 0..MAX_CERTS_PER_DEVICE_PER_WEEK {
        store.publish(&dev(1), &order(n)).unwrap();
    }
    assert_eq!(
        store.publish(&dev(1), &order(99)),
        Err(PublishError::DeviceBudgetExhausted)
    );
    // The deployment budget is untouched by the refusal, so everyone else still issues.
    assert_eq!(
        store.issued_this_week(),
        MAX_CERTS_PER_DEVICE_PER_WEEK as usize
    );
    store.publish(&dev(2), &order(1)).unwrap();
}

#[test]
fn a_device_slice_is_never_larger_than_the_deployment_budget() {
    // A deployment that meters itself to one certificate a week does not hand one device five.
    let mut store = ChallengeStore::new(1);
    store
        .publish(&dev(1), &[rec("_acme-challenge.a.mesh.example.com", "a")])
        .unwrap();
    assert_eq!(
        store.publish(&dev(1), &[rec("_acme-challenge.a.mesh.example.com", "b")]),
        Err(PublishError::DeviceBudgetExhausted)
    );
}

#[test]
fn a_device_budget_frees_as_its_window_rolls() {
    let mut store = ChallengeStore::new(40);
    let start: u64 = 0;
    let order = |n: u32| {
        vec![(
            "_acme-challenge.laptop.gordon.mesh.example.com".to_string(),
            format!("value{n}"),
        )]
    };
    for n in 0..MAX_CERTS_PER_DEVICE_PER_WEEK {
        store.publish_at(&dev(1), &order(n), start).unwrap();
    }
    assert_eq!(
        store.publish_at(&dev(1), &order(99), start),
        Err(PublishError::DeviceBudgetExhausted)
    );
    // Once the oldest issuances age out, so does the refusal — and the per-device row goes with
    // them rather than accumulating one entry per device that has ever ordered.
    let later = start + ISSUANCE_WINDOW + 1_000;
    store.publish_at(&dev(1), &order(99), later).unwrap();
    assert_eq!(store.per_device.len(), 1);
}

#[test]
fn re_posting_a_live_order_is_free() {
    // A device retrying inside the challenge TTL is the same certificate to the CA, so charging
    // it would let a client burn its own allowance (and the deployment's) on retries.
    let mut store = ChallengeStore::new(40);
    let order = vec![
        (
            "_acme-challenge.laptop.gordon.mesh.example.com".to_string(),
            "device-value".to_string(),
        ),
        (
            "_acme-challenge.gordon.mesh.example.com".to_string(),
            "primary-value".to_string(),
        ),
    ];
    store.publish(&dev(1), &order).unwrap();
    for _ in 0..20 {
        store.publish(&dev(1), &order).unwrap();
    }
    assert_eq!(store.issued_this_week(), 1);
    // ...and the records are still there, with their expiry refreshed rather than duplicated.
    assert_eq!(
        store
            .lookup("_acme-challenge.laptop.gordon.mesh.example.com")
            .unwrap(),
        vec!["device-value".to_string()]
    );
}

#[test]
fn a_names_values_are_capped() {
    // Every lookup clones this vector for the spoofable UDP listener, so the name cannot be
    // allowed to grow into an amplifier.
    let mut store = ChallengeStore::new(40);
    let name = "_acme-challenge.laptop.gordon.mesh.example.com";
    // Two devices' worth of allowance, so more distinct values reach one name than it may hold.
    let mut n = 0;
    for device in [dev(1), dev(2)] {
        for _ in 0..MAX_CERTS_PER_DEVICE_PER_WEEK {
            store
                .publish(&device, &[(name.to_string(), format!("value{n}"))])
                .unwrap();
            n += 1;
        }
    }
    let values = store.lookup(name).unwrap();
    assert_eq!(values.len(), MAX_VALUES_PER_NAME);
    // Oldest evicted, newest kept — the newest is the order most likely still validating.
    assert_eq!(values.last().unwrap(), &format!("value{}", n - 1));
    assert!(!values.contains(&"value0".to_string()));
}

#[test]
fn live_challenges_are_bounded() {
    let mut store = ChallengeStore::new(1_000_000);
    let records: Vec<(String, String)> = (0..MAX_LIVE_CHALLENGES)
        .map(|i| (format!("n{i}"), "v".to_string()))
        .collect();
    store.publish_at(&dev(1), &records[..], 0).unwrap();
    assert_eq!(
        store.publish_at(&dev(2), &[rec("one-more", "v")], 1),
        Err(PublishError::TooManyLive)
    );
    // A refusal leaves everything as it was.
    assert_eq!(store.live.len(), MAX_LIVE_CHALLENGES);
    assert_eq!(store.issued_at(1), 1);
}

#[test]
fn publish_errors_say_what_is_spent() {
    assert_eq!(
        PublishError::DeviceBudgetExhausted.to_text(),
        "this device has spent its weekly certificate allowance; try again later"
    );
    assert_ne!(
        PublishError::BudgetExhausted.to_text(),
        PublishError::TooManyLive.to_text()
    );
}

#[test]
fn a_deployments_domain_is_normalised() {
    let s = DnsState::new("Mesh.Example.COM.", 3);
    assert_eq!(s.domain, "mesh.example.com");
    assert_eq!(s.challenges.max_certs_per_week, 3);
    assert_eq!(s.challenges.live.len(), 0);
}

#[test]
fn queries_are_bounded() {
    assert_eq!(
        rate_limit_caps(),
        Caps { window: 1_000, max_per_ip: 20, max_total: 2_000, max_tracked_ips: 4_096 }
    );
}

#[test]
fn a_message_over_tcp_goes_behind_its_length() {
    assert_eq!(tcp_query_len(4096), Ok(4096));
    assert_eq!(
        tcp_query_len(4097).unwrap_err(),
        "query of 4097 bytes exceeds the 4096-byte limit"
    );
    assert_eq!(tcp_frame(&vec![7, 8]), vec![0, 2, 7, 8]);
    assert_eq!(tcp_frame(&vec![0; 300])[..2], [1, 44]);
}
