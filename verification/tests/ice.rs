use unitylan::ice::{
    backoff, build_urls, Ensure, IceAct, IceEvent, IceManager, IceScheme, IceSession, IceState,
    RESTART_BACKOFF_MAX,
};
use unitylan::mesh::{IceParams, RelayInfo};
use unitylan::net::{endpoint_v4, v4_text, Ip};

fn host(ip: Ip) -> String {
    match ip {
        Ip::V4(a) => v4_text(a),
        Ip::V6(_) => panic!("expected IPv4"),
    }
}

#[test]
fn urls_put_stun_first_then_turn_with_creds() {
    let stun = vec![
        endpoint_v4(203, 0, 113, 9, 3478),
        endpoint_v4(198, 51, 100, 5, 3478),
    ];
    let turn = Some(RelayInfo {
        turn_addr: endpoint_v4(203, 0, 113, 200, 3478),
        username: "u".into(),
        credential: "c".into(),
        realm: "r".into(),
        peer_relayed: None,
    });
    let urls = build_urls(&stun, &turn);
    assert_eq!(urls.len(), 3);
    // Preference order preserved: coordinator STUN first, then the second STUN.
    assert!(matches!(urls[0].scheme, IceScheme::Stun));
    assert_eq!(host(urls[0].host), "203.0.113.9");
    assert!(matches!(urls[1].scheme, IceScheme::Stun));
    assert_eq!(host(urls[1].host), "198.51.100.5");
    assert!(matches!(urls[2].scheme, IceScheme::Turn));
    assert_eq!(urls[2].username, "u");
    assert_eq!(urls[2].password, "c");
}

#[test]
fn restart_backoff_grows_then_caps() {
    let b: Vec<u64> = (1..=6).map(backoff).collect();
    assert_eq!(b, vec![60, 120, 240, 480, 600, 600]);
    // No overflow however long it has been failing.
    assert_eq!(backoff(u32::MAX), RESTART_BACKOFF_MAX);
    assert_eq!(backoff(0), 60);
}

#[test]
fn urls_omit_turn_when_no_relay() {
    let urls = build_urls(&vec![], &None);
    assert!(urls.is_empty());
}

fn session() -> IceSession {
    IceSession::new("uf".to_string(), "pw".to_string(), true)
}

fn params(ufrag: &str, candidates: &[&str]) -> IceParams {
    IceParams {
        ufrag: ufrag.to_string(),
        pwd: "peer-pw".to_string(),
        candidates: candidates.iter().map(|c| c.to_string()).collect(),
    }
}

#[test]
fn a_session_goes_from_offer_to_path() {
    let mut s = session();
    let (add, act) = s.handle(IceEvent::Remote(Some(params("", &["a"]))));
    assert_eq!(add, vec!["a".to_string()]);
    assert!(matches!(act, IceAct::Nothing), "no credentials yet");
    let (add, act) = s.handle(IceEvent::Remote(Some(params("uf2", &["a", "b", "b"]))));
    assert_eq!(add, vec!["b".to_string()], "each candidate once");
    match act {
        IceAct::Connect { ufrag, pwd, dial } => {
            assert_eq!((ufrag.as_str(), pwd.as_str(), dial), ("uf2", "peer-pw", true));
        }
        _ => panic!("expected to connect"),
    }
    let (add, act) = s.handle(IceEvent::Remote(Some(params("uf2", &["c"]))));
    assert_eq!(add, vec!["c".to_string()], "later candidates still reach the agent");
    assert!(matches!(act, IceAct::Nothing));
    assert!(matches!(s.handle(IceEvent::Negotiated).1, IceAct::Bind));
    let shim = endpoint_v4(127, 0, 0, 1, 4000);
    assert!(matches!(s.handle(IceEvent::Bound(shim)).1, IceAct::Pass));
    assert_eq!(s.state, IceState::Connected(shim));
    // The path is lost later.
    assert!(matches!(s.handle(IceEvent::AgentFailed).1, IceAct::Cancel));
    assert!(s.is_failed());
}

#[test]
fn a_failed_session_stays_failed() {
    let mut s = session();
    s.handle(IceEvent::Remote(Some(params("uf2", &[]))));
    s.handle(IceEvent::Negotiated);
    s.handle(IceEvent::AgentFailed);
    let (_, act) = s.handle(IceEvent::Bound(endpoint_v4(127, 0, 0, 1, 4000)));
    assert!(matches!(act, IceAct::Nothing));
    assert!(s.is_failed());
    let mut waiting = session();
    waiting.handle(IceEvent::NoOffer);
    assert!(waiting.is_failed());
    let mut trying = session();
    trying.handle(IceEvent::Remote(Some(params("uf2", &[]))));
    trying.handle(IceEvent::NoOffer);
    assert!(!trying.is_failed(), "the offer came");
    trying.handle(IceEvent::NotNegotiated);
    assert!(trying.is_failed());
    let mut binding = session();
    binding.handle(IceEvent::Remote(Some(params("uf2", &[]))));
    binding.handle(IceEvent::Negotiated);
    binding.handle(IceEvent::NotBound);
    assert!(binding.is_failed());
}

#[test]
fn a_failed_session_is_begun_again_after_its_wait() {
    let mut m = IceManager::new();
    let k = [1u8; 32];
    assert_eq!(m.ensure(k, 0), Ensure::Start);
    m.started(k, session());
    assert!(m.has_session(&k));
    assert_eq!(m.ensure(k, 1), Ensure::Feed);
    let i = m.sessions.find(&k).unwrap();
    m.sessions.at(i).handle(IceEvent::AgentFailed);
    assert_eq!(m.ensure(k, 1_000), Ensure::Hold);
    assert!(!m.has_session(&k));
    assert_eq!(m.ensure(k, 60_999), Ensure::Hold);
    assert_eq!(m.ensure(k, 61_000), Ensure::Start);
    // A second failure in a row waits twice as long.
    m.started(k, session());
    let i = m.sessions.find(&k).unwrap();
    m.sessions.at(i).handle(IceEvent::AgentFailed);
    assert_eq!(m.ensure(k, 61_000), Ensure::Hold);
    assert_eq!(m.ensure(k, 121_000), Ensure::Hold);
    assert_eq!(m.ensure(k, 181_000), Ensure::Start);
}

#[test]
fn a_path_forgets_the_failures_before_it() {
    let mut m = IceManager::new();
    let k = [1u8; 32];
    m.failures.insert(k, (3, 0));
    m.started(k, session());
    assert!(m.feed([9u8; 32], None).is_none());
    let (shim, add, _) = m.feed(k, Some(params("uf2", &["a"]))).unwrap();
    assert_eq!(shim, None);
    assert_eq!(add, vec!["a".to_string()]);
    assert!(!m.is_connected(&k));
    let i = m.sessions.find(&k).unwrap();
    m.sessions.at(i).handle(IceEvent::Negotiated);
    let at = endpoint_v4(127, 0, 0, 1, 4000);
    m.sessions.at(i).handle(IceEvent::Bound(at));
    let (shim, _, _) = m.feed(k, None).unwrap();
    assert_eq!(shim, Some(at));
    assert!(m.is_connected(&k));
    assert!(!m.failures.contains(&k));
}

#[test]
fn offers_say_what_was_gathered() {
    let mut m = IceManager::new();
    m.started([1u8; 32], session());
    m.started([2u8; 32], session());
    let i = m.sessions.find(&[2u8; 32]).unwrap();
    m.sessions.at(i).handle(IceEvent::Gathered("cand".to_string()));
    let offers = m.offers();
    assert_eq!(offers.len(), 2);
    assert_eq!(offers[1].peer, [2u8; 32]);
    assert_eq!(offers[1].params.ufrag, "uf");
    assert_eq!(offers[1].params.candidates, vec!["cand".to_string()]);
    m.failures.insert([1u8; 32], (1, 0));
    m.retain(&vec![[2u8; 32]]);
    assert!(!m.has_session(&[1u8; 32]));
    assert!(!m.failures.contains(&[1u8; 32]));
    assert!(m.has_session(&[2u8; 32]));
}
