use unitylan::net::endpoint_v4;
use unitylan::oauth::{
    authorize_form, await_code, begin, bind_addr_of, challenge_of, enough, loopback_bind_addr,
    redirect_reply, Login, OauthError, PkceConfig, TokenStep,
};
use unitylan::url::UrlParts;

fn login(fake: bool) -> Login {
    let cfg = PkceConfig { client_id: "123".to_string(), fake };
    begin(
        cfg,
        "https://coord.example.com",
        "http://127.0.0.1:8765/callback",
        [1u8; 32],
        "dBjftJeZ4CVP-mB92K27uhbUJU1p1r_wW1gFWFOEjXk".to_string(),
        "st8".to_string(),
    )
    .ok()
    .unwrap()
}

/// The example of the standard that defines the exchange.
#[test]
fn the_challenge_is_the_secrets_hash() {
    assert_eq!(
        challenge_of("dBjftJeZ4CVP-mB92K27uhbUJU1p1r_wW1gFWFOEjXk"),
        "E9Melhoa2OwvFrEMTJguCHaoeK1t8URWbuGJSstw-cM"
    );
}

#[test]
fn a_login_shows_the_hash_and_keeps_the_secret() {
    let l = login(false);
    assert_eq!(l.bind, endpoint_v4(127, 0, 0, 1, 8765));
    assert!(l.authorize_url.starts_with("https://discord.com/oauth2/authorize?client_id=123&"));
    assert!(l.authorize_url.contains("code_challenge=E9Melhoa2OwvFrEMTJguCHaoeK1t8URWbuGJSstw-cM"));
    assert!(l
        .authorize_url
        .contains("redirect_uri=http%3A%2F%2F127.0.0.1%3A8765%2Fcallback"));
    assert!(!l.authorize_url.contains("dBjftJeZ4CVP"));
    assert_eq!(
        authorize_form("c", "r", "s", "h")
            .iter()
            .map(|(k, v)| format!("{k}={v}"))
            .collect::<Vec<_>>()
            .join("&"),
        "client_id=c&redirect_uri=r&response_type=code&scope=identify&state=s&code_challenge=h&code_challenge_method=S256"
    );
}

#[test]
fn a_redirect_has_to_lead_back_here() {
    assert!(matches!(
        loopback_bind_addr("http://127.0.0.1:8765/callback"),
        Ok(e) if e == endpoint_v4(127, 0, 0, 1, 8765)
    ));
    assert!(matches!(
        loopback_bind_addr("http://localhost:9000/"),
        Ok(e) if e == endpoint_v4(127, 0, 0, 1, 9000)
    ));
    match loopback_bind_addr("not a url") {
        Err(e) => assert_eq!(e.to_text(), "parsing oauth_redirect \"not a url\""),
        Ok(_) => panic!("no URL"),
    }
    match loopback_bind_addr("http://127.0.0.1/callback") {
        Err(e) => assert_eq!(
            e.to_text(),
            "oauth_redirect \"http://127.0.0.1/callback\" must include an explicit port"
        ),
        Ok(_) => panic!("no port"),
    }
    match loopback_bind_addr("http://evil.example.com:8765/callback") {
        Err(e) => assert_eq!(
            e.to_text(),
            "oauth_redirect must be a loopback address (127.0.0.1/localhost), got \"evil.example.com\""
        ),
        Ok(_) => panic!("not here"),
    }
    assert!(bind_addr_of("x", Some(UrlParts { host: None, port: Some(5) })).is_ok());
}

#[test]
fn a_redirect_is_quoted_as_it_would_be_typed() {
    match loopback_bind_addr("not \"a\\url\n") {
        Err(e) => assert_eq!(e.to_text(), r#"parsing oauth_redirect "not \"a\\url\n""#),
        Ok(_) => panic!("no URL"),
    }
}

fn request(query: &str) -> String {
    format!("GET /callback?{query} HTTP/1.1\r\nHost: 127.0.0.1\r\n\r\n")
}

#[test]
fn a_redirect_gives_its_code_only_with_the_logins_state() {
    assert!(matches!(await_code(&request("code=abc&state=st8"), "st8"), Ok(c) if c == "abc"));
    assert!(matches!(
        await_code(&request("code=old&state=x&code=abc&state=st8&junk"), "st8"),
        Ok(c) if c == "abc"
    ));
    assert!(matches!(
        await_code(&request("code=abc&state=other"), "st8"),
        Err(OauthError::StateMismatch)
    ));
    assert!(matches!(
        await_code(&request("state=st8"), "st8"),
        Err(OauthError::StateMismatch)
    ));
    assert!(matches!(
        await_code(&request("error=access_denied&state=st8"), "st8"),
        Err(OauthError::Refused(e)) if e == "access_denied"
    ));
    assert!(matches!(await_code(&request("code=abc"), "st8"), Err(OauthError::Missing)));
    assert!(matches!(await_code("GET /callback HTTP/1.1", "st8"), Err(OauthError::Missing)));
    assert!(matches!(await_code("", "st8"), Err(OauthError::Malformed)));
}

#[test]
fn the_errors_of_a_login_say_what_happened() {
    assert_eq!(
        OauthError::StateMismatch.to_text(),
        "OAuth state mismatch (possible CSRF); login aborted"
    );
    assert_eq!(OauthError::Missing.to_text(), "redirect missing code/state");
    assert_eq!(OauthError::Malformed.to_text(), "malformed redirect request");
    assert_eq!(
        OauthError::Refused("x".to_string()).to_text(),
        "Discord returned error: x"
    );
    assert_eq!(OauthError::NoAuthorizeUrl.to_text(), "valid authorize url");
}

#[test]
fn enough_is_read_at_an_empty_line() {
    assert!(!enough(&b"GET / HTTP/1.1\r\n".to_vec()));
    assert!(enough(&b"GET / HTTP/1.1\r\n\r\n".to_vec()));
    assert!(!enough(&vec![0u8; 8192]));
    assert!(enough(&vec![0u8; 8193]));
    assert!(!enough(&vec![]));
}

#[test]
fn the_browser_is_told_how_long_its_page_is() {
    for ok in [true, false] {
        let r = redirect_reply(ok);
        let (head, body) = r.split_once("\r\n\r\n").unwrap();
        assert!(head.contains(&format!("Content-Length: {}", body.len())));
    }
    assert!(redirect_reply(true).contains("Logged in"));
    assert!(redirect_reply(false).contains("Login failed"));
}

#[test]
fn a_code_is_redeemed_with_the_secret() {
    match login(false).complete(&request("code=abc&state=st8")) {
        Ok(TokenStep::Redeem(f)) => {
            assert_eq!(f.len(), 5);
            assert_eq!(f[2], ("code".to_string(), "abc".to_string()));
            assert_eq!(f[4].1, "dBjftJeZ4CVP-mB92K27uhbUJU1p1r_wW1gFWFOEjXk");
        }
        _ => panic!("expected a form"),
    }
    match login(true).complete(&request("code=user:5&state=st8")) {
        Ok(TokenStep::Use(c)) => assert_eq!(c, "user:5"),
        _ => panic!("expected the code itself"),
    }
    assert!(login(true).complete(&request("code=user:5&state=no")).is_err());
}
