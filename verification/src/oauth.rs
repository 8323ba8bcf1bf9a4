//! Logging in with Discord.
//!
//! The engine is a public client: it makes a secret, shows only the secret's hash, catches the code at
//! a local address, and redeems it with the secret. What is shown, what the redirect says, and what
//! follows from it is here; the sockets and the requests are the caller's.
use crate::assoc::PubKey;
use crate::net::{endpoint_v4, Endpoint};
use crate::text;
use crate::url::{self, build_url, read_url, UrlParts};
use base64::Engine;
use sha2::Digest;
use vstd::prelude::*;
use vstd::string::*;

verus! {

/// How much of a redirect is read at most, in bytes.
pub const MAX_REDIRECT: usize = 8192;

/// How long a login may take, in seconds.
pub const LOGIN_TIMEOUT: u64 = 300;

/// The SHA-256 digest of a text's bytes.
pub uninterp spec fn sha256_of(s: Seq<char>) -> Seq<u8>;

/// Bytes as base64 text, by the alphabet for URLs and without padding.
pub uninterp spec fn base64_url_text(b: Seq<u8>) -> Seq<char>;

/// `sha2::Sha256::digest`. Claims that the digest depends on the text alone, and has 32 bytes.
#[verifier::external_body]
fn digest(s: &str) -> (r: Vec<u8>)
    ensures
        r@ == sha256_of(s@),
        r@.len() == 32,
{
    sha2::Sha256::digest(s.as_bytes()).to_vec()
}

/// `base64::Engine::encode` with `general_purpose::URL_SAFE_NO_PAD`. Claims that the text depends on
/// the bytes alone.
#[verifier::external_body]
fn encode_url(b: &[u8]) -> (r: String)
    ensures
        r@ == base64_url_text(b@),
{
    base64::engine::general_purpose::URL_SAFE_NO_PAD.encode(b)
}

/// What is shown of a secret: its hash.
pub open spec fn challenge(verifier: Seq<char>) -> Seq<char> {
    base64_url_text(sha256_of(verifier))
}

/// What is shown of a secret.
pub fn challenge_of(verifier: &str) -> (r: String)
    ensures
        r@ == challenge(verifier@),
{
    encode_url(digest(verifier).as_slice())
}

/// What a login asks for.
pub open spec fn authorize_params(
    client_id: Seq<char>,
    redirect_uri: Seq<char>,
    state: Seq<char>,
    shown: Seq<char>,
) -> Seq<(Seq<char>, Seq<char>)> {
    seq![
        ("client_id"@, client_id),
        ("redirect_uri"@, redirect_uri),
        ("response_type"@, "code"@),
        ("scope"@, "identify"@),
        ("state"@, state),
        ("code_challenge"@, shown),
        ("code_challenge_method"@, "S256"@),
    ]
}

fn push_param(v: &mut Vec<(String, String)>, k: &str, x: &str)
    ensures
        url::param_views(final(v)@) == url::param_views(old(v)@).push((k@, x@)),
{
    let ghost before = url::param_views(v@);
    v.push((k.to_owned(), x.to_owned()));
    assert(url::param_views(v@) =~= before.push((k@, x@)));
}

/// What a login asks for, as names and values.
pub fn authorize_form(client_id: &str, redirect_uri: &str, state: &str, shown: &str) -> (r: Vec<
    (String, String),
>)
    ensures
        url::param_views(r@) == authorize_params(client_id@, redirect_uri@, state@, shown@),
{
    let mut v: Vec<(String, String)> = Vec::new();
    assert(url::param_views(v@) =~= seq![]);
    push_param(&mut v, "client_id", client_id);
    push_param(&mut v, "redirect_uri", redirect_uri);
    push_param(&mut v, "response_type", "code");
    push_param(&mut v, "scope", "identify");
    push_param(&mut v, "state", state);
    push_param(&mut v, "code_challenge", shown);
    push_param(&mut v, "code_challenge_method", "S256");
    assert(url::param_views(v@) =~= authorize_params(client_id@, redirect_uri@, state@, shown@));
    v
}

/// A login that is under way.
pub struct Login {
    pub authorize_url: String,
    /// Where the code is caught.
    pub bind: Endpoint,
    pub verifier: String,
    pub state: String,
    pub redirect_uri: String,
    pub client_id: String,
    /// Whether the coordinator takes the code itself for a token, which it does for tests.
    pub fake: bool,
    pub coordinator: String,
    pub wg_pubkey: PubKey,
}

/// Why a login does not come about.
pub enum OauthError {
    /// The redirect is no URL.
    NotAUrl(String),
    /// The redirect names no port.
    NoPort(String),
    /// The redirect does not lead to this host.
    NotLoopback(String),
    /// The login's own URL cannot be put together.
    NoAuthorizeUrl,
    /// The redirect is no request.
    Malformed,
    /// Discord refused.
    Refused(String),
    /// The redirect belongs to another login.
    StateMismatch,
    /// The redirect says neither.
    Missing,
}

impl OauthError {
    /// What is said of it.
    pub open spec fn text(self) -> Seq<char> {
        match self {
            OauthError::NotAUrl(u) => "parsing oauth_redirect "@ + text::debug_text(u@),
            OauthError::NoPort(u) => "oauth_redirect "@ + text::debug_text(u@)
                + " must include an explicit port"@,
            OauthError::NotLoopback(h) =>
                "oauth_redirect must be a loopback address (127.0.0.1/localhost), got "@
                    + text::debug_text(h@),
            OauthError::NoAuthorizeUrl => "valid authorize url"@,
            OauthError::Malformed => "malformed redirect request"@,
            OauthError::Refused(e) => "Discord returned error: "@ + e@,
            OauthError::StateMismatch => "OAuth state mismatch (possible CSRF); login aborted"@,
            OauthError::Missing => "redirect missing code/state"@,
        }
    }

    /// What is said of it.
    pub fn to_text(&self) -> (r: String)
        ensures
            r@ == self.text(),
    {
        match self {
            OauthError::NotAUrl(u) => {
                let mut t = "parsing oauth_redirect ".to_owned();
                t.append(text::quoted(u.as_str()).as_str());
                t
            },
            OauthError::NoPort(u) => {
                let mut t = "oauth_redirect ".to_owned();
                t.append(text::quoted(u.as_str()).as_str());
                t.append(" must include an explicit port");
                t
            },
            OauthError::NotLoopback(h) => {
                let mut t =
                    "oauth_redirect must be a loopback address (127.0.0.1/localhost), got ".to_owned();
                t.append(text::quoted(h.as_str()).as_str());
                t
            },
            OauthError::NoAuthorizeUrl => "valid authorize url".to_owned(),
            OauthError::Malformed => "malformed redirect request".to_owned(),
            OauthError::Refused(e) => {
                let mut t = "Discord returned error: ".to_owned();
                t.append(e.as_str());
                t
            },
            OauthError::StateMismatch =>
                "OAuth state mismatch (possible CSRF); login aborted".to_owned(),
            OauthError::Missing => "redirect missing code/state".to_owned(),
        }
    }
}

/// The host that a redirect leads to: this one, where it names none.
pub open spec fn redirect_host(u: url::UrlView) -> Seq<char> {
    match u.host {
        Some(h) => h,
        None => "127.0.0.1"@,
    }
}

/// Whether a host is this one.
pub open spec fn loops_back(host: Seq<char>) -> bool {
    host == "127.0.0.1"@ || host == "localhost"@
}

/// Whether this is what a redirect comes to: where to listen, or why not.
pub open spec fn listens(
    redirect_uri: Seq<char>,
    parts: Option<url::UrlView>,
    r: Result<Endpoint, OauthError>,
) -> bool {
    match parts {
        None => r matches Err(OauthError::NotAUrl(u)) && u@ == redirect_uri,
        Some(u) => match u.port {
            None => r matches Err(OauthError::NoPort(x)) && x@ == redirect_uri,
            Some(p) => if loops_back(redirect_host(u)) {
                r matches Ok(e) && e == (Endpoint {
                    ip: crate::net::Ip::V4(crate::net::v4_number(127, 0, 0, 1)),
                    port: p,
                })
            } else {
                r matches Err(OauthError::NotLoopback(h)) && h@ == redirect_host(u)
            },
        },
    }
}

/// Where to listen for a redirect, given what its URL was read as.
pub fn bind_addr_of(redirect_uri: &str, parts: Option<UrlParts>) -> (r: Result<
    Endpoint,
    OauthError,
>)
    ensures
        listens(redirect_uri@, url::opt_parts(parts), r),
{
    let u = match parts {
        Some(u) => u,
        None => {
            return Err(OauthError::NotAUrl(redirect_uri.to_owned()));
        },
    };
    let host = match u.host {
        Some(h) => h,
        None => "127.0.0.1".to_owned(),
    };
    let port: u16 = match u.port {
        Some(p) => p,
        None => {
            return Err(OauthError::NoPort(redirect_uri.to_owned()));
        },
    };
    if !text::same(host.as_str(), "127.0.0.1") && !text::same(host.as_str(), "localhost") {
        return Err(OauthError::NotLoopback(host));
    }
    Ok(endpoint_v4(127, 0, 0, 1, port))
}

/// Where to listen for a redirect: it has to lead to this host, and to name a port.
pub fn loopback_bind_addr(redirect_uri: &str) -> (r: Result<Endpoint, OauthError>)
    ensures
        listens(redirect_uri@, url::url_parts(redirect_uri@), r),
{
    bind_addr_of(redirect_uri, read_url(redirect_uri))
}

/// The coordinator's part of a login.
pub struct PkceConfig {
    pub client_id: String,
    pub fake: bool,
}

/// Begins a login. `verifier` and `state` are secrets, made anew for it.
pub fn begin(
    cfg: PkceConfig,
    coordinator: &str,
    redirect_uri: &str,
    wg_pubkey: PubKey,
    verifier: String,
    state: String,
) -> (r: Result<Login, OauthError>)
    ensures
        ({
            let parts = url::url_parts(redirect_uri@);
            let made = url::url_with(
                "https://discord.com/oauth2/authorize"@,
                authorize_params(cfg.client_id@, redirect_uri@, state@, challenge(verifier@)),
            );
            match r {
                Ok(l) => {
                    &&& made == Some(l.authorize_url@)
                    &&& listens(redirect_uri@, parts, Ok(l.bind))
                    &&& l.verifier@ == verifier@
                    &&& l.state@ == state@
                    &&& l.redirect_uri@ == redirect_uri@
                    &&& l.client_id@ == cfg.client_id@
                    &&& l.fake == cfg.fake
                    &&& l.coordinator@ == coordinator@
                    &&& l.wg_pubkey@ == wg_pubkey@
                },
                Err(e) => listens(redirect_uri@, parts, Err(e)) || (e is NoAuthorizeUrl && made
                    is None),
            }
        }),
{
    let shown = challenge_of(verifier.as_str());
    let bind = match loopback_bind_addr(redirect_uri) {
        Ok(b) => b,
        Err(e) => {
            return Err(e);
        },
    };
    let form = authorize_form(
        cfg.client_id.as_str(),
        redirect_uri,
        state.as_str(),
        shown.as_str(),
    );
    match build_url("https://discord.com/oauth2/authorize", &form) {
        Some(authorize_url) => Ok(
            Login {
                authorize_url,
                bind,
                verifier,
                state,
                redirect_uri: redirect_uri.to_owned(),
                client_id: cfg.client_id,
                fake: cfg.fake,
                coordinator: coordinator.to_owned(),
                wg_pubkey,
            },
        ),
        None => Err(OauthError::NoAuthorizeUrl),
    }
}

/// Whether an empty line ends at the place.
pub open spec fn blank_at(buf: Seq<u8>, i: int) -> bool {
    buf[i] == 13 && buf[i + 1] == 10 && buf[i + 2] == 13 && buf[i + 3] == 10
}

/// Whether a redirect's headers are at an end.
pub open spec fn has_blank(buf: Seq<u8>) -> bool {
    exists|i: int| 0 <= i <= buf.len() - 4 && #[trigger] blank_at(buf, i)
}

/// Whether enough of a redirect was read.
pub fn enough(buf: &Vec<u8>) -> (r: bool)
    ensures
        r == (has_blank(buf@) || buf@.len() > MAX_REDIRECT),
{
    if buf.len() > MAX_REDIRECT {
        return true;
    }
    let mut i: usize = 0;
    while i + 4 <= buf.len()
        invariant
            i <= buf.len(),
            buf.len() <= MAX_REDIRECT,
            forall|j: int| 0 <= j < i ==> !#[trigger] blank_at(buf@, j),
        decreases buf.len() - i,
    {
        if buf[i] == 13 && buf[i + 1] == 10 && buf[i + 2] == 13 && buf[i + 3] == 10 {
            assert(blank_at(buf@, i as int));
            return true;
        }
        i += 1;
    }
    false
}

/// The fields of a query.
pub open spec fn fields(q: Seq<char>) -> Seq<Seq<char>>
    decreases q.len(),
    via fields_decreases
{
    match text::split_once(q, '&') {
        Some((a, b)) => seq![a] + fields(b),
        None => seq![q],
    }
}

#[via_fn]
proof fn fields_decreases(q: Seq<char>) {
    text::lemma_pos_from(q, '&', 0);
}

/// The value of the last field with a name.
pub open spec fn last_value(fs: Seq<Seq<char>>, k: Seq<char>) -> Option<Seq<char>>
    decreases fs.len(),
{
    if fs.len() == 0 {
        None
    } else {
        match text::split_once(fs.last(), '=') {
            Some((n, v)) => if n == k {
                Some(v)
            } else {
                last_value(fs.drop_last(), k)
            },
            None => last_value(fs.drop_last(), k),
        }
    }
}

fn split_fields(q: &str) -> (r: Vec<String>)
    ensures
        text::texts(r@) == fields(q@),
{
    let ghost all = fields(q@);
    let mut out: Vec<String> = Vec::new();
    let mut rest = q.to_owned();
    assert(text::texts(out@) =~= seq![]);
    assert(text::texts(out@) + fields(rest@) =~= all);
    loop
        invariant
            text::texts(out@) + fields(rest@) == all,
        ensures
            text::texts(out@) + seq![rest@] == all,
        decreases rest@.len(),
    {
        proof {
            text::lemma_pos_from(rest@, '&', 0);
        }
        match text::split_once_at(rest.as_str(), '&') {
            Some((a, b)) => {
                let ghost before = text::texts(out@);
                let ghost av = a@;
                assert(fields(rest@) == seq![av] + fields(b@));
                text::push_text(&mut out, a);
                assert(text::texts(out@) + fields(b@) =~= before + (seq![av] + fields(b@)));
                rest = b;
            },
            None => {
                break;
            },
        }
    }
    let ghost before = text::texts(out@);
    let ghost rv = rest@;
    text::push_text(&mut out, rest);
    assert(text::texts(out@) =~= before + seq![rv]);
    out
}

fn find_value(fs: &Vec<String>, k: &str) -> (r: Option<String>)
    ensures
        text::opt_text(r) == last_value(text::texts(fs@), k@),
{
    let ghost all = text::texts(fs@);
    let mut i: usize = fs.len();
    assert(all.take(i as int) =~= all);
    while i > 0
        invariant
            i <= fs.len(),
            all == text::texts(fs@),
            last_value(all, k@) == last_value(all.take(i as int), k@),
        decreases i,
    {
        assert(all.take(i as int).drop_last() =~= all.take(i - 1));
        assert(all.take(i as int).last() == fs@[i - 1]@);
        if let Some((n, v)) = text::split_once_at(fs[i - 1].as_str(), '=') {
            if text::same(n.as_str(), k) {
                return Some(v);
            }
        }
        i -= 1;
    }
    assert(all.take(0) =~= seq![]);
    None
}

/// What a redirect asks for: the second word of its first line.
pub open spec fn target(req: Seq<char>) -> Option<Seq<char>> {
    let w = text::words(req);
    if w.len() > 1 {
        Some(w[1])
    } else {
        None
    }
}

/// The fields that a redirect carries.
pub open spec fn redirect_fields(target: Seq<char>) -> Seq<Seq<char>> {
    match text::split_once(target, '?') {
        Some((_, q)) => fields(q),
        None => fields(seq![]),
    }
}

/// Whether this is what a redirect comes to: the code, or why there is none. An answer to another
/// login is not taken, whatever it carries.
pub open spec fn redirected(
    req: Seq<char>,
    state: Seq<char>,
    r: Result<String, OauthError>,
) -> bool {
    match target(req) {
        None => r matches Err(OauthError::Malformed),
        Some(t) => {
            let fs = redirect_fields(t);
            let s = last_value(fs, "state"@);
            match (last_value(fs, "code"@), s == Some(state), last_value(fs, "error"@)) {
                (Some(c), true, _) => r matches Ok(x) && x@ == c,
                (_, _, Some(e)) => r matches Err(OauthError::Refused(x)) && x@ == e,
                (_, _, None) => if s is Some {
                    r matches Err(OauthError::StateMismatch)
                } else {
                    r matches Err(OauthError::Missing)
                },
            }
        },
    }
}

/// Reads a redirect: the code that it carries, if it belongs to the login with this state.
pub fn await_code(req: &str, state: &str) -> (r: Result<String, OauthError>)
    ensures
        redirected(req@, state@, r),
{
    let words = text::split_words(req);
    assert(text::texts(words@) == text::words(req@));
    if words.len() < 2 {
        return Err(OauthError::Malformed);
    }
    assert(target(req@) == Some(words@[1]@));
    let query = match text::split_once_at(words[1].as_str(), '?') {
        Some((_, q)) => q,
        None => String::new(),
    };
    let fs = split_fields(query.as_str());
    let code = find_value(&fs, "code");
    let said = find_value(&fs, "state");
    let error = find_value(&fs, "error");
    let mine = match &said {
        Some(s) => text::same(s.as_str(), state),
        None => false,
    };
    match (code, mine, error) {
        (Some(c), true, _) => Ok(c),
        (_, _, Some(e)) => Err(OauthError::Refused(e)),
        (_, _, None) => if said.is_some() {
            Err(OauthError::StateMismatch)
        } else {
            Err(OauthError::Missing)
        },
    }
}

/// A redirect that does not carry the login's own state gives no code.
pub proof fn law_only_own_redirect(req: Seq<char>, state: Seq<char>, code: String)
    requires
        redirected(req, state, Ok(code)),
    ensures
        target(req) matches Some(t) && last_value(redirect_fields(t), "state"@) == Some(state)
            && last_value(redirect_fields(t), "code"@) == Some(code@),
{
}

/// The page that the browser is left with.
pub open spec fn page(ok: bool) -> Seq<char> {
    if ok {
        "<h1>Logged in ✓</h1><p>You can close this tab and return to UnityLAN.</p>"@
    } else {
        "<h1>Login failed</h1><p>You can close this tab.</p>"@
    }
}

/// How many bytes the page has on its way.
pub open spec fn page_bytes(ok: bool) -> nat {
    vstd::utf8::encode_utf8(page(ok)).len()
}

/// What the browser is answered.
pub fn redirect_reply(ok: bool) -> (r: String)
    ensures
        r@
            == "HTTP/1.1 200 OK\r\nContent-Type: text/html; charset=utf-8\r\nContent-Length: "@
            + text::dec(page_bytes(ok)) + "\r\nConnection: close\r\n\r\n"@ + page(ok),
{
    let body = if ok {
        "<h1>Logged in ✓</h1><p>You can close this tab and return to UnityLAN.</p>"
    } else {
        "<h1>Login failed</h1><p>You can close this tab.</p>"
    };
    let mut t =
        "HTTP/1.1 200 OK\r\nContent-Type: text/html; charset=utf-8\r\nContent-Length: ".to_owned();
    t.append(text::decimal(body.as_bytes().len() as u64).as_str());
    t.append("\r\nConnection: close\r\n\r\n");
    t.append(body);
    t
}

/// How the code becomes a token.
pub enum TokenStep {
    /// The code is the token.
    Use(String),
    /// The code is redeemed, with this form.
    Redeem(Vec<(String, String)>),
}

impl Login {
    /// What a code is redeemed with: the secret itself stands for a client's password.
    pub open spec fn redemption(&self, code: Seq<char>) -> Seq<(Seq<char>, Seq<char>)> {
        seq![
            ("client_id"@, self.client_id@),
            ("grant_type"@, "authorization_code"@),
            ("code"@, code),
            ("redirect_uri"@, self.redirect_uri@),
            ("code_verifier"@, self.verifier@),
        ]
    }

    /// What a code is redeemed with.
    pub fn exchange(&self, code: &str) -> (r: Vec<(String, String)>)
        ensures
            url::param_views(r@) == self.redemption(code@),
    {
        let mut v: Vec<(String, String)> = Vec::new();
        assert(url::param_views(v@) =~= seq![]);
        push_param(&mut v, "client_id", self.client_id.as_str());
        push_param(&mut v, "grant_type", "authorization_code");
        push_param(&mut v, "code", code);
        push_param(&mut v, "redirect_uri", self.redirect_uri.as_str());
        push_param(&mut v, "code_verifier", self.verifier.as_str());
        assert(url::param_views(v@) =~= self.redemption(code@));
        v
    }

    /// What follows the redirect: the code is redeemed, or used as it is with a coordinator that takes
    /// it so.
    pub fn complete(&self, req: &str) -> (r: Result<TokenStep, OauthError>)
        ensures
            match r {
                Ok(TokenStep::Use(c)) => self.fake && redirected(req@, self.state@, Ok(c)),
                Ok(TokenStep::Redeem(f)) => !self.fake && exists|c: String|
                    redirected(req@, self.state@, Ok(c)) && url::param_views(f@)
                        == #[trigger] self.redemption(c@),
                Err(e) => redirected(req@, self.state@, Err(e)),
            },
    {
        match await_code(req, self.state.as_str()) {
            Ok(c) => {
                if self.fake {
                    Ok(TokenStep::Use(c))
                } else {
                    let f = self.exchange(c.as_str());
                    assert(url::param_views(f@) == self.redemption(c@));
                    Ok(TokenStep::Redeem(f))
                }
            },
            Err(e) => Err(e),
        }
    }
}

/// A login asks for a code for this client, to be sent to the redirect, for no more than who the user
/// is, under the state and against the hash of the secret.
pub proof fn law_what_a_login_asks_for(
    client_id: Seq<char>,
    redirect_uri: Seq<char>,
    state: Seq<char>,
    verifier: Seq<char>,
)
    ensures
        ({
            let p = authorize_params(client_id, redirect_uri, state, challenge(verifier));
            &&& p.len() == 7
            &&& p[0] == ("client_id"@, client_id)
            &&& p[1] == ("redirect_uri"@, redirect_uri)
            &&& p[2] == ("response_type"@, "code"@)
            &&& p[3] == ("scope"@, "identify"@)
            &&& p[4] == ("state"@, state)
            &&& p[5] == ("code_challenge"@, base64_url_text(sha256_of(verifier)))
            &&& p[6] == ("code_challenge_method"@, "S256"@)
        }),
{
}

/// A code is redeemed by the client that asked for it, with the redirect that it was sent to and the
/// secret whose hash was shown.
pub proof fn law_what_a_code_is_redeemed_with(l: Login, code: Seq<char>)
    ensures
        ({
            let p = l.redemption(code);
            &&& p.len() == 5
            &&& p[0] == ("client_id"@, l.client_id@)
            &&& p[1] == ("grant_type"@, "authorization_code"@)
            &&& p[2] == ("code"@, code)
            &&& p[3] == ("redirect_uri"@, l.redirect_uri@)
            &&& p[4] == ("code_verifier"@, l.verifier@)
        }),
{
}

/// Where a login listens: on this host alone, at the port that the redirect names; a redirect that is no
/// URL, names no port, or leads elsewhere is refused.
pub proof fn law_where_a_login_listens(
    redirect_uri: Seq<char>,
    u: url::UrlView,
    r: Result<Endpoint, OauthError>,
)
    ensures
        listens(redirect_uri, None, r) ==> r is Err && r->Err_0 is NotAUrl,
        u.port is None && listens(redirect_uri, Some(u), r) ==> r is Err && r->Err_0 is NoPort,
        u.port is Some && (u.host is None || u.host->0 == "127.0.0.1"@ || u.host->0
            == "localhost"@) ==> (listens(redirect_uri, Some(u), r) <==> {
            &&& r matches Ok(e)
            &&& e.port == u.port->0
            &&& e.ip == crate::net::Ip::V4(0x7f00_0001)
        }),
        u.port is Some && u.host is Some && u.host->0 != "127.0.0.1"@ && u.host->0
            != "localhost"@ && listens(redirect_uri, Some(u), r) ==> r is Err
            && r->Err_0 is NotLoopback && r->Err_0->NotLoopback_0@ == u.host->0,
{
    assert(crate::net::v4_number(127, 0, 0, 1) == 2130706433u32);
}

/// The fields of a redirect stand between ampersands.
pub proof fn law_fields_one_by_one(a: Seq<char>, b: Seq<char>)
    requires
        !a.contains('&'),
    ensures
        fields(a) == seq![a],
        fields(a + seq!['&'] + b) == seq![a] + fields(b),
{
    text::law_split_at_the_first(a, b, '&');
}

/// The value of a field stands behind the first equals sign; of several with a name the last counts, and
/// one without the sign has none.
pub proof fn law_value_of_a_field(
    fs: Seq<Seq<char>>,
    k: Seq<char>,
    n: Seq<char>,
    v: Seq<char>,
)
    requires
        !n.contains('='),
    ensures
        last_value(seq![], k) is None,
        last_value(fs.push(n + seq!['='] + v), n) == Some(v),
        n != k ==> last_value(fs.push(n + seq!['='] + v), k) == last_value(fs, k),
        last_value(fs.push(n), k) == last_value(fs, k),
{
    text::law_split_at_the_first(n, v, '=');
    assert(fs.push(n + seq!['='] + v).drop_last() =~= fs);
    assert(fs.push(n).drop_last() =~= fs);
}

/// What a redirect comes to: the code that it carries, if it carries the state of this login too; else
/// the error that it carries; else it is told whether it is another login's or carries nothing.
pub proof fn law_what_a_redirect_comes_to(
    req: Seq<char>,
    state: Seq<char>,
    t: Seq<char>,
    r: Result<String, OauthError>,
)
    requires
        redirected(req, state, r),
    ensures
        text::words(req).len() < 2 ==> r is Err && r->Err_0 is Malformed,
        text::words(req).len() >= 2 && text::words(req)[1] == t ==> {
            let fs = redirect_fields(t);
            let code = last_value(fs, "code"@);
            let error = last_value(fs, "error"@);
            let mine = last_value(fs, "state"@);
            &&& code is Some && mine == Some(state) ==> r is Ok && r->Ok_0@ == code->0
            &&& !(code is Some && mine == Some(state)) ==> r is Err && if error is Some {
                r->Err_0 is Refused && r->Err_0->Refused_0@ == error->0
            } else if mine is Some {
                r->Err_0 is StateMismatch
            } else {
                r->Err_0 is Missing
            }
        },
{
}

/// The fields of a redirect are those behind the first question mark.
pub proof fn law_fields_behind_the_question_mark(path: Seq<char>, q: Seq<char>)
    requires
        !path.contains('?'),
    ensures
        redirect_fields(path + seq!['?'] + q) == fields(q),
        redirect_fields(path) == seq![Seq::<char>::empty()],
{
    text::law_split_at_the_first(path, q, '?');
    let none = Seq::<char>::empty();
    assert(!none.contains('&'));
    text::law_split_at_the_first(none, none, '&');
    assert(fields(none) == seq![none]);
}

/// Enough of a redirect is read once an empty line ends its headers.
pub proof fn law_headers_end_at_an_empty_line(a: Seq<u8>, b: Seq<u8>)
    ensures
        has_blank(a + seq![13u8, 10u8, 13u8, 10u8] + b),
        has_blank(a) <==> exists|i: int|
            0 <= i <= a.len() - 4 && #[trigger] a.subrange(i, i + 4) == seq![
                13u8,
                10u8,
                13u8,
                10u8,
            ],
{
    let s = a + seq![13u8, 10u8, 13u8, 10u8] + b;
    assert(blank_at(s, a.len() as int));
    let end = seq![13u8, 10u8, 13u8, 10u8];
    if has_blank(a) {
        let i = choose|i: int| 0 <= i <= a.len() - 4 && #[trigger] blank_at(a, i);
        assert(a.subrange(i, i + 4) =~= end);
    }
    if exists|i: int| 0 <= i <= a.len() - 4 && #[trigger] a.subrange(i, i + 4) == end {
        let i = choose|i: int| 0 <= i <= a.len() - 4 && #[trigger] a.subrange(i, i + 4) == end;
        let w = a.subrange(i, i + 4);
        assert(w[0] == a[i] && w[1] == a[i + 1] && w[2] == a[i + 2] && w[3] == a[i + 3]);
        assert(blank_at(a, i));
    }
}

/// What is said of a login that fails.
pub proof fn law_what_is_said_of_a_login(u: String, h: String, e: String)
    ensures
        OauthError::NotAUrl(u).text() == "parsing oauth_redirect "@ + text::debug_text(u@),
        OauthError::NoPort(u).text() == "oauth_redirect "@ + text::debug_text(u@)
            + " must include an explicit port"@,
        OauthError::NotLoopback(h).text()
            == "oauth_redirect must be a loopback address (127.0.0.1/localhost), got "@
            + text::debug_text(h@),
        OauthError::NoAuthorizeUrl.text() == "valid authorize url"@,
        OauthError::Malformed.text() == "malformed redirect request"@,
        OauthError::Refused(e).text() == "Discord returned error: "@ + e@,
        OauthError::StateMismatch.text()
            == "OAuth state mismatch (possible CSRF); login aborted"@,
        OauthError::Missing.text() == "redirect missing code/state"@,
        page(true) == "<h1>Logged in ✓</h1><p>You can close this tab and return to UnityLAN.</p>"@,
        page(false) == "<h1>Login failed</h1><p>You can close this tab.</p>"@,
{
}

} // verus!
