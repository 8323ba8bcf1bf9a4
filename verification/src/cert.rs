//! Publicly trusted certificates for a device's own names.
//!
//! Which names a certificate covers, when one is ordered or renewed and when it is better left alone,
//! what an ACME order's authorizations call for, and what a certificate's issuance or failure leaves
//! behind. Talking to the CA and to the disk is the caller's.
use crate::assoc::Assoc;
use crate::text;
use vstd::arithmetic::power2::*;
use vstd::prelude::*;
use vstd::string::*;

verus! {

/// The CA directory used unless configured otherwise.
pub const DEFAULT_DIRECTORY: &'static str = "https://acme-v02.api.letsencrypt.org/directory";

/// A certificate is renewed when it has less than this many seconds left.
pub const RENEW_BEFORE: u64 = 2_592_000;

/// How long a changed set of names must hold still before it is worth a certificate, in seconds.
pub const SETTLE: u64 = 600;

/// The longest wait after failures, in seconds.
pub const BACKOFF_MAX: u64 = 86_400;

/// The suffix of every mesh name, with its dot.
pub open spec fn mesh_suffix() -> Seq<char> {
    ".unity.internal"@
}

/// The names that one certificate covers.
pub struct CertNames {
    pub device: String,
    pub primary: Option<String>,
    pub services: Vec<String>,
}

/// The model of a certificate's names.
#[verifier::ext_equal]
pub struct NamesView {
    pub device: Seq<char>,
    pub primary: Option<Seq<char>>,
    pub services: Seq<Seq<char>>,
}

impl View for CertNames {
    type V = NamesView;

    open spec fn view(&self) -> NamesView {
        NamesView {
            device: self.device@,
            primary: text::opt_text(self.primary),
            services: text::texts(self.services@),
        }
    }
}

/// A mesh name under the public domain, in lower case; `None` for a name outside the mesh.
pub open spec fn swapped(name: Seq<char>, domain: Seq<char>) -> Option<Seq<char>> {
    let t = text::trim_end(name, '.');
    if text::ends_with(t, mesh_suffix()) {
        Some(text::lower(t.take(t.len() - mesh_suffix().len()) + "."@ + domain))
    } else {
        None
    }
}

/// A service's name: its label under the user, in lower case.
pub open spec fn service_name(label: Seq<char>, user: Seq<char>) -> Seq<char> {
    text::lower(label + "."@ + user)
}

/// The names that a device's certificate covers; `None` when the device has no mesh name.
pub open spec fn names_for(
    hostname: Seq<char>,
    primary_alias: Option<Seq<char>>,
    domain: Seq<char>,
    services: Seq<Seq<char>>,
) -> Option<NamesView> {
    match swapped(hostname, domain) {
        None => None,
        Some(device) => match text::split_once(device, '.') {
            None => None,
            Some((_, user)) => Some(
                NamesView {
                    device,
                    primary: match primary_alias {
                        Some(a) => swapped(a, domain),
                        None => None,
                    },
                    services: services.map_values(|l: Seq<char>| service_name(l, user)),
                },
            ),
        },
    }
}

impl NamesView {
    /// The wildcard below the device.
    pub open spec fn wildcard(self) -> Seq<char> {
        "*."@ + self.device
    }

    /// Every name, in the order in which they are requested.
    pub open spec fn all(self) -> Seq<Seq<char>> {
        seq![self.device, self.wildcard()] + (match self.primary {
            Some(p) => seq![p],
            None => seq![],
        }) + self.services
    }

    /// The label of one of the services, given its name.
    pub open spec fn service_label(self, name: Seq<char>) -> Option<Seq<char>> {
        if self.services.contains(name) {
            match text::split_once(name, '.') {
                Some((label, _)) => Some(label),
                None => None,
            }
        } else {
            None
        }
    }
}

/// A mesh name under the public domain, in lower case.
pub fn swap_suffix(name: &str, domain: &str) -> (r: Option<String>)
    ensures
        text::opt_text(r) == swapped(name@, domain@),
{
    let t = text::trim_end_of(name, '.');
    match text::strip_suffix(t.as_str(), ".unity.internal") {
        Some(stem) => {
            let mut full = stem;
            full.append(".");
            full.append(domain);
            Some(text::to_lower(full.as_str()))
        },
        None => None,
    }
}

impl CertNames {
    /// The names that a device's certificate covers: its own, its user's when it is the primary
    /// device, and its web services', which stand under the user.
    pub fn new(
        hostname: &str,
        primary_alias: Option<&str>,
        domain: &str,
        services: &[String],
    ) -> (r: Option<CertNames>)
        ensures
            match r {
                Some(n) => names_for(
                    hostname@,
                    text::opt_str(primary_alias),
                    domain@,
                    text::texts(services@),
                ) == Some(n@),
                None => names_for(
                    hostname@,
                    text::opt_str(primary_alias),
                    domain@,
                    text::texts(services@),
                ) is None,
            },
    {
        let device = match swap_suffix(hostname, domain) {
            Some(d) => d,
            None => {
                return None;
            },
        };
        let user = match text::split_once_at(device.as_str(), '.') {
            Some((_, rest)) => rest,
            None => {
                return None;
            },
        };
        let primary = match primary_alias {
            Some(a) => swap_suffix(a, domain),
            None => None,
        };
        let mut named: Vec<String> = Vec::new();
        let ghost want = text::texts(services@).map_values(|l: Seq<char>| service_name(l, user@));
        let mut i: usize = 0;
        while i < services.len()
            invariant
                i <= services.len(),
                want == text::texts(services@).map_values(|l: Seq<char>| service_name(l, user@)),
                text::texts(named@) == want.take(i as int),
            decreases services.len() - i,
        {
            let mut full = services[i].clone();
            full.append(".");
            full.append(user.as_str());
            let ghost before = text::texts(named@);
            let low = text::to_lower(full.as_str());
            assert(low@ == want[i as int]);
            named.push(low);
            assert(text::texts(named@) =~= before.push(low@));
            assert(want.take(i + 1) =~= want.take(i as int).push(want[i as int]));
            i += 1;
        }
        assert(want.take(i as int) =~= want);
        Some(CertNames { device, primary, services: named })
    }

    /// The wildcard below the device.
    pub fn wildcard(&self) -> (r: String)
        ensures
            r@ == self@.wildcard(),
    {
        let mut w = "*.".to_owned();
        w.append(self.device.as_str());
        w
    }

    /// Every name, in the order in which they are requested.
    pub fn all(&self) -> (r: Vec<String>)
        ensures
            text::texts(r@) == self@.all(),
    {
        let mut out: Vec<String> = Vec::new();
        out.push(self.device.clone());
        out.push(self.wildcard());
        assert(text::texts(out@) =~= seq![self@.device, self@.wildcard()]);
        match &self.primary {
            Some(p) => {
                out.push(p.clone());
                assert(text::texts(out@) =~= seq![self@.device, self@.wildcard()] + seq![p@]);
            },
            None => {
                assert(text::texts(out@) =~= seq![self@.device, self@.wildcard()] + Seq::<
                    Seq<char>,
                >::empty());
            },
        }
        let ghost head = text::texts(out@);
        let ghost sv = text::texts(self.services@);
        let mut i: usize = 0;
        assert(head + sv.take(0) =~= head);
        while i < self.services.len()
            invariant
                i <= self.services.len(),
                sv == text::texts(self.services@),
                text::texts(out@) == head + sv.take(i as int),
            decreases self.services.len() - i,
        {
            let ghost before = text::texts(out@);
            out.push(self.services[i].clone());
            assert(text::texts(out@) =~= before.push(sv[i as int]));
            assert(head + sv.take(i + 1) =~= (head + sv.take(i as int)).push(sv[i as int]));
            i += 1;
        }
        assert(sv.take(i as int) =~= sv);
        out
    }

    /// The label of one of the services, given its name.
    pub fn service_label(&self, name: &str) -> (r: Option<String>)
        ensures
            text::opt_text(r) == self@.service_label(name@),
    {
        if !text::list_has(&self.services, name) {
            return None;
        }
        match text::split_once_at(name, '.') {
            Some((label, _)) => Some(label),
            None => None,
        }
    }

    /// Whether two sets of names are the same.
    pub fn same(&self, other: &CertNames) -> (r: bool)
        ensures
            r == (self@ == other@),
    {
        self.device == other.device && text::same_opt(&self.primary, &other.primary)
            && text::same_list(&self.services, &other.services)
    }

    /// A copy of the names.
    pub fn copy(&self) -> (r: CertNames)
        ensures
            r@ == self@,
    {
        CertNames {
            device: self.device.clone(),
            primary: self.primary.clone(),
            services: text::copy_list(&self.services),
        }
    }
}

/// What the issuance of certificates has led to so far.
pub struct IssuedState {
    /// What the held certificate was issued for.
    pub names: Option<CertNames>,
    pub expires_at: u64,
    pub last_failure: u64,
    /// Consecutive failures.
    pub failures: u32,
    /// Since when the wanted names differ from the held ones; 0 when they do not.
    pub pending_since: u64,
}

/// The model of an optional set of names.
pub open spec fn opt_names(n: Option<CertNames>) -> Option<NamesView> {
    match n {
        Some(x) => Some(x@),
        None => None,
    }
}

/// The seconds to wait after this many consecutive failures: doubling from ten minutes to a day.
pub open spec fn backoff_secs(failures: nat) -> nat {
    if failures == 0 {
        0
    } else if 300 * pow2(failures) < BACKOFF_MAX {
        300 * pow2(failures)
    } else {
        BACKOFF_MAX as nat
    }
}

impl IssuedState {
    /// Nothing issued yet.
    pub fn new() -> (r: IssuedState)
        ensures
            r.names is None,
            r.expires_at == 0,
            r.last_failure == 0,
            r.failures == 0,
            r.pending_since == 0,
    {
        IssuedState { names: None, expires_at: 0, last_failure: 0, failures: 0, pending_since: 0 }
    }

    /// The seconds to wait after the failures so far.
    pub fn backoff(&self) -> (r: u64)
        ensures
            r == backoff_secs(self.failures as nat),
    {
        if self.failures == 0 {
            return 0;
        }
        let mut secs: u64 = 300;
        let mut n: u32 = 0;
        assert(pow2(0) == 1) by {
            lemma2_to64();
        }
        while n < self.failures && secs < BACKOFF_MAX
            invariant
                n <= self.failures,
                secs == 300 * pow2(n as nat),
                secs <= 2 * BACKOFF_MAX,
            decreases self.failures - n,
        {
            proof {
                lemma_pow2_unfold((n + 1) as nat);
            }
            secs = secs * 2;
            n += 1;
        }
        proof {
            if n < self.failures {
                lemma_pow2_strictly_increases(n as nat, self.failures as nat);
            }
        }
        if secs < BACKOFF_MAX {
            secs
        } else {
            BACKOFF_MAX
        }
    }
}

/// Waits only grow with the number of failures, and never exceed a day.
pub proof fn law_backoff_grows(a: nat, b: nat)
    requires
        a <= b,
    ensures
        backoff_secs(a) <= backoff_secs(b) <= BACKOFF_MAX,
{
    if 0 < a && a < b {
        lemma_pow2_strictly_increases(a, b);
    }
}

/// Where certificates and their keys are kept.
pub fn certs_dir(state_dir: &str) -> (r: String)
    ensures
        r@ == text::joined(state_dir@, "certs"@),
{
    text::join_path(state_dir, "certs")
}

/// Where the certificate is kept.
pub fn cert_path(state_dir: &str) -> (r: String)
    ensures
        r@ == text::joined(text::joined(state_dir@, "certs"@), "cert.pem"@),
{
    text::join_path(certs_dir(state_dir).as_str(), "cert.pem")
}

/// Where the certificate's key is kept.
pub fn key_path(state_dir: &str) -> (r: String)
    ensures
        r@ == text::joined(text::joined(state_dir@, "certs"@), "key.pem"@),
{
    text::join_path(certs_dir(state_dir).as_str(), "key.pem")
}

/// Where the account with the CA is kept.
pub fn account_path(state_dir: &str) -> (r: String)
    ensures
        r@ == text::joined(text::joined(state_dir@, "certs"@), "acme-account.json"@),
{
    text::join_path(certs_dir(state_dir).as_str(), "acme-account.json")
}

/// Where the issuance state is kept.
pub fn state_path(state_dir: &str) -> (r: String)
    ensures
        r@ == text::joined(text::joined(state_dir@, "certs"@), "issued.json"@),
{
    text::join_path(certs_dir(state_dir).as_str(), "issued.json")
}

/// The mode of a key that a group may read.
pub const GROUP_KEY_MODE: u32 = 0o640;

/// How the certificate's key is handed to a group.
pub struct KeyGrant {
    pub path: String,
    pub gid: u32,
    pub mode: u32,
}

/// Why a key is not handed to a group.
pub open spec fn grant_refusal(group: Seq<char>, acl_only: bool) -> Seq<char> {
    if acl_only {
        "[cert] group is unix-only; grant access with an ACL on the certs directory"@
    } else {
        "no such group "@ + text::debug_text(group) + " for the certificate key"@
    }
}

/// How the certificate's key is handed to a group, so that whatever serves TLS can read it. `gid` is
/// the group's number where there is such a group, and `acl_only` tells of a system without groups.
pub fn grant_key_group(state_dir: &str, group: &str, gid: Option<u32>, acl_only: bool) -> (r:
    Result<KeyGrant, String>)
    ensures
        match r {
            Ok(g) => !acl_only && gid == Some(g.gid) && g.mode == GROUP_KEY_MODE && g.path@
                == text::joined(text::joined(state_dir@, "certs"@), "key.pem"@),
            Err(t) => (acl_only || gid is None) && t@ == grant_refusal(group@, acl_only),
        },
{
    if acl_only {
        return Err(
            "[cert] group is unix-only; grant access with an ACL on the certs directory".to_owned(),
        );
    }
    match gid {
        Some(gid) => Ok(KeyGrant { path: key_path(state_dir), gid, mode: GROUP_KEY_MODE }),
        None => {
            let mut t = "no such group ".to_owned();
            t.append(text::quoted(group).as_str());
            t.append(" for the certificate key");
            Err(t)
        },
    }
}

/// How the command that makes a server read its certificate again ended.
pub enum Reloaded {
    Succeeded,
    /// It ended with this status.
    Failed(String),
    /// It did not end within so many seconds, and was killed.
    Outlived(u64),
}

/// What is said of a command that did not do its work.
pub open spec fn reload_trouble(program: Seq<char>, how: Reloaded) -> Option<Seq<char>> {
    match how {
        Reloaded::Succeeded => None,
        Reloaded::Failed(status) => Some(
            "the certificate reload command "@ + text::debug_text(program) + " exited with "@
                + status@,
        ),
        Reloaded::Outlived(secs) => Some(
            "the certificate reload command "@ + text::debug_text(program) + " outlived its "@
                + text::dec(secs as nat) + "s deadline and was killed"@,
        ),
    }
}

/// The program of a reload command and its arguments, which are run as they are and by no shell. There
/// is none where none is configured.
pub fn reload_command(argv: &Vec<String>) -> (r: Option<(String, Vec<String>)>)
    ensures
        match r {
            Some((p, a)) => argv@.len() > 0 && p@ == argv@[0]@ && text::texts(a@) == text::texts(
                argv@,
            ).skip(1),
            None => argv@.len() == 0,
        },
{
    if argv.len() == 0 {
        return None;
    }
    let ghost all = text::texts(argv@);
    let mut args: Vec<String> = Vec::new();
    let mut i: usize = 1;
    assert(text::texts(args@) =~= all.subrange(1, 1));
    while i < argv.len()
        invariant
            1 <= i <= argv.len(),
            all == text::texts(argv@),
            text::texts(args@) == all.subrange(1, i as int),
        decreases argv.len() - i,
    {
        text::push_text(&mut args, argv[i].clone());
        assert(text::texts(args@) =~= all.subrange(1, i + 1));
        i += 1;
    }
    assert(text::texts(args@) =~= all.skip(1));
    Some((argv[0].clone(), args))
}

/// What is said of a reload command that did not do its work.
pub fn run_reload(program: &str, how: Reloaded) -> (r: Option<String>)
    ensures
        text::opt_text(r) == reload_trouble(program@, how),
{
    match how {
        Reloaded::Succeeded => None,
        Reloaded::Failed(status) => {
            let mut t = "the certificate reload command ".to_owned();
            t.append(text::quoted(program).as_str());
            t.append(" exited with ");
            t.append(status.as_str());
            Some(t)
        },
        Reloaded::Outlived(secs) => {
            let mut t = "the certificate reload command ".to_owned();
            t.append(text::quoted(program).as_str());
            t.append(" outlived its ");
            t.append(text::decimal(secs).as_str());
            t.append("s deadline and was killed");
            Some(t)
        },
    }
}

/// How the CA sees one authorization of an order.
pub enum AuthzStatus {
    Pending,
    Valid,
    /// Neither, with what it is.
    Other(String),
}

/// One authorization of an order. Its challenge is the name that it is for and the value that is to
/// be published there; `None` when the CA offers no DNS challenge.
pub struct Authz {
    pub status: AuthzStatus,
    pub challenge: Option<(String, String)>,
}

/// The model of an authorization.
pub enum AuthzView {
    Pending(Option<(Seq<char>, Seq<char>)>),
    Valid,
    Other(Seq<char>),
}

impl View for Authz {
    type V = AuthzView;

    open spec fn view(&self) -> AuthzView {
        match self.status {
            AuthzStatus::Pending => AuthzView::Pending(
                match self.challenge {
                    Some((n, v)) => Some((n@, v@)),
                    None => None,
                },
            ),
            AuthzStatus::Valid => AuthzView::Valid,
            AuthzStatus::Other(s) => AuthzView::Other(s@),
        }
    }
}

/// The models of a list of authorizations.
pub open spec fn authz_views(s: Seq<Authz>) -> Seq<AuthzView> {
    s.map_values(|a: Authz| a@)
}

/// The values to publish, by what they are for.
pub struct Challenges {
    /// For the device's own name and its wildcard, both of which the CA looks for at one name.
    pub device: Vec<String>,
    pub primary: Option<String>,
    /// For the services, by label.
    pub services: Assoc<String, String>,
}

/// The model of the values to publish.
#[verifier::ext_equal]
pub struct ChallengesView {
    pub device: Seq<Seq<char>>,
    pub primary: Option<Seq<char>>,
    pub services: Map<Seq<char>, Seq<char>>,
}

impl View for Challenges {
    type V = ChallengesView;

    open spec fn view(&self) -> ChallengesView {
        ChallengesView {
            device: text::texts(self.device@),
            primary: text::opt_text(self.primary),
            services: self.services@.map_values(|v: String| v@),
        }
    }
}

/// Why an order cannot go on.
pub enum IssueError {
    /// An authorization is neither pending nor valid.
    Status(String),
    /// The CA offers no DNS challenge for an authorization.
    NoDns01,
    /// The CA asks for a name that was not ordered.
    NotOrdered(String),
    /// The CA raised more challenges for the device's name than the coordinator takes.
    TooMany(usize),
}

/// The model of why an order cannot go on.
pub enum IssueErrorView {
    Status(Seq<char>),
    NoDns01,
    NotOrdered(Seq<char>),
    TooMany(nat),
}

impl View for IssueError {
    type V = IssueErrorView;

    open spec fn view(&self) -> IssueErrorView {
        match self {
            IssueError::Status(s) => IssueErrorView::Status(s@),
            IssueError::NoDns01 => IssueErrorView::NoDns01,
            IssueError::NotOrdered(s) => IssueErrorView::NotOrdered(s@),
            IssueError::TooMany(n) => IssueErrorView::TooMany(*n as nat),
        }
    }
}

/// What an order calls for next.
pub enum IssuePlan {
    /// Every authorization is valid already.
    Finalize,
    /// Publish these values, then have the CA check them.
    Publish(Challenges),
}

/// No values yet.
pub open spec fn no_challenges() -> ChallengesView {
    ChallengesView { device: seq![], primary: None, services: Map::empty() }
}

/// The values collected with one more challenge; an error when its name was not ordered.
pub open spec fn with_challenge(
    names: NamesView,
    c: ChallengesView,
    name: Seq<char>,
    value: Seq<char>,
) -> Result<ChallengesView, IssueErrorView> {
    if name == names.device || name == names.wildcard() {
        Ok(ChallengesView { device: c.device.push(value), ..c })
    } else if names.primary == Some(name) {
        Ok(ChallengesView { primary: Some(value), ..c })
    } else {
        match names.service_label(name) {
            Some(label) => Ok(ChallengesView { services: c.services.insert(label, value), ..c }),
            None => Err(IssueErrorView::NotOrdered(name)),
        }
    }
}

/// The values collected from the authorizations in order, up to the first that fails.
pub open spec fn collected(names: NamesView, authzs: Seq<AuthzView>) -> Result<
    ChallengesView,
    IssueErrorView,
>
    decreases authzs.len(),
{
    if authzs.len() == 0 {
        Ok(no_challenges())
    } else {
        match collected(names, authzs.drop_last()) {
            Err(e) => Err(e),
            Ok(c) => match authzs.last() {
                AuthzView::Valid => Ok(c),
                AuthzView::Other(s) => Err(IssueErrorView::Status(s)),
                AuthzView::Pending(None) => Err(IssueErrorView::NoDns01),
                AuthzView::Pending(Some((name, value))) => with_challenge(names, c, name, value),
            },
        }
    }
}

proof fn lemma_collected_stops(names: NamesView, authzs: Seq<AuthzView>, k: int)
    requires
        0 <= k <= authzs.len(),
        collected(names, authzs.take(k)) is Err,
    ensures
        collected(names, authzs) == collected(names, authzs.take(k)),
    decreases authzs.len() - k,
{
    if k < authzs.len() {
        assert(authzs.take(k + 1).drop_last() =~= authzs.take(k));
        lemma_collected_stops(names, authzs, k + 1);
    } else {
        assert(authzs.take(k) =~= authzs);
    }
}

/// Collects the values that an order's authorizations call for.
pub fn collect(names: &CertNames, authzs: &Vec<Authz>) -> (r: Result<Challenges, IssueError>)
    ensures
        match r {
            Ok(c) => c.services.wf() && collected(names@, authz_views(authzs@)) == Ok::<
                ChallengesView,
                IssueErrorView,
            >(c@),
            Err(e) => collected(names@, authz_views(authzs@)) == Err::<
                ChallengesView,
                IssueErrorView,
            >(e@),
        },
{
    let ghost az = authz_views(authzs@);
    let wildcard = names.wildcard();
    let mut out = Challenges { device: Vec::new(), primary: None, services: Assoc::new() };
    assert(out@.device =~= seq![]);
    assert(out@.services =~= Map::<Seq<char>, Seq<char>>::empty());
    let mut i: usize = 0;
    assert(az.take(0) =~= seq![]);
    while i < authzs.len()
        invariant
            i <= authzs.len(),
            az == authz_views(authzs@),
            wildcard@ == names@.wildcard(),
            out.services.wf(),
            collected(names@, az.take(i as int)) == Ok::<ChallengesView, IssueErrorView>(out@),
        decreases authzs.len() - i,
    {
        let ghost c = out@;
        proof {
            assert(az.take(i + 1).drop_last() =~= az.take(i as int));
            assert(az.take(i + 1).last() == authzs@[i as int]@);
            if collected(names@, az.take(i + 1)) is Err {
                lemma_collected_stops(names@, az, i + 1);
            }
        }
        match &authzs[i].status {
            AuthzStatus::Valid => {},
            AuthzStatus::Other(s) => {
                return Err(IssueError::Status(s.clone()));
            },
            AuthzStatus::Pending => {
                match &authzs[i].challenge {
                    None => {
                        return Err(IssueError::NoDns01);
                    },
                    Some((name, value)) => {
                        if *name == names.device || *name == wildcard {
                            out.device.push(value.clone());
                            assert(out@.device =~= c.device.push(value@));
                            assert(out@ =~= ChallengesView { device: c.device.push(value@), ..c });
                        } else if text::same_opt(&Some(name.clone()), &names.primary) {
                            out.primary = Some(value.clone());
                        } else {
                            match names.service_label(name.as_str()) {
                                Some(label) => {
                                    let ghost m = out.services@;
                                    let ghost lab = label@;
                                    out.services.insert(label, value.clone());
                                    assert(out@.services =~= c.services.insert(lab, value@));
                                },
                                None => {
                                    return Err(IssueError::NotOrdered(name.clone()));
                                },
                            }
                        }
                    },
                }
            },
        }
        i += 1;
    }
    assert(az.take(i as int) =~= az);
    Ok(out)
}

/// What an order's authorizations call for, given how many values the coordinator takes for one
/// device's name.
pub open spec fn order_plan(
    names: NamesView,
    authzs: Seq<AuthzView>,
    max_device: nat,
) -> Result<Option<ChallengesView>, IssueErrorView> {
    match collected(names, authzs) {
        Err(e) => Err(e),
        Ok(c) => if nothing_to_publish(c) {
            Ok(None)
        } else if c.device.len() > max_device {
            Err(IssueErrorView::TooMany(c.device.len()))
        } else {
            Ok(Some(c))
        },
    }
}

/// Decides what an order calls for: finalizing it, or publishing the values of every pending
/// authorization in one request, since the coordinator charges its budget per request.
pub fn issue(names: &CertNames, authzs: &Vec<Authz>, max_device: usize) -> (r: Result<
    IssuePlan,
    IssueError,
>)
    ensures
        match r {
            Ok(IssuePlan::Finalize) => order_plan(names@, authz_views(authzs@), max_device as nat)
                == Ok::<Option<ChallengesView>, IssueErrorView>(None),
            Ok(IssuePlan::Publish(c)) => c.services.wf() && order_plan(
                names@,
                authz_views(authzs@),
                max_device as nat,
            ) == Ok::<Option<ChallengesView>, IssueErrorView>(Some(c@)),
            Err(e) => order_plan(names@, authz_views(authzs@), max_device as nat) == Err::<
                Option<ChallengesView>,
                IssueErrorView,
            >(e@),
        },
{
    match collect(names, authzs) {
        Err(e) => Err(e),
        Ok(c) => {
            assert(c@.services.dom() =~= c.services@.dom());
            let n: usize = c.services.len();
            if c.device.len() == 0 && n == 0 && c.primary.is_none() {
                Ok(IssuePlan::Finalize)
            } else if c.device.len() > max_device {
                Err(IssueError::TooMany(c.device.len()))
            } else {
                Ok(IssuePlan::Publish(c))
            }
        },
    }
}

/// Whether nothing is to be published.
pub open spec fn nothing_to_publish(c: ChallengesView) -> bool {
    c.device.len() == 0 && c.services.dom().len() == 0 && c.primary is None
}

proof fn lemma_collects_what_is_pending(names: NamesView, authzs: Seq<AuthzView>)
    ensures
        collected(names, authzs) matches Ok(c) ==> c.services.dom().finite() && (
        nothing_to_publish(c) <==> forall|i: int|
            0 <= i < authzs.len() ==> (#[trigger] authzs[i]) is Valid),
    decreases authzs.len(),
{
    if authzs.len() > 0 && collected(names, authzs) is Ok {
        let front = authzs.drop_last();
        lemma_collects_what_is_pending(names, front);
        let c = collected(names, front)->Ok_0;
        let d = collected(names, authzs)->Ok_0;
        if authzs.last() is Valid {
            if nothing_to_publish(d) {
                assert forall|i: int| 0 <= i < authzs.len() implies (
                #[trigger] authzs[i]) is Valid by {
                    if i < front.len() {
                        assert(front[i] is Valid);
                    }
                }
            } else {
                let i = choose|i: int| 0 <= i < front.len() && !((#[trigger] front[i]) is Valid);
                assert(!(authzs[i] is Valid));
            }
        } else {
            assert(!(authzs[authzs.len() - 1] is Valid));
            if let AuthzView::Pending(Some((name, value))) = authzs.last() {
                if let Some(label) = names.service_label(name) {
                    assert(c.services.insert(label, value).dom().contains(label));
                    assert(c.services.insert(label, value).dom().len() > 0) by {
                        vstd::set_lib::lemma_set_empty_equivalency_len(
                            c.services.insert(label, value).dom(),
                        );
                    }
                }
            }
        }
    }
}

/// An order is finalized as it is if and only if every one of its authorizations is valid: whatever is
/// pending is published first.
pub proof fn law_finalizes_only_what_is_valid(
    names: NamesView,
    authzs: Seq<AuthzView>,
    max_device: nat,
)
    ensures
        order_plan(names, authzs, max_device) == Ok::<Option<ChallengesView>, IssueErrorView>(None)
            <==> forall|i: int| 0 <= i < authzs.len() ==> (#[trigger] authzs[i]) is Valid,
{
    lemma_collects_what_is_pending(names, authzs);
    if forall|i: int| 0 <= i < authzs.len() ==> (#[trigger] authzs[i]) is Valid {
        lemma_all_valid(names, authzs);
    }
}

proof fn lemma_all_valid(names: NamesView, authzs: Seq<AuthzView>)
    requires
        forall|i: int| 0 <= i < authzs.len() ==> (#[trigger] authzs[i]) is Valid,
    ensures
        collected(names, authzs) == Ok::<ChallengesView, IssueErrorView>(no_challenges()),
    decreases authzs.len(),
{
    if authzs.len() > 0 {
        assert forall|i: int| 0 <= i < authzs.drop_last().len() implies (
        #[trigger] authzs.drop_last()[i]) is Valid by {
            assert(authzs[i] is Valid);
        }
        lemma_all_valid(names, authzs.drop_last());
        assert(authzs[authzs.len() - 1] is Valid);
    }
}

/// Whether a name is the device's own, or its wildcard.
pub open spec fn is_devices(names: NamesView, name: Seq<char>) -> bool {
    name == names.device || name == names.wildcard()
}

/// Whether the value for a name is among those to publish, in the place of the name.
pub open spec fn published_for(
    names: NamesView,
    c: ChallengesView,
    name: Seq<char>,
    value: Seq<char>,
) -> bool {
    if is_devices(names, name) {
        c.device.contains(value)
    } else if names.primary == Some(name) {
        c.primary == Some(value)
    } else {
        names.service_label(name) matches Some(l) && c.services.contains_key(l) && c.services[l]
            == value
    }
}

/// Whether the value of an authorization takes the place of a value for `name`: it is for the same
/// place, which is not the device's, where there is room for more than one.
pub open spec fn supersedes(names: NamesView, a: AuthzView, name: Seq<char>) -> bool {
    &&& !is_devices(names, name)
    &&& a matches AuthzView::Pending(Some((other, _)))
    &&& !is_devices(names, other)
    &&& if names.primary == Some(name) {
        other == name
    } else {
        names.primary != Some(other) && names.service_label(other) == names.service_label(name)
    }
}

/// One request carries the value of every pending authorization: a value of the device's own name
/// always, and another's as long as no later one is for the same place, of which an order has one
/// each.
pub proof fn law_publishes_every_pending_value(
    names: NamesView,
    authzs: Seq<AuthzView>,
    max_device: nat,
    i: int,
    name: Seq<char>,
    value: Seq<char>,
)
    requires
        0 <= i < authzs.len(),
        authzs[i] == AuthzView::Pending(Some((name, value))),
        forall|j: int| i < j < authzs.len() ==> !supersedes(names, #[trigger] authzs[j], name),
    ensures
        order_plan(names, authzs, max_device) matches Ok(plan) ==> plan matches Some(c)
            && published_for(names, c, name, value),
{
    if order_plan(names, authzs, max_device) is Ok {
        lemma_collects_what_is_pending(names, authzs);
        assert(!(authzs[i] is Valid));
        lemma_value_is_collected(names, authzs, i, name, value);
    }
}

proof fn lemma_value_is_collected(
    names: NamesView,
    authzs: Seq<AuthzView>,
    i: int,
    name: Seq<char>,
    value: Seq<char>,
)
    requires
        0 <= i < authzs.len(),
        authzs[i] == AuthzView::Pending(Some((name, value))),
        forall|j: int| i < j < authzs.len() ==> !supersedes(names, #[trigger] authzs[j], name),
        collected(names, authzs) is Ok,
    ensures
        published_for(names, collected(names, authzs)->Ok_0, name, value),
    decreases authzs.len(),
{
    let front = authzs.drop_last();
    let c = collected(names, front)->Ok_0;
    if i == authzs.len() - 1 {
        if is_devices(names, name) {
            assert(c.device.push(value)[c.device.len() as int] == value);
        }
    } else {
        assert forall|j: int| i < j < front.len() implies !supersedes(
            names,
            #[trigger] front[j],
            name,
        ) by {
            assert(front[j] == authzs[j]);
        }
        lemma_value_is_collected(names, front, i, name, value);
        assert(!supersedes(names, authzs[authzs.len() - 1], name));
        if is_devices(names, name) {
            let k = choose|k: int| 0 <= k < c.device.len() && c.device[k] == value;
            if let AuthzView::Pending(Some((_, v))) = authzs.last() {
                assert(c.device.push(v)[k] == value);
            }
        }
    }
}

/// The seconds since the epoch at which the first certificate of a PEM text expires, when there is
/// one to read.
pub uninterp spec fn pem_expiry(pem: Seq<char>) -> Option<int>;

/// `x509_parser::pem::parse_x509_pem` and the `not_after` of the certificate that it finds. Claims
/// that the time depends on the text alone.
#[verifier::external_body]
fn read_expiry(pem: &str) -> (r: Option<i64>)
    ensures
        match r {
            Some(t) => pem_expiry(pem@) == Some(t as int),
            None => pem_expiry(pem@) is None,
        },
{
    let (_, pem) = x509_parser::pem::parse_x509_pem(pem.as_bytes()).ok()?;
    let cert = pem.parse_x509().ok()?;
    Some(cert.validity().not_after.timestamp())
}

/// When a certificate chain expires, in seconds since the epoch; an expiry before the epoch counts
/// as the epoch. `None` when the CA returned something unreadable.
pub fn not_after(chain_pem: &str) -> (r: Option<u64>)
    ensures
        match r {
            Some(t) => pem_expiry(chain_pem@) matches Some(e) && t == expiry_secs(e),
            None => pem_expiry(chain_pem@) is None,
        },
{
    match read_expiry(chain_pem) {
        Some(t) => Some(clamp_expiry(t)),
        None => None,
    }
}

/// An expiry as an unsigned time.
pub open spec fn expiry_secs(t: int) -> int {
    if t < 0 {
        0
    } else {
        t
    }
}

/// An expiry as an unsigned time.
pub fn clamp_expiry(t: i64) -> (r: u64)
    ensures
        r == expiry_secs(t as int),
{
    if t < 0 {
        0
    } else {
        t as u64
    }
}

/// What a reconcile goes by.
pub struct Reconcile<'a> {
    pub state_dir: &'a str,
    pub coordinator: &'a str,
    pub token: String,
    /// The configured CA directory.
    pub acme_directory: Option<&'a str>,
    pub hostname: &'a str,
    pub primary_alias: Option<&'a str>,
    /// The deployment's certificate domain, when it has one.
    pub dns_domain: Option<&'a str>,
    /// Whether the owner opted in.
    pub enabled: bool,
    /// Whether anything is listening.
    pub exposed: bool,
    /// The labels of the device's web services.
    pub services: Vec<String>,
}

impl<'a> Reconcile<'a> {
    /// The names wanted now; `None` without a domain or a mesh name.
    pub open spec fn wanted(&self) -> Option<NamesView> {
        match self.dns_domain {
            Some(d) => names_for(
                self.hostname@,
                text::opt_str(self.primary_alias),
                d@,
                text::texts(self.services@),
            ),
            None => None,
        }
    }
}

/// What to do about a certificate.
pub enum Action {
    /// Nothing, with what to tell the owner.
    Idle(Option<String>),
    /// Order one for these names.
    Issue(CertNames),
}

/// The model of what to do about a certificate.
pub enum ActionView {
    Idle(Option<Seq<char>>),
    Issue(NamesView),
}

impl View for Action {
    type V = ActionView;

    open spec fn view(&self) -> ActionView {
        match self {
            Action::Idle(why) => ActionView::Idle(text::opt_text(*why)),
            Action::Issue(n) => ActionView::Issue(n@),
        }
    }
}

/// When the wanted names stopped matching the held ones, as stamped at `now`.
pub open spec fn pending_stamp(
    wanted: Option<NamesView>,
    held: Option<NamesView>,
    pending_since: u64,
    now: u64,
) -> u64 {
    if (wanted is Some && wanted == held) || held is None {
        0
    } else if pending_since == 0 {
        now
    } else {
        pending_since
    }
}

/// Stamps when the wanted names stopped matching the held certificate, or clears the stamp. Returns
/// whether it moved, which is when the state wants saving.
pub fn note_pending(r: &Reconcile<'_>, state: &mut IssuedState, now: u64) -> (moved: bool)
    ensures
        final(state).pending_since == pending_stamp(
            r.wanted(),
            opt_names(old(state).names),
            old(state).pending_since,
            now,
        ),
        moved == (final(state).pending_since != old(state).pending_since),
        final(state).names == old(state).names,
        final(state).expires_at == old(state).expires_at,
        final(state).last_failure == old(state).last_failure,
        final(state).failures == old(state).failures,
{
    let wanted = match r.dns_domain {
        Some(d) => CertNames::new(r.hostname, r.primary_alias, d, &r.services),
        None => None,
    };
    let matched = match (&wanted, &state.names) {
        (Some(w), Some(h)) => w.same(h),
        _ => false,
    };
    let before: u64 = state.pending_since;
    if matched || state.names.is_none() {
        state.pending_since = 0;
    } else if state.pending_since == 0 {
        state.pending_since = now;
    }
    state.pending_since != before
}

/// The difference, or 0 when it would be negative.
pub open spec fn monus(a: int, b: int) -> int {
    if a > b {
        a - b
    } else {
        0
    }
}

/// The whole minutes in a number of seconds, at least one.
pub open spec fn minutes(secs: int) -> nat {
    if secs / 60 > 1 {
        (secs / 60) as nat
    } else {
        1
    }
}

/// The sum, or the largest time when it would be later.
pub open spec fn later(t: u64, secs: nat) -> int {
    if t + secs > u64::MAX {
        u64::MAX as int
    } else {
        t + secs
    }
}

/// What to do about a certificate.
pub open spec fn decision(r: Reconcile<'_>, state: IssuedState, now: u64) -> ActionView {
    if r.dns_domain is None || !r.enabled {
        ActionView::Idle(None)
    } else if r.wanted() is None {
        ActionView::Idle(Some("this device has no mesh name yet"@))
    } else {
        let held = opt_names(state.names) == r.wanted() && state.expires_at > now;
        let renew_due = monus(state.expires_at as int, now as int) < RENEW_BEFORE;
        let waited = monus(now as int, state.pending_since as int);
        let retry_at = later(state.last_failure, backoff_secs(state.failures as nat));
        if !r.exposed {
            if held {
                ActionView::Idle(
                    Some("no port is exposed, so this certificate will not be renewed"@),
                )
            } else {
                ActionView::Idle(
                    Some(
                        "expose a port first — a certificate is only useful if something is listening"@,
                    ),
                )
            }
        } else if held && !renew_due {
            ActionView::Idle(None)
        } else if !held && state.expires_at > now && !renew_due && waited < SETTLE {
            ActionView::Idle(
                Some(
                    "the services this certificate covers changed; reissuing in about "@ + text::dec(
                        minutes(SETTLE - waited),
                    )
                        + " minutes (batched, so naming a few in a row costs one certificate)"@,
                ),
            )
        } else if state.failures > 0 && now < retry_at {
            ActionView::Idle(
                Some(
                    "the last attempt failed; retrying in about "@ + text::dec(
                        minutes(retry_at - now),
                    ) + " minutes"@,
                ),
            )
        } else {
            ActionView::Issue(r.wanted()->0)
        }
    }
}

fn at_least_one(mins: u64) -> (r: u64)
    ensures
        r == (if mins > 1 {
            mins
        } else {
            1
        }),
{
    if mins > 1 {
        mins
    } else {
        1
    }
}

/// Decides what to do about a certificate, and says why when the answer is nothing.
pub fn decide(r: &Reconcile<'_>, state: &IssuedState, now: u64) -> (a: Action)
    ensures
        a@ == decision(*r, *state, now),
{
    let domain = match r.dns_domain {
        Some(d) => d,
        None => {
            return Action::Idle(None);
        },
    };
    if !r.enabled {
        return Action::Idle(None);
    }
    let names = match CertNames::new(r.hostname, r.primary_alias, domain, &r.services) {
        Some(n) => n,
        None => {
            return Action::Idle(Some("this device has no mesh name yet".to_owned()));
        },
    };
    let same = match &state.names {
        Some(h) => h.same(&names),
        None => false,
    };
    let held = same && state.expires_at > now;
    let left: u64 = if state.expires_at > now {
        state.expires_at - now
    } else {
        0
    };
    let renew_due = left < RENEW_BEFORE;
    if !r.exposed {
        return Action::Idle(
            Some(
                if held {
                    "no port is exposed, so this certificate will not be renewed".to_owned()
                } else {
                    "expose a port first — a certificate is only useful if something is listening".to_owned()
                },
            ),
        );
    }
    if held && !renew_due {
        return Action::Idle(None);
    }
    if !held && state.expires_at > now && !renew_due {
        let waited: u64 = if now > state.pending_since {
            now - state.pending_since
        } else {
            0
        };
        if waited < SETTLE {
            let mins: u64 = at_least_one((SETTLE - waited) / 60);
            let mut why = "the services this certificate covers changed; reissuing in about ".to_owned();
            why.append(text::decimal(mins).as_str());
            why.append(" minutes (batched, so naming a few in a row costs one certificate)");
            return Action::Idle(Some(why));
        }
    }
    let wait: u64 = state.backoff();
    let retry_at: u64 = if state.last_failure > u64::MAX - wait {
        u64::MAX
    } else {
        state.last_failure + wait
    };
    if state.failures > 0 && now < retry_at {
        let mins: u64 = at_least_one((retry_at - now) / 60);
        let mut why = "the last attempt failed; retrying in about ".to_owned();
        why.append(text::decimal(mins).as_str());
        why.append(" minutes");
        return Action::Idle(Some(why));
    }
    Action::Issue(names)
}

/// What is published about the certificate.
pub struct CertStatus {
    pub enabled: bool,
    pub domain: Option<String>,
    pub names: Vec<String>,
    pub cert_path: Option<String>,
    pub key_path: Option<String>,
    pub expires_at: u64,
    /// Why there is no certificate, or none newer.
    pub blocked: Option<String>,
}

/// The model of what is published about the certificate.
#[verifier::ext_equal]
pub struct CertStatusView {
    pub enabled: bool,
    pub domain: Option<Seq<char>>,
    pub names: Seq<Seq<char>>,
    pub cert_path: Option<Seq<char>>,
    pub key_path: Option<Seq<char>>,
    pub expires_at: u64,
    pub blocked: Option<Seq<char>>,
}

impl View for CertStatus {
    type V = CertStatusView;

    open spec fn view(&self) -> CertStatusView {
        CertStatusView {
            enabled: self.enabled,
            domain: text::opt_text(self.domain),
            names: text::texts(self.names@),
            cert_path: text::opt_text(self.cert_path),
            key_path: text::opt_text(self.key_path),
            expires_at: self.expires_at,
            blocked: text::opt_text(self.blocked),
        }
    }
}

/// A status that shows this certificate.
pub open spec fn showing(
    s: CertStatusView,
    state_dir: Seq<char>,
    names: NamesView,
    expires_at: u64,
) -> CertStatusView {
    let dir = text::joined(state_dir, "certs"@);
    CertStatusView {
        names: names.all(),
        cert_path: Some(text::joined(dir, "cert.pem"@)),
        key_path: Some(text::joined(dir, "key.pem"@)),
        expires_at,
        ..s
    }
}

/// The status before anything is decided: it shows the held certificate while that is valid.
pub open spec fn status_before(r: Reconcile<'_>, state: IssuedState, now: u64) -> CertStatusView {
    let empty = CertStatusView {
        enabled: r.enabled,
        domain: text::opt_str(r.dns_domain),
        names: seq![],
        cert_path: None,
        key_path: None,
        expires_at: 0,
        blocked: None,
    };
    match state.names {
        Some(n) => if state.expires_at > now {
            showing(empty, r.state_dir@, n@, state.expires_at)
        } else {
            empty
        },
        None => empty,
    }
}

/// The first half of a reconcile: what to publish so far, whether the state wants saving, and the
/// names and directory of the order to place, if one is to be.
pub struct Begun {
    pub save: bool,
    pub status: CertStatus,
    pub order: Option<(CertNames, String)>,
}

fn show(status: &mut CertStatus, state_dir: &str, names: &CertNames, expires_at: u64)
    ensures
        final(status)@ == showing(old(status)@, state_dir@, names@, expires_at),
{
    status.names = names.all();
    status.cert_path = Some(cert_path(state_dir));
    status.key_path = Some(key_path(state_dir));
    status.expires_at = expires_at;
}

/// Starts a reconcile at the time `now`: stamps a change of names, decides, and says what to publish.
pub fn reconcile(r: &Reconcile<'_>, state: &mut IssuedState, now: u64) -> (b: Begun)
    ensures
        final(state).pending_since == pending_stamp(
            r.wanted(),
            opt_names(old(state).names),
            old(state).pending_since,
            now,
        ),
        final(state).names == old(state).names,
        final(state).expires_at == old(state).expires_at,
        final(state).last_failure == old(state).last_failure,
        final(state).failures == old(state).failures,
        b.save == (final(state).pending_since != old(state).pending_since),
        match decision(*r, *final(state), now) {
            ActionView::Idle(why) => b.order is None && b.status@ == (CertStatusView {
                blocked: why,
                ..status_before(*r, *old(state), now)
            }),
            ActionView::Issue(n) => {
                &&& b.status@ == status_before(*r, *old(state), now)
                &&& b.order matches Some((names, directory)) && names@ == n && directory@ == (
                match r.acme_directory {
                    Some(d) => d@,
                    None => DEFAULT_DIRECTORY@,
                })
            },
        },
{
    let mut status = CertStatus {
        enabled: r.enabled,
        domain: match r.dns_domain {
            Some(d) => Some(d.to_owned()),
            None => None,
        },
        names: Vec::new(),
        cert_path: None,
        key_path: None,
        expires_at: 0,
        blocked: None,
    };
    assert(status@.names =~= seq![]);
    match &state.names {
        Some(n) => {
            if state.expires_at > now {
                show(&mut status, r.state_dir, n, state.expires_at);
            }
        },
        None => {},
    }
    let save = note_pending(r, state, now);
    match decide(r, state, now) {
        Action::Idle(why) => {
            status.blocked = why;
            Begun { save, status, order: None }
        },
        Action::Issue(names) => {
            let directory = match r.acme_directory {
                Some(d) => d.to_owned(),
                None => DEFAULT_DIRECTORY.to_owned(),
            };
            Begun { save, status, order: Some((names, directory)) }
        },
    }
}

/// Ends a reconcile whose order was filled: the state and the status show the new certificate, and
/// failures are forgotten.
pub fn issued(
    r: &Reconcile<'_>,
    state: &mut IssuedState,
    begun: CertStatus,
    names: CertNames,
    expires_at: u64,
) -> (status: CertStatus)
    ensures
        opt_names(final(state).names) == Some(names@),
        final(state).expires_at == expires_at,
        final(state).last_failure == 0,
        final(state).failures == 0,
        final(state).pending_since == 0,
        status@ == (CertStatusView {
            blocked: None,
            ..showing(begun@, r.state_dir@, names@, expires_at)
        }),
{
    let mut status = begun;
    show(&mut status, r.state_dir, &names, expires_at);
    status.blocked = None;
    state.names = Some(names);
    state.expires_at = expires_at;
    state.last_failure = 0;
    state.failures = 0;
    state.pending_since = 0;
    status
}

/// Ends a reconcile whose order failed at `now`: the failure is counted and its reason published.
pub fn failed(state: &mut IssuedState, begun: CertStatus, why: String, now: u64) -> (status:
    CertStatus)
    ensures
        final(state).names == old(state).names,
        final(state).expires_at == old(state).expires_at,
        final(state).pending_since == old(state).pending_since,
        final(state).last_failure == now,
        final(state).failures == (if old(state).failures < u32::MAX {
            (old(state).failures + 1) as u32
        } else {
            u32::MAX
        }),
        status@ == (CertStatusView { blocked: Some(why@), ..begun@ }),
{
    if state.failures < u32::MAX {
        state.failures = state.failures + 1;
    }
    state.last_failure = now;
    let mut status = begun;
    status.blocked = Some(why);
    status
}

/// A certificate is only ever ordered where the deployment has a domain, the owner opted in, and
/// something is listening.
pub proof fn law_orders_only_when_wanted(r: Reconcile<'_>, state: IssuedState, now: u64)
    ensures
        decision(r, state, now) is Issue ==> r.dns_domain is Some && r.enabled && r.exposed
            && r.wanted() == Some(decision(r, state, now)->Issue_0),
{
}

/// A valid certificate for the wanted names is left alone until its renewal is due.
pub proof fn law_held_is_left_alone(r: Reconcile<'_>, state: IssuedState, now: u64)
    requires
        r.wanted() is Some,
        opt_names(state.names) == r.wanted(),
        state.expires_at >= now + RENEW_BEFORE,
    ensures
        !(decision(r, state, now) is Issue),
{
}

/// Neither a first certificate nor a due renewal waits for a changed set of names to settle.
pub proof fn law_first_and_renewal_do_not_wait(r: Reconcile<'_>, state: IssuedState, now: u64)
    requires
        r.dns_domain is Some,
        r.enabled,
        r.exposed,
        r.wanted() is Some,
        state.failures == 0,
        state.expires_at < now + RENEW_BEFORE,
    ensures
        decision(r, state, now) == ActionView::Issue(r.wanted()->0),
{
}

/// After a failure nothing is ordered before the backoff has passed.
pub proof fn law_backs_off(r: Reconcile<'_>, state: IssuedState, now: u64)
    requires
        state.failures > 0,
        now < later(state.last_failure, backoff_secs(state.failures as nat)),
    ensures
        !(decision(r, state, now) is Issue),
{
}

/// A set of names that goes on changing keeps its first stamp, so a burst of changes waits once.
pub proof fn law_burst_keeps_its_stamp(
    first: Option<NamesView>,
    second: Option<NamesView>,
    held: Option<NamesView>,
    pending_since: u64,
    now: u64,
    then: u64,
)
    requires
        held is Some,
        first != held,
        second != held,
        now > 0,
    ensures
        pending_stamp(
            second,
            held,
            pending_stamp(first, held, pending_since, now),
            then,
        ) == pending_stamp(first, held, pending_since, now),
{
}

proof fn lemma_lower_concat(a: Seq<char>, b: Seq<char>)
    ensures
        text::lower(a + b) == text::lower(a) + text::lower(b),
{
    assert(text::lower(a + b) =~= text::lower(a) + text::lower(b));
}

/// Every name that a certificate covers lies under the deployment's domain.
pub proof fn law_names_lie_under_the_domain(name: Seq<char>, domain: Seq<char>)
    ensures
        swapped(name, domain) matches Some(n) ==> text::ends_with(n, text::lower("."@ + domain)),
{
    let t = text::trim_end(name, '.');
    if text::ends_with(t, mesh_suffix()) {
        let stem = t.take(t.len() - mesh_suffix().len());
        let n = text::lower(stem + "."@ + domain);
        let tail = text::lower("."@ + domain);
        assert(stem + "."@ + domain =~= stem + ("."@ + domain));
        lemma_lower_concat(stem, "."@ + domain);
        assert(n.skip(n.len() - tail.len()) =~= tail);
    }
}

/// A run of so many dots.
pub open spec fn dots_of(n: nat) -> Seq<char> {
    Seq::new(n, |i: int| '.')
}

proof fn lemma_swapped(stem: Seq<char>, domain: Seq<char>, dots: nat)
    ensures
        swapped(stem + ".unity.internal"@ + dots_of(dots), domain) == Some(
            text::lower(stem + "."@ + domain),
        ),
{
    let suffix = ".unity.internal"@;
    reveal_strlit(".unity.internal");
    let t = stem + suffix;
    assert(t.last() == 'l');
    text::law_run_at_the_end_is_taken_off(t, '.', dots);
    assert(t.skip(t.len() - suffix.len()) =~= suffix);
    assert(t.take(t.len() - suffix.len()) =~= stem);
}

proof fn lemma_lower_parts(label: Seq<char>, rest: Seq<char>)
    requires
        !label.contains('.'),
    ensures
        !text::lower(label).contains('.'),
        text::lower(label + "."@ + rest) == text::lower(label) + seq!['.'] + text::lower(rest),
{
    reveal_strlit(".");
    assert forall|i: int| 0 <= i < label.len() implies #[trigger] text::lower(label)[i] != '.' by {
        text::law_lower_case(label, i);
        assert(label.contains(label[i]));
    }
    let s = label + "."@ + rest;
    assert(text::lower(s) =~= text::lower(label) + seq!['.'] + text::lower(rest));
}

/// A device named below its user gets a certificate for its name and everything directly below it, for
/// the name of the user's first device where it is that one, and for each of its services below the
/// user: all under the deployment's domain, in lower case, and in this order.
pub proof fn law_what_a_certificate_covers(
    label: Seq<char>,
    user: Seq<char>,
    alias: Option<Seq<char>>,
    domain: Seq<char>,
    services: Seq<Seq<char>>,
    i: int,
)
    requires
        !label.contains('.'),
        0 <= i < services.len(),
    ensures
        ({
            let host = label + "."@ + user;
            let named = match alias {
                Some(a) => Some(a + ".unity.internal"@),
                None => None,
            };
            &&& names_for(host + ".unity.internal"@, named, domain, services) matches Some(n)
            &&& n.all().len() == services.len() + (if alias is Some {
                3int
            } else {
                2int
            })
            &&& n.all()[0] == text::lower(host + "."@ + domain)
            &&& n.all()[1] == "*."@ + text::lower(host + "."@ + domain)
            &&& alias matches Some(a) ==> n.all()[2] == text::lower(a + "."@ + domain)
            &&& n.all()[n.all().len() - services.len() + i] == text::lower(
                services[i] + "."@ + user + "."@ + domain,
            )
        }),
{
    let host = label + "."@ + user;
    let suffix = ".unity.internal"@;
    let none = dots_of(0);
    lemma_swapped(host, domain, 0);
    assert(host + suffix + none =~= host + suffix);
    if let Some(a) = alias {
        lemma_swapped(a, domain, 0);
        assert(a + suffix + none =~= a + suffix);
    }
    let rest = user + "."@ + domain;
    let device = text::lower(host + "."@ + domain);
    assert(host + "."@ + domain =~= label + "."@ + rest);
    lemma_lower_parts(label, rest);
    text::law_split_at_the_first(text::lower(label), text::lower(rest), '.');
    let l = services[i];
    let front = l + "."@;
    assert(l + "."@ + user + "."@ + domain =~= front + rest);
    assert(l + "."@ + text::lower(rest) =~= front + text::lower(rest));
    assert(text::lower(front + text::lower(rest)) =~= text::lower(front + rest)) by {
        assert forall|k: int| 0 <= k < (front + rest).len() implies text::lower(
            front + text::lower(rest),
        )[k] == text::lower(front + rest)[k] by {
            text::law_lower_case(front + rest, k);
            text::law_lower_case(front + text::lower(rest), k);
            if k >= front.len() {
                text::law_lower_case(rest, k - front.len());
            }
        }
    }
}

/// A device gets no certificate if and only if it has no name in the mesh.
pub proof fn law_who_gets_no_certificate(
    hostname: Seq<char>,
    alias: Option<Seq<char>>,
    domain: Seq<char>,
    services: Seq<Seq<char>>,
)
    ensures
        names_for(hostname, alias, domain, services) is None <==> forall|stem: Seq<char>, dots: nat|
            hostname != #[trigger] (stem + ".unity.internal"@ + dots_of(dots)),
{
    let suffix = ".unity.internal"@;
    reveal_strlit(".");
    if let Some(device) = swapped(hostname, domain) {
        let t = text::trim_end(hostname, '.');
        let stem = t.take(t.len() - suffix.len());
        lemma_trim_end_is(hostname, '.');
        let dots = (hostname.len() - t.len()) as nat;
        assert(t =~= stem + suffix) by {
            assert(t.skip(t.len() - suffix.len()) == suffix);
        }
        assert(hostname =~= stem + suffix + dots_of(dots));
        text::law_lower_case(stem + "."@ + domain, stem.len() as int);
        assert(device[stem.len() as int] == '.');
        text::lemma_pos_from(device, '.', 0);
        assert(names_for(hostname, alias, domain, services) is Some);
    }
    if exists|stem: Seq<char>, dots: nat|
        hostname == #[trigger] (stem + ".unity.internal"@ + dots_of(dots)) {
        let (stem, dots) = choose|stem: Seq<char>, dots: nat|
            hostname == #[trigger] (stem + ".unity.internal"@ + dots_of(dots));
        lemma_swapped(stem, domain, dots);
    }
}

proof fn lemma_trim_end_is(s: Seq<char>, c: char)
    ensures
        text::trim_end(s, c).len() <= s.len(),
        text::trim_end(s, c) + Seq::new((s.len() - text::trim_end(s, c).len()) as nat, |i: int| c)
            == s,
    decreases s.len(),
{
    if s.len() > 0 && s.last() == c {
        lemma_trim_end_is(s.drop_last(), c);
        let t = text::trim_end(s, c);
        assert(t + Seq::new((s.len() - t.len()) as nat, |i: int| c) =~= s) by {
            let d = s.drop_last();
            assert(s =~= d.push(c));
            assert(d == t + Seq::new((d.len() - t.len()) as nat, |i: int| c));
        }
    } else {
        assert(s + Seq::new(0, |i: int| c) =~= s);
    }
}

/// A service of a certificate goes by what it was called before its first dot, and no other name is a
/// service's.
pub proof fn law_label_of_a_service(n: NamesView, label: Seq<char>, user: Seq<char>)
    requires
        !label.contains('.'),
    ensures
        n.services.contains(label + "."@ + user) ==> n.service_label(label + "."@ + user) == Some(
            label,
        ),
        !n.services.contains(label + "."@ + user) ==> n.service_label(label + "."@ + user) is None,
{
    reveal_strlit(".");
    assert("."@ =~= seq!['.']);
    text::law_split_at_the_first(label, user, '.');
}

/// Without a failure there is no wait; after the first it is ten minutes, and each further failure
/// doubles it, up to a day.
pub proof fn law_waits_double_to_a_day(failures: nat)
    ensures
        backoff_secs(0) == 0,
        backoff_secs(1) == 600,
        failures > 0 ==> backoff_secs(failures + 1) == if 2 * backoff_secs(failures) < 86_400 {
            2 * backoff_secs(failures)
        } else {
            86_400
        },
{
    lemma2_to64();
    lemma_pow2_unfold((failures + 1) as nat);
}

/// What is pending is published by name and value: those of the device's own name and of its wildcard
/// in turn, that of the first device's name, and that of each service under its label. One that is
/// neither valid nor pending, one without a value, and one for a name that was not asked for each stop
/// the order.
pub proof fn law_collected_one_by_one(
    names: NamesView,
    authzs: Seq<AuthzView>,
    name: Seq<char>,
    value: Seq<char>,
    status: Seq<char>,
)
    ensures
        collected(names, seq![]) matches Ok(c) && c.device.len() == 0 && c.primary is None
            && c.services.dom() =~= Set::<Seq<char>>::empty(),
        collected(names, authzs.push(AuthzView::Valid)) == collected(names, authzs),
        collected(names, authzs) matches Err(e) ==> collected(
            names,
            authzs.push(AuthzView::Pending(Some((name, value)))),
        ) == Err::<ChallengesView, IssueErrorView>(e) && collected(
            names,
            authzs.push(AuthzView::Other(status)),
        ) == Err::<ChallengesView, IssueErrorView>(e) && collected(
            names,
            authzs.push(AuthzView::Pending(None)),
        ) == Err::<ChallengesView, IssueErrorView>(e),
        collected(names, authzs) matches Ok(c) ==> {
            let next = collected(names, authzs.push(AuthzView::Pending(Some((name, value)))));
            &&& collected(names, authzs.push(AuthzView::Other(status))) == Err::<
                ChallengesView,
                IssueErrorView,
            >(IssueErrorView::Status(status))
            &&& collected(names, authzs.push(AuthzView::Pending(None))) == Err::<
                ChallengesView,
                IssueErrorView,
            >(IssueErrorView::NoDns01)
            &&& if name == names.device || name == "*."@ + names.device {
                next == Ok::<ChallengesView, IssueErrorView>(
                    ChallengesView {
                        device: c.device + seq![value],
                        primary: c.primary,
                        services: c.services,
                    },
                )
            } else if names.primary == Some(name) {
                next == Ok::<ChallengesView, IssueErrorView>(
                    ChallengesView {
                        device: c.device,
                        primary: Some(value),
                        services: c.services,
                    },
                )
            } else if names.services.contains(name) && name.contains('.') {
                next == Ok::<ChallengesView, IssueErrorView>(
                    ChallengesView {
                        device: c.device,
                        primary: c.primary,
                        services: c.services.insert(name.take(name.index_of_first('.')->0), value),
                    },
                )
            } else {
                next == Err::<ChallengesView, IssueErrorView>(IssueErrorView::NotOrdered(name))
            }
        },
{
    assert forall|a: AuthzView| #[trigger] authzs.push(a).drop_last() =~= authzs by {}
    assert(authzs.push(AuthzView::Valid).drop_last() =~= authzs);
    assert(authzs.push(AuthzView::Pending(None)).drop_last() =~= authzs);
    assert(authzs.push(AuthzView::Other(status)).drop_last() =~= authzs);
    assert(authzs.push(AuthzView::Pending(Some((name, value)))).drop_last() =~= authzs);
    text::lemma_pos_from(name, '.', 0);
    let p = text::pos_from(name, '.', 0);
    if name.contains('.') {
        let k = choose|k: int| 0 <= k < name.len() && name[k] == '.';
        assert(p <= k);
        name.index_of_first_ensures('.');
        let q = name.index_of_first('.')->0;
        assert(q == p);
    }
    if let Ok(c) = collected(names, authzs) {
        assert(c.device.push(value) =~= c.device + seq![value]);
    }
}

/// An order is refused as a whole when it calls for more values of the device's name than the
/// coordinator takes; what is published otherwise is just what was collected.
pub proof fn law_no_more_values_than_are_taken(
    names: NamesView,
    authzs: Seq<AuthzView>,
    max_device: nat,
)
    ensures
        order_plan(names, authzs, max_device) matches Err(IssueErrorView::TooMany(n)) ==> (
        collected(names, authzs) matches Ok(c) ==> n == c.device.len() && n > max_device),
        collected(names, authzs) matches Ok(c) ==> {
            &&& c.device.len() > max_device ==> order_plan(names, authzs, max_device) == Err::<
                Option<ChallengesView>,
                IssueErrorView,
            >(IssueErrorView::TooMany(c.device.len()))
            &&& order_plan(names, authzs, max_device) matches Ok(Some(d)) ==> d == c && c.device.len()
                <= max_device
        },
        collected(names, authzs) matches Err(e) ==> order_plan(names, authzs, max_device) == Err::<
            Option<ChallengesView>,
            IssueErrorView,
        >(e),
{
}

/// When the wanted names are not the held ones, the time at which that was first seen is kept until
/// they are again.
pub proof fn law_when_a_change_was_seen(
    wanted: Option<NamesView>,
    held: Option<NamesView>,
    since: u64,
    now: u64,
)
    ensures
        held is None ==> pending_stamp(wanted, held, since, now) == 0,
        held is Some && wanted == held ==> pending_stamp(wanted, held, since, now) == 0,
        held is Some && wanted != held && since == 0 ==> pending_stamp(wanted, held, since, now)
            == now,
        held is Some && wanted != held && since != 0 ==> pending_stamp(wanted, held, since, now)
            == since,
{
}

/// When a certificate is ordered: where one is wanted and something listens, unless the wanted names
/// are held for thirty days more, or held ones for others are good for thirty days more and the change
/// is younger than ten minutes, or the wait after a failure is not over.
pub proof fn law_when_one_is_ordered(
    r: Reconcile<'_>,
    state: IssuedState,
    now: u64,
)
    requires
        state.last_failure + backoff_secs(state.failures as nat) <= u64::MAX,
    ensures
        decision(r, state, now) is Issue <==> {
            &&& r.dns_domain is Some
            &&& r.enabled
            &&& r.exposed
            &&& r.wanted() is Some
            &&& state.expires_at >= now + 2_592_000 ==> opt_names(state.names) != r.wanted() && now
                >= state.pending_since + 600
            &&& state.failures > 0 ==> now >= state.last_failure + backoff_secs(
                state.failures as nat,
            )
        },
        decision(r, state, now) matches ActionView::Issue(n) ==> r.wanted() == Some(n),
{
}

/// What the owner is told while nothing is ordered: why, and for how many whole minutes, one at least.
pub proof fn law_what_the_owner_is_told(r: Reconcile<'_>, state: IssuedState, now: u64)
    ensures
        r.dns_domain is None || !r.enabled ==> decision(r, state, now) == ActionView::Idle(None),
        r.dns_domain is Some && r.enabled ==> {
            let good = opt_names(state.names) == r.wanted() && state.expires_at > now;
            &&& r.wanted() is None ==> decision(r, state, now) == ActionView::Idle(
                Some("this device has no mesh name yet"@),
            )
            &&& r.wanted() is Some && !r.exposed && good ==> decision(r, state, now)
                == ActionView::Idle(
                Some("no port is exposed, so this certificate will not be renewed"@),
            )
            &&& r.wanted() is Some && !r.exposed && !good ==> decision(r, state, now)
                == ActionView::Idle(
                Some(
                    "expose a port first — a certificate is only useful if something is listening"@,
                ),
            )
            &&& r.wanted() is Some && r.exposed && opt_names(state.names) == r.wanted()
                && state.expires_at >= now + 2_592_000 ==> decision(r, state, now)
                == ActionView::Idle(None)
            &&& r.wanted() is Some && r.exposed && opt_names(state.names) != r.wanted()
                && state.expires_at >= now + 2_592_000 && state.pending_since <= now
                < state.pending_since + 600 ==> exists|mins: nat|
                #![trigger text::dec(mins)]
                {
                    let left = state.pending_since + 600 - now;
                    &&& mins >= 1 && 60 * mins <= (if left < 60 {
                        60
                    } else {
                        left
                    }) < 60 * mins + 60
                    &&& decision(r, state, now) == ActionView::Idle(
                        Some(
                            "the services this certificate covers changed; reissuing in about "@
                                + text::dec(mins)
                                + " minutes (batched, so naming a few in a row costs one certificate)"@,
                        ),
                    )
                }
            &&& r.wanted() is Some && r.exposed && state.expires_at < now + 2_592_000
                && state.failures > 0 && now < state.last_failure + backoff_secs(
                state.failures as nat,
            ) <= u64::MAX ==> exists|mins: nat|
                #![trigger text::dec(mins)]
                {
                    let left = state.last_failure + backoff_secs(state.failures as nat) - now;
                    &&& mins >= 1 && 60 * mins <= (if left < 60 {
                        60
                    } else {
                        left
                    }) < 60 * mins + 60
                    &&& decision(r, state, now) == ActionView::Idle(
                        Some(
                            "the last attempt failed; retrying in about "@ + text::dec(mins)
                                + " minutes"@,
                        ),
                    )
                }
        },
{
    let settle: int = 600 - monus(now as int, state.pending_since as int);
    let retry: int = later(state.last_failure, backoff_secs(state.failures as nat)) - now;
    let a = text::dec(minutes(settle));
    let b = text::dec(minutes(retry));
    assert(settle / 60 > 1 ==> 60 * (settle / 60) <= settle < 60 * (settle / 60) + 60);
    assert(retry / 60 > 1 ==> 60 * (retry / 60) <= retry < 60 * (retry / 60) + 60);
}

/// A held certificate is shown until it expires: its names, where it and its key are kept, and when it
/// expires. Without one nothing is shown of one.
pub proof fn law_held_one_is_shown_until_it_expires(
    r: Reconcile<'_>,
    state: IssuedState,
    now: u64,
)
    ensures
        ({
            let s = status_before(r, state, now);
            &&& s.enabled == r.enabled
            &&& s.blocked is None
            &&& s.domain == (match r.dns_domain {
                Some(d) => Some(d@),
                None => None,
            })
            &&& if state.names is Some && now < state.expires_at {
                let n = state.names->0@;
                &&& s.names == n.all()
                &&& s.expires_at == state.expires_at
                &&& s.cert_path == Some(
                    text::joined(text::joined(r.state_dir@, "certs"@), "cert.pem"@),
                )
                &&& s.key_path == Some(
                    text::joined(text::joined(r.state_dir@, "certs"@), "key.pem"@),
                )
            } else {
                s.names.len() == 0 && s.expires_at == 0 && s.cert_path is None && s.key_path is None
            }
        }),
{
}

/// What is said when the key cannot be handed to a group, and of a server that did not take the new
/// certificate up; of one that did, nothing is.
pub proof fn law_what_is_said_of_the_key_and_the_server(
    group: Seq<char>,
    program: Seq<char>,
    status: String,
    secs: u64,
)
    ensures
        grant_refusal(group, true)
            == "[cert] group is unix-only; grant access with an ACL on the certs directory"@,
        grant_refusal(group, false) == "no such group "@ + text::debug_text(group)
            + " for the certificate key"@,
        reload_trouble(program, Reloaded::Succeeded) is None,
        reload_trouble(program, Reloaded::Failed(status)) == Some(
            "the certificate reload command "@ + text::debug_text(program) + " exited with "@
                + status@,
        ),
        reload_trouble(program, Reloaded::Outlived(secs)) == Some(
            "the certificate reload command "@ + text::debug_text(program) + " outlived its "@
                + text::dec(secs as nat) + "s deadline and was killed"@,
        ),
{
}

/// An expiry before the epoch counts as the epoch, and any other as it is.
pub proof fn law_expiry_as_an_unsigned_time(t: int)
    ensures
        t >= 0 ==> expiry_secs(t) == t,
        t < 0 ==> expiry_secs(t) == 0,
{
}

} // verus!
