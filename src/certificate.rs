//! Certificate bookkeeping: where certificate files go, self-signed
//! certificates, the ACME HTTP-01 challenge registry and the per-domain
//! issuance rate limit.

use vstd::prelude::*;

use dashmap::DashMap;

use crate::text::{chars_of, join_path, joined_path, push_str, string_of};

verus! {

/// `dashmap::DashMap`, the concurrent map holding the registries; its
/// contents are reached only through the wrappers below.
#[verifier::external_type_specification]
#[verifier::external_body]
#[verifier::reject_recursive_types(K)]
#[verifier::reject_recursive_types(V)]
#[verifier::reject_recursive_types(S)]
pub struct ExDashMap<K, V, S>(dashmap::DashMap<K, V, S>);

/// `rcgen::Error`, returned when a certificate cannot be generated.
#[verifier::external_type_specification]
#[verifier::external_body]
pub struct ExRcgenError(rcgen::Error);

/// The ACME directory used when none is configured.
pub const DEFAULT_ACME_DIRECTORY: &'static str = "https://acme-v02.api.letsencrypt.org/directory";

/// Seconds that must pass between two certificate requests for a domain.
pub const COOLDOWN_SECS: u64 = 300;

/// Length of the rolling window of the weekly cap, in seconds.
pub const WEEK_SECS: u64 = 604800;

/// Certificate requests allowed per domain in one window.
pub const WEEKLY_LIMIT: u32 = 5;

/// A pending ACME HTTP-01 challenge.
pub struct AcmeChallenge {
    pub token: String,
    pub key_authorization: String,
}

/// Rate-limit bookkeeping for one domain. Times are seconds on a monotonic
/// clock.
#[derive(Debug, Clone, Copy, PartialEq, Eq)]
pub struct RateLimitState {
    pub last_request: u64,
    pub weekly_count: u32,
    pub week_start: u64,
}

/// Pending ACME challenges, by token.
pub type ChallengeMap = DashMap<String, AcmeChallenge>;

/// Rate-limit state, by domain.
pub type RateLimitMap = DashMap<String, RateLimitState>;

/// What the challenge registry holds: token to key authorization.
pub uninterp spec fn challenge_entries(m: ChallengeMap) -> Map<Seq<char>, Seq<char>>;

/// What the rate-limit registry holds: domain to state.
pub uninterp spec fn rate_limit_entries(m: RateLimitMap) -> Map<Seq<char>, RateLimitState>;

/// Relies on `DashMap::new`: the map starts empty.
#[verifier::external_body]
fn new_challenge_map() -> (r: ChallengeMap)
    ensures
        challenge_entries(r).dom() == Set::<Seq<char>>::empty(),
{
    DashMap::new()
}

/// Relies on `DashMap::insert`: the key now maps to the value, replacing
/// any earlier one.
#[verifier::external_body]
fn challenge_insert(m: &mut ChallengeMap, token: String, c: AcmeChallenge)
    ensures
        challenge_entries(*final(m)) == challenge_entries(*old(m)).insert(token@, c.key_authorization@),
{
    m.insert(token, c);
}

/// Relies on `DashMap::get`: the value stored under the key, if any.
#[verifier::external_body]
fn challenge_get(m: &ChallengeMap, token: &str) -> (r: Option<String>)
    ensures
        match r {
            Some(k) => challenge_entries(*m).contains_key(token@) && challenge_entries(*m)[token@] == k@,
            None => !challenge_entries(*m).contains_key(token@),
        },
{
    m.get(token).map(|c| c.key_authorization.clone())
}

/// Relies on `DashMap::remove`: the key no longer maps to anything.
#[verifier::external_body]
fn challenge_remove(m: &mut ChallengeMap, token: &str)
    ensures
        challenge_entries(*final(m)) == challenge_entries(*old(m)).remove(token@),
{
    m.remove(token);
}

/// Relies on `DashMap::new`: the map starts empty.
#[verifier::external_body]
fn new_rate_limit_map() -> (r: RateLimitMap)
    ensures
        rate_limit_entries(r).dom() == Set::<Seq<char>>::empty(),
{
    DashMap::new()
}

/// Relies on `DashMap::get`: the value stored under the key, if any.
#[verifier::external_body]
fn rate_limit_get(m: &RateLimitMap, domain: &str) -> (r: Option<RateLimitState>)
    ensures
        match r {
            Some(s) => rate_limit_entries(*m).contains_key(domain@) && rate_limit_entries(*m)[domain@] == s,
            None => !rate_limit_entries(*m).contains_key(domain@),
        },
{
    m.get(domain).map(|s| *s)
}

/// Relies on `DashMap::insert`: the key now maps to the value, replacing
/// any earlier one.
#[verifier::external_body]
fn rate_limit_insert(m: &mut RateLimitMap, domain: String, s: RateLimitState)
    ensures
        rate_limit_entries(*final(m)) == rate_limit_entries(*old(m)).insert(domain@, s),
{
    m.insert(domain, s);
}

/// Every name is plain ASCII.
pub open spec fn all_ascii(names: Seq<String>) -> bool {
    forall|i: int, k: int|
        0 <= i < names.len() && 0 <= k < names[i]@.len() ==> ((#[trigger] names[i]@[k]) as u32) < 128
}

/// Relies on `rcgen::generate_simple_self_signed`, serialized with
/// `serialize_pem` and `serialize_private_key_pem`. The key pair is fresh,
/// so nothing is promised of the text. Names that are not IP addresses are
/// written as IA5 strings, whose writer panics on non-ASCII text: the names
/// must be ASCII.
#[verifier::external_body]
fn self_signed_pems(subject_alt_names: Vec<String>) -> (r: Result<(String, String), rcgen::Error>)
    requires
        all_ascii(subject_alt_names@),
{
    let cert = rcgen::generate_simple_self_signed(subject_alt_names)?;
    Ok((cert.serialize_pem()?, cert.serialize_private_key_pem()))
}

/// Why a certificate could not be produced.
#[derive(Debug, Clone, Copy, PartialEq, Eq)]
pub enum CertError {
    /// The certificate library refused the request.
    Generation,
}

/// A generated certificate and key, with the files they belong in.
pub struct SelfSigned {
    pub cert_path: String,
    pub key_path: String,
    pub cert_pem: String,
    pub key_pem: String,
}

/// `domain` made safe as a file name: each `*` becomes `wildcard`.
pub open spec fn sanitized(domain: Seq<char>) -> Seq<char>
    decreases domain.len(),
{
    if domain.len() == 0 {
        domain
    } else if domain.last() == '*' {
        sanitized(domain.drop_last()) + "wildcard"@
    } else {
        sanitized(domain.drop_last()).push(domain.last())
    }
}

/// Time from `then` to `now`, or zero when `then` is later.
pub open spec fn elapsed(now: u64, then: u64) -> int {
    if now >= then {
        now - then
    } else {
        0
    }
}

/// A domain is held back while its cooldown runs, or while its window is
/// open and its count has reached the cap.
pub open spec fn limited(s: RateLimitState, now: u64) -> bool {
    elapsed(now, s.last_request) < COOLDOWN_SECS || (elapsed(now, s.week_start) < WEEK_SECS
        && s.weekly_count >= WEEKLY_LIMIT)
}

/// The state after a request at `now`: a first request, or one after the
/// window has run out, opens a new window with a count of one; any other
/// adds one to the count (saturating).
pub open spec fn next_rate_state(prev: Option<RateLimitState>, now: u64) -> RateLimitState {
    match prev {
        None => RateLimitState { last_request: now, weekly_count: 1, week_start: now },
        Some(s) => if elapsed(now, s.week_start) >= WEEK_SECS {
            RateLimitState { last_request: now, weekly_count: 1, week_start: now }
        } else {
            RateLimitState {
                last_request: now,
                weekly_count: if s.weekly_count < u32::MAX {
                    (s.weekly_count + 1) as u32
                } else {
                    u32::MAX
                },
                week_start: s.week_start,
            }
        },
    }
}

fn elapsed_secs(now: u64, then: u64) -> (r: u64)
    ensures
        r == elapsed(now, then),
{
    if now >= then {
        now - then
    } else {
        0
    }
}

fn is_ascii_text(s: &str) -> (r: bool)
    ensures
        r == forall|k: int| 0 <= k < s@.len() ==> ((#[trigger] s@[k]) as u32) < 128,
{
    let cs = chars_of(s);
    let mut i: usize = 0;
    while i < cs.len()
        invariant
            i <= cs@.len(),
            cs@ == s@,
            forall|k: int| 0 <= k < i ==> ((#[trigger] cs@[k]) as u32) < 128,
        decreases cs.len() - i,
    {
        if (cs[i] as u32) >= 128 {
            return false;
        }
        i = i + 1;
    }
    true
}

/// Whether every name is plain ASCII (see `all_ascii`).
pub fn names_are_ascii(names: &Vec<String>) -> (r: bool)
    ensures
        r == all_ascii(names@),
{
    let mut i: usize = 0;
    while i < names.len()
        invariant
            i <= names@.len(),
            forall|j: int, k: int| 0 <= j < i && 0 <= k < names@[j]@.len() ==> ((#[trigger] names@[j]@[k]) as u32) < 128,
        decreases names.len() - i,
    {
        if !is_ascii_text(names[i].as_str()) {
            proof {
                let k = choose|k: int| 0 <= k < names@[i as int]@.len() && !(((names@[i as int]@[k]) as u32) < 128);
                assert(!((names@[i as int]@[k] as u32) < 128));
            }
            return false;
        }
        i = i + 1;
    }
    true
}

/// A copy of a list of strings, element by element.
pub fn copy_strings(v: &Vec<String>) -> (r: Vec<String>)
    ensures
        r@.len() == v@.len(),
        forall|i: int| 0 <= i < r@.len() ==> (#[trigger] r@[i])@ == v@[i]@,
{
    let mut out: Vec<String> = Vec::new();
    let mut i: usize = 0;
    while i < v.len()
        invariant
            i <= v@.len(),
            out@.len() == i,
            forall|k: int| 0 <= k < i ==> (#[trigger] out@[k])@ == v@[k]@,
        decreases v.len() - i,
    {
        out.push(v[i].clone());
        i = i + 1;
    }
    out
}

/// Owns the certificate directory's layout, the pending ACME challenges and
/// the per-domain rate limits.
pub struct CertificateManager {
    certs_dir: String,
    acme_challenges: ChallengeMap,
    rate_limits: RateLimitMap,
    acme_directory_url: String,
}

impl CertificateManager {
    /// The pending challenges: token to key authorization.
    pub closed spec fn challenges(&self) -> Map<Seq<char>, Seq<char>> {
        challenge_entries(self.acme_challenges)
    }

    /// The rate-limit state of each domain seen so far.
    pub closed spec fn rate_limits(&self) -> Map<Seq<char>, RateLimitState> {
        rate_limit_entries(self.rate_limits)
    }

    pub closed spec fn dir(&self) -> Seq<char> {
        self.certs_dir@
    }

    pub closed spec fn directory_url(&self) -> Seq<char> {
        self.acme_directory_url@
    }

    /// A manager for the certificates under `certs_dir`, with no pending
    /// challenge and no rate-limit history. The ACME directory defaults to
    /// Let's Encrypt's.
    pub fn new(certs_dir: &str, acme_directory_url: Option<String>) -> (r: CertificateManager)
        ensures
            r.dir() == certs_dir@,
            r.directory_url() == match acme_directory_url {
                Some(u) => u@,
                None => DEFAULT_ACME_DIRECTORY@,
            },
            r.challenges() == Map::<Seq<char>, Seq<char>>::empty(),
            r.rate_limits() == Map::<Seq<char>, RateLimitState>::empty(),
    {
        let r = CertificateManager {
            certs_dir: certs_dir.to_owned(),
            acme_challenges: new_challenge_map(),
            rate_limits: new_rate_limit_map(),
            acme_directory_url: match acme_directory_url {
                Some(u) => u,
                None => DEFAULT_ACME_DIRECTORY.to_owned(),
            },
        };
        assert(r.challenges() =~= Map::<Seq<char>, Seq<char>>::empty());
        assert(r.rate_limits() =~= Map::<Seq<char>, RateLimitState>::empty());
        r
    }

    /// The certificate directory.
    pub fn certs_dir(&self) -> (r: &str)
        ensures
            r@ == self.dir(),
    {
        self.certs_dir.as_str()
    }

    /// The ACME directory URL.
    pub fn acme_directory_url(&self) -> (r: &str)
        ensures
            r@ == self.directory_url(),
    {
        self.acme_directory_url.as_str()
    }

    /// Replaces each `*` of `domain` with `wildcard`.
    pub fn sanitize_domain(domain: &str) -> (r: String)
        ensures
            r@ == sanitized(domain@),
    {
        let cs = chars_of(domain);
        let mut out: Vec<char> = Vec::new();
        let mut i: usize = 0;
        assert(cs@.subrange(0, 0) =~= Seq::<char>::empty());
        while i < cs.len()
            invariant
                i <= cs@.len(),
                cs@ == domain@,
                out@ == sanitized(cs@.subrange(0, i as int)),
            decreases cs.len() - i,
        {
            assert(cs@.subrange(0, i + 1).drop_last() =~= cs@.subrange(0, i as int));
            if cs[i] == '*' {
                push_str(&mut out, "wildcard");
            } else {
                out.push(cs[i]);
            }
            i = i + 1;
        }
        assert(cs@.subrange(0, cs@.len() as int) =~= cs@);
        string_of(&out)
    }

    /// The certificate and key files for `domain`:
    /// `{certs_dir}/{sanitized domain}.crt` and `.key`.
    pub fn certificate_paths(&self, domain: &str) -> (r: (String, String))
        ensures
            r.0@ == joined_path(self.dir(), sanitized(domain@) + ".crt"@),
            r.1@ == joined_path(self.dir(), sanitized(domain@) + ".key"@),
    {
        let base = Self::sanitize_domain(domain);
        let mut crt = chars_of(base.as_str());
        push_str(&mut crt, ".crt");
        let mut key = chars_of(base.as_str());
        push_str(&mut key, ".key");
        let crt_name = string_of(&crt);
        let key_name = string_of(&key);
        (join_path(self.certs_dir.as_str(), crt_name.as_str()), join_path(self.certs_dir.as_str(), key_name.as_str()))
    }

    /// Generates a self-signed certificate for the subject alternative
    /// names `san` and says where its files go (see `certificate_paths`).
    /// The caller writes them.
    pub fn generate_self_signed(&self, domain: &str, san: &Vec<String>) -> (r: Result<SelfSigned, CertError>)
        ensures
            r matches Ok(c) ==> {
                &&& c.cert_path@ == joined_path(self.dir(), sanitized(domain@) + ".crt"@)
                &&& c.key_path@ == joined_path(self.dir(), sanitized(domain@) + ".key"@)
            },
            !all_ascii(san@) ==> r == Err::<SelfSigned, CertError>(CertError::Generation),
    {
        if !names_are_ascii(san) {
            return Err(CertError::Generation);
        }
        let names = copy_strings(san);
        assert(all_ascii(names@)) by {
            assert forall|i: int, k: int|
                0 <= i < names@.len() && 0 <= k < names@[i]@.len() implies ((#[trigger] names@[i]@[k]) as u32) < 128 by {
                assert(names@[i]@ == san@[i]@);
                assert((san@[i]@[k] as u32) < 128);
            }
        }
        match self_signed_pems(names) {
            Err(_) => Err(CertError::Generation),
            Ok((cert_pem, key_pem)) => {
                let (cert_path, key_path) = self.certificate_paths(domain);
                Ok(SelfSigned { cert_path, key_path, cert_pem, key_pem })
            },
        }
    }

    /// Records a pending challenge: `token` now answers `key_authorization`.
    pub fn store_acme_challenge(&mut self, token: &str, key_authorization: &str)
        ensures
            final(self).challenges() == old(self).challenges().insert(token@, key_authorization@),
            final(self).rate_limits() == old(self).rate_limits(),
            final(self).dir() == old(self).dir(),
            final(self).directory_url() == old(self).directory_url(),
    {
        let c = AcmeChallenge { token: token.to_owned(), key_authorization: key_authorization.to_owned() };
        challenge_insert(&mut self.acme_challenges, token.to_owned(), c);
    }

    /// The key authorization stored for `token`, if any.
    pub fn get_acme_challenge(&self, token: &str) -> (r: Option<String>)
        ensures
            match r {
                Some(k) => self.challenges().contains_key(token@) && self.challenges()[token@] == k@,
                None => !self.challenges().contains_key(token@),
            },
    {
        challenge_get(&self.acme_challenges, token)
    }

    /// Forgets the challenge for `token`.
    pub fn remove_acme_challenge(&mut self, token: &str)
        ensures
            final(self).challenges() == old(self).challenges().remove(token@),
            final(self).rate_limits() == old(self).rate_limits(),
            final(self).dir() == old(self).dir(),
            final(self).directory_url() == old(self).directory_url(),
    {
        challenge_remove(&mut self.acme_challenges, token);
    }

    /// Whether a certificate request for `domain` at time `now` must wait
    /// (see `limited`); a domain with no history never waits.
    pub fn is_rate_limited(&self, domain: &str, now: u64) -> (r: bool)
        ensures
            r == (self.rate_limits().contains_key(domain@) && limited(self.rate_limits()[domain@], now)),
    {
        match rate_limit_get(&self.rate_limits, domain) {
            None => false,
            Some(s) => elapsed_secs(now, s.last_request) < COOLDOWN_SECS || (elapsed_secs(now, s.week_start)
                < WEEK_SECS && s.weekly_count >= WEEKLY_LIMIT),
        }
    }

    /// Records a certificate request for `domain` at time `now` (see
    /// `next_rate_state`).
    pub fn update_rate_limit(&mut self, domain: &str, now: u64)
        ensures
            final(self).rate_limits() == old(self).rate_limits().insert(
                domain@,
                next_rate_state(
                    if old(self).rate_limits().contains_key(domain@) {
                        Some(old(self).rate_limits()[domain@])
                    } else {
                        None
                    },
                    now,
                ),
            ),
            final(self).challenges() == old(self).challenges(),
            final(self).dir() == old(self).dir(),
            final(self).directory_url() == old(self).directory_url(),
    {
        let prev = rate_limit_get(&self.rate_limits, domain);
        let next = match prev {
            None => RateLimitState { last_request: now, weekly_count: 1, week_start: now },
            Some(s) => if elapsed_secs(now, s.week_start) >= WEEK_SECS {
                RateLimitState { last_request: now, weekly_count: 1, week_start: now }
            } else {
                RateLimitState {
                    last_request: now,
                    weekly_count: if s.weekly_count < u32::MAX {
                        s.weekly_count + 1
                    } else {
                        u32::MAX
                    },
                    week_start: s.week_start,
                }
            },
        };
        rate_limit_insert(&mut self.rate_limits, domain.to_owned(), next);
    }
}

} // verus!
