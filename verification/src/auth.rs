//! Local bootstrap exchange. A one-use bootstrap secret with a deadline is
//! traded for a session that needs both an HttpOnly cookie and an
//! origin-bound CSRF secret; cookies alone are shared across ports on a
//! loopback host. Times are nanoseconds on one monotonic clock.
use crate::hex::{ascii_chars, decode_32, decode_secret, encode_32, hex_encode};
use subtle::ConstantTimeEq;
use vstd::prelude::*;
use vstd::string::StringSliceAdditionalSpecFns;

verus! {

/// Longest bootstrap lifetime: ten minutes.
pub const MAX_BOOTSTRAP_NANOS: u64 = 600_000_000_000;

/// Longest session lifetime: one day.
pub const MAX_SESSION_NANOS: u64 = 86_400_000_000_000;

#[verifier::external_type_specification]
#[verifier::external_body]
pub struct ExEntropyError(getrandom::Error);

/// Fills `dest` from the operating system's entropy source through
/// `getrandom::fill`. Nothing is promised of the bytes: they are random, and
/// the call may fail.
#[verifier::external_body]
fn fill_random(dest: &mut [u8; 32]) -> (r: Result<(), getrandom::Error>) {
    getrandom::fill(dest)
}

/// Compares two 32-byte secrets with `subtle::ConstantTimeEq::ct_eq`, whose
/// answer is equality of the two byte sequences.
#[verifier::external_body]
fn ct_eq_32(a: &[u8; 32], b: &[u8; 32]) -> (r: bool)
    ensures
        r == (a@ == b@),
{
    bool::from(a.ct_eq(b))
}

/// A 32-byte credential. It has no serialisation and no unredacted debug
/// output; `expose` is the only way to its text.
#[derive(Clone)]
pub struct Secret(pub(crate) [u8; 32]);

impl View for Secret {
    type V = Seq<u8>;

    closed spec fn view(&self) -> Seq<u8> {
        self.0@
    }
}

impl Secret {
    pub fn generate() -> (r: Result<Secret, AuthError>)
        ensures
            r is Ok ==> r->Ok_0@.len() == 32,
            r is Err ==> r->Err_0 == AuthError::Entropy,
    {
        let mut bytes: [u8; 32] = [0u8; 32];
        match fill_random(&mut bytes) {
            Ok(()) => Ok(Secret(bytes)),
            Err(_) => Err(AuthError::Entropy),
        }
    }

    /// Exactly 64 lower-case hex digits.
    pub fn parse(value: &str) -> (r: Option<Secret>)
        ensures
            match decode_secret(value.spec_bytes()) {
                Some(b) => r is Some && r->0@ == b,
                None => r is None,
            },
    {
        match decode_32(value.as_bytes()) {
            Some(b) => Some(Secret(b)),
            None => None,
        }
    }

    pub fn matches(&self, other: &Secret) -> (r: bool)
        ensures
            r == (self@ == other@),
    {
        ct_eq_32(&self.0, &other.0)
    }

    /// Only call for the launcher fragment, bootstrap response or Set-Cookie.
    /// Never put this value in a request path, log or error message.
    pub fn expose(&self) -> (s: String)
        ensures
            s@ == secret_text(self@),
            self@.len() == 32,
            is_public_id(s@),
    {
        let s = encode_32(&self.0);
        assert(self@.len() == 32 && s@ == secret_text(self@));
        s
    }

    fn copy(&self) -> (r: Secret)
        ensures
            r@ == self@,
    {
        Secret(self.0)
    }
}

/// The text that `expose` gives for a secret's bytes.
pub open spec fn secret_text(b: Seq<u8>) -> Seq<char> {
    ascii_chars(hex_encode(b))
}

/// The bytes of the UTF-8 encoding of exposed secret text.
pub open spec fn text_bytes(s: Seq<char>) -> Seq<u8> {
    vstd::utf8::encode_utf8(s)
}

#[derive(Clone, Debug, PartialEq, Eq)]
pub struct SessionId(String);

impl View for SessionId {
    type V = Seq<char>;

    closed spec fn view(&self) -> Seq<char> {
        self.0@
    }
}

impl SessionId {
    pub fn as_str(&self) -> (s: &str)
        ensures
            s@ == self@,
    {
        self.0.as_str()
    }

    fn duplicate(&self) -> (r: SessionId)
        ensures
            r@ == self@,
    {
        SessionId(self.0.clone())
    }
}

/// Public, non-credential identities use independent entropy, never a cookie
/// or bootstrap value reused as a view/connection identifier.
pub fn public_id() -> (r: Result<String, AuthError>)
    ensures
        r is Ok ==> is_public_id(r->Ok_0@),
        r is Err ==> r->Err_0 == AuthError::Entropy,
{
    match Secret::generate() {
        Ok(s) => Ok(s.expose()),
        Err(e) => Err(e),
    }
}

/// The text of 32 random bytes.
pub open spec fn is_public_id(s: Seq<char>) -> bool {
    exists|b: Seq<u8>| b.len() == 32 && s == #[trigger] secret_text(b)
}

pub struct Credentials {
    pub id: SessionId,
    pub cookie: Secret,
    pub csrf: Secret,
}

#[derive(Clone, Copy, Debug, PartialEq, Eq, Structural)]
pub enum AuthError {
    Unauthorized,
    Entropy,
    InvalidLifetime,
}

impl AuthError {
    /// The user-facing message; it never holds a secret.
    pub fn message(&self) -> (s: &'static str)
        ensures
            s == match *self {
                AuthError::Unauthorized => "session expired or unauthorized",
                AuthError::Entropy => "operating system entropy unavailable",
                AuthError::InvalidLifetime => "invalid session lifetime",
            },
    {
        match self {
            AuthError::Unauthorized => "session expired or unauthorized",
            AuthError::Entropy => "operating system entropy unavailable",
            AuthError::InvalidLifetime => "invalid session lifetime",
        }
    }
}

struct Grant {
    credentials: Credentials,
    expires: u64,
}

pub struct Auth {
    bootstrap: Option<(Secret, u64)>,
    session: Option<Grant>,
    session_ttl: u64,
}

/// The session that an exchange granted.
pub struct GrantView {
    pub id: Seq<char>,
    pub cookie: Seq<u8>,
    pub csrf: Seq<u8>,
    pub expires: nat,
}

/// What the authenticator holds: the pending bootstrap secret and its
/// deadline, the granted session, and the session lifetime.
pub struct AuthView {
    pub bootstrap: Option<(Seq<u8>, nat)>,
    pub session: Option<GrantView>,
    pub session_ttl: nat,
}

impl View for Auth {
    type V = AuthView;

    closed spec fn view(&self) -> AuthView {
        AuthView {
            bootstrap: match self.bootstrap {
                Some((s, d)) => Some((s@, d as nat)),
                None => None,
            },
            session: match self.session {
                Some(g) => Some(
                    GrantView {
                        id: g.credentials.id@,
                        cookie: g.credentials.cookie@,
                        csrf: g.credentials.csrf@,
                        expires: g.expires as nat,
                    },
                ),
                None => None,
            },
            session_ttl: self.session_ttl as nat,
        }
    }
}

/// A granted session has consumed the bootstrap: both are never pending at once.
pub open spec fn auth_wf(a: AuthView) -> bool {
    a.session is Some ==> a.bootstrap is None
}

/// Both lifetimes are positive and within their bounds.
pub open spec fn valid_lifetimes(bootstrap_ttl: u64, session_ttl: u64) -> bool {
    0 < bootstrap_ttl <= MAX_BOOTSTRAP_NANOS && 0 < session_ttl <= MAX_SESSION_NANOS
}

/// Nothing more can be authenticated: the session has expired or, without a
/// session, the bootstrap is gone or past its deadline.
pub open spec fn is_expired(a: AuthView, now: nat) -> bool {
    match a.session {
        Some(g) => now >= g.expires,
        None => match a.bootstrap {
            Some((_, deadline)) => now >= deadline,
            None => true,
        },
    }
}

/// The bootstrap token is accepted: it parses, the bootstrap is pending and
/// not past its deadline, and the secrets are equal.
pub open spec fn exchange_accepts(a: AuthView, token: Seq<u8>, now: nat) -> bool {
    match (decode_secret(token), a.bootstrap) {
        (Some(input), Some((expected, deadline))) => now < deadline && input == expected,
        _ => false,
    }
}

/// The state after an accepted exchange that granted `g`.
pub open spec fn granted(a: AuthView, g: GrantView) -> AuthView {
    AuthView { bootstrap: None, session: Some(g), session_ttl: a.session_ttl }
}

/// The cookie and CSRF texts both parse and both equal the live session's.
pub open spec fn authenticate_accepts(a: AuthView, cookie: Seq<u8>, csrf: Seq<u8>, now: nat) -> bool {
    match (decode_secret(cookie), decode_secret(csrf), a.session) {
        (Some(c), Some(x), Some(g)) => now < g.expires && c == g.cookie && x == g.csrf,
        _ => false,
    }
}

/// The session is the given one and has not expired.
pub open spec fn is_alive(a: AuthView, session: Seq<char>, now: nat) -> bool {
    match a.session {
        Some(g) => g.id == session && now < g.expires,
        None => false,
    }
}

/// Revoking drops the session only when it is the named one.
pub open spec fn revoked(a: AuthView, session: Seq<char>) -> AuthView {
    match a.session {
        Some(g) => if g.id == session {
            AuthView { bootstrap: a.bootstrap, session: None, session_ttl: a.session_ttl }
        } else {
            a
        },
        None => a,
    }
}

impl Auth {
    pub fn expired(&self, now: u64) -> (r: bool)
        ensures
            r == is_expired(self@, now as nat),
    {
        match &self.session {
            Some(g) => now >= g.expires,
            None => match &self.bootstrap {
                Some((_, deadline)) => now >= *deadline,
                None => true,
            },
        }
    }

    /// M1 local owner session only. Shares and independent identities are a
    /// later service; do not infer guest grants from possession of a view ID.
    pub fn new(now: u64, bootstrap_ttl: u64, session_ttl: u64) -> (r: Result<(Auth, Secret), AuthError>)
        requires
            valid_lifetimes(bootstrap_ttl, session_ttl) ==> now + bootstrap_ttl <= u64::MAX,
        ensures
            r matches Ok((a, _)) ==> auth_wf(a@),
            !valid_lifetimes(bootstrap_ttl, session_ttl) <==> r == Err::<(Auth, Secret), AuthError>(
                AuthError::InvalidLifetime,
            ),
            r is Err ==> r->Err_0 == AuthError::InvalidLifetime || r->Err_0 == AuthError::Entropy,
            r matches Ok((a, t)) ==> {
                &&& t@.len() == 32
                &&& a@ == AuthView {
                    bootstrap: Some((t@, (now + bootstrap_ttl) as nat)),
                    session: None,
                    session_ttl: session_ttl as nat,
                }
            },
    {
        if bootstrap_ttl == 0 || bootstrap_ttl > MAX_BOOTSTRAP_NANOS || session_ttl == 0
            || session_ttl > MAX_SESSION_NANOS {
            return Err(AuthError::InvalidLifetime);
        }
        let token = match Secret::generate() {
            Ok(t) => t,
            Err(e) => return Err(e),
        };
        let kept = token.copy();
        Ok((Auth { bootstrap: Some((kept, now + bootstrap_ttl)), session: None, session_ttl }, token))
    }

    /// Trades the one-use bootstrap token for session credentials.
    pub fn exchange(&mut self, token: &str, now: u64) -> (r: Result<Credentials, AuthError>)
        requires
            exchange_accepts(old(self)@, token.spec_bytes(), now as nat) ==> now
                + old(self)@.session_ttl <= u64::MAX,
        ensures
            auth_wf(old(self)@) ==> auth_wf(final(self)@),
            !exchange_accepts(old(self)@, token.spec_bytes(), now as nat) ==> {
                &&& r == Err::<Credentials, AuthError>(AuthError::Unauthorized)
                &&& final(self)@ == old(self)@
            },
            exchange_accepts(old(self)@, token.spec_bytes(), now as nat) ==> match r {
                Ok(c) => {
                    &&& c.cookie@.len() == 32
                    &&& c.csrf@.len() == 32
                    &&& is_public_id(c.id@)
                    &&& final(self)@ == granted(
                        old(self)@,
                        GrantView {
                            id: c.id@,
                            cookie: c.cookie@,
                            csrf: c.csrf@,
                            expires: (now + old(self)@.session_ttl) as nat,
                        },
                    )
                },
                Err(e) => e == AuthError::Entropy && final(self)@ == old(self)@,
            },
    {
        let input = match Secret::parse(token) {
            Some(s) => s,
            None => return Err(AuthError::Unauthorized),
        };
        let accepted = match &self.bootstrap {
            Some((expected, deadline)) => now < *deadline && expected.matches(&input),
            None => false,
        };
        if !accepted {
            return Err(AuthError::Unauthorized);
        }
        // Allocate every secret before consuming the one-use grant. An OS
        // entropy failure must not produce a partially authenticated session.
        let id = match public_id() {
            Ok(s) => SessionId(s),
            Err(e) => return Err(e),
        };
        let cookie = match Secret::generate() {
            Ok(s) => s,
            Err(e) => return Err(e),
        };
        let csrf = match Secret::generate() {
            Ok(s) => s,
            Err(e) => return Err(e),
        };
        let credentials = Credentials { id, cookie, csrf };
        let kept = Credentials {
            id: credentials.id.duplicate(),
            cookie: credentials.cookie.copy(),
            csrf: credentials.csrf.copy(),
        };
        self.session = Some(Grant { credentials: kept, expires: now + self.session_ttl });
        self.bootstrap = None;
        Ok(credentials)
    }

    pub fn authenticate(&self, cookie: &str, csrf: &str, now: u64) -> (r: Result<SessionId, AuthError>)
        ensures
            authenticate_accepts(self@, cookie.spec_bytes(), csrf.spec_bytes(), now as nat)
                <==> r is Ok,
            r is Ok ==> r->Ok_0@ == self@.session->0.id,
            r is Err ==> r->Err_0 == AuthError::Unauthorized,
    {
        let cookie = match Secret::parse(cookie) {
            Some(s) => s,
            None => return Err(AuthError::Unauthorized),
        };
        let csrf = match Secret::parse(csrf) {
            Some(s) => s,
            None => return Err(AuthError::Unauthorized),
        };
        let grant = match &self.session {
            Some(g) => g,
            None => return Err(AuthError::Unauthorized),
        };
        // Compare both fixed-size secrets before deciding.
        let cookie_ok = grant.credentials.cookie.matches(&cookie);
        let csrf_ok = grant.credentials.csrf.matches(&csrf);
        if now >= grant.expires || !(cookie_ok && csrf_ok) {
            return Err(AuthError::Unauthorized);
        }
        Ok(grant.credentials.id.duplicate())
    }

    pub fn alive(&self, session: &SessionId, now: u64) -> (r: bool)
        ensures
            r == is_alive(self@, session@, now as nat),
    {
        match &self.session {
            Some(g) => g.credentials.id.0 == session.0 && now < g.expires,
            None => false,
        }
    }

    pub fn revoke(&mut self, session: &SessionId)
        ensures
            final(self)@ == revoked(old(self)@, session@),
            auth_wf(old(self)@) ==> auth_wf(final(self)@),
    {
        let hit = match &self.session {
            Some(g) => g.credentials.id.0 == session.0,
            None => false,
        };
        if hit {
            self.session = None;
        }
    }
}

/// The text of a secret, sent back as a request string, parses to the same
/// secret.
pub proof fn law_exposed_secret_parses_back(b: Seq<u8>)
    requires
        b.len() == 32,
    ensures
        decode_secret(text_bytes(secret_text(b))) == Some(b),
{
    crate::hex::lemma_decode_encode(b);
    let e = hex_encode(b);
    let chars = ascii_chars(e);
    assert(vstd::utf8::is_ascii_chars(chars)) by {
        assert forall|i: int| 0 <= i < chars.len() implies (#[trigger] chars[i] as u32) < 128 by {
            assert(e[i] < 128);
        }
    }
    vstd::utf8::is_ascii_chars_encode_utf8(chars);
    assert forall|i: int| 0 <= i < e.len() implies text_bytes(chars)[i] == e[i] by {
        assert(chars[i] as u8 == text_bytes(chars)[i]);
        assert(e[i] < 128);
    }
    assert(text_bytes(chars) =~= e);
}

/// Exposing a secret parsed from request text gives that text back.
pub proof fn law_parsed_secret_exposes_its_text(t: Seq<u8>)
    requires
        decode_secret(t) is Some,
    ensures
        text_bytes(secret_text(decode_secret(t)->0)) == t,
{
    crate::hex::lemma_encode_decode(t);
    let b = decode_secret(t)->0;
    assert(b.len() == 32);
    crate::hex::lemma_decode_encode(b);
    let e = hex_encode(b);
    let chars = ascii_chars(e);
    assert(vstd::utf8::is_ascii_chars(chars)) by {
        assert forall|i: int| 0 <= i < chars.len() implies (#[trigger] chars[i] as u32) < 128 by {
            assert(e[i] < 128);
        }
    }
    vstd::utf8::is_ascii_chars_encode_utf8(chars);
    assert forall|i: int| 0 <= i < e.len() implies text_bytes(chars)[i] == e[i] by {
        assert(chars[i] as u8 == text_bytes(chars)[i]);
        assert(e[i] < 128);
    }
    assert(text_bytes(chars) =~= e);
}

/// The bootstrap is one use: once a token has been accepted, no token is
/// accepted again, at any time.
pub proof fn law_bootstrap_is_single_use(
    a: AuthView,
    token: Seq<u8>,
    now: nat,
    g: GrantView,
    again: Seq<u8>,
    later: nat,
)
    requires
        exchange_accepts(a, token, now),
    ensures
        !exchange_accepts(granted(a, g), again, later),
{
}

/// No token is accepted at or after the bootstrap deadline.
pub proof fn law_bootstrap_deadline(a: AuthView, token: Seq<u8>, now: nat)
    requires
        a.bootstrap is Some,
        now >= a.bootstrap.unwrap().1,
    ensures
        !exchange_accepts(a, token, now),
{
}

/// A request is authenticated only with both the session cookie and the
/// session CSRF secret, in their right places, before the session expires.
pub proof fn law_session_needs_cookie_and_csrf(a: AuthView, cookie: Seq<u8>, csrf: Seq<u8>, now: nat)
    requires
        authenticate_accepts(a, cookie, csrf, now),
    ensures
        a.session is Some,
        decode_secret(cookie) == Some(a.session->0.cookie),
        decode_secret(csrf) == Some(a.session->0.csrf),
        is_alive(a, a.session->0.id, now),
        !is_expired(a, now),
{
}

/// Expiry is final: once expired, the authenticator stays expired and
/// authenticates nothing at any later time.
pub proof fn law_expiry_is_final(a: AuthView, now: nat, later: nat, cookie: Seq<u8>, csrf: Seq<u8>)
    requires
        auth_wf(a),
        is_expired(a, now),
        now <= later,
    ensures
        is_expired(a, later),
        !authenticate_accepts(a, cookie, csrf, later),
        !exchange_accepts(a, cookie, later),
{
}

/// A revoked session authenticates nothing and is no longer alive; once the
/// bootstrap has been used, the authenticator is then expired.
pub proof fn law_revocation_fails_closed(a: AuthView, cookie: Seq<u8>, csrf: Seq<u8>, now: nat)
    requires
        a.session is Some,
    ensures
        !authenticate_accepts(revoked(a, a.session->0.id), cookie, csrf, now),
        !is_alive(revoked(a, a.session->0.id), a.session->0.id, now),
        a.bootstrap is None ==> is_expired(revoked(a, a.session->0.id), now),
{
}

/// Revoking another session identity changes nothing.
pub proof fn law_revoke_other_is_noop(a: AuthView, other: Seq<char>)
    requires
        a.session is Some ==> a.session->0.id != other,
    ensures
        revoked(a, other) == a,
{
}

} // verus!
