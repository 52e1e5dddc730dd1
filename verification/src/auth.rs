//! Login and sessions: password hashes, session tokens, the session cookie,
//! and which requests a session may make.

use vstd::prelude::*;
use rand::RngCore;
use sha2::Digest;
use crate::config::AuthConfig;
use crate::lookup::sviews;
use crate::model::opt_view;
use crate::store::opt_str;
use crate::text::{
    chars_of, digit_char, has_prefix, is_ws, lacks, lemma_split_append_word, split_chars, split_spec,
    starts_with, string_from_chars, suffix_chars, trim_chars, trim_end_spec, trim_spec,
    trim_start_spec, views,
};

verus! {

// ---------------------------------------------------------------------------
// Hex encoding, password hashes and tokens
// ---------------------------------------------------------------------------

/// The lower-case hexadecimal digit of a value below 16.
pub open spec fn hex_char(d: int) -> char {
    if d < 10 {
        digit_char(d)
    } else if d == 10 {
        'a'
    } else if d == 11 {
        'b'
    } else if d == 12 {
        'c'
    } else if d == 13 {
        'd'
    } else if d == 14 {
        'e'
    } else {
        'f'
    }
}

/// Bytes as lower-case hexadecimal, two digits per byte (`{:02x}` each).
pub open spec fn hex_spec(bytes: Seq<u8>) -> Seq<char>
    decreases bytes.len(),
{
    if bytes.len() == 0 {
        Seq::empty()
    } else {
        let b = bytes.last();
        hex_spec(bytes.drop_last()) + seq![hex_char(b as int / 16), hex_char(b as int % 16)]
    }
}

fn hex_digit(d: u8) -> (c: char)
    requires
        d < 16,
    ensures
        c == hex_char(d as int),
{
    if d == 0 {
        '0'
    } else if d == 1 {
        '1'
    } else if d == 2 {
        '2'
    } else if d == 3 {
        '3'
    } else if d == 4 {
        '4'
    } else if d == 5 {
        '5'
    } else if d == 6 {
        '6'
    } else if d == 7 {
        '7'
    } else if d == 8 {
        '8'
    } else if d == 9 {
        '9'
    } else if d == 10 {
        'a'
    } else if d == 11 {
        'b'
    } else if d == 12 {
        'c'
    } else if d == 13 {
        'd'
    } else if d == 14 {
        'e'
    } else {
        'f'
    }
}

/// Bytes as lower-case hexadecimal text.
pub fn hex_lower(bytes: &Vec<u8>) -> (r: String)
    ensures
        r@ == hex_spec(bytes@),
        r@.len() == 2 * bytes@.len(),
{
    let mut out: Vec<char> = Vec::new();
    let mut i: usize = 0;
    proof {
        assert(bytes@.subrange(0, 0) =~= Seq::<u8>::empty());
    }
    while i < bytes.len()
        invariant
            i <= bytes@.len(),
            out@ == hex_spec(bytes@.subrange(0, i as int)),
            out@.len() == 2 * i,
        decreases bytes.len() - i,
    {
        let b = bytes[i];
        let ghost pre = bytes@.subrange(0, i as int);
        let ghost post = bytes@.subrange(0, i + 1);
        proof {
            assert(post.drop_last() =~= pre);
            assert(post.last() == b);
        }
        out.push(hex_digit(b / 16));
        out.push(hex_digit(b % 16));
        i = i + 1;
        proof {
            assert(out@ =~= hex_spec(post));
        }
    }
    proof {
        assert(bytes@.subrange(0, bytes@.len() as int) =~= bytes@);
    }
    string_from_chars(&out)
}

/// The SHA-256 digest of the UTF-8 encoding of a text.
pub uninterp spec fn sha256_of_text(s: Seq<char>) -> Seq<u8>;

/// sha2's `Sha256::digest` of the UTF-8 bytes of `s`. The contract claims
/// that the result is the digest named `sha256_of_text` of the text, and that
/// it is 32 bytes long (SHA-256's output size).
#[verifier::external_body]
fn sha256_text(s: &str) -> (r: Vec<u8>)
    ensures
        r@ == sha256_of_text(s@),
        r@.len() == 32,
{
    sha2::Sha256::digest(s.as_bytes()).to_vec()
}

/// The stored form of a password: its SHA-256 digest in lower-case hex.
pub open spec fn password_hash_of(password: Seq<char>) -> Seq<char> {
    hex_spec(sha256_of_text(password))
}

/// Hashes a password as the configuration stores it (SHA-256, lower-case hex).
pub fn hash_password(password: &str) -> (r: String)
    ensures
        r@ == password_hash_of(password@),
        r@.len() == 64,
{
    let digest = sha256_text(password);
    hex_lower(&digest)
}

/// 32 bytes from the operating system's random source, through rand's
/// `OsRng::try_fill_bytes`; `None` when the source fails. The contract claims
/// only the length of a result: the bytes are random.
#[verifier::external_body]
fn random_bytes_32() -> (r: Option<Vec<u8>>)
    ensures
        r matches Some(v) ==> v@.len() == 32,
{
    let mut bytes: Vec<u8> = vec![0u8; 32];
    rand::rngs::OsRng.try_fill_bytes(bytes.as_mut_slice()).ok()?;
    Some(bytes)
}

/// A fresh session token: 32 random bytes in lower-case hex; `None` when no
/// random bytes could be had.
pub fn generate_token() -> (r: Option<String>)
    ensures
        r matches Some(t) ==> (exists|b: Seq<u8>| b.len() == 32 && t@ == hex_spec(b)) && t@.len() == 64,
{
    match random_bytes_32() {
        Some(bytes) => Some(hex_lower(&bytes)),
        None => None,
    }
}

// ---------------------------------------------------------------------------
// The session cookie
// ---------------------------------------------------------------------------

/// The value of the first `session=` cookie in a `Cookie` header.
pub open spec fn cookie_token(parts: Seq<Seq<char>>) -> Option<Seq<char>>
    decreases parts.len(),
{
    if parts.len() == 0 {
        None
    } else {
        let p = trim_spec(parts[0]);
        if has_prefix(p, "session="@) {
            Some(p.subrange("session="@.len() as int, p.len() as int))
        } else {
            cookie_token(parts.drop_first())
        }
    }
}

/// The token of an `Authorization: Bearer <token>` header: the text after
/// `Bearer `, trimmed, when something is left.
pub open spec fn bearer_token(h: Seq<char>) -> Option<Seq<char>> {
    if has_prefix(h, "Bearer "@) {
        let t = trim_spec(h.subrange("Bearer "@.len() as int, h.len() as int));
        if t.len() > 0 {
            Some(t)
        } else {
            None
        }
    } else {
        None
    }
}

/// The session token a request presents: the `session` cookie, or else a
/// bearer token in the `Authorization` header.
pub open spec fn request_token(cookie: Option<Seq<char>>, authorization: Option<Seq<char>>) -> Option<Seq<char>> {
    let from_cookie = match cookie {
        Some(c) => cookie_token(split_spec(c, ';')),
        None => None,
    };
    match from_cookie {
        Some(t) => Some(t),
        None => match authorization {
            Some(h) => bearer_token(h),
            None => None,
        },
    }
}

fn cookie_session(c: &str) -> (r: Option<String>)
    ensures
        match cookie_token(split_spec(c@, ';')) {
            Some(t) => r is Some && r->0@ == t,
            None => r is None,
        },
{
    let cs = chars_of(c);
    let parts = split_chars(&cs, ';');
    let pre = chars_of("session=");
    let mut i: usize = 0;
    proof {
        assert(views(parts@).subrange(0, views(parts@).len() as int) =~= views(parts@));
    }
    while i < parts.len()
        invariant
            i <= parts@.len(),
            pre@ == "session="@,
            views(parts@) == split_spec(c@, ';'),
            cookie_token(views(parts@)) == cookie_token(views(parts@).subrange(i as int, parts@.len() as int)),
        decreases parts.len() - i,
    {
        let ghost rest = views(parts@).subrange(i as int, parts@.len() as int);
        proof {
            assert(rest.drop_first() =~= views(parts@).subrange(i + 1, parts@.len() as int));
            assert(rest[0] == parts@[i as int]@);
        }
        let p = trim_chars(&parts[i]);
        if starts_with(&p, &pre) {
            let v = suffix_chars(&p, pre.len());
            proof {
                assert(trim_spec(rest[0]) == p@);
                assert(cookie_token(rest) == Some(v@));
            }
            return Some(string_from_chars(&v));
        }
        i = i + 1;
    }
    None
}

fn bearer(h: &str) -> (r: Option<String>)
    ensures
        opt_view(r) == bearer_token(h@),
{
    let cs = chars_of(h);
    let pre = chars_of("Bearer ");
    if !starts_with(&cs, &pre) {
        return None;
    }
    let rest = suffix_chars(&cs, pre.len());
    let t = trim_chars(&rest);
    if t.len() > 0 {
        Some(string_from_chars(&t))
    } else {
        None
    }
}

/// The session token of a request, from its `Cookie` header or else from an
/// `Authorization: Bearer` header.
pub fn extract_session_token(cookie: Option<&str>, authorization: Option<&str>) -> (r: Option<String>)
    ensures
        opt_view(r) == request_token(opt_str(cookie), opt_str(authorization)),
{
    if let Some(c) = cookie {
        if let Some(t) = cookie_session(c) {
            return Some(t);
        }
    }
    match authorization {
        Some(h) => bearer(h),
        None => None,
    }
}

// ---------------------------------------------------------------------------
// Sessions
// ---------------------------------------------------------------------------

/// The tokens held in a list.
pub open spec fn token_set(v: Seq<String>) -> Set<Seq<char>> {
    Set::new(|t: Seq<char>| exists|i: int| 0 <= i < v.len() && (#[trigger] v[i])@ == t)
}

/// The open sessions: tokens with full access and read-only tokens.
pub struct SessionStore {
    pub admin: Vec<String>,
    pub viewer: Vec<String>,
}

impl SessionStore {
    /// The admin tokens.
    pub open spec fn admins(&self) -> Set<Seq<char>> {
        token_set(self.admin@)
    }

    /// The read-only tokens.
    pub open spec fn viewers(&self) -> Set<Seq<char>> {
        token_set(self.viewer@)
    }
}

/// A store without sessions.
pub fn new_sessions() -> (r: SessionStore)
    ensures
        r.admins() == Set::<Seq<char>>::empty(),
        r.viewers() == Set::<Seq<char>>::empty(),
{
    let r = SessionStore { admin: Vec::new(), viewer: Vec::new() };
    proof {
        assert(r.admins() =~= Set::<Seq<char>>::empty());
        assert(r.viewers() =~= Set::<Seq<char>>::empty());
    }
    r
}

/// Whether the list holds the token.
pub fn holds_token(v: &Vec<String>, t: &str) -> (r: bool)
    ensures
        r == token_set(v@).contains(t@),
{
    let mut i: usize = 0;
    while i < v.len()
        invariant
            i <= v@.len(),
            forall|j: int| 0 <= j < i ==> (#[trigger] v@[j])@ != t@,
        decreases v.len() - i,
    {
        if crate::text::str_eq(v[i].as_str(), t) {
            proof {
                assert(v@[i as int]@ == t@);
            }
            return true;
        }
        i = i + 1;
    }
    false
}

/// Adds a token to a list.
pub fn insert_token(v: &mut Vec<String>, t: String)
    ensures
        token_set(final(v)@) == token_set(old(v)@).insert(t@),
{
    let ghost tv = t@;
    v.push(t);
    proof {
        assert forall|x: Seq<char>| token_set(v@).contains(x) == token_set(old(v)@).insert(tv).contains(x) by {
            if token_set(old(v)@).contains(x) {
                let j = choose|j: int| 0 <= j < old(v)@.len() && (#[trigger] old(v)@[j])@ == x;
                assert(v@[j] == old(v)@[j]);
            }
            if x == tv {
                assert(v@[v@.len() - 1]@ == tv);
            }
            if token_set(v@).contains(x) {
                let j = choose|j: int| 0 <= j < v@.len() && (#[trigger] v@[j])@ == x;
                if j < old(v)@.len() {
                    assert(old(v)@[j] == v@[j]);
                }
            }
        }
        assert(token_set(v@) =~= token_set(old(v)@).insert(tv));
    }
}

/// Removes every occurrence of a token from a list.
pub fn remove_token(v: &mut Vec<String>, t: &str)
    ensures
        token_set(final(v)@) == token_set(old(v)@).remove(t@),
{
    let mut kept: Vec<String> = Vec::new();
    let mut i: usize = 0;
    while i < v.len()
        invariant
            i <= v@.len(),
            forall|x: Seq<char>| token_set(kept@).contains(x) <==> (x != t@ && exists|j: int| 0 <= j < i && (#[trigger] v@[j])@ == x),
        decreases v.len() - i,
    {
        if !crate::text::str_eq(v[i].as_str(), t) {
            let ghost before = kept@;
            let s = v[i].clone();
            kept.push(s);
            proof {
                assert forall|x: Seq<char>| token_set(kept@).contains(x) <==> (x != t@ && exists|j: int| 0 <= j < i + 1 && (#[trigger] v@[j])@ == x) by {
                    if token_set(kept@).contains(x) {
                        let j = choose|j: int| 0 <= j < kept@.len() && (#[trigger] kept@[j])@ == x;
                        if j < before.len() {
                            assert(before[j] == kept@[j]);
                            assert(token_set(before).contains(x));
                        } else {
                            assert(v@[i as int]@ == x);
                        }
                    }
                    if x != t@ && exists|j: int| 0 <= j < i + 1 && (#[trigger] v@[j])@ == x {
                        let j = choose|j: int| 0 <= j < i + 1 && (#[trigger] v@[j])@ == x;
                        if j < i {
                            assert(token_set(before).contains(x));
                            let k = choose|k: int| 0 <= k < before.len() && (#[trigger] before[k])@ == x;
                            assert(kept@[k] == before[k]);
                        } else {
                            assert(kept@[kept@.len() - 1]@ == x);
                        }
                    }
                }
            }
        } else {
            proof {
                assert forall|x: Seq<char>| token_set(kept@).contains(x) <==> (x != t@ && exists|j: int| 0 <= j < i + 1 && (#[trigger] v@[j])@ == x) by {
                    if x != t@ && exists|j: int| 0 <= j < i + 1 && (#[trigger] v@[j])@ == x {
                        let j = choose|j: int| 0 <= j < i + 1 && (#[trigger] v@[j])@ == x;
                        assert(j < i);
                    }
                }
            }
        }
        i = i + 1;
    }
    *v = kept;
    proof {
        assert(token_set(v@) =~= token_set(old(v)@).remove(t@));
    }
}

/// What a session may do.
#[derive(PartialEq, Eq, Structural, Debug, Clone, Copy)]
pub enum Role {
    Admin,
    Viewer,
    Unknown,
}

/// The role of a request: everyone is admin without authentication; else the
/// role of the session whose token the request carries.
pub open spec fn role_spec(s: SessionStore, auth_enabled: bool, token: Option<Seq<char>>) -> Role {
    if !auth_enabled {
        Role::Admin
    } else {
        match token {
            Some(t) => if s.admins().contains(t) {
                Role::Admin
            } else if s.viewers().contains(t) {
                Role::Viewer
            } else {
                Role::Unknown
            },
            None => Role::Unknown,
        }
    }
}

/// The role of a request that carries `token` (answered by `/api/me`).
pub fn role_of(s: &SessionStore, auth_enabled: bool, token: &Option<String>) -> (r: Role)
    ensures
        r == role_spec(*s, auth_enabled, opt_view(*token)),
{
    if !auth_enabled {
        return Role::Admin;
    }
    match token {
        Some(t) => if holds_token(&s.admin, t.as_str()) {
            Role::Admin
        } else if holds_token(&s.viewer, t.as_str()) {
            Role::Viewer
        } else {
            Role::Unknown
        },
        None => Role::Unknown,
    }
}

/// Whether a request may read: authentication is off or it carries a session.
pub fn may_read(s: &SessionStore, auth_enabled: bool, token: &Option<String>) -> (r: bool)
    ensures
        r == (role_spec(*s, auth_enabled, opt_view(*token)) != Role::Unknown),
{
    let role = role_of(s, auth_enabled, token);
    role != Role::Unknown
}

/// Whether a request may change things: authentication is off or it carries an admin session.
pub fn may_write(s: &SessionStore, auth_enabled: bool, token: &Option<String>) -> (r: bool)
    ensures
        r == (role_spec(*s, auth_enabled, opt_view(*token)) == Role::Admin),
{
    let role = role_of(s, auth_enabled, token);
    role == Role::Admin
}

/// Ends the session of a token, whichever kind it is.
pub fn logout(s: &mut SessionStore, token: &Option<String>)
    ensures
        match opt_view(*token) {
            Some(t) => final(s).admins() == old(s).admins().remove(t) && final(s).viewers() == old(s).viewers().remove(t),
            None => final(s).admins() == old(s).admins() && final(s).viewers() == old(s).viewers(),
        },
{
    if let Some(t) = token {
        remove_token(&mut s.admin, t.as_str());
        remove_token(&mut s.viewer, t.as_str());
    }
}

/// The cookie that clears the session.
pub open spec fn logout_cookie_text() -> Seq<char> {
    "session=; HttpOnly; Secure; SameSite=Strict; Path=/; Max-Age=0"@
}

/// The cookie sent on logout.
pub fn logout_cookie() -> (r: String)
    ensures
        r@ == logout_cookie_text(),
{
    String::from_str("session=; HttpOnly; Secure; SameSite=Strict; Path=/; Max-Age=0")
}

// ---------------------------------------------------------------------------
// Login
// ---------------------------------------------------------------------------

/// The role that a user name and password hash grant: the admin account, or
/// the read-only account when one is configured.
pub open spec fn credential_role(auth: AuthConfig, username: Seq<char>, hash: Seq<char>) -> Option<Role> {
    if username == auth.username@ && hash == auth.password_hash@ {
        Some(Role::Admin)
    } else if auth.viewer_username@.len() > 0 && username == auth.viewer_username@ && hash
        == auth.viewer_password_hash@ {
        Some(Role::Viewer)
    } else {
        None
    }
}

/// The role that a user name and the hash of the entered password grant.
pub fn role_for_credentials(auth: &AuthConfig, username: &str, hash: &str) -> (r: Option<Role>)
    ensures
        r == credential_role(*auth, username@, hash@),
{
    let user_ok = crate::text::str_eq(username, auth.username.as_str());
    let hash_ok = crate::text::str_eq(hash, auth.password_hash.as_str());
    if user_ok && hash_ok {
        return Some(Role::Admin);
    }
    let viewer_set = auth.viewer_username.unicode_len() > 0;
    let vuser_ok = crate::text::str_eq(username, auth.viewer_username.as_str());
    let vhash_ok = crate::text::str_eq(hash, auth.viewer_password_hash.as_str());
    if viewer_set && vuser_ok && vhash_ok {
        Some(Role::Viewer)
    } else {
        None
    }
}

/// The session cookie of a login (one day, HTTPS only).
pub open spec fn login_cookie_text(token: Seq<char>) -> Seq<char> {
    "session="@ + token + "; HttpOnly; Secure; SameSite=Strict; Path=/; Max-Age=86400"@
}

/// The answer to a login request.
pub enum LoginOutcome {
    /// Authentication is off: everyone is admin, no session is opened.
    Open,
    /// Unknown user name or wrong password.
    Rejected,
    /// A session was opened for the role.
    Admitted { role: Role, token: String, cookie: String },
    /// The credentials are valid, but no random token could be had: no session.
    Unavailable,
}

/// Logs a user in: checks the password against the configured hashes and
/// opens an admin or a read-only session with a fresh token.
pub fn login(s: &mut SessionStore, auth: &AuthConfig, username: &str, password: &str) -> (r: LoginOutcome)
    ensures
        !auth.enabled ==> r is Open && *final(s) == *old(s),
        auth.enabled ==> match credential_role(*auth, username@, password_hash_of(password@)) {
            None => r is Rejected && *final(s) == *old(s),
            Some(role) => match r {
                LoginOutcome::Admitted { role: rr, token, cookie } => {
                    &&& rr == role
                    &&& token@.len() == 64
                    &&& cookie@ == login_cookie_text(token@)
                    &&& role == Role::Admin ==> final(s).admins() == old(s).admins().insert(token@)
                        && final(s).viewer == old(s).viewer
                    &&& role == Role::Viewer ==> final(s).viewers() == old(s).viewers().insert(token@)
                        && final(s).admin == old(s).admin
                },
                LoginOutcome::Unavailable => *final(s) == *old(s),
                _ => false,
            },
        },
{
    if !auth.enabled {
        return LoginOutcome::Open;
    }
    let hash = hash_password(password);
    match role_for_credentials(auth, username, hash.as_str()) {
        None => LoginOutcome::Rejected,
        Some(role) => {
            let token = match generate_token() {
                Some(t) => t,
                None => return LoginOutcome::Unavailable,
            };
            let mut cookie = String::from_str("session=");
            cookie.append(token.as_str());
            cookie.append("; HttpOnly; Secure; SameSite=Strict; Path=/; Max-Age=86400");
            if role == Role::Admin {
                insert_token(&mut s.admin, token.clone());
            } else {
                insert_token(&mut s.viewer, token.clone());
            }
            LoginOutcome::Admitted { role, token, cookie }
        },
    }
}

/// The kiosk cookie: a read-only session for ten years, also over plain HTTP.
pub open spec fn kiosk_cookie_text(token: Seq<char>) -> Seq<char> {
    "session="@ + token + "; HttpOnly; SameSite=Lax; Path=/; Max-Age=315360000"@
}

/// The answer to a kiosk link.
pub enum KioskOutcome {
    /// Authentication is off or no kiosk token is configured: go to the start page.
    Redirect,
    /// The link's token is wrong.
    Forbidden,
    /// A read-only session was opened.
    Admitted { token: String, cookie: String },
    /// The link is right, but no random token could be had: no session.
    Unavailable,
}

/// Opens a read-only session for the kiosk link `/kiosk/<token>`.
pub fn kiosk_login(s: &mut SessionStore, auth: &AuthConfig, link_token: &str) -> (r: KioskOutcome)
    ensures
        (!auth.enabled || auth.kiosk_token@.len() == 0) ==> r is Redirect && *final(s) == *old(s),
        (auth.enabled && auth.kiosk_token@.len() > 0 && link_token@ != auth.kiosk_token@) ==> r is Forbidden
            && *final(s) == *old(s),
        (auth.enabled && auth.kiosk_token@.len() > 0 && link_token@ == auth.kiosk_token@) ==> match r {
            KioskOutcome::Admitted { token, cookie } => {
                &&& token@.len() == 64
                &&& cookie@ == kiosk_cookie_text(token@)
                &&& final(s).viewers() == old(s).viewers().insert(token@)
                &&& final(s).admin == old(s).admin
            },
            KioskOutcome::Unavailable => *final(s) == *old(s),
            _ => false,
        },
{
    if !auth.enabled || auth.kiosk_token.unicode_len() == 0 {
        return KioskOutcome::Redirect;
    }
    if !crate::text::str_eq(link_token, auth.kiosk_token.as_str()) {
        return KioskOutcome::Forbidden;
    }
    let token = match generate_token() {
        Some(t) => t,
        None => return KioskOutcome::Unavailable,
    };
    let mut cookie = String::from_str("session=");
    cookie.append(token.as_str());
    cookie.append("; HttpOnly; SameSite=Lax; Path=/; Max-Age=315360000");
    insert_token(&mut s.viewer, token.clone());
    KioskOutcome::Admitted { token, cookie }
}


// ---------------------------------------------------------------------------
// Laws of sessions
// ---------------------------------------------------------------------------

proof fn lemma_hex_chars(b: Seq<u8>)
    ensures
        forall|i: int| 0 <= i < hex_spec(b).len() ==> {
            let c = #[trigger] hex_spec(b)[i];
            ('0' <= c && c <= '9') || ('a' <= c && c <= 'f')
        },
    decreases b.len(),
{
    if b.len() > 0 {
        lemma_hex_chars(b.drop_last());
        let h0 = hex_spec(b.drop_last());
        let h = hex_spec(b);
        let x = b.last();
        assert(x as int / 16 < 16);
        assert forall|i: int| 0 <= i < h.len() implies {
            let c = #[trigger] h[i];
            ('0' <= c && c <= '9') || ('a' <= c && c <= 'f')
        } by {
            if i < h0.len() {
                assert(h[i] == h0[i]);
            }
        }
    }
}

/// The cookie that a login or a kiosk link sets, sent back by the browser as
/// `session=<token>`, presents exactly the token of the new session.
pub proof fn law_session_cookie_round_trip(b: Seq<u8>)
    ensures
        request_token(Some("session="@ + hex_spec(b)), None) == Some(hex_spec(b)),
{
    reveal_strlit("session=");
    let t = hex_spec(b);
    let c = "session="@ + t;
    lemma_hex_chars(b);
    assert(lacks(c, ';')) by {
        assert forall|i: int| 0 <= i < c.len() implies c[i] != ';' by {
            if i >= 8 {
                assert(c[i] == t[i - 8]);
            }
        }
    }
    lemma_split_append_word(Seq::<char>::empty(), c, ';');
    assert(Seq::<char>::empty() + c =~= c);
    assert(split_spec(Seq::<char>::empty(), ';') =~= seq![Seq::<char>::empty()]);
    let parts = split_spec(c, ';');
    assert(parts =~= seq![c]);
    assert(!is_ws(c[0]));
    assert(trim_start_spec(c) == c);
    if t.len() > 0 {
        assert(c.last() == t.last());
        assert(!is_ws(c.last()));
    } else {
        assert(c.last() == '=');
    }
    assert(trim_end_spec(c) == c);
    assert(trim_spec(c) == c);
    assert(c.subrange(0, 8) =~= "session="@);
    assert(has_prefix(c, "session="@));
    assert(c.subrange(8, c.len() as int) =~= t);
    assert(cookie_token(parts) == Some(t));
}

/// After logout, the token grants nothing, whichever session it opened.
pub proof fn law_logout_revokes(after: SessionStore, before: SessionStore, token: Seq<char>)
    requires
        after.admins() == before.admins().remove(token),
        after.viewers() == before.viewers().remove(token),
    ensures
        role_spec(after, true, Some(token)) == Role::Unknown,
{
}

/// After an admin login, its token may write; after a read-only login whose
/// token holds no admin session, it may read but not write.
pub proof fn law_login_grants_role(before: SessionStore, after: SessionStore, token: Seq<char>, role: Role)
    requires
        role == Role::Admin ==> after.admins() == before.admins().insert(token),
        role == Role::Viewer ==> after.viewers() == before.viewers().insert(token) && after.admins() == before.admins()
            && !before.admins().contains(token),
        role != Role::Unknown,
    ensures
        role_spec(after, true, Some(token)) == role,
{
}

/// A login with the configured user name and the password whose hash the
/// configuration stores is an admin login.
pub proof fn law_configured_password_admits(auth: AuthConfig, password: Seq<char>)
    requires
        auth.password_hash@ == password_hash_of(password),
    ensures
        credential_role(auth, auth.username@, password_hash_of(password)) == Some(Role::Admin),
{
}

} // verus!
