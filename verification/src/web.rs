//! The web console's own rules: the session cookie, the first-run setup of
//! the admin account, password checks at login, and audit records.

use vstd::prelude::*;
use crate::text::{
    chars_of, concat3, has_prefix, is_whitespace, lemma_split_no_sep, owned, skip_chars,
    split_chars, split_spec, starts_with, string_of, trim_chars, trim_end_spec, trim_spec,
    trim_start_spec,
};
use crate::policy::{random_uuid_text, uuid_v4_text};

verus! {

broadcast use vstd::string::group_string_axioms;

// ── sessions ─────────────────────────────────────────────────────────────────

/// The session token among cookie pairs: the first pair that, trimmed,
/// starts with `session=`.
pub open spec fn session_in(pairs: Seq<Seq<char>>) -> Option<Seq<char>>
    decreases pairs.len(),
{
    if pairs.len() == 0 {
        None
    } else {
        let p = trim_spec(pairs[0]);
        if has_prefix(p, "session="@) {
            Some(p.skip(8))
        } else {
            session_in(pairs.drop_first())
        }
    }
}

/// The session token of a `Cookie` header value.
pub open spec fn session_token(cookie: Seq<char>) -> Option<Seq<char>> {
    session_in(split_spec(cookie, ';'))
}

/// The session token a `Cookie` header carries, if any.
pub fn extract_session_cookie(cookie_header: &str) -> (r: Option<String>)
    ensures
        match r {
            Some(t) => session_token(cookie_header@) == Some(t@),
            None => session_token(cookie_header@) is None,
        },
{
    proof {
        reveal_strlit("session=");
    }
    let pairs = split_chars(&chars_of(cookie_header), ';');
    let prefix = chars_of("session=");
    let ghost pv = pairs.deep_view();
    let mut i: usize = 0;
    assert(pv.skip(0) =~= pv);
    while i < pairs.len()
        invariant
            i <= pairs@.len(),
            pv == pairs.deep_view(),
            pv == split_spec(cookie_header@, ';'),
            prefix@ == "session="@,
            "session="@.len() == 8,
            session_in(pv) == session_in(pv.skip(i as int)),
        decreases pairs@.len() - i,
    {
        assert(pv.skip(i as int).drop_first() =~= pv.skip(i + 1));
        assert(pv.skip(i as int)[0] == pairs@[i as int]@);
        let p = trim_chars(&pairs[i]);
        if starts_with(&p, &prefix) {
            let t = skip_chars(&p, 8);
            return Some(string_of(&t));
        }
        i += 1;
    }
    None
}

/// The `Set-Cookie` value that starts a session.
pub open spec fn session_cookie_text(token: Seq<char>) -> Seq<char> {
    "session="@ + token + "; Path=/; HttpOnly; SameSite=Strict"@
}

/// The `Set-Cookie` value that starts a session with `token`.
pub fn session_cookie(token: &str) -> (r: String)
    ensures
        r@ == session_cookie_text(token@),
{
    concat3("session=", token, "; Path=/; HttpOnly; SameSite=Strict")
}

/// A new session: a random token and the cookie that carries it.
pub fn new_session() -> (r: (String, String))
    ensures
        uuid_v4_text(r.0@),
        r.1@ == session_cookie_text(r.0@),
{
    let token = random_uuid_text();
    let cookie = session_cookie(token.as_str());
    (token, cookie)
}

/// A session token without `;` or whitespace (such as a UUID) comes back
/// from the cookie pair `session=<token>` the browser returns.
pub proof fn lemma_session_cookie_read_back(token: Seq<char>)
    requires
        forall|m: int| 0 <= m < token.len() ==> token[m] != ';' && !is_whitespace(token[m]),
    ensures
        session_token("session="@ + token) == Some(token),
{
    reveal_strlit("session=");
    let x = "session="@ + token;
    assert forall|m: int| 0 <= m < x.len() implies x[m] != ';' by {
        if m >= 8 {
            assert(x[m] == token[m - 8]);
        }
    }
    lemma_split_no_sep(x, ';');
    assert(!is_whitespace(x[0]));
    assert(trim_start_spec(x) == x);
    if token.len() > 0 {
        assert(x.last() == token[token.len() - 1]);
    }
    assert(trim_end_spec(x) == x);
    assert(x.take(8) =~= "session="@);
    assert(x.skip(8) =~= token);
    assert(seq![x].drop_first() =~= Seq::<Seq<char>>::empty());
}

/// A token from a new session reads back from its cookie pair.
pub proof fn lemma_uuid_token_read_back(token: Seq<char>)
    requires
        uuid_v4_text(token),
    ensures
        session_token("session="@ + token) == Some(token),
{
    assert forall|m: int| 0 <= m < token.len() implies token[m] != ';' && !is_whitespace(
        token[m],
    ) by {
        if !(m == 8 || m == 13 || m == 18 || m == 23) {
            assert(('0' <= token[m] && token[m] <= '9') || ('a' <= token[m] && token[m] <= 'f'));
        } else {
            assert(token[m] == '-');
        }
    }
    lemma_session_cookie_read_back(token);
}

/// The signed-in user as audit records name them.
pub struct CurrentUser(pub String);

impl CurrentUser {
    /// The user owning the request's session, or `unknown` when the session
    /// records none.
    pub fn from_lookup(found: Option<String>) -> (r: CurrentUser)
        ensures
            r.0@ == match found {
                Some(u) => u@,
                None => "unknown"@,
            },
    {
        match found {
            Some(u) => CurrentUser(u),
            None => CurrentUser(owned("unknown")),
        }
    }
}

// ── passwords ────────────────────────────────────────────────────────────────

#[verifier::external_type_specification]
#[verifier::external_body]
pub struct ExBcryptError(bcrypt::BcryptError);

/// Whether bcrypt accepts a password for a stored hash: `None` when the
/// hash cannot be read, otherwise whether the password matches.
pub uninterp spec fn bcrypt_verdict(password: Seq<char>, hash: Seq<char>) -> Option<bool>;

/// bcrypt `verify`: recomputes the hash of the password with the stored
/// hash's cost and salt and compares. The result is named by
/// `bcrypt_verdict`, an unreadable hash giving `None`.
#[verifier::external_body]
fn bcrypt_verify(password: &str, hash: &str) -> (r: Option<bool>)
    ensures
        r == bcrypt_verdict(password@, hash@),
{
    bcrypt::verify(password, hash).ok()
}

/// bcrypt `hash` at the crate's default cost (`DEFAULT_COST`, 12) with a
/// random salt. A hash it returns is 60 characters long, starts with
/// `$2b$12$`, and `verify` accepts the password for it (it hashes the same
/// truncated password with the hash's own cost and salt). Which salt is
/// used, and whether the system's random source fails, is not stated.
#[verifier::external_body]
fn bcrypt_hash(password: &str) -> (r: Result<String, bcrypt::BcryptError>)
    ensures
        r matches Ok(h) ==> h@.len() == 60 && h@.take(7) == "$2b$12$"@ && bcrypt_verdict(
            password@,
            h@,
        ) == Some(true),
{
    bcrypt::hash(password, bcrypt::DEFAULT_COST)
}

/// Why the first-run setup refused to create the admin account.
pub enum SetupError {
    /// The two password fields differ.
    PasswordsDiffer,
    /// The password is shorter than 8 bytes.
    PasswordTooShort,
    /// Hashing the password failed.
    Hashing(bcrypt::BcryptError),
}

/// The message shown for a refused setup; hashing failures have none.
pub open spec fn setup_message(e: SetupError) -> Option<Seq<char>> {
    match e {
        SetupError::PasswordsDiffer => Some("Passwords do not match"@),
        SetupError::PasswordTooShort => Some("Password must be at least 8 characters"@),
        SetupError::Hashing(_) => None,
    }
}

impl SetupError {
    /// The message the setup page shows.
    pub fn message(&self) -> (r: Option<&'static str>)
        ensures
            match r {
                Some(m) => setup_message(*self) == Some(m@),
                None => setup_message(*self) is None,
            },
    {
        match self {
            SetupError::PasswordsDiffer => Some("Passwords do not match"),
            SetupError::PasswordTooShort => Some("Password must be at least 8 characters"),
            SetupError::Hashing(_) => None,
        }
    }
}

/// Whether a login with `password` succeeds for the account whose stored
/// hash is `stored` (`None` when there is no such account).
pub open spec fn login_accepted(password: Seq<char>, stored: Option<Seq<char>>) -> bool {
    match stored {
        Some(h) => bcrypt_verdict(password, h) == Some(true),
        None => false,
    }
}

/// The stored hash for the admin account chosen at first-run setup: the
/// two passwords must match and be at least 8 bytes long. A login with the
/// chosen password succeeds against the returned hash.
pub fn setup_password_hash(password: &str, confirm: &str) -> (r: Result<String, SetupError>)
    ensures
        match r {
            Ok(h) => password@ == confirm@ && encode_len(password@) >= 8
                && login_accepted(password@, Some(h@)),
            Err(SetupError::PasswordsDiffer) => password@ != confirm@,
            Err(SetupError::PasswordTooShort) => password@ == confirm@ && encode_len(password@)
                < 8,
            Err(SetupError::Hashing(_)) => password@ == confirm@ && encode_len(password@) >= 8,
        },
{
    let same = owned(password) == owned(confirm);
    if !same {
        return Err(SetupError::PasswordsDiffer);
    }
    if password.as_bytes().len() < 8 {
        return Err(SetupError::PasswordTooShort);
    }
    match bcrypt_hash(password) {
        Ok(h) => Ok(h),
        Err(e) => Err(SetupError::Hashing(e)),
    }
}

/// The length in bytes of text (`str::len`).
pub open spec fn encode_len(s: Seq<char>) -> nat {
    vstd::utf8::encode_utf8(s).len()
}

/// Whether a login with `password` succeeds for an account whose stored
/// hash is `stored`; an unreadable hash refuses the login.
pub fn check_login(password: &str, stored: Option<&str>) -> (r: bool)
    ensures
        r == login_accepted(password@, match stored {
            Some(h) => Some(h@),
            None => None,
        }),
{
    match stored {
        None => false,
        Some(h) => match bcrypt_verify(password, h) {
            Some(b) => b,
            None => false,
        },
    }
}

// ── audit records ────────────────────────────────────────────────────────────

/// The result column and detail of an audit record: `success` with no
/// detail, or `failure` with the error.
pub fn audit_outcome(result: &Result<(), String>) -> (r: (&'static str, Option<String>))
    ensures
        match result {
            Ok(()) => r.0@ == "success"@ && r.1 is None,
            Err(e) => r.0@ == "failure"@ && (r.1 matches Some(d) && d@ == e@),
        },
{
    match result {
        Ok(()) => ("success", None),
        Err(e) => ("failure", Some(e.clone())),
    }
}

/// A domain controller the console manages.
pub struct Server {
    pub id: i64,
    pub name: String,
    pub ldap_url: String,
    pub bind_dn: String,
    pub bind_password: String,
    pub skip_tls: bool,
}

/// One audit record as listed.
pub struct AuditEntry {
    pub id: i64,
    pub ts: i64,
    pub actor: String,
    pub action: String,
    pub target: String,
    pub server_id: Option<i64>,
    pub server_name: Option<String>,
    pub result: String,
    pub detail: Option<String>,
}

} // verus!
