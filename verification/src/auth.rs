//! Users, tokens and the decisions of the front end's authentication:
//! bearer tokens in `Authorization` headers, logins and sign-ups.
use vstd::prelude::*;

use vstd::utf8::is_ascii_chars;

use crate::text::string_from_chars;

verus! {

broadcast use vstd::string::group_string_axioms;

/// The claims carried by an access token.
#[derive(Debug)]
pub struct UserClaim {
    pub exp: usize,
    pub iat: usize,
    pub user: String,
    pub id: i32,
}

/// The claims of a user as the middleware stores them.
#[derive(Debug)]
pub struct UserClaims {
    exp: usize,
    iat: usize,
    pub user: String,
    pub id: u32,
}

/// The body of a successful login.
#[allow(non_camel_case_types)]
#[derive(Debug)]
pub struct token_response {
    pub access_token: String,
}

/// The credentials a client sends to sign up or log in.
#[derive(Debug)]
pub struct Users {
    pub username: String,
    pub email: Option<String>,
    pub password: String,
}

/// A user as shown to clients.
#[derive(Debug)]
pub struct UserResponse {
    pub username: String,
    pub email: String,
}

/// How long an access token is valid: 24 hours, in seconds.
pub const TOKEN_LIFETIME_SECS: i64 = 86400;

impl UserClaim {
    /// The claims of a token issued to `user` at `now` (seconds since the
    /// epoch): it expires 24 hours later.
    pub fn issued_at(user: String, id: i32, now: i64) -> (c: UserClaim)
        requires
            now <= i64::MAX - TOKEN_LIFETIME_SECS,
        ensures
            c.exp == (now + TOKEN_LIFETIME_SECS) as usize,
            c.iat == now as usize,
            c.user == user,
            c.id == id,
    {
        let exp = (now + TOKEN_LIFETIME_SECS) as usize;
        let iat = now as usize;
        UserClaim { exp, iat, user, id }
    }
}

/// Why a request was refused before reaching its handler.
#[derive(PartialEq, Eq, Structural, Clone, Copy, Debug)]
pub enum AuthError {
    MissingHeader,
    InvalidHeader,
    InvalidScheme,
    InvalidToken,
}

pub open spec fn auth_error_text(e: AuthError) -> Seq<char> {
    match e {
        AuthError::MissingHeader => "Missing auth header"@,
        AuthError::InvalidHeader => "invalid header"@,
        AuthError::InvalidScheme => "Invalid scheme"@,
        AuthError::InvalidToken => "invalid token"@,
    }
}

impl AuthError {
    /// The text of the `401 Unauthorized` answer.
    pub fn message(&self) -> (s: String)
        ensures
            s@ == auth_error_text(*self),
    {
        match self {
            AuthError::MissingHeader => String::from_str("Missing auth header"),
            AuthError::InvalidHeader => String::from_str("invalid header"),
            AuthError::InvalidScheme => String::from_str("Invalid scheme"),
            AuthError::InvalidToken => String::from_str("invalid token"),
        }
    }
}

/// A byte that a header value may hold and still be read as text:
/// visible ASCII or a tab.
pub open spec fn visible_ascii(b: u8) -> bool {
    (32 <= b && b < 127) || b == 9
}

/// The whitespace that `str::trim` removes from visible ASCII text.
pub open spec fn is_blank(b: u8) -> bool {
    b == 32 || b == 9
}

/// `Bearer ` as bytes.
pub open spec fn bearer_prefix() -> Seq<u8> {
    seq![66u8, 101u8, 97u8, 114u8, 101u8, 114u8, 32u8]
}

pub open spec fn trim_start_blank(s: Seq<u8>) -> Seq<u8>
    decreases s.len(),
{
    if s.len() > 0 && is_blank(s[0]) {
        trim_start_blank(s.drop_first())
    } else {
        s
    }
}

pub open spec fn trim_end_blank(s: Seq<u8>) -> Seq<u8>
    decreases s.len(),
{
    if s.len() > 0 && is_blank(s.last()) {
        trim_end_blank(s.drop_last())
    } else {
        s
    }
}

pub open spec fn ascii_text(s: Seq<u8>) -> Seq<char> {
    s.map_values(|b: u8| b as char)
}

/// The token of an `Authorization` header: the header must be present,
/// be visible ASCII, and start with `Bearer `; the rest, trimmed, is the token.
pub open spec fn bearer_token_spec(header: Option<Seq<u8>>) -> Result<Seq<char>, AuthError> {
    match header {
        None => Err(AuthError::MissingHeader),
        Some(h) => if !(forall|i: int| 0 <= i < h.len() ==> visible_ascii(#[trigger] h[i])) {
            Err(AuthError::InvalidHeader)
        } else if !(h.len() >= 7 && h.take(7) == bearer_prefix()) {
            Err(AuthError::InvalidScheme)
        } else {
            Ok(ascii_text(trim_end_blank(trim_start_blank(h.skip(7)))))
        },
    }
}

pub proof fn lemma_trim_start(s: Seq<u8>, k: int)
    requires
        0 <= k <= s.len(),
        forall|j: int| 0 <= j < k ==> is_blank(#[trigger] s[j]),
        k < s.len() ==> !is_blank(s[k]),
    ensures
        trim_start_blank(s) == s.skip(k),
    decreases k,
{
    if k == 0 {
        assert(s.skip(0) =~= s);
    } else {
        let t = s.drop_first();
        assert forall|j: int| 0 <= j < k - 1 implies is_blank(#[trigger] t[j]) by {
            assert(t[j] == s[j + 1]);
        }
        if k - 1 < t.len() {
            assert(t[k - 1] == s[k]);
        }
        lemma_trim_start(t, k - 1);
        assert(t.skip(k - 1) =~= s.skip(k));
    }
}

pub proof fn lemma_trim_end(s: Seq<u8>, m: int)
    requires
        0 <= m <= s.len(),
        forall|j: int| m <= j < s.len() ==> is_blank(#[trigger] s[j]),
        m > 0 ==> !is_blank(s[m - 1]),
    ensures
        trim_end_blank(s) == s.take(m),
    decreases s.len() - m,
{
    if m == s.len() {
        assert(s.take(m) =~= s);
    } else {
        let t = s.drop_last();
        assert forall|j: int| m <= j < t.len() implies is_blank(#[trigger] t[j]) by {
            assert(t[j] == s[j]);
        }
        lemma_trim_end(t, m);
        assert(t.take(m) =~= s.take(m));
    }
}

/// The number of blanks that `trim_start_blank` removes.
proof fn lemma_trim_start_index(s: Seq<u8>) -> (k: int)
    ensures
        0 <= k <= s.len(),
        forall|j: int| 0 <= j < k ==> is_blank(#[trigger] s[j]),
        k < s.len() ==> !is_blank(s[k]),
        trim_start_blank(s) == s.skip(k),
    decreases s.len(),
{
    if s.len() > 0 && is_blank(s[0]) {
        let t = s.drop_first();
        let k0 = lemma_trim_start_index(t);
        assert forall|j: int| 0 <= j < k0 + 1 implies is_blank(#[trigger] s[j]) by {
            if j > 0 {
                assert(s[j] == t[j - 1]);
            }
        }
        if k0 + 1 < s.len() {
            assert(s[k0 + 1] == t[k0]);
        }
        assert(t.skip(k0) =~= s.skip(k0 + 1));
        k0 + 1
    } else {
        assert(s.skip(0) =~= s);
        0
    }
}

/// The length that `trim_end_blank` keeps.
proof fn lemma_trim_end_index(s: Seq<u8>) -> (m: int)
    ensures
        0 <= m <= s.len(),
        forall|j: int| m <= j < s.len() ==> is_blank(#[trigger] s[j]),
        m > 0 ==> !is_blank(s[m - 1]),
        trim_end_blank(s) == s.take(m),
    decreases s.len(),
{
    if s.len() > 0 && is_blank(s.last()) {
        let t = s.drop_last();
        let m0 = lemma_trim_end_index(t);
        assert forall|j: int| m0 <= j < s.len() implies is_blank(#[trigger] s[j]) by {
            if j < t.len() {
                assert(s[j] == t[j]);
            }
        }
        if m0 > 0 {
            assert(s[m0 - 1] == t[m0 - 1]);
        }
        assert(t.take(m0) =~= s.take(m0));
        m0
    } else {
        assert(s.take(s.len() as int) =~= s);
        s.len() as int
    }
}

/// Whether `t` is the text of the bytes `h[a..b]`, each byte kept as the
/// character with the same code, with only spaces and tabs between `Bearer `
/// and `a` and after `b`, and none at either end of `h[a..b]`.
pub open spec fn is_trimmed_token(h: Seq<u8>, a: int, b: int, t: Seq<char>) -> bool {
    &&& 7 <= a <= b <= h.len()
    &&& t.len() == b - a
    &&& forall|k: int| 0 <= k < t.len() ==> #[trigger] t[k] == (h[a + k] as char)
    &&& forall|j: int| 7 <= j < a ==> #[trigger] h[j] == 32u8 || h[j] == 9u8
    &&& forall|j: int| b <= j < h.len() ==> #[trigger] h[j] == 32u8 || h[j] == 9u8
    &&& a < b ==> !(h[a] == 32u8 || h[a] == 9u8) && !(h[b - 1] == 32u8 || h[b - 1] == 9u8)
}

/// A header of visible ASCII that starts with `Bearer ` yields a token, and
/// that token is the rest of the header without its surrounding spaces and
/// tabs, byte for byte.
pub proof fn law_bearer_token_is_the_trimmed_rest(h: Seq<u8>)
    requires
        forall|i: int| 0 <= i < h.len() ==> visible_ascii(#[trigger] h[i]),
        h.len() >= 7,
        h.take(7) == bearer_prefix(),
    ensures
        bearer_token_spec(Some(h)) is Ok,
        exists|a: int, b: int| is_trimmed_token(h, a, b, bearer_token_spec(Some(h))->Ok_0),
{
    let rest = h.skip(7);
    let k1 = lemma_trim_start_index(rest);
    let a = 7 + k1;
    let started = rest.skip(k1);
    assert(started =~= h.subrange(a, h.len() as int));
    let m = lemma_trim_end_index(started);
    let b = a + m;
    let t = bearer_token_spec(Some(h))->Ok_0;
    assert(t == ascii_text(started.take(m)));
    assert(started.take(m) =~= h.subrange(a, b));
    assert forall|k: int| 0 <= k < t.len() implies #[trigger] t[k] == (h[a + k] as char) by {
        assert(h.subrange(a, b)[k] == h[a + k]);
    }
    assert forall|j: int| 7 <= j < a implies #[trigger] h[j] == 32u8 || h[j] == 9u8 by {
        assert(rest[j - 7] == h[j]);
        assert(is_blank(rest[j - 7]));
    }
    assert forall|j: int| b <= j < h.len() implies #[trigger] h[j] == 32u8 || h[j] == 9u8 by {
        assert(started[j - a] == h[j]);
        assert(is_blank(started[j - a]));
    }
    if a < b {
        assert(started[0] == h[a]);
        assert(rest[k1] == started[0]);
        assert(started[m - 1] == h[b - 1]);
    }
    assert(is_trimmed_token(h, a, b, t));
}

/// Reads the bearer token of an `Authorization` header value (its raw
/// bytes), as the authentication middleware does.
pub fn bearer_token(header: Option<&[u8]>) -> (r: Result<String, AuthError>)
    ensures
        ({
            let h = match header {
                Some(b) => Some(b@),
                None => None,
            };
            &&& r matches Ok(t) ==> bearer_token_spec(h) == Ok::<Seq<char>, AuthError>(t@)
            &&& r matches Err(e) ==> bearer_token_spec(h) == Err::<Seq<char>, AuthError>(e)
        }),
{
    let h = match header {
        None => {
            return Err(AuthError::MissingHeader);
        },
        Some(h) => h,
    };
    let n = h.len();
    let mut i: usize = 0;
    while i < n
        invariant
            0 <= i <= n,
            n == h@.len(),
            header == Some(h),
            forall|j: int| 0 <= j < i ==> visible_ascii(#[trigger] h@[j]),
        decreases n - i,
    {
        let b = h[i];
        if !((32 <= b && b < 127) || b == 9) {
            assert(!visible_ascii(h@[i as int]));
            assert(!(forall|j: int| 0 <= j < h@.len() ==> visible_ascii(#[trigger] h@[j])));
            assert(bearer_token_spec(Some(h@)) == Err::<Seq<char>, AuthError>(AuthError::InvalidHeader));
            return Err(AuthError::InvalidHeader);
        }
        i = i + 1;
    }
    if n < 7 || h[0] != 66 || h[1] != 101 || h[2] != 97 || h[3] != 114 || h[4] != 101 || h[5] != 114
        || h[6] != 32 {
        assert(!(h@.len() >= 7 && h@.take(7) == bearer_prefix())) by {
            if h@.len() >= 7 && h@.take(7) == bearer_prefix() {
                assert(h@[0] == h@.take(7)[0]);
                assert(h@[1] == h@.take(7)[1]);
                assert(h@[2] == h@.take(7)[2]);
                assert(h@[3] == h@.take(7)[3]);
                assert(h@[4] == h@.take(7)[4]);
                assert(h@[5] == h@.take(7)[5]);
                assert(h@[6] == h@.take(7)[6]);
            }
        }
        return Err(AuthError::InvalidScheme);
    }
    assert(h@.take(7) =~= bearer_prefix());
    let mut a: usize = 7;
    while a < n && (h[a] == 32 || h[a] == 9)
        invariant
            7 <= a <= n,
            n == h@.len(),
            forall|j: int| 7 <= j < a ==> is_blank(#[trigger] h@[j]),
        decreases n - a,
    {
        a = a + 1;
    }
    let mut b: usize = n;
    while b > a && (h[b - 1] == 32 || h[b - 1] == 9)
        invariant
            a <= b <= n,
            n == h@.len(),
            forall|j: int| b <= j < n ==> is_blank(#[trigger] h@[j]),
        decreases b - a,
    {
        b = b - 1;
    }
    let ghost rest = h@.skip(7);
    let ghost started = h@.subrange(a as int, n as int);
    proof {
        assert forall|j: int| 0 <= j < a - 7 implies is_blank(#[trigger] rest[j]) by {
            assert(rest[j] == h@[j + 7]);
        }
        if a - 7 < rest.len() {
            assert(rest[a - 7] == h@[a as int]);
        }
        lemma_trim_start(rest, a - 7);
        assert(rest.skip(a - 7) =~= started);
        assert forall|j: int| b - a <= j < started.len() implies is_blank(#[trigger] started[j]) by {
            assert(started[j] == h@[a + j]);
        }
        if b - a > 0 {
            assert(started[b - a - 1] == h@[b - 1]);
        }
        lemma_trim_end(started, b - a);
    }
    let mut token: Vec<char> = Vec::new();
    let mut k: usize = a;
    while k < b
        invariant
            a <= k <= b <= n,
            n == h@.len(),
            token@ == ascii_text(h@.subrange(a as int, k as int)),
        decreases b - k,
    {
        let c: char = h[k] as char;
        token.push(c);
        k = k + 1;
        assert(token@ =~= ascii_text(h@.subrange(a as int, k as int)));
    }
    assert(started.take(b - a) =~= h@.subrange(a as int, b as int));
    Ok(string_from_chars(token))
}

#[verifier::external_type_specification]
#[verifier::external_body]
pub struct ExBcryptError(bcrypt::BcryptError);

/// What `bcrypt::verify(password, hash)` decides: `Some(matches)`, or
/// `None` when it fails.
pub uninterp spec fn bcrypt_verify_outcome(password: Seq<char>, hash: Seq<char>) -> Option<bool>;

/// Checks `password` against a stored bcrypt `hash` with `bcrypt::verify`.
/// The outcome is a function of the two texts; besides, `verify` refuses
/// every hash that is not 60 ASCII bytes.
#[verifier::external_body]
fn verify_password(password: &str, hash: &str) -> (r: Result<bool, bcrypt::BcryptError>)
    ensures
        r is Ok ==> bcrypt_verify_outcome(password@, hash@) == Some(r->Ok_0),
        r is Err ==> bcrypt_verify_outcome(password@, hash@) is None,
        r is Ok ==> hash@.len() == 60 && is_ascii_chars(hash@),
{
    bcrypt::verify(password, hash)
}

/// Hashes `password` with `bcrypt::hash` at `bcrypt::DEFAULT_COST`. The salt
/// is random, so only the shape of the result is claimed: 60 characters.
#[verifier::external_body]
fn hash_password(password: &str) -> (r: Result<String, bcrypt::BcryptError>)
    ensures
        r is Ok ==> r->Ok_0@.len() == 60,
{
    bcrypt::hash(password, bcrypt::DEFAULT_COST)
}

/// The texts that bcrypt's `Display` writes for its errors start with one of
/// these: `CostNotAllowed`, `InvalidHash`, `Rand` and `Truncation`.
pub open spec fn is_bcrypt_error_text(t: Seq<char>) -> bool {
    ||| "Cost needs to be between "@.is_prefix_of(t)
    ||| "Invalid hash: "@.is_prefix_of(t)
    ||| "Rand error: "@.is_prefix_of(t)
    ||| "Expected 72 bytes or fewer; found "@.is_prefix_of(t)
}

/// The `Display` text of a bcrypt error. Its details depend on the error,
/// which the library does not see; what is claimed is that it starts as
/// bcrypt writes one of its four kinds of error.
#[verifier::external_body]
fn bcrypt_error_text(e: &bcrypt::BcryptError) -> (t: String)
    ensures
        is_bcrypt_error_text(t@),
{
    format!("{}", e)
}

/// The `Display` text of `BcryptError::InvalidHash(reason)`, which bcrypt
/// writes as `Invalid hash: ` followed by the reason.
#[verifier::external_body]
fn invalid_hash_text(reason: &'static str) -> (s: String)
    ensures
        s@ == "Invalid hash: "@ + reason@,
{
    format!("{}", bcrypt::BcryptError::InvalidHash(reason))
}

/// An HTTP answer whose body is a JSON string.
#[derive(Debug)]
pub struct HttpReply {
    pub status: u16,
    pub body: String,
}

/// A user record as the login query reads it.
#[derive(Debug)]
pub struct StoredUser {
    pub username: String,
    pub password: String,
    pub id: i32,
}

/// What the login handler does next.
#[derive(Debug)]
pub enum LoginStep {
    /// Issue an access token to this user and answer `200`.
    IssueToken { username: String, id: i32 },
    /// Answer with this reply.
    Reply(HttpReply),
}

/// What the sign-up handler does next.
#[derive(Debug)]
pub enum SignUpStep {
    /// Insert this row into the users table.
    Insert { username: String, email: Option<String>, pass: String },
    /// Answer with this reply.
    Reply(HttpReply),
}

/// The body of the answer to a login whose stored hash cannot be checked.
pub open spec fn unreadable_hash_body() -> Seq<char> {
    "\n                password is wrong"@ + "Invalid hash: "@ + "not good"@
}

/// The login decision for the password sent by the client and the stored
/// user (or the text of the query error): a wrong password or an
/// unreadable hash is refused with `401`, a failed lookup answers `404`.
pub open spec fn login_decision(password: Seq<char>, stored: Result<(Seq<char>, Seq<char>, i32), Seq<char>>) -> (
    u16,
    Seq<char>,
    Option<(Seq<char>, i32)>,
) {
    match stored {
        Err(e) => (404, "bad request "@ + e, None),
        Ok((name, hash, id)) => match bcrypt_verify_outcome(password, hash) {
            Some(true) => (200, Seq::empty(), Some((name, id))),
            Some(false) => (401, "is wrong"@, None),
            None => (401, unreadable_hash_body(), None),
        },
    }
}

/// The shape of a login step: `(status, body, user to issue a token to)`.
pub open spec fn login_step_view(s: LoginStep) -> (u16, Seq<char>, Option<(Seq<char>, i32)>) {
    match s {
        LoginStep::IssueToken { username, id } => (200, Seq::empty(), Some((username@, id))),
        LoginStep::Reply(r) => (r.status, r.body@, None),
    }
}

/// Decides a login: `stored` is the user found under the client's name, or
/// the text of the lookup error.
pub fn login_step(password: &str, stored: Result<StoredUser, String>) -> (s: LoginStep)
    ensures
        login_step_view(s) == login_decision(
            password@,
            match stored {
                Ok(u) => Ok((u.username@, u.password@, u.id)),
                Err(e) => Err(e@),
            },
        ),
        (s is IssueToken) == (stored is Ok && bcrypt_verify_outcome(password@, stored->Ok_0.password@)
            == Some(true)),
        s matches LoginStep::IssueToken { username, id } ==> username == stored->Ok_0.username && id
            == stored->Ok_0.id,
        stored is Err ==> (s matches LoginStep::Reply(r) && r.status == 404),
        stored is Ok && bcrypt_verify_outcome(password@, stored->Ok_0.password@) != Some(true) ==> (
        s matches LoginStep::Reply(r) && r.status == 401),
{
    match stored {
        Err(e) => {
            let mut body = String::from_str("bad request ");
            body.append(e.as_str());
            LoginStep::Reply(HttpReply { status: 404, body })
        },
        Ok(user) => match verify_password(password, user.password.as_str()) {
            Ok(true) => LoginStep::IssueToken { username: user.username, id: user.id },
            Ok(false) => LoginStep::Reply(HttpReply { status: 401, body: String::from_str("is wrong") }),
            Err(_) => {
                let mut body = String::from_str("\n                password is wrong");
                let detail = invalid_hash_text("not good");
                body.append(detail.as_str());
                proof {
                    assert(body@ =~= unreadable_hash_body());
                }
                LoginStep::Reply(HttpReply { status: 401, body })
            },
        },
    }
}

/// A login is decided by bcrypt's check of the whole password as sent
/// against the stored hash: a token is issued, to the stored user, exactly
/// when the check says the password matches; a mismatch or an unreadable
/// hash is refused with `401`, and a failed lookup answers `404`.
pub proof fn law_login_checks_the_whole_password(
    password: Seq<char>,
    name: Seq<char>,
    hash: Seq<char>,
    id: i32,
    lookup_error: Seq<char>,
)
    ensures
        login_decision(password, Ok((name, hash, id))).2 == (if bcrypt_verify_outcome(password, hash) == Some(
            true,
        ) {
            Some((name, id))
        } else {
            None
        }),
        (login_decision(password, Ok((name, hash, id))).0 == 200) == (bcrypt_verify_outcome(password, hash)
            == Some(true)),
        bcrypt_verify_outcome(password, hash) != Some(true) ==> login_decision(
            password,
            Ok((name, hash, id)),
        ).0 == 401,
        login_decision(password, Err(lookup_error)).0 == 404,
        login_decision(password, Err(lookup_error)).2 is None,
{
}

/// Plans a sign-up once the password's hashing is done: `hashed` is `Ok`,
/// or the text of the hashing error. A failed hash answers `500` with that
/// text after `failed to hash pass `; otherwise the row to insert holds the
/// username, the email and the password as sent.
pub fn sign_up_plan(user: &Users, hashed: Result<(), String>) -> (s: SignUpStep)
    ensures
        hashed is Ok ==> (s matches SignUpStep::Insert { username, email, pass } && username@
            == user.username@ && email == user.email && pass@ == user.password@),
        hashed matches Err(t) ==> (s matches SignUpStep::Reply(r) && r.status == 500 && r.body@
            == "failed to hash pass "@ + t@),
{
    match hashed {
        Ok(()) => SignUpStep::Insert {
            username: user.username.clone(),
            email: user.email.clone(),
            pass: user.password.clone(),
        },
        Err(t) => {
            let mut body = String::from_str("failed to hash pass ");
            body.append(t.as_str());
            SignUpStep::Reply(HttpReply { status: 500, body })
        },
    }
}

/// Plans a sign-up: the password is hashed with bcrypt first (see
/// `sign_up_plan` for what follows from the outcome). It answers with a
/// reply only when hashing failed, the reply carrying bcrypt's error text;
/// otherwise it inserts the user as sent, whatever the email.
pub fn sign_up_step(user: &Users) -> (s: SignUpStep)
    ensures
        s matches SignUpStep::Insert { username, email, pass } ==> username@ == user.username@
            && email == user.email && pass@ == user.password@,
        s matches SignUpStep::Reply(r) ==> r.status == 500 && exists|t: Seq<char>|
            r.body@ == "failed to hash pass "@ + t && is_bcrypt_error_text(t),
{
    let hashed = match hash_password(user.password.as_str()) {
        Ok(_hashed) => Ok(()),
        Err(e) => Err(bcrypt_error_text(&e)),
    };
    let ghost outcome = hashed;
    let s = sign_up_plan(user, hashed);
    proof {
        if outcome is Err {
            assert(s->Reply_0.body@ == "failed to hash pass "@ + outcome->Err_0@);
            assert(is_bcrypt_error_text(outcome->Err_0@));
        }
    }
    s
}

/// The answer to an order submission: `200` once the engine has the order,
/// `500` with the text of the failure otherwise.
pub fn place_order_reply(sent: Result<(), String>) -> (r: HttpReply)
    ensures
        sent is Ok ==> r.status == 200 && r.body@ == "Order placed successfully"@,
        sent matches Err(e) ==> r.status == 500 && r.body@ == " failed to place order: "@ + e@,
{
    match sent {
        Ok(()) => HttpReply { status: 200, body: String::from_str("Order placed successfully") },
        Err(e) => {
            let mut body = String::from_str(" failed to place order: ");
            body.append(e.as_str());
            HttpReply { status: 500, body }
        },
    }
}

/// The answer once the new user's row was inserted, or the text of the
/// insert's error.
pub fn sign_up_reply(inserted: Result<(), String>) -> (r: HttpReply)
    ensures
        inserted is Ok ==> r.status == 200 && r.body@ == "user created successfully"@,
        inserted matches Err(e) ==> r.status == 500 && r.body@ == "Failed to register the user "@ + e@,
{
    match inserted {
        Ok(()) => HttpReply { status: 200, body: String::from_str("user created successfully") },
        Err(e) => {
            let mut body = String::from_str("Failed to register the user ");
            body.append(e.as_str());
            HttpReply { status: 500, body }
        },
    }
}

} // verus!
