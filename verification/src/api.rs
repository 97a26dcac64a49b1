//! The HTTP interface of the server: its errors and their status codes, the bodies of its
//! requests and answers, the claims of its tokens and the reading of the `Authorization`
//! header.
use crate::dates::{MAX_DAY, MIN_DAY};
use crate::text::{concat, starts_with, str_eq};
use vstd::prelude::*;

verus! {

// ---------------------------------------------------------------- errors

/// An error of the store of users, alarms and devices.
pub enum DBError {
    /// An error of the database: the code the database gave, if any, and the error's text.
    Sqlx { code: Option<String>, text: String },
    UserAlreadyExists(String),
    UserNotFound,
    Serialization(String),
    Env(String),
}

/// The code SQLite gives when a foreign key constraint fails.
pub const FOREIGN_KEY_FAILED_CODE: &'static str = "787";

impl DBError {
    /// The text of the error.
    pub fn text(&self) -> (r: String)
        ensures
            r@ == match self {
                DBError::Sqlx { text, .. } => "Database error: "@ + text@,
                DBError::UserAlreadyExists(e) => "User already exists: "@ + e@,
                DBError::UserNotFound => "User not found"@,
                DBError::Serialization(e) => "Serialization error: "@ + e@,
                DBError::Env(e) => "Environment error: "@ + e@,
            },
    {
        match self {
            DBError::Sqlx { text, .. } => concat("Database error: ", text.as_str()),
            DBError::UserAlreadyExists(e) => concat("User already exists: ", e.as_str()),
            DBError::UserNotFound => String::from_str("User not found"),
            DBError::Serialization(e) => concat("Serialization error: ", e.as_str()),
            DBError::Env(e) => concat("Environment error: ", e.as_str()),
        }
    }
}

/// An error answered by the server, with the message it carries.
pub enum ApiError {
    Internal(String),
    NotFound(String),
    Unauthorized(String),
    BadRequest(String),
    ValidationError(String),
}

/// The message carried by an error of the server.
pub open spec fn api_message(e: &ApiError) -> Seq<char> {
    match e {
        ApiError::Internal(m) => m@,
        ApiError::NotFound(m) => m@,
        ApiError::Unauthorized(m) => m@,
        ApiError::BadRequest(m) => m@,
        ApiError::ValidationError(m) => m@,
    }
}

/// The HTTP status of an error of the server.
pub open spec fn api_status(e: &ApiError) -> u16 {
    match e {
        ApiError::Internal(_) => 500,
        ApiError::NotFound(_) => 404,
        ApiError::Unauthorized(_) => 401,
        ApiError::BadRequest(_) => 400,
        ApiError::ValidationError(_) => 400,
    }
}

impl ApiError {
    /// The HTTP status of the answer: 500 for an internal error, 404 for something not
    /// found, 401 for an unauthorized request, 400 for a bad or invalid request.
    pub fn status_code(&self) -> (r: u16)
        ensures
            r == api_status(self),
    {
        match self {
            ApiError::Internal(_) => 500,
            ApiError::NotFound(_) => 404,
            ApiError::Unauthorized(_) => 401,
            ApiError::BadRequest(_) => 400,
            ApiError::ValidationError(_) => 400,
        }
    }

    /// The message of the answer, sent as its `error` field.
    pub fn message(&self) -> (r: &str)
        ensures
            r@ == api_message(self),
    {
        match self {
            ApiError::Internal(m) => m.as_str(),
            ApiError::NotFound(m) => m.as_str(),
            ApiError::Unauthorized(m) => m.as_str(),
            ApiError::BadRequest(m) => m.as_str(),
            ApiError::ValidationError(m) => m.as_str(),
        }
    }

    /// The text of the error.
    pub fn text(&self) -> (r: String)
        ensures
            r@ == match self {
                ApiError::Internal(m) => "Internal server error: "@ + m@,
                ApiError::NotFound(m) => "Not found: "@ + m@,
                ApiError::Unauthorized(m) => "Unauthorized: "@ + m@,
                ApiError::BadRequest(m) => "Bad request: "@ + m@,
                ApiError::ValidationError(m) => "Validation error: "@ + m@,
            },
    {
        match self {
            ApiError::Internal(m) => concat("Internal server error: ", m.as_str()),
            ApiError::NotFound(m) => concat("Not found: ", m.as_str()),
            ApiError::Unauthorized(m) => concat("Unauthorized: ", m.as_str()),
            ApiError::BadRequest(m) => concat("Bad request: ", m.as_str()),
            ApiError::ValidationError(m) => concat("Validation error: ", m.as_str()),
        }
    }

    /// The answer to an error of the store: a missing user is not found; an existing user
    /// is a bad request; a failed foreign key (a session whose user is gone) is
    /// unauthorized; anything else is an internal error with the error's text.
    pub fn from(error: DBError) -> (r: ApiError)
        ensures
            match error {
                DBError::UserNotFound => r is NotFound && api_message(&r) == "Utilisateur non trouvé"@,
                DBError::UserAlreadyExists(email) => r is BadRequest && api_message(&r)
                    == "L'utilisateur "@ + email@ + " existe déjà"@,
                DBError::Sqlx { code, text } => if code matches Some(c) && c@
                    == FOREIGN_KEY_FAILED_CODE@ {
                    r is Unauthorized && api_message(&r)
                        == "Session invalide ou utilisateur supprimé (FK error)"@
                } else {
                    r is Internal && api_message(&r) == "Database error: "@ + text@
                },
                DBError::Serialization(e) => r is Internal && api_message(&r)
                    == "Serialization error: "@ + e@,
                DBError::Env(e) => r is Internal && api_message(&r) == "Environment error: "@ + e@,
            },
    {
        match &error {
            DBError::UserNotFound => {
                return ApiError::NotFound(String::from_str("Utilisateur non trouvé"));
            },
            DBError::UserAlreadyExists(email) => {
                let a = concat("L'utilisateur ", email.as_str());
                return ApiError::BadRequest(concat(a.as_str(), " existe déjà"));
            },
            DBError::Sqlx { code: Some(c), .. } => {
                if str_eq(c.as_str(), FOREIGN_KEY_FAILED_CODE) {
                    return ApiError::Unauthorized(
                        String::from_str("Session invalide ou utilisateur supprimé (FK error)"),
                    );
                }
            },
            _ => {},
        }
        ApiError::Internal(error.text())
    }
}

// ---------------------------------------------------------------- requests and answers

/// The answer to a health check: the server's name and version.
pub struct HealthResponse {
    pub name: &'static str,
    pub version: &'static str,
}

/// A request to sign up with an email.
pub struct SignupRequest {
    pub email: String,
}

/// Whether validator accepts `s` as an email (the HTML5 rules that its `ValidateEmail`
/// follows).
pub uninterp spec fn valid_email(s: Seq<char>) -> bool;

/// Calls validator's `ValidateEmail::validate_email` on `email`. Claims: the result is
/// `valid_email(email@)`, and, as the source shows, an accepted email holds an `@`.
#[verifier::external_body]
fn validate_email(email: &str) -> (r: bool)
    ensures
        r == valid_email(email@),
        r ==> email@.contains('@'),
{
    validator::ValidateEmail::validate_email(&email)
}

impl SignupRequest {
    /// Whether the email of the request is a valid email.
    pub fn is_valid(&self) -> (r: bool)
        ensures
            r == valid_email(self.email@),
    {
        validate_email(self.email.as_str())
    }
}

/// A request to log in with an email.
pub struct LoginRequest {
    pub email: String,
}

/// The answer to a login: the token to send with the next requests.
pub struct LoginResponse {
    pub token: String,
}

// ---------------------------------------------------------------- tokens

/// How long a token is valid: 180 days, in seconds.
pub const TOKEN_LIFETIME_SECS: i64 = 15_552_000;

/// How many days a token is valid.
pub const TOKEN_LIFETIME_DAYS: i64 = 180;

/// The claims of a token: the user it was given to, when it expires and when it was given
/// (seconds since the epoch).
pub struct Claims {
    pub sub: String,
    pub exp: usize,
    pub iat: usize,
}

/// The day of January 1, 1970, counted as `Date` counts (chrono's `UNIX_EPOCH_DAY`).
pub const UNIX_EPOCH_DAY: i64 = 719_163;

/// Calls chrono's `DateTime::<Utc>::from_timestamp(ts, 0)` and then `checked_add_signed` with
/// `TimeDelta::days(days)`, and reads the timestamp of the result. Claims, as chrono's source
/// shows: there is a result when the day of `ts` (its Euclidean quotient by 86,400 from the
/// epoch day) and the day `days` later are days that chrono holds, from `MIN_DAY` to
/// `MAX_DAY`; and it lies `days` days after `ts`.
#[verifier::external_body]
fn timestamp_plus_days(ts: i64, days: i64) -> (r: Option<i64>)
    requires
        0 <= days <= 1_000_000,
    ensures
        r is Some <==> (MIN_DAY <= ts / 86400 + UNIX_EPOCH_DAY && ts / 86400 + UNIX_EPOCH_DAY
            + days <= MAX_DAY),
        r matches Some(x) ==> x == ts + 86400 * days,
{
    match chrono::DateTime::from_timestamp(ts, 0) {
        Some(t) => match t.checked_add_signed(chrono::TimeDelta::days(days)) {
            Some(later) => Some(later.timestamp()),
            None => None,
        },
        None => None,
    }
}

impl Claims {
    /// The claims of the token given at `now` to the user `sub`: given at `now`, expiring
    /// 180 days later. Nothing exactly when the day of the expiry lies beyond the last day
    /// that chrono holds.
    pub fn for_login(sub: String, now: i64) -> (r: Option<Claims>)
        requires
            0 <= now,
            now + TOKEN_LIFETIME_SECS <= usize::MAX,
        ensures
            r is Some <==> now / 86400 + UNIX_EPOCH_DAY + TOKEN_LIFETIME_DAYS <= MAX_DAY,
            r matches Some(c) ==> c.sub@ == sub@ && c.iat == now && c.exp == now
                + TOKEN_LIFETIME_SECS,
    {
        match timestamp_plus_days(now, TOKEN_LIFETIME_DAYS) {
            Some(exp) => Some(Claims { sub, exp: exp as usize, iat: now as usize }),
            None => None,
        }
    }
}

/// What jsonwebtoken's `encode` gives for the claims `sub`, `exp`, `iat`, signed with the
/// default header (HS256) and the secret `secret`: the token, or the text of its error.
pub uninterp spec fn signed_token(sub: Seq<char>, exp: usize, iat: usize, secret: Seq<char>) -> Result<
    Seq<char>,
    Seq<char>,
>;

/// Calls jsonwebtoken's `encode` with the default header (HS256), the claims as a JSON object
/// (`sub`, `exp`, `iat`) and the key made from the bytes of `secret`. Claims: the token, or
/// the text of the error, is `signed_token` of the claims and the secret. Whether signing
/// succeeds is left unsaid.
#[verifier::external_body]
fn sign_claims(claims: &Claims, secret: &str) -> (r: Result<String, String>)
    ensures
        match r {
            Ok(t) => signed_token(claims.sub@, claims.exp, claims.iat, secret@) == Ok::<
                Seq<char>,
                Seq<char>,
            >(t@),
            Err(e) => signed_token(claims.sub@, claims.exp, claims.iat, secret@) == Err::<
                Seq<char>,
                Seq<char>,
            >(e@),
        },
{
    let mut map = serde_json::Map::new();
    map.insert(String::from("sub"), serde_json::Value::from(claims.sub.as_str()));
    map.insert(String::from("exp"), serde_json::Value::from(claims.exp));
    map.insert(String::from("iat"), serde_json::Value::from(claims.iat));
    let key = jsonwebtoken::EncodingKey::from_secret(secret.as_bytes());
    match jsonwebtoken::encode(&jsonwebtoken::Header::default(), &serde_json::Value::Object(map), &key) {
        Ok(t) => Ok(t),
        Err(e) => Err(e.to_string()),
    }
}

/// The answer to the login, at `now`, of the user `user_id`: the token of the claims of
/// `Claims::for_login`, signed with `secret`; an internal error with the text of the signing
/// error otherwise.
pub fn login_response(user_id: String, now: i64, secret: &str) -> (r: Result<LoginResponse, ApiError>)
    requires
        0 <= now,
        now + TOKEN_LIFETIME_SECS <= usize::MAX,
        now / 86400 + UNIX_EPOCH_DAY + TOKEN_LIFETIME_DAYS <= MAX_DAY,
    ensures
        match r {
            Ok(resp) => signed_token(
                user_id@,
                (now + TOKEN_LIFETIME_SECS) as usize,
                now as usize,
                secret@,
            ) == Ok::<Seq<char>, Seq<char>>(resp.token@),
            Err(e) => e is Internal && signed_token(
                user_id@,
                (now + TOKEN_LIFETIME_SECS) as usize,
                now as usize,
                secret@,
            ) == Err::<Seq<char>, Seq<char>>(api_message(&e)),
        },
{
    let claims = match Claims::for_login(user_id, now) {
        Some(c) => c,
        None => {
            return Err(ApiError::Internal(String::from_str("valid timestamp")));
        },
    };
    match sign_claims(&claims, secret) {
        Ok(token) => Ok(LoginResponse { token }),
        Err(e) => Err(ApiError::Internal(e)),
    }
}

// ---------------------------------------------------------------- authentication

/// The user a request comes from, as its token names them.
pub struct AuthUser {
    pub user_id: String,
}

/// The refusal of a request that does not authenticate: its HTTP status and message.
pub struct AuthRejection {
    pub status: u16,
    pub message: String,
}

/// What an `Authorization` header starts with.
pub const BEARER_PREFIX: &'static str = "Bearer ";

/// The token of the `Authorization` header `auth_header`: what follows "Bearer ". Refused
/// with 401 when there is no header or when it does not start with "Bearer ".
pub fn bearer_token(auth_header: Option<&str>) -> (r: Result<String, AuthRejection>)
    ensures
        match auth_header {
            None => r matches Err(e) && e.status == 401 && e.message@
                == "Missing Authorization header"@,
            Some(h) => if BEARER_PREFIX@.len() <= h@.len() && h@.subrange(
                0,
                BEARER_PREFIX@.len() as int,
            ) == BEARER_PREFIX@ {
                r matches Ok(t) && t@ == h@.subrange(BEARER_PREFIX@.len() as int, h@.len() as int)
            } else {
                r matches Err(e) && e.status == 401 && e.message@ == "Invalid token type"@
            },
        },
{
    match auth_header {
        None => Err(
            AuthRejection {
                status: 401,
                message: String::from_str("Missing Authorization header"),
            },
        ),
        Some(h) => {
            if !starts_with(h, BEARER_PREFIX) {
                return Err(
                    AuthRejection { status: 401, message: String::from_str("Invalid token type") },
                );
            }
            let from = BEARER_PREFIX.unicode_len();
            let to = h.unicode_len();
            Ok(String::from_str(h.substring_char(from, to)))
        },
    }
}

/// What uuid's `Uuid::parse_str` gives for `s`: the id as a 128-bit number, or the text of
/// its error.
pub uninterp spec fn parsed_uuid(s: Seq<char>) -> Result<u128, Seq<char>>;

/// Calls uuid's `Uuid::parse_str` on `s`, and reads the id as a number (`as_u128`) or the
/// error as its text. Claims: the result is `parsed_uuid(s@)`.
#[verifier::external_body]
fn parse_uuid(s: &str) -> (r: Result<u128, String>)
    ensures
        match r {
            Ok(u) => parsed_uuid(s@) == Ok::<u128, Seq<char>>(u),
            Err(t) => parsed_uuid(s@) == Err::<u128, Seq<char>>(t@),
        },
{
    match uuid::Uuid::parse_str(s) {
        Ok(id) => Ok(id.as_u128()),
        Err(e) => Err(e.to_string()),
    }
}

/// How the registration of a device refuses a user id that is no uuid.
pub const INVALID_USER_ID_FR: &'static str = "ID utilisateur invalide: ";

/// How the other requests refuse a user id that is no uuid.
pub const INVALID_USER_ID: &'static str = "Invalid user ID: ";

impl AuthUser {
    /// The user's id as a uuid number; a bad request, whose message is `invalid_prefix`
    /// followed by uuid's error, when it is no uuid.
    pub fn user_uuid(&self, invalid_prefix: &str) -> (r: Result<u128, ApiError>)
        ensures
            match parsed_uuid(self.user_id@) {
                Ok(u) => r matches Ok(v) && v == u,
                Err(t) => r matches Err(e) && e is BadRequest && api_message(&e) == invalid_prefix@
                    + t,
            },
    {
        match parse_uuid(self.user_id.as_str()) {
            Ok(u) => Ok(u),
            Err(t) => Err(ApiError::BadRequest(concat(invalid_prefix, t.as_str()))),
        }
    }
}


/// Calls jsonwebtoken's `decode` on `token` with the key made from the bytes of `secret` and
/// the default validation (HS256, an `exp` claim not past, by the machine's clock), and reads
/// the `sub` claim as a string; otherwise gives the text of the error. Nothing is claimed of
/// the result: it depends on the time of the call.
#[verifier::external_body]
fn decode_subject(token: &str, secret: &str) -> (r: Result<String, String>) {
    let key = jsonwebtoken::DecodingKey::from_secret(secret.as_bytes());
    match jsonwebtoken::decode::<serde_json::Value>(token, &key, &jsonwebtoken::Validation::default()) {
        Ok(data) => serde_json::from_value::<String>(data.claims["sub"].clone()).map_err(|e| e.to_string()),
        Err(e) => Err(e.to_string()),
    }
}

/// How a request whose token does not decode is refused, before the decoding error.
pub const INVALID_TOKEN_PREFIX: &'static str = "Invalid or expired token: ";

/// The user named by a decoded token, or the refusal (401) of a token that did not decode:
/// `INVALID_TOKEN_PREFIX` followed by the decoding error.
pub fn user_from_decoded(decoded: Result<String, String>) -> (r: Result<AuthUser, AuthRejection>)
    ensures
        match decoded {
            Ok(s) => r matches Ok(u) && u.user_id@ == s@,
            Err(t) => r matches Err(e) && e.status == 401 && e.message@ == INVALID_TOKEN_PREFIX@
                + t@,
        },
{
    match decoded {
        Ok(s) => Ok(AuthUser { user_id: s }),
        Err(t) => Err(
            AuthRejection { status: 401, message: concat(INVALID_TOKEN_PREFIX, t.as_str()) },
        ),
    }
}

/// The user a request comes from, read from its `Authorization` header and the token in it
/// (see `bearer_token`), the token decoded with `secret` (see `user_from_decoded`). Refused
/// with 401 when the header is missing or not a bearer token, or when the token does not
/// decode, the message then starting with `INVALID_TOKEN_PREFIX`.
pub fn authenticate(auth_header: Option<&str>, secret: &str) -> (r: Result<AuthUser, AuthRejection>)
    ensures
        match auth_header {
            None => r matches Err(e) && e.status == 401 && e.message@
                == "Missing Authorization header"@,
            Some(h) => if BEARER_PREFIX@.len() <= h@.len() && h@.subrange(
                0,
                BEARER_PREFIX@.len() as int,
            ) == BEARER_PREFIX@ {
                r matches Err(e) ==> e.status == 401 && INVALID_TOKEN_PREFIX@.len()
                    <= e.message@.len() && e.message@.subrange(
                    0,
                    INVALID_TOKEN_PREFIX@.len() as int,
                ) == INVALID_TOKEN_PREFIX@
            } else {
                r matches Err(e) && e.status == 401 && e.message@ == "Invalid token type"@
            },
        },
{
    let token = match bearer_token(auth_header) {
        Ok(t) => t,
        Err(e) => {
            return Err(e);
        },
    };
    let decoded = decode_subject(token.as_str(), secret);
    let ghost d = decoded;
    let r = user_from_decoded(decoded);
    proof {
        if let Err(t) = d {
            assert((INVALID_TOKEN_PREFIX@ + t@).subrange(0, INVALID_TOKEN_PREFIX@.len() as int)
                =~= INVALID_TOKEN_PREFIX@);
        }
    }
    r
}

} // verus!
