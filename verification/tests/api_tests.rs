use viva_padel::api::{
    authenticate, bearer_token, login_response, user_from_decoded, ApiError, AuthUser, Claims,
    DBError, SignupRequest, INVALID_TOKEN_PREFIX, INVALID_USER_ID, INVALID_USER_ID_FR,
    TOKEN_LIFETIME_SECS,
};
use viva_padel::errors::Error;
use viva_padel::server_error::Error as ServerError;

#[test]
fn errors_answer_with_their_status() {
    assert_eq!(ApiError::Internal("x".into()).status_code(), 500);
    assert_eq!(ApiError::NotFound("x".into()).status_code(), 404);
    assert_eq!(ApiError::Unauthorized("x".into()).status_code(), 401);
    assert_eq!(ApiError::BadRequest("x".into()).status_code(), 400);
    assert_eq!(ApiError::ValidationError("x".into()).status_code(), 400);
    assert_eq!(ApiError::ValidationError("bad email".into()).message(), "bad email");
    assert_eq!(ApiError::NotFound("user".into()).text(), "Not found: user");
}

#[test]
fn store_errors_become_answers() {
    let e = ApiError::from(DBError::UserNotFound);
    assert!(matches!(&e, ApiError::NotFound(m) if m == "Utilisateur non trouvé"));
    let e = ApiError::from(DBError::UserAlreadyExists("a@b.c".into()));
    assert!(matches!(&e, ApiError::BadRequest(m) if m == "L'utilisateur a@b.c existe déjà"));
    let e = ApiError::from(DBError::Sqlx { code: Some("787".into()), text: "FOREIGN KEY".into() });
    assert!(matches!(&e, ApiError::Unauthorized(m) if m == "Session invalide ou utilisateur supprimé (FK error)"));
    let e = ApiError::from(DBError::Sqlx { code: Some("19".into()), text: "UNIQUE".into() });
    assert!(matches!(&e, ApiError::Internal(m) if m == "Database error: UNIQUE"));
    let e = ApiError::from(DBError::Env("DATABASE_URL".into()));
    assert!(matches!(&e, ApiError::Internal(m) if m == "Environment error: DATABASE_URL"));
    assert_eq!(DBError::UserNotFound.text(), "User not found");
}

#[test]
fn signup_refuses_an_invalid_email() {
    assert!(!SignupRequest { email: "invalid-email".into() }.is_valid());
    assert!(!SignupRequest { email: "".into() }.is_valid());
    assert!(SignupRequest { email: "test@example.com".into() }.is_valid());
    assert_eq!(ApiError::ValidationError("email".into()).status_code(), 400);
}

#[test]
fn bearer_tokens_are_read_from_the_header() {
    assert_eq!(bearer_token(Some("Bearer abc.def")).ok(), Some("abc.def".to_string()));
    let missing = bearer_token(None).err().unwrap();
    assert_eq!((missing.status, missing.message.as_str()), (401, "Missing Authorization header"));
    let wrong = bearer_token(Some("Basic abc")).err().unwrap();
    assert_eq!((wrong.status, wrong.message.as_str()), (401, "Invalid token type"));
    assert_eq!(bearer_token(Some("Bearer ")).ok(), Some(String::new()));
}

#[test]
fn user_ids_are_uuids() {
    let user = AuthUser { user_id: "67e55044-10b1-426f-9247-bb680e5fe0c8".into() };
    assert_eq!(user.user_uuid(INVALID_USER_ID).ok(), Some(0x67e5504410b1426f9247bb680e5fe0c8));
    let bad = AuthUser { user_id: "nope".into() };
    match bad.user_uuid(INVALID_USER_ID_FR) {
        Err(ApiError::BadRequest(m)) => assert!(m.starts_with("ID utilisateur invalide: ") && m.len() > 25),
        _ => panic!("a bad request was expected"),
    }
}

#[test]
fn login_tokens_last_180_days() {
    let claims = Claims::for_login("user".into(), 1_700_000_000).unwrap();
    assert_eq!(claims.sub, "user");
    assert_eq!(claims.iat, 1_700_000_000);
    assert_eq!(claims.exp as i64, 1_700_000_000 + TOKEN_LIFETIME_SECS);
    assert_eq!(TOKEN_LIFETIME_SECS, 180 * 24 * 3600);
}

#[test]
fn error_texts() {
    assert_eq!(Error::NetworkError("down".into()).text(), "Network error: down");
    assert_eq!(Error::StoreError("x".into()).text(), "Tauri Store plugin error: x");
    assert_eq!(Error::JsonResponseContentNotAsExpected("x".into()).text(), "The Json response is not as expected: x");
    assert_eq!(Error::JsonParsingError("eof".into()).text(), "Json parsing error: eof");
    assert_eq!(Error::ParsingError("date".into()).text(), "Parsing error: date");
    assert_eq!(Error::WasmConversionError("x".into()).text(), "serde_wasm_bindgen error: x");
    assert_eq!(ServerError::JsonParsingError("eof".into()).text(), "Json parsing error: eof");
    assert_eq!(ServerError::NetworkError("down".into()).text(), "Network error: down");
    assert_eq!(DBError::UserAlreadyExists("a".into()).text(), "User already exists: a");
    assert_eq!(DBError::Serialization("b".into()).text(), "Serialization error: b");
    assert_eq!(DBError::Sqlx { code: None, text: "c".into() }.text(), "Database error: c");
    assert_eq!(ApiError::Internal("x".into()).text(), "Internal server error: x");
    assert_eq!(ApiError::Unauthorized("x".into()).text(), "Unauthorized: x");
    assert_eq!(ApiError::BadRequest("x".into()).text(), "Bad request: x");
    assert_eq!(ApiError::ValidationError("x".into()).text(), "Validation error: x");
}

#[test]
fn tokens_expiring_beyond_the_last_day_are_not_given() {
    assert!(Claims::for_login("user".into(), 9_000_000_000_000).is_none());
    assert!(Claims::for_login("user".into(), 0).is_some());
}

#[test]
fn a_login_token_authenticates_its_user() {
    let now = chrono::Utc::now().timestamp();
    let user = "6f1c3a52-8b0e-4d8e-9a57-3c2d1e0f9b11".to_string();
    let resp = login_response(user.clone(), now, "secret").ok().unwrap();
    assert_eq!(resp.token.split('.').count(), 3);
    let header = format!("Bearer {}", resp.token);
    let auth = authenticate(Some(&header), "secret").ok().unwrap();
    assert_eq!(auth.user_id, user);
    // Signing twice the same claims gives the same token.
    assert_eq!(login_response(user.clone(), now, "secret").ok().unwrap().token, resp.token);
}

#[test]
fn a_token_with_another_secret_or_expired_is_refused() {
    let now = chrono::Utc::now().timestamp();
    let resp = login_response("u1".to_string(), now, "secret").ok().unwrap();
    let header = format!("Bearer {}", resp.token);
    let refused = authenticate(Some(&header), "other").err().unwrap();
    assert_eq!(refused.status, 401);
    assert!(refused.message.starts_with(INVALID_TOKEN_PREFIX));
    // Given in 1970, long expired.
    let old = login_response("u1".to_string(), 0, "secret").ok().unwrap();
    let refused = authenticate(Some(&format!("Bearer {}", old.token)), "secret").err().unwrap();
    assert_eq!(refused.status, 401);
    assert!(refused.message.starts_with(INVALID_TOKEN_PREFIX));
    let refused = authenticate(None, "secret").err().unwrap();
    assert_eq!(refused.message, "Missing Authorization header");
    let refused = authenticate(Some("Basic abc"), "secret").err().unwrap();
    assert_eq!(refused.message, "Invalid token type");
}

#[test]
fn a_decoded_subject_is_the_user() {
    assert_eq!(user_from_decoded(Ok("u1".to_string())).ok().unwrap().user_id, "u1");
    let e = user_from_decoded(Err("ExpiredSignature".to_string())).err().unwrap();
    assert_eq!(e.status, 401);
    assert_eq!(e.message, "Invalid or expired token: ExpiredSignature");
}
