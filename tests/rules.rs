use chat_backend::client::ApiError;
use chat_backend::text::{contains_ignore_ascii_case, eq_ignore_ascii_case, is_alphanumeric};
use chat_backend::validation::{
    invalid_password, invalid_username, password_offline_check, username_offline_check,
    AccountErrorReason,
};

#[test]
fn username_form_check() {
    assert_eq!(username_offline_check(""), Err(AccountErrorReason::EmptyUsername));
    assert_eq!(username_offline_check("abc"), Err(AccountErrorReason::InvalidLengthUsername));
    assert_eq!(username_offline_check("abcd"), Ok(()));
    assert_eq!(username_offline_check(&"x".repeat(64)), Ok(()));
    assert_eq!(username_offline_check(&"x".repeat(65)), Err(AccountErrorReason::InvalidLengthUsername));
}

#[test]
fn password_form_check() {
    assert_eq!(password_offline_check("", ""), Err(AccountErrorReason::NoPassword));
    assert_eq!(password_offline_check("password1", "password2"), Err(AccountErrorReason::BadConfirmPassword));
    assert_eq!(password_offline_check("short", "short"), Err(AccountErrorReason::InvalidLengthPassword));
    assert_eq!(password_offline_check("password1", "password1"), Ok(()));
    assert_eq!(AccountErrorReason::BadConfirmPassword.message(), "Passwords do not match");
}

#[test]
fn older_account_character_rules() {
    assert!(!invalid_username("user_name1"));
    assert!(invalid_username("user-name"));
    assert!(!invalid_password("p@ss~word!"));
    assert!(invalid_password("pass word"));
}

#[test]
fn case_folding_helpers() {
    assert!(eq_ignore_ascii_case("AliCe", "alice"));
    assert!(!eq_ignore_ascii_case("alice", "alicia"));
    assert!(!eq_ignore_ascii_case("[", "{"));
    assert!(contains_ignore_ascii_case("BobAlicious", "ALI"));
    assert!(!contains_ignore_ascii_case("bob", "bobby"));
    assert!(contains_ignore_ascii_case("bob", ""));
    assert!(is_alphanumeric("abc123"));
    assert!(!is_alphanumeric("abc 123"));
}

#[test]
fn client_errors_from_status() {
    assert_eq!(ApiError::from_status(504), ApiError::Timeout);
    assert_eq!(ApiError::from_status(408), ApiError::Timeout);
    assert_eq!(ApiError::from_status(401), ApiError::Unauthorized);
    assert_eq!(ApiError::from_status(403), ApiError::Unauthorized);
    assert_eq!(ApiError::from_status(400), ApiError::BadRequest);
    assert_eq!(ApiError::from_status(500), ApiError::Other { status: 500 });
}
