//! Scenarios for bearer-token authentication.
use cassettedb::server::auth::{request_authorized, AuthManager, Authenticator};

#[test]
fn test_auth_disabled() {
    let auth = AuthManager::new(None);
    assert!(!auth.is_enabled());
    assert!(auth.validate("anything"));
}

#[test]
fn test_auth_enabled() {
    let auth = AuthManager::new(Some("secret123".to_string()));
    assert!(auth.is_enabled());
    assert!(auth.validate("secret123"));
    assert!(!auth.validate("wrong"));
}

#[test]
fn test_add_remove_token() {
    let mut auth = AuthManager::new(Some("master".to_string()));
    auth.add_token("extra".to_string());
    assert!(auth.validate("extra"));
    assert!(auth.remove_token("extra"));
    assert!(!auth.validate("extra"));
}

#[test]
fn test_extract_token() {
    assert_eq!(AuthManager::extract_token("Bearer secret123"), Some("secret123"));
    assert_eq!(AuthManager::extract_token("bearer secret123"), Some("secret123"));
    assert_eq!(AuthManager::extract_token("secret123"), None);
}

#[test]
fn extract_token_trims_and_ignores_case() {
    assert_eq!(AuthManager::extract_token("  BEARER abc  "), Some("abc"));
    assert_eq!(AuthManager::extract_token("Bearer "), None);
    assert_eq!(AuthManager::extract_token("Bearer  x"), Some(" x"));
    assert_eq!(AuthManager::extract_token("Basic abcdef"), None);
}

#[test]
fn removing_an_unknown_token_reports_false() {
    let mut auth = AuthManager::new(Some("m".to_string()));
    assert!(!auth.remove_token("other"));
    assert!(auth.validate("m"));
}

#[test]
fn removed_master_token_is_refused() {
    let mut auth = AuthManager::new(Some("m".to_string()));
    auth.add_token("m".to_string());
    assert!(auth.remove_token("m"));
    assert!(!auth.validate("m"));
    assert!(auth.is_enabled());
}

#[test]
fn disabled_auth_accepts_even_removed_tokens() {
    let mut auth = AuthManager::new(None);
    auth.add_token("t".to_string());
    assert!(auth.remove_token("t"));
    assert!(auth.validate("t"));
}

#[test]
fn request_authorization() {
    let auth = AuthManager::new(Some("k".to_string()));
    assert!(request_authorized(&auth, Some("Bearer k")));
    assert!(!request_authorized(&auth, Some("Bearer z")));
    assert!(!request_authorized(&auth, Some("k")));
    assert!(!request_authorized(&auth, None));
    let open = AuthManager::new(None);
    assert!(request_authorized(&open, None));
}
