use stellwerk::auth::{
    extract_session_token, generate_token, hash_password, hex_lower, kiosk_login, login, logout,
    logout_cookie, may_read, may_write, new_sessions, role_for_credentials, role_of, KioskOutcome,
    LoginOutcome, Role,
};
use stellwerk::config::AuthConfig;

fn auth(enabled: bool) -> AuthConfig {
    AuthConfig {
        enabled,
        username: "admin".to_string(),
        password_hash: hash_password("secret"),
        viewer_username: "guest".to_string(),
        viewer_password_hash: hash_password("look"),
        kiosk_token: "kiosk123".to_string(),
    }
}

#[test]
fn password_hash_is_sha256_hex() {
    assert_eq!(hash_password(""), "e3b0c44298fc1c149afbf4c8996fb92427ae41e4649b934ca495991b7852b855");
    assert_eq!(hash_password("abc"), "ba7816bf8f01cfea414140de5dae2223b00361a396177a9cb410ff61f20015ad");
}

#[test]
fn hex_encoding_of_bytes() {
    assert_eq!(hex_lower(&vec![0x00, 0x0f, 0xa0, 0xff]), "000fa0ff");
    assert_eq!(hex_lower(&vec![]), "");
}

#[test]
fn tokens_are_fresh_hex() {
    let a = generate_token().unwrap();
    let b = generate_token().unwrap();
    assert_eq!(a.len(), 64);
    assert!(a.chars().all(|c| c.is_ascii_hexdigit() && !c.is_ascii_uppercase()));
    assert_ne!(a, b);
}

#[test]
fn session_token_from_headers() {
    assert_eq!(extract_session_token(Some("theme=dark; session=abc; x=1"), None), Some("abc".to_string()));
    assert_eq!(extract_session_token(Some("session="), None), Some("".to_string()));
    assert_eq!(extract_session_token(Some("theme=dark"), Some("Bearer tok")), Some("tok".to_string()));
    assert_eq!(extract_session_token(None, Some("Bearer  tok2 ")), Some("tok2".to_string()));
    assert_eq!(extract_session_token(None, Some("Basic abc")), None);
    assert_eq!(extract_session_token(None, Some("Bearer ")), None);
    assert_eq!(extract_session_token(None, None), None);
}

#[test]
fn credentials_grant_roles() {
    let a = auth(true);
    assert_eq!(role_for_credentials(&a, "admin", &hash_password("secret")), Some(Role::Admin));
    assert_eq!(role_for_credentials(&a, "guest", &hash_password("look")), Some(Role::Viewer));
    assert_eq!(role_for_credentials(&a, "guest", &hash_password("secret")), None);
    let mut no_viewer = auth(true);
    no_viewer.viewer_username = String::new();
    no_viewer.viewer_password_hash = hash_password("");
    assert_eq!(role_for_credentials(&no_viewer, "", &hash_password("")), None);
}

#[test]
fn login_session_lifecycle() {
    let a = auth(true);
    let mut s = new_sessions();
    match login(&mut s, &a, "admin", "wrong") {
        LoginOutcome::Rejected => {}
        _ => panic!("wrong password admitted"),
    }
    let token = match login(&mut s, &a, "admin", "secret") {
        LoginOutcome::Admitted { role, token, cookie } => {
            assert_eq!(role, Role::Admin);
            assert_eq!(cookie, format!("session={}; HttpOnly; Secure; SameSite=Strict; Path=/; Max-Age=86400", token));
            token
        }
        _ => panic!("admin refused"),
    };
    let presented = extract_session_token(Some(&format!("session={}", token)), None);
    assert_eq!(presented, Some(token.clone()));
    assert_eq!(role_of(&s, true, &presented), Role::Admin);
    assert!(may_write(&s, true, &presented));
    logout(&mut s, &presented);
    assert_eq!(role_of(&s, true, &presented), Role::Unknown);
    assert!(!may_read(&s, true, &presented));
    assert_eq!(logout_cookie(), "session=; HttpOnly; Secure; SameSite=Strict; Path=/; Max-Age=0");
}

#[test]
fn viewer_may_read_only() {
    let a = auth(true);
    let mut s = new_sessions();
    let token = match login(&mut s, &a, "guest", "look") {
        LoginOutcome::Admitted { role, token, .. } => {
            assert_eq!(role, Role::Viewer);
            token
        }
        _ => panic!("viewer refused"),
    };
    let t = Some(token);
    assert!(may_read(&s, true, &t));
    assert!(!may_write(&s, true, &t));
}

#[test]
fn open_access_without_authentication() {
    let a = auth(false);
    let mut s = new_sessions();
    assert!(matches!(login(&mut s, &a, "x", "y"), LoginOutcome::Open));
    assert_eq!(role_of(&s, false, &None), Role::Admin);
    assert!(may_write(&s, false, &None));
}

#[test]
fn kiosk_links() {
    let mut s = new_sessions();
    assert!(matches!(kiosk_login(&mut s, &auth(false), "kiosk123"), KioskOutcome::Redirect));
    assert!(matches!(kiosk_login(&mut s, &auth(true), "nope"), KioskOutcome::Forbidden));
    match kiosk_login(&mut s, &auth(true), "kiosk123") {
        KioskOutcome::Admitted { token, cookie } => {
            assert_eq!(cookie, format!("session={}; HttpOnly; SameSite=Lax; Path=/; Max-Age=315360000", token));
            assert_eq!(role_of(&s, true, &Some(token)), Role::Viewer);
        }
        _ => panic!("kiosk refused"),
    }
    let mut empty = auth(true);
    empty.kiosk_token = String::new();
    assert!(matches!(kiosk_login(&mut s, &empty, ""), KioskOutcome::Redirect));
}
