use easydc::forms::{CreateUserForm, LoginForm, ResetPasswordForm, SetupForm, ToggleForm, UpdateServerForm};
use easydc::web::{
    audit_outcome, check_login, extract_session_cookie, new_session, session_cookie,
    setup_password_hash, CurrentUser, SetupError,
};

#[test]
fn session_cookie_lookup() {
    assert_eq!(extract_session_cookie("theme=dark; session=abc; x=1"), Some("abc".to_string()));
    assert_eq!(extract_session_cookie("session=first;session=second"), Some("first".to_string()));
    assert_eq!(extract_session_cookie("sessionid=1"), None);
    assert_eq!(extract_session_cookie(""), None);
    assert_eq!(session_cookie("t1"), "session=t1; Path=/; HttpOnly; SameSite=Strict");
}

#[test]
fn new_sessions_read_back() {
    let (token, cookie) = new_session();
    assert_eq!(token.len(), 36);
    assert_eq!(cookie, format!("session={}; Path=/; HttpOnly; SameSite=Strict", token));
    let pair = cookie.split(';').next().unwrap();
    assert_eq!(extract_session_cookie(pair), Some(token.clone()));
    assert_ne!(new_session().0, token);
}

#[test]
fn setup_rules() {
    assert!(matches!(setup_password_hash("abcdefgh", "abcdefgX"), Err(SetupError::PasswordsDiffer)));
    assert!(matches!(setup_password_hash("short", "short"), Err(SetupError::PasswordTooShort)));
    assert_eq!(SetupError::PasswordsDiffer.message(), Some("Passwords do not match"));
    assert_eq!(SetupError::PasswordTooShort.message(), Some("Password must be at least 8 characters"));
    // eight bytes in four characters is long enough
    let form = SetupForm { username: "admin".into(), password: "éééé".into(), confirm_password: "éééé".into() };
    let hash = form.password_hash().ok().unwrap();
    assert_eq!(hash.len(), 60);
    assert!(hash.starts_with("$2b$12$"));
}

#[test]
fn login_after_setup() {
    let hash = setup_password_hash("correct horse", "correct horse").ok().unwrap();
    assert!(check_login("correct horse", Some(&hash)));
    assert!(!check_login("wrong horse", Some(&hash)));
    assert!(!check_login("correct horse", None));
    assert!(!check_login("correct horse", Some("not a hash")));
    let form = LoginForm { username: "admin".into(), password: "correct horse".into() };
    assert!(form.accepted(Some(&hash)));
}

#[test]
fn audit_and_actor() {
    assert_eq!(audit_outcome(&Ok(())), ("success", None));
    assert_eq!(audit_outcome(&Err("boom".to_string())), ("failure", Some("boom".to_string())));
    assert_eq!(CurrentUser::from_lookup(None).0, "unknown");
    assert_eq!(CurrentUser::from_lookup(Some("root".to_string())).0, "root");
}

#[test]
fn form_decisions() {
    assert!(ToggleForm { enable: "true".into() }.enabling());
    assert!(!ToggleForm { enable: "TRUE".into() }.enabling());
    let reset = ResetPasswordForm { password: "".into(), force_change: Some("on".into()) };
    assert!(reset.forces_change());
    assert_eq!(reset.check(), Err("Password cannot be empty".to_string()));
    let ok = ResetPasswordForm { password: "x".into(), force_change: None };
    assert!(!ok.forces_change());
    assert_eq!(ok.check(), Ok(()));
    let server = UpdateServerForm {
        name: "dc1".into(),
        ldap_url: "ldaps://dc1".into(),
        bind_dn: "CN=a".into(),
        bind_password: "".into(),
        skip_tls: None,
    };
    assert!(server.keeps_password());
    assert!(!server.skips_tls());
    let cu = CreateUserForm {
        username: "u".into(),
        first_name: "F".into(),
        last_name: "L".into(),
        email: "e".into(),
        password: "p".into(),
    };
    let nu = cu.new_user();
    assert_eq!((nu.username, nu.first_name, nu.last_name, nu.email, nu.password), ("u", "F", "L", "e", "p"));
}
