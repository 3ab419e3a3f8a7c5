use poomas::{Config, ConfigError};

fn raw(email: &str, smtp: &str) -> Config {
    Config {
        target: "ops@example.org".to_owned(),
        email: email.to_owned(),
        passwd: "pw".to_owned(),
        smtp: smtp.to_owned(),
    }
}

#[test]
fn empty_smtp_is_derived_from_the_email_domain() {
    let resolved = raw("user@example.com", "").resolve().unwrap();
    assert_eq!(resolved.smtp, "smtp.example.com");
    assert_eq!(resolved.email, "user@example.com");
    assert_eq!(resolved.target, "ops@example.org");
}

#[test]
fn email_without_at_sign_fails_resolution() {
    let res = raw("invalid", "").resolve();
    assert!(matches!(res, Err(ConfigError::InvalidEmailFormat)));
}

#[test]
fn configured_smtp_host_is_kept() {
    let resolved = raw("user@example.com", "mail.example.net").resolve().unwrap();
    assert_eq!(resolved.smtp, "mail.example.net");
}

#[test]
fn domain_is_everything_after_the_first_at() {
    let resolved = raw("odd@name@host", "").resolve().unwrap();
    assert_eq!(resolved.smtp, "smtp.name@host");
}
