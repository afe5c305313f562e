use tsql::ssl::{
    keyword_settings, resolve_ssl_mode, ssl_mode_of_settings, ssl_mode_of_url, SslMode,
};

fn pair(key: &str, value: &str) -> (String, String) {
    (key.to_string(), value.to_string())
}

fn unsupported(value: &str) -> Result<SslMode, String> {
    Err(format!(
        "Unsupported sslmode '{}'. Supported: disable, prefer, require, verify-ca, verify-full.",
        value
    ))
}

#[test]
fn names_of_modes() {
    assert_eq!(SslMode::parse("disable"), Some(SslMode::Disable));
    assert_eq!(SslMode::parse("prefer"), Some(SslMode::Prefer));
    assert_eq!(SslMode::parse("require"), Some(SslMode::Require));
    assert_eq!(SslMode::parse("verify-ca"), Some(SslMode::VerifyCa));
    assert_eq!(SslMode::parse("verify-full"), Some(SslMode::VerifyFull));
    assert_eq!(SslMode::parse("allow"), None);
    assert_eq!(SslMode::parse(""), None);
}

#[test]
fn no_sslmode_disables_tls() {
    assert_eq!(resolve_ssl_mode(""), Ok(SslMode::Disable));
    assert_eq!(resolve_ssl_mode("host=localhost user=me"), Ok(SslMode::Disable));
    assert_eq!(resolve_ssl_mode("postgres://me@localhost/db"), Ok(SslMode::Disable));
    assert_eq!(resolve_ssl_mode("postgresql://h/db?connect_timeout=3"), Ok(SslMode::Disable));
}

#[test]
fn keyword_strings() {
    assert_eq!(resolve_ssl_mode("host=h sslmode=require"), Ok(SslMode::Require));
    assert_eq!(resolve_ssl_mode("SSLMODE=prefer"), Ok(SslMode::Prefer));
    assert_eq!(resolve_ssl_mode("host=h sslmode=bogus"), unsupported("bogus"));
    assert_eq!(resolve_ssl_mode("sslmode="), unsupported(""));
    assert_eq!(resolve_ssl_mode("sslmode=require=x"), unsupported("require=x"));
    assert_eq!(resolve_ssl_mode("sslmode"), Ok(SslMode::Disable));
    assert_eq!(resolve_ssl_mode("sslmode ="), Ok(SslMode::Disable));
    assert_eq!(resolve_ssl_mode("sslmode =require"), Ok(SslMode::Require));
    assert_eq!(resolve_ssl_mode("host=h SSLMODE =bogus user=u"), unsupported("bogus"));
    assert_eq!(resolve_ssl_mode("user =sslmode =require"), Ok(SslMode::Disable));
    assert_eq!(resolve_ssl_mode("password= sslmode=require"), Ok(SslMode::Disable));
    assert_eq!(resolve_ssl_mode("password= x sslmode= require"), Ok(SslMode::Require));
    assert_eq!(resolve_ssl_mode("user = sslmode sslmode = verify-ca"), Ok(SslMode::VerifyCa));
}

#[test]
fn blanks_around_equals() {
    for s in [
        "sslmode=verify-full",
        "sslmode= verify-full",
        "sslmode =verify-full",
        "sslmode = verify-full",
    ] {
        assert_eq!(resolve_ssl_mode(s), Ok(SslMode::VerifyFull));
    }
}

#[test]
fn first_sslmode_decides() {
    assert_eq!(resolve_ssl_mode("sslmode=require sslmode=bogus"), Ok(SslMode::Require));
    assert_eq!(
        resolve_ssl_mode("postgres://h/db?sslmode=prefer&sslmode=require"),
        Ok(SslMode::Prefer)
    );
}

#[test]
fn urls() {
    assert_eq!(resolve_ssl_mode("postgres://u:p@h:5432/db?sslmode=require"), Ok(SslMode::Require));
    assert_eq!(
        resolve_ssl_mode("postgresql://h/db?a=b&SslMode=verify%2Dca"),
        Ok(SslMode::VerifyCa)
    );
    assert_eq!(resolve_ssl_mode("postgres://h/db?sslmode=no+way"), unsupported("no way"));
    assert_eq!(resolve_ssl_mode("postgres://h/db?sslmode"), unsupported(""));
    assert_eq!(
        resolve_ssl_mode("postgres://h:port/db"),
        Err("Invalid URL: invalid port number".to_string())
    );
    assert_eq!(
        resolve_ssl_mode("postgres://[::1/db"),
        Err("Invalid URL: invalid IPv6 address".to_string())
    );
    assert_eq!(resolve_ssl_mode("mysql://h/db?sslmode=require"), Ok(SslMode::Disable));
}

#[test]
fn settings_of_keyword_strings() {
    assert_eq!(
        keyword_settings("host=h port = 5432 user= me loose a=b=c"),
        vec![
            pair("host", "h"),
            pair("port", "5432"),
            pair("user", "me"),
            pair("a", "b=c"),
        ]
    );
    assert_eq!(keyword_settings("a= b=c d=e"), vec![pair("a", "b=c"), pair("d", "e")]);
    assert_eq!(keyword_settings("a =b c =d=e"), vec![pair("a", "b"), pair("c", "d=e")]);
    assert_eq!(keyword_settings(" \t"), vec![]);
}

#[test]
fn modes_of_settings_and_urls() {
    let pairs = vec![pair("x", "y"), pair("sslMODE", "verify-full")];
    assert_eq!(ssl_mode_of_settings(&pairs), Ok(SslMode::VerifyFull));
    assert_eq!(ssl_mode_of_url(Ok(pairs)), Ok(SslMode::VerifyFull));
    assert_eq!(ssl_mode_of_url(Err("why".to_string())), Err("Invalid URL: why".to_string()));
    assert_eq!(ssl_mode_of_settings(&vec![pair("sslmode", "x")]), unsupported("x"));
}
