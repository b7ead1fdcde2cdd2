use batch_mail::config::{ConfigError, MailConfig, ValidationError};

fn sample_config() -> MailConfig {
    MailConfig {
        smtp_server: "smtp.example.com".to_string(),
        smtp_port: 587,
        email_address: "from@example.com".to_string(),
        password: "secret".to_string(),
        sender_name: "Sender".to_string(),
    }
}

#[test]
fn default_has_port_587_and_empty_strings() {
    let c = MailConfig::default();
    assert_eq!(c.smtp_port, 587);
    assert_eq!(c.smtp_server, "");
    assert_eq!(c.email_address, "");
    assert_eq!(c.password, "");
    assert_eq!(c.sender_name, "");
}

#[test]
fn load_without_file_returns_defaults() {
    let r = MailConfig::load_from_content(None).unwrap();
    assert_eq!(r, MailConfig::default());
    assert_eq!(r.smtp_port, 587);
}

#[test]
fn load_with_content_parses_it() {
    let text = sample_config().save_string();
    let r = MailConfig::load_from_content(Some(&text)).unwrap();
    assert_eq!(r, sample_config());
}

#[test]
fn validate_accepts_sample() {
    assert_eq!(sample_config().validate(), Ok(()));
}

#[test]
fn validate_reports_empty_server_first() {
    let mut c = sample_config();
    c.smtp_server = String::new();
    c.password = String::new();
    assert_eq!(c.validate(), Err(ValidationError::EmptyServer));
}

#[test]
fn validate_reports_zero_port() {
    let mut c = sample_config();
    c.smtp_port = 0;
    assert_eq!(c.validate(), Err(ValidationError::ZeroPort));
}

#[test]
fn validate_reports_empty_address() {
    let mut c = sample_config();
    c.email_address = String::new();
    assert_eq!(c.validate(), Err(ValidationError::EmptyAddress));
}

#[test]
fn validate_reports_missing_at_sign() {
    let mut c = sample_config();
    c.email_address = "no-at-sign".to_string();
    assert_eq!(c.validate(), Err(ValidationError::AddressMissingAt));
}

#[test]
fn validate_reports_empty_password() {
    let mut c = sample_config();
    c.password = String::new();
    assert_eq!(c.validate(), Err(ValidationError::EmptyPassword));
}

#[test]
fn save_then_load_round_trips_every_field() {
    let mut c = sample_config();
    c.password = "p\"w\\d\nwith\ttabs\rand\u{1}ctl\u{b}also".to_string();
    c.sender_name = "Ann \"The Boss\" Example".to_string();
    c.smtp_port = 65535;
    let text = c.save_string();
    let back = MailConfig::parse_saved(&text).unwrap();
    assert_eq!(back, c);
}

#[test]
fn round_trip_of_defaults() {
    let c = MailConfig::default();
    assert_eq!(MailConfig::parse_saved(&c.save_string()).unwrap(), c);
}

#[test]
fn rendered_text_is_valid_json_with_the_same_fields() {
    let mut c = sample_config();
    c.password = "a\"b\\c\nd\u{2}e".to_string();
    let text = c.save_string();
    let v: serde_json::Value = serde_json::from_str(&text).unwrap();
    assert_eq!(v["smtp_server"].as_str().unwrap(), "smtp.example.com");
    assert_eq!(v["smtp_port"].as_u64().unwrap(), 587);
    assert_eq!(v["email_address"].as_str().unwrap(), "from@example.com");
    assert_eq!(v["password"].as_str().unwrap(), "a\"b\\c\nd\u{2}e");
    assert_eq!(v["sender_name"].as_str().unwrap(), "Sender");
}

#[test]
fn parser_accepts_extra_whitespace_between_tokens() {
    let text = "  {  \"smtp_server\" :  \"s.example\" ,\n\n\"smtp_port\":25,\t\"email_address\"\n: \"a@b\", \"password\": \"p\", \"sender_name\": \"\" }  \n";
    let c = MailConfig::parse_saved(text).unwrap();
    assert_eq!(c.smtp_server, "s.example");
    assert_eq!(c.smtp_port, 25);
    assert_eq!(c.email_address, "a@b");
    assert_eq!(c.password, "p");
    assert_eq!(c.sender_name, "");
}

#[test]
fn parser_decodes_escapes() {
    let text = "{\"smtp_server\": \"a\\\"b\\\\c\\/d\\n\\r\\t\\b\\f\\u0001\", \"smtp_port\": 1, \"email_address\": \"a@b\", \"password\": \"p\", \"sender_name\": \"n\"}";
    let c = MailConfig::parse_saved(text).unwrap();
    assert_eq!(c.smtp_server, "a\"b\\c/d\n\r\t\u{8}\u{c}\u{1}");
}

#[test]
fn parser_rejects_missing_field() {
    let text = "{\"smtp_server\": \"s\", \"smtp_port\": 1, \"email_address\": \"a@b\", \"password\": \"p\"}";
    assert_eq!(MailConfig::parse_saved(text), Err(ConfigError::ParseFailed));
}

#[test]
fn parser_accepts_reordered_fields() {
    let text = "{\"smtp_port\": 1, \"smtp_server\": \"s\", \"sender_name\": \"n\", \"email_address\": \"a@b\", \"password\": \"p\"}";
    let c = MailConfig::parse_saved(text).unwrap();
    assert_eq!(c.smtp_port, 1);
    assert_eq!(c.smtp_server, "s");
    assert_eq!(c.sender_name, "n");
    assert_eq!(c.email_address, "a@b");
    assert_eq!(c.password, "p");
}

#[test]
fn parser_ignores_unknown_members() {
    let text = "{\"extra\": {\"a\": [1, -2.5e-3, true, null, \"x\"], \"b\": {}}, \"smtp_server\": \"s\", \"smtp_port\": 1, \"note\": -12.5, \"email_address\": \"a@b\", \"password\": \"p\", \"empty\": [], \"sender_name\": \"n\"}";
    let c = MailConfig::parse_saved(text).unwrap();
    assert_eq!(c.smtp_server, "s");
    assert_eq!(c.smtp_port, 1);
    assert_eq!(c.email_address, "a@b");
    assert_eq!(c.password, "p");
    assert_eq!(c.sender_name, "n");
}

#[test]
fn parser_rejects_duplicate_field() {
    let text = "{\"smtp_server\": \"s\", \"smtp_server\": \"t\", \"smtp_port\": 1, \"email_address\": \"a@b\", \"password\": \"p\", \"sender_name\": \"n\"}";
    assert_eq!(MailConfig::parse_saved(text), Err(ConfigError::ParseFailed));
}

#[test]
fn parser_decodes_general_unicode_escapes() {
    let text = "{\"smtp_server\": \"\\u0041\\u4e2d\", \"smtp_port\": 1, \"email_address\": \"a@b\", \"password\": \"p\", \"sender_name\": \"n\"}";
    let c = MailConfig::parse_saved(text).unwrap();
    assert_eq!(c.smtp_server, "A\u{4e2d}");
}

#[test]
fn parser_rejects_lone_surrogate_escape() {
    let text = "{\"smtp_server\": \"\\ud800\", \"smtp_port\": 1, \"email_address\": \"a@b\", \"password\": \"p\", \"sender_name\": \"n\"}";
    assert_eq!(MailConfig::parse_saved(text), Err(ConfigError::ParseFailed));
}

#[test]
fn parser_rejects_leading_zero_port() {
    let text = "{\"smtp_server\": \"s\", \"smtp_port\": 0587, \"email_address\": \"a@b\", \"password\": \"p\", \"sender_name\": \"n\"}";
    assert_eq!(MailConfig::parse_saved(text), Err(ConfigError::ParseFailed));
}

#[test]
fn parser_reads_port_zero_and_validate_rejects_it() {
    let text = "{\"smtp_server\": \"s\", \"smtp_port\": 0, \"email_address\": \"a@b\", \"password\": \"p\", \"sender_name\": \"n\"}";
    let c = MailConfig::parse_saved(text).unwrap();
    assert_eq!(c.smtp_port, 0);
    assert_eq!(c.validate(), Err(ValidationError::ZeroPort));
}

#[test]
fn parser_rejects_port_above_u16() {
    let text = "{\"smtp_server\": \"s\", \"smtp_port\": 65536, \"email_address\": \"a@b\", \"password\": \"p\", \"sender_name\": \"n\"}";
    assert_eq!(MailConfig::parse_saved(text), Err(ConfigError::ParseFailed));
}

#[test]
fn parser_rejects_trailing_garbage() {
    let mut text = sample_config().save_string();
    text.push_str("x");
    assert_eq!(MailConfig::parse_saved(&text), Err(ConfigError::ParseFailed));
}

#[test]
fn parser_rejects_raw_control_character_in_string() {
    let text = "{\"smtp_server\": \"s\u{1}\", \"smtp_port\": 1, \"email_address\": \"a@b\", \"password\": \"p\", \"sender_name\": \"n\"}";
    assert_eq!(MailConfig::parse_saved(text), Err(ConfigError::ParseFailed));
}

#[test]
fn parser_rejects_empty_text() {
    assert_eq!(MailConfig::parse_saved(""), Err(ConfigError::ParseFailed));
}

#[test]
fn round_trip_survives_every_control_character() {
    let mut c = sample_config();
    let mut pw = String::new();
    for b in 0u8..32u8 {
        pw.push(b as char);
        pw.push('x');
    }
    c.password = pw;
    assert_eq!(MailConfig::parse_saved(&c.save_string()).unwrap(), c);
}

#[test]
fn load_with_unparsable_content_reports_parse_failure() {
    assert_eq!(
        MailConfig::load_from_content(Some("not a configuration")),
        Err(ConfigError::ParseFailed)
    );
}
