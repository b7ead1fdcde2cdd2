use batch_mail::text::normalize_recipients;

#[test]
fn normalization_strips_blanks_and_keeps_order() {
    let r = normalize_recipients("a@x.com\n\n b@x.com \n");
    assert_eq!(r, vec!["a@x.com".to_string(), "b@x.com".to_string()]);
}

#[test]
fn normalization_of_blank_text_is_empty() {
    assert_eq!(normalize_recipients("   \n\t\n \r\n"), Vec::<String>::new());
    assert_eq!(normalize_recipients(""), Vec::<String>::new());
}

#[test]
fn normalization_trims_each_line_and_handles_crlf() {
    let r = normalize_recipients("\t a@x.com \r\nb@x.com\r\n\r\n  c@x.com");
    assert_eq!(
        r,
        vec![
            "a@x.com".to_string(),
            "b@x.com".to_string(),
            "c@x.com".to_string()
        ]
    );
}

#[test]
fn normalization_keeps_duplicates() {
    let r = normalize_recipients("a@x.com\na@x.com");
    assert_eq!(r, vec!["a@x.com".to_string(), "a@x.com".to_string()]);
}

#[test]
fn normalization_trims_unicode_whitespace() {
    let r = normalize_recipients("\u{a0} a@x.com \u{a0}\n \u{2009}\u{3000} \n\u{1680}b@x.com");
    assert_eq!(r, vec!["a@x.com".to_string(), "b@x.com".to_string()]);
}
