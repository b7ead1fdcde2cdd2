use batch_mail::config::{MailConfig, ValidationError};
use batch_mail::dispatch::{plan, BatchRun, DispatchError, DispatchOutcome};
use batch_mail::views::{Navigator, Views};

fn good_config() -> MailConfig {
    MailConfig {
        smtp_server: "smtp.example.com".to_string(),
        smtp_port: 587,
        email_address: "from@example.com".to_string(),
        password: "secret".to_string(),
        sender_name: "Sender".to_string(),
    }
}

/// Drives a whole dispatch the way the application does, with a stub in the
/// transport's place: `connects` counts session establishments and `send`
/// answers for each handed-out recipient.
fn dispatch_with<F: FnMut(&str) -> Result<(), String>>(
    config: &MailConfig,
    raw: &str,
    subject: &str,
    html: &str,
    connects: &mut usize,
    mut send: F,
) -> Result<DispatchOutcome, DispatchError> {
    let recipients = plan(config, raw, subject, html)?;
    *connects += 1;
    let mut run = BatchRun::new(recipients);
    while let Some(rec) = run.next_to_send() {
        match send(&rec) {
            Ok(()) => run.record_sent(),
            Err(m) => run.record_send_failure(m),
        }
    }
    run.finish()
}

#[test]
fn empty_html_fails_with_no_content_and_never_connects() {
    let mut connects: usize = 0;
    let r = dispatch_with(
        &good_config(),
        "ok@x.com",
        "Subj",
        "",
        &mut connects,
        |_| Ok(()),
    );
    assert_eq!(r, Err(DispatchError::NoContent));
    assert_eq!(connects, 0);
}

#[test]
fn blank_recipients_fail_with_no_recipients() {
    let mut connects: usize = 0;
    let r = dispatch_with(
        &good_config(),
        "  \n \t ",
        "Subj",
        "<p>hi</p>",
        &mut connects,
        |_| Ok(()),
    );
    assert_eq!(r, Err(DispatchError::NoRecipients));
    assert_eq!(connects, 0);
}

#[test]
fn blank_subject_fails_with_no_subject() {
    let mut connects: usize = 0;
    let r = dispatch_with(
        &good_config(),
        "ok@x.com",
        "   ",
        "<p>hi</p>",
        &mut connects,
        |_| Ok(()),
    );
    assert_eq!(r, Err(DispatchError::NoSubject));
    assert_eq!(connects, 0);
}

#[test]
fn missing_server_fails_with_invalid_config_before_any_send() {
    let mut c = good_config();
    c.smtp_server = String::new();
    let mut connects: usize = 0;
    let mut sends: usize = 0;
    let r = dispatch_with(&c, "ok@x.com", "Subj", "<p>hi</p>", &mut connects, |_| {
        sends += 1;
        Ok(())
    });
    assert_eq!(
        r,
        Err(DispatchError::InvalidConfig(ValidationError::EmptyServer))
    );
    assert_eq!(connects, 0);
    assert_eq!(sends, 0);
}

#[test]
fn bad_sender_address_fails_before_connecting() {
    let mut c = good_config();
    c.email_address = "not@an@address@with spaces@".to_string();
    let mut connects: usize = 0;
    let r = dispatch_with(&c, "ok@x.com", "Subj", "<p>hi</p>", &mut connects, |_| {
        Ok(())
    });
    assert!(matches!(r, Err(DispatchError::InvalidSenderAddress(_))));
    assert_eq!(connects, 0);
}

#[test]
fn partial_success_reports_count_and_ordered_failures() {
    let mut connects: usize = 0;
    let r = dispatch_with(
        &good_config(),
        "ok@x.com\nbad@x.com",
        "Subj",
        "<p>hi</p>",
        &mut connects,
        |rec| {
            if rec == "ok@x.com" {
                Ok(())
            } else {
                Err("rejected by stub".to_string())
            }
        },
    );
    assert_eq!(connects, 1);
    match r {
        Ok(DispatchOutcome::Partial { succeeded, failed }) => {
            assert_eq!(succeeded, 1);
            assert_eq!(failed.len(), 1);
            assert_eq!(failed[0].recipient, "bad@x.com");
            assert_eq!(failed[0].message, "rejected by stub");
        }
        other => panic!("expected a partial success, got {:?}", other),
    }
}

#[test]
fn all_sends_failing_reports_every_recipient_in_order() {
    let mut connects: usize = 0;
    let r = dispatch_with(
        &good_config(),
        "a@x.com\nb@x.com\nc@x.com",
        "Subj",
        "<p>hi</p>",
        &mut connects,
        |_| Err("down".to_string()),
    );
    match r {
        Err(DispatchError::AllRecipientsFailed(failed)) => {
            assert_eq!(failed.len(), 3);
            assert_eq!(failed[0].recipient, "a@x.com");
            assert_eq!(failed[1].recipient, "b@x.com");
            assert_eq!(failed[2].recipient, "c@x.com");
        }
        other => panic!("expected a hard failure, got {:?}", other),
    }
}

#[test]
fn all_sends_succeeding_reports_the_count() {
    let mut connects: usize = 0;
    let r = dispatch_with(
        &good_config(),
        "a@x.com\nb@x.com",
        "Subj",
        "<p>hi</p>",
        &mut connects,
        |_| Ok(()),
    );
    assert_eq!(r, Ok(DispatchOutcome::AllSent { succeeded: 2 }));
    assert_eq!(connects, 1);
}

#[test]
fn unparsable_recipient_is_recorded_without_a_send() {
    let mut connects: usize = 0;
    let mut sends: usize = 0;
    let r = dispatch_with(
        &good_config(),
        "not a valid address line\nok@x.com",
        "Subj",
        "<p>hi</p>",
        &mut connects,
        |_| {
            sends += 1;
            Ok(())
        },
    );
    assert_eq!(sends, 1);
    match r {
        Ok(DispatchOutcome::Partial { succeeded, failed }) => {
            assert_eq!(succeeded, 1);
            assert_eq!(failed.len(), 1);
            assert_eq!(failed[0].recipient, "not a valid address line");
            assert!(!failed[0].message.is_empty());
        }
        other => panic!("expected a partial success, got {:?}", other),
    }
}

#[test]
fn navigator_starts_home_and_follows_intents() {
    let mut nav = Navigator::new();
    assert_eq!(nav.active, Views::HomeView);
    nav.navigate(Views::SettingsView);
    assert_eq!(nav.active, Views::SettingsView);
    nav.navigate(Views::HomeView);
    assert_eq!(nav.active, Views::HomeView);
}
