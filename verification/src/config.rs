use vstd::prelude::*;

use crate::text;

verus! {

/// The persisted SMTP settings record.
#[derive(Clone, Debug, PartialEq, Eq)]
pub struct MailConfig {
    /// Relay hostname; required non-empty.
    pub smtp_server: String,
    /// Relay TCP port; defaults to 587 and must be non-zero.
    pub smtp_port: u16,
    /// Account used for authentication and as the From address; must hold `@`.
    pub email_address: String,
    /// Authentication secret; required non-empty.
    pub password: String,
    /// Display name prefixed to the From address; may be empty.
    pub sender_name: String,
}

/// Mathematical model of a `MailConfig`: each field as plain values.
#[verifier::ext_equal]
pub struct ConfigModel {
    pub smtp_server: Seq<char>,
    pub smtp_port: u16,
    pub email_address: Seq<char>,
    pub password: Seq<char>,
    pub sender_name: Seq<char>,
}

impl View for MailConfig {
    type V = ConfigModel;

    open spec fn view(&self) -> ConfigModel {
        ConfigModel {
            smtp_server: self.smtp_server@,
            smtp_port: self.smtp_port,
            email_address: self.email_address@,
            password: self.password@,
            sender_name: self.sender_name@,
        }
    }
}

/// The model of a first-run configuration: all strings empty, port 587.
pub open spec fn default_model() -> ConfigModel {
    ConfigModel {
        smtp_server: Seq::<char>::empty(),
        smtp_port: 587,
        email_address: Seq::<char>::empty(),
        password: Seq::<char>::empty(),
        sender_name: Seq::<char>::empty(),
    }
}

impl Default for MailConfig {
    /// Field-wise defaults used when no configuration file exists yet.
    fn default() -> (r: MailConfig)
        ensures
            r@ == default_model(),
    {
        MailConfig {
            smtp_server: String::new(),
            smtp_port: 587,
            email_address: String::new(),
            password: String::new(),
            sender_name: String::new(),
        }
    }
}

/// The first rule a configuration breaks, in the fixed checking order.
#[derive(Clone, Copy, Debug, PartialEq, Eq, Structural)]
pub enum ValidationError {
    EmptyServer,
    ZeroPort,
    EmptyAddress,
    AddressMissingAt,
    EmptyPassword,
}

/// Errors of loading and saving the configuration record.
#[derive(Clone, Debug, PartialEq, Eq)]
pub enum ConfigError {
    /// The file exists but could not be read (raised by the caller doing I/O).
    ReadFailed(String),
    /// The file's content is not a well-formed configuration record.
    ParseFailed,
    /// The file could not be written (raised by the caller doing I/O).
    WriteFailed(String),
    /// The record could not be encoded; the encoder never fails, so this is
    /// kept only to name the outcome for callers.
    SerializeFailed,
    /// The record breaks a validation rule.
    ValidationFailed(ValidationError),
}

/// The first failing validation rule, in the fixed order: server empty, port
/// zero, address empty, address missing `@`, password empty.
pub open spec fn spec_validate(c: ConfigModel) -> Option<ValidationError> {
    if c.smtp_server.len() == 0 {
        Some(ValidationError::EmptyServer)
    } else if c.smtp_port == 0 {
        Some(ValidationError::ZeroPort)
    } else if c.email_address.len() == 0 {
        Some(ValidationError::EmptyAddress)
    } else if !c.email_address.contains('@') {
        Some(ValidationError::AddressMissingAt)
    } else if c.password.len() == 0 {
        Some(ValidationError::EmptyPassword)
    } else {
        None
    }
}

/// A configuration is usable exactly when it breaks no validation rule.
pub open spec fn is_valid(c: ConfigModel) -> bool {
    spec_validate(c) is None
}

impl MailConfig {
    /// Checks the record against the validation rules and returns the first
    /// violation, in the fixed order of `spec_validate`.
    pub fn validate(&self) -> (r: Result<(), ValidationError>)
        ensures
            r == match spec_validate(self@) {
                Some(e) => Result::<(), ValidationError>::Err(e),
                None => Result::<(), ValidationError>::Ok(()),
            },
    {
        if self.smtp_server.as_str().is_empty() {
            Err(ValidationError::EmptyServer)
        } else if self.smtp_port == 0 {
            Err(ValidationError::ZeroPort)
        } else if self.email_address.as_str().is_empty() {
            Err(ValidationError::EmptyAddress)
        } else if !text::contains_char(self.email_address.as_str(), '@') {
            Err(ValidationError::AddressMissingAt)
        } else if self.password.as_str().is_empty() {
            Err(ValidationError::EmptyPassword)
        } else {
            Ok(())
        }
    }
}

} // verus!
