use vstd::prelude::*;

verus! {

/// What the mailbox parser answers for a given string: `None` when the string
/// parses as a mailbox, the text of the parse error otherwise. The answer
/// depends on the string alone.
pub uninterp spec fn mailbox_parse_error(s: Seq<char>) -> Option<Seq<char>>;

/// A string that parses as a mailbox address.
pub open spec fn mailbox_ok(s: Seq<char>) -> bool {
    mailbox_parse_error(s) is None
}

/// The sender line built from a display name and an address.
pub open spec fn sender_string(name: Seq<char>, addr: Seq<char>) -> Seq<char> {
    name + " <"@ + addr + ">"@
}

/// Relies on `lettre::message::Mailbox`'s `FromStr` impl: it is a parser of
/// the input string alone, so whether it accepts, and which error it reports,
/// are functions of the string.
#[verifier::external_body]
pub(crate) fn check_mailbox(s: &str) -> (r: Option<String>)
    ensures
        r is Some <==> mailbox_parse_error(s@) is Some,
        r matches Some(m) ==> mailbox_parse_error(s@) == Some(m@),
{
    match s.parse::<lettre::message::Mailbox>() {
        Ok(_) => None,
        Err(e) => Some(e.to_string()),
    }
}

/// Relies on `format!` ("{} <{}>" concatenates its arguments around the
/// brackets) and on `lettre::message::Mailbox`'s `FromStr` impl, as above.
#[verifier::external_body]
pub(crate) fn check_sender_mailbox(name: &str, addr: &str) -> (r: Option<String>)
    ensures
        r is Some <==> mailbox_parse_error(sender_string(name@, addr@)) is Some,
        r matches Some(m) ==> mailbox_parse_error(sender_string(name@, addr@)) == Some(m@),
{
    let full = format!("{} <{}>", name, addr);
    match full.parse::<lettre::message::Mailbox>() {
        Ok(_) => None,
        Err(e) => Some(e.to_string()),
    }
}

} // verus!
