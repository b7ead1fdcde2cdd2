use vstd::prelude::*;

use crate::config::{is_valid, spec_validate, ConfigModel, MailConfig, ValidationError};
use crate::mailbox::{
    check_mailbox, check_sender_mailbox, mailbox_ok, mailbox_parse_error, sender_string,
};
use crate::text::{is_blank, normalize_lines, normalize_recipients, str_is_blank};

verus! {

/// One recipient that could not be served, and why.
#[derive(Clone, Debug, PartialEq, Eq)]
pub struct Failure {
    pub recipient: String,
    pub message: String,
}

impl View for Failure {
    type V = (Seq<char>, Seq<char>);

    open spec fn view(&self) -> (Seq<char>, Seq<char>) {
        (self.recipient@, self.message@)
    }
}

impl DeepView for Failure {
    type V = (Seq<char>, Seq<char>);

    open spec fn deep_view(&self) -> (Seq<char>, Seq<char>) {
        self@
    }
}

/// The aggregated result of a batch whose sends were all attempted.
#[derive(Clone, Debug, PartialEq, Eq)]
pub enum DispatchOutcome {
    /// Every recipient was served.
    AllSent { succeeded: usize },
    /// Some were served and some were not; the failures keep send order.
    Partial { succeeded: usize, failed: Vec<Failure> },
}

/// Why a dispatch failed, either before any send or because no send worked.
#[derive(Clone, Debug, PartialEq, Eq)]
pub enum DispatchError {
    /// No HTML body was supplied.
    NoContent,
    /// The recipient text is empty or all whitespace.
    NoRecipients,
    /// The subject is empty or all whitespace.
    NoSubject,
    /// The configuration breaks a validation rule.
    InvalidConfig(ValidationError),
    /// Normalizing the recipient text left no address.
    NoValidRecipients,
    /// The sender line does not parse as a mailbox.
    InvalidSenderAddress(String),
    /// The transport session could not be established (raised by the caller
    /// that opens the session; nothing was sent).
    TransportUnavailable(String),
    /// Every recipient failed; one entry per recipient, in send order.
    AllRecipientsFailed(Vec<Failure>),
}

/// All the checks that must pass before any session is opened.
pub open spec fn plan_checks_pass(
    c: ConfigModel,
    raw: Seq<char>,
    subject: Seq<char>,
    html: Seq<char>,
) -> bool {
    &&& html.len() > 0
    &&& !is_blank(raw)
    &&& !is_blank(subject)
    &&& is_valid(c)
    &&& normalize_lines(raw).len() > 0
    &&& mailbox_ok(sender_string(c.sender_name, c.email_address))
}

/// The checks of a dispatch that precede any network work, in their fixed
/// order, and the normalized recipient list when they all pass. No session is
/// opened here; the caller opens one only after an `Ok`. The
/// `NoValidRecipients` outcome is kept for the taxonomy, though a text that
/// passes the blank check always normalizes to at least one line
/// (`text::lemma_nonblank_normalize_nonempty`).
pub fn plan(
    config: &MailConfig,
    recipients_raw: &str,
    subject: &str,
    html_body: &str,
) -> (r: Result<Vec<String>, DispatchError>)
    ensures
        r is Ok <==> plan_checks_pass(config@, recipients_raw@, subject@, html_body@),
        r matches Ok(v) ==> v.deep_view() == normalize_lines(recipients_raw@),
        r matches Err(e) ==> match e {
            DispatchError::NoContent => html_body@.len() == 0,
            DispatchError::NoRecipients => html_body@.len() > 0 && is_blank(recipients_raw@),
            DispatchError::NoSubject => html_body@.len() > 0 && !is_blank(recipients_raw@)
                && is_blank(subject@),
            DispatchError::InvalidConfig(ve) => html_body@.len() > 0 && !is_blank(recipients_raw@)
                && !is_blank(subject@) && spec_validate(config@) == Some(ve),
            DispatchError::NoValidRecipients => html_body@.len() > 0 && !is_blank(recipients_raw@)
                && !is_blank(subject@) && is_valid(config@) && normalize_lines(
                recipients_raw@,
            ).len() == 0,
            DispatchError::InvalidSenderAddress(m) => html_body@.len() > 0 && !is_blank(
                recipients_raw@,
            ) && !is_blank(subject@) && is_valid(config@) && normalize_lines(recipients_raw@).len()
                > 0 && mailbox_parse_error(
                sender_string(config@.sender_name, config@.email_address),
            ) == Some(m@),
            _ => false,
        },
{
    if html_body.is_empty() {
        return Err(DispatchError::NoContent);
    }
    if str_is_blank(recipients_raw) {
        return Err(DispatchError::NoRecipients);
    }
    if str_is_blank(subject) {
        return Err(DispatchError::NoSubject);
    }
    match config.validate() {
        Err(ve) => {
            return Err(DispatchError::InvalidConfig(ve));
        },
        Ok(()) => {},
    }
    let recipients = normalize_recipients(recipients_raw);
    if recipients.len() == 0 {
        proof {
            assert(recipients.deep_view().len() == recipients@.len());
        }
        return Err(DispatchError::NoValidRecipients);
    }
    proof {
        assert(recipients.deep_view().len() == recipients@.len());
    }
    match check_sender_mailbox(config.sender_name.as_str(), config.email_address.as_str()) {
        Some(m) => Err(DispatchError::InvalidSenderAddress(m)),
        None => Ok(recipients),
    }
}

/// The per-recipient loop of one dispatch, as a state machine. The caller
/// asks for the next sendable recipient, performs the one send over its open
/// session, reports how it went, and finally aggregates. Recipients whose
/// address does not parse are recorded as failures here and never handed out.
pub struct BatchRun {
    recipients: Vec<String>,
    next: usize,
    awaiting: bool,
    succeeded: usize,
    failed: Vec<Failure>,
}

impl BatchRun {
    /// The recipients of this run, in order.
    pub closed spec fn recipients_view(self) -> Seq<Seq<char>> {
        self.recipients.deep_view()
    }

    /// How many recipients have been fully dealt with.
    pub closed spec fn resolved(self) -> int {
        self.next as int
    }

    /// Whether the caller owes a report for a handed-out recipient.
    pub closed spec fn pending(self) -> bool {
        self.awaiting
    }

    /// The recipient currently handed out (meaningful while `pending`): always
    /// the first recipient not yet dealt with, so sends are attempted in list
    /// order and a recorded failure names the recipient it belongs to.
    pub open spec fn current(self) -> Seq<char> {
        self.recipients_view()[self.resolved()]
    }

    /// How many sends succeeded so far.
    pub closed spec fn sent_count(self) -> int {
        self.succeeded as int
    }

    /// The failures recorded so far: (recipient, message), in order.
    pub closed spec fn failures_view(self) -> Seq<(Seq<char>, Seq<char>)> {
        self.failed.deep_view()
    }

    /// Every recipient dealt with went to exactly one of the two tallies, and
    /// while nothing has succeeded the failures name the dealt-with
    /// recipients one for one, in order.
    pub closed spec fn wf(self) -> bool {
        &&& self.next <= self.recipients.deep_view().len()
        &&& self.awaiting ==> self.next < self.recipients.deep_view().len()
        &&& self.succeeded + self.failed.deep_view().len() == self.next
        &&& self.succeeded == 0 ==> forall|i: int|
            0 <= i < self.failed.deep_view().len() ==> (#[trigger] self.failed.deep_view()[i]).0
                == self.recipients.deep_view()[i]
    }

    /// Whether every recipient has been dealt with.
    pub open spec fn complete(self) -> bool {
        !self.pending() && self.resolved() == self.recipients_view().len()
    }

    /// Starts a run over a normalized, non-empty recipient list.
    pub fn new(recipients: Vec<String>) -> (r: BatchRun)
        requires
            recipients@.len() > 0,
        ensures
            r.wf(),
            !r.pending(),
            r.recipients_view() == recipients.deep_view(),
            r.resolved() == 0,
            r.sent_count() == 0,
            r.failures_view() == Seq::<(Seq<char>, Seq<char>)>::empty(),
    {
        let r = BatchRun {
            recipients,
            next: 0,
            awaiting: false,
            succeeded: 0,
            failed: Vec::new(),
        };
        proof {
            assert(r.failed.deep_view() =~= Seq::<(Seq<char>, Seq<char>)>::empty());
        }
        r
    }

    /// Hands out the next recipient whose address parses as a mailbox,
    /// recording the ones it skips as failures with the parser's message.
    /// `None` means every remaining recipient failed to parse and the run is
    /// complete.
    #[verifier::loop_isolation(false)]
    pub fn next_to_send(&mut self) -> (r: Option<String>)
        requires
            old(self).wf(),
            !old(self).pending(),
        ensures
            final(self).wf(),
            final(self).recipients_view() == old(self).recipients_view(),
            final(self).sent_count() == old(self).sent_count(),
            old(self).resolved() <= final(self).resolved(),
            final(self).failures_view() == old(self).failures_view() + Seq::new(
                (final(self).resolved() - old(self).resolved()) as nat,
                |t: int|
                    (
                        old(self).recipients_view()[old(self).resolved() + t],
                        mailbox_parse_error(
                            old(self).recipients_view()[old(self).resolved() + t],
                        )->Some_0,
                    ),
            ),
            forall|k: int|
                old(self).resolved() <= k < final(self).resolved() ==> !mailbox_ok(
                    #[trigger] old(self).recipients_view()[k],
                ),
            match r {
                Some(rec) => final(self).pending() && final(self).resolved() < final(self).recipients_view().len()
                    && mailbox_ok(final(self).current()) && rec@ == final(self).current(),
                None => !final(self).pending() && final(self).complete(),
            },
    {
        proof {
            assert(self.recipients.deep_view().len() == self.recipients@.len());
        }
        let ghost i0 = self.next as int;
        let ghost rv = self.recipients.deep_view();
        let ghost f0 = self.failed.deep_view();
        while self.next < self.recipients.len()
            invariant
                self.wf(),
                !self.awaiting,
                i0 <= self.next as int,
                self.recipients.deep_view() == rv,
                self.succeeded == old(self).succeeded,
                self.recipients@.len() == rv.len(),
                forall|k: int| i0 <= k < self.next as int ==> !mailbox_ok(#[trigger] rv[k]),
                self.failed.deep_view() == f0 + Seq::new(
                    (self.next as int - i0) as nat,
                    |t: int| (rv[i0 + t], mailbox_parse_error(rv[i0 + t])->Some_0),
                ),
            decreases rv.len() - self.next,
        {
            proof {
                assert(self.recipients.deep_view()[self.next as int] == self.recipients@[self.next as int]@);
            }
            match check_mailbox(self.recipients[self.next].as_str()) {
                None => {
                    self.awaiting = true;
                    return Some(self.recipients[self.next].clone());
                },
                Some(m) => {
                    let rec = self.recipients[self.next].clone();
                    let ghost fprev = self.failed.deep_view();
                    self.failed.push(Failure { recipient: rec, message: m });
                    self.next += 1;
                    proof {
                        assert(self.failed.deep_view() =~= fprev.push(
                            (rv[self.next as int - 1], mailbox_parse_error(
                                rv[self.next as int - 1],
                            )->Some_0),
                        ));
                        assert(self.failed.deep_view() =~= f0 + Seq::new(
                            (self.next as int - i0) as nat,
                            |t: int| (rv[i0 + t], mailbox_parse_error(rv[i0 + t])->Some_0),
                        ));
                    }
                },
            }
        }
        None
    }

    /// Records that the send for the handed-out recipient succeeded.
    pub fn record_sent(&mut self)
        requires
            old(self).wf(),
            old(self).pending(),
        ensures
            final(self).wf(),
            !final(self).pending(),
            final(self).recipients_view() == old(self).recipients_view(),
            final(self).resolved() == old(self).resolved() + 1,
            final(self).sent_count() == old(self).sent_count() + 1,
            final(self).failures_view() == old(self).failures_view(),
    {
        let n: usize = self.recipients.len();
        proof {
            assert(self.recipients.deep_view().len() == self.recipients@.len());
            assert(self.next < n);
            assert(self.succeeded < n);
        }
        self.awaiting = false;
        self.succeeded += 1;
        self.next += 1;
    }

    /// Records that the send for the handed-out recipient failed, keeping the
    /// transport's message verbatim.
    pub fn record_send_failure(&mut self, message: String)
        requires
            old(self).wf(),
            old(self).pending(),
        ensures
            final(self).wf(),
            !final(self).pending(),
            final(self).recipients_view() == old(self).recipients_view(),
            final(self).resolved() == old(self).resolved() + 1,
            final(self).sent_count() == old(self).sent_count(),
            final(self).failures_view() == old(self).failures_view().push(
                (old(self).current(), message@),
            ),
    {
        let n: usize = self.recipients.len();
        proof {
            assert(self.recipients.deep_view().len() == self.recipients@.len());
            assert(self.next < n);
        }
        let ghost fprev = self.failed.deep_view();
        let rec = self.recipients[self.next].clone();
        proof {
            assert(self.recipients.deep_view()[self.next as int] == self.recipients@[self.next as int]@);
        }
        self.failed.push(Failure { recipient: rec, message });
        self.awaiting = false;
        self.next += 1;
        proof {
            assert(self.failed.deep_view() =~= fprev.push((old(self).current(), message@)));
        }
    }

    /// Classifies a completed run: no failures is a full success, a mix is a
    /// partial success, and no success at all is the one hard failure.
    pub fn finish(self) -> (r: Result<DispatchOutcome, DispatchError>)
        requires
            self.wf(),
            self.complete(),
            self.recipients_view().len() > 0,
        ensures
            match r {
                Ok(DispatchOutcome::AllSent { succeeded }) => self.failures_view().len() == 0
                    && succeeded as int == self.sent_count(),
                Ok(DispatchOutcome::Partial { succeeded, failed }) => self.failures_view().len()
                    > 0 && self.sent_count() > 0 && succeeded as int == self.sent_count()
                    && failed.deep_view() == self.failures_view(),
                Err(DispatchError::AllRecipientsFailed(failed)) => self.sent_count() == 0
                    && self.failures_view().len() > 0 && failed.deep_view() == self.failures_view(),
                _ => false,
            },
    {
        if self.failed.len() == 0 {
            Ok(DispatchOutcome::AllSent { succeeded: self.succeeded })
        } else if self.succeeded > 0 {
            Ok(DispatchOutcome::Partial { succeeded: self.succeeded, failed: self.failed })
        } else {
            Err(DispatchError::AllRecipientsFailed(self.failed))
        }
    }
}

/// A completed run that served nobody lists every recipient among its
/// failures, one entry each, in the original order.
pub proof fn lemma_all_failed_lists_every_recipient(r: BatchRun)
    requires
        r.wf(),
        r.complete(),
        r.sent_count() == 0,
    ensures
        r.failures_view().len() == r.recipients_view().len(),
        forall|i: int|
            0 <= i < r.failures_view().len() ==> (#[trigger] r.failures_view()[i]).0
                == r.recipients_view()[i],
{
}

} // verus!
