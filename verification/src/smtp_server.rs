//! The SMTP dialogue as a state machine.
//!
//! The caller owns the connection: it reads a line, hands it to
//! [`Session::step`] and sends what comes back. Everything that the
//! dialogue decides stands here: how a command line is split, what a path
//! names, what each command does to the transaction, how a message body is
//! gathered, and what is delivered to the store.

use crate::address::{normalize_mailbox, normalize_mailbox_spec, parse_email, parse_email_spec};
use crate::config::Config;
use crate::mail_parser::{
    clone_headers, clone_opt, parse_at, parse_spec, parsed_view, ParsedMessage, ParsedMessageView,
};
use crate::message::{Message, MessageView};
use crate::store::{Store, StoreModel};
use crate::text::is_blank;
use crate::time::{current_time, Timestamp};
use crate::text::{
    append, append_str, canonical, chars_of, decimal, decimal_of, find, find_char, has_prefix,
    lemma_word_len_is, lowercase, slice, starts_with, strip_leading, strip_start,
    strip_trailing, text_of, to_lowercase, to_uppercase, trim, trimmed, uppercase, views,
    word_len, CharClass,
};
use vstd::prelude::*;
use vstd::string::StringSliceAdditionalSpecFns;

verus! {

/// How the argument of `MAIL` starts.
pub const MAIL_PREFIX: &'static str = "FROM:";

/// How the argument of `RCPT` starts.
pub const RCPT_PREFIX: &'static str = "TO:";

/// The message for an argument that holds no path.
pub const INVALID_PATH: &'static str = "invalid smtp path";

/// The message for a sender that is no address.
pub const INVALID_SENDER: &'static str = "invalid sender address";

/// The message for a sender of a banned domain.
pub const SENDER_BLOCKED: &'static str = "sender domain is blocked";

/// The message for a recipient on the blacklist.
pub const MAILBOX_BLOCKED: &'static str = "mailbox is blocked";

/// The name that the server announces where no domain is configured.
pub const LOCALHOST: &'static str = "localhost";

/// Whom a message is for: the mailbox and the address it is rendered as.
#[derive(Debug)]
pub struct Recipient {
    pub mailbox: String,
    pub address: String,
}

/// The mail transaction of a session: the envelope sender and the
/// recipients named so far.
#[derive(Debug)]
pub struct Transaction {
    pub from: String,
    pub recipients: Vec<Recipient>,
}

/// What a [`Recipient`] holds, as mathematics.
pub struct RecipientView {
    pub mailbox: Seq<char>,
    pub address: Seq<char>,
}

/// What a [`Transaction`] holds, as mathematics.
pub struct TransactionView {
    pub from: Seq<char>,
    pub recipients: Seq<RecipientView>,
}

impl View for Recipient {
    type V = RecipientView;

    open spec fn view(&self) -> RecipientView {
        RecipientView { mailbox: self.mailbox@, address: self.address@ }
    }
}

/// The views of a vector of recipients, in order.
pub open spec fn recipient_views(v: Seq<Recipient>) -> Seq<RecipientView> {
    Seq::new(v.len(), |i: int| v[i]@)
}

impl View for Transaction {
    type V = TransactionView;

    open spec fn view(&self) -> TransactionView {
        TransactionView { from: self.from@, recipients: recipient_views(self.recipients@) }
    }
}

impl Clone for Recipient {
    fn clone(&self) -> (r: Self)
        ensures
            r@ == self@,
    {
        Recipient { mailbox: self.mailbox.clone(), address: self.address.clone() }
    }
}

impl Default for Transaction {
    fn default() -> (tx: Self)
        ensures
            tx@ == empty_transaction(),
    {
        Transaction::new()
    }
}

/// A transaction without sender and recipients.
pub open spec fn empty_transaction() -> TransactionView {
    TransactionView { from: Seq::empty(), recipients: Seq::empty() }
}

impl Transaction {
    /// A transaction without sender and recipients.
    pub fn new() -> (tx: Transaction)
        ensures
            tx@ == empty_transaction(),
    {
        let tx = Transaction { from: String::new(), recipients: Vec::new() };
        assert(tx@.recipients =~= Seq::<RecipientView>::empty());
        tx
    }

    /// Forgets the sender and the recipients.
    pub fn reset(&mut self)
        ensures
            final(self)@ == empty_transaction(),
    {
        self.from = String::new();
        self.recipients = Vec::new();
        assert(self@.recipients =~= Seq::<RecipientView>::empty());
    }
}

/// The verb of a command line: what stands before its first space, trimmed,
/// in upper case.
pub open spec fn command_verb(input: Seq<char>) -> Seq<char> {
    uppercase(trimmed(input.take(find(input, ' '))))
}

/// The argument of a command line: what stands after its first space,
/// trimmed; nothing without a space.
pub open spec fn command_arg(input: Seq<char>) -> Seq<char> {
    let k: int = find(input, ' ');
    if 0 <= k < input.len() {
        trimmed(input.skip(k + 1))
    } else {
        Seq::empty()
    }
}

/// Splits a command line into its verb and its argument.
pub fn split_command(input: &str) -> (r: (String, String))
    ensures
        r.0@ == command_verb(input@),
        r.1@ == command_arg(input@),
{
    let v = chars_of(input);
    let k = find_char(&v, ' ');
    let verb = to_uppercase(&trim(&slice(&v, 0, k)));
    let arg = if k < v.len() {
        trim(&slice(&v, k + 1, v.len()))
    } else {
        Vec::new()
    };
    (text_of(&verb), text_of(&arg))
}

/// The first run of non-whitespace characters of `s`.
pub open spec fn first_word(s: Seq<char>) -> Seq<char> {
    let t: Seq<char> = strip_leading(s, CharClass::Whitespace);
    t.take(word_len(t))
}

/// The address of an SMTP path, or why the argument holds none.
///
/// The argument starts with the prefix, in any case. What follows, trimmed
/// and not empty, is either `<` and the address up to the first `>`, or,
/// without a `<`, an address that ends at the first whitespace.
pub open spec fn smtp_address(arg: Seq<char>, prefix: Seq<char>) -> Result<Seq<char>, Seq<char>> {
    let raw: Seq<char> = trimmed(arg.skip(prefix.len() as int));
    if !starts_with(uppercase(arg), prefix) || raw.len() == 0 {
        Err(INVALID_PATH@)
    } else if raw[0] == '<' {
        let rest: Seq<char> = raw.drop_first();
        let close: int = find(rest, '>');
        if 0 <= close < rest.len() {
            Ok(trimmed(rest.take(close)))
        } else {
            Err(INVALID_PATH@)
        }
    } else {
        Ok(first_word(raw))
    }
}

/// The view of a result that holds strings.
pub open spec fn text_result_view(r: Result<String, String>) -> Result<Seq<char>, Seq<char>> {
    match r {
        Ok(s) => Ok(s@),
        Err(e) => Err(e@),
    }
}

/// Reads the address of an SMTP path such as `FROM:<a@x.test>`.
pub fn extract_smtp_address(arg: &str, prefix: &str) -> (r: Result<String, String>)
    ensures
        text_result_view(r) == smtp_address(arg@, prefix@),
{
    let v = chars_of(arg);
    let p = chars_of(prefix);
    let upper = to_uppercase(&v);
    if !has_prefix(&upper, &p) {
        return Err(INVALID_PATH.to_string());
    }
    let raw = trim(&slice(&v, p.len(), v.len()));
    if raw.len() == 0 {
        return Err(INVALID_PATH.to_string());
    }
    if raw[0] == '<' {
        let rest = slice(&raw, 1, raw.len());
        let close = find_char(&rest, '>');
        if close == rest.len() {
            return Err(INVALID_PATH.to_string());
        }
        Ok(text_of(&trim(&slice(&rest, 0, close))))
    } else {
        let t = strip_start(&raw, CharClass::Whitespace);
        let mut k: usize = 0;
        while k < t.len() && !crate::text::is_whitespace(t[k])
            invariant
                k <= t.len(),
                forall|i: int| 0 <= i < k ==> !crate::text::is_space(#[trigger] t@[i]),
            decreases t.len() - k,
        {
            k += 1;
        }
        proof {
            lemma_word_len_is(t@, k as int);
        }
        Ok(text_of(&slice(&t, 0, k)))
    }
}

/// What a command answered: nothing to report, or a reply code and its text.
pub type Verdict = Result<(), (u16, Seq<char>)>;

/// The view of what a command answered.
pub open spec fn verdict_view(r: Result<(), (u16, String)>) -> Verdict {
    match r {
        Ok(()) => Ok(()),
        Err((code, text)) => Err((code, text@)),
    }
}

/// What `MAIL` does to a transaction, and what it answers.
///
/// A command that is refused leaves the transaction as it was: one whose
/// path cannot be read, whose address does not parse, or whose domain is
/// banned. One that is accepted forgets the recipients; the empty path
/// forgets the sender too, any other address becomes the sender, in lower
/// case.
pub open spec fn mail_from_step(cfg: Config, tx: TransactionView, arg: Seq<char>) -> (
    TransactionView,
    Verdict,
) {
    match smtp_address(arg, MAIL_PREFIX@) {
        Err(e) => (tx, Err((550u16, e))),
        Ok(from) => {
            if from.len() == 0 {
                (empty_transaction(), Ok(()))
            } else {
                match parse_email_spec(from) {
                    Err(_) => (tx, Err((550u16, INVALID_SENDER@))),
                    Ok((_, domain)) => {
                        if views(cfg.banned_sender_domains@).contains(canonical(domain)) {
                            (tx, Err((530u16, SENDER_BLOCKED@)))
                        } else {
                            (
                                TransactionView { from: lowercase(from), recipients: Seq::empty() },
                                Ok(()),
                            )
                        }
                    },
                }
            }
        },
    }
}

/// What `RCPT` does to a transaction, and what it answers.
///
/// The path must name a mailbox of the configured domain that is not on the
/// blacklist; it then joins the recipients. Anything else is refused and
/// leaves the transaction alone.
pub open spec fn rcpt_to_step(cfg: Config, tx: TransactionView, arg: Seq<char>) -> (
    TransactionView,
    Verdict,
) {
    match smtp_address(arg, RCPT_PREFIX@) {
        Err(e) => (tx, Err((550u16, e))),
        Ok(to) => match normalize_mailbox_spec(to, cfg.domain@) {
            Err(e) => (tx, Err((550u16, e))),
            Ok((mailbox, address)) => {
                if views(cfg.mailbox_blacklist@).contains(canonical(mailbox)) {
                    (tx, Err((550u16, MAILBOX_BLOCKED@)))
                } else {
                    (
                        TransactionView {
                            recipients: tx.recipients.push(RecipientView { mailbox, address }),
                            ..tx
                        },
                        Ok(()),
                    )
                }
            },
        },
    }
}

/// A command that is refused leaves the transaction as it was; an accepted
/// `MAIL` leaves no recipient, and an accepted `RCPT` adds one at the end.
pub proof fn lemma_refusal_changes_nothing(cfg: Config, tx: TransactionView, arg: Seq<char>)
    ensures
        mail_from_step(cfg, tx, arg).1 is Err ==> mail_from_step(cfg, tx, arg).0 == tx,
        mail_from_step(cfg, tx, arg).1 is Ok ==> mail_from_step(cfg, tx, arg).0.recipients.len()
            == 0,
        rcpt_to_step(cfg, tx, arg).1 is Err ==> rcpt_to_step(cfg, tx, arg).0 == tx,
        rcpt_to_step(cfg, tx, arg).1 is Ok ==> rcpt_to_step(cfg, tx, arg).0.from == tx.from
            && rcpt_to_step(cfg, tx, arg).0.recipients.drop_last() == tx.recipients,
{
    if rcpt_to_step(cfg, tx, arg).1 is Ok {
        assert(rcpt_to_step(cfg, tx, arg).0.recipients.drop_last() =~= tx.recipients);
    }
}

/// Handles the argument of a `MAIL` command.
pub fn handle_mail_from(cfg: &Config, tx: &mut Transaction, arg: &str) -> (r: Result<
    (),
    (u16, String),
>)
    ensures
        (final(tx)@, verdict_view(r)) == mail_from_step(*cfg, old(tx)@, arg@),
{
    let from = match extract_smtp_address(arg, MAIL_PREFIX) {
        Ok(from) => from,
        Err(msg) => {
            return Err((550, msg));
        },
    };
    if from.as_str().is_empty() {
        tx.reset();
        return Ok(());
    }
    let domain = match parse_email(from.as_str()) {
        Ok((_, domain)) => domain,
        Err(_) => {
            return Err((550, INVALID_SENDER.to_string()));
        },
    };
    if cfg.is_sender_domain_blocked(domain.as_str()) {
        return Err((530, SENDER_BLOCKED.to_string()));
    }
    tx.recipients = Vec::new();
    assert(tx@.recipients =~= Seq::<RecipientView>::empty());
    tx.from = text_of(&to_lowercase(&chars_of(from.as_str())));
    Ok(())
}

/// Handles the argument of a `RCPT` command.
pub fn handle_rcpt_to(cfg: &Config, tx: &mut Transaction, arg: &str) -> (r: Result<
    (),
    (u16, String),
>)
    ensures
        (final(tx)@, verdict_view(r)) == rcpt_to_step(*cfg, old(tx)@, arg@),
{
    let to = match extract_smtp_address(arg, RCPT_PREFIX) {
        Ok(to) => to,
        Err(msg) => {
            return Err((550, msg));
        },
    };
    let (mailbox, address) = match normalize_mailbox(to.as_str(), cfg.domain.as_str()) {
        Ok(pair) => pair,
        Err(msg) => {
            return Err((550, msg));
        },
    };
    if cfg.is_mailbox_blacklisted(mailbox.as_str()) {
        return Err((550, MAILBOX_BLOCKED.to_string()));
    }
    let ghost before = recipient_views(tx.recipients@);
    let recipient = Recipient { mailbox, address };
    tx.recipients.push(recipient);
    assert(recipient_views(tx.recipients@) =~= before.push(recipient@));
    Ok(())
}

/// The verb of the extended greeting.
pub const EHLO: &'static str = "EHLO";

/// The verb of the greeting.
pub const HELO: &'static str = "HELO";

/// The verb that names the sender.
pub const MAIL: &'static str = "MAIL";

/// The verb that names a recipient.
pub const RCPT: &'static str = "RCPT";

/// The verb that starts the message body.
pub const DATA: &'static str = "DATA";

/// The verb that empties the transaction.
pub const RSET: &'static str = "RSET";

/// The verb that asks for nothing.
pub const NOOP: &'static str = "NOOP";

/// The verb that ends the session.
pub const QUIT: &'static str = "QUIT";

/// What ends every line of a reply.
pub const LINE_END: &'static str = "\r\n";

/// How the greeting starts.
pub const GREETING_CODE: &'static str = "220 ";

/// How the greeting ends.
pub const GREETING_TAIL: &'static str = " ESMTP ready\r\n";

/// How the answer to `EHLO` starts.
pub const EHLO_FIRST: &'static str = "250-";

/// What announces the largest message size in the answer to `EHLO`.
pub const EHLO_SIZE: &'static str = "\r\n250-SIZE ";

/// How the answer to `EHLO` ends.
pub const EHLO_LAST: &'static str = "\r\n250 8BITMIME\r\n";

/// How the answer to `HELO` starts.
pub const HELO_CODE: &'static str = "250 ";

/// The reply to a command that was carried out.
pub const OK_REPLY: &'static str = "250 OK\r\n";

/// The reply to `QUIT`.
pub const BYE_REPLY: &'static str = "221 Bye\r\n";

/// The reply to `DATA` without a recipient.
pub const NO_RECIPIENTS_REPLY: &'static str = "554 no recipients\r\n";

/// The reply that asks for the message body.
pub const START_DATA_REPLY: &'static str = "354 End data with <CR><LF>.<CR><LF>\r\n";

/// The reply to a message that was delivered.
pub const ACCEPTED_REPLY: &'static str = "250 message accepted\r\n";

/// The reply to a message that did not parse.
pub const INVALID_CONTENT_REPLY: &'static str = "550 invalid message content\r\n";

/// The reply to an unknown verb.
pub const UNRECOGNIZED_REPLY: &'static str = "500 command not recognized\r\n";

/// The message for a body beyond the limit.
pub const TOO_LARGE: &'static str = "message too large";

/// The message for a body that the peer did not finish.
pub const ENDED_EARLY: &'static str = "message terminated unexpectedly";

/// The message for a body that could not be read.
pub const READ_FAILED: &'static str = "failed to read message";

/// What the server does after a line: what it sends, which may be nothing,
/// and whether it then closes the connection.
#[derive(Debug)]
pub struct Action {
    pub reply: String,
    pub close: bool,
}

/// What a [`Action`] holds, as mathematics.
pub struct ActionView {
    pub reply: Seq<char>,
    pub close: bool,
}

impl View for Action {
    type V = ActionView;

    open spec fn view(&self) -> ActionView {
        ActionView { reply: self.reply@, close: self.close }
    }
}

/// One side of an SMTP connection: the transaction, whether a message body
/// is being received, and the body gathered so far.
#[derive(Debug)]
pub struct Session {
    pub tx: Transaction,
    pub receiving: bool,
    pub data: Vec<u8>,
}

/// What a [`Session`] holds, as mathematics.
pub struct SessionView {
    pub tx: TransactionView,
    pub receiving: bool,
    pub data: Seq<u8>,
}

impl View for Session {
    type V = SessionView;

    open spec fn view(&self) -> SessionView {
        SessionView { tx: self.tx@, receiving: self.receiving, data: self.data@ }
    }
}

/// A session that waits for a command, with an empty transaction.
pub open spec fn idle_session() -> SessionView {
    SessionView { tx: empty_transaction(), receiving: false, data: Seq::empty() }
}

/// The name under which the server announces itself.
pub open spec fn announce_domain(cfg: Config) -> Seq<char> {
    if cfg.domain@.len() == 0 {
        LOCALHOST@
    } else {
        cfg.domain@
    }
}

/// A reply of one line: the code, a space, the text, and the line end.
pub open spec fn reply_line(code: u16, text: Seq<char>) -> Seq<char> {
    decimal(code as nat) + seq![' '] + text + LINE_END@
}

/// What the server sends when a connection opens.
pub open spec fn greeting_spec(cfg: Config) -> Seq<char> {
    GREETING_CODE@ + announce_domain(cfg) + GREETING_TAIL@
}

/// What the server answers to `EHLO`.
pub open spec fn ehlo_reply(cfg: Config) -> Seq<char> {
    EHLO_FIRST@ + announce_domain(cfg) + EHLO_SIZE@ + decimal(cfg.max_message_bytes as nat)
        + EHLO_LAST@
}

/// What the server answers to `HELO`.
pub open spec fn helo_reply(cfg: Config) -> Seq<char> {
    HELO_CODE@ + announce_domain(cfg) + LINE_END@
}

/// The reply to a command that changed the transaction or was refused.
pub open spec fn verdict_reply(v: Verdict) -> Seq<char> {
    match v {
        Ok(()) => OK_REPLY@,
        Err((code, text)) => reply_line(code, text),
    }
}

/// An action that sends `reply` and keeps the connection.
pub open spec fn say(reply: Seq<char>) -> ActionView {
    ActionView { reply, close: false }
}

/// What a line does while the session waits for a command.
///
/// The line loses its line end; an empty line is passed over in silence.
/// The verb decides the rest: `EHLO` and `HELO` announce the server, `MAIL`
/// and `RCPT` work on the transaction, `DATA` starts a message body where
/// there is a recipient, `RSET` empties the transaction, `NOOP` does
/// nothing, `QUIT` ends the session, and anything else is not recognised.
pub open spec fn command_step(cfg: Config, s: SessionView, line: Seq<char>) -> (
    SessionView,
    ActionView,
) {
    let input: Seq<char> = strip_trailing(line, CharClass::LineBreak);
    let verb: Seq<char> = command_verb(input);
    let arg: Seq<char> = command_arg(input);
    if input.len() == 0 {
        (s, say(Seq::empty()))
    } else if verb == EHLO@ {
        (s, say(ehlo_reply(cfg)))
    } else if verb == HELO@ {
        (s, say(helo_reply(cfg)))
    } else if verb == MAIL@ {
        let (tx, verdict) = mail_from_step(cfg, s.tx, arg);
        (SessionView { tx, ..s }, say(verdict_reply(verdict)))
    } else if verb == RCPT@ {
        let (tx, verdict) = rcpt_to_step(cfg, s.tx, arg);
        (SessionView { tx, ..s }, say(verdict_reply(verdict)))
    } else if verb == DATA@ {
        if s.tx.recipients.len() == 0 {
            (s, say(NO_RECIPIENTS_REPLY@))
        } else {
            (SessionView { receiving: true, data: Seq::empty(), ..s }, say(START_DATA_REPLY@))
        }
    } else if verb == RSET@ {
        (SessionView { tx: empty_transaction(), ..s }, say(OK_REPLY@))
    } else if verb == NOOP@ {
        (s, say(OK_REPLY@))
    } else if verb == QUIT@ {
        (s, ActionView { reply: BYE_REPLY@, close: true })
    } else {
        (s, say(UNRECOGNIZED_REPLY@))
    }
}

/// Whether a line ends a message body: a single dot, alone or before a line
/// end.
pub open spec fn is_terminator(line: Seq<u8>) -> bool {
    ||| line == seq![46u8, 13u8, 10u8]
    ||| line == seq![46u8, 10u8]
    ||| line == seq![46u8]
}

/// A body line as it is stored: without its first dot where it starts with
/// two.
pub open spec fn unstuffed(line: Seq<u8>) -> Seq<u8> {
    if line.len() >= 2 && line[0] == 46u8 && line[1] == 46u8 {
        line.drop_first()
    } else {
        line
    }
}

/// What a body line leads to.
pub enum DataOutcome {
    /// The line joined the body, which goes on.
    More,
    /// The body is complete.
    Complete(Seq<u8>),
    /// The body grew beyond the limit and was given up.
    TooLarge,
}

/// What a line does while a message body is received.
///
/// A terminator completes the body. Any other line joins it, unstuffed and
/// with its line end; a body that is then longer than `max_bytes` is given
/// up together with the transaction.
pub open spec fn data_step(s: SessionView, line: Seq<u8>, max_bytes: nat) -> (
    SessionView,
    DataOutcome,
) {
    if is_terminator(line) {
        (SessionView { receiving: false, data: Seq::empty(), ..s }, DataOutcome::Complete(s.data))
    } else if (s.data + unstuffed(line)).len() > max_bytes {
        (idle_session(), DataOutcome::TooLarge)
    } else {
        (SessionView { data: s.data + unstuffed(line), ..s }, DataOutcome::More)
    }
}

/// What a body line led to.
#[derive(Debug)]
pub enum DataStep {
    More,
    Complete(Vec<u8>),
    TooLarge,
}

impl View for DataStep {
    type V = DataOutcome;

    open spec fn view(&self) -> DataOutcome {
        match self {
            DataStep::More => DataOutcome::More,
            DataStep::Complete(raw) => DataOutcome::Complete(raw@),
            DataStep::TooLarge => DataOutcome::TooLarge,
        }
    }
}

fn is_word(verb: &Vec<char>, word: &str) -> (b: bool)
    ensures
        b == (verb@ == word@),
{
    crate::text::equal(verb, &chars_of(word))
}

fn announce(cfg: &Config) -> (r: Vec<char>)
    ensures
        r@ == announce_domain(*cfg),
{
    let domain = chars_of(cfg.domain.as_str());
    if domain.len() == 0 {
        chars_of(LOCALHOST)
    } else {
        domain
    }
}

/// A reply of one line.
pub fn write_reply_line(code: u16, text: &str) -> (r: String)
    ensures
        r@ == reply_line(code, text@),
{
    let mut r = decimal_of(code as usize);
    r.push(' ');
    append_str(&mut r, text);
    append_str(&mut r, LINE_END);
    text_of(&r)
}

fn verdict_text(v: Result<(), (u16, String)>) -> (r: String)
    ensures
        r@ == verdict_reply(verdict_view(v)),
{
    match v {
        Ok(()) => OK_REPLY.to_string(),
        Err((code, text)) => write_reply_line(code, text.as_str()),
    }
}

/// What the server sends when a connection opens.
pub fn greeting(cfg: &Config) -> (r: String)
    ensures
        r@ == greeting_spec(*cfg),
{
    let mut r = chars_of(GREETING_CODE);
    append(&mut r, &announce(cfg));
    append_str(&mut r, GREETING_TAIL);
    text_of(&r)
}

fn keep_open(reply: String) -> (a: Action)
    ensures
        a@ == say(reply@),
{
    Action { reply, close: false }
}

impl Session {
    /// A session that waits for a command, with an empty transaction.
    pub fn new() -> (s: Session)
        ensures
            s@ == idle_session(),
    {
        Session { tx: Transaction::new(), receiving: false, data: Vec::new() }
    }

    /// Handles one line while the session waits for a command.
    pub fn handle_command(&mut self, cfg: &Config, line: &str) -> (a: Action)
        ensures
            (final(self)@, a@) == command_step(*cfg, old(self)@, line@),
    {
        let input = crate::text::strip_end(&chars_of(line), CharClass::LineBreak);
        if input.len() == 0 {
            return keep_open(String::new());
        }
        let text = text_of(&input);
        let (verb_text, arg) = split_command(text.as_str());
        let verb = chars_of(verb_text.as_str());
        if is_word(&verb, EHLO) {
            let mut r = chars_of(EHLO_FIRST);
            append(&mut r, &announce(cfg));
            append_str(&mut r, EHLO_SIZE);
            append(&mut r, &decimal_of(cfg.max_message_bytes));
            append_str(&mut r, EHLO_LAST);
            keep_open(text_of(&r))
        } else if is_word(&verb, HELO) {
            let mut r = chars_of(HELO_CODE);
            append(&mut r, &announce(cfg));
            append_str(&mut r, LINE_END);
            keep_open(text_of(&r))
        } else if is_word(&verb, MAIL) {
            let verdict = handle_mail_from(cfg, &mut self.tx, arg.as_str());
            keep_open(verdict_text(verdict))
        } else if is_word(&verb, RCPT) {
            let verdict = handle_rcpt_to(cfg, &mut self.tx, arg.as_str());
            keep_open(verdict_text(verdict))
        } else if is_word(&verb, DATA) {
            if self.tx.recipients.len() == 0 {
                keep_open(NO_RECIPIENTS_REPLY.to_string())
            } else {
                self.receiving = true;
                self.data = Vec::new();
                keep_open(START_DATA_REPLY.to_string())
            }
        } else if is_word(&verb, RSET) {
            self.tx.reset();
            keep_open(OK_REPLY.to_string())
        } else if is_word(&verb, NOOP) {
            keep_open(OK_REPLY.to_string())
        } else if is_word(&verb, QUIT) {
            Action { reply: BYE_REPLY.to_string(), close: true }
        } else {
            keep_open(UNRECOGNIZED_REPLY.to_string())
        }
    }

    /// Handles one line of a message body, given as it was read, line end
    /// included.
    pub fn handle_data_line(&mut self, line: &str, max_message_bytes: usize) -> (step: DataStep)
        ensures
            (final(self)@, step@) == data_step(
                old(self)@,
                line.spec_bytes(),
                max_message_bytes as nat,
            ),
    {
        let bytes = line.as_bytes();
        let n = bytes.len();
        let ends = bytes.len() >= 1 && bytes[0] == 46 && (n == 1 || (n == 2 && bytes[1] == 10) || (n
            == 3 && bytes[1] == 13 && bytes[2] == 10));
        proof {
            if ends {
                if n == 1 {
                    assert(bytes@ =~= seq![46u8]);
                } else if n == 2 {
                    assert(bytes@ =~= seq![46u8, 10u8]);
                } else {
                    assert(bytes@ =~= seq![46u8, 13u8, 10u8]);
                }
            } else {
                assert(!is_terminator(bytes@)) by {
                    if is_terminator(bytes@) {
                        assert(bytes@[0] == 46u8);
                        if n == 3 {
                            assert(bytes@[1] == 13u8 && bytes@[2] == 10u8);
                        } else if n == 2 {
                            assert(bytes@[1] == 10u8);
                        }
                    }
                }
            }
        }
        if ends {
            let mut raw: Vec<u8> = Vec::new();
            core::mem::swap(&mut self.data, &mut raw);
            self.receiving = false;
            return DataStep::Complete(raw);
        }
        let start: usize = if n >= 2 && bytes[0] == 46 && bytes[1] == 46 {
            1
        } else {
            0
        };
        let ghost before = self.data@;
        let mut i: usize = start;
        assert(bytes@.subrange(start as int, start as int) =~= Seq::<u8>::empty());
        while i < n
            invariant
                start <= i <= n,
                n == bytes@.len(),
                self.tx == old(self).tx,
                self.receiving == old(self).receiving,
                self.data@ == before + bytes@.subrange(start as int, i as int),
            decreases n - i,
        {
            self.data.push(bytes[i]);
            assert(bytes@.subrange(start as int, i + 1) =~= bytes@.subrange(
                start as int,
                i as int,
            ).push(bytes@[i as int]));
            i += 1;
        }
        assert(bytes@.subrange(start as int, n as int) =~= unstuffed(bytes@));
        if self.data.len() > max_message_bytes {
            self.tx.reset();
            self.receiving = false;
            self.data = Vec::new();
            return DataStep::TooLarge;
        }
        DataStep::More
    }
}

/// Whether `c` is a digit of a lower-case hexadecimal number.
pub open spec fn is_lower_hex(c: char) -> bool {
    ('0' <= c && c <= '9') || ('a' <= c && c <= 'f')
}

/// Whether `id` has the form of a message id: 32 lower-case hexadecimal
/// digits.
pub open spec fn is_message_id(id: Seq<char>) -> bool {
    id.len() == 32 && forall|i: int| 0 <= i < id.len() ==> is_lower_hex(#[trigger] id[i])
}

/// A new message id: a random UUID (`uuid::Uuid::new_v4`) in its simple
/// form, which is 32 lower-case hexadecimal digits without hyphens. Which
/// digits is up to chance.
#[verifier::external_body]
fn fresh_id() -> (id: String)
    ensures
        is_message_id(id@),
{
    uuid::Uuid::new_v4().simple().to_string()
}

/// The message that a recipient gets: the parsed message under the given
/// id, addressed to the recipient, received at `now`; from the envelope
/// sender where the message names none, and dated `now` where it has no
/// date.
pub open spec fn composed(
    rcpt: RecipientView,
    parsed: ParsedMessageView,
    envelope_from: Seq<char>,
    now: Timestamp,
    id: Seq<char>,
) -> MessageView {
    MessageView {
        id,
        mailbox: rcpt.mailbox,
        to: rcpt.address,
        from: if is_blank(parsed.from) {
            envelope_from
        } else {
            parsed.from
        },
        subject: parsed.subject,
        date: if parsed.date.is_unset() {
            now
        } else {
            parsed.date
        },
        text: parsed.text,
        html: parsed.html,
        headers: parsed.headers,
        received_at: now,
    }
}

/// The store after each recipient, in order, got the message under the id
/// of the same position.
pub open spec fn delivered(
    store: StoreModel,
    recipients: Seq<RecipientView>,
    envelope_from: Seq<char>,
    parsed: ParsedMessageView,
    now: Timestamp,
    ids: Seq<Seq<char>>,
) -> StoreModel
    decreases recipients.len(),
{
    if recipients.len() == 0 || ids.len() == 0 {
        store
    } else {
        delivered(
            store,
            recipients.drop_last(),
            envelope_from,
            parsed,
            now,
            ids.drop_last(),
        ).add(
            recipients.last().mailbox,
            composed(recipients.last(), parsed, envelope_from, now, ids.last()),
            now,
        )
    }
}

/// Whether `ids` holds one message id for each of `count` recipients.
pub open spec fn ids_for(ids: Seq<Seq<char>>, count: nat) -> bool {
    ids.len() == count && forall|i: int| 0 <= i < ids.len() ==> is_message_id(#[trigger] ids[i])
}

/// Whether the end of a message body, parsed into `parsed`, leads from
/// `before` to `after` and to the action `a`: a message that parsed is
/// delivered at `now` to every recipient, each under an id of its own, and
/// accepted; any other is refused and the store stays as it is.
pub open spec fn completes(
    before: StoreModel,
    tx: TransactionView,
    parsed: Result<ParsedMessageView, Seq<char>>,
    now: Timestamp,
    after: StoreModel,
    a: ActionView,
) -> bool {
    match parsed {
        Ok(p) => a == say(ACCEPTED_REPLY@) && exists|ids: Seq<Seq<char>>|
            ids_for(ids, tx.recipients.len()) && after == #[trigger] delivered(
                before,
                tx.recipients,
                tx.from,
                p,
                now,
                ids,
            ),
        Err(_) => a == say(INVALID_CONTENT_REPLY@) && after == before,
    }
}

/// Whether one line leads the session from `s` to `t`, the store from
/// `before` to `after`, and to the action `a`.
///
/// While the session waits for a command the line is a command and the
/// store is left alone. While it receives a message body the line joins the
/// body, or gives it up for its size, or ends it: the body is then parsed
/// and, where it parses, delivered at some time `now` to every recipient,
/// and the session waits for a command again with an empty transaction.
pub open spec fn steps(
    cfg: Config,
    s: SessionView,
    line: &str,
    before: StoreModel,
    t: SessionView,
    after: StoreModel,
    a: ActionView,
) -> bool {
    if !s.receiving {
        after == before && (t, a) == command_step(cfg, s, line@)
    } else {
        match data_step(s, line.spec_bytes(), cfg.max_message_bytes as nat).1 {
            DataOutcome::More => after == before && a == say(Seq::empty()) && t == data_step(
                s,
                line.spec_bytes(),
                cfg.max_message_bytes as nat,
            ).0,
            DataOutcome::TooLarge => after == before && a == say(reply_line(552, TOO_LARGE@)) && t
                == idle_session(),
            DataOutcome::Complete(raw) => t == idle_session() && exists|now: Timestamp| #[trigger]
                completes(before, s.tx, parse_spec(raw, now), now, after, a),
        }
    }
}

/// The message that a recipient gets.
pub fn compose(
    rcpt: &Recipient,
    parsed: &ParsedMessage,
    envelope_from: &str,
    now: Timestamp,
    id: String,
) -> (m: Message)
    ensures
        m@ == composed(rcpt@, parsed@, envelope_from@, now, id@),
{
    let from = if crate::text::blank(&chars_of(parsed.from.as_str())) {
        envelope_from.to_string()
    } else {
        parsed.from.clone()
    };
    Message {
        id,
        mailbox: rcpt.mailbox.clone(),
        to: rcpt.address.clone(),
        from,
        subject: parsed.subject.clone(),
        date: if parsed.date.unset() {
            now
        } else {
            parsed.date
        },
        text: clone_opt(&parsed.text),
        html: clone_opt(&parsed.html),
        headers: clone_headers(&parsed.headers),
        received_at: now,
    }
}

/// Delivers a parsed message to every recipient of the transaction, each
/// under a new id.
pub fn deliver(store: &mut Store, tx: &Transaction, parsed: &ParsedMessage, now: Timestamp)
    requires
        old(store).wf(),
    ensures
        final(store).wf(),
        exists|ids: Seq<Seq<char>>|
            ids_for(ids, tx@.recipients.len()) && final(store)@ == #[trigger] delivered(
                old(store)@,
                tx@.recipients,
                tx@.from,
                parsed@,
                now,
                ids,
            ),
{
    let ghost mut ids: Seq<Seq<char>> = Seq::empty();
    let ghost all = tx@.recipients;
    let mut i: usize = 0;
    assert(all.take(0) =~= Seq::<RecipientView>::empty());
    while i < tx.recipients.len()
        invariant
            i <= tx.recipients@.len(),
            all == tx@.recipients,
            store.wf(),
            ids_for(ids, i as nat),
            store@ == delivered(old(store)@, all.take(i as int), tx@.from, parsed@, now, ids),
        decreases tx.recipients@.len() - i,
    {
        let rcpt = &tx.recipients[i];
        let id = fresh_id();
        proof {
            let next = all.take(i + 1);
            assert(next.drop_last() =~= all.take(i as int));
            assert(next.last() == rcpt@);
            assert(ids.push(id@).drop_last() =~= ids);
            ids = ids.push(id@);
        }
        let message = compose(rcpt, parsed, tx.from.as_str(), now, id);
        store.add_at(rcpt.mailbox.as_str(), message, now);
        i += 1;
    }
    assert(all.take(all.len() as int) =~= all);
}

impl Session {
    /// Ends the message body whose bytes were parsed into `parsed`, at
    /// `now`: delivers the message where it parsed, empties the
    /// transaction either way, and answers.
    pub fn complete(
        &mut self,
        store: &mut Store,
        parsed: Result<ParsedMessage, String>,
        now: Timestamp,
    ) -> (a: Action)
        requires
            old(store).wf(),
        ensures
            final(store).wf(),
            final(self)@ == (SessionView { tx: empty_transaction(), ..old(self)@ }),
            completes(
                old(store)@,
                old(self)@.tx,
                parsed_view(parsed),
                now,
                final(store)@,
                a@,
            ),
    {
        match parsed {
            Ok(message) => {
                deliver(store, &self.tx, &message, now);
                self.tx.reset();
                keep_open(ACCEPTED_REPLY.to_string())
            },
            Err(_) => {
                self.tx.reset();
                keep_open(INVALID_CONTENT_REPLY.to_string())
            },
        }
    }

    /// What the session does with one line, read with its line end.
    ///
    /// While it waits for a command the line is a command and the store is
    /// left alone. While it receives a message body the line joins the
    /// body, or is the end of it: the body is then parsed and, where it
    /// parses, delivered at the current time to every recipient.
    pub fn step(&mut self, cfg: &Config, store: &mut Store, line: &str) -> (a: Action)
        requires
            old(store).wf(),
        ensures
            final(store).wf(),
            steps(*cfg, old(self)@, line, old(store)@, final(self)@, final(store)@, a@),
    {
        if !self.receiving {
            return self.handle_command(cfg, line);
        }
        match self.handle_data_line(line, cfg.max_message_bytes) {
            DataStep::More => keep_open(String::new()),
            DataStep::TooLarge => keep_open(write_reply_line(552, TOO_LARGE)),
            DataStep::Complete(raw) => {
                let now = current_time();
                let parsed = parse_at(raw.as_slice(), now);
                let a = self.complete(store, parsed, now);
                assert(completes(
                    old(store)@,
                    old(self)@.tx,
                    parse_spec(raw@, now),
                    now,
                    store@,
                    a@,
                ));
                a
            },
        }
    }

    /// What the session does when the peer has sent all it will send: in
    /// the middle of a message body it gives up the body and the
    /// transaction and says so; either way the connection is closed.
    pub fn end_of_input(&mut self) -> (a: Action)
        ensures
            old(self)@.receiving ==> final(self)@ == idle_session() && a@ == (ActionView {
                reply: reply_line(451, ENDED_EARLY@),
                close: true,
            }),
            !old(self)@.receiving ==> final(self)@ == old(self)@ && a@ == (ActionView {
                reply: Seq::empty(),
                close: true,
            }),
    {
        if self.receiving {
            self.tx.reset();
            self.receiving = false;
            self.data = Vec::new();
            Action { reply: write_reply_line(451, ENDED_EARLY), close: true }
        } else {
            Action { reply: String::new(), close: true }
        }
    }

    /// What the session does when a line could not be read: in the middle
    /// of a message body it gives up the body and the transaction, says so
    /// and goes on; while it waits for a command the connection is closed.
    pub fn read_failed(&mut self) -> (a: Action)
        ensures
            old(self)@.receiving ==> final(self)@ == idle_session() && a@ == say(
                reply_line(451, READ_FAILED@),
            ),
            !old(self)@.receiving ==> final(self)@ == old(self)@ && a@ == (ActionView {
                reply: Seq::empty(),
                close: true,
            }),
    {
        if self.receiving {
            self.tx.reset();
            self.receiving = false;
            self.data = Vec::new();
            keep_open(write_reply_line(451, READ_FAILED))
        } else {
            Action { reply: String::new(), close: true }
        }
    }
}

} // verus!
