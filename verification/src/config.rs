//! The service's settings and how they are read from raw values.
//!
//! Reading the environment is left to the caller: [`Settings`] holds what it
//! found, and [`Config::from_settings`] turns that into a [`Config`].

use crate::text::{
    canonical, canonical_chars, chars_of, clone_texts, contains_text, parse_i64, parse_signed,
    parse_unsigned, parse_usize, split, split_on, text_of, trim, trimmed, views,
};
use vstd::prelude::*;

verus! {

/// The variable that holds the HTTP listen address.
pub const HTTP_ADDR_VAR: &'static str = "HTTP_ADDR";

/// The variable that holds the SMTP listen address.
pub const SMTP_ADDR_VAR: &'static str = "SMTP_ADDR";

/// The variable that holds the service domain.
pub const MAIL_DOMAIN_VAR: &'static str = "MAIL_DOMAIN";

/// The variable that holds the blocked mailboxes, separated by commas.
pub const MAILBOX_BLACKLIST_VAR: &'static str = "MAILBOX_BLACKLIST";

/// The variable that holds the banned sender domains, separated by commas.
pub const BANNED_SENDER_DOMAINS_VAR: &'static str = "BANNED_SENDER_DOMAINS";

/// The variable that holds the capacity of a mailbox.
pub const MAX_MESSAGES_VAR: &'static str = "MAX_MESSAGES_PER_MAILBOX";

/// The variable that holds the time to live of a message, in minutes.
pub const MESSAGE_TTL_VAR: &'static str = "MESSAGE_TTL_MINUTES";

/// The variable that holds the largest size of a message, in bytes.
pub const MAX_MESSAGE_BYTES_VAR: &'static str = "MAX_MESSAGE_BYTES";

/// Where the HTTP server listens unless told otherwise.
pub const DEFAULT_HTTP_ADDR: &'static str = ":3000";

/// Where the SMTP server listens unless told otherwise.
pub const DEFAULT_SMTP_ADDR: &'static str = ":25";

/// How many messages a mailbox keeps unless told otherwise.
pub const DEFAULT_MAX_MESSAGES: usize = 200;

/// How many minutes a message is kept unless told otherwise: one day.
pub const DEFAULT_TTL_MINUTES: i64 = 1440;

/// How large a message may be unless told otherwise: ten mebibytes.
pub const DEFAULT_MAX_MESSAGE_BYTES: usize = 10485760;

/// The least that the largest size of a message can be set to.
pub const MIN_MESSAGE_BYTES: usize = 1024;

/// The address that stands for every interface.
pub const ANY_INTERFACE: &'static str = "0.0.0.0";

/// The settings of a running service.
#[derive(Debug)]
pub struct Config {
    pub http_addr: String,
    pub smtp_addr: String,
    pub domain: String,
    pub mailbox_blacklist: Vec<String>,
    pub banned_sender_domains: Vec<String>,
    pub max_messages_per_mailbox: usize,
    pub message_ttl_minutes: i64,
    pub max_message_bytes: usize,
}

/// The raw value of each setting, `None` where it was not given.
#[derive(Debug)]
pub struct Settings {
    pub http_addr: Option<String>,
    pub smtp_addr: Option<String>,
    pub mail_domain: Option<String>,
    pub mailbox_blacklist: Option<String>,
    pub banned_sender_domains: Option<String>,
    pub max_messages_per_mailbox: Option<String>,
    pub message_ttl_minutes: Option<String>,
    pub max_message_bytes: Option<String>,
}

impl Clone for Config {
    fn clone(&self) -> (r: Self)
        ensures
            r.http_addr@ == self.http_addr@,
            r.smtp_addr@ == self.smtp_addr@,
            r.domain@ == self.domain@,
            views(r.mailbox_blacklist@) == views(self.mailbox_blacklist@),
            views(r.banned_sender_domains@) == views(self.banned_sender_domains@),
            r.max_messages_per_mailbox == self.max_messages_per_mailbox,
            r.message_ttl_minutes == self.message_ttl_minutes,
            r.max_message_bytes == self.max_message_bytes,
    {
        Config {
            http_addr: self.http_addr.clone(),
            smtp_addr: self.smtp_addr.clone(),
            domain: self.domain.clone(),
            mailbox_blacklist: clone_texts(&self.mailbox_blacklist),
            banned_sender_domains: clone_texts(&self.banned_sender_domains),
            max_messages_per_mailbox: self.max_messages_per_mailbox,
            message_ttl_minutes: self.message_ttl_minutes,
            max_message_bytes: self.max_message_bytes,
        }
    }
}

/// The mailboxes that are blocked where no list is given.
pub open spec fn default_blacklist() -> Seq<Seq<char>> {
    seq![
        "admin"@,
        "master"@,
        "info"@,
        "mail"@,
        "webadmin"@,
        "webmaster"@,
        "noreply"@,
        "system"@,
        "postmaster"@,
    ]
}

/// The characters of a raw value; none where it was not given.
pub open spec fn raw_text(value: Option<String>) -> Seq<char> {
    match value {
        Some(s) => s@,
        None => Seq::empty(),
    }
}

/// A raw value trimmed, or the fallback where nothing is left.
pub open spec fn text_setting(value: Option<String>, fallback: Seq<char>) -> Seq<char> {
    let t: Seq<char> = trimmed(raw_text(value));
    if t.len() == 0 {
        fallback
    } else {
        t
    }
}

/// A raw value read as an unsigned number, or the fallback where it is none.
pub open spec fn usize_setting(value: Option<String>, fallback: usize) -> nat {
    match parse_unsigned(trimmed(raw_text(value)), usize::MAX as nat) {
        Some(n) => n,
        None => fallback as nat,
    }
}

/// A raw value read as a signed number, or the fallback where it is none.
pub open spec fn i64_setting(value: Option<String>, fallback: i64) -> int {
    match parse_signed(trimmed(raw_text(value)), i64::MIN as int, i64::MAX as int) {
        Some(n) => n,
        None => fallback as int,
    }
}

/// Whether `x` is one of the first `k` comma-separated items of `value`, in
/// canonical form, and not empty.
pub open spec fn listed(value: Seq<char>, k: int, x: Seq<char>) -> bool {
    x.len() > 0 && exists|i: int|
        0 <= i < k && i < split(value, ',').len() && canonical(#[trigger] split(value, ',')[i])
            == x
}

/// Whether `items` holds, once each, the non-empty canonical forms of the
/// comma-separated items of `value`.
pub open spec fn is_list_of(items: Seq<Seq<char>>, value: Seq<char>) -> bool {
    &&& items.no_duplicates()
    &&& forall|x: Seq<char>|
        items.contains(x) <==> listed(value, split(value, ',').len() as int, x)
}

/// The larger of two numbers.
pub open spec fn at_least(n: int, floor: int) -> int {
    if n < floor {
        floor
    } else {
        n
    }
}

/// A listen address with every interface written out where none is named.
pub open spec fn listen_addr_spec(addr: Seq<char>) -> Seq<char> {
    if addr.len() > 0 && addr[0] == ':' {
        ANY_INTERFACE@ + addr
    } else {
        addr
    }
}

/// Rewrites `:port` to `0.0.0.0:port`; any other address stays as it is.
pub fn normalize_listen_addr(addr: &str) -> (r: String)
    ensures
        r@ == listen_addr_spec(addr@),
{
    let v = chars_of(addr);
    if v.len() > 0 && v[0] == ':' {
        let mut r = chars_of(ANY_INTERFACE);
        crate::text::append(&mut r, &v);
        text_of(&r)
    } else {
        text_of(&v)
    }
}

/// A domain in canonical form.
pub fn normalize_domain(domain: &str) -> (r: String)
    ensures
        r@ == canonical(domain@),
{
    let v = chars_of(domain);
    text_of(&canonical_chars(&v))
}

fn raw_chars(value: &Option<String>) -> (r: Vec<char>)
    ensures
        r@ == raw_text(*value),
{
    match value {
        Some(s) => chars_of(s.as_str()),
        None => Vec::new(),
    }
}

/// A raw value trimmed, or the fallback where nothing is left.
pub fn text_or_default(value: &Option<String>, fallback: &str) -> (r: String)
    ensures
        r@ == text_setting(*value, fallback@),
{
    let t = trim(&raw_chars(value));
    if t.len() == 0 {
        fallback.to_string()
    } else {
        text_of(&t)
    }
}

/// A raw value read as an unsigned number, or the fallback where it is none.
pub fn usize_or_default(value: &Option<String>, fallback: usize) -> (r: usize)
    ensures
        r == usize_setting(*value, fallback),
{
    let t = trim(&raw_chars(value));
    match parse_usize(&t) {
        Some(n) => n,
        None => fallback,
    }
}

/// A raw value read as a signed number, or the fallback where it is none.
pub fn i64_or_default(value: &Option<String>, fallback: i64) -> (r: i64)
    ensures
        r == i64_setting(*value, fallback),
{
    let t = trim(&raw_chars(value));
    match parse_i64(&t) {
        Some(n) => n,
        None => fallback,
    }
}

/// The non-empty canonical forms of the comma-separated items of `value`,
/// once each.
pub fn parse_list(value: &str) -> (r: Vec<String>)
    ensures
        is_list_of(views(r@), value@),
{
    let v = chars_of(value);
    let pieces = split_on(&v, ',');
    let mut out: Vec<String> = Vec::new();
    let mut k: usize = 0;
    assert(views(out@) =~= Seq::<Seq<char>>::empty());
    while k < pieces.len()
        invariant
            k <= pieces.len(),
            crate::text::char_views(pieces@) == split(value@, ','),
            views(out@).no_duplicates(),
            forall|x: Seq<char>| views(out@).contains(x) <==> listed(value@, k as int, x),
        decreases pieces.len() - k,
    {
        let item = canonical_chars(&pieces[k]);
        let ghost before = views(out@);
        assert(item@ == canonical(split(value@, ',')[k as int])) by {
            assert(crate::text::char_views(pieces@)[k as int] == pieces@[k as int]@);
        }
        if item.len() > 0 && !contains_text(&out, &item) {
            let s = text_of(&item);
            out.push(s);
            assert(views(out@) =~= before.push(item@));
            assert forall|x: Seq<char>| views(out@).contains(x) <==> listed(
                value@,
                k + 1,
                x,
            ) by {
                if views(out@).contains(x) {
                    let j = choose|j: int| 0 <= j < views(out@).len() && views(out@)[j] == x;
                    if j < before.len() {
                        assert(before[j] == x);
                        assert(before.contains(x));
                        assert(listed(value@, k as int, x));
                    }
                }
                if listed(value@, k + 1, x) {
                    if listed(value@, k as int, x) {
                        assert(before.contains(x));
                        let j = choose|j: int| 0 <= j < before.len() && before[j] == x;
                        assert(views(out@)[j] == x);
                    } else {
                        assert(x == item@);
                        assert(views(out@)[before.len() as int] == x);
                    }
                }
            }
        } else {
            assert forall|x: Seq<char>| views(out@).contains(x) <==> listed(
                value@,
                k + 1,
                x,
            ) by {
                if listed(value@, k + 1, x) && !listed(value@, k as int, x) {
                    assert(x == item@);
                }
            }
        }
        k += 1;
    }
    out
}

/// The mailboxes that are blocked where no list is given.
pub fn default_mailbox_blacklist() -> (r: Vec<String>)
    ensures
        views(r@) == default_blacklist(),
{
    let mut r: Vec<String> = Vec::new();
    r.push("admin".to_string());
    r.push("master".to_string());
    r.push("info".to_string());
    r.push("mail".to_string());
    r.push("webadmin".to_string());
    r.push("webmaster".to_string());
    r.push("noreply".to_string());
    r.push("system".to_string());
    r.push("postmaster".to_string());
    assert(views(r@) =~= default_blacklist());
    r
}

impl Config {
    /// The settings that the raw values give.
    ///
    /// Addresses fall back to `:3000` and `:25`, the domain is canonical,
    /// an absent blacklist is the default one, an absent list of banned
    /// domains is empty, and each number falls back to its default where it
    /// does not parse and is raised to its floor.
    pub fn from_settings(settings: &Settings) -> (c: Config)
        ensures
            c.http_addr@ == text_setting(settings.http_addr, DEFAULT_HTTP_ADDR@),
            c.smtp_addr@ == text_setting(settings.smtp_addr, DEFAULT_SMTP_ADDR@),
            c.domain@ == canonical(raw_text(settings.mail_domain)),
            match settings.mailbox_blacklist {
                Some(list) => is_list_of(views(c.mailbox_blacklist@), list@),
                None => views(c.mailbox_blacklist@) == default_blacklist(),
            },
            match settings.banned_sender_domains {
                Some(list) => is_list_of(views(c.banned_sender_domains@), list@),
                None => c.banned_sender_domains@.len() == 0,
            },
            c.max_messages_per_mailbox == at_least(
                usize_setting(settings.max_messages_per_mailbox, DEFAULT_MAX_MESSAGES) as int,
                1,
            ),
            c.message_ttl_minutes == at_least(
                i64_setting(settings.message_ttl_minutes, DEFAULT_TTL_MINUTES),
                1,
            ),
            c.max_message_bytes == at_least(
                usize_setting(settings.max_message_bytes, DEFAULT_MAX_MESSAGE_BYTES) as int,
                MIN_MESSAGE_BYTES as int,
            ),
    {
        let http_addr = text_or_default(&settings.http_addr, DEFAULT_HTTP_ADDR);
        let smtp_addr = text_or_default(&settings.smtp_addr, DEFAULT_SMTP_ADDR);
        let domain = match &settings.mail_domain {
            Some(d) => normalize_domain(d.as_str()),
            None => {
                assert(canonical(Seq::<char>::empty()) =~= Seq::<char>::empty());
                String::new()
            },
        };
        let mailbox_blacklist = match &settings.mailbox_blacklist {
            Some(list) => parse_list(list.as_str()),
            None => default_mailbox_blacklist(),
        };
        let banned_sender_domains = match &settings.banned_sender_domains {
            Some(list) => parse_list(list.as_str()),
            None => Vec::new(),
        };
        let max_messages = usize_or_default(
            &settings.max_messages_per_mailbox,
            DEFAULT_MAX_MESSAGES,
        );
        let ttl = i64_or_default(&settings.message_ttl_minutes, DEFAULT_TTL_MINUTES);
        let max_bytes = usize_or_default(&settings.max_message_bytes, DEFAULT_MAX_MESSAGE_BYTES);
        Config {
            http_addr,
            smtp_addr,
            domain,
            mailbox_blacklist,
            banned_sender_domains,
            max_messages_per_mailbox: if max_messages < 1 {
                1
            } else {
                max_messages
            },
            message_ttl_minutes: if ttl < 1 {
                1
            } else {
                ttl
            },
            max_message_bytes: if max_bytes < MIN_MESSAGE_BYTES {
                MIN_MESSAGE_BYTES
            } else {
                max_bytes
            },
        }
    }

    /// Whether the mailbox, in canonical form, is on the blacklist.
    pub fn is_mailbox_blacklisted(&self, mailbox: &str) -> (b: bool)
        ensures
            b == views(self.mailbox_blacklist@).contains(canonical(mailbox@)),
    {
        let v = chars_of(mailbox);
        contains_text(&self.mailbox_blacklist, &canonical_chars(&v))
    }

    /// Whether the domain, in canonical form, is banned as a sender's.
    pub fn is_sender_domain_blocked(&self, domain: &str) -> (b: bool)
        ensures
            b == views(self.banned_sender_domains@).contains(canonical(domain@)),
    {
        let v = chars_of(domain);
        contains_text(&self.banned_sender_domains, &canonical_chars(&v))
    }
}

} // verus!
