//! Mailbox and e-mail address rules.
//!
//! A mailbox is the local part of an address, in lower case: a letter or a
//! digit, then up to 63 letters, digits, dots, underscores, plus or minus
//! signs. Every function here states its result over the view of its input.

use crate::text::{
    append, blank, canonical, canonical_chars, chars_of, equal, find_char, is_blank, is_space,
    lemma_find_bounds, lemma_rfind_bounds, lemma_rfind_is, lemma_strip_leading_shape,
    lemma_strip_trailing_shape, lower_char, lowercase, rfind, rfind_char, slice, strip_leading,
    text_of, to_lowercase, trim, trimmed, CharClass,
};
use vstd::prelude::*;

verus! {

/// The message for an address without a usable `@`.
pub const INVALID_ADDRESS: &'static str = "invalid email address";

/// The message for a local part that is no mailbox.
pub const INVALID_MAILBOX: &'static str = "invalid mailbox";

/// The message for an address whose domain is empty.
pub const INVALID_DOMAIN: &'static str = "invalid email domain";

/// The start of the message for an address of another domain.
pub const DOMAIN_MUST_BE: &'static str = "email domain must be ";

/// What the address functions return, over views: the mailbox and a second
/// string, or the message of the error.
pub type AddressResult = Result<(Seq<char>, Seq<char>), Seq<char>>;

/// The first character of a mailbox: a lower-case letter or a digit.
pub open spec fn is_mailbox_head(c: char) -> bool {
    ('a' <= c && c <= 'z') || ('0' <= c && c <= '9')
}

/// Any later character of a mailbox.
pub open spec fn is_mailbox_tail(c: char) -> bool {
    is_mailbox_head(c) || c == '.' || c == '_' || c == '+' || c == '-'
}

/// Whether `s` is a mailbox: one head character, then at most 63 tail
/// characters.
pub open spec fn is_valid_mailbox(s: Seq<char>) -> bool {
    &&& 1 <= s.len() <= 64
    &&& is_mailbox_head(s[0])
    &&& forall|i: int| 1 <= i < s.len() ==> is_mailbox_tail(#[trigger] s[i])
}

/// `s` without one `<` at its start and one `>` at its end, each where present.
pub open spec fn strip_brackets(s: Seq<char>) -> Seq<char> {
    let a: Seq<char> = if s.len() > 0 && s[0] == '<' {
        s.drop_first()
    } else {
        s
    };
    if a.len() > 0 && a.last() == '>' {
        a.drop_last()
    } else {
        a
    }
}

/// The input without surrounding whitespace, then without one pair of angle
/// brackets.
pub open spec fn normalized(input: Seq<char>) -> Seq<char> {
    strip_brackets(trimmed(input))
}

/// The mailbox and the domain of an address, or why it has none.
///
/// The normalised input is split at its last `@`, which may be neither
/// absent, first nor last. Each side is put in lower case and otherwise
/// taken as it stands: the left one must be a mailbox, the right one must
/// hold more than whitespace.
pub open spec fn parse_email_spec(input: Seq<char>) -> AddressResult {
    let value: Seq<char> = normalized(input);
    let at: int = rfind(value, '@');
    if at <= 0 || at == value.len() - 1 {
        Err(INVALID_ADDRESS@)
    } else {
        let mailbox: Seq<char> = lowercase(value.take(at));
        let domain: Seq<char> = lowercase(value.skip(at + 1));
        if !is_valid_mailbox(mailbox) {
            Err(INVALID_MAILBOX@)
        } else if is_blank(value.skip(at + 1)) {
            Err(INVALID_DOMAIN@)
        } else {
            Ok((mailbox, domain))
        }
    }
}

/// The address `mailbox@domain`.
pub open spec fn render(mailbox: Seq<char>, domain: Seq<char>) -> Seq<char> {
    mailbox + seq!['@'] + domain
}

/// How a mailbox is rendered: with the expected domain where there is one,
/// else bare.
pub open spec fn rendered(mailbox: Seq<char>, expected: Seq<char>) -> Seq<char> {
    if expected.len() == 0 {
        mailbox
    } else {
        render(mailbox, expected)
    }
}

/// The mailbox of an input and the address it is rendered as, or why it has
/// none.
///
/// The expected domain is read in canonical form. A normalised input with
/// an `@` is parsed as an address, whose domain must be the expected one
/// where one is expected; any other is a bare mailbox, in lower case. Either
/// way the mailbox is rendered with the expected domain, or bare where none
/// is expected.
pub open spec fn normalize_mailbox_spec(input: Seq<char>, expected_domain: Seq<char>)
    -> AddressResult {
    let value: Seq<char> = normalized(input);
    let expected: Seq<char> = canonical(expected_domain);
    if value.contains('@') {
        match parse_email_spec(value) {
            Err(e) => Err(e),
            Ok((mailbox, domain)) => {
                if expected.len() > 0 && domain != expected {
                    Err(DOMAIN_MUST_BE@ + expected)
                } else {
                    Ok((mailbox, rendered(mailbox, expected)))
                }
            },
        }
    } else {
        let mailbox: Seq<char> = lowercase(value);
        if !is_valid_mailbox(mailbox) {
            Err(INVALID_MAILBOX@)
        } else {
            Ok((mailbox, rendered(mailbox, expected)))
        }
    }
}

/// The view of what an address function returned.
pub open spec fn address_view(r: Result<(String, String), String>) -> AddressResult {
    match r {
        Ok((a, b)) => Ok((a@, b@)),
        Err(e) => Err(e@),
    }
}

fn is_head(c: char) -> (b: bool)
    ensures
        b == is_mailbox_head(c),
{
    ('a' <= c && c <= 'z') || ('0' <= c && c <= '9')
}

fn is_tail(c: char) -> (b: bool)
    ensures
        b == is_mailbox_tail(c),
{
    is_head(c) || c == '.' || c == '_' || c == '+' || c == '-'
}

/// Whether the characters form a mailbox.
pub fn mailbox_chars_valid(v: &Vec<char>) -> (b: bool)
    ensures
        b == is_valid_mailbox(v@),
{
    if v.len() < 1 || v.len() > 64 || !is_head(v[0]) {
        return false;
    }
    let mut i: usize = 1;
    while i < v.len()
        invariant
            1 <= i <= v.len(),
            forall|j: int| 1 <= j < i ==> is_mailbox_tail(#[trigger] v@[j]),
        decreases v.len() - i,
    {
        if !is_tail(v[i]) {
            return false;
        }
        i += 1;
    }
    true
}

/// The characters of the input without surrounding whitespace and one pair
/// of angle brackets.
pub fn normalize_chars(input: &Vec<char>) -> (r: Vec<char>)
    ensures
        r@ == normalized(input@),
{
    let t = trim(input);
    let lo: usize = if t.len() > 0 && t[0] == '<' {
        1
    } else {
        0
    };
    let hi: usize = if t.len() > lo && t[t.len() - 1] == '>' {
        t.len() - 1
    } else {
        t.len()
    };
    let r = slice(&t, lo, hi);
    proof {
        let a: Seq<char> = if t@.len() > 0 && t@[0] == '<' {
            t@.drop_first()
        } else {
            t@
        };
        assert(a =~= t@.subrange(lo as int, t.len() as int));
        if a.len() > 0 && a.last() == '>' {
            assert(a.drop_last() =~= r@);
        } else {
            assert(a =~= r@);
        }
    }
    r
}

/// The input without surrounding whitespace and one pair of angle brackets.
pub fn normalize(input: &str) -> (r: String)
    ensures
        r@ == normalized(input@),
{
    text_of(&normalize_chars(&chars_of(input)))
}

/// Checks that `mailbox` is a mailbox as it stands: no trimming, no change of
/// case.
pub fn validate_mailbox(mailbox: &str) -> (r: Result<(), String>)
    ensures
        r is Ok <==> is_valid_mailbox(mailbox@),
        r matches Err(e) ==> e@ == INVALID_MAILBOX@,
{
    let v = chars_of(mailbox);
    if !mailbox_chars_valid(&v) {
        return Err(INVALID_MAILBOX.to_string());
    }
    Ok(())
}

fn parse_email_chars(input: &Vec<char>) -> (r: Result<(Vec<char>, Vec<char>), String>)
    ensures
        match r {
            Ok((m, d)) => parse_email_spec(input@) == Ok::<_, Seq<char>>((m@, d@)),
            Err(e) => parse_email_spec(input@) == Err::<(Seq<char>, Seq<char>), _>(e@),
        },
{
    let value = normalize_chars(input);
    let at = match rfind_char(&value, '@') {
        Some(at) => at,
        None => {
            return Err(INVALID_ADDRESS.to_string());
        },
    };
    if at == 0 || at == value.len() - 1 {
        return Err(INVALID_ADDRESS.to_string());
    }
    let left = slice(&value, 0, at);
    let right = slice(&value, at + 1, value.len());
    let mailbox = to_lowercase(&left);
    let domain = to_lowercase(&right);
    if !mailbox_chars_valid(&mailbox) {
        return Err(INVALID_MAILBOX.to_string());
    }
    if blank(&right) {
        return Err(INVALID_DOMAIN.to_string());
    }
    Ok((mailbox, domain))
}

/// Splits an address into its mailbox and its domain, both in lower case.
///
/// The input loses surrounding whitespace and one pair of angle brackets and
/// is split at its last `@`, which may be neither absent, first nor last.
/// Neither side is trimmed: the left one must be a mailbox as it stands.
pub fn parse_email(input: &str) -> (r: Result<(String, String), String>)
    ensures
        address_view(r) == parse_email_spec(input@),
{
    let v = chars_of(input);
    match parse_email_chars(&v) {
        Ok((m, d)) => Ok((text_of(&m), text_of(&d))),
        Err(e) => Err(e),
    }
}

/// The mailbox that an input names and the address it is rendered as.
///
/// An input with an `@` is parsed as an address; where a domain is expected,
/// the address must be of that domain. Any other input is a bare mailbox.
/// The mailbox is rendered with the expected domain, or bare where none is
/// expected.
pub fn normalize_mailbox(input: &str, expected_domain: &str) -> (r: Result<
    (String, String),
    String,
>)
    ensures
        address_view(r) == normalize_mailbox_spec(input@, expected_domain@),
{
    let v = chars_of(input);
    let value = normalize_chars(&v);
    let e = chars_of(expected_domain);
    let expected = canonical_chars(&e);
    let at = find_char(&value, '@');
    proof {
        lemma_find_bounds(value@, '@');
        if at < value.len() {
            assert(value@.contains('@'));
        }
    }
    let mailbox = if at < value.len() {
        let (mailbox, domain) = match parse_email_chars(&value) {
            Ok(pair) => pair,
            Err(e) => {
                return Err(e);
            },
        };
        if expected.len() > 0 && !equal(&domain, &expected) {
            let mut msg = chars_of(DOMAIN_MUST_BE);
            append(&mut msg, &expected);
            return Err(text_of(&msg));
        }
        mailbox
    } else {
        let mailbox = to_lowercase(&value);
        if !mailbox_chars_valid(&mailbox) {
            return Err(INVALID_MAILBOX.to_string());
        }
        mailbox
    };
    if expected.len() == 0 {
        Ok((text_of(&mailbox), text_of(&mailbox)))
    } else {
        let mut address = mailbox.clone();
        address.push('@');
        append(&mut address, &expected);
        assert(address@ =~= render(mailbox@, expected@));
        Ok((text_of(&mailbox), text_of(&address)))
    }
}

/// A domain that parsing leaves as it is: not empty, without `@`, without
/// ASCII capitals, and ending neither with whitespace nor with `>`.
pub open spec fn is_canonical_domain(d: Seq<char>) -> bool {
    &&& d.len() > 0
    &&& !d.contains('@')
    &&& lowercase(d) == d
    &&& !is_space(d.last())
    &&& d.last() != '>'
}

/// A mailbox is its own normal form: it holds no whitespace at either end,
/// no bracket, no `@` and no capital.
pub proof fn lemma_mailbox_is_canonical(mailbox: Seq<char>)
    requires
        is_valid_mailbox(mailbox),
    ensures
        lowercase(mailbox) == mailbox,
        normalized(mailbox) == mailbox,
        !mailbox.contains('@'),
{
    assert(is_mailbox_tail(mailbox.last()) || is_mailbox_head(mailbox.last()));
    assert(trimmed(mailbox) == mailbox);
    assert forall|i: int| 0 <= i < mailbox.len() implies lower_char(#[trigger] mailbox[i])
        == mailbox[i] by {
        assert(is_mailbox_tail(mailbox[i]) || is_mailbox_head(mailbox[i]));
    }
    assert(lowercase(mailbox) =~= mailbox);
    assert forall|i: int| 0 <= i < mailbox.len() implies #[trigger] mailbox[i] != '@' by {
        assert(is_mailbox_tail(mailbox[i]) || is_mailbox_head(mailbox[i]));
    }
}

/// Rendering a mailbox with a canonical domain and parsing the address gives
/// both back; normalising the address first changes nothing.
pub proof fn lemma_render_parse_roundtrip(mailbox: Seq<char>, domain: Seq<char>)
    requires
        is_valid_mailbox(mailbox),
        is_canonical_domain(domain),
    ensures
        normalized(render(mailbox, domain)) == render(mailbox, domain),
        parse_email_spec(normalized(render(mailbox, domain))) == Ok::<_, Seq<char>>(
            (mailbox, domain),
        ),
        parse_email_spec(render(mailbox, domain)) == Ok::<_, Seq<char>>((mailbox, domain)),
{
    let v = render(mailbox, domain);
    let k = mailbox.len() as int;
    lemma_mailbox_is_canonical(mailbox);
    assert(v[0] == mailbox[0]);
    assert(v.last() == domain.last());
    assert(trimmed(v) == v);
    assert(normalized(v) == v);
    assert forall|i: int| k < i < v.len() implies #[trigger] v[i] != '@' by {
        assert(v[i] == domain[i - k - 1]);
    }
    assert(v[k] == '@');
    lemma_rfind_is(v, '@', k);
    assert(v.take(k) =~= mailbox);
    assert(v.skip(k + 1) =~= domain);
    assert(!is_blank(domain)) by {
        assert(domain[domain.len() - 1] == domain.last());
    }
}

/// A rendered address names its mailbox: normalising it, with its own
/// domain expected, gives the mailbox and the address back; with no domain
/// expected it gives the mailbox twice.
pub proof fn lemma_render_normalize_roundtrip(mailbox: Seq<char>, domain: Seq<char>)
    requires
        is_valid_mailbox(mailbox),
        is_canonical_domain(domain),
        canonical(domain) == domain,
    ensures
        normalize_mailbox_spec(render(mailbox, domain), domain) == Ok::<_, Seq<char>>(
            (mailbox, render(mailbox, domain)),
        ),
        normalize_mailbox_spec(render(mailbox, domain), Seq::empty()) == Ok::<_, Seq<char>>(
            (mailbox, mailbox),
        ),
{
    let v = render(mailbox, domain);
    lemma_render_parse_roundtrip(mailbox, domain);
    assert(v[mailbox.len() as int] == '@');
    assert(trimmed(Seq::<char>::empty()) == Seq::<char>::empty());
    assert(lowercase(Seq::<char>::empty()) =~= Seq::<char>::empty());
}

/// A bare mailbox names itself, and is rendered with the expected domain.
pub proof fn lemma_bare_mailbox_normalizes(mailbox: Seq<char>, domain: Seq<char>)
    requires
        is_valid_mailbox(mailbox),
    ensures
        normalize_mailbox_spec(mailbox, domain) == Ok::<_, Seq<char>>(
            (mailbox, rendered(mailbox, canonical(domain))),
        ),
{
    lemma_mailbox_is_canonical(mailbox);
}

/// What normalising gives back on success is a mailbox, rendered with the
/// expected domain or bare.
pub proof fn lemma_normalized_mailbox_is_valid(input: Seq<char>, expected_domain: Seq<char>)
    ensures
        normalize_mailbox_spec(input, expected_domain) matches Ok((mailbox, address))
            ==> is_valid_mailbox(mailbox) && address == rendered(
            mailbox,
            canonical(expected_domain),
        ),
        parse_email_spec(input) matches Ok((mailbox, domain)) ==> is_valid_mailbox(mailbox)
            && domain.len() > 0,
{
}

/// The round trip holds of canonical domains only: where rendering a
/// mailbox with a domain that is not empty and parsing the address gives
/// both back, the domain is canonical.
pub proof fn lemma_roundtrip_needs_canonical_domain(mailbox: Seq<char>, domain: Seq<char>)
    requires
        is_valid_mailbox(mailbox),
        domain.len() > 0,
        parse_email_spec(render(mailbox, domain)) == Ok::<_, Seq<char>>((mailbox, domain)),
    ensures
        is_canonical_domain(domain),
{
    let v = render(mailbox, domain);
    let value = normalized(v);
    let at = rfind(value, '@');
    let tail = value.skip(at + 1);
    assert(domain == lowercase(tail));
    assert(mailbox == lowercase(value.take(at)));
    lemma_rfind_bounds(value, '@');
    assert forall|i: int| 0 <= i < domain.len() implies #[trigger] domain[i] != '@' by {
        assert(domain[i] == lower_char(tail[i]));
        assert(tail[i] == value[at + 1 + i]);
    }
    assert(lowercase(domain) =~= domain) by {
        assert forall|i: int| 0 <= i < domain.len() implies lower_char(#[trigger] domain[i])
            == domain[i] by {
            assert(domain[i] == lower_char(tail[i]));
        }
    }
    // Both sides came back whole, so normalising took nothing from the address.
    assert(value.len() == v.len());
    let a = strip_leading(v, CharClass::Whitespace);
    let t = trimmed(v);
    lemma_strip_leading_shape(v, CharClass::Whitespace);
    lemma_strip_trailing_shape(a, CharClass::Whitespace);
    assert(a.len() == v.len() && t.len() == v.len());
    assert(a.last() == v.last());
    assert(v.last() == domain.last());
    if is_space(domain.last()) {
        lemma_strip_trailing_shape(a.drop_last(), CharClass::Whitespace);
    }
    assert(t == a);
}

} // verus!
