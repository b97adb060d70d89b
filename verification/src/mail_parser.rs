//! From the raw bytes of a message to the record that the store keeps.
//!
//! `mailparse` reads the MIME structure; what it found is held here as plain
//! values ([`RawMail`]), and everything after that is decided by verified
//! functions: which header answers a lookup, which parts are bodies, how
//! bodies are joined, which date a message gets.

use crate::text::{
    append_str, chars_of, clone_texts, equal, is_blank, join, join_with, lemma_views_push,
    lowercase, text_of, to_lowercase, trim, trimmed, views,
};
use crate::time::{current_time, representable_seconds, time_from_seconds, Timestamp};
use vstd::prelude::*;

verus! {

/// The start of the message of a parse error.
pub const PARSE_FAILED: &'static str = "failed to parse raw message: ";

/// The header that names the sender.
pub const FROM_HEADER: &'static str = "From";

/// The header that holds the subject.
pub const SUBJECT_HEADER: &'static str = "Subject";

/// The header that holds the date.
pub const DATE_HEADER: &'static str = "Date";

/// The content type of a plain-text body.
pub const TEXT_PLAIN: &'static str = "text/plain";

/// The content type of an HTML body.
pub const TEXT_HTML: &'static str = "text/html";

/// What separates the bodies that are joined into one.
pub const BODY_SEPARATOR: &'static str = "\n";

/// One header line: its name and its decoded value.
#[derive(Debug)]
pub struct RawHeader {
    pub name: String,
    pub value: String,
}

/// One part of a message: how many parts lie directly under it, its content
/// type, and its decoded body where it has one that decodes.
#[derive(Debug)]
pub struct RawPart {
    pub children: usize,
    pub mimetype: String,
    pub body: Option<String>,
}

/// A message as `mailparse` read it: the header lines of the message, and
/// its parts in depth-first order, the message itself first.
#[derive(Debug)]
pub struct RawMail {
    pub headers: Vec<RawHeader>,
    pub parts: Vec<RawPart>,
}

/// The values of the header lines that share one name, in order.
#[derive(Debug)]
pub struct Header {
    pub name: String,
    pub values: Vec<String>,
}

/// A parsed message.
#[derive(Debug)]
pub struct ParsedMessage {
    pub from: String,
    pub subject: String,
    pub date: Timestamp,
    pub text: Option<String>,
    pub html: Option<String>,
    pub headers: Vec<Header>,
}

/// What a [`RawHeader`] holds, as mathematics.
pub struct RawHeaderView {
    pub name: Seq<char>,
    pub value: Seq<char>,
}

/// What a [`RawPart`] holds, as mathematics.
pub struct RawPartView {
    pub children: nat,
    pub mimetype: Seq<char>,
    pub body: Option<Seq<char>>,
}

/// What a [`RawMail`] holds, as mathematics.
pub struct RawMailView {
    pub headers: Seq<RawHeaderView>,
    pub parts: Seq<RawPartView>,
}

/// What a [`Header`] holds, as mathematics.
pub struct HeaderView {
    pub name: Seq<char>,
    pub values: Seq<Seq<char>>,
}

/// What a [`ParsedMessage`] holds, as mathematics.
pub struct ParsedMessageView {
    pub from: Seq<char>,
    pub subject: Seq<char>,
    pub date: Timestamp,
    pub text: Option<Seq<char>>,
    pub html: Option<Seq<char>>,
    pub headers: Seq<HeaderView>,
}

/// The view of a string that may be absent.
pub open spec fn opt_view(o: Option<String>) -> Option<Seq<char>> {
    match o {
        Some(s) => Some(s@),
        None => None,
    }
}

impl View for RawHeader {
    type V = RawHeaderView;

    open spec fn view(&self) -> RawHeaderView {
        RawHeaderView { name: self.name@, value: self.value@ }
    }
}

impl View for RawPart {
    type V = RawPartView;

    open spec fn view(&self) -> RawPartView {
        RawPartView {
            children: self.children as nat,
            mimetype: self.mimetype@,
            body: opt_view(self.body),
        }
    }
}

impl View for RawMail {
    type V = RawMailView;

    open spec fn view(&self) -> RawMailView {
        RawMailView {
            headers: Seq::new(self.headers@.len(), |i: int| self.headers@[i]@),
            parts: Seq::new(self.parts@.len(), |i: int| self.parts@[i]@),
        }
    }
}

impl View for Header {
    type V = HeaderView;

    open spec fn view(&self) -> HeaderView {
        HeaderView { name: self.name@, values: views(self.values@) }
    }
}

/// The views of a vector of headers, in order.
pub open spec fn header_views(v: Seq<Header>) -> Seq<HeaderView> {
    Seq::new(v.len(), |i: int| v[i]@)
}

impl View for ParsedMessage {
    type V = ParsedMessageView;

    open spec fn view(&self) -> ParsedMessageView {
        ParsedMessageView {
            from: self.from@,
            subject: self.subject@,
            date: self.date,
            text: opt_view(self.text),
            html: opt_view(self.html),
            headers: header_views(self.headers@),
        }
    }
}

/// Pushing a header onto a vector of headers pushes its view onto the views.
pub proof fn lemma_header_views_push(v: Seq<Header>, x: Header)
    ensures
        header_views(v.push(x)) == header_views(v).push(x@),
{
    assert(header_views(v.push(x)) =~= header_views(v).push(x@));
}

impl Clone for Header {
    fn clone(&self) -> (r: Self)
        ensures
            r@ == self@,
    {
        Header { name: self.name.clone(), values: clone_texts(&self.values) }
    }
}

impl Clone for ParsedMessage {
    fn clone(&self) -> (r: Self)
        ensures
            r@ == self@,
    {
        ParsedMessage {
            from: self.from.clone(),
            subject: self.subject.clone(),
            date: self.date,
            text: clone_opt(&self.text),
            html: clone_opt(&self.html),
            headers: clone_headers(&self.headers),
        }
    }
}

/// A copy of the headers.
pub fn clone_headers(headers: &Vec<Header>) -> (r: Vec<Header>)
    ensures
        header_views(r@) == header_views(headers@),
{
    let mut r: Vec<Header> = Vec::new();
    let mut i: usize = 0;
    while i < headers.len()
        invariant
            i <= headers.len(),
            header_views(r@) == header_views(headers@).take(i as int),
        decreases headers.len() - i,
    {
        let header = headers[i].clone();
        proof {
            lemma_header_views_push(r@, header);
            assert(header_views(headers@).take(i as int).push(header@) =~= header_views(
                headers@,
            ).take(i + 1));
        }
        r.push(header);
        i += 1;
    }
    assert(header_views(headers@).take(headers.len() as int) =~= header_views(headers@));
    r
}

/// A copy of a string that may be absent.
pub fn clone_opt(o: &Option<String>) -> (r: Option<String>)
    ensures
        opt_view(r) == opt_view(*o),
{
    match o {
        Some(s) => Some(s.clone()),
        None => None,
    }
}

/// What `mailparse::parse_mail` makes of the bytes: the header lines and the
/// parts that it found, or the text of its error.
pub uninterp spec fn mail_structure(raw: Seq<u8>) -> Result<RawMailView, Seq<char>>;

/// The seconds since the epoch that `mailparse::dateparse` reads from a
/// `Date` header, where it reads any.
pub uninterp spec fn header_date_seconds(date: Seq<char>) -> Option<i64>;

/// The view of what reading a message gave.
pub open spec fn raw_mail_view(r: Result<RawMail, String>) -> Result<RawMailView, Seq<char>> {
    match r {
        Ok(mail) => Ok(mail@),
        Err(e) => Err(e@),
        }
}

/// Reads a message with `mailparse::parse_mail` and copies out what the
/// library uses: of each header line of the message its name (`get_key`) and
/// value (`get_value`); of each part, in the order of `parts()`, the number
/// of its subparts, its content type and its body (`get_body`, absent where
/// that fails). An error comes back as its text.
#[verifier::external_body]
fn read_mail(raw: &[u8]) -> (r: Result<RawMail, String>)
    ensures
        raw_mail_view(r) == mail_structure(raw@),
{
    let mail = mailparse::parse_mail(raw).map_err(|e| e.to_string())?;
    let headers = mail.headers.iter().map(
        |h| RawHeader { name: h.get_key(), value: h.get_value() },
    ).collect();
    let parts = mail.parts().map(
        |p|
            RawPart {
                children: p.subparts.len(),
                mimetype: p.ctype.mimetype.clone(),
                body: p.get_body().ok(),
            },
    ).collect();
    Ok(RawMail { headers, parts })
}

/// Reads a `Date` header with `mailparse::dateparse`.
#[verifier::external_body]
fn read_date(date: &str) -> (r: Option<i64>)
    ensures
        r == header_date_seconds(date@),
{
    mailparse::dateparse(date).ok()
}

/// The headers after one more line: its value joins the header of its name,
/// or starts a new header at the end.
pub open spec fn with_line(headers: Seq<HeaderView>, line: RawHeaderView) -> Seq<HeaderView>
    decreases headers.len(),
{
    if headers.len() == 0 {
        seq![HeaderView { name: line.name, values: seq![line.value] }]
    } else if headers[0].name == line.name {
        seq![HeaderView { name: line.name, values: headers[0].values.push(line.value) }]
            + headers.drop_first()
    } else {
        seq![headers[0]] + with_line(headers.drop_first(), line)
    }
}

/// The header lines grouped by name: names in the order in which they first
/// appear, under each the values of its lines in order.
pub open spec fn grouped(lines: Seq<RawHeaderView>) -> Seq<HeaderView>
    decreases lines.len(),
{
    if lines.len() == 0 {
        Seq::empty()
    } else {
        with_line(grouped(lines.drop_last()), lines.last())
    }
}

/// Whether two header names are the same but for ASCII case.
pub open spec fn same_name(a: Seq<char>, b: Seq<char>) -> bool {
    lowercase(a) == lowercase(b)
}

/// The first value of the first header of that name that has any value.
pub open spec fn first_header(headers: Seq<HeaderView>, key: Seq<char>) -> Option<Seq<char>>
    decreases headers.len(),
{
    if headers.len() == 0 {
        None
    } else if same_name(headers[0].name, key) && headers[0].values.len() > 0 {
        Some(headers[0].values[0])
    } else {
        first_header(headers.drop_first(), key)
    }
}

/// Whether a part is a body of the given type: a part without subparts, of
/// that content type but for case, whose body decoded and is not blank.
pub open spec fn is_body_of(part: RawPartView, mimetype: Seq<char>) -> bool {
    &&& part.children == 0
    &&& lowercase(part.mimetype) == mimetype
    &&& part.body matches Some(b) && !is_blank(b)
}

/// The bodies of the given type among the parts, in order.
pub open spec fn bodies_of(parts: Seq<RawPartView>, mimetype: Seq<char>) -> Seq<Seq<char>>
    decreases parts.len(),
{
    if parts.len() == 0 {
        Seq::empty()
    } else if is_body_of(parts.last(), mimetype) {
        bodies_of(parts.drop_last(), mimetype).push(parts.last().body->0)
    } else {
        bodies_of(parts.drop_last(), mimetype)
    }
}

/// The parts trimmed, without those of which nothing is left.
pub open spec fn trimmed_parts(parts: Seq<Seq<char>>) -> Seq<Seq<char>>
    decreases parts.len(),
{
    if parts.len() == 0 {
        Seq::empty()
    } else if trimmed(parts.last()).len() > 0 {
        trimmed_parts(parts.drop_last()).push(trimmed(parts.last()))
    } else {
        trimmed_parts(parts.drop_last())
    }
}

/// The parts trimmed and joined by line feeds; absent where nothing is left.
pub open spec fn joined_parts(parts: Seq<Seq<char>>) -> Option<Seq<char>> {
    let joined: Seq<char> = join(trimmed_parts(parts), BODY_SEPARATOR@);
    if joined.len() == 0 {
        None
    } else {
        Some(joined)
    }
}

/// The date that a header gives: the time that `seconds` names where the
/// header was read and the calendar holds that time, else `now`.
pub open spec fn date_or_now(seconds: Option<i64>, now: Timestamp) -> Timestamp {
    match seconds {
        Some(secs) => if representable_seconds(secs) {
            Timestamp { secs: secs, nanos: 0 }
        } else {
            now
        },
        None => now,
    }
}

/// The date of a message: what its `Date` header gives, or `now` without one.
pub open spec fn message_date(header: Option<Seq<char>>, now: Timestamp) -> Timestamp {
    match header {
        Some(h) => date_or_now(header_date_seconds(h), now),
        None => now,
    }
}

/// A header's value, or nothing where the header is absent.
pub open spec fn value_or_empty(value: Option<Seq<char>>) -> Seq<char> {
    match value {
        Some(v) => v,
        None => Seq::empty(),
    }
}

/// The record that a message read at `now` gives.
pub open spec fn message_of(mail: RawMailView, now: Timestamp) -> ParsedMessageView {
    let headers: Seq<HeaderView> = grouped(mail.headers);
    ParsedMessageView {
        from: trimmed(value_or_empty(first_header(headers, FROM_HEADER@))),
        subject: trimmed(value_or_empty(first_header(headers, SUBJECT_HEADER@))),
        date: message_date(first_header(headers, DATE_HEADER@), now),
        text: joined_parts(bodies_of(mail.parts, TEXT_PLAIN@)),
        html: joined_parts(bodies_of(mail.parts, TEXT_HTML@)),
        headers,
    }
}

/// The views of a vector of header lines, in order.
pub open spec fn line_views(v: Seq<RawHeader>) -> Seq<RawHeaderView> {
    Seq::new(v.len(), |i: int| v[i]@)
}

/// The views of a vector of parts, in order.
pub open spec fn part_views(v: Seq<RawPart>) -> Seq<RawPartView> {
    Seq::new(v.len(), |i: int| v[i]@)
}

/// A line whose name is new starts a header at the end.
pub proof fn lemma_with_line_new(headers: Seq<HeaderView>, line: RawHeaderView)
    requires
        forall|i: int| 0 <= i < headers.len() ==> (#[trigger] headers[i]).name != line.name,
    ensures
        with_line(headers, line) == headers.push(
            HeaderView { name: line.name, values: seq![line.value] },
        ),
    decreases headers.len(),
{
    let fresh = HeaderView { name: line.name, values: seq![line.value] };
    if headers.len() == 0 {
        assert(headers.push(fresh) =~= seq![fresh]);
    } else {
        let rest = headers.drop_first();
        assert forall|i: int| 0 <= i < rest.len() implies (#[trigger] rest[i]).name
            != line.name by {
            assert(rest[i] == headers[i + 1]);
        }
        lemma_with_line_new(rest, line);
        assert(seq![headers[0]] + rest.push(fresh) =~= headers.push(fresh));
    }
}

/// A line whose name is known adds its value to the first header of that
/// name.
pub proof fn lemma_with_line_known(headers: Seq<HeaderView>, line: RawHeaderView, k: int)
    requires
        0 <= k < headers.len(),
        headers[k].name == line.name,
        forall|i: int| 0 <= i < k ==> (#[trigger] headers[i]).name != line.name,
    ensures
        with_line(headers, line) == headers.update(
            k,
            HeaderView { name: line.name, values: headers[k].values.push(line.value) },
        ),
    decreases k,
{
    let grown = HeaderView { name: line.name, values: headers[k].values.push(line.value) };
    let rest = headers.drop_first();
    if k == 0 {
        assert(seq![grown] + rest =~= headers.update(0, grown));
    } else {
        assert forall|i: int| 0 <= i < k - 1 implies (#[trigger] rest[i]).name != line.name by {
            assert(rest[i] == headers[i + 1]);
        }
        assert(rest[k - 1] == headers[k]);
        lemma_with_line_known(rest, line, k - 1);
        assert(seq![headers[0]] + rest.update(k - 1, grown) =~= headers.update(k, grown));
    }
}

/// The names of the headers, in order.
pub open spec fn header_names(headers: Seq<HeaderView>) -> Seq<Seq<char>> {
    Seq::new(headers.len(), |i: int| headers[i].name)
}

/// One more line keeps the names of the headers distinct, keeps each header
/// non-empty, and adds at most the name of the line.
pub proof fn lemma_with_line_keeps_names_distinct(headers: Seq<HeaderView>, line: RawHeaderView)
    requires
        header_names(headers).no_duplicates(),
        forall|i: int| 0 <= i < headers.len() ==> (#[trigger] headers[i]).values.len() > 0,
    ensures
        header_names(with_line(headers, line)).no_duplicates(),
        forall|i: int|
            0 <= i < with_line(headers, line).len() ==> (#[trigger] with_line(
                headers,
                line,
            )[i]).values.len() > 0,
        forall|i: int|
            0 <= i < with_line(headers, line).len() ==> (#[trigger] with_line(
                headers,
                line,
            )[i]).name == line.name || header_names(headers).contains(
                with_line(headers, line)[i].name,
            ),
    decreases headers.len(),
{
    let out = with_line(headers, line);
    if headers.len() == 0 {
    } else if headers[0].name == line.name {
        assert forall|i: int, j: int|
            0 <= i < out.len() && 0 <= j < out.len() && i != j implies header_names(out)[i]
            != header_names(out)[j] by {
            assert(header_names(out)[i] == header_names(headers)[i]);
            assert(header_names(out)[j] == header_names(headers)[j]);
        }
        assert forall|i: int| 0 <= i < out.len() implies (#[trigger] out[i]).name == line.name
            || header_names(headers).contains(out[i].name) by {
            assert(header_names(headers)[i] == out[i].name);
        }
        assert forall|i: int| 0 <= i < out.len() implies (#[trigger] out[i]).values.len()
            > 0 by {
            if i > 0 {
                assert(out[i] == headers[i]);
            }
        }
    } else {
        let rest = headers.drop_first();
        assert forall|i: int, j: int|
            0 <= i < rest.len() && 0 <= j < rest.len() && i != j implies header_names(rest)[i]
            != header_names(rest)[j] by {
            assert(header_names(rest)[i] == header_names(headers)[i + 1]);
            assert(header_names(rest)[j] == header_names(headers)[j + 1]);
        }
        assert forall|i: int| 0 <= i < rest.len() implies (#[trigger] rest[i]).values.len()
            > 0 by {
            assert(rest[i] == headers[i + 1]);
        }
        lemma_with_line_keeps_names_distinct(rest, line);
        let tail = with_line(rest, line);
        assert forall|i: int| 0 <= i < out.len() implies (#[trigger] out[i]).name == line.name
            || header_names(headers).contains(out[i].name) by {
            if i == 0 {
                assert(header_names(headers)[0] == out[0].name);
            } else {
                assert(out[i] == tail[i - 1]);
                if tail[i - 1].name != line.name {
                    let k = choose|k: int|
                        0 <= k < rest.len() && header_names(rest)[k] == tail[i - 1].name;
                    assert(header_names(headers)[k + 1] == out[i].name);
                }
            }
        }
        assert forall|i: int, j: int|
            0 <= i < out.len() && 0 <= j < out.len() && i != j implies header_names(out)[i]
            != header_names(out)[j] by {
            if i > 0 && j > 0 {
                assert(header_names(out)[i] == header_names(tail)[i - 1]);
                assert(header_names(out)[j] == header_names(tail)[j - 1]);
            } else {
                let k = if i == 0 {
                    j
                } else {
                    i
                };
                assert(out[k] == tail[k - 1]);
                assert(header_names(out)[0] == headers[0].name);
                assert(header_names(out)[k] == tail[k - 1].name);
                if tail[k - 1].name != line.name {
                    let a = choose|a: int|
                        0 <= a < rest.len() && header_names(rest)[a] == tail[k - 1].name;
                    assert(header_names(headers)[a + 1] == tail[k - 1].name);
                    assert(header_names(headers)[0] == headers[0].name);
                }
            }
        }
        assert forall|i: int| 0 <= i < out.len() implies (#[trigger] out[i]).values.len()
            > 0 by {
            if i > 0 {
                assert(out[i] == tail[i - 1]);
            }
        }
    }
}

/// Grouped headers are a map in all but name: no two have the same name,
/// and each holds a value.
pub proof fn lemma_grouped_names_distinct(lines: Seq<RawHeaderView>)
    ensures
        header_names(grouped(lines)).no_duplicates(),
        forall|i: int|
            0 <= i < grouped(lines).len() ==> (#[trigger] grouped(lines)[i]).values.len() > 0,
    decreases lines.len(),
{
    if lines.len() > 0 {
        lemma_grouped_names_distinct(lines.drop_last());
        lemma_with_line_keeps_names_distinct(grouped(lines.drop_last()), lines.last());
    }
}

/// Groups header lines by name.
pub fn extract_headers(lines: &Vec<RawHeader>) -> (r: Vec<Header>)
    ensures
        header_views(r@) == grouped(line_views(lines@)),
{
    let mut out: Vec<Header> = Vec::new();
    let mut i: usize = 0;
    assert(line_views(lines@).take(0) =~= Seq::<RawHeaderView>::empty());
    assert(header_views(out@) =~= Seq::<HeaderView>::empty());
    while i < lines.len()
        invariant
            i <= lines.len(),
            header_views(out@) == grouped(line_views(lines@).take(i as int)),
        decreases lines.len() - i,
    {
        let line = &lines[i];
        let ghost seen = line_views(lines@).take(i as int);
        let ghost next = line_views(lines@).take(i + 1);
        let ghost before = header_views(out@);
        proof {
            assert(next.drop_last() =~= seen);
            assert(next.last() == line@);
        }
        let mut k: usize = 0;
        while k < out.len() && out[k].name != line.name
            invariant
                k <= out.len(),
                forall|j: int| 0 <= j < k ==> (#[trigger] header_views(out@)[j]).name != line@.name,
            decreases out.len() - k,
        {
            k += 1;
        }
        if k < out.len() {
            let mut header = out.remove(k);
            let ghost known = header@;
            let value = line.value.clone();
            proof {
                assert(known == before[k as int]);
                lemma_views_push(header.values@, value);
                lemma_with_line_known(before, line@, k as int);
            }
            header.values.push(value);
            out.insert(k, header);
            assert(header_views(out@) =~= before.update(
                k as int,
                HeaderView { name: line@.name, values: known.values.push(line@.value) },
            ));
        } else {
            let mut values: Vec<String> = Vec::new();
            values.push(line.value.clone());
            let header = Header { name: line.name.clone(), values };
            proof {
                assert(header@.values =~= seq![line@.value]);
                lemma_with_line_new(before, line@);
                lemma_header_views_push(out@, header);
            }
            out.push(header);
        }
        i += 1;
    }
    assert(line_views(lines@).take(lines.len() as int) =~= line_views(lines@));
    out
}

/// The first value of the first header that has the name `key`, but for
/// ASCII case.
pub fn find_first_header(headers: &Vec<Header>, key: &str) -> (r: Option<String>)
    ensures
        opt_view(r) == first_header(header_views(headers@), key@),
{
    let wanted = to_lowercase(&chars_of(key));
    let mut i: usize = 0;
    let ghost all = header_views(headers@);
    assert(all.skip(0) =~= all);
    while i < headers.len()
        invariant
            i <= headers.len(),
            all == header_views(headers@),
            wanted@ == lowercase(key@),
            first_header(all, key@) == first_header(all.skip(i as int), key@),
        decreases headers.len() - i,
    {
        let header = &headers[i];
        let name = to_lowercase(&chars_of(header.name.as_str()));
        proof {
            let rest = all.skip(i as int);
            assert(rest[0] == header@);
            assert(rest.drop_first() =~= all.skip(i + 1));
        }
        if equal(&name, &wanted) && header.values.len() > 0 {
            assert(header@.values[0] == header.values@[0]@);
            return Some(header.values[0].clone());
        }
        i += 1;
    }
    None
}

/// Gathers the plain-text and the HTML bodies among the parts of a message.
///
/// A body is a part without subparts whose content type is `text/plain` or
/// `text/html`, in any case, and whose decoded body is not blank. Each is
/// appended, untrimmed, to the list of its type; the parts are visited in
/// depth-first order.
pub fn collect_body_parts(
    parts: &Vec<RawPart>,
    text_parts: &mut Vec<String>,
    html_parts: &mut Vec<String>,
)
    ensures
        views(final(text_parts)@) == views(old(text_parts)@) + bodies_of(
            part_views(parts@),
            TEXT_PLAIN@,
        ),
        views(final(html_parts)@) == views(old(html_parts)@) + bodies_of(
            part_views(parts@),
            TEXT_HTML@,
        ),
{
    let plain = chars_of(TEXT_PLAIN);
    let html = chars_of(TEXT_HTML);
    let ghost all = part_views(parts@);
    proof {
        reveal_strlit("text/plain");
        reveal_strlit("text/html");
        assert(TEXT_PLAIN@.len() != TEXT_HTML@.len());
    }
    let mut i: usize = 0;
    assert(all.take(0) =~= Seq::<RawPartView>::empty());
    assert(views(text_parts@) + Seq::<Seq<char>>::empty() =~= views(text_parts@));
    assert(views(html_parts@) + Seq::<Seq<char>>::empty() =~= views(html_parts@));
    while i < parts.len()
        invariant
            i <= parts.len(),
            all == part_views(parts@),
            plain@ == TEXT_PLAIN@,
            html@ == TEXT_HTML@,
            TEXT_PLAIN@ != TEXT_HTML@,
            views(text_parts@) == views(old(text_parts)@) + bodies_of(
                all.take(i as int),
                TEXT_PLAIN@,
            ),
            views(html_parts@) == views(old(html_parts)@) + bodies_of(
                all.take(i as int),
                TEXT_HTML@,
            ),
        decreases parts.len() - i,
    {
        let part = &parts[i];
        proof {
            let next = all.take(i + 1);
            assert(next.drop_last() =~= all.take(i as int));
            assert(next.last() == part@);
        }
        if part.children == 0 {
            let kind = to_lowercase(&chars_of(part.mimetype.as_str()));
            let is_plain = equal(&kind, &plain);
            let is_html = equal(&kind, &html);
            if is_plain || is_html {
                match &part.body {
                    Some(body) => {
                        if !crate::text::blank(&chars_of(body.as_str())) {
                            let copy = body.clone();
                            if is_plain {
                                proof {
                                    lemma_views_push(text_parts@, copy);
                                    assert((views(old(text_parts)@) + bodies_of(
                                        all.take(i as int),
                                        TEXT_PLAIN@,
                                    )).push(copy@) =~= views(old(text_parts)@) + bodies_of(
                                        all.take(i as int),
                                        TEXT_PLAIN@,
                                    ).push(copy@));
                                }
                                text_parts.push(copy);
                            } else {
                                proof {
                                    lemma_views_push(html_parts@, copy);
                                    assert((views(old(html_parts)@) + bodies_of(
                                        all.take(i as int),
                                        TEXT_HTML@,
                                    )).push(copy@) =~= views(old(html_parts)@) + bodies_of(
                                        all.take(i as int),
                                        TEXT_HTML@,
                                    ).push(copy@));
                                }
                                html_parts.push(copy);
                            }
                        }
                    },
                    None => {},
                }
            }
        }
        i += 1;
    }
    assert(all.take(parts.len() as int) =~= all);
}

/// Trims the parts, drops those of which nothing is left and joins the rest
/// by line feeds; `None` where the result is empty.
pub fn join_parts(parts: Vec<String>) -> (r: Option<String>)
    ensures
        opt_view(r) == joined_parts(views(parts@)),
{
    let mut kept: Vec<Vec<char>> = Vec::new();
    let mut i: usize = 0;
    let ghost all = views(parts@);
    assert(all.take(0) =~= Seq::<Seq<char>>::empty());
    assert(crate::text::char_views(kept@) =~= Seq::<Seq<char>>::empty());
    while i < parts.len()
        invariant
            i <= parts.len(),
            all == views(parts@),
            crate::text::char_views(kept@) == trimmed_parts(all.take(i as int)),
        decreases parts.len() - i,
    {
        let t = trim(&chars_of(parts[i].as_str()));
        proof {
            let next = all.take(i + 1);
            assert(next.drop_last() =~= all.take(i as int));
            assert(next.last() == parts@[i as int]@);
        }
        if t.len() > 0 {
            proof {
                crate::text::lemma_char_views_push(kept@, t);
            }
            kept.push(t);
        }
        i += 1;
    }
    assert(all.take(parts.len() as int) =~= all);
    let joined = join_with(&kept, &chars_of(BODY_SEPARATOR));
    if joined.len() == 0 {
        None
    } else {
        Some(text_of(&joined))
    }
}

/// The date of a message: the time that its `Date` header names, where
/// there is one, it can be read and the calendar holds it; else `now`.
pub fn parse_date(date_header: Option<&str>, now: Timestamp) -> (r: Timestamp)
    ensures
        r == message_date(
            match date_header {
                Some(h) => Some(h@),
                None => None,
            },
            now,
        ),
{
    let header = match date_header {
        Some(h) => h,
        None => {
            return now;
        },
    };
    match read_date(header) {
        Some(secs) => match time_from_seconds(secs) {
            Some(t) => t,
            None => now,
        },
        None => now,
    }
}

/// The record that a message read at `now` gives.
pub fn message_from(mail: &RawMail, now: Timestamp) -> (r: ParsedMessage)
    ensures
        r@ == message_of(mail@, now),
{
    let headers = extract_headers(&mail.headers);
    assert(line_views(mail.headers@) =~= mail@.headers);
    assert(part_views(mail.parts@) =~= mail@.parts);
    let from = match find_first_header(&headers, FROM_HEADER) {
        Some(v) => v,
        None => String::new(),
    };
    let subject = match find_first_header(&headers, SUBJECT_HEADER) {
        Some(v) => v,
        None => String::new(),
    };
    let date = match find_first_header(&headers, DATE_HEADER) {
        Some(v) => parse_date(Some(v.as_str()), now),
        None => parse_date(None, now),
    };
    let mut text_parts: Vec<String> = Vec::new();
    let mut html_parts: Vec<String> = Vec::new();
    collect_body_parts(&mail.parts, &mut text_parts, &mut html_parts);
    proof {
        assert(views(text_parts@) =~= bodies_of(mail@.parts, TEXT_PLAIN@));
        assert(views(html_parts@) =~= bodies_of(mail@.parts, TEXT_HTML@));
    }
    let text = join_parts(text_parts);
    let html = join_parts(html_parts);
    ParsedMessage {
        from: text_of(&trim(&chars_of(from.as_str()))),
        subject: text_of(&trim(&chars_of(subject.as_str()))),
        date,
        text,
        html,
        headers,
    }
}

/// What parsing at `now` gives: the record of the message, or the message of
/// the error.
pub open spec fn parse_spec(raw: Seq<u8>, now: Timestamp) -> Result<ParsedMessageView, Seq<char>> {
    match mail_structure(raw) {
        Ok(mail) => Ok(message_of(mail, now)),
        Err(e) => Err(PARSE_FAILED@ + e),
    }
}

/// The view of what parsing gave.
pub open spec fn parsed_view(r: Result<ParsedMessage, String>) -> Result<
    ParsedMessageView,
    Seq<char>,
> {
    match r {
        Ok(m) => Ok(m@),
        Err(e) => Err(e@),
    }
}

/// Parses a raw message; a missing or unreadable date becomes `now`.
pub fn parse_at(raw: &[u8], now: Timestamp) -> (r: Result<ParsedMessage, String>)
    ensures
        parsed_view(r) == parse_spec(raw@, now),
{
    match read_mail(raw) {
        Ok(mail) => Ok(message_from(&mail, now)),
        Err(e) => {
            let mut msg = chars_of(PARSE_FAILED);
            append_str(&mut msg, e.as_str());
            Err(text_of(&msg))
        },
    }
}

/// Parses a raw message; a missing or unreadable date becomes the current
/// time.
pub fn parse(raw: &[u8]) -> (r: Result<ParsedMessage, String>)
    ensures
        exists|now: Timestamp| parsed_view(r) == parse_spec(raw@, now),
{
    let now = current_time();
    parse_at(raw, now)
}

} // verus!
