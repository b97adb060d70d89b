//! Stored messages, their summaries and the preview of a body.

use crate::mail_parser::{clone_headers, clone_opt, header_views, opt_view, Header, HeaderView};
use crate::text::{
    append, append_str, chars_of, find, is_blank, join, join_with, slice, split_words, text_of,
    trim, trimmed, words,
};
use crate::time::Timestamp;
use vstd::prelude::*;

verus! {

/// How many characters of a body a preview shows.
pub const PREVIEW_CHARS: usize = 120;

/// What follows a preview that was cut short.
pub const ELLIPSIS: &'static str = "...";

/// What stands between the words of a preview.
pub const WORD_GAP: &'static str = " ";

/// A message as the store keeps it.
#[derive(Debug)]
pub struct Message {
    pub id: String,
    pub mailbox: String,
    pub to: String,
    pub from: String,
    pub subject: String,
    pub date: Timestamp,
    pub text: Option<String>,
    pub html: Option<String>,
    pub headers: Vec<Header>,
    pub received_at: Timestamp,
}

/// What a list of messages shows of each.
#[derive(Debug)]
pub struct MessageSummary {
    pub id: String,
    pub from: String,
    pub subject: String,
    pub date: Timestamp,
    pub has_html: bool,
    pub preview: String,
    pub received_at: Timestamp,
}

/// What a [`Message`] holds, as mathematics.
pub struct MessageView {
    pub id: Seq<char>,
    pub mailbox: Seq<char>,
    pub to: Seq<char>,
    pub from: Seq<char>,
    pub subject: Seq<char>,
    pub date: Timestamp,
    pub text: Option<Seq<char>>,
    pub html: Option<Seq<char>>,
    pub headers: Seq<HeaderView>,
    pub received_at: Timestamp,
}

/// What a [`MessageSummary`] holds, as mathematics.
pub struct MessageSummaryView {
    pub id: Seq<char>,
    pub from: Seq<char>,
    pub subject: Seq<char>,
    pub date: Timestamp,
    pub has_html: bool,
    pub preview: Seq<char>,
    pub received_at: Timestamp,
}

impl View for Message {
    type V = MessageView;

    open spec fn view(&self) -> MessageView {
        MessageView {
            id: self.id@,
            mailbox: self.mailbox@,
            to: self.to@,
            from: self.from@,
            subject: self.subject@,
            date: self.date,
            text: opt_view(self.text),
            html: opt_view(self.html),
            headers: header_views(self.headers@),
            received_at: self.received_at,
        }
    }
}

impl View for MessageSummary {
    type V = MessageSummaryView;

    open spec fn view(&self) -> MessageSummaryView {
        MessageSummaryView {
            id: self.id@,
            from: self.from@,
            subject: self.subject@,
            date: self.date,
            has_html: self.has_html,
            preview: self.preview@,
            received_at: self.received_at,
        }
    }
}

/// The views of a vector of messages, in order.
pub open spec fn message_views(v: Seq<Message>) -> Seq<MessageView> {
    Seq::new(v.len(), |i: int| v[i]@)
}

/// The views of a vector of summaries, in order.
pub open spec fn summary_views(v: Seq<MessageSummary>) -> Seq<MessageSummaryView> {
    Seq::new(v.len(), |i: int| v[i]@)
}

/// Pushing a message onto a vector pushes its view onto the views.
pub proof fn lemma_message_views_push(v: Seq<Message>, x: Message)
    ensures
        message_views(v.push(x)) == message_views(v).push(x@),
{
    assert(message_views(v.push(x)) =~= message_views(v).push(x@));
}

impl Clone for Message {
    fn clone(&self) -> (r: Self)
        ensures
            r@ == self@,
    {
        Message {
            id: self.id.clone(),
            mailbox: self.mailbox.clone(),
            to: self.to.clone(),
            from: self.from.clone(),
            subject: self.subject.clone(),
            date: self.date,
            text: clone_opt(&self.text),
            html: clone_opt(&self.html),
            headers: clone_headers(&self.headers),
            received_at: self.received_at,
        }
    }
}

impl Clone for MessageSummary {
    fn clone(&self) -> (r: Self)
        ensures
            r@ == self@,
    {
        MessageSummary {
            id: self.id.clone(),
            from: self.from.clone(),
            subject: self.subject.clone(),
            date: self.date,
            has_html: self.has_html,
            preview: self.preview.clone(),
            received_at: self.received_at,
        }
    }
}

/// `s` with every tag replaced by one space. A tag runs from a `<` to the
/// first `>` after it; a `<` with no `>` after it starts no tag.
pub open spec fn strip_tags(s: Seq<char>) -> Seq<char>
    decreases s.len(),
{
    if s.len() == 0 {
        s
    } else if s[0] == '<' {
        let close: int = find(s.drop_first(), '>');
        if 0 <= close < s.len() - 1 {
            seq![' '] + strip_tags(s.skip(close + 2))
        } else {
            s
        }
    } else {
        seq![s[0]] + strip_tags(s.drop_first())
    }
}

/// The text or nothing.
pub open spec fn text_or_empty(o: Option<Seq<char>>) -> Seq<char> {
    match o {
        Some(s) => s,
        None => Seq::empty(),
    }
}

/// What a preview is made from: the text, or the HTML without its tags where
/// the text is absent or blank; either trimmed.
pub open spec fn preview_source(text: Option<Seq<char>>, html: Option<Seq<char>>) -> Seq<char> {
    let plain: Seq<char> = trimmed(text_or_empty(text));
    if plain.len() > 0 {
        plain
    } else {
        trimmed(strip_tags(text_or_empty(html)))
    }
}

/// `s` cut to `limit` characters, with an ellipsis where something was cut.
pub open spec fn truncated(s: Seq<char>, limit: int) -> Seq<char> {
    if s.len() > limit {
        s.take(limit) + ELLIPSIS@
    } else {
        s
    }
}

/// The preview of a message: its source with every run of whitespace
/// collapsed to one space, cut to 120 characters.
pub open spec fn preview_of(text: Option<Seq<char>>, html: Option<Seq<char>>) -> Seq<char> {
    truncated(join(words(preview_source(text, html)), WORD_GAP@), PREVIEW_CHARS as int)
}

/// Whether a message has an HTML body that is not blank.
pub open spec fn has_html_body(html: Option<Seq<char>>) -> bool {
    html matches Some(h) && !is_blank(h)
}

/// The summary of a message.
pub open spec fn summary_of(m: MessageView) -> MessageSummaryView {
    MessageSummaryView {
        id: m.id,
        from: m.from,
        subject: m.subject,
        date: m.date,
        has_html: has_html_body(m.html),
        preview: preview_of(m.text, m.html),
        received_at: m.received_at,
    }
}

/// Replaces every tag by one space.
pub fn remove_tags(v: &Vec<char>) -> (r: Vec<char>)
    ensures
        r@ == strip_tags(v@),
{
    let mut out: Vec<char> = Vec::new();
    let mut i: usize = 0;
    assert(v@.skip(0) =~= v@);
    assert(out@ + strip_tags(v@) =~= strip_tags(v@));
    while i < v.len()
        invariant
            i <= v.len(),
            strip_tags(v@) == out@ + strip_tags(v@.skip(i as int)),
        decreases v.len() - i,
    {
        let ghost rest = v@.skip(i as int);
        let ghost done = out@;
        assert(rest[0] == v@[i as int]);
        if v[i] == '<' {
            let mut j: usize = i + 1;
            while j < v.len() && v[j] != '>'
                invariant
                    i < j <= v.len(),
                    forall|k: int| i < k < j ==> #[trigger] v@[k] != '>',
                decreases v.len() - j,
            {
                j += 1;
            }
            proof {
                let inner = rest.drop_first();
                assert forall|k: int| 0 <= k < j - i - 1 implies #[trigger] inner[k] != '>' by {
                    assert(inner[k] == v@[i + 1 + k]);
                }
                if j < v.len() {
                    assert(inner[j - i - 1] == v@[j as int]);
                }
                crate::text::lemma_find_is(inner, '>', j - i - 1);
            }
            if j < v.len() {
                out.push(' ');
                proof {
                    assert(rest.skip(j - i + 1) =~= v@.skip(j + 1));
                    assert(done.push(' ') + strip_tags(v@.skip(j + 1)) =~= done + (seq![' ']
                        + strip_tags(v@.skip(j + 1))));
                }
                i = j + 1;
            } else {
                let tail = slice(v, i, v.len());
                append(&mut out, &tail);
                proof {
                    assert(tail@ =~= rest);
                    assert(strip_tags(v@.skip(v.len() as int)) =~= Seq::<char>::empty());
                    assert(out@ + Seq::<char>::empty() =~= out@);
                }
                i = v.len();
            }
        } else {
            out.push(v[i]);
            proof {
                assert(rest.drop_first() =~= v@.skip(i + 1));
                assert(done.push(v@[i as int]) + strip_tags(v@.skip(i + 1)) =~= done + (
                seq![v@[i as int]] + strip_tags(v@.skip(i + 1))));
            }
            i += 1;
        }
    }
    proof {
        assert(strip_tags(v@.skip(v.len() as int)) =~= Seq::<char>::empty());
        assert(out@ + Seq::<char>::empty() =~= out@);
    }
    out
}

fn chars_or_empty(o: Option<&str>) -> (r: Vec<char>)
    ensures
        r@ == text_or_empty(
            match o {
                Some(s) => Some(s@),
                None => None,
            },
        ),
{
    match o {
        Some(s) => chars_of(s),
        None => Vec::new(),
    }
}

/// The preview of a body: the text, or the HTML without its tags where the
/// text is absent or blank, with every run of whitespace collapsed to one
/// space, cut to 120 characters and then followed by `...`.
pub fn build_preview(text: Option<&str>, html: Option<&str>) -> (r: String)
    ensures
        r@ == preview_of(
            match text {
                Some(s) => Some(s@),
                None => None,
            },
            match html {
                Some(s) => Some(s@),
                None => None,
            },
        ),
{
    let mut source = trim(&chars_or_empty(text));
    if source.len() == 0 {
        source = trim(&remove_tags(&chars_or_empty(html)));
    }
    let collapsed = join_with(&split_words(&source), &chars_of(WORD_GAP));
    if collapsed.len() > PREVIEW_CHARS {
        let mut cut = slice(&collapsed, 0, PREVIEW_CHARS);
        append_str(&mut cut, ELLIPSIS);
        text_of(&cut)
    } else {
        text_of(&collapsed)
    }
}

fn as_text(o: &Option<String>) -> (r: Option<&str>)
    ensures
        match r {
            Some(s) => opt_view(*o) == Some(s@),
            None => opt_view(*o) is None,
        },
{
    match o {
        Some(s) => Some(s.as_str()),
        None => None,
    }
}

impl Message {
    /// What a list shows of this message.
    pub fn summary(&self) -> (r: MessageSummary)
        ensures
            r@ == summary_of(self@),
    {
        let preview = build_preview(as_text(&self.text), as_text(&self.html));
        let has_html = match &self.html {
            Some(h) => !crate::text::blank(&chars_of(h.as_str())),
            None => false,
        };
        MessageSummary {
            id: self.id.clone(),
            from: self.from.clone(),
            subject: self.subject.clone(),
            date: self.date,
            has_html,
            preview,
            received_at: self.received_at,
        }
    }
}

} // verus!
