//! What the HTTP read API decides: which mailbox a request names, what it
//! reads from or removes from the store, what it answers, which static file
//! a path stands for, and how a long poll goes on.
//!
//! Routing, JSON and the event channel belong to the caller; it hands over
//! plain values and gets plain values back.

use crate::address::{normalize_mailbox, normalize_mailbox_spec};
use crate::config::Config;
use crate::message::{
    message_views, summary_of, summary_views, Message, MessageSummary, MessageSummaryView,
    MessageView,
};
use crate::store::{Store, StoreEvent, StoreEventView, StoreModel};
use crate::text::{
    append_str, char_views, chars_of, equal, join, join_with, lemma_char_views_push, rfind,
    lemma_split_pieces_have_no_sep, rfind_char, slice, split, split_on, strip_leading,
    strip_start, text_of, trim, trimmed, views, CharClass,
};
use crate::time::Timestamp;
use vstd::prelude::*;

verus! {

/// The status of a request that cannot be understood.
pub const BAD_REQUEST: u16 = 400;

/// The status of a request for what is not there.
pub const NOT_FOUND: u16 = 404;

/// The status of a request that the service cannot serve now.
pub const SERVICE_UNAVAILABLE: u16 = 503;

/// The message for a query without an address.
pub const MISSING_EMAIL: &'static str = "missing email query parameter";

/// The message for a request without a message id.
pub const MISSING_ID: &'static str = "missing message id";

/// The message for a lookup that found nothing.
pub const MESSAGE_NOT_FOUND: &'static str = "message not found";

/// The message for a long poll on a closed event feed.
pub const STREAM_CLOSED: &'static str = "event stream closed";

/// The start of the message for a path that names no static file.
pub const STATIC_NOT_FOUND: &'static str = "static file not found: ";

/// The file that stands for a directory.
pub const INDEX_FILE: &'static str = "index.html";

/// What is appended to a path to name its index file.
pub const SLASH_INDEX_FILE: &'static str = "/index.html";

/// What stands between the segments of a path.
pub const SEGMENT_GAP: &'static str = "/";

/// The segment that names the directory itself.
pub const HERE: &'static str = ".";

/// The segment that names the parent directory.
pub const UP: &'static str = "..";

/// What the health check reports.
pub const HEALTHY: &'static str = "ok";

/// How long a long poll waits for an event, in milliseconds.
pub const POLL_BUDGET_MS: u64 = 25000;

/// An error answer: the HTTP status and the message of its body.
#[derive(Debug)]
pub struct ApiError {
    pub status: u16,
    pub message: String,
}

/// What a [`ApiError`] holds, as mathematics.
pub struct ApiErrorView {
    pub status: u16,
    pub message: Seq<char>,
}

impl View for ApiError {
    type V = ApiErrorView;

    open spec fn view(&self) -> ApiErrorView {
        ApiErrorView { status: self.status, message: self.message@ }
    }
}

impl ApiError {
    /// An answer with status 400.
    pub fn bad_request(message: String) -> (e: ApiError)
        ensures
            e@ == (ApiErrorView { status: BAD_REQUEST, message: message@ }),
    {
        ApiError { status: BAD_REQUEST, message }
    }

    /// An answer with status 404.
    pub fn not_found(message: String) -> (e: ApiError)
        ensures
            e@ == (ApiErrorView { status: NOT_FOUND, message: message@ }),
    {
        ApiError { status: NOT_FOUND, message }
    }

    /// An answer with status 503.
    pub fn service_unavailable(message: String) -> (e: ApiError)
        ensures
            e@ == (ApiErrorView { status: SERVICE_UNAVAILABLE, message: message@ }),
    {
        ApiError { status: SERVICE_UNAVAILABLE, message }
    }
}

/// The answer of the health check.
#[derive(Debug)]
pub struct HealthResponse {
    pub status: String,
    pub version: String,
}

/// The answer to a listing.
#[derive(Debug)]
pub struct ListResponse {
    pub mailbox: String,
    pub email: String,
    pub count: usize,
    pub messages: Vec<MessageSummary>,
}

/// The answer to a lookup.
#[derive(Debug)]
pub struct DetailResponse {
    pub mailbox: String,
    pub email: String,
    pub message: Message,
}

/// The answer to a deletion.
#[derive(Debug)]
pub struct DeleteResponse {
    pub mailbox: String,
    pub email: String,
    pub deleted: bool,
}

/// The answer to the clearing of a mailbox.
#[derive(Debug)]
pub struct ClearResponse {
    pub mailbox: String,
    pub email: String,
    pub removed: usize,
}

/// What a [`ListResponse`] holds, as mathematics.
pub struct ListResponseView {
    pub mailbox: Seq<char>,
    pub email: Seq<char>,
    pub count: nat,
    pub messages: Seq<MessageSummaryView>,
}

/// What a [`DetailResponse`] holds, as mathematics.
pub struct DetailResponseView {
    pub mailbox: Seq<char>,
    pub email: Seq<char>,
    pub message: MessageView,
}

/// What a [`DeleteResponse`] holds, as mathematics.
pub struct DeleteResponseView {
    pub mailbox: Seq<char>,
    pub email: Seq<char>,
    pub deleted: bool,
}

/// What a [`ClearResponse`] holds, as mathematics.
pub struct ClearResponseView {
    pub mailbox: Seq<char>,
    pub email: Seq<char>,
    pub removed: nat,
}

impl View for ListResponse {
    type V = ListResponseView;

    open spec fn view(&self) -> ListResponseView {
        ListResponseView {
            mailbox: self.mailbox@,
            email: self.email@,
            count: self.count as nat,
            messages: summary_views(self.messages@),
        }
    }
}

impl View for DetailResponse {
    type V = DetailResponseView;

    open spec fn view(&self) -> DetailResponseView {
        DetailResponseView { mailbox: self.mailbox@, email: self.email@, message: self.message@ }
    }
}

impl View for DeleteResponse {
    type V = DeleteResponseView;

    open spec fn view(&self) -> DeleteResponseView {
        DeleteResponseView { mailbox: self.mailbox@, email: self.email@, deleted: self.deleted }
    }
}

impl View for ClearResponse {
    type V = ClearResponseView;

    open spec fn view(&self) -> ClearResponseView {
        ClearResponseView {
            mailbox: self.mailbox@,
            email: self.email@,
            removed: self.removed as nat,
        }
    }
}

/// The answer of the health check for a build of the given version.
pub fn health(version: &str) -> (r: HealthResponse)
    ensures
        r.status@ == HEALTHY@,
        r.version@ == version@,
{
    HealthResponse { status: HEALTHY.to_string(), version: version.to_string() }
}

/// The segments of a path that count: not empty, not `.`, not `..`.
pub open spec fn kept_segments(parts: Seq<Seq<char>>) -> Seq<Seq<char>>
    decreases parts.len(),
{
    if parts.len() == 0 {
        Seq::empty()
    } else if parts.last().len() == 0 || parts.last() == HERE@ || parts.last() == UP@ {
        kept_segments(parts.drop_last())
    } else {
        kept_segments(parts.drop_last()).push(parts.last())
    }
}

/// A request path as the name of a static file: trimmed, without leading
/// slashes, without empty segments and without `.` and `..`.
pub open spec fn static_path(path: Seq<char>) -> Seq<char> {
    join(
        kept_segments(split(strip_leading(trimmed(path), CharClass::Only('/')), '/')),
        SEGMENT_GAP@,
    )
}

/// The files that a request path may stand for, in the order in which they
/// are tried: the index file for the empty path; for any other the file of
/// the static path, then the index file under it.
pub open spec fn candidates_of(path: Seq<char>) -> Seq<Seq<char>> {
    let p: Seq<char> = static_path(path);
    if p.len() == 0 {
        seq![INDEX_FILE@]
    } else {
        seq![p, p + SLASH_INDEX_FILE@]
    }
}

/// The segments that are kept are segments that were there, and none is
/// empty.
pub proof fn lemma_kept_segments(parts: Seq<Seq<char>>)
    ensures
        forall|i: int|
            0 <= i < kept_segments(parts).len() ==> (#[trigger] kept_segments(parts)[i]).len() > 0
                && parts.contains(kept_segments(parts)[i]),
    decreases parts.len(),
{
    if parts.len() > 0 {
        let rest = parts.drop_last();
        lemma_kept_segments(rest);
        let kept = kept_segments(parts);
        assert forall|i: int| 0 <= i < kept.len() implies (#[trigger] kept[i]).len() > 0
            && parts.contains(kept[i]) by {
            if i < kept_segments(rest).len() {
                assert(kept[i] == kept_segments(rest)[i]);
                let j = choose|j: int| 0 <= j < rest.len() && rest[j] == kept[i];
                assert(parts[j] == kept[i]);
            } else {
                assert(kept[i] == parts[parts.len() - 1]);
            }
        }
    }
}

/// A static path never ends with a slash: it names a file, or nothing. So
/// no candidate is ever made for a directory as such.
pub proof fn lemma_static_path_names_a_file(path: Seq<char>)
    ensures
        static_path(path).len() > 0 ==> static_path(path).last() != '/',
{
    let parts = split(strip_leading(trimmed(path), CharClass::Only('/')), '/');
    let kept = kept_segments(parts);
    let p = static_path(path);
    lemma_split_pieces_have_no_sep(strip_leading(trimmed(path), CharClass::Only('/')), '/');
    lemma_kept_segments(parts);
    if kept.len() > 0 {
        let last = kept.last();
        assert(last == kept[kept.len() - 1]);
        assert(p.last() == last.last());
        let j = choose|j: int| 0 <= j < parts.len() && parts[j] == last;
        assert(parts[j][last.len() - 1] != '/');
    }
}

/// Turns a request path into the name of a static file.
pub fn normalize_static_path(path: &str) -> (r: String)
    ensures
        r@ == static_path(path@),
{
    let t = trim(&chars_of(path));
    let parts = split_on(&strip_start(&t, CharClass::Only('/')), '/');
    let here = chars_of(HERE);
    let up = chars_of(UP);
    let mut kept: Vec<Vec<char>> = Vec::new();
    let ghost all = char_views(parts@);
    let mut i: usize = 0;
    assert(all.take(0) =~= Seq::<Seq<char>>::empty());
    assert(char_views(kept@) =~= Seq::<Seq<char>>::empty());
    while i < parts.len()
        invariant
            i <= parts.len(),
            all == char_views(parts@),
            here@ == HERE@,
            up@ == UP@,
            char_views(kept@) == kept_segments(all.take(i as int)),
        decreases parts.len() - i,
    {
        let part = &parts[i];
        proof {
            let next = all.take(i + 1);
            assert(next.drop_last() =~= all.take(i as int));
            assert(next.last() == part@);
        }
        if part.len() > 0 && !equal(part, &here) && !equal(part, &up) {
            let copy = part.clone();
            proof {
                assert(copy@ =~= part@);
                lemma_char_views_push(kept@, copy);
            }
            kept.push(copy);
        }
        i += 1;
    }
    assert(all.take(parts.len() as int) =~= all);
    text_of(&join_with(&kept, &chars_of(SEGMENT_GAP)))
}

/// The files that a request path may stand for, in the order in which they
/// are tried: the index file for the empty path; for any other path the
/// file it names, then the index file under it.
pub fn static_candidates(path: &str) -> (r: Vec<String>)
    ensures
        views(r@) == candidates_of(path@),
{
    let normalized = normalize_static_path(path);
    let mut r: Vec<String> = Vec::new();
    if normalized.as_str().is_empty() {
        r.push(INDEX_FILE.to_string());
        assert(views(r@) =~= seq![INDEX_FILE@]);
    } else {
        let mut second = chars_of(normalized.as_str());
        append_str(&mut second, SLASH_INDEX_FILE);
        let ghost p = normalized@;
        r.push(normalized);
        r.push(text_of(&second));
        assert(views(r@) =~= seq![p, p + SLASH_INDEX_FILE@]);
    }
    r
}

/// The static file that answers a request: which candidate it is, and the
/// content type to send it with.
#[derive(Debug)]
pub struct StaticAsset {
    pub index: usize,
    pub content_type: String,
}

/// The last segment of a path: what follows its last `/`.
pub open spec fn file_name(path: Seq<char>) -> Seq<char> {
    path.skip(rfind(path, '/') + 1)
}

/// The extension of a path: what follows the last dot of its last segment.
/// A segment without a dot has none, nor has one whose only dot is its
/// first character.
pub open spec fn extension_of(path: Seq<char>) -> Seq<char> {
    let name: Seq<char> = file_name(path);
    let dot: int = rfind(name, '.');
    if dot <= 0 {
        Seq::empty()
    } else {
        name.skip(dot + 1)
    }
}

/// The content type that `mime_guess` has for an extension: the essence of
/// `mime_guess::from_ext(extension).first_or_octet_stream()`.
pub uninterp spec fn content_type_of(extension: Seq<char>) -> Seq<char>;

/// The content type of a file with the given extension, as `mime_guess`
/// has it: `from_ext` looks the extension up in its table, whatever its
/// case; `first_or_octet_stream` takes the first type found, or
/// `application/octet-stream` where there is none or the extension is
/// empty; of that type the essence is handed out.
#[verifier::external_body]
fn guess_content_type(extension: &str) -> (r: String)
    ensures
        r@ == content_type_of(extension@),
{
    mime_guess::from_ext(extension).first_or_octet_stream().essence_str().to_string()
}

/// The extension of a path.
pub fn extension(path: &str) -> (r: String)
    ensures
        r@ == extension_of(path@),
{
    let v = chars_of(path);
    let start: usize = match rfind_char(&v, '/') {
        Some(k) => k + 1,
        None => 0,
    };
    let name = slice(&v, start, v.len());
    assert(name@ =~= file_name(path@));
    match rfind_char(&name, '.') {
        Some(dot) => {
            if dot == 0 {
                String::new()
            } else {
                text_of(&slice(&name, dot + 1, name.len()))
            }
        },
        None => String::new(),
    }
}

/// The index of the first `true`, or the length where there is none.
pub open spec fn first_present(present: Seq<bool>) -> int
    decreases present.len(),
{
    if present.len() == 0 || present[0] {
        0
    } else {
        1 + first_present(present.drop_first())
    }
}

/// Picks the file that answers a request: the first candidate that is
/// present, with the content type of its extension. `present` says of each
/// candidate, by position, whether the file exists.
pub fn pick_static(candidates: &Vec<String>, present: &Vec<bool>) -> (r: Option<StaticAsset>)
    ensures
        match r {
            Some(asset) => asset.index == first_present(present@) && asset.index < present@.len()
                && asset.index < candidates@.len() && asset.content_type@ == content_type_of(
                extension_of(candidates@[asset.index as int]@),
            ),
            None => first_present(present@) >= present@.len() || first_present(present@)
                >= candidates@.len(),
        },
{
    let mut i: usize = 0;
    assert(present@.skip(0) =~= present@);
    while i < present.len() && i < candidates.len()
        invariant
            i <= present.len(),
            first_present(present@) == i + first_present(present@.skip(i as int)),
        decreases present.len() - i,
    {
        proof {
            let rest = present@.skip(i as int);
            assert(rest[0] == present@[i as int]);
            assert(rest.drop_first() =~= present@.skip(i + 1));
        }
        if present[i] {
            let ext = extension(candidates[i].as_str());
            return Some(StaticAsset { index: i, content_type: guess_content_type(ext.as_str()) });
        }
        i += 1;
    }
    proof {
        if i < present.len() {
            lemma_first_present_bounds(present@.skip(i as int));
        } else {
            assert(present@.skip(i as int).len() == 0);
        }
    }
    None
}

/// `first_present` is never negative.
pub proof fn lemma_first_present_bounds(present: Seq<bool>)
    ensures
        0 <= first_present(present) <= present.len(),
    decreases present.len(),
{
    if present.len() > 0 && !present[0] {
        lemma_first_present_bounds(present.drop_first());
    }
}

/// The answer where no candidate is present.
pub fn static_not_found(path: &str) -> (e: ApiError)
    ensures
        e@ == (ApiErrorView { status: NOT_FOUND, message: STATIC_NOT_FOUND@ + path@ }),
{
    let mut msg = chars_of(STATIC_NOT_FOUND);
    append_str(&mut msg, path);
    ApiError::not_found(text_of(&msg))
}

/// The view of an answer that is either a value or an error.
pub open spec fn answer_view<T: View>(r: Result<T, ApiError>) -> Result<T::V, ApiErrorView> {
    match r {
        Ok(v) => Ok(v@),
        Err(e) => Err(e@),
    }
}

/// The address that a query names: the value of `email`, trimmed; a
/// missing or blank value is an error.
pub open spec fn email_of_query(email: Option<Seq<char>>) -> Result<Seq<char>, ApiErrorView> {
    match email {
        Some(e) => if trimmed(e).len() > 0 {
            Ok(trimmed(e))
        } else {
            Err(ApiErrorView { status: BAD_REQUEST, message: MISSING_EMAIL@ })
        },
        None => Err(ApiErrorView { status: BAD_REQUEST, message: MISSING_EMAIL@ }),
    }
}

/// Reads the `email` parameter of a query.
pub fn email_input(email: Option<&str>) -> (r: Result<String, ApiError>)
    ensures
        match r {
            Ok(s) => email_of_query(
                match email {
                    Some(e) => Some(e@),
                    None => None,
                },
            ) == Ok::<_, ApiErrorView>(s@),
            Err(e) => email_of_query(
                match email {
                    Some(e) => Some(e@),
                    None => None,
                },
            ) == Err::<Seq<char>, _>(e@),
        },
{
    match email {
        Some(e) => {
            let t = trim(&chars_of(e));
            if t.len() > 0 {
                Ok(text_of(&t))
            } else {
                Err(ApiError::bad_request(MISSING_EMAIL.to_string()))
            }
        },
        None => Err(ApiError::bad_request(MISSING_EMAIL.to_string())),
    }
}

/// The mailbox and the address that a request names, or the error answer.
pub open spec fn target_of(cfg: Config, input: Seq<char>) -> Result<
    (Seq<char>, Seq<char>),
    ApiErrorView,
> {
    match normalize_mailbox_spec(input, cfg.domain@) {
        Ok(pair) => Ok(pair),
        Err(e) => Err(ApiErrorView { status: BAD_REQUEST, message: e }),
    }
}

/// Reads the mailbox that a request names.
pub fn request_target(cfg: &Config, input: &str) -> (r: Result<(String, String), ApiError>)
    ensures
        match r {
            Ok((m, a)) => target_of(*cfg, input@) == Ok::<_, ApiErrorView>((m@, a@)),
            Err(e) => target_of(*cfg, input@) == Err::<(Seq<char>, Seq<char>), _>(e@),
        },
{
    match normalize_mailbox(input, cfg.domain.as_str()) {
        Ok(pair) => Ok(pair),
        Err(e) => Err(ApiError::bad_request(e)),
    }
}

/// The summaries of the messages, in order.
pub open spec fn summaries_of(msgs: Seq<MessageView>) -> Seq<MessageSummaryView> {
    Seq::new(msgs.len(), |i: int| summary_of(msgs[i]))
}

/// The summaries of the messages, in order.
pub fn summarize(messages: &Vec<Message>) -> (r: Vec<MessageSummary>)
    ensures
        summary_views(r@) == summaries_of(message_views(messages@)),
{
    let mut r: Vec<MessageSummary> = Vec::new();
    let mut i: usize = 0;
    while i < messages.len()
        invariant
            i <= messages.len(),
            r@.len() == i,
            forall|j: int| 0 <= j < i ==> (#[trigger] r@[j])@ == summary_of(messages@[j]@),
        decreases messages.len() - i,
    {
        r.push(messages[i].summary());
        i += 1;
    }
    assert(summary_views(r@) =~= summaries_of(message_views(messages@)));
    r
}

/// What a listing of the mailbox that `input` names answers at `now`, and
/// the store after it.
pub open spec fn list_answer(cfg: Config, store: StoreModel, input: Seq<char>, now: Timestamp) -> (
    StoreModel,
    Result<ListResponseView, ApiErrorView>,
) {
    match target_of(cfg, input) {
        Err(e) => (store, Err(e)),
        Ok((mailbox, email)) => {
            let (after, listing) = store.list(mailbox, now);
            (
                after,
                Ok(
                    ListResponseView {
                        mailbox,
                        email,
                        count: listing.len(),
                        messages: summaries_of(listing),
                    },
                ),
            )
        },
    }
}

/// The id that a request names: trimmed; a blank id is an error.
pub open spec fn id_of(input: Seq<char>) -> Result<Seq<char>, ApiErrorView> {
    if trimmed(input).len() > 0 {
        Ok(trimmed(input))
    } else {
        Err(ApiErrorView { status: BAD_REQUEST, message: MISSING_ID@ })
    }
}

/// What a lookup answers at `now`, and the store after it. The mailbox is
/// read first, then the id; nothing touches the store before both are
/// known.
pub open spec fn detail_answer(
    cfg: Config,
    store: StoreModel,
    input: Seq<char>,
    id: Seq<char>,
    now: Timestamp,
) -> (StoreModel, Result<DetailResponseView, ApiErrorView>) {
    match target_of(cfg, input) {
        Err(e) => (store, Err(e)),
        Ok((mailbox, email)) => match id_of(id) {
            Err(e) => (store, Err(e)),
            Ok(wanted) => {
                let (after, found) = store.get(mailbox, wanted, now);
                (
                    after,
                    match found {
                        Some(message) => Ok(DetailResponseView { mailbox, email, message }),
                        None => Err(
                            ApiErrorView { status: NOT_FOUND, message: MESSAGE_NOT_FOUND@ },
                        ),
                    },
                )
            },
        },
    }
}

/// What a deletion answers, and the store after it.
pub open spec fn delete_answer(
    cfg: Config,
    store: StoreModel,
    input: Seq<char>,
    id: Seq<char>,
    now: Timestamp,
) -> (StoreModel, Result<DeleteResponseView, ApiErrorView>) {
    match target_of(cfg, input) {
        Err(e) => (store, Err(e)),
        Ok((mailbox, email)) => match id_of(id) {
            Err(e) => (store, Err(e)),
            Ok(wanted) => {
                let (after, deleted) = store.delete(mailbox, wanted, now);
                (after, Ok(DeleteResponseView { mailbox, email, deleted }))
            },
        },
    }
}

/// What the clearing of a mailbox answers, and the store after it.
pub open spec fn clear_answer(cfg: Config, store: StoreModel, input: Seq<char>, now: Timestamp) -> (
    StoreModel,
    Result<ClearResponseView, ApiErrorView>,
) {
    match target_of(cfg, input) {
        Err(e) => (store, Err(e)),
        Ok((mailbox, email)) => {
            let (after, removed) = store.clear(mailbox, now);
            (after, Ok(ClearResponseView { mailbox, email, removed }))
        },
    }
}

/// Reads the id that a request names.
pub fn request_id(input: &str) -> (r: Result<String, ApiError>)
    ensures
        match r {
            Ok(s) => id_of(input@) == Ok::<_, ApiErrorView>(s@),
            Err(e) => id_of(input@) == Err::<Seq<char>, _>(e@),
        },
{
    let t = trim(&chars_of(input));
    if t.len() > 0 {
        Ok(text_of(&t))
    } else {
        Err(ApiError::bad_request(MISSING_ID.to_string()))
    }
}

/// Lists the mailbox that `mailbox_input` names: its messages as
/// summaries, newest first, and their number.
pub fn write_message_list(cfg: &Config, store: &mut Store, mailbox_input: &str) -> (r: Result<
    ListResponse,
    ApiError,
>)
    requires
        old(store).wf(),
    ensures
        final(store).wf(),
        exists|now: Timestamp|
            (final(store)@, answer_view(r)) == #[trigger] list_answer(
                *cfg,
                old(store)@,
                mailbox_input@,
                now,
            ),
{
    let (mailbox, email) = match request_target(cfg, mailbox_input) {
        Ok(pair) => pair,
        Err(e) => {
            assert((store@, answer_view::<ListResponse>(Err(e))) == list_answer(
                *cfg,
                old(store)@,
                mailbox_input@,
                Timestamp { secs: 0, nanos: 0 },
            ));
            return Err(e);
        },
    };
    let messages = store.list(mailbox.as_str());
    let ghost now = choose|now: Timestamp|
        (store@, message_views(messages@)) == #[trigger] old(store)@.list(mailbox@, now);
    let summaries = summarize(&messages);
    assert(summaries@.len() == summary_views(summaries@).len());
    assert(message_views(messages@).len() == messages@.len());
    let r = Ok(ListResponse { mailbox, email, count: summaries.len(), messages: summaries });
    assert((store@, answer_view(r)) == list_answer(*cfg, old(store)@, mailbox_input@, now));
    r
}

/// Looks up the message `message_id` in the mailbox that `mailbox_input`
/// names.
pub fn write_message_detail(
    cfg: &Config,
    store: &mut Store,
    mailbox_input: &str,
    message_id: &str,
) -> (r: Result<DetailResponse, ApiError>)
    requires
        old(store).wf(),
    ensures
        final(store).wf(),
        exists|now: Timestamp|
            (final(store)@, answer_view(r)) == #[trigger] detail_answer(
                *cfg,
                old(store)@,
                mailbox_input@,
                message_id@,
                now,
            ),
{
    let ghost epoch = Timestamp { secs: 0, nanos: 0 };
    let (mailbox, email) = match request_target(cfg, mailbox_input) {
        Ok(pair) => pair,
        Err(e) => {
            assert((store@, answer_view::<DetailResponse>(Err(e))) == detail_answer(
                *cfg,
                old(store)@,
                mailbox_input@,
                message_id@,
                epoch,
            ));
            return Err(e);
        },
    };
    let id = match request_id(message_id) {
        Ok(id) => id,
        Err(e) => {
            assert((store@, answer_view::<DetailResponse>(Err(e))) == detail_answer(
                *cfg,
                old(store)@,
                mailbox_input@,
                message_id@,
                epoch,
            ));
            return Err(e);
        },
    };
    let found = store.get(mailbox.as_str(), id.as_str());
    let ghost now = choose|now: Timestamp|
        store@ == (#[trigger] old(store)@.get(mailbox@, id@, now)).0 && match found {
            Some(m) => old(store)@.get(mailbox@, id@, now).1 == Some(m@),
            None => old(store)@.get(mailbox@, id@, now).1 is None,
        };
    let r = match found {
        Some(message) => Ok(DetailResponse { mailbox, email, message }),
        None => Err(ApiError::not_found(MESSAGE_NOT_FOUND.to_string())),
    };
    assert((store@, answer_view(r)) == detail_answer(
        *cfg,
        old(store)@,
        mailbox_input@,
        message_id@,
        now,
    ));
    r
}

/// Deletes the message `id` from the mailbox that `mailbox_input` names.
pub fn delete_by_mailbox(cfg: &Config, store: &mut Store, mailbox_input: &str, id: &str) -> (r:
    Result<DeleteResponse, ApiError>)
    requires
        old(store).wf(),
    ensures
        final(store).wf(),
        exists|now: Timestamp|
            (final(store)@, answer_view(r)) == #[trigger] delete_answer(
                *cfg,
                old(store)@,
                mailbox_input@,
                id@,
                now,
            ),
{
    let ghost epoch = Timestamp { secs: 0, nanos: 0 };
    let (mailbox, email) = match request_target(cfg, mailbox_input) {
        Ok(pair) => pair,
        Err(e) => {
            assert((store@, answer_view::<DeleteResponse>(Err(e))) == delete_answer(
                *cfg,
                old(store)@,
                mailbox_input@,
                id@,
                epoch,
            ));
            return Err(e);
        },
    };
    let wanted = match request_id(id) {
        Ok(wanted) => wanted,
        Err(e) => {
            assert((store@, answer_view::<DeleteResponse>(Err(e))) == delete_answer(
                *cfg,
                old(store)@,
                mailbox_input@,
                id@,
                epoch,
            ));
            return Err(e);
        },
    };
    let deleted = store.delete(mailbox.as_str(), wanted.as_str());
    let ghost now = choose|now: Timestamp|
        (store@, deleted) == #[trigger] old(store)@.delete(mailbox@, wanted@, now);
    let r = Ok(DeleteResponse { mailbox, email, deleted });
    assert((store@, answer_view(r)) == delete_answer(
        *cfg,
        old(store)@,
        mailbox_input@,
        id@,
        now,
    ));
    r
}

/// Clears the mailbox that `mailbox_input` names.
pub fn clear_mailbox(cfg: &Config, store: &mut Store, mailbox_input: &str) -> (r: Result<
    ClearResponse,
    ApiError,
>)
    requires
        old(store).wf(),
    ensures
        final(store).wf(),
        exists|now: Timestamp|
            (final(store)@, answer_view(r)) == #[trigger] clear_answer(
                *cfg,
                old(store)@,
                mailbox_input@,
                now,
            ),
{
    let (mailbox, email) = match request_target(cfg, mailbox_input) {
        Ok(pair) => pair,
        Err(e) => {
            assert((store@, answer_view::<ClearResponse>(Err(e))) == clear_answer(
                *cfg,
                old(store)@,
                mailbox_input@,
                Timestamp { secs: 0, nanos: 0 },
            ));
            return Err(e);
        },
    };
    let removed = store.clear(mailbox.as_str());
    let ghost now = choose|now: Timestamp|
        (store@, removed as nat) == #[trigger] old(store)@.clear(mailbox@, now);
    let r = Ok(ClearResponse { mailbox, email, removed });
    assert((store@, answer_view(r)) == clear_answer(*cfg, old(store)@, mailbox_input@, now));
    r
}

/// The view of a string slice that may be absent.
pub open spec fn opt_text(o: Option<&str>) -> Option<Seq<char>> {
    match o {
        Some(s) => Some(s@),
        None => None,
    }
}

/// What a listing by the `email` parameter answers at `now`, and the store
/// after it.
pub open spec fn list_by_email_answer(
    cfg: Config,
    store: StoreModel,
    email: Option<Seq<char>>,
    now: Timestamp,
) -> (StoreModel, Result<ListResponseView, ApiErrorView>) {
    match email_of_query(email) {
        Err(e) => (store, Err(e)),
        Ok(input) => list_answer(cfg, store, input, now),
    }
}

/// What a lookup by the `email` parameter answers at `now`, and the store
/// after it.
pub open spec fn get_by_email_answer(
    cfg: Config,
    store: StoreModel,
    id: Seq<char>,
    email: Option<Seq<char>>,
    now: Timestamp,
) -> (StoreModel, Result<DetailResponseView, ApiErrorView>) {
    match email_of_query(email) {
        Err(e) => (store, Err(e)),
        Ok(input) => detail_answer(cfg, store, input, id, now),
    }
}

/// Lists the mailbox of the address that the `email` parameter names.
pub fn list_by_email(cfg: &Config, store: &mut Store, email: Option<&str>) -> (r: Result<
    ListResponse,
    ApiError,
>)
    requires
        old(store).wf(),
    ensures
        final(store).wf(),
        exists|now: Timestamp|
            (final(store)@, answer_view(r)) == #[trigger] list_by_email_answer(
                *cfg,
                old(store)@,
                opt_text(email),
                now,
            ),
{
    let input = match email_input(email) {
        Ok(input) => input,
        Err(e) => {
            assert((store@, answer_view::<ListResponse>(Err(e))) == list_by_email_answer(
                *cfg,
                old(store)@,
                opt_text(email),
                Timestamp { secs: 0, nanos: 0 },
            ));
            return Err(e);
        },
    };
    let r = write_message_list(cfg, store, input.as_str());
    proof {
        let now = choose|now: Timestamp|
            (store@, answer_view(r)) == #[trigger] list_answer(*cfg, old(store)@, input@, now);
        assert((store@, answer_view(r)) == list_by_email_answer(
            *cfg,
            old(store)@,
            opt_text(email),
            now,
        ));
    }
    r
}

/// Looks up the message `id` in the mailbox of the address that the
/// `email` parameter names.
pub fn get_by_email(cfg: &Config, store: &mut Store, id: &str, email: Option<&str>) -> (r: Result<
    DetailResponse,
    ApiError,
>)
    requires
        old(store).wf(),
    ensures
        final(store).wf(),
        exists|now: Timestamp|
            (final(store)@, answer_view(r)) == #[trigger] get_by_email_answer(
                *cfg,
                old(store)@,
                id@,
                opt_text(email),
                now,
            ),
{
    let input = match email_input(email) {
        Ok(input) => input,
        Err(e) => {
            assert((store@, answer_view::<DetailResponse>(Err(e))) == get_by_email_answer(
                *cfg,
                old(store)@,
                id@,
                opt_text(email),
                Timestamp { secs: 0, nanos: 0 },
            ));
            return Err(e);
        },
    };
    let r = write_message_detail(cfg, store, input.as_str(), id);
    proof {
        let now = choose|now: Timestamp|
            (store@, answer_view(r)) == #[trigger] detail_answer(
                *cfg,
                old(store)@,
                input@,
                id@,
                now,
            );
        assert((store@, answer_view(r)) == get_by_email_answer(
            *cfg,
            old(store)@,
            id@,
            opt_text(email),
            now,
        ));
    }
    r
}

/// What the event feed handed to a long poll.
#[derive(Debug)]
pub enum PollInput {
    /// An event, of whatever mailbox.
    Event(StoreEvent),
    /// The feed ran ahead and events were lost.
    Lagged,
    /// The feed is closed.
    Closed,
    /// Nothing came within the time that was left.
    TimedOut,
}

/// What a long poll does next.
#[derive(Debug)]
pub enum PollOutput {
    /// Answer 200 with the event.
    Deliver(StoreEvent),
    /// Wait for the feed again, for so many milliseconds at most.
    Wait(u64),
    /// Answer 204 without a body.
    NoContent,
    /// Answer with the error.
    Unavailable(ApiError),
}

/// What a [`PollInput`] holds, as mathematics.
pub enum PollInputView {
    Event(StoreEventView),
    Lagged,
    Closed,
    TimedOut,
}

/// What a [`PollOutput`] holds, as mathematics.
pub enum PollOutputView {
    Deliver(StoreEventView),
    Wait(u64),
    NoContent,
    Unavailable(ApiErrorView),
}

impl View for PollInput {
    type V = PollInputView;

    open spec fn view(&self) -> PollInputView {
        match self {
            PollInput::Event(e) => PollInputView::Event(e@),
            PollInput::Lagged => PollInputView::Lagged,
            PollInput::Closed => PollInputView::Closed,
            PollInput::TimedOut => PollInputView::TimedOut,
        }
    }
}

impl View for PollOutput {
    type V = PollOutputView;

    open spec fn view(&self) -> PollOutputView {
        match self {
            PollOutput::Deliver(e) => PollOutputView::Deliver(e@),
            PollOutput::Wait(ms) => PollOutputView::Wait(*ms),
            PollOutput::NoContent => PollOutputView::NoContent,
            PollOutput::Unavailable(e) => PollOutputView::Unavailable(e@),
        }
    }
}

/// A long poll for the next event of one mailbox: the mailbox, and how many
/// milliseconds of its budget are left.
#[derive(Debug)]
pub struct LongPoll {
    pub mailbox: String,
    pub remaining_ms: u64,
}

/// What a [`LongPoll`] holds, as mathematics.
pub struct LongPollView {
    pub mailbox: Seq<char>,
    pub remaining_ms: u64,
}

impl View for LongPoll {
    type V = LongPollView;

    open spec fn view(&self) -> LongPollView {
        LongPollView { mailbox: self.mailbox@, remaining_ms: self.remaining_ms }
    }
}

/// What is left of a budget after some of it has passed.
pub open spec fn budget_left(remaining_ms: u64, elapsed_ms: u64) -> u64 {
    if elapsed_ms >= remaining_ms {
        0
    } else {
        (remaining_ms - elapsed_ms) as u64
    }
}

/// What a long poll does with what the feed handed it after `elapsed_ms`
/// of waiting, and the poll after it.
///
/// An event of its mailbox is delivered. An event of another mailbox and a
/// lag are passed over: the poll waits again while any of its budget is
/// left. A closed feed is an error; a timeout, or a budget that is used
/// up, ends the poll without content.
pub open spec fn poll_step(poll: LongPollView, input: PollInputView, elapsed_ms: u64) -> (
    LongPollView,
    PollOutputView,
) {
    let left: u64 = budget_left(poll.remaining_ms, elapsed_ms);
    let after: LongPollView = LongPollView { remaining_ms: left, ..poll };
    let go_on: PollOutputView = if left == 0 {
        PollOutputView::NoContent
    } else {
        PollOutputView::Wait(left)
    };
    match input {
        PollInputView::Event(event) => if event.mailbox == poll.mailbox {
            (after, PollOutputView::Deliver(event))
        } else {
            (after, go_on)
        },
        PollInputView::Lagged => (after, go_on),
        PollInputView::Closed => (
            after,
            PollOutputView::Unavailable(
                ApiErrorView { status: SERVICE_UNAVAILABLE, message: STREAM_CLOSED@ },
            ),
        ),
        PollInputView::TimedOut => (
            LongPollView { remaining_ms: 0, ..poll },
            PollOutputView::NoContent,
        ),
    }
}

impl LongPoll {
    /// Starts a long poll for the mailbox that `mailbox_input` names, with
    /// the whole budget left.
    pub fn begin(cfg: &Config, mailbox_input: &str) -> (r: Result<LongPoll, ApiError>)
        ensures
            match r {
                Ok(poll) => poll.remaining_ms == POLL_BUDGET_MS && (target_of(
                    *cfg,
                    mailbox_input@,
                ) matches Ok(target) && target.0 == poll.mailbox@),
                Err(e) => target_of(*cfg, mailbox_input@) == Err::<(Seq<char>, Seq<char>), _>(e@),
            },
    {
        match request_target(cfg, mailbox_input) {
            Ok((mailbox, email)) => {
                assert(target_of(*cfg, mailbox_input@) == Ok::<_, ApiErrorView>(
                    (mailbox@, email@),
                ));
                Ok(LongPoll { mailbox, remaining_ms: POLL_BUDGET_MS })
            },
            Err(e) => Err(e),
        }
    }

    /// Takes what the feed handed over after `elapsed_ms` milliseconds of
    /// waiting and says what to do next.
    pub fn next(&mut self, input: PollInput, elapsed_ms: u64) -> (r: PollOutput)
        ensures
            (final(self)@, r@) == poll_step(old(self)@, input@, elapsed_ms),
    {
        let left: u64 = if elapsed_ms >= self.remaining_ms {
            0
        } else {
            self.remaining_ms - elapsed_ms
        };
        self.remaining_ms = left;
        match input {
            PollInput::Event(event) => {
                if event.mailbox == self.mailbox {
                    PollOutput::Deliver(event)
                } else if left == 0 {
                    PollOutput::NoContent
                } else {
                    PollOutput::Wait(left)
                }
            },
            PollInput::Lagged => {
                if left == 0 {
                    PollOutput::NoContent
                } else {
                    PollOutput::Wait(left)
                }
            },
            PollInput::Closed => PollOutput::Unavailable(
                ApiError::service_unavailable(STREAM_CLOSED.to_string()),
            ),
            PollInput::TimedOut => {
                self.remaining_ms = 0;
                PollOutput::NoContent
            },
        }
    }
}

} // verus!
