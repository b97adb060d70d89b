use forsaken_mail::mail_parser::{
    collect_body_parts, extract_headers, find_first_header, join_parts, message_from, parse,
    parse_at, parse_date, Header, RawHeader, RawMail, RawPart,
};
use forsaken_mail::time::Timestamp;

fn line(name: &str, value: &str) -> RawHeader {
    RawHeader { name: name.to_string(), value: value.to_string() }
}

fn part(children: usize, mimetype: &str, body: Option<&str>) -> RawPart {
    RawPart { children, mimetype: mimetype.to_string(), body: body.map(|b| b.to_string()) }
}

fn header(name: &str, values: &[&str]) -> Header {
    Header { name: name.to_string(), values: values.iter().map(|v| v.to_string()).collect() }
}

fn shape(headers: &[Header]) -> Vec<(String, Vec<String>)> {
    headers.iter().map(|h| (h.name.clone(), h.values.clone())).collect()
}

const NOON: Timestamp = Timestamp { secs: 1_700_000_000, nanos: 5 };

const MULTIPART: &str = "From: Alice <alice@x.test>\r\n\
     Subject:  Greetings \r\n\
     Date: Sun, 02 Oct 2016 07:06:22 -0700 (PDT)\r\n\
     Received: first\r\n\
     Received: second\r\n\
     Content-Type: multipart/alternative; boundary=foobar\r\n\
     \r\n\
     --foobar\r\n\
     Content-Type: text/plain; charset=utf-8\r\n\
     Content-Transfer-Encoding: quoted-printable\r\n\
     \r\n\
     Plain part, Euro: =E2=82=AC\r\n\
     --foobar\r\n\
     Content-Type: TEXT/HTML\r\n\
     \r\n\
     <p>Html part</p>\r\n\
     --foobar\r\n\
     Content-Type: application/octet-stream\r\n\
     \r\n\
     binary\r\n\
     --foobar--\r\n";

#[test]
fn headers_are_grouped_by_name_in_order_of_appearance() {
    let lines = vec![
        line("Received", "a"),
        line("From", "x"),
        line("Received", "b"),
        line("received", "c"),
        line("From", "y"),
    ];
    assert_eq!(
        shape(&extract_headers(&lines)),
        vec![
            ("Received".to_string(), vec!["a".to_string(), "b".to_string()]),
            ("From".to_string(), vec!["x".to_string(), "y".to_string()]),
            ("received".to_string(), vec!["c".to_string()]),
        ]
    );
    assert!(extract_headers(&Vec::new()).is_empty());
}

#[test]
fn header_lookup_ignores_case_and_takes_the_first() {
    let headers = vec![
        header("X-Empty", &[]),
        header("subject", &["lower", "second"]),
        header("Subject", &["upper"]),
        header("x-empty", &["later"]),
    ];
    assert_eq!(find_first_header(&headers, "Subject"), Some("lower".to_string()));
    assert_eq!(find_first_header(&headers, "SUBJECT"), Some("lower".to_string()));
    assert_eq!(find_first_header(&headers, "X-EMPTY"), Some("later".to_string()));
    assert_eq!(find_first_header(&headers, "Date"), None);
    assert_eq!(find_first_header(&Vec::new(), "Date"), None);
}

#[test]
fn bodies_are_the_text_leaves() {
    let parts = vec![
        part(3, "multipart/mixed", Some("container")),
        part(0, "text/plain", Some(" first \n")),
        part(0, "Text/HTML", Some("<b>x</b>")),
        part(0, "text/plain", Some("   ")),
        part(0, "text/plain", None),
        part(0, "image/png", Some("png")),
        part(1, "text/plain", Some("not a leaf")),
        part(0, "TEXT/PLAIN", Some("second")),
    ];
    let mut text = vec!["kept".to_string()];
    let mut html = Vec::new();
    collect_body_parts(&parts, &mut text, &mut html);
    assert_eq!(text, vec!["kept", " first \n", "second"]);
    assert_eq!(html, vec!["<b>x</b>"]);
}

#[test]
fn parts_are_trimmed_and_joined_by_line_feeds() {
    let parts = vec![" a ".to_string(), "  ".to_string(), "b\r\n".to_string(), String::new()];
    assert_eq!(join_parts(parts), Some("a\nb".to_string()));
    assert_eq!(join_parts(vec!["only".to_string()]), Some("only".to_string()));
    assert_eq!(join_parts(vec![" \n ".to_string()]), None);
    assert_eq!(join_parts(Vec::new()), None);
}

#[test]
fn date_header_is_read() {
    assert_eq!(
        parse_date(Some("Sun, 02 Oct 2016 07:06:22 -0700 (PDT)"), NOON),
        Timestamp { secs: 1475417182, nanos: 0 }
    );
    assert_eq!(
        parse_date(Some("1 Jan 1970 00:00:00 +0000"), NOON),
        Timestamp { secs: 0, nanos: 0 }
    );
}

#[test]
fn date_falls_back_to_now() {
    assert_eq!(parse_date(None, NOON), NOON);
    assert_eq!(parse_date(Some("Wed, 0 Jan 1970 00:00:00 +0000"), NOON), NOON);
    assert_eq!(parse_date(Some("1 Foo 2020 00:00:00 +0000"), NOON), NOON);
    assert_eq!(parse_date(Some("1 Jan 2020 00:00:00 +9999"), NOON), NOON);
}

#[test]
fn date_without_a_day_is_the_epoch() {
    let epoch = Timestamp { secs: 0, nanos: 0 };
    assert_eq!(parse_date(Some("not a date"), NOON), epoch);
    assert_eq!(parse_date(Some(""), NOON), epoch);
}

#[test]
fn date_beyond_the_calendar_falls_back_to_now() {
    assert_eq!(parse_date(Some("1 Jan 300000 00:00:00 +0000"), NOON), NOON);
    assert_eq!(
        parse_date(Some("31 Dec 262142 23:59:59 +0000"), NOON),
        Timestamp { secs: 8210266876799, nanos: 0 }
    );
}

#[test]
fn message_is_assembled_from_what_was_read() {
    let mail = RawMail {
        headers: vec![
            line("subject", "  Hi  "),
            line("FROM", " a@x.test "),
            line("Date", "1 Foo 2020 00:00:00 +0000"),
        ],
        parts: vec![
            part(2, "multipart/alternative", None),
            part(0, "text/plain", Some("Hello\r\n")),
            part(0, "text/html", Some("<p>Hello</p>")),
        ],
    };
    let m = message_from(&mail, NOON);
    assert_eq!(m.from, "a@x.test");
    assert_eq!(m.subject, "Hi");
    assert_eq!(m.date, NOON);
    assert_eq!(m.text, Some("Hello".to_string()));
    assert_eq!(m.html, Some("<p>Hello</p>".to_string()));
    assert_eq!(m.headers.len(), 3);
}

#[test]
fn message_without_headers_or_bodies_is_empty() {
    let m = message_from(&RawMail { headers: Vec::new(), parts: Vec::new() }, NOON);
    assert_eq!(m.from, "");
    assert_eq!(m.subject, "");
    assert_eq!(m.date, NOON);
    assert_eq!(m.text, None);
    assert_eq!(m.html, None);
    assert!(m.headers.is_empty());
}

#[test]
fn parse_reads_a_simple_message() {
    let m = parse_at(b"Subject: Hi\r\n\r\nHello\r\n", NOON).unwrap();
    assert_eq!(m.subject, "Hi");
    assert_eq!(m.from, "");
    assert_eq!(m.text, Some("Hello".to_string()));
    assert_eq!(m.html, None);
    assert_eq!(m.date, NOON);
    assert_eq!(shape(&m.headers), vec![("Subject".to_string(), vec!["Hi".to_string()])]);
}

#[test]
fn parse_reads_a_multipart_message() {
    let m = parse_at(MULTIPART.as_bytes(), NOON).unwrap();
    assert_eq!(m.from, "Alice <alice@x.test>");
    assert_eq!(m.subject, "Greetings");
    assert_eq!(m.date, Timestamp { secs: 1475417182, nanos: 0 });
    assert_eq!(m.text, Some("Plain part, Euro: \u{20ac}".to_string()));
    assert_eq!(m.html, Some("<p>Html part</p>".to_string()));
    let received = m.headers.iter().find(|h| h.name == "Received").unwrap();
    assert_eq!(received.values, vec!["first", "second"]);
}

#[test]
fn parse_reads_nested_parts_depth_first() {
    let raw = "Content-Type: multipart/mixed; boundary=outer\r\n\
     \r\n\
     --outer\r\n\
     Content-Type: multipart/alternative; boundary=inner\r\n\
     \r\n\
     --inner\r\n\
     Content-Type: text/plain\r\n\
     \r\n\
     one\r\n\
     --inner\r\n\
     Content-Type: text/html\r\n\
     \r\n\
     <i>one</i>\r\n\
     --inner--\r\n\
     --outer\r\n\
     Content-Type: text/plain\r\n\
     \r\n\
     two\r\n\
     --outer--\r\n";
    let m = parse_at(raw.as_bytes(), NOON).unwrap();
    assert_eq!(m.text, Some("one\ntwo".to_string()));
    assert_eq!(m.html, Some("<i>one</i>".to_string()));
}

#[test]
fn parse_reports_what_mailparse_refuses() {
    let e = parse_at(b" starts with a space\r\n\r\nbody", NOON).unwrap_err();
    assert!(e.starts_with("failed to parse raw message: "), "{e}");
    assert!(e.len() > "failed to parse raw message: ".len());
}

#[test]
fn parse_dates_an_undated_message_now() {
    let m = parse(b"Subject: Hi\r\n\r\nHello\r\n").unwrap();
    assert!(m.date.secs > 1_600_000_000);
    assert!(m.date.nanos < 1_000_000_000);
}

#[test]
fn parsed_message_clone_keeps_every_field() {
    let m = parse_at(MULTIPART.as_bytes(), NOON).unwrap();
    let c = m.clone();
    assert_eq!(c.from, m.from);
    assert_eq!(c.subject, m.subject);
    assert_eq!(c.date, m.date);
    assert_eq!(c.text, m.text);
    assert_eq!(c.html, m.html);
    assert_eq!(shape(&c.headers), shape(&m.headers));
}

#[test]
fn calendar_bounds_are_those_of_chrono() {
    use_bounds(forsaken_mail::time::MIN_SECONDS, forsaken_mail::time::MAX_SECONDS);
}

fn use_bounds(min: i64, max: i64) {
    assert!(chrono::DateTime::from_timestamp(min, 0).is_some());
    assert!(chrono::DateTime::from_timestamp(min - 1, 0).is_none());
    assert!(chrono::DateTime::from_timestamp(max, 0).is_some());
    assert!(chrono::DateTime::from_timestamp(max + 1, 0).is_none());
    assert_eq!(chrono::DateTime::<chrono::Utc>::MIN_UTC.timestamp(), min);
    assert_eq!(chrono::DateTime::<chrono::Utc>::MAX_UTC.timestamp(), max);
    for secs in [i64::MIN, -1, 0, 1, i64::MAX] {
        assert_eq!(
            chrono::DateTime::from_timestamp(secs, 0).is_some(),
            min <= secs && secs <= max
        );
    }
}
