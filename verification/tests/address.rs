use forsaken_mail::address::{normalize, normalize_mailbox, parse_email, validate_mailbox};

fn ok(mailbox: &str, second: &str) -> Result<(String, String), String> {
    Ok((mailbox.to_string(), second.to_string()))
}

#[test]
fn parse_email_splits_and_lowercases() {
    assert_eq!(parse_email("Bob@Example.TEST"), ok("bob", "example.test"));
    assert_eq!(parse_email("  <bob@example.test>  "), ok("bob", "example.test"));
    assert_eq!(parse_email("BOB+x@Sub.Example.test"), ok("bob+x", "sub.example.test"));
}

#[test]
fn parse_email_rejects_missing_leading_and_trailing_at() {
    let e = Err("invalid email address".to_string());
    assert_eq!(parse_email("bob"), e);
    assert_eq!(parse_email("@example.test"), e);
    assert_eq!(parse_email("bob@"), e);
    assert_eq!(parse_email(""), e);
}

#[test]
fn parse_email_splits_on_the_last_at() {
    assert_eq!(parse_email("a@b@c"), Err("invalid mailbox".to_string()));
}

#[test]
fn parse_email_rejects_an_empty_domain() {
    assert_eq!(parse_email("<bob@ >"), Err("invalid email domain".to_string()));
    assert_eq!(parse_email("<bob@\t \n>"), Err("invalid email domain".to_string()));
}

#[test]
fn parse_email_takes_each_side_as_it_stands() {
    let e = Err("invalid mailbox".to_string());
    assert_eq!(parse_email("bob @x.test"), e);
    assert_eq!(parse_email("bob @ x.test"), e);
    assert_eq!(parse_email("< bob@x.test>"), e);
    assert_eq!(parse_email("bob@ x.test"), ok("bob", " x.test"));
    assert_eq!(parse_email("<bob@x.test >"), ok("bob", "x.test "));
}

#[test]
fn parse_email_strips_one_pair_of_brackets_only() {
    assert_eq!(parse_email("<<bob@example.test>>"), Err("invalid mailbox".to_string()));
    assert_eq!(parse_email("<bob@example.test"), ok("bob", "example.test"));
    assert_eq!(parse_email("bob@example.test>"), ok("bob", "example.test"));
}

#[test]
fn validate_mailbox_follows_the_pattern() {
    assert_eq!(validate_mailbox("bob"), Ok(()));
    assert_eq!(validate_mailbox("0a.b_c+d-e"), Ok(()));
    assert_eq!(validate_mailbox(&"a".repeat(64)), Ok(()));
    let e = Err("invalid mailbox".to_string());
    assert_eq!(validate_mailbox(&"a".repeat(65)), e);
    assert_eq!(validate_mailbox(""), e);
    assert_eq!(validate_mailbox("Bob"), e);
    assert_eq!(validate_mailbox(".bob"), e);
    assert_eq!(validate_mailbox("bob "), e);
    assert_eq!(validate_mailbox("bob\n"), e);
    assert_eq!(validate_mailbox("b\u{f6}b"), e);
}

#[test]
fn validate_mailbox_agrees_with_the_regular_expression() {
    let re = regex::Regex::new(r"^[a-z0-9][a-z0-9._+\-]{0,63}$").unwrap();
    let alphabet = ['a', 'z', '0', '9', '.', '_', '+', '-', 'A', ' ', '@', '\n', '<', '\u{e9}'];
    let mut inputs: Vec<String> = vec![String::new()];
    for a in alphabet {
        inputs.push(a.to_string());
        for b in alphabet {
            inputs.push(format!("{a}{b}"));
            for c in alphabet {
                inputs.push(format!("{a}{b}{c}"));
            }
        }
    }
    for n in 60..70 {
        inputs.push("a".repeat(n));
        inputs.push(format!("{}-", "9".repeat(n)));
    }
    for input in inputs {
        assert_eq!(validate_mailbox(&input).is_ok(), re.is_match(&input), "{input:?}");
    }
}

#[test]
fn normalize_mailbox_renders_with_the_expected_domain() {
    assert_eq!(normalize_mailbox("Bob", "example.test"), ok("bob", "bob@example.test"));
    assert_eq!(normalize_mailbox(" <bob> ", " Example.TEST "), ok("bob", "bob@example.test"));
    assert_eq!(normalize_mailbox("bob", ""), ok("bob", "bob"));
    assert_eq!(normalize_mailbox("bob@example.test", "example.test"), ok("bob", "bob@example.test"));
    assert_eq!(normalize_mailbox("bob@other.test", ""), ok("bob", "bob"));
    assert_eq!(normalize_mailbox("Bob@X.test", ""), ok("bob", "bob"));
    assert_eq!(normalize_mailbox("Bob@X.test", " "), ok("bob", "bob"));
    assert_eq!(normalize_mailbox("Bob@X.test", "x.TEST"), ok("bob", "bob@x.test"));
}

#[test]
fn normalize_mailbox_rejects_another_domain() {
    assert_eq!(
        normalize_mailbox("bob@other.test", "Example.test"),
        Err("email domain must be example.test".to_string())
    );
}

#[test]
fn normalize_mailbox_rejects_bad_input() {
    assert_eq!(normalize_mailbox("bo b", "example.test"), Err("invalid mailbox".to_string()));
    assert_eq!(normalize_mailbox("", "example.test"), Err("invalid mailbox".to_string()));
    assert_eq!(normalize_mailbox("@example.test", ""), Err("invalid email address".to_string()));
    assert_eq!(normalize_mailbox("< bob >", "example.test"), Err("invalid mailbox".to_string()));
    assert_eq!(normalize_mailbox("<<bob>>", "example.test"), Err("invalid mailbox".to_string()));
    assert_eq!(normalize_mailbox("bob @example.test", ""), Err("invalid mailbox".to_string()));
    assert_eq!(normalize_mailbox("bob@ ", "x"), Err("invalid email address".to_string()));
}

#[test]
fn normalize_mailbox_parses_the_normalised_input() {
    assert_eq!(normalize_mailbox("<<bob@example.test>>", ""), ok("bob", "bob"));
    assert_eq!(
        normalize_mailbox("< bob@example.test >", "example.test"),
        ok("bob", "bob@example.test")
    );
}

#[test]
fn rendered_address_round_trips() {
    for mailbox in ["bob", "a", "0.x_y+z-9"] {
        for domain in ["example.test", "x", "sub.example.test"] {
            let rendered = format!("{mailbox}@{domain}");
            assert_eq!(parse_email(&rendered), ok(mailbox, domain));
            assert_eq!(normalize_mailbox(&rendered, domain), ok(mailbox, &rendered));
            assert_eq!(normalize_mailbox(&rendered, ""), ok(mailbox, mailbox));
        }
    }
}

#[test]
fn normalize_trims_and_strips_one_pair_of_brackets() {
    assert_eq!(normalize("  <bob@example.test>  "), "bob@example.test");
    assert_eq!(normalize("<<bob>>"), "<bob>");
    assert_eq!(normalize("< bob >"), " bob ");
    assert_eq!(normalize("bob>"), "bob");
    assert_eq!(normalize("<"), "");
    assert_eq!(normalize(">"), "");
    assert_eq!(normalize("<>"), "");
    assert_eq!(normalize(""), "");
}
