use dhcpd_parser::common::ParseError;
use dhcpd_parser::leases::LeaseKeyword;
use dhcpd_parser::lex::LexItem;
use dhcpd_parser::lex::lex;
use dhcpd_parser::parser;
use dhcpd_parser::parser::ConfigKeyword;

#[test]
fn unterminated_lease_error() {
    let res = parser::parse("lease 192.0.0.2 { uid Client1;".to_string());
    assert!(matches!(res.unwrap_err(), ParseError::UnterminatedLease));
}

#[test]
fn expected_token_error_without_brace() {
    let res = parser::parse("lease 192.0.0.2 uid".to_string());
    match res.unwrap_err() {
        ParseError::ExpectedToken(s) => assert_eq!(s, "{"),
        other => panic!("unexpected error: {:?}", other),
    }

    let res = parser::parse("lease".to_string());
    assert!(matches!(res.unwrap_err(), ParseError::ExpectedToken(_)));
}

#[test]
fn missing_argument_error_names_the_option() {
    let res = parser::parse("lease 192.0.0.2 { uid".to_string());
    match res.unwrap_err() {
        ParseError::MissingArgument(s) => assert_eq!(s, "uid"),
        other => panic!("unexpected error: {:?}", other),
    }

    let res = parser::parse("lease 192.0.0.2 { starts 2 2019/01/01".to_string());
    match res.unwrap_err() {
        ParseError::MissingArgument(s) => assert_eq!(s, "starts"),
        other => panic!("unexpected error: {:?}", other),
    }

    let res = parser::parse("lease 192.0.0.2 { hardware type".to_string());
    match res.unwrap_err() {
        ParseError::MissingArgument(s) => assert_eq!(s, "hardware"),
        other => panic!("unexpected error: {:?}", other),
    }
}

#[test]
fn arguments_are_taken_verbatim_whatever_the_token() {
    // The brace is consumed as the time argument and fails the date parse,
    // naming the token's text — it is not reported as a missing argument.
    let res = parser::parse("lease 192.0.0.2 { starts 2 2019/01/01 }".to_string());
    match res.unwrap_err() {
        ParseError::InvalidDateFormat(s) => assert_eq!(s, "}"),
        other => panic!("unexpected error: {:?}", other),
    }
}

#[test]
fn unexpected_token_error_names_the_token() {
    let res = parser::parse("surprise".to_string());
    match res.unwrap_err() {
        ParseError::UnexpectedToken(s) => assert_eq!(s, "surprise"),
        other => panic!("unexpected error: {:?}", other),
    }

    let res = parser::parse("lease 192.0.0.2 { stray; }".to_string());
    match res.unwrap_err() {
        ParseError::UnexpectedToken(s) => assert_eq!(s, "stray"),
        other => panic!("unexpected error: {:?}", other),
    }
}

#[test]
fn invalid_date_error_inside_a_block() {
    let res = parser::parse(
        "lease 192.0.0.2 { starts 2 2019/01/01 24:00:00; }".to_string(),
    );
    match res.unwrap_err() {
        ParseError::InvalidDateFormat(s) => assert_eq!(s, "24:00:00"),
        other => panic!("unexpected error: {:?}", other),
    }
}

#[test]
fn failed_parse_yields_no_leases_at_all() {
    // The second block's date is invalid; the first block, though valid,
    // is not returned either.
    let res = parser::parse(
        "
    lease 192.0.0.2 { uid Client1; }
    lease 192.0.0.3 { starts 2 2019-01-02 00:00:00; }
    "
        .to_string(),
    );
    assert!(res.is_err());
}

#[test]
fn keyword_maps_are_bidirectional() {
    let keywords = [
        (LeaseKeyword::Abandoned, "abandoned"),
        (LeaseKeyword::ClientHostname, "client-hostname"),
        (LeaseKeyword::Ends, "ends"),
        (LeaseKeyword::Hardware, "hardware"),
        (LeaseKeyword::Hostname, "hostname"),
        (LeaseKeyword::Starts, "starts"),
        (LeaseKeyword::Uid, "uid"),
    ];
    for (k, text) in keywords {
        assert_eq!(k.to_string(), text);
        assert_eq!(LeaseKeyword::from(text).unwrap(), k);
    }
    assert!(matches!(
        LeaseKeyword::from("bogus"),
        Err(ParseError::UnrecognizedKeyword(_))
    ));

    assert_eq!(ConfigKeyword::Lease.to_string(), "lease");
    assert_eq!(ConfigKeyword::from("lease").unwrap(), ConfigKeyword::Lease);
    assert!(matches!(
        ConfigKeyword::from("host"),
        Err(ParseError::UnrecognizedKeyword(_))
    ));
}

#[test]
fn lexer_classifies_tokens() {
    let toks = lex("lease 10.0.0.1 {\n  hostname \"N\";\n}".to_string()).unwrap();
    assert!(matches!(toks[0], LexItem::Decl(ConfigKeyword::Lease)));
    assert!(matches!(&toks[1], LexItem::Word(w) if w == "10.0.0.1"));
    assert!(matches!(toks[2], LexItem::Paren('{')));
    assert!(matches!(toks[3], LexItem::Opt(LeaseKeyword::Hostname)));
    // The lexer does no quote-stripping: the quotes stay in the word.
    assert!(matches!(&toks[4], LexItem::Word(w) if w == "\"N\""));
    assert!(matches!(toks[5], LexItem::Endl));
    assert!(matches!(toks[6], LexItem::Paren('}')));
    assert_eq!(toks.len(), 7);
    assert_eq!(toks[5].to_string(), ";");
    assert_eq!(toks[6].to_string(), "}");
}

#[test]
fn words_break_only_at_whitespace_and_terminators() {
    // A parenthesis inside a word stays in the word; only whitespace and
    // `;` end it.
    let toks = lex("a{b c;".to_string()).unwrap();
    assert!(matches!(&toks[0], LexItem::Word(w) if w == "a{b"));
    assert!(matches!(&toks[1], LexItem::Word(w) if w == "c"));
    assert!(matches!(toks[2], LexItem::Endl));
    assert_eq!(toks.len(), 3);
}

#[test]
fn stray_word_after_a_date_without_terminator_is_unexpected() {
    // The time-zone tag is part of a `;`-terminated statement only: with
    // no terminator behind it the word is a stray token.
    let res = parser::parse(
        "lease 192.0.0.2 { starts 2 2019/01/01 22:00:00 UTC }".to_string(),
    );
    match res.unwrap_err() {
        ParseError::UnexpectedToken(s) => assert_eq!(s, "UTC"),
        other => panic!("unexpected error: {:?}", other),
    }
}

#[test]
fn parse_lease_stops_at_the_closing_brace() {
    let tokens = lex("uid Client1; abandoned; } lease".to_string()).unwrap();
    let mut lease = dhcpd_parser::leases::Lease::new();
    let mut pos = 0usize;
    let res = dhcpd_parser::leases::parse_lease(&mut lease, &tokens, &mut pos);
    assert!(res.is_ok());
    assert_eq!(lease.uid.as_ref().unwrap(), "Client1");
    assert!(lease.abandoned);
    // The closing brace is observed, not consumed.
    assert!(matches!(tokens[pos], LexItem::Paren('}')));
}

#[test]
fn statements_without_timezone_or_semicolon_parse_too() {
    let res = parser::parse(
        "lease 192.0.0.2 { starts 2 2019/01/01 22:00:00 uid Client1 }".to_string(),
    );
    let leases = res.unwrap().leases;
    assert_eq!(leases.len(), 1);
    assert!(leases.get(0).dates.starts.is_some());
    assert_eq!(leases.get(0).uid.as_ref().unwrap(), "Client1");
}
