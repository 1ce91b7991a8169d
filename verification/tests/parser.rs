use fuzzy_ssh::ssh_config::parser::{
    argument, arguments, key_value, key_value_separator, keyword_string, ssh_config_value_parser,
    Directive, Keyword, ParseError,
};
use fuzzy_ssh::text::to_chars;

/// What is left of `input` from `end` on.
fn rest(input: &[char], end: usize) -> String {
    input[end..].iter().collect()
}

fn directive(keyword: Keyword, arguments: &[&str]) -> Directive {
    Directive { keyword, arguments: arguments.iter().map(|a| a.to_string()).collect() }
}

fn other(name: &str) -> Keyword {
    Keyword::Other(name.to_string())
}

#[test]
fn test_argument_quoted() {
    let test_argument = to_chars("\"arg1 with spaces\" arg2");

    let result = argument(&test_argument, 0).map(|(value, end)| (rest(&test_argument, end), value));

    assert_eq!(result, Some((" arg2".to_string(), "arg1 with spaces".to_string())))
}

#[test]
fn test_argument() {
    let test_argument = to_chars("arg1 arg2");

    let result = argument(&test_argument, 0).map(|(value, end)| (rest(&test_argument, end), value));

    assert_eq!(result, Some((" arg2".to_string(), "arg1".to_string())))
}

#[test]
fn test_keyword() {
    let test_keyword = to_chars("host");

    assert_eq!(
        keyword_string(&test_keyword, 0).map(|(keyword, end)| (rest(&test_keyword, end), keyword)),
        Some(("".to_string(), Keyword::Host))
    )
}

#[test]
fn test_keyword_hostname() {
    let test_keyword = to_chars("hOstName");

    assert_eq!(
        keyword_string(&test_keyword, 0).map(|(keyword, end)| (rest(&test_keyword, end), keyword)),
        Some(("".to_string(), Keyword::Hostname))
    )
}

#[test]
fn test_keyword_other() {
    let test_keyword = to_chars("otherKeyword");

    assert_eq!(
        keyword_string(&test_keyword, 0).map(|(keyword, end)| (rest(&test_keyword, end), keyword)),
        Some(("".to_string(), Keyword::Other("otherkeyword".to_string())))
    )
}

#[test]
fn test_key_value_simple() {
    let test_keyword = to_chars("key value");

    assert_eq!(
        key_value(&test_keyword, 0).map(|(found, end)| (rest(&test_keyword, end), found)),
        Some(("".to_string(), directive(other("key"), &["value"])))
    )
}

#[test]
fn test_key_value_complex() {
    let test_keyword = to_chars("key =value \"value2\" \"value 3\"");

    assert_eq!(
        key_value(&test_keyword, 0).map(|(found, end)| (rest(&test_keyword, end), found)),
        Some(("".to_string(), directive(other("key"), &["value", "value2", "value 3"])))
    )
}

#[test]
fn test_config_values() {
    let test_values = "key value\nanother value";

    assert_eq!(
        ssh_config_value_parser(test_values),
        Ok(vec![directive(other("key"), &["value"]), directive(other("another"), &["value"])])
    );
}

#[test]
fn test_config_values_spaced() {
    let test_values = "key value\n\n\n\n      host value \"value 2\"\nhostName thishost";

    assert_eq!(
        ssh_config_value_parser(test_values),
        Ok(vec![
            directive(other("key"), &["value"]),
            directive(Keyword::Host, &["value", "value 2"]),
            directive(Keyword::Hostname, &["thishost"]),
        ])
    );
}

#[test]
fn quoted_arguments_lose_their_quotes_and_keep_their_spaces() {
    assert_eq!(
        ssh_config_value_parser("key \"a b\" c"),
        Ok(vec![directive(other("key"), &["a b", "c"])])
    );
}

#[test]
fn an_empty_text_has_no_directives() {
    assert_eq!(ssh_config_value_parser(""), Ok(vec![]));
    assert_eq!(ssh_config_value_parser(" \n\t\r\n  "), Ok(vec![]));
}

#[test]
fn one_directive_for_each_line() {
    let text = "Host a\n  Hostname 1.1.1.1\r\n\n\tUser = me  \nCompression=yes\n";
    let parsed = ssh_config_value_parser(text).unwrap();
    assert_eq!(parsed.len(), 4);
    assert_eq!(
        parsed,
        vec![
            directive(Keyword::Host, &["a"]),
            directive(Keyword::Hostname, &["1.1.1.1"]),
            directive(other("user"), &["me"]),
            directive(other("compression"), &["yes"]),
        ]
    );
}

#[test]
fn a_keyword_without_arguments_is_refused() {
    assert_eq!(
        ssh_config_value_parser("key value\nlonely\nmore value"),
        Err(ParseError { offset: 10, remaining: "lonely\nmore value".to_string() })
    );
    assert_eq!(
        ssh_config_value_parser("lonely "),
        Err(ParseError { offset: 0, remaining: "lonely ".to_string() })
    );
    assert_eq!(
        ssh_config_value_parser("lonely ="),
        Err(ParseError { offset: 0, remaining: "lonely =".to_string() })
    );
}

#[test]
fn an_unterminated_quote_is_refused() {
    assert_eq!(
        ssh_config_value_parser("key \"never closed"),
        Err(ParseError { offset: 0, remaining: "key \"never closed".to_string() })
    );
    assert_eq!(
        ssh_config_value_parser("a b\nkey value \"open\nnext line"),
        Err(ParseError { offset: 4, remaining: "key value \"open\nnext line".to_string() })
    );
    let chars = to_chars("\"open");
    assert_eq!(argument(&chars, 0), None);
}

#[test]
fn a_line_without_a_keyword_is_refused() {
    assert_eq!(
        ssh_config_value_parser("  # comment\nkey value"),
        Err(ParseError { offset: 2, remaining: "# comment\nkey value".to_string() })
    );
    assert_eq!(
        ssh_config_value_parser("key value\n42 value"),
        Err(ParseError { offset: 10, remaining: "42 value".to_string() })
    );
}

#[test]
fn text_after_a_closing_quote_is_refused() {
    assert_eq!(
        ssh_config_value_parser("key \"a\"b c"),
        Err(ParseError { offset: 0, remaining: "key \"a\"b c".to_string() })
    );
}

#[test]
fn two_quotes_with_nothing_between_them_begin_a_bare_argument() {
    assert_eq!(
        ssh_config_value_parser("key \"\" \"\"a\"b"),
        Ok(vec![directive(other("key"), &["\"\"", "\"\"a\"b"])])
    );
    let chars = to_chars("\"\"");
    assert_eq!(argument(&chars, 0), Some(("\"\"".to_string(), 2)));
    assert_eq!(argument(&chars, 1), None);
}

#[test]
fn a_quoted_argument_may_span_lines() {
    assert_eq!(
        ssh_config_value_parser("key \"a\nb\" c\nnext d"),
        Ok(vec![directive(other("key"), &["a\nb", "c"]), directive(other("next"), &["d"])])
    );
}

#[test]
fn a_bare_argument_may_hold_quotes_and_equals_signs() {
    assert_eq!(
        ssh_config_value_parser("key a\"b =c d=e"),
        Ok(vec![directive(other("key"), &["a\"b", "=c", "d=e"])])
    );
}

#[test]
fn keywords_are_read_without_regard_to_case() {
    let chars = to_chars("HOST x");
    assert_eq!(keyword_string(&chars, 0), Some((Keyword::Host, 4)));
    let chars = to_chars("HostName x");
    assert_eq!(keyword_string(&chars, 0), Some((Keyword::Hostname, 8)));
    let chars = to_chars("HostKeyAlgorithms x");
    assert_eq!(keyword_string(&chars, 0), Some((other("hostkeyalgorithms"), 17)));
    let chars = to_chars("IdentityFile x");
    assert_eq!(keyword_string(&chars, 0), Some((other("identityfile"), 12)));
    let chars = to_chars("9lives");
    assert_eq!(keyword_string(&chars, 0), None);
    assert_eq!(keyword_string(&chars, 1), Some((other("lives"), 6)));
    assert_eq!(keyword_string(&chars, 6), None);
    assert_eq!(keyword_string(&chars, 7), None);
}

#[test]
fn keywords_hold_ascii_letters_only() {
    let chars = to_chars("hôte x");
    assert_eq!(keyword_string(&chars, 0), Some((other("h"), 1)));
    assert_eq!(
        ssh_config_value_parser("hôte x"),
        Err(ParseError { offset: 0, remaining: "hôte x".to_string() })
    );
    assert_eq!(
        ssh_config_value_parser("key ünïcödé \"ß ∂\""),
        Ok(vec![directive(other("key"), &["ünïcödé", "ß ∂"])])
    );
}

#[test]
fn the_separator_is_an_equals_sign_or_blanks() {
    let chars = to_chars("  \t = \t x");
    assert_eq!(key_value_separator(&chars, 0), Some(8));
    let chars = to_chars("=x");
    assert_eq!(key_value_separator(&chars, 0), Some(1));
    let chars = to_chars(" \tx");
    assert_eq!(key_value_separator(&chars, 0), Some(2));
    let chars = to_chars("x");
    assert_eq!(key_value_separator(&chars, 0), None);
    let chars = to_chars("\nx");
    assert_eq!(key_value_separator(&chars, 0), None);
    assert_eq!(key_value_separator(&chars, 5), None);
}

#[test]
fn arguments_stop_at_the_end_of_the_line() {
    let chars = to_chars("a  b\t\"c d\"  \nnext");
    assert_eq!(
        arguments(&chars, 0),
        Some((vec!["a".to_string(), "b".to_string(), "c d".to_string()], 10))
    );
    assert_eq!(arguments(&chars, 12), None);
    let chars = to_chars("key a  b\t\"c d\"  \nnext");
    assert_eq!(key_value(&chars, 0), Some((directive(other("key"), &["a", "b", "c d"]), 16)));
}

#[test]
fn the_name_of_a_keyword_is_in_lower_case() {
    assert_eq!(Keyword::Host.name(), "host");
    assert_eq!(Keyword::Hostname.name(), "hostname");
    assert_eq!(other("user").name(), "user");
    assert_eq!(Keyword::named("host".to_string()), Keyword::Host);
    assert_eq!(Keyword::named("hostname".to_string()), Keyword::Hostname);
    assert_eq!(Keyword::named("hosts".to_string()), other("hosts"));
    assert_eq!(String::from(Keyword::Hostname), "hostname");
}

#[test]
fn directives_written_in_quotes_are_read_back() {
    let written = [
        ("Host", vec!["a b", "c"]),
        ("HOSTNAME", vec!["  spaced  out  "]),
        ("IdentityFile", vec!["~/.ssh/id key", "=", "#", "tab\there"]),
    ];
    let mut text = String::new();
    for (word, list) in &written {
        text.push_str(word);
        for argument in list {
            text.push_str(" \"");
            text.push_str(argument);
            text.push('"');
        }
        text.push('\n');
    }

    assert_eq!(
        ssh_config_value_parser(&text),
        Ok(vec![
            directive(Keyword::Host, &["a b", "c"]),
            directive(Keyword::Hostname, &["  spaced  out  "]),
            directive(other("identityfile"), &["~/.ssh/id key", "=", "#", "tab\there"]),
        ])
    );
}

#[test]
fn blank_lines_change_nothing() {
    let plain = ssh_config_value_parser("a b\nc d\ne f").unwrap();
    assert_eq!(plain.len(), 3);
    assert_eq!(ssh_config_value_parser("\n\na b\n \t \nc d\r\n\r\n\ne f\n\n  ").unwrap(), plain);
}
