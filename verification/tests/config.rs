use fuzzy_ssh::ssh_config::config::{SSHConfig, SSHConfigValues};
use fuzzy_ssh::ssh_config::parser::{Directive, Keyword, ParseError};

fn strings(list: &[&str]) -> Vec<String> {
    list.iter().map(|s| s.to_string()).collect()
}

#[test]
fn test_parsing_and_saving_config() {
    let test_values = "key value\n\n\n\n      host value \"value 2\"";

    let config = SSHConfig::from_string(test_values).unwrap();

    assert_eq!(
        config.global_config.other_options.get("key"),
        Some(vec!["value".to_string()].as_ref())
    );

    match config.host_specific_config.get("value") {
        Some(host_config) => {
            assert_eq!(host_config.host, Some("value".to_string()));
        }
        None => assert!(false, "No host-specific config for \"value\""),
    }
}

#[test]
fn test_parsing_host_and_hostname() {
    let test_values = "host ahost\nhostname yourhostname";

    let config = SSHConfig::from_string(test_values).unwrap();

    match config.host_specific_config.get("ahost") {
        Some(host_config) => {
            assert_eq!(host_config.host, Some("ahost".to_string()));
            assert_eq!(host_config.hostname, Some("yourhostname".to_string()));
        }
        None => assert!(false, "No host-specific config for \"value\""),
    }
}

#[test]
fn a_host_named_twice_has_one_entry() {
    let config = SSHConfig::from_string("Host x\nHostname h1\nHost x\nfoo bar").unwrap();

    assert_eq!(config.host_specific_config.len(), 1);
    let entry = config.host_specific_config.get("x").unwrap();
    assert_eq!(entry.host, Some("x".to_string()));
    assert_eq!(entry.hostname, Some("h1".to_string()));
    assert_eq!(entry.other_options.get("foo"), Some(&strings(&["bar"])));
    assert_eq!(entry.other_options.get("hostname"), Some(&strings(&["h1"])));
    assert_eq!(entry.other_options.get("host"), Some(&strings(&["x"])));
    assert_eq!(entry.other_options.len(), 3);
    assert!(config.global_config.other_options.is_empty());
}

#[test]
fn directives_before_the_first_host_are_global() {
    let config = SSHConfig::from_string("key value\nHost x").unwrap();

    assert_eq!(config.global_config.other_options.get("key"), Some(&strings(&["value"])));
    assert_eq!(config.global_config.other_options.len(), 1);
    assert_eq!(config.global_config.host, None);
    assert_eq!(config.global_config.hostname, None);
    let entry = config.host_specific_config.get("x").unwrap();
    assert_eq!(entry.other_options.get("key"), None);
    assert_eq!(entry.other_options.get("host"), Some(&strings(&["x"])));
}

#[test]
fn a_global_hostname_is_kept_with_the_global_options() {
    let config = SSHConfig::from_string("HostName first second\nHost x").unwrap();

    assert_eq!(config.global_config.hostname, Some("first".to_string()));
    assert_eq!(
        config.global_config.other_options.get("hostname"),
        Some(&strings(&["first", "second"]))
    );
    assert_eq!(config.host_specific_config.get("x").unwrap().hostname, None);
}

#[test]
fn the_last_directive_of_a_keyword_wins() {
    let config = SSHConfig::from_string(
        "Host x alias\nUser one\nHostname h1\nuser two three\nHostname h2\nHost x other",
    )
    .unwrap();

    let entry = config.host_specific_config.get("x").unwrap();
    assert_eq!(entry.other_options.get("user"), Some(&strings(&["two", "three"])));
    assert_eq!(entry.hostname, Some("h2".to_string()));
    assert_eq!(entry.other_options.get("host"), Some(&strings(&["x", "other"])));
    assert!(!config.host_specific_config.contains_key("alias"));
    assert!(!config.host_specific_config.contains_key("other"));
}

#[test]
fn hosts_are_kept_in_the_order_of_their_names() {
    let config =
        SSHConfig::from_string("Host mid\nHost zed\nHost Alpha\nHost alpha\nHost mi\nHost mid")
            .unwrap();

    let hosts = &config.host_specific_config;
    assert_eq!(hosts.len(), 5);
    let names: Vec<&str> = (0..hosts.len()).map(|i| hosts.key_at(i).as_str()).collect();
    assert_eq!(names, vec!["Alpha", "alpha", "mi", "mid", "zed"]);
    assert_eq!(hosts.position("mid"), Some(3));
    assert_eq!(hosts.position("m"), None);
    assert_eq!(hosts.value_at(4).host, Some("zed".to_string()));
    let values: Vec<Option<String>> =
        config.host_specific_config.into_values().into_iter().map(|v| v.host).collect();
    assert_eq!(
        values,
        vec!["Alpha", "alpha", "mi", "mid", "zed"]
            .into_iter()
            .map(|s| Some(s.to_string()))
            .collect::<Vec<_>>()
    );
}

#[test]
fn a_text_that_is_not_directives_gives_no_configuration() {
    let error = SSHConfig::from_string("Host x\n???\nHost y").unwrap_err();
    assert_eq!(error, ParseError { offset: 7, remaining: "???\nHost y".to_string() });
    assert_eq!(error.message(), "not a directive: ???\nHost y");
}

#[test]
fn a_configuration_is_built_from_directives() {
    let config = SSHConfig::from_parser(vec![
        Directive { keyword: Keyword::Other("a".to_string()), arguments: vec![] },
        Directive { keyword: Keyword::Host, arguments: strings(&["h"]) },
        Directive { keyword: Keyword::Other("a".to_string()), arguments: strings(&["1"]) },
    ]);

    assert_eq!(config.global_config.other_options.get("a"), Some(&vec![]));
    assert_eq!(
        config.host_specific_config.get("h").unwrap().other_options.get("a"),
        Some(&strings(&["1"]))
    );
}

#[test]
fn new_values_hold_nothing() {
    let values = SSHConfigValues::new();
    assert_eq!(values.host, None);
    assert_eq!(values.hostname, None);
    assert!(values.other_options.is_empty());

    let mut values = SSHConfigValues::with_host("h".to_string());
    assert_eq!(values.host, Some("h".to_string()));
    assert_eq!(values.hostname, None);
    assert!(values.other_options.is_empty());

    values.insert_config("key".to_string(), strings(&["a"]));
    values.insert_config("key".to_string(), strings(&["b", "c"]));
    assert_eq!(values.other_options.get("key"), Some(&strings(&["b", "c"])));
    assert_eq!(values.other_options.len(), 1);
}
