use ports_box::config::{
    check_target, default_check_secs, default_flush_secs, default_state_path, default_true,
    finalize, is_yaml, resolve_quotas, validate, ApiConfig, ByteSize, Config, Protocol, Rule,
    StateFileConfig, UserConfig,
};
use ports_box::net::{IpAddress, ListenAddr, SocketAddress, Target};

/// The address `0.0.0.0:port`.
fn any(port: u16) -> ListenAddr {
    ListenAddr {
        addr: SocketAddress::new(IpAddress::V4(0), port),
        text: format!("0.0.0.0:{port}"),
    }
}

/// The address `127.0.0.1:port`.
fn local(port: u16) -> ListenAddr {
    ListenAddr {
        addr: SocketAddress::new(IpAddress::V4(0x7f00_0001), port),
        text: format!("127.0.0.1:{port}"),
    }
}

fn named(text: &str) -> Target {
    Target { text: text.to_string(), literal: None }
}

fn rule(port: u16) -> Rule {
    Rule {
        listen: any(port),
        target: named("x:1"),
        fallback: vec![],
        check_secs: default_check_secs(),
        protocol: Protocol::default(),
        enabled: default_true(),
        tag: None,
    }
}

fn user(name: &str, quota: Option<ByteSize>, rules: Vec<Rule>) -> UserConfig {
    UserConfig { name: name.to_string(), quota, rules }
}

fn users(total: Option<ByteSize>, users: Vec<UserConfig>) -> Config {
    Config { state_file: None, api: None, total_quota: total, rules: vec![], users }
}

fn rules(rules: Vec<Rule>) -> Config {
    Config { state_file: None, api: None, total_quota: None, rules, users: vec![] }
}

fn size(text: &str) -> Option<ByteSize> {
    Some(ByteSize::from_text(text).unwrap())
}

fn state_section() -> StateFileConfig {
    StateFileConfig {
        enabled: default_true(),
        path: default_state_path(),
        flush_secs: default_flush_secs(),
    }
}

#[test]
fn quota_from_number_or_string() {
    let config = finalize(users(
        None,
        vec![
            user("a", Some(ByteSize::from_signed(1048576).unwrap()), vec![rule(1)]),
            user("b", size("1MB"), vec![rule(2)]),
        ],
    ))
    .unwrap();
    let quotas = resolve_quotas(&config);
    assert_eq!(quotas.get("a"), Some(&Some(1 << 20)));
    assert_eq!(quotas.get("b"), Some(&Some(1 << 20)));
}

#[test]
fn total_quota_split_evenly_among_unset() {
    let config = finalize(users(
        size("100GB"),
        vec![
            user("a", size("30GB"), vec![rule(1)]),
            user("b", None, vec![rule(2)]),
            user("c", None, vec![rule(3)]),
        ],
    ))
    .unwrap();
    let quotas = resolve_quotas(&config);
    assert_eq!(quotas.get("a"), Some(&Some(30u64 << 30)));
    assert_eq!(quotas.get("b"), Some(&Some(50u64 << 30)));
    assert_eq!(quotas.get("c"), Some(&Some(50u64 << 30)));
}

#[test]
fn missing_quota_and_total_means_unlimited() {
    let config = finalize(users(
        None,
        vec![
            user("a", None, vec![rule(1)]),
            user("b", size("1MB"), vec![rule(2)]),
        ],
    ))
    .unwrap();
    let quotas = resolve_quotas(&config);
    assert_eq!(quotas.get("a"), Some(&None));
    assert_eq!(quotas.get("b"), Some(&Some(1 << 20)));
}

#[test]
fn shares_never_exceed_the_total() {
    let config = finalize(users(
        Some(ByteSize(100)),
        vec![
            user("a", None, vec![rule(1)]),
            user("b", None, vec![rule(2)]),
            user("c", None, vec![rule(3)]),
        ],
    ))
    .unwrap();
    let quotas = resolve_quotas(&config);
    for name in ["a", "b", "c"] {
        assert_eq!(quotas.get(name), Some(&Some(33)));
    }
    assert_eq!(quotas.get("d"), None);
}

#[test]
fn total_is_ignored_when_everyone_has_a_quota() {
    let config = finalize(users(
        Some(ByteSize(100)),
        vec![user("a", Some(ByteSize(0)), vec![rule(1)])],
    ))
    .unwrap();
    assert_eq!(resolve_quotas(&config).get("a"), Some(&Some(0)));
}

#[test]
fn duplicate_user_name_is_error() {
    let err = finalize(users(
        Some(ByteSize(1)),
        vec![
            user("a", None, vec![rule(1)]),
            user("a", None, vec![rule(2)]),
        ],
    ))
    .unwrap_err();
    assert!(err.contains("duplicate user"), "{err}");
    assert_eq!(err, "duplicate user name \"a\"");
}

#[test]
fn duplicate_listen_conflicts_by_protocol() {
    // Same port on tcp and udp is fine.
    let tcp = |port| Rule { protocol: Protocol::Tcp, ..rule(port) };
    let udp = |port| Rule { protocol: Protocol::Udp, ..rule(port) };
    finalize(users(
        Some(ByteSize(1)),
        vec![
            user("a", None, vec![tcp(1)]),
            user("b", None, vec![udp(1)]),
        ],
    ))
    .unwrap();
    // Default protocol "both" collides with an existing tcp listener.
    let err = finalize(users(
        Some(ByteSize(1)),
        vec![
            user("a", None, vec![tcp(1)]),
            user("b", None, vec![rule(1)]),
        ],
    ))
    .unwrap_err();
    assert!(err.contains("duplicate TCP"), "{err}");
    // And with an existing udp listener, once the tcp side is free.
    let err = finalize(users(
        Some(ByteSize(1)),
        vec![user("a", None, vec![udp(1), rule(1)])],
    ))
    .unwrap_err();
    assert_eq!(err, "duplicate UDP listen address 0.0.0.0:1");
}

#[test]
fn rule_tag_parses_and_defaults_none() {
    let config = finalize(users(
        Some(ByteSize(1)),
        vec![user(
            "a",
            None,
            vec![
                Rule { tag: Some("web".to_string()), ..rule(1) },
                rule(2),
            ],
        )],
    ))
    .unwrap();
    assert_eq!(config.users[0].rules[0].tag.as_deref(), Some("web"));
    assert_eq!(config.users[0].rules[1].tag, None);
}

#[test]
fn empty_rule_tag_is_error() {
    let err = finalize(users(
        Some(ByteSize(1)),
        vec![user("a", None, vec![Rule { tag: Some(String::new()), ..rule(1) }])],
    ))
    .unwrap_err();
    assert!(err.contains("tag cannot be empty"), "{err}");
    assert_eq!(err, "user \"a\": rule tag cannot be empty");
}

#[test]
fn disabled_rules_do_not_conflict() {
    finalize(users(
        Some(ByteSize(1)),
        vec![
            user("a", None, vec![Rule { enabled: false, ..rule(1) }]),
            user("b", None, vec![rule(1)]),
        ],
    ))
    .unwrap();
}

#[test]
fn disabled_rules_are_not_looked_at() {
    let broken = Rule {
        enabled: false,
        target: named(""),
        check_secs: 0,
        tag: Some(String::new()),
        ..rule(1)
    };
    finalize(rules(vec![broken])).unwrap();
}

#[test]
fn taking_out_disabled_rules_changes_no_judgement() {
    let off = || Rule { enabled: false, check_secs: 0, ..rule(1) };
    let good = |rules| users(None, vec![user("a", None, rules)]);
    assert!(validate(&good(vec![off(), rule(1), off()])).is_ok());
    assert!(validate(&good(vec![rule(1)])).is_ok());
    let clash = |rules| users(None, vec![user("a", None, rules), user("b", None, vec![rule(1)])]);
    assert_eq!(
        validate(&clash(vec![off(), rule(1), off()])),
        validate(&clash(vec![rule(1)]))
    );
    assert_eq!(
        validate(&clash(vec![rule(1)])).unwrap_err(),
        "duplicate TCP listen address 0.0.0.0:1"
    );
    assert_eq!(
        finalize(rules(vec![off(), Rule { check_secs: 0, ..rule(2) }])).unwrap_err(),
        finalize(rules(vec![Rule { check_secs: 0, ..rule(2) }])).unwrap_err()
    );
    // Top-level rules that are all disabled still stand for a user.
    assert!(finalize(rules(vec![off()])).is_ok());
    assert!(finalize(rules(vec![])).is_err());
}

#[test]
fn fallback_accepts_string_or_list() {
    let config = finalize(rules(vec![
        Rule { fallback: vec![named("y:1")], ..rule(1) },
        Rule { fallback: vec![named("y:1"), named("z:1")], ..rule(2) },
        rule(3),
    ]))
    .unwrap();
    let rules = &config.users[0].rules;
    let texts = |i: usize| -> Vec<&str> {
        rules[i].fallback.iter().map(|t| t.text.as_str()).collect()
    };
    assert_eq!(texts(0), vec!["y:1"]);
    assert_eq!(texts(1), vec!["y:1", "z:1"]);
    assert!(rules[2].fallback.is_empty());
    assert_eq!(rules[0].check_secs, 10);
}

#[test]
fn malformed_target_is_error() {
    for (target, want) in [
        ("example.com", "missing a port"),
        ("example.com:99999", "invalid port"),
    ] {
        let err =
            finalize(rules(vec![Rule { target: named(target), ..rule(1) }])).unwrap_err();
        assert!(err.contains(want), "{err}");
    }
    // Domains and IP literals both pass.
    let v6 = Target {
        text: "[::1]:80".to_string(),
        literal: Some(SocketAddress::new(IpAddress::V6(1), 80)),
    };
    finalize(rules(vec![Rule {
        target: named("example.com:80"),
        fallback: vec![v6],
        ..rule(1)
    }]))
    .unwrap();
}

#[test]
fn malformed_fallback_is_error() {
    let err = finalize(rules(vec![Rule {
        fallback: vec![named("y:1"), named("z"), named("w")],
        ..rule(1)
    }]))
    .unwrap_err();
    assert_eq!(err, "user \"default\": target \"z\" is missing a port");
    assert!(check_target(&named("y:1")).is_ok());
    assert_eq!(
        check_target(&named(":1")).unwrap_err(),
        "target \":1\" has an empty host"
    );
}

#[test]
fn empty_target_is_error() {
    let err = finalize(rules(vec![Rule { target: named(""), ..rule(1) }])).unwrap_err();
    assert_eq!(err, "user \"default\": rule target cannot be empty");
}

#[test]
fn empty_fallback_entry_is_error() {
    let err = finalize(rules(vec![Rule {
        fallback: vec![named("y:1"), named("")],
        ..rule(1)
    }]))
    .unwrap_err();
    assert!(err.contains("fallback target cannot be empty"), "{err}");
    assert_eq!(err, "user \"default\": rule fallback target cannot be empty");
}

#[test]
fn zero_check_secs_is_error() {
    let err = finalize(rules(vec![Rule { check_secs: 0, ..rule(1) }])).unwrap_err();
    assert!(err.contains("check_secs"), "{err}");
    assert_eq!(err, "user \"default\": rule check_secs must be at least 1");
}

#[test]
fn top_level_rules_make_default_user() {
    let config = finalize(rules(vec![rule(1)])).unwrap();
    assert_eq!(config.users.len(), 1);
    assert_eq!(config.users[0].name, "default");
    assert_eq!(config.users[0].rules.len(), 1);
    assert!(config.rules.is_empty());
    // Without quota/total_quota the implicit user is unlimited.
    assert_eq!(resolve_quotas(&config).get("default"), Some(&None));

    // total_quota becomes the implicit user's quota.
    let config = finalize(Config { total_quota: size("1MB"), ..rules(vec![rule(1)]) }).unwrap();
    assert_eq!(resolve_quotas(&config).get("default"), Some(&Some(1 << 20)));
}

#[test]
fn state_file_defaults_to_none() {
    let config = finalize(rules(vec![rule(1)])).unwrap();
    assert!(config.state_file.is_none());
}

#[test]
fn empty_state_file_section_uses_defaults() {
    let config = finalize(Config {
        state_file: Some(state_section()),
        ..rules(vec![rule(1)])
    })
    .unwrap();
    let state = config.state_file.unwrap();
    assert!(state.enabled);
    assert_eq!(state.path, "state.db");
    assert_eq!(state.flush_secs, 10);
}

#[test]
fn state_file_disabled_and_zero_flush_secs() {
    let config = finalize(Config {
        state_file: Some(StateFileConfig { enabled: false, ..state_section() }),
        ..rules(vec![rule(1)])
    })
    .unwrap();
    assert!(!config.state_file.unwrap().enabled);

    let err = finalize(Config {
        state_file: Some(StateFileConfig { flush_secs: 0, ..state_section() }),
        ..rules(vec![rule(1)])
    })
    .unwrap_err();
    assert!(err.contains("flush_secs"), "{err}");
    assert_eq!(err, "state_file flush_secs must be at least 1");
}

#[test]
fn top_level_rules_and_users_conflict() {
    let err = finalize(Config {
        rules: vec![rule(1)],
        ..users(None, vec![user("a", None, vec![rule(2)])])
    })
    .unwrap_err();
    assert!(err.contains("cannot both be set"), "{err}");
    assert_eq!(err, "top-level rules and users cannot both be set");
}

#[test]
fn empty_config_is_error() {
    let err = finalize(rules(vec![])).unwrap_err();
    assert!(err.contains("no users or rules"), "{err}");
    assert_eq!(err, "config has no users or rules");
}

#[test]
fn empty_user_name_is_error() {
    let err = finalize(users(None, vec![user("", None, vec![rule(1)])])).unwrap_err();
    assert_eq!(err, "user name cannot be empty");
}

#[test]
fn names_in_messages_are_quoted() {
    let err = finalize(users(
        None,
        vec![user("a\"b", None, vec![Rule { check_secs: 0, ..rule(1) }])],
    ))
    .unwrap_err();
    assert_eq!(err, "user \"a\\\"b\": rule check_secs must be at least 1");
}

#[test]
fn first_offence_is_reported() {
    let config = users(
        None,
        vec![
            user("a", None, vec![rule(1), Rule { check_secs: 0, ..rule(1) }]),
            user("", None, vec![]),
        ],
    );
    assert_eq!(
        validate(&config).unwrap_err(),
        "user \"a\": rule check_secs must be at least 1"
    );
}

#[test]
fn api_listen_conflicts_with_tcp_rule() {
    let config = |protocol| Config {
        api: Some(ApiConfig { listen: local(7070), token: None }),
        ..users(
            Some(ByteSize(1)),
            vec![user("a", None, vec![Rule { listen: local(7070), protocol, ..rule(1) }])],
        )
    };
    let err = finalize(config(Protocol::Both)).unwrap_err();
    assert!(err.contains("duplicate TCP"), "{err}");
    assert_eq!(err, "duplicate TCP listen address 127.0.0.1:7070");
    // The API does not listen on UDP.
    finalize(config(Protocol::Udp)).unwrap();
}

#[test]
fn extension_decides_on_yaml() {
    for extension in ["yaml", "yml", "YAML", "Yml"] {
        assert!(is_yaml(extension), "{extension}");
    }
    for extension in ["", "json", "yamll", "conf", "y ml"] {
        assert!(!is_yaml(extension), "{extension}");
    }
}

#[test]
fn protocols_show_and_cover() {
    assert_eq!(Protocol::default(), Protocol::Both);
    for (protocol, text, tcp, udp) in [
        (Protocol::Both, "tcp+udp", true, true),
        (Protocol::Tcp, "tcp", true, false),
        (Protocol::Udp, "udp", false, true),
    ] {
        assert_eq!(protocol.text(), text);
        assert_eq!(protocol.tcp(), tcp);
        assert_eq!(protocol.udp(), udp);
    }
}
