use ports_box::clock::Clock;
use ports_box::config::{ByteSize, Config, Protocol, Rule, StateFileConfig, UserConfig};
use ports_box::net::{IpAddress, ListenAddr, SocketAddress, Target};
use ports_box::plan::{persistence, plan_rules, start_users};
use ports_box::quota::SavedUsage;
use ports_box::state::{collect_rows, UsageRow};

fn rule(port: u16, protocol: Protocol, fallback: &[&str]) -> Rule {
    let named = |text: &str| Target { text: text.to_string(), literal: None };
    Rule {
        listen: ListenAddr {
            addr: SocketAddress::new(IpAddress::V4(0), port),
            text: format!("0.0.0.0:{port}"),
        },
        target: named("x:1"),
        fallback: fallback.iter().map(|text| named(text)).collect(),
        check_secs: 15,
        protocol,
        enabled: true,
        tag: None,
    }
}

fn config(users: Vec<UserConfig>) -> Config {
    Config { state_file: None, api: None, total_quota: None, rules: vec![], users }
}

fn user(name: &str, quota: Option<u64>, rules: Vec<Rule>) -> UserConfig {
    UserConfig { name: name.to_string(), quota: quota.map(ByteSize), rules }
}

#[test]
fn enabled_rules_are_planned_in_order() {
    let off = Rule { enabled: false, ..rule(9, Protocol::Both, &[]) };
    let plans = plan_rules(&config(vec![
        user("a", None, vec![off, rule(1, Protocol::Both, &[])]),
        user("b", None, vec![]),
        user("c", None, vec![rule(2, Protocol::Tcp, &[]), rule(3, Protocol::Udp, &[])]),
    ]));
    let places: Vec<(usize, usize)> = plans.iter().map(|p| (p.user, p.rule)).collect();
    assert_eq!(places, vec![(0, 1), (2, 0), (2, 1)]);
    let sides: Vec<(bool, bool)> = plans.iter().map(|p| (p.tcp, p.udp)).collect();
    assert_eq!(sides, vec![(true, true), (true, false), (false, true)]);
    for plan in &plans {
        assert_eq!(plan.targets, vec!["x:1"]);
        assert_eq!(plan.cooldown_secs, None);
        assert_eq!(plan.probe_secs, None);
    }
}

#[test]
fn targets_recover_by_probe_or_cooldown() {
    let plans = plan_rules(&config(vec![user(
        "a",
        None,
        vec![
            rule(1, Protocol::Both, &["y:1", "z:1"]),
            rule(2, Protocol::Tcp, &["y:1"]),
            rule(3, Protocol::Udp, &["y:1"]),
        ],
    )]));
    assert_eq!(plans[0].targets, vec!["x:1", "y:1", "z:1"]);
    assert_eq!((plans[0].probe_secs, plans[0].cooldown_secs), (Some(15), None));
    assert_eq!((plans[1].probe_secs, plans[1].cooldown_secs), (Some(15), None));
    assert_eq!((plans[2].probe_secs, plans[2].cooldown_secs), (None, Some(15)));
}

#[test]
fn users_start_from_what_was_saved() {
    let clock = Clock::with_offset(0);
    let unix = 1_800_000_000;
    let saved = collect_rows(vec![UsageRow {
        user: "b".to_string(),
        usage: SavedUsage { upload: 70, settled: 60, hour_upload: 10, ..Default::default() },
    }]);
    let config = Config {
        total_quota: Some(ByteSize(100)),
        ..config(vec![
            user("a", None, vec![]),
            user("b", Some(70), vec![]),
            user("c", None, vec![]),
        ])
    };
    let users = start_users(&config, &saved, &clock, unix);
    let names: Vec<&str> = users.iter().map(|u| u.name()).collect();
    assert_eq!(names, vec!["a", "b", "c"]);
    let limits: Vec<Option<u64>> = users.iter().map(|u| u.limit()).collect();
    assert_eq!(limits, vec![Some(50), Some(70), Some(50)]);
    let used: Vec<u64> = users.iter().map(|u| u.used()).collect();
    assert_eq!(used, vec![0, 70, 0]);
    assert!(users[1].is_exhausted());
    assert!(!users[0].is_exhausted());
    assert_eq!(users[0].snapshot().hour_id, 500_000);
}

#[test]
fn usage_is_kept_only_where_configured() {
    let section = |enabled| StateFileConfig { enabled, path: "x.db".to_string(), flush_secs: 3 };
    let mut config = config(vec![]);
    assert!(persistence(&config).is_none());
    config.state_file = Some(section(false));
    assert!(persistence(&config).is_none());
    config.state_file = Some(section(true));
    let kept = persistence(&config).unwrap();
    assert_eq!((kept.path.as_str(), kept.flush_secs), ("x.db", 3));
}
