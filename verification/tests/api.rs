use ports_box::api::{authorize, get_user, list_users, sub_store, Credentials, Reply, UserUsage};
use ports_box::quota::{Direction, SavedUsage, UserQuota};

const H: i64 = 500_000;

const NOBODY: Credentials<'static> = Credentials { authorization: None, query_token: None };

fn alice() -> UserQuota {
    let mut alice = UserQuota::new_at("alice".into(), Some(1000), SavedUsage::default(), H);
    alice.try_consume_at(100, Direction::Upload, H);
    alice.try_consume_at(200, Direction::Download, H);
    alice
}

fn bob() -> UserQuota {
    let mut bob = UserQuota::new_at("bob".into(), None, SavedUsage::default(), H);
    bob.try_consume_at(5 << 20, Direction::Upload, H);
    bob.try_consume_at(1024, Direction::Download, H + 1);
    bob
}

fn texts(usage: &UserUsage) -> [&str; 5] {
    [&usage.name, &usage.total, &usage.used, &usage.hour_used, &usage.remaining]
        .map(|text| text.as_str())
}

#[test]
fn list_and_get_report_usage() {
    let alice = alice();
    let users = vec![&alice];
    // used = max(upload, download)
    let expected = ["alice", "1000B", "200B", "200B", "800B"];
    match list_users(None, &NOBODY, &users) {
        Reply::Found(list) => {
            assert_eq!(list.len(), 1);
            assert_eq!(texts(&list[0]), expected);
        }
        other => panic!("{other:?}"),
    }
    match get_user(None, &NOBODY, &users, "alice") {
        Reply::Found(usage) => assert_eq!(texts(&usage), expected),
        other => panic!("{other:?}"),
    }
    assert!(matches!(get_user(None, &NOBODY, &users, "missing"), Reply::NotFound));
}

#[test]
fn unlimited_users_say_so() {
    let bob = bob();
    assert_eq!(
        texts(&UserUsage::of(&bob)),
        ["bob", "unlimited", "5.00MB", "1.00KB", "unlimited"]
    );
    match sub_store(None, &NOBODY, &vec![&bob], "bob") {
        Reply::Found(info) => assert_eq!(info, "upload=5242880; download=1024"),
        other => panic!("{other:?}"),
    }
}

#[test]
fn sub_store_header() {
    let alice = alice();
    let users = vec![&alice];
    match sub_store(None, &NOBODY, &users, "alice") {
        Reply::Found(info) => assert_eq!(info, "upload=100; download=200; total=1000"),
        other => panic!("{other:?}"),
    }
    assert_eq!(sub_store(None, &NOBODY, &users, "Alice"), Reply::NotFound);
}

#[test]
fn token_via_bearer_or_query() {
    let alice = alice();
    let users = vec![&alice];
    for (query_token, authorization, granted) in [
        (None, None, false),
        (Some("wrong"), None, false),
        (Some("secret"), None, true),
        (None, Some("Bearer secret"), true),
        (None, Some("Bearer nope"), false),
        (None, Some("secret"), false),
        (None, Some("bearer secret"), false),
        (None, Some("Bearer  secret"), false),
        (Some("secret"), Some("Bearer nope"), true),
        (Some(""), Some(""), false),
    ] {
        let credentials = Credentials { authorization, query_token };
        let token = Some("secret");
        assert_eq!(authorize(token, &credentials), granted, "{credentials:?}");
        let list = list_users(token, &credentials, &users);
        assert_eq!(matches!(list, Reply::Found(_)), granted);
        assert_eq!(matches!(list, Reply::Unauthorized), !granted);
        let sub = sub_store(token, &credentials, &users, "alice");
        assert_eq!(matches!(sub, Reply::Found(_)), granted);
        assert_eq!(matches!(sub, Reply::Unauthorized), !granted);
    }
}

#[test]
fn the_refused_learn_nothing_of_the_users() {
    let alice = alice();
    for name in ["alice", "missing"] {
        for users in [vec![], vec![&alice]] {
            let token = Some("secret");
            assert!(matches!(get_user(token, &NOBODY, &users, name), Reply::Unauthorized));
            assert!(matches!(sub_store(token, &NOBODY, &users, name), Reply::Unauthorized));
            assert!(matches!(list_users(token, &NOBODY, &users), Reply::Unauthorized));
        }
    }
}

#[test]
fn users_are_listed_in_order() {
    let (alice, bob) = (alice(), bob());
    let users = vec![&bob, &alice];
    match list_users(None, &NOBODY, &users) {
        Reply::Found(list) => {
            let names: Vec<&str> = list.iter().map(|u| u.name.as_str()).collect();
            assert_eq!(names, vec!["bob", "alice"]);
        }
        other => panic!("{other:?}"),
    }
    match get_user(None, &NOBODY, &users, "alice") {
        Reply::Found(usage) => assert_eq!(usage.total, "1000B"),
        other => panic!("{other:?}"),
    }
}
