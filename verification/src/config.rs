//! The configuration: its shape, its defaults, and the rules it has to obey.

use crate::dns::{split_target, target_parts};
use crate::net::{ListenAddr, SocketAddress, Target};
use crate::size::parsed_size;
pub use crate::size::{format_size, parse_size};
use crate::text::{
    chars_are, chars_of, debug_text, outcome, quote, quote_last, to_uppercase, uppercase,
};
use vstd::hash_map::StringHashMap;
use vstd::hash_set::StringHashSet;
use vstd::prelude::*;
use vstd::string::*;

verus! {

/// The whole configuration.
#[derive(Debug)]
pub struct Config {
    pub state_file: Option<StateFileConfig>,
    pub api: Option<ApiConfig>,
    pub total_quota: Option<ByteSize>,
    /// Single-user shorthand: top-level rules become a user named "default".
    /// Mutually exclusive with `users`.
    pub rules: Vec<Rule>,
    pub users: Vec<UserConfig>,
}

/// Optional usage persistence. Without it counters live in memory only.
#[derive(Debug)]
pub struct StateFileConfig {
    pub enabled: bool,
    pub path: String,
    pub flush_secs: u64,
}

/// The query API.
#[derive(Debug)]
pub struct ApiConfig {
    pub listen: ListenAddr,
    pub token: Option<String>,
}

/// A user: a group of rules that share one quota.
#[derive(Debug)]
pub struct UserConfig {
    pub name: String,
    pub quota: Option<ByteSize>,
    pub rules: Vec<Rule>,
}

/// One forwarding rule.
#[derive(Debug)]
pub struct Rule {
    pub listen: ListenAddr,
    pub target: Target,
    /// Backup targets in priority order.
    pub fallback: Vec<Target>,
    /// Health check interval in seconds; also the retry cooldown of UDP-only
    /// rules, which cannot be probed.
    pub check_secs: u64,
    pub protocol: Protocol,
    pub enabled: bool,
    pub tag: Option<String>,
}

/// What a rule forwards.
#[derive(Debug, Clone, Copy, PartialEq, Eq, Structural)]
pub enum Protocol {
    Both,
    Tcp,
    Udp,
}

impl Default for Protocol {
    fn default() -> (r: Protocol)
        ensures
            r == Protocol::Both,
    {
        Protocol::Both
    }
}

impl Protocol {
    pub open spec fn has_tcp(self) -> bool {
        self is Both || self is Tcp
    }

    pub open spec fn has_udp(self) -> bool {
        self is Both || self is Udp
    }

    /// Whether TCP is forwarded.
    pub fn tcp(self) -> (r: bool)
        ensures
            r == self.has_tcp(),
    {
        matches!(self, Protocol::Both | Protocol::Tcp)
    }

    /// Whether UDP is forwarded.
    pub fn udp(self) -> (r: bool)
        ensures
            r == self.has_udp(),
    {
        matches!(self, Protocol::Both | Protocol::Udp)
    }

    /// The protocol as it is shown in logs.
    pub fn text(self) -> (r: &'static str)
        ensures
            r@ == match self {
                Protocol::Both => "tcp+udp"@,
                Protocol::Tcp => "tcp"@,
                Protocol::Udp => "udp"@,
            },
    {
        match self {
            Protocol::Both => "tcp+udp",
            Protocol::Tcp => "tcp",
            Protocol::Udp => "udp",
        }
    }
}

/// A byte count, written as an integer or as a size string like "500MB".
#[derive(Debug, Clone, Copy, PartialEq, Eq, Structural)]
pub struct ByteSize(pub u64);

impl ByteSize {
    /// The byte count of a signed integer.
    pub fn from_signed(v: i64) -> (r: Result<ByteSize, String>)
        ensures
            outcome(r) == if v < 0 {
                Err::<ByteSize, Seq<char>>("byte size cannot be negative"@)
            } else {
                Ok(ByteSize(v as u64))
            },
    {
        if v < 0 {
            Err("byte size cannot be negative".to_owned())
        } else {
            Ok(ByteSize(v as u64))
        }
    }

    /// The byte count of a size string.
    pub fn from_text(s: &str) -> (r: Result<ByteSize, String>)
        ensures
            outcome(r) == match parsed_size(s@) {
                Ok(bytes) => Ok::<ByteSize, Seq<char>>(ByteSize(bytes)),
                Err(message) => Err(message),
            },
    {
        match parse_size(s) {
            Ok(bytes) => Ok(ByteSize(bytes)),
            Err(message) => Err(message),
        }
    }
}

/// The database that usage is kept in unless another is named.
pub fn default_state_path() -> (r: String)
    ensures
        r@ == "state.db"@,
{
    "state.db".to_owned()
}

/// The seconds between two flushes.
pub fn default_flush_secs() -> (r: u64)
    ensures
        r == 10,
{
    10
}

/// Sections and rules are enabled unless they say otherwise.
pub fn default_true() -> (r: bool)
    ensures
        r,
{
    true
}

/// The seconds between two health checks.
pub fn default_check_secs() -> (r: u64)
    ensures
        r == 10,
{
    10
}

/// Whether a file with this extension is read as YAML; any other is read as JSON.
pub fn is_yaml(extension: &str) -> (r: bool)
    ensures
        r == (uppercase(extension@) == "YAML"@ || uppercase(extension@) == "YML"@),
{
    let upper = to_uppercase(&chars_of(extension));
    chars_are(&upper, "YAML") || chars_are(&upper, "YML")
}

/// What is wrong with a target: nothing with an IP literal with a port, nor with
/// a `host:port` shape, whose host is resolved at connect time.
pub open spec fn target_error(target: Target) -> Option<Seq<char>> {
    if target.literal is Some {
        None
    } else {
        match target_parts(target.text@) {
            Err(message) => Some(message),
            Ok(parts) => None,
        }
    }
}

/// Accepts an IP literal with a port, or a `host:port` shape.
pub fn check_target(target: &Target) -> (r: Result<(), String>)
    ensures
        outcome(r) == match target_error(*target) {
            Some(message) => Err::<(), Seq<char>>(message),
            None => Ok(()),
        },
{
    if target.literal.is_some() {
        return Ok(());
    }
    match split_target(target.text.as_str()) {
        Ok(parts) => Ok(()),
        Err(message) => Err(message),
    }
}

/// A message about a user.
pub open spec fn about_user(name: Seq<char>, what: Seq<char>) -> Option<Seq<char>> {
    Some("user "@ + debug_text(name) + what)
}

/// The targets of a rule in priority order.
pub open spec fn rule_targets(rule: Rule) -> Seq<Target> {
    seq![rule.target] + rule.fallback@
}

/// What is wrong with the first of the targets that is malformed.
pub open spec fn targets_error(targets: Seq<Target>) -> Option<Seq<char>>
    decreases targets.len(),
{
    if targets.len() == 0 {
        None
    } else if target_error(targets[0]) is Some {
        target_error(targets[0])
    } else {
        targets_error(targets.skip(1))
    }
}

/// Some backup target is empty.
pub open spec fn has_empty_fallback(rule: Rule) -> bool {
    exists|i: int| 0 <= i < rule.fallback@.len() && (#[trigger] rule.fallback@[i]).text@.len() == 0
}

/// A rule that takes part in forwarding TCP.
pub open spec fn listens_tcp(rule: Rule) -> bool {
    rule.enabled && rule.protocol.has_tcp()
}

/// A rule that takes part in forwarding UDP.
pub open spec fn listens_udp(rule: Rule) -> bool {
    rule.enabled && rule.protocol.has_udp()
}

/// What is wrong with a rule of the named user, where `tcp` and `udp` are taken
/// already. Disabled rules are not looked at.
pub open spec fn rule_error(
    name: Seq<char>,
    rule: Rule,
    tcp: Set<SocketAddress>,
    udp: Set<SocketAddress>,
) -> Option<Seq<char>> {
    if !rule.enabled {
        None
    } else if rule.target.text@.len() == 0 {
        about_user(name, ": rule target cannot be empty"@)
    } else if has_empty_fallback(rule) {
        about_user(name, ": rule fallback target cannot be empty"@)
    } else if targets_error(rule_targets(rule)) is Some {
        about_user(name, ": "@ + targets_error(rule_targets(rule))->0)
    } else if rule.check_secs == 0 {
        about_user(name, ": rule check_secs must be at least 1"@)
    } else if rule.tag is Some && rule.tag->0@.len() == 0 {
        about_user(name, ": rule tag cannot be empty"@)
    } else if rule.protocol.has_tcp() && tcp.contains(rule.listen.addr) {
        Some("duplicate TCP listen address "@ + rule.listen.text@)
    } else if rule.protocol.has_udp() && udp.contains(rule.listen.addr) {
        Some("duplicate UDP listen address "@ + rule.listen.text@)
    } else {
        None
    }
}

/// The TCP addresses that are taken once a rule is accepted.
pub open spec fn with_tcp(tcp: Set<SocketAddress>, rule: Rule) -> Set<SocketAddress> {
    if listens_tcp(rule) {
        tcp.insert(rule.listen.addr)
    } else {
        tcp
    }
}

/// The UDP addresses that are taken once a rule is accepted.
pub open spec fn with_udp(udp: Set<SocketAddress>, rule: Rule) -> Set<SocketAddress> {
    if listens_udp(rule) {
        udp.insert(rule.listen.addr)
    } else {
        udp
    }
}

/// What is wrong with the first of the rules that is wrong.
pub open spec fn rules_error(
    name: Seq<char>,
    rules: Seq<Rule>,
    tcp: Set<SocketAddress>,
    udp: Set<SocketAddress>,
) -> Option<Seq<char>>
    decreases rules.len(),
{
    if rules.len() == 0 {
        None
    } else if rule_error(name, rules[0], tcp, udp) is Some {
        rule_error(name, rules[0], tcp, udp)
    } else {
        rules_error(name, rules.skip(1), with_tcp(tcp, rules[0]), with_udp(udp, rules[0]))
    }
}

/// The TCP addresses that are taken once all the rules are accepted.
pub open spec fn with_all_tcp(tcp: Set<SocketAddress>, rules: Seq<Rule>) -> Set<SocketAddress>
    decreases rules.len(),
{
    if rules.len() == 0 {
        tcp
    } else {
        with_all_tcp(with_tcp(tcp, rules[0]), rules.skip(1))
    }
}

/// The UDP addresses that are taken once all the rules are accepted.
pub open spec fn with_all_udp(udp: Set<SocketAddress>, rules: Seq<Rule>) -> Set<SocketAddress>
    decreases rules.len(),
{
    if rules.len() == 0 {
        udp
    } else {
        with_all_udp(with_udp(udp, rules[0]), rules.skip(1))
    }
}

/// What is wrong with the first of the users that is wrong, where `names`, `tcp`
/// and `udp` are taken already.
pub open spec fn users_error(
    users: Seq<UserConfig>,
    names: Set<Seq<char>>,
    tcp: Set<SocketAddress>,
    udp: Set<SocketAddress>,
) -> Option<Seq<char>>
    decreases users.len(),
{
    if users.len() == 0 {
        None
    } else {
        let user = users[0];
        if user.name@.len() == 0 {
            Some("user name cannot be empty"@)
        } else if names.contains(user.name@) {
            Some("duplicate user name "@ + debug_text(user.name@))
        } else if rules_error(user.name@, user.rules@, tcp, udp) is Some {
            rules_error(user.name@, user.rules@, tcp, udp)
        } else {
            users_error(
                users.skip(1),
                names.insert(user.name@),
                with_all_tcp(tcp, user.rules@),
                with_all_udp(udp, user.rules@),
            )
        }
    }
}

/// The TCP addresses that are taken before any rule.
pub open spec fn api_tcp(config: Config) -> Set<SocketAddress> {
    match config.api {
        Some(api) => Set::empty().insert(api.listen.addr),
        None => Set::empty(),
    }
}

/// What is wrong with a configuration, if anything is: the first offence in the
/// order of the file.
pub open spec fn config_error(config: Config) -> Option<Seq<char>> {
    if config.users@.len() == 0 {
        Some("config has no users or rules"@)
    } else if config.state_file is Some && config.state_file->0.flush_secs == 0 {
        Some("state_file flush_secs must be at least 1"@)
    } else {
        users_error(config.users@, Set::empty(), api_tcp(config), Set::empty())
    }
}

/// Addresses that are taken already.
struct AddressSet {
    items: Vec<SocketAddress>,
}

impl View for AddressSet {
    type V = Set<SocketAddress>;

    closed spec fn view(&self) -> Set<SocketAddress> {
        self.items@.to_set()
    }
}

impl AddressSet {
    fn new() -> (r: AddressSet)
        ensures
            r@ == Set::<SocketAddress>::empty(),
    {
        let r = AddressSet { items: Vec::new() };
        proof {
            assert(r@ =~= Set::<SocketAddress>::empty());
        }
        r
    }

    /// Takes an address; says whether it was free.
    fn insert(&mut self, addr: SocketAddress) -> (free: bool)
        ensures
            final(self)@ == old(self)@.insert(addr),
            free == !old(self)@.contains(addr),
    {
        let mut i: usize = 0;
        while i < self.items.len()
            invariant
                i <= self.items@.len(),
                self.items@ == old(self).items@,
                forall|j: int| 0 <= j < i ==> self.items@[j] != addr,
            decreases self.items@.len() - i,
        {
            if self.items[i] == addr {
                proof {
                    assert(old(self).items@.contains(addr));
                    assert(self@ =~= old(self)@.insert(addr));
                }
                return false;
            }
            i = i + 1;
        }
        self.items.push(addr);
        proof {
            assert forall|a: SocketAddress|
                self.items@.contains(a) == (old(self).items@.contains(a) || a == addr) by {
                if old(self).items@.contains(a) {
                    let k = choose|k: int|
                        0 <= k < old(self).items@.len() && old(self).items@[k] == a;
                    assert(self.items@[k] == a);
                }
                if a == addr {
                    assert(self.items@[self.items@.len() - 1] == a);
                }
            }
            assert(self@ =~= old(self)@.insert(addr));
        }
        true
    }
}

/// What is wrong with the targets of a rule.
fn check_targets(rule: &Rule) -> (r: Result<(), String>)
    ensures
        outcome(r) == match targets_error(rule_targets(*rule)) {
            Some(message) => Err::<(), Seq<char>>(message),
            None => Ok(()),
        },
{
    let ghost targets = rule_targets(*rule);
    if let Err(message) = check_target(&rule.target) {
        return Err(message);
    }
    proof {
        assert(targets.skip(1) =~= rule.fallback@.skip(0));
    }
    let mut i: usize = 0;
    while i < rule.fallback.len()
        invariant
            i <= rule.fallback@.len(),
            targets_error(rule_targets(*rule)) == targets_error(rule.fallback@.skip(i as int)),
        decreases rule.fallback@.len() - i,
    {
        proof {
            assert(rule.fallback@.skip(i as int)[0] == rule.fallback@[i as int]);
            assert(rule.fallback@.skip(i as int).skip(1) =~= rule.fallback@.skip(i as int + 1));
        }
        if let Err(message) = check_target(&rule.fallback[i]) {
            return Err(message);
        }
        i = i + 1;
    }
    Ok(())
}

fn any_fallback_empty(rule: &Rule) -> (r: bool)
    ensures
        r == has_empty_fallback(*rule),
{
    let mut i: usize = 0;
    while i < rule.fallback.len()
        invariant
            i <= rule.fallback@.len(),
            forall|j: int| 0 <= j < i ==> (#[trigger] rule.fallback@[j]).text@.len() > 0,
        decreases rule.fallback@.len() - i,
    {
        if rule.fallback[i].text.as_str().is_empty() {
            return true;
        }
        i = i + 1;
    }
    false
}

fn listen_message(before: &str, listen: &ListenAddr) -> (r: String)
    ensures
        r@ == before@ + listen.text@,
{
    let mut r: String = String::new();
    r.append(before);
    r.append(listen.text.as_str());
    proof {
        assert(r@ =~= before@ + listen.text@);
    }
    r
}

/// Judges one rule and takes its addresses.
fn check_rule(name: &str, rule: &Rule, tcp: &mut AddressSet, udp: &mut AddressSet) -> (r: Result<
    (),
    String,
>)
    ensures
        outcome(r) == match rule_error(name@, *rule, old(tcp)@, old(udp)@) {
            Some(message) => Err::<(), Seq<char>>(message),
            None => Ok(()),
        },
        r is Ok ==> final(tcp)@ == with_tcp(old(tcp)@, *rule) && final(udp)@ == with_udp(
            old(udp)@,
            *rule,
        ),
{
    if !rule.enabled {
        return Ok(());
    }
    if rule.target.text.as_str().is_empty() {
        return Err(quote("user ", name, ": rule target cannot be empty"));
    }
    if any_fallback_empty(rule) {
        return Err(quote("user ", name, ": rule fallback target cannot be empty"));
    }
    if let Err(message) = check_targets(rule) {
        let mut what: String = String::new();
        what.append(": ");
        what.append(message.as_str());
        proof {
            assert(what@ =~= ": "@ + message@);
        }
        return Err(quote("user ", name, what.as_str()));
    }
    if rule.check_secs == 0 {
        return Err(quote("user ", name, ": rule check_secs must be at least 1"));
    }
    if let Some(tag) = &rule.tag {
        if tag.as_str().is_empty() {
            return Err(quote("user ", name, ": rule tag cannot be empty"));
        }
    }
    if rule.protocol.tcp() && !tcp.insert(rule.listen.addr) {
        return Err(listen_message("duplicate TCP listen address ", &rule.listen));
    }
    if rule.protocol.udp() && !udp.insert(rule.listen.addr) {
        return Err(listen_message("duplicate UDP listen address ", &rule.listen));
    }
    Ok(())
}

/// Judges the rules of a user in order and takes their addresses.
fn check_rules(user: &UserConfig, tcp: &mut AddressSet, udp: &mut AddressSet) -> (r: Result<
    (),
    String,
>)
    ensures
        outcome(r) == match rules_error(user.name@, user.rules@, old(tcp)@, old(udp)@) {
            Some(message) => Err::<(), Seq<char>>(message),
            None => Ok(()),
        },
        r is Ok ==> final(tcp)@ == with_all_tcp(old(tcp)@, user.rules@) && final(udp)@
            == with_all_udp(old(udp)@, user.rules@),
{
    let ghost rules = user.rules@;
    let mut j: usize = 0;
    proof {
        assert(rules.skip(0) =~= rules);
    }
    while j < user.rules.len()
        invariant
            j <= rules.len(),
            rules == user.rules@,
            rules_error(user.name@, rules, old(tcp)@, old(udp)@) == rules_error(
                user.name@,
                rules.skip(j as int),
                tcp@,
                udp@,
            ),
            with_all_tcp(old(tcp)@, rules) == with_all_tcp(tcp@, rules.skip(j as int)),
            with_all_udp(old(udp)@, rules) == with_all_udp(udp@, rules.skip(j as int)),
        decreases rules.len() - j,
    {
        proof {
            assert(rules.skip(j as int)[0] == rules[j as int]);
            assert(rules.skip(j as int).skip(1) =~= rules.skip(j as int + 1));
        }
        if let Err(message) = check_rule(user.name.as_str(), &user.rules[j], tcp, udp) {
            return Err(message);
        }
        j = j + 1;
    }
    Ok(())
}

/// Judges a configuration whose shorthand is folded in.
pub fn validate(config: &Config) -> (r: Result<(), String>)
    ensures
        outcome(r) == match config_error(*config) {
            Some(message) => Err::<(), Seq<char>>(message),
            None => Ok(()),
        },
{
    if config.users.len() == 0 {
        return Err("config has no users or rules".to_owned());
    }
    if let Some(state) = &config.state_file {
        if state.flush_secs == 0 {
            return Err("state_file flush_secs must be at least 1".to_owned());
        }
    }
    let ghost users = config.users@;
    let mut names = StringHashSet::new();
    let mut tcp = AddressSet::new();
    let mut udp = AddressSet::new();
    if let Some(api) = &config.api {
        tcp.insert(api.listen.addr);
    }
    let mut i: usize = 0;
    proof {
        assert(users.skip(0) =~= users);
    }
    while i < config.users.len()
        invariant
            i <= users.len(),
            users == config.users@,
            config_error(*config) == users_error(users.skip(i as int), names@, tcp@, udp@),
        decreases users.len() - i,
    {
        let user = &config.users[i];
        proof {
            assert(users.skip(i as int)[0] == users[i as int]);
            assert(users.skip(i as int).skip(1) =~= users.skip(i as int + 1));
        }
        if user.name.as_str().is_empty() {
            return Err("user name cannot be empty".to_owned());
        }
        if !names.insert(user.name.clone()) {
            return Err(quote_last("duplicate user name ", user.name.as_str()));
        }
        if let Err(message) = check_rules(user, &mut tcp, &mut udp) {
            return Err(message);
        }
        i = i + 1;
    }
    Ok(())
}

/// What a configuration becomes once top-level rules are folded into a user.
pub open spec fn is_folded(config: Config, folded: Config) -> bool {
    &&& folded.state_file == config.state_file
    &&& folded.api == config.api
    &&& folded.total_quota == config.total_quota
    &&& if config.rules@.len() == 0 {
        folded.users == config.users && folded.rules == config.rules
    } else {
        &&& folded.rules@.len() == 0
        &&& folded.users@.len() == 1
        &&& folded.users@[0].name@ == "default"@
        &&& folded.users@[0].quota is None
        &&& folded.users@[0].rules == config.rules
    }
}

/// What is wrong with a configuration before its top-level rules are folded in.
pub open spec fn final_error(config: Config) -> Option<Seq<char>> {
    if config.rules@.len() == 0 {
        config_error(config)
    } else if config.users@.len() > 0 {
        Some("top-level rules and users cannot both be set"@)
    } else if config.state_file is Some && config.state_file->0.flush_secs == 0 {
        Some("state_file flush_secs must be at least 1"@)
    } else {
        rules_error("default"@, config.rules@, api_tcp(config), Set::empty())
    }
}

/// Folds the single-user shorthand into `users`, then validates.
pub fn finalize(config: Config) -> (r: Result<Config, String>)
    ensures
        match final_error(config) {
            Some(message) => outcome(r) == Err::<Config, Seq<char>>(message),
            None => r is Ok && is_folded(config, r->Ok_0) && config_error(r->Ok_0) is None,
        },
{
    let mut config = config;
    let ghost given = config;
    if config.rules.len() > 0 {
        if config.users.len() > 0 {
            return Err("top-level rules and users cannot both be set".to_owned());
        }
        let mut rules: Vec<Rule> = Vec::new();
        std::mem::swap(&mut rules, &mut config.rules);
        config.users.push(UserConfig { name: "default".to_owned(), quota: None, rules });
        proof {
            let users = config.users@;
            reveal_strlit("default");
            assert(users.skip(1) =~= seq![]);
            assert(api_tcp(config) == api_tcp(given));
            reveal_with_fuel(users_error, 2);
        }
    }
    assert(is_folded(given, config));
    match validate(&config) {
        Ok(()) => Ok(config),
        Err(message) => Err(message),
    }
}

/// How many users have no quota of their own.
pub open spec fn unset_count(users: Seq<UserConfig>) -> nat
    decreases users.len(),
{
    if users.len() == 0 {
        0
    } else {
        unset_count(users.drop_last()) + if users.last().quota is None {
            1nat
        } else {
            0
        }
    }
}

/// What each user without a quota gets of the total, if there is a total and such
/// a user.
pub open spec fn quota_share(config: Config) -> Option<u64> {
    let unset = unset_count(config.users@);
    match config.total_quota {
        Some(total) if unset > 0 => Some((total.0 as nat / unset) as u64),
        _ => None,
    }
}

/// The quota that holds for a user: the own one, else the share.
pub open spec fn effective_quota(user: UserConfig, share: Option<u64>) -> Option<u64> {
    match user.quota {
        Some(own) => Some(own.0),
        None => share,
    }
}

/// The quota of each name; where users share a name, that of the last one.
pub open spec fn quota_map(users: Seq<UserConfig>, share: Option<u64>) -> Map<
    Seq<char>,
    Option<u64>,
>
    decreases users.len(),
{
    if users.len() == 0 {
        Map::empty()
    } else {
        quota_map(users.drop_last(), share).insert(
            users.last().name@,
            effective_quota(users.last(), share),
        )
    }
}

/// The users, and nobody else, have a quota.
pub(crate) proof fn lemma_quota_names(users: Seq<UserConfig>, share: Option<u64>, name: Seq<char>)
    ensures
        quota_map(users, share).dom().contains(name) <==> exists|i: int|
            0 <= i < users.len() && (#[trigger] users[i]).name@ == name,
    decreases users.len(),
{
    if users.len() > 0 {
        let init = users.drop_last();
        lemma_quota_names(init, share, name);
        if quota_map(users, share).dom().contains(name) {
            if users.last().name@ == name {
                assert(users[users.len() - 1].name@ == name);
            } else {
                let i = choose|i: int| 0 <= i < init.len() && (#[trigger] init[i]).name@ == name;
                assert(users[i].name@ == name);
            }
        }
        if exists|i: int| 0 <= i < users.len() && (#[trigger] users[i]).name@ == name {
            let i = choose|i: int| 0 <= i < users.len() && (#[trigger] users[i]).name@ == name;
            if i < users.len() - 1 {
                assert(init[i].name@ == name);
            }
        }
    }
}

/// The effective quota in bytes per user: an explicit `quota` wins; users without
/// one split `total_quota` evenly. With neither, the user is unlimited (`None`).
pub fn resolve_quotas(config: &Config) -> (r: StringHashMap<Option<u64>>)
    ensures
        r@ == quota_map(config.users@, quota_share(*config)),
{
    let ghost users = config.users@;
    let mut unset: u64 = 0;
    let mut i: usize = 0;
    while i < config.users.len()
        invariant
            i <= users.len(),
            users == config.users@,
            unset == unset_count(users.take(i as int)),
            unset <= i,
        decreases users.len() - i,
    {
        proof {
            assert(users.take(i as int + 1).drop_last() =~= users.take(i as int));
        }
        if config.users[i].quota.is_none() {
            unset = unset + 1;
        }
        i = i + 1;
    }
    proof {
        assert(users.take(users.len() as int) =~= users);
    }
    let share: Option<u64> = match config.total_quota {
        Some(total) => if unset > 0 {
            Some(total.0 / unset)
        } else {
            None
        },
        None => None,
    };
    proof {
        assert(share == quota_share(*config));
    }
    let mut map: StringHashMap<Option<u64>> = StringHashMap::new();
    let mut j: usize = 0;
    while j < config.users.len()
        invariant
            j <= users.len(),
            users == config.users@,
            map@ == quota_map(users.take(j as int), share),
        decreases users.len() - j,
    {
        proof {
            assert(users.take(j as int + 1).drop_last() =~= users.take(j as int));
        }
        let user = &config.users[j];
        let quota: Option<u64> = match user.quota {
            Some(own) => Some(own.0),
            None => share,
        };
        map.insert(user.name.clone(), quota);
        j = j + 1;
    }
    map
}

} // verus!
