//! What an accepted configuration guarantees, and how quotas are shared out.

use crate::config::{
    api_tcp, config_error, effective_quota, final_error, is_folded, lemma_quota_names, listens_tcp,
    listens_udp, quota_map, quota_share, rule_error, rule_targets, rules_error, target_error,
    targets_error, unset_count, users_error, with_all_tcp, with_all_udp, with_tcp, with_udp, Config,
    Protocol, Rule, UserConfig,
};
use crate::dns::target_parts;
use crate::net::{SocketAddress, Target};
use crate::text::debug_text;
use vstd::prelude::*;

verus! {

/// Nothing is wrong with the fields of a rule.
pub open spec fn is_sound(rule: Rule) -> bool {
    &&& forall|i: int|
        0 <= i < rule_targets(rule).len() ==> {
            &&& (#[trigger] rule_targets(rule)[i]).text@.len() > 0
            &&& target_error(rule_targets(rule)[i]) is None
        }
    &&& rule.check_secs >= 1
    &&& rule.tag is Some ==> rule.tag->0@.len() > 0
}

/// A rule is disabled, or it is sound and asks for no address that is taken.
pub open spec fn fits(rule: Rule, tcp: Set<SocketAddress>, udp: Set<SocketAddress>) -> bool {
    rule.enabled ==> {
        &&& is_sound(rule)
        &&& rule.protocol.has_tcp() ==> !tcp.contains(rule.listen.addr)
        &&& rule.protocol.has_udp() ==> !udp.contains(rule.listen.addr)
    }
}

/// Two rules ask for the same address in the same protocol.
pub open spec fn clash(a: Rule, b: Rule) -> bool {
    &&& a.listen.addr == b.listen.addr
    &&& listens_tcp(a) && listens_tcp(b) || listens_udp(a) && listens_udp(b)
}

/// Every rule fits, and no two of them clash.
pub open spec fn rules_fit(
    rules: Seq<Rule>,
    tcp: Set<SocketAddress>,
    udp: Set<SocketAddress>,
) -> bool {
    &&& forall|p: int| 0 <= p < rules.len() ==> fits(#[trigger] rules[p], tcp, udp)
    &&& forall|p: int, q: int|
        0 <= p < q < rules.len() ==> !clash(#[trigger] rules[p], #[trigger] rules[q])
}

/// The rules of all users, end to end.
pub open spec fn all_rules(users: Seq<UserConfig>) -> Seq<Rule>
    decreases users.len(),
{
    if users.len() == 0 {
        seq![]
    } else {
        users[0].rules@ + all_rules(users.skip(1))
    }
}

/// No name is empty and no two are the same.
pub open spec fn names_fit(users: Seq<UserConfig>, taken: Set<Seq<char>>) -> bool {
    &&& forall|i: int|
        0 <= i < users.len() ==> (#[trigger] users[i]).name@.len() > 0 && !taken.contains(
            users[i].name@,
        )
    &&& forall|i: int, k: int|
        0 <= i < k < users.len() ==> (#[trigger] users[i]).name@ != (#[trigger] users[k]).name@
}

/// A configuration that can be run: it has users, each with a name of its own;
/// flushes are at least a second apart; every enabled rule has well-formed targets,
/// a check interval and no empty tag; and no address is asked for twice in the same
/// protocol, the address of the query API being a TCP address.
pub open spec fn is_valid(config: Config) -> bool {
    &&& config.users@.len() > 0
    &&& config.state_file is Some ==> config.state_file->0.flush_secs >= 1
    &&& names_fit(config.users@, Set::empty())
    &&& rules_fit(all_rules(config.users@), api_tcp(config), Set::empty())
}

proof fn lemma_targets_error(targets: Seq<Target>)
    ensures
        targets_error(targets) is None <==> forall|i: int|
            0 <= i < targets.len() ==> target_error(#[trigger] targets[i]) is None,
    decreases targets.len(),
{
    if targets.len() > 0 {
        let rest = targets.skip(1);
        lemma_targets_error(rest);
        if targets_error(targets) is None {
            assert forall|i: int| 0 <= i < targets.len() implies target_error(
                #[trigger] targets[i],
            ) is None by {
                if i > 0 {
                    assert(rest[i - 1] == targets[i]);
                }
            }
        }
        if forall|i: int| 0 <= i < targets.len() ==> target_error(#[trigger] targets[i]) is None {
            assert forall|i: int| 0 <= i < rest.len() implies target_error(
                #[trigger] rest[i],
            ) is None by {
                assert(rest[i] == targets[i + 1]);
            }
        }
    }
}

proof fn lemma_rule_error(
    name: Seq<char>,
    rule: Rule,
    tcp: Set<SocketAddress>,
    udp: Set<SocketAddress>,
)
    ensures
        rule_error(name, rule, tcp, udp) is None <==> fits(rule, tcp, udp),
{
    let ts = rule_targets(rule);
    lemma_targets_error(ts);
    assert(ts[0] == rule.target);
    assert forall|i: int| 0 < i < ts.len() implies #[trigger] ts[i] == rule.fallback@[i - 1] by {
    }
    assert forall|i: int| 0 <= i < rule.fallback@.len() implies #[trigger] rule.fallback@[i] == ts[i
        + 1] by {
    }
}

/// A row of rules fits exactly if the first does, and the rest do once its
/// addresses are taken.
proof fn lemma_rules_fit_step(
    rules: Seq<Rule>,
    tcp: Set<SocketAddress>,
    udp: Set<SocketAddress>,
)
    requires
        rules.len() > 0,
    ensures
        rules_fit(rules, tcp, udp) <==> fits(rules[0], tcp, udp) && rules_fit(
            rules.skip(1),
            with_tcp(tcp, rules[0]),
            with_udp(udp, rules[0]),
        ),
{
    let first = rules[0];
    let rest = rules.skip(1);
    let tcp1 = with_tcp(tcp, first);
    let udp1 = with_udp(udp, first);
    assert forall|p: int| 0 <= p < rest.len() implies #[trigger] rest[p] == rules[p + 1] by {
    }
    if rules_fit(rules, tcp, udp) {
        assert forall|p: int| 0 <= p < rest.len() implies fits(#[trigger] rest[p], tcp1, udp1) by {
            assert(fits(rules[p + 1], tcp, udp));
            assert(!clash(rules[0], rules[p + 1]));
        }
        assert forall|p: int, q: int| 0 <= p < q < rest.len() implies !clash(
            #[trigger] rest[p],
            #[trigger] rest[q],
        ) by {
            assert(!clash(rules[p + 1], rules[q + 1]));
        }
    }
    if fits(first, tcp, udp) && rules_fit(rest, tcp1, udp1) {
        assert forall|p: int| 0 <= p < rules.len() implies fits(#[trigger] rules[p], tcp, udp) by {
            if p > 0 {
                assert(fits(rest[p - 1], tcp1, udp1));
            }
        }
        assert forall|p: int, q: int| 0 <= p < q < rules.len() implies !clash(
            #[trigger] rules[p],
            #[trigger] rules[q],
        ) by {
            if p == 0 {
                assert(fits(rest[q - 1], tcp1, udp1));
            } else {
                assert(!clash(rest[p - 1], rest[q - 1]));
            }
        }
    }
}

proof fn lemma_rules_error(
    name: Seq<char>,
    rules: Seq<Rule>,
    tcp: Set<SocketAddress>,
    udp: Set<SocketAddress>,
)
    ensures
        rules_error(name, rules, tcp, udp) is None <==> rules_fit(rules, tcp, udp),
    decreases rules.len(),
{
    if rules.len() > 0 {
        lemma_rule_error(name, rules[0], tcp, udp);
        lemma_rules_fit_step(rules, tcp, udp);
        lemma_rules_error(name, rules.skip(1), with_tcp(tcp, rules[0]), with_udp(udp, rules[0]));
    }
}

proof fn lemma_rules_fit_append(
    a: Seq<Rule>,
    b: Seq<Rule>,
    tcp: Set<SocketAddress>,
    udp: Set<SocketAddress>,
)
    ensures
        rules_fit(a + b, tcp, udp) <==> rules_fit(a, tcp, udp) && rules_fit(
            b,
            with_all_tcp(tcp, a),
            with_all_udp(udp, a),
        ),
    decreases a.len(),
{
    if a.len() == 0 {
        assert(a + b =~= b);
    } else {
        lemma_rules_fit_step(a, tcp, udp);
        lemma_rules_fit_step(a + b, tcp, udp);
        assert((a + b)[0] == a[0]);
        assert((a + b).skip(1) =~= a.skip(1) + b);
        lemma_rules_fit_append(a.skip(1), b, with_tcp(tcp, a[0]), with_udp(udp, a[0]));
    }
}

proof fn lemma_names_fit_step(users: Seq<UserConfig>, taken: Set<Seq<char>>)
    requires
        users.len() > 0,
    ensures
        names_fit(users, taken) <==> users[0].name@.len() > 0 && !taken.contains(users[0].name@)
            && names_fit(users.skip(1), taken.insert(users[0].name@)),
{
    let rest = users.skip(1);
    assert forall|i: int| 0 <= i < rest.len() implies #[trigger] rest[i] == users[i + 1] by {
    }
    if names_fit(users, taken) {
        assert forall|i: int| 0 <= i < rest.len() implies (#[trigger] rest[i]).name@.len() > 0
            && !taken.insert(users[0].name@).contains(rest[i].name@) by {
            assert(users[0].name@ != users[i + 1].name@);
        }
        assert forall|i: int, k: int| 0 <= i < k < rest.len() implies (#[trigger] rest[i]).name@ != (
        #[trigger] rest[k]).name@ by {
            assert(users[i + 1].name@ != users[k + 1].name@);
        }
    }
    if users[0].name@.len() > 0 && !taken.contains(users[0].name@) && names_fit(
        rest,
        taken.insert(users[0].name@),
    ) {
        assert forall|i: int| 0 <= i < users.len() implies (#[trigger] users[i]).name@.len() > 0
            && !taken.contains(users[i].name@) by {
            if i > 0 {
                assert(rest[i - 1].name@.len() > 0);
            }
        }
        assert forall|i: int, k: int| 0 <= i < k < users.len() implies (#[trigger] users[i]).name@
            != (#[trigger] users[k]).name@ by {
            assert(rest[k - 1].name@.len() > 0);
            if i > 0 {
                assert(rest[i - 1].name@ != rest[k - 1].name@);
            }
        }
    }
}

proof fn lemma_users_error(
    users: Seq<UserConfig>,
    names: Set<Seq<char>>,
    tcp: Set<SocketAddress>,
    udp: Set<SocketAddress>,
)
    ensures
        users_error(users, names, tcp, udp) is None <==> names_fit(users, names) && rules_fit(
            all_rules(users),
            tcp,
            udp,
        ),
    decreases users.len(),
{
    if users.len() > 0 {
        let user = users[0];
        lemma_names_fit_step(users, names);
        lemma_rules_error(user.name@, user.rules@, tcp, udp);
        lemma_rules_fit_append(user.rules@, all_rules(users.skip(1)), tcp, udp);
        lemma_users_error(
            users.skip(1),
            names.insert(user.name@),
            with_all_tcp(tcp, user.rules@),
            with_all_udp(udp, user.rules@),
        );
    }
}

/// A configuration is accepted exactly if it is valid, whatever order its users
/// and rules are judged in.
pub proof fn law_accepted_iff_valid(config: Config)
    ensures
        config_error(config) is None <==> is_valid(config),
{
    lemma_users_error(config.users@, Set::empty(), api_tcp(config), Set::empty());
}

/// The enabled ones among some rules, in order.
pub open spec fn enabled_only(rules: Seq<Rule>) -> Seq<Rule>
    decreases rules.len(),
{
    if rules.len() == 0 {
        seq![]
    } else if rules[0].enabled {
        seq![rules[0]] + enabled_only(rules.skip(1))
    } else {
        enabled_only(rules.skip(1))
    }
}

/// The same users, each with the enabled rules only.
pub open spec fn users_without_disabled(users: Seq<UserConfig>, fewer: Seq<UserConfig>) -> bool {
    &&& fewer.len() == users.len()
    &&& forall|i: int|
        0 <= i < users.len() ==> {
            &&& (#[trigger] fewer[i]).name@ == users[i].name@
            &&& fewer[i].rules@ == enabled_only(users[i].rules@)
        }
}

/// The same configuration with its disabled rules taken out.
pub open spec fn without_disabled(config: Config, fewer: Config) -> bool {
    &&& fewer.state_file == config.state_file
    &&& fewer.api == config.api
    &&& fewer.rules@ == enabled_only(config.rules@)
    &&& users_without_disabled(config.users@, fewer.users@)
}

proof fn lemma_enabled_only(
    name: Seq<char>,
    rules: Seq<Rule>,
    tcp: Set<SocketAddress>,
    udp: Set<SocketAddress>,
)
    ensures
        rules_error(name, enabled_only(rules), tcp, udp) == rules_error(name, rules, tcp, udp),
        with_all_tcp(tcp, enabled_only(rules)) == with_all_tcp(tcp, rules),
        with_all_udp(udp, enabled_only(rules)) == with_all_udp(udp, rules),
    decreases rules.len(),
{
    if rules.len() > 0 {
        let rest = rules.skip(1);
        lemma_enabled_only(name, rest, with_tcp(tcp, rules[0]), with_udp(udp, rules[0]));
        if rules[0].enabled {
            let kept = enabled_only(rules);
            assert(kept[0] == rules[0]);
            assert(kept.skip(1) =~= enabled_only(rest));
        }
    }
}

proof fn lemma_users_without_disabled(
    users: Seq<UserConfig>,
    fewer: Seq<UserConfig>,
    names: Set<Seq<char>>,
    tcp: Set<SocketAddress>,
    udp: Set<SocketAddress>,
)
    requires
        users_without_disabled(users, fewer),
    ensures
        users_error(fewer, names, tcp, udp) == users_error(users, names, tcp, udp),
    decreases users.len(),
{
    if users.len() > 0 {
        let user = users[0];
        assert(fewer[0].name@ == user.name@);
        lemma_enabled_only(user.name@, user.rules@, tcp, udp);
        assert forall|i: int| 0 <= i < users.skip(1).len() implies {
            &&& (#[trigger] fewer.skip(1)[i]).name@ == users.skip(1)[i].name@
            &&& fewer.skip(1)[i].rules@ == enabled_only(users.skip(1)[i].rules@)
        } by {
            assert(fewer[i + 1].name@ == users[i + 1].name@);
        }
        lemma_users_without_disabled(
            users.skip(1),
            fewer.skip(1),
            names.insert(user.name@),
            with_all_tcp(tcp, user.rules@),
            with_all_udp(udp, user.rules@),
        );
    }
}

/// Disabled rules do not count: with them taken out a configuration is judged as
/// before, down to the message. Top-level rules must not vanish altogether, as they
/// stand for a user.
pub proof fn law_disabled_rules_do_not_count(config: Config, fewer: Config)
    requires
        without_disabled(config, fewer),
    ensures
        config_error(fewer) == config_error(config),
        (fewer.rules@.len() == 0 ==> config.rules@.len() == 0) ==> final_error(fewer)
            == final_error(config),
{
    lemma_users_without_disabled(
        config.users@,
        fewer.users@,
        Set::empty(),
        api_tcp(config),
        Set::empty(),
    );
    lemma_enabled_only("default"@, config.rules@, api_tcp(config), Set::empty());
}

proof fn lemma_quota_map(users: Seq<UserConfig>, share: Option<u64>, i: int)
    requires
        0 <= i < users.len(),
        forall|k: int| i < k < users.len() ==> (#[trigger] users[k]).name@ != users[i].name@,
    ensures
        quota_map(users, share).dom().contains(users[i].name@),
        quota_map(users, share)[users[i].name@] == effective_quota(users[i], share),
    decreases users.len(),
{
    if i < users.len() - 1 {
        let init = users.drop_last();
        assert forall|k: int| i < k < init.len() implies (#[trigger] init[k]).name@
            != init[i].name@ by {
            assert(init[k] == users[k]);
        }
        lemma_quota_map(init, share, i);
        assert(users[users.len() - 1].name@ != users[i].name@);
    }
}

/// Every user of a valid configuration has the own quota, or else the share of the
/// total, or else no limit; and nobody but the users has a quota.
pub proof fn law_every_user_has_the_quota_due(config: Config, name: Seq<char>)
    requires
        is_valid(config),
    ensures
        forall|i: int|
            0 <= i < config.users@.len() ==> {
                let quotas = quota_map(config.users@, quota_share(config));
                let user = #[trigger] config.users@[i];
                &&& quotas.dom().contains(user.name@)
                &&& user.quota is Some ==> quotas[user.name@] == Some((user.quota->0).0)
                &&& user.quota is None && config.total_quota is Some ==> quotas[user.name@] == Some(
                    ((config.total_quota->0).0 as nat / unset_count(config.users@)) as u64,
                )
                &&& user.quota is None && config.total_quota is None ==> quotas[user.name@] is None
            },
        quota_map(config.users@, quota_share(config)).dom().contains(name) <==> exists|i: int|
            0 <= i < config.users@.len() && (#[trigger] config.users@[i]).name@ == name,
{
    let users = config.users@;
    let share = quota_share(config);
    assert forall|i: int| 0 <= i < users.len() implies {
        let quotas = quota_map(users, share);
        let user = #[trigger] users[i];
        &&& quotas.dom().contains(user.name@)
        &&& user.quota is Some ==> quotas[user.name@] == Some((user.quota->0).0)
        &&& user.quota is None && config.total_quota is Some ==> quotas[user.name@] == Some(
            ((config.total_quota->0).0 as nat / unset_count(users)) as u64,
        )
        &&& user.quota is None && config.total_quota is None ==> quotas[user.name@] is None
    } by {
        assert forall|k: int| i < k < users.len() implies (#[trigger] users[k]).name@
            != users[i].name@ by {
            assert(users[i].name@ != users[k].name@);
        }
        lemma_quota_map(users, share, i);
        if users[i].quota is None {
            lemma_unset_positive(users, i);
        }
    }
    lemma_quota_names(users, share, name);
}

proof fn lemma_unset_positive(users: Seq<UserConfig>, i: int)
    requires
        0 <= i < users.len(),
        users[i].quota is None,
    ensures
        unset_count(users) > 0,
    decreases users.len(),
{
    if i < users.len() - 1 {
        lemma_unset_positive(users.drop_last(), i);
    }
}

/// The even shares together never exceed the total, and what is left over is less
/// than one byte for each of them.
pub proof fn law_shares_split_the_total(config: Config)
    requires
        config.total_quota is Some,
        unset_count(config.users@) > 0,
    ensures
        quota_share(config) is Some,
        ({
            let total = (config.total_quota->0).0;
            let unset = unset_count(config.users@);
            let share = quota_share(config)->0;
            &&& unset * share <= total
            &&& total < unset * share + unset
        }),
{
    let total = (config.total_quota->0).0 as nat;
    let unset = unset_count(config.users@);
    vstd::arithmetic::div_mod::lemma_fundamental_div_mod(total as int, unset as int);
    assert(total / unset <= total) by (nonlinear_arith)
        requires
            unset > 0,
    ;
}

/// A rule forwards TCP unless it is for UDP alone, and UDP unless it is for TCP alone;
/// a disabled one listens on nothing.
pub proof fn law_protocols_say_what_is_forwarded(protocol: Protocol, rule: Rule)
    ensures
        protocol.has_tcp() <==> !(protocol is Udp),
        protocol.has_udp() <==> !(protocol is Tcp),
        listens_tcp(rule) <==> rule.enabled && !(rule.protocol is Udp),
        listens_udp(rule) <==> rule.enabled && !(rule.protocol is Tcp),
{
}

/// A target is fine exactly if it is an address or falls apart into host and port; what
/// is wrong with it otherwise is what is wrong with its parts. The targets of a rule are
/// its target and then its fallbacks, and the first that is malformed is reported.
pub proof fn law_targets_are_judged_in_order(rule: Rule, targets: Seq<Target>, i: int)
    requires
        0 <= i < targets.len(),
        forall|k: int| 0 <= k < i ==> target_error(#[trigger] targets[k]) is None,
    ensures
        targets[i].literal is Some || target_parts(targets[i].text@) is Ok ==> target_error(
            targets[i],
        ) is None,
        targets[i].literal is None ==> (target_parts(targets[i].text@) matches Err(message)
            ==> target_error(targets[i]) == Some(message)),
        target_error(targets[i]) is Some ==> targets_error(targets) == target_error(targets[i]),
        target_error(targets[i]) is None && i == targets.len() - 1 ==> targets_error(
            targets,
        ) is None,
        rule_targets(rule).len() == 1 + rule.fallback@.len(),
        rule_targets(rule)[0] == rule.target,
        forall|k: int|
            0 <= k < rule.fallback@.len() ==> rule_targets(rule)[k + 1]
                == #[trigger] rule.fallback@[k],
    decreases targets.len(),
{
    if i > 0 {
        let rest = targets.skip(1);
        assert(target_error(targets[0]) is None);
        assert forall|k: int| 0 <= k < i - 1 implies target_error(#[trigger] rest[k]) is None by {
            assert(rest[k] == targets[k + 1]);
        }
        law_targets_are_judged_in_order(rule, rest, i - 1);
        assert(rest[i - 1] == targets[i]);
    } else {
        lemma_targets_error(targets);
    }
}

/// What is wrong with an enabled rule, in this order: an empty target, an empty fallback,
/// a malformed target, no check interval, an empty tag, an address that is taken for TCP
/// or for UDP. Each has its message. A disabled rule is never wrong.
pub proof fn law_rules_are_judged_point_by_point(
    name: Seq<char>,
    rule: Rule,
    tcp: Set<SocketAddress>,
    udp: Set<SocketAddress>,
)
    ensures
        ({
            let e = rule_error(name, rule, tcp, udp);
            let user = "user "@ + debug_text(name);
            if !rule.enabled {
                e is None
            } else if rule.target.text@.len() == 0 {
                e == Some(user + ": rule target cannot be empty"@)
            } else if exists|k: int|
                0 <= k < rule.fallback@.len() && (#[trigger] rule.fallback@[k]).text@.len() == 0 {
                e == Some(user + ": rule fallback target cannot be empty"@)
            } else if targets_error(rule_targets(rule)) is Some {
                e == Some(user + (": "@ + targets_error(rule_targets(rule))->0))
            } else if rule.check_secs == 0 {
                e == Some(user + ": rule check_secs must be at least 1"@)
            } else if rule.tag is Some && rule.tag->0@.len() == 0 {
                e == Some(user + ": rule tag cannot be empty"@)
            } else if !(rule.protocol is Udp) && tcp.contains(rule.listen.addr) {
                e == Some("duplicate TCP listen address "@ + rule.listen.text@)
            } else if !(rule.protocol is Tcp) && udp.contains(rule.listen.addr) {
                e == Some("duplicate UDP listen address "@ + rule.listen.text@)
            } else {
                e is None
            }
        }),
{
}

/// The addresses that rules take are those they listen on.
proof fn lemma_taken(
    rules: Seq<Rule>,
    tcp: Set<SocketAddress>,
    udp: Set<SocketAddress>,
    a: SocketAddress,
)
    ensures
        with_all_tcp(tcp, rules).contains(a) <==> tcp.contains(a) || exists|k: int|
            0 <= k < rules.len() && listens_tcp(#[trigger] rules[k]) && rules[k].listen.addr == a,
        with_all_udp(udp, rules).contains(a) <==> udp.contains(a) || exists|k: int|
            0 <= k < rules.len() && listens_udp(#[trigger] rules[k]) && rules[k].listen.addr == a,
    decreases rules.len(),
{
    if rules.len() > 0 {
        let rest = rules.skip(1);
        let tcp1 = with_tcp(tcp, rules[0]);
        let udp1 = with_udp(udp, rules[0]);
        lemma_taken(rest, tcp1, udp1, a);
        if exists|k: int|
            0 <= k < rules.len() && listens_tcp(#[trigger] rules[k]) && rules[k].listen.addr == a {
            let k = choose|k: int|
                0 <= k < rules.len() && listens_tcp(#[trigger] rules[k]) && rules[k].listen.addr
                    == a;
            if k > 0 {
                assert(rest[k - 1] == rules[k]);
            }
        }
        if exists|k: int|
            0 <= k < rest.len() && listens_tcp(#[trigger] rest[k]) && rest[k].listen.addr == a {
            let k = choose|k: int|
                0 <= k < rest.len() && listens_tcp(#[trigger] rest[k]) && rest[k].listen.addr == a;
            assert(rules[k + 1] == rest[k]);
        }
        if exists|k: int|
            0 <= k < rules.len() && listens_udp(#[trigger] rules[k]) && rules[k].listen.addr == a {
            let k = choose|k: int|
                0 <= k < rules.len() && listens_udp(#[trigger] rules[k]) && rules[k].listen.addr
                    == a;
            if k > 0 {
                assert(rest[k - 1] == rules[k]);
            }
        }
        if exists|k: int|
            0 <= k < rest.len() && listens_udp(#[trigger] rest[k]) && rest[k].listen.addr == a {
            let k = choose|k: int|
                0 <= k < rest.len() && listens_udp(#[trigger] rest[k]) && rest[k].listen.addr == a;
            assert(rules[k + 1] == rest[k]);
        }
    }
}

/// Where nothing is wrong with the first rules, the others are judged with the addresses
/// of the first ones taken.
proof fn lemma_rules_error_append(
    name: Seq<char>,
    a: Seq<Rule>,
    b: Seq<Rule>,
    tcp: Set<SocketAddress>,
    udp: Set<SocketAddress>,
)
    requires
        rules_error(name, a, tcp, udp) is None,
    ensures
        rules_error(name, a + b, tcp, udp) == rules_error(
            name,
            b,
            with_all_tcp(tcp, a),
            with_all_udp(udp, a),
        ),
        with_all_tcp(tcp, a + b) == with_all_tcp(with_all_tcp(tcp, a), b),
        with_all_udp(udp, a + b) == with_all_udp(with_all_udp(udp, a), b),
    decreases a.len(),
{
    if a.len() == 0 {
        assert(a + b =~= b);
    } else {
        assert((a + b)[0] == a[0]);
        assert((a + b).skip(1) =~= a.skip(1) + b);
        lemma_rules_error_append(name, a.skip(1), b, with_tcp(tcp, a[0]), with_udp(udp, a[0]));
    }
}

/// Rules are judged in order. Where nothing is wrong with those before a rule, it is
/// judged with `t` and `u` taken: the addresses that were taken before any rule, and
/// those that the enabled rules before it listen on. What is wrong with it is what is
/// wrong with the rules; if nothing is, the same goes for the next one.
pub proof fn law_rules_are_judged_in_order(
    name: Seq<char>,
    rules: Seq<Rule>,
    tcp: Set<SocketAddress>,
    udp: Set<SocketAddress>,
    j: int,
    t: Set<SocketAddress>,
    u: Set<SocketAddress>,
)
    requires
        0 <= j < rules.len(),
        rules_error(name, rules.take(j), tcp, udp) is None,
        forall|a: SocketAddress| #[trigger]
            t.contains(a) <==> tcp.contains(a) || exists|k: int|
                0 <= k < j && (#[trigger] rules[k]).enabled && !(rules[k].protocol is Udp)
                    && rules[k].listen.addr == a,
        forall|a: SocketAddress| #[trigger]
            u.contains(a) <==> udp.contains(a) || exists|k: int|
                0 <= k < j && (#[trigger] rules[k]).enabled && !(rules[k].protocol is Tcp)
                    && rules[k].listen.addr == a,
    ensures
        rules_error(name, seq![], tcp, udp) is None,
        rule_error(name, rules[j], t, u) is Some ==> rules_error(name, rules, tcp, udp)
            == rule_error(name, rules[j], t, u),
        rule_error(name, rules[j], t, u) is None ==> rules_error(
            name,
            rules.take(j + 1),
            tcp,
            udp,
        ) is None,
        rule_error(name, rules[j], t, u) is None && j == rules.len() - 1 ==> rules_error(
            name,
            rules,
            tcp,
            udp,
        ) is None,
{
    let pre = rules.take(j);
    lemma_sets_taken(pre, tcp, udp, rules, t, u);
    assert(rules =~= pre + rules.skip(j));
    lemma_rules_error_append(name, pre, rules.skip(j), tcp, udp);
    assert(rules.skip(j)[0] == rules[j]);
    let one = seq![rules[j]];
    assert(rules.take(j + 1) =~= pre + one);
    lemma_rules_error_append(name, pre, one, tcp, udp);
    assert(one.skip(1) =~= seq![]);
    assert(rules_error(name, one.skip(1), with_tcp(t, one[0]), with_udp(u, one[0])) is None);
    if j == rules.len() - 1 {
        assert(rules.take(j + 1) =~= rules);
    }
}

proof fn lemma_sets_taken(
    pre: Seq<Rule>,
    tcp: Set<SocketAddress>,
    udp: Set<SocketAddress>,
    rules: Seq<Rule>,
    t: Set<SocketAddress>,
    u: Set<SocketAddress>,
)
    requires
        pre.len() <= rules.len(),
        pre == rules.take(pre.len() as int),
        forall|a: SocketAddress| #[trigger]
            t.contains(a) <==> tcp.contains(a) || exists|k: int|
                0 <= k < pre.len() && (#[trigger] rules[k]).enabled && !(rules[k].protocol is Udp)
                    && rules[k].listen.addr == a,
        forall|a: SocketAddress| #[trigger]
            u.contains(a) <==> udp.contains(a) || exists|k: int|
                0 <= k < pre.len() && (#[trigger] rules[k]).enabled && !(rules[k].protocol is Tcp)
                    && rules[k].listen.addr == a,
    ensures
        with_all_tcp(tcp, pre) == t,
        with_all_udp(udp, pre) == u,
{
    assert forall|k: int| 0 <= k < pre.len() implies #[trigger] pre[k] == rules[k] by {
    }
    assert forall|a: SocketAddress| with_all_tcp(tcp, pre).contains(a) == t.contains(a) by {
        lemma_taken(pre, tcp, udp, a);
        if exists|k: int|
            0 <= k < pre.len() && (#[trigger] rules[k]).enabled && !(rules[k].protocol is Udp)
                && rules[k].listen.addr == a {
            let k = choose|k: int|
                0 <= k < pre.len() && (#[trigger] rules[k]).enabled && !(rules[k].protocol is Udp)
                    && rules[k].listen.addr == a;
            assert(listens_tcp(pre[k]));
        }
    }
    assert forall|a: SocketAddress| with_all_udp(udp, pre).contains(a) == u.contains(a) by {
        lemma_taken(pre, tcp, udp, a);
        if exists|k: int|
            0 <= k < pre.len() && (#[trigger] rules[k]).enabled && !(rules[k].protocol is Tcp)
                && rules[k].listen.addr == a {
            let k = choose|k: int|
                0 <= k < pre.len() && (#[trigger] rules[k]).enabled && !(rules[k].protocol is Tcp)
                    && rules[k].listen.addr == a;
            assert(listens_udp(pre[k]));
        }
    }
    assert(with_all_tcp(tcp, pre) =~= t);
    assert(with_all_udp(udp, pre) =~= u);
}

/// The names of some users.
spec fn with_names(names: Set<Seq<char>>, users: Seq<UserConfig>) -> Set<Seq<char>>
    decreases users.len(),
{
    if users.len() == 0 {
        names
    } else {
        with_names(names.insert(users[0].name@), users.skip(1))
    }
}

proof fn lemma_with_names(names: Set<Seq<char>>, users: Seq<UserConfig>, name: Seq<char>)
    ensures
        with_names(names, users).contains(name) <==> names.contains(name) || exists|k: int|
            0 <= k < users.len() && (#[trigger] users[k]).name@ == name,
    decreases users.len(),
{
    if users.len() > 0 {
        let rest = users.skip(1);
        lemma_with_names(names.insert(users[0].name@), rest, name);
        if exists|k: int| 0 <= k < users.len() && (#[trigger] users[k]).name@ == name {
            let k = choose|k: int| 0 <= k < users.len() && (#[trigger] users[k]).name@ == name;
            if k > 0 {
                assert(rest[k - 1] == users[k]);
            }
        }
        if exists|k: int| 0 <= k < rest.len() && (#[trigger] rest[k]).name@ == name {
            let k = choose|k: int| 0 <= k < rest.len() && (#[trigger] rest[k]).name@ == name;
            assert(users[k + 1] == rest[k]);
        }
    }
}

proof fn lemma_all_taken(
    users: Seq<UserConfig>,
    tcp: Set<SocketAddress>,
    udp: Set<SocketAddress>,
    a: SocketAddress,
)
    ensures
        with_all_tcp(tcp, all_rules(users)).contains(a) <==> tcp.contains(a) || exists|
            k: int,
            l: int,
        |
            0 <= k < users.len() && 0 <= l < users[k].rules@.len() && listens_tcp(
                #[trigger] users[k].rules@[l],
            ) && users[k].rules@[l].listen.addr == a,
        with_all_udp(udp, all_rules(users)).contains(a) <==> udp.contains(a) || exists|
            k: int,
            l: int,
        |
            0 <= k < users.len() && 0 <= l < users[k].rules@.len() && listens_udp(
                #[trigger] users[k].rules@[l],
            ) && users[k].rules@[l].listen.addr == a,
{
    let all = all_rules(users);
    lemma_taken(all, tcp, udp, a);
    assert forall|p: int| 0 <= p < all.len() implies exists|k: int, l: int|
        0 <= k < users.len() && 0 <= l < users[k].rules@.len() && #[trigger] users[k].rules@[l]
            == #[trigger] all[p] by {
        lemma_rule_of(users, p);
    }
    if exists|k: int, l: int|
        0 <= k < users.len() && 0 <= l < users[k].rules@.len() && listens_tcp(
            #[trigger] users[k].rules@[l],
        ) && users[k].rules@[l].listen.addr == a {
        let (k, l) = choose|k: int, l: int|
            0 <= k < users.len() && 0 <= l < users[k].rules@.len() && listens_tcp(
                #[trigger] users[k].rules@[l],
            ) && users[k].rules@[l].listen.addr == a;
        lemma_place_of(users, k, l);
    }
    if exists|k: int, l: int|
        0 <= k < users.len() && 0 <= l < users[k].rules@.len() && listens_udp(
            #[trigger] users[k].rules@[l],
        ) && users[k].rules@[l].listen.addr == a {
        let (k, l) = choose|k: int, l: int|
            0 <= k < users.len() && 0 <= l < users[k].rules@.len() && listens_udp(
                #[trigger] users[k].rules@[l],
            ) && users[k].rules@[l].listen.addr == a;
        lemma_place_of(users, k, l);
    }
    if exists|p: int| 0 <= p < all.len() && listens_tcp(#[trigger] all[p]) && all[p].listen.addr == a {
        let p = choose|p: int|
            0 <= p < all.len() && listens_tcp(#[trigger] all[p]) && all[p].listen.addr == a;
        let (k, l) = choose|k: int, l: int|
            0 <= k < users.len() && 0 <= l < users[k].rules@.len() && #[trigger] users[k].rules@[l]
                == all[p];
        assert(listens_tcp(users[k].rules@[l]));
    }
    if exists|p: int| 0 <= p < all.len() && listens_udp(#[trigger] all[p]) && all[p].listen.addr == a {
        let p = choose|p: int|
            0 <= p < all.len() && listens_udp(#[trigger] all[p]) && all[p].listen.addr == a;
        let (k, l) = choose|k: int, l: int|
            0 <= k < users.len() && 0 <= l < users[k].rules@.len() && #[trigger] users[k].rules@[l]
                == all[p];
        assert(listens_udp(users[k].rules@[l]));
    }
}

proof fn lemma_rule_of(users: Seq<UserConfig>, p: int)
    requires
        0 <= p < all_rules(users).len(),
    ensures
        exists|k: int, l: int|
            0 <= k < users.len() && 0 <= l < users[k].rules@.len() && #[trigger] users[k].rules@[l]
                == all_rules(users)[p],
    decreases users.len(),
{
    let first = users[0].rules@;
    let rest = users.skip(1);
    if p < first.len() {
        assert(users[0].rules@[p] == all_rules(users)[p]);
    } else {
        lemma_rule_of(rest, p - first.len());
        let (k, l) = choose|k: int, l: int|
            0 <= k < rest.len() && 0 <= l < rest[k].rules@.len() && #[trigger] rest[k].rules@[l]
                == all_rules(rest)[p - first.len()];
        assert(users[k + 1].rules@[l] == all_rules(users)[p]);
    }
}

proof fn lemma_place_of(users: Seq<UserConfig>, k: int, l: int)
    requires
        0 <= k < users.len(),
        0 <= l < users[k].rules@.len(),
    ensures
        exists|p: int|
            0 <= p < all_rules(users).len() && #[trigger] all_rules(users)[p]
                == users[k].rules@[l],
    decreases users.len(),
{
    let first = users[0].rules@;
    let rest = users.skip(1);
    if k == 0 {
        assert(all_rules(users)[l] == users[k].rules@[l]);
    } else {
        assert(rest[k - 1] == users[k]);
        lemma_place_of(rest, k - 1, l);
        let p = choose|p: int|
            0 <= p < all_rules(rest).len() && #[trigger] all_rules(rest)[p]
                == rest[k - 1].rules@[l];
        assert(all_rules(users)[first.len() + p] == users[k].rules@[l]);
    }
}

/// Where nothing is wrong with the first users, the others are judged with the names and
/// the addresses of the first ones taken.
proof fn lemma_users_error_append(
    a: Seq<UserConfig>,
    b: Seq<UserConfig>,
    names: Set<Seq<char>>,
    tcp: Set<SocketAddress>,
    udp: Set<SocketAddress>,
)
    requires
        users_error(a, names, tcp, udp) is None,
    ensures
        users_error(a + b, names, tcp, udp) == users_error(
            b,
            with_names(names, a),
            with_all_tcp(tcp, all_rules(a)),
            with_all_udp(udp, all_rules(a)),
        ),
    decreases a.len(),
{
    if a.len() == 0 {
        assert(a + b =~= b);
    } else {
        let user = a[0];
        let rest = a.skip(1);
        assert((a + b)[0] == user);
        assert((a + b).skip(1) =~= rest + b);
        lemma_rules_error_append(user.name@, user.rules@, all_rules(rest), tcp, udp);
        lemma_users_error_append(
            rest,
            b,
            names.insert(user.name@),
            with_all_tcp(tcp, user.rules@),
            with_all_udp(udp, user.rules@),
        );
    }
}

/// Users are judged in order. Where nothing is wrong with those before a user, the user
/// must have a name that is not empty and that none of them has; then the rules of the
/// user are judged with `t` and `u` taken: the addresses that were taken before any user,
/// and those that the enabled rules of the users before listen on. If nothing is wrong
/// with them, the same goes for the next user.
pub proof fn law_users_are_judged_in_order(
    users: Seq<UserConfig>,
    names: Set<Seq<char>>,
    tcp: Set<SocketAddress>,
    udp: Set<SocketAddress>,
    i: int,
    t: Set<SocketAddress>,
    u: Set<SocketAddress>,
)
    requires
        0 <= i < users.len(),
        users_error(users.take(i), names, tcp, udp) is None,
        forall|a: SocketAddress| #[trigger]
            t.contains(a) <==> tcp.contains(a) || exists|k: int, l: int|
                0 <= k < i && 0 <= l < users[k].rules@.len() && (
                #[trigger] users[k].rules@[l]).enabled && !(users[k].rules@[l].protocol is Udp)
                    && users[k].rules@[l].listen.addr == a,
        forall|a: SocketAddress| #[trigger]
            u.contains(a) <==> udp.contains(a) || exists|k: int, l: int|
                0 <= k < i && 0 <= l < users[k].rules@.len() && (
                #[trigger] users[k].rules@[l]).enabled && !(users[k].rules@[l].protocol is Tcp)
                    && users[k].rules@[l].listen.addr == a,
    ensures
        users_error(seq![], names, tcp, udp) is None,
        ({
            let user = users[i];
            let e = users_error(users, names, tcp, udp);
            let wrong = rules_error(user.name@, user.rules@, t, u);
            if user.name@.len() == 0 {
                e == Some("user name cannot be empty"@)
            } else if names.contains(user.name@) || exists|k: int|
                0 <= k < i && (#[trigger] users[k]).name@ == user.name@ {
                e == Some("duplicate user name "@ + debug_text(user.name@))
            } else if wrong is Some {
                e == wrong
            } else {
                &&& users_error(users.take(i + 1), names, tcp, udp) is None
                &&& i == users.len() - 1 ==> e is None
            }
        }),
{
    let pre = users.take(i);
    let user = users[i];
    assert forall|k: int| 0 <= k < i implies #[trigger] pre[k] == users[k] by {
    }
    assert forall|a: SocketAddress| with_all_tcp(tcp, all_rules(pre)).contains(a) == t.contains(
        a,
    ) by {
        lemma_all_taken(pre, tcp, udp, a);
        if t.contains(a) && !tcp.contains(a) {
            let (k, l) = choose|k: int, l: int|
                0 <= k < i && 0 <= l < users[k].rules@.len() && (
                #[trigger] users[k].rules@[l]).enabled && !(users[k].rules@[l].protocol is Udp)
                    && users[k].rules@[l].listen.addr == a;
            assert(listens_tcp(pre[k].rules@[l]));
        }
        if with_all_tcp(tcp, all_rules(pre)).contains(a) && !tcp.contains(a) {
            let (k, l) = choose|k: int, l: int|
                0 <= k < pre.len() && 0 <= l < pre[k].rules@.len() && listens_tcp(
                    #[trigger] pre[k].rules@[l],
                ) && pre[k].rules@[l].listen.addr == a;
            assert(users[k].rules@[l].enabled);
        }
    }
    assert forall|a: SocketAddress| with_all_udp(udp, all_rules(pre)).contains(a) == u.contains(
        a,
    ) by {
        lemma_all_taken(pre, tcp, udp, a);
        if u.contains(a) && !udp.contains(a) {
            let (k, l) = choose|k: int, l: int|
                0 <= k < i && 0 <= l < users[k].rules@.len() && (
                #[trigger] users[k].rules@[l]).enabled && !(users[k].rules@[l].protocol is Tcp)
                    && users[k].rules@[l].listen.addr == a;
            assert(listens_udp(pre[k].rules@[l]));
        }
        if with_all_udp(udp, all_rules(pre)).contains(a) && !udp.contains(a) {
            let (k, l) = choose|k: int, l: int|
                0 <= k < pre.len() && 0 <= l < pre[k].rules@.len() && listens_udp(
                    #[trigger] pre[k].rules@[l],
                ) && pre[k].rules@[l].listen.addr == a;
            assert(users[k].rules@[l].enabled);
        }
    }
    assert(with_all_tcp(tcp, all_rules(pre)) =~= t);
    assert(with_all_udp(udp, all_rules(pre)) =~= u);
    lemma_with_names(names, pre, user.name@);
    if exists|k: int| 0 <= k < i && (#[trigger] users[k]).name@ == user.name@ {
        let k = choose|k: int| 0 <= k < i && (#[trigger] users[k]).name@ == user.name@;
        assert(pre[k].name@ == user.name@);
    }
    assert(users =~= pre + users.skip(i));
    assert(users.skip(i)[0] == user);
    lemma_users_error_append(pre, users.skip(i), names, tcp, udp);
    let one = seq![user];
    assert(users.take(i + 1) =~= pre + one);
    lemma_users_error_append(pre, one, names, tcp, udp);
    assert(one.skip(1) =~= seq![]);
    reveal_with_fuel(users_error, 2);
    if i == users.len() - 1 {
        assert(users.take(i + 1) =~= users);
    }
}

/// A configuration must have users, and flushes that are at least a second apart; then
/// its users are judged, with the address of the query API taken for TCP and nothing
/// for UDP.
pub proof fn law_sections_are_judged_first(config: Config, tcp: Set<SocketAddress>)
    requires
        forall|a: SocketAddress| #[trigger]
            tcp.contains(a) <==> config.api is Some && config.api->0.listen.addr == a,
    ensures
        config.users@.len() == 0 ==> config_error(config) == Some("config has no users or rules"@),
        config.users@.len() > 0 && config.state_file is Some && config.state_file->0.flush_secs == 0
            ==> config_error(config) == Some("state_file flush_secs must be at least 1"@),
        config.users@.len() > 0 && (config.state_file is Some ==> config.state_file->0.flush_secs
            > 0) ==> config_error(config) == users_error(
            config.users@,
            Set::empty(),
            tcp,
            Set::empty(),
        ),
{
    assert(api_tcp(config) =~= tcp);
}

/// Top-level rules stand for a user `default` without a quota, who has them all, and are
/// judged as that user's; beside other users they are refused. Everything else stays as
/// it was written.
pub proof fn law_top_level_rules_stand_for_a_user(config: Config, folded: Config)
    requires
        is_folded(config, folded),
    ensures
        folded.state_file == config.state_file,
        folded.api == config.api,
        folded.total_quota == config.total_quota,
        config.rules@.len() == 0 ==> {
            &&& folded.users == config.users
            &&& folded.rules@.len() == 0
            &&& final_error(config) == config_error(config)
        },
        config.rules@.len() > 0 ==> {
            &&& folded.rules@.len() == 0
            &&& folded.users@.len() == 1
            &&& folded.users@[0].name@ == "default"@
            &&& folded.users@[0].quota is None
            &&& folded.users@[0].rules == config.rules
        },
        config.rules@.len() > 0 && config.users@.len() > 0 ==> final_error(config) == Some(
            "top-level rules and users cannot both be set"@,
        ),
        config.rules@.len() > 0 && config.users@.len() == 0 ==> final_error(config)
            == config_error(folded),
{
    if config.rules@.len() > 0 {
        let users = folded.users@;
        reveal_strlit("default");
        assert(users.skip(1) =~= seq![]);
        assert(api_tcp(folded) == api_tcp(config));
        reveal_with_fuel(users_error, 2);
    }
}

/// Those who share the total are the users without a quota of their own, every one of
/// them. Each gets as many whole bytes as leave enough for the others: the shares
/// together do not exceed the total, and one byte more for each would.
pub proof fn law_the_total_is_shared_by_all_without_a_quota(config: Config)
    ensures
        ({
            let sharers = config.users@.filter(|user: UserConfig| user.quota is None).len();
            &&& unset_count(config.users@) == sharers
            &&& quota_share(config) is Some <==> config.total_quota is Some && sharers > 0
            &&& quota_share(config) is Some ==> {
                &&& sharers * quota_share(config)->0 <= (config.total_quota->0).0
                &&& (config.total_quota->0).0 < sharers * (quota_share(config)->0 + 1)
            }
        }),
{
    lemma_sharers(config.users@);
    if config.total_quota is Some && unset_count(config.users@) > 0 {
        law_shares_split_the_total(config);
        let n = unset_count(config.users@);
        let share = quota_share(config)->0;
        assert(n * (share + 1) == n * share + n) by (nonlinear_arith);
    }
}

proof fn lemma_sharers(users: Seq<UserConfig>)
    ensures
        unset_count(users) == users.filter(|user: UserConfig| user.quota is None).len(),
    decreases users.len(),
{
    reveal(Seq::filter);
    if users.len() > 0 {
        lemma_sharers(users.drop_last());
    }
}

/// A user has the own quota, or else the share; where users have the same name, the last
/// of them decides.
pub proof fn law_users_get_their_quota(users: Seq<UserConfig>, share: Option<u64>, i: int)
    requires
        0 <= i < users.len(),
        forall|k: int| i < k < users.len() ==> (#[trigger] users[k]).name@ != users[i].name@,
    ensures
        quota_map(users, share).dom().contains(users[i].name@),
        users[i].quota is Some ==> quota_map(users, share)[users[i].name@] == Some(
            (users[i].quota->0).0,
        ),
        users[i].quota is None ==> quota_map(users, share)[users[i].name@] == share,
{
    lemma_quota_map(users, share, i);
}

/// What the users of a configuration are handed of the total: the quotas of those
/// without one of their own, added up.
pub open spec fn handed_out(users: Seq<UserConfig>, quotas: Map<Seq<char>, Option<u64>>) -> int
    decreases users.len(),
{
    if users.len() == 0 {
        0
    } else {
        handed_out(users.drop_last(), quotas) + if users.last().quota is None
            && quotas[users.last().name@] is Some {
            quotas[users.last().name@]->0 as int
        } else {
            0
        }
    }
}

/// No more than the total is handed out, however many users share it.
pub proof fn law_no_more_than_the_total_is_handed_out(config: Config)
    requires
        config.total_quota is Some,
        forall|i: int, k: int|
            0 <= i < k < config.users@.len() ==> (#[trigger] config.users@[i]).name@ != (
            #[trigger] config.users@[k]).name@,
    ensures
        handed_out(config.users@, quota_map(config.users@, quota_share(config)))
            <= (config.total_quota->0).0,
{
    let users = config.users@;
    let share = quota_share(config);
    let quotas = quota_map(users, share);
    assert forall|i: int| 0 <= i < users.len() && users[i].quota is None implies quotas[
        (#[trigger] users[i]).name@
    ] == share by {
        assert forall|k: int| i < k < users.len() implies (#[trigger] users[k]).name@
            != users[i].name@ by {
            assert(users[i].name@ != users[k].name@);
        }
        lemma_quota_map(users, share, i);
    }
    lemma_handed_out(users, users.len() as int, quotas, share);
    assert(users.take(users.len() as int) =~= users);
    if unset_count(users) > 0 {
        law_shares_split_the_total(config);
    }
}

proof fn lemma_handed_out(
    users: Seq<UserConfig>,
    n: int,
    quotas: Map<Seq<char>, Option<u64>>,
    share: Option<u64>,
)
    requires
        0 <= n <= users.len(),
        forall|i: int|
            0 <= i < users.len() && users[i].quota is None ==> quotas[(#[trigger] users[i]).name@]
                == share,
    ensures
        handed_out(users.take(n), quotas) == if share is Some {
            unset_count(users.take(n)) * share->0
        } else {
            0
        },
    decreases n,
{
    if n == 0 {
        assert(users.take(0) =~= seq![]);
        if share is Some {
            assert(0 * share->0 == 0) by (nonlinear_arith);
        }
    } else {
        lemma_handed_out(users, n - 1, quotas, share);
        let t = users.take(n);
        assert(t.drop_last() =~= users.take(n - 1));
        assert(t.last() == users[n - 1]);
        if share is Some {
            let c = unset_count(users.take(n - 1));
            let s = share->0 as int;
            assert((c + 1) * s == c * s + s) by (nonlinear_arith);
        }
    }
}

} // verus!
