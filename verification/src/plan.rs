//! What a configuration has the forwarder do: who the users are and how much of
//! their quota is used, which rules are run and how their targets recover.

use crate::clock::{hour_of, Clock};
use crate::config::{
    lemma_quota_names, quota_map, quota_share, resolve_quotas, Config, Rule, StateFileConfig,
    UserConfig,
};
use crate::quota::{restored, saved_used, SavedUsage, UserQuota};
use crate::state::{saved_usage, usage_of};
use vstd::hash_map::StringHashMap;
use vstd::prelude::*;
use vstd::string::*;

verus! {

/// The section that says where usage is kept, unless it is missing or switched off.
pub fn persistence(config: &Config) -> (r: Option<&StateFileConfig>)
    ensures
        match config.state_file {
            Some(section) => r == if section.enabled {
                Some(&section)
            } else {
                None
            },
            None => r is None,
        },
{
    match &config.state_file {
        Some(section) => if section.enabled {
            Some(section)
        } else {
            None
        },
        None => None,
    }
}

/// The usage of every user can be restored from what was saved.
pub open spec fn can_restore(
    users: Seq<UserConfig>,
    saved: Map<Seq<char>, SavedUsage>,
) -> bool {
    forall|i: int|
        0 <= i < users.len() ==> saved_used(usage_of(saved, (#[trigger] users[i]).name@)) <= u64::MAX
}

/// The quotas of all users at a Unix time, in the order of the configuration: each
/// has the limit that is due to the user and resumes from what was saved.
pub fn start_users(
    config: &Config,
    saved: &StringHashMap<SavedUsage>,
    clock: &Clock,
    unix_secs: i64,
) -> (r: Vec<UserQuota>)
    requires
        clock.can_tell(unix_secs),
        can_restore(config.users@, saved@),
    ensures
        r@.len() == config.users@.len(),
        forall|i: int|
            0 <= i < r@.len() ==> {
                let name = config.users@[i].name@;
                &&& (#[trigger] r@[i]).user_name() == name
                &&& r@[i]@ == restored(
                    quota_map(config.users@, quota_share(*config))[name],
                    usage_of(saved@, name),
                    hour_of(unix_secs + clock.offset()) as i64,
                )
                &&& r@[i]@.wf()
            },
{
    let quotas = resolve_quotas(config);
    let ghost map = quota_map(config.users@, quota_share(*config));
    let mut r: Vec<UserQuota> = Vec::new();
    let mut i: usize = 0;
    while i < config.users.len()
        invariant
            i <= config.users@.len(),
            quotas@ == map,
            map == quota_map(config.users@, quota_share(*config)),
            clock.can_tell(unix_secs),
            can_restore(config.users@, saved@),
            r@.len() == i,
            forall|j: int|
                0 <= j < i ==> {
                    let name = config.users@[j].name@;
                    &&& (#[trigger] r@[j]).user_name() == name
                    &&& r@[j]@ == restored(
                        map[name],
                        usage_of(saved@, name),
                        hour_of(unix_secs + clock.offset()) as i64,
                    )
                    &&& r@[j]@.wf()
                },
        decreases config.users@.len() - i,
    {
        let user = &config.users[i];
        proof {
            lemma_quota_names(config.users@, quota_share(*config), user.name@);
            assert(config.users@[i as int].name@ == user.name@);
        }
        let limit: Option<u64> = match quotas.get(user.name.as_str()) {
            Some(limit) => *limit,
            None => None,
        };
        let usage = saved_usage(saved, user.name.as_str());
        r.push(UserQuota::new(user.name.clone(), limit, usage, clock, unix_secs));
        i = i + 1;
    }
    r
}

/// How a rule is run.
#[derive(Debug)]
pub struct RulePlan {
    /// The index of the user, and the index of the rule among those of the user.
    pub user: usize,
    pub rule: usize,
    /// The targets in priority order.
    pub targets: Vec<String>,
    /// After how many seconds a downed target is tried again, where it cannot be
    /// probed.
    pub cooldown_secs: Option<u64>,
    /// How many seconds lie between two health checks.
    pub probe_secs: Option<u64>,
    pub tcp: bool,
    pub udp: bool,
}

/// A `RulePlan` with its texts as characters.
#[verifier::ext_equal]
pub struct Plan {
    pub user: int,
    pub rule: int,
    pub targets: Seq<Seq<char>>,
    pub cooldown_secs: Option<u64>,
    pub probe_secs: Option<u64>,
    pub tcp: bool,
    pub udp: bool,
}

impl View for RulePlan {
    type V = Plan;

    open spec fn view(&self) -> Plan {
        Plan {
            user: self.user as int,
            rule: self.rule as int,
            targets: self.targets@.map_values(|s: String| s@),
            cooldown_secs: self.cooldown_secs,
            probe_secs: self.probe_secs,
            tcp: self.tcp,
            udp: self.udp,
        }
    }
}

/// The targets of a rule, as they were written, in priority order.
pub open spec fn target_texts(rule: Rule) -> Seq<Seq<char>> {
    seq![rule.target.text@] + rule.fallback@.map_values(
        |target: crate::net::Target| target.text@,
    )
}

/// How a rule is run. A rule without fallbacks has nothing to switch to, so that its
/// target is neither probed nor cooled down; targets that speak only UDP cannot be
/// probed over TCP and are cooled down instead.
pub open spec fn rule_plan(user: int, index: int, rule: Rule) -> Plan {
    let has_fallback = rule.fallback@.len() > 0;
    Plan {
        user,
        rule: index,
        targets: target_texts(rule),
        cooldown_secs: if has_fallback && !rule.protocol.has_tcp() {
            Some(rule.check_secs)
        } else {
            None
        },
        probe_secs: if has_fallback && rule.protocol.has_tcp() {
            Some(rule.check_secs)
        } else {
            None
        },
        tcp: rule.protocol.has_tcp(),
        udp: rule.protocol.has_udp(),
    }
}

/// The plans of the enabled rules among those of a user.
pub open spec fn user_plans(user: int, rules: Seq<Rule>) -> Seq<Plan>
    decreases rules.len(),
{
    if rules.len() == 0 {
        seq![]
    } else if rules.last().enabled {
        user_plans(user, rules.drop_last()).push(rule_plan(user, rules.len() - 1, rules.last()))
    } else {
        user_plans(user, rules.drop_last())
    }
}

/// The plans of all enabled rules, in the order of the configuration.
pub open spec fn all_plans(users: Seq<UserConfig>) -> Seq<Plan>
    decreases users.len(),
{
    if users.len() == 0 {
        seq![]
    } else {
        all_plans(users.drop_last()) + user_plans(users.len() - 1, users.last().rules@)
    }
}

/// The plans as they are.
pub open spec fn plan_views(plans: Seq<RulePlan>) -> Seq<Plan> {
    plans.map_values(|plan: RulePlan| plan@)
}

fn plan_rule(user: usize, index: usize, rule: &Rule) -> (r: RulePlan)
    ensures
        r@ == rule_plan(user as int, index as int, *rule),
{
    let mut targets: Vec<String> = Vec::new();
    targets.push(rule.target.text.clone());
    let ghost texts = target_texts(*rule);
    let mut i: usize = 0;
    while i < rule.fallback.len()
        invariant
            i <= rule.fallback@.len(),
            texts == target_texts(*rule),
            targets@.len() == i + 1,
            forall|j: int| 0 <= j <= i ==> (#[trigger] targets@[j])@ == texts[j],
        decreases rule.fallback@.len() - i,
    {
        targets.push(rule.fallback[i].text.clone());
        i = i + 1;
    }
    let has_fallback: bool = rule.fallback.len() > 0;
    let tcp: bool = rule.protocol.tcp();
    let cooldown_secs: Option<u64> = if has_fallback && !tcp {
        Some(rule.check_secs)
    } else {
        None
    };
    let probe_secs: Option<u64> = if has_fallback && tcp {
        Some(rule.check_secs)
    } else {
        None
    };
    let r = RulePlan {
        user,
        rule: index,
        targets,
        cooldown_secs,
        probe_secs,
        tcp,
        udp: rule.protocol.udp(),
    };
    proof {
        assert(r@.targets =~= texts);
    }
    r
}

/// Plans the enabled rules; the others are skipped.
pub fn plan_rules(config: &Config) -> (r: Vec<RulePlan>)
    ensures
        plan_views(r@) == all_plans(config.users@),
{
    let ghost users = config.users@;
    let mut r: Vec<RulePlan> = Vec::new();
    let mut u: usize = 0;
    while u < config.users.len()
        invariant
            u <= users.len(),
            users == config.users@,
            plan_views(r@) == all_plans(users.take(u as int)),
        decreases users.len() - u,
    {
        let user = &config.users[u];
        let ghost rules = user.rules@;
        let ghost before = plan_views(r@);
        proof {
            assert(users.take(u as int + 1).drop_last() =~= users.take(u as int));
            assert(users.take(u as int + 1).last() == *user);
            assert(before =~= before + user_plans(u as int, rules.take(0)));
        }
        let mut k: usize = 0;
        while k < user.rules.len()
            invariant
                k <= rules.len(),
                rules == user.rules@,
                plan_views(r@) == before + user_plans(u as int, rules.take(k as int)),
            decreases rules.len() - k,
        {
            let ghost done = r@;
            proof {
                assert(rules.take(k as int + 1).drop_last() =~= rules.take(k as int));
            }
            if user.rules[k].enabled {
                r.push(plan_rule(u, k, &user.rules[k]));
                proof {
                    assert(plan_views(r@) =~= plan_views(done).push(r@.last()@));
                    assert(plan_views(r@) =~= before + user_plans(
                        u as int,
                        rules.take(k as int + 1),
                    ));
                }
            }
            k = k + 1;
        }
        proof {
            assert(rules.take(rules.len() as int) =~= rules);
        }
        u = u + 1;
    }
    proof {
        assert(users.take(users.len() as int) =~= users);
    }
    r
}

/// A plan comes before another one in the order of the configuration.
pub open spec fn comes_before(a: Plan, b: Plan) -> bool {
    a.user < b.user || a.user == b.user && a.rule < b.rule
}

proof fn lemma_user_plans(user: int, rules: Seq<Rule>)
    ensures
        forall|k: int|
            0 <= k < user_plans(user, rules).len() ==> {
                let plan = #[trigger] user_plans(user, rules)[k];
                &&& 0 <= plan.rule < rules.len()
                &&& rules[plan.rule].enabled
                &&& plan == rule_plan(user, plan.rule, rules[plan.rule])
            },
        forall|j: int|
            0 <= j < rules.len() && (#[trigger] rules[j]).enabled ==> user_plans(
                user,
                rules,
            ).contains(rule_plan(user, j, rules[j])),
        forall|a: int, b: int|
            0 <= a < b < user_plans(user, rules).len() ==> comes_before(
                #[trigger] user_plans(user, rules)[a],
                #[trigger] user_plans(user, rules)[b],
            ),
    decreases rules.len(),
{
    if rules.len() > 0 {
        let init = rules.drop_last();
        let p = user_plans(user, init);
        let q = user_plans(user, rules);
        lemma_user_plans(user, init);
        assert forall|k: int| 0 <= k < q.len() implies {
            let plan = #[trigger] q[k];
            &&& 0 <= plan.rule < rules.len()
            &&& rules[plan.rule].enabled
            &&& plan == rule_plan(user, plan.rule, rules[plan.rule])
        } by {
            if k < p.len() {
                assert(q[k] == p[k]);
                assert(init[p[k].rule] == rules[p[k].rule]);
            }
        }
        assert forall|j: int| 0 <= j < rules.len() && (#[trigger] rules[j]).enabled implies q.contains(
            rule_plan(user, j, rules[j]),
        ) by {
            if j < init.len() {
                assert(init[j] == rules[j]);
                let k = choose|k: int| 0 <= k < p.len() && p[k] == rule_plan(user, j, init[j]);
                assert(q[k] == p[k]);
            } else {
                assert(q[q.len() - 1] == rule_plan(user, j, rules[j]));
            }
        }
        assert forall|a: int, b: int| 0 <= a < b < q.len() implies comes_before(
            #[trigger] q[a],
            #[trigger] q[b],
        ) by {
            assert(q[a] == p[a]);
            if b < p.len() {
                assert(q[b] == p[b]);
            }
        }
    }
}

proof fn lemma_all_plans(users: Seq<UserConfig>)
    ensures
        forall|k: int|
            0 <= k < all_plans(users).len() ==> {
                let plan = #[trigger] all_plans(users)[k];
                &&& 0 <= plan.user < users.len()
                &&& 0 <= plan.rule < users[plan.user].rules@.len()
                &&& users[plan.user].rules@[plan.rule].enabled
                &&& plan == rule_plan(plan.user, plan.rule, users[plan.user].rules@[plan.rule])
            },
        forall|i: int, j: int|
            0 <= i < users.len() && 0 <= j < users[i].rules@.len() && (
            #[trigger] users[i].rules@[j]).enabled ==> all_plans(users).contains(
                rule_plan(i, j, users[i].rules@[j]),
            ),
        forall|a: int, b: int|
            0 <= a < b < all_plans(users).len() ==> comes_before(
                #[trigger] all_plans(users)[a],
                #[trigger] all_plans(users)[b],
            ),
    decreases users.len(),
{
    if users.len() > 0 {
        let init = users.drop_last();
        let last = users.len() - 1;
        let p = all_plans(init);
        let t = user_plans(last, users.last().rules@);
        let q = all_plans(users);
        lemma_all_plans(init);
        lemma_user_plans(last, users.last().rules@);
        assert forall|k: int| 0 <= k < q.len() implies {
            let plan = #[trigger] q[k];
            &&& 0 <= plan.user < users.len()
            &&& 0 <= plan.rule < users[plan.user].rules@.len()
            &&& users[plan.user].rules@[plan.rule].enabled
            &&& plan == rule_plan(plan.user, plan.rule, users[plan.user].rules@[plan.rule])
        } by {
            if k < p.len() {
                assert(q[k] == p[k]);
                assert(init[p[k].user] == users[p[k].user]);
            } else {
                assert(q[k] == t[k - p.len()]);
            }
        }
        assert forall|i: int, j: int|
            0 <= i < users.len() && 0 <= j < users[i].rules@.len() && (
            #[trigger] users[i].rules@[j]).enabled implies q.contains(
            rule_plan(i, j, users[i].rules@[j]),
        ) by {
            let plan = rule_plan(i, j, users[i].rules@[j]);
            if i < last {
                assert(init[i] == users[i]);
                assert(init[i].rules@[j].enabled);
                let k = choose|k: int| 0 <= k < p.len() && p[k] == plan;
                assert(q[k] == p[k]);
            } else {
                let k = choose|k: int| 0 <= k < t.len() && t[k] == plan;
                assert(q[p.len() + k] == t[k]);
            }
        }
        assert forall|a: int, b: int| 0 <= a < b < q.len() implies comes_before(
            #[trigger] q[a],
            #[trigger] q[b],
        ) by {
            if b < p.len() {
                assert(q[a] == p[a] && q[b] == p[b]);
            } else if a < p.len() {
                assert(q[a] == p[a] && q[b] == t[b - p.len()]);
            } else {
                assert(q[a] == t[a - p.len()] && q[b] == t[b - p.len()]);
            }
        }
    }
}

/// Exactly the enabled rules are run, each of them once, in the order of the
/// configuration.
pub proof fn law_enabled_rules_are_run_once(users: Seq<UserConfig>, i: int, j: int)
    requires
        0 <= i < users.len(),
        0 <= j < users[i].rules@.len(),
    ensures
        users[i].rules@[j].enabled ==> all_plans(users).contains(
            rule_plan(i, j, users[i].rules@[j]),
        ),
        !users[i].rules@[j].enabled ==> forall|k: int|
            0 <= k < all_plans(users).len() ==> !((#[trigger] all_plans(users)[k]).user == i
                && all_plans(users)[k].rule == j),
        forall|a: int, b: int|
            0 <= a < b < all_plans(users).len() ==> comes_before(
                #[trigger] all_plans(users)[a],
                #[trigger] all_plans(users)[b],
            ),
{
    lemma_all_plans(users);
}

/// A rule with fallbacks has exactly one way for a downed target to recover: health
/// checks where it forwards TCP, a cooldown where it forwards only UDP. Either takes
/// the check interval. A rule without fallbacks has none.
pub proof fn law_one_way_to_recover(user: int, index: int, rule: Rule)
    ensures
        ({
            let plan = rule_plan(user, index, rule);
            &&& plan.targets.len() == 1 + rule.fallback@.len()
            &&& plan.targets[0] == rule.target.text@
            &&& plan.tcp || plan.udp
            &&& if plan.targets.len() == 1 {
                plan.cooldown_secs is None && plan.probe_secs is None
            } else if plan.tcp {
                plan.cooldown_secs is None && plan.probe_secs == Some(rule.check_secs)
            } else {
                plan.cooldown_secs == Some(rule.check_secs) && plan.probe_secs is None
            }
        }),
{
}

/// A rule is run for its user and under its index, with its target first and its
/// fallbacks in order behind it, for the protocols that it names.
pub proof fn law_rules_are_run_as_written(user: int, index: int, rule: Rule, k: int)
    requires
        0 <= k < rule.fallback@.len(),
    ensures
        ({
            let plan = rule_plan(user, index, rule);
            &&& plan.targets.len() == 1 + rule.fallback@.len()
            &&& plan.targets[0] == rule.target.text@
            &&& plan.targets[k + 1] == rule.fallback@[k].text@
        }),
{
}

/// A plan says whom it is for and which protocols it serves: TCP unless the rule is for
/// UDP alone, and UDP unless it is for TCP alone.
pub proof fn law_plans_say_whom_they_are_for(user: int, index: int, rule: Rule)
    ensures
        ({
            let plan = rule_plan(user, index, rule);
            &&& plan.user == user
            &&& plan.rule == index
            &&& plan.tcp <==> !(rule.protocol is Udp)
            &&& plan.udp <==> !(rule.protocol is Tcp)
            &&& plan.targets.len() == 1 + rule.fallback@.len()
            &&& plan.probe_secs is Some <==> rule.fallback@.len() > 0 && !(rule.protocol is Udp)
            &&& plan.cooldown_secs is Some <==> rule.fallback@.len() > 0 && rule.protocol is Udp
            &&& plan.probe_secs is Some ==> plan.probe_secs->0 == rule.check_secs
            &&& plan.cooldown_secs is Some ==> plan.cooldown_secs->0 == rule.check_secs
        }),
{
}

/// Everything that is run is an enabled rule of the configuration, as it was written.
pub proof fn law_only_enabled_rules_are_run(users: Seq<UserConfig>, k: int)
    requires
        0 <= k < all_plans(users).len(),
    ensures
        ({
            let plan = all_plans(users)[k];
            &&& 0 <= plan.user < users.len()
            &&& 0 <= plan.rule < users[plan.user].rules@.len()
            &&& users[plan.user].rules@[plan.rule].enabled
            &&& plan == rule_plan(plan.user, plan.rule, users[plan.user].rules@[plan.rule])
        }),
{
    lemma_all_plans(users);
}

/// What is shown of a plan is what it holds.
pub proof fn law_plans_show_what_they_hold(plans: Seq<RulePlan>, i: int, k: int)
    requires
        0 <= i < plans.len(),
        0 <= k < plans[i].targets@.len(),
    ensures
        plan_views(plans).len() == plans.len(),
        plan_views(plans)[i].user == plans[i].user,
        plan_views(plans)[i].rule == plans[i].rule,
        plan_views(plans)[i].targets.len() == plans[i].targets@.len(),
        plan_views(plans)[i].targets[k] == plans[i].targets@[k]@,
        plan_views(plans)[i].cooldown_secs == plans[i].cooldown_secs,
        plan_views(plans)[i].probe_secs == plans[i].probe_secs,
        plan_views(plans)[i].tcp == plans[i].tcp,
        plan_views(plans)[i].udp == plans[i].udp,
{
}

/// Users can be started from every table whose rows add up to numbers of 64 bits.
pub proof fn law_users_can_be_started(users: Seq<UserConfig>, saved: Map<Seq<char>, SavedUsage>)
    requires
        forall|name: Seq<char>|
            #[trigger] saved.dom().contains(name) ==> {
                &&& saved[name].settled + saved[name].hour_upload <= u64::MAX
                &&& saved[name].settled + saved[name].hour_download <= u64::MAX
            },
    ensures
        can_restore(users, saved),
{
    assert forall|i: int| 0 <= i < users.len() implies saved_used(
        usage_of(saved, (#[trigger] users[i]).name@),
    ) <= u64::MAX by {
        if saved.dom().contains(users[i].name@) {
            assert(saved[users[i].name@].settled + saved[users[i].name@].hour_upload <= u64::MAX);
        }
    }
}

} // verus!
