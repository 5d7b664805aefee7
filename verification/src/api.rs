//! What the query API answers.

use crate::quota::{QuotaState, UserQuota};
use crate::size::{format_size, formatted_size};
use crate::text::{decimal, push_decimal, same_text};
use vstd::prelude::*;
use vstd::string::*;

verus! {

/// The answer to a request.
#[derive(Debug, PartialEq, Eq)]
pub enum Reply<T> {
    /// The request does not carry the token.
    Unauthorized,
    /// There is no such user.
    NotFound,
    Found(T),
}

/// The usage of a user, with sizes as they are shown.
#[derive(Debug)]
pub struct UserUsage {
    pub name: String,
    pub total: String,
    pub used: String,
    pub hour_used: String,
    pub remaining: String,
}

/// The texts of a `UserUsage`.
#[verifier::ext_equal]
pub struct UsageTexts {
    pub name: Seq<char>,
    pub total: Seq<char>,
    pub used: Seq<char>,
    pub hour_used: Seq<char>,
    pub remaining: Seq<char>,
}

impl View for UserUsage {
    type V = UsageTexts;

    open spec fn view(&self) -> UsageTexts {
        UsageTexts {
            name: self.name@,
            total: self.total@,
            used: self.used@,
            hour_used: self.hour_used@,
            remaining: self.remaining@,
        }
    }
}

/// A size as it is shown, where there may be no limit.
pub open spec fn limit_text(bytes: Option<u64>) -> Seq<char> {
    match bytes {
        Some(bytes) => formatted_size(bytes),
        None => "unlimited"@,
    }
}

/// The usage of a user as it is shown.
pub open spec fn usage_texts(name: Seq<char>, quota: QuotaState) -> UsageTexts {
    UsageTexts {
        name,
        total: limit_text(quota.limit),
        used: formatted_size(quota.used() as u64),
        hour_used: formatted_size(quota.hour_used()),
        remaining: limit_text(quota.remaining()),
    }
}

/// The usage of a user is a number that can be told.
pub open spec fn can_report(quota: QuotaState) -> bool {
    quota.wf() && quota.used() <= u64::MAX
}

fn limit_size(bytes: Option<u64>) -> (r: String)
    ensures
        r@ == limit_text(bytes),
{
    match bytes {
        Some(bytes) => format_size(bytes),
        None => "unlimited".to_owned(),
    }
}

impl UserUsage {
    /// The usage of a user as it is now.
    pub fn of(quota: &UserQuota) -> (r: UserUsage)
        requires
            can_report(quota@),
        ensures
            r@ == usage_texts(quota.user_name(), quota@),
    {
        UserUsage {
            name: quota.name().to_owned(),
            total: limit_size(quota.limit()),
            used: format_size(quota.used()),
            hour_used: format_size(quota.hour_used()),
            remaining: limit_size(quota.remaining()),
        }
    }
}

/// What a request brings along to be let in.
#[derive(Debug, Clone, Copy)]
pub struct Credentials<'a> {
    /// The value of the `Authorization` header.
    pub authorization: Option<&'a str>,
    /// The value of the query parameter `token`.
    pub query_token: Option<&'a str>,
}

/// A request may see usage: there is no token, or the request carries it, as
/// `Authorization: Bearer <token>` or as `?token=<token>`.
pub open spec fn is_authorized(
    token: Option<Seq<char>>,
    authorization: Option<Seq<char>>,
    query_token: Option<Seq<char>>,
) -> bool {
    match token {
        None => true,
        Some(expected) => authorization == Some("Bearer "@ + expected) || query_token == Some(
            expected,
        ),
    }
}

/// The characters of a text that may be missing.
pub open spec fn text_of(text: Option<&str>) -> Option<Seq<char>> {
    match text {
        Some(text) => Some(text@),
        None => None,
    }
}

/// A request with these credentials may see usage.
pub open spec fn may_see(token: Option<&str>, credentials: Credentials) -> bool {
    is_authorized(
        text_of(token),
        text_of(credentials.authorization),
        text_of(credentials.query_token),
    )
}

/// Whether a request may see usage.
pub fn authorize(token: Option<&str>, credentials: &Credentials) -> (r: bool)
    ensures
        r == may_see(token, *credentials),
{
    let expected: &str = match token {
        None => {
            return true;
        },
        Some(expected) => expected,
    };
    if let Some(value) = credentials.authorization {
        let mut bearer: String = String::new();
        bearer.append("Bearer ");
        bearer.append(expected);
        proof {
            assert(bearer@ =~= "Bearer "@ + expected@);
        }
        if same_text(value, bearer.as_str()) {
            return true;
        }
    }
    match credentials.query_token {
        Some(value) => same_text(value, expected),
        None => false,
    }
}

/// The index of the last user of that name.
pub open spec fn user_named(users: Seq<&UserQuota>, name: Seq<char>) -> Option<int>
    decreases users.len(),
{
    if users.len() == 0 {
        None
    } else if users.last().user_name() == name {
        Some(users.len() - 1)
    } else {
        user_named(users.drop_last(), name)
    }
}

/// Looks a user up by name.
fn find_user(users: &Vec<&UserQuota>, name: &str) -> (r: Option<usize>)
    ensures
        match r {
            Some(i) => user_named(users@, name@) == Some(i as int) && i < users@.len()
                && users@[i as int].user_name() == name@,
            None => user_named(users@, name@) is None,
        },
{
    let mut i: usize = users.len();
    proof {
        assert(users@.take(i as int) =~= users@);
    }
    while i > 0
        invariant
            i <= users@.len(),
            user_named(users@, name@) == user_named(users@.take(i as int), name@),
        decreases i,
    {
        proof {
            assert(users@.take(i as int).drop_last() =~= users@.take(i as int - 1));
            assert(users@.take(i as int).last() == users@[i as int - 1]);
        }
        i = i - 1;
        if same_text(users[i].name(), name) {
            return Some(i);
        }
    }
    None
}

/// The usage of all users, in the order of the configuration.
pub open spec fn all_usage(users: Seq<&UserQuota>) -> Seq<UsageTexts> {
    users.map_values(|user: &UserQuota| usage_texts(user.user_name(), user@))
}

/// The answer to a request for all users.
pub open spec fn list_reply(authorized: bool, users: Seq<&UserQuota>) -> Reply<Seq<UsageTexts>> {
    if authorized {
        Reply::Found(all_usage(users))
    } else {
        Reply::Unauthorized
    }
}

/// The texts of some usages.
pub open spec fn usages_view(usages: Seq<UserUsage>) -> Seq<UsageTexts> {
    usages.map_values(|usage: UserUsage| usage@)
}

/// Answers a request for all users.
pub fn list_users(
    token: Option<&str>,
    credentials: &Credentials,
    users: &Vec<&UserQuota>,
) -> (r: Reply<Vec<UserUsage>>)
    requires
        may_see(token, *credentials) ==> forall|i: int|
            0 <= i < users@.len() ==> can_report((#[trigger] users@[i])@),
    ensures
        match (r, list_reply(may_see(token, *credentials), users@)) {
            (Reply::Unauthorized, Reply::Unauthorized) => true,
            (Reply::NotFound, Reply::NotFound) => true,
            (Reply::Found(list), Reply::Found(texts)) => usages_view(list@) == texts,
            _ => false,
        },
{
    if !authorize(token, credentials) {
        return Reply::Unauthorized;
    }
    let mut list: Vec<UserUsage> = Vec::new();
    let mut i: usize = 0;
    while i < users.len()
        invariant
            i <= users@.len(),
            forall|j: int| 0 <= j < users@.len() ==> can_report((#[trigger] users@[j])@),
            usages_view(list@) == all_usage(users@.take(i as int)),
        decreases users@.len() - i,
    {
        let ghost before = list@;
        list.push(UserUsage::of(users[i]));
        proof {
            assert(usages_view(list@) =~= usages_view(before).push(list@.last()@));
            assert(all_usage(users@.take(i as int + 1)) =~= all_usage(users@.take(i as int)).push(
                usage_texts(users@[i as int].user_name(), users@[i as int]@),
            ));
        }
        i = i + 1;
    }
    proof {
        assert(users@.take(users@.len() as int) =~= users@);
    }
    Reply::Found(list)
}

/// The answer to a request for one user.
pub open spec fn user_reply(authorized: bool, users: Seq<&UserQuota>, name: Seq<char>) -> Reply<
    UsageTexts,
> {
    if !authorized {
        Reply::Unauthorized
    } else {
        match user_named(users, name) {
            Some(i) => Reply::Found(usage_texts(name, users[i]@)),
            None => Reply::NotFound,
        }
    }
}

/// Answers a request for one user.
pub fn get_user(
    token: Option<&str>,
    credentials: &Credentials,
    users: &Vec<&UserQuota>,
    name: &str,
) -> (r: Reply<UserUsage>)
    requires
        may_see(token, *credentials) && user_named(users@, name@) is Some ==> can_report(
            users@[user_named(users@, name@)->0]@,
        ),
    ensures
        match (r, user_reply(may_see(token, *credentials), users@, name@)) {
            (Reply::Unauthorized, Reply::Unauthorized) => true,
            (Reply::NotFound, Reply::NotFound) => true,
            (Reply::Found(usage), Reply::Found(texts)) => usage@ == texts,
            _ => false,
        },
{
    if !authorize(token, credentials) {
        return Reply::Unauthorized;
    }
    match find_user(users, name) {
        Some(i) => Reply::Found(UserUsage::of(users[i])),
        None => Reply::NotFound,
    }
}

/// The `subscription-userinfo` of a user; without a limit it has no `total`.
pub open spec fn userinfo(quota: QuotaState) -> Seq<char> {
    let counters = "upload="@ + decimal(quota.upload as nat) + "; download="@ + decimal(
        quota.download as nat,
    );
    match quota.limit {
        Some(limit) => counters + "; total="@ + decimal(limit as nat),
        None => counters,
    }
}

/// The answer to a request of a subscription.
pub open spec fn sub_reply(authorized: bool, users: Seq<&UserQuota>, name: Seq<char>) -> Reply<
    Seq<char>,
> {
    if !authorized {
        Reply::Unauthorized
    } else {
        match user_named(users, name) {
            Some(i) => Reply::Found(userinfo(users[i]@)),
            None => Reply::NotFound,
        }
    }
}

/// Answers a request of a subscription, as Sub-Store makes it: the traffic of a user
/// goes into the `subscription-userinfo` header of the response.
pub fn sub_store(
    token: Option<&str>,
    credentials: &Credentials,
    users: &Vec<&UserQuota>,
    name: &str,
) -> (r: Reply<String>)
    ensures
        match (r, sub_reply(may_see(token, *credentials), users@, name@)) {
            (Reply::Unauthorized, Reply::Unauthorized) => true,
            (Reply::NotFound, Reply::NotFound) => true,
            (Reply::Found(info), Reply::Found(text)) => info@ == text,
            _ => false,
        },
{
    if !authorize(token, credentials) {
        return Reply::Unauthorized;
    }
    match find_user(users, name) {
        Some(i) => {
            let user = users[i];
            let mut info: String = String::new();
            info.append("upload=");
            push_decimal(&mut info, user.upload());
            info.append("; download=");
            push_decimal(&mut info, user.download());
            if let Some(limit) = user.limit() {
                info.append("; total=");
                push_decimal(&mut info, limit);
            }
            proof {
                assert(info@ =~= userinfo(user@));
            }
            Reply::Found(info)
        },
        None => Reply::NotFound,
    }
}

/// A request without the token is answered the same whatever it asks for and
/// whoever the users are, so that it learns nothing of them.
pub proof fn law_unauthorized_learns_nothing(
    token: Seq<char>,
    authorization: Option<Seq<char>>,
    query_token: Option<Seq<char>>,
    users: Seq<&UserQuota>,
    name: Seq<char>,
)
    requires
        authorization != Some("Bearer "@ + token),
        query_token != Some(token),
    ensures
        ({
            let authorized = is_authorized(Some(token), authorization, query_token);
            &&& list_reply(authorized, users) is Unauthorized
            &&& user_reply(authorized, users, name) is Unauthorized
            &&& sub_reply(authorized, users, name) is Unauthorized
        }),
{
}

proof fn lemma_user_named(users: Seq<&UserQuota>, name: Seq<char>)
    ensures
        match user_named(users, name) {
            Some(i) => 0 <= i < users.len() && users[i].user_name() == name,
            None => forall|i: int|
                0 <= i < users.len() ==> (#[trigger] users[i]).user_name() != name,
        },
    decreases users.len(),
{
    if users.len() > 0 {
        let init = users.drop_last();
        lemma_user_named(init, name);
        if users.last().user_name() != name && user_named(init, name) is None {
            assert forall|i: int| 0 <= i < users.len() implies (#[trigger] users[i]).user_name()
                != name by {
                if i < init.len() {
                    assert(init[i].user_name() != name);
                }
            }
        }
    }
}

/// An authorized request for a user is answered with an entry of the list of all
/// users, and is told that there is none exactly if the list has no such name.
pub proof fn law_user_is_an_entry_of_the_list(users: Seq<&UserQuota>, name: Seq<char>)
    ensures
        match user_reply(true, users, name) {
            Reply::Unauthorized => false,
            Reply::NotFound => forall|i: int|
                0 <= i < users.len() ==> (#[trigger] all_usage(users)[i]).name != name,
            Reply::Found(usage) => all_usage(users).contains(usage) && usage.name == name,
        },
        user_reply(true, users, name) is NotFound == sub_reply(true, users, name) is NotFound,
{
    lemma_user_named(users, name);
    match user_named(users, name) {
        Some(i) => {
            assert(all_usage(users)[i] == usage_texts(name, users[i]@));
        },
        None => {
            assert forall|i: int| 0 <= i < users.len() implies (#[trigger] all_usage(users)[i]).name
                != name by {
                assert(users[i].user_name() != name);
            }
        },
    }
}

/// What is reported of a user are the billed numbers, limited or not: `used` is what is
/// settled together with the greater direction of the hour, `hour_used` that direction
/// alone, and `remaining` what the limit exceeds `used` by. Without a limit, `total` and
/// `remaining` say so.
pub proof fn law_billed_numbers_are_reported(
    name: Seq<char>,
    quota: QuotaState,
    hour_used: u64,
    used: u64,
)
    requires
        hour_used >= quota.hour_upload,
        hour_used >= quota.hour_download,
        hour_used == quota.hour_upload || hour_used == quota.hour_download,
        used == quota.settled + hour_used,
    ensures
        ({
            let texts = usage_texts(name, quota);
            &&& texts.name == name
            &&& texts.used == formatted_size(used)
            &&& texts.hour_used == formatted_size(hour_used)
            &&& match quota.limit {
                Some(limit) => {
                    &&& texts.total == formatted_size(limit)
                    &&& used <= limit ==> texts.remaining == formatted_size((limit - used) as u64)
                    &&& used > limit ==> texts.remaining == formatted_size(0)
                },
                None => texts.total == "unlimited"@ && texts.remaining == "unlimited"@,
            }
        }),
        quota.wf() ==> can_report(quota),
        can_report(quota) ==> quota.wf(),
{
}

/// With a token, a request is let in exactly if it carries that token, behind `Bearer `
/// in the `Authorization` header or as the query parameter; without one, always.
pub proof fn law_the_token_lets_in(
    token: &str,
    value: &str,
    other: &str,
    credentials: Credentials,
)
    ensures
        may_see(None, credentials),
        may_see(
            Some(token),
            Credentials { authorization: Some(value), query_token: Some(other) },
        ) <==> value@ == "Bearer "@ + token@ || other@ == token@,
        may_see(Some(token), Credentials { authorization: Some(value), query_token: None })
            <==> value@ == "Bearer "@ + token@,
        may_see(Some(token), Credentials { authorization: None, query_token: Some(other) })
            <==> other@ == token@,
        !may_see(Some(token), Credentials { authorization: None, query_token: None }),
{
}

/// The list holds every user in order, each with the usage of that user.
pub proof fn law_every_user_is_listed(users: Seq<&UserQuota>, i: int)
    requires
        0 <= i < users.len(),
    ensures
        list_reply(false, users) is Unauthorized,
        list_reply(true, users) matches Reply::Found(list) && list.len() == users.len() && list[i]
            == usage_texts(users[i].user_name(), users[i]@),
{
}

/// A request for a name is answered with the last user of that name, and with none
/// exactly if nobody has it.
pub proof fn law_users_are_found_by_name(users: Seq<&UserQuota>, name: Seq<char>, i: int)
    requires
        -1 <= i < users.len(),
        i >= 0 ==> users[i].user_name() == name,
        forall|k: int| i < k < users.len() ==> (#[trigger] users[k]).user_name() != name,
    ensures
        user_reply(false, users, name) is Unauthorized,
        sub_reply(false, users, name) is Unauthorized,
        i < 0 ==> user_reply(true, users, name) is NotFound && sub_reply(
            true,
            users,
            name,
        ) is NotFound,
        i >= 0 ==> user_reply(true, users, name) == Reply::Found(usage_texts(name, users[i]@))
            && sub_reply(true, users, name) == Reply::Found(userinfo(users[i]@)),
{
    lemma_last_named(users, name, i);
}

proof fn lemma_last_named(users: Seq<&UserQuota>, name: Seq<char>, i: int)
    requires
        -1 <= i < users.len(),
        i >= 0 ==> users[i].user_name() == name,
        forall|k: int| i < k < users.len() ==> (#[trigger] users[k]).user_name() != name,
    ensures
        user_named(users, name) == if i < 0 {
            None
        } else {
            Some(i)
        },
    decreases users.len(),
{
    if users.len() > 0 && i < users.len() - 1 {
        let init = users.drop_last();
        assert(users[users.len() - 1].user_name() != name);
        assert forall|k: int| i < k < init.len() implies (#[trigger] init[k]).user_name()
            != name by {
            assert(users[k].user_name() != name);
        }
        lemma_last_named(init, name, i);
    }
}

/// The header of a subscription holds the lifetime totals, and the limit where there is
/// one.
pub proof fn law_subscriptions_tell_the_totals(quota: QuotaState)
    ensures
        ({
            let totals = "upload="@ + decimal(quota.upload as nat) + "; download="@ + decimal(
                quota.download as nat,
            );
            match quota.limit {
                Some(limit) => userinfo(quota) == totals + "; total="@ + decimal(limit as nat),
                None => userinfo(quota) == totals,
            }
        }),
{
}

/// What is shown of a usage is what it holds.
pub proof fn law_usages_show_what_they_hold(usages: Seq<UserUsage>, i: int)
    requires
        0 <= i < usages.len(),
    ensures
        usages_view(usages).len() == usages.len(),
        usages_view(usages)[i].name == usages[i].name@,
        usages_view(usages)[i].total == usages[i].total@,
        usages_view(usages)[i].used == usages[i].used@,
        usages_view(usages)[i].hour_used == usages[i].hour_used@,
        usages_view(usages)[i].remaining == usages[i].remaining@,
        usages[i]@ == usages_view(usages)[i],
{
}

} // verus!
