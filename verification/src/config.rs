//! Tenants' budgets and policies, and how they are read and replaced.

use crate::error::WeirError;
use crate::shared::{configs_held, share, Shareable, SwapCell};
use crate::window::{the_units_are_those_of_the_clock, Window};
use std::sync::Arc;
use vstd::hash_map::StringHashMap;
use vstd::prelude::*;
use vstd::string::*;

verus! {

/// How many tokens a tenant may use in a window.
#[derive(Clone, Copy, Debug)]
pub struct BudgetLimit {
    pub max_tokens: u64,
    pub window: Window,
}

/// What a tenant may not ask for.
#[derive(Clone, Debug)]
pub struct PolicyConfig {
    pub blocked_models: Vec<String>,
    pub blocked_tools: Vec<String>,
}

impl Default for PolicyConfig {
    /// The policy that blocks nothing.
    fn default() -> (policy: Self)
        ensures
            policy.blocked_models@.len() == 0,
            policy.blocked_tools@.len() == 0,
    {
        PolicyConfig { blocked_models: Vec::new(), blocked_tools: Vec::new() }
    }
}

/// Each tenant's budget.
pub type TenantLimits = StringHashMap<BudgetLimit>;

/// Each tenant's policy.
pub type TenantPolicies = StringHashMap<PolicyConfig>;

/// A configuration, taken apart by what it is used for.
pub struct ParsedConfig {
    pub limits: TenantLimits,
    pub policies: TenantPolicies,
}

impl View for ParsedConfig {
    type V = (Map<Seq<char>, BudgetLimit>, Map<Seq<char>, PolicyConfig>);

    open spec fn view(&self) -> Self::V {
        (self.limits@, self.policies@)
    }
}

impl Default for ParsedConfig {
    /// The configuration without tenants.
    fn default() -> (config: Self)
        ensures
            config.limits@.dom() == Set::<Seq<char>>::empty(),
            config.policies@.dom() == Set::<Seq<char>>::empty(),
    {
        ParsedConfig { limits: TenantLimits::new(), policies: TenantPolicies::new() }
    }
}

/// A configuration as it is written: the tenants by name.
#[derive(Debug)]
pub struct RawConfig {
    pub tenants: Vec<(String, RawTenantLimit)>,
}

/// What is written of one tenant.
#[derive(Debug)]
pub struct RawTenantLimit {
    pub max_tokens: u64,
    pub window_seconds: u64,
    pub policy: RawPolicy,
}

/// What is written of one tenant's policy.
#[derive(Debug)]
pub struct RawPolicy {
    pub blocked_models: Vec<String>,
    pub blocked_tools: Vec<String>,
}

impl RawTenantLimit {
    /// The budget that is written.
    pub open spec fn limit(self) -> BudgetLimit {
        BudgetLimit {
            max_tokens: self.max_tokens,
            window: Window::seconds(self.window_seconds),
        }
    }

    /// The policy that is written.
    pub open spec fn policy(self) -> PolicyConfig {
        PolicyConfig {
            blocked_models: self.policy.blocked_models,
            blocked_tools: self.policy.blocked_tools,
        }
    }
}

/// Each tenant's budget, as written; the last one counts where a name is
/// repeated.
pub open spec fn limits_in(tenants: Seq<(String, RawTenantLimit)>) -> Map<Seq<char>, BudgetLimit>
    decreases tenants.len(),
{
    if tenants.len() == 0 {
        Map::empty()
    } else {
        limits_in(tenants.drop_last()).insert(tenants.last().0@, tenants.last().1.limit())
    }
}

/// Each tenant's policy, as written; the last one counts where a name is
/// repeated.
pub open spec fn policies_in(tenants: Seq<(String, RawTenantLimit)>) -> Map<
    Seq<char>,
    PolicyConfig,
>
    decreases tenants.len(),
{
    if tenants.len() == 0 {
        Map::empty()
    } else {
        policies_in(tenants.drop_last()).insert(tenants.last().0@, tenants.last().1.policy())
    }
}

/// What a document that was read amounts to: its tenants' budgets and policies,
/// or the error of a document that cannot be read.
pub open spec fn parsed_from(
    document: Result<RawConfig, String>,
    parsed: Result<ParsedConfig, WeirError>,
) -> bool {
    match document {
        Ok(raw) => {
            &&& parsed matches Ok(config)
            &&& config.limits@ == limits_in(raw.tenants@)
            &&& config.policies@ == policies_in(raw.tenants@)
        },
        Err(cause) => parsed == Err::<ParsedConfig, WeirError>(WeirError::Config(cause)),
    }
}

/// Turns a document that was read into budgets and policies.
pub fn interpret(document: Result<RawConfig, String>) -> (parsed: Result<ParsedConfig, WeirError>)
    ensures
        parsed_from(document, parsed),
{
    let raw = match document {
        Ok(raw) => raw,
        Err(cause) => return Err(WeirError::Config(cause)),
    };
    let mut limits = TenantLimits::new();
    let mut policies = TenantPolicies::new();
    let ghost tenants = raw.tenants@;
    for tenant in rest: raw.tenants.into_iter()
        invariant
            rest.seq() == tenants,
            limits@ == limits_in(tenants.take(rest.index() as int)),
            policies@ == policies_in(tenants.take(rest.index() as int)),
    {
        assert(tenants.take(rest.index() + 1).drop_last() =~= tenants.take(rest.index() as int));
        let (id, t) = tenant;
        limits.insert(
            id.clone(),
            BudgetLimit { max_tokens: t.max_tokens, window: Window::from_secs(t.window_seconds) },
        );
        policies.insert(
            id,
            PolicyConfig {
                blocked_models: t.policy.blocked_models,
                blocked_tools: t.policy.blocked_tools,
            },
        );
    }
    assert(tenants.take(tenants.len() as int) =~= tenants);
    Ok(ParsedConfig { limits, policies })
}

/// Parses the text of a configuration with `read`, which takes the text apart
/// or says why it cannot.
pub fn parse(contents: &str, read: impl FnOnce(&str) -> Result<RawConfig, String>) -> (parsed:
    Result<ParsedConfig, WeirError>)
    requires
        call_requires(read, (contents,)),
    ensures
        exists|document: Result<RawConfig, String>|
            #[trigger] call_ensures(read, (contents,), document) && parsed_from(document, parsed),
{
    let document = read(contents);
    interpret(document)
}

/// The error for a file at `path` that cannot be read.
pub open spec fn unreadable(path: Seq<char>, cause: Seq<char>, error: WeirError) -> bool {
    error matches WeirError::Config(text) && text@ == "reading "@ + path + ": "@ + cause
}

/// Parses what reading the file at `path` gave, with `read`; or says that the
/// file could not be read, and why.
pub fn load_from_file(
    path: &str,
    contents: Result<String, String>,
    read: impl FnOnce(&str) -> Result<RawConfig, String>,
) -> (parsed: Result<ParsedConfig, WeirError>)
    requires
        forall|text: &str| call_requires(read, (text,)),
    ensures
        match contents {
            Ok(contents) => exists|text: &str, document: Result<RawConfig, String>|
                {
                    &&& text@ == contents@
                    &&& #[trigger] call_ensures(read, (text,), document)
                    &&& parsed_from(document, parsed)
                },
            Err(cause) => parsed matches Err(error) && unreadable(path@, cause@, error),
        },
{
    match contents {
        Ok(contents) => parse(contents.as_str(), read),
        Err(cause) => {
            let text = String::from_str("reading ").concat(path).concat(": ").concat(
                cause.as_str(),
            );
            Err(WeirError::Config(text))
        },
    }
}

/// A configuration that is read in many places and replaced in one.
pub type SharedConfig = Arc<SwapCell<ParsedConfig>>;

/// Shares a configuration that was loaded; one that was not is the same error.
pub fn load_shared(loaded: Result<ParsedConfig, WeirError>) -> (shared: Result<
    SharedConfig,
    WeirError,
>)
    ensures
        match loaded {
            Ok(parsed) => shared matches Ok(cell) && configs_held(*cell).contains(parsed@),
            Err(error) => shared == Err::<SharedConfig, WeirError>(error),
        },
{
    match loaded {
        Ok(parsed) => Ok(share(parsed)),
        Err(error) => Err(error),
    }
}

/// What to do about a change of the file that a value was loaded from.
pub enum Reload<T> {
    /// The notification itself failed: do nothing, not even load.
    Ignore,
    /// Put the value that was loaded in place of the one in use.
    Store(T),
    /// Loading failed: go on with the value in use.
    Keep(WeirError),
}

/// What loading amounts to.
pub open spec fn reload_of<T>(loaded: Result<T, WeirError>) -> Reload<T> {
    match loaded {
        Ok(value) => Reload::Store(value),
        Err(error) => Reload::Keep(error),
    }
}

/// What to do about a change, by whether the notification of it is sound and by what
/// loading gives.
pub open spec fn action_on<T>(delivered: bool, loaded: Result<T, WeirError>) -> Reload<T> {
    if delivered {
        reload_of(loaded)
    } else {
        Reload::Ignore
    }
}

/// The value in use once a change has been dealt with, where `in_use` was in use.
pub open spec fn in_use_after<T>(in_use: T, action: Reload<T>) -> T {
    match action {
        Reload::Store(value) => value,
        Reload::Ignore => in_use,
        Reload::Keep(_) => in_use,
    }
}

/// Decides what to do about a change, where `delivered` says whether the
/// notification of it is sound, and `load` loads the value anew.
pub fn reload<T>(delivered: bool, load: impl FnOnce() -> Result<T, WeirError>) -> (action: Reload<
    T,
>)
    requires
        call_requires(load, ()),
    ensures
        if delivered {
            exists|loaded: Result<T, WeirError>|
                #[trigger] call_ensures(load, (), loaded) && action == reload_of(loaded)
        } else {
            action == Reload::<T>::Ignore
        },
{
    if !delivered {
        return Reload::Ignore;
    }
    match load() {
        Ok(value) => Reload::Store(value),
        Err(error) => Reload::Keep(error),
    }
}

/// What became of a change.
pub enum Change {
    /// Nothing was loaded.
    Ignored,
    /// A new value is in use.
    Reloaded,
    /// The value in use stays, because a new one could not be loaded.
    Kept(WeirError),
}

/// What becomes of a change, by what is done about it.
pub open spec fn change_by<T>(action: Reload<T>) -> Change {
    match action {
        Reload::Ignore => Change::Ignored,
        Reload::Store(_) => Change::Reloaded,
        Reload::Keep(error) => Change::Kept(error),
    }
}

/// Handles a change: stores a value that `load` gives anew, whole, and leaves the
/// one in use alone where the notification is not sound or loading fails.
pub fn on_change<T: Shareable>(
    shared: &SwapCell<T>,
    delivered: bool,
    load: impl FnOnce() -> Result<T, WeirError>,
) -> (change: Change)
    requires
        call_requires(load, ()),
    ensures
        if delivered {
            exists|loaded: Result<T, WeirError>|
                {
                    &&& #[trigger] call_ensures(load, (), loaded)
                    &&& change == change_by(reload_of(loaded))
                    &&& loaded matches Ok(value) ==> T::held_in(*shared).contains(value@)
                }
        } else {
            change == Change::Ignored
        },
{
    match reload(delivered, load) {
        Reload::Ignore => Change::Ignored,
        Reload::Store(value) => {
            shared.store(Arc::new(value));
            Change::Reloaded
        },
        Reload::Keep(error) => Change::Kept(error),
    }
}

/// A change puts a value that loads in place of the one in use, whole, and otherwise
/// leaves the one in use whole.
pub proof fn a_change_replaces_the_whole_or_nothing<T>(
    in_use: T,
    delivered: bool,
    loaded: Result<T, WeirError>,
)
    ensures
        delivered ==> (loaded matches Ok(value) ==> in_use_after(
            in_use,
            action_on(delivered, loaded),
        ) == value),
        !delivered || loaded is Err ==> in_use_after(in_use, action_on(delivered, loaded))
            == in_use,
{
}

/// After a sound change of a file that can be read and parsed, the configuration in
/// use holds the budgets and the policies that the file holds, and nothing of the
/// one before. After any other change it is the one before.
pub proof fn a_reload_puts_in_use_what_is_written(
    in_use: ParsedConfig,
    delivered: bool,
    document: Result<RawConfig, String>,
    loaded: Result<ParsedConfig, WeirError>,
)
    requires
        parsed_from(document, loaded),
    ensures
        delivered ==> (document matches Ok(raw) ==> in_use_after(
            in_use,
            action_on(delivered, loaded),
        )@ == (limits_in(raw.tenants@), policies_in(raw.tenants@))),
        !delivered || document is Err ==> in_use_after(in_use, action_on(delivered, loaded))
            == in_use,
{
}

/// A configuration gives every tenant both a budget and a policy, and no tenant
/// that is not written.
pub proof fn every_tenant_has_a_budget_and_a_policy(tenants: Seq<(String, RawTenantLimit)>)
    ensures
        limits_in(tenants).dom() == policies_in(tenants).dom(),
        forall|id: Seq<char>| #[trigger]
            limits_in(tenants).contains_key(id) <==> exists|i: int|
                0 <= i < tenants.len() && (#[trigger] tenants[i]).0@ == id,
    decreases tenants.len(),
{
    if tenants.len() > 0 {
        let front = tenants.drop_last();
        every_tenant_has_a_budget_and_a_policy(front);
        assert forall|id: Seq<char>| #[trigger] limits_in(tenants).contains_key(id) implies exists|
            i: int,
        |
            0 <= i < tenants.len() && (#[trigger] tenants[i]).0@ == id by {
            if limits_in(front).contains_key(id) {
                let i = choose|i: int| 0 <= i < front.len() && (#[trigger] front[i]).0@ == id;
                assert(tenants[i].0@ == id);
            } else {
                assert(tenants[tenants.len() - 1].0@ == id);
            }
        }
        assert forall|id: Seq<char>|
            exists|i: int| 0 <= i < tenants.len() && (#[trigger] tenants[i]).0@ == id implies
        #[trigger] limits_in(tenants).contains_key(id) by {
            let i = choose|i: int| 0 <= i < tenants.len() && (#[trigger] tenants[i]).0@ == id;
            if i < front.len() {
                assert(front[i].0@ == id);
            }
        }
    }
}

/// Where no name is repeated, each tenant gets what is written of it.
pub proof fn each_tenant_gets_what_is_written(tenants: Seq<(String, RawTenantLimit)>, i: int)
    requires
        0 <= i < tenants.len(),
        forall|j: int, k: int|
            0 <= j < k < tenants.len() ==> (#[trigger] tenants[j]).0@ != (#[trigger] tenants[k]).0@,
    ensures
        limits_in(tenants).contains_key(tenants[i].0@),
        limits_in(tenants)[tenants[i].0@] == tenants[i].1.limit(),
        policies_in(tenants).contains_key(tenants[i].0@),
        policies_in(tenants)[tenants[i].0@] == tenants[i].1.policy(),
    decreases tenants.len(),
{
    let front = tenants.drop_last();
    if i < front.len() {
        assert forall|j: int, k: int| 0 <= j < k < front.len() implies (#[trigger] front[j]).0@ != (
        #[trigger] front[k]).0@ by {
            assert(tenants[j].0@ != tenants[k].0@);
        }
        each_tenant_gets_what_is_written(front, i);
        assert(tenants[i].0@ != tenants[tenants.len() - 1].0@);
    }
}

/// What is written last of a name.
proof fn lemma_last_word(tenants: Seq<(String, RawTenantLimit)>, i: int)
    requires
        0 <= i < tenants.len(),
        forall|j: int| i < j < tenants.len() ==> (#[trigger] tenants[j]).0@ != tenants[i].0@,
    ensures
        limits_in(tenants).contains_key(tenants[i].0@),
        limits_in(tenants)[tenants[i].0@] == tenants[i].1.limit(),
        policies_in(tenants).contains_key(tenants[i].0@),
        policies_in(tenants)[tenants[i].0@] == tenants[i].1.policy(),
    decreases tenants.len(),
{
    let front = tenants.drop_last();
    if i < front.len() {
        assert forall|j: int| i < j < front.len() implies (#[trigger] front[j]).0@
            != front[i].0@ by {
            assert(tenants[j].0@ != tenants[i].0@);
        }
        lemma_last_word(front, i);
        assert(tenants[tenants.len() - 1].0@ != tenants[i].0@);
    }
}

/// A document that can be read always gives a configuration, and in it every tenant
/// has the number of tokens, the seconds and the blocked models and tools that are
/// written of it, the last time it is written; and no tenant is in it that is not
/// written.
pub proof fn a_document_gives_each_tenant_its_numbers(
    raw: RawConfig,
    parsed: Result<ParsedConfig, WeirError>,
    i: int,
)
    requires
        parsed_from(Ok(raw), parsed),
    ensures
        parsed is Ok,
        0 <= i < raw.tenants@.len() && (forall|j: int|
            i < j < raw.tenants@.len() ==> (#[trigger] raw.tenants@[j]).0@
                != raw.tenants@[i].0@) ==> {
            let (name, written) = raw.tenants@[i];
            let config = parsed->Ok_0;
            &&& config.limits@.contains_key(name@)
            &&& config.limits@[name@].max_tokens == written.max_tokens
            &&& config.limits@[name@].window.as_nanos() == written.window_seconds * 1_000_000_000
            &&& config.policies@.contains_key(name@)
            &&& config.policies@[name@].blocked_models == written.policy.blocked_models
            &&& config.policies@[name@].blocked_tools == written.policy.blocked_tools
        },
        forall|id: Seq<char>|
            ({
                ||| #[trigger] parsed->Ok_0.limits@.contains_key(id)
                ||| parsed->Ok_0.policies@.contains_key(id)
            }) ==> exists|k: int|
                0 <= k < raw.tenants@.len() && (#[trigger] raw.tenants@[k]).0@ == id,
{
    let tenants = raw.tenants@;
    every_tenant_has_a_budget_and_a_policy(tenants);
    if 0 <= i < tenants.len() && (forall|j: int|
        i < j < tenants.len() ==> (#[trigger] tenants[j]).0@ != tenants[i].0@) {
        lemma_last_word(tenants, i);
        the_units_are_those_of_the_clock(
            tenants[i].1.window_seconds,
            limits_in(tenants)[tenants[i].0@].window,
        );
    }
    assert forall|id: Seq<char>|
        ({
            ||| #[trigger] parsed->Ok_0.limits@.contains_key(id)
            ||| parsed->Ok_0.policies@.contains_key(id)
        }) implies exists|k: int|
        0 <= k < tenants.len() && (#[trigger] tenants[k]).0@ == id by {
        assert(limits_in(tenants).dom().contains(id) == policies_in(tenants).dom().contains(id));
        assert(limits_in(tenants).contains_key(id));
    }
}

/// A document that cannot be read gives the configuration error with its cause.
pub proof fn a_document_that_cannot_be_read_gives_its_cause(
    cause: String,
    parsed: Result<ParsedConfig, WeirError>,
)
    requires
        parsed_from(Err(cause), parsed),
    ensures
        parsed matches Err(WeirError::Config(text)) && text == cause,
{
}

/// The error for a file that cannot be read names the file and says why.
pub proof fn an_unreadable_file_is_named_with_the_cause(
    path: Seq<char>,
    cause: Seq<char>,
    error: WeirError,
)
    requires
        unreadable(path, cause, error),
    ensures
        error matches WeirError::Config(text) && text@ == "reading "@ + path + ": "@ + cause,
{
}

/// A change is reported for what it is: ignored if and only if its notification is not
/// sound, and otherwise a reload where loading succeeds, and the error where it fails.
pub proof fn a_change_is_reported_for_what_it_is<T>(
    delivered: bool,
    loaded: Result<T, WeirError>,
)
    ensures
        ({
            let change = change_by(action_on(delivered, loaded));
            &&& change is Ignored <==> !delivered
            &&& change is Reloaded <==> delivered && loaded is Ok
            &&& delivered && loaded is Err ==> change == Change::Kept(loaded->Err_0)
        }),
        action_on(true, loaded) == reload_of(loaded),
{
}

} // verus!
