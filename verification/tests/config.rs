use std::sync::Arc;
use weir::budget::BudgetRegistry;
use weir::config::{
    interpret, load_from_file, load_shared, on_change, parse, reload, BudgetLimit, Change,
    ParsedConfig, PolicyConfig, RawConfig, RawPolicy, RawTenantLimit, Reload, TenantLimits,
};
use weir::error::WeirError;
use weir::shared::share;
use weir::window::Window;

/// Takes the text of a configuration apart.
fn read(contents: &str) -> Result<RawConfig, String> {
    let document = contents.parse::<toml::Table>().map_err(|e| e.to_string())?;
    let tenants = document
        .get("tenants")
        .and_then(|tenants| tenants.as_table())
        .ok_or("missing field `tenants`")?;
    let mut raw = RawConfig { tenants: Vec::new() };
    for (id, tenant) in tenants {
        let number = |name: &str| {
            tenant
                .get(name)
                .and_then(|value| value.as_integer())
                .and_then(|value| u64::try_from(value).ok())
                .ok_or(format!("missing field `{name}`"))
        };
        let names = |name: &str| -> Vec<String> {
            tenant
                .get("policy")
                .and_then(|policy| policy.get(name))
                .and_then(|names| names.as_array())
                .map(|names| {
                    names.iter().filter_map(|name| name.as_str()).map(str::to_string).collect()
                })
                .unwrap_or_default()
        };
        raw.tenants.push((
            id.clone(),
            RawTenantLimit {
                max_tokens: number("max_tokens")?,
                window_seconds: number("window_seconds")?,
                policy: RawPolicy {
                    blocked_models: names("blocked_models"),
                    blocked_tools: names("blocked_tools"),
                },
            },
        ));
    }
    Ok(raw)
}

fn tenant(id: &str, max_tokens: u64, window_seconds: u64) -> (String, RawTenantLimit) {
    let policy = RawPolicy { blocked_models: Vec::new(), blocked_tools: vec![format!("of {id}")] };
    (id.to_string(), RawTenantLimit { max_tokens, window_seconds, policy })
}

#[test]
fn parses_tenant_limits() {
    let toml = r#"
            [tenants.acct_123]
            max_tokens = 50000
            window_seconds = 60
        "#;
    let parsed = parse(toml, read).unwrap();
    let limit = parsed.limits.get("acct_123").unwrap();
    assert_eq!(limit.max_tokens, 50_000);
    assert_eq!(limit.window, Window::from_secs(60));
}

#[test]
fn rejects_malformed_toml() {
    let result = parse("not valid toml {{{", read);
    assert!(matches!(result, Err(WeirError::Config(_))));
}

#[test]
fn parses_tenant_policy() {
    let toml = r#"
            [tenants.acct_123]
            max_tokens = 50000
            window_seconds = 60

            [tenants.acct_123.policy]
            blocked_models = ["gpt-3.5-turbo"]
            blocked_tools = ["send_email"]
        "#;
    let parsed = parse(toml, read).unwrap();
    let policy = parsed.policies.get("acct_123").unwrap();
    assert_eq!(policy.blocked_models, vec!["gpt-3.5-turbo".to_string()]);
    assert_eq!(policy.blocked_tools, vec!["send_email".to_string()]);
}

#[test]
fn tenant_without_policy_block_gets_empty_policy() {
    let toml = r#"
            [tenants.acct_123]
            max_tokens = 50000
            window_seconds = 60
        "#;
    let parsed = parse(toml, read).unwrap();
    let policy = parsed.policies.get("acct_123").unwrap();
    assert!(policy.blocked_models.is_empty());
    assert!(policy.blocked_tools.is_empty());
}

#[test]
fn every_tenant_gets_what_is_written() {
    let raw = RawConfig { tenants: vec![tenant("a", 1, 10), tenant("b", 2, 20)] };
    let parsed = interpret(Ok(raw)).unwrap();
    assert_eq!(parsed.limits.get("a").unwrap().max_tokens, 1);
    assert_eq!(parsed.limits.get("a").unwrap().window, Window::from_secs(10));
    assert_eq!(parsed.limits.get("b").unwrap().max_tokens, 2);
    assert_eq!(parsed.policies.get("b").unwrap().blocked_tools, vec!["of b".to_string()]);
    assert!(parsed.limits.get("c").is_none());
    assert!(parsed.policies.get("c").is_none());
}

#[test]
fn the_last_word_on_a_tenant_counts() {
    let raw = RawConfig { tenants: vec![tenant("a", 1, 10), tenant("a", 2, 20)] };
    let parsed = interpret(Ok(raw)).unwrap();
    assert_eq!(parsed.limits.get("a").unwrap().max_tokens, 2);
    assert_eq!(parsed.limits.get("a").unwrap().window, Window::from_secs(20));
}

#[test]
fn a_document_that_cannot_be_read_is_a_configuration_error() {
    let Err(WeirError::Config(cause)) = interpret(Err("no tenants".to_string())) else {
        panic!("a document that cannot be read");
    };
    assert_eq!(cause, "no tenants");
}

#[test]
fn a_file_that_cannot_be_read_is_a_configuration_error() {
    let loaded = load_from_file("/etc/weir.toml", Err("permission denied".to_string()), read);
    let Err(WeirError::Config(cause)) = loaded else {
        panic!("a file that cannot be read");
    };
    assert_eq!(cause, "reading /etc/weir.toml: permission denied");
}

#[test]
fn a_file_that_can_be_read_is_parsed() {
    let contents = "[tenants.a]\nmax_tokens = 3\nwindow_seconds = 4\n".to_string();
    let parsed = load_from_file("/etc/weir.toml", Ok(contents), read).unwrap();
    assert_eq!(parsed.limits.get("a").unwrap().max_tokens, 3);
    let parsed = load_from_file("/etc/weir.toml", Ok("tenants".to_string()), read);
    assert!(matches!(parsed, Err(WeirError::Config(_))));
}

#[test]
fn defaults_are_empty() {
    let policy = PolicyConfig::default();
    assert!(policy.blocked_models.is_empty() && policy.blocked_tools.is_empty());
    let config = ParsedConfig::default();
    assert!(config.limits.get("acct_1").is_none());
    assert!(config.policies.get("acct_1").is_none());
}

#[test]
fn what_is_loaded_is_shared_and_what_is_not_is_an_error() {
    assert!(load_shared(interpret(Ok(RawConfig { tenants: vec![tenant("a", 1, 10)] }))).is_ok());
    let shared = load_shared(Err(WeirError::Config("no tenants".to_string())));
    let Err(WeirError::Config(cause)) = shared else {
        panic!("a configuration that was not loaded");
    };
    assert_eq!(cause, "no tenants");
}

#[test]
fn a_change_is_loaded_only_if_it_is_sound() {
    assert!(matches!(reload(true, || Ok(5)), Reload::Store(5)));
    assert!(matches!(reload(true, || Err::<u8, _>(WeirError::UnknownTenant)), Reload::Keep(_)));
    let unsound = reload(false, || -> Result<u8, WeirError> { panic!("nothing is loaded") });
    assert!(matches!(unsound, Reload::Ignore));
}

#[test]
fn a_change_replaces_the_value_in_use_only_if_it_loads() {
    let limits = |max_tokens: u64| {
        let mut limits = TenantLimits::new();
        limits.insert(
            "acct_1".to_string(),
            BudgetLimit { max_tokens, window: Window::from_secs(60) },
        );
        limits
    };
    let shared = share(limits(100));
    let mut registry = BudgetRegistry::new(shared.clone());
    assert!(registry.record("acct_1", 100, 0).unwrap().unwrap());

    let kept = on_change(&shared, true, || Err(WeirError::Config("half written".to_string())));
    let Change::Kept(WeirError::Config(cause)) = kept else {
        panic!("a change that does not load");
    };
    assert_eq!(cause, "half written");
    assert!(!registry.is_within_budget("acct_1", 0).unwrap().unwrap());

    assert!(matches!(on_change(&shared, false, || Ok(limits(999))), Change::Ignored));
    assert!(!registry.is_within_budget("acct_1", 0).unwrap().unwrap());

    assert!(matches!(on_change(&shared, true, || Ok(limits(999))), Change::Reloaded));
    assert!(registry.is_within_budget("acct_1", 0).unwrap().unwrap());
}

#[test]
fn a_reloaded_configuration_is_the_one_that_is_read() {
    let load = |max_tokens: u64, blocked: &str| {
        let contents = format!(
            "[tenants.acct_1]\nmax_tokens = {max_tokens}\nwindow_seconds = 60\n\
             [tenants.acct_1.policy]\nblocked_tools = [\"{blocked}\"]\n"
        );
        load_from_file("/etc/weir.toml", Ok(contents), read)
    };
    let shared = load_shared(load(100, "send_email")).unwrap();
    assert_eq!(shared.load().limits.get("acct_1").unwrap().max_tokens, 100);

    // A change that cannot be read, and one that cannot be parsed.
    let gone = || load_from_file("/etc/weir.toml", Err("gone".to_string()), read);
    assert!(matches!(on_change(&shared, true, gone), Change::Kept(_)));
    let torn = || load_from_file("/etc/weir.toml", Ok("[tenants".to_string()), read);
    assert!(matches!(on_change(&shared, true, torn), Change::Kept(_)));
    assert!(matches!(on_change(&shared, false, || load(5, "a")), Change::Ignored));
    assert_eq!(shared.load().limits.get("acct_1").unwrap().max_tokens, 100);

    let before = shared.load();
    assert!(matches!(on_change(&shared, true, || load(999, "get_weather")), Change::Reloaded));
    let after = shared.load();
    assert_eq!(after.limits.get("acct_1").unwrap().max_tokens, 999);
    assert_eq!(after.policies.get("acct_1").unwrap().blocked_tools, vec!["get_weather"]);
    // Who has read the old one keeps it whole.
    assert_eq!(before.limits.get("acct_1").unwrap().max_tokens, 100);
    assert_eq!(before.policies.get("acct_1").unwrap().blocked_tools, vec!["send_email"]);
}

#[test]
fn a_cell_gives_back_what_is_stored() {
    let shared = share(ParsedConfig::default());
    assert!(shared.load().limits.get("a").is_none());
    let raw = RawConfig { tenants: vec![tenant("a", 1, 10)] };
    shared.store(Arc::new(interpret(Ok(raw)).unwrap()));
    assert_eq!(shared.load().limits.get("a").unwrap().max_tokens, 1);
}
