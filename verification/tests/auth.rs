use model_gateway::auth::{hash_key, Access, AuthConfig};
use model_gateway::config::{validate_tenant_credentials, ConfigError, TenantApiKeyEntry};
use model_gateway::tenant::{
    authenticated_tenant_key_from_sha256, DataPlaneCaller, TenantIdentity,
};

fn entry(tenant_id: &str, key: &str) -> TenantApiKeyEntry {
    TenantApiKeyEntry { tenant_id: tenant_id.to_string(), key: key.to_string() }
}

fn tenant(access: Access) -> String {
    match access {
        Access::Granted(tenant) => tenant.as_str().to_string(),
        Access::Open => "missing".to_string(),
        Access::Denied => panic!("the request was rejected"),
    }
}

#[test]
fn no_key_configured_allows_any_request() {
    let config = AuthConfig::new(None);
    assert!(!config.is_enabled());
    assert_eq!(config.authorize(None), Access::Open);
    assert_eq!(config.authorize(Some("Bearer anything")), Access::Open);
}

#[test]
fn shared_key_resolves_to_hash_derived_tenant() {
    let config = AuthConfig::new(Some("shared-secret".to_string()));
    let expected = authenticated_tenant_key_from_sha256(hash_key("shared-secret"));
    assert_eq!(tenant(config.authorize(Some("Bearer shared-secret"))), expected.as_str());
}

#[test]
fn tenant_key_resolves_to_explicit_tenant_id() {
    let config =
        AuthConfig::with_tenant_keys(None, &[entry("team-red", "team-red-secret")]).unwrap();
    assert_eq!(tenant(config.authorize(Some("Bearer team-red-secret"))), "auth:team-red");
}

#[test]
fn distinct_tenant_keys_resolve_to_distinct_tenants() {
    let config = AuthConfig::with_tenant_keys(
        None,
        &[entry("team-red", "red-secret"), entry("team-blue", "blue-secret")],
    )
    .unwrap();
    for (key, expected) in [("red-secret", "auth:team-red"), ("blue-secret", "auth:team-blue")] {
        let header = format!("Bearer {key}");
        assert_eq!(tenant(config.clone().authorize(Some(&header))), expected);
    }
}

#[test]
fn unknown_token_is_rejected() {
    let config =
        AuthConfig::with_tenant_keys(None, &[entry("team-red", "team-red-secret")]).unwrap();
    assert_eq!(config.authorize(Some("Bearer not-a-configured-key")), Access::Denied);
}

#[test]
fn missing_header_is_rejected_when_keys_configured() {
    let config = AuthConfig::new(Some("shared-secret".to_string()));
    assert!(config.is_enabled());
    assert_eq!(config.authorize(None), Access::Denied);
}

#[test]
fn contains_token_recognizes_shared_and_tenant_keys() {
    let auth_config = AuthConfig::with_tenant_keys(
        Some("shared-secret".to_string()),
        &[TenantApiKeyEntry {
            tenant_id: "team-red".to_string(),
            key: "team-red-secret".to_string(),
        }],
    )
    .unwrap();

    assert!(auth_config.contains_token("shared-secret"));
    assert!(auth_config.contains_token("team-red-secret"));
    assert!(!auth_config.contains_token("not-a-configured-key"));
}

#[test]
fn with_tenant_keys_rejects_empty_key_even_with_no_router_config_involved() {
    let result = AuthConfig::with_tenant_keys(
        None,
        &[TenantApiKeyEntry { tenant_id: "team-a".to_string(), key: String::new() }],
    );

    assert!(result.is_err(), "an empty key must not silently become a valid credential");
}

#[test]
fn with_tenant_keys_rejects_duplicate_credential_even_with_no_router_config_involved() {
    let result = AuthConfig::with_tenant_keys(
        None,
        &[
            TenantApiKeyEntry {
                tenant_id: "team-a".to_string(),
                key: "shared-secret".to_string(),
            },
            TenantApiKeyEntry {
                tenant_id: "team-b".to_string(),
                key: "shared-secret".to_string(),
            },
        ],
    );

    assert!(
        result.is_err(),
        "two entries sharing a credential must not silently collapse to one identity"
    );
}

#[test]
fn header_without_the_bearer_prefix_is_rejected() {
    let config = AuthConfig::new(Some("shared-secret".to_string()));
    assert_eq!(config.authorize(Some("shared-secret")), Access::Denied);
    assert_eq!(config.authorize(Some("bearer shared-secret")), Access::Denied);
    assert_eq!(config.authorize(Some("Bearer  shared-secret")), Access::Denied);
    assert_eq!(config.authorize(Some("Bearer ")), Access::Denied);
    assert_eq!(config.authorize(Some("Bearer")), Access::Denied);
}

#[test]
fn shared_key_and_tenant_keys_keep_their_own_identities() {
    let config = AuthConfig::with_tenant_keys(
        Some("shared-secret".to_string()),
        &[entry("team-red", "red-secret")],
    )
    .unwrap();
    assert_eq!(tenant(config.authorize(Some("Bearer red-secret"))), "auth:team-red");
    assert_eq!(
        tenant(config.authorize(Some("Bearer shared-secret"))),
        authenticated_tenant_key_from_sha256(hash_key("shared-secret")).as_str()
    );
    assert_eq!(config.authorize(Some("Bearer other")), Access::Denied);
}

#[test]
fn one_tenant_may_have_several_keys() {
    let config = AuthConfig::with_tenant_keys(
        None,
        &[entry("team-red", "old-secret"), entry("team-red", "new-secret")],
    )
    .unwrap();
    assert_eq!(tenant(config.authorize(Some("Bearer old-secret"))), "auth:team-red");
    assert_eq!(tenant(config.authorize(Some("Bearer new-secret"))), "auth:team-red");
}

#[test]
fn refusals_name_the_first_entry_at_fault() {
    let empty = [entry("a", "x"), entry("b", ""), entry("c", "x")];
    assert_eq!(
        validate_tenant_credentials(None, &empty),
        Err(ConfigError::EmptyTenantKey(1))
    );
    let twice = [entry("a", "x"), entry("b", "y"), entry("c", "x")];
    assert_eq!(
        validate_tenant_credentials(None, &twice),
        Err(ConfigError::DuplicateTenantKey(2))
    );
    let shared = [entry("a", "x"), entry("b", "y")];
    assert_eq!(
        validate_tenant_credentials(Some("y"), &shared),
        Err(ConfigError::DuplicateTenantKey(1))
    );
    assert_eq!(validate_tenant_credentials(Some("z"), &shared), Ok(()));
    assert_eq!(validate_tenant_credentials(Some(""), &[]), Ok(()));
}

#[test]
fn with_tenant_keys_reports_why_it_refuses() {
    let empty = AuthConfig::with_tenant_keys(None, &[entry("a", "")]);
    assert!(matches!(empty, Err(ConfigError::EmptyTenantKey(0))));
    let shared = AuthConfig::with_tenant_keys(Some("k".to_string()), &[entry("a", "k")]);
    assert!(matches!(shared, Err(ConfigError::DuplicateTenantKey(0))));
}

#[test]
fn hash_key_is_sha256() {
    let digits: String = hash_key("abc").iter().map(|b| format!("{b:02x}")).collect();
    assert_eq!(digits, "ba7816bf8f01cfea414140de5dae2223b00361a396177a9cb410ff61f20015ad");
    let digits: String = hash_key("").iter().map(|b| format!("{b:02x}")).collect();
    assert_eq!(digits, "e3b0c44298fc1c149afbf4c8996fb92427ae41e4649b934ca495991b7852b855");
}

#[test]
fn hash_derived_tenant_is_the_hash_in_hexadecimal() {
    assert_eq!(
        authenticated_tenant_key_from_sha256(hash_key("abc")).as_str(),
        "auth:ba7816bf8f01cfea414140de5dae2223b00361a396177a9cb410ff61f20015ad"
    );
}

#[test]
fn authorization_by_hash() {
    let config = AuthConfig::with_tenant_keys(None, &[entry("team-red", "red")]).unwrap();
    assert_eq!(tenant(config.authorize_hash(Some(hash_key("red")))), "auth:team-red");
    assert_eq!(config.authorize_hash(Some([0; 32])), Access::Denied);
    assert_eq!(config.authorize_hash(None), Access::Denied);
    assert_eq!(AuthConfig::new(None).authorize_hash(None), Access::Open);
    assert!(config.tenant_of(&hash_key("red")).is_some());
    assert!(config.tenant_of(&hash_key("blue")).is_none());
}

#[test]
fn caller_acts_for_its_tenant() {
    let key = TenantIdentity::Authenticated("team-red".to_string()).into_key();
    let caller = DataPlaneCaller::new(key.clone());
    assert_eq!(caller.tenant_key().as_str(), "auth:team-red");
    assert_eq!(caller.clone().tenant_key(), &key);
}
