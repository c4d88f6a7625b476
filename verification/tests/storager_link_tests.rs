use ads_search::storager_link::{
    endpoint_setting_names, endpoint_settings, loopback_fallback_addr, uses_heavy_profile, EndpointSettings,
};
use ads_search::types::AdsMode;

#[test]
fn loopback_addresses_switch_family() {
    assert_eq!(loopback_fallback_addr("http://127.0.0.1:50051"), Some("http://[::1]:50051".to_string()));
    assert_eq!(loopback_fallback_addr("http://[::1]:50051"), Some("http://127.0.0.1:50051".to_string()));
    assert_eq!(loopback_fallback_addr("http://10.0.0.7:50051"), None);
    assert_eq!(
        loopback_fallback_addr("127.0.0.1/127.0.0.1"),
        Some("[::1]/[::1]".to_string())
    );
    assert_eq!(loopback_fallback_addr(""), None);
}

#[test]
fn slow_ads_kinds_get_the_long_profile() {
    assert!(uses_heavy_profile(AdsMode::Mpt));
    assert!(uses_heavy_profile(AdsMode::AccTree));
    assert!(uses_heavy_profile(AdsMode::AccTrie));
    assert!(!uses_heavy_profile(AdsMode::Mest));
    assert_eq!(endpoint_setting_names(true)[0], "MANAGER_HEAVY_STORAGER_RPC_TIMEOUT_SECS");
    assert_eq!(endpoint_setting_names(false)[4], "MANAGER_STORAGER_KEEPALIVE_TIMEOUT_SECS");
}

#[test]
fn endpoint_defaults_and_overrides() {
    assert_eq!(
        endpoint_settings(AdsMode::Mest, None, None, None, None, None),
        EndpointSettings {
            request_timeout_secs: 600,
            connect_timeout_secs: 30,
            tcp_keepalive_secs: 120,
            http2_keepalive_interval_secs: Some(60),
            keep_alive_timeout_secs: Some(120),
            concurrency_limit: 256,
        }
    );
    assert_eq!(
        endpoint_settings(AdsMode::Mpt, Some("90"), Some("0"), Some("x"), None, Some("7")),
        EndpointSettings {
            request_timeout_secs: 90,
            connect_timeout_secs: 30,
            tcp_keepalive_secs: 300,
            http2_keepalive_interval_secs: Some(120),
            keep_alive_timeout_secs: Some(7),
            concurrency_limit: 256,
        }
    );
    let off = endpoint_settings(AdsMode::AccTrie, None, None, None, Some("0"), Some("9"));
    assert_eq!(off.http2_keepalive_interval_secs, None);
    assert_eq!(off.keep_alive_timeout_secs, None);
    let bad = endpoint_settings(AdsMode::Mest, None, None, None, Some("15"), Some("nope"));
    assert_eq!(bad.http2_keepalive_interval_secs, Some(15));
    assert_eq!(bad.keep_alive_timeout_secs, None);
}
