use profile_timer::mihomo::{patch_result, MihomoManager, DEFAULT_TEST_URL};

fn manager() -> MihomoManager {
    MihomoManager::new("http://127.0.0.1:9097".to_string())
}

#[test]
fn server_is_kept() {
    assert_eq!(manager().get_mihomo_server(), "http://127.0.0.1:9097");
}

#[test]
fn endpoint_addresses() {
    let m = manager();
    assert_eq!(m.proxies_url(), "http://127.0.0.1:9097/proxies");
    assert_eq!(m.providers_proxies_url(), "http://127.0.0.1:9097/providers/proxies");
    assert_eq!(m.configs_url(true), "http://127.0.0.1:9097/configs?force=true");
    assert_eq!(m.configs_url(false), "http://127.0.0.1:9097/configs");
}

#[test]
fn delay_address_with_default_target() {
    assert_eq!(
        manager().proxy_delay_url("HK-01", None, 5000),
        format!("http://127.0.0.1:9097/proxies/HK-01/delay?url={}&timeout=5000", DEFAULT_TEST_URL)
    );
}

#[test]
fn delay_address_with_given_target_and_negative_timeout() {
    assert_eq!(
        manager().proxy_delay_url("JP", Some("http://example.com".to_string()), -12),
        "http://127.0.0.1:9097/proxies/JP/delay?url=http://example.com&timeout=-12"
    );
}

#[test]
fn patch_result_by_code() {
    assert_eq!(patch_result(Some(204), None), Ok(()));
    assert_eq!(patch_result(Some(400), Some("bad config".to_string())), Err("bad config".to_string()));
    assert_eq!(patch_result(None, None), Err("unknown error".to_string()));
}
