use blockcheckw::config::{detect_nfqws2_path, CoreConfig, Protocol, DESYNC_MARK, PORTS_PER_WORKER};

#[test]
fn protocol_ports_and_names() {
    assert_eq!(Protocol::Http.port(), 80);
    assert_eq!(Protocol::HttpsTls12.port(), 443);
    assert_eq!(Protocol::HttpsTls13.port(), 443);
    assert_eq!(Protocol::Http.test_func_name(), "curl_test_http");
    assert_eq!(Protocol::HttpsTls12.test_func_name(), "curl_test_https_tls12");
    assert_eq!(Protocol::HttpsTls13.test_func_name(), "curl_test_https_tls13");
    assert_eq!(Protocol::Http.display_name(), "HTTP");
    assert_eq!(Protocol::HttpsTls12.display_name(), "HTTPS/TLS1.2");
    assert_eq!(Protocol::HttpsTls13.display_name(), "HTTPS/TLS1.3");
}

#[test]
fn nfqws2_path_by_architecture() {
    assert_eq!(
        detect_nfqws2_path("/opt/zapret2", "aarch64"),
        "/opt/zapret2/binaries/linux-arm64/nfqws2"
    );
    assert_eq!(
        detect_nfqws2_path("/opt/zapret2", "arm"),
        "/opt/zapret2/binaries/linux-arm64/nfqws2"
    );
    assert_eq!(
        detect_nfqws2_path("/z", "x86_64"),
        "/z/binaries/linux-x86_64/nfqws2"
    );
    assert_eq!(
        detect_nfqws2_path("/z", "arm64"),
        "/z/binaries/linux-x86_64/nfqws2"
    );
}

#[test]
fn default_config() {
    let c = CoreConfig::default_for_arch("x86_64");
    assert_eq!(c.worker_count, 8);
    assert_eq!(c.base_qnum, 200);
    assert_eq!(c.base_local_port, 30000);
    assert_eq!(c.nft_table, "zapret");
    assert_eq!(c.nfqws2_path, "/opt/zapret2/binaries/linux-x86_64/nfqws2");
    assert_eq!(c.curl_max_time, "1");
    assert_eq!(c.zapret_base, "/opt/zapret2");
    let c = c.with_worker_count(64);
    assert_eq!(c.worker_count, 64);
    assert_eq!(c.base_qnum, 200);
}

#[test]
fn constants() {
    assert_eq!(PORTS_PER_WORKER, 10);
    assert_eq!(DESYNC_MARK, 0x10000000);
}
