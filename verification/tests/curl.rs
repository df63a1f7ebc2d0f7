use blockcheckw::network::curl::{interpret_curl_result, CurlVerdict};

#[test]
fn curl_success_means_available() {
    assert!(matches!(interpret_curl_result(0, "ignored"), CurlVerdict::Available));
}

#[test]
fn curl_failure_names_exit_code_and_complaint() {
    match interpret_curl_result(28, "  curl: (28) Operation timed out after 1001 milliseconds\n") {
        CurlVerdict::Unavailable { detail } => {
            assert_eq!(detail, "curl exit code 28: curl: (28) Operation timed out after 1001 milliseconds")
        }
        other => panic!("unexpected {:?}", other),
    }
}

#[test]
fn curl_killed_reports_negative_code() {
    match interpret_curl_result(-1, "") {
        CurlVerdict::Unavailable { detail } => assert_eq!(detail, "curl exit code -1: "),
        other => panic!("unexpected {:?}", other),
    }
    match interpret_curl_result(i32::MIN, "x") {
        CurlVerdict::Unavailable { detail } => assert_eq!(detail, "curl exit code -2147483648: x"),
        other => panic!("unexpected {:?}", other),
    }
}
