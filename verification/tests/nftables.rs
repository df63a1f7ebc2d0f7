use blockcheckw::error::BlockcheckError;
use blockcheckw::firewall::nftables::{
    add_chain_args, add_table_args, add_worker_rule_args, drop_table_args, nft_command,
    nft_outcome, parse_handle, remove_rule_args, RuleHandle,
};

#[test]
fn test_parse_handle() {
    let output = "add rule inet zapret postnat meta nfproto ipv4 tcp sport 30000-30009 tcp dport 80 mark and 0x10000000 == 0 ip daddr { 1.2.3.4 } ct mark set ct mark or 0x10000000 queue num 200 # handle 42\n";
    let handle = parse_handle(output).unwrap();
    assert_eq!(handle.0, 42);
}

#[test]
fn test_parse_handle_missing() {
    let output = "some other output\n";
    assert!(parse_handle(output).is_err());
}

#[test]
fn test_parse_handle_multiline() {
    let output = "table inet zapret {\n}\nadd rule ... # handle 137\n";
    let handle = parse_handle(output).unwrap();
    assert_eq!(handle.0, 137);
}

#[test]
fn parse_handle_error_keeps_output() {
    match parse_handle("no handle here") {
        Err(BlockcheckError::NftHandleParse { output }) => assert_eq!(output, "no handle here"),
        other => panic!("unexpected {:?}", other),
    }
}

#[test]
fn parse_handle_skips_lines_without_a_number() {
    let output = "x # handle abc\ny # handle 7 \r\nz # handle 9\n";
    assert_eq!(parse_handle(output).unwrap().0, 7);
}

#[test]
fn parse_handle_reads_only_after_first_marker() {
    // The text after the first marker is "1 # handle 2", which is not a number.
    assert!(parse_handle("# handle 1 # handle 2").is_err());
}

#[test]
fn parse_handle_accepts_plus_and_rejects_overflow() {
    assert_eq!(parse_handle("# handle +5").unwrap().0, 5);
    assert_eq!(parse_handle("# handle 4294967295").unwrap().0, 4294967295);
    assert!(parse_handle("# handle 4294967296").is_err());
    assert!(parse_handle("# handle -1").is_err());
    assert!(parse_handle("# handle ").is_err());
    assert!(parse_handle("").is_err());
}

#[test]
fn parse_handle_trims_unicode_blanks() {
    assert_eq!(parse_handle("# handle \u{3000}12\u{a0}").unwrap().0, 12);
}

#[test]
fn worker_rule_arguments() {
    let ips = vec!["1.2.3.4".to_string(), "5.6.7.8".to_string()];
    let args = add_worker_rule_args("zapret", "30000-30009", 80, 200, &ips);
    let expected = vec![
        "--echo", "--handle", "add", "rule", "inet", "zapret", "postnat", "meta", "nfproto",
        "ipv4", "tcp", "sport", "30000-30009", "tcp", "dport", "80", "mark", "and",
        "0x10000000", "==", "0", "ip", "daddr", "{ 1.2.3.4, 5.6.7.8 }", "ct", "mark", "set",
        "ct", "mark", "or", "0x10000000", "queue", "num", "200",
    ];
    assert_eq!(args, expected);
}

#[test]
fn table_and_rule_commands() {
    assert_eq!(add_table_args("zapret"), vec!["add", "table", "inet", "zapret"]);
    assert_eq!(
        add_chain_args("zapret"),
        vec![
            "add", "chain", "inet", "zapret", "postnat",
            "{ type filter hook postrouting priority 102; }",
        ]
    );
    assert_eq!(
        remove_rule_args("zapret", RuleHandle(42)),
        vec!["delete", "rule", "inet", "zapret", "postnat", "handle", "42"]
    );
    assert_eq!(drop_table_args("t"), vec!["delete", "table", "inet", "t"]);
    let args = vec!["list".to_string(), "ruleset".to_string()];
    assert_eq!(nft_command(&args), vec!["nft", "list", "ruleset"]);
}

#[test]
fn nft_outcome_by_exit_code() {
    let cmd = vec!["nft".to_string(), "add".to_string(), "table".to_string()];
    assert_eq!(
        nft_outcome(&cmd, 0, "out".to_string(), "err".to_string()).unwrap(),
        "out"
    );
    match nft_outcome(&cmd, 1, "out".to_string(), "bad".to_string()) {
        Err(BlockcheckError::Nftables { command, stderr }) => {
            assert_eq!(command, "nft add table");
            assert_eq!(stderr, "bad");
        }
        other => panic!("unexpected {:?}", other),
    }
}

#[test]
fn handle_read_back_at_the_ends_of_its_range() {
    let rule = "add rule inet zapret postnat tcp dport 443 queue num 215";
    for n in [0u32, 7, 4_294_967_295] {
        let output = format!("{rule} # handle {n}\n");
        assert_eq!(parse_handle(&output).unwrap(), RuleHandle(n));
    }
}

#[test]
fn handle_not_read_back_after_a_marker_in_the_rule() {
    // The rule's own text ends in the marker without its blank, so the first marker is its own.
    assert!(parse_handle("x# handle # handle 5\n").is_err());
}
