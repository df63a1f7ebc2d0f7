use vstd::prelude::*;

use crate::error::BlockcheckError;
use crate::text::{
    char_vec, decimal, find, find_in, is_digit, join, join_strings, lemma_decimal_digits, lemma_parse_decimal,
    lemma_find_from_first, lemma_find_from_none, lemma_find_nowhere, lemma_single_line, lemma_trim_digits,
    line_ranges, lines, owned, parse_unsigned, parse_unsigned_in, push_decimal, push_owned,
    push_string, string_of_range, trim, trim_range,
};

verus! {

/// The handle that nftables gave a rule, by which the rule is deleted again.
#[derive(Debug, Clone, Copy, PartialEq, Eq, Structural)]
pub struct RuleHandle(pub u32);

/// `nft` with its arguments.
pub open spec fn nft_command_line(args: Seq<Seq<char>>) -> Seq<Seq<char>> {
    seq!["nft"@] + args
}

/// Arguments that create the table.
pub open spec fn add_table_line(table: Seq<char>) -> Seq<Seq<char>> {
    seq!["add"@, "table"@, "inet"@, table]
}

/// Arguments that create the post-NAT chain, hooked into postrouting.
pub open spec fn add_chain_line(table: Seq<char>) -> Seq<Seq<char>> {
    seq![
        "add"@,
        "chain"@,
        "inet"@,
        table,
        "postnat"@,
        "{ type filter hook postrouting priority 102; }"@,
    ]
}

/// Arguments that add a worker's rule: IPv4 TCP packets from the worker's source ports to
/// `dport` on one of `ips`, not yet marked by nfqws2, get the mark on their connection and
/// go to queue `qnum`; nft echoes the rule with its handle.
pub open spec fn worker_rule_line(
    table: Seq<char>,
    sport_range: Seq<char>,
    dport: u16,
    qnum: u16,
    ips: Seq<Seq<char>>,
) -> Seq<Seq<char>> {
    seq![
        "--echo"@,
        "--handle"@,
        "add"@,
        "rule"@,
        "inet"@,
        table,
        "postnat"@,
        "meta"@,
        "nfproto"@,
        "ipv4"@,
        "tcp"@,
        "sport"@,
        sport_range,
        "tcp"@,
        "dport"@,
        decimal(dport as nat),
        "mark"@,
        "and"@,
        "0x10000000"@,
        "=="@,
        "0"@,
        "ip"@,
        "daddr"@,
        "{ "@ + join(ips, ", "@) + " }"@,
        "ct"@,
        "mark"@,
        "set"@,
        "ct"@,
        "mark"@,
        "or"@,
        "0x10000000"@,
        "queue"@,
        "num"@,
        decimal(qnum as nat),
    ]
}

/// A worker's rule matches the destination port it is given and feeds the queue it is
/// given: the argument after `tcp dport` reads back as `dport`, and the one after
/// `queue num` as `qnum`, for every port and queue number.
pub proof fn lemma_worker_rule_ports(
    table: Seq<char>,
    sport_range: Seq<char>,
    dport: u16,
    qnum: u16,
    ips: Seq<Seq<char>>,
)
    ensures
        worker_rule_line(table, sport_range, dport, qnum, ips).len() == 34,
        worker_rule_line(table, sport_range, dport, qnum, ips)[13] == "tcp"@,
        worker_rule_line(table, sport_range, dport, qnum, ips)[14] == "dport"@,
        parse_unsigned(worker_rule_line(table, sport_range, dport, qnum, ips)[15], u16::MAX as nat)
            == Some(dport as nat),
        worker_rule_line(table, sport_range, dport, qnum, ips)[31] == "queue"@,
        worker_rule_line(table, sport_range, dport, qnum, ips)[32] == "num"@,
        parse_unsigned(worker_rule_line(table, sport_range, dport, qnum, ips)[33], u16::MAX as nat)
            == Some(qnum as nat),
{
    lemma_parse_decimal(dport as nat, u16::MAX as nat);
    lemma_parse_decimal(qnum as nat, u16::MAX as nat);
}

/// Arguments that delete one rule by its handle.
pub open spec fn remove_rule_line(table: Seq<char>, handle: RuleHandle) -> Seq<Seq<char>> {
    seq!["delete"@, "rule"@, "inet"@, table, "postnat"@, "handle"@, decimal(handle.0 as nat)]
}

/// The arguments that delete a rule name that very rule: the argument after `handle`
/// reads back as the rule's handle, for every handle.
pub proof fn lemma_remove_rule_names_its_handle(table: Seq<char>, handle: RuleHandle)
    ensures
        remove_rule_line(table, handle).len() == 7,
        remove_rule_line(table, handle)[5] == "handle"@,
        parse_unsigned(remove_rule_line(table, handle)[6], u32::MAX as nat) == Some(handle.0 as nat),
        reported_handle(("add rule"@ + " # handle "@ + remove_rule_line(table, handle)[6]).push('\n'))
            == Some(handle.0),
{
    lemma_parse_decimal(handle.0 as nat, u32::MAX as nat);
    reveal_strlit("add rule");
    reveal_strlit("# handle ");
    let rule = "add rule"@;
    assert(!rule.contains('\n')) by {
        if rule.contains('\n') {
            let i = choose|i: int| 0 <= i < rule.len() && rule[i] == '\n';
        }
    }
    assert(find(rule.push(' '), handle_marker()) is None) by {
        let t = rule.push(' ');
        assert forall|j: int| 0 <= j && j + 9 <= t.len() implies #[trigger] t.subrange(j, j + 9) != handle_marker() by {
            assert(t.subrange(j, j + 9)[0] != '#');
        }
        lemma_find_nowhere(t, handle_marker(), 0);
    }
    lemma_handle_read_back(rule, handle.0);
}

/// Arguments that delete the whole table.
pub open spec fn drop_table_line(table: Seq<char>) -> Seq<Seq<char>> {
    seq!["delete"@, "table"@, "inet"@, table]
}

/// `nft` followed by `args`.
pub fn nft_command(args: &Vec<String>) -> (r: Vec<String>)
    ensures
        r.deep_view() == nft_command_line(args.deep_view()),
{
    let mut r: Vec<String> = Vec::new();
    push_owned(&mut r, "nft");
    crate::text::extend_strings(&mut r, args);
    assert(r.deep_view() =~= nft_command_line(args.deep_view()));
    r
}

/// What a run of `nft` comes to: its output when it exited with status 0, otherwise an
/// error that names the command line and carries what nft wrote to stderr.
pub fn nft_outcome(command: &Vec<String>, exit_code: i32, stdout: String, stderr: String) -> (r:
    Result<String, BlockcheckError>)
    ensures
        exit_code == 0 ==> r == Ok::<String, BlockcheckError>(stdout),
        exit_code != 0 ==> (r matches Err(BlockcheckError::Nftables { command: c, stderr: e }) && c@
            == join(command.deep_view(), " "@) && e == stderr),
{
    if exit_code == 0 {
        Ok(stdout)
    } else {
        Err(BlockcheckError::Nftables { command: join_strings(command, " "), stderr })
    }
}

/// The first command that `prepare_table` runs: create the table.
pub fn add_table_args(table: &str) -> (r: Vec<String>)
    ensures
        r.deep_view() == add_table_line(table@),
{
    let mut r: Vec<String> = Vec::new();
    push_owned(&mut r, "add");
    push_owned(&mut r, "table");
    push_owned(&mut r, "inet");
    push_owned(&mut r, table);
    assert(r.deep_view() =~= add_table_line(table@));
    r
}

/// The second command that `prepare_table` runs: create the chain.
pub fn add_chain_args(table: &str) -> (r: Vec<String>)
    ensures
        r.deep_view() == add_chain_line(table@),
{
    let mut r: Vec<String> = Vec::new();
    push_owned(&mut r, "add");
    push_owned(&mut r, "chain");
    push_owned(&mut r, "inet");
    push_owned(&mut r, table);
    push_owned(&mut r, "postnat");
    push_owned(&mut r, "{ type filter hook postrouting priority 102; }");
    assert(r.deep_view() =~= add_chain_line(table@));
    r
}

/// The arguments of `nft` that add a worker's rule.
pub fn add_worker_rule_args(
    table: &str,
    sport_range: &str,
    dport: u16,
    qnum: u16,
    ips: &Vec<String>,
) -> (r: Vec<String>)
    ensures
        r.deep_view() == worker_rule_line(table@, sport_range@, dport, qnum, ips.deep_view()),
        r.len() == 34,
        r.deep_view()[13] == "tcp"@ && r.deep_view()[14] == "dport"@,
        parse_unsigned(r.deep_view()[15], u16::MAX as nat) == Some(dport as nat),
        r.deep_view()[31] == "queue"@ && r.deep_view()[32] == "num"@,
        parse_unsigned(r.deep_view()[33], u16::MAX as nat) == Some(qnum as nat),
{
    proof {
        lemma_worker_rule_ports(table@, sport_range@, dport, qnum, ips.deep_view());
    }
    let mut ip_expr = owned("{ ");
    let ip_set = join_strings(ips, ", ");
    ip_expr.append(ip_set.as_str());
    ip_expr.append(" }");
    let mut dport_str = String::new();
    push_decimal(&mut dport_str, dport as u64);
    let mut qnum_str = String::new();
    push_decimal(&mut qnum_str, qnum as u64);
    let mut r: Vec<String> = Vec::new();
    push_owned(&mut r, "--echo");
    push_owned(&mut r, "--handle");
    push_owned(&mut r, "add");
    push_owned(&mut r, "rule");
    push_owned(&mut r, "inet");
    push_owned(&mut r, table);
    push_owned(&mut r, "postnat");
    push_owned(&mut r, "meta");
    push_owned(&mut r, "nfproto");
    push_owned(&mut r, "ipv4");
    push_owned(&mut r, "tcp");
    push_owned(&mut r, "sport");
    push_owned(&mut r, sport_range);
    push_owned(&mut r, "tcp");
    push_owned(&mut r, "dport");
    push_string(&mut r, dport_str);
    push_owned(&mut r, "mark");
    push_owned(&mut r, "and");
    push_owned(&mut r, "0x10000000");
    push_owned(&mut r, "==");
    push_owned(&mut r, "0");
    push_owned(&mut r, "ip");
    push_owned(&mut r, "daddr");
    push_string(&mut r, ip_expr);
    push_owned(&mut r, "ct");
    push_owned(&mut r, "mark");
    push_owned(&mut r, "set");
    push_owned(&mut r, "ct");
    push_owned(&mut r, "mark");
    push_owned(&mut r, "or");
    push_owned(&mut r, "0x10000000");
    push_owned(&mut r, "queue");
    push_owned(&mut r, "num");
    push_string(&mut r, qnum_str);
    assert(r.deep_view() =~= worker_rule_line(table@, sport_range@, dport, qnum, ips.deep_view()));
    r
}

/// The arguments of `nft` that delete a rule.
pub fn remove_rule_args(table: &str, handle: RuleHandle) -> (r: Vec<String>)
    ensures
        r.deep_view() == remove_rule_line(table@, handle),
        r.len() == 7,
        r.deep_view()[5] == "handle"@,
        parse_unsigned(r.deep_view()[6], u32::MAX as nat) == Some(handle.0 as nat),
{
    proof {
        lemma_remove_rule_names_its_handle(table@, handle);
    }
    let mut handle_str = String::new();
    push_decimal(&mut handle_str, handle.0 as u64);
    let mut r: Vec<String> = Vec::new();
    push_owned(&mut r, "delete");
    push_owned(&mut r, "rule");
    push_owned(&mut r, "inet");
    push_owned(&mut r, table);
    push_owned(&mut r, "postnat");
    push_owned(&mut r, "handle");
    push_string(&mut r, handle_str);
    assert(r.deep_view() =~= remove_rule_line(table@, handle));
    r
}

/// The arguments of `nft` that delete the table.
pub fn drop_table_args(table: &str) -> (r: Vec<String>)
    ensures
        r.deep_view() == drop_table_line(table@),
{
    let mut r: Vec<String> = Vec::new();
    push_owned(&mut r, "delete");
    push_owned(&mut r, "table");
    push_owned(&mut r, "inet");
    push_owned(&mut r, table);
    assert(r.deep_view() =~= drop_table_line(table@));
    r
}

/// The text that precedes a rule handle in the output of `nft --echo --handle`.
pub open spec fn handle_marker() -> Seq<char> {
    "# handle "@
}

/// The handle on one line of output: the text after the first marker, trimmed, read as
/// a `u32`.
pub open spec fn handle_in_line(line: Seq<char>) -> Option<u32> {
    match find(line, handle_marker()) {
        Some(pos) => match parse_unsigned(
            trim(line.skip(pos + handle_marker().len())),
            u32::MAX as nat,
        ) {
            Some(n) => Some(n as u32),
            None => None,
        },
        None => None,
    }
}

/// The handle on the first of the lines that carries one.
pub open spec fn first_handle(ls: Seq<Seq<char>>) -> Option<u32>
    decreases ls.len(),
{
    if ls.len() == 0 {
        None
    } else {
        match handle_in_line(ls[0]) {
            Some(h) => Some(h),
            None => first_handle(ls.drop_first()),
        }
    }
}

/// The handle that the output of `nft --echo --handle` reports.
pub open spec fn reported_handle(output: Seq<char>) -> Option<u32> {
    first_handle(lines(output))
}

/// The handle that `nft --echo --handle` prints after a rule, on the rule's own line, is
/// read back exactly, whatever the rule's text, as long as that text holds no line break
/// and no marker of its own (no `# handle ` in it, even with a blank added at its end).
pub proof fn lemma_handle_read_back(rule: Seq<char>, n: u32)
    requires
        !rule.contains('\n'),
        find(rule.push(' '), handle_marker()) is None,
    ensures
        reported_handle((rule + " # handle "@ + decimal(n as nat)).push('\n')) == Some(n),
{
    reveal_strlit("# handle ");
    reveal_strlit(" # handle ");
    lemma_decimal_digits(n as nat);
    let m = handle_marker();
    let d = decimal(n as nat);
    let tail = " # handle "@;
    let line = rule + tail + d;
    let len = rule.len() as int;
    assert(line.len() == len + 10 + d.len());
    assert forall|i: int| 0 <= i < line.len() implies #[trigger] line[i] != '\n' by {
        if i < len {
            assert(line[i] == rule[i]);
            if rule[i] == '\n' {
                assert(rule.contains('\n'));
            }
        } else if i < len + 10 {
            assert(line[i] == tail[i - len]);
        } else {
            assert(line[i] == d[i - len - 10]);
            assert(is_digit(d[i - len - 10]));
        }
    }
    assert(line[line.len() - 1] == d[d.len() - 1]);
    assert(is_digit(d[d.len() - 1]));
    lemma_single_line(line);
    assert(line.subrange(len + 1, len + 10) =~= m);
    assert forall|j: int| 0 <= j < len + 1 implies #[trigger] line.subrange(j, j + 9) != m by {
        if j + 9 <= len + 1 {
            lemma_find_from_none(rule.push(' '), m, 0, j);
            assert(line.subrange(j, j + 9) =~= rule.push(' ').subrange(j, j + 9));
        } else {
            let off = len + 1 - j;
            assert(line[len + 1] == '#');
            assert(line.subrange(j, j + 9)[off] == line[len + 1]);
            assert(m[off] != '#');
        }
    }
    lemma_find_from_first(line, m, 0, len + 1);
    assert(line.skip(len + 1 + m.len()) =~= d);
    lemma_trim_digits(d);
    assert(is_digit(d[0]));
    assert(parse_unsigned(d, u32::MAX as nat) == Some(n as nat));
    assert(handle_in_line(line) == Some(n));
    assert(seq![line].drop_first() =~= Seq::<Seq<char>>::empty());
}

/// Reads the handle of a freshly added rule from the output of `nft --echo --handle`
/// (lines like `... # handle 42`).
pub fn parse_handle(stdout: &str) -> (r: Result<RuleHandle, BlockcheckError>)
    ensures
        match r {
            Ok(h) => reported_handle(stdout@) == Some(h.0),
            Err(e) => reported_handle(stdout@) is None && (e matches BlockcheckError::NftHandleParse {
                output,
            } && output@ == stdout@),
        },
{
    let chars = char_vec(stdout);
    let ls = line_ranges(&chars, 0, chars.len());
    let marker = char_vec("# handle ");
    proof {
        reveal_strlit("# handle ");
        assert(chars@.subrange(0, chars@.len() as int) =~= chars@);
    }
    let ghost all = lines(chars@);
    assert(all.skip(0) =~= all);
    let mut k: usize = 0;
    while k < ls.len()
        invariant
            chars@ == stdout@,
            marker@ == handle_marker(),
            marker.len() == 9,
            all == lines(chars@),
            crate::text::ranges_denote(chars@, ls@, all, 0, chars@.len() as int),
            k <= ls.len(),
            first_handle(all) == first_handle(all.skip(k as int)),
        decreases ls.len() - k,
    {
        let (a, b) = ls[k];
        let ghost line = chars@.subrange(a as int, b as int);
        assert(line == all[k as int]);
        assert(all.skip(k as int)[0] == all[k as int]);
        assert(all.skip(k as int).drop_first() =~= all.skip(k + 1));
        match find_in(&chars, a, b, &marker) {
            Some(pos) => {
                let rest = pos + marker.len();
                let (ta, tb) = trim_range(&chars, rest, b);
                assert(line.skip(pos - a + 9) =~= chars@.subrange(rest as int, b as int));
                match parse_unsigned_in(&chars, ta, tb, 0xFFFF_FFFF) {
                    Some(n) => {
                        return Ok(RuleHandle(n as u32));
                    },
                    None => {},
                }
            },
            None => {},
        }
        k = k + 1;
    }
    Err(BlockcheckError::NftHandleParse { output: owned(stdout) })
}

} // verus!
