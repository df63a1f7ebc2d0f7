use vstd::prelude::*;

use crate::config::{CoreConfig, DESYNC_MARK};
use crate::text::{
    decimal, extend_strings, hex_fixed, lemma_parse_decimal, owned, parse_unsigned, push_decimal,
    push_hex_fixed, push_string,
};

verus! {

/// The command line that starts nfqws2 on queue `qnum` with a strategy: the binary, the
/// queue, the mark that nfqws2 puts on the packets it sends, the two Lua libraries of
/// the zapret installation, then the strategy's own arguments.
pub open spec fn nfqws2_command_line(
    nfqws2_path: Seq<char>,
    zapret_base: Seq<char>,
    qnum: u16,
    strategy_args: Seq<Seq<char>>,
) -> Seq<Seq<char>> {
    seq![
        nfqws2_path,
        "--qnum="@ + decimal(qnum as nat),
        "--fwmark=0x"@ + hex_fixed(DESYNC_MARK as nat, 8),
        "--lua-init=@"@ + zapret_base + "/lua/zapret-lib.lua"@,
        "--lua-init=@"@ + zapret_base + "/lua/zapret-antidpi.lua"@,
    ] + strategy_args
}

/// The command line with which nfqws2 is started for a worker (the process itself is
/// spawned by the caller).
pub fn nfqws2_command(config: &CoreConfig, qnum: u16, strategy_args: &Vec<String>) -> (r: Vec<String>)
    ensures
        r.deep_view() == nfqws2_command_line(
            config.nfqws2_path@,
            config.zapret_base@,
            qnum,
            strategy_args.deep_view(),
        ),
        r.len() == 5 + strategy_args.len(),
        r.deep_view()[1].take(7) == "--qnum="@,
        parse_unsigned(r.deep_view()[1].skip(7), u16::MAX as nat) == Some(qnum as nat),
        r.deep_view().skip(5) == strategy_args.deep_view(),
{
    proof {
        lemma_nfqws2_listens_on_its_queue(
            config.nfqws2_path@,
            config.zapret_base@,
            qnum,
            strategy_args.deep_view(),
        );
    }
    let mut qnum_arg = owned("--qnum=");
    push_decimal(&mut qnum_arg, qnum as u64);
    let mut fwmark_arg = owned("--fwmark=0x");
    push_hex_fixed(&mut fwmark_arg, DESYNC_MARK as u64, 8);
    let mut lua_lib = owned("--lua-init=@");
    lua_lib.append(config.zapret_base.as_str());
    lua_lib.append("/lua/zapret-lib.lua");
    let mut lua_antidpi = owned("--lua-init=@");
    lua_antidpi.append(config.zapret_base.as_str());
    lua_antidpi.append("/lua/zapret-antidpi.lua");
    let mut cmd: Vec<String> = Vec::new();
    push_string(&mut cmd, config.nfqws2_path.clone());
    push_string(&mut cmd, qnum_arg);
    push_string(&mut cmd, fwmark_arg);
    push_string(&mut cmd, lua_lib);
    push_string(&mut cmd, lua_antidpi);
    extend_strings(&mut cmd, strategy_args);
    proof {
        let line = nfqws2_command_line(
            config.nfqws2_path@,
            config.zapret_base@,
            qnum,
            strategy_args.deep_view(),
        );
        assert(cmd.deep_view() =~= line);
    }
    cmd
}

/// nfqws2 listens on the worker's own queue and then runs the strategy as given: the second
/// argument is `--qnum=` with a numeral that reads back as `qnum`, for every queue number,
/// and the strategy's arguments come last, unchanged.
pub proof fn lemma_nfqws2_listens_on_its_queue(
    nfqws2_path: Seq<char>,
    zapret_base: Seq<char>,
    qnum: u16,
    strategy_args: Seq<Seq<char>>,
)
    ensures
        nfqws2_command_line(nfqws2_path, zapret_base, qnum, strategy_args).len() == 5 + strategy_args.len(),
        nfqws2_command_line(nfqws2_path, zapret_base, qnum, strategy_args)[0] == nfqws2_path,
        nfqws2_command_line(nfqws2_path, zapret_base, qnum, strategy_args)[1].take(7) == "--qnum="@,
        parse_unsigned(
            nfqws2_command_line(nfqws2_path, zapret_base, qnum, strategy_args)[1].skip(7),
            u16::MAX as nat,
        ) == Some(qnum as nat),
        nfqws2_command_line(nfqws2_path, zapret_base, qnum, strategy_args).skip(5) == strategy_args,
        nfqws2_command_line(nfqws2_path, zapret_base, qnum, strategy_args)[2] == "--fwmark="@
            + "0x10000000"@,
{
    reveal_strlit("--qnum=");
    reveal_strlit("0x10000000");
    reveal_strlit("--fwmark=0x");
    reveal_strlit("--fwmark=");
    reveal_with_fuel(hex_fixed, 9);
    assert(hex_fixed(DESYNC_MARK as nat, 8) =~= seq!['1', '0', '0', '0', '0', '0', '0', '0']);
    assert("--fwmark=0x"@ + hex_fixed(DESYNC_MARK as nat, 8) =~= "--fwmark="@ + "0x10000000"@);
    lemma_parse_decimal(qnum as nat, u16::MAX as nat);
    let line = nfqws2_command_line(nfqws2_path, zapret_base, qnum, strategy_args);
    let arg = "--qnum="@ + decimal(qnum as nat);
    assert(arg.take(7) =~= "--qnum="@);
    assert(arg.skip(7) =~= decimal(qnum as nat));
    assert(line.skip(5) =~= strategy_args);
}

} // verus!
