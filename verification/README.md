# blockcheckw

A parallel scanner of DPI-circumvention strategies for zapret's nfqws2. Every worker gets a
slot of its own (a netfilter queue and a range of source ports, matched by a firewall rule of
its own), so that many strategies can be tested at once without disturbing one another.

## Layout

- `src/` is the library, verified with Verus:
  - `text.rs`: the character-level building blocks (lines, words, trimming, searching,
    unsigned number parsing, decimal and hexadecimal numerals, joining), each with a
    specification.
  - `config.rs`: settings, protocols, the nfqws2 path for a CPU architecture.
  - `worker/slot.rs`: worker slots, and the proof that slots never overlap.
  - `worker/nfqws2.rs`: the nfqws2 command line of a worker.
  - `firewall/nftables.rs`: the `nft` command lines, their outcomes, and the reading of rule
    handles.
  - `network/dns.rs`: IPv4 address syntax, the reading of `getent` and `nslookup` output,
    and when to fall back from one to the other.
  - `network/curl.rs`: the verdict on a test request, read from curl's exit status.
  - `pipeline/worker_task.rs`: one worker's test cycle as a state machine, with the proof
    that a finished cycle leaves no rule and no nfqws2 process behind.
  - `pipeline/runner.rs`: a run of strategies in batches as a state machine, with the
    proofs that every strategy is handed out once, on slot `i mod w`, and answered by one
    result paired with it or counted as lost, and that the firewall table never outlives
    the run.
  - `pipeline/benchmark.rs`: benchmark strategies, worker counts (powers of two, then the
    maximum) and the recommended count, which does not depend on the order of the runs.
- `app/` is the program around it: processes, timers, progress bars and terminal output.
- `tests/` runs the library on concrete inputs.
