use vstd::prelude::*;

use crate::text::{owned, str_eq};

verus! {

/// Source ports that each worker slot owns.
pub const PORTS_PER_WORKER: u16 = 10;

/// The packet mark with which nfqws2 marks the packets it has already handled.
pub const DESYNC_MARK: u32 = 0x10000000;

/// How long nfqws2 is given to attach to its queue before the test starts.
pub const NFQWS2_INIT_DELAY_MS: u64 = 50;

/// Settings shared by every worker of a run.
#[derive(Debug, Clone)]
pub struct CoreConfig {
    pub worker_count: usize,
    pub base_qnum: u16,
    pub base_local_port: u16,
    pub nft_table: String,
    pub nfqws2_path: String,
    pub curl_max_time: String,
    pub zapret_base: String,
}

/// The directory of prebuilt binaries for a CPU architecture, named as
/// `std::env::consts::ARCH` names it.
pub open spec fn binary_arch(arch: Seq<char>) -> Seq<char> {
    if arch == "aarch64"@ || arch == "arm"@ {
        "linux-arm64"@
    } else {
        "linux-x86_64"@
    }
}

/// Where the nfqws2 binary lies under a zapret installation, for a CPU architecture.
pub open spec fn nfqws2_path_for(zapret_base: Seq<char>, arch: Seq<char>) -> Seq<char> {
    zapret_base + "/binaries/"@ + binary_arch(arch) + "/nfqws2"@
}

/// The path of the nfqws2 binary under `zapret_base` for the CPU architecture `arch`.
pub fn detect_nfqws2_path(zapret_base: &str, arch: &str) -> (r: String)
    ensures
        r@ == nfqws2_path_for(zapret_base@, arch@),
{
    let binary = if str_eq(arch, "aarch64") || str_eq(arch, "arm") {
        "linux-arm64"
    } else {
        "linux-x86_64"
    };
    let mut r = owned(zapret_base);
    r.append("/binaries/");
    r.append(binary);
    r.append("/nfqws2");
    r
}

impl CoreConfig {
    /// The default settings, with the nfqws2 binary that suits the CPU architecture `arch`.
    pub fn default_for_arch(arch: &str) -> (c: CoreConfig)
        ensures
            c.worker_count == 8,
            c.base_qnum == 200,
            c.base_local_port == 30000,
            c.nft_table@ == "zapret"@,
            c.nfqws2_path@ == nfqws2_path_for("/opt/zapret2"@, arch@),
            c.curl_max_time@ == "1"@,
            c.zapret_base@ == "/opt/zapret2"@,
    {
        CoreConfig {
            worker_count: 8,
            base_qnum: 200,
            base_local_port: 30000,
            nft_table: owned("zapret"),
            nfqws2_path: detect_nfqws2_path("/opt/zapret2", arch),
            curl_max_time: owned("1"),
            zapret_base: owned("/opt/zapret2"),
        }
    }

    /// The same settings with another number of workers.
    pub fn with_worker_count(self, worker_count: usize) -> (c: CoreConfig)
        ensures
            c == (CoreConfig { worker_count, ..self }),
    {
        CoreConfig { worker_count, ..self }
    }
}

/// The kinds of connection that a strategy is tested against.
#[derive(Debug, Clone, Copy, PartialEq, Eq, Structural)]
pub enum Protocol {
    Http,
    HttpsTls12,
    HttpsTls13,
}

impl Protocol {
    /// The destination port of the protocol.
    pub open spec fn spec_port(self) -> u16 {
        match self {
            Protocol::Http => 80,
            Protocol::HttpsTls12 | Protocol::HttpsTls13 => 443,
        }
    }

    /// The name of the blockcheck test function for the protocol.
    pub open spec fn spec_test_func_name(self) -> Seq<char> {
        match self {
            Protocol::Http => "curl_test_http"@,
            Protocol::HttpsTls12 => "curl_test_https_tls12"@,
            Protocol::HttpsTls13 => "curl_test_https_tls13"@,
        }
    }

    /// The name of the protocol as it is shown to the user.
    pub open spec fn spec_display_name(self) -> Seq<char> {
        match self {
            Protocol::Http => "HTTP"@,
            Protocol::HttpsTls12 => "HTTPS/TLS1.2"@,
            Protocol::HttpsTls13 => "HTTPS/TLS1.3"@,
        }
    }

    /// The destination port that the protocol's test connects to.
    pub fn port(self) -> (p: u16)
        ensures
            p == self.spec_port(),
    {
        match self {
            Protocol::Http => 80,
            Protocol::HttpsTls12 | Protocol::HttpsTls13 => 443,
        }
    }

    /// The name of the blockcheck test function that tests the protocol.
    pub fn test_func_name(self) -> (n: &'static str)
        ensures
            n@ == self.spec_test_func_name(),
    {
        match self {
            Protocol::Http => "curl_test_http",
            Protocol::HttpsTls12 => "curl_test_https_tls12",
            Protocol::HttpsTls13 => "curl_test_https_tls13",
        }
    }

    /// The text that the protocol is displayed as.
    pub fn display_name(self) -> (n: &'static str)
        ensures
            n@ == self.spec_display_name(),
    {
        match self {
            Protocol::Http => "HTTP",
            Protocol::HttpsTls12 => "HTTPS/TLS1.2",
            Protocol::HttpsTls13 => "HTTPS/TLS1.3",
        }
    }
}

} // verus!
