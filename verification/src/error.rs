use vstd::prelude::*;

use crate::network::curl::CurlVerdict;

verus! {

/// Failures of the infrastructure around a test (not of the strategy under test).
#[derive(Debug, Clone)]
pub enum BlockcheckError {
    /// An `nft` command exited with a non-zero status.
    Nftables { command: String, stderr: String },
    /// `nft --echo --handle` printed no rule handle.
    NftHandleParse { output: String },
    /// The name resolved, but to no IPv4 address.
    DnsNoAddresses { domain: String },
    /// Neither resolver could be run successfully.
    DnsResolveFailed { domain: String, reason: String },
    /// nfqws2 could not be started.
    Nfqws2Start { reason: String },
    /// An external command could not be run to completion.
    Process { command: String, reason: String },
}

impl BlockcheckError {
    /// A copy of the error.
    pub fn duplicate(&self) -> (e: BlockcheckError)
        ensures
            e == *self,
    {
        match self {
            BlockcheckError::Nftables { command, stderr } => BlockcheckError::Nftables {
                command: command.clone(),
                stderr: stderr.clone(),
            },
            BlockcheckError::NftHandleParse { output } => BlockcheckError::NftHandleParse {
                output: output.clone(),
            },
            BlockcheckError::DnsNoAddresses { domain } => BlockcheckError::DnsNoAddresses {
                domain: domain.clone(),
            },
            BlockcheckError::DnsResolveFailed { domain, reason } =>
                BlockcheckError::DnsResolveFailed { domain: domain.clone(), reason: reason.clone() },
            BlockcheckError::Nfqws2Start { reason } => BlockcheckError::Nfqws2Start {
                reason: reason.clone(),
            },
            BlockcheckError::Process { command, reason } => BlockcheckError::Process {
                command: command.clone(),
                reason: reason.clone(),
            },
        }
    }
}

/// Marks a test whose request got through.
#[derive(Debug, Clone, Copy)]
pub struct CurlVerdictAvailable;

/// The outcome of testing one strategy.
#[derive(Debug, Clone)]
pub enum TaskResult {
    /// The site was reachable with the strategy in place.
    Success { verdict: CurlVerdictAvailable, strategy_args: Vec<String> },
    /// The strategy did not get the request through.
    Failed { verdict: CurlVerdict },
    /// The test could not be carried out.
    Error { error: BlockcheckError },
}

} // verus!
