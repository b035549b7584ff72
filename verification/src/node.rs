//! The order in which a node starts: the decisions between the steps that
//! the runner performs (opening storage, loading parameters, listening,
//! starting the RPC server and the miner).
use vstd::prelude::*;

verus! {

/// What the configuration decides about the start.
#[derive(Clone, Copy, Debug, PartialEq, Eq, Structural)]
pub struct NodeOptions {
    /// The ledger storage lives in memory rather than at a path.
    pub storage_in_memory: bool,
    /// The node mines blocks.
    pub is_miner: bool,
    /// The node serves JSON-RPC requests.
    pub json_rpc: bool,
}

/// The consensus limits that the node starts with.
#[derive(Clone, Copy, Debug, PartialEq, Eq, Structural)]
pub struct ConsensusLimits {
    pub max_block_size: usize,
    pub max_nonce: u32,
    pub target_block_time: i64,
}

/// The limits every node starts with: blocks of at most 10^9 bytes, any
/// `u32` nonce, and a target block time of 10 seconds.
pub open spec fn spec_consensus_limits() -> ConsensusLimits {
    ConsensusLimits { max_block_size: 1_000_000_000usize, max_nonce: u32::MAX, target_block_time: 10i64 }
}

pub fn consensus_limits() -> (c: ConsensusLimits)
    ensures
        c == spec_consensus_limits(),
{
    ConsensusLimits { max_block_size: 1_000_000_000usize, max_nonce: u32::MAX, target_block_time: 10i64 }
}

/// How long the node waits after starting its services before it starts
/// the miner.
pub const MINER_DELAY_SECONDS: u64 = 5;

/// A step of the start.
#[derive(Clone, Copy, Debug, PartialEq, Eq, Structural)]
pub enum StartAction {
    InitializeLogger,
    PrintWelcome,
    /// Parse the listening address and build the network configuration.
    BuildNodeConfig,
    CreateNode,
    /// Open the ledger storage, in memory or at the configured path.
    OpenStorage { in_memory: bool },
    LoadMemoryPool,
    /// Load the public parameters; a node that does not mine needs only the
    /// verifying parts.
    LoadParameters { verify_only: bool },
    /// Build the consensus with these limits and enable the sync layer.
    EnableSync { limits: ConsensusLimits },
    InitializeMetrics,
    Listen,
    StartRpc,
    StartServices,
    WaitBeforeMining { seconds: u64 },
    ParseMinerAddress,
    StartMiner,
    ReportInvalidMinerAddress,
    /// The node runs until it is stopped.
    Run,
    /// A step failed: the start ends with its error.
    Stop,
}

/// The step after `last` (none at the start), given whether `last`
/// succeeded. A failed step stops the start, except the parsing of the
/// miner address, whose failure is reported while the node runs on.
pub open spec fn spec_next_start_action(
    options: NodeOptions,
    last: Option<StartAction>,
    succeeded: bool,
) -> StartAction {
    match last {
        None => StartAction::InitializeLogger,
        Some(a) => if !succeeded {
            match a {
                StartAction::ParseMinerAddress => StartAction::ReportInvalidMinerAddress,
                StartAction::Run => StartAction::Run,
                _ => StartAction::Stop,
            }
        } else {
            match a {
                StartAction::InitializeLogger => StartAction::PrintWelcome,
                StartAction::PrintWelcome => StartAction::BuildNodeConfig,
                StartAction::BuildNodeConfig => StartAction::CreateNode,
                StartAction::CreateNode => StartAction::OpenStorage {
                    in_memory: options.storage_in_memory,
                },
                StartAction::OpenStorage { .. } => StartAction::LoadMemoryPool,
                StartAction::LoadMemoryPool => StartAction::LoadParameters {
                    verify_only: !options.is_miner,
                },
                StartAction::LoadParameters { .. } => StartAction::EnableSync {
                    limits: spec_consensus_limits(),
                },
                StartAction::EnableSync { .. } => StartAction::InitializeMetrics,
                StartAction::InitializeMetrics => StartAction::Listen,
                StartAction::Listen => if options.json_rpc {
                    StartAction::StartRpc
                } else {
                    StartAction::StartServices
                },
                StartAction::StartRpc => StartAction::StartServices,
                StartAction::StartServices => StartAction::WaitBeforeMining {
                    seconds: MINER_DELAY_SECONDS,
                },
                StartAction::WaitBeforeMining { .. } => if options.is_miner {
                    StartAction::ParseMinerAddress
                } else {
                    StartAction::Run
                },
                StartAction::ParseMinerAddress => StartAction::StartMiner,
                StartAction::StartMiner => StartAction::Run,
                StartAction::ReportInvalidMinerAddress => StartAction::Run,
                StartAction::Run => StartAction::Run,
                StartAction::Stop => StartAction::Stop,
            }
        },
    }
}

/// The next step of the start; see [`spec_next_start_action`], which this
/// function stands for in specifications.
#[verifier::when_used_as_spec(spec_next_start_action)]
pub fn next_start_action(options: NodeOptions, last: Option<StartAction>, succeeded: bool) -> (a:
    StartAction)
    ensures
        a == spec_next_start_action(options, last, succeeded),
{
    match last {
        None => StartAction::InitializeLogger,
        Some(a) => if !succeeded {
            match a {
                StartAction::ParseMinerAddress => StartAction::ReportInvalidMinerAddress,
                StartAction::Run => StartAction::Run,
                _ => StartAction::Stop,
            }
        } else {
            match a {
                StartAction::InitializeLogger => StartAction::PrintWelcome,
                StartAction::PrintWelcome => StartAction::BuildNodeConfig,
                StartAction::BuildNodeConfig => StartAction::CreateNode,
                StartAction::CreateNode => StartAction::OpenStorage {
                    in_memory: options.storage_in_memory,
                },
                StartAction::OpenStorage { .. } => StartAction::LoadMemoryPool,
                StartAction::LoadMemoryPool => StartAction::LoadParameters {
                    verify_only: !options.is_miner,
                },
                StartAction::LoadParameters { .. } => StartAction::EnableSync {
                    limits: consensus_limits(),
                },
                StartAction::EnableSync { .. } => StartAction::InitializeMetrics,
                StartAction::InitializeMetrics => StartAction::Listen,
                StartAction::Listen => if options.json_rpc {
                    StartAction::StartRpc
                } else {
                    StartAction::StartServices
                },
                StartAction::StartRpc => StartAction::StartServices,
                StartAction::StartServices => StartAction::WaitBeforeMining {
                    seconds: MINER_DELAY_SECONDS,
                },
                StartAction::WaitBeforeMining { .. } => if options.is_miner {
                    StartAction::ParseMinerAddress
                } else {
                    StartAction::Run
                },
                StartAction::ParseMinerAddress => StartAction::StartMiner,
                StartAction::StartMiner => StartAction::Run,
                StartAction::ReportInvalidMinerAddress => StartAction::Run,
                StartAction::Run => StartAction::Run,
                StartAction::Stop => StartAction::Stop,
            }
        },
    }
}

/// The steps of a start in which every step succeeds but the parsing of
/// the miner address, which succeeds when `miner_address_valid`.
pub open spec fn start_trace(
    options: NodeOptions,
    miner_address_valid: bool,
    last: Option<StartAction>,
    steps: nat,
) -> Seq<StartAction>
    decreases steps,
{
    if steps == 0 {
        Seq::empty()
    } else {
        let ok = match last {
            Some(StartAction::ParseMinerAddress) => miner_address_valid,
            _ => true,
        };
        let next = next_start_action(options, last, ok);
        seq![next] + start_trace(options, miner_address_valid, Some(next), (steps - 1) as nat)
    }
}

/// The steps of a successful start, up to the running node: the RPC server
/// is started exactly when JSON-RPC is configured, and the miner exactly
/// when the node mines and its address is valid.
pub open spec fn successful_start(options: NodeOptions, miner_address_valid: bool) -> Seq<
    StartAction,
> {
    seq![
        StartAction::InitializeLogger,
        StartAction::PrintWelcome,
        StartAction::BuildNodeConfig,
        StartAction::CreateNode,
        StartAction::OpenStorage { in_memory: options.storage_in_memory },
        StartAction::LoadMemoryPool,
        StartAction::LoadParameters { verify_only: !options.is_miner },
        StartAction::EnableSync { limits: spec_consensus_limits() },
        StartAction::InitializeMetrics,
        StartAction::Listen,
    ] + (if options.json_rpc {
        seq![StartAction::StartRpc]
    } else {
        Seq::empty()
    }) + seq![
        StartAction::StartServices,
        StartAction::WaitBeforeMining { seconds: MINER_DELAY_SECONDS },
    ] + (if !options.is_miner {
        Seq::empty()
    } else if miner_address_valid {
        seq![StartAction::ParseMinerAddress, StartAction::StartMiner]
    } else {
        seq![StartAction::ParseMinerAddress, StartAction::ReportInvalidMinerAddress]
    }) + seq![StartAction::Run]
}

/// Law: a start in which every step succeeds runs the steps of
/// `successful_start`, in order, and then stays running.
pub proof fn lemma_successful_start(options: NodeOptions, miner_address_valid: bool)
    ensures
        start_trace(options, miner_address_valid, None, successful_start(options, miner_address_valid).len())
            == successful_start(options, miner_address_valid),
        next_start_action(options, Some(StartAction::Run), true) == StartAction::Run,
{
    let o = options;
    let v = miner_address_valid;
    let s = successful_start(o, v);
    let run = seq![StartAction::Run];
    assert(start_trace(o, v, Some(StartAction::Run), 0) =~= Seq::<StartAction>::empty());
    let miner = if !o.is_miner {
        Seq::<StartAction>::empty()
    } else if v {
        seq![StartAction::ParseMinerAddress, StartAction::StartMiner]
    } else {
        seq![StartAction::ParseMinerAddress, StartAction::ReportInvalidMinerAddress]
    };
    let wait = StartAction::WaitBeforeMining { seconds: MINER_DELAY_SECONDS };
    if !o.is_miner {
        assert(start_trace(o, v, Some(wait), 1) =~= miner + run);
    } else if v {
        assert(start_trace(o, v, Some(StartAction::StartMiner), 1) =~= run);
        assert(start_trace(o, v, Some(StartAction::ParseMinerAddress), 2) =~= seq![
            StartAction::StartMiner,
        ] + run);
        assert(start_trace(o, v, Some(wait), 3) =~= miner + run);
    } else {
        assert(start_trace(o, v, Some(StartAction::ReportInvalidMinerAddress), 1) =~= run);
        assert(start_trace(o, v, Some(StartAction::ParseMinerAddress), 2) =~= seq![
            StartAction::ReportInvalidMinerAddress,
        ] + run);
        assert(start_trace(o, v, Some(wait), 3) =~= miner + run);
    }
    let t0 = miner + run;
    let k0 = t0.len();
    assert(start_trace(o, v, Some(wait), k0) == t0);
    let t1 = seq![wait] + t0;
    assert(start_trace(o, v, Some(StartAction::StartServices), k0 + 1) =~= t1);
    let rpc = if o.json_rpc {
        seq![StartAction::StartRpc]
    } else {
        Seq::<StartAction>::empty()
    };
    let t2 = seq![StartAction::StartServices] + t1;
    if o.json_rpc {
        assert(start_trace(o, v, Some(StartAction::StartRpc), k0 + 2) =~= t2);
    }
    let t3 = rpc + t2;
    let k3 = t3.len();
    assert(start_trace(o, v, Some(StartAction::Listen), k3) =~= t3);
    let a8 = seq![StartAction::Listen] + t3;
    assert(start_trace(o, v, Some(StartAction::InitializeMetrics), a8.len()) =~= a8);
    let a7 = seq![StartAction::InitializeMetrics] + a8;
    assert(start_trace(o, v, Some(StartAction::EnableSync { limits: spec_consensus_limits() }), a7.len()) =~= a7);
    let a6 = seq![StartAction::EnableSync { limits: spec_consensus_limits() }] + a7;
    assert(start_trace(o, v, Some(StartAction::LoadParameters { verify_only: !o.is_miner }), a6.len()) =~= a6);
    let a5 = seq![StartAction::LoadParameters { verify_only: !o.is_miner }] + a6;
    assert(start_trace(o, v, Some(StartAction::LoadMemoryPool), a5.len()) =~= a5);
    let a4 = seq![StartAction::LoadMemoryPool] + a5;
    assert(start_trace(o, v, Some(StartAction::OpenStorage { in_memory: o.storage_in_memory }), a4.len()) =~= a4);
    let a3 = seq![StartAction::OpenStorage { in_memory: o.storage_in_memory }] + a4;
    assert(start_trace(o, v, Some(StartAction::CreateNode), a3.len()) =~= a3);
    let a2 = seq![StartAction::CreateNode] + a3;
    assert(start_trace(o, v, Some(StartAction::BuildNodeConfig), a2.len()) =~= a2);
    let a1 = seq![StartAction::BuildNodeConfig] + a2;
    assert(start_trace(o, v, Some(StartAction::PrintWelcome), a1.len()) =~= a1);
    let a0 = seq![StartAction::PrintWelcome] + a1;
    assert(start_trace(o, v, Some(StartAction::InitializeLogger), a0.len()) =~= a0);
    let full = seq![StartAction::InitializeLogger] + a0;
    assert(start_trace(o, v, None, full.len()) =~= full);
    assert(full =~= s);
}

/// Law: a failed step other than the parsing of the miner address stops
/// the start, and a stopped start stays stopped.
pub proof fn lemma_failure_stops(options: NodeOptions, a: StartAction)
    requires
        a != StartAction::ParseMinerAddress,
        a != StartAction::Run,
    ensures
        next_start_action(options, Some(a), false) == StartAction::Stop,
        next_start_action(options, Some(StartAction::Stop), true) == StartAction::Stop,
{
}

} // verus!
