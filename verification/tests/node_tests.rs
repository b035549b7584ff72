use snarkos_ledger::node::{consensus_limits, next_start_action, NodeOptions, StartAction};

fn run(options: NodeOptions, miner_address_valid: bool) -> Vec<StartAction> {
    let mut steps = Vec::new();
    let mut last = None;
    let mut ok = true;
    loop {
        let action = next_start_action(options, last, ok);
        steps.push(action);
        if action == StartAction::Run || action == StartAction::Stop {
            return steps;
        }
        ok = action != StartAction::ParseMinerAddress || miner_address_valid;
        last = Some(action);
    }
}

#[test]
fn start_of_a_miner_with_rpc() {
    let options = NodeOptions { storage_in_memory: false, is_miner: true, json_rpc: true };
    assert_eq!(
        run(options, true),
        vec![
            StartAction::InitializeLogger,
            StartAction::PrintWelcome,
            StartAction::BuildNodeConfig,
            StartAction::CreateNode,
            StartAction::OpenStorage { in_memory: false },
            StartAction::LoadMemoryPool,
            StartAction::LoadParameters { verify_only: false },
            StartAction::EnableSync { limits: consensus_limits() },
            StartAction::InitializeMetrics,
            StartAction::Listen,
            StartAction::StartRpc,
            StartAction::StartServices,
            StartAction::WaitBeforeMining { seconds: 5 },
            StartAction::ParseMinerAddress,
            StartAction::StartMiner,
            StartAction::Run,
        ]
    );
}

#[test]
fn start_of_a_plain_node() {
    let options = NodeOptions { storage_in_memory: true, is_miner: false, json_rpc: false };
    assert_eq!(
        run(options, true),
        vec![
            StartAction::InitializeLogger,
            StartAction::PrintWelcome,
            StartAction::BuildNodeConfig,
            StartAction::CreateNode,
            StartAction::OpenStorage { in_memory: true },
            StartAction::LoadMemoryPool,
            StartAction::LoadParameters { verify_only: true },
            StartAction::EnableSync { limits: consensus_limits() },
            StartAction::InitializeMetrics,
            StartAction::Listen,
            StartAction::StartServices,
            StartAction::WaitBeforeMining { seconds: 5 },
            StartAction::Run,
        ]
    );
}

#[test]
fn invalid_miner_address_is_reported() {
    let options = NodeOptions { storage_in_memory: false, is_miner: true, json_rpc: false };
    let steps = run(options, false);
    let n = steps.len();
    assert_eq!(&steps[n - 3..], &[StartAction::ParseMinerAddress, StartAction::ReportInvalidMinerAddress, StartAction::Run]);
}

#[test]
fn failed_step_stops_the_start() {
    let options = NodeOptions { storage_in_memory: false, is_miner: true, json_rpc: true };
    assert_eq!(next_start_action(options, Some(StartAction::Listen), false), StartAction::Stop);
    assert_eq!(next_start_action(options, Some(StartAction::CreateNode), false), StartAction::Stop);
    assert_eq!(next_start_action(options, Some(StartAction::Stop), true), StartAction::Stop);
}

#[test]
fn consensus_limits_of_a_node() {
    let limits = consensus_limits();
    assert_eq!(limits.max_block_size, 1_000_000_000usize);
    assert_eq!(limits.max_nonce, u32::MAX);
    assert_eq!(limits.target_block_time, 10i64);
}
