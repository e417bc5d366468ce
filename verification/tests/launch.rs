use shadow_rs::children::{ChildWatch, Polled, WaitOutcome, WaitStep};
use shadow_rs::distributed::control::{WireControlRequest, decode_control_message};
use shadow_rs::distributed::error::RemotePacketExchangeError;
use shadow_rs::ids::ShardId;
use shadow_rs::launch::{
    Argument, check_launch, check_runahead, distributed_child_args,
    handle_distributed_shutdown_results, is_mpi_process, launch_failure, launches_shards,
    mpi_place,
};
use shadow_rs::retry::{Retries, RetryStep};
use shadow_rs::sim_config::error::ConfigError;
use shadow_rs::sim_config::options::LogLevel;
use shadow_rs::startup::{FirstStep, Privilege, RunStep, first_step, is_compiled_out, privilege, run_step};

const DISTRIBUTED_SHARD_ID_ARG: &str = "--distributed-shard-id";
const DISTRIBUTED_SHARD_COUNT_ARG: &str = "--distributed-shard-count";
const DISTRIBUTED_IPC_SOCKET_DIR_ARG: &str = "--distributed-ipc-socket-dir";
const DATA_DIRECTORY_ARG: &str = "--data-directory";

fn text(s: &str) -> Argument {
    Argument::Text(s.to_string())
}

fn arguments(texts: &[&str]) -> Vec<Argument> {
    texts.iter().map(|s| text(s)).collect()
}

#[test]
fn distributed_child_args_append_internal_shard_settings() {
    let args = arguments(&["shadow", "--log-level", "debug", "config.yaml"]);

    let child_args = distributed_child_args(&args, 2, 4, &text("/tmp/shadow-ipc"), "shadow.data");

    assert_eq!(
        child_args,
        arguments(&[
            "--log-level",
            "debug",
            "config.yaml",
            DISTRIBUTED_SHARD_ID_ARG,
            "2",
            DISTRIBUTED_SHARD_COUNT_ARG,
            "4",
            DISTRIBUTED_IPC_SOCKET_DIR_ARG,
            "/tmp/shadow-ipc",
            DATA_DIRECTORY_ARG,
            "shadow.data.shard-2",
        ])
    );
}

#[test]
fn distributed_child_args_replace_existing_internal_shard_settings() {
    let args = arguments(&[
        "shadow",
        "--log-level",
        "debug",
        "--distributed-shard-id=9",
        "--distributed-shard-count",
        "9",
        "--distributed-ipc-socket-dir",
        "/tmp/old",
        "--data-directory",
        "old.data",
        "config.yaml",
    ]);

    let child_args = distributed_child_args(&args, 1, 3, &text("/tmp/new"), "new.data");

    assert_eq!(
        child_args,
        arguments(&[
            "--log-level",
            "debug",
            "config.yaml",
            DISTRIBUTED_SHARD_ID_ARG,
            "1",
            DISTRIBUTED_SHARD_COUNT_ARG,
            "3",
            DISTRIBUTED_IPC_SOCKET_DIR_ARG,
            "/tmp/new",
            DATA_DIRECTORY_ARG,
            "new.data.shard-1",
        ])
    );
}

#[test]
fn distributed_child_args_of_a_child_are_those_of_its_parent() {
    let args = arguments(&["shadow", "-d", "old", "config.yaml", "--data-directory"]);
    let first = distributed_child_args(&args, 0, 2, &text("/tmp/a"), "data");
    let mut child = vec![text("shadow")];
    child.extend(first);

    let second = distributed_child_args(&child, 1, 2, &text("/tmp/a"), "data");

    assert_eq!(second, distributed_child_args(&args, 1, 2, &text("/tmp/a"), "data"));
    assert_eq!(second[0], text("config.yaml"));
}

#[test]
fn distributed_child_args_keep_bytes_that_are_no_text() {
    let args = vec![text("shadow"), Argument::Bytes(vec![0xff, 0xfe])];
    let child_args = distributed_child_args(&args, 0, 2, &text("/tmp/a"), "data");
    assert_eq!(child_args[0], Argument::Bytes(vec![0xff, 0xfe]));
    assert_eq!(child_args.len(), 9);
}

#[test]
fn distributed_child_wait_kills_remaining_children_on_first_failure() {
    let mut watch = ChildWatch::new(vec![ShardId(0), ShardId(1)]);

    assert_eq!(watch.next_step(), WaitStep::Poll(0));
    let failed = Polled::Exited { success: false, status: "exit status: 17".to_string() };
    match watch.polled(failed) {
        WaitOutcome::KillOthers(err) => {
            assert!(err.to_string().contains("distributed shard ShardId(0) exited"));
            assert!(err.to_string().ends_with("with exit status: 17"));
        }
        other => panic!("unexpected outcome {other:?}"),
    }
    // the long-running process is the one that is left to be killed
    assert_eq!(watch.next_step(), WaitStep::Poll(0));
}

#[test]
fn distributed_child_wait_kills_control_blocked_child_on_first_failure() {
    let mut watch = ChildWatch::new(vec![ShardId(0), ShardId(1)]);

    // nobody is gone in the first round
    assert_eq!(watch.next_step(), WaitStep::Poll(0));
    assert!(matches!(watch.polled(Polled::Running), WaitOutcome::Keep));
    assert_eq!(watch.next_step(), WaitStep::Poll(1));
    assert!(matches!(watch.polled(Polled::Running), WaitOutcome::Keep));
    assert_eq!(watch.next_step(), WaitStep::Sleep);
    assert_eq!(watch.next_step(), WaitStep::Poll(0));
    let failed = Polled::Exited { success: false, status: "exit status: 17".to_string() };
    match watch.polled(failed) {
        WaitOutcome::KillOthers(err) => {
            assert!(err.to_string().contains("distributed shard ShardId(0) exited"))
        }
        other => panic!("unexpected outcome {other:?}"),
    }
}

#[test]
fn distributed_child_wait_ends_when_all_are_gone() {
    let mut watch = ChildWatch::new(vec![ShardId(0), ShardId(1), ShardId(2)]);
    for _ in 0..3 {
        assert_eq!(watch.next_step(), WaitStep::Poll(0));
        let gone = Polled::Exited { success: true, status: "exit status: 0".to_string() };
        assert!(matches!(watch.polled(gone), WaitOutcome::Remove));
    }
    assert_eq!(watch.next_step(), WaitStep::Done);
}

#[test]
fn distributed_child_wait_reports_a_failed_poll() {
    let mut watch = ChildWatch::new(vec![ShardId(4)]);
    assert_eq!(watch.next_step(), WaitStep::Poll(0));
    match watch.polled(Polled::Failed("no child".to_string())) {
        WaitOutcome::GiveUp(err) => {
            assert_eq!(err.to_string(), "Failed to poll distributed shard ShardId(4)");
            assert_eq!(err.root_cause(), "no child");
        }
        other => panic!("unexpected outcome {other:?}"),
    }
}

#[test]
fn distributed_shutdown_reports_real_malformed_control_child() {
    let mut watch = ChildWatch::new(vec![ShardId(0)]);
    watch.next_step();
    watch.polled(Polled::Exited { success: true, status: "exit status: 0".to_string() });
    assert_eq!(watch.next_step(), WaitStep::Done);
    let control = decode_control_message::<WireControlRequest>(b"nope", "request").unwrap_err();

    let err = handle_distributed_shutdown_results(Ok(()), Err(control)).unwrap_err();
    let message = err.to_string();
    let root_cause = err.root_cause();

    assert!(message.contains("Distributed control server failed"));
    assert!(root_cause.contains("failed to decode distributed control request"));
}

#[test]
fn distributed_shutdown_reports_control_error_after_successful_children() {
    let err = handle_distributed_shutdown_results(
        Ok(()),
        Err(RemotePacketExchangeError::Backend("protocol error".to_string())),
    )
    .unwrap_err();

    assert!(err.to_string().contains("Distributed control server failed"));
}

#[test]
fn distributed_shutdown_reports_child_and_control_errors() {
    let err = handle_distributed_shutdown_results(
        Err(ConfigError::new("child failed".to_string())),
        Err(RemotePacketExchangeError::Backend("protocol error".to_string())),
    )
    .unwrap_err();
    let message = err.to_string();

    assert!(message.contains("child failed"));
    assert!(message.contains("distributed control server also failed"));
    assert!(message.contains("protocol error"));
}

#[test]
fn distributed_shutdown_passes_on_success_and_child_errors() {
    assert!(handle_distributed_shutdown_results(Ok(()), Ok(())).is_ok());
    let err = handle_distributed_shutdown_results(
        Err(ConfigError::new("child failed".to_string())),
        Ok(()),
    )
    .unwrap_err();
    assert_eq!(err.to_string(), "child failed");
}

#[test]
fn shards_are_launched_once() {
    assert!(launches_shards(2, false, false));
    assert!(!launches_shards(1, false, false));
    assert!(!launches_shards(2, true, false));
    assert!(!launches_shards(2, false, true));
    assert!(is_mpi_process(true, false, true, false));
    assert!(!is_mpi_process(false, true, true, true));
    assert!(!is_mpi_process(true, false, false, false));
}

#[test]
fn launch_needs_a_file_and_a_program() {
    let stdin = check_launch(&Some("-".to_string()), 2).unwrap_err();
    assert!(stdin.to_string().contains("does not support reading the config from stdin"));
    let nameless = check_launch(&Some("config.yaml".to_string()), 0).unwrap_err();
    assert_eq!(nameless.to_string(), "missing argv[0] for distributed shard launch");
    assert!(check_launch(&Some("config.yaml".to_string()), 2).is_ok());

    let err = launch_failure(3, "no memory".to_string());
    assert_eq!(err.to_string(), "Failed to launch distributed shard process 3");
    assert_eq!(err.root_cause(), "no memory");
}

#[test]
fn dynamic_runahead_is_refused_in_split_runs() {
    let err = check_runahead(Some(2), Some(true)).unwrap_err();
    assert!(err.to_string().contains("use_dynamic_runahead is not supported in distributed mode"));
    assert!(check_runahead(Some(1), Some(true)).is_ok());
    assert!(check_runahead(None, Some(true)).is_ok());
    assert!(check_runahead(Some(2), Some(false)).is_ok());
    assert!(check_runahead(Some(2), None).is_ok());
}

#[test]
fn mpi_ranks_write_to_directories_of_their_own() {
    let place = mpi_place(1, 2, "shadow.data");
    assert_eq!(place.shard_id, 1);
    assert_eq!(place.shard_count, 2);
    assert_eq!(place.data_directory, "shadow.data.shard-1");
}

#[test]
fn retries_are_limited() {
    let mut retries = Retries::new(2);
    assert_eq!(retries.failed(), RetryStep::Wait);
    assert_eq!(retries.failed(), RetryStep::Wait);
    assert_eq!(retries.failed(), RetryStep::GiveUp);
}

#[test]
fn start_does_what_it_is_asked_for_first() {
    let config = Some("shadow.yaml".to_string());
    assert_eq!(first_step(true, true, &config), FirstStep::ShowBuildInfo);
    assert_eq!(first_step(false, true, &None), FirstStep::CleanSharedMemory);
    assert_eq!(
        first_step(false, false, &config),
        FirstStep::LoadConfig("shadow.yaml".to_string())
    );
    assert_eq!(
        first_step(false, false, &Some("-".to_string())),
        FirstStep::LoadConfig("/dev/stdin".to_string())
    );
    assert_eq!(run_step(true, 2, false, false), RunStep::ShowConfig);
    assert_eq!(run_step(false, 2, false, false), RunStep::LaunchShards);
    assert_eq!(run_step(false, 2, true, false), RunStep::Simulate);
    assert_eq!(run_step(false, 2, false, true), RunStep::Simulate);
    assert_eq!(run_step(false, 1, false, false), RunStep::Simulate);
}

#[test]
fn start_warns_of_rights_and_levels() {
    assert_eq!(privilege(true, true), Privilege::Root);
    assert_eq!(privilege(false, true), Privilege::EffectiveRoot);
    assert_eq!(privilege(false, false), Privilege::Ordinary);
    assert!(is_compiled_out(LogLevel::Trace, LogLevel::Debug));
    assert!(!is_compiled_out(LogLevel::Info, LogLevel::Info));
}
