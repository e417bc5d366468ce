//! What the simulator does when it is started.

use vstd::prelude::*;
use vstd::string::*;

use crate::config_file::config_filename;
use crate::launch::launches_shards;
use crate::sim_config::options::LogLevel;

verus! {

/// What is done before the configuration is known.
#[derive(Debug, PartialEq, Eq)]
pub enum FirstStep {
    /// Show how the simulator was built, and end.
    ShowBuildInfo,
    /// Remove shared memory that earlier runs left behind, and end.
    CleanSharedMemory,
    /// Load the configuration from a file.
    LoadConfig(String),
}

/// What is done before the configuration is known. The build is shown before shared memory is
/// cleaned, and both go before a simulation.
pub fn first_step(show_build_info: bool, shm_cleanup: bool, config: &Option<String>) -> (step:
    FirstStep)
    requires
        !show_build_info && !shm_cleanup ==> config is Some,
    ensures
        if show_build_info {
            step is ShowBuildInfo
        } else if shm_cleanup {
            step is CleanSharedMemory
        } else {
            step matches FirstStep::LoadConfig(filename) && filename@ == (if config->0@ == "-"@ {
                "/dev/stdin"@
            } else {
                config->0@
            })
        },
{
    if show_build_info {
        return FirstStep::ShowBuildInfo;
    }
    if shm_cleanup {
        return FirstStep::CleanSharedMemory;
    }
    FirstStep::LoadConfig(config_filename(config.as_ref().unwrap().as_str()))
}

/// What is done once the configuration is known.
#[derive(Clone, Copy, Debug, PartialEq, Eq, Structural)]
pub enum RunStep {
    /// Show the configuration, and end.
    ShowConfig,
    /// Launch a process for each shard, and wait for them.
    LaunchShards,
    /// Run the simulation, or the part of it that a shard has.
    Simulate,
}

/// What is done once the configuration is known. Shards are launched where the run is split, unless
/// the process itself was launched as a shard, with a socket directory or by MPI.
pub open spec fn planned_step(
    show_config: bool,
    shard_count: u32,
    has_socket_dir: bool,
    mpi_process: bool,
) -> RunStep {
    if show_config {
        RunStep::ShowConfig
    } else if shard_count > 1 && !has_socket_dir && !mpi_process {
        RunStep::LaunchShards
    } else {
        RunStep::Simulate
    }
}

/// What is done once the configuration is known.
pub fn run_step(show_config: bool, shard_count: u32, has_socket_dir: bool, mpi_process: bool) -> (
step: RunStep)
    ensures
        step == planned_step(show_config, shard_count, has_socket_dir, mpi_process),
{
    if show_config {
        RunStep::ShowConfig
    } else if launches_shards(shard_count, has_socket_dir, mpi_process) {
        RunStep::LaunchShards
    } else {
        RunStep::Simulate
    }
}

/// A process that was launched as a shard, with a socket directory or by MPI, launches no shards
/// itself.
pub proof fn law_shards_launch_no_shards(
    show_config: bool,
    shard_count: u32,
    has_socket_dir: bool,
    mpi_process: bool,
)
    requires
        has_socket_dir || mpi_process,
    ensures
        planned_step(show_config, shard_count, has_socket_dir, mpi_process)
            != RunStep::LaunchShards,
{
}

/// Whose rights the simulator runs with.
#[derive(Clone, Copy, Debug, PartialEq, Eq, Structural)]
pub enum Privilege {
    Root,
    EffectiveRoot,
    Ordinary,
}

/// Whose rights the simulator runs with.
pub fn privilege(uid_is_root: bool, euid_is_root: bool) -> (privilege: Privilege)
    ensures
        privilege == (if uid_is_root {
            Privilege::Root
        } else if euid_is_root {
            Privilege::EffectiveRoot
        } else {
            Privilege::Ordinary
        }),
{
    if uid_is_root {
        Privilege::Root
    } else if euid_is_root {
        Privilege::EffectiveRoot
    } else {
        Privilege::Ordinary
    }
}

/// How verbose a level is; each level includes the less verbose ones.
pub open spec fn verbosity(level: LogLevel) -> int {
    match level {
        LogLevel::Error => 1,
        LogLevel::Warn => 2,
        LogLevel::Info => 3,
        LogLevel::Debug => 4,
        LogLevel::Trace => 5,
    }
}

fn verbosity_of(level: LogLevel) -> (number: u8)
    ensures
        number == verbosity(level),
{
    match level {
        LogLevel::Error => 1,
        LogLevel::Warn => 2,
        LogLevel::Info => 3,
        LogLevel::Debug => 4,
        LogLevel::Trace => 5,
    }
}

/// Whether messages of a level are missing, since only less verbose ones were compiled in.
pub fn is_compiled_out(level: LogLevel, compiled_in: LogLevel) -> (missing: bool)
    ensures
        missing == (verbosity(level) > verbosity(compiled_in)),
{
    verbosity_of(level) > verbosity_of(compiled_in)
}

/// The configuration is shown where that is asked for. Else shards are launched exactly where there
/// are several and this process is none of them, and in all other cases the simulation runs.
pub proof fn law_step_of_a_run(
    show_config: bool,
    shard_count: u32,
    has_socket_dir: bool,
    mpi_process: bool,
)
    ensures
        planned_step(show_config, shard_count, has_socket_dir, mpi_process) == RunStep::ShowConfig
            <==> show_config,
        planned_step(show_config, shard_count, has_socket_dir, mpi_process) == RunStep::LaunchShards
            <==> !show_config && shard_count >= 2 && !has_socket_dir && !mpi_process,
        planned_step(show_config, shard_count, has_socket_dir, mpi_process) == RunStep::Simulate
            <==> !show_config && (shard_count < 2 || has_socket_dir || mpi_process),
{
}

/// Each level says more than the one before it: errors, warnings, information, debugging, tracing.
pub proof fn law_levels_ascend(level: LogLevel)
    ensures
        verbosity(LogLevel::Error) < verbosity(LogLevel::Warn) < verbosity(LogLevel::Info)
            < verbosity(LogLevel::Debug) < verbosity(LogLevel::Trace),
        verbosity(LogLevel::Error) <= verbosity(level) <= verbosity(LogLevel::Trace),
{
}

} // verus!
