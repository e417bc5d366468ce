//! Launching the processes of a run that is split into shards.

use vstd::prelude::*;
use vstd::string::*;

use crate::distributed::error::{ExchangeFailure, RemotePacketExchangeError};
use crate::sim_config::error::ConfigError;
use crate::text::{
    begins_with, decimal, decimal_text, push_decimal, push_signed_decimal, same_text,
    signed_decimal, text_begins_with,
};

verus! {

/// An argument of the command line: a text, or bytes that are none.
#[derive(Debug, PartialEq, Eq)]
pub enum Argument {
    Text(String),
    Bytes(Vec<u8>),
}

/// What an argument holds.
#[verifier::ext_equal]
pub enum ArgumentModel {
    Text(Seq<char>),
    Bytes(Seq<u8>),
}

impl View for Argument {
    type V = ArgumentModel;

    open spec fn view(&self) -> ArgumentModel {
        match *self {
            Argument::Text(text) => ArgumentModel::Text(text@),
            Argument::Bytes(bytes) => ArgumentModel::Bytes(bytes@),
        }
    }
}

impl Clone for Argument {
    fn clone(&self) -> (copy: Self)
        ensures
            copy@ == self@,
    {
        match self {
            Argument::Text(text) => Argument::Text(text.as_str().to_owned()),
            Argument::Bytes(bytes) => {
                let copied = bytes.clone();
                assert(copied@ =~= bytes@);
                Argument::Bytes(copied)
            },
        }
    }
}

/// What arguments hold.
pub open spec fn models(args: Seq<Argument>) -> Seq<ArgumentModel> {
    Seq::new(args.len(), |i: int| args[i]@)
}

/// Whether an argument is a setting of a shard process, whose value is the next argument.
pub open spec fn is_setting(arg: ArgumentModel) -> bool {
    match arg {
        ArgumentModel::Text(text) => {
            ||| text == "--distributed-shard-id"@
            ||| text == "--distributed-shard-count"@
            ||| text == "--distributed-ipc-socket-dir"@
            ||| text == "--data-directory"@
            ||| text == "-d"@
        },
        ArgumentModel::Bytes(_) => false,
    }
}

/// Whether a text is an option with its value behind an equals sign.
pub open spec fn is_inline(text: Seq<char>, name: Seq<char>) -> bool {
    begins_with(text, name + "="@)
}

/// Whether an argument is a setting of a shard process together with its value.
pub open spec fn is_inline_setting(arg: ArgumentModel) -> bool {
    match arg {
        ArgumentModel::Text(text) => {
            ||| is_inline(text, "--distributed-shard-id"@)
            ||| is_inline(text, "--distributed-shard-count"@)
            ||| is_inline(text, "--distributed-ipc-socket-dir"@)
            ||| is_inline(text, "--data-directory"@)
        },
        ArgumentModel::Bytes(_) => false,
    }
}

/// The arguments without settings of a shard process and their values.
pub open spec fn without_settings(args: Seq<ArgumentModel>) -> Seq<ArgumentModel>
    decreases args.len(),
{
    if args.len() == 0 {
        Seq::empty()
    } else if is_setting(args[0]) {
        if args.len() == 1 {
            Seq::empty()
        } else {
            without_settings(args.skip(2))
        }
    } else if is_inline_setting(args[0]) {
        without_settings(args.skip(1))
    } else {
        seq![args[0]] + without_settings(args.skip(1))
    }
}

/// The arguments behind the first, which is the name of the program.
pub open spec fn behind_program(args: Seq<ArgumentModel>) -> Seq<ArgumentModel> {
    if args.len() == 0 {
        args
    } else {
        args.skip(1)
    }
}

/// The directory in which a shard writes its output.
pub open spec fn shard_directory(base_data_dir: Seq<char>, shard: Seq<char>) -> Seq<char> {
    base_data_dir + ".shard-"@ + shard
}

/// The settings of a shard process.
pub open spec fn shard_settings(
    shard_id: u32,
    shard_count: u32,
    socket_dir: ArgumentModel,
    base_data_dir: Seq<char>,
) -> Seq<ArgumentModel> {
    seq![
        ArgumentModel::Text("--distributed-shard-id"@),
        ArgumentModel::Text(decimal(shard_id as nat)),
        ArgumentModel::Text("--distributed-shard-count"@),
        ArgumentModel::Text(decimal(shard_count as nat)),
        ArgumentModel::Text("--distributed-ipc-socket-dir"@),
        socket_dir,
        ArgumentModel::Text("--data-directory"@),
        ArgumentModel::Text(shard_directory(base_data_dir, decimal(shard_id as nat))),
    ]
}

/// Whether an argument is a setting of a shard process, whose value is the next argument.
pub fn is_distributed_child_arg(arg: &Argument) -> (setting: bool)
    ensures
        setting == is_setting(arg@),
{
    match arg {
        Argument::Text(text) => {
            let text = text.as_str();
            same_text(text, "--distributed-shard-id") || same_text(
                text,
                "--distributed-shard-count",
            ) || same_text(text, "--distributed-ipc-socket-dir") || same_text(
                text,
                "--data-directory",
            ) || same_text(text, "-d")
        },
        Argument::Bytes(_) => false,
    }
}

fn begins_with_option(text: &str, name: &str) -> (found: bool)
    ensures
        found == is_inline(text@, name@),
{
    let mut front = name.to_owned();
    front.append("=");
    text_begins_with(text, front.as_str())
}

/// Whether an argument is a setting of a shard process together with its value.
pub fn is_distributed_child_arg_with_inline_value(arg: &Argument) -> (setting: bool)
    ensures
        setting == is_inline_setting(arg@),
{
    match arg {
        Argument::Text(text) => {
            let text = text.as_str();
            begins_with_option(text, "--distributed-shard-id") || begins_with_option(
                text,
                "--distributed-shard-count",
            ) || begins_with_option(text, "--distributed-ipc-socket-dir") || begins_with_option(
                text,
                "--data-directory",
            )
        },
        Argument::Bytes(_) => false,
    }
}

fn text_argument(text: &str) -> (arg: Argument)
    ensures
        arg@ == ArgumentModel::Text(text@),
{
    Argument::Text(text.to_owned())
}

/// The directory in which a shard writes its output, as a text.
fn shard_directory_text(base_data_dir: &str, shard: &str) -> (text: String)
    ensures
        text@ == shard_directory(base_data_dir@, shard@),
{
    let mut text = base_data_dir.to_owned();
    text.append(".shard-");
    text.append(shard);
    text
}

/// The arguments of a shard process: those of the launching process, without its name and without
/// settings of a shard process, and behind them the settings of the shard.
pub fn distributed_child_args(
    args: &[Argument],
    shard_id: u32,
    shard_count: u32,
    socket_dir: &Argument,
    base_data_dir: &str,
) -> (child_args: Vec<Argument>)
    ensures
        models(child_args@) == without_settings(behind_program(models(args@))) + shard_settings(
            shard_id,
            shard_count,
            socket_dir@,
            base_data_dir@,
        ),
{
    let ghost all = models(args@);
    let ghost kept = without_settings(behind_program(all));
    let mut child_args: Vec<Argument> = Vec::new();
    let mut i: usize = 1;
    proof {
        assert(models(child_args@) =~= Seq::<ArgumentModel>::empty());
        assert(models(child_args@) + kept =~= kept);
    }
    while i < args.len()
        invariant
            1 <= i,
            all == models(args@),
            kept == without_settings(behind_program(all)),
            args@.len() >= 1 ==> i <= args@.len(),
            i < args@.len() ==> kept == models(child_args@) + without_settings(all.skip(i as int)),
            i >= args@.len() ==> kept == models(child_args@),
        decreases args@.len() - i,
    {
        let ghost rest = all.skip(i as int);
        assert(rest[0] == args@[i as int]@);
        assert(rest.skip(1) =~= all.skip(i + 1));
        if is_distributed_child_arg(&args[i]) {
            if i + 1 == args.len() {
                assert(models(child_args@) + Seq::<ArgumentModel>::empty() =~= models(child_args@));
                i = args.len();
            } else {
                assert(rest.skip(2) =~= all.skip(i + 2));
                i = i + 2;
                proof {
                    if i == args@.len() {
                        assert(all.skip(i as int) =~= Seq::<ArgumentModel>::empty());
                        assert(models(child_args@) + Seq::<ArgumentModel>::empty() =~= models(
                            child_args@,
                        ));
                    }
                }
            }
        } else if is_distributed_child_arg_with_inline_value(&args[i]) {
            i = i + 1;
            proof {
                if i == args@.len() {
                    assert(all.skip(i as int) =~= Seq::<ArgumentModel>::empty());
                    assert(models(child_args@) + Seq::<ArgumentModel>::empty() =~= models(
                        child_args@,
                    ));
                }
            }
        } else {
            let ghost before = models(child_args@);
            child_args.push(args[i].clone());
            i = i + 1;
            proof {
                let rest_kept = without_settings(all.skip(i as int));
                assert(models(child_args@) =~= before + seq![rest[0]]);
                assert(before + (seq![rest[0]] + rest_kept) =~= models(child_args@) + rest_kept);
                if i == args@.len() {
                    assert(all.skip(i as int) =~= Seq::<ArgumentModel>::empty());
                    assert(models(child_args@) + rest_kept =~= models(child_args@));
                }
            }
        }
    }
    let shard = decimal_text(shard_id as u64);
    child_args.push(text_argument("--distributed-shard-id"));
    child_args.push(text_argument(shard.as_str()));
    child_args.push(text_argument("--distributed-shard-count"));
    child_args.push(text_argument(decimal_text(shard_count as u64).as_str()));
    child_args.push(text_argument("--distributed-ipc-socket-dir"));
    child_args.push(socket_dir.clone());
    child_args.push(text_argument("--data-directory"));
    child_args.push(
        text_argument(shard_directory_text(base_data_dir, shard.as_str()).as_str()),
    );
    assert(models(child_args@) =~= kept + shard_settings(
        shard_id,
        shard_count,
        socket_dir@,
        base_data_dir@,
    ));
    child_args
}

/// No setting of a shard process is left among arguments without settings.
pub proof fn law_no_setting_is_left(args: Seq<ArgumentModel>, i: int)
    requires
        0 <= i < without_settings(args).len(),
    ensures
        !is_setting(without_settings(args)[i]),
        !is_inline_setting(without_settings(args)[i]),
    decreases args.len(),
{
    if is_setting(args[0]) {
        if args.len() > 1 {
            law_no_setting_is_left(args.skip(2), i);
        }
    } else if is_inline_setting(args[0]) {
        law_no_setting_is_left(args.skip(1), i);
    } else if i > 0 {
        let rest = without_settings(args.skip(1));
        assert(without_settings(args)[i] == rest[i - 1]);
        law_no_setting_is_left(args.skip(1), i - 1);
    }
}

/// Arguments that are no settings stay, whatever comes behind them.
proof fn lemma_kept_front(front: Seq<ArgumentModel>, back: Seq<ArgumentModel>)
    requires
        forall|i: int|
            0 <= i < front.len() ==> !is_setting(#[trigger] front[i]) && !is_inline_setting(
                front[i],
            ),
    ensures
        without_settings(front + back) == front + without_settings(back),
    decreases front.len(),
{
    if front.len() == 0 {
        assert(front + back =~= back);
        assert(front + without_settings(back) =~= without_settings(back));
    } else {
        let rest = front.skip(1);
        assert forall|i: int| 0 <= i < rest.len() implies !is_setting(#[trigger] rest[i])
            && !is_inline_setting(rest[i]) by {
            assert(rest[i] == front[i + 1]);
        }
        lemma_kept_front(rest, back);
        assert((front + back)[0] == front[0]);
        assert((front + back).skip(1) =~= rest + back);
        assert(seq![front[0]] + (rest + without_settings(back)) =~= front + without_settings(back));
    }
}

/// The settings of a shard process are all recognized as such.
proof fn lemma_settings_are_dropped(
    shard_id: u32,
    shard_count: u32,
    socket_dir: ArgumentModel,
    base_data_dir: Seq<char>,
)
    ensures
        without_settings(shard_settings(shard_id, shard_count, socket_dir, base_data_dir))
            == Seq::<ArgumentModel>::empty(),
{
    let all = shard_settings(shard_id, shard_count, socket_dir, base_data_dir);
    let second = all.skip(2);
    let third = second.skip(2);
    let fourth = third.skip(2);
    assert(second[0] == all[2]);
    assert(third[0] == all[4]);
    assert(fourth[0] == all[6]);
    assert(fourth.skip(2) =~= Seq::<ArgumentModel>::empty());
    assert(without_settings(fourth.skip(2)) == Seq::<ArgumentModel>::empty());
    assert(without_settings(fourth) == Seq::<ArgumentModel>::empty());
    assert(without_settings(third) == Seq::<ArgumentModel>::empty());
    assert(without_settings(second) == Seq::<ArgumentModel>::empty());
}

/// The settings of a shard process replace earlier ones: launching from the arguments of a shard
/// process gives the same arguments as launching from those of its parent.
pub proof fn law_settings_are_replaced(
    args: Seq<ArgumentModel>,
    shard_id: u32,
    shard_count: u32,
    socket_dir: ArgumentModel,
    base_data_dir: Seq<char>,
)
    ensures
        without_settings(
            without_settings(args) + shard_settings(
                shard_id,
                shard_count,
                socket_dir,
                base_data_dir,
            ),
        ) == without_settings(args),
{
    let kept = without_settings(args);
    let settings = shard_settings(shard_id, shard_count, socket_dir, base_data_dir);
    assert forall|i: int| 0 <= i < kept.len() implies !is_setting(#[trigger] kept[i])
        && !is_inline_setting(kept[i]) by {
        law_no_setting_is_left(args, i);
    }
    lemma_kept_front(kept, settings);
    lemma_settings_are_dropped(shard_id, shard_count, socket_dir, base_data_dir);
    assert(kept + Seq::<ArgumentModel>::empty() =~= kept);
}

/// Whether a process is one of several that MPI launched: where MPI is built in, one of the size
/// variables of its implementations is set.
pub fn is_mpi_process(mpi_built_in: bool, ompi_size: bool, pmi_size: bool, pmix_rank: bool) -> (mpi:
    bool)
    ensures
        mpi == (mpi_built_in && (ompi_size || pmi_size || pmix_rank)),
{
    mpi_built_in && (ompi_size || pmi_size || pmix_rank)
}

/// Whether a process launches shard processes in place of a simulation: the run is split, and the
/// process itself was launched neither as a shard process nor by MPI.
pub fn launches_shards(shard_count: u32, has_socket_dir: bool, mpi_process: bool) -> (launches:
    bool)
    ensures
        launches == (shard_count > 1 && !has_socket_dir && !mpi_process),
{
    shard_count > 1 && !has_socket_dir && !mpi_process
}

/// Checks that shard processes can be launched: they cannot share the standard input, and they
/// need the name of the program.
pub fn check_launch(config: &Option<String>, arg_count: usize) -> (checked: Result<(), ConfigError>)
    ensures
        match checked {
            Ok(()) => !reads_standard_input(*config) && arg_count > 0,
            Err(e) => e@ == (if reads_standard_input(*config) {
                seq![
                    "distributed shard launching does not support reading the config from stdin"@,
                ]
            } else {
                seq!["missing argv[0] for distributed shard launch"@]
            }) && (reads_standard_input(*config) || arg_count == 0),
        },
{
    if let Some(name) = config {
        if same_text(name.as_str(), "-") {
            return Err(
                ConfigError::new(
                    "distributed shard launching does not support reading the config from stdin".to_owned(),
                ),
            );
        }
    }
    if arg_count == 0 {
        return Err(
            ConfigError::new("missing argv[0] for distributed shard launch".to_owned()),
        );
    }
    Ok(())
}

/// Whether the configuration is to be read from the standard input.
pub open spec fn reads_standard_input(config: Option<String>) -> bool {
    match config {
        Some(name) => name@ == "-"@,
        None => false,
    }
}

/// The failure to launch a shard process.
pub fn launch_failure(shard_id: u32, cause: String) -> (error: ConfigError)
    ensures
        error@ == seq![
            "Failed to launch distributed shard process "@ + decimal(shard_id as nat),
            cause@,
        ],
{
    let mut text = String::new();
    text.append("Failed to launch distributed shard process ");
    push_decimal(&mut text, shard_id as u64);
    let ghost said = cause@;
    let error = ConfigError::new(cause).context(text);
    assert("Failed to launch distributed shard process "@ + decimal(shard_id as nat) =~= text@);
    assert(error@ =~= seq![
        "Failed to launch distributed shard process "@ + decimal(shard_id as nat),
        said,
    ]);
    error
}

/// Why dynamic runahead is refused in a run of several shards.
pub open spec fn dynamic_runahead_text() -> Seq<char> {
    "use_dynamic_runahead is not supported in distributed mode (distributed_shard_count > 1): per-shard runahead would diverge and break cross-shard event ordering. Disable dynamic runahead and use a fixed runahead instead."@
}

/// Checks that runahead is fixed where the run is split. Each shard sees only the latencies of its
/// own hosts, so that dynamic runahead would give the shards different windows.
pub fn check_runahead(shard_count: Option<u32>, use_dynamic_runahead: Option<bool>) -> (checked:
    Result<(), ConfigError>)
    ensures
        match checked {
            Ok(()) => !(shard_count matches Some(n) && n > 1) || use_dynamic_runahead != Some(true),
            Err(e) => {
                &&& shard_count matches Some(n) && n > 1
                &&& use_dynamic_runahead == Some(true)
                &&& e@ == seq![dynamic_runahead_text()]
            },
        },
{
    let several = match shard_count {
        Some(n) => n > 1,
        None => false,
    };
    let dynamic = match use_dynamic_runahead {
        Some(used) => used,
        None => false,
    };
    if several && dynamic {
        return Err(
            ConfigError::new(
                "use_dynamic_runahead is not supported in distributed mode (distributed_shard_count > 1): per-shard runahead would diverge and break cross-shard event ordering. Disable dynamic runahead and use a fixed runahead instead.".to_owned(),
            ),
        );
    }
    Ok(())
}

/// The place of a process that MPI launched, with the directory for its output.
#[derive(Debug)]
pub struct MpiPlace {
    pub shard_id: u32,
    pub shard_count: u32,
    pub data_directory: String,
}

/// The place of a process that MPI launched: its rank among all processes, and a directory of its
/// own.
pub fn mpi_place(rank: i32, size: i32, data_directory: &str) -> (place: MpiPlace)
    ensures
        place.shard_id == rank as u32,
        place.shard_count == size as u32,
        place.data_directory@ == shard_directory(data_directory@, signed_decimal(rank as int)),
{
    let mut number = String::new();
    push_signed_decimal(&mut number, rank as i64);
    assert(number@ =~= signed_decimal(rank as int));
    MpiPlace {
        shard_id: rank as u32,
        shard_count: size as u32,
        data_directory: shard_directory_text(data_directory, number.as_str()),
    }
}

/// How a launch ends: the failure of a shard process goes before that of the control server, and
/// two failures are told together.
pub open spec fn shutdown_messages(
    child_failure: Option<Seq<Seq<char>>>,
    control_failure: Option<ExchangeFailure>,
) -> Option<Seq<Seq<char>>> {
    match (child_failure, control_failure) {
        (None, None) => None,
        (None, Some(control)) => Some(
            seq!["Distributed control server failed"@, control.message()],
        ),
        (Some(child), None) => Some(child),
        (Some(child), Some(control)) => Some(
            seq![child[0] + "; distributed control server also failed: "@ + control.message()],
        ),
    }
}

/// The messages of a result that is a failure.
pub open spec fn config_failure(result: Result<(), ConfigError>) -> Option<Seq<Seq<char>>> {
    match result {
        Ok(()) => None,
        Err(e) => Some(e@),
    }
}

/// The failure of a result that is one.
pub open spec fn exchange_failure(result: Result<(), RemotePacketExchangeError>) -> Option<
    ExchangeFailure,
> {
    match result {
        Ok(()) => None,
        Err(e) => Some(e@),
    }
}

/// How a launch ends, given how the shard processes and the control server ended.
pub fn handle_distributed_shutdown_results(
    child_result: Result<(), ConfigError>,
    control_result: Result<(), RemotePacketExchangeError>,
) -> (result: Result<(), ConfigError>)
    ensures
        config_failure(result) == shutdown_messages(
            config_failure(child_result),
            exchange_failure(control_result),
        ),
{
    match (child_result, control_result) {
        (Ok(()), Ok(())) => Ok(()),
        (Ok(()), Err(control)) => {
            let error = ConfigError::new(control.to_string()).context(
                "Distributed control server failed".to_owned(),
            );
            assert(error@ =~= seq!["Distributed control server failed"@, control@.message()]);
            Err(error)
        },
        (Err(child), Ok(())) => Err(child),
        (Err(child), Err(control)) => {
            let mut text = child.to_string();
            text.append("; distributed control server also failed: ");
            text.append(control.to_string().as_str());
            assert(text@ =~= child@[0] + "; distributed control server also failed: "@
                + control@.message());
            Err(ConfigError::new(text))
        },
    }
}

/// The settings of a shard are five options, of which four can carry their value behind an equals
/// sign. Bytes that are no text are no setting.
pub proof fn law_settings_of_a_shard(text: Seq<char>, bytes: Seq<u8>)
    ensures
        is_setting(ArgumentModel::Text(text)) <==> (text == "-d"@ || text == "--data-directory"@
            || text == "--distributed-shard-id"@ || text == "--distributed-shard-count"@ || text
            == "--distributed-ipc-socket-dir"@),
        is_inline_setting(ArgumentModel::Text(text)) <==> (begins_with(
            text,
            "--data-directory="@,
        ) || begins_with(text, "--distributed-shard-id="@) || begins_with(
            text,
            "--distributed-shard-count="@,
        ) || begins_with(text, "--distributed-ipc-socket-dir="@)),
        !is_setting(ArgumentModel::Bytes(bytes)),
        !is_inline_setting(ArgumentModel::Bytes(bytes)),
{
    reveal_strlit("=");
    reveal_strlit("--data-directory");
    reveal_strlit("--data-directory=");
    reveal_strlit("--distributed-shard-id");
    reveal_strlit("--distributed-shard-id=");
    reveal_strlit("--distributed-shard-count");
    reveal_strlit("--distributed-shard-count=");
    reveal_strlit("--distributed-ipc-socket-dir");
    reveal_strlit("--distributed-ipc-socket-dir=");
    assert("--data-directory"@ + "="@ =~= "--data-directory="@);
    assert("--distributed-shard-id"@ + "="@ =~= "--distributed-shard-id="@);
    assert("--distributed-shard-count"@ + "="@ =~= "--distributed-shard-count="@);
    assert("--distributed-ipc-socket-dir"@ + "="@ =~= "--distributed-ipc-socket-dir="@);
}

/// Arguments that are no settings stay, in their order. A setting goes with the argument behind
/// it, and a setting with its value goes alone.
pub proof fn law_other_arguments_stay(
    front: Seq<ArgumentModel>,
    setting: ArgumentModel,
    value: ArgumentModel,
    inline: ArgumentModel,
    back: Seq<ArgumentModel>,
)
    requires
        forall|i: int|
            0 <= i < front.len() ==> !is_setting(#[trigger] front[i]) && !is_inline_setting(
                front[i],
            ),
        is_setting(setting),
        is_inline_setting(inline),
        !is_setting(inline),
    ensures
        without_settings(front) == front,
        without_settings(front + back) == front + without_settings(back),
        without_settings(front + (seq![setting, value] + back)) == front + without_settings(back),
        without_settings(front + (seq![inline] + back)) == front + without_settings(back),
        without_settings(front + seq![setting]) == front,
{
    let none = Seq::<ArgumentModel>::empty();
    lemma_kept_front(front, none);
    assert(front + none =~= front);
    lemma_kept_front(front, back);
    let with_value = seq![setting, value] + back;
    lemma_kept_front(front, with_value);
    assert(with_value.skip(2) =~= back);
    assert(with_value[0] == setting);
    let alone = seq![inline] + back;
    lemma_kept_front(front, alone);
    assert(alone.skip(1) =~= back);
    assert(alone[0] == inline);
    lemma_kept_front(front, seq![setting]);
    assert(without_settings(seq![setting]) == none);
}

/// A shard is told its number, how many shards there are, where the sockets are, and a data
/// directory that is the one of the run with the number of the shard behind it.
pub proof fn law_settings_tell_the_shard_its_place(
    shard_id: u32,
    shard_count: u32,
    socket_dir: ArgumentModel,
    base_data_dir: Seq<char>,
)
    ensures
        ({
            let settings = shard_settings(shard_id, shard_count, socket_dir, base_data_dir);
            &&& settings.len() == 8
            &&& settings[0] == ArgumentModel::Text("--distributed-shard-id"@)
            &&& settings[1] == ArgumentModel::Text(decimal(shard_id as nat))
            &&& settings[2] == ArgumentModel::Text("--distributed-shard-count"@)
            &&& settings[3] == ArgumentModel::Text(decimal(shard_count as nat))
            &&& settings[4] == ArgumentModel::Text("--distributed-ipc-socket-dir"@)
            &&& settings[5] == socket_dir
            &&& settings[6] == ArgumentModel::Text("--data-directory"@)
            &&& settings[7] == ArgumentModel::Text(
                base_data_dir + ".shard-"@ + decimal(shard_id as nat),
            )
        }),
{
}

/// The name of the program is the one argument that is not looked at.
pub proof fn law_program_is_left_out(program: ArgumentModel, args: Seq<ArgumentModel>)
    ensures
        behind_program(seq![program] + args) == args,
        behind_program(Seq::<ArgumentModel>::empty()) == Seq::<ArgumentModel>::empty(),
{
    assert((seq![program] + args).skip(1) =~= args);
}

/// A run ends well exactly where shards and control server did. The failure of the shards comes
/// first in what is said.
pub proof fn law_failures_at_the_end(
    child_failure: Option<Seq<Seq<char>>>,
    control_failure: Option<ExchangeFailure>,
)
    ensures
        shutdown_messages(child_failure, control_failure) is None <==> child_failure is None
            && control_failure is None,
        control_failure is None ==> shutdown_messages(child_failure, control_failure)
            == child_failure,
        child_failure is None && control_failure is Some ==> shutdown_messages(
            child_failure,
            control_failure,
        ) == Some(seq!["Distributed control server failed"@, control_failure->0.message()]),
        child_failure is Some && control_failure is Some ==> (shutdown_messages(
            child_failure,
            control_failure,
        ) matches Some(messages) && messages.len() == 1 && messages[0] == child_failure->0[0]
            + "; distributed control server also failed: "@ + control_failure->0.message()),
{
}

/// What arguments hold stands in the order of the arguments.
pub proof fn law_models_stand_in_the_order_of_arguments(args: Seq<Argument>, i: int)
    requires
        0 <= i < args.len(),
    ensures
        models(args).len() == args.len(),
        args[i] matches Argument::Text(text) ==> models(args)[i] == ArgumentModel::Text(text@),
        args[i] matches Argument::Bytes(bytes) ==> models(args)[i] == ArgumentModel::Bytes(bytes@),
{
}

} // verus!
