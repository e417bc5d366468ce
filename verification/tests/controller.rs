use shadow_rs::controller::{
    Controller, ExchangeChoice, SimController, choose_exchange, run_outcome,
};
use shadow_rs::distributed::error::RemotePacketExchangeError;
use shadow_rs::distributed::exchange::DistributedSynchronizer;
use shadow_rs::sim_stats::{LocalSimStats, SharedSimStats, SimStatsForOutput, cut_label_text};
use shadow_rs::text::{decimal_text, text_begins_with, text_contains};
use shadow_rs::time::{EmulatedTime, SimulationTime};
use shadow_rs::transport::synchronizer::ControlResponse;

/// Other shards whose next event is known.
#[derive(Debug)]
struct Peers {
    next: EmulatedTime,
    fails: bool,
}

impl DistributedSynchronizer for Peers {
    fn wait(&mut self) -> Result<(), RemotePacketExchangeError> {
        if self.fails {
            return Err(RemotePacketExchangeError::Backend("gone".to_string()));
        }
        Ok(())
    }

    fn wait_for_global_min_next_event(
        &mut self,
        local: EmulatedTime,
    ) -> Result<EmulatedTime, RemotePacketExchangeError> {
        self.wait()?;
        Ok(if self.next.0 < local.0 { self.next } else { local })
    }
}

fn at(nanos: u64) -> EmulatedTime {
    EmulatedTime::at_simulation_nanos(nanos)
}

#[test]
fn windows_advance_by_the_runahead() {
    let mut controller: Controller<Peers> =
        Controller::new(SimulationTime::from_nanos(1000), None);
    assert_eq!(controller.end_time(), at(1000));
    assert!(controller.remote_packet_send_complete().is_ok());
    let runahead = SimulationTime::from_nanos(300);
    let next = |c: &mut Controller<Peers>, t| c.manager_finished_current_round(at(t), runahead);
    assert_eq!(next(&mut controller, 100).unwrap(), Some((at(100), at(400))));
    assert_eq!(next(&mut controller, 900).unwrap(), Some((at(900), at(1000))));
    assert_eq!(next(&mut controller, 1000).unwrap(), None);
}

#[test]
fn windows_begin_with_the_earliest_event_of_all_shards() {
    let peers = Peers { next: at(50), fails: false };
    let mut controller = Controller::new(SimulationTime::from_nanos(1000), Some(peers));
    let runahead = SimulationTime::from_nanos(10);
    let next = controller.manager_finished_current_round(at(100), runahead).unwrap();
    assert_eq!(next, Some((at(50), at(60))));
    assert!(controller.remote_packet_send_complete().is_ok());

    let peers = Peers { next: at(50), fails: true };
    let mut controller = Controller::new(SimulationTime::from_nanos(1000), Some(peers));
    assert!(controller.manager_finished_current_round(at(100), runahead).is_err());
    assert!(controller.remote_packet_send_complete().is_err());
}

#[test]
fn exchange_follows_the_launch() {
    assert_eq!(choose_exchange(true, true, 2), ExchangeChoice::UnixSocket);
    assert_eq!(choose_exchange(false, true, 2), ExchangeChoice::Mpi);
    assert_eq!(choose_exchange(false, true, 1), ExchangeChoice::Noop);
    assert_eq!(choose_exchange(false, false, 2), ExchangeChoice::Noop);
}

#[test]
fn failed_processes_fail_the_run() {
    assert!(run_outcome(0).is_ok());
    assert_eq!(
        run_outcome(3).unwrap_err(),
        "3 managed processes in unexpected final state"
    );
}

#[test]
fn local_stats_are_added_and_cleared() {
    let mut shared = SharedSimStats::new();
    let mut local = LocalSimStats::new();
    local.alloc_counts.add_value("Packet", 4);
    shared.add_from_local_stats(&mut local);
    shared.add_from_local_stats(&mut local);
    assert_eq!(shared.alloc_counts.get("Packet"), 4);
    let output = SimStatsForOutput::new(&mut shared);
    assert_eq!(output.objects.alloc_counts.get("Packet"), 4);
    assert_eq!(cut_label_text(3, 14), "3->14");
}

#[test]
fn emulated_times_have_numbers() {
    assert_eq!(EmulatedTime::from_c_emutime(u64::MAX), None);
    assert_eq!(EmulatedTime::to_c_emutime(None), u64::MAX);
    let time = at(5);
    assert_eq!(EmulatedTime::from_c_emutime(EmulatedTime::to_c_emutime(Some(time))), Some(time));
    assert_eq!(time.duration_since(&EmulatedTime::simulation_start()).as_nanos(), 5);
}

#[test]
fn texts_are_searched() {
    assert_eq!(decimal_text(0), "0");
    assert_eq!(decimal_text(u64::MAX), "18446744073709551615");
    assert!(text_begins_with("x-ray", "x-"));
    assert!(text_contains("control channel closed", "channel"));
    assert!(!text_contains("control", "channel"));
}

#[test]
fn control_errors_that_are_no_text_are_replaced() {
    let mut bytes = b"SCTL\x01\xff".to_vec();
    bytes.extend_from_slice(&[b'a', 0xff, b'b']);
    match ControlResponse::from_bytes(&bytes) {
        Ok(ControlResponse::Error(text)) => assert_eq!(text, "a\u{fffd}b"),
        other => panic!("unexpected response {other:?}"),
    }
    match ControlResponse::from_bytes(b"SCTL\x01\x01\0\0\0\0\0\0\0\x05") {
        Ok(response) => assert_eq!(response.global_min().unwrap(), at(5)),
        Err(e) => panic!("unexpected failure {e:?}"),
    }
    assert!(ControlResponse::from_bytes(b"SCTL\x01\x07").is_err());
    assert!(ControlResponse::from_bytes(b"SCTL\x02\x00").is_err());
}
