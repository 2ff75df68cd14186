use vdmtool::Error;
use vdmtool::device::{
    run_action, Action, Device, Mode, VdmSop, build_vdm_payload, decode_mode, is_invalid_cmd,
};
use vdmtool::bus::{decode_le16, decode_le32};
use vdmtool::mock::{ScriptedTransport, SteppingClock};

type MockDevice = Device<ScriptedTransport, SteppingClock>;

/// A command-register response: sentinel byte, then the status word
/// little-endian.
fn status_resp(val: u32) -> Vec<u8> {
    let b = val.to_le_bytes();
    vec![0xEE, b[0], b[1], b[2], b[3]]
}

/// A mode-register response: sentinel byte, then the four ASCII bytes.
fn mode_resp(code: &[u8; 4]) -> Vec<u8> {
    vec![0xEE, code[0], code[1], code[2], code[3]]
}

/// A power-status response: sentinel byte, then the value little-endian.
fn power_resp(val: u16) -> Vec<u8> {
    let b = val.to_le_bytes();
    vec![0xEE, b[0], b[1]]
}

fn device_with(responses: Vec<Vec<u8>>) -> MockDevice {
    let mut t = ScriptedTransport::new();
    for r in responses {
        t.queue_response(r);
    }
    let c = SteppingClock::new(0, 1);
    Device::attach(t, c, b"T1")
}

const SENTINEL: u32 = 0x444D_4321;

#[test]
fn write_block_builds_length_prefixed_frame() {
    let mut d = device_with(vec![]);
    d.write_block(0x09, &[1, 2, 3]).unwrap();
    let (t, _) = d.into_parts();
    assert_eq!(t.writes, vec![vec![0x09, 3, 1, 2, 3]]);
}

#[test]
fn write_block_empty_payload() {
    let mut d = device_with(vec![]);
    d.write_block(0x08, &[]).unwrap();
    let (t, _) = d.into_parts();
    assert_eq!(t.writes, vec![vec![0x08, 0]]);
}

#[test]
fn read_block_discards_sentinel_byte() {
    let mut d = device_with(vec![vec![0xEE, 1, 2, 3, 4]]);
    let out = d.read_block(0x03, 4).unwrap();
    assert_eq!(out, vec![1, 2, 3, 4]);
    let (t, _) = d.into_parts();
    assert_eq!(t.writes, vec![vec![0x03]]);
}

#[test]
fn read_block_short_response_is_protocol_error() {
    let mut d = device_with(vec![vec![0xEE, 1]]);
    assert_eq!(d.read_block(0x03, 4), Err(Error::ProtocolError));
}

#[test]
fn read_block_long_response_is_protocol_error() {
    let mut d = device_with(vec![vec![0xEE, 1, 2, 3, 4, 5]]);
    assert_eq!(d.read_block(0x03, 4), Err(Error::ProtocolError));
}

#[test]
fn read_block_transport_failure_is_io_error() {
    let mut d = device_with(vec![]);
    assert_eq!(d.read_block(0x03, 4), Err(Error::IoError));
}

#[test]
fn invalid_cmd_sentinel_recognized() {
    assert!(is_invalid_cmd(0x444D_4321));
    assert!(!is_invalid_cmd(0));
    assert!(!is_invalid_cmd(0x444D_4320));
}

#[test]
fn le_decoders() {
    assert_eq!(decode_le32(&[0x21, 0x43, 0x4D, 0x44]), 0x444D_4321);
    assert_eq!(decode_le16(&[0x01, 0x80]), 0x8001);
}

#[test]
fn exec_busy_register_writes_nothing() {
    let mut d = device_with(vec![status_resp(0x1234)]);
    let r = d.exec_cmd(b"LOCK", &[0, 0, 0, 0]);
    assert_eq!(r, Err(Error::DeviceBusy));
    let (t, _) = d.into_parts();
    // Only the one-byte register select of the pre-check read went out.
    assert_eq!(t.writes, vec![vec![0x08]]);
}

#[test]
fn exec_precheck_tolerates_stale_sentinel() {
    let mut d = device_with(vec![status_resp(SENTINEL), status_resp(0)]);
    let r = d.exec_cmd(b"DVEn", &[7]);
    assert_eq!(r, Ok(()));
}

#[test]
fn exec_success_write_order() {
    let mut d = device_with(vec![status_resp(0), status_resp(0)]);
    d.exec_cmd(b"DVEn", &[7]).unwrap();
    let (t, _) = d.into_parts();
    assert_eq!(
        t.writes,
        vec![
            vec![0x08],
            vec![0x09, 1, 7],
            vec![0x08, 4, b'D', b'V', b'E', b'n'],
            vec![0x08],
        ]
    );
}

#[test]
fn exec_io_failure_during_poll_stops_the_attempt() {
    // The pre-check passes, the command goes out, then the bus stops
    // answering: the attempt fails as an I/O error after exactly the
    // declared writes.
    let mut d = device_with(vec![status_resp(0)]);
    assert_eq!(d.exec_cmd(b"DVEn", &[7]), Err(Error::IoError));
    let (t, _) = d.into_parts();
    assert_eq!(
        t.writes,
        vec![
            vec![0x08],
            vec![0x09, 1, 7],
            vec![0x08, 4, b'D', b'V', b'E', b'n'],
            vec![0x08],
        ]
    );
}

#[test]
fn exec_sentinel_after_post_is_rejected() {
    let mut d = device_with(vec![status_resp(0), status_resp(SENTINEL)]);
    let r = d.exec_cmd(b"LOCK", &[0, 0, 0, 0]);
    assert_eq!(r, Err(Error::CommandRejected));
    let (_, c) = d.into_parts();
    // Polling stopped at the sentinel reading and no settle was slept:
    // only the poll-start clock reading elapsed.
    assert_eq!(c.t, 1);
}

#[test]
fn exec_pending_past_budget_times_out() {
    // Each clock reading advances 600 ms; the second poll reading lands
    // 1200 ms past the start, beyond the one-second default budget.
    let mut t = ScriptedTransport::new();
    for r in [status_resp(0), status_resp(1), status_resp(1)] {
        t.queue_response(r);
    }
    let c = SteppingClock::new(0, 600);
    let mut d = Device::attach(t, c, b"T1");
    let r = d.exec_cmd(b"LOCK", &[0, 0, 0, 0]);
    assert_eq!(r, Err(Error::CommandTimeout));
}

#[test]
fn exec_keeps_polling_under_the_budget() {
    // The poll reading lands 500 ms past the start, under the one-second
    // budget: the driver keeps polling and the next reading succeeds.
    let mut t = ScriptedTransport::new();
    for r in [status_resp(0), status_resp(1), status_resp(0)] {
        t.queue_response(r);
    }
    let c = SteppingClock::new(0, 500);
    let mut d = Device::attach(t, c, b"T1");
    let r = d.exec_cmd(b"LOCK", &[0, 0, 0, 0]);
    assert_eq!(r, Ok(()));
}

#[test]
fn exec_times_out_exactly_at_the_budget() {
    // The poll reading lands exactly at the budget: at or after the
    // budget the attempt is already a timeout.
    let mut t = ScriptedTransport::new();
    for r in [status_resp(0), status_resp(1)] {
        t.queue_response(r);
    }
    let c = SteppingClock::new(0, 1000);
    let mut d = Device::attach(t, c, b"T1");
    let r = d.exec_cmd(b"LOCK", &[0, 0, 0, 0]);
    assert_eq!(r, Err(Error::CommandTimeout));
}

#[test]
fn mode_codes_decode_exactly() {
    assert_eq!(decode_mode(b"APP "), Some(Mode::App));
    assert_eq!(decode_mode(b"BOOT"), Some(Mode::Boot));
    assert_eq!(decode_mode(b"BIST"), Some(Mode::Bist));
    assert_eq!(decode_mode(b"DISC"), Some(Mode::Disc));
    assert_eq!(decode_mode(b"PTCH"), Some(Mode::Ptch));
    assert_eq!(decode_mode(b"DBMa"), Some(Mode::Dbma));
    // Comparison is exact and whitespace-sensitive.
    assert_eq!(decode_mode(b"APP\0"), None);
    assert_eq!(decode_mode(b"app "), None);
    assert_eq!(decode_mode(b"DBMA"), None);
}

#[test]
fn get_mode_unrecognized_code_is_protocol_error() {
    let mut d = device_with(vec![mode_resp(b"XXXX")]);
    assert_eq!(d.get_mode(), Err(Error::ProtocolError));
}

#[test]
fn vdms_word_count_zero_is_invalid_argument() {
    let mut d = device_with(vec![]);
    assert_eq!(d.vdms(VdmSop::SopStar, &[]), Err(Error::InvalidArgument));
    let (t, _) = d.into_parts();
    assert!(t.writes.is_empty());
}

#[test]
fn vdms_word_count_eight_is_invalid_argument() {
    let mut d = device_with(vec![]);
    let words = [1u32; 8];
    assert_eq!(d.vdms(VdmSop::SopStar, &words), Err(Error::InvalidArgument));
    let (t, _) = d.into_parts();
    assert!(t.writes.is_empty());
}

#[test]
fn vdm_header_low_nibble_is_count() {
    let one = build_vdm_payload(VdmSop::SopStar, &[0x1122_3344]);
    assert_eq!(one, vec![(3 << 4) | 1, 0x44, 0x33, 0x22, 0x11]);
    let seven = build_vdm_payload(VdmSop::SopStar, &[0; 7]);
    assert_eq!(seven.len(), 1 + 4 * 7);
    assert_eq!(seven[0] & 0x0F, 7);
    assert_eq!(seven[0] >> 4, 3);
    let sop = build_vdm_payload(VdmSop::Sop, &[0]);
    assert_eq!(sop[0], 1);
}

#[test]
fn dfu_polls_under_its_short_budget() {
    // Each clock reading advances 150 ms.  The first poll reading lands
    // 150 ms past the start and stays inside the DFU action's 200 ms
    // budget; the second lands at 300 ms and times out — where the
    // default one-second budget would have kept polling.
    let mut t = ScriptedTransport::new();
    for r in [mode_resp(b"DBMa"), status_resp(0), status_resp(1), status_resp(1)] {
        t.queue_response(r);
    }
    let c = SteppingClock::new(0, 150);
    let mut d = Device::attach(t, c, b"T1");
    assert_eq!(d.dfu(), Err(Error::CommandTimeout));
}

#[test]
fn dfu_sleeps_its_settle_delay_on_success() {
    let mut d = device_with(vec![mode_resp(b"DBMa"), status_resp(0), status_resp(0)]);
    d.dfu().unwrap();
    let (_, c) = d.into_parts();
    // One clock reading plus the 200 ms settle delay.
    assert_eq!(c.t, 201);
}

#[test]
fn vdms_polls_under_the_default_budget() {
    // Each clock reading advances 600 ms: the first poll reading lands
    // 600 ms past the start — within the one-second default, where the
    // DFU action's 200 ms budget would already have expired — and the
    // second, 1200 ms past, times out.
    let mut t = ScriptedTransport::new();
    for r in [mode_resp(b"DBMa"), status_resp(0), status_resp(1), status_resp(1)] {
        t.queue_response(r);
    }
    let c = SteppingClock::new(0, 600);
    let mut d = Device::attach(t, c, b"T1");
    assert_eq!(d.vdms(VdmSop::SopStar, &[1]), Err(Error::CommandTimeout));
}

#[test]
fn vdms_has_no_settle_delay() {
    let mut d = device_with(vec![mode_resp(b"DBMa"), status_resp(0), status_resp(0)]);
    d.vdms(VdmSop::SopStar, &[1]).unwrap();
    let (_, c) = d.into_parts();
    // Only the one clock reading of the poll start: no settle sleep.
    assert_eq!(c.t, 1);
}

#[test]
fn open_succeeds_in_app_mode() {
    let mut t = ScriptedTransport::new();
    for r in [
        mode_resp(b"APP "), // initial mode check
        status_resp(0),     // LOCK pre-check
        status_resp(0),     // LOCK completion
        status_resp(0),     // DBMa pre-check
        status_resp(0),     // DBMa completion
        mode_resp(b"DBMa"), // mode check after DBMa
    ] {
        t.queue_response(r);
    }
    let c = SteppingClock::new(0, 1);
    let d = Device::new(t, c, b"T1").map_err(|(e, _, _)| e).unwrap();
    let (t, _) = d.into_parts();
    assert_eq!(
        t.writes,
        vec![
            vec![0x03],
            vec![0x08],
            vec![0x09, 2, b'1', b'T'], // key is the code byte-reversed
            vec![0x08, 4, b'L', b'O', b'C', b'K'],
            vec![0x08],
            vec![0x08],
            vec![0x09, 1, 1],
            vec![0x08, 4, b'D', b'B', b'M', b'a'],
            vec![0x08],
            vec![0x03],
        ]
    );
}

#[test]
fn open_outside_app_mode_is_incompatible_state() {
    let mut t = ScriptedTransport::new();
    t.queue_response(mode_resp(b"BOOT"));
    let c = SteppingClock::new(0, 1);
    match Device::new(t, c, b"T1") {
        Ok(_) => panic!("open must fail outside application mode"),
        Err((e, t, _)) => {
            assert_eq!(e, Error::IncompatibleState);
            // Nothing but the mode-register select went out.
            assert_eq!(t.writes, vec![vec![0x03]]);
        }
    }
}

#[test]
fn open_requires_dbma_mode_after_debug_entry() {
    let mut t = ScriptedTransport::new();
    for r in [
        mode_resp(b"APP "),
        status_resp(0),
        status_resp(0),
        status_resp(0),
        status_resp(0),
        mode_resp(b"APP "), // still in application mode: no debug entry
    ] {
        t.queue_response(r);
    }
    let c = SteppingClock::new(0, 1);
    match Device::new(t, c, b"T1") {
        Ok(_) => panic!("open must fail when debug mode is not entered"),
        Err((e, _, _)) => assert_eq!(e, Error::IncompatibleState),
    }
}

#[test]
fn dfu_emits_documented_vdm_frame() {
    let mut d = device_with(vec![mode_resp(b"DBMa"), status_resp(0), status_resp(0)]);
    d.dfu().unwrap();
    let (t, _) = d.into_parts();
    assert_eq!(
        t.writes,
        vec![
            vec![0x03],
            vec![0x08],
            vec![
                0x09, 13, // data register, 1 header byte + 3 words
                (3 << 4) | 3,
                0x12, 0x80, 0xAC, 0x05, // 0x05AC8012
                0x06, 0x01, 0x00, 0x00, // 0x00000106
                0x00, 0x00, 0x01, 0x80, // 0x80010000
            ],
            vec![0x08, 4, b'V', b'D', b'M', b's'],
            vec![0x08],
        ]
    );
}

#[test]
fn reboot_emits_documented_vdm_frame() {
    let mut d = device_with(vec![mode_resp(b"DBMa"), status_resp(0), status_resp(0)]);
    d.reboot().unwrap();
    let (t, _) = d.into_parts();
    assert_eq!(
        t.writes[2],
        vec![
            0x09, 13,
            (3 << 4) | 3,
            0x12, 0x80, 0xAC, 0x05, // 0x05AC8012
            0x05, 0x01, 0x00, 0x00, // 0x00000105
            0x00, 0x00, 0x00, 0x80, // 0x80000000
        ]
    );
}

#[test]
fn debugusb_emits_documented_vdm_frame() {
    let mut d = device_with(vec![mode_resp(b"DBMa"), status_resp(0), status_resp(0)]);
    d.debugusb().unwrap();
    let (t, _) = d.into_parts();
    assert_eq!(
        t.writes[2],
        vec![
            0x09, 9,
            (3 << 4) | 2,
            0x12, 0x80, 0xAC, 0x05, // 0x05AC8012
            0x06, 0x46, 0x82, 0x01, // 0x01824606
        ]
    );
}

#[test]
fn serial_enables_local_passthrough_with_second_word() {
    let mut d = device_with(vec![
        mode_resp(b"DBMa"),
        status_resp(0),
        status_resp(0),
        mode_resp(b"DBMa"),
        status_resp(0),
        status_resp(0),
    ]);
    d.serial().unwrap();
    let (t, _) = d.into_parts();
    assert_eq!(t.writes.len(), 10);
    // The target-side message carries both words...
    assert_eq!(
        t.writes[2],
        vec![0x09, 9, (3 << 4) | 2, 0x12, 0x80, 0xAC, 0x05, 0x06, 0x03, 0x84, 0x01]
    );
    // ...and the local enable carries only the second.
    assert_eq!(t.writes[7], vec![0x09, 4, 0x06, 0x03, 0x84, 0x01]);
    assert_eq!(t.writes[8], vec![0x08, 4, b'D', b'V', b'E', b'n']);
}

#[test]
fn serial_requires_local_debug_mode() {
    let mut d = device_with(vec![
        mode_resp(b"DBMa"),
        status_resp(0),
        status_resp(0),
        mode_resp(b"APP "),
    ]);
    assert_eq!(d.serial(), Err(Error::IncompatibleState));
}

#[test]
fn close_attempts_both_teardown_steps() {
    let mut d = device_with(vec![
        status_resp(0),     // DBMa pre-check
        status_resp(0),     // DBMa completion
        mode_resp(b"DBMa"), // mode check after DBMa
        status_resp(0),     // LOCK pre-check
        status_resp(0),     // LOCK completion
    ]);
    d.close();
    let (t, _) = d.into_parts();
    assert_eq!(
        t.writes,
        vec![
            vec![0x08],
            vec![0x09, 1, 0],
            vec![0x08, 4, b'D', b'B', b'M', b'a'],
            vec![0x08],
            vec![0x03],
            vec![0x08],
            vec![0x09, 4, 0, 0, 0, 0],
            vec![0x08, 4, b'L', b'O', b'C', b'K'],
            vec![0x08],
        ]
    );
}

#[test]
fn close_still_attempts_relock_after_failure() {
    // The bus answers nothing: the debug-mode exit fails at its pre-check,
    // and the relock is still attempted.
    let mut d = device_with(vec![]);
    d.close();
    let (t, _) = d.into_parts();
    assert_eq!(t.writes, vec![vec![0x08], vec![0x08]]);
}

#[test]
fn reboot_serial_connects_on_second_poll() {
    let mut d = device_with(vec![
        // reboot
        mode_resp(b"DBMa"),
        status_resp(0),
        status_resp(0),
        // reconnect polling: not yet, then connected
        power_resp(0x0000),
        power_resp(0x0001),
        // serial
        mode_resp(b"DBMa"),
        status_resp(0),
        status_resp(0),
        mode_resp(b"DBMa"),
        status_resp(0),
        status_resp(0),
    ]);
    assert_eq!(d.reboot_serial(), Ok(()));
    let (_, c) = d.into_parts();
    // Two settle sleeps of a second each, plus one poll interval.
    assert!(c.t >= 2100);
}

#[test]
fn reboot_serial_times_out_when_never_connected() {
    let mut responses = vec![mode_resp(b"DBMa"), status_resp(0), status_resp(0)];
    for _ in 0..40 {
        responses.push(power_resp(0x0000));
    }
    let mut d = device_with(responses);
    assert_eq!(d.reboot_serial(), Err(Error::ReconnectTimeout));
    let (_, c) = d.into_parts();
    // The poll budget of three seconds was consumed after the settle sleep.
    assert!(c.t >= 1000 + 3000);
}

#[test]
fn run_action_nop_opens_and_tears_down() {
    let mut t = ScriptedTransport::new();
    for r in [
        // open
        mode_resp(b"APP "),
        status_resp(0),
        status_resp(0),
        status_resp(0),
        status_resp(0),
        mode_resp(b"DBMa"),
        // teardown
        status_resp(0),
        status_resp(0),
        mode_resp(b"DBMa"),
        status_resp(0),
        status_resp(0),
    ] {
        t.queue_response(r);
    }
    let c = SteppingClock::new(0, 1);
    let (r, t, _) = run_action(t, c, b"T1", Action::Nop);
    assert_eq!(r, Ok(()));
    // The last block write is the relock with the all-zero key.
    assert_eq!(t.writes[t.writes.len() - 2], vec![0x08, 4, b'L', b'O', b'C', b'K']);
    assert_eq!(t.writes[t.writes.len() - 3], vec![0x09, 4, 0, 0, 0, 0]);
}

#[test]
fn run_action_reports_open_failure() {
    let mut t = ScriptedTransport::new();
    t.queue_response(mode_resp(b"PTCH"));
    let c = SteppingClock::new(0, 1);
    let (r, _, _) = run_action(t, c, b"T1", Action::Dfu);
    assert_eq!(r, Err(Error::IncompatibleState));
}

#[test]
fn run_action_tears_down_after_action_failure() {
    let mut t = ScriptedTransport::new();
    for r in [
        // open
        mode_resp(b"APP "),
        status_resp(0),
        status_resp(0),
        status_resp(0),
        status_resp(0),
        mode_resp(b"DBMa"),
        // dfu: mode check passes, command is rejected
        mode_resp(b"DBMa"),
        status_resp(0),
        status_resp(SENTINEL),
        // teardown
        status_resp(0),
        status_resp(0),
        mode_resp(b"DBMa"),
        status_resp(0),
        status_resp(0),
    ] {
        t.queue_response(r);
    }
    let c = SteppingClock::new(0, 1);
    let (r, t, _) = run_action(t, c, b"T1", Action::Dfu);
    // The action's failure is reported, not replaced by the teardown.
    assert_eq!(r, Err(Error::CommandRejected));
    // The teardown still relocked the chip.
    assert_eq!(t.writes[t.writes.len() - 2], vec![0x08, 4, b'L', b'O', b'C', b'K']);
}
