use fan::capture::{apply_capture_cmd, settle_delivery, CaptureCmd, Sink};
use fan::format::{
    decimal, parse_waveformat, Format, SampleFormat, WaveFormat, SUBTYPE_IEEE_FLOAT, SUBTYPE_PCM,
    WAVE_FORMAT_EXTENSIBLE,
};
use fan::offsets::output_delays;
use fan::platform::{device_kind, endpoint_info};
use fan::render::{after_pop, delay_step, DelayStep};
use fan::ring::ring_capacity;
use fan::settings::AppSettings;
use fan::stage::Stage;
use fan::supervisor::{
    drop_output, reconcile, retry_now, Action, Event, Slot, Supervisor, RETRY_MS,
};
use fan::{list_outputs, DeviceKind, Error};

fn strings(raw: &[&str]) -> Vec<String> {
    raw.iter().map(|s| s.to_string()).collect()
}

fn slot(id: &str, running: bool, next: u64) -> Slot {
    Slot { device_id: id.to_string(), running, next_retry_ms: next }
}

fn view(slots: &[Slot]) -> Vec<(String, bool, u64)> {
    slots.iter().map(|s| (s.device_id.clone(), s.running, s.next_retry_ms)).collect()
}

#[test]
fn most_negative_offset_gets_no_delay() {
    assert_eq!(output_delays(&[-85, 0, 40]), vec![0, 85, 125]);
    assert_eq!(output_delays(&[10, 30]), vec![10, 30]);
    assert_eq!(output_delays(&[0, -200, 200]), vec![200, 0, 400]);
    assert_eq!(output_delays(&[]), Vec::<u32>::new());
}

#[test]
fn reconcile_keeps_stays_drops_leavers_and_adds_newcomers() {
    let mut slots = vec![slot("a", true, 5), slot("b", false, 9), slot("c", true, 7)];
    let removed = reconcile(&mut slots, &strings(&["c", "d", "a", "d"]), 100);
    assert_eq!(
        view(&slots),
        vec![
            ("a".to_string(), true, 5),
            ("c".to_string(), true, 7),
            ("d".to_string(), false, 100)
        ]
    );
    assert_eq!(view(&removed), vec![("b".to_string(), false, 9)]);
    let removed = reconcile(&mut slots, &strings(&[]), 200);
    assert!(slots.is_empty());
    assert_eq!(removed.len(), 3);
}

#[test]
fn lost_devices_wait_and_returning_devices_retry_at_once() {
    let mut slots = vec![slot("a", true, 0), slot("b", true, 0)];
    assert!(drop_output(&mut slots, &"a".to_string(), 1000));
    assert_eq!(view(&slots)[0], ("a".to_string(), false, 1000 + RETRY_MS));
    assert_eq!(view(&slots)[1], ("b".to_string(), true, 0));
    assert!(!drop_output(&mut slots, &"z".to_string(), 1000));
    retry_now(&mut slots, &"a".to_string(), 1500);
    assert_eq!(view(&slots)[0], ("a".to_string(), false, 1500));
}

#[test]
fn ticks_reap_dead_threads_and_restart_due_slots() {
    let mut s = slot("a", true, 0);
    assert!(!s.tick(false, 50));
    assert!(!s.tick(true, 100));
    assert_eq!((s.running, s.next_retry_ms), (false, 100 + RETRY_MS));
    assert!(!s.tick(false, 100 + RETRY_MS - 1));
    assert!(s.tick(false, 100 + RETRY_MS));
    s.restarted(false, 3000);
    assert_eq!((s.running, s.next_retry_ms), (false, 3000 + RETRY_MS));
    assert!(s.tick(false, 3000 + RETRY_MS));
    s.restarted(true, 6000);
    assert!(s.running);
}

#[test]
fn supervisor_answers_events() {
    let mut sup = Supervisor::new(None, 0);
    assert!(matches!(sup.on_event(Event::DeviceLost("a".into())), Action::Idle));
    let settle = sup.settle(false, false, 0);
    assert!(settle.build && !settle.shutdown);
    sup.built(Some("src".into()), 0);
    assert!(sup.running());
    assert!(matches!(sup.on_event(Event::Apply { source: None }), Action::Reconcile));
    assert!(matches!(sup.on_event(Event::DefaultRenderChanged("src".into())), Action::Idle));
    assert!(matches!(sup.on_event(Event::DefaultRenderChanged("".into())), Action::Idle));
    assert!(matches!(sup.on_event(Event::DefaultRenderChanged("other".into())), Action::Rebuild));
    match sup.on_event(Event::DeviceAvailable("a".into())) {
        Action::RetryNow(id) => assert_eq!(id, "a"),
        other => panic!("unexpected {other:?}"),
    }
    match sup.on_event(Event::DeviceLost("b".into())) {
        Action::DropOutput(id) => assert_eq!(id, "b"),
        other => panic!("unexpected {other:?}"),
    }
    assert!(matches!(sup.on_event(Event::Apply { source: Some("x".into()) }), Action::Rebuild));
    assert!(matches!(sup.on_event(Event::DefaultRenderChanged("other".into())), Action::Idle));
    assert!(matches!(sup.on_event(Event::Timeout), Action::Idle));
    assert!(matches!(sup.on_event(Event::Stop), Action::Exit));
    assert!(matches!(sup.on_event(Event::Disconnected), Action::Exit));
}

#[test]
fn dead_capture_forces_a_rebuild_and_failures_back_off() {
    let mut sup = Supervisor::new(Some("src".into()), 0);
    sup.built(Some("src".into()), 0);
    let settle = sup.settle(false, true, 500);
    assert!(settle.shutdown && settle.build);
    assert!(!sup.running());
    sup.built(None, 500);
    assert_eq!(sup.rebuild_at_ms, 500 + RETRY_MS);
    let settle = sup.settle(false, false, 600);
    assert!(!settle.build && !settle.shutdown);
    let settle = sup.settle(false, false, 500 + RETRY_MS);
    assert!(settle.build);
}

#[test]
fn notifications_become_events() {
    assert!(matches!(Event::state_changed("a".into(), 1), Event::DeviceAvailable(id) if id == "a"));
    assert!(matches!(Event::state_changed("a".into(), 4), Event::DeviceLost(id) if id == "a"));
    assert!(matches!(Event::default_changed(true, "d".into()), Some(Event::DefaultRenderChanged(id)) if id == "d"));
    assert!(Event::default_changed(false, "d".into()).is_none());
}

#[test]
fn sinks_stay_one_per_device() {
    let mut sinks: Vec<Sink<u32>> = Vec::new();
    apply_capture_cmd(&mut sinks, CaptureCmd::Add(Sink { device_id: "a".into(), payload: 1 }));
    apply_capture_cmd(&mut sinks, CaptureCmd::Add(Sink { device_id: "b".into(), payload: 2 }));
    apply_capture_cmd(&mut sinks, CaptureCmd::Add(Sink { device_id: "a".into(), payload: 3 }));
    let v: Vec<(String, u32)> = sinks.iter().map(|s| (s.device_id.clone(), s.payload)).collect();
    assert_eq!(v, vec![("b".to_string(), 2), ("a".to_string(), 3)]);
    apply_capture_cmd(&mut sinks, CaptureCmd::Remove("b".into()));
    apply_capture_cmd(&mut sinks, CaptureCmd::Remove("zz".into()));
    assert_eq!(sinks.len(), 1);
    assert_eq!(sinks[0].device_id, "a");
    let cmds = vec![
        CaptureCmd::Add(Sink { device_id: "c".into(), payload: 4 }),
        CaptureCmd::Remove("a".into()),
        CaptureCmd::Add(Sink { device_id: "c".into(), payload: 5 }),
    ];
    for cmd in cmds {
        apply_capture_cmd(&mut sinks, cmd);
    }
    let v: Vec<(String, u32)> = sinks.iter().map(|s| (s.device_id.clone(), s.payload)).collect();
    assert_eq!(v, vec![("c".to_string(), 5)]);
}

#[test]
fn quiet_waits_top_up_only_the_real_deficit() {
    assert_eq!(settle_delivery(100, 150, true, 10, 480), (150, 0));
    assert_eq!(settle_delivery(200, 150, true, 10, 480), (200, 0));
    assert_eq!(settle_delivery(100, 105, false, 10, 480), (100, 0));
    assert_eq!(settle_delivery(100, 130, false, 10, 480), (130, 30));
    assert_eq!(settle_delivery(0, 10_000, false, 10, 480), (480, 480));
    assert_eq!(settle_delivery(300, 100, false, 10, 480), (300, 0));
}

#[test]
fn waveformat_headers_are_read_or_rejected() {
    let pcm16 = WaveFormat {
        format_tag: 1,
        channels: 2,
        samples_per_sec: 48000,
        block_align: 4,
        bits_per_sample: 16,
        sub_format: 0,
    };
    assert_eq!(
        parse_waveformat(&pcm16).unwrap(),
        Format { rate: 48000, channels: 2, sample: SampleFormat::I16, frame_bytes: 4 }
    );
    let float = WaveFormat {
        format_tag: WAVE_FORMAT_EXTENSIBLE as u16,
        channels: 8,
        samples_per_sec: 44100,
        block_align: 32,
        bits_per_sample: 32,
        sub_format: SUBTYPE_IEEE_FLOAT,
    };
    assert_eq!(parse_waveformat(&float).unwrap().sample, SampleFormat::F32);
    let pcm32 = WaveFormat { sub_format: SUBTYPE_PCM, ..float };
    assert_eq!(parse_waveformat(&pcm32).unwrap().sample, SampleFormat::I32);
    let ieee = WaveFormat { format_tag: 3, ..float };
    assert_eq!(parse_waveformat(&ieee).unwrap().sample, SampleFormat::F32);

    let msg = |w: WaveFormat| match parse_waveformat(&w) {
        Err(Error::Format(what)) => what,
        other => panic!("unexpected {other:?}"),
    };
    assert_eq!(msg(WaveFormat { bits_per_sample: 24, ..pcm16 }), "tag 1, 24 bits");
    assert_eq!(msg(WaveFormat { format_tag: 2, ..pcm16 }), "tag 2, 16 bits");
    assert_eq!(msg(WaveFormat { sub_format: 7, ..float }), "extensible subformat, 32 bits");
    assert_eq!(
        msg(WaveFormat { block_align: 6, ..pcm16 }),
        "unsupported frame layout: 2 ch, 16 bits, 6 bytes"
    );
    assert_eq!(
        msg(WaveFormat { channels: 0, block_align: 0, ..pcm16 }),
        "unsupported frame layout: 0 ch, 16 bits, 0 bytes"
    );
    assert!(parse_waveformat(&WaveFormat { samples_per_sec: 0, ..pcm16 }).is_err());
}

#[test]
fn decimals_are_written_without_leading_zeros() {
    for n in [0u64, 7, 10, 48000, 65535, u64::MAX] {
        assert_eq!(decimal(n), n.to_string());
    }
}

#[test]
fn rings_hold_a_second_and_a_half_or_1024_frames() {
    let f = |rate: u32, channels: usize| Format { rate, channels, sample: SampleFormat::F32, frame_bytes: channels * 4 };
    assert_eq!(ring_capacity(&f(48000, 2)), 144000);
    assert_eq!(ring_capacity(&f(44101, 1)), 66151);
    assert_eq!(ring_capacity(&f(100, 2)), 2048);
    for (rate, ch) in [(48000u32, 2usize), (44101, 3), (8000, 1), (500, 6)] {
        assert_eq!(ring_capacity(&f(rate, ch)), ((rate as f64 * 1.5) as usize * ch).max(ch * 1024));
    }
}

#[test]
fn stage_hands_out_frames_in_order() {
    let mut stage = Stage::new(0i32, 2, 1, 2);
    assert_eq!(stage.data.len(), 12);
    assert_eq!((stage.head, stage.len), (0, 0));
    assert_eq!(stage.frames(), 0);
    stage.push_frame(&[1, 2]);
    stage.push_frame(&[3, 4]);
    stage.push_frame(&[5, 6]);
    assert_eq!(stage.frames(), 3);
    assert_eq!(stage.room_frames(), 3);
    assert_eq!(stage.take(2), &[1, 2, 3, 4]);
    assert_eq!((stage.head, stage.len), (4, 6));
    assert_eq!(stage.frames(), 1);
    stage.compact();
    assert_eq!((stage.head, stage.len), (0, 2));
    assert_eq!(stage.take(1), &[5, 6]);
    assert_eq!(stage.frames(), 0);
    let mut fresh = Stage::new(0i32, 1, 0, 1);
    fresh.push_frame(&[9]);
    let before = fresh.data.clone();
    fresh.compact();
    assert_eq!((fresh.head, fresh.len, fresh.data.clone()), (0, 1, before));
}

#[test]
fn render_follows_delay_changes_and_counts_underruns() {
    assert_eq!(delay_step(40, 40), DelayStep::Keep);
    assert_eq!(delay_step(40, 90), DelayStep::Reprime);
    assert_eq!(delay_step(90, 40), DelayStep::Drop(50));
    assert_eq!(after_pop(true, 96, 96), (true, false));
    assert_eq!(after_pop(true, 10, 96), (true, true));
    assert_eq!(after_pop(true, 0, 96), (false, true));
    assert_eq!(after_pop(false, 0, 96), (false, false));
}

#[test]
fn device_kinds_follow_form_factor_and_bluetooth_names() {
    assert_eq!(device_kind("Headset (BlueTooth)", "", Some(1)), DeviceKind::Bluetooth);
    assert_eq!(device_kind("Speakers", "Realtek BLUETOOTH", None), DeviceKind::Bluetooth);
    assert_eq!(device_kind("Speakers", "", Some(1)), DeviceKind::Speakers);
    assert_eq!(device_kind("Line", "", Some(2)), DeviceKind::Speakers);
    assert_eq!(device_kind("Phones", "", Some(3)), DeviceKind::Headphones);
    assert_eq!(device_kind("Set", "", Some(5)), DeviceKind::Headphones);
    assert_eq!(device_kind("Hand", "", Some(6)), DeviceKind::Headphones);
    assert_eq!(device_kind("TV", "", Some(9)), DeviceKind::Hdmi);
    assert_eq!(device_kind("Mic", "", Some(4)), DeviceKind::Other);
    assert_eq!(device_kind("X", "", None), DeviceKind::Other);
}

#[test]
fn endpoints_fall_back_to_their_id_and_mark_the_default() {
    let d = endpoint_info("{0.0.1}".into(), "".into(), "", Some(9), "{0.0.1}");
    assert_eq!((d.id.as_str(), d.name.as_str(), d.is_default, d.kind), ("{0.0.1}", "{0.0.1}", true, DeviceKind::Hdmi));
    let d = endpoint_info("x".into(), "Speakers".into(), "Bluetooth A2DP", Some(1), "y");
    assert_eq!((d.name.as_str(), d.is_default, d.kind), ("Speakers", false, DeviceKind::Bluetooth));
}

#[test]
fn errors_render_their_messages() {
    assert_eq!(Error::Unsupported.to_string(), "unsupported platform: FAN requires Windows");
    assert_eq!(Error::NoDefaultDevice.to_string(), "no default render device");
    assert_eq!(Error::DeviceNotFound("x".into()).to_string(), "device not found: x");
    assert_eq!(Error::AlreadyRunning.to_string(), "engine already running");
    assert_eq!(Error::Format("tag 2, 16 bits".into()).to_string(), "audio format unsupported: tag 2, 16 bits");
    assert_eq!(Error::Windows("boom".into()).to_string(), "windows error: boom");
    assert!(matches!(list_outputs(), Err(Error::Unsupported)));
}

#[test]
fn default_settings_keep_the_app_in_the_tray() {
    let s = AppSettings::default();
    assert!(!s.autostart && !s.start_on_launch && s.close_to_tray);
    assert!(!s.starts_on_launch(3));
    let eager = AppSettings { start_on_launch: true, ..s };
    assert!(eager.starts_on_launch(1));
    assert!(!eager.starts_on_launch(0));
}
