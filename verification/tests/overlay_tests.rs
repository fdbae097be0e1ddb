use aurora_screenshots::capture::{DisplayServer, MonitorCapture};
use aurora_screenshots::history::{autostart_action, autostart_desktop_entry, listing_limit, AutostartAction, HISTORY_LIMIT};
use aurora_screenshots::overlay::{
    copy_source, monitor_background, monitor_index_from_label, monitor_overlay_label_of, monitor_overlay_windows,
    overlay_ready_step, overlay_windows_for, prepared_overlay_xid, reveal_step, CopySource, ReadyStep, RevealStep,
};

#[test]
fn overlay_label_carries_its_index_back() {
    for i in [0usize, 1, 9, 10, 123, usize::MAX] {
        let label = monitor_overlay_label_of(i);
        assert_eq!(label, format!("capture-overlay-{i}"));
        assert_eq!(monitor_index_from_label(&label).unwrap(), i);
    }
}

#[test]
fn labels_are_read_as_str_parse_reads_them() {
    assert_eq!(monitor_index_from_label("capture-overlay-+3").unwrap(), 3);
    assert_eq!(monitor_index_from_label("capture-overlay-007").unwrap(), 7);
    for bad in ["capture-overlay-", "capture-overlay-+", "capture-overlay--1", "capture-overlay-1a", "main",
        "capture-overlay", "capture-overlay-99999999999999999999999"]
    {
        assert_eq!(
            monitor_index_from_label(bad).unwrap_err(),
            format!("Label inválido para get_monitor_background: {bad}")
        );
    }
}

fn shot(x: i32) -> MonitorCapture {
    MonitorCapture { x, y: 0, width: 1, height: 1, data: "AA==".to_string() }
}

#[test]
fn monitor_background_by_label() {
    let bg = Some(vec![shot(0), shot(1920)]);
    assert_eq!(monitor_background(&bg, "capture-overlay-1").unwrap().unwrap().x, 1920);
    assert!(monitor_background(&bg, "capture-overlay-2").unwrap().is_none());
    assert!(monitor_background(&None, "capture-overlay-0").unwrap().is_none());
    assert!(monitor_background(&bg, "pin-1").is_err());
}

#[test]
fn hiding_from_a_monitor_overlay_hides_them_all() {
    let open: Vec<String> =
        ["main", "capture-overlay-0", "capture-overlay", "capture-overlay-1"].iter().map(|s| s.to_string()).collect();
    assert_eq!(overlay_windows_for("capture-overlay-1", &open), vec![1, 3]);
    assert_eq!(overlay_windows_for("capture-overlay", &open), vec![2]);
    assert_eq!(overlay_windows_for("main", &open[..2]), Vec::<usize>::new());
    assert_eq!(monitor_overlay_windows(&open), vec![1, 3]);
}

#[test]
fn history_items_are_copied_by_kind() {
    assert_eq!(copy_source("text", "hello").unwrap(), CopySource::Text);
    assert_eq!(copy_source("image", "/home/u/a.png").unwrap(), CopySource::ImageFile);
    assert_eq!(copy_source("image", "iVBORw0KGgo=").unwrap(), CopySource::ImageBase64);
    assert_eq!(copy_source("image", "").unwrap(), CopySource::ImageBase64);
    assert_eq!(copy_source("video", "x").unwrap_err(), "Tipo de item desconocido: video");
}

#[test]
fn overlay_ready_steps() {
    assert_eq!(overlay_ready_step(DisplayServer::Wayland, Some(5), None), ReadyStep::AnnounceInput);
    assert_eq!(overlay_ready_step(DisplayServer::X11, Some(5), Some(6)), ReadyStep::GrabInput { xid: 5, remember: false });
    assert_eq!(overlay_ready_step(DisplayServer::X11, None, Some(6)), ReadyStep::GrabInput { xid: 6, remember: true });
    assert_eq!(overlay_ready_step(DisplayServer::X11, None, None), ReadyStep::Nothing);
}

#[test]
fn prepared_overlay_prefers_the_fresh_id() {
    assert_eq!(prepared_overlay_xid(Some(3), Some(4)), (Some(3), true));
    assert_eq!(prepared_overlay_xid(None, Some(4)), (Some(4), false));
    assert_eq!(prepared_overlay_xid(None, None), (None, false));
    assert_eq!(reveal_step(true, Some(1)), RevealStep::AwaitFrontEnd);
    assert_eq!(reveal_step(false, Some(1)), RevealStep::ShowNow { grab: Some(1) });
}

#[test]
fn history_lists_at_most_ten_items() {
    assert_eq!(HISTORY_LIMIT, 10);
    assert_eq!(listing_limit(Some(100)), 10);
    assert_eq!(listing_limit(None), 10);
}

#[test]
fn autostart_entry_and_actions() {
    assert_eq!(
        autostart_desktop_entry("/usr/bin/aurora"),
        "[Desktop Entry]\nType=Application\nName=Aurora Screenshots\nExec=/usr/bin/aurora\nHidden=false\nNoDisplay=false\nX-GNOME-Autostart-enabled=true\n"
    );
    assert_eq!(autostart_action(true, true), AutostartAction::Write);
    assert_eq!(autostart_action(false, true), AutostartAction::Remove);
    assert_eq!(autostart_action(false, false), AutostartAction::Keep);
}
