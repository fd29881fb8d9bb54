use gemstone::analysis::segmentation::Subtrack;
use gemstone::editor_window::{
    full_view, size_hints, to_wide, window_size, window_title, EditorFrame, EditorWindow, Rect,
    WindowEvent, MAX_POLL_MS, MAX_SIDE, MIN_SIDE, PLAIN_HEIGHT, PLAIN_WIDTH,
};
use gemstone::resynth::{
    card_offer, AudioFile, Decoded, Failure, ResynthPanel,
};
use gemstone::tracks::panel::OpenEditor;

fn rect(w: i32, h: i32) -> Rect {
    Rect { left: 0, top: 0, right: w, bottom: h }
}

#[test]
fn a_timer_is_not_called_back_to_back() {
    let mut frame = EditorFrame::new();
    assert!(!frame.register_timer(0, 10, 0), "no handler");
    assert!(frame.register_timer(5, 10, 1_000));
    assert!(frame.has_timer(5));
    assert!(frame.take_due(5_000).is_empty());
    // Late by far: called once, and next an interval from now.
    assert_eq!(frame.take_due(50_000), vec![5]);
    assert!(frame.take_due(50_001).is_empty());
    assert_eq!(frame.take_due(60_000), vec![5]);
    frame.unregister_timer(5);
    assert!(!frame.has_timer(5));
}

#[test]
fn the_loop_wakes_in_time() {
    let mut frame = EditorFrame::new();
    assert_eq!(frame.poll_timeout_ms(0), MAX_POLL_MS);
    frame.register_timer(5, 10, 0);
    assert!(frame.poll_timeout_ms(4_000) <= 6);
    assert_eq!(frame.poll_timeout_ms(20_000), 0);
    frame.register_timer(6, 1_000_000, 0);
    frame.unregister_timer(5);
    assert_eq!(frame.poll_timeout_ms(0), MAX_POLL_MS);
}

#[test]
fn a_descriptor_is_watched_for_its_handler() {
    let mut frame = EditorFrame::new();
    assert!(!frame.register_event_handler(0, 3));
    assert!(frame.register_event_handler(7, 3));
    assert!(frame.register_event_handler(8, 4));
    assert_eq!(frame.watched_fds(), vec![3, 4]);
    assert_eq!(frame.handler_of(4), Some(8));
    frame.unregister_event_handler(8);
    assert_eq!(frame.handler_of(4), None);
    assert!(!frame.resize_view(None));
    assert!(frame.resize_view(Some(rect(10, 20))));
    assert_eq!(frame.take_pending_resize(), Some(rect(10, 20)));
    assert_eq!(frame.take_pending_resize(), None);
}

#[test]
fn a_window_is_sized_to_its_view() {
    assert_eq!(window_size(rect(300, 200), MIN_SIDE), (300, 200));
    assert_eq!(window_size(rect(1, 100_000), MIN_SIDE), (MIN_SIDE, MAX_SIDE));
    assert_eq!(full_view(3, 4), rect(3, 4));
    let fixed = size_hints(300, 200, false);
    assert_eq!((fixed.least, fixed.most), ((300, 200), Some((300, 200))));
    assert_eq!(size_hints(300, 200, true).most, None);
    let plain = EditorWindow::new(rect(0, 0));
    assert!(plain.running);
    assert!(plain.width == PLAIN_WIDTH || plain.width >= 1);
    assert!(plain.height == PLAIN_HEIGHT || plain.height >= 1);
}

#[test]
fn a_window_follows_what_happens_to_it() {
    let mut w = EditorWindow::new(rect(300, 200));
    assert_eq!(w.on_event(WindowEvent::Configured { width: 300, height: 200 }), None);
    assert_eq!(
        w.on_event(WindowEvent::Configured { width: 310, height: 200 }),
        Some(rect(310, 200))
    );
    assert_eq!(w.on_event(WindowEvent::Other), None);
    assert!(w.goes_on(false) && !w.goes_on(true));
    assert_eq!(w.on_event(WindowEvent::Closed), None);
    assert!(!w.goes_on(false));
    assert!(window_title("Dexed").contains("Dexed"));
}

#[test]
fn a_title_is_wide_and_ends() {
    for s in ["Dexed", "é日本", "𝄞 clef", ""] {
        let mut want: Vec<u16> = s.encode_utf16().collect();
        want.push(0);
        assert_eq!(to_wide(s), want);
    }
}

fn sub(start: usize, end: usize) -> Subtrack {
    Subtrack { start, end, base_freq: 0, confidence: 0, pitch_track: vec![] }
}

fn decoded() -> Decoded {
    Decoded {
        samples: 1000,
        secs: "1.00".to_string(),
        rate: "1000".to_string(),
        subs: vec![(sub(0, 400), true), (sub(500, 2000), false)],
    }
}

#[test]
fn a_file_says_what_was_found_in_it() {
    let f = AudioFile::new(3, "/takes/a b.wav", Ok(decoded()));
    assert!(f.status.starts_with("Decoded 1.00s @ 1000 Hz → 2"), "{}", f.status);
    assert_eq!(f.display_name(), "a b.wav");
    assert_eq!(f.analysis_range(0), Some((0, 400)));
    assert_eq!(f.analysis_range(1), Some((500, 1000)), "no further than the file");
    assert_eq!(f.analysis_range(2), None);
    let bad = AudioFile::new(4, "/x.wav", Err("no codec".to_string()));
    assert_eq!(bad.status, "Decode failed: no codec");
    assert_eq!(bad.analysis_range(0), None);
}

#[test]
fn an_editor_is_opened_closed_and_reaped() {
    let mut panel = ResynthPanel::new();
    panel.add_audio_file("/takes/a.wav", Ok(decoded()));
    assert_eq!(panel.picker_folder().as_deref(), Some("/takes"));
    assert!(panel.opens(0, 0));
    panel.editor_opened(0, 0, Ok(OpenEditor { handle: 1, audible: true }));
    assert!(!panel.opens(0, 0), "it is open already");
    assert_eq!(panel.files[0].open_editor_count(), 1);
    let offer = card_offer(&panel.files[0].subtracks[0]);
    assert!(offer.close && !offer.open);
    panel.reap_editors(0, &vec![true, false]);
    assert_eq!(panel.files[0].open_editor_count(), 0);
    panel.editor_opened(0, 1, Err("no window".to_string()));
    assert_eq!(panel.status, "Editor failed: no window");
    panel.editor_opened(0, 1, Ok(OpenEditor { handle: 2, audible: true }));
    assert!(panel.repaint_after().is_some());
    panel.close_editor(0, 1);
    assert_eq!(panel.files[0].open_editor_count(), 0);
    panel.previewed(0, 0);
    assert!(panel.files[0].subtracks[0].previewed);
    panel.exported(0, "/x.wav");
    assert_eq!(panel.status, "Exported subtrack 1 to /x.wav.");
    assert!(panel.export_name(0, 1).is_none(), "there is no editor to export from");
    panel.editor_opened(0, 1, Ok(OpenEditor { handle: 3, audible: false }));
    assert!(panel.export_name(0, 1).is_some());
    panel.remove_file(0);
    assert!(panel.files.is_empty());
    assert!(panel.status.starts_with("Removed "));
}

#[test]
fn each_failure_reads_as_itself() {
    let mut panel = ResynthPanel::new();
    for (what, want) in [
        (Failure::AnalysisPlugin, "Could not load internal plugin for analysis: why"),
        (Failure::Analyse, "Analyze failed: why"),
        (Failure::NoPlugin, "Could not locate internal plugin."),
        (Failure::PluginLoad, "Plugin load failed: why"),
        (Failure::PushAnalysis, "Push analysis failed: why"),
        (Failure::Export, "Export failed: why"),
    ] {
        panel.failed(what, "why");
        assert_eq!(panel.status, want);
    }
}
