use editor_core::timeline::{Clip, TimelineState};

fn clip(id: u32, track_id: u32, start_time: i64, duration: i64) -> Clip {
    Clip {
        id,
        video_path: format!("clip{}.mp4", id),
        track_id,
        start_time,
        duration,
        source_start: 0,
    }
}

#[test]
fn new_state_defaults() {
    let t = TimelineState::new();
    assert_eq!(t.clips.len(), 0);
    assert_eq!(t.current_time, 0);
    assert!(!t.playing);
    assert_eq!(t.zoom_level, 1);
    assert_eq!(t.next_clip_id, 1);
}

#[test]
fn duration_scenario() {
    let mut t = TimelineState::new();
    let mut a = clip(1, 0, 0, 5);
    a.video_path = String::from("a.mp4");
    let mut b = clip(2, 1, 3, 4);
    b.video_path = String::from("b.mp4");
    t.add_clip(a);
    t.add_clip(b);
    assert_eq!(t.get_duration(), 7);
    t.remove_clip(1);
    assert_eq!(t.get_duration(), 7);
    t.remove_clip(2);
    assert_eq!(t.get_duration(), 0);
}

#[test]
fn duration_empty_is_zero() {
    let t = TimelineState::new();
    assert_eq!(t.get_duration(), 0);
}

#[test]
fn duration_can_be_negative_with_negative_start() {
    let mut t = TimelineState::new();
    t.add_clip(clip(1, 0, -10, 3));
    assert_eq!(t.get_duration(), -7);
}

#[test]
fn adding_a_clip_never_lowers_duration() {
    let mut t = TimelineState::new();
    t.add_clip(clip(1, 0, 0, 5));
    let before: i64 = t.get_duration();
    t.add_clip(clip(2, 0, 1, 1));
    assert!(t.get_duration() >= before);
    t.add_clip(clip(3, 0, 10, 10));
    assert_eq!(t.get_duration(), 20);
}

#[test]
fn seek_clamps_negative_to_zero() {
    let mut t = TimelineState::new();
    t.seek(-5);
    assert_eq!(t.current_time, 0);
    assert_eq!(t.get_duration(), 0);
}

#[test]
fn seek_after_seek_still_clamps() {
    let mut t = TimelineState::new();
    t.seek(10);
    assert_eq!(t.current_time, 10);
    t.seek(-1);
    assert_eq!(t.current_time, 0);
}

#[test]
fn seek_past_duration_is_permitted() {
    let mut t = TimelineState::new();
    t.add_clip(clip(1, 0, 0, 5));
    t.seek(1000);
    assert_eq!(t.current_time, 1000);
}

#[test]
fn toggle_playback_is_a_pure_flip() {
    let mut t = TimelineState::new();
    t.seek(4);
    let clips_before: usize = t.clips.len();
    assert!(!t.playing);
    assert!(t.toggle_playback());
    assert!(!t.toggle_playback());
    assert!(!t.playing);
    assert_eq!(t.current_time, 4);
    assert_eq!(t.clips.len(), clips_before);
    assert_eq!(t.zoom_level, 1);
    assert_eq!(t.next_clip_id, 1);
}

#[test]
fn remove_absent_id_is_a_noop() {
    let mut t = TimelineState::new();
    t.add_clip(clip(1, 0, 0, 5));
    t.add_clip(clip(2, 1, 3, 4));
    t.seek(2);
    t.remove_clip(99);
    assert_eq!(t.clips.len(), 2);
    assert_eq!(t.clips[0].id, 1);
    assert_eq!(t.clips[1].id, 2);
    assert_eq!(t.current_time, 2);
}

#[test]
fn remove_takes_every_clip_with_the_id() {
    let mut t = TimelineState::new();
    t.add_clip(clip(7, 0, 0, 5));
    t.add_clip(clip(8, 0, 1, 1));
    t.add_clip(clip(7, 1, 2, 2));
    t.remove_clip(7);
    assert_eq!(t.clips.len(), 1);
    assert_eq!(t.clips[0].id, 8);
}

#[test]
fn duplicate_is_a_deep_copy() {
    let c = clip(3, 2, 10, 20);
    let d = c.duplicate();
    assert_eq!(d.id, 3);
    assert_eq!(d.video_path, c.video_path);
    assert_eq!(d.track_id, 2);
    assert_eq!(d.start_time, 10);
    assert_eq!(d.duration, 20);
    assert_eq!(d.source_start, 0);
}

#[test]
fn clips_fit_detects_unrepresentable_end() {
    let mut t = TimelineState::new();
    t.add_clip(clip(1, 0, 0, 5));
    assert!(t.clips_fit());
    t.add_clip(clip(2, 0, i64::MAX, 1));
    assert!(!t.clips_fit());
    let c = clip(3, 0, i64::MAX, 1);
    assert!(!c.fits());
    assert!(clip(4, 0, i64::MAX, 0).fits());
}
