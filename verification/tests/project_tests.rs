use editor_core::codec::FormatError;
use editor_core::project::ProjectData;
use editor_core::timeline::{Clip, TimelineState};

fn chars(s: &str) -> Vec<char> {
    s.chars().collect()
}

fn text(v: &[char]) -> String {
    v.iter().collect()
}

fn clip(id: u32, path: &str, track_id: u32, start_time: i64, duration: i64, source_start: i64) -> Clip {
    Clip {
        id,
        video_path: String::from(path),
        track_id,
        start_time,
        duration,
        source_start,
    }
}

fn assert_clips_eq(a: &[Clip], b: &[Clip]) {
    assert_eq!(a.len(), b.len());
    for (x, y) in a.iter().zip(b.iter()) {
        assert_eq!(x.id, y.id);
        assert_eq!(x.video_path, y.video_path);
        assert_eq!(x.track_id, y.track_id);
        assert_eq!(x.start_time, y.start_time);
        assert_eq!(x.duration, y.duration);
        assert_eq!(x.source_start, y.source_start);
    }
}

fn assert_projects_eq(a: &ProjectData, b: &ProjectData) {
    assert_eq!(a.name, b.name);
    assert_eq!(a.width, b.width);
    assert_eq!(a.height, b.height);
    assert_eq!(a.framerate, b.framerate);
    assert_clips_eq(&a.clips, &b.clips);
}

#[test]
fn new_project_is_empty() {
    let p = ProjectData::new(String::from("cut"), 1280, 720, 25);
    assert_eq!(p.name, "cut");
    assert_eq!(p.width, 1280);
    assert_eq!(p.height, 720);
    assert_eq!(p.framerate, 25);
    assert!(p.clips.is_empty());
}

#[test]
fn encode_empty_project_exactly() {
    let p = ProjectData::new(String::from("a"), 1, 2, 3);
    let out = p.encode();
    assert_eq!(
        text(&out),
        "{\"name\":\"a\",\"width\":1,\"height\":2,\"framerate\":3,\"clips\":[]}"
    );
}

#[test]
fn encode_one_clip_exactly() {
    let mut p = ProjectData::new(String::from("a"), 1, 2, 3);
    p.clips.push(clip(1, "a.mp4", 0, 0, 5, 0));
    let out = p.encode();
    assert_eq!(
        text(&out),
        "{\"name\":\"a\",\"width\":1,\"height\":2,\"framerate\":3,\"clips\":[{\"id\":1,\"video_path\":\"a.mp4\",\"track_id\":0,\"start_time\":0,\"duration\":5,\"source_start\":0}]}"
    );
}

#[test]
fn round_trip_nonempty() {
    let mut p = ProjectData::new(String::from("my film"), 1920, 1080, 30);
    p.clips.push(clip(1, "a.mp4", 0, 0, 5, 0));
    p.clips.push(clip(2, "b.mp4", 1, 3, 4, 2));
    let q = ProjectData::decode(&p.encode()).expect("round trip must decode");
    assert_projects_eq(&p, &q);
}

#[test]
fn round_trip_escaped_strings() {
    let mut p = ProjectData::new(String::from("he said \"hi\" \\ done"), 640, 480, 24);
    p.clips.push(clip(9, "C:\\media\\take \"7\".mp4", 3, -2, 10, 1));
    let q = ProjectData::decode(&p.encode()).expect("round trip must decode");
    assert_projects_eq(&p, &q);
}

#[test]
fn round_trip_extreme_values() {
    let mut p = ProjectData::new(String::new(), u32::MAX, 0, u32::MAX);
    p.clips.push(clip(u32::MAX, "", u32::MAX, i64::MIN, i64::MAX, -1));
    let q = ProjectData::decode(&p.encode()).expect("round trip must decode");
    assert_projects_eq(&p, &q);
}

#[test]
fn decode_then_encode_is_identity_on_documents() {
    let doc = "{\"name\":\"n\",\"width\":10,\"height\":20,\"framerate\":30,\"clips\":[{\"id\":4,\"video_path\":\"x\",\"track_id\":1,\"start_time\":-3,\"duration\":9,\"source_start\":0}]}";
    let p = ProjectData::decode(&chars(doc)).expect("document must decode");
    assert_eq!(text(&p.encode()), doc);
}

#[test]
fn decode_rejects_bad_framing() {
    assert!(matches!(ProjectData::decode(&chars("xyz")), Err(FormatError::Framing)));
    assert!(matches!(ProjectData::decode(&chars("")), Err(FormatError::Framing)));
    assert!(matches!(ProjectData::decode(&chars("[1,2]")), Err(FormatError::Framing)));
}

#[test]
fn decode_rejects_missing_field() {
    assert!(matches!(
        ProjectData::decode(&chars("{\"name\":\"a\",\"width\":1}")),
        Err(FormatError::MissingField)
    ));
    assert!(matches!(ProjectData::decode(&chars("{}")), Err(FormatError::MissingField)));
    let doc = "{\"name\":\"a\",\"width\":1,\"height\":2,\"framerate\":3,\"clips\":[{\"id\":1,\"video_path\":\"v\",\"track_id\":0,\"start_time\":0,\"duration\":5}]}";
    assert!(matches!(ProjectData::decode(&chars(doc)), Err(FormatError::MissingField)));
}

#[test]
fn decode_rejects_duplicate_field() {
    let doc = "{\"name\":\"a\",\"width\":1,\"width\":2,\"height\":2,\"framerate\":3,\"clips\":[]}";
    assert!(matches!(ProjectData::decode(&chars(doc)), Err(FormatError::DuplicateField)));
}

#[test]
fn decode_accepts_any_member_order() {
    let doc = "{\"clips\":[],\"framerate\":3,\"height\":2,\"name\":\"a\",\"width\":1}";
    let p = ProjectData::decode(&chars(doc)).expect("reordered members must decode");
    assert_eq!(p.name, "a");
    assert_eq!(p.width, 1);
    assert_eq!(p.height, 2);
    assert_eq!(p.framerate, 3);
    assert!(p.clips.is_empty());
    let doc2 = "{\"name\":\"a\",\"width\":1,\"height\":2,\"framerate\":3,\"clips\":[{\"duration\":5,\"id\":1,\"source_start\":0,\"start_time\":2,\"track_id\":0,\"video_path\":\"v\"}]}";
    let p2 = ProjectData::decode(&chars(doc2)).expect("reordered clip members must decode");
    assert_eq!(p2.clips[0].id, 1);
    assert_eq!(p2.clips[0].start_time, 2);
    assert_eq!(p2.clips[0].duration, 5);
    assert_eq!(p2.clips[0].video_path, "v");
}

#[test]
fn decode_ignores_unknown_members() {
    let doc = "{\"name\":\"a\",\"version\":2,\"width\":1,\"note\":\"new\",\"height\":2,\"framerate\":3,\"meta\":{\"tags\":[1,2.5,true,null],\"by\":\"x\"},\"clips\":[{\"id\":1,\"color\":\"red\",\"video_path\":\"v\",\"track_id\":0,\"start_time\":0,\"duration\":5,\"source_start\":0,\"muted\":false}],\"extra\":[-1e3]}";
    let p = ProjectData::decode(&chars(doc)).expect("unknown members must be ignored");
    assert_eq!(p.name, "a");
    assert_eq!(p.clips.len(), 1);
    assert_eq!(p.clips[0].duration, 5);
}

#[test]
fn decode_skips_whitespace() {
    let doc = "\n{\n  \"name\": \"a\",\r\n  \"width\": 1,\n  \"height\": 2,\n  \"framerate\": 3,\n  \"clips\": [\n    {\n      \"id\": 1,\n      \"video_path\": \"v\",\n      \"track_id\": 0,\n      \"start_time\": 0,\n      \"duration\": 5,\n      \"source_start\": 0\n    }\n  ]\n}\n";
    let p = ProjectData::decode(&chars(doc)).expect("an indented document must decode");
    assert_eq!(p.name, "a");
    assert_eq!(p.clips.len(), 1);
    assert_eq!(p.clips[0].duration, 5);
}

#[test]
fn decode_rejects_leading_zeros() {
    let doc = "{\"name\":\"a\",\"width\":01,\"height\":2,\"framerate\":3,\"clips\":[]}";
    assert!(ProjectData::decode(&chars(doc)).is_err());
}

#[test]
fn decode_accepts_negative_zero() {
    let doc = "{\"name\":\"a\",\"width\":1,\"height\":2,\"framerate\":3,\"clips\":[{\"id\":1,\"video_path\":\"v\",\"track_id\":0,\"start_time\":-0,\"duration\":5,\"source_start\":0}]}";
    let p = ProjectData::decode(&chars(doc)).expect("a negative zero reads as zero");
    assert_eq!(p.clips[0].start_time, 0);
}

#[test]
fn decode_rejects_number_out_of_range() {
    let doc = "{\"name\":\"a\",\"width\":99999999999,\"height\":2,\"framerate\":3,\"clips\":[]}";
    assert!(matches!(ProjectData::decode(&chars(doc)), Err(FormatError::Number)));
    let doc2 = "{\"name\":\"a\",\"width\":1,\"height\":2,\"framerate\":3,\"clips\":[{\"id\":1,\"video_path\":\"v\",\"track_id\":0,\"start_time\":99999999999999999999999,\"duration\":5,\"source_start\":0}]}";
    assert!(matches!(ProjectData::decode(&chars(doc2)), Err(FormatError::Number)));
}

#[test]
fn decode_rejects_missing_number() {
    let doc = "{\"name\":\"a\",\"width\":,\"height\":2,\"framerate\":3,\"clips\":[]}";
    assert!(matches!(ProjectData::decode(&chars(doc)), Err(FormatError::Number)));
}

#[test]
fn decode_rejects_unterminated_string() {
    assert!(matches!(ProjectData::decode(&chars("{\"name\":\"abc")), Err(FormatError::UnterminatedString)));
    assert!(matches!(ProjectData::decode(&chars("{\"name\":\"abc\\")), Err(FormatError::UnterminatedString)));
}

#[test]
fn decode_rejects_trailing_data() {
    let doc = "{\"name\":\"a\",\"width\":1,\"height\":2,\"framerate\":3,\"clips\":[]}x";
    assert!(matches!(ProjectData::decode(&chars(doc)), Err(FormatError::TrailingData)));
}

#[test]
fn decode_accepts_negative_times() {
    let doc = "{\"name\":\"a\",\"width\":1,\"height\":2,\"framerate\":3,\"clips\":[{\"id\":1,\"video_path\":\"v\",\"track_id\":0,\"start_time\":-5,\"duration\":5,\"source_start\":-1}]}";
    let p = ProjectData::decode(&chars(doc)).expect("document must decode");
    assert_eq!(p.clips[0].start_time, -5);
    assert_eq!(p.clips[0].source_start, -1);
}

#[test]
fn from_timeline_takes_a_snapshot() {
    let mut t = TimelineState::new();
    t.add_clip(clip(1, "a.mp4", 0, 0, 5, 0));
    let p = ProjectData::from_timeline(&t, String::from("Untitled"));
    assert_eq!(p.name, "Untitled");
    assert_eq!(p.width, 1920);
    assert_eq!(p.height, 1080);
    assert_eq!(p.framerate, 30);
    assert_eq!(p.clips.len(), 1);
    t.add_clip(clip(2, "b.mp4", 0, 1, 1, 0));
    t.remove_clip(1);
    assert_eq!(p.clips.len(), 1);
    assert_eq!(p.clips[0].id, 1);
    assert_eq!(p.clips[0].video_path, "a.mp4");
}

#[test]
fn apply_to_timeline_leaves_transport_untouched() {
    let mut t = TimelineState::new();
    t.add_clip(clip(5, "old.mp4", 0, 0, 2, 0));
    t.seek(7);
    t.toggle_playback();
    let mut p = ProjectData::new(String::from("n"), 1, 2, 3);
    p.clips.push(clip(1, "a.mp4", 0, 0, 5, 0));
    p.clips.push(clip(2, "b.mp4", 1, 3, 4, 0));
    p.apply_to_timeline(&mut t);
    assert_eq!(t.clips.len(), 2);
    assert_eq!(t.clips[0].id, 1);
    assert_eq!(t.clips[1].video_path, "b.mp4");
    assert_eq!(t.current_time, 7);
    assert!(t.playing);
    assert_eq!(t.zoom_level, 1);
    assert_eq!(t.next_clip_id, 1);
    assert_eq!(t.get_duration(), 7);
}

#[test]
fn save_then_load_replaces_clips_wholesale() {
    let mut t = TimelineState::new();
    t.add_clip(clip(1, "a.mp4", 0, 0, 5, 0));
    t.add_clip(clip(2, "b.mp4", 1, 3, 4, 0));
    let p = ProjectData::from_timeline(&t, String::from("Untitled"));
    let doc = p.encode();
    let loaded = ProjectData::decode(&doc).expect("saved project must load");
    let mut fresh = TimelineState::new();
    loaded.apply_to_timeline(&mut fresh);
    assert_clips_eq(&fresh.clips, &t.clips);
    assert_eq!(fresh.get_duration(), 7);
}
