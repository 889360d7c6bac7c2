//! The project document format: a self-describing, human-readable text
//! layout with the fields `name`, `width`, `height`, `framerate` and
//! `clips`, encoded and decoded by verified code.
//!
//! The encoder writes one canonical document,
//! `{"name":"cut","width":1920,"height":1080,"framerate":30,"clips":[...]}`,
//! each clip as
//! `{"id":1,"video_path":"a.mp4","track_id":0,"start_time":0,"duration":5,"source_start":0}`.
//! String fields escape `"` and `\` with a backslash; numbers are decimal
//! integers without leading zeros, the time fields possibly negative.
//!
//! The decoder is forward compatible: members of an object may come in any
//! order, whitespace between tokens is skipped, and an unknown member —
//! whatever value it carries — is ignored. Each required member must appear
//! exactly once, and a number that does not fit its field's machine type is
//! rejected.

use crate::project::{ProjectData, ProjectModel};
use crate::timeline::{Clip, ClipModel};
use vstd::prelude::*;

verus! {

/// Why a document was rejected by the decoder.
#[derive(Debug, PartialEq, Eq)]
pub enum FormatError {
    /// The framing around a field (labels, braces, brackets, quotes, commas)
    /// does not match the document layout.
    Framing,
    /// A numeric field is missing, malformed, or out of range for its type.
    Number,
    /// A string field is never closed by an unescaped quote.
    UnterminatedString,
    /// A required member of an object appears twice.
    DuplicateField,
    /// A required member of an object is missing.
    MissingField,
    /// A complete project was followed by further characters.
    TrailingData,
}

// ------------------------------------------------------------------
// Characters and digits
// ------------------------------------------------------------------

/// Whether `c` is a decimal digit.
pub open spec fn is_digit(c: char) -> bool {
    c == '0' || c == '1' || c == '2' || c == '3' || c == '4' || c == '5' || c == '6' || c == '7'
        || c == '8' || c == '9'
}

/// The numeric value of a decimal digit character.
pub open spec fn digit_val(c: char) -> int {
    if c == '0' {
        0
    } else if c == '1' {
        1
    } else if c == '2' {
        2
    } else if c == '3' {
        3
    } else if c == '4' {
        4
    } else if c == '5' {
        5
    } else if c == '6' {
        6
    } else if c == '7' {
        7
    } else if c == '8' {
        8
    } else {
        9
    }
}

/// The decimal digit character for a value below ten.
pub open spec fn digit_char(d: int) -> char {
    if d == 0 {
        '0'
    } else if d == 1 {
        '1'
    } else if d == 2 {
        '2'
    } else if d == 3 {
        '3'
    } else if d == 4 {
        '4'
    } else if d == 5 {
        '5'
    } else if d == 6 {
        '6'
    } else if d == 7 {
        '7'
    } else if d == 8 {
        '8'
    } else {
        '9'
    }
}

// ------------------------------------------------------------------
// Encoding
// ------------------------------------------------------------------

/// The decimal digits of a nonnegative integer, most significant first.
pub open spec fn dec_digits(n: int) -> Seq<char>
    decreases n,
{
    if n < 10 {
        seq![digit_char(n)]
    } else {
        dec_digits(n / 10).push(digit_char(n % 10))
    }
}

/// A possibly negative integer in decimal.
pub open spec fn enc_i64(v: int) -> Seq<char> {
    if v < 0 {
        seq!['-'] + dec_digits(-v)
    } else {
        dec_digits(v)
    }
}

/// One string character as it appears in a document: `"` and `\` carry a
/// leading backslash, every other character stands for itself.
pub open spec fn esc_char(c: char) -> Seq<char> {
    if c == '"' || c == '\\' {
        seq!['\\', c]
    } else {
        seq![c]
    }
}

/// A string field's characters as they appear in a document, without the
/// surrounding quotes.
pub open spec fn enc_str(s: Seq<char>) -> Seq<char>
    decreases s.len(),
{
    if s.len() == 0 {
        Seq::empty()
    } else {
        esc_char(s[0]) + enc_str(s.drop_first())
    }
}

/// The framing before each field's value. The chunk before a string field
/// ends with the opening quote; the closing quote is written by the encoder
/// and consumed by the string parser.
pub open spec fn lit_name() -> Seq<char> {
    "{\"name\":\""@
}

pub open spec fn lit_width() -> Seq<char> {
    ",\"width\":"@
}

pub open spec fn lit_height() -> Seq<char> {
    ",\"height\":"@
}

pub open spec fn lit_framerate() -> Seq<char> {
    ",\"framerate\":"@
}

pub open spec fn lit_clips() -> Seq<char> {
    ",\"clips\":["@
}

pub open spec fn lit_id() -> Seq<char> {
    "{\"id\":"@
}

pub open spec fn lit_video_path() -> Seq<char> {
    ",\"video_path\":\""@
}

pub open spec fn lit_track_id() -> Seq<char> {
    ",\"track_id\":"@
}

pub open spec fn lit_start_time() -> Seq<char> {
    ",\"start_time\":"@
}

pub open spec fn lit_duration() -> Seq<char> {
    ",\"duration\":"@
}

pub open spec fn lit_source_start() -> Seq<char> {
    ",\"source_start\":"@
}

pub open spec fn lit_rbrace() -> Seq<char> {
    "}"@
}

/// One clip as it appears in a document.
pub open spec fn enc_clip(c: ClipModel) -> Seq<char> {
    lit_id() + dec_digits(c.id) + lit_video_path() + enc_str(c.video_path) + seq!['"']
        + lit_track_id() + dec_digits(c.track_id) + lit_start_time() + enc_i64(c.start_time)
        + lit_duration() + enc_i64(c.duration) + lit_source_start() + enc_i64(c.source_start)
        + lit_rbrace()
}

/// The clip array from its first element on, including the closing bracket.
pub open spec fn enc_clips(clips: Seq<ClipModel>) -> Seq<char>
    decreases clips.len(),
{
    if clips.len() == 0 {
        seq![']']
    } else {
        enc_clip(clips[0]) + enc_clips_rest(clips.drop_first())
    }
}

/// The clip array after its first element: each further clip behind a comma,
/// then the closing bracket.
pub open spec fn enc_clips_rest(clips: Seq<ClipModel>) -> Seq<char>
    decreases clips.len(),
{
    if clips.len() == 0 {
        seq![']']
    } else {
        seq![','] + enc_clip(clips[0]) + enc_clips_rest(clips.drop_first())
    }
}

/// A whole project as a document.
pub open spec fn enc_project(p: ProjectModel) -> Seq<char> {
    lit_name() + enc_str(p.name) + seq!['"'] + lit_width() + dec_digits(p.width) + lit_height()
        + dec_digits(p.height) + lit_framerate() + dec_digits(p.framerate) + lit_clips()
        + enc_clips(p.clips) + lit_rbrace()
}

// ------------------------------------------------------------------
// Parsing
// ------------------------------------------------------------------

/// Consume an exact literal chunk; the remainder on a match, nothing
/// otherwise.
pub open spec fn sp_lit(s: Seq<char>, l: Seq<char>) -> Option<Seq<char>> {
    if l.len() <= s.len() && s.take(l.len() as int) == l {
        Some(s.skip(l.len() as int))
    } else {
        None
    }
}

/// Consume a maximal run of decimal digits, folding them onto `acc`.
pub open spec fn sp_digits(s: Seq<char>, acc: int) -> (int, Seq<char>)
    decreases s.len(),
{
    if s.len() > 0 && is_digit(s[0]) {
        sp_digits(s.drop_first(), acc * 10 + digit_val(s[0]))
    } else {
        (acc, s)
    }
}

/// Whether `c` is insignificant whitespace between tokens.
pub open spec fn is_ws(c: char) -> bool {
    c == ' ' || c == '\t' || c == '\n' || c == '\r'
}

/// Skip insignificant whitespace.
pub open spec fn sp_ws(s: Seq<char>) -> Seq<char>
    decreases s.len(),
{
    if s.len() > 0 && is_ws(s[0]) {
        sp_ws(s.drop_first())
    } else {
        s
    }
}

/// Consume one exact character.
pub open spec fn sp_char(s: Seq<char>, c: char) -> Option<Seq<char>> {
    if s.len() > 0 && s[0] == c {
        Some(s.drop_first())
    } else {
        None
    }
}

/// Consume a nonnegative integer: a lone zero, or a nonempty digit run not
/// starting with zero. A zero followed by more digits parses as zero and
/// leaves the rest, which then fails the delimiter that must follow.
pub open spec fn sp_json_nat(s: Seq<char>) -> Option<(int, Seq<char>)> {
    if s.len() > 0 && s[0] == '0' {
        Some((0, s.drop_first()))
    } else if s.len() > 0 && is_digit(s[0]) {
        Some(sp_digits(s, 0))
    } else {
        None
    }
}

/// Consume an optionally negated integer.
pub open spec fn sp_json_int(s: Seq<char>) -> Option<(int, Seq<char>)> {
    if s.len() > 0 && s[0] == '-' {
        match sp_json_nat(s.drop_first()) {
            Some((n, r)) => Some((-n, r)),
            None => None,
        }
    } else {
        sp_json_nat(s)
    }
}

/// A nonnegative integer that must fit a `u32` field.
pub open spec fn sp_u32(s: Seq<char>) -> Option<(int, Seq<char>)> {
    match sp_json_nat(s) {
        Some((n, r)) => if n <= u32::MAX as int {
            Some((n, r))
        } else {
            None
        },
        None => None,
    }
}

/// An integer that must fit an `i64` field.
pub open spec fn sp_i64(s: Seq<char>) -> Option<(int, Seq<char>)> {
    match sp_json_int(s) {
        Some((n, r)) => if i64::MIN as int <= n <= i64::MAX as int {
            Some((n, r))
        } else {
            None
        },
        None => None,
    }
}

/// Consume a string field's characters up to and including the closing
/// unescaped quote, prepending onto `acc` what was read so far.
pub open spec fn sp_quoted(s: Seq<char>, acc: Seq<char>) -> Option<(Seq<char>, Seq<char>)>
    decreases s.len(),
{
    if s.len() == 0 {
        None
    } else if s[0] == '"' {
        Some((acc, s.drop_first()))
    } else if s[0] == '\\' {
        if s.len() >= 2 {
            sp_quoted(s.skip(2), acc.push(s[1]))
        } else {
            None
        }
    } else {
        sp_quoted(s.drop_first(), acc.push(s[0]))
    }
}

/// Skip a string's characters up to and including its closing unescaped
/// quote, after the opening quote.
pub open spec fn sp_skip_string(s: Seq<char>) -> Option<Seq<char>>
    decreases s.len(),
{
    if s.len() == 0 {
        None
    } else if s[0] == '"' {
        Some(s.drop_first())
    } else if s[0] == '\\' {
        if s.len() >= 2 {
            sp_skip_string(s.skip(2))
        } else {
            None
        }
    } else {
        sp_skip_string(s.drop_first())
    }
}

/// Skip a nonempty digit run.
pub open spec fn sp_skip_digits1(s: Seq<char>) -> Option<Seq<char>> {
    if s.len() > 0 && is_digit(s[0]) {
        Some(sp_digits(s, 0).1)
    } else {
        None
    }
}

/// Skip a fractional part, if one follows.
pub open spec fn sp_skip_frac(s: Seq<char>) -> Option<Seq<char>> {
    if s.len() > 0 && s[0] == '.' {
        sp_skip_digits1(s.drop_first())
    } else {
        Some(s)
    }
}

/// Skip an exponent part, if one follows.
pub open spec fn sp_skip_exp(s: Seq<char>) -> Option<Seq<char>> {
    if s.len() > 0 && (s[0] == 'e' || s[0] == 'E') {
        if s.len() > 1 && (s[1] == '+' || s[1] == '-') {
            sp_skip_digits1(s.skip(2))
        } else {
            sp_skip_digits1(s.drop_first())
        }
    } else {
        Some(s)
    }
}

/// Skip a number of an unknown member, fraction and exponent included.
pub open spec fn sp_skip_number(s: Seq<char>) -> Option<Seq<char>> {
    let s1 = if s.len() > 0 && s[0] == '-' {
        s.drop_first()
    } else {
        s
    };
    match sp_json_nat(s1) {
        None => None,
        Some((n, s2)) => match sp_skip_frac(s2) {
            None => None,
            Some(s3) => sp_skip_exp(s3),
        },
    }
}

/// Skip an unknown member's value of any shape: a string, an object, an
/// array, a literal word or a number. The length guards on the recursions
/// only rule out non-consuming sub-parses, which cannot occur.
pub open spec fn sp_skip_value(s: Seq<char>) -> Option<Seq<char>>
    decreases s.len(), 2int,
{
    if s.len() == 0 {
        None
    } else if s[0] == '"' {
        sp_skip_string(s.drop_first())
    } else if s[0] == '{' {
        sp_skip_object(s.drop_first())
    } else if s[0] == '[' {
        sp_skip_array(s.drop_first())
    } else if s[0] == 't' {
        sp_lit(s, "true"@)
    } else if s[0] == 'f' {
        sp_lit(s, "false"@)
    } else if s[0] == 'n' {
        sp_lit(s, "null"@)
    } else {
        sp_skip_number(s)
    }
}

/// Skip an unknown object's remaining text, after its opening brace.
pub open spec fn sp_skip_object(s: Seq<char>) -> Option<Seq<char>>
    decreases s.len(), 4int,
{
    let s0 = sp_ws(s);
    if s0.len() > 0 && s0[0] == '}' {
        Some(s0.drop_first())
    } else if s0.len() <= s.len() {
        sp_skip_members(s0)
    } else {
        None
    }
}

/// Skip an unknown object's members, from a key position on.
pub open spec fn sp_skip_members(s: Seq<char>) -> Option<Seq<char>>
    decreases s.len(), 3int,
{
    match sp_char(s, '"') {
        None => None,
        Some(s1) => match sp_skip_string(s1) {
            None => None,
            Some(s2) => {
                let s3 = sp_ws(s2);
                match sp_char(s3, ':') {
                    None => None,
                    Some(s4) => {
                        let s5 = sp_ws(s4);
                        if s5.len() <= s.len() {
                            match sp_skip_value(s5) {
                                None => None,
                                Some(s6) => {
                                    let s7 = sp_ws(s6);
                                    if s7.len() > 0 && s7[0] == '}' {
                                        Some(s7.drop_first())
                                    } else {
                                        match sp_char(s7, ',') {
                                            None => None,
                                            Some(s8) => {
                                                let s9 = sp_ws(s8);
                                                if s9.len() < s.len() {
                                                    sp_skip_members(s9)
                                                } else {
                                                    None
                                                }
                                            },
                                        }
                                    }
                                },
                            }
                        } else {
                            None
                        }
                    },
                }
            },
        },
    }
}

/// Skip an unknown array's remaining text, after its opening bracket.
pub open spec fn sp_skip_array(s: Seq<char>) -> Option<Seq<char>>
    decreases s.len(), 4int,
{
    let s0 = sp_ws(s);
    if s0.len() > 0 && s0[0] == ']' {
        Some(s0.drop_first())
    } else if s0.len() <= s.len() {
        sp_skip_items(s0)
    } else {
        None
    }
}

/// Skip an unknown array's items, from an item position on.
pub open spec fn sp_skip_items(s: Seq<char>) -> Option<Seq<char>>
    decreases s.len(), 3int,
{
    match sp_skip_value(s) {
        None => None,
        Some(s1) => {
            let s2 = sp_ws(s1);
            if s2.len() > 0 && s2[0] == ']' {
                Some(s2.drop_first())
            } else {
                match sp_char(s2, ',') {
                    None => None,
                    Some(s3) => {
                        let s4 = sp_ws(s3);
                        if s4.len() < s.len() {
                            sp_skip_items(s4)
                        } else {
                            None
                        }
                    },
                }
            }
        },
    }
}

/// A clip object while its members are being read: each field once seen.
#[verifier::ext_equal]
pub ghost struct PartialClip {
    pub id: Option<int>,
    pub video_path: Option<Seq<char>>,
    pub track_id: Option<int>,
    pub start_time: Option<int>,
    pub duration: Option<int>,
    pub source_start: Option<int>,
}

impl PartialClip {
    /// No member seen yet.
    pub open spec fn empty() -> PartialClip {
        PartialClip {
            id: None,
            video_path: None,
            track_id: None,
            start_time: None,
            duration: None,
            source_start: None,
        }
    }
}

/// Consume one clip member's value, dispatched on its key: a known key fills
/// its slot — once only — and an unknown key's value is skipped.
pub open spec fn sp_cvalue(key: Seq<char>, acc: PartialClip, s: Seq<char>) -> Option<
    (PartialClip, Seq<char>),
>
    decreases s.len(), 5int,
{
    if key == "id"@ {
        if acc.id is Some {
            None
        } else {
            match sp_u32(s) {
                None => None,
                Some((n, r)) => Some((PartialClip { id: Some(n), ..acc }, r)),
            }
        }
    } else if key == "video_path"@ {
        if acc.video_path is Some {
            None
        } else {
            match sp_char(s, '"') {
                None => None,
                Some(s1) => match sp_quoted(s1, Seq::empty()) {
                    None => None,
                    Some((t, r)) => Some((PartialClip { video_path: Some(t), ..acc }, r)),
                },
            }
        }
    } else if key == "track_id"@ {
        if acc.track_id is Some {
            None
        } else {
            match sp_u32(s) {
                None => None,
                Some((n, r)) => Some((PartialClip { track_id: Some(n), ..acc }, r)),
            }
        }
    } else if key == "start_time"@ {
        if acc.start_time is Some {
            None
        } else {
            match sp_i64(s) {
                None => None,
                Some((n, r)) => Some((PartialClip { start_time: Some(n), ..acc }, r)),
            }
        }
    } else if key == "duration"@ {
        if acc.duration is Some {
            None
        } else {
            match sp_i64(s) {
                None => None,
                Some((n, r)) => Some((PartialClip { duration: Some(n), ..acc }, r)),
            }
        }
    } else if key == "source_start"@ {
        if acc.source_start is Some {
            None
        } else {
            match sp_i64(s) {
                None => None,
                Some((n, r)) => Some((PartialClip { source_start: Some(n), ..acc }, r)),
            }
        }
    } else {
        match sp_skip_value(s) {
            None => None,
            Some(r) => Some((acc, r)),
        }
    }
}

/// Consume a clip object's members from a key position on, in any order.
pub open spec fn sp_cmember_loop(s: Seq<char>, acc: PartialClip) -> Option<
    (PartialClip, Seq<char>),
>
    decreases s.len(), 6int,
{
    match sp_char(s, '"') {
        None => None,
        Some(s1) => match sp_quoted(s1, Seq::empty()) {
            None => None,
            Some((key, s2)) => {
                let s3 = sp_ws(s2);
                match sp_char(s3, ':') {
                    None => None,
                    Some(s4) => {
                        let s5 = sp_ws(s4);
                        if s5.len() <= s.len() {
                            match sp_cvalue(key, acc, s5) {
                                None => None,
                                Some((acc2, s6)) => {
                                    let s7 = sp_ws(s6);
                                    if s7.len() > 0 && s7[0] == '}' {
                                        Some((acc2, s7.drop_first()))
                                    } else {
                                        match sp_char(s7, ',') {
                                            None => None,
                                            Some(s8) => {
                                                let s9 = sp_ws(s8);
                                                if s9.len() < s.len() {
                                                    sp_cmember_loop(s9, acc2)
                                                } else {
                                                    None
                                                }
                                            },
                                        }
                                    }
                                },
                            }
                        } else {
                            None
                        }
                    },
                }
            },
        },
    }
}

/// Build the clip a finished member loop has read, if every required
/// member was present.
pub open spec fn finish_clip(r: Option<(PartialClip, Seq<char>)>) -> Option<
    (ClipModel, Seq<char>),
> {
    match r {
        None => None,
        Some((acc, rest)) => if acc.id is Some && acc.video_path is Some && acc.track_id is Some
            && acc.start_time is Some && acc.duration is Some && acc.source_start is Some {
            Some(
                (
                    ClipModel {
                        id: acc.id.unwrap(),
                        video_path: acc.video_path.unwrap(),
                        track_id: acc.track_id.unwrap(),
                        start_time: acc.start_time.unwrap(),
                        duration: acc.duration.unwrap(),
                        source_start: acc.source_start.unwrap(),
                    },
                    rest,
                ),
            )
        } else {
            None
        },
    }
}

/// Consume one clip object: every required member present exactly once.
pub open spec fn sp_clip_obj(s: Seq<char>) -> Option<(ClipModel, Seq<char>)>
    decreases s.len(), 7int,
{
    match sp_char(s, '{') {
        None => None,
        Some(s1) => {
            let s2 = sp_ws(s1);
            finish_clip(
                if s2.len() > 0 && s2[0] == '}' {
                    Some((PartialClip::empty(), s2.drop_first()))
                } else if s2.len() < s.len() {
                    sp_cmember_loop(s2, PartialClip::empty())
                } else {
                    None
                },
            )
        },
    }
}

/// Consume the clip array from a clip-or-bracket position on.
pub open spec fn sp_clips_list(s: Seq<char>, acc: Seq<ClipModel>) -> Option<
    (Seq<ClipModel>, Seq<char>),
>
    decreases s.len(), 8int,
{
    if s.len() > 0 && s[0] == ']' {
        Some((acc, s.drop_first()))
    } else {
        match sp_clip_obj(s) {
            None => None,
            Some((c, r)) => {
                let s2 = sp_ws(r);
                if s2.len() > 0 && s2[0] == ']' {
                    Some((acc.push(c), s2.drop_first()))
                } else {
                    match sp_char(s2, ',') {
                        None => None,
                        Some(s3) => {
                            let s4 = sp_ws(s3);
                            if s4.len() < s.len() {
                                sp_clips_list(s4, acc.push(c))
                            } else {
                                None
                            }
                        },
                    }
                }
            },
        }
    }
}

/// A project while its members are being read: each field once seen.
#[verifier::ext_equal]
pub ghost struct PartialProject {
    pub name: Option<Seq<char>>,
    pub width: Option<int>,
    pub height: Option<int>,
    pub framerate: Option<int>,
    pub clips: Option<Seq<ClipModel>>,
}

impl PartialProject {
    /// No member seen yet.
    pub open spec fn empty() -> PartialProject {
        PartialProject { name: None, width: None, height: None, framerate: None, clips: None }
    }
}

/// Consume one project member's value, dispatched on its key: a known key
/// fills its slot — once only — and an unknown key's value is skipped.
pub open spec fn sp_pvalue(key: Seq<char>, acc: PartialProject, s: Seq<char>) -> Option<
    (PartialProject, Seq<char>),
>
    decreases s.len(), 9int,
{
    if key == "name"@ {
        if acc.name is Some {
            None
        } else {
            match sp_char(s, '"') {
                None => None,
                Some(s1) => match sp_quoted(s1, Seq::empty()) {
                    None => None,
                    Some((t, r)) => Some((PartialProject { name: Some(t), ..acc }, r)),
                },
            }
        }
    } else if key == "width"@ {
        if acc.width is Some {
            None
        } else {
            match sp_u32(s) {
                None => None,
                Some((n, r)) => Some((PartialProject { width: Some(n), ..acc }, r)),
            }
        }
    } else if key == "height"@ {
        if acc.height is Some {
            None
        } else {
            match sp_u32(s) {
                None => None,
                Some((n, r)) => Some((PartialProject { height: Some(n), ..acc }, r)),
            }
        }
    } else if key == "framerate"@ {
        if acc.framerate is Some {
            None
        } else {
            match sp_u32(s) {
                None => None,
                Some((n, r)) => Some((PartialProject { framerate: Some(n), ..acc }, r)),
            }
        }
    } else if key == "clips"@ {
        if acc.clips is Some {
            None
        } else {
            match sp_char(s, '[') {
                None => None,
                Some(s1) => {
                    let s2 = sp_ws(s1);
                    if s2.len() < s.len() {
                        match sp_clips_list(s2, Seq::empty()) {
                            None => None,
                            Some((cs, r)) => Some((PartialProject { clips: Some(cs), ..acc }, r)),
                        }
                    } else {
                        None
                    }
                },
            }
        }
    } else {
        match sp_skip_value(s) {
            None => None,
            Some(r) => Some((acc, r)),
        }
    }
}

/// Consume a project's members from a key position on, in any order.
pub open spec fn sp_pmember_loop(s: Seq<char>, acc: PartialProject) -> Option<
    (PartialProject, Seq<char>),
>
    decreases s.len(), 10int,
{
    match sp_char(s, '"') {
        None => None,
        Some(s1) => match sp_quoted(s1, Seq::empty()) {
            None => None,
            Some((key, s2)) => {
                let s3 = sp_ws(s2);
                match sp_char(s3, ':') {
                    None => None,
                    Some(s4) => {
                        let s5 = sp_ws(s4);
                        if s5.len() <= s.len() {
                            match sp_pvalue(key, acc, s5) {
                                None => None,
                                Some((acc2, s6)) => {
                                    let s7 = sp_ws(s6);
                                    if s7.len() > 0 && s7[0] == '}' {
                                        Some((acc2, s7.drop_first()))
                                    } else {
                                        match sp_char(s7, ',') {
                                            None => None,
                                            Some(s8) => {
                                                let s9 = sp_ws(s8);
                                                if s9.len() < s.len() {
                                                    sp_pmember_loop(s9, acc2)
                                                } else {
                                                    None
                                                }
                                            },
                                        }
                                    }
                                },
                            }
                        } else {
                            None
                        }
                    },
                }
            },
        },
    }
}

/// Build the project a finished member loop has read, if every required
/// member was present and nothing but whitespace remains.
pub open spec fn finish_project(r: Option<(PartialProject, Seq<char>)>) -> Option<ProjectModel> {
    match r {
        None => None,
        Some((acc, rest)) => if sp_ws(rest).len() == 0 && acc.name is Some && acc.width is Some
            && acc.height is Some && acc.framerate is Some && acc.clips is Some {
            Some(
                ProjectModel {
                    name: acc.name.unwrap(),
                    width: acc.width.unwrap(),
                    height: acc.height.unwrap(),
                    framerate: acc.framerate.unwrap(),
                    clips: acc.clips.unwrap(),
                },
            )
        } else {
            None
        },
    }
}

/// Decode a whole document: one project object, its members in any order,
/// each required member present exactly once, unknown members and whitespace
/// skipped, and nothing but whitespace left behind.
pub open spec fn sp_project(s: Seq<char>) -> Option<ProjectModel> {
    let s0 = sp_ws(s);
    match sp_char(s0, '{') {
        None => None,
        Some(s1) => {
            let s2 = sp_ws(s1);
            finish_project(
                if s2.len() > 0 && s2[0] == '}' {
                    Some((PartialProject::empty(), s2.drop_first()))
                } else {
                    sp_pmember_loop(s2, PartialProject::empty())
                },
            )
        },
    }
}

// ------------------------------------------------------------------
// Round trip: parsing what was encoded
// ------------------------------------------------------------------

/// Concatenation is associative.
proof fn lemma_assoc(a: Seq<char>, b: Seq<char>, c: Seq<char>)
    ensures
        (a + b) + c == a + (b + c),
{
    assert((a + b) + c =~= a + (b + c));
}

/// Skipping whitespace where none stands leaves the text as it is.
proof fn lemma_ws_noop(s: Seq<char>)
    requires
        s.len() == 0 || !is_ws(s[0]),
    ensures
        sp_ws(s) == s,
{
}

/// Powers of ten.
spec fn pow10(k: nat) -> int
    decreases k,
{
    if k == 0 {
        1
    } else {
        10 * pow10((k - 1) as nat)
    }
}

/// A nonnegative integer's decimal form is nonempty, all digits, and free
/// of a leading zero unless the integer is zero itself.
proof fn lemma_dec_digits_shape(n: int)
    requires
        0 <= n,
    ensures
        dec_digits(n).len() >= 1,
        forall|i: int| 0 <= i < dec_digits(n).len() ==> is_digit(#[trigger] dec_digits(n)[i]),
        n >= 1 ==> dec_digits(n)[0] != '0',
    decreases n,
{
    if n >= 10 {
        assert(n / 10 < n) by (nonlinear_arith)
            requires
                n >= 10,
        ;
        lemma_dec_digits_shape(n / 10);
        assert(is_digit(digit_char(n % 10)));
        assert(dec_digits(n)[0] == dec_digits(n / 10)[0]);
    }
}

/// Folding the decimal digits of `n` onto `acc` multiplies `acc` by the
/// matching power of ten and adds `n`, leaving the rest untouched.
proof fn lemma_sp_digits_enc(n: int, rest: Seq<char>, acc: int)
    requires
        0 <= n,
    ensures
        sp_digits(dec_digits(n) + rest, acc) == sp_digits(
            rest,
            acc * pow10(dec_digits(n).len() as nat) + n,
        ),
    decreases n,
{
    let s = dec_digits(n) + rest;
    if n < 10 {
        assert(s[0] == digit_char(n));
        assert(is_digit(digit_char(n)));
        assert(digit_val(digit_char(n)) == n);
        assert(s.drop_first() =~= rest);
        assert(pow10(0nat) == 1);
        assert(pow10(1nat) == 10);
    } else {
        assert(n / 10 < n) by (nonlinear_arith)
            requires
                n >= 10,
        ;
        let hi = dec_digits(n / 10);
        let d = digit_char(n % 10);
        let q = n / 10;
        let r = n % 10;
        assert(dec_digits(n) == hi.push(d));
        assert(hi.push(d) =~= hi + seq![d]);
        lemma_assoc(hi, seq![d], rest);
        assert(s == hi + (seq![d] + rest));
        lemma_sp_digits_enc(q, seq![d] + rest, acc);
        let p = pow10(hi.len() as nat);
        let acc1 = acc * p + q;
        assert((seq![d] + rest)[0] == d);
        assert(is_digit(d));
        assert(digit_val(d) == r);
        assert((seq![d] + rest).drop_first() =~= rest);
        assert(sp_digits(s, acc) == sp_digits(rest, acc1 * 10 + r));
        assert(dec_digits(n).len() == hi.len() + 1);
        assert(pow10((hi.len() + 1) as nat) == 10 * p);
        vstd::arithmetic::div_mod::lemma_fundamental_div_mod(n, 10);
        assert(n == 10 * q + r);
        assert((acc * p + q) * 10 + r == acc * (10 * p) + (10 * q + r)) by (nonlinear_arith);
        assert(acc1 * 10 + r == acc * pow10(dec_digits(n).len() as nat) + n);
    }
}

/// A decimal form followed by anything but a digit parses back to its value.
proof fn lemma_sp_json_nat_enc(n: int, rest: Seq<char>)
    requires
        0 <= n,
        rest.len() == 0 || !is_digit(rest[0]),
    ensures
        sp_json_nat(dec_digits(n) + rest) == Some((n, rest)),
{
    lemma_dec_digits_shape(n);
    let s = dec_digits(n) + rest;
    assert(s[0] == dec_digits(n)[0]);
    if n == 0 {
        assert(dec_digits(0) == seq![digit_char(0)]);
        assert(s[0] == '0');
        assert(s.drop_first() =~= rest);
    } else {
        assert(s[0] != '0');
        lemma_sp_digits_enc(n, rest, 0);
        assert(0 * pow10(dec_digits(n).len() as nat) == 0) by (nonlinear_arith);
        assert(sp_digits(rest, n) == (n, rest));
    }
}

/// As [`lemma_sp_json_nat_enc`], through the `u32` range check.
proof fn lemma_sp_u32_enc(n: int, rest: Seq<char>)
    requires
        0 <= n <= u32::MAX as int,
        rest.len() == 0 || !is_digit(rest[0]),
    ensures
        sp_u32(dec_digits(n) + rest) == Some((n, rest)),
{
    lemma_sp_json_nat_enc(n, rest);
}

/// A signed decimal form followed by anything but a digit parses back to its
/// value, through the `i64` range check.
proof fn lemma_sp_i64_enc(v: int, rest: Seq<char>)
    requires
        i64::MIN as int <= v <= i64::MAX as int,
        rest.len() == 0 || !is_digit(rest[0]),
    ensures
        sp_i64(enc_i64(v) + rest) == Some((v, rest)),
{
    if v < 0 {
        let s = enc_i64(v) + rest;
        lemma_assoc(seq!['-'], dec_digits(-v), rest);
        assert(s == seq!['-'] + (dec_digits(-v) + rest));
        assert(s[0] == '-');
        assert(s.drop_first() =~= dec_digits(-v) + rest);
        lemma_sp_json_nat_enc(-v, rest);
    } else {
        lemma_dec_digits_shape(v);
        let s = dec_digits(v) + rest;
        assert(s[0] == dec_digits(v)[0]);
        assert(is_digit(s[0]));
        lemma_sp_json_nat_enc(v, rest);
    }
}

/// An escaped string followed by its closing quote parses back to the string
/// itself, appended to whatever was accumulated before it.
proof fn lemma_sp_quoted_enc(t: Seq<char>, acc: Seq<char>, rest: Seq<char>)
    ensures
        sp_quoted(enc_str(t) + seq!['"'] + rest, acc) == Some((acc + t, rest)),
    decreases t.len(),
{
    let s = enc_str(t) + seq!['"'] + rest;
    if t.len() == 0 {
        assert(s =~= seq!['"'] + rest);
        assert(s[0] == '"');
        assert(s.drop_first() =~= rest);
        assert(acc + t =~= acc);
    } else {
        let c = t[0];
        let t1 = t.drop_first();
        assert(enc_str(t) == esc_char(c) + enc_str(t1));
        let tail = enc_str(t1) + seq!['"'] + rest;
        if c == '"' || c == '\\' {
            assert(s =~= seq!['\\', c] + tail);
            assert(s[0] == '\\');
            assert(s[1] == c);
            assert(s.skip(2) =~= tail);
            lemma_sp_quoted_enc(t1, acc.push(c), rest);
            assert(acc.push(c) + t1 =~= acc + t);
        } else {
            assert(s =~= seq![c] + tail);
            assert(s[0] == c);
            assert(s.drop_first() =~= tail);
            lemma_sp_quoted_enc(t1, acc.push(c), rest);
            assert(acc.push(c) + t1 =~= acc + t);
        }
    }
}

/// A string of ordinary characters — no quote, no backslash — encodes to
/// itself.
proof fn lemma_enc_str_plain(t: Seq<char>)
    requires
        forall|i: int| 0 <= i < t.len() ==> t[i] != '"' && t[i] != '\\',
    ensures
        enc_str(t) == t,
    decreases t.len(),
{
    if t.len() > 0 {
        lemma_enc_str_plain(t.drop_first());
        assert(esc_char(t[0]) == seq![t[0]]);
        assert(seq![t[0]] + t.drop_first() =~= t);
    }
}

/// One step of a clip object's member loop over canonical text: a plain
/// key, its value text `w`, and the separator opening `tail` decide how the
/// loop goes on.
proof fn lemma_cmember_step(
    key: Seq<char>,
    w: Seq<char>,
    tail: Seq<char>,
    acc: PartialClip,
    acc2: PartialClip,
)
    requires
        forall|i: int| 0 <= i < key.len() ==> key[i] != '"' && key[i] != '\\',
        w.len() > 0,
        !is_ws(w[0]),
        sp_cvalue(key, acc, w) == Some((acc2, tail)),
        tail.len() <= w.len(),
        tail.len() > 0,
        tail[0] == ',' || tail[0] == '}',
        tail[0] == ',' ==> tail.len() >= 2 && tail[1] == '"',
    ensures
        sp_cmember_loop(seq!['"'] + (key + (seq!['"'] + (seq![':'] + w))), acc) == (
        if tail[0] == '}' {
            Some((acc2, tail.drop_first()))
        } else {
            sp_cmember_loop(tail.drop_first(), acc2)
        }),
{
    let s = seq!['"'] + (key + (seq!['"'] + (seq![':'] + w)));
    let rr = seq![':'] + w;
    assert(s[0] == '"');
    assert(s.drop_first() =~= key + (seq!['"'] + rr));
    lemma_enc_str_plain(key);
    lemma_assoc(key, seq!['"'], rr);
    lemma_sp_quoted_enc(key, Seq::empty(), rr);
    assert(Seq::<char>::empty() + key =~= key);
    assert(rr[0] == ':');
    lemma_ws_noop(rr);
    assert(rr.drop_first() =~= w);
    lemma_ws_noop(w);
    lemma_ws_noop(tail);
    if tail[0] != '}' {
        let s8 = tail.drop_first();
        assert(s8.len() > 0 && s8[0] == tail[1]);
        lemma_ws_noop(s8);
        assert(s8.len() < s.len());
    }
}

/// One step of a project's member loop over canonical text; the twin of
/// [`lemma_cmember_step`].
proof fn lemma_pmember_step(
    key: Seq<char>,
    w: Seq<char>,
    tail: Seq<char>,
    acc: PartialProject,
    acc2: PartialProject,
)
    requires
        forall|i: int| 0 <= i < key.len() ==> key[i] != '"' && key[i] != '\\',
        w.len() > 0,
        !is_ws(w[0]),
        sp_pvalue(key, acc, w) == Some((acc2, tail)),
        tail.len() <= w.len(),
        tail.len() > 0,
        tail[0] == ',' || tail[0] == '}',
        tail[0] == ',' ==> tail.len() >= 2 && tail[1] == '"',
    ensures
        sp_pmember_loop(seq!['"'] + (key + (seq!['"'] + (seq![':'] + w))), acc) == (
        if tail[0] == '}' {
            Some((acc2, tail.drop_first()))
        } else {
            sp_pmember_loop(tail.drop_first(), acc2)
        }),
{
    let s = seq!['"'] + (key + (seq!['"'] + (seq![':'] + w)));
    let rr = seq![':'] + w;
    assert(s[0] == '"');
    assert(s.drop_first() =~= key + (seq!['"'] + rr));
    lemma_enc_str_plain(key);
    lemma_assoc(key, seq!['"'], rr);
    lemma_sp_quoted_enc(key, Seq::empty(), rr);
    assert(Seq::<char>::empty() + key =~= key);
    assert(rr[0] == ':');
    lemma_ws_noop(rr);
    assert(rr.drop_first() =~= w);
    lemma_ws_noop(w);
    lemma_ws_noop(tail);
    if tail[0] != '}' {
        let s8 = tail.drop_first();
        assert(s8.len() > 0 && s8[0] == tail[1]);
        lemma_ws_noop(s8);
        assert(s8.len() < s.len());
    }
}

/// Each canonical framing chunk, taken apart into the tokens the member
/// grammar reads.
proof fn lemma_split_lit_id(x: Seq<char>)
    ensures
        lit_id() + x == seq!['{'] + (seq!['"'] + ("id"@ + (seq!['"'] + (seq![':'] + x)))),
{
    reveal_strlit("{\"id\":");
    reveal_strlit("id");
    assert(lit_id() + x =~= seq!['{'] + (seq!['"'] + ("id"@ + (seq!['"'] + (seq![':'] + x)))));
}

proof fn lemma_split_lit_video_path(x: Seq<char>)
    ensures
        lit_video_path() + x == seq![','] + (seq!['"'] + ("video_path"@ + (seq!['"'] + (seq![':']
            + (seq!['"'] + x))))),
{
    reveal_strlit(",\"video_path\":\"");
    reveal_strlit("video_path");
    assert(lit_video_path() + x =~= seq![','] + (seq!['"'] + ("video_path"@ + (seq!['"'] + (seq![
        ':',
    ] + (seq!['"'] + x))))));
}

proof fn lemma_split_lit_track_id(x: Seq<char>)
    ensures
        lit_track_id() + x == seq![','] + (seq!['"'] + ("track_id"@ + (seq!['"'] + (seq![':']
            + x)))),
{
    reveal_strlit(",\"track_id\":");
    reveal_strlit("track_id");
    assert(lit_track_id() + x =~= seq![','] + (seq!['"'] + ("track_id"@ + (seq!['"'] + (seq![':']
        + x)))));
}

proof fn lemma_split_lit_start_time(x: Seq<char>)
    ensures
        lit_start_time() + x == seq![','] + (seq!['"'] + ("start_time"@ + (seq!['"'] + (seq![':']
            + x)))),
{
    reveal_strlit(",\"start_time\":");
    reveal_strlit("start_time");
    assert(lit_start_time() + x =~= seq![','] + (seq!['"'] + ("start_time"@ + (seq!['"'] + (seq![
        ':',
    ] + x)))));
}

proof fn lemma_split_lit_duration(x: Seq<char>)
    ensures
        lit_duration() + x == seq![','] + (seq!['"'] + ("duration"@ + (seq!['"'] + (seq![':']
            + x)))),
{
    reveal_strlit(",\"duration\":");
    reveal_strlit("duration");
    assert(lit_duration() + x =~= seq![','] + (seq!['"'] + ("duration"@ + (seq!['"'] + (seq![':']
        + x)))));
}

proof fn lemma_split_lit_source_start(x: Seq<char>)
    ensures
        lit_source_start() + x == seq![','] + (seq!['"'] + ("source_start"@ + (seq!['"'] + (seq![
            ':',
        ] + x)))),
{
    reveal_strlit(",\"source_start\":");
    reveal_strlit("source_start");
    assert(lit_source_start() + x =~= seq![','] + (seq!['"'] + ("source_start"@ + (seq!['"']
        + (seq![':'] + x)))));
}

proof fn lemma_split_lit_name(x: Seq<char>)
    ensures
        lit_name() + x == seq!['{'] + (seq!['"'] + ("name"@ + (seq!['"'] + (seq![':'] + (seq!['"']
            + x))))),
{
    reveal_strlit("{\"name\":\"");
    reveal_strlit("name");
    assert(lit_name() + x =~= seq!['{'] + (seq!['"'] + ("name"@ + (seq!['"'] + (seq![':'] + (seq![
        '"',
    ] + x))))));
}

proof fn lemma_split_lit_width(x: Seq<char>)
    ensures
        lit_width() + x == seq![','] + (seq!['"'] + ("width"@ + (seq!['"'] + (seq![':'] + x)))),
{
    reveal_strlit(",\"width\":");
    reveal_strlit("width");
    assert(lit_width() + x =~= seq![','] + (seq!['"'] + ("width"@ + (seq!['"'] + (seq![':'] + x)))));
}

proof fn lemma_split_lit_height(x: Seq<char>)
    ensures
        lit_height() + x == seq![','] + (seq!['"'] + ("height"@ + (seq!['"'] + (seq![':'] + x)))),
{
    reveal_strlit(",\"height\":");
    reveal_strlit("height");
    assert(lit_height() + x =~= seq![','] + (seq!['"'] + ("height"@ + (seq!['"'] + (seq![':']
        + x)))));
}

proof fn lemma_split_lit_framerate(x: Seq<char>)
    ensures
        lit_framerate() + x == seq![','] + (seq!['"'] + ("framerate"@ + (seq!['"'] + (seq![':']
            + x)))),
{
    reveal_strlit(",\"framerate\":");
    reveal_strlit("framerate");
    assert(lit_framerate() + x =~= seq![','] + (seq!['"'] + ("framerate"@ + (seq!['"'] + (seq![':']
        + x)))));
}

proof fn lemma_split_lit_clips(x: Seq<char>)
    ensures
        lit_clips() + x == seq![','] + (seq!['"'] + ("clips"@ + (seq!['"'] + (seq![':'] + (seq!['[']
            + x))))),
{
    reveal_strlit(",\"clips\":[");
    reveal_strlit("clips");
    assert(lit_clips() + x =~= seq![','] + (seq!['"'] + ("clips"@ + (seq!['"'] + (seq![':'] + (seq![
        '[',
    ] + x))))));
}

/// An encoded clip parses off the front of its own concatenation, back to
/// the very clip model, through the member grammar.
#[verifier::rlimit(100)]
#[verifier::spinoff_prover]
proof fn lemma_sp_clip_enc(c: ClipModel, rest: Seq<char>)
    requires
        c.in_ranges(),
    ensures
        sp_clip_obj(enc_clip(c) + rest) == Some((c, rest)),
{
    reveal_strlit("{\"id\":");
    reveal_strlit(",\"video_path\":\"");
    reveal_strlit(",\"track_id\":");
    reveal_strlit(",\"start_time\":");
    reveal_strlit(",\"duration\":");
    reveal_strlit(",\"source_start\":");
    reveal_strlit("}");
    reveal_strlit("id");
    reveal_strlit("video_path");
    reveal_strlit("track_id");
    reveal_strlit("start_time");
    reveal_strlit("duration");
    reveal_strlit("source_start");
    let p1 = lit_id();
    let p2 = dec_digits(c.id);
    let p3 = lit_video_path();
    let p4 = enc_str(c.video_path);
    let p4b = seq!['"'];
    let p5 = lit_track_id();
    let p6 = dec_digits(c.track_id);
    let p7 = lit_start_time();
    let p8 = enc_i64(c.start_time);
    let p9 = lit_duration();
    let p10 = enc_i64(c.duration);
    let p11 = lit_source_start();
    let p12 = enc_i64(c.source_start);
    let p13 = lit_rbrace();
    let r13 = p13 + rest;
    let r12 = p12 + r13;
    let r11 = p11 + r12;
    let r10 = p10 + r11;
    let r9 = p9 + r10;
    let r8 = p8 + r9;
    let r7 = p7 + r8;
    let r6 = p6 + r7;
    let r5 = p5 + r6;
    let r4b = p4b + r5;
    let r4 = p4 + r4b;
    let r3 = p3 + r4;
    let r2 = p2 + r3;
    let s = enc_clip(c) + rest;
    lemma_assoc(p1 + p2 + p3 + p4 + p4b + p5 + p6 + p7 + p8 + p9 + p10 + p11 + p12, p13, rest);
    lemma_assoc(p1 + p2 + p3 + p4 + p4b + p5 + p6 + p7 + p8 + p9 + p10 + p11, p12, r13);
    lemma_assoc(p1 + p2 + p3 + p4 + p4b + p5 + p6 + p7 + p8 + p9 + p10, p11, r12);
    lemma_assoc(p1 + p2 + p3 + p4 + p4b + p5 + p6 + p7 + p8 + p9, p10, r11);
    lemma_assoc(p1 + p2 + p3 + p4 + p4b + p5 + p6 + p7 + p8, p9, r10);
    lemma_assoc(p1 + p2 + p3 + p4 + p4b + p5 + p6 + p7, p8, r9);
    lemma_assoc(p1 + p2 + p3 + p4 + p4b + p5 + p6, p7, r8);
    lemma_assoc(p1 + p2 + p3 + p4 + p4b + p5, p6, r7);
    lemma_assoc(p1 + p2 + p3 + p4 + p4b, p5, r6);
    lemma_assoc(p1 + p2 + p3 + p4, p4b, r5);
    lemma_assoc(p1 + p2 + p3, p4, r4b);
    lemma_assoc(p1 + p2, p3, r4);
    lemma_assoc(p1, p2, r3);
    assert(s == p1 + r2);
    lemma_dec_digits_shape(c.id);
    lemma_dec_digits_shape(c.track_id);
    // the opening brace and the first key position
    lemma_split_lit_id(r2);
    let m1 = seq!['"'] + ("id"@ + (seq!['"'] + (seq![':'] + r2)));
    assert(s == seq!['{'] + m1);
    assert(s[0] == '{');
    assert(s.drop_first() =~= m1);
    assert(m1[0] == '"');
    lemma_ws_noop(m1);
    // member: id
    let acc0 = PartialClip::empty();
    let acc1 = PartialClip { id: Some(c.id), ..acc0 };
    assert(r3[0] == ',' && r3[1] == '"');
    lemma_sp_u32_enc(c.id, r3);
    assert(r2[0] == p2[0] && is_digit(r2[0]) && !is_ws(r2[0]));
    assert(sp_cvalue("id"@, acc0, r2) == Some((acc1, r3)));
    lemma_cmember_step("id"@, r2, r3, acc0, acc1);
    // member: video_path
    lemma_split_lit_video_path(r4);
    let w2 = seq!['"'] + r4;
    let m2 = seq!['"'] + ("video_path"@ + (seq!['"'] + (seq![':'] + w2)));
    assert(r3 == seq![','] + m2);
    assert(r3.drop_first() =~= m2);
    let acc2 = PartialClip { video_path: Some(c.video_path), ..acc1 };
    assert(w2[0] == '"' && !is_ws(w2[0]));
    assert(w2.drop_first() =~= r4);
    lemma_assoc(p4, p4b, r5);
    lemma_sp_quoted_enc(c.video_path, Seq::empty(), r5);
    assert(Seq::<char>::empty() + c.video_path =~= c.video_path);
    assert("video_path"@ != "id"@);
    assert(sp_cvalue("video_path"@, acc1, w2) == Some((acc2, r5)));
    assert(r5[0] == ',' && r5[1] == '"');
    lemma_cmember_step("video_path"@, w2, r5, acc1, acc2);
    // member: track_id
    lemma_split_lit_track_id(r6);
    let m3 = seq!['"'] + ("track_id"@ + (seq!['"'] + (seq![':'] + r6)));
    assert(r5 == seq![','] + m3);
    assert(r5.drop_first() =~= m3);
    let acc3 = PartialClip { track_id: Some(c.track_id), ..acc2 };
    assert(r7[0] == ',' && r7[1] == '"');
    lemma_sp_u32_enc(c.track_id, r7);
    assert(r6[0] == p6[0] && is_digit(r6[0]) && !is_ws(r6[0]));
    assert("track_id"@ != "id"@ && "track_id"@ != "video_path"@);
    assert(sp_cvalue("track_id"@, acc2, r6) == Some((acc3, r7)));
    lemma_cmember_step("track_id"@, r6, r7, acc2, acc3);
    // member: start_time
    lemma_split_lit_start_time(r8);
    let m4 = seq!['"'] + ("start_time"@ + (seq!['"'] + (seq![':'] + r8)));
    assert(r7 == seq![','] + m4);
    assert(r7.drop_first() =~= m4);
    let acc4 = PartialClip { start_time: Some(c.start_time), ..acc3 };
    assert(r9[0] == ',' && r9[1] == '"');
    lemma_sp_i64_enc(c.start_time, r9);
    lemma_dec_digits_shape(if c.start_time < 0 { -c.start_time } else { c.start_time });
    assert(r8[0] == p8[0] && !is_ws(r8[0]));
    assert("start_time"@ != "id"@ && "start_time"@ != "video_path"@ && "start_time"@
        != "track_id"@);
    assert(sp_cvalue("start_time"@, acc3, r8) == Some((acc4, r9)));
    lemma_cmember_step("start_time"@, r8, r9, acc3, acc4);
    // member: duration
    lemma_split_lit_duration(r10);
    let m5 = seq!['"'] + ("duration"@ + (seq!['"'] + (seq![':'] + r10)));
    assert(r9 == seq![','] + m5);
    assert(r9.drop_first() =~= m5);
    let acc5 = PartialClip { duration: Some(c.duration), ..acc4 };
    assert(r11[0] == ',' && r11[1] == '"');
    lemma_sp_i64_enc(c.duration, r11);
    lemma_dec_digits_shape(if c.duration < 0 { -c.duration } else { c.duration });
    assert(r10[0] == p10[0] && !is_ws(r10[0]));
    assert("duration"@ != "id"@ && "duration"@ != "video_path"@ && "duration"@ != "track_id"@
        && "duration"@ != "start_time"@);
    assert(sp_cvalue("duration"@, acc4, r10) == Some((acc5, r11)));
    lemma_cmember_step("duration"@, r10, r11, acc4, acc5);
    // member: source_start, and the closing brace
    lemma_split_lit_source_start(r12);
    let m6 = seq!['"'] + ("source_start"@ + (seq!['"'] + (seq![':'] + r12)));
    assert(r11 == seq![','] + m6);
    assert(r11.drop_first() =~= m6);
    let acc6 = PartialClip { source_start: Some(c.source_start), ..acc5 };
    assert(r13[0] == '}');
    lemma_sp_i64_enc(c.source_start, r13);
    lemma_dec_digits_shape(if c.source_start < 0 { -c.source_start } else { c.source_start });
    assert(r12[0] == p12[0] && !is_ws(r12[0]));
    assert("source_start"@ != "id"@ && "source_start"@ != "video_path"@ && "source_start"@
        != "track_id"@ && "source_start"@ != "start_time"@ && "source_start"@ != "duration"@);
    assert(sp_cvalue("source_start"@, acc5, r12) == Some((acc6, r13)));
    lemma_cmember_step("source_start"@, r12, r13, acc5, acc6);
    assert(r13.drop_first() =~= rest);
    // the loop walks the six members and stops at the brace
    assert(sp_cmember_loop(m1, acc0) == Some((acc6, rest)));
    assert(m1.len() < s.len());
    let built = ClipModel {
        id: acc6.id.unwrap(),
        video_path: acc6.video_path.unwrap(),
        track_id: acc6.track_id.unwrap(),
        start_time: acc6.start_time.unwrap(),
        duration: acc6.duration.unwrap(),
        source_start: acc6.source_start.unwrap(),
    };
    assert(built =~= c);
}

/// An encoded clip array parses back to the clips it encodes, appended to
/// the clips read before it.
#[verifier::rlimit(100)]
#[verifier::spinoff_prover]
proof fn lemma_sp_clips_list_enc(cs: Seq<ClipModel>, acc: Seq<ClipModel>, rest: Seq<char>)
    requires
        forall|i: int| 0 <= i < cs.len() ==> (#[trigger] cs[i]).in_ranges(),
    ensures
        sp_clips_list(enc_clips(cs) + rest, acc) == Some((acc + cs, rest)),
    decreases cs.len(),
{
    let s = enc_clips(cs) + rest;
    if cs.len() == 0 {
        assert(s =~= seq![']'] + rest);
        assert(s[0] == ']');
        assert(s.drop_first() =~= rest);
        assert(acc + cs =~= acc);
    } else {
        reveal_strlit("{\"id\":");
        let c0 = cs[0];
        let cs1 = cs.drop_first();
        let t = enc_clips_rest(cs1) + rest;
        lemma_assoc(enc_clip(c0), enc_clips_rest(cs1), rest);
        assert(s == enc_clip(c0) + t);
        assert(s[0] == '{');
        lemma_sp_clip_enc(c0, t);
        lemma_ws_noop(t);
        if cs1.len() == 0 {
            assert(t =~= seq![']'] + rest);
            assert(t[0] == ']');
            assert(t.drop_first() =~= rest);
            assert(acc.push(c0) =~= acc + cs);
        } else {
            let u = enc_clips(cs1) + rest;
            lemma_assoc(seq![','] + enc_clip(cs1[0]), enc_clips_rest(cs1.drop_first()), rest);
            lemma_assoc(seq![','], enc_clip(cs1[0]), enc_clips_rest(cs1.drop_first()) + rest);
            lemma_assoc(enc_clip(cs1[0]), enc_clips_rest(cs1.drop_first()), rest);
            assert(t == seq![','] + u);
            assert(t[0] == ',');
            assert(t.drop_first() =~= u);
            assert(u[0] == '{');
            lemma_ws_noop(u);
            assert(u.len() < s.len());
            assert(forall|i: int| 0 <= i < cs1.len() ==> (#[trigger] cs1[i]).in_ranges()) by {
                assert(forall|i: int| 0 <= i < cs1.len() ==> cs1[i] == cs[i + 1]);
            }
            lemma_sp_clips_list_enc(cs1, acc.push(c0), rest);
            assert(acc.push(c0) + cs1 =~= acc + cs);
        }
    }
}

/// Round trip: the document an in-range project encodes to decodes back to
/// that very project — field for field, clip order included.
#[verifier::rlimit(100)]
#[verifier::spinoff_prover]
pub proof fn lemma_project_round_trip(p: ProjectModel)
    requires
        p.in_ranges(),
    ensures
        sp_project(enc_project(p)) == Some(p),
{
    reveal_strlit("{\"name\":\"");
    reveal_strlit(",\"width\":");
    reveal_strlit(",\"height\":");
    reveal_strlit(",\"framerate\":");
    reveal_strlit(",\"clips\":[");
    reveal_strlit("}");
    reveal_strlit("{\"id\":");
    reveal_strlit("name");
    reveal_strlit("width");
    reveal_strlit("height");
    reveal_strlit("framerate");
    reveal_strlit("clips");
    let q1 = lit_name();
    let q2 = enc_str(p.name);
    let q2b = seq!['"'];
    let q3 = lit_width();
    let q4 = dec_digits(p.width);
    let q5 = lit_height();
    let q6 = dec_digits(p.height);
    let q7 = lit_framerate();
    let q8 = dec_digits(p.framerate);
    let q9 = lit_clips();
    let q10 = enc_clips(p.clips);
    let q11 = lit_rbrace();
    let r11 = q11;
    let r10 = q10 + r11;
    let r9 = q9 + r10;
    let r8 = q8 + r9;
    let r7 = q7 + r8;
    let r6 = q6 + r7;
    let r5 = q5 + r6;
    let r4 = q4 + r5;
    let r3 = q3 + r4;
    let r2b = q2b + r3;
    let r2 = q2 + r2b;
    let s = enc_project(p);
    lemma_assoc(q1 + q2 + q2b + q3 + q4 + q5 + q6 + q7 + q8 + q9, q10, q11);
    lemma_assoc(q1 + q2 + q2b + q3 + q4 + q5 + q6 + q7 + q8, q9, r10);
    lemma_assoc(q1 + q2 + q2b + q3 + q4 + q5 + q6 + q7, q8, r9);
    lemma_assoc(q1 + q2 + q2b + q3 + q4 + q5 + q6, q7, r8);
    lemma_assoc(q1 + q2 + q2b + q3 + q4 + q5, q6, r7);
    lemma_assoc(q1 + q2 + q2b + q3 + q4, q5, r6);
    lemma_assoc(q1 + q2 + q2b + q3, q4, r5);
    lemma_assoc(q1 + q2 + q2b, q3, r4);
    lemma_assoc(q1 + q2, q2b, r3);
    lemma_assoc(q1, q2, r2b);
    assert(s == q1 + r2);
    lemma_dec_digits_shape(p.width);
    lemma_dec_digits_shape(p.height);
    lemma_dec_digits_shape(p.framerate);
    // the whole document, then the opening brace and the first key
    let w1 = seq!['"'] + r2;
    lemma_split_lit_name(r2);
    let m1 = seq!['"'] + ("name"@ + (seq!['"'] + (seq![':'] + w1)));
    assert(s == seq!['{'] + m1);
    assert(s[0] == '{');
    lemma_ws_noop(s);
    assert(s.drop_first() =~= m1);
    assert(m1[0] == '"');
    lemma_ws_noop(m1);
    // member: name
    let acc0 = PartialProject::empty();
    let acc1 = PartialProject { name: Some(p.name), ..acc0 };
    assert(w1[0] == '"' && !is_ws(w1[0]));
    assert(w1.drop_first() =~= r2);
    lemma_assoc(q2, q2b, r3);
    lemma_sp_quoted_enc(p.name, Seq::empty(), r3);
    assert(Seq::<char>::empty() + p.name =~= p.name);
    assert(sp_pvalue("name"@, acc0, w1) == Some((acc1, r3)));
    assert(r3[0] == ',' && r3[1] == '"');
    lemma_pmember_step("name"@, w1, r3, acc0, acc1);
    // member: width
    lemma_split_lit_width(r4);
    let m2 = seq!['"'] + ("width"@ + (seq!['"'] + (seq![':'] + r4)));
    assert(r3 == seq![','] + m2);
    assert(r3.drop_first() =~= m2);
    let acc2 = PartialProject { width: Some(p.width), ..acc1 };
    assert(r5[0] == ',' && r5[1] == '"');
    lemma_sp_u32_enc(p.width, r5);
    assert(r4[0] == q4[0] && is_digit(r4[0]) && !is_ws(r4[0]));
    assert("width"@ != "name"@);
    assert(sp_pvalue("width"@, acc1, r4) == Some((acc2, r5)));
    lemma_pmember_step("width"@, r4, r5, acc1, acc2);
    // member: height
    lemma_split_lit_height(r6);
    let m3 = seq!['"'] + ("height"@ + (seq!['"'] + (seq![':'] + r6)));
    assert(r5 == seq![','] + m3);
    assert(r5.drop_first() =~= m3);
    let acc3 = PartialProject { height: Some(p.height), ..acc2 };
    assert(r7[0] == ',' && r7[1] == '"');
    lemma_sp_u32_enc(p.height, r7);
    assert(r6[0] == q6[0] && is_digit(r6[0]) && !is_ws(r6[0]));
    assert("height"@ != "name"@ && "height"@ != "width"@);
    assert(sp_pvalue("height"@, acc2, r6) == Some((acc3, r7)));
    lemma_pmember_step("height"@, r6, r7, acc2, acc3);
    // member: framerate
    lemma_split_lit_framerate(r8);
    let m4 = seq!['"'] + ("framerate"@ + (seq!['"'] + (seq![':'] + r8)));
    assert(r7 == seq![','] + m4);
    assert(r7.drop_first() =~= m4);
    let acc4 = PartialProject { framerate: Some(p.framerate), ..acc3 };
    assert(r9[0] == ',' && r9[1] == '"');
    lemma_sp_u32_enc(p.framerate, r9);
    assert(r8[0] == q8[0] && is_digit(r8[0]) && !is_ws(r8[0]));
    assert("framerate"@ != "name"@ && "framerate"@ != "width"@ && "framerate"@ != "height"@);
    assert(sp_pvalue("framerate"@, acc3, r8) == Some((acc4, r9)));
    lemma_pmember_step("framerate"@, r8, r9, acc3, acc4);
    // member: clips, and the closing brace
    lemma_split_lit_clips(r10);
    let w5 = seq!['['] + r10;
    let m5 = seq!['"'] + ("clips"@ + (seq!['"'] + (seq![':'] + w5)));
    assert(r9 == seq![','] + m5);
    assert(r9.drop_first() =~= m5);
    let acc5 = PartialProject { clips: Some(p.clips), ..acc4 };
    assert(w5[0] == '[' && !is_ws(w5[0]));
    assert(w5.drop_first() =~= r10);
    if p.clips.len() == 0 {
        assert(r10[0] == ']');
    } else {
        assert(enc_clips(p.clips)[0] == '{');
        assert(r10[0] == '{');
    }
    lemma_ws_noop(r10);
    lemma_sp_clips_list_enc(p.clips, Seq::empty(), r11);
    assert(Seq::<ClipModel>::empty() + p.clips =~= p.clips);
    assert("clips"@ != "name"@ && "clips"@ != "width"@ && "clips"@ != "height"@ && "clips"@
        != "framerate"@);
    assert(sp_pvalue("clips"@, acc4, w5) == Some((acc5, r11)));
    assert(r11[0] == '}');
    lemma_pmember_step("clips"@, w5, r11, acc4, acc5);
    assert(r11.drop_first() =~= Seq::<char>::empty());
    // the loop walks the five members and stops at the brace
    assert(sp_pmember_loop(m1, acc0) == Some((acc5, Seq::<char>::empty())));
    let built = ProjectModel {
        name: acc5.name.unwrap(),
        width: acc5.width.unwrap(),
        height: acc5.height.unwrap(),
        framerate: acc5.framerate.unwrap(),
        clips: acc5.clips.unwrap(),
    };
    assert(built =~= p);
}

// ------------------------------------------------------------------
// The encoder
// ------------------------------------------------------------------

/// Relies on `String`'s `FromIterator<char>` implementation: collecting
/// characters yields the string of exactly those characters, in order.
#[verifier::external_body]
fn chars_to_string(v: &Vec<char>) -> (s: String)
    ensures
        s@ == v@,
{
    v.iter().collect()
}

/// Appends every character of a literal chunk.
fn push_lit(out: &mut Vec<char>, l: &str)
    ensures
        final(out)@ == old(out)@ + l@,
{
    let n: usize = l.unicode_len();
    let mut i: usize = 0;
    while i < n
        invariant
            n == l@.len(),
            i <= n,
            out@ == old(out)@ + l@.take(i as int),
        decreases n - i,
    {
        let c = l.get_char(i);
        out.push(c);
        proof {
            assert(old(out)@ + l@.take(i as int + 1) =~= (old(out)@ + l@.take(i as int)).push(
                l@[i as int],
            ));
        }
        i += 1;
    }
    proof {
        assert(l@.take(n as int) =~= l@);
    }
}

/// The decimal digit character for a value below ten.
fn digit_char_exec(d: u64) -> (c: char)
    requires
        d < 10,
    ensures
        c == digit_char(d as int),
{
    if d == 0 {
        '0'
    } else if d == 1 {
        '1'
    } else if d == 2 {
        '2'
    } else if d == 3 {
        '3'
    } else if d == 4 {
        '4'
    } else if d == 5 {
        '5'
    } else if d == 6 {
        '6'
    } else if d == 7 {
        '7'
    } else if d == 8 {
        '8'
    } else {
        '9'
    }
}

/// Appends the decimal digits of `n`, most significant first.
fn push_dec(out: &mut Vec<char>, n: u64)
    ensures
        final(out)@ == old(out)@ + dec_digits(n as int),
    decreases n,
{
    if n < 10 {
        out.push(digit_char_exec(n));
        proof {
            assert(old(out)@ + dec_digits(n as int) =~= old(out)@.push(digit_char(n as int)));
        }
    } else {
        push_dec(out, n / 10);
        out.push(digit_char_exec(n % 10));
        proof {
            assert(dec_digits(n as int) == dec_digits(n as int / 10).push(
                digit_char(n as int % 10),
            ));
            assert(old(out)@ + dec_digits(n as int) =~= (old(out)@ + dec_digits(
                n as int / 10,
            )).push(digit_char(n as int % 10)));
        }
    }
}

/// Appends a possibly negative integer in decimal.
fn push_i64(out: &mut Vec<char>, v: i64)
    ensures
        final(out)@ == old(out)@ + enc_i64(v as int),
{
    if v < 0 {
        out.push('-');
        let neg: i128 = -(v as i128);
        let mag: u64 = neg as u64;
        proof {
            assert(mag as int == -(v as int));
        }
        push_dec(out, mag);
        proof {
            assert(old(out)@ + enc_i64(v as int) =~= old(out)@.push('-') + dec_digits(
                -(v as int),
            ));
        }
    } else {
        push_dec(out, v as u64);
    }
}

/// Appending one more character extends an escaped string by its escape.
proof fn lemma_enc_str_push(s: Seq<char>, x: char)
    ensures
        enc_str(s.push(x)) == enc_str(s) + esc_char(x),
    decreases s.len(),
{
    if s.len() == 0 {
        assert(s.push(x) =~= seq![x]);
        assert(seq![x].drop_first() =~= Seq::<char>::empty());
        assert(enc_str(seq![x]) == esc_char(x) + enc_str(Seq::<char>::empty()));
        assert(esc_char(x) + Seq::<char>::empty() =~= esc_char(x));
        assert(enc_str(s) + esc_char(x) =~= esc_char(x));
    } else {
        assert(s.push(x)[0] == s[0]);
        assert(s.push(x).drop_first() =~= s.drop_first().push(x));
        lemma_enc_str_push(s.drop_first(), x);
        lemma_assoc(esc_char(s[0]), enc_str(s.drop_first()), esc_char(x));
    }
}

/// Appends a string field's characters, escaping `"` and `\`.
fn push_str_escaped(out: &mut Vec<char>, s: &str)
    ensures
        final(out)@ == old(out)@ + enc_str(s@),
{
    let n: usize = s.unicode_len();
    let mut i: usize = 0;
    while i < n
        invariant
            n == s@.len(),
            i <= n,
            out@ == old(out)@ + enc_str(s@.take(i as int)),
        decreases n - i,
    {
        let ghost head = out@;
        let c = s.get_char(i);
        if c == '"' || c == '\\' {
            out.push('\\');
            out.push(c);
        } else {
            out.push(c);
        }
        proof {
            assert(s@.take(i as int + 1) =~= s@.take(i as int).push(s@[i as int]));
            lemma_enc_str_push(s@.take(i as int), s@[i as int]);
            if c == '"' || c == '\\' {
                assert(old(out)@ + enc_str(s@.take(i as int + 1)) =~= head.push('\\').push(c));
            } else {
                assert(old(out)@ + enc_str(s@.take(i as int + 1)) =~= head.push(c));
            }
        }
        i += 1;
    }
    proof {
        assert(s@.take(n as int) =~= s@);
    }
}

/// Appends one clip as it appears in a document.
fn encode_clip(out: &mut Vec<char>, c: &Clip)
    ensures
        final(out)@ == old(out)@ + enc_clip(c@),
{
    push_lit(out, "{\"id\":");
    push_dec(out, c.id as u64);
    push_lit(out, ",\"video_path\":\"");
    push_str_escaped(out, c.video_path.as_str());
    let ghost before_quote = out@;
    out.push('"');
    proof {
        assert(out@ =~= before_quote + seq!['"']);
    }
    push_lit(out, ",\"track_id\":");
    push_dec(out, c.track_id as u64);
    push_lit(out, ",\"start_time\":");
    push_i64(out, c.start_time);
    push_lit(out, ",\"duration\":");
    push_i64(out, c.duration);
    push_lit(out, ",\"source_start\":");
    push_i64(out, c.source_start);
    push_lit(out, "}");
    proof {
        let o = old(out)@;
        let q1 = lit_id();
        let q2 = dec_digits(c@.id);
        let q3 = lit_video_path();
        let q4 = enc_str(c@.video_path);
        let q4b = seq!['"'];
        let q5 = lit_track_id();
        let q6 = dec_digits(c@.track_id);
        let q7 = lit_start_time();
        let q8 = enc_i64(c@.start_time);
        let q9 = lit_duration();
        let q10 = enc_i64(c@.duration);
        let q11 = lit_source_start();
        let q12 = enc_i64(c@.source_start);
        let q13 = lit_rbrace();
        lemma_assoc(o, q1, q2);
        lemma_assoc(o, q1 + q2, q3);
        lemma_assoc(o, q1 + q2 + q3, q4);
        lemma_assoc(o, q1 + q2 + q3 + q4, q4b);
        lemma_assoc(o, q1 + q2 + q3 + q4 + q4b, q5);
        lemma_assoc(o, q1 + q2 + q3 + q4 + q4b + q5, q6);
        lemma_assoc(o, q1 + q2 + q3 + q4 + q4b + q5 + q6, q7);
        lemma_assoc(o, q1 + q2 + q3 + q4 + q4b + q5 + q6 + q7, q8);
        lemma_assoc(o, q1 + q2 + q3 + q4 + q4b + q5 + q6 + q7 + q8, q9);
        lemma_assoc(o, q1 + q2 + q3 + q4 + q4b + q5 + q6 + q7 + q8 + q9, q10);
        lemma_assoc(o, q1 + q2 + q3 + q4 + q4b + q5 + q6 + q7 + q8 + q9 + q10, q11);
        lemma_assoc(o, q1 + q2 + q3 + q4 + q4b + q5 + q6 + q7 + q8 + q9 + q10 + q11, q12);
        lemma_assoc(o, q1 + q2 + q3 + q4 + q4b + q5 + q6 + q7 + q8 + q9 + q10 + q11 + q12, q13);
        assert(out@ == o + enc_clip(c@));
    }
}

/// Appends the clip array from its first element on, closing bracket
/// included.
fn encode_clips(out: &mut Vec<char>, clips: &Vec<Clip>)
    ensures
        final(out)@ == old(out)@ + enc_clips(clips@.map_values(|c: Clip| c@)),
{
    let ghost cm = clips@.map_values(|c: Clip| c@);
    let n: usize = clips.len();
    if n == 0 {
        out.push(']');
        proof {
            assert(enc_clips(cm) == seq![']']);
            assert(out@ =~= old(out)@ + enc_clips(cm));
        }
        return ;
    }
    encode_clip(out, &clips[0]);
    let ghost mut emitted: Seq<char> = enc_clip(cm[0]);
    proof {
        assert(cm[0] == clips@[0]@);
        assert(cm.drop_first() =~= cm.skip(1));
        assert(enc_clips(cm) == emitted + enc_clips_rest(cm.skip(1)));
    }
    let mut i: usize = 1;
    while i < n
        invariant
            n == clips.len(),
            1 <= i <= n,
            cm == clips@.map_values(|c: Clip| c@),
            cm.len() == n,
            out@ == old(out)@ + emitted,
            enc_clips(cm) == emitted + enc_clips_rest(cm.skip(i as int)),
        decreases n - i,
    {
        let ghost head = out@;
        out.push(',');
        encode_clip(out, &clips[i]);
        proof {
            assert(cm[i as int] == clips@[i as int]@);
            let piece = seq![','] + enc_clip(cm[i as int]);
            assert(out@ =~= old(out)@ + (emitted + piece));
            assert(cm.skip(i as int)[0] == cm[i as int]);
            assert(cm.skip(i as int).drop_first() =~= cm.skip(i as int + 1));
            assert(enc_clips_rest(cm.skip(i as int)) == seq![','] + enc_clip(cm[i as int])
                + enc_clips_rest(cm.skip(i as int + 1)));
            lemma_assoc(seq![','], enc_clip(cm[i as int]), enc_clips_rest(cm.skip(i as int + 1)));
            lemma_assoc(emitted, piece, enc_clips_rest(cm.skip(i as int + 1)));
            emitted = emitted + piece;
        }
        i += 1;
    }
    out.push(']');
    proof {
        assert(cm.skip(n as int).len() == 0);
        assert(enc_clips_rest(cm.skip(n as int)) == seq![']']);
        assert(out@ =~= old(out)@ + (emitted + seq![']']));
    }
}

impl ProjectData {
    /// Encodes the project as a document: exactly its encoding, character
    /// for character.
    pub fn encode(&self) -> (out: Vec<char>)
        ensures
            out@ == enc_project(self@),
    {
        let mut out: Vec<char> = Vec::new();
        push_lit(&mut out, "{\"name\":\"");
        push_str_escaped(&mut out, self.name.as_str());
        let ghost before_quote = out@;
        out.push('"');
        proof {
            assert(out@ =~= before_quote + seq!['"']);
        }
        push_lit(&mut out, ",\"width\":");
        push_dec(&mut out, self.width as u64);
        push_lit(&mut out, ",\"height\":");
        push_dec(&mut out, self.height as u64);
        push_lit(&mut out, ",\"framerate\":");
        push_dec(&mut out, self.framerate as u64);
        push_lit(&mut out, ",\"clips\":[");
        encode_clips(&mut out, &self.clips);
        push_lit(&mut out, "}");
        proof {
            let o = Seq::<char>::empty();
            let q1 = lit_name();
            let q2 = enc_str(self@.name);
            let q2b = seq!['"'];
            let q3 = lit_width();
            let q4 = dec_digits(self@.width);
            let q5 = lit_height();
            let q6 = dec_digits(self@.height);
            let q7 = lit_framerate();
            let q8 = dec_digits(self@.framerate);
            let q9 = lit_clips();
            let q10 = enc_clips(self@.clips);
            let q11 = lit_rbrace();
            lemma_assoc(o, q1, q2);
            lemma_assoc(o, q1 + q2, q2b);
            lemma_assoc(o, q1 + q2 + q2b, q3);
            lemma_assoc(o, q1 + q2 + q2b + q3, q4);
            lemma_assoc(o, q1 + q2 + q2b + q3 + q4, q5);
            lemma_assoc(o, q1 + q2 + q2b + q3 + q4 + q5, q6);
            lemma_assoc(o, q1 + q2 + q2b + q3 + q4 + q5 + q6, q7);
            lemma_assoc(o, q1 + q2 + q2b + q3 + q4 + q5 + q6 + q7, q8);
            lemma_assoc(o, q1 + q2 + q2b + q3 + q4 + q5 + q6 + q7 + q8, q9);
            lemma_assoc(o, q1 + q2 + q2b + q3 + q4 + q5 + q6 + q7 + q8 + q9, q10);
            lemma_assoc(o, q1 + q2 + q2b + q3 + q4 + q5 + q6 + q7 + q8 + q9 + q10, q11);
            assert(o + enc_project(self@) =~= enc_project(self@));
            assert(out@ == enc_project(self@));
        }
        out
    }
}

// ------------------------------------------------------------------
// The decoder
// ------------------------------------------------------------------

/// The numeric value of a decimal digit character, if it is one.
fn digit_of(c: char) -> (r: Option<u64>)
    ensures
        match r {
            Some(d) => is_digit(c) && d < 10 && digit_val(c) == d as int,
            None => !is_digit(c),
        },
{
    match c {
        '0' => Some(0),
        '1' => Some(1),
        '2' => Some(2),
        '3' => Some(3),
        '4' => Some(4),
        '5' => Some(5),
        '6' => Some(6),
        '7' => Some(7),
        '8' => Some(8),
        '9' => Some(9),
        _ => None,
    }
}

/// Consumes an exact literal chunk starting at `i`.
fn expect_lit(s: &Vec<char>, i: usize, l: &str) -> (r: Option<usize>)
    requires
        i <= s@.len(),
    ensures
        match r {
            Some(j) => i <= j <= s@.len() && sp_lit(s@.skip(i as int), l@) == Some(
                s@.skip(j as int),
            ),
            None => sp_lit(s@.skip(i as int), l@) is None,
        },
{
    let n: usize = l.unicode_len();
    let slen: usize = s.len();
    if n > slen - i {
        return None;
    }
    let mut k: usize = 0;
    while k < n
        invariant
            slen == s@.len(),
            i + n <= slen,
            k <= n,
            n == l@.len(),
            forall|m: int| 0 <= m < k ==> s@[i as int + m] == l@[m],
        decreases n - k,
    {
        if s[i + k] != l.get_char(k) {
            proof {
                assert(s@.skip(i as int).take(n as int)[k as int] == s@[i as int + k as int]);
                assert(s@.skip(i as int).take(n as int) != l@);
            }
            return None;
        }
        k += 1;
    }
    proof {
        assert(s@.skip(i as int).take(n as int) =~= l@);
        assert(s@.skip(i as int).skip(n as int) =~= s@.skip(i as int + n as int));
    }
    Some(i + n)
}

/// Consumes a maximal digit run starting at `i`: the value read (with an
/// overflow flag when it exceeds the accumulator type) and the next index.
fn parse_digit_run(s: &Vec<char>, i: usize) -> (r: (u64, bool, usize))
    requires
        i <= s@.len(),
    ensures
        ({
            let (v, rest) = sp_digits(s@.skip(i as int), 0);
            &&& i <= r.2 <= s@.len()
            &&& rest == s@.skip(r.2 as int)
            &&& (if r.1 {
                v > u64::MAX as int
            } else {
                v == r.0 as int
            })
        }),
{
    let n: usize = s.len();
    let mut j: usize = i;
    let mut acc: u64 = 0;
    let mut over: bool = false;
    let ghost mut g: int = 0;
    while j < n
        invariant
            i <= j <= n,
            n == s@.len(),
            0 <= g,
            sp_digits(s@.skip(i as int), 0) == sp_digits(s@.skip(j as int), g),
            (if over {
                g > u64::MAX as int
            } else {
                g == acc as int
            }),
        decreases n - j,
    {
        let ghost g0 = g;
        let d = match digit_of(s[j]) {
            None => {
                proof {
                    assert(s@.skip(j as int)[0] == s@[j as int]);
                }
                return (acc, over, j);
            },
            Some(d) => d,
        };
        proof {
            assert(s@.skip(j as int)[0] == s@[j as int]);
            assert(s@.skip(j as int).drop_first() =~= s@.skip(j as int + 1));
            g = g0 * 10 + d as int;
        }
        if !over {
            let limit: u64 = (u64::MAX - d) / 10;
            proof {
                vstd::arithmetic::div_mod::lemma_fundamental_div_mod(u64::MAX as int - d as int, 10);
            }
            if acc <= limit {
                proof {
                    assert(acc as int * 10 + d as int <= u64::MAX as int) by (nonlinear_arith)
                        requires
                            acc as int <= (u64::MAX as int - d as int) / 10,
                            u64::MAX as int - d as int == 10 * ((u64::MAX as int - d as int) / 10)
                                + (u64::MAX as int - d as int) % 10,
                            (u64::MAX as int - d as int) % 10 >= 0,
                            d < 10,
                    ;
                }
                acc = acc * 10 + d;
            } else {
                proof {
                    assert(acc as int * 10 + d as int > u64::MAX as int) by (nonlinear_arith)
                        requires
                            acc as int >= (u64::MAX as int - d as int) / 10 + 1,
                            u64::MAX as int - d as int == 10 * ((u64::MAX as int - d as int) / 10)
                                + (u64::MAX as int - d as int) % 10,
                            (u64::MAX as int - d as int) % 10 < 10,
                            d >= 0,
                    ;
                }
                over = true;
            }
        } else {
            proof {
                assert(g0 * 10 + d as int > u64::MAX as int);
            }
        }
        j += 1;
    }
    proof {
        assert(s@.skip(n as int).len() == 0);
    }
    (acc, over, j)
}

/// Consumes a nonnegative integer that must fit a `u32` field.
fn parse_u32(s: &Vec<char>, i: usize) -> (r: Option<(u32, usize)>)
    requires
        i <= s@.len(),
    ensures
        match r {
            Some((v, j)) => i <= j <= s@.len() && sp_u32(s@.skip(i as int)) == Some(
                (v as int, s@.skip(j as int)),
            ),
            None => sp_u32(s@.skip(i as int)) is None,
        },
{
    if i >= s.len() {
        proof {
            assert(s@.skip(i as int).len() == 0);
        }
        return None;
    }
    proof {
        assert(s@.skip(i as int)[0] == s@[i as int]);
    }
    if s[i] == '0' {
        proof {
            assert(s@.skip(i as int).drop_first() =~= s@.skip(i as int + 1));
        }
        return Some((0, i + 1));
    }
    match digit_of(s[i]) {
        None => {
            return None;
        },
        Some(_) => {},
    }
    let (acc, over, j) = parse_digit_run(s, i);
    if over {
        return None;
    }
    if acc > u32::MAX as u64 {
        return None;
    }
    Some((acc as u32, j))
}

/// Consumes an integer that must fit an `i64` field.
fn parse_i64(s: &Vec<char>, i: usize) -> (r: Option<(i64, usize)>)
    requires
        i <= s@.len(),
    ensures
        match r {
            Some((v, j)) => i <= j <= s@.len() && sp_i64(s@.skip(i as int)) == Some(
                (v as int, s@.skip(j as int)),
            ),
            None => sp_i64(s@.skip(i as int)) is None,
        },
{
    if i < s.len() && s[i] == '-' {
        proof {
            assert(s@.skip(i as int)[0] == '-');
            assert(s@.skip(i as int).drop_first() =~= s@.skip(i as int + 1));
        }
        let i1: usize = i + 1;
        if i1 >= s.len() {
            proof {
                assert(s@.skip(i1 as int).len() == 0);
            }
            return None;
        }
        proof {
            assert(s@.skip(i1 as int)[0] == s@[i1 as int]);
        }
        if s[i1] == '0' {
            proof {
                assert(s@.skip(i1 as int).drop_first() =~= s@.skip(i1 as int + 1));
            }
            return Some((0, i1 + 1));
        }
        match digit_of(s[i1]) {
            None => {
                return None;
            },
            Some(_) => {},
        }
        let (acc, over, j) = parse_digit_run(s, i1);
        if over {
            return None;
        }
        if acc > 9223372036854775808u64 {
            return None;
        }
        let v: i64 = if acc == 9223372036854775808u64 {
            i64::MIN
        } else {
            -(acc as i64)
        };
        Some((v, j))
    } else {
        if i >= s.len() {
            proof {
                assert(s@.skip(i as int).len() == 0);
            }
            return None;
        }
        proof {
            assert(s@.skip(i as int)[0] == s@[i as int]);
        }
        if s[i] == '0' {
            proof {
                assert(s@.skip(i as int).drop_first() =~= s@.skip(i as int + 1));
            }
            return Some((0, i + 1));
        }
        match digit_of(s[i]) {
            None => {
                return None;
            },
            Some(_) => {},
        }
        let (acc, over, j) = parse_digit_run(s, i);
        if over {
            return None;
        }
        if acc > i64::MAX as u64 {
            return None;
        }
        Some((acc as i64, j))
    }
}

/// Consumes a string field's characters up to and including the closing
/// unescaped quote.
fn parse_quoted(s: &Vec<char>, i: usize) -> (r: Option<(Vec<char>, usize)>)
    requires
        i <= s@.len(),
    ensures
        match r {
            Some((t, j)) => i <= j <= s@.len() && sp_quoted(s@.skip(i as int), Seq::empty())
                == Some((t@, s@.skip(j as int))),
            None => sp_quoted(s@.skip(i as int), Seq::empty()) is None,
        },
{
    let n: usize = s.len();
    let mut j: usize = i;
    let mut t: Vec<char> = Vec::new();
    while j < n
        invariant
            i <= j <= n,
            n == s@.len(),
            sp_quoted(s@.skip(i as int), Seq::empty()) == sp_quoted(s@.skip(j as int), t@),
        decreases n - j,
    {
        proof {
            assert(s@.skip(j as int)[0] == s@[j as int]);
        }
        let c = s[j];
        if c == '"' {
            proof {
                assert(s@.skip(j as int).drop_first() =~= s@.skip(j as int + 1));
            }
            return Some((t, j + 1));
        } else if c == '\\' {
            if n - j < 2 {
                return None;
            }
            proof {
                assert(s@.skip(j as int)[1] == s@[j as int + 1]);
                assert(s@.skip(j as int).skip(2) =~= s@.skip(j as int + 2));
            }
            t.push(s[j + 1]);
            j += 2;
        } else {
            proof {
                assert(s@.skip(j as int).drop_first() =~= s@.skip(j as int + 1));
            }
            t.push(c);
            j += 1;
        }
    }
    proof {
        assert(s@.skip(n as int).len() == 0);
    }
    None
}

/// Whether `c` is insignificant whitespace between tokens.
fn is_ws_exec(c: char) -> (b: bool)
    ensures
        b == is_ws(c),
{
    c == ' ' || c == '\t' || c == '\n' || c == '\r'
}

/// Skips insignificant whitespace starting at `i`.
fn skip_ws(s: &Vec<char>, i: usize) -> (j: usize)
    requires
        i <= s@.len(),
    ensures
        i <= j <= s@.len(),
        sp_ws(s@.skip(i as int)) == s@.skip(j as int),
{
    let n: usize = s.len();
    let mut j: usize = i;
    while j < n
        invariant
            i <= j <= n,
            n == s@.len(),
            sp_ws(s@.skip(i as int)) == sp_ws(s@.skip(j as int)),
        decreases n - j,
    {
        proof {
            assert(s@.skip(j as int)[0] == s@[j as int]);
        }
        if !is_ws_exec(s[j]) {
            return j;
        }
        proof {
            assert(s@.skip(j as int).drop_first() =~= s@.skip(j as int + 1));
        }
        j += 1;
    }
    proof {
        assert(s@.skip(n as int).len() == 0);
    }
    j
}

/// Whether the collected characters spell exactly the given word.
fn chars_eq_str(v: &Vec<char>, l: &str) -> (b: bool)
    ensures
        b == (v@ == l@),
{
    let n: usize = l.unicode_len();
    if v.len() != n {
        proof {
            assert(v@ != l@);
        }
        return false;
    }
    let mut k: usize = 0;
    while k < n
        invariant
            n == l@.len(),
            v@.len() == n,
            k <= n,
            forall|m: int| 0 <= m < k ==> v@[m] == l@[m],
        decreases n - k,
    {
        if v[k] != l.get_char(k) {
            proof {
                assert(v@ != l@);
            }
            return false;
        }
        k += 1;
    }
    proof {
        assert(v@ =~= l@);
    }
    true
}

/// Skips a string's remaining characters, after its opening quote.
fn skip_string_x(s: &Vec<char>, i: usize) -> (r: Option<usize>)
    requires
        i <= s@.len(),
    ensures
        match r {
            Some(j) => i <= j <= s@.len() && sp_skip_string(s@.skip(i as int)) == Some(
                s@.skip(j as int),
            ),
            None => sp_skip_string(s@.skip(i as int)) is None,
        },
{
    let n: usize = s.len();
    let mut j: usize = i;
    while j < n
        invariant
            i <= j <= n,
            n == s@.len(),
            sp_skip_string(s@.skip(i as int)) == sp_skip_string(s@.skip(j as int)),
        decreases n - j,
    {
        proof {
            assert(s@.skip(j as int)[0] == s@[j as int]);
        }
        let c = s[j];
        if c == '"' {
            proof {
                assert(s@.skip(j as int).drop_first() =~= s@.skip(j as int + 1));
            }
            return Some(j + 1);
        } else if c == '\\' {
            if n - j < 2 {
                return None;
            }
            proof {
                assert(s@.skip(j as int).skip(2) =~= s@.skip(j as int + 2));
            }
            j += 2;
        } else {
            proof {
                assert(s@.skip(j as int).drop_first() =~= s@.skip(j as int + 1));
            }
            j += 1;
        }
    }
    proof {
        assert(s@.skip(n as int).len() == 0);
    }
    None
}

/// Skips a nonempty digit run starting at `i`.
fn skip_digits1_x(s: &Vec<char>, i: usize) -> (r: Option<usize>)
    requires
        i <= s@.len(),
    ensures
        match r {
            Some(j) => i <= j <= s@.len() && sp_skip_digits1(s@.skip(i as int)) == Some(
                s@.skip(j as int),
            ),
            None => sp_skip_digits1(s@.skip(i as int)) is None,
        },
{
    if i >= s.len() {
        proof {
            assert(s@.skip(i as int).len() == 0);
        }
        return None;
    }
    proof {
        assert(s@.skip(i as int)[0] == s@[i as int]);
    }
    match digit_of(s[i]) {
        None => {
            return None;
        },
        Some(_) => {},
    }
    let (_value, _over, j) = parse_digit_run(s, i);
    Some(j)
}

/// Skips an unknown member's number, fraction and exponent included.
fn skip_number_x(s: &Vec<char>, i: usize) -> (r: Option<usize>)
    requires
        i <= s@.len(),
    ensures
        match r {
            Some(j) => i <= j <= s@.len() && sp_skip_number(s@.skip(i as int)) == Some(
                s@.skip(j as int),
            ),
            None => sp_skip_number(s@.skip(i as int)) is None,
        },
{
    let n: usize = s.len();
    let mut j: usize = i;
    if j < n {
        proof {
            assert(s@.skip(j as int)[0] == s@[j as int]);
        }
        if s[j] == '-' {
            proof {
                assert(s@.skip(j as int).drop_first() =~= s@.skip(j as int + 1));
            }
            j += 1;
        }
    }
    // the integer part
    if j >= n {
        proof {
            assert(s@.skip(j as int).len() == 0);
        }
        return None;
    }
    proof {
        assert(s@.skip(j as int)[0] == s@[j as int]);
    }
    let j2: usize;
    if s[j] == '0' {
        proof {
            assert(s@.skip(j as int).drop_first() =~= s@.skip(j as int + 1));
        }
        j2 = j + 1;
    } else {
        match digit_of(s[j]) {
            None => {
                return None;
            },
            Some(_) => {},
        }
        let (_value, _over, jj) = parse_digit_run(s, j);
        j2 = jj;
    }
    // the fraction
    let j3: usize;
    if j2 < n {
        proof {
            assert(s@.skip(j2 as int)[0] == s@[j2 as int]);
        }
        if s[j2] == '.' {
            proof {
                assert(s@.skip(j2 as int).drop_first() =~= s@.skip(j2 as int + 1));
            }
            match skip_digits1_x(s, j2 + 1) {
                None => {
                    return None;
                },
                Some(x) => {
                    j3 = x;
                },
            }
        } else {
            j3 = j2;
        }
    } else {
        proof {
            assert(s@.skip(j2 as int).len() == 0);
        }
        j3 = j2;
    }
    // the exponent
    if j3 < n {
        proof {
            assert(s@.skip(j3 as int)[0] == s@[j3 as int]);
        }
        if s[j3] == 'e' || s[j3] == 'E' {
            let j4: usize;
            if j3 + 1 < n && (s[j3 + 1] == '+' || s[j3 + 1] == '-') {
                proof {
                    assert(s@.skip(j3 as int)[1] == s@[j3 as int + 1]);
                    assert(s@.skip(j3 as int).skip(2) =~= s@.skip(j3 as int + 2));
                }
                j4 = j3 + 2;
            } else {
                proof {
                    if j3 + 1 < n {
                        assert(s@.skip(j3 as int)[1] == s@[j3 as int + 1]);
                    }
                    assert(s@.skip(j3 as int).drop_first() =~= s@.skip(j3 as int + 1));
                }
                j4 = j3 + 1;
            }
            match skip_digits1_x(s, j4) {
                None => {
                    return None;
                },
                Some(x) => {
                    return Some(x);
                },
            }
        }
    } else {
        proof {
            assert(s@.skip(j3 as int).len() == 0);
        }
    }
    Some(j3)
}

/// Skips an unknown member's value of any shape.
fn skip_value_x(s: &Vec<char>, i: usize) -> (r: Option<usize>)
    requires
        i <= s@.len(),
    ensures
        match r {
            Some(j) => i <= j <= s@.len() && sp_skip_value(s@.skip(i as int)) == Some(
                s@.skip(j as int),
            ),
            None => sp_skip_value(s@.skip(i as int)) is None,
        },
    decreases s@.len() - i, 2int,
{
    if i >= s.len() {
        proof {
            assert(s@.skip(i as int).len() == 0);
        }
        return None;
    }
    proof {
        assert(s@.skip(i as int)[0] == s@[i as int]);
    }
    let c = s[i];
    if c == '"' {
        proof {
            assert(s@.skip(i as int).drop_first() =~= s@.skip(i as int + 1));
        }
        skip_string_x(s, i + 1)
    } else if c == '{' {
        proof {
            assert(s@.skip(i as int).drop_first() =~= s@.skip(i as int + 1));
        }
        skip_object_x(s, i + 1)
    } else if c == '[' {
        proof {
            assert(s@.skip(i as int).drop_first() =~= s@.skip(i as int + 1));
        }
        skip_array_x(s, i + 1)
    } else if c == 't' {
        expect_lit(s, i, "true")
    } else if c == 'f' {
        expect_lit(s, i, "false")
    } else if c == 'n' {
        expect_lit(s, i, "null")
    } else {
        skip_number_x(s, i)
    }
}

/// Skips an unknown object's remaining text, after its opening brace.
fn skip_object_x(s: &Vec<char>, i: usize) -> (r: Option<usize>)
    requires
        i <= s@.len(),
    ensures
        match r {
            Some(j) => i <= j <= s@.len() && sp_skip_object(s@.skip(i as int)) == Some(
                s@.skip(j as int),
            ),
            None => sp_skip_object(s@.skip(i as int)) is None,
        },
    decreases s@.len() - i, 4int,
{
    let j0 = skip_ws(s, i);
    if j0 < s.len() {
        proof {
            assert(s@.skip(j0 as int)[0] == s@[j0 as int]);
        }
        if s[j0] == '}' {
            proof {
                assert(s@.skip(j0 as int).drop_first() =~= s@.skip(j0 as int + 1));
            }
            return Some(j0 + 1);
        }
    } else {
        proof {
            assert(s@.skip(j0 as int).len() == 0);
        }
    }
    skip_members_x(s, j0)
}

/// Skips an unknown object's members, from a key position on.
fn skip_members_x(s: &Vec<char>, i: usize) -> (r: Option<usize>)
    requires
        i <= s@.len(),
    ensures
        match r {
            Some(j) => i <= j <= s@.len() && sp_skip_members(s@.skip(i as int)) == Some(
                s@.skip(j as int),
            ),
            None => sp_skip_members(s@.skip(i as int)) is None,
        },
    decreases s@.len() - i, 3int,
{
    if i >= s.len() {
        proof {
            assert(s@.skip(i as int).len() == 0);
        }
        return None;
    }
    proof {
        assert(s@.skip(i as int)[0] == s@[i as int]);
    }
    if s[i] != '"' {
        return None;
    }
    proof {
        assert(s@.skip(i as int).drop_first() =~= s@.skip(i as int + 1));
    }
    let j2 = match skip_string_x(s, i + 1) {
        None => {
            return None;
        },
        Some(x) => x,
    };
    let j3 = skip_ws(s, j2);
    if j3 >= s.len() {
        proof {
            assert(s@.skip(j3 as int).len() == 0);
        }
        return None;
    }
    proof {
        assert(s@.skip(j3 as int)[0] == s@[j3 as int]);
    }
    if s[j3] != ':' {
        return None;
    }
    proof {
        assert(s@.skip(j3 as int).drop_first() =~= s@.skip(j3 as int + 1));
    }
    let j5 = skip_ws(s, j3 + 1);
    let j6 = match skip_value_x(s, j5) {
        None => {
            return None;
        },
        Some(x) => x,
    };
    let j7 = skip_ws(s, j6);
    if j7 >= s.len() {
        proof {
            assert(s@.skip(j7 as int).len() == 0);
        }
        return None;
    }
    proof {
        assert(s@.skip(j7 as int)[0] == s@[j7 as int]);
    }
    if s[j7] == '}' {
        proof {
            assert(s@.skip(j7 as int).drop_first() =~= s@.skip(j7 as int + 1));
        }
        return Some(j7 + 1);
    }
    if s[j7] != ',' {
        return None;
    }
    proof {
        assert(s@.skip(j7 as int).drop_first() =~= s@.skip(j7 as int + 1));
    }
    let j9 = skip_ws(s, j7 + 1);
    proof {
        assert(s@.skip(j9 as int).len() < s@.skip(i as int).len());
    }
    skip_members_x(s, j9)
}

/// Skips an unknown array's remaining text, after its opening bracket.
fn skip_array_x(s: &Vec<char>, i: usize) -> (r: Option<usize>)
    requires
        i <= s@.len(),
    ensures
        match r {
            Some(j) => i <= j <= s@.len() && sp_skip_array(s@.skip(i as int)) == Some(
                s@.skip(j as int),
            ),
            None => sp_skip_array(s@.skip(i as int)) is None,
        },
    decreases s@.len() - i, 4int,
{
    let j0 = skip_ws(s, i);
    if j0 < s.len() {
        proof {
            assert(s@.skip(j0 as int)[0] == s@[j0 as int]);
        }
        if s[j0] == ']' {
            proof {
                assert(s@.skip(j0 as int).drop_first() =~= s@.skip(j0 as int + 1));
            }
            return Some(j0 + 1);
        }
    } else {
        proof {
            assert(s@.skip(j0 as int).len() == 0);
        }
    }
    skip_items_x(s, j0)
}

/// Skips an unknown array's items, from an item position on.
fn skip_items_x(s: &Vec<char>, i: usize) -> (r: Option<usize>)
    requires
        i <= s@.len(),
    ensures
        match r {
            Some(j) => i <= j <= s@.len() && sp_skip_items(s@.skip(i as int)) == Some(
                s@.skip(j as int),
            ),
            None => sp_skip_items(s@.skip(i as int)) is None,
        },
    decreases s@.len() - i, 3int,
{
    let j1 = match skip_value_x(s, i) {
        None => {
            return None;
        },
        Some(x) => x,
    };
    let j2 = skip_ws(s, j1);
    if j2 >= s.len() {
        proof {
            assert(s@.skip(j2 as int).len() == 0);
        }
        return None;
    }
    proof {
        assert(s@.skip(j2 as int)[0] == s@[j2 as int]);
    }
    if s[j2] == ']' {
        proof {
            assert(s@.skip(j2 as int).drop_first() =~= s@.skip(j2 as int + 1));
        }
        return Some(j2 + 1);
    }
    if s[j2] != ',' {
        return None;
    }
    proof {
        assert(s@.skip(j2 as int).drop_first() =~= s@.skip(j2 as int + 1));
    }
    let j4 = skip_ws(s, j2 + 1);
    proof {
        assert(s@.skip(j4 as int).len() < s@.skip(i as int).len());
    }
    skip_items_x(s, j4)
}

/// The decoder's clip slots: each member's value once it has been read.
struct ClipSlots {
    id: Option<u32>,
    video_path: Option<Vec<char>>,
    track_id: Option<u32>,
    start_time: Option<i64>,
    duration: Option<i64>,
    source_start: Option<i64>,
}

impl View for ClipSlots {
    type V = PartialClip;

    closed spec fn view(&self) -> PartialClip {
        PartialClip {
            id: match self.id {
                Some(v) => Some(v as int),
                None => None,
            },
            video_path: match self.video_path {
                Some(v) => Some(v@),
                None => None,
            },
            track_id: match self.track_id {
                Some(v) => Some(v as int),
                None => None,
            },
            start_time: match self.start_time {
                Some(v) => Some(v as int),
                None => None,
            },
            duration: match self.duration {
                Some(v) => Some(v as int),
                None => None,
            },
            source_start: match self.source_start {
                Some(v) => Some(v as int),
                None => None,
            },
        }
    }
}

/// Consumes one clip member's value and fills its slot, dispatched on the
/// key just read.
fn clip_member_value(s: &Vec<char>, jc: usize, key: &Vec<char>, slots: &mut ClipSlots) -> (r:
    Result<usize, FormatError>)
    requires
        jc <= s@.len(),
    ensures
        match r {
            Ok(jd) => jc <= jd <= s@.len() && sp_cvalue(key@, old(slots)@, s@.skip(jc as int))
                == Some((final(slots)@, s@.skip(jd as int))),
            Err(_) => sp_cvalue(key@, old(slots)@, s@.skip(jc as int)) is None,
        },
{
    if chars_eq_str(key, "id") {
        if slots.id.is_some() {
            return Err(FormatError::DuplicateField);
        }
        let (v, jx) = match parse_u32(s, jc) {
            None => {
                return Err(FormatError::Number);
            },
            Some(x) => x,
        };
        slots.id = Some(v);
        proof {
            assert(slots@ =~= PartialClip { id: Some(v as int), ..old(slots)@ });
        }
        Ok(jx)
    } else if chars_eq_str(key, "video_path") {
        if slots.video_path.is_some() {
            return Err(FormatError::DuplicateField);
        }
        if jc >= s.len() {
            proof {
                assert(s@.skip(jc as int).len() == 0);
            }
            return Err(FormatError::Framing);
        }
        proof {
            assert(s@.skip(jc as int)[0] == s@[jc as int]);
        }
        if s[jc] != '"' {
            return Err(FormatError::Framing);
        }
        proof {
            assert(s@.skip(jc as int).drop_first() =~= s@.skip(jc as int + 1));
        }
        let (t, jx) = match parse_quoted(s, jc + 1) {
            None => {
                return Err(FormatError::UnterminatedString);
            },
            Some(x) => x,
        };
        let ghost tv = t@;
        slots.video_path = Some(t);
        proof {
            assert(slots@ =~= PartialClip { video_path: Some(tv), ..old(slots)@ });
        }
        Ok(jx)
    } else if chars_eq_str(key, "track_id") {
        if slots.track_id.is_some() {
            return Err(FormatError::DuplicateField);
        }
        let (v, jx) = match parse_u32(s, jc) {
            None => {
                return Err(FormatError::Number);
            },
            Some(x) => x,
        };
        slots.track_id = Some(v);
        proof {
            assert(slots@ =~= PartialClip { track_id: Some(v as int), ..old(slots)@ });
        }
        Ok(jx)
    } else if chars_eq_str(key, "start_time") {
        if slots.start_time.is_some() {
            return Err(FormatError::DuplicateField);
        }
        let (v, jx) = match parse_i64(s, jc) {
            None => {
                return Err(FormatError::Number);
            },
            Some(x) => x,
        };
        slots.start_time = Some(v);
        proof {
            assert(slots@ =~= PartialClip { start_time: Some(v as int), ..old(slots)@ });
        }
        Ok(jx)
    } else if chars_eq_str(key, "duration") {
        if slots.duration.is_some() {
            return Err(FormatError::DuplicateField);
        }
        let (v, jx) = match parse_i64(s, jc) {
            None => {
                return Err(FormatError::Number);
            },
            Some(x) => x,
        };
        slots.duration = Some(v);
        proof {
            assert(slots@ =~= PartialClip { duration: Some(v as int), ..old(slots)@ });
        }
        Ok(jx)
    } else if chars_eq_str(key, "source_start") {
        if slots.source_start.is_some() {
            return Err(FormatError::DuplicateField);
        }
        let (v, jx) = match parse_i64(s, jc) {
            None => {
                return Err(FormatError::Number);
            },
            Some(x) => x,
        };
        slots.source_start = Some(v);
        proof {
            assert(slots@ =~= PartialClip { source_start: Some(v as int), ..old(slots)@ });
        }
        Ok(jx)
    } else {
        match skip_value_x(s, jc) {
            None => Err(FormatError::Framing),
            Some(x) => Ok(x),
        }
    }
}

/// Consumes one clip object starting at `i`.
#[verifier::rlimit(100)]
#[verifier::spinoff_prover]
fn parse_clip_obj(s: &Vec<char>, i: usize) -> (r: Result<(Clip, usize), FormatError>)
    requires
        i <= s@.len(),
    ensures
        match r {
            Ok((c, j)) => i <= j <= s@.len() && sp_clip_obj(s@.skip(i as int)) == Some(
                (c@, s@.skip(j as int)),
            ),
            Err(_) => sp_clip_obj(s@.skip(i as int)) is None,
        },
{
    if i >= s.len() {
        proof {
            assert(s@.skip(i as int).len() == 0);
        }
        return Err(FormatError::Framing);
    }
    proof {
        assert(s@.skip(i as int)[0] == s@[i as int]);
    }
    if s[i] != '{' {
        return Err(FormatError::Framing);
    }
    proof {
        assert(s@.skip(i as int).drop_first() =~= s@.skip(i as int + 1));
    }
    let j2 = skip_ws(s, i + 1);
    if j2 < s.len() {
        proof {
            assert(s@.skip(j2 as int)[0] == s@[j2 as int]);
        }
        if s[j2] == '}' {
            return Err(FormatError::MissingField);
        }
    } else {
        proof {
            assert(s@.skip(j2 as int).len() == 0);
        }
    }
    let mut slots = ClipSlots {
        id: None,
        video_path: None,
        track_id: None,
        start_time: None,
        duration: None,
        source_start: None,
    };
    proof {
        assert(slots@ =~= PartialClip::empty());
    }
    let mut j: usize = j2;
    loop
        invariant
            i < s@.len(),
            i <= j <= s@.len(),
            sp_clip_obj(s@.skip(i as int)) == finish_clip(
                sp_cmember_loop(s@.skip(j as int), slots@),
            ),
        decreases s@.len() - j,
    {
        let ghost acc0 = slots@;
        if j >= s.len() {
            proof {
                assert(s@.skip(j as int).len() == 0);
            }
            return Err(FormatError::Framing);
        }
        proof {
            assert(s@.skip(j as int)[0] == s@[j as int]);
        }
        if s[j] != '"' {
            return Err(FormatError::Framing);
        }
        proof {
            assert(s@.skip(j as int).drop_first() =~= s@.skip(j as int + 1));
        }
        let (key, ja) = match parse_quoted(s, j + 1) {
            None => {
                return Err(FormatError::UnterminatedString);
            },
            Some(x) => x,
        };
        let jb = skip_ws(s, ja);
        if jb >= s.len() {
            proof {
                assert(s@.skip(jb as int).len() == 0);
            }
            return Err(FormatError::Framing);
        }
        proof {
            assert(s@.skip(jb as int)[0] == s@[jb as int]);
        }
        if s[jb] != ':' {
            return Err(FormatError::Framing);
        }
        proof {
            assert(s@.skip(jb as int).drop_first() =~= s@.skip(jb as int + 1));
        }
        let jc = skip_ws(s, jb + 1);
        let jd = match clip_member_value(s, jc, &key, &mut slots) {
            Err(e) => {
                return Err(e);
            },
            Ok(x) => x,
        };
        let je = skip_ws(s, jd);
        if je >= s.len() {
            proof {
                assert(s@.skip(je as int).len() == 0);
            }
            return Err(FormatError::Framing);
        }
        proof {
            assert(s@.skip(je as int)[0] == s@[je as int]);
        }
        if s[je] == '}' {
            proof {
                assert(s@.skip(je as int).drop_first() =~= s@.skip(je as int + 1));
                assert(sp_cmember_loop(s@.skip(j as int), acc0) == Some(
                    (slots@, s@.skip(je as int + 1)),
                ));
            }
            let idv = match slots.id {
                Some(v) => v,
                None => {
                    return Err(FormatError::MissingField);
                },
            };
            let trackv = match slots.track_id {
                Some(v) => v,
                None => {
                    return Err(FormatError::MissingField);
                },
            };
            let startv = match slots.start_time {
                Some(v) => v,
                None => {
                    return Err(FormatError::MissingField);
                },
            };
            let durv = match slots.duration {
                Some(v) => v,
                None => {
                    return Err(FormatError::MissingField);
                },
            };
            let srcv = match slots.source_start {
                Some(v) => v,
                None => {
                    return Err(FormatError::MissingField);
                },
            };
            let pathv = match slots.video_path {
                Some(v) => v,
                None => {
                    return Err(FormatError::MissingField);
                },
            };
            let cl = Clip {
                id: idv,
                video_path: chars_to_string(&pathv),
                track_id: trackv,
                start_time: startv,
                duration: durv,
                source_start: srcv,
            };
            proof {
                assert(cl@ =~= ClipModel {
                    id: idv as int,
                    video_path: pathv@,
                    track_id: trackv as int,
                    start_time: startv as int,
                    duration: durv as int,
                    source_start: srcv as int,
                });
            }
            return Ok((cl, je + 1));
        }
        if s[je] != ',' {
            return Err(FormatError::Framing);
        }
        proof {
            assert(s@.skip(je as int).drop_first() =~= s@.skip(je as int + 1));
        }
        let jf = skip_ws(s, je + 1);
        proof {
            assert(s@.skip(jf as int).len() < s@.skip(j as int).len());
        }
        j = jf;
    }
}

/// Consumes the clip array from a clip-or-bracket position on.
fn parse_clips_list(s: &Vec<char>, i: usize) -> (r: Result<(Vec<Clip>, usize), FormatError>)
    requires
        i <= s@.len(),
    ensures
        match r {
            Ok((v, j)) => i <= j <= s@.len() && sp_clips_list(s@.skip(i as int), Seq::empty())
                == Some((v@.map_values(|c: Clip| c@), s@.skip(j as int))),
            Err(_) => sp_clips_list(s@.skip(i as int), Seq::empty()) is None,
        },
{
    let mut out: Vec<Clip> = Vec::new();
    proof {
        assert(out@.map_values(|c: Clip| c@) =~= Seq::<ClipModel>::empty());
    }
    let mut j: usize = i;
    loop
        invariant
            i <= j <= s@.len(),
            sp_clips_list(s@.skip(i as int), Seq::empty()) == sp_clips_list(
                s@.skip(j as int),
                out@.map_values(|c: Clip| c@),
            ),
        decreases s@.len() - j,
    {
        if j < s.len() {
            proof {
                assert(s@.skip(j as int)[0] == s@[j as int]);
            }
            if s[j] == ']' {
                proof {
                    assert(s@.skip(j as int).drop_first() =~= s@.skip(j as int + 1));
                }
                return Ok((out, j + 1));
            }
        } else {
            proof {
                assert(s@.skip(j as int).len() == 0);
            }
        }
        let (c, ja) = match parse_clip_obj(s, j) {
            Err(e) => {
                return Err(e);
            },
            Ok(x) => x,
        };
        let jb = skip_ws(s, ja);
        if jb >= s.len() {
            proof {
                assert(s@.skip(jb as int).len() == 0);
            }
            return Err(FormatError::Framing);
        }
        proof {
            assert(s@.skip(jb as int)[0] == s@[jb as int]);
        }
        let ghost prev = out@.map_values(|cl: Clip| cl@);
        if s[jb] == ']' {
            proof {
                assert(s@.skip(jb as int).drop_first() =~= s@.skip(jb as int + 1));
            }
            out.push(c);
            proof {
                assert(out@.map_values(|cl: Clip| cl@) =~= prev.push(c@));
            }
            return Ok((out, jb + 1));
        }
        if s[jb] != ',' {
            return Err(FormatError::Framing);
        }
        proof {
            assert(s@.skip(jb as int).drop_first() =~= s@.skip(jb as int + 1));
        }
        let jc = skip_ws(s, jb + 1);
        proof {
            assert(s@.skip(jc as int).len() < s@.skip(j as int).len());
        }
        out.push(c);
        proof {
            assert(out@.map_values(|cl: Clip| cl@) =~= prev.push(c@));
        }
        j = jc;
    }
}

/// The decoder's project slots: each member's value once it has been read.
struct ProjectSlots {
    name: Option<Vec<char>>,
    width: Option<u32>,
    height: Option<u32>,
    framerate: Option<u32>,
    clips: Option<Vec<Clip>>,
}

impl View for ProjectSlots {
    type V = PartialProject;

    closed spec fn view(&self) -> PartialProject {
        PartialProject {
            name: match self.name {
                Some(v) => Some(v@),
                None => None,
            },
            width: match self.width {
                Some(v) => Some(v as int),
                None => None,
            },
            height: match self.height {
                Some(v) => Some(v as int),
                None => None,
            },
            framerate: match self.framerate {
                Some(v) => Some(v as int),
                None => None,
            },
            clips: match self.clips {
                Some(v) => Some(v@.map_values(|c: Clip| c@)),
                None => None,
            },
        }
    }
}

/// Consumes one project member's value and fills its slot, dispatched on
/// the key just read.
fn project_member_value(s: &Vec<char>, jc: usize, key: &Vec<char>, slots: &mut ProjectSlots) -> (r:
    Result<usize, FormatError>)
    requires
        jc <= s@.len(),
    ensures
        match r {
            Ok(jd) => jc <= jd <= s@.len() && sp_pvalue(key@, old(slots)@, s@.skip(jc as int))
                == Some((final(slots)@, s@.skip(jd as int))),
            Err(_) => sp_pvalue(key@, old(slots)@, s@.skip(jc as int)) is None,
        },
{
    if chars_eq_str(key, "name") {
        if slots.name.is_some() {
            return Err(FormatError::DuplicateField);
        }
        if jc >= s.len() {
            proof {
                assert(s@.skip(jc as int).len() == 0);
            }
            return Err(FormatError::Framing);
        }
        proof {
            assert(s@.skip(jc as int)[0] == s@[jc as int]);
        }
        if s[jc] != '"' {
            return Err(FormatError::Framing);
        }
        proof {
            assert(s@.skip(jc as int).drop_first() =~= s@.skip(jc as int + 1));
        }
        let (t, jx) = match parse_quoted(s, jc + 1) {
            None => {
                return Err(FormatError::UnterminatedString);
            },
            Some(x) => x,
        };
        let ghost tv = t@;
        slots.name = Some(t);
        proof {
            assert(slots@ =~= PartialProject { name: Some(tv), ..old(slots)@ });
        }
        Ok(jx)
    } else if chars_eq_str(key, "width") {
        if slots.width.is_some() {
            return Err(FormatError::DuplicateField);
        }
        let (v, jx) = match parse_u32(s, jc) {
            None => {
                return Err(FormatError::Number);
            },
            Some(x) => x,
        };
        slots.width = Some(v);
        proof {
            assert(slots@ =~= PartialProject { width: Some(v as int), ..old(slots)@ });
        }
        Ok(jx)
    } else if chars_eq_str(key, "height") {
        if slots.height.is_some() {
            return Err(FormatError::DuplicateField);
        }
        let (v, jx) = match parse_u32(s, jc) {
            None => {
                return Err(FormatError::Number);
            },
            Some(x) => x,
        };
        slots.height = Some(v);
        proof {
            assert(slots@ =~= PartialProject { height: Some(v as int), ..old(slots)@ });
        }
        Ok(jx)
    } else if chars_eq_str(key, "framerate") {
        if slots.framerate.is_some() {
            return Err(FormatError::DuplicateField);
        }
        let (v, jx) = match parse_u32(s, jc) {
            None => {
                return Err(FormatError::Number);
            },
            Some(x) => x,
        };
        slots.framerate = Some(v);
        proof {
            assert(slots@ =~= PartialProject { framerate: Some(v as int), ..old(slots)@ });
        }
        Ok(jx)
    } else if chars_eq_str(key, "clips") {
        if slots.clips.is_some() {
            return Err(FormatError::DuplicateField);
        }
        if jc >= s.len() {
            proof {
                assert(s@.skip(jc as int).len() == 0);
            }
            return Err(FormatError::Framing);
        }
        proof {
            assert(s@.skip(jc as int)[0] == s@[jc as int]);
        }
        if s[jc] != '[' {
            return Err(FormatError::Framing);
        }
        proof {
            assert(s@.skip(jc as int).drop_first() =~= s@.skip(jc as int + 1));
        }
        let jz = skip_ws(s, jc + 1);
        proof {
            assert(s@.skip(jz as int).len() < s@.skip(jc as int).len());
        }
        let (cl, jx) = match parse_clips_list(s, jz) {
            Err(e) => {
                return Err(e);
            },
            Ok(x) => x,
        };
        let ghost cv = cl@.map_values(|c: Clip| c@);
        slots.clips = Some(cl);
        proof {
            assert(slots@ =~= PartialProject { clips: Some(cv), ..old(slots)@ });
        }
        Ok(jx)
    } else {
        match skip_value_x(s, jc) {
            None => Err(FormatError::Framing),
            Some(x) => Ok(x),
        }
    }
}

impl ProjectData {
    /// Decodes a document: the project it encodes, or why the characters are
    /// not a valid project document.
    #[verifier::rlimit(100)]
    #[verifier::spinoff_prover]
    pub fn decode(s: &Vec<char>) -> (r: Result<ProjectData, FormatError>)
        ensures
            match r {
                Ok(p) => sp_project(s@) == Some(p@) && p@.in_ranges(),
                Err(_) => sp_project(s@) is None,
            },
    {
        proof {
            assert(s@.skip(0) =~= s@);
        }
        let j0 = skip_ws(s, 0);
        if j0 >= s.len() {
            proof {
                assert(s@.skip(j0 as int).len() == 0);
            }
            return Err(FormatError::Framing);
        }
        proof {
            assert(s@.skip(j0 as int)[0] == s@[j0 as int]);
        }
        if s[j0] != '{' {
            return Err(FormatError::Framing);
        }
        proof {
            assert(s@.skip(j0 as int).drop_first() =~= s@.skip(j0 as int + 1));
        }
        let j2 = skip_ws(s, j0 + 1);
        if j2 < s.len() {
            proof {
                assert(s@.skip(j2 as int)[0] == s@[j2 as int]);
            }
            if s[j2] == '}' {
                return Err(FormatError::MissingField);
            }
        } else {
            proof {
                assert(s@.skip(j2 as int).len() == 0);
            }
        }
        let mut slots = ProjectSlots {
            name: None,
            width: None,
            height: None,
            framerate: None,
            clips: None,
        };
        proof {
            assert(slots@ =~= PartialProject::empty());
        }
        let mut j: usize = j2;
        loop
            invariant
                j <= s@.len(),
                sp_project(s@) == finish_project(sp_pmember_loop(s@.skip(j as int), slots@)),
            decreases s@.len() - j,
        {
            let ghost acc0 = slots@;
            if j >= s.len() {
                proof {
                    assert(s@.skip(j as int).len() == 0);
                }
                return Err(FormatError::Framing);
            }
            proof {
                assert(s@.skip(j as int)[0] == s@[j as int]);
            }
            if s[j] != '"' {
                return Err(FormatError::Framing);
            }
            proof {
                assert(s@.skip(j as int).drop_first() =~= s@.skip(j as int + 1));
            }
            let (key, ja) = match parse_quoted(s, j + 1) {
                None => {
                    return Err(FormatError::UnterminatedString);
                },
                Some(x) => x,
            };
            let jb = skip_ws(s, ja);
            if jb >= s.len() {
                proof {
                    assert(s@.skip(jb as int).len() == 0);
                }
                return Err(FormatError::Framing);
            }
            proof {
                assert(s@.skip(jb as int)[0] == s@[jb as int]);
            }
            if s[jb] != ':' {
                return Err(FormatError::Framing);
            }
            proof {
                assert(s@.skip(jb as int).drop_first() =~= s@.skip(jb as int + 1));
            }
            let jc = skip_ws(s, jb + 1);
            let jd = match project_member_value(s, jc, &key, &mut slots) {
                Err(e) => {
                    return Err(e);
                },
                Ok(x) => x,
            };
            let je = skip_ws(s, jd);
            if je >= s.len() {
                proof {
                    assert(s@.skip(je as int).len() == 0);
                }
                return Err(FormatError::Framing);
            }
            proof {
                assert(s@.skip(je as int)[0] == s@[je as int]);
            }
            if s[je] == '}' {
                proof {
                    assert(s@.skip(je as int).drop_first() =~= s@.skip(je as int + 1));
                    assert(sp_pmember_loop(s@.skip(j as int), acc0) == Some(
                        (slots@, s@.skip(je as int + 1)),
                    ));
                }
                let jt = skip_ws(s, je + 1);
                if jt != s.len() {
                    proof {
                        assert(s@.skip(jt as int).len() > 0);
                    }
                    return Err(FormatError::TrailingData);
                }
                proof {
                    assert(s@.skip(jt as int).len() == 0);
                }
                let wv = match slots.width {
                    Some(v) => v,
                    None => {
                        return Err(FormatError::MissingField);
                    },
                };
                let hv = match slots.height {
                    Some(v) => v,
                    None => {
                        return Err(FormatError::MissingField);
                    },
                };
                let frv = match slots.framerate {
                    Some(v) => v,
                    None => {
                        return Err(FormatError::MissingField);
                    },
                };
                let namev = match slots.name {
                    Some(v) => v,
                    None => {
                        return Err(FormatError::MissingField);
                    },
                };
                let clipsv = match slots.clips {
                    Some(v) => v,
                    None => {
                        return Err(FormatError::MissingField);
                    },
                };
                let p = ProjectData {
                    name: chars_to_string(&namev),
                    width: wv,
                    height: hv,
                    framerate: frv,
                    clips: clipsv,
                };
                proof {
                    assert(p@ =~= ProjectModel {
                        name: namev@,
                        width: wv as int,
                        height: hv as int,
                        framerate: frv as int,
                        clips: p.clips@.map_values(|c: Clip| c@),
                    });
                    assert forall|k: int|
                        0 <= k < p@.clips.len() implies (#[trigger] p@.clips[k]).in_ranges() by {
                        assert(p@.clips[k] == p.clips@[k]@);
                    }
                }
                return Ok(p);
            }
            if s[je] != ',' {
                return Err(FormatError::Framing);
            }
            proof {
                assert(s@.skip(je as int).drop_first() =~= s@.skip(je as int + 1));
            }
            let jf = skip_ws(s, je + 1);
            proof {
                assert(s@.skip(jf as int).len() < s@.skip(j as int).len());
            }
            j = jf;
        }
    }
}

} // verus!
