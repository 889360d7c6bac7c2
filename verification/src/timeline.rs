//! The timeline state machine: clip placement and removal, the derived
//! timeline duration, the playback cursor and the play flag.

use vstd::prelude::*;

verus! {

/// A clip placed on the timeline: a reference to a media source, the track it
/// sits on, its position and length on the time axis, and the trim offset
/// into the source. All times are integer ticks.
pub struct Clip {
    pub id: u32,
    pub video_path: String,
    pub track_id: u32,
    pub start_time: i64,
    pub duration: i64,
    pub source_start: i64,
}

/// Mathematical model of a [`Clip`]: the same fields over unbounded integers
/// and character sequences.
#[verifier::ext_equal]
pub ghost struct ClipModel {
    pub id: int,
    pub video_path: Seq<char>,
    pub track_id: int,
    pub start_time: int,
    pub duration: int,
    pub source_start: int,
}

impl View for Clip {
    type V = ClipModel;

    open spec fn view(&self) -> ClipModel {
        ClipModel {
            id: self.id as int,
            video_path: self.video_path@,
            track_id: self.track_id as int,
            start_time: self.start_time as int,
            duration: self.duration as int,
            source_start: self.source_start as int,
        }
    }
}

impl ClipModel {
    /// The tick at which the clip ends on the time axis.
    pub open spec fn end_time(self) -> int {
        self.start_time + self.duration
    }

    /// Machine limit: the clip's end tick is representable in the tick type,
    /// so the duration query cannot overflow while adding it up.
    pub open spec fn end_in_range(self) -> bool {
        i64::MIN as int <= self.end_time() <= i64::MAX as int
    }

    /// Every field fits the machine type that carries it in a [`Clip`].
    pub open spec fn in_ranges(self) -> bool {
        &&& 0 <= self.id <= u32::MAX as int
        &&& 0 <= self.track_id <= u32::MAX as int
        &&& i64::MIN as int <= self.start_time <= i64::MAX as int
        &&& i64::MIN as int <= self.duration <= i64::MAX as int
        &&& i64::MIN as int <= self.source_start <= i64::MAX as int
    }
}

impl Clip {
    /// Deep copy: a new clip with the very same field values.
    pub fn duplicate(&self) -> (c: Clip)
        ensures
            c@ == self@,
    {
        Clip {
            id: self.id,
            video_path: self.video_path.clone(),
            track_id: self.track_id,
            start_time: self.start_time,
            duration: self.duration,
            source_start: self.source_start,
        }
    }

    /// Whether the clip's end tick is representable, so that the duration
    /// query stays within the tick type.
    pub fn fits(&self) -> (b: bool)
        ensures
            b == self@.end_in_range(),
    {
        let sum: i128 = self.start_time as i128 + self.duration as i128;
        i64::MIN as i128 <= sum && sum <= i64::MAX as i128
    }
}

/// The aggregate state of one editing session: the placed clips in insertion
/// order, the playback cursor, the play flag, the display zoom factor and the
/// advisory id counter.
pub struct TimelineState {
    pub clips: Vec<Clip>,
    pub current_time: i64,
    pub playing: bool,
    pub zoom_level: i64,
    pub next_clip_id: u32,
}

/// Mathematical model of a [`TimelineState`].
#[verifier::ext_equal]
pub ghost struct TimelineModel {
    pub clips: Seq<ClipModel>,
    pub current_time: int,
    pub playing: bool,
    pub zoom_level: int,
    pub next_clip_id: int,
}

impl View for TimelineState {
    type V = TimelineModel;

    open spec fn view(&self) -> TimelineModel {
        TimelineModel {
            clips: self.clips@.map_values(|c: Clip| c@),
            current_time: self.current_time as int,
            playing: self.playing,
            zoom_level: self.zoom_level as int,
            next_clip_id: self.next_clip_id as int,
        }
    }
}

/// The predicate that [`TimelineModel::remove_clip`] keeps clips by: every
/// clip whose id differs from the removed one stays.
pub open spec fn keeps(id: int) -> spec_fn(ClipModel) -> bool {
    |c: ClipModel| c.id != id
}

/// The timeline duration of a clip sequence: the maximum clip end tick, or
/// zero when there are no clips.
pub open spec fn duration_of(clips: Seq<ClipModel>) -> int
    decreases clips.len(),
{
    if clips.len() == 0 {
        0
    } else if clips.len() == 1 {
        clips.last().end_time()
    } else {
        let rest = duration_of(clips.drop_last());
        let last = clips.last().end_time();
        if last >= rest {
            last
        } else {
            rest
        }
    }
}

impl TimelineModel {
    /// The state a fresh editing session starts in.
    pub open spec fn initial() -> TimelineModel {
        TimelineModel {
            clips: Seq::empty(),
            current_time: 0,
            playing: false,
            zoom_level: 1,
            next_clip_id: 1,
        }
    }

    /// The same state with the clip sequence replaced wholesale.
    pub open spec fn with_clips(self, clips: Seq<ClipModel>) -> TimelineModel {
        TimelineModel { clips, ..self }
    }

    /// Transition: append a clip unconditionally, id collisions included.
    pub open spec fn add_clip(self, c: ClipModel) -> TimelineModel {
        self.with_clips(self.clips.push(c))
    }

    /// Transition: drop every clip carrying the given id.
    pub open spec fn remove_clip(self, id: int) -> TimelineModel {
        self.with_clips(self.clips.filter(keeps(id)))
    }

    /// Transition: move the cursor, clamped to the time axis origin.
    pub open spec fn seek(self, t: int) -> TimelineModel {
        TimelineModel { current_time: if t < 0 { 0 } else { t }, ..self }
    }

    /// Transition: flip the play flag.
    pub open spec fn toggle(self) -> TimelineModel {
        TimelineModel { playing: !self.playing, ..self }
    }

    /// The derived timeline duration.
    pub open spec fn duration(self) -> int {
        duration_of(self.clips)
    }

    /// Machine limit on the clips alone: every end tick is representable.
    pub open spec fn clips_fit(self) -> bool {
        forall|i: int| 0 <= i < self.clips.len() ==> (#[trigger] self.clips[i]).end_in_range()
    }

    /// Well-formed session state: the cursor sits at or after the origin and
    /// every clip end tick is representable.
    pub open spec fn wf(self) -> bool {
        &&& 0 <= self.current_time
        &&& self.clips_fit()
    }
}

impl TimelineState {
    /// A fresh session: no clips, cursor at the origin, paused, unit zoom.
    pub fn new() -> (t: TimelineState)
        ensures
            t@ == TimelineModel::initial(),
            t@.wf(),
    {
        let t = TimelineState {
            clips: Vec::new(),
            current_time: 0,
            playing: false,
            zoom_level: 1,
            next_clip_id: 1,
        };
        proof {
            assert(t@ =~= TimelineModel::initial());
        }
        t
    }

    /// Appends the clip to the sequence unconditionally; nothing else moves.
    pub fn add_clip(&mut self, clip: Clip)
        ensures
            final(self)@ == old(self)@.add_clip(clip@),
            old(self)@.wf() && clip@.end_in_range() ==> final(self)@.wf(),
    {
        self.clips.push(clip);
        proof {
            assert(self@.clips =~= old(self)@.clips.push(clip@));
            assert(self@ =~= old(self)@.add_clip(clip@));
        }
    }

    /// Removes every clip whose id equals the argument; removing an absent id
    /// is a no-op, not an error.
    pub fn remove_clip(&mut self, clip_id: u32)
        ensures
            final(self)@ == old(self)@.remove_clip(clip_id as int),
            old(self)@.wf() ==> final(self)@.wf(),
    {
        let ghost target = old(self)@.clips;
        let mut kept: Vec<Clip> = Vec::new();
        let n: usize = self.clips.len();
        let mut i: usize = 0;
        while i < n
            invariant
                n == self.clips.len(),
                i <= n,
                *self == *old(self),
                target == self@.clips,
                target.len() == n,
                kept@.map_values(|c: Clip| c@) == target.take(i as int).filter(keeps(clip_id as int)),
            decreases n - i,
        {
            proof {
                assert(target.take(i as int + 1).drop_last() =~= target.take(i as int));
                assert(target.take(i as int + 1).last() == target[i as int]);
                assert(target[i as int] == self.clips@[i as int]@);
                reveal(Seq::filter);
            }
            if self.clips[i].id != clip_id {
                kept.push(self.clips[i].duplicate());
            }
            proof {
                assert(kept@.map_values(|c: Clip| c@) =~= target.take(i as int + 1).filter(
                    keeps(clip_id as int),
                ));
            }
            i += 1;
        }
        self.clips = kept;
        proof {
            assert(target.take(n as int) =~= target);
            assert(self@ =~= old(self)@.remove_clip(clip_id as int));
            if old(self)@.wf() {
                assert forall|j: int|
                    0 <= j < self@.clips.len() implies (#[trigger] self@.clips[j]).end_in_range() by {
                    lemma_filter_elem_of(target, keeps(clip_id as int), j);
                    let c = self@.clips[j];
                    let k = choose|k: int| 0 <= k < target.len() && target[k] == c;
                    assert(target[k].end_in_range());
                }
            }
        }
    }

    /// Returns the maximum clip end tick, or zero when no clip is placed.
    pub fn get_duration(&self) -> (d: i64)
        requires
            self@.clips_fit(),
        ensures
            d as int == self@.duration(),
    {
        let n: usize = self.clips.len();
        if n == 0 {
            return 0;
        }
        assert(self@.clips[0].end_in_range());
        let mut d: i64 = self.clips[0].start_time + self.clips[0].duration;
        proof {
            assert(self@.clips.take(1).last() == self@.clips[0]);
        }
        let mut i: usize = 1;
        while i < n
            invariant
                n == self.clips.len(),
                1 <= i <= n,
                self@.clips_fit(),
                d as int == duration_of(self@.clips.take(i as int)),
            decreases n - i,
        {
            assert(self@.clips[i as int].end_in_range());
            let e = self.clips[i].start_time + self.clips[i].duration;
            proof {
                assert(self@.clips.take(i as int + 1).drop_last() =~= self@.clips.take(i as int));
                assert(self@.clips.take(i as int + 1).last() == self@.clips[i as int]);
            }
            if e >= d {
                d = e;
            }
            i += 1;
        }
        proof {
            assert(self@.clips.take(n as int) =~= self@.clips);
        }
        d
    }

    /// Moves the cursor to the given tick, clamped to the origin from below;
    /// seeking past the duration is permitted.
    pub fn seek(&mut self, time: i64)
        ensures
            final(self)@ == old(self)@.seek(time as int),
            old(self)@.wf() ==> final(self)@.wf(),
    {
        self.current_time = if time < 0 {
            0
        } else {
            time
        };
        proof {
            assert(self@ =~= old(self)@.seek(time as int));
        }
    }

    /// Flips the play flag and returns its new value.
    pub fn toggle_playback(&mut self) -> (playing: bool)
        ensures
            final(self)@ == old(self)@.toggle(),
            playing == final(self)@.playing,
            old(self)@.wf() ==> final(self)@.wf(),
    {
        self.playing = !self.playing;
        proof {
            assert(self@ =~= old(self)@.toggle());
        }
        self.playing
    }

    /// Whether every placed clip has a representable end tick, so that
    /// [`TimelineState::get_duration`] may be asked.
    pub fn clips_fit(&self) -> (b: bool)
        ensures
            b == self@.clips_fit(),
    {
        let n: usize = self.clips.len();
        let mut i: usize = 0;
        while i < n
            invariant
                n == self.clips.len(),
                i <= n,
                forall|j: int| 0 <= j < i ==> (#[trigger] self@.clips[j]).end_in_range(),
            decreases n - i,
        {
            if !self.clips[i].fits() {
                proof {
                    assert(self@.clips[i as int] == self.clips@[i as int]@);
                    assert(!self@.clips[i as int].end_in_range());
                }
                return false;
            }
            proof {
                assert(self@.clips[i as int] == self.clips@[i as int]@);
            }
            i += 1;
        }
        true
    }
}

/// The timeline duration is the maximum clip end tick: every clip ends at or
/// before it, and some clip attains it whenever any clip is placed.
pub proof fn lemma_duration_is_max(clips: Seq<ClipModel>)
    ensures
        forall|i: int| 0 <= i < clips.len() ==> (#[trigger] clips[i]).end_time() <= duration_of(clips),
        clips.len() > 0 ==> exists|i: int|
            0 <= i < clips.len() && (#[trigger] clips[i]).end_time() == duration_of(clips),
    decreases clips.len(),
{
    if clips.len() == 1 {
        assert(clips.last() == clips[0]);
        assert(clips[0].end_time() == duration_of(clips));
    } else if clips.len() > 1 {
        lemma_duration_is_max(clips.drop_last());
        assert forall|i: int|
            0 <= i < clips.len() implies (#[trigger] clips[i]).end_time() <= duration_of(clips) by {
            if i < clips.len() - 1 {
                assert(clips.drop_last()[i] == clips[i]);
            }
        }
        if duration_of(clips) == clips.last().end_time() {
            assert(clips[clips.len() - 1].end_time() == duration_of(clips));
        } else {
            let j = choose|j: int|
                0 <= j < clips.drop_last().len() && (#[trigger] clips.drop_last()[j]).end_time()
                    == duration_of(clips.drop_last());
            assert(clips[j].end_time() == duration_of(clips));
        }
    }
}

/// Adding a clip never lowers the reported duration — except to the empty
/// timeline, which reports zero while the new clip may end at a negative
/// tick.
pub proof fn lemma_add_clip_duration_monotone(m: TimelineModel, c: ClipModel)
    requires
        m.clips.len() > 0 || c.end_time() >= 0,
    ensures
        m.add_clip(c).duration() >= m.duration(),
{
    let pushed = m.clips.push(c);
    assert(pushed.drop_last() =~= m.clips);
    assert(pushed.last() == c);
}

/// Removing clips by id never raises the reported duration, as long as the
/// timeline did not report a negative duration (an emptied timeline reports
/// zero).
pub proof fn lemma_remove_clip_duration_monotone(m: TimelineModel, id: int)
    requires
        m.duration() >= 0,
    ensures
        m.remove_clip(id).duration() <= m.duration(),
{
    let f = m.clips.filter(keeps(id));
    if f.len() > 0 {
        lemma_duration_is_max(f);
        lemma_duration_is_max(m.clips);
        let i = choose|i: int| 0 <= i < f.len() && (#[trigger] f[i]).end_time() == duration_of(f);
        lemma_filter_elem_of(m.clips, keeps(id), i);
        let k = choose|k: int| 0 <= k < m.clips.len() && m.clips[k] == f[i];
        assert(m.clips[k].end_time() <= duration_of(m.clips));
    }
}

/// Every element of a filtered sequence occurs in the sequence it was
/// filtered from.
proof fn lemma_filter_elem_of(s: Seq<ClipModel>, pred: spec_fn(ClipModel) -> bool, j: int)
    requires
        0 <= j < s.filter(pred).len(),
    ensures
        exists|k: int| 0 <= k < s.len() && s[k] == s.filter(pred)[j],
    decreases s.len(),
{
    reveal(Seq::filter);
    let f = s.filter(pred);
    let fd = s.drop_last().filter(pred);
    if pred(s.last()) && j == fd.len() {
        assert(s[s.len() - 1] == f[j]);
    } else {
        lemma_filter_elem_of(s.drop_last(), pred, j);
        let k = choose|k: int| 0 <= k < s.drop_last().len() && s.drop_last()[k] == fd[j];
        assert(s[k] == f[j]);
    }
}

/// Toggling playback twice returns to the very state it started from: the
/// transition is a pure flip of the play flag.
pub proof fn lemma_toggle_twice(m: TimelineModel)
    ensures
        m.toggle().toggle() == m,
{
    assert(m.toggle().toggle() =~= m);
}

/// Removing an id that no placed clip carries leaves the state unchanged.
pub proof fn lemma_remove_clip_absent(m: TimelineModel, id: int)
    requires
        forall|i: int| 0 <= i < m.clips.len() ==> (#[trigger] m.clips[i]).id != id,
    ensures
        m.remove_clip(id) == m,
{
    lemma_filter_all_kept(m.clips, keeps(id));
    assert(m.remove_clip(id) =~= m);
}

/// A filter whose predicate holds of every element returns the sequence
/// unchanged.
proof fn lemma_filter_all_kept(s: Seq<ClipModel>, pred: spec_fn(ClipModel) -> bool)
    requires
        forall|i: int| 0 <= i < s.len() ==> pred(#[trigger] s[i]),
    ensures
        s.filter(pred) == s,
    decreases s.len(),
{
    reveal(Seq::filter);
    if s.len() > 0 {
        lemma_filter_all_kept(s.drop_last(), pred);
        assert(pred(s.last()));
        assert(s.filter(pred) =~= s);
    }
}

} // verus!
