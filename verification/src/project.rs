//! The durable project: a named, dimensioned snapshot of the timeline's clip
//! composition, and its translation to and from session state.

use crate::timeline::{Clip, ClipModel, TimelineModel, TimelineState};
use vstd::prelude::*;

verus! {

/// A project: its name, output dimensions and framerate, and a snapshot copy
/// of the clip sequence in insertion order.
pub struct ProjectData {
    pub name: String,
    pub width: u32,
    pub height: u32,
    pub framerate: u32,
    pub clips: Vec<Clip>,
}

/// Mathematical model of a [`ProjectData`].
#[verifier::ext_equal]
pub ghost struct ProjectModel {
    pub name: Seq<char>,
    pub width: int,
    pub height: int,
    pub framerate: int,
    pub clips: Seq<ClipModel>,
}

impl View for ProjectData {
    type V = ProjectModel;

    open spec fn view(&self) -> ProjectModel {
        ProjectModel {
            name: self.name@,
            width: self.width as int,
            height: self.height as int,
            framerate: self.framerate as int,
            clips: self.clips@.map_values(|c: Clip| c@),
        }
    }
}

impl ProjectModel {
    /// Every field fits the machine type that carries it in a
    /// [`ProjectData`]; this is what the document decoder enforces.
    pub open spec fn in_ranges(self) -> bool {
        &&& 0 <= self.width <= u32::MAX as int
        &&& 0 <= self.height <= u32::MAX as int
        &&& 0 <= self.framerate <= u32::MAX as int
        &&& forall|i: int| 0 <= i < self.clips.len() ==> (#[trigger] self.clips[i]).in_ranges()
    }
}

/// Deep copy of a clip sequence: a new vector of clips with the same models
/// in the same order.
pub fn clone_clips(clips: &Vec<Clip>) -> (out: Vec<Clip>)
    ensures
        out@.map_values(|c: Clip| c@) == clips@.map_values(|c: Clip| c@),
{
    let mut out: Vec<Clip> = Vec::new();
    let n: usize = clips.len();
    let mut i: usize = 0;
    while i < n
        invariant
            n == clips.len(),
            i <= n,
            out@.len() == i,
            forall|j: int| 0 <= j < i ==> #[trigger] out@[j]@ == clips@[j]@,
        decreases n - i,
    {
        out.push(clips[i].duplicate());
        i += 1;
    }
    proof {
        assert(out@.map_values(|c: Clip| c@) =~= clips@.map_values(|c: Clip| c@));
    }
    out
}

impl ProjectData {
    /// An empty project with the given name, dimensions and framerate.
    pub fn new(name: String, width: u32, height: u32, framerate: u32) -> (p: ProjectData)
        ensures
            p@.name == name@,
            p@.width == width as int,
            p@.height == height as int,
            p@.framerate == framerate as int,
            p@.clips == Seq::<ClipModel>::empty(),
    {
        let p = ProjectData { name, width, height, framerate, clips: Vec::new() };
        proof {
            assert(p@.clips =~= Seq::<ClipModel>::empty());
        }
        p
    }

    /// Snapshot of a session under the given name: the clip sequence is
    /// deep-copied, so later session edits cannot reach it. The output
    /// dimensions and framerate are fixed defaults for now.
    pub fn from_timeline(timeline: &TimelineState, name: String) -> (p: ProjectData)
        ensures
            p@.name == name@,
            p@.width == 1920,
            p@.height == 1080,
            p@.framerate == 30,
            p@.clips == timeline@.clips,
    {
        ProjectData {
            name,
            width: 1920,
            height: 1080,
            framerate: 30,
            clips: clone_clips(&timeline.clips),
        }
    }

    /// Replaces the session's clip sequence with a deep copy of the
    /// project's; the cursor, play flag, zoom and id counter stay untouched.
    pub fn apply_to_timeline(&self, timeline: &mut TimelineState)
        ensures
            final(timeline)@ == old(timeline)@.with_clips(self@.clips),
            old(timeline)@.wf() && (forall|i: int|
                0 <= i < self@.clips.len() ==> (#[trigger] self@.clips[i]).end_in_range())
                ==> final(timeline)@.wf(),
    {
        timeline.clips = clone_clips(&self.clips);
        proof {
            assert(timeline@ =~= old(timeline)@.with_clips(self@.clips));
        }
    }
}

} // verus!
