//! Playback of recorded tracks, with no tracker attached.

use vstd::prelude::*;
use crate::track::{views, Track, TrackView};

verus! {

/// `index` is where the last track of the name stands.
pub open spec fn last_of(tracks: Seq<TrackView>, name: Seq<char>, index: int) -> bool {
    &&& 0 <= index < tracks.len()
    &&& tracks[index].name == name
    &&& forall|j: int| index < j < tracks.len() ==> tracks[j].name != name
}

/// Recorded tracks, found by name. The tracks never change.
#[derive(Debug)]
pub struct Player {
    tracks: Vec<Track>,
}

impl View for Player {
    type V = Seq<TrackView>;

    closed spec fn view(&self) -> Seq<TrackView> {
        views(self.tracks@)
    }
}

impl Player {
    /// A player of the given tracks, in the order of the recording.
    pub fn new(tracks: Vec<Track>) -> (player: Player)
        ensures
            player@ == views(tracks@),
    {
        Player { tracks: tracks }
    }

    /// The track of a name. Where the recording holds several tracks of one
    /// name, the last of them stands for the name.
    pub fn get_track(&self, name: &str) -> (found: Option<&Track>)
        ensures
            match found {
                Some(track) => exists|index: int|
                    last_of(self@, name@, index) && self@[index] == track@,
                None => forall|i: int| 0 <= i < self@.len() ==> self@[i].name != name@,
            },
    {
        let mut i: usize = self.tracks.len();
        while i > 0
            invariant
                i <= self.tracks@.len(),
                forall|j: int| i <= j < self.tracks@.len() ==> views(self.tracks@)[j].name != name@,
            decreases i,
        {
            i -= 1;
            if self.tracks[i].has_name(name) {
                assert(last_of(self@, name@, i as int));
                return Some(&self.tracks[i]);
            }
        }
        None
    }
}

} // verus!
