//! Which tiles an interrupted run has already written.

use vstd::prelude::*;

verus! {

/// The ids of the tiles that are done, in the order in which they were done.
#[derive(Debug)]
pub struct ResumeState {
    pub processed_tiles: Vec<(i32, i32)>,
}

impl View for ResumeState {
    type V = Seq<(i32, i32)>;

    open spec fn view(&self) -> Seq<(i32, i32)> {
        self.processed_tiles@
    }
}

/// What a saved state stands for; without one, no tile is done.
pub open spec fn saved_ids(saved: Option<ResumeState>) -> Seq<(i32, i32)> {
    match saved {
        Some(state) => state@,
        None => Seq::empty(),
    }
}

impl ResumeState {
    /// The state to start from: the saved one, or, where none could be read,
    /// one in which no tile is done.
    pub fn load(saved: Option<ResumeState>) -> (r: ResumeState)
        ensures
            r@ == saved_ids(saved),
            saved matches Some(state) ==> r.processed_tiles@ == state.processed_tiles@,
            saved is None ==> r.processed_tiles@.len() == 0,
    {
        match saved {
            Some(state) => state,
            None => ResumeState { processed_tiles: Vec::new() },
        }
    }

    /// Whether the tile with this id is done.
    pub fn is_processed(&self, id: (i32, i32)) -> (r: bool)
        ensures
            r == self@.contains(id),
            r == self.processed_tiles@.contains(id),
    {
        let mut i: usize = 0;
        while i < self.processed_tiles.len()
            invariant
                i <= self.processed_tiles@.len(),
                forall|k: int| 0 <= k < i ==> self.processed_tiles@[k] != id,
            decreases self.processed_tiles@.len() - i,
        {
            let done = self.processed_tiles[i];
            if done.0 == id.0 && done.1 == id.1 {
                assert(self@[i as int] == id);
                return true;
            }
            i = i + 1;
        }
        false
    }

    /// Notes that the tile with this id is done.
    pub fn record(&mut self, id: (i32, i32))
        ensures
            final(self)@ == old(self)@.push(id),
            final(self).processed_tiles@ == old(self).processed_tiles@.push(id),
    {
        self.processed_tiles.push(id);
    }
}

impl Clone for ResumeState {
    fn clone(&self) -> (r: Self)
        ensures
            r@ == self@,
    {
        let mut processed_tiles: Vec<(i32, i32)> = Vec::new();
        let mut i: usize = 0;
        while i < self.processed_tiles.len()
            invariant
                i <= self.processed_tiles@.len(),
                processed_tiles@ == self.processed_tiles@.take(i as int),
            decreases self.processed_tiles@.len() - i,
        {
            processed_tiles.push(self.processed_tiles[i]);
            i = i + 1;
            assert(processed_tiles@ =~= self.processed_tiles@.take(i as int));
        }
        assert(processed_tiles@ =~= self.processed_tiles@);
        ResumeState { processed_tiles }
    }
}

/// A recorded tile is done from then on, and recording it changes nothing for
/// any other tile.
pub proof fn recording_marks_one_tile(done: Seq<(i32, i32)>, id: (i32, i32), other: (i32, i32))
    ensures
        done.push(id).contains(other) <==> done.contains(other) || other == id,
{
    assert(done.push(id)[done.len() as int] == id);
    if done.contains(other) {
        let k = choose|k: int| 0 <= k < done.len() && done[k] == other;
        assert(done.push(id)[k] == other);
    }
}

/// A record stands for the ids it lists, all of them and in order, and a
/// missing record for none.
pub proof fn a_record_stands_for_its_ids(state: ResumeState)
    ensures
        state@ == state.processed_tiles@,
        saved_ids(Some(state)) == state.processed_tiles@,
        saved_ids(None).len() == 0,
{
}

} // verus!
