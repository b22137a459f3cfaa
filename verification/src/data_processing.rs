//! A run over the tiles of a world, as a sequence of tasks.

use crate::args::Args;
use crate::batching::{can_be_split, split_bbox_into_tiles, tile_bbox, tiling, tiling_fits, Tile};
use crate::buckets::{bucket_in, get_bucket};
use crate::coordinates::{Rect, XZBBox};
use crate::dispatch::{element_generator, generator_of, Generator};
use crate::elements::{element_views, ElementView, ProcessedElement};
use crate::grid::{cells, CellWalk};
use crate::partition::{bucket, partition_elements_by_tile};
use crate::regions::{region_keys, region_rect};
use crate::resume::{recording_marks_one_tile, saved_ids, ResumeState};
use crate::tile_laws::{a_negative_size_gives_one_empty_tile, tiles_lie_in_the_area};
use crate::world_laws::{
    columns_are_filled_as_asked, the_record_is_carried_on, without_a_file_nothing_is_recorded,
};
use std::collections::BTreeMap;
use vstd::prelude::*;

pub use crate::ground::MIN_Y;

verus! {

/// What to do next in a run.
pub enum TaskView {
    /// Start on a tile: open an editor for its columns.
    Open { area: Rect },
    /// Let a generator draw an element.
    Draw { generator: Generator, element: ElementView },
    /// Lay the ground of a column; `fill` says whether to fill below it.
    Ground { x: i32, z: i32, fill: bool },
    /// Write the tile while holding the locks of these regions.
    Save { regions: Seq<(i32, i32)> },
    /// Store which tiles are done.
    Record { done: Seq<(i32, i32)> },
    /// Count one more tile as handled.
    Advance,
}

/// How a run treats its tiles.
#[derive(Debug, Clone, Copy, PartialEq, Eq, Structural)]
pub struct RunSettings {
    /// Fill the underground with stone.
    pub fill: bool,
    /// Keep a record of the tiles that are done.
    pub record: bool,
    /// The run is for a single tile: it takes no locks, keeps no record and
    /// counts no tiles.
    pub worker: bool,
}

/// Drawing the elements, in order; those without a generator are passed over.
pub open spec fn drawing(elements: Seq<ElementView>) -> Seq<TaskView>
    decreases elements.len(),
{
    if elements.len() == 0 {
        Seq::empty()
    } else {
        match generator_of(elements[0]) {
            Some(generator) => seq![TaskView::Draw { generator, element: elements[0] }] + drawing(
                elements.drop_first(),
            ),
            None => drawing(elements.drop_first()),
        }
    }
}

/// Laying the ground, column by column.
pub open spec fn grounding(columns: Seq<(i32, i32)>, fill: bool) -> Seq<TaskView> {
    columns.map_values(|c: (i32, i32)| TaskView::Ground { x: c.0, z: c.1, fill })
}

/// The ids that are done once a tile is.
pub open spec fn done_after(
    done: Seq<(i32, i32)>,
    id: (i32, i32),
    settings: RunSettings,
) -> Seq<(i32, i32)> {
    if settings.record && !settings.worker {
        done.push(id)
    } else {
        done
    }
}

/// The tasks after a tile has been written.
pub open spec fn noting(
    tile: Tile,
    settings: RunSettings,
    done: Seq<(i32, i32)>,
) -> Seq<TaskView> {
    if settings.worker {
        Seq::empty()
    } else if settings.record {
        seq![TaskView::Record { done: done.push(tile.id) }, TaskView::Advance]
    } else {
        seq![TaskView::Advance]
    }
}

/// The regions to lock while a tile is written.
pub open spec fn locked(tile: Tile, settings: RunSettings) -> Seq<(i32, i32)> {
    if settings.worker {
        Seq::empty()
    } else {
        cells(region_rect(tile.rect()))
    }
}

/// Writing a tile, and what follows.
pub open spec fn closing(
    tile: Tile,
    settings: RunSettings,
    done: Seq<(i32, i32)>,
) -> Seq<TaskView> {
    seq![TaskView::Save { regions: locked(tile, settings) }] + noting(tile, settings, done)
}

/// All tasks of one tile.
pub open spec fn tile_tasks(
    tile: Tile,
    elements: Seq<ElementView>,
    settings: RunSettings,
    done: Seq<(i32, i32)>,
) -> Seq<TaskView> {
    seq![TaskView::Open { area: tile.rect() }] + drawing(elements) + grounding(
        cells(tile.rect()),
        settings.fill,
    ) + closing(tile, settings, done)
}

/// The tasks of a run: tile by tile, where a tile that is done is only
/// counted. `lists` gives the elements of a tile by the tile's id.
pub open spec fn script(
    tiles: Seq<Tile>,
    lists: spec_fn((i32, i32)) -> Seq<ElementView>,
    settings: RunSettings,
    done: Seq<(i32, i32)>,
) -> Seq<TaskView>
    decreases tiles.len(),
{
    if tiles.len() == 0 {
        Seq::empty()
    } else if done.contains(tiles[0].id) {
        seq![TaskView::Advance] + script(tiles.drop_first(), lists, settings, done)
    } else {
        tile_tasks(tiles[0], lists(tiles[0].id), settings, done) + script(
            tiles.drop_first(),
            lists,
            settings,
            done_after(done, tiles[0].id, settings),
        )
    }
}

/// The elements of each tile, by id.
pub open spec fn lists_of(elements: Seq<ElementView>, tiles: Seq<Tile>) -> spec_fn(
    (i32, i32),
) -> Seq<ElementView> {
    |id: (i32, i32)| bucket(elements, tiles, id)
}

/// The ids that are done when a run over all tiles begins: those on record,
/// where a record is kept.
pub open spec fn starting_ids(args: Args, saved: Option<ResumeState>) -> Seq<(i32, i32)> {
    if args.resume_file is Some {
        saved_ids(saved)
    } else {
        Seq::empty()
    }
}

/// The settings of a run over all tiles.
pub open spec fn full_settings(args: Args) -> RunSettings {
    RunSettings { fill: args.fillground, record: args.resume_file is Some, worker: false }
}

/// The settings of a worker's run.
pub open spec fn worker_settings(args: Args) -> RunSettings {
    RunSettings { fill: args.fillground, record: false, worker: true }
}

/// The area can be split, and every tile that is not done holds a column: a
/// negative tile size gives one tile, which holds none.
pub open spec fn run_fits(area: Rect, args: Args, saved: Option<ResumeState>) -> bool {
    &&& tiling_fits(area, args.tile_size as int)
    &&& args.tile_size > 0 || starting_ids(args, saved).contains((0i32, 0i32))
}

/// The tasks of a run over all tiles of an area.
pub open spec fn world_tasks(
    elements: Seq<ElementView>,
    area: Rect,
    args: Args,
    saved: Option<ResumeState>,
) -> Seq<TaskView> {
    script(
        tiling(area, args.tile_size as int),
        lists_of(elements, tiling(area, args.tile_size as int)),
        full_settings(args),
        starting_ids(args, saved),
    )
}

/// The tasks of a worker's run.
pub open spec fn worker_tasks(elements: Seq<ElementView>, tile: Tile, args: Args) -> Seq<TaskView> {
    script(seq![tile], lists_of(elements, seq![tile]), worker_settings(args), Seq::empty())
}

/// A task of a run.
#[derive(Debug)]
pub enum Task {
    /// Start on a tile: open an editor for its columns.
    Open { bbox: XZBBox },
    /// Let a generator draw an element.
    Draw { generator: Generator, element: ProcessedElement },
    /// Lay the ground of a column; `fill` says whether to fill below it.
    Ground { x: i32, z: i32, fill: bool },
    /// Write the tile while holding the locks of these regions, taken in this
    /// order and kept until the tile is counted.
    Save { regions: Vec<(i32, i32)> },
    /// Store which tiles are done.
    Record { state: ResumeState },
    /// Count one more tile as handled.
    Advance,
}

impl View for Task {
    type V = TaskView;

    open spec fn view(&self) -> TaskView {
        match self {
            Task::Open { bbox } => TaskView::Open { area: bbox@ },
            Task::Draw { generator, element } => TaskView::Draw {
                generator: *generator,
                element: element@,
            },
            Task::Ground { x, z, fill } => TaskView::Ground { x: *x, z: *z, fill: *fill },
            Task::Save { regions } => TaskView::Save { regions: regions@ },
            Task::Record { state } => TaskView::Record { done: state@ },
            Task::Advance => TaskView::Advance,
        }
    }
}

/// Where a run stands within its current tile.
#[derive(Debug, Clone, Copy)]
enum Phase {
    Start,
    Draw(usize),
    Ground(CellWalk),
    Save,
    Record,
    Advance,
}

/// A run over tiles; its view is the tasks still to come.
pub struct WorldRun {
    tiles: Vec<Tile>,
    buckets: BTreeMap<(i32, i32), Vec<ProcessedElement>>,
    settings: RunSettings,
    done: ResumeState,
    index: usize,
    phase: Phase,
}

impl View for WorldRun {
    type V = Seq<TaskView>;

    closed spec fn view(&self) -> Seq<TaskView> {
        let tile = self.tile();
        let next_done = done_after(self.done@, tile.id, self.settings);
        match self.phase {
            Phase::Start => script(
                self.tiles@.skip(self.index as int),
                self.lists(),
                self.settings,
                self.done@,
            ),
            Phase::Draw(k) => drawing(self.lists()(tile.id).skip(k as int)) + grounding(
                cells(tile.rect()),
                self.settings.fill,
            ) + closing(tile, self.settings, self.done@) + self.later(next_done),
            Phase::Ground(walk) => grounding(walk@, self.settings.fill) + closing(
                tile,
                self.settings,
                self.done@,
            ) + self.later(next_done),
            Phase::Save => closing(tile, self.settings, self.done@) + self.later(next_done),
            Phase::Record => noting(tile, self.settings, self.done@) + self.later(next_done),
            Phase::Advance => seq![TaskView::Advance] + self.later(self.done@),
        }
    }
}

impl WorldRun {
    spec fn tile(self) -> Tile {
        self.tiles@[self.index as int]
    }

    spec fn lists(self) -> spec_fn((i32, i32)) -> Seq<ElementView> {
        |id: (i32, i32)| bucket_in(self.buckets@, id)
    }

    /// The tasks of the tiles after the current one.
    spec fn later(self, done: Seq<(i32, i32)>) -> Seq<TaskView> {
        script(self.tiles@.skip(self.index + 1), self.lists(), self.settings, done)
    }

    /// The current tile exists and is not finished, and every tile that will
    /// be opened has a bounding box.
    #[verifier::type_invariant]
    spec fn at_a_task(self) -> bool {
        &&& self.index <= self.tiles.len()
        &&& self.phase !is Start ==> self.index < self.tiles.len()
        &&& self.phase matches Phase::Draw(k) ==> k <= self.lists()(self.tile().id).len()
        &&& self.phase is Record ==> self.settings.record && !self.settings.worker
        &&& self.phase is Advance ==> !self.settings.worker
        &&& forall|i: int|
            self.index <= i < self.tiles@.len() ==> (#[trigger] self.tiles@[i]).spec_has_extent()
                || self.done@.contains(self.tiles@[i].id)
    }

    /// The tiles of the run.
    pub closed spec fn all_tiles(self) -> Seq<Tile> {
        self.tiles@
    }

    /// The tiles of the run, in order.
    pub fn tiles(&self) -> (r: &Vec<Tile>)
        ensures
            r@ == self.all_tiles(),
    {
        &self.tiles
    }

    /// A run over all tiles of a bounding box. `saved` is the record of an
    /// earlier run, if one could be read.
    pub fn new(
        elements: &[ProcessedElement],
        xzbbox: &XZBBox,
        args: &Args,
        saved: Option<ResumeState>,
    ) -> (r: WorldRun)
        requires
            run_fits(xzbbox@, *args, saved),
        ensures
            r.all_tiles() == tiling(xzbbox@, args.tile_size as int),
            r@ == script(
                tiling(xzbbox@, args.tile_size as int),
                lists_of(element_views(elements@), tiling(xzbbox@, args.tile_size as int)),
                full_settings(*args),
                starting_ids(*args, saved),
            ),
            r@ == world_tasks(element_views(elements@), xzbbox@, *args, saved),
            forall|i: int|
                0 <= i < r@.len() ==> (#[trigger] r@[i] matches TaskView::Ground { x, z, fill }
                    ==> fill == args.fillground),
            args.resume_file is None ==> forall|i: int|
                0 <= i < r@.len() ==> #[trigger] r@[i] !is Record,
            args.resume_file is Some && saved is Some ==> forall|i: int|
                0 <= i < r@.len() ==> (#[trigger] r@[i] matches TaskView::Record { done }
                    ==> done.len() > saved->Some_0.processed_tiles@.len() && done.subrange(
                    0,
                    saved->Some_0.processed_tiles@.len() as int,
                ) == saved->Some_0.processed_tiles@),
    {
        let tiles = split_bbox_into_tiles(xzbbox, args.tile_size);
        let buckets = partition_elements_by_tile(elements, tiles.as_slice());
        let done = match &args.resume_file {
            Some(_) => ResumeState::load(saved),
            None => ResumeState::load(None),
        };
        let settings = RunSettings {
            fill: args.fillground,
            record: args.resume_file.is_some(),
            worker: false,
        };
        proof {
            let size = args.tile_size as int;
            assert forall|i: int| 0 <= i < tiles@.len() implies (
            #[trigger] tiles@[i]).spec_has_extent() || done@.contains(tiles@[i].id) by {
                if size > 0 {
                    tiles_lie_in_the_area(xzbbox@, size, i);
                } else {
                    a_negative_size_gives_one_empty_tile(xzbbox@, size);
                }
            }
        }
        let run = WorldRun { tiles, buckets, settings, done, index: 0, phase: Phase::Start };
        proof {
            let all = element_views(elements@);
            run.lemma_whole_script(all);
            columns_are_filled_as_asked(all, xzbbox@, *args, saved, run.tile());
            if args.resume_file is None {
                without_a_file_nothing_is_recorded(all, xzbbox@, *args, saved);
            } else if saved is Some {
                the_record_is_carried_on(all, xzbbox@, *args, saved->Some_0);
            }
        }
        run
    }

    /// Whether a run over all tiles of a bounding box is possible.
    pub fn can_start(xzbbox: &XZBBox, args: &Args, saved: &Option<ResumeState>) -> (r: bool)
        ensures
            r == run_fits(xzbbox@, *args, *saved),
            args.tile_size > 0 ==> r == tiling_fits(xzbbox@, args.tile_size as int),
    {
        if !can_be_split(xzbbox, args.tile_size) {
            return false;
        }
        if args.tile_size > 0 {
            return true;
        }
        match (&args.resume_file, saved) {
            (Some(_), Some(state)) => state.is_processed((0, 0)),
            _ => false,
        }
    }

    /// A worker's run for one tile.
    pub fn for_tile(elements: &[ProcessedElement], tile: &Tile, args: &Args) -> (r: WorldRun)
        requires
            tile.spec_has_extent(),
        ensures
            r.all_tiles() == seq![*tile],
            r@ == script(
                seq![*tile],
                lists_of(element_views(elements@), seq![*tile]),
                worker_settings(*args),
                Seq::empty(),
            ),
            r@ == worker_tasks(element_views(elements@), *tile, *args),
            forall|i: int|
                0 <= i < r@.len() ==> (#[trigger] r@[i] matches TaskView::Ground { x, z, fill }
                    ==> fill == args.fillground),
    {
        let mut tiles: Vec<Tile> = Vec::new();
        tiles.push(*tile);
        assert(tiles@ =~= seq![*tile]);
        let buckets = partition_elements_by_tile(elements, tiles.as_slice());
        let settings = RunSettings { fill: args.fillground, record: false, worker: true };
        let done = ResumeState::load(None);
        let run = WorldRun { tiles, buckets, settings, done, index: 0, phase: Phase::Start };
        proof {
            let all = element_views(elements@);
            run.lemma_whole_script(all);
            columns_are_filled_as_asked(all, tile.rect(), *args, None, *tile);
        }
        run
    }

    /// A run that has not begun has the tasks of all its tiles before it.
    proof fn lemma_whole_script(self, elements: Seq<ElementView>)
        requires
            self.index == 0,
            self.phase is Start,
            forall|id: (i32, i32)| #[trigger]
                self.buckets@.contains_key(id) <==> bucket(elements, self.tiles@, id).len() > 0,
            forall|id: (i32, i32)| #[trigger]
                self.buckets@.contains_key(id) ==> element_views(self.buckets@[id]@) == bucket(
                    elements,
                    self.tiles@,
                    id,
                ),
        ensures
            self@ == script(
                self.tiles@,
                lists_of(elements, self.tiles@),
                self.settings,
                self.done@,
            ),
    {
        assert forall|id: (i32, i32)| #[trigger]
            bucket_in(self.buckets@, id) == bucket(elements, self.tiles@, id) by {
            if !self.buckets@.contains_key(id) {
                assert(bucket(elements, self.tiles@, id) =~= Seq::empty());
            }
        }
        assert(self.lists() =~= lists_of(elements, self.tiles@));
        assert(self.tiles@.skip(0) =~= self.tiles@);
    }

    /// Draws the next element that has a generator; `None`, with the run moved
    /// on to the ground, when no such element is left.
    fn next_drawing(&mut self) -> (r: Option<Task>)
        requires
            old(self).phase is Draw,
        ensures
            final(self).tiles@ == old(self).tiles@,
            r matches Some(task) ==> old(self)@ == seq![task@] + final(self)@,
            r is None ==> final(self)@ == old(self)@ && final(self).phase is Ground,
    {
        proof {
            use_type_invariant(&*self);
        }
        let tile = self.tiles[self.index];
        let mut k: usize = 0;
        if let Phase::Draw(at) = self.phase {
            k = at;
        }
        let ghost elements = self.lists()(tile.id);
        let ghost rest = grounding(cells(tile.rect()), self.settings.fill) + closing(
            tile,
            self.settings,
            self.done@,
        ) + self.later(done_after(self.done@, tile.id, self.settings));
        assert(self@ =~= drawing(elements.skip(k as int)) + rest);
        if let Some(bucket) = get_bucket(&self.buckets, tile.id) {
            while k < bucket.len()
                invariant
                    self.at_a_task(),
                    *self == *old(self),
                    tile == self.tile(),
                    elements == self.lists()(tile.id),
                    elements == element_views(bucket@),
                    k <= bucket@.len(),
                    self@ == drawing(elements.skip(k as int)) + rest,
                    self.index < self.tiles@.len(),
                    rest == grounding(cells(tile.rect()), self.settings.fill) + closing(
                        tile,
                        self.settings,
                        self.done@,
                    ) + self.later(done_after(self.done@, tile.id, self.settings)),
                decreases bucket@.len() - k,
            {
                let element = &bucket[k];
                assert(elements.skip(k as int)[0] == element@);
                assert(elements.skip(k as int).drop_first() =~= elements.skip(k + 1));
                match element_generator(element) {
                    Some(generator) => {
                        let task = Task::Draw { generator, element: element.clone() };
                        self.phase = Phase::Draw(k + 1);
                        assert(self@ =~= drawing(elements.skip(k + 1)) + rest);
                        assert(old(self)@ =~= seq![task@] + self@);
                        return Some(task);
                    },
                    None => {
                        k = k + 1;
                    },
                }
            }
        }
        assert(elements.skip(k as int) =~= Seq::empty());
        self.phase = Phase::Ground(CellWalk::new(tile.min_x, tile.min_z, tile.max_x, tile.max_z));
        assert(self@ =~= old(self)@);
        None
    }

    /// Lays the ground of the next column; `None`, with the run moved on to
    /// writing the tile, when no column is left.
    fn next_column(&mut self) -> (r: Option<Task>)
        requires
            old(self).phase is Ground,
        ensures
            final(self).tiles@ == old(self).tiles@,
            r matches Some(task) ==> old(self)@ == seq![task@] + final(self)@,
            r is None ==> final(self)@ == old(self)@ && final(self).phase is Save,
    {
        proof {
            use_type_invariant(&*self);
        }
        if let Phase::Ground(at) = self.phase {
            let mut walk = at;
            let fill = self.settings.fill;
            if let Some((x, z)) = walk.next() {
                let task = Task::Ground { x, z, fill };
                self.phase = Phase::Ground(walk);
                assert(grounding(at@, fill) =~= seq![task@] + grounding(walk@, fill));
                assert(old(self)@ =~= seq![task@] + self@);
                return Some(task);
            }
            assert(grounding(at@, fill) =~= Seq::empty());
        }
        self.phase = Phase::Save;
        assert(self@ =~= old(self)@);
        None
    }

    /// Opens the current tile, or passes over it if it is done.
    fn start_tile(&mut self) -> (task: Task)
        requires
            old(self).phase is Start,
            old(self).index < old(self).tiles.len(),
        ensures
            final(self).tiles@ == old(self).tiles@,
            old(self)@ == seq![task@] + final(self)@,
    {
        proof {
            use_type_invariant(&*self);
        }
        let tile = self.tiles[self.index];
        let ghost coming = self.tiles@.skip(self.index as int);
        assert(coming[0] == tile);
        assert(coming.drop_first() =~= self.tiles@.skip(self.index + 1));
        if self.done.is_processed(tile.id) {
            self.index = self.index + 1;
            Task::Advance
        } else {
            let ghost elements = self.lists()(tile.id);
            assert(elements.skip(0) =~= elements);
            let task = Task::Open { bbox: tile_bbox(&tile) };
            self.phase = Phase::Draw(0);
            assert(old(self)@ =~= seq![task@] + self@);
            task
        }
    }

    /// Writes the current tile.
    fn save_tile(&mut self) -> (task: Task)
        requires
            old(self).phase is Save,
        ensures
            final(self).tiles@ == old(self).tiles@,
            old(self)@ == seq![task@] + final(self)@,
    {
        proof {
            use_type_invariant(&*self);
        }
        let tile = self.tiles[self.index];
        if self.settings.worker {
            let task = Task::Save { regions: Vec::new() };
            self.phase = Phase::Start;
            self.index = self.index + 1;
            assert(old(self)@ =~= seq![task@] + self@);
            task
        } else {
            let task = Task::Save { regions: region_keys(&tile) };
            if self.settings.record {
                self.phase = Phase::Record;
            } else {
                self.phase = Phase::Advance;
            }
            assert(old(self)@ =~= seq![task@] + self@);
            task
        }
    }

    /// Notes that the current tile is done.
    fn record_tile(&mut self) -> (task: Task)
        requires
            old(self).phase is Record,
        ensures
            final(self).tiles@ == old(self).tiles@,
            old(self)@ == seq![task@] + final(self)@,
    {
        proof {
            use_type_invariant(&*self);
        }
        let tile = self.tiles[self.index];
        let mut done = self.done.clone();
        done.record(tile.id);
        let task = Task::Record { state: done.clone() };
        proof {
            assert forall|i: int| self.index <= i < self.tiles@.len() implies (
            #[trigger] self.tiles@[i]).spec_has_extent() || done@.contains(self.tiles@[i].id) by {
                recording_marks_one_tile(self.done@, tile.id, self.tiles@[i].id);
            }
        }
        self.done = done;
        self.phase = Phase::Advance;
        assert(old(self)@ =~= seq![task@] + self@);
        task
    }

    /// Takes the next task; `None` when the run is over.
    pub fn next(&mut self) -> (r: Option<Task>)
        ensures
            final(self).all_tiles() == old(self).all_tiles(),
            r is None <==> old(self)@.len() == 0,
            r matches Some(task) ==> old(self)@ == seq![task@] + final(self)@,
            r is None ==> final(self)@ == old(self)@,
    {
        if let Phase::Draw(_) = self.phase {
            if let Some(task) = self.next_drawing() {
                return Some(task);
            }
        }
        if let Phase::Ground(_) = self.phase {
            if let Some(task) = self.next_column() {
                return Some(task);
            }
        }
        proof {
            use_type_invariant(&*self);
        }
        if self.index == self.tiles.len() {
            return None;
        }
        match self.phase {
            Phase::Start => Some(self.start_tile()),
            Phase::Save => Some(self.save_tile()),
            Phase::Record => Some(self.record_tile()),
            _ => {
                self.phase = Phase::Start;
                self.index = self.index + 1;
                Some(Task::Advance)
            },
        }
    }
}

} // verus!
