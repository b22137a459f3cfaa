//! What a run does, said of the arguments it was started with.

use crate::args::Args;
use crate::batching::{tiling, tiling_fits, Tile};
use crate::coordinates::Rect;
use crate::data_processing::{
    closing, done_after, drawing, full_settings, grounding, lists_of, locked, noting, run_fits,
    script, starting_ids, tile_tasks, worker_settings, worker_tasks, world_tasks, RunSettings,
    TaskView,
};
use crate::dispatch::generator_of;
use crate::elements::ElementView;
use crate::grid::{cells, lemma_cells};
use crate::partition::bucket;
use crate::regions::region_rect;
use crate::resume::{recording_marks_one_tile, ResumeState};
use crate::run_laws::a_worker_does_its_tile;
use crate::tile_laws::{
    a_negative_size_gives_one_empty_tile, distinct_ids, lemma_distinct_rest, tile_ids_are_distinct,
    tiles_cover_the_area_once, tiles_lie_in_the_area,
};
use vstd::prelude::*;

verus! {

/// The task at `i` belongs to the tile that was opened at `o`: no other tile is
/// opened or counted in between.
pub open spec fn belongs(tasks: Seq<TaskView>, o: int, i: int) -> bool {
    &&& 0 <= o <= i < tasks.len()
    &&& tasks[o] is Open
    &&& forall|k: int| o < k <= i ==> #[trigger] tasks[k] !is Open && tasks[k] !is Advance
}

/// The task is work on this tile, where `done` lists what was done before.
spec fn works_on(
    task: TaskView,
    tile: Tile,
    elements: Seq<ElementView>,
    settings: RunSettings,
    done: Seq<(i32, i32)>,
) -> bool {
    match task {
        TaskView::Open { area } => area == tile.rect(),
        TaskView::Draw { generator, element } => elements.contains(element) && generator_of(element)
            == Some(generator),
        TaskView::Ground { x, z, fill } => fill == settings.fill && tile.rect().has(
            x as int,
            z as int,
        ),
        TaskView::Save { regions } => regions == locked(tile, settings),
        TaskView::Record { done: list } => settings.record && list.len() > done.len()
            && list.last() == tile.id && done.is_prefix_of(list),
        TaskView::Advance => true,
    }
}

/// The task at `i` is work on the tile at `j`, which was opened at `o` and was
/// not done before.
spec fn placed(
    tasks: Seq<TaskView>,
    tiles: Seq<Tile>,
    lists: spec_fn((i32, i32)) -> Seq<ElementView>,
    settings: RunSettings,
    done: Seq<(i32, i32)>,
    i: int,
    o: int,
    j: int,
) -> bool {
    &&& belongs(tasks, o, i)
    &&& 0 <= j < tiles.len()
    &&& tasks[o] == (TaskView::Open { area: tiles[j].rect() })
    &&& !done.contains(tiles[j].id)
    &&& works_on(tasks[i], tiles[j], lists(tiles[j].id), settings, done)
}

/// Drawing is the elements that have a generator, in order, each with it.
pub proof fn elements_with_a_generator_are_drawn_in_order(elements: Seq<ElementView>)
    ensures
        drawing(elements) == elements.filter(
            |e: ElementView| generator_of(e) is Some,
        ).map_values(
            |e: ElementView| TaskView::Draw { generator: generator_of(e)->Some_0, element: e },
        ),
    decreases elements.len(),
{
    reveal(Seq::filter);
    let has = |e: ElementView| generator_of(e) is Some;
    let draw = |e: ElementView| TaskView::Draw {
        generator: generator_of(e)->Some_0,
        element: e,
    };
    if elements.len() == 0 {
        assert(elements.filter(has).map_values(draw) =~= Seq::empty());
    } else {
        let init = elements.drop_last();
        let last = seq![elements.last()];
        elements_with_a_generator_are_drawn_in_order(init);
        assert(elements =~= init + last);
        lemma_drawing_adds(init, last);
        assert(last.drop_first() =~= Seq::empty());
        assert(drawing(last.drop_first()) =~= Seq::empty());
        assert(drawing(elements) =~= elements.filter(has).map_values(draw));
    }
}

proof fn lemma_drawing_adds(a: Seq<ElementView>, b: Seq<ElementView>)
    ensures
        drawing(a + b) == drawing(a) + drawing(b),
    decreases a.len(),
{
    if a.len() == 0 {
        assert(a + b =~= b);
        assert(drawing(a) + drawing(b) =~= drawing(b));
    } else {
        assert((a + b).drop_first() =~= a.drop_first() + b);
        lemma_drawing_adds(a.drop_first(), b);
        assert(drawing(a + b) =~= drawing(a) + drawing(b));
    }
}

/// A drawing task is of a listed element, with its generator.
proof fn lemma_a_drawing(elements: Seq<ElementView>, i: int)
    requires
        0 <= i < drawing(elements).len(),
    ensures
        drawing(elements)[i] matches TaskView::Draw { generator, element } && elements.contains(
            element,
        ) && generator_of(element) == Some(generator),
{
    broadcast use vstd::seq_lib::group_filter_ensures;

    let has = |e: ElementView| generator_of(e) is Some;
    elements_with_a_generator_are_drawn_in_order(elements);
    let kept = elements.filter(has);
    elements.lemma_filter_contains_rev(has, kept[i]);
}

/// The tasks of a tile are work on it, and only the first one opens a tile.
proof fn lemma_tile_work(
    tile: Tile,
    elements: Seq<ElementView>,
    settings: RunSettings,
    done: Seq<(i32, i32)>,
    i: int,
)
    requires
        0 <= i < tile_tasks(tile, elements, settings, done).len(),
    ensures
        ({
            let tasks = tile_tasks(tile, elements, settings, done);
            &&& works_on(tasks[i], tile, elements, settings, done)
            &&& tasks[i] is Open <==> i == 0
            &&& tasks[i] is Advance ==> i == tasks.len() - 1
        }),
{
    let tasks = tile_tasks(tile, elements, settings, done);
    let draw = drawing(elements);
    let columns = cells(tile.rect());
    let ground = grounding(columns, settings.fill);
    let end = closing(tile, settings, done);
    let d = 1 + draw.len() as int;
    let g = d + ground.len() as int;
    if 0 < i < d {
        lemma_a_drawing(elements, i - 1);
        assert(tasks[i] == draw[i - 1]);
    } else if d <= i < g {
        lemma_cells(tile.rect());
        let c = columns[i - d];
        assert(columns.contains((c.0, c.1)));
        assert(tile.rect().has(c.0 as int, c.1 as int));
        assert(tasks[i] == ground[i - d]);
    } else if i >= g {
        assert(tasks[i] == end[i - g]);
        if i > g {
            assert(end[i - g] == noting(tile, settings, done)[i - g - 1]);
            assert(done.is_prefix_of(done.push(tile.id)));
        }
    }
}

/// Every task of a run but counting is work on a tile that was not done when
/// the run began.
proof fn lemma_placed(
    tiles: Seq<Tile>,
    lists: spec_fn((i32, i32)) -> Seq<ElementView>,
    settings: RunSettings,
    done: Seq<(i32, i32)>,
    i: int,
)
    requires
        0 <= i < script(tiles, lists, settings, done).len(),
        script(tiles, lists, settings, done)[i] !is Advance,
    ensures
        exists|o: int, j: int| #[trigger]
            placed(script(tiles, lists, settings, done), tiles, lists, settings, done, i, o, j),
    decreases tiles.len(),
{
    let tasks = script(tiles, lists, settings, done);
    let rest = tiles.drop_first();
    let id = tiles[0].id;
    let head = if done.contains(id) {
        seq![TaskView::Advance]
    } else {
        tile_tasks(tiles[0], lists(id), settings, done)
    };
    let next = if done.contains(id) {
        done
    } else {
        done_after(done, id, settings)
    };
    let n = head.len() as int;
    let later = script(rest, lists, settings, next);
    assert(tasks == head + later);
    if i < n {
        assert forall|k: int| 0 <= k <= i implies works_on(
            #[trigger] tasks[k],
            tiles[0],
            lists(id),
            settings,
            done,
        ) && (tasks[k] is Open <==> k == 0) && tasks[k] !is Advance by {
            lemma_tile_work(tiles[0], lists(id), settings, done, k);
            assert(tasks[k] == head[k]);
            if tasks[k] is Advance {
                assert(k == i);
            }
        }
        assert(works_on(tasks[0], tiles[0], lists(id), settings, done));
        assert(placed(tasks, tiles, lists, settings, done, i, 0, 0));
    } else {
        lemma_placed(rest, lists, settings, next, i - n);
        let (o, j) = choose|o: int, j: int| #[trigger]
            placed(later, rest, lists, settings, next, i - n, o, j);
        assert forall|k: int| o + n < k <= i implies #[trigger] tasks[k] !is Open
            && tasks[k] !is Advance by {
            assert(tasks[k] == later[k - n]);
        }
        assert(tasks[i] == later[i - n]);
        assert(tasks[o + n] == later[o]);
        assert(rest[j] == tiles[j + 1]);
        recording_marks_one_tile(done, id, tiles[j + 1].id);
        if tasks[i] is Record {
            let list = tasks[i]->done;
            assert(done =~= next.subrange(0, done.len() as int));
            assert(next =~= list.subrange(0, next.len() as int));
            assert forall|k: int| 0 <= k < done.len() implies done[k] == list[k] by {
                assert(next[k] == next.subrange(0, done.len() as int)[k]);
                assert(list[k] == list.subrange(0, next.len() as int)[k]);
            }
            assert(done =~= list.subrange(0, done.len() as int));
        }
        assert(placed(tasks, tiles, lists, settings, done, i, o + n, j + 1));
    }
}

/// In a run over all tiles every column is filled below exactly if filling was
/// asked for, whatever else was asked for and whatever was on record; so it is
/// in a worker's run.
pub proof fn columns_are_filled_as_asked(
    elements: Seq<ElementView>,
    area: Rect,
    args: Args,
    saved: Option<ResumeState>,
    tile: Tile,
)
    ensures
        forall|i: int|
            0 <= i < world_tasks(elements, area, args, saved).len() ==> (#[trigger] world_tasks(
                elements,
                area,
                args,
                saved,
            )[i] matches TaskView::Ground { x, z, fill } ==> fill == args.fillground),
        forall|i: int|
            0 <= i < worker_tasks(elements, tile, args).len() ==> (#[trigger] worker_tasks(
                elements,
                tile,
                args,
            )[i] matches TaskView::Ground { x, z, fill } ==> fill == args.fillground),
{
    let tiles = tiling(area, args.tile_size as int);
    let tasks = world_tasks(elements, area, args, saved);
    assert forall|i: int| 0 <= i < tasks.len() implies (
    #[trigger] tasks[i] matches TaskView::Ground { x, z, fill } ==> fill == args.fillground) by {
        if tasks[i] is Ground {
            lemma_placed(
                tiles,
                lists_of(elements, tiles),
                full_settings(args),
                starting_ids(args, saved),
                i,
            );
        }
    }
    let own = worker_tasks(elements, tile, args);
    assert forall|i: int| 0 <= i < own.len() implies (
    #[trigger] own[i] matches TaskView::Ground { x, z, fill } ==> fill == args.fillground) by {
        if own[i] is Ground {
            lemma_placed(
                seq![tile],
                lists_of(elements, seq![tile]),
                worker_settings(args),
                Seq::empty(),
                i,
            );
        }
    }
}

/// Where a file for the record is given and a record was read from it, every
/// record that the new run stores starts with the ids that were on record,
/// whatever else was asked for.
pub proof fn the_record_is_carried_on(
    elements: Seq<ElementView>,
    area: Rect,
    args: Args,
    state: ResumeState,
)
    requires
        args.resume_file is Some,
    ensures
        forall|i: int|
            0 <= i < world_tasks(elements, area, args, Some(state)).len() ==> (
            #[trigger] world_tasks(
                elements,
                area,
                args,
                Some(state),
            )[i] matches TaskView::Record { done } ==> done.len() > state.processed_tiles@.len()
                && done.subrange(0, state.processed_tiles@.len() as int) == state.processed_tiles@),
{
    let tiles = tiling(area, args.tile_size as int);
    let tasks = world_tasks(elements, area, args, Some(state));
    let list = state.processed_tiles@;
    assert forall|i: int| 0 <= i < tasks.len() implies (
    #[trigger] tasks[i] matches TaskView::Record { done } ==> done.len() > list.len()
        && done.subrange(0, list.len() as int) == list) by {
        if tasks[i] is Record {
            lemma_placed(
                tiles,
                lists_of(elements, tiles),
                full_settings(args),
                starting_ids(args, Some(state)),
                i,
            );
        }
    }
}

/// Where a file for the record is given and a record was read from it, the
/// tiles on record are left alone, whatever else was asked for: no task opens
/// such a tile or lays ground in it, and every task but counting belongs to the
/// opening of a tile that is not on record.
pub proof fn tiles_on_record_are_left_alone(
    elements: Seq<ElementView>,
    area: Rect,
    args: Args,
    state: ResumeState,
    t: int,
    i: int,
)
    requires
        tiling_fits(area, args.tile_size as int),
        args.resume_file is Some,
        0 <= t < tiling(area, args.tile_size as int).len(),
        state.processed_tiles@.contains(tiling(area, args.tile_size as int)[t].id),
        0 <= i < world_tasks(elements, area, args, Some(state)).len(),
    ensures
        ({
            let tiles = tiling(area, args.tile_size as int);
            let tasks = world_tasks(elements, area, args, Some(state));
            &&& tasks[i] matches TaskView::Open { area: opened } ==> opened != tiles[t].rect()
            &&& tasks[i] matches TaskView::Ground { x, z, fill } ==> !(tiles[t].min_x <= x && x
                <= tiles[t].max_x && tiles[t].min_z <= z && z <= tiles[t].max_z)
            &&& tasks[i] !is Advance ==> exists|o: int| #[trigger] belongs(tasks, o, i)
            &&& forall|o: int| #[trigger]
                belongs(tasks, o, i) ==> tasks[o] != (TaskView::Open { area: tiles[t].rect() })
                    && exists|j: int|
                    0 <= j < tiles.len() && tasks[o] == (TaskView::Open {
                        area: (#[trigger] tiles[j]).rect(),
                    }) && !state.processed_tiles@.contains(tiles[j].id)
        }),
{
    let size = args.tile_size as int;
    let tiles = tiling(area, size);
    let lists = lists_of(elements, tiles);
    let settings = full_settings(args);
    let done = starting_ids(args, Some(state));
    let tasks = world_tasks(elements, area, args, Some(state));
    assert forall|o: int| 0 <= o < tasks.len() && #[trigger] tasks[o] is Open implies tasks[o] != (
    TaskView::Open { area: tiles[t].rect() }) && exists|j: int|
        0 <= j < tiles.len() && tasks[o] == (TaskView::Open { area: (#[trigger] tiles[j]).rect() })
            && !state.processed_tiles@.contains(tiles[j].id) by {
        lemma_placed(tiles, lists, settings, done, o);
        let (p, j) = choose|p: int, j: int| #[trigger]
            placed(tasks, tiles, lists, settings, done, o, p, j);
        lemma_other_tile(area, size, t, j);
        assert(tasks[o] == (TaskView::Open { area: tiles[j].rect() }));
    }
    if tasks[i] !is Advance {
        lemma_placed(tiles, lists, settings, done, i);
        let (o, j) = choose|o: int, j: int| #[trigger]
            placed(tasks, tiles, lists, settings, done, i, o, j);
        assert(belongs(tasks, o, i));
        if let TaskView::Ground { x, z, fill } = tasks[i] {
            if tiles[t].rect().has(x as int, z as int) {
                lemma_shared_column(area, size, t, j, x as int, z as int);
            }
        }
    }
    assert forall|o: int| #[trigger] belongs(tasks, o, i) implies tasks[o] != (TaskView::Open {
        area: tiles[t].rect(),
    }) && exists|j: int|
        0 <= j < tiles.len() && tasks[o] == (TaskView::Open { area: (#[trigger] tiles[j]).rect() })
            && !state.processed_tiles@.contains(tiles[j].id) by {
        assert(tasks[o] is Open);
    }
}

/// Tiles that share a column are the same tile.
proof fn lemma_shared_column(area: Rect, tile_size: int, a: int, b: int, x: int, z: int)
    requires
        tiling_fits(area, tile_size),
        0 <= a < tiling(area, tile_size).len(),
        0 <= b < tiling(area, tile_size).len(),
        tiling(area, tile_size)[a].rect().has(x, z),
        tiling(area, tile_size)[b].rect().has(x, z),
    ensures
        a == b,
{
    if tile_size > 0 {
        tiles_cover_the_area_once(area, tile_size, x, z);
    } else {
        a_negative_size_gives_one_empty_tile(area, tile_size);
    }
}

/// Different tiles have different bounds.
proof fn lemma_other_tile(area: Rect, tile_size: int, a: int, b: int)
    requires
        tiling_fits(area, tile_size),
        0 <= a < tiling(area, tile_size).len(),
        0 <= b < tiling(area, tile_size).len(),
        a != b,
    ensures
        tiling(area, tile_size)[a].rect() != tiling(area, tile_size)[b].rect(),
{
    let tiles = tiling(area, tile_size);
    if tile_size > 0 {
        tiles_lie_in_the_area(area, tile_size, a);
        if tiles[a].rect() == tiles[b].rect() {
            lemma_shared_column(
                area,
                tile_size,
                a,
                b,
                tiles[a].min_x as int,
                tiles[a].min_z as int,
            );
        }
    } else {
        a_negative_size_gives_one_empty_tile(area, tile_size);
    }
}

/// The ids of the tiles that are not in `done`, in order.
pub open spec fn to_do(tiles: Seq<Tile>, done: Seq<(i32, i32)>) -> Seq<(i32, i32)>
    decreases tiles.len(),
{
    if tiles.len() == 0 {
        Seq::empty()
    } else if done.contains(tiles[0].id) {
        to_do(tiles.drop_first(), done)
    } else {
        seq![tiles[0].id] + to_do(tiles.drop_first(), done)
    }
}

/// The work on one tile: it is opened, the elements that have a generator are
/// drawn in order, the ground of its columns is laid in order, and it is
/// written.
pub open spec fn tile_work(
    tile: Tile,
    elements: Seq<ElementView>,
    fill: bool,
    regions: Seq<(i32, i32)>,
) -> Seq<TaskView> {
    let bounds = Rect {
        min_x: tile.min_x as int,
        min_z: tile.min_z as int,
        max_x: tile.max_x as int,
        max_z: tile.max_z as int,
    };
    seq![TaskView::Open { area: bounds }] + elements.filter(
        |e: ElementView| generator_of(e) is Some,
    ).map_values(
        |e: ElementView| TaskView::Draw { generator: generator_of(e)->Some_0, element: e },
    ) + cells(bounds).map_values(|c: (i32, i32)| TaskView::Ground { x: c.0, z: c.1, fill })
        + seq![TaskView::Save { regions }]
}

/// How the tile at `j` is handled in a run that began with the ids in `done`:
/// if it was done it is only counted; otherwise it is worked on, what is then
/// done is stored if a record is kept, and it is counted.
pub open spec fn handling(
    tiles: Seq<Tile>,
    j: int,
    elements: Seq<ElementView>,
    fill: bool,
    record: bool,
    done: Seq<(i32, i32)>,
) -> Seq<TaskView> {
    let regions = cells(region_rect(tiles[j].rect()));
    if done.contains(tiles[j].id) {
        seq![TaskView::Advance]
    } else if record {
        tile_work(tiles[j], elements, fill, regions) + seq![
            TaskView::Record { done: done + to_do(tiles.take(j + 1), done) },
            TaskView::Advance,
        ]
    } else {
        tile_work(tiles[j], elements, fill, regions) + seq![TaskView::Advance]
    }
}

/// The ids on record when a run begins: those that were read, if a file for
/// the record is given.
pub open spec fn on_record(args: Args, saved: Option<ResumeState>) -> Seq<(i32, i32)> {
    match (args.resume_file, saved) {
        (Some(_), Some(state)) => state.processed_tiles@,
        _ => Seq::empty(),
    }
}

/// An id that none of the tiles has makes no difference to what is to do.
proof fn lemma_to_do_others(tiles: Seq<Tile>, done: Seq<(i32, i32)>, id: (i32, i32))
    requires
        forall|i: int| 0 <= i < tiles.len() ==> (#[trigger] tiles[i]).id != id,
    ensures
        to_do(tiles, done.push(id)) == to_do(tiles, done),
    decreases tiles.len(),
{
    if tiles.len() > 0 {
        let rest = tiles.drop_first();
        assert forall|i: int| 0 <= i < rest.len() implies (#[trigger] rest[i]).id != id by {
            assert(rest[i] == tiles[i + 1]);
        }
        lemma_to_do_others(rest, done, id);
        recording_marks_one_tile(done, id, tiles[0].id);
    }
}

/// Handling a later tile is the same whether or not the run includes the first
/// tile, once the first tile is done.
proof fn lemma_handling_later(
    tiles: Seq<Tile>,
    j: int,
    elements: Seq<ElementView>,
    settings: RunSettings,
    done: Seq<(i32, i32)>,
)
    requires
        distinct_ids(tiles),
        !settings.worker,
        0 <= j < tiles.len() - 1,
    ensures
        ({
            let next = if done.contains(tiles[0].id) {
                done
            } else {
                done_after(done, tiles[0].id, settings)
            };
            handling(tiles.drop_first(), j, elements, settings.fill, settings.record, next)
                == handling(tiles, j + 1, elements, settings.fill, settings.record, done)
        }),
{
    let rest = tiles.drop_first();
    let id = tiles[0].id;
    lemma_distinct_rest(tiles);
    assert(rest[j] == tiles[j + 1]);
    let first = rest.take(j + 1);
    assert(tiles.take(j + 2).drop_first() =~= first);
    assert(tiles.take(j + 2)[0] == tiles[0]);
    if !done.contains(id) && settings.record {
        recording_marks_one_tile(done, id, rest[j].id);
        assert forall|i: int| 0 <= i < first.len() implies (#[trigger] first[i]).id != id by {
            assert(first[i] == rest[i]);
        }
        lemma_to_do_others(first, done, id);
        assert(done.push(id) + to_do(first, done.push(id)) =~= done + to_do(
            tiles.take(j + 2),
            done,
        ));
    }
}

/// The tasks of a run are those of its tiles, one after the other.
proof fn lemma_handled(
    tiles: Seq<Tile>,
    lists: spec_fn((i32, i32)) -> Seq<ElementView>,
    settings: RunSettings,
    done: Seq<(i32, i32)>,
)
    requires
        distinct_ids(tiles),
        !settings.worker,
    ensures
        script(tiles, lists, settings, done) == Seq::new(
            tiles.len(),
            |j: int|
                handling(
                    tiles,
                    j,
                    lists(tiles[j].id),
                    settings.fill,
                    settings.record,
                    done,
                ),
        ).flatten(),
    decreases tiles.len(),
{
    let parts = Seq::new(
        tiles.len(),
        |j: int|
            handling(tiles, j, lists(tiles[j].id), settings.fill, settings.record, done),
    );
    if tiles.len() > 0 {
        let rest = tiles.drop_first();
        let id = tiles[0].id;
        let next = if done.contains(id) {
            done
        } else {
            done_after(done, id, settings)
        };
        let later = Seq::new(
            rest.len(),
            |j: int|
                handling(rest, j, lists(rest[j].id), settings.fill, settings.record, next),
        );
        lemma_distinct_rest(tiles);
        lemma_handled(rest, lists, settings, next);
        assert forall|j: int| 0 <= j < rest.len() implies #[trigger] later[j]
            == parts.drop_first()[j] by {
            lemma_handling_later(tiles, j, lists(rest[j].id), settings, done);
            assert(rest[j] == tiles[j + 1]);
            assert(parts.drop_first()[j] == parts[j + 1]);
        }
        assert(later =~= parts.drop_first());
        if !done.contains(id) {
            elements_with_a_generator_are_drawn_in_order(lists(id));
            let one = tiles.take(1);
            assert(one[0] == tiles[0]);
            assert(one.drop_first() =~= Seq::empty());
            assert(to_do(one.drop_first(), done) =~= Seq::empty());
            assert(to_do(one, done) =~= seq![id]);
            assert(done + to_do(one, done) =~= done.push(id));
            assert(parts[0] =~= tile_tasks(tiles[0], lists(id), settings, done));
        }
        assert(parts.first() == parts[0]);
    }
}

/// A run over all tiles handles them one after the other. Its arguments matter
/// only in these ways: the tile size gives the tiles, filling is done if it was
/// asked for, and a file for the record makes the run keep one and go on from
/// the ids that were read.
pub proof fn a_world_run_handles_tile_after_tile(
    elements: Seq<ElementView>,
    area: Rect,
    args: Args,
    saved: Option<ResumeState>,
)
    requires
        tiling_fits(area, args.tile_size as int),
    ensures
        ({
            let tiles = tiling(area, args.tile_size as int);
            world_tasks(elements, area, args, saved) == Seq::new(
                tiles.len(),
                |j: int|
                    handling(
                        tiles,
                        j,
                        bucket(elements, tiles, tiles[j].id),
                        args.fillground,
                        args.resume_file is Some,
                        on_record(args, saved),
                    ),
            ).flatten()
        }),
{
    let tiles = tiling(area, args.tile_size as int);
    let lists = lists_of(elements, tiles);
    let settings = full_settings(args);
    let done = on_record(args, saved);
    assert(starting_ids(args, saved) =~= done);
    tile_ids_are_distinct(area, args.tile_size as int);
    lemma_handled(tiles, lists, settings, done);
    assert(Seq::new(
        tiles.len(),
        |j: int|
            handling(
                tiles,
                j,
                bucket(elements, tiles, tiles[j].id),
                args.fillground,
                args.resume_file is Some,
                done,
            ),
    ) =~= Seq::new(
        tiles.len(),
        |j: int|
            handling(tiles, j, lists(tiles[j].id), settings.fill, settings.record, done),
    ));
}

/// A worker's run is the work on its tile with all elements, and no region is
/// locked.
pub proof fn a_worker_run_is_the_work_on_its_tile(
    elements: Seq<ElementView>,
    tile: Tile,
    args: Args,
)
    ensures
        worker_tasks(elements, tile, args) == tile_work(
            tile,
            elements,
            args.fillground,
            Seq::empty(),
        ),
{
    a_worker_does_its_tile(tile, elements, worker_settings(args));
    elements_with_a_generator_are_drawn_in_order(elements);
    assert(worker_tasks(elements, tile, args) =~= tile_work(
        tile,
        elements,
        args.fillground,
        Seq::empty(),
    ));
}

/// Without a file for the record none is stored, and what was read makes no
/// difference.
pub proof fn without_a_file_nothing_is_recorded(
    elements: Seq<ElementView>,
    area: Rect,
    args: Args,
    saved: Option<ResumeState>,
)
    requires
        args.resume_file is None,
    ensures
        world_tasks(elements, area, args, saved) == world_tasks(elements, area, args, None),
        forall|i: int|
            0 <= i < world_tasks(elements, area, args, saved).len() ==> #[trigger] world_tasks(
                elements,
                area,
                args,
                saved,
            )[i] !is Record,
{
    let tiles = tiling(area, args.tile_size as int);
    let tasks = world_tasks(elements, area, args, saved);
    assert forall|i: int| 0 <= i < tasks.len() implies #[trigger] tasks[i] !is Record by {
        if tasks[i] is Record {
            lemma_placed(
                tiles,
                lists_of(elements, tiles),
                full_settings(args),
                starting_ids(args, saved),
                i,
            );
        }
    }
}

/// A run over all tiles can be started wherever the area can be split and the
/// tile size is positive, whatever else was asked for. A negative tile size
/// works only where its one tile is on record.
pub proof fn when_a_run_can_start(area: Rect, args: Args, saved: Option<ResumeState>)
    ensures
        args.tile_size > 0 ==> (run_fits(area, args, saved) <==> tiling_fits(
            area,
            args.tile_size as int,
        )),
        args.tile_size < 0 ==> (run_fits(area, args, saved) <==> {
            &&& tiling_fits(area, args.tile_size as int)
            &&& args.resume_file is Some
            &&& saved matches Some(state) && state.processed_tiles@.contains((0i32, 0i32))
        }),
        args.tile_size == 0 ==> !run_fits(area, args, saved),
{
}

} // verus!
