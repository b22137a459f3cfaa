//! What a run does to the columns of its area and to the elements it is given.

use crate::batching::{tiling, tiling_fits, Tile};
use crate::coordinates::Rect;
use crate::data_processing::{
    closing, done_after, drawing, grounding, lists_of, script, tile_tasks, RunSettings, TaskView,
};
use crate::dispatch::{generator_of, Generator};
use crate::elements::ElementView;
use crate::grid::{cells, lemma_cells};
use crate::partition::bucket;
use crate::partition_laws::no_element_is_lost;
use crate::resume::recording_marks_one_tile;
use crate::run_laws::{a_run_goes_tile_by_tile, done_at_end};
use crate::tile_laws::{
    distinct_ids, lemma_distinct_rest, tile_ids_are_distinct, tiles_cover_the_area_once,
};
use vstd::prelude::*;

verus! {

/// How often the ground of a column is laid.
pub open spec fn ground_count(tasks: Seq<TaskView>, x: i32, z: i32) -> nat
    decreases tasks.len(),
{
    if tasks.len() == 0 {
        0
    } else {
        ground_count(tasks.drop_last(), x, z) + if lays_ground(tasks.last(), x, z) {
            1nat
        } else {
            0nat
        }
    }
}

/// The task lays the ground of this column.
pub open spec fn lays_ground(task: TaskView, x: i32, z: i32) -> bool {
    match task {
        TaskView::Ground { x: at_x, z: at_z, .. } => at_x == x && at_z == z,
        _ => false,
    }
}

proof fn lemma_count_adds(a: Seq<TaskView>, b: Seq<TaskView>, x: i32, z: i32)
    ensures
        ground_count(a + b, x, z) == ground_count(a, x, z) + ground_count(b, x, z),
    decreases b.len(),
{
    if b.len() == 0 {
        assert(a + b =~= a);
    } else {
        assert((a + b).drop_last() =~= a + b.drop_last());
        assert((a + b).last() == b.last());
        lemma_count_adds(a, b.drop_last(), x, z);
    }
}

proof fn lemma_count_none(tasks: Seq<TaskView>, x: i32, z: i32)
    requires
        forall|i: int| 0 <= i < tasks.len() ==> !(#[trigger] tasks[i] is Ground),
    ensures
        ground_count(tasks, x, z) == 0,
    decreases tasks.len(),
{
    if tasks.len() > 0 {
        assert(tasks.last() == tasks[tasks.len() - 1]);
        assert forall|i: int| 0 <= i < tasks.drop_last().len() implies !(
        #[trigger] tasks.drop_last()[i] is Ground) by {
            assert(tasks.drop_last()[i] == tasks[i]);
        }
        lemma_count_none(tasks.drop_last(), x, z);
    }
}

proof fn lemma_grounding_count(columns: Seq<(i32, i32)>, fill: bool, x: i32, z: i32)
    requires
        columns.no_duplicates(),
    ensures
        ground_count(grounding(columns, fill), x, z) == if columns.contains((x, z)) {
            1nat
        } else {
            0nat
        },
    decreases columns.len(),
{
    if columns.len() > 0 {
        let rest = columns.drop_last();
        let last = columns.last();
        assert(grounding(columns, fill).drop_last() =~= grounding(rest, fill));
        assert(grounding(columns, fill).last() == (TaskView::Ground { x: last.0, z: last.1, fill }));
        lemma_grounding_count(rest, fill, x, z);
        if rest.contains((x, z)) {
            let k = choose|k: int| 0 <= k < rest.len() && rest[k] == (x, z);
            assert(columns[k] == (x, z));
            assert(columns[columns.len() - 1] != columns[k]);
        }
        if columns.contains((x, z)) && last != (x, z) {
            let k = choose|k: int| 0 <= k < columns.len() && columns[k] == (x, z);
            assert(rest[k] == (x, z));
        }
        assert(columns[columns.len() - 1] == last);
    }
}

/// Drawing consists of drawing elements of the list, each with its generator.
proof fn lemma_drawing(elements: Seq<ElementView>, i: int)
    requires
        0 <= i < drawing(elements).len(),
    ensures
        drawing(elements)[i] matches TaskView::Draw { generator, element } && elements.contains(
            element,
        ) && generator_of(element) == Some(generator),
    decreases elements.len(),
{
    if elements.len() > 0 {
        let rest = elements.drop_first();
        let skipped = generator_of(elements[0]) is None;
        let k = if skipped {
            i
        } else {
            i - 1
        };
        if k >= 0 {
            lemma_drawing(rest, k);
            assert(drawing(elements)[i] == drawing(rest)[k]);
            let e = drawing(rest)[k]->element;
            let n = choose|n: int| 0 <= n < rest.len() && rest[n] == e;
            assert(elements[n + 1] == e);
        } else {
            assert(elements[0] == elements.first());
        }
    }
}

/// An element of the list with a generator is drawn.
proof fn lemma_drawn(elements: Seq<ElementView>, e: ElementView, generator: Generator)
    requires
        elements.contains(e),
        generator_of(e) == Some(generator),
    ensures
        drawing(elements).contains(TaskView::Draw { generator, element: e }),
    decreases elements.len(),
{
    let task = TaskView::Draw { generator, element: e };
    let rest = elements.drop_first();
    if elements[0] == e {
        assert(drawing(elements)[0] == task);
    } else {
        let n = choose|n: int| 0 <= n < elements.len() && elements[n] == e;
        assert(rest[n - 1] == e);
        lemma_drawn(rest, e, generator);
        let k = choose|k: int| 0 <= k < drawing(rest).len() && drawing(rest)[k] == task;
        if generator_of(elements[0]) is Some {
            assert(drawing(elements)[k + 1] == task);
        } else {
            assert(drawing(elements)[k] == task);
        }
    }
}

/// The tasks of a tile lay the ground of its columns, each once.
proof fn lemma_tile_count(
    tile: Tile,
    elements: Seq<ElementView>,
    settings: RunSettings,
    done: Seq<(i32, i32)>,
    x: i32,
    z: i32,
)
    ensures
        ground_count(tile_tasks(tile, elements, settings, done), x, z) == if tile.rect().has(
            x as int,
            z as int,
        ) {
            1nat
        } else {
            0nat
        },
{
    let open = seq![TaskView::Open { area: tile.rect() }];
    let draw = drawing(elements);
    let ground = grounding(cells(tile.rect()), settings.fill);
    let end = closing(tile, settings, done);
    assert forall|i: int| 0 <= i < draw.len() implies !(#[trigger] draw[i] is Ground) by {
        lemma_drawing(elements, i);
    }
    lemma_cells(tile.rect());
    lemma_count_none(open, x, z);
    lemma_count_none(draw, x, z);
    lemma_count_none(end, x, z);
    lemma_grounding_count(cells(tile.rect()), settings.fill, x, z);
    lemma_count_adds(open, draw, x, z);
    lemma_count_adds(open + draw, ground, x, z);
    lemma_count_adds(open + draw + ground, end, x, z);
    assert(cells(tile.rect()).contains((x, z)) == tile.rect().has(x as int, z as int));
}

/// The number of tiles that are not done and hold the column.
spec fn holders(tiles: Seq<Tile>, done: Seq<(i32, i32)>, x: int, z: int) -> nat
    decreases tiles.len(),
{
    if tiles.len() == 0 {
        0
    } else {
        holders(tiles.drop_first(), done, x, z) + if !done.contains(tiles[0].id)
            && tiles[0].rect().has(x, z) {
            1nat
        } else {
            0nat
        }
    }
}

proof fn lemma_holders_others(
    tiles: Seq<Tile>,
    done: Seq<(i32, i32)>,
    id: (i32, i32),
    x: int,
    z: int,
)
    requires
        forall|i: int| 0 <= i < tiles.len() ==> (#[trigger] tiles[i]).id != id,
    ensures
        holders(tiles, done.push(id), x, z) == holders(tiles, done, x, z),
    decreases tiles.len(),
{
    if tiles.len() > 0 {
        let rest = tiles.drop_first();
        assert forall|i: int| 0 <= i < rest.len() implies (#[trigger] rest[i]).id != id by {
            assert(rest[i] == tiles[i + 1]);
        }
        lemma_holders_others(rest, done, id, x, z);
        recording_marks_one_tile(done, id, tiles[0].id);
    }
}

proof fn lemma_script_count(
    tiles: Seq<Tile>,
    lists: spec_fn((i32, i32)) -> Seq<ElementView>,
    settings: RunSettings,
    done: Seq<(i32, i32)>,
    x: i32,
    z: i32,
)
    requires
        distinct_ids(tiles),
    ensures
        ground_count(script(tiles, lists, settings, done), x, z) == holders(
            tiles,
            done,
            x as int,
            z as int,
        ),
    decreases tiles.len(),
{
    if tiles.len() > 0 {
        let rest = tiles.drop_first();
        let id = tiles[0].id;
        lemma_distinct_rest(tiles);
        if done.contains(id) {
            lemma_script_count(rest, lists, settings, done, x, z);
            lemma_count_none(seq![TaskView::Advance], x, z);
            lemma_count_adds(seq![TaskView::Advance], script(rest, lists, settings, done), x, z);
        } else {
            let next = done_after(done, id, settings);
            lemma_script_count(rest, lists, settings, next, x, z);
            lemma_holders_others(rest, done, id, x as int, z as int);
            lemma_tile_count(tiles[0], lists(id), settings, done, x, z);
            lemma_count_adds(
                tile_tasks(tiles[0], lists(id), settings, done),
                script(rest, lists, settings, next),
                x,
                z,
            );
        }
    }
}

/// A column that at most one tile holds has one holder or none.
proof fn lemma_one_holder(tiles: Seq<Tile>, x: int, z: int)
    requires
        forall|i: int, j: int|
            0 <= i < tiles.len() && 0 <= j < tiles.len() && (#[trigger] tiles[i]).rect().has(x, z)
                && (#[trigger] tiles[j]).rect().has(x, z) ==> i == j,
    ensures
        holders(tiles, Seq::empty(), x, z) == if exists|i: int|
            0 <= i < tiles.len() && (#[trigger] tiles[i]).rect().has(x, z) {
            1nat
        } else {
            0nat
        },
    decreases tiles.len(),
{
    if tiles.len() > 0 {
        let rest = tiles.drop_first();
        assert forall|i: int, j: int|
            0 <= i < rest.len() && 0 <= j < rest.len() && (#[trigger] rest[i]).rect().has(x, z)
                && (#[trigger] rest[j]).rect().has(x, z) implies i == j by {
            assert(rest[i] == tiles[i + 1] && rest[j] == tiles[j + 1]);
        }
        lemma_one_holder(rest, x, z);
        if exists|i: int| 0 <= i < rest.len() && (#[trigger] rest[i]).rect().has(x, z) {
            let i = choose|i: int| 0 <= i < rest.len() && (#[trigger] rest[i]).rect().has(x, z);
            assert(tiles[i + 1].rect().has(x, z));
        } else if exists|i: int| 0 <= i < tiles.len() && (#[trigger] tiles[i]).rect().has(x, z) {
            let i = choose|i: int| 0 <= i < tiles.len() && (#[trigger] tiles[i]).rect().has(x, z);
            if i > 0 {
                assert(rest[i - 1].rect().has(x, z));
            }
        }
    }
}

/// A run over all tiles of an area, started afresh, lays the ground of every
/// column of the area exactly once, and of no other column.
pub proof fn every_column_is_grounded_once(
    area: Rect,
    tile_size: int,
    lists: spec_fn((i32, i32)) -> Seq<ElementView>,
    settings: RunSettings,
    x: i32,
    z: i32,
)
    requires
        tiling_fits(area, tile_size),
        tile_size > 0,
    ensures
        ground_count(script(tiling(area, tile_size), lists, settings, Seq::empty()), x, z)
            == if area.has(x as int, z as int) {
            1nat
        } else {
            0nat
        },
{
    let tiles = tiling(area, tile_size);
    tile_ids_are_distinct(area, tile_size);
    lemma_script_count(tiles, lists, settings, Seq::empty(), x, z);
    tiles_cover_the_area_once(area, tile_size, x as int, z as int);
    lemma_one_holder(tiles, x as int, z as int);
}

/// Everything drawn is an element of the tile's list, with its generator.
pub proof fn only_listed_elements_are_drawn(
    tiles: Seq<Tile>,
    lists: spec_fn((i32, i32)) -> Seq<ElementView>,
    settings: RunSettings,
    done: Seq<(i32, i32)>,
    i: int,
)
    requires
        0 <= i < script(tiles, lists, settings, done).len(),
        script(tiles, lists, settings, done)[i] is Draw,
    ensures
        ({
            let task = script(tiles, lists, settings, done)[i];
            &&& generator_of(task->element) == Some(task->generator)
            &&& exists|j: int|
                0 <= j < tiles.len() && lists((#[trigger] tiles[j]).id).contains(task->element)
        }),
    decreases tiles.len(),
{
    let all = script(tiles, lists, settings, done);
    let task = all[i];
    if tiles.len() > 0 {
        let rest = tiles.drop_first();
        let id = tiles[0].id;
        let is_done = done.contains(id);
        let next = if is_done {
            done
        } else {
            done_after(done, id, settings)
        };
        let head = if is_done {
            seq![TaskView::Advance]
        } else {
            tile_tasks(tiles[0], lists(id), settings, done)
        };
        let tail = script(rest, lists, settings, next);
        assert(all == head + tail);
        if i >= head.len() {
            assert(tail[i - head.len()] == task);
            only_listed_elements_are_drawn(rest, lists, settings, next, i - head.len());
            let j = choose|j: int|
                0 <= j < rest.len() && lists((#[trigger] rest[j]).id).contains(task->element);
            assert(tiles[j + 1] == rest[j]);
        } else {
            assert(head[i] == task);
            let draw = drawing(lists(id));
            let ground = grounding(cells(tiles[0].rect()), settings.fill);
            let end = closing(tiles[0], settings, done);
            assert(0 < i);
            assert(i <= draw.len()) by {
                if i > draw.len() {
                    let k = i - 1 - draw.len();
                    if k < ground.len() {
                        assert(head[i] == ground[k]);
                    } else {
                        assert(head[i] == end[k - ground.len()]);
                    }
                }
            }
            assert(draw[i - 1] == task);
            lemma_drawing(lists(id), i - 1);
            assert(lists(tiles[0].id).contains(task->element));
        }
    }
}

/// A task of a tile's list is part of a run in which the tile is not done.
proof fn lemma_drawn_in_run(
    tiles: Seq<Tile>,
    lists: spec_fn((i32, i32)) -> Seq<ElementView>,
    settings: RunSettings,
    done: Seq<(i32, i32)>,
    j: int,
    task: TaskView,
)
    requires
        distinct_ids(tiles),
        0 <= j < tiles.len(),
        !done.contains(tiles[j].id),
        drawing(lists(tiles[j].id)).contains(task),
    ensures
        script(tiles, lists, settings, done).contains(task),
    decreases tiles.len(),
{
    let all = script(tiles, lists, settings, done);
    let rest = tiles.drop_first();
    let id = tiles[0].id;
    let is_done = done.contains(id);
    let next = if is_done {
        done
    } else {
        done_after(done, id, settings)
    };
    let head = if is_done {
        seq![TaskView::Advance]
    } else {
        tile_tasks(tiles[0], lists(id), settings, done)
    };
    let tail = script(rest, lists, settings, next);
    assert(all == head + tail);
    if j == 0 {
        let draw = drawing(lists(id));
        let k = choose|k: int| 0 <= k < draw.len() && draw[k] == task;
        assert(head[k + 1] == task);
        assert(all[k + 1] == task);
    } else {
        lemma_distinct_rest(tiles);
        assert(rest[j - 1] == tiles[j]);
        recording_marks_one_tile(done, id, tiles[j].id);
        lemma_drawn_in_run(rest, lists, settings, next, j - 1, task);
        let k = choose|k: int| 0 <= k < tail.len() && tail[k] == task;
        assert(all[head.len() + k] == task);
    }
}

/// A run over all tiles of an area, started afresh, draws every element that
/// has a generator.
pub proof fn every_element_is_drawn(
    elements: Seq<ElementView>,
    area: Rect,
    tile_size: int,
    settings: RunSettings,
    i: int,
    generator: Generator,
)
    requires
        tiling_fits(area, tile_size),
        0 <= i < elements.len(),
        generator_of(elements[i]) == Some(generator),
    ensures
        script(
            tiling(area, tile_size),
            lists_of(elements, tiling(area, tile_size)),
            settings,
            Seq::empty(),
        ).contains(TaskView::Draw { generator, element: elements[i] }),
{
    let tiles = tiling(area, tile_size);
    let lists = lists_of(elements, tiles);
    tile_ids_are_distinct(area, tile_size);
    no_element_is_lost(elements, tiles, i);
    let j = choose|j: int|
        0 <= j < tiles.len() && bucket(elements, tiles, (#[trigger] tiles[j]).id).contains(
            elements[i],
        );
    lemma_drawn(lists(tiles[j].id), elements[i], generator);
    lemma_drawn_in_run(
        tiles,
        lists,
        settings,
        Seq::empty(),
        j,
        TaskView::Draw { generator, element: elements[i] },
    );
}

proof fn lemma_done_after_one_more(
    tiles: Seq<Tile>,
    k: int,
    settings: RunSettings,
    done: Seq<(i32, i32)>,
)
    requires
        0 <= k < tiles.len(),
    ensures
        ({
            let before = done_at_end(tiles.take(k), settings, done);
            done_at_end(tiles.take(k + 1), settings, done) == if before.contains(tiles[k].id) {
                before
            } else {
                done_after(before, tiles[k].id, settings)
            }
        }),
    decreases k,
{
    let upto = tiles.take(k + 1);
    if k == 0 {
        assert(tiles.take(0) =~= Seq::empty());
        assert(upto.drop_first() =~= Seq::empty());
        assert(upto[0] == tiles[0]);
        reveal_with_fuel(done_at_end, 2);
    } else {
        let rest = tiles.drop_first();
        let next = if done.contains(tiles[0].id) {
            done
        } else {
            done_after(done, tiles[0].id, settings)
        };
        lemma_done_after_one_more(rest, k - 1, settings, next);
        assert(rest.take(k) =~= upto.drop_first());
        assert(rest.take(k - 1) =~= tiles.take(k).drop_first());
        assert(rest[k - 1] == tiles[k]);
    }
}

/// Right after a tile has been written and before it is counted, the record of
/// the tiles done so far is stored: it is the record from which a resumed run
/// goes on with the next tile.
pub proof fn the_record_follows_every_tile(
    tiles: Seq<Tile>,
    k: int,
    lists: spec_fn((i32, i32)) -> Seq<ElementView>,
    settings: RunSettings,
    done: Seq<(i32, i32)>,
)
    requires
        0 <= k < tiles.len(),
        settings.record,
        !settings.worker,
        !done_at_end(tiles.take(k), settings, done).contains(tiles[k].id),
    ensures
        ({
            let tasks = script(tiles.take(k + 1), lists, settings, done);
            let n = tasks.len();
            &&& n >= 3
            &&& tasks[n - 3] is Save
            &&& tasks[n - 2] == (TaskView::Record {
                done: done_at_end(tiles.take(k + 1), settings, done),
            })
            &&& tasks[n - 1] is Advance
        }),
{
    let upto = tiles.take(k + 1);
    let before = done_at_end(tiles.take(k), settings, done);
    lemma_done_after_one_more(tiles, k, settings, done);
    a_run_goes_tile_by_tile(upto, k, lists, settings, done);
    assert(upto.take(k) =~= tiles.take(k));
    let last = upto.skip(k);
    assert(last =~= seq![tiles[k]]);
    assert(last.drop_first() =~= Seq::empty());
    let work = tile_tasks(tiles[k], lists(tiles[k].id), settings, before);
    assert(script(last.drop_first(), lists, settings, before.push(tiles[k].id)) =~= Seq::empty());
    assert(script(last, lists, settings, before) =~= work);
    let end = closing(tiles[k], settings, before);
    let m = work.len() as int;
    assert(end.len() == 3);
    assert(end[0] is Save);
    assert(end[1] == (TaskView::Record { done: before.push(tiles[k].id) }));
    assert(end[2] is Advance);
    assert(work[m - 3] == end[0] && work[m - 2] == end[1] && work[m - 1] == end[2]);
}

} // verus!
