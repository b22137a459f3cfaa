//! What holds of a run as a whole.

use crate::batching::Tile;
use crate::coordinates::Rect;
use crate::data_processing::{
    closing, done_after, drawing, grounding, lists_of, noting, script, tile_tasks, RunSettings,
    TaskView,
};
use crate::elements::ElementView;
use crate::grid::cells;
use crate::partition_laws::a_lone_tile_gets_everything;
use crate::resume::recording_marks_one_tile;
use crate::tile_laws::{distinct_ids, lemma_distinct_rest};
use vstd::prelude::*;

verus! {

/// The ids that are done once a run has been over the tiles.
pub open spec fn done_at_end(
    tiles: Seq<Tile>,
    settings: RunSettings,
    done: Seq<(i32, i32)>,
) -> Seq<(i32, i32)>
    decreases tiles.len(),
{
    if tiles.len() == 0 {
        done
    } else if done.contains(tiles[0].id) {
        done_at_end(tiles.drop_first(), settings, done)
    } else {
        done_at_end(tiles.drop_first(), settings, done_after(done, tiles[0].id, settings))
    }
}

/// Counting `n` tiles as handled, and nothing else.
pub open spec fn advances(n: nat) -> Seq<TaskView> {
    Seq::new(n, |i: int| TaskView::Advance)
}

/// A run that keeps a record forgets no tile that was done, and at its end all
/// its tiles are done.
pub proof fn a_recorded_run_does_all_tiles(
    tiles: Seq<Tile>,
    settings: RunSettings,
    done: Seq<(i32, i32)>,
    id: (i32, i32),
)
    requires
        settings.record,
        !settings.worker,
    ensures
        done_at_end(tiles, settings, done).contains(id) <==> done.contains(id) || exists|i: int|
            0 <= i < tiles.len() && (#[trigger] tiles[i]).id == id,
    decreases tiles.len(),
{
    if tiles.len() > 0 {
        let rest = tiles.drop_first();
        let next = if done.contains(tiles[0].id) {
            done
        } else {
            done.push(tiles[0].id)
        };
        a_recorded_run_does_all_tiles(rest, settings, next, id);
        recording_marks_one_tile(done, tiles[0].id, id);
        if exists|i: int| 0 <= i < rest.len() && (#[trigger] rest[i]).id == id {
            let i = choose|i: int| 0 <= i < rest.len() && (#[trigger] rest[i]).id == id;
            assert(tiles[i + 1].id == id);
        }
        if exists|i: int| 0 <= i < tiles.len() && (#[trigger] tiles[i]).id == id {
            let i = choose|i: int| 0 <= i < tiles.len() && (#[trigger] tiles[i]).id == id;
            if i > 0 {
                assert(rest[i - 1].id == id);
            }
        }
    }
}

/// Tiles that are done are only counted; the run goes on with the others.
proof fn lemma_done_tiles_are_passed_over(
    tiles: Seq<Tile>,
    k: int,
    lists: spec_fn((i32, i32)) -> Seq<ElementView>,
    settings: RunSettings,
    done: Seq<(i32, i32)>,
)
    requires
        0 <= k <= tiles.len(),
        forall|i: int| 0 <= i < k ==> done.contains((#[trigger] tiles[i]).id),
    ensures
        script(tiles, lists, settings, done) == advances(k as nat) + script(
            tiles.skip(k),
            lists,
            settings,
            done,
        ),
    decreases k,
{
    if k == 0 {
        assert(tiles.skip(0) =~= tiles);
        assert(advances(0) + script(tiles, lists, settings, done) =~= script(
            tiles,
            lists,
            settings,
            done,
        ));
    } else {
        let rest = tiles.drop_first();
        assert forall|i: int| 0 <= i < k - 1 implies done.contains((#[trigger] rest[i]).id) by {
            assert(rest[i] == tiles[i + 1]);
        }
        lemma_done_tiles_are_passed_over(rest, k - 1, lists, settings, done);
        assert(rest.skip(k - 1) =~= tiles.skip(k));
        assert(done.contains(tiles[0].id));
        assert(script(tiles, lists, settings, done) =~= advances(k as nat) + script(
            tiles.skip(k),
            lists,
            settings,
            done,
        ));
    }
}

/// A run is what it does for its first `k` tiles, followed by the run over the
/// other tiles.
pub proof fn a_run_goes_tile_by_tile(
    tiles: Seq<Tile>,
    k: int,
    lists: spec_fn((i32, i32)) -> Seq<ElementView>,
    settings: RunSettings,
    done: Seq<(i32, i32)>,
)
    requires
        0 <= k <= tiles.len(),
    ensures
        script(tiles, lists, settings, done) == script(tiles.take(k), lists, settings, done)
            + script(
            tiles.skip(k),
            lists,
            settings,
            done_at_end(tiles.take(k), settings, done),
        ),
    decreases k,
{
    let first = tiles.take(k);
    if k == 0 {
        assert(tiles.skip(0) =~= tiles);
        assert(script(first, lists, settings, done) =~= Seq::empty());
        assert(script(first, lists, settings, done) + script(tiles, lists, settings, done)
            =~= script(tiles, lists, settings, done));
    } else {
        let rest = tiles.drop_first();
        let next = if done.contains(tiles[0].id) {
            done
        } else {
            done_after(done, tiles[0].id, settings)
        };
        a_run_goes_tile_by_tile(rest, k - 1, lists, settings, next);
        assert(rest.skip(k - 1) =~= tiles.skip(k));
        assert(rest.take(k - 1) =~= first.drop_first());
        assert(script(tiles, lists, settings, done) =~= script(first, lists, settings, done)
            + script(tiles.skip(k), lists, settings, done_at_end(first, settings, done)));
    }
}

/// Resuming: a run that starts from the record that an earlier run had kept
/// after its first `k` tiles only counts these tiles, and then does exactly
/// what the earlier run had left to do.
pub proof fn a_resumed_run_continues(
    tiles: Seq<Tile>,
    k: int,
    lists: spec_fn((i32, i32)) -> Seq<ElementView>,
    settings: RunSettings,
    done: Seq<(i32, i32)>,
)
    requires
        0 <= k <= tiles.len(),
        settings.record,
        !settings.worker,
    ensures
        ({
            let on_record = done_at_end(tiles.take(k), settings, done);
            let left = script(tiles.skip(k), lists, settings, on_record);
            &&& script(tiles, lists, settings, done) == script(
                tiles.take(k),
                lists,
                settings,
                done,
            ) + left
            &&& script(tiles, lists, settings, on_record) == advances(k as nat) + left
        }),
{
    let on_record = done_at_end(tiles.take(k), settings, done);
    a_run_goes_tile_by_tile(tiles, k, lists, settings, done);
    assert forall|i: int| 0 <= i < k implies on_record.contains((#[trigger] tiles[i]).id) by {
        a_recorded_run_does_all_tiles(tiles.take(k), settings, done, tiles[i].id);
        assert(tiles.take(k)[i].id == tiles[i].id);
    }
    lemma_done_tiles_are_passed_over(tiles, k, lists, settings, on_record);
}

/// A run that starts from the record of a finished run over the same tiles
/// does nothing but count them.
pub proof fn a_finished_run_is_not_repeated(
    tiles: Seq<Tile>,
    lists: spec_fn((i32, i32)) -> Seq<ElementView>,
    settings: RunSettings,
    done: Seq<(i32, i32)>,
)
    requires
        settings.record,
        !settings.worker,
    ensures
        script(tiles, lists, settings, done_at_end(tiles, settings, done)) == advances(tiles.len()),
{
    let n = tiles.len() as int;
    a_resumed_run_continues(tiles, n, lists, settings, done);
    assert(tiles.take(n) =~= tiles);
    assert(script(tiles, lists, settings, done_at_end(tiles, settings, done)) =~= advances(
        tiles.len(),
    ));
}

/// How many tasks count a tile as handled.
pub open spec fn advance_count(tasks: Seq<TaskView>) -> nat
    decreases tasks.len(),
{
    if tasks.len() == 0 {
        0
    } else {
        advance_count(tasks.drop_last()) + if tasks.last() is Advance {
            1nat
        } else {
            0nat
        }
    }
}

/// The rectangles for which editors are opened, in order.
pub open spec fn opened(tasks: Seq<TaskView>) -> Seq<Rect>
    decreases tasks.len(),
{
    if tasks.len() == 0 {
        Seq::empty()
    } else {
        match tasks.last() {
            TaskView::Open { area } => opened(tasks.drop_last()).push(area),
            _ => opened(tasks.drop_last()),
        }
    }
}

/// How many tasks write a tile.
pub open spec fn save_count(tasks: Seq<TaskView>) -> nat
    decreases tasks.len(),
{
    if tasks.len() == 0 {
        0
    } else {
        save_count(tasks.drop_last()) + if tasks.last() is Save {
            1nat
        } else {
            0nat
        }
    }
}

proof fn lemma_tallies_add(a: Seq<TaskView>, b: Seq<TaskView>)
    ensures
        advance_count(a + b) == advance_count(a) + advance_count(b),
        save_count(a + b) == save_count(a) + save_count(b),
        opened(a + b) == opened(a) + opened(b),
    decreases b.len(),
{
    if b.len() == 0 {
        assert(a + b =~= a);
        assert(opened(a) + opened(b) =~= opened(a));
    } else {
        assert((a + b).drop_last() =~= a + b.drop_last());
        assert((a + b).last() == b.last());
        lemma_tallies_add(a, b.drop_last());
        assert(opened(a + b) =~= opened(a) + opened(b));
    }
}

/// Tasks that neither open, write nor count a tile.
spec fn plain(tasks: Seq<TaskView>) -> bool {
    forall|i: int|
        0 <= i < tasks.len() ==> (#[trigger] tasks[i] is Draw || tasks[i] is Ground
            || tasks[i] is Record)
}

proof fn lemma_plain(tasks: Seq<TaskView>)
    requires
        plain(tasks),
    ensures
        advance_count(tasks) == 0,
        save_count(tasks) == 0,
        opened(tasks) == Seq::<Rect>::empty(),
    decreases tasks.len(),
{
    if tasks.len() > 0 {
        assert forall|i: int| 0 <= i < tasks.drop_last().len() implies (
        #[trigger] tasks.drop_last()[i] is Draw || tasks.drop_last()[i] is Ground
            || tasks.drop_last()[i] is Record) by {
            assert(tasks.drop_last()[i] == tasks[i]);
        }
        lemma_plain(tasks.drop_last());
        assert(tasks[tasks.len() - 1] == tasks.last());
    }
}

proof fn lemma_drawing_is_plain(elements: Seq<ElementView>)
    ensures
        plain(drawing(elements)),
    decreases elements.len(),
{
    if elements.len() > 0 {
        lemma_drawing_is_plain(elements.drop_first());
    }
}

proof fn lemma_one_task(task: TaskView)
    ensures
        advance_count(seq![task]) == if task is Advance {
            1nat
        } else {
            0nat
        },
        save_count(seq![task]) == if task is Save {
            1nat
        } else {
            0nat
        },
        opened(seq![task]) == (match task {
            TaskView::Open { area } => seq![area],
            _ => Seq::<Rect>::empty(),
        }),
{
    reveal_with_fuel(advance_count, 2);
    reveal_with_fuel(save_count, 2);
    let s = seq![task];
    assert(s.drop_last() =~= Seq::empty());
    assert(s.last() == task);
    assert(opened(s.drop_last()) =~= Seq::<Rect>::empty());
    assert(opened(s) =~= (match task {
        TaskView::Open { area } => seq![area],
        _ => Seq::<Rect>::empty(),
    }));
}

/// The tasks of one tile open it once, write it once and, but for a worker,
/// count it once.
proof fn lemma_tile_tallies(
    tile: Tile,
    elements: Seq<ElementView>,
    settings: RunSettings,
    done: Seq<(i32, i32)>,
)
    ensures
        advance_count(tile_tasks(tile, elements, settings, done)) == if settings.worker {
            0nat
        } else {
            1nat
        },
        save_count(tile_tasks(tile, elements, settings, done)) == 1,
        opened(tile_tasks(tile, elements, settings, done)) == seq![tile.rect()],
{
    let open = TaskView::Open { area: tile.rect() };
    let draw = drawing(elements);
    let ground = grounding(cells(tile.rect()), settings.fill);
    let end = closing(tile, settings, done);
    let save = end[0];
    let note = noting(tile, settings, done);
    assert(end == seq![save] + note);
    lemma_one_task(open);
    lemma_one_task(save);
    lemma_drawing_is_plain(elements);
    lemma_plain(draw);
    lemma_plain(ground);
    lemma_one_task(TaskView::Advance);
    if settings.worker {
        assert(note =~= Seq::empty());
        assert(opened(note) =~= Seq::<Rect>::empty());
    } else if settings.record {
        let record = TaskView::Record { done: done.push(tile.id) };
        lemma_one_task(record);
        assert(note =~= seq![record] + seq![TaskView::Advance]);
        lemma_tallies_add(seq![record], seq![TaskView::Advance]);
    } else {
        assert(note =~= seq![TaskView::Advance]);
    }
    lemma_tallies_add(seq![save], note);
    lemma_tallies_add(seq![open], draw);
    lemma_tallies_add(seq![open] + draw, ground);
    lemma_tallies_add(seq![open] + draw + ground, end);
    assert(opened(tile_tasks(tile, elements, settings, done)) =~= seq![tile.rect()]);
}

/// A run counts each of its tiles once, whether it is done or not.
pub proof fn every_tile_is_counted_once(
    tiles: Seq<Tile>,
    lists: spec_fn((i32, i32)) -> Seq<ElementView>,
    settings: RunSettings,
    done: Seq<(i32, i32)>,
)
    requires
        !settings.worker,
    ensures
        advance_count(script(tiles, lists, settings, done)) == tiles.len(),
    decreases tiles.len(),
{
    if tiles.len() > 0 {
        let rest = tiles.drop_first();
        let id = tiles[0].id;
        if done.contains(id) {
            every_tile_is_counted_once(rest, lists, settings, done);
            lemma_one_task(TaskView::Advance);
            lemma_tallies_add(seq![TaskView::Advance], script(rest, lists, settings, done));
        } else {
            let next = done_after(done, id, settings);
            every_tile_is_counted_once(rest, lists, settings, next);
            lemma_tile_tallies(tiles[0], lists(id), settings, done);
            lemma_tallies_add(
                tile_tasks(tiles[0], lists(id), settings, done),
                script(rest, lists, settings, next),
            );
        }
    }
}

/// The rectangles of the tiles that are not done, in order.
pub open spec fn pending(tiles: Seq<Tile>, done: Seq<(i32, i32)>) -> Seq<Rect>
    decreases tiles.len(),
{
    if tiles.len() == 0 {
        Seq::empty()
    } else if done.contains(tiles[0].id) {
        pending(tiles.drop_first(), done)
    } else {
        seq![tiles[0].rect()] + pending(tiles.drop_first(), done)
    }
}

/// Recording a tile changes nothing for tiles with other ids.
proof fn lemma_pending_others(tiles: Seq<Tile>, done: Seq<(i32, i32)>, id: (i32, i32))
    requires
        forall|i: int| 0 <= i < tiles.len() ==> (#[trigger] tiles[i]).id != id,
    ensures
        pending(tiles, done.push(id)) == pending(tiles, done),
    decreases tiles.len(),
{
    if tiles.len() > 0 {
        let rest = tiles.drop_first();
        assert forall|i: int| 0 <= i < rest.len() implies (#[trigger] rest[i]).id != id by {
            assert(rest[i] == tiles[i + 1]);
        }
        lemma_pending_others(rest, done, id);
        recording_marks_one_tile(done, id, tiles[0].id);
    }
}

/// Where no two tiles share an id, a run opens and writes each tile that is
/// not done exactly once, in order, and no other.
pub proof fn pending_tiles_are_written_once(
    tiles: Seq<Tile>,
    lists: spec_fn((i32, i32)) -> Seq<ElementView>,
    settings: RunSettings,
    done: Seq<(i32, i32)>,
)
    requires
        distinct_ids(tiles),
    ensures
        opened(script(tiles, lists, settings, done)) == pending(tiles, done),
        save_count(script(tiles, lists, settings, done)) == pending(tiles, done).len(),
    decreases tiles.len(),
{
    if tiles.len() > 0 {
        let rest = tiles.drop_first();
        let id = tiles[0].id;
        lemma_distinct_rest(tiles);
        if done.contains(id) {
            pending_tiles_are_written_once(rest, lists, settings, done);
            lemma_one_task(TaskView::Advance);
            lemma_tallies_add(seq![TaskView::Advance], script(rest, lists, settings, done));
        } else {
            let next = done_after(done, id, settings);
            lemma_pending_others(rest, done, id);
            pending_tiles_are_written_once(rest, lists, settings, next);
            lemma_tile_tallies(tiles[0], lists(id), settings, done);
            lemma_tallies_add(
                tile_tasks(tiles[0], lists(id), settings, done),
                script(rest, lists, settings, next),
            );
        }
        assert(opened(script(tiles, lists, settings, done)) =~= pending(tiles, done));
    }
}

/// A worker's run is the work on its tile, with every element that has a
/// generator drawn in order, and one write without locks.
pub proof fn a_worker_does_its_tile(
    tile: Tile,
    elements: Seq<ElementView>,
    settings: RunSettings,
)
    requires
        settings.worker,
    ensures
        script(
            seq![tile],
            lists_of(elements, seq![tile]),
            settings,
            Seq::empty(),
        ) == seq![TaskView::Open { area: tile.rect() }] + drawing(elements) + grounding(
            cells(tile.rect()),
            settings.fill,
        ) + seq![TaskView::Save { regions: Seq::empty() }],
{
    let tiles = seq![tile];
    let lists = lists_of(elements, tiles);
    let none = Seq::<(i32, i32)>::empty();
    a_lone_tile_gets_everything(elements, tile);
    assert(tiles.drop_first() =~= Seq::empty());
    assert(script(tiles.drop_first(), lists, settings, none) =~= Seq::empty());
    assert(closing(tile, settings, none) =~= seq![TaskView::Save { regions: none }]);
    assert(lists(tile.id) == elements);
    assert(script(tiles, lists, settings, none) =~= tile_tasks(tile, elements, settings, none));
}

} // verus!
