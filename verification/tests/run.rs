use world_tiling::args::{tile_file_invalid, tile_file_unreadable, Args, RunMode};
use world_tiling::batching::{ResumeState, Tile};
use world_tiling::coordinates::{XZBBox, XZVector};
use world_tiling::data_processing::{Task, WorldRun, MIN_Y};
use world_tiling::elements::{ProcessedElement, ProcessedNode};
use world_tiling::grid::CellWalk;
use world_tiling::ground::{
    surface_ops, underground_ops, Block, BlockOp, ColumnGround, GroundStep, Reply,
};
use world_tiling::regions::{region_keys, region_lock_keys};
use world_tiling::tags::Tags;

fn args(tile_size: i32, resume: bool) -> Args {
    Args {
        path: "saves/world".to_string(),
        tile_size,
        fillground: false,
        resume_file: if resume { Some("resume.json".to_string()) } else { None },
        worker: false,
        tile_file: None,
    }
}

fn tree(id: u64, x: i32, z: i32) -> ProcessedElement {
    let mut tags = Tags::new();
    tags.insert("natural".to_string(), "tree".to_string());
    ProcessedElement::Node(ProcessedNode { id, tags, x, z })
}

fn plain(id: u64, x: i32, z: i32) -> ProcessedElement {
    ProcessedElement::Node(ProcessedNode { id, tags: Tags::new(), x, z })
}

fn state(ids: &[(i32, i32)]) -> ResumeState {
    ResumeState { processed_tiles: ids.to_vec() }
}

fn all_tasks(mut run: WorldRun) -> Vec<String> {
    let mut out = Vec::new();
    while let Some(task) = run.next() {
        out.push(match task {
            Task::Open { bbox } => format!(
                "open {} {} {} {}",
                bbox.min_x(),
                bbox.min_z(),
                bbox.max_x(),
                bbox.max_z()
            ),
            Task::Draw { generator, element } => match element {
                ProcessedElement::Node(node) => format!("draw {:?} {}", generator, node.id),
                _ => panic!("only nodes here"),
            },
            Task::Ground { x, z, fill } => format!("ground {} {} {}", x, z, fill),
            Task::Save { regions } => format!("save {:?}", regions),
            Task::Record { state } => format!("record {:?}", state.processed_tiles),
            Task::Advance => "advance".to_string(),
        });
    }
    assert!(run.next().is_none());
    out
}

fn strip() -> XZBBox {
    XZBBox::rect_from_xz_lengths(2, 0).unwrap()
}

#[test]
fn a_run_opens_draws_grounds_saves_and_counts() {
    let elements = vec![tree(1, 2, 0), plain(2, 0, 0), tree(3, 1, 0), tree(4, 90, 90)];
    let run = WorldRun::new(&elements, &strip(), &args(2, false), None);
    assert_eq!(run.tiles().len(), 2);
    assert_eq!(
        all_tasks(run),
        vec![
            "open 0 0 1 0",
            "draw Natural 3",
            "draw Natural 4",
            "ground 0 0 false",
            "ground 1 0 false",
            "save [(0, 0)]",
            "advance",
            "open 2 0 2 0",
            "draw Natural 1",
            "ground 2 0 false",
            "save [(0, 0)]",
            "advance",
        ]
    );
}

#[test]
fn a_run_with_a_resume_file_records_each_tile() {
    let mut options = args(2, true);
    options.fillground = true;
    let run = WorldRun::new(&[], &strip(), &options, None);
    assert_eq!(
        all_tasks(run),
        vec![
            "open 0 0 1 0",
            "ground 0 0 true",
            "ground 1 0 true",
            "save [(0, 0)]",
            "record [(0, 0)]",
            "advance",
            "open 2 0 2 0",
            "ground 2 0 true",
            "save [(0, 0)]",
            "record [(0, 0), (1, 0)]",
            "advance",
        ]
    );
}

#[test]
fn a_resumed_run_does_what_was_left() {
    let run = WorldRun::new(&[], &strip(), &args(2, true), Some(state(&[(0, 0)])));
    assert_eq!(
        all_tasks(run),
        vec![
            "advance",
            "open 2 0 2 0",
            "ground 2 0 false",
            "save [(0, 0)]",
            "record [(0, 0), (1, 0)]",
            "advance",
        ]
    );
}

#[test]
fn a_finished_run_is_only_counted() {
    let run = WorldRun::new(&[tree(1, 0, 0)], &strip(), &args(2, true), Some(state(&[(0, 0), (1, 0)])));
    assert_eq!(all_tasks(run), vec!["advance", "advance"]);
}

#[test]
fn without_a_resume_file_a_record_is_ignored() {
    let run = WorldRun::new(&[], &strip(), &args(3, false), Some(state(&[(0, 0)])));
    let tasks = all_tasks(run);
    assert_eq!(tasks[0], "open 0 0 2 0");
    assert_eq!(tasks.last().unwrap(), "advance");
    assert!(tasks.iter().all(|t| !t.starts_with("record")));
}

#[test]
fn every_tile_is_counted_and_written_once() {
    let bbox = XZBBox::rect_from_xz_lengths(20, 10).unwrap();
    let run = WorldRun::new(&[], &bbox, &args(4, true), Some(state(&[(2, 1), (5, 2)])));
    let tiles = run.tiles().len();
    let tasks = all_tasks(run);
    let count = |word: &str| tasks.iter().filter(|t| t.starts_with(word)).count();
    assert_eq!(tiles, 18);
    assert_eq!(count("advance"), 18);
    assert_eq!(count("open"), 16);
    assert_eq!(count("save"), 16);
    assert_eq!(count("record"), 16);
    assert_eq!(count("ground"), 21 * 11 - 4 * 4 - 1 * 3);
}

#[test]
fn a_worker_draws_everything_and_saves_without_locks() {
    let tile = Tile { min_x: 2, min_z: 0, max_x: 2, max_z: 1, id: (1, 0) };
    let elements = vec![tree(1, 0, 0), plain(2, 2, 0), tree(3, 2, 1)];
    let mut options = args(2, true);
    options.worker = true;
    options.fillground = true;
    let run = WorldRun::for_tile(&elements, &tile, &options);
    assert_eq!(
        all_tasks(run),
        vec![
            "open 2 0 2 1",
            "draw Natural 1",
            "draw Natural 3",
            "ground 2 0 true",
            "ground 2 1 true",
            "save []",
        ]
    );
}

#[test]
fn when_a_run_can_start() {
    let bbox = strip();
    assert!(WorldRun::can_start(&bbox, &args(2, false), &None));
    assert!(!WorldRun::can_start(&bbox, &args(0, false), &None));
    assert!(!WorldRun::can_start(&bbox, &args(-2, true), &None));
    assert!(!WorldRun::can_start(&bbox, &args(-2, true), &Some(state(&[(1, 0)]))));
    assert!(!WorldRun::can_start(&bbox, &args(-2, false), &Some(state(&[(0, 0)]))));
    assert!(WorldRun::can_start(&bbox, &args(-2, true), &Some(state(&[(0, 0)]))));
    let run = WorldRun::new(&[], &bbox, &args(-2, true), Some(state(&[(0, 0)])));
    assert_eq!(all_tasks(run), vec!["advance"]);
}

#[test]
fn the_kind_of_run() {
    let mut options = args(2, false);
    assert!(matches!(options.run_mode(), Ok(RunMode::Full)));
    options.tile_file = Some("tile.json".to_string());
    assert!(matches!(options.run_mode(), Ok(RunMode::Full)));
    options.worker = true;
    match options.run_mode() {
        Ok(RunMode::Worker { tile_file }) => assert_eq!(tile_file, "tile.json"),
        _ => panic!("a worker was asked for"),
    }
    options.tile_file = None;
    assert_eq!(options.run_mode().unwrap_err(), "--worker requires --tile-file");
}

#[test]
fn texts() {
    assert_eq!(args(2, false).region_dir(), "saves/world/region");
    assert_eq!(tile_file_unreadable("gone"), "Failed to read tile file: gone");
    assert_eq!(tile_file_invalid("odd"), "Failed to parse tile file: odd");
}

#[test]
fn resume_state_keeps_the_order() {
    let mut resume = ResumeState::load(None);
    assert!(resume.processed_tiles.is_empty());
    resume.record((3, 1));
    resume.record((0, 2));
    assert_eq!(resume.processed_tiles, vec![(3, 1), (0, 2)]);
    assert!(resume.is_processed((0, 2)));
    assert!(resume.is_processed((3, 1)));
    assert!(!resume.is_processed((1, 3)));
    let loaded = ResumeState::load(Some(resume.clone()));
    assert_eq!(loaded.processed_tiles, resume.processed_tiles);
}

#[test]
fn region_keys_come_sorted() {
    let tile = Tile { min_x: -513, min_z: 511, max_x: 0, max_z: 512, id: (0, 0) };
    let keys = region_keys(&tile);
    assert_eq!(keys, vec![(-2, 0), (-2, 1), (-1, 0), (-1, 1), (0, 0), (0, 1)]);
    let mut sorted = keys.clone();
    sorted.sort();
    assert_eq!(keys, sorted);
}

#[test]
fn region_keys_at_the_edges() {
    let tile = Tile { min_x: i32::MIN, min_z: -1, max_x: i32::MIN, max_z: -1, id: (0, 0) };
    assert_eq!(region_keys(&tile), vec![(-4194304, -1)]);
    let empty = Tile { min_x: 600, min_z: 0, max_x: 10, max_z: 0, id: (0, 0) };
    assert!(region_keys(&empty).is_empty());
    // the bounds are out of order but in the same region
    let flipped = Tile { min_x: 20, min_z: 0, max_x: 10, max_z: 0, id: (0, 0) };
    assert_eq!(region_keys(&flipped), vec![(0, 0)]);
}

#[test]
fn every_region_of_a_tile_has_a_lock() {
    let tiles = vec![
        Tile { min_x: 0, min_z: 0, max_x: 600, max_z: 10, id: (0, 0) },
        Tile { min_x: 601, min_z: 0, max_x: 1300, max_z: 10, id: (1, 0) },
    ];
    let locks = region_lock_keys(&tiles);
    assert_eq!(locks.into_iter().collect::<Vec<_>>(), vec![(0, 0), (1, 0), (2, 0)]);
    assert!(region_lock_keys(&[]).is_empty());
}

#[test]
fn every_column_has_its_region_among_the_keys() {
    let tile = Tile { min_x: -520, min_z: -3, max_x: 515, max_z: 2, id: (0, 0) };
    let keys = region_keys(&tile);
    for x in tile.min_x..=tile.max_x {
        for z in tile.min_z..=tile.max_z {
            assert!(keys.contains(&(x.div_euclid(512), z.div_euclid(512))));
        }
    }
    assert_eq!(keys.len(), 8);
}

#[test]
fn walking_cells() {
    let mut walk = CellWalk::new(-1, 4, 0, 5);
    let mut seen = Vec::new();
    while let Some(cell) = walk.next() {
        seen.push(cell);
    }
    assert_eq!(seen, vec![(-1, 4), (-1, 5), (0, 4), (0, 5)]);
    assert!(CellWalk::new(1, 0, 0, 9).next().is_none());
    assert!(CellWalk::new(0, 9, 5, 8).next().is_none());
    let mut last = CellWalk::new(i32::MAX, i32::MAX, i32::MAX, i32::MAX);
    assert_eq!(last.next(), Some((i32::MAX, i32::MAX)));
    assert_eq!(last.next(), None);
}

#[test]
fn ground_of_a_column() {
    assert_eq!(MIN_Y, -64);
    assert_eq!(
        surface_ops(4, 5, false),
        vec![
            BlockOp::Place { block: Block::GrassBlock, x: 4, y: 0, z: 5 },
            BlockOp::Place { block: Block::Dirt, x: 4, y: -1, z: 5 },
            BlockOp::Place { block: Block::Dirt, x: 4, y: -2, z: 5 },
        ]
    );
    assert!(surface_ops(4, 5, true).is_empty());
    let bedrock =
        BlockOp::PlaceAbsolute { block: Block::Bedrock, x: 4, y: -64, z: 5, unless: Block::Bedrock };
    assert_eq!(underground_ops(4, 5, None), vec![bedrock]);
    assert_eq!(
        underground_ops(4, 5, Some(-10)),
        vec![
            BlockOp::FillAbsolute {
                block: Block::Stone,
                x1: 4,
                y1: -63,
                z1: 5,
                x2: 4,
                y2: -10,
                z2: 5
            },
            bedrock,
        ]
    );
}

#[test]
fn a_moved_box() {
    let mut bbox = XZBBox::rect_from_xz_lengths(9, 4).unwrap();
    bbox.translate(XZVector { dx: -3, dz: 100 });
    assert_eq!((bbox.min_x(), bbox.min_z(), bbox.max_x(), bbox.max_z()), (-3, 100, 6, 104));
}

#[test]
fn a_fresh_run_grounds_every_column_once() {
    let mut bbox = XZBBox::rect_from_xz_lengths(12, 7).unwrap();
    bbox.translate(XZVector { dx: -5, dz: 3 });
    let mut run = WorldRun::new(&[], &bbox, &args(5, true), None);
    let mut columns = Vec::new();
    while let Some(task) = run.next() {
        if let Task::Ground { x, z, .. } = task {
            columns.push((x, z));
        }
    }
    columns.sort();
    let mut expected = Vec::new();
    for x in -5..=7 {
        for z in 3..=10 {
            expected.push((x, z));
        }
    }
    assert_eq!(columns, expected);
}

#[test]
fn a_fresh_run_draws_every_element_with_a_generator() {
    let elements = vec![tree(1, 0, 0), plain(2, 1, 0), tree(3, 2, 0), tree(4, -50, 7)];
    let mut run = WorldRun::new(&elements, &strip(), &args(1, false), None);
    let mut drawn = Vec::new();
    while let Some(task) = run.next() {
        if let Task::Draw { element: ProcessedElement::Node(node), .. } = task {
            drawn.push(node.id);
        }
    }
    assert_eq!(drawn, vec![1, 4, 3]);
}

fn column(x: i32, z: i32, fill: bool, found: bool, top: i32) -> Vec<GroundStep> {
    let mut ground = ColumnGround::new(x, z, fill);
    let mut steps = Vec::new();
    let mut reply = Reply::Nothing;
    while let Some(step) = ground.next(reply) {
        reply = match step {
            GroundStep::AskBlock { .. } => Reply::Found(found),
            GroundStep::AskHeight { .. } => Reply::Height(top),
            GroundStep::Apply { .. } => Reply::Nothing,
        };
        steps.push(step);
    }
    assert_eq!(ground.next(Reply::Nothing), None);
    steps
}

fn apply(ops: Vec<BlockOp>) -> Vec<GroundStep> {
    ops.into_iter().map(|op| GroundStep::Apply { op }).collect()
}

#[test]
fn steps_of_a_filled_column() {
    let mut expected = vec![GroundStep::AskBlock { block: Block::Stone, x: 4, y: 0, z: -5 }];
    expected.extend(apply(surface_ops(4, -5, false)));
    expected.push(GroundStep::AskHeight { x: 4, y: -3, z: -5 });
    expected.extend(apply(underground_ops(4, -5, Some(61))));
    assert_eq!(expected.len(), 7);
    assert_eq!(column(4, -5, true, false, 61), expected);
}

#[test]
fn steps_of_a_column_with_stone() {
    let ask = GroundStep::AskBlock { block: Block::Stone, x: 1, y: 0, z: 2 };
    let mut expected = vec![ask, GroundStep::AskHeight { x: 1, y: -3, z: 2 }];
    expected.extend(apply(underground_ops(1, 2, Some(-9))));
    assert_eq!(column(1, 2, true, true, -9), expected);
}

#[test]
fn no_height_is_asked_for_without_a_fill() {
    let ask = GroundStep::AskBlock { block: Block::Stone, x: 1, y: 0, z: 2 };
    let mut expected = vec![ask];
    expected.extend(apply(surface_ops(1, 2, false)));
    expected.extend(apply(underground_ops(1, 2, None)));
    assert_eq!(column(1, 2, false, false, 70), expected);
    let mut bare = vec![ask];
    bare.extend(apply(underground_ops(1, 2, None)));
    assert_eq!(column(1, 2, false, true, 70), bare);
}
