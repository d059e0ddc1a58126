use std::collections::BTreeSet;

use popcircles::grid::GridShape;
use popcircles::search::{Block, Candidate, HeldKernel, Standing, Walk};
use popcircles::table::RowBand;

const WIDTH: u32 = 36;
const HEIGHT: u32 = 18;

fn grid() -> GridShape {
    GridShape::new(WIDTH, HEIGHT).expect("a 36 x 18 grid is valid")
}

fn cells_of(block: Block) -> Vec<(u32, u32)> {
    (block.rows().north()..=block.rows().south())
        .flat_map(|row| (block.first()..=block.last()).map(move |col| (row, col)))
        .collect()
}

fn every_cell() -> BTreeSet<(u32, u32)> {
    (0..HEIGHT)
        .flat_map(|row| (0..WIDTH).map(move |col| (row, col)))
        .collect()
}

#[test]
fn a_tiling_covers_every_cell_exactly_once() {
    let grid = grid();
    for cells in [1u32, 4, 5, 18, 40] {
        let blocks = Block::tile(&grid, cells);
        let covered: Vec<(u32, u32)> = blocks.iter().copied().flat_map(cells_of).collect();

        assert_eq!(
            covered.iter().copied().collect::<BTreeSet<(u32, u32)>>(),
            every_cell(),
            "spacing {cells} misses or invents a cell"
        );
        assert_eq!(
            covered.len(),
            (WIDTH * HEIGHT) as usize,
            "spacing {cells} covers a cell twice"
        );
    }
}

#[test]
fn a_spacing_past_the_grid_is_one_block() {
    let grid = grid();
    let blocks = Block::tile(&grid, u32::MAX);
    assert_eq!(blocks.len(), 1);
    assert_eq!(cells_of(blocks[0]).len(), (WIDTH * HEIGHT) as usize);
}

#[test]
fn a_single_cell_block_splits_into_nothing() {
    let grid = grid();
    for block in Block::tile(&grid, 1) {
        assert!(block.is_cell());
        assert_eq!(block.split(&grid).len(), 0);
    }
}

#[test]
fn splitting_reaches_single_cells_in_five_rounds_and_loses_no_cell() {
    let grid = grid();
    let mut level = Block::tile(&grid, 18);
    let mut rounds = 0;

    while !level.iter().all(|block| block.is_cell()) {
        level = level
            .iter()
            .flat_map(|block| {
                if block.is_cell() {
                    vec![*block]
                } else {
                    block.split(&grid)
                }
            })
            .collect();
        rounds += 1;
        assert!(rounds <= 8, "splitting is not converging: {rounds} rounds");
    }

    assert_eq!(rounds, 5);
    let leaves: Vec<(u32, u32)> = level.iter().copied().flat_map(cells_of).collect();
    assert_eq!(
        leaves.iter().copied().collect::<BTreeSet<(u32, u32)>>(),
        every_cell()
    );
    assert_eq!(leaves.len(), (WIDTH * HEIGHT) as usize);
}

#[test]
fn a_probe_on_an_even_extent_is_the_north_western_middle() {
    let grid = grid();
    let block = Block::new(RowBand::new(0, 3), 0, 3);
    assert_eq!(block.probe(&grid), (1, 1));

    let odd = Block::new(RowBand::new(4, 8), 10, 14);
    assert_eq!(odd.probe(&grid), (6, 12));
}

#[test]
fn a_probe_is_a_cell_of_the_block_it_stands_for() {
    let grid = grid();
    for cells in [1u32, 4, 5, 18] {
        for block in Block::tile(&grid, cells) {
            let probe = block.probe(&grid);
            assert!(
                cells_of(block).contains(&probe),
                "spacing {cells}: probe {probe:?} is outside its block"
            );
        }
    }
}

#[test]
fn a_block_given_its_columns_backwards_is_the_same_block() {
    let rows = RowBand::new(2, 5);
    assert_eq!(Block::new(rows, 30, 7), Block::new(rows, 7, 30));
}

/// How `other`'s population stands against `held`'s, as the two floats compare: a value that is not a
/// number compares false both ways and stands level.
fn standing(held: f64, other: f64) -> Standing {
    if other > held {
        Standing::Above
    } else if other < held {
        Standing::Below
    } else {
        Standing::Level
    }
}

fn better(held: Candidate<f64>, other: Candidate<f64>) -> Candidate<f64> {
    held.better(other, standing(held.population, other.population))
}

fn at(row: u32, col: u32, population: f64) -> Candidate<f64> {
    Candidate { row, col, population }
}

#[test]
fn the_better_candidate_is_the_same_whichever_order_they_arrive_in() {
    let cases = [
        (
            vec![at(3, 4, 10.0), at(0, 0, 50.0), at(17, 35, 20.0)],
            (0, 0),
        ),
        (
            vec![at(9, 2, 50.0), at(2, 30, 50.0), at(5, 5, 10.0)],
            (2, 30),
        ),
        (vec![at(4, 30, 50.0), at(4, 7, 50.0)], (4, 7)),
        (vec![at(1, 1, 7.0), at(0, 35, 7.0), at(0, 3, 7.0)], (0, 3)),
    ];

    for (candidates, expected) in cases {
        for reversed in [false, true] {
            let mut order = candidates.clone();
            if reversed {
                order.reverse();
            }
            let winner = order.into_iter().reduce(better).expect("the list is not empty");
            assert_eq!((winner.row, winner.col), expected, "reversed: {reversed}");
        }
    }
}

#[test]
fn the_tie_break_over_equal_candidates_names_the_north_west_cell() {
    let every: Vec<Candidate<f64>> = (0..HEIGHT)
        .flat_map(|row| (0..WIDTH).map(move |col| at(row, col, 7.0)))
        .collect();

    let forwards = every.iter().copied().reduce(better).expect("the grid has cells");
    let backwards = every.iter().rev().copied().reduce(better).expect("the grid has cells");

    assert_eq!((forwards.row, forwards.col), (0, 0));
    assert_eq!((backwards.row, backwards.col), (0, 0));
}

#[test]
fn a_population_that_is_not_a_number_falls_through_to_the_position() {
    let held = at(5, 5, f64::NAN);
    let other = at(2, 9, 3.0);
    let winner = better(held, other);
    assert_eq!((winner.row, winner.col), (2, 9));
    let winner = better(other, held);
    assert_eq!((winner.row, winner.col), (2, 9));
}

#[test]
fn a_walk_that_prunes_nothing_evaluates_every_cell_once() {
    let grid = GridShape::new(6, 4).expect("a 6 x 4 grid");
    let mut walk = Walk::start(grid, 3);
    let mut seen = BTreeSet::new();
    let mut evaluated = 0u64;
    while let Some(block) = walk.current() {
        if block.is_cell() {
            assert!(seen.insert((block.first(), block.rows().north())), "a cell twice");
        }
        let (done, total) = walk.settle(true);
        assert!(done >= 1 && done <= total);
        evaluated += 1;
    }
    assert_eq!(seen.len(), 24);
    let stats = walk.stats();
    assert_eq!(stats.blocks_pruned, 0);
    assert_eq!(stats.blocks_examined, evaluated);
    assert_eq!(stats.circles_evaluated, evaluated);
    assert!(walk.is_done());
}

#[test]
fn a_walk_that_prunes_every_block_ends_after_its_first_level() {
    let grid = GridShape::new(6, 4).expect("a 6 x 4 grid");
    let mut walk = Walk::start(grid, 2);
    let mut last = (0, 0);
    while walk.current().is_some() {
        last = walk.settle(false);
    }
    assert_eq!(last, (6, 6));
    let stats = walk.stats();
    assert_eq!(stats.levels, 1);
    assert_eq!(stats.blocks_pruned, 6);
    assert_eq!(stats.circles_evaluated, 0);
}

#[test]
fn a_held_kernel_is_rebuilt_only_for_another_row_or_radius() {
    let mut held = HeldKernel::new(3, 1000f64.to_bits(), "row 3");
    assert!(held.holds(3, 1000f64.to_bits()));
    assert!(!held.holds(4, 1000f64.to_bits()));
    assert!(!held.holds(3, 1001f64.to_bits()));
    assert_eq!(held.built(), 1);
    held.replace(4, 1000f64.to_bits(), "row 4");
    assert!(held.holds(4, 1000f64.to_bits()));
    assert_eq!(*held.kernel(), "row 4");
    assert_eq!(held.built(), 2);
}

fn corners(block: Block) -> (u32, u32, u32, u32) {
    (block.rows().north(), block.rows().south(), block.first(), block.last())
}

#[test]
fn a_tiling_starts_each_block_on_the_spacing_and_cuts_the_last_short() {
    let grid = GridShape::new(5, 3).expect("a 5 x 3 grid");
    let blocks: Vec<_> = Block::tile(&grid, 2).into_iter().map(corners).collect();
    assert_eq!(
        blocks,
        vec![
            (0, 1, 0, 1),
            (0, 1, 2, 3),
            (0, 1, 4, 4),
            (2, 2, 0, 1),
            (2, 2, 2, 3),
            (2, 2, 4, 4),
        ]
    );
}

#[test]
fn a_split_pairs_the_halves_of_the_rows_with_the_halves_of_the_columns() {
    let grid = grid();
    let block = Block::new(RowBand::new(2, 4), 10, 13);
    let children: Vec<_> = block.split(&grid).into_iter().map(corners).collect();
    assert_eq!(
        children,
        vec![(2, 3, 10, 11), (2, 3, 12, 13), (4, 4, 10, 11), (4, 4, 12, 13)]
    );
    let column = Block::new(RowBand::new(7, 7), 0, 2);
    let halves: Vec<_> = column.split(&grid).into_iter().map(corners).collect();
    assert_eq!(halves, vec![(7, 7, 0, 1), (7, 7, 2, 2)]);
}

#[test]
fn the_next_level_is_the_survivors_children_ordered_by_probe() {
    let grid = GridShape::new(4, 4).expect("a 4 x 4 grid");
    let mut walk = Walk::start(grid, 2);
    // The first level is the four 2 x 2 tiles; keep only the south-eastern one.
    let mut first_level = Vec::new();
    while let Some(block) = walk.current() {
        first_level.push(corners(block));
        let keep = corners(block) == (2, 3, 2, 3);
        let (done, total) = walk.settle(keep);
        if done == total {
            break;
        }
    }
    assert_eq!(
        first_level,
        vec![(0, 1, 0, 1), (0, 1, 2, 3), (2, 3, 0, 1), (2, 3, 2, 3)]
    );
    let mut second_level = Vec::new();
    while let Some(block) = walk.current() {
        second_level.push(corners(block));
        walk.settle(false);
    }
    assert_eq!(
        second_level,
        vec![(2, 2, 2, 2), (2, 2, 3, 3), (3, 3, 2, 2), (3, 3, 3, 3)]
    );
    assert_eq!(walk.stats().levels, 2);
}

#[test]
fn every_block_a_walk_examines_is_pruned_or_evaluated() {
    let grid = GridShape::new(6, 4).expect("a 6 x 4 grid");
    let mut walk = Walk::start(grid, 2);
    let mut keep = true;
    while walk.current().is_some() {
        walk.settle(keep);
        keep = !keep;
        let stats = walk.stats();
        assert_eq!(stats.blocks_examined, stats.blocks_pruned + stats.circles_evaluated);
    }
}

#[test]
fn the_sink_hears_one_run_per_level_each_ending_on_its_finished_pair() {
    let grid = GridShape::new(6, 4).expect("a 6 x 4 grid");
    let mut walk = Walk::start(grid, 3);
    let mut calls = Vec::new();
    while walk.current().is_some() {
        calls.push(walk.settle(true));
    }
    assert_eq!(calls[0].0, 1);
    let starts = calls.iter().filter(|(done, _)| *done == 1).count();
    assert_eq!(starts as u32, walk.stats().levels);
    for pair in calls.windows(2) {
        if pair[0].0 == pair[0].1 {
            assert_eq!(pair[1].0, 1);
        } else {
            assert_eq!(pair[1], (pair[0].0 + 1, pair[0].1));
        }
    }
    let last = calls.last().expect("a walk examines a block");
    assert_eq!(last.0, last.1);
}
