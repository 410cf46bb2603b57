use block_packer::data_structs::{Block, ProblemParams, Solution, Vec3};
use block_packer::solver::{
    build_params, check_volumes, dfs, do_place, fan_out_search, get_pos_index, is_pos_blocked,
    scan_for_necessary, solve_problem, undo_place, worker_search,
};

fn make_params(size: Vec3, blocks: Vec<Block>) -> ProblemParams {
    build_params(size, &blocks)
}

fn assert_partition(solution: &Solution, size: Vec3, expected_placements: usize) {
    let volume = size.0 * size.1 * size.2;
    assert_eq!(solution.grid.len(), volume);
    assert_eq!(solution.placed_blocks.len(), expected_placements);
    // every cell is claimed by exactly the placement its label points at
    let mut claimed = vec![0usize; volume];
    for (k, (block, pos)) in solution.placed_blocks.iter().enumerate() {
        for x in pos.0..pos.0 + block.0 {
            for y in pos.1..pos.1 + block.1 {
                for z in pos.2..pos.2 + block.2 {
                    let i = get_pos_index(&Vec3(x, y, z), &size);
                    assert_eq!(claimed[i], 0, "cell claimed twice");
                    claimed[i] = k + 1;
                }
            }
        }
    }
    for i in 0..volume {
        assert!(solution.grid[i] != 0, "cell {} left empty", i);
        assert_eq!(solution.grid[i], claimed[i], "grid label disagrees with log");
    }
}

#[test]
fn rotations_of_cube_is_single() {
    let r = Block(2, 2, 2).get_rotations();
    assert_eq!(r, vec![Block(2, 2, 2)]);
}

#[test]
fn rotations_of_two_equal_extents_are_three_cyclic() {
    let r = Block(2, 2, 3).get_rotations();
    assert_eq!(r, vec![Block(2, 2, 3), Block(2, 3, 2), Block(3, 2, 2)]);
    for i in 0..r.len() {
        for j in 0..r.len() {
            if i != j {
                assert_ne!(r[i], r[j]);
            }
        }
    }
}

#[test]
fn rotations_of_distinct_extents_are_six() {
    let r = Block(1, 2, 3).get_rotations();
    assert_eq!(r.len(), 6);
    for i in 0..r.len() {
        for j in 0..r.len() {
            if i != j {
                assert_ne!(r[i], r[j]);
            }
        }
    }
    assert_eq!(r[0], Block(1, 2, 3));
    assert_eq!(r[5], Block(3, 2, 1));
}

#[test]
fn pos_index_is_row_major_and_decodes_back() {
    let size = Vec3(4, 5, 6);
    let pos = Vec3(1, 2, 3);
    let i = get_pos_index(&pos, &size);
    assert_eq!(i, 1 + 2 * 4 + 3 * 4 * 5);
    assert_eq!(i % size.0, pos.0);
    assert_eq!((i / size.0) % size.1, pos.1);
    assert_eq!(i / (size.0 * size.1), pos.2);
    // injectivity over the whole box
    let mut seen = vec![false; 4 * 5 * 6];
    for x in 0..4 {
        for y in 0..5 {
            for z in 0..6 {
                let j = get_pos_index(&Vec3(x, y, z), &size);
                assert!(!seen[j]);
                seen[j] = true;
            }
        }
    }
}

#[test]
fn place_then_undo_restores_state_exactly() {
    let size = Vec3(2, 2, 1);
    let mut grid = vec![0usize; 4];
    let mut count: usize = 0;
    let mut log: Vec<(Block, Vec3)> = Vec::new();
    do_place(&mut grid, &Vec3(1, 1, 0), &Block(1, 1, 1), &size, &mut count, &mut log);
    let grid_before = grid.clone();
    let count_before = count;
    let log_before = log.clone();
    do_place(&mut grid, &Vec3(0, 0, 0), &Block(2, 1, 1), &size, &mut count, &mut log);
    assert_ne!(grid, grid_before);
    undo_place(&mut grid, &Vec3(0, 0, 0), &Block(2, 1, 1), &size, &mut count, &mut log);
    assert_eq!(grid, grid_before);
    assert_eq!(count, count_before);
    assert_eq!(log, log_before);
}

#[test]
fn blocked_by_bounds_and_by_occupancy() {
    let size = Vec3(2, 2, 1);
    let mut grid = vec![0usize; 4];
    let mut count: usize = 0;
    let mut log: Vec<(Block, Vec3)> = Vec::new();
    do_place(&mut grid, &Vec3(1, 1, 0), &Block(1, 1, 1), &size, &mut count, &mut log);
    // overlaps the placed cell
    assert!(is_pos_blocked(&grid, &Vec3(1, 1, 0), &Block(1, 1, 1), &size));
    // sticks out of the container
    assert!(is_pos_blocked(&grid, &Vec3(1, 0, 0), &Block(2, 1, 1), &size));
    // fits in a free row
    assert!(!is_pos_blocked(&grid, &Vec3(0, 0, 0), &Block(2, 1, 1), &size));
}

#[test]
fn frontier_scan_walks_x_then_y_then_z() {
    let size = Vec3(2, 2, 2);
    let mut grid = vec![0usize; 8];
    assert_eq!(scan_for_necessary(&grid, &size), Some(Vec3(0, 0, 0)));
    let mut count: usize = 0;
    let mut log: Vec<(Block, Vec3)> = Vec::new();
    do_place(&mut grid, &Vec3(0, 0, 0), &Block(1, 1, 1), &size, &mut count, &mut log);
    // (0,0,1) has its z-predecessor filled; (0,1,0) comes later in scan order
    assert_eq!(scan_for_necessary(&grid, &size), Some(Vec3(0, 0, 1)));
    do_place(&mut grid, &Vec3(0, 0, 1), &Block(1, 1, 1), &size, &mut count, &mut log);
    assert_eq!(scan_for_necessary(&grid, &size), Some(Vec3(0, 1, 0)));
}

#[test]
fn frontier_scan_of_full_grid_is_none() {
    let size = Vec3(1, 1, 2);
    let mut grid = vec![0usize; 2];
    let mut count: usize = 0;
    let mut log: Vec<(Block, Vec3)> = Vec::new();
    do_place(&mut grid, &Vec3(0, 0, 0), &Block(1, 1, 2), &size, &mut count, &mut log);
    assert_eq!(scan_for_necessary(&grid, &size), None);
}

#[test]
fn check_volumes_accepts_exact_and_rejects_off_by_one() {
    let size = Vec3(2, 2, 1);
    let blocks = vec![Block(1, 1, 1)];
    assert!(check_volumes(&size, &blocks, &vec![3]));
    assert!(!check_volumes(&size, &blocks, &vec![2]));
    assert!(!check_volumes(&size, &blocks, &vec![4]));
}

#[test]
fn from_vec_accepts_exactly_three_entries() {
    assert_eq!(Vec3::from_vec(&vec![1, 2, 3]), Ok(Vec3(1, 2, 3)));
    assert!(Vec3::from_vec(&vec![1, 2]).is_err());
    assert_eq!(Block::from_vec(&vec![4, 5, 6]), Ok(Block(4, 5, 6)));
    assert!(Block::from_vec(&vec![4, 5, 6, 7]).is_err());
}

#[test]
fn three_unit_blocks_fill_two_by_two_by_one() {
    let mut params = make_params(Vec3(2, 2, 1), vec![Block(1, 1, 1); 3]);
    let solution = solve_problem(&mut params, false).expect("a solution exists");
    assert_eq!(solution.placed_blocks[0], (Block(1, 1, 1), Vec3(1, 1, 0)));
    assert_partition(&solution, Vec3(2, 2, 1), 4);
}

#[test]
fn seed_alone_fills_unit_container() {
    let mut params = make_params(Vec3(1, 1, 1), vec![]);
    let solution = solve_problem(&mut params, false).expect("a solution exists");
    assert_eq!(solution.placed_blocks, vec![(Block(1, 1, 1), Vec3(0, 0, 0))]);
    assert_eq!(solution.grid, vec![1]);
}

#[test]
fn volume_mismatch_is_rejected_fast() {
    // volume 8, seed 1, declared blocks total 2: no placement is attempted
    let mut params = make_params(Vec3(2, 2, 2), vec![Block(1, 1, 1); 2]);
    assert!(solve_problem(&mut params, false).is_none());
    assert!(solve_problem(&mut params, true).is_none());
}

#[test]
fn sequential_engine_is_deterministic() {
    let blocks = vec![Block(1, 1, 1), Block(1, 1, 1), Block(2, 1, 1), Block(1, 1, 1)];
    let mut params_a = make_params(Vec3(2, 2, 2), blocks.clone());
    let mut params_b = make_params(Vec3(2, 2, 2), blocks);
    // volume: 1 + 3 + 2 = 6 != 8 -> pad to match: use a 2x3x1 container instead
    let mut params_c = make_params(Vec3(2, 3, 1), vec![Block(1, 1, 1); 5]);
    let mut params_d = make_params(Vec3(2, 3, 1), vec![Block(1, 1, 1); 5]);
    let a = solve_problem(&mut params_a, false);
    let b = solve_problem(&mut params_b, false);
    match (a, b) {
        (None, None) => {}
        (Some(sa), Some(sb)) => {
            assert_eq!(sa.grid, sb.grid);
            assert_eq!(sa.placed_blocks, sb.placed_blocks);
        }
        _ => panic!("two runs disagreed"),
    }
    let c = solve_problem(&mut params_c, false).expect("a solution exists");
    let d = solve_problem(&mut params_d, false).expect("a solution exists");
    assert_eq!(c.grid, d.grid);
    assert_eq!(c.placed_blocks, d.placed_blocks);
}

#[test]
fn fan_out_and_sequential_agree_on_existence() {
    // solvable: 2x2x1 with three unit blocks
    let mut seq_params = make_params(Vec3(2, 2, 1), vec![Block(1, 1, 1); 3]);
    let mut fan_params = make_params(Vec3(2, 2, 1), vec![Block(1, 1, 1); 3]);
    let seq = solve_problem(&mut seq_params, false);
    let fan = solve_problem(&mut fan_params, true);
    assert!(seq.is_some());
    assert!(fan.is_some());
    assert_partition(&fan.unwrap(), Vec3(2, 2, 1), 4);

    // volume matches but nothing fits around the central seed
    let mut seq_params = make_params(Vec3(3, 1, 1), vec![Block(2, 1, 1)]);
    let mut fan_params = make_params(Vec3(3, 1, 1), vec![Block(2, 1, 1)]);
    assert!(solve_problem(&mut seq_params, false).is_none());
    assert!(solve_problem(&mut fan_params, true).is_none());

    // a mixed catalog that fills 2x2x2 around the seed at (1,1,1)
    let blocks = vec![Block(1, 1, 1); 7];
    let mut seq_params = make_params(Vec3(2, 2, 2), blocks.clone());
    let mut fan_params = make_params(Vec3(2, 2, 2), blocks);
    let seq = solve_problem(&mut seq_params, false).expect("a solution exists");
    let fan = solve_problem(&mut fan_params, true).expect("a solution exists");
    assert_partition(&seq, Vec3(2, 2, 2), 8);
    assert_partition(&fan, Vec3(2, 2, 2), 8);
}

#[test]
fn engines_called_directly_restore_state_on_failure() {
    let size = Vec3(3, 1, 1);
    let params = make_params(size, vec![Block(2, 1, 1)]);
    let mut grid = vec![0usize; 3];
    let mut count: usize = 0;
    let mut log: Vec<(Block, Vec3)> = Vec::new();
    do_place(&mut grid, &Vec3(1, 0, 0), &Block(1, 1, 1), &size, &mut count, &mut log);
    let mut counter = params.block_counter.clone();
    let grid_before = grid.clone();
    let counter_before = counter.clone();
    let found = dfs(
        &mut grid, &size, &mut counter, &mut count, params.block_count,
        &params.unique_blocks, &params.block_rotations, &mut log,
    );
    assert!(!found);
    assert_eq!(grid, grid_before);
    assert_eq!(counter, counter_before);
    assert_eq!(count, 1);
    assert_eq!(log.len(), 1);
    let found = worker_search(
        &mut grid, &size, &mut counter, &mut count, params.block_count,
        &params.unique_blocks, &params.block_rotations, &mut log, 0,
    );
    assert!(!found);
    assert_eq!(grid, grid_before);
    assert_eq!(counter, counter_before);
    let found = fan_out_search(
        &mut grid, &size, &mut counter, &mut count, params.block_count,
        &params.unique_blocks, &params.block_rotations, &mut log,
    );
    assert!(!found);
    assert_eq!(grid, grid_before);
    assert_eq!(counter, counter_before);
}

#[test]
fn solution_uses_the_declared_blocks() {
    let declared = vec![Block(2, 1, 1); 4];
    let mut params = make_params(Vec3(3, 3, 1), declared.clone());
    let solution = solve_problem(&mut params, false).expect("a solution exists");
    // canonicalize each placed block (after the seed) by sorting its extents
    let mut placed: Vec<(usize, usize, usize)> = solution.placed_blocks[1..]
        .iter()
        .map(|(b, _)| {
            let mut e = [b.0, b.1, b.2];
            e.sort();
            (e[0], e[1], e[2])
        })
        .collect();
    placed.sort();
    let mut wanted: Vec<(usize, usize, usize)> = declared
        .iter()
        .map(|b| {
            let mut e = [b.0, b.1, b.2];
            e.sort();
            (e[0], e[1], e[2])
        })
        .collect();
    wanted.sort();
    assert_eq!(placed, wanted);
}

#[test]
fn catalog_canonicalizes_and_orders_shapes() {
    // permutations of one shape merge into a single canonical entry
    let params = build_params(Vec3(4, 4, 4), &vec![Block(1, 2, 3), Block(3, 2, 1), Block(2, 3, 1)]);
    assert_eq!(params.unique_blocks, vec![Block(3, 2, 1)]);
    assert_eq!(params.block_counter, vec![3]);
    assert_eq!(params.block_count, 3);
    assert_eq!(params.block_rotations[0].len(), 6);
    // distinct shapes are ordered descending, largest first
    let params = build_params(
        Vec3(4, 4, 4),
        &vec![Block(1, 1, 1), Block(2, 2, 2), Block(1, 1, 2), Block(2, 2, 2)],
    );
    assert_eq!(params.unique_blocks, vec![Block(2, 2, 2), Block(2, 1, 1), Block(1, 1, 1)]);
    assert_eq!(params.block_counter, vec![2, 1, 1]);
}

#[test]
fn permuted_block_triples_solve_like_canonical_ones() {
    // the same instance declared with unsorted extents: (1,1,2) written as (2,1,1)
    let mut params = make_params(Vec3(3, 1, 1), vec![Block(1, 1, 2)]);
    assert!(solve_problem(&mut params, false).is_none());
    let mut params = make_params(Vec3(2, 2, 1), vec![Block(1, 1, 1), Block(1, 2, 1)]);
    let solution = solve_problem(&mut params, false).expect("a solution exists");
    assert_partition(&solution, Vec3(2, 2, 1), 3);
}

#[test]
fn bigger_mixed_instance_solves_and_partitions() {
    // 3x3x1 container, volume 9: the seed sits at (1,1,0) and four dominoes
    // tile the ring around it
    let blocks = vec![Block(2, 1, 1); 4];
    let mut params = make_params(Vec3(3, 3, 1), blocks);
    let solution = solve_problem(&mut params, false).expect("a solution exists");
    assert_eq!(solution.placed_blocks[0], (Block(1, 1, 1), Vec3(1, 1, 0)));
    assert_partition(&solution, Vec3(3, 3, 1), 5);
}
