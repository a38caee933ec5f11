//! End-to-end scenarios run on every engine.

use lifeplane::engine::{create_engine, Engine, EngineMode};

fn all_modes() -> Vec<EngineMode> {
    vec![EngineMode::ArenaLife, EngineMode::SparseLife, EngineMode::HashLife]
}

fn sorted(mut v: Vec<(i64, i64)>) -> Vec<(i64, i64)> {
    v.sort();
    v
}

fn seeded(mode: EngineMode, cells: &[(i64, i64)]) -> Engine {
    let mut e = create_engine(mode);
    e.import(&cells.to_vec());
    e
}

#[test]
fn blinker_oscillates() {
    for mode in all_modes() {
        let mut e = seeded(mode, &[(-1, 0), (0, 0), (1, 0)]);
        assert_eq!(e.population(), 3);
        e.step(1);
        assert_eq!(sorted(e.export()), vec![(0, -1), (0, 0), (0, 1)]);
        assert_eq!(e.population(), 3);
        e.step(1);
        assert_eq!(sorted(e.export()), vec![(-1, 0), (0, 0), (1, 0)]);
        assert_eq!(e.population(), 3);
    }
}

#[test]
fn block_is_still() {
    let seed = vec![(0, 0), (1, 0), (0, 1), (1, 1)];
    for mode in all_modes() {
        let mut e = seeded(mode, &seed);
        for _ in 0..100 {
            e.step(1);
            assert_eq!(sorted(e.export()), sorted(seed.clone()));
        }
        let mut e2 = seeded(mode, &seed);
        e2.step(1000);
        assert_eq!(sorted(e2.export()), sorted(seed.clone()));
    }
}

#[test]
fn glider_translates() {
    let seed = vec![(0, 0), (1, 0), (2, 0), (2, 1), (1, 2)];
    for mode in all_modes() {
        let mut e = seeded(mode, &seed);
        e.step(4);
        let after4 = sorted(e.export());
        // This seed's glider drifts one cell toward +x and one toward -y
        // every four generations (y grows southward in world terms); the
        // tests pin that orientation.
        let dx = after4[0].0 - sorted(seed.clone())[0].0;
        let dy = after4[0].1 - sorted(seed.clone())[0].1;
        assert_eq!(dx, 1);
        assert_eq!(dy, -1);
        let translated: Vec<(i64, i64)> =
            sorted(seed.clone()).iter().map(|&(x, y)| (x + dx, y + dy)).collect();
        assert_eq!(after4, sorted(translated));
        let mut e40 = seeded(mode, &seed);
        e40.step(40);
        let expect10: Vec<(i64, i64)> =
            sorted(seed.clone()).iter().map(|&(x, y)| (x + 10 * dx, y + 10 * dy)).collect();
        assert_eq!(sorted(e40.export()), sorted(expect10));
        let mut e300 = seeded(mode, &seed);
        e300.step(300);
        let expect75: Vec<(i64, i64)> =
            sorted(seed.clone()).iter().map(|&(x, y)| (x + 75 * dx, y + 75 * dy)).collect();
        assert_eq!(sorted(e300.export()), sorted(expect75));
    }
}

#[test]
fn r_pentomino_trace_matches_across_engines() {
    let seed = vec![(0, 0), (1, 0), (-1, 1), (0, 1), (0, 2)];
    let checkpoints = [1u64, 1, 8, 90, 1003];
    let mut engines: Vec<Engine> = all_modes().into_iter().map(|m| seeded(m, &seed)).collect();
    for n in checkpoints {
        let mut exports: Vec<Vec<(i64, i64)>> = Vec::new();
        for e in engines.iter_mut() {
            e.step(n);
            exports.push(sorted(e.export()));
        }
        assert_eq!(exports[0], exports[1]);
        assert_eq!(exports[1], exports[2]);
    }
    // 1103 generations in total: the well-known stabilisation point.
    for e in engines.iter_mut() {
        assert_eq!(e.generation(), 1103);
        assert_eq!(e.population(), 116);
    }
}

#[test]
fn hexadecagon_batched_set_matches_single_sets() {
    let seed = vec![
        (-4, 0),
        (-4, -1),
        (-3, -2),
        (-2, -3),
        (-1, -4),
        (0, -4),
        (1, -3),
        (2, -2),
        (3, -1),
        (3, 0),
        (2, 1),
        (1, 2),
        (0, 3),
        (-1, 3),
        (-2, 2),
        (-3, 1),
    ];
    for mode in all_modes() {
        let mut batched = create_engine(mode);
        batched.set_cells(&seed, true);
        batched.step(1);
        let mut single = create_engine(mode);
        for &(x, y) in &seed {
            single.set_cell(x, y, true);
        }
        single.step(1);
        assert_eq!(sorted(batched.export()), sorted(single.export()));
    }
}

#[test]
fn import_export_round_trip() {
    let seed = vec![(5, 7), (-3, 2), (100, -250), (0, 0)];
    for mode in all_modes() {
        let mut e = create_engine(mode);
        e.clear();
        e.import(&seed);
        assert_eq!(sorted(e.export()), sorted(seed.clone()));
        let reread = e.export();
        e.import(&reread);
        assert_eq!(sorted(e.export()), sorted(seed.clone()));
    }
}

#[test]
fn set_cell_twice_equals_once() {
    for mode in all_modes() {
        let mut once = create_engine(mode);
        once.set_cell(3, 4, true);
        let mut twice = create_engine(mode);
        twice.set_cell(3, 4, true);
        twice.set_cell(3, 4, true);
        assert_eq!(sorted(once.export()), sorted(twice.export()));
        once.set_cell(3, 4, false);
        twice.set_cell(3, 4, false);
        twice.set_cell(3, 4, false);
        assert_eq!(sorted(once.export()), sorted(twice.export()));
        assert_eq!(once.export().len(), 0);
    }
}

#[test]
fn population_matches_export_length() {
    let seed = vec![(0, 0), (1, 0), (2, 0), (2, 1), (1, 2), (40, 40), (-100, 3)];
    for mode in all_modes() {
        let mut e = seeded(mode, &seed);
        assert_eq!(e.population(), e.export().len() as u64);
        e.step(3);
        assert_eq!(e.population(), e.export().len() as u64);
    }
}

#[test]
fn step_counts_generations() {
    for mode in all_modes() {
        let mut e = seeded(mode, &[(0, 0), (1, 0), (0, 1), (1, 1)]);
        assert_eq!(e.generation(), 0);
        assert_eq!(e.step(1), 1);
        assert_eq!(e.generation(), 1);
        assert_eq!(e.step(7), 7);
        assert_eq!(e.generation(), 8);
        assert_eq!(e.step(0), 0);
        assert_eq!(e.generation(), 8);
    }
}

#[test]
fn get_cell_reads_the_live_set() {
    for mode in all_modes() {
        let mut e = create_engine(mode);
        e.set_cell(-1, 0, true);
        assert!(e.get_cell(-1, 0));
        assert!(!e.get_cell(0, 0));
        assert!(!e.get_cell(-1, 1));
        e.set_cell(-1, 0, false);
        assert!(!e.get_cell(-1, 0));
    }
}

#[test]
fn clone_preserves_cells() {
    for mode in all_modes() {
        let e = seeded(mode, &[(2, 3), (-5, 8), (0, 0)]);
        let c = e.box_clone();
        assert_eq!(sorted(e.export()), sorted(c.export()));
        assert_eq!(c.name(), e.name());
        assert_eq!(c.id(), e.id());
    }
}

#[test]
fn engines_name_themselves() {
    let names: Vec<&str> = all_modes().iter().map(|&m| create_engine(m).name()).collect();
    assert_eq!(names, vec!["ArenaLife", "SparseLife", "Hashlife"]);
}

#[test]
fn far_coordinate_is_dropped_by_the_quadtree_engine() {
    // Bounded expansion covers a few million cells around the origin;
    // a write far beyond that is dropped rather than misplaced.
    let mut e = create_engine(EngineMode::HashLife);
    e.set_cell(100_000_000, 0, true);
    assert!(!e.get_cell(100_000_000, 0));
    assert_eq!(e.population(), 0);
    e.set_cell(2_000_000, -2_000_000, true);
    assert!(e.get_cell(2_000_000, -2_000_000));
    assert_eq!(e.population(), 1);
}

#[test]
fn export_lists_each_cell_once() {
    for mode in all_modes() {
        let mut e = seeded(mode, &[(0, 0), (63, 63), (64, 64), (-1, -1), (0, 63), (63, 0)]);
        e.step(2);
        let mut out = e.export();
        out.sort();
        for w in out.windows(2) {
            assert_ne!(w[0], w[1]);
        }
    }
}

#[test]
fn block_engines_accept_the_whole_grid() {
    // The block engines store any signed 64-bit coordinate exactly.
    for mode in [EngineMode::ArenaLife, EngineMode::SparseLife] {
        let mut e = create_engine(mode);
        e.set_cell(i64::MAX, i64::MIN, true);
        e.set_cell(i64::MIN, i64::MAX, true);
        e.set_cell(0, 0, true);
        assert!(e.get_cell(i64::MAX, i64::MIN));
        assert!(e.get_cell(i64::MIN, i64::MAX));
        assert_eq!(e.population(), 3);
        let mut out = e.export();
        out.sort();
        assert_eq!(
            out,
            vec![(i64::MIN, i64::MAX), (0, 0), (i64::MAX, i64::MIN)]
        );
        e.set_cell(i64::MAX, i64::MIN, false);
        assert!(!e.get_cell(i64::MAX, i64::MIN));
        assert_eq!(e.population(), 2);
    }
}

#[test]
fn far_regions_step_like_near_ones() {
    // A still life a trillion cells out behaves like one at the origin
    // on the block engines.
    let far: i64 = 1 << 40;
    let seed = vec![(far, far), (far + 1, far), (far, far + 1), (far + 1, far + 1)];
    for mode in [EngineMode::ArenaLife, EngineMode::SparseLife] {
        let mut e = seeded(mode, &seed);
        e.step(5);
        assert_eq!(sorted(e.export()), sorted(seed.clone()));
        assert_eq!(e.population(), 4);
    }
    // A blinker spanning a tile seam far out still oscillates.
    let blink = vec![(far - 1, -far), (far, -far), (far + 1, -far)];
    for mode in [EngineMode::ArenaLife, EngineMode::SparseLife] {
        let mut e = seeded(mode, &blink);
        e.step(1);
        assert_eq!(
            sorted(e.export()),
            vec![(far, -far - 1), (far, -far), (far, -far + 1)]
        );
        e.step(1);
        assert_eq!(sorted(e.export()), sorted(blink.clone()));
    }
}
