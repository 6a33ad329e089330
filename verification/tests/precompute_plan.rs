//! The plan of a precompute run.

use wizgto_solver::cache::{entry_is_for, CACHE_FORMAT_VERSION};
use wizgto_solver::flops::canonical_flops_by_weight;
use wizgto_solver::keys::{lookup_prefix, spr_of_name};
use wizgto_solver::precompute::{
    board_for_solve, check_chunk, plan_line, solved_entry, takes_line, PlanRun, PrecomputeLine,
    RunStep,
};

fn line() -> PrecomputeLine {
    PrecomputeLine {
        label: "button against big blind".to_string(),
        oop_range: "AA".to_string(),
        ip_range: "KK".to_string(),
        spr: "4.5".to_string(),
        flops: None,
        flop_list: None,
    }
}

fn five() -> Vec<([u8; 3], u32)> {
    vec![
        ([48, 45, 42], 24),
        ([48, 45, 38], 24),
        ([48, 45, 34], 24),
        ([48, 44, 41], 12),
        ([2, 1, 0], 4),
    ]
}

fn planned(line: &PrecomputeLine, chunk: Option<(usize, usize)>) -> Vec<[u8; 3]> {
    match plan_line(line, &five(), chunk) {
        Ok(plan) => plan.iter().map(|p| p.flop).collect(),
        Err(e) => panic!("{e}"),
    }
}

#[test]
fn a_line_takes_the_most_frequent_flops() {
    let all: Vec<[u8; 3]> = five().iter().map(|(f, _)| *f).collect();
    assert_eq!(planned(&line(), None), all);
    assert_eq!(planned(&PrecomputeLine { flops: Some(2), ..line() }, None), all[..2].to_vec());
    assert_eq!(planned(&PrecomputeLine { flops: Some(9), ..line() }, None), all);
    assert!(planned(&PrecomputeLine { flops: Some(0), ..line() }, None).is_empty());
}

#[test]
fn planned_flops_have_the_names_of_their_entries() {
    let plan = plan_line(&line(), &five(), None).unwrap_or_else(|e| panic!("{e}"));
    assert_eq!(plan[0].name, "fe8dca3eb3708a7f-AcKdQh-spr4.5.json");
    assert_eq!(plan[4].name, "fe8dca3eb3708a7f-2h2d2c-spr4.5.json");
}

#[test]
fn a_flop_list_is_canonicalized_and_comes_first() {
    let listed = PrecomputeLine {
        flops: Some(1),
        flop_list: Some(vec![Ok([16, 30, 33]), Ok([3, 47, 51])]),
        ..line()
    };
    assert_eq!(planned(&listed, None), vec![[32, 29, 18], [48, 44, 0]]);
    let none = PrecomputeLine { flop_list: Some(Vec::new()), ..line() };
    assert!(planned(&none, None).is_empty());
}

#[test]
fn an_unreadable_flop_fails_the_line() {
    let listed = PrecomputeLine {
        flop_list: Some(vec![Ok([16, 30, 33]), Err("x".to_string()), Err("y".to_string())]),
        ..line()
    };
    let e = plan_line(&listed, &five(), None).err();
    assert_eq!(e.as_deref(), Some("bad flopList entry: x"));
}

#[test]
fn chunks_are_interleaved() {
    let all: Vec<[u8; 3]> = five().iter().map(|(f, _)| *f).collect();
    assert_eq!(planned(&line(), Some((0, 2))), vec![all[0], all[2], all[4]]);
    assert_eq!(planned(&line(), Some((1, 2))), vec![all[1], all[3]]);
    assert_eq!(planned(&line(), Some((0, 1))), all);
    assert_eq!(planned(&line(), Some((4, 7))), vec![all[4]]);
    assert!(planned(&line(), Some((6, 7))).is_empty());
    assert_eq!(planned(&line(), Some((1, usize::MAX))), vec![all[1]]);
}

#[test]
fn the_chunks_of_a_run_cover_its_flops_once() {
    let all = canonical_flops_by_weight();
    let mut seen = vec![0u32; all.len()];
    for i in 0..7 {
        let plan = plan_line(&line(), &all, Some((i, 7))).unwrap_or_else(|e| panic!("{e}"));
        let mut last = None;
        for p in &plan {
            let n = all.iter().position(|(f, _)| *f == p.flop).unwrap();
            assert_eq!(n % 7, i);
            // Each chunk stays in order of frequency.
            assert!(last.is_none_or(|l| l < n));
            last = Some(n);
            seen[n] += 1;
        }
    }
    assert!(seen.iter().all(|n| *n == 1));
}

#[test]
fn chunks_that_do_not_exist_are_refused() {
    assert_eq!(check_chunk(None), Ok(()));
    assert_eq!(check_chunk(Some((0, 1))), Ok(()));
    assert_eq!(check_chunk(Some((2, 3))), Ok(()));
    assert_eq!(check_chunk(Some((3, 3))), Err("bad --chunk 3/3: need 0 <= i < k".to_string()));
    assert_eq!(check_chunk(Some((0, 0))), Err("bad --chunk 0/0: need 0 <= i < k".to_string()));
}

#[test]
fn a_filter_takes_one_line() {
    assert!(takes_line(None, 3));
    assert!(takes_line(Some(3), 3));
    assert!(!takes_line(Some(2), 3));
}

#[test]
fn boards_are_solved_in_ascending_order() {
    assert_eq!(board_for_solve([48, 45, 42]), [42, 45, 48]);
    assert_eq!(board_for_solve([1, 3, 2]), [1, 2, 3]);
}

#[test]
fn a_full_run_covers_every_deal() {
    let plan = plan_line(&line(), &canonical_flops_by_weight(), None);
    let plan = plan.unwrap_or_else(|e| panic!("{e}"));
    for flop in [[0, 1, 2], [0, 17, 34], [3, 47, 51], [16, 30, 33], [49, 50, 51]] {
        let prefix = lookup_prefix("AA", "KK", flop);
        let found: Vec<String> =
            plan.iter().filter_map(|p| spr_of_name(&p.name, &prefix)).collect();
        assert_eq!(found, vec!["4.5"]);
    }
}

#[test]
fn planned_names_differ() {
    let plan = plan_line(&line(), &canonical_flops_by_weight(), None);
    let mut names: Vec<String> =
        plan.unwrap_or_else(|e| panic!("{e}")).into_iter().map(|p| p.name).collect();
    names.sort();
    names.dedup();
    assert_eq!(names.len(), 1755);
}

#[test]
fn a_solved_entry_is_for_the_ranges_of_its_line() {
    let hands = |text: &str| vec![text.to_string()];
    let entry = solved_entry(&line(), [48, 45, 42], hands("AhAs"), hands("KcKh"), Vec::new());
    assert_eq!(entry.version, CACHE_FORMAT_VERSION);
    assert_eq!(entry.pot, 100);
    assert_eq!(entry.flop, "AcKdQh");
    assert_eq!(entry.oop_hands, hands("AhAs"));
    assert_eq!(entry.ip_hands, hands("KcKh"));
    assert!(entry.nodes.is_empty());
    assert!(entry_is_for(&entry, "AA", "KK"));
    assert!(!entry_is_for(&entry, "AA", "QQ"));
}

/// Works off a plan: which positions are solved and which are stored, and the
/// run at its end.
fn work_off(
    exists: &[bool],
    solves: &[bool],
    stores: &[bool],
) -> (Vec<usize>, Vec<usize>, PlanRun) {
    let mut run = PlanRun::new(exists.len());
    let (mut solved, mut stored) = (Vec::new(), Vec::new());
    loop {
        match run.next() {
            RunStep::Look(i) => run.looked(i, exists[i]),
            RunStep::Solve(i) => {
                solved.push(i);
                run.solved(i, solves[i]);
            }
            RunStep::Store(i) => {
                if stores[i] {
                    stored.push(i);
                }
                run.stored(i, stores[i]);
            }
            RunStep::Finished | RunStep::Stopped => return (solved, stored, run),
        }
    }
}

#[test]
fn a_run_skips_what_exists_and_goes_on_after_a_failed_solve() {
    let (solved, stored, run) =
        work_off(&[true, false, false, true], &[true, false, true, true], &[true; 4]);
    assert_eq!(solved, vec![1, 2]);
    assert_eq!(stored, vec![2]);
    assert!(run.next() == RunStep::Finished);
    assert_eq!((run.solved_count(), run.skipped_count()), (1, 2));
}

#[test]
fn a_run_stops_when_an_entry_cannot_be_stored() {
    let (solved, stored, run) = work_off(&[false; 4], &[true; 4], &[true, false, true, true]);
    assert_eq!(solved, vec![0, 1]);
    assert_eq!(stored, vec![0]);
    assert!(run.next() == RunStep::Stopped);
    assert_eq!((run.solved_count(), run.skipped_count()), (1, 0));
}

#[test]
fn a_complete_run_solves_nothing() {
    let (solved, stored, run) = work_off(&[true; 5], &[true; 5], &[true; 5]);
    assert!(solved.is_empty() && stored.is_empty());
    assert!(run.next() == RunStep::Finished);
    assert_eq!((run.solved_count(), run.skipped_count()), (0, 5));
    let (_, _, empty) = work_off(&[], &[], &[]);
    assert!(empty.next() == RunStep::Finished);
}

#[test]
fn a_repeated_run_solves_only_what_is_left() {
    let mut exists = [false, true, false, false];
    let (_, stored, _) = work_off(&exists, &[true, true, false, true], &[true; 4]);
    for i in stored {
        exists[i] = true;
    }
    let (solved, _, _) = work_off(&exists, &[true; 4], &[true; 4]);
    assert_eq!(solved, vec![2]);
}
