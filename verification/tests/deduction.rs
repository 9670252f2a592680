use minesweep_core::deduce::constraints::{Clue, Face};
use minesweep_core::deduce::driver::{verdict, Verdict};
use minesweep_core::{
    CellState, CellView, Cnf, Difficulty, Formula, GameOptions, GameResult, GameState, GameView,
    Literal, SatSolver, SolveResult, Variable,
};
use std::str::FromStr;

const SOLVERS: [SatSolver; 4] =
    [SatSolver::Tinysat, SatSolver::CreuSAT, SatSolver::Varisat, SatSolver::Splr];

fn board(rows: &[&str]) -> GameView {
    let mines: Vec<Vec<bool>> =
        rows.iter().map(|r| r.chars().map(|c| c == '*').collect()).collect();
    let options = GameOptions {
        difficulty: Difficulty::Custom { width: rows[0].len(), height: rows.len(), mines: 1 },
        safe_pos: None,
        seed: Some(0),
    };
    GameView::new(GameState::with_mines(options, mines).unwrap())
}

fn sorted(mut cells: Vec<(usize, usize)>) -> Vec<(usize, usize)> {
    cells.sort();
    cells
}

fn var(n: usize) -> Formula {
    Formula::Variable(Variable(n))
}

fn not(f: Formula) -> Formula {
    Formula::Negation(Box::new(f))
}

fn and(a: Formula, b: Formula) -> Formula {
    Formula::Conjunction(Box::new(a), Box::new(b))
}

fn or(a: Formula, b: Formula) -> Formula {
    Formula::Disjunction(Box::new(a), Box::new(b))
}

/// The layouts, as sets of mined cells, that fit every clue and every flag of the view and put
/// no mine under a cell that is neither intact nor a clue.
fn allowed_layouts(view: &GameView) -> Vec<Vec<Vec<bool>>> {
    let (w, h) = (view.width(), view.height());
    let around: Vec<Vec<Vec<(usize, usize)>>> =
        (0..h).map(|y| (0..w).map(|x| view.nearby_cells(x, y)).collect()).collect();
    let mut found = vec![];
    for bits in 0..(1u32 << (w * h)) {
        let mine = |x: usize, y: usize| (bits >> (y * w + x)) & 1 == 1;
        let fits = (0..h).all(|y| {
            (0..w).all(|x| match view.cell(x, y) {
                CellView::Flagged => mine(x, y),
                CellView::Opened(n) => {
                    !mine(x, y)
                        && around[y][x].iter().filter(|c| mine(c.0, c.1)).count() == n as usize
                }
                c => c.is_intact() || !mine(x, y),
            })
        });
        if fits {
            found.push((0..h).map(|y| (0..w).map(|x| mine(x, y)).collect()).collect());
        }
    }
    found
}

/// What the layouts force: the active cells that are mined in all of them, and those that are
/// mined in none.
fn forced(view: &GameView) -> (Vec<(usize, usize)>, Vec<(usize, usize)>) {
    let layouts = allowed_layouts(view);
    let active = view.active_cells();
    let mined = active.iter().copied().filter(|c| layouts.iter().all(|l| l[c.1][c.0])).collect();
    let safe = active.iter().copied().filter(|c| layouts.iter().all(|l| !l[c.1][c.0])).collect();
    (mined, safe)
}

fn check_against_layouts(view: &GameView) {
    check_solvers_against_layouts(view, &SOLVERS);
}

fn check_solvers_against_layouts(view: &GameView, solvers: &[SatSolver]) {
    let layouts = allowed_layouts(view);
    let (mined, safe) = forced(view);
    for &solver in solvers {
        let result = view.solve(solver);
        for c in &result.must_be_mine {
            assert!(layouts.iter().all(|l| l[c.1][c.0]), "{solver:?} {c:?} {view:?}");
        }
        for c in &result.must_not_mine {
            assert!(layouts.iter().all(|l| !l[c.1][c.0]), "{solver:?} {c:?} {view:?}");
        }
        assert!(result.must_be_mine.iter().all(|c| !result.must_not_mine.contains(c)));
        if !layouts.is_empty() && view.result() == GameResult::Playing {
            assert_eq!(result.must_be_mine, mined, "{solver:?} {view:?}");
            assert_eq!(result.must_not_mine, safe, "{solver:?} {view:?}");
        }
    }
}

#[test]
fn nothing_is_forced_by_three_of_eight() {
    // mines at (0,0), (0,2), (1,2); the middle cell is opened and shows 3
    let mut view = board(&["*..", "...", "**."]);
    view.left_click(1, 1);
    assert_eq!(view.cell(1, 1), CellView::Opened(3));
    assert_eq!(view.active_cells().len(), 8);
    for solver in SOLVERS {
        let result = view.solve(solver);
        assert!(result.must_be_mine.is_empty());
        assert!(result.must_not_mine.is_empty());
    }
    assert_eq!(allowed_layouts(&view).len(), 56);
    assert!(view.automation_step(SatSolver::Tinysat).is_none());
}

#[test]
fn three_of_three_are_mines() {
    // the corner shows 3 and has three cells around it
    let mut view = board(&[".*.", "**.", "..."]);
    view.left_click(0, 0);
    assert_eq!(view.cell(0, 0), CellView::Opened(3));
    for solver in SOLVERS {
        let result = view.solve(solver);
        assert_eq!(result.must_be_mine, vec![(1, 0), (0, 1), (1, 1)]);
        assert!(result.must_not_mine.is_empty());
    }
    check_against_layouts(&view);
}

#[test]
fn one_intact_cell_next_to_a_zero_is_safe() {
    let mut view = board(&["..*"]);
    view.set_cell(0, 0, CellView::Opened(0));
    assert_eq!(view.active_cells(), vec![(1, 0)]);
    for solver in SOLVERS {
        let result = view.solve(solver);
        assert_eq!(result.must_not_mine, vec![(1, 0)]);
        assert!(result.must_be_mine.is_empty());
    }
}

#[test]
fn flags_count_towards_the_clue() {
    let mut view = board(&["*.*", "...", "..."]);
    view.left_click(1, 1);
    view.left_click(1, 0);
    assert_eq!(view.cell(1, 0), CellView::Opened(2));
    assert_eq!(view.cell(1, 1), CellView::Opened(2));
    // both mines lie in the upper two rows, so the lower row is safe
    let result = view.solve(SatSolver::Tinysat);
    assert_eq!(result.must_be_mine, vec![]);
    assert_eq!(result.must_not_mine, vec![(0, 2), (1, 2), (2, 2)]);
    check_against_layouts(&view);
    // the corner shows 3; with one flag set, two mines are left for two cells
    let mut view = board(&[".*.", "**.", "..."]);
    view.left_click(0, 0);
    view.right_click(1, 0);
    assert_eq!(view.nearby_flags(0, 0), 1);
    assert_eq!(view.nearby_flags(2, 2), 0);
    for solver in SOLVERS {
        let result = view.solve(solver);
        assert_eq!(result.must_be_mine, vec![(0, 1), (1, 1)]);
        assert_eq!(result.must_not_mine, vec![]);
    }
    check_against_layouts(&view);
}

#[test]
fn inconsistent_flags_settle_nothing() {
    let mut view = board(&["*..", "...", "..."]);
    view.left_click(1, 1);
    view.right_click(0, 0);
    view.right_click(1, 0);
    assert!(matches!(view.constraint_cell(1, 1), Clue::Inconsistent));
    assert!(view.constraints().is_none());
    assert!(view.encoding().is_none());
    for solver in SOLVERS {
        assert!(view.solve(solver).is_empty());
    }
    // more mines are shown than the cells around can hold
    let mut view = board(&["..*"]);
    view.set_cell(0, 0, CellView::Opened(2));
    assert!(matches!(view.constraint_cell(0, 0), Clue::Inconsistent));
    assert!(view.solve(SatSolver::Tinysat).is_empty());
}

#[test]
fn a_game_that_has_ended_settles_nothing() {
    let mut view = board(&[".*.", "**.", "..."]);
    view.left_click(0, 0);
    assert!(!view.solve(SatSolver::Tinysat).is_empty());
    view.left_click(1, 1);
    assert_eq!(view.result, GameResult::Lose);
    for solver in SOLVERS {
        assert!(view.solve(solver).is_empty());
    }
    assert!(view.automation_step(SatSolver::Tinysat).is_none());
    let mut view = board(&["*.", ".."]);
    view.left_click(1, 1);
    view.left_click(1, 0);
    view.left_click(0, 1);
    assert_eq!(view.result, GameResult::Win);
    assert!(view.solve(SatSolver::Tinysat).is_empty());
    let untouched = board(&["*..", "...", "..."]);
    assert!(untouched.solve(SatSolver::Tinysat).is_empty());
    assert!(untouched.active_cells().is_empty());
}

#[test]
fn solving_twice_gives_the_same() {
    let mut view = GameView::new(
        GameOptions {
            difficulty: Difficulty::Custom { width: 9, height: 9, mines: 10 },
            safe_pos: Some((4, 4)),
            seed: Some(11),
        }
        .build(),
    );
    view.left_click(4, 4);
    for solver in SOLVERS {
        let first = view.solve(solver);
        let second = view.solve(solver);
        assert_eq!(first.must_be_mine, second.must_be_mine);
        assert_eq!(first.must_not_mine, second.must_not_mine);
        let reference = view.solve(SatSolver::Tinysat);
        assert_eq!(first.must_be_mine, reference.must_be_mine);
        assert_eq!(first.must_not_mine, reference.must_not_mine);
    }
}

#[test]
fn deduction_agrees_with_all_layouts() {
    for seed in 0..6 {
        for (w, h, mines) in [(3, 3, 2), (4, 3, 3), (2, 5, 2), (3, 4, 4)] {
            let options = GameOptions {
                difficulty: Difficulty::Custom { width: w, height: h, mines },
                safe_pos: Some((seed as usize % w, seed as usize % h)),
                seed: Some(seed),
            };
            let quick = [SatSolver::Tinysat, SatSolver::CreuSAT, SatSolver::Varisat];
            let mut view = GameView::new(options.build());
            view.left_click(seed as usize % w, seed as usize % h);
            check_solvers_against_layouts(&view, &quick);
            if let Some(&(x, y)) = view.solve(SatSolver::Tinysat).must_be_mine.first() {
                view.right_click(x, y);
                check_solvers_against_layouts(&view, &quick);
            }
            if let Some(&(x, y)) = view.solve(SatSolver::Tinysat).must_not_mine.first() {
                view.left_click(x, y);
                check_solvers_against_layouts(&view, &quick);
            }
        }
    }
}

#[test]
fn splr_agrees_with_all_layouts() {
    for seed in [2, 5] {
        let options = GameOptions {
            difficulty: Difficulty::Custom { width: 4, height: 3, mines: 3 },
            safe_pos: Some((0, 0)),
            seed: Some(seed),
        };
        let mut view = GameView::new(options.build());
        view.left_click(0, 0);
        check_solvers_against_layouts(&view, &[SatSolver::Splr]);
    }
}

#[test]
fn a_question_mark_is_read_as_safe() {
    let mut view = board(&["**.", "...", "..."]);
    view.left_click(1, 1);
    view.right_click(0, 0);
    view.right_click(0, 0);
    assert_eq!(view.cell(0, 0), CellView::Questioned);
    // two mines are left for seven cells: nothing is forced, and the marked cell is no candidate
    let result = view.solve(SatSolver::Tinysat);
    assert!(result.is_empty());
    assert!(!view.active_cells().contains(&(0, 0)));
    check_against_layouts(&view);
}

#[test]
fn automation_converges() {
    let mut view = GameView::new(
        GameOptions {
            difficulty: Difficulty::Custom { width: 5, height: 5, mines: 2 },
            safe_pos: None,
            seed: Some(4),
        }
        .build(),
    );
    view.left_click(0, 0);
    assert_eq!(view.result, GameResult::Playing);
    assert!(!view.solve(SatSolver::Tinysat).is_empty());
    let mut steps = 0;
    while let Some(redraw) = view.automation_step(SatSolver::Tinysat) {
        let unique = sorted(redraw.0.clone());
        let mut deduped = unique.clone();
        deduped.dedup();
        assert_eq!(unique, deduped);
        steps += 1;
        assert!(steps < 30);
    }
    assert!(view.result == GameResult::Win || view.solve(SatSolver::Tinysat).is_empty());
    assert_ne!(view.result, GameResult::Lose);
}

#[test]
fn what_is_settled_is_true_of_the_board() {
    for (options, solver) in [
        (GameOptions::easy(), SatSolver::Tinysat),
        (GameOptions::medium(), SatSolver::Tinysat),
        (GameOptions::hard(), SatSolver::Tinysat),
        (GameOptions::medium(), SatSolver::Varisat),
    ] {
        let mut options = options;
        options.seed = Some(2024);
        options.safe_pos = Some((4, 4));
        let mut view = GameView::new(options.build());
        view.left_click(4, 4);
        for _ in 0..200 {
            let found = view.solve(solver);
            for &(x, y) in &found.must_be_mine {
                assert!(view.state().is_mine(x, y));
            }
            for &(x, y) in &found.must_not_mine {
                assert!(!view.state().is_mine(x, y));
            }
            if view.automation_step(solver).is_none() {
                assert!(found.is_empty());
                break;
            }
            assert!(!found.is_empty());
            for (x, y) in found.must_be_mine {
                assert_eq!(view.state().cell(x, y), minesweep_core::CellState::Flagged);
            }
            for (x, y) in found.must_not_mine {
                assert_eq!(view.state().cell(x, y), minesweep_core::CellState::Opened);
            }
            assert_ne!(view.result, GameResult::Lose);
        }
        assert!(view.result == GameResult::Win || view.solve(solver).is_empty());
    }
}

#[test]
fn automation_flags_and_opens() {
    let mut view = board(&[".*.", "**.", "..."]);
    view.left_click(0, 0);
    let redraw = view.automation_step(SatSolver::Varisat).unwrap();
    assert_eq!(view.cell(1, 0), CellView::Flagged);
    assert_eq!(view.cell(0, 1), CellView::Flagged);
    assert_eq!(view.cell(1, 1), CellView::Flagged);
    assert_eq!(view.flags, 3);
    assert_eq!(sorted(redraw.0), vec![(0, 1), (1, 0), (1, 1)]);
}

#[test]
fn formula_of_a_small_board() {
    // a row of three: the middle cell is opened and shows 1
    let mut view = board(&["*.."]);
    view.set_cell(1, 0, CellView::Opened(1));
    assert_eq!(view.mine_var(2, 0), Variable(2));
    assert_eq!(view.select_around(1, 0, Face::Intact), vec![(0, 0), (2, 0)]);
    assert!(view.shows(1, 0, Face::Clue));
    let expected = and(or(and(var(0), not(var(2))), and(not(var(0)), var(2))), not(var(1)));
    assert_eq!(format!("{:?}", view.constraints()), format!("{:?}", Some(expected)));
    assert!(matches!(view.constraint_cell(0, 0), Clue::Nothing));
    // with a flag on the left nothing is missing, and the flag itself touches no intact cell
    view.set_cell(0, 0, CellView::Flagged);
    let expected = and(not(var(2)), not(var(1)));
    assert_eq!(format!("{:?}", view.constraints()), format!("{:?}", Some(expected)));
    assert!(matches!(view.constraint_cell(0, 0), Clue::Nothing));
    // a flag next to an intact cell says that it is a mine
    let mut view = board(&["*..", "..."]);
    view.set_cell(0, 0, CellView::Flagged);
    let expected = var(0);
    assert_eq!(format!("{:?}", view.constraints()), format!("{:?}", Some(expected)));
    assert_eq!(view.active_cells(), vec![(1, 0), (0, 1), (1, 1)]);
    assert!(view.solve(SatSolver::Tinysat).is_empty());
}

#[test]
fn selections_come_in_the_order_of_their_places() {
    // the middle of a three by three board shows 2, and four cells around it are intact
    let mut view = board(&["*..", "...", "..*"]);
    for (x, y) in [(1, 0), (0, 1), (2, 1), (1, 2)] {
        view.set_cell(x, y, CellView::Questioned);
    }
    view.set_cell(1, 1, CellView::Opened(2));
    let term = |mined: [bool; 4]| {
        let lit = |v: usize, m: bool| if m { var(v) } else { not(var(v)) };
        and(and(and(lit(0, mined[0]), lit(2, mined[1])), lit(6, mined[2])), lit(8, mined[3]))
    };
    let t = true;
    let f = false;
    let count = [[t, t, f, f], [t, f, t, f], [t, f, f, t], [f, t, t, f], [f, t, f, t], [f, f, t, t]]
        .into_iter()
        .map(term)
        .reduce(or)
        .unwrap();
    let expected = and(count, not(var(4)));
    assert_eq!(format!("{:?}", view.constraints()), format!("{:?}", Some(expected)));
}

#[test]
fn encoding_starts_its_fresh_variables_at_65536() {
    let mut view = board(&["*.."]);
    view.set_cell(1, 0, CellView::Opened(1));
    let cnf = view.encoding().unwrap();
    let fresh: Vec<usize> = cnf
        .0
        .iter()
        .flat_map(|c| c.0.iter().map(|l| l.variable.0))
        .filter(|v| *v >= 3)
        .collect();
    assert_eq!(fresh.iter().min(), Some(&0x10000));
    assert_eq!(fresh.iter().max(), Some(&0x10003));
    assert_eq!(cnf.0[0].0, vec![Literal::positive(Variable(0x10000))]);
}

#[test]
fn backends_agree_on_unsatisfiability() {
    let p = |n| Literal::positive(Variable(n));
    let n = |v| Literal::negative(Variable(v));
    let clauses = |cs: Vec<Vec<Literal>>| Cnf(cs.into_iter().map(minesweep_core::Clause).collect());
    let constraints = clauses(vec![vec![p(10), p(700)], vec![n(10), p(700)], vec![n(700), p(3)]]);
    for solver in SOLVERS {
        assert!(solver.is_unsat(&constraints, Cnf::unit(n(3))), "{solver:?}");
        assert!(solver.is_unsat(&constraints, Cnf::unit(n(700))), "{solver:?}");
        assert!(!solver.is_unsat(&constraints, Cnf::unit(p(3))), "{solver:?}");
        assert!(!solver.is_unsat(&constraints, Cnf::unit(n(10))), "{solver:?}");
        assert!(!solver.is_unsat(&Cnf::default(), Cnf::default()), "{solver:?}");
        assert!(solver.is_unsat(&Cnf::unit(p(1)), Cnf::unit(n(1))), "{solver:?}");
    }
    assert!(SatSolver::Tinysat.is_unsat(&clauses(vec![vec![]]), Cnf::default()));
}

#[test]
fn verdicts() {
    assert_eq!(verdict(true, false), Verdict::Safe);
    assert_eq!(verdict(true, true), Verdict::Safe);
    assert_eq!(verdict(false, true), Verdict::Mine);
    assert_eq!(verdict(false, false), Verdict::Unknown);
    assert!(minesweep_core::deduce::backend::refuted(Some(false)));
    assert!(!minesweep_core::deduce::backend::refuted(Some(true)));
    assert!(!minesweep_core::deduce::backend::refuted(None));
}

#[test]
fn solver_names() {
    assert_eq!(SatSolver::from_str("tinysat"), Ok(SatSolver::Tinysat));
    assert_eq!(SatSolver::from_str("creusat"), Ok(SatSolver::CreuSAT));
    assert_eq!(SatSolver::from_str("varisat"), Ok(SatSolver::Varisat));
    assert_eq!(SatSolver::from_str("splr"), Ok(SatSolver::Splr));
    assert_eq!(SatSolver::from_str("Tinysat"), Err(()));
    assert_eq!(SatSolver::from_str(""), Err(()));
    assert_eq!(SatSolver::parse("splr"), Ok(SatSolver::Splr));
}

#[test]
fn merged_results() {
    let mut a = SolveResult { must_be_mine: vec![(0, 0)], must_not_mine: vec![] };
    a.merge(SolveResult { must_be_mine: vec![(1, 1)], must_not_mine: vec![(2, 2)] });
    assert_eq!(a.must_be_mine, vec![(0, 0), (1, 1)]);
    assert_eq!(a.must_not_mine, vec![(2, 2)]);
    assert!(SolveResult::default().is_empty());
    assert!(!a.is_empty());
}

#[test]
fn check_cell_settles_one_cell() {
    let mut view = board(&[".*.", "**.", "..."]);
    view.left_click(0, 0);
    let cnf = view.encoding().unwrap();
    let found = view.check_cell(&cnf, 1, 1, SatSolver::Splr);
    assert_eq!((found.must_be_mine, found.must_not_mine), (vec![(1, 1)], vec![]));
    let mut view = board(&["..*"]);
    view.set_cell(0, 0, CellView::Opened(0));
    let cnf = view.encoding().unwrap();
    let found = view.check_cell(&cnf, 1, 0, SatSolver::Tinysat);
    assert_eq!((found.must_be_mine, found.must_not_mine), (vec![], vec![(1, 0)]));
    let found = view.check_cell(&cnf, 2, 0, SatSolver::Tinysat);
    assert!(found.is_empty());
}

#[test]
fn automation_keeps_the_pictures_fresh() {
    let mut view = GameView::new(
        GameOptions {
            difficulty: Difficulty::Custom { width: 5, height: 5, mines: 2 },
            safe_pos: None,
            seed: Some(4),
        }
        .build(),
    );
    view.left_click(0, 0);
    let mut steps = 0;
    loop {
        let before = view.clone();
        let Some(redraw) = view.automation_step(SatSolver::Tinysat) else {
            break;
        };
        let shown = GameView::new(view.state().clone());
        for y in 0..5 {
            for x in 0..5 {
                // every picture is the one that the state calls for
                assert_eq!(view.cell(x, y), shown.cell(x, y));
                // a cell keeps its state, or was untouched and is marked or opened
                let (was, is) = (before.state().cell(x, y), view.state().cell(x, y));
                assert!(
                    was == is
                        || (was == CellState::Unopened
                            && (is == CellState::Flagged || is == CellState::Opened))
                );
                // a picture that has changed is listed
                if view.cell(x, y) != before.cell(x, y) {
                    assert!(redraw.0.contains(&(x, y)));
                }
            }
        }
        steps += 1;
        assert!(steps < 30);
    }
    assert!(steps > 0);
}

#[test]
fn a_repeatable_solver_settles_the_same_cells_again() {
    let mut view = board(&["*..", "...", "**."]);
    view.left_click(1, 1);
    view.right_click(0, 0);
    for solver in [SatSolver::Tinysat, SatSolver::CreuSAT, SatSolver::Varisat] {
        let first = view.solve(solver);
        let second = view.solve(solver);
        assert_eq!(first.must_be_mine, second.must_be_mine);
        assert_eq!(first.must_not_mine, second.must_not_mine);
    }
    let kernel = view.solve(SatSolver::Tinysat);
    let outside = view.solve(SatSolver::Varisat);
    assert_eq!(kernel.must_be_mine, outside.must_be_mine);
    assert_eq!(kernel.must_not_mine, outside.must_not_mine);
}
