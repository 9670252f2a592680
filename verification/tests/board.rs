use minesweep_core::{
    CellState, CellView, Difficulty, GameOptions, GameResult, GameState, GameView, Gesture,
    RedrawCells, SatSolver,
};

fn custom(width: usize, height: usize, mines: usize, seed: u64) -> GameOptions {
    GameOptions {
        difficulty: Difficulty::Custom { width, height, mines },
        safe_pos: None,
        seed: Some(seed),
    }
}

fn state_cells(view: &GameView) -> Vec<Vec<CellState>> {
    (0..view.height())
        .map(|y| (0..view.width()).map(|x| view.state().cell(x, y)).collect())
        .collect()
}

fn view_cells(view: &GameView) -> Vec<Vec<CellView>> {
    (0..view.height()).map(|y| (0..view.width()).map(|x| view.cell(x, y)).collect()).collect()
}

fn board(rows: &[&str]) -> GameView {
    let mines: Vec<Vec<bool>> =
        rows.iter().map(|r| r.chars().map(|c| c == '*').collect()).collect();
    let options = custom(rows[0].len(), rows.len(), 1, 0);
    GameView::new(GameState::with_mines(options, mines).unwrap())
}

#[test]
fn new_game() {
    let options = GameOptions {
        difficulty: Difficulty::Custom { width: 3, height: 3, mines: 3 },
        safe_pos: None,
        seed: Some(1),
    };
    let state = options.clone().build();
    assert_eq!(
        state,
        GameState::with_mines(
            options,
            vec![
                vec![true, false, false],
                vec![false, false, false],
                vec![true, true, false]
            ],
        )
        .unwrap()
    );
    for y in 0..3 {
        for x in 0..3 {
            assert_eq!(state.cell(x, y), CellState::Unopened);
        }
    }
}

#[test]
fn game_view() {
    let mut view = GameView::new(
        GameOptions {
            difficulty: Difficulty::Custom { width: 3, height: 3, mines: 3 },
            safe_pos: None,
            seed: Some(1),
        }
        .build(),
    );
    view.left_click(1, 1);
    assert_eq!(
        state_cells(&view),
        vec![
            vec![CellState::Unopened, CellState::Unopened, CellState::Unopened,],
            vec![CellState::Unopened, CellState::Opened, CellState::Unopened,],
            vec![CellState::Unopened, CellState::Unopened, CellState::Unopened,]
        ],
    );
    assert_eq!(
        view_cells(&view),
        vec![
            vec![CellView::Unopened, CellView::Unopened, CellView::Unopened],
            vec![CellView::Unopened, CellView::Opened(3), CellView::Unopened],
            vec![CellView::Unopened, CellView::Unopened, CellView::Unopened]
        ]
    );
    assert_eq!(view.result, GameResult::Playing);
    view.right_click(2, 1);
    assert_eq!(
        state_cells(&view),
        vec![
            vec![CellState::Unopened, CellState::Unopened, CellState::Unopened,],
            vec![CellState::Unopened, CellState::Opened, CellState::Flagged,],
            vec![CellState::Unopened, CellState::Unopened, CellState::Unopened,]
        ],
    );
    assert_eq!(
        view_cells(&view),
        vec![
            vec![CellView::Unopened, CellView::Unopened, CellView::Unopened],
            vec![CellView::Unopened, CellView::Opened(3), CellView::Flagged],
            vec![CellView::Unopened, CellView::Unopened, CellView::Unopened]
        ]
    );
    assert_eq!(view.result, GameResult::Playing);
    view.left_click(0, 0);
    assert_eq!(
        state_cells(&view),
        vec![
            vec![CellState::Opened, CellState::Unopened, CellState::Unopened,],
            vec![CellState::Unopened, CellState::Opened, CellState::Flagged,],
            vec![CellState::Unopened, CellState::Unopened, CellState::Unopened,]
        ],
    );
    assert_eq!(
        view_cells(&view),
        vec![
            vec![CellView::Exploded, CellView::Unopened, CellView::Unopened],
            vec![CellView::Unopened, CellView::Opened(3), CellView::WrongMine],
            vec![CellView::Mine, CellView::Mine, CellView::Unopened]
        ]
    );
    assert_eq!(view.result, GameResult::Lose);
}

#[test]
fn solve() {
    let mut view = GameView::new(
        GameOptions {
            difficulty: Difficulty::Custom { width: 5, height: 5, mines: 2 },
            safe_pos: None,
            seed: Some(4),
        }
        .build(),
    );
    println!("{view:?}");
    view.left_click(0, 0);
    println!("{view:?}");
    let result = view.solve(SatSolver::Tinysat);
    println!("tinysat: {result:?}");
    let result = view.solve(SatSolver::CreuSAT);
    println!("CreuSAT: {result:?}");
    let result = view.solve(SatSolver::Varisat);
    println!("Varisat: {result:?}");
    let result = view.solve(SatSolver::Splr);
    println!("splr: {result:?}");
}

#[test]
fn difficulty_presets() {
    assert_eq!(
        (Difficulty::Easy.width(), Difficulty::Easy.height(), Difficulty::Easy.mines()),
        (9, 9, 10)
    );
    assert_eq!(
        (Difficulty::Medium.width(), Difficulty::Medium.height(), Difficulty::Medium.mines()),
        (16, 16, 40)
    );
    assert_eq!(
        (Difficulty::Hard.width(), Difficulty::Hard.height(), Difficulty::Hard.mines()),
        (30, 16, 99)
    );
    let d = Difficulty::Custom { width: 4, height: 7, mines: 5 };
    assert_eq!((d.width(), d.height(), d.mines()), (4, 7, 5));
    assert_eq!(GameOptions::easy().difficulty, Difficulty::Easy);
    assert_eq!(GameOptions::medium().difficulty, Difficulty::Medium);
    assert_eq!(GameOptions::hard().difficulty, Difficulty::Hard);
    assert_eq!(GameOptions::default(), GameOptions::easy());
    assert_eq!(GameOptions::hard().seed, None);
    assert_eq!(GameOptions::hard().safe_pos, None);
}

#[test]
fn build_places_the_mines() {
    for seed in 0..20 {
        for (w, h, mines) in [(3, 3, 3), (5, 4, 19), (9, 9, 10), (1, 2, 1), (30, 16, 99)] {
            let mut options = custom(w, h, mines, seed);
            assert!(options.can_build());
            let state = options.build();
            assert_eq!((state.width(), state.height(), state.mines()), (w, h, mines));
            assert_eq!(state.flags(), 0);
            assert_eq!(state.options().seed, Some(seed));
            let safe = (seed as usize % w, seed as usize % h);
            options.safe_pos = Some(safe);
            let state = options.build();
            assert_eq!(state.mines(), mines);
            assert!(!state.is_mine(safe.0, safe.1));
            assert_eq!(state.options().safe_pos, Some(safe));
        }
    }
}

#[test]
fn build_with_a_seed_is_repeatable() {
    let a = custom(9, 9, 10, 77).build();
    let b = custom(9, 9, 10, 77).build();
    assert_eq!(a, b);
    let mut options = custom(9, 9, 10, 77);
    options.seed = None;
    let c = options.build();
    assert!(c.options().seed.is_some());
    assert_eq!(c.mines(), 10);
}

#[test]
fn boards_that_cannot_be_built() {
    assert!(!custom(0, 3, 1, 0).can_build());
    assert!(!custom(3, 0, 1, 0).can_build());
    assert!(!custom(3, 3, 0, 0).can_build());
    assert!(!custom(3, 3, 9, 0).can_build());
    assert!(custom(3, 3, 8, 0).can_build());
    assert!(!custom(usize::MAX, 2, 1, 0).can_build());
}

#[test]
fn with_mines_wants_a_rectangle() {
    let options = custom(2, 2, 1, 0);
    assert!(GameState::with_mines(options, vec![]).is_none());
    assert!(GameState::with_mines(options, vec![vec![]]).is_none());
    assert!(GameState::with_mines(options, vec![vec![true, false], vec![false]]).is_none());
    let state = GameState::with_mines(options, vec![vec![true, false], vec![false, false]]).unwrap();
    assert_eq!((state.width(), state.height()), (2, 2));
    assert!(state.is_mine(0, 0));
    assert!(!state.is_mine(1, 0));
}

#[test]
fn nearby_cells_in_row_order() {
    let view = board(&["...", "...", "..*"]);
    assert_eq!(
        view.nearby_cells(1, 1),
        vec![(0, 0), (1, 0), (2, 0), (0, 1), (2, 1), (0, 2), (1, 2), (2, 2)]
    );
    assert_eq!(view.nearby_cells(0, 0), vec![(1, 0), (0, 1), (1, 1)]);
    assert_eq!(view.nearby_cells(2, 1), vec![(1, 0), (2, 0), (1, 1), (1, 2), (2, 2)]);
    assert_eq!(view.state().nearby_cells(2, 2), vec![(1, 1), (2, 1), (1, 2)]);
    assert_eq!(view.state().nearby_cells(3, 3), vec![(2, 2)]);
    assert_eq!(view.state().nearby_cells(usize::MAX, usize::MAX), vec![]);
    assert_eq!(view.state().nearby_mines(1, 1), 1);
    assert_eq!(view.state().nearby_mines(0, 0), 0);
    assert_eq!(view.state().nearby_mines(2, 2), 0);
    assert_eq!(
        RedrawCells::redraw_all(2, 3).0,
        vec![(0, 0), (1, 0), (0, 1), (1, 1), (0, 2), (1, 2)]
    );
}

#[test]
fn state_queries() {
    let mut state = GameState::with_mines(
        custom(3, 2, 2, 0),
        vec![vec![true, false, false], vec![false, false, true]],
    )
    .unwrap();
    assert_eq!(state.mines(), 2);
    assert_eq!(state.game_result(), GameResult::Playing);
    state.set_cell(1, 0, CellState::Flagged);
    state.set_cell(0, 0, CellState::Flagged);
    assert!(state.is_flag(1, 0));
    assert!(!state.is_opened(1, 0));
    assert_eq!(state.flags(), 2);
    assert_eq!(state.nearby_flags(1, 1), 2);
    assert_eq!(state.nearby_flags(2, 1), 1);
    state.set_cell(1, 0, CellState::Opened);
    state.set_cell(2, 0, CellState::Opened);
    state.set_cell(0, 1, CellState::Opened);
    assert_eq!(state.game_result(), GameResult::Playing);
    state.set_cell(1, 1, CellState::Opened);
    assert_eq!(state.game_result(), GameResult::Win);
    assert!(!state.is_exploded(1, 1));
    state.set_cell(2, 1, CellState::Opened);
    assert!(state.is_exploded(2, 1));
    assert_eq!(state.game_result(), GameResult::Lose);
}

#[test]
fn left_click_floods_and_wins() {
    let mut view = board(&["....", "....", "...*"]);
    assert_eq!(view.mines, 1);
    let redraw = view.left_click(0, 0);
    assert_eq!(view.result, GameResult::Win);
    assert_eq!(view.flags, 1);
    assert_eq!(
        view_cells(&view),
        vec![
            vec![CellView::Opened(0), CellView::Opened(0), CellView::Opened(0), CellView::Opened(0)],
            vec![CellView::Opened(0), CellView::Opened(0), CellView::Opened(1), CellView::Opened(1)],
            vec![CellView::Opened(0), CellView::Opened(0), CellView::Opened(1), CellView::Flagged],
        ]
    );
    assert!(redraw.0.contains(&(3, 2)));
    assert_eq!(redraw.0[0], (0, 0));
    assert!(view.left_click(3, 2).0.is_empty());
    assert!(view.right_click(3, 2).0.is_empty());
    assert!(view.middle_click(1, 1).0.is_empty());
    assert!(view.is_draggable(3, 2));
}

#[test]
fn left_click_stops_at_numbers() {
    let mut view = board(&["..*..", "..*..", "..*.."]);
    let redraw = view.left_click(0, 0);
    assert_eq!(view.result, GameResult::Playing);
    assert_eq!(
        view_cells(&view),
        vec![
            vec![CellView::Opened(0), CellView::Opened(2), CellView::Unopened, CellView::Unopened, CellView::Unopened],
            vec![CellView::Opened(0), CellView::Opened(3), CellView::Unopened, CellView::Unopened, CellView::Unopened],
            vec![CellView::Opened(0), CellView::Opened(2), CellView::Unopened, CellView::Unopened, CellView::Unopened],
        ]
    );
    assert_eq!(redraw.0, vec![(0, 0), (0, 1), (0, 2), (1, 0), (1, 1), (1, 2)]);
    assert_eq!(view.flags, 0);
    assert!(view.is_draggable(0, 0));
    assert!(!view.is_draggable(4, 0));
}

#[test]
fn opening_does_not_spread_past_a_mark() {
    let mut view = board(&[".....", "....."]);
    view.right_click(2, 0);
    view.right_click(2, 1);
    view.right_click(2, 1);
    view.left_click(0, 0);
    assert_eq!(view.result, GameResult::Playing);
    assert_eq!(
        view_cells(&view),
        vec![
            vec![CellView::Opened(0), CellView::Opened(0), CellView::Flagged, CellView::Unopened, CellView::Unopened],
            vec![CellView::Opened(0), CellView::Opened(0), CellView::Questioned, CellView::Unopened, CellView::Unopened],
        ]
    );
    view.left_click(4, 1);
    assert_eq!(view.cell(3, 0), CellView::Opened(0));
    assert_eq!(view.cell(2, 0), CellView::Flagged);
    assert_eq!(view.result, GameResult::Playing);
}

#[test]
fn right_click_cycles_the_mark() {
    let mut view = board(&["*..", "...", "..."]);
    assert_eq!(view.right_click(0, 0).0, vec![(0, 0)]);
    assert_eq!((view.state().cell(0, 0), view.cell(0, 0), view.flags), (CellState::Flagged, CellView::Flagged, 1));
    assert!(view.left_click(0, 0).0.is_empty());
    assert_eq!(view.right_click(0, 0).0, vec![(0, 0)]);
    assert_eq!((view.state().cell(0, 0), view.cell(0, 0), view.flags), (CellState::Questioned, CellView::Questioned, 0));
    assert_eq!(view.right_click(0, 0).0, vec![(0, 0)]);
    assert_eq!((view.state().cell(0, 0), view.cell(0, 0), view.flags), (CellState::Unopened, CellView::Unopened, 0));
    view.left_click(1, 1);
    assert_eq!(view.cell(1, 1), CellView::Opened(1));
    assert!(view.right_click(1, 1).0.is_empty());
    assert_eq!(view.state().flags(), 0);
}

#[test]
fn middle_click_opens_around_a_satisfied_clue() {
    let mut view = board(&["*..", "...", "..."]);
    view.left_click(1, 1);
    assert!(view.middle_click(1, 1).0.is_empty());
    view.right_click(0, 0);
    let redraw = view.middle_click(1, 1);
    assert!(!redraw.0.is_empty());
    assert_eq!(view.result, GameResult::Win);
    assert_eq!(
        view_cells(&view),
        vec![
            vec![CellView::Flagged, CellView::Opened(1), CellView::Opened(0)],
            vec![CellView::Opened(1), CellView::Opened(1), CellView::Opened(0)],
            vec![CellView::Opened(0), CellView::Opened(0), CellView::Opened(0)],
        ]
    );
}

#[test]
fn middle_click_with_a_wrong_flag_loses() {
    let mut view = board(&["*..", "...", "..."]);
    view.left_click(1, 1);
    view.right_click(1, 0);
    view.middle_click(1, 1);
    assert_eq!(view.result, GameResult::Lose);
    assert_eq!(view.cell(0, 0), CellView::Exploded);
    assert_eq!(view.cell(1, 0), CellView::WrongMine);
}

#[test]
fn gesture_shows_hover_and_push() {
    let mut view = board(&["*..", "...", "..."]);
    assert_eq!(view.gesture(Gesture::Hover(1, 1)).0, vec![(1, 1)]);
    assert_eq!(view.cell(1, 1), CellView::Hovered);
    assert!(view.cell(1, 1).is_intact());
    let redraw = view.gesture(Gesture::LeftOrRightPush(0, 0));
    assert_eq!(redraw.0, vec![(1, 1), (0, 0)]);
    assert_eq!(view.cell(0, 0), CellView::Pushed);
    assert_eq!(view.cell(1, 1), CellView::Unopened);
    view.gesture(Gesture::MidPush(1, 1));
    assert_eq!(
        view_cells(&view),
        vec![
            vec![CellView::Pushed, CellView::Pushed, CellView::Pushed],
            vec![CellView::Pushed, CellView::Hovered, CellView::Pushed],
            vec![CellView::Pushed, CellView::Pushed, CellView::Pushed],
        ]
    );
    view.gesture(Gesture::Idle);
    assert!(view_cells(&view).iter().all(|row| row.iter().all(|c| *c == CellView::Unopened)));
    view.set_cell(2, 2, CellView::Questioned);
    assert_eq!(view.cell(2, 2), CellView::Questioned);
    assert!(!view.cell(2, 2).is_intact());
    assert_eq!(view.options().difficulty, Difficulty::Custom { width: 3, height: 3, mines: 1 });
    assert_eq!(view.result(), GameResult::Playing);
}

fn changed_cells(before: &[Vec<CellView>], after: &[Vec<CellView>]) -> Vec<(usize, usize)> {
    let mut cells = Vec::new();
    for (y, row) in before.iter().enumerate() {
        for (x, cell) in row.iter().enumerate() {
            if *cell != after[y][x] {
                cells.push((x, y));
            }
        }
    }
    cells
}

fn in_order(mut cells: Vec<(usize, usize)>) -> Vec<(usize, usize)> {
    cells.sort_by_key(|c| (c.1, c.0));
    cells
}

#[test]
fn gesture_lists_the_former_cells_before_the_new_ones() {
    let mut view = board(&["*..", "...", "..."]);
    assert!(view.gesture(Gesture::Idle).0.is_empty());
    assert_eq!(view.gesture(Gesture::Hover(1, 1)).0, vec![(1, 1)]);
    // the same gesture again changes no picture
    assert!(view.gesture(Gesture::Hover(1, 1)).0.is_empty());
    // the hovered cell becomes pushed; of the cells of the push, it is not listed again
    assert_eq!(view.gesture(Gesture::MidPush(0, 0)).0, vec![(1, 1), (0, 0), (1, 0), (0, 1)]);
    assert_eq!(view.cell(0, 0), CellView::Hovered);
    assert_eq!(view.cell(1, 1), CellView::Pushed);
    // the cell of the push first, then the cells around it row by row
    assert_eq!(view.gesture(Gesture::Idle).0, vec![(0, 0), (1, 0), (0, 1), (1, 1)]);
    let mut view = board(&["*..", "...", "..*"]);
    view.left_click(1, 1);
    assert_eq!(view.cell(1, 1), CellView::Opened(2));
    // an opened cell has no other picture under the pointer
    assert!(view.gesture(Gesture::Hover(1, 1)).0.is_empty());
    assert_eq!(
        view.gesture(Gesture::MidPush(1, 1)).0,
        vec![(0, 0), (1, 0), (2, 0), (0, 1), (2, 1), (0, 2), (1, 2), (2, 2)]
    );
    assert_eq!(view.cell(0, 0), CellView::Pushed);
}

#[test]
fn clicks_list_the_cells_whose_picture_changed() {
    let mut view = board(&["..*..", "..*..", "..*.."]);
    view.gesture(Gesture::Hover(0, 0));
    let before = view_cells(&view);
    let redraw = view.left_click(0, 0);
    assert_eq!(in_order(redraw.0), changed_cells(&before, &view_cells(&view)));
    let before = view_cells(&view);
    let redraw = view.right_click(2, 1);
    assert_eq!(redraw.0, vec![(2, 1)]);
    assert_eq!(changed_cells(&before, &view_cells(&view)), vec![(2, 1)]);
    // a click that loses the game shows every mine
    let before = view_cells(&view);
    let redraw = view.left_click(2, 0);
    assert_eq!(view.result, GameResult::Lose);
    assert_eq!(in_order(redraw.0), vec![(2, 0), (2, 2)]);
    assert_eq!(changed_cells(&before, &view_cells(&view)), vec![(2, 0), (2, 2)]);
    assert_eq!(view.cell(2, 0), CellView::Exploded);
    assert_eq!(view.cell(2, 1), CellView::Flagged);
    assert_eq!(view.cell(2, 2), CellView::Mine);
}

#[test]
fn middle_click_lists_the_cells_whose_picture_changed() {
    let mut view = board(&["*...", "....", "...."]);
    view.left_click(1, 1);
    view.right_click(0, 0);
    let before = view_cells(&view);
    let redraw = view.middle_click(1, 1);
    assert_eq!(view.result, GameResult::Win);
    let changed = changed_cells(&before, &view_cells(&view));
    assert_eq!(changed.len(), 10);
    for cell in &changed {
        assert!(redraw.0.contains(cell));
    }
    let mut view = board(&["*..*.", "...*.", "...*."]);
    view.left_click(1, 1);
    view.right_click(0, 0);
    let before = view_cells(&view);
    let redraw = view.middle_click(1, 1);
    assert_eq!(view.result, GameResult::Playing);
    assert_eq!(
        in_order(redraw.0),
        vec![(1, 0), (2, 0), (0, 1), (2, 1), (0, 2), (1, 2), (2, 2)]
    );
    assert_eq!(
        changed_cells(&before, &view_cells(&view)),
        vec![(1, 0), (2, 0), (0, 1), (2, 1), (0, 2), (1, 2), (2, 2)]
    );
}

#[test]
fn from_parts_puts_a_view_together_again() {
    let mut view = board(&["*..", "...", "..."]);
    view.left_click(1, 1);
    view.right_click(0, 0);
    view.gesture(Gesture::Hover(2, 2));
    let again = GameView::from_parts(
        view.state().clone(),
        view_cells(&view),
        view.result,
        view.gesture,
        view.mines,
        view.flags,
    )
    .unwrap();
    assert_eq!(again.state(), view.state());
    assert_eq!(view_cells(&again), view_cells(&view));
    assert_eq!((again.result, again.mines, again.flags), (GameResult::Playing, 1, 1));
    assert!(matches!(again.gesture, Gesture::Hover(2, 2)));
    let mut played = again;
    assert!(!played.middle_click(1, 1).0.is_empty());
    assert_eq!(played.result, GameResult::Win);
}

#[test]
fn from_parts_refuses_parts_that_do_not_fit() {
    let mut view = board(&["*..", "...", "..."]);
    view.left_click(1, 1);
    view.right_click(0, 0);
    let state = view.state().clone();
    let cells = view_cells(&view);
    let parts = |cells: Vec<Vec<CellView>>, result, gesture, flags| {
        GameView::from_parts(state.clone(), cells, result, gesture, 1, flags)
    };
    assert!(parts(cells.clone(), GameResult::Playing, Gesture::Idle, 1).is_some());
    // the flags are miscounted
    assert!(parts(cells.clone(), GameResult::Playing, Gesture::Idle, 0).is_none());
    // the result is not that of the cells
    assert!(parts(cells.clone(), GameResult::Win, Gesture::Idle, 1).is_none());
    assert!(parts(cells.clone(), GameResult::Lose, Gesture::Idle, 1).is_none());
    // the gesture lies off the board
    assert!(parts(cells.clone(), GameResult::Playing, Gesture::Hover(3, 0), 1).is_none());
    assert!(parts(cells.clone(), GameResult::Playing, Gesture::MidPush(0, 3), 1).is_none());
    assert!(parts(cells.clone(), GameResult::Playing, Gesture::LeftOrRightPush(2, 2), 1).is_some());
    // a row of pictures is missing, or one is too short
    assert!(parts(cells[..2].to_vec(), GameResult::Playing, Gesture::Idle, 1).is_none());
    let mut short = cells.clone();
    short[1].pop();
    assert!(parts(short, GameResult::Playing, Gesture::Idle, 1).is_none());
    // once the game has ended the flags shown are those of the view
    let mut won = board(&["*.", ".."]);
    won.left_click(1, 1);
    won.left_click(1, 0);
    won.left_click(0, 1);
    assert_eq!((won.result, won.flags, won.state().flags()), (GameResult::Win, 1, 0));
    let again = GameView::from_parts(
        won.state().clone(),
        view_cells(&won),
        won.result,
        won.gesture,
        won.mines,
        won.flags,
    );
    assert_eq!(again.map(|v| v.flags), Some(1));
}
