use minesweep_core::{
    CellState, CellView, Difficulty, GameOptions, GameResult, Gesture, MaybeUninitGameView,
};

fn options(width: usize, height: usize, mines: usize, seed: u64) -> GameOptions {
    GameOptions {
        difficulty: Difficulty::Custom { width, height, mines },
        safe_pos: None,
        seed: Some(seed),
    }
}

#[test]
fn before_the_game_only_the_pointer_shows() {
    let mut game = MaybeUninitGameView::new(options(4, 3, 5, 9));
    assert_eq!((game.width(), game.height()), (4, 3));
    assert!(!game.is_playing());
    assert!(!game.is_draggable(0, 0));
    assert_eq!(game.cell(1, 1), CellView::Unopened);
    assert_eq!(game.gesture(Gesture::Hover(1, 1)).0, vec![(1, 1)]);
    assert_eq!(game.cell(1, 1), CellView::Hovered);
    assert_eq!(game.gesture(Gesture::LeftOrRightPush(2, 1)).0, vec![(1, 1), (2, 1)]);
    assert_eq!(game.cell(1, 1), CellView::Unopened);
    assert_eq!(game.cell(2, 1), CellView::Pushed);
    assert_eq!(
        game.gesture(Gesture::MidPush(3, 0)).0,
        vec![(2, 1), (2, 0), (3, 0), (2, 1), (3, 1)]
    );
    assert_eq!(game.cell(3, 0), CellView::Hovered);
    assert_eq!(game.cell(2, 1), CellView::Pushed);
    assert_eq!(game.cell(1, 1), CellView::Unopened);
    assert_eq!(
        game.gesture(Gesture::Idle).0,
        vec![(2, 0), (3, 0), (2, 1), (3, 1)]
    );
    assert!(game.right_click(0, 0).0.is_empty());
    assert!(game.middle_click(0, 0).0.is_empty());
    assert!(matches!(game, MaybeUninitGameView::Uninit { .. }));
}

#[test]
fn the_first_left_click_deals_the_board() {
    for seed in 0..30 {
        let mut game = MaybeUninitGameView::new(options(4, 3, 11, seed));
        game.gesture(Gesture::Hover(2, 1));
        let redraw = game.left_click(2, 1);
        assert!(redraw.0.contains(&(2, 1)));
        match &game {
            MaybeUninitGameView::GameView(view) => {
                assert!(!view.state().is_mine(2, 1));
                assert_eq!(view.state().cell(2, 1), CellState::Opened);
                assert_eq!(view.state().mines(), 11);
                assert_eq!(view.mines, 11);
                assert_eq!(view.options().safe_pos, Some((2, 1)));
                assert_eq!(view.options().seed, Some(seed));
                assert_eq!(view.result, GameResult::Win);
                assert!(matches!(view.gesture, Gesture::Hover(2, 1)));
            }
            MaybeUninitGameView::Uninit { .. } => panic!("the game has begun"),
        }
        assert!(!game.is_playing());
        assert!(game.is_draggable(0, 0));
    }
}

#[test]
fn restart_deals_the_same_board() {
    let mut game = MaybeUninitGameView::new(options(9, 9, 10, 5));
    game.left_click(4, 4);
    let mines = |game: &MaybeUninitGameView| match game {
        MaybeUninitGameView::GameView(view) => (0..9)
            .map(|y| (0..9).map(|x| view.state().is_mine(x, y)).collect::<Vec<_>>())
            .collect::<Vec<_>>(),
        MaybeUninitGameView::Uninit { .. } => panic!("the game has begun"),
    };
    let before = mines(&game);
    assert!(game.is_playing());
    game.right_click(0, 0);
    game.restart();
    assert_eq!(mines(&game), before);
    assert!(game.is_playing());
    assert_eq!(game.cell(4, 4), CellView::Unopened);
    assert_eq!(game.cell(0, 0), CellView::Unopened);
    game.init();
    assert_eq!(mines(&game), before);
    let mut idle = MaybeUninitGameView::new(options(9, 9, 10, 5));
    idle.restart();
    assert!(matches!(idle, MaybeUninitGameView::Uninit { .. }));
    idle.init();
    assert!(idle.is_playing());
}

#[test]
fn restart_leaves_no_cell_touched() {
    let mut game = MaybeUninitGameView::new(options(9, 9, 10, 5));
    game.gesture(Gesture::Hover(3, 3));
    game.left_click(4, 4);
    game.right_click(0, 0);
    game.restart();
    match &game {
        MaybeUninitGameView::GameView(view) => {
            assert_eq!(view.result, GameResult::Playing);
            assert_eq!((view.width(), view.height()), (9, 9));
            assert_eq!((view.mines, view.flags), (10, 0));
            assert_eq!(view.state().mines(), 10);
            assert_eq!(view.options().seed, Some(5));
            assert_eq!(view.options().safe_pos, Some((4, 4)));
            assert!(!view.state().is_mine(4, 4));
            assert!(matches!(view.gesture, Gesture::Hover(3, 3)));
            for y in 0..9 {
                for x in 0..9 {
                    assert_eq!(view.state().cell(x, y), CellState::Unopened);
                    let shown = if (x, y) == (3, 3) { CellView::Hovered } else { CellView::Unopened };
                    assert_eq!(view.cell(x, y), shown);
                }
            }
        }
        MaybeUninitGameView::Uninit { .. } => panic!("the game has begun"),
    }
}

#[test]
fn dragging_by_a_cell_of_the_game() {
    let mut game = MaybeUninitGameView::new(options(9, 9, 10, 5));
    game.left_click(4, 4);
    assert!(game.is_playing());
    let opened = game.cell(4, 4);
    assert!(matches!(opened, CellView::Opened(_)));
    assert!(game.is_draggable(4, 4));
    let untouched = (0..9)
        .flat_map(|y| (0..9).map(move |x| (x, y)))
        .find(|&(x, y)| game.cell(x, y) == CellView::Unopened)
        .unwrap();
    assert!(!game.is_draggable(untouched.0, untouched.1));
    game.right_click(untouched.0, untouched.1);
    assert!(game.is_draggable(untouched.0, untouched.1));
    game.right_click(untouched.0, untouched.1);
    assert_eq!(game.cell(untouched.0, untouched.1), CellView::Questioned);
    assert!(game.is_draggable(untouched.0, untouched.1));
}
