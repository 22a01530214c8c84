use baduk_rs::{
    BadukErrorKind, Color, GameState, GameTree, Position, SourceNode, SourceTree, Token,
};

fn comment(text: &str) -> Token {
    Token::Other { key: "C".to_string(), value: text.to_string() }
}

fn node(tokens: Vec<Token>) -> SourceNode {
    SourceNode { tokens }
}

#[test]
fn placed_stone_reads_back() {
    let state = GameState::new(9, 9);
    for &(x, y) in &[(1u32, 1u32), (9, 9), (5, 3)] {
        let placed = state.place_stone(Position(x, y), Color::Black).unwrap();
        assert_eq!(placed.get_stone(Position(x, y)), Some(Color::Black));
        assert_eq!(placed.get_stone(Position(2, 2)), None);
    }
    assert_eq!(state.get_stone(Position(0, 1)), None);
    assert_eq!(state.get_stone(Position(10, 1)), None);
}

#[test]
fn removing_dead_stones_twice_removes_nothing() {
    let mut state: GameState = "
        ox...
        x.xx.
        .xoox
        .oxx.
        .o..."
        .parse()
        .unwrap();
    let mut removed = state.remove_dead_stones(Color::White);
    removed.sort_by_key(|p| (p.x(), p.y()));
    assert_eq!(removed, vec![Position(1, 1), Position(3, 3), Position(4, 3)]);
    assert_eq!(state.get_stone(Position(1, 1)), None);
    assert_eq!(state.get_stone(Position(3, 3)), None);
    assert_eq!(state.get_stone(Position(2, 4)), Some(Color::White));
    assert!(state.remove_dead_stones(Color::White).is_empty());
    assert!(state.is_valid());
}

#[test]
fn liberties_are_counted_once() {
    let state: GameState = "
        .....
        .x.x.
        .xxx.
        .....
        ....."
        .parse()
        .unwrap();
    assert_eq!(state.count_liberties(Position(2, 2)), Some(10));
    assert_eq!(state.count_liberties(Position(1, 1)), None);
    assert_eq!(state.count_liberties(Position(6, 1)), None);
}

#[test]
fn grid_text_round_trips() {
    let text = "o.x\n.x.\n..o";
    let state: GameState = text.parse().unwrap();
    assert_eq!(state.dimensions(), (3, 3));
    assert_eq!(state.to_grid_string(), text);
    let again: GameState = state.to_grid_string().parse().unwrap();
    assert_eq!(again.to_grid_string(), text);
    let empty: GameState = "".parse().unwrap();
    assert_eq!(empty.dimensions(), (0, 0));
    assert_eq!(empty.to_grid_string(), "");
}

#[test]
fn a_two_stone_recapture_is_not_ko() {
    let state: GameState = "
        ox.x.
        xox..
        .....
        .....
        ....."
        .parse()
        .unwrap();
    let mut game = GameTree::from_state(&state);
    assert!(game.play_move(Position(3, 1), Color::White).is_ok());
    let captures = game.current_state().unwrap().captures();
    assert_eq!((captures.white, captures.black), (0, 1));
    assert!(game.play_move(Position(2, 1), Color::Black).is_ok());
    let captures = game.current_state().unwrap().captures();
    assert_eq!((captures.white, captures.black), (2, 1));
}

#[test]
fn a_refused_move_leaves_the_tree_alone() {
    let state: GameState = "
        .xo..
        x.xo.
        .xo..
        .....
        ....."
        .parse()
        .unwrap();
    let mut game = GameTree::from_state(&state);
    let _ = game.play_move(Position(2, 2), Color::White);
    let before = (game.count_nodes(), game.current, game.nodes[1].children.len());
    let err = game.play_move(Position(3, 2), Color::Black);
    assert_eq!(err.unwrap_err().kind, BadukErrorKind::RetakingKo);
    assert_eq!((game.count_nodes(), game.current, game.nodes[1].children.len()), before);
    assert_eq!(game.current_state().unwrap().get_stone(Position(3, 2)), None);
}

#[test]
fn apply_move_reports_each_refusal() {
    let state: GameState = "
        .x...
        x....
        .....
        .....
        ....."
        .parse()
        .unwrap();
    let err = state.apply_move(None, Position(1, 1), Color::White);
    assert_eq!(err.unwrap_err().kind, BadukErrorKind::SuicidalMove);
    let err = state.apply_move(None, Position(2, 1), Color::White);
    assert_eq!(err.unwrap_err().kind, BadukErrorKind::AlreadyOccupied(Position(2, 1)));
    let err = state.apply_move(None, Position(6, 1), Color::White);
    assert_eq!(err.unwrap_err().kind, BadukErrorKind::InvalidPosition(Position(6, 1)));
    let after = state.apply_move(None, Position(1, 1), Color::Black).unwrap();
    assert_eq!(after.get_stone(Position(1, 1)), Some(Color::Black));
}

#[test]
fn difference_lists_changed_positions() {
    let a = GameState::new(3, 3);
    let mut b = a.place_stone(Position(2, 3), Color::Black).unwrap();
    b.capture_stones(2, Color::White);
    let diff = a.difference(&b).unwrap();
    assert_eq!(diff.positions, vec![Position(2, 3)]);
    assert_eq!((diff.captures.white, diff.captures.black), (2, 0));
    assert!(!diff.is_empty());
    assert!(a.difference(&a.clone()).unwrap().is_empty());
    assert!(a.difference(&GameState::new(4, 3)).is_err());
}

#[test]
fn stones_are_added_and_removed() {
    let state = GameState::new(3, 3);
    let state = state.place_stone(Position(1, 1), Color::Black).unwrap();
    let mut state = state.add_stone(Position(1, 1), Color::White).unwrap();
    assert_eq!(state.get_stone(Position(1, 1)), Some(Color::White));
    assert_eq!(state.add_stone(Position(4, 1), Color::White).unwrap_err().kind,
        BadukErrorKind::InvalidPosition(Position(4, 1)));
    assert!(state.remove_stone(Position(1, 1)).is_ok());
    assert_eq!(state.get_stone(Position(1, 1)), None);
    assert_eq!(state.remove_stone(Position(0, 0)).unwrap_err().kind,
        BadukErrorKind::InvalidPosition(Position(0, 0)));
}

#[test]
fn capture_counters_grow_by_colour() {
    let mut state = GameState::new(3, 3);
    state.capture_stones(3, Color::Black);
    state.capture_stones(1, Color::White);
    assert_eq!((state.captures().white, state.captures().black), (1, 3));
}

#[test]
fn ingestion_keeps_one_node_per_record_node() {
    let tree = SourceTree {
        nodes: vec![node(vec![Token::Size(9, 9), comment("a")]), node(vec![comment("b")])],
        variations: vec![
            SourceTree { nodes: vec![node(vec![comment("c")])], variations: vec![] },
            SourceTree {
                nodes: vec![node(vec![comment("d")]), node(vec![])],
                variations: vec![],
            },
        ],
    };
    let game = GameTree::from_source(&tree);
    assert_eq!(game.count_nodes(), 5);
    let children: Vec<usize> = game.nodes.iter().map(|n| n.children.len()).collect();
    assert_eq!(children, vec![1, 2, 0, 1, 0]);
    assert_eq!(game.nodes[0].tokens.len(), 2);
    assert_eq!(game.nodes[4].tokens.len(), 0);
    assert_eq!(game.nodes[4].parent, Some(3));
}

#[test]
fn ingestion_skips_tokens_that_fail() {
    let tree = SourceTree {
        nodes: vec![
            node(vec![
                Token::Size(5, 5),
                Token::Move { color: Color::Black, coordinate: Position(1, 1) },
            ]),
            node(vec![
                Token::Move { color: Color::White, coordinate: Position(1, 1) },
                Token::Size(9, 9),
                Token::Move { color: Color::White, coordinate: Position(2, 2) },
            ]),
        ],
        variations: vec![],
    };
    let (game, failures) = GameTree::from_source_reporting(&tree);
    let failures: Vec<(usize, BadukErrorKind)> = failures.into_iter().map(|(n, e)| (n, e.kind)).collect();
    assert_eq!(
        failures,
        vec![(1, BadukErrorKind::AlreadyOccupied(Position(1, 1))), (1, BadukErrorKind::InvalidRootNode)]
    );
    assert_eq!(game.count_nodes(), 2);
    assert_eq!(game.nodes[1].tokens.len(), 1);
    let state = game.current_state().unwrap();
    assert_eq!(state.get_stone(Position(1, 1)), Some(Color::Black));
    assert_eq!(state.get_stone(Position(2, 2)), Some(Color::White));
}

#[test]
fn errors_carry_their_cause() {
    let e = baduk_rs::BadukError::suicidal_move("no liberties".to_string());
    assert_eq!(e.kind, BadukErrorKind::SuicidalMove);
    assert_eq!(e.source(), Some(&"no liberties".to_string()));
    let e: baduk_rs::BadukError = BadukErrorKind::RetakingKo.into();
    assert_eq!(e.source(), None);
    assert_eq!(Color::Black.opponent(), Color::White);
}

#[test]
fn empty_sequences_add_no_node() {
    let leaf = |text: &str| SourceTree { nodes: vec![node(vec![comment(text)])], variations: vec![] };
    let tree = SourceTree {
        nodes: vec![node(vec![Token::Size(9, 9)])],
        variations: vec![
            SourceTree { nodes: vec![], variations: vec![leaf("c"), leaf("d")] },
            leaf("e"),
        ],
    };
    let game = GameTree::from_source(&tree);
    assert_eq!(game.count_nodes(), 4);
    assert_eq!(game.nodes[0].children, vec![1, 2, 3]);
    assert_eq!(game.nodes[3].tokens.len(), 1);
}

#[test]
fn setup_stones_are_recorded_on_the_root() {
    let state: GameState = ".x.\no..\n...".parse().unwrap();
    let game = GameTree::from_state(&state);
    assert_eq!(game.nodes[0].tokens.len(), 3);
    match &game.nodes[0].tokens[1] {
        Token::Add { color, coordinate } => {
            assert_eq!(*color, Color::Black);
            assert_eq!(*coordinate, Position(2, 1));
        }
        _ => assert!(false),
    }
    let mut game = game;
    assert_eq!(game.add_stone_on_node(Position(3, 3), Color::White, 0).unwrap(), 0);
}

#[test]
fn positions_and_errors_read_as_text() {
    assert_eq!(Position(3, 14).to_text(), "3-14");
    assert_eq!(Position(0, 7).to_text(), "0-7");
    assert_eq!(BadukErrorKind::RetakingKo.message(), "Illegal retaking of ko");
    assert_eq!(BadukErrorKind::InvalidPosition(Position(1, 1)).message(), "Invalid position");
    let e: baduk_rs::BadukError = BadukErrorKind::MissingGoBoard.into();
    assert_eq!(e.message(), "No go board defined");
}
