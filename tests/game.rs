use baduk_rs::{
    BadukErrorKind, Color, GameState, GameTree, Position, SourceNode, SourceTree, Token,
};
use sgf_parser::{parse, Action, SgfToken};

fn color_of(color: sgf_parser::Color) -> Color {
    match color {
        sgf_parser::Color::Black => Color::Black,
        sgf_parser::Color::White => Color::White,
    }
}

fn token_of(token: &SgfToken) -> Token {
    match token {
        SgfToken::Size(w, h) => Token::Size(*w, *h),
        SgfToken::Move { color, action: Action::Move(x, y) } => Token::Move {
            color: color_of(*color),
            coordinate: (*x, *y).into(),
        },
        SgfToken::Add { color, coordinate } => Token::Add {
            color: color_of(*color),
            coordinate: (*coordinate).into(),
        },
        other => {
            let text: String = other.into();
            let open = text.find('[').unwrap_or(text.len());
            let value = text[open..].trim_start_matches('[').trim_end_matches(']');
            Token::Other { key: text[..open].to_string(), value: value.to_string() }
        }
    }
}

fn source_of(tree: &sgf_parser::GameTree) -> SourceTree {
    SourceTree {
        nodes: tree
            .nodes
            .iter()
            .map(|n| SourceNode { tokens: n.tokens.iter().map(token_of).collect() })
            .collect(),
        variations: tree.variations.iter().map(source_of).collect(),
    }
}

fn game_of(text: &str) -> GameTree {
    let tree = parse(text).unwrap();
    GameTree::from_source(&source_of(&tree))
}

#[test]
fn it_can_create_new_game() {
    let game = GameTree::default();
    assert_eq!(game.count_nodes(), 1);
    assert!(game.current_state().is_none());
}

#[test]
fn it_can_create_new_game_from_game_state() {
    let state: GameState = "
        .x...
        x..x.
        .xoox
        .oxx.
        .o..."
        .parse()
        .unwrap();
    let tree = GameTree::from_state(&state);
    assert_eq!(tree.nodes.len(), 1);
    if let Some(state) = tree.current_state() {
        assert_eq!(state.get_stone((2, 1).into()), Some(Color::Black));
        assert_eq!(state.get_stone((2, 5).into()), Some(Color::White));
    } else {
        assert!(false);
    }
}

#[test]
fn it_can_play_moves() {
    let mut game = GameTree::new(19, 19);
    let id = game.play_move((4, 3).into(), Color::Black);
    assert_eq!(id.unwrap(), 1);
    let id = game.play_move((16, 16).into(), Color::White);
    assert_eq!(id.unwrap(), 2);
    let id = game.play_move((16, 4).into(), Color::Black);
    assert_eq!(id.unwrap(), 3);
    let id = game.play_move((3, 16).into(), Color::White);
    assert_eq!(id.unwrap(), 4);
    assert_eq!(game.count_nodes(), 5);
    let state = game.current_state().unwrap();
    let captures = state.captures();
    assert_eq!(captures.white, 0);
    assert_eq!(captures.black, 0);

    assert_eq!(game.nodes[0].tokens.len(), 1);
    assert_eq!(game.nodes[1].tokens.len(), 1);
    assert_eq!(game.nodes[2].tokens.len(), 1);
    assert_eq!(game.nodes[3].tokens.len(), 1);
    assert_eq!(game.nodes[4].tokens.len(), 1);

    assert_eq!(state.get_stone((4, 3).into()), Some(Color::Black));
    assert_eq!(state.get_stone((16, 16).into()), Some(Color::White));
    assert_eq!(state.get_stone((16, 4).into()), Some(Color::Black));
    assert_eq!(state.get_stone((3, 16).into()), Some(Color::White));
}

#[test]
fn it_can_capture_stones() {
    let mut game = GameTree::new(19, 19);
    let _ = game.play_move((1, 1).into(), Color::Black);
    let _ = game.play_move((1, 2).into(), Color::White);
    let _ = game.play_move((4, 4).into(), Color::Black);
    let _ = game.play_move((2, 1).into(), Color::White);
    assert_eq!(game.count_nodes(), 5);

    let state = game.current_state().unwrap();
    let captures = state.captures();
    assert_eq!(captures.white, 0);
    assert_eq!(captures.black, 1);

    assert_eq!(state.get_stone((1, 1).into()), None);
    assert_eq!(state.get_stone((1, 2).into()), Some(Color::White));
    assert_eq!(state.get_stone((2, 1).into()), Some(Color::White));
}

#[test]
fn it_does_not_allow_suicide() {
    let mut game = GameTree::new(19, 19);
    let _ = game.play_move((1, 2).into(), Color::Black);
    let _ = game.play_move((3, 3).into(), Color::White);
    let _ = game.play_move((2, 1).into(), Color::Black);
    let err = game.play_move((1, 1).into(), Color::White);
    match err {
        Err(e) => assert_eq!(e.kind, BadukErrorKind::SuicidalMove),
        _ => assert!(false),
    }

    assert_eq!(game.count_nodes(), 4);
    let captures = game.current_state().unwrap().captures();
    assert_eq!(captures.white, 0);
    assert_eq!(captures.black, 0);
}

#[test]
fn it_handles_ko() {
    let state: GameState = "
        .xo..
        x.xo.
        .xo..
        .....
        ....."
        .parse()
        .unwrap();
    let mut game = GameTree::from_state(&state);

    let captures = game.current_state().unwrap().captures();
    assert_eq!(captures.white, 0);
    assert_eq!(captures.black, 0);

    let _ = game.play_move((2, 2).into(), Color::White);

    let captures = game.current_state().unwrap().captures();
    assert_eq!(captures.white, 0);
    assert_eq!(captures.black, 1);

    let err = game.play_move((3, 2).into(), Color::Black);
    match err {
        Err(e) => assert_eq!(e.kind, BadukErrorKind::RetakingKo),
        _ => assert!(false),
    }

    let _ = game.play_move((4, 4).into(), Color::Black);
    let _ = game.play_move((5, 5).into(), Color::White);
    let res = game.play_move((3, 2).into(), Color::Black);
    assert!(res.is_ok());

    let captures = game.current_state().unwrap().captures();
    assert_eq!(captures.white, 1);
    assert_eq!(captures.black, 1);
}

#[test]
fn it_handles_almost_ko() {
    let state: GameState = "
        .xxo...
        xoo.o..
        .xxo...
        .......
        .......
        .......
        ......."
        .parse()
        .unwrap();
    let mut game = GameTree::from_state(&state);

    let _ = game.play_move((4, 2).into(), Color::Black);

    let captures = game.current_state().unwrap().captures();
    assert_eq!(captures.white, 2);
    assert_eq!(captures.black, 0);

    let res = game.play_move((3, 2).into(), Color::White);
    assert!(res.is_ok());

    let captures = game.current_state().unwrap().captures();
    assert_eq!(captures.white, 2);
    assert_eq!(captures.black, 1);

    let res = game.play_move((2, 2).into(), Color::White);
    assert!(res.is_ok());

    let _ = game.play_move((4, 2).into(), Color::Black);

    let captures = game.current_state().unwrap().captures();
    assert_eq!(captures.white, 4);
    assert_eq!(captures.black, 1);
}

#[test]
fn it_can_create_new_game_from_sgf() {
    let game = game_of("(;SZ[19]B[aa];W[bb])");
    assert_eq!(game.count_nodes(), 2);
    let captures = game.current_state().unwrap().captures();
    assert_eq!(captures.white, 0);
    assert_eq!(captures.black, 0);
}

#[test]
fn it_can_create_new_game_from_sgf_with_added_stones() {
    let game = game_of("(;SZ[19]W[ba];W[ab]AB[aa])");
    assert_eq!(game.count_nodes(), 2);
    let state = game.current_state().unwrap();
    assert!(!state.is_valid());
    let captures = state.captures();
    assert_eq!(captures.white, 0);
    assert_eq!(captures.black, 0);
}

#[test]
fn it_can_play_a_variant_move() {
    let mut game = game_of("(;SZ[19]B[ba];W[ab])");
    let var_root = game.play_move_as_variation((1, 1).into(), Color::Black, 0).unwrap();
    let _ = game.play_move_as_variation((4, 4).into(), Color::Black, var_root);
    assert_eq!(game.count_nodes(), 4);
    assert_eq!(game.nodes[0].children.len(), 2);
    assert_eq!(game.nodes[1].children.len(), 0);
    assert_eq!(game.nodes[2].children.len(), 1);
    assert_eq!(game.nodes[3].children.len(), 0);
}

#[test]
fn it_can_create_new_game_from_sgf_with_variation() {
    let game = game_of("(;SZ[19]B[aa];W[bb](;B[cc])(;B[kk];W[qq]))");
    assert_eq!(game.count_nodes(), 5);
    assert_eq!(game.nodes[0].children.len(), 1);
    assert_eq!(game.nodes[1].children.len(), 2);
    assert_eq!(game.nodes[2].children.len(), 0);
    assert_eq!(game.nodes[3].children.len(), 1);
    assert_eq!(game.nodes[4].children.len(), 0);
}

#[test]
fn it_stores_all_tokens() {
    let game = game_of("(;SZ[19]W[ba]C[foobar];W[ab]AB[ca];CR[2019]B[ee])");
    assert_eq!(game.count_nodes(), 3);

    let node = game.get_node(0).unwrap();
    assert_eq!(node.tokens.len(), 3);

    let node = game.get_node(1).unwrap();
    assert_eq!(node.tokens.len(), 2);

    let node = game.get_node(2).unwrap();
    assert_eq!(node.tokens.len(), 2);
}

#[test]
fn it_can_parse_sgf_string() {
    let game = game_of("(;SZ[19]W[ba]C[foobar];W[ab]AB[ca];CR[2019]B[ee])");
    assert_eq!(game.count_nodes(), 3);
}

#[test]
fn variations_keep_their_own_boards() {
    let mut game = GameTree::new(5, 5);
    let first = game.play_move((1, 1).into(), Color::Black).unwrap();
    let a = game.play_move_as_variation((2, 2).into(), Color::White, first).unwrap();
    let b = game.play_move_as_variation((3, 3).into(), Color::White, first).unwrap();
    assert_eq!(game.nodes[first].children, vec![a, b]);
    let sa = game.nodes[a].state.as_ref().unwrap();
    let sb = game.nodes[b].state.as_ref().unwrap();
    assert_eq!(sa.get_stone((2, 2).into()), Some(Color::White));
    assert_eq!(sa.get_stone((3, 3).into()), None);
    assert_eq!(sb.get_stone((3, 3).into()), Some(Color::White));
    assert_eq!(sb.get_stone((2, 2).into()), None);
}

#[test]
fn moves_need_a_board() {
    let mut game = GameTree::default();
    let err = game.play_move((1, 1).into(), Color::Black);
    assert_eq!(err.unwrap_err().kind, BadukErrorKind::MissingGoBoard);
    let err = game.add_stone((1, 1).into(), Color::Black);
    assert_eq!(err.unwrap_err().kind, BadukErrorKind::MissingGoBoard);
    assert_eq!(game.count_nodes(), 1);
}

#[test]
fn size_is_set_on_the_root_only() {
    let mut game = GameTree::default();
    assert_eq!(game.set_size(9, 9, 0).unwrap(), 0);
    let child = game.play_move((1, 1).into(), Color::Black).unwrap();
    let err = game.set_size(9, 9, child);
    assert_eq!(err.unwrap_err().kind, BadukErrorKind::InvalidRootNode);
    let err = game.set_size(u32::MAX, 2, 0);
    assert_eq!(err.unwrap_err().kind, BadukErrorKind::InvalidInput);
}

#[test]
fn moves_off_the_board_or_on_stones_fail() {
    let mut game = GameTree::new(9, 9);
    let err = game.play_move((10, 1).into(), Color::Black);
    assert_eq!(err.unwrap_err().kind, BadukErrorKind::InvalidPosition(Position(10, 1)));
    let _ = game.play_move((1, 1).into(), Color::Black);
    let err = game.play_move((1, 1).into(), Color::White);
    assert_eq!(err.unwrap_err().kind, BadukErrorKind::AlreadyOccupied(Position(1, 1)));
    assert_eq!(game.count_nodes(), 2);
}

#[test]
fn other_tokens_are_kept_verbatim() {
    let mut game = GameTree::new(9, 9);
    let token = Token::Other { key: "C".to_string(), value: "hello".to_string() };
    assert_eq!(game.parse_sgf_token(&token, 0).unwrap(), 0);
    assert_eq!(game.nodes[0].tokens.len(), 2);
    match &game.nodes[0].tokens[1] {
        Token::Other { key, value } => {
            assert_eq!(key, "C");
            assert_eq!(value, "hello");
        }
        _ => assert!(false),
    }
}
