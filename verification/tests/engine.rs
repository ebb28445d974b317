use tetris_core::moves::moves_for_kind;
use tetris_core::pieces::{Action, Color, Mask};
use tetris_core::pos::check_collision;
use tetris_core::pos::Position;
use tetris_core::transposition::TranspositionTable;
use tetris_core::zobrist::Zobrist;
use tetris_core::EngineError;

fn empty_board() -> Vec<Vec<Color>> {
    tetris_core::grid::new_empty_board()
}

fn occupied_count(p: &Position) -> usize {
    let mut n = 0;
    for row in p.board.iter() {
        for c in row.iter() {
            if !matches!(c, Color::Empty) {
                n += 1;
            }
        }
    }
    n
}

#[test]
fn test_empty_tpn() {
    let pos = Position::default();
    assert_eq!(
        pos.to_string(),
        format!(
            "////////////////////// {} {} 0",
            pos.current_piece.letter(),
            pos.next_piece.letter()
        )
    );
}

#[test]
fn test_hash_empty() {
    let z = Zobrist::new();
    let pos1 = Position::default();
    let pos2 = Position::parse(&z, &pos1.to_string()).unwrap();

    assert!(pos1.hash == pos2.hash)
}

#[test]
fn test_get_set() {
    let mut tt: TranspositionTable<f64> = TranspositionTable::new(10);

    tt.set(3, 22.);

    assert_eq!(tt.get(3), Some(22.));
    assert_eq!(tt.get(13), None);
    assert_eq!(tt.get(1), None);
}

#[test]
fn transposition_collision_is_a_miss() {
    let mut tt: TranspositionTable<i64> = TranspositionTable::new(10);
    // 3 and 13 share slot 3 of 10 but differ as hashes.
    tt.set(3, 30);
    tt.set(13, 130);
    assert_eq!(tt.get(3), None);
    assert_eq!(tt.get(13), Some(130));
}

#[test]
fn serialize_round_trip_nonempty() {
    let z = Zobrist::new();
    let base = Position::default();
    // Drop an I piece flat on the floor, then re-parse the encoding.
    let p = base.apply_move(&z, Color::I, 0, 21, 0, false).unwrap();
    let s = p.to_string();
    let q = Position::parse(&z, &s).unwrap();
    assert_eq!(q.board, p.board);
    assert_eq!(q.current_piece, p.current_piece);
    assert_eq!(q.next_piece, p.next_piece);
    assert_eq!(q.score, p.score);
    assert_eq!(q.hash, p.hash);
    assert_eq!(q.min_y, p.min_y);
}

#[test]
fn parse_rejects_malformed() {
    let z = Zobrist::new();
    // Too few tokens.
    assert!(matches!(
        Position::parse(&z, "////"),
        Err(EngineError::MalformedEncoding)
    ));
    assert!(matches!(
        Position::parse(&z, "/// I J"),
        Err(EngineError::MalformedEncoding)
    ));
    // Illegal board character.
    assert!(matches!(
        Position::parse(&z, "X/// I J 0"),
        Err(EngineError::MalformedEncoding)
    ));
    // The unresolved sentinel is not a board cell.
    assert!(matches!(
        Position::parse(&z, "?/// I J 0"),
        Err(EngineError::MalformedEncoding)
    ));
    // Unparsable scores.
    assert!(matches!(
        Position::parse(&z, "/// I J x1"),
        Err(EngineError::MalformedEncoding)
    ));
    assert!(matches!(
        Position::parse(&z, "/// I J 99999999999999999999"),
        Err(EngineError::MalformedEncoding)
    ));
    // A row written past the board edge.
    assert!(matches!(
        Position::parse(&z, "9II/// I J 0"),
        Err(EngineError::MalformedEncoding)
    ));
}

#[test]
fn parse_accepts_pieces_and_score() {
    let z = Zobrist::new();
    let p = Position::parse(&z, "////////////////////// T ? 1200").unwrap();
    assert_eq!(p.current_piece, Color::T);
    assert_eq!(p.next_piece, Color::Random);
    assert_eq!(p.score, 1200);
    assert_eq!(p.last_piece, Color::Empty);
    let q = Position::parse(&z, "////////////////////// Z S -7").unwrap();
    assert_eq!(q.score, -7);
}

#[test]
fn scenario_i_piece_on_floor() {
    // Empty board; a vertical I locks against the floor in column 3 and
    // fills exactly rows 18..=21 there; the score is unchanged and the
    // position is not terminal.
    let z = Zobrist::new();
    let pos = Position::default();
    let next = pos.apply_move(&z, Color::I, 3, 18, 1, false).expect("not terminal");
    assert_eq!(occupied_count(&next), 4);
    for y in 18..22 {
        assert_eq!(next.board[y][3], Color::I);
    }
    assert_eq!(next.score, 0);
    assert_eq!(next.min_y, 18);
}

#[test]
fn scenario_single_line_clear() {
    // A board whose bottom row misses exactly the cell of column 3; a
    // vertical I dropped there completes it: one line clears, the score
    // gains 40, the completed row disappears, the rows above shift down
    // one, and the new top row is empty.
    let z = Zobrist::new();
    // Bottom row: three cells, the gap at column 3, then six more cells.
    let tpn = "/////////////////////TTT1TTTTTT/ I J 0";
    let pos = Position::parse(&z, tpn).unwrap();
    let next = pos.apply_move(&z, Color::I, 3, 18, 1, false).expect("not terminal");
    assert_eq!(next.score, 40);
    // The cleared bottom row is replaced by what was above it: the three
    // remaining cells of the I, now shifted one row down.
    assert_eq!(occupied_count(&next), 3);
    for y in 19..22 {
        assert_eq!(next.board[y][3], Color::I);
    }
    for x in 0..10 {
        assert_eq!(next.board[0][x], Color::Empty);
        if x != 3 {
            assert_eq!(next.board[21][x], Color::Empty);
        }
    }
}

#[test]
fn line_clear_scores() {
    // Clearing k lines in one placement adds 0, 40, 100, 300 or 1200.
    let z = Zobrist::new();
    // Four rows, each missing only column 0; a vertical I at column 0
    // clears all four at once.
    let tpn = "//////////////////1TTTTTTTTT/1TTTTTTTTT/1TTTTTTTTT/1TTTTTTTTT/ I J 0";
    let pos = Position::parse(&z, tpn).unwrap();
    let next = pos.apply_move(&z, Color::I, 0, 18, 1, false).expect("not terminal");
    assert_eq!(next.score, 1200);
    assert_eq!(occupied_count(&next), 0);

    // Two of them cleared by half of the same column.
    let tpn2 = "////////////////////1TTTTTTTTT/1TTTTTTTTT/ I J 0";
    let pos2 = Position::parse(&z, tpn2).unwrap();
    let next2 = pos2.apply_move(&z, Color::I, 0, 18, 1, false).expect("not terminal");
    assert_eq!(next2.score, 100);
    assert_eq!(occupied_count(&next2), 2);
}

#[test]
fn game_over_is_reported() {
    // Column 0 filled from row 4 down; a vertical I on top of it ends in
    // the top two rows, which is game over, not a successor.
    let z = Zobrist::new();
    let mut body = String::from("////");
    for _ in 4..22 {
        body.push_str("I9/");
    }
    body.push_str(" I J 0");
    let pos = Position::parse(&z, &body).unwrap();
    let r = pos.apply_move(&z, Color::I, 0, 0, 1, false);
    assert!(r.is_none());
}

#[test]
fn legal_moves_empty_board_i_piece() {
    let board = empty_board();
    let moves = moves_for_kind(&board, Color::I);
    // Flat: 7 columns on the floor; upright: 10 columns ending at row 18.
    assert_eq!(moves.len(), 17);
    assert_eq!(moves[0], (Color::I, 0, 21, 0));
    assert_eq!(moves[6], (Color::I, 6, 21, 0));
    assert_eq!(moves[7], (Color::I, 0, 18, 1));
    assert_eq!(moves[16], (Color::I, 9, 18, 1));
}

#[test]
fn legal_moves_groups_unresolved_piece() {
    let pos = Position::parse(&Zobrist::new(), "////////////////////// ? ? 0").unwrap();
    let groups = pos.legal_moves();
    assert_eq!(groups.len(), 7);
    // Group order is I, O, J, L, S, T, Z.
    assert_eq!(groups[0][0].0, Color::I);
    assert_eq!(groups[1][0].0, Color::O);
    assert_eq!(groups[6][0].0, Color::Z);
    // O has one rotation state and 9 floor placements on an empty board.
    assert_eq!(groups[1].len(), 9);
}

#[test]
fn moves_are_not_over_reported_under_overhang() {
    // An overhang roof over columns 0..=3 at row 18, resting on a column
    // of cells in column 4; the pocket underneath cannot be entered by a
    // flat I, so no flat lock pose under the roof may be reported.
    let z = Zobrist::new();
    let tpn = "//////////////////IIIII/4I/4I/4I/ I J 0";
    let pos = Position::parse(&z, tpn).unwrap();
    let groups = pos.legal_moves();
    for m in groups[0].iter() {
        // No reported flat pose sits fully under the roof.
        assert!(!(m.3 == 0 && m.2 > 18 && m.1 <= 1));
    }
}

#[test]
fn path_reaches_generated_moves() {
    // Every generated move has a synthesized action sequence; the pose a
    // path is requested for must have been judged legal.
    let pos = Position::default();
    let groups = pos.legal_moves();
    assert_eq!(groups.len(), 1);
    assert!(groups[0].len() > 0);
    for m in groups[0].iter() {
        let acts = pos
            .path((m.1 as i32, m.2 as i32, m.3 as i32))
            .expect("a legal move must be reachable");
        assert!(acts.len() > 0);
        assert!(acts.iter().all(|a| !matches!(a, Action::NoMove)));
    }
}

#[test]
fn path_rejects_unreachable_pose() {
    let pos = Position::default();
    // The I piece has two rotation states; state 3 does not exist.
    assert!(matches!(pos.path((0, 0, 3)), Err(EngineError::Unreachable)));
    // A pose inside the floor.
    assert!(matches!(pos.path((0, 30, 0)), Err(EngineError::Unreachable)));
}

#[test]
fn move_generation_and_paths_are_deterministic() {
    let z = Zobrist::new();
    let tpn = "/////////////////1IITTZZSS/JJ8/LL6OO/TTT1TTTTTT/ I J 0";
    let pos = Position::parse(&z, tpn).unwrap();
    let a = pos.legal_moves();
    let b = pos.legal_moves();
    assert_eq!(a, b);
    for m in a[0].iter() {
        let p1 = pos.path((m.1 as i32, m.2 as i32, m.3 as i32));
        let p2 = pos.path((m.1 as i32, m.2 as i32, m.3 as i32));
        assert_eq!(p1, p2);
    }
}

#[test]
fn sampled_pieces_are_always_proper() {
    let pos = Position::default();
    for _ in 0..200 {
        let c = pos.sample();
        assert!(!matches!(c, Color::Empty));
        assert!(!matches!(c, Color::Random));
    }
}

#[test]
fn sample_with_rerolls_repeats() {
    let pos = Position::default();
    // next piece is J (code 3): a roll of 3 or 8 takes the reroll value.
    assert_eq!(pos.sample_with(3, 5), Color::S);
    assert_eq!(pos.sample_with(8, 2), Color::O);
    assert_eq!(pos.sample_with(4, 2), Color::L);
}

#[test]
fn features_counts() {
    let z = Zobrist::new();
    // Column 0: a cell at row 20 with a hole below it at row 21.
    // Column 1: cells at rows 20 and 21.
    let tpn = "////////////////////II8/1I8/ I J 0";
    let pos = Position::parse(&z, tpn).unwrap();
    let f = pos.features();
    assert_eq!(f.holes, 1);
    assert_eq!(f.aggregate_height, 4);
    // Heights: 2, 2, 0, ..., 0.
    assert_eq!(f.bumpiness, 2);
}

#[test]
fn hash_changes_and_restores_with_the_board() {
    let z = Zobrist::new();
    let p0 = Position::default();
    let p1 = p0.apply_move(&z, Color::O, 4, 20, 0, false).unwrap();
    assert_ne!(p0.hash, p1.hash);
    // A board that returns to empty returns to the empty hash.
    let tpn = "/////////////////////TTTT1TTTTT/ I J 0";
    let pos = Position::parse(&z, tpn).unwrap();
    let cleared = pos.apply_move(&z, Color::I, 4, 18, 1, false).unwrap();
    assert_eq!(occupied_count(&cleared), 3);
    let reparsed = Position::parse(&z, &cleared.to_string()).unwrap();
    assert_eq!(reparsed.hash, cleared.hash);
}

#[test]
fn mask_boards_share_the_collision_check() {
    let mut mask: Vec<Vec<Mask>> = (0..22).map(|_| vec![Mask::Unset; 10]).collect();
    // A flat I fits in the empty mask at the origin.
    assert!(!check_collision(&mask, 0, 0, 0, 0));
    mask[0][2] = Mask::Filled;
    assert!(check_collision(&mask, 0, 0, 0, 0));
    // Out of bounds always collides.
    assert!(check_collision(&mask, 0, 0, 7, 0));
}

#[test]
fn apply_with_generated_next_piece() {
    let z = Zobrist::new();
    let pos = Position::default();
    let next = pos.apply_move(&z, Color::I, 0, 21, 0, true).unwrap();
    assert!(!matches!(next.next_piece, Color::Empty));
    assert!(!matches!(next.next_piece, Color::Random));
    assert_eq!(next.current_piece, Color::J);
    assert_eq!(next.last_piece, Color::I);
}

#[test]
fn path_to_rotated_pose_uses_rotations() {
    let pos = Position::default();
    let acts = pos.path((0, 18, 1)).unwrap();
    assert!(acts
        .iter()
        .any(|a| matches!(a, Action::RotateClockwise) || matches!(a, Action::RotateCounterclockwise)));
}

#[test]
fn key_tables_are_reproducible() {
    // The key table comes from a fixed seed, so two tables built in the
    // same build hash a board identically.
    let z1 = Zobrist::new();
    let z2 = Zobrist::new();
    let pos = Position::default();
    let a = pos.apply_move(&z1, Color::T, 3, 20, 0, false).unwrap();
    let b = pos.apply_move(&z2, Color::T, 3, 20, 0, false).unwrap();
    assert_eq!(a.hash, b.hash);
    assert_ne!(a.hash, 0);
}

#[test]
fn path_to_spawn_is_empty_and_primitive() {
    // The I piece spawns at (3, 1, 0); reaching the spawn pose needs no
    // actions, and no synthesized sequence ever contains the idle action.
    let pos = Position::default();
    let acts = pos.path((3, 1, 0)).unwrap();
    assert!(acts.is_empty());
}
