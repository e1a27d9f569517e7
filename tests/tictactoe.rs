use poker_cfr::tictactoe::{Board, GameError, SolutionTable, Tile, BOARD_SIZE};

const WIN_LINES: [u16; 8] = [
    0b111_000_000,
    0b000_111_000,
    0b000_000_111,
    0b100_100_100,
    0b010_010_010,
    0b001_001_001,
    0b100_010_001,
    0b001_010_100,
];

#[test]
fn test_board_get() {
    for index in 0..BOARD_SIZE {
        let board_x = Board {
            occupied: 1 << index,
            player: 1 << index,
        };
        let board_o = Board {
            occupied: 1 << index,
            player: !0 & !(1 << index),
        };

        for j in 0..BOARD_SIZE {
            let result = board_x.get(j);
            assert!(result.is_ok());
            match index == j {
                false => assert_eq!(result.unwrap(), Tile::Empty),
                true => assert_eq!(result.unwrap(), Tile::X),
            }

            let result = board_o.get(j);
            assert!(result.is_ok());
            match index == j {
                false => assert_eq!(result.unwrap(), Tile::Empty),
                true => assert_eq!(result.unwrap(), Tile::O),
            }
        }

        assert!(board_x.get(BOARD_SIZE + 1).is_err());
    }
}

#[test]
fn test_board_format() {
    let board = Board::default();
    let str: String = board.render();
    assert_eq!(str, "0|1|2\n-----\n3|4|5\n-----\n6|7|8\n");

    let board = Board {
        occupied: 1,
        player: 1,
    };
    let str: String = board.render();
    assert_eq!(str, "X|1|2\n-----\n3|4|5\n-----\n6|7|8\n");

    let board = Board {
        occupied: 1 << 5,
        player: 0,
    };
    let str: String = board.render();
    assert_eq!(str, "0|1|2\n-----\n3|4|O\n-----\n6|7|8\n");
}

#[test]
fn test_board_turn() {
    let board = Board::default();
    assert_eq!(board.turn(), Tile::X);

    let board = Board {
        occupied: 1,
        player: 1,
    };
    assert_eq!(board.turn(), Tile::O);

    let board = Board {
        occupied: 3,
        player: 1,
    };
    assert_eq!(board.turn(), Tile::X);
}

#[test]
fn test_board_set() {
    let mut board = Board::default();
    assert!(board.set(0, Tile::X).is_ok());
    assert_eq!(board.get(0).expect("Unable to get tile 0"), Tile::X);

    assert!(board.set(1, Tile::X).is_ok());
    assert_eq!(board.get(1).expect("Unable to get tile 1"), Tile::X);

    assert!(board.set(0, Tile::O).is_ok());
    assert_eq!(board.get(0).expect("Unable to get tile 0"), Tile::O);
}

#[test]
fn test_board_invariant_hash() {
    // Default position hashes to 0
    assert_eq!(Board::default().invariant_hash(), 0);
    // Adding a tile changes hash
    assert_ne!(
        Board::default().invariant_hash(),
        Board {
            occupied: 0b100_000_000,
            player: 0
        }
        .invariant_hash()
    );
    assert_ne!(
        Board::default().invariant_hash(),
        Board {
            occupied: 0b100_000_000,
            player: 0b100_000_000
        }
        .invariant_hash()
    );
    // Player matters
    assert_ne!(
        Board {
            occupied: 0b010_000_000,
            player: 0
        }
        .invariant_hash(),
        Board {
            occupied: 0b010_000_000,
            player: 0b010_000_000
        }
        .invariant_hash()
    );
    // Position matters
    assert_ne!(
        Board {
            occupied: 0b010_000_000,
            player: 0
        }
        .invariant_hash(),
        Board {
            occupied: 0b100_000_000,
            player: 0
        }
        .invariant_hash()
    );
    // Reflection and rotation invariant
    assert_eq!(
        Board {
            occupied: 0b100_000_000,
            player: 0
        }
        .invariant_hash(),
        Board {
            occupied: 0b001_000_000,
            player: 0
        }
        .invariant_hash()
    );
    assert_eq!(
        Board {
            occupied: 0b100_000_000,
            player: 0
        }
        .invariant_hash(),
        Board {
            occupied: 0b000_000_001,
            player: 0
        }
        .invariant_hash()
    );
    // More complicated positions
    assert_eq!(
        Board {
            occupied: 0b110_000_000,
            player: 0b100_000_000
        }
        .invariant_hash(),
        Board {
            occupied: 0b011_000_000,
            player: 0b001_000_000
        }
        .invariant_hash()
    );
}

#[test]
fn test_board_winner() {
    assert_eq!(Board::default().winner(), Tile::Empty);
    for line in WIN_LINES {
        let board = Board {
            occupied: line,
            player: line,
        };
        assert_eq!(board.winner(), Tile::X);

        let board = Board {
            occupied: line,
            player: !line,
        };
        assert_eq!(board.winner(), Tile::O);
    }
}

#[test]
fn test_board_valid_moves() {
    assert_eq!(
        Board::default().valid_moves(),
        (0..BOARD_SIZE).collect::<Vec<_>>()
    );
    for i in 0..BOARD_SIZE {
        assert_eq!(
            Board {
                occupied: !(1 << i),
                player: 0
            }
            .valid_moves(),
            vec![i]
        );
    }
}

#[test]
fn test_solver() {
    let mut solver = SolutionTable::default();
    assert_eq!(solver.eval_recursive(&Board::default()), 0); // Theoretical draw
    assert_eq!(solver.len(), 765);

    assert_eq!(
        solver.eval_recursive(&Board {
            occupied: 0b110_000_000,
            player: 0b100_000_000
        }),
        3 // Win for X
    );
}

#[test]
fn act_places_the_mark_of_the_player_to_move() {
    let mut board = Board::default();
    assert_eq!(board.act(4), Ok(()));
    assert_eq!(board.get(4), Ok(Tile::X));
    assert_eq!(board.act(0), Ok(()));
    assert_eq!(board.get(0), Ok(Tile::O));
    assert_eq!(board.turn(), Tile::X);
}

#[test]
fn act_refuses_taken_and_outside_tiles() {
    let mut board = Board::default();
    assert_eq!(board.act(4), Ok(()));
    let before = board;
    assert_eq!(board.act(4), Err(GameError::InvalidMoveError));
    assert_eq!(board, before);
    assert_eq!(board.act(10), Err(GameError::OutOfBoundsError));
    assert_eq!(board, before);
    assert_eq!(board.set(11, Tile::X), Err(GameError::OutOfBoundsError));
}

#[test]
fn tile_text_and_hash() {
    assert_eq!(Tile::X.str(None), "X");
    assert_eq!(Tile::O.str(Some("3")), "O");
    assert_eq!(Tile::Empty.str(None), " ");
    assert_eq!(Tile::Empty.str(Some("7")), "7");
    assert_eq!(Tile::Empty.hash(), 0);
    assert_eq!(Tile::X.hash(), 1);
    assert_eq!(Tile::O.hash(), 2);
}

#[test]
fn invariant_hash_reads_base_three() {
    // X alone in the centre: only digit 4 is set, 1 * 3^4 under every symmetry.
    let board = Board {
        occupied: 1 << 4,
        player: 1 << 4,
    };
    assert_eq!(board.invariant_hash(), 81);
    // O in a corner: the least reading puts it in the last tile.
    let board = Board {
        occupied: 1,
        player: 0,
    };
    assert_eq!(board.invariant_hash(), 2);
}

#[test]
fn full_board_without_line_is_a_draw() {
    // X O X / X O O / O X X
    let occupied: u16 = 0b111_111_111;
    let x_tiles: u16 = (1 << 0) | (1 << 2) | (1 << 3) | (1 << 7) | (1 << 8);
    let board = Board {
        occupied,
        player: x_tiles,
    };
    assert_eq!(board.winner(), Tile::Empty);
    assert!(board.valid_moves().is_empty());
    let mut solver = SolutionTable::new();
    assert_eq!(solver.eval_recursive(&board), 0);
    assert_eq!(solver.len(), 1);
}

#[test]
fn solver_takes_the_winning_tile() {
    // X on 0 and 1, O on 3 and 4: X to move wins on 2.
    let board = Board {
        occupied: 0b000_011_011,
        player: 0b000_000_011,
    };
    let mut solver = SolutionTable::new();
    assert_eq!(solver.solve(&board), 2);
    // A won position is worth one more than the empty tiles left.
    let won = Board {
        occupied: 0b000_011_111,
        player: 0b000_000_111,
    };
    assert_eq!(solver.eval_recursive(&won), 5);
}
