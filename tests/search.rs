use veritas::arena::Handle;
use veritas::batching::{batch_capacity, batch_input};
use veritas::datagen::{csv_bits, csv_counts_of, feature_bits, push_decimal, random_opening, value_target_of, GameRecord};
use veritas::engine::{isqrt, terminal_value_of, Engine, SearchResults};
use veritas::game::{move_is_legal, tensor_dims, GameImpl, Player};
use veritas::node::{Node, VALUE_ONE, WEIGHT_MAX};
use veritas::params::Params;
use veritas::tictactoe::{format_move, parse_move, Cell, TicTacToe};
use veritas::timemgmt::Limits;

/// A position from nine digits (0 empty, 1 first player, 2 second) and the
/// side to move, which is the first player when the marks are even.
fn board(text: &str) -> TicTacToe {
    let mut cells = [0u8; 9];
    for (i, b) in text.bytes().enumerate() {
        cells[i] = b - b'0';
    }
    let n = cells.iter().filter(|&&c| c != 0).count();
    TicTacToe::from_cells(cells, n % 2 == 0)
}

fn cells(pos: &TicTacToe) -> Vec<u8> {
    (0..9).map(|i| pos.cell(i)).collect()
}

/// Runs one search of `engine`, with a stub network: uniform policy and
/// value one half.
fn go<G: GameImpl>(engine: &mut Engine<G>) -> Option<SearchResults<G>> {
    let uniform = vec![WEIGHT_MAX; G::policy_dim()];
    engine.begin_search();
    if let Some(_) = engine.request() {
        engine.supply(&uniform, VALUE_ONE / 2);
    }
    while engine.keep_searching() {
        if let Some(_) = engine.request() {
            engine.supply(&uniform, VALUE_ONE / 2);
        }
        engine.end_iteration();
    }
    engine.results()
}

fn engine_with<G: GameImpl>(limits: Limits, root: &G) -> Engine<G> {
    Engine::new(Params::default(), limits, root)
}

#[test]
fn go_nodes_one_from_start() {
    let mut engine = engine_with(Limits::nodes(1), &TicTacToe::start());
    engine.set_position(&TicTacToe::start());
    let res = go(&mut engine).expect("one child after one iteration");
    assert!(move_is_legal(&TicTacToe::start(), &res.best_move));
    assert_eq!(res.root_dist.len(), 9);
    let nonzero: Vec<u64> = res.root_dist.iter().copied().filter(|&v| v != 0).collect();
    assert_eq!(nonzero, vec![1]);
    assert_eq!(res.root_dist.iter().sum::<u64>(), 1);
}

#[test]
fn go_nodes_zero_gives_no_move() {
    let mut engine = engine_with(Limits::nodes(0), &TicTacToe::start());
    assert!(go(&mut engine).is_none());
    // only the root was evaluated
    assert_eq!(engine.tree_size(), 1);
}

#[test]
fn puct_tie_break_prefers_lowest_edge() {
    let mut engine = engine_with(Limits::nodes(1), &TicTacToe::start());
    let res = go(&mut engine).unwrap();
    assert_eq!(res.best_move, Cell(0));
    assert_eq!(res.root_dist, vec![1, 0, 0, 0, 0, 0, 0, 0, 0]);
    engine.set_position(&TicTacToe::start());
    engine.set_limits(Limits::nodes(2));
    let res = go(&mut engine).unwrap();
    assert_eq!(res.root_dist, vec![1, 1, 0, 0, 0, 0, 0, 0, 0]);
    assert_eq!(res.best_move, Cell(0));
}

#[test]
fn dist_length_is_policy_dim() {
    let mut engine = engine_with(Limits::nodes(50), &TicTacToe::start());
    let res = go(&mut engine).unwrap();
    assert_eq!(res.root_dist.len(), TicTacToe::policy_dim());
    // every iteration but the root's own evaluation went through a child
    assert_eq!(res.root_dist.iter().sum::<u64>(), 50);
}

#[test]
fn finds_immediate_win() {
    // X X . / O O . / . . . with X to move
    let pos = board("110220000");
    let mut engine = engine_with(Limits::nodes(300), &pos);
    let res = go(&mut engine).unwrap();
    assert_eq!(res.best_move, Cell(2));
    let mut after = pos;
    after.make_move(res.best_move);
    assert_eq!(after.outcome(), Some(Player::First));
    assert!(engine.root_winrate().is_some());
}

#[test]
fn finished_root_has_no_move() {
    let pos = board("111220000");
    let mut engine = engine_with(Limits::nodes(10), &pos);
    assert!(go(&mut engine).is_none());
}

#[test]
fn stop_request_ends_infinite_search() {
    let mut engine = engine_with(Limits::infinite(), &TicTacToe::start());
    let uniform = vec![WEIGHT_MAX; 9];
    engine.begin_search();
    let mut iterations = 0u64;
    while engine.keep_searching() {
        if engine.request().is_some() {
            engine.supply(&uniform, VALUE_ONE / 2);
        }
        if engine.end_iteration() && iterations >= 2000 {
            engine.checkpoint(0, true);
        }
        iterations += 1;
    }
    assert!(iterations <= 2000 + 1024 + 1);
}

#[test]
fn principal_variation_starts_with_best_move() {
    let mut engine = engine_with(Limits::nodes(100), &TicTacToe::start());
    let res = go(&mut engine).unwrap();
    let pv = engine.principal_variation();
    assert!(!pv.is_empty());
    assert_eq!(pv[0], res.best_move);
}

#[test]
fn expand_normalises_priors() {
    let mut node: Node<TicTacToe> = Node::new(Handle::null(), 0);
    let mut policy = vec![0u64; 9];
    policy[0] = 3_000;
    policy[4] = 1_000;
    node.expand(&TicTacToe::start(), &policy);
    let edges = node.edges().unwrap();
    assert_eq!(edges.len(), 9);
    assert_eq!(edges[0].probability(), 750_000_000);
    assert_eq!(edges[4].probability(), 250_000_000);
    assert_eq!(edges[1].probability(), 0);
    let total: u64 = edges.iter().map(|e| e.probability()).sum();
    assert_eq!(total, 1_000_000_000);
}

#[test]
fn expand_with_zero_policy_is_uniform() {
    let mut node: Node<TicTacToe> = Node::new(Handle::null(), 0);
    node.expand(&TicTacToe::start(), &vec![0; 9]);
    let edges = node.edges().unwrap();
    assert_eq!(edges.len(), 9);
    assert!(edges.iter().all(|e| e.probability() == 111_111_111));
    assert!(!node.is_terminal());
}

#[test]
fn expand_marks_finished_games() {
    let mut node: Node<TicTacToe> = Node::new(Handle::null(), 0);
    node.expand(&board("111220000"), &vec![1; 9]);
    assert!(node.is_terminal());
    assert_eq!(node.edges().unwrap().len(), 0);
}

#[test]
fn add_visit_accumulates() {
    let mut node: Node<TicTacToe> = Node::new(Handle::null(), 3);
    node.add_visit(VALUE_ONE);
    node.add_visit(0);
    assert_eq!(node.visits(), 2);
    assert_eq!(node.wl(), VALUE_ONE);
    assert_eq!(node.winrate(), VALUE_ONE / 2);
    assert_eq!(node.edge_index(), 3);
    assert!(node.first_child().is_null());
    assert!(node.non_null_parent(&[]).is_none());
}

#[test]
fn terminal_values() {
    // X has three in a row; O to move: the player who moved in won
    let won = board("111220000");
    assert_eq!(terminal_value_of(&won), VALUE_ONE);
    let draw = board("121121212");
    assert_eq!(draw.outcome(), Some(Player::Neither));
    assert_eq!(terminal_value_of(&draw), VALUE_ONE / 2);
}

#[test]
fn integer_square_root() {
    assert_eq!(isqrt(0), 0);
    assert_eq!(isqrt(3), 1);
    assert_eq!(isqrt(4), 2);
    assert_eq!(isqrt(2_000_000), 1414);
    assert_eq!(isqrt(u64::MAX), 4_294_967_295);
}

#[test]
fn handles() {
    let h = Handle::null();
    assert!(h.is_null());
    let mem = [1, 2, 3];
    let k = Handle::from_index(2, &mem);
    assert!(!k.is_null());
    assert_eq!(k.index(), 2);
    assert_ne!(h, k);
}

#[test]
fn legality_and_dims() {
    let start = TicTacToe::start();
    assert!(move_is_legal(&start, &Cell(4)));
    let mut after = start;
    after.make_move(Cell(4));
    assert!(!move_is_legal(&after, &Cell(4)));
    assert_eq!(tensor_dims::<TicTacToe>(5), vec![5, 18]);
    assert_eq!(Player::First.opposite(), Player::Second);
    assert_eq!(Player::Neither.opposite(), Player::Neither);
}

#[test]
fn rows_render() {
    let pos = board("100020000");
    let bits = feature_bits(&pos);
    assert_eq!(bits.iter().filter(|&&b| b == 1).count(), pos.feature_indices().len());
    assert_eq!(bits[0], 1);
    assert_eq!(bits[9 + 4], 1);
    assert_eq!(csv_bits(&vec![0, 1, 1]), b"0,1,1".to_vec());
    assert_eq!(csv_counts_of(&vec![12, 0, 305]), b"12.000,0.000,305.000".to_vec());
    assert_eq!(csv_counts_of(&vec![]), b"".to_vec());
    let mut out = b"x".to_vec();
    push_decimal(&mut out, 9070);
    assert_eq!(out, b"x9070".to_vec());
    assert_eq!(value_target_of(Player::Neither, Player::First), b"0.5".to_vec());
    assert_eq!(value_target_of(Player::First, Player::First), b"1.0".to_vec());
    assert_eq!(value_target_of(Player::First, Player::Second), b"0.0".to_vec());
}

#[test]
fn self_play_rows_follow_the_result() {
    let mut engine = engine_with(Limits::nodes(30), &TicTacToe::start());
    let mut record = GameRecord::new(&TicTacToe::start());
    while !record.finish() {
        engine.set_position(&record.position());
        let res = go(&mut engine).unwrap();
        assert_eq!(res.root_dist.len(), TicTacToe::policy_dim());
        record.play(res.best_move, res.root_dist);
    }
    let outcome = record.outcome().unwrap();
    let rows = record.rows();
    assert_eq!(rows.len(), record.len());
    for (ply, row) in rows.iter().enumerate() {
        let mover = if ply % 2 == 0 { Player::First } else { Player::Second };
        let want: &[u8] = if outcome == Player::Neither {
            b"0.5"
        } else if outcome == mover {
            b"1.0"
        } else {
            b"0.0"
        };
        assert_eq!(row.value, want.to_vec());
        // one mark per ply played so far
        let ones = row.positions.iter().filter(|&&c| c == b'1').count();
        assert_eq!(ones, ply);
        assert_eq!(row.positions.len(), 2 * 18 - 1);
        assert!(row.policy.ends_with(b".000"));
    }
}

#[test]
fn drawn_game_rows_are_halves() {
    let mut record = GameRecord::new(&TicTacToe::start());
    // 1 2 1 / 1 2 2 / 2 1 1: a draw
    for c in [0usize, 1, 2, 4, 3, 5, 7, 6, 8] {
        record.play(Cell(c), vec![0; 9]);
    }
    assert!(record.finish());
    assert_eq!(record.outcome(), Some(Player::Neither));
    for row in record.rows() {
        assert_eq!(row.value, b"0.5".to_vec());
    }
}

#[test]
fn replay_reaches_final_position() {
    let mut record = GameRecord::new(&TicTacToe::start());
    for c in [4usize, 0, 8, 2, 1, 7] {
        record.play(Cell(c), vec![0; 9]);
    }
    let moves: Vec<Cell> = [4usize, 0, 8, 2, 1, 7].iter().map(|&c| Cell(c)).collect();
    let replayed = veritas::datagen::replay_moves(&record.root(), &moves);
    assert_eq!(cells(&replayed), cells(&record.position()));
    assert!(!record.finish());
}

#[test]
fn winner_rows_score_each_side() {
    let mut record = GameRecord::new(&TicTacToe::start());
    for c in [0usize, 3, 1, 4, 2] {
        record.play(Cell(c), vec![0; 9]);
    }
    assert!(record.finish());
    assert_eq!(record.outcome(), Some(Player::First));
    let rows = record.rows();
    let values: Vec<Vec<u8>> = rows.into_iter().map(|r| r.value).collect();
    assert_eq!(
        values,
        vec![b"1.0".to_vec(), b"0.0".to_vec(), b"1.0".to_vec(), b"0.0".to_vec(), b"1.0".to_vec()]
    );
}

#[test]
fn batch_rows() {
    assert_eq!(batch_capacity(4), 4);
    assert_eq!(batch_capacity(1), 1);
    assert_eq!(batch_capacity(5000), 1024);
    let boards = vec![TicTacToe::start(), board("100000000")];
    let rows = batch_input(&boards, 4);
    assert_eq!(rows.len(), 4);
    assert!(rows.iter().all(|r| r.len() == 18));
    assert!(rows[0].iter().all(|&b| b == 0));
    // second player to move: the first player's mark is the other side's
    assert_eq!(rows[1][9], 1);
    assert_eq!(rows[1].iter().filter(|&&b| b == 1).count(), 1);
    assert!(rows[3].iter().all(|&b| b == 0));
}

#[test]
fn visits_add_up_after_search() {
    let mut engine = engine_with(Limits::nodes(64), &TicTacToe::start());
    let res = go(&mut engine).unwrap();
    // the root's own evaluation plus one visit per iteration through a child
    assert_eq!(res.root_dist.iter().sum::<u64>() + 1, 65);
    assert!(engine.root_winrate().unwrap() <= VALUE_ONE);
}

#[test]
fn random_opening_plays_legal_plies() {
    let mut rng = rand::thread_rng();
    for _ in 0..50 {
        let pos = random_opening(&TicTacToe::start(), &mut rng);
        let marks = cells(&pos).iter().filter(|&&c| c != 0).count();
        // eight or nine plies, fewer only when the game ended first
        if pos.outcome().is_none() {
            assert!(marks == 8 || marks == 9);
        } else {
            assert!((5..=9).contains(&marks));
        }
        let firsts = cells(&pos).iter().filter(|&&c| c == 1).count();
        let seconds = cells(&pos).iter().filter(|&&c| c == 2).count();
        assert!(firsts == seconds || firsts == seconds + 1);
    }
}

#[test]
fn move_and_position_text() {
    assert_eq!(format_move(&Cell(0)), b"a1".to_vec());
    assert_eq!(format_move(&Cell(5)), b"c2".to_vec());
    assert_eq!(parse_move("b3"), Some(Cell(7)));
    assert_eq!(parse_move("d1"), None);
    assert_eq!(parse_move("a1 "), None);
    let pos = board("120000000");
    assert_eq!(pos.fen(), b"120000000 x".to_vec());
    let back = TicTacToe::parse_fen("120000000 x").unwrap();
    assert_eq!(cells(&back), cells(&pos));
    assert_eq!(back.to_move(), Player::First);
    let implied = TicTacToe::parse_fen("100000000").unwrap();
    assert_eq!(implied.to_move(), Player::Second);
    assert!(TicTacToe::parse_fen("130000000").is_none());
    assert!(TicTacToe::parse_fen("12000000").is_none());
    assert!(TicTacToe::parse_fen("120000000 z").is_none());
    assert_eq!(board("120000002").render(), b"..O\n...\nXO.\n".to_vec());
}

#[test]
fn principal_variation_ties_go_to_lowest_edge() {
    // after two iterations the root's children for edges 0 and 1 have one
    // visit each; the line takes edge 0, whose child has no child yet
    let mut engine = engine_with(Limits::nodes(2), &TicTacToe::start());
    go(&mut engine).unwrap();
    let pv = engine.principal_variation();
    assert_eq!(pv, vec![Cell(0)]);
}
