use uttt::ai::AI;
use uttt::board::{Board, Player};
use uttt::elo::{elo_delta, pick_focus, sort_by_distance, update_ratings, Bot};
use uttt::human::HumanPlayer;
use uttt::montecarlo::MonteCarloAI;
use uttt::referee::{ready_outcome, MatchReferee};
use uttt::search::{MaterialEval, SimpleSearchAI};
use uttt::search::Evaluator;
use uttt::uti::{from_coords, info_get, interpret_info_reply, parse_cg_reply, parse_info, to_coords};

#[test]
fn test_parse_info_basic() {
    let map = parse_info("info best_move=40;depth=10;score=123").unwrap();
    assert_eq!(map.len(), 3);
    assert_eq!(map[0], ("best_move".to_string(), "40".to_string()));
    assert_eq!(map[1], ("depth".to_string(), "10".to_string()));
    assert_eq!(map[2], ("score".to_string(), "123".to_string()));
    assert_eq!(info_get(&map, "best_move").unwrap().as_str(), "40");
    assert_eq!(info_get(&map, "depth").unwrap().as_str(), "10");
    assert_eq!(info_get(&map, "score").unwrap().as_str(), "123");
    assert!(info_get(&map, "missing").is_none());
}

#[test]
fn test_parse_info_missing_prefix() {
    let err = parse_info("bestmove=40").unwrap_err();
    assert_eq!(err, "expected command to start with 'info'");
}

#[test]
fn test_parse_info_skips_malformed_tokens() {
    let map = parse_info("info best_move=40;oops;depth=10").unwrap();
    assert_eq!(map.len(), 2);
    assert_eq!(info_get(&map, "best_move").unwrap().as_str(), "40");
    assert_eq!(info_get(&map, "depth").unwrap().as_str(), "10");
}

#[test]
fn test_parse_info_trims_and_overrides() {
    let map = parse_info("info  a = 1 ;a=2").unwrap();
    // A later pair with the same key overrides the earlier one.
    assert_eq!(info_get(&map, "a").unwrap().as_str(), "2");
}

#[test]
fn test_parse_info_strict_mode() {
    let map = uttt::uti::parse_info_strict("info best_move=40;depth=10").unwrap();
    assert_eq!(map.len(), 2);
    let err = uttt::uti::parse_info_strict("info best_move=40;oops").unwrap_err();
    assert_eq!(err, "key-value pair format incorrect");
    let err2 = uttt::uti::parse_info_strict("nope").unwrap_err();
    assert_eq!(err2, "expected command to start with 'info'");
}

#[test]
fn test_interpret_info_reply() {
    assert_eq!(interpret_info_reply("info best_move=40;depth=10;score=123"), 40);
    assert_eq!(interpret_info_reply("info best_move=0"), 0);
    assert_eq!(interpret_info_reply("bestmove=40"), -2);
    assert_eq!(interpret_info_reply("info depth=10"), -2);
    assert_eq!(interpret_info_reply("info best_move=banana"), -2);
    assert_eq!(interpret_info_reply("info best_move="), -2);
    assert_eq!(interpret_info_reply("info best_move=99999999999999999999999"), -2);
}

#[test]
fn test_coords_round_trip() {
    for cell in 0..81usize {
        let (row, col) = to_coords(cell);
        assert!(row < 9 && col < 9);
        assert_eq!(from_coords(row, col), cell);
    }
    assert_eq!(to_coords(43), (5, 4));
    assert_eq!(from_coords(5, 4), 43);
    assert_eq!(to_coords(0), (0, 0));
    assert_eq!(to_coords(80), (8, 8));
}

#[test]
fn test_parse_cg_reply() {
    assert_eq!(parse_cg_reply("5 4"), 43);
    assert_eq!(parse_cg_reply("0 0"), 0);
    assert_eq!(parse_cg_reply("8 8"), 80);
    assert_eq!(parse_cg_reply("5 4 0"), 43);
    assert_eq!(parse_cg_reply("5"), -2);
    assert_eq!(parse_cg_reply("5 4 0 1"), -2);
    assert_eq!(parse_cg_reply("a b"), -2);
    assert_eq!(parse_cg_reply("9 0"), -2);
    assert_eq!(parse_cg_reply(""), -2);
}

#[test]
fn test_parse_cg_reply_whitespace() {
    // Tabs and runs of blanks separate tokens just as spaces do.
    assert_eq!(parse_cg_reply("5\t4"), 43);
    assert_eq!(parse_cg_reply(" 5  4 "), 43);
    assert_eq!(parse_cg_reply("5\t4 0"), 43);
    assert_eq!(parse_cg_reply("\t\t"), -2);
}

#[test]
fn test_check_handshake() {
    assert!(uttt::uti::check_handshake("utiok"));
    assert!(!uttt::uti::check_handshake("utiok extra"));
    assert!(!uttt::uti::check_handshake("UTIOK"));
    assert!(!uttt::uti::check_handshake(""));
}

#[test]
fn test_elo_update_basic() {
    // X (1500, no games) beats O (1500, no games): K = 800/20 = 40,
    // expected score one half, delta = 20 each way.
    let mut bots = vec![
        Bot::new("x", "x.exe", vec![]),
        Bot::new("o", "o.exe", vec![]),
    ];
    let (dx, dy) = update_ratings(&mut bots, 0, 1, Player::X, 500);
    assert_eq!(dx, 20);
    assert_eq!(dy, -20);
    assert_eq!(bots[0].rating, 1520);
    assert_eq!(bots[1].rating, 1480);
    assert_eq!(bots[0].n_games, 1);
    assert_eq!(bots[1].n_games, 1);
}

#[test]
fn test_elo_antisymmetric_concrete() {
    // With equal game counts the two deltas cancel.
    for (a, e) in [(1000, 300), (0, 700), (500, 500), (1000, 0)] {
        let d_x = elo_delta(7, a, e);
        let d_o = elo_delta(7, 1000 - a, 1000 - e);
        assert_eq!(d_x, -d_o);
    }
}

#[test]
fn test_elo_draw_between_unequal() {
    // A draw moves ratings toward each other only through the expected
    // score; equal expectations leave them unchanged.
    let mut bots = vec![
        Bot::new("x", "x", vec![]),
        Bot::new("o", "o", vec![]),
    ];
    let (dx, dy) = update_ratings(&mut bots, 0, 1, Player::DEAD, 500);
    assert_eq!(dx, 0);
    assert_eq!(dy, 0);
}

#[test]
fn test_bot_new() {
    let b = Bot::new("gary", "engine.exe", vec!["0.6".to_string()]);
    assert_eq!(b.name, "gary");
    assert_eq!(b.exe_path, "engine.exe");
    assert_eq!(b.rating, 1500);
    assert_eq!(b.n_games, 0);
    assert_eq!(b.args, vec!["0.6".to_string()]);
}

#[test]
fn test_pick_focus_and_sort() {
    let mut bots = vec![
        Bot::new("a", "a", vec![]),
        Bot::new("b", "b", vec![]),
        Bot::new("c", "c", vec![]),
        Bot::new("d", "d", vec![]),
    ];
    bots[0].rating = 1500;
    bots[1].rating = 1450;
    bots[2].rating = 1600;
    bots[3].rating = 1495;
    bots[1].n_games = 2;
    let focus = pick_focus(&bots);
    assert_eq!(focus, 0);
    let mut indices = vec![0usize, 1, 2, 3];
    sort_by_distance(&mut indices, &bots, bots[focus].rating);
    // Distances from 1500: a=0, d=5, b=50, c=100.
    assert_eq!(indices, vec![0, 3, 1, 2]);
}

#[test]
fn test_sort_by_distance_ties_break_by_index() {
    let mut bots = vec![
        Bot::new("a", "a", vec![]),
        Bot::new("b", "b", vec![]),
        Bot::new("c", "c", vec![]),
    ];
    bots[0].rating = 1550;
    bots[1].rating = 1450;
    bots[2].rating = 1550;
    let mut indices = vec![2usize, 1, 0];
    sort_by_distance(&mut indices, &bots, 1500);
    assert_eq!(indices, vec![0, 1, 2]);
}

#[test]
fn test_search_depth_one_prefers_center() {
    // At depth one with the material evaluator the first maximising
    // move is the centre cell of the first sub-board.
    let ai = SimpleSearchAI::new(SimpleSearchAI::abriand_eval_1(), 1);
    let mut board = Board::new(2);
    let (mv, score) = ai.search(&mut board, 1, -100000000, 100000000);
    assert_eq!(mv, 4);
    assert_eq!(score, 100);
    // The search left the board untouched.
    assert!(board == Board::new(2));
}

#[test]
fn test_search_depth_zero_resigns() {
    let ai = SimpleSearchAI::new(SimpleSearchAI::abriand_eval_1(), 0);
    let mut board = Board::new(2);
    let (mv, score) = ai.search(&mut board, 0, -100000000, 100000000);
    assert_eq!(mv, -1);
    assert_eq!(score, 0);
}

#[test]
fn test_search_alpha_beta_matches_plain_negamax() {
    // The alpha-beta score equals a plain negamax computed by make/undo
    // without pruning, on several positions and depths.
    fn plain_negamax(b: &mut Board, depth: usize) -> i32 {
        if b.winner != Player::NEITHER || depth == 0 {
            return MaterialEval.eval(b, b.get_to_move());
        }
        let moves = b.get_moves();
        if moves.is_empty() {
            return MaterialEval.eval(b, b.get_to_move());
        }
        let mut best = i32::MIN;
        for m in moves {
            assert!(b.make_move(m));
            let v = -plain_negamax(b, depth - 1);
            assert!(b.undo_move());
            if v > best {
                best = v;
            }
        }
        best
    }
    let ai = SimpleSearchAI::new(SimpleSearchAI::abriand_eval_1(), 2);
    for prefix in [vec![], vec![40usize, 38], vec![20, 22, 38, 21]] {
        let mut board = Board::new(2);
        for m in prefix {
            assert!(board.make_move(m));
        }
        let mut scratch = board.clone();
        let (_, score) = ai.search(&mut scratch, 2, -100000000, 100000000);
        let plain = plain_negamax(&mut board.clone(), 2);
        assert_eq!(score, plain);
    }
}

#[test]
fn test_simple_search_plays_a_game() {
    let mut x = SimpleSearchAI::new(SimpleSearchAI::abriand_eval_1(), 1);
    let mut o = SimpleSearchAI::new(SimpleSearchAI::abriand_eval_1(), 1);
    let mut referee = MatchReferee::new();
    let mut last = x.get_move(-1);
    loop {
        let w = referee.submit(last);
        if w != Player::NEITHER {
            break;
        }
        let reply = o.get_move(last);
        let w = referee.submit(reply);
        if w != Player::NEITHER {
            break;
        }
        last = x.get_move(reply);
    }
    assert!(referee.outcome() != Player::NEITHER);
    x.cleanup();
    o.cleanup();
}

#[test]
fn test_ready_outcome() {
    assert_eq!(ready_outcome(false, false), Player::DEAD);
    assert_eq!(ready_outcome(false, true), Player::O);
    assert_eq!(ready_outcome(true, false), Player::X);
    assert_eq!(ready_outcome(true, true), Player::NEITHER);
}

#[test]
fn test_referee_forfeits() {
    // A sentinel move loses for the side that sent it.
    let mut referee = MatchReferee::new();
    assert_eq!(referee.submit(-1), Player::O);
    let mut referee = MatchReferee::new();
    assert_eq!(referee.submit(40), Player::NEITHER);
    // O reports an illegal move (outside the forced sub-board).
    assert_eq!(referee.submit(0), Player::X);
}

#[test]
fn test_human_player_moves() {
    let mut h = HumanPlayer::new(2);
    assert_eq!(h.to_move(), Player::X);
    // The resign input resigns.
    assert_eq!(h.try_move(900), Some(-1));
    // A legal cell is played and echoed.
    assert_eq!(h.try_move(40), Some(40));
    assert_eq!(h.to_move(), Player::O);
    // An illegal cell asks for another try.
    assert_eq!(h.try_move(0), None);
    assert_eq!(h.try_move(38), Some(38));
    // The opponent's move is recorded.
    let mut h2 = HumanPlayer::new(2);
    assert!(h2.note_opponent(-1));
    assert!(h2.note_opponent(40));
    assert_eq!(h2.to_move(), Player::O);
    assert!(!h2.note_opponent(0));
}

#[test]
fn test_montecarlo_training_grows_tree() {
    let mut ai = MonteCarloAI::new();
    assert_eq!(ai.tree.len(), 0);
    ai.train(2);
    // The first playout creates one child per legal first move.
    assert!(ai.tree.len() >= 81);
    let mut played = 0u64;
    for node in &ai.tree {
        assert!(node.numerator <= node.denominator);
        played += node.denominator;
    }
    assert!(played > 0);
}
