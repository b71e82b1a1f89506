use poker_cfr::game::{Card, Move, Player};
use poker_cfr::solver_tree::{ChancyHistory, HistState, History, InfoSet};
use std::collections::hash_map::DefaultHasher;
use std::hash::{Hash, Hasher};

fn product(factors: &[f64]) -> f64 {
    factors.iter().fold(1.0, |acc, p| acc * p)
}

fn reach(h: &ChancyHistory<f64>) -> f64 {
    let (probs_0, probs_1) = h.get_reach_prob();
    product(&probs_0) * product(&probs_1)
}

fn counterfactual_reach(h: &ChancyHistory<f64>) -> f64 {
    product(&h.get_counterfactual_reach_prob())
}

fn path(moves: &[Move]) -> ChancyHistory<f64> {
    let mut h = ChancyHistory::new();
    for m in moves {
        h = h.extend(*m, 0.5).unwrap();
    }
    h
}

fn hash_of(s: &InfoSet) -> u64 {
    let mut hasher = DefaultHasher::new();
    s.hash(&mut hasher);
    hasher.finish()
}

const HIGH_FIRST: [Card; 5] = [Card::Ace, Card::King, Card::Queen, Card::Jack, Card::Ten];
const LOW_FIRST: [Card; 5] = [Card::Ten, Card::Jack, Card::Queen, Card::King, Card::Ace];

#[test]
fn player_append_valid() {
    let chancy_hist_0 = ChancyHistory::new();
    let chancy_hist_1 = chancy_hist_0.extend(Move::Check, 0.8).unwrap();
    let chancy_hist_2 = chancy_hist_1.extend(Move::Bet, 0.7).unwrap();
    let expected = History::from_moves(vec![Move::Check, Move::Bet]).unwrap();
    assert_eq!(expected.player_to_move(), Player::Player0);
    assert_eq!(chancy_hist_2.determinize(), expected);
}

#[test]
#[should_panic]
fn extend_invalid() {
    let my_chancy_hist = ChancyHistory::new();
    my_chancy_hist.extend(Move::Call, 0.8).unwrap();
}

#[test]
fn right_reach_probs() {
    let chancy_hist_0 = ChancyHistory::new();
    let chancy_hist_1 = chancy_hist_0.extend(Move::Check, 0.8).unwrap();
    let chancy_hist_2 = chancy_hist_1.extend(Move::Bet, 0.7).unwrap();
    assert_eq!(reach(&chancy_hist_0), 1.0);
    assert_eq!(reach(&chancy_hist_2), 0.8 * 0.7);
    assert_eq!(counterfactual_reach(&chancy_hist_2), 0.7);
}

#[test]
fn right_terminal_utilities() {
    let chancy_hist_0 = ChancyHistory::new();
    let chancy_hist_1 = chancy_hist_0.extend(Move::Check, 0.5).unwrap();
    let chancy_hist_2 = chancy_hist_1.extend(Move::Bet, 0.5).unwrap();
    let chancy_hist_3 = chancy_hist_2.extend(Move::Call, 0.5).unwrap();
    let deck = [Card::Ace, Card::King, Card::Queen, Card::Jack, Card::Ten];
    assert_eq!(chancy_hist_2.util_if_terminal(&deck).map(f64::from), None);
    assert_eq!(chancy_hist_3.util_if_terminal(&deck).map(f64::from), Some(-2.0));
}

#[test]
fn opening_moves_are_check_and_bet() {
    let root = History::from_moves(Vec::new()).unwrap();
    assert_eq!(root.len(), 0);
    assert_eq!(root.next_moves(), vec![Move::Check, Move::Bet]);
}

#[test]
fn moves_offered_after_each_move() {
    let after = |moves: &[Move]| History::from_moves(moves.to_vec()).unwrap().next_moves();
    assert_eq!(after(&[Move::Check]), vec![Move::Check, Move::Bet]);
    assert_eq!(after(&[Move::Bet]), vec![Move::Call, Move::Raise, Move::Fold]);
    assert_eq!(after(&[Move::Bet, Move::Raise]), vec![Move::Call, Move::Fold]);
    assert_eq!(after(&[Move::Bet, Move::Call]), Vec::<Move>::new());
    assert_eq!(after(&[Move::Bet, Move::Fold]), Vec::<Move>::new());
    assert_eq!(after(&[Move::Check, Move::Bet]), vec![Move::Call, Move::Raise, Move::Fold]);
}

#[test]
fn from_moves_accepts_exactly_the_legal_sequences() {
    assert!(History::from_moves(vec![Move::Check, Move::Bet, Move::Raise, Move::Call]).is_some());
    assert!(History::from_moves(vec![Move::Check, Move::Check, Move::Check]).is_some());
    assert!(History::from_moves(vec![Move::Call]).is_none());
    assert!(History::from_moves(vec![Move::Fold]).is_none());
    assert!(History::from_moves(vec![Move::Raise]).is_none());
    assert!(History::from_moves(vec![Move::Bet, Move::Check]).is_none());
    assert!(History::from_moves(vec![Move::Bet, Move::Bet]).is_none());
    assert!(History::from_moves(vec![Move::Bet, Move::Raise, Move::Raise]).is_none());
    assert!(History::from_moves(vec![Move::Bet, Move::Call, Move::Fold]).is_none());
    assert!(History::from_moves(vec![Move::Bet, Move::Fold, Move::Check]).is_none());
}

#[test]
fn extend_rejects_every_move_that_is_not_offered() {
    let root = ChancyHistory::<f64>::new();
    assert!(root.extend(Move::Call, 1.0).is_none());
    assert!(root.extend(Move::Raise, 1.0).is_none());
    assert!(root.extend(Move::Fold, 1.0).is_none());
    let bet = path(&[Move::Bet]);
    assert!(bet.extend(Move::Check, 1.0).is_none());
    assert!(bet.extend(Move::Bet, 1.0).is_none());
    let raised = path(&[Move::Bet, Move::Raise]);
    assert!(raised.extend(Move::Raise, 1.0).is_none());
    assert!(raised.extend(Move::Check, 1.0).is_none());
    let folded = path(&[Move::Bet, Move::Fold]);
    for m in [Move::Check, Move::Bet, Move::Call, Move::Raise, Move::Fold] {
        assert!(folded.extend(m, 1.0).is_none());
    }
}

#[test]
fn extend_keeps_the_receiver() {
    let root = ChancyHistory::<f64>::new();
    let next = root.extend(Move::Bet, 0.25).unwrap();
    assert_eq!(root.len(), 0);
    assert_eq!(next.len(), 1);
    assert_eq!(next.determinize(), History::from_moves(vec![Move::Bet]).unwrap());
}

#[test]
fn players_alternate_move_by_move() {
    let moves = [Move::Check, Move::Bet, Move::Raise, Move::Call];
    let mut h = ChancyHistory::<f64>::new();
    assert_eq!(h.player_to_move(), Player::Player0);
    let mut expected = Player::Player0;
    for m in moves {
        let next = h.extend(m, 0.5).unwrap();
        assert_ne!(next.player_to_move(), h.player_to_move());
        expected = match expected {
            Player::Player0 => Player::Player1,
            Player::Player1 => Player::Player0,
        };
        assert_eq!(next.player_to_move(), expected);
        assert_eq!(next.determinize().player_to_move(), expected);
        h = next;
    }
}

#[test]
fn termination_types() {
    let state = |moves: &[Move]| History::from_moves(moves.to_vec()).unwrap().termination_type();
    assert_eq!(state(&[]), HistState::InProgress);
    assert_eq!(state(&[Move::Check]), HistState::InProgress);
    assert_eq!(state(&[Move::Bet]), HistState::InProgress);
    assert_eq!(state(&[Move::Check, Move::Check]), HistState::DoubleCheck);
    assert_eq!(state(&[Move::Check, Move::Bet]), HistState::InProgress);
    assert_eq!(state(&[Move::Bet, Move::Raise]), HistState::InProgress);
    assert_eq!(state(&[Move::Bet, Move::Fold]), HistState::Fold);
    assert_eq!(state(&[Move::Bet, Move::Call]), HistState::Showdown);
    assert_eq!(state(&[Move::Check, Move::Bet, Move::Raise]), HistState::InProgress);
    assert_eq!(state(&[Move::Check, Move::Bet, Move::Raise, Move::Fold]), HistState::Fold);
    assert_eq!(state(&[Move::Check, Move::Bet, Move::Raise, Move::Call]), HistState::Showdown);
    assert_eq!(state(&[Move::Check, Move::Check, Move::Check]), HistState::DoubleCheck);
}

#[test]
fn is_terminal_agrees_with_termination_type() {
    assert!(!path(&[]).is_terminal());
    assert!(!path(&[Move::Check]).is_terminal());
    assert!(path(&[Move::Check, Move::Check]).is_terminal());
    assert!(!path(&[Move::Check, Move::Bet]).is_terminal());
    assert!(path(&[Move::Bet, Move::Fold]).is_terminal());
    assert!(path(&[Move::Bet, Move::Raise, Move::Call]).is_terminal());
    assert!(!path(&[Move::Bet]).to_info_set(&HIGH_FIRST).is_terminal());
    assert!(path(&[Move::Bet, Move::Call]).to_info_set(&HIGH_FIRST).is_terminal());
}

#[test]
fn double_check_pays_one_to_the_higher_card() {
    let h = path(&[Move::Check, Move::Check]);
    assert_eq!(h.player_to_move(), Player::Player0);
    assert_eq!(h.util_if_terminal(&LOW_FIRST), Some(-1));
    assert_eq!(h.util_if_terminal(&HIGH_FIRST), Some(1));
}

#[test]
fn called_bet_pays_two_to_the_higher_card() {
    let h = path(&[Move::Check, Move::Bet, Move::Call]);
    assert_eq!(h.player_to_move(), Player::Player1);
    assert_eq!(h.util_if_terminal(&LOW_FIRST), Some(2));
    assert_eq!(h.util_if_terminal(&HIGH_FIRST), Some(-2));
    let h = path(&[Move::Bet, Move::Call]);
    assert_eq!(h.util_if_terminal(&LOW_FIRST), Some(-2));
    assert_eq!(h.util_if_terminal(&HIGH_FIRST), Some(2));
}

#[test]
fn fold_pays_one_whatever_the_cards() {
    let h = path(&[Move::Bet, Move::Fold]);
    assert_eq!(h.util_if_terminal(&LOW_FIRST), Some(1));
    assert_eq!(h.util_if_terminal(&HIGH_FIRST), Some(1));
    let h = path(&[Move::Check, Move::Bet, Move::Fold]);
    assert_eq!(h.util_if_terminal(&LOW_FIRST), Some(1));
    assert_eq!(h.util_if_terminal(&HIGH_FIRST), Some(1));
}

#[test]
fn raise_adds_one_to_the_stake() {
    let folded = path(&[Move::Bet, Move::Raise, Move::Fold]);
    assert_eq!(folded.util_if_terminal(&LOW_FIRST), Some(2));
    assert_eq!(folded.util_if_terminal(&HIGH_FIRST), Some(2));
    let called = path(&[Move::Bet, Move::Raise, Move::Call]);
    assert_eq!(called.player_to_move(), Player::Player1);
    assert_eq!(called.util_if_terminal(&LOW_FIRST), Some(3));
    assert_eq!(called.util_if_terminal(&HIGH_FIRST), Some(-3));
    let called = path(&[Move::Check, Move::Bet, Move::Raise, Move::Call]);
    assert_eq!(called.player_to_move(), Player::Player0);
    assert_eq!(called.util_if_terminal(&LOW_FIRST), Some(-3));
    assert_eq!(called.util_if_terminal(&HIGH_FIRST), Some(3));
}

#[test]
fn no_payoff_while_in_progress() {
    for moves in [
        vec![],
        vec![Move::Check],
        vec![Move::Bet],
        vec![Move::Check, Move::Bet],
        vec![Move::Bet, Move::Raise],
        vec![Move::Check, Move::Bet, Move::Raise],
    ] {
        assert_eq!(path(&moves).util_if_terminal(&HIGH_FIRST), None);
    }
}

#[test]
fn reach_probability_of_the_root_is_one() {
    let root = ChancyHistory::<f64>::new();
    let (probs_0, probs_1) = root.get_reach_prob();
    assert!(probs_0.is_empty());
    assert!(probs_1.is_empty());
    assert!(root.get_counterfactual_reach_prob().is_empty());
    assert_eq!(reach(&root), 1.0);
    assert_eq!(counterfactual_reach(&root), 1.0);
}

#[test]
fn reach_factors_are_kept_by_player_in_order_of_play() {
    let h = ChancyHistory::new()
        .extend(Move::Check, 0.9)
        .unwrap()
        .extend(Move::Bet, 0.8)
        .unwrap()
        .extend(Move::Raise, 0.7)
        .unwrap()
        .extend(Move::Call, 0.6)
        .unwrap();
    let (probs_0, probs_1) = h.get_reach_prob();
    assert_eq!(probs_0, vec![0.9, 0.7]);
    assert_eq!(probs_1, vec![0.8, 0.6]);
    assert_eq!(reach(&h), (0.9 * 0.7) * (0.8 * 0.6));
    assert_eq!(h.player_to_move(), Player::Player0);
    assert_eq!(h.get_counterfactual_reach_prob(), vec![0.8, 0.6]);
}

#[test]
fn extend_changes_only_the_coordinate_of_the_mover() {
    let before = ChancyHistory::new().extend(Move::Check, 0.9).unwrap();
    let after = before.extend(Move::Bet, 0.25).unwrap();
    let (before_0, before_1) = before.get_reach_prob();
    let (after_0, after_1) = after.get_reach_prob();
    assert_eq!(after_0, before_0);
    assert_eq!(before_1, Vec::<f64>::new());
    assert_eq!(after_1, vec![0.25]);
}

#[test]
fn counterfactual_reach_ignores_own_probabilities() {
    let a = ChancyHistory::new()
        .extend(Move::Check, 0.1)
        .unwrap()
        .extend(Move::Bet, 0.7)
        .unwrap()
        .extend(Move::Raise, 0.2)
        .unwrap();
    let b = ChancyHistory::new()
        .extend(Move::Check, 0.9)
        .unwrap()
        .extend(Move::Bet, 0.7)
        .unwrap()
        .extend(Move::Raise, 0.4)
        .unwrap();
    assert_eq!(a.player_to_move(), Player::Player1);
    assert_eq!(a.get_counterfactual_reach_prob(), vec![0.1, 0.2]);
    assert_eq!(b.get_counterfactual_reach_prob(), vec![0.9, 0.4]);
    let a = a.extend(Move::Call, 0.3).unwrap();
    let b = b.extend(Move::Call, 0.6).unwrap();
    assert_eq!(a.player_to_move(), Player::Player0);
    assert_eq!(a.get_counterfactual_reach_prob(), vec![0.7, 0.3]);
    assert_eq!(b.get_counterfactual_reach_prob(), vec![0.7, 0.6]);
    let c = ChancyHistory::new()
        .extend(Move::Check, 0.5)
        .unwrap()
        .extend(Move::Bet, 0.7)
        .unwrap();
    let d = ChancyHistory::new()
        .extend(Move::Check, 0.125)
        .unwrap()
        .extend(Move::Bet, 0.7)
        .unwrap();
    assert_eq!(counterfactual_reach(&c), counterfactual_reach(&d));
}

#[test]
fn info_set_holds_the_card_of_the_player_to_move() {
    let deck_a = [Card::Ace, Card::King, Card::Queen, Card::Jack, Card::Ten];
    let deck_b = [Card::Ace, Card::Ten, Card::Jack, Card::Queen, Card::King];
    let deck_c = [Card::Queen, Card::King, Card::Ace, Card::Jack, Card::Ten];
    let root = ChancyHistory::<f64>::new();
    assert_eq!(root.to_info_set(&deck_a), root.to_info_set(&deck_b));
    assert_eq!(hash_of(&root.to_info_set(&deck_a)), hash_of(&root.to_info_set(&deck_b)));
    assert_ne!(root.to_info_set(&deck_a), root.to_info_set(&deck_c));
    let after_bet = root.extend(Move::Bet, 0.5).unwrap();
    assert_eq!(after_bet.to_info_set(&deck_a), after_bet.to_info_set(&deck_c));
    assert_ne!(after_bet.to_info_set(&deck_a), after_bet.to_info_set(&deck_b));
    assert_ne!(root.to_info_set(&deck_a), after_bet.to_info_set(&deck_a));
}

#[test]
fn info_set_ignores_probabilities() {
    let a = ChancyHistory::new()
        .extend(Move::Check, 0.3)
        .unwrap()
        .extend(Move::Bet, 0.9)
        .unwrap();
    let b = ChancyHistory::new()
        .extend(Move::Check, 0.6)
        .unwrap()
        .extend(Move::Bet, 0.1)
        .unwrap();
    let set_a = a.to_info_set(&HIGH_FIRST);
    let set_b = b.to_info_set(&HIGH_FIRST);
    assert_eq!(set_a, set_b);
    assert_eq!(hash_of(&set_a), hash_of(&set_b));
    assert_eq!(set_a.clone(), set_b);
    assert_eq!(set_a.get_next_moves(), vec![Move::Call, Move::Raise, Move::Fold]);
    assert!(!set_a.is_terminal());
}

#[test]
fn truncate_walks_back_along_the_path() {
    let moves = [Move::Check, Move::Bet, Move::Raise, Move::Call];
    let full = path(&moves);
    for n in 0..moves.len() {
        let (info_set, next_move) = full.truncate(n, &HIGH_FIRST);
        assert_eq!(next_move, moves[n]);
        assert_eq!(info_set, path(&moves[..n]).to_info_set(&HIGH_FIRST));
    }
}

#[test]
fn history_clone_is_equal() {
    let h = History::from_moves(vec![Move::Bet, Move::Raise]).unwrap();
    let copy = h.clone();
    assert_eq!(copy, h);
    assert_eq!(copy.len(), 2);
    assert_eq!(copy.player_to_move(), Player::Player0);
}

#[test]
fn info_set_gives_back_its_card_and_history() {
    let h = path(&[Move::Check, Move::Bet]);
    let info_set = h.to_info_set(&LOW_FIRST);
    assert_eq!(info_set.card(), Card::Ten);
    assert_eq!(info_set.history(), &h.determinize());
    let info_set = path(&[Move::Check]).to_info_set(&LOW_FIRST);
    assert_eq!(info_set.card(), Card::Jack);
    assert_eq!(info_set.history().len(), 1);
}

#[test]
fn histories_differ_when_their_moves_differ() {
    let a = History::from_moves(vec![Move::Check, Move::Bet]).unwrap();
    let b = History::from_moves(vec![Move::Check, Move::Check]).unwrap();
    let c = History::from_moves(vec![Move::Check]).unwrap();
    assert_ne!(a, b);
    assert_ne!(a, c);
    assert_eq!(a, History::from_moves(vec![Move::Check, Move::Bet]).unwrap());
}
