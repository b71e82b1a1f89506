//! Histories of play, the information sets they project to, and the rules
//! that say which moves may follow and when a hand is over.

use crate::game::{
    get_player_card, other_player, winner_of, winning_player, Card, Move, Player, NUM_CARDS,
};
use vstd::prelude::*;
use vstd::std_specs::cmp::PartialEqSpecImpl;

verus! {

/// How far a hand has progressed.
#[derive(Copy, Clone, Debug, PartialEq, Eq, Structural)]
pub enum HistState {
    /// The hand is not over: the player to move must act.
    InProgress,
    /// Both players checked: the cards are compared for the antes.
    DoubleCheck,
    /// The last player to act gave up the pot.
    Fold,
    /// A bet or raise was called: the cards are compared for the pot.
    Showdown,
}

/// The moves that may follow `prev`, or open the hand when `prev` is `None`,
/// in the order in which they are offered.
pub open spec fn legal_after(prev: Option<Move>) -> Seq<Move> {
    match prev {
        None => seq![Move::Check, Move::Bet],
        Some(Move::Check) => seq![Move::Check, Move::Bet],
        Some(Move::Bet) => seq![Move::Call, Move::Raise, Move::Fold],
        Some(Move::Raise) => seq![Move::Call, Move::Fold],
        Some(Move::Call) => Seq::empty(),
        Some(Move::Fold) => Seq::empty(),
    }
}

/// The most recent move of `moves`, if any move was made.
pub open spec fn last_move(moves: Seq<Move>) -> Option<Move> {
    if moves.len() == 0 {
        None
    } else {
        Some(moves.last())
    }
}

/// The moves that may be appended to `moves`.
pub open spec fn legal_next(moves: Seq<Move>) -> Seq<Move> {
    legal_after(last_move(moves))
}

/// Every move of `moves` was legal when it was made.
pub open spec fn is_legal(moves: Seq<Move>) -> bool {
    forall|i: int| 0 <= i < moves.len() ==> legal_next(moves.take(i)).contains(#[trigger] moves[i])
}

/// The player who acts after `n` moves. `Player0` opens the hand and the two
/// players take turns.
pub open spec fn player_at(n: nat) -> Player {
    if n % 2 == 0 {
        Player::Player0
    } else {
        Player::Player1
    }
}

/// Classification of `moves` by its last two moves: two checks in a row end
/// the hand without a bet, a fold ends it for the other player, and a call
/// ends it in a showdown. A single move never ends a hand.
pub open spec fn terminal_state(moves: Seq<Move>) -> HistState {
    if moves.len() < 2 {
        HistState::InProgress
    } else {
        match moves.last() {
            Move::Check => if moves[moves.len() - 2] == Move::Check {
                HistState::DoubleCheck
            } else {
                HistState::InProgress
            },
            Move::Fold => HistState::Fold,
            Move::Call => HistState::Showdown,
            _ => HistState::InProgress,
        }
    }
}

/// Whether `moves` has ended the hand.
pub open spec fn is_over(moves: Seq<Move>) -> bool {
    terminal_state(moves) != HistState::InProgress
}

/// What the hand pays to the player to move once `moves` has ended it, or
/// `None` while it is in progress. `to_move_wins` says whether that player
/// holds the winning card. A raise adds one unit to the stake.
pub open spec fn terminal_payoff(moves: Seq<Move>, to_move_wins: bool) -> Option<int> {
    let sign: int = if to_move_wins { 1 } else { -1 };
    let raised = moves.contains(Move::Raise);
    match terminal_state(moves) {
        HistState::InProgress => None,
        HistState::DoubleCheck => Some(sign),
        HistState::Fold => Some(if raised { 2 } else { 1 }),
        HistState::Showdown => Some(if raised { 3 * sign } else { 2 * sign }),
    }
}

/// Appending a move that is offered after a legal sequence gives a legal
/// sequence, and nothing else does.
pub proof fn lemma_legal_push(moves: Seq<Move>, m: Move)
    ensures
        is_legal(moves.push(m)) <==> is_legal(moves) && legal_next(moves).contains(m),
{
    let next = moves.push(m);
    assert(next.take(moves.len() as int) =~= moves);
    assert(next[moves.len() as int] == m);
    if is_legal(moves) && legal_next(moves).contains(m) {
        assert forall|i: int| 0 <= i < next.len() implies legal_next(next.take(i)).contains(
            #[trigger] next[i],
        ) by {
            if i < moves.len() {
                assert(next.take(i) =~= moves.take(i));
                assert(next[i] == moves[i]);
            }
        }
    }
    if is_legal(next) {
        assert forall|i: int| 0 <= i < moves.len() implies legal_next(moves.take(i)).contains(
            #[trigger] moves[i],
        ) by {
            assert(next.take(i) =~= moves.take(i));
            assert(next[i] == moves[i]);
        }
    }
}

fn moves_after(prev: Option<Move>) -> (v: Vec<Move>)
    ensures
        v@ == legal_after(prev),
{
    let v = match prev {
        None => vec![Move::Check, Move::Bet],
        Some(Move::Check) => vec![Move::Check, Move::Bet],
        Some(Move::Bet) => vec![Move::Call, Move::Raise, Move::Fold],
        Some(Move::Raise) => vec![Move::Call, Move::Fold],
        Some(Move::Call) => Vec::new(),
        Some(Move::Fold) => Vec::new(),
    };
    assert(v@ =~= legal_after(prev));
    v
}

fn contains_move(v: &Vec<Move>, m: Move) -> (found: bool)
    ensures
        found == v@.contains(m),
{
    let mut i: usize = 0;
    while i < v.len()
        invariant
            i <= v.len(),
            forall|k: int| 0 <= k < i ==> v@[k] != m,
        decreases v.len() - i,
    {
        if v[i] == m {
            return true;
        }
        i += 1;
    }
    false
}

fn same_moves(a: &Vec<Move>, b: &Vec<Move>) -> (same: bool)
    ensures
        same == (a@ == b@),
{
    if a.len() != b.len() {
        return false;
    }
    let mut i: usize = 0;
    while i < a.len()
        invariant
            i <= a.len(),
            a.len() == b.len(),
            forall|k: int| 0 <= k < i ==> a@[k] == b@[k],
        decreases a.len() - i,
    {
        if a[i] != b[i] {
            return false;
        }
        i += 1;
    }
    assert(a@ =~= b@);
    true
}

fn copy_moves(v: &Vec<Move>) -> (w: Vec<Move>)
    ensures
        w@ == v@,
{
    let mut w: Vec<Move> = Vec::new();
    let mut i: usize = 0;
    while i < v.len()
        invariant
            i <= v.len(),
            w@ == v@.take(i as int),
        decreases v.len() - i,
    {
        w.push(v[i]);
        proof {
            assert(v@.take(i as int).push(v@[i as int]) =~= v@.take(i + 1));
        }
        i += 1;
    }
    assert(v@.take(i as int) =~= v@);
    w
}

/// A sequence of moves from the start of a hand, each legal when it was made,
/// together with the player who acts next.
#[derive(Debug, Eq, Hash)]
pub struct History {
    player_to_move: Player,
    moves: Vec<Move>,
}

impl View for History {
    type V = Seq<Move>;

    closed spec fn view(&self) -> Seq<Move> {
        self.moves@
    }
}

impl PartialEq for History {
    fn eq(&self, other: &History) -> (same: bool) {
        proof {
            use_type_invariant(self);
            use_type_invariant(other);
        }
        self.player_to_move == other.player_to_move && same_moves(&self.moves, &other.moves)
    }
}

impl PartialEqSpecImpl for History {
    open spec fn obeys_eq_spec() -> bool {
        true
    }

    /// Two histories are equal when they hold the same moves.
    open spec fn eq_spec(&self, other: &History) -> bool {
        self@ == other@
    }
}

impl Clone for History {
    fn clone(&self) -> (h: History)
        ensures
            h@ == self@,
    {
        proof {
            use_type_invariant(self);
        }
        History { player_to_move: self.player_to_move, moves: copy_moves(&self.moves) }
    }
}

impl History {
    #[verifier::type_invariant]
    spec fn well_formed(self) -> bool {
        &&& is_legal(self.moves@)
        &&& self.player_to_move == player_at(self.moves@.len())
    }

    /// The history with the given moves, or `None` if one of them is not
    /// offered after the moves before it.
    pub fn from_moves(moves: Vec<Move>) -> (h: Option<History>)
        ensures
            h is Some <==> is_legal(moves@),
            h matches Some(hist) ==> hist@ == moves@,
    {
        let mut i: usize = 0;
        let mut prev: Option<Move> = None;
        let mut player = Player::Player0;
        while i < moves.len()
            invariant
                i <= moves.len(),
                is_legal(moves@.take(i as int)),
                prev == last_move(moves@.take(i as int)),
                player == player_at(i as nat),
            decreases moves.len() - i,
        {
            let m = moves[i];
            let offered = moves_after(prev);
            proof {
                lemma_legal_push(moves@.take(i as int), m);
                assert(moves@.take(i as int).push(m) =~= moves@.take(i + 1));
            }
            if !contains_move(&offered, m) {
                proof {
                    if is_legal(moves@) {
                        assert(legal_next(moves@.take(i as int)).contains(moves@[i as int]));
                    }
                }
                return None;
            }
            prev = Some(m);
            player = other_player(player);
            i += 1;
        }
        assert(moves@.take(i as int) =~= moves@);
        Some(History { player_to_move: player, moves })
    }

    /// Number of moves made so far, each of them legal when it was made.
    pub fn len(&self) -> (n: usize)
        ensures
            n == self@.len(),
            is_legal(self@),
    {
        proof {
            use_type_invariant(self);
        }
        self.moves.len()
    }

    /// The player who acts next.
    pub fn player_to_move(&self) -> (p: Player)
        ensures
            p == player_at(self@.len()),
    {
        proof {
            use_type_invariant(self);
        }
        self.player_to_move
    }

    /// Whether the hand is over, and how it ended.
    pub fn termination_type(&self) -> (state: HistState)
        ensures
            state == terminal_state(self@),
    {
        let length = self.moves.len();
        if length > 1 {
            match self.moves[length - 1] {
                Move::Check => {
                    if self.moves[length - 2] == Move::Check {
                        return HistState::DoubleCheck;
                    }
                },
                Move::Fold => {
                    return HistState::Fold;
                },
                Move::Call => {
                    return HistState::Showdown;
                },
                _ => {},
            }
        }
        HistState::InProgress
    }

    /// The moves offered to the player to move, in a fixed order.
    pub fn next_moves(&self) -> (v: Vec<Move>)
        ensures
            v@ == legal_next(self@),
    {
        let length = self.moves.len();
        if length > 0 {
            moves_after(Some(self.moves[length - 1]))
        } else {
            moves_after(None)
        }
    }
}

/// The moves of an annotated path, without the annotations.
pub open spec fn moves_of<W>(steps: Seq<(W, Move)>) -> Seq<Move> {
    Seq::new(steps.len(), |i: int| steps[i].1)
}

/// The annotations of an annotated path, one for each move.
pub open spec fn probs_of<W>(steps: Seq<(W, Move)>) -> Seq<W> {
    Seq::new(steps.len(), |i: int| steps[i].0)
}

/// How many of the first `n` moves were made by `p`.
pub open spec fn turns_of(p: Player, n: nat) -> nat {
    match p {
        Player::Player0 => (n + 1) / 2,
        Player::Player1 => n / 2,
    }
}

/// The annotations of the moves that `p` made along `steps`, in the order of
/// play. Their product is the share of `p` in the probability of the path.
pub open spec fn coordinate<W>(steps: Seq<(W, Move)>, p: Player) -> Seq<W> {
    Seq::new(turns_of(p, steps.len()), |k: int| steps[2 * k + p.seat()].0)
}

/// What the player to move knows after `moves` with the cards dealt as in
/// `deck`: the moves and that player's own card.
pub open spec fn info_set_at(moves: Seq<Move>, deck: Seq<Card>) -> InfoSetView {
    InfoSetView { card: deck[player_at(moves.len()).seat()], moves }
}

/// A prefix of a legal sequence of moves is legal.
pub proof fn lemma_legal_take(moves: Seq<Move>, n: int)
    requires
        is_legal(moves),
        0 <= n <= moves.len(),
    ensures
        is_legal(moves.take(n)),
{
    let prefix = moves.take(n);
    assert forall|i: int| 0 <= i < prefix.len() implies legal_next(prefix.take(i)).contains(
        #[trigger] prefix[i],
    ) by {
        assert(prefix.take(i) =~= moves.take(i));
        assert(prefix[i] == moves[i]);
    }
}

/// The players take turns: whoever acts after a move is the opponent of the
/// player who made it.
pub proof fn lemma_players_alternate(n: nat)
    ensures
        player_at(n + 1) == player_at(n).other(),
        player_at(n + 1) != player_at(n),
{
}

/// A move changes the coordinate of the player who makes it, by appending
/// the probability of the move, and leaves the coordinate of the opponent
/// as it was.
pub proof fn lemma_coordinate_push<W>(steps: Seq<(W, Move)>, prob: W, m: Move)
    ensures
        coordinate(steps.push((prob, m)), player_at(steps.len())) == coordinate(
            steps,
            player_at(steps.len()),
        ).push(prob),
        coordinate(steps.push((prob, m)), player_at(steps.len()).other()) == coordinate(
            steps,
            player_at(steps.len()).other(),
        ),
{
    let mover = player_at(steps.len());
    let next = steps.push((prob, m));
    assert(coordinate(next, mover) =~= coordinate(steps, mover).push(prob));
    assert(coordinate(next, mover.other()) =~= coordinate(steps, mover.other()));
}

/// Before the first move both coordinates are empty, so the probability of
/// the empty history is the empty product.
pub proof fn lemma_coordinates_of_empty<W>(p: Player)
    ensures
        coordinate(Seq::<(W, Move)>::empty(), p) == Seq::<W>::empty(),
{
    assert(coordinate(Seq::<(W, Move)>::empty(), p) =~= Seq::<W>::empty());
}

/// The two coordinates of a path hold, between them, the probability of
/// every move of the path exactly once: their joint product is the product
/// of the probabilities chosen along the path.
pub proof fn lemma_coordinates_cover_path<W>(steps: Seq<(W, Move)>)
    ensures
        coordinate(steps, Player::Player0).to_multiset().add(
            coordinate(steps, Player::Player1).to_multiset(),
        ) == probs_of(steps).to_multiset(),
    decreases steps.len(),
{
    let c0 = coordinate(steps, Player::Player0);
    let c1 = coordinate(steps, Player::Player1);
    if steps.len() == 0 {
        assert(c0 =~= Seq::<W>::empty());
        assert(c1 =~= Seq::<W>::empty());
        assert(probs_of(steps) =~= Seq::<W>::empty());
        let none = Seq::<W>::empty().to_multiset();
        assert(none.len() == 0) by {
            vstd::seq_lib::to_multiset_len(Seq::<W>::empty());
        }
        vstd::multiset::lemma_multiset_empty_len(none);
        assert(none.add(none) =~= none);
    } else {
        let before = steps.drop_last();
        let (prob, m) = steps.last();
        assert(before.push((prob, m)) =~= steps);
        lemma_coordinates_cover_path(before);
        lemma_coordinate_push(before, prob, m);
        assert(probs_of(steps) =~= probs_of(before).push(prob));
        let b0 = coordinate(before, Player::Player0);
        let b1 = coordinate(before, Player::Player1);
        let joint = b0.to_multiset().add(b1.to_multiset());
        vstd::seq_lib::to_multiset_build(probs_of(before), prob);
        if player_at(before.len()) == Player::Player0 {
            assert(c0 == b0.push(prob) && c1 == b1);
            vstd::seq_lib::to_multiset_build(b0, prob);
            assert(c0.to_multiset().add(c1.to_multiset()) =~= joint.insert(prob));
        } else {
            assert(c0 == b0 && c1 == b1.push(prob));
            vstd::seq_lib::to_multiset_build(b1, prob);
            assert(c0.to_multiset().add(c1.to_multiset()) =~= joint.insert(prob));
        }
    }
}

/// The coordinate of a player depends only on the probabilities of that
/// player's own moves: two paths of one length that agree on them have the
/// same coordinate, whatever the other player's probabilities are.
pub proof fn lemma_coordinate_ignores_opponent<W>(
    a: Seq<(W, Move)>,
    b: Seq<(W, Move)>,
    p: Player,
)
    requires
        a.len() == b.len(),
        forall|i: int| 0 <= i < a.len() && player_at(i as nat) == p ==> a[i].0 == b[i].0,
    ensures
        coordinate(a, p) == coordinate(b, p),
{
    assert forall|k: int| 0 <= k < turns_of(p, a.len()) implies coordinate(a, p)[k] == coordinate(
        b,
        p,
    )[k] by {
        let i = 2 * k + p.seat();
        assert(player_at(i as nat) == p);
    }
    assert(coordinate(a, p) =~= coordinate(b, p));
}

/// An information set holds nothing but the moves and the card of the
/// player to move: paths with the same moves, under deals that give that
/// player the same card, have the same information set, whatever their
/// probabilities and whatever the opponent holds.
pub proof fn lemma_info_set_hides_the_rest<W>(
    a: Seq<(W, Move)>,
    b: Seq<(W, Move)>,
    deck_a: Seq<Card>,
    deck_b: Seq<Card>,
)
    requires
        moves_of(a) == moves_of(b),
        deck_a[player_at(a.len()).seat()] == deck_b[player_at(a.len()).seat()],
    ensures
        info_set_at(moves_of(a), deck_a) == info_set_at(moves_of(b), deck_b),
{
}

/// A fold pays the player to move the same positive amount whichever card
/// is higher, and a hand that ends by comparing the cards pays the holder
/// of the higher card what it costs the other.
pub proof fn lemma_payoff_signs(moves: Seq<Move>)
    ensures
        terminal_state(moves) == HistState::Fold ==> terminal_payoff(moves, true)
            == terminal_payoff(moves, false) && terminal_payoff(moves, true)->0 > 0,
        terminal_state(moves) == HistState::DoubleCheck || terminal_state(moves)
            == HistState::Showdown ==> terminal_payoff(moves, true)->0 > 0 && terminal_payoff(
            moves,
            false,
        )->0 == -terminal_payoff(moves, true)->0,
        terminal_state(moves) == HistState::InProgress <==> terminal_payoff(moves, true) is None,
        terminal_state(moves) == HistState::InProgress <==> terminal_payoff(moves, false) is None,
{
}

proof fn lemma_moves_of_push<W>(steps: Seq<(W, Move)>, prob: W, m: Move)
    ensures
        moves_of(steps.push((prob, m))) == moves_of(steps).push(m),
{
    assert(moves_of(steps.push((prob, m))) =~= moves_of(steps).push(m));
}

/// A history in which every move carries an annotation of type `W`: the
/// probability with which the player who made the move chose it. The type
/// never computes with annotations; it keeps them apart by player.
#[derive(Debug)]
pub struct ChancyHistory<W> {
    player_to_move: Player,
    moves_and_probs: Vec<(W, Move)>,
}

impl<W> View for ChancyHistory<W> {
    type V = Seq<(W, Move)>;

    closed spec fn view(&self) -> Seq<(W, Move)> {
        self.moves_and_probs@
    }
}

impl<W> ChancyHistory<W> {
    #[verifier::type_invariant]
    spec fn well_formed(self) -> bool {
        &&& is_legal(moves_of(self.moves_and_probs@))
        &&& self.player_to_move == player_at(self.moves_and_probs@.len())
    }
}

impl<W: Copy> ChancyHistory<W> {
    /// The empty history: no move made, `Player0` to act.
    pub fn new() -> (h: Self)
        ensures
            h@ == Seq::<(W, Move)>::empty(),
    {
        assert(moves_of(Seq::<(W, Move)>::empty()) =~= Seq::<Move>::empty());
        Self { player_to_move: Player::Player0, moves_and_probs: Vec::new() }
    }

    /// The history with the annotations stripped.
    pub fn determinize(&self) -> (h: History)
        ensures
            h@ == moves_of(self@),
    {
        proof {
            use_type_invariant(self);
        }
        let mut moves: Vec<Move> = Vec::new();
        let mut i: usize = 0;
        while i < self.moves_and_probs.len()
            invariant
                i <= self.moves_and_probs.len(),
                moves@ == moves_of(self.moves_and_probs@.take(i as int)),
            decreases self.moves_and_probs.len() - i,
        {
            let step = self.moves_and_probs[i];
            moves.push(step.1);
            proof {
                let done = self.moves_and_probs@.take(i as int);
                lemma_moves_of_push(done, step.0, step.1);
                assert(done.push(step) =~= self.moves_and_probs@.take(i + 1));
            }
            i += 1;
        }
        assert(self.moves_and_probs@.take(i as int) =~= self.moves_and_probs@);
        History { player_to_move: self.player_to_move, moves }
    }

    /// The information set of the player to move: the moves made so far and
    /// that player's own card from `deck`. Annotations and the opponent's
    /// card do not enter it.
    pub fn to_info_set(&self, deck: &[Card; NUM_CARDS]) -> (s: InfoSet)
        ensures
            s@ == info_set_at(moves_of(self@), deck@),
    {
        proof {
            use_type_invariant(self);
        }
        let history = self.determinize();
        let card = get_player_card(self.player_to_move, deck);
        InfoSet { card, history }
    }

    /// Number of moves made so far, each of them legal when it was made.
    pub fn len(&self) -> (n: usize)
        ensures
            n == self@.len(),
            is_legal(moves_of(self@)),
    {
        proof {
            use_type_invariant(self);
        }
        self.moves_and_probs.len()
    }

    /// The player who acts next.
    pub fn player_to_move(&self) -> (p: Player)
        ensures
            p == player_at(self@.len()),
    {
        proof {
            use_type_invariant(self);
        }
        self.player_to_move
    }

    /// Whether the hand is over.
    pub fn is_terminal(&self) -> (over: bool)
        ensures
            over == is_over(moves_of(self@)),
    {
        match self.determinize().termination_type() {
            HistState::InProgress => false,
            _ => true,
        }
    }

    /// The payoff to the player to move if the hand is over, `None` if it is
    /// in progress. After two checks the higher card wins one unit; a fold
    /// pays the player to move one unit, or two after a raise, whatever the
    /// cards; a showdown pays two units, or three after a raise, to the
    /// higher card.
    pub fn util_if_terminal(&self, deck: &[Card; NUM_CARDS]) -> (u: Option<i32>)
        ensures
            match u {
                Some(x) => terminal_payoff(
                    moves_of(self@),
                    winner_of(deck@) == player_at(self@.len()),
                ) == Some(x as int),
                None => terminal_payoff(
                    moves_of(self@),
                    winner_of(deck@) == player_at(self@.len()),
                ) is None,
            },
    {
        proof {
            use_type_invariant(self);
        }
        let current_player_winning = winning_player(deck) == self.player_to_move;
        let history = self.determinize();
        let has_raise = contains_move(&history.moves, Move::Raise);
        match history.termination_type() {
            HistState::InProgress => None,
            HistState::DoubleCheck => Some(if current_player_winning { 1 } else { -1 }),
            HistState::Fold => Some(if has_raise { 2 } else { 1 }),
            HistState::Showdown => Some(
                if has_raise {
                    if current_player_winning { 3 } else { -3 }
                } else {
                    if current_player_winning { 2 } else { -2 }
                },
            ),
        }
    }

    /// The history after the player to move makes `m`, which that player
    /// chose with probability `prob`; `None` if `m` is not offered. The move
    /// passes the turn to the opponent, appends `prob` to the coordinate of
    /// the player who moved and leaves the coordinate of the opponent as it
    /// was. The receiver is not changed.
    pub fn extend(&self, m: Move, prob: W) -> (next: Option<Self>)
        ensures
            next is Some <==> legal_next(moves_of(self@)).contains(m),
            next matches Some(h) ==> {
                let mover = player_at(self@.len());
                &&& h@ == self@.push((prob, m))
                &&& player_at(h@.len()) == mover.other()
                &&& coordinate(h@, mover) == coordinate(self@, mover).push(prob)
                &&& coordinate(h@, mover.other()) == coordinate(self@, mover.other())
            },
    {
        proof {
            use_type_invariant(self);
            lemma_coordinate_push(self@, prob, m);
        }
        let new_player = other_player(self.player_to_move);
        let legal_moves = self.determinize().next_moves();
        if !contains_move(&legal_moves, m) {
            return None;
        }
        let mut new_moves_probs: Vec<(W, Move)> = Vec::new();
        let mut i: usize = 0;
        while i < self.moves_and_probs.len()
            invariant
                i <= self.moves_and_probs.len(),
                new_moves_probs@ == self.moves_and_probs@.take(i as int),
            decreases self.moves_and_probs.len() - i,
        {
            new_moves_probs.push(self.moves_and_probs[i]);
            proof {
                assert(self.moves_and_probs@.take(i as int).push(self.moves_and_probs@[i as int])
                    =~= self.moves_and_probs@.take(i + 1));
            }
            i += 1;
        }
        assert(self.moves_and_probs@.take(i as int) =~= self.moves_and_probs@);
        new_moves_probs.push((prob, m));
        proof {
            lemma_moves_of_push(self.moves_and_probs@, prob, m);
            lemma_legal_push(moves_of(self.moves_and_probs@), m);
        }
        Some(Self { player_to_move: new_player, moves_and_probs: new_moves_probs })
    }

    /// The factors of the probability that both players play this history:
    /// first the probabilities with which `Player0` chose its moves, then
    /// those of `Player1`, each in the order of play. The probability is the
    /// product of all of them, 1 where there are none.
    pub fn get_reach_prob(&self) -> (factors: (Vec<W>, Vec<W>))
        ensures
            factors.0@ == coordinate(self@, Player::Player0),
            factors.1@ == coordinate(self@, Player::Player1),
    {
        let mut probs_0: Vec<W> = Vec::new();
        let mut probs_1: Vec<W> = Vec::new();
        let mut i: usize = 0;
        assert(coordinate(self.moves_and_probs@.take(0), Player::Player0) =~= Seq::<W>::empty());
        assert(coordinate(self.moves_and_probs@.take(0), Player::Player1) =~= Seq::<W>::empty());
        while i < self.moves_and_probs.len()
            invariant
                i <= self.moves_and_probs.len(),
                probs_0@ == coordinate(self.moves_and_probs@.take(i as int), Player::Player0),
                probs_1@ == coordinate(self.moves_and_probs@.take(i as int), Player::Player1),
            decreases self.moves_and_probs.len() - i,
        {
            let step = self.moves_and_probs[i];
            if i % 2 == 0 {
                probs_0.push(step.0);
            } else {
                probs_1.push(step.0);
            }
            proof {
                let done = self.moves_and_probs@.take(i as int);
                lemma_coordinate_push(done, step.0, step.1);
                assert(done.push(step) =~= self.moves_and_probs@.take(i + 1));
            }
            i += 1;
        }
        assert(self.moves_and_probs@.take(i as int) =~= self.moves_and_probs@);
        (probs_0, probs_1)
    }

    /// The factors of the probability of this history that do not depend on
    /// the player to move: the probabilities with which the opponent chose
    /// its moves, in the order of play.
    pub fn get_counterfactual_reach_prob(&self) -> (factors: Vec<W>)
        ensures
            factors@ == coordinate(self@, player_at(self@.len()).other()),
    {
        proof {
            use_type_invariant(self);
        }
        let (probs_0, probs_1) = self.get_reach_prob();
        match self.player_to_move {
            Player::Player0 => probs_1,
            Player::Player1 => probs_0,
        }
    }

    /// The information set at which move number `n` (counting from 0) was
    /// made, with the cards dealt as in `deck`, and that move.
    pub fn truncate(&self, n: usize, deck: &[Card; NUM_CARDS]) -> (at: (InfoSet, Move))
        requires
            n < self@.len(),
        ensures
            at.0@ == info_set_at(moves_of(self@).take(n as int), deck@),
            at.1 == moves_of(self@)[n as int],
    {
        proof {
            use_type_invariant(self);
            lemma_legal_take(moves_of(self.moves_and_probs@), n as int);
        }
        let mut moves: Vec<Move> = Vec::new();
        let mut i: usize = 0;
        while i < n
            invariant
                i <= n < self.moves_and_probs.len(),
                moves@ == moves_of(self.moves_and_probs@).take(i as int),
            decreases n - i,
        {
            moves.push(self.moves_and_probs[i].1);
            proof {
                let all = moves_of(self.moves_and_probs@);
                assert(all.take(i as int).push(all[i as int]) =~= all.take(i + 1));
            }
            i += 1;
        }
        let player = if n % 2 == 0 {
            Player::Player0
        } else {
            Player::Player1
        };
        let card = get_player_card(player, deck);
        let history = History { player_to_move: player, moves };
        (InfoSet { card, history }, self.moves_and_probs[n].1)
    }
}

/// What a player can tell apart when it is that player's turn: the player's
/// own card and the moves made so far.
#[derive(Debug, Eq, Hash)]
pub struct InfoSet {
    card: Card,
    history: History,
}

/// The card and the moves of an information set.
pub struct InfoSetView {
    pub card: Card,
    pub moves: Seq<Move>,
}

impl View for InfoSet {
    type V = InfoSetView;

    closed spec fn view(&self) -> InfoSetView {
        InfoSetView { card: self.card, moves: self.history@ }
    }
}

impl PartialEq for InfoSet {
    fn eq(&self, other: &InfoSet) -> (same: bool) {
        self.card == other.card && self.history == other.history
    }
}

impl PartialEqSpecImpl for InfoSet {
    open spec fn obeys_eq_spec() -> bool {
        true
    }

    /// Two information sets are equal when they hold the same card and the
    /// same moves.
    open spec fn eq_spec(&self, other: &InfoSet) -> bool {
        self@ == other@
    }
}

impl Clone for InfoSet {
    fn clone(&self) -> (s: InfoSet)
        ensures
            s@ == self@,
    {
        InfoSet { card: self.card, history: self.history.clone() }
    }
}

impl InfoSet {
    /// The card of the player to move.
    pub fn card(&self) -> (c: Card)
        ensures
            c == self@.card,
    {
        self.card
    }

    /// The moves made so far.
    pub fn history(&self) -> (h: &History)
        ensures
            h@ == self@.moves,
    {
        &self.history
    }

    /// Whether the hand is over at this information set.
    pub fn is_terminal(&self) -> (over: bool)
        ensures
            over == is_over(self@.moves),
    {
        match self.history.termination_type() {
            HistState::InProgress => false,
            _ => true,
        }
    }

    /// The moves offered at this information set, in a fixed order.
    pub fn get_next_moves(&self) -> (v: Vec<Move>)
        ensures
            v@ == legal_next(self@.moves),
    {
        self.history.next_moves()
    }
}

} // verus!
