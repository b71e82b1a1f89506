//! The forward pass over the game tree: a depth-first walk from the empty
//! history that lists every history of the hand after the one it extends.
//!
//! The walk decides the order and builds the histories. What each move's
//! probability is, the caller says, one history at a time.

use crate::game::Move;
use crate::solver_tree::{
    is_legal, is_over, legal_next, lemma_legal_push, moves_of, ChancyHistory,
};
use vstd::prelude::*;

verus! {

/// The annotated paths of a list of histories.
pub open spec fn paths_of<W>(histories: Seq<ChancyHistory<W>>) -> Seq<Seq<(W, Move)>> {
    Seq::new(histories.len(), |i: int| histories[i]@)
}

/// The paths that extend `path` by one move: one for each move offered after
/// it, in the order in which they are offered, the move number `k` annotated
/// with `probs[k]`.
pub open spec fn children_of<W>(path: Seq<(W, Move)>, probs: Seq<W>) -> Seq<Seq<(W, Move)>> {
    Seq::new(
        legal_next(moves_of(path)).len(),
        |k: int| path.push((probs[k], legal_next(moves_of(path))[k])),
    )
}

/// Pushes onto `node_stack` the histories that extend `chancy_hist` by one
/// move, `probs[k]` being the probability of the move number `k` among those
/// offered.
pub fn append_children_to_stack<W: Copy>(
    chancy_hist: &ChancyHistory<W>,
    probs: &Vec<W>,
    node_stack: &mut Vec<ChancyHistory<W>>,
)
    requires
        probs@.len() == legal_next(moves_of(chancy_hist@)).len(),
    ensures
        paths_of(final(node_stack)@) == paths_of(old(node_stack)@) + children_of(
            chancy_hist@,
            probs@,
        ),
{
    let legal_moves = chancy_hist.determinize().next_moves();
    let mut k: usize = 0;
    assert(paths_of(node_stack@) =~= paths_of(old(node_stack)@) + children_of(
        chancy_hist@,
        probs@,
    ).take(0));
    while k < legal_moves.len()
        invariant
            k <= legal_moves.len(),
            legal_moves@ == legal_next(moves_of(chancy_hist@)),
            probs@.len() == legal_moves@.len(),
            paths_of(node_stack@) == paths_of(old(node_stack)@) + children_of(
                chancy_hist@,
                probs@,
            ).take(k as int),
        decreases legal_moves.len() - k,
    {
        let m = legal_moves[k];
        assert(legal_moves@.contains(m));
        let next_chancy_hist = chancy_hist.extend(m, probs[k]).unwrap();
        let ghost before = paths_of(node_stack@);
        node_stack.push(next_chancy_hist);
        proof {
            let children = children_of(chancy_hist@, probs@);
            assert(next_chancy_hist@ == children[k as int]);
            assert(paths_of(node_stack@) =~= before.push(next_chancy_hist@));
            assert(children.take(k as int).push(children[k as int]) =~= children.take(k + 1));
            assert(before.push(next_chancy_hist@) =~= paths_of(old(node_stack)@) + children.take(
                k + 1,
            ));
        }
        k += 1;
    }
    proof {
        let children = children_of(chancy_hist@, probs@);
        assert(children.take(k as int) =~= children);
    }
}


/// The history that extends `moves` by the move number `k` offered after it.
pub open spec fn child_moves(moves: Seq<Move>, k: int) -> Seq<Move> {
    moves.push(legal_next(moves)[k])
}

/// `moves` can come up in play: every move was legal when it was made, and
/// the hand was not over before the last of them.
pub open spec fn is_playable(moves: Seq<Move>) -> bool {
    &&& is_legal(moves)
    &&& forall|n: int| 0 <= n < moves.len() ==> !is_over(#[trigger] moves.take(n))
}

/// `path` stands in `ordered` at a position before `i`.
pub open spec fn stands_before<W>(
    ordered: Seq<Seq<(W, Move)>>,
    path: Seq<(W, Move)>,
    i: int,
) -> bool {
    exists|j: int| 0 <= j < i && j < ordered.len() && #[trigger] ordered[j] == path
}

/// A path with the moves `moves` stands in `ordered` at a position after `i`.
pub open spec fn follows<W>(ordered: Seq<Seq<(W, Move)>>, i: int, moves: Seq<Move>) -> bool {
    exists|j: int| i < j < ordered.len() && moves_of(#[trigger] ordered[j]) == moves
}

/// A path with the moves `moves` is among `unseen`.
pub open spec fn awaits<W>(unseen: Seq<Seq<(W, Move)>>, moves: Seq<Move>) -> bool {
    exists|u: int| 0 <= u < unseen.len() && moves_of(#[trigger] unseen[u]) == moves
}

/// Every path of `ordered` but the empty one comes after the path that it
/// extends by one move: `ordered` is a topological order of the tree.
pub open spec fn parents_first<W>(ordered: Seq<Seq<(W, Move)>>) -> bool {
    forall|i: int|
        0 <= i < ordered.len() && (#[trigger] ordered[i]).len() > 0 ==> stands_before(
            ordered,
            ordered[i].drop_last(),
            i,
        )
}

/// The state of a walk over the game tree.
pub struct TreeWalkView<W> {
    /// The paths still to be listed. The walk takes them from the end.
    pub unseen: Seq<Seq<(W, Move)>>,
    /// The paths listed so far, in the order in which the walk took them.
    pub ordered: Seq<Seq<(W, Move)>>,
}

/// The state in which every walk begins: nothing listed, the empty path
/// waiting.
pub open spec fn walk_start<W>() -> TreeWalkView<W> {
    TreeWalkView { unseen: seq![Seq::<(W, Move)>::empty()], ordered: Seq::empty() }
}

/// The state after the walk takes the last of the waiting paths: the path is
/// listed, and unless it ends the hand, the paths that extend it by one move
/// wait in its place, annotated with `probs`.
pub open spec fn walk_step<W>(walk: TreeWalkView<W>, probs: Seq<W>) -> TreeWalkView<W> {
    let path = walk.unseen.last();
    TreeWalkView {
        unseen: if is_over(moves_of(path)) {
            walk.unseen.drop_last()
        } else {
            walk.unseen.drop_last() + children_of(path, probs)
        },
        ordered: walk.ordered.push(path),
    }
}

/// What holds of a walk at every step. All its paths can come up in play.
/// The listed paths are in a topological order. A waiting path extends a
/// listed one, or it is the empty path and nothing is listed yet. And for
/// each listed path that does not end the hand, each path that extends it by
/// one move is listed after it or waits.
pub open spec fn well_ordered<W>(walk: TreeWalkView<W>) -> bool {
    &&& forall|i: int|
        0 <= i < walk.ordered.len() ==> is_playable(moves_of(#[trigger] walk.ordered[i]))
    &&& forall|u: int|
        0 <= u < walk.unseen.len() ==> is_playable(moves_of(#[trigger] walk.unseen[u]))
    &&& parents_first(walk.ordered)
    &&& forall|u: int|
        0 <= u < walk.unseen.len() ==> if (#[trigger] walk.unseen[u]).len() == 0 {
            walk.ordered.len() == 0 && walk.unseen.len() == 1
        } else {
            stands_before(walk.ordered, walk.unseen[u].drop_last(), walk.ordered.len() as int)
        }
    &&& forall|i: int, k: int|
        0 <= i < walk.ordered.len() && !is_over(moves_of(walk.ordered[i])) && 0 <= k < legal_next(
            moves_of(walk.ordered[i]),
        ).len() ==> {
            let child = #[trigger] child_moves(moves_of(walk.ordered[i]), k);
            follows(walk.ordered, i, child) || awaits(walk.unseen, child)
        }
    &&& walk.ordered.len() == 0 ==> walk.unseen.len() == 1
}

/// A path that can come up in play and does not end the hand can be extended
/// by each move offered after it.
pub proof fn lemma_playable_push(moves: Seq<Move>, m: Move)
    requires
        is_playable(moves),
        !is_over(moves),
        legal_next(moves).contains(m),
    ensures
        is_playable(moves.push(m)),
{
    let next = moves.push(m);
    lemma_legal_push(moves, m);
    assert forall|n: int| 0 <= n < next.len() implies !is_over(#[trigger] next.take(n)) by {
        if n < moves.len() {
            assert(next.take(n) =~= moves.take(n));
        } else {
            assert(next.take(n) =~= moves);
        }
    }
}

/// While a hand is in progress the player to move is offered a move, and
/// once a fold or a call has ended it none is offered.
pub proof fn lemma_moves_offered_while_in_progress(moves: Seq<Move>)
    requires
        is_legal(moves),
    ensures
        !is_over(moves) ==> legal_next(moves).len() > 0,
        legal_next(moves).len() == 0 ==> is_over(moves),
{
    if moves.len() > 0 {
        let last = moves.len() - 1;
        assert(legal_next(moves.take(last)).contains(moves[last]));
        if moves.len() == 1 {
            assert(moves.take(last) =~= Seq::<Move>::empty());
        }
    }
}

/// No hand lasts longer than four moves.
pub proof fn lemma_playable_is_short(moves: Seq<Move>)
    requires
        is_playable(moves),
    ensures
        moves.len() <= 4,
{
    if moves.len() > 4 {
        assert(legal_next(moves.take(0)).contains(moves[0]));
        assert(legal_next(moves.take(1)).contains(moves[1]));
        assert(legal_next(moves.take(2)).contains(moves[2]));
        assert(legal_next(moves.take(3)).contains(moves[3]));
        assert(moves.take(0).len() == 0);
        assert(moves.take(1).last() == moves[0]);
        assert(moves.take(2).last() == moves[1]);
        assert(moves.take(3).last() == moves[2]);
        assert(!is_over(moves.take(2)));
        assert(!is_over(moves.take(3)));
        assert(!is_over(moves.take(4)));
        assert(moves.take(2)[0] == moves[0]);
        assert(moves.take(3)[1] == moves[1]);
        assert(moves.take(4)[2] == moves[2]);
        assert(moves.take(4).last() == moves[3]);
    }
}

/// A walk begins well ordered.
pub proof fn lemma_walk_start_well_ordered<W>()
    ensures
        well_ordered(walk_start::<W>()),
{
    let walk = walk_start::<W>();
    assert(moves_of(walk.unseen[0]) =~= Seq::<Move>::empty());
}

/// A step keeps a walk well ordered, whatever the probabilities are.
pub proof fn lemma_walk_step_well_ordered<W>(walk: TreeWalkView<W>, probs: Seq<W>)
    requires
        well_ordered(walk),
        walk.unseen.len() > 0,
    ensures
        well_ordered(walk_step(walk, probs)),
{
    let path = walk.unseen.last();
    let n = walk.ordered.len() as int;
    let kept = walk.unseen.drop_last();
    let next = walk_step(walk, probs);
    let legal = legal_next(moves_of(path));
    assert(next.ordered[n] == path);
    assert forall|i: int| 0 <= i < next.ordered.len() implies is_playable(
        moves_of(#[trigger] next.ordered[i]),
    ) by {
        if i < n {
            assert(next.ordered[i] == walk.ordered[i]);
        }
    }
    assert forall|u: int| 0 <= u < next.unseen.len() implies is_playable(
        moves_of(#[trigger] next.unseen[u]),
    ) && if next.unseen[u].len() == 0 {
        next.ordered.len() == 0 && next.unseen.len() == 1
    } else {
        stands_before(next.ordered, next.unseen[u].drop_last(), next.ordered.len() as int)
    } by {
        if u < kept.len() {
            let waiting = walk.unseen[u];
            assert(next.unseen[u] == waiting);
            assert(waiting.len() > 0);
            let j = choose|j: int| 0 <= j < n && j < walk.ordered.len() && #[trigger] walk.ordered[j]
                == waiting.drop_last();
            assert(next.ordered[j] == waiting.drop_last());
        } else {
            let k = u - kept.len();
            let child = children_of(path, probs)[k];
            assert(next.unseen[u] == child);
            assert(moves_of(child) =~= moves_of(path).push(legal[k]));
            assert(legal.contains(legal[k]));
            lemma_playable_push(moves_of(path), legal[k]);
            assert(child.drop_last() =~= path);
            assert(next.ordered[n] == child.drop_last());
        }
    }
    assert forall|i: int| 0 <= i < next.ordered.len() && (#[trigger] next.ordered[i]).len()
        > 0 implies stands_before(next.ordered, next.ordered[i].drop_last(), i) by {
        let listed = next.ordered[i];
        let j = if i < n {
            assert(listed == walk.ordered[i]);
            choose|j: int| 0 <= j < i && j < walk.ordered.len() && #[trigger] walk.ordered[j]
                == listed.drop_last()
        } else {
            assert(listed == walk.unseen[walk.unseen.len() - 1]);
            choose|j: int| 0 <= j < n && j < walk.ordered.len() && #[trigger] walk.ordered[j]
                == listed.drop_last()
        };
        assert(next.ordered[j] == listed.drop_last());
    }
    assert forall|i: int, k: int|
        0 <= i < next.ordered.len() && !is_over(moves_of(next.ordered[i])) && 0 <= k < legal_next(
            moves_of(next.ordered[i]),
        ).len() implies {
        let child = #[trigger] child_moves(moves_of(next.ordered[i]), k);
        follows(next.ordered, i, child) || awaits(next.unseen, child)
    } by {
        let child = child_moves(moves_of(next.ordered[i]), k);
        if i < n {
            assert(next.ordered[i] == walk.ordered[i]);
            assert(child == child_moves(moves_of(walk.ordered[i]), k));
            if follows(walk.ordered, i, child) {
                let j = choose|j: int| i < j < walk.ordered.len() && moves_of(
                    #[trigger] walk.ordered[j],
                ) == child;
                assert(next.ordered[j] == walk.ordered[j]);
                assert(follows(next.ordered, i, child));
            } else {
                let u = choose|u: int| 0 <= u < walk.unseen.len() && moves_of(
                    #[trigger] walk.unseen[u],
                ) == child;
                if u < kept.len() {
                    assert(next.unseen[u] == walk.unseen[u]);
                    assert(awaits(next.unseen, child));
                } else {
                    assert(walk.unseen[u] == next.ordered[n]);
                    assert(follows(next.ordered, i, child));
                }
            }
        } else {
            let u = kept.len() + k;
            assert(next.unseen[u] == children_of(path, probs)[k]);
            assert(moves_of(next.unseen[u]) =~= child);
            assert(awaits(next.unseen, child));
        }
    }
}

/// A bound on the number of steps that a waiting path of length `len` can
/// still cost the walk: itself and all that extends it.
pub open spec fn path_weight(len: nat) -> nat {
    if len >= 4 {
        1
    } else if len == 3 {
        4
    } else if len == 2 {
        16
    } else if len == 1 {
        64
    } else {
        256
    }
}

/// A bound on the number of steps that a walk with the waiting paths `unseen`
/// still takes.
pub open spec fn walk_potential<W>(unseen: Seq<Seq<(W, Move)>>) -> nat
    decreases unseen.len(),
{
    if unseen.len() == 0 {
        0
    } else {
        walk_potential(unseen.drop_last()) + path_weight(unseen.last().len())
    }
}

proof fn lemma_potential_of_children<W>(
    kept: Seq<Seq<(W, Move)>>,
    children: Seq<Seq<(W, Move)>>,
    len: nat,
)
    requires
        forall|k: int| 0 <= k < children.len() ==> (#[trigger] children[k]).len() == len,
    ensures
        walk_potential(kept + children) == walk_potential(kept) + children.len() * path_weight(
            len,
        ),
    decreases children.len(),
{
    if children.len() == 0 {
        assert(kept + children =~= kept);
        assert(children.len() * path_weight(len) == 0) by (nonlinear_arith)
            requires
                children.len() == 0,
        ;
    } else {
        let fewer = children.drop_last();
        assert((kept + children).drop_last() =~= kept + fewer);
        assert((kept + children).last() == children[children.len() - 1]);
        lemma_potential_of_children(kept, fewer, len);
        assert(children.len() * path_weight(len) == fewer.len() * path_weight(len) + path_weight(
            len,
        )) by (nonlinear_arith)
            requires
                children.len() == fewer.len() + 1,
        ;
    }
}

/// Every step brings the walk nearer to its end: the bound on the steps
/// still to take falls. A walk therefore ends, after at most 256 steps.
pub proof fn lemma_walk_step_decreases<W>(walk: TreeWalkView<W>, probs: Seq<W>)
    requires
        well_ordered(walk),
        walk.unseen.len() > 0,
    ensures
        walk_potential(walk_step(walk, probs).unseen) < walk_potential(walk.unseen),
        walk_potential(walk_start::<W>().unseen) == 256,
{
    let path = walk.unseen.last();
    let kept = walk.unseen.drop_last();
    let moves = moves_of(path);
    assert(walk_potential(walk_start::<W>().unseen) == 256) by {
        let start = walk_start::<W>().unseen;
        assert(start.drop_last().len() == 0);
        assert(walk_potential(start.drop_last()) == 0);
        assert(start.last().len() == 0);
    }
    if !is_over(moves) {
        let children = children_of(path, probs);
        let legal = legal_next(moves);
        assert(is_playable(moves));
        lemma_moves_offered_while_in_progress(moves);
        assert(legal.contains(legal[0]));
        lemma_playable_push(moves, legal[0]);
        lemma_playable_is_short(moves.push(legal[0]));
        assert(path.len() <= 3);
        assert(children.len() <= 3);
        lemma_potential_of_children(kept, children, path.len() + 1);
        assert(children.len() * path_weight(path.len() + 1) <= 3 * path_weight(path.len() + 1))
            by (nonlinear_arith)
            requires
                children.len() <= 3,
        ;
    }
}

/// In a topological order the empty path comes first.
pub proof fn lemma_root_first<W>(ordered: Seq<Seq<(W, Move)>>)
    requires
        parents_first(ordered),
        ordered.len() > 0,
    ensures
        ordered[0].len() == 0,
{
    if ordered[0].len() > 0 {
        assert(stands_before(ordered, ordered[0].drop_last(), 0));
    }
}

/// Once nothing waits, the listed paths are closed under play: each path
/// that extends a listed one by a move offered after it is listed too, and
/// after the path it extends.
pub proof fn lemma_finished_walk_is_closed<W>(walk: TreeWalkView<W>, i: int, k: int)
    requires
        well_ordered(walk),
        walk.unseen.len() == 0,
        0 <= i < walk.ordered.len(),
        !is_over(moves_of(walk.ordered[i])),
        0 <= k < legal_next(moves_of(walk.ordered[i])).len(),
    ensures
        follows(walk.ordered, i, child_moves(moves_of(walk.ordered[i]), k)),
{
    let child = child_moves(moves_of(walk.ordered[i]), k);
    assert(follows(walk.ordered, i, child) || awaits(walk.unseen, child));
}

/// A depth-first walk over the game tree in progress.
#[derive(Debug)]
pub struct TreeWalk<W> {
    unseen: Vec<ChancyHistory<W>>,
    ordered: Vec<ChancyHistory<W>>,
}

impl<W> View for TreeWalk<W> {
    type V = TreeWalkView<W>;

    closed spec fn view(&self) -> TreeWalkView<W> {
        TreeWalkView { unseen: paths_of(self.unseen@), ordered: paths_of(self.ordered@) }
    }
}

impl<W> TreeWalk<W> {
    #[verifier::type_invariant]
    spec fn well_formed(self) -> bool {
        well_ordered(self@)
    }
}

impl<W: Copy> TreeWalk<W> {
    /// A walk that has listed nothing yet.
    pub fn new() -> (walk: Self)
        ensures
            walk@ == walk_start::<W>(),
    {
        let mut unseen: Vec<ChancyHistory<W>> = Vec::new();
        unseen.push(ChancyHistory::new());
        let ordered: Vec<ChancyHistory<W>> = Vec::new();
        proof {
            lemma_walk_start_well_ordered::<W>();
            assert(paths_of(unseen@) =~= walk_start::<W>().unseen);
            assert(paths_of(ordered@) =~= walk_start::<W>().ordered);
        }
        TreeWalk { unseen, ordered }
    }

    /// The history that the walk takes next, or `None` when every history
    /// has been listed.
    pub fn next(&self) -> (pending: Option<&ChancyHistory<W>>)
        ensures
            well_ordered(self@),
            pending is None <==> self@.unseen.len() == 0,
            pending matches Some(h) ==> h@ == self@.unseen.last(),
    {
        proof {
            use_type_invariant(self);
        }
        let n = self.unseen.len();
        if n == 0 {
            None
        } else {
            Some(&self.unseen[n - 1])
        }
    }

    /// Takes the next history: lists it, and unless it ends the hand, lets
    /// the histories that extend it by one move wait in its place, the move
    /// number `k` among those offered having the probability `probs[k]`.
    pub fn visit(self, probs: &Vec<W>) -> (walk: Self)
        requires
            self@.unseen.len() > 0,
            is_over(moves_of(self@.unseen.last())) || probs@.len() == legal_next(
                moves_of(self@.unseen.last()),
            ).len(),
        ensures
            walk@ == walk_step(self@, probs@),
    {
        proof {
            use_type_invariant(&self);
            lemma_walk_step_well_ordered(self@, probs@);
        }
        let ghost before = self@;
        let TreeWalk { unseen, ordered } = self;
        let mut unseen = unseen;
        let mut ordered = ordered;
        let chancy_hist = unseen.pop().unwrap();
        assert(paths_of(unseen@) =~= before.unseen.drop_last());
        assert(chancy_hist@ == before.unseen.last());
        if !chancy_hist.is_terminal() {
            append_children_to_stack(&chancy_hist, probs, &mut unseen);
        }
        ordered.push(chancy_hist);
        assert(paths_of(ordered@) =~= before.ordered.push(chancy_hist@));
        TreeWalk { unseen, ordered }
    }

    /// The histories listed so far, in the order in which the walk took them:
    /// a topological order, and once nothing waits, one of every history
    /// that can come up in play.
    pub fn into_ordered(self) -> (ordered: Vec<ChancyHistory<W>>)
        ensures
            paths_of(ordered@) == self@.ordered,
            well_ordered(self@),
    {
        proof {
            use_type_invariant(&self);
        }
        let TreeWalk { unseen, ordered } = self;
        ordered
    }
}

} // verus!
