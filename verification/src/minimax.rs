//! A generic exhaustive minimax game-tree search: full width down to a fixed
//! depth, with uniform-random tie-break among equally scored moves.

use crate::board::copy_vec;
use std::time::Duration;
use std::time::Instant;
use vstd::prelude::*;

verus! {

/// Whose interest a state is searched for: the engine's own side (`AI`)
/// maximizes the evaluation, the opponent (`HUMAN`) minimizes it.
#[derive(Clone, Copy, PartialEq, Eq, Structural, Debug)]
pub enum Player {
    AI,
    HUMAN,
}

/// What the search engine needs of a game. The spec functions model the
/// state: its moves, its evaluation, whether it is final, and the transition
/// relation `succ`. An implementation must keep an unfinished well-formed
/// state movable, which is what makes the search total.
pub trait Game<M: Copy>: Sized {
    /// Well-formedness of a state.
    spec fn wf(&self) -> bool;

    /// Whether the state is final.
    spec fn sfinished(&self) -> bool;

    /// The evaluation of the state, from the engine's own perspective.
    spec fn sscore(&self) -> int;

    /// The legal moves of the state.
    spec fn smoves(&self) -> Seq<M>;

    /// The transition relation: `g` is a state after playing `m` on `self`.
    spec fn succ(&self, m: M, g: Self) -> bool;

    /// Whether the search maximizes at this state: the engine's own side is
    /// to move.
    spec fn maximizing(&self) -> bool;

    fn valid_moves(&self) -> (v: Vec<M>)
        requires
            self.wf(),
        ensures
            v@ == self.smoves(),
            !self.sfinished() ==> v@.len() > 0,
    ;

    fn score(&self) -> (s: i64)
        requires
            self.wf(),
        ensures
            s as int == self.sscore(),
    ;

    /// A pure transition: the successor state, leaving `self` untouched.
    fn set(&self, m: M) -> (g: Self)
        requires
            self.wf(),
            self.smoves().contains(m),
        ensures
            g.wf(),
            self.succ(m, g),
    ;

    fn finished(&self) -> (f: bool)
        requires
            self.wf(),
        ensures
            f == self.sfinished(),
    ;

    fn current_player(&self) -> (p: Player)
        requires
            self.wf(),
        ensures
            (p == Player::AI) <==> self.maximizing(),
    ;
}

/// `h` is reached from `g` by playing the moves of `path` in order, each
/// legal in its state.
pub open spec fn reaches<M: Copy, T: Game<M>>(g: T, path: Seq<M>, h: T) -> bool
    decreases path.len(),
{
    if path.len() == 0 {
        h == g
    } else {
        g.smoves().contains(path[0]) && exists|g1: T| #[trigger]
            g.succ(path[0], g1) && reaches(g1, path.skip(1), h)
    }
}

/// The sum of a sequence of integers.
pub open spec fn seq_sum(ns: Seq<int>) -> int
    decreases ns.len(),
{
    if ns.len() == 0 {
        0
    } else {
        seq_sum(ns.drop_last()) + ns.last()
    }
}

/// The sum, saturated at the machine word the engine counts with.
pub open spec fn sat_sum(ns: Seq<int>) -> int {
    if seq_sum(ns) > usize::MAX as int {
        usize::MAX as int
    } else {
        seq_sum(ns)
    }
}

/// The largest entry of a non-empty sequence.
pub open spec fn seq_max(vs: Seq<int>) -> int
    decreases vs.len(),
{
    if vs.len() <= 1 {
        vs[0]
    } else if vs.last() > seq_max(vs.drop_last()) {
        vs.last()
    } else {
        seq_max(vs.drop_last())
    }
}

/// The smallest entry of a non-empty sequence.
pub open spec fn seq_min(vs: Seq<int>) -> int
    decreases vs.len(),
{
    if vs.len() <= 1 {
        vs[0]
    } else if vs.last() < seq_min(vs.drop_last()) {
        vs.last()
    } else {
        seq_min(vs.drop_last())
    }
}

/// The value the side to move extracts from its children's values: the
/// maximum when the engine's own side moves, else the minimum.
pub open spec fn best_of<M: Copy, T: Game<M>>(g: T, vs: Seq<int>) -> int {
    if g.maximizing() {
        seq_max(vs)
    } else {
        seq_min(vs)
    }
}

/// The full-width evaluation of one search level, entered at depth `rec`
/// with hard bound `maxrec`: `vs[i]` and `ns[i]` are the minimax value and
/// the leaf count of the i-th legal move of `g`.
pub open spec fn level_eval<M: Copy, T: Game<M>>(
    g: T,
    rec: int,
    maxrec: int,
    vs: Seq<int>,
    ns: Seq<int>,
) -> bool
    decreases maxrec - rec, 1int,
{
    &&& vs.len() == g.smoves().len()
    &&& ns.len() == g.smoves().len()
    &&& forall|i: int| 0 <= i < ns.len() ==> 1 <= #[trigger] ns[i] <= usize::MAX as int
    &&& forall|i: int|
        #![trigger g.smoves()[i]]
        0 <= i < g.smoves().len() ==> move_eval(g, g.smoves()[i], rec, maxrec, vs[i], ns[i])
}

/// One move's evaluation: playing `m` on `g` at depth `rec` has minimax
/// value `v` and leaf count `n`. A move whose successor is a leaf — a
/// finished state, or any state once the bound is reached — is worth that
/// successor's own evaluation and counts one leaf; any other move is worth
/// the best of the successor's level and counts its saturating sum.
pub open spec fn move_eval<M: Copy, T: Game<M>>(
    g: T,
    m: M,
    rec: int,
    maxrec: int,
    v: int,
    n: int,
) -> bool
    decreases maxrec - rec, 0int,
{
    exists|gi: T| #[trigger]
        g.succ(m, gi) && (if gi.sfinished() || rec >= maxrec {
            v == gi.sscore() && n == 1
        } else {
            exists|vs2: Seq<int>, ns2: Seq<int>|
                #![trigger best_of(gi, vs2), sat_sum(ns2)]
                level_eval(gi, rec + 1, maxrec, vs2, ns2) && v == best_of(gi, vs2) && n == sat_sum(
                    ns2,
                )
        })
}

/// Assemble a level's evaluation from one evaluated move per entry.
proof fn lemma_level_eval_intro<M: Copy, T: Game<M>>(
    g: T,
    rec: int,
    maxrec: int,
    vs: Seq<int>,
    ns: Seq<int>,
)
    requires
        vs.len() == g.smoves().len(),
        ns.len() == g.smoves().len(),
        forall|i: int| 0 <= i < ns.len() ==> 1 <= #[trigger] ns[i] <= usize::MAX as int,
        forall|i: int|
            0 <= i < g.smoves().len() ==> move_eval(
                g,
                #[trigger] g.smoves()[i],
                rec,
                maxrec,
                vs[i],
                ns[i],
            ),
    ensures
        level_eval(g, rec, maxrec, vs, ns),
{
    assert forall|i: int|
        #![trigger g.smoves()[i]]
        0 <= i < g.smoves().len() implies move_eval(g, g.smoves()[i], rec, maxrec, vs[i], ns[i]) by {
        assert(move_eval(g, g.smoves()[i], rec, maxrec, vs[i], ns[i]));
    }
}

/// Every entry of a non-empty sequence is at most its maximum, which is one
/// of the entries.
proof fn lemma_seq_max_props(vs: Seq<int>)
    requires
        vs.len() > 0,
    ensures
        forall|i: int| 0 <= i < vs.len() ==> #[trigger] vs[i] <= seq_max(vs),
        vs.contains(seq_max(vs)),
    decreases vs.len(),
{
    if vs.len() > 1 {
        lemma_seq_max_props(vs.drop_last());
        assert forall|i: int| 0 <= i < vs.len() implies #[trigger] vs[i] <= seq_max(vs) by {
            if i < vs.len() - 1 {
                assert(vs.drop_last()[i] == vs[i]);
                assert(vs[i] <= seq_max(vs.drop_last()));
            }
        }
        if seq_max(vs) == vs.last() {
            assert(vs[vs.len() - 1] == seq_max(vs));
        } else {
            let j = choose|j: int|
                0 <= j < vs.drop_last().len() && vs.drop_last()[j] == seq_max(vs.drop_last());
            assert(vs[j] == seq_max(vs));
        }
    } else {
        assert(vs[0] == seq_max(vs));
    }
}

/// Every entry of a non-empty sequence is at least its minimum, which is one
/// of the entries.
proof fn lemma_seq_min_props(vs: Seq<int>)
    requires
        vs.len() > 0,
    ensures
        forall|i: int| 0 <= i < vs.len() ==> #[trigger] vs[i] >= seq_min(vs),
        vs.contains(seq_min(vs)),
    decreases vs.len(),
{
    if vs.len() > 1 {
        lemma_seq_min_props(vs.drop_last());
        assert forall|i: int| 0 <= i < vs.len() implies #[trigger] vs[i] >= seq_min(vs) by {
            if i < vs.len() - 1 {
                assert(vs.drop_last()[i] == vs[i]);
                assert(vs[i] >= seq_min(vs.drop_last()));
            }
        }
        if seq_min(vs) == vs.last() {
            assert(vs[vs.len() - 1] == seq_min(vs));
        } else {
            let j = choose|j: int|
                0 <= j < vs.drop_last().len() && vs.drop_last()[j] == seq_min(vs.drop_last());
            assert(vs[j] == seq_min(vs));
        }
    } else {
        assert(vs[0] == seq_min(vs));
    }
}

proof fn lemma_seq_sum_pos(ns: Seq<int>)
    requires
        forall|i: int| 0 <= i < ns.len() ==> ns[i] >= 1,
    ensures
        seq_sum(ns) >= ns.len(),
    decreases ns.len(),
{
    if ns.len() > 0 {
        lemma_seq_sum_pos(ns.drop_last());
    }
}

/// A path of moves built up by the search, shared by value.
#[derive(Debug)]
pub struct Path<M: Copy> {
    pub p: Vec<M>,
}

impl<M: Copy> Path<M> {
    pub fn new() -> (r: Path<M>)
        ensures
            r.p@.len() == 0,
    {
        Path { p: Vec::new() }
    }

    /// A new path extending this one by `m`; `self` is untouched.
    pub fn push(&self, m: M) -> (r: Path<M>)
        ensures
            r.p@ == self.p@.push(m),
    {
        let mut v = copy_vec(&self.p);
        v.push(m);
        Path { p: v }
    }
}

impl<M: Copy> Clone for Path<M> {
    fn clone(&self) -> (r: Path<M>)
        ensures
            r.p@ == self.p@,
    {
        Path { p: copy_vec(&self.p) }
    }
}

/// One evaluated line: the path from the root to a leaf, the leaf's score,
/// and how many leaves were evaluated to decide it.
#[derive(Debug)]
pub struct Score<M: Copy> {
    pub path: Path<M>,
    pub score: i64,
    pub score_cnt: usize,
}

impl<M: Copy> Score<M> {
    pub fn new(score: i64, p: Path<M>) -> (r: Score<M>)
        ensures
            r.score == score,
            r.path.p@ == p.p@,
            r.score_cnt == 1,
    {
        Score { path: p, score, score_cnt: 1 }
    }

    /// A copy of this line carrying leaf count `n`.
    pub fn set_n_scores(&self, n: usize) -> (r: Score<M>)
        ensures
            r.score == self.score,
            r.path.p@ == self.path.p@,
            r.score_cnt == n,
    {
        Score { path: self.path.clone(), score: self.score, score_cnt: n }
    }

    pub fn scores_count(&self) -> (n: usize)
        ensures
            n == self.score_cnt,
    {
        self.score_cnt
    }
}

impl<M: Copy> Clone for Score<M> {
    fn clone(&self) -> (r: Score<M>)
        ensures
            r.score == self.score,
            r.path.p@ == self.path.p@,
            r.score_cnt == self.score_cnt,
    {
        Score { path: self.path.clone(), score: self.score, score_cnt: self.score_cnt }
    }
}

#[verifier::external_type_specification]
#[verifier::external_body]
pub struct ExInstant(Instant);

/// Relies on std::time::Instant::now: a reading of the monotonic clock,
/// opaque to the logic.
#[verifier::external_body]
fn clock_now() -> Instant {
    Instant::now()
}

/// Relies on std::time::Instant::elapsed: the time since `t`, opaque to the
/// logic.
#[verifier::external_body]
fn clock_elapsed(t: &Instant) -> Duration {
    t.elapsed()
}

/// Relies on core::time::Duration::as_millis: the duration in whole
/// milliseconds; nothing is assumed of the clock's values.
#[verifier::external_body]
fn duration_millis(d: &Duration) -> u128 {
    d.as_millis()
}

/// Relies on rand::random_range: a sampled index of the non-empty range
/// `0..n`, which the documentation draws uniformly; the contract keeps only
/// that it is in range, true of every outcome.
#[verifier::external_body]
pub(crate) fn pick_index(n: usize) -> (r: usize)
    requires
        n >= 1,
    ensures
        r < n,
{
    rand::random_range(0..n)
}

/// The search engine: a fixed depth bound and, after a search, its
/// bookkeeping — leaves evaluated, winning score, wall-clock duration and the
/// principal path.
pub struct MiniMax<M: Copy> {
    pub score_cnt: usize,
    pub max_recursion: usize,
    pub score_winner: i64,
    pub duration: i64,
    pub path: Vec<M>,
}

impl<M: Copy> MiniMax<M> {
    pub fn new(max_recurions: usize) -> (r: MiniMax<M>)
        ensures
            r.max_recursion == max_recurions,
            r.score_cnt == 0,
            r.score_winner == 0,
            r.duration == 0,
            r.path@.len() == 0,
    {
        MiniMax {
            score_cnt: 0,
            max_recursion: max_recurions,
            score_winner: 0,
            duration: 0,
            path: Vec::new(),
        }
    }

    /// Search the full game tree below `game` to the configured depth and
    /// return the first move of the chosen principal path. The move is one
    /// of `game`'s own legal moves; the recorded score is both the minimax
    /// value of the position (`best_of` over the root level's `level_eval`)
    /// and the evaluation of the leaf the chosen path reaches, a leaf being
    /// a finished state or one at the depth bound; the recorded leaf count
    /// is the saturating total of leaves over the whole explored tree.
    pub fn minimax<T: Game<M>>(&mut self, game: T) -> (m: M)
        requires
            game.wf(),
            !game.sfinished(),
        ensures
            final(self).max_recursion == old(self).max_recursion,
            game.smoves().contains(m),
            final(self).path@.len() >= 1,
            final(self).path@[0] == m,
            final(self).path@.len() <= old(self).max_recursion + 1,
            exists|h: T| #[trigger]
                reaches(game, final(self).path@, h) && h.sscore() == final(self).score_winner as int
                    && (h.sfinished() || final(self).path@.len() > old(self).max_recursion),
            final(self).score_cnt >= 1,
            final(self).duration >= 0,
            exists|vs: Seq<int>, ns: Seq<int>| #[trigger]
                level_eval(game, 0, old(self).max_recursion as int, vs, ns)
                    && final(self).score_winner as int == best_of(game, vs)
                    && final(self).score_cnt as int == sat_sum(ns),
    {
        let start = clock_now();
        let x = self.max_recursion;
        let m = MiniMax::<M>::_select_by(&game, 0, Path::new(), x);
        self.score_winner = m.score;
        let ms = duration_millis(&clock_elapsed(&start));
        self.duration = if ms > i64::MAX as u128 {
            i64::MAX
        } else {
            ms as i64
        };
        self.score_cnt = m.scores_count();
        self.path = m.path.p;
        proof {
            assert(self.path@.skip(0) =~= self.path@);
            let (vs, ns) = choose|vs: Seq<int>, ns: Seq<int>| #[trigger]
                level_eval(game, 0usize as int, x as int, vs, ns) && m.score as int == best_of(
                    game,
                    vs,
                ) && m.score_cnt as int == sat_sum(ns);
            assert(level_eval(game, 0, old(self).max_recursion as int, vs, ns));
        }
        self.path[0]
    }

    /// The principal path of the last search.
    pub fn path(&self) -> (r: Vec<M>)
        ensures
            r@ == self.path@,
    {
        copy_vec(&self.path)
    }

    /// The wall-clock time the last search took, in milliseconds.
    pub fn duration_ms(&self) -> (r: i64)
        ensures
            r == self.duration,
    {
        self.duration
    }

    /// The number of leaf evaluations of the last search.
    pub fn scores(&self) -> (r: usize)
        ensures
            r == self.score_cnt,
    {
        self.score_cnt
    }

    /// The score of the chosen move.
    pub fn score(&self) -> (r: i64)
        ensures
            r == self.score_winner,
    {
        self.score_winner
    }

    /// Evaluate one move: play it, then score the successor as a leaf or
    /// search below it.
    fn _ai_minimax<T: Game<M>>(game: &T, m: M, rec: usize, path: Path<M>, maxrec: usize) -> (r:
        Score<M>)
        requires
            game.wf(),
            game.smoves().contains(m),
            rec <= maxrec,
        ensures
            r.path.p@.len() > path.p@.len(),
            r.path.p@.take(path.p@.len() as int) == path.p@,
            ({
                let suffix = r.path.p@.skip(path.p@.len() as int);
                &&& suffix[0] == m
                &&& suffix.len() >= 1
                &&& suffix.len() <= maxrec - rec + 1
                &&& exists|h: T| #[trigger]
                    reaches(*game, suffix, h) && h.sscore() == r.score as int && (h.sfinished()
                        || rec + suffix.len() - 1 >= maxrec)
            }),
            r.score_cnt >= 1,
            move_eval(*game, m, rec as int, maxrec as int, r.score as int, r.score_cnt as int),
        decreases maxrec - rec, 0int,
    {
        let g: T = game.set(m);
        let p = path.push(m);

        if g.finished() || rec >= maxrec {
            let r = Score::new(g.score(), p);
            proof {
                let suffix = r.path.p@.skip(path.p@.len() as int);
                assert(suffix =~= seq![m]);
                assert(r.path.p@.take(path.p@.len() as int) =~= path.p@);
                assert(suffix[0] == m);
                assert(suffix.skip(1) =~= Seq::<M>::empty());
                assert(reaches(g, suffix.skip(1), g));
                assert(game.succ(suffix[0], g));
                assert(reaches(*game, suffix, g));
                assert(game.succ(m, g));
                assert(move_eval(
                    *game,
                    m,
                    rec as int,
                    maxrec as int,
                    r.score as int,
                    r.score_cnt as int,
                ));
            }
            r
        } else {
            let next = rec + 1;
            let r = MiniMax::<M>::_select_by(&g, next, p, maxrec);
            proof {
                let plen = path.p@.len() as int;
                let suffix = r.path.p@.skip(plen);
                assert(r.path.p@.take(plen + 1) == path.p@.push(m));
                assert(r.path.p@.take(plen) =~= path.p@);
                assert(suffix[0] == r.path.p@[plen]);
                assert(r.path.p@.take(plen + 1)[plen] == m);
                assert(suffix[0] == m);
                assert(suffix.skip(1) =~= r.path.p@.skip(plen + 1));
                let h = choose|h: T| #[trigger]
                    reaches(g, r.path.p@.skip(plen + 1), h) && h.sscore() == r.score as int && (
                    h.sfinished() || next + r.path.p@.skip(plen + 1).len() - 1 >= maxrec);
                assert(game.succ(suffix[0], g));
                assert(reaches(*game, suffix, h));
                let (vs0, ns0) = choose|vs0: Seq<int>, ns0: Seq<int>| #[trigger]
                    level_eval(g, next as int, maxrec as int, vs0, ns0) && r.score as int
                        == best_of(g, vs0) && r.score_cnt as int == sat_sum(ns0);
                assert(level_eval(g, rec as int + 1, maxrec as int, vs0, ns0));
                assert(game.succ(m, g));
                assert(r.score as int == best_of(g, vs0));
                assert(r.score_cnt as int == sat_sum(ns0));
                assert(move_eval(
                    *game,
                    m,
                    rec as int,
                    maxrec as int,
                    r.score as int,
                    r.score_cnt as int,
                ));
            }
            r
        }
    }

    /// Score every legal move of `game` in full, then choose uniformly at
    /// random among the best — highest score for the engine's side, lowest
    /// for the opponent — and carry the total leaf count.
    fn _select_by<T: Game<M>>(game: &T, rec: usize, path: Path<M>, maxrec: usize) -> (r: Score<M>)
        requires
            game.wf(),
            !game.sfinished(),
            rec <= maxrec,
        ensures
            r.path.p@.len() > path.p@.len(),
            r.path.p@.take(path.p@.len() as int) == path.p@,
            ({
                let suffix = r.path.p@.skip(path.p@.len() as int);
                &&& game.smoves().contains(suffix[0])
                &&& suffix.len() >= 1
                &&& suffix.len() <= maxrec - rec + 1
                &&& exists|h: T| #[trigger]
                    reaches(*game, suffix, h) && h.sscore() == r.score as int && (h.sfinished()
                        || rec + suffix.len() - 1 >= maxrec)
            }),
            r.score_cnt >= 1,
            exists|vs: Seq<int>, ns: Seq<int>| #[trigger]
                level_eval(*game, rec as int, maxrec as int, vs, ns) && r.score as int == best_of(
                    *game,
                    vs,
                ) && r.score_cnt as int == sat_sum(ns),
        decreases maxrec - rec, 1int,
    {
        let ghost plen = path.p@.len() as int;
        let moves = game.valid_moves();
        let nm = moves.len();

        // Compute the score of each valid move.
        let mut scores: Vec<Score<M>> = Vec::new();
        let ghost mut hs: Seq<T> = Seq::empty();
        let mut i: usize = 0;
        while i < nm
            invariant
                game.wf(),
                !game.sfinished(),
                rec <= maxrec,
                moves@ == game.smoves(),
                nm == moves@.len(),
                i <= nm,
                scores@.len() == i,
                hs.len() == i,
                plen == path.p@.len() as int,
                forall|k: int|
                    0 <= k < i ==> {
                        let s = #[trigger] scores@[k];
                        &&& s.path.p@.len() > plen
                        &&& s.path.p@.take(plen) == path.p@
                        &&& s.path.p@.skip(plen)[0] == moves@[k]
                        &&& s.path.p@.skip(plen).len() <= maxrec - rec + 1
                        &&& reaches(*game, s.path.p@.skip(plen), hs[k])
                        &&& hs[k].sscore() == s.score as int
                        &&& hs[k].sfinished() || rec + s.path.p@.skip(plen).len() - 1 >= maxrec
                        &&& s.score_cnt >= 1
                        &&& move_eval(
                            *game,
                            moves@[k],
                            rec as int,
                            maxrec as int,
                            s.score as int,
                            s.score_cnt as int,
                        )
                    },
            decreases nm - i,
        {
            let pc = path.clone();
            let ghost pclen = pc.p@.len() as int;
            let s = MiniMax::<M>::_ai_minimax(game, moves[i], rec, pc, maxrec);
            proof {
                assert(pclen == plen);
                let h = choose|h: T| #[trigger]
                    reaches(*game, s.path.p@.skip(pclen), h) && h.sscore() == s.score as int && (
                    h.sfinished() || rec + s.path.p@.skip(pclen).len() - 1 >= maxrec);
                assert(reaches(*game, s.path.p@.skip(plen), h));
                assert(s.path.p@.take(plen) == path.p@);
                hs = hs.push(h);
            }
            scores.push(s);
            i += 1;
        }

        // Sum the leaf counts, saturating at the counter's width.
        let ghost ns = Seq::new(nm as nat, |k: int| scores@[k].score_cnt as int);
        let ghost vals = Seq::new(nm as nat, |k: int| scores@[k].score as int);
        let mut n: usize = 0;
        let mut j: usize = 0;
        while j < nm
            invariant
                scores@.len() == nm,
                j <= nm,
                ns.len() == nm,
                forall|k: int| 0 <= k < nm ==> ns[k] == (#[trigger] scores@[k]).score_cnt as int,
                n as int == sat_sum(ns.take(j as int)),
            decreases nm - j,
        {
            proof {
                assert(ns.take(j as int + 1).drop_last() =~= ns.take(j as int));
                assert(ns.take(j as int + 1).last() == ns[j as int]);
            }
            let c = scores[j].score_cnt;
            n = if n > usize::MAX - c {
                usize::MAX
            } else {
                n + c
            };
            j += 1;
        }
        proof {
            assert(ns.take(nm as int) =~= ns);
        }

        // Find the best score for the side to move.
        let maximize = match game.current_player() {
            Player::AI => true,
            Player::HUMAN => false,
        };
        let mut best: i64 = scores[0].score;
        let mut j2: usize = 1;
        while j2 < nm
            invariant
                scores@.len() == nm,
                nm >= 1,
                j2 <= nm,
                exists|k: int| 0 <= k < nm && (#[trigger] scores@[k]).score == best,
                forall|k: int|
                    0 <= k < j2 ==> ({
                        let sc = (#[trigger] scores@[k]).score;
                        if maximize {
                            sc <= best
                        } else {
                            sc >= best
                        }
                    }),
            decreases nm - j2,
        {
            let better = if maximize {
                scores[j2].score > best
            } else {
                scores[j2].score < best
            };
            if better {
                best = scores[j2].score;
            }
            j2 += 1;
        }

        // Collect the tied moves and pick one uniformly at random.
        let mut tied: Vec<usize> = Vec::new();
        let mut j3: usize = 0;
        while j3 < nm
            invariant
                scores@.len() == nm,
                j3 <= nm,
                forall|q: int|
                    0 <= q < tied@.len() ==> (#[trigger] tied@[q]) < nm && scores@[tied@[q] as int].score
                        == best,
                (exists|k: int| 0 <= k < j3 && (#[trigger] scores@[k]).score == best)
                    <==> tied@.len() > 0,
            decreases nm - j3,
        {
            if scores[j3].score == best {
                tied.push(j3);
            }
            j3 += 1;
        }
        proof {
            let k = choose|k: int| 0 <= k < nm && (#[trigger] scores@[k]).score == best;
        }
        let t = pick_index(tied.len());
        let w = tied[t];
        let chosen = scores[w].clone();
        let r = chosen.set_n_scores(n);
        proof {
            let wi = w as int;
            let suffix = r.path.p@.skip(plen);
            assert(moves@[wi] == game.smoves()[wi]);
            assert(game.smoves().contains(moves@[wi]));
            assert(suffix == scores@[wi].path.p@.skip(plen));
            assert(reaches(*game, suffix, hs[wi]));
            assert forall|k: int| 0 <= k < ns.len() implies 1 <= #[trigger] ns[k] <= usize::MAX
                as int by {
                let sk = scores@[k];
                assert(ns[k] == scores@[k].score_cnt as int);
            }
            assert forall|k: int|
                0 <= k < game.smoves().len() implies move_eval(
                *game,
                #[trigger] game.smoves()[k],
                rec as int,
                maxrec as int,
                vals[k],
                ns[k],
            ) by {
                let sk = scores@[k];
                assert(game.smoves()[k] == moves@[k]);
                assert(move_eval(
                    *game,
                    moves@[k],
                    rec as int,
                    maxrec as int,
                    sk.score as int,
                    sk.score_cnt as int,
                ));
            }
            lemma_level_eval_intro(*game, rec as int, maxrec as int, vals, ns);
            lemma_seq_sum_pos(ns);
            assert(sat_sum(ns) >= 1);
            // The chosen score is the extreme of the children's values.
            let kb = choose|k: int| 0 <= k < nm && (#[trigger] scores@[k]).score == best;
            assert(vals[kb] == best as int);
            if maximize {
                lemma_seq_max_props(vals);
                let jm = choose|j: int| 0 <= j < vals.len() && vals[j] == seq_max(vals);
                assert(scores@[jm].score <= best);
                assert(seq_max(vals) == best as int);
            } else {
                lemma_seq_min_props(vals);
                let jm = choose|j: int| 0 <= j < vals.len() && vals[j] == seq_min(vals);
                assert(scores@[jm].score >= best);
                assert(seq_min(vals) == best as int);
            }
            assert(r.score as int == best_of(*game, vals));
        }
        r
    }
}

} // verus!
