//! The game engine: sole owner and mutator of the live board, enforcing
//! move legality, combat resolution, reinforcement and turn rotation.
//!
//! Policy choices, fixed here: a tie in combat favours the defender; at the
//! end of a turn every territory of the current player below the cap gains
//! exactly one reinforcement unit; turns pass in ascending player order,
//! skipping players who own no territory.

use vstd::prelude::*;
use crate::board::{graph_of, row_ok, Board, Teritory, MAX_STACK};
use crate::graph::adj;
use crate::rng::{gen_range, random_seed, rng_from_seed};

verus! {

/// Why a command was refused. The state is left unchanged in every case.
#[derive(Clone, Copy, Debug, PartialEq, Eq, Structural)]
pub enum GameError {
    /// A territory index does not name a territory, or the board handed to
    /// the engine was not valid for the given player count.
    OutOfRange,
    /// An attack violated a legality precondition.
    IllegalMove,
    /// The game has already been won; no command can change that.
    GameOver,
}

/// Which side won a combat.
#[derive(Clone, Copy, Debug, PartialEq, Eq, Structural)]
pub enum Winner {
    Attacker,
    Defender,
}

/// The result of a resolved attack, for the caller to render.
#[derive(Clone, Copy, Debug, PartialEq, Eq, Structural)]
pub struct MoveOutcome {
    pub winner: Winner,
    pub attacker_roll: u32,
    pub defender_roll: u32,
}

/// The mathematical content of a [`GameState`]: the territories, whose turn
/// it is, and how many players the game was set up with.
pub struct GameView {
    pub ts: Seq<Teritory>,
    pub current: int,
    pub players: int,
}

/// A single player owns the whole board: the game is over.
pub open spec fn sole_owner(ts: Seq<Teritory>) -> bool {
    forall|i: int| 0 <= i < ts.len() ==> (#[trigger] ts[i]).owner == ts[0].owner
}

/// Player `p` still owns at least one territory.
pub open spec fn owns_some(ts: Seq<Teritory>, p: int) -> bool {
    exists|i: int| 0 <= i < ts.len() && ((#[trigger] ts[i]).owner as int) == p
}

/// The attack preconditions: the source belongs to the player whose turn it
/// is and can spare a unit, and the target is an adjacent enemy territory.
pub open spec fn legal_move(ts: Seq<Teritory>, current: int, s: int, t: int) -> bool {
    &&& (ts[s].owner as int) == current
    &&& adj(graph_of(ts), s, t)
    &&& ts[t].owner != ts[s].owner
    &&& ts[s].dice > 1
}

/// End-of-turn reinforcement, one territory at a time: a territory of
/// player `p` below the cap gains one unit; every other stays as it is.
pub open spec fn reinforced_t(t: Teritory, p: int) -> Teritory {
    if (t.owner as int) == p && t.dice < MAX_STACK {
        Teritory { dice: (t.dice + 1) as u32, ..t }
    } else {
        t
    }
}

/// The player reached from `cp` after `k` seats around a table of `pc`.
pub open spec fn wrap_player(cp: int, k: int, pc: int) -> int {
    if cp + k < pc {
        cp + k
    } else {
        cp + k - pc
    }
}

/// The legal attack targets from `s`: its listed connections that another
/// player owns, in listing order.
pub open spec fn enemy_neighbors(ts: Seq<Teritory>, s: int) -> Seq<usize> {
    ts[s].connections@.filter(|j: usize| ts[j as int].owner != ts[s].owner)
}

/// What a resolved attack did to the board: the attacker's roll is one die
/// per source unit, the defender's one per target unit; with the strictly
/// greater sum the attacker captures the target and moves all units but
/// one in, and in every case the source keeps a single unit. No other
/// territory is touched.
pub open spec fn move_effect(
    pre: Seq<Teritory>,
    post: Seq<Teritory>,
    s: int,
    t: int,
    o: MoveOutcome,
) -> bool {
    &&& pre[s].dice <= o.attacker_roll <= 6 * pre[s].dice
    &&& pre[t].dice <= o.defender_roll <= 6 * pre[t].dice
    &&& (o.winner == Winner::Attacker <==> o.attacker_roll > o.defender_roll)
    &&& post.len() == pre.len()
    &&& forall|k: int| 0 <= k < pre.len() && k != s && k != t ==> post[k] == pre[k]
    &&& post[s].owner == pre[s].owner
    &&& post[s].connections == pre[s].connections
    &&& post[s].dice == 1
    &&& (o.winner == Winner::Attacker ==> post[t].owner == pre[s].owner && post[t].dice == pre[
        s
    ].dice - 1 && post[t].connections == pre[t].connections)
    &&& (o.winner == Winner::Defender ==> post[t] == pre[t])
}

/// Handing out dice along a connection list, one at a time: connection `k`
/// and onward each receive one die while the budget `d` lasts, except that
/// a receiver already at the cap is passed over without spending a die.
pub open spec fn give_out(ts: Seq<Teritory>, conns: Seq<usize>, k: int, d: int) -> (Seq<
    Teritory
>, int)
    decreases conns.len() - k,
{
    if k < 0 || k >= conns.len() || d <= 0 {
        (ts, d)
    } else {
        let j = conns[k] as int;
        if ts[j].dice < MAX_STACK {
            give_out(
                ts.update(j, Teritory { dice: (ts[j].dice + 1) as u32, ..ts[j] }),
                conns,
                k + 1,
                d - 1,
            )
        } else {
            give_out(ts, conns, k + 1, d)
        }
    }
}

/// One territory's spreading turn: its whole stack is handed out along its
/// connection list and whatever could not be given stays behind.
pub open spec fn spread_step(ts: Seq<Teritory>, i: int) -> Seq<Teritory> {
    let handed = give_out(ts, ts[i].connections@, 0, ts[i].dice as int);
    handed.0.update(i, Teritory { dice: handed.1 as u32, ..handed.0[i] })
}

/// The spreading pass after the first `i` territories have taken their
/// turn, in ascending order.
pub open spec fn spread_upto(ts: Seq<Teritory>, i: int) -> Seq<Teritory>
    decreases i,
{
    if i <= 0 {
        ts
    } else {
        spread_step(spread_upto(ts, i - 1), i - 1)
    }
}

/// After any resolved attack on an enemy territory, the target's
/// ownership has changed exactly when the attacker won the combat.
pub proof fn lemma_capture_iff_attacker_win(
    pre: Seq<Teritory>,
    post: Seq<Teritory>,
    s: int,
    t: int,
    o: MoveOutcome,
)
    requires
        0 <= s < pre.len(),
        0 <= t < pre.len(),
        pre[t].owner != pre[s].owner,
        move_effect(pre, post, s, t, o),
    ensures
        (post[t].owner != pre[t].owner) <==> o.winner == Winner::Attacker,
{
}

/// The engine's invariant over its mathematical content.
pub open spec fn inv_view(v: GameView) -> bool {
    &&& v.players >= 1
    &&& 0 <= v.current < v.players
    &&& v.ts.len() >= 1
    &&& forall|i: int|
        0 <= i < v.ts.len() ==> (#[trigger] v.ts[i]).wf_at(i, v.ts.len() as int, v.players)
}

/// Players with the same holdings own the same territories.
proof fn lemma_owns_same(ts1: Seq<Teritory>, ts2: Seq<Teritory>, p: int)
    requires
        ts1.len() == ts2.len(),
        forall|i: int| 0 <= i < ts1.len() ==> (#[trigger] ts1[i]).owner == ts2[i].owner,
    ensures
        owns_some(ts1, p) == owns_some(ts2, p),
{
    if owns_some(ts1, p) {
        let i = choose|i: int| 0 <= i < ts1.len() && ((#[trigger] ts1[i]).owner as int) == p;
        assert((ts2[i].owner as int) == p);
    }
    if owns_some(ts2, p) {
        let i = choose|i: int| 0 <= i < ts2.len() && ((#[trigger] ts2[i]).owner as int) == p;
        assert((ts1[i].owner as int) == p);
    }
}

/// Rolls `count` six-sided dice and sums them.
fn roll_sum(rng: &mut rand::rngs::StdRng, count: u32) -> (r: u32)
    requires
        count <= MAX_STACK,
    ensures
        count <= r <= 6 * count,
{
    let mut total: u32 = 0;
    let mut i: u32 = 0;
    while i < count
        invariant
            i <= count,
            i <= total <= 6 * i,
        decreases count - i,
    {
        let die = gen_range(rng, 1, 7);
        total = total + (die as u32);
        i += 1;
    }
    total
}

/// The live game: the board, whose turn it is, and the engine's own
/// random source. All mutation of the board goes through these methods.
pub struct GameState {
    board: Board,
    current_player: usize,
    player_count: usize,
    rng: rand::rngs::StdRng,
}

impl View for GameState {
    type V = GameView;

    closed spec fn view(&self) -> GameView {
        GameView {
            ts: self.board.teritories@,
            current: self.current_player as int,
            players: self.player_count as int,
        }
    }
}

impl GameState {
    /// The engine's invariant; [`GameState::new`] establishes it and every
    /// method preserves it.
    pub open spec fn wf(self) -> bool {
        inv_view(self@)
    }

    /// Wraps a board as a live game of `player_count` players with player 0
    /// to move, after validating it: every owner must be a player and every
    /// connection must name another existing territory, none twice. Combat
    /// randomness is drawn from `seed`, or from system entropy with no seed.
    pub fn new(board: Board, player_count: usize, seed: Option<u64>) -> (r: Result<
        GameState,
        GameError,
    >)
        ensures
            r matches Ok(g) ==> g.wf() && g@.ts == board.teritories@ && g@.current == 0
                && g@.players == player_count as int,
            r is Ok <==> (player_count >= 1 && board.teritories@.len() >= 1 && (forall|i: int|
                0 <= i < board.teritories@.len() ==> (#[trigger] board.teritories@[i]).wf_at(
                    i,
                    board.teritories@.len() as int,
                    player_count as int,
                ))),
            r is Err ==> r->Err_0 == GameError::OutOfRange,
    {
        if player_count < 1 {
            return Result::Err(GameError::OutOfRange);
        }
        let n = board.teritories.len();
        if n < 1 {
            return Result::Err(GameError::OutOfRange);
        }
        let mut i: usize = 0;
        while i < n
            invariant
                i <= n,
                n == board.teritories@.len(),
                forall|a: int|
                    0 <= a < i ==> (#[trigger] board.teritories@[a]).wf_at(
                        a,
                        n as int,
                        player_count as int,
                    ),
            decreases n - i,
        {
            if board.teritories[i].owner >= player_count {
                return Result::Err(GameError::OutOfRange);
            }
            if board.teritories[i].dice > MAX_STACK {
                return Result::Err(GameError::OutOfRange);
            }
            let m = board.teritories[i].connections.len();
            let mut k: usize = 0;
            while k < m
                invariant
                    k <= m,
                    i < n,
                    n == board.teritories@.len(),
                    m == board.teritories@[i as int].connections@.len(),
                    forall|q: int|
                        0 <= q < k ==> ((#[trigger] board.teritories@[i as int].connections@[q] as int)
                            < n as int) && board.teritories@[i as int].connections@[q] as int
                            != i as int,
                    forall|q1: int, q2: int|
                        0 <= q1 < q2 < k ==> board.teritories@[i as int].connections@[q1]
                            != board.teritories@[i as int].connections@[q2],
                decreases m - k,
            {
                let c = board.teritories[i].connections[k];
                if c >= n || c == i {
                    return Result::Err(GameError::OutOfRange);
                }
                let mut q: usize = 0;
                while q < k
                    invariant
                        q <= k,
                        k < m,
                        i < n,
                        n == board.teritories@.len(),
                        m == board.teritories@[i as int].connections@.len(),
                        c == board.teritories@[i as int].connections@[k as int],
                        forall|p2: int|
                            0 <= p2 < q ==> board.teritories@[i as int].connections@[p2]
                                != board.teritories@[i as int].connections@[k as int],
                    decreases k - q,
                {
                    if board.teritories[i].connections[q] == c {
                        return Result::Err(GameError::OutOfRange);
                    }
                    q += 1;
                }
                k += 1;
            }
            i += 1;
        }
        let seed_value: u64 = match seed {
            Option::Some(s) => s,
            Option::None => random_seed(),
        };
        Result::Ok(
            GameState {
                board,
                current_player: 0,
                player_count,
                rng: rng_from_seed(seed_value),
            },
        )
    }

    /// How many territories the board holds.
    pub fn territory_count(&self) -> (n: usize)
        ensures
            n == self@.ts.len(),
    {
        self.board.teritories.len()
    }

    /// The player whose turn is active.
    pub fn current_player(&self) -> (p: usize)
        ensures
            p as int == self@.current,
    {
        self.current_player
    }

    /// The number of players the game was set up with.
    pub fn player_count(&self) -> (p: usize)
        ensures
            p as int == self@.players,
    {
        self.player_count
    }

    /// The owner of a territory.
    pub fn owner(&self, teritory: usize) -> (r: Result<usize, GameError>)
        ensures
            teritory < self@.ts.len() ==> r is Ok && r->Ok_0 == self@.ts[teritory as int].owner,
            teritory >= self@.ts.len() ==> r is Err && r->Err_0 == GameError::OutOfRange,
    {
        if teritory < self.board.teritories.len() {
            Result::Ok(self.board.teritories[teritory].owner)
        } else {
            Result::Err(GameError::OutOfRange)
        }
    }

    /// The reinforcement count of a territory.
    pub fn reinforcement_count(&self, teritory: usize) -> (r: Result<u32, GameError>)
        ensures
            teritory < self@.ts.len() ==> r is Ok && r->Ok_0 == self@.ts[teritory as int].dice,
            teritory >= self@.ts.len() ==> r is Err && r->Err_0 == GameError::OutOfRange,
    {
        if teritory < self.board.teritories.len() {
            Result::Ok(self.board.teritories[teritory].dice)
        } else {
            Result::Err(GameError::OutOfRange)
        }
    }

    /// The territories adjacent to `teritory`, in listing order.
    pub fn neighbors(&self, teritory: usize) -> (r: Result<Vec<usize>, GameError>)
        ensures
            teritory < self@.ts.len() ==> r is Ok && r->Ok_0@ == self@.ts[
                teritory as int
            ].connections@,
            teritory >= self@.ts.len() ==> r is Err && r->Err_0 == GameError::OutOfRange,
    {
        if teritory < self.board.teritories.len() {
            let m = self.board.teritories[teritory].connections.len();
            let mut out: Vec<usize> = Vec::new();
            let mut k: usize = 0;
            while k < m
                invariant
                    k <= m,
                    teritory < self@.ts.len(),
                    m == self@.ts[teritory as int].connections@.len(),
                    out@ =~= self@.ts[teritory as int].connections@.take(k as int),
                decreases m - k,
            {
                out.push(self.board.teritories[teritory].connections[k]);
                k += 1;
            }
            proof {
                assert(out@ =~= self@.ts[teritory as int].connections@);
            }
            Result::Ok(out)
        } else {
            Result::Err(GameError::OutOfRange)
        }
    }

    /// Whether the game is over: a single player owns every territory.
    pub fn is_finished(&self) -> (r: bool)
        requires
            self.wf(),
        ensures
            r == sole_owner(self@.ts),
    {
        let first = self.board.teritories[0].owner;
        let n = self.board.teritories.len();
        let mut i: usize = 1;
        let mut all = true;
        while i < n
            invariant
                1 <= i <= n,
                n == self@.ts.len(),
                first == self@.ts[0].owner,
                all <==> (forall|a: int| 0 <= a < i ==> (#[trigger] self@.ts[a]).owner == first),
            decreases n - i,
        {
            if self.board.teritories[i].owner != first {
                all = false;
            }
            i += 1;
        }
        all
    }

    /// Whether `source` lists `target` among its connections.
    fn lists(&self, source: usize, target: usize) -> (b: bool)
        requires
            source < self@.ts.len(),
        ensures
            b == adj(graph_of(self@.ts), source as int, target as int),
    {
        let m = self.board.teritories[source].connections.len();
        let mut k: usize = 0;
        let mut found = false;
        while k < m
            invariant
                k <= m,
                source < self@.ts.len(),
                m == self@.ts[source as int].connections@.len(),
                found <==> (exists|q: int|
                    0 <= q < k && (#[trigger] self@.ts[source as int].connections@[q]) == target),
            decreases m - k,
        {
            if self.board.teritories[source].connections[k] == target {
                found = true;
            }
            k += 1;
        }
        found
    }

    /// The legal attack targets from `source`: the listed neighbors owned
    /// by another player — provided `source` names a territory of the
    /// active player holding more than one unit. Otherwise no move is open
    /// from `source` and the list is empty; that is not an error.
    pub fn available_moves(&self, source: usize) -> (r: Vec<usize>)
        requires
            self.wf(),
        ensures
            (source < self@.ts.len() && (self@.ts[source as int].owner as int) == self@.current
                && self@.ts[source as int].dice > 1) ==> r@ == enemy_neighbors(
                self@.ts,
                source as int,
            ),
            !(source < self@.ts.len() && (self@.ts[source as int].owner as int) == self@.current
                && self@.ts[source as int].dice > 1) ==> r@.len() == 0,
            // a territory can never attack itself
            forall|k: int| 0 <= k < r@.len() ==> (#[trigger] r@[k]) != source,
            // only adjacent territories of another owner are offered
            forall|k: int|
                0 <= k < r@.len() ==> ((#[trigger] r@[k] as int) < self@.ts.len() && self@.ts[r@[
                    k
                ] as int].owner != self@.ts[source as int].owner && adj(
                    graph_of(self@.ts),
                    source as int,
                    r@[k] as int,
                )),
            // a territory with a single unit has no move
            source < self@.ts.len() && self@.ts[source as int].dice <= 1 ==> r@.len() == 0,
    {
        broadcast use vstd::seq_lib::group_filter_ensures;

        let n = self.board.teritories.len();
        let mut out: Vec<usize> = Vec::new();
        if source >= n {
            return out;
        }
        if self.board.teritories[source].owner != self.current_player {
            return out;
        }
        if self.board.teritories[source].dice <= 1 {
            return out;
        }
        let src_owner = self.board.teritories[source].owner;
        let m = self.board.teritories[source].connections.len();
        let ghost pred = |j: usize| self@.ts[j as int].owner != self@.ts[source as int].owner;
        let mut k: usize = 0;
        while k < m
            invariant
                k <= m,
                source < n,
                n == self@.ts.len(),
                src_owner == self@.ts[source as int].owner,
                m == self@.ts[source as int].connections@.len(),
                row_ok(self@.ts[source as int].connections@, source as int, n as int),
                out@ == self@.ts[source as int].connections@.take(k as int).filter(pred),
            decreases m - k,
        {
            let c = self.board.teritories[source].connections[k];
            proof {
                self@.ts[source as int].connections@.lemma_take_succ_push(k as int);
                self@.ts[source as int].connections@.take(k as int).lemma_filter_push(c, pred);
            }
            if self.board.teritories[c].owner != src_owner {
                out.push(c);
            }
            k += 1;
        }
        proof {
            assert(self@.ts[source as int].connections@.take(m as int) =~= self@.ts[
                source as int
            ].connections@);
            let res = enemy_neighbors(self@.ts, source as int);
            assert(out@ == res);
            assert forall|k2: int| 0 <= k2 < res.len() implies ((#[trigger] res[k2] as int)
                < self@.ts.len() && self@.ts[res[k2] as int].owner != self@.ts[
                source as int
            ].owner && adj(graph_of(self@.ts), source as int, res[k2] as int) && res[k2]
                != source) by {
                let row = self@.ts[source as int].connections@;
                row.lemma_filter_pred(pred, k2);
                row.lemma_filter_contains_rev(pred, res[k2]);
                let q = choose|q: int| 0 <= q < row.len() && row[q] == res[k2];
                assert((row[q] as int) < self@.ts.len() && row[q] as int != source as int);
            }
        }
        out
    }

    /// Attempts an attack from `source` on `target` and resolves the
    /// combat: each side rolls one six-sided die per reinforcement unit of
    /// its territory, and the attacker captures the target only with the
    /// strictly greater sum — a tie favours the defender. The loser's
    /// source keeps a single unit; on capture all attacking units but one
    /// move in. Does not advance the turn.
    pub fn make_move(&mut self, source: usize, target: usize) -> (r: Result<
        MoveOutcome,
        GameError,
    >)
        requires
            old(self).wf(),
        ensures
            final(self).wf(),
            final(self)@.current == old(self)@.current,
            final(self)@.players == old(self)@.players,
            (r is Err && r->Err_0 == GameError::GameOver) <==> sole_owner(old(self)@.ts),
            !sole_owner(old(self)@.ts) ==> ((r is Err && r->Err_0 == GameError::OutOfRange) <==> (
            source >= old(self)@.ts.len() || target >= old(self)@.ts.len())),
            (!sole_owner(old(self)@.ts) && source < old(self)@.ts.len() && target < old(
                self,
            )@.ts.len()) ==> ((r is Err && r->Err_0 == GameError::IllegalMove) <==> !legal_move(
                old(self)@.ts,
                old(self)@.current,
                source as int,
                target as int,
            )),
            r is Ok <==> (!sole_owner(old(self)@.ts) && source < old(self)@.ts.len() && target
                < old(self)@.ts.len() && legal_move(
                old(self)@.ts,
                old(self)@.current,
                source as int,
                target as int,
            )),
            r is Err ==> final(self)@.ts == old(self)@.ts,
            r matches Ok(o) ==> move_effect(
                old(self)@.ts,
                final(self)@.ts,
                source as int,
                target as int,
                o,
            ),
    {
        if self.is_finished() {
            return Result::Err(GameError::GameOver);
        }
        let n = self.board.teritories.len();
        if source >= n || target >= n {
            return Result::Err(GameError::OutOfRange);
        }
        let src_owner = self.board.teritories[source].owner;
        let src_dice = self.board.teritories[source].dice;
        let tgt_owner = self.board.teritories[target].owner;
        let adjacent = self.lists(source, target);
        if !(src_owner == self.current_player && adjacent && tgt_owner != src_owner && src_dice
            > 1) {
            return Result::Err(GameError::IllegalMove);
        }
        let tgt_dice = self.board.teritories[target].dice;
        let attacker_roll = roll_sum(&mut self.rng, src_dice);
        let defender_roll = roll_sum(&mut self.rng, tgt_dice);
        if attacker_roll > defender_roll {
            self.board.teritories[target].owner = src_owner;
            self.board.teritories[target].dice = src_dice - 1;
            self.board.teritories[source].dice = 1;
            Result::Ok(MoveOutcome { winner: Winner::Attacker, attacker_roll, defender_roll })
        } else {
            self.board.teritories[source].dice = 1;
            Result::Ok(MoveOutcome { winner: Winner::Defender, attacker_roll, defender_roll })
        }
    }

    /// Whether player `p` still owns at least one territory.
    fn owns_any(&self, p: usize) -> (b: bool)
        ensures
            b == owns_some(self@.ts, p as int),
    {
        let n = self.board.teritories.len();
        let mut i: usize = 0;
        let mut found = false;
        while i < n
            invariant
                i <= n,
                n == self@.ts.len(),
                found <==> (exists|a: int|
                    0 <= a < i && ((#[trigger] self@.ts[a]).owner as int) == p as int),
            decreases n - i,
        {
            if self.board.teritories[i].owner == p {
                found = true;
            }
            i += 1;
        }
        found
    }

    /// Ends the current player's turn: every territory of the current
    /// player below the cap gains one reinforcement unit, and the turn
    /// passes to the next player, in ascending order, who still owns a
    /// territory. Fails with `GameOver`, changing nothing, once a single
    /// player owns the whole board.
    pub fn finish_turn(&mut self) -> (r: Result<(), GameError>)
        requires
            old(self).wf(),
        ensures
            final(self).wf(),
            final(self)@.players == old(self)@.players,
            r is Err <==> sole_owner(old(self)@.ts),
            r is Err ==> r->Err_0 == GameError::GameOver && final(self)@.ts == old(self)@.ts
                && final(self)@.current == old(self)@.current,
            r is Ok ==> final(self)@.ts.len() == old(self)@.ts.len() && (forall|i: int|
                0 <= i < old(self)@.ts.len() ==> final(self)@.ts[i] == reinforced_t(
                    #[trigger] old(self)@.ts[i],
                    old(self)@.current,
                )),
            r is Ok ==> (exists|k: int|
                1 <= k <= old(self)@.players && final(self)@.current == wrap_player(
                    old(self)@.current,
                    k,
                    old(self)@.players,
                ) && owns_some(old(self)@.ts, final(self)@.current) && (forall|q: int|
                    1 <= q < k ==> !owns_some(
                        old(self)@.ts,
                        wrap_player(old(self)@.current, q, old(self)@.players),
                    ))),
    {
        if self.is_finished() {
            return Result::Err(GameError::GameOver);
        }
        let n = self.board.teritories.len();
        let cp = self.current_player;
        // reinforcement: one unit to each territory of the player below the cap
        let mut i: usize = 0;
        while i < n
            invariant
                i <= n,
                self@.ts.len() == n,
                n == old(self)@.ts.len(),
                cp as int == old(self)@.current,
                self@.current == old(self)@.current,
                self@.players == old(self)@.players,
                forall|a: int|
                    0 <= a < i ==> self@.ts[a] == reinforced_t(
                        #[trigger] old(self)@.ts[a],
                        cp as int,
                    ),
                forall|a: int| i <= a < n ==> self@.ts[a] == old(self)@.ts[a],
            decreases n - i,
        {
            let d = self.board.teritories[i].dice;
            if self.board.teritories[i].owner == cp && d < MAX_STACK {
                self.board.teritories[i].dice = d + 1;
            }
            i += 1;
        }
        let ghost reinforced = self@.ts;
        proof {
            assert forall|p: int| true implies owns_some(reinforced, p) == owns_some(
                old(self)@.ts,
                p,
            ) by {
                lemma_owns_same(reinforced, old(self)@.ts, p);
            }
        }
        // pass the turn to the next surviving player
        let pc = self.player_count;
        let mut k: usize = 0;
        let mut next: usize = cp;
        let mut found = false;
        let ghost mut kfound: int = 0;
        while k < pc
            invariant
                k <= pc,
                cp < pc,
                pc as int == old(self)@.players,
                self@.ts == reinforced,
                self@.current == cp as int,
                self@.players == pc as int,
                self@.ts.len() == old(self)@.ts.len(),
                found ==> 1 <= kfound <= k as int && next as int == wrap_player(
                    cp as int,
                    kfound,
                    pc as int,
                ) && owns_some(old(self)@.ts, next as int) && (forall|q: int|
                    1 <= q < kfound ==> !owns_some(
                        old(self)@.ts,
                        wrap_player(cp as int, q, pc as int),
                    )),
                !found ==> (forall|q: int|
                    1 <= q <= k as int ==> !owns_some(
                        old(self)@.ts,
                        wrap_player(cp as int, q, pc as int),
                    )),
            decreases pc - k,
        {
            if !found {
                let off = k + 1;
                let cand = if cp >= pc - off {
                    cp - (pc - off)
                } else {
                    cp + off
                };
                proof {
                    assert(cand as int == wrap_player(cp as int, off as int, pc as int));
                }
                if self.owns_any(cand) {
                    proof {
                        lemma_owns_same(reinforced, old(self)@.ts, cand as int);
                    }
                    next = cand;
                    found = true;
                    proof {
                        kfound = off as int;
                    }
                }
            }
            k += 1;
        }
        proof {
            if !found {
                let o = old(self)@.ts[0].owner as int;
                let kq = if o > cp as int {
                    o - cp as int
                } else {
                    o + pc as int - cp as int
                };
                assert(1 <= kq <= pc as int);
                assert(wrap_player(cp as int, kq, pc as int) == o);
                assert(!owns_some(old(self)@.ts, o));
                assert((old(self)@.ts[0].owner as int) == o);
                assert(owns_some(old(self)@.ts, o));
            }
            assert(found);
            assert((next as int) < (pc as int));
            assert forall|a: int| 0 <= a < reinforced.len() implies (#[trigger] reinforced[a]).wf_at(
                a,
                reinforced.len() as int,
                pc as int,
            ) by {
                assert(reinforced[a] == reinforced_t(old(self)@.ts[a], cp as int));
                assert(old(self)@.ts[a].wf_at(a, reinforced.len() as int, pc as int));
                assert(reinforced[a].connections == old(self)@.ts[a].connections);
            }
        }
        self.current_player = next;
        Result::Ok(())
    }

    /// Spreads every territory's stack over its neighbors: in ascending
    /// index order each territory hands one die to each of its listed
    /// connections in turn until its stack is spent, keeping the rest;
    /// a receiver already at the cap is passed over without a die being
    /// spent. Owners and connections are untouched.
    pub fn spread_dice(&mut self)
        requires
            old(self).wf(),
        ensures
            final(self).wf(),
            final(self)@.current == old(self)@.current,
            final(self)@.players == old(self)@.players,
            final(self)@.ts == spread_upto(old(self)@.ts, old(self)@.ts.len() as int),
            final(self)@.ts.len() == old(self)@.ts.len(),
            forall|a: int|
                0 <= a < old(self)@.ts.len() ==> (#[trigger] final(self)@.ts[a]).owner == old(
                    self,
                )@.ts[a].owner && final(self)@.ts[a].connections == old(self)@.ts[a].connections,
    {
        let n = self.board.teritories.len();
        let mut i: usize = 0;
        while i < n
            invariant
                i <= n,
                self@.ts.len() == n,
                n == old(self)@.ts.len(),
                self@.current == old(self)@.current,
                self@.players == old(self)@.players,
                self@.ts == spread_upto(old(self)@.ts, i as int),
                forall|a: int|
                    0 <= a < n ==> (#[trigger] self@.ts[a]).owner == old(self)@.ts[a].owner
                        && self@.ts[a].connections == old(self)@.ts[a].connections && self@.ts[
                        a
                    ].dice <= MAX_STACK,
            decreases n - i,
        {
            let ghost ts0 = self@.ts;
            let ghost conns = self@.ts[i as int].connections@;
            let ghost d0 = self@.ts[i as int].dice as int;
            let m = self.board.teritories[i].connections.len();
            let mut d = self.board.teritories[i].dice;
            let mut k: usize = 0;
            while k < m && d > 0
                invariant
                    k <= m,
                    i < n,
                    self@.ts.len() == n,
                    self@.current == old(self)@.current,
                    self@.players == old(self)@.players,
                    self@.ts[i as int].connections@ == conns,
                    self@.ts[i as int].dice == ts0[i as int].dice,
                    d as int <= d0,
                    d0 == ts0[i as int].dice as int,
                    m == conns.len(),
                    row_ok(conns, i as int, n as int),
                    give_out(ts0, conns, 0, d0) == give_out(self@.ts, conns, k as int, d as int),
                    forall|a: int|
                        0 <= a < n ==> (#[trigger] self@.ts[a]).owner == ts0[a].owner && self@.ts[
                            a
                        ].connections == ts0[a].connections && self@.ts[a].dice <= MAX_STACK,
                decreases m - k,
            {
                let j = self.board.teritories[i].connections[k];
                let recv = self.board.teritories[j].dice;
                if recv < MAX_STACK {
                    self.board.teritories[j].dice = recv + 1;
                    d = d - 1;
                }
                k += 1;
            }
            proof {
                assert(give_out(self@.ts, conns, k as int, d as int) == (self@.ts, d as int));
            }
            self.board.teritories[i].dice = d;
            proof {
                assert(self@.ts =~= spread_step(spread_upto(old(self)@.ts, i as int), i as int));
                assert(self@.ts =~= spread_upto(old(self)@.ts, i as int + 1));
            }
            i += 1;
        }
    }
}

} // verus!

