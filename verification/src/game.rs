//! The game state and its controller: moves, undo history, win/loss flags
//! and the command surface offered to a presentation layer.

use vstd::prelude::*;

use crate::board::Direction;
use crate::board::boards_equal;
use crate::board::count_nonzero;
use crate::board::evaluate;
use crate::board::grid_gain;
use crate::board::grid_makes;
use crate::board::grid_over;
use crate::board::has_empty;
use crate::board::lemma_count_push;
use crate::board::slide_board;
use crate::board::slide_grid;
use crate::board::spawned;
use crate::board::wf_board;
use crate::line::MAX_GRID_SUM;
use crate::line::WIN_TILE;
use crate::line::is_pow2;
use crate::line::lemma_sum_push;
use crate::line::lemma_sum_update;
use crate::line::sum_vals;
use crate::line::valid_tile;
use crate::rng::random_below;

verus! {

/// The abstract commands a presentation layer can issue.
#[derive(Debug, Clone, Copy, PartialEq, Eq, Structural)]
pub enum Command {
    Move(Direction),
    NewGame,
    ResetBoard,
    ToggleTheme,
    Undo,
    Quit,
}

/// A copy of the mutable game fields, kept for undo.
#[derive(Debug, Clone)]
pub struct Snapshot {
    board: Vec<u32>,
    score: u32,
    game_over: bool,
    won: bool,
}

/// The mathematical value of a snapshot.
#[verifier::ext_equal]
pub struct SnapView {
    pub board: Seq<u32>,
    pub score: u32,
    pub over: bool,
    pub won: bool,
}

impl View for Snapshot {
    type V = SnapView;

    closed spec fn view(&self) -> SnapView {
        SnapView {
            board: self.board@,
            score: self.score,
            over: self.game_over,
            won: self.won,
        }
    }
}

/// The full game state: grid, score, flags, theme preference and the undo
/// history, newest snapshot last.
#[derive(Debug, Clone)]
pub struct Game {
    board: Vec<u32>,
    score: u32,
    game_over: bool,
    won: bool,
    dark_mode: bool,
    history: Vec<Snapshot>,
}

/// The mathematical value of a game.
#[verifier::ext_equal]
pub struct GameView {
    pub board: Seq<u32>,
    pub score: u32,
    pub over: bool,
    pub won: bool,
    pub dark: bool,
    pub history: Seq<SnapView>,
}

impl View for Game {
    type V = GameView;

    closed spec fn view(&self) -> GameView {
        GameView {
            board: self.board@,
            score: self.score,
            over: self.game_over,
            won: self.won,
            dark: self.dark_mode,
            history: self.history@.map_values(|s: Snapshot| s@),
        }
    }
}

/// The snapshot-shaped part of a game value: what undo restores.
pub open spec fn snap_of(v: GameView) -> SnapView {
    SnapView { board: v.board, score: v.score, over: v.over, won: v.won }
}

/// Saturating score update: the score never decreases and never wraps.
pub open spec fn sat_add_u32(a: u32, g: int) -> u32 {
    if a + g > u32::MAX {
        u32::MAX
    } else {
        (a + g) as u32
    }
}

/// A freshly initialized game: empty history given by `history`, zeroed
/// score and flags, exactly two spawned tiles, and the given theme.
pub open spec fn fresh_state(v: GameView, dark: bool, history: Seq<SnapView>) -> bool {
    &&& v.score == 0
    &&& !v.over
    &&& !v.won
    &&& v.dark == dark
    &&& v.history == history
    &&& v.board.len() == 16
    &&& count_nonzero(v.board) == 2
    &&& forall|i: int| 0 <= i < 16 ==> v.board[i] == 0 || v.board[i] == 2 || v.board[i] == 4
}

/// How one move command transforms the game: the central contract of the
/// engine.  A move that changes nothing leaves the whole state, history
/// included, exactly as it was; an effective move pushes the pre-move
/// snapshot, integrates the score and the win flag, spawns one tile where
/// there is room, and re-derives the loss flag.
pub open spec fn move_rel(pre: GameView, post: GameView, d: Direction) -> bool {
    let slid = slide_grid(pre.board, d);
    let moved = slid != pre.board;
    &&& post.dark == pre.dark
    &&& (!moved ==> post == pre)
    &&& (moved ==> {
        &&& post.history == pre.history.push(snap_of(pre))
        &&& post.score == sat_add_u32(pre.score, grid_gain(pre.board, d))
        &&& post.won == (pre.won || grid_makes(pre.board, d, WIN_TILE))
        &&& (if has_empty(slid) && sum_vals(slid) + 4 <= MAX_GRID_SUM as int {
            spawned(slid, post.board)
        } else {
            post.board == slid
        })
        &&& post.over == (pre.over || grid_over(post.board))
    })
}

/// How undo transforms the game: pop the newest snapshot, if any, and
/// restore the mutable fields from it bit for bit.
pub open spec fn undo_rel(pre: GameView, post: GameView) -> bool {
    if pre.history.len() > 0 {
        &&& snap_of(post) == pre.history.last()
        &&& post.history == pre.history.drop_last()
        &&& post.dark == pre.dark
    } else {
        post == pre
    }
}

/// Build the sixteen-cell empty grid.
fn empty_board() -> (b: Vec<u32>)
    ensures
        b@.len() == 16,
        forall|i: int| 0 <= i < 16 ==> b@[i] == 0,
        sum_vals(b@) == 0,
        count_nonzero(b@) == 0,
        wf_board(b@),
{
    let mut b: Vec<u32> = Vec::new();
    let mut i: usize = 0;
    while i < 16
        invariant
            i <= 16,
            b@.len() == i,
            forall|k: int| 0 <= k < i ==> b@[k] == 0,
            sum_vals(b@) == 0,
            count_nonzero(b@) == 0,
        decreases 16 - i,
    {
        proof {
            lemma_sum_push(b@, 0);
            lemma_count_push(b@, 0);
        }
        b.push(0);
        i += 1;
    }
    b
}

/// A spawn into an all-empty grid leaves room and exactly one small tile.
proof fn lemma_first_spawn(b0: Seq<u32>, b1: Seq<u32>)
    requires
        b0.len() == 16,
        forall|i: int| 0 <= i < 16 ==> b0[i] == 0,
        count_nonzero(b0) == 0,
        sum_vals(b0) == 0,
        spawned(b0, b1),
    ensures
        has_empty(b1),
        sum_vals(b1) <= 4,
        count_nonzero(b1) == 1,
        forall|i: int| 0 <= i < 16 ==> b1[i] == 0 || b1[i] == 2 || b1[i] == 4,
{
    crate::board::lemma_spawned_effect(b0, b1);
    crate::line::lemma_sum_nonneg(b0);
    let i = choose|i: int|
        0 <= i < 16 && b0[i] == 0 && (#[trigger] b1[i] == 2 || b1[i] == 4) && b1 == b0.update(
            i,
            b1[i],
        );
    if i == 0 {
        assert(b1[1] == 0);
    } else {
        assert(b1[0] == 0);
    }
    crate::line::lemma_sum_update(b0, i, b1[i]);
}

/// A second spawn fills one more cell with a small tile.
proof fn lemma_second_spawn(b1: Seq<u32>, b2: Seq<u32>)
    requires
        b1.len() == 16,
        count_nonzero(b1) == 1,
        forall|i: int| 0 <= i < 16 ==> b1[i] == 0 || b1[i] == 2 || b1[i] == 4,
        spawned(b1, b2),
    ensures
        count_nonzero(b2) == 2,
        forall|i: int| 0 <= i < 16 ==> b2[i] == 0 || b2[i] == 2 || b2[i] == 4,
{
    crate::board::lemma_spawned_effect(b1, b2);
}

/// Composing snapshotting, sliding, spawning and loss evaluation yields the
/// move relation.
proof fn lemma_move_rel_compose(
    pre: GameView,
    s1: GameView,
    s2: GameView,
    s3: GameView,
    post: GameView,
    d: Direction,
)
    requires
        s1.history == pre.history.push(snap_of(pre)),
        s1.board == pre.board,
        s1.score == pre.score,
        s1.over == pre.over,
        s1.won == pre.won,
        s1.dark == pre.dark,
        slide_grid(pre.board, d) != pre.board,
        s2.board == slide_grid(pre.board, d),
        s2.score == sat_add_u32(s1.score, grid_gain(pre.board, d)),
        s2.won == (s1.won || grid_makes(pre.board, d, WIN_TILE)),
        s2.over == s1.over,
        s2.dark == s1.dark,
        s2.history == s1.history,
        if has_empty(s2.board) && sum_vals(s2.board) + 4 <= MAX_GRID_SUM as int {
            spawned(s2.board, s3.board)
        } else {
            s3.board == s2.board
        },
        s3.score == s2.score,
        s3.over == s2.over,
        s3.won == s2.won,
        s3.dark == s2.dark,
        s3.history == s2.history,
        post.over == (s3.over || grid_over(s3.board)),
        post.board == s3.board,
        post.score == s3.score,
        post.won == s3.won,
        post.dark == s3.dark,
        post.history == s3.history,
    ensures
        move_rel(pre, post, d),
{
}

impl Game {
    /// Well-formed game: the live grid and every snapshot grid are legal.
    pub open spec fn wf(&self) -> bool {
        &&& wf_board(self@.board)
        &&& forall|i: int|
            0 <= i < self@.history.len() ==> wf_board(#[trigger] self@.history[i].board)
    }

    /// The current score.
    pub fn score(&self) -> (s: u32)
        ensures
            s == self@.score,
    {
        self.score
    }

    /// Whether the game has been lost.
    pub fn game_over(&self) -> (b: bool)
        ensures
            b == self@.over,
    {
        self.game_over
    }

    /// Whether the winning tile has been reached this game.
    pub fn won(&self) -> (b: bool)
        ensures
            b == self@.won,
    {
        self.won
    }

    /// The theme preference carried with the game.
    pub fn dark_mode(&self) -> (b: bool)
        ensures
            b == self@.dark,
    {
        self.dark_mode
    }

    /// The grid, row-major.
    pub fn board(&self) -> (b: &Vec<u32>)
        ensures
            b@ == self@.board,
    {
        &self.board
    }

    /// Number of snapshots available to undo.
    pub fn history_len(&self) -> (n: usize)
        ensures
            n == self@.history.len(),
    {
        self.history.len()
    }

    /// Whether an undo would restore anything.
    pub fn can_undo(&self) -> (c: bool)
        ensures
            c == (self@.history.len() > 0),
    {
        self.history.len() > 0
    }

    /// Push a snapshot of the mutable fields onto the history.
    pub fn save_state(&mut self)
        requires
            old(self).wf(),
        ensures
            final(self).wf(),
            final(self)@.history == old(self)@.history.push(snap_of(old(self)@)),
            final(self)@.board == old(self)@.board,
            final(self)@.score == old(self)@.score,
            final(self)@.over == old(self)@.over,
            final(self)@.won == old(self)@.won,
            final(self)@.dark == old(self)@.dark,
    {
        let snap = Snapshot {
            board: self.board.clone(),
            score: self.score,
            game_over: self.game_over,
            won: self.won,
        };
        proof {
            assert(snap@.board =~= self.board@);
        }
        self.history.push(snap);
        proof {
            assert(self@.history =~= old(self)@.history.push(snap_of(old(self)@)));
        }
    }

    /// Undo: pop the newest snapshot and restore grid, score and flags from
    /// it; report whether anything was undone.  An empty history is a no-op.
    pub fn undo(&mut self) -> (undone: bool)
        requires
            old(self).wf(),
        ensures
            final(self).wf(),
            undone == (old(self)@.history.len() > 0),
            undo_rel(old(self)@, final(self)@),
    {
        match self.history.pop() {
            Some(previous) => {
                self.board = previous.board;
                self.score = previous.score;
                self.game_over = previous.game_over;
                self.won = previous.won;
                proof {
                    let n = old(self)@.history.len() as int;
                    assert(previous@ == old(self)@.history[n - 1]);
                    assert(wf_board(old(self)@.history[n - 1].board));
                    assert(self@.history =~= old(self)@.history.drop_last());
                    assert(snap_of(self@) =~= old(self)@.history.last());
                    assert forall|i: int| 0 <= i < self@.history.len() implies wf_board(
                        #[trigger] self@.history[i].board,
                    ) by {
                        assert(self@.history[i] == old(self)@.history[i]);
                    }
                }
                true
            },
            None => {
                proof {
                    assert(self@ =~~= old(self)@);
                }
                false
            },
        }
    }

    /// Start a fresh game with the given theme: empty grid, two spawned
    /// tiles, zero score, cleared flags and empty history.
    pub fn new_with_theme(dark_mode: bool) -> (game: Game)
        ensures
            game.wf(),
            fresh_state(game@, dark_mode, Seq::<SnapView>::empty()),
    {
        let mut game = Game {
            board: empty_board(),
            score: 0,
            game_over: false,
            won: false,
            dark_mode,
            history: Vec::new(),
        };
        proof {
            assert(game@.history =~= Seq::<SnapView>::empty());
        }
        let ghost b0 = game@.board;
        proof {
            assert(b0[0] == 0);
            assert(has_empty(b0));
        }
        game.add_random_tile();
        let ghost b1 = game@.board;
        proof {
            lemma_first_spawn(b0, b1);
        }
        game.add_random_tile();
        proof {
            lemma_second_spawn(b1, game@.board);
        }
        game
    }

    /// Start a fresh game with the default (light) theme.
    pub fn new() -> (game: Game)
        ensures
            game.wf(),
            fresh_state(game@, false, Seq::<SnapView>::empty()),
    {
        Game::new_with_theme(false)
    }

    /// Clear the grid, score and flags and spawn two fresh tiles, keeping
    /// both the theme and the undo history untouched.
    pub fn reset_tiles(&mut self)
        requires
            old(self).wf(),
        ensures
            final(self).wf(),
            fresh_state(final(self)@, old(self)@.dark, old(self)@.history),
    {
        self.board = empty_board();
        self.score = 0;
        self.game_over = false;
        self.won = false;
        proof {
            assert(self@.history == old(self)@.history);
            assert forall|j: int| 0 <= j < self@.history.len() implies wf_board(
                #[trigger] self@.history[j].board,
            ) by {
                assert(self@.history[j] == old(self)@.history[j]);
            }
        }
        let ghost b0 = self@.board;
        proof {
            assert(b0[0] == 0);
            assert(has_empty(b0));
        }
        self.add_random_tile();
        let ghost b1 = self@.board;
        proof {
            lemma_first_spawn(b0, b1);
        }
        self.add_random_tile();
        proof {
            lemma_second_spawn(b1, self@.board);
        }
    }

    /// Spawn a tile: choose an empty cell uniformly at random and place a 2
    /// (nine times in ten) or a 4.  A full grid is left unchanged, as is —
    /// to preserve the sum bound — a grid whose sum has no room left.
    #[verifier::loop_isolation(false)]
    pub fn add_random_tile(&mut self)
        requires
            old(self).wf(),
        ensures
            final(self).wf(),
            final(self)@.score == old(self)@.score,
            final(self)@.over == old(self)@.over,
            final(self)@.won == old(self)@.won,
            final(self)@.dark == old(self)@.dark,
            final(self)@.history == old(self)@.history,
            if has_empty(old(self)@.board) && sum_vals(old(self)@.board) + 4 <= MAX_GRID_SUM as int {
                spawned(old(self)@.board, final(self)@.board)
            } else {
                final(self)@.board == old(self)@.board
            },
    {
        let mut empties: Vec<usize> = Vec::new();
        let mut i: usize = 0;
        while i < 16
            invariant
                i <= 16,
                forall|k: int|
                    0 <= k < empties@.len() ==> (#[trigger] empties@[k]) < 16
                        && self@.board[empties@[k] as int] == 0,
                forall|j: int|
                    0 <= j < i && #[trigger] self@.board[j] == 0 ==> exists|k: int|
                        0 <= k < empties@.len() && empties@[k] == j,
            decreases 16 - i,
        {
            let ghost prior = empties@;
            if self.board[i] == 0 {
                empties.push(i);
            }
            i += 1;
            proof {
                assert forall|j: int| 0 <= j < i && #[trigger] self@.board[j] == 0 implies exists|
                    k: int,
                |
                    0 <= k < empties@.len() && empties@[k] == j by {
                    if j == i - 1 {
                        assert(empties@[empties@.len() - 1] == j);
                    } else {
                        let k = choose|k: int| 0 <= k < prior.len() && prior[k] == j;
                        assert(empties@[k] == j);
                    }
                }
            }
        }
        if empties.len() > 0 {
            let mut total: u64 = 0;
            let mut k: usize = 0;
            while k < 16
                invariant
                    k <= 16,
                    total as int == sum_vals(self@.board.subrange(0, k as int)),
                    total as int <= k * 0xFFFF_FFFF,
                decreases 16 - k,
            {
                proof {
                    assert(self@.board.subrange(0, k as int + 1) =~= self@.board.subrange(
                        0,
                        k as int,
                    ).push(self@.board[k as int]));
                    lemma_sum_push(self@.board.subrange(0, k as int), self@.board[k as int]);
                }
                total = total + self.board[k] as u64;
                k += 1;
            }
            proof {
                assert(self@.board.subrange(0, 16) =~= self@.board);
            }
            if total + 4 <= MAX_GRID_SUM as u64 {
                let pick = random_below(empties.len());
                let pos = empties[pick];
                let roll = random_below(10);
                let value: u32 = if roll < 9 {
                    2
                } else {
                    4
                };
                let ghost pre = self@.board;
                self.board.set(pos, value);
                proof {
                    assert(valid_tile(value)) by {
                        reveal_with_fuel(is_pow2, 4);
                    }
                    lemma_sum_update(pre, pos as int, value);
                    assert(self@.board == pre.update(pos as int, value));
                    assert(spawned(pre, self@.board));
                    assert(wf_board(self@.board));
                    assert(self@.history == old(self)@.history);
                    assert forall|j: int| 0 <= j < self@.history.len() implies wf_board(
                        #[trigger] self@.history[j].board,
                    ) by {
                        assert(self@.history[j] == old(self)@.history[j]);
                    }
                }
            } else {
                proof {
                    assert(self@ =~~= old(self)@);
                }
            }
        } else {
            proof {
                // an empty collection means the grid is full
                assert(!has_empty(self@.board));
                assert(self@ =~~= old(self)@);
            }
        }
    }

    /// Install a slid grid and integrate the score gain (saturating) and
    /// the win flag.
    fn install_slide(&mut self, slid: Vec<u32>, gain: u32, hit: bool)
        requires
            old(self).wf(),
            wf_board(slid@),
        ensures
            final(self).wf(),
            final(self)@.board == slid@,
            final(self)@.score == sat_add_u32(old(self)@.score, gain as int),
            final(self)@.won == (old(self)@.won || hit),
            final(self)@.over == old(self)@.over,
            final(self)@.dark == old(self)@.dark,
            final(self)@.history == old(self)@.history,
    {
        self.board = slid;
        let current = self.score as u64;
        let gained = gain as u64;
        self.score = if current + gained <= u32::MAX as u64 {
            (current + gained) as u32
        } else {
            u32::MAX
        };
        if hit && !self.won {
            self.won = true;
        }
        proof {
            assert(self@.history == old(self)@.history);
            assert forall|j: int| 0 <= j < self@.history.len() implies wf_board(
                #[trigger] self@.history[j].board,
            ) by {
                assert(self@.history[j] == old(self)@.history[j]);
            }
        }
    }

    /// Attempt a move.  An effective move keeps the pre-move snapshot in
    /// the history, integrates the score and the win flag, spawns one tile
    /// and re-derives the loss flag; a move that changes no cell leaves the
    /// whole state, history included, exactly as it was.
    #[verifier::rlimit(100)]
    pub fn move_tiles(&mut self, direction: Direction) -> (moved: bool)
        requires
            old(self).wf(),
        ensures
            final(self).wf(),
            moved == (slide_grid(old(self)@.board, direction) != old(self)@.board),
            move_rel(old(self)@, final(self)@, direction),
    {
        self.save_state();
        let ghost s1 = self@;
        let slid = slide_board(&self.board, direction);
        let moved = !boards_equal(&self.board, &slid.0);
        if moved {
            self.install_slide(slid.0, slid.1, slid.2);
            let ghost s2 = self@;
            self.add_random_tile();
            let ghost s3 = self@;
            self.check_game_state();
            proof {
                lemma_move_rel_compose(old(self)@, s1, s2, s3, self@, direction);
            }
        } else {
            let ghost hmid = self.history@;
            proof {
                assert(s1.history == hmid.map_values(|s: Snapshot| s@));
                assert(hmid.len() == s1.history.len());
            }
            self.history.pop();
            proof {
                let n = old(self)@.history.len() as int;
                assert(self.history@ == hmid.subrange(0, hmid.len() - 1));
                assert(self@.history.len() == n);
                assert forall|i: int| 0 <= i < n implies self@.history[i] == old(
                    self,
                )@.history[i] by {
                    assert(self@.history[i] == s1.history[i]);
                }
                assert(self@.history =~= old(self)@.history);
                assert(self@ =~~= old(self)@);
            }
        }
        moved
    }

    /// Derive the loss flag: set `game_over` once the grid is stuck, and
    /// never clear it.
    pub fn check_game_state(&mut self)
        requires
            old(self).wf(),
        ensures
            final(self).wf(),
            final(self)@.over == (old(self)@.over || grid_over(old(self)@.board)),
            final(self)@.board == old(self)@.board,
            final(self)@.score == old(self)@.score,
            final(self)@.won == old(self)@.won,
            final(self)@.dark == old(self)@.dark,
            final(self)@.history == old(self)@.history,
    {
        if evaluate(&self.board) {
            self.game_over = true;
        }
        proof {
            assert(self@.history == old(self)@.history);
            assert forall|i: int| 0 <= i < self@.history.len() implies wf_board(
                #[trigger] self@.history[i].board,
            ) by {
                assert(self@.history[i] == old(self)@.history[i]);
            }
        }
    }
}

impl Game {
    /// The controller: apply one command to the authoritative game value
    /// and report whether the new state should be persisted.  A move on a
    /// lost game is ignored; undo persists whether or not it changed
    /// anything; quitting changes nothing.
    pub fn apply(&mut self, cmd: Command) -> (persist: bool)
        requires
            old(self).wf(),
        ensures
            final(self).wf(),
            match cmd {
                Command::Move(d) => if old(self)@.over {
                    !persist && final(self)@ == old(self)@
                } else {
                    persist && move_rel(old(self)@, final(self)@, d)
                },
                Command::NewGame => persist && fresh_state(
                    final(self)@,
                    old(self)@.dark,
                    Seq::<SnapView>::empty(),
                ),
                Command::ResetBoard => persist && fresh_state(
                    final(self)@,
                    old(self)@.dark,
                    old(self)@.history,
                ),
                Command::ToggleTheme => persist && final(self)@ == (GameView {
                    dark: !old(self)@.dark,
                    ..old(self)@
                }),
                Command::Undo => persist && undo_rel(old(self)@, final(self)@),
                Command::Quit => !persist && final(self)@ == old(self)@,
            },
    {
        match cmd {
            Command::Move(d) => {
                if !self.game_over {
                    self.move_tiles(d);
                    true
                } else {
                    false
                }
            },
            Command::NewGame => {
                let dark = self.dark_mode;
                *self = Game::new_with_theme(dark);
                true
            },
            Command::ResetBoard => {
                self.reset_tiles();
                true
            },
            Command::ToggleTheme => {
                self.dark_mode = !self.dark_mode;
                proof {
                    assert forall|j: int| 0 <= j < self@.history.len() implies wf_board(
                        #[trigger] self@.history[j].board,
                    ) by {
                        assert(self@.history[j] == old(self)@.history[j]);
                    }
                    assert(self@ =~~= (GameView { dark: !old(self)@.dark, ..old(self)@ }));
                }
                true
            },
            Command::Undo => {
                self.undo();
                true
            },
            Command::Quit => false,
        }
    }
}

/// Why a persisted record was rejected instead of decoded.
#[derive(Debug, Clone, Copy, PartialEq, Eq, Structural)]
pub enum DecodeError {
    /// The board, or a history board, is not a 4 x 4 array.
    WrongShape,
    /// A cell holds a value that is neither 0 nor a power of two of at
    /// least 2.
    InvalidTile,
    /// Every cell is legal on its own but a board's total is out of range.
    SumTooLarge,
}

/// One history entry of the durable record.
#[derive(Debug, Clone, PartialEq)]
pub struct SnapshotRecord {
    pub board: Vec<Vec<u32>>,
    pub score: u32,
    pub game_over: bool,
    pub won: bool,
}

/// The durable form of the full game state, made of plain values only: the
/// presentation side serializes it and hands it back on startup.
#[derive(Debug, Clone, PartialEq)]
pub struct SaveRecord {
    pub board: Vec<Vec<u32>>,
    pub score: u32,
    pub game_over: bool,
    pub won: bool,
    pub dark_mode: bool,
    pub history: Vec<SnapshotRecord>,
}

/// The mathematical value of a snapshot record.
#[verifier::ext_equal]
pub struct SnapRecView {
    pub board: Seq<Seq<u32>>,
    pub score: u32,
    pub over: bool,
    pub won: bool,
}

/// The mathematical value of a save record.
#[verifier::ext_equal]
pub struct RecView {
    pub board: Seq<Seq<u32>>,
    pub score: u32,
    pub over: bool,
    pub won: bool,
    pub dark: bool,
    pub history: Seq<SnapRecView>,
}

impl View for SnapshotRecord {
    type V = SnapRecView;

    open spec fn view(&self) -> SnapRecView {
        SnapRecView {
            board: self.board@.map_values(|r: Vec<u32>| r@),
            score: self.score,
            over: self.game_over,
            won: self.won,
        }
    }
}

impl View for SaveRecord {
    type V = RecView;

    open spec fn view(&self) -> RecView {
        RecView {
            board: self.board@.map_values(|r: Vec<u32>| r@),
            score: self.score,
            over: self.game_over,
            won: self.won,
            dark: self.dark_mode,
            history: self.history@.map_values(|s: SnapshotRecord| s@),
        }
    }
}

/// A nested board with the exact 4 x 4 shape.
pub open spec fn rec_shape_ok(b: Seq<Seq<u32>>) -> bool {
    b.len() == 4 && forall|r: int| 0 <= r < 4 ==> #[trigger] b[r].len() == 4
}

/// The flat row-major grid a nested board describes.
pub open spec fn flat_of(b: Seq<Seq<u32>>) -> Seq<u32> {
    Seq::new(16, |i: int| b[i / 4][i % 4])
}

/// The nested board a flat grid is written out as.
pub open spec fn rows_of_flat(s: Seq<u32>) -> Seq<Seq<u32>> {
    Seq::new(4, |r: int| Seq::new(4, |c: int| s[4 * r + c]))
}

/// Every cell of the nested board is a legal tile value.
pub open spec fn board_tiles_ok(b: Seq<Seq<u32>>) -> bool {
    forall|i: int| 0 <= i < 16 ==> valid_tile(#[trigger] flat_of(b)[i])
}

/// The nested board's total is within the engine's range.
pub open spec fn board_sum_ok(b: Seq<Seq<u32>>) -> bool {
    sum_vals(flat_of(b)) <= MAX_GRID_SUM as int
}

/// Every board of the record, live and historical, has the 4 x 4 shape.
pub open spec fn rec_shapes_ok(v: RecView) -> bool {
    rec_shape_ok(v.board) && forall|k: int|
        0 <= k < v.history.len() ==> rec_shape_ok(#[trigger] v.history[k].board)
}

/// Every board of the record holds only legal tile values.
pub open spec fn rec_tiles_ok(v: RecView) -> bool {
    board_tiles_ok(v.board) && forall|k: int|
        0 <= k < v.history.len() ==> board_tiles_ok(#[trigger] v.history[k].board)
}

/// Every board of the record has a total within range.
pub open spec fn rec_sums_ok(v: RecView) -> bool {
    board_sum_ok(v.board) && forall|k: int|
        0 <= k < v.history.len() ==> board_sum_ok(#[trigger] v.history[k].board)
}

/// A record that decodes: right shape, legal tiles, bounded sums.
pub open spec fn rec_valid(v: RecView) -> bool {
    rec_shapes_ok(v) && rec_tiles_ok(v) && rec_sums_ok(v)
}

/// The game value a valid record describes.
pub open spec fn game_of_rec(v: RecView) -> GameView {
    GameView {
        board: flat_of(v.board),
        score: v.score,
        over: v.over,
        won: v.won,
        dark: v.dark,
        history: v.history.map_values(
            |s: SnapRecView|
                SnapView { board: flat_of(s.board), score: s.score, over: s.over, won: s.won },
        ),
    }
}

/// The record an in-memory game is written out as.
pub open spec fn rec_of_game(g: GameView) -> RecView {
    RecView {
        board: rows_of_flat(g.board),
        score: g.score,
        over: g.over,
        won: g.won,
        dark: g.dark,
        history: g.history.map_values(
            |s: SnapView|
                SnapRecView {
                    board: rows_of_flat(s.board),
                    score: s.score,
                    over: s.over,
                    won: s.won,
                },
        ),
    }
}

/// Nesting a flat grid into rows and flattening it again is the identity.
proof fn lemma_flat_rows_id(s: Seq<u32>)
    requires
        s.len() == 16,
    ensures
        rec_shape_ok(rows_of_flat(s)),
        flat_of(rows_of_flat(s)) == s,
{
    assert forall|i: int| 0 <= i < 16 implies flat_of(rows_of_flat(s))[i] == s[i] by {
        assert(rows_of_flat(s)[i / 4][i % 4] == s[4 * (i / 4) + i % 4]);
    }
    assert(flat_of(rows_of_flat(s)) =~= s);
}

/// Law: decoding an encoded state restores it exactly, for every
/// well-formed game value with a well-formed history.
pub proof fn lemma_encode_decode_roundtrip(g: GameView)
    requires
        wf_board(g.board),
        forall|i: int| 0 <= i < g.history.len() ==> wf_board(#[trigger] g.history[i].board),
    ensures
        rec_valid(rec_of_game(g)),
        game_of_rec(rec_of_game(g)) == g,
{
    let v = rec_of_game(g);
    lemma_flat_rows_id(g.board);
    assert forall|k: int| 0 <= k < v.history.len() implies rec_shape_ok(
        #[trigger] v.history[k].board,
    ) && board_tiles_ok(v.history[k].board) && board_sum_ok(v.history[k].board) by {
        assert(v.history[k].board == rows_of_flat(g.history[k].board));
        lemma_flat_rows_id(g.history[k].board);
    }
    assert forall|k: int| 0 <= k < g.history.len() implies game_of_rec(v).history[k] =~~= #[trigger] g.history[k] by {
        assert(v.history[k].board == rows_of_flat(g.history[k].board));
        lemma_flat_rows_id(g.history[k].board);
    }
    assert(game_of_rec(v).history =~~= g.history);
    assert(game_of_rec(v) =~~= g);
}

/// Executable test for a legal cell value: zero, or a power of two that is
/// at least 2.
fn tile_ok(v: u32) -> (ok: bool)
    ensures
        ok == valid_tile(v),
{
    if v == 0 {
        return true;
    }
    if v < 2 {
        return false;
    }
    let mut x = v;
    while x > 1 && x % 2 == 0
        invariant
            x >= 1,
            is_pow2(v as int) == is_pow2(x as int),
        decreases x,
    {
        x = x / 2;
    }
    x == 1
}

/// Exact 4 x 4 shape of a nested board.
fn shape_ok_exec(b: &Vec<Vec<u32>>) -> (ok: bool)
    ensures
        ok == rec_shape_ok(b@.map_values(|r: Vec<u32>| r@)),
{
    let ghost v = b@.map_values(|r: Vec<u32>| r@);
    if b.len() != 4 {
        return false;
    }
    let ok = b[0].len() == 4 && b[1].len() == 4 && b[2].len() == 4 && b[3].len() == 4;
    proof {
        assert(v[0] == b@[0]@ && v[1] == b@[1]@ && v[2] == b@[2]@ && v[3] == b@[3]@);
    }
    ok
}

/// Flatten a 4 x 4 nested board into the engine's row-major grid.
fn flatten_rows(b: &Vec<Vec<u32>>) -> (flat: Vec<u32>)
    requires
        rec_shape_ok(b@.map_values(|r: Vec<u32>| r@)),
    ensures
        flat@ == flat_of(b@.map_values(|r: Vec<u32>| r@)),
        flat@.len() == 16,
{
    let ghost v = b@.map_values(|r: Vec<u32>| r@);
    proof {
        assert(v[0] == b@[0]@ && v[1] == b@[1]@ && v[2] == b@[2]@ && v[3] == b@[3]@);
    }
    let mut flat: Vec<u32> = Vec::new();
    flat.push(b[0][0]);
    flat.push(b[0][1]);
    flat.push(b[0][2]);
    flat.push(b[0][3]);
    flat.push(b[1][0]);
    flat.push(b[1][1]);
    flat.push(b[1][2]);
    flat.push(b[1][3]);
    flat.push(b[2][0]);
    flat.push(b[2][1]);
    flat.push(b[2][2]);
    flat.push(b[2][3]);
    flat.push(b[3][0]);
    flat.push(b[3][1]);
    flat.push(b[3][2]);
    flat.push(b[3][3]);
    proof {
        assert(flat@ =~= flat_of(v));
    }
    flat
}

/// Split the engine's row-major grid into a 4 x 4 nested board.
fn to_rows(board: &Vec<u32>) -> (rows: Vec<Vec<u32>>)
    requires
        board@.len() == 16,
    ensures
        rows@.map_values(|r: Vec<u32>| r@) == rows_of_flat(board@),
{
    let mut rows: Vec<Vec<u32>> = Vec::new();
    let mut r: usize = 0;
    while r < 4
        invariant
            r <= 4,
            board@.len() == 16,
            rows@.len() == r,
            forall|k: int|
                0 <= k < r ==> (#[trigger] rows@[k]@) =~= Seq::new(
                    4,
                    |c: int| board@[4 * k + c],
                ),
        decreases 4 - r,
    {
        let mut line: Vec<u32> = Vec::new();
        line.push(board[4 * r]);
        line.push(board[4 * r + 1]);
        line.push(board[4 * r + 2]);
        line.push(board[4 * r + 3]);
        proof {
            assert(line@ =~= Seq::new(4, |c: int| board@[4 * (r as int) + c]));
        }
        rows.push(line);
        r += 1;
    }
    proof {
        assert(rows@.map_values(|x: Vec<u32>| x@) =~= rows_of_flat(board@));
    }
    rows
}

/// All sixteen cells are legal tile values.
#[verifier::loop_isolation(false)]
fn cells_ok(flat: &Vec<u32>) -> (ok: bool)
    requires
        flat@.len() == 16,
    ensures
        ok == (forall|i: int| 0 <= i < 16 ==> valid_tile(#[trigger] flat@[i])),
{
    let mut i: usize = 0;
    while i < 16
        invariant
            i <= 16,
            forall|k: int| 0 <= k < i ==> valid_tile(#[trigger] flat@[k]),
        decreases 16 - i,
    {
        if !tile_ok(flat[i]) {
            return false;
        }
        i += 1;
    }
    true
}

/// Total of all sixteen cells, for the decode range check.
#[verifier::loop_isolation(false)]
fn grid_total(board: &Vec<u32>) -> (t: u64)
    requires
        board@.len() == 16,
    ensures
        t as int == sum_vals(board@),
{
    let mut total: u64 = 0;
    let mut k: usize = 0;
    while k < 16
        invariant
            k <= 16,
            total as int == sum_vals(board@.subrange(0, k as int)),
            total as int <= k * 0xFFFF_FFFF,
        decreases 16 - k,
    {
        proof {
            assert(board@.subrange(0, k as int + 1) =~= board@.subrange(0, k as int).push(
                board@[k as int],
            ));
            lemma_sum_push(board@.subrange(0, k as int), board@[k as int]);
        }
        total = total + board[k] as u64;
        k += 1;
    }
    proof {
        assert(board@.subrange(0, 16) =~= board@);
    }
    total
}

impl Game {
    /// Write the full state, history included, into a plain record that the
    /// presentation side persists.
    #[verifier::loop_isolation(false)]
    pub fn encode(&self) -> (rec: SaveRecord)
        requires
            self.wf(),
        ensures
            rec@ == rec_of_game(self@),
    {
        let board = to_rows(&self.board);
        let mut entries: Vec<SnapshotRecord> = Vec::new();
        let mut i: usize = 0;
        while i < self.history.len()
            invariant
                i <= self.history.len(),
                entries@.len() == i,
                forall|k: int|
                    0 <= k < i ==> (#[trigger] entries@[k]@) =~~= rec_of_game(self@).history[k],
            decreases self.history.len() - i,
        {
            let snap = &self.history[i];
            proof {
                assert(snap@ == self@.history[i as int]);
                assert(wf_board(self@.history[i as int].board));
            }
            let srec = SnapshotRecord {
                board: to_rows(&snap.board),
                score: snap.score,
                game_over: snap.game_over,
                won: snap.won,
            };
            proof {
                assert(srec@ =~~= rec_of_game(self@).history[i as int]);
            }
            entries.push(srec);
            i += 1;
        }
        let rec = SaveRecord {
            board,
            score: self.score,
            game_over: self.game_over,
            won: self.won,
            dark_mode: self.dark_mode,
            history: entries,
        };
        proof {
            assert(rec@ =~~= rec_of_game(self@));
        }
        rec
    }

    /// Rebuild a game from a record, rejecting any record whose shape or
    /// contents the engine could not have produced: a board that is not
    /// 4 x 4, a cell that is not zero or a power of two of at least 2, or
    /// a board whose total is out of range.
    #[verifier::loop_isolation(false)]
    pub fn decode(rec: &SaveRecord) -> (res: Result<Game, DecodeError>)
        ensures
            match res {
                Ok(g) => rec_valid(rec@) && g.wf() && g@ == game_of_rec(rec@),
                Err(e) => {
                    &&& !rec_valid(rec@)
                    &&& (e == DecodeError::WrongShape <==> !rec_shapes_ok(rec@))
                    &&& (e == DecodeError::InvalidTile <==> rec_shapes_ok(rec@)
                        && !rec_tiles_ok(rec@))
                    &&& (e == DecodeError::SumTooLarge <==> rec_shapes_ok(rec@) && rec_tiles_ok(
                        rec@,
                    ) && !rec_sums_ok(rec@))
                },
            },
    {
        if !shape_ok_exec(&rec.board) {
            return Err(DecodeError::WrongShape);
        }
        let n = rec.history.len();
        let mut k: usize = 0;
        while k < n
            invariant
                k <= n,
                forall|j: int| 0 <= j < k ==> rec_shape_ok(#[trigger] rec@.history[j].board),
            decreases n - k,
        {
            if !shape_ok_exec(&rec.history[k].board) {
                proof {
                    assert(!rec_shape_ok(rec@.history[k as int].board));
                }
                return Err(DecodeError::WrongShape);
            }
            proof {
                assert(rec_shape_ok(rec@.history[k as int].board));
            }
            k += 1;
        }
        let flat = flatten_rows(&rec.board);
        if !cells_ok(&flat) {
            return Err(DecodeError::InvalidTile);
        }
        let mut k2: usize = 0;
        while k2 < n
            invariant
                k2 <= n,
                forall|j: int| 0 <= j < n ==> rec_shape_ok(#[trigger] rec@.history[j].board),
                forall|j: int| 0 <= j < k2 ==> board_tiles_ok(#[trigger] rec@.history[j].board),
            decreases n - k2,
        {
            proof {
                assert(rec.history@[k2 as int]@ == rec@.history[k2 as int]);
                assert(rec_shape_ok(rec@.history[k2 as int].board));
            }
            let f = flatten_rows(&rec.history[k2].board);
            if !cells_ok(&f) {
                return Err(DecodeError::InvalidTile);
            }
            k2 += 1;
        }
        if grid_total(&flat) > MAX_GRID_SUM as u64 {
            return Err(DecodeError::SumTooLarge);
        }
        let mut k3: usize = 0;
        while k3 < n
            invariant
                k3 <= n,
                forall|j: int| 0 <= j < n ==> rec_shape_ok(#[trigger] rec@.history[j].board),
                forall|j: int| 0 <= j < k3 ==> board_sum_ok(#[trigger] rec@.history[j].board),
            decreases n - k3,
        {
            proof {
                assert(rec.history@[k3 as int]@ == rec@.history[k3 as int]);
                assert(rec_shape_ok(rec@.history[k3 as int].board));
            }
            let f = flatten_rows(&rec.history[k3].board);
            if grid_total(&f) > MAX_GRID_SUM as u64 {
                return Err(DecodeError::SumTooLarge);
            }
            k3 += 1;
        }
        let mut snaps: Vec<Snapshot> = Vec::new();
        let mut k4: usize = 0;
        while k4 < n
            invariant
                k4 <= n,
                forall|j: int| 0 <= j < n ==> rec_shape_ok(#[trigger] rec@.history[j].board),
                forall|j: int| 0 <= j < n ==> board_tiles_ok(#[trigger] rec@.history[j].board),
                forall|j: int| 0 <= j < n ==> board_sum_ok(#[trigger] rec@.history[j].board),
                snaps@.len() == k4,
                forall|j: int|
                    0 <= j < k4 ==> (#[trigger] snaps@[j]@) =~~= game_of_rec(rec@).history[j],
                forall|j: int| 0 <= j < k4 ==> wf_board((#[trigger] snaps@[j]@).board),
            decreases n - k4,
        {
            let entry = &rec.history[k4];
            proof {
                assert(rec.history@[k4 as int]@ == rec@.history[k4 as int]);
                assert(rec_shape_ok(rec@.history[k4 as int].board));
            }
            let snap = Snapshot {
                board: flatten_rows(&entry.board),
                score: entry.score,
                game_over: entry.game_over,
                won: entry.won,
            };
            proof {
                assert(entry@ == rec@.history[k4 as int]);
                assert(snap@ =~~= game_of_rec(rec@).history[k4 as int]);
                assert(wf_board(snap@.board));
            }
            snaps.push(snap);
            k4 += 1;
        }
        let g = Game {
            board: flat,
            score: rec.score,
            game_over: rec.game_over,
            won: rec.won,
            dark_mode: rec.dark_mode,
            history: snaps,
        };
        proof {
            assert(g@.history =~~= game_of_rec(rec@).history);
            assert(g@ =~~= game_of_rec(rec@));
        }
        Ok(g)
    }

    /// Rebuild the game from a loaded record; a missing record or any
    /// decode failure falls back to a fresh game, so corrupt save data can
    /// never prevent the game from starting.
    pub fn load_from(rec: Option<SaveRecord>) -> (game: Game)
        ensures
            game.wf(),
            match rec {
                Some(r) => if rec_valid(r@) {
                    game@ == game_of_rec(r@)
                } else {
                    fresh_state(game@, false, Seq::<SnapView>::empty())
                },
                None => fresh_state(game@, false, Seq::<SnapView>::empty()),
            },
    {
        match rec {
            Some(r) => match Game::decode(&r) {
                Ok(g) => g,
                Err(_) => Game::new(),
            },
            None => Game::new(),
        }
    }
}

/// Law: undoing immediately after an effective move restores the grid,
/// score and both flags to exactly their values before that move, and
/// removes exactly the one snapshot the move pushed.
pub proof fn lemma_undo_exactness(pre: GameView, mid: GameView, post: GameView, d: Direction)
    requires
        move_rel(pre, mid, d),
        slide_grid(pre.board, d) != pre.board,
        undo_rel(mid, post),
    ensures
        post.board == pre.board,
        post.score == pre.score,
        post.over == pre.over,
        post.won == pre.won,
        post.dark == pre.dark,
        post.history == pre.history,
{
    assert(mid.history == pre.history.push(snap_of(pre)));
    assert(mid.history.len() > 0);
    assert(mid.history.last() == snap_of(pre));
    assert(mid.history.drop_last() =~= pre.history);
}

} // verus!
