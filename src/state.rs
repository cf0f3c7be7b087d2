//! A snapshot of a game as a learning agent sees it: the actions open to
//! the seat on turn and the reward at the end.

use vstd::prelude::*;

use crate::game::Game;
use crate::invariants::lemma_turn_facts;
use crate::play::{play_at, Action, Play};
use crate::random_play::{legal_list, lemma_legal_list};
use crate::rules::legal;
use crate::rules::{seat_scores, seats, team_score, GameView};
use crate::sums::sum;

verus! {

/// The seat that took the last action that ended a turn: the one before
/// the seat on turn.
pub open spec fn acting_seat(v: GameView) -> int {
    (v.turn + seats(v) - 1) % seats(v)
}

/// The reward of a finished game for the seat that ended it: its score less
/// the scores of the other teams; nothing while the game goes on.
pub open spec fn reward_of(v: GameView) -> int {
    if !v.finished {
        0
    } else {
        let a = acting_seat(v);
        seat_scores(v)[a] - sum(
            Seq::new(
                v.teams as nat,
                |t: int|
                    if t == a % v.teams {
                        0int
                    } else {
                        team_score(v, t)
                    },
            ),
        )
    }
}

/// A copy of a game, for a seat deciding its next action.
#[derive(Clone)]
pub struct GameState<const PLAYERS_PER_TEAM: u8, const TEAMS_COUNT: u8> {
    pub game: Game,
}

impl<const PLAYERS_PER_TEAM: u8, const TEAMS_COUNT: u8> GameState<PLAYERS_PER_TEAM, TEAMS_COUNT> {
    /// The legal actions of the seat on turn, in the fixed order of actions.
    pub fn actions(&self) -> (r: Vec<Action>)
        requires
            self.game.wf(),
        ensures
            r@.len() == legal_list(self.game@, 39).len(),
            forall|i: int| 0 <= i < r@.len() ==> #[trigger] r@[i] == (Action {
                play: legal_list(self.game@, 39)[i],
            }),
            forall|a: Action| #[trigger] r@.contains(a) <==> legal(self.game@, a.play),
    {
        let all = Play::iterator();
        let ghost v = self.game@;
        let mut r: Vec<Action> = Vec::new();
        let mut i: usize = 0;
        while i < all.len()
            invariant
                i <= all@.len(),
                all@.len() == 39,
                self.game.wf(),
                v == self.game@,
                forall|j: int| 0 <= j < 39 ==> #[trigger] all@[j] == play_at(j),
                r@.len() == legal_list(v, i as int).len(),
                forall|k: int| 0 <= k < r@.len() ==> #[trigger] r@[k] == (Action {
                    play: legal_list(v, i as int)[k],
                }),
            decreases all@.len() - i,
        {
            let p = all[i];
            if self.game.check_legal(p) {
                r.push(Action { play: p });
            }
            i += 1;
        }
        proof {
            let l = legal_list(v, 39);
            assert forall|a: Action| #[trigger] r@.contains(a) <==> legal(v, a.play) by {
                lemma_legal_list(v, 39, a.play);
                if r@.contains(a) {
                    let k = choose|k: int| 0 <= k < r@.len() && r@[k] == a;
                    assert(l[k] == a.play);
                }
                if l.contains(a.play) {
                    let k = choose|k: int| 0 <= k < l.len() && l[k] == a.play;
                    assert(r@[k] == a);
                }
            }
        }
        r
    }

    /// Whether the seat `seat` should act on this state: the game is over,
    /// or it is that seat's turn.
    pub fn is_turn_of(&self, seat: u8) -> (r: bool)
        ensures
            r == (self.game@.finished || self.game@.turn == seat),
    {
        self.game.is_finished() || self.game.turn().get() == seat
    }

    /// The reward of the game for the seat that ended it: at the end, its
    /// score less the scores of the other teams; 0 before.
    pub fn reward(&self) -> (r: i32)
        requires
            self.game.wf(),
        ensures
            r == reward_of(self.game@),
    {
        if !self.game.is_finished() {
            return 0;
        }
        let ghost v = self.game@;
        proof {
            self.game.lemma_valid();
            lemma_turn_facts(v);
            vstd::arithmetic::div_mod::lemma_mod_pos_bound(v.turn + seats(v) - 1, seats(v));
        }
        let scores = self.game.get_scores();
        let n = self.game.seat_count();
        let teams = self.game.teams_count() as usize;
        let acting = (self.game.turn().get() as usize + n - 1) % n;
        proof {
            vstd::arithmetic::div_mod::lemma_mod_pos_bound(acting as int, teams as int);
            assert forall|t: int| 0 <= t < teams implies -18290 <= #[trigger] team_score(v, t) <= 23580 by {
                crate::invariants::lemma_penalty_bound(v, t);
                crate::invariants::lemma_board_points_bound(v, t);
            }
            assert forall|t: int| 0 <= t < teams implies #[trigger] seat_scores(v)[t] == team_score(v, t) by {
                vstd::arithmetic::div_mod::lemma_small_mod(t as nat, teams as nat);
                assert(teams <= n) by (nonlinear_arith)
                    requires n == teams * v.per_team, v.per_team >= 1, teams >= 1;
            }
            assert(teams <= n) by (nonlinear_arith)
                requires n == teams * v.per_team, v.per_team >= 1, teams >= 1;
        }
        let ghost others = Seq::new(
            v.teams as nat,
            |t: int|
                if t == acting as int % v.teams {
                    0int
                } else {
                    team_score(v, t)
                },
        );
        let mut against: i32 = 0;
        let mut t: usize = 0;
        while t < teams
            invariant
                t <= teams,
                teams == v.teams,
                teams <= n,
                n <= 255,
                n == seats(v),
                scores@.len() == n,
                acting < n,
                forall|k: int| 0 <= k < n ==> #[trigger] scores@[k] == seat_scores(v)[k],
                forall|k: int| 0 <= k < teams ==> #[trigger] seat_scores(v)[k] == team_score(v, k),
                forall|k: int| 0 <= k < teams ==> -18290 <= #[trigger] team_score(v, k) <= 23580,
                others.len() == teams,
                forall|k: int| 0 <= k < teams ==> #[trigger] others[k] == if k == acting as int % v.teams {
                    0int
                } else {
                    team_score(v, k)
                },
                against == sum(others.take(t as int)),
                -18290 * t <= against <= 23580 * t,
            decreases teams - t,
        {
            proof {
                assert(others.take(t + 1).drop_last() =~= others.take(t as int));
                assert(-18290 * 255 <= against <= 23580 * 255) by (nonlinear_arith)
                    requires -18290 * t <= against <= 23580 * t, t <= 255;
            }
            if t != acting % teams {
                against = against + scores[t] as i32;
            }
            t += 1;
        }
        proof {
            assert(others.take(teams as int) =~= others);
            assert(-18290 * 255 <= against <= 23580 * 255) by (nonlinear_arith)
                requires -18290 * teams <= against <= 23580 * teams, teams <= 255;
        }
        scores[acting] as i32 - against
    }
}

} // verus!
