//! Driving a game with seats that each pick one of their possible actions
//! at random.

use rand::seq::SliceRandom;
use vstd::prelude::*;

use crate::card::{card_index, playable_position, Card};
use crate::game::Game;
use crate::pile::is_deck;
use crate::invariants::{lemma_progress_nonneg, lemma_some_play, lemma_step_live};
use crate::play::{play_at, Play};
use crate::rules::{dealt_view, step, legal, live, progress, seat_scores, valid, GameView};

verus! {

/// Two teams of one seat each.
pub const TEAMS_COUNT: u8 = 2;

pub const PLAYERS_PER_TEAM: u8 = 1;

pub const DECKS: u8 = 2;

pub const HAND_SIZE: u8 = 15;

/// Whether the seat on turn can take action `p` now: the game goes on, the
/// action is legal, and a draw has a card to draw.
pub open spec fn can_take(v: GameView, p: Play) -> bool {
    !v.finished && legal(v, p) && (p is Draw ==> v.draw.len() > 0)
}

/// The state after taking the actions `ps` in turn from `v`.
pub open spec fn played(v: GameView, ps: Seq<Play>) -> GameView
    decreases ps.len(),
{
    if ps.len() == 0 {
        v
    } else {
        step(played(v, ps.drop_last()), ps.last())
    }
}

/// Whether each of the actions `ps`, taken in turn from `v`, could be taken
/// when its turn came.
pub open spec fn plays_ok(v: GameView, ps: Seq<Play>) -> bool
    decreases ps.len(),
{
    ps.len() == 0 || (plays_ok(v, ps.drop_last()) && can_take(played(v, ps.drop_last()), ps.last()))
}

/// The actions among the first `n` of the fixed order that the seat on turn
/// can take now, in that order.
pub open spec fn takeable_list(v: GameView, n: int) -> Seq<Play>
    decreases n,
{
    if n <= 0 {
        Seq::empty()
    } else if can_take(v, play_at(n - 1)) {
        takeable_list(v, n - 1).push(play_at(n - 1))
    } else {
        takeable_list(v, n - 1)
    }
}

/// The actions among the first `n` of the fixed order that are legal now,
/// in that order.
pub open spec fn legal_list(v: GameView, n: int) -> Seq<Play>
    decreases n,
{
    if n <= 0 {
        Seq::empty()
    } else if legal(v, play_at(n - 1)) {
        legal_list(v, n - 1).push(play_at(n - 1))
    } else {
        legal_list(v, n - 1)
    }
}

/// An action is in the list of legal actions exactly when it is legal.
pub proof fn lemma_legal_list(v: GameView, n: int, p: Play)
    requires
        0 <= n <= 39,
    ensures
        legal_list(v, n).contains(p) <==> exists|j: int| 0 <= j < n && play_at(j) == p && legal(v, p),
        n == 39 ==> (legal_list(v, n).contains(p) <==> legal(v, p)),
    decreases n,
{
    if n > 0 {
        lemma_legal_list(v, n - 1, p);
        let l = legal_list(v, n - 1);
        if legal(v, play_at(n - 1)) {
            let l2 = l.push(play_at(n - 1));
            assert(l2.contains(p) <==> (l.contains(p) || play_at(n - 1) == p)) by {
                if l2.contains(p) {
                    let k = choose|k: int| 0 <= k < l2.len() && #[trigger] l2[k] == p;
                    if k < l.len() {
                        assert(l[k] == p);
                    }
                }
                if l.contains(p) {
                    let k = choose|k: int| 0 <= k < l.len() && #[trigger] l[k] == p;
                    assert(l2[k] == p);
                }
                if play_at(n - 1) == p {
                    assert(l2[l.len() as int] == p);
                }
            }
        }
        if (exists|j: int| 0 <= j < n && play_at(j) == p && legal(v, p)) {
            let j = choose|j: int| 0 <= j < n && play_at(j) == p && legal(v, p);
            if j < n - 1 {
                assert(exists|j: int| 0 <= j < n - 1 && play_at(j) == p && legal(v, p));
            }
        }
        if legal_list(v, n - 1).contains(p) {
            let j = choose|j: int| 0 <= j < n - 1 && play_at(j) == p && legal(v, p);
            assert(0 <= j < n && play_at(j) == p && legal(v, p));
        }
    }
    if n == 39 {
        lemma_every_play_listed(p);
    }
}

/// Every action has a place in the fixed order of actions.
proof fn lemma_every_play_listed(p: Play)
    ensures
        exists|i: int| 0 <= i < 39 && #[trigger] play_at(i) == p,
{
    crate::card::lemma_card_index_bijective();
    match p {
        Play::Discard(c) => assert(play_at(card_index(c)) == p),
        Play::GoOut => assert(play_at(14) == p),
        Play::PickupPile => assert(play_at(15) == p),
        Play::Play(q) => assert(play_at(16 + playable_position(q)) == p),
        Play::PlaceWild(q) => assert(play_at(27 + playable_position(q)) == p),
        Play::Draw => assert(play_at(38) == p),
    }
}

/// The actions the seat on turn can take now, in the fixed order of actions.
pub fn possible_plays(game: &Game) -> (r: Vec<Play>)
    requires
        game.wf(),
    ensures
        r@ == takeable_list(game@, 39),
        forall|p: Play| #[trigger] r@.contains(p) <==> can_take(game@, p),
{
    let all = Play::iterator();
    let mut r: Vec<Play> = Vec::new();
    let finished = game.is_finished();
    let draw_left = !game.draw_pile().is_empty();
    let mut i: usize = 0;
    while i < all.len()
        invariant
            i <= all@.len(),
            all@.len() == 39,
            game.wf(),
            finished == game@.finished,
            draw_left == (game@.draw.len() > 0),
            forall|j: int| 0 <= j < 39 ==> #[trigger] all@[j] == play_at(j),
            forall|p: Play| #[trigger] r@.contains(p) <==> exists|j: int|
                0 <= j < i && play_at(j) == p && can_take(game@, p),
            r@ == takeable_list(game@, i as int),
        decreases all@.len() - i,
    {
        let p = all[i];
        let ghost before = r@;
        let take = !finished && game.check_legal(p) && (!matches!(p, Play::Draw) || draw_left);
        if take {
            r.push(p);
        }
        proof {
            assert forall|x: Play| #[trigger] r@.contains(x) <==> exists|j: int|
                0 <= j < i + 1 && play_at(j) == x && can_take(game@, x) by {
                if r@.contains(x) {
                    if before.contains(x) {
                        let j = choose|j: int| 0 <= j < i && play_at(j) == x && can_take(game@, x);
                        assert(0 <= j < i + 1 && play_at(j) == x && can_take(game@, x));
                    } else {
                        let k = choose|k: int| 0 <= k < r@.len() && r@[k] == x;
                        assert(k == before.len());
                        assert(play_at(i as int) == x && can_take(game@, x));
                    }
                }
                if exists|j: int| 0 <= j < i + 1 && play_at(j) == x && can_take(game@, x) {
                    let j = choose|j: int| 0 <= j < i + 1 && play_at(j) == x && can_take(game@, x);
                    if j < i {
                        assert(before.contains(x));
                        let k = choose|k: int| 0 <= k < before.len() && before[k] == x;
                        assert(r@[k] == x);
                    } else {
                        assert(r@[r@.len() - 1] == x);
                    }
                }
            }
        }
        i += 1;
    }
    proof {
        assert forall|p: Play| #[trigger] r@.contains(p) <==> can_take(game@, p) by {
            lemma_every_play_listed(p);
        }
    }
    r
}

/// Picks one of `plays` at random.
///
/// Relies on rand's `SliceRandom::choose`: `None` for an empty slice, else
/// one of its elements.
#[verifier::external_body]
fn choose_play(plays: &Vec<Play>) -> (r: Option<Play>)
    ensures
        r.is_none() == (plays@.len() == 0),
        r matches Some(p) ==> plays@.contains(p),
{
    plays.choose(&mut rand::thread_rng()).copied()
}

/// One of the actions the seat on turn can take now, picked at random;
/// `None` when there is none.
pub fn random_play(game: &Game) -> (r: Option<Play>)
    requires
        game.wf(),
    ensures
        r is None <==> forall|p: Play| !can_take(game@, p),
        r matches Some(p) ==> can_take(game@, p),
{
    let plays = possible_plays(game);
    let r = choose_play(&plays);
    proof {
        if r is None {
            assert forall|p: Play| !can_take(game@, p) by {
                if can_take(game@, p) {
                    assert(plays@.contains(p));
                }
            }
        } else {
            assert(plays@.len() > 0);
        }
    }
    r
}

/// Plays `game` with random actions until it ends, or until the seat on
/// turn has no action it can take, which never happens in a live game.
pub fn run_random_game(game: Game) -> (r: Game)
    requires
        game.wf(),
    ensures
        r.wf(),
        r@.finished || forall|p: Play| !can_take(r@, p),
        live(game@) ==> r@.finished,
        r@.teams == game@.teams,
        r@.per_team == game@.per_team,
        exists|ps: Seq<Play>| plays_ok(game@, ps) && r@ == played(game@, ps),
{
    let ghost start = game@;
    let ghost mut ps: Seq<Play> = Seq::empty();
    let mut game = game;
    proof {
        game.lemma_valid();
        lemma_progress_nonneg(game@);
    }
    loop
        invariant
            game.wf(),
            game@.teams == start.teams,
            game@.per_team == start.per_team,
            live(start) ==> live(game@),
            plays_ok(start, ps),
            game@ == played(start, ps),
        ensures
            plays_ok(start, ps),
            game@ == played(start, ps),
            game.wf(),
            game@.teams == start.teams,
            game@.per_team == start.per_team,
            game@.finished || forall|p: Play| !can_take(game@, p),
            live(start) ==> game@.finished,
        decreases progress(game@),
    {
        if game.is_finished() {
            break;
        }
        proof {
            game.lemma_valid();
        }
        match random_play(&game) {
            Some(play) => {
                proof {
                    if live(start) {
                        lemma_step_live(game@, play);
                    }
                }
                game.execute_play(play);
                proof {
                    let before = ps;
                    ps = ps.push(play);
                    assert(ps.drop_last() =~= before);
                }
            },
            None => {
                proof {
                    if live(start) {
                        lemma_some_play(game@);
                    }
                }
                break;
            },
        }
        proof {
            game.lemma_valid();
            lemma_progress_nonneg(game@);
        }
    }
    game
}

/// Deals a game of two teams of one seat, two decks and fifteen cards a hand,
/// plays it at random, and returns the scores by seat.
pub fn play_random_game() -> (r: Vec<i16>)
    ensures
        r@.len() == 2,
        exists|cards: Seq<Card>, ps: Seq<Play>|
            {
                let v = #[trigger] played(dealt_view(2, 1, 2, 15, cards), ps);
                &&& is_deck(cards, 2)
                &&& cards.len() == 104
                &&& plays_ok(dealt_view(2, 1, 2, 15, cards), ps)
                &&& v.finished
                &&& forall|s: int| 0 <= s < 2 ==> #[trigger] r@[s] == seat_scores(v)[s]
            },
{
    let game = Game::new(TEAMS_COUNT, PLAYERS_PER_TEAM, DECKS, HAND_SIZE);
    let game = run_random_game(game);
    proof {
        game.lemma_valid();
    }
    game.get_scores()
}

} // verus!
