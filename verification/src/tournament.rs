//! Tournament scheduler and registration over the shared, lock-protected
//! registries. Registration takes the roster snapshot — the earlier
//! bots' names and payloads — under the same exclusive lock that
//! inserts the newcomer, fixing each run's opponent set and match count
//! at snapshot time. One run per board size then plays two games
//! against every snapshot member, stores every result under one
//! exclusive lock of the result registry, and updates the scoreboard
//! under one exclusive lock of the bot registry. Scoreboard mutations
//! happen only inside that single exclusive critical section, so
//! concurrent runs interleave but never lose an update.

use vstd::prelude::*;
use vstd::rwlock::RwLock;
use vstd::rwlock::RwLockPredicate;
use crate::game::Player;
use crate::game::valid_edge;
use crate::registry::BotRecord;
use crate::registry::BotTable;
use crate::registry::MatchResult;
use crate::registry::MatchTable;
use crate::registry::MatchWinner;
use crate::registry::bump;
use crate::registry::clone_bytes;
use crate::registry::clone_result;
use crate::registry::contains_name;
use crate::registry::index_of;
use crate::registry::lemma_index_of_unique;
use crate::registry::unique_names;
use crate::registry::with_scores;
use crate::wasmplayer::WasmPlayer;

verus! {

/// The lock invariant of the bot registry: names stay unique.
pub struct BotTablePred {}

impl RwLockPredicate<BotTable> for BotTablePred {
    open spec fn inv(self, v: BotTable) -> bool {
        v.wf()
    }
}

/// The lock invariant of the match-result registry.
pub struct MatchTablePred {}

impl RwLockPredicate<MatchTable> for MatchTablePred {
    open spec fn inv(self, v: MatchTable) -> bool {
        true
    }
}

/// The shared bot registry under its single-writer/multiple-reader lock.
pub type BotDb = RwLock<BotTable, BotTablePred>;

/// The shared result registry under its lock.
pub type MatchDb = RwLock<MatchTable, MatchTablePred>;

/// A fresh, empty, shared bot registry.
pub fn new_bot_db() -> (r: BotDb) {
    RwLock::new(BotTable::new(), Ghost(BotTablePred {  }))
}

/// A fresh, empty, shared result registry.
pub fn new_match_db() -> (r: MatchDb) {
    RwLock::new(MatchTable::new(), Ghost(MatchTablePred {  }))
}

/// The board edge lengths every tournament run plays at.
pub fn tournament_board_sizes() -> (r: Vec<usize>)
    ensures
        r@ =~= seq![8usize, 12usize, 16usize],
{
    let mut r: Vec<usize> = Vec::new();
    r.push(8);
    r.push(12);
    r.push(16);
    r
}

/// Relies on uuid::Uuid::new_v4 (version 4 is random): a freshly drawn
/// 128-bit identifier. Nothing is promised of its value.
#[verifier::external_body]
fn fresh_match_id() -> u128 {
    uuid::Uuid::new_v4().as_u128()
}

/// Why a registration request was rejected.
#[derive(Debug, Copy, Clone, PartialEq, Eq, Structural)]
pub enum RegisterError {
    /// A bot of that name already exists.
    DuplicateName,
    /// The payload could not be loaded into the sandbox or lacks the
    /// required entry points.
    InvalidPayload,
}

/// Registers a new bot while holding the bot registry's exclusive lock
/// for the whole step: rejects a duplicate name or an unloadable
/// payload, otherwise inserts the record with zeroed counters and
/// returns the roster registered before it — names with their payloads,
/// cloned under the same lock, the fixed opponent set its tournament
/// runs play against. The snapshot's names are pairwise distinct and
/// never the newcomer's own.
pub fn register_bot(db: &BotDb, name: String, creator: String, wasm: Vec<u8>) -> (r: Result<
    Vec<(String, Vec<u8>)>,
    RegisterError,
>)
    ensures
        match r {
            Ok(snapshot) => {
                &&& forall|i: int|
                    0 <= i < snapshot@.len() ==> (#[trigger] snapshot@[i]).0@ != name@
                &&& forall|i: int, j: int|
                    0 <= i < j < snapshot@.len() ==> snapshot@[i].0@ != snapshot@[j].0@
            },
            Err(_) => true,
        },
{
    let (mut table, handle) = db.acquire_write();
    if table.contains(&name) {
        handle.release_write(table);
        return Err(RegisterError::DuplicateName);
    }
    match WasmPlayer::new(wasm.as_slice(), 8) {
        Ok(_) => {},
        Err(_) => {
            handle.release_write(table);
            return Err(RegisterError::InvalidPayload);
        },
    }
    let snapshot = table.snapshot();
    proof {
        assert forall|i: int| 0 <= i < snapshot@.len() implies (#[trigger] snapshot@[i]).0@
            != name@ by {
            if snapshot@[i].0@ == name@ {
                assert(contains_name(table@, name@));
            }
        }
    }
    table.insert(BotRecord { name, creator, wasm, wins: 0, losses: 0, ties: 0 });
    handle.release_write(table);
    Ok(snapshot)
}

/// The other participant of a match, seen from `c`'s side.
pub open spec fn opponent_of(m: MatchResult, c: Seq<char>) -> Seq<char> {
    if m.white_player@ == c {
        m.black_player@
    } else {
        m.white_player@
    }
}

/// `c` sits on exactly one side of the match.
pub open spec fn contender_match(m: MatchResult, c: Seq<char>) -> bool {
    (m.white_player@ == c) != (m.black_player@ == c)
}

/// The recorded winner, if named, is one of the two participants.
pub open spec fn winner_names_participant(m: MatchResult) -> bool {
    m.winner matches MatchWinner::Named(w) ==> (w@ == m.white_player@ || w@
        == m.black_player@)
}

/// Whether the match was won by the participant named `name`.
pub open spec fn is_win_for(m: MatchResult, name: Seq<char>) -> bool {
    m.winner matches MatchWinner::Named(w) && w@ == name
}

/// The scoreboard after one result is applied for contender `c`: the
/// winner gains a win and the loser a loss, or both sides gain a tie;
/// a result whose participants are not both present, or whose two
/// sides coincide, changes nothing.
pub open spec fn score_one(s: Seq<BotRecord>, c: Seq<char>, m: MatchResult) -> Seq<BotRecord> {
    let opp = opponent_of(m, c);
    if !contains_name(s, c) || !contains_name(s, opp) || opp == c {
        s
    } else {
        let ci = index_of(s, c);
        let oi = index_of(s, opp);
        let cr = s[ci];
        let or = s[oi];
        if is_win_for(m, c) {
            s.update(ci, with_scores(cr, bump(cr.wins), cr.losses, cr.ties)).update(
                oi,
                with_scores(or, or.wins, bump(or.losses), or.ties),
            )
        } else if is_win_for(m, opp) {
            s.update(ci, with_scores(cr, cr.wins, bump(cr.losses), cr.ties)).update(
                oi,
                with_scores(or, bump(or.wins), or.losses, or.ties),
            )
        } else if m.winner is Tie {
            s.update(ci, with_scores(cr, cr.wins, cr.losses, bump(cr.ties))).update(
                oi,
                with_scores(or, or.wins, or.losses, bump(or.ties)),
            )
        } else {
            s
        }
    }
}

/// The scoreboard after a whole run's results are applied in order.
pub open spec fn score_all(s: Seq<BotRecord>, c: Seq<char>, ms: Seq<MatchResult>) -> Seq<
    BotRecord,
>
    decreases ms.len(),
{
    if ms.len() == 0 {
        s
    } else {
        score_one(score_all(s, c, ms.drop_last()), c, ms.last())
    }
}

/// Applying one result never adds, removes, renames or re-orders bots,
/// and never touches a payload or creator.
pub proof fn lemma_score_one_preserves(s: Seq<BotRecord>, c: Seq<char>, m: MatchResult)
    ensures
        score_one(s, c, m).len() == s.len(),
        forall|i: int|
            0 <= i < s.len() ==> (#[trigger] score_one(s, c, m)[i]).name@ == s[i].name@
                && score_one(s, c, m)[i].creator@ == s[i].creator@ && score_one(s, c, m)[i].wasm@
                == s[i].wasm@,
        unique_names(s) ==> unique_names(score_one(s, c, m)),
{
}

/// Applying a run's results never adds, removes, renames or re-orders
/// bots.
pub proof fn lemma_score_all_preserves(s: Seq<BotRecord>, c: Seq<char>, ms: Seq<MatchResult>)
    ensures
        score_all(s, c, ms).len() == s.len(),
        forall|i: int|
            0 <= i < s.len() ==> (#[trigger] score_all(s, c, ms)[i]).name@ == s[i].name@
                && score_all(s, c, ms)[i].creator@ == s[i].creator@ && score_all(s, c, ms)[i].wasm@
                == s[i].wasm@,
        unique_names(s) ==> unique_names(score_all(s, c, ms)),
    decreases ms.len(),
{
    if ms.len() > 0 {
        lemma_score_all_preserves(s, c, ms.drop_last());
        lemma_score_one_preserves(score_all(s, c, ms.drop_last()), c, ms.last());
    }
}

/// A bot's cumulative score volume: wins, losses and ties together.
pub open spec fn score_sum(r: BotRecord) -> int {
    r.wins + r.losses + r.ties
}

/// Law: a tournament run's scoreboard update gives the contender
/// exactly one win, loss or tie per result. With every participant
/// present, the contender on exactly one side of each result, and no
/// counter near its ceiling, the contender's wins + losses + ties grow
/// by exactly the number of results applied.
pub proof fn lemma_score_all_contender_total(s: Seq<BotRecord>, c: Seq<char>, ms: Seq<MatchResult>)
    requires
        unique_names(s),
        contains_name(s, c),
        forall|k: int|
            0 <= k < ms.len() ==> contender_match(#[trigger] ms[k], c) && winner_names_participant(
                ms[k],
            ) && contains_name(s, opponent_of(ms[k], c)),
        s[index_of(s, c)].wins + ms.len() <= 0xffff_ffffu32,
        s[index_of(s, c)].losses + ms.len() <= 0xffff_ffffu32,
        s[index_of(s, c)].ties + ms.len() <= 0xffff_ffffu32,
    ensures
        score_all(s, c, ms).len() == s.len(),
        score_all(s, c, ms)[index_of(s, c)].name@ == c,
        score_all(s, c, ms)[index_of(s, c)].wins <= s[index_of(s, c)].wins + ms.len(),
        score_all(s, c, ms)[index_of(s, c)].losses <= s[index_of(s, c)].losses + ms.len(),
        score_all(s, c, ms)[index_of(s, c)].ties <= s[index_of(s, c)].ties + ms.len(),
        score_sum(score_all(s, c, ms)[index_of(s, c)]) == score_sum(s[index_of(s, c)]) + ms.len(),
    decreases ms.len(),
{
    let ci = index_of(s, c);
    assert(0 <= ci < s.len() && s[ci].name@ == c);
    if ms.len() == 0 {
    } else {
        let init = ms.drop_last();
        let m = ms.last();
        assert forall|k: int| 0 <= k < init.len() implies contender_match(#[trigger] init[k], c)
            && winner_names_participant(init[k]) && contains_name(s, opponent_of(init[k], c)) by {
            assert(init[k] == ms[k]);
        }
        lemma_score_all_contender_total(s, c, init);
        lemma_score_all_preserves(s, c, init);
        let prev = score_all(s, c, init);
        lemma_index_of_unique(prev, c, ci);
        assert(contender_match(m, c) && winner_names_participant(m) && contains_name(
            s,
            opponent_of(m, c),
        ));
        let opp = opponent_of(m, c);
        assert(opp != c) by {
            if m.white_player@ == c {
                assert(m.black_player@ != c);
            } else {
                assert(m.black_player@ == c);
            }
        }
        let wi = choose|i: int| 0 <= i < s.len() && s[i].name@ == opp;
        assert(prev[wi].name@ == opp);
        assert(contains_name(prev, opp));
        lemma_index_of_unique(prev, opp, wi);
        let oi = index_of(prev, opp);
        assert(oi != ci);
        assert(index_of(prev, c) == ci);
        let cr = prev[ci];
        assert(cr.wins < 0xffff_ffffu32 && cr.losses < 0xffff_ffffu32 && cr.ties
            < 0xffff_ffffu32);
        match m.winner {
            MatchWinner::Named(w) => {
                assert(w@ == m.white_player@ || w@ == m.black_player@);
                assert(w@ == c || w@ == opp);
                assert(is_win_for(m, c) || is_win_for(m, opp));
            },
            MatchWinner::Tie => {
                assert(m.winner is Tie);
            },
        }
        assert(score_all(s, c, ms) == score_one(prev, c, m));
        assert(score_all(s, c, ms)[ci].name@ == c);
    }
}

/// The whole table's score volume: every bot's wins + losses + ties.
pub open spec fn total_volume(s: Seq<BotRecord>) -> int
    decreases s.len(),
{
    if s.len() == 0 {
        0
    } else {
        total_volume(s.drop_last()) + score_sum(s.last())
    }
}

/// Replacing one record shifts the table's volume by the difference of
/// the two records' sums.
proof fn lemma_total_volume_update(s: Seq<BotRecord>, i: int, r: BotRecord)
    requires
        0 <= i < s.len(),
    ensures
        total_volume(s.update(i, r)) == total_volume(s) - score_sum(s[i]) + score_sum(r),
    decreases s.len(),
{
    let su = s.update(i, r);
    if i == s.len() - 1 {
        assert(su.drop_last() =~= s.drop_last());
    } else {
        assert(su.drop_last() =~= s.drop_last().update(i, r));
        lemma_total_volume_update(s.drop_last(), i, r);
    }
}

/// Law (no lost updates): every applied result adds exactly two counter
/// increments to the table — one on each participant's record — so the
/// sum of all win/loss/tie deltas equals the registry's final tallies.
/// Hypotheses: the contender and every opponent are present, the
/// contender sits on exactly one side of each result, and no counter is
/// near its ceiling.
pub proof fn lemma_score_all_total_volume(s: Seq<BotRecord>, c: Seq<char>, ms: Seq<MatchResult>)
    requires
        unique_names(s),
        contains_name(s, c),
        forall|k: int|
            0 <= k < ms.len() ==> contender_match(#[trigger] ms[k], c) && winner_names_participant(
                ms[k],
            ) && contains_name(s, opponent_of(ms[k], c)),
        forall|i: int|
            0 <= i < s.len() ==> (#[trigger] s[i]).wins + ms.len() <= 0xffff_ffffu32
                && s[i].losses + ms.len() <= 0xffff_ffffu32 && s[i].ties + ms.len()
                <= 0xffff_ffffu32,
    ensures
        score_all(s, c, ms).len() == s.len(),
        forall|i: int|
            0 <= i < s.len() ==> (#[trigger] score_all(s, c, ms)[i]).wins <= s[i].wins + ms.len()
                && score_all(s, c, ms)[i].losses <= s[i].losses + ms.len() && score_all(
                s,
                c,
                ms,
            )[i].ties <= s[i].ties + ms.len(),
        total_volume(score_all(s, c, ms)) == total_volume(s) + 2 * ms.len(),
    decreases ms.len(),
{
    if ms.len() == 0 {
    } else {
        let init = ms.drop_last();
        let m = ms.last();
        assert forall|k: int| 0 <= k < init.len() implies contender_match(#[trigger] init[k], c)
            && winner_names_participant(init[k]) && contains_name(s, opponent_of(init[k], c)) by {
            assert(init[k] == ms[k]);
        }
        lemma_score_all_total_volume(s, c, init);
        lemma_score_all_preserves(s, c, init);
        let prev = score_all(s, c, init);
        let ci0 = choose|i: int| 0 <= i < s.len() && s[i].name@ == c;
        assert(prev[ci0].name@ == c);
        assert(contains_name(prev, c));
        lemma_index_of_unique(prev, c, ci0);
        let ci = index_of(prev, c);
        assert(contender_match(m, c) && winner_names_participant(m) && contains_name(
            s,
            opponent_of(m, c),
        ));
        let opp = opponent_of(m, c);
        assert(opp != c) by {
            if m.white_player@ == c {
                assert(m.black_player@ != c);
            } else {
                assert(m.black_player@ == c);
            }
        }
        let oi0 = choose|i: int| 0 <= i < s.len() && s[i].name@ == opp;
        assert(prev[oi0].name@ == opp);
        assert(contains_name(prev, opp));
        lemma_index_of_unique(prev, opp, oi0);
        let oi = index_of(prev, opp);
        assert(oi != ci);
        let cr = prev[ci];
        let or = prev[oi];
        assert(cr.wins < 0xffff_ffffu32 && cr.losses < 0xffff_ffffu32 && cr.ties
            < 0xffff_ffffu32);
        assert(or.wins < 0xffff_ffffu32 && or.losses < 0xffff_ffffu32 && or.ties
            < 0xffff_ffffu32);
        match m.winner {
            MatchWinner::Named(w) => {
                assert(w@ == m.white_player@ || w@ == m.black_player@);
                assert(w@ == c || w@ == opp);
                assert(is_win_for(m, c) || is_win_for(m, opp));
            },
            MatchWinner::Tie => {
                assert(m.winner is Tie);
            },
        }
        let cur = score_all(s, c, ms);
        assert(cur == score_one(prev, c, m));
        if is_win_for(m, c) {
            let x = with_scores(cr, bump(cr.wins), cr.losses, cr.ties);
            let y = with_scores(or, or.wins, bump(or.losses), or.ties);
            lemma_total_volume_update(prev, ci, x);
            lemma_total_volume_update(prev.update(ci, x), oi, y);
            assert(prev.update(ci, x)[oi] == or);
        } else if is_win_for(m, opp) {
            let x = with_scores(cr, cr.wins, bump(cr.losses), cr.ties);
            let y = with_scores(or, bump(or.wins), or.losses, or.ties);
            lemma_total_volume_update(prev, ci, x);
            lemma_total_volume_update(prev.update(ci, x), oi, y);
            assert(prev.update(ci, x)[oi] == or);
        } else {
            let x = with_scores(cr, cr.wins, cr.losses, bump(cr.ties));
            let y = with_scores(or, or.wins, or.losses, bump(or.ties));
            lemma_total_volume_update(prev, ci, x);
            lemma_total_volume_update(prev.update(ci, x), oi, y);
            assert(prev.update(ci, x)[oi] == or);
        }
    }
}

/// Applies every result of one run to the scoreboard, re-reading the
/// latest stored records as it goes: per result the winner gains one
/// win and the loser one loss, or both gain a tie. The whole update is
/// the functional fold of `score_one` over the results.
pub fn apply_scores(table: &mut BotTable, contender: &String, results: &Vec<MatchResult>)
    requires
        old(table).wf(),
    ensures
        final(table).wf(),
        final(table)@ == score_all(old(table)@, contender@, results@),
{
    let ghost s0 = table@;
    let mut i: usize = 0;
    while i < results.len()
        invariant
            table.wf(),
            i <= results@.len(),
            table@ == score_all(s0, contender@, results@.take(i as int)),
        decreases results@.len() - i,
    {
        let ghost prev = table@;
        let m = &results[i];
        let opp_name = if m.white_player == *contender {
            &m.black_player
        } else {
            &m.white_player
        };
        proof {
            assert(opp_name@ == opponent_of(results@[i as int], contender@));
        }
        let ci_opt = table.find(contender);
        let oi_opt = table.find(opp_name);
        match (ci_opt, oi_opt) {
            (Some(ci), Some(oi)) => {
                proof {
                    lemma_index_of_unique(prev, contender@, ci as int);
                    lemma_index_of_unique(prev, opp_name@, oi as int);
                }
                if ci != oi {
                    match &m.winner {
                        MatchWinner::Named(w) => {
                            if *w == *contender {
                                table.add_win(ci);
                                table.add_loss(oi);
                            } else if *w == *opp_name {
                                table.add_loss(ci);
                                table.add_win(oi);
                            }
                        },
                        MatchWinner::Tie => {
                            table.add_tie(ci);
                            table.add_tie(oi);
                        },
                    }
                } else {
                    proof {
                        assert(opp_name@ == contender@);
                    }
                }
            },
            _ => {},
        }
        proof {
            assert(results@.take(i + 1).drop_last() =~= results@.take(i as int));
            assert(results@.take(i + 1).last() == results@[i as int]);
            assert(table@ == score_one(prev, contender@, results@[i as int]));
        }
        i += 1;
    }
    proof {
        assert(results@.take(results@.len() as int) =~= results@);
    }
}

/// One match between two already-fetched payloads on an `n`-edged
/// board, on fresh sandbox instances used for this game alone. A
/// payload that cannot even be loaded forfeits: the game is recorded
/// as a misplay won by the other side.
fn play_match(
    white_name: &String,
    white_wasm: &Vec<u8>,
    black_name: &String,
    black_wasm: &Vec<u8>,
    n: usize,
) -> (r: MatchResult)
    requires
        valid_edge(n as int),
    ensures
        r.board_size == n,
        r.white_player@ == white_name@,
        r.black_player@ == black_name@,
        winner_names_participant(r),
{
    let id = fresh_match_id();
    let white_loaded = WasmPlayer::new(white_wasm.as_slice(), n);
    let black_loaded = WasmPlayer::new(black_wasm.as_slice(), n);
    match (white_loaded, black_loaded) {
        (Ok(mut wp), Ok(mut bp)) => {
            let game = crate::play_game(&mut wp, &mut bp, n);
            let winner = match game.winner() {
                Some(Player::White) => MatchWinner::Named(white_name.clone()),
                Some(Player::Black) => MatchWinner::Named(black_name.clone()),
                None => MatchWinner::Tie,
            };
            MatchResult {
                id,
                white_player: white_name.clone(),
                black_player: black_name.clone(),
                winner,
                board_size: n,
                moves: clone_bytes(game.move_list()),
                misplay: game.is_misplay(),
            }
        },
        (Err(_), _) => MatchResult {
            id,
            white_player: white_name.clone(),
            black_player: black_name.clone(),
            winner: MatchWinner::Named(black_name.clone()),
            board_size: n,
            moves: Vec::new(),
            misplay: true,
        },
        (_, Err(_)) => MatchResult {
            id,
            white_player: white_name.clone(),
            black_player: black_name.clone(),
            winner: MatchWinner::Named(white_name.clone()),
            board_size: n,
            moves: Vec::new(),
            misplay: true,
        },
    }
}

/// All matches of one run at one board size: two per opponent, the
/// contender first in the light seat against every opponent in order,
/// then in the dark seat — exactly `2 × |opponents|` results, each
/// result's participants pinned to its opponent.
pub fn play_round(
    contender_name: &String,
    contender_wasm: &Vec<u8>,
    opponents: &Vec<(String, Vec<u8>)>,
    n: usize,
) -> (r: Vec<MatchResult>)
    requires
        valid_edge(n as int),
        forall|i: int| 0 <= i < opponents@.len() ==> (#[trigger] opponents@[i]).0@
            != contender_name@,
    ensures
        r@.len() == 2 * opponents@.len(),
        forall|k: int|
            0 <= k < opponents@.len() ==> (#[trigger] r@[k]).white_player@ == contender_name@
                && r@[k].black_player@ == opponents@[k].0@,
        forall|k: int|
            opponents@.len() <= k < r@.len() ==> (#[trigger] r@[k]).white_player@ == opponents@[k
                - opponents@.len()].0@ && r@[k].black_player@ == contender_name@,
        forall|k: int|
            0 <= k < r@.len() ==> (#[trigger] r@[k]).board_size == n && contender_match(
                r@[k],
                contender_name@,
            ) && winner_names_participant(r@[k]),
{
    let mut r: Vec<MatchResult> = Vec::new();
    let mut i: usize = 0;
    while i < opponents.len()
        invariant
            valid_edge(n as int),
            forall|j: int| 0 <= j < opponents@.len() ==> (#[trigger] opponents@[j]).0@
                != contender_name@,
            i <= opponents@.len(),
            r@.len() == i,
            forall|k: int|
                0 <= k < r@.len() ==> (#[trigger] r@[k]).white_player@ == contender_name@
                    && r@[k].black_player@ == opponents@[k].0@,
            forall|k: int|
                0 <= k < r@.len() ==> (#[trigger] r@[k]).board_size == n && contender_match(
                    r@[k],
                    contender_name@,
                ) && winner_names_participant(r@[k]),
        decreases opponents@.len() - i,
    {
        let m = play_match(contender_name, contender_wasm, &opponents[i].0, &opponents[i].1, n);
        r.push(m);
        i += 1;
    }
    let mut j: usize = 0;
    while j < opponents.len()
        invariant
            valid_edge(n as int),
            forall|k: int| 0 <= k < opponents@.len() ==> (#[trigger] opponents@[k]).0@
                != contender_name@,
            j <= opponents@.len(),
            r@.len() == opponents@.len() + j,
            forall|k: int|
                0 <= k < opponents@.len() ==> (#[trigger] r@[k]).white_player@ == contender_name@
                    && r@[k].black_player@ == opponents@[k].0@,
            forall|k: int|
                opponents@.len() <= k < r@.len() ==> (#[trigger] r@[k]).white_player@
                    == opponents@[k - opponents@.len()].0@ && r@[k].black_player@
                    == contender_name@,
            forall|k: int|
                0 <= k < r@.len() ==> (#[trigger] r@[k]).board_size == n && contender_match(
                    r@[k],
                    contender_name@,
                ) && winner_names_participant(r@[k]),
        decreases opponents@.len() - j,
    {
        let m = play_match(&opponents[j].0, &opponents[j].1, contender_name, contender_wasm, n);
        r.push(m);
        j += 1;
    }
    r
}

/// One tournament run for one board size, against the roster snapshot
/// taken at registration (names with payloads, so the opponent set and
/// the match count are fixed at snapshot time): play two matches per
/// opponent on fresh sandbox pairs, insert all results under one
/// exclusive lock of the result registry, then apply every score delta
/// under one exclusive lock of the bot registry. Returns the exactly
/// `2 × |snapshot|` results that were stored, participants pinned as in
/// `play_round`.
pub fn run_tournament(
    bots: &BotDb,
    matches: &MatchDb,
    contender_name: &String,
    contender_wasm: &Vec<u8>,
    snapshot: &Vec<(String, Vec<u8>)>,
    n: usize,
) -> (r: Vec<MatchResult>)
    requires
        valid_edge(n as int),
        forall|i: int| 0 <= i < snapshot@.len() ==> (#[trigger] snapshot@[i]).0@
            != contender_name@,
    ensures
        r@.len() == 2 * snapshot@.len(),
        forall|k: int|
            0 <= k < snapshot@.len() ==> (#[trigger] r@[k]).white_player@ == contender_name@
                && r@[k].black_player@ == snapshot@[k].0@,
        forall|k: int|
            snapshot@.len() <= k < r@.len() ==> (#[trigger] r@[k]).white_player@ == snapshot@[k
                - snapshot@.len()].0@ && r@[k].black_player@ == contender_name@,
        forall|k: int|
            0 <= k < r@.len() ==> (#[trigger] r@[k]).board_size == n && contender_match(
                r@[k],
                contender_name@,
            ) && winner_names_participant(r@[k]),
{
    let results = play_round(contender_name, contender_wasm, snapshot, n);
    let (mut mt, mh) = matches.acquire_write();
    let mut i: usize = 0;
    while i < results.len()
        invariant
            i <= results@.len(),
        decreases results@.len() - i,
    {
        mt.insert(clone_result(&results[i]));
        i += 1;
    }
    mh.release_write(mt);
    let (mut bt, bh) = bots.acquire_write();
    apply_scores(&mut bt, contender_name, &results);
    bh.release_write(bt);
    results
}

} // verus!
