//! The bot and match-result registries: ordered in-memory tables owned
//! by the tournament side of the library. The bot table keys records by
//! unique name; the result table stores every finished match.

use vstd::prelude::*;
use vstd::pervasive::VecAdditionalExecFns;

verus! {

/// One registered bot: unique name, creator, opaque compiled payload,
/// and cumulative score counters. Mutated only by the tournament
/// scheduler under exclusive access; never deleted.
#[derive(Debug, Clone)]
pub struct BotRecord {
    pub name: String,
    pub creator: String,
    pub wasm: Vec<u8>,
    pub wins: u32,
    pub losses: u32,
    pub ties: u32,
}

/// Who won a finished match.
#[derive(Debug, Clone)]
pub enum MatchWinner {
    /// The named participant won.
    Named(String),
    /// Equal disc counts: nobody won.
    Tie,
}

/// One finished match: identifier, the two participants, board size,
/// winner, full move log, and the misplay flag. Immutable once created.
#[derive(Debug, Clone)]
pub struct MatchResult {
    pub id: u128,
    pub white_player: String,
    pub black_player: String,
    pub winner: MatchWinner,
    pub board_size: usize,
    pub moves: Vec<u8>,
    pub misplay: bool,
}

/// Whether some record in `s` carries `name`.
pub open spec fn contains_name(s: Seq<BotRecord>, name: Seq<char>) -> bool {
    exists|i: int| 0 <= i < s.len() && s[i].name@ == name
}

/// The index of the record carrying `name`.
pub open spec fn index_of(s: Seq<BotRecord>, name: Seq<char>) -> int {
    choose|i: int| 0 <= i < s.len() && s[i].name@ == name
}

/// No two records carry the same name.
pub open spec fn unique_names(s: Seq<BotRecord>) -> bool {
    forall|i: int, j: int| 0 <= i < j < s.len() ==> s[i].name@ != s[j].name@
}

/// One more point on a score counter, held at the ceiling rather than
/// wrapped.
pub open spec fn bump(c: u32) -> u32 {
    if c < 0xffff_ffffu32 {
        (c + 1) as u32
    } else {
        c
    }
}

/// The same bot with its counters replaced.
pub open spec fn with_scores(r: BotRecord, w: u32, l: u32, t: u32) -> BotRecord {
    BotRecord { name: r.name, creator: r.creator, wasm: r.wasm, wins: w, losses: l, ties: t }
}

/// With unique names, the index found for a name is the index of that
/// name.
pub proof fn lemma_index_of_unique(s: Seq<BotRecord>, name: Seq<char>, i: int)
    requires
        unique_names(s),
        0 <= i < s.len(),
        s[i].name@ == name,
    ensures
        index_of(s, name) == i,
        contains_name(s, name),
{
    assert(contains_name(s, name));
    let j = index_of(s, name);
    assert(0 <= j < s.len() && s[j].name@ == name);
    if i < j {
        assert(s[i].name@ != s[j].name@);
    } else if j < i {
        assert(s[j].name@ != s[i].name@);
    }
}

/// An exact byte-for-byte copy.
pub fn clone_bytes(v: &Vec<u8>) -> (c: Vec<u8>)
    ensures
        c@ == v@,
{
    let mut c: Vec<u8> = Vec::new();
    let mut i: usize = 0;
    while i < v.len()
        invariant
            i <= v@.len(),
            c@ == v@.take(i as int),
        decreases v@.len() - i,
    {
        c.push(v[i]);
        proof {
            assert(c@ =~= v@.take(i + 1));
        }
        i += 1;
    }
    proof {
        assert(v@.take(v@.len() as int) =~= v@);
    }
    c
}

/// A field-true copy of a record.
pub fn clone_record(r: &BotRecord) -> (c: BotRecord)
    ensures
        c.name@ == r.name@,
        c.creator@ == r.creator@,
        c.wasm@ == r.wasm@,
        c.wins == r.wins,
        c.losses == r.losses,
        c.ties == r.ties,
{
    BotRecord {
        name: r.name.clone(),
        creator: r.creator.clone(),
        wasm: clone_bytes(&r.wasm),
        wins: r.wins,
        losses: r.losses,
        ties: r.ties,
    }
}

/// The in-memory bot registry: an ordered table of records with unique
/// names.
pub struct BotTable {
    records: Vec<BotRecord>,
}

impl View for BotTable {
    type V = Seq<BotRecord>;

    closed spec fn view(&self) -> Seq<BotRecord> {
        self.records@
    }
}

impl BotTable {
    /// The table invariant: names are unique.
    pub open spec fn wf(&self) -> bool {
        unique_names(self@)
    }

    pub fn new() -> (r: BotTable)
        ensures
            r@ =~= Seq::<BotRecord>::empty(),
            r.wf(),
    {
        BotTable { records: Vec::new() }
    }

    pub fn len(&self) -> (r: usize)
        ensures
            r == self@.len(),
    {
        self.records.len()
    }

    /// The index of the record named `name`, if any.
    pub fn find(&self, name: &String) -> (r: Option<usize>)
        ensures
            match r {
                Some(i) => i < self@.len() && self@[i as int].name@ == name@,
                None => !contains_name(self@, name@),
            },
    {
        let mut i: usize = 0;
        while i < self.records.len()
            invariant
                i <= self@.len(),
                forall|j: int| 0 <= j < i ==> self@[j].name@ != name@,
            decreases self@.len() - i,
        {
            if self.records[i].name == *name {
                return Some(i);
            }
            i += 1;
        }
        None
    }

    /// Whether a record named `name` exists.
    pub fn contains(&self, name: &String) -> (r: bool)
        ensures
            r == contains_name(self@, name@),
    {
        match self.find(name) {
            Some(i) => {
                proof {
                    assert(contains_name(self@, name@));
                }
                true
            },
            None => false,
        }
    }

    /// The record named `name`, if any.
    pub fn get(&self, name: &String) -> (r: Option<&BotRecord>)
        requires
            self.wf(),
        ensures
            match r {
                Some(rec) => {
                    &&& contains_name(self@, name@)
                    &&& rec.name@ == name@
                    &&& rec.name@ == self@[index_of(self@, name@)].name@
                    &&& rec.creator@ == self@[index_of(self@, name@)].creator@
                    &&& rec.wasm@ == self@[index_of(self@, name@)].wasm@
                    &&& rec.wins == self@[index_of(self@, name@)].wins
                    &&& rec.losses == self@[index_of(self@, name@)].losses
                    &&& rec.ties == self@[index_of(self@, name@)].ties
                },
                None => !contains_name(self@, name@),
            },
    {
        match self.find(name) {
            Some(i) => {
                proof {
                    assert(contains_name(self@, name@));
                    let j = index_of(self@, name@);
                    assert(0 <= j < self@.len() && self@[j].name@ == name@);
                    assert(j == i as int);
                }
                Some(&self.records[i])
            },
            None => None,
        }
    }

    /// Appends a record under a fresh name.
    pub fn insert(&mut self, rec: BotRecord)
        requires
            old(self).wf(),
            !contains_name(old(self)@, rec.name@),
        ensures
            final(self)@ == old(self)@.push(rec),
            final(self).wf(),
    {
        proof {
            assert forall|i: int| 0 <= i < self@.len() implies self@[i].name@ != rec.name@ by {
                if self@[i].name@ == rec.name@ {
                    assert(contains_name(self@, rec.name@));
                }
            }
        }
        self.records.push(rec);
    }

    /// Overwrites the record at `i` with one carrying the same name.
    pub fn set_at(&mut self, i: usize, rec: BotRecord)
        requires
            old(self).wf(),
            i < old(self)@.len(),
            rec.name@ == old(self)@[i as int].name@,
        ensures
            final(self)@ == old(self)@.update(i as int, rec),
            final(self).wf(),
    {
        self.records.set(i, rec);
    }

    /// The record at table index `i`.
    pub fn get_at(&self, i: usize) -> (r: &BotRecord)
        requires
            i < self@.len(),
        ensures
            *r == self@[i as int],
    {
        &self.records[i]
    }

    /// One more win for the record at `i`.
    pub fn add_win(&mut self, i: usize)
        requires
            old(self).wf(),
            i < old(self)@.len(),
        ensures
            final(self)@ == old(self)@.update(
                i as int,
                with_scores(
                    old(self)@[i as int],
                    bump(old(self)@[i as int].wins),
                    old(self)@[i as int].losses,
                    old(self)@[i as int].ties,
                ),
            ),
            final(self).wf(),
    {
        let mut rec = self.records.remove(i);
        rec.wins = if rec.wins < 0xffff_ffffu32 {
            rec.wins + 1
        } else {
            rec.wins
        };
        self.records.insert(i, rec);
        proof {
            assert(self.records@ =~= old(self)@.update(
                i as int,
                with_scores(
                    old(self)@[i as int],
                    bump(old(self)@[i as int].wins),
                    old(self)@[i as int].losses,
                    old(self)@[i as int].ties,
                ),
            ));
        }
    }

    /// One more loss for the record at `i`.
    pub fn add_loss(&mut self, i: usize)
        requires
            old(self).wf(),
            i < old(self)@.len(),
        ensures
            final(self)@ == old(self)@.update(
                i as int,
                with_scores(
                    old(self)@[i as int],
                    old(self)@[i as int].wins,
                    bump(old(self)@[i as int].losses),
                    old(self)@[i as int].ties,
                ),
            ),
            final(self).wf(),
    {
        let mut rec = self.records.remove(i);
        rec.losses = if rec.losses < 0xffff_ffffu32 {
            rec.losses + 1
        } else {
            rec.losses
        };
        self.records.insert(i, rec);
        proof {
            assert(self.records@ =~= old(self)@.update(
                i as int,
                with_scores(
                    old(self)@[i as int],
                    old(self)@[i as int].wins,
                    bump(old(self)@[i as int].losses),
                    old(self)@[i as int].ties,
                ),
            ));
        }
    }

    /// One more tie for the record at `i`.
    pub fn add_tie(&mut self, i: usize)
        requires
            old(self).wf(),
            i < old(self)@.len(),
        ensures
            final(self)@ == old(self)@.update(
                i as int,
                with_scores(
                    old(self)@[i as int],
                    old(self)@[i as int].wins,
                    old(self)@[i as int].losses,
                    bump(old(self)@[i as int].ties),
                ),
            ),
            final(self).wf(),
    {
        let mut rec = self.records.remove(i);
        rec.ties = if rec.ties < 0xffff_ffffu32 {
            rec.ties + 1
        } else {
            rec.ties
        };
        self.records.insert(i, rec);
        proof {
            assert(self.records@ =~= old(self)@.update(
                i as int,
                with_scores(
                    old(self)@[i as int],
                    old(self)@[i as int].wins,
                    old(self)@[i as int].losses,
                    bump(old(self)@[i as int].ties),
                ),
            ));
        }
    }

    /// A snapshot of the registered names, in table order.
    pub fn names(&self) -> (r: Vec<String>)
        ensures
            r@.len() == self@.len(),
            forall|i: int| 0 <= i < r@.len() ==> r@[i]@ == self@[i].name@,
    {
        let mut r: Vec<String> = Vec::new();
        let mut i: usize = 0;
        while i < self.records.len()
            invariant
                i <= self@.len(),
                r@.len() == i,
                forall|j: int| 0 <= j < i ==> r@[j]@ == self@[j].name@,
            decreases self@.len() - i,
        {
            r.push(self.records[i].name.clone());
            i += 1;
        }
        r
    }

    /// A snapshot of the registered names with their payloads, in table
    /// order — what a newly registered bot's tournament runs play
    /// against.
    pub fn snapshot(&self) -> (r: Vec<(String, Vec<u8>)>)
        ensures
            r@.len() == self@.len(),
            forall|i: int|
                0 <= i < r@.len() ==> (#[trigger] r@[i]).0@ == self@[i].name@ && r@[i].1@
                    == self@[i].wasm@,
    {
        let mut r: Vec<(String, Vec<u8>)> = Vec::new();
        let mut i: usize = 0;
        while i < self.records.len()
            invariant
                i <= self@.len(),
                r@.len() == i,
                forall|j: int|
                    0 <= j < i ==> (#[trigger] r@[j]).0@ == self@[j].name@ && r@[j].1@
                        == self@[j].wasm@,
            decreases self@.len() - i,
        {
            r.push((self.records[i].name.clone(), clone_bytes(&self.records[i].wasm)));
            i += 1;
        }
        r
    }

    /// An ordered snapshot of the whole table.
    pub fn list(&self) -> (r: Vec<BotRecord>)
        ensures
            r@.len() == self@.len(),
            forall|i: int|
                0 <= i < r@.len() ==> r@[i].name@ == self@[i].name@ && r@[i].creator@
                    == self@[i].creator@ && r@[i].wasm@ == self@[i].wasm@ && r@[i].wins
                    == self@[i].wins && r@[i].losses == self@[i].losses && r@[i].ties
                    == self@[i].ties,
    {
        let mut r: Vec<BotRecord> = Vec::new();
        let mut i: usize = 0;
        while i < self.records.len()
            invariant
                i <= self@.len(),
                r@.len() == i,
                forall|j: int|
                    0 <= j < i ==> r@[j].name@ == self@[j].name@ && r@[j].creator@
                        == self@[j].creator@ && r@[j].wasm@ == self@[j].wasm@ && r@[j].wins
                        == self@[j].wins && r@[j].losses == self@[j].losses && r@[j].ties
                        == self@[j].ties,
            decreases self@.len() - i,
        {
            r.push(clone_record(&self.records[i]));
            i += 1;
        }
        r
    }
}

/// Whether some result in `s` carries identifier `id`.
pub open spec fn contains_id(s: Seq<MatchResult>, id: u128) -> bool {
    exists|i: int| 0 <= i < s.len() && s[i].id == id
}

/// The in-memory match-result registry: results in insertion order.
pub struct MatchTable {
    results: Vec<MatchResult>,
}

impl View for MatchTable {
    type V = Seq<MatchResult>;

    closed spec fn view(&self) -> Seq<MatchResult> {
        self.results@
    }
}

impl MatchTable {
    pub fn new() -> (r: MatchTable)
        ensures
            r@ =~= Seq::<MatchResult>::empty(),
    {
        MatchTable { results: Vec::new() }
    }

    pub fn len(&self) -> (r: usize)
        ensures
            r == self@.len(),
    {
        self.results.len()
    }

    /// Appends one finished match.
    pub fn insert(&mut self, result: MatchResult)
        ensures
            final(self)@ == old(self)@.push(result),
    {
        self.results.push(result);
    }

    /// The result at table index `i`.
    pub fn get_at(&self, i: usize) -> (r: &MatchResult)
        requires
            i < self@.len(),
        ensures
            *r == self@[i as int],
    {
        &self.results[i]
    }

    /// The first result carrying identifier `id`, if any: a reference
    /// into the table, equal to a stored entry.
    pub fn get(&self, id: u128) -> (r: Option<&MatchResult>)
        ensures
            match r {
                Some(m) => contains_id(self@, id) && m.id == id && exists|i: int|
                    0 <= i < self@.len() && self@[i] == *m,
                None => !contains_id(self@, id),
            },
    {
        let mut i: usize = 0;
        while i < self.results.len()
            invariant
                i <= self@.len(),
                forall|j: int| 0 <= j < i ==> self@[j].id != id,
            decreases self@.len() - i,
        {
            if self.results[i].id == id {
                proof {
                    assert(contains_id(self@, id));
                    assert(self@[i as int] == self@[i as int]);
                }
                return Some(&self.results[i]);
            }
            i += 1;
        }
        None
    }

    /// An ordered snapshot of the whole table, field-true per entry.
    pub fn list(&self) -> (r: Vec<MatchResult>)
        ensures
            r@.len() == self@.len(),
            forall|i: int|
                0 <= i < r@.len() ==> (#[trigger] r@[i]).id == self@[i].id && r@[i].white_player@
                    == self@[i].white_player@ && r@[i].black_player@ == self@[i].black_player@
                    && r@[i].board_size == self@[i].board_size && r@[i].moves@ == self@[i].moves@
                    && r@[i].misplay == self@[i].misplay && (r@[i].winner is Tie <==> self@[i].winner
                    is Tie) && (self@[i].winner matches MatchWinner::Named(w) ==> (r@[i].winner
                    matches MatchWinner::Named(v) && v@ == w@)),
    {
        let mut r: Vec<MatchResult> = Vec::new();
        let mut i: usize = 0;
        while i < self.results.len()
            invariant
                i <= self@.len(),
                r@.len() == i,
                forall|j: int|
                    0 <= j < i ==> (#[trigger] r@[j]).id == self@[j].id && r@[j].white_player@
                        == self@[j].white_player@ && r@[j].black_player@ == self@[j].black_player@
                        && r@[j].board_size == self@[j].board_size && r@[j].moves@
                        == self@[j].moves@ && r@[j].misplay == self@[j].misplay && (r@[j].winner
                        is Tie <==> self@[j].winner is Tie) && (self@[j].winner matches
                    MatchWinner::Named(w) ==> (r@[j].winner matches MatchWinner::Named(v) && v@
                        == w@)),
            decreases self@.len() - i,
        {
            r.push(clone_result(&self.results[i]));
            i += 1;
        }
        r
    }
}

/// A field-true copy of a finished match.
pub fn clone_result(m: &MatchResult) -> (c: MatchResult)
    ensures
        c.id == m.id,
        c.white_player@ == m.white_player@,
        c.black_player@ == m.black_player@,
        c.board_size == m.board_size,
        c.moves@ == m.moves@,
        c.misplay == m.misplay,
        c.winner is Tie <==> m.winner is Tie,
        m.winner matches MatchWinner::Named(w) ==> (c.winner matches MatchWinner::Named(v) && v@
            == w@),
{
    let winner = match &m.winner {
        MatchWinner::Named(w) => MatchWinner::Named(w.clone()),
        MatchWinner::Tie => MatchWinner::Tie,
    };
    MatchResult {
        id: m.id,
        white_player: m.white_player.clone(),
        black_player: m.black_player.clone(),
        winner,
        board_size: m.board_size,
        moves: clone_bytes(&m.moves),
        misplay: m.misplay,
    }
}

} // verus!
