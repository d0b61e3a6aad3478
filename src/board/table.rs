use vstd::prelude::*;
use dashmap::DashMap;
use crate::board::structure::Board;

verus! {

#[verifier::external_type_specification]
#[verifier::external_body]
#[verifier::reject_recursive_types(K)]
#[verifier::reject_recursive_types(V)]
#[verifier::reject_recursive_types(S)]
pub struct ExDashMap<K, V, S>(DashMap<K, V, S>);

#[verifier::external_type_specification]
#[verifier::external_body]
pub struct ExRandomState(ahash::RandomState);

/// A cached search result: the score, and the depth it was searched to.
#[derive(Clone, Copy, Debug)]
pub struct HashEntry {
    pub score: i64,
    pub depth: u8,
}

/// The concurrent map behind a transposition table, keyed by board content.
pub type HashTable = DashMap<Board, HashEntry, ahash::RandomState>;

/// What a map behind a transposition table holds, each board by its cells.
pub uninterp spec fn table_entries(t: DashMap<Board, HashEntry, ahash::RandomState>) -> Map<Seq<u8>, HashEntry>;

/// Relies on `DashMap::with_hasher` (and `ahash::RandomState::new` for the hasher): a new map is empty.
#[verifier::external_body]
fn new_hash_table() -> (r: HashTable)
    ensures
        table_entries(r).is_empty(),
{
    DashMap::with_hasher(ahash::RandomState::new())
}

/// Relies on `DashMap::get`: the value stored under a key equal to `board`, if any.
#[verifier::external_body]
fn hash_table_get(t: &HashTable, board: &Board) -> (r: Option<HashEntry>)
    ensures
        r == (if table_entries(*t).contains_key(board@) {
            Some(table_entries(*t)[board@])
        } else {
            None
        }),
{
    t.get(board).map(|e| *e.value())
}

/// Relies on `DashMap::insert`: stores `entry` under `board`, replacing any earlier value.
#[verifier::external_body]
fn hash_table_insert(t: &mut HashTable, board: Board, entry: HashEntry)
    ensures
        table_entries(*final(t)) == table_entries(*old(t)).insert(board@, entry),
{
    t.insert(board, entry);
}

/// The largest score a search can give: a swap's largest score, kept up over every ply.
pub open spec fn score_limit() -> int {
    252981900000
}

/// The same limit, for executable code.
pub const SCORE_LIMIT: i64 = 252981900000;

/// A cache from board content to the best search score found for it, with the depth of
/// that search.
pub struct TranspositionTable {
    map: HashTable,
}

impl TranspositionTable {
    /// The entries of the table.
    pub closed spec fn view(&self) -> Map<Seq<u8>, HashEntry> {
        table_entries(self.map)
    }

    /// Every cached score is one a search can give: between 0 and `score_limit()`.
    pub open spec fn wf(&self) -> bool {
        forall|k: Seq<u8>| #[trigger] self.view().contains_key(k) ==> 0 <= self.view()[k].score <= score_limit()
    }

    /// An empty table.
    pub fn new() -> (r: TranspositionTable)
        ensures
            r.view() == Map::<Seq<u8>, HashEntry>::empty(),
            r.wf(),
    {
        TranspositionTable { map: new_hash_table() }
    }

    /// The entry stored for exactly this board content, if any.
    pub fn get(&self, board: &Board) -> (r: Option<HashEntry>)
        ensures
            r == (if self.view().contains_key(board@) {
                Some(self.view()[board@])
            } else {
                None
            }),
    {
        hash_table_get(&self.map, board)
    }

    /// Stores `score` and `depth` for this board content, replacing any earlier entry.
    pub fn put(&mut self, board: Board, score: i64, depth: u8)
        ensures
            final(self).view() == old(self).view().insert(board@, HashEntry { score, depth }),
            old(self).wf() && 0 <= score <= score_limit() ==> final(self).wf(),
    {
        hash_table_insert(&mut self.map, board, HashEntry { score, depth });
        proof {
            if old(self).wf() && 0 <= score <= score_limit() {
                assert forall|k: Seq<u8>| #[trigger] self.view().contains_key(k) implies 0 <= self.view()[k].score
                    <= score_limit() by {
                    if k != board@ {
                        assert(old(self).view().contains_key(k));
                    }
                }
            }
        }
    }
}

} // verus!
