//! The in-process fuzzy-search cache.
//!
//! The cache holds a derived, advisory copy of the store's searchable items,
//! keyed by id, and serves ranked case-insensitive fuzzy matches over their
//! names. `Cache` is the data structure itself, with exact contracts over
//! its map view; `Searcher` shares one `Cache` across request handlers
//! behind a reader-writer lock.

use vstd::prelude::*;

use crate::store::{query_item_rows, StoreError};
use r2d2_sqlite::rusqlite::Connection;
use std::sync::Arc;
use vstd::rwlock::{RwLock, RwLockPredicate};

verus! {

/// One searchable item: the cached projection of a persisted record.
pub struct SearchItem {
    pub name: String,
    pub calories: i64,
}

/// One ranked match: the surviving item's name and calories, and the
/// character positions of the query inside the name.
pub struct SearchResult {
    pub name: String,
    pub calories: i64,
    pub positions: Vec<usize>,
}

/// What the fuzzy matcher answers for a name and a query: `None` when the
/// query is no case-insensitive fuzzy subsequence of the name, otherwise the
/// relevance score and the matched character positions. The answer depends
/// on the two strings alone.
pub uninterp spec fn fuzzy_of(name: Seq<char>, query: Seq<char>) -> Option<(i64, Seq<usize>)>;

/// The name fuzzily matches the query.
pub open spec fn fuzzy_matches(name: Seq<char>, query: Seq<char>) -> bool {
    fuzzy_of(name, query) is Some
}

/// The score of a match.
pub open spec fn fuzzy_score(name: Seq<char>, query: Seq<char>) -> i64 {
    fuzzy_of(name, query)->Some_0.0
}

/// The matched character positions of a match.
pub open spec fn fuzzy_positions(name: Seq<char>, query: Seq<char>) -> Seq<usize> {
    fuzzy_of(name, query)->Some_0.1
}

/// Relies on fuzzy_matcher's `SkimMatcherV2::fuzzy`, configured to ignore
/// case and asked for positions: a deterministic function of the name and
/// the query; an empty query matches every name.
#[verifier::external_body]
fn fuzzy_match(name: &str, query: &str) -> (r: Option<(i64, Vec<usize>)>)
    ensures
        r is Some <==> fuzzy_of(name@, query@) is Some,
        r matches Some(p) ==> p.0 == fuzzy_score(name@, query@) && p.1@ == fuzzy_positions(
            name@,
            query@,
        ),
        query@.len() == 0 ==> r is Some,
{
    fuzzy_matcher::skim::SkimMatcherV2::default().ignore_case().fuzzy(name, query, true)
}

/// The entries' ids are strictly ascending: each id occurs at most once, and
/// scanning backwards visits newer items first.
pub open spec fn sorted_ids(s: Seq<(u64, SearchItem)>) -> bool {
    forall|k: int, l: int| 0 <= k < l < s.len() ==> s[k].0 < s[l].0
}

/// Some entry carries this id.
pub open spec fn has_id(s: Seq<(u64, SearchItem)>, id: u64) -> bool {
    exists|k: int| 0 <= k < s.len() && s[k].0 == id
}

/// The item stored under this id.
pub open spec fn item_at(s: Seq<(u64, SearchItem)>, id: u64) -> SearchItem {
    s[choose|k: int| 0 <= k < s.len() && s[k].0 == id].1
}

/// The entries as a map from id to item.
pub open spec fn map_of(s: Seq<(u64, SearchItem)>) -> Map<u64, SearchItem> {
    Map::new(|id: u64| has_id(s, id), |id: u64| item_at(s, id))
}

proof fn lemma_sorted_unique(s: Seq<(u64, SearchItem)>, k1: int, k2: int)
    requires
        sorted_ids(s),
        0 <= k1 < s.len(),
        0 <= k2 < s.len(),
        s[k1].0 == s[k2].0,
    ensures
        k1 == k2,
{
    if k1 < k2 {
        assert(s[k1].0 < s[k2].0);
    } else if k2 < k1 {
        assert(s[k2].0 < s[k1].0);
    }
}

proof fn lemma_item_at(s: Seq<(u64, SearchItem)>, k: int)
    requires
        sorted_ids(s),
        0 <= k < s.len(),
    ensures
        has_id(s, s[k].0),
        item_at(s, s[k].0) == s[k].1,
        map_of(s).dom().contains(s[k].0),
        map_of(s)[s[k].0] == s[k].1,
{
    let id = s[k].0;
    assert(has_id(s, id));
    let k2 = choose|k2: int| 0 <= k2 < s.len() && s[k2].0 == id;
    lemma_sorted_unique(s, k, k2);
}

proof fn lemma_map_update(s: Seq<(u64, SearchItem)>, p: int, id: u64, item: SearchItem)
    requires
        sorted_ids(s),
        0 <= p < s.len(),
        s[p].0 == id,
    ensures
        sorted_ids(s.update(p, (id, item))),
        map_of(s.update(p, (id, item))) =~= map_of(s).insert(id, item),
{
    let s2 = s.update(p, (id, item));
    assert forall|id2: u64| #[trigger] has_id(s2, id2) implies id2 == id || has_id(s, id2) by {
        let k = choose|k: int| 0 <= k < s2.len() && s2[k].0 == id2;
        if k != p {
            assert(s[k].0 == id2);
        }
    }
    assert forall|id2: u64| #[trigger] has_id(s, id2) implies id2 == id || has_id(s2, id2) by {
        let k = choose|k: int| 0 <= k < s.len() && s[k].0 == id2;
        if k != p {
            assert(s2[k].0 == id2);
        }
    }
    assert(has_id(s2, id)) by {
        assert(s2[p].0 == id);
    }
    assert forall|id2: u64| has_id(s2, id2) implies #[trigger] map_of(s2)[id2] == map_of(s).insert(
        id,
        item,
    )[id2] by {
        let k = choose|k: int| 0 <= k < s2.len() && s2[k].0 == id2;
        lemma_item_at(s2, k);
        if id2 == id {
            lemma_sorted_unique(s2, k, p);
        } else {
            assert(s[k].0 == id2);
            lemma_item_at(s, k);
        }
    }
}

proof fn lemma_map_insert(s: Seq<(u64, SearchItem)>, p: int, id: u64, item: SearchItem)
    requires
        sorted_ids(s),
        0 <= p <= s.len(),
        forall|k: int| 0 <= k < p ==> s[k].0 < id,
        forall|k: int| p <= k < s.len() ==> s[k].0 > id,
    ensures
        sorted_ids(s.insert(p, (id, item))),
        map_of(s.insert(p, (id, item))) =~= map_of(s).insert(id, item),
{
    let s2 = s.insert(p, (id, item));
    assert(forall|k: int| 0 <= k < p ==> s2[k] == s[k]);
    assert(forall|k: int| p < k < s2.len() ==> s2[k] == s[k - 1]);
    assert(s2[p] == (id, item));
    assert forall|k: int, l: int| 0 <= k < l < s2.len() implies s2[k].0 < s2[l].0 by {
        if k < p && l == p {
        } else if k == p && l > p {
        }
    }
    assert forall|id2: u64| #[trigger] has_id(s2, id2) implies id2 == id || has_id(s, id2) by {
        let k = choose|k: int| 0 <= k < s2.len() && s2[k].0 == id2;
        if k < p {
            assert(s[k].0 == id2);
        } else if k > p {
            assert(s[k - 1].0 == id2);
        }
    }
    assert forall|id2: u64| #[trigger] has_id(s, id2) implies has_id(s2, id2) by {
        let k = choose|k: int| 0 <= k < s.len() && s[k].0 == id2;
        if k < p {
            assert(s2[k].0 == id2);
        } else {
            assert(s2[k + 1].0 == id2);
        }
    }
    assert(has_id(s2, id)) by {
        assert(s2[p].0 == id);
    }
    assert forall|id2: u64| has_id(s2, id2) implies #[trigger] map_of(s2)[id2] == map_of(s).insert(
        id,
        item,
    )[id2] by {
        let k = choose|k: int| 0 <= k < s2.len() && s2[k].0 == id2;
        lemma_item_at(s2, k);
        if id2 == id {
            lemma_sorted_unique(s2, k, p);
        } else if k < p {
            assert(s[k].0 == id2);
            lemma_item_at(s, k);
        } else {
            assert(s[k - 1].0 == id2);
            lemma_item_at(s, k - 1);
        }
    }
}

proof fn lemma_map_remove(s: Seq<(u64, SearchItem)>, p: int)
    requires
        sorted_ids(s),
        0 <= p < s.len(),
    ensures
        sorted_ids(s.remove(p)),
        map_of(s.remove(p)) =~= map_of(s).remove(s[p].0),
{
    let id = s[p].0;
    let s2 = s.remove(p);
    assert(forall|k: int| 0 <= k < p ==> s2[k] == s[k]);
    assert(forall|k: int| p <= k < s2.len() ==> s2[k] == s[k + 1]);
    assert forall|id2: u64| #[trigger] has_id(s2, id2) implies id2 != id && has_id(s, id2) by {
        let k = choose|k: int| 0 <= k < s2.len() && s2[k].0 == id2;
        if k < p {
            assert(s[k].0 == id2);
            assert(s[k].0 < s[p].0);
        } else {
            assert(s[k + 1].0 == id2);
            assert(s[p].0 < s[k + 1].0);
        }
    }
    assert forall|id2: u64| #[trigger] has_id(s, id2) && id2 != id implies has_id(s2, id2) by {
        let k = choose|k: int| 0 <= k < s.len() && s[k].0 == id2;
        if k < p {
            assert(s2[k].0 == id2);
        } else {
            assert(k != p);
            assert(s2[k - 1].0 == id2);
        }
    }
    assert forall|id2: u64| has_id(s2, id2) implies #[trigger] map_of(s2)[id2] == map_of(s).remove(
        id,
    )[id2] by {
        let k = choose|k: int| 0 <= k < s2.len() && s2[k].0 == id2;
        lemma_item_at(s2, k);
        if k < p {
            assert(s[k].0 == id2);
            lemma_item_at(s, k);
        } else {
            assert(s[k + 1].0 == id2);
            lemma_item_at(s, k + 1);
        }
    }
}

/// The id-keyed cache of searchable items, stored in ascending id order.
pub struct Cache {
    entries: Vec<(u64, SearchItem)>,
}

impl View for Cache {
    type V = Seq<(u64, SearchItem)>;

    closed spec fn view(&self) -> Seq<(u64, SearchItem)> {
        self.entries@
    }
}

/// The item patched as `update` patches it: each field is replaced exactly
/// when a replacement was supplied.
pub open spec fn patched(item: SearchItem, name: Option<String>, calories: Option<i64>) -> SearchItem {
    SearchItem {
        name: if name is Some {
            name->0
        } else {
            item.name
        },
        calories: if calories is Some {
            calories->0
        } else {
            item.calories
        },
    }
}

impl Cache {
    /// The entries stand in strictly ascending id order.
    pub open spec fn wf(&self) -> bool {
        sorted_ids(self@)
    }

    /// The cache's content as a map from id to item.
    pub open spec fn as_map(&self) -> Map<u64, SearchItem> {
        map_of(self@)
    }

    /// An empty cache.
    pub fn new() -> (c: Cache)
        ensures
            c.wf(),
            c.as_map() == Map::<u64, SearchItem>::empty(),
    {
        let c = Cache { entries: Vec::new() };
        proof {
            assert(c.as_map() =~= Map::<u64, SearchItem>::empty());
        }
        c
    }

    /// Finds the position at which `id` sits or would be inserted: the
    /// first entry whose id is not below `id`.
    fn position_of(&self, id: u64) -> (p: usize)
        requires
            self.wf(),
        ensures
            p <= self@.len(),
            forall|k: int| 0 <= k < p ==> self@[k].0 < id,
            forall|k: int| p < k < self@.len() ==> self@[k].0 > id,
            p < self@.len() ==> self@[p as int].0 >= id,
    {
        let mut p: usize = 0;
        while p < self.entries.len()
            invariant
                self.wf(),
                0 <= p <= self@.len(),
                forall|k: int| 0 <= k < p ==> self@[k].0 < id,
            decreases self@.len() - p,
        {
            if self.entries[p].0 >= id {
                return p;
            }
            p += 1;
        }
        p
    }

    /// Inserts the item at `id`, or overwrites the one already there.
    pub fn insert(&mut self, id: u64, item: SearchItem)
        requires
            old(self).wf(),
        ensures
            final (self).wf(),
            final (self).as_map() == old(self).as_map().insert(id, item),
    {
        let ghost s0 = self@;
        let p = self.position_of(id);
        if p < self.entries.len() && self.entries[p].0 == id {
            self.entries.set(p, (id, item));
            proof {
                lemma_map_update(s0, p as int, id, item);
            }
        } else {
            self.entries.insert(p, (id, item));
            proof {
                lemma_map_insert(s0, p as int, id, item);
            }
        }
    }

    /// Patches the entry at `id`, replacing only the fields supplied; does
    /// nothing if `id` is absent — the caller, not the cache, is
    /// authoritative for existence.
    pub fn update(&mut self, id: u64, name: Option<String>, calories: Option<i64>)
        requires
            old(self).wf(),
        ensures
            final (self).wf(),
            old(self).as_map().dom().contains(id) ==> final (self).as_map() == old(
                self,
            ).as_map().insert(id, patched(old(self).as_map()[id], name, calories)),
            !old(self).as_map().dom().contains(id) ==> final (self).as_map() == old(self).as_map(),
    {
        let ghost s0 = self@;
        let p = self.position_of(id);
        if p < self.entries.len() && self.entries[p].0 == id {
            proof {
                lemma_item_at(s0, p as int);
            }
            let current = &self.entries[p].1;
            let new_name: String = match name {
                Some(n) => n,
                None => current.name.clone(),
            };
            let new_calories: i64 = match calories {
                Some(c) => c,
                None => current.calories,
            };
            let item = SearchItem { name: new_name, calories: new_calories };
            self.entries.set(p, (id, item));
            proof {
                lemma_map_update(s0, p as int, id, item);
            }
        } else {
            proof {
                if has_id(s0, id) {
                    let k = choose|k: int| 0 <= k < s0.len() && s0[k].0 == id;
                    assert(false);
                }
            }
        }
    }

    /// Deletes the entry at `id` if present; does nothing otherwise.
    pub fn remove(&mut self, id: u64)
        requires
            old(self).wf(),
        ensures
            final (self).wf(),
            final (self).as_map() == old(self).as_map().remove(id),
    {
        let ghost s0 = self@;
        let p = self.position_of(id);
        if p < self.entries.len() && self.entries[p].0 == id {
            self.entries.remove(p);
            proof {
                lemma_map_remove(s0, p as int);
            }
        } else {
            proof {
                if has_id(s0, id) {
                    let k = choose|k: int| 0 <= k < s0.len() && s0[k].0 == id;
                    assert(false);
                }
                assert(map_of(s0) =~= map_of(s0).remove(id));
            }
        }
    }

    /// Builds the cache from the store's item rows, later rows winning on a
    /// repeated id.
    pub fn from_rows(rows: Vec<(u64, String, i64)>) -> (c: Cache)
        ensures
            c.wf(),
            c.as_map() == rows_map(rows@),
    {
        let ghost all = rows@;
        let mut rest = rows;
        let mut c = Cache::new();
        proof {
            assert(all.take(0) =~= Seq::<(u64, String, i64)>::empty());
            assert(all.skip(0) =~= all);
        }
        while rest.len() > 0
            invariant
                c.wf(),
                rest@.len() <= all.len(),
                rest@ =~= all.skip(all.len() - rest@.len()),
                c.as_map() == rows_map(all.take(all.len() - rest@.len())),
            decreases rest@.len(),
        {
            let ghost i = all.len() - rest@.len();
            let row = rest.remove(0);
            let (id, name, calories) = row;
            c.insert(id, SearchItem { name, calories });
            proof {
                assert(all.take(i + 1).drop_last() =~= all.take(i as int));
                assert(all.take(i + 1).last() == all[i as int]);
                assert(rest@ =~= all.skip(i + 1));
            }
        }
        proof {
            assert(all.take(all.len() as int) =~= all);
        }
        c
    }

    /// Serves ranked fuzzy matches for the query: scans the entries, keeps
    /// each non-empty name's newest bearer, fuzzily matches the query
    /// against it, ranks the matches by score descending with ties toward
    /// the newer id, and returns the first five.
    pub fn search(&self, qry: &str) -> (rs: Vec<SearchResult>)
        requires
            self.wf(),
        ensures
            search_post(self.as_map(), qry@, rs@),
    {
        let ghost s = self@;
        let ghost q = qry@;
        let ghost m = map_of(s);
        let n = self.entries.len();
        let mut cands: Vec<Cand> = Vec::new();
        let mut i: usize = 0;
        while i < n
            invariant
                self.wf(),
                s == self@,
                q == qry@,
                n == self@.len(),
                0 <= i <= n,
                forall|k: int| 0 <= k < cands@.len() ==> cand_ok(s, q, #[trigger] cands@[k]),
                forall|k: int, l: int|
                    0 <= k < l < cands@.len() ==> cands@[k].id < cands@[l].id,
                forall|k: int|
                    0 <= k < cands@.len() ==> exists|j: int|
                        0 <= j < i && s[j].0 == (#[trigger] cands@[k]).id,
                forall|j: int| 0 <= j < i && #[trigger] live_at(s, q, j) ==> in_cands(
                    cands@,
                    s[j].0,
                ),
            decreases n - i,
        {
            let ghost cands_before = cands@;
            let id = self.entries[i].0;
            let mut pushed = false;
            if !self.entries[i].1.name.as_str().is_empty() {
                if !has_later_dup(&self.entries, i) {
                    match fuzzy_match(self.entries[i].1.name.as_str(), qry) {
                        Some((score, positions)) => {
                            let c = Cand {
                                score,
                                id,
                                positions,
                                name: self.entries[i].1.name.clone(),
                                calories: self.entries[i].1.calories,
                            };
                            proof {
                                assert(live_at(s, q, i as int));
                                assert(cand_ok(s, q, c)) by {
                                    assert(s[i as int].0 == c.id && live_at(s, q, i as int)
                                        && c.name@ == s[i as int].1.name@ && c.calories == s[
                                        i as int].1.calories && c.score == fuzzy_score(
                                        s[i as int].1.name@,
                                        q,
                                    ) && c.positions@ == fuzzy_positions(s[i as int].1.name@, q));
                                }
                            }
                            cands.push(c);
                            pushed = true;
                            proof {
                                assert forall|k: int, l: int|
                                    0 <= k < l < cands@.len() implies cands@[k].id
                                    < cands@[l].id by {
                                    if l == cands@.len() - 1 {
                                        let j = choose|j: int|
                                            0 <= j < i && s[j].0 == cands_before[k].id;
                                        assert(s[j].0 < s[i as int].0);
                                    }
                                }
                                assert(in_cands(cands@, s[i as int].0)) by {
                                    assert(cands@[cands@.len() - 1].id == s[i as int].0);
                                }
                            }
                        },
                        None => {
                            proof {
                                assert(!live_at(s, q, i as int));
                            }
                        },
                    }
                } else {
                    proof {
                        assert(!live_at(s, q, i as int));
                    }
                }
            } else {
                proof {
                    assert(!live_at(s, q, i as int));
                }
            }
            proof {
                if !pushed {
                    assert(cands@ == cands_before);
                }
                assert forall|j: int| 0 <= j < i + 1 && #[trigger] live_at(s, q, j) implies
                    in_cands(cands@, s[j].0) by {
                    if j < i {
                        assert(in_cands(cands_before, s[j].0));
                        let k = choose|k: int|
                            0 <= k < cands_before.len() && cands_before[k].id == s[j].0;
                        assert(cands@[k].id == s[j].0);
                    }
                }
            }
            i += 1;
        }
        let ghost cands0 = cands@;
        let sorted = sort_cands(cands);
        proof {
            lemma_sorted_cands(cands0, sorted@);
        }
        let limit: usize = if sorted.len() < 5 {
            sorted.len()
        } else {
            5
        };
        let mut rs: Vec<SearchResult> = Vec::new();
        let mut k: usize = 0;
        while k < limit
            invariant
                k <= limit,
                limit <= 5,
                limit <= sorted@.len(),
                sorted@.len() < 5 ==> limit == sorted@.len(),
                sorted@.len() >= 5 ==> limit == 5,
                rs@.len() == k,
                forall|k2: int|
                    0 <= k2 < k ==> (#[trigger] rs@[k2]).name@ == sorted@[k2].name@ && rs@[k2].calories
                        == sorted@[k2].calories && rs@[k2].positions@ == sorted@[k2].positions@,
            decreases limit - k,
        {
            let r = SearchResult {
                name: sorted[k].name.clone(),
                calories: sorted[k].calories,
                positions: copy_positions(&sorted[k].positions),
            };
            rs.push(r);
            k += 1;
        }
        proof {
            let srt = sorted@;
            assert forall|k2: int| 0 <= k2 < srt.len() implies cand_ok(s, q, #[trigger] srt[k2]) by {
                assert(cands0.contains(srt[k2]));
                let j = choose|j: int| 0 <= j < cands0.len() && cands0[j] == srt[k2];
                assert(cand_ok(s, q, cands0[j]));
            }
            assert forall|k2: int| 0 <= k2 < rs@.len() implies result_for(
                m,
                q,
                survivor_of(m, q, (#[trigger] rs@[k2]).name@),
                rs@[k2],
            ) by {
                lemma_result_ok(s, q, srt[k2], rs@[k2]);
            }
            assert forall|k2: int, l: int| 0 <= k2 < l < rs@.len() implies rs@[k2].name@
                != rs@[l].name@ by {
                lemma_result_ok(s, q, srt[k2], rs@[k2]);
                lemma_result_ok(s, q, srt[l], rs@[l]);
                if rs@[k2].name@ == rs@[l].name@ {
                    assert(survivor_of(m, q, rs@[k2].name@) == survivor_of(m, q, rs@[l].name@));
                    assert(srt[k2].id == srt[l].id);
                }
            }
            assert forall|k2: int, l: int| 0 <= k2 < l < rs@.len() implies ranks_before(
                m,
                q,
                survivor_of(m, q, rs@[k2].name@),
                survivor_of(m, q, rs@[l].name@),
            ) by {
                lemma_result_ok(s, q, srt[k2], rs@[k2]);
                lemma_result_ok(s, q, srt[l], rs@[l]);
                assert(cand_le(srt[k2], srt[l]));
                assert(srt[k2].id != srt[l].id);
            }
            assert forall|id: u64| #[trigger]
                is_survivor(m, q, id) implies ranked_holds_id(srt, id) by {
                assert(m.dom().contains(id));
                assert(has_id(s, id));
                let j = choose|j: int| 0 <= j < s.len() && s[j].0 == id;
                lemma_item_at(s, j);
                lemma_live_survivor(s, q, j);
                assert(live_at(s, q, j));
                assert(in_cands(cands0, s[j].0));
                let a = choose|a: int| 0 <= a < cands0.len() && cands0[a].id == s[j].0;
                assert(srt.contains(cands0[a]));
                let b = choose|b: int| 0 <= b < srt.len() && srt[b] == cands0[a];
                assert(0 <= b < srt.len() && srt[b].id == id);
            }
            assert forall|id: u64| #[trigger]
                is_survivor(m, q, id) && rs@.len() < 5 implies represented(m, q, id, rs@) by {
                let b = choose|b: int| 0 <= b < srt.len() && (#[trigger] srt[b]).id == id;
                assert(b < rs@.len());
                lemma_result_ok(s, q, srt[b], rs@[b]);
                assert(rs@[b].name@ == m[id].name@);
            }
            assert forall|id: u64, k2: int|
                #[trigger] is_survivor(m, q, id) && !represented(m, q, id, rs@) && 0 <= k2
                    < rs@.len() implies ranks_before(
                m,
                q,
                survivor_of(m, q, (#[trigger] rs@[k2]).name@),
                id,
            ) by {
                let b = choose|b: int| 0 <= b < srt.len() && (#[trigger] srt[b]).id == id;
                if b < rs@.len() {
                    lemma_result_ok(s, q, srt[b], rs@[b]);
                    assert(rs@[b].name@ == m[id].name@);
                    assert(represented(m, q, id, rs@));
                }
                assert(b >= rs@.len());
                lemma_result_ok(s, q, srt[k2], rs@[k2]);
                assert(cand_le(srt[k2], srt[b]));
                assert(srt[k2].id != srt[b].id);
                let jb = choose|jb: int|
                    {
                        &&& 0 <= jb < s.len()
                        &&& #[trigger] s[jb].0 == srt[b].id
                        &&& live_at(s, q, jb)
                        &&& srt[b].name@ == s[jb].1.name@
                        &&& srt[b].calories == s[jb].1.calories
                        &&& srt[b].score == fuzzy_score(s[jb].1.name@, q)
                        &&& srt[b].positions@ == fuzzy_positions(s[jb].1.name@, q)
                    };
                lemma_item_at(s, jb);
                assert(m[id].name@ == srt[b].name@);
                assert(fuzzy_score(m[id].name@, q) == srt[b].score);
            }
        }
        rs
    }
}

/// The id appears among the ranked candidates.
spec fn ranked_holds_id(srt: Seq<Cand>, id: u64) -> bool {
    exists|b: int| 0 <= b < srt.len() && (#[trigger] srt[b]).id == id
}

/// The lock invariant of the shared cache: the entries stand in strictly
/// ascending id order.
pub struct CachePred;

impl RwLockPredicate<Cache> for CachePred {
    open spec fn inv(self, v: Cache) -> bool {
        v.wf()
    }
}

/// The shared search cache: one `Cache` behind a single reader-writer lock,
/// cloned by reference into every request handler. Queries proceed in
/// parallel; a mutation excludes all other cache operations for its
/// duration.
#[derive(Clone)]
pub struct Searcher(Arc<RwLock<Cache, CachePred>>);

impl Searcher {
    /// Bootstraps the cache with one synchronous read of all current items
    /// from the store, before the cache is shared. A store failure here is
    /// fatal to startup and is handed to the caller to surface.
    pub fn new(c: &Connection) -> (r: Result<Searcher, StoreError>) {
        let rows = match query_item_rows(c, "SELECT id, name, calories FROM items") {
            Ok(rows) => rows,
            Err(message) => return Err(StoreError { message }),
        };
        let cache = Cache::from_rows(rows);
        Ok(Searcher(Arc::new(RwLock::new(cache, Ghost(CachePred)))))
    }

    /// Inserts or overwrites the entry at `id`, mirroring the caller's
    /// store write.
    pub fn insert(&self, id: u64, item: SearchItem) {
        let (mut cache, handle) = self.0.acquire_write();
        cache.insert(id, item);
        handle.release_write(cache);
    }

    /// Patches the entry at `id` with the fields supplied, mirroring the
    /// caller's store write; absent ids are silently ignored.
    pub fn update(&self, id: u64, name: Option<String>, calories: Option<i64>) {
        let (mut cache, handle) = self.0.acquire_write();
        cache.update(id, name, calories);
        handle.release_write(cache);
    }

    /// Deletes the entry at `id`, mirroring the caller's store write;
    /// absent ids are silently ignored.
    pub fn remove(&self, id: u64) {
        let (mut cache, handle) = self.0.acquire_write();
        cache.remove(id);
        handle.release_write(cache);
    }

    /// Serves ranked fuzzy matches for the query against the cache content
    /// at the instant of the read: the full statement of what the list
    /// holds is `search_post`, said of the content the lock handed out.
    pub fn search(&self, qry: &str) -> (rs: Vec<SearchResult>)
        ensures
            exists|m: Map<u64, SearchItem>| search_post(m, qry@, rs@),
    {
        let handle = self.0.acquire_read();
        let rs = handle.borrow().search(qry);
        proof {
            assert(search_post(handle.view().as_map(), qry@, rs@));
        }
        handle.release_read();
        rs
    }
}

/// The store's item rows as a map from id to item, later rows winning.
pub open spec fn rows_map(rows: Seq<(u64, String, i64)>) -> Map<u64, SearchItem>
    decreases rows.len(),
{
    if rows.len() == 0 {
        Map::empty()
    } else {
        rows_map(rows.drop_last()).insert(
            rows.last().0,
            SearchItem { name: rows.last().1, calories: rows.last().2 },
        )
    }
}

/// The item at `id` survives the scan for this query: it exists, its name is
/// non-empty and fuzzily matches, and no newer item (greater id) bears the
/// identical name — the newest of a duplicated name wins, the older ones are
/// suppressed.
pub open spec fn is_survivor(m: Map<u64, SearchItem>, q: Seq<char>, id: u64) -> bool {
    &&& m.dom().contains(id)
    &&& m[id].name@.len() > 0
    &&& fuzzy_matches(m[id].name@, q)
    &&& forall|id2: u64|
        #[trigger] m.dom().contains(id2) && id2 > id ==> m[id2].name@ != m[id].name@
}

/// Survivor `a` ranks before survivor `b`: higher score first, ties broken
/// toward the newer (greater) id.
pub open spec fn ranks_before(m: Map<u64, SearchItem>, q: Seq<char>, a: u64, b: u64) -> bool {
    fuzzy_score(m[a].name@, q) > fuzzy_score(m[b].name@, q) || (fuzzy_score(m[a].name@, q)
        == fuzzy_score(m[b].name@, q) && a > b)
}

/// `r` reports the survivor at `id`: its name, its calories, and the matched
/// positions of the query inside its name.
pub open spec fn result_for(
    m: Map<u64, SearchItem>,
    q: Seq<char>,
    id: u64,
    r: SearchResult,
) -> bool {
    &&& is_survivor(m, q, id)
    &&& r.name@ == m[id].name@
    &&& r.calories == m[id].calories
    &&& r.positions@ == fuzzy_positions(m[id].name@, q)
}

/// The survivor bearing this name. Two survivors never share a name, so the
/// name pins the id.
pub open spec fn survivor_of(m: Map<u64, SearchItem>, q: Seq<char>, name: Seq<char>) -> u64 {
    choose|id: u64| is_survivor(m, q, id) && m[id].name@ == name
}

/// Some returned result bears the survivor's name.
pub open spec fn represented(
    m: Map<u64, SearchItem>,
    q: Seq<char>,
    id: u64,
    rs: Seq<SearchResult>,
) -> bool {
    exists|k: int| 0 <= k < rs.len() && rs[k].name@ == m[id].name@
}

/// What `search` returns for a cache content `m` and a query `q`: at most
/// five results; each reports a distinct survivor; they stand in rank order;
/// fewer than five are returned only when every survivor is among them; and
/// every survivor left out ranks below every survivor returned. Together
/// these pin the result list exactly.
pub open spec fn search_post(
    m: Map<u64, SearchItem>,
    q: Seq<char>,
    rs: Seq<SearchResult>,
) -> bool {
    &&& rs.len() <= 5
    &&& forall|k: int|
        0 <= k < rs.len() ==> result_for(m, q, survivor_of(m, q, #[trigger] rs[k].name@), rs[k])
    &&& forall|k: int, l: int| 0 <= k < l < rs.len() ==> rs[k].name@ != rs[l].name@
    &&& forall|k: int, l: int|
        0 <= k < l < rs.len() ==> ranks_before(
            m,
            q,
            survivor_of(m, q, rs[k].name@),
            survivor_of(m, q, rs[l].name@),
        )
    &&& (rs.len() < 5 ==> forall|id: u64| #[trigger]
        is_survivor(m, q, id) ==> represented(m, q, id, rs))
    &&& forall|id: u64, k: int|
        #[trigger] is_survivor(m, q, id) && !represented(m, q, id, rs) && 0 <= k < rs.len()
            ==> ranks_before(m, q, survivor_of(m, q, #[trigger] rs[k].name@), id)
}

/// Law: two survivors of the same scan never bear the same name — of every
/// set of items sharing one name, only the newest survives, so the names in
/// a result list identify their items.
pub proof fn lemma_survivor_name_unique(m: Map<u64, SearchItem>, q: Seq<char>, a: u64, b: u64)
    requires
        is_survivor(m, q, a),
        is_survivor(m, q, b),
        m[a].name@ == m[b].name@,
    ensures
        a == b,
{
    if a < b {
        assert(m.dom().contains(b));
        assert(m[b].name@ != m[a].name@);
    } else if b < a {
        assert(m.dom().contains(a));
        assert(m[a].name@ != m[b].name@);
    }
}

/// The survivor a result stands for: the one bearing the result's name.
pub open spec fn survivor_behind(
    m: Map<u64, SearchItem>,
    q: Seq<char>,
    r: SearchResult,
) -> u64 {
    survivor_of(m, q, r.name@)
}

proof fn lemma_results_agree_at(
    m: Map<u64, SearchItem>,
    q: Seq<char>,
    rs1: Seq<SearchResult>,
    rs2: Seq<SearchResult>,
    k: int,
)
    requires
        search_post(m, q, rs1),
        search_post(m, q, rs2),
        0 <= k < rs1.len(),
        k < rs2.len(),
        forall|j: int| 0 <= j < k ==> rs1[j].name@ == rs2[j].name@,
    ensures
        rs1[k].name@ == rs2[k].name@,
{
    let id1 = survivor_behind(m, q, rs1[k]);
    let id2 = survivor_behind(m, q, rs2[k]);
    assert(result_for(m, q, id1, rs1[k]));
    assert(result_for(m, q, id2, rs2[k]));
    if id1 != id2 {
        // Each list ranks its entry at `k` before the other's survivor,
        // which the strictness of the rank order forbids.
        if represented(m, q, id2, rs1) {
            let l = choose|l: int| 0 <= l < rs1.len() && rs1[l].name@ == m[id2].name@;
            let idl = survivor_behind(m, q, rs1[l]);
            assert(result_for(m, q, idl, rs1[l]));
            lemma_survivor_name_unique(m, q, idl, id2);
            if l == k {
                assert(false);
            } else if l < k {
                assert(rs2[l].name@ == m[id2].name@);
                assert(rs2[l].name@ == rs2[k].name@);
                assert(false);
            } else {
                assert(ranks_before(m, q, id1, id2));
            }
        } else {
            assert(ranks_before(m, q, id1, id2));
        }
        if represented(m, q, id1, rs2) {
            let l = choose|l: int| 0 <= l < rs2.len() && rs2[l].name@ == m[id1].name@;
            let idl = survivor_behind(m, q, rs2[l]);
            assert(result_for(m, q, idl, rs2[l]));
            lemma_survivor_name_unique(m, q, idl, id1);
            if l == k {
                assert(false);
            } else if l < k {
                assert(rs1[l].name@ == m[id1].name@);
                assert(rs1[l].name@ == rs1[k].name@);
                assert(false);
            } else {
                assert(ranks_before(m, q, id2, id1));
            }
        } else {
            assert(ranks_before(m, q, id2, id1));
        }
        assert(false);
    }
}

proof fn lemma_results_agree_below(
    m: Map<u64, SearchItem>,
    q: Seq<char>,
    rs1: Seq<SearchResult>,
    rs2: Seq<SearchResult>,
    k: int,
)
    requires
        search_post(m, q, rs1),
        search_post(m, q, rs2),
        0 <= k <= rs1.len(),
        k <= rs2.len(),
    ensures
        forall|j: int| 0 <= j < k ==> rs1[j].name@ == rs2[j].name@,
    decreases k,
{
    if k > 0 {
        lemma_results_agree_below(m, q, rs1, rs2, k - 1);
        lemma_results_agree_at(m, q, rs1, rs2, k - 1);
    }
}

/// Law: the search contract pins the result list. Any two lists that satisfy
/// `search_post` for the same cache content and query agree entry for entry:
/// same length, and at each position the same name, the same calories and
/// the same matched positions.
pub proof fn lemma_search_post_unique(
    m: Map<u64, SearchItem>,
    q: Seq<char>,
    rs1: Seq<SearchResult>,
    rs2: Seq<SearchResult>,
)
    requires
        search_post(m, q, rs1),
        search_post(m, q, rs2),
    ensures
        rs1.len() == rs2.len(),
        forall|k: int|
            0 <= k < rs1.len() ==> rs1[k].name@ == rs2[k].name@ && rs1[k].calories
                == rs2[k].calories && rs1[k].positions@ == rs2[k].positions@,
{
    if rs1.len() < rs2.len() {
        lemma_results_agree_below(m, q, rs1, rs2, rs1.len() as int);
        let extra = rs2[rs1.len() as int];
        let id = survivor_behind(m, q, extra);
        assert(result_for(m, q, id, extra));
        assert(represented(m, q, id, rs1));
        let l = choose|l: int| 0 <= l < rs1.len() && rs1[l].name@ == m[id].name@;
        assert(rs2[l].name@ == rs2[rs1.len() as int].name@);
        assert(false);
    } else if rs2.len() < rs1.len() {
        lemma_results_agree_below(m, q, rs2, rs1, rs2.len() as int);
        let extra = rs1[rs2.len() as int];
        let id = survivor_behind(m, q, extra);
        assert(result_for(m, q, id, extra));
        assert(represented(m, q, id, rs2));
        let l = choose|l: int| 0 <= l < rs2.len() && rs2[l].name@ == m[id].name@;
        assert(rs1[l].name@ == rs1[rs2.len() as int].name@);
        assert(false);
    }
    lemma_results_agree_below(m, q, rs1, rs2, rs1.len() as int);
    assert forall|k: int| 0 <= k < rs1.len() implies rs1[k].name@ == rs2[k].name@ && rs1[k].calories
        == rs2[k].calories && rs1[k].positions@ == rs2[k].positions@ by {
        let id1 = survivor_behind(m, q, rs1[k]);
        let id2 = survivor_behind(m, q, rs2[k]);
        assert(result_for(m, q, id1, rs1[k]));
        assert(result_for(m, q, id2, rs2[k]));
        lemma_survivor_name_unique(m, q, id1, id2);
    }
}

/// The entry at index `i` survives the scan, said over the entry list: the
/// index form of `is_survivor`.
spec fn live_at(s: Seq<(u64, SearchItem)>, q: Seq<char>, i: int) -> bool {
    &&& s[i].1.name@.len() > 0
    &&& fuzzy_matches(s[i].1.name@, q)
    &&& forall|j: int| i < j < s.len() ==> s[j].1.name@ != s[i].1.name@
}

proof fn lemma_live_survivor(s: Seq<(u64, SearchItem)>, q: Seq<char>, i: int)
    requires
        sorted_ids(s),
        0 <= i < s.len(),
    ensures
        live_at(s, q, i) <==> is_survivor(map_of(s), q, s[i].0),
{
    let m = map_of(s);
    let id = s[i].0;
    lemma_item_at(s, i);
    if live_at(s, q, i) {
        assert forall|id2: u64| #[trigger] m.dom().contains(id2) && id2 > id implies m[id2].name@
            != m[id].name@ by {
            let k = choose|k: int| 0 <= k < s.len() && s[k].0 == id2;
            lemma_item_at(s, k);
            if k < i {
                assert(s[k].0 < s[i].0);
            } else if k == i {
            } else {
                assert(s[k].1.name@ != s[i].1.name@);
            }
        }
    }
    if is_survivor(m, q, id) {
        assert forall|j: int| i < j < s.len() implies s[j].1.name@ != s[i].1.name@ by {
            lemma_item_at(s, j);
            assert(s[j].0 > s[i].0);
            assert(m.dom().contains(s[j].0));
        }
    }
}

/// One collected match, before ranking: the surviving entry's fields and its
/// fuzzy score and positions.
struct Cand {
    score: i64,
    id: u64,
    positions: Vec<usize>,
    name: String,
    calories: i64,
}

/// The candidate reports a surviving entry faithfully.
spec fn cand_ok(s: Seq<(u64, SearchItem)>, q: Seq<char>, c: Cand) -> bool {
    exists|j: int|
        {
            &&& 0 <= j < s.len()
            &&& #[trigger] s[j].0 == c.id
            &&& live_at(s, q, j)
            &&& c.name@ == s[j].1.name@
            &&& c.calories == s[j].1.calories
            &&& c.score == fuzzy_score(s[j].1.name@, q)
            &&& c.positions@ == fuzzy_positions(s[j].1.name@, q)
        }
}

/// Some candidate carries this id.
spec fn in_cands(cs: Seq<Cand>, id: u64) -> bool {
    exists|k: int| 0 <= k < cs.len() && cs[k].id == id
}

/// Candidate `a` ranks at or before candidate `b`.
spec fn cand_le(a: Cand, b: Cand) -> bool {
    a.score > b.score || (a.score == b.score && a.id >= b.id)
}

/// The candidates stand in rank order.
spec fn ranked(cs: Seq<Cand>) -> bool {
    forall|k: int, l: int| 0 <= k < l < cs.len() ==> cand_le(cs[k], cs[l])
}

/// A later entry bears the identical name: the entry at `i` is an older
/// duplicate and is suppressed.
fn has_later_dup(entries: &Vec<(u64, SearchItem)>, i: usize) -> (r: bool)
    requires
        i < entries@.len(),
    ensures
        r == exists|j: int| i < j < entries@.len() && entries@[j].1.name@ == entries@[i as int].1.name@,
{
    let n: usize = entries.len();
    let mut j: usize = i + 1;
    while j < n
        invariant
            n == entries@.len(),
            i < j <= entries@.len(),
            forall|j2: int| i < j2 < j ==> entries@[j2].1.name@ != entries@[i as int].1.name@,
        decreases entries@.len() - j,
    {
        if entries[j].1.name == entries[i].1.name {
            return true;
        }
        j += 1;
    }
    false
}

/// Copies a position list.
fn copy_positions(v: &Vec<usize>) -> (r: Vec<usize>)
    ensures
        r@ == v@,
{
    let mut r: Vec<usize> = Vec::new();
    let mut i: usize = 0;
    while i < v.len()
        invariant
            0 <= i <= v@.len(),
            r@ =~= v@.take(i as int),
        decreases v@.len() - i,
    {
        r.push(v[i]);
        proof {
            assert(r@ =~= v@.take(i as int + 1));
        }
        i += 1;
    }
    proof {
        assert(v@.take(v@.len() as int) =~= v@);
    }
    r
}

/// Finds the position at which `d` keeps `out` in rank order: the first
/// candidate that does not rank at or before `d`.
fn rank_pos(out: &Vec<Cand>, d: &Cand) -> (p: usize)
    ensures
        p <= out@.len(),
        forall|k: int| 0 <= k < p ==> cand_le(out@[k], *d),
        p < out@.len() ==> !cand_le(out@[p as int], *d),
{
    let mut p: usize = 0;
    while p < out.len()
        invariant
            0 <= p <= out@.len(),
            forall|k: int| 0 <= k < p ==> cand_le(out@[k], *d),
        decreases out@.len() - p,
    {
        if !(out[p].score > d.score || (out[p].score == d.score && out[p].id >= d.id)) {
            return p;
        }
        p += 1;
    }
    p
}

proof fn lemma_sorted_cands(cands: Seq<Cand>, sorted: Seq<Cand>)
    requires
        forall|k: int, l: int| 0 <= k < l < cands.len() ==> cands[k].id < cands[l].id,
        sorted.to_multiset() == cands.to_multiset(),
    ensures
        forall|k: int| 0 <= k < sorted.len() ==> cands.contains(#[trigger] sorted[k]),
        forall|j: int| 0 <= j < cands.len() ==> sorted.contains(#[trigger] cands[j]),
        forall|k: int, l: int| 0 <= k < l < sorted.len() ==> sorted[k].id != sorted[l].id,
{
    broadcast use vstd::seq_lib::group_to_multiset_ensures;
    broadcast use vstd::multiset::group_multiset_axioms;

    assert forall|k: int| 0 <= k < sorted.len() implies cands.contains(#[trigger] sorted[k]) by {
        assert(sorted.contains(sorted[k]));
        assert(sorted.to_multiset().count(sorted[k]) > 0);
    }
    assert forall|j: int| 0 <= j < cands.len() implies sorted.contains(#[trigger] cands[j]) by {
        assert(cands.contains(cands[j]));
        assert(cands.to_multiset().count(cands[j]) > 0);
    }
    assert(cands.no_duplicates()) by {
        assert forall|i: int, j: int|
            0 <= i < cands.len() && 0 <= j < cands.len() && i != j implies cands[i]
            != cands[j] by {
            if i < j {
                assert(cands[i].id < cands[j].id);
            } else {
                assert(cands[j].id < cands[i].id);
            }
        }
    }
    cands.lemma_multiset_has_no_duplicates();
    sorted.lemma_multiset_has_no_duplicates_conv();
    assert forall|k: int, l: int| 0 <= k < l < sorted.len() implies sorted[k].id
        != sorted[l].id by {
        if sorted[k].id == sorted[l].id {
            let a = choose|a: int| 0 <= a < cands.len() && cands[a] == sorted[k];
            let b = choose|b: int| 0 <= b < cands.len() && cands[b] == sorted[l];
            if a == b {
                assert(sorted[k] == sorted[l]);
            } else if a < b {
                assert(cands[a].id < cands[b].id);
            } else {
                assert(cands[b].id < cands[a].id);
            }
        }
    }
}

/// A candidate that reports a surviving entry, packaged as a result, reports
/// the survivor that bears its name.
proof fn lemma_result_ok(s: Seq<(u64, SearchItem)>, q: Seq<char>, c: Cand, r: SearchResult)
    requires
        sorted_ids(s),
        cand_ok(s, q, c),
        r.name@ == c.name@,
        r.calories == c.calories,
        r.positions@ == c.positions@,
    ensures
        is_survivor(map_of(s), q, c.id),
        map_of(s)[c.id].name@ == c.name@,
        fuzzy_score(map_of(s)[c.id].name@, q) == c.score,
        result_for(map_of(s), q, c.id, r),
        survivor_of(map_of(s), q, r.name@) == c.id,
{
    let m = map_of(s);
    let j = choose|j: int|
        {
            &&& 0 <= j < s.len()
            &&& #[trigger] s[j].0 == c.id
            &&& live_at(s, q, j)
            &&& c.name@ == s[j].1.name@
            &&& c.calories == s[j].1.calories
            &&& c.score == fuzzy_score(s[j].1.name@, q)
            &&& c.positions@ == fuzzy_positions(s[j].1.name@, q)
        };
    lemma_item_at(s, j);
    lemma_live_survivor(s, q, j);
    assert(is_survivor(m, q, c.id));
    assert(m[c.id] == s[j].1);
    assert(exists|id: u64| is_survivor(m, q, id) && m[id].name@ == r.name@) by {
        assert(is_survivor(m, q, c.id) && m[c.id].name@ == r.name@);
    }
    let idc = survivor_of(m, q, r.name@);
    assert(is_survivor(m, q, idc) && m[idc].name@ == r.name@);
    lemma_survivor_name_unique(m, q, idc, c.id);
}

/// Sorts the candidates into rank order: score descending, ties toward the
/// greater id.
fn sort_cands(cands: Vec<Cand>) -> (r: Vec<Cand>)
    ensures
        ranked(r@),
        r@.to_multiset() == cands@.to_multiset(),
{
    broadcast use vstd::seq_lib::group_to_multiset_ensures;

    let mut rest = cands;
    let mut out: Vec<Cand> = Vec::new();
    let ghost all = rest@;
    while rest.len() > 0
        invariant
            ranked(out@),
            out@.to_multiset().add(rest@.to_multiset()) =~= all.to_multiset(),
        decreases rest@.len(),
    {
        let ghost rest0 = rest@;
        let ghost out0 = out@;
        let d = rest.remove(0);
        let p = rank_pos(&out, &d);
        out.insert(p, d);
        proof {
            broadcast use vstd::multiset::group_multiset_axioms;

            vstd::seq_lib::to_multiset_insert(out0, p as int, d);
            vstd::seq_lib::to_multiset_remove(rest0, 0);
            assert(rest0.contains(d)) by {
                assert(rest0[0] == d);
            }
            vstd::seq_lib::to_multiset_contains(rest0, d);
            assert(out@.to_multiset().add(rest@.to_multiset()) =~= all.to_multiset());
            assert(forall|k: int| 0 <= k < p ==> out@[k] == out0[k]);
            assert(forall|k: int| p < k < out@.len() ==> out@[k] == out0[k - 1]);
            assert(out@[p as int] == d);
            assert forall|k: int, l: int| 0 <= k < l < out@.len() implies cand_le(
                out@[k],
                out@[l],
            ) by {
                if k == p && l > p {
                    assert(!cand_le(out0[p as int], d));
                    assert(cand_le(d, out0[p as int]));
                    if l > p + 1 {
                        assert(cand_le(out0[p as int], out0[l - 1]));
                    }
                }
            }
        }
    }
    out
}

} // verus!
