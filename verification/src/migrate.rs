//! The schema migration engine.
//!
//! The engine consumes a set of migration definitions and brings the store's
//! schema forward exactly once: it reads the ledger of already-applied
//! identities, checks that the ledger is an exact prefix of the sorted
//! definition list, and applies the remaining definitions inside one
//! transaction, appending a ledger row for each. Any deviation of the ledger
//! from the definition list is schema drift and aborts before anything is
//! applied.

use vstd::prelude::*;

use crate::store::{exec_batch, exec_with_text_param, query_text_column};
use r2d2_sqlite::rusqlite::Connection;

verus! {

/// One schema-change unit: a stable identity and the statement batch that
/// performs the change.
pub struct MigrationDef {
    pub identity: String,
    pub batch: String,
}

/// Why a migration run failed. Every variant is fatal to startup.
#[derive(Debug)]
pub enum MigrateError {
    /// The ledger could not be read for a reason other than a fresh install.
    StoreRead(String),
    /// The ledger is not an identity-prefix of the definition list: a
    /// definition was deleted, renamed or reordered.
    SchemaDrift,
    /// A statement batch failed; the transaction was rolled back.
    Batch(String),
    /// Appending the ledger row failed; the transaction was rolled back.
    Ledger(String),
    /// Opening, committing or preparing the transaction itself failed.
    Tx(String),
}

/// Lexicographic order on character sequences: `a` is at or before `b`.
pub open spec fn lex_le(a: Seq<char>, b: Seq<char>) -> bool
    decreases a.len(),
{
    if a.len() == 0 {
        true
    } else if b.len() == 0 {
        false
    } else if (a[0] as u32) == (b[0] as u32) {
        lex_le(a.skip(1), b.skip(1))
    } else {
        (a[0] as u32) < (b[0] as u32)
    }
}

/// Any two strings are comparable in the lexicographic order.
pub proof fn lemma_lex_le_total(a: Seq<char>, b: Seq<char>)
    ensures
        lex_le(a, b) || lex_le(b, a),
    decreases a.len(),
{
    if a.len() != 0 && b.len() != 0 && (a[0] as u32) == (b[0] as u32) {
        lemma_lex_le_total(a.skip(1), b.skip(1));
    }
}

/// The lexicographic order is transitive.
pub proof fn lemma_lex_le_trans(a: Seq<char>, b: Seq<char>, c: Seq<char>)
    requires
        lex_le(a, b),
        lex_le(b, c),
    ensures
        lex_le(a, c),
    decreases a.len(),
{
    if a.len() != 0 && b.len() != 0 && c.len() != 0 && (a[0] as u32) == (b[0] as u32) && (
    b[0] as u32) == (c[0] as u32) {
        lemma_lex_le_trans(a.skip(1), b.skip(1), c.skip(1));
    }
}

/// The lexicographic order is reflexive.
pub proof fn lemma_lex_le_refl(a: Seq<char>)
    ensures
        lex_le(a, a),
{
    lemma_lex_le_total(a, a);
}

proof fn lemma_char_u32_injective(c1: char, c2: char)
    requires
        c1 as u32 == c2 as u32,
    ensures
        c1 == c2,
{
}

/// The lexicographic order is antisymmetric: strings at or before each
/// other are equal.
pub proof fn lemma_lex_le_antisym(a: Seq<char>, b: Seq<char>)
    requires
        lex_le(a, b),
        lex_le(b, a),
    ensures
        a == b,
    decreases a.len(),
{
    if a.len() == 0 {
        assert(b.len() == 0);
        assert(a =~= b);
    } else {
        assert(b.len() != 0);
        assert((a[0] as u32) == (b[0] as u32));
        lemma_char_u32_injective(a[0], b[0]);
        lemma_lex_le_antisym(a.skip(1), b.skip(1));
        assert forall|i: int| 0 <= i < a.len() implies a[i] == b[i] by {
            if i > 0 {
                assert(a.skip(1)[i - 1] == b.skip(1)[i - 1]);
            }
        }
        assert(a =~= b);
    }
}

/// Compares two strings in lexicographic character order.
fn str_lex_le(a: &str, b: &str) -> (r: bool)
    ensures
        r == lex_le(a@, b@),
{
    let alen = a.unicode_len();
    let blen = b.unicode_len();
    proof {
        assert(a@.skip(0) =~= a@);
        assert(b@.skip(0) =~= b@);
    }
    let mut i: usize = 0;
    while i < alen && i < blen
        invariant
            0 <= i <= alen,
            i <= blen,
            alen == a@.len(),
            blen == b@.len(),
            lex_le(a@, b@) == lex_le(a@.skip(i as int), b@.skip(i as int)),
        decreases alen - i,
    {
        let ca = a.get_char(i);
        let cb = b.get_char(i);
        proof {
            assert(a@.skip(i as int)[0] == a@[i as int]);
            assert(b@.skip(i as int)[0] == b@[i as int]);
        }
        if ca as u32 != cb as u32 {
            return (ca as u32) < (cb as u32);
        }
        proof {
            assert(a@.skip(i as int).skip(1) =~= a@.skip(i as int + 1));
            assert(b@.skip(i as int).skip(1) =~= b@.skip(i as int + 1));
        }
        i += 1;
    }
    proof {
        if i == alen {
            assert(a@.skip(i as int).len() == 0);
        } else {
            assert(b@.skip(i as int).len() == 0);
            assert(a@.skip(i as int).len() > 0);
        }
    }
    alen <= blen
}

/// The definitions stand in ascending identity order.
pub open spec fn sorted_by_identity(s: Seq<MigrationDef>) -> bool {
    forall|k: int, l: int| 0 <= k < l < s.len() ==> lex_le(s[k].identity@, s[l].identity@)
}

/// Finds the position at which `d` keeps `out` sorted: the first entry of
/// `out` that does not sort at or before `d`.
fn insert_pos(out: &Vec<MigrationDef>, d: &MigrationDef) -> (p: usize)
    ensures
        p <= out@.len(),
        forall|j: int| 0 <= j < p ==> lex_le(out@[j].identity@, d.identity@),
        p < out@.len() ==> !lex_le(out@[p as int].identity@, d.identity@),
{
    let mut p: usize = 0;
    while p < out.len()
        invariant
            0 <= p <= out@.len(),
            forall|j: int| 0 <= j < p ==> lex_le(out@[j].identity@, d.identity@),
        decreases out@.len() - p,
    {
        if !str_lex_le(out[p].identity.as_str(), d.identity.as_str()) {
            return p;
        }
        p += 1;
    }
    p
}

/// Sorts the definitions by identity, ascending, lexicographically.
pub fn sort_defs(defs: Vec<MigrationDef>) -> (r: Vec<MigrationDef>)
    ensures
        sorted_by_identity(r@),
        r@.to_multiset() == defs@.to_multiset(),
{
    broadcast use vstd::seq_lib::group_to_multiset_ensures;

    let mut rest = defs;
    let mut out: Vec<MigrationDef> = Vec::new();
    while rest.len() > 0
        invariant
            sorted_by_identity(out@),
            out@.to_multiset().add(rest@.to_multiset()) =~= defs@.to_multiset(),
        decreases rest@.len(),
    {
        let ghost rest0 = rest@;
        let ghost out0 = out@;
        let d = rest.remove(0);
        let pos = insert_pos(&out, &d);
        proof {
            if pos < out0.len() {
                lemma_lex_le_total(out0[pos as int].identity@, d.identity@);
            }
        }
        out.insert(pos, d);
        proof {
            broadcast use vstd::multiset::group_multiset_axioms;

            vstd::seq_lib::to_multiset_insert(out0, pos as int, d);
            vstd::seq_lib::to_multiset_remove(rest0, 0);
            assert(rest0.contains(d)) by {
                assert(rest0[0] == d);
            }
            vstd::seq_lib::to_multiset_contains(rest0, d);
            assert(out@.to_multiset().add(rest@.to_multiset()) =~= defs@.to_multiset());
            assert forall|k: int, l: int| 0 <= k < l < out@.len() implies lex_le(
                out@[k].identity@,
                out@[l].identity@,
            ) by {
                if k < pos && l == pos {
                } else if k == pos && l > pos + 1 {
                    lemma_lex_le_trans(
                        d.identity@,
                        out0[pos as int].identity@,
                        out0[l - 1].identity@,
                    );
                }
            }
        }
    }
    out
}

/// The identities of a definition list, in list order.
pub open spec fn idents(defs: Seq<MigrationDef>) -> Seq<Seq<char>> {
    Seq::new(defs.len(), |i: int| defs[i].identity@)
}

/// The ledger's identities, in ledger order.
pub open spec fn names_of(ledger: Seq<String>) -> Seq<Seq<char>> {
    Seq::new(ledger.len(), |i: int| ledger[i]@)
}

/// The ledger is an exact identity-prefix of the definition list: no longer
/// than it, and equal to it position for position as far as it reaches.
pub open spec fn is_applied_prefix(ledger: Seq<Seq<char>>, ids: Seq<Seq<char>>) -> bool {
    &&& ledger.len() <= ids.len()
    &&& forall|i: int| 0 <= i < ledger.len() ==> ledger[i] == ids[i]
}

/// Validates the ledger against the sorted definitions and decides where the
/// run resumes. Succeeds, with the index of the first unapplied definition,
/// exactly when the ledger is an identity-prefix of the definitions; any
/// deviation is schema drift.
pub fn plan(sorted: &Vec<MigrationDef>, ledger: &Vec<String>) -> (r: Result<usize, MigrateError>)
    ensures
        r is Ok <==> is_applied_prefix(names_of(ledger@), idents(sorted@)),
        r matches Ok(n) ==> n == ledger@.len(),
        r matches Err(e) ==> e is SchemaDrift,
{
    if ledger.len() > sorted.len() {
        return Err(MigrateError::SchemaDrift);
    }
    let mut i: usize = 0;
    while i < ledger.len()
        invariant
            0 <= i <= ledger@.len() <= sorted@.len(),
            forall|j: int| 0 <= j < i ==> names_of(ledger@)[j] == idents(sorted@)[j],
        decreases ledger@.len() - i,
    {
        if !(ledger[i] == sorted[i].identity) {
            proof {
                assert(names_of(ledger@)[i as int] != idents(sorted@)[i as int]);
            }
            return Err(MigrateError::SchemaDrift);
        }
        i += 1;
    }
    Ok(ledger.len())
}

/// Brings the store's schema forward: reads the ledger (an absent ledger
/// table is a fresh install, not an error), sorts the definitions by
/// identity, validates the prefix invariant, and applies every remaining
/// definition inside one transaction, appending a ledger row for each. On
/// any failure after the transaction opened, the transaction is rolled back,
/// so no partial history and no partial schema change persists.
///
/// What the run returns depends on the store's answers, which nothing here
/// constrains; the decision logic itself stands in `plan`, with its exact
/// contract.
pub fn migrate(conn: &Connection, defs: Vec<MigrationDef>) -> (r: Result<(), MigrateError>) {
    let ledger_rows = match query_text_column(
        conn,
        "SELECT migration FROM sqlx_pg_migrate ORDER BY id;",
    ) {
        Ok(v) => v,
        Err(e) => return Err(MigrateError::StoreRead(e)),
    };
    let ledger: Vec<String> = match ledger_rows {
        Some(v) => v,
        None => Vec::new(),
    };
    let fresh = ledger.len() == 0;
    let sorted = sort_defs(defs);
    match exec_batch(conn, "BEGIN;") {
        Ok(_) => (),
        Err(e) => return Err(MigrateError::Tx(e)),
    }
    if fresh {
        let created = exec_batch(
            conn,
            "CREATE TABLE IF NOT EXISTS sqlx_pg_migrate (\
             id INTEGER PRIMARY KEY, \
             migration TEXT UNIQUE, \
             created TIMESTAMP NOT NULL DEFAULT current_timestamp);",
        );
        match created {
            Ok(_) => (),
            Err(e) => {
                let _ = exec_batch(conn, "ROLLBACK;");
                return Err(MigrateError::Tx(e));
            },
        }
    }
    let start = match plan(&sorted, &ledger) {
        Ok(n) => n,
        Err(e) => {
            let _ = exec_batch(conn, "ROLLBACK;");
            return Err(e);
        },
    };
    let mut i = start;
    while i < sorted.len()
        decreases sorted@.len() - i,
    {
        match exec_batch(conn, sorted[i].batch.as_str()) {
            Ok(_) => (),
            Err(e) => {
                let _ = exec_batch(conn, "ROLLBACK;");
                return Err(MigrateError::Batch(e));
            },
        }
        let recorded = exec_with_text_param(
            conn,
            "INSERT INTO sqlx_pg_migrate (migration) VALUES (?1)",
            sorted[i].identity.as_str(),
        );
        match recorded {
            Ok(_) => (),
            Err(e) => {
                let _ = exec_batch(conn, "ROLLBACK;");
                return Err(MigrateError::Ledger(e));
            },
        }
        i += 1;
    }
    match exec_batch(conn, "COMMIT;") {
        Ok(_) => Ok(()),
        Err(e) => Err(MigrateError::Tx(e)),
    }
}

/// Law: re-running the engine with an unchanged definition set applies
/// nothing. When the ledger already lists every identity of the sorted
/// definitions, the prefix check passes and the first unapplied position is
/// the end of the list, so the application loop has nothing to run.
pub proof fn lemma_rerun_applies_nothing(sorted: Seq<MigrationDef>, ledger: Seq<Seq<char>>)
    requires
        ledger == idents(sorted),
    ensures
        is_applied_prefix(ledger, idents(sorted)),
        ledger.len() == sorted.len(),
        sorted.skip(ledger.len() as int) =~= Seq::<MigrationDef>::empty(),
{
}

/// Law: the sorted identity sequence is determined by the definition set
/// alone. Any two identity-sorted arrangements of the same definitions list
/// the same identities in the same order — so every run over an unchanged
/// set reproduces the identity sequence the ledger was written from, and
/// the prefix check of a re-run passes with nothing left to apply.
pub proof fn lemma_sorted_idents_unique(s1: Seq<MigrationDef>, s2: Seq<MigrationDef>)
    requires
        sorted_by_identity(s1),
        sorted_by_identity(s2),
        s1.to_multiset() == s2.to_multiset(),
    ensures
        idents(s1) == idents(s2),
    decreases s1.len(),
{
    broadcast use vstd::seq_lib::group_to_multiset_ensures;
    broadcast use vstd::multiset::group_multiset_axioms;

    assert(s1.len() == s1.to_multiset().len());
    assert(s2.len() == s2.to_multiset().len());
    if s1.len() == 0 {
        assert(idents(s1) =~= idents(s2));
    } else {
        // The head of each list is a minimal identity of the shared
        // multiset, so the two heads bear the same identity.
        assert(s1.contains(s1[0])) by {
            assert(s1[0] == s1[0]);
        }
        assert(s1.to_multiset().count(s1[0]) > 0);
        assert(s2.contains(s1[0]));
        let j = choose|j: int| 0 <= j < s2.len() && s2[j] == s1[0];
        assert(s2.contains(s2[0])) by {
            assert(s2[0] == s2[0]);
        }
        assert(s2.to_multiset().count(s2[0]) > 0);
        assert(s1.contains(s2[0]));
        let i = choose|i: int| 0 <= i < s1.len() && s1[i] == s2[0];
        assert(lex_le(s1[0].identity@, s2[0].identity@)) by {
            if i > 0 {
                assert(lex_le(s1[0].identity@, s1[i].identity@));
            } else {
                lemma_lex_le_refl(s1[0].identity@);
            }
        }
        assert(lex_le(s2[0].identity@, s1[0].identity@)) by {
            if j > 0 {
                assert(lex_le(s2[0].identity@, s2[j].identity@));
            } else {
                lemma_lex_le_refl(s2[0].identity@);
            }
        }
        lemma_lex_le_antisym(s1[0].identity@, s2[0].identity@);
        // Everything up to the head's twin in the other list is sandwiched
        // between equal identities, so it bears that identity too.
        assert forall|k: int| 0 <= k <= j implies (#[trigger] s2[k]).identity@
            == s2[0].identity@ by {
            if 0 < k {
                assert(lex_le(s2[0].identity@, s2[k].identity@));
                if k < j {
                    assert(lex_le(s2[k].identity@, s2[j].identity@));
                } else {
                    lemma_lex_le_refl(s2[k].identity@);
                }
                lemma_lex_le_antisym(s2[0].identity@, s2[k].identity@);
            }
        }
        // Remove the twin heads and recurse on the rest.
        let t1 = s1.remove(0);
        let t2 = s2.remove(j);
        assert(forall|k: int| 0 <= k < t1.len() ==> t1[k] == s1[k + 1]);
        assert(forall|k: int| 0 <= k < j ==> t2[k] == s2[k]);
        assert(forall|k: int| j <= k < t2.len() ==> t2[k] == s2[k + 1]);
        assert(sorted_by_identity(t1));
        assert(sorted_by_identity(t2));
        assert(t1.to_multiset() == t2.to_multiset()) by {
            assert(t1.to_multiset() =~= s1.to_multiset().remove(s1[0]));
            assert(t2.to_multiset() =~= s2.to_multiset().remove(s2[j]));
        }
        lemma_sorted_idents_unique(t1, t2);
        assert forall|k: int| 0 <= k < s1.len() implies idents(s1)[k] == idents(s2)[k] by {
            if k > 0 {
                assert(idents(t1)[k - 1] == idents(t2)[k - 1]);
                assert(idents(t1)[k - 1] == s1[k].identity@);
                if k - 1 < j {
                    assert(idents(t2)[k - 1] == s2[k - 1].identity@);
                    assert(s2[k - 1].identity@ == s2[0].identity@);
                    assert(s2[k].identity@ == s2[0].identity@);
                } else {
                    assert(idents(t2)[k - 1] == s2[k].identity@);
                }
            }
        }
        assert(idents(s1) =~= idents(s2));
    }
}

} // verus!
