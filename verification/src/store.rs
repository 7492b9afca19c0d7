//! The record store: one table of [`NameRecord`] rows keyed by `id`.
//!
//! A [`Database`] value models the persistent store exactly: whether the
//! table has been created, and the rows in their insertion order.  The
//! four operations — create, read-all, update-by-id, delete-by-id — carry
//! contracts that pin their outcome for every input, and the bulk
//! [`Database::load`] mirrors the transform step of the pipeline.  The
//! surrounding binary replays the same statements against its SQLite
//! file; this type is the specification it is held to, and the tests run
//! their scenarios against it.

use vstd::prelude::*;
use vstd::pervasive::VecAdditionalExecFns;

use crate::record::{NameRecord, RecModel};

verus! {

/// What a write operation can report.
#[derive(Debug, Clone, PartialEq)]
pub enum StoreError {
    /// The table has not been created in this store.
    NoTable,
    /// An insert found the key already present; the store is unchanged.
    Constraint { id: i32 },
}

/// What the bulk load can report.
#[derive(Debug, Clone, PartialEq)]
pub enum LoadError {
    /// The record separation of the source text failed; the message is
    /// the splitter's own.
    Csv { message: String },
    /// A record did not have exactly six fields.
    Structure { row: usize, fields: usize },
    /// A field of a record was not accepted by its column's grammar.
    Field { row: usize, field: usize },
    /// An inserted row's key was already present; earlier rows stay.
    Constraint { row: usize, id: i32 },
}

/// The mathematical value of a store.
pub ghost struct StoreModel {
    pub table_created: bool,
    pub rows: Seq<RecModel>,
}

/// Some row of `rows` carries the key `id`.
pub open spec fn has_id(rows: Seq<RecModel>, id: int) -> bool {
    exists|i: int| 0 <= i < rows.len() && rows[i].id == id
}

/// The index of the row carrying `id` (meaningful only under
/// [`unique_ids`], which makes it the single such index).
pub open spec fn row_index(rows: Seq<RecModel>, id: int) -> int {
    choose|i: int| 0 <= i < rows.len() && rows[i].id == id
}

/// No two rows share a key.
pub open spec fn unique_ids(rows: Seq<RecModel>) -> bool {
    forall|i: int, j: int|
        0 <= i < j < rows.len() ==> (#[trigger] rows[i]).id != (#[trigger] rows[j]).id
}

/// How many rows carry the key `id`.
pub open spec fn count_id(rows: Seq<RecModel>, id: int) -> nat
    decreases rows.len(),
{
    if rows.len() == 0 {
        0
    } else {
        count_id(rows.drop_last(), id) + if rows.last().id == id {
            1nat
        } else {
            0nat
        }
    }
}

/// The store after the schema-creation step.
pub open spec fn with_table(s: StoreModel) -> StoreModel {
    StoreModel { table_created: true, rows: s.rows }
}

/// The models of a sequence of records.
pub open spec fn models_of(recs: Seq<NameRecord>) -> Seq<RecModel> {
    Seq::new(recs.len(), |i: int| recs[i]@)
}

/// The single-table store.
pub struct Database {
    table_created: bool,
    rows: Vec<NameRecord>,
}

impl View for Database {
    type V = StoreModel;

    closed spec fn view(&self) -> StoreModel {
        StoreModel { table_created: self.table_created, rows: models_of(self.rows@) }
    }
}

impl Database {
    /// A store is well formed when its keys are unique and no row exists
    /// before the table does.
    pub open spec fn wf(&self) -> bool {
        &&& unique_ids(self@.rows)
        &&& !self@.table_created ==> self@.rows.len() == 0
    }

    /// A fresh, empty store without the table.
    pub fn new() -> (d: Database)
        ensures
            d.wf(),
            d@ == (StoreModel { table_created: false, rows: Seq::<RecModel>::empty() }),
    {
        let d = Database { table_created: false, rows: Vec::new() };
        proof {
            assert(d@.rows =~= Seq::<RecModel>::empty());
        }
        d
    }

    /// Create the table if it is absent.  Idempotent: the rows are never
    /// altered and the step never fails, whether or not the table already
    /// exists.
    pub fn ensure_schema(&mut self)
        ensures
            final(self)@ == with_table(old(self)@),
            old(self).wf() ==> final(self).wf(),
    {
        self.table_created = true;
    }

    /// The index of the row carrying `id`, if any.
    fn find(&self, id: i32) -> (r: Option<usize>)
        requires
            self.wf(),
        ensures
            r matches Some(i) ==> 0 <= i < self@.rows.len() && self@.rows[i as int].id == id
                && i as int == row_index(self@.rows, id as int),
            r is None ==> !has_id(self@.rows, id as int),
    {
        let n: usize = self.rows.len();
        let mut i: usize = 0;
        while i < n
            invariant
                self.wf(),
                n == self@.rows.len(),
                i <= n,
                forall|j: int| 0 <= j < i ==> (#[trigger] self@.rows[j]).id != id,
            decreases n - i,
        {
            if self.rows[i].id == id {
                proof {
                    assert(self@.rows[i as int].id == id);
                    let w = row_index(self@.rows, id as int);
                    assert(0 <= w < self@.rows.len() && self@.rows[w].id == id);
                    assert(w == i as int);
                }
                return Some(i);
            }
            i = i + 1;
        }
        None
    }

    /// Insert one row.  Succeeds exactly when the table exists and the
    /// key is new; a duplicate key is rejected and leaves the existing
    /// rows unchanged.
    pub fn create(&mut self, rec: NameRecord) -> (r: Result<(), StoreError>)
        requires
            old(self).wf(),
        ensures
            final(self).wf(),
            (match r {
                Ok(()) => old(self)@.table_created && !has_id(old(self)@.rows, rec@.id)
                    && final(self)@ == (StoreModel {
                    table_created: true,
                    rows: old(self)@.rows.push(rec@),
                }),
                Err(StoreError::NoTable) => !old(self)@.table_created && final(self)@ == old(
                    self,
                )@,
                Err(StoreError::Constraint { id }) => old(self)@.table_created && id == rec.id
                    && has_id(old(self)@.rows, rec@.id) && final(self)@ == old(self)@,
            }),
    {
        if !self.table_created {
            return Err(StoreError::NoTable);
        }
        match self.find(rec.id) {
            Some(_) => Err(StoreError::Constraint { id: rec.id }),
            None => {
                let ghost pre = self@.rows;
                self.rows.push(rec);
                proof {
                    assert(self@.rows =~= pre.push(rec@));
                    lemma_unique_push(pre, rec@);
                }
                Ok(())
            },
        }
    }

    /// The full-table scan, in row order.
    pub fn read(&self) -> (r: Vec<NameRecord>)
        ensures
            models_of(r@) == self@.rows,
    {
        let n: usize = self.rows.len();
        let mut out: Vec<NameRecord> = Vec::new();
        let mut i: usize = 0;
        while i < n
            invariant
                n == self.rows@.len(),
                i <= n,
                out@.len() == i,
                forall|j: int| 0 <= j < i ==> (#[trigger] out@[j])@ == self@.rows[j],
            decreases n - i,
        {
            out.push(self.rows[i].duplicate());
            i = i + 1;
        }
        proof {
            assert(models_of(out@) =~= self@.rows);
        }
        out
    }

    /// Replace the non-key fields of the row carrying `id`.  Reports how
    /// many rows were affected: one when the key was present, zero when
    /// it was not — absence is a normal outcome, not an error.
    pub fn update(
        &mut self,
        id: i32,
        name: &str,
        total: i32,
        male_share: u64,
        female_share: u64,
        gap: u64,
    ) -> (r: Result<usize, StoreError>)
        requires
            old(self).wf(),
        ensures
            final(self).wf(),
            (match r {
                Ok(n) => old(self)@.table_created && final(self)@.table_created && {
                    let m = (RecModel {
                        id: id as int,
                        name: name@,
                        total: total as int,
                        male_share,
                        female_share,
                        gap,
                    });
                    if has_id(old(self)@.rows, id as int) {
                        n == 1 && final(self)@.rows == old(self)@.rows.update(
                            row_index(old(self)@.rows, id as int),
                            m,
                        )
                    } else {
                        n == 0 && final(self)@ == old(self)@
                    }
                },
                Err(StoreError::NoTable) => !old(self)@.table_created && final(self)@ == old(
                    self,
                )@,
                Err(StoreError::Constraint { .. }) => false,
            }),
    {
        if !self.table_created {
            return Err(StoreError::NoTable);
        }
        match self.find(id) {
            None => Ok(0),
            Some(i) => {
                let ghost pre = self@.rows;
                let rec = NameRecord {
                    id,
                    name: name.to_owned(),
                    total,
                    male_share,
                    female_share,
                    gap,
                };
                self.rows.set(i, rec);
                proof {
                    assert(self@.rows =~= pre.update(i as int, rec@));
                    lemma_unique_update(pre, i as int, rec@);
                }
                Ok(1)
            },
        }
    }

    /// Remove the row carrying `id`.  Reports how many rows were
    /// affected: one when the key was present, zero when it was not.
    pub fn delete(&mut self, id: i32) -> (r: Result<usize, StoreError>)
        requires
            old(self).wf(),
        ensures
            final(self).wf(),
            (match r {
                Ok(n) => old(self)@.table_created && final(self)@.table_created && {
                    if has_id(old(self)@.rows, id as int) {
                        n == 1 && final(self)@.rows == old(self)@.rows.remove(
                            row_index(old(self)@.rows, id as int),
                        )
                    } else {
                        n == 0 && final(self)@ == old(self)@
                    }
                },
                Err(StoreError::NoTable) => !old(self)@.table_created && final(self)@ == old(
                    self,
                )@,
                Err(StoreError::Constraint { .. }) => false,
            }),
    {
        if !self.table_created {
            return Err(StoreError::NoTable);
        }
        match self.find(id) {
            None => Ok(0),
            Some(i) => {
                let ghost pre = self@.rows;
                self.rows.remove(i);
                proof {
                    assert(self@.rows =~= pre.remove(i as int));
                    lemma_unique_remove(pre, i as int);
                }
                Ok(1)
            },
        }
    }

    /// The transform step against this store: create the table if it is
    /// absent, then insert the given rows in order.  The rows are fully
    /// parsed before this step, so the only failure left is a duplicate
    /// key; as in the source pipeline there is no rollback, and the rows
    /// before the offending one stay inserted.
    pub fn load(&mut self, recs: Vec<NameRecord>) -> (r: Result<usize, LoadError>)
        requires
            old(self).wf(),
        ensures
            final(self).wf(),
            final(self)@.table_created,
            (match r {
                Ok(n) => n == recs@.len() && final(self)@.rows == old(self)@.rows + models_of(
                    recs@,
                ) && (forall|k: int|
                    0 <= k < recs@.len() ==> !has_id(
                        old(self)@.rows + models_of(recs@.subrange(0, k)),
                        (#[trigger] recs@[k])@.id,
                    )),
                Err(LoadError::Constraint { row, id }) => row < recs@.len() && id == recs@[
                    row as int
                ].id && has_id(
                    old(self)@.rows + models_of(recs@.subrange(0, row as int)),
                    recs@[row as int]@.id,
                ) && (forall|k: int|
                    0 <= k < row ==> !has_id(
                        old(self)@.rows + models_of(recs@.subrange(0, k)),
                        (#[trigger] recs@[k])@.id,
                    )) && final(self)@.rows == old(self)@.rows + models_of(
                    recs@.subrange(0, row as int),
                ),
                Err(_) => false,
            }),
    {
        self.ensure_schema();
        let ghost base = old(self)@.rows;
        let n: usize = recs.len();
        let mut k: usize = 0;
        while k < n
            invariant
                self.wf(),
                self@.table_created,
                base == old(self)@.rows,
                n == recs@.len(),
                k <= n,
                self@.rows == base + models_of(recs@.subrange(0, k as int)),
                forall|j: int|
                    0 <= j < k ==> !has_id(
                        base + models_of(recs@.subrange(0, j)),
                        (#[trigger] recs@[j])@.id,
                    ),
            decreases n - k,
        {
            let rec = recs[k].duplicate();
            let rec_id: i32 = rec.id;
            let ghost pre_rows = self@.rows;
            match self.create(rec) {
                Ok(()) => {
                    proof {
                        assert(recs@.subrange(0, k + 1).drop_last() =~= recs@.subrange(
                            0,
                            k as int,
                        ));
                        assert(models_of(recs@.subrange(0, k + 1)) =~= models_of(
                            recs@.subrange(0, k as int),
                        ).push(rec@));
                        assert(self@.rows =~= base + models_of(recs@.subrange(0, k + 1)));
                    }
                },
                Err(_) => {
                    proof {
                        assert(rec@ == recs@[k as int]@);
                        assert(rec_id == recs@[k as int].id);
                        assert(has_id(pre_rows, recs@[k as int]@.id));
                        assert(self@.rows == base + models_of(recs@.subrange(0, k as int)));
                    }
                    return Err(LoadError::Constraint { row: k, id: rec_id });
                },
            }
            k = k + 1;
        }
        proof {
            assert(recs@.subrange(0, n as int) =~= recs@);
        }
        Ok(n)
    }
}

/// Pushing a row with a fresh key keeps the keys unique.
proof fn lemma_unique_push(rows: Seq<RecModel>, rec: RecModel)
    requires
        unique_ids(rows),
        !has_id(rows, rec.id),
    ensures
        unique_ids(rows.push(rec)),
{
    let rows2 = rows.push(rec);
    assert forall|i: int, j: int| 0 <= i < j < rows2.len() implies (#[trigger] rows2[i]).id != (
    #[trigger] rows2[j]).id by {
        if j == rows.len() {
            assert(rows2[i] == rows[i]);
            assert(!(rows[i].id == rec.id));
        } else {
            assert(rows2[i] == rows[i] && rows2[j] == rows[j]);
        }
    }
}

/// Replacing a row with one carrying the same key keeps the keys unique.
proof fn lemma_unique_update(rows: Seq<RecModel>, i: int, rec: RecModel)
    requires
        unique_ids(rows),
        0 <= i < rows.len(),
        rows[i].id == rec.id,
    ensures
        unique_ids(rows.update(i, rec)),
{
}

/// Removing a row keeps the keys unique.
proof fn lemma_unique_remove(rows: Seq<RecModel>, i: int)
    requires
        unique_ids(rows),
        0 <= i < rows.len(),
    ensures
        unique_ids(rows.remove(i)),
{
    let rows2 = rows.remove(i);
    assert forall|p: int, q: int| 0 <= p < q < rows2.len() implies (#[trigger] rows2[p]).id != (
    #[trigger] rows2[q]).id by {
        let p0 = if p < i {
            p
        } else {
            p + 1
        };
        let q0 = if q < i {
            q
        } else {
            q + 1
        };
        assert(rows2[p] == rows[p0] && rows2[q] == rows[q0]);
    }
}

/// Under unique keys, a present key is carried by exactly one row and an
/// absent key by none.
pub proof fn lemma_unique_count(rows: Seq<RecModel>, id: int)
    requires
        unique_ids(rows),
    ensures
        count_id(rows, id) == if has_id(rows, id) {
            1nat
        } else {
            0nat
        },
    decreases rows.len(),
{
    if rows.len() > 0 {
        let head = rows.drop_last();
        assert(unique_ids(head)) by {
            assert(forall|i: int, j: int|
                0 <= i < j < head.len() ==> (#[trigger] head[i]).id != (#[trigger] head[j]).id);
        }
        lemma_unique_count(head, id);
        if rows.last().id == id {
            assert(!has_id(head, id)) by {
                if has_id(head, id) {
                    let w = choose|i: int| 0 <= i < head.len() && head[i].id == id;
                    assert(rows[w].id == rows[rows.len() - 1].id);
                }
            }
            assert(has_id(rows, id)) by {
                assert(rows[rows.len() - 1].id == id);
            }
        } else {
            if has_id(head, id) {
                let w = choose|i: int| 0 <= i < head.len() && head[i].id == id;
                assert(rows[w].id == id);
            }
            if has_id(rows, id) {
                let w = choose|i: int| 0 <= i < rows.len() && rows[i].id == id;
                assert(w < rows.len() - 1 && head[w].id == id);
            }
        }
    }
}

/// Round trip: a record created under a fresh key is afterwards present,
/// exactly once, with the very fields that were given — so the full scan
/// contains it and nothing else under its key.
pub proof fn lemma_create_read_round_trip(rows: Seq<RecModel>, rec: RecModel)
    requires
        unique_ids(rows),
        !has_id(rows, rec.id),
    ensures
        has_id(rows.push(rec), rec.id),
        count_id(rows.push(rec), rec.id) == 1,
        forall|i: int|
            0 <= i < rows.push(rec).len() && (#[trigger] rows.push(rec)[i]).id == rec.id
                ==> rows.push(rec)[i] == rec,
{
    let rows2 = rows.push(rec);
    lemma_unique_push(rows, rec);
    assert(rows2[rows.len() as int] == rec);
    lemma_unique_count(rows2, rec.id);
    assert forall|i: int| 0 <= i < rows2.len() && (#[trigger] rows2[i]).id == rec.id implies rows2[i]
        == rec by {
        if i < rows.len() {
            assert(rows[i].id == rec.id);
        }
    }
}

/// An update under a present key is visible to the scan and introduces no
/// duplicate: afterwards exactly one row carries the key, and it holds
/// the new fields.
pub proof fn lemma_update_visible(rows: Seq<RecModel>, i: int, rec: RecModel)
    requires
        unique_ids(rows),
        0 <= i < rows.len(),
        rows[i].id == rec.id,
    ensures
        unique_ids(rows.update(i, rec)),
        count_id(rows.update(i, rec), rec.id) == 1,
        rows.update(i, rec)[i] == rec,
        forall|j: int|
            0 <= j < rows.len() && (#[trigger] rows.update(i, rec)[j]).id == rec.id ==> j == i,
{
    let rows2 = rows.update(i, rec);
    lemma_unique_update(rows, i, rec);
    lemma_unique_count(rows2, rec.id);
    assert(has_id(rows2, rec.id)) by {
        assert(rows2[i].id == rec.id);
    }
    assert forall|j: int| 0 <= j < rows.len() && (#[trigger] rows2[j]).id == rec.id implies j
        == i by {
        if j != i {
            assert(rows2[j] == rows[j] && rows2[i] == rec);
        }
    }
}

/// A delete is terminal: after removing the row carrying a key, no row
/// carries it any more — a scan shows none, and a second delete of the
/// same key affects zero rows.
pub proof fn lemma_delete_terminal(rows: Seq<RecModel>, i: int)
    requires
        unique_ids(rows),
        0 <= i < rows.len(),
    ensures
        unique_ids(rows.remove(i)),
        !has_id(rows.remove(i), rows[i].id),
        count_id(rows.remove(i), rows[i].id) == 0,
{
    let id = rows[i].id;
    let rows2 = rows.remove(i);
    lemma_unique_remove(rows, i);
    assert(!has_id(rows2, id)) by {
        if has_id(rows2, id) {
            let w = choose|j: int| 0 <= j < rows2.len() && rows2[j].id == id;
            let w0 = if w < i {
                w
            } else {
                w + 1
            };
            assert(rows2[w] == rows[w0]);
            assert(rows[w0].id == rows[i].id && w0 != i);
        }
    }
    lemma_unique_count(rows2, id);
}

/// The schema-creation step is idempotent: a second application changes
/// nothing, and neither application touches the rows.
pub proof fn lemma_schema_creation_idempotent(s: StoreModel)
    ensures
        with_table(with_table(s)) == with_table(s),
        with_table(s).rows == s.rows,
{
}

} // verus!
