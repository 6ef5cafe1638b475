//! Keeping files within their limits: the oldest go first, until the rest fits.

use crate::db::{dropped, files_of, ids_of, lemma_drop_nothing, Database, DbView};
use crate::models::{copy_opt, IndexView, Row, RowView};
use crate::records::{ascending, row_views};
use crate::table::{entries_without, lemma_filter_ascending, rows_without};
use crate::text::{
    lemma_text_lt_irreflexive, lemma_text_lt_total, lemma_text_lt_transitive, opt_text,
    same_text, text_before, text_lt, texts,
};
use vstd::prelude::*;

verus! {

/// Pictures take at most one gibibyte.
pub const IMAGE_LIMIT: u64 = 1_073_741_824;

/// Pictures that wait to be taken in take at most two gibibytes.
pub const BUFFER_LIMIT: u64 = 2_147_483_648;

/// `total` less `size`, but not below nothing.
pub open spec fn less(total: u64, size: u64) -> u64 {
    if size > total {
        0
    } else {
        (total - size) as u64
    }
}

/// Whether `a` is older than `b`: by time, then by id.
pub open spec fn older(a: RowView, b: RowView) -> bool {
    if a.created_at != b.created_at {
        text_lt(a.created_at, b.created_at)
    } else {
        a.id < b.id
    }
}

/// An image record that may go: it is no favourite.
pub open spec fn may_go(r: RowView) -> bool {
    r.item_type == "image"@ && r.is_favorite == 0
}

/// `q` holds the rows `rows`, the oldest first.
pub open spec fn oldest_first(q: Seq<RowView>, rows: Seq<RowView>) -> bool {
    &&& q.to_multiset() == rows.to_multiset()
    &&& forall|i: int, j: int| 0 <= i < j < q.len() ==> #[trigger] older(q[i], q[j])
}

/// The records that may go, and how much room the pictures take.
pub struct QuotaSweep {
    rows: Vec<Row>,
    next: usize,
    total: u64,
}

/// The view of a [`QuotaSweep`].
pub struct SweepView {
    /// The records that may still go, in the order in which they would.
    pub rest: Seq<RowView>,
    pub total: u64,
    /// How many records have gone.
    pub deleted: nat,
}

impl View for QuotaSweep {
    type V = SweepView;

    closed spec fn view(&self) -> SweepView {
        SweepView {
            rest: if self.next < self.rows@.len() {
                row_views(self.rows@).skip(self.next as int)
            } else {
                seq![]
            },
            total: self.total,
            deleted: self.next as nat,
        }
    }
}

impl SweepView {
    /// The record that is to go next: none once the rest fits.
    pub open spec fn victim(self) -> Option<RowView> {
        if self.total <= IMAGE_LIMIT || self.rest.len() == 0 {
            None
        } else {
            Some(self.rest[0])
        }
    }

    /// The sweep after a picture of `size` bytes has gone.
    pub open spec fn after(self, size: u64) -> SweepView {
        SweepView {
            rest: self.rest.drop_first(),
            total: less(self.total, size),
            deleted: self.deleted + 1,
        }
    }
}

/// The state of the sweep after as many victims have gone as there are sizes.
pub open spec fn swept(v: SweepView, sizes: Seq<u64>) -> SweepView
    decreases sizes.len(),
{
    if sizes.len() == 0 {
        v
    } else {
        swept(v, sizes.drop_last()).after(sizes.last())
    }
}

proof fn lemma_older_transitive(a: RowView, b: RowView, c: RowView)
    requires
        older(a, b),
        older(b, c),
    ensures
        older(a, c),
{
    let (x, y, z) = (a.created_at, b.created_at, c.created_at);
    if x != y && y != z {
        lemma_text_lt_transitive(x, y, z);
        lemma_text_lt_irreflexive(x);
    }
}

proof fn lemma_older_total(a: RowView, b: RowView)
    requires
        a.id != b.id,
        !older(a, b),
    ensures
        older(b, a),
{
    lemma_text_lt_total(a.created_at, b.created_at);
}

fn is_older(a: &Row, b: &Row) -> (r: bool)
    ensures
        r == older(a@, b@),
{
    if !same_text(&a.created_at, &b.created_at) {
        text_before(&a.created_at, &b.created_at)
    } else {
        a.id < b.id
    }
}

/// Copies of the rows `rows`, the oldest first.
fn sort_by_age(rows: &[Row]) -> (r: Vec<Row>)
    requires
        ascending(row_views(rows@)),
    ensures
        oldest_first(row_views(r@), row_views(rows@)),
{
    let mut sorted: Vec<Row> = Vec::new();
    let ghost all = row_views(rows@);
    proof {
        assert(row_views(sorted@) =~= seq![]);
        assert(all.take(0) =~= seq![]);
    }
    for k in 0..rows.len()
        invariant
            all == row_views(rows@),
            ascending(all),
            oldest_first(row_views(sorted@), all.take(k as int)),
    {
        let ghost q = row_views(sorted@);
        let ghost x = all[k as int];
        let mut pos: usize = 0;
        let n: usize = sorted.len();
        while pos < n && is_older(&sorted[pos], &rows[k])
            invariant
                n == sorted@.len(),
                pos <= n,
                q == row_views(sorted@),
                k < rows@.len(),
                all == row_views(rows@),
                x == all[k as int],
                forall|j: int| 0 <= j < pos ==> older(#[trigger] q[j], x),
            decreases n - pos,
        {
            assert(q[pos as int] == sorted@[pos as int]@);
            pos = pos + 1;
        }
        proof {
            broadcast use vstd::seq_lib::group_to_multiset_ensures;

            let prior = all.take(k as int);
            assert(q.len() == q.to_multiset().len());
            assert(prior.len() == prior.to_multiset().len());
            assert forall|j: int| 0 <= j < q.len() implies (#[trigger] q[j]).id != x.id by {
                assert(q.contains(q[j]));
                assert(q.to_multiset().count(q[j]) > 0);
                assert(prior.contains(q[j]));
                let i = choose|i: int| 0 <= i < prior.len() && prior[i] == q[j];
                assert(all[i].id < all[k as int].id);
            }
            assert forall|j: int| pos <= j < q.len() implies older(x, #[trigger] q[j]) by {
                assert(q[pos as int] == sorted@[pos as int]@);
                lemma_older_total(q[pos as int], x);
                if j > pos {
                    assert(older(q[pos as int], q[j]));
                    lemma_older_transitive(x, q[pos as int], q[j]);
                }
            }
        }
        sorted.insert(pos, rows[k].copy());
        proof {
            broadcast use vstd::seq_lib::group_to_multiset_ensures;

            let q2 = row_views(sorted@);
            assert(q2 =~= q.insert(pos as int, x));
            assert(all.take(k + 1) =~= all.take(k as int).push(x));
            assert forall|i: int, j: int| 0 <= i < j < q2.len() implies #[trigger] older(
                q2[i],
                q2[j],
            ) by {
                if i < pos && j == pos {
                    assert(q2[i] == q[i]);
                } else if i == pos {
                    assert(q2[j] == q[j - 1]);
                } else {
                    let a = if i < pos { i } else { i - 1 };
                    let b = if j < pos { j } else { j - 1 };
                    assert(q2[i] == q[a] && q2[j] == q[b]);
                    assert(older(q[a], q[b]));
                }
            }
        }
    }
    assert(all.take(all.len() as int) =~= all);
    sorted
}

impl Database {
    /// The start of a sweep over pictures that take `total` bytes: the image records that are no
    /// favourites, the oldest first.
    pub fn quota_sweep(&self, total: u64) -> (r: QuotaSweep)
        requires
            self@.wf(),
        ensures
            r@.total == total,
            r@.deleted == 0,
            oldest_first(r@.rest, self@.rows.filter(|r: RowView| may_go(r))),
    {
        let rows = self.row_slice();
        let ghost all = self@.rows;
        let ghost p = |r: RowView| may_go(r);
        let mut picked: Vec<Row> = Vec::new();
        proof {
            reveal(Seq::filter);
            assert(all.take(0).filter(p) =~= seq![]);
            assert(row_views(picked@) =~= all.take(0).filter(p));
        }
        for k in 0..rows.len()
            invariant
                all == row_views(rows@),
                p == (|r: RowView| may_go(r)),
                row_views(picked@) == all.take(k as int).filter(p),
        {
            let ghost before = picked@;
            let keep = same_text(&rows[k].item_type, "image") && rows[k].is_favorite == 0;
            if keep {
                picked.push(rows[k].copy());
            }
            proof {
                reveal(Seq::filter);
                assert(all.take(k + 1).drop_last() =~= all.take(k as int));
                assert(all[k as int] == rows@[k as int]@);
                if keep {
                    assert(row_views(picked@) =~= row_views(before).push(all[k as int]));
                }
            }
        }
        proof {
            assert(all.take(all.len() as int) =~= all);
            lemma_filter_ascending(all, p);
        }
        let sorted = sort_by_age(&picked);
        let ghost q = row_views(sorted@);
        let sweep = QuotaSweep { rows: sorted, next: 0, total };
        assert(sweep@.rest =~= q);
        sweep
    }

    /// Deletes the record that is to go next, whose picture takes `size` bytes. What comes back are
    /// the files that belong to it; nothing is done once the rest fits.
    pub fn enforce_image_quota(&mut self, sweep: &mut QuotaSweep, size: u64) -> (r: Vec<String>)
        requires
            old(self)@.wf(),
        ensures
            final(self)@.wf(),
            old(self)@.in_sync() ==> final(self)@.in_sync(),
            match old(sweep)@.victim() {
                Some(v) => {
                    &&& final(self)@ == dropped(old(self)@, seq![v.id])
                    &&& final(sweep)@ == old(sweep)@.after(size)
                    &&& texts(r@) == files_of(v)
                },
                None => {
                    &&& final(self)@ == old(self)@
                    &&& final(sweep)@ == old(sweep)@
                    &&& r@.len() == 0
                },
            },
    {
        let ghost s = sweep@;
        let mut files: Vec<String> = Vec::new();
        if sweep.total <= IMAGE_LIMIT || sweep.next >= sweep.rows.len() {
            return files;
        }
        let i: usize = sweep.next;
        let ghost v = row_views(sweep.rows@)[i as int];
        assert(s.rest[0] == v);
        let row = sweep.rows[i].copy();
        match row.image_path {
            Some(p) => files.push(p),
            None => {},
        }
        match row.thumbnail_path {
            Some(p) => files.push(p),
            None => {},
        }
        assert(texts(files@) =~= files_of(v));
        let ids: [i64; 1] = [row.id];
        self.drop_ids(&ids);
        assert(ids@ =~= seq![v.id]);
        sweep.next = i + 1;
        sweep.total = sweep.total.saturating_sub(size);
        assert(sweep@.rest =~= s.rest.drop_first());
        files
    }
}

impl QuotaSweep {
    /// How many records have gone.
    pub fn deleted(&self) -> (r: usize)
        ensures
            r == self@.deleted,
    {
        self.next
    }

    /// The picture of the record that is to go next, whose size is needed: nothing once the rest
    /// fits, and no path where the record has none.
    pub fn current(&self) -> (r: Option<Option<String>>)
        ensures
            match (r, self@.victim()) {
                (Some(p), Some(v)) => opt_text(p) == v.image_path,
                (None, None) => true,
                _ => false,
            },
    {
        if self.total <= IMAGE_LIMIT || self.next >= self.rows.len() {
            return None;
        }
        assert(self@.rest[0] == row_views(self.rows@)[self.next as int]);
        Some(copy_opt(&self.rows[self.next].image_path))
    }
}

/// The history after as many victims of a sweep have gone as there are sizes.
pub open spec fn quota_run(d: DbView, v: SweepView, sizes: Seq<u64>) -> DbView
    decreases sizes.len(),
{
    if sizes.len() == 0 {
        d
    } else {
        let init = sizes.drop_last();
        dropped(quota_run(d, v, init), seq![swept(v, init).rest[0].id])
    }
}

/// A sweep that found these sizes of the pictures, one after the other, and came to its end: there
/// was a record to go each time, and then none.
pub open spec fn whole_sweep(v: SweepView, sizes: Seq<u64>) -> bool {
    &&& forall|j: int|
        0 <= j < sizes.len() ==> swept(v, #[trigger] sizes.take(j)).victim() is Some
    &&& swept(v, sizes).victim() is None
}

proof fn lemma_rows_without_twice(rows: Seq<RowView>, a: Seq<i64>, b: Seq<i64>)
    ensures
        rows_without(rows_without(rows, a), b) == rows_without(rows, a + b),
    decreases rows.len(),
{
    reveal(Seq::filter);
    if rows.len() > 0 {
        let init = rows.drop_last();
        let last = rows.last();
        lemma_rows_without_twice(init, a, b);
        lemma_in_either(a, b, last.id);
        let f = rows_without(init, a);
        assert(f.push(last).drop_last() =~= f);
    } else {
        assert(rows_without(rows, a) =~= seq![]);
    }
}

proof fn lemma_entries_without_twice(index: Seq<IndexView>, a: Seq<i64>, b: Seq<i64>)
    ensures
        entries_without(entries_without(index, a), b) == entries_without(index, a + b),
    decreases index.len(),
{
    reveal(Seq::filter);
    if index.len() > 0 {
        let init = index.drop_last();
        let last = index.last();
        lemma_entries_without_twice(init, a, b);
        lemma_in_either(a, b, last.rowid);
        let f = entries_without(init, a);
        assert(f.push(last).drop_last() =~= f);
    } else {
        assert(entries_without(index, a) =~= seq![]);
    }
}

proof fn lemma_in_either(a: Seq<i64>, b: Seq<i64>, id: i64)
    ensures
        (a + b).contains(id) == (a.contains(id) || b.contains(id)),
{
    let c = a + b;
    if a.contains(id) {
        let k = choose|k: int| 0 <= k < a.len() && a[k] == id;
        assert(c[k] == id);
    }
    if b.contains(id) {
        let k = choose|k: int| 0 <= k < b.len() && b[k] == id;
        assert(c[a.len() + k] == id);
    }
    if c.contains(id) {
        let k = choose|k: int| 0 <= k < c.len() && c[k] == id;
        if k < a.len() {
            assert(a[k] == id);
        } else {
            assert(b[k - a.len()] == id);
        }
    }
}

proof fn lemma_quota_run(d: DbView, v: SweepView, sizes: Seq<u64>)
    requires
        sizes.len() <= v.rest.len(),
    ensures
        quota_run(d, v, sizes) == dropped(d, ids_of(v.rest.take(sizes.len() as int))),
    decreases sizes.len(),
{
    let k = sizes.len() as int;
    if k == 0 {
        assert(ids_of(v.rest.take(0)) =~= seq![]);
        lemma_drop_nothing(d, ids_of(v.rest.take(0)));
    } else {
        let init = sizes.drop_last();
        lemma_quota_run(d, v, init);
        law_quota_takes_from_the_front(v, init);
        let a = ids_of(v.rest.take(k - 1));
        let b = seq![v.rest[k - 1].id];
        assert(swept(v, init).rest[0] == v.rest[k - 1]);
        assert(a + b =~= ids_of(v.rest.take(k)));
        lemma_rows_without_twice(d.rows, a, b);
        lemma_entries_without_twice(d.index, a, b);
    }
}

/// A whole sweep deletes the oldest records, as many as it counts and no more than it takes: they
/// are the shortest stretch from the front after which the rest is within the limit, or all there
/// are.
pub proof fn law_quota_deletes_the_shortest_stretch(d: DbView, v: SweepView, sizes: Seq<u64>)
    requires
        whole_sweep(v, sizes),
    ensures
        sizes.len() <= v.rest.len(),
        quota_run(d, v, sizes) == dropped(d, ids_of(v.rest.take(sizes.len() as int))),
        swept(v, sizes).deleted == v.deleted + sizes.len(),
        swept(v, sizes).total <= IMAGE_LIMIT || sizes.len() == v.rest.len(),
        forall|j: int|
            0 <= j < sizes.len() ==> swept(v, #[trigger] sizes.take(j)).total > IMAGE_LIMIT,
{
    lemma_sweep_fits(v, sizes);
    lemma_quota_run(d, v, sizes);
    law_quota_takes_from_the_front(v, sizes);
    assert forall|j: int| 0 <= j < sizes.len() implies swept(v, #[trigger] sizes.take(j)).total
        > IMAGE_LIMIT by {
        assert(swept(v, sizes.take(j)).victim() is Some);
    }
}

proof fn lemma_sweep_fits(v: SweepView, sizes: Seq<u64>)
    requires
        forall|j: int|
            0 <= j < sizes.len() ==> swept(v, #[trigger] sizes.take(j)).victim() is Some,
    ensures
        sizes.len() <= v.rest.len(),
    decreases sizes.len(),
{
    if sizes.len() > 0 {
        let init = sizes.drop_last();
        assert forall|j: int| 0 <= j < init.len() implies swept(
            v,
            #[trigger] init.take(j),
        ).victim() is Some by {
            assert(init.take(j) =~= sizes.take(j));
        }
        lemma_sweep_fits(v, init);
        law_quota_takes_from_the_front(v, init);
        assert(sizes.take(sizes.len() - 1) =~= init);
        assert(swept(v, init).victim() is Some);
    }
}

/// The records go from the front: after as many as there are sizes, the later ones are left.
pub proof fn law_quota_takes_from_the_front(v: SweepView, sizes: Seq<u64>)
    requires
        sizes.len() <= v.rest.len(),
    ensures
        swept(v, sizes).rest == v.rest.skip(sizes.len() as int),
        swept(v, sizes).deleted == v.deleted + sizes.len(),
    decreases sizes.len(),
{
    if sizes.len() == 0 {
        assert(v.rest.skip(0) =~= v.rest);
    } else {
        law_quota_takes_from_the_front(v, sizes.drop_last());
        assert(v.rest.skip(sizes.len() - 1).drop_first() =~= v.rest.skip(sizes.len() as int));
    }
}

/// Whatever a sweep deletes is an image record that is no favourite, and no image record that is no
/// favourite and stays is older than it.
pub proof fn law_quota_deletes_the_oldest(q: Seq<RowView>, rows: Seq<RowView>, k: int)
    requires
        ascending(rows),
        oldest_first(q, rows.filter(|r: RowView| may_go(r))),
        0 <= k < q.len(),
    ensures
        rows.contains(q[k]) && may_go(q[k]),
        forall|i: int| k < i < q.len() ==> older(q[k], #[trigger] q[i]),
{
    broadcast use vstd::seq_lib::group_to_multiset_ensures;

    let p = |r: RowView| may_go(r);
    let f = rows.filter(p);
    lemma_filter_ascending(rows, p);
    assert(q.contains(q[k]));
    assert(q.to_multiset().count(q[k]) > 0);
    assert(f.contains(q[k]));
    assert forall|i: int| k < i < q.len() implies older(q[k], #[trigger] q[i]) by {
        assert(older(q[k], q[i]));
    }
}

/// Favourites, and all records that are not images, outlive every deletion of a sweep.
pub proof fn law_quota_spares_favorites(d: DbView, v: RowView, r: RowView)
    requires
        d.wf(),
        d.rows.contains(v),
        may_go(v),
        d.rows.contains(r),
        !may_go(r),
    ensures
        dropped(d, seq![v.id]).rows.contains(r),
{
    let ids = seq![v.id];
    let p = |r: RowView| !ids.contains(r.id);
    lemma_filter_ascending(d.rows, p);
    let i = choose|i: int| 0 <= i < d.rows.len() && d.rows[i] == v;
    let j = choose|j: int| 0 <= j < d.rows.len() && d.rows[j] == r;
    if i < j {
        assert(d.rows[i].id < d.rows[j].id);
    } else if j < i {
        assert(d.rows[j].id < d.rows[i].id);
    }
    assert(p(r));
}

/// `q` holds the texts `list`, in lexicographic order.
pub open spec fn in_order(q: Seq<Seq<char>>, list: Seq<Seq<char>>) -> bool {
    &&& q.to_multiset() == list.to_multiset()
    &&& forall|i: int, j: int| 0 <= i < j < q.len() ==> !#[trigger] text_lt(q[j], q[i])
}

/// The texts of `list` in lexicographic order.
pub fn sort_texts(list: &[String]) -> (r: Vec<String>)
    ensures
        in_order(texts(r@), texts(list@)),
{
    let mut sorted: Vec<String> = Vec::new();
    let ghost all = texts(list@);
    proof {
        assert(texts(sorted@) =~= seq![]);
        assert(all.take(0) =~= seq![]);
    }
    for k in 0..list.len()
        invariant
            all == texts(list@),
            in_order(texts(sorted@), all.take(k as int)),
    {
        let ghost q = texts(sorted@);
        let ghost x = all[k as int];
        let mut pos: usize = 0;
        let n: usize = sorted.len();
        while pos < n && !text_before(&list[k], &sorted[pos])
            invariant
                n == sorted@.len(),
                pos <= n,
                q == texts(sorted@),
                k < list@.len(),
                x == list@[k as int]@,
                forall|j: int| 0 <= j < pos ==> !text_lt(x, #[trigger] q[j]),
            decreases n - pos,
        {
            assert(q[pos as int] == sorted@[pos as int]@);
            pos = pos + 1;
        }
        proof {
            assert forall|j: int| pos <= j < q.len() implies !text_lt(#[trigger] q[j], x) by {
                assert(q[pos as int] == sorted@[pos as int]@);
                if text_lt(q[j], x) {
                    lemma_text_lt_transitive(q[j], x, q[pos as int]);
                    if j == pos {
                        lemma_text_lt_irreflexive(q[j]);
                    } else {
                        assert(!text_lt(q[j], q[pos as int]));
                    }
                }
            }
        }
        sorted.insert(pos, list[k].clone());
        proof {
            broadcast use vstd::seq_lib::group_to_multiset_ensures;

            let q2 = texts(sorted@);
            assert(q2 =~= q.insert(pos as int, x));
            assert(all.take(k + 1) =~= all.take(k as int).push(x));
            assert forall|i: int, j: int| 0 <= i < j < q2.len() implies !#[trigger] text_lt(
                q2[j],
                q2[i],
            ) by {
                if i < pos && j == pos {
                    assert(q2[i] == q[i]);
                } else if i == pos {
                    assert(q2[j] == q[j - 1]);
                } else {
                    let a = if i < pos { i } else { i - 1 };
                    let b = if j < pos { j } else { j - 1 };
                    assert(q2[i] == q[a] && q2[j] == q[b]);
                    assert(!text_lt(q[b], q[a]));
                }
            }
        }
    }
    assert(all.take(all.len() as int) =~= all);
    sorted
}

/// The files that wait to be taken in, and how much room they take.
pub struct BufferSweep {
    files: Vec<String>,
    next: usize,
    total: u64,
}

/// The view of a [`BufferSweep`].
pub struct BufferView {
    /// The files that may still go, in the order in which they would.
    pub rest: Seq<Seq<char>>,
    pub total: u64,
}

impl View for BufferSweep {
    type V = BufferView;

    closed spec fn view(&self) -> BufferView {
        BufferView {
            rest: if self.next < self.files@.len() {
                texts(self.files@).skip(self.next as int)
            } else {
                seq![]
            },
            total: self.total,
        }
    }
}

impl BufferView {
    /// The file that is to go next: none once the rest fits.
    pub open spec fn victim(self) -> Option<Seq<char>> {
        if self.total <= BUFFER_LIMIT || self.rest.len() == 0 {
            None
        } else {
            Some(self.rest[0])
        }
    }
}

impl BufferSweep {
    /// The start of a sweep over the files `names`, which take `total` bytes. Their names hold the
    /// time at which they were written, so that the oldest come first.
    pub fn new(names: &[String], total: u64) -> (r: BufferSweep)
        ensures
            r@.total == total,
            in_order(r@.rest, texts(names@)),
    {
        let files = sort_texts(names);
        let ghost q = texts(files@);
        let sweep = BufferSweep { files, next: 0, total };
        assert(sweep@.rest =~= q);
        sweep
    }

    /// The file that is to go next: nothing once the rest fits.
    pub fn current(&self) -> (r: Option<String>)
        ensures
            opt_text(r) == self@.victim(),
    {
        if self.total <= BUFFER_LIMIT || self.next >= self.files.len() {
            return None;
        }
        assert(self@.rest[0] == self.files@[self.next as int]@);
        Some(self.files[self.next].clone())
    }

    /// Goes on to the next file, after the one that was to go has gone with its `size` bytes, or
    /// could not be removed.
    pub fn enforce_buffer_limit(&mut self, removed: bool, size: u64)
        ensures
            final(self)@ == match old(self)@.victim() {
                Some(_) => BufferView {
                    rest: old(self)@.rest.drop_first(),
                    total: if removed {
                        less(old(self)@.total, size)
                    } else {
                        old(self)@.total
                    },
                },
                None => old(self)@,
            },
    {
        let ghost s = self@;
        if self.total <= BUFFER_LIMIT || self.next >= self.files.len() {
            return;
        }
        self.next = self.next + 1;
        if removed {
            self.total = self.total.saturating_sub(size);
        }
        assert(self@.rest =~= s.rest.drop_first());
    }
}

} // verus!
