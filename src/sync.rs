use vstd::prelude::*;

use crate::catalog::{views, Beatmap, EntryView};
use crate::status::{downloadable, lemma_name_routes_back, partition_of, status_name, Status};
use crate::store::{has_id, CatalogStore};

verus! {

/// How many downloads run side by side; a batch is awaited whole before the next starts.
pub const BATCH_WIDTH: usize = 5;

/// The crawled entries that are new for a partition: those whose status is the
/// partition's own and for which the store lookup answered "absent". An entry
/// whose lookup failed (`None`) is left for a later pass.
pub open spec fn fresh_with(es: Seq<EntryView>, expected: Status, known: Seq<Option<bool>>) -> Seq<EntryView>
    decreases es.len(),
{
    if es.len() == 0 {
        Seq::empty()
    } else {
        let p = fresh_with(es.drop_last(), expected, known.drop_last());
        if es.last().statu == status_name(expected) && known.last() == Some(false) {
            p.push(es.last())
        } else {
            p
        }
    }
}

/// The lookup answers a store gives for crawled entries under a partition.
pub open spec fn store_answers(store: CatalogStore, es: Seq<EntryView>, expected: Status) -> Seq<Option<bool>> {
    Seq::new(es.len(), |i: int| Some(has_id(store.rows(expected), es[i].id)))
}

/// The entries that are downloaded, in order: those of ranked and loved partitions.
pub open spec fn download_set(es: Seq<EntryView>) -> Seq<EntryView>
    decreases es.len(),
{
    if es.len() == 0 {
        Seq::empty()
    } else {
        let p = download_set(es.drop_last());
        if downloadable(partition_of(es.last().statu)) {
            p.push(es.last())
        } else {
            p
        }
    }
}

/// Picks the new entries of a crawled page for a partition, given the store's
/// answer for each entry (`Some(true)` present, `Some(false)` absent, `None` failed).
pub fn select_new(crawled: &Vec<Beatmap>, expected: Status, known: &Vec<Option<bool>>) -> (r: Vec<Beatmap>)
    requires
        known@.len() == crawled@.len(),
    ensures
        views(r@) == fresh_with(views(crawled@), expected, known@),
{
    let mut out: Vec<Beatmap> = Vec::new();
    let mut i: usize = 0;
    assert(views(crawled@).subrange(0, 0) =~= Seq::<EntryView>::empty());
    assert(views(out@) =~= Seq::<EntryView>::empty());
    while i < crawled.len()
        invariant
            i <= crawled@.len(),
            known@.len() == crawled@.len(),
            views(out@) == fresh_with(views(crawled@).subrange(0, i as int), expected, known@.subrange(0, i as int)),
        decreases crawled@.len() - i,
    {
        let ghost before = views(out@);
        assert(views(crawled@).subrange(0, i + 1).drop_last() =~= views(crawled@).subrange(0, i as int));
        assert(known@.subrange(0, i + 1).drop_last() =~= known@.subrange(0, i as int));
        assert(views(crawled@).subrange(0, i + 1).last() == crawled@[i as int]@);
        let absent = match known[i] {
            Some(b) => !b,
            None => false,
        };
        if absent && expected.matches(crawled[i].statu.as_str()) {
            out.push(crawled[i].duplicate());
            assert(views(out@) =~= before.push(crawled@[i as int]@));
        }
        i = i + 1;
    }
    assert(views(crawled@).subrange(0, crawled@.len() as int) =~= views(crawled@));
    assert(known@.subrange(0, crawled@.len() as int) =~= known@);
    out
}

/// The ids of every fresh entry are present after the store grew to hold them,
/// so a second selection with the same page finds nothing.
proof fn lemma_nothing_fresh_after(store: CatalogStore, es: Seq<EntryView>, expected: Status)
    requires
        forall|i: int| 0 <= i < es.len() && (#[trigger] es[i]).statu == status_name(expected)
            ==> has_id(store.rows(expected), es[i].id),
    ensures
        fresh_with(es, expected, store_answers(store, es, expected)).len() == 0,
    decreases es.len(),
{
    if es.len() > 0 {
        let k = store_answers(store, es, expected);
        assert(k.drop_last() =~= store_answers(store, es.drop_last(), expected));
        assert forall|i: int| 0 <= i < es.drop_last().len() && (#[trigger] es.drop_last()[i]).statu == status_name(expected)
            implies has_id(store.rows(expected), es.drop_last()[i].id) by {
            assert(es.drop_last()[i] == es[i]);
        }
        lemma_nothing_fresh_after(store, es.drop_last(), expected);
        assert(es.last() == es[es.len() - 1]);
    }
}

proof fn lemma_fresh_in_page(es: Seq<EntryView>, expected: Status, known: Seq<Option<bool>>)
    requires
        known.len() == es.len(),
    ensures
        forall|j: int| 0 <= j < fresh_with(es, expected, known).len() ==> (exists|i: int|
            0 <= i < es.len() && #[trigger] fresh_with(es, expected, known)[j] == es[i]),
        forall|j: int| 0 <= j < fresh_with(es, expected, known).len() ==>
            (#[trigger] fresh_with(es, expected, known)[j]).statu == status_name(expected),
    decreases es.len(),
{
    if es.len() > 0 {
        lemma_fresh_in_page(es.drop_last(), expected, known.drop_last());
        let p = fresh_with(es.drop_last(), expected, known.drop_last());
        let f = fresh_with(es, expected, known);
        assert forall|j: int| 0 <= j < f.len() implies (exists|i: int| 0 <= i < es.len() && #[trigger] f[j] == es[i]) by {
            if j < p.len() {
                assert(f[j] == p[j]);
                let i = choose|i: int| 0 <= i < es.drop_last().len() && p[j] == es.drop_last()[i];
                assert(f[j] == es[i]);
            } else {
                assert(f[j] == es[es.len() - 1]);
            }
        }
        assert forall|j: int| 0 <= j < f.len() implies (#[trigger] f[j]).statu == status_name(expected) by {
            if j < p.len() {
                assert(f[j] == p[j]);
            }
        }
    }
}

/// Answers a page's lookups from the store.
pub fn store_lookups(store: &CatalogStore, crawled: &Vec<Beatmap>, expected: Status) -> (r: Vec<Option<bool>>)
    ensures
        r@ == store_answers(*store, views(crawled@), expected),
{
    let name = expected.name();
    proof { lemma_name_routes_back(expected); }
    let mut out: Vec<Option<bool>> = Vec::new();
    let mut i: usize = 0;
    while i < crawled.len()
        invariant
            i <= crawled@.len(),
            name@ == status_name(expected),
            partition_of(status_name(expected)) == expected,
            out@.len() == i,
            forall|j: int| 0 <= j < i ==> out@[j] == Some(has_id(store.rows(expected), #[trigger] crawled@[j].id)),
        decreases crawled@.len() - i,
    {
        let b = store.check_existence(crawled[i].id, name);
        out.push(Some(b));
        i = i + 1;
    }
    assert(out@ =~= store_answers(*store, views(crawled@), expected));
    out
}

impl CatalogStore {
    /// One reconciliation step for a partition: selects the crawled entries
    /// that are new, stores them (a conflicting row is skipped, never fatal),
    /// and returns them. Run again on the same page, it finds nothing new.
    pub fn reconcile(&mut self, crawled: &Vec<Beatmap>, expected: Status) -> (r: Vec<Beatmap>)
        requires
            old(self).wf(),
        ensures
            final(self).wf(),
            views(r@) == fresh_with(views(crawled@), expected, store_answers(*old(self), views(crawled@), expected)),
            fresh_with(views(crawled@), expected, store_answers(*final(self), views(crawled@), expected)).len() == 0,
    {
        let known = store_lookups(self, crawled, expected);
        let fresh = select_new(crawled, expected, &known);
        let ghost before = *self;
        proof {
            lemma_fresh_in_page(views(crawled@), expected, known@);
            lemma_name_routes_back(expected);
            assert forall|j: int| 0 <= j < fresh@.len() implies (#[trigger] fresh@[j])@.statu == status_name(expected) by {
                assert(views(fresh@)[j] == fresh@[j]@);
            }
        }
        let mut i: usize = 0;
        while i < fresh.len()
            invariant
                i <= fresh@.len(),
                self.wf(),
                partition_of(status_name(expected)) == expected,
                views(fresh@) == fresh_with(views(crawled@), expected, known@),
                known@ == store_answers(before, views(crawled@), expected),
                forall|j: int| 0 <= j < fresh@.len() ==> (#[trigger] fresh@[j])@.statu == status_name(expected),
                forall|id: u64| has_id(before.rows(expected), id) ==> has_id(self.rows(expected), id),
                forall|j: int| 0 <= j < i ==> has_id(self.rows(expected), (#[trigger] fresh@[j]).id),
            decreases fresh@.len() - i,
        {
            assert(views(fresh@)[i as int] == fresh@[i as int]@);
            let ghost prev = *self;
            let _ = self.insert(fresh[i].duplicate());
            proof {
                let rows = self.rows(expected);
                assert(has_id(rows, fresh@[i as int].id)) by {
                    if !has_id(prev.rows(expected), fresh@[i as int].id) {
                        assert(rows.last().id == fresh@[i as int].id);
                        assert(rows[rows.len() - 1].id == fresh@[i as int].id);
                    }
                }
                assert forall|id: u64| has_id(prev.rows(expected), id) implies has_id(rows, id) by {
                    let k = choose|k: int| 0 <= k < prev.rows(expected).len() && (#[trigger] prev.rows(expected)[k]).id == id;
                    assert(rows[k] == prev.rows(expected)[k]);
                }
            }
            i = i + 1;
        }
        proof {
            let es = views(crawled@);
            assert forall|k: int| 0 <= k < es.len() && (#[trigger] es[k]).statu == status_name(expected)
                implies has_id(self.rows(expected), es[k].id) by {
                if !has_id(before.rows(expected), es[k].id) {
                    lemma_fresh_contains(es, expected, known@, k);
                    let f = fresh_with(es, expected, known@);
                    let j = choose|j: int| 0 <= j < f.len() && f[j] == es[k];
                    assert(views(fresh@)[j] == fresh@[j]@);
                }
            }
            lemma_nothing_fresh_after(*self, es, expected);
        }
        fresh
    }
}

/// An entry of the page with the partition's status and an "absent" answer is among the fresh ones.
proof fn lemma_fresh_contains(es: Seq<EntryView>, expected: Status, known: Seq<Option<bool>>, k: int)
    requires
        known.len() == es.len(),
        0 <= k < es.len(),
        es[k].statu == status_name(expected),
        known[k] == Some(false),
    ensures
        exists|j: int| 0 <= j < fresh_with(es, expected, known).len() && #[trigger] fresh_with(es, expected, known)[j] == es[k],
    decreases es.len(),
{
    let f = fresh_with(es, expected, known);
    if k == es.len() - 1 {
        assert(f[f.len() - 1] == es[k]);
    } else {
        lemma_fresh_contains(es.drop_last(), expected, known.drop_last(), k);
        let p = fresh_with(es.drop_last(), expected, known.drop_last());
        let j = choose|j: int| 0 <= j < p.len() && p[j] == es.drop_last()[k];
        assert(f[j] == p[j]);
    }
}

/// What a pass found for one partition with new entries.
#[derive(Debug)]
pub struct PartitionReport {
    pub status: Status,
    pub key: String,
    pub entries: Vec<Beatmap>,
}

/// What a pass decided: one report per partition with new entries (the
/// notifications), every new entry (to be stored), the new entries of ranked
/// and loved partitions (to be downloaded), and how many partitions failed.
#[derive(Debug)]
pub struct SyncPlan {
    reports: Vec<PartitionReport>,
    to_insert: Vec<Beatmap>,
    to_download: Vec<Beatmap>,
    failed: usize,
}

/// Only entries of downloadable partitions are ever queued for download.
pub open spec fn downloads_gated(d: Seq<EntryView>) -> bool {
    forall|i: int| 0 <= i < d.len() ==> downloadable(partition_of((#[trigger] d[i]).statu))
}

proof fn lemma_download_set_gated(es: Seq<EntryView>)
    ensures
        downloads_gated(download_set(es)),
        download_set(es).len() <= es.len(),
    decreases es.len(),
{
    if es.len() > 0 {
        lemma_download_set_gated(es.drop_last());
    }
}

/// Two entries are the same row of the store: same id, same partition.
pub open spec fn same_key(a: EntryView, b: EntryView) -> bool {
    a.id == b.id && partition_of(a.statu) == partition_of(b.statu)
}

/// Whether some entry of the sequence is the same row as `e`.
pub open spec fn taken(s: Seq<EntryView>, e: EntryView) -> bool {
    exists|i: int| 0 <= i < s.len() && same_key(#[trigger] s[i], e)
}

/// No two entries of the sequence are the same row.
pub open spec fn keys_unique(s: Seq<EntryView>) -> bool {
    forall|i: int, j: int| 0 <= i < j < s.len() ==> !same_key(#[trigger] s[i], #[trigger] s[j])
}

/// `acc` followed by those entries of `es`, in order, whose row is not yet among them.
pub open spec fn add_new(acc: Seq<EntryView>, es: Seq<EntryView>) -> Seq<EntryView>
    decreases es.len(),
{
    if es.len() == 0 {
        acc
    } else {
        let p = add_new(acc, es.drop_last());
        if taken(p, es.last()) {
            p
        } else {
            p.push(es.last())
        }
    }
}

proof fn lemma_download_set_members(es: Seq<EntryView>)
    ensures
        forall|i: int| 0 <= i < download_set(es).len() ==> exists|j: int|
            0 <= j < es.len() && #[trigger] download_set(es)[i] == es[j],
    decreases es.len(),
{
    if es.len() > 0 {
        lemma_download_set_members(es.drop_last());
        let p = download_set(es.drop_last());
        let d = download_set(es);
        assert forall|i: int| 0 <= i < d.len() implies exists|j: int| 0 <= j < es.len() && #[trigger] d[i] == es[j] by {
            if i < p.len() {
                let j = choose|j: int| 0 <= j < es.drop_last().len() && p[i] == es.drop_last()[j];
                assert(d[i] == es[j]);
            } else {
                assert(d[i] == es[es.len() - 1]);
            }
        }
    }
}

/// What is downloaded of a list without repeated rows has no repeated row either.
proof fn lemma_download_set_unique(es: Seq<EntryView>)
    requires
        keys_unique(es),
    ensures
        keys_unique(download_set(es)),
    decreases es.len(),
{
    if es.len() > 0 {
        let q = es.drop_last();
        assert forall|i: int, j: int| 0 <= i < j < q.len() implies !same_key(#[trigger] q[i], #[trigger] q[j]) by {
            assert(q[i] == es[i] && q[j] == es[j]);
        }
        lemma_download_set_unique(q);
        lemma_download_set_members(q);
        let p = download_set(q);
        let d = download_set(es);
        if downloadable(partition_of(es.last().statu)) {
            assert forall|i: int, j: int| 0 <= i < j < d.len() implies !same_key(#[trigger] d[i], #[trigger] d[j]) by {
                if j == d.len() - 1 {
                    let k = choose|k: int| 0 <= k < q.len() && p[i] == q[k];
                    assert(d[i] == es[k]);
                    assert(d[j] == es[es.len() - 1]);
                } else {
                    assert(d[i] == p[i] && d[j] == p[j]);
                }
            }
        }
    }
}

/// Whether the list already holds the same row as `e`.
fn holds_key(v: &Vec<Beatmap>, e: &Beatmap) -> (r: bool)
    ensures
        r == taken(views(v@), e@),
{
    let s = Status::from_name(e.statu.as_str());
    let mut i: usize = 0;
    while i < v.len()
        invariant
            i <= v@.len(),
            s == partition_of(e@.statu),
            forall|j: int| 0 <= j < i ==> !same_key(#[trigger] views(v@)[j], e@),
        decreases v@.len() - i,
    {
        assert(views(v@)[i as int] == v@[i as int]@);
        if v[i].id == e.id && Status::from_name(v[i].statu.as_str()) == s {
            assert(same_key(views(v@)[i as int], e@));
            return true;
        }
        i = i + 1;
    }
    false
}

/// An entry whose status reads "qualified" is never queued for download.
pub proof fn lemma_qualified_never_downloaded(d: Seq<EntryView>)
    requires
        downloads_gated(d),
    ensures
        forall|i: int| 0 <= i < d.len() ==> (#[trigger] d[i]).statu != status_name(Status::Qualified),
{
    assert forall|i: int| 0 <= i < d.len() implies (#[trigger] d[i]).statu != status_name(Status::Qualified) by {
        if d[i].statu == status_name(Status::Qualified) {
            lemma_name_routes_back(Status::Qualified);
        }
    }
}

impl SyncPlan {
    pub closed spec fn inserted(&self) -> Seq<EntryView> {
        views(self.to_insert@)
    }

    pub closed spec fn downloads(&self) -> Seq<EntryView> {
        views(self.to_download@)
    }

    /// The reports as (status, key count, new entries).
    pub closed spec fn report_views(&self) -> Seq<(Status, Seq<char>, Seq<EntryView>)> {
        self.reports@.map_values(|p: PartitionReport| (p.status, p.key@, views(p.entries@)))
    }

    pub closed spec fn failures(&self) -> nat {
        self.failed as nat
    }

    /// The download queue holds exactly the downloadable new entries, in
    /// order, and neither queue holds the same row twice.
    pub open spec fn wf(&self) -> bool {
        &&& self.downloads() == download_set(self.inserted())
        &&& downloads_gated(self.downloads())
        &&& keys_unique(self.inserted())
        &&& keys_unique(self.downloads())
    }

    /// A plan before any partition was looked at.
    pub fn new() -> (r: SyncPlan)
        ensures
            r.wf(),
            r.inserted().len() == 0,
            r.report_views().len() == 0,
            r.failures() == 0,
    {
        let r = SyncPlan { reports: Vec::new(), to_insert: Vec::new(), to_download: Vec::new(), failed: 0 };
        assert(r.report_views() =~= Seq::empty());
        assert(r.inserted() =~= Seq::<EntryView>::empty());
        assert(r.downloads() =~= Seq::<EntryView>::empty());
        r
    }

    /// Adds the new entries of one partition: those whose row (id and
    /// partition) this plan does not hold yet are to be stored, and of these
    /// the ranked and loved ones downloaded. A partition with at least one new
    /// entry gets a report listing all of them.
    pub fn record_partition(&mut self, status: Status, key: String, fresh: Vec<Beatmap>)
        requires
            old(self).wf(),
        ensures
            final(self).wf(),
            final(self).inserted() == add_new(old(self).inserted(), views(fresh@)),
            final(self).report_views() == if fresh@.len() > 0 {
                old(self).report_views().push((status, key@, views(fresh@)))
            } else {
                old(self).report_views()
            },
            final(self).failures() == old(self).failures(),
    {
        let ghost ins = self.inserted();
        let ghost fv = views(fresh@);
        let mut i: usize = 0;
        assert(fv.subrange(0, 0) =~= Seq::<EntryView>::empty());
        while i < fresh.len()
            invariant
                i <= fresh@.len(),
                fv == views(fresh@),
                self.inserted() == add_new(ins, fv.subrange(0, i as int)),
                self.downloads() == download_set(self.inserted()),
                keys_unique(self.inserted()),
                self.reports@ == old(self).reports@,
                self.failed == old(self).failed,
            decreases fresh@.len() - i,
        {
            let ghost pre = fv.subrange(0, i as int);
            let ghost cur = self.inserted();
            assert(fv.subrange(0, i + 1).drop_last() =~= pre);
            assert(fv.subrange(0, i + 1).last() == fresh@[i as int]@);
            let b = fresh[i].duplicate();
            let ghost bv = b@;
            if !holds_key(&self.to_insert, &b) {
                if Status::from_name(b.statu.as_str()).is_downloadable() {
                    let d = b.duplicate();
                    self.to_download.push(d);
                }
                self.to_insert.push(b);
                assert(self.inserted() =~= cur.push(bv));
                assert(self.inserted().drop_last() =~= cur);
                assert(self.downloads() =~= download_set(self.inserted()));
                assert forall|x: int, y: int| 0 <= x < y < self.inserted().len() implies !same_key(
                    #[trigger] self.inserted()[x], #[trigger] self.inserted()[y]) by {
                    if y == cur.len() {
                        assert(self.inserted()[x] == cur[x]);
                    } else {
                        assert(self.inserted()[x] == cur[x] && self.inserted()[y] == cur[y]);
                    }
                }
            }
            i = i + 1;
        }
        assert(fv.subrange(0, fresh@.len() as int) =~= fv);
        proof {
            lemma_download_set_gated(self.inserted());
            lemma_download_set_unique(self.inserted());
        }
        if fresh.len() > 0 {
            let ghost before = self.report_views();
            let ghost kv = key@;
            let ghost ev = views(fresh@);
            self.reports.push(PartitionReport { status, key, entries: fresh });
            assert(self.report_views() =~= before.push((status, kv, ev)));
        }
    }

    /// Counts a partition whose crawl failed; the pass goes on without it.
    pub fn record_failure(&mut self)
        requires
            old(self).wf(),
        ensures
            final(self).wf(),
            final(self).inserted() == old(self).inserted(),
            final(self).downloads() == old(self).downloads(),
            final(self).report_views() == old(self).report_views(),
            final(self).failures() == if old(self).failures() < usize::MAX { old(self).failures() + 1 } else { old(self).failures() },
    {
        if self.failed < usize::MAX {
            self.failed = self.failed + 1;
        }
    }

    pub fn reports(&self) -> (r: &Vec<PartitionReport>)
        ensures
            r@.map_values(|p: PartitionReport| (p.status, p.key@, views(p.entries@))) == self.report_views(),
    {
        &self.reports
    }

    pub fn to_insert(&self) -> (r: &Vec<Beatmap>)
        ensures
            views(r@) == self.inserted(),
    {
        &self.to_insert
    }

    pub fn to_download(&self) -> (r: &Vec<Beatmap>)
        ensures
            views(r@) == self.downloads(),
    {
        &self.to_download
    }

    pub fn failed_partitions(&self) -> (r: usize)
        ensures
            r == self.failures(),
    {
        self.failed
    }

    /// Whether every partition was crawled.
    pub fn is_complete(&self) -> (r: bool)
        ensures
            r == (self.failures() == 0),
    {
        self.failed == 0
    }
}

/// The partitions one pass visits, in order: each tracked status with each
/// tracked key count.
pub fn sync_partitions() -> (r: Vec<(Status, &'static str)>)
    ensures
        r@.len() == 6,
        r@[0].0 == Status::Ranked && r@[0].1@ == seq!['4'],
        r@[1].0 == Status::Ranked && r@[1].1@ == seq!['7'],
        r@[2].0 == Status::Loved && r@[2].1@ == seq!['4'],
        r@[3].0 == Status::Loved && r@[3].1@ == seq!['7'],
        r@[4].0 == Status::Qualified && r@[4].1@ == seq!['4'],
        r@[5].0 == Status::Qualified && r@[5].1@ == seq!['7'],
{
    proof {
        reveal_strlit("4");
        reveal_strlit("7");
    }
    let mut r: Vec<(Status, &'static str)> = Vec::new();
    r.push((Status::Ranked, "4"));
    r.push((Status::Ranked, "7"));
    r.push((Status::Loved, "4"));
    r.push((Status::Loved, "7"));
    r.push((Status::Qualified, "4"));
    r.push((Status::Qualified, "7"));
    assert("4"@ =~= seq!['4']);
    assert("7"@ =~= seq!['7']);
    r
}

/// Batch `i` of a download list: entries `5i .. 5i + 5`, cut to the list's length.
pub open spec fn batch(es: Seq<EntryView>, i: int) -> Seq<EntryView> {
    let lo = BATCH_WIDTH * i;
    let hi = if lo + BATCH_WIDTH <= es.len() { lo + BATCH_WIDTH } else { es.len() as int };
    es.subrange(lo, hi)
}

/// Splits a download list into consecutive batches of five; the last one
/// holds what is left.
pub fn download_batches(entries: &Vec<Beatmap>) -> (r: Vec<Vec<Beatmap>>)
    ensures
        r@.len() == (entries@.len() + BATCH_WIDTH - 1) / (BATCH_WIDTH as int),
        forall|i: int| 0 <= i < r@.len() ==> views((#[trigger] r@[i])@) == batch(views(entries@), i),
{
    let n = entries.len();
    let ghost ev = views(entries@);
    let mut out: Vec<Vec<Beatmap>> = Vec::new();
    let mut start: usize = 0;
    while start < n
        invariant
            n == entries@.len(),
            ev == views(entries@),
            start <= n,
            start == BATCH_WIDTH * out@.len() || (start == n && BATCH_WIDTH * (out@.len() - 1) < n
                && n < BATCH_WIDTH * out@.len()),
            out@.len() == 0 || BATCH_WIDTH * (out@.len() - 1) < n,
            forall|i: int| 0 <= i < out@.len() ==> views((#[trigger] out@[i])@) == batch(ev, i),
        decreases n - start,
    {
        let end = if n - start > BATCH_WIDTH { start + BATCH_WIDTH } else { n };
        let mut b: Vec<Beatmap> = Vec::new();
        let mut j: usize = start;
        while j < end
            invariant
                start <= j <= end <= n,
                n == entries@.len(),
                ev == views(entries@),
                views(b@) == ev.subrange(start as int, j as int),
            decreases end - j,
        {
            let ghost before = views(b@);
            b.push(entries[j].duplicate());
            assert(views(b@) =~= before.push(entries@[j as int]@));
            assert(ev.subrange(start as int, j + 1) =~= ev.subrange(start as int, j as int).push(ev[j as int]));
            j = j + 1;
        }
        assert(views(b@) == batch(ev, out@.len() as int));
        out.push(b);
        start = end;
    }
    out
}

/// Where the pass of one partition stands: its crawled page, or `None` where
/// the crawl failed.
pub struct PartitionCrawl {
    pub status: Status,
    pub key: String,
    pub page: Option<Vec<Beatmap>>,
}

/// The rows a pass stores, partition after partition: the new entries of each,
/// judged against the store as it stood before the pass, each row once.
pub open spec fn pass_fresh(store: CatalogStore, crawls: Seq<PartitionCrawl>) -> Seq<EntryView>
    decreases crawls.len(),
{
    if crawls.len() == 0 {
        Seq::empty()
    } else {
        let c = crawls.last();
        match c.page {
            Some(p) => add_new(
                pass_fresh(store, crawls.drop_last()),
                fresh_with(views(p@), c.status, store_answers(store, views(p@), c.status)),
            ),
            None => pass_fresh(store, crawls.drop_last()),
        }
    }
}

/// The reports of a pass: one per crawled partition with new entries, in order.
pub open spec fn pass_reports(store: CatalogStore, crawls: Seq<PartitionCrawl>) -> Seq<(Status, Seq<char>, Seq<EntryView>)>
    decreases crawls.len(),
{
    if crawls.len() == 0 {
        Seq::empty()
    } else {
        let c = crawls.last();
        let p = pass_reports(store, crawls.drop_last());
        match c.page {
            Some(pg) => {
                let f = fresh_with(views(pg@), c.status, store_answers(store, views(pg@), c.status));
                if f.len() > 0 {
                    p.push((c.status, c.key@, f))
                } else {
                    p
                }
            },
            None => p,
        }
    }
}

/// How many partitions of a pass could not be crawled.
pub open spec fn pass_failures(crawls: Seq<PartitionCrawl>) -> nat
    decreases crawls.len(),
{
    if crawls.len() == 0 {
        0
    } else {
        pass_failures(crawls.drop_last()) + if crawls.last().page is None { 1nat } else { 0nat }
    }
}

proof fn lemma_failures_bounded(crawls: Seq<PartitionCrawl>)
    ensures
        pass_failures(crawls) <= crawls.len(),
    decreases crawls.len(),
{
    if crawls.len() > 0 {
        lemma_failures_bounded(crawls.drop_last());
    }
}

/// One synchronisation pass against a store: every partition's page is
/// checked against the store as it stood before the pass, then every new
/// entry is stored (a conflicting one is skipped). Failed crawls are counted
/// and the pass goes on.
pub fn run_pass(store: &mut CatalogStore, crawls: Vec<PartitionCrawl>) -> (r: SyncPlan)
    requires
        old(store).wf(),
    ensures
        final(store).wf(),
        r.wf(),
        r.inserted() == pass_fresh(*old(store), crawls@),
        r.downloads() == download_set(pass_fresh(*old(store), crawls@)),
        r.failures() == pass_failures(crawls@),
        r.report_views() == pass_reports(*old(store), crawls@),
        forall|i: int| 0 <= i < r.inserted().len() ==> has_id(
            final(store).rows(partition_of((#[trigger] r.inserted()[i]).statu)),
            r.inserted()[i].id,
        ),
        forall|s: Status, id: u64| has_id(old(store).rows(s), id) ==> #[trigger] has_id(final(store).rows(s), id),
{
    let mut plan = SyncPlan::new();
    let mut k: usize = 0;
    let ghost start = *store;
    assert(crawls@.subrange(0, 0) =~= Seq::<PartitionCrawl>::empty());
    while k < crawls.len()
        invariant
            k <= crawls@.len(),
            *store == start,
            store.wf(),
            plan.wf(),
            plan.inserted() == pass_fresh(start, crawls@.subrange(0, k as int)),
            plan.failures() == pass_failures(crawls@.subrange(0, k as int)),
            plan.report_views() == pass_reports(start, crawls@.subrange(0, k as int)),
        decreases crawls@.len() - k,
    {
        let ghost pre = crawls@.subrange(0, k as int);
        assert(crawls@.subrange(0, k + 1).drop_last() =~= pre);
        assert(crawls@.subrange(0, k + 1).last() == crawls@[k as int]);
        proof { lemma_failures_bounded(pre); }
        match &crawls[k].page {
            Some(page) => {
                let known = store_lookups(store, page, crawls[k].status);
                let fresh = select_new(page, crawls[k].status, &known);
                plan.record_partition(crawls[k].status, crawls[k].key.clone(), fresh);
            },
            None => {
                plan.record_failure();
                assert(pass_fresh(start, crawls@.subrange(0, k + 1)) == pass_fresh(start, pre));
            },
        }
        k = k + 1;
    }
    assert(crawls@.subrange(0, crawls@.len() as int) =~= crawls@);
    let entries = plan.to_insert();
    let ghost before = *store;
    let mut i: usize = 0;
    while i < entries.len()
        invariant
            i <= entries@.len(),
            store.wf(),
            forall|s: Status, id: u64| has_id(before.rows(s), id) ==> #[trigger] has_id(store.rows(s), id),
            forall|j: int| 0 <= j < i ==> has_id(store.rows(partition_of((#[trigger] entries@[j])@.statu)), entries@[j].id),
        decreases entries@.len() - i,
    {
        let ghost prev = *store;
        let e = entries[i].duplicate();
        let _ = store.insert(e);
        proof {
            assert forall|s: Status, id: u64| has_id(prev.rows(s), id) implies #[trigger] has_id(store.rows(s), id) by {
                let k = choose|k: int| 0 <= k < prev.rows(s).len() && (#[trigger] prev.rows(s)[k]).id == id;
                assert(store.rows(s)[k] == prev.rows(s)[k]);
            }
            let t = partition_of(entries@[i as int]@.statu);
            if !has_id(prev.rows(t), entries@[i as int].id) {
                assert(store.rows(t)[store.rows(t).len() - 1].id == entries@[i as int].id);
            }
        }
        i = i + 1;
    }
    proof {
        assert forall|i: int| 0 <= i < plan.inserted().len() implies has_id(
            store.rows(partition_of((#[trigger] plan.inserted()[i]).statu)), plan.inserted()[i].id) by {
            assert(views(entries@)[i] == entries@[i]@);
        }
    }
    plan
}

} // verus!
