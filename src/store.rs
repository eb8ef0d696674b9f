use vstd::prelude::*;

use crate::catalog::{views, Beatmap, CatalogError, EntryView};
use crate::status::{partition_of, Status};
use crate::text::text_is;

verus! {

/// Whether some row has this id.
pub open spec fn has_id(rows: Seq<EntryView>, id: u64) -> bool {
    exists|i: int| 0 <= i < rows.len() && (#[trigger] rows[i]).id == id
}

/// Whether an entry lists this key count among its variants.
pub open spec fn has_key(e: EntryView, key: Seq<char>) -> bool {
    e.keys.contains(key)
}

/// The rows that pass the key-count filter (all rows where there is none), in stored order.
pub open spec fn matching(rows: Seq<EntryView>, key: Option<Seq<char>>) -> Seq<EntryView>
    decreases rows.len(),
{
    if rows.len() == 0 {
        Seq::empty()
    } else {
        let p = matching(rows.drop_last(), key);
        match key {
            Some(k) => if has_key(rows.last(), k) {
                p.push(rows.last())
            } else {
                p
            },
            None => p.push(rows.last()),
        }
    }
}

pub open spec fn opt_text(k: Option<&str>) -> Option<Seq<char>> {
    match k {
        Some(s) => Some(s@),
        None => None,
    }
}

/// Rows `offset .. offset + n` of a sequence, cut to its length.
pub open spec fn window(rows: Seq<EntryView>, n: nat, offset: nat) -> Seq<EntryView> {
    let lo = if offset <= rows.len() { offset as int } else { rows.len() as int };
    let hi = if offset + n <= rows.len() { (offset + n) as int } else { rows.len() as int };
    rows.subrange(lo, hi)
}

/// Entries kept per status partition, in insertion order.
pub struct CatalogStore {
    ranked: Vec<Beatmap>,
    loved: Vec<Beatmap>,
    qualified: Vec<Beatmap>,
    graveyard: Vec<Beatmap>,
}

pub open spec fn rows_wf(rows: Seq<EntryView>, s: Status) -> bool {
    &&& forall|i: int| 0 <= i < rows.len() ==> partition_of((#[trigger] rows[i]).statu) == s
    &&& forall|i: int, j: int| 0 <= i < j < rows.len() ==> (#[trigger] rows[i]).id != (#[trigger] rows[j]).id
}

impl CatalogStore {
    /// The rows of one partition, in insertion order.
    pub closed spec fn rows(&self, s: Status) -> Seq<EntryView> {
        match s {
            Status::Ranked => views(self.ranked@),
            Status::Loved => views(self.loved@),
            Status::Qualified => views(self.qualified@),
            Status::Graveyard => views(self.graveyard@),
        }
    }

    /// Each row sits in the partition its status routes to, and ids are
    /// unique within a partition.
    pub open spec fn wf(&self) -> bool {
        forall|s: Status| rows_wf(#[trigger] self.rows(s), s)
    }

    fn part(&self, s: Status) -> (r: &Vec<Beatmap>)
        ensures
            views(r@) == self.rows(s),
    {
        match s {
            Status::Ranked => &self.ranked,
            Status::Loved => &self.loved,
            Status::Qualified => &self.qualified,
            Status::Graveyard => &self.graveyard,
        }
    }

    /// An empty store.
    pub fn new() -> (r: CatalogStore)
        ensures
            r.wf(),
            forall|s: Status| (#[trigger] r.rows(s)).len() == 0,
    {
        let r = CatalogStore {
            ranked: Vec::new(),
            loved: Vec::new(),
            qualified: Vec::new(),
            graveyard: Vec::new(),
        };
        assert forall|s: Status| (#[trigger] r.rows(s)).len() == 0 by {
            assert(views(r.ranked@).len() == 0);
            assert(views(r.loved@).len() == 0);
            assert(views(r.qualified@).len() == 0);
            assert(views(r.graveyard@).len() == 0);
        }
        r
    }

    /// Whether the partition that `status` routes to holds an entry with this id.
    pub fn check_existence(&self, id: u64, status: &str) -> (r: bool)
        ensures
            r == has_id(self.rows(partition_of(status@)), id),
    {
        let s = Status::from_name(status);
        let rows = self.part(s);
        let mut i: usize = 0;
        while i < rows.len()
            invariant
                i <= rows@.len(),
                s == partition_of(status@),
                views(rows@) == self.rows(s),
                forall|j: int| 0 <= j < i ==> (#[trigger] rows@[j]).id != id,
            decreases rows@.len() - i,
        {
            if rows[i].id == id {
                assert(views(rows@)[i as int] == rows@[i as int]@);
                assert(self.rows(s)[i as int].id == id);
                assert(has_id(self.rows(s), id));
                return true;
            }
            i = i + 1;
        }
        assert forall|j: int| 0 <= j < views(rows@).len() implies (#[trigger] views(rows@)[j]).id != id by {
            assert(views(rows@)[j] == rows@[j]@);
        }
        false
    }

    /// Stores an entry in the partition its status routes to. An id already
    /// present there is a conflict, and the store is left as it was.
    pub fn insert(&mut self, entry: Beatmap) -> (r: Result<(), CatalogError>)
        requires
            old(self).wf(),
        ensures
            final(self).wf(),
            ({
                let s = partition_of(entry@.statu);
                if has_id(old(self).rows(s), entry.id) {
                    r == Err::<(), CatalogError>(CatalogError::Conflict) && final(self).rows(s) == old(self).rows(s)
                } else {
                    r is Ok && final(self).rows(s) == old(self).rows(s).push(entry@)
                }
            }),
            forall|t: Status| t != partition_of(entry@.statu) ==> #[trigger] final(self).rows(t) == old(self).rows(t),
    {
        if self.check_existence(entry.id, entry.statu.as_str()) {
            return Err(CatalogError::Conflict);
        }
        let s = Status::from_name(entry.statu.as_str());
        let ghost e = entry@;
        let ghost old_rows = self.rows(s);
        let ghost pre = *self;
        match s {
            Status::Ranked => self.ranked.push(entry),
            Status::Loved => self.loved.push(entry),
            Status::Qualified => self.qualified.push(entry),
            Status::Graveyard => self.graveyard.push(entry),
        }
        assert(self.rows(s) =~= old_rows.push(e));
        assert forall|t: Status| t != s implies #[trigger] self.rows(t) == pre.rows(t) by {}
        assert forall|t: Status| rows_wf(#[trigger] self.rows(t), t) by {
            if t == s {
                assert(rows_wf(pre.rows(t), t));
                let rows = self.rows(t);
                assert forall|i: int, j: int| 0 <= i < j < rows.len() implies (#[trigger] rows[i]).id != (#[trigger] rows[j]).id by {
                    if j == rows.len() - 1 {
                        if rows[i].id == e.id {
                            assert(old_rows[i].id == e.id);
                        }
                    }
                }
            } else {
                assert(rows_wf(pre.rows(t), t));
            }
        }
        Ok(())
    }

    /// The rows of a partition that pass the key-count filter, copied in stored order.
    fn matching_rows(&self, status: &str, key: Option<&str>) -> (r: Vec<Beatmap>)
        ensures
            views(r@) == matching(self.rows(partition_of(status@)), opt_text(key)),
    {
        let s = Status::from_name(status);
        filter_by_key(self.part(s), key)
    }

    /// How many rows of a partition pass the key-count filter.
    pub fn count(&self, status: &str, key: Option<&str>) -> (r: usize)
        ensures
            r == matching(self.rows(partition_of(status@)), opt_text(key)).len(),
    {
        let found = self.matching_rows(status, key);
        found.len()
    }

    /// Up to `n` filtered rows of a partition, starting at `offset`, in stored order.
    pub fn select_top(&self, status: &str, key: Option<&str>, n: usize, offset: usize) -> (r: Vec<Beatmap>)
        ensures
            views(r@) == window(matching(self.rows(partition_of(status@)), opt_text(key)), n as nat, offset as nat),
    {
        let found = self.matching_rows(status, key);
        take_window(&found, n, offset)
    }

    /// The last `n` filtered rows of a partition (all of them where there are
    /// fewer), in stored order.
    pub fn select_latest(&self, status: &str, key: Option<&str>, n: usize) -> (r: Vec<Beatmap>)
        ensures
            ({
                let m = matching(self.rows(partition_of(status@)), opt_text(key));
                views(r@) == if m.len() > n { m.subrange(m.len() - n, m.len() as int) } else { m }
            }),
    {
        let size = self.count(status, key);
        let offset = if size > n { size - n } else { 0 };
        let r = self.select_top(status, key, n, offset);
        proof {
            let m = matching(self.rows(partition_of(status@)), opt_text(key));
            if m.len() <= n {
                assert(m.subrange(0, m.len() as int) =~= m);
            }
        }
        r
    }
}

/// The rows that list the key count `key` among their variants (all rows
/// where there is no key), copied in order. A key count is matched as a whole
/// field of the list, so `4` does not match `14`.
pub fn filter_by_key(rows: &Vec<Beatmap>, key: Option<&str>) -> (r: Vec<Beatmap>)
    ensures
        views(r@) == matching(views(rows@), opt_text(key)),
{
    let mut out: Vec<Beatmap> = Vec::new();
    let mut i: usize = 0;
    assert(views(rows@).subrange(0, 0) =~= Seq::<EntryView>::empty());
    assert(views(out@) =~= Seq::<EntryView>::empty());
    while i < rows.len()
        invariant
            i <= rows@.len(),
            views(out@) == matching(views(rows@).subrange(0, i as int), opt_text(key)),
        decreases rows@.len() - i,
    {
        let ghost pre = views(rows@).subrange(0, i as int);
        let ghost before = views(out@);
        assert(views(rows@).subrange(0, i + 1).drop_last() =~= pre);
        assert(views(rows@).subrange(0, i + 1).last() == rows@[i as int]@);
        let keep = match key {
            Some(k) => has_key_text(&rows[i].keys, k),
            None => true,
        };
        if keep {
            out.push(rows[i].duplicate());
            assert(views(out@) =~= before.push(rows@[i as int]@));
        }
        i = i + 1;
    }
    assert(views(rows@).subrange(0, rows@.len() as int) =~= views(rows@));
    out
}

/// Up to `n` rows starting at `offset`, copied in order.
pub fn take_window(found: &Vec<Beatmap>, n: usize, offset: usize) -> (r: Vec<Beatmap>)
    ensures
        views(r@) == window(views(found@), n as nat, offset as nat),
{
    let len = found.len();
    let lo = if offset <= len { offset } else { len };
    let hi = if n <= len - lo { lo + n } else { len };
    let mut out: Vec<Beatmap> = Vec::new();
    let mut i: usize = lo;
    while i < hi
        invariant
            lo <= i <= hi <= found@.len(),
            views(out@) == views(found@).subrange(lo as int, i as int),
        decreases hi - i,
    {
        let ghost before = views(out@);
        out.push(found[i].duplicate());
        assert(views(out@) =~= before.push(found@[i as int]@));
        assert(views(found@).subrange(lo as int, i + 1) =~= views(found@).subrange(lo as int, i as int).push(found@[i as int]@));
        i = i + 1;
    }
    assert(views(found@).subrange(lo as int, lo as int) =~= Seq::<EntryView>::empty());
    out
}

/// Whether a list of key counts holds this one.
fn has_key_text(keys: &Vec<String>, key: &str) -> (r: bool)
    ensures
        r == crate::text::texts(keys@).contains(key@),
{
    let mut i: usize = 0;
    while i < keys.len()
        invariant
            i <= keys@.len(),
            forall|j: int| 0 <= j < i ==> (#[trigger] keys@[j])@ != key@,
        decreases keys@.len() - i,
    {
        if text_is(keys[i].as_str(), key) {
            assert(crate::text::texts(keys@)[i as int] == key@);
            return true;
        }
        i = i + 1;
    }
    assert forall|j: int| 0 <= j < crate::text::texts(keys@).len() implies #[trigger] crate::text::texts(keys@)[j] != key@ by {
        assert(crate::text::texts(keys@)[j] == keys@[j]@);
    }
    false
}

} // verus!
