use vstd::prelude::*;
use crate::codec::{decode, decode_text, encode, encode_records, is_clean, is_reserved, records_clean};
use crate::error::StoreError;
use crate::store::{has_key, insert_record, keys_unique, map_of, RecordView, Store};

verus! {

/// What a flush writes to the backing file: `Some(None)` when there are no
/// unflushed changes (nothing is written), `Some(Some(t))` with the text `t`
/// of the records when they are all clean, and `None` when some key or value
/// holds a reserved character (nothing is written either).
pub open spec fn flush_plan(rs: Seq<RecordView>, unflushed: bool) -> Option<Option<Seq<char>>> {
    if !unflushed {
        Some(None)
    } else if records_clean(rs) {
        Some(Some(encode_records(rs)))
    } else {
        None
    }
}

/// What the backing file holds once a flush that followed `plan` has been
/// carried out, when it held `disk` before (`None`: there was no file).
pub open spec fn disk_after(disk: Option<Seq<char>>, plan: Option<Option<Seq<char>>>) -> Option<
    Seq<char>,
> {
    match plan {
        Some(Some(t)) => Some(t),
        _ => disk,
    }
}

/// A handle on the store of one backing file: the mapping in memory, whether
/// it has changes not yet written, and the path it is bound to. Reading and
/// writing the file is left to the caller, who hands in what the file held
/// and writes what `flush` returns.
pub struct Database {
    store: Store,
    dirty: bool,
    path: String,
}

impl Database {
    /// The records in the order the handle keeps, and writes, them.
    pub closed spec fn records(&self) -> Seq<RecordView> {
        self.store.records()
    }

    /// The handle has changes that have not been written.
    pub closed spec fn unflushed(&self) -> bool {
        self.dirty
    }

    /// The path of the backing file.
    pub closed spec fn path_view(&self) -> Seq<char> {
        self.path@
    }

    /// The handle's invariant: each key stands in one record only.
    pub closed spec fn wf(&self) -> bool {
        self.store.wf()
    }

    /// Opens the store bound to `path`, given what its file holds (`None` when
    /// there is no file). An absent file gives an empty store; otherwise the
    /// text is decoded, and a malformed text gives `MalformedRecord` and no
    /// handle. A new handle has no unflushed changes.
    pub fn new(path: &str, contents: Option<&str>) -> (r: Result<Database, StoreError>)
        ensures
            match r {
                Ok(db) => {
                    &&& db.wf()
                    &&& !db.unflushed()
                    &&& db.path_view() == path@
                    &&& match contents {
                        None => db.records().len() == 0 && db@ == Map::<Seq<char>, Seq<char>>::empty(),
                        Some(t) => decode_text(t@) == Some(db@),
                    }
                },
                Err(e) => e == StoreError::MalformedRecord && contents is Some && decode_text(
                    contents->Some_0@,
                ) is None,
            },
    {
        let store = match contents {
            None => Store::new(),
            Some(text) => decode(text)?,
        };
        Ok(Database { store, dirty: false, path: path.to_owned() })
    }

    /// Sets `key` to `value`, replacing the value it had, and marks the
    /// handle as having unflushed changes.
    pub fn insert(&mut self, key: &str, value: &str)
        requires
            old(self).wf(),
        ensures
            final(self).wf(),
            final(self)@ == old(self)@.insert(key@, value@),
            final(self).records() == insert_record(old(self).records(), key@, value@),
            final(self).unflushed(),
            final(self).path_view() == old(self).path_view(),
    {
        self.store.insert(key, value);
        self.dirty = true;
    }

    /// Removes the record of `key` and tells whether there was one; only a
    /// removal marks the handle as having unflushed changes.
    pub fn remove(&mut self, key: &str) -> (r: bool)
        requires
            old(self).wf(),
        ensures
            final(self).wf(),
            r == old(self)@.contains_key(key@),
            final(self)@ == old(self)@.remove(key@),
            !r ==> final(self).records() == old(self).records(),
            final(self).unflushed() == (old(self).unflushed() || r),
            final(self).path_view() == old(self).path_view(),
    {
        let r = self.store.remove(key);
        if r {
            self.dirty = true;
        }
        r
    }

    /// The value of `key`, if the store has one.
    pub fn lookup(&self, key: &str) -> (r: Option<String>)
        requires
            self.wf(),
        ensures
            match r {
                Some(v) => self@.contains_key(key@) && v@ == self@[key@],
                None => !self@.contains_key(key@),
            },
    {
        self.store.get(key)
    }

    /// The number of keys in the store.
    pub fn len(&self) -> (r: usize)
        requires
            self.wf(),
        ensures
            r == self@.dom().len(),
            r == self.records().len(),
    {
        self.store.len()
    }

    /// Whether the handle has changes that have not been written.
    pub fn is_dirty(&self) -> (r: bool)
        ensures
            r == self.unflushed(),
    {
        self.dirty
    }

    /// The path of the backing file.
    pub fn path(&self) -> (r: &str)
        ensures
            r@ == self.path_view(),
    {
        self.path.as_str()
    }

    /// What to write to the backing file: `Ok(None)` when there are no
    /// unflushed changes, else the full text of the records, which replaces
    /// the file's content. Fails with `EncodingConflict` when a key or value
    /// holds a tab or a newline; the text is complete before anything is
    /// written, so on that failure the file is left as it was.
    pub fn flush(&self) -> (r: Result<Option<String>, StoreError>)
        requires
            self.wf(),
        ensures
            match r {
                Ok(None) => flush_plan(self.records(), self.unflushed()) == Some(None::<Seq<char>>),
                Ok(Some(t)) => flush_plan(self.records(), self.unflushed()) == Some(Some(t@)),
                Err(e) => e == StoreError::EncodingConflict && flush_plan(
                    self.records(),
                    self.unflushed(),
                ) is None,
            },
    {
        if !self.dirty {
            return Ok(None);
        }
        let text = encode(&self.store)?;
        Ok(Some(text))
    }

    /// Records that the text `flush` returned has been written: the handle
    /// has no unflushed changes any more.
    pub fn mark_flushed(&mut self)
        requires
            old(self).wf(),
        ensures
            final(self).wf(),
            !final(self).unflushed(),
            final(self).records() == old(self).records(),
            final(self).path_view() == old(self).path_view(),
    {
        self.dirty = false;
    }
}

impl View for Database {
    type V = Map<Seq<char>, Seq<char>>;

    open spec fn view(&self) -> Map<Seq<char>, Seq<char>> {
        map_of(self.records())
    }
}

/// Flushing twice with no change in between leaves the same content in the
/// backing file as flushing once, whether or not the first flush was marked
/// as written.
pub proof fn lemma_flush_idempotent(
    rs: Seq<RecordView>,
    unflushed: bool,
    second_unflushed: bool,
    disk: Option<Seq<char>>,
)
    requires
        second_unflushed ==> unflushed,
    ensures
        ({
            let once = disk_after(disk, flush_plan(rs, unflushed));
            disk_after(once, flush_plan(rs, second_unflushed)) == once
        }),
{
}

/// Inserting a key twice leaves only the second value.
pub proof fn lemma_last_write_wins(
    m: Map<Seq<char>, Seq<char>>,
    k: Seq<char>,
    v1: Seq<char>,
    v2: Seq<char>,
)
    ensures
        m.insert(k, v1).insert(k, v2) == m.insert(k, v2),
        m.insert(k, v1).insert(k, v2)[k] == v2,
{
    assert(m.insert(k, v1).insert(k, v2) =~= m.insert(k, v2));
}

/// Inserting a value that holds a tab and then flushing fails with a
/// conflict, and the backing file keeps its content.
pub proof fn lemma_reserved_value_rejected(
    rs: Seq<RecordView>,
    k: Seq<char>,
    v: Seq<char>,
    disk: Option<Seq<char>>,
)
    requires
        keys_unique(rs),
        v.contains('\t'),
    ensures
        flush_plan(insert_record(rs, k, v), true) is None,
        disk_after(disk, flush_plan(insert_record(rs, k, v), true)) == disk,
{
    let us = insert_record(rs, k, v);
    let j = choose|j: int| 0 <= j < v.len() && v[j] == '\t';
    let i = if has_key(rs, k) {
        choose|i: int| 0 <= i < rs.len() && #[trigger] rs[i].0 == k
    } else {
        rs.len() as int
    };
    assert(0 <= i < us.len());
    assert(us[i] == (k, v));
    assert(!records_clean(us)) by {
        if records_clean(us) {
            assert(is_clean(us[i].0) && is_clean(us[i].1));
            assert(!is_reserved(us[i].1[j]));
        }
    }
}

} // verus!
