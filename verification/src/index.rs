//! The index: a one-pass scan over the archive that builds an ordered
//! mapping from archive path to entry.

use vstd::prelude::*;
use crate::entry::{Entry, EntryModel};
use crate::error::TardexError;
use crate::meta::Metadata;
use crate::order::{
    lex_lt, lex_lt_exec, lemma_lex_lt_connected, lemma_lex_lt_ne, lemma_lex_lt_trans, str_eq,
    strict_sorted,
};
use crate::scan::{models, scan_archive, tar_scan, RecordModel, TarRecord, REGULAR_TYPE};
use crate::storage::Storage;

verus! {

/// The path of each pair, in order.
pub open spec fn dex_keys(s: Seq<(String, Entry)>) -> Seq<Seq<char>> {
    s.map_values(|p: (String, Entry)| p.0@)
}

/// Whether some pair holds the path `k`.
pub open spec fn has_key(s: Seq<(String, Entry)>, k: Seq<char>) -> bool {
    exists|j: int| 0 <= j < s.len() && (#[trigger] s[j]).0@ == k
}

/// An index of a pair holding the path `k`.
pub open spec fn key_index(s: Seq<(String, Entry)>, k: Seq<char>) -> int {
    choose|j: int| 0 <= j < s.len() && (#[trigger] s[j]).0@ == k
}

/// No two pairs hold the same path.
pub open spec fn keys_distinct(s: Seq<(String, Entry)>) -> bool {
    forall|i: int, j: int| 0 <= i < j < s.len() ==> (#[trigger] s[i]).0@ != (#[trigger] s[j]).0@
}

/// The mapping that a pair vector denotes.
pub open spec fn dex_map(s: Seq<(String, Entry)>) -> Map<Seq<char>, EntryModel> {
    Map::new(|k: Seq<char>| has_key(s, k), |k: Seq<char>| s[key_index(s, k)].1.model())
}

/// The views of a path listing.
pub open spec fn path_views(s: Seq<String>) -> Seq<Seq<char>> {
    s.map_values(|p: String| p@)
}

/// The mapping that a descriptor stream over the archive bytes denotes:
/// one entry per regular-file record, keyed by path, later records
/// overwriting earlier ones; `None` where a regular record's declared
/// numeric fields are malformed or its declared range reaches past the end
/// of the store.
pub open spec fn index_of(recs: Seq<RecordModel>, bytes: Seq<u8>) -> Option<
    Map<Seq<char>, EntryModel>,
>
    decreases recs.len(),
{
    if recs.len() == 0 {
        Some(Map::empty())
    } else {
        match index_of(recs.drop_last(), bytes) {
            None => None,
            Some(m) => {
                let r = recs.last();
                if r.type_byte != REGULAR_TYPE {
                    Some(m)
                } else if r.size is None || r.mtime is None {
                    None
                } else if r.offset + r.size.unwrap() > bytes.len() {
                    None
                } else {
                    Some(
                        m.insert(
                            r.path,
                            EntryModel {
                                start: r.offset,
                                len: r.size.unwrap(),
                                mtime: r.mtime.unwrap(),
                                content: bytes.subrange(
                                    r.offset as int,
                                    r.offset + r.size.unwrap(),
                                ),
                            },
                        ),
                    )
                }
            },
        }
    }
}

/// Provides access to the files in an archive stored behind a storage
/// handle: an ordered mapping from archive path to entry, built by one
/// pass, read-only afterwards.
pub struct Tardex {
    dex: Vec<(String, Entry)>,
}

impl View for Tardex {
    type V = Map<Seq<char>, EntryModel>;

    closed spec fn view(&self) -> Map<Seq<char>, EntryModel> {
        dex_map(self.dex@)
    }
}

impl Tardex {
    /// The stored pairs, in enumeration order.
    pub closed spec fn dex_seq(&self) -> Seq<(String, Entry)> {
        self.dex@
    }

    /// Validity: pairs strictly ordered by path, every stored entry valid
    /// with its cursor at the start of its range.
    pub open spec fn wf(&self) -> bool {
        &&& strict_sorted(dex_keys(self.dex_seq()))
        &&& forall|i: int|
            0 <= i < self.dex_seq().len() ==> (#[trigger] self.dex_seq()[i]).1.wf()
                && self.dex_seq()[i].1.spec_pos() == 0
    }

    /// Build an index over the archive in `reader`: walk the descriptor
    /// stream once, keep the regular files, and bind each to its byte
    /// range. Any fault — an unreadable record, a malformed numeric field
    /// of a regular record, a range past the end of the store — aborts the
    /// whole construction; there is no partial index.
    pub fn new(reader: Storage) -> (r: Result<Tardex, TardexError>)
        ensures
            match r {
                Ok(t) => {
                    &&& t.wf()
                    &&& tar_scan(reader@) is Some
                    &&& index_of(tar_scan(reader@).unwrap(), reader@) == Some(t@)
                },
                Err(e) => {
                    &&& tar_scan(reader@) is None || index_of(
                        tar_scan(reader@).unwrap(),
                        reader@,
                    ) is None
                    &&& e matches TardexError::IoError(_)
                },
            },
    {
        let recs = match scan_archive(&reader) {
            Ok(v) => v,
            Err(e) => {
                return Err(e);
            },
        };
        Tardex::from_records(reader, recs)
    }

    /// Build the index from an already-decoded descriptor stream: the
    /// verified remainder of construction, exact for every stream.
    pub fn from_records(reader: Storage, recs: Vec<TarRecord>) -> (r: Result<Tardex, TardexError>)
        ensures
            match r {
                Ok(t) => {
                    &&& t.wf()
                    &&& index_of(models(recs@), reader@) == Some(t@)
                },
                Err(e) => {
                    &&& index_of(models(recs@), reader@) is None
                    &&& e matches TardexError::IoError(_)
                },
            },
    {
        let mut dex: Vec<(String, Entry)> = Vec::new();
        let n: usize = recs.len();
        let mut idx: usize = 0;
        while idx < n
            invariant
                n == recs@.len(),
                idx <= n,
                strict_sorted(dex_keys(dex@)),
                forall|i: int|
                    0 <= i < dex@.len() ==> (#[trigger] dex@[i]).1.wf()
                        && dex@[i].1.spec_pos() == 0,
                index_of(models(recs@).take(idx as int), reader@) == Some(dex_map(dex@)),
            decreases n - idx,
        {
            proof {
                assert(models(recs@).take(idx as int + 1).drop_last() =~= models(recs@).take(
                    idx as int,
                ));
                assert(models(recs@).take(idx as int + 1).last() == recs@[idx as int]@);
            }
            let rec = &recs[idx];
            if rec.type_byte == REGULAR_TYPE {
                let meta = match Metadata::from_header(rec) {
                    Ok(m) => m,
                    Err(e) => {
                        proof {
                            lemma_index_of_none_from(models(recs@), idx as int + 1, reader@);
                        }
                        return Err(e);
                    },
                };
                let entry = match Entry::in_tarball(reader.dup(), rec.offset, meta) {
                    Ok(en) => en,
                    Err(e) => {
                        proof {
                            lemma_index_of_none_from(models(recs@), idx as int + 1, reader@);
                        }
                        return Err(e);
                    },
                };
                proof {
                    assert(entry.model() =~= EntryModel {
                        start: rec.offset,
                        len: rec.size.unwrap(),
                        mtime: rec.mtime.unwrap(),
                        content: reader@.subrange(
                            rec.offset as int,
                            rec.offset + rec.size.unwrap(),
                        ),
                    });
                }
                let path = rec.path.clone();
                insert_sorted(&mut dex, path, entry);
            }
            idx = idx + 1;
        }
        proof {
            assert(models(recs@).take(n as int) =~= models(recs@));
        }
        Ok(Tardex { dex })
    }

    /// The indexed paths, in strict lexical order: a fresh listing per
    /// call, holding exactly the paths present at construction, each once.
    pub fn paths(&self) -> (r: Vec<String>)
        requires
            self.wf(),
        ensures
            strict_sorted(path_views(r@)),
            forall|i: int, j: int|
                0 <= i < j < r@.len() ==> (#[trigger] r@[i])@ != (#[trigger] r@[j])@,
            forall|i: int| 0 <= i < r@.len() ==> self@.contains_key((#[trigger] r@[i])@),
            forall|k: Seq<char>|
                #[trigger] self@.contains_key(k) ==> exists|i: int|
                    0 <= i < r@.len() && (#[trigger] r@[i])@ == k,
    {
        let mut r: Vec<String> = Vec::new();
        let n: usize = self.dex.len();
        let mut i: usize = 0;
        while i < n
            invariant
                self.wf(),
                n == self.dex_seq().len(),
                i <= n,
                r@.len() == i,
                forall|j: int| 0 <= j < i ==> (#[trigger] r@[j])@ == dex_keys(self.dex_seq())[j],
            decreases n - i,
        {
            let p: String = self.dex[i].0.clone();
            r.push(p);
            i = i + 1;
        }
        proof {
            assert(path_views(r@) =~= dex_keys(self.dex_seq()));
            crate::order::lemma_strict_sorted_distinct(path_views(r@));
            assert forall|i2: int, j2: int| 0 <= i2 < j2 < r@.len() implies (#[trigger] r@[i2])@
                != (#[trigger] r@[j2])@ by {
                assert(path_views(r@)[i2] == r@[i2]@);
                assert(path_views(r@)[j2] == r@[j2]@);
            }
            assert forall|i2: int| 0 <= i2 < r@.len() implies self@.contains_key(
                (#[trigger] r@[i2])@,
            ) by {
                assert((self.dex_seq()[i2]).0@ == r@[i2]@);
                assert(has_key(self.dex_seq(), r@[i2]@));
            }
            assert forall|k: Seq<char>| #[trigger] self@.contains_key(k) implies exists|i2: int|
                0 <= i2 < r@.len() && (#[trigger] r@[i2])@ == k by {
                let j = key_index(self.dex_seq(), k);
                assert((self.dex_seq()[j]).0@ == k);
                assert(r@[j]@ == k);
            }
        }
        r
    }

    /// Access the entry at a path: a duplicate of the stored entry, with
    /// its own storage handle and its cursor at the start of the range, so
    /// that no two callers share read state. An absent path is a normal
    /// outcome, never an error.
    pub fn entry(&self, k: &str) -> (r: Option<Entry>)
        requires
            self.wf(),
        ensures
            match r {
                Some(e) => {
                    &&& self@.contains_key(k@)
                    &&& e.model() == self@[k@]
                    &&& e.wf()
                    &&& e.spec_pos() == 0
                },
                None => !self@.contains_key(k@),
            },
    {
        let n: usize = self.dex.len();
        let mut i: usize = 0;
        while i < n
            invariant
                self.wf(),
                n == self.dex_seq().len(),
                i <= n,
                forall|j: int| 0 <= j < i ==> (#[trigger] self.dex_seq()[j]).0@ != k@,
            decreases n - i,
        {
            if str_eq(self.dex[i].0.as_str(), k) {
                let e = self.dex[i].1.clone();
                proof {
                    lemma_sorted_keys_distinct(self.dex_seq());
                    lemma_dex_map_at(self.dex_seq(), i as int);
                }
                return Some(e);
            }
            i = i + 1;
        }
        proof {
            assert(!has_key(self.dex_seq(), k@));
        }
        None
    }
}

/// The paths of a built index are exactly the regular-file paths of the
/// descriptor stream; directories and other special records contribute
/// nothing.
pub proof fn lemma_index_of_dom(
    recs: Seq<RecordModel>,
    bytes: Seq<u8>,
    m: Map<Seq<char>, EntryModel>,
)
    requires
        index_of(recs, bytes) == Some(m),
    ensures
        forall|k: Seq<char>|
            #[trigger] m.contains_key(k) <==> (exists|i: int|
                0 <= i < recs.len() && (#[trigger] recs[i]).type_byte == REGULAR_TYPE
                    && recs[i].path == k),
    decreases recs.len(),
{
    if recs.len() == 0 {
        assert forall|k: Seq<char>| !(#[trigger] m.contains_key(k)) by {
            assert(m == Map::<Seq<char>, EntryModel>::empty());
        }
    } else {
        let pre = recs.drop_last();
        let m0 = index_of(pre, bytes).unwrap();
        lemma_index_of_dom(pre, bytes, m0);
        let r = recs.last();
        assert forall|k: Seq<char>|
            #[trigger] m.contains_key(k) <==> exists|i: int|
                0 <= i < recs.len() && (#[trigger] recs[i]).type_byte == REGULAR_TYPE
                    && recs[i].path == k by {
            if m.contains_key(k) {
                if r.type_byte == REGULAR_TYPE && k == r.path {
                    assert((recs[recs.len() - 1]).type_byte == REGULAR_TYPE && recs[recs.len()
                        - 1].path == k);
                } else {
                    assert(m0.contains_key(k));
                    let i = choose|i: int|
                        0 <= i < pre.len() && (#[trigger] pre[i]).type_byte == REGULAR_TYPE
                            && pre[i].path == k;
                    assert((recs[i]).type_byte == REGULAR_TYPE && recs[i].path == k);
                }
            }
            if exists|i: int|
                0 <= i < recs.len() && (#[trigger] recs[i]).type_byte == REGULAR_TYPE
                    && recs[i].path == k {
                let i = choose|i: int|
                    0 <= i < recs.len() && (#[trigger] recs[i]).type_byte == REGULAR_TYPE
                        && recs[i].path == k;
                if i < recs.len() - 1 {
                    assert((pre[i]).type_byte == REGULAR_TYPE && pre[i].path == k);
                    assert(m0.contains_key(k));
                    assert(m.contains_key(k));
                } else {
                    assert(m.contains_key(k));
                }
            }
        }
    }
}

/// What the index records for a path are the header-declared facts of the
/// last regular record with that path, taken verbatim: its data offset,
/// declared size, declared modification time, and the bytes of its range.
pub proof fn lemma_index_of_last(
    recs: Seq<RecordModel>,
    bytes: Seq<u8>,
    m: Map<Seq<char>, EntryModel>,
    i: int,
)
    requires
        index_of(recs, bytes) == Some(m),
        0 <= i < recs.len(),
        recs[i].type_byte == REGULAR_TYPE,
        forall|j: int|
            i < j < recs.len() ==> !((#[trigger] recs[j]).type_byte == REGULAR_TYPE
                && recs[j].path == recs[i].path),
    ensures
        recs[i].size is Some,
        recs[i].mtime is Some,
        m.contains_key(recs[i].path),
        m[recs[i].path] == (EntryModel {
            start: recs[i].offset,
            len: recs[i].size.unwrap(),
            mtime: recs[i].mtime.unwrap(),
            content: bytes.subrange(
                recs[i].offset as int,
                recs[i].offset + recs[i].size.unwrap(),
            ),
        }),
    decreases recs.len(),
{
    let pre = recs.drop_last();
    let m0 = index_of(pre, bytes).unwrap();
    let r = recs.last();
    if i == recs.len() - 1 {
        assert(m == m0.insert(
            r.path,
            EntryModel {
                start: r.offset,
                len: r.size.unwrap(),
                mtime: r.mtime.unwrap(),
                content: bytes.subrange(r.offset as int, r.offset + r.size.unwrap()),
            },
        ));
    } else {
        assert forall|j: int|
            i < j < pre.len() implies !((#[trigger] pre[j]).type_byte == REGULAR_TYPE
            && pre[j].path == pre[i].path) by {
            assert(pre[j] == recs[j]);
            assert(pre[i] == recs[i]);
        }
        lemma_index_of_last(pre, bytes, m0, i);
        if r.type_byte == REGULAR_TYPE {
            assert(!(recs[recs.len() - 1].type_byte == REGULAR_TYPE && recs[recs.len()
                - 1].path == recs[i].path));
            assert(r.path != recs[i].path);
        }
    }
}

/// Sorted pairs never hold the same path twice.
pub proof fn lemma_sorted_keys_distinct(s: Seq<(String, Entry)>)
    requires
        strict_sorted(dex_keys(s)),
    ensures
        keys_distinct(s),
{
    assert forall|i: int, j: int| 0 <= i < j < s.len() implies (#[trigger] s[i]).0@ != (
    #[trigger] s[j]).0@ by {
        assert(dex_keys(s)[i] == s[i].0@);
        assert(dex_keys(s)[j] == s[j].0@);
        assert(lex_lt(dex_keys(s)[i], dex_keys(s)[j]));
        lemma_lex_lt_ne(s[i].0@, s[j].0@);
    }
}

/// With distinct paths, the denoted mapping holds, at the path of pair
/// `i`, exactly that pair's entry model.
pub proof fn lemma_dex_map_at(s: Seq<(String, Entry)>, i: int)
    requires
        keys_distinct(s),
        0 <= i < s.len(),
    ensures
        dex_map(s).contains_key(s[i].0@),
        dex_map(s)[s[i].0@] == s[i].1.model(),
{
    let k = s[i].0@;
    assert(has_key(s, k));
    let j = key_index(s, k);
    assert(0 <= j < s.len() && s[j].0@ == k);
    if j < i {
        assert(s[j].0@ != s[i].0@);
    } else if i < j {
        assert(s[i].0@ != s[j].0@);
    }
}

/// Once the stream has failed, the whole stream fails.
proof fn lemma_index_of_none_from(recs: Seq<RecordModel>, i: int, bytes: Seq<u8>)
    requires
        0 <= i <= recs.len(),
        index_of(recs.take(i), bytes) is None,
    ensures
        index_of(recs, bytes) is None,
    decreases recs.len() - i,
{
    if i < recs.len() {
        assert(recs.take(i + 1).drop_last() =~= recs.take(i));
        assert(index_of(recs.take(i + 1), bytes) is None);
        lemma_index_of_none_from(recs, i + 1, bytes);
    } else {
        assert(recs.take(i) =~= recs);
    }
}

/// Insert a pair by path order, replacing the pair of the same path if
/// one is there (the newcomer wins).
fn insert_sorted(dex: &mut Vec<(String, Entry)>, path: String, entry: Entry)
    requires
        strict_sorted(dex_keys(old(dex)@)),
        entry.wf(),
        entry.spec_pos() == 0,
        forall|i: int|
            0 <= i < old(dex)@.len() ==> (#[trigger] old(dex)@[i]).1.wf()
                && old(dex)@[i].1.spec_pos() == 0,
    ensures
        strict_sorted(dex_keys(final(dex)@)),
        dex_map(final(dex)@) == dex_map(old(dex)@).insert(path@, entry.model()),
        forall|i: int|
            0 <= i < final(dex)@.len() ==> (#[trigger] final(dex)@[i]).1.wf()
                && final(dex)@[i].1.spec_pos() == 0,
{
    let ghost s0 = dex@;
    let mut i: usize = 0;
    loop
        invariant
            dex@ == s0,
            s0 == old(dex)@,
            strict_sorted(dex_keys(s0)),
            entry.wf(),
            entry.spec_pos() == 0,
            forall|j: int|
                0 <= j < s0.len() ==> (#[trigger] s0[j]).1.wf() && s0[j].1.spec_pos() == 0,
            i <= s0.len(),
            forall|j: int| 0 <= j < i ==> lex_lt(#[trigger] dex_keys(s0)[j], path@),
        decreases s0.len() - i,
    {
        if i == dex.len() {
            dex.push((path, entry));
            proof {
                assert(dex@ =~= s0.insert(s0.len() as int, (path, entry)));
                lemma_dex_insert(s0, s0.len() as int, (path, entry));
            }
            return;
        }
        if str_eq(dex[i].0.as_str(), path.as_str()) {
            dex[i] = (path, entry);
            proof {
                lemma_dex_update(s0, i as int, (path, entry));
            }
            return;
        }
        if lex_lt_exec(path.as_str(), dex[i].0.as_str()) {
            proof {
                assert forall|j: int| i as int <= j < s0.len() implies lex_lt(
                    path@,
                    #[trigger] dex_keys(s0)[j],
                ) by {
                    if j > i as int {
                        lemma_lex_lt_trans(path@, dex_keys(s0)[i as int], dex_keys(s0)[j]);
                    }
                }
            }
            dex.insert(i, (path, entry));
            proof {
                lemma_dex_insert(s0, i as int, (path, entry));
            }
            return;
        }
        proof {
            assert(s0[i as int].0@ != path@);
            lemma_lex_lt_connected(s0[i as int].0@, path@);
            assert(dex_keys(s0)[i as int] == s0[i as int].0@);
        }
        i = i + 1;
    }
}

/// Inserting a pair between its lexical neighbours keeps the order and
/// adds exactly that pair's denotation.
proof fn lemma_dex_insert(s: Seq<(String, Entry)>, i: int, p: (String, Entry))
    requires
        strict_sorted(dex_keys(s)),
        0 <= i <= s.len(),
        forall|j: int| 0 <= j < i ==> lex_lt(#[trigger] dex_keys(s)[j], p.0@),
        forall|j: int| i <= j < s.len() ==> lex_lt(p.0@, #[trigger] dex_keys(s)[j]),
    ensures
        strict_sorted(dex_keys(s.insert(i, p))),
        dex_map(s.insert(i, p)) == dex_map(s).insert(p.0@, p.1.model()),
{
    lemma_sorted_keys_distinct(s);
    let t = s.insert(i, p);
    s.insert_ensures(i, p);
    assert(t.len() == s.len() + 1);
    assert(forall|j: int| 0 <= j < i ==> t[j] == s[j]);
    assert(t[i] == p);
    assert(forall|j: int| i < j < t.len() ==> t[j] == s[j - 1]);

    // order
    assert forall|a: int, b: int| 0 <= a < b < t.len() implies lex_lt(
        #[trigger] dex_keys(t)[a],
        #[trigger] dex_keys(t)[b],
    ) by {
        assert(dex_keys(t)[a] == t[a].0@);
        assert(dex_keys(t)[b] == t[b].0@);
        if a < i && b < i {
            assert(lex_lt(dex_keys(s)[a], dex_keys(s)[b]));
        } else if a < i && b == i {
            assert(lex_lt(dex_keys(s)[a], p.0@));
        } else if a < i && b > i {
            assert(lex_lt(dex_keys(s)[a], dex_keys(s)[b - 1]));
        } else if a == i {
            assert(lex_lt(p.0@, dex_keys(s)[b - 1]));
        } else {
            assert(lex_lt(dex_keys(s)[a - 1], dex_keys(s)[b - 1]));
        }
    }

    // the newcomer's path is fresh
    assert forall|j: int| 0 <= j < s.len() implies s[j].0@ != p.0@ by {
        assert(dex_keys(s)[j] == s[j].0@);
        if j < i {
            lemma_lex_lt_ne(s[j].0@, p.0@);
        } else {
            lemma_lex_lt_ne(p.0@, s[j].0@);
        }
    }

    let m1 = dex_map(t);
    let m2 = dex_map(s).insert(p.0@, p.1.model());
    assert forall|k: Seq<char>| m1.contains_key(k) <==> m2.contains_key(k) by {
        if has_key(t, k) {
            let j = key_index(t, k);
            if j < i {
                assert(s[j].0@ == k);
                assert(has_key(s, k));
            } else if j == i {
                assert(k == p.0@);
            } else {
                assert(s[j - 1].0@ == k);
                assert(has_key(s, k));
            }
        }
        if k == p.0@ {
            assert(t[i].0@ == k);
            assert(has_key(t, k));
        }
        if has_key(s, k) {
            let j = key_index(s, k);
            if j < i {
                assert(t[j].0@ == k);
                assert(has_key(t, k));
            } else {
                assert(t[j + 1].0@ == k);
                assert(has_key(t, k));
            }
        }
    }
    assert forall|k: Seq<char>| m1.contains_key(k) implies m1[k] == m2[k] by {
        let j = key_index(t, k);
        assert(0 <= j < t.len() && t[j].0@ == k);
        if k == p.0@ {
            if j < i {
                assert(s[j].0@ == p.0@);
                assert(false);
            } else if j > i {
                assert(s[j - 1].0@ == p.0@);
                assert(false);
            }
            assert(m1[k] == p.1.model());
        } else {
            assert(j != i);
            if j < i {
                assert(s[j].0@ == k);
                lemma_dex_map_at(s, j);
                let j2 = key_index(s, k);
                assert(m1[k] == t[j].1.model());
                assert(m2[k] == dex_map(s)[k]);
                assert(dex_map(s)[k] == s[j2].1.model());
                if j2 != j {
                    assert(s[j2].0@ == k && s[j].0@ == k);
                    assert(false);
                }
            } else {
                assert(s[j - 1].0@ == k);
                lemma_dex_map_at(s, j - 1);
                let j2 = key_index(s, k);
                assert(m1[k] == t[j].1.model());
                assert(m2[k] == dex_map(s)[k]);
                assert(dex_map(s)[k] == s[j2].1.model());
                if j2 != j - 1 {
                    assert(s[j2].0@ == k && s[j - 1].0@ == k);
                    assert(false);
                }
            }
        }
    }
    assert(m1 =~= m2);
}

/// Replacing the pair of a path keeps the order and re-points that path's
/// denotation at the newcomer.
proof fn lemma_dex_update(s: Seq<(String, Entry)>, i: int, p: (String, Entry))
    requires
        strict_sorted(dex_keys(s)),
        0 <= i < s.len(),
        s[i].0@ == p.0@,
    ensures
        strict_sorted(dex_keys(s.update(i, p))),
        dex_map(s.update(i, p)) == dex_map(s).insert(p.0@, p.1.model()),
{
    lemma_sorted_keys_distinct(s);
    let t = s.update(i, p);
    assert(t.len() == s.len());
    assert(forall|j: int| 0 <= j < t.len() && j != i ==> t[j] == s[j]);
    assert(t[i] == p);

    assert(dex_keys(t) =~= dex_keys(s));
    let m1 = dex_map(t);
    let m2 = dex_map(s).insert(p.0@, p.1.model());
    assert forall|k: Seq<char>| m1.contains_key(k) <==> m2.contains_key(k) by {
        if has_key(t, k) {
            let j = key_index(t, k);
            if j == i {
                assert(k == p.0@);
                assert(s[i].0@ == k);
            } else {
                assert(s[j].0@ == k);
            }
            assert(has_key(s, k));
        }
        if has_key(s, k) {
            let j = key_index(s, k);
            if j == i {
                assert(t[i].0@ == p.0@);
                assert(t[i].0@ == k);
            } else {
                assert(t[j].0@ == k);
            }
            assert(has_key(t, k));
        }
    }
    assert forall|k: Seq<char>| m1.contains_key(k) implies m1[k] == m2[k] by {
        let j = key_index(t, k);
        assert(0 <= j < t.len() && t[j].0@ == k);
        if k == p.0@ {
            if j != i {
                assert(t[j] == s[j]);
                assert(s[j].0@ == k && s[i].0@ == k);
                assert(false);
            }
            assert(m1[k] == p.1.model());
        } else {
            assert(j != i);
            assert(s[j].0@ == k);
            lemma_dex_map_at(s, j);
            let j2 = key_index(s, k);
            if j2 != j {
                assert(s[j2].0@ == k && s[j].0@ == k);
                assert(false);
            }
            assert(m1[k] == t[j].1.model());
            assert(m2[k] == s[j].1.model());
        }
    }
    assert(m1 =~= m2);
}

} // verus!
