//! The in-memory table store: a mapping from table name to a deduplicated
//! collection of documents, with the uniqueness and identity rules the
//! mutation logic enforces.

use vstd::prelude::*;

use crate::errors::DbError;
use crate::value::{chars_eq, copy_chars, doc_id, JsonValue, Jv};

verus! {

/// The mathematical shape of a store: named tables, each a sequence of
/// document values.
pub type StoreV = Seq<(Seq<char>, Seq<Jv>)>;

/// The values denoted by a sequence of document trees.
pub open spec fn docs_view(docs: Seq<JsonValue>) -> Seq<Jv> {
    docs.map_values(|d: JsonValue| d@)
}

/// The index of the first table named `name`, or `-1` when there is none.
pub open spec fn store_idx(s: StoreV, name: Seq<char>) -> int
    decreases s.len(),
{
    if s.len() == 0 {
        -1
    } else if s[0].0 == name {
        0
    } else {
        let r = store_idx(s.skip(1), name);
        if r < 0 {
            -1
        } else {
            r + 1
        }
    }
}

/// The contents of the table named `name`, if it exists.
pub open spec fn store_get(s: StoreV, name: Seq<char>) -> Option<Seq<Jv>> {
    let i = store_idx(s, name);
    if 0 <= i < s.len() {
        Some(s[i].1)
    } else {
        None
    }
}

/// The contents a drain seeds its working result from: the named table's
/// documents, or nothing when the table is absent.
pub open spec fn seed(s: StoreV, name: Seq<char>) -> Seq<Jv> {
    match store_get(s, name) {
        Some(docs) => docs,
        None => Seq::empty(),
    }
}

/// A table's twofold uniqueness: no two structurally identical documents,
/// and no two documents sharing an identity.
pub open spec fn docs_unique(docs: Seq<Jv>) -> bool {
    forall|i: int, j: int|
        0 <= i < j < docs.len() ==> docs[i] != docs[j] && !(doc_id(docs[i]) is Some
            && doc_id(docs[i]) == doc_id(docs[j]))
}

/// Well-formedness of a store: table names are unique and every table obeys
/// the twofold uniqueness rule.
pub open spec fn store_wf(s: StoreV) -> bool {
    &&& forall|i: int, j: int| 0 <= i < j < s.len() ==> s[i].0 != s[j].0
    &&& forall|i: int| 0 <= i < s.len() ==> docs_unique(#[trigger] s[i].1)
}

/// `store_idx` points at the table and no earlier table carries the name.
pub proof fn lemma_store_idx(s: StoreV, name: Seq<char>)
    ensures
        store_idx(s, name) >= 0 ==> {
            &&& store_idx(s, name) < s.len()
            &&& s[store_idx(s, name)].0 == name
            &&& forall|k: int| 0 <= k < store_idx(s, name) ==> s[k].0 != name
        },
        store_idx(s, name) < 0 ==> forall|k: int| 0 <= k < s.len() ==> s[k].0 != name,
    decreases s.len(),
{
    if s.len() > 0 && s[0].0 != name {
        lemma_store_idx(s.skip(1), name);
        let q = s.skip(1);
        if store_idx(q, name) >= 0 {
            assert forall|k: int| 0 <= k < store_idx(s, name) implies s[k].0 != name by {
                if k >= 1 {
                    assert(q[k - 1].0 != name);
                }
            }
        } else {
            assert forall|k: int| 0 <= k < s.len() implies s[k].0 != name by {
                if k >= 1 {
                    assert(q[k - 1].0 != name);
                }
            }
        }
    }
}

/// What a create does to the store: reject a missing identity, a missing
/// table (unless created on demand), and a structural or identity duplicate;
/// otherwise add the document to the table.
pub open spec fn spec_insert(s: StoreV, name: Seq<char>, doc: Jv, create_missing: bool) -> Result<
    StoreV,
    DbError,
> {
    if doc_id(doc) is None {
        Err(DbError::PathNotFound)
    } else {
        let i = store_idx(s, name);
        if i < 0 {
            if create_missing {
                Ok(s.push((name, seq![doc])))
            } else {
                Err(DbError::TableNotFound)
            }
        } else {
            let docs = s[i].1;
            if exists|k: int| 0 <= k < docs.len() && docs[k] == doc {
                Err(DbError::RecordAlreadyExists)
            } else if exists|k: int|
                0 <= k < docs.len() && doc_id(#[trigger] docs[k]) == doc_id(doc) {
                Err(DbError::RecordAlreadyExists)
            } else {
                Ok(s.update(i, (s[i].0, docs.push(doc))))
            }
        }
    }
}

/// The documents of `docs` whose identity is not `did`.
pub open spec fn remove_id(docs: Seq<Jv>, did: Seq<char>) -> Seq<Jv>
    decreases docs.len(),
{
    if docs.len() == 0 {
        Seq::empty()
    } else if doc_id(docs[0]) == Some(did) {
        remove_id(docs.skip(1), did)
    } else {
        seq![docs[0]] + remove_id(docs.skip(1), did)
    }
}

/// Whether some document of `result` carries the identity of `d`.
pub open spec fn id_in_result(d: Jv, result: Seq<Jv>) -> bool {
    doc_id(d) is Some && exists|k: int|
        0 <= k < result.len() && doc_id(#[trigger] result[k]) == doc_id(d)
}

/// The documents of `docs` whose identity no document of `result` carries.
pub open spec fn remove_matching(docs: Seq<Jv>, result: Seq<Jv>) -> Seq<Jv>
    decreases docs.len(),
{
    if docs.len() == 0 {
        Seq::empty()
    } else if id_in_result(docs[0], result) {
        remove_matching(docs.skip(1), result)
    } else {
        seq![docs[0]] + remove_matching(docs.skip(1), result)
    }
}

/// What an update does to the store: the supplied document must carry an
/// identity that some document of the filtered working result shares; every
/// document of the table with that identity is replaced by the new document.
pub open spec fn spec_update(s: StoreV, name: Seq<char>, doc: Jv, result: Seq<Jv>) -> Result<
    StoreV,
    DbError,
> {
    match doc_id(doc) {
        None => Err(DbError::PathNotFound),
        Some(did) => {
            if !(exists|k: int|
                0 <= k < result.len() && doc_id(#[trigger] result[k]) == Some(did)) {
                Err(DbError::RecordNotFound)
            } else {
                let i = store_idx(s, name);
                if i < 0 {
                    Err(DbError::TableNotFound)
                } else {
                    Ok(s.update(i, (s[i].0, remove_id(s[i].1, did).push(doc))))
                }
            }
        },
    }
}

/// What a delete does to the store: every document of the table sharing an
/// identity with a document of the filtered working result is removed.
pub open spec fn spec_delete(s: StoreV, name: Seq<char>, result: Seq<Jv>) -> Result<
    StoreV,
    DbError,
> {
    let i = store_idx(s, name);
    if i < 0 {
        Err(DbError::TableNotFound)
    } else {
        Ok(s.update(i, (s[i].0, remove_matching(s[i].1, result))))
    }
}

/// Removal by identity keeps only documents of the original collection, none
/// with the removed identity, and preserves the uniqueness rules.
pub proof fn lemma_remove_id_props(docs: Seq<Jv>, did: Seq<char>)
    ensures
        forall|x: Jv|
            #[trigger] remove_id(docs, did).contains(x) ==> docs.contains(x) && doc_id(x)
                != Some(did),
        docs_unique(docs) ==> docs_unique(remove_id(docs, did)),
    decreases docs.len(),
{
    if docs.len() > 0 {
        let tail = docs.skip(1);
        lemma_remove_id_props(tail, did);
        assert(forall|k: int| 0 <= k < tail.len() ==> tail[k] == docs[k + 1]);
        assert forall|x: Jv| #[trigger] tail.contains(x) implies docs.contains(x) by {
            let k = choose|k: int| 0 <= k < tail.len() && tail[k] == x;
            assert(docs[k + 1] == x);
        }
        if docs_unique(docs) {
            assert(docs_unique(tail));
        }
        if doc_id(docs[0]) != Some(did) {
            let rest = remove_id(tail, did);
            let whole = seq![docs[0]] + rest;
            assert(whole[0] == docs[0]);
            assert(forall|k: int| 0 <= k < rest.len() ==> whole[k + 1] == rest[k]);
            assert forall|x: Jv| #[trigger] whole.contains(x) implies docs.contains(x)
                && doc_id(x) != Some(did) by {
                let k = choose|k: int| 0 <= k < whole.len() && whole[k] == x;
                if k == 0 {
                    assert(docs.contains(docs[0])) by {
                        assert(docs[0] == docs[0]);
                    }
                } else {
                    assert(rest[k - 1] == x);
                    assert(rest.contains(x));
                }
            }
            if docs_unique(docs) {
                assert forall|i: int, j: int| 0 <= i < j < whole.len() implies whole[i]
                    != whole[j] && !(doc_id(whole[i]) is Some && doc_id(whole[i]) == doc_id(
                    whole[j],
                )) by {
                    if i == 0 {
                        assert(rest[j - 1] == whole[j]);
                        assert(rest.contains(whole[j]));
                        assert(tail.contains(whole[j]));
                        let k = choose|k: int| 0 <= k < tail.len() && tail[k] == whole[j];
                        assert(docs[k + 1] == whole[j]);
                    } else {
                        assert(rest[i - 1] == whole[i]);
                        assert(rest[j - 1] == whole[j]);
                        assert(docs_unique(rest));
                    }
                }
            }
        }
    }
}

/// Removal by result identities keeps only documents of the original
/// collection, none whose identity the result carries, and preserves the
/// uniqueness rules.
pub proof fn lemma_remove_matching_props(docs: Seq<Jv>, result: Seq<Jv>)
    ensures
        forall|x: Jv|
            #[trigger] remove_matching(docs, result).contains(x) ==> docs.contains(x)
                && !id_in_result(x, result),
        docs_unique(docs) ==> docs_unique(remove_matching(docs, result)),
    decreases docs.len(),
{
    if docs.len() > 0 {
        let tail = docs.skip(1);
        lemma_remove_matching_props(tail, result);
        assert(forall|k: int| 0 <= k < tail.len() ==> tail[k] == docs[k + 1]);
        assert forall|x: Jv| #[trigger] tail.contains(x) implies docs.contains(x) by {
            let k = choose|k: int| 0 <= k < tail.len() && tail[k] == x;
            assert(docs[k + 1] == x);
        }
        if docs_unique(docs) {
            assert(docs_unique(tail));
        }
        if !id_in_result(docs[0], result) {
            let rest = remove_matching(tail, result);
            let whole = seq![docs[0]] + rest;
            assert(whole[0] == docs[0]);
            assert(forall|k: int| 0 <= k < rest.len() ==> whole[k + 1] == rest[k]);
            assert forall|x: Jv| #[trigger] whole.contains(x) implies docs.contains(x)
                && !id_in_result(x, result) by {
                let k = choose|k: int| 0 <= k < whole.len() && whole[k] == x;
                if k == 0 {
                    assert(docs.contains(docs[0])) by {
                        assert(docs[0] == docs[0]);
                    }
                } else {
                    assert(rest[k - 1] == x);
                    assert(rest.contains(x));
                }
            }
            if docs_unique(docs) {
                assert forall|i: int, j: int| 0 <= i < j < whole.len() implies whole[i]
                    != whole[j] && !(doc_id(whole[i]) is Some && doc_id(whole[i]) == doc_id(
                    whole[j],
                )) by {
                    if i == 0 {
                        assert(rest[j - 1] == whole[j]);
                        assert(rest.contains(whole[j]));
                        assert(tail.contains(whole[j]));
                        let k = choose|k: int| 0 <= k < tail.len() && tail[k] == whole[j];
                        assert(docs[k + 1] == whole[j]);
                    } else {
                        assert(rest[i - 1] == whole[i]);
                        assert(rest[j - 1] == whole[j]);
                        assert(docs_unique(rest));
                    }
                }
            }
        }
    }
}

/// The in-memory table store.
#[derive(Debug)]
pub struct Store {
    tables: Vec<(Vec<char>, Vec<JsonValue>)>,
}

impl View for Store {
    type V = StoreV;

    closed spec fn view(&self) -> StoreV {
        self.tables@.map_values(|t: (Vec<char>, Vec<JsonValue>)| (t.0@, docs_view(t.1@)))
    }
}

impl Store {
    /// A store with no tables.
    pub fn empty() -> (s: Store)
        ensures
            s@ == StoreV::empty(),
            store_wf(s@),
    {
        let s = Store { tables: Vec::new() };
        proof {
            assert(s@ =~= StoreV::empty());
        }
        s
    }

    /// The position of the table named `name`.
    pub fn find_table(&self, name: &Vec<char>) -> (r: Option<usize>)
        ensures
            match r {
                Some(j) => {
                    &&& 0 <= store_idx(self@, name@) == j < self@.len()
                    &&& self@[j as int].0 == name@
                },
                None => store_idx(self@, name@) < 0,
            },
    {
        let ghost sv = self@;
        let mut i: usize = 0;
        proof {
            assert(sv.len() == self.tables@.len());
            lemma_store_idx(sv, name@);
        }
        while i < self.tables.len()
            invariant
                sv == self@,
                sv.len() == self.tables@.len(),
                i <= sv.len(),
                forall|k: int| 0 <= k < i ==> sv[k].0 != name@,
                forall|k: int| 0 <= k < sv.len() ==> sv[k].0 == self.tables@[k].0@,
            decreases sv.len() - i,
        {
            if crate::value::chars_eq(&self.tables[i].0, name) {
                proof {
                    lemma_store_idx(sv, name@);
                    assert(sv[i as int].0 == name@);
                    let idx = store_idx(sv, name@);
                    if idx < 0 {
                        assert(sv[i as int].0 != name@);
                    }
                    if 0 <= idx < i {
                        assert(sv[idx].0 != name@);
                    }
                    if idx > i {
                        assert(sv[i as int].0 != name@);
                    }
                }
                return Some(i);
            }
            i += 1;
        }
        proof {
            lemma_store_idx(sv, name@);
        }
        None
    }

    /// How many tables the store holds.
    pub fn table_count(&self) -> (n: usize)
        ensures
            n == self@.len(),
    {
        self.tables.len()
    }

    /// The name of the table at `i`.
    pub fn table_name(&self, i: usize) -> (r: Vec<char>)
        requires
            i < self@.len(),
        ensures
            r@ == self@[i as int].0,
    {
        copy_chars(&self.tables[i].0)
    }

    /// Copies of the documents of the table at `i`.
    pub fn table_docs(&self, i: usize) -> (r: Vec<JsonValue>)
        requires
            i < self@.len(),
        ensures
            docs_view(r@) == self@[i as int].1,
    {
        let docs = &self.tables[i].1;
        let mut out: Vec<JsonValue> = Vec::new();
        let mut j: usize = 0;
        while j < docs.len()
            invariant
                j <= docs@.len(),
                out@.len() == j,
                forall|k: int| 0 <= k < j ==> out@[k]@ == docs@[k]@,
            decreases docs@.len() - j,
        {
            out.push(docs[j].deep_copy());
            j += 1;
        }
        proof {
            assert(docs_view(out@) =~= self@[i as int].1);
        }
        out
    }

    /// Copies of the named table's documents, or nothing when the table is
    /// absent: what a drain seeds its working result from.
    pub fn seed_docs(&self, name: &Vec<char>) -> (r: Vec<JsonValue>)
        ensures
            docs_view(r@) == seed(self@, name@),
    {
        match self.find_table(name) {
            Some(i) => self.table_docs(i),
            None => {
                let r: Vec<JsonValue> = Vec::new();
                proof {
                    assert(docs_view(r@) =~= Seq::<Jv>::empty());
                }
                r
            },
        }
    }

    /// Adds an empty table named `name`; a present name is left untouched.
    pub fn add_table(&mut self, name: &Vec<char>)
        ensures
            store_idx(old(self)@, name@) >= 0 ==> final(self)@ == old(self)@,
            store_idx(old(self)@, name@) < 0 ==> final(self)@ == old(self)@.push(
                (name@, Seq::empty()),
            ),
            store_wf(old(self)@) ==> store_wf(final(self)@),
    {
        let ghost osv = self@;
        match self.find_table(name) {
            Some(_) => {
            },
            None => {
                proof {
                    lemma_store_idx(osv, name@);
                }
                let fresh: Vec<JsonValue> = Vec::new();
                proof {
                    assert(docs_view(fresh@) =~= Seq::<Jv>::empty());
                }
                self.tables.push((copy_chars(name), fresh));
                proof {
                    assert(self@ =~= osv.push((name@, Seq::<Jv>::empty())));
                    if store_wf(osv) {
                        let nsv = self@;
                        assert forall|i: int, j: int| 0 <= i < j < nsv.len() implies nsv[i].0
                            != nsv[j].0 by {
                            if j == nsv.len() - 1 {
                                assert(nsv[i].0 == osv[i].0);
                            }
                        }
                        assert forall|i: int| 0 <= i < nsv.len() implies docs_unique(
                            #[trigger] nsv[i].1,
                        ) by {
                            if i < osv.len() {
                                assert(nsv[i].1 == osv[i].1);
                            } else {
                                assert(nsv[i].1 =~= Seq::<Jv>::empty());
                            }
                        }
                    }
                }
            },
        }
    }
    /// Swaps in a new document collection for the table at `i`.
    fn replace_docs(&mut self, i: usize, docs: Vec<JsonValue>)
        requires
            i < old(self)@.len(),
        ensures
            final(self)@ == old(self)@.update(
                i as int,
                (old(self)@[i as int].0, docs_view(docs@)),
            ),
    {
        let ghost osv = self@;
        let ghost dv = docs_view(docs@);
        let mut pair = self.tables.remove(i);
        pair.1 = docs;
        self.tables.insert(i, pair);
        proof {
            assert forall|k: int| 0 <= k < self@.len() implies self@[k] == osv.update(
                i as int,
                (osv[i as int].0, dv),
            )[k] by {
                if k < i {
                    assert(self.tables@[k] == old(self).tables@[k]);
                } else if k == i {
                    assert(self.tables@[k] == pair);
                } else {
                    assert(self.tables@[k] == old(self).tables@[k]);
                }
            }
            assert(self@ =~= osv.update(i as int, (osv[i as int].0, dv)));
        }
    }

    /// Whether some document of `result` carries the identity `tid`.
    fn result_has_id(result: &Vec<JsonValue>, tid: &Vec<char>) -> (b: bool)
        ensures
            b == exists|k: int|
                0 <= k < result@.len() && doc_id(#[trigger] docs_view(result@)[k]) == Some(tid@),
    {
        let ghost rv = docs_view(result@);
        let mut k: usize = 0;
        while k < result.len()
            invariant
                rv == docs_view(result@),
                rv.len() == result@.len(),
                k <= result@.len(),
                forall|m: int| 0 <= m < k ==> doc_id(#[trigger] rv[m]) != Some(tid@),
            decreases result@.len() - k,
        {
            proof {
                assert(rv[k as int] == result@[k as int]@);
            }
            match result[k].get_id() {
                Some(rid) => {
                    if crate::value::chars_eq(&rid, tid) {
                        proof {
                            assert(doc_id(rv[k as int]) == Some(tid@));
                        }
                        return true;
                    }
                },
                None => {
                },
            }
            k += 1;
        }
        false
    }

    /// Applies a create: rejects a missing identity, a missing table (unless
    /// created on demand), and a structural or identity duplicate; otherwise
    /// adds the document.
    pub fn insert_doc(&mut self, name: &Vec<char>, doc: JsonValue, create_missing: bool) -> (r:
        Result<(), DbError>)
        ensures
            match r {
                Ok(_) => spec_insert(old(self)@, name@, doc@, create_missing) == Ok::<
                    StoreV,
                    DbError,
                >(final(self)@),
                Err(e) => spec_insert(old(self)@, name@, doc@, create_missing) == Err::<
                    StoreV,
                    DbError,
                >(e) && final(self)@ == old(self)@,
            },
            store_wf(old(self)@) && r is Ok ==> store_wf(final(self)@),
    {
        let ghost osv = self@;
        let did = match doc.get_id() {
            Some(did) => did,
            None => {
                return Err(DbError::PathNotFound);
            },
        };
        match self.find_table(name) {
            None => {
                if create_missing {
                    let mut fresh: Vec<JsonValue> = Vec::new();
                    let ghost dv = doc@;
                    fresh.push(doc);
                    self.tables.push((copy_chars(name), fresh));
                    proof {
                        assert(docs_view(fresh@) =~= seq![dv]);
                        assert(self@ =~= osv.push((name@, seq![dv])));
                        if store_wf(osv) {
                            lemma_store_idx(osv, name@);
                            let nsv = self@;
                            assert forall|i: int, j: int| 0 <= i < j < nsv.len() implies nsv[i].0
                                != nsv[j].0 by {
                                if j == nsv.len() - 1 {
                                    assert(nsv[i].0 == osv[i].0);
                                }
                            }
                            assert forall|i: int| 0 <= i < nsv.len() implies docs_unique(
                                #[trigger] nsv[i].1,
                            ) by {
                                if i < osv.len() {
                                    assert(nsv[i].1 == osv[i].1);
                                }
                            }
                        }
                    }
                    Ok(())
                } else {
                    Err(DbError::TableNotFound)
                }
            },
            Some(i) => {
                let ghost gdocs = osv[i as int].1;
                let ghost dv = doc@;
                proof {
                    assert(osv[i as int].1 == docs_view(self.tables@[i as int].1@));
                }
                let mut k: usize = 0;
                let n = self.tables[i].1.len();
                while k < n
                    invariant
                        osv == old(self)@,
                        self@ == osv,
                        0 <= store_idx(osv, name@) == i < osv.len(),
                        gdocs == osv[i as int].1,
                        i < self.tables@.len(),
                        gdocs == docs_view(self.tables@[i as int].1@),
                        n == self.tables@[i as int].1@.len(),
                        gdocs.len() == n,
                        k <= n,
                        dv == doc@,
                        doc_id(dv) == Some(did@),
                        forall|m: int|
                            0 <= m < k ==> #[trigger] gdocs[m] != dv && doc_id(gdocs[m])
                                != doc_id(dv),
                    decreases n - k,
                {
                    proof {
                        assert(gdocs[k as int] == self.tables@[i as int].1@[k as int]@);
                    }
                    if self.tables[i].1[k].deep_eq(&doc) {
                        proof {
                            assert(gdocs[k as int] == dv);
                        }
                        return Err(DbError::RecordAlreadyExists);
                    }
                    match self.tables[i].1[k].get_id() {
                        Some(kid) => {
                            if crate::value::chars_eq(&kid, &did) {
                                proof {
                                    assert(doc_id(gdocs[k as int]) == doc_id(dv));
                                }
                                return Err(DbError::RecordAlreadyExists);
                            }
                        },
                        None => {
                        },
                    }
                    k += 1;
                }
                let mut grown = self.table_docs(i);
                grown.push(doc);
                proof {
                    assert(docs_view(grown@) =~= gdocs.push(dv));
                }
                self.replace_docs(i, grown);
                proof {
                    assert(final(self)@ == osv.update(i as int, (osv[i as int].0, gdocs.push(dv))));
                    if store_wf(osv) {
                        let nsv = self@;
                        let ndocs = gdocs.push(dv);
                        assert(docs_unique(ndocs)) by {
                            assert forall|a: int, b: int| 0 <= a < b < ndocs.len() implies ndocs[a]
                                != ndocs[b] && !(doc_id(ndocs[a]) is Some && doc_id(ndocs[a])
                                == doc_id(ndocs[b])) by {
                                if b == ndocs.len() - 1 {
                                    assert(ndocs[a] == gdocs[a]);
                                    assert(ndocs[b] == dv);
                                } else {
                                    assert(ndocs[a] == gdocs[a]);
                                    assert(ndocs[b] == gdocs[b]);
                                    assert(docs_unique(gdocs));
                                }
                            }
                        }
                        assert forall|a: int, b: int| 0 <= a < b < nsv.len() implies nsv[a].0
                            != nsv[b].0 by {
                            assert(nsv[a].0 == osv[a].0);
                            assert(nsv[b].0 == osv[b].0);
                        }
                        assert forall|a: int| 0 <= a < nsv.len() implies docs_unique(
                            #[trigger] nsv[a].1,
                        ) by {
                            if a != i {
                                assert(nsv[a].1 == osv[a].1);
                            }
                        }
                    }
                }
                Ok(())
            },
        }
    }

    /// Applies an update: the supplied document must carry an identity shared
    /// by some document of the filtered working result; every document of the
    /// table with that identity is replaced by the new document.
    pub fn update_doc(&mut self, name: &Vec<char>, doc: JsonValue, result: &Vec<JsonValue>) -> (r:
        Result<(), DbError>)
        ensures
            match r {
                Ok(_) => spec_update(old(self)@, name@, doc@, docs_view(result@)) == Ok::<
                    StoreV,
                    DbError,
                >(final(self)@),
                Err(e) => spec_update(old(self)@, name@, doc@, docs_view(result@)) == Err::<
                    StoreV,
                    DbError,
                >(e) && final(self)@ == old(self)@,
            },
            store_wf(old(self)@) && r is Ok ==> store_wf(final(self)@),
    {
        let ghost osv = self@;
        let did = match doc.get_id() {
            Some(did) => did,
            None => {
                return Err(DbError::PathNotFound);
            },
        };
        if !Self::result_has_id(result, &did) {
            return Err(DbError::RecordNotFound);
        }
        let i = match self.find_table(name) {
            Some(i) => i,
            None => {
                return Err(DbError::TableNotFound);
            },
        };
        let ghost gdocs = osv[i as int].1;
        let ghost dv = doc@;
        proof {
            assert(osv[i as int].1 == docs_view(self.tables@[i as int].1@));
        }
        let mut kept: Vec<JsonValue> = Vec::new();
        let mut k: usize = 0;
        let n = self.tables[i].1.len();
        proof {
            assert(gdocs.skip(0) =~= gdocs);
        }
        while k < n
            invariant
                i < self.tables@.len(),
                gdocs == docs_view(self.tables@[i as int].1@),
                n == self.tables@[i as int].1@.len(),
                gdocs.len() == n,
                k <= n,
                remove_id(gdocs, did@) == docs_view(kept@) + remove_id(
                    gdocs.skip(k as int),
                    did@,
                ),
            decreases n - k,
        {
            proof {
                assert(gdocs[k as int] == self.tables@[i as int].1@[k as int]@);
                assert(gdocs.skip(k as int).len() == n - k);
                assert(gdocs.skip(k as int)[0] == gdocs[k as int]);
                assert(gdocs.skip(k as int).skip(1) =~= gdocs.skip(k as int + 1));
            }
            let keep = match self.tables[i].1[k].get_id() {
                Some(kid) => !crate::value::chars_eq(&kid, &did),
                None => true,
            };
            if keep {
                let ghost kv0 = docs_view(kept@);
                kept.push(self.tables[i].1[k].deep_copy());
                proof {
                    assert(docs_view(kept@) =~= kv0.push(gdocs[k as int]));
                    assert(kv0.push(gdocs[k as int]) + remove_id(gdocs.skip(k as int + 1), did@)
                        =~= kv0 + (seq![gdocs[k as int]] + remove_id(
                        gdocs.skip(k as int + 1),
                        did@,
                    )));
                }
            }
            k += 1;
        }
        proof {
            assert(gdocs.skip(n as int) =~= Seq::<Jv>::empty());
            assert(docs_view(kept@) + Seq::<Jv>::empty() =~= docs_view(kept@));
            assert(remove_id(gdocs, did@) == docs_view(kept@));
        }
        let ghost keptv = docs_view(kept@);
        kept.push(doc);
        proof {
            assert(docs_view(kept@) =~= keptv.push(dv));
        }
        self.replace_docs(i, kept);
        proof {
            assert(final(self)@ == osv.update(
                i as int,
                (osv[i as int].0, remove_id(gdocs, did@).push(dv)),
            ));
            if store_wf(osv) {
                lemma_remove_id_props(gdocs, did@);
                let nsv = self@;
                let ndocs = remove_id(gdocs, did@).push(dv);
                let rem = remove_id(gdocs, did@);
                assert(docs_unique(gdocs));
                assert(docs_unique(rem));
                assert(docs_unique(ndocs)) by {
                    assert forall|a: int, b: int| 0 <= a < b < ndocs.len() implies ndocs[a]
                        != ndocs[b] && !(doc_id(ndocs[a]) is Some && doc_id(ndocs[a]) == doc_id(
                        ndocs[b],
                    )) by {
                        if b == ndocs.len() - 1 {
                            assert(ndocs[a] == rem[a]);
                            assert(ndocs[b] == dv);
                            assert(rem.contains(rem[a]));
                            assert(doc_id(rem[a]) != Some(did@));
                        } else {
                            assert(ndocs[a] == rem[a]);
                            assert(ndocs[b] == rem[b]);
                        }
                    }
                }
                assert forall|a: int, b: int| 0 <= a < b < nsv.len() implies nsv[a].0
                    != nsv[b].0 by {
                    assert(nsv[a].0 == osv[a].0);
                    assert(nsv[b].0 == osv[b].0);
                }
                assert forall|a: int| 0 <= a < nsv.len() implies docs_unique(
                    #[trigger] nsv[a].1,
                ) by {
                    if a != i {
                        assert(nsv[a].1 == osv[a].1);
                    }
                }
            }
        }
        Ok(())
    }

    /// Applies a delete: every document of the table sharing an identity with
    /// a document of the filtered working result is removed.
    pub fn delete_docs(&mut self, name: &Vec<char>, result: &Vec<JsonValue>) -> (r: Result<
        (),
        DbError,
    >)
        ensures
            match r {
                Ok(_) => spec_delete(old(self)@, name@, docs_view(result@)) == Ok::<
                    StoreV,
                    DbError,
                >(final(self)@),
                Err(e) => spec_delete(old(self)@, name@, docs_view(result@)) == Err::<
                    StoreV,
                    DbError,
                >(e) && final(self)@ == old(self)@,
            },
            store_wf(old(self)@) && r is Ok ==> store_wf(final(self)@),
    {
        let ghost osv = self@;
        let ghost rv = docs_view(result@);
        let i = match self.find_table(name) {
            Some(i) => i,
            None => {
                return Err(DbError::TableNotFound);
            },
        };
        let ghost gdocs = osv[i as int].1;
        proof {
            assert(osv[i as int].1 == docs_view(self.tables@[i as int].1@));
        }
        let mut kept: Vec<JsonValue> = Vec::new();
        let mut k: usize = 0;
        let n = self.tables[i].1.len();
        proof {
            assert(gdocs.skip(0) =~= gdocs);
        }
        while k < n
            invariant
                i < self.tables@.len(),
                rv == docs_view(result@),
                gdocs == docs_view(self.tables@[i as int].1@),
                n == self.tables@[i as int].1@.len(),
                gdocs.len() == n,
                k <= n,
                remove_matching(gdocs, rv) == docs_view(kept@) + remove_matching(
                    gdocs.skip(k as int),
                    rv,
                ),
            decreases n - k,
        {
            proof {
                assert(gdocs[k as int] == self.tables@[i as int].1@[k as int]@);
                assert(gdocs.skip(k as int).len() == n - k);
                assert(gdocs.skip(k as int)[0] == gdocs[k as int]);
                assert(gdocs.skip(k as int).skip(1) =~= gdocs.skip(k as int + 1));
            }
            let keep = match self.tables[i].1[k].get_id() {
                Some(tid) => !Self::result_has_id(result, &tid),
                None => true,
            };
            proof {
                assert(keep == !id_in_result(gdocs[k as int], rv));
            }
            if keep {
                let ghost kv0 = docs_view(kept@);
                kept.push(self.tables[i].1[k].deep_copy());
                proof {
                    assert(docs_view(kept@) =~= kv0.push(gdocs[k as int]));
                    assert(kv0.push(gdocs[k as int]) + remove_matching(
                        gdocs.skip(k as int + 1),
                        rv,
                    ) =~= kv0 + (seq![gdocs[k as int]] + remove_matching(
                        gdocs.skip(k as int + 1),
                        rv,
                    )));
                }
            }
            k += 1;
        }
        proof {
            assert(gdocs.skip(n as int) =~= Seq::<Jv>::empty());
            assert(docs_view(kept@) + Seq::<Jv>::empty() =~= docs_view(kept@));
            assert(remove_matching(gdocs, rv) == docs_view(kept@));
        }
        self.replace_docs(i, kept);
        proof {
            assert(final(self)@ == osv.update(
                i as int,
                (osv[i as int].0, remove_matching(gdocs, rv)),
            ));
            if store_wf(osv) {
                lemma_remove_matching_props(gdocs, rv);
                let nsv = self@;
                assert(docs_unique(gdocs));
                assert forall|a: int, b: int| 0 <= a < b < nsv.len() implies nsv[a].0
                    != nsv[b].0 by {
                    assert(nsv[a].0 == osv[a].0);
                    assert(nsv[b].0 == osv[b].0);
                }
                assert forall|a: int| 0 <= a < nsv.len() implies docs_unique(
                    #[trigger] nsv[a].1,
                ) by {
                    if a != i {
                        assert(nsv[a].1 == osv[a].1);
                    }
                }
            }
        }
        Ok(())
    }
}

/// The store as one JSON value: the top-level object mapping each table
/// name to the array of its documents.
pub open spec fn store_jv(sv: StoreV) -> Jv {
    Jv::Obj(sv.map_values(|t: (Seq<char>, Seq<Jv>)| (t.0, Jv::Arr(t.1))))
}

/// Two stores with the same JSON value are the same store.
pub proof fn lemma_store_jv_inj(a: StoreV, b: StoreV)
    requires
        store_jv(a) == store_jv(b),
    ensures
        a == b,
{
    let fa = store_jv(a)->Obj_0;
    let fb = store_jv(b)->Obj_0;
    assert(fa.len() == a.len());
    assert(fb.len() == b.len());
    assert forall|i: int| 0 <= i < a.len() implies a[i] == b[i] by {
        assert(fa[i] == (a[i].0, Jv::Arr(a[i].1)));
        assert(fb[i] == (b[i].0, Jv::Arr(b[i].1)));
    }
    assert(a =~= b);
}

/// Whether a document collection obeys the twofold uniqueness rule, decided
/// by pairwise comparison.
fn check_docs_unique(docs: &Vec<JsonValue>) -> (r: bool)
    ensures
        r == docs_unique(docs_view(docs@)),
{
    let ghost dv = docs_view(docs@);
    let mut b: usize = 0;
    while b < docs.len()
        invariant
            dv == docs_view(docs@),
            dv.len() == docs@.len(),
            b <= docs@.len(),
            forall|x: int, y: int|
                0 <= x < y < b ==> dv[x] != dv[y] && !(doc_id(#[trigger] dv[x]) is Some && doc_id(
                    dv[x],
                ) == doc_id(#[trigger] dv[y])),
        decreases docs@.len() - b,
    {
        let mut a: usize = 0;
        while a < b
            invariant
                dv == docs_view(docs@),
                dv.len() == docs@.len(),
                a <= b < docs@.len(),
                forall|x: int, y: int|
                    0 <= x < y < b ==> dv[x] != dv[y] && !(doc_id(#[trigger] dv[x]) is Some
                        && doc_id(dv[x]) == doc_id(#[trigger] dv[y])),
                forall|x: int|
                    0 <= x < a ==> dv[x] != dv[b as int] && !(doc_id(#[trigger] dv[x]) is Some
                        && doc_id(dv[x]) == doc_id(dv[b as int])),
            decreases b - a,
        {
            proof {
                assert(dv[a as int] == docs@[a as int]@);
                assert(dv[b as int] == docs@[b as int]@);
            }
            if docs[a].deep_eq(&docs[b]) {
                return false;
            }
            match docs[a].get_id() {
                Some(aid) => match docs[b].get_id() {
                    Some(bid) => {
                        if chars_eq(&aid, &bid) {
                            return false;
                        }
                    },
                    None => {
                    },
                },
                None => {
                },
            }
            a += 1;
        }
        b += 1;
    }
    true
}

/// Copies a document collection.
fn copy_docs(docs: &Vec<JsonValue>) -> (r: Vec<JsonValue>)
    ensures
        docs_view(r@) == docs_view(docs@),
{
    let mut out: Vec<JsonValue> = Vec::new();
    let mut j: usize = 0;
    while j < docs.len()
        invariant
            j <= docs@.len(),
            out@.len() == j,
            forall|k: int| 0 <= k < j ==> out@[k]@ == docs@[k]@,
        decreases docs@.len() - j,
    {
        out.push(docs[j].deep_copy());
        j += 1;
    }
    proof {
        assert(docs_view(out@) =~= docs_view(docs@));
    }
    out
}

impl Store {
    /// The store as one JSON value, ready for serialization.
    pub fn as_value(&self) -> (r: JsonValue)
        ensures
            r@ == store_jv(self@),
    {
        let mut fields: Vec<(Vec<char>, JsonValue)> = Vec::new();
        let mut i: usize = 0;
        while i < self.tables.len()
            invariant
                self@.len() == self.tables@.len(),
                i <= self.tables@.len(),
                fields@.len() == i,
                forall|k: int|
                    0 <= k < i ==> (#[trigger] fields@[k]).0@ == self@[k].0 && fields@[k].1@
                        == Jv::Arr(self@[k].1),
            decreases self.tables@.len() - i,
        {
            proof {
                assert(self@[i as int] == (self.tables@[i as int].0@, docs_view(
                    self.tables@[i as int].1@,
                )));
            }
            let docs = copy_docs(&self.tables[i].1);
            let arr = JsonValue::Arr(docs);
            proof {
                assert(arr@->Arr_0 =~= self@[i as int].1);
            }
            fields.push((copy_chars(&self.tables[i].0), arr));
            i += 1;
        }
        let r = JsonValue::Obj(fields);
        proof {
            assert(r@->Obj_0 =~= store_jv(self@)->Obj_0);
        }
        r
    }

    /// Reads a store out of a parsed JSON value: the value must be the
    /// object-of-arrays shape and must obey the uniqueness rules, else the
    /// content is rejected as corrupt.
    pub fn from_value(v: &JsonValue) -> (r: Result<Store, DbError>)
        ensures
            match r {
                Ok(st) => v@ == store_jv(st@) && store_wf(st@),
                Err(e) => e == DbError::CorruptData && (forall|sv: StoreV|
                    store_wf(sv) ==> v@ != store_jv(sv)),
            },
    {
        match v {
            JsonValue::Obj(fields) => {
                let ghost fv = v@->Obj_0;
                proof {
                    assert(fv.len() == fields@.len());
                    assert(forall|k: int|
                        0 <= k < fields@.len() ==> fv[k] == (fields@[k].0@, fields@[k].1@));
                }
                let mut out: Vec<(Vec<char>, Vec<JsonValue>)> = Vec::new();
                let mut i: usize = 0;
                while i < fields.len()
                    invariant
                        v@ is Obj,
                        fv == v@->Obj_0,
                        fv.len() == fields@.len(),
                        forall|k: int|
                            0 <= k < fields@.len() ==> fv[k] == (fields@[k].0@, fields@[k].1@),
                        i <= fields@.len(),
                        out@.len() == i,
                        forall|k: int|
                            0 <= k < i ==> (#[trigger] out@[k]).0@ == fv[k].0 && Jv::Arr(
                                docs_view(out@[k].1@),
                            ) == fv[k].1,
                        forall|x: int, y: int| 0 <= x < y < i ==> out@[x].0@ != out@[y].0@,
                        forall|k: int| 0 <= k < i ==> docs_unique(docs_view(#[trigger] out@[k].1@)),
                    decreases fields@.len() - i,
                {
                    proof {
                        assert(fv[i as int] == (fields@[i as int].0@, fields@[i as int].1@));
                    }
                    // the name must be fresh
                    let mut k: usize = 0;
                    while k < out.len()
                        invariant
                            v@ is Obj,
                            fv == v@->Obj_0,
                            fv.len() == fields@.len(),
                            forall|m: int|
                                0 <= m < fields@.len() ==> fv[m] == (fields@[m].0@, fields@[m].1@),
                            i < fields@.len(),
                            out@.len() == i,
                            k <= i,
                            forall|m: int| 0 <= m < i ==> (#[trigger] out@[m]).0@ == fv[m].0,
                            forall|m: int| 0 <= m < k ==> out@[m].0@ != fields@[i as int].0@,
                        decreases out@.len() - k,
                    {
                        if chars_eq(&out[k].0, &fields[i].0) {
                            proof {
                                assert(out@[k as int].0@ == fv[k as int].0);
                                assert(fv[i as int].0 == fields@[i as int].0@);
                            }
                            proof {
                                lemma_from_value_dup_name(v@, fv, out@[k as int].0@, k as int, i as int);
                            }
                            return Err(DbError::CorruptData);
                        }
                        k += 1;
                    }
                    // the member must be an array of unique documents
                    match &fields[i].1 {
                        JsonValue::Arr(docs) => {
                            if !check_docs_unique(docs) {
                                proof {
                                    assert(fv[i as int].1 == fields@[i as int].1@);
                                    assert(fields@[i as int].1@->Arr_0 =~= docs_view(docs@));
                                    lemma_from_value_dup_docs(v@, fv, i as int);
                                }
                                return Err(DbError::CorruptData);
                            }
                            let copied = copy_docs(docs);
                            proof {
                                assert(fields@[i as int].1@->Arr_0 =~= docs_view(docs@));
                                assert(Jv::Arr(docs_view(copied@)) == fields@[i as int].1@);
                            }
                            out.push((copy_chars(&fields[i].0), copied));
                        },
                        _ => {
                            proof {
                                lemma_from_value_not_arr(v@, fv, i as int);
                            }
                            return Err(DbError::CorruptData);
                        },
                    }
                    i += 1;
                }
                let st = Store { tables: out };
                proof {
                    assert(store_jv(st@)->Obj_0 =~= fv);
                    assert(store_jv(st@) == v@);
                    assert forall|x: int| 0 <= x < st@.len() implies docs_unique(
                        #[trigger] st@[x].1,
                    ) by {
                        assert(st@[x].1 == docs_view(out@[x].1@));
                    }
                    assert forall|x: int, y: int| 0 <= x < y < st@.len() implies st@[x].0
                        != st@[y].0 by {
                        assert(st@[x].0 == out@[x].0@);
                        assert(st@[y].0 == out@[y].0@);
                    }
                }
                Ok(st)
            },
            _ => {
                proof {
                    assert forall|sv: StoreV| store_wf(sv) implies v@ != store_jv(sv) by {
                        assert(store_jv(sv) is Obj);
                    }
                }
                Err(DbError::CorruptData)
            },
        }
    }
}

/// A value whose object carries one table name twice is no well-formed
/// store's value.
proof fn lemma_from_value_dup_name(v: Jv, fv: Seq<(Seq<char>, Jv)>, name: Seq<char>, x: int, y: int)
    requires
        v is Obj,
        fv == v->Obj_0,
        0 <= x < y < fv.len(),
        fv[x].0 == name,
        fv[y].0 == name,
    ensures
        forall|sv: StoreV| store_wf(sv) ==> v != store_jv(sv),
{
    assert forall|sv: StoreV| store_wf(sv) implies v != store_jv(sv) by {
        if v == store_jv(sv) {
            assert(store_jv(sv)->Obj_0[x] == (sv[x].0, Jv::Arr(sv[x].1)));
            assert(store_jv(sv)->Obj_0[y] == (sv[y].0, Jv::Arr(sv[y].1)));
            assert(sv[x].0 == sv[y].0);
        }
    }
}

/// A value whose object carries a non-array member is no store's value.
proof fn lemma_from_value_not_arr(v: Jv, fv: Seq<(Seq<char>, Jv)>, x: int)
    requires
        v is Obj,
        fv == v->Obj_0,
        0 <= x < fv.len(),
        !(fv[x].1 is Arr),
    ensures
        forall|sv: StoreV| store_wf(sv) ==> v != store_jv(sv),
{
    assert forall|sv: StoreV| store_wf(sv) implies v != store_jv(sv) by {
        if v == store_jv(sv) {
            assert(store_jv(sv)->Obj_0[x] == (sv[x].0, Jv::Arr(sv[x].1)));
        }
    }
}

/// A value whose object carries a table with duplicate content or identity
/// is no well-formed store's value.
proof fn lemma_from_value_dup_docs(v: Jv, fv: Seq<(Seq<char>, Jv)>, x: int)
    requires
        v is Obj,
        fv == v->Obj_0,
        0 <= x < fv.len(),
        fv[x].1 is Arr,
        !docs_unique(fv[x].1->Arr_0),
    ensures
        forall|sv: StoreV| store_wf(sv) ==> v != store_jv(sv),
{
    assert forall|sv: StoreV| store_wf(sv) implies v != store_jv(sv) by {
        if v == store_jv(sv) {
            assert(store_jv(sv)->Obj_0[x] == (sv[x].0, Jv::Arr(sv[x].1)));
            assert(fv[x].1->Arr_0 == sv[x].1);
            assert(docs_unique(sv[x].1));
        }
    }
}

} // verus!
