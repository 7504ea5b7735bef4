//! The library's laws: uniqueness on create, filter composability, the
//! update identity rule, and the delete scope rule, each proved from the
//! drain and store specifications.

use vstd::prelude::*;

use crate::codec::{lemma_round_trip_value, ser_value, sp_value};
use crate::compare::CmpSpec;
use crate::errors::DbError;
use crate::query::{
    apply_method, drain, filter_docs, path_matches, run_outcome, table_of, MethodSpec, RunnerSpec,
};
use crate::store::{
    docs_unique, id_in_result, lemma_store_jv_inj, remove_id, remove_matching, seed, spec_insert,
    spec_update, store_get, store_idx, store_jv, store_wf, StoreV,
};
use crate::value::{doc_id, Jv};

verus! {

/// The documents of `docs` whose value at `chain` satisfies `c`: the
/// subsequence kept by a filter pass.
pub open spec fn matching(docs: Seq<Jv>, chain: Seq<char>, c: CmpSpec) -> Seq<Jv>
    decreases docs.len(),
{
    if docs.len() == 0 {
        Seq::empty()
    } else if path_matches(docs[0], chain, c) {
        seq![docs[0]] + matching(docs.skip(1), chain, c)
    } else {
        matching(docs.skip(1), chain, c)
    }
}

/// The documents of `docs` whose value at `chain` does not satisfy `c`: the
/// subsequence a scoped delete leaves behind.
pub open spec fn non_matching(docs: Seq<Jv>, chain: Seq<char>, c: CmpSpec) -> Seq<Jv>
    decreases docs.len(),
{
    if docs.len() == 0 {
        Seq::empty()
    } else if !path_matches(docs[0], chain, c) {
        seq![docs[0]] + non_matching(docs.skip(1), chain, c)
    } else {
        non_matching(docs.skip(1), chain, c)
    }
}

/// In exclude mode a filter pass never fails and keeps exactly the matching
/// documents.
pub proof fn lemma_filter_docs_exclude(docs: Seq<Jv>, chain: Seq<char>, c: CmpSpec)
    ensures
        filter_docs(docs, chain, c, true) == Ok::<Seq<Jv>, DbError>(matching(docs, chain, c)),
    decreases docs.len(),
{
    if docs.len() > 0 {
        lemma_filter_docs_exclude(docs.skip(1), chain, c);
    }
}

/// When every document resolves at the active path, a filter pass never
/// fails under either policy and keeps exactly the matching documents.
pub proof fn lemma_filter_docs_resolving(docs: Seq<Jv>, chain: Seq<char>, c: CmpSpec, exclude: bool)
    requires
        forall|k: int|
            0 <= k < docs.len() ==> crate::path::resolve_chain(#[trigger] docs[k], chain) is Ok,
    ensures
        filter_docs(docs, chain, c, exclude) == Ok::<Seq<Jv>, DbError>(matching(docs, chain, c)),
    decreases docs.len(),
{
    if docs.len() > 0 {
        let tail = docs.skip(1);
        assert(forall|k: int| 0 <= k < tail.len() ==> tail[k] == docs[k + 1]);
        lemma_filter_docs_resolving(tail, chain, c, exclude);
    }
}

/// Every document a filter pass keeps comes from the input and matches; every
/// matching input document is kept.
pub proof fn lemma_matching_props(docs: Seq<Jv>, chain: Seq<char>, c: CmpSpec)
    ensures
        forall|x: Jv|
            #[trigger] matching(docs, chain, c).contains(x) ==> docs.contains(x) && path_matches(
                x,
                chain,
                c,
            ),
        forall|k: int|
            0 <= k < docs.len() && path_matches(#[trigger] docs[k], chain, c) ==> matching(
                docs,
                chain,
                c,
            ).contains(docs[k]),
    decreases docs.len(),
{
    if docs.len() > 0 {
        let tail = docs.skip(1);
        lemma_matching_props(tail, chain, c);
        assert(forall|k: int| 0 <= k < tail.len() ==> tail[k] == docs[k + 1]);
        let rest = matching(tail, chain, c);
        assert forall|x: Jv| #[trigger] matching(docs, chain, c).contains(x) implies docs.contains(
            x,
        ) && path_matches(x, chain, c) by {
            let m = matching(docs, chain, c);
            let k = choose|k: int| 0 <= k < m.len() && m[k] == x;
            if path_matches(docs[0], chain, c) {
                if k == 0 {
                    assert(x == docs[0]);
                    assert(docs.contains(docs[0])) by {
                        assert(docs[0] == docs[0]);
                    }
                } else {
                    assert(rest[k - 1] == x);
                    assert(rest.contains(x));
                    let j = choose|j: int| 0 <= j < tail.len() && tail[j] == x;
                    assert(docs[j + 1] == x);
                }
            } else {
                assert(rest[k] == x);
                assert(rest.contains(x));
                let j = choose|j: int| 0 <= j < tail.len() && tail[j] == x;
                assert(docs[j + 1] == x);
            }
        }
        assert forall|k: int|
            0 <= k < docs.len() && path_matches(#[trigger] docs[k], chain, c) implies matching(
            docs,
            chain,
            c,
        ).contains(docs[k]) by {
            let m = matching(docs, chain, c);
            if k == 0 {
                assert(m[0] == docs[0]);
            } else {
                assert(tail[k - 1] == docs[k]);
                assert(rest.contains(docs[k]));
                let j = choose|j: int| 0 <= j < rest.len() && rest[j] == docs[k];
                if path_matches(docs[0], chain, c) {
                    assert(m[j + 1] == docs[k]);
                } else {
                    assert(m[j] == docs[k]);
                }
            }
        }
    }
}

/// UNIQUENESS.  For any document `d1` already present in a table, a create
/// of `d2` into that table succeeds only when the two documents differ in
/// full content and in identity; when they coincide in either, the create
/// fails with `RecordAlreadyExists`.
pub proof fn lemma_insert_uniqueness(s: StoreV, name: Seq<char>, d1: Jv, d2: Jv, or: bool)
    requires
        store_get(s, name) is Some,
        store_get(s, name)->Some_0.contains(d1),
    ensures
        spec_insert(s, name, d2, or) is Ok ==> d1 != d2 && !(doc_id(d1) is Some && doc_id(d1)
            == doc_id(d2)),
        doc_id(d2) is Some && (d1 == d2 || (doc_id(d1) is Some && doc_id(d1) == doc_id(d2)))
            ==> spec_insert(s, name, d2, or) == Err::<StoreV, DbError>(
            DbError::RecordAlreadyExists,
        ),
{
    let i = store_idx(s, name);
    let docs = s[i].1;
    let k = choose|k: int| 0 <= k < docs.len() && docs[k] == d1;
    if spec_insert(s, name, d2, or) is Ok {
        assert(docs[k] != d2);
        assert(doc_id(docs[k]) != doc_id(d2));
    }
    if doc_id(d2) is Some && (d1 == d2 || (doc_id(d1) is Some && doc_id(d1) == doc_id(d2))) {
        if d1 == d2 {
            assert(exists|m: int| 0 <= m < docs.len() && docs[m] == d2) by {
                assert(docs[k] == d2);
            }
        } else {
            assert(exists|m: int|
                0 <= m < docs.len() && doc_id(#[trigger] docs[m]) == doc_id(d2)) by {
                assert(doc_id(docs[k]) == doc_id(d2));
            }
        }
    }
}

/// FILTER COMPOSABILITY, first half.  A read of table `t` filtered by
/// `where_(p).equals(v)` returns exactly the documents of `t` whose value at
/// `p` equals `v`, and leaves the store untouched.
pub proof fn lemma_filter_composability(s: StoreV, t: Seq<char>, p: Seq<char>, v: Seq<char>)
    ensures
        run_outcome(
            s,
            seq![
                RunnerSpec::Method(MethodSpec::Read(t)),
                RunnerSpec::Where(p),
                RunnerSpec::Compare(CmpSpec::Equals(v)),
            ],
            true,
        ) == Ok::<(StoreV, Seq<Jv>), DbError>(
            (s, matching(seed(s, t), p, CmpSpec::Equals(v))),
        ),
{
    let c = CmpSpec::Equals(v);
    let m = MethodSpec::Read(t);
    let ops = seq![
        RunnerSpec::Method(m),
        RunnerSpec::Where(p),
        RunnerSpec::Compare(c),
    ].push(RunnerSpec::Done);
    let o1 = ops.skip(1);
    let o2 = ops.skip(2);
    let o3 = ops.skip(3);
    assert(o1 =~= seq![RunnerSpec::Where(p), RunnerSpec::Compare(c), RunnerSpec::Done]);
    assert(o2 =~= seq![RunnerSpec::Compare(c), RunnerSpec::Done]);
    assert(o3 =~= seq![RunnerSpec::Done]);
    assert(o1.skip(1) =~= o2);
    assert(o2.skip(1) =~= o3);
    let st = seed(s, t);
    let fl = matching(st, p, c);
    lemma_filter_docs_exclude(st, p, c);
    assert(ops.len() == 4);
    assert(ops[0] == RunnerSpec::Method(m));
    assert(table_of(m) == t);
    assert(drain(s, ops, Seq::empty(), Seq::empty(), None, true) == drain(
        s,
        o1,
        st,
        Seq::empty(),
        Some(m),
        true,
    ));
    assert(o1[0] == RunnerSpec::Where(p));
    assert(drain(s, o1, st, Seq::empty(), Some(m), true) == drain(s, o2, st, p, Some(m), true));
    assert(o2[0] == RunnerSpec::Compare(c));
    assert(filter_docs(st, p, c, true) == Ok::<Seq<Jv>, DbError>(fl));
    assert(drain(s, o2, st, p, Some(m), true) == drain(s, o3, fl, p, Some(m), true));
    assert(o3[0] == RunnerSpec::Done);
    assert(drain(s, o3, fl, p, Some(m), true) == apply_method(s, Some(m), fl));
    assert(apply_method(s, Some(m), fl) == Ok::<(StoreV, Seq<Jv>), DbError>((s, fl)));
}

/// FILTER COMPOSABILITY, second half.  A read with no filter chain returns
/// all of the table's documents and leaves the store untouched.
pub proof fn lemma_find_returns_all(s: StoreV, t: Seq<char>, exclude: bool)
    ensures
        run_outcome(s, seq![RunnerSpec::Method(MethodSpec::Read(t))], exclude) == Ok::<
            (StoreV, Seq<Jv>),
            DbError,
        >((s, seed(s, t))),
{
    let m = MethodSpec::Read(t);
    let ops = seq![RunnerSpec::Method(m)].push(RunnerSpec::Done);
    let o1 = ops.skip(1);
    assert(o1 =~= seq![RunnerSpec::Done]);
    let st = seed(s, t);
    assert(ops.len() == 2);
    assert(ops[0] == RunnerSpec::Method(m));
    assert(table_of(m) == t);
    assert(drain(s, ops, Seq::empty(), Seq::empty(), None, exclude) == drain(
        s,
        o1,
        st,
        Seq::empty(),
        Some(m),
        exclude,
    ));
    assert(o1[0] == RunnerSpec::Done);
    assert(drain(s, o1, st, Seq::empty(), Some(m), exclude) == apply_method(s, Some(m), st));
}

/// UPDATE IDENTITY RULE.  An update succeeds exactly when the supplied
/// document carries an identity, some document of the (filtered) working
/// result shares it, and the table exists; on success the table contains the
/// new document, no document with that identity besides it, and every other
/// table is untouched.  On failure the store value is returned unchanged by
/// the runner, and nothing is persisted.
pub proof fn lemma_update_identity(s: StoreV, t: Seq<char>, d: Jv, result: Seq<Jv>)
    requires
        store_wf(s),
    ensures
        spec_update(s, t, d, result) is Ok <==> (doc_id(d) is Some && (exists|k: int|
            0 <= k < result.len() && doc_id(#[trigger] result[k]) == doc_id(d)) && store_idx(s, t)
            >= 0),
        spec_update(s, t, d, result) matches Ok(s2) ==> ({
            let i = store_idx(s, t);
            &&& s2.len() == s.len()
            &&& forall|j: int| 0 <= j < s.len() && j != i ==> s2[j] == s[j]
            &&& s2[i].0 == s[i].0
            &&& s2[i].1.contains(d)
            &&& forall|x: Jv|
                #[trigger] s2[i].1.contains(x) && x != d ==> !(doc_id(x) is Some && doc_id(x)
                    == doc_id(d))
        }),
{
    lemma_store_idx_wrap(s, t);
    if spec_update(s, t, d, result) is Ok {
        let i = store_idx(s, t);
        let did = doc_id(d)->Some_0;
        let docs = s[i].1;
        let rem = remove_id(docs, did);
        let ndocs = rem.push(d);
        let s2 = spec_update(s, t, d, result)->Ok_0;
        assert(s2 == s.update(i, (s[i].0, ndocs)));
        crate::store::lemma_remove_id_props(docs, did);
        assert(ndocs[ndocs.len() - 1] == d);
        assert(ndocs.contains(d));
        assert forall|x: Jv| #[trigger] ndocs.contains(x) && x != d implies !(doc_id(x) is Some
            && doc_id(x) == doc_id(d)) by {
            let k = choose|k: int| 0 <= k < ndocs.len() && ndocs[k] == x;
            if k < ndocs.len() - 1 {
                assert(rem[k] == x);
                assert(rem.contains(x));
                assert(doc_id(x) != Some(did));
            }
        }
    }
}

/// `store_idx` characterization, shared by the laws.
proof fn lemma_store_idx_wrap(s: StoreV, name: Seq<char>)
    ensures
        store_idx(s, name) >= 0 ==> store_idx(s, name) < s.len(),
{
    crate::store::lemma_store_idx(s, name);
}

/// When each document of `docs` is removed exactly when it matches the
/// filter, removal by result identities is the non-matching subsequence.
proof fn lemma_remove_matching_pointwise(
    docs: Seq<Jv>,
    result: Seq<Jv>,
    chain: Seq<char>,
    c: CmpSpec,
)
    requires
        forall|k: int|
            0 <= k < docs.len() ==> (id_in_result(#[trigger] docs[k], result) <==> path_matches(
                docs[k],
                chain,
                c,
            )),
    ensures
        remove_matching(docs, result) == non_matching(docs, chain, c),
    decreases docs.len(),
{
    if docs.len() > 0 {
        let tail = docs.skip(1);
        assert(forall|k: int| 0 <= k < tail.len() ==> tail[k] == docs[k + 1]);
        lemma_remove_matching_pointwise(tail, result, chain, c);
    }
}

/// In a table obeying the uniqueness rules whose documents all carry
/// identities, a document's identity occurs among the matching documents
/// exactly when the document itself matches.
proof fn lemma_id_in_matching(docs: Seq<Jv>, chain: Seq<char>, c: CmpSpec)
    requires
        docs_unique(docs),
        forall|k: int| 0 <= k < docs.len() ==> doc_id(#[trigger] docs[k]) is Some,
    ensures
        forall|k: int|
            0 <= k < docs.len() ==> (id_in_result(#[trigger] docs[k], matching(docs, chain, c))
                <==> path_matches(docs[k], chain, c)),
{
    let m = matching(docs, chain, c);
    lemma_matching_props(docs, chain, c);
    assert forall|k: int| 0 <= k < docs.len() implies (id_in_result(#[trigger] docs[k], m)
        <==> path_matches(docs[k], chain, c)) by {
        if path_matches(docs[k], chain, c) {
            assert(m.contains(docs[k]));
            let j = choose|j: int| 0 <= j < m.len() && m[j] == docs[k];
            assert(doc_id(m[j]) == doc_id(docs[k]));
            assert(id_in_result(docs[k], m));
        }
        if id_in_result(docs[k], m) {
            let j = choose|j: int| 0 <= j < m.len() && doc_id(#[trigger] m[j]) == doc_id(docs[k]);
            assert(m.contains(m[j]));
            assert(docs.contains(m[j]) && path_matches(m[j], chain, c));
            let a = choose|a: int| 0 <= a < docs.len() && docs[a] == m[j];
            if a != k {
                assert(doc_id(docs[a]) == doc_id(docs[k]));
                if a < k {
                    assert(docs[a] != docs[k] && !(doc_id(docs[a]) is Some && doc_id(docs[a])
                        == doc_id(docs[k])));
                } else {
                    assert(docs[k] != docs[a] && !(doc_id(docs[k]) is Some && doc_id(docs[k])
                        == doc_id(docs[a])));
                }
            }
            assert(docs[a] == m[j] && a == k);
            assert(path_matches(docs[k], chain, c));
        }
    }
}

/// DELETE SCOPE RULE, first half.  A delete filtered by
/// `where_(p).equals(v)` removes from the table exactly the documents whose
/// value at `p` equals `v`, and returns the removed set, provided every
/// document of the table carries an identity.
pub proof fn lemma_delete_scope(s: StoreV, t: Seq<char>, p: Seq<char>, v: Seq<char>)
    requires
        store_wf(s),
        store_idx(s, t) >= 0,
        forall|k: int|
            0 <= k < s[store_idx(s, t)].1.len() ==> doc_id(#[trigger] s[store_idx(s, t)].1[k])
                is Some,
    ensures
        ({
            let i = store_idx(s, t);
            let docs = s[i].1;
            let c = CmpSpec::Equals(v);
            run_outcome(
                s,
                seq![
                    RunnerSpec::Method(MethodSpec::Delete(t)),
                    RunnerSpec::Where(p),
                    RunnerSpec::Compare(CmpSpec::Equals(v)),
                ],
                true,
            ) == Ok::<(StoreV, Seq<Jv>), DbError>(
                (s.update(i, (s[i].0, non_matching(docs, p, c))), matching(docs, p, c)),
            )
        }),
{
    let i = store_idx(s, t);
    let docs = s[i].1;
    let c = CmpSpec::Equals(v);
    let m = MethodSpec::Delete(t);
    crate::store::lemma_store_idx(s, t);
    assert(seed(s, t) == docs);
    let ops = seq![
        RunnerSpec::Method(m),
        RunnerSpec::Where(p),
        RunnerSpec::Compare(c),
    ].push(RunnerSpec::Done);
    let o1 = ops.skip(1);
    let o2 = ops.skip(2);
    let o3 = ops.skip(3);
    assert(o1 =~= seq![RunnerSpec::Where(p), RunnerSpec::Compare(c), RunnerSpec::Done]);
    assert(o2 =~= seq![RunnerSpec::Compare(c), RunnerSpec::Done]);
    assert(o3 =~= seq![RunnerSpec::Done]);
    assert(o1.skip(1) =~= o2);
    assert(o2.skip(1) =~= o3);
    let fl = matching(docs, p, c);
    lemma_filter_docs_exclude(docs, p, c);
    assert(docs_unique(docs));
    lemma_id_in_matching(docs, p, c);
    lemma_remove_matching_pointwise(docs, fl, p, c);
    assert(ops.len() == 4);
    assert(ops[0] == RunnerSpec::Method(m));
    assert(table_of(m) == t);
    assert(drain(s, ops, Seq::empty(), Seq::empty(), None, true) == drain(
        s,
        o1,
        docs,
        Seq::empty(),
        Some(m),
        true,
    ));
    assert(o1[0] == RunnerSpec::Where(p));
    assert(drain(s, o1, docs, Seq::empty(), Some(m), true) == drain(
        s,
        o2,
        docs,
        p,
        Some(m),
        true,
    ));
    assert(o2[0] == RunnerSpec::Compare(c));
    assert(filter_docs(docs, p, c, true) == Ok::<Seq<Jv>, DbError>(fl));
    assert(drain(s, o2, docs, p, Some(m), true) == drain(s, o3, fl, p, Some(m), true));
    assert(o3[0] == RunnerSpec::Done);
    assert(drain(s, o3, fl, p, Some(m), true) == apply_method(s, Some(m), fl));
    assert(remove_matching(docs, fl) == non_matching(docs, p, c));
}

/// DELETE SCOPE RULE, second half.  A delete with no filter chain empties
/// the table and returns its former contents, provided every document of
/// the table carries an identity.
pub proof fn lemma_delete_all(s: StoreV, t: Seq<char>, exclude: bool)
    requires
        store_wf(s),
        store_idx(s, t) >= 0,
        forall|k: int|
            0 <= k < s[store_idx(s, t)].1.len() ==> doc_id(#[trigger] s[store_idx(s, t)].1[k])
                is Some,
    ensures
        ({
            let i = store_idx(s, t);
            let docs = s[i].1;
            run_outcome(s, seq![RunnerSpec::Method(MethodSpec::Delete(t))], exclude) == Ok::<
                (StoreV, Seq<Jv>),
                DbError,
            >((s.update(i, (s[i].0, Seq::empty())), docs))
        }),
{
    let i = store_idx(s, t);
    let docs = s[i].1;
    crate::store::lemma_store_idx(s, t);
    assert(seed(s, t) == docs);
    let ops = seq![RunnerSpec::Method(MethodSpec::Delete(t))].push(RunnerSpec::Done);
    let o1 = ops.skip(1);
    assert(o1 =~= seq![RunnerSpec::Done]);
    assert(ops.len() == 2);
    assert(ops[0] == RunnerSpec::Method(MethodSpec::Delete(t)));
    assert(table_of(MethodSpec::Delete(t)) == t);
    assert(drain(s, ops, Seq::empty(), Seq::empty(), None, exclude) == drain(
        s,
        o1,
        docs,
        Seq::empty(),
        Some(MethodSpec::Delete(t)),
        exclude,
    ));
    assert(o1[0] == RunnerSpec::Done);
    assert(drain(s, o1, docs, Seq::empty(), Some(MethodSpec::Delete(t)), exclude)
        == apply_method(s, Some(MethodSpec::Delete(t)), docs));
    assert forall|k: int| 0 <= k < docs.len() implies id_in_result(
        #[trigger] docs[k],
        docs,
    ) by {
        assert(doc_id(docs[k]) == doc_id(docs[k]));
    }
    lemma_remove_all(docs, docs);
}

/// Removal by result identities removes everything when every document's
/// identity occurs in the result.
proof fn lemma_remove_all(docs: Seq<Jv>, result: Seq<Jv>)
    requires
        forall|k: int| 0 <= k < docs.len() ==> id_in_result(#[trigger] docs[k], result),
    ensures
        remove_matching(docs, result) == Seq::<Jv>::empty(),
    decreases docs.len(),
{
    if docs.len() > 0 {
        let tail = docs.skip(1);
        assert(forall|k: int| 0 <= k < tail.len() ==> tail[k] == docs[k + 1]);
        lemma_remove_all(tail, result);
    }
}

/// ROUND-TRIP.  The persisted text of a store parses back to exactly that
/// store, consuming the whole text, and to no other store: a fresh handle
/// opened from a saved file holds the tables and documents that were saved.
pub proof fn lemma_store_round_trip(sv: StoreV)
    ensures
        sp_value(ser_value(store_jv(sv)), 0) == Some(
            (store_jv(sv), ser_value(store_jv(sv)).len() as int),
        ),
        forall|sv2: StoreV| store_jv(sv2) == store_jv(sv) ==> sv2 == sv,
{
    lemma_round_trip_value(store_jv(sv));
    assert forall|sv2: StoreV| store_jv(sv2) == store_jv(sv) implies sv2 == sv by {
        lemma_store_jv_inj(sv2, sv);
    }
}

/// UPDATE IDENTITY RULE, composed through a filter chain.  An update of
/// table `t` with `d`, restricted by `where_(p).equals(v)`, succeeds exactly
/// when `d` carries an identity that some matching document of `t` shares;
/// on success the chain returns the new document alone and the table
/// contains it.  Under the abort-on-missing-path policy this holds for
/// tables whose documents all resolve at `p`; a document the path misses
/// would instead end the run with its resolution error.
pub proof fn lemma_update_through_filter(
    s: StoreV,
    t: Seq<char>,
    d: Jv,
    p: Seq<char>,
    v: Seq<char>,
    exclude: bool,
)
    requires
        store_wf(s),
        !exclude ==> forall|k: int|
            0 <= k < seed(s, t).len() ==> crate::path::resolve_chain(
                #[trigger] seed(s, t)[k],
                p,
            ) is Ok,
    ensures
        ({
            let c = CmpSpec::Equals(v);
            let fl = matching(seed(s, t), p, c);
            let outcome = run_outcome(
                s,
                seq![
                    RunnerSpec::Method(MethodSpec::Update(t, d)),
                    RunnerSpec::Where(p),
                    RunnerSpec::Compare(CmpSpec::Equals(v)),
                ],
                exclude,
            );
            &&& (outcome is Ok <==> doc_id(d) is Some && (exists|k: int|
                0 <= k < fl.len() && doc_id(#[trigger] fl[k]) == doc_id(d)))
            &&& (outcome matches Ok((s2, ret)) ==> ret == seq![d] && s2[store_idx(s, t)].1.contains(
                d,
            ))
            &&& (doc_id(d) is Some && outcome is Err ==> outcome == Err::<
                (StoreV, Seq<Jv>),
                DbError,
            >(DbError::RecordNotFound))
        }),
{
    let c = CmpSpec::Equals(v);
    let m = MethodSpec::Update(t, d);
    let docs = seed(s, t);
    let fl = matching(docs, p, c);
    let ops = seq![
        RunnerSpec::Method(m),
        RunnerSpec::Where(p),
        RunnerSpec::Compare(c),
    ].push(RunnerSpec::Done);
    let o1 = ops.skip(1);
    let o2 = ops.skip(2);
    let o3 = ops.skip(3);
    assert(o1 =~= seq![RunnerSpec::Where(p), RunnerSpec::Compare(c), RunnerSpec::Done]);
    assert(o2 =~= seq![RunnerSpec::Compare(c), RunnerSpec::Done]);
    assert(o3 =~= seq![RunnerSpec::Done]);
    assert(o1.skip(1) =~= o2);
    assert(o2.skip(1) =~= o3);
    if exclude {
        lemma_filter_docs_exclude(docs, p, c);
    } else {
        lemma_filter_docs_resolving(docs, p, c, exclude);
    }
    assert(ops.len() == 4);
    assert(ops[0] == RunnerSpec::Method(m));
    assert(table_of(m) == t);
    assert(drain(s, ops, Seq::empty(), Seq::empty(), None, exclude) == drain(
        s,
        o1,
        docs,
        Seq::empty(),
        Some(m),
        exclude,
    ));
    assert(o1[0] == RunnerSpec::Where(p));
    assert(drain(s, o1, docs, Seq::empty(), Some(m), exclude) == drain(
        s,
        o2,
        docs,
        p,
        Some(m),
        exclude,
    ));
    assert(o2[0] == RunnerSpec::Compare(c));
    assert(filter_docs(docs, p, c, exclude) == Ok::<Seq<Jv>, DbError>(fl));
    assert(drain(s, o2, docs, p, Some(m), exclude) == drain(s, o3, fl, p, Some(m), exclude));
    assert(o3[0] == RunnerSpec::Done);
    assert(drain(s, o3, fl, p, Some(m), exclude) == apply_method(s, Some(m), fl));
    lemma_update_identity(s, t, d, fl);
    if doc_id(d) is Some && (exists|k: int|
        0 <= k < fl.len() && doc_id(#[trigger] fl[k]) == doc_id(d)) {
        let k = choose|k: int| 0 <= k < fl.len() && doc_id(#[trigger] fl[k]) == doc_id(d);
        assert(fl.len() > 0);
        assert(docs.len() > 0) by {
            lemma_matching_props(docs, p, c);
            assert(fl.contains(fl[0]));
            assert(docs.contains(fl[0]));
        }
        assert(store_get(s, t) is Some);
        crate::store::lemma_store_idx(s, t);
        assert(store_idx(s, t) >= 0);
        assert(spec_update(s, t, d, fl) is Ok);
    }
}

} // verus!
