//! The deferred operation queue and its runner: builder calls append
//! operations, and `run` drains them in one pass, filtering through the
//! comparator engine and mutating the table store under its uniqueness and
//! identity rules.

use vstd::prelude::*;

use crate::compare::{eval_comparator, value_matches, CmpSpec, Comparator};
use crate::errors::DbError;
use crate::path::{get_nested_chars, resolve_chain};
use crate::codec::{is_ws, lemma_round_trip_value, lemma_ser_value_nonempty, lemma_ws_props, only_ws,
    parse_value, scan_ws, ser_value, sp_value, write_value};
use crate::store::{
    docs_view, lemma_store_jv_inj, seed, spec_delete, spec_insert, spec_update, store_get,
    store_jv, store_wf, Store, StoreV,
};
use crate::value::{copy_chars, str_to_chars, JsonValue, Jv};

verus! {

/// A pending action: which table it touches, and for a create or update, the
/// document it carries.
#[derive(Debug)]
pub enum MethodName {
    /// Insert a document; the flag asks for the table to be created when it
    /// is missing.
    Create(Vec<char>, JsonValue, bool),
    /// Read a table's contents.
    Read(Vec<char>),
    /// Replace the document carrying the supplied document's identity.
    Update(Vec<char>, JsonValue),
    /// Remove the documents selected by the filter chain.
    Delete(Vec<char>),
}

/// The mathematical shape of a pending action.
pub enum MethodSpec {
    Create(Seq<char>, Jv, bool),
    Read(Seq<char>),
    Update(Seq<char>, Jv),
    Delete(Seq<char>),
}

impl MethodName {
    /// The action this value denotes.
    pub open spec fn view(self) -> MethodSpec {
        match self {
            MethodName::Create(t, d, or) => MethodSpec::Create(t@, d@, or),
            MethodName::Read(t) => MethodSpec::Read(t@),
            MethodName::Update(t, d) => MethodSpec::Update(t@, d@),
            MethodName::Delete(t) => MethodSpec::Delete(t@),
        }
    }

    /// The table the action touches.
    pub fn table(&self) -> (t: Vec<char>)
        ensures
            t@ == table_of(self@),
    {
        match self {
            MethodName::Create(t, _, _) => copy_chars(t),
            MethodName::Read(t) => copy_chars(t),
            MethodName::Update(t, _) => copy_chars(t),
            MethodName::Delete(t) => copy_chars(t),
        }
    }
}

/// The table a pending action touches.
pub open spec fn table_of(m: MethodSpec) -> Seq<char> {
    match m {
        MethodSpec::Create(t, _, _) => t,
        MethodSpec::Read(t) => t,
        MethodSpec::Update(t, _) => t,
        MethodSpec::Delete(t) => t,
    }
}

/// One deferred operation of a query chain.
#[derive(Debug)]
pub enum Runner {
    /// The terminal sentinel: apply the pending action and stop.
    Done,
    /// Seed the working result from a table and remember the action.
    Method(MethodName),
    /// Filter the working result with the active path.
    Compare(Comparator),
    /// Set the active path for subsequent comparisons.
    Where(Vec<char>),
}

/// The mathematical shape of a deferred operation.
pub enum RunnerSpec {
    Done,
    Method(MethodSpec),
    Compare(CmpSpec),
    Where(Seq<char>),
}

impl Runner {
    /// The operation this value denotes.
    pub open spec fn view(self) -> RunnerSpec {
        match self {
            Runner::Done => RunnerSpec::Done,
            Runner::Method(m) => RunnerSpec::Method(m@),
            Runner::Compare(c) => RunnerSpec::Compare(c@),
            Runner::Where(f) => RunnerSpec::Where(f@),
        }
    }
}

/// Whether the document's value at the active path satisfies the predicate;
/// a document on which the path fails to resolve satisfies nothing.
pub open spec fn path_matches(d: Jv, chain: Seq<char>, c: CmpSpec) -> bool {
    match resolve_chain(d, chain) {
        Ok(v) => value_matches(v, c),
        Err(_) => false,
    }
}

/// One `Compare` pass over the working result.  With `exclude` set, a
/// document on which the active path fails to resolve is silently dropped;
/// otherwise the first such document aborts the whole pass with its
/// resolution error.
pub open spec fn filter_docs(docs: Seq<Jv>, chain: Seq<char>, c: CmpSpec, exclude: bool) -> Result<
    Seq<Jv>,
    DbError,
>
    decreases docs.len(),
{
    if docs.len() == 0 {
        Ok(Seq::empty())
    } else {
        let rest = filter_docs(docs.skip(1), chain, c, exclude);
        match resolve_chain(docs[0], chain) {
            Err(e) => if exclude {
                rest
            } else {
                Err(e)
            },
            Ok(v) => match rest {
                Err(e2) => Err(e2),
                Ok(tail) => if value_matches(v, c) {
                    Ok(seq![docs[0]] + tail)
                } else {
                    Ok(tail)
                },
            },
        }
    }
}

/// The terminal step: what the pending action does to the store, and what
/// the chain returns.
pub open spec fn apply_method(store: StoreV, m: Option<MethodSpec>, result: Seq<Jv>) -> Result<
    (StoreV, Seq<Jv>),
    DbError,
> {
    match m {
        None => Ok((store, result)),
        Some(MethodSpec::Read(_)) => Ok((store, result)),
        Some(MethodSpec::Create(t, d, or)) => match spec_insert(store, t, d, or) {
            Ok(s2) => Ok((s2, result)),
            Err(e) => Err(e),
        },
        Some(MethodSpec::Update(t, d)) => match spec_update(store, t, d, result) {
            Ok(s2) => Ok((s2, seq![d])),
            Err(e) => Err(e),
        },
        Some(MethodSpec::Delete(t)) => match spec_delete(store, t, result) {
            Ok(s2) => Ok((s2, result)),
            Err(e) => Err(e),
        },
    }
}

/// The drain: operations are interpreted in order, carrying the working
/// result, the active path, and the pending action, until the `Done`
/// sentinel applies the pending action, or the queue runs out.
pub open spec fn drain(
    store: StoreV,
    ops: Seq<RunnerSpec>,
    result: Seq<Jv>,
    chain: Seq<char>,
    m: Option<MethodSpec>,
    exclude: bool,
) -> Result<(StoreV, Seq<Jv>), DbError>
    decreases ops.len(),
{
    if ops.len() == 0 {
        Ok((store, result))
    } else {
        match ops[0] {
            RunnerSpec::Done => apply_method(store, m, result),
            RunnerSpec::Method(mm) => drain(
                store,
                ops.skip(1),
                seed(store, table_of(mm)),
                chain,
                Some(mm),
                exclude,
            ),
            RunnerSpec::Where(f) => drain(store, ops.skip(1), result, f, m, exclude),
            RunnerSpec::Compare(c) => match filter_docs(result, chain, c, exclude) {
                Ok(filtered) => drain(store, ops.skip(1), filtered, chain, m, exclude),
                Err(e) => Err(e),
            },
        }
    }
}

/// What one `run` of a whole queued chain computes: the drain of the queue
/// with the terminal sentinel appended, started from an empty working state.
pub open spec fn run_outcome(store: StoreV, ops: Seq<RunnerSpec>, exclude: bool) -> Result<
    (StoreV, Seq<Jv>),
    DbError,
> {
    drain(store, ops.push(RunnerSpec::Done), Seq::empty(), Seq::empty(), None, exclude)
}

/// A database handle: the in-memory store, the operation queue the builder
/// calls feed, the backing file's path, and the missing-path policy.
#[derive(Debug)]
pub struct JsonDB {
    path: String,
    value: Store,
    runners: Vec<Runner>,
    exclude_missing_path: bool,
}

impl JsonDB {
    /// The store this handle holds.
    pub closed spec fn store(self) -> StoreV {
        self.value@
    }

    /// The operations queued so far.
    pub closed spec fn queue(self) -> Seq<RunnerSpec> {
        self.runners@.map_values(|r: Runner| r@)
    }

    /// The backing file's path.
    pub closed spec fn db_path(self) -> Seq<char> {
        self.path@
    }

    /// Whether a `Compare` drops documents on which the active path fails to
    /// resolve, rather than aborting the whole run.
    pub closed spec fn excludes_missing_path(self) -> bool {
        self.exclude_missing_path
    }

    /// Well-formedness: the store obeys the uniqueness rules.
    pub open spec fn wf(self) -> bool {
        store_wf(self.store())
    }

    /// What every builder call does: one operation is queued and nothing
    /// else changes.
    pub open spec fn pushed(pre: JsonDB, post: JsonDB, op: RunnerSpec) -> bool {
        &&& post.store() == pre.store()
        &&& post.queue() == pre.queue().push(op)
        &&& post.db_path() == pre.db_path()
        &&& post.excludes_missing_path() == pre.excludes_missing_path()
    }

    /// A fresh handle on `path`: empty store, empty queue, and the
    /// missing-path policy set to exclude.
    pub fn new(path: &str) -> (db: JsonDB)
        ensures
            db.store() == StoreV::empty(),
            db.queue() == Seq::<RunnerSpec>::empty(),
            db.db_path() == path@,
            db.excludes_missing_path(),
            db.wf(),
    {
        let db = JsonDB {
            path: path.to_owned(),
            value: Store::empty(),
            runners: Vec::new(),
            exclude_missing_path: true,
        };
        proof {
            assert(db.queue() =~= Seq::<RunnerSpec>::empty());
        }
        db
    }

    /// Chooses the missing-path policy: with `exclude` set, documents on
    /// which a filtered path fails to resolve are dropped; otherwise the
    /// first such document aborts the run with its resolution error.
    pub fn set_exclude_missing_path(&mut self, exclude: bool)
        ensures
            final(self).store() == old(self).store(),
            final(self).queue() == old(self).queue(),
            final(self).db_path() == old(self).db_path(),
            final(self).excludes_missing_path() == exclude,
    {
        self.exclude_missing_path = exclude;
    }

    /// The backing file's path.
    pub fn get_db_path(&self) -> (r: &str)
        ensures
            r@ == self.db_path(),
    {
        self.path.as_str()
    }

    /// Queues one operation.
    fn push_op(&mut self, op: Runner)
        ensures
            Self::pushed(*old(self), *final(self), op@),
    {
        let ghost oq = self.queue();
        self.runners.push(op);
        proof {
            assert(self.queue() =~= oq.push(op@));
        }
    }

    /// Queues a create of `item` into `table`; the chain will fail when the
    /// table is missing.
    pub fn insert(&mut self, table: &str, item: &JsonValue)
        ensures
            Self::pushed(
                *old(self),
                *final(self),
                RunnerSpec::Method(MethodSpec::Create(table@, item@, false)),
            ),
    {
        self.push_op(Runner::Method(MethodName::Create(str_to_chars(table), item.deep_copy(), false)));
    }

    /// Queues a create of `item` into `table`, creating the table first when
    /// it is missing.
    pub fn insert_or(&mut self, table: &str, item: &JsonValue)
        ensures
            Self::pushed(
                *old(self),
                *final(self),
                RunnerSpec::Method(MethodSpec::Create(table@, item@, true)),
            ),
    {
        self.push_op(Runner::Method(MethodName::Create(str_to_chars(table), item.deep_copy(), true)));
    }

    /// Queues a read of `table`.
    pub fn find(&mut self, table: &str)
        ensures
            Self::pushed(*old(self), *final(self), RunnerSpec::Method(MethodSpec::Read(table@))),
    {
        self.push_op(Runner::Method(MethodName::Read(str_to_chars(table))));
    }

    /// Queues an update of `table` with `item`.
    pub fn update(&mut self, table: &str, item: &JsonValue)
        ensures
            Self::pushed(
                *old(self),
                *final(self),
                RunnerSpec::Method(MethodSpec::Update(table@, item@)),
            ),
    {
        self.push_op(Runner::Method(MethodName::Update(str_to_chars(table), item.deep_copy())));
    }

    /// Queues a delete from `table`.
    pub fn delete(&mut self, table: &str)
        ensures
            Self::pushed(*old(self), *final(self), RunnerSpec::Method(MethodSpec::Delete(table@))),
    {
        self.push_op(Runner::Method(MethodName::Delete(str_to_chars(table))));
    }

    /// Sets the active dotted path for the comparisons that follow.
    pub fn where_(&mut self, field: &str)
        ensures
            Self::pushed(*old(self), *final(self), RunnerSpec::Where(field@)),
    {
        self.push_op(Runner::Where(str_to_chars(field)));
    }

    /// Queues a string-equality filter on the active path.
    pub fn equals(&mut self, value: &str)
        ensures
            Self::pushed(*old(self), *final(self), RunnerSpec::Compare(CmpSpec::Equals(value@))),
    {
        self.push_op(Runner::Compare(Comparator::Equals(str_to_chars(value))));
    }

    /// Queues a string-inequality filter on the active path.
    pub fn not_equals(&mut self, value: &str)
        ensures
            Self::pushed(
                *old(self),
                *final(self),
                RunnerSpec::Compare(CmpSpec::NotEquals(value@)),
            ),
    {
        self.push_op(Runner::Compare(Comparator::NotEquals(str_to_chars(value))));
    }

    /// Queues a string-membership filter on the active path.
    pub fn in_(&mut self, values: Vec<String>)
        ensures
            Self::pushed(
                *old(self),
                *final(self),
                RunnerSpec::Compare(CmpSpec::In(values@.map_values(|s: String| s@))),
            ),
    {
        let mut items: Vec<Vec<char>> = Vec::new();
        let mut i: usize = 0;
        while i < values.len()
            invariant
                i <= values@.len(),
                items@.len() == i,
                forall|k: int| 0 <= k < i ==> items@[k]@ == values@[k]@,
            decreases values@.len() - i,
        {
            items.push(str_to_chars(values[i].as_str()));
            i += 1;
        }
        let ghost expect = values@.map_values(|s: String| s@);
        proof {
            assert(items@.map_values(|s: Vec<char>| s@) =~= expect);
        }
        self.push_op(Runner::Compare(Comparator::In(items)));
        proof {
            assert(Comparator::In(items)@ == CmpSpec::In(expect));
        }
    }

    /// Queues a strict less-than filter on the active path.
    pub fn less_than(&mut self, value: u64)
        ensures
            Self::pushed(*old(self), *final(self), RunnerSpec::Compare(CmpSpec::LessThan(value))),
    {
        self.push_op(Runner::Compare(Comparator::LessThan(value)));
    }

    /// Queues a strict greater-than filter on the active path.
    pub fn greater_than(&mut self, value: u64)
        ensures
            Self::pushed(
                *old(self),
                *final(self),
                RunnerSpec::Compare(CmpSpec::GreaterThan(value)),
            ),
    {
        self.push_op(Runner::Compare(Comparator::GreaterThan(value)));
    }

    /// Queues an inclusive-range filter on the active path.
    pub fn between(&mut self, start: u64, end: u64)
        ensures
            Self::pushed(
                *old(self),
                *final(self),
                RunnerSpec::Compare(CmpSpec::Between((start, end))),
            ),
    {
        self.push_op(Runner::Compare(Comparator::Between((start, end))));
    }

    /// Adds an empty table named `table_name` to the store; a present name
    /// is left untouched.  The caller persists the store afterwards.
    pub fn add_table(&mut self, table_name: &str)
        ensures
            ({
                let i = crate::store::store_idx(old(self).store(), table_name@);
                if i >= 0 {
                    final(self).store() == old(self).store()
                } else {
                    final(self).store() == old(self).store().push((table_name@, Seq::empty()))
                }
            }),
            final(self).queue() == old(self).queue(),
            final(self).db_path() == old(self).db_path(),
            final(self).excludes_missing_path() == old(self).excludes_missing_path(),
            old(self).wf() ==> final(self).wf(),
    {
        let name = str_to_chars(table_name);
        self.value.add_table(&name);
    }

    /// The named table's documents, or `TableNotFound`.
    pub fn get_table_vec(&mut self, table_name: &str) -> (r: Result<Vec<JsonValue>, DbError>)
        ensures
            *final(self) == *old(self),
            match r {
                Ok(docs) => store_get(final(self).store(), table_name@) == Some(docs_view(docs@)),
                Err(e) => e == DbError::TableNotFound && store_get(final(self).store(), table_name@)
                    is None,
            },
    {
        let name = str_to_chars(table_name);
        match self.value.find_table(&name) {
            Some(i) => Ok(self.value.table_docs(i)),
            None => Err(DbError::TableNotFound),
        }
    }

    /// Every table with copies of its documents, as held in memory.
    pub fn get_db_values(&self) -> (r: Vec<(Vec<char>, Vec<JsonValue>)>)
        ensures
            r@.map_values(|t: (Vec<char>, Vec<JsonValue>)| (t.0@, docs_view(t.1@)))
                == self.store(),
    {
        let mut out: Vec<(Vec<char>, Vec<JsonValue>)> = Vec::new();
        let n = self.value.table_count();
        let mut i: usize = 0;
        while i < n
            invariant
                n == self.store().len(),
                i <= n,
                out@.len() == i,
                forall|k: int|
                    0 <= k < i ==> (#[trigger] out@[k].0@, docs_view(out@[k].1@))
                        == self.store()[k],
            decreases n - i,
        {
            out.push((self.value.table_name(i), self.value.table_docs(i)));
            i += 1;
        }
        proof {
            assert(out@.map_values(|t: (Vec<char>, Vec<JsonValue>)| (t.0@, docs_view(t.1@)))
                =~= self.store());
        }
        out
    }


    /// Whether `value` satisfies `comparator`: the comparator engine's one
    /// test, the same test every `Compare` pass applies to a resolved value.
    pub fn filter_with_conmpare(&self, value: JsonValue, comparator: &Comparator) -> (r: bool)
        ensures
            r == value_matches(value@, comparator@),
    {
        eval_comparator(&value, comparator)
    }

    /// The JSON text the store persists as.  The caller writes it to the
    /// backing file after every successful run.
    pub fn to_json(&self) -> (r: Vec<char>)
        ensures
            r@ == ser_value(store_jv(self.store())),
    {
        let v = self.value.as_value();
        let mut out: Vec<char> = Vec::new();
        write_value(&v, &mut out);
        proof {
            assert(out@ =~= ser_value(store_jv(self.store())));
        }
        out
    }

    /// Text this library saved parses wholly, to the saved store's value.
    proof fn lemma_saved_text_parses(content: Seq<char>)
        requires
            exists|sv: StoreV| store_wf(sv) && content == ser_value(store_jv(sv)),
        ensures
            content.len() > 0,
            sp_value(content, 0) matches Some((v, n)) && n == content.len() && (exists|sv: StoreV|
                store_wf(sv) && v == store_jv(sv)),
    {
        let sv = choose|sv: StoreV| store_wf(sv) && content == ser_value(store_jv(sv));
        lemma_ser_value_nonempty(store_jv(sv));
        lemma_round_trip_value(store_jv(sv));
        let v = sp_value(content, 0)->Some_0.0;
        assert(v == store_jv(sv));
        assert(exists|sv2: StoreV| store_wf(sv2) && v == store_jv(sv2));
    }

    /// Opens a handle on `path` from the backing file's text.  Empty text
    /// yields an empty store; any other text must parse as the mapping of
    /// table names to document arrays and obey the uniqueness rules, or the
    /// open fails with `CorruptData`.  Text this library saved always opens,
    /// and yields the store it was saved from.
    pub fn open(path: &str, content: &Vec<char>) -> (r: Result<JsonDB, DbError>)
        ensures
            match r {
                Ok(db) => {
                    &&& db.wf()
                    &&& db.queue() == Seq::<RunnerSpec>::empty()
                    &&& db.db_path() == path@
                    &&& db.excludes_missing_path()
                    &&& (content@.len() == 0 ==> db.store() == StoreV::empty())
                    &&& (content@.len() > 0 ==> (sp_value(content@, 0) matches Some((v, n))
                        && v == store_jv(db.store()) && only_ws(content@, n)))
                },
                Err(e) => e == DbError::CorruptData && content@.len() > 0,
            },
            (exists|sv: StoreV| store_wf(sv) && content@ == ser_value(store_jv(sv))) ==> r is Ok,
    {
        proof {
            if exists|sv: StoreV| store_wf(sv) && content@ == ser_value(store_jv(sv)) {
                Self::lemma_saved_text_parses(content@);
            }
        }
        if content.len() == 0 {
            return Ok(JsonDB::new(path));
        }
        match parse_value(content, 0) {
            Err(_) => Err(DbError::CorruptData),
            Ok((v, k)) => {
                let k2 = scan_ws(content, k);
                if k2 != content.len() {
                    proof {
                        lemma_ws_props(content@, k as int);
                        lemma_ws_props(content@, content@.len() as int);
                    }
                    return Err(DbError::CorruptData);
                }
                proof {
                    lemma_ws_props(content@, k as int);
                    assert(only_ws(content@, k as int));
                }
                match Store::from_value(&v) {
                    Ok(st) => {
                        let db = JsonDB {
                            path: path.to_owned(),
                            value: st,
                            runners: Vec::new(),
                            exclude_missing_path: true,
                        };
                        proof {
                            assert(db.queue() =~= Seq::<RunnerSpec>::empty());
                        }
                        Ok(db)
                    },
                    Err(_) => Err(DbError::CorruptData),
                }
            },
        }
    }

    /// Drains the queue: interprets every buffered operation in order,
    /// applies the pending action at the terminal sentinel, and returns the
    /// final working result.  The queue is empty afterwards, whatever
    /// happened; the store is untouched when an error is returned.  The
    /// caller persists the store after a successful run.
    pub fn run(&mut self) -> (r: Result<Vec<JsonValue>, DbError>)
        requires
            old(self).wf(),
        ensures
            final(self).queue() == Seq::<RunnerSpec>::empty(),
            final(self).db_path() == old(self).db_path(),
            final(self).excludes_missing_path() == old(self).excludes_missing_path(),
            final(self).wf(),
            match r {
                Ok(out) => run_outcome(
                    old(self).store(),
                    old(self).queue(),
                    old(self).excludes_missing_path(),
                ) == Ok::<(StoreV, Seq<Jv>), DbError>((final(self).store(), docs_view(out@))),
                Err(e) => run_outcome(
                    old(self).store(),
                    old(self).queue(),
                    old(self).excludes_missing_path(),
                ) == Err::<(StoreV, Seq<Jv>), DbError>(e) && final(self).store() == old(
                    self,
                ).store(),
            },
    {
        let ghost orig_store = self.value@;
        let ghost orig_q = self.queue();
        self.push_op(Runner::Done);
        let excl = self.exclude_missing_path;
        let ghost target = run_outcome(orig_store, orig_q, excl);
        proof {
            assert(self.queue() == orig_q.push(RunnerSpec::Done));
        }
        let mut result: Vec<JsonValue> = Vec::new();
        let mut chain: Vec<char> = Vec::new();
        let mut method: Option<MethodName> = None;
        let mut done = false;
        let mut err: Option<DbError> = None;
        proof {
            assert(docs_view(result@) =~= Seq::<Jv>::empty());
        }
        while !done && err.is_none() && self.runners.len() > 0
            invariant
                self.path@ == old(self).path@,
                self.exclude_missing_path == old(self).exclude_missing_path,
                excl == self.exclude_missing_path,
                store_wf(self.value@),
                orig_store == old(self).store(),
                orig_q == old(self).queue(),
                target == run_outcome(orig_store, orig_q, excl),
                store_wf(orig_store),
                match err {
                    Some(e) => target == Err::<(StoreV, Seq<Jv>), DbError>(e) && self.value@
                        == orig_store,
                    None => if done {
                        target == Ok::<(StoreV, Seq<Jv>), DbError>(
                            (self.value@, docs_view(result@)),
                        )
                    } else {
                        drain(
                            self.value@,
                            self.queue(),
                            docs_view(result@),
                            chain@,
                            opt_method_view(method),
                            excl,
                        ) == target && self.value@ == orig_store
                    },
                },
            decreases self.runners@.len(),
        {
            let ghost qpre = self.queue();
            let ghost rvpre = docs_view(result@);
            let ghost cvpre = chain@;
            let ghost mvpre = opt_method_view(method);
            let op = self.runners.remove(0);
            proof {
                assert(qpre[0] == op@);
                assert(self.queue() =~= qpre.skip(1));
                assert(drain(self.value@, qpre, rvpre, cvpre, mvpre, excl) == target);
            }
            match op {
                Runner::Where(f) => {
                    chain = f;
                },
                Runner::Compare(c) => {
                    match filter_vec(&result, &chain, &c, excl) {
                        Ok(filtered) => {
                            result = filtered;
                        },
                        Err(e) => {
                            err = Some(e);
                        },
                    }
                },
                Runner::Method(m) => {
                    let t = m.table();
                    result = self.value.seed_docs(&t);
                    method = Some(m);
                },
                Runner::Done => {
                    done = true;
                    let pending = method;
                    method = None;
                    proof {
                        assert(drain(self.value@, qpre, rvpre, cvpre, mvpre, excl)
                            == apply_method(self.value@, opt_method_view(pending), rvpre));
                    }
                    match pending {
                        None => {
                        },
                        Some(MethodName::Read(_)) => {
                        },
                        Some(MethodName::Create(t, d, or)) => {
                            match self.value.insert_doc(&t, d, or) {
                                Ok(_) => {
                                },
                                Err(e) => {
                                    err = Some(e);
                                },
                            }
                        },
                        Some(MethodName::Update(t, d)) => {
                            let ghost dv = d@;
                            let keep = d.deep_copy();
                            match self.value.update_doc(&t, d, &result) {
                                Ok(_) => {
                                    let mut single: Vec<JsonValue> = Vec::new();
                                    single.push(keep);
                                    result = single;
                                    proof {
                                        assert(docs_view(result@) =~= seq![dv]);
                                    }
                                },
                                Err(e) => {
                                    err = Some(e);
                                },
                            }
                        },
                        Some(MethodName::Delete(t)) => {
                            match self.value.delete_docs(&t, &result) {
                                Ok(_) => {
                                },
                                Err(e) => {
                                    err = Some(e);
                                },
                            }
                        },
                    }
                },
            }
        }
        proof {
            if err is None && !done {
                assert(self.queue().len() == 0);
                assert(self.queue() =~= Seq::<RunnerSpec>::empty());
                assert(drain(
                    self.value@,
                    self.queue(),
                    docs_view(result@),
                    chain@,
                    opt_method_view(method),
                    excl,
                ) == Ok::<(StoreV, Seq<Jv>), DbError>((self.value@, docs_view(result@))));
            }
        }
        self.runners = Vec::new();
        proof {
            assert(self.queue() =~= Seq::<RunnerSpec>::empty());
        }
        match err {
            Some(e) => Err(e),
            None => Ok(result),
        }
    }
}


/// The table names recorded in persisted text: what a listing of the backing
/// file shows.  Text that parses wholly as a well-formed store yields that
/// store's table names; anything else — text that does not parse, stops
/// short of the end, or is not the store shape with unique names and
/// documents — yields an empty list.
pub fn tables_from_json(content: &Vec<char>) -> (r: Vec<Vec<char>>)
    ensures
        (match sp_value(content@, 0) {
            None => r@.len() == 0,
            Some((v, n)) => {
                &&& (!only_ws(content@, n) ==> r@.len() == 0)
                &&& ((only_ws(content@, n) && (forall|sv: StoreV|
                    store_wf(sv) ==> v != store_jv(sv))) ==> r@.len() == 0)
                &&& (forall|sv: StoreV|
                    store_wf(sv) && v == store_jv(sv) && only_ws(content@, n)
                        ==> r@.map_values(|n2: Vec<char>| n2@) == sv.map_values(
                        |t: (Seq<char>, Seq<Jv>)| t.0,
                    ))
            },
        }),
{
    let empty: Vec<Vec<char>> = Vec::new();
    match parse_value(content, 0) {
        Err(_) => empty,
        Ok((v, k)) => {
            let k2 = scan_ws(content, k);
            if k2 != content.len() {
                proof {
                    lemma_ws_props(content@, k as int);
                    assert(!is_ws(content@[k2 as int]));
                    assert(!only_ws(content@, k as int));
                }
                return empty;
            }
            proof {
                lemma_ws_props(content@, k as int);
                assert(only_ws(content@, k as int));
            }
            match Store::from_value(&v) {
                Err(_) => {
                    proof {
                        assert forall|sv: StoreV|
                            store_wf(sv) && v@ == store_jv(sv) && only_ws(
                            content@,
                            k as int,
                        ) implies empty@.map_values(|n2: Vec<char>| n2@) == sv.map_values(
                            |t: (Seq<char>, Seq<Jv>)| t.0,
                        ) by {
                            assert(v@ != store_jv(sv));
                        }
                    }
                    empty
                },
                Ok(st) => {
                    let mut names: Vec<Vec<char>> = Vec::new();
                    let n = st.table_count();
                    let mut i: usize = 0;
                    while i < n
                        invariant
                            n == st@.len(),
                            i <= n,
                            names@.len() == i,
                            forall|m: int| 0 <= m < i ==> (#[trigger] names@[m])@ == st@[m].0,
                        decreases n - i,
                    {
                        names.push(st.table_name(i));
                        i += 1;
                    }
                    proof {
                        assert forall|sv: StoreV|
                            store_wf(sv) && v@ == store_jv(sv) && only_ws(
                            content@,
                            k as int,
                        ) implies names@.map_values(|n2: Vec<char>| n2@) == sv.map_values(
                            |t: (Seq<char>, Seq<Jv>)| t.0,
                        ) by {
                            assert(v@ == store_jv(st@));
                            lemma_store_jv_inj(st@, sv);
                            assert(names@.map_values(|n2: Vec<char>| n2@) =~= sv.map_values(
                                |t: (Seq<char>, Seq<Jv>)| t.0,
                            ));
                        }
                        assert(!(forall|sv: StoreV| store_wf(sv) ==> v@ != store_jv(sv))) by {
                            assert(store_wf(st@) && v@ == store_jv(st@));
                        }
                    }
                    names
                },
            }
        },
    }
}

/// The pending action an optional exec value denotes.
pub open spec fn opt_method_view(m: Option<MethodName>) -> Option<MethodSpec> {
    match m {
        None => None,
        Some(x) => Some(x@),
    }
}

/// Concatenation in front of a filter pass's outcome.
pub open spec fn ok_concat(a: Seq<Jv>, r: Result<Seq<Jv>, DbError>) -> Result<Seq<Jv>, DbError> {
    match r {
        Ok(t) => Ok(a + t),
        Err(e) => Err(e),
    }
}

/// One executable `Compare` pass over the working result.
fn filter_vec(result: &Vec<JsonValue>, chain: &Vec<char>, c: &Comparator, exclude: bool) -> (r:
    Result<Vec<JsonValue>, DbError>)
    ensures
        match r {
            Ok(out) => filter_docs(docs_view(result@), chain@, c@, exclude) == Ok::<
                Seq<Jv>,
                DbError,
            >(docs_view(out@)),
            Err(e) => filter_docs(docs_view(result@), chain@, c@, exclude) == Err::<
                Seq<Jv>,
                DbError,
            >(e),
        },
{
    let ghost rv = docs_view(result@);
    let ghost target = filter_docs(rv, chain@, c@, exclude);
    let mut kept: Vec<JsonValue> = Vec::new();
    let mut k: usize = 0;
    proof {
        assert(rv.skip(0) =~= rv);
        assert(docs_view(kept@) =~= Seq::<Jv>::empty());
        assert(Seq::<Jv>::empty() + filter_docs(rv, chain@, c@, exclude)->Ok_0 =~= filter_docs(
            rv,
            chain@,
            c@,
            exclude,
        )->Ok_0);
    }
    while k < result.len()
        invariant
            rv == docs_view(result@),
            rv.len() == result@.len(),
            k <= rv.len(),
            target == filter_docs(rv, chain@, c@, exclude),
            target == ok_concat(
                docs_view(kept@),
                filter_docs(rv.skip(k as int), chain@, c@, exclude),
            ),
        decreases rv.len() - k,
    {
        proof {
            assert(rv[k as int] == result@[k as int]@);
            assert(rv.skip(k as int).len() == rv.len() - k);
            assert(rv.skip(k as int)[0] == rv[k as int]);
            assert(rv.skip(k as int).skip(1) =~= rv.skip(k as int + 1));
        }
        let ghost kv0 = docs_view(kept@);
        let ghost frest = filter_docs(rv.skip(k as int + 1), chain@, c@, exclude);
        match get_nested_chars(&result[k], chain) {
            Ok(v) => {
                if eval_comparator(&v, c) {
                    kept.push(result[k].deep_copy());
                    proof {
                        assert(docs_view(kept@) =~= kv0.push(rv[k as int]));
                        if frest is Ok {
                            let tail = frest->Ok_0;
                            assert(kv0 + (seq![rv[k as int]] + tail) =~= kv0.push(rv[k as int])
                                + tail);
                        }
                    }
                } else {
                }
            },
            Err(e) => {
                if !exclude {
                    proof {
                        assert(filter_docs(rv.skip(k as int), chain@, c@, exclude) == Err::<
                            Seq<Jv>,
                            DbError,
                        >(e));
                    }
                    return Err(e);
                }
            },
        }
        k += 1;
    }
    proof {
        assert(rv.skip(rv.len() as int) =~= Seq::<Jv>::empty());
        assert(docs_view(kept@) + Seq::<Jv>::empty() =~= docs_view(kept@));
    }
    Ok(kept)
}

} // verus!
