//! The dotted-path field resolver: splits a path string on `.` and descends
//! through nested objects one segment at a time.

use vstd::prelude::*;

use crate::errors::DbError;
use crate::value::{
    copy_chars, find_field, lemma_obj_get_found, lemma_obj_get_none, obj_get, str_to_chars,
    JsonValue, Jv,
};

verus! {

/// The index of the first `.` in `p`, or `-1` when there is none.
pub open spec fn find_dot(p: Seq<char>) -> int
    decreases p.len(),
{
    if p.len() == 0 {
        -1
    } else if p[0] == '.' {
        0
    } else {
        let r = find_dot(p.skip(1));
        if r < 0 {
            -1
        } else {
            r + 1
        }
    }
}

/// The segments of a dotted path: the maximal runs between the dots.  A path
/// without a dot is one segment; every dot separates two (possibly empty)
/// segments.
pub open spec fn path_segments(p: Seq<char>) -> Seq<Seq<char>>
    decreases p.len(),
{
    let i = find_dot(p);
    if !(0 <= i < p.len()) {
        seq![p]
    } else {
        seq![p.take(i)] + path_segments(p.skip(i + 1))
    }
}

/// `find_dot` points at a dot and nothing before it is one.
proof fn lemma_find_dot_range(p: Seq<char>)
    ensures
        find_dot(p) >= 0 ==> {
            &&& find_dot(p) < p.len()
            &&& p[find_dot(p)] == '.'
            &&& forall|k: int| 0 <= k < find_dot(p) ==> p[k] != '.'
        },
        find_dot(p) < 0 ==> forall|k: int| 0 <= k < p.len() ==> p[k] != '.',
    decreases p.len(),
{
    if p.len() > 0 && p[0] != '.' {
        lemma_find_dot_range(p.skip(1));
        let q = p.skip(1);
        if find_dot(q) >= 0 {
            assert forall|k: int| 0 <= k < find_dot(p) implies p[k] != '.' by {
                if k >= 1 {
                    assert(q[k - 1] != '.');
                }
            }
        } else {
            assert forall|k: int| 0 <= k < p.len() implies p[k] != '.' by {
                if k >= 1 {
                    assert(q[k - 1] != '.');
                }
            }
        }
    }
}

/// The index of the first dot at or after `from` in `p`, or the length of
/// `p` when there is none.
fn scan_dot(p: &Vec<char>, from: usize) -> (r: usize)
    requires
        from <= p@.len(),
    ensures
        from <= r <= p@.len(),
        forall|k: int| from <= k < r ==> p@[k] != '.',
        r < p@.len() ==> p@[r as int] == '.',
{
    let mut i = from;
    while i < p.len()
        invariant
            from <= i <= p@.len(),
            forall|k: int| from <= k < i ==> p@[k] != '.',
        decreases p@.len() - i,
    {
        if p[i] == '.' {
            return i;
        }
        i += 1;
    }
    i
}

/// Copies `p[from .. to]` out of a character vector.
fn subchars(p: &Vec<char>, from: usize, to: usize) -> (r: Vec<char>)
    requires
        from <= to <= p@.len(),
    ensures
        r@ == p@.subrange(from as int, to as int),
{
    let mut r: Vec<char> = Vec::new();
    let mut i = from;
    while i < to
        invariant
            from <= i <= to <= p@.len(),
            r@ == p@.subrange(from as int, i as int),
        decreases to - i,
    {
        r.push(p[i]);
        i += 1;
        proof {
            assert(r@ =~= p@.subrange(from as int, i as int));
        }
    }
    r
}

/// Splits a dotted path into its segments.
pub fn split_path(p: &Vec<char>) -> (segs: Vec<Vec<char>>)
    ensures
        segs@.map_values(|s: Vec<char>| s@) == path_segments(p@),
    decreases p@.len(),
{
    let dot = scan_dot(p, 0);
    proof {
        lemma_find_dot_range(p@);
        if dot < p@.len() {
            assert(find_dot(p@) == dot as int);
        } else {
            assert(find_dot(p@) < 0);
        }
    }
    if dot == p.len() {
        let whole = copy_chars(p);
        let mut segs: Vec<Vec<char>> = Vec::new();
        segs.push(whole);
        proof {
            assert(segs@.map_values(|s: Vec<char>| s@) =~= path_segments(p@));
        }
        segs
    } else {
        let head = subchars(p, 0, dot);
        let tail = subchars(p, dot + 1, p.len());
        let rest = split_path(&tail);
        let mut segs: Vec<Vec<char>> = Vec::new();
        segs.push(head);
        let mut i: usize = 0;
        while i < rest.len()
            invariant
                i <= rest@.len(),
                segs@.len() == i + 1,
                segs@[0]@ == p@.take(dot as int),
                forall|j: int| 0 <= j < i ==> segs@[j + 1]@ == rest@[j]@,
            decreases rest@.len() - i,
        {
            segs.push(copy_chars(&rest[i]));
            i += 1;
        }
        proof {
            let f = |s: Vec<char>| s@;
            assert(tail@ == p@.skip(dot + 1));
            assert(segs@.map_values(f) =~= path_segments(p@));
        }
        segs
    }
}

/// One resolution step: the value bound to `key` when `v` is an object.
pub open spec fn resolve_field(v: Jv, key: Seq<char>) -> Result<Jv, DbError> {
    match v {
        Jv::Obj(fields) => match obj_get(fields, key) {
            Some(next) => Ok(next),
            None => Err(DbError::PathNotFound),
        },
        _ => Err(DbError::NotAnObject),
    }
}

/// Resolution of a whole segment list: descend one segment at a time; an
/// absent segment fails with `PathNotFound`, a non-object intermediate with
/// `NotAnObject`.
pub open spec fn resolve_path(v: Jv, segs: Seq<Seq<char>>) -> Result<Jv, DbError>
    decreases segs.len(),
{
    if segs.len() == 0 {
        Ok(v)
    } else {
        match resolve_field(v, segs[0]) {
            Ok(next) => resolve_path(next, segs.skip(1)),
            Err(e) => Err(e),
        }
    }
}

/// What `get_nested_value` computes: the value of the dotted path in the
/// document.
pub open spec fn resolve_chain(v: Jv, chain: Seq<char>) -> Result<Jv, DbError> {
    resolve_path(v, path_segments(chain))
}

/// The value bound to the single field `field` of `data`.
pub fn get_field_by_name(data: &JsonValue, field: &str) -> (r: Result<JsonValue, DbError>)
    ensures
        match r {
            Ok(v) => resolve_field(data@, field@) == Ok::<Jv, DbError>(v@),
            Err(e) => resolve_field(data@, field@) == Err::<Jv, DbError>(e),
        },
{
    let key = str_to_chars(field);
    lookup_field(data, &key)
}

/// The value bound to `key` when `data` is an object.
fn lookup_field(data: &JsonValue, key: &Vec<char>) -> (r: Result<JsonValue, DbError>)
    ensures
        match r {
            Ok(v) => resolve_field(data@, key@) == Ok::<Jv, DbError>(v@),
            Err(e) => resolve_field(data@, key@) == Err::<Jv, DbError>(e),
        },
{
    match data {
        JsonValue::Obj(fields) => match find_field(fields, key) {
            Some(j) => {
                proof {
                    assert(forall|k: int|
                        0 <= k < fields@.len() ==> data@->Obj_0[k].0 == fields@[k].0@);
                    lemma_obj_get_found(data@->Obj_0, key@, j as int);
                    assert(data@->Obj_0[j as int].1 == fields@[j as int].1@);
                }
                Ok(fields[j].1.deep_copy())
            },
            None => {
                proof {
                    assert(forall|k: int|
                        0 <= k < fields@.len() ==> data@->Obj_0[k].0 == fields@[k].0@);
                    lemma_obj_get_none(data@->Obj_0, key@);
                }
                Err(DbError::PathNotFound)
            },
        },
        _ => Err(DbError::NotAnObject),
    }
}

/// Resolves a dotted path through a document, per the drain algorithm's
/// filtering and identity rules.
pub fn get_nested_value(data: &JsonValue, key_chain: &str) -> (r: Result<JsonValue, DbError>)
    ensures
        match r {
            Ok(v) => resolve_chain(data@, key_chain@) == Ok::<Jv, DbError>(v@),
            Err(e) => resolve_chain(data@, key_chain@) == Err::<Jv, DbError>(e),
        },
{
    let chars = str_to_chars(key_chain);
    get_nested_chars(data, &chars)
}

/// `get_nested_value` on an already-split-out character path.
pub fn get_nested_chars(data: &JsonValue, key_chain: &Vec<char>) -> (r: Result<
    JsonValue,
    DbError,
>)
    ensures
        match r {
            Ok(v) => resolve_chain(data@, key_chain@) == Ok::<Jv, DbError>(v@),
            Err(e) => resolve_chain(data@, key_chain@) == Err::<Jv, DbError>(e),
        },
{
    let segs = split_path(key_chain);
    let ghost gsegs = path_segments(key_chain@);
    let mut cur: JsonValue = data.deep_copy();
    let mut i: usize = 0;
    proof {
        assert(gsegs.len() == segs@.len());
        assert(gsegs.skip(0) =~= gsegs);
    }
    while i < segs.len()
        invariant
            gsegs == path_segments(key_chain@),
            segs@.map_values(|s: Vec<char>| s@) == gsegs,
            i <= segs@.len(),
            resolve_path(cur@, gsegs.skip(i as int)) == resolve_path(data@, gsegs),
        decreases segs@.len() - i,
    {
        proof {
            assert(gsegs.len() == segs@.len());
            assert(gsegs[i as int] == segs@[i as int]@);
            assert(gsegs.skip(i as int).len() == gsegs.len() - i);
            assert(gsegs.skip(i as int)[0] == gsegs[i as int]);
        }
        match lookup_field(&cur, &segs[i]) {
            Ok(next) => {
                proof {
                    assert(gsegs.skip(i as int).skip(1) =~= gsegs.skip(i as int + 1));
                    assert(gsegs.skip(i as int)[0] == gsegs[i as int]);
                }
                cur = next;
                i += 1;
            },
            Err(e) => {
                proof {
                    assert(gsegs.skip(i as int).len() > 0);
                    assert(resolve_path(cur@, gsegs.skip(i as int)) == Err::<Jv, DbError>(e));
                    assert(resolve_path(data@, gsegs) == Err::<Jv, DbError>(e));
                    assert(gsegs == path_segments(key_chain@));
                    assert(resolve_chain(data@, key_chain@) == Err::<Jv, DbError>(e));
                }
                return Err(e);
            },
        }
    }
    proof {
        assert(gsegs.skip(segs@.len() as int) =~= Seq::<Seq<char>>::empty());
    }
    Ok(cur)
}

/// The value of a dotted path in a document, or nothing when any part of the
/// chain fails to resolve.
pub fn get_key_chain_value(data: &JsonValue, key_chain: &str) -> (r: Option<JsonValue>)
    ensures
        match r {
            Some(v) => resolve_chain(data@, key_chain@) == Ok::<Jv, DbError>(v@),
            None => resolve_chain(data@, key_chain@) is Err,
        },
{
    match get_nested_value(data, key_chain) {
        Ok(v) => Some(v),
        Err(_) => None,
    }
}

} // verus!
