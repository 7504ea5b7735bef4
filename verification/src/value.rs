//! The JSON-like document model: an owned value tree, its mathematical view,
//! and deep structural equality.
//!
//! String data is carried as `Vec<char>` so that every operation on it is
//! ordinary, verifiable vector code; the builder surface converts from `&str`
//! at the boundary.

use vstd::prelude::*;
use vstd::string::StrSliceExecFns;

verus! {

/// A JSON-like value: the unit of storage of the database.
///
/// Numbers are unsigned integers, which is the only numeric shape the
/// comparator engine interprets.
#[derive(Debug)]
pub enum JsonValue {
    Null,
    Bool(bool),
    Num(u64),
    Str(Vec<char>),
    Arr(Vec<JsonValue>),
    Obj(Vec<(Vec<char>, JsonValue)>),
}

/// The mathematical shape of a `JsonValue`: the same tree over `Seq`.
pub enum Jv {
    Null,
    Bool(bool),
    Num(u64),
    Str(Seq<char>),
    Arr(Seq<Jv>),
    Obj(Seq<(Seq<char>, Jv)>),
}

impl JsonValue {
    /// The mathematical value this tree denotes.
    pub open spec fn view(self) -> Jv
        decreases self,
    {
        match self {
            JsonValue::Null => Jv::Null,
            JsonValue::Bool(b) => Jv::Bool(b),
            JsonValue::Num(n) => Jv::Num(n),
            JsonValue::Str(s) => Jv::Str(s@),
            JsonValue::Arr(a) => Jv::Arr(
                Seq::new(
                    a@.len(),
                    |i: int|
                        if 0 <= i < a@.len() {
                            a@[i].view()
                        } else {
                            Jv::Null
                        },
                ),
            ),
            JsonValue::Obj(o) => Jv::Obj(
                Seq::new(
                    o@.len(),
                    |i: int|
                        if 0 <= i < o@.len() {
                            (o@[i].0@, o@[i].1.view())
                        } else {
                            (Seq::empty(), Jv::Null)
                        },
                ),
            ),
        }
    }
}

/// The value bound to `key` in an object's field list: the first binding with
/// that key, if any.
pub open spec fn obj_get(fields: Seq<(Seq<char>, Jv)>, key: Seq<char>) -> Option<Jv>
    decreases fields.len(),
{
    if fields.len() == 0 {
        None
    } else if fields[0].0 == key {
        Some(fields[0].1)
    } else {
        obj_get(fields.skip(1), key)
    }
}

/// The identity of a document: the value of its `id` field, when the document
/// is an object and that field holds a string.  Documents without such a
/// field have no identity and never collide with any identity.
pub open spec fn doc_id(d: Jv) -> Option<Seq<char>> {
    match d {
        Jv::Obj(fields) => match obj_get(fields, "id"@) {
            Some(Jv::Str(s)) => Some(s),
            _ => None,
        },
        _ => None,
    }
}

/// Copies a character vector.
pub fn copy_chars(v: &Vec<char>) -> (r: Vec<char>)
    ensures
        r@ == v@,
{
    let r = v.clone();
    proof {
        assert(r@ =~= v@);
    }
    r
}

/// Converts borrowed string data into the character-vector form the library
/// stores.
pub fn str_to_chars(s: &str) -> (r: Vec<char>)
    ensures
        r@ == s@,
{
    let n = s.unicode_len();
    let mut r: Vec<char> = Vec::new();
    let mut i: usize = 0;
    while i < n
        invariant
            n == s@.len(),
            i <= n,
            r@ == s@.subrange(0, i as int),
        decreases n - i,
    {
        r.push(s.get_char(i));
        i += 1;
        proof {
            assert(r@ =~= s@.subrange(0, i as int));
        }
    }
    proof {
        assert(r@ =~= s@);
    }
    r
}

/// Character-vector equality, decided by the contents.
pub fn chars_eq(a: &Vec<char>, b: &Vec<char>) -> (r: bool)
    ensures
        r == (a@ == b@),
{
    if a.len() != b.len() {
        return false;
    }
    let mut i: usize = 0;
    while i < a.len()
        invariant
            a@.len() == b@.len(),
            i <= a@.len(),
            forall|j: int| 0 <= j < i ==> a@[j] == b@[j],
        decreases a@.len() - i,
    {
        if a[i] != b[i] {
            return false;
        }
        i += 1;
    }
    proof {
        assert(a@ =~= b@);
    }
    true
}

/// When `key` first occurs at position `j`, `obj_get` yields the value bound
/// there.
pub proof fn lemma_obj_get_found(fields: Seq<(Seq<char>, Jv)>, key: Seq<char>, j: int)
    requires
        0 <= j < fields.len(),
        fields[j].0 == key,
        forall|k: int| 0 <= k < j ==> fields[k].0 != key,
    ensures
        obj_get(fields, key) == Some(fields[j].1),
    decreases j,
{
    if j > 0 {
        lemma_obj_get_found(fields.skip(1), key, j - 1);
        assert(fields.skip(1)[j - 1] == fields[j]);
    }
}

/// When no binding carries `key`, `obj_get` yields nothing.
pub proof fn lemma_obj_get_none(fields: Seq<(Seq<char>, Jv)>, key: Seq<char>)
    requires
        forall|k: int| 0 <= k < fields.len() ==> fields[k].0 != key,
    ensures
        obj_get(fields, key) is None,
    decreases fields.len(),
{
    if fields.len() > 0 {
        lemma_obj_get_none(fields.skip(1), key);
    }
}

/// The position of the first binding of `key` in an object's field list.
pub fn find_field(fields: &Vec<(Vec<char>, JsonValue)>, key: &Vec<char>) -> (r: Option<usize>)
    ensures
        match r {
            Some(j) => {
                &&& j < fields@.len()
                &&& fields@[j as int].0@ == key@
                &&& forall|k: int| 0 <= k < j ==> fields@[k].0@ != key@
            },
            None => forall|k: int| 0 <= k < fields@.len() ==> fields@[k].0@ != key@,
        },
{
    let mut i: usize = 0;
    while i < fields.len()
        invariant
            i <= fields@.len(),
            forall|k: int| 0 <= k < i ==> fields@[k].0@ != key@,
        decreases fields@.len() - i,
    {
        if chars_eq(&fields[i].0, key) {
            return Some(i);
        }
        i += 1;
    }
    None
}

impl JsonValue {
    /// The document's identity, read from its `id` field.
    pub fn get_id(&self) -> (r: Option<Vec<char>>)
        ensures
            match r {
                Some(s) => doc_id(self@) == Some(s@),
                None => doc_id(self@) is None,
            },
    {
        match self {
            JsonValue::Obj(fields) => {
                let key = str_to_chars("id");
                match find_field(fields, &key) {
                    Some(j) => {
                        proof {
                            assert(forall|k: int|
                                0 <= k < j ==> self@->Obj_0[k].0 == fields@[k].0@);
                            assert(self@->Obj_0[j as int].0 == fields@[j as int].0@);
                            lemma_obj_get_found(self@->Obj_0, "id"@, j as int);
                            assert(self@->Obj_0[j as int].1 == fields@[j as int].1@);
                        }
                        match &fields[j].1 {
                            JsonValue::Str(s) => Some(copy_chars(s)),
                            _ => None,
                        }
                    },
                    None => {
                        proof {
                            assert(forall|k: int|
                                0 <= k < fields@.len()
                                    ==> self@->Obj_0[k].0 == fields@[k].0@);
                            lemma_obj_get_none(self@->Obj_0, "id"@);
                        }
                        None
                    },
                }
            },
            _ => None,
        }
    }

    /// Deep structural equality: decides whether two trees denote the same
    /// mathematical value.
    pub fn deep_eq(&self, other: &JsonValue) -> (r: bool)
        ensures
            r == (self@ == other@),
        decreases self,
    {
        match (self, other) {
            (JsonValue::Null, JsonValue::Null) => true,
            (JsonValue::Bool(x), JsonValue::Bool(y)) => x == y,
            (JsonValue::Num(x), JsonValue::Num(y)) => x == y,
            (JsonValue::Str(x), JsonValue::Str(y)) => chars_eq(x, y),
            (JsonValue::Arr(x), JsonValue::Arr(y)) => {
                if x.len() != y.len() {
                    proof {
                        assert(self@->Arr_0.len() == x@.len());
                        assert(other@->Arr_0.len() == y@.len());
                    }
                    return false;
                }
                let mut i: usize = 0;
                while i < x.len()
                    invariant
                        self is Arr,
                        other is Arr,
                        x == self->Arr_0,
                        y == other->Arr_0,
                        x@.len() == y@.len(),
                        i <= x@.len(),
                        forall|j: int| 0 <= j < i ==> x@[j]@ == y@[j]@,
                    decreases x@.len() - i,
                {
                    if !x[i].deep_eq(&y[i]) {
                        proof {
                            assert(self@->Arr_0[i as int] == x@[i as int]@);
                            assert(other@->Arr_0[i as int] == y@[i as int]@);
                        }
                        return false;
                    }
                    i += 1;
                }
                proof {
                    assert(self@->Arr_0 =~= other@->Arr_0);
                }
                true
            },
            (JsonValue::Obj(x), JsonValue::Obj(y)) => {
                if x.len() != y.len() {
                    proof {
                        assert(self@->Obj_0.len() == x@.len());
                        assert(other@->Obj_0.len() == y@.len());
                    }
                    return false;
                }
                let mut i: usize = 0;
                while i < x.len()
                    invariant
                        self is Obj,
                        other is Obj,
                        x == self->Obj_0,
                        y == other->Obj_0,
                        x@.len() == y@.len(),
                        i <= x@.len(),
                        forall|j: int|
                            0 <= j < i ==> x@[j].0@ == y@[j].0@ && x@[j].1@ == y@[j].1@,
                    decreases x@.len() - i,
                {
                    if !chars_eq(&x[i].0, &y[i].0) {
                        proof {
                            assert(self@->Obj_0[i as int].0 == x@[i as int].0@);
                            assert(other@->Obj_0[i as int].0 == y@[i as int].0@);
                        }
                        return false;
                    }
                    if !x[i].1.deep_eq(&y[i].1) {
                        proof {
                            assert(self@->Obj_0[i as int].1 == x@[i as int].1@);
                            assert(other@->Obj_0[i as int].1 == y@[i as int].1@);
                        }
                        return false;
                    }
                    i += 1;
                }
                proof {
                    assert(self@->Obj_0 =~= other@->Obj_0);
                }
                true
            },
            _ => false,
        }
    }

    /// Produces an independent tree denoting the same value.
    pub fn deep_copy(&self) -> (r: JsonValue)
        ensures
            r@ == self@,
        decreases self,
    {
        match self {
            JsonValue::Null => JsonValue::Null,
            JsonValue::Bool(b) => JsonValue::Bool(*b),
            JsonValue::Num(n) => JsonValue::Num(*n),
            JsonValue::Str(s) => JsonValue::Str(copy_chars(s)),
            JsonValue::Arr(a) => {
                let mut out: Vec<JsonValue> = Vec::new();
                let mut i: usize = 0;
                while i < a.len()
                    invariant
                        self is Arr,
                        a == self->Arr_0,
                        i <= a@.len(),
                        out@.len() == i,
                        forall|j: int| 0 <= j < i ==> out@[j]@ == a@[j]@,
                    decreases a@.len() - i,
                {
                    out.push(a[i].deep_copy());
                    i += 1;
                }
                let r = JsonValue::Arr(out);
                proof {
                    assert(r@->Arr_0 =~= self@->Arr_0);
                }
                r
            },
            JsonValue::Obj(o) => {
                let mut out: Vec<(Vec<char>, JsonValue)> = Vec::new();
                let mut i: usize = 0;
                while i < o.len()
                    invariant
                        self is Obj,
                        o == self->Obj_0,
                        i <= o@.len(),
                        out@.len() == i,
                        forall|j: int|
                            0 <= j < i ==> out@[j].0@ == o@[j].0@ && out@[j].1@ == o@[j].1@,
                    decreases o@.len() - i,
                {
                    out.push((copy_chars(&o[i].0), o[i].1.deep_copy()));
                    i += 1;
                }
                let r = JsonValue::Obj(out);
                proof {
                    assert(r@->Obj_0 =~= self@->Obj_0);
                }
                r
            },
        }
    }
}

} // verus!
