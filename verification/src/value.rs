//! The dynamically tagged runtime value — scalars, ordered list, ordered
//! map — with read and write by path.
use vstd::prelude::*;
use crate::path::{Path, Seg, Segment};

verus! {

/// Mathematical model of a runtime value. Object entries form a map keyed by
/// field name; entry order is irrelevant to the model.
pub enum Val {
    Null,
    Boolean(bool),
    Integer(i64),
    /// IEEE-754 bit pattern; the transform never computes on it.
    Float(u64),
    Bytes(Seq<u8>),
    /// Nanoseconds from the epoch; the transform never computes on it.
    Timestamp(i64),
    Array(Seq<Val>),
    Object(Map<Seq<char>, Val>),
}

impl Val {
    /// The object entries of a value; empty for anything but an object.
    pub open spec fn obj_map(self) -> Map<Seq<char>, Val> {
        match self {
            Val::Object(m) => m,
            _ => Map::empty(),
        }
    }

    /// The array elements of a value; empty for anything but an array.
    pub open spec fn arr_elems(self) -> Seq<Val> {
        match self {
            Val::Array(s) => s,
            _ => Seq::empty(),
        }
    }
}

/// A runtime value. Objects keep no duplicate field names, so that a value
/// determines its model entry by entry.
#[derive(Debug, PartialEq)]
pub enum Value {
    Null,
    Boolean(bool),
    Integer(i64),
    Float(u64),
    Bytes(Vec<u8>),
    Timestamp(i64),
    Array(Vec<Value>),
    Object(Vec<(String, Value)>),
}

impl Value {
    /// Model of this value.
    pub open spec fn model(self) -> Val
        decreases self,
    {
        match self {
            Value::Null => Val::Null,
            Value::Boolean(b) => Val::Boolean(b),
            Value::Integer(i) => Val::Integer(i),
            Value::Float(bits) => Val::Float(bits),
            Value::Bytes(b) => Val::Bytes(b@),
            Value::Timestamp(t) => Val::Timestamp(t),
            Value::Array(elems) => Val::Array(arr_model(elems@)),
            Value::Object(entries) => Val::Object(obj_model(entries@)),
        }
    }

    /// Well-formed: no object anywhere holds the same field name twice.
    pub open spec fn wf(self) -> bool
        decreases self,
    {
        match self {
            Value::Array(elems) => forall|i: int|
                0 <= i < elems@.len() ==> (#[trigger] elems@[i]).wf(),
            Value::Object(entries) => {
                &&& unique_keys(entries@)
                &&& forall|i: int|
                    0 <= i < entries@.len() ==> (#[trigger] entries@[i]).1.wf()
            },
            _ => true,
        }
    }
}

/// No two entries carry the same key.
pub open spec fn unique_keys<T>(entries: Seq<(String, T)>) -> bool {
    forall|i: int, j: int|
        0 <= i < j < entries.len() ==> (#[trigger] entries[i]).0@ != (#[trigger] entries[j]).0@
}

/// Some entry carries this key.
pub open spec fn has_key<T>(entries: Seq<(String, T)>, k: Seq<char>) -> bool {
    exists|i: int| 0 <= i < entries.len() && (#[trigger] entries[i]).0@ == k
}

/// Model of an array's element list, element by element.
pub open spec fn arr_model(elems: Seq<Value>) -> Seq<Val>
    decreases elems,
{
    if elems.len() == 0 {
        Seq::empty()
    } else {
        arr_model(elems.drop_last()).push(elems.last().model())
    }
}

/// Model of an object's entry list: later entries win on a duplicate key,
/// though well-formed values never hold one.
pub open spec fn obj_model(entries: Seq<(String, Value)>) -> Map<Seq<char>, Val>
    decreases entries,
{
    if entries.len() == 0 {
        Map::empty()
    } else {
        obj_model(entries.drop_last()).insert(entries.last().0@, entries.last().1.model())
    }
}

/// The array model is the pointwise model of the elements.
pub proof fn lemma_arr_model(elems: Seq<Value>)
    ensures
        arr_model(elems).len() == elems.len(),
        forall|i: int| 0 <= i < elems.len() ==> arr_model(elems)[i] == (#[trigger] elems[i]).model(),
    decreases elems,
{
    if elems.len() > 0 {
        lemma_arr_model(elems.drop_last());
        assert forall|i: int| 0 <= i < elems.len() implies
            arr_model(elems)[i] == (#[trigger] elems[i]).model() by {
            if i < elems.len() - 1 {
                assert(elems.drop_last()[i] == elems[i]);
            }
        }
    }
}

/// The object model holds exactly the entry keys.
pub proof fn lemma_obj_model_dom(entries: Seq<(String, Value)>)
    ensures
        forall|k: Seq<char>|
            #[trigger] obj_model(entries).contains_key(k) <==> has_key(entries, k),
    decreases entries,
{
    if entries.len() > 0 {
        lemma_obj_model_dom(entries.drop_last());
        assert forall|k: Seq<char>| has_key(entries, k) implies
            obj_model(entries).contains_key(k) by {
            let i = choose|i: int| 0 <= i < entries.len() && (#[trigger] entries[i]).0@ == k;
            if i < entries.len() - 1 {
                assert(entries.drop_last()[i].0@ == k);
                assert(has_key(entries.drop_last(), k));
                assert(obj_model(entries.drop_last()).contains_key(k));
            }
        }
        assert forall|k: Seq<char>| #[trigger] obj_model(entries).contains_key(k) implies
            has_key(entries, k) by {
            if k == entries.last().0@ {
                assert(entries[entries.len() - 1].0@ == k);
            } else {
                assert(obj_model(entries.drop_last()).contains_key(k));
                let i = choose|i: int|
                    0 <= i < entries.drop_last().len() && (#[trigger] entries.drop_last()[i]).0@ == k;
                assert(entries[i].0@ == k);
            }
        }
    }
}

/// With unique keys, the model at an entry's key is that entry's value.
pub proof fn lemma_obj_model_at(entries: Seq<(String, Value)>, i: int)
    requires
        unique_keys(entries),
        0 <= i < entries.len(),
    ensures
        obj_model(entries).contains_key(entries[i].0@),
        obj_model(entries)[entries[i].0@] == entries[i].1.model(),
    decreases entries,
{
    if i < entries.len() - 1 {
        lemma_obj_model_at(entries.drop_last(), i);
    }
}

/// Replacing entry `i`'s value updates the model at that entry's key alone.
pub proof fn lemma_obj_model_update(entries: Seq<(String, Value)>, i: int, e: (String, Value))
    requires
        unique_keys(entries),
        0 <= i < entries.len(),
        e.0@ == entries[i].0@,
    ensures
        obj_model(entries.update(i, e)) == obj_model(entries).insert(e.0@, e.1.model()),
    decreases entries,
{
    if entries.len() > 0 {
        if i == entries.len() - 1 {
            assert(entries.update(i, e).drop_last() =~= entries.drop_last());
            assert(obj_model(entries.update(i, e))
                =~= obj_model(entries).insert(e.0@, e.1.model()));
        } else {
            lemma_obj_model_update(entries.drop_last(), i, e);
            assert(entries.update(i, e).drop_last() =~= entries.drop_last().update(i, e));
            assert(entries.update(i, e).last() == entries.last());
            assert(obj_model(entries.update(i, e))
                =~= obj_model(entries).insert(e.0@, e.1.model()));
        }
    }
}

/// Appending an entry inserts its key into the model.
pub proof fn lemma_obj_model_push(entries: Seq<(String, Value)>, e: (String, Value))
    ensures
        obj_model(entries.push(e)) == obj_model(entries).insert(e.0@, e.1.model()),
{
    assert(entries.push(e).drop_last() =~= entries);
}

/// Two entry lists that agree key by key and model by model have one model.
pub proof fn lemma_obj_model_congruent(a: Seq<(String, Value)>, b: Seq<(String, Value)>)
    requires
        a.len() == b.len(),
        forall|i: int| 0 <= i < a.len() ==> (#[trigger] a[i]).0@ == (#[trigger] b[i]).0@
            && a[i].1.model() == b[i].1.model(),
    ensures
        obj_model(a) == obj_model(b),
    decreases a,
{
    if a.len() > 0 {
        lemma_obj_model_congruent(a.drop_last(), b.drop_last());
        assert(obj_model(a) =~= obj_model(b));
    }
}

} // verus!

verus! {

/// The first candidate name that is present in the map, in candidate order.
pub open spec fn first_present(names: Seq<Seq<char>>, m: Map<Seq<char>, Val>) -> Option<Seq<char>>
    decreases names.len(),
{
    if names.len() == 0 {
        None
    } else if m.contains_key(names.first()) {
        Some(names.first())
    } else {
        first_present(names.drop_first(), m)
    }
}

/// One step of a read: the sub-value under a segment, or `None` when absent.
/// A coalesce segment commits to the first present candidate.
pub open spec fn val_step(v: Val, seg: Seg) -> Option<Val> {
    match seg {
        Seg::Field(f) => if v.obj_map().contains_key(f) {
            Some(v.obj_map()[f])
        } else {
            None
        },
        Seg::Index(i) => if 0 <= i < v.arr_elems().len() {
            Some(v.arr_elems()[i])
        } else {
            None
        },
        Seg::Coalesce(names) => match first_present(names, v.obj_map()) {
            Some(c) => Some(v.obj_map()[c]),
            None => None,
        },
    }
}

/// Read by path: follow the segments; `None` when any step is absent.
pub open spec fn val_get(v: Val, path: Seq<Seg>) -> Option<Val>
    decreases path.len(),
{
    if path.len() == 0 {
        Some(v)
    } else {
        match val_step(v, path.first()) {
            Some(sub) => val_get(sub, path.drop_first()),
            None => None,
        }
    }
}

/// Write by path: replace the whole subtree at the path with `new`, creating
/// intermediate objects and arrays as needed. A value of the wrong sort on
/// the way is replaced; an array too short is padded with nulls; a coalesce
/// segment commits to the first present candidate, or to the first candidate
/// when none is present.
pub open spec fn val_insert(v: Val, path: Seq<Seg>, new: Val) -> Val
    decreases path.len(), 0int,
{
    if path.len() == 0 {
        new
    } else {
        match path.first() {
            Seg::Field(f) => val_insert_field(v, f, path.drop_first(), new),
            Seg::Index(i) => {
                let s0 = v.arr_elems();
                let padded = if i < s0.len() {
                    s0
                } else {
                    s0 + Seq::new((i + 1 - s0.len()) as nat, |j: int| Val::Null)
                };
                let inner = if 0 <= i < s0.len() {
                    s0[i]
                } else {
                    Val::Null
                };
                Val::Array(padded.update(i, val_insert(inner, path.drop_first(), new)))
            },
            Seg::Coalesce(names) => {
                let c = match first_present(names, v.obj_map()) {
                    Some(c) => c,
                    None => names.first(),
                };
                val_insert_field(v, c, path.drop_first(), new)
            },
        }
    }
}

/// Write under one field: descend into the present entry, or into a null
/// where the field is absent.
pub open spec fn val_insert_field(v: Val, f: Seq<char>, rest: Seq<Seg>, new: Val) -> Val
    decreases rest.len(), 1int,
{
    let m = v.obj_map();
    let inner = if m.contains_key(f) {
        m[f]
    } else {
        Val::Null
    };
    Val::Object(m.insert(f, val_insert(inner, rest, new)))
}

} // verus!

verus! {

/// Stepping one segment into a path's tail.
pub proof fn lemma_skip_step(p: Seq<Seg>, at: int)
    requires
        0 <= at < p.len(),
    ensures
        p.skip(at).len() == p.len() - at,
        p.skip(at).first() == p[at],
        p.skip(at).drop_first() == p.skip(at + 1),
{
    assert(p.skip(at).drop_first() =~= p.skip(at + 1));
}

/// Candidates known to be absent do not change the first present one.
pub proof fn lemma_first_present_prefix(s: Seq<Seq<char>>, m: Map<Seq<char>, Val>, j: int)
    requires
        0 <= j <= s.len(),
        forall|j2: int| 0 <= j2 < j ==> !m.contains_key(#[trigger] s[j2]),
    ensures
        first_present(s, m) == first_present(s.skip(j), m),
    decreases j,
{
    if j > 0 {
        assert forall|j2: int| 0 <= j2 < j - 1 implies
            !m.contains_key(#[trigger] s.drop_first()[j2]) by {
            assert(s.drop_first()[j2] == s[j2 + 1]);
        }
        lemma_first_present_prefix(s.drop_first(), m, j - 1);
        assert(s.drop_first().skip(j - 1) =~= s.skip(j));
        assert(!m.contains_key(s[0]));
    } else {
        assert(s.skip(0) =~= s);
    }
}

/// A first present candidate is indeed present.
pub proof fn lemma_first_present_some(s: Seq<Seq<char>>, m: Map<Seq<char>, Val>)
    ensures
        match first_present(s, m) {
            Some(c) => m.contains_key(c),
            None => true,
        },
    decreases s.len(),
{
    if s.len() > 0 && !m.contains_key(s.first()) {
        lemma_first_present_some(s.drop_first(), m);
    }
}

/// Index of the first entry carrying the given key, if any.
pub(crate) fn find_key<T>(entries: &Vec<(String, T)>, name: &String) -> (r: Option<usize>)
    ensures
        match r {
            Some(i) => i < entries@.len() && entries@[i as int].0@ == name@
                && forall|j: int| 0 <= j < i ==> (#[trigger] entries@[j]).0@ != name@,
            None => !has_key(entries@, name@),
        },
{
    let mut i: usize = 0;
    while i < entries.len()
        invariant
            i <= entries@.len(),
            forall|j: int| 0 <= j < i ==> (#[trigger] entries@[j]).0@ != name@,
        decreases entries@.len() - i,
    {
        if entries[i].0 == *name {
            return Some(i);
        }
        i += 1;
    }
    None
}

/// Index of the first candidate name present in the value's object entries;
/// `None` when no candidate is present or the value is no object.
fn first_present_idx(names: &Vec<String>, v: &Value) -> (r: Option<usize>)
    ensures
        match r {
            Some(j) => j < names@.len() && first_present(
                names@.map_values(|n: String| n@),
                v.model().obj_map(),
            ) == Some(names@[j as int]@),
            None => first_present(names@.map_values(|n: String| n@), v.model().obj_map())
                is None,
        },
{
    let ghost s = names@.map_values(|n: String| n@);
    let ghost m = v.model().obj_map();
    let mut j: usize = 0;
    while j < names.len()
        invariant
            j <= names@.len(),
            s == names@.map_values(|n: String| n@),
            m == v.model().obj_map(),
            forall|j2: int| 0 <= j2 < j ==> !m.contains_key(#[trigger] s[j2]),
        decreases names@.len() - j,
    {
        proof {
            assert(s[j as int] == names@[j as int]@);
        }
        let mut present: bool = false;
        match v {
            Value::Object(entries) => {
                let f = find_key(entries, &names[j]);
                proof {
                    lemma_obj_model_dom(entries@);
                    if f is Some {
                        let i = f->Some_0;
                        assert(entries@[i as int].0@ == s[j as int]);
                        assert(has_key(entries@, s[j as int]));
                    }
                }
                present = f.is_some();
                proof {
                    assert(m == obj_model(entries@));
                    assert(present == m.contains_key(s[j as int]));
                }
            },
            _ => {
                proof {
                    assert(!m.contains_key(s[j as int]));
                }
            },
        };
        proof {
            assert(present == m.contains_key(s[j as int]));
        }
        if present {
            proof {
                lemma_first_present_prefix(s, m, j as int);
                assert(s.skip(j as int).first() == s[j as int]);
            }
            return Some(j);
        }
        j += 1;
    }
    proof {
        lemma_first_present_prefix(s, m, j as int);
        assert(s.skip(j as int) =~= Seq::<Seq<char>>::empty());
    }
    None
}

impl Value {
    /// A copy with the same model, entry by entry.
    #[verifier::loop_isolation(false)]
    pub fn deep_clone(&self) -> (r: Value)
        ensures
            r.model() == self.model(),
            self.wf() ==> r.wf(),
        decreases self,
    {
        match self {
            Value::Null => Value::Null,
            Value::Boolean(b) => Value::Boolean(*b),
            Value::Integer(i) => Value::Integer(*i),
            Value::Float(bits) => Value::Float(*bits),
            Value::Bytes(b) => {
                let c = b.clone();
                proof {
                    assert(c@ =~= b@);
                }
                Value::Bytes(c)
            },
            Value::Timestamp(t) => Value::Timestamp(*t),
            Value::Array(elems) => {
                let mut out: Vec<Value> = Vec::new();
                let mut i: usize = 0;
                while i < elems.len()
                    invariant
                        i <= elems@.len(),
                        out@.len() == i as int,
                        forall|j: int| 0 <= j < i ==> (#[trigger] out@[j]).model()
                            == elems@[j].model(),
                        forall|j: int| 0 <= j < i ==> (elems@[j].wf()
                            ==> (#[trigger] out@[j]).wf()),
                    decreases elems@.len() - i,
                {
                    proof {
                        assert(*elems == self->Array_0);
                        assert(decreases_to!(*self => self->Array_0));
                        assert(decreases_to!(*elems => elems@));
                        assert(decreases_to!(elems@ => elems@[i as int]));
                    }
                    out.push(elems[i].deep_clone());
                    i += 1;
                }
                proof {
                    lemma_arr_model(out@);
                    lemma_arr_model(elems@);
                    assert forall|k: int| 0 <= k < arr_model(out@).len() implies
                        arr_model(out@)[k] == arr_model(elems@)[k] by {
                        assert(out@[k].model() == elems@[k].model());
                    }
                    assert(arr_model(out@) =~= arr_model(elems@));
                }
                Value::Array(out)
            },
            Value::Object(entries) => {
                let mut out: Vec<(String, Value)> = Vec::new();
                let mut i: usize = 0;
                while i < entries.len()
                    invariant
                        i <= entries@.len(),
                        out@.len() == i as int,
                        forall|j: int| 0 <= j < i ==> (#[trigger] out@[j]).0@
                            == entries@[j].0@,
                        forall|j: int| 0 <= j < i ==> (#[trigger] out@[j]).1.model()
                            == entries@[j].1.model(),
                        forall|j: int| 0 <= j < i ==> (entries@[j].1.wf()
                            ==> (#[trigger] out@[j]).1.wf()),
                    decreases entries@.len() - i,
                {
                    proof {
                        assert(*entries == self->Object_0);
                        assert(decreases_to!(*self => self->Object_0));
                        assert(decreases_to!(*entries => entries@));
                        assert(decreases_to!(entries@ => entries@[i as int]));
                        assert(decreases_to!(entries@[i as int] => entries@[i as int].1));
                    }
                    let k = entries[i].0.clone();
                    let v = entries[i].1.deep_clone();
                    out.push((k, v));
                    i += 1;
                }
                proof {
                    lemma_obj_model_congruent(out@, entries@);
                }
                Value::Object(out)
            },
        }
    }

    /// Read by path: the sub-value at the path, or `None` when absent.
    pub fn get_by_path<'a>(&'a self, path: &Path) -> (r: Option<&'a Value>)
        requires
            self.wf(),
        ensures
            match r {
                Some(sub) => val_get(self.model(), path.model()) == Some(sub.model())
                    && sub.wf(),
                None => val_get(self.model(), path.model()) is None,
            },
    {
        proof {
            assert(path.model().skip(0) =~= path.model());
        }
        self.get_rec(path, 0)
    }

    fn get_rec<'a>(&'a self, path: &Path, at: usize) -> (r: Option<&'a Value>)
        requires
            at <= path.segments@.len(),
            self.wf(),
        ensures
            match r {
                Some(sub) => val_get(self.model(), path.model().skip(at as int))
                    == Some(sub.model()) && sub.wf(),
                None => val_get(self.model(), path.model().skip(at as int)) is None,
            },
        decreases path.segments@.len() - at,
    {
        if at == path.segments.len() {
            proof {
                assert(path.model().skip(at as int) =~= Seq::<Seg>::empty());
            }
            return Some(self);
        }
        proof {
            lemma_skip_step(path.model(), at as int);
        }
        let sub: Option<&Value> = match (&path.segments[at], self) {
            (Segment::Field(name), Value::Object(entries)) => {
                match find_key(entries, name) {
                    Some(i) => {
                        proof {
                            lemma_obj_model_at(entries@, i as int);
                        }
                        Some(&entries[i].1)
                    },
                    None => {
                        proof {
                            lemma_obj_model_dom(entries@);
                        }
                        None
                    },
                }
            },
            (Segment::Index(idx), Value::Array(elems)) => {
                if *idx < elems.len() {
                    proof {
                        lemma_arr_model(elems@);
                    }
                    Some(&elems[*idx])
                } else {
                    proof {
                        lemma_arr_model(elems@);
                    }
                    None
                }
            },
            (Segment::Coalesce(names), Value::Object(entries)) => {
                match first_present_idx(names, self) {
                    Some(j) => {
                        proof {
                            assert(self.model().obj_map() == obj_model(entries@));
                            lemma_first_present_some(
                                names@.map_values(|n: String| n@),
                                self.model().obj_map(),
                            );
                            lemma_obj_model_dom(entries@);
                            assert(obj_model(entries@).contains_key(
                                names@.map_values(|n: String| n@)[j as int],
                            ));
                            assert(names@.map_values(|n: String| n@)[j as int]
                                == names@[j as int]@);
                        }
                        match find_key(entries, &names[j]) {
                            Some(i) => {
                                proof {
                                    lemma_obj_model_at(entries@, i as int);
                                }
                                Some(&entries[i].1)
                            },
                            None => {
                                // the candidate was found present just above
                                proof {
                                    assert(false);
                                }
                                None
                            },
                        }
                    },
                    None => None,
                }
            },
            _ => {
                proof {
                    let seg = path.segments@[at as int].model();
                    assert(path.model().skip(at as int).first() == seg);
                    match seg {
                        Seg::Coalesce(cands) => {
                            lemma_first_present_prefix(
                                cands,
                                self.model().obj_map(),
                                cands.len() as int,
                            );
                            assert(cands.skip(cands.len() as int)
                                =~= Seq::<Seq<char>>::empty());
                        },
                        _ => {},
                    }
                    assert(val_step(self.model(), seg) is None);
                }
                None
            },
        };
        match sub {
            Some(s) => s.get_rec(path, at + 1),
            None => None,
        }
    }
}

} // verus!

verus! {

impl Value {
    /// Write by path: replaces the whole subtree at the path with `new`,
    /// creating intermediate objects and arrays as needed. The result is a
    /// fresh value; nothing is shared with the inputs.
    pub fn insert_by_path(self, path: &Path, new: Value) -> (r: Value)
        requires
            self.wf(),
            new.wf(),
            path.wf(),
        ensures
            r.model() == val_insert(self.model(), path.model(), new.model()),
            r.wf(),
    {
        proof {
            assert(path.model().skip(0) =~= path.model());
        }
        self.insert_rec(path, 0, new)
    }

    #[verifier::loop_isolation(false)]
    fn insert_rec(self, path: &Path, at: usize, new: Value) -> (r: Value)
        requires
            at <= path.segments@.len(),
            self.wf(),
            new.wf(),
            path.wf(),
        ensures
            r.model() == val_insert(self.model(), path.model().skip(at as int), new.model()),
            r.wf(),
        decreases path.segments@.len() - at, 0int,
    {
        if at == path.segments.len() {
            proof {
                assert(path.model().skip(at as int) =~= Seq::<Seg>::empty());
            }
            return new;
        }
        proof {
            lemma_skip_step(path.model(), at as int);
            assert(path.model()[at as int] == path.segments@[at as int].model());
            assert(path.segments@[at as int].wf());
        }
        match &path.segments[at] {
            Segment::Field(name) => self.insert_field_rec(name, path, at + 1, new),
            Segment::Index(idx) => {
                let idx: usize = *idx;
                let ghost v0 = self.model();
                let ghost s0 = v0.arr_elems();
                let mut elems: Vec<Value> = match self {
                    Value::Array(e) => e,
                    _ => Vec::new(),
                };
                proof {
                    if !(v0 is Array) {
                        assert(elems@ =~= Seq::<Value>::empty());
                    }
                    assert(arr_model(elems@) == s0);
                    lemma_arr_model(elems@);
                }
                let ghost e0 = elems@;
                while elems.len() <= idx
                    invariant
                        forall|j: int| 0 <= j < e0.len() ==> elems@[j] == e0[j],
                        e0.len() < elems@.len() ==> elems@.len() <= idx as int + 1,
                        elems@.len() >= e0.len(),
                        forall|j: int| e0.len() <= j < elems@.len()
                            ==> elems@[j] == Value::Null,
                    decreases idx as int + 1 - elems@.len(),
                {
                    elems.push(Value::Null);
                }
                let ghost padded = if (idx as int) < s0.len() {
                    s0
                } else {
                    s0 + Seq::new((idx + 1 - s0.len()) as nat, |j: int| Val::Null)
                };
                proof {
                    lemma_arr_model(elems@);
                    lemma_arr_model(e0);
                    assert forall|j: int| 0 <= j < elems@.len() implies
                        arr_model(elems@)[j] == padded[j] by {
                        if j < e0.len() {
                            assert(elems@[j] == e0[j]);
                        } else {
                            assert(elems@[j] == Value::Null);
                        }
                    }
                    assert(arr_model(elems@) =~= padded);
                }
                let ghost mid = elems@;
                let inner_v = elems.remove(idx);
                proof {
                    if (idx as int) < e0.len() {
                        assert(inner_v == e0[idx as int]);
                    } else {
                        assert(inner_v == Value::Null);
                    }
                }
                let upd = inner_v.insert_rec(path, at + 1, new);
                elems.insert(idx, upd);
                proof {
                    assert(elems@ =~= mid.update(idx as int, upd));
                    lemma_arr_model(elems@);
                    lemma_arr_model(mid);
                    let inner_m = if (idx as int) < s0.len() {
                        s0[idx as int]
                    } else {
                        Val::Null
                    };
                    let rest = path.model().skip(at as int).drop_first();
                    let tgt = padded.update(idx as int, val_insert(inner_m, rest, new.model()));
                    assert(upd.model() == val_insert(inner_m, rest, new.model()));
                    assert forall|j: int| 0 <= j < arr_model(elems@).len() implies
                        arr_model(elems@)[j] == tgt[j] by {
                        assert(arr_model(elems@)[j] == elems@[j].model());
                        if j != idx as int {
                            assert(elems@[j] == mid[j]);
                            assert(arr_model(mid)[j] == mid[j].model());
                            assert(arr_model(mid)[j] == padded[j]);
                        }
                    }
                    assert(arr_model(elems@) =~= tgt);
                    assert forall|j: int| 0 <= j < elems@.len() implies
                        (#[trigger] elems@[j]).wf() by {
                        if j != idx as int {
                            assert(elems@[j] == mid[j]);
                            if j < e0.len() {
                                assert(mid[j] == e0[j]);
                                assert(e0[j].wf());
                            } else {
                                assert(mid[j] == Value::Null);
                            }
                        }
                    }
                }
                Value::Array(elems)
            },
            Segment::Coalesce(names) => {
                let jo = first_present_idx(names, &self);
                let chosen: usize = match jo {
                    Some(j) => j,
                    None => 0,
                };
                proof {
                    assert(names@.map_values(|n: String| n@)[chosen as int]
                        == names@[chosen as int]@);
                    if jo is None {
                        assert(names@.map_values(|n: String| n@).first()
                            == names@[0]@);
                    }
                }
                self.insert_field_rec(&names[chosen], path, at + 1, new)
            },
        }
    }

    fn insert_field_rec(self, name: &String, path: &Path, at: usize, new: Value) -> (r: Value)
        requires
            at <= path.segments@.len(),
            self.wf(),
            new.wf(),
            path.wf(),
        ensures
            r.model() == val_insert_field(
                self.model(),
                name@,
                path.model().skip(at as int),
                new.model(),
            ),
            r.wf(),
        decreases path.segments@.len() - at, 1int,
    {
        let ghost v0 = self.model();
        let mut entries: Vec<(String, Value)> = match self {
            Value::Object(e) => e,
            _ => Vec::new(),
        };
        proof {
            if !(v0 is Object) {
                assert(entries@ =~= Seq::<(String, Value)>::empty());
            }
            assert(obj_model(entries@) == v0.obj_map());
            lemma_obj_model_dom(entries@);
        }
        let ghost e0 = entries@;
        match find_key(&entries, name) {
            Some(i) => {
                proof {
                    lemma_obj_model_at(e0, i as int);
                }
                let (k, inner_v) = entries.remove(i);
                let upd = inner_v.insert_rec(path, at, new);
                entries.insert(i, (k, upd));
                proof {
                    assert(entries@ =~= e0.update(i as int, (k, upd)));
                    lemma_obj_model_update(e0, i as int, (k, upd));
                    assert forall|i2: int, j2: int|
                        0 <= i2 < j2 < entries@.len() implies
                        (#[trigger] entries@[i2]).0@ != (#[trigger] entries@[j2]).0@ by {
                        assert(entries@[i2].0@ == e0[i2].0@);
                        assert(entries@[j2].0@ == e0[j2].0@);
                    }
                }
                Value::Object(entries)
            },
            None => {
                let upd = Value::Null.insert_rec(path, at, new);
                let k = name.clone();
                entries.push((k, upd));
                proof {
                    lemma_obj_model_push(e0, (k, upd));
                    assert forall|i2: int, j2: int|
                        0 <= i2 < j2 < entries@.len() implies
                        (#[trigger] entries@[i2]).0@ != (#[trigger] entries@[j2]).0@ by {
                        if j2 < e0.len() {
                            assert(entries@[i2] == e0[i2]);
                            assert(entries@[j2] == e0[j2]);
                        } else {
                            assert(entries@[j2].0@ == name@);
                            assert(entries@[i2] == e0[i2]);
                            assert(!has_key(e0, name@));
                        }
                    }
                }
                Value::Object(entries)
            },
        }
    }
}

} // verus!
