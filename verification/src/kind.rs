//! The structural type lattice: sets of possible shapes with known and
//! unknown collection entries, and the operations that thread updates
//! through paths.
use vstd::prelude::*;
use crate::path::{Path, Seg, Segment};
use crate::value::{find_key, has_key, lemma_skip_step, unique_keys};

verus! {

/// Model of a structural kind: which primitive shapes a value may take,
/// and what is known of its array and object entries. `any` marks the
/// universal kind — no static information at all.
#[verifier::ext_equal]
pub struct KindM {
    pub any: bool,
    pub bytes: bool,
    pub integer: bool,
    pub float: bool,
    pub boolean: bool,
    pub timestamp: bool,
    pub null: bool,
    pub array: Option<CollAM>,
    pub object: Option<CollOM>,
}

/// Model of an array collection: kinds at known indices, and one fallback
/// for every index outside them (absent when the indices are exhaustive).
#[verifier::ext_equal]
pub struct CollAM {
    pub known: Map<int, KindM>,
    pub unknown: Option<Box<KindM>>,
}

/// Model of an object collection: kinds at known field names, and one
/// fallback for every other field (absent when the fields are exhaustive).
#[verifier::ext_equal]
pub struct CollOM {
    pub known: Map<Seq<char>, KindM>,
    pub unknown: Option<Box<KindM>>,
}

/// Depth of a merge: `Shallow` unions top-level entries only (the new side
/// wins on a colliding entry), `Deep` recurses into colliding entries.
#[derive(Clone, Copy, Debug, PartialEq, Eq, Structural)]
pub enum Depth {
    Shallow,
    Deep,
}

/// What a merge does with array positions: `Keep` unions the positions of
/// both sides, merging on a collision.
#[derive(Clone, Copy, Debug, PartialEq, Eq, Structural)]
pub enum Indices {
    Keep,
}

/// Configuration of a kind merge.
#[derive(Clone, Copy, Debug, PartialEq, Eq, Structural)]
pub struct MergeStrategy {
    pub depth: Depth,
    pub indices: Indices,
}

/// The union of two kinds: either shape may occur. With `Deep`, entries
/// known on both sides are merged recursively; an entry known on one side
/// only is merged with the other side's fallback, when there is one.
pub open spec fn merge_kinds(a: KindM, b: KindM, depth: Depth) -> KindM
    decreases a, b, 2int,
{
    KindM {
        any: a.any || b.any,
        bytes: a.bytes || b.bytes,
        integer: a.integer || b.integer,
        float: a.float || b.float,
        boolean: a.boolean || b.boolean,
        timestamp: a.timestamp || b.timestamp,
        null: a.null || b.null,
        array: match (a.array, b.array) {
            (Some(ca), Some(cb)) => Some(merge_coll_a(ca, cb, depth)),
            (Some(ca), None) => Some(ca),
            (None, cb) => cb,
        },
        object: match (a.object, b.object) {
            (Some(ca), Some(cb)) => Some(merge_coll_o(ca, cb, depth)),
            (Some(ca), None) => Some(ca),
            (None, cb) => cb,
        },
    }
}

/// The union of two array collections.
pub open spec fn merge_coll_a(ca: CollAM, cb: CollAM, depth: Depth) -> CollAM
    decreases ca, cb, 1int,
{
    CollAM {
        known: Map::new(
            |k: int| ca.known.contains_key(k) || cb.known.contains_key(k),
            |k: int| if ca.known.contains_key(k) && cb.known.contains_key(k) {
                if depth == Depth::Deep {
                    merge_kinds(ca.known[k], cb.known[k], depth)
                } else {
                    cb.known[k]
                }
            } else if ca.known.contains_key(k) {
                match cb.unknown {
                    Some(u) => if depth == Depth::Deep {
                        merge_kinds(ca.known[k], *u, depth)
                    } else {
                        ca.known[k]
                    },
                    None => ca.known[k],
                }
            } else if cb.known.contains_key(k) {
                match ca.unknown {
                    Some(u) => if depth == Depth::Deep {
                        merge_kinds(*u, cb.known[k], depth)
                    } else {
                        cb.known[k]
                    },
                    None => cb.known[k],
                }
            } else {
                arbitrary()
            },
        ),
        unknown: match (ca.unknown, cb.unknown) {
            (Some(ua), Some(ub)) => Some(Box::new(merge_kinds(*ua, *ub, depth))),
            (Some(ua), None) => Some(ua),
            (None, ub) => ub,
        },
    }
}

/// The union of two object collections.
pub open spec fn merge_coll_o(ca: CollOM, cb: CollOM, depth: Depth) -> CollOM
    decreases ca, cb, 1int,
{
    CollOM {
        known: Map::new(
            |k: Seq<char>| ca.known.contains_key(k) || cb.known.contains_key(k),
            |k: Seq<char>| if ca.known.contains_key(k) && cb.known.contains_key(k) {
                if depth == Depth::Deep {
                    merge_kinds(ca.known[k], cb.known[k], depth)
                } else {
                    cb.known[k]
                }
            } else if ca.known.contains_key(k) {
                match cb.unknown {
                    Some(u) => if depth == Depth::Deep {
                        merge_kinds(ca.known[k], *u, depth)
                    } else {
                        ca.known[k]
                    },
                    None => ca.known[k],
                }
            } else if cb.known.contains_key(k) {
                match ca.unknown {
                    Some(u) => if depth == Depth::Deep {
                        merge_kinds(*u, cb.known[k], depth)
                    } else {
                        cb.known[k]
                    },
                    None => cb.known[k],
                }
            } else {
                arbitrary()
            },
        ),
        unknown: match (ca.unknown, cb.unknown) {
            (Some(ua), Some(ub)) => Some(Box::new(merge_kinds(*ua, *ub, depth))),
            (Some(ua), None) => Some(ua),
            (None, ub) => ub,
        },
    }
}

} // verus!

verus! {

/// A compile-time kind. Collections keep no duplicate keys, so that a kind
/// determines its model entry by entry.
#[derive(Debug, PartialEq)]
pub struct Kind {
    pub any: bool,
    pub bytes: bool,
    pub integer: bool,
    pub float: bool,
    pub boolean: bool,
    pub timestamp: bool,
    pub null: bool,
    pub array: Option<ArrayColl>,
    pub object: Option<ObjectColl>,
}

/// Kinds at known array indices, and one fallback for all other indices.
#[derive(Debug, PartialEq)]
pub struct ArrayColl {
    pub known: Vec<(usize, Kind)>,
    pub unknown: Option<Box<Kind>>,
}

/// Kinds at known field names, and one fallback for all other fields.
#[derive(Debug, PartialEq)]
pub struct ObjectColl {
    pub known: Vec<(String, Kind)>,
    pub unknown: Option<Box<Kind>>,
}

/// No two entries carry the same index.
pub open spec fn unique_ikeys(entries: Seq<(usize, Kind)>) -> bool {
    forall|i: int, j: int|
        0 <= i < j < entries.len() ==> (#[trigger] entries[i]).0 != (#[trigger] entries[j]).0
}

/// Some entry carries this index.
pub open spec fn has_ikey(entries: Seq<(usize, Kind)>, k: int) -> bool {
    exists|i: int| 0 <= i < entries.len() && (#[trigger] entries[i]).0 == k
}

/// Model of an index-keyed entry list.
pub open spec fn amodel(entries: Seq<(usize, Kind)>) -> Map<int, KindM>
    decreases entries,
{
    if entries.len() == 0 {
        Map::empty()
    } else {
        amodel(entries.drop_last()).insert(
            entries.last().0 as int,
            entries.last().1.model(),
        )
    }
}

/// Model of a name-keyed entry list.
pub open spec fn omodel(entries: Seq<(String, Kind)>) -> Map<Seq<char>, KindM>
    decreases entries,
{
    if entries.len() == 0 {
        Map::empty()
    } else {
        omodel(entries.drop_last()).insert(entries.last().0@, entries.last().1.model())
    }
}

/// Model of an array collection.
pub open spec fn coll_a_model(c: ArrayColl) -> CollAM
    decreases c,
{
    CollAM {
        known: amodel(c.known@),
        unknown: match c.unknown {
            Some(b) => Some(Box::new((*b).model())),
            None => None,
        },
    }
}

/// Model of an object collection.
pub open spec fn coll_o_model(c: ObjectColl) -> CollOM
    decreases c,
{
    CollOM {
        known: omodel(c.known@),
        unknown: match c.unknown {
            Some(b) => Some(Box::new((*b).model())),
            None => None,
        },
    }
}

/// Well-formed array collection: unique indices, well-formed entries.
pub open spec fn coll_a_wf(c: ArrayColl) -> bool
    decreases c,
{
    &&& unique_ikeys(c.known@)
    &&& forall|i: int| 0 <= i < c.known@.len() ==> (#[trigger] c.known@[i]).1.wf()
    &&& match c.unknown {
        Some(b) => (*b).wf(),
        None => true,
    }
}

/// Well-formed object collection: unique names, well-formed entries.
pub open spec fn coll_o_wf(c: ObjectColl) -> bool
    decreases c,
{
    &&& unique_keys(c.known@)
    &&& forall|i: int| 0 <= i < c.known@.len() ==> (#[trigger] c.known@[i]).1.wf()
    &&& match c.unknown {
        Some(b) => (*b).wf(),
        None => true,
    }
}

impl Kind {
    /// Model of this kind.
    pub open spec fn model(self) -> KindM
        decreases self,
    {
        KindM {
            any: self.any,
            bytes: self.bytes,
            integer: self.integer,
            float: self.float,
            boolean: self.boolean,
            timestamp: self.timestamp,
            null: self.null,
            array: match self.array {
                Some(c) => Some(coll_a_model(c)),
                None => None,
            },
            object: match self.object {
                Some(c) => Some(coll_o_model(c)),
                None => None,
            },
        }
    }

    /// Well-formed: no collection anywhere holds the same key twice.
    pub open spec fn wf(self) -> bool
        decreases self,
    {
        &&& match self.array {
            Some(c) => coll_a_wf(c),
            None => true,
        }
        &&& match self.object {
            Some(c) => coll_o_wf(c),
            None => true,
        }
    }
}

/// The index-keyed model holds exactly the entry indices.
pub proof fn lemma_amodel_dom(entries: Seq<(usize, Kind)>)
    ensures
        forall|k: int| #[trigger] amodel(entries).contains_key(k) <==> has_ikey(entries, k),
    decreases entries,
{
    if entries.len() > 0 {
        lemma_amodel_dom(entries.drop_last());
        assert forall|k: int| has_ikey(entries, k) implies amodel(entries).contains_key(k) by {
            let i = choose|i: int| 0 <= i < entries.len() && (#[trigger] entries[i]).0 == k;
            if i < entries.len() - 1 {
                assert(entries.drop_last()[i].0 == k);
                assert(has_ikey(entries.drop_last(), k));
                assert(amodel(entries.drop_last()).contains_key(k));
            }
        }
        assert forall|k: int| #[trigger] amodel(entries).contains_key(k) implies
            has_ikey(entries, k) by {
            if k == entries.last().0 as int {
                assert(entries[entries.len() - 1].0 == k);
            } else {
                assert(amodel(entries.drop_last()).contains_key(k));
                let i = choose|i: int|
                    0 <= i < entries.drop_last().len() && (#[trigger] entries.drop_last()[i]).0 == k;
                assert(entries[i].0 == k);
            }
        }
    }
}

/// With unique indices, the model at an entry's index is that entry's kind.
pub proof fn lemma_amodel_at(entries: Seq<(usize, Kind)>, i: int)
    requires
        unique_ikeys(entries),
        0 <= i < entries.len(),
    ensures
        amodel(entries).contains_key(entries[i].0 as int),
        amodel(entries)[entries[i].0 as int] == entries[i].1.model(),
    decreases entries,
{
    if i < entries.len() - 1 {
        lemma_amodel_at(entries.drop_last(), i);
    }
}

/// Replacing entry `i`'s kind updates the model at that entry's index alone.
pub proof fn lemma_amodel_update(entries: Seq<(usize, Kind)>, i: int, e: (usize, Kind))
    requires
        unique_ikeys(entries),
        0 <= i < entries.len(),
        e.0 == entries[i].0,
    ensures
        amodel(entries.update(i, e)) == amodel(entries).insert(e.0 as int, e.1.model()),
    decreases entries,
{
    if entries.len() > 0 {
        if i == entries.len() - 1 {
            assert(entries.update(i, e).drop_last() =~= entries.drop_last());
            assert(amodel(entries.update(i, e))
                =~= amodel(entries).insert(e.0 as int, e.1.model()));
        } else {
            lemma_amodel_update(entries.drop_last(), i, e);
            assert(entries.update(i, e).drop_last() =~= entries.drop_last().update(i, e));
            assert(entries.update(i, e).last() == entries.last());
            assert(amodel(entries.update(i, e))
                =~= amodel(entries).insert(e.0 as int, e.1.model()));
        }
    }
}

/// Appending an entry inserts its index into the model.
pub proof fn lemma_amodel_push(entries: Seq<(usize, Kind)>, e: (usize, Kind))
    ensures
        amodel(entries.push(e)) == amodel(entries).insert(e.0 as int, e.1.model()),
{
    assert(entries.push(e).drop_last() =~= entries);
}

/// The name-keyed model holds exactly the entry names.
pub proof fn lemma_omodel_dom(entries: Seq<(String, Kind)>)
    ensures
        forall|k: Seq<char>| #[trigger] omodel(entries).contains_key(k) <==> has_key(entries, k),
    decreases entries,
{
    if entries.len() > 0 {
        lemma_omodel_dom(entries.drop_last());
        assert forall|k: Seq<char>| has_key(entries, k) implies
            omodel(entries).contains_key(k) by {
            let i = choose|i: int| 0 <= i < entries.len() && (#[trigger] entries[i]).0@ == k;
            if i < entries.len() - 1 {
                assert(entries.drop_last()[i].0@ == k);
                assert(has_key(entries.drop_last(), k));
                assert(omodel(entries.drop_last()).contains_key(k));
            }
        }
        assert forall|k: Seq<char>| #[trigger] omodel(entries).contains_key(k) implies
            has_key(entries, k) by {
            if k == entries.last().0@ {
                assert(entries[entries.len() - 1].0@ == k);
            } else {
                assert(omodel(entries.drop_last()).contains_key(k));
                let i = choose|i: int|
                    0 <= i < entries.drop_last().len() && (#[trigger] entries.drop_last()[i]).0@ == k;
                assert(entries[i].0@ == k);
            }
        }
    }
}

/// With unique names, the model at an entry's name is that entry's kind.
pub proof fn lemma_omodel_at(entries: Seq<(String, Kind)>, i: int)
    requires
        unique_keys(entries),
        0 <= i < entries.len(),
    ensures
        omodel(entries).contains_key(entries[i].0@),
        omodel(entries)[entries[i].0@] == entries[i].1.model(),
    decreases entries,
{
    if i < entries.len() - 1 {
        lemma_omodel_at(entries.drop_last(), i);
    }
}

/// Replacing entry `i`'s kind updates the model at that entry's name alone.
pub proof fn lemma_omodel_update(entries: Seq<(String, Kind)>, i: int, e: (String, Kind))
    requires
        unique_keys(entries),
        0 <= i < entries.len(),
        e.0@ == entries[i].0@,
    ensures
        omodel(entries.update(i, e)) == omodel(entries).insert(e.0@, e.1.model()),
    decreases entries,
{
    if entries.len() > 0 {
        if i == entries.len() - 1 {
            assert(entries.update(i, e).drop_last() =~= entries.drop_last());
            assert(omodel(entries.update(i, e))
                =~= omodel(entries).insert(e.0@, e.1.model()));
        } else {
            lemma_omodel_update(entries.drop_last(), i, e);
            assert(entries.update(i, e).drop_last() =~= entries.drop_last().update(i, e));
            assert(entries.update(i, e).last() == entries.last());
            assert(omodel(entries.update(i, e))
                =~= omodel(entries).insert(e.0@, e.1.model()));
        }
    }
}

/// Appending an entry inserts its name into the model.
pub proof fn lemma_omodel_push(entries: Seq<(String, Kind)>, e: (String, Kind))
    ensures
        omodel(entries.push(e)) == omodel(entries).insert(e.0@, e.1.model()),
{
    assert(entries.push(e).drop_last() =~= entries);
}

} // verus!

verus! {

/// The kind with no possible shape and no collections: the seed for a
/// freshly created node on an insert path.
pub open spec fn empty_kind() -> KindM {
    KindM {
        any: false,
        bytes: false,
        integer: false,
        float: false,
        boolean: false,
        timestamp: false,
        null: false,
        array: None,
        object: None,
    }
}

/// The kind of a field read: the known entry, else the fallback, else
/// absent.
pub open spec fn kind_step_field(k: KindM, f: Seq<char>) -> Option<KindM> {
    match k.object {
        Some(c) => if c.known.contains_key(f) {
            Some(c.known[f])
        } else {
            match c.unknown {
                Some(u) => Some(*u),
                None => None,
            }
        },
        None => None,
    }
}

/// The kind of an index read: the known entry, else the fallback, else
/// absent.
pub open spec fn kind_step_index(k: KindM, i: int) -> Option<KindM> {
    match k.array {
        Some(c) => if c.known.contains_key(i) {
            Some(c.known[i])
        } else {
            match c.unknown {
                Some(u) => Some(*u),
                None => None,
            }
        },
        None => None,
    }
}

/// The kind of a coalesce read: since no value is at hand to pick the first
/// present candidate, every candidate that could match is explored, and the
/// results are unioned.
pub open spec fn kind_step_coalesce(k: KindM, names: Seq<Seq<char>>) -> Option<KindM>
    decreases names.len(),
{
    if names.len() == 0 {
        None
    } else {
        let head = kind_step_field(k, names.first());
        let rest = kind_step_coalesce(k, names.drop_first());
        match (head, rest) {
            (Some(a), Some(b)) => Some(merge_kinds(a, b, Depth::Deep)),
            (Some(a), None) => Some(a),
            (None, r) => r,
        }
    }
}

/// The kind at a path, or `None` where no static information reaches.
pub open spec fn kind_at(k: KindM, path: Seq<Seg>) -> Option<KindM>
    decreases path.len(),
{
    if path.len() == 0 {
        Some(k)
    } else {
        let sub = match path.first() {
            Seg::Field(f) => kind_step_field(k, f),
            Seg::Index(i) => kind_step_index(k, i),
            Seg::Coalesce(names) => kind_step_coalesce(k, names),
        };
        match sub {
            Some(s) => kind_at(s, path.drop_first()),
            None => None,
        }
    }
}

/// What an insert does when an inner path node conflicts with the path
/// (the node cannot be the needed container): replace the node by the
/// freshly built container, or merge the two.
#[derive(Clone, Copy, Debug, PartialEq, Eq, Structural)]
pub enum InnerConflict {
    Replace,
    Merge(MergeStrategy),
}

/// What an insert does at the end of the path: replace the kind found
/// there, or union the two.
#[derive(Clone, Copy, Debug, PartialEq, Eq, Structural)]
pub enum LeafConflict {
    Replace,
    Union,
}

/// What an insert does under a coalesce segment: apply under every
/// candidate name, since no value is at hand to pick one.
#[derive(Clone, Copy, Debug, PartialEq, Eq, Structural)]
pub enum CoalescedPath {
    InsertAll,
}

/// Configuration of a kind insert.
#[derive(Clone, Copy, Debug, PartialEq, Eq, Structural)]
pub struct Strategy {
    pub inner_conflict: InnerConflict,
    pub leaf_conflict: LeafConflict,
    pub coalesced_path: CoalescedPath,
}

/// Write a kind at a path. Present entries on the way are descended into
/// with their siblings, tags and fallbacks preserved; a missing entry is
/// grown from the empty kind; a node that cannot be the needed container is
/// resolved by `inner_conflict`; the end of the path is resolved by
/// `leaf_conflict`; a coalesce segment applies the write under every
/// candidate.
pub open spec fn kind_insert(k: KindM, path: Seq<Seg>, new: KindM, st: Strategy) -> KindM
    decreases path.len(), 0int, 0int,
{
    if path.len() == 0 {
        match st.leaf_conflict {
            LeafConflict::Replace => new,
            LeafConflict::Union => merge_kinds(k, new, Depth::Deep),
        }
    } else {
        match path.first() {
            Seg::Field(f) => kind_insert_field(k, f, path.drop_first(), new, st),
            Seg::Index(i) => kind_insert_index(k, i, path.drop_first(), new, st),
            Seg::Coalesce(names) => kind_insert_all(k, names, path.drop_first(), new, st),
        }
    }
}

/// Write one step under a field name.
pub open spec fn kind_insert_field(
    k: KindM,
    f: Seq<char>,
    rest: Seq<Seg>,
    new: KindM,
    st: Strategy,
) -> KindM
    decreases rest.len(), 1int, 0int,
{
    match k.object {
        Some(c) => {
            let inner = if c.known.contains_key(f) {
                c.known[f]
            } else {
                empty_kind()
            };
            KindM {
                object: Some(
                    CollOM {
                        known: c.known.insert(f, kind_insert(inner, rest, new, st)),
                        unknown: c.unknown,
                    },
                ),
                ..k
            }
        },
        None => {
            let built = KindM {
                object: Some(
                    CollOM {
                        known: Map::empty().insert(f, kind_insert(empty_kind(), rest, new, st)),
                        unknown: None,
                    },
                ),
                ..empty_kind()
            };
            match st.inner_conflict {
                InnerConflict::Replace => built,
                InnerConflict::Merge(ms) => merge_kinds(k, built, ms.depth),
            }
        },
    }
}

/// Write one step under an array index.
pub open spec fn kind_insert_index(
    k: KindM,
    i: int,
    rest: Seq<Seg>,
    new: KindM,
    st: Strategy,
) -> KindM
    decreases rest.len(), 1int, 0int,
{
    match k.array {
        Some(c) => {
            let inner = if c.known.contains_key(i) {
                c.known[i]
            } else {
                empty_kind()
            };
            KindM {
                array: Some(
                    CollAM {
                        known: c.known.insert(i, kind_insert(inner, rest, new, st)),
                        unknown: c.unknown,
                    },
                ),
                ..k
            }
        },
        None => {
            let built = KindM {
                array: Some(
                    CollAM {
                        known: Map::empty().insert(i, kind_insert(empty_kind(), rest, new, st)),
                        unknown: None,
                    },
                ),
                ..empty_kind()
            };
            match st.inner_conflict {
                InnerConflict::Replace => built,
                InnerConflict::Merge(ms) => merge_kinds(k, built, ms.depth),
            }
        },
    }
}

/// Write one step under every candidate of a coalesce segment, in order.
pub open spec fn kind_insert_all(
    k: KindM,
    names: Seq<Seq<char>>,
    rest: Seq<Seg>,
    new: KindM,
    st: Strategy,
) -> KindM
    decreases rest.len(), 2int, names.len(),
{
    if names.len() == 0 {
        k
    } else {
        kind_insert_all(
            kind_insert_field(k, names.first(), rest, new, st),
            names.drop_first(),
            rest,
            new,
            st,
        )
    }
}

} // verus!

verus! {

/// Two entry lists that agree key by key and model by model have one model.
pub proof fn lemma_omodel_congruent(a: Seq<(String, Kind)>, b: Seq<(String, Kind)>)
    requires
        a.len() == b.len(),
        forall|i: int| 0 <= i < a.len() ==> (#[trigger] a[i]).0@ == (#[trigger] b[i]).0@
            && a[i].1.model() == b[i].1.model(),
    ensures
        omodel(a) == omodel(b),
    decreases a,
{
    if a.len() > 0 {
        lemma_omodel_congruent(a.drop_last(), b.drop_last());
        assert(omodel(a) =~= omodel(b));
    }
}

/// Two entry lists that agree index by index and model by model have one
/// model.
pub proof fn lemma_amodel_congruent(a: Seq<(usize, Kind)>, b: Seq<(usize, Kind)>)
    requires
        a.len() == b.len(),
        forall|i: int| 0 <= i < a.len() ==> (#[trigger] a[i]).0 == (#[trigger] b[i]).0
            && a[i].1.model() == b[i].1.model(),
    ensures
        amodel(a) == amodel(b),
    decreases a,
{
    if a.len() > 0 {
        lemma_amodel_congruent(a.drop_last(), b.drop_last());
        assert(amodel(a) =~= amodel(b));
    }
}

/// Index of the first entry carrying the given array index, if any.
fn find_ikey(entries: &Vec<(usize, Kind)>, key: usize) -> (r: Option<usize>)
    ensures
        match r {
            Some(i) => i < entries@.len() && entries@[i as int].0 == key,
            None => !has_ikey(entries@, key as int),
        },
{
    let mut i: usize = 0;
    while i < entries.len()
        invariant
            i <= entries@.len(),
            forall|j: int| 0 <= j < i ==> (#[trigger] entries@[j]).0 != key,
        decreases entries@.len() - i,
    {
        if entries[i].0 == key {
            return Some(i);
        }
        i += 1;
    }
    None
}

/// The empty kind: no possible shape, no collections.
pub fn kind_empty() -> (r: Kind)
    ensures
        r.model() == empty_kind(),
        r.wf(),
{
    Kind {
        any: false,
        bytes: false,
        integer: false,
        float: false,
        boolean: false,
        timestamp: false,
        null: false,
        array: None,
        object: None,
    }
}

impl Kind {
    /// A copy with the same model, entry by entry.
    #[verifier::loop_isolation(false)]
    pub fn deep_clone(&self) -> (r: Kind)
        ensures
            r.model() == self.model(),
            self.wf() ==> r.wf(),
        decreases *self,
    {
        let array: Option<ArrayColl> = match &self.array {
            Some(c) => {
                let mut out: Vec<(usize, Kind)> = Vec::new();
                let mut i: usize = 0;
                while i < c.known.len()
                    invariant
                        i <= c.known@.len(),
                        out@.len() == i as int,
                        forall|j: int| 0 <= j < i ==> (#[trigger] out@[j]).0
                            == c.known@[j].0,
                        forall|j: int| 0 <= j < i ==> (#[trigger] out@[j]).1.model()
                            == c.known@[j].1.model(),
                        forall|j: int| 0 <= j < i ==> (c.known@[j].1.wf()
                            ==> (#[trigger] out@[j]).1.wf()),
                    decreases c.known@.len() - i,
                {
                    proof {
                        assert(decreases_to!(*self => self.array));
                        assert(decreases_to!(c.known@ => c.known@[i as int]));
                    }
                    let e = (c.known[i].0, c.known[i].1.deep_clone());
                    out.push(e);
                    i += 1;
                }
                proof {
                    lemma_amodel_congruent(out@, c.known@);
                }
                let unknown: Option<Box<Kind>> = match &c.unknown {
                    Some(b) => Some(Box::new((**b).deep_clone())),
                    None => None,
                };
                Some(ArrayColl { known: out, unknown })
            },
            None => None,
        };
        let object: Option<ObjectColl> = match &self.object {
            Some(c) => {
                let mut out: Vec<(String, Kind)> = Vec::new();
                let mut i: usize = 0;
                while i < c.known.len()
                    invariant
                        i <= c.known@.len(),
                        out@.len() == i as int,
                        forall|j: int| 0 <= j < i ==> (#[trigger] out@[j]).0@
                            == c.known@[j].0@,
                        forall|j: int| 0 <= j < i ==> (#[trigger] out@[j]).1.model()
                            == c.known@[j].1.model(),
                        forall|j: int| 0 <= j < i ==> (c.known@[j].1.wf()
                            ==> (#[trigger] out@[j]).1.wf()),
                    decreases c.known@.len() - i,
                {
                    let e = (c.known[i].0.clone(), c.known[i].1.deep_clone());
                    out.push(e);
                    i += 1;
                }
                proof {
                    lemma_omodel_congruent(out@, c.known@);
                }
                let unknown: Option<Box<Kind>> = match &c.unknown {
                    Some(b) => Some(Box::new((**b).deep_clone())),
                    None => None,
                };
                Some(ObjectColl { known: out, unknown })
            },
            None => None,
        };
        Kind {
            any: self.any,
            bytes: self.bytes,
            integer: self.integer,
            float: self.float,
            boolean: self.boolean,
            timestamp: self.timestamp,
            null: self.null,
            array,
            object,
        }
    }
}

} // verus!

verus! {

impl Kind {
    /// The union of this kind and another, as `merge_kinds` describes.
    #[verifier::rlimit(50)]
    pub fn merge_with(&self, other: &Kind, depth: Depth) -> (r: Kind)
        requires
            self.wf(),
            other.wf(),
        ensures
            r.model() == merge_kinds(self.model(), other.model(), depth),
            r.wf(),
        decreases *self, *other, 2int,
    {
        let array: Option<ArrayColl> = match (&self.array, &other.array) {
            (Some(ca), Some(cb)) => Some(merge_acoll(ca, cb, depth)),
            (Some(ca), None) => self.deep_clone().array,
            (None, Some(cb)) => other.deep_clone().array,
            (None, None) => None,
        };
        let object: Option<ObjectColl> = match (&self.object, &other.object) {
            (Some(ca), Some(cb)) => Some(merge_ocoll(ca, cb, depth)),
            (Some(ca), None) => self.deep_clone().object,
            (None, Some(cb)) => other.deep_clone().object,
            (None, None) => None,
        };
        Kind {
            any: self.any || other.any,
            bytes: self.bytes || other.bytes,
            integer: self.integer || other.integer,
            float: self.float || other.float,
            boolean: self.boolean || other.boolean,
            timestamp: self.timestamp || other.timestamp,
            null: self.null || other.null,
            array,
            object,
        }
    }
}

/// The union of two object collections, as `merge_coll_o` describes.
#[verifier::loop_isolation(false)]
fn merge_ocoll(ca: &ObjectColl, cb: &ObjectColl, depth: Depth) -> (r: ObjectColl)
    requires
        coll_o_wf(*ca),
        coll_o_wf(*cb),
    ensures
        coll_o_model(r) == merge_coll_o(coll_o_model(*ca), coll_o_model(*cb), depth),
        coll_o_wf(r),
    decreases *ca, *cb, 1int,
{
    let ghost tm = merge_coll_o(coll_o_model(*ca), coll_o_model(*cb), depth);
    proof {
        lemma_omodel_dom(ca.known@);
        lemma_omodel_dom(cb.known@);
    }
    let mut out: Vec<(String, Kind)> = Vec::new();
    let mut i: usize = 0;
    while i < ca.known.len()
        invariant
            i <= ca.known@.len(),
            out@.len() == i as int,
            forall|j: int| 0 <= j < i ==> (#[trigger] out@[j]).0@ == ca.known@[j].0@,
            forall|j: int| 0 <= j < i ==> (#[trigger] out@[j]).1.model()
                == tm.known[ca.known@[j].0@],
            forall|j: int| 0 <= j < i ==> (#[trigger] out@[j]).1.wf(),
        decreases ca.known@.len() - i,
    {
        proof {
            lemma_omodel_at(ca.known@, i as int);
        }
        let v = &ca.known[i].1;
        let merged: Kind = match find_key(&cb.known, &ca.known[i].0) {
            Some(jb) => {
                proof {
                    lemma_omodel_at(cb.known@, jb as int);
                }
                if depth == Depth::Deep {
                    v.merge_with(&cb.known[jb].1, depth)
                } else {
                    cb.known[jb].1.deep_clone()
                }
            },
            None => {
                match &cb.unknown {
                    Some(u) => {
                        if depth == Depth::Deep {
                            v.merge_with(u, depth)
                        } else {
                            v.deep_clone()
                        }
                    },
                    None => v.deep_clone(),
                }
            },
        };
        let key = ca.known[i].0.clone();
        out.push((key, merged));
        i += 1;
    }
    let ghost base = ca.known@.len() as int;
    let mut i2: usize = 0;
    while i2 < cb.known.len()
        invariant
            i2 <= cb.known@.len(),
            out@.len() >= base,
            forall|j: int| 0 <= j < base ==> (#[trigger] out@[j]).0@ == ca.known@[j].0@,
            forall|j: int| 0 <= j < base ==> (#[trigger] out@[j]).1.model()
                == tm.known[ca.known@[j].0@],
            forall|j: int| base <= j < out@.len() ==> !has_key(
                ca.known@,
                (#[trigger] out@[j]).0@,
            ) && out@[j].1.model() == tm.known[out@[j].0@],
            forall|j: int| base <= j < out@.len() ==> exists|j2: int|
                0 <= j2 < i2 && (#[trigger] cb.known@[j2]).0@ == (#[trigger] out@[j]).0@,
            forall|j: int| 0 <= j < out@.len() ==> (#[trigger] out@[j]).1.wf(),
            forall|j2: int| 0 <= j2 < i2 && !has_key(ca.known@, (#[trigger] cb.known@[j2]).0@)
                ==> has_key(out@, cb.known@[j2].0@),
            unique_keys(out@),
        decreases cb.known@.len() - i2,
    {
        proof {
            lemma_omodel_at(cb.known@, i2 as int);
        }
        match find_key(&ca.known, &cb.known[i2].0) {
            Some(ia) => {
                proof {
                    assert(ca.known@[ia as int].0@ == cb.known@[i2 as int].0@);
                    assert(has_key(ca.known@, cb.known@[i2 as int].0@));
                }
            },
            None => {
                let v = &cb.known[i2].1;
                let merged: Kind = match &ca.unknown {
                    Some(u) => {
                        if depth == Depth::Deep {
                            u.merge_with(v, depth)
                        } else {
                            v.deep_clone()
                        }
                    },
                    None => v.deep_clone(),
                };
                let ghost out0 = out@;
                let key = cb.known[i2].0.clone();
                out.push((key, merged));
                proof {
                    assert(out@[out@.len() - 1].0@ == cb.known@[i2 as int].0@);
                    assert forall|j: int| base <= j < out@.len() implies exists|j2: int|
                        0 <= j2 < i2 + 1 && (#[trigger] cb.known@[j2]).0@
                            == (#[trigger] out@[j]).0@ by {
                        if j < out@.len() - 1 {
                            assert(out@[j] == out0[j]);
                            let j2 = choose|j2: int| 0 <= j2 < i2
                                && (#[trigger] cb.known@[j2]).0@ == out0[j].0@;
                            assert(cb.known@[j2].0@ == out@[j].0@);
                        } else {
                            assert(cb.known@[i2 as int].0@ == out@[j].0@);
                        }
                    }
                    assert forall|j: int, l: int| 0 <= j < l < out@.len() implies
                        (#[trigger] out@[j]).0@ != (#[trigger] out@[l]).0@ by {
                        if l == out@.len() - 1 {
                            if j < base {
                                assert(out@[j].0@ == ca.known@[j].0@);
                                assert(has_key(ca.known@, out@[j].0@));
                                assert(!has_key(ca.known@, out@[l].0@));
                            } else {
                                assert(out@[j] == out0[j]);
                                let j2 = choose|j2: int| 0 <= j2 < i2
                                    && (#[trigger] cb.known@[j2]).0@ == out0[j].0@;
                                assert(cb.known@[j2].0@ != cb.known@[i2 as int].0@);
                            }
                        } else {
                            assert(out@[j] == out0[j]);
                            assert(out@[l] == out0[l]);
                        }
                    }
                    assert forall|j2: int| 0 <= j2 < i2 + 1 && !has_key(
                        ca.known@,
                        (#[trigger] cb.known@[j2]).0@,
                    ) implies has_key(out@, cb.known@[j2].0@) by {
                        if j2 == i2 as int {
                            assert(out@[out@.len() - 1].0@ == cb.known@[j2].0@);
                        } else {
                            let l = choose|l: int| 0 <= l < out0.len()
                                && (#[trigger] out0[l]).0@ == cb.known@[j2].0@;
                            assert(out@[l] == out0[l]);
                            assert(out@[l].0@ == cb.known@[j2].0@);
                        }
                    }
                }
            },
        };
        i2 += 1;
    }
    let unknown: Option<Box<Kind>> = match (&ca.unknown, &cb.unknown) {
        (Some(ua), Some(ub)) => Some(Box::new(ua.merge_with(ub, depth))),
        (Some(ua), None) => Some(Box::new((**ua).deep_clone())),
        (None, Some(ub)) => Some(Box::new((**ub).deep_clone())),
        (None, None) => None,
    };
    let r = ObjectColl { known: out, unknown };
    proof {
        lemma_omodel_dom(r.known@);
        assert forall|k: Seq<char>| #[trigger] tm.known.contains_key(k) implies
            omodel(r.known@).contains_key(k) by {
            assert(omodel(ca.known@).contains_key(k) || omodel(cb.known@).contains_key(k));
            if has_key(ca.known@, k) {
                let j = choose|j: int| 0 <= j < ca.known@.len()
                    && (#[trigger] ca.known@[j]).0@ == k;
                assert(r.known@[j].0@ == k);
                assert(has_key(r.known@, k));
            } else {
                assert(!omodel(ca.known@).contains_key(k));
                assert(omodel(cb.known@).contains_key(k));
                assert(has_key(cb.known@, k));
                let j2 = choose|j2: int| 0 <= j2 < cb.known@.len()
                    && (#[trigger] cb.known@[j2]).0@ == k;
                assert(has_key(out@, cb.known@[j2].0@));
                assert(has_key(r.known@, k));
            }
        }
        assert forall|k: Seq<char>| #[trigger] omodel(r.known@).contains_key(k) implies
            tm.known.contains_key(k) by {
            assert(has_key(r.known@, k));
            let j = choose|j: int| 0 <= j < r.known@.len()
                && (#[trigger] r.known@[j]).0@ == k;
            if j < base {
                assert(ca.known@[j].0@ == k);
                assert(has_key(ca.known@, k));
                assert(omodel(ca.known@).contains_key(k));
            } else {
                let j2 = choose|j2: int| 0 <= j2 < cb.known@.len()
                    && (#[trigger] cb.known@[j2]).0@ == r.known@[j].0@;
                assert(has_key(cb.known@, k));
                assert(omodel(cb.known@).contains_key(k));
            }
        }
        assert forall|k: Seq<char>| #[trigger] omodel(r.known@).contains_key(k) implies
            omodel(r.known@)[k] == tm.known[k] by {
            let j = choose|j: int| 0 <= j < r.known@.len()
                && (#[trigger] r.known@[j]).0@ == k;
            lemma_omodel_at(r.known@, j);
            if j < base {
                assert(r.known@[j].1.model() == tm.known[ca.known@[j].0@]);
            }
        }
        assert(omodel(r.known@) =~= tm.known);
        assert(coll_o_model(r).unknown == tm.unknown);
    }
    r
}

} // verus!

verus! {

/// The union of two array collections, as `merge_coll_a` describes.
#[verifier::loop_isolation(false)]
fn merge_acoll(ca: &ArrayColl, cb: &ArrayColl, depth: Depth) -> (r: ArrayColl)
    requires
        coll_a_wf(*ca),
        coll_a_wf(*cb),
    ensures
        coll_a_model(r) == merge_coll_a(coll_a_model(*ca), coll_a_model(*cb), depth),
        coll_a_wf(r),
    decreases *ca, *cb, 1int,
{
    let ghost tm = merge_coll_a(coll_a_model(*ca), coll_a_model(*cb), depth);
    proof {
        lemma_amodel_dom(ca.known@);
        lemma_amodel_dom(cb.known@);
    }
    let mut out: Vec<(usize, Kind)> = Vec::new();
    let mut i: usize = 0;
    while i < ca.known.len()
        invariant
            i <= ca.known@.len(),
            out@.len() == i as int,
            forall|j: int| 0 <= j < i ==> (#[trigger] out@[j]).0 == ca.known@[j].0,
            forall|j: int| 0 <= j < i ==> (#[trigger] out@[j]).1.model()
                == tm.known[ca.known@[j].0 as int],
            forall|j: int| 0 <= j < i ==> (#[trigger] out@[j]).1.wf(),
        decreases ca.known@.len() - i,
    {
        proof {
            lemma_amodel_at(ca.known@, i as int);
        }
        let v = &ca.known[i].1;
        let merged: Kind = match find_ikey(&cb.known, ca.known[i].0) {
            Some(jb) => {
                proof {
                    lemma_amodel_at(cb.known@, jb as int);
                }
                if depth == Depth::Deep {
                    v.merge_with(&cb.known[jb].1, depth)
                } else {
                    cb.known[jb].1.deep_clone()
                }
            },
            None => {
                match &cb.unknown {
                    Some(u) => {
                        if depth == Depth::Deep {
                            v.merge_with(u, depth)
                        } else {
                            v.deep_clone()
                        }
                    },
                    None => v.deep_clone(),
                }
            },
        };
        let key = ca.known[i].0;
        out.push((key, merged));
        i += 1;
    }
    let ghost base = ca.known@.len() as int;
    let mut i2: usize = 0;
    while i2 < cb.known.len()
        invariant
            i2 <= cb.known@.len(),
            out@.len() >= base,
            forall|j: int| 0 <= j < base ==> (#[trigger] out@[j]).0 == ca.known@[j].0,
            forall|j: int| 0 <= j < base ==> (#[trigger] out@[j]).1.model()
                == tm.known[ca.known@[j].0 as int],
            forall|j: int| base <= j < out@.len() ==> !has_ikey(
                ca.known@,
                (#[trigger] out@[j]).0 as int,
            ) && out@[j].1.model() == tm.known[out@[j].0 as int],
            forall|j: int| base <= j < out@.len() ==> exists|j2: int|
                0 <= j2 < i2 && (#[trigger] cb.known@[j2]).0 == (#[trigger] out@[j]).0,
            forall|j: int| 0 <= j < out@.len() ==> (#[trigger] out@[j]).1.wf(),
            forall|j2: int| 0 <= j2 < i2 && !has_ikey(
                ca.known@,
                (#[trigger] cb.known@[j2]).0 as int,
            ) ==> has_ikey(out@, cb.known@[j2].0 as int),
            unique_ikeys(out@),
        decreases cb.known@.len() - i2,
    {
        proof {
            lemma_amodel_at(cb.known@, i2 as int);
        }
        match find_ikey(&ca.known, cb.known[i2].0) {
            Some(ia) => {
                proof {
                    assert(ca.known@[ia as int].0 == cb.known@[i2 as int].0);
                    assert(has_ikey(ca.known@, cb.known@[i2 as int].0 as int));
                }
            },
            None => {
                let v = &cb.known[i2].1;
                let merged: Kind = match &ca.unknown {
                    Some(u) => {
                        if depth == Depth::Deep {
                            u.merge_with(v, depth)
                        } else {
                            v.deep_clone()
                        }
                    },
                    None => v.deep_clone(),
                };
                let ghost out0 = out@;
                let key = cb.known[i2].0;
                out.push((key, merged));
                proof {
                    assert(out@[out@.len() - 1].0 == cb.known@[i2 as int].0);
                    assert forall|j: int| base <= j < out@.len() implies exists|j2: int|
                        0 <= j2 < i2 + 1 && (#[trigger] cb.known@[j2]).0
                            == (#[trigger] out@[j]).0 by {
                        if j < out@.len() - 1 {
                            assert(out@[j] == out0[j]);
                            let j2 = choose|j2: int| 0 <= j2 < i2
                                && (#[trigger] cb.known@[j2]).0 == out0[j].0;
                            assert(cb.known@[j2].0 == out@[j].0);
                        } else {
                            assert(cb.known@[i2 as int].0 == out@[j].0);
                        }
                    }
                    assert forall|j: int, l: int| 0 <= j < l < out@.len() implies
                        (#[trigger] out@[j]).0 != (#[trigger] out@[l]).0 by {
                        if l == out@.len() - 1 {
                            if j < base {
                                assert(out@[j].0 == ca.known@[j].0);
                                assert(has_ikey(ca.known@, out@[j].0 as int));
                                assert(!has_ikey(ca.known@, out@[l].0 as int));
                            } else {
                                assert(out@[j] == out0[j]);
                                let j2 = choose|j2: int| 0 <= j2 < i2
                                    && (#[trigger] cb.known@[j2]).0 == out0[j].0;
                                assert(cb.known@[j2].0 != cb.known@[i2 as int].0);
                            }
                        } else {
                            assert(out@[j] == out0[j]);
                            assert(out@[l] == out0[l]);
                        }
                    }
                    assert forall|j2: int| 0 <= j2 < i2 + 1 && !has_ikey(
                        ca.known@,
                        (#[trigger] cb.known@[j2]).0 as int,
                    ) implies has_ikey(out@, cb.known@[j2].0 as int) by {
                        if j2 == i2 as int {
                            assert(out@[out@.len() - 1].0 == cb.known@[j2].0);
                        } else {
                            let l = choose|l: int| 0 <= l < out0.len()
                                && (#[trigger] out0[l]).0 == cb.known@[j2].0;
                            assert(out@[l] == out0[l]);
                            assert(out@[l].0 == cb.known@[j2].0);
                        }
                    }
                }
            },
        };
        i2 += 1;
    }
    let unknown: Option<Box<Kind>> = match (&ca.unknown, &cb.unknown) {
        (Some(ua), Some(ub)) => Some(Box::new(ua.merge_with(ub, depth))),
        (Some(ua), None) => Some(Box::new((**ua).deep_clone())),
        (None, Some(ub)) => Some(Box::new((**ub).deep_clone())),
        (None, None) => None,
    };
    let r = ArrayColl { known: out, unknown };
    proof {
        lemma_amodel_dom(r.known@);
        assert forall|k: int| #[trigger] tm.known.contains_key(k) implies
            amodel(r.known@).contains_key(k) by {
            assert(amodel(ca.known@).contains_key(k) || amodel(cb.known@).contains_key(k));
            if has_ikey(ca.known@, k) {
                let j = choose|j: int| 0 <= j < ca.known@.len()
                    && (#[trigger] ca.known@[j]).0 == k;
                assert(r.known@[j].0 == k);
                assert(has_ikey(r.known@, k));
            } else {
                assert(!amodel(ca.known@).contains_key(k));
                assert(amodel(cb.known@).contains_key(k));
                assert(has_ikey(cb.known@, k));
                let j2 = choose|j2: int| 0 <= j2 < cb.known@.len()
                    && (#[trigger] cb.known@[j2]).0 == k;
                assert(has_ikey(out@, cb.known@[j2].0 as int));
                assert(has_ikey(r.known@, k));
            }
        }
        assert forall|k: int| #[trigger] amodel(r.known@).contains_key(k) implies
            tm.known.contains_key(k) by {
            assert(has_ikey(r.known@, k));
            let j = choose|j: int| 0 <= j < r.known@.len()
                && (#[trigger] r.known@[j]).0 == k;
            if j < base {
                assert(ca.known@[j].0 == k);
                assert(has_ikey(ca.known@, k));
                assert(amodel(ca.known@).contains_key(k));
            } else {
                let j2 = choose|j2: int| 0 <= j2 < cb.known@.len()
                    && (#[trigger] cb.known@[j2]).0 == r.known@[j].0;
                assert(has_ikey(cb.known@, k));
                assert(amodel(cb.known@).contains_key(k));
            }
        }
        assert forall|k: int| #[trigger] amodel(r.known@).contains_key(k) implies
            amodel(r.known@)[k] == tm.known[k] by {
            let j = choose|j: int| 0 <= j < r.known@.len()
                && (#[trigger] r.known@[j]).0 == k;
            lemma_amodel_at(r.known@, j);
            if j < base {
                assert(r.known@[j].1.model() == tm.known[ca.known@[j].0 as int]);
            }
        }
        assert(amodel(r.known@) =~= tm.known);
        assert(coll_a_model(r).unknown == tm.unknown);
    }
    r
}

} // verus!

verus! {

impl Kind {
    /// The kind at a path, or `None` where no static information reaches.
    pub fn at_path(&self, path: &Path) -> (r: Option<Kind>)
        requires
            self.wf(),
        ensures
            match r {
                Some(k) => kind_at(self.model(), path.model()) == Some(k.model()) && k.wf(),
                None => kind_at(self.model(), path.model()) is None,
            },
    {
        proof {
            assert(path.model().skip(0) =~= path.model());
        }
        self.at_rec(path, 0)
    }

    fn at_rec(&self, path: &Path, at: usize) -> (r: Option<Kind>)
        requires
            at <= path.segments@.len(),
            self.wf(),
        ensures
            match r {
                Some(k) => kind_at(self.model(), path.model().skip(at as int))
                    == Some(k.model()) && k.wf(),
                None => kind_at(self.model(), path.model().skip(at as int)) is None,
            },
        decreases path.segments@.len() - at,
    {
        if at == path.segments.len() {
            proof {
                assert(path.model().skip(at as int) =~= Seq::<Seg>::empty());
            }
            return Some(self.deep_clone());
        }
        proof {
            lemma_skip_step(path.model(), at as int);
            assert(path.model()[at as int] == path.segments@[at as int].model());
        }
        let step: Option<Kind> = match &path.segments[at] {
            Segment::Field(name) => self.step_field(name),
            Segment::Index(idx) => self.step_index(*idx),
            Segment::Coalesce(names) => self.step_coalesce(names),
        };
        match step {
            Some(k) => k.at_rec(path, at + 1),
            None => None,
        }
    }

    /// The kind one field step down: the known entry, else the fallback.
    fn step_field(&self, name: &String) -> (r: Option<Kind>)
        requires
            self.wf(),
        ensures
            match r {
                Some(k) => kind_step_field(self.model(), name@) == Some(k.model()) && k.wf(),
                None => kind_step_field(self.model(), name@) is None,
            },
    {
        match &self.object {
            Some(c) => match find_key(&c.known, name) {
                Some(i) => {
                    proof {
                        lemma_omodel_at(c.known@, i as int);
                    }
                    Some(c.known[i].1.deep_clone())
                },
                None => {
                    proof {
                        lemma_omodel_dom(c.known@);
                    }
                    match &c.unknown {
                        Some(u) => Some((**u).deep_clone()),
                        None => None,
                    }
                },
            },
            None => None,
        }
    }

    /// The kind one index step down: the known entry, else the fallback.
    fn step_index(&self, idx: usize) -> (r: Option<Kind>)
        requires
            self.wf(),
        ensures
            match r {
                Some(k) => kind_step_index(self.model(), idx as int)
                    == Some(k.model()) && k.wf(),
                None => kind_step_index(self.model(), idx as int) is None,
            },
    {
        match &self.array {
            Some(c) => match find_ikey(&c.known, idx) {
                Some(i) => {
                    proof {
                        lemma_amodel_at(c.known@, i as int);
                    }
                    Some(c.known[i].1.deep_clone())
                },
                None => {
                    proof {
                        lemma_amodel_dom(c.known@);
                    }
                    match &c.unknown {
                        Some(u) => Some((**u).deep_clone()),
                        None => None,
                    }
                },
            },
            None => None,
        }
    }

    /// The kind one coalesce step down: the union over the candidates.
    #[verifier::loop_isolation(false)]
    fn step_coalesce(&self, names: &Vec<String>) -> (r: Option<Kind>)
        requires
            self.wf(),
        ensures
            match r {
                Some(k) => kind_step_coalesce(
                    self.model(),
                    names@.map_values(|n: String| n@),
                ) == Some(k.model()) && k.wf(),
                None => kind_step_coalesce(
                    self.model(),
                    names@.map_values(|n: String| n@),
                ) is None,
            },
    {
        let ghost s = names@.map_values(|n: String| n@);
        let mut acc: Option<Kind> = None;
        let mut j: usize = names.len();
        proof {
            assert(s.skip(j as int) =~= Seq::<Seq<char>>::empty());
        }
        while j > 0
            invariant
                j <= names@.len(),
                match acc {
                    Some(k) => kind_step_coalesce(self.model(), s.skip(j as int))
                        == Some(k.model()) && k.wf(),
                    None => kind_step_coalesce(self.model(), s.skip(j as int)) is None,
                },
            decreases j,
        {
            j -= 1;
            proof {
                assert(s.skip(j as int).first() == s[j as int]);
                assert(s[j as int] == names@[j as int]@);
                assert(s.skip(j as int).drop_first() =~= s.skip(j as int + 1));
            }
            let head = self.step_field(&names[j]);
            acc = match (head, acc) {
                (Some(a), Some(b)) => Some(a.merge_with(&b, Depth::Deep)),
                (Some(a), None) => Some(a),
                (None, r0) => r0,
            };
        }
        proof {
            assert(s.skip(0) =~= s);
        }
        acc
    }

    /// Write a kind at a path under the given strategy, as `kind_insert`
    /// describes. The result is a fresh kind.
    pub fn insert_at_path(self, path: &Path, new: &Kind, st: Strategy) -> (r: Kind)
        requires
            self.wf(),
            new.wf(),
            path.wf(),
        ensures
            r.model() == kind_insert(self.model(), path.model(), new.model(), st),
            r.wf(),
    {
        proof {
            assert(path.model().skip(0) =~= path.model());
        }
        self.insert_rec_k(path, 0, new, st)
    }

    #[verifier::loop_isolation(false)]
    fn insert_rec_k(self, path: &Path, at: usize, new: &Kind, st: Strategy) -> (r: Kind)
        requires
            at <= path.segments@.len(),
            self.wf(),
            new.wf(),
            path.wf(),
        ensures
            r.model() == kind_insert(
                self.model(),
                path.model().skip(at as int),
                new.model(),
                st,
            ),
            r.wf(),
        decreases path.segments@.len() - at, 0int,
    {
        if at == path.segments.len() {
            proof {
                assert(path.model().skip(at as int) =~= Seq::<Seg>::empty());
            }
            return match st.leaf_conflict {
                LeafConflict::Replace => new.deep_clone(),
                LeafConflict::Union => self.merge_with(new, Depth::Deep),
            };
        }
        proof {
            lemma_skip_step(path.model(), at as int);
            assert(path.model()[at as int] == path.segments@[at as int].model());
            assert(path.segments@[at as int].wf());
        }
        match &path.segments[at] {
            Segment::Field(name) => self.insert_field_k(name, path, at + 1, new, st),
            Segment::Index(idx) => self.insert_index_k(*idx, path, at + 1, new, st),
            Segment::Coalesce(names) => {
                let ghost s = names@.map_values(|n: String| n@);
                let ghost restm = path.model().skip(at as int).drop_first();
                let ghost newm = new.model();
                let ghost target = kind_insert_all(self.model(), s, restm, newm, st);
                let mut acc = self;
                let mut j: usize = 0;
                proof {
                    assert(s.skip(0) =~= s);
                }
                while j < names.len()
                    invariant
                        j <= names@.len(),
                        acc.wf(),
                        kind_insert_all(acc.model(), s.skip(j as int), restm, newm, st)
                            == target,
                    decreases names@.len() - j,
                {
                    proof {
                        assert(s.skip(j as int).first() == s[j as int]);
                        assert(s[j as int] == names@[j as int]@);
                        assert(s.skip(j as int).drop_first() =~= s.skip(j as int + 1));
                    }
                    acc = acc.insert_field_k(&names[j], path, at + 1, new, st);
                    j += 1;
                }
                proof {
                    assert(s.skip(j as int) =~= Seq::<Seq<char>>::empty());
                }
                acc
            },
        }
    }

    #[verifier::rlimit(60)]
    fn insert_field_k(self, name: &String, path: &Path, at: usize, new: &Kind, st: Strategy)
        -> (r: Kind)
        requires
            at <= path.segments@.len(),
            self.wf(),
            new.wf(),
            path.wf(),
        ensures
            r.model() == kind_insert_field(
                self.model(),
                name@,
                path.model().skip(at as int),
                new.model(),
                st,
            ),
            r.wf(),
        decreases path.segments@.len() - at, 1int,
    {
        let ghost m0 = self.model();
        let Kind { any, bytes, integer, float, boolean, timestamp, null, array, object } = self;
        match object {
            Some(c) => {
                let ObjectColl { known: mut entries, unknown } = c;
                proof {
                    lemma_omodel_dom(entries@);
                }
                let ghost e0 = entries@;
                match find_key(&entries, name) {
                    Some(i) => {
                        proof {
                            lemma_omodel_at(e0, i as int);
                        }
                        let (k, inner) = entries.remove(i);
                        let upd = inner.insert_rec_k(path, at, new, st);
                        entries.insert(i, (k, upd));
                        proof {
                            assert(entries@ =~= e0.update(i as int, (k, upd)));
                            lemma_omodel_update(e0, i as int, (k, upd));
                            assert forall|i2: int, j2: int|
                                0 <= i2 < j2 < entries@.len() implies
                                (#[trigger] entries@[i2]).0@
                                    != (#[trigger] entries@[j2]).0@ by {
                                assert(entries@[i2].0@ == e0[i2].0@);
                                assert(entries@[j2].0@ == e0[j2].0@);
                            }
                        }
                        Kind {
                            any, bytes, integer, float, boolean, timestamp, null, array,
                            object: Some(ObjectColl { known: entries, unknown }),
                        }
                    },
                    None => {
                        let upd = kind_empty().insert_rec_k(path, at, new, st);
                        let k = name.clone();
                        entries.push((k, upd));
                        proof {
                            lemma_omodel_push(e0, (k, upd));
                            assert forall|i2: int, j2: int|
                                0 <= i2 < j2 < entries@.len() implies
                                (#[trigger] entries@[i2]).0@
                                    != (#[trigger] entries@[j2]).0@ by {
                                if j2 < e0.len() {
                                    assert(entries@[i2] == e0[i2]);
                                    assert(entries@[j2] == e0[j2]);
                                } else {
                                    assert(entries@[j2].0@ == name@);
                                    assert(entries@[i2] == e0[i2]);
                                    assert(!has_key(e0, name@));
                                }
                            }
                        }
                        Kind {
                            any, bytes, integer, float, boolean, timestamp, null, array,
                            object: Some(ObjectColl { known: entries, unknown }),
                        }
                    },
                }
            },
            None => {
                let upd = kind_empty().insert_rec_k(path, at, new, st);
                let mut kv: Vec<(String, Kind)> = Vec::new();
                kv.push((name.clone(), upd));
                proof {
                    assert(kv@ =~= Seq::<(String, Kind)>::empty().push(kv@[0]));
                    lemma_omodel_push(Seq::empty(), kv@[0]);
                    assert(kv@[0].0@ == name@);
                    assert(kv@[0].1 == upd);
                    assert(omodel(kv@) == Map::<Seq<char>, KindM>::empty().insert(
                        name@,
                        upd.model(),
                    ));
                }
                let built = Kind {
                    any: false, bytes: false, integer: false, float: false,
                    boolean: false, timestamp: false, null: false,
                    array: None,
                    object: Some(ObjectColl { known: kv, unknown: None }),
                };
                let orig = Kind {
                    any, bytes, integer, float, boolean, timestamp, null, array,
                    object: None,
                };
                proof {
                    assert(orig.model() == m0);
                }
                match st.inner_conflict {
                    InnerConflict::Replace => built,
                    InnerConflict::Merge(ms) => orig.merge_with(&built, ms.depth),
                }
            },
        }
    }

    #[verifier::rlimit(60)]
    fn insert_index_k(self, idx: usize, path: &Path, at: usize, new: &Kind, st: Strategy)
        -> (r: Kind)
        requires
            at <= path.segments@.len(),
            self.wf(),
            new.wf(),
            path.wf(),
        ensures
            r.model() == kind_insert_index(
                self.model(),
                idx as int,
                path.model().skip(at as int),
                new.model(),
                st,
            ),
            r.wf(),
        decreases path.segments@.len() - at, 1int,
    {
        let ghost m0 = self.model();
        let Kind { any, bytes, integer, float, boolean, timestamp, null, array, object } = self;
        match array {
            Some(c) => {
                let ArrayColl { known: mut entries, unknown } = c;
                proof {
                    lemma_amodel_dom(entries@);
                }
                let ghost e0 = entries@;
                match find_ikey(&entries, idx) {
                    Some(i) => {
                        proof {
                            lemma_amodel_at(e0, i as int);
                        }
                        let (k, inner) = entries.remove(i);
                        let upd = inner.insert_rec_k(path, at, new, st);
                        entries.insert(i, (k, upd));
                        proof {
                            assert(entries@ =~= e0.update(i as int, (k, upd)));
                            lemma_amodel_update(e0, i as int, (k, upd));
                            assert forall|i2: int, j2: int|
                                0 <= i2 < j2 < entries@.len() implies
                                (#[trigger] entries@[i2]).0
                                    != (#[trigger] entries@[j2]).0 by {
                                assert(entries@[i2].0 == e0[i2].0);
                                assert(entries@[j2].0 == e0[j2].0);
                            }
                        }
                        Kind {
                            any, bytes, integer, float, boolean, timestamp, null,
                            array: Some(ArrayColl { known: entries, unknown }),
                            object,
                        }
                    },
                    None => {
                        let upd = kind_empty().insert_rec_k(path, at, new, st);
                        entries.push((idx, upd));
                        proof {
                            lemma_amodel_push(e0, (idx, upd));
                            assert forall|i2: int, j2: int|
                                0 <= i2 < j2 < entries@.len() implies
                                (#[trigger] entries@[i2]).0
                                    != (#[trigger] entries@[j2]).0 by {
                                if j2 < e0.len() {
                                    assert(entries@[i2] == e0[i2]);
                                    assert(entries@[j2] == e0[j2]);
                                } else {
                                    assert(entries@[j2].0 == idx);
                                    assert(entries@[i2] == e0[i2]);
                                    assert(!has_ikey(e0, idx as int));
                                }
                            }
                        }
                        Kind {
                            any, bytes, integer, float, boolean, timestamp, null,
                            array: Some(ArrayColl { known: entries, unknown }),
                            object,
                        }
                    },
                }
            },
            None => {
                let upd = kind_empty().insert_rec_k(path, at, new, st);
                let mut kv: Vec<(usize, Kind)> = Vec::new();
                kv.push((idx, upd));
                proof {
                    assert(kv@ =~= Seq::<(usize, Kind)>::empty().push(kv@[0]));
                    lemma_amodel_push(Seq::empty(), kv@[0]);
                    assert(kv@[0].0 == idx);
                    assert(kv@[0].1 == upd);
                    assert(amodel(kv@) == Map::<int, KindM>::empty().insert(
                        idx as int,
                        upd.model(),
                    ));
                }
                let built = Kind {
                    any: false, bytes: false, integer: false, float: false,
                    boolean: false, timestamp: false, null: false,
                    array: Some(ArrayColl { known: kv, unknown: None }),
                    object: None,
                };
                let orig = Kind {
                    any, bytes, integer, float, boolean, timestamp, null, array: None,
                    object,
                };
                proof {
                    assert(orig.model() == m0);
                }
                match st.inner_conflict {
                    InnerConflict::Replace => built,
                    InnerConflict::Merge(ms) => orig.merge_with(&built, ms.depth),
                }
            },
        }
    }
}

} // verus!

verus! {

/// A deep merge is order-independent: merging one kind into another gives
/// the same kind either way round.
pub proof fn lemma_merge_commutes(a: KindM, b: KindM)
    ensures
        merge_kinds(a, b, Depth::Deep) == merge_kinds(b, a, Depth::Deep),
    decreases a, b, 2int,
{
    match (a.array, b.array) {
        (Some(ca), Some(cb)) => {
            lemma_merge_coll_a_commutes(ca, cb);
        },
        _ => {},
    }
    match (a.object, b.object) {
        (Some(ca), Some(cb)) => {
            lemma_merge_coll_o_commutes(ca, cb);
        },
        _ => {},
    }
    assert(merge_kinds(a, b, Depth::Deep) =~~= merge_kinds(b, a, Depth::Deep));
}

/// A deep merge of array collections is order-independent.
pub proof fn lemma_merge_coll_a_commutes(ca: CollAM, cb: CollAM)
    ensures
        merge_coll_a(ca, cb, Depth::Deep) == merge_coll_a(cb, ca, Depth::Deep),
    decreases ca, cb, 1int,
{
    let l = merge_coll_a(ca, cb, Depth::Deep);
    let r = merge_coll_a(cb, ca, Depth::Deep);
    assert forall|k: int| #[trigger] l.known.contains_key(k) implies
        l.known[k] == r.known[k] by {
        if ca.known.contains_key(k) && cb.known.contains_key(k) {
            lemma_merge_commutes(ca.known[k], cb.known[k]);
        } else if ca.known.contains_key(k) {
            match cb.unknown {
                Some(u) => {
                    lemma_merge_commutes(ca.known[k], *u);
                },
                None => {},
            }
        } else {
            match ca.unknown {
                Some(u) => {
                    lemma_merge_commutes(*u, cb.known[k]);
                },
                None => {},
            }
        }
    }
    assert(l.known =~= r.known);
    match (ca.unknown, cb.unknown) {
        (Some(ua), Some(ub)) => {
            lemma_merge_commutes(*ua, *ub);
        },
        _ => {},
    }
    assert(l =~~= r);
}

/// A deep merge of object collections is order-independent.
pub proof fn lemma_merge_coll_o_commutes(ca: CollOM, cb: CollOM)
    ensures
        merge_coll_o(ca, cb, Depth::Deep) == merge_coll_o(cb, ca, Depth::Deep),
    decreases ca, cb, 1int,
{
    let l = merge_coll_o(ca, cb, Depth::Deep);
    let r = merge_coll_o(cb, ca, Depth::Deep);
    assert forall|k: Seq<char>| #[trigger] l.known.contains_key(k) implies
        l.known[k] == r.known[k] by {
        if ca.known.contains_key(k) && cb.known.contains_key(k) {
            lemma_merge_commutes(ca.known[k], cb.known[k]);
        } else if ca.known.contains_key(k) {
            match cb.unknown {
                Some(u) => {
                    lemma_merge_commutes(ca.known[k], *u);
                },
                None => {},
            }
        } else {
            match ca.unknown {
                Some(u) => {
                    lemma_merge_commutes(*u, cb.known[k]);
                },
                None => {},
            }
        }
    }
    assert(l.known =~= r.known);
    match (ca.unknown, cb.unknown) {
        (Some(ua), Some(ub)) => {
            lemma_merge_commutes(*ua, *ub);
        },
        _ => {},
    }
    assert(l =~~= r);
}

} // verus!
