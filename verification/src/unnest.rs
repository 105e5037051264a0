//! The `unnest` operation: at runtime it explodes an array attribute of an
//! event into one sibling event per element; at compile time the dual
//! array-inversion predicts each emitted element's kind without running it.
use vstd::prelude::*;
use crate::kind::{amodel, coll_a_wf, kind_at, kind_insert};
use crate::kind::{
    ArrayColl, CoalescedPath, CollAM, Depth, Indices, InnerConflict, Kind, KindM,
    LeafConflict, MergeStrategy, ObjectColl, Strategy,
};
use crate::kind::{lemma_amodel_at, lemma_amodel_dom};
use crate::path::Path;
use crate::value::{
    arr_model, find_key, has_key, lemma_arr_model, lemma_obj_model_at, lemma_obj_model_dom,
    obj_model, unique_keys, val_get, val_insert, Val, Value,
};

verus! {

/// The kind carrying no information at all: the universal kind.
pub open spec fn any_kind() -> KindM {
    KindM {
        any: true,
        bytes: false,
        integer: false,
        float: false,
        boolean: false,
        timestamp: false,
        null: false,
        array: None,
        object: None,
    }
}

/// An array of anything: no known indices, universal fallback.
pub open spec fn any_array_coll() -> CollAM {
    CollAM { known: Map::empty(), unknown: Some(Box::new(any_kind())) }
}

/// The kind "some array, of anything".
pub open spec fn any_array_kind() -> KindM {
    KindM { array: Some(any_array_coll()), ..crate::kind::empty_kind() }
}

/// The kind "null".
pub open spec fn null_kind() -> KindM {
    KindM { null: true, ..crate::kind::empty_kind() }
}

/// The strategy of the per-index branches of an inversion: a whole-subtree
/// replace, mirroring the runtime's whole-value replace.
pub open spec fn replace_strategy() -> Strategy {
    Strategy {
        inner_conflict: InnerConflict::Replace,
        leaf_conflict: LeafConflict::Replace,
        coalesced_path: CoalescedPath::InsertAll,
    }
}

/// The strategy of the fallback branch of an inversion: an unseen index
/// must stay compatible with any prior information about the location.
pub open spec fn merge_strategy() -> Strategy {
    Strategy {
        inner_conflict: InnerConflict::Merge(
            MergeStrategy { depth: Depth::Deep, indices: Indices::Keep },
        ),
        leaf_conflict: LeafConflict::Replace,
        coalesced_path: CoalescedPath::InsertAll,
    }
}

/// The inversion of an array kind at a path: the kind at the path is
/// coerced to an array collection (an array of anything where it cannot be
/// an array); each known index kind is written back over a clone of the
/// root with a whole-subtree replace, and the fallback is written back with
/// a deep merge.
pub open spec fn invert_model(root: KindM, path: Seq<crate::path::Seg>) -> KindM {
    let coll = match kind_at(root, path) {
        Some(k) => match k.array {
            Some(c) => c,
            None => any_array_coll(),
        },
        None => any_array_coll(),
    };
    KindM {
        array: Some(
            CollAM {
                known: Map::new(
                    |i: int| coll.known.contains_key(i),
                    |i: int| if coll.known.contains_key(i) {
                        kind_insert(root, path, coll.known[i], replace_strategy())
                    } else {
                        arbitrary()
                    },
                ),
                unknown: match coll.unknown {
                    Some(u) => Some(
                        Box::new(kind_insert(root, path, *u, merge_strategy())),
                    ),
                    None => None,
                },
            },
        ),
        ..crate::kind::empty_kind()
    }
}

/// A kind together with whether the owning expression can fail at runtime.
#[derive(Debug, PartialEq)]
pub struct TypeDef {
    pub kind: Kind,
    pub fallible: bool,
}

/// Takes the kind-tree of a value an array lives in, and produces the
/// kind-tree of the elements the runtime fan-out will emit: an array kind
/// whose known indices each hold the root kind with that element's kind
/// written back at the path, and whose fallback holds the root kind with
/// the source fallback merged in at the path.
#[verifier::loop_isolation(false)]
pub fn invert_array_at_path(typedef: &TypeDef, path: &Path) -> (r: TypeDef)
    requires
        typedef.kind.wf(),
        path.wf(),
    ensures
        r.kind.model() == invert_model(typedef.kind.model(), path.model()),
        r.kind.wf(),
        r.fallible == false,
{
    let ghost target = invert_model(typedef.kind.model(), path.model());
    let at = typedef.kind.at_path(path);
    let coll: ArrayColl = match at {
        Some(k) => {
            let Kind { array, .. } = k;
            match array {
                Some(c) => c,
                None => any_array_coll_exec(),
            }
        },
        None => any_array_coll_exec(),
    };
    proof {
        lemma_amodel_dom(coll.known@);
    }
    let ghost cm = crate::kind::coll_a_model(coll);
    let mut known_out: Vec<(usize, Kind)> = Vec::new();
    let mut i: usize = 0;
    while i < coll.known.len()
        invariant
            i <= coll.known@.len(),
            known_out@.len() == i as int,
            forall|j: int| 0 <= j < i ==> (#[trigger] known_out@[j]).0 == coll.known@[j].0,
            forall|j: int| 0 <= j < i ==> (#[trigger] known_out@[j]).1.model()
                == kind_insert(
                typedef.kind.model(),
                path.model(),
                cm.known[coll.known@[j].0 as int],
                replace_strategy(),
            ),
            forall|j: int| 0 <= j < i ==> (#[trigger] known_out@[j]).1.wf(),
        decreases coll.known@.len() - i,
    {
        proof {
            lemma_amodel_at(coll.known@, i as int);
        }
        let strategy = Strategy {
            inner_conflict: InnerConflict::Replace,
            leaf_conflict: LeafConflict::Replace,
            coalesced_path: CoalescedPath::InsertAll,
        };
        let branch = typedef.kind.deep_clone().insert_at_path(
            path,
            &coll.known[i].1,
            strategy,
        );
        known_out.push((coll.known[i].0, branch));
        i += 1;
    }
    let unknown_out: Option<Box<Kind>> = match &coll.unknown {
        Some(u) => {
            let strategy = Strategy {
                inner_conflict: InnerConflict::Merge(
                    MergeStrategy { depth: Depth::Deep, indices: Indices::Keep },
                ),
                leaf_conflict: LeafConflict::Replace,
                coalesced_path: CoalescedPath::InsertAll,
            };
            Some(Box::new(typedef.kind.deep_clone().insert_at_path(path, u, strategy)))
        },
        None => None,
    };
    let out_kind = Kind {
        any: false,
        bytes: false,
        integer: false,
        float: false,
        boolean: false,
        timestamp: false,
        null: false,
        array: Some(ArrayColl { known: known_out, unknown: unknown_out }),
        object: None,
    };
    proof {
        lemma_amodel_dom(known_out@);
        let outm = amodel(known_out@);
        let tm = target.array->Some_0.known;
        assert(cm.known == amodel(coll.known@));
        assert forall|k: int| #[trigger] outm.contains_key(k) implies tm.contains_key(k)
            && outm[k] == tm[k] by {
            assert(crate::kind::has_ikey(known_out@, k));
            let j = choose|j: int| 0 <= j < known_out@.len()
                && (#[trigger] known_out@[j]).0 == k;
            assert(coll.known@[j].0 == k);
            assert(crate::kind::has_ikey(coll.known@, k));
            assert(amodel(coll.known@).contains_key(k));
            assert(cm.known.contains_key(k));
            lemma_amodel_at(known_out@, j);
            assert(outm[k] == known_out@[j].1.model());
        }
        assert forall|k: int| #[trigger] tm.contains_key(k) implies outm.contains_key(k) by {
            assert(cm.known.contains_key(k));
            assert(amodel(coll.known@).contains_key(k));
            assert(crate::kind::has_ikey(coll.known@, k));
            let j = choose|j: int| 0 <= j < coll.known@.len()
                && (#[trigger] coll.known@[j]).0 == k;
            assert(known_out@[j].0 == k);
            assert(crate::kind::has_ikey(known_out@, k));
            assert(amodel(known_out@).contains_key(k));
        }
        assert(outm =~= tm);
        assert forall|i2: int, j2: int| 0 <= i2 < j2 < known_out@.len() implies
            (#[trigger] known_out@[i2]).0 != (#[trigger] known_out@[j2]).0 by {
            assert(known_out@[i2].0 == coll.known@[i2].0);
            assert(known_out@[j2].0 == coll.known@[j2].0);
        }
        assert(out_kind.model() =~~= target);
    }
    TypeDef { kind: out_kind, fallible: false }
}

/// An array-of-anything collection.
fn any_array_coll_exec() -> (r: ArrayColl)
    ensures
        crate::kind::coll_a_model(r) == any_array_coll(),
        coll_a_wf(r),
{
    let any = Kind {
        any: true,
        bytes: false,
        integer: false,
        float: false,
        boolean: false,
        timestamp: false,
        null: false,
        array: None,
        object: None,
    };
    let r = ArrayColl { known: Vec::new(), unknown: Some(Box::new(any)) };
    proof {
        assert(r.known@ =~= Seq::<(usize, Kind)>::empty());
        assert(crate::kind::coll_a_model(r).known =~= any_array_coll().known);
    }
    r
}

} // verus!

verus! {

/// What the surrounding runtime knows of an already-compiled sub-expression
/// standing as a target: its resolved value (or its error, propagated
/// verbatim) and its compile-time type.
#[derive(Debug, PartialEq)]
pub struct ExprInfo {
    pub resolved: Result<Value, String>,
    pub type_def: TypeDef,
}

/// Where a path read and write happens: the ambient event, a named local
/// variable, or the outcome of a sub-expression or nested call.
#[derive(Debug, PartialEq)]
pub enum Target {
    External,
    Internal(String),
    Container(ExprInfo),
    FunctionCall(ExprInfo),
}

/// A compiled target/path pair.
#[derive(Debug, PartialEq)]
pub struct Query {
    pub target: Target,
    pub path: Path,
}

/// One evaluation's surroundings: the ambient event and the named local
/// variables (a missing variable reads as null).
#[derive(Debug, PartialEq)]
pub struct Context {
    pub external: Value,
    pub variables: Vec<(String, Value)>,
}

impl Context {
    pub open spec fn wf(self) -> bool {
        &&& self.external.wf()
        &&& unique_keys(self.variables@)
        &&& forall|i: int| 0 <= i < self.variables@.len()
            ==> (#[trigger] self.variables@[i]).1.wf()
    }
}

impl Target {
    pub open spec fn wf(self) -> bool {
        match self {
            Target::Container(info) | Target::FunctionCall(info) => {
                &&& match info.resolved {
                    Ok(v) => v.wf(),
                    Err(_) => true,
                }
                &&& info.type_def.kind.wf()
            },
            _ => true,
        }
    }
}

impl Query {
    pub open spec fn wf(self) -> bool {
        self.target.wf() && self.path.wf()
    }
}

/// The root value a target denotes, or the inner error it propagates.
pub open spec fn target_root(t: Target, ctx: Context) -> Result<Val, Seq<char>> {
    match t {
        Target::External => Ok(ctx.external.model()),
        Target::Internal(name) => Ok(
            if obj_model(ctx.variables@).contains_key(name@) {
                obj_model(ctx.variables@)[name@]
            } else {
                Val::Null
            },
        ),
        Target::Container(info) => match info.resolved {
            Ok(v) => Ok(v.model()),
            Err(e) => Err(e@),
        },
        Target::FunctionCall(info) => match info.resolved {
            Ok(v) => Ok(v.model()),
            Err(e) => Err(e@),
        },
    }
}

/// The one-tag kind of a concrete value; a container reads as "some array"
/// or "some object" without its entries.
pub open spec fn shallow_kind(v: Val) -> KindM {
    match v {
        Val::Null => KindM { null: true, ..crate::kind::empty_kind() },
        Val::Boolean(_) => KindM { boolean: true, ..crate::kind::empty_kind() },
        Val::Integer(_) => KindM { integer: true, ..crate::kind::empty_kind() },
        Val::Float(_) => KindM { float: true, ..crate::kind::empty_kind() },
        Val::Bytes(_) => KindM { bytes: true, ..crate::kind::empty_kind() },
        Val::Timestamp(_) => KindM { timestamp: true, ..crate::kind::empty_kind() },
        Val::Array(_) => any_array_kind(),
        Val::Object(_) => KindM {
            object: Some(
                crate::kind::CollOM {
                    known: Map::empty(),
                    unknown: Some(Box::new(any_kind())),
                },
            ),
            ..crate::kind::empty_kind()
        },
    }
}

/// The fan-out: one output per source element, each the root with the
/// whole sub-value at the path replaced by that element.
pub open spec fn unnest_seq(root: Val, path: Seq<crate::path::Seg>, elems: Seq<Val>)
    -> Seq<Val> {
    Seq::new(elems.len(), |i: int| val_insert(root, path, elems[i]))
}

/// A failure of the operation: the value at the path was not an array, or
/// the target's own evaluation failed.
#[derive(Debug, PartialEq)]
pub enum Error {
    Expected { expected: Kind, got: Kind },
    Inner(String),
}

/// The display name of a one-tag kind.
pub open spec fn kind_name(k: KindM) -> Seq<char> {
    if k.any {
        "unknown"@
    } else if k.bytes {
        "string"@
    } else if k.integer {
        "integer"@
    } else if k.float {
        "float"@
    } else if k.boolean {
        "boolean"@
    } else if k.timestamp {
        "timestamp"@
    } else if k.null {
        "null"@
    } else if k.array is Some {
        "array"@
    } else if k.object is Some {
        "object"@
    } else {
        "empty"@
    }
}

/// The display name of a one-tag kind.
fn kind_name_exec(k: &Kind) -> (r: &'static str)
    ensures
        r@ == kind_name(k.model()),
{
    if k.any {
        "unknown"
    } else if k.bytes {
        "string"
    } else if k.integer {
        "integer"
    } else if k.float {
        "float"
    } else if k.boolean {
        "boolean"
    } else if k.timestamp {
        "timestamp"
    } else if k.null {
        "null"
    } else if k.array.is_some() {
        "array"
    } else if k.object.is_some() {
        "object"
    } else {
        "empty"
    }
}

impl Error {
    /// The operator-visible description of the failure.
    pub fn message(&self) -> (r: String)
        ensures
            (match self {
                Error::Expected { expected, got } => r@ == "expected "@
                    + kind_name(expected.model()) + ", got "@ + kind_name(got.model()),
                Error::Inner(m) => r@ == m@,
            }),
    {
        match self {
            Error::Expected { expected, got } => {
                let mut out = "expected ".to_owned();
                out = out.concat(kind_name_exec(expected));
                out = out.concat(", got ");
                out = out.concat(kind_name_exec(got));
                out
            },
            Error::Inner(m) => m.clone(),
        }
    }
}

impl Value {
    /// The one-tag kind of this value.
    pub fn kind(&self) -> (r: Kind)
        ensures
            r.model() == shallow_kind(self.model()),
            r.wf(),
    {
        let base = Kind {
            any: false,
            bytes: false,
            integer: false,
            float: false,
            boolean: false,
            timestamp: false,
            null: false,
            array: None,
            object: None,
        };
        match self {
            Value::Null => Kind { null: true, ..base },
            Value::Boolean(_) => Kind { boolean: true, ..base },
            Value::Integer(_) => Kind { integer: true, ..base },
            Value::Float(_) => Kind { float: true, ..base },
            Value::Bytes(_) => Kind { bytes: true, ..base },
            Value::Timestamp(_) => Kind { timestamp: true, ..base },
            Value::Array(_) => Kind { array: Some(any_array_coll_exec()), ..base },
            Value::Object(_) => {
                let any = Kind {
                    any: true,
                    bytes: false,
                    integer: false,
                    float: false,
                    boolean: false,
                    timestamp: false,
                    null: false,
                    array: None,
                    object: None,
                };
                let c = ObjectColl { known: Vec::new(), unknown: Some(Box::new(any)) };
                proof {
                    assert(c.known@ =~= Seq::<(String, Kind)>::empty());
                    assert(crate::kind::coll_o_model(c).known
                        =~= Map::<Seq<char>, KindM>::empty());
                    assert(crate::value::unique_keys(c.known@));
                    assert(crate::kind::coll_o_wf(c));
                }
                Kind { object: Some(c), ..base }
            },
        }
    }
}

} // verus!

verus! {

/// What the compiler knows where the operation is compiled: the kind of the
/// ambient event, if any, and the declared kinds of local variables.
#[derive(Debug, PartialEq)]
pub struct Compiler {
    pub target_kind: Option<TypeDef>,
    pub variable_kinds: Vec<(String, TypeDef)>,
}

impl Compiler {
    pub open spec fn wf(self) -> bool {
        &&& match self.target_kind {
            Some(td) => td.kind.wf(),
            None => true,
        }
        &&& forall|i: int| 0 <= i < self.variable_kinds@.len()
            ==> (#[trigger] self.variable_kinds@[i]).1.kind.wf()
    }
}

/// The declared kind of a variable: the first binding wins; an undeclared
/// variable has no information.
pub open spec fn var_kind_lookup(entries: Seq<(String, TypeDef)>, n: Seq<char>) -> KindM
    decreases entries.len(),
{
    if entries.len() == 0 {
        any_kind()
    } else if entries.first().0@ == n {
        entries.first().1.kind.model()
    } else {
        var_kind_lookup(entries.drop_first(), n)
    }
}

/// The kind a target denotes at compile time, or `None` for an ambient
/// event the compiler knows nothing of.
pub open spec fn target_kind_model(t: Target, state: Compiler) -> Option<KindM> {
    match t {
        Target::External => match state.target_kind {
            Some(td) => Some(td.kind.model()),
            None => None,
        },
        Target::Internal(name) => Some(var_kind_lookup(state.variable_kinds@, name@)),
        Target::Container(info) => Some(info.type_def.kind.model()),
        Target::FunctionCall(info) => Some(info.type_def.kind.model()),
    }
}

/// With nothing known of the ambient event, the operation returns some
/// array — or null, where the path read nothing.
pub open spec fn fallback_kind() -> KindM {
    KindM { null: true, ..any_array_kind() }
}

/// The compiled operation: a target/path pair bound at compile time.
#[derive(Debug, PartialEq)]
pub struct UnnestFn {
    pub path: Query,
}

impl UnnestFn {
    /// The operation over a path into the ambient event.
    pub fn new(path: Path) -> (r: UnnestFn)
        ensures
            r.path.target == Target::External,
            r.path.path == path,
    {
        UnnestFn { path: Query { target: Target::External, path } }
    }

    /// Resolves the target to its root value, reads the array at the path,
    /// and emits one clone of the root per element with the sub-value at
    /// the path replaced by that element. An empty array yields an empty
    /// output, never an error; a missing or non-array value is reported
    /// with its concrete kind; an inner failure propagates verbatim. The
    /// context is never mutated.
    #[verifier::loop_isolation(false)]
    pub fn resolve(&self, ctx: &Context) -> (r: Result<Value, Error>)
        requires
            ctx.wf(),
            self.path.wf(),
        ensures
            (match target_root(self.path.target, *ctx) {
                Result::Err(msg) => r matches Err(Error::Inner(m)) && m@ == msg,
                Result::Ok(root) => match val_get(root, self.path.path.model()) {
                    Some(v) => if v is Array {
                        (r matches Ok(out) && out.model() == Val::Array(
                            unnest_seq(root, self.path.path.model(), v.arr_elems()),
                        ) && out.wf())
                    } else {
                        (r matches Err(Error::Expected { expected, got })
                            && expected.model() == any_array_kind()
                            && got.model() == shallow_kind(v))
                    },
                    None => (r matches Err(Error::Expected { expected, got })
                        && expected.model() == any_array_kind()
                        && got.model() == null_kind()),
                },
            }),
    {
        let null_slot = Value::Null;
        let root: &Value = match &self.path.target {
            Target::External => &ctx.external,
            Target::Internal(name) => {
                match find_key(&ctx.variables, name) {
                    Some(i) => {
                        proof {
                            lemma_obj_model_dom(ctx.variables@);
                            lemma_obj_model_at(ctx.variables@, i as int);
                        }
                        &ctx.variables[i].1
                    },
                    None => {
                        proof {
                            lemma_obj_model_dom(ctx.variables@);
                        }
                        &null_slot
                    },
                }
            },
            Target::Container(info) => {
                match &info.resolved {
                    Ok(v) => v,
                    Err(e) => {
                        return Err(Error::Inner(e.clone()));
                    },
                }
            },
            Target::FunctionCall(info) => {
                match &info.resolved {
                    Ok(v) => v,
                    Err(e) => {
                        return Err(Error::Inner(e.clone()));
                    },
                }
            },
        };
        let ghost rootm = root.model();
        let ghost pm = self.path.path.model();
        let expected = any_array_kind_exec();
        match root.get_by_path(&self.path.path) {
            None => Err(
                Error::Expected {
                    expected,
                    got: Value::Null.kind(),
                },
            ),
            Some(v) => {
                match v {
                    Value::Array(elems) => {
                        let ghost em = v.model().arr_elems();
                        proof {
                            lemma_arr_model(elems@);
                        }
                        let mut out: Vec<Value> = Vec::new();
                        let mut i: usize = 0;
                        while i < elems.len()
                            invariant
                                i <= elems@.len(),
                                out@.len() == i as int,
                                forall|j: int| 0 <= j < i ==> (#[trigger] out@[j]).model()
                                    == val_insert(rootm, pm, em[j]),
                                forall|j: int| 0 <= j < i ==> (#[trigger] out@[j]).wf(),
                            decreases elems@.len() - i,
                        {
                            let event = root.deep_clone().insert_by_path(
                                &self.path.path,
                                elems[i].deep_clone(),
                            );
                            out.push(event);
                            i += 1;
                        }
                        proof {
                            lemma_arr_model(out@);
                            let outs = unnest_seq(rootm, pm, em);
                            assert forall|j: int| 0 <= j < arr_model(out@).len() implies
                                arr_model(out@)[j] == outs[j] by {
                                assert(arr_model(out@)[j] == out@[j].model());
                            }
                            assert(arr_model(out@) =~= outs);
                        }
                        Ok(Value::Array(out))
                    },
                    other => Err(
                        Error::Expected {
                            expected,
                            got: other.kind(),
                        },
                    ),
                }
            },
        }
    }
}

/// An array of anything, as a kind.
fn any_array_kind_exec() -> (r: Kind)
    ensures
        r.model() == any_array_kind(),
        r.wf(),
{
    Kind {
        any: false,
        bytes: false,
        integer: false,
        float: false,
        boolean: false,
        timestamp: false,
        null: false,
        array: Some(any_array_coll_exec()),
        object: None,
    }
}

} // verus!

verus! {

/// The first binding of a name, as `var_kind_lookup` sees it.
proof fn lemma_var_kind_lookup(entries: Seq<(String, TypeDef)>, n: Seq<char>, i: int)
    requires
        0 <= i < entries.len(),
        entries[i].0@ == n,
        forall|j: int| 0 <= j < i ==> (#[trigger] entries[j]).0@ != n,
    ensures
        var_kind_lookup(entries, n) == entries[i].1.kind.model(),
    decreases i,
{
    if i > 0 {
        assert forall|j: int| 0 <= j < i - 1 implies
            (#[trigger] entries.drop_first()[j]).0@ != n by {
            assert(entries.drop_first()[j] == entries[j + 1]);
        }
        assert(entries.drop_first()[i - 1] == entries[i]);
        lemma_var_kind_lookup(entries.drop_first(), n, i - 1);
    }
}

/// An unbound name reads as the universal kind.
proof fn lemma_var_kind_lookup_none(entries: Seq<(String, TypeDef)>, n: Seq<char>)
    requires
        !has_key(entries, n),
    ensures
        var_kind_lookup(entries, n) == any_kind(),
    decreases entries.len(),
{
    if entries.len() > 0 {
        assert(entries[0].0@ != n);
        assert forall|j: int| 0 <= j < entries.drop_first().len() implies
            (#[trigger] entries.drop_first()[j]).0@ != n by {
            assert(entries.drop_first()[j] == entries[j + 1]);
        }
        assert(!has_key(entries.drop_first(), n));
        lemma_var_kind_lookup_none(entries.drop_first(), n);
    }
}

impl UnnestFn {
    /// Predicts, without resolving anything, the kind of each element the
    /// runtime fan-out will emit, by inverting the target's compile-time
    /// kind at the path. With nothing known of an ambient-event target, the
    /// outcome is some array or null.
    pub fn type_def(&self, state: &Compiler) -> (r: TypeDef)
        requires
            state.wf(),
            self.path.wf(),
        ensures
            (match target_kind_model(self.path.target, *state) {
                Some(km) => r.kind.model() == invert_model(km, self.path.path.model())
                    && r.kind.wf() && r.fallible == false,
                None => r.kind.model() == fallback_kind() && r.kind.wf(),
            }),
    {
        match &self.path.target {
            Target::External => match &state.target_kind {
                Some(td) => invert_array_at_path(td, &self.path.path),
                None => {
                    let k = Kind {
                        any: false,
                        bytes: false,
                        integer: false,
                        float: false,
                        boolean: false,
                        timestamp: false,
                        null: true,
                        array: Some(any_array_coll_exec()),
                        object: None,
                    };
                    TypeDef { kind: k, fallible: false }
                },
            },
            Target::Internal(name) => {
                match find_key(&state.variable_kinds, name) {
                    Some(i) => {
                        proof {
                            lemma_var_kind_lookup(state.variable_kinds@, name@, i as int);
                        }
                        invert_array_at_path(&state.variable_kinds[i].1, &self.path.path)
                    },
                    None => {
                        proof {
                            lemma_var_kind_lookup_none(state.variable_kinds@, name@);
                        }
                        let any = Kind {
                            any: true,
                            bytes: false,
                            integer: false,
                            float: false,
                            boolean: false,
                            timestamp: false,
                            null: false,
                            array: None,
                            object: None,
                        };
                        let td = TypeDef { kind: any, fallible: false };
                        invert_array_at_path(&td, &self.path.path)
                    },
                }
            },
            Target::Container(info) => invert_array_at_path(&info.type_def, &self.path.path),
            Target::FunctionCall(info) => invert_array_at_path(
                &info.type_def,
                &self.path.path,
            ),
        }
    }
}

/// A declared parameter of the operation, as the surrounding language
/// registers it.
#[derive(Debug, PartialEq)]
pub struct Parameter {
    pub keyword: &'static str,
    pub kind: Kind,
    pub required: bool,
}

/// The operation as the surrounding language registers it: an identifier,
/// one required array-valued parameter, and a compile step that binds the
/// target/path pair.
#[derive(Clone, Copy, Debug, PartialEq, Eq, Structural)]
pub struct Unnest;

impl Unnest {
    /// The name the operation is registered under.
    pub fn identifier(&self) -> (r: &'static str)
        ensures
            r@ == "unnest"@,
    {
        "unnest"
    }

    /// The one declared parameter: a required path to an array.
    pub fn parameters(&self) -> (r: Vec<Parameter>)
        ensures
            r@.len() == 1,
            r@[0].keyword@ == "path"@,
            r@[0].kind.model() == any_array_kind(),
            r@[0].required,
    {
        let mut out: Vec<Parameter> = Vec::new();
        out.push(Parameter { keyword: "path", kind: any_array_kind_exec(), required: true });
        out
    }

    /// Binds the already-resolved target/path pair the compiler hands over.
    pub fn compile(&self, path: Query) -> (r: UnnestFn)
        ensures
            r.path == path,
    {
        UnnestFn { path }
    }
}

} // verus!

verus! {

/// An empty source array fans out to an empty output sequence — zero
/// events, never an error.
pub proof fn lemma_unnest_empty(root: Val, path: Seq<crate::path::Seg>)
    requires
        val_get(root, path) == Some(Val::Array(Seq::<Val>::empty())),
    ensures
        unnest_seq(root, path, val_get(root, path)->Some_0.arr_elems())
            =~= Seq::<Val>::empty(),
{
}

} // verus!
