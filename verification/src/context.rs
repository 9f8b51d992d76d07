//! The execution context: the per-evaluation store that binds each declared
//! field's slot to a runtime value, with checked writes and an unchecked read
//! for the filter evaluator.

use vstd::prelude::*;
use crate::scheme::{Field, FieldPathItem, Scheme, path_keys};
use crate::types::{Type, TypeMismatchError, SetValueError};
use crate::value::{LhsValue, ValueModel, value_view, value_wf};

verus! {

/// A type wrapped in `n` levels of map nesting; reported as the needed type
/// when a path still has segments where no nesting exists.
pub open spec fn wrap_dict(t: Type, n: nat) -> Type
    decreases n,
{
    if n == 0 {
        t
    } else {
        Type::Dict(Box::new(wrap_dict(t, (n - 1) as nat)))
    }
}

/// Reading a value down a path, one map lookup per key; no value when a
/// lookup misses or a scalar is reached with segments remaining.
pub open spec fn walk_path(v: ValueModel, keys: Seq<Seq<char>>) -> Option<ValueModel>
    decreases keys.len(),
{
    if keys.len() == 0 {
        Some(v)
    } else {
        match v {
            ValueModel::Dict(_t, m) => if m.contains_key(keys[0]) {
                walk_path(m[keys[0]], keys.drop_first())
            } else {
                None
            },
            _ => None,
        }
    }
}

/// Writing `value` down a non-empty path of `keys` into `node`: the resulting
/// node and the outcome.
///
/// At the last key the map's checked insert applies. Before it, the walk
/// descends into the key's entry, materializing an empty map when the entry
/// is missing — or fails: with the non-materializable error when the missing
/// entry's declared type is scalar, and with a type mismatch when a scalar
/// value is reached while keys remain. A failed write may leave behind the
/// empty maps materialized on the way (visible, non-atomic behaviour).
pub open spec fn set_path_model(node: ValueModel, keys: Seq<Seq<char>>, value: ValueModel) -> (
    ValueModel,
    Result<(), SetValueError>,
)
    decreases keys.len(),
{
    match node {
        ValueModel::Dict(t, m) => {
            if keys.len() <= 1 {
                if value.ty() == t {
                    (ValueModel::Dict(t, m.insert(keys[0], value)), Ok(()))
                } else {
                    (
                        node,
                        Err(
                            SetValueError::TypeMismatch(
                                TypeMismatchError { expected: t, actual: value.ty() },
                            ),
                        ),
                    )
                }
            } else if m.contains_key(keys[0]) {
                let r = set_path_model(m[keys[0]], keys.drop_first(), value);
                (ValueModel::Dict(t, m.insert(keys[0], r.0)), r.1)
            } else if t is Dict {
                let child = ValueModel::Dict(*t->Dict_0, Map::empty());
                let r = set_path_model(child, keys.drop_first(), value);
                (ValueModel::Dict(t, m.insert(keys[0], r.0)), r.1)
            } else {
                (node, Err(SetValueError::VoidableType(t)))
            }
        },
        _ => (
            node,
            Err(
                SetValueError::TypeMismatch(
                    TypeMismatchError {
                        expected: node.ty(),
                        actual: wrap_dict(value.ty(), (keys.len() - 1) as nat),
                    },
                ),
            ),
        ),
    }
}

/// An execution context stores an associated schema and one optional runtime
/// value per declared field, for a filter to execute against.
///
/// It acts as a map in terms of public API, but provides constant-time
/// index-based access to values for a filter during execution.
#[derive(Debug)]
pub struct ExecutionContext {
    /// The schema used for resolving field names and indices.
    pub scheme: Scheme,
    /// One slot per declared field, by the field's stable index.
    pub values: Vec<Option<LhsValue>>,
}

impl ExecutionContext {
    /// Well-formed: one slot per declared field, and every populated slot
    /// holds a well-formed value of the field's declared type.
    pub open spec fn wf(&self) -> bool {
        &&& self.scheme.wf()
        &&& self.values@.len() == self.scheme.sview().len()
        &&& forall|i: int|
            0 <= i < self.values@.len() ==> match #[trigger] self.values@[i] {
                Some(v) => value_wf(v) && value_view(v).ty() == self.scheme.type_at(i),
                None => true,
            }
    }

    /// Creates an execution context associated with a given schema, with
    /// every slot unset.
    pub fn new(scheme: &Scheme) -> (r: ExecutionContext)
        requires
            scheme.wf(),
        ensures
            r.wf(),
            r.scheme.sview() == scheme.sview(),
            r.values@.len() == scheme.sview().len(),
            forall|i: int| 0 <= i < r.values@.len() ==> r.values@[i] is None,
    {
        let n = scheme.get_field_count();
        let mut values: Vec<Option<LhsValue>> = Vec::new();
        let mut i: usize = 0;
        while i < n
            invariant
                i <= n,
                values@.len() == i,
                forall|k: int| 0 <= k < i ==> values@[k] is None,
            decreases n - i,
        {
            values.push(None);
            i += 1;
        }
        ExecutionContext { scheme: scheme.clone(), values }
    }

    /// Returns the associated schema.
    pub fn scheme(&self) -> (r: &Scheme)
        ensures
            *r == self.scheme,
    {
        &self.scheme
    }

    /// Sets the runtime value of the field declared under `name`: on a type
    /// match the slot is overwritten; on a mismatch the error reports both
    /// types and the slot keeps its prior state.
    pub fn set_field_value(&mut self, name: &str, value: LhsValue) -> (r: Result<
        (),
        TypeMismatchError,
    >)
        requires
            old(self).wf(),
            old(self).scheme.has_field(name@),
            value_wf(value),
        ensures
            final(self).wf(),
            final(self).scheme == old(self).scheme,
            ({
                let idx = old(self).scheme.index_of(name@);
                let ft = old(self).scheme.type_at(idx);
                &&& (value_view(value).ty() == ft ==> r is Ok && final(self).values@ == old(
                    self,
                ).values@.update(idx, Some(value)))
                &&& (value_view(value).ty() != ft ==> (match r {
                    Err(e) => e == (TypeMismatchError {
                        expected: ft,
                        actual: value_view(value).ty(),
                    }),
                    Ok(_) => false,
                }) && final(self).values@ == old(self).values@)
            }),
    {
        let field = self.scheme.get_field(name).unwrap();
        let field_type = field.get_type();
        let value_type = value.get_type();
        if field_type == value_type {
            let slot = &mut self.values[field.index];
            *slot = Some(value);
            Ok(())
        } else {
            Err(TypeMismatchError { expected: field_type, actual: value_type })
        }
    }

    /// Reads the value a compiled field reference designates: the field's
    /// slot, then one map lookup per path segment. The evaluator must have
    /// populated every referenced field: an unset slot or a missing
    /// intermediate entry is a broken contract between the compiled filter
    /// and the context, so this read requires the whole walk to succeed.
    /// The result is an independent copy, untouched by later mutation.
    pub fn get_field_value_unchecked(&self, field: &Field) -> (r: LhsValue)
        requires
            self.wf(),
            field.valid_for(&self.scheme),
            self.values@[field.index as int] is Some,
            walk_path(
                value_view(self.values@[field.index as int].unwrap()),
                path_keys(field.path@),
            ) is Some,
        ensures
            value_wf(r),
            value_view(r) == walk_path(
                value_view(self.values@[field.index as int].unwrap()),
                path_keys(field.path@),
            ).unwrap(),
    {
        let ghost keys = path_keys(field.path@);
        let mut node: &LhsValue = self.values[field.index].as_ref().unwrap();
        let n = field.path.len();
        proof {
            assert(*node == self.values@[field.index as int].unwrap());
            assert(keys.len() == n);
            assert(keys.subrange(0, n as int) =~= keys);
        }
        let mut i: usize = 0;
        while i < n
            invariant
                self.wf(),
                field.valid_for(&self.scheme),
                n == field.path@.len(),
                keys == path_keys(field.path@),
                i <= n,
                value_wf(*node),
                walk_path(value_view(*node), keys.subrange(i as int, n as int)) == walk_path(
                    value_view(self.values@[field.index as int].unwrap()),
                    keys,
                ),
                walk_path(value_view(*node), keys.subrange(i as int, n as int)) is Some,
            decreases n - i,
        {
            let item = &field.path[i];
            proof {
                assert(keys.subrange(i as int, n as int)[0] == item.key());
                assert(keys.subrange(i as int, n as int).drop_first() =~= keys.subrange(
                    i + 1 as int,
                    n as int,
                ));
            }
            match node {
                LhsValue::Dict(d) => {
                    node = d.get(item.name().as_str()).unwrap();
                },
                _ => {
                    proof {
                        assert(false);
                    }
                },
            }
            i += 1;
        }
        proof {
            assert(keys.subrange(n as int, n as int) =~= Seq::<Seq<char>>::empty());
        }
        node.as_ref()
    }

    /// Writes `value` down `path` into the field declared under `name`.
    ///
    /// With an empty path this is exactly `set_field_value`. Otherwise an
    /// unset slot is first materialized as an empty map of the field's
    /// declared type — failing with the non-materializable error when that
    /// type is scalar — and the write then walks the path as `set_path_model`
    /// says: empty intermediate maps may be left behind even when the final
    /// assignment fails.
    pub fn set_field_value_with_path(
        &mut self,
        name: &str,
        path: &Vec<FieldPathItem>,
        value: LhsValue,
    ) -> (r: Result<(), SetValueError>)
        requires
            old(self).wf(),
            old(self).scheme.has_field(name@),
            value_wf(value),
        ensures
            final(self).wf(),
            final(self).scheme == old(self).scheme,
            path@.len() == 0 ==> ({
                let idx = old(self).scheme.index_of(name@);
                let ft = old(self).scheme.type_at(idx);
                &&& (value_view(value).ty() == ft ==> r is Ok && final(self).values@ == old(
                    self,
                ).values@.update(idx, Some(value)))
                &&& (value_view(value).ty() != ft ==> (match r {
                    Err(SetValueError::TypeMismatch(e)) => e == (TypeMismatchError {
                        expected: ft,
                        actual: value_view(value).ty(),
                    }),
                    _ => false,
                }) && final(self).values@ == old(self).values@)
            }),
            path@.len() > 0 ==> ({
                let idx = old(self).scheme.index_of(name@);
                let ft = old(self).scheme.type_at(idx);
                match old(self).values@[idx] {
                    Some(node) => {
                        let outcome = set_path_model(
                            value_view(node),
                            path_keys(path@),
                            value_view(value),
                        );
                        &&& r == outcome.1
                        &&& final(self).values@[idx] is Some
                        &&& value_view(final(self).values@[idx].unwrap()) == outcome.0
                        &&& final(self).values@ == old(self).values@.update(
                            idx,
                            final(self).values@[idx],
                        )
                    },
                    None => {
                        if ft is Dict {
                            let start = ValueModel::Dict(*ft->Dict_0, Map::empty());
                            let outcome = set_path_model(
                                start,
                                path_keys(path@),
                                value_view(value),
                            );
                            &&& r == outcome.1
                            &&& final(self).values@[idx] is Some
                            &&& value_view(final(self).values@[idx].unwrap()) == outcome.0
                            &&& final(self).values@ == old(self).values@.update(
                                idx,
                                final(self).values@[idx],
                            )
                        } else {
                            &&& r == Err::<(), SetValueError>(SetValueError::VoidableType(ft))
                            &&& final(self).values@ == old(self).values@
                        }
                    },
                }
            }),
    {
        if path.len() == 0 {
            return match self.set_field_value(name, value) {
                Ok(()) => Ok(()),
                Err(e) => Err(SetValueError::TypeMismatch(e)),
            };
        }
        let field = self.scheme.get_field(name).unwrap();
        let idx = field.index;
        let ghost vals0 = self.values@;
        let ghost ft = self.scheme.type_at(idx as int);
        if self.values[idx].is_none() {
            match LhsValue::placeholder(field.get_type()) {
                Ok(p) => {
                    let slot = &mut self.values[idx];
                    *slot = Some(p);
                },
                Err(t) => {
                    return Err(SetValueError::VoidableType(t));
                },
            }
        }
        let ghost vals1 = self.values@;
        let ghost start = self.values@[idx as int].unwrap();
        proof {
            assert(value_wf(start) && value_view(start).ty() == ft);
        }
        let slot = &mut self.values[idx];
        let node = slot.as_mut().unwrap();
        let r = set_path_rec(node, path, 0, value);
        proof {
            assert(path_keys(path@).subrange(0, path@.len() as int) =~= path_keys(path@));
            assert(self.values@ =~= vals0.update(idx as int, self.values@[idx as int]));
            assert forall|j: int| 0 <= j < self.values@.len() implies (match #[trigger] self.values@[j] {
                Some(v) => value_wf(v) && value_view(v).ty() == self.scheme.type_at(j),
                None => true,
            }) by {
                if j != idx as int {
                    assert(self.values@[j] == vals0[j]);
                }
            }
        }
        r
    }
}

/// One step of the checked path write, on the value held in a slot: writes
/// `value` under `path[i..]` into `node`, exactly as `set_path_model` says.
fn set_path_rec(node: &mut LhsValue, path: &Vec<FieldPathItem>, i: usize, value: LhsValue) -> (r:
    Result<(), SetValueError>)
    requires
        value_wf(*old(node)),
        value_wf(value),
        i < path@.len(),
    ensures
        value_wf(*final(node)),
        value_view(*final(node)).ty() == value_view(*old(node)).ty(),
        ({
            let outcome = set_path_model(
                value_view(*old(node)),
                path_keys(path@).subrange(i as int, path@.len() as int),
                value_view(value),
            );
            value_view(*final(node)) == outcome.0 && r == outcome.1
        }),
    decreases path@.len() - i,
{
    let ghost keys = path_keys(path@).subrange(i as int, path@.len() as int);
    let ghost vv = value_view(value);
    proof {
        assert(keys[0] == path@[i as int].key());
        assert(keys.drop_first() =~= path_keys(path@).subrange(i + 1 as int, path@.len() as int));
    }
    let n = path.len();
    let last = i + 1 == n;
    match node {
        LhsValue::Dict(d) => {
            let ghost d0 = *d;
            let ghost t = d.value_type;
            if last {
                let key = path[i].name().clone();
                let res = d.insert(key, value);
                proof {
                    assert(keys.len() == 1);
                    if vv.ty() == t {
                        assert(d@ == d0@.insert(keys[0], vv));
                    }
                }
                match res {
                    Ok(_) => Ok(()),
                    Err(e) => Err(SetValueError::TypeMismatch(e)),
                }
            } else {
                let key = path[i].name().clone();
                let contains = match d.get(key.as_str()) {
                    Some(_) => true,
                    None => false,
                };
                if !contains {
                    match LhsValue::placeholder(d.get_type()) {
                        Ok(p) => {
                            let ir = d.insert(key.clone(), p);
                            proof {
                                assert(ir is Ok);
                            }
                        },
                        Err(ty) => {
                            proof {
                                assert(!(t is Dict));
                            }
                            return Err(SetValueError::VoidableType(ty));
                        },
                    }
                }
                let ghost m1 = d@;
                let ghost dmid = *d;
                proof {
                    if contains {
                        assert(m1 == d0@);
                        assert(m1[keys[0]] == d0@[keys[0]]);
                    } else {
                        assert(t is Dict);
                        assert(m1 == d0@.insert(
                            keys[0],
                            ValueModel::Dict(*t->Dict_0, Map::empty()),
                        ));
                    }
                    assert(m1.contains_key(keys[0]));
                }
                let child = d.get_mut(key.as_str()).unwrap();
                let r = set_path_rec(child, path, i + 1, value);
                proof {
                    let rec = set_path_model(m1[keys[0]], keys.drop_first(), vv);
                    assert(value_view(*final(child)) == rec.0 && r == rec.1);
                    assert(final(d)@ == m1.insert(keys[0], rec.0));
                    assert(m1.insert(keys[0], rec.0) =~= d0@.insert(keys[0], rec.0));
                    let outcome = set_path_model(value_view(*old(node)), keys, vv);
                    if contains {
                        assert(outcome.0 == ValueModel::Dict(t, d0@.insert(keys[0], rec.0))
                            && outcome.1 == rec.1);
                    } else {
                        assert(m1[keys[0]] == ValueModel::Dict(*t->Dict_0, Map::empty()));
                        assert(outcome.0 == ValueModel::Dict(t, d0@.insert(keys[0], rec.0))
                            && outcome.1 == rec.1);
                    }
                    assert(value_view(*final(node)) == ValueModel::Dict(t, final(d)@));
                }
                r
            }
        },
        _ => Err(
            SetValueError::TypeMismatch(
                TypeMismatchError {
                    expected: node.get_type(),
                    actual: wrapped_type(value.get_type(), n - 1 - i),
                },
            ),
        ),
    }
}

/// Round trip: after a successful checked write of `value` to a field (the
/// state `set_field_value` leaves behind on a type match), reading that field
/// back through the unchecked accessor's walk, with an empty path, yields a
/// value with exactly the written value's model.
pub proof fn lemma_set_get_round_trip(
    ctx0: ExecutionContext,
    ctx1: ExecutionContext,
    name: Seq<char>,
    value: LhsValue,
    field: Field,
)
    requires
        ctx0.wf(),
        ctx0.scheme.has_field(name),
        ctx1.scheme == ctx0.scheme,
        ctx1.values@ == ctx0.values@.update(ctx0.scheme.index_of(name), Some(value)),
        field.index as int == ctx0.scheme.index_of(name),
        field.path@.len() == 0,
    ensures
        ctx1.values@[field.index as int] is Some,
        walk_path(
            value_view(ctx1.values@[field.index as int].unwrap()),
            path_keys(field.path@),
        ) == Some(value_view(value)),
{
    let idx = ctx0.scheme.index_of(name);
    assert(0 <= idx < ctx0.values@.len());
    assert(ctx1.values@[idx] == Some(value));
    assert(path_keys(field.path@) =~= Seq::<Seq<char>>::empty());
}

/// Nested round trip: when a checked path write succeeds, walking the same
/// keys through the written node reads the written value back.
pub proof fn lemma_set_path_round_trip(node: ValueModel, keys: Seq<Seq<char>>, value: ValueModel)
    requires
        keys.len() > 0,
        set_path_model(node, keys, value).1 is Ok,
    ensures
        walk_path(set_path_model(node, keys, value).0, keys) == Some(value),
    decreases keys.len(),
{
    let outcome = set_path_model(node, keys, value);
    match node {
        ValueModel::Dict(t, m) => {
            if keys.len() == 1 {
                assert(outcome.0 == ValueModel::Dict(t, m.insert(keys[0], value)));
                assert(m.insert(keys[0], value).contains_key(keys[0]));
                assert(m.insert(keys[0], value)[keys[0]] == value);
                assert(keys.drop_first().len() == 0);
                assert(walk_path(value, keys.drop_first()) == Some(value));
            } else if m.contains_key(keys[0]) {
                let rec = set_path_model(m[keys[0]], keys.drop_first(), value);
                lemma_set_path_round_trip(m[keys[0]], keys.drop_first(), value);
                assert(outcome.0 == ValueModel::Dict(t, m.insert(keys[0], rec.0)));
                assert(m.insert(keys[0], rec.0)[keys[0]] == rec.0);
                assert(walk_path(outcome.0, keys) == walk_path(rec.0, keys.drop_first()));
            } else {
                assert(t is Dict);
                let child = ValueModel::Dict(*t->Dict_0, Map::empty());
                let rec = set_path_model(child, keys.drop_first(), value);
                lemma_set_path_round_trip(child, keys.drop_first(), value);
                assert(outcome.0 == ValueModel::Dict(t, m.insert(keys[0], rec.0)));
                assert(m.insert(keys[0], rec.0)[keys[0]] == rec.0);
                assert(walk_path(outcome.0, keys) == walk_path(rec.0, keys.drop_first()));
            }
        },
        _ => {},
    }
}

/// A type wrapped in `n` levels of map nesting.
fn wrapped_type(t: Type, n: usize) -> (r: Type)
    ensures
        r == wrap_dict(t, n as nat),
    decreases n,
{
    if n == 0 {
        t
    } else {
        Type::Dict(Box::new(wrapped_type(t, n - 1)))
    }
}

} // verus!
