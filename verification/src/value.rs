//! Runtime values: the tagged union of actual values, and the typed map
//! container that enforces homogeneity on every insert.

use vstd::prelude::*;
use crate::addr::IpAddress;
use crate::scheme::FieldPathItem;
use crate::types::{Type, TypeMismatchError};

verus! {

/// The mathematical model of a runtime value. A map value is modelled as its
/// declared value type together with a mathematical map from key to value
/// model.
pub enum ValueModel {
    /// An address value.
    Ip(IpAddress),
    /// A byte-string value.
    Bytes(Seq<u8>),
    /// A 32-bit signed integer value.
    Int(i32),
    /// A boolean value.
    Bool(bool),
    /// A map value: its declared value type and its contents.
    Dict(Type, Map<Seq<char>, ValueModel>),
}

impl ValueModel {
    /// The type a value reports: the fixed kind tag, or for a map the map
    /// type built from its declared value type.
    pub open spec fn ty(&self) -> Type {
        match self {
            ValueModel::Ip(_) => Type::Ip,
            ValueModel::Bytes(_) => Type::Bytes,
            ValueModel::Int(_) => Type::Int,
            ValueModel::Bool(_) => Type::Bool,
            ValueModel::Dict(t, _) => Type::Dict(Box::new(*t)),
        }
    }
}

/// A typed map: a dictionary from string key to runtime value, tagged with
/// the single declared type of its values. Every insert checks the inserted
/// value against that type, so every stored value has the declared type.
#[derive(Debug)]
pub struct Dict {
    /// Declared type of every value in the map.
    pub value_type: Type,
    /// The entries, in insertion order. Well-formed maps have unique keys.
    pub entries: Vec<(String, LhsValue)>,
}

/// An LHS value provided for filter execution: the tagged union of actual
/// values. These are passed to the execution context and are read back by a
/// compiled filter during execution and comparisons.
#[derive(Debug)]
pub enum LhsValue {
    /// An IPv4 or IPv6 address.
    Ip(IpAddress),
    /// A byte buffer; strings are carried as their raw bytes.
    Bytes(Vec<u8>),
    /// A 32-bit signed integer.
    Int(i32),
    /// A boolean.
    Bool(bool),
    /// A homogeneous map from string keys to values.
    Dict(Dict),
}

/// The model of a sequence of map entries: later entries shadow earlier ones
/// with the same key (well-formed maps have no such shadowing).
pub open spec fn entries_map(s: Seq<(String, LhsValue)>) -> Map<Seq<char>, ValueModel>
    decreases s,
{
    if s.len() == 0 {
        Map::empty()
    } else {
        entries_map(s.drop_last()).insert(s.last().0@, value_view(s.last().1))
    }
}

/// The model of a runtime value.
pub open spec fn value_view(v: LhsValue) -> ValueModel
    decreases v,
{
    match v {
        LhsValue::Ip(a) => ValueModel::Ip(a),
        LhsValue::Bytes(b) => ValueModel::Bytes(b@),
        LhsValue::Int(i) => ValueModel::Int(i),
        LhsValue::Bool(b) => ValueModel::Bool(b),
        LhsValue::Dict(d) => ValueModel::Dict(d.value_type, entries_map(d.entries@)),
    }
}

impl View for LhsValue {
    type V = ValueModel;

    open spec fn view(&self) -> ValueModel {
        value_view(*self)
    }
}

impl View for Dict {
    type V = Map<Seq<char>, ValueModel>;

    open spec fn view(&self) -> Map<Seq<char>, ValueModel> {
        entries_map(self.entries@)
    }
}

/// Well-formedness of a typed map: keys are unique, and every stored value is
/// itself well-formed and has the declared value type.
pub open spec fn dict_wf(d: Dict) -> bool
    decreases d,
{
    &&& (forall|i: int, j: int|
        0 <= i < j < d.entries@.len() ==> d.entries@[i].0@ != d.entries@[j].0@)
    &&& (forall|i: int|
        0 <= i < d.entries@.len() ==> value_wf(#[trigger] d.entries@[i].1))
    &&& (forall|i: int|
        0 <= i < d.entries@.len() ==> value_view(#[trigger] d.entries@[i].1).ty()
            == d.value_type)
}

/// Well-formedness of a runtime value: every map inside it is well-formed.
pub open spec fn value_wf(v: LhsValue) -> bool
    decreases v,
{
    match v {
        LhsValue::Dict(d) => dict_wf(d),
        _ => true,
    }
}

/// A key stands in the model exactly when some entry carries it.
pub proof fn lemma_entries_map_contains(s: Seq<(String, LhsValue)>, k: Seq<char>)
    ensures
        entries_map(s).contains_key(k) <==> exists|i: int| 0 <= i < s.len() && s[i].0@ == k,
    decreases s,
{
    if s.len() > 0 {
        lemma_entries_map_contains(s.drop_last(), k);
        if s.last().0@ == k {
            assert(s[s.len() - 1].0@ == k);
        } else {
            if exists|i: int| 0 <= i < s.len() && s[i].0@ == k {
                let i = choose|i: int| 0 <= i < s.len() && s[i].0@ == k;
                assert(i < s.len() - 1 && s.drop_last()[i].0@ == k);
            }
            if entries_map(s).contains_key(k) {
                let i = choose|i: int| 0 <= i < s.drop_last().len() && s.drop_last()[i].0@ == k;
                assert(s[i].0@ == k);
            }
        }
    }
}

/// With unique keys, the model maps each entry's key to that entry's value.
pub proof fn lemma_entries_map_index(s: Seq<(String, LhsValue)>, i: int)
    requires
        forall|a: int, b: int| 0 <= a < b < s.len() ==> s[a].0@ != s[b].0@,
        0 <= i < s.len(),
    ensures
        entries_map(s).contains_key(s[i].0@),
        entries_map(s)[s[i].0@] == value_view(s[i].1),
    decreases s,
{
    if i == s.len() - 1 {
    } else {
        assert(s.drop_last()[i] == s[i]);
        lemma_entries_map_index(s.drop_last(), i);
        assert(s[i].0@ != s.last().0@);
    }
}

/// Replacing the entry at one position, keeping its key, turns the model's
/// binding for that key into the new value.
pub proof fn lemma_entries_map_update(s: Seq<(String, LhsValue)>, i: int, e: (String, LhsValue))
    requires
        forall|a: int, b: int| 0 <= a < b < s.len() ==> s[a].0@ != s[b].0@,
        0 <= i < s.len(),
        e.0@ == s[i].0@,
    ensures
        entries_map(s.update(i, e)) == entries_map(s).insert(e.0@, value_view(e.1)),
    decreases s,
{
    let t = s.update(i, e);
    if i == s.len() - 1 {
        assert(t.drop_last() =~= s.drop_last());
        assert(t.last() == e);
        assert(entries_map(s).insert(e.0@, value_view(e.1)) =~= entries_map(
            s.drop_last(),
        ).insert(e.0@, value_view(e.1)));
    } else {
        assert(t.drop_last() =~= s.drop_last().update(i, e));
        assert(t.last() == s.last());
        lemma_entries_map_update(s.drop_last(), i, e);
        assert(s[i].0@ != s.last().0@);
        assert(entries_map(s.drop_last()).insert(e.0@, value_view(e.1)).insert(
            s.last().0@,
            value_view(s.last().1),
        ) =~= entries_map(s.drop_last()).insert(s.last().0@, value_view(s.last().1)).insert(
            e.0@,
            value_view(e.1),
        ));
    }
}

/// Appending an entry adds its binding to the model.
pub proof fn lemma_entries_map_push(s: Seq<(String, LhsValue)>, e: (String, LhsValue))
    ensures
        entries_map(s.push(e)) == entries_map(s).insert(e.0@, value_view(e.1)),
{
    assert(s.push(e).drop_last() =~= s);
    assert(s.push(e).last() == e);
}

/// Entry sequences that agree key by key and value model by value model have
/// the same map model.
pub proof fn lemma_entries_map_pointwise(s1: Seq<(String, LhsValue)>, s2: Seq<(String, LhsValue)>)
    requires
        s1.len() == s2.len(),
        forall|i: int|
            0 <= i < s1.len() ==> (#[trigger] s1[i]).0@ == s2[i].0@ && value_view(s1[i].1)
                == value_view(s2[i].1),
    ensures
        entries_map(s1) == entries_map(s2),
    decreases s1,
{
    if s1.len() > 0 {
        assert(forall|i: int|
            0 <= i < s1.drop_last().len() ==> (#[trigger] s1.drop_last()[i]).0@
                == s2.drop_last()[i].0@ && value_view(s1.drop_last()[i].1) == value_view(
                s2.drop_last()[i].1,
            ));
        lemma_entries_map_pointwise(s1.drop_last(), s2.drop_last());
        assert(s1.last() == s1[s1.len() - 1] && s2.last() == s2[s1.len() - 1]);
    }
}

/// Copies a byte buffer.
fn clone_bytes(b: &Vec<u8>) -> (r: Vec<u8>)
    ensures
        r@ == b@,
{
    let mut r: Vec<u8> = Vec::new();
    let mut i: usize = 0;
    while i < b.len()
        invariant
            i <= b@.len(),
            r@ == b@.subrange(0, i as int),
        decreases b@.len() - i,
    {
        r.push(b[i]);
        assert(r@ =~= b@.subrange(0, i + 1 as int));
        i += 1;
    }
    assert(r@ =~= b@);
    r
}

impl Dict {
    /// Creates an empty map whose values are fixed to `value_type` for its
    /// lifetime.
    pub fn new(value_type: Type) -> (r: Dict)
        ensures
            r.value_type == value_type,
            r@ == Map::<Seq<char>, ValueModel>::empty(),
            r.entries@.len() == 0,
            dict_wf(r),
    {
        Dict { value_type, entries: Vec::new() }
    }

    /// The declared type of the map's values.
    pub fn get_type(&self) -> (r: Type)
        ensures
            r == self.value_type,
    {
        self.value_type.clone()
    }

    /// The position of the entry carrying `key`, if any.
    fn find(&self, key: &str) -> (r: Option<usize>)
        ensures
            match r {
                Some(i) => i < self.entries@.len() && self.entries@[i as int].0@ == key@,
                None => forall|i: int|
                    0 <= i < self.entries@.len() ==> (#[trigger] self.entries@[i]).0@ != key@,
            },
    {
        let k = key.to_owned();
        let n = self.entries.len();
        let mut i: usize = 0;
        while i < n
            invariant
                k@ == key@,
                n == self.entries@.len(),
                i <= n,
                forall|j: int| 0 <= j < i ==> (#[trigger] self.entries@[j]).0@ != key@,
            decreases n - i,
        {
            if self.entries[i].0 == k {
                return Some(i);
            }
            i += 1;
        }
        None
    }

    /// Key lookup. No type check is needed: the insert-time check already
    /// guarantees the value's type.
    pub fn get(&self, key: &str) -> (r: Option<&LhsValue>)
        requires
            dict_wf(*self),
        ensures
            r.is_some() == self@.contains_key(key@),
            r.is_some() ==> value_view(*r.unwrap()) == self@[key@] && value_wf(*r.unwrap())
                && value_view(*r.unwrap()).ty() == self.value_type,
    {
        proof {
            lemma_entries_map_contains(self.entries@, key@);
        }
        match self.find(key) {
            Some(i) => {
                proof {
                    lemma_entries_map_index(self.entries@, i as int);
                }
                Some(&self.entries[i].1)
            },
            None => None,
        }
    }

    /// Mutable key lookup. The caller sees in the contract that the map's
    /// final model carries whatever value the returned reference is left
    /// with, and that well-formedness holds again if that value is
    /// well-formed and of the declared type.
    pub fn get_mut(&mut self, key: &str) -> (r: Option<&mut LhsValue>)
        requires
            dict_wf(*old(self)),
        ensures
            r.is_some() == old(self)@.contains_key(key@),
            r.is_none() ==> *final(self) == *old(self),
            r.is_some() ==> {
                &&& value_view(*r.unwrap()) == old(self)@[key@]
                &&& value_wf(*r.unwrap())
                &&& value_view(*r.unwrap()).ty() == old(self).value_type
                &&& final(self).value_type == old(self).value_type
                &&& final(self)@ == old(self)@.insert(key@, value_view(*final(r.unwrap())))
                &&& (value_wf(*final(r.unwrap())) && value_view(*final(r.unwrap())).ty()
                    == old(self).value_type ==> dict_wf(*final(self)))
            },
    {
        proof {
            lemma_entries_map_contains(self.entries@, key@);
        }
        match self.find(key) {
            Some(i) => {
                proof {
                    lemma_entries_map_index(self.entries@, i as int);
                }
                let ghost s = self.entries@;
                let entry = &mut self.entries[i];
                let ghost k0 = entry.0;
                let r = &mut entry.1;
                proof {
                    lemma_entries_map_update(s, i as int, (k0, *final(r)));
                }
                Some(r)
            },
            None => None,
        }
    }

    /// Checked insert: fails with a type mismatch, and mutates nothing, when
    /// the value's type is not the declared value type; on success returns
    /// the value previously stored under the key, if any.
    pub fn insert(&mut self, key: String, value: LhsValue) -> (r: Result<
        Option<LhsValue>,
        TypeMismatchError,
    >)
        requires
            dict_wf(*old(self)),
            value_wf(value),
        ensures
            final(self).value_type == old(self).value_type,
            value_view(value).ty() != old(self).value_type ==> (match r {
                Err(e) => e == (TypeMismatchError {
                    expected: old(self).value_type,
                    actual: value_view(value).ty(),
                }),
                Ok(_) => false,
            }) && *final(self) == *old(self),
            value_view(value).ty() == old(self).value_type ==> {
                &&& dict_wf(*final(self))
                &&& final(self)@ == old(self)@.insert(key@, value_view(value))
                &&& match r {
                    Ok(Some(prev)) => old(self)@.contains_key(key@) && value_view(prev)
                        == old(self)@[key@],
                    Ok(None) => !old(self)@.contains_key(key@),
                    Err(_) => false,
                }
            },
    {
        let value_type = value.get_type();
        if !(self.value_type == value_type) {
            return Err(TypeMismatchError { expected: self.value_type.clone(), actual: value_type });
        }
        proof {
            lemma_entries_map_contains(self.entries@, key@);
        }
        match self.find(key.as_str()) {
            Some(i) => {
                proof {
                    lemma_entries_map_index(self.entries@, i as int);
                    lemma_entries_map_update(self.entries@, i as int, (key, value));
                }
                let prev = self.entries.remove(i);
                self.entries.insert(i, (key, value));
                proof {
                    assert(self.entries@ =~= old(self).entries@.update(i as int, (key, value)));
                }
                Ok(Some(prev.1))
            },
            None => {
                proof {
                    lemma_entries_map_push(self.entries@, (key, value));
                }
                self.entries.push((key, value));
                Ok(None)
            },
        }
    }
}

impl Clone for Dict {
    /// Deep copy: same declared type, same model.
    fn clone(&self) -> (r: Self)
        ensures
            r.value_type == self.value_type,
            r@ == self@,
            dict_wf(*self) ==> dict_wf(r),
        decreases *self,
    {
        let mut entries: Vec<(String, LhsValue)> = Vec::new();
        let n = self.entries.len();
        let mut i: usize = 0;
        while i < n
            invariant
                n == self.entries@.len(),
                i <= n,
                entries@.len() == i,
                forall|k: int|
                    0 <= k < i ==> (#[trigger] entries@[k]).0@ == self.entries@[k].0@
                        && value_view(entries@[k].1) == value_view(self.entries@[k].1) && (
                    value_wf(self.entries@[k].1) ==> value_wf(entries@[k].1)),
            decreases n - i,
        {
            let e = &self.entries[i];
            let key = e.0.clone();
            let value = e.1.clone();
            entries.push((key, value));
            i += 1;
        }
        proof {
            lemma_entries_map_pointwise(entries@, self.entries@);
        }
        Dict { value_type: self.value_type.clone(), entries }
    }
}

impl Clone for LhsValue {
    /// Deep copy: same model.
    fn clone(&self) -> (r: Self)
        ensures
            r@ == self@,
            value_wf(*self) ==> value_wf(r),
        decreases *self,
    {
        match self {
            LhsValue::Ip(a) => LhsValue::Ip(*a),
            LhsValue::Bytes(b) => LhsValue::Bytes(clone_bytes(b)),
            LhsValue::Int(i) => LhsValue::Int(*i),
            LhsValue::Bool(b) => LhsValue::Bool(*b),
            LhsValue::Dict(d) => LhsValue::Dict(d.clone()),
        }
    }
}

impl LhsValue {
    /// The type this value reports: for a map, the map type over its declared
    /// value type; for the other kinds, the fixed kind tag.
    pub fn get_type(&self) -> (r: Type)
        ensures
            r == self@.ty(),
    {
        match self {
            LhsValue::Ip(_) => Type::Ip,
            LhsValue::Bytes(_) => Type::Bytes,
            LhsValue::Int(_) => Type::Int,
            LhsValue::Bool(_) => Type::Bool,
            LhsValue::Dict(d) => Type::Dict(Box::new(d.value_type.clone())),
        }
    }

    /// An independent copy of this value, with the same model, suitable for
    /// re-exposing a value fetched through a borrow.
    pub fn as_ref(&self) -> (r: LhsValue)
        ensures
            r@ == self@,
            value_wf(*self) ==> value_wf(r),
    {
        self.clone()
    }

    /// Retrieves the element a path segment designates. Only a map supports
    /// nested elements: any other kind fails with a type mismatch whose
    /// expected type is the map type over `ty`. A map with no value under the
    /// key returns no value, which is not an error.
    pub fn get(&self, item: &FieldPathItem, ty: &Type) -> (r: Result<
        Option<&LhsValue>,
        TypeMismatchError,
    >)
        requires
            value_wf(*self),
        ensures
            r.is_ok() == (*self is Dict),
            !(*self is Dict) ==> (match r {
                Err(e) => e == (TypeMismatchError {
                    expected: Type::Dict(Box::new(*ty)),
                    actual: self@.ty(),
                }),
                Ok(_) => false,
            }),
            *self is Dict ==> match r {
                Ok(Some(v)) => self->Dict_0@.contains_key(item.key()) && value_view(*v)
                    == self->Dict_0@[item.key()] && value_wf(*v),
                Ok(None) => !self->Dict_0@.contains_key(item.key()),
                Err(_) => false,
            },
    {
        match self {
            LhsValue::Dict(d) => Ok(d.get(item.name().as_str())),
            _ => Err(
                TypeMismatchError {
                    expected: Type::Dict(Box::new(ty.clone())),
                    actual: self.get_type(),
                },
            ),
        }
    }

    /// Mutable counterpart of `get` with the identical contract, stated over
    /// the value the returned reference is left with.
    pub fn get_mut(&mut self, item: &FieldPathItem, ty: &Type) -> (r: Result<
        Option<&mut LhsValue>,
        TypeMismatchError,
    >)
        requires
            value_wf(*old(self)),
        ensures
            r.is_ok() == (*old(self) is Dict),
            !(*old(self) is Dict) ==> (match r {
                Err(e) => e == (TypeMismatchError {
                    expected: Type::Dict(Box::new(*ty)),
                    actual: old(self)@.ty(),
                }),
                Ok(_) => false,
            }) && *final(self) == *old(self),
            *old(self) is Dict ==> match r {
                Ok(Some(v)) => {
                    &&& old(self)->Dict_0@.contains_key(item.key())
                    &&& value_view(*v) == old(self)->Dict_0@[item.key()]
                    &&& value_wf(*v)
                    &&& *final(self) is Dict
                    &&& final(self)->Dict_0.value_type == old(self)->Dict_0.value_type
                    &&& final(self)->Dict_0@ == old(self)->Dict_0@.insert(
                        item.key(),
                        value_view(*final(v)),
                    )
                    &&& (value_wf(*final(v)) && value_view(*final(v)).ty()
                        == old(self)->Dict_0.value_type ==> value_wf(*final(self)))
                },
                Ok(None) => !old(self)->Dict_0@.contains_key(item.key()) && *final(self) == *old(
                    self,
                ),
                Err(_) => false,
            },
    {
        match self {
            LhsValue::Dict(d) => Ok(d.get_mut(item.name().as_str())),
            _ => Err(
                TypeMismatchError {
                    expected: Type::Dict(Box::new(ty.clone())),
                    actual: self.get_type(),
                },
            ),
        }
    }

    /// Sets the element a path segment designates, by the map's checked
    /// insert. Only a map supports nested elements: any other kind fails with
    /// a type mismatch whose expected type is the map type over the value's
    /// type.
    pub fn set(&mut self, item: FieldPathItem, value: LhsValue) -> (r: Result<
        Option<LhsValue>,
        TypeMismatchError,
    >)
        requires
            value_wf(*old(self)),
            value_wf(value),
        ensures
            !(*old(self) is Dict) ==> (match r {
                Err(e) => e == (TypeMismatchError {
                    expected: Type::Dict(Box::new(value_view(value).ty())),
                    actual: old(self)@.ty(),
                }),
                Ok(_) => false,
            }) && *final(self) == *old(self),
            *old(self) is Dict ==> {
                &&& *final(self) is Dict
                &&& final(self)->Dict_0.value_type == old(self)->Dict_0.value_type
                &&& (value_view(value).ty() != old(self)->Dict_0.value_type ==> (match r {
                    Err(e) => e == (TypeMismatchError {
                        expected: old(self)->Dict_0.value_type,
                        actual: value_view(value).ty(),
                    }),
                    Ok(_) => false,
                }) && *final(self) == *old(self))
                &&& (value_view(value).ty() == old(self)->Dict_0.value_type ==> {
                    &&& value_wf(*final(self))
                    &&& final(self)->Dict_0@ == old(self)->Dict_0@.insert(
                        item.key(),
                        value_view(value),
                    )
                    &&& match r {
                        Ok(Some(prev)) => old(self)->Dict_0@.contains_key(item.key())
                            && value_view(prev) == old(self)->Dict_0@[item.key()],
                        Ok(None) => !old(self)->Dict_0@.contains_key(item.key()),
                        Err(_) => false,
                    }
                })
            },
    {
        let value_type = value.get_type();
        match self {
            LhsValue::Dict(d) => {
                let FieldPathItem::Name(name) = item;
                d.insert(name, value)
            },
            _ => Err(
                TypeMismatchError {
                    expected: Type::Dict(Box::new(value_type)),
                    actual: self.get_type(),
                },
            ),
        }
    }

    /// Placeholder materialization: constructs an empty value of a declared
    /// type when no concrete value exists yet, to support descending into a
    /// nested path. Only a map type has such a placeholder (the empty map of
    /// its declared value type); every scalar kind fails, returning the type
    /// itself.
    pub fn placeholder(ty: Type) -> (r: Result<LhsValue, Type>)
        ensures
            !(ty is Dict) ==> r == Err::<LhsValue, Type>(ty),
            ty is Dict ==> {
                &&& r is Ok
                &&& value_wf(r.unwrap())
                &&& value_view(r.unwrap()) == ValueModel::Dict(
                    *ty->Dict_0,
                    Map::<Seq<char>, ValueModel>::empty(),
                )
            },
    {
        match ty {
            Type::Dict(inner) => Ok(LhsValue::Dict(Dict::new(*inner))),
            _ => Err(ty),
        }
    }
}

/// Map homogeneity, lookup half: after a binding is inserted into a map
/// model (as a successful checked insert ensures), looking its key up yields
/// exactly the inserted value, and the key set grows by at most that key.
pub proof fn lemma_insert_lookup(m: Map<Seq<char>, ValueModel>, k: Seq<char>, v: ValueModel)
    ensures
        m.insert(k, v).contains_key(k),
        m.insert(k, v)[k] == v,
        m.insert(k, v).dom() == m.dom().insert(k),
{
}

} // verus!
