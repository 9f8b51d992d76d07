//! The schema consumed by the execution context: it assigns every declared
//! field a name, a stable slot index and a declared type.

use vstd::prelude::*;
use crate::types::Type;

verus! {

/// One segment of a field path. The only segment kind is a named key, which
/// descends one level into a map value.
#[derive(Debug)]
pub enum FieldPathItem {
    /// Access the value stored under this map key.
    Name(String),
}

impl FieldPathItem {
    /// The key this segment looks up.
    pub open spec fn key(&self) -> Seq<char> {
        match self {
            FieldPathItem::Name(s) => s@,
        }
    }

    /// Returns the key this segment looks up.
    pub fn name(&self) -> (r: &String)
        ensures
            r@ == self.key(),
    {
        match self {
            FieldPathItem::Name(s) => s,
        }
    }
}

impl Clone for FieldPathItem {
    fn clone(&self) -> (r: Self)
        ensures
            r.key() == self.key(),
    {
        match self {
            FieldPathItem::Name(s) => FieldPathItem::Name(s.clone()),
        }
    }
}

/// A reference to a declared field, as handed to the evaluator: the field's
/// stable slot index, its declared type, and the path of the nested element
/// the reference designates (empty for the field itself).
#[derive(Debug)]
pub struct Field {
    /// The slot index the schema assigned to the field.
    pub index: usize,
    /// The field's declared type.
    pub ty: Type,
    /// Path of the nested element this reference designates.
    pub path: Vec<FieldPathItem>,
}

/// An immutable schema: the list of declared fields, in slot order. Field
/// names are unique.
#[derive(Debug)]
pub struct Scheme {
    /// The declared fields: name and declared type, indexed by slot.
    pub fields: Vec<(String, Type)>,
}

impl Scheme {
    /// The mathematical view of the schema: the declared fields as (name,
    /// type) pairs, in slot order.
    pub open spec fn sview(&self) -> Seq<(Seq<char>, Type)> {
        self.fields@.map_values(|f: (String, Type)| (f.0@, f.1))
    }

    /// Well-formed: no two fields share a name.
    pub open spec fn wf(&self) -> bool {
        forall|i: int, j: int|
            0 <= i < j < self.sview().len() ==> self.sview()[i].0 != self.sview()[j].0
    }

    /// True when some field is declared under this name.
    pub open spec fn has_field(&self, name: Seq<char>) -> bool {
        exists|i: int| 0 <= i < self.sview().len() && self.sview()[i].0 == name
    }

    /// The slot index of the field declared under this name.
    pub open spec fn index_of(&self, name: Seq<char>) -> int {
        choose|i: int| 0 <= i < self.sview().len() && self.sview()[i].0 == name
    }

    /// The declared type of the field in a given slot.
    pub open spec fn type_at(&self, i: int) -> Type {
        self.sview()[i].1
    }

    /// Creates an empty schema.
    pub fn new() -> (r: Scheme)
        ensures
            r.sview().len() == 0,
            r.wf(),
    {
        Scheme { fields: Vec::new() }
    }

    /// Declares one more field. Returns `false` and leaves the schema
    /// unchanged when the name is already taken.
    pub fn add_field(&mut self, name: String, ty: Type) -> (r: bool)
        requires
            old(self).wf(),
        ensures
            final(self).wf(),
            r == !old(self).has_field(name@),
            r ==> final(self).sview() == old(self).sview().push((name@, ty)),
            !r ==> final(self).sview() == old(self).sview(),
    {
        let n = self.fields.len();
        let mut i: usize = 0;
        while i < n
            invariant
                old(self).wf(),
                n == self.fields@.len(),
                i <= n,
                forall|k: int| 0 <= k < i ==> self.fields@[k].0@ != name@,
                *self == *old(self),
            decreases n - i,
        {
            if self.fields[i].0 == name {
                proof {
                    assert(self.sview()[i as int].0 == name@);
                }
                return false;
            }
            i += 1;
        }
        let ghost before = self.sview();
        self.fields.push((name, ty));
        proof {
            assert(self.sview() =~= before.push((name@, ty)));
        }
        true
    }

    /// The number of declared fields, i.e. the number of slots an execution
    /// context allocates.
    pub fn get_field_count(&self) -> (r: usize)
        ensures
            r == self.sview().len(),
    {
        self.fields.len()
    }

    /// Looks the field declared under `name` up and returns a reference to it,
    /// with an empty path.
    pub fn get_field(&self, name: &str) -> (r: Option<Field>)
        requires
            self.wf(),
        ensures
            r.is_some() == self.has_field(name@),
            r.is_some() ==> {
                let f = r.unwrap();
                &&& 0 <= f.index < self.sview().len()
                &&& self.sview()[f.index as int].0 == name@
                &&& f.index as int == self.index_of(name@)
                &&& f.ty == self.type_at(f.index as int)
                &&& f.path@.len() == 0
            },
    {
        let key = name.to_owned();
        let n = self.fields.len();
        let mut i: usize = 0;
        while i < n
            invariant
                self.wf(),
                key@ == name@,
                n == self.fields@.len(),
                i <= n,
                forall|k: int| 0 <= k < i ==> self.fields@[k].0@ != name@,
            decreases n - i,
        {
            if self.fields[i].0 == key {
                proof {
                    assert(self.sview()[i as int].0 == name@);
                    assert(self.has_field(name@));
                    let w = self.index_of(name@);
                    assert(0 <= w < self.sview().len() && self.sview()[w].0 == name@);
                    if w < i as int {
                        assert(self.sview()[w].0 != self.sview()[i as int].0);
                    } else if w > i as int {
                        assert(self.sview()[i as int].0 != self.sview()[w].0);
                    }
                }
                return Some(
                    Field { index: i, ty: self.fields[i].1.clone(), path: Vec::new() },
                );
            }
            i += 1;
        }
        None
    }
}

impl Field {
    /// True when this reference is consistent with the schema: its index is a
    /// real slot and its type is the type declared there.
    pub open spec fn valid_for(&self, scheme: &Scheme) -> bool {
        &&& 0 <= self.index < scheme.sview().len()
        &&& self.ty == scheme.type_at(self.index as int)
    }

    /// The field's declared type.
    pub fn get_type(&self) -> (r: Type)
        ensures
            r == self.ty,
    {
        self.ty.clone()
    }
}

/// The keys a path looks up, segment by segment.
pub open spec fn path_keys(p: Seq<FieldPathItem>) -> Seq<Seq<char>> {
    p.map_values(|it: FieldPathItem| it.key())
}

impl Clone for Scheme {
    /// Copy with the same view: same fields, same slots, same types.
    fn clone(&self) -> (r: Self)
        ensures
            r.sview() == self.sview(),
    {
        let mut fields: Vec<(String, Type)> = Vec::new();
        let n = self.fields.len();
        let mut i: usize = 0;
        while i < n
            invariant
                n == self.fields@.len(),
                i <= n,
                fields@.len() == i,
                forall|k: int|
                    0 <= k < i ==> (#[trigger] fields@[k]).0@ == self.fields@[k].0@
                        && fields@[k].1 == self.fields@[k].1,
            decreases n - i,
        {
            let e = &self.fields[i];
            fields.push((e.0.clone(), e.1.clone()));
            i += 1;
        }
        let r = Scheme { fields };
        proof {
            assert(r.sview() =~= self.sview());
        }
        r
    }
}

} // verus!
