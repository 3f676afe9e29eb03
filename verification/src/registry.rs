//! The registry of message types: every registered type gets the next id,
//! and the functions that decode and deliver its messages are kept under
//! that id.

use std::any::TypeId;
use std::collections::HashMap;
use vstd::prelude::*;

verus! {

broadcast use vstd::std_specs::hash::group_hash_axioms;

#[verifier::external_type_specification]
#[verifier::external_body]
pub struct ExTypeId(TypeId);

/// `PartialEq::eq` on `TypeId`.
/// Trusted: two type ids compare equal exactly when they are the same value.
#[verifier::external_body]
fn same_type(a: &TypeId, b: &TypeId) -> (r: bool)
    ensures
        r == (*a == *b),
{
    *a == *b
}

/// The ids of a list of (type, id) entries; a later entry for a type
/// replaces an earlier one.
pub open spec fn ids_map(entries: Seq<(TypeId, u32)>) -> Map<TypeId, u32>
    decreases entries.len(),
{
    if entries.len() == 0 {
        Map::empty()
    } else {
        ids_map(entries.drop_last()).insert(entries.last().0, entries.last().1)
    }
}

/// Registered message types of one side (client or server): the last id
/// handed out, the functions kept under each id, and the id of each type.
pub struct MessagesRegistry<F> {
    last_id: u32,
    functions: HashMap<u32, F>,
    type_ids: Vec<(TypeId, u32)>,
}

/// The registry of the client side.
pub type MessagesRegistryClient<F> = MessagesRegistry<F>;

/// The registry of the server side.
pub type MessagesRegistryServer<F> = MessagesRegistry<F>;

impl<F> MessagesRegistry<F> {
    pub closed spec fn last(&self) -> u32 {
        self.last_id
    }

    pub closed spec fn functions(&self) -> Map<u32, F> {
        self.functions@
    }

    pub closed spec fn ids(&self) -> Map<TypeId, u32> {
        ids_map(self.type_ids@)
    }

    /// Functions are kept under exactly the ids from 1 to the last one
    /// handed out, every type's id has its functions, and no two types share
    /// an id.
    pub open spec fn wf(&self) -> bool {
        &&& forall|id: u32| #[trigger] self.functions().contains_key(id) <==> 1 <= id <= self.last()
        &&& forall|t: TypeId| #[trigger] self.ids().contains_key(t) ==> self.functions().contains_key(self.ids()[t])
        &&& forall|t1: TypeId, t2: TypeId|
            #[trigger] self.ids().contains_key(t1) && #[trigger] self.ids().contains_key(t2) && self.ids()[t1]
                == self.ids()[t2] ==> t1 == t2
    }

    /// Every id handed out is the id of some type: together with `wf`, the
    /// types map one to one onto the ids from 1 to the last one.
    pub open spec fn every_id_named(&self) -> bool {
        forall|id: u32| 1 <= id <= self.last() ==> #[trigger] self.names_id(id)
    }

    /// Some type has the id `id`.
    pub open spec fn names_id(&self, id: u32) -> bool {
        exists|t: TypeId| #[trigger] self.ids().contains_key(t) && self.ids()[t] == id
    }

    pub fn new() -> (r: Self)
        ensures
            r.wf(),
            r.every_id_named(),
            r.last() == 0,
            r.functions() == Map::<u32, F>::empty(),
            r.ids() == Map::<TypeId, u32>::empty(),
    {
        MessagesRegistry { last_id: 0, functions: HashMap::new(), type_ids: Vec::new() }
    }

    /// Gives the type `type_id` the next id and keeps `functions` under it.
    /// A type registered again gets a new id; its old id then names no type
    /// any more (its functions stay under it).
    pub fn register(&mut self, type_id: TypeId, functions: F) -> (r: u32)
        requires
            old(self).wf(),
            old(self).last() < u32::MAX,
        ensures
            final(self).wf(),
            r == old(self).last() + 1,
            final(self).last() == r,
            !old(self).functions().contains_key(r),
            final(self).functions() == old(self).functions().insert(r, functions),
            final(self).ids() == old(self).ids().insert(type_id, r),
            old(self).ids().contains_key(type_id) ==> forall|t: TypeId|
                #[trigger] final(self).ids().contains_key(t) ==> final(self).ids()[t] != old(self).ids()[type_id],
            !old(self).ids().contains_key(type_id) && old(self).every_id_named() ==> final(self).every_id_named(),
    {
        let new_value = self.last_id + 1;
        self.last_id = new_value;
        self.functions.insert(new_value, functions);
        let ghost old_entries = self.type_ids@;
        self.type_ids.push((type_id, new_value));
        assert(self.type_ids@.drop_last() =~= old_entries);
        assert forall|id: u32| #[trigger] self.functions().contains_key(id) <==> 1 <= id <= self.last() by {
            if id != new_value {
                assert(old(self).functions().contains_key(id) <==> 1 <= id <= old(self).last());
            }
        }
        assert forall|t1: TypeId, t2: TypeId|
            #[trigger] self.ids().contains_key(t1) && #[trigger] self.ids().contains_key(t2) && self.ids()[t1]
                == self.ids()[t2] implies t1 == t2 by {
            if t1 != type_id && t2 != type_id {
                assert(old(self).ids().contains_key(t1) && old(self).ids().contains_key(t2));
            } else if t1 != type_id {
                assert(old(self).ids().contains_key(t1));
                assert(old(self).functions().contains_key(old(self).ids()[t1]));
            } else if t2 != type_id {
                assert(old(self).ids().contains_key(t2));
                assert(old(self).functions().contains_key(old(self).ids()[t2]));
            }
        }
        proof {
            if old(self).ids().contains_key(type_id) {
                assert forall|t: TypeId| #[trigger] self.ids().contains_key(t) implies self.ids()[t] != old(self).ids()[type_id] by {
                    assert(old(self).functions().contains_key(old(self).ids()[type_id]));
                    if t != type_id {
                        assert(old(self).ids().contains_key(t));
                    }
                }
            }
            if !old(self).ids().contains_key(type_id) && old(self).every_id_named() {
                assert forall|id: u32| 1 <= id <= self.last() implies #[trigger] self.names_id(id) by {
                    if id == new_value {
                        assert(self.ids().contains_key(type_id) && self.ids()[type_id] == id);
                    } else {
                        assert(old(self).names_id(id));
                        let t = choose|t: TypeId| #[trigger] old(self).ids().contains_key(t) && old(self).ids()[t] == id;
                        assert(self.ids().contains_key(t) && self.ids()[t] == id);
                    }
                }
            }
        }
        assert forall|t: TypeId| #[trigger] self.ids().contains_key(t) implies self.functions().contains_key(
            self.ids()[t],
        ) by {
            if t != type_id {
                assert(old(self).ids().contains_key(t));
            }
        }
        new_value
    }

    /// The id of the type `type_id`, if it was registered.
    pub fn id_of(&self, type_id: &TypeId) -> (r: Option<u32>)
        ensures
            match r {
                Some(id) => self.ids().contains_key(*type_id) && self.ids()[*type_id] == id,
                None => !self.ids().contains_key(*type_id),
            },
    {
        let ghost s = self.type_ids@;
        let mut i: usize = self.type_ids.len();
        assert(s.take(i as int) =~= s);
        while i > 0
            invariant
                s == self.type_ids@,
                i <= s.len(),
                ids_map(s.take(i as int)).contains_key(*type_id) == ids_map(s).contains_key(*type_id),
                ids_map(s).contains_key(*type_id) ==> ids_map(s.take(i as int))[*type_id] == ids_map(
                    s,
                )[*type_id],
            decreases i,
        {
            let ghost pre = s.take(i as int);
            assert(pre.drop_last() =~= s.take(i - 1));
            assert(pre.last() == s[i - 1]);
            if same_type(&self.type_ids[i - 1].0, type_id) {
                return Some(self.type_ids[i - 1].1);
            }
            i = i - 1;
        }
        assert(s.take(0) =~= Seq::<(TypeId, u32)>::empty());
        None
    }

    /// The functions kept under `id`.
    pub fn functions_of(&self, id: u32) -> (r: Option<&F>)
        ensures
            match r {
                Some(f) => self.functions().contains_key(id) && *f == self.functions()[id],
                None => !self.functions().contains_key(id),
            },
    {
        self.functions.get(&id)
    }

    /// The last id handed out.
    pub fn last_id(&self) -> (r: u32)
        ensures
            r == self.last(),
    {
        self.last_id
    }
}

/// A type registered last is found under the id it was given, and that id
/// holds its functions; every type registered before keeps its id.
pub proof fn lemma_register_then_lookup<F>(
    ids: Map<TypeId, u32>,
    functions: Map<u32, F>,
    type_id: TypeId,
    id: u32,
    f: F,
    other: TypeId,
)
    requires
        other != type_id,
    ensures
        ids.insert(type_id, id)[type_id] == id,
        functions.insert(id, f)[id] == f,
        ids.insert(type_id, id).contains_key(other) == ids.contains_key(other),
        ids.contains_key(other) ==> ids.insert(type_id, id)[other] == ids[other],
{
}

} // verus!
