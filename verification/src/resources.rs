//! The resource layer: an addressable place content can live — a
//! filesystem path or an in-memory slot — and the store that owns all
//! in-memory slots of one deployment graph.

use vstd::prelude::*;
use crate::abspath::AbsPathBuf;
use crate::fsio::{fs_read_to_string, fs_write};
use crate::strutil::{decimal_string, spec_decimal};

verus! {

/// Spec-level image of a resource location.
pub enum LocModel {
    /// An in-memory slot, named by its identifier.
    InMemory(u128),
    /// A filesystem path, as its normalized string.
    Path(Seq<char>),
}

/// An addressable place content can live: an in-memory slot or a
/// filesystem path. Locations are the join-key of the action graph:
/// an action depends on another exactly when its input location
/// equals the other's output location.
#[derive(Debug, Clone, PartialEq, Eq)]
pub enum ResourceLocation {
    InMemory { id: u128 },
    Path(AbsPathBuf),
}

impl View for ResourceLocation {
    type V = LocModel;

    open spec fn view(&self) -> LocModel {
        match self {
            ResourceLocation::InMemory { id } => LocModel::InMemory(*id),
            ResourceLocation::Path(p) => LocModel::Path(p@),
        }
    }
}

impl ResourceLocation {
    /// The path, if this location is one.
    pub fn as_path(&self) -> (r: Option<&AbsPathBuf>)
        ensures
            match r {
                Some(p) => self@ == LocModel::Path(p@),
                None => self@ is InMemory,
            },
    {
        if let ResourceLocation::Path(v) = self {
            Some(v)
        } else {
            None
        }
    }

    /// An exact copy.
    pub fn duplicate(&self) -> (r: Self)
        ensures
            r@ == self@,
    {
        match self {
            ResourceLocation::InMemory { id } => ResourceLocation::InMemory { id: *id },
            ResourceLocation::Path(p) => ResourceLocation::Path(p.duplicate()),
        }
    }

    /// A human-readable rendering: `@` before the identifier of an
    /// in-memory slot, the path itself otherwise.
    pub fn describe(&self) -> (r: String)
        ensures
            r@ == spec_loc_text(self@),
    {
        match self {
            ResourceLocation::InMemory { id } => {
                let mut out = String::new();
                out.push('@');
                let digits = decimal_string(*id);
                out.append(digits.as_str());
                proof {
                    assert(out@ =~= seq!['@'] + spec_decimal(*id));
                }
                out
            },
            ResourceLocation::Path(p) => p.as_str().to_owned(),
        }
    }

    /// Whether two locations address the same place: in-memory
    /// locations by identifier, paths by their normalized string.
    pub fn same_as(&self, other: &Self) -> (r: bool)
        ensures
            r == (self@ == other@),
    {
        match (self, other) {
            (
                ResourceLocation::InMemory { id: a },
                ResourceLocation::InMemory { id: b },
            ) => *a == *b,
            (ResourceLocation::Path(p), ResourceLocation::Path(q)) => p.same_as(q),
            _ => false,
        }
    }
}

/// The human-readable rendering of a location.
pub open spec fn spec_loc_text(l: LocModel) -> Seq<char> {
    match l {
        LocModel::InMemory(id) => seq!['@'] + spec_decimal(id),
        LocModel::Path(p) => p,
    }
}

/// Spec-level image of a resource handle.
pub enum HandleModel {
    /// Literal in-memory content.
    MemStr(Seq<char>),
    /// A reference to a file, read lazily when the content is needed.
    File(Seq<char>),
}

/// The content backing an in-memory resource: a literal string, or a
/// reference to a file whose content is read lazily.
#[derive(Debug, Clone, PartialEq, Eq)]
pub enum ResourceHandle {
    MemStr(String),
    File(AbsPathBuf),
}

impl View for ResourceHandle {
    type V = HandleModel;

    open spec fn view(&self) -> HandleModel {
        match self {
            ResourceHandle::MemStr(s) => HandleModel::MemStr(s@),
            ResourceHandle::File(p) => HandleModel::File(p@),
        }
    }
}

impl ResourceHandle {
    /// An exact copy.
    pub fn duplicate(&self) -> (r: Self)
        ensures
            r@ == self@,
    {
        match self {
            ResourceHandle::MemStr(s) => ResourceHandle::MemStr(s.clone()),
            ResourceHandle::File(p) => ResourceHandle::File(p.duplicate()),
        }
    }

    /// The content this handle stands for: the literal string, or the
    /// file's content read from disk (which can fail).
    pub fn content(&self) -> (r: Result<String, String>)
        ensures
            self@ matches HandleModel::MemStr(s) ==> r matches Ok(c) && c@ == s,
    {
        match self {
            ResourceHandle::MemStr(s) => Ok(s.clone()),
            ResourceHandle::File(f) => fs_read_to_string(f.as_str()),
        }
    }
}

/// The bindings of a store as a map from identifier to handle. A
/// later entry overrides an earlier one for the same identifier.
pub open spec fn store_map_of(entries: Seq<(u128, HandleModel)>) -> Map<u128, HandleModel>
    decreases entries.len(),
{
    if entries.len() == 0 {
        Map::empty()
    } else {
        store_map_of(entries.drop_last()).insert(entries.last().0, entries.last().1)
    }
}

/// The spec-level image of a store's entry list.
pub open spec fn handle_models(entries: Seq<(u128, ResourceHandle)>) -> Seq<(u128, HandleModel)> {
    entries.map(|i: int, e: (u128, ResourceHandle)| (e.0, e.1@))
}

/// Merging entry lists merges their maps; the right-hand side wins.
pub proof fn lemma_store_map_concat(
    a: Seq<(u128, HandleModel)>,
    b: Seq<(u128, HandleModel)>,
)
    ensures
        store_map_of(a + b) == store_map_of(a).union_prefer_right(store_map_of(b)),
    decreases b.len(),
{
    if b.len() == 0 {
        assert(a + b =~= a);
        assert(store_map_of(a).union_prefer_right(Map::empty()) =~= store_map_of(a));
    } else {
        lemma_store_map_concat(a, b.drop_last());
        assert((a + b).drop_last() =~= a + b.drop_last());
        assert((a + b).last() == b.last());
        assert(store_map_of(a).union_prefer_right(
            store_map_of(b.drop_last()).insert(b.last().0, b.last().1),
        ) =~= store_map_of(a).union_prefer_right(store_map_of(b.drop_last())).insert(
            b.last().0,
            b.last().1,
        ));
    }
}

/// Relies on `uuid::Uuid::new_v4`: draws a random (version 4) UUID
/// and hands it back as its 128-bit value. Nothing can be promised of
/// a random value.
#[verifier::external_body]
fn new_uuid_u128() -> u128 {
    uuid::Uuid::new_v4().as_u128()
}

/// All in-memory intermediate artifacts of one deployment run, as a
/// mapping from identifier to handle.
#[derive(Debug, Clone)]
pub struct ResourceStore {
    handles: Vec<(u128, ResourceHandle)>,
}

impl View for ResourceStore {
    type V = Map<u128, HandleModel>;

    closed spec fn view(&self) -> Map<u128, HandleModel> {
        store_map_of(handle_models(self.handles@))
    }
}

impl Default for ResourceStore {
    /// The empty store.
    fn default() -> (r: Self)
        ensures
            r@ == Map::<u128, HandleModel>::empty(),
    {
        let r = ResourceStore { handles: Vec::new() };
        proof {
            assert(handle_models(r.handles@) =~= Seq::<(u128, HandleModel)>::empty());
        }
        r
    }
}

impl ResourceStore {
    /// An exact copy, so a run can work on a snapshot of the defined
    /// handles.
    pub fn duplicate(&self) -> (r: Self)
        ensures
            r@ == self@,
    {
        let n = self.handles.len();
        let mut handles: Vec<(u128, ResourceHandle)> = Vec::new();
        let mut i: usize = 0;
        while i < n
            invariant
                n == self.handles@.len(),
                i <= n,
                handle_models(handles@) == handle_models(self.handles@).take(i as int),
            decreases n - i,
        {
            let ghost sofar = handle_models(handles@);
            let id = self.handles[i].0;
            let h = self.handles[i].1.duplicate();
            let ghost hv = h@;
            handles.push((id, h));
            proof {
                assert(handle_models(handles@) =~= sofar.push((id, hv)));
                assert(handle_models(self.handles@)[i as int] == (
                    self.handles@[i as int].0,
                    self.handles@[i as int].1@,
                ));
                assert(handle_models(handles@) =~= handle_models(self.handles@).take(i + 1));
            }
            i = i + 1;
        }
        proof {
            assert(handle_models(self.handles@).take(n as int) =~= handle_models(self.handles@));
        }
        ResourceStore { handles }
    }

    /// Overwrites the handle bound to an identifier. Writing to an
    /// unknown identifier is a programmer error, ruled out by the
    /// contract; fresh slots come from [`ResourceStore::define`].
    pub fn set(&mut self, target: u128, value: ResourceHandle)
        requires
            old(self)@.contains_key(target),
        ensures
            final(self)@ == old(self)@.insert(target, value@),
    {
        let ghost old_entries = handle_models(self.handles@);
        let ghost hv = value@;
        self.handles.push((target, value));
        proof {
            assert(handle_models(self.handles@) =~= old_entries.push((target, hv)));
            assert(handle_models(self.handles@).drop_last() =~= old_entries);
        }
    }

    /// Allocates a fresh in-memory slot holding the given handle and
    /// returns its location.
    pub fn define(&mut self, handle: ResourceHandle) -> (r: ResourceLocation)
        ensures
            r@ matches LocModel::InMemory(id) && final(self)@ == old(self)@.insert(id, handle@),
    {
        let id = new_uuid_u128();
        let ghost old_entries = handle_models(self.handles@);
        let ghost hv = handle@;
        self.handles.push((id, handle));
        proof {
            assert(handle_models(self.handles@) =~= old_entries.push((id, hv)));
            assert(handle_models(self.handles@).drop_last() =~= old_entries);
        }
        ResourceLocation::InMemory { id }
    }

    /// Allocates a fresh in-memory slot with empty content.
    pub fn define_mem(&mut self) -> (r: ResourceLocation)
        ensures
            r@ matches LocModel::InMemory(id) && final(self)@ == old(self)@.insert(
                id,
                HandleModel::MemStr(Seq::empty()),
            ),
    {
        self.define(ResourceHandle::MemStr(String::new()))
    }

    /// The handle bound to an identifier. Looking up an unbound
    /// identifier is a programmer error, ruled out by the contract.
    pub fn get(&self, target: u128) -> (r: &ResourceHandle)
        requires
            self@.contains_key(target),
        ensures
            r@ == self@[target],
    {
        let n = self.handles.len();
        let mut i: usize = n;
        proof {
            assert(handle_models(self.handles@).take(n as int) =~= handle_models(self.handles@));
        }
        while i > 0
            invariant
                n == self.handles@.len(),
                i <= n,
                self@.contains_key(target),
                store_map_of(handle_models(self.handles@).take(i as int)).contains_key(target),
                self@[target] == store_map_of(handle_models(self.handles@).take(i as int))[target],
            decreases i,
        {
            i = i - 1;
            let here = self.handles[i].0;
            proof {
                assert(handle_models(self.handles@)[i as int] == (
                    self.handles@[i as int].0,
                    self.handles@[i as int].1@,
                ));
                assert(handle_models(self.handles@).take(i + 1).drop_last() =~= handle_models(
                    self.handles@,
                ).take(i as int));
                assert(handle_models(self.handles@).take(i + 1).last() == handle_models(
                    self.handles@,
                )[i as int]);
            }
            if here == target {
                return &self.handles[i].1;
            }
        }
        proof {
            assert(handle_models(self.handles@).take(0) =~= Seq::<(u128, HandleModel)>::empty());
            assert(false);
        }
        unreached()
    }

    /// The entry list behind the store, for inspection in tests.
    pub fn test_handles(&self) -> (r: &Vec<(u128, ResourceHandle)>)
        ensures
            self@ == store_map_of(handle_models(r@)),
    {
        &self.handles
    }

    /// The content at a location: the handle's content for an
    /// in-memory slot, the file's content for a path.
    pub fn get_content(&self, target: &ResourceLocation) -> (r: Result<String, String>)
        requires
            target@ matches LocModel::InMemory(id) ==> self@.contains_key(id),
        ensures
            (match target@ {
                LocModel::InMemory(id) => self@.contains_key(id) && (self@[id] matches
                HandleModel::MemStr(s) ==> r matches Ok(c) && c@ == s),
                LocModel::Path(_) => true,
            }),
    {
        match target {
            ResourceLocation::InMemory { id } => self.get(*id).content(),
            ResourceLocation::Path(p) => fs_read_to_string(p.as_str()),
        }
    }

    /// Stores a handle at a location: an in-memory slot is
    /// overwritten, a path is materialized by writing the handle's
    /// content as the whole file.
    pub fn set_content(&mut self, target: &ResourceLocation, value: ResourceHandle) -> (r: Result<
        (),
        String,
    >)
        requires
            target@ matches LocModel::InMemory(id) ==> old(self)@.contains_key(id),
        ensures
            target@ matches LocModel::InMemory(id) ==> r is Ok && final(self)@ == old(
                self,
            )@.insert(id, value@),
            target@ is Path ==> final(self)@ == old(self)@,
    {
        match target {
            ResourceLocation::InMemory { id } => {
                self.set(*id, value);
                Ok(())
            },
            ResourceLocation::Path(p) => {
                let content = match value.content() {
                    Ok(c) => c,
                    Err(e) => {
                        return Err(e);
                    },
                };
                fs_write(p.as_str(), content.as_str())
            },
        }
    }

    /// Moves every handle of another store into this one; an
    /// identifier bound in both ends up with the other store's
    /// handle. The other store is left empty.
    pub fn append(&mut self, other: &mut ResourceStore)
        ensures
            final(self)@ == old(self)@.union_prefer_right(old(other)@),
            final(other)@ == Map::<u128, HandleModel>::empty(),
    {
        let ghost a = handle_models(old(self).handles@);
        let ghost b = handle_models(old(other).handles@);
        let n = other.handles.len();
        let mut i: usize = 0;
        while i < n
            invariant
                n == other.handles@.len(),
                i <= n,
                b == handle_models(other.handles@),
                handle_models(self.handles@) == a + b.take(i as int),
            decreases n - i,
        {
            let ghost sofar = handle_models(self.handles@);
            let id = other.handles[i].0;
            let h = other.handles[i].1.duplicate();
            let ghost hv = h@;
            self.handles.push((id, h));
            proof {
                assert(handle_models(other.handles@)[i as int] == (
                    other.handles@[i as int].0,
                    other.handles@[i as int].1@,
                ));
                assert(handle_models(self.handles@) =~= sofar.push((id, hv)));
                assert(handle_models(self.handles@) =~= a + b.take(i + 1));
            }
            i = i + 1;
        }
        other.handles = Vec::new();
        proof {
            assert(b.take(n as int) =~= b);
            lemma_store_map_concat(a, b);
            assert(handle_models(other.handles@) =~= Seq::<(u128, HandleModel)>::empty());
        }
    }
}

} // verus!
