//! The identity registry: ids, addresses and display names.
use bimap::BiHashMap;
use std::collections::HashMap;
use vstd::prelude::*;

use crate::id_table::{
    bindings, rebind, table_address_of, table_contains_id, table_id_of, table_ids, table_insert,
    table_new, table_remove,
};
use crate::ids::{sort_ids, sorted_ids};

verus! {

/// How many random ids `assign_id` draws before it scans for a free one.
pub const MAX_ID_DRAWS: u32 = 64;

/// The name reported for an identity that has not chosen one.
pub const NO_NAME: &'static str = "Sem nome";

/// What the registry holds: each id's address and the chosen display names.
pub struct RegistryModel {
    pub ids: Map<u16, Seq<char>>,
    pub names: Map<u16, Seq<char>>,
}

/// Names belong to registered ids, and no address or name is held twice.
pub open spec fn registry_wf(m: RegistryModel) -> bool {
    &&& m.names.dom().subset_of(m.ids.dom())
    &&& forall|a: u16, b: u16|
        #![trigger m.ids[a], m.ids[b]]
        m.ids.contains_key(a) && m.ids.contains_key(b) && m.ids[a] == m.ids[b] ==> a == b
    &&& forall|a: u16, b: u16|
        #![trigger m.names[a], m.names[b]]
        m.names.contains_key(a) && m.names.contains_key(b) && m.names[a] == m.names[b] ==> a == b
}

/// The id bound to `addr`, if any.
pub open spec fn bound_id(m: RegistryModel, addr: Seq<char>) -> Option<u16> {
    if exists|k: u16| #[trigger] m.ids.contains_key(k) && m.ids[k] == addr {
        Some(choose|k: u16| #[trigger] m.ids.contains_key(k) && m.ids[k] == addr)
    } else {
        None
    }
}

/// Whether an identity other than `id` holds `name`.
pub open spec fn name_taken(m: RegistryModel, id: u16, name: Seq<char>) -> bool {
    exists|k: u16| k != id && #[trigger] m.names.contains_key(k) && m.names[k] == name
}

/// Whether `set_name(id, name)` succeeds: `id` is registered and no other
/// identity holds `name`.
pub open spec fn can_take_name(m: RegistryModel, id: u16, name: Seq<char>) -> bool {
    m.ids.contains_key(id) && !name_taken(m, id, name)
}

pub open spec fn with_name(m: RegistryModel, id: u16, name: Seq<char>) -> RegistryModel {
    RegistryModel { ids: m.ids, names: m.names.insert(id, name) }
}

/// The registry after `set_name(id, name)`.
pub open spec fn after_set_name(m: RegistryModel, id: u16, name: Seq<char>) -> RegistryModel {
    if can_take_name(m, id, name) {
        with_name(m, id, name)
    } else {
        m
    }
}

pub open spec fn with_id(m: RegistryModel, id: u16, addr: Seq<char>) -> RegistryModel {
    RegistryModel { ids: m.ids.insert(id, addr), names: m.names }
}

/// The registry without `id`, its address and its name.
pub open spec fn without_id(m: RegistryModel, id: u16) -> RegistryModel {
    RegistryModel { ids: m.ids.remove(id), names: m.names.remove(id) }
}

/// What `assign_id(addr)` may leave and return: an address that is already
/// bound keeps its id; else a fresh id is bound to it; `None` only when every
/// id is taken.
pub open spec fn assign_outcome(
    m: RegistryModel,
    addr: Seq<char>,
    r: Option<u16>,
    after: RegistryModel,
) -> bool {
    match bound_id(m, addr) {
        Some(k) => r == Some(k) && after == m,
        None => match r {
            Some(id) => !m.ids.contains_key(id) && after == with_id(m, id, addr),
            None => after == m && forall|k: u16| #[trigger] m.ids.contains_key(k),
        },
    }
}

/// The name listed for `id`: its chosen name, or the placeholder.
pub open spec fn listed_name(m: RegistryModel, id: u16) -> Seq<char> {
    if m.names.contains_key(id) {
        m.names[id]
    } else {
        NO_NAME@
    }
}

/// The directory: every registered id in ascending order, with its name.
pub open spec fn snapshot_of(m: RegistryModel) -> Seq<(u16, Seq<char>)> {
    sorted_ids(m.ids.dom()).map_values(|id: u16| (id, listed_name(m, id)))
}

/// A successful `set_name(id_a, name)` leaves `name` with `id_a`; while
/// `id_a` holds it, `set_name(id_b, name)` for any other `id_b` fails and
/// leaves the registry unchanged.
pub proof fn lemma_name_stays_with_owner(m: RegistryModel, id_a: u16, id_b: u16, name: Seq<char>)
    requires
        can_take_name(m, id_a, name),
        id_b != id_a,
    ensures
        after_set_name(m, id_a, name).names[id_a] == name,
        !can_take_name(after_set_name(m, id_a, name), id_b, name),
        after_set_name(after_set_name(m, id_a, name), id_b, name) == after_set_name(m, id_a, name),
{
    let m1 = after_set_name(m, id_a, name);
    assert(m1.names.contains_key(id_a));
    assert(name_taken(m1, id_b, name));
}

/// Every earlier `assign_id` answer is still bound to its address after `n` calls.
proof fn lemma_assigned_bindings_persist(
    states: Seq<RegistryModel>,
    addrs: Seq<Seq<char>>,
    ids: Seq<u16>,
    n: int,
)
    requires
        states.len() == addrs.len() + 1,
        ids.len() == addrs.len(),
        0 <= n <= addrs.len(),
        forall|i: int|
            0 <= i < addrs.len() ==> #[trigger] assign_outcome(
                states[i],
                addrs[i],
                Some(ids[i]),
                states[i + 1],
            ),
    ensures
        forall|i: int|
            0 <= i < n ==> states[n].ids.contains_key(#[trigger] ids[i]) && states[n].ids[ids[i]]
                == addrs[i],
    decreases n,
{
    if n > 0 {
        lemma_assigned_bindings_persist(states, addrs, ids, n - 1);
        let p = n - 1;
        assert(assign_outcome(states[p], addrs[p], Some(ids[p]), states[p + 1]));
        match bound_id(states[p], addrs[p]) {
            Some(k) => {},
            None => {
                assert forall|i: int| 0 <= i < p implies states[n].ids.contains_key(
                    #[trigger] ids[i],
                ) && states[n].ids[ids[i]] == addrs[i] by {
                    assert(states[p].ids.contains_key(ids[i]));
                }
            },
        }
    }
}

/// Ids handed out by successive `assign_id` calls for distinct addresses are
/// pairwise distinct, and each is bound to the address of its call.
pub proof fn lemma_assigned_ids_distinct(
    states: Seq<RegistryModel>,
    addrs: Seq<Seq<char>>,
    ids: Seq<u16>,
)
    requires
        states.len() == addrs.len() + 1,
        ids.len() == addrs.len(),
        forall|i: int|
            0 <= i < addrs.len() ==> #[trigger] assign_outcome(
                states[i],
                addrs[i],
                Some(ids[i]),
                states[i + 1],
            ),
        forall|i: int, j: int| 0 <= i < j < addrs.len() ==> addrs[i] != addrs[j],
    ensures
        forall|i: int, j: int| 0 <= i < j < ids.len() ==> ids[i] != ids[j],
        forall|i: int|
            0 <= i < ids.len() ==> states.last().ids.contains_key(#[trigger] ids[i])
                && states.last().ids[ids[i]] == addrs[i],
{
    let n = addrs.len() as int;
    lemma_assigned_bindings_persist(states, addrs, ids, n);
    assert forall|i: int, j: int| 0 <= i < j < ids.len() implies ids[i] != ids[j] by {
        assert(states[n].ids[ids[i]] == addrs[i]);
        assert(states[n].ids[ids[j]] == addrs[j]);
    }
}

/// The identities known to the relay: ids bound to addresses, and names.
pub struct Registry {
    ids: BiHashMap<u16, String>,
    names: HashMap<u16, String>,
}

impl View for Registry {
    type V = RegistryModel;

    closed spec fn view(&self) -> RegistryModel {
        RegistryModel { ids: bindings(self.ids), names: self.names@.map_values(|s: String| s@) }
    }
}

impl Registry {
    pub open spec fn wf(&self) -> bool {
        registry_wf(self@)
    }

    pub fn new() -> (r: Registry)
        ensures
            r.wf(),
            r@.ids.dom() == Set::<u16>::empty(),
            r@.names.dom() == Set::<u16>::empty(),
    {
        let r = Registry { ids: table_new(), names: HashMap::new() };
        assert(r@.names.dom() =~= Set::<u16>::empty());
        r
    }

    /// Binds a fresh id to `addr` and returns it. Random ids are drawn first;
    /// after `MAX_ID_DRAWS` taken ones the lowest free id is used, so `None`
    /// comes only when all ids are taken. An address that already has an id
    /// keeps it.
    pub fn assign_id(&mut self, addr: String) -> (r: Option<u16>)
        requires
            old(self).wf(),
        ensures
            final(self).wf(),
            assign_outcome(old(self)@, addr@, r, final(self)@),
    {
        match self.resolve_by_address(&addr) {
            Some(k) => {
                return Some(k);
            },
            None => {},
        }
        let ghost m0 = self@;
        let mut draws: u32 = 0;
        while draws < MAX_ID_DRAWS
            invariant
                self@ == m0,
                old(self)@ == m0,
                self.wf(),
                bound_id(m0, addr@).is_none(),
            decreases MAX_ID_DRAWS - draws,
        {
            let id: u16 = rand::random::<u16>();
            if !table_contains_id(&self.ids, id) {
                self.bind_fresh(id, addr);
                return Some(id);
            }
            draws += 1;
        }
        let mut next: u32 = 0;
        while next < 0x10000
            invariant
                self@ == m0,
                old(self)@ == m0,
                self.wf(),
                bound_id(m0, addr@).is_none(),
                forall|k: u16| k < next ==> #[trigger] m0.ids.contains_key(k),
            decreases 0x10000 - next,
        {
            let id = next as u16;
            if !table_contains_id(&self.ids, id) {
                self.bind_fresh(id, addr);
                return Some(id);
            }
            next += 1;
        }
        None
    }

    fn bind_fresh(&mut self, id: u16, addr: String)
        requires
            old(self).wf(),
            !old(self)@.ids.contains_key(id),
            bound_id(old(self)@, addr@).is_none(),
        ensures
            final(self).wf(),
            final(self)@ == with_id(old(self)@, id, addr@),
    {
        let ghost b = bindings(self.ids);
        let ghost a = addr@;
        table_insert(&mut self.ids, id, addr);
        assert(rebind(b, id, a) =~= b.insert(id, a));
        assert(self@ == with_id(old(self)@, id, a));
    }

    /// The id bound to `addr`, if any.
    pub fn resolve_by_address(&self, addr: &String) -> (r: Option<u16>)
        requires
            self.wf(),
        ensures
            r == bound_id(self@, addr@),
    {
        let r = table_id_of(&self.ids, addr);
        match r {
            Some(k) => {
                proof {
                    let c = choose|c: u16|
                        #[trigger] self@.ids.contains_key(c) && self@.ids[c] == addr@;
                    assert(self@.ids[c] == self@.ids[k]);
                }
            },
            None => {},
        }
        r
    }

    /// The address bound to `id`, if any.
    pub fn resolve_by_id(&self, id: u16) -> (r: Option<String>)
        ensures
            match r {
                Some(a) => self@.ids.contains_key(id) && self@.ids[id] == a@,
                None => !self@.ids.contains_key(id),
            },
    {
        table_address_of(&self.ids, id)
    }

    /// Whether `id` is registered.
    pub fn contains(&self, id: u16) -> (r: bool)
        ensures
            r == self@.ids.contains_key(id),
    {
        table_contains_id(&self.ids, id)
    }

    /// The name chosen by `id`, if any.
    pub fn name_of(&self, id: u16) -> (r: Option<String>)
        ensures
            match r {
                Some(n) => self@.names.contains_key(id) && self@.names[id] == n@,
                None => !self@.names.contains_key(id),
            },
    {
        match self.names.get(&id) {
            Some(n) => Some(n.clone()),
            None => None,
        }
    }

    /// Records `name` for `id` when `id` is registered and no other identity
    /// holds that name; otherwise changes nothing and returns false.
    pub fn set_name(&mut self, id: u16, name: String) -> (r: bool)
        requires
            old(self).wf(),
        ensures
            final(self).wf(),
            r == can_take_name(old(self)@, id, name@),
            final(self)@ == after_set_name(old(self)@, id, name@),
    {
        if !table_contains_id(&self.ids, id) {
            return false;
        }
        let ids = table_ids(&self.ids);
        let mut i: usize = 0;
        while i < ids.len()
            invariant
                i <= ids@.len(),
                self.wf(),
                forall|j: int|
                    0 <= j < i && ids@[j] != id && #[trigger] self@.names.contains_key(ids@[j])
                        ==> self@.names[ids@[j]] != name@,
            decreases ids@.len() - i,
        {
            let k = ids[i];
            if k != id {
                match self.names.get(&k) {
                    Some(n) => {
                        if *n == name {
                            assert(self@.names.contains_key(k) && self@.names[k] == name@);
                            return false;
                        }
                    },
                    None => {},
                }
            }
            i += 1;
        }
        assert(!name_taken(self@, id, name@)) by {
            if name_taken(self@, id, name@) {
                let k = choose|k: u16|
                    k != id && #[trigger] self@.names.contains_key(k) && self@.names[k] == name@;
                assert(ids@.to_set().contains(k));
                let j = choose|j: int| 0 <= j < ids@.len() && ids@[j] == k;
                assert(self@.names.contains_key(ids@[j]));
            }
        }
        let ghost old_names = self.names@;
        let ghost n = name@;
        self.names.insert(id, name);
        assert(self@.names =~= old(self)@.names.insert(id, n));
        true
    }

    /// Releases `id`, its address and its name.
    pub fn remove(&mut self, id: u16)
        requires
            old(self).wf(),
        ensures
            final(self).wf(),
            final(self)@ == without_id(old(self)@, id),
    {
        table_remove(&mut self.ids, id);
        self.names.remove(&id);
        assert(self@.names =~= old(self)@.names.remove(id));
    }

    /// Every registered id, in ascending order.
    pub fn registered_ids(&self) -> (r: Vec<u16>)
        ensures
            r@ == sorted_ids(self@.ids.dom()),
    {
        let ids = table_ids(&self.ids);
        sort_ids(&ids)
    }

    /// The directory: every registered id in ascending order, with its name
    /// or the placeholder.
    pub fn snapshot(&self) -> (r: Vec<(u16, String)>)
        ensures
            r@.map_values(|c: (u16, String)| (c.0, c.1@)) == snapshot_of(self@),
    {
        let ids = self.registered_ids();
        let mut out: Vec<(u16, String)> = Vec::new();
        let mut i: usize = 0;
        while i < ids.len()
            invariant
                i <= ids@.len(),
                ids@ == sorted_ids(self@.ids.dom()),
                out@.len() == i,
                forall|j: int|
                    0 <= j < i ==> (#[trigger] out@[j]).0 == ids@[j] && out@[j].1@ == listed_name(
                        self@,
                        ids@[j],
                    ),
            decreases ids@.len() - i,
        {
            let id = ids[i];
            let name = match self.names.get(&id) {
                Some(n) => n.clone(),
                None => NO_NAME.to_owned(),
            };
            out.push((id, name));
            i += 1;
        }
        assert(out@.map_values(|c: (u16, String)| (c.0, c.1@)) =~= snapshot_of(self@));
        out
    }
}

} // verus!
