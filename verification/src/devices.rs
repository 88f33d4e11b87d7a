//! The device and key synchronization registry.
//!
//! Each identity owns a set of devices, every device being an alias bound
//! to a public key, and every public key possibly holding one encrypted
//! symmetric key. The registry keeps three invariants: alias keys are
//! unique per identity, a symmetric key is only ever stored under a public
//! key that some alias binds (no orphaned keys), and a registered identity
//! always retains at least one alias.

use vstd::prelude::*;

use crate::assoc::{
    amap, id_distinct, kv_distinct, kv_keys, kv_map, lemma_amap_contains, lemma_amap_index,
    lemma_amap_push, lemma_amap_remove, lemma_id_distinct_push, lemma_kv_distinct_push,
    lemma_kv_keys, lemma_kv_map_contains, lemma_kv_map_index, lemma_kv_map_len, lemma_kv_map_push,
    lemma_kv_map_remove, lemma_kv_map_update,
};
use crate::identity::Identity;
use vstd::pervasive::VecAdditionalExecFns;

verus! {

/// The recoverable failures of the key synchronization operations.
#[derive(Clone, Copy, PartialEq, Eq, Debug, Structural)]
pub enum DeviceError {
    AlreadyRegistered,
    DeviceNotRegistered,
    KeyNotSynchronized,
    UnknownPublicKey,
}

pub type DeviceAlias = String;

pub type PublicKey = String;

pub type EncryptedSymmetricKey = String;

pub type RegisterKeyResult = Result<(), DeviceError>;

pub type SynchronizeKeyResult = Result<EncryptedSymmetricKey, DeviceError>;

/// The mathematical content of one identity's device set: the alias
/// binding and the synchronized-key store, both keyed by contents.
#[verifier::ext_equal]
pub ghost struct DeviceDataView {
    pub aliases: Map<Seq<char>, Seq<char>>,
    pub keys: Map<Seq<char>, Seq<char>>,
}

/// The device set of one identity.
pub struct DeviceData {
    pub aliases: Vec<(DeviceAlias, PublicKey)>,
    pub keys: Vec<(PublicKey, EncryptedSymmetricKey)>,
}

impl View for DeviceData {
    type V = DeviceDataView;

    open spec fn view(&self) -> DeviceDataView {
        DeviceDataView { aliases: kv_map(self.aliases@), keys: kv_map(self.keys@) }
    }
}

/// Some alias of the set binds this public key.
pub open spec fn key_bound(aliases: Map<Seq<char>, Seq<char>>, pk: Seq<char>) -> bool {
    exists|a: Seq<char>| #[trigger] aliases.contains_key(a) && aliases[a] == pk
}

impl DeviceData {
    /// Well-formedness: unique alias keys, unique public keys in the key
    /// store, at least one alias, and no key stored under an unbound
    /// public key.
    pub open spec fn wf(&self) -> bool {
        &&& kv_distinct(self.aliases@)
        &&& kv_distinct(self.keys@)
        &&& self.aliases@.len() > 0
        &&& forall|pk: Seq<char>| #[trigger]
            self@.keys.contains_key(pk) ==> key_bound(self@.aliases, pk)
    }
}

/// The registry: every known identity's device set.
pub struct Devices {
    pub devices: Vec<(Identity, DeviceData)>,
}

impl View for Devices {
    type V = Map<u128, DeviceDataView>;

    open spec fn view(&self) -> Map<u128, DeviceDataView> {
        amap(self.devices@)
    }
}

impl Devices {
    pub open spec fn wf(&self) -> bool {
        &&& id_distinct(self.devices@)
        &&& forall|i: int| 0 <= i < self.devices@.len() ==> (#[trigger] self.devices@[i]).1.wf()
    }
}

impl Default for Devices {
    /// The registry starts empty.
    fn default() -> (d: Devices)
        ensures
            d.wf(),
            d@ == Map::<u128, DeviceDataView>::empty(),
    {
        Devices { devices: Vec::new() }
    }
}

// ---------------------------------------------------------------------------
// The specification of each operation, per identity and over the registry
// ---------------------------------------------------------------------------

/// The device set of an identity, if the identity is known.
pub open spec fn entry_of(m: Map<u128, DeviceDataView>, id: u128) -> Option<DeviceDataView> {
    if m.contains_key(id) {
        Some(m[id])
    } else {
        None
    }
}

/// What registering a device does to one identity's set: a first
/// registration creates the set; a fresh alias is bound; an existing alias
/// is left untouched.
pub open spec fn spec_register_device(
    dd: Option<DeviceDataView>,
    alias: Seq<char>,
    pk: Seq<char>,
) -> DeviceDataView {
    match dd {
        None => DeviceDataView { aliases: Map::empty().insert(alias, pk), keys: Map::empty() },
        Some(d) => {
            if d.aliases.contains_key(alias) {
                d
            } else {
                DeviceDataView { aliases: d.aliases.insert(alias, pk), keys: d.keys }
            }
        },
    }
}

pub open spec fn spec_register_map(
    m: Map<u128, DeviceDataView>,
    id: u128,
    alias: Seq<char>,
    pk: Seq<char>,
) -> Map<u128, DeviceDataView> {
    m.insert(id, spec_register_device(entry_of(m, id), alias, pk))
}

/// What deleting a device does to one identity's set: the alias binding
/// goes, and so does any key stored under the alias's public key.
pub open spec fn spec_delete_device(d: DeviceDataView, alias: Seq<char>) -> DeviceDataView {
    if d.aliases.contains_key(alias) {
        DeviceDataView { aliases: d.aliases.remove(alias), keys: d.keys.remove(d.aliases[alias]) }
    } else {
        d
    }
}

pub open spec fn spec_delete_map(
    m: Map<u128, DeviceDataView>,
    id: u128,
    alias: Seq<char>,
) -> Map<u128, DeviceDataView> {
    if m.contains_key(id) {
        m.insert(id, spec_delete_device(m[id], alias))
    } else {
        m
    }
}

/// The aliases an identity has registered; empty for an unknown identity.
pub open spec fn spec_alias_set(dd: Option<DeviceDataView>) -> Set<Seq<char>> {
    match dd {
        None => Set::empty(),
        Some(d) => d.aliases.dom(),
    }
}

/// What looking up a synchronized key returns.
pub open spec fn spec_get_key(dd: Option<DeviceDataView>, pk: Seq<char>) -> Result<
    Seq<char>,
    DeviceError,
> {
    match dd {
        None => Err(DeviceError::DeviceNotRegistered),
        Some(d) => {
            if !key_bound(d.aliases, pk) {
                Err(DeviceError::UnknownPublicKey)
            } else if !d.keys.contains_key(pk) {
                Err(DeviceError::KeyNotSynchronized)
            } else {
                Ok(d.keys[pk])
            }
        },
    }
}

/// A public key that is registered but holds no synchronized key yet.
pub open spec fn is_unsynced(dd: Option<DeviceDataView>, pk: Seq<char>) -> bool {
    match dd {
        None => false,
        Some(d) => key_bound(d.aliases, pk) && !d.keys.contains_key(pk),
    }
}

/// The device set holds at least one synchronized key.
pub open spec fn dd_has_key(d: DeviceDataView) -> bool {
    exists|pk: Seq<char>| #[trigger] d.keys.contains_key(pk)
}

/// The identity holds at least one synchronized key.
pub open spec fn has_synced_key(dd: Option<DeviceDataView>) -> bool {
    match dd {
        None => false,
        Some(d) => dd_has_key(d),
    }
}

/// What the bootstrap key registration returns: it demands a known
/// identity, a bound public key, and that no key was synchronized before.
pub open spec fn spec_register_key_result(dd: Option<DeviceDataView>, pk: Seq<char>) -> Result<
    (),
    DeviceError,
> {
    match dd {
        None => Err(DeviceError::DeviceNotRegistered),
        Some(d) => {
            if !key_bound(d.aliases, pk) {
                Err(DeviceError::UnknownPublicKey)
            } else if has_synced_key(Some(d)) {
                Err(DeviceError::AlreadyRegistered)
            } else {
                Ok(())
            }
        },
    }
}

pub open spec fn spec_register_key_map(
    m: Map<u128, DeviceDataView>,
    id: u128,
    pk: Seq<char>,
    ek: Seq<char>,
) -> Map<u128, DeviceDataView> {
    if spec_register_key_result(entry_of(m, id), pk) == Ok::<(), DeviceError>(()) {
        let d = m[id];
        m.insert(id, DeviceDataView { aliases: d.aliases, keys: d.keys.insert(pk, ek) })
    } else {
        m
    }
}

/// The contents of an uploaded pair list.
pub open spec fn pairs_view(s: Seq<(String, String)>) -> Seq<(Seq<char>, Seq<char>)> {
    s.map_values(|p: (String, String)| (p.0@, p.1@))
}

/// The contents of a list of strings.
pub open spec fn views_of(s: Seq<String>) -> Seq<Seq<char>> {
    s.map_values(|a: String| a@)
}

/// Every uploaded pair names a bound public key.
pub open spec fn spec_upload_ok(
    aliases: Map<Seq<char>, Seq<char>>,
    pairs: Seq<(Seq<char>, Seq<char>)>,
) -> bool {
    forall|x: int| 0 <= x < pairs.len() ==> key_bound(aliases, (#[trigger] pairs[x]).0)
}

/// The key store after an upload: pairs are applied in order, each
/// overwriting its public key's entry, and application stops at the first
/// pair whose public key no alias binds — what came before stays applied.
pub open spec fn spec_upload_keys(
    keys: Map<Seq<char>, Seq<char>>,
    aliases: Map<Seq<char>, Seq<char>>,
    pairs: Seq<(Seq<char>, Seq<char>)>,
) -> Map<Seq<char>, Seq<char>>
    decreases pairs.len(),
{
    if pairs.len() == 0 {
        keys
    } else if spec_upload_ok(aliases, pairs.drop_last()) && key_bound(aliases, pairs.last().0) {
        spec_upload_keys(keys, aliases, pairs.drop_last()).insert(pairs.last().0, pairs.last().1)
    } else {
        spec_upload_keys(keys, aliases, pairs.drop_last())
    }
}

pub open spec fn spec_upload_result(
    dd: Option<DeviceDataView>,
    pairs: Seq<(Seq<char>, Seq<char>)>,
) -> Result<(), DeviceError> {
    match dd {
        None => Err(DeviceError::DeviceNotRegistered),
        Some(d) => {
            if spec_upload_ok(d.aliases, pairs) {
                Ok(())
            } else {
                Err(DeviceError::UnknownPublicKey)
            }
        },
    }
}

pub open spec fn spec_upload_map(
    m: Map<u128, DeviceDataView>,
    id: u128,
    pairs: Seq<(Seq<char>, Seq<char>)>,
) -> Map<u128, DeviceDataView> {
    if m.contains_key(id) {
        let d = m[id];
        m.insert(
            id,
            DeviceDataView { aliases: d.aliases, keys: spec_upload_keys(d.keys, d.aliases, pairs) },
        )
    } else {
        m
    }
}

// ---------------------------------------------------------------------------
// Proof helpers
// ---------------------------------------------------------------------------

/// A bound value in a well-formed alias list is one carried by some entry.
pub proof fn lemma_key_bound(s: Seq<(String, String)>, v: Seq<char>)
    requires
        kv_distinct(s),
    ensures
        key_bound(kv_map(s), v) <==> exists|i: int| 0 <= i < s.len() && (#[trigger] s[i]).1@ == v,
{
    if key_bound(kv_map(s), v) {
        let a = choose|a: Seq<char>| #[trigger] kv_map(s).contains_key(a) && kv_map(s)[a] == v;
        lemma_kv_map_contains(s, a);
        let i = choose|i: int| 0 <= i < s.len() && (#[trigger] s[i]).0@ == a;
        lemma_kv_map_index(s, i);
        assert((s[i]).1@ == v);
    }
    if exists|i: int| 0 <= i < s.len() && (#[trigger] s[i]).1@ == v {
        let i = choose|i: int| 0 <= i < s.len() && (#[trigger] s[i]).1@ == v;
        lemma_kv_map_index(s, i);
        assert(kv_map(s).contains_key(s[i].0@) && kv_map(s)[s[i].0@] == v);
    }
}

/// Detaching one registry entry: the rest keeps its shape, and the map
/// loses exactly that identity.
proof fn lemma_devices_remove(s: Seq<(Identity, DeviceData)>, i: int)
    requires
        id_distinct(s),
        0 <= i < s.len(),
        forall|j: int| 0 <= j < s.len() ==> (#[trigger] s[j]).1.wf(),
    ensures
        id_distinct(s.remove(i)),
        forall|j: int| 0 <= j < s.remove(i).len() ==> (#[trigger] s.remove(i)[j]).1.wf(),
        forall|j: int|
            0 <= j < s.remove(i).len() ==> (#[trigger] s.remove(i)[j]).0.id != s[i].0.id,
        amap(s.remove(i)) == amap(s).remove(s[i].0.id),
{
    lemma_amap_remove(s, i);
    s.remove_ensures(i);
    assert forall|j: int| 0 <= j < s.remove(i).len() implies (#[trigger] s.remove(i)[j]).1.wf()
        && (s.remove(i)[j]).0.id != s[i].0.id by {
        let j2: int = if j < i {
            j
        } else {
            j + 1
        };
        assert(s.remove(i)[j] == s[j2]);
    }
}

/// Reattaching an entry under a fresh identity: the map gains exactly it.
proof fn lemma_devices_push(s: Seq<(Identity, DeviceData)>, p: (Identity, DeviceData))
    requires
        id_distinct(s),
        forall|j: int| 0 <= j < s.len() ==> (#[trigger] s[j]).1.wf(),
        forall|j: int| 0 <= j < s.len() ==> (#[trigger] s[j]).0.id != p.0.id,
        p.1.wf(),
    ensures
        id_distinct(s.push(p)),
        forall|j: int| 0 <= j < s.push(p).len() ==> (#[trigger] s.push(p)[j]).1.wf(),
        amap(s.push(p)) == amap(s).insert(p.0.id, p.1@),
{
    lemma_id_distinct_push(s, p);
    lemma_amap_push(s, p);
    assert forall|j: int| 0 <= j < s.push(p).len() implies (#[trigger] s.push(p)[j]).1.wf() by {
        if j < s.len() {
            assert(s.push(p)[j] == s[j]);
        } else {
            assert(s.push(p)[j] == p);
        }
    }
}

// ---------------------------------------------------------------------------
// Executable search helpers
// ---------------------------------------------------------------------------

/// The position of an identity's entry, if the identity is known.
fn find_identity(devices: &Vec<(Identity, DeviceData)>, identity: Identity) -> (r: Option<usize>)
    ensures
        match r {
            Some(i) => i < devices@.len() && devices@[i as int].0 == identity,
            None => forall|j: int|
                0 <= j < devices@.len() ==> (#[trigger] devices@[j]).0.id != identity.id,
        },
{
    let mut i: usize = 0;
    while i < devices.len()
        invariant
            i <= devices@.len(),
            forall|j: int| 0 <= j < i ==> (#[trigger] devices@[j]).0.id != identity.id,
        decreases devices@.len() - i,
    {
        if devices[i].0 == identity {
            return Some(i);
        }
        i = i + 1;
    }
    None
}

/// The position of a key's entry in a pair list, if the key occurs.
fn kv_find(v: &Vec<(String, String)>, k: &String) -> (r: Option<usize>)
    ensures
        match r {
            Some(i) => i < v@.len() && v@[i as int].0@ == k@,
            None => forall|j: int| 0 <= j < v@.len() ==> (#[trigger] v@[j]).0@ != k@,
        },
{
    let mut i: usize = 0;
    while i < v.len()
        invariant
            i <= v@.len(),
            forall|j: int| 0 <= j < i ==> (#[trigger] v@[j]).0@ != k@,
        decreases v@.len() - i,
    {
        if v[i].0 == *k {
            return Some(i);
        }
        i = i + 1;
    }
    None
}

/// Whether some entry of a pair list carries this value.
fn kv_has_value(v: &Vec<(String, String)>, pk: &String) -> (r: bool)
    ensures
        r == exists|j: int| 0 <= j < v@.len() && (#[trigger] v@[j]).1@ == pk@,
{
    let mut i: usize = 0;
    while i < v.len()
        invariant
            i <= v@.len(),
            forall|j: int| 0 <= j < i ==> (#[trigger] v@[j]).1@ != pk@,
        decreases v@.len() - i,
    {
        if v[i].1 == *pk {
            assert((v@[i as int]).1@ == pk@);
            return true;
        }
        i = i + 1;
    }
    false
}

// ---------------------------------------------------------------------------
// The registry's operations
// ---------------------------------------------------------------------------

impl Devices {
    /// The access gate's question: has this identity registered a device?
    pub fn is_caller_registered(&self, identity: Identity) -> (r: bool)
        requires
            self.wf(),
            !identity.spec_is_anonymous(),
        ensures
            r == self@.contains_key(identity.id),
    {
        proof {
            lemma_amap_contains(self.devices@, identity.id);
        }
        match find_identity(&self.devices, identity) {
            Some(i) => {
                proof {
                    lemma_amap_index(self.devices@, i as int);
                }
                true
            },
            None => false,
        }
    }

    /// Bind an alias to a public key under the identity. A first call for
    /// an unknown identity creates its device set; an alias that already
    /// exists is left exactly as it was (first registration wins). This
    /// operation cannot fail.
    pub fn register_device(&mut self, identity: Identity, alias: DeviceAlias, public_key: PublicKey)
        requires
            old(self).wf(),
            !identity.spec_is_anonymous(),
        ensures
            final(self).wf(),
            final(self)@ == spec_register_map(old(self)@, identity.id, alias@, public_key@),
    {
        let ghost m0 = self@;
        let ghost s0 = self.devices@;
        let ghost aliasv = alias@;
        let ghost pkv = public_key@;
        proof {
            lemma_amap_contains(s0, identity.id);
        }
        match find_identity(&self.devices, identity) {
            Some(i) => {
                proof {
                    lemma_amap_index(s0, i as int);
                    lemma_devices_remove(s0, i as int);
                }
                let mut entry = self.devices.remove(i);
                let ghost d0 = entry.1@;
                proof {
                    lemma_kv_map_contains(entry.1.aliases@, aliasv);
                }
                match kv_find(&entry.1.aliases, &alias) {
                    Some(_) => {
                        proof {
                            assert(d0.aliases.contains_key(aliasv));
                            assert(spec_register_device(Some(d0), aliasv, pkv) == d0);
                        }
                    },
                    None => {
                        let ghost a0 = entry.1.aliases@;
                        entry.1.aliases.push((alias, public_key));
                        proof {
                            let p = entry.1.aliases@.last();
                            assert(entry.1.aliases@ == a0.push(p));
                            assert(p.0@ == aliasv && p.1@ == pkv);
                            lemma_kv_map_push(a0, p);
                            lemma_kv_distinct_push(a0, p);
                            assert(!d0.aliases.contains_key(aliasv));
                            assert(entry.1@.aliases == d0.aliases.insert(aliasv, pkv));
                            // no key becomes orphaned when an alias is added
                            assert forall|pk2: Seq<char>| #[trigger]
                                entry.1@.keys.contains_key(pk2) implies key_bound(
                                entry.1@.aliases,
                                pk2,
                            ) by {
                                assert(d0.keys.contains_key(pk2));
                                assert(key_bound(d0.aliases, pk2));
                                let a = choose|a: Seq<char>| #[trigger]
                                    d0.aliases.contains_key(a) && d0.aliases[a] == pk2;
                                assert(entry.1@.aliases.contains_key(a));
                                assert(entry.1@.aliases[a] == pk2);
                            }
                            assert(entry.1@ =~= spec_register_device(Some(d0), aliasv, pkv));
                        }
                    },
                }
                proof {
                    assert(forall|j: int|
                        0 <= j < self.devices@.len() ==> (#[trigger] self.devices@[j]).0.id
                            != identity.id);
                }
                self.devices.push(entry);
                proof {
                    lemma_devices_push(s0.remove(i as int), (identity, entry.1));
                    assert(self@ =~= spec_register_map(m0, identity.id, aliasv, pkv));
                }
            },
            None => {
                let mut aliases: Vec<(DeviceAlias, PublicKey)> = Vec::new();
                let ghost a0 = aliases@;
                aliases.push((alias, public_key));
                proof {
                    let p = aliases@.last();
                    assert(aliases@ == a0.push(p));
                    assert(p.0@ == aliasv && p.1@ == pkv);
                    lemma_kv_map_push(a0, p);
                    lemma_kv_distinct_push(a0, p);
                }
                let entry = (identity, DeviceData { aliases, keys: Vec::new() });
                proof {
                    assert(entry.1@.aliases =~= Map::empty().insert(aliasv, pkv));
                    assert(entry.1@.keys =~= Map::<Seq<char>, Seq<char>>::empty());
                    assert forall|pk2: Seq<char>| #[trigger]
                        entry.1@.keys.contains_key(pk2) implies key_bound(
                        entry.1@.aliases,
                        pk2,
                    ) by {}
                    assert(entry.1.wf());
                }
                self.devices.push(entry);
                proof {
                    lemma_devices_push(s0, entry);
                    assert(!m0.contains_key(identity.id));
                    assert(entry.1@ =~= spec_register_device(None, aliasv, pkv));
                    assert(self@ =~= spec_register_map(m0, identity.id, aliasv, pkv));
                }
            },
        }
    }

    /// The aliases the identity has registered, each once, in no promised
    /// order; empty for an unknown identity.
    pub fn get_device_aliases(&self, identity: Identity) -> (r: Vec<DeviceAlias>)
        requires
            self.wf(),
            !identity.spec_is_anonymous(),
        ensures
            views_of(r@).no_duplicates(),
            views_of(r@).to_set() == spec_alias_set(entry_of(self@, identity.id)),
    {
        proof {
            lemma_amap_contains(self.devices@, identity.id);
        }
        match find_identity(&self.devices, identity) {
            None => {
                let r: Vec<DeviceAlias> = Vec::new();
                proof {
                    assert(views_of(r@) =~= Seq::<Seq<char>>::empty());
                    assert(views_of(r@).to_set() =~= Set::<Seq<char>>::empty());
                }
                r
            },
            Some(i) => {
                proof {
                    lemma_amap_index(self.devices@, i as int);
                }
                let ghost av = self.devices@[i as int].1.aliases@;
                let n = self.devices[i].1.aliases.len();
                let mut r: Vec<DeviceAlias> = Vec::new();
                let mut j: usize = 0;
                while j < n
                    invariant
                        self.wf(),
                        i < self.devices@.len(),
                        av == self.devices@[i as int].1.aliases@,
                        n == av.len(),
                        j <= n,
                        r@.len() == j as int,
                        forall|l: int| 0 <= l < j ==> (#[trigger] r@[l]) == av[l].0,
                    decreases n - j,
                {
                    r.push(self.devices[i].1.aliases[j].0.clone());
                    j = j + 1;
                }
                proof {
                    assert(views_of(r@) =~= kv_keys(av));
                    lemma_kv_keys(av);
                }
                r
            },
        }
    }

    /// Remove the alias's binding and any symmetric key stored under its
    /// public key. An unknown identity or alias is a silent no-op. An
    /// identity must retain at least one alias, so deletion demands that
    /// more than one is currently registered — a caller trying to delete
    /// its last device would lock itself out of its own account.
    pub fn delete_device(&mut self, identity: Identity, alias: DeviceAlias)
        requires
            old(self).wf(),
            !identity.spec_is_anonymous(),
            old(self)@.contains_key(identity.id) ==> old(self)@[identity.id].aliases.dom().len()
                > 1,
        ensures
            final(self).wf(),
            final(self)@ == spec_delete_map(old(self)@, identity.id, alias@),
    {
        let ghost m0 = self@;
        let ghost s0 = self.devices@;
        let ghost aliasv = alias@;
        proof {
            lemma_amap_contains(s0, identity.id);
        }
        match find_identity(&self.devices, identity) {
            None => {
                proof {
                    assert(!m0.contains_key(identity.id));
                }
            },
            Some(i) => {
                proof {
                    lemma_amap_index(s0, i as int);
                    lemma_devices_remove(s0, i as int);
                }
                let mut entry = self.devices.remove(i);
                let ghost d0 = entry.1@;
                proof {
                    lemma_kv_map_len(entry.1.aliases@);
                    assert(entry.1.aliases@.len() > 1);
                    lemma_kv_map_contains(entry.1.aliases@, aliasv);
                }
                match kv_find(&entry.1.aliases, &alias) {
                    None => {
                        proof {
                            assert(!d0.aliases.contains_key(aliasv));
                            assert(spec_delete_device(d0, aliasv) == d0);
                        }
                    },
                    Some(j) => {
                        let ghost a0 = entry.1.aliases@;
                        proof {
                            lemma_kv_map_index(a0, j as int);
                            lemma_kv_map_remove(a0, j as int);
                        }
                        let removed = entry.1.aliases.remove(j);
                        let public_key = removed.1;
                        let ghost pkv = public_key@;
                        proof {
                            assert(pkv == d0.aliases[aliasv]);
                            assert(entry.1@.aliases == d0.aliases.remove(aliasv));
                            lemma_kv_map_contains(entry.1.keys@, pkv);
                        }
                        match kv_find(&entry.1.keys, &public_key) {
                            Some(l) => {
                                let ghost k0 = entry.1.keys@;
                                proof {
                                    lemma_kv_map_index(k0, l as int);
                                    lemma_kv_map_remove(k0, l as int);
                                }
                                entry.1.keys.remove(l);
                                proof {
                                    assert(entry.1@.keys == d0.keys.remove(pkv));
                                }
                            },
                            None => {
                                proof {
                                    assert(!d0.keys.contains_key(pkv));
                                    assert(d0.keys.remove(pkv) =~= d0.keys);
                                }
                            },
                        }
                        proof {
                            assert(entry.1@ =~= spec_delete_device(d0, aliasv));
                            assert(entry.1.aliases@.len() > 0);
                            assert forall|k: Seq<char>| #[trigger]
                                entry.1@.keys.contains_key(k) implies key_bound(
                                entry.1@.aliases,
                                k,
                            ) by {
                                assert(d0.keys.contains_key(k));
                                assert(key_bound(d0.aliases, k));
                                let a = choose|a: Seq<char>| #[trigger]
                                    d0.aliases.contains_key(a) && d0.aliases[a] == k;
                                assert(k != pkv);
                                assert(a != aliasv);
                                assert(entry.1@.aliases.contains_key(a));
                            }
                        }
                    },
                }
                self.devices.push(entry);
                proof {
                    lemma_devices_push(s0.remove(i as int), (identity, entry.1));
                    assert(self@ =~= spec_delete_map(m0, identity.id, aliasv));
                }
            },
        }
    }

    /// Return the encrypted symmetric key stored under the public key,
    /// unchanged. Fails when the identity is unknown, when no alias of the
    /// identity binds the public key, or when no key has been synchronized
    /// to that public key yet.
    pub fn get_encrypted_symmetric_key(
        &mut self,
        identity: Identity,
        public_key: &PublicKey,
    ) -> (r: SynchronizeKeyResult)
        requires
            old(self).wf(),
            !identity.spec_is_anonymous(),
        ensures
            *final(self) == *old(self),
            match r {
                Ok(ct) => spec_get_key(entry_of(old(self)@, identity.id), public_key@)
                    == Ok::<Seq<char>, DeviceError>(ct@),
                Err(e) => spec_get_key(entry_of(old(self)@, identity.id), public_key@)
                    == Err::<Seq<char>, DeviceError>(e),
            },
    {
        proof {
            lemma_amap_contains(self.devices@, identity.id);
        }
        match find_identity(&self.devices, identity) {
            None => Err(DeviceError::DeviceNotRegistered),
            Some(i) => {
                proof {
                    lemma_amap_index(self.devices@, i as int);
                }
                if !kv_has_value(&self.devices[i].1.aliases, public_key) {
                    proof {
                        lemma_key_bound(self.devices@[i as int].1.aliases@, public_key@);
                    }
                    Err(DeviceError::UnknownPublicKey)
                } else {
                    proof {
                        lemma_key_bound(self.devices@[i as int].1.aliases@, public_key@);
                    }
                    match kv_find(&self.devices[i].1.keys, public_key) {
                        None => {
                            proof {
                                lemma_kv_map_contains(
                                    self.devices@[i as int].1.keys@,
                                    public_key@,
                                );
                            }
                            Err(DeviceError::KeyNotSynchronized)
                        },
                        Some(l) => {
                            proof {
                                lemma_kv_map_index(self.devices@[i as int].1.keys@, l as int);
                            }
                            Ok(self.devices[i].1.keys[l].1.clone())
                        },
                    }
                }
            },
        }
    }

    /// Every registered public key that holds no synchronized key yet:
    /// exactly the identity's registered keys minus the synchronized
    /// ones, and empty for an unknown identity.
    #[verifier::loop_isolation(false)]
    pub fn get_unsynced_public_keys(&mut self, identity: Identity) -> (r: Vec<PublicKey>)
        requires
            old(self).wf(),
            !identity.spec_is_anonymous(),
        ensures
            *final(self) == *old(self),
            forall|l: int|
                0 <= l < r@.len() ==> is_unsynced(
                    entry_of(old(self)@, identity.id),
                    (#[trigger] r@[l])@,
                ),
            forall|pk: Seq<char>| #[trigger]
                is_unsynced(entry_of(old(self)@, identity.id), pk) ==> exists|l: int|
                    0 <= l < r@.len() && (#[trigger] r@[l])@ == pk,
            !old(self)@.contains_key(identity.id) ==> r@.len() == 0,
    {
        proof {
            lemma_amap_contains(self.devices@, identity.id);
        }
        match find_identity(&self.devices, identity) {
            None => Vec::new(),
            Some(i) => {
                proof {
                    lemma_amap_index(self.devices@, i as int);
                }
                let ghost d = self.devices@[i as int].1@;
                let ghost av = self.devices@[i as int].1.aliases@;
                let n = self.devices[i].1.aliases.len();
                let mut r: Vec<PublicKey> = Vec::new();
                let mut j: usize = 0;
                while j < n
                    invariant
                        j <= n,
                        forall|l: int|
                            0 <= l < r@.len() ==> is_unsynced(Some(d), (#[trigger] r@[l])@),
                        forall|x: int|
                            0 <= x < j && !d.keys.contains_key((#[trigger] av[x]).1@)
                                ==> exists|l: int| 0 <= l < r@.len() && (#[trigger] r@[l])@
                                == av[x].1@,
                    decreases n - j,
                {
                    let pk = self.devices[i].1.aliases[j].1.clone();
                    proof {
                        assert(pk == av[j as int].1);
                        lemma_kv_map_contains(self.devices@[i as int].1.keys@, pk@);
                    }
                    let ghost r0 = r@;
                    match kv_find(&self.devices[i].1.keys, &pk) {
                        None => {
                            proof {
                                lemma_kv_map_index(av, j as int);
                                assert(d.aliases.contains_key(av[j as int].0@));
                                assert(key_bound(d.aliases, pk@));
                                assert(!d.keys.contains_key(pk@));
                            }
                            r.push(pk);
                            proof {
                                assert(r@[r@.len() - 1]@ == av[j as int].1@);
                                assert forall|x: int|
                                    0 <= x < j + 1 && !d.keys.contains_key(
                                    (#[trigger] av[x]).1@,
                                ) implies exists|l: int|
                                    0 <= l < r@.len() && (#[trigger] r@[l])@ == av[x].1@ by {
                                    if x < j {
                                        let l = choose|l: int|
                                            0 <= l < r0.len() && (#[trigger] r0[l])@ == av[x].1@;
                                        assert(r@[l] == r0[l]);
                                    } else {
                                        assert(r@[r@.len() - 1]@ == av[x].1@);
                                    }
                                }
                            }
                        },
                        Some(l) => {
                            proof {
                                assert((self.devices@[i as int].1.keys@[l as int]).0@ == pk@);
                                assert(d.keys.contains_key(pk@));
                                assert(d.keys.contains_key(av[j as int].1@));
                            }
                        },
                    }
                    j = j + 1;
                }
                proof {
                    assert forall|pk: Seq<char>| #[trigger]
                        is_unsynced(Some(d), pk) implies exists|l: int|
                        0 <= l < r@.len() && (#[trigger] r@[l])@ == pk by {
                        let a = choose|a: Seq<char>| #[trigger]
                            d.aliases.contains_key(a) && d.aliases[a] == pk;
                        lemma_kv_map_contains(av, a);
                        let x = choose|x: int| 0 <= x < av.len() && (#[trigger] av[x]).0@ == a;
                        lemma_kv_map_index(av, x);
                        assert(av[x].1@ == pk);
                        assert(!d.keys.contains_key(av[x].1@));
                    }
                }
                r
            },
        }
    }

    /// Whether at least one of the identity's public keys holds a
    /// synchronized key; false for an unknown identity.
    pub fn is_encrypted_symmetric_key_registered(&self, identity: Identity) -> (r: bool)
        requires
            self.wf(),
            !identity.spec_is_anonymous(),
        ensures
            r == has_synced_key(entry_of(self@, identity.id)),
    {
        proof {
            lemma_amap_contains(self.devices@, identity.id);
        }
        match find_identity(&self.devices, identity) {
            None => false,
            Some(i) => {
                proof {
                    lemma_amap_index(self.devices@, i as int);
                }
                let ghost ks = self.devices@[i as int].1.keys@;
                let r = !self.devices[i].1.keys.is_empty();
                proof {
                    let dv = self.devices@[i as int].1@;
                    assert(entry_of(self@, identity.id) == Some(dv));
                    if ks.len() > 0 {
                        lemma_kv_map_index(ks, 0);
                        assert(dv.keys.contains_key(ks[0].0@));
                        assert(dd_has_key(dv));
                    } else {
                        assert forall|pk: Seq<char>| !(#[trigger] dv.keys.contains_key(pk)) by {
                            lemma_kv_map_contains(ks, pk);
                        }
                        assert(!dd_has_key(dv));
                    }
                }
                r
            },
        }
    }

    /// The bootstrap path: store the identity's first synchronized key
    /// under one of its registered public keys. Fails once any key is
    /// already stored, so only one device can ever originate the key.
    pub fn register_encrypted_symmetric_key(
        &mut self,
        identity: Identity,
        public_key: PublicKey,
        encrypted_symmetric_key: EncryptedSymmetricKey,
    ) -> (r: RegisterKeyResult)
        requires
            old(self).wf(),
            !identity.spec_is_anonymous(),
        ensures
            final(self).wf(),
            r == spec_register_key_result(entry_of(old(self)@, identity.id), public_key@),
            final(self)@ == spec_register_key_map(
                old(self)@,
                identity.id,
                public_key@,
                encrypted_symmetric_key@,
            ),
    {
        let ghost m0 = self@;
        let ghost s0 = self.devices@;
        let ghost pkv = public_key@;
        let ghost ekv = encrypted_symmetric_key@;
        proof {
            lemma_amap_contains(s0, identity.id);
        }
        match find_identity(&self.devices, identity) {
            None => Err(DeviceError::DeviceNotRegistered),
            Some(i) => {
                proof {
                    lemma_amap_index(s0, i as int);
                }
                let ghost d0 = s0[i as int].1@;
                let ghost ks = s0[i as int].1.keys@;
                if !kv_has_value(&self.devices[i].1.aliases, &public_key) {
                    proof {
                        lemma_key_bound(s0[i as int].1.aliases@, pkv);
                    }
                    Err(DeviceError::UnknownPublicKey)
                } else if !self.devices[i].1.keys.is_empty() {
                    proof {
                        lemma_key_bound(s0[i as int].1.aliases@, pkv);
                        lemma_kv_map_index(ks, 0);
                    }
                    Err(DeviceError::AlreadyRegistered)
                } else {
                    proof {
                        lemma_key_bound(s0[i as int].1.aliases@, pkv);
                        assert forall|pk2: Seq<char>| !(#[trigger] d0.keys.contains_key(pk2)) by {
                            lemma_kv_map_contains(ks, pk2);
                        }
                        assert(spec_register_key_result(Some(d0), pkv) == Ok::<(), DeviceError>(
                            (),
                        ));
                        lemma_devices_remove(s0, i as int);
                    }
                    let mut entry = self.devices.remove(i);
                    let ghost k0 = entry.1.keys@;
                    entry.1.keys.push((public_key, encrypted_symmetric_key));
                    proof {
                        let p = entry.1.keys@.last();
                        assert(entry.1.keys@ == k0.push(p));
                        assert(p.0@ == pkv && p.1@ == ekv);
                        lemma_kv_map_push(k0, p);
                        lemma_kv_distinct_push(k0, p);
                        assert(entry.1@.keys == d0.keys.insert(pkv, ekv));
                        assert forall|k: Seq<char>| #[trigger]
                            entry.1@.keys.contains_key(k) implies key_bound(
                            entry.1@.aliases,
                            k,
                        ) by {
                            assert(k == pkv);
                        }
                        assert(entry.1.wf());
                    }
                    self.devices.push(entry);
                    proof {
                        lemma_devices_push(s0.remove(i as int), (identity, entry.1));
                        assert(self@ =~= spec_register_key_map(m0, identity.id, pkv, ekv));
                    }
                    Ok(())
                }
            },
        }
    }

    /// The distribution path: a synced device pushes keys to other
    /// registered devices. Pairs are applied in order, each unconditionally
    /// overwriting the stored key of its public key; the first pair naming
    /// an unbound public key stops the call with an error, with the
    /// earlier pairs left applied — there is no rollback.
    #[verifier::loop_isolation(false)]
    pub fn upload_encrypted_symmetric_keys(
        &mut self,
        identity: Identity,
        keys: Vec<(PublicKey, EncryptedSymmetricKey)>,
    ) -> (r: RegisterKeyResult)
        requires
            old(self).wf(),
            !identity.spec_is_anonymous(),
        ensures
            final(self).wf(),
            r == spec_upload_result(entry_of(old(self)@, identity.id), pairs_view(keys@)),
            final(self)@ == spec_upload_map(old(self)@, identity.id, pairs_view(keys@)),
    {
        let ghost m0 = self@;
        let ghost s0 = self.devices@;
        let ghost pv = pairs_view(keys@);
        proof {
            lemma_amap_contains(s0, identity.id);
        }
        match find_identity(&self.devices, identity) {
            None => Err(DeviceError::DeviceNotRegistered),
            Some(i) => {
                proof {
                    lemma_amap_index(s0, i as int);
                    lemma_devices_remove(s0, i as int);
                }
                let ghost e0 = s0[i as int];
                let ghost d0 = s0[i as int].1@;
                let mut entry = self.devices.remove(i);
                let n = keys.len();
                let mut j: usize = 0;
                while j < n
                    invariant
                        j <= n,
                        self.devices@ == s0.remove(i as int),
                        entry.0 == e0.0,
                        entry.1.aliases == e0.1.aliases,
                        kv_distinct(entry.1.keys@),
                        kv_map(entry.1.keys@) == spec_upload_keys(
                            d0.keys,
                            d0.aliases,
                            pv.take(j as int),
                        ),
                        forall|x: int| 0 <= x < j ==> key_bound(d0.aliases, (#[trigger] pv[x]).0),
                        forall|k: Seq<char>| #[trigger]
                            kv_map(entry.1.keys@).contains_key(k) ==> key_bound(d0.aliases, k),
                    decreases n - j,
                {
                    let pk = keys[j].0.clone();
                    let ek = keys[j].1.clone();
                    proof {
                        assert(pv[j as int] == (keys@[j as int].0@, keys@[j as int].1@));
                        assert(pk@ == pv[j as int].0 && ek@ == pv[j as int].1);
                        lemma_key_bound(entry.1.aliases@, pk@);
                    }
                    if !kv_has_value(&entry.1.aliases, &pk) {
                        proof {
                            assert(!key_bound(d0.aliases, pv[j as int].0));
                            lemma_upload_stuck(d0.keys, d0.aliases, pv, j as int);
                            assert(!spec_upload_ok(d0.aliases, pv));
                        }
                        self.devices.push(entry);
                        proof {
                            lemma_devices_push(s0.remove(i as int), (identity, entry.1));
                            assert(self@ =~= spec_upload_map(m0, identity.id, pv));
                        }
                        return Err(DeviceError::UnknownPublicKey);
                    }
                    let ghost k0 = entry.1.keys@;
                    let ghost pr = (pk, ek);
                    match kv_find(&entry.1.keys, &pk) {
                        Some(l) => {
                            proof {
                                lemma_kv_map_update(k0, l as int, pr);
                            }
                            entry.1.keys.set(l, (pk, ek));
                            proof {
                                assert(entry.1.keys@ == k0.update(l as int, pr));
                            }
                        },
                        None => {
                            entry.1.keys.push((pk, ek));
                            proof {
                                assert(entry.1.keys@ == k0.push(pr));
                                lemma_kv_map_push(k0, pr);
                                lemma_kv_distinct_push(k0, pr);
                            }
                        },
                    }
                    proof {
                        assert(kv_map(entry.1.keys@) == kv_map(k0).insert(
                            pv[j as int].0,
                            pv[j as int].1,
                        ));
                        assert(pv.take(j as int + 1).drop_last() =~= pv.take(j as int));
                        assert(pv.take(j as int + 1).last() == pv[j as int]);
                        assert(spec_upload_ok(d0.aliases, pv.take(j as int))) by {
                            assert forall|x: int|
                                0 <= x < pv.take(j as int).len() implies key_bound(
                                d0.aliases,
                                (#[trigger] pv.take(j as int)[x]).0,
                            ) by {
                                assert(pv.take(j as int)[x] == pv[x]);
                            }
                        }
                        assert(kv_map(entry.1.keys@) == spec_upload_keys(
                            d0.keys,
                            d0.aliases,
                            pv.take(j as int + 1),
                        ));
                        assert forall|k: Seq<char>| #[trigger]
                            kv_map(entry.1.keys@).contains_key(k) implies key_bound(
                            d0.aliases,
                            k,
                        ) by {
                            if k != pv[j as int].0 {
                                assert(kv_map(k0).contains_key(k));
                            }
                        }
                    }
                    j = j + 1;
                }
                proof {
                    assert(pv.take(n as int) =~= pv);
                    assert(spec_upload_ok(d0.aliases, pv));
                    assert(entry.1.wf());
                }
                self.devices.push(entry);
                proof {
                    lemma_devices_push(s0.remove(i as int), (identity, entry.1));
                    assert(self@ =~= spec_upload_map(m0, identity.id, pv));
                }
                Ok(())
            },
        }
    }
}

/// How the upload's key store reads when application stopped at the first
/// unbound public key: the pairs after it change nothing.
proof fn lemma_upload_stuck(
    keys: Map<Seq<char>, Seq<char>>,
    aliases: Map<Seq<char>, Seq<char>>,
    pairs: Seq<(Seq<char>, Seq<char>)>,
    x: int,
)
    requires
        0 <= x < pairs.len(),
        !key_bound(aliases, pairs[x].0),
    ensures
        spec_upload_keys(keys, aliases, pairs) == spec_upload_keys(keys, aliases, pairs.take(x)),
    decreases pairs.len(),
{
    if pairs.len() == x + 1 {
        assert(pairs.last() == pairs[x]);
        assert(pairs.drop_last() =~= pairs.take(x));
    } else {
        assert(pairs.drop_last()[x] == pairs[x]);
        assert(!spec_upload_ok(aliases, pairs.drop_last()));
        lemma_upload_stuck(keys, aliases, pairs.drop_last(), x);
        assert(pairs.drop_last().take(x) =~= pairs.take(x));
    }
}

// ---------------------------------------------------------------------------
// The registry's laws
// ---------------------------------------------------------------------------

/// Registering a device alias is idempotent: the first registration binds
/// the alias to its public key, and a repeated registration of the same
/// alias — with the same or any other public key — leaves the registry
/// exactly as the first call left it.
pub proof fn lemma_register_device_idempotent(
    m: Map<u128, DeviceDataView>,
    id: u128,
    alias: Seq<char>,
    pk1: Seq<char>,
    pk2: Seq<char>,
)
    ensures
        spec_register_map(spec_register_map(m, id, alias, pk1), id, alias, pk2)
            == spec_register_map(m, id, alias, pk1),
        spec_register_map(m, id, alias, pk1)[id].aliases[alias] == (if m.contains_key(id)
            && m[id].aliases.contains_key(alias) {
            m[id].aliases[alias]
        } else {
            pk1
        }),
{
    let m1 = spec_register_map(m, id, alias, pk1);
    assert(m1.contains_key(id));
    assert(m1[id].aliases.contains_key(alias));
    assert(spec_register_map(m1, id, alias, pk2) =~= m1);
}

/// Deleting an alias removes exactly that alias binding and exactly the
/// key stored under its public key; every other alias and every other
/// stored key stays. (Deleting an identity's last alias is ruled out by
/// `delete_device`'s precondition.)
pub proof fn lemma_delete_device_removes(d: DeviceDataView, alias: Seq<char>)
    requires
        d.aliases.contains_key(alias),
    ensures
        !spec_delete_device(d, alias).aliases.contains_key(alias),
        !spec_delete_device(d, alias).keys.contains_key(d.aliases[alias]),
        forall|a: Seq<char>|
            a != alias ==> (#[trigger] spec_delete_device(d, alias).aliases.contains_key(a))
                == d.aliases.contains_key(a),
        forall|a: Seq<char>|
            a != alias && d.aliases.contains_key(a)
                ==> (#[trigger] spec_delete_device(d, alias).aliases[a]) == d.aliases[a],
        forall|k: Seq<char>|
            k != d.aliases[alias] ==> (#[trigger] spec_delete_device(d, alias).keys.contains_key(
                k,
            )) == d.keys.contains_key(k),
{
}

/// The bootstrap path succeeds at most once in an identity's lifetime:
/// after one successful key registration, every further attempt for that
/// identity fails — with `AlreadyRegistered` whenever the offered public
/// key is one the identity has registered — and changes nothing, until
/// device deletion removes the stored key.
pub proof fn lemma_register_key_once(
    m: Map<u128, DeviceDataView>,
    id: u128,
    pk1: Seq<char>,
    ek1: Seq<char>,
    pk2: Seq<char>,
    ek2: Seq<char>,
)
    requires
        spec_register_key_result(entry_of(m, id), pk1) == Ok::<(), DeviceError>(()),
    ensures
        has_synced_key(entry_of(spec_register_key_map(m, id, pk1, ek1), id)),
        spec_register_key_result(entry_of(spec_register_key_map(m, id, pk1, ek1), id), pk2)
            != Ok::<(), DeviceError>(()),
        key_bound(spec_register_key_map(m, id, pk1, ek1)[id].aliases, pk2)
            ==> spec_register_key_result(entry_of(spec_register_key_map(m, id, pk1, ek1), id), pk2)
            == Err::<(), DeviceError>(DeviceError::AlreadyRegistered),
        spec_register_key_map(spec_register_key_map(m, id, pk1, ek1), id, pk2, ek2)
            == spec_register_key_map(m, id, pk1, ek1),
{
    let m1 = spec_register_key_map(m, id, pk1, ek1);
    assert(m.contains_key(id));
    assert(m1[id].keys.contains_key(pk1));
    assert(has_synced_key(Some(m1[id])));
}

/// A bulk upload is applied in order with no rollback: when the first
/// pair's public key is registered and the second pair's is not, the call
/// fails, yet the first pair's key is stored and a lookup then returns it.
pub proof fn lemma_upload_partial(
    d: DeviceDataView,
    pka: Seq<char>,
    cta: Seq<char>,
    pkb: Seq<char>,
    ctb: Seq<char>,
)
    requires
        key_bound(d.aliases, pka),
        !key_bound(d.aliases, pkb),
    ensures
        spec_upload_result(Some(d), seq![(pka, cta), (pkb, ctb)]) == Err::<(), DeviceError>(
            DeviceError::UnknownPublicKey,
        ),
        spec_upload_keys(d.keys, d.aliases, seq![(pka, cta), (pkb, ctb)]) == d.keys.insert(
            pka,
            cta,
        ),
        spec_get_key(
            Some(
                (DeviceDataView {
                    aliases: d.aliases,
                    keys: spec_upload_keys(d.keys, d.aliases, seq![(pka, cta), (pkb, ctb)]),
                }),
            ),
            pka,
        ) == Ok::<Seq<char>, DeviceError>(cta),
{
    let pairs = seq![(pka, cta), (pkb, ctb)];
    let first = seq![(pka, cta)];
    assert(pairs[1] == (pkb, ctb));
    assert(pairs.last() == (pkb, ctb));
    assert(pairs.drop_last() =~= first);
    assert(first.last() == (pka, cta));
    assert(first.drop_last() =~= Seq::<(Seq<char>, Seq<char>)>::empty());
    assert(spec_upload_ok(d.aliases, first.drop_last()));
    assert(spec_upload_ok(d.aliases, first)) by {
        assert forall|x: int|
            0 <= x < first.len() implies key_bound(d.aliases, (#[trigger] first[x]).0) by {
            assert(first[x] == (pka, cta));
        }
    }
    let e: Seq<(Seq<char>, Seq<char>)> = Seq::empty();
    assert(first.drop_last() =~= e);
    assert(spec_upload_keys(d.keys, d.aliases, e) == d.keys);
    assert(key_bound(d.aliases, first.last().0));
    assert(spec_upload_keys(d.keys, d.aliases, first) == spec_upload_keys(
        d.keys,
        d.aliases,
        first.drop_last(),
    ).insert(pka, cta));
    assert(spec_upload_keys(d.keys, d.aliases, first) == d.keys.insert(pka, cta));
    assert(!key_bound(d.aliases, pairs.last().0));
    assert(spec_upload_keys(d.keys, d.aliases, pairs) == spec_upload_keys(
        d.keys,
        d.aliases,
        pairs.drop_last(),
    ));
    assert(spec_upload_keys(d.keys, d.aliases, pairs) == d.keys.insert(pka, cta));
    assert(!spec_upload_ok(d.aliases, pairs)) by {
        assert(pairs[1].0 == pkb);
    }
}

} // verus!
