//! The encrypted note store: a plain per-identity list of opaque
//! ciphertexts with a process-wide, monotonically increasing id counter.
//! Identity scoping and authorization are the registry's concern; this
//! store only keeps each identity's notes apart.

use vstd::prelude::*;

use crate::assoc::{amap, id_distinct, lemma_amap_contains, lemma_amap_index, lemma_amap_push,
    lemma_amap_remove, lemma_id_distinct_push};
use crate::identity::Identity;
use vstd::pervasive::cloned;
use vstd::pervasive::VecAdditionalExecFns;

verus! {

/// One encrypted note: an identifier and an opaque ciphertext.
pub struct EncryptedNote {
    pub id: u128,
    pub data: String,
}

impl Clone for EncryptedNote {
    fn clone(&self) -> (res: Self)
        ensures
            res == *self,
    {
        EncryptedNote { id: self.id, data: self.data.clone() }
    }
}

/// Every note id in the list lies below the counter.
pub open spec fn notes_bounded(l: Seq<EncryptedNote>, c: u128) -> bool {
    forall|j: int| 0 <= j < l.len() ==> (#[trigger] l[j]).id < c
}

/// No two notes in the list share an id.
pub open spec fn notes_distinct(l: Seq<EncryptedNote>) -> bool {
    forall|j1: int, j2: int|
        0 <= j1 < j2 < l.len() ==> (#[trigger] l[j1]).id != (#[trigger] l[j2]).id
}

/// The note store: each identity's notes, and the counter that hands out
/// ids.
pub struct Notes {
    pub notes: Vec<(Identity, Vec<EncryptedNote>)>,
    pub counter: u128,
}

impl View for Notes {
    type V = Map<u128, Seq<EncryptedNote>>;

    open spec fn view(&self) -> Map<u128, Seq<EncryptedNote>> {
        amap(self.notes@)
    }
}

impl Notes {
    /// Well-formedness: one list per identity, every id below the
    /// counter, and no id repeated within a list.
    pub open spec fn wf(&self) -> bool {
        &&& id_distinct(self.notes@)
        &&& forall|i: int|
            0 <= i < self.notes@.len() ==> notes_bounded(
                (#[trigger] self.notes@[i]).1@,
                self.counter,
            )
        &&& forall|i: int|
            0 <= i < self.notes@.len() ==> notes_distinct((#[trigger] self.notes@[i]).1@)
    }
}

impl Default for Notes {
    /// The store starts empty, with the id counter at zero.
    fn default() -> (n: Notes)
        ensures
            n.wf(),
            n@ == Map::<u128, Seq<EncryptedNote>>::empty(),
            n.counter == 0,
    {
        Notes { notes: Vec::new(), counter: 0 }
    }
}

// ---------------------------------------------------------------------------
// Specification of the operations
// ---------------------------------------------------------------------------

/// An identity's notes; empty for an unknown identity.
pub open spec fn spec_notes_of(m: Map<u128, Seq<EncryptedNote>>, id: u128) -> Seq<EncryptedNote> {
    if m.contains_key(id) {
        m[id]
    } else {
        Seq::empty()
    }
}

/// The list without every note of the given id, order kept.
pub open spec fn spec_without_id(l: Seq<EncryptedNote>, id: u128) -> Seq<EncryptedNote>
    decreases l.len(),
{
    if l.len() == 0 {
        l
    } else if l.last().id != id {
        spec_without_id(l.drop_last(), id).push(l.last())
    } else {
        spec_without_id(l.drop_last(), id)
    }
}

pub open spec fn spec_delete_note_map(
    m: Map<u128, Seq<EncryptedNote>>,
    cid: u128,
    id: u128,
) -> Map<u128, Seq<EncryptedNote>> {
    if m.contains_key(cid) {
        m.insert(cid, spec_without_id(m[cid], id))
    } else {
        m
    }
}

/// Some note in the list carries this id.
pub open spec fn has_note_id(l: Seq<EncryptedNote>, id: u128) -> bool {
    exists|j: int| 0 <= j < l.len() && (#[trigger] l[j]).id == id
}

/// The position of the note with this id.
pub open spec fn note_index(l: Seq<EncryptedNote>, id: u128) -> int {
    choose|j: int| 0 <= j < l.len() && (#[trigger] l[j]).id == id
}

/// Updating a note replaces the note carrying its id, if the identity is
/// known and such a note exists; otherwise nothing changes.
pub open spec fn spec_update_note_map(
    m: Map<u128, Seq<EncryptedNote>>,
    cid: u128,
    n: EncryptedNote,
) -> Map<u128, Seq<EncryptedNote>> {
    if m.contains_key(cid) && has_note_id(m[cid], n.id) {
        m.insert(cid, m[cid].update(note_index(m[cid], n.id), n))
    } else {
        m
    }
}

// ---------------------------------------------------------------------------
// Proof helpers
// ---------------------------------------------------------------------------

proof fn lemma_bounded_weaken(l: Seq<EncryptedNote>, c1: u128, c2: u128)
    requires
        notes_bounded(l, c1),
        c1 <= c2,
    ensures
        notes_bounded(l, c2),
{
}

/// Filtering by id keeps the list well formed, and every kept note is one
/// of the notes it was filtered from.
proof fn lemma_without_id_props(l: Seq<EncryptedNote>, id: u128, c: u128)
    requires
        notes_bounded(l, c),
        notes_distinct(l),
    ensures
        notes_bounded(spec_without_id(l, id), c),
        notes_distinct(spec_without_id(l, id)),
        forall|j: int|
            0 <= j < spec_without_id(l, id).len() ==> exists|x: int|
                0 <= x < l.len() && (#[trigger] spec_without_id(l, id)[j]) == l[x],
    decreases l.len(),
{
    let f = spec_without_id(l, id);
    if l.len() > 0 {
        let dl = l.drop_last();
        let fd = spec_without_id(dl, id);
        assert forall|j: int| 0 <= j < dl.len() implies (#[trigger] dl[j]).id < c by {
            assert(dl[j] == l[j]);
        }
        assert forall|j1: int, j2: int| 0 <= j1 < j2 < dl.len() implies (#[trigger] dl[j1]).id
            != (#[trigger] dl[j2]).id by {
            assert(dl[j1] == l[j1]);
            assert(dl[j2] == l[j2]);
        }
        lemma_without_id_props(dl, id, c);
        assert forall|j: int|
            0 <= j < fd.len() implies exists|x: int|
            0 <= x < l.len() && (#[trigger] fd[j]) == l[x] by {
            let x = choose|x: int| 0 <= x < dl.len() && (#[trigger] fd[j]) == dl[x];
            assert(fd[j] == l[x]);
        }
        if l.last().id != id {
            assert(f == fd.push(l.last()));
            assert forall|j1: int, j2: int| 0 <= j1 < j2 < f.len() implies (#[trigger] f[j1]).id
                != (#[trigger] f[j2]).id by {
                if j2 < fd.len() {
                    assert(f[j1] == fd[j1] && f[j2] == fd[j2]);
                } else {
                    assert(f[j2] == l.last());
                    assert(f[j1] == fd[j1]);
                    let x = choose|x: int| 0 <= x < dl.len() && (#[trigger] fd[j1]) == dl[x];
                    assert(fd[j1] == l[x]);
                    assert(l[x].id != l[l.len() - 1].id);
                }
            }
            assert forall|j: int|
                0 <= j < f.len() implies exists|x: int|
                0 <= x < l.len() && (#[trigger] f[j]) == l[x] by {
                if j < fd.len() {
                    let x = choose|x: int| 0 <= x < l.len() && (#[trigger] fd[j]) == l[x];
                    assert(f[j] == l[x]);
                } else {
                    assert(f[j] == l[l.len() - 1]);
                }
            }
            assert forall|j: int| 0 <= j < f.len() implies (#[trigger] f[j]).id < c by {
                let x = choose|x: int| 0 <= x < l.len() && (#[trigger] f[j]) == l[x];
            }
        } else {
            assert(f == fd);
        }
    }
}

/// Detaching one store entry: the rest keeps its shape, and the map loses
/// exactly that identity.
proof fn lemma_notes_remove(s: Seq<(Identity, Vec<EncryptedNote>)>, i: int, c: u128)
    requires
        id_distinct(s),
        0 <= i < s.len(),
        forall|j: int| 0 <= j < s.len() ==> notes_bounded((#[trigger] s[j]).1@, c),
        forall|j: int| 0 <= j < s.len() ==> notes_distinct((#[trigger] s[j]).1@),
    ensures
        id_distinct(s.remove(i)),
        forall|j: int|
            0 <= j < s.remove(i).len() ==> notes_bounded((#[trigger] s.remove(i)[j]).1@, c),
        forall|j: int|
            0 <= j < s.remove(i).len() ==> notes_distinct((#[trigger] s.remove(i)[j]).1@),
        forall|j: int|
            0 <= j < s.remove(i).len() ==> (#[trigger] s.remove(i)[j]).0.id != s[i].0.id,
        amap(s.remove(i)) == amap(s).remove(s[i].0.id),
{
    lemma_amap_remove(s, i);
    s.remove_ensures(i);
    assert forall|j: int|
        0 <= j < s.remove(i).len() implies notes_bounded((#[trigger] s.remove(i)[j]).1@, c)
        && notes_distinct((s.remove(i)[j]).1@) && (s.remove(i)[j]).0.id != s[i].0.id by {
        let j2: int = if j < i {
            j
        } else {
            j + 1
        };
        assert(s.remove(i)[j] == s[j2]);
    }
}

/// Reattaching an entry under a fresh identity: the map gains exactly it.
proof fn lemma_notes_push(s: Seq<(Identity, Vec<EncryptedNote>)>, p: (Identity, Vec<EncryptedNote>), c: u128)
    requires
        id_distinct(s),
        forall|j: int| 0 <= j < s.len() ==> notes_bounded((#[trigger] s[j]).1@, c),
        forall|j: int| 0 <= j < s.len() ==> notes_distinct((#[trigger] s[j]).1@),
        forall|j: int| 0 <= j < s.len() ==> (#[trigger] s[j]).0.id != p.0.id,
        notes_bounded(p.1@, c),
        notes_distinct(p.1@),
    ensures
        id_distinct(s.push(p)),
        forall|j: int| 0 <= j < s.push(p).len() ==> notes_bounded((#[trigger] s.push(p)[j]).1@, c),
        forall|j: int| 0 <= j < s.push(p).len() ==> notes_distinct((#[trigger] s.push(p)[j]).1@),
        amap(s.push(p)) == amap(s).insert(p.0.id, p.1@),
{
    lemma_id_distinct_push(s, p);
    lemma_amap_push(s, p);
    assert forall|j: int|
        0 <= j < s.push(p).len() implies notes_bounded((#[trigger] s.push(p)[j]).1@, c)
        && notes_distinct((s.push(p)[j]).1@) by {
        if j < s.len() {
            assert(s.push(p)[j] == s[j]);
        } else {
            assert(s.push(p)[j] == p);
        }
    }
}

// ---------------------------------------------------------------------------
// Executable search helper
// ---------------------------------------------------------------------------

/// The position of an identity's entry, if the identity is known.
fn find_entry(notes: &Vec<(Identity, Vec<EncryptedNote>)>, identity: Identity) -> (r: Option<
    usize,
>)
    ensures
        match r {
            Some(i) => i < notes@.len() && notes@[i as int].0 == identity,
            None => forall|j: int|
                0 <= j < notes@.len() ==> (#[trigger] notes@[j]).0.id != identity.id,
        },
{
    let mut i: usize = 0;
    while i < notes.len()
        invariant
            i <= notes@.len(),
            forall|j: int| 0 <= j < i ==> (#[trigger] notes@[j]).0.id != identity.id,
        decreases notes@.len() - i,
    {
        if notes[i].0 == identity {
            return Some(i);
        }
        i = i + 1;
    }
    None
}

// ---------------------------------------------------------------------------
// The store's operations
// ---------------------------------------------------------------------------

impl Notes {
    /// The identity's notes, in order; empty for an unknown identity.
    pub fn get_notes(&self, caller: Identity) -> (r: Vec<EncryptedNote>)
        requires
            self.wf(),
            !caller.spec_is_anonymous(),
        ensures
            r@ == spec_notes_of(self@, caller.id),
    {
        proof {
            lemma_amap_contains(self.notes@, caller.id);
        }
        match find_entry(&self.notes, caller) {
            None => Vec::new(),
            Some(i) => {
                proof {
                    lemma_amap_index(self.notes@, i as int);
                }
                let r = self.notes[i].1.clone();
                proof {
                    assert forall|l: int|
                        0 <= l < r@.len() implies r@[l] == self.notes@[i as int].1@[l] by {
                        assert(cloned::<EncryptedNote>(self.notes@[i as int].1@[l], r@[l]));
                    }
                    assert(r@ =~= self.notes@[i as int].1@);
                }
                r
            },
        }
    }

    /// Append a note with the next id, creating the identity's list on
    /// first use, and advance the counter.
    pub fn add_note(&mut self, caller: Identity, data: String)
        requires
            old(self).wf(),
            !caller.spec_is_anonymous(),
            old(self).counter < u128::MAX,
        ensures
            final(self).wf(),
            final(self).counter == old(self).counter + 1,
            final(self)@ == old(self)@.insert(
                caller.id,
                spec_notes_of(old(self)@, caller.id).push(
                    (EncryptedNote { id: old(self).counter, data }),
                ),
            ),
    {
        let ghost m0 = self@;
        let ghost s0 = self.notes@;
        let ghost c0 = self.counter;
        proof {
            lemma_amap_contains(s0, caller.id);
        }
        match find_entry(&self.notes, caller) {
            Some(i) => {
                proof {
                    lemma_amap_index(s0, i as int);
                    lemma_notes_remove(s0, i as int, c0);
                }
                let mut entry = self.notes.remove(i);
                let ghost l0 = entry.1@;
                let note = EncryptedNote { id: self.counter, data };
                entry.1.push(note);
                self.counter = self.counter + 1;
                proof {
                    let nv = entry.1@.last();
                    assert(entry.1@ == l0.push(nv));
                    assert(nv.id == c0);
                    assert forall|j: int|
                        0 <= j < entry.1@.len() implies (#[trigger] entry.1@[j]).id
                        < self.counter by {
                        if j < l0.len() {
                            assert(entry.1@[j] == l0[j]);
                        }
                    }
                    assert forall|j1: int, j2: int|
                        0 <= j1 < j2 < entry.1@.len() implies (#[trigger] entry.1@[j1]).id
                        != (#[trigger] entry.1@[j2]).id by {
                        if j2 < l0.len() {
                            assert(entry.1@[j1] == l0[j1] && entry.1@[j2] == l0[j2]);
                        } else {
                            assert(entry.1@[j2] == nv);
                            assert(entry.1@[j1] == l0[j1]);
                        }
                    }
                    assert forall|j: int|
                        0 <= j < s0.remove(i as int).len() implies notes_bounded(
                        (#[trigger] s0.remove(i as int)[j]).1@,
                        self.counter,
                    ) by {
                        lemma_bounded_weaken(s0.remove(i as int)[j].1@, c0, self.counter);
                    }
                    lemma_notes_push(s0.remove(i as int), (caller, entry.1), self.counter);
                }
                self.notes.push(entry);
                proof {
                    assert(self@ =~= m0.insert(caller.id, spec_notes_of(m0, caller.id).push(
                        entry.1@.last(),
                    )));
                }
            },
            None => {
                let mut list: Vec<EncryptedNote> = Vec::new();
                let note = EncryptedNote { id: self.counter, data };
                list.push(note);
                self.counter = self.counter + 1;
                proof {
                    let nv = list@.last();
                    assert(list@ =~= Seq::empty().push(nv));
                    assert(nv.id == c0);
                    assert forall|j: int|
                        0 <= j < s0.len() implies notes_bounded(
                        (#[trigger] s0[j]).1@,
                        self.counter,
                    ) by {
                        lemma_bounded_weaken(s0[j].1@, c0, self.counter);
                    }
                    lemma_notes_push(s0, (caller, list), self.counter);
                }
                self.notes.push((caller, list));
                proof {
                    assert(!m0.contains_key(caller.id));
                    assert(spec_notes_of(m0, caller.id) =~= Seq::<EncryptedNote>::empty());
                    assert(self@ =~= m0.insert(caller.id, spec_notes_of(m0, caller.id).push(
                        self.notes@.last().1@.last(),
                    )));
                }
            },
        }
    }

    /// Remove the identity's note with this id, if any; unknown
    /// identities and absent ids are silent no-ops.
    #[verifier::loop_isolation(false)]
    pub fn delete_note(&mut self, caller: Identity, id: u128)
        requires
            old(self).wf(),
            !caller.spec_is_anonymous(),
        ensures
            final(self).wf(),
            final(self).counter == old(self).counter,
            final(self)@ == spec_delete_note_map(old(self)@, caller.id, id),
    {
        let ghost m0 = self@;
        let ghost s0 = self.notes@;
        proof {
            lemma_amap_contains(s0, caller.id);
        }
        match find_entry(&self.notes, caller) {
            None => {
                proof {
                    assert(!m0.contains_key(caller.id));
                }
            },
            Some(i) => {
                proof {
                    lemma_amap_index(s0, i as int);
                    lemma_notes_remove(s0, i as int, self.counter);
                }
                let entry = self.notes.remove(i);
                let ghost l0 = entry.1@;
                let mut kept: Vec<EncryptedNote> = Vec::new();
                let mut j: usize = 0;
                while j < entry.1.len()
                    invariant
                        j <= entry.1@.len(),
                        kept@ == spec_without_id(entry.1@.take(j as int), id),
                    decreases entry.1@.len() - j,
                {
                    proof {
                        assert(entry.1@.take(j as int + 1).drop_last() =~= entry.1@.take(
                            j as int,
                        ));
                        assert(entry.1@.take(j as int + 1).last() == entry.1@[j as int]);
                    }
                    if entry.1[j].id != id {
                        kept.push(entry.1[j].clone());
                        proof {
                            assert(cloned::<EncryptedNote>(entry.1@[j as int], kept@.last()));
                            assert(kept@.last() == entry.1@[j as int]);
                            assert(kept@ =~= spec_without_id(entry.1@.take(j as int + 1), id));
                        }
                    } else {
                        proof {
                            assert(kept@ =~= spec_without_id(entry.1@.take(j as int + 1), id));
                        }
                    }
                    j = j + 1;
                }
                proof {
                    assert(entry.1@.take(entry.1@.len() as int) =~= entry.1@);
                    assert(kept@ == spec_without_id(l0, id));
                    lemma_without_id_props(l0, id, self.counter);
                    lemma_notes_push(s0.remove(i as int), (caller, kept), self.counter);
                }
                self.notes.push((caller, kept));
                proof {
                    assert(self@ =~= spec_delete_note_map(m0, caller.id, id));
                }
            },
        }
    }

    /// Replace the identity's note that carries the given note's id; a
    /// missing identity or id is a silent no-op.
    #[verifier::loop_isolation(false)]
    pub fn update_note(&mut self, caller: Identity, new_note: EncryptedNote)
        requires
            old(self).wf(),
            !caller.spec_is_anonymous(),
        ensures
            final(self).wf(),
            final(self).counter == old(self).counter,
            final(self)@ == spec_update_note_map(old(self)@, caller.id, new_note),
    {
        let ghost m0 = self@;
        let ghost s0 = self.notes@;
        proof {
            lemma_amap_contains(s0, caller.id);
        }
        match find_entry(&self.notes, caller) {
            None => {
                proof {
                    assert(!m0.contains_key(caller.id));
                }
            },
            Some(i) => {
                proof {
                    lemma_amap_index(s0, i as int);
                    lemma_notes_remove(s0, i as int, self.counter);
                }
                let ghost c0 = self.counter;
                let mut entry = self.notes.remove(i);
                let ghost l0 = entry.1@;
                let ghost nv = new_note;
                let mut j: usize = 0;
                let n = entry.1.len();
                while j < n
                    invariant
                        j <= n,
                        forall|x: int| 0 <= x < j ==> (#[trigger] l0[x]).id != nv.id,
                        entry.0 == caller,
                        entry.1@ == l0,
                        self.counter == c0,
                        self.notes@ == s0.remove(i as int),
                    decreases n - j,
                {
                    if entry.1[j].id == new_note.id {
                        proof {
                            assert(l0[j as int].id == nv.id);
                            assert(has_note_id(l0, nv.id));
                            let x = note_index(l0, nv.id);
                            assert(0 <= x < l0.len() && l0[x].id == nv.id);
                            assert(x == j as int);
                        }
                        entry.1.set(j, new_note);
                        proof {
                            assert(entry.1@ == l0.update(j as int, nv));
                            assert forall|x: int|
                                0 <= x < entry.1@.len() implies (#[trigger] entry.1@[x]).id
                                < self.counter by {
                                if x != j {
                                    assert(entry.1@[x] == l0[x]);
                                } else {
                                    assert(entry.1@[x] == nv);
                                    assert(nv.id == l0[j as int].id);
                                }
                            }
                            assert forall|x1: int, x2: int|
                                0 <= x1 < x2 < entry.1@.len() implies (#[trigger] entry.1@[x1]).id
                                != (#[trigger] entry.1@[x2]).id by {
                                assert(entry.1@[x1].id == l0[x1].id);
                                assert(entry.1@[x2].id == l0[x2].id);
                            }
                            lemma_notes_push(s0.remove(i as int), (caller, entry.1), self.counter);
                        }
                        self.notes.push(entry);
                        proof {
                            assert(self@ =~= spec_update_note_map(m0, caller.id, nv));
                        }
                        return ;
                    }
                    j = j + 1;
                }
                proof {
                    assert(!has_note_id(l0, nv.id));
                    lemma_notes_push(s0.remove(i as int), (caller, entry.1), self.counter);
                }
                self.notes.push(entry);
                proof {
                    assert(self@ =~= spec_update_note_map(m0, caller.id, nv));
                }
            },
        }
    }
}

} // verus!
