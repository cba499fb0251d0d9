//! The directory of all units, kept in a slot map so that the handle of a
//! unit stays valid while other units come and go.

use vstd::prelude::*;
use slotmap::{DefaultKey, SlotMap};
use crate::game::Actor;

verus! {

#[verifier::external_type_specification]
#[verifier::external_body]
pub struct ExDefaultKey(DefaultKey);

/// The handle of a unit in the directory.
pub type ActorKey = DefaultKey;

/// All units of the game. The slot map inside is not seen by the verifier:
/// what it holds goes by the name `listing`.
#[verifier::external_body]
pub struct ActorDirectory {
    map: SlotMap<DefaultKey, Actor>,
}

/// The units of a directory with their handles, in the order in which the
/// directory is walked.
pub uninterp spec fn listing(d: ActorDirectory) -> Seq<(DefaultKey, Actor)>;

/// No handle occurs twice in `l`.
pub open spec fn distinct_keys(l: Seq<(DefaultKey, Actor)>) -> bool {
    forall|i: int, j: int| 0 <= i < j < l.len() ==> l[i].0 != l[j].0
}

/// Some unit of `l` has the handle `key`.
pub open spec fn has_key(l: Seq<(DefaultKey, Actor)>, key: DefaultKey) -> bool {
    exists|i: int| 0 <= i < l.len() && (#[trigger] l[i]).0 == key
}

/// The place in `l` of the unit with the handle `key`.
pub open spec fn place_of(l: Seq<(DefaultKey, Actor)>, key: DefaultKey) -> int {
    choose|i: int| 0 <= i < l.len() && (#[trigger] l[i]).0 == key
}

/// The unit of `l` with the handle `key`.
pub open spec fn actor_of(l: Seq<(DefaultKey, Actor)>, key: DefaultKey) -> Actor {
    l[place_of(l, key)].1
}

/// `SlotMap::new`: a directory without units.
#[verifier::external_body]
fn empty_directory() -> (d: ActorDirectory)
    ensures
        listing(d).len() == 0,
{
    ActorDirectory { map: SlotMap::new() }
}

/// `SlotMap::iter`, collected: every unit with its handle, in the order of the
/// walk, which goes by slots. No handle occurs twice.
#[verifier::external_body]
fn all_actors(d: &ActorDirectory) -> (r: Vec<(DefaultKey, Actor)>)
    ensures
        r@ == listing(*d),
        distinct_keys(r@),
{
    d.map.iter().map(|(k, a)| (k, *a)).collect()
}

/// `SlotMap::get`: the unit with the handle `key`, if the directory holds one.
#[verifier::external_body]
fn find_actor(d: &ActorDirectory, key: DefaultKey) -> (r: Option<Actor>)
    ensures
        r is Some <==> has_key(listing(*d), key),
        r is Some ==> r->0 == actor_of(listing(*d), key),
{
    d.map.get(key).copied()
}

/// `SlotMap::insert`: the unit enters the directory under a handle that no
/// unit of the directory has. It takes a free slot, so the other units keep
/// their order in the walk, and the new one stands somewhere among them.
/// The slot map panics once it is full, so the directory must hold fewer than
/// `u32::MAX - 1` units.
#[verifier::external_body]
fn add_actor(d: &mut ActorDirectory, actor: Actor) -> (key: DefaultKey)
    requires
        listing(*old(d)).len() < u32::MAX - 1,
    ensures
        !has_key(listing(*old(d)), key),
        exists|at: int|
            0 <= at <= listing(*old(d)).len() && listing(*final(d)) == #[trigger] listing(
                *old(d),
            ).insert(at, (key, actor)),
        distinct_keys(listing(*final(d))),
{
    d.map.insert(actor)
}

/// `SlotMap::remove`: the unit with the handle `key` leaves the directory and
/// is returned; the others keep their order. Without such a unit nothing
/// changes.
#[verifier::external_body]
fn drop_actor(d: &mut ActorDirectory, key: DefaultKey) -> (r: Option<Actor>)
    ensures
        r is Some <==> has_key(listing(*old(d)), key),
        r is Some ==> r->0 == actor_of(listing(*old(d)), key) && listing(*final(d)) == listing(
            *old(d),
        ).remove(place_of(listing(*old(d)), key)),
        r is None ==> listing(*final(d)) == listing(*old(d)),
        distinct_keys(listing(*final(d))),
{
    d.map.remove(key)
}

/// `SlotMap::index_mut`, assigned to: the unit with the handle `key` is
/// replaced by `actor`, in its place. The slot map panics on a handle that it
/// does not hold.
#[verifier::external_body]
fn put_actor(d: &mut ActorDirectory, key: DefaultKey, actor: Actor)
    requires
        has_key(listing(*old(d)), key),
    ensures
        listing(*final(d)) == listing(*old(d)).update(
            place_of(listing(*old(d)), key),
            (key, actor),
        ),
        distinct_keys(listing(*final(d))),
{
    d.map[key] = actor;
}

/// `PartialEq::eq` of `DefaultKey`, which compares the slot and its version:
/// two handles are equal exactly when they are the same handle.
#[verifier::external_body]
fn same_key(a: DefaultKey, b: DefaultKey) -> (r: bool)
    ensures
        r == (a == b),
{
    a == b
}

/// `SlotMap::len`: how many units the directory holds.
#[verifier::external_body]
fn count_actors(d: &ActorDirectory) -> (n: usize)
    ensures
        n == listing(*d).len(),
{
    d.map.len()
}

/// In a listing without a repeated handle, a handle is found in one place only.
pub proof fn lemma_place_of(l: Seq<(DefaultKey, Actor)>, i: int)
    requires
        distinct_keys(l),
        0 <= i < l.len(),
    ensures
        has_key(l, l[i].0),
        place_of(l, l[i].0) == i,
        actor_of(l, l[i].0) == l[i].1,
{
    let j = place_of(l, l[i].0);
    assert(0 <= j < l.len() && l[j].0 == l[i].0);
    if j < i {
        assert(l[j].0 != l[i].0);
    } else if i < j {
        assert(l[i].0 != l[j].0);
    }
}

/// Both listings hold the same handles.
pub open spec fn same_keys(a: Seq<(DefaultKey, Actor)>, b: Seq<(DefaultKey, Actor)>) -> bool {
    forall|key: DefaultKey| has_key(a, key) == has_key(b, key)
}

/// Replacing a unit under its own handle keeps the handles of the listing.
pub proof fn lemma_update_same_keys(l: Seq<(DefaultKey, Actor)>, at: int, actor: Actor)
    requires
        0 <= at < l.len(),
    ensures
        same_keys(l, l.update(at, (l[at].0, actor))),
{
    let after = l.update(at, (l[at].0, actor));
    assert forall|key: DefaultKey| has_key(l, key) == has_key(after, key) by {
        if has_key(l, key) {
            let i = choose|i: int| 0 <= i < l.len() && (#[trigger] l[i]).0 == key;
            assert(after[i].0 == key);
        }
        if has_key(after, key) {
            let i = choose|i: int| 0 <= i < after.len() && (#[trigger] after[i]).0 == key;
            assert(l[i].0 == key);
        }
    }
}

/// Replacing a unit in its place keeps every handle, and every other unit as
/// it was.
pub proof fn lemma_update_keeps(l: Seq<(DefaultKey, Actor)>, at: int, actor: Actor, key: DefaultKey)
    requires
        distinct_keys(l),
        0 <= at < l.len(),
    ensures
        distinct_keys(l.update(at, (l[at].0, actor))),
        has_key(l.update(at, (l[at].0, actor)), key) <==> has_key(l, key),
        has_key(l, key) ==> place_of(l.update(at, (l[at].0, actor)), key) == place_of(l, key),
        has_key(l, key) && key != l[at].0 ==> actor_of(l.update(at, (l[at].0, actor)), key)
            == actor_of(l, key),
        actor_of(l.update(at, (l[at].0, actor)), l[at].0) == actor,
{
    let after = l.update(at, (l[at].0, actor));
    assert forall|i: int| 0 <= i < l.len() implies (#[trigger] after[i]).0 == l[i].0 by {}
    if has_key(l, key) {
        let i = place_of(l, key);
        assert(after[i].0 == key);
        lemma_place_of(after, i);
        lemma_place_of(l, i);
    }
    if has_key(after, key) {
        let i = place_of(after, key);
        assert(l[i].0 == key);
    }
    assert(after[at].0 == l[at].0);
    lemma_place_of(after, at);
}

/// Taking a unit out keeps every other handle, and every other unit as it was.
pub proof fn lemma_remove_keeps(l: Seq<(DefaultKey, Actor)>, at: int, key: DefaultKey)
    requires
        distinct_keys(l),
        0 <= at < l.len(),
        key != l[at].0,
    ensures
        distinct_keys(l.remove(at)),
        has_key(l.remove(at), key) <==> has_key(l, key),
        has_key(l, key) ==> actor_of(l.remove(at), key) == actor_of(l, key),
        !has_key(l.remove(at), l[at].0),
{
    let after = l.remove(at);
    assert forall|i: int| 0 <= i < after.len() implies #[trigger] after[i] == l[if i < at {
        i
    } else {
        i + 1
    }] by {}
    assert forall|i: int, j: int| 0 <= i < j < after.len() implies after[i].0 != after[j].0 by {
        let a = if i < at { i } else { i + 1 };
        let b = if j < at { j } else { j + 1 };
        assert(after[i] == l[a]);
        assert(after[j] == l[b]);
    }
    if has_key(l, key) {
        let i = place_of(l, key);
        let n = if i < at { i } else { i - 1 };
        assert(after[n] == l[i]);
        lemma_place_of(after, n);
        lemma_place_of(l, i);
    }
    if has_key(after, key) {
        let n = place_of(after, key);
        let i = if n < at { n } else { n + 1 };
        assert(after[n] == l[i]);
        assert(l[i].0 == key);
    }
    if has_key(after, l[at].0) {
        let n = place_of(after, l[at].0);
        let i = if n < at { n } else { n + 1 };
        assert(after[n] == l[i]);
        assert(l[i].0 == l[at].0);
        if i < at {
            assert(l[i].0 != l[at].0);
        } else {
            assert(l[at].0 != l[i].0);
        }
    }
}

impl ActorDirectory {
    /// What the directory holds, as `listing` names it.
    pub open spec fn view(&self) -> Seq<(DefaultKey, Actor)> {
        listing(*self)
    }

    /// A directory without units.
    pub fn new() -> (d: ActorDirectory)
        ensures
            d@.len() == 0,
    {
        empty_directory()
    }

    /// How many units the directory holds.
    pub fn len(&self) -> (n: usize)
        ensures
            n == self@.len(),
    {
        count_actors(self)
    }

    /// Every unit with its handle, in the order of the walk.
    pub fn iter(&self) -> (r: Vec<(ActorKey, Actor)>)
        ensures
            r@ == self@,
            distinct_keys(self@),
    {
        all_actors(self)
    }

    /// The unit with the handle `key`, if there is one.
    pub fn get(&self, key: ActorKey) -> (r: Option<Actor>)
        ensures
            r is Some <==> has_key(self@, key),
            r is Some ==> r->0 == actor_of(self@, key),
    {
        find_actor(self, key)
    }

    /// Adds a unit and returns its handle, which no other unit has. The
    /// directory must have room for it.
    pub fn insert(&mut self, actor: Actor) -> (key: ActorKey)
        requires
            old(self)@.len() < u32::MAX - 1,
        ensures
            !has_key(old(self)@, key),
            exists|at: int|
                0 <= at <= old(self)@.len() && final(self)@ == #[trigger] old(self)@.insert(
                    at,
                    (key, actor),
                ),
            distinct_keys(final(self)@),
    {
        add_actor(self, actor)
    }

    /// Adds a unit if the directory has room for it, and returns its handle;
    /// a full directory stays as it is.
    pub fn try_insert(&mut self, actor: Actor) -> (r: Option<ActorKey>)
        ensures
            r is Some <==> old(self)@.len() < u32::MAX - 1,
            r is Some ==> !has_key(old(self)@, r->0) && distinct_keys(final(self)@) && exists|
                at: int,
            |
                0 <= at <= old(self)@.len() && final(self)@ == #[trigger] old(self)@.insert(
                    at,
                    (r->0, actor),
                ),
            r is None ==> final(self)@ == old(self)@,
    {
        if self.len() < 0xffff_fffe {
            Some(self.insert(actor))
        } else {
            None
        }
    }

    /// Takes the unit with the handle `key` out of the directory and returns
    /// it. Without such a unit nothing changes.
    pub fn remove(&mut self, key: ActorKey) -> (r: Option<Actor>)
        ensures
            r is Some <==> has_key(old(self)@, key),
            r is Some ==> r->0 == actor_of(old(self)@, key) && final(self)@ == old(self)@.remove(
                place_of(old(self)@, key),
            ),
            r is None ==> final(self)@ == old(self)@,
            distinct_keys(final(self)@),
    {
        drop_actor(self, key)
    }

    /// Replaces the unit with the handle `key` by `actor` and says whether
    /// such a unit was there.
    pub fn replace(&mut self, key: ActorKey, actor: Actor) -> (found: bool)
        ensures
            found == has_key(old(self)@, key),
            found ==> final(self)@ == old(self)@.update(place_of(old(self)@, key), (key, actor)),
            !found ==> final(self)@ == old(self)@,
            found ==> distinct_keys(final(self)@),
            same_keys(old(self)@, final(self)@),
    {
        match self.get(key) {
            Some(_) => {
                proof {
                    let at = place_of(self@, key);
                    assert(0 <= at < self@.len() && self@[at].0 == key);
                    lemma_update_same_keys(self@, at, actor);
                }
                put_actor(self, key, actor);
                true
            },
            None => false,
        }
    }

    /// Whether two handles are the same.
    pub fn same(a: ActorKey, b: ActorKey) -> (r: bool)
        ensures
            r == (a == b),
    {
        same_key(a, b)
    }
}

} // verus!
