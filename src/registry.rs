//! The catalog of lights and groups: a cache of what the graph store holds.
use vstd::prelude::*;
use crate::bulb::{switched_bulb, Address, Bulb};
use crate::function::{passed, reply_result, FunctionError, GeneralError, Off, On};
use crate::group::{group_devices, group_switched, id_text, lemma_same_id_equivalence, same_id, Group, Id, Member};
use crate::response::{error_text, is_unknown_error, ErrorResponse, Response};
use crate::store::{
    lemma_put_bulb_twice, all_collectable, apply_writes, collect_groups, collected, lemma_apply_writes_keeps_records,
    lemma_member_writes_store_record, lemma_single_write, member_writes, Snapshot, SnapshotView, Write,
};
use crate::text::decimal;

verus! {

/// A light answers to a numeric identifier equal to its id.
pub open spec fn bulb_has_id(b: Bulb, id: Id) -> bool {
    id is Number && id->Number_0 == b._id as i64
}

/// `i` is the first position of a light that answers to `id`.
pub open spec fn first_bulb(bs: Seq<Bulb>, id: Id, i: int) -> bool {
    &&& 0 <= i < bs.len()
    &&& bulb_has_id(bs[i], id)
    &&& forall|j: int| 0 <= j < i ==> !bulb_has_id(#[trigger] bs[j], id)
}

/// `i` is the first position of a group with identifier `id`.
pub open spec fn first_group(gs: Seq<Group>, id: Id, i: int) -> bool {
    &&& 0 <= i < gs.len()
    &&& same_id(gs[i]._id, id)
    &&& forall|j: int| 0 <= j < i ==> !same_id(#[trigger] gs[j]._id, id)
}

/// No light answers to `id`.
pub open spec fn no_bulb(bs: Seq<Bulb>, id: Id) -> bool {
    forall|j: int| 0 <= j < bs.len() ==> !bulb_has_id(#[trigger] bs[j], id)
}

/// No group has identifier `id`.
pub open spec fn no_group(gs: Seq<Group>, id: Id) -> bool {
    forall|j: int| 0 <= j < gs.len() ==> !same_id(#[trigger] gs[j]._id, id)
}

/// A failed request named `name`, carrying the text `inner`.
pub open spec fn failed_with(r: Result<bool, FunctionError>, name: Seq<char>, inner: Seq<char>) -> bool {
    &&& r is Err
    &&& r->Err_0.function_name@ == name
    &&& r->Err_0.inner_error@ == inner
}

/// The text of the error that stands for a reply of the wrong kind or no reply.
pub open spec fn unknown_error_text() -> Seq<char> {
    "code: 69 - message: unknown error detected"@
}

/// What a request named `name` comes to, given the reply at position `i` to
/// a set-state command: the success flag of a command result, or a failure
/// that carries the text of the error.
pub open spec fn lifted_reply(replies: Seq<Response>, i: int, r: Result<bool, FunctionError>, name: Seq<char>) -> bool {
    if 0 <= i < replies.len() {
        match replies[i] {
            Response::SR(s) => r == Ok::<bool, FunctionError>(s.result.success),
            Response::ER(e) => failed_with(r, name, error_text(e.error)),
            Response::GR(_) => failed_with(r, name, unknown_error_text()),
        }
    } else {
        failed_with(r, name, unknown_error_text())
    }
}

/// What a request named `name` on a group comes to.
pub open spec fn lifted_group_reply(g: Group, replies: Seq<Response>, r: Result<bool, FunctionError>, name: Seq<char>) -> bool {
    let n = group_devices(g).len();
    let p = passed(replies, 0, n);
    &&& p == n ==> r == Ok::<bool, FunctionError>(true)
    &&& p < n ==> lifted_reply(replies, p as int, r, name)
}

/// The lights of `s` without those whose id occurs earlier.
pub open spec fn unique_bulbs(s: Seq<Bulb>) -> Seq<Bulb>
    decreases s.len(),
{
    if s.len() == 0 {
        s
    } else {
        let u = unique_bulbs(s.drop_last());
        if exists|j: int| 0 <= j < s.len() - 1 && #[trigger] s[j]._id == s.last()._id {
            u
        } else {
            u.push(s.last())
        }
    }
}

/// The groups of `s` without those whose identifier occurs earlier.
pub open spec fn unique_groups(s: Seq<Group>) -> Seq<Group>
    decreases s.len(),
{
    if s.len() == 0 {
        s
    } else {
        let u = unique_groups(s.drop_last());
        if exists|j: int| 0 <= j < s.len() - 1 && same_id(#[trigger] s[j]._id, s.last()._id) {
            u
        } else {
            u.push(s.last())
        }
    }
}

/// How a switch by identifier leaves the registry, and what it returns:
/// the first light that answers is switched; else the first group; else
/// nothing changes and the identifier is reported missing.
pub open spec fn switched_by_id(
    before: Registry,
    after: Registry,
    id: Id,
    on: bool,
    replies: Seq<Response>,
    r: Result<bool, FunctionError>,
    name: Seq<char>,
    missing_name: Seq<char>,
) -> bool {
    &&& after.load_failed == before.load_failed
    &&& forall|i: int| #[trigger] first_bulb(before.bulbs@, id, i) ==> {
        &&& after.bulbs@ == before.bulbs@.update(i, switched_bulb(before.bulbs@[i], on, replies, 0))
        &&& after.groups@ == before.groups@
        &&& lifted_reply(replies, 0, r, name)
    }
    &&& no_bulb(before.bulbs@, id) ==> forall|i: int| #[trigger] first_group(before.groups@, id, i) ==> {
        &&& after.bulbs@ == before.bulbs@
        &&& after.groups@.len() == before.groups@.len()
        &&& forall|j: int| 0 <= j < before.groups@.len() && j != i ==> after.groups@[j] == before.groups@[j]
        &&& group_switched(before.groups@[i], after.groups@[i], on,
            passed(replies, 0, group_devices(before.groups@[i]).len()) as int)
        &&& lifted_group_reply(before.groups@[i], replies, r, name)
    }
    &&& no_bulb(before.bulbs@, id) && no_group(before.groups@, id) ==> {
        &&& after == before
        &&& failed_with(r, missing_name, "Id not contained in registry: "@ + id_text(id))
    }
}

/// `r` holds what `v` holds: its lights without repeated ids, and, unless a
/// group cannot be rebuilt, one rebuilt group for each stored group identifier.
pub open spec fn loaded_from(r: Registry, v: SnapshotView) -> bool {
    &&& r.well_formed()
    &&& r.bulbs@ == unique_bulbs(v.bulbs)
    &&& forall|k: u32| #[trigger] has_bulb_id(r.bulbs@, r.bulbs@.len() as int, k) <==> has_bulb_id(v.bulbs, v.bulbs.len() as int, k)
    &&& r.load_failed == !all_collectable(v)
    &&& r.load_failed ==> r.groups@.len() == 0
    &&& !r.load_failed ==> forall|k: int|
        0 <= k < v.groups.len() ==> #[trigger] has_group_id(r.groups@, r.groups@.len() as int, v.groups[k].id)
    &&& !r.load_failed ==> forall|a: int|
        0 <= a < r.groups@.len() ==> rebuilt_from_record(v, #[trigger] r.groups@[a])
    &&& !r.load_failed ==> exists|gs: Seq<Group>| #[trigger] unique_groups(gs) == r.groups@ && rebuilt_in_order(v, gs)
}

/// `gs` holds, in record order, one group rebuilt from each stored group record.
pub open spec fn rebuilt_in_order(v: SnapshotView, gs: Seq<Group>) -> bool {
    &&& gs.len() == v.groups.len()
    &&& forall|k: int| 0 <= k < gs.len() ==> collected(v, v.groups[k].id, #[trigger] gs[k], v.groups.len())
}

/// `g` is rebuilt from one of the stored group records.
pub open spec fn rebuilt_from_record(v: SnapshotView, g: Group) -> bool {
    exists|k: int| 0 <= k < v.groups.len() && collected(v, (#[trigger] v.groups[k]).id, g, v.groups.len())
}

/// The registry: the lights and groups loaded from the graph store.
#[derive(Debug)]
pub struct Registry {
    pub bulbs: Vec<Bulb>,
    pub groups: Vec<Group>,
    /// Whether a load from the store failed and left a collection empty.
    pub load_failed: bool,
}

impl Registry {
    /// No two lights share an id and no two groups share an identifier.
    pub open spec fn well_formed(&self) -> bool {
        &&& forall|i: int, j: int|
            0 <= i < j < self.bulbs@.len() ==> #[trigger] self.bulbs@[i]._id != #[trigger] self.bulbs@[j]._id
        &&& forall|i: int, j: int|
            0 <= i < j < self.groups@.len() ==> !same_id(#[trigger] self.groups@[i]._id, #[trigger] self.groups@[j]._id)
    }

    /// A registry over what was loaded from the store. A collection whose load
    /// failed is empty, and `load_failed` says so; an entry whose key occurs
    /// earlier is left out.
    pub fn new(bulbs: Option<Vec<Bulb>>, groups: Option<Vec<Group>>) -> (r: Registry)
        ensures
            r.well_formed(),
            r.load_failed == (bulbs is None || groups is None),
            r.bulbs@ == match bulbs {
                Some(v) => unique_bulbs(v@),
                None => Seq::<Bulb>::empty(),
            },
            r.groups@ == match groups {
                Some(v) => unique_groups(v@),
                None => Seq::<Group>::empty(),
            },
    {
        let load_failed = bulbs.is_none() || groups.is_none();
        let bs = match bulbs {
            Some(v) => unique_bulb_list(&v),
            None => Vec::new(),
        };
        let gs = match groups {
            Some(v) => unique_group_list(v),
            None => Vec::new(),
        };
        Registry { bulbs: bs, groups: gs, load_failed }
    }

    /// A registry over what the store holds: every light, and every group
    /// rebuilt from its record. A group that cannot be rebuilt leaves the
    /// groups empty and `load_failed` set.
    pub fn from_snapshot(snap: &Snapshot) -> (r: Registry)
        ensures
            loaded_from(r, snap@),
    {
        let bs = unique_bulb_list(&snap.bulbs);
        let collected_groups = collect_groups(snap);
        let load_failed = collected_groups.is_err();
        let gs = match collected_groups {
            Ok(v) => {
                let ghost orig = v@;
                let u = unique_group_list(v);
                proof {
                    assert(rebuilt_in_order(snap@, orig));
                    let fuel = snap@.groups.len();
                    assert forall|k: int| 0 <= k < snap@.groups.len() implies #[trigger] has_group_id(
                        u@,
                        u@.len() as int,
                        snap@.groups[k].id,
                    ) by {
                        assert(collected(snap@, snap@.groups[k].id, orig[k], fuel));
                        lemma_same_id_equivalence(orig[k]._id, orig[k]._id, orig[k]._id);
                        assert(has_group_id(orig, orig.len() as int, snap@.groups[k].id));
                    }
                    assert forall|a: int| 0 <= a < u@.len() implies rebuilt_from_record(snap@, #[trigger] u@[a]) by {
                        let c = choose|c: int| 0 <= c < orig.len() && u@[a] == orig[c];
                        assert(collected(snap@, snap@.groups[c].id, orig[c], fuel));
                    }
                }
                u
            },
            Err(_) => Vec::new(),
        };
        Registry { bulbs: bs, groups: gs, load_failed }
    }

    /// Persists `item` in the store, then rebuilds the whole registry from
    /// the store rather than patching the new entry in.
    pub fn add(&mut self, store: &mut Snapshot, item: &Member)
        ensures
            final(store)@ == apply_writes(old(store)@, member_writes(*item)),
            loaded_from(*final(self), final(store)@),
    {
        let ws = item.store();
        store.apply_all(ws);
        *self = Registry::from_snapshot(store);
    }

    /// The addresses that a switch by identifier sends to, in the order of
    /// the replies it expects: the first light that answers to `id`, or else
    /// the lights of the first group with that identifier, or none.
    pub fn addresses_for(&self, id: &Id) -> (r: Vec<Address>)
        ensures
            forall|i: int| #[trigger] first_bulb(self.bulbs@, *id, i) ==> r@ == seq![self.bulbs@[i].ip_address],
            no_bulb(self.bulbs@, *id) ==> forall|i: int| #[trigger] first_group(self.groups@, *id, i) ==> r@
                == group_devices(self.groups@[i]).map_values(|b: Bulb| b.ip_address),
            no_bulb(self.bulbs@, *id) && no_group(self.groups@, *id) ==> r@.len() == 0,
    {
        let mut i: usize = 0;
        while i < self.bulbs.len()
            invariant
                i <= self.bulbs@.len(),
                forall|j: int| 0 <= j < i ==> !bulb_has_id(#[trigger] self.bulbs@[j], *id),
            decreases self.bulbs@.len() - i,
        {
            let matches = match id {
                Id::Number(n) => *n == self.bulbs[i]._id as i64,
                Id::Text(_) => false,
            };
            if matches {
                let mut v = Vec::new();
                v.push(self.bulbs[i].ip_address);
                proof {
                    assert forall|k: int| #[trigger] first_bulb(self.bulbs@, *id, k) implies k == i by {
                        if k > i {
                            assert(!bulb_has_id(self.bulbs@[i as int], *id));
                        }
                    }
                    assert(v@ =~= seq![self.bulbs@[i as int].ip_address]);
                }
                return v;
            }
            i = i + 1;
        }
        let mut g: usize = 0;
        while g < self.groups.len()
            invariant
                g <= self.groups@.len(),
                no_bulb(self.bulbs@, *id),
                forall|j: int| 0 <= j < g ==> !same_id(#[trigger] self.groups@[j]._id, *id),
            decreases self.groups@.len() - g,
        {
            if self.groups[g]._id.same(id) {
                proof {
                    assert forall|k: int| #[trigger] first_group(self.groups@, *id, k) implies k == g by {
                        if k > g {
                            assert(!same_id(self.groups@[g as int]._id, *id));
                        }
                    }
                }
                return self.groups[g].devices();
            }
            g = g + 1;
        }
        Vec::new()
    }

    /// The first light with the given name.
    pub fn find_bulb_by_name(&self, name: String) -> (r: Result<Bulb, GeneralError>)
        ensures
            match r {
                Ok(b) => exists|i: int|
                    0 <= i < self.bulbs@.len() && b == self.bulbs@[i] && b.name@ == name@ && forall|j: int|
                        0 <= j < i ==> (#[trigger] self.bulbs@[j]).name@ != name@,
                Err(e) => e.msg@ == "Unable to find bulb by name"@ && forall|j: int|
                    0 <= j < self.bulbs@.len() ==> (#[trigger] self.bulbs@[j]).name@ != name@,
            },
    {
        let mut i: usize = 0;
        while i < self.bulbs.len()
            invariant
                i <= self.bulbs@.len(),
                forall|j: int| 0 <= j < i ==> (#[trigger] self.bulbs@[j]).name@ != name@,
            decreases self.bulbs@.len() - i,
        {
            if self.bulbs[i].name == name {
                return Ok(self.bulbs[i].clone());
            }
            i = i + 1;
        }
        Err(GeneralError::new(String::from_str("Unable to find bulb by name")))
    }

    /// Switches on the first light, or else the first group, that answers to
    /// `id`, given the replies of the lights it addresses.
    pub fn turn_on_by_id(&mut self, id: Id, replies: &Vec<Response>) -> (r: Result<bool, FunctionError>)
        ensures
            switched_by_id(*old(self), *final(self), id, true, replies@, r, "On"@, "turn_on_by_id"@),
    {
        self.switch_by_id(id, true, replies, "On", "turn_on_by_id")
    }

    /// Switches off the first light, or else the first group, that answers to
    /// `id`, given the replies of the lights it addresses.
    pub fn turn_off_by_id(&mut self, id: Id, replies: &Vec<Response>) -> (r: Result<bool, FunctionError>)
        ensures
            switched_by_id(*old(self), *final(self), id, false, replies@, r, "Off"@, "turn_off_by_id"@),
    {
        self.switch_by_id(id, false, replies, "Off", "turn_off_by_id")
    }

    fn switch_by_id(&mut self, id: Id, on: bool, replies: &Vec<Response>, name: &str, missing_name: &str) -> (r: Result<bool, FunctionError>)
        ensures
            switched_by_id(*old(self), *final(self), id, on, replies@, r, name@, missing_name@),
    {
        let mut i: usize = 0;
        while i < self.bulbs.len()
            invariant
                i <= self.bulbs@.len(),
                *self == *old(self),
                forall|j: int| 0 <= j < i ==> !bulb_has_id(#[trigger] self.bulbs@[j], id),
            decreases self.bulbs@.len() - i,
        {
            let matches = match &id {
                Id::Number(n) => *n == self.bulbs[i]._id as i64,
                Id::Text(_) => false,
            };
            if matches {
                proof {
                    assert(first_bulb(old(self).bulbs@, id, i as int));
                    assert forall|k: int| #[trigger] first_bulb(old(self).bulbs@, id, k) implies k == i by {
                        if k < i {
                        } else if k > i {
                            assert(!bulb_has_id(old(self).bulbs@[i as int], id));
                        }
                    }
                }
                let res = self.bulbs[i].switch(on, replies, 0);
                let r = lift_error(res, name);
                proof {
                    lemma_lift(replies@, 0, res, r, name@);
                }
                return r;
            }
            i = i + 1;
        }
        let mut g: usize = 0;
        while g < self.groups.len()
            invariant
                g <= self.groups@.len(),
                *self == *old(self),
                no_bulb(self.bulbs@, id),
                forall|j: int| 0 <= j < g ==> !same_id(#[trigger] self.groups@[j]._id, id),
            decreases self.groups@.len() - g,
        {
            if self.groups[g]._id.same(&id) {
                proof {
                    assert forall|k: int| #[trigger] first_group(old(self).groups@, id, k) implies k == g by {
                        if k < g {
                        } else if k > g {
                            assert(!same_id(old(self).groups@[g as int]._id, id));
                        }
                    }
                }
                let res = if on {
                    self.groups[g].on(replies)
                } else {
                    self.groups[g].off(replies)
                };
                let r = lift_error(res, name);
                proof {
                    let n = group_devices(old(self).groups@[g as int]).len();
                    let p = passed(replies@, 0, n);
                    if p < n {
                        lemma_lift(replies@, p as int, res, r, name@);
                    }
                }
                return r;
            }
            g = g + 1;
        }
        let mut text = String::from_str("Id not contained in registry: ");
        let raw = id.to_raw();
        text.append(raw.as_str());
        Err(FunctionError::new(String::from_str(missing_name), text))
    }
}

/// Adding the same light twice leaves the store as one addition does, and a
/// registry loaded from it holds exactly one light with that id.
pub proof fn lemma_add_bulb_twice(s: SnapshotView, b: Bulb, r: Registry)
    requires
        loaded_from(r, apply_writes(apply_writes(s, member_writes(Member::Bulb(b))), member_writes(Member::Bulb(b)))),
    ensures
        apply_writes(apply_writes(s, member_writes(Member::Bulb(b))), member_writes(Member::Bulb(b))) == apply_writes(
            s,
            member_writes(Member::Bulb(b)),
        ),
        exists|i: int| 0 <= i < r.bulbs@.len() && (#[trigger] r.bulbs@[i])._id == b._id,
        forall|i: int, j: int|
            0 <= i < r.bulbs@.len() && 0 <= j < r.bulbs@.len() && (#[trigger] r.bulbs@[i])._id == b._id
                && (#[trigger] r.bulbs@[j])._id == b._id ==> i == j,
{
    let w = member_writes(Member::Bulb(b));
    let once = apply_writes(s, w);
    lemma_member_writes_store_record(s, Member::Bulb(b));
    lemma_single_write(s, Write::CreateBulb(b));
    lemma_single_write(once, Write::CreateBulb(b));
    lemma_put_bulb_twice(s.bulbs, b);
    assert(apply_writes(once, w) == once);
    assert(has_bulb_id(once.bulbs, once.bulbs.len() as int, b._id));
    assert(has_bulb_id(r.bulbs@, r.bulbs@.len() as int, b._id));
}

/// Adding the same group twice leaves a registry, loaded from the store
/// without a failure, with exactly one group with that identifier.
pub proof fn lemma_add_group_twice(s: SnapshotView, g: Group, r: Registry)
    requires
        loaded_from(r, apply_writes(apply_writes(s, member_writes(Member::Group(g))), member_writes(Member::Group(g)))),
        !r.load_failed,
    ensures
        exists|i: int| 0 <= i < r.groups@.len() && same_id((#[trigger] r.groups@[i])._id, g._id),
        forall|i: int, j: int|
            0 <= i < r.groups@.len() && 0 <= j < r.groups@.len() && same_id((#[trigger] r.groups@[i])._id, g._id)
                && same_id((#[trigger] r.groups@[j])._id, g._id) ==> i == j,
{
    let w = member_writes(Member::Group(g));
    let once = apply_writes(s, w);
    let twice = apply_writes(once, w);
    lemma_member_writes_store_record(s, Member::Group(g));
    lemma_apply_writes_keeps_records(once, w, 0, g._id);
    let k = choose|k: int| 0 <= k < twice.groups.len() && same_id(#[trigger] twice.groups[k].id, g._id);
    assert(has_group_id(r.groups@, r.groups@.len() as int, twice.groups[k].id));
    let a = choose|a: int| 0 <= a < r.groups@.len() && same_id(#[trigger] r.groups@[a]._id, twice.groups[k].id);
    lemma_same_id_equivalence(r.groups@[a]._id, twice.groups[k].id, g._id);
    assert(same_id(r.groups@[a]._id, g._id));
    assert forall|i: int, j: int|
        0 <= i < r.groups@.len() && 0 <= j < r.groups@.len() && same_id((#[trigger] r.groups@[i])._id, g._id)
            && same_id((#[trigger] r.groups@[j])._id, g._id) implies i == j by {
        lemma_same_id_equivalence(r.groups@[i]._id, g._id, r.groups@[j]._id);
        lemma_same_id_equivalence(r.groups@[j]._id, g._id, g._id);
        lemma_same_id_equivalence(g._id, r.groups@[j]._id, r.groups@[j]._id);
        if i < j {
            assert(!same_id(r.groups@[i]._id, r.groups@[j]._id));
        } else if j < i {
            lemma_same_id_equivalence(r.groups@[j]._id, g._id, r.groups@[i]._id);
            lemma_same_id_equivalence(r.groups@[i]._id, g._id, g._id);
            lemma_same_id_equivalence(g._id, r.groups@[i]._id, r.groups@[i]._id);
            assert(!same_id(r.groups@[j]._id, r.groups@[i]._id));
        }
    }
}

proof fn lemma_unknown_error_text(e: ErrorResponse)
    requires
        is_unknown_error(e),
    ensures
        error_text(e.error) == unknown_error_text(),
{
    reveal_strlit("code: ");
    reveal_strlit(" - message: ");
    reveal_strlit("unknown error detected");
    reveal_strlit("code: 69 - message: unknown error detected");
    reveal_with_fuel(decimal, 2);
    assert(decimal(69) =~= seq!['6', '9']);
    assert(error_text(e.error) =~= unknown_error_text());
}

proof fn lemma_lift(replies: Seq<Response>, i: int, res: Result<bool, ErrorResponse>, r: Result<bool, FunctionError>, name: Seq<char>)
    requires
        reply_result(replies, i, res),
        match res {
            Ok(b) => r == Ok::<bool, FunctionError>(b),
            Err(e) => failed_with(r, name, error_text(e.error)),
        },
    ensures
        lifted_reply(replies, i, r, name),
{
    if res is Err {
        if is_unknown_error(res->Err_0) {
            lemma_unknown_error_text(res->Err_0);
        }
    }
}

/// A device error as a failed request named `name`.
fn lift_error(res: Result<bool, ErrorResponse>, name: &str) -> (r: Result<bool, FunctionError>)
    ensures
        match res {
            Ok(b) => r == Ok::<bool, FunctionError>(b),
            Err(e) => failed_with(r, name@, error_text(e.error)),
        },
{
    match res {
        Ok(b) => Ok(b),
        Err(e) => Err(FunctionError::new(String::from_str(name), e.error.to_string())),
    }
}

/// Some light among the first `n` of `s` has id `k`.
pub open spec fn has_bulb_id(s: Seq<Bulb>, n: int, k: u32) -> bool {
    exists|a: int| 0 <= a < n && #[trigger] s[a]._id == k
}

/// Some group among the first `n` of `s` has an identifier the same as `id`.
pub open spec fn has_group_id(s: Seq<Group>, n: int, id: Id) -> bool {
    exists|a: int| 0 <= a < n && same_id(#[trigger] s[a]._id, id)
}

fn unique_bulb_list(v: &Vec<Bulb>) -> (r: Vec<Bulb>)
    ensures
        r@ == unique_bulbs(v@),
        forall|k: u32| #[trigger] has_bulb_id(r@, r@.len() as int, k) <==> has_bulb_id(v@, v@.len() as int, k),
        forall|i: int, j: int| 0 <= i < j < r@.len() ==> #[trigger] r@[i]._id != #[trigger] r@[j]._id,
{
    let mut out: Vec<Bulb> = Vec::new();
    let mut i: usize = 0;
    while i < v.len()
        invariant
            i <= v@.len(),
            out@ == unique_bulbs(v@.subrange(0, i as int)),
            forall|a: int, b: int| 0 <= a < b < out@.len() ==> #[trigger] out@[a]._id != #[trigger] out@[b]._id,
            forall|k: u32| #[trigger] has_bulb_id(out@, out@.len() as int, k) <==> has_bulb_id(v@, i as int, k),
        decreases v@.len() - i,
    {
        let ghost pre = v@.subrange(0, i as int);
        let ghost next = v@.subrange(0, i + 1);
        let ghost before = out@;
        assert(next.drop_last() =~= pre);
        let mut seen = false;
        let mut k: usize = 0;
        while k < out.len()
            invariant
                i < v@.len(),
                out@ == before,
                k <= out@.len(),
                seen == has_bulb_id(out@, k as int, v@[i as int]._id),
            decreases out@.len() - k,
        {
            if out[k]._id == v[i]._id {
                seen = true;
            }
            k = k + 1;
            proof {
                if !seen {
                    assert forall|a: int| 0 <= a < k implies #[trigger] out@[a]._id != v@[i as int]._id by {
                        if a < k - 1 {
                            assert(!has_bulb_id(out@, k - 1, v@[i as int]._id));
                        }
                    }
                }
            }
        }
        let key = v[i]._id;
        proof {
            assert forall|j: int| 0 <= j < next.len() implies next[j] == v@[j] by {}
            assert(has_bulb_id(out@, out@.len() as int, key) == has_bulb_id(v@, i as int, key));
            if has_bulb_id(v@, i as int, key) {
                let c = choose|c: int| 0 <= c < i && #[trigger] v@[c]._id == key;
                assert(next[c]._id == next.last()._id);
            }
            if exists|j: int| 0 <= j < next.len() - 1 && #[trigger] next[j]._id == next.last()._id {
                let c = choose|j: int| 0 <= j < next.len() - 1 && #[trigger] next[j]._id == next.last()._id;
                assert(v@[c]._id == key);
            }
        }
        if !seen {
            out.push(v[i].clone());
        }
        proof {
            assert forall|kk: u32| #[trigger] has_bulb_id(out@, out@.len() as int, kk) <==> has_bulb_id(v@, i + 1, kk) by {
                if has_bulb_id(v@, i + 1, kk) {
                    let a = choose|a: int| 0 <= a < i + 1 && #[trigger] v@[a]._id == kk;
                    if a < i {
                        assert(has_bulb_id(v@, i as int, kk));
                        assert(has_bulb_id(before, before.len() as int, kk));
                        let c = choose|c: int| 0 <= c < before.len() && #[trigger] before[c]._id == kk;
                        assert(out@[c]._id == kk);
                    } else if !seen {
                        assert(out@[out@.len() - 1]._id == kk);
                    } else {
                        let c = choose|c: int| 0 <= c < before.len() && #[trigger] before[c]._id == key;
                        assert(out@[c]._id == kk);
                    }
                }
                if has_bulb_id(out@, out@.len() as int, kk) {
                    let a = choose|a: int| 0 <= a < out@.len() && #[trigger] out@[a]._id == kk;
                    if !seen && a == out@.len() - 1 {
                        assert(v@[i as int]._id == kk);
                    } else {
                        assert(before[a]._id == kk);
                        assert(has_bulb_id(before, before.len() as int, kk));
                        let c = choose|c: int| 0 <= c < i && #[trigger] v@[c]._id == kk;
                        assert(v@[c]._id == kk);
                    }
                }
            }
        }
        i = i + 1;
    }
    assert(v@.subrange(0, v@.len() as int) =~= v@);
    out
}

fn unique_group_list(v: Vec<Group>) -> (r: Vec<Group>)
    ensures
        r@ == unique_groups(v@),
        forall|id: Id| #[trigger] has_group_id(r@, r@.len() as int, id) <==> has_group_id(v@, v@.len() as int, id),
        forall|a: int| #![trigger r@[a]] 0 <= a < r@.len() ==> exists|c: int| #![trigger v@[c]] 0 <= c < v@.len() && r@[a] == v@[c],
        forall|i: int, j: int| 0 <= i < j < r@.len() ==> !same_id(#[trigger] r@[i]._id, #[trigger] r@[j]._id),
{
    let ghost orig = v@;
    let mut rest = v;
    let mut out: Vec<Group> = Vec::new();
    let mut i: usize = 0;
    let n = rest.len();
    while i < n
        invariant
            n == orig.len(),
            i <= n,
            rest@ == orig.subrange(i as int, n as int),
            out@ == unique_groups(orig.subrange(0, i as int)),
            forall|a: int, b: int| 0 <= a < b < out@.len() ==> !same_id(#[trigger] out@[a]._id, #[trigger] out@[b]._id),
            forall|id: Id| #[trigger] has_group_id(out@, out@.len() as int, id) <==> has_group_id(orig, i as int, id),
            forall|a: int| #![trigger out@[a]] 0 <= a < out@.len() ==> exists|c: int| #![trigger orig[c]] 0 <= c < i && out@[a] == orig[c],
        decreases n - i,
    {
        let ghost pre = orig.subrange(0, i as int);
        let ghost next = orig.subrange(0, i + 1);
        let ghost before = out@;
        assert(next.drop_last() =~= pre);
        let g = rest.remove(0);
        assert(g == orig[i as int]);
        let mut seen = false;
        let mut k: usize = 0;
        while k < out.len()
            invariant
                out@ == before,
                k <= out@.len(),
                seen == has_group_id(out@, k as int, g._id),
            decreases out@.len() - k,
        {
            if out[k]._id.same(&g._id) {
                seen = true;
            }
            k = k + 1;
            proof {
                if !seen {
                    assert forall|a: int| 0 <= a < k implies !same_id(#[trigger] out@[a]._id, g._id) by {
                        if a < k - 1 {
                            assert(!has_group_id(out@, k - 1, g._id));
                        }
                    }
                }
            }
        }
        let ghost key = g._id;
        proof {
            assert forall|j: int| 0 <= j < next.len() implies next[j] == orig[j] by {}
            assert(has_group_id(out@, out@.len() as int, key) == has_group_id(orig, i as int, key));
            if has_group_id(orig, i as int, key) {
                let c = choose|c: int| 0 <= c < i && same_id(#[trigger] orig[c]._id, key);
                assert(same_id(next[c]._id, next.last()._id));
            }
            if exists|j: int| 0 <= j < next.len() - 1 && same_id(#[trigger] next[j]._id, next.last()._id) {
                let c = choose|j: int| 0 <= j < next.len() - 1 && same_id(#[trigger] next[j]._id, next.last()._id);
                assert(same_id(orig[c]._id, key));
            }
            if !seen {
                assert forall|a: int| 0 <= a < before.len() implies !same_id(#[trigger] before[a]._id, key) by {}
            }
        }
        if !seen {
            out.push(g);
        }
        proof {
            assert forall|a: int| #![trigger out@[a]] 0 <= a < out@.len() implies exists|c: int| #![trigger orig[c]] 0 <= c < i + 1 && out@[a] == orig[c] by {
                if a < before.len() {
                    let c = choose|c: int| 0 <= c < i && before[a] == orig[c];
                    assert(out@[a] == orig[c]);
                } else {
                    assert(out@[a] == orig[i as int]);
                }
            }
            assert forall|id: Id| #[trigger] has_group_id(out@, out@.len() as int, id) <==> has_group_id(orig, i + 1, id) by {
                if has_group_id(orig, i + 1, id) {
                    let a = choose|a: int| 0 <= a < i + 1 && same_id(#[trigger] orig[a]._id, id);
                    if a < i {
                        assert(has_group_id(orig, i as int, id));
                        assert(has_group_id(before, before.len() as int, id));
                        let c = choose|c: int| 0 <= c < before.len() && same_id(#[trigger] before[c]._id, id);
                        assert(same_id(out@[c]._id, id));
                    } else if !seen {
                        assert(same_id(out@[out@.len() - 1]._id, id));
                    } else {
                        let c = choose|c: int| 0 <= c < before.len() && same_id(#[trigger] before[c]._id, key);
                        lemma_same_id_equivalence(before[c]._id, key, id);
                        assert(same_id(out@[c]._id, id));
                    }
                }
                if has_group_id(out@, out@.len() as int, id) {
                    let a = choose|a: int| 0 <= a < out@.len() && same_id(#[trigger] out@[a]._id, id);
                    if !seen && a == out@.len() - 1 {
                        assert(same_id(orig[i as int]._id, id));
                    } else {
                        assert(same_id(before[a]._id, id));
                        assert(has_group_id(before, before.len() as int, id));
                        let c = choose|c: int| 0 <= c < i && same_id(#[trigger] orig[c]._id, id);
                        assert(same_id(orig[c]._id, id));
                    }
                }
            }
            if !seen {
                assert forall|a: int, b: int| 0 <= a < b < out@.len() implies !same_id(#[trigger] out@[a]._id, #[trigger] out@[b]._id) by {
                    if b == out@.len() - 1 {
                        assert(!same_id(before[a]._id, key));
                        lemma_same_id_equivalence(out@[a]._id, key, key);
                    }
                }
            }
        }
        i = i + 1;
        proof {
            assert(rest@ =~= orig.subrange(i as int, n as int));
        }
    }
    assert(orig.subrange(0, n as int) =~= orig);
    out
}

} // verus!
