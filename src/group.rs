//! Named groups of lights and nested groups, and switching them member by member.
use vstd::prelude::*;
use crate::bulb::{Address, Bulb};
use crate::function::{passed, reply_result, Off, On};
use crate::response::{ErrorResponse, Response};
use crate::text::{append_signed_decimal, signed_decimal};

verus! {

/// The identifier of a group: a number or a text.
#[derive(Debug, PartialEq, Eq)]
pub enum Id {
    Number(i64),
    Text(String),
}

impl Clone for Id {
    fn clone(&self) -> (r: Self)
        ensures
            r == *self,
    {
        match self {
            Id::Number(n) => Id::Number(*n),
            Id::Text(s) => Id::Text(s.clone()),
        }
    }
}

/// Two identifiers are the same number or the same text.
pub open spec fn same_id(a: Id, b: Id) -> bool {
    match (a, b) {
        (Id::Number(x), Id::Number(y)) => x == y,
        (Id::Text(x), Id::Text(y)) => x@ == y@,
        _ => false,
    }
}

/// The raw text of an identifier.
pub open spec fn id_text(id: Id) -> Seq<char> {
    match id {
        Id::Number(n) => signed_decimal(n as int),
        Id::Text(s) => s@,
    }
}

/// The storage key of a group: `group:<id>`.
pub open spec fn group_key(id: Id) -> Seq<char> {
    "group:"@ + id_text(id)
}

/// Sameness of identifiers is an equivalence.
pub proof fn lemma_same_id_equivalence(a: Id, b: Id, c: Id)
    ensures
        same_id(a, a),
        same_id(a, b) ==> same_id(b, a),
        same_id(a, b) && same_id(b, c) ==> same_id(a, c),
{
}

impl Id {
    /// Whether two identifiers are the same.
    pub fn same(&self, other: &Id) -> (r: bool)
        ensures
            r == same_id(*self, *other),
    {
        match (self, other) {
            (Id::Number(x), Id::Number(y)) => *x == *y,
            (Id::Text(x), Id::Text(y)) => *x == *y,
            _ => false,
        }
    }

    /// The raw text of this identifier.
    pub fn to_raw(&self) -> (r: String)
        ensures
            r@ == id_text(*self),
    {
        let mut s = String::new();
        match self {
            Id::Number(n) => append_signed_decimal(&mut s, *n),
            Id::Text(t) => s.append(t.as_str()),
        }
        proof {
            assert(s@ =~= id_text(*self));
        }
        s
    }
}

/// A member of a group: a light or another group.
#[derive(Debug)]
pub enum Member {
    Bulb(Bulb),
    Group(Group),
}

/// A named group; the order of its members is kept for switching.
#[derive(Debug)]
pub struct Group {
    pub _id: Id,
    pub name: String,
    pub collects: Vec<Member>,
}

/// The lights that a member reaches, depth first in member order.
pub open spec fn member_devices(m: Member) -> Seq<Bulb>
    decreases m,
{
    match m {
        Member::Bulb(b) => seq![b],
        Member::Group(g) => members_devices(g.collects@),
    }
}

/// The lights that a sequence of members reaches, depth first in member order.
pub open spec fn members_devices(ms: Seq<Member>) -> Seq<Bulb>
    decreases ms,
{
    if ms.len() == 0 {
        Seq::empty()
    } else {
        members_devices(ms.drop_last()) + member_devices(ms.last())
    }
}

/// `b` is `a` with the cached state of its first `k` lights set to `on`.
pub open spec fn member_switched(a: Member, b: Member, on: bool, k: int) -> bool
    decreases a,
{
    match a {
        Member::Bulb(x) => b == Member::Bulb(
            if k > 0 {
                Bulb { state: on, ..x }
            } else {
                x
            },
        ),
        Member::Group(g) => {
            &&& b is Group
            &&& b->Group_0._id == g._id
            &&& b->Group_0.name == g.name
            &&& members_switched(g.collects@, b->Group_0.collects@, on, k)
        },
    }
}

/// `b` is `a` with the cached state of its first `k` lights set to `on`.
pub open spec fn members_switched(a: Seq<Member>, b: Seq<Member>, on: bool, k: int) -> bool
    decreases a,
{
    &&& a.len() == b.len()
    &&& a.len() > 0 ==> {
        &&& members_switched(a.drop_last(), b.drop_last(), on, k)
        &&& member_switched(a.last(), b.last(), on, k - members_devices(a.drop_last()).len())
    }
}

/// The lights of a group.
pub open spec fn group_devices(g: Group) -> Seq<Bulb> {
    members_devices(g.collects@)
}

/// `b` is the group `a` with the cached state of its first `k` lights set to `on`.
pub open spec fn group_switched(a: Group, b: Group, on: bool, k: int) -> bool {
    &&& b._id == a._id
    &&& b.name == a.name
    &&& members_switched(a.collects@, b.collects@, on, k)
}

proof fn lemma_devices_concat(a: Seq<Member>, b: Seq<Member>)
    ensures
        members_devices(a + b) == members_devices(a) + members_devices(b),
    decreases b.len(),
{
    if b.len() == 0 {
        assert(a + b =~= a);
        assert(members_devices(b) =~= Seq::<Bulb>::empty());
        assert(members_devices(a) + members_devices(b) =~= members_devices(a));
    } else {
        lemma_devices_concat(a, b.drop_last());
        assert((a + b).drop_last() =~= a + b.drop_last());
        assert((a + b).last() == b.last());
        assert(members_devices(a + b) =~= members_devices(a) + members_devices(b));
    }
}

proof fn lemma_devices_push(a: Seq<Member>, m: Member)
    ensures
        members_devices(a.push(m)) == members_devices(a) + member_devices(m),
{
    assert(a.push(m).drop_last() =~= a);
}

proof fn lemma_passed_split(replies: Seq<Response>, start: int, a: nat, b: nat)
    ensures
        passed(replies, start, a + b) == if passed(replies, start, a) < a {
            passed(replies, start, a)
        } else {
            a + passed(replies, start + a, b)
        },
        passed(replies, start, a) <= a,
    decreases a,
{
    if a > 0 {
        lemma_passed_split(replies, start + 1, (a - 1) as nat, b);
        assert((a + b - 1) as nat == ((a - 1) as nat + b) as nat);
    }
}

proof fn lemma_member_unswitched(m: Member, on: bool, k: int)
    requires
        k <= 0,
    ensures
        member_switched(m, m, on, k),
    decreases m,
{
    match m {
        Member::Bulb(_) => {},
        Member::Group(g) => {
            lemma_members_unswitched(g.collects@, on, k);
        },
    }
}

proof fn lemma_members_unswitched(ms: Seq<Member>, on: bool, k: int)
    requires
        k <= 0,
    ensures
        members_switched(ms, ms, on, k),
    decreases ms,
{
    if ms.len() > 0 {
        lemma_members_unswitched(ms.drop_last(), on, k);
        lemma_member_unswitched(ms.last(), on, k - members_devices(ms.drop_last()).len());
    }
}

proof fn lemma_member_saturated(a: Member, b: Member, on: bool, k1: int, k2: int)
    requires
        k1 >= member_devices(a).len(),
        k2 >= member_devices(a).len(),
        member_switched(a, b, on, k1),
    ensures
        member_switched(a, b, on, k2),
    decreases a,
{
    match a {
        Member::Bulb(_) => {},
        Member::Group(g) => {
            lemma_members_saturated(g.collects@, b->Group_0.collects@, on, k1, k2);
        },
    }
}

proof fn lemma_members_saturated(a: Seq<Member>, b: Seq<Member>, on: bool, k1: int, k2: int)
    requires
        k1 >= members_devices(a).len(),
        k2 >= members_devices(a).len(),
        members_switched(a, b, on, k1),
    ensures
        members_switched(a, b, on, k2),
    decreases a,
{
    if a.len() > 0 {
        let d = members_devices(a.drop_last()).len();
        lemma_members_saturated(a.drop_last(), b.drop_last(), on, k1, k2);
        lemma_member_saturated(a.last(), b.last(), on, k1 - d, k2 - d);
    }
}

proof fn lemma_switched_concat(a1: Seq<Member>, a2: Seq<Member>, b1: Seq<Member>, b2: Seq<Member>, on: bool, k: int)
    requires
        members_switched(a1, b1, on, k),
        members_switched(a2, b2, on, k - members_devices(a1).len()),
    ensures
        members_switched(a1 + a2, b1 + b2, on, k),
    decreases a2.len(),
{
    if a2.len() == 0 {
        assert(a1 + a2 =~= a1);
        assert(b1 + b2 =~= b1);
    } else {
        lemma_switched_concat(a1, a2.drop_last(), b1, b2.drop_last(), on, k);
        assert((a1 + a2).drop_last() =~= a1 + a2.drop_last());
        assert((b1 + b2).drop_last() =~= b1 + b2.drop_last());
        lemma_devices_concat(a1, a2.drop_last());
    }
}

impl Member {
    /// The addresses of the lights that this member reaches, depth first in member order.
    pub fn devices(&self) -> (r: Vec<Address>)
        ensures
            r@ == member_devices(*self).map_values(|b: Bulb| b.ip_address),
        decreases *self,
    {
        match self {
            Member::Bulb(b) => {
                let mut v = Vec::new();
                v.push(b.ip_address);
                proof {
                    assert(v@ =~= member_devices(*self).map_values(|b: Bulb| b.ip_address));
                }
                v
            },
            Member::Group(g) => g.devices(),
        }
    }

    /// Switches the lights of this member in order, from reply `start` on,
    /// stopping at the first reply that fails. Returns the outcome and the
    /// position of the next reply.
    fn switch_from(&mut self, on: bool, replies: &Vec<Response>, start: usize) -> (r: (Result<bool, ErrorResponse>, usize))
        requires
            start <= replies@.len(),
        ensures
            ({
                let n = member_devices(*old(self)).len();
                let p = passed(replies@, start as int, n);
                &&& r.1 == start + p
                &&& r.1 <= replies@.len()
                &&& r.0 is Ok <==> p == n
                &&& p < n ==> reply_result(replies@, start + p, r.0)
                &&& member_switched(*old(self), *final(self), on, p as int)
            }),
        decreases *old(self),
    {
        match self {
            Member::Bulb(b) => {
                let ghost b0 = *b;
                let in_range = start < replies.len();
                let res = b.switch(on, replies, start);
                proof {
                    reveal_with_fuel(passed, 2);
                    assert(member_devices(Member::Bulb(b0)) =~= seq![b0]);
                }
                if in_range && res.is_ok() {
                    (res, start + 1)
                } else {
                    (res, start)
                }
            },
            Member::Group(g) => g.switch_from(on, replies, start),
        }
    }
}

impl Group {
    pub fn new(id: Id, name: String, collects: Vec<Member>) -> (r: Group)
        ensures
            r._id == id,
            r.name == name,
            r.collects == collects,
    {
        Group { _id: id, name, collects }
    }

    /// The addresses of the lights of this group, depth first in member
    /// order: the lights that a switch addresses, in the order of its replies.
    pub fn devices(&self) -> (r: Vec<Address>)
        ensures
            r@ == group_devices(*self).map_values(|b: Bulb| b.ip_address),
        decreases *self,
    {
        let mut out: Vec<Address> = Vec::new();
        let mut j: usize = 0;
        while j < self.collects.len()
            invariant
                j <= self.collects@.len(),
                out@ == members_devices(self.collects@.subrange(0, j as int)).map_values(|b: Bulb| b.ip_address),
            decreases self.collects@.len() - j,
        {
            assert(decreases_to!(*self => self.collects));
            assert(decreases_to!(self.collects => self.collects@));
            assert(decreases_to!(self.collects@ => self.collects@[j as int]));
            let mut d = self.collects[j].devices();
            let ghost before = out@;
            out.append(&mut d);
            proof {
                let pre = self.collects@.subrange(0, j as int);
                assert(self.collects@.subrange(0, j + 1).drop_last() =~= pre);
                lemma_devices_push(pre, self.collects@[j as int]);
                assert(self.collects@.subrange(0, j + 1) =~= pre.push(self.collects@[j as int]));
                assert(out@ =~= members_devices(self.collects@.subrange(0, j + 1)).map_values(|b: Bulb| b.ip_address));
            }
            j = j + 1;
        }
        proof {
            assert(self.collects@.subrange(0, j as int) =~= self.collects@);
        }
        out
    }

    /// The storage key of this group.
    pub fn query_id_string(&self) -> (r: String)
        ensures
            r@ == group_key(self._id),
    {
        let mut s = String::from_str("group:");
        let raw = self._id.to_raw();
        s.append(raw.as_str());
        s
    }

    /// Switches the lights of this group in member order, from reply `start`
    /// on, stopping at the first reply that fails. Returns the outcome and
    /// the position of the next reply.
    fn switch_from(&mut self, on: bool, replies: &Vec<Response>, start: usize) -> (r: (Result<bool, ErrorResponse>, usize))
        requires
            start <= replies@.len(),
        ensures
            ({
                let n = group_devices(*old(self)).len();
                let p = passed(replies@, start as int, n);
                &&& r.1 == start + p
                &&& r.1 <= replies@.len()
                &&& r.0 is Ok <==> p == n
                &&& p == n ==> r.0 == Ok::<bool, ErrorResponse>(true)
                &&& p < n ==> reply_result(replies@, start + p, r.0)
                &&& group_switched(*old(self), *final(self), on, p as int)
            }),
        decreases *old(self),
    {
        let ghost old_ms = self.collects@;
        let mut idx = start;
        let mut j: usize = 0;
        while j < self.collects.len()
            invariant
                self._id == old(self)._id,
                self.name == old(self).name,
                old_ms == old(self).collects@,
                self.collects@.len() == old_ms.len(),
                j <= old_ms.len(),
                start <= idx <= replies@.len(),
                forall|i: int| j <= i < old_ms.len() ==> self.collects@[i] == old_ms[i],
                idx - start == members_devices(old_ms.subrange(0, j as int)).len(),
                passed(replies@, start as int, members_devices(old_ms.subrange(0, j as int)).len())
                    == members_devices(old_ms.subrange(0, j as int)).len(),
                members_switched(old_ms.subrange(0, j as int), self.collects@.subrange(0, j as int), on, idx - start),
            decreases old_ms.len() - j,
        {
            let ghost before = self.collects@;
            let ghost m0 = old_ms[j as int];
            assert(decreases_to!(*old(self) => old(self).collects));
            assert(decreases_to!(old(self).collects => old(self).collects@));
            assert(decreases_to!(old(self).collects@ => old(self).collects@[j as int]));
            assert(before[j as int] == m0);
            let (res, next) = self.collects[j].switch_from(on, replies, idx);
            let ghost m1 = self.collects@[j as int];
            proof {
                let dp = members_devices(old_ms.subrange(0, j as int)).len();
                lemma_members_saturated(
                    old_ms.subrange(0, j as int),
                    before.subrange(0, j as int),
                    on,
                    idx - start,
                    next - start,
                );
                let pre = old_ms.subrange(0, j as int);
                let d = members_devices(pre).len();
                let nm = member_devices(m0).len();
                lemma_passed_split(replies@, start as int, d, nm);
                lemma_passed_split(replies@, idx as int, nm, 0);
                assert(old_ms.subrange(0, j + 1) =~= pre.push(m0));
                assert(self.collects@.subrange(0, j + 1) =~= before.subrange(0, j as int).push(m1));
                assert(self.collects@.subrange(0, j as int) =~= before.subrange(0, j as int));
                lemma_devices_push(pre, m0);
                assert(pre.push(m0).drop_last() =~= pre);
                assert(before.subrange(0, j as int).push(m1).drop_last() =~= before.subrange(0, j as int));
            }
            match res {
                Err(e) => {
                    proof {
                        let pre = old_ms.subrange(0, j as int);
                        let post = old_ms.subrange(j + 1, old_ms.len() as int);
                        let d = members_devices(pre.push(m0)).len();
                        let p = (next - start) as int;
                        lemma_members_unswitched(post, on, p - d);
                        assert(old_ms =~= pre.push(m0) + post);
                        assert(self.collects@ =~= self.collects@.subrange(0, j + 1) + post);
                        lemma_switched_concat(pre.push(m0), post, self.collects@.subrange(0, j + 1), post, on, p);
                        lemma_devices_concat(pre.push(m0), post);
                        lemma_passed_split(replies@, start as int, d as nat, members_devices(post).len());
                    }
                    return (Err(e), next);
                },
                Ok(_) => {},
            }
            idx = next;
            j = j + 1;
        }
        proof {
            assert(old_ms.subrange(0, j as int) =~= old_ms);
            assert(self.collects@.subrange(0, j as int) =~= self.collects@);
        }
        (Ok(true), idx)
    }
}

/// Two lights are equal as values: address, id, name and cached state.
pub open spec fn same_bulb(a: Bulb, b: Bulb) -> bool {
    &&& a.ip_address == b.ip_address
    &&& a._id == b._id
    &&& a.name@ == b.name@
    &&& a.state == b.state
}

/// Equality of members: lights are equal as values; groups have the same
/// identifier and name, and each member of one is equal to some member of
/// the other, in any order.
pub open spec fn member_eq(a: Member, b: Member) -> bool
    decreases a, 0nat,
{
    match a {
        Member::Bulb(x) => b is Bulb && same_bulb(x, b->Bulb_0),
        Member::Group(g) => {
            &&& b is Group
            &&& same_id(g._id, b->Group_0._id)
            &&& g.name@ == b->Group_0.name@
            &&& covers(g.collects@, b->Group_0.collects@)
            &&& covered(g.collects@, b->Group_0.collects@)
        },
    }
}

/// Each member of `gs` is equal to some member of `hs`.
pub open spec fn covers(gs: Seq<Member>, hs: Seq<Member>) -> bool
    decreases gs, 1nat,
{
    if gs.len() == 0 {
        true
    } else {
        covers(gs.drop_last(), hs) && has_equal(hs, gs.last())
    }
}

/// Some member of `hs` is equal to `x`.
pub open spec fn has_equal(hs: Seq<Member>, x: Member) -> bool
    decreases x, hs.len(),
{
    if hs.len() == 0 {
        false
    } else {
        has_equal(hs.drop_last(), x) || member_eq(x, hs.last())
    }
}

/// Each member of `hs` is equal to some member of `gs`.
pub open spec fn covered(gs: Seq<Member>, hs: Seq<Member>) -> bool
    decreases gs, hs.len(),
{
    if hs.len() == 0 {
        true
    } else {
        covered(gs, hs.drop_last()) && equal_in(gs, hs.last())
    }
}

/// Some member of `gs` is equal to `y`.
pub open spec fn equal_in(gs: Seq<Member>, y: Member) -> bool
    decreases gs, 0nat,
{
    if gs.len() == 0 {
        false
    } else {
        equal_in(gs.drop_last(), y) || member_eq(gs.last(), y)
    }
}

/// Equality of groups: the same identifier and name, and the same members
/// in any order, nested groups compared the same way.
pub open spec fn group_eq(g: Group, h: Group) -> bool {
    member_eq(Member::Group(g), Member::Group(h))
}

fn same_bulb_value(a: &Bulb, b: &Bulb) -> (r: bool)
    ensures
        r == same_bulb(*a, *b),
{
    a.ip_address == b.ip_address && a._id == b._id && a.name == b.name && a.state == b.state
}

fn member_equal(a: &Member, b: &Member) -> (r: bool)
    ensures
        r == member_eq(*a, *b),
    decreases *a, 2nat,
{
    match (a, b) {
        (Member::Bulb(x), Member::Bulb(y)) => same_bulb_value(x, y),
        (Member::Group(g), Member::Group(h)) => groups_equal(g, h),
        _ => false,
    }
}

fn groups_equal(g: &Group, h: &Group) -> (r: bool)
    ensures
        r == group_eq(*g, *h),
    decreases *g, 1nat,
{
    if !g._id.same(&h._id) || g.name != h.name {
        return false;
    }
    assert(decreases_to!(*g => g.collects));
    let c1 = members_cover(&g.collects, &h.collects);
    let c2 = members_covered(&g.collects, &h.collects);
    c1 && c2
}

/// Whether each member of `gs` is equal to some member of `hs`.
fn members_cover(gs: &Vec<Member>, hs: &Vec<Member>) -> (r: bool)
    ensures
        r == covers(gs@, hs@),
    decreases *gs, 0nat,
{
    let mut all = true;
    let mut i: usize = 0;
    while i < gs.len()
        invariant
            i <= gs@.len(),
            all == covers(gs@.subrange(0, i as int), hs@),
        decreases gs@.len() - i,
    {
        let mut found = false;
        let mut j: usize = 0;
        while j < hs.len()
            invariant
                i < gs@.len(),
                j <= hs@.len(),
                found == has_equal(hs@.subrange(0, j as int), gs@[i as int]),
            decreases hs@.len() - j,
        {
            assert(decreases_to!(*gs => gs@));
            assert(decreases_to!(gs@ => gs@[i as int]));
            let e = member_equal(&gs[i], &hs[j]);
            proof {
                assert(hs@.subrange(0, j + 1).drop_last() =~= hs@.subrange(0, j as int));
            }
            found = found || e;
            j = j + 1;
        }
        proof {
            assert(hs@.subrange(0, j as int) =~= hs@);
            assert(gs@.subrange(0, i + 1).drop_last() =~= gs@.subrange(0, i as int));
        }
        all = all && found;
        i = i + 1;
    }
    proof {
        assert(gs@.subrange(0, i as int) =~= gs@);
    }
    all
}

/// Whether each member of `hs` is equal to some member of `gs`.
fn members_covered(gs: &Vec<Member>, hs: &Vec<Member>) -> (r: bool)
    ensures
        r == covered(gs@, hs@),
    decreases *gs, 0nat,
{
    let mut all = true;
    let mut j: usize = 0;
    while j < hs.len()
        invariant
            j <= hs@.len(),
            all == covered(gs@, hs@.subrange(0, j as int)),
        decreases hs@.len() - j,
    {
        let mut found = false;
        let mut k: usize = 0;
        while k < gs.len()
            invariant
                j < hs@.len(),
                k <= gs@.len(),
                found == equal_in(gs@.subrange(0, k as int), hs@[j as int]),
            decreases gs@.len() - k,
        {
            assert(decreases_to!(*gs => gs@));
            assert(decreases_to!(gs@ => gs@[k as int]));
            let e = member_equal(&gs[k], &hs[j]);
            proof {
                assert(gs@.subrange(0, k + 1).drop_last() =~= gs@.subrange(0, k as int));
            }
            found = found || e;
            k = k + 1;
        }
        proof {
            assert(gs@.subrange(0, k as int) =~= gs@);
            assert(hs@.subrange(0, j + 1).drop_last() =~= hs@.subrange(0, j as int));
        }
        all = all && found;
        j = j + 1;
    }
    proof {
        assert(hs@.subrange(0, j as int) =~= hs@);
    }
    all
}

impl PartialEq for Group {
    fn eq(&self, other: &Group) -> (r: bool) {
        groups_equal(self, other)
    }
}

impl vstd::std_specs::cmp::PartialEqSpecImpl for Group {
    open spec fn obeys_eq_spec() -> bool {
        true
    }

    open spec fn eq_spec(&self, other: &Group) -> bool {
        group_eq(*self, *other)
    }
}

/// The outcome of switching a group whose lights gave the replies: success
/// when no reply fails, otherwise what the first failing reply comes to.
pub open spec fn group_result(g: Group, replies: Seq<Response>, r: Result<bool, ErrorResponse>) -> bool {
    let n = group_devices(g).len();
    let p = passed(replies, 0, n);
    &&& p == n ==> r == Ok::<bool, ErrorResponse>(true)
    &&& p < n ==> reply_result(replies, p as int, r)
}

impl On for Group {
    /// Switches on the lights of the group one by one, in member order; the
    /// first failure ends the fan-out and is returned.
    fn on(&mut self, replies: &Vec<Response>) -> (r: Result<bool, ErrorResponse>)
        ensures
            group_result(*old(self), replies@, r),
            group_switched(*old(self), *final(self), true, passed(replies@, 0, group_devices(*old(self)).len()) as int),
    {
        let (r, _) = self.switch_from(true, replies, 0);
        r
    }
}

impl Off for Group {
    /// Switches off the lights of the group one by one, in member order; the
    /// first failure ends the fan-out and is returned.
    fn off(&mut self, replies: &Vec<Response>) -> (r: Result<bool, ErrorResponse>)
        ensures
            group_result(*old(self), replies@, r),
            group_switched(*old(self), *final(self), false, passed(replies@, 0, group_devices(*old(self)).len()) as int),
    {
        let (r, _) = self.switch_from(false, replies, 0);
        r
    }
}

} // verus!
