//! The graph store's side: the writes that persist an entity, a snapshot of
//! what the store holds, and the reconstruction of groups from it.
use vstd::prelude::*;
use crate::bulb::{bulb_key, Bulb};
use crate::group::{lemma_same_id_equivalence, covered, covers, equal_in, group_eq, group_key, has_equal, member_eq, same_id, Group, Id, Member};
use crate::text::append_decimal;

verus! {

/// The storage key of an entity.
#[derive(Debug, PartialEq, Eq)]
pub enum Key {
    Bulb(u32),
    Group(Id),
}

impl Clone for Key {
    fn clone(&self) -> (r: Self)
        ensures
            r == *self,
    {
        match self {
            Key::Bulb(n) => Key::Bulb(*n),
            Key::Group(id) => Key::Group(id.clone()),
        }
    }
}

/// The text of a storage key.
pub open spec fn key_text(k: Key) -> Seq<char> {
    match k {
        Key::Bulb(n) => bulb_key(n),
        Key::Group(id) => group_key(id),
    }
}

impl Key {
    /// The text of this key: `bulb:<id>` or `group:<id>`.
    pub fn to_text(&self) -> (r: String)
        ensures
            r@ == key_text(*self),
    {
        let mut s = String::new();
        match self {
            Key::Bulb(n) => {
                s.append("bulb:");
                append_decimal(&mut s, *n as u64);
            },
            Key::Group(id) => {
                s.append("group:");
                let raw = id.to_raw();
                s.append(raw.as_str());
            },
        }
        proof {
            assert(s@ =~= key_text(*self));
        }
        s
    }
}

/// One write to the graph store. Writing a record whose key is already
/// stored replaces that record in place (the last write wins) and is no failure.
#[derive(Debug)]
pub enum Write {
    /// The record of a light.
    CreateBulb(Bulb),
    /// The record of a group: its identifier and name.
    CreateGroup(Id, String),
    /// A `collect` edge from a group to one of its members.
    Relate(Id, Key),
}

/// The stored record of a group.
#[derive(Debug)]
pub struct GroupRecord {
    pub id: Id,
    pub name: String,
}

/// A `collect` edge from a group to one of its members.
#[derive(Debug)]
pub struct Link {
    pub from: Id,
    pub to: Key,
}

/// What the graph store holds: light records, group records and edges, each
/// in the order they were written.
#[derive(Debug)]
pub struct Snapshot {
    pub bulbs: Vec<Bulb>,
    pub groups: Vec<GroupRecord>,
    pub links: Vec<Link>,
}

/// The contents of a snapshot.
pub struct SnapshotView {
    pub bulbs: Seq<Bulb>,
    pub groups: Seq<GroupRecord>,
    pub links: Seq<Link>,
}

impl View for Snapshot {
    type V = SnapshotView;

    open spec fn view(&self) -> SnapshotView {
        SnapshotView { bulbs: self.bulbs@, groups: self.groups@, links: self.links@ }
    }
}

/// Why a group could not be rebuilt from the store.
#[derive(Debug, PartialEq, Eq)]
pub enum CollectError {
    /// No record holds the group.
    MissingGroup(Id),
    /// No record holds a light that a group collects.
    MissingBulb(u32),
    /// Group membership runs deeper than the number of stored groups, so it loops.
    CycleDetected,
}

/// The key of a member.
pub open spec fn member_key(m: Member) -> Key {
    match m {
        Member::Bulb(b) => Key::Bulb(b._id),
        Member::Group(g) => Key::Group(g._id),
    }
}

/// The writes that persist a member.
pub open spec fn member_writes(m: Member) -> Seq<Write>
    decreases m,
{
    match m {
        Member::Bulb(b) => seq![Write::CreateBulb(b)],
        Member::Group(g) => group_writes(g),
    }
}

/// The writes that persist a group: its own record, then for each member in
/// order the member's writes and the edge to it.
pub open spec fn group_writes(g: Group) -> Seq<Write>
    decreases g,
{
    seq![Write::CreateGroup(g._id, g.name)] + members_writes(g._id, g.collects@)
}

/// The writes that persist members of the group `owner`, with the edges to them.
pub open spec fn members_writes(owner: Id, ms: Seq<Member>) -> Seq<Write>
    decreases ms,
{
    if ms.len() == 0 {
        Seq::empty()
    } else {
        members_writes(owner, ms.drop_last()) + member_writes(ms.last()) + seq![
            Write::Relate(owner, member_key(ms.last())),
        ]
    }
}

impl Member {
    /// The key of this member.
    pub fn key(&self) -> (r: Key)
        ensures
            r == member_key(*self),
    {
        match self {
            Member::Bulb(b) => Key::Bulb(b._id),
            Member::Group(g) => Key::Group(g._id.clone()),
        }
    }

    /// The writes that persist this member.
    pub fn store(&self) -> (r: Vec<Write>)
        ensures
            r@ == member_writes(*self),
        decreases *self,
    {
        match self {
            Member::Bulb(b) => {
                let mut v = Vec::new();
                v.push(Write::CreateBulb(b.clone()));
                proof {
                    assert(v@ =~= member_writes(*self));
                }
                v
            },
            Member::Group(g) => g.store(),
        }
    }
}

impl Group {
    /// The writes that persist this group: its record, then each member and
    /// the edge to it, in member order.
    pub fn store(&self) -> (r: Vec<Write>)
        ensures
            r@ == group_writes(*self),
        decreases *self,
    {
        let mut out = Vec::new();
        out.push(Write::CreateGroup(self._id.clone(), self.name.clone()));
        let mut j: usize = 0;
        while j < self.collects.len()
            invariant
                j <= self.collects@.len(),
                out@ == seq![Write::CreateGroup(self._id, self.name)] + members_writes(
                    self._id,
                    self.collects@.subrange(0, j as int),
                ),
            decreases self.collects@.len() - j,
        {
            assert(decreases_to!(*self => self.collects));
            assert(decreases_to!(self.collects => self.collects@));
            assert(decreases_to!(self.collects@ => self.collects@[j as int]));
            let mut w = self.collects[j].store();
            let ghost before = out@;
            out.append(&mut w);
            out.push(Write::Relate(self._id.clone(), self.collects[j].key()));
            proof {
                let pre = self.collects@.subrange(0, j as int);
                assert(self.collects@.subrange(0, j + 1).drop_last() =~= pre);
                assert(out@ =~= seq![Write::CreateGroup(self._id, self.name)] + members_writes(
                    self._id,
                    self.collects@.subrange(0, j + 1),
                ));
            }
            j = j + 1;
        }
        proof {
            assert(self.collects@.subrange(0, j as int) =~= self.collects@);
        }
        out
    }
}

impl Bulb {
    /// The stored record of the light with id `id`: the first one, if any.
    pub fn get(snap: &Snapshot, id: u32) -> (r: Option<Bulb>)
        ensures
            r is Some <==> bulb_stored(snap@.bulbs, id),
            forall|i: int| #[trigger] first_bulb_record(snap@.bulbs, id, i) ==> r == Some(snap@.bulbs[i]),
    {
        match find_bulb_record(&snap.bulbs, id) {
            Some(i) => {
                proof {
                    assert(snap@.bulbs[i as int]._id == id);
                    assert forall|k: int| #[trigger] first_bulb_record(snap@.bulbs, id, k) implies k == i by {
                        if k < i {
                        } else if k > i {
                            assert(snap@.bulbs[i as int]._id == id);
                        }
                    }
                }
                Some(snap.bulbs[i].clone())
            },
            None => None,
        }
    }

    /// The writes that persist this light.
    pub fn store(&self) -> (r: Vec<Write>)
        ensures
            r@ == seq![Write::CreateBulb(*self)],
    {
        let mut v = Vec::new();
        v.push(Write::CreateBulb(self.clone()));
        proof {
            assert(v@ =~= seq![Write::CreateBulb(*self)]);
        }
        v
    }
}

/// Some stored light has id `n`.
pub open spec fn bulb_stored(s: Seq<Bulb>, n: u32) -> bool {
    exists|j: int| 0 <= j < s.len() && #[trigger] s[j]._id == n
}

/// Some stored group has an identifier the same as `id`.
pub open spec fn group_stored(s: Seq<GroupRecord>, id: Id) -> bool {
    exists|j: int| 0 <= j < s.len() && same_id(#[trigger] s[j].id, id)
}

/// `i` is the first stored light with id `n`.
pub open spec fn first_bulb_record(s: Seq<Bulb>, n: u32, i: int) -> bool {
    &&& 0 <= i < s.len()
    &&& s[i]._id == n
    &&& forall|j: int| 0 <= j < i ==> (#[trigger] s[j])._id != n
}

/// `i` is the first stored group with an identifier the same as `id`.
pub open spec fn first_group_record(s: Seq<GroupRecord>, id: Id, i: int) -> bool {
    &&& 0 <= i < s.len()
    &&& same_id(s[i].id, id)
    &&& forall|j: int| 0 <= j < i ==> !same_id((#[trigger] s[j]).id, id)
}

/// The targets of the edges from the group `id`, in the order they were written.
pub open spec fn links_from(links: Seq<Link>, id: Id) -> Seq<Key>
    decreases links.len(),
{
    if links.len() == 0 {
        Seq::empty()
    } else if same_id(links.last().from, id) {
        links_from(links.drop_last(), id).push(links.last().to)
    } else {
        links_from(links.drop_last(), id)
    }
}

/// Why the group `id` cannot be rebuilt from `snap` within `fuel` levels of
/// nesting, if it cannot: the first failure, depth first in edge order.
pub open spec fn group_failure(snap: SnapshotView, id: Id, fuel: nat) -> Option<CollectError>
    decreases fuel, 1nat, 0nat,
{
    if !group_stored(snap.groups, id) {
        Some(CollectError::MissingGroup(id))
    } else {
        keys_failure(snap, links_from(snap.links, id), fuel)
    }
}

/// The first failure in rebuilding the members with keys `ks`, in order.
pub open spec fn keys_failure(snap: SnapshotView, ks: Seq<Key>, fuel: nat) -> Option<CollectError>
    decreases fuel, 0nat, ks.len(),
{
    if ks.len() == 0 {
        None
    } else {
        match keys_failure(snap, ks.drop_last(), fuel) {
            Some(e) => Some(e),
            None => match ks.last() {
                Key::Bulb(n) => if bulb_stored(snap.bulbs, n) {
                    None
                } else {
                    Some(CollectError::MissingBulb(n))
                },
                Key::Group(gid) => if fuel == 0 {
                    Some(CollectError::CycleDetected)
                } else {
                    group_failure(snap, gid, (fuel - 1) as nat)
                },
            },
        }
    }
}

/// `g` is the group `id` as `snap` holds it: the name of its first record, and
/// for each edge in order the light's first record or the nested group.
pub open spec fn collected(snap: SnapshotView, id: Id, g: Group, fuel: nat) -> bool
    decreases fuel,
{
    let ks = links_from(snap.links, id);
    &&& g._id == id
    &&& forall|i: int| first_group_record(snap.groups, id, i) ==> g.name@ == snap.groups[i].name@
    &&& g.collects@.len() == ks.len()
    &&& forall|j: int|
        0 <= j < ks.len() ==> match #[trigger] ks[j] {
            Key::Bulb(n) => {
                &&& g.collects@[j] is Bulb
                &&& forall|i: int| first_bulb_record(snap.bulbs, n, i) ==> g.collects@[j]->Bulb_0 == snap.bulbs[i]
            },
            Key::Group(gid) => {
                &&& g.collects@[j] is Group
                &&& fuel > 0
                &&& collected(snap, gid, g.collects@[j]->Group_0, (fuel - 1) as nat)
            },
        }
}

proof fn lemma_keys_failure_concat(snap: SnapshotView, a: Seq<Key>, b: Seq<Key>, fuel: nat)
    ensures
        keys_failure(snap, a + b, fuel) == match keys_failure(snap, a, fuel) {
            Some(e) => Some(e),
            None => keys_failure(snap, b, fuel),
        },
    decreases b.len(),
{
    if b.len() == 0 {
        assert(a + b =~= a);
    } else {
        lemma_keys_failure_concat(snap, a, b.drop_last(), fuel);
        assert((a + b).drop_last() =~= a + b.drop_last());
    }
}

proof fn lemma_links_from_concat(a: Seq<Link>, b: Seq<Link>, id: Id)
    ensures
        links_from(a + b, id) == links_from(a, id) + links_from(b, id),
    decreases b.len(),
{
    if b.len() == 0 {
        assert(a + b =~= a);
        assert(links_from(a, id) + links_from(b, id) =~= links_from(a, id));
    } else {
        lemma_links_from_concat(a, b.drop_last(), id);
        assert((a + b).drop_last() =~= a + b.drop_last());
        assert(links_from(a + b, id) =~= links_from(a, id) + links_from(b, id));
    }
}

fn find_bulb_record(s: &Vec<Bulb>, n: u32) -> (r: Option<usize>)
    ensures
        match r {
            Some(i) => first_bulb_record(s@, n, i as int),
            None => !bulb_stored(s@, n),
        },
{
    let mut i: usize = 0;
    while i < s.len()
        invariant
            i <= s@.len(),
            forall|j: int| 0 <= j < i ==> (#[trigger] s@[j])._id != n,
        decreases s@.len() - i,
    {
        if s[i]._id == n {
            return Some(i);
        }
        i = i + 1;
    }
    None
}

fn find_group_record(s: &Vec<GroupRecord>, id: &Id) -> (r: Option<usize>)
    ensures
        match r {
            Some(i) => first_group_record(s@, *id, i as int),
            None => !group_stored(s@, *id),
        },
{
    let mut i: usize = 0;
    while i < s.len()
        invariant
            i <= s@.len(),
            forall|j: int| 0 <= j < i ==> !same_id((#[trigger] s@[j]).id, *id),
        decreases s@.len() - i,
    {
        if s[i].id.same(id) {
            return Some(i);
        }
        i = i + 1;
    }
    None
}

/// Rebuilds the group `id` from `snap`, with nested groups at most `fuel` levels deep.
fn collect_from(snap: &Snapshot, id: &Id, fuel: usize) -> (r: Result<Group, CollectError>)
    ensures
        match group_failure(snap@, *id, fuel as nat) {
            Some(e) => r == Err::<Group, CollectError>(e),
            None => r is Ok && collected(snap@, *id, r->Ok_0, fuel as nat),
        },
    decreases fuel,
{
    let pos = find_group_record(&snap.groups, id);
    let i = match pos {
        None => return Err(CollectError::MissingGroup(id.clone())),
        Some(i) => i,
    };
    assert(group_stored(snap.groups@, *id)) by {
        assert(same_id(snap.groups@[i as int].id, *id));
    }
    let name = snap.groups[i].name.clone();
    let mut members: Vec<Member> = Vec::new();
    let mut l: usize = 0;
    let ghost all = snap.links@;
    while l < snap.links.len()
        invariant
            l <= all.len(),
            all == snap.links@,
            group_stored(snap.groups@, *id),
            keys_failure(snap@, links_from(all.subrange(0, l as int), *id), fuel as nat) is None,
            members@.len() == links_from(all.subrange(0, l as int), *id).len(),
            forall|j: int|
                0 <= j < members@.len() ==> match #[trigger] links_from(all.subrange(0, l as int), *id)[j] {
                    Key::Bulb(n) => {
                        &&& members@[j] is Bulb
                        &&& forall|i: int| first_bulb_record(snap.bulbs@, n, i) ==> members@[j]->Bulb_0 == snap.bulbs@[i]
                    },
                    Key::Group(gid) => {
                        &&& members@[j] is Group
                        &&& fuel > 0
                        &&& collected(snap@, gid, members@[j]->Group_0, (fuel - 1) as nat)
                    },
                },
        decreases all.len() - l,
    {
        let ghost pre = all.subrange(0, l as int);
        let ghost next = all.subrange(0, l + 1);
        let ghost ks = links_from(pre, *id);
        let ghost rest = all.subrange(l + 1, all.len() as int);
        proof {
            assert(next.drop_last() =~= pre);
            assert(all =~= next + rest);
            lemma_links_from_concat(next, rest, *id);
            lemma_keys_failure_concat(snap@, links_from(next, *id), links_from(rest, *id), fuel as nat);
        }
        if snap.links[l].from.same(id) {
            let ghost k = all[l as int].to;
            proof {
                assert(links_from(next, *id) == ks.push(k));
                assert(ks.push(k).drop_last() =~= ks);
            }
            match &snap.links[l].to {
                Key::Bulb(n) => {
                    match find_bulb_record(&snap.bulbs, *n) {
                        None => {
                            proof {
                                assert(k == Key::Bulb(*n));
                                assert(keys_failure(snap@, ks.push(k), fuel as nat) == Some(CollectError::MissingBulb(*n)));
                                assert(links_from(snap.links@, *id) == links_from(next, *id) + links_from(rest, *id));
                            }
                            return Err(CollectError::MissingBulb(*n));
                        },
                        Some(b) => {
                            members.push(Member::Bulb(snap.bulbs[b].clone()));
                            proof {
                                assert forall|i2: int| first_bulb_record(snap.bulbs@, *n, i2) implies i2 == b by {
                                    if i2 < b {
                                    } else if i2 > b {
                                        assert(snap.bulbs@[b as int]._id == *n);
                                    }
                                }
                            }
                        },
                    }
                },
                Key::Group(gid) => {
                    if fuel == 0 {
                        return Err(CollectError::CycleDetected);
                    }
                    match collect_from(snap, gid, fuel - 1) {
                        Err(e) => {
                            proof {
                                assert(k == Key::Group(*gid));
                                assert(keys_failure(snap@, ks.push(k), fuel as nat) == group_failure(snap@, *gid, (fuel - 1) as nat));
                                assert(links_from(snap.links@, *id) == links_from(next, *id) + links_from(rest, *id));
                            }
                            return Err(e);
                        },
                        Ok(h) => {
                            members.push(Member::Group(h));
                        },
                    }
                },
            }
            proof {
                assert forall|j: int| 0 <= j < members@.len() implies #[trigger] links_from(next, *id)[j] == (if j
                    < ks.len() {
                    ks[j]
                } else {
                    k
                }) by {}
            }
        } else {
            proof {
                assert(links_from(next, *id) == ks);
            }
        }
        l = l + 1;
    }
    proof {
        assert(all.subrange(0, l as int) =~= all);
    }
    let g = Group::new(id.clone(), name, members);
    proof {
        assert forall|i2: int| first_group_record(snap.groups@, *id, i2) implies i2 == i by {
            if i2 < i {
            } else if i2 > i {
                assert(same_id(snap.groups@[i as int].id, *id));
            }
        }
    }
    Ok(g)
}

/// A light record after writing `b`: `b` when it has the same key.
pub open spec fn replaced_bulb(x: Bulb, b: Bulb) -> Bulb {
    if x._id == b._id {
        b
    } else {
        x
    }
}

/// A group record after writing the group `id` named `name`.
pub open spec fn replaced_group(x: GroupRecord, id: Id, name: String) -> GroupRecord {
    if same_id(x.id, id) {
        GroupRecord { id, name }
    } else {
        x
    }
}

/// Light records after writing `b`: every record under its key is replaced
/// by `b` in place, or `b` is added when none is stored.
pub open spec fn put_bulb(s: Seq<Bulb>, b: Bulb) -> Seq<Bulb> {
    if bulb_stored(s, b._id) {
        s.map_values(|x: Bulb| replaced_bulb(x, b))
    } else {
        s.push(b)
    }
}

/// Group records after writing the group `id` named `name`: every record
/// under its key is replaced in place, or one is added when none is stored.
pub open spec fn put_group(s: Seq<GroupRecord>, id: Id, name: String) -> Seq<GroupRecord> {
    if group_stored(s, id) {
        s.map_values(|x: GroupRecord| replaced_group(x, id, name))
    } else {
        s.push(GroupRecord { id, name })
    }
}

/// Writing the same light record twice leaves the records as one write does.
pub proof fn lemma_put_bulb_twice(s: Seq<Bulb>, b: Bulb)
    ensures
        bulb_stored(put_bulb(s, b), b._id),
        put_bulb(put_bulb(s, b), b) == put_bulb(s, b),
{
    let t = put_bulb(s, b);
    if bulb_stored(s, b._id) {
        let j = choose|j: int| 0 <= j < s.len() && #[trigger] s[j]._id == b._id;
        assert(t[j]._id == b._id);
    } else {
        assert(t[t.len() - 1]._id == b._id);
        assert forall|j: int| 0 <= j < s.len() implies #[trigger] s[j]._id != b._id by {}
    }
    assert(put_bulb(t, b) =~= t);
}

/// The store after one write: a record replaces the one under its key, the
/// last write winning, or is added; an edge is always added.
pub open spec fn apply_write(v: SnapshotView, w: Write) -> SnapshotView {
    match w {
        Write::CreateBulb(b) => SnapshotView { bulbs: put_bulb(v.bulbs, b), ..v },
        Write::CreateGroup(id, name) => SnapshotView { groups: put_group(v.groups, id, name), ..v },
        Write::Relate(from, to) => SnapshotView { links: v.links.push(Link { from, to }), ..v },
    }
}

/// The store after a sequence of writes, in order.
pub open spec fn apply_writes(v: SnapshotView, ws: Seq<Write>) -> SnapshotView
    decreases ws.len(),
{
    if ws.len() == 0 {
        v
    } else {
        apply_write(apply_writes(v, ws.drop_last()), ws.last())
    }
}

/// Writes one after another are the writes of the concatenation.
pub proof fn lemma_apply_writes_concat(v: SnapshotView, a: Seq<Write>, b: Seq<Write>)
    ensures
        apply_writes(v, a + b) == apply_writes(apply_writes(v, a), b),
    decreases b.len(),
{
    if b.len() == 0 {
        assert(a + b =~= a);
    } else {
        lemma_apply_writes_concat(v, a, b.drop_last());
        assert((a + b).drop_last() =~= a + b.drop_last());
    }
}

pub proof fn lemma_single_write(v: SnapshotView, w: Write)
    ensures
        apply_writes(v, seq![w]) == apply_write(v, w),
{
    assert(seq![w].drop_last() =~= Seq::<Write>::empty());
    assert(seq![w].last() == w);
    assert(apply_writes(v, Seq::<Write>::empty()) == v);
    assert(apply_writes(v, seq![w]) == apply_write(apply_writes(v, seq![w].drop_last()), seq![w].last()));
}

/// Writes never remove a record.
pub proof fn lemma_apply_writes_keeps_records(v: SnapshotView, ws: Seq<Write>, n: u32, id: Id)
    ensures
        bulb_stored(v.bulbs, n) ==> bulb_stored(apply_writes(v, ws).bulbs, n),
        group_stored(v.groups, id) ==> group_stored(apply_writes(v, ws).groups, id),
    decreases ws.len(),
{
    if ws.len() > 0 {
        lemma_apply_writes_keeps_records(v, ws.drop_last(), n, id);
        let u = apply_writes(v, ws.drop_last());
        if bulb_stored(u.bulbs, n) {
            let j = choose|j: int| 0 <= j < u.bulbs.len() && #[trigger] u.bulbs[j]._id == n;
            assert(apply_write(u, ws.last()).bulbs[j]._id == n);
        }
        if group_stored(u.groups, id) {
            let j = choose|j: int| 0 <= j < u.groups.len() && same_id(#[trigger] u.groups[j].id, id);
            if let Write::CreateGroup(wid, _) = ws.last() {
                lemma_same_id_equivalence(u.groups[j].id, wid, id);
                lemma_same_id_equivalence(wid, u.groups[j].id, id);
            }
            assert(same_id(apply_write(u, ws.last()).groups[j].id, id));
        }
    }
}

/// After its writes, a member's record is stored.
pub proof fn lemma_member_writes_store_record(v: SnapshotView, m: Member)
    ensures
        m is Bulb ==> bulb_stored(apply_writes(v, member_writes(m)).bulbs, m->Bulb_0._id),
        m is Group ==> group_stored(apply_writes(v, member_writes(m)).groups, m->Group_0._id),
{
    match m {
        Member::Bulb(b) => {
            let w = Write::CreateBulb(b);
            lemma_single_write(v, w);
            let u = apply_writes(v, seq![w]);
            if !bulb_stored(v.bulbs, b._id) {
                assert(u.bulbs[u.bulbs.len() - 1]._id == b._id);
            } else {
                let j = choose|j: int| 0 <= j < v.bulbs.len() && #[trigger] v.bulbs[j]._id == b._id;
                assert(u.bulbs[j]._id == b._id);
            }
        },
        Member::Group(g) => {
            let c = Write::CreateGroup(g._id, g.name);
            lemma_single_write(v, c);
            let u = apply_writes(v, seq![c]);
            lemma_same_id_equivalence(g._id, g._id, g._id);
            if !group_stored(v.groups, g._id) {
                assert(same_id(u.groups[u.groups.len() - 1].id, g._id));
            } else {
                let j = choose|j: int| 0 <= j < v.groups.len() && same_id(#[trigger] v.groups[j].id, g._id);
                assert(same_id(u.groups[j].id, g._id));
            }
            lemma_apply_writes_concat(v, seq![c], members_writes(g._id, g.collects@));
            lemma_apply_writes_keeps_records(u, members_writes(g._id, g.collects@), 0, g._id);
        },
    }
}

/// Every stored group can be rebuilt.
pub open spec fn all_collectable(v: SnapshotView) -> bool {
    forall|k: int| 0 <= k < v.groups.len() ==> group_failure(v, (#[trigger] v.groups[k]).id, v.groups.len()) is None
}

/// Writes a light record, the last write winning.
fn put_bulb_record(v: &mut Vec<Bulb>, b: Bulb)
    ensures
        final(v)@ == put_bulb(old(v)@, b),
{
    let mut found = false;
    let mut i: usize = 0;
    while i < v.len()
        invariant
            v@.len() == old(v)@.len(),
            i <= v@.len(),
            forall|j: int| 0 <= j < i ==> #[trigger] v@[j] == replaced_bulb(old(v)@[j], b),
            forall|j: int| i <= j < v@.len() ==> #[trigger] v@[j] == old(v)@[j],
            found == exists|j: int| 0 <= j < i && #[trigger] old(v)@[j]._id == b._id,
        decreases v@.len() - i,
    {
        if v[i]._id == b._id {
            v.set(i, b.clone());
            found = true;
        }
        i = i + 1;
    }
    if found {
        assert(v@ =~= old(v)@.map_values(|x: Bulb| replaced_bulb(x, b)));
    } else {
        assert(v@ =~= old(v)@);
        v.push(b);
    }
}

/// Writes a group record, the last write winning.
fn put_group_record(v: &mut Vec<GroupRecord>, id: Id, name: String)
    ensures
        final(v)@ == put_group(old(v)@, id, name),
{
    let mut found = false;
    let mut i: usize = 0;
    while i < v.len()
        invariant
            v@.len() == old(v)@.len(),
            i <= v@.len(),
            forall|j: int| 0 <= j < i ==> #[trigger] v@[j] == replaced_group(old(v)@[j], id, name),
            forall|j: int| i <= j < v@.len() ==> #[trigger] v@[j] == old(v)@[j],
            found == exists|j: int| 0 <= j < i && same_id(#[trigger] old(v)@[j].id, id),
        decreases v@.len() - i,
    {
        if v[i].id.same(&id) {
            v.set(i, GroupRecord { id: id.clone(), name: name.clone() });
            found = true;
        }
        i = i + 1;
    }
    if found {
        assert(v@ =~= old(v)@.map_values(|x: GroupRecord| replaced_group(x, id, name)));
    } else {
        assert(v@ =~= old(v)@);
        v.push(GroupRecord { id, name });
    }
}

impl Snapshot {
    /// An empty store.
    pub fn new() -> (r: Snapshot)
        ensures
            r@.bulbs.len() == 0,
            r@.groups.len() == 0,
            r@.links.len() == 0,
    {
        Snapshot { bulbs: Vec::new(), groups: Vec::new(), links: Vec::new() }
    }

    /// Performs one write.
    pub fn apply(&mut self, w: Write)
        ensures
            final(self)@ == apply_write(old(self)@, w),
    {
        match w {
            Write::CreateBulb(b) => put_bulb_record(&mut self.bulbs, b),
            Write::CreateGroup(id, name) => put_group_record(&mut self.groups, id, name),
            Write::Relate(from, to) => {
                self.links.push(Link { from, to });
            },
        }
    }

    /// Performs writes in order.
    pub fn apply_all(&mut self, ws: Vec<Write>)
        ensures
            final(self)@ == apply_writes(old(self)@, ws@),
    {
        let ghost all = ws@;
        let mut rest = ws;
        let n = rest.len();
        let mut k: usize = 0;
        while k < n
            invariant
                n == all.len(),
                k <= n,
                rest@ == all.subrange(k as int, n as int),
                self@ == apply_writes(old(self)@, all.subrange(0, k as int)),
            decreases n - k,
        {
            let w = rest.remove(0);
            proof {
                assert(all.subrange(0, k + 1).drop_last() =~= all.subrange(0, k as int));
            }
            self.apply(w);
            k = k + 1;
            proof {
                assert(rest@ =~= all.subrange(k as int, n as int));
            }
        }
        proof {
            assert(all.subrange(0, n as int) =~= all);
        }
    }
}

impl Group {
    /// Rebuilds the group `group_id` from what the store holds: its name, and
    /// for each `collect` edge in order the light's record or the nested
    /// group. Nesting deeper than the number of stored groups is a cycle.
    pub fn collect(group_id: &Id, snap: &Snapshot) -> (r: Result<Group, CollectError>)
        ensures
            match group_failure(snap@, *group_id, snap@.groups.len()) {
                Some(e) => r == Err::<Group, CollectError>(e),
                None => r is Ok && collected(snap@, *group_id, r->Ok_0, snap@.groups.len()),
            },
    {
        collect_from(snap, group_id, snap.groups.len())
    }
}

/// Rebuilds every stored group, in record order; the first failure is returned.
pub fn collect_groups(snap: &Snapshot) -> (r: Result<Vec<Group>, CollectError>)
    ensures
        r is Ok <==> all_collectable(snap@),
        r is Ok ==> r->Ok_0@.len() == snap@.groups.len() && forall|k: int|
            0 <= k < snap@.groups.len() ==> collected(
                snap@,
                (#[trigger] snap@.groups[k]).id,
                r->Ok_0@[k],
                snap@.groups.len(),
            ),
        r is Err ==> exists|k: int|
            0 <= k < snap@.groups.len() && group_failure(snap@, (#[trigger] snap@.groups[k]).id, snap@.groups.len())
                == Some(r->Err_0) && forall|j: int|
                0 <= j < k ==> group_failure(snap@, (#[trigger] snap@.groups[j]).id, snap@.groups.len()) is None,
{
    let mut out: Vec<Group> = Vec::new();
    let mut k: usize = 0;
    while k < snap.groups.len()
        invariant
            k <= snap@.groups.len(),
            out@.len() == k,
            forall|j: int| 0 <= j < k ==> group_failure(snap@, (#[trigger] snap@.groups[j]).id, snap@.groups.len()) is None,
            forall|j: int|
                0 <= j < k ==> collected(snap@, (#[trigger] snap@.groups[j]).id, out@[j], snap@.groups.len()),
        decreases snap@.groups.len() - k,
    {
        match Group::collect(&snap.groups[k].id, snap) {
            Ok(g) => {
                out.push(g);
            },
            Err(e) => {
                return Err(e);
            },
        }
        k = k + 1;
    }
    Ok(out)
}

/// The keys of a sequence of members, in order.
pub open spec fn member_keys(ms: Seq<Member>) -> Seq<Key> {
    ms.map_values(|m: Member| member_key(m))
}

/// How many levels of nested groups lie below a member.
pub open spec fn nesting(m: Member) -> nat
    decreases m,
{
    match m {
        Member::Bulb(_) => 0,
        Member::Group(g) => members_nesting(g.collects@),
    }
}

/// How many levels of nested groups lie below a sequence of members.
pub open spec fn members_nesting(ms: Seq<Member>) -> nat
    decreases ms,
{
    if ms.len() == 0 {
        0
    } else {
        let a = members_nesting(ms.drop_last());
        let b = match ms.last() {
            Member::Bulb(_) => 0,
            Member::Group(_) => 1 + nesting(ms.last()),
        };
        if a >= b {
            a
        } else {
            b
        }
    }
}

/// The store holds a member as its writes lay it out: a light's first record
/// is that light; a group is held as `holds_group` says.
pub open spec fn holds_member(v: SnapshotView, m: Member) -> bool
    decreases m,
{
    match m {
        Member::Bulb(b) => {
            &&& bulb_stored(v.bulbs, b._id)
            &&& forall|i: int| first_bulb_record(v.bulbs, b._id, i) ==> v.bulbs[i] == b
        },
        Member::Group(g) => {
            &&& group_stored(v.groups, g._id)
            &&& forall|i: int| first_group_record(v.groups, g._id, i) ==> v.groups[i].name@ == g.name@
            &&& links_from(v.links, g._id) == member_keys(g.collects@)
            &&& holds_members(v, g.collects@)
        },
    }
}

/// The store holds each of the members.
pub open spec fn holds_members(v: SnapshotView, ms: Seq<Member>) -> bool
    decreases ms,
{
    if ms.len() == 0 {
        true
    } else {
        holds_members(v, ms.drop_last()) && holds_member(v, ms.last())
    }
}

proof fn lemma_holds_index(v: SnapshotView, ms: Seq<Member>, k: int)
    requires
        holds_members(v, ms),
        0 <= k < ms.len(),
    ensures
        holds_member(v, ms[k]),
        ms[k] is Group ==> 1 + nesting(ms[k]) <= members_nesting(ms),
    decreases ms.len(),
{
    if k < ms.len() - 1 {
        lemma_holds_index(v, ms.drop_last(), k);
    }
}

proof fn lemma_no_failure_members(v: SnapshotView, ms: Seq<Member>, fuel: nat)
    requires
        holds_members(v, ms),
        fuel >= members_nesting(ms),
    ensures
        keys_failure(v, member_keys(ms), fuel) is None,
    decreases ms,
{
    if ms.len() > 0 {
        lemma_no_failure_members(v, ms.drop_last(), fuel);
        assert(member_keys(ms).drop_last() =~= member_keys(ms.drop_last()));
        let m = ms.last();
        assert(member_keys(ms).last() == member_key(m));
        assert(holds_member(v, m));
        match m {
            Member::Bulb(_) => {},
            Member::Group(g) => {
                assert(nesting(m) == members_nesting(g.collects@));
                assert(members_nesting(ms) >= 1 + nesting(m));
                lemma_no_failure_group(v, g, (fuel - 1) as nat);
            },
        }
    }
}

proof fn lemma_no_failure_group(v: SnapshotView, g: Group, fuel: nat)
    requires
        holds_member(v, Member::Group(g)),
        fuel >= members_nesting(g.collects@),
    ensures
        group_failure(v, g._id, fuel) is None,
    decreases g,
{
    assert(decreases_to!(g => g.collects));
    assert(decreases_to!(g.collects => g.collects@));
    lemma_no_failure_members(v, g.collects@, fuel);
}

proof fn lemma_has_equal(hs: Seq<Member>, x: Member, k: int)
    requires
        0 <= k < hs.len(),
        member_eq(x, hs[k]),
    ensures
        has_equal(hs, x),
    decreases hs.len(),
{
    if k < hs.len() - 1 {
        lemma_has_equal(hs.drop_last(), x, k);
    }
}

proof fn lemma_equal_in(gs: Seq<Member>, y: Member, k: int)
    requires
        0 <= k < gs.len(),
        member_eq(gs[k], y),
    ensures
        equal_in(gs, y),
    decreases gs.len(),
{
    if k < gs.len() - 1 {
        lemma_equal_in(gs.drop_last(), y, k);
    }
}

proof fn lemma_pointwise_covers(rs: Seq<Member>, gs: Seq<Member>)
    requires
        rs.len() == gs.len(),
        forall|k: int| 0 <= k < rs.len() ==> member_eq(#[trigger] rs[k], gs[k]),
    ensures
        covers(rs, gs),
        covered(rs, gs),
{
    lemma_pointwise_covers_prefix(rs, gs, rs.len() as int);
    lemma_pointwise_covered_prefix(rs, gs, gs.len() as int);
    assert(rs.subrange(0, rs.len() as int) =~= rs);
    assert(gs.subrange(0, gs.len() as int) =~= gs);
}

proof fn lemma_pointwise_covers_prefix(rs: Seq<Member>, gs: Seq<Member>, n: int)
    requires
        rs.len() == gs.len(),
        0 <= n <= rs.len(),
        forall|k: int| 0 <= k < rs.len() ==> member_eq(#[trigger] rs[k], gs[k]),
    ensures
        covers(rs.subrange(0, n), gs),
    decreases n,
{
    if n > 0 {
        lemma_pointwise_covers_prefix(rs, gs, n - 1);
        assert(rs.subrange(0, n).drop_last() =~= rs.subrange(0, n - 1));
        lemma_has_equal(gs, rs[n - 1], n - 1);
    }
}

proof fn lemma_pointwise_covered_prefix(rs: Seq<Member>, gs: Seq<Member>, n: int)
    requires
        rs.len() == gs.len(),
        0 <= n <= gs.len(),
        forall|k: int| 0 <= k < rs.len() ==> member_eq(#[trigger] rs[k], gs[k]),
    ensures
        covered(rs, gs.subrange(0, n)),
    decreases n,
{
    if n > 0 {
        lemma_pointwise_covered_prefix(rs, gs, n - 1);
        assert(gs.subrange(0, n).drop_last() =~= gs.subrange(0, n - 1));
        lemma_equal_in(rs, gs[n - 1], n - 1);
    }
}

/// A store that holds a group as its writes lay it out gives the group back:
/// rebuilding it cannot fail within enough levels of nesting, and what is
/// rebuilt equals the group (same identifier, name and members).
pub proof fn lemma_collect_held_group(v: SnapshotView, g: Group, r: Group, fuel: nat)
    requires
        holds_member(v, Member::Group(g)),
        fuel >= members_nesting(g.collects@),
    ensures
        group_failure(v, g._id, fuel) is None,
        collected(v, g._id, r, fuel) ==> group_eq(r, g),
    decreases g,
{
    lemma_no_failure_group(v, g, fuel);
    if collected(v, g._id, r, fuel) {
        let ks = links_from(v.links, g._id);
        assert forall|k: int| 0 <= k < r.collects@.len() implies member_eq(
            #[trigger] r.collects@[k],
            g.collects@[k],
        ) by {
            assert(ks[k] == member_key(g.collects@[k]));
            lemma_holds_index(v, g.collects@, k);
            match g.collects@[k] {
                Member::Bulb(b) => {
                    let i = choose|i: int| 0 <= i < v.bulbs.len() && #[trigger] v.bulbs[i]._id == b._id;
                    let i0 = first_index_of_bulb(v.bulbs, b._id, i);
                    assert(r.collects@[k]->Bulb_0 == v.bulbs[i0]);
                },
                Member::Group(h) => {
                    assert(decreases_to!(g => g.collects));
                    assert(decreases_to!(g.collects => g.collects@));
                    assert(decreases_to!(g.collects@ => g.collects@[k]));
                    lemma_collect_held_group(v, h, r.collects@[k]->Group_0, (fuel - 1) as nat);
                },
            }
        }
        lemma_pointwise_covers(r.collects@, g.collects@);
        let j = choose|j: int| 0 <= j < v.groups.len() && same_id(#[trigger] v.groups[j].id, g._id);
        let j0 = first_index_of_group(v.groups, g._id, j);
        lemma_same_id_equivalence(g._id, g._id, g._id);
    }
}

/// The first stored light with id `n`, given one at position `i`.
proof fn first_index_of_bulb(s: Seq<Bulb>, n: u32, i: int) -> (r: int)
    requires
        0 <= i < s.len(),
        s[i]._id == n,
    ensures
        first_bulb_record(s, n, r),
    decreases i,
{
    if exists|j: int| 0 <= j < i && #[trigger] s[j]._id == n {
        let j = choose|j: int| 0 <= j < i && #[trigger] s[j]._id == n;
        first_index_of_bulb(s, n, j)
    } else {
        i
    }
}

/// The first stored group with an identifier the same as `id`, given one at position `i`.
proof fn first_index_of_group(s: Seq<GroupRecord>, id: Id, i: int) -> (r: int)
    requires
        0 <= i < s.len(),
        same_id(s[i].id, id),
    ensures
        first_group_record(s, id, r),
    decreases i,
{
    if exists|j: int| 0 <= j < i && same_id(#[trigger] s[j].id, id) {
        let j = choose|j: int| 0 <= j < i && same_id(#[trigger] s[j].id, id);
        first_index_of_group(s, id, j)
    } else {
        i
    }
}

} // verus!
