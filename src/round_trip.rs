//! Persisting a group and rebuilding it: the writes of a group whose keys
//! are distinct leave a store holding it, so `collect` gives it back.
use vstd::prelude::*;
use crate::bulb::Bulb;
use crate::group::{group_eq, lemma_same_id_equivalence, same_id, Group, Id, Member};
use crate::store::{
    put_bulb, apply_write, apply_writes, bulb_stored, collected, first_bulb_record, first_group_record, group_failure,
    group_stored, group_writes, holds_member, holds_members, lemma_apply_writes_concat, lemma_collect_held_group,
    links_from, member_key, member_keys, member_writes, members_nesting, members_writes, nesting, GroupRecord, Link,
    SnapshotView, Write,
};

verus! {

/// The identifiers of the groups in a member's tree, the member first.
pub open spec fn member_group_ids(m: Member) -> Seq<Id>
    decreases m,
{
    match m {
        Member::Bulb(_) => Seq::empty(),
        Member::Group(g) => seq![g._id] + members_group_ids(g.collects@),
    }
}

/// The identifiers of the groups in the trees of a sequence of members.
pub open spec fn members_group_ids(ms: Seq<Member>) -> Seq<Id>
    decreases ms,
{
    if ms.len() == 0 {
        Seq::empty()
    } else {
        members_group_ids(ms.drop_last()) + member_group_ids(ms.last())
    }
}

/// The ids of the lights in a member's tree.
pub open spec fn member_bulb_ids(m: Member) -> Seq<u32>
    decreases m,
{
    match m {
        Member::Bulb(b) => seq![b._id],
        Member::Group(g) => members_bulb_ids(g.collects@),
    }
}

/// The ids of the lights in the trees of a sequence of members.
pub open spec fn members_bulb_ids(ms: Seq<Member>) -> Seq<u32>
    decreases ms,
{
    if ms.len() == 0 {
        Seq::empty()
    } else {
        members_bulb_ids(ms.drop_last()) + member_bulb_ids(ms.last())
    }
}

/// No two of the identifiers are the same.
pub open spec fn ids_apart(s: Seq<Id>) -> bool {
    forall|i: int, j: int| 0 <= i < s.len() && 0 <= j < s.len() && i != j ==> !same_id(#[trigger] s[i], #[trigger] s[j])
}

/// Some identifier of `s` is the same as `id`.
pub open spec fn id_in(s: Seq<Id>, id: Id) -> bool {
    exists|k: int| 0 <= k < s.len() && same_id(#[trigger] s[k], id)
}

/// The store holds no record of, and no edge from, any of the groups.
pub open spec fn fresh_groups(v: SnapshotView, ids: Seq<Id>) -> bool {
    forall|id: Id| #[trigger] id_in(ids, id) ==> !group_stored(v.groups, id) && links_from(v.links, id) == Seq::<crate::store::Key>::empty()
}

/// `w` holds what `v` holds, possibly followed by more, except that light
/// records under the ids `ns` may have been written over in place; records
/// added after `v`'s are under those ids.
pub open spec fn extends(v: SnapshotView, w: SnapshotView, ns: Seq<u32>) -> bool {
    &&& v.bulbs.len() <= w.bulbs.len()
    &&& forall|j: int|
        0 <= j < v.bulbs.len() ==> (#[trigger] w.bulbs[j])._id == v.bulbs[j]._id && (!ns.contains(v.bulbs[j]._id)
            ==> w.bulbs[j] == v.bulbs[j])
    &&& forall|j: int| v.bulbs.len() <= j < w.bulbs.len() ==> ns.contains((#[trigger] w.bulbs[j])._id)
    &&& v.groups.len() <= w.groups.len()
    &&& w.groups.subrange(0, v.groups.len() as int) == v.groups
    &&& v.links.len() <= w.links.len()
    &&& w.links.subrange(0, v.links.len() as int) == v.links
}

/// What the writes of a member may change: records and edges of its own tree only.
pub open spec fn framed(v: SnapshotView, w: SnapshotView, gids: Seq<Id>, bids: Seq<u32>) -> bool {
    &&& extends(v, w, bids)
    &&& forall|id: Id| !#[trigger] id_in(gids, id) ==> links_from(w.links, id) == links_from(v.links, id)
        && group_stored(w.groups, id) == group_stored(v.groups, id)
    &&& forall|n: u32| !#[trigger] bids.contains(n) ==> bulb_stored(w.bulbs, n) == bulb_stored(v.bulbs, n)
    &&& w.groups.len() == v.groups.len() + gids.len()
}

proof fn lemma_extends_trans(
    a: SnapshotView,
    b: SnapshotView,
    c: SnapshotView,
    ns1: Seq<u32>,
    ns2: Seq<u32>,
    ns: Seq<u32>,
)
    requires
        extends(a, b, ns1),
        extends(b, c, ns2),
        forall|n: u32| ns1.contains(n) || ns2.contains(n) ==> #[trigger] ns.contains(n),
    ensures
        extends(a, c, ns),
{
    assert forall|j: int| 0 <= j < a.bulbs.len() implies (#[trigger] c.bulbs[j])._id == a.bulbs[j]._id && (!ns.contains(
        a.bulbs[j]._id,
    ) ==> c.bulbs[j] == a.bulbs[j]) by {
        assert(c.bulbs[j]._id == b.bulbs[j]._id);
    }
    assert forall|j: int| a.bulbs.len() <= j < c.bulbs.len() implies ns.contains((#[trigger] c.bulbs[j])._id) by {
        if j < b.bulbs.len() {
            assert(ns1.contains(b.bulbs[j]._id));
        } else {
            assert(ns2.contains(c.bulbs[j]._id));
        }
    }
    assert(c.groups.subrange(0, a.groups.len() as int) =~= b.groups.subrange(0, a.groups.len() as int));
    assert(c.links.subrange(0, a.links.len() as int) =~= b.links.subrange(0, a.links.len() as int));
}

proof fn lemma_extends_refl(a: SnapshotView)
    ensures
        extends(a, a, Seq::empty()),
{
    assert(a.groups.subrange(0, a.groups.len() as int) =~= a.groups);
    assert(a.links.subrange(0, a.links.len() as int) =~= a.links);
}

proof fn lemma_bulb_record_kept(v: SnapshotView, w: SnapshotView, ns: Seq<u32>, n: u32)
    requires
        extends(v, w, ns),
        !ns.contains(n),
        bulb_stored(v.bulbs, n),
    ensures
        bulb_stored(w.bulbs, n),
        forall|i: int| first_bulb_record(w.bulbs, n, i) ==> first_bulb_record(v.bulbs, n, i) && w.bulbs[i] == v.bulbs[i],
{
    let j = choose|j: int| 0 <= j < v.bulbs.len() && #[trigger] v.bulbs[j]._id == n;
    assert(w.bulbs[j] == v.bulbs[j]);
    assert forall|i: int| first_bulb_record(w.bulbs, n, i) implies first_bulb_record(v.bulbs, n, i) && w.bulbs[i] == v.bulbs[i] by {
        if i > j {
            assert(w.bulbs[j]._id == n);
        }
        assert(i <= j);
        assert(w.bulbs[i]._id == v.bulbs[i]._id);
        assert forall|k: int| 0 <= k < i implies (#[trigger] v.bulbs[k])._id != n by {
            assert(w.bulbs[k]._id == v.bulbs[k]._id);
        }
    }
}

proof fn lemma_group_record_kept(v: SnapshotView, w: SnapshotView, ns: Seq<u32>, id: Id)
    requires
        extends(v, w, ns),
        group_stored(v.groups, id),
    ensures
        group_stored(w.groups, id),
        forall|i: int| first_group_record(w.groups, id, i) ==> first_group_record(v.groups, id, i) && w.groups[i] == v.groups[i],
{
    let j = choose|j: int| 0 <= j < v.groups.len() && same_id(#[trigger] v.groups[j].id, id);
    assert(w.groups[j] == w.groups.subrange(0, v.groups.len() as int)[j]);
    assert forall|i: int| first_group_record(w.groups, id, i) implies first_group_record(v.groups, id, i) && w.groups[i] == v.groups[i] by {
        if i > j {
            assert(same_id(w.groups[j].id, id));
        }
        assert(i <= j);
        assert(w.groups[i] == w.groups.subrange(0, v.groups.len() as int)[i]);
        assert forall|k: int| 0 <= k < i implies !same_id((#[trigger] v.groups[k]).id, id) by {
            assert(w.groups[k] == w.groups.subrange(0, v.groups.len() as int)[k]);
        }
    }
}

proof fn lemma_id_in_concat(a: Seq<Id>, b: Seq<Id>, id: Id)
    ensures
        id_in(a + b, id) == (id_in(a, id) || id_in(b, id)),
{
    if id_in(a + b, id) {
        let k = choose|k: int| 0 <= k < (a + b).len() && same_id(#[trigger] (a + b)[k], id);
        if k < a.len() {
            assert(same_id(a[k], id));
        } else {
            assert(same_id(b[k - a.len()], id));
        }
    }
    if id_in(a, id) {
        let k = choose|k: int| 0 <= k < a.len() && same_id(#[trigger] a[k], id);
        assert(same_id((a + b)[k], id));
    }
    if id_in(b, id) {
        let k = choose|k: int| 0 <= k < b.len() && same_id(#[trigger] b[k], id);
        assert(same_id((a + b)[a.len() + k], id));
    }
}

proof fn lemma_apart_concat(a: Seq<Id>, b: Seq<Id>)
    requires
        ids_apart(a + b),
    ensures
        ids_apart(a),
        ids_apart(b),
        forall|id: Id| id_in(a, id) ==> !#[trigger] id_in(b, id),
{
    assert forall|i: int, j: int| 0 <= i < a.len() && 0 <= j < a.len() && i != j implies !same_id(#[trigger] a[i], #[trigger] a[j]) by {
        assert((a + b)[i] == a[i] && (a + b)[j] == a[j]);
    }
    assert forall|i: int, j: int| 0 <= i < b.len() && 0 <= j < b.len() && i != j implies !same_id(#[trigger] b[i], #[trigger] b[j]) by {
        assert((a + b)[a.len() + i] == b[i] && (a + b)[a.len() + j] == b[j]);
    }
    assert forall|id: Id| id_in(a, id) implies !#[trigger] id_in(b, id) by {
        if id_in(b, id) {
            let i = choose|k: int| 0 <= k < a.len() && same_id(#[trigger] a[k], id);
            let j = choose|k: int| 0 <= k < b.len() && same_id(#[trigger] b[k], id);
            lemma_same_id_equivalence(b[j], id, id);
            lemma_same_id_equivalence(id, b[j], b[j]);
            lemma_same_id_equivalence(a[i], id, b[j]);
            assert((a + b)[i] == a[i] && (a + b)[a.len() + j] == b[j]);
        }
    }
}

proof fn lemma_no_dup_concat(a: Seq<u32>, b: Seq<u32>)
    requires
        (a + b).no_duplicates(),
    ensures
        a.no_duplicates(),
        b.no_duplicates(),
        forall|n: u32| a.contains(n) ==> !#[trigger] b.contains(n),
{
    assert forall|i: int, j: int| 0 <= i < a.len() && 0 <= j < a.len() && i != j implies a[i] != a[j] by {
        assert((a + b)[i] == a[i] && (a + b)[j] == a[j]);
    }
    assert forall|i: int, j: int| 0 <= i < b.len() && 0 <= j < b.len() && i != j implies b[i] != b[j] by {
        assert((a + b)[a.len() + i] == b[i] && (a + b)[a.len() + j] == b[j]);
    }
    assert forall|n: u32| a.contains(n) implies !#[trigger] b.contains(n) by {
        if b.contains(n) {
            let i = choose|k: int| 0 <= k < a.len() && a[k] == n;
            let j = choose|k: int| 0 <= k < b.len() && b[k] == n;
            assert((a + b)[i] == a[i] && (a + b)[a.len() + j] == b[j]);
        }
    }
}

#[verifier::rlimit(40)]
proof fn lemma_holds_kept(v: SnapshotView, w: SnapshotView, ns: Seq<u32>, m: Member)
    requires
        holds_member(v, m),
        extends(v, w, ns),
        forall|n: u32| #[trigger] member_bulb_ids(m).contains(n) ==> !ns.contains(n),
        forall|id: Id| #[trigger] id_in(member_group_ids(m), id) ==> links_from(w.links, id) == links_from(v.links, id),
    ensures
        holds_member(w, m),
    decreases m,
{
    match m {
        Member::Bulb(b) => {
            assert(member_bulb_ids(m).contains(b._id)) by {
                assert(member_bulb_ids(m)[0] == b._id);
            }
            lemma_bulb_record_kept(v, w, ns, b._id);
        },
        Member::Group(g) => {
            lemma_group_record_kept(v, w, ns, g._id);
            assert(member_bulb_ids(m) == members_bulb_ids(g.collects@));
            lemma_same_id_equivalence(g._id, g._id, g._id);
            lemma_id_in_concat(seq![g._id], members_group_ids(g.collects@), g._id);
            assert(id_in(seq![g._id], g._id)) by {
                assert(same_id(seq![g._id][0], g._id));
            }
            assert(member_group_ids(m) == seq![g._id] + members_group_ids(g.collects@));
            assert forall|id: Id| #[trigger] id_in(members_group_ids(g.collects@), id) implies links_from(w.links, id)
                == links_from(v.links, id) by {
                lemma_id_in_concat(seq![g._id], members_group_ids(g.collects@), id);
                assert(id_in(member_group_ids(m), id));
            }
            assert(id_in(member_group_ids(m), g._id));
            lemma_holds_members_kept(v, w, ns, g.collects@);
        },
    }
}

proof fn lemma_holds_members_kept(v: SnapshotView, w: SnapshotView, ns: Seq<u32>, ms: Seq<Member>)
    requires
        holds_members(v, ms),
        extends(v, w, ns),
        forall|n: u32| #[trigger] members_bulb_ids(ms).contains(n) ==> !ns.contains(n),
        forall|id: Id| #[trigger] id_in(members_group_ids(ms), id) ==> links_from(w.links, id) == links_from(v.links, id),
    ensures
        holds_members(w, ms),
    decreases ms,
{
    if ms.len() > 0 {
        assert(members_group_ids(ms) == members_group_ids(ms.drop_last()) + member_group_ids(ms.last()));
        assert forall|id: Id| #[trigger] id_in(members_group_ids(ms.drop_last()), id) implies links_from(w.links, id)
            == links_from(v.links, id) by {
            lemma_id_in_concat(members_group_ids(ms.drop_last()), member_group_ids(ms.last()), id);
            assert(id_in(members_group_ids(ms), id));
        }
        assert forall|id: Id| #[trigger] id_in(member_group_ids(ms.last()), id) implies links_from(w.links, id)
            == links_from(v.links, id) by {
            lemma_id_in_concat(members_group_ids(ms.drop_last()), member_group_ids(ms.last()), id);
            assert(id_in(members_group_ids(ms), id));
        }
        let pb = members_bulb_ids(ms.drop_last());
        let lb = member_bulb_ids(ms.last());
        assert(members_bulb_ids(ms) == pb + lb);
        assert forall|n: u32| #[trigger] pb.contains(n) implies !ns.contains(n) by {
            let k = choose|k: int| 0 <= k < pb.len() && pb[k] == n;
            assert((pb + lb)[k] == n);
            assert(members_bulb_ids(ms).contains(n));
        }
        assert forall|n: u32| #[trigger] lb.contains(n) implies !ns.contains(n) by {
            let k = choose|k: int| 0 <= k < lb.len() && lb[k] == n;
            assert((pb + lb)[pb.len() + k] == n);
            assert(members_bulb_ids(ms).contains(n));
        }
        lemma_holds_members_kept(v, w, ns, ms.drop_last());
        lemma_holds_kept(v, w, ns, ms.last());
    }
}

proof fn lemma_links_push(links: Seq<Link>, l: Link, id: Id)
    ensures
        links_from(links.push(l), id) == if same_id(l.from, id) {
            links_from(links, id).push(l.to)
        } else {
            links_from(links, id)
        },
{
    assert(links.push(l).drop_last() =~= links);
}

proof fn lemma_extends_push(v: SnapshotView, w: SnapshotView)
    requires
        w.bulbs == v.bulbs,
        w.groups == v.groups || w.groups == v.groups.push(w.groups.last()),
        w.links == v.links || w.links == v.links.push(w.links.last()),
    ensures
        extends(v, w, Seq::empty()),
{
    assert(w.groups.subrange(0, v.groups.len() as int) =~= v.groups);
    assert(w.links.subrange(0, v.links.len() as int) =~= v.links);
}

proof fn lemma_member_writes(v0: SnapshotView, m: Member)
    requires
        fresh_groups(v0, member_group_ids(m)),
        ids_apart(member_group_ids(m)),
        member_bulb_ids(m).no_duplicates(),
    ensures
        holds_member(apply_writes(v0, member_writes(m)), m),
        framed(v0, apply_writes(v0, member_writes(m)), member_group_ids(m), member_bulb_ids(m)),
    decreases m,
{
    let w = apply_writes(v0, member_writes(m));
    match m {
        Member::Bulb(b) => {
            crate::store::lemma_single_write(v0, Write::CreateBulb(b));
            let ns = member_bulb_ids(m);
            assert(ns == seq![b._id]);
            assert(ns.contains(b._id)) by {
                assert(ns[0] == b._id);
            }
            assert(w.bulbs == put_bulb(v0.bulbs, b));
            assert forall|k: int| 0 <= k < w.bulbs.len() && (#[trigger] w.bulbs[k])._id == b._id implies w.bulbs[k] == b by {
                if k < v0.bulbs.len() && !bulb_stored(v0.bulbs, b._id) {
                    assert(w.bulbs[k] == v0.bulbs[k]);
                }
            }
            if bulb_stored(v0.bulbs, b._id) {
                let j = choose|j: int| 0 <= j < v0.bulbs.len() && #[trigger] v0.bulbs[j]._id == b._id;
                assert(w.bulbs[j]._id == b._id);
            } else {
                assert(w.bulbs[v0.bulbs.len() as int]._id == b._id);
            }
            assert forall|j: int| 0 <= j < v0.bulbs.len() implies (#[trigger] w.bulbs[j])._id == v0.bulbs[j]._id && (
            !ns.contains(v0.bulbs[j]._id) ==> w.bulbs[j] == v0.bulbs[j]) by {
                if v0.bulbs[j]._id != b._id {
                    assert(!ns.contains(b._id) || true);
                }
            }
            assert forall|j: int| v0.bulbs.len() <= j < w.bulbs.len() implies ns.contains((#[trigger] w.bulbs[j])._id) by {}
            assert(w.groups.subrange(0, v0.groups.len() as int) =~= v0.groups);
            assert(w.links.subrange(0, v0.links.len() as int) =~= v0.links);
            assert(extends(v0, w, ns));
            assert forall|n: u32| !#[trigger] ns.contains(n) implies bulb_stored(w.bulbs, n) == bulb_stored(v0.bulbs, n) by {
                assert(n != b._id);
                if bulb_stored(w.bulbs, n) {
                    let k = choose|k: int| 0 <= k < w.bulbs.len() && #[trigger] w.bulbs[k]._id == n;
                    assert(k < v0.bulbs.len());
                    assert(v0.bulbs[k]._id == n);
                }
                if bulb_stored(v0.bulbs, n) {
                    let k = choose|k: int| 0 <= k < v0.bulbs.len() && #[trigger] v0.bulbs[k]._id == n;
                    assert(w.bulbs[k]._id == n);
                }
            }
            assert forall|id: Id| !#[trigger] id_in(member_group_ids(m), id) implies links_from(w.links, id) == links_from(v0.links, id)
                && group_stored(w.groups, id) == group_stored(v0.groups, id) by {}
        },
        Member::Group(g) => {
            let gs = g.collects@;
            let c = Write::CreateGroup(g._id, g.name);
            let ids = member_group_ids(m);
            let cids = members_group_ids(gs);
            assert(ids == seq![g._id] + cids);
            assert(member_bulb_ids(m) == members_bulb_ids(gs));
            lemma_same_id_equivalence(g._id, g._id, g._id);
            assert(id_in(seq![g._id], g._id)) by {
                assert(same_id(seq![g._id][0], g._id));
            }
            lemma_id_in_concat(seq![g._id], cids, g._id);
            lemma_apart_concat(seq![g._id], cids);
            assert(!id_in(cids, g._id));
            crate::store::lemma_single_write(v0, c);
            let v1 = apply_writes(v0, seq![c]);
            assert(!group_stored(v0.groups, g._id));
            assert(v1.groups == v0.groups.push(GroupRecord { id: g._id, name: g.name }));
            assert(v1.bulbs == v0.bulbs && v1.links == v0.links);
            lemma_extends_push(v0, v1);
            assert forall|id: Id| #[trigger] id_in(cids, id) implies !group_stored(v1.groups, id) && links_from(v1.links, id)
                == Seq::<crate::store::Key>::empty() by {
                lemma_id_in_concat(seq![g._id], cids, id);
                assert(id_in(ids, id));
                if same_id(g._id, id) {
                    lemma_same_id_equivalence(g._id, id, id);
                    lemma_same_id_equivalence(id, g._id, g._id);
                    let k = choose|k: int| 0 <= k < cids.len() && same_id(#[trigger] cids[k], id);
                    lemma_same_id_equivalence(cids[k], id, g._id);
                    assert(id_in(cids, g._id));
                }
                if group_stored(v1.groups, id) {
                    let k = choose|k: int| 0 <= k < v1.groups.len() && same_id(#[trigger] v1.groups[k].id, id);
                    if k < v0.groups.len() {
                        assert(same_id(v0.groups[k].id, id));
                    }
                }
            }
            assert(decreases_to!(m => g));
            assert(decreases_to!(g => g.collects));
            assert(decreases_to!(g.collects => g.collects@));
            lemma_members_writes(v1, g._id, gs);
            lemma_apply_writes_concat(v0, seq![c], members_writes(g._id, gs));
            assert(member_writes(m) == seq![c] + members_writes(g._id, gs));
            assert(w == apply_writes(v1, members_writes(g._id, gs)));
            lemma_extends_trans(v0, v1, w, Seq::empty(), members_bulb_ids(gs), member_bulb_ids(m));
            assert(same_id(v1.groups[v0.groups.len() as int].id, g._id));
            lemma_group_record_kept(v1, w, members_bulb_ids(gs), g._id);
            assert forall|i: int| first_group_record(w.groups, g._id, i) implies w.groups[i].name@ == g.name@ by {
                if i < v0.groups.len() {
                    assert(v1.groups[i] == v0.groups[i]);
                    assert(same_id(v0.groups[i].id, g._id));
                }
            }
            assert(links_from(v0.links, g._id) == Seq::<crate::store::Key>::empty());
            assert(links_from(w.links, g._id) =~= member_keys(gs));
            assert forall|id: Id| !#[trigger] id_in(ids, id) implies links_from(w.links, id) == links_from(v0.links, id)
                && group_stored(w.groups, id) == group_stored(v0.groups, id) by {
                lemma_id_in_concat(seq![g._id], cids, id);
                if same_id(g._id, id) {
                    assert(same_id(seq![g._id][0], id));
                }
                assert(!same_id(g._id, id));
                if group_stored(v1.groups, id) {
                    let k = choose|k: int| 0 <= k < v1.groups.len() && same_id(#[trigger] v1.groups[k].id, id);
                    if k < v0.groups.len() {
                        assert(same_id(v0.groups[k].id, id));
                    }
                }
                if group_stored(v0.groups, id) {
                    let k = choose|k: int| 0 <= k < v0.groups.len() && same_id(#[trigger] v0.groups[k].id, id);
                    assert(same_id(v1.groups[k].id, id));
                }
            }
        },
    }
}

proof fn lemma_members_writes(v1: SnapshotView, owner: Id, ms: Seq<Member>)
    requires
        fresh_groups(v1, members_group_ids(ms)),
        ids_apart(members_group_ids(ms)),
        members_bulb_ids(ms).no_duplicates(),
        !id_in(members_group_ids(ms), owner),
    ensures
        ({
            let w = apply_writes(v1, members_writes(owner, ms));
            &&& holds_members(w, ms)
            &&& links_from(w.links, owner) == links_from(v1.links, owner) + member_keys(ms)
            &&& extends(v1, w, members_bulb_ids(ms))
            &&& forall|id: Id| !#[trigger] id_in(members_group_ids(ms), id) ==> group_stored(w.groups, id) == group_stored(v1.groups, id)
            &&& forall|id: Id| !#[trigger] id_in(members_group_ids(ms), id) && !same_id(owner, id) ==> links_from(w.links, id)
                == links_from(v1.links, id)
            &&& forall|n: u32| !#[trigger] members_bulb_ids(ms).contains(n) ==> bulb_stored(w.bulbs, n) == bulb_stored(v1.bulbs, n)
            &&& w.groups.len() == v1.groups.len() + members_group_ids(ms).len()
        }),
    decreases ms,
{
    let w = apply_writes(v1, members_writes(owner, ms));
    if ms.len() == 0 {
        assert(w == v1);
        lemma_extends_refl(v1);
        assert(links_from(v1.links, owner) + member_keys(ms) =~= links_from(v1.links, owner));
    } else {
        let pre = ms.drop_last();
        let l = ms.last();
        let pids = members_group_ids(pre);
        let lids = member_group_ids(l);
        let pb = members_bulb_ids(pre);
        let lb = member_bulb_ids(l);
        assert(members_group_ids(ms) == pids + lids);
        assert(members_bulb_ids(ms) == pb + lb);
        lemma_apart_concat(pids, lids);
        lemma_no_dup_concat(pb, lb);
        assert forall|id: Id| #[trigger] id_in(pids, id) implies !group_stored(v1.groups, id) && links_from(v1.links, id)
            == Seq::<crate::store::Key>::empty() by {
            lemma_id_in_concat(pids, lids, id);
            assert(id_in(members_group_ids(ms), id));
        }
        lemma_id_in_concat(pids, lids, owner);
        lemma_members_writes(v1, owner, pre);
        let u = apply_writes(v1, members_writes(owner, pre));
        assert forall|id: Id| #[trigger] id_in(lids, id) implies !group_stored(u.groups, id) && links_from(u.links, id)
            == Seq::<crate::store::Key>::empty() by {
            lemma_id_in_concat(pids, lids, id);
            assert(id_in(members_group_ids(ms), id));
            assert(!id_in(pids, id));
            if same_id(owner, id) {
                let k = choose|k: int| 0 <= k < lids.len() && same_id(#[trigger] lids[k], id);
                lemma_same_id_equivalence(lids[k], id, owner);
                lemma_same_id_equivalence(owner, id, id);
                assert(same_id(lids[k], owner));
                assert(id_in(lids, owner));
            }
        }
        lemma_member_writes(u, l);
        let x = apply_writes(u, member_writes(l));
        let r = Write::Relate(owner, member_key(l));
        let y = apply_write(x, r);
        crate::store::lemma_single_write(x, r);
        lemma_apply_writes_concat(v1, members_writes(owner, pre), member_writes(l));
        lemma_apply_writes_concat(v1, members_writes(owner, pre) + member_writes(l), seq![r]);
        assert(members_writes(owner, ms) == members_writes(owner, pre) + member_writes(l) + seq![r]);
        assert(w == y);
        assert(y.links == x.links.push(Link { from: owner, to: member_key(l) }));
        lemma_extends_push(x, y);
        assert forall|n: u32| pb.contains(n) || lb.contains(n) implies #[trigger] (pb + lb).contains(n) by {
            if pb.contains(n) {
                let k = choose|k: int| 0 <= k < pb.len() && pb[k] == n;
                assert((pb + lb)[k] == n);
            } else {
                let k = choose|k: int| 0 <= k < lb.len() && lb[k] == n;
                assert((pb + lb)[pb.len() + k] == n);
            }
        }
        lemma_extends_trans(u, x, y, lb, Seq::empty(), lb);
        lemma_extends_trans(v1, u, y, pb, lb, pb + lb);
        assert forall|id: Id| #[trigger] id_in(lids, id) implies links_from(y.links, id) == links_from(x.links, id) by {
            lemma_links_push(x.links, Link { from: owner, to: member_key(l) }, id);
            if same_id(owner, id) {
                let k = choose|k: int| 0 <= k < lids.len() && same_id(#[trigger] lids[k], id);
                lemma_same_id_equivalence(lids[k], id, owner);
                lemma_same_id_equivalence(owner, id, id);
                assert(id_in(lids, owner));
            }
        }
        lemma_holds_kept(x, y, Seq::empty(), l);
        assert forall|id: Id| #[trigger] id_in(pids, id) implies links_from(y.links, id) == links_from(u.links, id) by {
            lemma_links_push(x.links, Link { from: owner, to: member_key(l) }, id);
            assert(!id_in(lids, id));
            if same_id(owner, id) {
                let k = choose|k: int| 0 <= k < pids.len() && same_id(#[trigger] pids[k], id);
                lemma_same_id_equivalence(pids[k], id, owner);
                lemma_same_id_equivalence(owner, id, id);
                assert(id_in(pids, owner));
            }
        }
        lemma_holds_members_kept(u, y, lb, pre);
        lemma_links_push(x.links, Link { from: owner, to: member_key(l) }, owner);
        lemma_same_id_equivalence(owner, owner, owner);
        assert(links_from(x.links, owner) == links_from(u.links, owner));
        assert(member_keys(ms) =~= member_keys(pre).push(member_key(l)));
        assert(links_from(y.links, owner) =~= links_from(v1.links, owner) + member_keys(ms));
        assert forall|id: Id| !#[trigger] id_in(members_group_ids(ms), id) implies group_stored(w.groups, id) == group_stored(v1.groups, id) by {
            lemma_id_in_concat(pids, lids, id);
        }
        assert forall|id: Id| !#[trigger] id_in(members_group_ids(ms), id) && !same_id(owner, id) implies links_from(w.links, id)
            == links_from(v1.links, id) by {
            lemma_id_in_concat(pids, lids, id);
            lemma_links_push(x.links, Link { from: owner, to: member_key(l) }, id);
        }
        assert forall|n: u32| !#[trigger] members_bulb_ids(ms).contains(n) implies bulb_stored(w.bulbs, n) == bulb_stored(v1.bulbs, n) by {
            if pb.contains(n) {
                let k = choose|k: int| 0 <= k < pb.len() && pb[k] == n;
                assert((pb + lb)[k] == n);
            }
            if lb.contains(n) {
                let k = choose|k: int| 0 <= k < lb.len() && lb[k] == n;
                assert((pb + lb)[pb.len() + k] == n);
            }
        }
    }
}

proof fn lemma_nesting_bound(m: Member)
    ensures
        m is Group ==> 1 + nesting(m) <= member_group_ids(m).len(),
    decreases m,
{
    match m {
        Member::Bulb(_) => {},
        Member::Group(g) => {
            lemma_members_nesting_bound(g.collects@);
        },
    }
}

proof fn lemma_members_nesting_bound(ms: Seq<Member>)
    ensures
        members_nesting(ms) <= members_group_ids(ms).len(),
    decreases ms,
{
    if ms.len() > 0 {
        lemma_members_nesting_bound(ms.drop_last());
        lemma_nesting_bound(ms.last());
    }
}

/// Storing a group and rebuilding it gives back an equal group, when no two
/// groups in its tree share an identifier, no two lights share an id, and
/// the store holds no record of, and no edge from, any group of the tree.
/// Records of its lights may already be stored: they are written over. The
/// rebuild cannot fail, and whatever it returns equals the group (same
/// identifier and name, same members in any order).
pub proof fn lemma_store_then_collect(v0: SnapshotView, g: Group, r: Group)
    requires
        ids_apart(member_group_ids(Member::Group(g))),
        member_bulb_ids(Member::Group(g)).no_duplicates(),
        fresh_groups(v0, member_group_ids(Member::Group(g))),
    ensures
        ({
            let v = apply_writes(v0, group_writes(g));
            &&& group_failure(v, g._id, v.groups.len()) is None
            &&& collected(v, g._id, r, v.groups.len()) ==> group_eq(r, g)
        }),
{
    let m = Member::Group(g);
    lemma_member_writes(v0, m);
    assert(member_writes(m) == group_writes(g));
    let v = apply_writes(v0, group_writes(g));
    lemma_nesting_bound(m);
    assert(nesting(m) == members_nesting(g.collects@));
    lemma_collect_held_group(v, g, r, v.groups.len());
}

} // verus!
