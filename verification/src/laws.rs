//! The laws of the reconciliation engine: what every pass guarantees
//! about identifiers, preservation and removal, stated over the
//! engine's own model and proved once for all inputs.

use vstd::prelude::*;
use crate::records::GroupEntryV;
use crate::records::PasswdEntryV;
use crate::records::ShadowEntryV;
use crate::engine::GroupSpecV;
use crate::engine::IdMapEntryV;
use crate::engine::WarningV;
use crate::engine::UserSpecV;
use crate::engine::declared_group_names;
use crate::engine::declared_user_names;
use crate::engine::group_gids;
use crate::engine::group_names;
use crate::engine::group_spec_names;
use crate::engine::groups_pass1;
use crate::engine::has_dup_names;
use crate::engine::kept_groups;
use crate::engine::kept_users;
use crate::engine::lookup_group;
use crate::engine::lookup_passwd;
use crate::engine::lookup_shadow;
use crate::engine::resolve_password;
use crate::engine::shadow_of;
use crate::engine::users_pass1;
use crate::engine::user_spec_names;
use crate::engine::kept_shadows;
use crate::engine::passwd_names;
use crate::engine::passwd_uids;
use crate::engine::merge_members;
use crate::idalloc::IdKind;
use crate::idalloc::ceiling_of;
use crate::idalloc::floor_of;

verus! {

proof fn lemma_contains_append<A>(a: Seq<A>, b: Seq<A>, x: A)
    requires
        a.contains(x),
    ensures
        (a + b).contains(x),
{
    let i = choose|i: int| 0 <= i < a.len() && a[i] == x;
    assert((a + b)[i] == x);
}

/// A name that occurs first at index `i` is what the lookup finds.
proof fn lemma_lookup_first(gs: Seq<GroupEntryV>, i: int)
    requires
        0 <= i < gs.len(),
        forall|j: int| 0 <= j < i ==> (#[trigger] gs[j]).name != gs[i].name,
    ensures
        lookup_group(gs, gs[i].name) == Some(gs[i]),
    decreases i,
{
    if i > 0 {
        assert(gs[0].name != gs[i].name);
        assert(forall|j: int|
            0 <= j < i - 1 ==> (#[trigger] gs.drop_first()[j]).name != gs.drop_first()[i - 1].name);
        lemma_lookup_first(gs.drop_first(), i - 1);
        assert(gs.drop_first()[i - 1] == gs[i]);
    }
}

/// A lookup that succeeds in the front part of a concatenation is the
/// lookup in the whole.
proof fn lemma_lookup_append_left(a: Seq<GroupEntryV>, b: Seq<GroupEntryV>, name: Seq<char>)
    requires
        lookup_group(a, name) is Some,
    ensures
        lookup_group(a + b, name) == lookup_group(a, name),
    decreases a.len(),
{
    assert(a.len() > 0);
    assert((a + b)[0] == a[0]);
    if a[0].name == name {
    } else {
        assert((a + b).drop_first() =~= a.drop_first() + b);
        lemma_lookup_append_left(a.drop_first(), b, name);
    }
}

/// What the group pass guarantees for every declared group: the name is
/// kept; an existing group keeps its gid and password, and a differing
/// explicit gid only raises a warning; members merge exactly as stated;
/// a fresh group takes its explicit gid or one from the allocator's
/// range; and the gid map records the resolved gid of every entry. The
/// new declarative set holds the declared names that did not exist or
/// were already declarative.
pub proof fn lemma_groups_pass1_props(
    specs: Seq<GroupSpecV>,
    existing: Seq<GroupEntryV>,
    decl: Seq<Seq<char>>,
)
    requires
        groups_pass1(specs, existing, decl) is Ok,
    ensures
        ({
            let acc = groups_pass1(specs, existing, decl).unwrap();
            &&& acc.groups.len() == specs.len()
            &&& acc.gid_map.len() == specs.len()
            &&& acc.declarative == declared_group_names(specs, existing, decl)
            &&& forall|i: int|
                #![trigger specs[i]]
                0 <= i < specs.len() ==> {
                    let g = specs[i];
                    let out = acc.groups[i];
                    &&& out.name == g.name
                    &&& acc.gid_map[i] == (IdMapEntryV { name: g.name, id: out.gid })
                    &&& (lookup_group(existing, g.name) is Some ==> {
                        let e = lookup_group(existing, g.name).unwrap();
                        &&& out.gid == e.gid
                        &&& out.passwd == e.passwd
                        &&& out.members == (if decl.contains(g.name) {
                            g.members
                        } else {
                            merge_members(g.members, e.members)
                        })
                        &&& (g.gid is Some && g.gid.unwrap() != e.gid ==> acc.warnings.contains(
                            WarningV::GidChangeIgnored {
                                name: g.name,
                                existing: e.gid,
                                requested: g.gid.unwrap(),
                            },
                        ))
                    })
                    &&& (lookup_group(existing, g.name) is None ==> {
                        &&& out.members == g.members
                        &&& (g.gid is Some ==> out.gid == g.gid.unwrap())
                        &&& (g.gid is None ==> floor_of(IdKind::SystemGroup) <= out.gid
                            <= ceiling_of(IdKind::SystemGroup))
                    })
                }
        }),
    decreases specs.len(),
{
    if specs.len() == 0 {
        let acc = groups_pass1(specs, existing, decl).unwrap();
        assert(acc.declarative =~= declared_group_names(specs, existing, decl));
    } else {
        let pre = specs.drop_last();
        lemma_groups_pass1_props(pre, existing, decl);
        let accp = groups_pass1(pre, existing, decl).unwrap();
        let acc = groups_pass1(specs, existing, decl).unwrap();
        let g = specs.last();
        assert(acc.declarative =~= declared_group_names(specs, existing, decl));
        if lookup_group(existing, g.name) is None && g.gid is None {
            crate::idalloc::lemma_alloc_spec_bounds(
                floor_of(IdKind::SystemGroup) as int,
                ceiling_of(IdKind::SystemGroup) as int,
                accp.taken,
            );
        }
        assert forall|i: int| #![trigger specs[i]] 0 <= i < specs.len() implies {
            let gi = specs[i];
            let out = acc.groups[i];
            &&& out.name == gi.name
            &&& acc.gid_map[i] == (IdMapEntryV { name: gi.name, id: out.gid })
            &&& (lookup_group(existing, gi.name) is Some ==> {
                let e = lookup_group(existing, gi.name).unwrap();
                &&& out.gid == e.gid
                &&& out.passwd == e.passwd
                &&& out.members == (if decl.contains(gi.name) {
                    gi.members
                } else {
                    merge_members(gi.members, e.members)
                })
                &&& (gi.gid is Some && gi.gid.unwrap() != e.gid ==> acc.warnings.contains(
                    WarningV::GidChangeIgnored {
                        name: gi.name,
                        existing: e.gid,
                        requested: gi.gid.unwrap(),
                    },
                ))
            })
            &&& (lookup_group(existing, gi.name) is None ==> {
                &&& out.members == gi.members
                &&& (gi.gid is Some ==> out.gid == gi.gid.unwrap())
                &&& (gi.gid is None ==> floor_of(IdKind::SystemGroup) <= out.gid <= ceiling_of(
                    IdKind::SystemGroup,
                ))
            })
        } by {
            if i < specs.len() - 1 {
                assert(pre[i] == specs[i]);
                assert(acc.groups[i] == accp.groups[i]);
                assert(acc.gid_map[i] == accp.gid_map[i]);
                if lookup_group(existing, specs[i].name) is Some && specs[i].gid is Some
                    && specs[i].gid.unwrap() != lookup_group(existing, specs[i].name).unwrap().gid {
                    let e = lookup_group(existing, specs[i].name).unwrap();
                    let w = WarningV::GidChangeIgnored {
                        name: specs[i].name,
                        existing: e.gid,
                        requested: specs[i].gid.unwrap(),
                    };
                    assert(accp.warnings.contains(w));
                    assert(acc.warnings =~= accp.warnings + (acc.warnings.skip(
                        accp.warnings.len() as int,
                    )));
                    lemma_contains_append(
                        accp.warnings,
                        acc.warnings.skip(accp.warnings.len() as int),
                        w,
                    );
                }
            } else {
                assert(specs[i] == g);
                if lookup_group(existing, g.name) is Some {
                    let e = lookup_group(existing, g.name).unwrap();
                    if g.gid is Some && g.gid.unwrap() != e.gid {
                        let w = WarningV::GidChangeIgnored {
                            name: g.name,
                            existing: e.gid,
                            requested: g.gid.unwrap(),
                        };
                        assert(acc.warnings[accp.warnings.len() as int] == w);
                        assert(acc.warnings.contains(w));
                    }
                }
            }
        }
    }
}

/// Merging changes nothing when every previous member is already
/// declared.
proof fn lemma_merge_all_contained(a: Seq<Seq<char>>, c: Seq<Seq<char>>)
    requires
        forall|j: int| 0 <= j < c.len() ==> a.contains(#[trigger] c[j]),
    ensures
        merge_members(a, c) == a,
    decreases c.len(),
{
    if c.len() > 0 {
        assert(forall|j: int|
            0 <= j < c.drop_last().len() ==> a.contains(#[trigger] c.drop_last()[j]));
        lemma_merge_all_contained(a, c.drop_last());
        assert(a.contains(c.last()));
    }
}

/// Merging a second time adds nothing: the member merge is idempotent.
pub proof fn lemma_merge_idempotent(a: Seq<Seq<char>>, b: Seq<Seq<char>>)
    ensures
        merge_members(a, merge_members(a, b)) == merge_members(a, b),
    decreases b.len(),
{
    if b.len() == 0 {
        assert(merge_members(a, b) == a);
        assert(forall|j: int| 0 <= j < a.len() ==> a.contains(#[trigger] a[j]));
        lemma_merge_all_contained(a, a);
    } else {
        let m = merge_members(a, b.drop_last());
        lemma_merge_idempotent(a, b.drop_last());
        if a.contains(b.last()) {
        } else {
            assert(merge_members(a, b) == m.push(b.last()));
            assert(m.push(b.last()).drop_last() =~= m);
            assert(merge_members(a, m.push(b.last())) == merge_members(a, m).push(b.last()));
        }
    }
}

/// Every name the new declarative set holds is a declared name.
proof fn lemma_declared_subset(
    specs: Seq<GroupSpecV>,
    existing: Seq<GroupEntryV>,
    decl: Seq<Seq<char>>,
    n: Seq<char>,
)
    requires
        declared_group_names(specs, existing, decl).contains(n),
    ensures
        group_spec_names(specs).contains(n),
    decreases specs.len(),
{
    let d = declared_group_names(specs, existing, decl);
    assert(specs.len() > 0);
    let pre = declared_group_names(specs.drop_last(), existing, decl);
    let g = specs.last();
    let i = choose|i: int| 0 <= i < d.len() && d[i] == n;
    if i < pre.len() {
        assert(pre[i] == n);
        assert(pre.contains(n));
        lemma_declared_subset(specs.drop_last(), existing, decl, n);
        let j = choose|j: int|
            0 <= j < group_spec_names(specs.drop_last()).len() && group_spec_names(
                specs.drop_last(),
            )[j] == n;
        assert(group_spec_names(specs)[j] == n);
    } else {
        assert(d[i] == g.name);
        assert(group_spec_names(specs)[specs.len() - 1] == n);
    }
}

/// With unique declared names, a declared name stands in the new
/// declarative set exactly when the group was fresh or already
/// declarative.
proof fn lemma_declared_membership(
    specs: Seq<GroupSpecV>,
    existing: Seq<GroupEntryV>,
    decl: Seq<Seq<char>>,
    i: int,
)
    requires
        !has_dup_names(group_spec_names(specs)),
        0 <= i < specs.len(),
    ensures
        declared_group_names(specs, existing, decl).contains(specs[i].name) <==> (lookup_group(
            existing,
            specs[i].name,
        ) is None || decl.contains(specs[i].name)),
    decreases specs.len(),
{
    let d = declared_group_names(specs, existing, decl);
    let pre = declared_group_names(specs.drop_last(), existing, decl);
    let g = specs.last();
    let names = group_spec_names(specs);
    if i == specs.len() - 1 {
        if lookup_group(existing, g.name) is None || decl.contains(g.name) {
            assert(d == pre.push(g.name));
            assert(d[d.len() - 1] == g.name);
            assert(d.contains(specs[i].name));
        } else {
            assert(d == pre);
            if pre.contains(g.name) {
                lemma_declared_subset(specs.drop_last(), existing, decl, g.name);
                let j = choose|j: int|
                    0 <= j < group_spec_names(specs.drop_last()).len() && group_spec_names(
                        specs.drop_last(),
                    )[j] == g.name;
                assert(names[j] == g.name);
                assert(names[j] == names[specs.len() - 1]);
                assert(has_dup_names(names));
            }
        }
    } else {
        assert(forall|a: int, b: int|
            0 <= a < b < specs.drop_last().len() ==> group_spec_names(specs.drop_last())[a]
                == names[a] && group_spec_names(specs.drop_last())[b] == names[b]);
        assert(!has_dup_names(group_spec_names(specs.drop_last()))) by {
            if has_dup_names(group_spec_names(specs.drop_last())) {
                let (a, b) = choose|a: int, b: int|
                    0 <= a < b < group_spec_names(specs.drop_last()).len() && group_spec_names(
                        specs.drop_last(),
                    )[a] == group_spec_names(specs.drop_last())[b];
                assert(names[a] == names[b]);
            }
        }
        lemma_declared_membership(specs.drop_last(), existing, decl, i);
        assert(specs.drop_last()[i] == specs[i]);
        assert(g.name != specs[i].name) by {
            if g.name == specs[i].name {
                assert(names[i] == names[specs.len() - 1]);
            }
        }
        if lookup_group(existing, g.name) is None || decl.contains(g.name) {
            assert(d == pre.push(g.name));
            assert(d.contains(specs[i].name) <==> pre.contains(specs[i].name)) by {
                if pre.contains(specs[i].name) {
                    let j = choose|j: int| 0 <= j < pre.len() && pre[j] == specs[i].name;
                    assert(d[j] == specs[i].name);
                }
                if d.contains(specs[i].name) {
                    let j = choose|j: int| 0 <= j < d.len() && d[j] == specs[i].name;
                    assert(j < pre.len());
                    assert(pre[j] == specs[i].name);
                }
            }
        } else {
            assert(d == pre);
        }
    }
}

/// No two entries of the sequence are equal.
pub open spec fn all_distinct<A>(s: Seq<A>) -> bool {
    forall|a: int, b: int| 0 <= a < b < s.len() ==> s[a] != s[b]
}

/// The taken set of the group pass is the existing gids followed by the
/// resolved gids, and a fresh group's gid collides with none of the
/// identifiers taken before it was resolved.
proof fn lemma_groups_pass1_taken(
    specs: Seq<GroupSpecV>,
    existing: Seq<GroupEntryV>,
    decl: Seq<Seq<char>>,
)
    requires
        groups_pass1(specs, existing, decl) is Ok,
    ensures
        ({
            let acc = groups_pass1(specs, existing, decl).unwrap();
            &&& acc.taken == group_gids(existing) + group_gids(acc.groups)
            &&& forall|i: int|
                #![trigger specs[i]]
                0 <= i < specs.len() ==> (lookup_group(existing, specs[i].name) is None ==> !(
                group_gids(existing) + group_gids(acc.groups.take(i))).contains(acc.groups[i].gid))
        }),
    decreases specs.len(),
{
    lemma_groups_pass1_props(specs, existing, decl);
    let acc = groups_pass1(specs, existing, decl).unwrap();
    if specs.len() == 0 {
        assert(group_gids(acc.groups) =~= Seq::<u32>::empty());
        assert(acc.taken =~= group_gids(existing) + group_gids(acc.groups));
    } else {
        let pre = specs.drop_last();
        lemma_groups_pass1_taken(pre, existing, decl);
        lemma_groups_pass1_props(pre, existing, decl);
        let accp = groups_pass1(pre, existing, decl).unwrap();
        let g = specs.last();
        assert(acc.groups == accp.groups.push(acc.groups.last()));
        assert(acc.taken == accp.taken.push(acc.groups.last().gid));
        assert(group_gids(acc.groups) =~= group_gids(accp.groups).push(acc.groups.last().gid));
        assert(acc.taken =~= group_gids(existing) + group_gids(acc.groups));
        if lookup_group(existing, g.name) is None && g.gid is None {
            crate::idalloc::lemma_alloc_spec_bounds(
                floor_of(IdKind::SystemGroup) as int,
                ceiling_of(IdKind::SystemGroup) as int,
                accp.taken,
            );
        }
        assert forall|i: int| #![trigger specs[i]] 0 <= i < specs.len() implies (lookup_group(
            existing,
            specs[i].name,
        ) is None ==> !(group_gids(existing) + group_gids(acc.groups.take(i))).contains(
            acc.groups[i].gid,
        )) by {
            if i < specs.len() - 1 {
                assert(pre[i] == specs[i]);
                assert(acc.groups[i] == accp.groups[i]);
                assert(acc.groups.take(i) =~= accp.groups.take(i));
            } else {
                assert(acc.groups.take(i) =~= accp.groups);
            }
        }
    }
}

/// A successful lookup returns an element of the sequence bearing the
/// looked-up name.
proof fn lemma_lookup_group_elem(gs: Seq<GroupEntryV>, n: Seq<char>)
    requires
        lookup_group(gs, n) is Some,
    ensures
        gs.contains(lookup_group(gs, n).unwrap()),
        lookup_group(gs, n).unwrap().name == n,
    decreases gs.len(),
{
    assert(gs.len() > 0);
    if gs[0].name == n {
        assert(gs.contains(gs[0]));
    } else {
        lemma_lookup_group_elem(gs.drop_first(), n);
        let r = lookup_group(gs.drop_first(), n).unwrap();
        let idx = choose|idx: int| 0 <= idx < gs.drop_first().len() && gs.drop_first()[idx] == r;
        assert(gs[idx + 1] == r);
    }
}

/// Every retained group is one of the existing groups.
proof fn lemma_kept_subset(
    existing: Seq<GroupEntryV>,
    spec_names: Seq<Seq<char>>,
    decl: Seq<Seq<char>>,
    mutable: bool,
)
    ensures
        ({
            let kept = kept_groups(existing, spec_names, decl, mutable);
            forall|j: int| 0 <= j < kept.len() ==> existing.contains(#[trigger] kept[j])
        }),
    decreases existing.len(),
{
    if existing.len() > 0 {
        lemma_kept_subset(existing.drop_last(), spec_names, decl, mutable);
        let pre = kept_groups(existing.drop_last(), spec_names, decl, mutable);
        let kept = kept_groups(existing, spec_names, decl, mutable);
        let e = existing.last();
        assert forall|j: int| 0 <= j < kept.len() implies existing.contains(#[trigger] kept[j]) by {
            let lifted = if j < pre.len() {
                pre[j]
            } else {
                e
            };
            if j < pre.len() || (!spec_names.contains(e.name) && mutable && !decl.contains(
                e.name,
            )) {
                if j < pre.len() {
                    assert(kept[j] == pre[j]);
                    let idx = choose|idx: int|
                        0 <= idx < existing.drop_last().len() && existing.drop_last()[idx]
                            == pre[j];
                    assert(existing[idx] == kept[j]);
                } else {
                    assert(kept[j] == e);
                    assert(existing[existing.len() - 1] == e);
                }
            }
        }
    }
}

/// Retained groups inherit the distinctness of the existing database.
proof fn lemma_kept_distinct(
    existing: Seq<GroupEntryV>,
    spec_names: Seq<Seq<char>>,
    decl: Seq<Seq<char>>,
    mutable: bool,
)
    requires
        all_distinct(group_names(existing)),
        all_distinct(group_gids(existing)),
    ensures
        ({
            let kept = kept_groups(existing, spec_names, decl, mutable);
            forall|a: int, b: int|
                0 <= a < b < kept.len() ==> kept[a].name != kept[b].name && kept[a].gid
                    != kept[b].gid
        }),
    decreases existing.len(),
{
    if existing.len() > 0 {
        let dl = existing.drop_last();
        assert(all_distinct(group_names(dl))) by {
            assert forall|a: int, b: int| 0 <= a < b < group_names(dl).len() implies group_names(
                dl,
            )[a] != group_names(dl)[b] by {
                assert(group_names(existing)[a] == group_names(dl)[a]);
                assert(group_names(existing)[b] == group_names(dl)[b]);
            }
        }
        assert(all_distinct(group_gids(dl))) by {
            assert forall|a: int, b: int| 0 <= a < b < group_gids(dl).len() implies group_gids(
                dl,
            )[a] != group_gids(dl)[b] by {
                assert(group_gids(existing)[a] == group_gids(dl)[a]);
                assert(group_gids(existing)[b] == group_gids(dl)[b]);
            }
        }
        lemma_kept_distinct(dl, spec_names, decl, mutable);
        lemma_kept_subset(dl, spec_names, decl, mutable);
        let pre = kept_groups(dl, spec_names, decl, mutable);
        let kept = kept_groups(existing, spec_names, decl, mutable);
        let e = existing.last();
        assert forall|a: int, b: int| 0 <= a < b < kept.len() implies kept[a].name != kept[b].name
            && kept[a].gid != kept[b].gid by {
            if b < pre.len() {
                assert(kept[a] == pre[a] && kept[b] == pre[b]);
            } else {
                assert(kept == pre.push(e));
                assert(kept[a] == pre[a] && kept[b] == e);
                let idx = choose|idx: int| 0 <= idx < dl.len() && dl[idx] == pre[a];
                assert(existing[idx] == pre[a]);
                assert(group_names(existing)[idx] == pre[a].name);
                assert(group_names(existing)[existing.len() - 1] == e.name);
                assert(group_gids(existing)[idx] == pre[a].gid);
                assert(group_gids(existing)[existing.len() - 1] == e.gid);
            }
        }
    }
}

/// Identifier uniqueness (groups): over a database whose names and gids
/// are pairwise distinct, a successful pass with distinct declared
/// names yields names and gids that are again pairwise distinct — an
/// explicit gid already in use fails the pass instead.
pub proof fn lemma_group_ids_unique(
    specs: Seq<GroupSpecV>,
    existing: Seq<GroupEntryV>,
    decl: Seq<Seq<char>>,
    mutable: bool,
)
    requires
        groups_pass1(specs, existing, decl) is Ok,
        !has_dup_names(group_spec_names(specs)),
        all_distinct(group_names(existing)),
        all_distinct(group_gids(existing)),
    ensures
        ({
            let acc = groups_pass1(specs, existing, decl).unwrap();
            let out = acc.groups + kept_groups(existing, group_spec_names(specs), decl, mutable);
            &&& all_distinct(group_names(out))
            &&& all_distinct(group_gids(out))
        }),
{
    lemma_groups_pass1_props(specs, existing, decl);
    lemma_groups_pass1_taken(specs, existing, decl);
    let names = group_spec_names(specs);
    let acc = groups_pass1(specs, existing, decl).unwrap();
    let kept = kept_groups(existing, names, decl, mutable);
    let out = acc.groups + kept;
    lemma_kept_elems(existing, names, decl, mutable);
    lemma_kept_subset(existing, names, decl, mutable);
    lemma_kept_distinct(existing, names, decl, mutable);
    let n = acc.groups.len() as int;
    assert forall|a: int, b: int| 0 <= a < b < out.len() implies out[a].name != out[b].name
        && out[a].gid != out[b].gid by {
        if b < n {
            assert(out[a] == acc.groups[a] && out[b] == acc.groups[b]);
            assert(acc.groups[a].name == specs[a].name && acc.groups[b].name == specs[b].name);
            if acc.groups[a].name == acc.groups[b].name {
                assert(names[a] == names[b]);
                assert(has_dup_names(names));
            }
            if lookup_group(existing, specs[b].name) is None {
                assert(!(group_gids(existing) + group_gids(acc.groups.take(b))).contains(
                    acc.groups[b].gid,
                ));
                assert(group_gids(acc.groups.take(b))[a] == acc.groups[a].gid);
                assert((group_gids(existing) + group_gids(acc.groups.take(b)))[group_gids(
                    existing,
                ).len() + a] == acc.groups[a].gid);
                assert((group_gids(existing) + group_gids(acc.groups.take(b))).contains(
                    acc.groups[a].gid,
                ));
            } else {
                lemma_lookup_group_elem(existing, specs[b].name);
                let eb = lookup_group(existing, specs[b].name).unwrap();
                let ib = choose|ib: int| 0 <= ib < existing.len() && existing[ib] == eb;
                assert(group_gids(existing)[ib] == eb.gid);
                assert(acc.groups[b].gid == eb.gid);
                if lookup_group(existing, specs[a].name) is None {
                    assert(!(group_gids(existing) + group_gids(acc.groups.take(a))).contains(
                        acc.groups[a].gid,
                    ));
                    if acc.groups[a].gid == eb.gid {
                        assert((group_gids(existing) + group_gids(acc.groups.take(a)))[ib]
                            == eb.gid);
                        assert((group_gids(existing) + group_gids(acc.groups.take(a))).contains(
                            acc.groups[a].gid,
                        ));
                    }
                } else {
                    lemma_lookup_group_elem(existing, specs[a].name);
                    let ea = lookup_group(existing, specs[a].name).unwrap();
                    let ia = choose|ia: int| 0 <= ia < existing.len() && existing[ia] == ea;
                    assert(acc.groups[a].gid == ea.gid);
                    assert(ea.name == specs[a].name && eb.name == specs[b].name);
                    assert(ia != ib);
                    assert(group_gids(existing)[ia] == ea.gid);
                    assert(group_gids(existing)[ib] == eb.gid);
                }
            }
        } else if a < n {
            assert(out[a] == acc.groups[a] && out[b] == kept[b - n]);
            assert(acc.groups[a].name == specs[a].name);
            if out[a].name == out[b].name {
                assert(names[a] == out[b].name);
                assert(names.contains(out[b].name));
                assert(!names.contains(kept[b - n].name));
            }
            let ib = choose|ib: int| 0 <= ib < existing.len() && existing[ib] == kept[b - n];
            assert(group_gids(existing)[ib] == kept[b - n].gid);
            if lookup_group(existing, specs[a].name) is None {
                assert(!(group_gids(existing) + group_gids(acc.groups.take(a))).contains(
                    acc.groups[a].gid,
                ));
                if acc.groups[a].gid == kept[b - n].gid {
                    assert((group_gids(existing) + group_gids(acc.groups.take(a)))[ib]
                        == kept[b - n].gid);
                    assert((group_gids(existing) + group_gids(acc.groups.take(a))).contains(
                        acc.groups[a].gid,
                    ));
                }
            } else {
                lemma_lookup_group_elem(existing, specs[a].name);
                let ea = lookup_group(existing, specs[a].name).unwrap();
                let ia = choose|ia: int| 0 <= ia < existing.len() && existing[ia] == ea;
                assert(acc.groups[a].gid == ea.gid);
                assert(ea.name == specs[a].name);
                assert(names[a] == specs[a].name);
                assert(names.contains(ea.name));
                assert(!names.contains(kept[b - n].name));
                assert(existing[ia].name != existing[ib].name);
                assert(ia != ib);
                assert(group_gids(existing)[ia] == ea.gid);
            }
        } else {
            assert(out[a] == kept[a - n] && out[b] == kept[b - n]);
        }
    }
    assert forall|a: int, b: int| 0 <= a < b < group_names(out).len() implies group_names(out)[a]
        != group_names(out)[b] by {
        assert(group_names(out)[a] == out[a].name && group_names(out)[b] == out[b].name);
    }
    assert forall|a: int, b: int| 0 <= a < b < group_gids(out).len() implies group_gids(out)[a]
        != group_gids(out)[b] by {
        assert(group_gids(out)[a] == out[a].gid && group_gids(out)[b] == out[b].gid);
    }
}

/// Identifier stability (groups): a declared group whose name already
/// exists keeps the existing gid, whatever the specification says.
pub proof fn lemma_group_id_stability(
    specs: Seq<GroupSpecV>,
    existing: Seq<GroupEntryV>,
    decl: Seq<Seq<char>>,
    i: int,
)
    requires
        groups_pass1(specs, existing, decl) is Ok,
        0 <= i < specs.len(),
        lookup_group(existing, specs[i].name) is Some,
    ensures
        groups_pass1(specs, existing, decl).unwrap().groups[i].gid == lookup_group(
            existing,
            specs[i].name,
        ).unwrap().gid,
        groups_pass1(specs, existing, decl).unwrap().gid_map[i] == (IdMapEntryV {
            name: specs[i].name,
            id: lookup_group(existing, specs[i].name).unwrap().gid,
        }),
{
    lemma_groups_pass1_props(specs, existing, decl);
}

/// gid immutability with a warning: a differing explicit gid for an
/// existing group never changes the stored gid, and the pass reports it.
pub proof fn lemma_gid_change_ignored(
    specs: Seq<GroupSpecV>,
    existing: Seq<GroupEntryV>,
    decl: Seq<Seq<char>>,
    i: int,
)
    requires
        groups_pass1(specs, existing, decl) is Ok,
        0 <= i < specs.len(),
        lookup_group(existing, specs[i].name) is Some,
        specs[i].gid is Some,
        specs[i].gid.unwrap() != lookup_group(existing, specs[i].name).unwrap().gid,
    ensures
        groups_pass1(specs, existing, decl).unwrap().groups[i].gid == lookup_group(
            existing,
            specs[i].name,
        ).unwrap().gid,
        groups_pass1(specs, existing, decl).unwrap().warnings.contains(
            WarningV::GidChangeIgnored {
                name: specs[i].name,
                existing: lookup_group(existing, specs[i].name).unwrap().gid,
                requested: specs[i].gid.unwrap(),
            },
        ),
{
    lemma_groups_pass1_props(specs, existing, decl);
}

/// A pass over a prefix of the specification succeeds and computes the
/// prefix of the whole pass's groups and gid map.
proof fn lemma_pass1_prefix(
    specs: Seq<GroupSpecV>,
    existing: Seq<GroupEntryV>,
    decl: Seq<Seq<char>>,
    k: int,
)
    requires
        groups_pass1(specs, existing, decl) is Ok,
        0 <= k <= specs.len(),
    ensures
        groups_pass1(specs.take(k), existing, decl) is Ok,
        groups_pass1(specs.take(k), existing, decl).unwrap().groups == groups_pass1(
            specs,
            existing,
            decl,
        ).unwrap().groups.take(k),
        groups_pass1(specs.take(k), existing, decl).unwrap().gid_map == groups_pass1(
            specs,
            existing,
            decl,
        ).unwrap().gid_map.take(k),
    decreases specs.len() - k,
{
    lemma_groups_pass1_props(specs, existing, decl);
    let acc = groups_pass1(specs, existing, decl).unwrap();
    if k == specs.len() {
        assert(specs.take(k) =~= specs);
        assert(acc.groups.take(k) =~= acc.groups);
        assert(acc.gid_map.take(k) =~= acc.gid_map);
    } else {
        lemma_pass1_prefix(specs, existing, decl, k + 1);
        let acck1 = groups_pass1(specs.take(k + 1), existing, decl).unwrap();
        assert(specs.take(k + 1).drop_last() =~= specs.take(k));
        let acck = groups_pass1(specs.take(k), existing, decl).unwrap();
        assert(acck1.groups == acck.groups.push(acck1.groups.last()));
        assert(acck.groups =~= acc.groups.take(k));
        assert(acck1.gid_map == acck.gid_map.push(acck1.gid_map.last()));
        assert(acck.gid_map =~= acc.gid_map.take(k));
    }
}

/// Retention distributes over concatenation.
proof fn lemma_kept_concat(
    a: Seq<GroupEntryV>,
    b: Seq<GroupEntryV>,
    spec_names: Seq<Seq<char>>,
    decl: Seq<Seq<char>>,
    mutable: bool,
)
    ensures
        kept_groups(a + b, spec_names, decl, mutable) == kept_groups(a, spec_names, decl, mutable)
            + kept_groups(b, spec_names, decl, mutable),
    decreases b.len(),
{
    if b.len() == 0 {
        assert(a + b =~= a);
        assert(kept_groups(b, spec_names, decl, mutable) =~= Seq::<GroupEntryV>::empty());
        assert(kept_groups(a, spec_names, decl, mutable) + kept_groups(b, spec_names, decl, mutable)
            =~= kept_groups(a, spec_names, decl, mutable));
    } else {
        assert((a + b).drop_last() =~= a + b.drop_last());
        assert((a + b).last() == b.last());
        lemma_kept_concat(a, b.drop_last(), spec_names, decl, mutable);
        if !spec_names.contains(b.last().name) && mutable && !decl.contains(b.last().name) {
            assert(kept_groups(a + b, spec_names, decl, mutable) =~= kept_groups(
                a,
                spec_names,
                decl,
                mutable,
            ) + kept_groups(b, spec_names, decl, mutable));
        } else {
            assert(kept_groups(a + b, spec_names, decl, mutable) =~= kept_groups(
                a,
                spec_names,
                decl,
                mutable,
            ) + kept_groups(b, spec_names, decl, mutable));
        }
    }
}

/// Nothing is retained from groups whose names are all declared.
proof fn lemma_kept_none(
    a: Seq<GroupEntryV>,
    spec_names: Seq<Seq<char>>,
    decl: Seq<Seq<char>>,
    mutable: bool,
)
    requires
        forall|j: int| 0 <= j < a.len() ==> spec_names.contains((#[trigger] a[j]).name),
    ensures
        kept_groups(a, spec_names, decl, mutable) == Seq::<GroupEntryV>::empty(),
    decreases a.len(),
{
    if a.len() == 0 {
        assert(kept_groups(a, spec_names, decl, mutable) =~= Seq::<GroupEntryV>::empty());
    } else {
        assert(forall|j: int|
            0 <= j < a.drop_last().len() ==> spec_names.contains(
                (#[trigger] a.drop_last()[j]).name,
            ));
        lemma_kept_none(a.drop_last(), spec_names, decl, mutable);
        assert(spec_names.contains(a.last().name));
    }
}

/// Everything is retained from groups that all satisfy the retention
/// condition.
proof fn lemma_kept_all(
    a: Seq<GroupEntryV>,
    spec_names: Seq<Seq<char>>,
    decl: Seq<Seq<char>>,
)
    requires
        forall|j: int|
            0 <= j < a.len() ==> !spec_names.contains((#[trigger] a[j]).name) && !decl.contains(
                a[j].name,
            ),
    ensures
        kept_groups(a, spec_names, decl, true) == a,
    decreases a.len(),
{
    if a.len() == 0 {
        assert(kept_groups(a, spec_names, decl, true) =~= a);
    } else {
        assert(forall|j: int|
            0 <= j < a.drop_last().len() ==> !spec_names.contains(
                (#[trigger] a.drop_last()[j]).name,
            ) && !decl.contains(a.drop_last()[j].name));
        lemma_kept_all(a.drop_last(), spec_names, decl);
        assert(!spec_names.contains(a.last().name) && !decl.contains(a.last().name));
        assert(kept_groups(a, spec_names, decl, true) =~= a);
    }
}

/// Every retained group is undeclared and not declarative.
proof fn lemma_kept_elems(
    existing: Seq<GroupEntryV>,
    spec_names: Seq<Seq<char>>,
    decl: Seq<Seq<char>>,
    mutable: bool,
)
    ensures
        ({
            let kept = kept_groups(existing, spec_names, decl, mutable);
            forall|j: int|
                0 <= j < kept.len() ==> !spec_names.contains((#[trigger] kept[j]).name)
                    && !decl.contains(kept[j].name)
        }),
    decreases existing.len(),
{
    if existing.len() > 0 {
        lemma_kept_elems(existing.drop_last(), spec_names, decl, mutable);
        let pre = kept_groups(existing.drop_last(), spec_names, decl, mutable);
        let kept = kept_groups(existing, spec_names, decl, mutable);
        let e = existing.last();
        assert forall|j: int| 0 <= j < kept.len() implies !spec_names.contains(
            (#[trigger] kept[j]).name,
        ) && !decl.contains(kept[j].name) by {
            if !spec_names.contains(e.name) && mutable && !decl.contains(e.name) {
                assert(kept == pre.push(e));
                if j < pre.len() {
                    assert(kept[j] == pre[j]);
                } else {
                    assert(kept[j] == e);
                }
            } else {
                assert(kept == pre);
            }
        }
    }
}

/// The second pass over the first pass's output resolves every declared
/// group exactly as the first pass did.
proof fn lemma_groups_idem_aux(
    specs: Seq<GroupSpecV>,
    existing: Seq<GroupEntryV>,
    decl: Seq<Seq<char>>,
    mutable: bool,
    k: int,
)
    requires
        groups_pass1(specs, existing, decl) is Ok,
        !has_dup_names(group_spec_names(specs)),
        0 <= k <= specs.len(),
    ensures
        ({
            let acc1 = groups_pass1(specs, existing, decl).unwrap();
            let out1 = acc1.groups + kept_groups(
                existing,
                group_spec_names(specs),
                decl,
                mutable,
            );
            let decl1 = acc1.declarative;
            &&& groups_pass1(specs.take(k), out1, decl1) is Ok
            &&& groups_pass1(specs.take(k), out1, decl1).unwrap().groups == groups_pass1(
                specs.take(k),
                existing,
                decl,
            ).unwrap().groups
            &&& groups_pass1(specs.take(k), out1, decl1).unwrap().gid_map == groups_pass1(
                specs.take(k),
                existing,
                decl,
            ).unwrap().gid_map
            &&& groups_pass1(specs.take(k), out1, decl1).unwrap().declarative == groups_pass1(
                specs.take(k),
                existing,
                decl,
            ).unwrap().declarative
        }),
    decreases k,
{
    lemma_groups_pass1_props(specs, existing, decl);
    let names = group_spec_names(specs);
    let acc1 = groups_pass1(specs, existing, decl).unwrap();
    let kept1 = kept_groups(existing, names, decl, mutable);
    let out1 = acc1.groups + kept1;
    let decl1 = acc1.declarative;
    lemma_pass1_prefix(specs, existing, decl, k);
    if k == 0 {
        assert(specs.take(0) =~= Seq::<GroupSpecV>::empty());
        assert(groups_pass1(specs.take(0), out1, decl1).unwrap().groups =~= groups_pass1(
            specs.take(0),
            existing,
            decl,
        ).unwrap().groups);
        assert(groups_pass1(specs.take(0), out1, decl1).unwrap().gid_map =~= groups_pass1(
            specs.take(0),
            existing,
            decl,
        ).unwrap().gid_map);
        assert(groups_pass1(specs.take(0), out1, decl1).unwrap().declarative =~= groups_pass1(
            specs.take(0),
            existing,
            decl,
        ).unwrap().declarative);
    } else {
        lemma_groups_idem_aux(specs, existing, decl, mutable, k - 1);
        lemma_pass1_prefix(specs, existing, decl, k - 1);
        let i = k - 1;
        let g = specs[i];
        assert(specs.take(k).drop_last() =~= specs.take(i));
        assert(specs.take(k).last() == g);
        assert(acc1.groups[i].name == g.name);
        assert forall|j: int| 0 <= j < i implies (#[trigger] acc1.groups[j]).name
            != acc1.groups[i].name by {
            if acc1.groups[j].name == acc1.groups[i].name {
                assert(names[j] == names[i]);
                assert(has_dup_names(names));
            }
        }
        lemma_lookup_first(acc1.groups, i);
        lemma_lookup_append_left(acc1.groups, kept1, g.name);
        let e2 = acc1.groups[i];
        assert(lookup_group(out1, g.name) == Some(e2));
        lemma_declared_membership(specs, existing, decl, i);
        let members2 = if decl1.contains(g.name) {
            g.members
        } else {
            merge_members(g.members, e2.members)
        };
        if lookup_group(existing, g.name) is Some {
            let e1 = lookup_group(existing, g.name).unwrap();
            if decl.contains(g.name) {
                assert(decl1.contains(g.name));
                assert(e2.members == g.members);
                assert(members2 == e2.members);
            } else {
                assert(!decl1.contains(g.name));
                assert(e2.members == merge_members(g.members, e1.members));
                lemma_merge_idempotent(g.members, e1.members);
                assert(members2 == e2.members);
            }
        } else {
            assert(decl1.contains(g.name));
            assert(e2.members == g.members);
            assert(members2 == e2.members);
        }
        let entry2 = GroupEntryV { name: g.name, passwd: e2.passwd, gid: e2.gid, members: members2 };
        assert(entry2 =~= e2);
        let acc2p = groups_pass1(specs.take(i), out1, decl1).unwrap();
        let acc1p = groups_pass1(specs.take(i), existing, decl).unwrap();
        let acc2k = groups_pass1(specs.take(k), out1, decl1).unwrap();
        let acc1k = groups_pass1(specs.take(k), existing, decl).unwrap();
        assert(acc2k.groups == acc2p.groups.push(entry2));
        assert(acc1k.groups =~= acc1.groups.take(k));
        assert(acc1p.groups =~= acc1.groups.take(i));
        assert(acc1.groups.take(k) =~= acc1.groups.take(i).push(e2));
        assert(acc2k.groups == acc1k.groups);
        assert(acc2k.gid_map == acc2p.gid_map.push(IdMapEntryV { name: g.name, id: e2.gid }));
        assert(acc1k.gid_map == acc1p.gid_map.push(acc1k.gid_map.last()));
        assert(acc1k.gid_map =~= acc1.gid_map.take(k));
        assert(acc1.gid_map[i] == (IdMapEntryV { name: g.name, id: e2.gid }));
        assert(acc1k.gid_map.last() == acc1.gid_map[i]);
        assert(acc2k.gid_map == acc1k.gid_map);
        if decl1.contains(g.name) {
            assert(lookup_group(existing, g.name) is None || decl.contains(g.name));
            assert(acc2k.declarative == acc2p.declarative.push(g.name));
            assert(acc1k.declarative == acc1p.declarative.push(g.name));
        } else {
            assert(!(lookup_group(existing, g.name) is None || decl.contains(g.name)));
            assert(acc2k.declarative == acc2p.declarative);
            assert(acc1k.declarative == acc1p.declarative);
        }
    }
}

/// Idempotence (groups): a second pass with the same specification over
/// the first pass's unchanged output reproduces it — the same groups in
/// the same order, the same gid map, the same declarative set, and the
/// same retained groups.
pub proof fn lemma_groups_idempotent(
    specs: Seq<GroupSpecV>,
    existing: Seq<GroupEntryV>,
    decl: Seq<Seq<char>>,
    mutable: bool,
)
    requires
        groups_pass1(specs, existing, decl) is Ok,
        !has_dup_names(group_spec_names(specs)),
    ensures
        ({
            let acc1 = groups_pass1(specs, existing, decl).unwrap();
            let names = group_spec_names(specs);
            let out1 = acc1.groups + kept_groups(existing, names, decl, mutable);
            let decl1 = acc1.declarative;
            let r2 = groups_pass1(specs, out1, decl1);
            &&& r2 is Ok
            &&& r2.unwrap().groups == acc1.groups
            &&& r2.unwrap().gid_map == acc1.gid_map
            &&& r2.unwrap().declarative == decl1
            &&& r2.unwrap().groups + kept_groups(out1, names, decl1, mutable) == out1
        }),
{
    lemma_groups_pass1_props(specs, existing, decl);
    let acc1 = groups_pass1(specs, existing, decl).unwrap();
    let names = group_spec_names(specs);
    let kept1 = kept_groups(existing, names, decl, mutable);
    let out1 = acc1.groups + kept1;
    let decl1 = acc1.declarative;
    lemma_groups_idem_aux(specs, existing, decl, mutable, specs.len() as int);
    assert(specs.take(specs.len() as int) =~= specs);
    lemma_kept_concat(acc1.groups, kept1, names, decl1, mutable);
    assert(forall|j: int|
        0 <= j < acc1.groups.len() ==> names.contains((#[trigger] acc1.groups[j]).name)) by {
        assert forall|j: int|
            0 <= j < acc1.groups.len() implies names.contains(
            (#[trigger] acc1.groups[j]).name,
        ) by {
            assert(acc1.groups[j].name == names[j]);
        }
    }
    lemma_kept_none(acc1.groups, names, decl1, mutable);
    lemma_kept_elems(existing, names, decl, mutable);
    if mutable {
        assert(forall|j: int|
            0 <= j < kept1.len() ==> !names.contains((#[trigger] kept1[j]).name) && !decl1.contains(
                kept1[j].name,
            )) by {
            assert forall|j: int|
                0 <= j < kept1.len() implies !names.contains((#[trigger] kept1[j]).name)
                && !decl1.contains(kept1[j].name) by {
                if decl1.contains(kept1[j].name) {
                    lemma_declared_subset(specs, existing, decl, kept1[j].name);
                }
            }
        }
        lemma_kept_all(kept1, names, decl1);
        assert(kept_groups(out1, names, decl1, mutable) =~= kept1);
    } else {
        lemma_immutable_removes_groups(existing, names, decl);
        lemma_immutable_removes_groups(out1, names, decl1);
        assert(kept_groups(out1, names, decl1, mutable) =~= kept1);
    }
}

/// Non-destructive mutation (groups): in mutable mode, an existing
/// group that the specification does not name and that no prior run
/// declared is retained unchanged.
pub proof fn lemma_mutable_preserves_group(
    existing: Seq<GroupEntryV>,
    spec_names: Seq<Seq<char>>,
    decl: Seq<Seq<char>>,
    i: int,
)
    requires
        0 <= i < existing.len(),
        !spec_names.contains(existing[i].name),
        !decl.contains(existing[i].name),
    ensures
        kept_groups(existing, spec_names, decl, true).contains(existing[i]),
    decreases existing.len(),
{
    if i == existing.len() - 1 {
        let pre = kept_groups(existing.drop_last(), spec_names, decl, true);
        assert(kept_groups(existing, spec_names, decl, true) == pre.push(existing[i]));
        assert(pre.push(existing[i])[pre.len() as int] == existing[i]);
    } else {
        assert(existing.drop_last()[i] == existing[i]);
        lemma_mutable_preserves_group(existing.drop_last(), spec_names, decl, i);
        let pre = kept_groups(existing.drop_last(), spec_names, decl, true);
        let j = choose|j: int| 0 <= j < pre.len() && pre[j] == existing[i];
        if !spec_names.contains(existing.last().name) && !decl.contains(existing.last().name) {
            assert(kept_groups(existing, spec_names, decl, true)[j] == existing[i]);
        } else {
            assert(kept_groups(existing, spec_names, decl, true)[j] == existing[i]);
        }
    }
}

/// Non-destructive mutation (users): the same, for users.
pub proof fn lemma_mutable_preserves_user(
    existing: Seq<PasswdEntryV>,
    spec_names: Seq<Seq<char>>,
    decl: Seq<Seq<char>>,
    i: int,
)
    requires
        0 <= i < existing.len(),
        !spec_names.contains(existing[i].name),
        !decl.contains(existing[i].name),
    ensures
        kept_users(existing, spec_names, decl, true).contains(existing[i]),
    decreases existing.len(),
{
    if i == existing.len() - 1 {
        let pre = kept_users(existing.drop_last(), spec_names, decl, true);
        assert(kept_users(existing, spec_names, decl, true) == pre.push(existing[i]));
        assert(pre.push(existing[i])[pre.len() as int] == existing[i]);
    } else {
        assert(existing.drop_last()[i] == existing[i]);
        lemma_mutable_preserves_user(existing.drop_last(), spec_names, decl, i);
        let pre = kept_users(existing.drop_last(), spec_names, decl, true);
        let j = choose|j: int| 0 <= j < pre.len() && pre[j] == existing[i];
        if !spec_names.contains(existing.last().name) && !decl.contains(existing.last().name) {
            assert(kept_users(existing, spec_names, decl, true)[j] == existing[i]);
        } else {
            assert(kept_users(existing, spec_names, decl, true)[j] == existing[i]);
        }
    }
}

/// What the user pass guarantees for every declared user: the name,
/// description, home and shell are taken from the specification and the
/// primary gid from the group database; an existing user keeps its uid
/// and passwd field, and a differing explicit uid only raises a
/// warning; the shadow record carries the resolved hash with the
/// previous aging fields; a fresh user takes its explicit uid or one
/// from the range of its kind; and the uid map records the resolved uid
/// of every entry.
pub proof fn lemma_users_pass1_props(
    specs: Seq<UserSpecV>,
    existing: Seq<PasswdEntryV>,
    existing_shadow: Seq<ShadowEntryV>,
    groups: Seq<GroupEntryV>,
    decl: Seq<Seq<char>>,
)
    requires
        users_pass1(specs, existing, existing_shadow, groups, decl) is Ok,
    ensures
        ({
            let acc = users_pass1(specs, existing, existing_shadow, groups, decl).unwrap();
            &&& acc.passwd.len() == specs.len()
            &&& acc.shadow.len() == specs.len()
            &&& acc.uid_map.len() == specs.len()
            &&& acc.declarative == declared_user_names(specs, existing, decl)
            &&& forall|i: int|
                #![trigger specs[i]]
                0 <= i < specs.len() ==> {
                    let u = specs[i];
                    let out = acc.passwd[i];
                    let prev = lookup_shadow(existing_shadow, u.name);
                    let prev_hash = match prev {
                        Some(se) => Some(se.passwd),
                        None => None,
                    };
                    &&& out.name == u.name
                    &&& out.gecos == u.description
                    &&& out.dir == u.home
                    &&& out.shell == u.shell
                    &&& lookup_group(groups, u.group) is Some
                    &&& out.gid == lookup_group(groups, u.group).unwrap().gid
                    &&& acc.uid_map[i] == (IdMapEntryV { name: u.name, id: out.uid })
                    &&& (lookup_passwd(existing, u.name) is Some ==> {
                        let e = lookup_passwd(existing, u.name).unwrap();
                        &&& out.uid == e.uid
                        &&& out.passwd == e.passwd
                        &&& acc.shadow[i] == shadow_of(
                            u.name,
                            resolve_password(u, prev_hash, false),
                            prev,
                        )
                        &&& (u.uid is Some && u.uid.unwrap() != e.uid ==> acc.warnings.contains(
                            WarningV::UidChangeIgnored {
                                name: u.name,
                                existing: e.uid,
                                requested: u.uid.unwrap(),
                            },
                        ))
                    })
                    &&& (lookup_passwd(existing, u.name) is None ==> {
                        &&& acc.shadow[i] == shadow_of(u.name, resolve_password(u, None, true), None)
                        &&& (u.uid is Some ==> out.uid == u.uid.unwrap())
                        &&& (u.uid is None && u.is_system ==> floor_of(IdKind::SystemUser)
                            <= out.uid <= ceiling_of(IdKind::SystemUser))
                        &&& (u.uid is None && !u.is_system ==> floor_of(IdKind::NormalUser)
                            <= out.uid <= ceiling_of(IdKind::NormalUser))
                    })
                }
        }),
    decreases specs.len(),
{
    if specs.len() == 0 {
        let acc = users_pass1(specs, existing, existing_shadow, groups, decl).unwrap();
        assert(acc.declarative =~= declared_user_names(specs, existing, decl));
    } else {
        let pre = specs.drop_last();
        lemma_users_pass1_props(pre, existing, existing_shadow, groups, decl);
        let accp = users_pass1(pre, existing, existing_shadow, groups, decl).unwrap();
        let acc = users_pass1(specs, existing, existing_shadow, groups, decl).unwrap();
        let u = specs.last();
        assert(acc.declarative =~= declared_user_names(specs, existing, decl));
        if lookup_passwd(existing, u.name) is None && u.uid is None {
            let kind = if u.is_system {
                IdKind::SystemUser
            } else {
                IdKind::NormalUser
            };
            crate::idalloc::lemma_alloc_spec_bounds(
                floor_of(kind) as int,
                ceiling_of(kind) as int,
                accp.taken,
            );
        }
        assert forall|i: int| #![trigger specs[i]] 0 <= i < specs.len() implies {
            let ui = specs[i];
            let out = acc.passwd[i];
            let prev = lookup_shadow(existing_shadow, ui.name);
            let prev_hash = match prev {
                Some(se) => Some(se.passwd),
                None => None,
            };
            &&& out.name == ui.name
            &&& out.gecos == ui.description
            &&& out.dir == ui.home
            &&& out.shell == ui.shell
            &&& lookup_group(groups, ui.group) is Some
            &&& out.gid == lookup_group(groups, ui.group).unwrap().gid
            &&& acc.uid_map[i] == (IdMapEntryV { name: ui.name, id: out.uid })
            &&& (lookup_passwd(existing, ui.name) is Some ==> {
                let e = lookup_passwd(existing, ui.name).unwrap();
                &&& out.uid == e.uid
                &&& out.passwd == e.passwd
                &&& acc.shadow[i] == shadow_of(
                    ui.name,
                    resolve_password(ui, prev_hash, false),
                    prev,
                )
                &&& (ui.uid is Some && ui.uid.unwrap() != e.uid ==> acc.warnings.contains(
                    WarningV::UidChangeIgnored {
                        name: ui.name,
                        existing: e.uid,
                        requested: ui.uid.unwrap(),
                    },
                ))
            })
            &&& (lookup_passwd(existing, ui.name) is None ==> {
                &&& acc.shadow[i] == shadow_of(ui.name, resolve_password(ui, None, true), None)
                &&& (ui.uid is Some ==> out.uid == ui.uid.unwrap())
                &&& (ui.uid is None && ui.is_system ==> floor_of(IdKind::SystemUser) <= out.uid
                    <= ceiling_of(IdKind::SystemUser))
                &&& (ui.uid is None && !ui.is_system ==> floor_of(IdKind::NormalUser) <= out.uid
                    <= ceiling_of(IdKind::NormalUser))
            })
        } by {
            if i < specs.len() - 1 {
                assert(pre[i] == specs[i]);
                assert(acc.passwd[i] == accp.passwd[i]);
                assert(acc.shadow[i] == accp.shadow[i]);
                assert(acc.uid_map[i] == accp.uid_map[i]);
                if lookup_passwd(existing, specs[i].name) is Some && specs[i].uid is Some
                    && specs[i].uid.unwrap() != lookup_passwd(existing, specs[i].name).unwrap().uid {
                    let e = lookup_passwd(existing, specs[i].name).unwrap();
                    let w = WarningV::UidChangeIgnored {
                        name: specs[i].name,
                        existing: e.uid,
                        requested: specs[i].uid.unwrap(),
                    };
                    assert(accp.warnings.contains(w));
                    assert(acc.warnings =~= accp.warnings + (acc.warnings.skip(
                        accp.warnings.len() as int,
                    )));
                    lemma_contains_append(
                        accp.warnings,
                        acc.warnings.skip(accp.warnings.len() as int),
                        w,
                    );
                }
            } else {
                assert(specs[i] == u);
                if lookup_passwd(existing, u.name) is Some {
                    let e = lookup_passwd(existing, u.name).unwrap();
                    if u.uid is Some && u.uid.unwrap() != e.uid {
                        let w = WarningV::UidChangeIgnored {
                            name: u.name,
                            existing: e.uid,
                            requested: u.uid.unwrap(),
                        };
                        assert(acc.warnings[accp.warnings.len() as int] == w);
                        assert(acc.warnings.contains(w));
                    }
                }
            }
        }
    }
}

/// A name that occurs first at index `i` is what the passwd lookup finds.
proof fn lemma_lookup_passwd_first(ps: Seq<PasswdEntryV>, i: int)
    requires
        0 <= i < ps.len(),
        forall|j: int| 0 <= j < i ==> (#[trigger] ps[j]).name != ps[i].name,
    ensures
        lookup_passwd(ps, ps[i].name) == Some(ps[i]),
    decreases i,
{
    if i > 0 {
        assert(ps[0].name != ps[i].name);
        assert(forall|j: int|
            0 <= j < i - 1 ==> (#[trigger] ps.drop_first()[j]).name != ps.drop_first()[i - 1].name);
        lemma_lookup_passwd_first(ps.drop_first(), i - 1);
        assert(ps.drop_first()[i - 1] == ps[i]);
    }
}

proof fn lemma_lookup_passwd_append_left(
    a: Seq<PasswdEntryV>,
    b: Seq<PasswdEntryV>,
    name: Seq<char>,
)
    requires
        lookup_passwd(a, name) is Some,
    ensures
        lookup_passwd(a + b, name) == lookup_passwd(a, name),
    decreases a.len(),
{
    assert(a.len() > 0);
    assert((a + b)[0] == a[0]);
    if a[0].name == name {
    } else {
        assert((a + b).drop_first() =~= a.drop_first() + b);
        lemma_lookup_passwd_append_left(a.drop_first(), b, name);
    }
}

/// A name that occurs first at index `i` is what the shadow lookup finds.
proof fn lemma_lookup_shadow_first(ss: Seq<ShadowEntryV>, i: int)
    requires
        0 <= i < ss.len(),
        forall|j: int| 0 <= j < i ==> (#[trigger] ss[j]).name != ss[i].name,
    ensures
        lookup_shadow(ss, ss[i].name) == Some(ss[i]),
    decreases i,
{
    if i > 0 {
        assert(ss[0].name != ss[i].name);
        assert(forall|j: int|
            0 <= j < i - 1 ==> (#[trigger] ss.drop_first()[j]).name != ss.drop_first()[i - 1].name);
        lemma_lookup_shadow_first(ss.drop_first(), i - 1);
        assert(ss.drop_first()[i - 1] == ss[i]);
    }
}

proof fn lemma_lookup_shadow_append_left(
    a: Seq<ShadowEntryV>,
    b: Seq<ShadowEntryV>,
    name: Seq<char>,
)
    requires
        lookup_shadow(a, name) is Some,
    ensures
        lookup_shadow(a + b, name) == lookup_shadow(a, name),
    decreases a.len(),
{
    assert(a.len() > 0);
    assert((a + b)[0] == a[0]);
    if a[0].name == name {
    } else {
        assert((a + b).drop_first() =~= a.drop_first() + b);
        lemma_lookup_shadow_append_left(a.drop_first(), b, name);
    }
}

/// A user pass over a prefix succeeds and computes the prefix of the
/// whole pass's records.
proof fn lemma_users_pass1_prefix(
    specs: Seq<UserSpecV>,
    existing: Seq<PasswdEntryV>,
    existing_shadow: Seq<ShadowEntryV>,
    groups: Seq<GroupEntryV>,
    decl: Seq<Seq<char>>,
    k: int,
)
    requires
        users_pass1(specs, existing, existing_shadow, groups, decl) is Ok,
        0 <= k <= specs.len(),
    ensures
        users_pass1(specs.take(k), existing, existing_shadow, groups, decl) is Ok,
        users_pass1(specs.take(k), existing, existing_shadow, groups, decl).unwrap().passwd
            == users_pass1(specs, existing, existing_shadow, groups, decl).unwrap().passwd.take(k),
        users_pass1(specs.take(k), existing, existing_shadow, groups, decl).unwrap().shadow
            == users_pass1(specs, existing, existing_shadow, groups, decl).unwrap().shadow.take(k),
        users_pass1(specs.take(k), existing, existing_shadow, groups, decl).unwrap().uid_map
            == users_pass1(specs, existing, existing_shadow, groups, decl).unwrap().uid_map.take(k),
    decreases specs.len() - k,
{
    lemma_users_pass1_props(specs, existing, existing_shadow, groups, decl);
    let acc = users_pass1(specs, existing, existing_shadow, groups, decl).unwrap();
    if k == specs.len() {
        assert(specs.take(k) =~= specs);
        assert(acc.passwd.take(k) =~= acc.passwd);
        assert(acc.shadow.take(k) =~= acc.shadow);
        assert(acc.uid_map.take(k) =~= acc.uid_map);
    } else {
        lemma_users_pass1_prefix(specs, existing, existing_shadow, groups, decl, k + 1);
        let acck1 = users_pass1(specs.take(k + 1), existing, existing_shadow, groups, decl).unwrap();
        assert(specs.take(k + 1).drop_last() =~= specs.take(k));
        let acck = users_pass1(specs.take(k), existing, existing_shadow, groups, decl).unwrap();
        assert(acck1.passwd == acck.passwd.push(acck1.passwd.last()));
        assert(acck.passwd =~= acc.passwd.take(k));
        assert(acck1.shadow == acck.shadow.push(acck1.shadow.last()));
        assert(acck.shadow =~= acc.shadow.take(k));
        assert(acck1.uid_map == acck.uid_map.push(acck1.uid_map.last()));
        assert(acck.uid_map =~= acc.uid_map.take(k));
    }
}

/// Every name the new declarative user set holds is a declared name.
proof fn lemma_declared_user_subset(
    specs: Seq<UserSpecV>,
    existing: Seq<PasswdEntryV>,
    decl: Seq<Seq<char>>,
    n: Seq<char>,
)
    requires
        declared_user_names(specs, existing, decl).contains(n),
    ensures
        user_spec_names(specs).contains(n),
    decreases specs.len(),
{
    let d = declared_user_names(specs, existing, decl);
    assert(specs.len() > 0);
    let pre = declared_user_names(specs.drop_last(), existing, decl);
    let u = specs.last();
    let i = choose|i: int| 0 <= i < d.len() && d[i] == n;
    if i < pre.len() {
        assert(pre[i] == n);
        assert(pre.contains(n));
        lemma_declared_user_subset(specs.drop_last(), existing, decl, n);
        let j = choose|j: int|
            0 <= j < user_spec_names(specs.drop_last()).len() && user_spec_names(
                specs.drop_last(),
            )[j] == n;
        assert(user_spec_names(specs)[j] == n);
    } else {
        assert(d[i] == u.name);
        assert(user_spec_names(specs)[specs.len() - 1] == n);
    }
}

/// With unique declared names, a declared name stands in the new
/// declarative user set exactly when the user was fresh or already
/// declarative.
proof fn lemma_declared_user_membership(
    specs: Seq<UserSpecV>,
    existing: Seq<PasswdEntryV>,
    decl: Seq<Seq<char>>,
    i: int,
)
    requires
        !has_dup_names(user_spec_names(specs)),
        0 <= i < specs.len(),
    ensures
        declared_user_names(specs, existing, decl).contains(specs[i].name) <==> (lookup_passwd(
            existing,
            specs[i].name,
        ) is None || decl.contains(specs[i].name)),
    decreases specs.len(),
{
    let d = declared_user_names(specs, existing, decl);
    let pre = declared_user_names(specs.drop_last(), existing, decl);
    let u = specs.last();
    let names = user_spec_names(specs);
    if i == specs.len() - 1 {
        if lookup_passwd(existing, u.name) is None || decl.contains(u.name) {
            assert(d == pre.push(u.name));
            assert(d[d.len() - 1] == u.name);
            assert(d.contains(specs[i].name));
        } else {
            assert(d == pre);
            if pre.contains(u.name) {
                lemma_declared_user_subset(specs.drop_last(), existing, decl, u.name);
                let j = choose|j: int|
                    0 <= j < user_spec_names(specs.drop_last()).len() && user_spec_names(
                        specs.drop_last(),
                    )[j] == u.name;
                assert(names[j] == u.name);
                assert(names[j] == names[specs.len() - 1]);
                assert(has_dup_names(names));
            }
        }
    } else {
        assert(!has_dup_names(user_spec_names(specs.drop_last()))) by {
            if has_dup_names(user_spec_names(specs.drop_last())) {
                let (a, b) = choose|a: int, b: int|
                    0 <= a < b < user_spec_names(specs.drop_last()).len() && user_spec_names(
                        specs.drop_last(),
                    )[a] == user_spec_names(specs.drop_last())[b];
                assert(names[a] == names[b]);
            }
        }
        lemma_declared_user_membership(specs.drop_last(), existing, decl, i);
        assert(specs.drop_last()[i] == specs[i]);
        assert(u.name != specs[i].name) by {
            if u.name == specs[i].name {
                assert(names[i] == names[specs.len() - 1]);
            }
        }
        if lookup_passwd(existing, u.name) is None || decl.contains(u.name) {
            assert(d == pre.push(u.name));
            assert(d.contains(specs[i].name) <==> pre.contains(specs[i].name)) by {
                if pre.contains(specs[i].name) {
                    let j = choose|j: int| 0 <= j < pre.len() && pre[j] == specs[i].name;
                    assert(d[j] == specs[i].name);
                }
                if d.contains(specs[i].name) {
                    let j = choose|j: int| 0 <= j < d.len() && d[j] == specs[i].name;
                    assert(j < pre.len());
                    assert(pre[j] == specs[i].name);
                }
            }
        } else {
            assert(d == pre);
        }
    }
}

/// User retention distributes over concatenation.
proof fn lemma_kept_users_concat(
    a: Seq<PasswdEntryV>,
    b: Seq<PasswdEntryV>,
    spec_names: Seq<Seq<char>>,
    decl: Seq<Seq<char>>,
    mutable: bool,
)
    ensures
        kept_users(a + b, spec_names, decl, mutable) == kept_users(a, spec_names, decl, mutable)
            + kept_users(b, spec_names, decl, mutable),
    decreases b.len(),
{
    if b.len() == 0 {
        assert(a + b =~= a);
        assert(kept_users(b, spec_names, decl, mutable) =~= Seq::<PasswdEntryV>::empty());
        assert(kept_users(a, spec_names, decl, mutable) + kept_users(b, spec_names, decl, mutable)
            =~= kept_users(a, spec_names, decl, mutable));
    } else {
        assert((a + b).drop_last() =~= a + b.drop_last());
        assert((a + b).last() == b.last());
        lemma_kept_users_concat(a, b.drop_last(), spec_names, decl, mutable);
        assert(kept_users(a + b, spec_names, decl, mutable) =~= kept_users(
            a,
            spec_names,
            decl,
            mutable,
        ) + kept_users(b, spec_names, decl, mutable));
    }
}

/// Nothing is retained from users whose names are all declared.
proof fn lemma_kept_users_none(
    a: Seq<PasswdEntryV>,
    spec_names: Seq<Seq<char>>,
    decl: Seq<Seq<char>>,
    mutable: bool,
)
    requires
        forall|j: int| 0 <= j < a.len() ==> spec_names.contains((#[trigger] a[j]).name),
    ensures
        kept_users(a, spec_names, decl, mutable) == Seq::<PasswdEntryV>::empty(),
    decreases a.len(),
{
    if a.len() == 0 {
        assert(kept_users(a, spec_names, decl, mutable) =~= Seq::<PasswdEntryV>::empty());
    } else {
        assert(forall|j: int|
            0 <= j < a.drop_last().len() ==> spec_names.contains(
                (#[trigger] a.drop_last()[j]).name,
            ));
        lemma_kept_users_none(a.drop_last(), spec_names, decl, mutable);
        assert(spec_names.contains(a.last().name));
    }
}

/// Everything is retained from users that all satisfy the retention
/// condition.
proof fn lemma_kept_users_all(
    a: Seq<PasswdEntryV>,
    spec_names: Seq<Seq<char>>,
    decl: Seq<Seq<char>>,
)
    requires
        forall|j: int|
            0 <= j < a.len() ==> !spec_names.contains((#[trigger] a[j]).name) && !decl.contains(
                a[j].name,
            ),
    ensures
        kept_users(a, spec_names, decl, true) == a,
    decreases a.len(),
{
    if a.len() == 0 {
        assert(kept_users(a, spec_names, decl, true) =~= a);
    } else {
        assert(forall|j: int|
            0 <= j < a.drop_last().len() ==> !spec_names.contains(
                (#[trigger] a.drop_last()[j]).name,
            ) && !decl.contains(a.drop_last()[j].name));
        lemma_kept_users_all(a.drop_last(), spec_names, decl);
        assert(!spec_names.contains(a.last().name) && !decl.contains(a.last().name));
        assert(kept_users(a, spec_names, decl, true) =~= a);
    }
}

/// Every retained user is undeclared and not declarative.
proof fn lemma_kept_users_elems(
    existing: Seq<PasswdEntryV>,
    spec_names: Seq<Seq<char>>,
    decl: Seq<Seq<char>>,
    mutable: bool,
)
    ensures
        ({
            let kept = kept_users(existing, spec_names, decl, mutable);
            forall|j: int|
                0 <= j < kept.len() ==> !spec_names.contains((#[trigger] kept[j]).name)
                    && !decl.contains(kept[j].name)
        }),
    decreases existing.len(),
{
    if existing.len() > 0 {
        lemma_kept_users_elems(existing.drop_last(), spec_names, decl, mutable);
        let pre = kept_users(existing.drop_last(), spec_names, decl, mutable);
        let kept = kept_users(existing, spec_names, decl, mutable);
        let e = existing.last();
        assert forall|j: int| 0 <= j < kept.len() implies !spec_names.contains(
            (#[trigger] kept[j]).name,
        ) && !decl.contains(kept[j].name) by {
            if !spec_names.contains(e.name) && mutable && !decl.contains(e.name) {
                assert(kept == pre.push(e));
                if j < pre.len() {
                    assert(kept[j] == pre[j]);
                } else {
                    assert(kept[j] == e);
                }
            } else {
                assert(kept == pre);
            }
        }
    }
}

/// Shadow retention distributes over concatenation.
proof fn lemma_kept_shadows_concat(
    a: Seq<ShadowEntryV>,
    b: Seq<ShadowEntryV>,
    kept_names: Seq<Seq<char>>,
)
    ensures
        kept_shadows(a + b, kept_names) == kept_shadows(a, kept_names) + kept_shadows(
            b,
            kept_names,
        ),
    decreases b.len(),
{
    if b.len() == 0 {
        assert(a + b =~= a);
        assert(kept_shadows(b, kept_names) =~= Seq::<ShadowEntryV>::empty());
        assert(kept_shadows(a, kept_names) + kept_shadows(b, kept_names) =~= kept_shadows(
            a,
            kept_names,
        ));
    } else {
        assert((a + b).drop_last() =~= a + b.drop_last());
        assert((a + b).last() == b.last());
        lemma_kept_shadows_concat(a, b.drop_last(), kept_names);
        assert(kept_shadows(a + b, kept_names) =~= kept_shadows(a, kept_names) + kept_shadows(
            b,
            kept_names,
        ));
    }
}

/// No shadow record is retained whose name is outside the kept names.
proof fn lemma_kept_shadows_none(a: Seq<ShadowEntryV>, kept_names: Seq<Seq<char>>)
    requires
        forall|j: int| 0 <= j < a.len() ==> !kept_names.contains((#[trigger] a[j]).name),
    ensures
        kept_shadows(a, kept_names) == Seq::<ShadowEntryV>::empty(),
    decreases a.len(),
{
    if a.len() == 0 {
        assert(kept_shadows(a, kept_names) =~= Seq::<ShadowEntryV>::empty());
    } else {
        assert(forall|j: int|
            0 <= j < a.drop_last().len() ==> !kept_names.contains(
                (#[trigger] a.drop_last()[j]).name,
            ));
        lemma_kept_shadows_none(a.drop_last(), kept_names);
        assert(!kept_names.contains(a.last().name));
    }
}

/// Every shadow record whose name is kept is retained.
proof fn lemma_kept_shadows_all(a: Seq<ShadowEntryV>, kept_names: Seq<Seq<char>>)
    requires
        forall|j: int| 0 <= j < a.len() ==> kept_names.contains((#[trigger] a[j]).name),
    ensures
        kept_shadows(a, kept_names) == a,
    decreases a.len(),
{
    if a.len() == 0 {
        assert(kept_shadows(a, kept_names) =~= a);
    } else {
        assert(forall|j: int|
            0 <= j < a.drop_last().len() ==> kept_names.contains(
                (#[trigger] a.drop_last()[j]).name,
            ));
        lemma_kept_shadows_all(a.drop_last(), kept_names);
        assert(kept_names.contains(a.last().name));
        assert(kept_shadows(a, kept_names) =~= a);
    }
}

/// Every retained shadow record carries a kept name.
proof fn lemma_kept_shadows_elems(a: Seq<ShadowEntryV>, kept_names: Seq<Seq<char>>)
    ensures
        ({
            let kept = kept_shadows(a, kept_names);
            forall|j: int| 0 <= j < kept.len() ==> kept_names.contains((#[trigger] kept[j]).name)
        }),
    decreases a.len(),
{
    if a.len() > 0 {
        lemma_kept_shadows_elems(a.drop_last(), kept_names);
        let pre = kept_shadows(a.drop_last(), kept_names);
        let kept = kept_shadows(a, kept_names);
        let e = a.last();
        assert forall|j: int| 0 <= j < kept.len() implies kept_names.contains(
            (#[trigger] kept[j]).name,
        ) by {
            if kept_names.contains(e.name) {
                assert(kept == pre.push(e));
                if j < pre.len() {
                    assert(kept[j] == pre[j]);
                } else {
                    assert(kept[j] == e);
                }
            } else {
                assert(kept == pre);
            }
        }
    }
}

/// The second pass over the first pass's output resolves every declared
/// user exactly as the first pass did.
proof fn lemma_users_idem_aux(
    specs: Seq<UserSpecV>,
    existing: Seq<PasswdEntryV>,
    existing_shadow: Seq<ShadowEntryV>,
    groups: Seq<GroupEntryV>,
    decl: Seq<Seq<char>>,
    mutable: bool,
    k: int,
)
    requires
        users_pass1(specs, existing, existing_shadow, groups, decl) is Ok,
        !has_dup_names(user_spec_names(specs)),
        0 <= k <= specs.len(),
    ensures
        ({
            let acc1 = users_pass1(specs, existing, existing_shadow, groups, decl).unwrap();
            let names = user_spec_names(specs);
            let kept1 = kept_users(existing, names, decl, mutable);
            let out_p1 = acc1.passwd + kept1;
            let out_s1 = acc1.shadow + kept_shadows(existing_shadow, passwd_names(kept1));
            let decl1 = acc1.declarative;
            let r2 = users_pass1(specs.take(k), out_p1, out_s1, groups, decl1);
            let r1 = users_pass1(specs.take(k), existing, existing_shadow, groups, decl);
            &&& r2 is Ok
            &&& r2.unwrap().passwd == r1.unwrap().passwd
            &&& r2.unwrap().shadow == r1.unwrap().shadow
            &&& r2.unwrap().uid_map == r1.unwrap().uid_map
            &&& r2.unwrap().declarative == r1.unwrap().declarative
        }),
    decreases k,
{
    lemma_users_pass1_props(specs, existing, existing_shadow, groups, decl);
    let acc1 = users_pass1(specs, existing, existing_shadow, groups, decl).unwrap();
    let names = user_spec_names(specs);
    let kept1 = kept_users(existing, names, decl, mutable);
    let out_p1 = acc1.passwd + kept1;
    let ks1 = kept_shadows(existing_shadow, passwd_names(kept1));
    let out_s1 = acc1.shadow + ks1;
    let decl1 = acc1.declarative;
    lemma_users_pass1_prefix(specs, existing, existing_shadow, groups, decl, k);
    if k == 0 {
        assert(specs.take(0) =~= Seq::<UserSpecV>::empty());
        let r2 = users_pass1(specs.take(0), out_p1, out_s1, groups, decl1).unwrap();
        let r1 = users_pass1(specs.take(0), existing, existing_shadow, groups, decl).unwrap();
        assert(r2.passwd =~= r1.passwd);
        assert(r2.shadow =~= r1.shadow);
        assert(r2.uid_map =~= r1.uid_map);
        assert(r2.declarative =~= r1.declarative);
    } else {
        lemma_users_idem_aux(specs, existing, existing_shadow, groups, decl, mutable, k - 1);
        lemma_users_pass1_prefix(specs, existing, existing_shadow, groups, decl, k - 1);
        let i = k - 1;
        let u = specs[i];
        assert(specs.take(k).drop_last() =~= specs.take(i));
        assert(specs.take(k).last() == u);
        assert(acc1.passwd[i].name == u.name);
        assert forall|j: int| 0 <= j < i implies (#[trigger] acc1.passwd[j]).name
            != acc1.passwd[i].name by {
            if acc1.passwd[j].name == acc1.passwd[i].name {
                assert(names[j] == names[i]);
                assert(has_dup_names(names));
            }
        }
        lemma_lookup_passwd_first(acc1.passwd, i);
        lemma_lookup_passwd_append_left(acc1.passwd, kept1, u.name);
        let e2 = acc1.passwd[i];
        assert(lookup_passwd(out_p1, u.name) == Some(e2));
        let s1 = acc1.shadow[i];
        assert(s1.name == u.name) by {
            if lookup_passwd(existing, u.name) is Some {
                let prev = lookup_shadow(existing_shadow, u.name);
                let prev_hash = match prev {
                    Some(se) => Some(se.passwd),
                    None => None,
                };
                assert(s1 == shadow_of(u.name, resolve_password(u, prev_hash, false), prev));
            } else {
                assert(s1 == shadow_of(u.name, resolve_password(u, None, true), None));
            }
        }
        assert forall|j: int| 0 <= j < i implies (#[trigger] acc1.shadow[j]).name
            != acc1.shadow[i].name by {
            assert(acc1.shadow[j].name == specs[j].name) by {
                if lookup_passwd(existing, specs[j].name) is Some {
                } else {
                }
            }
            if acc1.shadow[j].name == acc1.shadow[i].name {
                assert(names[j] == names[i]);
                assert(has_dup_names(names));
            }
        }
        lemma_lookup_shadow_first(acc1.shadow, i);
        lemma_lookup_shadow_append_left(acc1.shadow, ks1, u.name);
        assert(lookup_shadow(out_s1, u.name) == Some(s1));
        let h1 = s1.passwd;
        let h2 = resolve_password(u, Some(h1), false);
        assert(h2 == h1) by {
            if lookup_passwd(existing, u.name) is Some {
                let prev = lookup_shadow(existing_shadow, u.name);
                let prev_hash = match prev {
                    Some(se) => Some(se.passwd),
                    None => None,
                };
                assert(s1 == shadow_of(u.name, resolve_password(u, prev_hash, false), prev));
            } else {
                assert(s1 == shadow_of(u.name, resolve_password(u, None, true), None));
            }
        }
        assert(shadow_of(u.name, h2, Some(s1)) =~= s1);
        lemma_declared_user_membership(specs, existing, decl, i);
        let grp = lookup_group(groups, u.group).unwrap();
        assert(e2.gid == grp.gid && e2.gecos == u.description && e2.dir == u.home && e2.shell
            == u.shell && e2.name == u.name);
        assert((PasswdEntryV {
            name: u.name,
            passwd: e2.passwd,
            uid: e2.uid,
            gid: grp.gid,
            gecos: u.description,
            dir: u.home,
            shell: u.shell,
        }) =~= e2);
        let acc2p = users_pass1(specs.take(i), out_p1, out_s1, groups, decl1).unwrap();
        let acc1p = users_pass1(specs.take(i), existing, existing_shadow, groups, decl).unwrap();
        let acc2k = users_pass1(specs.take(k), out_p1, out_s1, groups, decl1).unwrap();
        let acc1k = users_pass1(specs.take(k), existing, existing_shadow, groups, decl).unwrap();
        assert(acc2k.passwd == acc2p.passwd.push(e2));
        assert(acc1k.passwd =~= acc1.passwd.take(k));
        assert(acc1p.passwd =~= acc1.passwd.take(i));
        assert(acc1.passwd.take(k) =~= acc1.passwd.take(i).push(e2));
        assert(acc2k.passwd == acc1k.passwd);
        assert(acc2k.shadow == acc2p.shadow.push(s1));
        assert(acc1k.shadow =~= acc1.shadow.take(k));
        assert(acc1p.shadow =~= acc1.shadow.take(i));
        assert(acc1.shadow.take(k) =~= acc1.shadow.take(i).push(s1));
        assert(acc2k.shadow == acc1k.shadow);
        assert(acc2k.uid_map == acc2p.uid_map.push(IdMapEntryV { name: u.name, id: e2.uid }));
        assert(acc1k.uid_map =~= acc1.uid_map.take(k));
        assert(acc1.uid_map[i] == (IdMapEntryV { name: u.name, id: e2.uid }));
        assert(acc1.uid_map.take(k) =~= acc1.uid_map.take(i).push(acc1.uid_map[i]));
        assert(acc2k.uid_map == acc1k.uid_map);
        if decl1.contains(u.name) {
            assert(lookup_passwd(existing, u.name) is None || decl.contains(u.name));
            assert(acc2k.declarative == acc2p.declarative.push(u.name));
            assert(acc1k.declarative == acc1p.declarative.push(u.name));
        } else {
            assert(!(lookup_passwd(existing, u.name) is None || decl.contains(u.name)));
            assert(acc2k.declarative == acc2p.declarative);
            assert(acc1k.declarative == acc1p.declarative);
        }
    }
}

/// Idempotence (users): a second pass with the same specification over
/// the first pass's unchanged output reproduces it — the same passwd
/// and shadow records in the same order, the same uid map, the same
/// declarative set, and the same retained users and shadow records.
pub proof fn lemma_users_idempotent(
    specs: Seq<UserSpecV>,
    existing: Seq<PasswdEntryV>,
    existing_shadow: Seq<ShadowEntryV>,
    groups: Seq<GroupEntryV>,
    decl: Seq<Seq<char>>,
    mutable: bool,
)
    requires
        users_pass1(specs, existing, existing_shadow, groups, decl) is Ok,
        !has_dup_names(user_spec_names(specs)),
    ensures
        ({
            let acc1 = users_pass1(specs, existing, existing_shadow, groups, decl).unwrap();
            let names = user_spec_names(specs);
            let kept1 = kept_users(existing, names, decl, mutable);
            let out_p1 = acc1.passwd + kept1;
            let out_s1 = acc1.shadow + kept_shadows(existing_shadow, passwd_names(kept1));
            let decl1 = acc1.declarative;
            let r2 = users_pass1(specs, out_p1, out_s1, groups, decl1);
            &&& r2 is Ok
            &&& r2.unwrap().passwd == acc1.passwd
            &&& r2.unwrap().shadow == acc1.shadow
            &&& r2.unwrap().uid_map == acc1.uid_map
            &&& r2.unwrap().declarative == decl1
            &&& kept_users(out_p1, names, decl1, mutable) == kept1
            &&& kept_shadows(out_s1, passwd_names(kept1)) == kept_shadows(
                existing_shadow,
                passwd_names(kept1),
            )
        }),
{
    lemma_users_pass1_props(specs, existing, existing_shadow, groups, decl);
    let acc1 = users_pass1(specs, existing, existing_shadow, groups, decl).unwrap();
    let names = user_spec_names(specs);
    let kept1 = kept_users(existing, names, decl, mutable);
    let kn1 = passwd_names(kept1);
    let ks1 = kept_shadows(existing_shadow, kn1);
    let out_p1 = acc1.passwd + kept1;
    let out_s1 = acc1.shadow + ks1;
    let decl1 = acc1.declarative;
    lemma_users_idem_aux(
        specs,
        existing,
        existing_shadow,
        groups,
        decl,
        mutable,
        specs.len() as int,
    );
    assert(specs.take(specs.len() as int) =~= specs);
    lemma_kept_users_concat(acc1.passwd, kept1, names, decl1, mutable);
    assert(forall|j: int|
        0 <= j < acc1.passwd.len() ==> names.contains((#[trigger] acc1.passwd[j]).name)) by {
        assert forall|j: int|
            0 <= j < acc1.passwd.len() implies names.contains(
            (#[trigger] acc1.passwd[j]).name,
        ) by {
            assert(acc1.passwd[j].name == names[j]);
        }
    }
    lemma_kept_users_none(acc1.passwd, names, decl1, mutable);
    lemma_kept_users_elems(existing, names, decl, mutable);
    if mutable {
        assert(forall|j: int|
            0 <= j < kept1.len() ==> !names.contains((#[trigger] kept1[j]).name) && !decl1.contains(
                kept1[j].name,
            )) by {
            assert forall|j: int|
                0 <= j < kept1.len() implies !names.contains((#[trigger] kept1[j]).name)
                && !decl1.contains(kept1[j].name) by {
                if decl1.contains(kept1[j].name) {
                    lemma_declared_user_subset(specs, existing, decl, kept1[j].name);
                }
            }
        }
        lemma_kept_users_all(kept1, names, decl1);
        assert(kept_users(out_p1, names, decl1, mutable) =~= kept1);
    } else {
        lemma_immutable_removes_users(existing, names, decl);
        lemma_immutable_removes_users(out_p1, names, decl1);
        assert(kept_users(out_p1, names, decl1, mutable) =~= kept1);
    }
    lemma_kept_shadows_concat(acc1.shadow, ks1, kn1);
    assert(forall|j: int|
        0 <= j < acc1.shadow.len() ==> !kn1.contains((#[trigger] acc1.shadow[j]).name)) by {
        assert forall|j: int|
            0 <= j < acc1.shadow.len() implies !kn1.contains(
            (#[trigger] acc1.shadow[j]).name,
        ) by {
            assert(acc1.shadow[j].name == specs[j].name) by {
                if lookup_passwd(existing, specs[j].name) is Some {
                } else {
                }
            }
            if kn1.contains(acc1.shadow[j].name) {
                let m = choose|m: int| 0 <= m < kn1.len() && kn1[m] == acc1.shadow[j].name;
                assert(kn1[m] == kept1[m].name);
                assert(!names.contains(kept1[m].name));
                assert(names[j] == acc1.shadow[j].name);
            }
        }
    }
    lemma_kept_shadows_none(acc1.shadow, kn1);
    lemma_kept_shadows_elems(existing_shadow, kn1);
    lemma_kept_shadows_all(ks1, kn1);
    assert(kept_shadows(out_s1, kn1) =~= ks1);
}

/// The taken set of the user pass is the existing uids followed by the
/// resolved uids, and a fresh user's uid collides with none of the
/// identifiers taken before it was resolved.
proof fn lemma_users_pass1_taken(
    specs: Seq<UserSpecV>,
    existing: Seq<PasswdEntryV>,
    existing_shadow: Seq<ShadowEntryV>,
    groups: Seq<GroupEntryV>,
    decl: Seq<Seq<char>>,
)
    requires
        users_pass1(specs, existing, existing_shadow, groups, decl) is Ok,
    ensures
        ({
            let acc = users_pass1(specs, existing, existing_shadow, groups, decl).unwrap();
            &&& acc.taken == passwd_uids(existing) + passwd_uids(acc.passwd)
            &&& forall|i: int|
                #![trigger specs[i]]
                0 <= i < specs.len() ==> (lookup_passwd(existing, specs[i].name) is None ==> !(
                passwd_uids(existing) + passwd_uids(acc.passwd.take(i))).contains(
                    acc.passwd[i].uid,
                ))
        }),
    decreases specs.len(),
{
    lemma_users_pass1_props(specs, existing, existing_shadow, groups, decl);
    let acc = users_pass1(specs, existing, existing_shadow, groups, decl).unwrap();
    if specs.len() == 0 {
        assert(passwd_uids(acc.passwd) =~= Seq::<u32>::empty());
        assert(acc.taken =~= passwd_uids(existing) + passwd_uids(acc.passwd));
    } else {
        let pre = specs.drop_last();
        lemma_users_pass1_taken(pre, existing, existing_shadow, groups, decl);
        lemma_users_pass1_props(pre, existing, existing_shadow, groups, decl);
        let accp = users_pass1(pre, existing, existing_shadow, groups, decl).unwrap();
        let u = specs.last();
        assert(acc.passwd == accp.passwd.push(acc.passwd.last()));
        assert(acc.taken == accp.taken.push(acc.passwd.last().uid));
        assert(passwd_uids(acc.passwd) =~= passwd_uids(accp.passwd).push(acc.passwd.last().uid));
        assert(acc.taken =~= passwd_uids(existing) + passwd_uids(acc.passwd));
        if lookup_passwd(existing, u.name) is None && u.uid is None {
            let kind = if u.is_system {
                IdKind::SystemUser
            } else {
                IdKind::NormalUser
            };
            crate::idalloc::lemma_alloc_spec_bounds(
                floor_of(kind) as int,
                ceiling_of(kind) as int,
                accp.taken,
            );
        }
        assert forall|i: int| #![trigger specs[i]] 0 <= i < specs.len() implies (lookup_passwd(
            existing,
            specs[i].name,
        ) is None ==> !(passwd_uids(existing) + passwd_uids(acc.passwd.take(i))).contains(
            acc.passwd[i].uid,
        )) by {
            if i < specs.len() - 1 {
                assert(pre[i] == specs[i]);
                assert(acc.passwd[i] == accp.passwd[i]);
                assert(acc.passwd.take(i) =~= accp.passwd.take(i));
            } else {
                assert(acc.passwd.take(i) =~= accp.passwd);
            }
        }
    }
}

/// A successful lookup returns an element of the sequence bearing the
/// looked-up name.
proof fn lemma_lookup_passwd_elem(ps: Seq<PasswdEntryV>, n: Seq<char>)
    requires
        lookup_passwd(ps, n) is Some,
    ensures
        ps.contains(lookup_passwd(ps, n).unwrap()),
        lookup_passwd(ps, n).unwrap().name == n,
    decreases ps.len(),
{
    assert(ps.len() > 0);
    if ps[0].name == n {
        assert(ps.contains(ps[0]));
    } else {
        lemma_lookup_passwd_elem(ps.drop_first(), n);
        let r = lookup_passwd(ps.drop_first(), n).unwrap();
        let idx = choose|idx: int| 0 <= idx < ps.drop_first().len() && ps.drop_first()[idx] == r;
        assert(ps[idx + 1] == r);
    }
}

/// Every retained user is one of the existing users.
proof fn lemma_kept_users_subset(
    existing: Seq<PasswdEntryV>,
    spec_names: Seq<Seq<char>>,
    decl: Seq<Seq<char>>,
    mutable: bool,
)
    ensures
        ({
            let kept = kept_users(existing, spec_names, decl, mutable);
            forall|j: int| 0 <= j < kept.len() ==> existing.contains(#[trigger] kept[j])
        }),
    decreases existing.len(),
{
    if existing.len() > 0 {
        lemma_kept_users_subset(existing.drop_last(), spec_names, decl, mutable);
        let pre = kept_users(existing.drop_last(), spec_names, decl, mutable);
        let kept = kept_users(existing, spec_names, decl, mutable);
        let e = existing.last();
        assert forall|j: int| 0 <= j < kept.len() implies existing.contains(#[trigger] kept[j]) by {
            if j < pre.len() {
                assert(kept[j] == pre[j]);
                let idx = choose|idx: int|
                    0 <= idx < existing.drop_last().len() && existing.drop_last()[idx] == pre[j];
                assert(existing[idx] == kept[j]);
            } else {
                assert(kept[j] == e);
                assert(existing[existing.len() - 1] == e);
            }
        }
    }
}

/// Retained users inherit the distinctness of the existing database.
proof fn lemma_kept_users_distinct(
    existing: Seq<PasswdEntryV>,
    spec_names: Seq<Seq<char>>,
    decl: Seq<Seq<char>>,
    mutable: bool,
)
    requires
        all_distinct(passwd_names(existing)),
        all_distinct(passwd_uids(existing)),
    ensures
        ({
            let kept = kept_users(existing, spec_names, decl, mutable);
            forall|a: int, b: int|
                0 <= a < b < kept.len() ==> kept[a].name != kept[b].name && kept[a].uid
                    != kept[b].uid
        }),
    decreases existing.len(),
{
    if existing.len() > 0 {
        let dl = existing.drop_last();
        assert(all_distinct(passwd_names(dl))) by {
            assert forall|a: int, b: int| 0 <= a < b < passwd_names(dl).len() implies passwd_names(
                dl,
            )[a] != passwd_names(dl)[b] by {
                assert(passwd_names(existing)[a] == passwd_names(dl)[a]);
                assert(passwd_names(existing)[b] == passwd_names(dl)[b]);
            }
        }
        assert(all_distinct(passwd_uids(dl))) by {
            assert forall|a: int, b: int| 0 <= a < b < passwd_uids(dl).len() implies passwd_uids(
                dl,
            )[a] != passwd_uids(dl)[b] by {
                assert(passwd_uids(existing)[a] == passwd_uids(dl)[a]);
                assert(passwd_uids(existing)[b] == passwd_uids(dl)[b]);
            }
        }
        lemma_kept_users_distinct(dl, spec_names, decl, mutable);
        lemma_kept_users_subset(dl, spec_names, decl, mutable);
        let pre = kept_users(dl, spec_names, decl, mutable);
        let kept = kept_users(existing, spec_names, decl, mutable);
        let e = existing.last();
        assert forall|a: int, b: int| 0 <= a < b < kept.len() implies kept[a].name != kept[b].name
            && kept[a].uid != kept[b].uid by {
            if b < pre.len() {
                assert(kept[a] == pre[a] && kept[b] == pre[b]);
            } else {
                assert(kept == pre.push(e));
                assert(kept[a] == pre[a] && kept[b] == e);
                let idx = choose|idx: int| 0 <= idx < dl.len() && dl[idx] == pre[a];
                assert(existing[idx] == pre[a]);
                assert(passwd_names(existing)[idx] == pre[a].name);
                assert(passwd_names(existing)[existing.len() - 1] == e.name);
                assert(passwd_uids(existing)[idx] == pre[a].uid);
                assert(passwd_uids(existing)[existing.len() - 1] == e.uid);
            }
        }
    }
}

/// Identifier uniqueness (users): over a database whose names and uids
/// are pairwise distinct, a successful pass with distinct declared
/// names yields names and uids that are again pairwise distinct — an
/// explicit uid already in use fails the pass instead.
pub proof fn lemma_user_ids_unique(
    specs: Seq<UserSpecV>,
    existing: Seq<PasswdEntryV>,
    existing_shadow: Seq<ShadowEntryV>,
    groups: Seq<GroupEntryV>,
    decl: Seq<Seq<char>>,
    mutable: bool,
)
    requires
        users_pass1(specs, existing, existing_shadow, groups, decl) is Ok,
        !has_dup_names(user_spec_names(specs)),
        all_distinct(passwd_names(existing)),
        all_distinct(passwd_uids(existing)),
    ensures
        ({
            let acc = users_pass1(specs, existing, existing_shadow, groups, decl).unwrap();
            let out = acc.passwd + kept_users(existing, user_spec_names(specs), decl, mutable);
            &&& all_distinct(passwd_names(out))
            &&& all_distinct(passwd_uids(out))
        }),
{
    lemma_users_pass1_props(specs, existing, existing_shadow, groups, decl);
    lemma_users_pass1_taken(specs, existing, existing_shadow, groups, decl);
    let names = user_spec_names(specs);
    let acc = users_pass1(specs, existing, existing_shadow, groups, decl).unwrap();
    let kept = kept_users(existing, names, decl, mutable);
    let out = acc.passwd + kept;
    lemma_kept_users_elems(existing, names, decl, mutable);
    lemma_kept_users_subset(existing, names, decl, mutable);
    lemma_kept_users_distinct(existing, names, decl, mutable);
    let n = acc.passwd.len() as int;
    assert forall|a: int, b: int| 0 <= a < b < out.len() implies out[a].name != out[b].name
        && out[a].uid != out[b].uid by {
        if b < n {
            assert(out[a] == acc.passwd[a] && out[b] == acc.passwd[b]);
            assert(acc.passwd[a].name == specs[a].name && acc.passwd[b].name == specs[b].name);
            if acc.passwd[a].name == acc.passwd[b].name {
                assert(names[a] == names[b]);
                assert(has_dup_names(names));
            }
            if lookup_passwd(existing, specs[b].name) is None {
                assert(!(passwd_uids(existing) + passwd_uids(acc.passwd.take(b))).contains(
                    acc.passwd[b].uid,
                ));
                assert(passwd_uids(acc.passwd.take(b))[a] == acc.passwd[a].uid);
                assert((passwd_uids(existing) + passwd_uids(acc.passwd.take(b)))[passwd_uids(
                    existing,
                ).len() + a] == acc.passwd[a].uid);
                assert((passwd_uids(existing) + passwd_uids(acc.passwd.take(b))).contains(
                    acc.passwd[a].uid,
                ));
            } else {
                lemma_lookup_passwd_elem(existing, specs[b].name);
                let eb = lookup_passwd(existing, specs[b].name).unwrap();
                let ib = choose|ib: int| 0 <= ib < existing.len() && existing[ib] == eb;
                assert(passwd_uids(existing)[ib] == eb.uid);
                assert(acc.passwd[b].uid == eb.uid);
                if lookup_passwd(existing, specs[a].name) is None {
                    assert(!(passwd_uids(existing) + passwd_uids(acc.passwd.take(a))).contains(
                        acc.passwd[a].uid,
                    ));
                    if acc.passwd[a].uid == eb.uid {
                        assert((passwd_uids(existing) + passwd_uids(acc.passwd.take(a)))[ib]
                            == eb.uid);
                        assert((passwd_uids(existing) + passwd_uids(acc.passwd.take(a))).contains(
                            acc.passwd[a].uid,
                        ));
                    }
                } else {
                    lemma_lookup_passwd_elem(existing, specs[a].name);
                    let ea = lookup_passwd(existing, specs[a].name).unwrap();
                    let ia = choose|ia: int| 0 <= ia < existing.len() && existing[ia] == ea;
                    assert(acc.passwd[a].uid == ea.uid);
                    assert(ea.name == specs[a].name && eb.name == specs[b].name);
                    assert(ia != ib);
                    assert(passwd_uids(existing)[ia] == ea.uid);
                    assert(passwd_uids(existing)[ib] == eb.uid);
                }
            }
        } else if a < n {
            assert(out[a] == acc.passwd[a] && out[b] == kept[b - n]);
            assert(acc.passwd[a].name == specs[a].name);
            if out[a].name == out[b].name {
                assert(names[a] == out[b].name);
                assert(names.contains(out[b].name));
                assert(!names.contains(kept[b - n].name));
            }
            let ib = choose|ib: int| 0 <= ib < existing.len() && existing[ib] == kept[b - n];
            assert(passwd_uids(existing)[ib] == kept[b - n].uid);
            if lookup_passwd(existing, specs[a].name) is None {
                assert(!(passwd_uids(existing) + passwd_uids(acc.passwd.take(a))).contains(
                    acc.passwd[a].uid,
                ));
                if acc.passwd[a].uid == kept[b - n].uid {
                    assert((passwd_uids(existing) + passwd_uids(acc.passwd.take(a)))[ib]
                        == kept[b - n].uid);
                    assert((passwd_uids(existing) + passwd_uids(acc.passwd.take(a))).contains(
                        acc.passwd[a].uid,
                    ));
                }
            } else {
                lemma_lookup_passwd_elem(existing, specs[a].name);
                let ea = lookup_passwd(existing, specs[a].name).unwrap();
                let ia = choose|ia: int| 0 <= ia < existing.len() && existing[ia] == ea;
                assert(acc.passwd[a].uid == ea.uid);
                assert(ea.name == specs[a].name);
                assert(names[a] == specs[a].name);
                assert(names.contains(ea.name));
                assert(!names.contains(kept[b - n].name));
                assert(existing[ia].name != existing[ib].name);
                assert(ia != ib);
                assert(passwd_uids(existing)[ia] == ea.uid);
            }
        } else {
            assert(out[a] == kept[a - n] && out[b] == kept[b - n]);
        }
    }
    assert forall|a: int, b: int| 0 <= a < b < passwd_names(out).len() implies passwd_names(
        out,
    )[a] != passwd_names(out)[b] by {
        assert(passwd_names(out)[a] == out[a].name && passwd_names(out)[b] == out[b].name);
    }
    assert forall|a: int, b: int| 0 <= a < b < passwd_uids(out).len() implies passwd_uids(out)[a]
        != passwd_uids(out)[b] by {
        assert(passwd_uids(out)[a] == out[a].uid && passwd_uids(out)[b] == out[b].uid);
    }
}

/// Identifier stability (users): a declared user whose name already
/// exists keeps the existing uid, whatever the specification says.
pub proof fn lemma_user_id_stability(
    specs: Seq<UserSpecV>,
    existing: Seq<PasswdEntryV>,
    existing_shadow: Seq<ShadowEntryV>,
    groups: Seq<GroupEntryV>,
    decl: Seq<Seq<char>>,
    i: int,
)
    requires
        users_pass1(specs, existing, existing_shadow, groups, decl) is Ok,
        0 <= i < specs.len(),
        lookup_passwd(existing, specs[i].name) is Some,
    ensures
        users_pass1(specs, existing, existing_shadow, groups, decl).unwrap().passwd[i].uid
            == lookup_passwd(existing, specs[i].name).unwrap().uid,
        users_pass1(specs, existing, existing_shadow, groups, decl).unwrap().uid_map[i]
            == (IdMapEntryV {
            name: specs[i].name,
            id: lookup_passwd(existing, specs[i].name).unwrap().uid,
        }),
{
    lemma_users_pass1_props(specs, existing, existing_shadow, groups, decl);
}

/// uid immutability with a warning: a differing explicit uid for an
/// existing user never changes the stored uid, and the pass reports it.
pub proof fn lemma_uid_change_ignored(
    specs: Seq<UserSpecV>,
    existing: Seq<PasswdEntryV>,
    existing_shadow: Seq<ShadowEntryV>,
    groups: Seq<GroupEntryV>,
    decl: Seq<Seq<char>>,
    i: int,
)
    requires
        users_pass1(specs, existing, existing_shadow, groups, decl) is Ok,
        0 <= i < specs.len(),
        lookup_passwd(existing, specs[i].name) is Some,
        specs[i].uid is Some,
        specs[i].uid.unwrap() != lookup_passwd(existing, specs[i].name).unwrap().uid,
    ensures
        users_pass1(specs, existing, existing_shadow, groups, decl).unwrap().passwd[i].uid
            == lookup_passwd(existing, specs[i].name).unwrap().uid,
        users_pass1(specs, existing, existing_shadow, groups, decl).unwrap().warnings.contains(
            WarningV::UidChangeIgnored {
                name: specs[i].name,
                existing: lookup_passwd(existing, specs[i].name).unwrap().uid,
                requested: specs[i].uid.unwrap(),
            },
        ),
{
    lemma_users_pass1_props(specs, existing, existing_shadow, groups, decl);
}

/// Declarative ownership (groups): without mutable mode nothing
/// undeclared survives; the output then holds exactly the declared
/// groups, in specification order.
pub proof fn lemma_immutable_removes_groups(
    existing: Seq<GroupEntryV>,
    spec_names: Seq<Seq<char>>,
    decl: Seq<Seq<char>>,
)
    ensures
        kept_groups(existing, spec_names, decl, false) == Seq::<GroupEntryV>::empty(),
    decreases existing.len(),
{
    if existing.len() == 0 {
        assert(kept_groups(existing, spec_names, decl, false) =~= Seq::<GroupEntryV>::empty());
    } else {
        lemma_immutable_removes_groups(existing.drop_last(), spec_names, decl);
    }
}

/// Declarative ownership (users): the same, for users.
pub proof fn lemma_immutable_removes_users(
    existing: Seq<PasswdEntryV>,
    spec_names: Seq<Seq<char>>,
    decl: Seq<Seq<char>>,
)
    ensures
        kept_users(existing, spec_names, decl, false) == Seq::<PasswdEntryV>::empty(),
    decreases existing.len(),
{
    if existing.len() == 0 {
        assert(kept_users(existing, spec_names, decl, false) =~= Seq::<PasswdEntryV>::empty());
    } else {
        lemma_immutable_removes_users(existing.drop_last(), spec_names, decl);
    }
}

} // verus!
