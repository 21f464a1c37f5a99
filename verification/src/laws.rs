//! The laws of reconciliation, stated over the mathematical models and
//! proved once and for all: every discrepancy is covered exactly once, an
//! unchanged environment yields no changes, and applying the computed
//! changes restores the saved environment exactly.

use vstd::prelude::*;
use vstd::map::*;
use crate::reconcile::change_name;
use crate::reconcile::change_seq;
use crate::reconcile::pass_live;
use crate::reconcile::pass_saved;
use crate::reconcile::ChangeView;
use crate::snapshot::keys_unique;
use crate::snapshot::lemma_map_of_contains;
use crate::snapshot::lemma_map_of_index;
use crate::snapshot::lemma_sorted_unique;
use crate::snapshot::SavedEnvironment;

verus! {

/// Whether the standing of a live entry in the saved map calls for a change.
pub open spec fn changed_entry(saved: Map<Seq<u8>, Seq<u8>>, e: (Seq<u8>, Seq<u8>)) -> bool {
    !saved.contains_key(e.0) || saved[e.0] != e.1
}

/// The change the first pass emits for a live entry that calls for one.
pub open spec fn live_change(saved: Map<Seq<u8>, Seq<u8>>, e: (Seq<u8>, Seq<u8>)) -> ChangeView {
    if !saved.contains_key(e.0) {
        ChangeView::Unset(e.0)
    } else {
        ChangeView::Assign(e.0, saved[e.0])
    }
}

/// A name on which the saved and the live environment disagree.
pub open spec fn discrepancy(
    saved: Map<Seq<u8>, Seq<u8>>,
    live: Map<Seq<u8>, Seq<u8>>,
    k: Seq<u8>,
) -> bool {
    (live.contains_key(k) && !saved.contains_key(k)) || (saved.contains_key(k)
        && !live.contains_key(k)) || (saved.contains_key(k) && live.contains_key(k) && saved[k]
        != live[k])
}

/// One change applied to an environment.
pub open spec fn apply_one(m: Map<Seq<u8>, Seq<u8>>, c: ChangeView) -> Map<Seq<u8>, Seq<u8>> {
    match c {
        ChangeView::Unset(k) => m.remove(k),
        ChangeView::Assign(k, v) => m.insert(k, v),
    }
}

/// A change list applied to an environment, in order.
pub open spec fn apply_changes(m: Map<Seq<u8>, Seq<u8>>, cs: Seq<ChangeView>) -> Map<
    Seq<u8>,
    Seq<u8>,
>
    decreases cs.len(),
{
    if cs.len() == 0 {
        m
    } else {
        apply_changes(apply_one(m, cs[0]), cs.skip(1))
    }
}

/// No two changes touch the same name.
pub open spec fn names_distinct(cs: Seq<ChangeView>) -> bool {
    forall|i: int, j: int|
        0 <= i < j < cs.len() ==> change_name(cs[i]) != change_name(cs[j])
}

/// Each change of the first pass comes from a live entry that calls for
/// it, and each live entry that calls for a change contributes it.
proof fn lemma_pass_live_elems(s: Map<Seq<u8>, Seq<u8>>, l: Seq<(Seq<u8>, Seq<u8>)>)
    ensures
        forall|i: int|
            0 <= i < pass_live(s, l).len() ==> exists|j: int|
                0 <= j < l.len() && changed_entry(s, l[j]) && #[trigger] pass_live(s, l)[i]
                    == live_change(s, l[j]),
        forall|j: int|
            0 <= j < l.len() && changed_entry(s, #[trigger] l[j]) ==> exists|i: int|
                0 <= i < pass_live(s, l).len() && pass_live(s, l)[i] == live_change(s, l[j]),
    decreases l.len(),
{
    if l.len() > 0 {
        lemma_pass_live_elems(s, l.skip(1));
        let p = pass_live(s, l);
        let rest = pass_live(s, l.skip(1));
        let step: Seq<ChangeView> = if changed_entry(s, l[0]) {
            seq![live_change(s, l[0])]
        } else {
            Seq::empty()
        };
        assert(p == step + rest);
        assert forall|i: int| 0 <= i < p.len() implies exists|j: int|
            0 <= j < l.len() && changed_entry(s, l[j]) && #[trigger] p[i] == live_change(
                s,
                l[j],
            ) by {
            if i < step.len() {
                assert(p[i] == live_change(s, l[0]) && changed_entry(s, l[0]));
            } else {
                assert(p[i] == rest[i - step.len()]);
                let j0 = choose|j: int|
                    0 <= j < l.skip(1).len() && changed_entry(s, l.skip(1)[j]) && #[trigger] rest[i
                        - step.len()] == live_change(s, l.skip(1)[j]);
                assert(l.skip(1)[j0] == l[j0 + 1]);
                assert(changed_entry(s, l[j0 + 1]) && p[i] == live_change(s, l[j0 + 1]));
            }
        }
        assert forall|j: int| 0 <= j < l.len() && changed_entry(s, #[trigger] l[j]) implies exists|
            i: int,
        | 0 <= i < p.len() && p[i] == live_change(s, l[j]) by {
            if j == 0 {
                assert(p[0] == live_change(s, l[0]));
            } else {
                assert(l.skip(1)[j - 1] == l[j]);
                let i0 = choose|i: int|
                    0 <= i < rest.len() && #[trigger] rest[i] == live_change(s, l.skip(1)[j - 1]);
                assert(p[i0 + step.len()] == live_change(s, l[j]));
            }
        }
    }
}

/// The change the second pass emits for a saved entry absent live.
pub open spec fn saved_change(e: (Seq<u8>, Seq<u8>)) -> ChangeView {
    ChangeView::Assign(e.0, e.1)
}

/// Each change of the second pass comes from a saved entry absent live,
/// and each such entry contributes its change.
proof fn lemma_pass_saved_elems(l: Map<Seq<u8>, Seq<u8>>, s: Seq<(Seq<u8>, Seq<u8>)>)
    ensures
        forall|i: int|
            0 <= i < pass_saved(l, s).len() ==> exists|j: int|
                0 <= j < s.len() && !l.contains_key(s[j].0) && #[trigger] pass_saved(l, s)[i]
                    == saved_change(s[j]),
        forall|j: int|
            0 <= j < s.len() && !l.contains_key(#[trigger] s[j].0) ==> exists|i: int|
                0 <= i < pass_saved(l, s).len() && pass_saved(l, s)[i] == saved_change(s[j]),
    decreases s.len(),
{
    if s.len() > 0 {
        lemma_pass_saved_elems(l, s.skip(1));
        let p = pass_saved(l, s);
        let rest = pass_saved(l, s.skip(1));
        let step: Seq<ChangeView> = if !l.contains_key(s[0].0) {
            seq![saved_change(s[0])]
        } else {
            Seq::empty()
        };
        assert(p == step + rest);
        assert forall|i: int| 0 <= i < p.len() implies exists|j: int|
            0 <= j < s.len() && !l.contains_key(s[j].0) && #[trigger] p[i] == saved_change(
                s[j],
            ) by {
            if i < step.len() {
                assert(p[i] == saved_change(s[0]) && !l.contains_key(s[0].0));
            } else {
                assert(p[i] == rest[i - step.len()]);
                let j0 = choose|j: int|
                    0 <= j < s.skip(1).len() && !l.contains_key(s.skip(1)[j].0) && #[trigger] rest[i
                        - step.len()] == saved_change(s.skip(1)[j]);
                assert(s.skip(1)[j0] == s[j0 + 1]);
            }
        }
        assert forall|j: int| 0 <= j < s.len() && !l.contains_key(
            #[trigger] s[j].0,
        ) implies exists|i: int| 0 <= i < p.len() && p[i] == saved_change(s[j]) by {
            if j == 0 {
                assert(p[0] == saved_change(s[0]));
            } else {
                assert(s.skip(1)[j - 1] == s[j]);
                let i0 = choose|i: int|
                    0 <= i < rest.len() && #[trigger] rest[i] == saved_change(s.skip(1)[j - 1]);
                assert(p[i0 + step.len()] == saved_change(s[j]));
            }
        }
    }
}

/// With distinct live names, the first pass touches each name at most once.
proof fn lemma_pass_live_distinct(s: Map<Seq<u8>, Seq<u8>>, l: Seq<(Seq<u8>, Seq<u8>)>)
    requires
        keys_unique(l),
    ensures
        names_distinct(pass_live(s, l)),
    decreases l.len(),
{
    if l.len() > 0 {
        assert forall|i: int, j: int| 0 <= i < j < l.skip(1).len() implies l.skip(1)[i].0
            != l.skip(1)[j].0 by {
            assert(l.skip(1)[i] == l[i + 1] && l.skip(1)[j] == l[j + 1]);
        }
        lemma_pass_live_distinct(s, l.skip(1));
        lemma_pass_live_elems(s, l.skip(1));
        let p = pass_live(s, l);
        let rest = pass_live(s, l.skip(1));
        let step: Seq<ChangeView> = if changed_entry(s, l[0]) {
            seq![live_change(s, l[0])]
        } else {
            Seq::empty()
        };
        assert(p == step + rest);
        assert forall|i: int, j: int| 0 <= i < j < p.len() implies change_name(p[i])
            != change_name(p[j]) by {
            if i < step.len() {
                assert(change_name(p[i]) == l[0].0);
                let j0 = choose|q: int|
                    0 <= q < l.skip(1).len() && changed_entry(s, l.skip(1)[q]) && #[trigger] rest[j
                        - step.len()] == live_change(s, l.skip(1)[q]);
                assert(change_name(rest[j - step.len()]) == l[j0 + 1].0);
                assert(l[j0 + 1].0 != l[0].0);
            } else {
                assert(p[i] == rest[i - step.len()] && p[j] == rest[j - step.len()]);
            }
        }
    }
}

/// With distinct saved names, the second pass touches each at most once.
proof fn lemma_pass_saved_distinct(l: Map<Seq<u8>, Seq<u8>>, s: Seq<(Seq<u8>, Seq<u8>)>)
    requires
        keys_unique(s),
    ensures
        names_distinct(pass_saved(l, s)),
    decreases s.len(),
{
    if s.len() > 0 {
        assert forall|i: int, j: int| 0 <= i < j < s.skip(1).len() implies s.skip(1)[i].0
            != s.skip(1)[j].0 by {
            assert(s.skip(1)[i] == s[i + 1] && s.skip(1)[j] == s[j + 1]);
        }
        lemma_pass_saved_distinct(l, s.skip(1));
        lemma_pass_saved_elems(l, s.skip(1));
        let p = pass_saved(l, s);
        let rest = pass_saved(l, s.skip(1));
        let step: Seq<ChangeView> = if !l.contains_key(s[0].0) {
            seq![saved_change(s[0])]
        } else {
            Seq::empty()
        };
        assert(p == step + rest);
        assert forall|i: int, j: int| 0 <= i < j < p.len() implies change_name(p[i])
            != change_name(p[j]) by {
            if i < step.len() {
                assert(change_name(p[i]) == s[0].0);
                let j0 = choose|q: int|
                    0 <= q < s.skip(1).len() && !l.contains_key(s.skip(1)[q].0)
                        && #[trigger] rest[j - step.len()] == saved_change(s.skip(1)[q]);
                assert(change_name(rest[j - step.len()]) == s[j0 + 1].0);
                assert(s[j0 + 1].0 != s[0].0);
            } else {
                assert(p[i] == rest[i - step.len()] && p[j] == rest[j - step.len()]);
            }
        }
    }
}

/// Completeness: reconciliation touches exactly the names on which the
/// two environments disagree, touches no name twice, and emits for each
/// touched name exactly the change the saved environment calls for.
#[verifier::rlimit(100)]
#[verifier::spinoff_prover]
pub proof fn lemma_reconcile_complete(saved: SavedEnvironment, live: SavedEnvironment)
    requires
        saved.wf(),
        live.wf(),
    ensures
        forall|k: Seq<u8>|
            (exists|i: int|
                0 <= i < change_seq(saved, live).len() && change_name(
                    #[trigger] change_seq(saved, live)[i],
                ) == k) <==> discrepancy(saved@, live@, k),
        names_distinct(change_seq(saved, live)),
        forall|i: int|
            0 <= i < change_seq(saved, live).len() ==> #[trigger] change_seq(saved, live)[i] == (
            if saved@.contains_key(change_name(change_seq(saved, live)[i])) {
                ChangeView::Assign(
                    change_name(change_seq(saved, live)[i]),
                    saved@[change_name(change_seq(saved, live)[i])],
                )
            } else {
                ChangeView::Unset(change_name(change_seq(saved, live)[i]))
            }),
{
    let lv = live.entries_view();
    let sv = saved.entries_view();
    let p = pass_live(saved@, lv);
    let s = pass_saved(live@, sv);
    let cs = change_seq(saved, live);
    lemma_sorted_unique(lv);
    lemma_sorted_unique(sv);
    lemma_pass_live_elems(saved@, lv);
    lemma_pass_saved_elems(live@, sv);
    lemma_pass_live_distinct(saved@, lv);
    lemma_pass_saved_distinct(live@, sv);
    // Each change of the first pass names a live variable; each of the
    // second pass names a saved variable absent live.
    assert forall|i: int| 0 <= i < p.len() implies live@.contains_key(change_name(#[trigger] p[i]))
        && discrepancy(saved@, live@, change_name(p[i])) by {
        let j = choose|j: int|
            0 <= j < lv.len() && changed_entry(saved@, lv[j]) && #[trigger] p[i] == live_change(
                saved@,
                lv[j],
            );
        lemma_map_of_index(lv, j);
        assert(change_name(p[i]) == lv[j].0);
    }
    assert forall|i: int| 0 <= i < s.len() implies !live@.contains_key(
        change_name(#[trigger] s[i]),
    ) && discrepancy(saved@, live@, change_name(s[i])) by {
        let j = choose|j: int|
            0 <= j < sv.len() && !live@.contains_key(sv[j].0) && #[trigger] s[i] == saved_change(
                sv[j],
            );
        lemma_map_of_index(sv, j);
        assert(change_name(s[i]) == sv[j].0);
    }
    // Membership.
    assert forall|k: Seq<u8>|
        (exists|i: int|
            0 <= i < cs.len() && change_name(#[trigger] cs[i]) == k) <==> discrepancy(
            saved@,
            live@,
            k,
        ) by {
        lemma_map_of_contains(lv, k);
        lemma_map_of_contains(sv, k);
        if discrepancy(saved@, live@, k) {
            if live@.contains_key(k) {
                let j = choose|j: int| 0 <= j < lv.len() && lv[j].0 == k;
                lemma_map_of_index(lv, j);
                assert(changed_entry(saved@, lv[j]));
                let i = choose|i: int|
                    0 <= i < p.len() && #[trigger] p[i] == live_change(saved@, lv[j]);
                assert(cs[i] == p[i]);
                assert(change_name(cs[i]) == k);
            } else {
                let j = choose|j: int| 0 <= j < sv.len() && sv[j].0 == k;
                lemma_map_of_index(sv, j);
                let i = choose|i: int|
                    0 <= i < s.len() && #[trigger] s[i] == saved_change(sv[j]);
                assert(cs[p.len() + i] == s[i]);
                assert(change_name(cs[p.len() + i]) == k);
            }
        }
        if exists|i: int| 0 <= i < cs.len() && change_name(#[trigger] cs[i]) == k {
            let i = choose|i: int| 0 <= i < cs.len() && change_name(#[trigger] cs[i]) == k;
            if i < p.len() {
                assert(cs[i] == p[i]);
            } else {
                assert(cs[i] == s[i - p.len()]);
            }
        }
    }
    // Distinctness across the two passes.
    assert forall|i: int, j: int| 0 <= i < j < cs.len() implies change_name(cs[i]) != change_name(
        cs[j],
    ) by {
        if i < p.len() && j >= p.len() {
            assert(cs[i] == p[i] && cs[j] == s[j - p.len()]);
            assert(live@.contains_key(change_name(p[i])));
            assert(!live@.contains_key(change_name(s[j - p.len()])));
        } else if j < p.len() {
            assert(cs[i] == p[i] && cs[j] == p[j]);
        } else {
            assert(cs[i] == s[i - p.len()] && cs[j] == s[j - p.len()]);
        }
    }
    // Classification.
    assert forall|i: int| 0 <= i < cs.len() implies #[trigger] cs[i] == (if saved@.contains_key(
        change_name(cs[i]),
    ) {
        ChangeView::Assign(change_name(cs[i]), saved@[change_name(cs[i])])
    } else {
        ChangeView::Unset(change_name(cs[i]))
    }) by {
        if i < p.len() {
            assert(cs[i] == p[i]);
            let j = choose|j: int|
                0 <= j < lv.len() && changed_entry(saved@, lv[j]) && #[trigger] p[i]
                    == live_change(saved@, lv[j]);
            assert(change_name(p[i]) == lv[j].0);
        } else {
            assert(cs[i] == s[i - p.len()]);
            let j = choose|j: int|
                0 <= j < sv.len() && !live@.contains_key(sv[j].0) && #[trigger] s[i - p.len()]
                    == saved_change(sv[j]);
            lemma_map_of_index(sv, j);
            assert(change_name(cs[i]) == sv[j].0);
            assert(saved@[sv[j].0] == sv[j].1);
        }
    }
}

/// What a change list with distinct names does to an environment at one
/// name: the change that names it decides, and an untouched name keeps
/// its old standing.
proof fn lemma_apply_at(m: Map<Seq<u8>, Seq<u8>>, cs: Seq<ChangeView>, k: Seq<u8>)
    requires
        names_distinct(cs),
    ensures
        (forall|i: int| 0 <= i < cs.len() ==> change_name(#[trigger] cs[i]) != k) ==> (
        apply_changes(m, cs).contains_key(k) == m.contains_key(k) && (m.contains_key(k)
            ==> apply_changes(m, cs)[k] == m[k])),
        forall|i: int|
            0 <= i < cs.len() && change_name(#[trigger] cs[i]) == k ==> (match cs[i] {
                ChangeView::Unset(_) => !apply_changes(m, cs).contains_key(k),
                ChangeView::Assign(_, v) => apply_changes(m, cs).contains_key(k) && apply_changes(
                    m,
                    cs,
                )[k] == v,
            }),
    decreases cs.len(),
{
    if cs.len() > 0 {
        let m1 = apply_one(m, cs[0]);
        assert forall|i: int, j: int| 0 <= i < j < cs.skip(1).len() implies change_name(
            cs.skip(1)[i],
        ) != change_name(cs.skip(1)[j]) by {
            assert(cs.skip(1)[i] == cs[i + 1] && cs.skip(1)[j] == cs[j + 1]);
        }
        lemma_apply_at(m1, cs.skip(1), k);
        assert(apply_changes(m, cs) == apply_changes(m1, cs.skip(1)));
        if change_name(cs[0]) == k {
            // No later change touches k.
            assert forall|i: int| 0 <= i < cs.skip(1).len() implies change_name(
                #[trigger] cs.skip(1)[i],
            ) != k by {
                assert(cs.skip(1)[i] == cs[i + 1]);
            }
            assert forall|i: int|
                0 <= i < cs.len() && change_name(#[trigger] cs[i]) == k implies (match cs[i] {
                ChangeView::Unset(_) => !apply_changes(m, cs).contains_key(k),
                ChangeView::Assign(_, v) => apply_changes(m, cs).contains_key(k) && apply_changes(
                    m,
                    cs,
                )[k] == v,
            }) by {
                if i > 0 {
                    assert(cs.skip(1)[i - 1] == cs[i]);
                    assert(change_name(cs[0]) == change_name(cs[i]));
                    assert(false);
                }
            }
        } else {
            assert(m1.contains_key(k) == m.contains_key(k) && (m.contains_key(k) ==> m1[k]
                == m[k]));
            assert forall|i: int|
                0 <= i < cs.len() && change_name(#[trigger] cs[i]) == k implies (match cs[i] {
                ChangeView::Unset(_) => !apply_changes(m, cs).contains_key(k),
                ChangeView::Assign(_, v) => apply_changes(m, cs).contains_key(k) && apply_changes(
                    m,
                    cs,
                )[k] == v,
            }) by {
                assert(i > 0);
                assert(cs.skip(1)[i - 1] == cs[i]);
            }
            if forall|i: int| 0 <= i < cs.len() ==> change_name(#[trigger] cs[i]) != k {
                assert forall|i: int| 0 <= i < cs.skip(1).len() implies change_name(
                    #[trigger] cs.skip(1)[i],
                ) != k by {
                    assert(cs.skip(1)[i] == cs[i + 1]);
                }
            }
        }
    }
}

/// Restoration restores: applying the computed changes to the live
/// environment yields exactly the saved environment.
pub proof fn lemma_restore(saved: SavedEnvironment, live: SavedEnvironment)
    requires
        saved.wf(),
        live.wf(),
    ensures
        apply_changes(live@, change_seq(saved, live)) == saved@,
{
    let cs = change_seq(saved, live);
    lemma_reconcile_complete(saved, live);
    let result = apply_changes(live@, cs);
    let sm = saved@;
    assert forall|k: Seq<u8>| #![trigger result.dom().contains(k)]
        result.dom().contains(k) == sm.dom().contains(k) && (result.dom().contains(k)
            ==> result[k] == sm[k]) by {
        lemma_apply_at(live@, cs, k);
        if discrepancy(saved@, live@, k) {
            let i = choose|i: int| 0 <= i < cs.len() && change_name(#[trigger] cs[i]) == k;
            if saved@.contains_key(k) {
                assert(cs[i] == ChangeView::Assign(k, saved@[k]));
            } else {
                assert(cs[i] == ChangeView::Unset(k));
            }
        } else {
            assert(forall|i: int| 0 <= i < cs.len() ==> change_name(#[trigger] cs[i]) != k);
        }
    }
    assert(result.dom() =~= sm.dom());
    assert(result =~= sm);
}

/// The first pass emits nothing when every live entry already agrees
/// with the saved map.
proof fn lemma_pass_live_all_match(s: Map<Seq<u8>, Seq<u8>>, l: Seq<(Seq<u8>, Seq<u8>)>)
    requires
        forall|j: int|
            0 <= j < l.len() ==> s.contains_key(#[trigger] l[j].0) && s[l[j].0] == l[j].1,
    ensures
        pass_live(s, l) == Seq::<ChangeView>::empty(),
    decreases l.len(),
{
    if l.len() > 0 {
        assert forall|j: int| 0 <= j < l.skip(1).len() implies s.contains_key(
            #[trigger] l.skip(1)[j].0,
        ) && s[l.skip(1)[j].0] == l.skip(1)[j].1 by {
            assert(l.skip(1)[j] == l[j + 1]);
        }
        lemma_pass_live_all_match(s, l.skip(1));
        assert(pass_live(s, l) =~= Seq::<ChangeView>::empty());
    }
}

/// The second pass emits nothing when every saved entry is present live.
proof fn lemma_pass_saved_all_present(l: Map<Seq<u8>, Seq<u8>>, s: Seq<(Seq<u8>, Seq<u8>)>)
    requires
        forall|j: int| 0 <= j < s.len() ==> l.contains_key(#[trigger] s[j].0),
    ensures
        pass_saved(l, s) == Seq::<ChangeView>::empty(),
    decreases s.len(),
{
    if s.len() > 0 {
        assert forall|j: int| 0 <= j < s.skip(1).len() implies l.contains_key(
            #[trigger] s.skip(1)[j].0,
        ) by {
            assert(s.skip(1)[j] == s[j + 1]);
        }
        lemma_pass_saved_all_present(l, s.skip(1));
        assert(pass_saved(l, s) =~= Seq::<ChangeView>::empty());
    }
}

/// No-op stability: when the saved and the live environment hold the
/// same variables with the same values, reconciliation emits nothing.
pub proof fn lemma_noop_stability(saved: SavedEnvironment, live: SavedEnvironment)
    requires
        saved.wf(),
        live.wf(),
        saved@ == live@,
    ensures
        change_seq(saved, live) == Seq::<ChangeView>::empty(),
{
    let lv = live.entries_view();
    let sv = saved.entries_view();
    lemma_sorted_unique(lv);
    lemma_sorted_unique(sv);
    assert forall|j: int| 0 <= j < lv.len() implies saved@.contains_key(#[trigger] lv[j].0)
        && saved@[lv[j].0] == lv[j].1 by {
        lemma_map_of_index(lv, j);
    }
    lemma_pass_live_all_match(saved@, lv);
    assert forall|j: int| 0 <= j < sv.len() implies live@.contains_key(#[trigger] sv[j].0) by {
        lemma_map_of_index(sv, j);
    }
    lemma_pass_saved_all_present(live@, sv);
    assert(change_seq(saved, live) =~= Seq::<ChangeView>::empty());
}

/// Idempotence of restoration: once the computed changes have been
/// applied to the live environment, reconciling again yields nothing.
pub proof fn lemma_restoration_idempotent(
    saved: SavedEnvironment,
    live: SavedEnvironment,
    restored: SavedEnvironment,
)
    requires
        saved.wf(),
        live.wf(),
        restored.wf(),
        restored@ == apply_changes(live@, change_seq(saved, live)),
    ensures
        change_seq(saved, restored) == Seq::<ChangeView>::empty(),
{
    lemma_restore(saved, live);
    lemma_noop_stability(saved, restored);
}

/// Against an empty snapshot, reconciliation unsets every live variable
/// and assigns nothing.
pub proof fn lemma_empty_snapshot(saved: SavedEnvironment, live: SavedEnvironment)
    requires
        saved.wf(),
        live.wf(),
        saved@ == Map::<Seq<u8>, Seq<u8>>::empty(),
    ensures
        change_seq(saved, live) == live.entries_view().map_values(
            |e: (Seq<u8>, Seq<u8>)| ChangeView::Unset(e.0),
        ),
{
    let lv = live.entries_view();
    let sv = saved.entries_view();
    if sv.len() > 0 {
        lemma_map_of_contains(sv, sv[0].0);
        assert(false);
    }
    assert(pass_saved(live@, sv) =~= Seq::<ChangeView>::empty());
    lemma_pass_live_all_absent(saved@, lv);
    assert(change_seq(saved, live) =~= lv.map_values(
        |e: (Seq<u8>, Seq<u8>)| ChangeView::Unset(e.0),
    ));
}

/// With no name saved, the first pass unsets every live variable.
proof fn lemma_pass_live_all_absent(s: Map<Seq<u8>, Seq<u8>>, l: Seq<(Seq<u8>, Seq<u8>)>)
    requires
        forall|j: int| 0 <= j < l.len() ==> !s.contains_key(#[trigger] l[j].0),
    ensures
        pass_live(s, l) == l.map_values(|e: (Seq<u8>, Seq<u8>)| ChangeView::Unset(e.0)),
    decreases l.len(),
{
    if l.len() == 0 {
        assert(pass_live(s, l) =~= l.map_values(|e: (Seq<u8>, Seq<u8>)| ChangeView::Unset(e.0)));
    } else {
        assert forall|j: int| 0 <= j < l.skip(1).len() implies !s.contains_key(
            #[trigger] l.skip(1)[j].0,
        ) by {
            assert(l.skip(1)[j] == l[j + 1]);
        }
        lemma_pass_live_all_absent(s, l.skip(1));
        assert(pass_live(s, l) =~= l.map_values(|e: (Seq<u8>, Seq<u8>)| ChangeView::Unset(e.0)));
    }
}

} // verus!
