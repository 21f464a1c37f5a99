//! The reconciliation engine: given a saved snapshot and the live
//! environment, compute the ordered list of changes that turns the live
//! environment back into the saved one.
//!
//! Both snapshots are traversed in their sorted entry order, so the emitted
//! changes come in a single deterministic order: first one change per live
//! variable that is absent from or differs from the saved state, then one
//! `Assign` per saved variable that is absent from the live state.

use vstd::prelude::*;
use crate::bytes::bytes_eq;
use crate::snapshot::map_of;
use crate::snapshot::SavedEnvironment;
use vstd::slice::slice_to_vec;

verus! {

/// The mathematical shadow of one computed change.
pub enum ChangeView {
    Unset(Seq<u8>),
    Assign(Seq<u8>, Seq<u8>),
}

/// One computed change: the named variable must be removed, or set to the
/// given value.
#[derive(Clone, Debug)]
pub enum EnvironmentChange {
    Unset(Vec<u8>),
    Assign(Vec<u8>, Vec<u8>),
}

impl View for EnvironmentChange {
    type V = ChangeView;

    open spec fn view(&self) -> ChangeView {
        match self {
            EnvironmentChange::Unset(name) => ChangeView::Unset(name@),
            EnvironmentChange::Assign(name, value) => ChangeView::Assign(name@, value@),
        }
    }
}

/// The name a change touches.
pub open spec fn change_name(c: ChangeView) -> Seq<u8> {
    match c {
        ChangeView::Unset(name) => name,
        ChangeView::Assign(name, _) => name,
    }
}

/// The mathematical shadow of a change list.
pub open spec fn changes_model(v: Seq<EnvironmentChange>) -> Seq<ChangeView> {
    v.map_values(|c: EnvironmentChange| c@)
}

/// First pass: one change per live entry, by its standing in the saved map.
pub open spec fn pass_live(saved: Map<Seq<u8>, Seq<u8>>, live: Seq<(Seq<u8>, Seq<u8>)>) -> Seq<
    ChangeView,
>
    decreases live.len(),
{
    if live.len() == 0 {
        Seq::empty()
    } else {
        let step: Seq<ChangeView> = if !saved.contains_key(live[0].0) {
            seq![ChangeView::Unset(live[0].0)]
        } else if saved[live[0].0] != live[0].1 {
            seq![ChangeView::Assign(live[0].0, saved[live[0].0])]
        } else {
            Seq::empty()
        };
        step + pass_live(saved, live.skip(1))
    }
}

/// Second pass: one `Assign` per saved entry absent from the live map.
pub open spec fn pass_saved(live: Map<Seq<u8>, Seq<u8>>, saved: Seq<(Seq<u8>, Seq<u8>)>) -> Seq<
    ChangeView,
>
    decreases saved.len(),
{
    if saved.len() == 0 {
        Seq::empty()
    } else {
        let step: Seq<ChangeView> = if !live.contains_key(saved[0].0) {
            seq![ChangeView::Assign(saved[0].0, saved[0].1)]
        } else {
            Seq::empty()
        };
        step + pass_saved(live, saved.skip(1))
    }
}

/// Everything reconciliation emits for the given entry sequences, in order.
pub open spec fn change_seq_of(
    saved: Seq<(Seq<u8>, Seq<u8>)>,
    live: Seq<(Seq<u8>, Seq<u8>)>,
) -> Seq<ChangeView> {
    pass_live(map_of(saved), live) + pass_saved(map_of(live), saved)
}

/// Everything reconciliation emits, in order.
pub open spec fn change_seq(saved: SavedEnvironment, live: SavedEnvironment) -> Seq<ChangeView> {
    change_seq_of(saved.entries_view(), live.entries_view())
}

pub proof fn lemma_pass_live_concat(
    saved: Map<Seq<u8>, Seq<u8>>,
    a: Seq<(Seq<u8>, Seq<u8>)>,
    b: Seq<(Seq<u8>, Seq<u8>)>,
)
    ensures
        pass_live(saved, a + b) == pass_live(saved, a) + pass_live(saved, b),
    decreases a.len(),
{
    if a.len() == 0 {
        assert(a + b =~= b);
        assert(pass_live(saved, a) + pass_live(saved, b) =~= pass_live(saved, b));
    } else {
        assert((a + b)[0] == a[0]);
        assert((a + b).skip(1) =~= a.skip(1) + b);
        lemma_pass_live_concat(saved, a.skip(1), b);
        assert(pass_live(saved, a + b) =~= pass_live(saved, a) + pass_live(saved, b));
    }
}

pub proof fn lemma_pass_saved_concat(
    live: Map<Seq<u8>, Seq<u8>>,
    a: Seq<(Seq<u8>, Seq<u8>)>,
    b: Seq<(Seq<u8>, Seq<u8>)>,
)
    ensures
        pass_saved(live, a + b) == pass_saved(live, a) + pass_saved(live, b),
    decreases a.len(),
{
    if a.len() == 0 {
        assert(a + b =~= b);
        assert(pass_saved(live, a) + pass_saved(live, b) =~= pass_saved(live, b));
    } else {
        assert((a + b)[0] == a[0]);
        assert((a + b).skip(1) =~= a.skip(1) + b);
        lemma_pass_saved_concat(live, a.skip(1), b);
        assert(pass_saved(live, a + b) =~= pass_saved(live, a) + pass_saved(live, b));
    }
}

/// The emission interface: the engine reports each computed change to a
/// sink, synchronously and in order.  `calls` is the record of everything
/// reported so far.
pub trait EmitChanges {
    spec fn calls(&self) -> Seq<ChangeView>;

    fn emit_unset(&mut self, name: &Vec<u8>)
        ensures
            final (self).calls() == old(self).calls().push(ChangeView::Unset(name@)),
    ;

    fn emit_assign(&mut self, name: &Vec<u8>, value: &Vec<u8>)
        ensures
            final (self).calls() == old(self).calls().push(
                ChangeView::Assign(name@, value@),
            ),
    ;
}

/// A sink that keeps every reported change as a value.
pub struct ChangeCollector {
    pub changes: Vec<EnvironmentChange>,
}

impl ChangeCollector {
    pub fn new() -> (c: ChangeCollector)
        ensures
            c.calls() == Seq::<ChangeView>::empty(),
            c.changes@.len() == 0,
    {
        let c = ChangeCollector { changes: Vec::new() };
        proof {
            assert(c.calls() =~= Seq::<ChangeView>::empty());
        }
        c
    }
}

impl EmitChanges for ChangeCollector {
    open spec fn calls(&self) -> Seq<ChangeView> {
        changes_model(self.changes@)
    }

    fn emit_unset(&mut self, name: &Vec<u8>) {
        let owned = slice_to_vec(name.as_slice());
        self.changes.push(EnvironmentChange::Unset(owned));
        proof {
            assert(self.calls() =~= old(self).calls().push(ChangeView::Unset(name@)));
        }
    }

    fn emit_assign(&mut self, name: &Vec<u8>, value: &Vec<u8>) {
        let owned_name = slice_to_vec(name.as_slice());
        let owned_value = slice_to_vec(value.as_slice());
        self.changes.push(EnvironmentChange::Assign(owned_name, owned_value));
        proof {
            assert(self.calls() =~= old(self).calls().push(ChangeView::Assign(name@, value@)));
        }
    }
}

impl SavedEnvironment {
    /// Report to `emitter`, in order, exactly the changes that turn the
    /// `live` environment back into this saved one.
    pub fn emit_changes<T: EmitChanges>(&self, live: &SavedEnvironment, emitter: &mut T)
        requires
            self.wf(),
            live.wf(),
        ensures
            final (emitter).calls() == old(emitter).calls() + change_seq(*self, *live),
    {
        let ghost base = old(emitter).calls();
        let ghost lv = live.entries_view();
        let ghost sv = self.entries_view();
        proof {
            assert(lv.take(0) =~= Seq::<(Seq<u8>, Seq<u8>)>::empty());
            assert(base + pass_live(self@, lv.take(0)) =~= base);
        }
        let n: usize = live.entries.len();
        let mut i: usize = 0;
        while i < n
            invariant
                self.wf(),
                live.wf(),
                lv == live.entries_view(),
                n == live.entries.len(),
                i <= n,
                emitter.calls() == base + pass_live(self@, lv.take(i as int)),
            decreases n - i,
        {
            let name = &live.entries[i].name;
            let live_value = &live.entries[i].value;
            proof {
                assert(lv[i as int] == (live.entries@[i as int].name@,
                live.entries@[i as int].value@));
            }
            let ghost before = emitter.calls();
            let ghost step: Seq<ChangeView>;
            match self.get(name) {
                None => {
                    emitter.emit_unset(name);
                    proof {
                        step = seq![ChangeView::Unset(lv[i as int].0)];
                        assert(emitter.calls() =~= before + step);
                    }
                },
                Some(saved_value) => {
                    if !bytes_eq(live_value, saved_value) {
                        emitter.emit_assign(name, saved_value);
                        proof {
                            step =
                            seq![ChangeView::Assign(lv[i as int].0, self@[lv[i as int].0])];
                            assert(emitter.calls() =~= before + step);
                        }
                    } else {
                        proof {
                            step = Seq::empty();
                            assert(emitter.calls() =~= before + step);
                        }
                    }
                },
            }
            proof {
                let single = seq![lv[i as int]];
                assert(single.skip(1) =~= Seq::<(Seq<u8>, Seq<u8>)>::empty());
                assert(pass_live(self@, Seq::<(Seq<u8>, Seq<u8>)>::empty())
                    =~= Seq::<ChangeView>::empty());
                assert(pass_live(self@, single) =~= step);
                lemma_pass_live_concat(self@, lv.take(i as int), single);
                assert(lv.take(i + 1) =~= lv.take(i as int) + single);
                assert(emitter.calls() =~= base + pass_live(self@, lv.take(i + 1)));
            }
            i = i + 1;
        }
        proof {
            assert(lv.take(n as int) =~= lv);
            assert(sv.take(0) =~= Seq::<(Seq<u8>, Seq<u8>)>::empty());
            assert(base + pass_live(self@, lv) + pass_saved(live@, sv.take(0)) =~= base
                + pass_live(self@, lv));
        }
        let m: usize = self.entries.len();
        let mut j: usize = 0;
        while j < m
            invariant
                self.wf(),
                live.wf(),
                lv == live.entries_view(),
                sv == self.entries_view(),
                m == self.entries.len(),
                j <= m,
                emitter.calls() == base + pass_live(self@, lv) + pass_saved(
                    live@,
                    sv.take(j as int),
                ),
            decreases m - j,
        {
            let name = &self.entries[j].name;
            let saved_value = &self.entries[j].value;
            proof {
                assert(sv[j as int] == (self.entries@[j as int].name@,
                self.entries@[j as int].value@));
            }
            let ghost before = emitter.calls();
            let ghost step: Seq<ChangeView>;
            match live.get(name) {
                None => {
                    emitter.emit_assign(name, saved_value);
                    proof {
                        step = seq![ChangeView::Assign(sv[j as int].0, sv[j as int].1)];
                        assert(emitter.calls() =~= before + step);
                    }
                },
                Some(_) => {
                    proof {
                        step = Seq::empty();
                        assert(emitter.calls() =~= before + step);
                    }
                },
            }
            proof {
                let single = seq![sv[j as int]];
                assert(single.skip(1) =~= Seq::<(Seq<u8>, Seq<u8>)>::empty());
                assert(pass_saved(live@, Seq::<(Seq<u8>, Seq<u8>)>::empty())
                    =~= Seq::<ChangeView>::empty());
                assert(pass_saved(live@, single) =~= step);
                lemma_pass_saved_concat(live@, sv.take(j as int), single);
                assert(sv.take(j + 1) =~= sv.take(j as int) + single);
                assert(emitter.calls() =~= base + pass_live(self@, lv) + pass_saved(
                    live@,
                    sv.take(j + 1),
                ));
            }
            j = j + 1;
        }
        proof {
            assert(sv.take(m as int) =~= sv);
            assert(base + pass_live(self@, lv) + pass_saved(live@, sv) =~= base + change_seq(
                *self,
                *live,
            ));
        }
    }

    /// The computed change list itself, in emission order.
    pub fn changes(&self, live: &SavedEnvironment) -> (out: Vec<EnvironmentChange>)
        requires
            self.wf(),
            live.wf(),
        ensures
            changes_model(out@) == change_seq(*self, *live),
    {
        let mut collector = ChangeCollector::new();
        self.emit_changes(live, &mut collector);
        proof {
            assert(collector.calls() =~= change_seq(*self, *live));
        }
        collector.changes
    }
}

} // verus!
