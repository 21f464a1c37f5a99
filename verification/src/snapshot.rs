//! The environment snapshot: an immutable-once-built mapping from variable
//! name to variable value, both opaque byte strings.
//!
//! Entries are kept strictly sorted by name, so every traversal of a
//! snapshot is deterministic and every name occurs at most once.  The
//! mathematical model of a snapshot is the map from names to values.

use vstd::prelude::*;
use crate::bytes::bytes_eq;
use crate::bytes::bytes_lt;
use crate::bytes::lemma_lex_lt_irreflexive;
use crate::bytes::lemma_lex_lt_transitive;
use crate::bytes::lemma_lex_lt_trichotomy;
use crate::bytes::lex_lt;
use vstd::slice::slice_to_vec;

verus! {

/// One captured environment variable: a name and a value, both byte-exact.
#[derive(Clone, Debug)]
pub struct EnvEntry {
    pub name: Vec<u8>,
    pub value: Vec<u8>,
}

/// The mathematical shadow of a sequence of entries.
pub open spec fn seq_model(v: Seq<EnvEntry>) -> Seq<(Seq<u8>, Seq<u8>)> {
    v.map_values(|e: EnvEntry| (e.name@, e.value@))
}

/// Names strictly increase along the sequence.
pub open spec fn entries_sorted(s: Seq<(Seq<u8>, Seq<u8>)>) -> bool {
    forall|i: int, j: int| 0 <= i < j < s.len() ==> lex_lt(s[i].0, s[j].0)
}

/// No name occurs twice.
pub open spec fn keys_unique(s: Seq<(Seq<u8>, Seq<u8>)>) -> bool {
    forall|i: int, j: int| 0 <= i < j < s.len() ==> s[i].0 != s[j].0
}

/// The map an entry sequence denotes; a later entry overrides an earlier
/// one with the same name.
pub open spec fn map_of(s: Seq<(Seq<u8>, Seq<u8>)>) -> Map<Seq<u8>, Seq<u8>>
    decreases s.len(),
{
    if s.len() == 0 {
        Map::empty()
    } else {
        map_of(s.drop_last()).insert(s.last().0, s.last().1)
    }
}

/// Strictly sorted entries have pairwise distinct names.
pub proof fn lemma_sorted_unique(s: Seq<(Seq<u8>, Seq<u8>)>)
    requires
        entries_sorted(s),
    ensures
        keys_unique(s),
{
    assert forall|i: int, j: int| 0 <= i < j < s.len() implies s[i].0 != s[j].0 by {
        lemma_lex_lt_trichotomy(s[i].0, s[j].0);
    }
}

/// A name is in the map exactly when some entry carries it.
pub proof fn lemma_map_of_contains(s: Seq<(Seq<u8>, Seq<u8>)>, k: Seq<u8>)
    ensures
        map_of(s).contains_key(k) <==> exists|i: int| 0 <= i < s.len() && s[i].0 == k,
    decreases s.len(),
{
    if s.len() > 0 {
        lemma_map_of_contains(s.drop_last(), k);
        if s.last().0 == k {
            assert(s[s.len() - 1].0 == k);
        } else if map_of(s).contains_key(k) {
            let i = choose|i: int| 0 <= i < s.drop_last().len() && s.drop_last()[i].0 == k;
            assert(s[i].0 == k);
        } else if exists|i: int| 0 <= i < s.len() && s[i].0 == k {
            let i = choose|i: int| 0 <= i < s.len() && s[i].0 == k;
            assert(s.drop_last()[i].0 == k);
        }
    }
}

/// With distinct names, each entry's value is the map's value at its name.
pub proof fn lemma_map_of_index(s: Seq<(Seq<u8>, Seq<u8>)>, i: int)
    requires
        keys_unique(s),
        0 <= i < s.len(),
    ensures
        map_of(s).contains_key(s[i].0),
        map_of(s)[s[i].0] == s[i].1,
    decreases s.len(),
{
    if i < s.len() - 1 {
        assert(s.drop_last()[i] == s[i]);
        lemma_map_of_index(s.drop_last(), i);
        assert(s.last().0 != s[i].0);
    }
}

/// Where a new name lands in a sorted entry sequence: the index of the
/// first entry whose name is not below it.
pub open spec fn insert_pos(s: Seq<(Seq<u8>, Seq<u8>)>, k: Seq<u8>) -> int
    decreases s.len(),
{
    if s.len() == 0 {
        0
    } else if lex_lt(s[0].0, k) {
        1 + insert_pos(s.skip(1), k)
    } else {
        0
    }
}

pub proof fn lemma_insert_pos(s: Seq<(Seq<u8>, Seq<u8>)>, k: Seq<u8>)
    ensures
        0 <= insert_pos(s, k) <= s.len(),
        forall|i: int| 0 <= i < insert_pos(s, k) ==> lex_lt(s[i].0, k),
        insert_pos(s, k) < s.len() ==> !lex_lt(s[insert_pos(s, k)].0, k),
    decreases s.len(),
{
    if s.len() > 0 && lex_lt(s[0].0, k) {
        lemma_insert_pos(s.skip(1), k);
        assert forall|i: int| 0 <= i < insert_pos(s, k) implies lex_lt(s[i].0, k) by {
            if i > 0 {
                assert(s.skip(1)[i - 1] == s[i]);
            }
        }
        if insert_pos(s, k) < s.len() {
            assert(s.skip(1)[insert_pos(s, k) - 1] == s[insert_pos(s, k)]);
        }
    }
}

/// The characterization above pins the position down.
pub proof fn lemma_insert_pos_unique(s: Seq<(Seq<u8>, Seq<u8>)>, k: Seq<u8>, p: int)
    requires
        0 <= p <= s.len(),
        forall|i: int| 0 <= i < p ==> lex_lt(s[i].0, k),
        p < s.len() ==> !lex_lt(s[p].0, k),
    ensures
        p == insert_pos(s, k),
{
    lemma_insert_pos(s, k);
    let q = insert_pos(s, k);
    if p < q {
        assert(lex_lt(s[p].0, k));
    } else if q < p {
        assert(lex_lt(s[q].0, k));
    }
}

/// Inserting (or overwriting) a binding in a sorted entry sequence.
pub open spec fn sorted_insert(s: Seq<(Seq<u8>, Seq<u8>)>, k: Seq<u8>, v: Seq<u8>) -> Seq<
    (Seq<u8>, Seq<u8>),
> {
    let p = insert_pos(s, k);
    if p < s.len() && s[p].0 == k {
        s.take(p) + seq![(k, v)] + s.skip(p + 1)
    } else {
        s.take(p) + seq![(k, v)] + s.skip(p)
    }
}

/// `sorted_insert` keeps the entries sorted and acts as `insert` on the map.
pub proof fn lemma_sorted_insert(s: Seq<(Seq<u8>, Seq<u8>)>, k: Seq<u8>, v: Seq<u8>)
    requires
        entries_sorted(s),
    ensures
        entries_sorted(sorted_insert(s, k, v)),
        map_of(sorted_insert(s, k, v)) == map_of(s).insert(k, v),
{
    lemma_insert_pos(s, k);
    let p = insert_pos(s, k);
    let r = sorted_insert(s, k, v);
    let replace = p < s.len() && s[p].0 == k;
    // How an index of `r` reads back into `s`.
    assert(forall|i: int| 0 <= i < p ==> r[i] == s[i]);
    assert(r[p] == (k, v));
    if replace {
        assert(r.len() == s.len());
        assert(forall|i: int| p < i < r.len() ==> r[i] == s[i]);
    } else {
        assert(r.len() == s.len() + 1);
        assert(forall|i: int| p < i < r.len() ==> r[i] == s[i - 1]);
    }
    // Every name after position p in `s` lies strictly above k.
    assert forall|j: int| p < j < s.len() implies lex_lt(k, s[j].0) by {
        if replace {
            assert(lex_lt(s[p].0, s[j].0));
        } else {
            lemma_lex_lt_trichotomy(s[p].0, k);
            assert(lex_lt(k, s[p].0));
            if j > p {
                if j == p {
                } else if lex_lt(s[p].0, s[j].0) {
                    lemma_lex_lt_transitive(k, s[p].0, s[j].0);
                }
            }
        }
    }
    if !replace && p < s.len() {
        lemma_lex_lt_trichotomy(s[p].0, k);
        assert(lex_lt(k, s[p].0));
    }
    assert forall|i: int, j: int| 0 <= i < j < r.len() implies lex_lt(r[i].0, r[j].0) by {
        let off: int = if replace { 0 } else { 1 };
        if i < p && j < p {
        } else if i < p && j == p {
            assert(lex_lt(s[i].0, k));
        } else if i < p && j > p {
            assert(r[j] == s[j - off]);
        } else if i == p && j > p {
            let sj = j - off;
            if sj == p {
                assert(!replace);
                assert(lex_lt(k, s[p].0));
            } else {
                assert(lex_lt(k, s[sj].0));
            }
        } else {
            // p < i < j
            assert(r[i] == s[i - off] && r[j] == s[j - off]);
            if i - off == p {
                assert(lex_lt(s[p].0, s[j - off].0));
            }
        }
    }
    // The map view: compare pointwise.
    lemma_sorted_unique(s);
    lemma_sorted_unique(r);
    assert forall|key: Seq<u8>|
        map_of(r).contains_key(key) == map_of(s).insert(k, v).contains_key(key) by {
        lemma_map_of_contains(r, key);
        lemma_map_of_contains(s, key);
        if key == k {
            assert(r[p].0 == k);
        } else {
            if exists|i: int| 0 <= i < s.len() && s[i].0 == key {
                let i = choose|i: int| 0 <= i < s.len() && s[i].0 == key;
                let off: int = if replace { 0 } else { 1 };
                if i < p {
                    assert(r[i].0 == key);
                } else if replace && i == p {
                    assert(false);
                } else {
                    assert(r[i + off].0 == key);
                }
            }
            if exists|i: int| 0 <= i < r.len() && r[i].0 == key {
                let i = choose|i: int| 0 <= i < r.len() && r[i].0 == key;
                let off: int = if replace { 0 } else { 1 };
                assert(i != p);
                if i < p {
                    assert(s[i].0 == key);
                } else {
                    assert(s[i - off].0 == key);
                }
            }
        }
    }
    assert forall|key: Seq<u8>| #[trigger]
        map_of(r).contains_key(key) implies map_of(r)[key] == map_of(s).insert(k, v)[key] by {
        if key == k {
            lemma_map_of_index(r, p);
        } else {
            lemma_map_of_contains(r, key);
            let i = choose|i: int| 0 <= i < r.len() && r[i].0 == key;
            lemma_map_of_index(r, i);
            let off: int = if replace { 0 } else { 1 };
            assert(i != p);
            if i < p {
                lemma_map_of_index(s, i);
            } else {
                assert(s[i - off] == r[i]);
                lemma_map_of_index(s, i - off);
            }
        }
    }
    assert(map_of(r) =~= map_of(s).insert(k, v));
}

/// The canonical sorted form of an arbitrary entry list; a later
/// occurrence of a name overrides an earlier one.
pub open spec fn canon_entries(vars: Seq<(Seq<u8>, Seq<u8>)>) -> Seq<(Seq<u8>, Seq<u8>)>
    decreases vars.len(),
{
    if vars.len() == 0 {
        Seq::empty()
    } else {
        sorted_insert(canon_entries(vars.drop_last()), vars.last().0, vars.last().1)
    }
}

/// Canonicalizing sorts the entries and leaves the denoted map unchanged.
pub proof fn lemma_canon_entries(vars: Seq<(Seq<u8>, Seq<u8>)>)
    ensures
        entries_sorted(canon_entries(vars)),
        map_of(canon_entries(vars)) == map_of(vars),
    decreases vars.len(),
{
    if vars.len() > 0 {
        lemma_canon_entries(vars.drop_last());
        lemma_sorted_insert(canon_entries(vars.drop_last()), vars.last().0, vars.last().1);
    }
}

/// A captured environment: names mapped to values, entries strictly
/// sorted by name.
#[derive(Debug)]
pub struct SavedEnvironment {
    pub entries: Vec<EnvEntry>,
}

impl View for SavedEnvironment {
    type V = Map<Seq<u8>, Seq<u8>>;

    open spec fn view(&self) -> Map<Seq<u8>, Seq<u8>> {
        map_of(seq_model(self.entries@))
    }
}

impl SavedEnvironment {
    /// The ordered entry list, as mathematical byte strings.
    pub open spec fn entries_view(&self) -> Seq<(Seq<u8>, Seq<u8>)> {
        seq_model(self.entries@)
    }

    /// Entries are strictly sorted by name; established by every
    /// constructor and preserved by every method.
    pub open spec fn wf(&self) -> bool {
        entries_sorted(self.entries_view())
    }

    /// The empty snapshot.
    pub fn new() -> (s: SavedEnvironment)
        ensures
            s.wf(),
            s.entries_view() == Seq::<(Seq<u8>, Seq<u8>)>::empty(),
            s@ == Map::<Seq<u8>, Seq<u8>>::empty(),
    {
        let s = SavedEnvironment { entries: Vec::new() };
        proof {
            assert(s.entries_view() =~= Seq::<(Seq<u8>, Seq<u8>)>::empty());
        }
        s
    }

    /// Bind `name` to `value`, replacing any existing binding.
    pub fn insert_entry(&mut self, name: Vec<u8>, value: Vec<u8>)
        requires
            old(self).wf(),
        ensures
            final(self).wf(),
            final(self).entries_view() == sorted_insert(old(self).entries_view(), name@, value@),
            final(self)@ == old(self)@.insert(name@, value@),
    {
        let ghost s = self.entries_view();
        let ghost k = name@;
        let n: usize = self.entries.len();
        let mut p: usize = 0;
        while p < n && bytes_lt(&self.entries[p as usize].name, &name)
            invariant
                n == self.entries.len(),
                s == self.entries_view(),
                k == name@,
                p <= n,
                forall|i: int| 0 <= i < p ==> lex_lt(s[i].0, k),
            decreases n - p,
        {
            p = p + 1;
        }
        proof {
            lemma_insert_pos_unique(s, k, p as int);
        }
        if p < n && bytes_eq(&self.entries[p].name, &name) {
            self.entries.remove(p);
            self.entries.insert(p, EnvEntry { name, value });
            proof {
                assert(self.entries_view() =~= s.take(p as int) + seq![(k, value@)] + s.skip(
                    p as int + 1,
                ));
            }
        } else {
            self.entries.insert(p, EnvEntry { name, value });
            proof {
                assert(self.entries_view() =~= s.take(p as int) + seq![(k, value@)] + s.skip(
                    p as int,
                ));
            }
        }
        proof {
            lemma_sorted_insert(s, k, value@);
        }
    }

    /// Capture an environment given as a plain list of variables; a later
    /// occurrence of a name overrides an earlier one, as when the entries
    /// are drained into a map.
    pub fn from_env(vars: Vec<EnvEntry>) -> (s: SavedEnvironment)
        ensures
            s.wf(),
            s.entries_view() == canon_entries(seq_model(vars@)),
            s@ == map_of(seq_model(vars@)),
    {
        let ghost vm = seq_model(vars@);
        let mut s = SavedEnvironment::new();
        let n: usize = vars.len();
        let mut i: usize = 0;
        proof {
            assert(vm.take(0) =~= Seq::<(Seq<u8>, Seq<u8>)>::empty());
        }
        while i < n
            invariant
                n == vars.len(),
                vm == seq_model(vars@),
                i <= n,
                s.wf(),
                s.entries_view() == canon_entries(vm.take(i as int)),
            decreases n - i,
        {
            let name = slice_to_vec(vars[i].name.as_slice());
            let value = slice_to_vec(vars[i].value.as_slice());
            s.insert_entry(name, value);
            proof {
                assert(vm.take(i + 1).drop_last() =~= vm.take(i as int));
                assert(vm.take(i + 1).last() == vm[i as int]);
            }
            i = i + 1;
        }
        proof {
            assert(vm.take(n as int) =~= vm);
            lemma_canon_entries(vm);
        }
        s
    }

    /// Look a name up; `Some` exactly when the snapshot binds it.
    pub fn get(&self, name: &Vec<u8>) -> (r: Option<&Vec<u8>>)
        requires
            self.wf(),
        ensures
            match r {
                Some(v) => self@.contains_key(name@) && v@ == self@[name@],
                None => !self@.contains_key(name@),
            },
    {
        let ghost s = self.entries_view();
        proof {
            lemma_sorted_unique(s);
            lemma_map_of_contains(s, name@);
        }
        let n: usize = self.entries.len();
        let mut i: usize = 0;
        while i < n
            invariant
                n == self.entries.len(),
                s == self.entries_view(),
                keys_unique(s),
                i <= n,
                forall|j: int| 0 <= j < i ==> s[j].0 != name@,
            decreases n - i,
        {
            if bytes_eq(&self.entries[i].name, name) {
                proof {
                    lemma_map_of_index(s, i as int);
                }
                return Some(&self.entries[i].value);
            }
            i = i + 1;
        }
        None
    }

    /// How many variables the snapshot holds.
    pub fn len(&self) -> (n: usize)
        ensures
            n == self.entries_view().len(),
    {
        self.entries.len()
    }
}

} // verus!
