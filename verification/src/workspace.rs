//! Planning core for splitting generated definitions into a workspace of
//! crates.
//!
//! The resolver (an external collaborator) hands in one row per
//! definition: its id and the location it was assigned to. The planner
//! groups definitions by location — one crate per location — and prepares
//! the sorted, deduplicated name lists the manifests need. Writing the
//! crates out (directories, manifests, child processes) is I/O and happens
//! outside this library, driven by the returned plan.

use itertools::Itertools;
use vstd::prelude::*;

verus! {

/// One resolved definition: its id and the location it belongs to.
#[derive(Debug, Clone, PartialEq, Eq, Structural)]
pub struct DefEntry {
    pub def_id: u64,
    pub location: u64,
}

/// One planned crate: a location and the definitions grouped into it.
#[derive(Debug, Clone, PartialEq, Eq)]
pub struct CratePlan {
    pub location: u64,
    pub def_ids: Vec<u64>,
}

/// The whole plan: one crate per distinct location.
#[derive(Debug, Clone, PartialEq, Eq)]
pub struct WorkspacePlan {
    pub crates: Vec<CratePlan>,
}

/// The location of a definition, by its first row.
pub open spec fn loc_of(entries: Seq<DefEntry>, id: u64) -> Option<u64>
    decreases entries.len(),
{
    if entries.len() == 0 {
        None
    } else if entries[0].def_id == id {
        Some(entries[0].location)
    } else {
        loc_of(entries.skip(1), id)
    }
}

/// The definitions of `input` assigned to `loc`, in input order.
pub open spec fn ids_with_loc(input: Seq<u64>, entries: Seq<DefEntry>, loc: u64) -> Seq<u64>
    decreases input.len(),
{
    if input.len() == 0 {
        Seq::empty()
    } else {
        let pre = ids_with_loc(input.drop_last(), entries, loc);
        if loc_of(entries, input.last()) == Some(loc) {
            pre.push(input.last())
        } else {
            pre
        }
    }
}

proof fn lemma_ids_with_loc_take(input: Seq<u64>, entries: Seq<DefEntry>, loc: u64, i: int)
    requires
        0 <= i < input.len(),
    ensures
        ids_with_loc(input.take(i + 1), entries, loc) == if loc_of(entries, input[i]) == Some(loc) {
            ids_with_loc(input.take(i), entries, loc).push(input[i])
        } else {
            ids_with_loc(input.take(i), entries, loc)
        },
{
    assert(input.take(i + 1).drop_last() =~= input.take(i));
    assert(input.take(i + 1).last() == input[i]);
}

/// Rows that never match can be dropped from the front of a lookup.
proof fn lemma_loc_of_skip(entries: Seq<DefEntry>, i: int, id: u64)
    requires
        0 <= i <= entries.len(),
        forall|j: int| 0 <= j < i ==> (#[trigger] entries[j]).def_id != id,
    ensures
        loc_of(entries, id) == loc_of(entries.skip(i), id),
    decreases i,
{
    if i > 0 {
        assert(entries[0].def_id != id);
        assert forall|j: int| 0 <= j < i - 1 implies (#[trigger] entries.skip(1)[j]).def_id != id by {
            assert(entries.skip(1)[j] == entries[j + 1]);
        }
        lemma_loc_of_skip(entries.skip(1), i - 1, id);
        assert(entries.skip(1).skip(i - 1) =~= entries.skip(i));
    } else {
        assert(entries.skip(0) =~= entries);
    }
}

/// Look a definition's location up by a linear scan of the rows.
pub fn find_loc(entries: &Vec<DefEntry>, id: u64) -> (r: Option<u64>)
    ensures
        r == loc_of(entries@, id),
{
    let n = entries.len();
    let mut i: usize = 0;
    while i < n
        invariant
            i <= n == entries@.len(),
            forall|j: int| 0 <= j < i ==> (#[trigger] entries@[j]).def_id != id,
        decreases n - i,
    {
        if entries[i].def_id == id {
            proof {
                lemma_loc_of_skip(entries@, i as int, id);
                assert(entries@.skip(i as int)[0] == entries@[i as int]);
            }
            return Some(entries[i].location);
        }
        i = i + 1;
    }
    proof {
        lemma_loc_of_skip(entries@, n as int, id);
        assert(entries@.skip(n as int).len() == 0);
    }
    None
}

/// The planner. It owns the target directory name and the resolver's
/// rows; everything it computes is a pure function of them.
#[derive(Debug, Clone)]
pub struct Workspace {
    pub base_dir: String,
    pub entries: Vec<DefEntry>,
}

impl Workspace {
    /// A planner over a target directory and the resolver's rows.
    pub fn new(base_dir: String, entries: Vec<DefEntry>) -> (r: Self)
        ensures
            r.base_dir@ == base_dir@,
            r.entries@ == entries@,
    {
        Workspace { base_dir, entries }
    }

    /// The resolver's rows this planner works from.
    pub fn cx(&self) -> (r: &Vec<DefEntry>)
        ensures
            r@ == self.entries@,
    {
        &self.entries
    }

    /// Group the given definitions by their location: one planned crate
    /// per distinct location, holding exactly the input definitions
    /// assigned to it, in input order. Definitions the rows do not know
    /// are dropped.
    pub fn group_defs(&self, entry_def_ids: &[u64]) -> (r: WorkspacePlan)
        ensures
            forall|k1: int, k2: int|
                0 <= k1 < k2 < r.crates@.len() ==> (#[trigger] r.crates@[k1]).location != (
                #[trigger] r.crates@[k2]).location,
            forall|k: int|
                0 <= k < r.crates@.len() ==> (#[trigger] r.crates@[k]).def_ids@ == ids_with_loc(
                    entry_def_ids@,
                    self.entries@,
                    r.crates@[k].location,
                ),
            forall|i: int|
                0 <= i < entry_def_ids@.len() && loc_of(self.entries@, entry_def_ids@[i]) is Some
                    ==> exists|k: int|
                    0 <= k < r.crates@.len() && (#[trigger] r.crates@[k]).location == loc_of(
                        self.entries@,
                        #[trigger] entry_def_ids@[i],
                    )->0,
    {
        let n = entry_def_ids.len();
        let mut locs: Vec<u64> = Vec::new();
        let mut i: usize = 0;
        while i < n
            invariant
                i <= n == entry_def_ids@.len(),
                forall|k1: int, k2: int|
                    0 <= k1 < k2 < locs@.len() ==> locs@[k1] != locs@[k2],
                forall|j: int|
                    0 <= j < i && loc_of(self.entries@, entry_def_ids@[j]) is Some ==> locs@.contains(
                        loc_of(self.entries@, #[trigger] entry_def_ids@[j])->0,
                    ),
            decreases n - i,
        {
            match find_loc(&self.entries, entry_def_ids[i]) {
                Some(loc) => {
                    let ghost oldlocs = locs@;
                    if !contains_u64(&locs, loc) {
                        locs.push(loc);
                        proof {
                            assert(locs@[locs@.len() - 1] == loc);
                            assert forall|x: u64| oldlocs.contains(x) implies locs@.contains(
                                x,
                            ) by {
                                let w = choose|w: int| 0 <= w < oldlocs.len() && oldlocs[w] == x;
                                assert(locs@[w] == x);
                            }
                        }
                    }
                    assert(locs@.contains(loc));
                },
                None => {},
            }
            i = i + 1;
        }
        let mut crates: Vec<CratePlan> = Vec::new();
        let mut k: usize = 0;
        let nl = locs.len();
        while k < nl
            invariant
                k <= nl == locs@.len(),
                crates@.len() == k,
                forall|k1: int, k2: int| 0 <= k1 < k2 < locs@.len() ==> locs@[k1] != locs@[k2],
                forall|j: int|
                    0 <= j < n && loc_of(self.entries@, entry_def_ids@[j]) is Some ==> locs@.contains(
                        loc_of(self.entries@, #[trigger] entry_def_ids@[j])->0,
                    ),
                n == entry_def_ids@.len(),
                forall|kk: int|
                    0 <= kk < k ==> (#[trigger] crates@[kk]).location == locs@[kk],
                forall|kk: int|
                    0 <= kk < k ==> (#[trigger] crates@[kk]).def_ids@ == ids_with_loc(
                        entry_def_ids@,
                        self.entries@,
                        locs@[kk],
                    ),
            decreases nl - k,
        {
            let loc = locs[k];
            let mut ids: Vec<u64> = Vec::new();
            let mut i2: usize = 0;
            assert(ids@ =~= ids_with_loc(entry_def_ids@.take(0), self.entries@, loc));
            while i2 < n
                invariant
                    i2 <= n == entry_def_ids@.len(),
                    ids@ == ids_with_loc(entry_def_ids@.take(i2 as int), self.entries@, loc),
                decreases n - i2,
            {
                proof {
                    lemma_ids_with_loc_take(entry_def_ids@, self.entries@, loc, i2 as int);
                }
                match find_loc(&self.entries, entry_def_ids[i2]) {
                    Some(l2) => {
                        if l2 == loc {
                            ids.push(entry_def_ids[i2]);
                        }
                    },
                    None => {},
                }
                i2 = i2 + 1;
            }
            assert(entry_def_ids@.take(n as int) =~= entry_def_ids@);
            crates.push(CratePlan { location: loc, def_ids: ids });
            k = k + 1;
        }
        let r = WorkspacePlan { crates };
        assert forall|i3: int|
            0 <= i3 < entry_def_ids@.len() && loc_of(self.entries@, entry_def_ids@[i3]) is Some
                implies exists|kk: int|
            0 <= kk < r.crates@.len() && (#[trigger] r.crates@[kk]).location == loc_of(
                self.entries@,
                #[trigger] entry_def_ids@[i3],
            )->0 by {
            let l = loc_of(self.entries@, entry_def_ids@[i3])->0;
            assert(locs@.contains(l));
            let kk = choose|kk: int| 0 <= kk < locs@.len() && locs@[kk] == l;
            assert(r.crates@[kk].location == l);
        }
        r
    }

    /// Plan a crate for every definition the resolver knows.
    pub fn write_crates(self) -> (r: WorkspacePlan)
        ensures
            forall|k1: int, k2: int|
                0 <= k1 < k2 < r.crates@.len() ==> (#[trigger] r.crates@[k1]).location != (
                #[trigger] r.crates@[k2]).location,
            forall|k: int|
                0 <= k < r.crates@.len() ==> (#[trigger] r.crates@[k]).def_ids@ == ids_with_loc(
                    self.entries@.map_values(|e: DefEntry| e.def_id),
                    self.entries@,
                    r.crates@[k].location,
                ),
    {
        let n = self.entries.len();
        let mut ids: Vec<u64> = Vec::new();
        let mut i: usize = 0;
        while i < n
            invariant
                i <= n == self.entries@.len(),
                ids@ == self.entries@.take(i as int).map_values(|e: DefEntry| e.def_id),
            decreases n - i,
        {
            ids.push(self.entries[i].def_id);
            assert(ids@ =~= self.entries@.take(i + 1).map_values(|e: DefEntry| e.def_id));
            i = i + 1;
        }
        assert(self.entries@.take(n as int) =~= self.entries@);
        self.group_defs(ids.as_slice())
    }
}

/// Whether the vector holds the value.
pub fn contains_u64(v: &Vec<u64>, x: u64) -> (r: bool)
    ensures
        r == v@.contains(x),
{
    let n = v.len();
    let mut i: usize = 0;
    while i < n
        invariant
            i <= n == v@.len(),
            forall|j: int| 0 <= j < i ==> v@[j] != x,
        decreases n - i,
    {
        if v[i] == x {
            return true;
        }
        i = i + 1;
    }
    false
}

/// Lexicographic order on strings, by character.
pub open spec fn str_le(a: Seq<char>, b: Seq<char>) -> bool
    decreases a.len(),
{
    if a.len() == 0 {
        true
    } else if b.len() == 0 {
        false
    } else if a[0] == b[0] {
        str_le(a.skip(1), b.skip(1))
    } else {
        a[0] < b[0]
    }
}

/// Whether a sequence of strings is in non-decreasing lexicographic order.
pub open spec fn sorted_strs(s: Seq<Seq<char>>) -> bool {
    forall|i: int| 0 <= i < s.len() - 1 ==> str_le(#[trigger] s[i], s[i + 1])
}

/// The characters of each string in a vector.
pub open spec fn str_views(s: Seq<String>) -> Seq<Seq<char>> {
    s.map_values(|x: String| x@)
}

/// Relies on `itertools::Itertools::sorted`: the same strings, in
/// non-decreasing order. `String` orders by UTF-8 bytes, which orders
/// exactly as the characters do.
#[verifier::external_body]
fn sorted_strings(v: Vec<String>) -> (r: Vec<String>)
    ensures
        str_views(r@).to_multiset() == str_views(v@).to_multiset(),
        str_views(r@).to_set() == str_views(v@).to_set(),
        sorted_strs(str_views(r@)),
{
    v.into_iter().sorted().collect()
}

/// Relies on `itertools::Itertools::dedup`: consecutive equal strings are
/// collapsed to one; relative order, and so sortedness, is kept, and no
/// two neighbours of the result are equal.
#[verifier::external_body]
fn dedup_strings(v: Vec<String>) -> (r: Vec<String>)
    ensures
        str_views(r@).to_set() == str_views(v@).to_set(),
        sorted_strs(str_views(v@)) ==> sorted_strs(str_views(r@)),
        forall|i: int|
            0 <= i < str_views(r@).len() - 1 ==> #[trigger] str_views(r@)[i] != str_views(r@)[i
                + 1],
{
    v.into_iter().dedup().collect()
}

/// The workspace manifest's member list: the crate names, deduplicated
/// and sorted.
pub fn member_names(names: Vec<String>) -> (r: Vec<String>)
    ensures
        str_views(r@).to_set() == str_views(names@).to_set(),
        sorted_strs(str_views(r@)),
{
    sorted_strings(dedup_strings(names))
}

/// A crate manifest's dependency list: the dependency names, sorted and
/// deduplicated, so every dependency appears once.
pub fn dep_names(names: Vec<String>) -> (r: Vec<String>)
    ensures
        str_views(r@).to_set() == str_views(names@).to_set(),
        sorted_strs(str_views(r@)),
        forall|i: int|
            0 <= i < str_views(r@).len() - 1 ==> #[trigger] str_views(r@)[i] != str_views(r@)[i
                + 1],
{
    dedup_strings(sorted_strings(names))
}

} // verus!
