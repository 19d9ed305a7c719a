//! The field mask: a read-only tree mirroring message shape, consulted
//! before each field is visited.
//!
//! `IncludeAll` and `ExcludeAll` decide a whole subtree; `Partial` maps
//! field numbers to child masks, and a number absent from the map is
//! included by default. A mask only filters visitation: it never causes an
//! encode or decode failure.

use vstd::prelude::*;

verus! {

/// One node of the mask tree.
pub enum FieldMask {
    /// Visit every field of the subtree.
    IncludeAll,
    /// Skip every field of the subtree.
    ExcludeAll,
    /// Decide per field number; absent numbers are included.
    Partial(Vec<(u32, FieldMask)>),
}

/// The first entry for `id`, or the open default when there is none.
pub open spec fn lookup_spec(s: Seq<(u32, FieldMask)>, id: u32) -> FieldMask
    decreases s.len(),
{
    if s.len() == 0 {
        FieldMask::IncludeAll
    } else if s[0].0 == id {
        s[0].1
    } else {
        lookup_spec(s.skip(1), id)
    }
}

/// Entries that never match can be dropped from the front of a lookup.
pub proof fn lemma_lookup_skip(s: Seq<(u32, FieldMask)>, i: int, id: u32)
    requires
        0 <= i <= s.len(),
        forall|j: int| 0 <= j < i ==> (#[trigger] s[j]).0 != id,
    ensures
        lookup_spec(s, id) == lookup_spec(s.skip(i), id),
    decreases i,
{
    if i > 0 {
        assert(s[0].0 != id);
        assert forall|j: int| 0 <= j < i - 1 implies (#[trigger] s.skip(1)[j]).0 != id by {
            assert(s.skip(1)[j] == s[j + 1]);
        }
        lemma_lookup_skip(s.skip(1), i - 1, id);
        assert(s.skip(1).skip(i - 1) =~= s.skip(i));
    } else {
        assert(s.skip(0) =~= s);
    }
}

impl FieldMask {
    /// The child mask governing field `id` below this node.
    pub open spec fn child_spec(self, id: u32) -> FieldMask {
        match self {
            FieldMask::IncludeAll => FieldMask::IncludeAll,
            FieldMask::ExcludeAll => FieldMask::ExcludeAll,
            FieldMask::Partial(m) => lookup_spec(m@, id),
        }
    }

    /// Whether field `id` is visited at all.
    pub open spec fn includes_spec(self, id: u32) -> bool {
        !(self.child_spec(id) is ExcludeAll)
    }

    /// The child mask governing field `id`; `None` stands for the open
    /// default, include-all.
    pub fn child_of(&self, id: u32) -> (r: Option<&FieldMask>)
        ensures
            match r {
                Some(c) => *c == self.child_spec(id),
                None => self.child_spec(id) == FieldMask::IncludeAll,
            },
    {
        match self {
            FieldMask::IncludeAll => Some(self),
            FieldMask::ExcludeAll => Some(self),
            FieldMask::Partial(m) => {
                let n = m.len();
                let mut i: usize = 0;
                while i < n
                    invariant
                        i <= n == m@.len(),
                        *self == FieldMask::Partial(*m),
                        forall|j: int| 0 <= j < i ==> (#[trigger] m@[j]).0 != id,
                    decreases n - i,
                {
                    if m[i].0 == id {
                        proof {
                            lemma_lookup_skip(m@, i as int, id);
                            assert(m@.skip(i as int)[0] == m@[i as int]);
                            assert(m@.skip(i as int).len() > 0);
                            assert(lookup_spec(m@.skip(i as int), id) == m@[i as int].1);
                        }
                        return Some(&m[i].1);
                    }
                    i = i + 1;
                }
                proof {
                    lemma_lookup_skip(m@, n as int, id);
                    assert(m@.skip(n as int).len() == 0);
                }
                None
            },
        }
    }

    /// Whether field `id` is visited at all.
    pub fn includes(&self, id: u32) -> (r: bool)
        ensures
            r == self.includes_spec(id),
    {
        match self.child_of(id) {
            Some(c) => match c {
                FieldMask::ExcludeAll => false,
                _ => true,
            },
            None => true,
        }
    }
}

} // verus!
