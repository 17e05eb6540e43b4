//! The shared selection store.
//!
//! The daemon owns one [`SelectionStore`] for its whole life: the pair of
//! selection sets, "copied" and "cut", created empty at startup, mutated
//! only through the operations here and never persisted.  Each operation
//! reads or replaces a whole set, so a reader is given a single consistent
//! point in time and never a half-updated view; the process around the
//! store makes each call atomic by running it under a lock.
//!
//! Paths are byte strings compared by exact byte value.  A set holds each
//! path once: duplicates handed to [`SelectionStore::replace`] collapse.
//! Nothing relates the two sets to each other — the same path may sit in
//! both at once, and readers decide what that means for them.

use vstd::prelude::*;

verus! {

use crate::proto::copy_range;

/// Which of the two selection sets an operation addresses.
#[derive(Clone, Copy, PartialEq, Eq, Structural, Debug)]
pub enum Which {
    Copied,
    Cut,
}

/// The set a list of paths stands for: membership, order and multiplicity
/// forgotten.
pub open spec fn set_of(s: Seq<Seq<u8>>) -> Set<Seq<u8>> {
    Set::new(|x: Seq<u8>| s.contains(x))
}

/// No path occurs twice.
pub open spec fn no_dups(s: Seq<Seq<u8>>) -> bool {
    forall|i: int, j: int| 0 <= i < j < s.len() ==> s[i] != s[j]
}

/// Appending one path inserts it into the set a list stands for.
proof fn lemma_set_of_push(s: Seq<Seq<u8>>, x: Seq<u8>)
    ensures
        set_of(s.push(x)) == set_of(s).insert(x),
{
    assert forall|y: Seq<u8>| set_of(s.push(x)).contains(y) implies set_of(s).insert(
        x,
    ).contains(y) by {
        let i = choose|i: int| 0 <= i < s.push(x).len() && s.push(x)[i] == y;
        if i < s.len() {
            assert(s[i] == y);
        }
    }
    assert forall|y: Seq<u8>| set_of(s).insert(x).contains(y) implies set_of(
        s.push(x),
    ).contains(y) by {
        if y == x {
            assert(s.push(x)[s.len() as int] == y);
        } else {
            let i = choose|i: int| 0 <= i < s.len() && s[i] == y;
            assert(s.push(x)[i] == y);
        }
    }
    assert(set_of(s.push(x)) =~= set_of(s).insert(x));
}

/// Compares two byte strings by value.
pub fn bytes_eq(a: &Vec<u8>, b: &Vec<u8>) -> (r: bool)
    ensures
        r == (a@ == b@),
{
    if a.len() != b.len() {
        return false;
    }
    let mut i: usize = 0;
    while i < a.len()
        invariant
            i <= a.len(),
            a.len() == b.len(),
            forall|k: int| 0 <= k < i ==> a@[k] == b@[k],
        decreases a.len() - i,
    {
        if a[i] != b[i] {
            return false;
        }
        i = i + 1;
    }
    proof {
        assert(a@ =~= b@);
    }
    true
}

/// Whether the list holds this path.
pub fn contains_bytes(list: &Vec<Vec<u8>>, x: &Vec<u8>) -> (r: bool)
    ensures
        r == set_of(list.deep_view()).contains(x@),
{
    let mut i: usize = 0;
    while i < list.len()
        invariant
            i <= list.len(),
            forall|k: int| 0 <= k < i ==> list.deep_view()[k] != x@,
        decreases list.len() - i,
    {
        let hit = bytes_eq(&list[i], x);
        proof {
            assert(list.deep_view()[i as int] =~= list@[i as int]@);
        }
        if hit {
            proof {
                assert(list.deep_view().contains(x@)) by {
                    assert(list.deep_view()[i as int] == x@);
                }
            }
            return true;
        }
        i = i + 1;
    }
    proof {
        assert(!list.deep_view().contains(x@));
    }
    false
}

/// Copies `list` with duplicates collapsed: the result stands for the same
/// set and holds each path once, keeping first occurrences in order.
pub fn dedup_paths(list: &Vec<Vec<u8>>) -> (out: Vec<Vec<u8>>)
    ensures
        set_of(out.deep_view()) == set_of(list.deep_view()),
        no_dups(out.deep_view()),
{
    let ghost src = list.deep_view();
    let mut out: Vec<Vec<u8>> = Vec::new();
    proof {
        assert(out.deep_view() =~= Seq::<Seq<u8>>::empty());
        assert(set_of(out.deep_view()) =~= set_of(src.take(0)));
    }
    let mut i: usize = 0;
    while i < list.len()
        invariant
            i <= list.len(),
            src == list.deep_view(),
            src.len() == list.len(),
            no_dups(out.deep_view()),
            set_of(out.deep_view()) == set_of(src.take(i as int)),
        decreases list.len() - i,
    {
        let f = &list[i];
        let ghost fview = f@;
        proof {
            assert(src[i as int] =~= fview);
            assert(src.take(i + 1) =~= src.take(i as int).push(src[i as int]));
            lemma_set_of_push(src.take(i as int), src[i as int]);
        }
        let present = contains_bytes(&out, f);
        if !present {
            let ghost pre = out.deep_view();
            let copy = copy_range(f, 0, f.len());
            proof {
                assert(copy@ =~= fview);
            }
            out.push(copy);
            proof {
                assert(out.deep_view() =~~= pre.push(fview));
                lemma_set_of_push(pre, fview);
                // Every existing entry differs from the new one.
                assert(forall|k: int|
                    0 <= k < pre.len() ==> pre[k] != fview) by {
                    assert(!set_of(pre).contains(fview));
                    assert(forall|k: int|
                        0 <= k < pre.len() && pre[k] == fview ==> set_of(pre).contains(
                            fview,
                        ));
                }
            }
        } else {
            proof {
                assert(set_of(src.take(i as int)).insert(fview) =~= set_of(
                    src.take(i as int),
                ));
            }
        }
        i = i + 1;
    }
    proof {
        assert(src.take(src.len() as int) =~= src);
    }
    out
}

/// The pair of selection sets.
pub struct SelectionStore {
    copied: Vec<Vec<u8>>,
    cut: Vec<Vec<u8>>,
}

impl SelectionStore {
    /// The copied paths, as the list held inside.
    pub closed spec fn copied_list(&self) -> Seq<Seq<u8>> {
        self.copied.deep_view()
    }

    /// The cut paths, as the list held inside.
    pub closed spec fn cut_list(&self) -> Seq<Seq<u8>> {
        self.cut.deep_view()
    }

    /// The set of copied paths.
    pub open spec fn copied_set(&self) -> Set<Seq<u8>> {
        set_of(self.copied_list())
    }

    /// The set of cut paths.
    pub open spec fn cut_set(&self) -> Set<Seq<u8>> {
        set_of(self.cut_list())
    }

    /// The addressed set.
    pub open spec fn sel_set(&self, which: Which) -> Set<Seq<u8>> {
        match which {
            Which::Copied => self.copied_set(),
            Which::Cut => self.cut_set(),
        }
    }

    /// Well-formed: each list holds each path once.
    pub open spec fn wf(&self) -> bool {
        no_dups(self.copied_list()) && no_dups(self.cut_list())
    }

    /// Both sets start empty.
    pub fn new() -> (s: Self)
        ensures
            s.wf(),
            s.copied_set() == Set::<Seq<u8>>::empty(),
            s.cut_set() == Set::<Seq<u8>>::empty(),
    {
        let s = SelectionStore { copied: Vec::new(), cut: Vec::new() };
        proof {
            assert(s.copied_list() =~= Seq::<Seq<u8>>::empty());
            assert(s.cut_list() =~= Seq::<Seq<u8>>::empty());
            assert(s.copied_set() =~= Set::<Seq<u8>>::empty());
            assert(s.cut_set() =~= Set::<Seq<u8>>::empty());
        }
        s
    }

    /// Discards the previous contents of the addressed set and installs
    /// the given paths, duplicates collapsed.  The whole list replaces the
    /// set: nothing of the old contents survives.  The other set is
    /// untouched.
    pub fn replace(&mut self, which: Which, files: &Vec<Vec<u8>>)
        requires
            old(self).wf(),
        ensures
            final(self).wf(),
            final(self).sel_set(which) == set_of(files.deep_view()),
            final(self).sel_set(other(which)) == old(self).sel_set(other(which)),
    {
        let fresh = dedup_paths(files);
        match which {
            Which::Copied => {
                self.copied = fresh;
            },
            Which::Cut => {
                self.cut = fresh;
            },
        }
    }

    /// Empties both sets.
    pub fn clear(&mut self)
        ensures
            final(self).wf(),
            final(self).copied_set() == Set::<Seq<u8>>::empty(),
            final(self).cut_set() == Set::<Seq<u8>>::empty(),
    {
        self.copied = Vec::new();
        self.cut = Vec::new();
        proof {
            assert(self.copied_list() =~= Seq::<Seq<u8>>::empty());
            assert(self.cut_list() =~= Seq::<Seq<u8>>::empty());
            assert(self.copied_set() =~= Set::<Seq<u8>>::empty());
            assert(self.cut_set() =~= Set::<Seq<u8>>::empty());
        }
    }

    /// An independent copy of the addressed set: exactly its current
    /// paths, each once, in no promised order.  The store is not changed,
    /// and the copy does not change when the store later does.
    pub fn snapshot(&self, which: Which) -> (out: Vec<Vec<u8>>)
        requires
            self.wf(),
        ensures
            set_of(out.deep_view()) == self.sel_set(which),
            no_dups(out.deep_view()),
    {
        let list: &Vec<Vec<u8>> = match which {
            Which::Copied => &self.copied,
            Which::Cut => &self.cut,
        };
        let mut out: Vec<Vec<u8>> = Vec::new();
        let mut i: usize = 0;
        while i < list.len()
            invariant
                i <= list.len(),
                out.deep_view() =~~= list.deep_view().take(i as int),
            decreases list.len() - i,
        {
            let ghost pre = out.deep_view();
            let copy = copy_range(&list[i], 0, list[i].len());
            out.push(copy);
            proof {
                assert(list.deep_view()[i as int] =~= list@[i as int]@);
                assert(out.deep_view() =~~= pre.push(list.deep_view()[i as int]));
                assert(out.deep_view() =~~= list.deep_view().take(i + 1));
            }
            i = i + 1;
        }
        proof {
            assert(list.deep_view().take(list@.len() as int) =~= list.deep_view());
            assert(out.deep_view() =~~= list.deep_view());
            assert(set_of(out.deep_view()) =~= set_of(list.deep_view()));
        }
        out
    }
}

/// The selection set an operation leaves alone.
pub open spec fn other(w: Which) -> Which {
    match w {
        Which::Copied => Which::Cut,
        Which::Cut => Which::Copied,
    }
}

} // verus!
