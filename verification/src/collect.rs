use vstd::prelude::*;
use crate::order::{
    path_lt, path_below, path_lt_irreflexive, path_lt_asymmetric, path_lt_connected,
    path_lt_transitive,
};
use crate::paths::{NormPath, views_of, dir_of};

verus! {

/// Pairwise strictly increasing: canonically ordered and free of duplicates.
pub open spec fn strictly_sorted(s: Seq<Seq<Seq<char>>>) -> bool {
    forall|i: int, j: int| 0 <= i < j < s.len() ==> path_lt(s[i], s[j])
}

/// The directory collector: reduces a stream of file paths to the
/// deduplicated set of their parent directories, kept in the canonical
/// (lexicographic) order so that the final listing does not depend on the
/// order in which files were seen.
pub struct DirSet {
    pub dirs: Vec<NormPath>,
}

/// The first position whose entry is not below `d`: where `d` belongs in a
/// sorted listing.
fn insertion_point(dirs: &Vec<NormPath>, d: &NormPath) -> (k: usize)
    ensures
        k <= dirs@.len(),
        forall|i: int| 0 <= i < k ==> path_lt(views_of(dirs@)[i], d@),
        k < dirs@.len() ==> !path_lt(views_of(dirs@)[k as int], d@),
{
    let mut k: usize = 0;
    while k < dirs.len()
        invariant
            k <= dirs@.len(),
            forall|i: int| 0 <= i < k ==> path_lt(views_of(dirs@)[i], d@),
        decreases dirs@.len() - k,
    {
        if !path_below(&dirs[k], d) {
            return k;
        }
        assert(views_of(dirs@)[k as int] == dirs@[k as int]@);
        k = k + 1;
    }
    k
}

impl DirSet {
    /// The set of directories collected so far.
    pub open spec fn dir_set(&self) -> Set<Seq<Seq<char>>> {
        views_of(self.dirs@).to_set()
    }

    pub open spec fn wf(&self) -> bool {
        strictly_sorted(views_of(self.dirs@))
    }

    pub fn new() -> (r: DirSet)
        ensures
            r.wf(),
            r.dir_set() == Set::<Seq<Seq<char>>>::empty(),
    {
        let r = DirSet { dirs: Vec::new() };
        proof {
            assert(views_of(r.dirs@) =~= Seq::<Seq<Seq<char>>>::empty());
            assert(r.dir_set() =~= Set::<Seq<Seq<char>>>::empty());
        }
        r
    }

    /// Records one directory; adding a directory twice changes nothing.
    pub fn add_dir(&mut self, d: &NormPath)
        requires
            old(self).wf(),
        ensures
            final(self).wf(),
            final(self).dir_set() == old(self).dir_set().insert(d@),
    {
        let ghost s0 = views_of(self.dirs@);
        let k = insertion_point(&self.dirs, d);
        if k < self.dirs.len() && self.dirs[k].same_path(d) {
            // already present
            proof {
                assert(views_of(self.dirs@)[k as int] == d@);
                assert(views_of(self.dirs@).contains(d@));
                assert(self.dir_set() =~= old(self).dir_set().insert(d@));
            }
            return ;
        }
        let entry = d.duplicate();
        self.dirs.insert(k, entry);
        proof {
            let s1 = views_of(self.dirs@);
            assert(s1 =~= s0.insert(k as int, d@));
            // the entry at k is strictly between its neighbours
            assert forall|i: int, j: int| 0 <= i < j < s1.len() implies path_lt(s1[i], s1[j]) by {
                if j == k {
                    assert(s1[i] == s0[i]);
                    assert(path_lt(s0[i], d@));
                } else if i == k {
                    // the scan stopped at k: the old entry there is not below d
                    assert(s1[j] == s0[j - 1]);
                    if k < s0.len() {
                        assert(!path_lt(s0[k as int], d@));
                        assert(s0[k as int] != d@);
                        path_lt_connected(d@, s0[k as int]);
                        assert(path_lt(d@, s0[k as int]));
                        if j - 1 > k {
                            path_lt_transitive(d@, s0[k as int], s0[j - 1]);
                        }
                    }
                } else if i < k && j > k {
                    assert(s1[i] == s0[i]);
                    assert(s1[j] == s0[j - 1]);
                    assert(path_lt(s0[i], s0[j - 1]));
                } else if j < k {
                    assert(s1[i] == s0[i]);
                    assert(s1[j] == s0[j]);
                } else {
                    assert(s1[i] == s0[i - 1]);
                    assert(s1[j] == s0[j - 1]);
                }
            }
            // membership: the new sequence holds d@ and everything held before
            assert forall|x: Seq<Seq<char>>|
                s1.contains(x) == (x == d@ || s0.contains(x)) by {
                if s1.contains(x) {
                    let i = choose|i: int| 0 <= i < s1.len() && s1[i] == x;
                    if i < k {
                        assert(s0[i] == x);
                    } else if i > k {
                        assert(s0[i - 1] == x);
                    }
                }
                if x == d@ {
                    assert(s1[k as int] == x);
                }
                if s0.contains(x) {
                    let i = choose|i: int| 0 <= i < s0.len() && s0[i] == x;
                    if i < k {
                        assert(s1[i] == x);
                    } else {
                        assert(s1[i + 1] == x);
                    }
                }
            }
            assert(self.dir_set() =~= old(self).dir_set().insert(d@));
        }
    }

    /// Records the parent directory of one file path.
    pub fn add_file(&mut self, f: &NormPath)
        requires
            old(self).wf(),
        ensures
            final(self).wf(),
            final(self).dir_set() == old(self).dir_set().insert(dir_of(f@)),
    {
        let d = f.parent();
        self.add_dir(&d);
    }

    /// Hands the collected directories out, deduplicated and in canonical
    /// order.
    pub fn into_directories(self) -> (r: Vec<NormPath>)
        requires
            self.wf(),
        ensures
            strictly_sorted(views_of(r@)),
            views_of(r@).to_set() == self.dir_set(),
    {
        self.dirs
    }
}

/// A canonical listing holds no entry twice, however many times a directory
/// was fed to the collector.
pub proof fn lemma_listing_free_of_duplicates(s: Seq<Seq<Seq<char>>>)
    requires
        strictly_sorted(s),
    ensures
        s.no_duplicates(),
{
    assert forall|i: int, j: int| 0 <= i < j < s.len() implies s[i] != s[j] by {
        path_lt_irreflexive(s[i]);
    }
}

/// Two collections that saw the same set of directories present them in the
/// same order, whatever the order and multiplicity of the insertions: a
/// strictly sorted listing is determined by its set of entries.
pub proof fn lemma_canonical_listing(a: Seq<Seq<Seq<char>>>, b: Seq<Seq<Seq<char>>>)
    requires
        strictly_sorted(a),
        strictly_sorted(b),
        a.to_set() == b.to_set(),
    ensures
        a == b,
    decreases a.len(),
{
    if a.len() == 0 {
        if b.len() > 0 {
            assert(b.to_set().contains(b[0]));
            assert(a.contains(b[0]));
        }
        assert(a =~= b);
    } else {
        assert(a.to_set().contains(a[0]));
        assert(b.contains(a[0]));
        let bi = choose|i: int| 0 <= i < b.len() && b[i] == a[0];
        assert(b.to_set().contains(b[0]));
        assert(a.contains(b[0]));
        let ai = choose|i: int| 0 <= i < a.len() && a[i] == b[0];
        // each head is the least entry of the shared set, so the heads agree
        if a[0] != b[0] {
            if bi > 0 {
                assert(path_lt(b[0], b[bi]));
            }
            if ai > 0 {
                assert(path_lt(a[0], a[ai]));
            }
            path_lt_asymmetric(a[0], b[0]);
            assert(false);
        }
        // the heads are not repeated, so the tails carry the rest of the set
        let at = a.drop_first();
        let bt = b.drop_first();
        assert forall|x: Seq<Seq<char>>| at.contains(x) == (a.contains(x) && x != a[0]) by {
            if at.contains(x) {
                let i = choose|i: int| 0 <= i < at.len() && at[i] == x;
                assert(a[i + 1] == x);
                assert(path_lt(a[0], a[i + 1]));
                path_lt_irreflexive(a[0]);
            }
            if a.contains(x) && x != a[0] {
                let i = choose|i: int| 0 <= i < a.len() && a[i] == x;
                assert(at[i - 1] == x);
            }
        }
        assert forall|x: Seq<Seq<char>>| bt.contains(x) == (b.contains(x) && x != b[0]) by {
            if bt.contains(x) {
                let i = choose|i: int| 0 <= i < bt.len() && bt[i] == x;
                assert(b[i + 1] == x);
                assert(path_lt(b[0], b[i + 1]));
                path_lt_irreflexive(b[0]);
            }
            if b.contains(x) && x != b[0] {
                let i = choose|i: int| 0 <= i < b.len() && b[i] == x;
                assert(bt[i - 1] == x);
            }
        }
        assert forall|x: Seq<Seq<char>>| at.contains(x) == bt.contains(x) by {
            assert(a.to_set().contains(x) == a.contains(x));
            assert(b.to_set().contains(x) == b.contains(x));
        }
        assert(at.to_set() =~= bt.to_set());
        assert(strictly_sorted(at)) by {
            assert forall|i: int, j: int| 0 <= i < j < at.len() implies path_lt(at[i], at[j]) by {
                assert(at[i] == a[i + 1]);
                assert(at[j] == a[j + 1]);
            }
        }
        assert(strictly_sorted(bt)) by {
            assert forall|i: int, j: int| 0 <= i < j < bt.len() implies path_lt(bt[i], bt[j]) by {
                assert(bt[i] == b[i + 1]);
                assert(bt[j] == b[j + 1]);
            }
        }
        lemma_canonical_listing(at, bt);
        assert forall|i: int| 0 <= i < a.len() implies a[i] == b[i] by {
            if i > 0 {
                assert(a.drop_first()[i - 1] == b.drop_first()[i - 1]);
            }
        }
        assert(a =~= b);
    }
}

} // verus!
