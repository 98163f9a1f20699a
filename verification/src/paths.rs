use vstd::prelude::*;
use vstd::string::StrSliceExecFns;
use vstd::string::StringExecFns;

verus! {

/// An absolute filesystem path in normalized form: the sequence of its
/// components below the root, holding no empty, `.` or `..` component.
/// The root directory itself is the path with no components.
pub struct NormPath {
    pub segments: Vec<String>,
}

/// The text of each component.
pub open spec fn text_views(ss: Seq<String>) -> Seq<Seq<char>> {
    ss.map_values(|s: String| s@)
}

impl View for NormPath {
    type V = Seq<Seq<char>>;

    open spec fn view(&self) -> Seq<Seq<char>> {
        text_views(self.segments@)
    }
}

/// The views of a sequence of paths.
pub open spec fn views_of(ps: Seq<NormPath>) -> Seq<Seq<Seq<char>>> {
    ps.map_values(|p: NormPath| p@)
}

/// The parent directory of a file path: the path with the file's own name
/// removed. The root is its own parent.
pub open spec fn dir_of(file: Seq<Seq<char>>) -> Seq<Seq<char>> {
    if file.len() > 0 {
        file.drop_last()
    } else {
        file
    }
}

/// The parent directories of a sequence of file paths, file by file.
pub open spec fn dir_views(files: Seq<NormPath>) -> Seq<Seq<Seq<char>>> {
    files.map_values(|p: NormPath| dir_of(p@))
}

/// The set of parent directories of a sequence of file paths.
pub open spec fn dirs_of(files: Seq<NormPath>) -> Set<Seq<Seq<char>>> {
    dir_views(files).to_set()
}

/// Seeing one more file adds exactly its parent directory to the set.
pub proof fn lemma_dirs_of_push(files: Seq<NormPath>, f: NormPath)
    ensures
        dirs_of(files.push(f)) == dirs_of(files).insert(dir_of(f@)),
{
    assert(dir_views(files.push(f)) =~= dir_views(files).push(dir_of(f@)));
    dir_views(files).lemma_push_to_set_commute(dir_of(f@));
    assert(dirs_of(files.push(f)) =~= dirs_of(files).insert(dir_of(f@)));
}

/// One step of splitting path text: the text still to read, the component
/// being read, and the components already finished.
pub open spec fn split_rest(s: Seq<char>, cur: Seq<char>, acc: Seq<Seq<char>>) -> Seq<Seq<char>>
    decreases s.len(),
{
    if s.len() == 0 {
        acc.push(cur)
    } else if s[0] == '/' {
        split_rest(s.drop_first(), Seq::<char>::empty(), acc.push(cur))
    } else {
        split_rest(s.drop_first(), cur.push(s[0]), acc)
    }
}

/// The raw components of a path text: the runs between separators, empty runs
/// included.
pub open spec fn raw_components(s: Seq<char>) -> Seq<Seq<char>> {
    split_rest(s, Seq::<char>::empty(), Seq::<Seq<char>>::empty())
}

/// A component that normalization drops: empty (doubled or trailing
/// separators) or the current directory.
pub open spec fn is_skippable(c: Seq<char>) -> bool {
    c.len() == 0 || c == seq!['.']
}

/// The component that names the parent directory.
pub open spec fn is_parent(c: Seq<char>) -> bool {
    c == seq!['.', '.']
}

/// The normalized form of raw components: skippable components drop out, a
/// parent reference removes the component before it and never rises above
/// the root.
pub open spec fn norm_fold(comps: Seq<Seq<char>>) -> Seq<Seq<char>>
    decreases comps.len(),
{
    if comps.len() == 0 {
        Seq::<Seq<char>>::empty()
    } else {
        let rest = norm_fold(comps.drop_last());
        let c = comps.last();
        if is_skippable(c) {
            rest
        } else if is_parent(c) {
            if rest.len() > 0 {
                rest.drop_last()
            } else {
                rest
            }
        } else {
            rest.push(c)
        }
    }
}

/// The normalized components of a path text.
pub open spec fn normalized(s: Seq<char>) -> Seq<Seq<char>> {
    norm_fold(raw_components(s))
}

/// Splits path text at separators.
fn split_text(s: &str) -> (comps: Vec<String>)
    ensures
        text_views(comps@) == raw_components(s@),
{
    let n = s.unicode_len();
    let mut comps: Vec<String> = Vec::new();
    let mut start: usize = 0;
    let mut i: usize = 0;
    proof {
        assert(s@.skip(0) =~= s@);
        assert(s@.subrange(0, 0) =~= Seq::<char>::empty());
        assert(text_views(comps@) =~= Seq::<Seq<char>>::empty());
    }
    while i < n
        invariant
            start <= i <= n,
            n == s@.len(),
            raw_components(s@) == split_rest(
                s@.skip(i as int),
                s@.subrange(start as int, i as int),
                text_views(comps@),
            ),
        decreases n - i,
    {
        let ghost cur0 = s@.subrange(start as int, i as int);
        let ghost acc0 = text_views(comps@);
        let c = s.get_char(i);
        proof {
            assert(s@.skip(i as int)[0] == s@[i as int]);
            assert(s@.skip(i as int).drop_first() =~= s@.skip(i as int + 1));
        }
        if c == '/' {
            let comp = s.substring_char(start, i);
            comps.push(comp.to_owned());
            start = i + 1;
            proof {
                assert(text_views(comps@) =~= acc0.push(cur0));
                assert(s@.subrange(start as int, i as int + 1) =~= Seq::<char>::empty());
            }
        } else {
            proof {
                assert(s@.subrange(start as int, i as int + 1) =~= cur0.push(s@[i as int]));
            }
        }
        i = i + 1;
    }
    let tail = s.substring_char(start, n);
    comps.push(tail.to_owned());
    proof {
        assert(s@.skip(n as int) =~= Seq::<char>::empty());
        assert(text_views(comps@) =~= text_views(comps@).drop_last().push(
            s@.subrange(start as int, n as int),
        ));
    }
    comps
}

/// Parses path text into normalized form: splits at separators, drops empty
/// and current-directory components, and resolves each parent reference
/// against the component before it.
pub fn parse_path(s: &str) -> (p: NormPath)
    ensures
        p@ == normalized(s@),
{
    let comps = split_text(s);
    let ghost tv = text_views(comps@);
    let mut segs: Vec<String> = Vec::new();
    let n = comps.len();
    let mut j: usize = 0;
    proof {
        assert(tv.take(0) =~= Seq::<Seq<char>>::empty());
        assert(text_views(segs@) =~= norm_fold(tv.take(0)));
    }
    while j < n
        invariant
            j <= n,
            n == comps@.len(),
            tv == text_views(comps@),
            text_views(segs@) == norm_fold(tv.take(j as int)),
        decreases n - j,
    {
        let ghost done = text_views(segs@);
        proof {
            assert(tv.take(j + 1).drop_last() =~= tv.take(j as int));
            assert(tv.take(j + 1).last() == tv[j as int]);
            assert(tv[j as int] == comps@[j as int]@);
        }
        let c = &comps[j];
        let clen: usize = c.as_str().unicode_len();
        if clen == 0 {
            proof {
                assert(is_skippable(c@));
            }
        } else if clen == 1 && c.as_str().get_char(0) == '.' {
            proof {
                assert(c@ =~= seq!['.']);
            }
        } else if clen == 2 && c.as_str().get_char(0) == '.' && c.as_str().get_char(1) == '.' {
            proof {
                assert(c@ =~= seq!['.', '.']);
            }
            if segs.len() > 0 {
                segs.pop();
                proof {
                    assert(text_views(segs@) =~= done.drop_last());
                }
            } else {
                proof {
                    assert(done.len() == 0);
                }
            }
        } else {
            proof {
                assert(!is_skippable(c@));
                assert(!is_parent(c@));
            }
            segs.push(c.clone());
            proof {
                assert(text_views(segs@) =~= done.push(c@));
            }
        }
        proof {
            assert(text_views(segs@) =~= norm_fold(tv.take(j + 1)));
        }
        j = j + 1;
    }
    proof {
        assert(tv.take(n as int) =~= tv);
    }
    NormPath { segments: segs }
}

/// The separated textual form of a path's components: a separator before
/// each one.
pub open spec fn rendered_parts(p: Seq<Seq<char>>) -> Seq<char>
    decreases p.len(),
{
    if p.len() == 0 {
        Seq::<char>::empty()
    } else {
        rendered_parts(p.drop_last()) + seq!['/'] + p.last()
    }
}

/// The textual form of a normalized path: `/` for the root, else each
/// component preceded by a separator.
pub open spec fn rendered(p: Seq<Seq<char>>) -> Seq<char> {
    if p.len() == 0 {
        seq!['/']
    } else {
        rendered_parts(p)
    }
}

/// The textual form of each directory in a listing.
pub fn to_display(dirs: &Vec<NormPath>) -> (r: Vec<String>)
    ensures
        r@.len() == dirs@.len(),
        forall|i: int| 0 <= i < dirs@.len() ==> r@[i]@ == rendered(dirs@[i]@),
{
    let mut out: Vec<String> = Vec::new();
    let n = dirs.len();
    let mut i: usize = 0;
    while i < n
        invariant
            i <= n,
            n == dirs@.len(),
            out@.len() == i,
            forall|j: int| 0 <= j < i ==> out@[j]@ == rendered(dirs@[j]@),
        decreases n - i,
    {
        out.push(dirs[i].display());
        i = i + 1;
    }
    out
}

/// No files, no directories.
pub proof fn lemma_dirs_of_empty(files: Seq<NormPath>)
    requires
        files.len() == 0,
    ensures
        dirs_of(files) == Set::<Seq<Seq<char>>>::empty(),
{
    assert(dirs_of(files) =~= Set::<Seq<Seq<char>>>::empty());
}

impl NormPath {
    /// An exact copy of the path.
    pub fn duplicate(&self) -> (r: NormPath)
        ensures
            r@ == self@,
    {
        let mut segs: Vec<String> = Vec::new();
        let mut i: usize = 0;
        while i < self.segments.len()
            invariant
                i <= self.segments.len(),
                segs@ == self.segments@.subrange(0, i as int),
            decreases self.segments.len() - i,
        {
            segs.push(self.segments[i].clone());
            i = i + 1;
        }
        assert(segs@ == self.segments@);
        let r = NormPath { segments: segs };
        assert(r@ =~= self@);
        r
    }

    /// The parent directory of this path.
    pub fn parent(&self) -> (d: NormPath)
        ensures
            d@ == dir_of(self@),
    {
        let mut d = self.duplicate();
        if d.segments.len() > 0 {
            d.segments.pop();
        }
        assert(d@ =~= dir_of(self@));
        d
    }

    /// The textual form of this path: `/` for the root, else each component
    /// preceded by a separator.
    pub fn display(&self) -> (r: String)
        ensures
            r@ == rendered(self@),
    {
        if self.segments.len() == 0 {
            let r = String::from_str("/");
            proof {
                reveal_strlit("/");
                assert(r@ =~= rendered(self@));
            }
            return r;
        }
        let mut out = String::new();
        proof {
            assert(out@ =~= rendered_parts(self@.take(0)));
        }
        let n = self.segments.len();
        let mut i: usize = 0;
        while i < n
            invariant
                i <= n,
                n == self.segments@.len(),
                n == self@.len(),
                out@ == rendered_parts(self@.take(i as int)),
            decreases n - i,
        {
            out.append("/");
            out.append(self.segments[i].as_str());
            proof {
                reveal_strlit("/");
                assert(self@.take(i + 1).drop_last() =~= self@.take(i as int));
                assert(self@.take(i + 1).last() == self@[i as int]);
                assert("/"@ =~= seq!['/']);
                assert(out@ =~= rendered_parts(self@.take(i + 1)));
            }
            i = i + 1;
        }
        proof {
            assert(self@.take(n as int) =~= self@);
        }
        out
    }

    /// Whether two paths spell the same location.
    pub fn same_path(&self, other: &NormPath) -> (r: bool)
        ensures
            r == (self@ == other@),
    {
        if self.segments.len() != other.segments.len() {
            assert(self@.len() != other@.len());
            return false;
        }
        let mut i: usize = 0;
        while i < self.segments.len()
            invariant
                i <= self.segments.len(),
                self.segments.len() == other.segments.len(),
                forall|j: int| 0 <= j < i ==> self@[j] == other@[j],
            decreases self.segments.len() - i,
        {
            if !self.segments[i].eq(&other.segments[i]) {
                assert(self@[i as int] != other@[i as int]);
                return false;
            }
            i = i + 1;
        }
        assert(self@ =~= other@);
        true
    }
}

} // verus!
