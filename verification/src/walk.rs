use vstd::prelude::*;
use crate::collect::{DirSet, strictly_sorted};
use crate::paths::{NormPath, views_of, dirs_of, lemma_dirs_of_push, lemma_dirs_of_empty};
use crate::sources::{
    SourceKind, SourceId, Node, LockfileGraph, FetchCause, UpdateOutcome, ListOutcome,
    TablePackage, SourceTable, WalkError, find_entry, find_package,
};

verus! {

/// The source identifier of each node, node by node.
pub open spec fn source_views(nodes: Seq<Node>) -> Seq<(SourceKind, Seq<char>)> {
    nodes.map_values(|n: Node| n.source@)
}

/// The distinct source identifiers a run of nodes references.
pub open spec fn graph_sources(nodes: Seq<Node>) -> Set<(SourceKind, Seq<char>)> {
    source_views(nodes).to_set()
}

/// The views of a recorded update log.
pub open spec fn id_views(ids: Seq<SourceId>) -> Seq<(SourceKind, Seq<char>)> {
    ids.map_values(|s: SourceId| s@)
}

/// The distinct source identifiers of a run of nodes, each at its first
/// occurrence: the order in which a walk updates them.
pub open spec fn dedup_sources(nodes: Seq<Node>) -> Seq<(SourceKind, Seq<char>)>
    decreases nodes.len(),
{
    if nodes.len() == 0 {
        Seq::<(SourceKind, Seq<char>)>::empty()
    } else {
        let rest = dedup_sources(nodes.drop_last());
        if rest.contains(nodes.last().source@) {
            rest
        } else {
            rest.push(nodes.last().source@)
        }
    }
}

/// The deduplicated update order covers exactly the graph's identifiers.
proof fn lemma_dedup_sources_set(nodes: Seq<Node>)
    ensures
        dedup_sources(nodes).to_set() == graph_sources(nodes),
    decreases nodes.len(),
{
    if nodes.len() == 0 {
        assert(source_views(nodes) =~= Seq::<(SourceKind, Seq<char>)>::empty());
        assert(dedup_sources(nodes).to_set() =~= graph_sources(nodes));
    } else {
        lemma_dedup_sources_set(nodes.drop_last());
        let rest = dedup_sources(nodes.drop_last());
        let id = nodes.last().source@;
        assert(source_views(nodes) =~= source_views(nodes.drop_last()).push(id));
        source_views(nodes.drop_last()).lemma_push_to_set_commute(id);
        if rest.contains(id) {
            assert(graph_sources(nodes.drop_last()).contains(id));
            assert(dedup_sources(nodes).to_set() =~= graph_sources(nodes));
        } else {
            rest.lemma_push_to_set_commute(id);
            assert(dedup_sources(nodes).to_set() =~= graph_sources(nodes));
        }
    }
}

/// How updating the source named `id` ends, `None` meaning content is
/// present and current.
pub open spec fn update_error(t: SourceTable, id: (SourceKind, Seq<char>)) -> Option<FetchCause> {
    match find_entry(t.entries@, id) {
        Option::Some(e) => match e.update {
            UpdateOutcome::Updated => Option::None,
            UpdateOutcome::Failed(c) => Option::Some(c),
        },
        Option::None => Option::Some(FetchCause::NotFound),
    }
}

/// The package a node resolves to at its claimed source, after an update.
pub open spec fn resolved_package(t: SourceTable, node: Node) -> Option<TablePackage> {
    match find_entry(t.entries@, node.source@) {
        Option::Some(e) => find_package(e.packages@, node.identity@),
        Option::None => Option::None,
    }
}

/// The files a node's package holds; empty unless resolution and the local
/// enumeration both succeed.
pub open spec fn files_of(t: SourceTable, node: Node) -> Seq<NormPath> {
    match resolved_package(t, node) {
        Option::Some(p) => match p.listing {
            ListOutcome::Files(fs) => fs@,
            ListOutcome::IoFailure => Seq::empty(),
        },
        Option::None => Seq::empty(),
    }
}

/// Whether a node's update, resolution and file enumeration all succeed.
pub open spec fn node_ok(t: SourceTable, node: Node) -> bool {
    &&& update_error(t, node.source@) is None
    &&& match resolved_package(t, node) {
        Option::Some(p) => p.listing is Files,
        Option::None => false,
    }
}

/// The error a failing node surfaces, annotated with that node.
pub open spec fn node_error(t: SourceTable, node: Node) -> WalkError {
    match update_error(t, node.source@) {
        Option::Some(c) => WalkError::Fetch { node: node.identity, source: node.source, cause: c },
        Option::None => match resolved_package(t, node) {
            Option::None => WalkError::NotFound { node: node.identity, source: node.source },
            Option::Some(_) => WalkError::Listing { node: node.identity, source: node.source },
        },
    }
}

/// The directories a run of nodes contributes to the closure.
pub open spec fn nodes_dirs(t: SourceTable, nodes: Seq<Node>) -> Set<Seq<Seq<char>>>
    decreases nodes.len(),
{
    if nodes.len() == 0 {
        Set::<Seq<Seq<char>>>::empty()
    } else {
        nodes_dirs(t, nodes.drop_last()) + dirs_of(files_of(t, nodes.last()))
    }
}

/// What a completed closure resolution yields: the deduplicated directory
/// listing in canonical order and, for diagnostics, which sources were
/// updated, in first-seen order.
pub struct ClosureOutcome {
    pub directories: Vec<NormPath>,
    pub updates: Vec<SourceId>,
}

/// The closure walker's accumulating state: which sources have been seen (and
/// so updated) already, and the directories collected so far.
pub struct Walker {
    pub updated: Vec<SourceId>,
    pub dirs: DirSet,
}

impl Walker {
    /// The sources updated so far, in first-seen order.
    pub open spec fn update_log(&self) -> Seq<(SourceKind, Seq<char>)> {
        id_views(self.updated@)
    }

    /// The sources seen so far.
    pub open spec fn sources_seen(&self) -> Set<(SourceKind, Seq<char>)> {
        self.update_log().to_set()
    }

    /// The directories collected so far.
    pub open spec fn dir_set(&self) -> Set<Seq<Seq<char>>> {
        self.dirs.dir_set()
    }

    /// Each source is updated at most once, and the listing stays canonical.
    pub open spec fn wf(&self) -> bool {
        &&& self.dirs.wf()
        &&& self.update_log().no_duplicates()
    }

    pub fn new() -> (r: Walker)
        ensures
            r.wf(),
            r.dir_set() == Set::<Seq<Seq<char>>>::empty(),
            r.update_log() == Seq::<(SourceKind, Seq<char>)>::empty(),
    {
        let r = Walker { updated: Vec::new(), dirs: DirSet::new() };
        proof {
            assert(r.update_log() =~= Seq::<(SourceKind, Seq<char>)>::empty());
        }
        r
    }

    /// Marks a node's source as reached and says whether it is seen for the
    /// first time — exactly then must the source be updated, so repeated
    /// identifiers never fetch twice.
    pub fn begin_source(&mut self, id: &SourceId) -> (first: bool)
        requires
            old(self).wf(),
        ensures
            final(self).wf(),
            first == !old(self).sources_seen().contains(id@),
            final(self).sources_seen() == old(self).sources_seen().insert(id@),
            final(self).update_log() == if first {
                old(self).update_log().push(id@)
            } else {
                old(self).update_log()
            },
            final(self).dir_set() == old(self).dir_set(),
    {
        let n = self.updated.len();
        let mut i: usize = 0;
        while i < n
            invariant
                i <= n,
                n == self.updated@.len(),
                *self == *old(self),
                old(self).wf(),
                forall|j: int| 0 <= j < i ==> self.updated@[j]@ != id@,
            decreases n - i,
        {
            if self.updated[i].same_source(id) {
                proof {
                    assert(self.update_log()[i as int] == id@);
                    assert(self.update_log().contains(id@));
                    assert(self.sources_seen() =~= old(self).sources_seen().insert(id@));
                }
                return false;
            }
            i = i + 1;
        }
        proof {
            if old(self).update_log().contains(id@) {
                let j = choose|j: int|
                    0 <= j < old(self).update_log().len() && old(self).update_log()[j] == id@;
                assert(old(self).updated@[j]@ == id@);
            }
        }
        let ghost log0 = self.update_log();
        self.updated.push(id.duplicate());
        proof {
            assert(self.update_log() =~= log0.push(id@));
            log0.lemma_push_to_set_commute(id@);
            assert(self.sources_seen() =~= old(self).sources_seen().insert(id@));
            assert forall|p: int, q: int|
                0 <= p < q < self.update_log().len() implies self.update_log()[p]
                != self.update_log()[q] by {
                if q == log0.len() {
                    assert(self.update_log()[p] == old(self).updated@[p]@);
                } else {
                    assert(log0[p] != log0[q]);
                }
            }
        }
        true
    }

    /// Feeds the files of one resolved package to the directory collector.
    pub fn add_files(&mut self, files: &Vec<NormPath>)
        requires
            old(self).wf(),
        ensures
            final(self).wf(),
            final(self).dir_set() == old(self).dir_set() + dirs_of(files@),
            final(self).update_log() == old(self).update_log(),
    {
        let n = files.len();
        proof {
            lemma_dirs_of_empty(files@.take(0));
            assert(old(self).dir_set() + dirs_of(files@.take(0)) =~= old(self).dir_set());
        }
        let mut i: usize = 0;
        while i < n
            invariant
                i <= n,
                n == files@.len(),
                self.wf(),
                self.update_log() == old(self).update_log(),
                self.dir_set() == old(self).dir_set() + dirs_of(files@.take(i as int)),
            decreases n - i,
        {
            self.dirs.add_file(&files[i]);
            proof {
                assert(files@.take(i as int).push(files@[i as int]) =~= files@.take(i + 1));
                lemma_dirs_of_push(files@.take(i as int), files@[i as int]);
                assert(self.dir_set() =~= old(self).dir_set() + dirs_of(files@.take(i + 1)));
            }
            i = i + 1;
        }
        proof {
            assert(files@.take(n as int) =~= files@);
        }
    }

    /// Ends the walk: the collected directories, deduplicated and in
    /// canonical order, beside the update log.
    pub fn finish(self) -> (r: ClosureOutcome)
        requires
            self.wf(),
        ensures
            strictly_sorted(views_of(r.directories@)),
            views_of(r.directories@).to_set() == self.dir_set(),
            id_views(r.updates@) == self.update_log(),
    {
        ClosureOutcome { directories: self.dirs.into_directories(), updates: self.updated }
    }
}

/// The lockfile's nodes, none when no lockfile accompanies the root package.
pub open spec fn graph_nodes(lockfile: Option<&LockfileGraph>) -> Seq<Node> {
    match lockfile {
        Option::Some(g) => g.nodes@,
        Option::None => Seq::<Node>::empty(),
    }
}

/// Resolves the full dependency closure of one root package against the given
/// world of sources: seeds the collector with the root's own files, visits
/// every lockfile node exactly once, updates each distinct source exactly
/// once, resolves each node and enumerates its files. The first failure
/// aborts the whole walk — no partial directory listing is ever surfaced.
pub fn resolve_closure(
    root_files: &Vec<NormPath>,
    lockfile: Option<&LockfileGraph>,
    table: &SourceTable,
) -> (r: Result<ClosureOutcome, WalkError>)
    ensures
        lockfile is None ==> r == Result::<ClosureOutcome, WalkError>::Err(
            WalkError::MissingLockfile,
        ),
        lockfile is Some ==> (r is Ok <==> (forall|i: int|
            0 <= i < graph_nodes(lockfile).len() ==> node_ok(*table, graph_nodes(lockfile)[i]))),
        lockfile is Some ==> (r matches Result::Ok(out) ==> {
            &&& strictly_sorted(views_of(out.directories@))
            &&& views_of(out.directories@).to_set() == dirs_of(root_files@) + nodes_dirs(
                *table,
                graph_nodes(lockfile),
            )
            &&& id_views(out.updates@) == dedup_sources(graph_nodes(lockfile))
            &&& id_views(out.updates@).no_duplicates()
            &&& id_views(out.updates@).to_set() == graph_sources(graph_nodes(lockfile))
        }),
        lockfile is Some ==> (r matches Result::Err(e) ==> (exists|i: int|
            {
                &&& 0 <= i < graph_nodes(lockfile).len()
                &&& !node_ok(*table, graph_nodes(lockfile)[i])
                &&& (forall|j: int| 0 <= j < i ==> node_ok(*table, graph_nodes(lockfile)[j]))
                &&& e == node_error(*table, graph_nodes(lockfile)[i])
            })),
{
    let graph = match lockfile {
        Option::None => {
            return Result::Err(WalkError::MissingLockfile);
        },
        Option::Some(g) => g,
    };
    let ghost gn = graph_nodes(lockfile);
    let mut w = Walker::new();
    w.add_files(root_files);
    let n = graph.nodes.len();
    proof {
        assert(nodes_dirs(*table, gn.take(0)) =~= Set::<Seq<Seq<char>>>::empty());
        assert(w.dir_set() =~= dirs_of(root_files@) + nodes_dirs(*table, gn.take(0)));
        assert(w.sources_seen() =~= graph_sources(gn.take(0)));
        assert(w.update_log() =~= dedup_sources(gn.take(0)));
    }
    let mut i: usize = 0;
    while i < n
        invariant
            i <= n,
            lockfile == Option::Some(graph),
            gn == graph_nodes(lockfile),
            n == gn.len(),
            gn == graph.nodes@,
            w.wf(),
            w.dir_set() == dirs_of(root_files@) + nodes_dirs(*table, gn.take(i as int)),
            w.update_log() == dedup_sources(gn.take(i as int)),
            w.sources_seen() == graph_sources(gn.take(i as int)),
            forall|j: int| 0 <= j < i ==> node_ok(*table, gn[j]),
        decreases n - i,
    {
        let ghost w0 = w;
        let node = &graph.nodes[i];
        let first = w.begin_source(&node.source);
        proof {
            assert(*node == gn[i as int]);
            if !first {
                assert(w0.sources_seen().contains(node.source@));
                let tk = gn.take(i as int);
                assert(source_views(tk).contains(node.source@));
                let j = choose|j: int|
                    0 <= j < source_views(tk).len() && source_views(tk)[j] == node.source@;
                assert(tk[j] == gn[j]);
                assert(node_ok(*table, gn[j]));
                assert(update_error(*table, node.source@) is None);
            }
        }
        let entry = match table.entry_for(&node.source) {
            Option::None => {
                let err = WalkError::Fetch {
                    node: node.identity.duplicate(),
                    source: node.source.duplicate(),
                    cause: FetchCause::NotFound,
                };
                proof {
                    assert(update_error(*table, node.source@) == Option::Some(FetchCause::NotFound));
                    assert(!node_ok(*table, gn[i as int]));
                    assert(err == node_error(*table, gn[i as int]));
                    assert(!(forall|j: int| 0 <= j < gn.len() ==> node_ok(*table, gn[j])));
                    assert(exists|k: int|
                        {
                            &&& 0 <= k < gn.len()
                            &&& !node_ok(*table, gn[k])
                            &&& (forall|j: int| 0 <= j < k ==> node_ok(*table, gn[j]))
                            &&& err == node_error(*table, gn[k])
                        });
                }
                return Result::Err(err);
            },
            Option::Some(e) => e,
        };
        if first {
            match &entry.update {
                UpdateOutcome::Updated => {},
                UpdateOutcome::Failed(c) => {
                    let err = WalkError::Fetch {
                        node: node.identity.duplicate(),
                        source: node.source.duplicate(),
                        cause: *c,
                    };
                    proof {
                        assert(update_error(*table, node.source@) == Option::Some(*c));
                        assert(!node_ok(*table, gn[i as int]));
                        assert(err == node_error(*table, gn[i as int]));
                        assert(!(forall|j: int| 0 <= j < gn.len() ==> node_ok(*table, gn[j])));
                        assert(exists|k: int|
                            {
                                &&& 0 <= k < gn.len()
                                &&& !node_ok(*table, gn[k])
                                &&& (forall|j: int| 0 <= j < k ==> node_ok(*table, gn[j]))
                                &&& err == node_error(*table, gn[k])
                            });
                    }
                    return Result::Err(err);
                },
            }
        }
        proof {
            assert(update_error(*table, node.source@) is None);
        }
        let pkg = match entry.package_for(&node.identity) {
            Option::None => {
                let err = WalkError::NotFound {
                    node: node.identity.duplicate(),
                    source: node.source.duplicate(),
                };
                proof {
                    assert(resolved_package(*table, gn[i as int]) is None);
                    assert(!node_ok(*table, gn[i as int]));
                    assert(err == node_error(*table, gn[i as int]));
                    assert(!(forall|j: int| 0 <= j < gn.len() ==> node_ok(*table, gn[j])));
                    assert(exists|k: int|
                        {
                            &&& 0 <= k < gn.len()
                            &&& !node_ok(*table, gn[k])
                            &&& (forall|j: int| 0 <= j < k ==> node_ok(*table, gn[j]))
                            &&& err == node_error(*table, gn[k])
                        });
                }
                return Result::Err(err);
            },
            Option::Some(p) => p,
        };
        match &pkg.listing {
            ListOutcome::IoFailure => {
                let err = WalkError::Listing {
                    node: node.identity.duplicate(),
                    source: node.source.duplicate(),
                };
                proof {
                    assert(resolved_package(*table, gn[i as int]) == Option::Some(*pkg));
                    assert(!node_ok(*table, gn[i as int]));
                    assert(err == node_error(*table, gn[i as int]));
                    assert(!(forall|j: int| 0 <= j < gn.len() ==> node_ok(*table, gn[j])));
                    assert(exists|k: int|
                        {
                            &&& 0 <= k < gn.len()
                            &&& !node_ok(*table, gn[k])
                            &&& (forall|j: int| 0 <= j < k ==> node_ok(*table, gn[j]))
                            &&& err == node_error(*table, gn[k])
                        });
                }
                return Result::Err(err);
            },
            ListOutcome::Files(fs) => {
                proof {
                    assert(resolved_package(*table, gn[i as int]) == Option::Some(*pkg));
                    assert(files_of(*table, gn[i as int]) == fs@);
                    assert(node_ok(*table, gn[i as int]));
                }
                w.add_files(fs);
            },
        }
        proof {
            let tk1 = gn.take(i as int + 1);
            assert(tk1.drop_last() =~= gn.take(i as int));
            assert(tk1.last() == gn[i as int]);
            assert(w.dir_set() =~= dirs_of(root_files@) + nodes_dirs(*table, tk1));
            assert(source_views(tk1) =~= source_views(gn.take(i as int)).push(node.source@));
            source_views(gn.take(i as int)).lemma_push_to_set_commute(node.source@);
            assert(w.sources_seen() =~= graph_sources(tk1));
            lemma_dedup_sources_set(gn.take(i as int));
            let rest = dedup_sources(gn.take(i as int));
            assert(rest.contains(node.source@) == rest.to_set().contains(node.source@));
            assert(w.update_log() == dedup_sources(tk1));
        }
        i = i + 1;
    }
    proof {
        assert(gn.take(n as int) =~= gn);
    }
    Result::Ok(w.finish())
}


/// Exactly one update per distinct source identifier: however many nodes
/// reference them and in whatever order they are visited, a duplicate-free
/// update log covering a graph's identifiers has exactly as many entries as
/// the graph has distinct identifiers.
pub proof fn lemma_one_update_per_source(log: Seq<(SourceKind, Seq<char>)>, nodes: Seq<Node>)
    requires
        log.no_duplicates(),
        log.to_set() == graph_sources(nodes),
    ensures
        log.len() == graph_sources(nodes).len(),
{
    log.unique_seq_to_set();
}

/// A root package with no dependencies resolves to exactly its own source
/// directories.
pub proof fn lemma_root_only(t: SourceTable, root_files: Seq<NormPath>, nodes: Seq<Node>)
    requires
        nodes.len() == 0,
    ensures
        dirs_of(root_files) + nodes_dirs(t, nodes) == dirs_of(root_files),
{
    assert(dirs_of(root_files) + nodes_dirs(t, nodes) =~= dirs_of(root_files));
}

} // verus!
