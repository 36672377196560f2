use vstd::prelude::*;

verus! {

/// What the metadata probe of one traversed node found.
#[derive(Clone, Copy, Debug, PartialEq, Eq, Structural)]
pub enum Probe {
    /// A regular file.
    File,
    /// A directory.
    Directory,
    /// Neither a file nor a directory (a socket, a FIFO, a device): left alone.
    Special,
    /// The probe was refused for want of permission; the node looks like a file.
    DeniedFile,
    /// The probe was refused for want of permission; the node looks like a directory.
    DeniedDirectory,
    /// The probe failed for another reason: the node is dropped.
    Failed,
}

/// What reading a node's metadata gave.
#[derive(Clone, Copy, Debug, PartialEq, Eq, Structural)]
pub enum Metadata {
    /// The metadata was read.
    Read { is_dir: bool, is_file: bool },
    /// Reading it was refused for want of permission.
    Denied,
    /// Reading it failed for another reason.
    Unreadable,
}

/// The kind of a node, from its metadata and from the kind under which the
/// directory listing showed it.
pub open spec fn probe_of(m: Metadata, listed_as_dir: bool) -> Probe {
    match m {
        Metadata::Read { is_dir, is_file } => if is_dir {
            Probe::Directory
        } else if is_file {
            Probe::File
        } else {
            Probe::Special
        },
        Metadata::Denied => if listed_as_dir {
            Probe::DeniedDirectory
        } else {
            Probe::DeniedFile
        },
        Metadata::Unreadable => Probe::Failed,
    }
}

/// Classifies a node by its metadata; a node whose metadata was refused
/// keeps the kind under which the directory listing showed it.
pub fn classify(m: Metadata, listed_as_dir: bool) -> (r: Probe)
    ensures
        r == probe_of(m, listed_as_dir),
{
    match m {
        Metadata::Read { is_dir, is_file } => {
            if is_dir {
                Probe::Directory
            } else if is_file {
                Probe::File
            } else {
                Probe::Special
            }
        },
        Metadata::Denied => {
            if listed_as_dir {
                Probe::DeniedDirectory
            } else {
                Probe::DeniedFile
            }
        },
        Metadata::Unreadable => Probe::Failed,
    }
}

/// One node of the traversal: its path and what probing it found.
pub struct Entry {
    pub path: Vec<u8>,
    pub probe: Probe,
}

impl View for Entry {
    type V = (Seq<u8>, Probe);

    open spec fn view(&self) -> (Seq<u8>, Probe) {
        (self.path@, self.probe)
    }
}

/// What the walker asks for after a call.
pub enum Step {
    /// The chunk is not complete: hand over the traversal's next node,
    /// or `None` when the traversal has no more.
    NeedEntry,
    /// The chunk is complete.
    Chunk(Vec<Vec<u8>>),
}

/// The byte sequences of a list of paths.
pub open spec fn paths(v: Seq<Vec<u8>>) -> Seq<Seq<u8>> {
    v.map_values(|p: Vec<u8>| p@)
}

/// The paths of the nodes whose probe found `kind`, in traversal order.
pub open spec fn paths_with(nodes: Seq<(Seq<u8>, Probe)>, kind: Probe) -> Seq<Seq<u8>>
    decreases nodes.len(),
{
    if nodes.len() == 0 {
        seq![]
    } else {
        let rest = paths_with(nodes.drop_last(), kind);
        if nodes.last().1 == kind {
            rest.push(nodes.last().0)
        } else {
            rest
        }
    }
}

/// The walker's state, as the contracts speak of it.
pub struct WalkerView {
    /// Every node that the traversal has handed over so far, in order.
    pub visited: Seq<(Seq<u8>, Probe)>,
    /// The files of all chunks returned so far, in order.
    pub handed_files: Seq<Seq<u8>>,
    /// The files of the chunk being assembled.
    pub chunk: Seq<Seq<u8>>,
    /// The bound of the chunk being assembled.
    pub chunk_size: nat,
    /// Whether a chunk is being assembled.
    pub collecting: bool,
    /// Whether the traversal has said that it has no more nodes.
    pub exhausted: bool,
    /// The deferred directories, in the order in which they will be handed out.
    pub pending_dirs: Seq<Seq<u8>>,
    /// The directories handed out so far, in order.
    pub handed_dirs: Seq<Seq<u8>>,
    /// The nodes that looked like files and could not be probed.
    pub restricted_files: Seq<Seq<u8>>,
    /// The nodes that looked like directories and could not be probed.
    pub restricted_dirs: Seq<Seq<u8>>,
}

/// How the walker's state follows from the nodes it was handed: every file
/// goes to a chunk, every directory to the deferred queue (most recently
/// discovered first), every refused node to one of the two restricted lists.
pub open spec fn walker_inv(v: WalkerView) -> bool {
    &&& v.handed_files + v.chunk == paths_with(v.visited, Probe::File)
    &&& v.handed_dirs + v.pending_dirs == paths_with(v.visited, Probe::Directory).reverse()
    &&& !v.exhausted ==> v.handed_dirs.len() == 0
    &&& v.restricted_files == paths_with(v.visited, Probe::DeniedFile)
    &&& v.restricted_dirs == paths_with(v.visited, Probe::DeniedDirectory)
    &&& v.collecting ==> v.chunk.len() < v.chunk_size
    &&& !v.collecting ==> v.chunk.len() == 0
    &&& v.exhausted ==> !v.collecting
}

/// Classifies the nodes of a depth-first traversal into chunks of files, a
/// queue of deferred directories and the lists of restricted entries.
///
/// The traversal itself is read by the caller, which hands the walker one
/// node at a time while a chunk is being assembled.
pub struct DirectoryWalker {
    chunk: Vec<Vec<u8>>,
    chunk_size: usize,
    collecting: bool,
    exhausted: bool,
    /// Deferred directories; the end of discovery is the back.
    directories: Vec<Vec<u8>>,
    restricted_files: Vec<Vec<u8>>,
    restricted_dirs: Vec<Vec<u8>>,
    visited: Ghost<Seq<(Seq<u8>, Probe)>>,
    handed_files: Ghost<Seq<Seq<u8>>>,
    handed_dirs: Ghost<Seq<Seq<u8>>>,
}

impl View for DirectoryWalker {
    type V = WalkerView;

    closed spec fn view(&self) -> WalkerView {
        WalkerView {
            visited: self.visited@,
            handed_files: self.handed_files@,
            chunk: paths(self.chunk@),
            chunk_size: self.chunk_size as nat,
            collecting: self.collecting,
            exhausted: self.exhausted,
            pending_dirs: paths(self.directories@).reverse(),
            handed_dirs: self.handed_dirs@,
            restricted_files: paths(self.restricted_files@),
            restricted_dirs: paths(self.restricted_dirs@),
        }
    }
}

/// Filing one more node extends exactly the list of its own kind.
pub proof fn lemma_paths_with_push(nodes: Seq<(Seq<u8>, Probe)>, node: (Seq<u8>, Probe), kind: Probe)
    ensures
        paths_with(nodes.push(node), kind) == if node.1 == kind {
            paths_with(nodes, kind).push(node.0)
        } else {
            paths_with(nodes, kind)
        },
{
    assert(nodes.push(node).drop_last() =~= nodes);
}

/// Pushing a path onto a list pushes its bytes onto the list's view.
pub proof fn lemma_paths_push(v: Seq<Vec<u8>>, p: Vec<u8>)
    ensures
        paths(v.push(p)) == paths(v).push(p@),
{
    assert(paths(v.push(p)) =~= paths(v).push(p@));
}

/// A copy of a list of paths.
fn copy_paths(v: &Vec<Vec<u8>>) -> (r: Vec<Vec<u8>>)
    ensures
        paths(r@) == paths(v@),
{
    let mut r: Vec<Vec<u8>> = Vec::new();
    let mut i: usize = 0;
    while i < v.len()
        invariant
            i <= v@.len(),
            paths(r@) == paths(v@).take(i as int),
        decreases v@.len() - i,
    {
        let p = v[i].clone();
        proof {
            lemma_paths_push(r@, p);
        }
        r.push(p);
        i = i + 1;
        assert(paths(r@) =~= paths(v@).take(i as int));
    }
    assert(paths(v@).take(i as int) =~= paths(v@));
    r
}

impl DirectoryWalker {
    /// The walker's state follows from the nodes it was handed.
    pub open spec fn wf(&self) -> bool {
        walker_inv(self@)
    }

    #[verifier::type_invariant]
    spec fn inv(&self) -> bool {
        self.wf()
    }

    /// A walker that has seen no node yet.
    pub fn new() -> (r: DirectoryWalker)
        ensures
            r.wf(),
            r@.visited == Seq::<(Seq<u8>, Probe)>::empty(),
            r@.handed_files == Seq::<Seq<u8>>::empty(),
            r@.handed_dirs == Seq::<Seq<u8>>::empty(),
            !r@.collecting,
            !r@.exhausted,
    {
        let chunk: Vec<Vec<u8>> = Vec::new();
        let directories: Vec<Vec<u8>> = Vec::new();
        let restricted_files: Vec<Vec<u8>> = Vec::new();
        let restricted_dirs: Vec<Vec<u8>> = Vec::new();
        let ghost none = Seq::<Seq<u8>>::empty();
        proof {
            assert(paths(chunk@) =~= none);
            assert(paths(directories@).reverse() =~= none);
            assert(paths(restricted_files@) =~= none);
            assert(paths(restricted_dirs@) =~= none);
            assert(none + none =~= none);
            assert(paths_with(Seq::<(Seq<u8>, Probe)>::empty(), Probe::Directory).reverse() =~= none);
        }
        let r = DirectoryWalker {
            chunk,
            chunk_size: 0,
            collecting: false,
            exhausted: false,
            directories,
            restricted_files,
            restricted_dirs,
            visited: Ghost(Seq::empty()),
            handed_files: Ghost(none),
            handed_dirs: Ghost(none),
        };
        r
    }

    /// Whether a chunk is being assembled, so that `feed` is the call to make.
    pub fn is_collecting(&self) -> (r: bool)
        ensures
            r == self@.collecting,
    {
        self.collecting
    }

    /// Whether the traversal has said that it has no more nodes.
    pub fn is_exhausted(&self) -> (r: bool)
        ensures
            r == self@.exhausted,
    {
        self.exhausted
    }

    /// Starts the next chunk of at most `chunk_size` files. When the
    /// traversal is over, or `chunk_size` is zero, the empty chunk comes back
    /// at once; otherwise the walker asks for nodes.
    pub fn next_chunk(&mut self, chunk_size: usize) -> (r: Step)
        requires
            !old(self)@.collecting,
        ensures
            final(self).wf(),
            old(self)@.exhausted || chunk_size == 0 ==> {
                &&& r matches Step::Chunk(c) && c@.len() == 0
                &&& final(self)@ == old(self)@
            },
            !(old(self)@.exhausted || chunk_size == 0) ==> {
                &&& r is NeedEntry
                &&& final(self)@ == (WalkerView {
                    collecting: true,
                    chunk_size: chunk_size as nat,
                    ..old(self)@
                })
            },
    {
        proof {
            use_type_invariant(&*self);
        }
        if self.exhausted || chunk_size == 0 {
            Step::Chunk(Vec::new())
        } else {
            self.chunk_size = chunk_size;
            self.collecting = true;
            Step::NeedEntry
        }
    }

    /// Hands the walker the traversal's next node, or `None` once the
    /// traversal has no more. A file joins the chunk; a directory is deferred
    /// at the discovery end of the queue; a refused node goes to the
    /// restricted list of its apparent kind; any other node is dropped. The
    /// chunk is returned once it holds `chunk_size` files or the traversal is
    /// over.
    pub fn feed(&mut self, next: Option<Entry>) -> (r: Step)
        requires
            old(self)@.collecting,
        ensures
            final(self).wf(),
            final(self)@.chunk_size == old(self)@.chunk_size,
            final(self)@.handed_dirs == old(self)@.handed_dirs,
            next is None ==> {
                &&& final(self)@.visited == old(self)@.visited
                &&& final(self)@.exhausted
                &&& r matches Step::Chunk(c) && paths(c@) == old(self)@.chunk
            },
            next matches Some(e) ==> {
                &&& final(self)@.visited == old(self)@.visited.push(e@)
                &&& !final(self)@.exhausted
                &&& final(self)@.pending_dirs == if e.probe == Probe::Directory {
                    seq![e.path@] + old(self)@.pending_dirs
                } else {
                    old(self)@.pending_dirs
                }
                &&& final(self)@.restricted_files == if e.probe == Probe::DeniedFile {
                    old(self)@.restricted_files.push(e.path@)
                } else {
                    old(self)@.restricted_files
                }
                &&& final(self)@.restricted_dirs == if e.probe == Probe::DeniedDirectory {
                    old(self)@.restricted_dirs.push(e.path@)
                } else {
                    old(self)@.restricted_dirs
                }
                &&& r is NeedEntry ==> final(self)@.chunk == if e.probe == Probe::File {
                    old(self)@.chunk.push(e.path@)
                } else {
                    old(self)@.chunk
                }
                &&& if e.probe == Probe::File && old(self)@.chunk.len() + 1 == old(self)@.chunk_size {
                    r matches Step::Chunk(c) && paths(c@) == old(self)@.chunk.push(e.path@)
                } else {
                    r is NeedEntry
                }
            },
            r matches Step::Chunk(c) ==> {
                &&& c@.len() <= old(self)@.chunk_size
                &&& (c@.len() < old(self)@.chunk_size ==> final(self)@.exhausted)
                &&& !final(self)@.collecting
                &&& final(self)@.handed_files == old(self)@.handed_files + paths(c@)
            },
            r is NeedEntry ==> {
                &&& final(self)@.collecting
                &&& final(self)@.handed_files == old(self)@.handed_files
            },
    {
        proof {
            use_type_invariant(&*self);
        }
        let mut w = DirectoryWalker::new();
        core::mem::swap(self, &mut w);
        proof {
            use_type_invariant(&w);
        }
        let DirectoryWalker {
            mut chunk,
            chunk_size,
            collecting: _,
            exhausted: _,
            mut directories,
            mut restricted_files,
            mut restricted_dirs,
            visited,
            handed_files,
            handed_dirs,
        } = w;
        match next {
            None => {
                let rest: Vec<Vec<u8>> = Vec::new();
                let ghost handed = handed_files@ + paths(chunk@);
                proof {
                    assert(paths(rest@) =~= Seq::<Seq<u8>>::empty());
                    assert(handed + paths(rest@) =~= handed);
                }
                *self = DirectoryWalker {
                    chunk: rest,
                    chunk_size,
                    collecting: false,
                    exhausted: true,
                    directories,
                    restricted_files,
                    restricted_dirs,
                    visited,
                    handed_files: Ghost(handed),
                    handed_dirs,
                };
                Step::Chunk(chunk)
            },
            Some(e) => {
                let ghost node = e@;
                proof {
                    lemma_paths_with_push(visited@, node, Probe::File);
                    lemma_paths_with_push(visited@, node, Probe::Directory);
                    lemma_paths_with_push(visited@, node, Probe::DeniedFile);
                    lemma_paths_with_push(visited@, node, Probe::DeniedDirectory);
                }
                let Entry { path, probe } = e;
                let mut step = Step::NeedEntry;
                let mut collecting = true;
                let ghost mut handed = handed_files@;
                match probe {
                    Probe::File => {
                        proof {
                            lemma_paths_push(chunk@, path);
                        }
                        chunk.push(path);
                        if chunk.len() == chunk_size {
                            let mut full: Vec<Vec<u8>> = Vec::new();
                            core::mem::swap(&mut full, &mut chunk);
                            collecting = false;
                            proof {
                                handed = handed + paths(full@);
                                assert(paths(chunk@) =~= Seq::<Seq<u8>>::empty());
                                assert(handed + paths(chunk@) =~= handed);
                                assert(handed =~= handed_files@ + paths(full@));
                            }
                            step = Step::Chunk(full);
                        }
                    },
                    Probe::Directory => {
                        proof {
                            let before = paths(directories@);
                            lemma_paths_push(directories@, path);
                            assert(before.push(node.0).reverse() =~= seq![node.0] + before.reverse());
                            let d = paths_with(visited@, Probe::Directory);
                            assert(d.push(node.0).reverse() =~= seq![node.0] + d.reverse());
                        }
                        directories.push(path);
                    },
                    Probe::DeniedFile => {
                        proof {
                            lemma_paths_push(restricted_files@, path);
                        }
                        restricted_files.push(path);
                    },
                    Probe::DeniedDirectory => {
                        proof {
                            lemma_paths_push(restricted_dirs@, path);
                        }
                        restricted_dirs.push(path);
                    },
                    _ => {},
                }
                *self = DirectoryWalker {
                    chunk,
                    chunk_size,
                    collecting,
                    exhausted: false,
                    directories,
                    restricted_files,
                    restricted_dirs,
                    visited: Ghost(visited@.push(node)),
                    handed_files: Ghost(handed),
                    handed_dirs,
                };
                step
            },
        }
    }

    /// Removes and returns up to `chunk_size` deferred directories from the
    /// discovery end of the queue, most recently discovered first. Only once
    /// the traversal is over are all directories known.
    pub fn next_dir_chunk(&mut self, chunk_size: usize) -> (r: Vec<Vec<u8>>)
        requires
            old(self)@.exhausted,
        ensures
            final(self).wf(),
            r@.len() == if chunk_size < old(self)@.pending_dirs.len() {
                chunk_size as int
            } else {
                old(self)@.pending_dirs.len() as int
            },
            paths(r@) == old(self)@.pending_dirs.take(r@.len() as int),
            final(self)@ == (WalkerView {
                pending_dirs: old(self)@.pending_dirs.skip(r@.len() as int),
                handed_dirs: old(self)@.handed_dirs + paths(r@),
                ..old(self)@
            }),
    {
        proof {
            use_type_invariant(&*self);
        }
        let ghost start = self@;
        let mut w = DirectoryWalker::new();
        core::mem::swap(self, &mut w);
        let DirectoryWalker {
            chunk,
            chunk_size: size,
            collecting,
            exhausted,
            mut directories,
            restricted_files,
            restricted_dirs,
            visited,
            handed_files,
            handed_dirs,
        } = w;
        let ghost mut handed = handed_dirs@;
        let mut out: Vec<Vec<u8>> = Vec::new();
        assert(start.pending_dirs.skip(0) =~= start.pending_dirs);
        assert(start.handed_dirs + paths(out@) =~= start.handed_dirs);
        while out.len() < chunk_size && directories.len() > 0
            invariant
                out@.len() <= chunk_size,
                out@.len() <= start.pending_dirs.len(),
                paths(out@) == start.pending_dirs.take(out@.len() as int),
                paths(directories@).reverse() == start.pending_dirs.skip(out@.len() as int),
                handed == start.handed_dirs + paths(out@),
            decreases directories@.len(),
        {
            let ghost before = paths(directories@);
            let ghost n = out@.len() as int;
            let d = match directories.pop() {
                Some(d) => d,
                None => Vec::new(),
            };
            proof {
                assert(paths(directories@) =~= before.drop_last());
                assert(paths(directories@).reverse() =~= before.reverse().drop_first());
                assert(before.reverse()[0] == d@);
                lemma_paths_push(out@, d);
                assert(start.pending_dirs.take(n + 1) =~= start.pending_dirs.take(n).push(d@));
                assert(start.pending_dirs.skip(n + 1) =~= start.pending_dirs.skip(n).drop_first());
                assert(start.handed_dirs + paths(out@).push(d@) =~= (start.handed_dirs + paths(
                    out@,
                )).push(d@));
                handed = handed.push(d@);
            }
            out.push(d);
        }
        proof {
            if directories@.len() == 0 {
                assert(paths(directories@).reverse().len() == 0);
            }
            let k = out@.len() as int;
            assert(start.pending_dirs.take(k) + start.pending_dirs.skip(k) =~= start.pending_dirs);
            assert(handed + start.pending_dirs.skip(k) =~= start.handed_dirs + start.pending_dirs);
        }
        *self = DirectoryWalker {
            chunk,
            chunk_size: size,
            collecting,
            exhausted,
            directories,
            restricted_files,
            restricted_dirs,
            visited,
            handed_files,
            handed_dirs: Ghost(handed),
        };
        out
    }

    /// The deferred directories, in the order in which they will be handed out.
    pub fn get_directories(&self) -> (r: Vec<Vec<u8>>)
        ensures
            paths(r@) == self@.pending_dirs,
    {
        let mut r: Vec<Vec<u8>> = Vec::new();
        let mut i: usize = self.directories.len();
        while i > 0
            invariant
                i <= self.directories@.len(),
                paths(r@) == paths(self.directories@).reverse().take(self.directories@.len() - i),
            decreases i,
        {
            i = i - 1;
            let p = self.directories[i].clone();
            proof {
                lemma_paths_push(r@, p);
            }
            r.push(p);
            assert(paths(r@) =~= paths(self.directories@).reverse().take(self.directories@.len() - i));
        }
        assert(paths(self.directories@).reverse().take(self.directories@.len() as int)
            =~= paths(self.directories@).reverse());
        r
    }

    /// The nodes that looked like files and could not be probed, in the
    /// order in which they were met.
    pub fn get_restricted_files(&self) -> (r: Vec<Vec<u8>>)
        ensures
            paths(r@) == self@.restricted_files,
    {
        copy_paths(&self.restricted_files)
    }

    /// The nodes that looked like directories and could not be probed, in
    /// the order in which they were met.
    pub fn get_restricted_dirs(&self) -> (r: Vec<Vec<u8>>)
        ensures
            paths(r@) == self@.restricted_dirs,
    {
        copy_paths(&self.restricted_dirs)
    }
}



/// No two nodes of the traversal share a path.
pub open spec fn distinct_paths(nodes: Seq<(Seq<u8>, Probe)>) -> bool {
    forall|i: int, j: int|
        0 <= i < nodes.len() && 0 <= j < nodes.len() && i != j ==> #[trigger] nodes[i].0
            != #[trigger] nodes[j].0
}

/// `d` lies strictly inside the directory `a`.
pub open spec fn within(d: Seq<u8>, a: Seq<u8>) -> bool {
    &&& a.len() < d.len()
    &&& d.subrange(0, a.len() as int) == a
    &&& d[a.len() as int] == 47u8
}

/// Each node comes in the traversal before anything inside it, as in a
/// depth-first walk that lists a directory before its contents.
pub open spec fn parents_first(nodes: Seq<(Seq<u8>, Probe)>) -> bool {
    forall|i: int, j: int|
        0 <= i < nodes.len() && 0 <= j < nodes.len() && within(#[trigger] nodes[j].0, #[trigger] nodes[i].0)
            ==> i < j
}

proof fn lemma_paths_with_member(nodes: Seq<(Seq<u8>, Probe)>, kind: Probe, i: int)
    requires
        0 <= i < nodes.len(),
        nodes[i].1 == kind,
    ensures
        paths_with(nodes, kind).contains(nodes[i].0),
    decreases nodes.len(),
{
    let rest = paths_with(nodes.drop_last(), kind);
    if i == nodes.len() - 1 {
        assert(paths_with(nodes, kind)[rest.len() as int] == nodes[i].0);
    } else {
        lemma_paths_with_member(nodes.drop_last(), kind, i);
        let b = choose|b: int| 0 <= b < rest.len() && rest[b] == nodes[i].0;
        assert(paths_with(nodes, kind)[b] == nodes[i].0);
    }
}

proof fn lemma_paths_with_origin(nodes: Seq<(Seq<u8>, Probe)>, kind: Probe, b: int)
    requires
        0 <= b < paths_with(nodes, kind).len(),
    ensures
        exists|j: int|
            0 <= j < nodes.len() && nodes[j].0 == paths_with(nodes, kind)[b] && nodes[j].1 == kind,
    decreases nodes.len(),
{
    let rest = paths_with(nodes.drop_last(), kind);
    if nodes.last().1 == kind && b == rest.len() {
        assert(nodes[nodes.len() - 1].0 == paths_with(nodes, kind)[b]);
    } else {
        lemma_paths_with_origin(nodes.drop_last(), kind, b);
        let j = choose|j: int|
            0 <= j < nodes.drop_last().len() && nodes.drop_last()[j].0 == rest[b]
                && nodes.drop_last()[j].1 == kind;
        assert(nodes[j] == nodes.drop_last()[j]);
    }
}

/// A node is listed under no kind but its own.
proof fn lemma_not_listed(nodes: Seq<(Seq<u8>, Probe)>, kind: Probe, i: int)
    requires
        distinct_paths(nodes),
        0 <= i < nodes.len(),
        nodes[i].1 != kind,
    ensures
        !paths_with(nodes, kind).contains(nodes[i].0),
{
    if paths_with(nodes, kind).contains(nodes[i].0) {
        let b = choose|b: int|
            0 <= b < paths_with(nodes, kind).len() && paths_with(nodes, kind)[b] == nodes[i].0;
        lemma_paths_with_origin(nodes, kind, b);
        let j = choose|j: int|
            0 <= j < nodes.len() && nodes[j].0 == paths_with(nodes, kind)[b] && nodes[j].1 == kind;
        assert(nodes[i].0 == nodes[j].0);
    }
}

proof fn lemma_paths_with_distinct(nodes: Seq<(Seq<u8>, Probe)>, kind: Probe)
    requires
        distinct_paths(nodes),
    ensures
        paths_with(nodes, kind).no_duplicates(),
    decreases nodes.len(),
{
    if nodes.len() > 0 {
        let front = nodes.drop_last();
        assert forall|i: int, j: int|
            0 <= i < front.len() && 0 <= j < front.len() && i != j implies #[trigger] front[i].0
            != #[trigger] front[j].0 by {
            assert(front[i] == nodes[i] && front[j] == nodes[j]);
        }
        lemma_paths_with_distinct(front, kind);
        let rest = paths_with(front, kind);
        if nodes.last().1 == kind {
            let all = paths_with(nodes, kind);
            assert forall|a: int, b: int|
                0 <= a < all.len() && 0 <= b < all.len() && a != b implies all[a] != all[b] by {
                if a == rest.len() || b == rest.len() {
                    let c = if a == rest.len() {
                        b
                    } else {
                        a
                    };
                    lemma_paths_with_origin(front, kind, c);
                    let j = choose|j: int|
                        0 <= j < front.len() && front[j].0 == rest[c] && front[j].1 == kind;
                    assert(nodes[j] == front[j]);
                    assert(nodes[j].0 != nodes[nodes.len() - 1].0);
                } else {
                    assert(all[a] == rest[a] && all[b] == rest[b]);
                }
            }
        }
    }
}

proof fn lemma_reverse_contains(s: Seq<Seq<u8>>, p: Seq<u8>)
    requires
        s.reverse().contains(p),
    ensures
        s.contains(p),
{
    let i = choose|i: int| 0 <= i < s.reverse().len() && s.reverse()[i] == p;
    assert(s[s.len() - 1 - i] == p);
}

proof fn lemma_directories_parents_first(nodes: Seq<(Seq<u8>, Probe)>)
    requires
        parents_first(nodes),
    ensures
        forall|a: int, b: int|
            0 <= a < paths_with(nodes, Probe::Directory).len() && 0 <= b < paths_with(
                nodes,
                Probe::Directory,
            ).len() && within(
                #[trigger] paths_with(nodes, Probe::Directory)[b],
                #[trigger] paths_with(nodes, Probe::Directory)[a],
            ) ==> a < b,
    decreases nodes.len(),
{
    if nodes.len() > 0 {
        let front = nodes.drop_last();
        assert forall|i: int, j: int|
            0 <= i < front.len() && 0 <= j < front.len() && within(
                #[trigger] front[j].0,
                #[trigger] front[i].0,
            ) implies i < j by {
            assert(front[i] == nodes[i] && front[j] == nodes[j]);
        }
        lemma_directories_parents_first(front);
        let rest = paths_with(front, Probe::Directory);
        let all = paths_with(nodes, Probe::Directory);
        if nodes.last().1 == Probe::Directory {
            let n = nodes.len() - 1;
            assert forall|a: int, b: int|
                0 <= a < all.len() && 0 <= b < all.len() && within(
                    #[trigger] all[b],
                    #[trigger] all[a],
                ) implies a < b by {
                if b == rest.len() {
                    if a == rest.len() {
                        assert(!within(all[b], all[a]));
                    }
                } else if a == rest.len() {
                    lemma_paths_with_origin(front, Probe::Directory, b);
                    let j = choose|j: int|
                        0 <= j < front.len() && front[j].0 == rest[b] && front[j].1
                            == Probe::Directory;
                    assert(nodes[j] == front[j]);
                    assert(within(nodes[j].0, nodes[n].0));
                } else {
                    assert(all[a] == rest[a] && all[b] == rest[b]);
                }
            }
        }
    }
}

/// Once the traversal is over, the chunks handed out hold every file of the
/// traversal, in traversal order, none more than once where the traversal
/// never repeats a path; each chunk holds at most its bound (see `feed`).
pub proof fn lemma_every_file_once(v: WalkerView)
    requires
        walker_inv(v),
        v.exhausted,
    ensures
        v.handed_files == paths_with(v.visited, Probe::File),
        distinct_paths(v.visited) ==> v.handed_files.no_duplicates(),
{
    assert(v.handed_files + v.chunk =~= v.handed_files);
    if distinct_paths(v.visited) {
        lemma_paths_with_distinct(v.visited, Probe::File);
    }
}

/// A node whose probe was refused is recorded in the restricted list of its
/// apparent kind and in no other, and is never handed out for removal.
pub proof fn lemma_refused_recorded_once(v: WalkerView, i: int)
    requires
        walker_inv(v),
        distinct_paths(v.visited),
        0 <= i < v.visited.len(),
        v.visited[i].1 == Probe::DeniedFile || v.visited[i].1 == Probe::DeniedDirectory,
    ensures
        v.visited[i].1 == Probe::DeniedFile ==> v.restricted_files.contains(v.visited[i].0)
            && !v.restricted_dirs.contains(v.visited[i].0),
        v.visited[i].1 == Probe::DeniedDirectory ==> v.restricted_dirs.contains(v.visited[i].0)
            && !v.restricted_files.contains(v.visited[i].0),
        !v.handed_files.contains(v.visited[i].0),
        !v.chunk.contains(v.visited[i].0),
        !v.handed_dirs.contains(v.visited[i].0),
        !v.pending_dirs.contains(v.visited[i].0),
{
    let p = v.visited[i].0;
    lemma_paths_with_member(v.visited, v.visited[i].1, i);
    if v.visited[i].1 == Probe::DeniedFile {
        lemma_not_listed(v.visited, Probe::DeniedDirectory, i);
    } else {
        lemma_not_listed(v.visited, Probe::DeniedFile, i);
    }
    lemma_not_listed(v.visited, Probe::File, i);
    lemma_not_listed(v.visited, Probe::Directory, i);
    let files = v.handed_files + v.chunk;
    if v.handed_files.contains(p) {
        let k = choose|k: int| 0 <= k < v.handed_files.len() && v.handed_files[k] == p;
        assert(files[k] == p);
    }
    if v.chunk.contains(p) {
        let k = choose|k: int| 0 <= k < v.chunk.len() && v.chunk[k] == p;
        assert(files[v.handed_files.len() + k] == p);
    }
    let dirs = v.handed_dirs + v.pending_dirs;
    if v.handed_dirs.contains(p) {
        let k = choose|k: int| 0 <= k < v.handed_dirs.len() && v.handed_dirs[k] == p;
        assert(dirs[k] == p);
        lemma_reverse_contains(paths_with(v.visited, Probe::Directory), p);
    }
    if v.pending_dirs.contains(p) {
        let k = choose|k: int| 0 <= k < v.pending_dirs.len() && v.pending_dirs[k] == p;
        assert(dirs[v.handed_dirs.len() + k] == p);
        lemma_reverse_contains(paths_with(v.visited, Probe::Directory), p);
    }
}

/// Directories come out deepest first: when the traversal lists each
/// directory before its contents, then of two directories of the order in
/// which they are handed out (those already handed out, then those pending),
/// one inside the other, the inner one comes first.
pub proof fn lemma_children_before_parents(v: WalkerView)
    requires
        walker_inv(v),
        parents_first(v.visited),
    ensures
        forall|i: int, j: int|
            0 <= i < (v.handed_dirs + v.pending_dirs).len() && 0 <= j < (v.handed_dirs
                + v.pending_dirs).len() && within(
                #[trigger] (v.handed_dirs + v.pending_dirs)[j],
                #[trigger] (v.handed_dirs + v.pending_dirs)[i],
            ) ==> j < i,
{
    let d = paths_with(v.visited, Probe::Directory);
    let order = v.handed_dirs + v.pending_dirs;
    lemma_directories_parents_first(v.visited);
    assert forall|i: int, j: int|
        0 <= i < order.len() && 0 <= j < order.len() && within(
            #[trigger] order[j],
            #[trigger] order[i],
        ) implies j < i by {
        assert(order[j] == d[d.len() - 1 - j]);
        assert(order[i] == d[d.len() - 1 - i]);
    }
}

/// A traversal with no restricted, special or failed node is removed whole:
/// once it is over and the directory queue is drained, every file of it,
/// and every directory, the root among them, has been handed out for
/// removal, the files in chunks first.
pub proof fn lemma_everything_handed_out(v: WalkerView)
    requires
        walker_inv(v),
        v.exhausted,
        v.pending_dirs.len() == 0,
        forall|i: int|
            0 <= i < v.visited.len() ==> #[trigger] v.visited[i].1 == Probe::File || v.visited[i].1
                == Probe::Directory,
    ensures
        forall|i: int|
            0 <= i < v.visited.len() ==> (v.visited[i].1 == Probe::File
                && v.handed_files.contains(#[trigger] v.visited[i].0)) || (v.visited[i].1
                == Probe::Directory && v.handed_dirs.contains(v.visited[i].0)),
{
    let d = paths_with(v.visited, Probe::Directory);
    assert(v.handed_files + v.chunk =~= v.handed_files);
    assert(v.handed_dirs + v.pending_dirs =~= v.handed_dirs);
    assert forall|i: int| 0 <= i < v.visited.len() implies (v.visited[i].1 == Probe::File
        && v.handed_files.contains(#[trigger] v.visited[i].0)) || (v.visited[i].1
        == Probe::Directory && v.handed_dirs.contains(v.visited[i].0)) by {
        lemma_paths_with_member(v.visited, v.visited[i].1, i);
        if v.visited[i].1 == Probe::Directory {
            let k = choose|k: int| 0 <= k < d.len() && d[k] == v.visited[i].0;
            assert(d.reverse()[d.len() - 1 - k] == v.visited[i].0);
        }
    }
}

} // verus!
