//! Builds the tree depth-first with an explicit work stack. The builder asks
//! for the listing of one directory at a time; the caller reads it and hands
//! it back, and the builder filters, orders and places its entries.
use vstd::prelude::*;
use crate::config::PrintOptions;
use crate::entry::{create_ordered_row_level_entries, ordered_entries, EntryMeta, FileTime};
use crate::tree::{build_tree_node_from_entry_meta, node_wf, nodes_wf, TreeNode};

verus! {

/// The listings handed to a builder, in order: each directory path with the
/// raw listing given for it.
pub type SupplyLog = Seq<(Seq<char>, Seq<EntryMeta>)>;

/// Whether the node carries exactly the fields of the entry.
pub open spec fn node_matches(n: TreeNode, e: EntryMeta) -> bool {
    &&& n.name == e.name
    &&& n.path == e.path
    &&& n.size == e.size
    &&& n.mtime == e.mtime
    &&& n.is_dir == e.is_dir
}

/// Whether the nodes carry the entries' fields, one for one and in order.
pub open spec fn nodes_match(ns: Seq<TreeNode>, es: Seq<EntryMeta>) -> bool {
    &&& ns.len() == es.len()
    &&& forall|k: int| 0 <= k < ns.len() ==> node_matches(#[trigger] ns[k], es[k])
}

/// Whether `listing` was handed over for the directory at `path`.
pub open spec fn supplied(log: SupplyLog, path: Seq<char>, listing: Seq<EntryMeta>) -> bool {
    exists|i: int| 0 <= i < log.len() && #[trigger] log[i] == (path, listing)
}

/// The last listing handed over for each path.
pub open spec fn log_map(log: SupplyLog) -> Map<Seq<char>, Seq<EntryMeta>>
    decreases log.len(),
{
    if log.len() == 0 {
        Map::empty()
    } else {
        log_map(log.drop_last()).insert(log.last().0, log.last().1)
    }
}

/// Every directory of the tree holds exactly the entries, filtered and
/// sorted, of a listing handed over for that directory's own path.
pub open spec fn faithful(n: TreeNode, log: SupplyLog, opts: PrintOptions) -> bool
    decreases n,
{
    match n.children {
        Some(cs) => {
            &&& exists|l: Seq<EntryMeta>|
                #[trigger] supplied(log, n.path@, l) && nodes_match(cs@, ordered_entries(l, opts))
            &&& all_faithful(cs@, log, opts)
        },
        None => true,
    }
}

pub open spec fn all_faithful(cs: Seq<TreeNode>, log: SupplyLog, opts: PrintOptions) -> bool
    decreases cs,
{
    cs.len() > 0 ==> faithful(cs[0], log, opts) && all_faithful(cs.drop_first(), log, opts)
}

/// Whether `path` is the path of a directory among the filtered, sorted
/// entries of a listing handed over so far.
pub open spec fn listed_subdirectory(log: SupplyLog, opts: PrintOptions, path: Seq<char>) -> bool {
    exists|i: int, k: int|
        0 <= i < log.len() && 0 <= k < ordered_entries(log[i].1, opts).len() && {
            let e = #[trigger] ordered_entries(log[i].1, opts)[k];
            e.is_dir && e.path@ == path
        }
}

/// Where each path was handed over once, the map of listings gives, for
/// every path, the one listing handed over for it.
pub proof fn lemma_supplied_in_map(log: SupplyLog, path: Seq<char>, listing: Seq<EntryMeta>)
    requires
        supplied(log, path, listing),
        forall|i: int, j: int| 0 <= i < j < log.len() ==> (#[trigger] log[i]).0 != (#[trigger] log[j]).0,
    ensures
        log_map(log).contains_key(path),
        log_map(log)[path] == listing,
    decreases log.len(),
{
    let i = choose|i: int| 0 <= i < log.len() && #[trigger] log[i] == (path, listing);
    let last = log.len() - 1;
    if i < last {
        let d = log.drop_last();
        assert(d[i] == log[i]);
        assert(supplied(d, path, listing));
        assert forall|a: int, b: int| 0 <= a < b < d.len() implies (#[trigger] d[a]).0 != (#[trigger] d[b]).0 by {
            assert(d[a] == log[a] && d[b] == log[b]);
        }
        lemma_supplied_in_map(d, path, listing);
        assert(log[i].0 != log[last].0);
    }
}

/// A directory whose children are being built.
struct BuildFrame {
    /// The directory itself.
    dir: EntryMeta,
    /// Entries still to place, the next one last.
    pending: Vec<EntryMeta>,
    /// Children built so far, in order.
    built: Vec<TreeNode>,
    /// The listing handed over for this directory.
    listing: Ghost<Seq<EntryMeta>>,
    /// Whether the listing has been handed over.
    listed: Ghost<bool>,
}

/// What the builder needs next.
pub enum BuildStep {
    /// The raw listing of the directory at this path.
    List(String),
    /// Nothing: the tree is complete.
    Done,
}

/// The state of a depth-first build: the stack of open directories, the top
/// one waiting for its listing, or the finished tree.
pub struct TreeBuilder {
    frames: Vec<BuildFrame>,
    result: Option<TreeNode>,
    opts: Ghost<PrintOptions>,
    root: Ghost<EntryMeta>,
    log: Ghost<SupplyLog>,
}

spec fn pending_total(fs: Seq<BuildFrame>) -> nat
    decreases fs.len(),
{
    if fs.len() == 0 { 0 } else { pending_total(fs.drop_last()) + fs.last().pending@.len() }
}

spec fn same_entry(a: EntryMeta, b: EntryMeta) -> bool {
    a.name == b.name && a.path == b.path && a.size == b.size && a.mtime == b.mtime && a.is_dir
        == b.is_dir
}

spec fn frame_ok(f: BuildFrame, opts: PrintOptions, log: SupplyLog) -> bool {
    let ord = ordered_entries(f.listing@, opts);
    &&& f.dir.is_dir
    &&& nodes_wf(f.built@)
    &&& all_faithful(f.built@, log, opts)
    &&& !f.listed@ ==> f.pending@.len() == 0 && f.built@.len() == 0
    &&& f.listed@ ==> {
        &&& supplied(log, f.dir.path@, f.listing@)
        &&& f.built@.len() + f.pending@.len() == ord.len()
        &&& forall|k: int| 0 <= k < f.pending@.len() ==> #[trigger] f.pending@[k] == ord[ord.len() - 1 - k]
        &&& forall|k: int| 0 <= k < f.built@.len() ==> node_matches(#[trigger] f.built@[k], ord[k])
    }
}

proof fn lemma_supplied_grow(log: SupplyLog, x: (Seq<char>, Seq<EntryMeta>), path: Seq<char>, l: Seq<EntryMeta>)
    requires
        supplied(log, path, l),
    ensures
        supplied(log.push(x), path, l),
{
    let i = choose|i: int| 0 <= i < log.len() && #[trigger] log[i] == (path, l);
    assert(log.push(x)[i] == log[i]);
}

proof fn lemma_faithful_grow(n: TreeNode, log: SupplyLog, x: (Seq<char>, Seq<EntryMeta>), opts: PrintOptions)
    requires
        faithful(n, log, opts),
    ensures
        faithful(n, log.push(x), opts),
    decreases n,
{
    match n.children {
        Some(cs) => {
            let l = choose|l: Seq<EntryMeta>|
                #[trigger] supplied(log, n.path@, l) && nodes_match(cs@, ordered_entries(l, opts));
            lemma_supplied_grow(log, x, n.path@, l);
            assert(decreases_to!(n => cs@));
            lemma_all_faithful_grow(cs@, log, x, opts);
        },
        None => {},
    }
}

proof fn lemma_all_faithful_grow(cs: Seq<TreeNode>, log: SupplyLog, x: (Seq<char>, Seq<EntryMeta>), opts: PrintOptions)
    requires
        all_faithful(cs, log, opts),
    ensures
        all_faithful(cs, log.push(x), opts),
    decreases cs,
{
    if cs.len() > 0 {
        lemma_faithful_grow(cs[0], log, x, opts);
        lemma_all_faithful_grow(cs.drop_first(), log, x, opts);
    }
}

proof fn lemma_push_node(s: Seq<TreeNode>, n: TreeNode, log: SupplyLog, opts: PrintOptions)
    requires
        nodes_wf(s),
        node_wf(n),
        all_faithful(s, log, opts),
        faithful(n, log, opts),
    ensures
        nodes_wf(s.push(n)),
        all_faithful(s.push(n), log, opts),
    decreases s.len(),
{
    if s.len() > 0 {
        lemma_push_node(s.drop_first(), n, log, opts);
        assert(s.push(n).drop_first() =~= s.drop_first().push(n));
        assert(s.push(n)[0] == s[0]);
    } else {
        assert(s.push(n).drop_first() =~= Seq::<TreeNode>::empty());
        assert(s.push(n)[0] == n);
    }
    assert(nodes_wf(s.push(n).drop_first()));
    assert(all_faithful(s.push(n).drop_first(), log, opts));
}

impl TreeBuilder {
    pub closed spec fn wf(&self) -> bool {
        &&& self.stack_ok()
        &&& self.result is None ==> !self.frames@.last().listed@
        &&& self.result is None && self.frames@.len() > 1 ==> listed_subdirectory(
            self.log@,
            self.opts@,
            self.wanted(),
        )
    }

    spec fn stack_ok(&self) -> bool {
        let fs = self.frames@;
        &&& self.result matches Some(t) ==> {
            &&& fs.len() == 0
            &&& node_wf(t)
            &&& faithful(t, self.log@, self.opts@)
            &&& node_matches(t, self.root@)
            &&& t.children is Some
        }
        &&& self.result is None ==> fs.len() > 0
        &&& fs.len() > 0 ==> fs[0].dir == self.root@
        &&& self.root@.is_dir
        &&& forall|i: int| 0 <= i < fs.len() ==> #[trigger] frame_ok(fs[i], self.opts@, self.log@)
        &&& forall|i: int|
            0 <= i < fs.len() - 1 ==> {
                &&& (#[trigger] fs[i]).listed@
                &&& fs[i].pending@.len() > 0
                &&& same_entry(fs[i + 1].dir, fs[i].pending@.last())
            }
    }

    /// Whether the tree is complete.
    pub closed spec fn is_done(&self) -> bool {
        self.result is Some
    }

    /// The path whose listing is wanted next.
    pub closed spec fn wanted(&self) -> Seq<char> {
        self.frames@.last().dir.path@
    }

    /// The options the build filters and orders by.
    pub closed spec fn options(&self) -> PrintOptions {
        self.opts@
    }

    /// The root directory the build started from.
    pub closed spec fn root(&self) -> EntryMeta {
        self.root@
    }

    /// Every listing handed over so far, in order, with the path it was
    /// wanted for.
    pub closed spec fn supplies(&self) -> SupplyLog {
        self.log@
    }

    /// The listing handed over for each path (the last one, for a path
    /// handed over more than once).
    pub open spec fn listings(&self) -> Map<Seq<char>, Seq<EntryMeta>> {
        log_map(self.supplies())
    }

    /// Starts a build at the root directory, whose listing is wanted first.
    pub fn new(name: String, path: String, size: u64, mtime: FileTime, opts: &PrintOptions) -> (r: TreeBuilder)
        ensures
            r.wf(),
            !r.is_done(),
            r.wanted() == path@,
            r.options() == *opts,
            r.root().name == name,
            r.root().path == path,
            r.root().size == size,
            r.root().mtime == mtime,
            r.root().is_dir,
            r.supplies() == Seq::<(Seq<char>, Seq<EntryMeta>)>::empty(),
    {
        let dir = EntryMeta { name, path, size, mtime, is_dir: true };
        let ghost root = dir;
        let mut frames: Vec<BuildFrame> = Vec::new();
        frames.push(
            BuildFrame {
                dir,
                pending: Vec::new(),
                built: Vec::new(),
                listing: Ghost(Seq::empty()),
                listed: Ghost(false),
            },
        );
        proof {
            assert(nodes_wf(Seq::<TreeNode>::empty()));
            assert(all_faithful(Seq::<TreeNode>::empty(), Seq::empty(), *opts));
        }
        TreeBuilder { frames, result: None, opts: Ghost(*opts), root: Ghost(root), log: Ghost(Seq::empty()) }
    }

    /// What the builder needs next.
    pub fn next_step(&self) -> (r: BuildStep)
        requires
            self.wf(),
        ensures
            self.is_done() <==> r is Done,
            r matches BuildStep::List(p) ==> p@ == self.wanted(),
    {
        if self.result.is_some() {
            BuildStep::Done
        } else {
            let top = self.frames.len() - 1;
            BuildStep::List(self.frames[top].dir.path.clone())
        }
    }

    /// Hands over the raw listing of the wanted directory. Its entries that
    /// pass the filter are placed in order: files at once, and each directory
    /// after the listing of its own contents, which is then wanted.
    pub fn supply(&mut self, listing: Vec<EntryMeta>, opts: &PrintOptions)
        requires
            old(self).wf(),
            !old(self).is_done(),
            *opts == old(self).options(),
        ensures
            final(self).wf(),
            final(self).options() == old(self).options(),
            final(self).root() == old(self).root(),
            final(self).supplies() == old(self).supplies().push((old(self).wanted(), listing@)),
            final(self).listings() == old(self).listings().insert(old(self).wanted(), listing@),
            final(self).is_done() || listed_subdirectory(
                final(self).supplies(),
                final(self).options(),
                final(self).wanted(),
            ),
    {
        let ghost raw = listing@;
        let ghost log0 = self.log@;
        let ghost x = (self.frames@.last().dir.path@, raw);
        let mut ordered = create_ordered_row_level_entries(listing, opts);
        let ghost ord = ordered@;
        let mut pending: Vec<EntryMeta> = Vec::new();
        while ordered.len() > 0
            invariant
                ordered@.len() + pending@.len() == ord.len(),
                ordered@ == ord.subrange(0, ordered@.len() as int),
                forall|k: int| 0 <= k < pending@.len() ==> #[trigger] pending@[k] == ord[ord.len() - 1 - k],
            decreases ordered.len(),
        {
            let ghost n0 = ordered@.len();
            let e = ordered.pop().unwrap();
            assert(e == ord[n0 - 1]);
            pending.push(e);
            assert(ordered@ =~= ord.subrange(0, ordered@.len() as int));
        }
        let ghost fs0 = self.frames@;
        proof {
            assert(frame_ok(fs0[fs0.len() - 1], self.opts@, log0));
        }
        let mut frame = self.frames.pop().unwrap();
        frame.pending = pending;
        frame.listing = Ghost(raw);
        frame.listed = Ghost(true);
        self.frames.push(frame);
        self.log = Ghost(log0.push(x));
        proof {
            let log1 = log0.push(x);
            assert(log1[log0.len() as int] == x);
            assert(supplied(log1, x.0, raw));
            assert(log1.drop_last() =~= log0);
            assert(self.frames@.drop_last() =~= fs0.drop_last());
            assert forall|i: int| 0 <= i < self.frames@.len() implies #[trigger] frame_ok(
                self.frames@[i],
                self.opts@,
                log1,
            ) by {
                let f = fs0[i];
                assert(frame_ok(f, self.opts@, log0));
                lemma_all_faithful_grow(f.built@, log0, x, self.opts@);
                if i < fs0.len() - 1 {
                    assert(self.frames@[i] == f);
                    lemma_supplied_grow(log0, x, f.dir.path@, f.listing@);
                }
            }
            assert forall|i: int| 0 <= i < self.frames@.len() - 1 implies {
                &&& (#[trigger] self.frames@[i]).listed@
                &&& self.frames@[i].pending@.len() > 0
                &&& same_entry(self.frames@[i + 1].dir, self.frames@[i].pending@.last())
            } by {
                assert(self.frames@[i] == fs0[i]);
                assert(self.frames@[i + 1].dir == fs0[i + 1].dir);
            }
            if fs0.len() > 1 {
                assert(self.frames@[0] == fs0[0]);
            }
        }
        self.advance();
    }

    /// Places pending entries until a directory listing is wanted or the
    /// tree is complete.
    fn advance(&mut self)
        requires
            old(self).stack_ok(),
            !old(self).is_done(),
            old(self).frames@.last().listed@,
        ensures
            final(self).wf(),
            final(self).opts == old(self).opts,
            final(self).root == old(self).root,
            final(self).log == old(self).log,
            final(self).result is None ==> final(self).frames@.len() > 1,
    {
        loop
            invariant
                self.stack_ok(),
                !self.is_done(),
                self.frames@.last().listed@,
                self.opts == old(self).opts,
                self.root == old(self).root,
                self.log == old(self).log,
            decreases pending_total(self.frames@),
        {
            let ghost fs0 = self.frames@;
            let ghost opts = self.opts@;
            let ghost log = self.log@;
            let mut frame = self.frames.pop().unwrap();
            proof {
                assert(self.frames@ =~= fs0.drop_last());
                assert(frame_ok(fs0[fs0.len() - 1], opts, log));
            }
            let ghost ord = ordered_entries(frame.listing@, opts);
            let np = frame.pending.len();
            if np > 0 && frame.pending[np - 1].is_dir {
                let e = &frame.pending[np - 1];
                let child = EntryMeta {
                    name: e.name.clone(),
                    path: e.path.clone(),
                    size: e.size,
                    mtime: e.mtime,
                    is_dir: e.is_dir,
                };
                proof {
                    let li = choose|i: int| 0 <= i < log.len() && #[trigger] log[i] == (
                        frame.dir.path@,
                        frame.listing@,
                    );
                    let k = ord.len() - np;
                    assert(frame.pending@[np - 1] == ord[k]);
                    assert(ordered_entries(log[li].1, opts)[k] == ord[k]);
                    assert(listed_subdirectory(log, opts, child.path@));
                }
                self.frames.push(frame);
                self.frames.push(
                    BuildFrame {
                        dir: child,
                        pending: Vec::new(),
                        built: Vec::new(),
                        listing: Ghost(Seq::empty()),
                        listed: Ghost(false),
                    },
                );
                proof {
                    assert(self.frames@.drop_last().drop_last() =~= fs0.drop_last());
                    assert(nodes_wf(Seq::<TreeNode>::empty()));
                    assert(all_faithful(Seq::<TreeNode>::empty(), log, opts));
                    assert forall|i: int| 0 <= i < self.frames@.len() implies #[trigger] frame_ok(
                        self.frames@[i],
                        opts,
                        log,
                    ) by {
                        if i < fs0.len() {
                            assert(self.frames@[i] == fs0[i]);
                        }
                    }
                    assert forall|i: int| 0 <= i < self.frames@.len() - 1 implies {
                        &&& (#[trigger] self.frames@[i]).listed@
                        &&& self.frames@[i].pending@.len() > 0
                        &&& same_entry(self.frames@[i + 1].dir, self.frames@[i].pending@.last())
                    } by {
                        assert(self.frames@[i] == fs0[i]);
                        if i < fs0.len() - 1 {
                            assert(self.frames@[i + 1] == fs0[i + 1]);
                        }
                    }
                    assert(self.frames@[0] == fs0[0]);
                }
                return;
            }
            if np > 0 {
                let e = frame.pending.pop().unwrap();
                let ghost b0 = frame.built@;
                proof {
                    assert(e == ord[ord.len() - 1 - (np - 1)]);
                }
                let node = build_tree_node_from_entry_meta(e, None);
                frame.built.push(node);
                proof {
                    lemma_push_node(b0, node, log, opts);
                    assert(forall|k: int| 0 <= k < frame.pending@.len() ==> frame.pending@[k] == fs0.last().pending@[k]);
                    assert(forall|k: int| 0 <= k < b0.len() ==> frame.built@[k] == b0[k]);
                }
                self.frames.push(frame);
                proof {
                    assert(self.frames@.drop_last() =~= fs0.drop_last());
                    assert forall|i: int| 0 <= i < self.frames@.len() implies #[trigger] frame_ok(
                        self.frames@[i],
                        opts,
                        log,
                    ) by {
                        if i < fs0.len() - 1 {
                            assert(self.frames@[i] == fs0[i]);
                        }
                    }
                    assert forall|i: int| 0 <= i < self.frames@.len() - 1 implies {
                        &&& (#[trigger] self.frames@[i]).listed@
                        &&& self.frames@[i].pending@.len() > 0
                        &&& same_entry(self.frames@[i + 1].dir, self.frames@[i].pending@.last())
                    } by {
                        assert(self.frames@[i] == fs0[i]);
                        if i < fs0.len() - 2 {
                            assert(self.frames@[i + 1] == fs0[i + 1]);
                        }
                    }
                    if fs0.len() > 1 {
                        assert(self.frames@[0] == fs0[0]);
                    }
                }
            } else {
                let ghost listing = frame.listing@;
                let ghost built = frame.built@;
                let ghost fdir = frame.dir;
                let node = build_tree_node_from_entry_meta(frame.dir, Some(frame.built));
                proof {
                    assert(nodes_match(built, ordered_entries(listing, opts)));
                    assert(supplied(log, node.path@, listing));
                    assert(node_wf(node));
                    assert(faithful(node, log, opts));
                }
                if self.frames.len() == 0 {
                    proof {
                        assert(fdir == fs0[0].dir);
                    }
                    self.result = Some(node);
                    return;
                }
                let ghost fs1 = fs0.drop_last();
                proof {
                    assert(frame_ok(fs1[fs1.len() - 1], opts, log));
                    assert(same_entry(fs0[fs0.len() - 1].dir, fs1[fs1.len() - 1].pending@.last()));
                }
                let mut parent = self.frames.pop().unwrap();
                let ghost pord = ordered_entries(parent.listing@, opts);
                let ghost pn = parent.pending@.len();
                let ghost b0 = parent.built@;
                let _done_entry = parent.pending.pop();
                parent.built.push(node);
                proof {
                    lemma_push_node(b0, node, log, opts);
                    assert(fs1.last().pending@[pn - 1] == pord[pord.len() - 1 - (pn - 1)]);
                    assert(node_matches(node, pord[b0.len() as int]));
                    assert(forall|k: int| 0 <= k < parent.pending@.len() ==> parent.pending@[k] == fs1.last().pending@[k]);
                    assert(forall|k: int| 0 <= k < b0.len() ==> parent.built@[k] == b0[k]);
                }
                self.frames.push(parent);
                proof {
                    assert(self.frames@.drop_last() =~= fs1.drop_last());
                    assert(fs0.drop_last() == fs1);
                    assert forall|i: int| 0 <= i < self.frames@.len() implies #[trigger] frame_ok(
                        self.frames@[i],
                        opts,
                        log,
                    ) by {
                        if i < fs1.len() - 1 {
                            assert(self.frames@[i] == fs1[i]);
                        }
                    }
                    assert forall|i: int| 0 <= i < self.frames@.len() - 1 implies {
                        &&& (#[trigger] self.frames@[i]).listed@
                        &&& self.frames@[i].pending@.len() > 0
                        &&& same_entry(self.frames@[i + 1].dir, self.frames@[i].pending@.last())
                    } by {
                        assert(self.frames@[i] == fs1[i]);
                        if i < fs1.len() - 2 {
                            assert(self.frames@[i + 1] == fs1[i + 1]);
                        }
                    }
                    assert(self.frames@[0].dir == fs1[0].dir);
                    assert(pending_total(fs0) == pending_total(fs1));
                    assert(pending_total(self.frames@) < pending_total(fs1));
                }
            }
        }
    }

    /// Takes the finished tree: a directory with the root's fields, in which
    /// every directory holds the filtered, sorted entries of a listing handed
    /// over for its own path.
    pub fn finish(self) -> (r: TreeNode)
        requires
            self.wf(),
            self.is_done(),
        ensures
            r.is_dir,
            r.children is Some,
            r.name == self.root().name,
            r.path == self.root().path,
            r.size == self.root().size,
            r.mtime == self.root().mtime,
            node_wf(r),
            faithful(r, self.supplies(), self.options()),
    {
        self.result.unwrap()
    }
}

} // verus!
