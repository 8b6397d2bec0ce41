use vstd::prelude::*;
use vstd::string::StringExecFns;
use crate::progress::{progress_record, should_emit, ScanProgress};
use crate::skip::{is_hidden, is_system_path, is_system_spec, lower_of, ScanOptions};
use crate::tree::{
    saturated, sizes_sum,
    depth_within, dir_node, file_node, hidden_name, leaf_dir_node, no_hidden_below, tree_wf,
    DiskItem,
};

verus! {

/// One entry of a directory listing: its leaf name, its path, whether it is a
/// directory, and its length in bytes (0 where it could not be read).
pub struct RawEntry {
    pub name: String,
    pub path: String,
    pub is_dir: bool,
    pub len: u64,
}

/// What a frame of the walk waits for.
#[derive(Clone, Copy, PartialEq, Eq, Structural)]
pub enum Wait {
    /// The listing of the frame's own directory.
    Listing,
    /// The size of the subdirectory at `next`.
    EntrySize,
    /// Whether the subdirectory at `next` is large.
    EntryLarge,
    /// Nothing: the walk can go on.
    Ready,
}

/// A directory being expanded.
pub struct Frame {
    pub name: String,
    pub path: String,
    /// Levels that may still be materialized below this directory.
    pub depth: usize,
    pub entries: Vec<RawEntry>,
    /// The first entry not yet handled.
    pub next: usize,
    /// The nodes made so far for its entries.
    pub done: Vec<DiskItem>,
    pub wait: Wait,
}

/// The outside work that the walk asks for next.
pub enum Request {
    /// List the entries of the directory at this path.
    List(String),
    /// Estimate the size of the directory at this path from a sample.
    Estimate(String),
    /// Measure the exact size of the whole tree at this path.
    Measure(String),
    /// Probe whether the directory at this path is large.
    CheckLarge(String),
    /// Nothing: the tree is complete.
    Finished,
}

/// The answer to a `Request`.
pub enum Reply {
    Entries(Vec<RawEntry>),
    Size(u64),
    Large(bool),
}

/// A walk of a directory tree that materializes nodes up to a depth, driven
/// by the caller: it asks `next_request` what outside work is due, performs
/// it, and hands the answer to `receive` and lets the walk `advance`, until the request is `Finished`.
/// Sizes, listings and probes thus come from the caller; the walk decides
/// what to list, what to estimate or measure, and how the tree is built.
pub struct Scanner {
    pub options: ScanOptions,
    /// Whether system locations that deny access are left out.
    pub skip_system: bool,
    pub depth: usize,
    pub root_name: String,
    pub root_path: String,
    /// The root is a directory scanned at depth 0: only its size is awaited.
    pub root_wait: bool,
    pub stack: Vec<Frame>,
    pub result: Option<DiskItem>,
    pub processed: usize,
    pub total: usize,
    /// The listing of the root, once it came.
    pub root_entries: Ghost<Option<Seq<RawEntry>>>,
}

/// A node that is well formed, materialized at most `d` levels deep, and,
/// where hidden entries are skipped, neither hidden nor above a hidden node.
pub open spec fn node_ok(n: DiskItem, d: nat, conceal: bool) -> bool {
    tree_wf(n) && depth_within(n, d) && (conceal ==> !hidden_name(n.name@) && no_hidden_below(n))
}

/// The properties of a finished scan's tree.
pub open spec fn result_ok(n: DiskItem, d: nat, conceal: bool) -> bool {
    tree_wf(n) && depth_within(n, d) && (conceal ==> no_hidden_below(n))
}

/// A frame spares at least one level, waits only for an entry it may wait
/// for, and every node it made so far is well formed one level shallower.
pub open spec fn frame_ok(f: Frame, conceal: bool) -> bool {
    &&& f.depth >= 1
    &&& f.next <= f.entries.len()
    &&& (f.wait == Wait::EntrySize || f.wait == Wait::EntryLarge) ==> f.next < f.entries.len()
        && f.entries[f.next as int].is_dir && (conceal ==> !hidden_name(
        f.entries[f.next as int].name@,
    ))
    &&& f.wait == Wait::EntryLarge ==> f.depth >= 2
    &&& forall|i: int| 0 <= i < f.done.len() ==> node_ok(#[trigger] f.done[i], (f.depth - 1) as nat, conceal)
}

/// The entries the top frame has yet to handle.
pub open spec fn top_remaining(stack: Seq<Frame>) -> nat {
    if stack.len() > 0 {
        (stack.last().entries.len() - stack.last().next) as nat
    } else {
        0
    }
}

/// How the walk handles one entry of a directory being expanded.
#[derive(Clone, Copy, PartialEq, Eq, Structural)]
pub enum EntryPlan {
    /// A hidden entry, where hidden entries are skipped: left out, and not
    /// counted as processed.
    Skip,
    /// A system location, in fast mode: left out.
    Omit,
    /// A system location, in comprehensive mode: an empty placeholder.
    Denied,
    /// A file: a node of its length.
    File,
    /// A directory at the deepest level: a leaf of its (estimated or exact)
    /// size.
    Size,
    /// A directory with levels to spare, in fast mode: probed for being large
    /// first.
    Probe,
    /// A directory with levels to spare, in comprehensive mode: expanded.
    Descend,
}

/// The plan for an entry of a directory that may materialize `depth` more
/// levels.
pub open spec fn plan_of(
    name: Seq<char>,
    path: Seq<char>,
    is_dir: bool,
    depth: nat,
    options: ScanOptions,
    skip_system: bool,
) -> EntryPlan {
    if options.skip_hidden && hidden_name(name) {
        EntryPlan::Skip
    } else if skip_system && is_system_spec(lower_of(path)) {
        if options.fast_mode {
            EntryPlan::Omit
        } else {
            EntryPlan::Denied
        }
    } else if !is_dir {
        EntryPlan::File
    } else if depth <= 1 {
        EntryPlan::Size
    } else if options.fast_mode {
        EntryPlan::Probe
    } else {
        EntryPlan::Descend
    }
}

/// Decides how the walk handles one entry.
pub fn plan_entry(
    name: &str,
    path: &str,
    is_dir: bool,
    depth: usize,
    options: ScanOptions,
    skip_system: bool,
) -> (r: EntryPlan)
    ensures
        r == plan_of(name@, path@, is_dir, depth as nat, options, skip_system),
{
    if options.skip_hidden && is_hidden(name) {
        EntryPlan::Skip
    } else if skip_system && is_system_path(path) {
        if options.fast_mode {
            EntryPlan::Omit
        } else {
            EntryPlan::Denied
        }
    } else if !is_dir {
        EntryPlan::File
    } else if depth <= 1 {
        EntryPlan::Size
    } else if options.fast_mode {
        EntryPlan::Probe
    } else {
        EntryPlan::Descend
    }
}

impl Scanner {
    pub open spec fn conceal(&self) -> bool {
        self.options.skip_hidden
    }

    /// The walk's invariant between two steps: on top of `walk_ok`, the top
    /// frame always waits for outside work.
    pub open spec fn wf(&self) -> bool {
        &&& self.walk_ok()
        &&& self.stack.len() > 0 ==> self.stack@.last().wait != Wait::Ready
    }

    /// The walk's invariant, which holds also in the middle of a step.
    pub open spec fn walk_ok(&self) -> bool {
        &&& self.result is Some ==> self.stack.len() == 0 && !self.root_wait && result_ok(
            self.result->0,
            self.depth as nat,
            self.conceal(),
        )
        &&& self.root_wait ==> self.stack.len() == 0 && self.result is None && self.depth == 0
            && self.root_entries@ is None
        &&& (self.result is None && !self.root_wait) ==> self.stack.len() > 0
        &&& self.stack.len() > 0 ==> self.stack[0].depth == self.depth
        &&& forall|k: int| 0 <= k < self.stack.len() ==> frame_ok(#[trigger] self.stack[k], self.conceal())
        &&& forall|k: int|
            0 <= k < self.stack.len() - 1 ==> #[trigger] self.stack[k + 1].depth + 1 == self.stack[k].depth
        &&& forall|k: int|
            1 <= k < self.stack.len() ==> (self.conceal() ==> !hidden_name(#[trigger] self.stack[k].name@))
        &&& forall|k: int|
            0 <= k < self.stack.len() - 1 ==> #[trigger] pending_ok(
                self.stack[k],
                self.stack[k + 1],
                self.options,
                self.skip_system,
            )
        &&& self.stack.len() > 0 ==> top_ok(self.stack@.last(), self.options, self.skip_system)
        &&& self.stack.len() > 0 ==> (self.stack[0].wait == Wait::Listing <==> self.root_entries@ is None)
        &&& self.stack.len() > 0 && self.root_entries@ is Some ==> self.root_entries@->0 == self.stack[0].entries@
        &&& self.result is Some ==> self.result->0.name == self.root_name && self.result->0.path
            == self.root_path
        &&& self.stack.len() > 0 ==> self.stack[0].name == self.root_name && self.stack[0].path
            == self.root_path
        &&& self.result is Some && self.root_entries@ is Some ==> self.result->0.children is Some
            && self.result->0.size == saturated(sizes_sum(self.result->0.children->0@))
        &&& self.result is Some && self.root_entries@ is Some ==> lists_kept(
            self.result->0,
            kept_entries(self.root_entries@->0, self.depth as nat, self.options, self.skip_system),
            self.depth as nat,
            self.options,
            self.skip_system,
        )
    }
}

/// The plan for the entry of `f` at `i`.
pub open spec fn plan_at(f: Frame, i: int, options: ScanOptions, skip_system: bool) -> EntryPlan {
    let e = f.entries[i];
    plan_of(e.name@, e.path@, e.is_dir, f.depth as nat, options, skip_system)
}

/// The entries that get a node, in listing order: all but the
/// skipped and the omitted ones.
pub open spec fn kept_entries(es: Seq<RawEntry>, depth: nat, options: ScanOptions, skip_system: bool) -> Seq<RawEntry>
    decreases es.len(),
{
    if es.len() == 0 {
        seq![]
    } else {
        let e = es.last();
        let rest = kept_entries(es.drop_last(), depth, options, skip_system);
        let plan = plan_of(e.name@, e.path@, e.is_dir, depth, options, skip_system);
        if plan == EntryPlan::Skip || plan == EntryPlan::Omit {
            rest
        } else {
            rest.push(e)
        }
    }
}

/// The plan for an entry of a directory that may materialize `depth` more
/// levels.
pub open spec fn eplan(e: RawEntry, depth: nat, options: ScanOptions, skip_system: bool) -> EntryPlan {
    plan_of(e.name@, e.path@, e.is_dir, depth, options, skip_system)
}

/// The node `n` stands for the entry `e`, handled by `plan`: a file is a node
/// of its name and length; a denied system location is an empty placeholder
/// labelled as such; a directory keeps its name and carries a list of
/// children: none for a directory at the deepest level, and for an expanded
/// one, children whose sizes add up to its own (so an empty one has size 0).
#[verifier::opaque]
pub open spec fn node_for(n: DiskItem, e: RawEntry, plan: EntryPlan) -> bool {
    &&& n.path == e.path
    &&& plan == EntryPlan::File ==> n.name == e.name && n.size == e.len && !n.is_dir
        && n.children is None
    &&& plan == EntryPlan::Denied ==> n.name@ == e.name@ + " (access denied)"@ && n.size == 0
        && n.is_dir && n.children is None
    &&& (plan == EntryPlan::Size || plan == EntryPlan::Probe || plan == EntryPlan::Descend) ==> n.name
        == e.name && n.is_dir && n.children is Some
    &&& plan == EntryPlan::Size ==> n.children->0@.len() == 0
    &&& plan == EntryPlan::Descend ==> n.size == saturated(sizes_sum(n.children->0@))
    &&& plan == EntryPlan::Probe ==> n.children->0@.len() == 0 || n.size == saturated(
        sizes_sum(n.children->0@),
    )
}

/// The nodes `done` stand, in order, for the entries `kept`.
pub open spec fn done_match(
    done: Seq<DiskItem>,
    kept: Seq<RawEntry>,
    depth: nat,
    options: ScanOptions,
    skip_system: bool,
) -> bool {
    &&& done.len() == kept.len()
    &&& forall|j: int|
        0 <= j < done.len() ==> node_for(#[trigger] done[j], kept[j], eplan(kept[j], depth, options, skip_system))
}

/// Some node of `cs` stands for the entry `e`.
pub open spec fn some_node_for(cs: Seq<DiskItem>, e: RawEntry, plan: EntryPlan) -> bool {
    exists|i: int| 0 <= i < cs.len() && #[trigger] node_for(cs[i], e, plan)
}

/// The node `n` stands for some entry of `kept`.
pub open spec fn for_some_entry(
    n: DiskItem,
    kept: Seq<RawEntry>,
    depth: nat,
    options: ScanOptions,
    skip_system: bool,
) -> bool {
    exists|j: int|
        0 <= j < kept.len() && #[trigger] node_for(n, kept[j], eplan(kept[j], depth, options, skip_system))
}

/// The children of `n` stand, one for one and in some order, for the entries
/// `kept`.
pub open spec fn lists_kept(
    n: DiskItem,
    kept: Seq<RawEntry>,
    depth: nat,
    options: ScanOptions,
    skip_system: bool,
) -> bool {
    &&& n.children is Some
    &&& n.children->0@.len() == kept.len()
    &&& forall|i: int|
        0 <= i < n.children->0@.len() ==> for_some_entry(#[trigger] n.children->0@[i], kept, depth, options, skip_system)
    &&& forall|j: int|
        0 <= j < kept.len() ==> some_node_for(n.children->0@, #[trigger] kept[j], eplan(kept[j], depth, options, skip_system))
}


/// A frame below the top has handed its entry at `next - 1` to the frame `c`
/// above it; the nodes it made so far stand for the entries before that one.
pub open spec fn pending_ok(f: Frame, c: Frame, options: ScanOptions, skip_system: bool) -> bool {
    &&& 1 <= f.next <= f.entries.len()
    &&& f.wait == Wait::Ready
    &&& c.path == f.entries[f.next - 1].path
    &&& c.name == f.entries[f.next - 1].name
    &&& (plan_at(f, f.next - 1, options, skip_system) == EntryPlan::Probe || plan_at(f, f.next - 1, options, skip_system) == EntryPlan::Descend)
    &&& done_match(f.done@, kept_entries(f.entries@.take(f.next - 1), f.depth as nat, options, skip_system), f.depth as nat, options, skip_system)
}

/// The top frame's nodes stand for the entries before `next`, and what it
/// waits for fits the plan of the entry at `next`.
pub open spec fn top_ok(f: Frame, options: ScanOptions, skip_system: bool) -> bool {
    &&& done_match(f.done@, kept_entries(f.entries@.take(f.next as int), f.depth as nat, options, skip_system), f.depth as nat, options, skip_system)
    &&& f.wait == Wait::Listing ==> f.done.len() == 0 && f.next == 0
    &&& f.wait == Wait::EntrySize ==> (plan_at(f, f.next as int, options, skip_system) == EntryPlan::Size || plan_at(f, f.next as int, options, skip_system) == EntryPlan::Probe)
    &&& f.wait == Wait::EntryLarge ==> plan_at(f, f.next as int, options, skip_system) == EntryPlan::Probe
}

proof fn lemma_pending_kept(s0: Seq<Frame>, s1: Seq<Frame>, options: ScanOptions, skip_system: bool)
    requires
        s0.len() == s1.len() > 0,
        forall|k: int| 0 <= k < s0.len() - 1 ==> s1[k] == s0[k],
        s1.last().path == s0.last().path,
        s1.last().name == s0.last().name,
        forall|k: int|
            0 <= k < s0.len() - 1 ==> #[trigger] pending_ok(s0[k], s0[k + 1], options, skip_system),
    ensures
        forall|k: int|
            0 <= k < s1.len() - 1 ==> #[trigger] pending_ok(s1[k], s1[k + 1], options, skip_system),
{
    assert forall|k: int| 0 <= k < s1.len() - 1 implies #[trigger] pending_ok(
        s1[k],
        s1[k + 1],
        options,
        skip_system,
    ) by {
        assert(pending_ok(s0[k], s0[k + 1], options, skip_system));
        if k + 1 < s0.len() - 1 {
            assert(s1[k + 1] == s0[k + 1]);
        }
    }
}

proof fn lemma_top_replaced(a: Scanner, b: Scanner)
    requires
        a.walk_ok(),
        a.stack.len() > 0,
        b.stack.len() == a.stack.len(),
        forall|k: int| 0 <= k < a.stack.len() - 1 ==> b.stack[k] == a.stack[k],
        b.stack@.last().name == a.stack@.last().name,
        b.stack@.last().path == a.stack@.last().path,
        b.stack@.last().depth == a.stack@.last().depth,
        frame_ok(b.stack@.last(), b.options.skip_hidden),
        top_ok(b.stack@.last(), b.options, b.skip_system),
        b.result == a.result,
        b.root_wait == a.root_wait,
        b.options == a.options,
        b.skip_system == a.skip_system,
        b.depth == a.depth,
        b.root_name == a.root_name,
        b.root_path == a.root_path,
        b.stack.len() > 1 ==> b.root_entries == a.root_entries,
        b.stack.len() == 1 ==> (b.stack[0].wait == Wait::Listing <==> b.root_entries@ is None),
        b.stack.len() == 1 && b.root_entries@ is Some ==> b.root_entries@->0 == b.stack[0].entries@,
    ensures
        b.walk_ok(),
{
    let n = a.stack.len() - 1;
    assert(b.stack[n as int] == b.stack@.last());
    if n > 0 {
        assert(b.stack[0] == a.stack[0]);
    }
    assert(a.stack[n as int] == a.stack@.last());
    assert forall|k: int| 0 <= k < b.stack.len() implies frame_ok(#[trigger] b.stack[k], b.conceal()) by {
        if k < n {
            assert(frame_ok(a.stack[k], a.conceal()));
        }
    }
    assert forall|k: int| 0 <= k < b.stack.len() - 1 implies #[trigger] b.stack[k + 1].depth + 1
        == b.stack[k].depth by {
        assert(a.stack[k + 1].depth + 1 == a.stack[k].depth);
    }
    assert forall|k: int| 1 <= k < b.stack.len() && b.conceal() implies !hidden_name(
        #[trigger] b.stack[k].name@,
    ) by {
        assert(a.conceal() ==> !hidden_name(a.stack[k].name@));
    }
    lemma_pending_kept(a.stack@, b.stack@, a.options, a.skip_system);
}

proof fn lemma_lists_kept(
    node: DiskItem,
    done: Seq<DiskItem>,
    kept: Seq<RawEntry>,
    depth: nat,
    options: ScanOptions,
    skip_system: bool,
)
    requires
        node.children is Some,
        node.children->0@.to_multiset() == done.to_multiset(),
        node.children->0@.len() == done.len(),
        forall|i: int|
            0 <= i < node.children->0@.len() ==> done.contains(#[trigger] node.children->0@[i]),
        done_match(done, kept, depth, options, skip_system),
    ensures
        lists_kept(node, kept, depth, options, skip_system),
{
    let cs = node.children->0@;
    assert forall|i: int| 0 <= i < cs.len() implies for_some_entry(#[trigger] cs[i], kept, depth, options, skip_system) by {
        assert(done.contains(cs[i]));
        let j = choose|j: int| 0 <= j < done.len() && done[j] == cs[i];
        assert(node_for(done[j], kept[j], eplan(kept[j], depth, options, skip_system)));
    }
    assert forall|j: int| 0 <= j < kept.len() implies some_node_for(cs, #[trigger] kept[j], eplan(kept[j], depth, options, skip_system)) by {
        assert(node_for(done[j], kept[j], eplan(kept[j], depth, options, skip_system)));
        assert(done.contains(done[j]));
        vstd::seq_lib::to_multiset_contains(done, done[j]);
        vstd::seq_lib::to_multiset_contains(cs, done[j]);
        assert(cs.contains(done[j]));
        let i = choose|i: int| 0 <= i < cs.len() && cs[i] == done[j];
        assert(node_for(cs[i], kept[j], eplan(kept[j], depth, options, skip_system)));
    }
}

proof fn lemma_match_push(
    done: Seq<DiskItem>,
    kept: Seq<RawEntry>,
    e: RawEntry,
    n: DiskItem,
    depth: nat,
    options: ScanOptions,
    skip_system: bool,
)
    requires
        done_match(done, kept, depth, options, skip_system),
        node_for(n, e, eplan(e, depth, options, skip_system)),
    ensures
        done_match(done.push(n), kept.push(e), depth, options, skip_system),
{
    assert forall|j: int| 0 <= j < done.push(n).len() implies node_for(
        #[trigger] done.push(n)[j],
        kept.push(e)[j],
        eplan(kept.push(e)[j], depth, options, skip_system),
    ) by {
        if j < done.len() {
            assert(done.push(n)[j] == done[j]);
            assert(kept.push(e)[j] == kept[j]);
        }
    }
}

proof fn lemma_kept_step(es: Seq<RawEntry>, n: int, depth: nat, options: ScanOptions, skip_system: bool)
    requires
        0 <= n < es.len(),
    ensures
        ({
            let e = es[n];
            let plan = plan_of(e.name@, e.path@, e.is_dir, depth, options, skip_system);
            kept_entries(es.take(n + 1), depth, options, skip_system) == if plan == EntryPlan::Skip || plan == EntryPlan::Omit {
                kept_entries(es.take(n), depth, options, skip_system)
            } else {
                kept_entries(es.take(n), depth, options, skip_system).push(e)
            }
        }),
{
    assert(es.take(n + 1).drop_last() == es.take(n));
    assert(es.take(n + 1).last() == es[n]);
}


impl Scanner {
    /// Starts a scan of `root` that materializes nodes up to `depth` levels
    /// below it, against a progress total of `total` items. A root that is
    /// not a directory is done at once, as a file node.
    pub fn start(root: RawEntry, depth: usize, options: ScanOptions, skip_system: bool, total: usize) -> (r: Scanner)
        ensures
            r.wf(),
            r.options == options && r.skip_system == skip_system,
            r.depth == depth && r.processed == 0 && r.total == total,
            !root.is_dir ==> r.result == Some(
                DiskItem { name: root.name, path: root.path, size: root.len, is_dir: false, children: None },
            ),
            root.is_dir && depth == 0 ==> r.root_wait && r.result is None,
            root.is_dir && depth > 0 ==> !r.root_wait && r.result is None && r.stack.len() == 1
                && r.stack[0].wait == Wait::Listing && r.stack[0].path == root.path,
            r.root_name == root.name && r.root_path == root.path,
    {
        let RawEntry { name, path, is_dir, len } = root;
        if !is_dir {
            let node = file_node(name.clone(), path.clone(), len);
            return Scanner {
                options,
                skip_system,
                depth,
                root_name: name,
                root_path: path,
                root_wait: false,
                stack: Vec::new(),
                result: Some(node),
                processed: 0,
                total,
                root_entries: Ghost(None),
            };
        }
        if depth == 0 {
            return Scanner {
                options,
                skip_system,
                depth,
                root_name: name,
                root_path: path,
                root_wait: true,
                stack: Vec::new(),
                result: None,
                processed: 0,
                total,
                root_entries: Ghost(None),
            };
        }
        let frame = Frame {
            name: name.clone(),
            path: path.clone(),
            depth,
            entries: Vec::new(),
            next: 0,
            done: Vec::new(),
            wait: Wait::Listing,
        };
        let mut stack: Vec<Frame> = Vec::new();
        stack.push(frame);
        assert(frame.entries@.take(0) =~= Seq::<RawEntry>::empty());
        assert(frame.done@.len() == 0);
        Scanner {
            options,
            skip_system,
            depth,
            root_name: name,
            root_path: path,
            root_wait: false,
            stack,
            result: None,
            processed: 0,
            total,
            root_entries: Ghost(None),
        }
    }

    /// Whether the tree is complete.
    pub fn is_finished(&self) -> (r: bool)
        ensures
            r == self.result is Some,
    {
        self.result.is_some()
    }

    /// The record of the scan's last progress report, which always shows
    /// every item processed.
    pub fn final_progress(&self) -> (r: ScanProgress)
        ensures
            r.processed_items == self.total && r.total_items == self.total,
            r.current_path == self.root_path,
    {
        progress_record(self.root_path.clone(), self.total, self.total)
    }

    /// The record of the scan's first progress report.
    pub fn initial_progress(&self) -> (r: ScanProgress)
        ensures
            r.processed_items == self.processed && r.total_items == self.total,
            r.current_path == self.root_path,
    {
        progress_record(self.root_path.clone(), self.processed, self.total)
    }

    /// The outside work that the walk needs next.
    pub fn next_request(&self) -> (r: Request)
        requires
            self.wf(),
        ensures
            r is Finished <==> self.result is Some,
            self.root_wait ==> r == (if self.options.fast_mode {
                Request::Estimate(self.root_path)
            } else {
                Request::Measure(self.root_path)
            }),
            self.result is None && !self.root_wait ==> ({
                let top = self.stack@.last();
                &&& top.wait == Wait::Listing ==> r == Request::List(top.path)
                &&& top.wait == Wait::EntrySize ==> r == (if self.options.fast_mode {
                    Request::Estimate(top.entries[top.next as int].path)
                } else {
                    Request::Measure(top.entries[top.next as int].path)
                })
                &&& top.wait == Wait::EntryLarge ==> r == Request::CheckLarge(
                    top.entries[top.next as int].path,
                )
                &&& top.wait == Wait::Ready ==> r is Finished
            }),
    {
        if self.result.is_some() {
            return Request::Finished;
        }
        if self.root_wait {
            let p = self.root_path.clone();
            return if self.options.fast_mode {
                Request::Estimate(p)
            } else {
                Request::Measure(p)
            };
        }
        let top = &self.stack[self.stack.len() - 1];
        match top.wait {
            Wait::Listing => Request::List(top.path.clone()),
            Wait::EntrySize => {
                let p = top.entries[top.next].path.clone();
                if self.options.fast_mode {
                    Request::Estimate(p)
                } else {
                    Request::Measure(p)
                }
            },
            Wait::EntryLarge => Request::CheckLarge(top.entries[top.next].path.clone()),
            Wait::Ready => Request::Finished,
        }
    }

    /// Handles the entries of the top frame that need no outside work, and
    /// closes every frame whose entries are all handled.
    #[verifier::rlimit(100)]
    #[verifier::spinoff_prover]
    fn settle(&mut self) -> (emitted: Vec<ScanProgress>)
        requires
            old(self).walk_ok(),
        ensures
            final(self).wf(),
            same_setup(*old(self), *final(self)),
            progress_ok(emitted@, shown(old(self).processed, old(self).total), shown(final(self).processed, old(self).total), old(self).total),
            old(self).stack.len() == 0 ==> *final(self) == *old(self),
            final(self).root_entries == old(self).root_entries,
    {
        let mut emitted: Vec<ScanProgress> = Vec::new();
        let ghost start = *self;
        let conceal = self.options.skip_hidden;
        loop
            invariant
                self.walk_ok(),
                conceal == self.options.skip_hidden,
                same_setup(start, *self),
                progress_ok(emitted@, shown(start.processed, self.total), shown(self.processed, self.total), self.total),
                start.stack.len() == 0 ==> *self == start,
                self.root_entries == start.root_entries,
            ensures
                start.stack.len() == 0 ==> *self == start,
                self.root_entries == start.root_entries,
                self.wf(),
                conceal == self.options.skip_hidden,
                same_setup(start, *self),
                progress_ok(emitted@, shown(start.processed, self.total), shown(self.processed, self.total), self.total),
            decreases self.stack.len(), top_remaining(self.stack@),
        {
            if self.stack.len() == 0 {
                break;
            }
            let ghost stack0 = self.stack@;
            let ghost s0 = *self;
            let mut top = self.stack.pop().unwrap();
            assert(top == stack0.last() && self.stack@ == stack0.drop_last());
            assert(frame_ok(top, conceal)) by {
                assert(frame_ok(stack0[stack0.len() - 1], conceal));
            }
            assert(top_ok(top, self.options, self.skip_system));
            let ghost top0 = top;
            if top.wait != Wait::Ready {
                self.stack.push(top);
                assert(self.stack@ =~= stack0);
                break;
            }
            if top.next < top.entries.len() {
                let name = top.entries[top.next].name.clone();
                let path = top.entries[top.next].path.clone();
                let is_dir = top.entries[top.next].is_dir;
                let len = top.entries[top.next].len;
                let plan = plan_entry(
                    name.as_str(),
                    path.as_str(),
                    is_dir,
                    top.depth,
                    self.options,
                    self.skip_system,
                );
                if plan == EntryPlan::Skip {
                    top.next = top.next + 1;
                    self.stack.push(top);
                    assert(self.stack@ =~= stack0.drop_last().push(top));
                    assert(forall|k: int| 0 <= k < self.stack.len() - 1 ==> self.stack[k] == stack0[k]);
                    proof {
                        lemma_kept_step(top0.entries@, top0.next as int, top0.depth as nat, self.options, self.skip_system);
                        lemma_pending_kept(stack0, self.stack@, self.options, self.skip_system);
                        lemma_top_replaced(s0, *self);
                    }
                    continue;
                }
                assert(conceal ==> !hidden_name(name@));
                self.processed = self.processed.saturating_add(1);
                if should_emit(self.processed, is_dir) {
                    let count = if self.processed <= self.total {
                        self.processed
                    } else {
                        self.total
                    };
                    emitted.push(progress_record(path.clone(), count, self.total));
                }
                if plan == EntryPlan::Omit || plan == EntryPlan::Denied {
                    if plan == EntryPlan::Denied {
                        proof {
                            reveal_strlit(" (access denied)");
                        }
                        let label = name.concat(" (access denied)");
                        let node = DiskItem { name: label, path, size: 0, is_dir: true, children: None };
                        assert(label@.len() > 0);
                        assert(conceal ==> !hidden_name(label@)) by {
                            if name@.len() > 0 {
                                assert(label@[0] == name@[0]);
                            } else {
                                assert(label@[0] == ' ');
                            }
                        }
                        assert(node_ok(node, (top.depth - 1) as nat, conceal));
                        proof {
                            reveal(node_for);
                            lemma_match_push(top.done@, kept_entries(top.entries@.take(top.next as int), top.depth as nat, self.options, self.skip_system), top.entries@[top.next as int], node, top.depth as nat, self.options, self.skip_system);
                        }
                        top.done.push(node);
                    }
                    top.next = top.next + 1;
                    self.stack.push(top);
                    assert(self.stack@ =~= stack0.drop_last().push(top));
                    assert(forall|k: int| 0 <= k < self.stack.len() - 1 ==> self.stack[k] == stack0[k]);
                    proof {
                        lemma_kept_step(top0.entries@, top0.next as int, top0.depth as nat, self.options, self.skip_system);
                        lemma_pending_kept(stack0, self.stack@, self.options, self.skip_system);
                        lemma_top_replaced(s0, *self);
                    }
                    continue;
                }
                if plan == EntryPlan::File {
                    let node = file_node(name, path, len);
                    proof {
                        reveal(node_for);
                        lemma_match_push(top.done@, kept_entries(top.entries@.take(top.next as int), top.depth as nat, self.options, self.skip_system), top.entries@[top.next as int], node, top.depth as nat, self.options, self.skip_system);
                    }
                    top.done.push(node);
                    top.next = top.next + 1;
                    self.stack.push(top);
                    assert(self.stack@ =~= stack0.drop_last().push(top));
                    assert(forall|k: int| 0 <= k < self.stack.len() - 1 ==> self.stack[k] == stack0[k]);
                    proof {
                        lemma_kept_step(top0.entries@, top0.next as int, top0.depth as nat, self.options, self.skip_system);
                        lemma_pending_kept(stack0, self.stack@, self.options, self.skip_system);
                        lemma_top_replaced(s0, *self);
                    }
                    continue;
                }
                if plan == EntryPlan::Size {
                    top.wait = Wait::EntrySize;
                    self.stack.push(top);
                    assert(self.stack@ =~= stack0.drop_last().push(top));
                    assert(forall|k: int| 0 <= k < self.stack.len() - 1 ==> self.stack[k] == stack0[k]);
                    proof {
                        lemma_kept_step(top0.entries@, top0.next as int, top0.depth as nat, self.options, self.skip_system);
                        lemma_pending_kept(stack0, self.stack@, self.options, self.skip_system);
                        lemma_top_replaced(s0, *self);
                    }
                    break;
                }
                if plan == EntryPlan::Probe {
                    top.wait = Wait::EntryLarge;
                    self.stack.push(top);
                    assert(self.stack@ =~= stack0.drop_last().push(top));
                    assert(forall|k: int| 0 <= k < self.stack.len() - 1 ==> self.stack[k] == stack0[k]);
                    proof {
                        lemma_kept_step(top0.entries@, top0.next as int, top0.depth as nat, self.options, self.skip_system);
                        lemma_pending_kept(stack0, self.stack@, self.options, self.skip_system);
                        lemma_top_replaced(s0, *self);
                    }
                    break;
                }
                let child_depth = top.depth - 1;
                top.next = top.next + 1;
                self.stack.push(top);
                let child = Frame {
                    name,
                    path,
                    depth: child_depth,
                    entries: Vec::new(),
                    next: 0,
                    done: Vec::new(),
                    wait: Wait::Listing,
                };
                self.stack.push(child);
                assert(self.stack@ =~= stack0.drop_last().push(top).push(child));
                assert(forall|k: int| 0 <= k < self.stack.len() - 2 ==> self.stack[k] == stack0[k]);
                proof {
                    lemma_kept_step(top0.entries@, top0.next as int, top0.depth as nat, self.options, self.skip_system);
                    let s1 = self.stack@.drop_last();
                    assert(s1 == stack0.drop_last().push(top));
                    lemma_pending_kept(stack0, s1, self.options, self.skip_system);
                    assert(child.entries@.take(0) =~= Seq::<RawEntry>::empty());
                    assert(child.done@.len() == 0);
                    assert(pending_ok(top, child, self.options, self.skip_system));
                    assert forall|k: int| 0 <= k < self.stack.len() - 1 implies #[trigger] pending_ok(
                        self.stack[k],
                        self.stack[k + 1],
                        self.options,
                        self.skip_system,
                    ) by {
                        if k < self.stack.len() - 2 {
                            assert(pending_ok(s1[k], s1[k + 1], self.options, self.skip_system));
                        }
                    }
                    let n = stack0.len() - 1;
                    assert(self.stack[n as int] == top);
                    assert(self.stack[n + 1] == child);
                    assert(frame_ok(top, conceal));
                    assert(frame_ok(child, conceal));
                    assert forall|k: int| 0 <= k < self.stack.len() implies frame_ok(
                        #[trigger] self.stack[k],
                        conceal,
                    ) by {
                        if k < n {
                            assert(frame_ok(stack0[k], conceal));
                        }
                    }
                    assert forall|k: int| 0 <= k < self.stack.len() - 1 implies #[trigger] self.stack[k
                        + 1].depth + 1 == self.stack[k].depth by {
                        if k < n {
                            assert(stack0[k + 1].depth + 1 == stack0[k].depth);
                        }
                    }
                    assert forall|k: int| 1 <= k < self.stack.len() && conceal implies !hidden_name(
                        #[trigger] self.stack[k].name@,
                    ) by {
                        if k <= n {
                            assert(conceal ==> !hidden_name(stack0[k].name@));
                        }
                    }
                    assert(top_ok(child, self.options, self.skip_system));
                }
                break;
            } else {
                let ghost done = top.done@;
                let ghost d = top.depth;
                let node = dir_node(top.name, top.path, top.done);
                proof {
                    lemma_dir_node_ok(node, done, d as nat, conceal);
                }
                if self.stack.len() == 0 {
                    proof {
                        assert(stack0.len() == 1 && stack0[0] == top0);
                        assert(top0.entries@.take(top0.next as int) == top0.entries@);
                        lemma_lists_kept(
                            node,
                            done,
                            kept_entries(top0.entries@, d as nat, self.options, self.skip_system),
                            d as nat,
                            self.options,
                            self.skip_system,
                        );
                    }
                    self.result = Some(node);
                    break;
                }
                let ghost stack1 = self.stack@;
                let mut parent = self.stack.pop().unwrap();
                assert(parent == stack0[stack0.len() - 2]);
                assert(frame_ok(parent, conceal)) by {
                    assert(frame_ok(stack0[stack0.len() - 2], conceal));
                }
                assert(stack0[stack0.len() - 2 + 1].depth + 1 == stack0[stack0.len() - 2].depth);
                assert(conceal ==> !hidden_name(stack0[stack0.len() - 1].name@));
                proof {
                    assert(pending_ok(stack0[stack0.len() - 2], stack0[stack0.len() - 1], self.options, self.skip_system));
                    lemma_kept_step(parent.entries@, parent.next - 1, parent.depth as nat, self.options, self.skip_system);
                    reveal(node_for);
                    lemma_match_push(parent.done@, kept_entries(parent.entries@.take(parent.next - 1), parent.depth as nat, self.options, self.skip_system), parent.entries@[parent.next - 1], node, parent.depth as nat, self.options, self.skip_system);
                }
                parent.done.push(node);
                self.stack.push(parent);
                proof {
                    lemma_pending_kept(stack0.drop_last(), self.stack@, self.options, self.skip_system);
                    assert(parent.entries@.take(parent.next - 1 + 1) == parent.entries@.take(parent.next as int));
                }
                assert(self.stack@ =~= stack1.drop_last().push(parent));
                assert(forall|k: int| 0 <= k < self.stack.len() - 1 ==> self.stack[k] == stack0[k]);
                proof {
                    let n = self.stack.len() - 1;
                    assert(self.stack[n as int] == parent);
                    assert(frame_ok(parent, conceal));
                    assert forall|k: int| 0 <= k < self.stack.len() implies frame_ok(
                        #[trigger] self.stack[k],
                        conceal,
                    ) by {
                        if k < n {
                            assert(frame_ok(stack0[k], conceal));
                        }
                    }
                    assert forall|k: int| 0 <= k < self.stack.len() - 1 implies #[trigger] self.stack[k
                        + 1].depth + 1 == self.stack[k].depth by {
                        assert(stack0[k + 1].depth + 1 == stack0[k].depth);
                    }
                    assert forall|k: int| 1 <= k < self.stack.len() && conceal implies !hidden_name(
                        #[trigger] self.stack[k].name@,
                    ) by {
                        assert(conceal ==> !hidden_name(stack0[k].name@));
                    }
                }
            }
        }
        emitted
    }

    /// Takes the answer to the last request. A `Listing` wait takes the
    /// entries; an `EntrySize` wait makes a leaf of the replied size for its
    /// entry; an `EntryLarge` wait turns into a size wait for a large
    /// directory and into a new frame, one level shallower, otherwise. Any
    /// other answer leaves the walk as it is. `advance` goes on from there.
    pub fn receive(&mut self, answer: Reply)
        requires
            old(self).wf(),
        ensures
            final(self).walk_ok(),
            same_setup(*old(self), *final(self)),
            final(self).processed == old(self).processed,
            old(self).result is Some ==> *final(self) == *old(self),
            old(self).root_wait ==> (match answer {
                Reply::Size(n) => !final(self).root_wait && final(self).result == Some(
                    DiskItem {
                        name: old(self).root_name,
                        path: old(self).root_path,
                        size: n,
                        is_dir: true,
                        children: final(self).result->0.children,
                    },
                ) && final(self).result->0.children is Some
                    && final(self).result->0.children->0@.len() == 0,
                _ => *final(self) == *old(self),
            }),
            old(self).result is None && !old(self).root_wait ==> received(*old(self), *final(self), answer),
    {
        let conceal = self.options.skip_hidden;
        if self.result.is_some() {
            return;
        }
        if self.root_wait {
            match answer {
                Reply::Size(n) => {
                    let node = leaf_dir_node(self.root_name.clone(), self.root_path.clone(), n);
                    self.result = Some(node);
                    self.root_wait = false;
                },
                _ => {},
            }
            return;
        }
        let ghost stack0 = self.stack@;
        let ghost s0 = *self;
        let mut top = self.stack.pop().unwrap();
        assert(top == stack0.last() && self.stack@ == stack0.drop_last());
        assert(frame_ok(top, conceal)) by {
            assert(frame_ok(stack0[stack0.len() - 1], conceal));
        }
        assert(top_ok(top, self.options, self.skip_system));
        let ghost top0 = top;
        match answer {
            Reply::Entries(es) => {
                if top.wait == Wait::Listing {
                    if self.stack.len() == 0 {
                        self.root_entries = Ghost(Some(es@));
                    }
                    top.entries = es;
                    top.next = 0;
                    top.wait = Wait::Ready;
                    assert(top.entries@.take(0) =~= Seq::<RawEntry>::empty());
                    assert(top.done@.len() == 0);
                }
                self.stack.push(top);
            },
            Reply::Size(n) => {
                if top.wait == Wait::EntrySize {
                    let name = top.entries[top.next].name.clone();
                    let path = top.entries[top.next].path.clone();
                    let node = leaf_dir_node(name, path, n);
                    proof {
                        reveal(node_for);
                        lemma_match_push(top.done@, kept_entries(top.entries@.take(top.next as int), top.depth as nat, self.options, self.skip_system), top.entries@[top.next as int], node, top.depth as nat, self.options, self.skip_system);
                        lemma_kept_step(top.entries@, top.next as int, top.depth as nat, self.options, self.skip_system);
                    }
                    top.done.push(node);
                    top.next = top.next + 1;
                    top.wait = Wait::Ready;
                    assert(top.done@.take(top0.done@.len() as int) =~= top0.done@);
                }
                self.stack.push(top);
            },
            Reply::Large(large) => {
                if top.wait == Wait::EntryLarge {
                    if large {
                        top.wait = Wait::EntrySize;
                        self.stack.push(top);
                    } else {
                        let name = top.entries[top.next].name.clone();
                        let path = top.entries[top.next].path.clone();
                        let child = Frame {
                            name,
                            path,
                            depth: top.depth - 1,
                            entries: Vec::new(),
                            next: 0,
                            done: Vec::new(),
                            wait: Wait::Listing,
                        };
                        top.next = top.next + 1;
                        top.wait = Wait::Ready;
                        self.stack.push(top);
                        self.stack.push(child);
                        assert(self.stack@ =~= stack0.drop_last().push(top).push(child));
                        assert(forall|k: int| 0 <= k < self.stack.len() - 2 ==> self.stack[k] == stack0[k]);
                        proof {
                            let n = stack0.len() - 1;
                            assert(self.stack[n as int] == top);
                            assert(self.stack[n + 1] == child);
                            assert(conceal ==> !hidden_name(child.name@));
                            assert forall|k: int| 1 <= k < self.stack.len() && conceal implies !hidden_name(
                                #[trigger] self.stack[k].name@,
                            ) by {
                                if k < n {
                                    assert(conceal ==> !hidden_name(stack0[k].name@));
                                } else if k == n {
                                    assert(conceal ==> !hidden_name(stack0[n].name@));
                                }
                            }
                            lemma_kept_step(top0.entries@, top0.next as int, top0.depth as nat, self.options, self.skip_system);
                            let s1 = self.stack@.drop_last();
                            assert(s1 == stack0.drop_last().push(top));
                            lemma_pending_kept(stack0, s1, self.options, self.skip_system);
                            assert(child.entries@.take(0) =~= Seq::<RawEntry>::empty());
                            assert(child.done@.len() == 0);
                            assert(pending_ok(top, child, self.options, self.skip_system));
                            assert forall|k: int| 0 <= k < self.stack.len() - 1 implies #[trigger] pending_ok(
                                self.stack[k],
                                self.stack[k + 1],
                                self.options,
                                self.skip_system,
                            ) by {
                                if k < self.stack.len() - 2 {
                                    assert(pending_ok(s1[k], s1[k + 1], self.options, self.skip_system));
                                }
                            }
                        }
                    }
                } else {
                    self.stack.push(top);
                }
            },
        }
        assert(forall|k: int| 0 <= k < stack0.len() - 1 ==> self.stack[k] == stack0[k]);
        proof {
            if self.stack.len() == stack0.len() {
                lemma_pending_kept(stack0, self.stack@, self.options, self.skip_system);
                lemma_top_replaced(s0, *self);
                assert(self.stack[stack0.len() - 1] == self.stack@.last());
                if self.stack@.last() == stack0.last() {
                    assert(self.stack@ =~= stack0);
                }
            }
        }
    }

    /// Handles every entry that needs no outside work, closing each directory
    /// whose entries are all handled into a node for its parent, or into the
    /// result. Returns the progress reports made meanwhile, in order.
    pub fn advance(&mut self) -> (emitted: Vec<ScanProgress>)
        requires
            old(self).walk_ok(),
        ensures
            final(self).wf(),
            same_setup(*old(self), *final(self)),
            progress_ok(emitted@, shown(old(self).processed, old(self).total), shown(final(self).processed, old(self).total), old(self).total),
            old(self).result is Some ==> final(self).result == old(self).result,
            old(self).root_wait ==> *final(self) == *old(self),
            final(self).root_entries == old(self).root_entries,
            final(self).result is Some || final(self).root_wait || final(self).stack@.last().wait
                != Wait::Ready,
    {
        self.settle()
    }
}

/// The state after the answer `a` to a walk `o` that waits on its top frame:
/// the exact change for each kind of wait and answer.
pub open spec fn received(o: Scanner, f: Scanner, a: Reply) -> bool {
    let n = o.stack.len() - 1;
    let top = o.stack[n];
    let t = f.stack[n];
    &&& f.result == o.result && f.root_wait == o.root_wait
    &&& forall|k: int| 0 <= k < n ==> f.stack[k] == o.stack[k]
    &&& match (top.wait, a) {
        (Wait::Listing, Reply::Entries(es)) => {
            &&& f.stack.len() == o.stack.len()
            &&& t.name == top.name && t.path == top.path && t.depth == top.depth
            &&& t.entries@ == es@ && t.next == 0 && t.done@ == top.done@ && t.wait == Wait::Ready
        },
        (Wait::EntrySize, Reply::Size(size)) => {
            let e = top.entries[top.next as int];
            &&& f.stack.len() == o.stack.len()
            &&& t.name == top.name && t.path == top.path && t.depth == top.depth
            &&& t.entries == top.entries && t.next == top.next + 1 && t.wait == Wait::Ready
            &&& t.done@.len() == top.done@.len() + 1
            &&& t.done@.take(top.done@.len() as int) == top.done@
            &&& t.done@.last().name == e.name && t.done@.last().path == e.path
            &&& t.done@.last().size == size && t.done@.last().is_dir
            &&& t.done@.last().children is Some && t.done@.last().children->0@.len() == 0
        },
        (Wait::EntryLarge, Reply::Large(true)) => {
            &&& f.stack.len() == o.stack.len()
            &&& t.name == top.name && t.path == top.path && t.depth == top.depth
            &&& t.entries == top.entries && t.next == top.next && t.done == top.done
            &&& t.wait == Wait::EntrySize
        },
        (Wait::EntryLarge, Reply::Large(false)) => {
            let e = top.entries[top.next as int];
            let c = f.stack[n + 1];
            &&& f.stack.len() == o.stack.len() + 1
            &&& t.name == top.name && t.path == top.path && t.depth == top.depth
            &&& t.entries == top.entries && t.next == top.next + 1 && t.done == top.done
            &&& t.wait == Wait::Ready
            &&& c.name == e.name && c.path == e.path && c.depth == top.depth - 1
            &&& c.entries@.len() == 0 && c.next == 0 && c.done@.len() == 0 && c.wait == Wait::Listing
        },
        _ => f.stack@ == o.stack@,
    }
}

/// What a step of the walk leaves as it was.
pub open spec fn same_setup(a: Scanner, b: Scanner) -> bool {
    &&& a.options == b.options
    &&& a.skip_system == b.skip_system
    &&& a.depth == b.depth
    &&& a.total == b.total
    &&& a.root_name == b.root_name
    &&& a.root_path == b.root_path
    &&& a.processed <= b.processed
}

/// The processed count that a report shows: never above the total.
pub open spec fn shown(processed: usize, total: usize) -> int {
    if processed <= total {
        processed as int
    } else {
        total as int
    }
}

/// No report of a step shows more than the total, which the last report of
/// a scan shows: the last report is never below an earlier one.
pub proof fn lemma_last_report_highest(s: Seq<ScanProgress>, lo: int, hi: int, total: usize)
    requires
        progress_ok(s, lo, hi, total),
    ensures
        forall|i: int| 0 <= i < s.len() ==> #[trigger] s[i].processed_items <= total,
{
    assert forall|i: int| 0 <= i < s.len() implies #[trigger] s[i].processed_items <= total by {
        assert(lo <= s[i].processed_items <= hi);
    }
}

/// Progress reports in order of non-decreasing processed counts, each
/// between `lo` and `hi`.
pub open spec fn progress_ok(s: Seq<ScanProgress>, lo: int, hi: int, total: usize) -> bool {
    &&& forall|i: int| 0 <= i < s.len() ==> #[trigger] s[i].total_items == total
    &&& hi <= total
    &&& forall|i: int, j: int|
        0 <= i < j < s.len() ==> s[i].processed_items <= s[j].processed_items
    &&& forall|i: int| 0 <= i < s.len() ==> lo <= #[trigger] s[i].processed_items <= hi
}

/// A finished scan's tree is well formed: at every node the children are
/// sorted by size, largest first, and a directory with listed children has
/// the sum of their sizes. No node lies more than the requested depth below
/// the root, and where hidden entries are skipped no node below the root has
/// a name that starts with a dot. The root carries the root's name and path.
/// Where the root was listed, its size is the sum of its children's, and its
/// children stand one for one for the listed entries that were neither
/// skipped nor omitted: a file as a node of its name and length, a denied
/// system location as an empty placeholder, a directory under its own name.
pub proof fn lemma_finished_tree(s: Scanner)
    requires
        s.wf(),
        s.result is Some,
    ensures
        tree_wf(s.result->0),
        depth_within(s.result->0, s.depth as nat),
        s.options.skip_hidden ==> no_hidden_below(s.result->0),
        s.result->0.name == s.root_name && s.result->0.path == s.root_path,
        s.root_entries@ is Some ==> s.result->0.size == saturated(sizes_sum(s.result->0.children->0@)),
        s.root_entries@ is Some ==> lists_kept(
            s.result->0,
            kept_entries(s.root_entries@->0, s.depth as nat, s.options, s.skip_system),
            s.depth as nat,
            s.options,
            s.skip_system,
        ),
{
}

/// The progress reports of consecutive steps, taken together, still come in
/// order of non-decreasing processed counts.
pub proof fn lemma_progress_in_order(
    a: Seq<ScanProgress>,
    b: Seq<ScanProgress>,
    lo: int,
    mid: int,
    hi: int,
    total: usize,
)
    requires
        lo <= mid <= hi,
        progress_ok(a, lo, mid, total),
        progress_ok(b, mid, hi, total),
    ensures
        progress_ok(a + b, lo, hi, total),
{
    assert forall|i: int, j: int| 0 <= i < j < (a + b).len() implies (a + b)[i].processed_items
        <= (a + b)[j].processed_items by {
        if j < a.len() {
        } else if i >= a.len() {
            assert((a + b)[i] == b[i - a.len()]);
            assert((a + b)[j] == b[j - a.len()]);
        } else {
            assert((a + b)[i] == a[i]);
            assert((a + b)[j] == b[j - a.len()]);
        }
    }
    assert forall|i: int| 0 <= i < (a + b).len() implies #[trigger] (a + b)[i].total_items == total by {
        if i < a.len() {
            assert((a + b)[i] == a[i]);
        } else {
            assert((a + b)[i] == b[i - a.len()]);
        }
    }
    assert forall|i: int| 0 <= i < (a + b).len() implies lo <= #[trigger] (a + b)[i].processed_items
        <= hi by {
        if i < a.len() {
            assert((a + b)[i] == a[i]);
            assert(lo <= a[i].processed_items <= mid);
        } else {
            assert((a + b)[i] == b[i - a.len()]);
            assert(mid <= b[i - a.len()].processed_items <= hi);
        }
    }
}

proof fn lemma_dir_node_ok(node: DiskItem, done: Seq<DiskItem>, d: nat, conceal: bool)
    requires
        d >= 1,
        node.children is Some,
        forall|i: int| 0 <= i < done.len() ==> node_ok(#[trigger] done[i], (d - 1) as nat, conceal),
        forall|i: int|
            0 <= i < node.children->0@.len() ==> done.contains(#[trigger] node.children->0@[i]),
        (forall|i: int| 0 <= i < done.len() ==> #[trigger] tree_wf(done[i])) ==> tree_wf(node),
    ensures
        tree_wf(node),
        depth_within(node, d),
        conceal ==> no_hidden_below(node),
{
    let cs = node.children->0;
    assert forall|i: int| 0 <= i < cs.len() implies node_ok(#[trigger] cs[i], (d - 1) as nat, conceal) by {
        assert(done.contains(cs@[i]));
        let j = choose|j: int| 0 <= j < done.len() && done[j] == cs@[i];
        assert(node_ok(done[j], (d - 1) as nat, conceal));
    }
    assert forall|i: int| 0 <= i < done.len() implies #[trigger] tree_wf(done[i]) by {
        assert(node_ok(done[i], (d - 1) as nat, conceal));
    }
    assert forall|i: int| 0 <= i < cs.len() implies #[trigger] depth_within(cs[i], (d - 1) as nat) by {
        assert(node_ok(cs[i], (d - 1) as nat, conceal));
    }
    if conceal {
        assert forall|i: int| 0 <= i < cs.len() implies !hidden_name(#[trigger] cs[i].name@)
            && no_hidden_below(cs[i]) by {
            assert(node_ok(cs[i], (d - 1) as nat, conceal));
        }
    }
}

} // verus!
