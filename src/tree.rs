use vstd::multiset::Multiset;
use vstd::prelude::*;

verus! {

broadcast use vstd::std_specs::vec::axiom_vec_index_decreases, vstd::seq_lib::group_to_multiset_ensures;

/// One entry of the size-weighted directory tree.
///
/// A file has no `children`; a directory carries a list of children, possibly
/// empty, but for the placeholder of a location that denies access, which
/// carries none.

pub struct DiskItem {
    pub name: String,
    pub path: String,
    pub size: u64,
    pub is_dir: bool,
    pub children: Option<Vec<DiskItem>>,
}

/// Sum of the sizes of a sequence of nodes, as a mathematical integer.
pub open spec fn sizes_sum(s: Seq<DiskItem>) -> int
    decreases s.len(),
{
    if s.len() == 0 {
        0
    } else {
        sizes_sum(s.drop_last()) + s.last().size
    }
}

/// A sum of sizes, saturated at the largest `u64`.
pub open spec fn saturated(x: int) -> u64 {
    if x <= u64::MAX {
        x as u64
    } else {
        u64::MAX
    }
}

/// Sizes are non-increasing along the sequence.
pub open spec fn sorted_desc(s: Seq<DiskItem>) -> bool {
    forall|i: int, j: int| 0 <= i < j < s.len() ==> s[i].size >= s[j].size
}

/// A leaf name that starts with a dot.
pub open spec fn hidden_name(name: Seq<char>) -> bool {
    name.len() > 0 && name[0] == '.'
}

/// Files carry no children.
pub open spec fn shape_ok(n: DiskItem) -> bool {
    !n.is_dir ==> n.children is None
}

/// The well-formedness of a whole tree: no file has children, every
/// non-empty list of children is sorted by size, descending, and a directory
/// whose children are listed has the (saturated) sum of their sizes.
pub open spec fn tree_wf(n: DiskItem) -> bool
    decreases n,
{
    shape_ok(n) && match n.children {
        None => true,
        Some(cs) => {
            sorted_desc(cs@) && (cs@.len() > 0 ==> n.size == saturated(sizes_sum(cs@)))
                && forall|i: int| 0 <= i < cs.len() ==> #[trigger] tree_wf(cs[i])
        },
    }
}

/// Nodes are materialized at most `d` levels below `n`.
pub open spec fn depth_within(n: DiskItem, d: nat) -> bool
    decreases n,
{
    match n.children {
        None => true,
        Some(cs) => (cs.len() > 0 ==> d > 0) && forall|i: int|
            0 <= i < cs.len() ==> #[trigger] depth_within(cs[i], (d - 1) as nat),
    }
}

/// No node below `n` has a hidden name.
pub open spec fn no_hidden_below(n: DiskItem) -> bool
    decreases n,
{
    match n.children {
        None => true,
        Some(cs) => forall|i: int|
            0 <= i < cs.len() ==> !hidden_name(#[trigger] cs[i].name@) && no_hidden_below(cs[i]),
    }
}


/// The test for a node of size `v`.
pub open spec fn size_is(v: u64) -> spec_fn(DiskItem) -> bool {
    |x: DiskItem| x.size == v
}

/// Nodes of each size come in the same order in `a` as in `b`.
pub open spec fn same_ties(a: Seq<DiskItem>, b: Seq<DiskItem>) -> bool {
    forall|v: u64| #[trigger] a.filter(size_is(v)) == b.filter(size_is(v))
}

proof fn lemma_none_of_size(s: Seq<DiskItem>, v: u64)
    requires
        forall|k: int| 0 <= k < s.len() ==> s[k].size < v,
    ensures
        s.filter(size_is(v)) == Seq::<DiskItem>::empty(),
{
    if s.filter(size_is(v)).len() > 0 {
        let y = s.filter(size_is(v))[0];
        s.lemma_filter_pred(size_is(v), 0);
        assert(s.filter(size_is(v)).contains(y));
        s.lemma_filter_contains_rev(size_is(v), y);
        let k = choose|k: int| 0 <= k < s.len() && s[k] == y;
        assert(s[k].size < v);
    }
    assert(s.filter(size_is(v)) =~= Seq::<DiskItem>::empty());
}

/// Sorts nodes by size, largest first. Nodes of equal size keep their
/// relative order.
pub fn sort_by_size_desc(items: Vec<DiskItem>) -> (r: Vec<DiskItem>)
    ensures
        sorted_desc(r@),
        r@.to_multiset() == items@.to_multiset(),
        same_ties(r@, items@),
{
    let mut out: Vec<DiskItem> = Vec::new();
    let ghost orig = items@;
    let mut rest = items;
    while rest.len() > 0
        invariant
            sorted_desc(out@),
            out@.to_multiset().add(rest@.to_multiset()) == orig.to_multiset(),
            forall|v: u64| #[trigger] orig.filter(size_is(v)) == out@.filter(size_is(v)) + rest@.filter(size_is(v)),
        decreases rest.len(),
    {
        let ghost rest_before = rest@;
        let x = rest.remove(0);
        assert(rest_before == rest@.insert(0, x));
        let mut pos: usize = 0;
        while pos < out.len() && out[pos].size >= x.size
            invariant
                pos <= out.len(),
                forall|k: int| 0 <= k < pos ==> out@[k].size >= x.size,
            decreases out.len() - pos,
        {
            pos = pos + 1;
        }
        proof {
            assert forall|k: int| pos <= k < out.len() implies out@[k].size < x.size by {
                assert(out@[pos as int].size < x.size);
            }
        }
        let ghost before = out@;
        out.insert(pos, x);
        assert(out@ == before.insert(pos as int, x));
        assert(out@.to_multiset() == before.to_multiset().insert(x));
        proof {
            let a = before.take(pos as int);
            let b = before.skip(pos as int);
            let one = seq![x];
            assert(before == a + b);
            assert(out@ == a + one + b);
            assert(rest_before == one + rest@);
            assert forall|v: u64| #[trigger] orig.filter(size_is(v)) == out@.filter(size_is(v))
                + rest@.filter(size_is(v)) by {
                Seq::filter_distributes_over_add(a, b, size_is(v));
                Seq::filter_distributes_over_add(a + one, b, size_is(v));
                Seq::filter_distributes_over_add(a, one, size_is(v));
                Seq::filter_distributes_over_add(one, rest@, size_is(v));
                reveal_with_fuel(Seq::filter, 2);
                assert(one.drop_last() =~= Seq::<DiskItem>::empty());
                if x.size == v {
                    lemma_none_of_size(b, v);
                    assert(out@.filter(size_is(v)) =~= a.filter(size_is(v)) + one);
                    assert(before.filter(size_is(v)) =~= a.filter(size_is(v)));
                    assert(rest_before.filter(size_is(v)) =~= one + rest@.filter(size_is(v)));
                } else {
                    assert(one.filter(size_is(v)) =~= Seq::<DiskItem>::empty());
                    assert(out@.filter(size_is(v)) =~= before.filter(size_is(v)));
                    assert(rest_before.filter(size_is(v)) =~= rest@.filter(size_is(v)));
                }
            }
        }
    }
    assert(rest@.to_multiset() =~= Multiset::empty());
    assert(out@.to_multiset() =~= orig.to_multiset());
    assert forall|v: u64| #[trigger] out@.filter(size_is(v)) == orig.filter(size_is(v)) by {
        assert(rest@.filter(size_is(v)) =~= Seq::<DiskItem>::empty());
        assert(out@.filter(size_is(v)) + rest@.filter(size_is(v)) =~= out@.filter(size_is(v)));
    }
    out
}

/// The saturated sum of the sizes of `items`.
pub fn total_size(items: &Vec<DiskItem>) -> (r: u64)
    ensures
        r == saturated(sizes_sum(items@)),
{
    let mut acc: u64 = 0;
    let mut i: usize = 0;
    while i < items.len()
        invariant
            i <= items.len(),
            acc == saturated(sizes_sum(items@.take(i as int))),
            sizes_sum(items@.take(i as int)) >= 0,
        decreases items.len() - i,
    {
        assert(items@.take(i + 1).drop_last() == items@.take(i as int));
        acc = acc.saturating_add(items[i].size);
        i = i + 1;
    }
    assert(items@.take(i as int) == items@);
    acc
}


/// A node for a file of `len` bytes.
pub fn file_node(name: String, path: String, len: u64) -> (r: DiskItem)
    ensures
        r.name == name && r.path == path,
        r.size == len,
        !r.is_dir && r.children is None,
        tree_wf(r),
{
    DiskItem { name, path, size: len, is_dir: false, children: None }
}

/// A directory node whose contents are not materialized: it carries `size`
/// and an empty list of children.
pub fn leaf_dir_node(name: String, path: String, size: u64) -> (r: DiskItem)
    ensures
        r.name == name && r.path == path,
        r.size == size,
        r.is_dir,
        r.children is Some && r.children->0@.len() == 0,
        tree_wf(r),
{
    DiskItem { name, path, size, is_dir: true, children: Some(Vec::new()) }
}

/// A directory node over `children`: they are sorted by size, largest first,
/// equal sizes in their given order, and the node's size is the sum of theirs.
pub fn dir_node(name: String, path: String, children: Vec<DiskItem>) -> (r: DiskItem)
    ensures
        r.name == name && r.path == path,
        r.is_dir,
        r.children is Some,
        sorted_desc(r.children->0@),
        r.children->0@.to_multiset() == children@.to_multiset(),
        same_ties(r.children->0@, children@),
        r.children->0@.len() == children@.len(),
        forall|i: int|
            0 <= i < r.children->0@.len() ==> children@.contains(#[trigger] r.children->0@[i]),
        r.size == saturated(sizes_sum(r.children->0@)),
        (forall|i: int| 0 <= i < children@.len() ==> #[trigger] tree_wf(children@[i])) ==> tree_wf(
            r,
        ),
{
    let ghost orig = children@;
    let sorted = sort_by_size_desc(children);
    let size = total_size(&sorted);
    proof {
        assert forall|i: int| 0 <= i < sorted@.len() implies orig.contains(#[trigger] sorted@[i]) by {
            assert(sorted@.contains(sorted@[i]));
            vstd::seq_lib::to_multiset_contains(sorted@, sorted@[i]);
            vstd::seq_lib::to_multiset_contains(orig, sorted@[i]);
        }
        assert(sorted@.len() == sorted@.to_multiset().len());
    }
    let r = DiskItem { name, path, size, is_dir: true, children: Some(sorted) };
    proof {
        if forall|i: int| 0 <= i < orig.len() ==> #[trigger] tree_wf(orig[i]) {
            assert forall|i: int| 0 <= i < sorted@.len() implies #[trigger] tree_wf(sorted[i]) by {
                assert(orig.contains(sorted@[i]));
                let j = choose|j: int| 0 <= j < orig.len() && orig[j] == sorted@[i];
                assert(tree_wf(orig[j]));
            }
            assert(r.children == Some(sorted));
            assert(forall|i: int| 0 <= i < sorted.len() ==> tree_wf(sorted[i]));
            assert(tree_wf(r));
        }
    }
    r
}

} // verus!
