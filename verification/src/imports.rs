//! Normalized import trees: one import declaration as an ordered sequence of
//! path segments, with an optional trailing nested list of sub-trees.
//!
//! The key invariant of every transformation in this module is that the
//! multiset of fully-qualified leaf paths represented by a list of trees is
//! preserved: normalization only changes tree shape.

use vstd::prelude::*;

use crate::sort::ItemOrdering;
use crate::sort::flip_ordering;
use crate::sort::lemma_name_cmp_total;
use crate::sort::name_cmp;

verus! {

broadcast use vstd::std_specs::vec::group_vec_axioms, vstd::seq::group_seq_axioms;

/// One node of a normalized import path.
#[derive(Debug)]
pub enum UseSegment {
    /// A plain identifier, optionally carrying a rename.
    Ident { name: String, alias: Option<String> },
    /// The `self` marker.
    Slf,
    /// The `super` marker.
    Super,
    /// The crate-root marker.
    CrateRoot,
    /// A glob.
    Glob,
    /// A nested list of sub-trees.
    List(Vec<UseTree>),
}

/// A normalized import tree: an ordered sequence of path segments, plus a
/// back-reference to the originating declaration's leading comment, kept so
/// the comment can be re-attached after reordering.
#[derive(Debug)]
pub struct UseTree {
    pub path: Vec<UseSegment>,
    pub comment: Option<String>,
}

/// Mathematical model of a path segment.
pub enum SegView {
    Ident { name: Seq<char>, alias: Option<Seq<char>> },
    Slf,
    Super,
    CrateRoot,
    Glob,
    List(Seq<TreeView>),
}

/// Mathematical model of an import tree.
pub struct TreeView {
    pub path: Seq<SegView>,
    pub comment: Option<Seq<char>>,
}

pub open spec fn seg_view(s: UseSegment) -> SegView
    decreases s,
{
    match s {
        UseSegment::Ident { name, alias } => SegView::Ident {
            name: name@,
            alias: match alias {
                Option::Some(a) => Option::Some(a@),
                Option::None => Option::None,
            },
        },
        UseSegment::Slf => SegView::Slf,
        UseSegment::Super => SegView::Super,
        UseSegment::CrateRoot => SegView::CrateRoot,
        UseSegment::Glob => SegView::Glob,
        UseSegment::List(ts) => SegView::List(trees_view(ts@)),
    }
}

pub open spec fn path_view(p: Seq<UseSegment>) -> Seq<SegView>
    decreases p,
{
    if p.len() == 0 {
        Seq::empty()
    } else {
        path_view(p.drop_last()).push(seg_view(p.last()))
    }
}

pub open spec fn tree_view(t: UseTree) -> TreeView
    decreases t,
{
    TreeView {
        path: path_view(t.path@),
        comment: match t.comment {
            Option::Some(c) => Option::Some(c@),
            Option::None => Option::None,
        },
    }
}

pub open spec fn trees_view(ts: Seq<UseTree>) -> Seq<TreeView>
    decreases ts,
{
    if ts.len() == 0 {
        Seq::empty()
    } else {
        trees_view(ts.drop_last()).push(tree_view(ts.last()))
    }
}

impl View for UseSegment {
    type V = SegView;

    open spec fn view(&self) -> SegView {
        seg_view(*self)
    }
}

impl View for UseTree {
    type V = TreeView;

    open spec fn view(&self) -> TreeView {
        tree_view(*self)
    }
}

pub proof fn lemma_path_view_len(p: Seq<UseSegment>)
    ensures
        path_view(p).len() == p.len(),
        forall|i: int| 0 <= i < p.len() ==> path_view(p)[i] == seg_view(p[i]),
    decreases p,
{
    if p.len() > 0 {
        lemma_path_view_len(p.drop_last());
    }
}

pub proof fn lemma_trees_view_len(ts: Seq<UseTree>)
    ensures
        trees_view(ts).len() == ts.len(),
        forall|i: int| 0 <= i < ts.len() ==> trees_view(ts)[i] == tree_view(ts[i]),
    decreases ts,
{
    if ts.len() > 0 {
        lemma_trees_view_len(ts.drop_last());
    }
}

/// The fully-qualified leaf paths represented by a path: a nested list in
/// trailing position contributes one leaf per leaf of each sub-tree, prefixed
/// with the leading segments; any other path is itself a single leaf.
pub open spec fn path_leaves(p: Seq<SegView>) -> Seq<Seq<SegView>>
    decreases p,
{
    if p.len() == 0 {
        seq![Seq::<SegView>::empty()]
    } else {
        match p.last() {
            SegView::List(ts) => prefix_paths(p.drop_last(), trees_leaves(ts)),
            _ => seq![p],
        }
    }
}

/// The leaf paths of a list of trees, in order.
pub open spec fn trees_leaves(ts: Seq<TreeView>) -> Seq<Seq<SegView>>
    decreases ts,
{
    if ts.len() == 0 {
        Seq::empty()
    } else {
        trees_leaves(ts.drop_last()) + path_leaves(ts.last().path)
    }
}

/// Every given leaf, prefixed with `prefix`.
pub open spec fn prefix_paths(prefix: Seq<SegView>, leaves: Seq<Seq<SegView>>) -> Seq<
    Seq<SegView>,
> {
    leaves.map_values(|l: Seq<SegView>| prefix + l)
}

/// The leaf paths of one tree.
pub open spec fn tree_leaves(t: TreeView) -> Seq<Seq<SegView>> {
    path_leaves(t.path)
}

/// Concatenating tree lists concatenates their leaves.
pub proof fn lemma_trees_leaves_concat(xs: Seq<TreeView>, ys: Seq<TreeView>)
    ensures
        trees_leaves(xs + ys) == trees_leaves(xs) + trees_leaves(ys),
    decreases ys,
{
    if ys.len() == 0 {
        assert(xs + ys =~= xs);
        assert(trees_leaves(xs) + Seq::<Seq<SegView>>::empty() =~= trees_leaves(xs));
    } else {
        lemma_trees_leaves_concat(xs, ys.drop_last());
        assert((xs + ys).drop_last() =~= xs + ys.drop_last());
        assert((xs + ys).last() == ys.last());
        assert(trees_leaves(xs) + trees_leaves(ys.drop_last()) + path_leaves(ys.last().path)
            =~= trees_leaves(xs) + (trees_leaves(ys.drop_last()) + path_leaves(ys.last().path)));
    }
}

/// Rank of a segment in the structural order:
/// `self < super < crate < identifier < nested list < glob`.
pub open spec fn seg_rank(s: SegView) -> int {
    match s {
        SegView::Slf => 0,
        SegView::Super => 1,
        SegView::CrateRoot => 2,
        SegView::Ident { .. } => 3,
        SegView::List(_) => 4,
        SegView::Glob => 5,
    }
}

/// A plain identifier sorts before the same identifier carrying an alias;
/// two aliased identifiers compare by their alias names.
pub open spec fn alias_cmp(legacy: bool, a: Option<Seq<char>>, b: Option<Seq<char>>) -> ItemOrdering {
    match (a, b) {
        (Option::None, Option::None) => ItemOrdering::Equal,
        (Option::None, Option::Some(_)) => ItemOrdering::Less,
        (Option::Some(_), Option::None) => ItemOrdering::Greater,
        (Option::Some(x), Option::Some(y)) => name_cmp(legacy, x, y),
    }
}

/// Structural order between two path segments.
pub open spec fn seg_cmp(legacy: bool, a: SegView, b: SegView) -> ItemOrdering
    decreases a,
{
    if seg_rank(a) < seg_rank(b) {
        ItemOrdering::Less
    } else if seg_rank(b) < seg_rank(a) {
        ItemOrdering::Greater
    } else {
        match (a, b) {
            (SegView::Ident { name: an, alias: aa }, SegView::Ident { name: bn, alias: ba }) => {
                let d = name_cmp(legacy, an, bn);
                if d != ItemOrdering::Equal {
                    d
                } else {
                    alias_cmp(legacy, aa, ba)
                }
            },
            (SegView::List(xs), SegView::List(ys)) => tree_list_cmp(legacy, xs, ys),
            _ => ItemOrdering::Equal,
        }
    }
}

/// Lexicographic order on segment sequences.
pub open spec fn path_cmp(legacy: bool, xs: Seq<SegView>, ys: Seq<SegView>) -> ItemOrdering
    decreases xs,
{
    if xs.len() == 0 && ys.len() == 0 {
        ItemOrdering::Equal
    } else if xs.len() == 0 {
        ItemOrdering::Less
    } else if ys.len() == 0 {
        ItemOrdering::Greater
    } else {
        let d = seg_cmp(legacy, xs.first(), ys.first());
        if d != ItemOrdering::Equal {
            d
        } else {
            path_cmp(legacy, xs.drop_first(), ys.drop_first())
        }
    }
}

/// Structural order between two import trees.
pub open spec fn tree_cmp(legacy: bool, a: TreeView, b: TreeView) -> ItemOrdering
    decreases a,
{
    path_cmp(legacy, a.path, b.path)
}

/// Lexicographic order on the sub-trees of two nested lists.
pub open spec fn tree_list_cmp(legacy: bool, xs: Seq<TreeView>, ys: Seq<TreeView>) -> ItemOrdering
    decreases xs,
{
    if xs.len() == 0 && ys.len() == 0 {
        ItemOrdering::Equal
    } else if xs.len() == 0 {
        ItemOrdering::Less
    } else if ys.len() == 0 {
        ItemOrdering::Greater
    } else {
        let d = tree_cmp(legacy, xs.first(), ys.first());
        if d != ItemOrdering::Equal {
            d
        } else {
            tree_list_cmp(legacy, xs.drop_first(), ys.drop_first())
        }
    }
}

/// Exchanging the arguments of the segment order flips its result.
pub proof fn lemma_seg_cmp_flip(legacy: bool, a: SegView, b: SegView)
    ensures
        seg_cmp(legacy, b, a) == flip_ordering(seg_cmp(legacy, a, b)),
    decreases a,
{
    match (a, b) {
        (SegView::Ident { name: an, alias: aa }, SegView::Ident { name: bn, alias: ba }) => {
            lemma_name_cmp_total(legacy, an, bn);
            match (aa, ba) {
                (Option::Some(x), Option::Some(y)) => {
                    lemma_name_cmp_total(legacy, x, y);
                },
                _ => {},
            }
        },
        (SegView::List(xs), SegView::List(ys)) => {
            lemma_tree_list_cmp_flip(legacy, xs, ys);
        },
        _ => {},
    }
}

/// Exchanging the arguments of the path order flips its result.
pub proof fn lemma_path_cmp_flip(legacy: bool, xs: Seq<SegView>, ys: Seq<SegView>)
    ensures
        path_cmp(legacy, ys, xs) == flip_ordering(path_cmp(legacy, xs, ys)),
    decreases xs,
{
    if xs.len() > 0 && ys.len() > 0 {
        lemma_seg_cmp_flip(legacy, xs.first(), ys.first());
        lemma_path_cmp_flip(legacy, xs.drop_first(), ys.drop_first());
    }
}

/// Exchanging the arguments of the tree order flips its result.
pub proof fn lemma_tree_cmp_flip(legacy: bool, a: TreeView, b: TreeView)
    ensures
        tree_cmp(legacy, b, a) == flip_ordering(tree_cmp(legacy, a, b)),
    decreases a,
{
    lemma_path_cmp_flip(legacy, a.path, b.path);
}

proof fn lemma_tree_list_cmp_flip(legacy: bool, xs: Seq<TreeView>, ys: Seq<TreeView>)
    ensures
        tree_list_cmp(legacy, ys, xs) == flip_ordering(tree_list_cmp(legacy, xs, ys)),
    decreases xs,
{
    if xs.len() > 0 && ys.len() > 0 {
        lemma_tree_cmp_flip(legacy, xs.first(), ys.first());
        lemma_tree_list_cmp_flip(legacy, xs.drop_first(), ys.drop_first());
    }
}

fn clone_string(s: &String) -> (r: String)
    ensures
        r@ == s@,
{
    s.clone()
}

fn clone_opt_string(s: &Option<String>) -> (r: Option<String>)
    ensures
        (match (r, s) {
            (Option::Some(x), Option::Some(y)) => x@ == y@,
            (Option::None, Option::None) => true,
            _ => false,
        }),
{
    match s {
        Option::Some(x) => Option::Some(x.clone()),
        Option::None => Option::None,
    }
}

pub fn clone_seg(s: &UseSegment) -> (r: UseSegment)
    ensures
        r@ == s@,
    decreases *s,
{
    match s {
        UseSegment::Ident { name, alias } => UseSegment::Ident {
            name: clone_string(name),
            alias: clone_opt_string(alias),
        },
        UseSegment::Slf => UseSegment::Slf,
        UseSegment::Super => UseSegment::Super,
        UseSegment::CrateRoot => UseSegment::CrateRoot,
        UseSegment::Glob => UseSegment::Glob,
        UseSegment::List(ts) => UseSegment::List(clone_trees(ts)),
    }
}

pub fn clone_path(p: &Vec<UseSegment>) -> (r: Vec<UseSegment>)
    ensures
        path_view(r@) == path_view(p@),
        r@.len() == p@.len(),
    decreases *p,
{
    let mut r: Vec<UseSegment> = Vec::new();
    let mut i: usize = 0;
    while i < p.len()
        invariant
            i <= p@.len(),
            path_view(r@) == path_view(p@.take(i as int)),
            r@.len() == i,
        decreases p@.len() - i,
    {
        let ghost prev = r@;
        let s = clone_seg(&p[i]);
        r.push(s);
        proof {
            assert(r@.drop_last() =~= prev);
            assert(p@.take(i + 1 as int).drop_last() =~= p@.take(i as int));
            assert(p@.take(i + 1 as int).last() == p@[i as int]);
        }
        i = i + 1;
    }
    proof {
        assert(p@.take(p@.len() as int) =~= p@);
    }
    r
}

pub fn clone_tree(t: &UseTree) -> (r: UseTree)
    ensures
        r@ == t@,
    decreases *t,
{
    UseTree { path: clone_path(&t.path), comment: clone_opt_string(&t.comment) }
}

pub fn clone_trees(ts: &Vec<UseTree>) -> (r: Vec<UseTree>)
    ensures
        trees_view(r@) == trees_view(ts@),
        r@.len() == ts@.len(),
    decreases *ts,
{
    let mut r: Vec<UseTree> = Vec::new();
    let mut i: usize = 0;
    while i < ts.len()
        invariant
            i <= ts@.len(),
            trees_view(r@) == trees_view(ts@.take(i as int)),
            r@.len() == i,
        decreases ts@.len() - i,
    {
        let ghost prev = r@;
        let t = clone_tree(&ts[i]);
        r.push(t);
        proof {
            assert(r@.drop_last() =~= prev);
            assert(ts@.take(i + 1 as int).drop_last() =~= ts@.take(i as int));
            assert(ts@.take(i + 1 as int).last() == ts@[i as int]);
        }
        i = i + 1;
    }
    proof {
        assert(ts@.take(ts@.len() as int) =~= ts@);
    }
    r
}

fn seg_rank_exec(s: &UseSegment) -> (r: u8)
    ensures
        r as int == seg_rank(s@),
{
    match s {
        UseSegment::Slf => 0,
        UseSegment::Super => 1,
        UseSegment::CrateRoot => 2,
        UseSegment::Ident { .. } => 3,
        UseSegment::List(_) => 4,
        UseSegment::Glob => 5,
    }
}

/// Structural comparison of two path segments.
pub fn compare_segs(legacy: bool, a: &UseSegment, b: &UseSegment) -> (o: ItemOrdering)
    ensures
        o == seg_cmp(legacy, a@, b@),
    decreases *a,
{
    let ra = seg_rank_exec(a);
    let rb = seg_rank_exec(b);
    if ra < rb {
        return ItemOrdering::Less;
    }
    if rb < ra {
        return ItemOrdering::Greater;
    }
    match (a, b) {
        (
            UseSegment::Ident { name: an, alias: aa },
            UseSegment::Ident { name: bn, alias: ba },
        ) => {
            let d = crate::sort::compare_names(legacy, an.as_str(), bn.as_str());
            if d != ItemOrdering::Equal {
                return d;
            }
            match (aa, ba) {
                (Option::None, Option::None) => ItemOrdering::Equal,
                (Option::None, Option::Some(_)) => ItemOrdering::Less,
                (Option::Some(_), Option::None) => ItemOrdering::Greater,
                (Option::Some(x), Option::Some(y)) => crate::sort::compare_names(
                    legacy,
                    x.as_str(),
                    y.as_str(),
                ),
            }
        },
        (UseSegment::List(xs), UseSegment::List(ys)) => compare_tree_lists(legacy, xs, ys),
        _ => ItemOrdering::Equal,
    }
}

fn compare_paths(legacy: bool, xs: &Vec<UseSegment>, ys: &Vec<UseSegment>) -> (o: ItemOrdering)
    ensures
        o == path_cmp(legacy, path_view(xs@), path_view(ys@)),
    decreases *xs,
{
    proof {
        lemma_path_view_len(xs@);
        lemma_path_view_len(ys@);
    }
    let ghost xv = path_view(xs@);
    let ghost yv = path_view(ys@);
    proof {
        assert(xv.skip(0) =~= xv);
        assert(yv.skip(0) =~= yv);
    }
    let mut i: usize = 0;
    loop
        invariant
            i <= xs@.len(),
            i <= ys@.len(),
            xv == path_view(xs@),
            yv == path_view(ys@),
            xv.len() == xs@.len(),
            yv.len() == ys@.len(),
            forall|k: int| 0 <= k < xs@.len() ==> xv[k] == seg_view(xs@[k]),
            forall|k: int| 0 <= k < ys@.len() ==> yv[k] == seg_view(ys@[k]),
            path_cmp(legacy, xv, yv) == path_cmp(legacy, xv.skip(i as int), yv.skip(i as int)),
        decreases xs@.len() - i,
    {
        if i == xs.len() && i == ys.len() {
            return ItemOrdering::Equal;
        }
        if i == xs.len() {
            return ItemOrdering::Less;
        }
        if i == ys.len() {
            return ItemOrdering::Greater;
        }
        let d = compare_segs(legacy, &xs[i], &ys[i]);
        proof {
            assert(xv.skip(i as int).first() == xv[i as int]);
            assert(yv.skip(i as int).first() == yv[i as int]);
            assert(xv.skip(i as int).drop_first() =~= xv.skip(i + 1));
            assert(yv.skip(i as int).drop_first() =~= yv.skip(i + 1));
        }
        if d != ItemOrdering::Equal {
            return d;
        }
        i = i + 1;
    }
}

/// Structural comparison of two import trees.
pub fn compare_use_trees(legacy: bool, a: &UseTree, b: &UseTree) -> (o: ItemOrdering)
    ensures
        o == tree_cmp(legacy, a@, b@),
    decreases *a,
{
    compare_paths(legacy, &a.path, &b.path)
}

fn compare_tree_lists(legacy: bool, xs: &Vec<UseTree>, ys: &Vec<UseTree>) -> (o: ItemOrdering)
    ensures
        o == tree_list_cmp(legacy, trees_view(xs@), trees_view(ys@)),
    decreases *xs,
{
    proof {
        lemma_trees_view_len(xs@);
        lemma_trees_view_len(ys@);
    }
    let ghost xv = trees_view(xs@);
    let ghost yv = trees_view(ys@);
    proof {
        assert(xv.skip(0) =~= xv);
        assert(yv.skip(0) =~= yv);
    }
    let mut i: usize = 0;
    loop
        invariant
            i <= xs@.len(),
            i <= ys@.len(),
            xv == trees_view(xs@),
            yv == trees_view(ys@),
            xv.len() == xs@.len(),
            yv.len() == ys@.len(),
            forall|k: int| 0 <= k < xs@.len() ==> xv[k] == tree_view(xs@[k]),
            forall|k: int| 0 <= k < ys@.len() ==> yv[k] == tree_view(ys@[k]),
            tree_list_cmp(legacy, xv, yv) == tree_list_cmp(
                legacy,
                xv.skip(i as int),
                yv.skip(i as int),
            ),
        decreases xs@.len() - i,
    {
        if i == xs.len() && i == ys.len() {
            return ItemOrdering::Equal;
        }
        if i == xs.len() {
            return ItemOrdering::Less;
        }
        if i == ys.len() {
            return ItemOrdering::Greater;
        }
        let d = compare_use_trees(legacy, &xs[i], &ys[i]);
        proof {
            assert(xv.skip(i as int).first() == xv[i as int]);
            assert(yv.skip(i as int).first() == yv[i as int]);
            assert(xv.skip(i as int).drop_first() =~= xv.skip(i + 1));
            assert(yv.skip(i as int).drop_first() =~= yv.skip(i + 1));
        }
        if d != ItemOrdering::Equal {
            return d;
        }
        i = i + 1;
    }
}

/// `t` inserted into `s` directly after the last element that does not
/// compare greater than it: the insertion step of a stable insertion sort.
pub open spec fn insert_tree_sorted(legacy: bool, t: TreeView, s: Seq<TreeView>) -> Seq<TreeView>
    decreases s,
{
    if s.len() == 0 {
        seq![t]
    } else if tree_cmp(legacy, s.last(), t) != ItemOrdering::Greater {
        s.push(t)
    } else {
        insert_tree_sorted(legacy, t, s.drop_last()).push(s.last())
    }
}

/// Stable insertion sort of a tree list under the structural order.
pub open spec fn sort_trees_spec(legacy: bool, s: Seq<TreeView>) -> Seq<TreeView>
    decreases s,
{
    if s.len() == 0 {
        Seq::empty()
    } else {
        insert_tree_sorted(legacy, s.last(), sort_trees_spec(legacy, s.drop_last()))
    }
}

/// Adjacent-pair sortedness under the structural order.
pub open spec fn trees_sorted(legacy: bool, s: Seq<TreeView>) -> bool {
    forall|i: int| 0 <= i && i + 1 < s.len() ==> #[trigger] tree_cmp(legacy, s[i], s[i + 1])
        != ItemOrdering::Greater
}

proof fn lemma_insert_tree_sorted(legacy: bool, t: TreeView, s: Seq<TreeView>)
    ensures
        insert_tree_sorted(legacy, t, s).len() == s.len() + 1,
        insert_tree_sorted(legacy, t, s).to_multiset() == s.to_multiset().insert(t),
        trees_sorted(legacy, s) ==> trees_sorted(legacy, insert_tree_sorted(legacy, t, s)),
        insert_tree_sorted(legacy, t, s).last() == t || (s.len() > 0 && insert_tree_sorted(
            legacy,
            t,
            s,
        ).last() == s.last()),
    decreases s,
{
    broadcast use vstd::seq_lib::group_to_multiset_ensures;

    if s.len() == 0 {
        assert(seq![t].drop_last() =~= Seq::<TreeView>::empty());
        assert(seq![t] =~= Seq::<TreeView>::empty().push(t));
    } else if tree_cmp(legacy, s.last(), t) != ItemOrdering::Greater {
        if trees_sorted(legacy, s) {
            assert forall|i: int| 0 <= i && i + 1 < s.push(t).len() implies #[trigger] tree_cmp(
                legacy,
                s.push(t)[i],
                s.push(t)[i + 1],
            ) != ItemOrdering::Greater by {
                if i + 1 < s.len() {
                    assert(tree_cmp(legacy, s[i], s[i + 1]) != ItemOrdering::Greater);
                }
            }
        }
    } else {
        lemma_insert_tree_sorted(legacy, t, s.drop_last());
        lemma_tree_cmp_flip(legacy, s.last(), t);
        let r0 = insert_tree_sorted(legacy, t, s.drop_last());
        let r = r0.push(s.last());
        assert(s =~= s.drop_last().push(s.last()));
        assert(s.to_multiset() == s.drop_last().to_multiset().insert(s.last()));
        assert(r.to_multiset() == r0.to_multiset().insert(s.last()));
        assert(r.to_multiset() =~= s.to_multiset().insert(t));
        if trees_sorted(legacy, s) {
            assert(trees_sorted(legacy, s.drop_last())) by {
                assert forall|i: int| 0 <= i && i + 1 < s.drop_last().len() implies #[trigger] tree_cmp(
                    legacy,
                    s.drop_last()[i],
                    s.drop_last()[i + 1],
                ) != ItemOrdering::Greater by {
                    assert(tree_cmp(legacy, s[i], s[i + 1]) != ItemOrdering::Greater);
                }
            }
            assert(trees_sorted(legacy, r0));
            // the element now preceding `s.last()` is either `t` (inserted
            // below it) or the element that preceded it before
            assert(r0.last() == t || (s.drop_last().len() > 0 && r0.last() == s.drop_last().last()));
            assert forall|i: int| 0 <= i && i + 1 < r.len() implies #[trigger] tree_cmp(
                legacy,
                r[i],
                r[i + 1],
            ) != ItemOrdering::Greater by {
                if i + 1 < r0.len() {
                    assert(r[i] == r0[i] && r[i + 1] == r0[i + 1]);
                } else {
                    assert(r[i] == r0.last() && r[i + 1] == s.last());
                    if r0.last() == t {
                        assert(tree_cmp(legacy, t, s.last()) != ItemOrdering::Greater);
                    } else {
                        assert(s.drop_last().len() > 0 && r0.last() == s.drop_last().last());
                        let k = s.len() - 2;
                        assert(s[k] == s.drop_last().last() && s[k + 1] == s.last());
                        assert(tree_cmp(legacy, s[k], s[k + 1]) != ItemOrdering::Greater);
                    }
                }
            }
        }
    }
}

/// Law: sorting produces an adjacently sorted list with the same multiset of
/// trees as the input.
pub proof fn lemma_sort_trees_spec_ensures(legacy: bool, s: Seq<TreeView>)
    ensures
        sort_trees_spec(legacy, s).len() == s.len(),
        sort_trees_spec(legacy, s).to_multiset() == s.to_multiset(),
        trees_sorted(legacy, sort_trees_spec(legacy, s)),
    decreases s,
{
    broadcast use vstd::seq_lib::group_to_multiset_ensures;

    if s.len() > 0 {
        lemma_sort_trees_spec_ensures(legacy, s.drop_last());
        lemma_insert_tree_sorted(legacy, s.last(), sort_trees_spec(legacy, s.drop_last()));
        assert(s =~= s.drop_last().push(s.last()));
        assert(s.to_multiset() == s.drop_last().to_multiset().insert(s.last()));
    }
}

/// Law: sorting is stable under repeated application — sorting an already
/// sorted list leaves it unchanged, so re-running the sort reproduces its own
/// output byte for byte.
pub proof fn lemma_sort_trees_idempotent(legacy: bool, s: Seq<TreeView>)
    requires
        trees_sorted(legacy, s),
    ensures
        sort_trees_spec(legacy, s) == s,
    decreases s,
{
    if s.len() > 0 {
        assert(trees_sorted(legacy, s.drop_last())) by {
            assert forall|i: int| 0 <= i && i + 1 < s.drop_last().len() implies #[trigger] tree_cmp(
                legacy,
                s.drop_last()[i],
                s.drop_last()[i + 1],
            ) != ItemOrdering::Greater by {
                assert(tree_cmp(legacy, s[i], s[i + 1]) != ItemOrdering::Greater);
            }
        }
        lemma_sort_trees_idempotent(legacy, s.drop_last());
        if s.len() == 1 {
            assert(sort_trees_spec(legacy, s) =~= s);
        } else {
            let k = s.len() - 2;
            assert(s[k] == s.drop_last().last() && s[k + 1] == s.last());
            assert(tree_cmp(legacy, s.drop_last().last(), s.last()) != ItemOrdering::Greater);
            assert(sort_trees_spec(legacy, s) =~= s);
        }
    } else {
        assert(sort_trees_spec(legacy, s) =~= s);
    }
}

fn insert_tree(legacy: bool, s: Vec<UseTree>, t: UseTree) -> (r: Vec<UseTree>)
    ensures
        trees_view(r@) == insert_tree_sorted(legacy, t@, trees_view(s@)),
    decreases s@.len(),
{
    let mut s = s;
    if s.len() == 0 {
        proof {
            lemma_trees_view_len(s@);
        }
        s.push(t);
        proof {
            lemma_trees_view_len(s@);
            assert(trees_view(s@) =~= seq![tree_view(t)]);
        }
        s
    } else {
        let ghost sv = trees_view(s@);
        proof {
            lemma_trees_view_len(s@);
        }
        let d = compare_use_trees(legacy, &s[s.len() - 1], &t);
        proof {
            assert(sv.last() == tree_view(s@.last()));
        }
        if d == ItemOrdering::Greater {
            let last = s.pop().unwrap();
            proof {
                assert(sv.drop_last() =~= trees_view(s@));
            }
            let mut r = insert_tree(legacy, s, t);
            let ghost rv = trees_view(r@);
            let ghost prevr = r@;
            r.push(last);
            proof {
                assert(r@.drop_last() =~= prevr);
                assert(trees_view(r@) == trees_view(r@.drop_last()).push(tree_view(r@.last())));
                assert(trees_view(r@) == rv.push(tree_view(last)));
            }
            r
        } else {
            let ghost prev = s@;
            s.push(t);
            proof {
                assert(s@.drop_last() =~= prev);
                assert(trees_view(s@) == trees_view(s@.drop_last()).push(tree_view(s@.last())));
            }
            s
        }
    }
}

/// Stable insertion sort of import trees under the structural order.
pub fn sort_use_trees(legacy: bool, ts: Vec<UseTree>) -> (r: Vec<UseTree>)
    ensures
        trees_view(r@) == sort_trees_spec(legacy, trees_view(ts@)),
    decreases ts@.len(),
{
    let mut ts = ts;
    let ghost tv = trees_view(ts@);
    proof {
        lemma_trees_view_len(ts@);
    }
    match ts.pop() {
        Option::None => {
            proof {
                assert(trees_view(ts@) =~= Seq::<TreeView>::empty());
            }
            ts
        },
        Option::Some(t) => {
            proof {
                assert(trees_view(ts@) =~= tv.drop_last()) by {
                    lemma_trees_view_len(ts@);
                }
                assert(tree_view(t) == tv.last());
            }
            let sorted = sort_use_trees(legacy, ts);
            insert_tree(legacy, sorted, t)
        },
    }
}

/// A leaf path: a segment sequence holding no nested list anywhere.
pub open spec fn is_leaf_path(p: Seq<SegView>) -> bool {
    forall|i: int| 0 <= i < p.len() ==> !(#[trigger] p[i] is List)
}

/// Every tree in the list is a single leaf path.
pub open spec fn all_leaf_trees(ts: Seq<TreeView>) -> bool {
    forall|i: int| 0 <= i < ts.len() ==> is_leaf_path(#[trigger] ts[i].path)
}

/// No tree in the list carries a comment back-reference.
pub open spec fn no_comments(ts: Seq<TreeView>) -> bool {
    forall|i: int| 0 <= i < ts.len() ==> (#[trigger] ts[i]).comment is None
}

/// A well-formed path: a nested list may stand only in trailing position,
/// and its sub-trees are themselves well formed.
pub open spec fn path_wf(p: Seq<SegView>) -> bool
    decreases p,
{
    (forall|i: int| 0 <= i < p.len() - 1 ==> !(#[trigger] p[i] is List)) && (p.len() == 0 || match p.last() {
        SegView::List(ts) => trees_wf(ts),
        _ => true,
    })
}

pub open spec fn trees_wf(ts: Seq<TreeView>) -> bool
    decreases ts,
{
    if ts.len() == 0 {
        true
    } else {
        trees_wf(ts.drop_last()) && path_wf(ts.last().path)
    }
}

/// One single-leaf tree per leaf path.
pub open spec fn leaves_to_trees(leaves: Seq<Seq<SegView>>) -> Seq<TreeView> {
    leaves.map_values(|l: Seq<SegView>| TreeView { path: l, comment: Option::None })
}

/// The leaves of a list of single-leaf trees are exactly the given paths.
pub proof fn lemma_leaves_to_trees_leaves(leaves: Seq<Seq<SegView>>)
    requires
        forall|i: int| 0 <= i < leaves.len() ==> is_leaf_path(#[trigger] leaves[i]),
    ensures
        trees_leaves(leaves_to_trees(leaves)) == leaves,
        all_leaf_trees(leaves_to_trees(leaves)),
    decreases leaves.len(),
{
    if leaves.len() > 0 {
        lemma_leaves_to_trees_leaves(leaves.drop_last());
        let ts = leaves_to_trees(leaves);
        assert(ts.drop_last() =~= leaves_to_trees(leaves.drop_last()));
        let l = leaves.last();
        assert(is_leaf_path(l));
        assert(path_leaves(l) =~= seq![l]) by {
            if l.len() > 0 {
                assert(!(l[l.len() - 1] is List));
            } else {
                assert(l =~= Seq::<SegView>::empty());
            }
        }
        assert(trees_leaves(ts) =~= leaves);
    } else {
        assert(trees_leaves(leaves_to_trees(leaves)) =~= leaves);
    }
}

/// The leaves of a well-formed path are leaf paths.
pub proof fn lemma_path_leaves_are_leaves(p: Seq<SegView>)
    requires
        path_wf(p),
    ensures
        forall|i: int| 0 <= i < path_leaves(p).len() ==> is_leaf_path(#[trigger] path_leaves(p)[i]),
    decreases p,
{
    if p.len() == 0 {
    } else {
        match p.last() {
            SegView::List(ts) => {
                lemma_trees_leaves_are_leaves(ts);
                assert forall|i: int| 0 <= i < path_leaves(p).len() implies is_leaf_path(
                    #[trigger] path_leaves(p)[i],
                ) by {
                    let l = trees_leaves(ts)[i];
                    assert(path_leaves(p)[i] == p.drop_last() + l);
                    assert(is_leaf_path(l));
                    assert forall|k: int| 0 <= k < (p.drop_last() + l).len() implies !(
                    #[trigger] (p.drop_last() + l)[k] is List) by {
                        if k < p.drop_last().len() {
                            assert(!(p[k] is List));
                        }
                    }
                }
            },
            _ => {
                assert(path_leaves(p) == seq![p]);
                assert forall|k: int| 0 <= k < p.len() implies !(#[trigger] p[k] is List) by {
                    if k < p.len() - 1 {
                    } else {
                        assert(p[k] == p.last());
                    }
                }
            },
        }
    }
}

pub proof fn lemma_trees_leaves_are_leaves(ts: Seq<TreeView>)
    requires
        trees_wf(ts),
    ensures
        forall|i: int| 0 <= i < trees_leaves(ts).len() ==> is_leaf_path(
            #[trigger] trees_leaves(ts)[i],
        ),
    decreases ts,
{
    if ts.len() > 0 {
        lemma_trees_leaves_are_leaves(ts.drop_last());
        lemma_path_leaves_are_leaves(ts.last().path);
        let dl = trees_leaves(ts.drop_last());
        let pl = path_leaves(ts.last().path);
        assert forall|i: int| 0 <= i < trees_leaves(ts).len() implies is_leaf_path(
            #[trigger] trees_leaves(ts)[i],
        ) by {
            if i < dl.len() {
                assert(trees_leaves(ts)[i] == dl[i]);
            } else {
                assert(trees_leaves(ts)[i] == pl[i - dl.len()]);
            }
        }
    }
}

pub proof fn lemma_path_view_concat(a: Seq<UseSegment>, b: Seq<UseSegment>)
    ensures
        path_view(a + b) == path_view(a) + path_view(b),
{
    lemma_path_view_len(a);
    lemma_path_view_len(b);
    lemma_path_view_len(a + b);
    assert(path_view(a + b) =~= path_view(a) + path_view(b));
}

/// The paths of the given trees, in order.
pub open spec fn tree_paths(ts: Seq<TreeView>) -> Seq<Seq<SegView>> {
    ts.map_values(|t: TreeView| t.path)
}

/// The prefix under which a leaf merges: its first segment at crate
/// granularity, everything up to its last segment at module granularity.
pub open spec fn merge_prefix(modlevel: bool, l: Seq<SegView>) -> Seq<SegView> {
    if modlevel {
        l.drop_last()
    } else {
        l.subrange(0, 1)
    }
}

/// What remains of a leaf below its merge prefix.
pub open spec fn merge_tail(modlevel: bool, l: Seq<SegView>) -> Seq<SegView> {
    if modlevel {
        seq![l.last()]
    } else {
        l.drop_first()
    }
}

/// A leaf takes part in the merge group of `key` when it is long enough to
/// split and its merge prefix is exactly `key`.
pub open spec fn leaf_matches(modlevel: bool, key: Seq<SegView>, l: Seq<SegView>) -> bool {
    l.len() >= 2 && merge_prefix(modlevel, l) == key
}

pub open spec fn group_of(modlevel: bool, key: Seq<SegView>, rest: Seq<Seq<SegView>>) -> Seq<
    Seq<SegView>,
> {
    rest.filter(|l: Seq<SegView>| leaf_matches(modlevel, key, l))
}

pub open spec fn remaining_of(modlevel: bool, key: Seq<SegView>, rest: Seq<Seq<SegView>>) -> Seq<
    Seq<SegView>,
> {
    rest.filter(|l: Seq<SegView>| !leaf_matches(modlevel, key, l))
}

pub open spec fn group_tails(modlevel: bool, g: Seq<Seq<SegView>>) -> Seq<Seq<SegView>> {
    g.map_values(|l: Seq<SegView>| merge_tail(modlevel, l))
}

/// Merging a list of leaf paths: leaves sharing a merge prefix with the first
/// unprocessed leaf combine into one nested tree under that prefix, with the
/// sub-trees sorted structurally; other leaves keep their own tree. Groups
/// appear in order of first occurrence.
pub open spec fn merge_leaves_spec(legacy: bool, modlevel: bool, leaves: Seq<Seq<SegView>>) -> Seq<
    TreeView,
>
    decreases leaves.len(),
    via merge_leaves_spec_decreases
{
    if leaves.len() == 0 {
        Seq::empty()
    } else {
        let l0 = leaves.first();
        let rest = leaves.drop_first();
        if l0.len() < 2 {
            seq![TreeView { path: l0, comment: Option::None }] + merge_leaves_spec(
                legacy,
                modlevel,
                rest,
            )
        } else {
            let key = merge_prefix(modlevel, l0);
            let group = group_of(modlevel, key, rest);
            let remaining = remaining_of(modlevel, key, rest);
            if group.len() == 0 {
                seq![TreeView { path: l0, comment: Option::None }] + merge_leaves_spec(
                    legacy,
                    modlevel,
                    remaining,
                )
            } else {
                let children = sort_trees_spec(
                    legacy,
                    leaves_to_trees(seq![merge_tail(modlevel, l0)] + group_tails(modlevel, group)),
                );
                seq![
                    TreeView { path: key.push(SegView::List(children)), comment: Option::None },
                ] + merge_leaves_spec(
                    legacy,
                    modlevel,
                    remaining,
                )
            }
        }
    }
}

#[via_fn]
proof fn merge_leaves_spec_decreases(legacy: bool, modlevel: bool, leaves: Seq<Seq<SegView>>) {
    broadcast use vstd::seq_lib::group_filter_ensures;

    if leaves.len() > 0 {
        let l0 = leaves.first();
        let rest = leaves.drop_first();
        let key = merge_prefix(modlevel, l0);
        assert(remaining_of(modlevel, key, rest).len() <= rest.len());
    }
}

/// Merging the whole run into one nested tree.
pub open spec fn one_merge_spec(legacy: bool, leaves: Seq<Seq<SegView>>) -> Seq<TreeView> {
    if leaves.len() <= 1 {
        leaves_to_trees(leaves)
    } else {
        seq![
            TreeView {
                path: seq![SegView::List(sort_trees_spec(legacy, leaves_to_trees(leaves)))],
                comment: Option::None,
            },
        ]
    }
}

/// Normalization per the configured granularity, over the mathematical model.
pub open spec fn normalize_spec(
    legacy: bool,
    g: crate::config::ImportGranularity,
    ts: Seq<TreeView>,
) -> Seq<TreeView> {
    match g {
        crate::config::ImportGranularity::Preserve => ts,
        crate::config::ImportGranularity::Item => leaves_to_trees(trees_leaves(ts)),
        crate::config::ImportGranularity::Crate => merge_leaves_spec(legacy, false, trees_leaves(ts)),
        crate::config::ImportGranularity::Module => merge_leaves_spec(legacy, true, trees_leaves(ts)),
        crate::config::ImportGranularity::One => one_merge_spec(legacy, trees_leaves(ts)),
    }
}

proof fn lemma_insert_tree_leaves(legacy: bool, t: TreeView, s: Seq<TreeView>)
    ensures
        trees_leaves(insert_tree_sorted(legacy, t, s)).to_multiset() == trees_leaves(
            s.push(t),
        ).to_multiset(),
    decreases s,
{
    broadcast use vstd::seq_lib::group_to_multiset_ensures;
    broadcast use vstd::seq_lib::lemma_multiset_commutative;

    if s.len() == 0 {
        assert(s.push(t) =~= seq![t]);
    } else if tree_cmp(legacy, s.last(), t) != ItemOrdering::Greater {
    } else {
        lemma_insert_tree_leaves(legacy, t, s.drop_last());
        let r0 = insert_tree_sorted(legacy, t, s.drop_last());
        let r = r0.push(s.last());
        assert(r.drop_last() =~= r0);
        assert(trees_leaves(r) == trees_leaves(r0) + path_leaves(s.last().path));
        assert(s.drop_last().push(t).drop_last() =~= s.drop_last());
        assert(trees_leaves(s.drop_last().push(t)) == trees_leaves(s.drop_last()) + path_leaves(
            t.path,
        ));
        assert(s.push(t).drop_last() =~= s);
        assert(trees_leaves(s.push(t)) == trees_leaves(s) + path_leaves(t.path));
        assert(trees_leaves(s) == trees_leaves(s.drop_last()) + path_leaves(s.last().path));
        assert(trees_leaves(r).to_multiset() =~= trees_leaves(s.push(t)).to_multiset());
    }
}

/// Law: sorting a tree list preserves the multiset of leaf paths.
pub proof fn lemma_sort_trees_leaves(legacy: bool, s: Seq<TreeView>)
    ensures
        trees_leaves(sort_trees_spec(legacy, s)).to_multiset() == trees_leaves(s).to_multiset(),
    decreases s,
{
    if s.len() > 0 {
        lemma_sort_trees_leaves(legacy, s.drop_last());
        lemma_insert_tree_leaves(legacy, s.last(), sort_trees_spec(legacy, s.drop_last()));
        broadcast use vstd::seq_lib::group_to_multiset_ensures;
        broadcast use vstd::seq_lib::lemma_multiset_commutative;

        let s0 = sort_trees_spec(legacy, s.drop_last());
        assert(s0.push(s.last()).drop_last() =~= s0);
        assert(trees_leaves(s0.push(s.last())) == trees_leaves(s0) + path_leaves(s.last().path));
        assert(trees_leaves(s) == trees_leaves(s.drop_last()) + path_leaves(s.last().path));
        assert(trees_leaves(sort_trees_spec(legacy, s)).to_multiset() =~= trees_leaves(
            s,
        ).to_multiset());
    }
}

/// A permutation of leaves stays a permutation after prefixing each with the
/// same path.
proof fn lemma_prefix_paths_perm(prefix: Seq<SegView>, a: Seq<Seq<SegView>>, b: Seq<Seq<SegView>>)
    requires
        a.to_multiset() == b.to_multiset(),
    ensures
        prefix_paths(prefix, a).to_multiset() == prefix_paths(prefix, b).to_multiset(),
    decreases a.len(),
{
    broadcast use vstd::seq_lib::group_to_multiset_ensures;

    if a.len() == 0 {
        assert(a.to_multiset().len() == a.len());
        assert(b.to_multiset().len() == b.len());
        assert(b.len() == 0);
        assert(prefix_paths(prefix, a).to_multiset() =~= prefix_paths(prefix, b).to_multiset());
    } else {
        let x = a.last();
        assert(a.drop_last().push(x) =~= a);
        assert(a.drop_last().push(x).to_multiset() =~= a.drop_last().to_multiset().insert(x));
        assert(b.to_multiset().count(x) > 0);
        assert(b.contains(x));
        let i = choose|i: int| 0 <= i < b.len() && b[i] == x;
        let b2 = b.remove(i);
        assert(b2.to_multiset() =~= b.to_multiset().remove(x));
        assert(a.drop_last().to_multiset() =~= b2.to_multiset());
        lemma_prefix_paths_perm(prefix, a.drop_last(), b2);
        let ma = prefix_paths(prefix, a);
        let mb = prefix_paths(prefix, b);
        assert(ma =~= prefix_paths(prefix, a.drop_last()).push(prefix + x));
        assert(prefix_paths(prefix, a.drop_last()).push(prefix + x).to_multiset()
            =~= prefix_paths(prefix, a.drop_last()).to_multiset().insert(prefix + x));
        assert(prefix_paths(prefix, b2) =~= mb.remove(i));
        assert(mb[i] == prefix + x);
        assert(mb.remove(i).to_multiset() =~= mb.to_multiset().remove(prefix + x));
        assert(mb.to_multiset().count(prefix + x) > 0);
        assert(ma.to_multiset() =~= mb.to_multiset());
    }
}

/// The merge group and the rest of the leaves partition the input.
proof fn lemma_group_partition(modlevel: bool, key: Seq<SegView>, rest: Seq<Seq<SegView>>)
    ensures
        group_of(modlevel, key, rest).to_multiset().add(
            remaining_of(modlevel, key, rest).to_multiset(),
        ) == rest.to_multiset(),
    decreases rest.len(),
{
    broadcast use vstd::seq_lib::group_to_multiset_ensures;

    if rest.len() == 0 {
        assert(group_of(modlevel, key, rest).to_multiset().add(
            remaining_of(modlevel, key, rest).to_multiset(),
        ) =~= rest.to_multiset());
    } else {
        let dl = rest.drop_last();
        lemma_group_partition(modlevel, key, dl);
        assert(dl.push(rest.last()) =~= rest);
        reveal_with_fuel(Seq::filter, 2);
        assert(group_of(modlevel, key, rest).to_multiset().add(
            remaining_of(modlevel, key, rest).to_multiset(),
        ) =~= rest.to_multiset());
    }
}

/// Both parts of the merge partition consist of leaf paths drawn from the
/// input, and every member of the group satisfies the grouping predicate.
proof fn lemma_filtered_leaves(modlevel: bool, key: Seq<SegView>, rest: Seq<Seq<SegView>>)
    requires
        forall|i: int| 0 <= i < rest.len() ==> is_leaf_path(#[trigger] rest[i]),
    ensures
        forall|i: int|
            0 <= i < group_of(modlevel, key, rest).len() ==> is_leaf_path(
                #[trigger] group_of(modlevel, key, rest)[i],
            ) && leaf_matches(modlevel, key, group_of(modlevel, key, rest)[i]),
        forall|i: int|
            0 <= i < remaining_of(modlevel, key, rest).len() ==> is_leaf_path(
                #[trigger] remaining_of(modlevel, key, rest)[i],
            ),
    decreases rest.len(),
{
    if rest.len() > 0 {
        let dl = rest.drop_last();
        assert(forall|i: int| 0 <= i < dl.len() ==> is_leaf_path(#[trigger] dl[i])) by {
            assert(forall|i: int| 0 <= i < dl.len() ==> dl[i] == rest[i]);
        }
        lemma_filtered_leaves(modlevel, key, dl);
        assert(dl.push(rest.last()) =~= rest);
        assert(is_leaf_path(rest.last()));
        reveal_with_fuel(Seq::filter, 2);
        let g = group_of(modlevel, key, rest);
        let gd = group_of(modlevel, key, dl);
        let r = remaining_of(modlevel, key, rest);
        let rd = remaining_of(modlevel, key, dl);
        assert(g == gd || g == gd.push(rest.last()));
        assert(r == rd || r == rd.push(rest.last()));
    }
}

/// Law: merging leaf paths at crate or module granularity preserves the
/// multiset of leaf paths.
pub proof fn lemma_merge_preserves_leaves(legacy: bool, modlevel: bool, leaves: Seq<Seq<SegView>>)
    requires
        forall|i: int| 0 <= i < leaves.len() ==> is_leaf_path(#[trigger] leaves[i]),
    ensures
        trees_leaves(merge_leaves_spec(legacy, modlevel, leaves)).to_multiset()
            == leaves.to_multiset(),
    decreases leaves.len(),
{
    broadcast use vstd::seq_lib::group_to_multiset_ensures;
    broadcast use vstd::seq_lib::lemma_multiset_commutative;
    broadcast use vstd::seq_lib::group_filter_ensures;

    if leaves.len() == 0 {
        assert(trees_leaves(merge_leaves_spec(legacy, modlevel, leaves)).to_multiset()
            =~= leaves.to_multiset());
    } else {
        let l0 = leaves.first();
        let rest = leaves.drop_first();
        assert(is_leaf_path(l0));
        assert(forall|i: int| 0 <= i < rest.len() ==> is_leaf_path(#[trigger] rest[i])) by {
            assert(forall|i: int| 0 <= i < rest.len() ==> rest[i] == leaves[i + 1]);
        }
        assert(seq![l0] + rest =~= leaves);
        let t0 = TreeView { path: l0, comment: Option::None };
        assert(path_leaves(l0) =~= seq![l0]) by {
            if l0.len() > 0 {
                assert(!(l0[l0.len() - 1] is List));
            } else {
                assert(l0 =~= Seq::<SegView>::empty());
            }
        }
        assert(seq![t0].drop_last() =~= Seq::<TreeView>::empty());
        assert(Seq::<Seq<SegView>>::empty() + path_leaves(l0) =~= path_leaves(l0));
        assert(trees_leaves(Seq::<TreeView>::empty()) == Seq::<Seq<SegView>>::empty());
        assert(trees_leaves(seq![t0]) == trees_leaves(seq![t0].drop_last()) + path_leaves(
            seq![t0].last().path,
        ));
        assert(seq![t0].last().path == l0);
        assert(trees_leaves(seq![t0]) =~= seq![l0]);
        if l0.len() < 2 {
            lemma_merge_preserves_leaves(legacy, modlevel, rest);
            let m = merge_leaves_spec(legacy, modlevel, rest);
            lemma_trees_leaves_concat(seq![t0], m);
            assert(trees_leaves(seq![t0] + m).to_multiset() =~= leaves.to_multiset());
        } else {
            let key = merge_prefix(modlevel, l0);
            let group = group_of(modlevel, key, rest);
            let remaining = remaining_of(modlevel, key, rest);
            lemma_group_partition(modlevel, key, rest);
            lemma_filtered_leaves(modlevel, key, rest);
            lemma_merge_preserves_leaves(legacy, modlevel, remaining);
            let m = merge_leaves_spec(legacy, modlevel, remaining);
            if group.len() == 0 {
                lemma_trees_leaves_concat(seq![t0], m);
                assert(group.to_multiset().len() == 0);
                assert(remaining.to_multiset() =~= rest.to_multiset());
                assert(trees_leaves(seq![t0] + m).to_multiset() =~= leaves.to_multiset());
            } else {
                let tails = seq![merge_tail(modlevel, l0)] + group_tails(modlevel, group);
                let unsorted = leaves_to_trees(tails);
                let children = sort_trees_spec(legacy, unsorted);
                let t = TreeView { path: key.push(SegView::List(children)), comment: Option::None };
                // the merged tree's leaves are the group's leaves, permuted
                assert(forall|i: int| 0 <= i < tails.len() ==> is_leaf_path(#[trigger] tails[i]))
                    by {
                    assert forall|i: int| 0 <= i < tails.len() implies is_leaf_path(
                        #[trigger] tails[i],
                    ) by {
                        if i == 0 {
                            assert(tails[0] == merge_tail(modlevel, l0));
                            assert forall|k: int|
                                0 <= k < merge_tail(modlevel, l0).len() implies !(
                            #[trigger] merge_tail(modlevel, l0)[k] is List) by {
                                if modlevel {
                                    assert(merge_tail(modlevel, l0)[k] == l0[l0.len() - 1]);
                                } else {
                                    assert(merge_tail(modlevel, l0)[k] == l0[k + 1]);
                                }
                            }
                        } else {
                            let g = group[i - 1];
                            assert(tails[i] == merge_tail(modlevel, g));
                            assert(is_leaf_path(g) && leaf_matches(modlevel, key, g));
                            assert forall|k2: int|
                                0 <= k2 < merge_tail(modlevel, g).len() implies !(
                            #[trigger] merge_tail(modlevel, g)[k2] is List) by {
                                if modlevel {
                                    assert(merge_tail(modlevel, g)[k2] == g[g.len() - 1]);
                                } else {
                                    assert(merge_tail(modlevel, g)[k2] == g[k2 + 1]);
                                }
                            }
                        }
                    }
                }
                lemma_leaves_to_trees_leaves(tails);
                lemma_sort_trees_leaves(legacy, unsorted);
                lemma_prefix_paths_perm(key, trees_leaves(children), tails);
                assert(t.path.drop_last() =~= key);
                assert(t.path.last() == SegView::List(children));
                assert(path_leaves(t.path) == prefix_paths(key, trees_leaves(children)));
                assert(prefix_paths(key, tails) =~= seq![l0] + group) by {
                    assert forall|i: int| 0 <= i < tails.len() implies prefix_paths(key, tails)[i]
                        == (seq![l0] + group)[i] by {
                        if i == 0 {
                            assert(key + merge_tail(modlevel, l0) =~= l0);
                        } else {
                            let g = group[i - 1];
                            assert(leaf_matches(modlevel, key, g));
                            assert(key + merge_tail(modlevel, g) =~= g);
                        }
                    }
                }
                assert(trees_leaves(seq![t]).to_multiset() =~= (seq![l0] + group).to_multiset())
                    by {
                    assert(seq![t].drop_last() =~= Seq::<TreeView>::empty());
                    assert(Seq::<Seq<SegView>>::empty() + path_leaves(t.path) =~= path_leaves(
                        t.path,
                    ));
                    assert(trees_leaves(Seq::<TreeView>::empty()) == Seq::<Seq<SegView>>::empty());
                    assert(trees_leaves(seq![t]) == trees_leaves(seq![t].drop_last())
                        + path_leaves(seq![t].last().path));
                    assert(seq![t].last().path == t.path);
                    assert(trees_leaves(seq![t]) =~= path_leaves(t.path));
                }
                lemma_trees_leaves_concat(seq![t], m);
                assert(trees_leaves(seq![t] + m).to_multiset() =~= leaves.to_multiset());
            }
        }
    }
}

/// Law: merging the whole run into a single nested tree preserves the
/// multiset of leaf paths.
pub proof fn lemma_one_merge_preserves_leaves(legacy: bool, leaves: Seq<Seq<SegView>>)
    requires
        forall|i: int| 0 <= i < leaves.len() ==> is_leaf_path(#[trigger] leaves[i]),
    ensures
        trees_leaves(one_merge_spec(legacy, leaves)).to_multiset() == leaves.to_multiset(),
{
    broadcast use vstd::seq_lib::group_to_multiset_ensures;

    lemma_leaves_to_trees_leaves(leaves);
    if leaves.len() <= 1 {
    } else {
        let unsorted = leaves_to_trees(leaves);
        let children = sort_trees_spec(legacy, unsorted);
        lemma_sort_trees_leaves(legacy, unsorted);
        let t = TreeView { path: seq![SegView::List(children)], comment: Option::None };
        assert(t.path.drop_last() =~= Seq::<SegView>::empty());
        assert(path_leaves(t.path) == prefix_paths(Seq::<SegView>::empty(), trees_leaves(children)));
        assert(prefix_paths(Seq::<SegView>::empty(), trees_leaves(children)) =~= trees_leaves(
            children,
        )) by {
            assert forall|i: int| 0 <= i < trees_leaves(children).len() implies prefix_paths(
                Seq::<SegView>::empty(),
                trees_leaves(children),
            )[i] == trees_leaves(children)[i] by {
                assert(Seq::<SegView>::empty() + trees_leaves(children)[i] =~= trees_leaves(
                    children,
                )[i]);
            }
        }
        assert(seq![t].drop_last() =~= Seq::<TreeView>::empty());
        assert(Seq::<Seq<SegView>>::empty() + path_leaves(t.path) =~= path_leaves(t.path));
        assert(trees_leaves(Seq::<TreeView>::empty()) == Seq::<Seq<SegView>>::empty());
        assert(trees_leaves(seq![t]) == trees_leaves(seq![t].drop_last()) + path_leaves(
            seq![t].last().path,
        ));
        assert(seq![t].last().path == t.path);
        assert(trees_leaves(seq![t]) =~= path_leaves(t.path));
    }
}

/// Law: for every granularity, normalization preserves the multiset of
/// fully-qualified leaf paths of a well-formed import run.
pub proof fn lemma_normalization_preserves_leaves(
    legacy: bool,
    g: crate::config::ImportGranularity,
    ts: Seq<TreeView>,
)
    requires
        trees_wf(ts),
    ensures
        trees_leaves(normalize_spec(legacy, g, ts)).to_multiset() == trees_leaves(
            ts,
        ).to_multiset(),
{
    lemma_trees_leaves_are_leaves(ts);
    match g {
        crate::config::ImportGranularity::Preserve => {},
        crate::config::ImportGranularity::Item => {
            lemma_leaves_to_trees_leaves(trees_leaves(ts));
        },
        crate::config::ImportGranularity::Crate => {
            lemma_merge_preserves_leaves(legacy, false, trees_leaves(ts));
        },
        crate::config::ImportGranularity::Module => {
            lemma_merge_preserves_leaves(legacy, true, trees_leaves(ts));
        },
        crate::config::ImportGranularity::One => {
            lemma_one_merge_preserves_leaves(legacy, trees_leaves(ts));
        },
    }
}

/// Builds the well-formedness of a tree list from that of its members.
pub proof fn lemma_trees_wf_build(ts: Seq<TreeView>)
    requires
        forall|i: int| 0 <= i < ts.len() ==> path_wf(#[trigger] ts[i].path),
    ensures
        trees_wf(ts),
    decreases ts,
{
    if ts.len() > 0 {
        assert(forall|i: int| 0 <= i < ts.drop_last().len() ==> #[trigger] ts.drop_last()[i]
            == ts[i]);
        lemma_trees_wf_build(ts.drop_last());
        assert(path_wf(ts.last().path));
    }
}

pub proof fn lemma_trees_wf_index(ts: Seq<TreeView>)
    requires
        trees_wf(ts),
    ensures
        forall|i: int| 0 <= i < ts.len() ==> path_wf(#[trigger] ts[i].path),
    decreases ts,
{
    if ts.len() > 0 {
        lemma_trees_wf_index(ts.drop_last());
        assert forall|i: int| 0 <= i < ts.len() implies path_wf(#[trigger] ts[i].path) by {
            if i < ts.len() - 1 {
                assert(ts[i] == ts.drop_last()[i]);
            } else {
                assert(ts[i] == ts.last());
            }
        }
    }
}

fn flatten_into(prefix: &Vec<UseSegment>, t: &UseTree, out: &mut Vec<UseTree>)
    requires
        is_leaf_path(path_view(prefix@)),
        path_wf(path_view(t.path@)),
    ensures
        trees_view(final(out)@) == trees_view(old(out)@) + leaves_to_trees(
            prefix_paths(path_view(prefix@), path_leaves(path_view(t.path@))),
        ),
    decreases *t,
{
    let ghost pv = path_view(prefix@);
    let ghost tv = path_view(t.path@);
    let ghost base = trees_view(out@);
    proof {
        lemma_path_view_len(prefix@);
        lemma_path_view_len(t.path@);
    }
    let n = t.path.len();
    let mut is_list = false;
    if n > 0 {
        match &t.path[n - 1] {
            UseSegment::List(_) => {
                is_list = true;
            },
            _ => {},
        }
    }
    if !is_list {
        // the whole path is one leaf
        let mut np = clone_path(prefix);
        let ghost a = np@;
        let mut rest = clone_path(&t.path);
        let ghost b = rest@;
        np.append(&mut rest);
        proof {
            assert(np@ == a + b);
            lemma_path_view_concat(a, b);
        }
        let leaf = UseTree { path: np, comment: Option::None };
        let ghost prev = out@;
        out.push(leaf);
        proof {
            assert(path_view(leaf.path@) == pv + tv);
            assert(path_leaves(tv) =~= seq![tv]) by {
                if tv.len() > 0 {
                    assert(tv.last() == seg_view(t.path@.last()));
                    assert(!(tv[tv.len() - 1] is List));
                } else {
                    assert(tv =~= Seq::<SegView>::empty());
                }
            }
            assert(out@.drop_last() =~= prev);
            assert(trees_view(out@) == base.push(tree_view(leaf)));
            assert(prefix_paths(pv, seq![tv]) =~= seq![pv + tv]);
            assert(leaves_to_trees(seq![pv + tv]) =~= seq![TreeView { path: pv + tv, comment: Option::None }]);
            assert(trees_view(out@) =~= base + leaves_to_trees(prefix_paths(pv, path_leaves(tv))));
        }
    } else {
        // trailing nested list: recurse into each sub-tree under the longer prefix
        let mut np = clone_path(prefix);
        let mut k: usize = 0;
        while k < n - 1
            invariant
                n == t.path@.len(),
                n >= 1,
                k <= n - 1,
                pv == path_view(prefix@),
                tv == path_view(t.path@),
                tv.len() == n,
                forall|j: int| 0 <= j < n ==> tv[j] == seg_view(t.path@[j]),
                path_view(np@) == pv + tv.subrange(0, k as int),
            decreases n - k,
        {
            let ghost npv = path_view(np@);
            let ghost prevnp = np@;
            let s = clone_seg(&t.path[k]);
            np.push(s);
            proof {
                assert(np@.drop_last() =~= prevnp);
                assert(path_view(np@) == npv.push(seg_view(t.path@[k as int])));
                assert(pv + tv.subrange(0, k + 1 as int) =~= (pv + tv.subrange(0, k as int)).push(
                    tv[k as int]));
            }
            k = k + 1;
        }
        let ghost npv = path_view(np@);
        proof {
            assert(tv.subrange(0, n - 1 as int) =~= tv.drop_last());
            assert(npv == pv + tv.drop_last());
            assert(is_leaf_path(npv)) by {
                assert forall|j: int| 0 <= j < npv.len() implies !(#[trigger] npv[j] is List) by {
                    if j < pv.len() {
                        assert(npv[j] == pv[j]);
                    } else {
                        assert(npv[j] == tv[j - pv.len()]);
                        assert(!(tv[j - pv.len()] is List));
                    }
                }
            }
        }
        match &t.path[n - 1] {
            UseSegment::List(children) => {
                let ghost tsv = trees_view(children@);
                proof {
                    assert(tv.last() == seg_view(t.path@.last()));
                    assert(tv.last() == SegView::List(tsv));
                    assert(trees_wf(tsv));
                    lemma_trees_wf_index(tsv);
                    lemma_trees_view_len(children@);
                }
                let m = children.len();
                let mut i: usize = 0;
                while i < m
                    invariant
                        i <= m,
                        n == t.path@.len(),
                        n >= 1,
                        t.path@[n - 1 as int] == UseSegment::List(*children),
                        m == children@.len(),
                        tsv == trees_view(children@),
                        tsv.len() == m,
                        forall|j: int| 0 <= j < m ==> tsv[j] == tree_view(children@[j]),
                        forall|j: int| 0 <= j < m ==> path_wf(#[trigger] tsv[j].path),
                        npv == path_view(np@),
                        is_leaf_path(npv),
                        trees_view(out@) == base + leaves_to_trees(
                            prefix_paths(npv, trees_leaves(tsv.subrange(0, i as int))),
                        ),
                    decreases m - i,
                {
                    let ghost sofar = trees_leaves(tsv.subrange(0, i as int));
                    proof {
                        assert(trees_view(out@) == base + leaves_to_trees(
                            prefix_paths(npv, sofar)));
                        assert(path_view(children@[i as int].path@) == tsv[i as int].path);
                        assert(decreases_to!(*t => t.path));
                        assert(decreases_to!(t.path => t.path@));
                        assert(decreases_to!(t.path@ => t.path@[n - 1 as int]));
                        assert(t.path@[n - 1 as int] == UseSegment::List(*children));
                        assert(decreases_to!(t.path@[n - 1 as int] => t.path@[n - 1 as int]->List_0));
                        assert(t.path@[n - 1 as int]->List_0 == *children);
                        assert(decreases_to!(*children => children@));
                        assert(decreases_to!(children@ => children@[i as int]));
                    }
                    flatten_into(&np, &children[i], out);
                    proof {
                        let delta = path_leaves(tsv[i as int].path);
                        assert(tsv.subrange(0, i + 1 as int).drop_last() =~= tsv.subrange(
                            0, i as int));
                        assert(tsv.subrange(0, i + 1 as int).last() == tsv[i as int]);
                        assert(trees_leaves(tsv.subrange(0, i + 1 as int)) == sofar + delta);
                        assert(leaves_to_trees(prefix_paths(npv, sofar + delta))
                            =~= leaves_to_trees(prefix_paths(npv, sofar)) + leaves_to_trees(
                            prefix_paths(npv, delta)));
                        assert(base + leaves_to_trees(prefix_paths(npv, sofar + delta)) =~= (base
                            + leaves_to_trees(prefix_paths(npv, sofar))) + leaves_to_trees(
                            prefix_paths(npv, delta)));
                    }
                    i = i + 1;
                }
                proof {
                    assert(tsv.subrange(0, m as int) =~= tsv);
                    assert(path_leaves(tv) == prefix_paths(tv.drop_last(), trees_leaves(tsv)));
                    assert(prefix_paths(npv, trees_leaves(tsv)) =~= prefix_paths(
                        pv,
                        path_leaves(tv),
                    )) by {
                        assert forall|j: int|
                            0 <= j < trees_leaves(tsv).len() implies prefix_paths(
                            npv,
                            trees_leaves(tsv),
                        )[j] == prefix_paths(pv, path_leaves(tv))[j] by {
                            let l = trees_leaves(tsv)[j];
                            assert(prefix_paths(pv, path_leaves(tv))[j] == pv + (tv.drop_last()
                                + l));
                            assert(npv + l =~= pv + (tv.drop_last() + l));
                        }
                    }
                }
            },
            _ => {
                proof {
                    assert(false);
                }
            },
        }
    }
}

/// Flattens every tree into one single-leaf tree per represented leaf path.
pub fn flatten_use_trees(ts: &Vec<UseTree>) -> (r: Vec<UseTree>)
    requires
        trees_wf(trees_view(ts@)),
    ensures
        trees_view(r@) == leaves_to_trees(trees_leaves(trees_view(ts@))),
{
    let ghost tsv = trees_view(ts@);
    proof {
        lemma_trees_view_len(ts@);
        lemma_trees_wf_index(tsv);
    }
    let empty_prefix: Vec<UseSegment> = Vec::new();
    let mut out: Vec<UseTree> = Vec::new();
    let n = ts.len();
    let mut i: usize = 0;
    while i < n
        invariant
            i <= n,
            n == ts@.len(),
            tsv == trees_view(ts@),
            tsv.len() == n,
            forall|j: int| 0 <= j < n ==> tsv[j] == tree_view(ts@[j]),
            forall|j: int| 0 <= j < n ==> path_wf(#[trigger] tsv[j].path),
            empty_prefix@.len() == 0,
            trees_view(out@) == leaves_to_trees(trees_leaves(tsv.subrange(0, i as int))),
        decreases n - i,
    {
        let ghost sofar = trees_leaves(tsv.subrange(0, i as int));
        proof {
            assert(path_view(empty_prefix@) =~= Seq::<SegView>::empty());
            assert(is_leaf_path(path_view(empty_prefix@)));
            assert(path_view(ts@[i as int].path@) == tsv[i as int].path);
        }
        flatten_into(&empty_prefix, &ts[i], &mut out);
        proof {
            let pv = path_view(empty_prefix@);
            let delta = path_leaves(tsv[i as int].path);
            assert(prefix_paths(pv, delta) =~= delta) by {
                assert forall|j: int| 0 <= j < delta.len() implies prefix_paths(pv, delta)[j]
                    == delta[j] by {
                    assert(pv + delta[j] =~= delta[j]);
                }
            }
            assert(tsv.subrange(0, i + 1 as int).drop_last() =~= tsv.subrange(0, i as int));
            assert(tsv.subrange(0, i + 1 as int).last() == tsv[i as int]);
            assert(trees_leaves(tsv.subrange(0, i + 1 as int)) == sofar + delta);
            assert(leaves_to_trees(sofar + delta) =~= leaves_to_trees(sofar) + leaves_to_trees(
                delta));
        }
        i = i + 1;
    }
    proof {
        assert(tsv.subrange(0, n as int) =~= tsv);
    }
    out
}

fn plain_seg_eq(a: &UseSegment, b: &UseSegment) -> (r: bool)
    requires
        !(a@ is List),
        !(b@ is List),
    ensures
        r == (a@ == b@),
{
    match (a, b) {
        (
            UseSegment::Ident { name: an, alias: aa },
            UseSegment::Ident { name: bn, alias: ba },
        ) => {
            let names = an.eq(bn);
            let aliases = match (aa, ba) {
                (Option::None, Option::None) => true,
                (Option::Some(x), Option::Some(y)) => x.eq(y),
                _ => false,
            };
            names && aliases
        },
        (UseSegment::Slf, UseSegment::Slf) => true,
        (UseSegment::Super, UseSegment::Super) => true,
        (UseSegment::CrateRoot, UseSegment::CrateRoot) => true,
        (UseSegment::Glob, UseSegment::Glob) => true,
        _ => false,
    }
}

fn leaf_matches_exec(modlevel: bool, first: &UseTree, cand: &UseTree) -> (r: bool)
    requires
        is_leaf_path(tree_view(*first).path),
        is_leaf_path(tree_view(*cand).path),
        tree_view(*first).path.len() >= 2,
    ensures
        r == leaf_matches(modlevel, merge_prefix(modlevel, tree_view(*first).path), tree_view(
            *cand,
        ).path),
{
    let ghost fv = tree_view(*first).path;
    let ghost cv = tree_view(*cand).path;
    proof {
        lemma_path_view_len(first.path@);
        lemma_path_view_len(cand.path@);
    }
    if cand.path.len() < 2 {
        return false;
    }
    if modlevel {
        if cand.path.len() != first.path.len() {
            proof {
                assert(merge_prefix(modlevel, cv).len() != merge_prefix(modlevel, fv).len());
            }
            return false;
        }
        let n = first.path.len();
        let mut k: usize = 0;
        while k < n - 1
            invariant
                modlevel,
            k <= n - 1,
                n >= 2,
                n == first.path@.len(),
                n == cand.path@.len(),
                fv == tree_view(*first).path,
                cv == tree_view(*cand).path,
                fv.len() == n,
                cv.len() == n,
                forall|j: int| 0 <= j < n ==> fv[j] == seg_view(first.path@[j]),
                forall|j: int| 0 <= j < n ==> cv[j] == seg_view(cand.path@[j]),
                is_leaf_path(fv),
                is_leaf_path(cv),
                forall|j: int| 0 <= j < k ==> fv[j] == cv[j],
            decreases n - k,
        {
            proof {
                assert(fv[k as int] == seg_view(first.path@[k as int]));
                assert(cv[k as int] == seg_view(cand.path@[k as int]));
                assert(!(fv[k as int] is List));
                assert(!(cv[k as int] is List));
            }
            let eq = plain_seg_eq(&first.path[k], &cand.path[k]);
            if !eq {
                proof {
                    assert(fv[k as int] != cv[k as int]);
                    assert(merge_prefix(modlevel, cv)[k as int] != merge_prefix(
                        modlevel,
                        fv,
                    )[k as int]);
                }
                return false;
            }
            k = k + 1;
        }
        proof {
            assert(merge_prefix(modlevel, cv) =~= merge_prefix(modlevel, fv));
        }
        true
    } else {
        proof {
            assert(fv[0] == seg_view(first.path@[0]));
            assert(cv[0] == seg_view(cand.path@[0]));
            assert(!(fv[0] is List));
            assert(!(cv[0] is List));
        }
        let eq = plain_seg_eq(&first.path[0], &cand.path[0]);
        proof {
            if fv[0] == cv[0] {
                assert(merge_prefix(modlevel, cv) =~= merge_prefix(modlevel, fv));
            } else {
                assert(merge_prefix(modlevel, cv)[0] != merge_prefix(modlevel, fv)[0]);
            }
        }
        eq
    }
}

fn leaf_tail_exec(modlevel: bool, l: &UseTree) -> (r: UseTree)
    requires
        tree_view(*l).path.len() >= 1,
    ensures
        tree_view(r) == (TreeView {
            path: merge_tail(modlevel, tree_view(*l).path),
            comment: Option::None,
        }),
{
    let ghost lv = tree_view(*l).path;
    proof {
        lemma_path_view_len(l.path@);
    }
    let mut p: Vec<UseSegment> = Vec::new();
    if modlevel {
        let n = l.path.len();
        proof {
            assert(lv[n - 1 as int] == seg_view(l.path@[n - 1 as int]));
        }
        let s = clone_seg(&l.path[n - 1]);
        p.push(s);
        proof {
            assert(p@.drop_last() =~= Seq::<UseSegment>::empty());
            assert(path_view(Seq::<UseSegment>::empty()) == Seq::<SegView>::empty());
            assert(seg_view(p@.last()) == lv[n - 1 as int]);
            assert(path_view(p@) =~= seq![lv.last()]);
            assert(merge_tail(modlevel, lv) =~= seq![lv.last()]);
        }
    } else {
        let n = l.path.len();
        let mut k: usize = 1;
        while k < n
            invariant
                1 <= k <= n,
                n == l.path@.len(),
                lv == tree_view(*l).path,
                lv.len() == n,
                forall|j: int| 0 <= j < n ==> lv[j] == seg_view(l.path@[j]),
                path_view(p@) == lv.subrange(1, k as int),
            decreases n - k,
        {
            let ghost prev = p@;
            let s = clone_seg(&l.path[k]);
            p.push(s);
            proof {
                assert(p@.drop_last() =~= prev);
                assert(lv.subrange(1, k + 1 as int) =~= lv.subrange(1, k as int).push(
                    lv[k as int]));
            }
            k = k + 1;
        }
        proof {
            assert(lv.subrange(1, n as int) =~= lv.drop_first());
        }
    }
    UseTree { path: p, comment: Option::None }
}

fn merge_prefix_exec(modlevel: bool, l: &UseTree) -> (r: Vec<UseSegment>)
    requires
        tree_view(*l).path.len() >= 1,
    ensures
        path_view(r@) == merge_prefix(modlevel, tree_view(*l).path),
{
    let ghost lv = tree_view(*l).path;
    proof {
        lemma_path_view_len(l.path@);
    }
    let mut p: Vec<UseSegment> = Vec::new();
    if modlevel {
        let n = l.path.len();
        let mut k: usize = 0;
        while k < n - 1
            invariant
                k <= n - 1,
                n >= 1,
                n == l.path@.len(),
                lv == tree_view(*l).path,
                lv.len() == n,
                forall|j: int| 0 <= j < n ==> lv[j] == seg_view(l.path@[j]),
                path_view(p@) == lv.subrange(0, k as int),
            decreases n - k,
        {
            let ghost prev = p@;
            let s = clone_seg(&l.path[k]);
            p.push(s);
            proof {
                assert(p@.drop_last() =~= prev);
                assert(lv.subrange(0, k + 1 as int) =~= lv.subrange(0, k as int).push(
                    lv[k as int]));
            }
            k = k + 1;
        }
        proof {
            assert(lv.subrange(0, n - 1 as int) =~= lv.drop_last());
        }
    } else {
        proof {
            assert(lv[0] == seg_view(l.path@[0]));
        }
        let s = clone_seg(&l.path[0]);
        p.push(s);
        proof {
            assert(p@.drop_last() =~= Seq::<UseSegment>::empty());
            assert(path_view(Seq::<UseSegment>::empty()) == Seq::<SegView>::empty());
            assert(seg_view(p@.last()) == lv[0]);
            assert(path_view(p@) =~= lv.subrange(0, 1));
        }
    }
    p
}

/// Merges leaf trees that share a merge prefix, per the crate or module
/// granularity.
pub fn merge_use_trees(legacy: bool, modlevel: bool, leaves: Vec<UseTree>) -> (r: Vec<UseTree>)
    requires
        all_leaf_trees(trees_view(leaves@)),
        no_comments(trees_view(leaves@)),
    ensures
        trees_view(r@) == merge_leaves_spec(legacy, modlevel, tree_paths(trees_view(leaves@))),
    decreases leaves@.len(),
{
    let ghost lv = trees_view(leaves@);
    let ghost lp = tree_paths(lv);
    let ghost lseq = leaves@;
    proof {
        lemma_trees_view_len(leaves@);
    }
    let mut leaves = leaves;
    if leaves.len() == 0 {
        proof {
            assert(trees_view(leaves@) =~= Seq::<TreeView>::empty());
        }
        return leaves;
    }
    let first = leaves.remove(0);
    let rest = leaves;
    let ghost restv = trees_view(rest@);
    let ghost restp = tree_paths(restv);
    proof {
        lemma_trees_view_len(rest@);
        assert(rest@ =~= lseq.drop_first());
        assert(restv =~= lv.drop_first()) by {
            assert(forall|j: int| 0 <= j < rest@.len() ==> rest@[j] == lseq[j + 1]);
        }
        assert(restp =~= lp.drop_first());
        assert(tree_view(first) == lv[0]);
        assert(lp.first() == tree_view(first).path);
        lemma_path_view_len(first.path@);
        assert(forall|j: int| 0 <= j < restv.len() ==> is_leaf_path(#[trigger] restv[j].path))
            by {
            assert(forall|j: int| 0 <= j < restv.len() ==> restv[j] == lv[j + 1]);
        }
        assert(forall|j: int| 0 <= j < restp.len() ==> is_leaf_path(#[trigger] restp[j]));
        assert(is_leaf_path(lp.first()));
        assert(forall|j: int| 0 <= j < restv.len() ==> (#[trigger] restv[j]).comment is None) by {
            assert(forall|j: int| 0 <= j < restv.len() ==> restv[j] == lv[j + 1]);
        }
    }
    if first.path.len() < 2 {
        let mut merged = merge_use_trees(legacy, modlevel, rest);
        let mut out: Vec<UseTree> = Vec::new();
        out.push(first);
        proof {
            lemma_trees_view_len(out@);
        }
        let ghost outv1 = trees_view(out@);
        let ghost outseq1 = out@;
        let ghost mv = trees_view(merged@);
        let ghost mseq = merged@;
        out.append(&mut merged);
        proof {
            lemma_trees_view_len(mseq);
            lemma_trees_view_len(out@);
            assert(out@ == outseq1 + mseq);
            assert(outv1 =~= seq![lv[0]]);
            assert(trees_view(out@) =~= outv1 + mv);
            assert(lv[0].comment is None);
            assert((TreeView { path: lp.first(), comment: Option::None }) == lv[0]);
            assert(seq![lv[0]] + mv =~= seq![TreeView { path: lp.first(), comment: Option::None }]
                + merge_leaves_spec(legacy, modlevel, restp));
        }
        return out;
    }
    let ghost key = merge_prefix(modlevel, lp.first());
    let mut grp: Vec<UseTree> = Vec::new();
    let mut rem: Vec<UseTree> = Vec::new();
    let n = rest.len();
    let mut i: usize = 0;
    while i < n
        invariant
            i <= n,
            n == rest@.len(),
            restv == trees_view(rest@),
            restp == tree_paths(restv),
            restv.len() == n,
            restp.len() == n,
            forall|j: int| 0 <= j < n ==> restv[j] == tree_view(rest@[j]),
            forall|j: int| 0 <= j < n ==> restp[j] == restv[j].path,
            forall|j: int| 0 <= j < n ==> is_leaf_path(#[trigger] restp[j]),
            tree_view(first).path == lp.first(),
            lp.first().len() >= 2,
            is_leaf_path(lp.first()),
            key == merge_prefix(modlevel, lp.first()),
            tree_paths(trees_view(grp@)) == group_of(modlevel, key, restp.subrange(0, i as int)),
            tree_paths(trees_view(rem@)) == remaining_of(
                modlevel,
                key,
                restp.subrange(0, i as int),
            ),
            all_leaf_trees(trees_view(grp@)),
            all_leaf_trees(trees_view(rem@)),
            no_comments(trees_view(grp@)),
            no_comments(trees_view(rem@)),
            forall|j: int| 0 <= j < n ==> (#[trigger] restv[j]).comment is None,
            grp@.len() + rem@.len() == i,
        decreases n - i,
    {
        let ghost gsub = restp.subrange(0, i as int);
        proof {
            assert(tree_view(rest@[i as int]).path == restp[i as int]);
            assert(is_leaf_path(restp[i as int]));
        }
        let m = leaf_matches_exec(modlevel, &first, &rest[i]);
        proof {
            assert(restp.subrange(0, i + 1 as int).drop_last() =~= gsub);
            assert(restp.subrange(0, i + 1 as int).last() == restp[i as int]);
            reveal_with_fuel(Seq::filter, 2);
        }
        if m {
            let ghost prevg = trees_view(grp@);
            let ghost prevgs = grp@;
            let t = clone_tree(&rest[i]);
            grp.push(t);
            proof {
                assert(grp@.drop_last() =~= prevgs);
                assert(trees_view(grp@) == prevg.push(restv[i as int]));
                assert(tree_paths(trees_view(grp@)) =~= tree_paths(prevg).push(restp[i as int]));
                assert(group_of(modlevel, key, restp.subrange(0, i + 1 as int)) == group_of(
                    modlevel,
                    key,
                    gsub,
                ).push(restp[i as int]));
                assert(all_leaf_trees(trees_view(grp@))) by {
                    assert(forall|j: int|
                        0 <= j < trees_view(grp@).len() - 1 ==> trees_view(grp@)[j] == prevg[j]);
                }
                assert(no_comments(trees_view(grp@))) by {
                    assert(forall|j: int|
                        0 <= j < trees_view(grp@).len() - 1 ==> trees_view(grp@)[j] == prevg[j]);
                }
            }
        } else {
            let ghost prevr = trees_view(rem@);
            let ghost prevrs = rem@;
            let t = clone_tree(&rest[i]);
            rem.push(t);
            proof {
                assert(rem@.drop_last() =~= prevrs);
                assert(trees_view(rem@) == prevr.push(restv[i as int]));
                assert(tree_paths(trees_view(rem@)) =~= tree_paths(prevr).push(restp[i as int]));
                assert(remaining_of(modlevel, key, restp.subrange(0, i + 1 as int))
                    == remaining_of(modlevel, key, gsub).push(restp[i as int]));
                assert(all_leaf_trees(trees_view(rem@))) by {
                    assert(forall|j: int|
                        0 <= j < trees_view(rem@).len() - 1 ==> trees_view(rem@)[j] == prevr[j]);
                }
                assert(no_comments(trees_view(rem@))) by {
                    assert(forall|j: int|
                        0 <= j < trees_view(rem@).len() - 1 ==> trees_view(rem@)[j] == prevr[j]);
                }
            }
        }
        i = i + 1;
    }
    proof {
        assert(restp.subrange(0, n as int) =~= restp);
    }
    let ghost group = group_of(modlevel, key, restp);
    let ghost remaining = remaining_of(modlevel, key, restp);
    if grp.len() == 0 {
        proof {
            lemma_trees_view_len(grp@);
            assert(group.len() == 0);
        }
        let mut merged = merge_use_trees(legacy, modlevel, rem);
        let mut out: Vec<UseTree> = Vec::new();
        out.push(first);
        proof {
            lemma_trees_view_len(out@);
        }
        let ghost outv1 = trees_view(out@);
        let ghost outseq1 = out@;
        let ghost mv = trees_view(merged@);
        let ghost mseq = merged@;
        out.append(&mut merged);
        proof {
            lemma_trees_view_len(mseq);
            lemma_trees_view_len(out@);
            assert(out@ == outseq1 + mseq);
            assert(outv1 =~= seq![lv[0]]);
            assert(trees_view(out@) =~= outv1 + mv);
            assert(lv[0].comment is None);
            assert((TreeView { path: lp.first(), comment: Option::None }) == lv[0]);
            assert(seq![lv[0]] + mv =~= seq![TreeView { path: lp.first(), comment: Option::None }]
                + merge_leaves_spec(legacy, modlevel, remaining));
        }
        return out;
    }
    // build the merged tree: shared prefix plus a sorted nested list of tails
    proof {
        lemma_filtered_leaves(modlevel, key, restp);
        lemma_trees_view_len(grp@);
    }
    let mut tails: Vec<UseTree> = Vec::new();
    let t0 = leaf_tail_exec(modlevel, &first);
    tails.push(t0);
    proof {
        lemma_trees_view_len(tails@);
        assert(tails@.drop_last() =~= Seq::<UseTree>::empty());
        assert(trees_view(tails@)[0] == tree_view(tails@[0]));
    }
    let gn = grp.len();
    let mut j: usize = 0;
    while j < gn
        invariant
            j <= gn,
            gn == grp@.len(),
            gn >= 1,
            tree_paths(trees_view(grp@)) == group,
            trees_view(grp@).len() == gn,
            forall|q: int| 0 <= q < gn ==> trees_view(grp@)[q] == tree_view(grp@[q]),
            forall|q: int|
                0 <= q < group.len() ==> is_leaf_path(#[trigger] group[q]) && leaf_matches(
                    modlevel,
                    key,
                    group[q],
                ),
            tree_view(first).path == lp.first(),
            lp.first().len() >= 2,
            key == merge_prefix(modlevel, lp.first()),
            trees_view(tails@).len() == j + 1,
            trees_view(tails@)[0] == (TreeView {
                path: merge_tail(modlevel, lp.first()),
                comment: Option::None,
            }),
            forall|q: int|
                0 <= q < j ==> trees_view(tails@)[q + 1] == (TreeView {
                    path: merge_tail(modlevel, group[q]),
                    comment: Option::None,
                }),
        decreases gn - j,
    {
        let ghost prevt = trees_view(tails@);
        proof {
            assert(tree_view(grp@[j as int]).path == group[j as int]);
            assert(group[j as int].len() >= 2);
        }
        let t = leaf_tail_exec(modlevel, &grp[j]);
        let ghost prevts = tails@;
        tails.push(t);
        proof {
            assert(tails@.drop_last() =~= prevts);
            assert(trees_view(tails@) == prevt.push(tree_view(tails@.last())));
            assert(forall|q: int| 0 <= q < prevt.len() ==> trees_view(tails@)[q] == prevt[q]);
        }
        j = j + 1;
    }
    proof {
        assert(trees_view(tails@) =~= leaves_to_trees(
            seq![merge_tail(modlevel, lp.first())] + group_tails(modlevel, group),
        ));
    }
    let children = sort_use_trees(legacy, tails);
    let mut mp = merge_prefix_exec(modlevel, &first);
    let ghost mpv = path_view(mp@);
    let ghost prevmp = mp@;
    mp.push(UseSegment::List(children));
    let merged_tree = UseTree { path: mp, comment: Option::None };
    proof {
        assert(merged_tree.path@.drop_last() =~= prevmp);
        assert(merged_tree.path@.last() is List);
        assert(path_view(merged_tree.path@) == mpv.push(
            seg_view(merged_tree.path@.last()),
        ));
        assert(tree_view(merged_tree) == TreeView {
            comment: Option::None,
            path: key.push(
                SegView::List(
                    sort_trees_spec(
                        legacy,
                        leaves_to_trees(
                            seq![merge_tail(modlevel, lp.first())] + group_tails(modlevel, group),
                        ),
                    ),
                ),
            ),
        });
    }
    let ghost mtv = tree_view(merged_tree);
    let mut merged = merge_use_trees(legacy, modlevel, rem);
    let mut out: Vec<UseTree> = Vec::new();
    out.push(merged_tree);
    proof {
        lemma_trees_view_len(out@);
    }
    let ghost outv1 = trees_view(out@);
    let ghost outseq1 = out@;
    let ghost mv = trees_view(merged@);
    let ghost mseq = merged@;
    out.append(&mut merged);
    proof {
        lemma_trees_view_len(mseq);
        lemma_trees_view_len(out@);
        assert(out@ == outseq1 + mseq);
        assert(outv1 =~= seq![mtv]);
        assert(trees_view(out@) =~= outv1 + mv);
        assert(trees_view(out@) =~= merge_leaves_spec(legacy, modlevel, lp));
    }
    out
}

/// Merges the whole run into a single nested tree with sorted sub-trees.
pub fn one_merge(legacy: bool, leaves: Vec<UseTree>) -> (r: Vec<UseTree>)
    requires
        no_comments(trees_view(leaves@)),
    ensures
        trees_view(r@) == one_merge_spec(legacy, tree_paths(trees_view(leaves@))),
{
    let ghost lv = trees_view(leaves@);
    let ghost lp = tree_paths(lv);
    proof {
        lemma_trees_view_len(leaves@);
        assert(leaves_to_trees(lp) =~= lv);
    }
    if leaves.len() <= 1 {
        return leaves;
    }
    let children = sort_use_trees(legacy, leaves);
    let ghost cv = trees_view(children@);
    let mut p: Vec<UseSegment> = Vec::new();
    p.push(UseSegment::List(children));
    proof {
        assert(p@.drop_last() =~= Seq::<UseSegment>::empty());
        assert(seg_view(p@.last()) == SegView::List(cv));
        assert(cv == sort_trees_spec(legacy, leaves_to_trees(lp)));
    }
    let t = UseTree { path: p, comment: Option::None };
    let mut out: Vec<UseTree> = Vec::new();
    out.push(t);
    proof {
        assert(path_view(Seq::<UseSegment>::empty()) == Seq::<SegView>::empty());
        assert(trees_view(Seq::<UseTree>::empty()) == Seq::<TreeView>::empty());
        assert(path_view(t.path@) =~= seq![
            SegView::List(sort_trees_spec(legacy, leaves_to_trees(lp))),
        ]);
        assert(out@.drop_last() =~= Seq::<UseTree>::empty());
        assert(tree_view(out@.last()) == tree_view(t));
        assert(trees_view(out@) =~= one_merge_spec(legacy, lp));
    }
    out
}

/// Normalizes a run of import trees per the configured granularity. The
/// multiset of represented leaf paths is preserved (see
/// `lemma_normalization_preserves_leaves`).
pub fn normalize_use_trees_with_granularity(
    trees: Vec<UseTree>,
    granularity: crate::config::ImportGranularity,
    legacy: bool,
) -> (r: Vec<UseTree>)
    requires
        trees_wf(trees_view(trees@)),
    ensures
        trees_view(r@) == normalize_spec(legacy, granularity, trees_view(trees@)),
{
    let ghost tv = trees_view(trees@);
    match granularity {
        crate::config::ImportGranularity::Preserve => trees,
        crate::config::ImportGranularity::Item => flatten_use_trees(&trees),
        crate::config::ImportGranularity::Crate => {
            let flat = flatten_use_trees(&trees);
            proof {
                lemma_trees_leaves_are_leaves(tv);
                lemma_leaves_to_trees_leaves(trees_leaves(tv));
                assert(tree_paths(trees_view(flat@)) =~= trees_leaves(tv));
                assert(no_comments(trees_view(flat@)));
            }
            merge_use_trees(legacy, false, flat)
        },
        crate::config::ImportGranularity::Module => {
            let flat = flatten_use_trees(&trees);
            proof {
                lemma_trees_leaves_are_leaves(tv);
                lemma_leaves_to_trees_leaves(trees_leaves(tv));
                assert(tree_paths(trees_view(flat@)) =~= trees_leaves(tv));
                assert(no_comments(trees_view(flat@)));
            }
            merge_use_trees(legacy, true, flat)
        },
        crate::config::ImportGranularity::One => {
            let flat = flatten_use_trees(&trees);
            proof {
                lemma_trees_leaves_are_leaves(tv);
                lemma_leaves_to_trees_leaves(trees_leaves(tv));
                assert(tree_paths(trees_view(flat@)) =~= trees_leaves(tv));
                assert(no_comments(trees_view(flat@)));
            }
            one_merge(legacy, flat)
        },
    }
}

/// Rendered text of one path segment.
pub open spec fn render_seg(s: SegView) -> Seq<char>
    decreases s,
{
    match s {
        SegView::Ident { name, alias } => match alias {
            Option::None => name,
            Option::Some(a) => name + " as "@ + a,
        },
        SegView::Slf => "self"@,
        SegView::Super => "super"@,
        SegView::CrateRoot => "crate"@,
        SegView::Glob => "*"@,
        SegView::List(ts) => "{"@ + render_tree_list(ts) + "}"@,
    }
}

/// Rendered text of a path: segments joined by `::`.
pub open spec fn render_path(p: Seq<SegView>) -> Seq<char>
    decreases p,
{
    if p.len() == 0 {
        Seq::empty()
    } else if p.len() == 1 {
        render_seg(p.first())
    } else {
        render_seg(p.first()) + "::"@ + render_path(p.drop_first())
    }
}

/// Rendered text of a nested list's sub-trees, joined by `, `.
pub open spec fn render_tree_list(ts: Seq<TreeView>) -> Seq<char>
    decreases ts,
{
    if ts.len() == 0 {
        Seq::empty()
    } else if ts.len() == 1 {
        render_path(ts.first().path)
    } else {
        render_path(ts.first().path) + ", "@ + render_tree_list(ts.drop_first())
    }
}

fn render_seg_exec(s: &UseSegment, out: &mut String)
    ensures
        final(out)@ == old(out)@ + render_seg(s@),
    decreases *s,
{
    match s {
        UseSegment::Ident { name, alias } => {
            out.append(name.as_str());
            match alias {
                Option::None => {},
                Option::Some(a) => {
                    out.append(" as ");
                    out.append(a.as_str());
                },
            }
            proof {
                assert(out@ =~= old(out)@ + render_seg(s@));
            }
        },
        UseSegment::Slf => out.append("self"),
        UseSegment::Super => out.append("super"),
        UseSegment::CrateRoot => out.append("crate"),
        UseSegment::Glob => out.append("*"),
        UseSegment::List(ts) => {
            out.append("{");
            render_tree_list_exec(ts, 0, out);
            out.append("}");
            proof {
                assert(trees_view(ts@).skip(0) =~= trees_view(ts@));
                assert(out@ =~= old(out)@ + render_seg(s@));
            }
        },
    }
}

fn render_path_exec(p: &Vec<UseSegment>, i: usize, out: &mut String)
    requires
        i <= p@.len(),
    ensures
        final(out)@ == old(out)@ + render_path(path_view(p@).skip(i as int)),
    decreases *p, p@.len() - i,
{
    let ghost pv = path_view(p@);
    proof {
        lemma_path_view_len(p@);
    }
    if i == p.len() {
        proof {
            assert(pv.skip(i as int) =~= Seq::<SegView>::empty());
        }
        return ;
    }
    render_seg_exec(&p[i], out);
    proof {
        assert(pv.skip(i as int).first() == pv[i as int]);
        assert(pv[i as int] == seg_view(p@[i as int]));
    }
    if i + 1 < p.len() {
        out.append("::");
        render_path_exec(p, i + 1, out);
        proof {
            assert(pv.skip(i as int).drop_first() =~= pv.skip(i + 1));
        }
    } else {
        proof {
            assert(pv.skip(i as int).len() == 1);
        }
    }
}

fn render_tree_list_exec(ts: &Vec<UseTree>, i: usize, out: &mut String)
    requires
        i <= ts@.len(),
    ensures
        final(out)@ == old(out)@ + render_tree_list(trees_view(ts@).skip(i as int)),
    decreases *ts, ts@.len() - i,
{
    let ghost tv = trees_view(ts@);
    proof {
        lemma_trees_view_len(ts@);
    }
    if i == ts.len() {
        proof {
            assert(tv.skip(i as int) =~= Seq::<TreeView>::empty());
        }
        return ;
    }
    render_path_exec(&ts[i].path, 0, out);
    proof {
        assert(tv.skip(i as int).first() == tv[i as int]);
        assert(tv[i as int] == tree_view(ts@[i as int]));
        assert(path_view(ts@[i as int].path@).skip(0) =~= tv[i as int].path);
    }
    if i + 1 < ts.len() {
        out.append(", ");
        render_tree_list_exec(ts, i + 1, out);
        proof {
            assert(tv.skip(i as int).drop_first() =~= tv.skip(i + 1));
        }
    } else {
        proof {
            assert(tv.skip(i as int).len() == 1);
        }
    }
}

/// Renders one import tree's path, without the `use ` prefix or the `;`.
pub fn render_use_tree(t: &UseTree, out: &mut String)
    ensures
        final(out)@ == old(out)@ + render_path(tree_view(*t).path),
{
    render_path_exec(&t.path, 0, out);
    proof {
        assert(path_view(t.path@).skip(0) =~= tree_view(*t).path);
    }
}

} // verus!
