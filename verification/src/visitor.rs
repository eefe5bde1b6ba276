//! The sequence walker: one pass over a flat top-level declaration sequence
//! that carves out maximal reorderable runs, rewrites them, re-emits
//! everything else verbatim, and re-inserts blank-line separators between
//! item-like declarations.

use vstd::prelude::*;

use crate::config::Config;
use crate::decl::DeclView;
use crate::decl::Declaration;
use crate::decl::ItemKindView;
use crate::decl::Span;
use crate::decl::decl_wf;
use crate::decl::decls_view;
use crate::decl::lemma_decls_view_len;
use crate::reorder::ReorderableItemKind;
use crate::reorder::Shape;
use crate::reorder::in_group_spec;
use crate::reorder::is_regroupable_spec;
use crate::reorder::is_reorderable_spec;
use crate::reorder::reorder_kind_spec;
use crate::reorder::rewrite_reorderable_or_regroupable_items;
use crate::reorder::rewrite_run_spec;

verus! {

broadcast use vstd::std_specs::vec::group_vec_axioms, vstd::seq::group_seq_axioms;

/// Number of newline characters in a snippet.
pub open spec fn count_newlines_spec(s: Seq<char>) -> nat
    decreases s.len(),
{
    if s.len() == 0 {
        0
    } else {
        (if s.first() == '\n' {
            1nat
        } else {
            0nat
        }) + count_newlines_spec(s.drop_first())
    }
}

/// An item-like declaration, before or after which a blank line separator is
/// kept.
pub open spec fn is_item_like_spec(k: ItemKindView) -> bool {
    match k {
        ItemKindView::Fn => true,
        ItemKindView::Struct => true,
        ItemKindView::Enum => true,
        ItemKindView::Impl => true,
        ItemKindView::Trait => true,
        ItemKindView::Mod { .. } => true,
        ItemKindView::Union => true,
        ItemKindView::TyAlias => true,
        ItemKindView::Const => true,
        ItemKindView::Static => true,
        ItemKindView::MacroDef => true,
        ItemKindView::MacCall => true,
        _ => false,
    }
}

/// The synthetic newline inserted between two items when the original source
/// gap holds fewer than two newline characters.
#[verifier::opaque]
pub open spec fn blank_text(source: Seq<char>, prev: DeclView, next: DeclView) -> Seq<char> {
    if count_newlines_spec(source.subrange(prev.span.hi as int, next.span.lo as int)) < 2 {
        "\n"@
    } else {
        Seq::empty()
    }
}

/// The separator emitted before any run or singly-visited declaration: a
/// synthetic newline only when there is a preceding emitted declaration and
/// one of the two is item-like.
#[verifier::opaque]
pub open spec fn maybe_blank_text(source: Seq<char>, prev: Option<DeclView>, next: DeclView) -> Seq<
    char,
> {
    match prev {
        Option::None => Seq::empty(),
        Option::Some(p) => if is_item_like_spec(p.kind) || is_item_like_spec(next.kind) {
            blank_text(source, p, next)
        } else {
            Seq::empty()
        },
    }
}

/// Length of the maximal run beginning at `start`: declarations of the same
/// reorder-kind and, when the kind is group-bounded, with no full blank line
/// between consecutive declarations' line ranges.
pub open spec fn run_len_spec(
    items: Seq<DeclView>,
    start: int,
    kind: ReorderableItemKind,
    in_group: bool,
    last: crate::decl::LineRange,
) -> int
    decreases items.len() - start,
{
    if start < 0 || start >= items.len() {
        0
    } else if reorder_kind_spec(items[start]) != kind {
        0
    } else if in_group && !(items[start].lines.lo < last.hi + 2) {
        0
    } else {
        1 + run_len_spec(items, start + 1, kind, in_group, items[start].lines)
    }
}

/// Validity of a declaration sequence for one pass: every declaration is
/// valid, lies within the source, and the spans are ordered and disjoint.
pub open spec fn decls_ordered(items: Seq<DeclView>, source_len: int) -> bool {
    (forall|i: int| 0 <= i < items.len() ==> decl_wf(#[trigger] items[i])) && (forall|i: int|
        0 <= i < items.len() ==> (#[trigger] items[i]).span.hi <= source_len) && (forall|
        i: int,
        j: int,
    |
        0 <= i < j < items.len() ==> (#[trigger] items[i]).span.hi
            <= (#[trigger] items[j]).span.lo)
}

/// The text the walker emits for the declarations from `i` on, given the
/// source position consumed so far and the previously emitted declaration.
#[verifier::opaque]
pub open spec fn visit_spec(
    cfg: Config,
    shape: Shape,
    source: Seq<char>,
    items: Seq<DeclView>,
    i: int,
    last_pos: int,
    prev: Option<DeclView>,
) -> Seq<char>
    decreases items.len() - i,
    via visit_spec_decreases
{
    if i < 0 || i >= items.len() {
        Seq::empty()
    } else {
        let kind = reorder_kind_spec(items[i]);
        if is_reorderable_spec(kind, cfg) || is_regroupable_spec(kind, cfg) {
            let cnt = run_len_spec(items, i, kind, in_group_spec(kind, cfg), items[i].lines);
            let step = if cnt < 1 {
                1
            } else {
                cnt
            };
            let lo = items[i].span.lo;
            let hi = items[i + step - 1].span.hi;
            let blank = maybe_blank_text(source, prev, items[i]);
            let emitted = source.subrange(last_pos, lo as int) + (match rewrite_run_spec(
                cfg,
                shape,
                items.subrange(i, i + step),
            ) {
                Result::Ok(s) => s,
                Result::Err(_) => source.subrange(lo as int, hi as int),
            });
            blank + emitted + visit_spec(
                cfg,
                shape,
                source,
                items,
                i + step,
                hi as int,
                Option::Some(items[i + step - 1]),
            )
        } else {
            let blank = maybe_blank_text(source, prev, items[i]);
            let emitted = source.subrange(last_pos, items[i].span.lo as int) + source.subrange(
                items[i].span.lo as int,
                items[i].span.hi as int,
            );
            blank + emitted + visit_spec(
                cfg,
                shape,
                source,
                items,
                i + 1,
                items[i].span.hi as int,
                Option::Some(items[i]),
            )
        }
    }
}

#[via_fn]
proof fn visit_spec_decreases(
    cfg: Config,
    shape: Shape,
    source: Seq<char>,
    items: Seq<DeclView>,
    i: int,
    last_pos: int,
    prev: Option<DeclView>,
) {
    if 0 <= i && i < items.len() {
        let kind = reorder_kind_spec(items[i]);
        lemma_run_len_bound(items, i, kind, in_group_spec(kind, cfg), items[i].lines);
    }
}

/// One unfolding step of `visit_spec` at a reorderable or regroupable head.
proof fn lemma_visit_step_run(
    cfg: Config,
    shape: Shape,
    source: Seq<char>,
    items: Seq<DeclView>,
    i: int,
    last_pos: int,
    prev: Option<DeclView>,
    cnt: int,
)
    requires
        0 <= i < items.len(),
        is_reorderable_spec(reorder_kind_spec(items[i]), cfg) || is_regroupable_spec(
            reorder_kind_spec(items[i]),
            cfg,
        ),
        cnt == run_len_spec(
            items,
            i,
            reorder_kind_spec(items[i]),
            in_group_spec(reorder_kind_spec(items[i]), cfg),
            items[i].lines,
        ),
        cnt >= 1,
    ensures
        visit_spec(cfg, shape, source, items, i, last_pos, prev) == maybe_blank_text(
            source,
            prev,
            items[i],
        ) + (source.subrange(last_pos, items[i].span.lo as int) + (match rewrite_run_spec(
            cfg,
            shape,
            items.subrange(i, i + cnt),
        ) {
            Result::Ok(s) => s,
            Result::Err(_) => source.subrange(
                items[i].span.lo as int,
                items[i + cnt - 1].span.hi as int,
            ),
        })) + visit_spec(
            cfg,
            shape,
            source,
            items,
            i + cnt,
            items[i + cnt - 1].span.hi as int,
            Option::Some(items[i + cnt - 1]),
        ),
{
    reveal(visit_spec);
}

/// One unfolding step of `visit_spec` at a singly-visited head.
proof fn lemma_visit_step_single(
    cfg: Config,
    shape: Shape,
    source: Seq<char>,
    items: Seq<DeclView>,
    i: int,
    last_pos: int,
    prev: Option<DeclView>,
)
    requires
        0 <= i < items.len(),
        !is_reorderable_spec(reorder_kind_spec(items[i]), cfg),
        !is_regroupable_spec(reorder_kind_spec(items[i]), cfg),
    ensures
        visit_spec(cfg, shape, source, items, i, last_pos, prev) == maybe_blank_text(
            source,
            prev,
            items[i],
        ) + (source.subrange(last_pos, items[i].span.lo as int) + source.subrange(
            items[i].span.lo as int,
            items[i].span.hi as int,
        )) + visit_spec(
            cfg,
            shape,
            source,
            items,
            i + 1,
            items[i].span.hi as int,
            Option::Some(items[i]),
        ),
{
    reveal(visit_spec);
}

/// `visit_spec` past the end of the sequence emits nothing.
proof fn lemma_visit_step_end(
    cfg: Config,
    shape: Shape,
    source: Seq<char>,
    items: Seq<DeclView>,
    i: int,
    last_pos: int,
    prev: Option<DeclView>,
)
    requires
        i >= items.len(),
    ensures
        visit_spec(cfg, shape, source, items, i, last_pos, prev) == Seq::<char>::empty(),
{
    reveal(visit_spec);
}

/// Law: every declaration inside a run shares the run's reorder-kind; in
/// particular, a declaration carrying a skip-formatting or
/// implicit-macro-import marker classifies as `Other` and therefore never
/// stands inside any reorderable or regroupable run — it bounds the run and
/// splits its neighbours into runs that are rewritten independently, while
/// its own span is emitted verbatim by the single-visit path.
pub proof fn lemma_run_members_share_kind(
    cfg: Config,
    items: Seq<DeclView>,
    start: int,
    kind: ReorderableItemKind,
    in_group: bool,
    last: crate::decl::LineRange,
)
    ensures
        forall|t: int|
            start <= t < start + run_len_spec(items, start, kind, in_group, last)
                ==> reorder_kind_spec(#[trigger] items[t]) == kind,
        (is_reorderable_spec(kind, cfg) || is_regroupable_spec(kind, cfg)) ==> forall|t: int|
            start <= t < start + run_len_spec(items, start, kind, in_group, last) ==> !(
            #[trigger] items[t]).has_skip_attr && !items[t].has_macro_use_attr,
    decreases items.len() - start,
{
    lemma_run_len_bound(items, start, kind, in_group, last);
    if run_len_spec(items, start, kind, in_group, last) > 0 {
        lemma_run_members_share_kind(cfg, items, start + 1, kind, in_group, items[start].lines);
    }
}

/// Law: when the run's kind is group-bounded, a full blank line between two
/// consecutive same-kind declarations bounds the run — the first declaration
/// forms a run of its own, so the two sides are rewritten independently and
/// the walker copies the blank source gap between them verbatim.
pub proof fn lemma_blank_line_bounds_runs(
    items: Seq<DeclView>,
    start: int,
    kind: ReorderableItemKind,
)
    requires
        0 <= start,
        start + 1 < items.len(),
        reorder_kind_spec(items[start]) == kind,
        decl_wf(items[start]),
        items[start + 1].lines.lo >= items[start].lines.hi + 2,
    ensures
        run_len_spec(items, start, kind, true, items[start].lines) == 1,
{
    assert(run_len_spec(items, start + 1, kind, true, items[start].lines) == 0);
}

/// The run never extends past the end of the sequence.
pub proof fn lemma_run_len_bound(
    items: Seq<DeclView>,
    start: int,
    kind: ReorderableItemKind,
    in_group: bool,
    last: crate::decl::LineRange,
)
    ensures
        0 <= run_len_spec(items, start, kind, in_group, last),
        0 <= start <= items.len() ==> run_len_spec(items, start, kind, in_group, last)
            <= items.len() - start,
    decreases items.len() - start,
{
    if 0 <= start && start < items.len() {
        lemma_run_len_bound(items, start + 1, kind, in_group, items[start].lines);
    }
}

/// The driver of one formatting pass: it reads the configuration and the
/// source snippet provider, and appends replacement text to its output
/// buffer while advancing monotonically through the source.
#[derive(Debug)]
pub struct FmtVisitor {
    pub config: Config,
    /// The source text, used as the snippet provider.
    pub source: String,
    pub shape: Shape,
    /// The output produced so far.
    pub buffer: String,
    /// Position in the source up to which text has been consumed.
    pub last_pos: usize,
}

impl FmtVisitor {
    pub fn new(config: Config, source: String, shape: Shape) -> (v: FmtVisitor)
        ensures
            v.config == config,
            v.source == source,
            v.shape == shape,
            v.buffer@ == Seq::<char>::empty(),
            v.last_pos == 0,
    {
        FmtVisitor { config, source, shape, buffer: String::new(), last_pos: 0 }
    }

    fn count_newlines(s: &str) -> (n: usize)
        ensures
            n == count_newlines_spec(s@),
    {
        let len = s.unicode_len();
        proof {
            assert(s@.skip(0) =~= s@);
        }
        let mut n: usize = 0;
        let mut i: usize = 0;
        while i < len
            invariant
                i <= len,
                len == s@.len(),
                n <= i,
                count_newlines_spec(s@) == n + count_newlines_spec(s@.skip(i as int)),
            decreases len - i,
        {
            let c = s.get_char(i);
            proof {
                assert(s@.skip(i as int).first() == s@[i as int]);
                assert(s@.skip(i as int).drop_first() =~= s@.skip(i + 1));
            }
            if c == '\n' {
                n = n + 1;
            }
            i = i + 1;
        }
        proof {
            assert(s@.skip(len as int) =~= Seq::<char>::empty());
        }
        n
    }

    /// Returns true if the given declaration is a top-level or item-like
    /// construct for which blank-line separation may be applied.
    pub fn is_item_like(item: &Declaration) -> (r: bool)
        ensures
            r == is_item_like_spec(item@.kind),
    {
        match &item.kind {
            crate::decl::ItemKind::Fn => true,
            crate::decl::ItemKind::Struct => true,
            crate::decl::ItemKind::Enum => true,
            crate::decl::ItemKind::Impl => true,
            crate::decl::ItemKind::Trait => true,
            crate::decl::ItemKind::Mod { .. } => true,
            crate::decl::ItemKind::Union => true,
            crate::decl::ItemKind::TyAlias => true,
            crate::decl::ItemKind::Const => true,
            crate::decl::ItemKind::Static => true,
            crate::decl::ItemKind::MacroDef => true,
            crate::decl::ItemKind::MacCall => true,
            _ => false,
        }
    }

    /// Emits the source gap up to `span.lo`, then the replacement text, or
    /// the span's original text when no rewrite is available.
    fn push_rewrite(&mut self, span: Span, rewrite: Option<String>)
        requires
            old(self).last_pos <= span.lo <= span.hi <= old(self).source@.len(),
        ensures
            final(self).buffer@ == old(self).buffer@ + old(self).source@.subrange(
                old(self).last_pos as int,
                span.lo as int,
            ) + (match rewrite {
                Option::Some(s) => s@,
                Option::None => old(self).source@.subrange(span.lo as int, span.hi as int),
            }),
            final(self).last_pos == span.hi,
            final(self).config == old(self).config,
            final(self).source == old(self).source,
            final(self).shape == old(self).shape,
    {
        let gap = self.source.as_str().substring_char(self.last_pos, span.lo);
        self.buffer.append(gap);
        match rewrite {
            Option::Some(s) => {
                self.buffer.append(s.as_str());
            },
            Option::None => {
                let orig = self.source.as_str().substring_char(span.lo, span.hi);
                self.buffer.append(orig);
            },
        }
        self.last_pos = span.hi;
        proof {
            assert(self.buffer@ =~= old(self).buffer@ + old(self).source@.subrange(
                old(self).last_pos as int,
                span.lo as int,
            ) + (match rewrite {
                Option::Some(s) => s@,
                Option::None => old(self).source@.subrange(span.lo as int, span.hi as int),
            }));
        }
    }

    /// Ensures that at least one blank line separates two items: if the
    /// source between them holds fewer than two newline characters, one
    /// synthetic newline is pushed to the output.
    pub fn ensure_blank_line_between_items(&mut self, prev: &Declaration, next: &Declaration)
        requires
            prev@.span.hi <= next@.span.lo <= old(self).source@.len(),
        ensures
            final(self).buffer@ == old(self).buffer@ + blank_text(
                old(self).source@,
                prev@,
                next@,
            ),
            final(self).last_pos == old(self).last_pos,
            final(self).config == old(self).config,
            final(self).source == old(self).source,
            final(self).shape == old(self).shape,
    {
        proof {
            reveal(blank_text);
        }
        let gap = self.source.as_str().substring_char(prev.span.hi, next.span.lo);
        let n = Self::count_newlines(gap);
        if n < 2 {
            self.buffer.append("\n");
        } else {
            proof {
                assert(self.buffer@ =~= old(self).buffer@ + Seq::<char>::empty());
            }
        }
    }

    /// Formats the maximal run of same-kind declarations beginning at
    /// `start` and emits its replacement text, or the original source text
    /// when the rewrite fails. Returns the number of declarations consumed.
    pub fn walk_reorderable_or_regroupable_items(
        &mut self,
        items: &Vec<Declaration>,
        start: usize,
        item_kind: ReorderableItemKind,
        in_group: bool,
    ) -> (count: usize)
        requires
            start < items@.len(),
            decls_ordered(decls_view(items@), old(self).source@.len() as int),
            old(self).last_pos <= decls_view(items@)[start as int].span.lo,
            item_kind == reorder_kind_spec(decls_view(items@)[start as int]),
        ensures
            ({
                let dv = decls_view(items@);
                let cnt = run_len_spec(dv, start as int, item_kind, in_group, dv[start as int].lines);
                &&& count == cnt
                &&& 1 <= count <= dv.len() - start
                &&& final(self).last_pos == dv[start + cnt - 1].span.hi
                &&& final(self).buffer@ == old(self).buffer@ + old(self).source@.subrange(
                    old(self).last_pos as int,
                    dv[start as int].span.lo as int,
                ) + (match rewrite_run_spec(
                    old(self).config,
                    old(self).shape,
                    dv.subrange(start as int, start + cnt),
                ) {
                    Result::Ok(s) => s,
                    Result::Err(_) => old(self).source@.subrange(
                        dv[start as int].span.lo as int,
                        dv[start + cnt - 1].span.hi as int,
                    ),
                })
                &&& final(self).config == old(self).config
                &&& final(self).source == old(self).source
                &&& final(self).shape == old(self).shape
            }),
    {
        let ghost dv = decls_view(items@);
        proof {
            lemma_decls_view_len(items@);
            lemma_run_len_bound(dv, start as int, item_kind, in_group, dv[start as int].lines);
        }
        let n = items.len();
        let mut end = start;
        let mut last = items[start].lines;
        loop
            invariant
                start <= end <= n,
                n == items@.len(),
                dv == decls_view(items@),
                dv.len() == n,
                forall|j: int| 0 <= j < n ==> dv[j] == items@[j]@,
                forall|j: int| 0 <= j < n ==> decl_wf(#[trigger] dv[j]),
                end == start ==> last == dv[start as int].lines,
                end > start ==> last == dv[end - 1].lines,
                run_len_spec(dv, start as int, item_kind, in_group, dv[start as int].lines) == end
                    - start + run_len_spec(dv, end as int, item_kind, in_group, last),
            ensures
                start <= end <= n,
                run_len_spec(dv, start as int, item_kind, in_group, dv[start as int].lines) == end
                    - start,
            decreases n - end,
        {
            if end == n {
                break ;
            }
            let same = item_kind.is_same_item_kind(&items[end]);
            if !same {
                break ;
            }
            if in_group {
                let cur = items[end].lines;
                let in_same_group = cur.lo <= last.hi || cur.lo - last.hi == 1;
                if !in_same_group {
                    proof {
                        assert(!(dv[end as int].lines.lo < last.hi + 2));
                        assert(run_len_spec(dv, end as int, item_kind, in_group, last) == 0);
                    }
                    break ;
                }
                proof {
                    assert(dv[end as int].lines.lo < last.hi + 2);
                }
                last = cur;
            } else {
                last = items[end].lines;
            }
            end = end + 1;
        }
        let count = end - start;
        proof {
            assert(decl_wf(dv[start as int]));
            lemma_run_len_bound(dv, start + 1 as int, item_kind, in_group, dv[start as int].lines);
            assert(run_len_spec(dv, start as int, item_kind, in_group, dv[start as int].lines)
                >= 1);
        }
        // clone the run and rewrite it as one region
        let mut run: Vec<Declaration> = Vec::new();
        let mut k = start;
        while k < end
            invariant
                start <= k <= end <= n,
                n == items@.len(),
                dv == decls_view(items@),
                dv.len() == n,
                forall|j: int| 0 <= j < n ==> dv[j] == items@[j]@,
                forall|j: int| 0 <= j < n ==> decl_wf(#[trigger] dv[j]),
                decls_view(run@) == dv.subrange(start as int, k as int),
            decreases end - k,
        {
            let ghost prevr = run@;
            let d = crate::decl::clone_declaration(&items[k]);
            run.push(d);
            proof {
                assert(run@.drop_last() =~= prevr);
                lemma_decls_view_len(run@);
                assert(decls_view(run@) =~= dv.subrange(start as int, k + 1 as int));
            }
            k = k + 1;
        }
        proof {
            lemma_decls_view_len(run@);
            assert forall|j: int| 0 <= j < decls_view(run@).len() implies decl_wf(
                #[trigger] decls_view(run@)[j],
            ) by {
                assert(decls_view(run@)[j] == dv[start + j]);
            }
        }
        proof {
            assert forall|j: int| 0 <= j < run@.len() implies crate::decl::decl_wf(
                #[trigger] run@[j]@,
            ) by {
                assert(run@[j]@ == decls_view(run@)[j]);
                assert(decls_view(run@)[j] == dv[start + j]);
            }
        }
        let cfg = self.config;
        let shape = self.shape;
        let rw = rewrite_reorderable_or_regroupable_items(&cfg, &run, &shape);
        let span = Span { lo: items[start].span.lo, hi: items[end - 1].span.hi };
        proof {
            if start as int == end - 1 {
            } else {
                assert(dv[start as int].span.hi <= dv[end - 1].span.lo);
            }
        }
        match rw {
            Result::Ok(s) => {
                self.push_rewrite(span, Option::Some(s));
            },
            Result::Err(_) => {
                self.push_rewrite(span, Option::None);
            },
        }
        count
    }

    /// Visits and formats the given declarations: consecutive reorderable or
    /// regroupable declarations are rewritten as runs, everything else is
    /// emitted unchanged. Before emitting any run or singly-visited
    /// declaration, a blank-line separator is ensured against the previously
    /// emitted declaration when either side is item-like, so rewriting a run
    /// never collapses a blank separator before a following declaration.
    #[verifier::rlimit(100)]
    pub fn visit_items_with_reordering(&mut self, items: &Vec<Declaration>)
        requires
            decls_ordered(decls_view(items@), old(self).source@.len() as int),
            old(self).last_pos <= old(self).source@.len(),
            items@.len() > 0 ==> old(self).last_pos <= decls_view(items@)[0].span.lo,
        ensures
            final(self).buffer@ == old(self).buffer@ + visit_spec(
                old(self).config,
                old(self).shape,
                old(self).source@,
                decls_view(items@),
                0,
                old(self).last_pos as int,
                Option::None,
            ),
            final(self).config == old(self).config,
            final(self).source == old(self).source,
            final(self).shape == old(self).shape,
    {
        let ghost dv = decls_view(items@);
        let ghost cfg0 = self.config;
        let ghost shape0 = self.shape;
        let ghost src0 = self.source@;
        let ghost p0 = self.last_pos as int;
        proof {
            lemma_decls_view_len(items@);
        }
        let n = items.len();
        let mut idx: usize = 0;
        let mut prev: Option<usize> = Option::None;
        let ghost mut prevv: Option<DeclView> = Option::None;
        loop
            invariant
                idx <= n,
                n == items@.len(),
                dv == decls_view(items@),
                dv.len() == n,
                forall|j: int| 0 <= j < n ==> dv[j] == items@[j]@,
                decls_ordered(dv, src0.len() as int),
                self.config == cfg0,
                self.shape == shape0,
                self.config == old(self).config,
                self.shape == old(self).shape,
                self.source == old(self).source,
                self.source@ == src0,
                idx < n ==> self.last_pos <= dv[idx as int].span.lo,
                self.last_pos <= src0.len(),
                (match prev {
                    Option::Some(pi) => pi < idx && idx <= n && prevv == Option::Some(
                        dv[pi as int],
                    ),
                    Option::None => prevv is None,
                }),
                old(self).buffer@ + visit_spec(cfg0, shape0, src0, dv, 0, p0, Option::None)
                    == self.buffer@ + visit_spec(
                    cfg0,
                    shape0,
                    src0,
                    dv,
                    idx as int,
                    self.last_pos as int,
                    prevv,
                ),
            ensures
                self.config == old(self).config,
                self.shape == old(self).shape,
                self.source == old(self).source,
                self.buffer@ == old(self).buffer@ + visit_spec(
                    cfg0,
                    shape0,
                    src0,
                    dv,
                    0,
                    p0,
                    Option::None,
                ),
            decreases n - idx,
        {
            if idx == n {
                proof {
                    lemma_visit_step_end(
                        cfg0,
                        shape0,
                        src0,
                        dv,
                        idx as int,
                        self.last_pos as int,
                        prevv,
                    );
                    assert(self.buffer@ + Seq::<char>::empty() =~= self.buffer@);
                }
                break ;
            }
            let item_kind = ReorderableItemKind::from(&items[idx]);
            let cfg = self.config;
            let reorderable = item_kind.is_reorderable(&cfg);
            let regroupable = item_kind.is_regroupable(&cfg);
            if reorderable || regroupable {
                let in_grp = item_kind.in_group(&cfg);
                let ghost pre_buf = self.buffer@;
                let ghost pre_pos = self.last_pos as int;
                let ghost oldprev = prevv;
                match prev {
                    Option::Some(pi) => {
                        proof {
                            assert(dv[pi as int].span.hi <= dv[idx as int].span.lo);
                            assert(dv[idx as int].span.lo <= src0.len()) by {
                                assert(decl_wf(dv[idx as int]));
                            }
                        }
                        self.maybe_ensure_blank_between(Option::Some(&items[pi]), &items[idx]);
                    },
                    Option::None => {
                        self.maybe_ensure_blank_between(Option::None, &items[idx]);
                    },
                }
                let visited = self.walk_reorderable_or_regroupable_items(
                    items,
                    idx,
                    item_kind,
                    in_grp,
                );
                proof {
                    lemma_run_len_bound(dv, idx as int, item_kind, in_grp, dv[idx as int].lines);
                }
                prev = Option::Some(idx + visited - 1);
                proof {
                    prevv = Option::Some(dv[idx + visited - 1]);
                    let stepped = idx + visited;
                    lemma_visit_step_run(
                        cfg0,
                        shape0,
                        src0,
                        dv,
                        idx as int,
                        pre_pos,
                        oldprev,
                        visited as int,
                    );
                    let blank = maybe_blank_text(src0, oldprev, dv[idx as int]);
                    let emitted = src0.subrange(pre_pos, dv[idx as int].span.lo as int) + (
                    match rewrite_run_spec(cfg0, shape0, dv.subrange(idx as int, stepped as int)) {
                        Result::Ok(sx) => sx,
                        Result::Err(_) => src0.subrange(
                            dv[idx as int].span.lo as int,
                            dv[stepped - 1].span.hi as int,
                        ),
                    });
                    let tail = visit_spec(
                        cfg0,
                        shape0,
                        src0,
                        dv,
                        stepped as int,
                        dv[stepped - 1].span.hi as int,
                        Option::Some(dv[stepped - 1]),
                    );
                    assert(self.buffer@ =~= pre_buf + blank + emitted);
                    assert(pre_buf + (blank + emitted + tail) =~= (pre_buf + blank + emitted)
                        + tail);
                    if stepped < n {
                        assert(dv[stepped - 1].span.hi <= dv[stepped as int].span.lo);
                    }
                }
                idx = idx + visited;
            } else {
                let ghost pre_buf = self.buffer@;
                let ghost pre_pos = self.last_pos as int;
                match prev {
                    Option::Some(pi) => {
                        proof {
                            assert(dv[pi as int].span.hi <= dv[idx as int].span.lo);
                        }
                        self.maybe_ensure_blank_between(Option::Some(&items[pi]), &items[idx]);
                    },
                    Option::None => {
                        self.maybe_ensure_blank_between(Option::None, &items[idx]);
                    },
                }
                let ghost oldprev = prevv;
                proof {
                    assert(decl_wf(dv[idx as int]));
                }
                let ghost mid_buf = self.buffer@;
                let span = items[idx].span;
                self.push_rewrite(span, Option::None);
                prev = Option::Some(idx);
                proof {
                    prevv = Option::Some(dv[idx as int]);
                    lemma_visit_step_single(cfg0, shape0, src0, dv, idx as int, pre_pos, oldprev);
                    let blank = maybe_blank_text(src0, oldprev, dv[idx as int]);
                    let emitted = src0.subrange(pre_pos, dv[idx as int].span.lo as int)
                        + src0.subrange(
                        dv[idx as int].span.lo as int,
                        dv[idx as int].span.hi as int,
                    );
                    let tail = visit_spec(
                        cfg0,
                        shape0,
                        src0,
                        dv,
                        idx + 1,
                        dv[idx as int].span.hi as int,
                        Option::Some(dv[idx as int]),
                    );
                    assert(self.buffer@ =~= pre_buf + blank + emitted);
                    assert(pre_buf + (blank + emitted + tail) =~= (pre_buf + blank + emitted)
                        + tail);
                    if idx + 1 < n {
                        assert(dv[idx as int].span.hi <= dv[idx + 1].span.lo);
                    }
                }
                idx = idx + 1;
            }
        }
    }

    /// Inserts a blank line between two items if needed.
    pub fn maybe_ensure_blank_between(&mut self, prev: Option<&Declaration>, next: &Declaration)
        requires
            (match prev {
                Option::Some(p) => p@.span.hi <= next@.span.lo <= old(self).source@.len(),
                Option::None => true,
            }),
        ensures
            final(self).buffer@ == old(self).buffer@ + maybe_blank_text(
                old(self).source@,
                (match prev {
                    Option::Some(p) => Option::Some(p@),
                    Option::None => Option::None,
                }),
                next@,
            ),
            final(self).last_pos == old(self).last_pos,
            final(self).config == old(self).config,
            final(self).source == old(self).source,
            final(self).shape == old(self).shape,
    {
        proof {
            reveal(maybe_blank_text);
        }
        match prev {
            Option::Some(prev_item) => {
                if Self::is_item_like(prev_item) || Self::is_item_like(next) {
                    self.ensure_blank_line_between_items(prev_item, next);
                } else {
                    proof {
                        assert(self.buffer@ =~= old(self).buffer@ + Seq::<char>::empty());
                    }
                }
            },
            Option::None => {
                proof {
                    assert(self.buffer@ =~= old(self).buffer@ + Seq::<char>::empty());
                }
            },
        }
    }
}

} // verus!
