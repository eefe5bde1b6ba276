use reorder::config::{Config, GroupImportsTactic, ImportGranularity};
use reorder::decl::{Declaration, ItemKind, LineRange, Span};
use reorder::imports::{UseSegment, UseTree};
use reorder::reorder::{
    ListItem, ReorderableItemKind, RewriteError, Shape, compare_items, group_imports,
    rewrite_reorderable_item, rewrite_reorderable_or_regroupable_items, wrap_reorderable_items,
};
use reorder::sort::{ItemOrdering, lexicographic_cmp, version_sort};
use reorder::visitor::FmtVisitor;

fn cfg(legacy: bool) -> Config {
    Config {
        reorder_imports: true,
        reorder_modules: true,
        group_imports: GroupImportsTactic::Preserve,
        imports_granularity: ImportGranularity::Preserve,
        style_edition: if legacy { 2015 } else { 2024 },
        style_edition_threshold: 2021,
    }
}

fn shape() -> Shape {
    Shape { width: 100, indent: 0 }
}

fn ident(name: &str) -> UseSegment {
    UseSegment::Ident { name: name.to_string(), alias: None }
}

fn use_tree(names: &[&str]) -> UseTree {
    UseTree { path: names.iter().map(|n| ident(n)).collect(), comment: None }
}

fn decl(kind: ItemKind, lo: usize, hi: usize, line_lo: usize, line_hi: usize) -> Declaration {
    Declaration {
        kind,
        span: Span { lo, hi },
        lines: LineRange { lo: line_lo, hi: line_hi },
        has_skip_attr: false,
        has_macro_use_attr: false,
        leading_comment: None,
        trailing_comment: None,
    }
}

fn mod_decl(name: &str, lo: usize, hi: usize, line: usize) -> Declaration {
    decl(ItemKind::Mod { name: name.to_string(), is_decl: true }, lo, hi, line, line)
}

fn render(t: &UseTree) -> String {
    let mut s = String::new();
    reorder::imports::render_use_tree(t, &mut s);
    s
}

fn leaf_paths(trees: &Vec<UseTree>) -> Vec<String> {
    let flat = reorder::imports::flatten_use_trees(trees);
    let mut out: Vec<String> = flat.iter().map(|t| render(t)).collect();
    out.sort();
    out
}

fn run_visitor(config: Config, source: &str, items: &Vec<Declaration>) -> String {
    let mut v = FmtVisitor::new(config, source.to_string(), shape());
    v.visit_items_with_reordering(items);
    let mut out = v.buffer;
    out.push_str(&source[v.last_pos..]);
    out
}

#[test]
fn version_sort_compares_digit_runs_by_value() {
    assert_eq!(version_sort("item2", "item10"), ItemOrdering::Less);
    assert_eq!(version_sort("item10", "item2"), ItemOrdering::Greater);
    assert_eq!(version_sort("item1", "item1"), ItemOrdering::Equal);
    assert_eq!(lexicographic_cmp("item10", "item2"), ItemOrdering::Less);
    assert_eq!(lexicographic_cmp("item1", "item10"), ItemOrdering::Less);
}

#[test]
fn edition_sensitivity_orders_modules() {
    // legacy edition: lexicographic order item1, item10, item2
    let items = vec![
        mod_decl("item2", 0, 10, 1),
        mod_decl("item10", 11, 22, 2),
        mod_decl("item1", 23, 33, 3),
    ];
    let legacy = rewrite_reorderable_or_regroupable_items(&cfg(true), &items, &shape()).unwrap();
    assert_eq!(legacy, "mod item1;\nmod item10;\nmod item2;");
    // modern edition: natural order item1, item2, item10
    let modern = rewrite_reorderable_or_regroupable_items(&cfg(false), &items, &shape()).unwrap();
    assert_eq!(modern, "mod item1;\nmod item2;\nmod item10;");
}

#[test]
fn extern_crate_unaliased_sorts_before_aliased() {
    let plain = decl(
        ItemKind::ExternCrate { orig_name: None, ident: "serde".to_string() },
        0,
        19,
        1,
        1,
    );
    let aliased = decl(
        ItemKind::ExternCrate {
            orig_name: Some("serde".to_string()),
            ident: "sd".to_string(),
        },
        20,
        45,
        2,
        2,
    );
    let c = cfg(false);
    assert_eq!(compare_items(&plain, &aliased, &c), ItemOrdering::Less);
    assert_eq!(compare_items(&aliased, &plain, &c), ItemOrdering::Greater);
    assert_eq!(compare_items(&plain, &plain, &c), ItemOrdering::Equal);
    let items = vec![aliased, plain];
    let out = rewrite_reorderable_or_regroupable_items(&c, &items, &shape()).unwrap();
    assert_eq!(out, "extern crate serde;\nextern crate serde as sd;");
}

#[test]
fn grouping_scenario_std_external_local() {
    // use std::fmt; use foo::bar; use self::baz; under StdExternalCrate
    let mut c = cfg(false);
    c.group_imports = GroupImportsTactic::StdExternalCrate;
    let items = vec![
        decl(ItemKind::Use(use_tree(&["std", "fmt"])), 0, 13, 1, 1),
        decl(ItemKind::Use(use_tree(&["foo", "bar"])), 14, 27, 2, 2),
        decl(
            ItemKind::Use(UseTree { path: vec![UseSegment::Slf, ident("baz")], comment: None }),
            28,
            42,
            3,
            3,
        ),
    ];
    let out = rewrite_reorderable_or_regroupable_items(&c, &items, &shape()).unwrap();
    assert_eq!(out, "use std::fmt;\n\nuse foo::bar;\n\nuse self::baz;");
}

#[test]
fn blank_line_splits_module_runs() {
    // two module declarations separated by a blank line stay two runs, and
    // the blank line survives
    let source = "mod b;\n\nmod a;";
    let items = vec![mod_decl("b", 0, 6, 1), mod_decl("a", 8, 14, 3)];
    let out = run_visitor(cfg(false), source, &items);
    assert_eq!(out, "mod b;\n\nmod a;");
}

#[test]
fn adjacent_module_runs_are_sorted() {
    let source = "mod b;\nmod a;";
    let items = vec![mod_decl("b", 0, 6, 1), mod_decl("a", 7, 13, 2)];
    let out = run_visitor(cfg(false), source, &items);
    assert_eq!(out, "mod a;\nmod b;");
}

#[test]
fn opt_out_scenario_skip_marker_splits_run() {
    // the middle import carries a skip marker: it keeps its original text
    // byte for byte while its neighbors reorder around it
    let source = "use b;\nuse   x ;\nuse a;";
    let mut skipped = decl(ItemKind::Use(use_tree(&["x"])), 7, 16, 2, 2);
    skipped.has_skip_attr = true;
    let items = vec![
        decl(ItemKind::Use(use_tree(&["b"])), 0, 6, 1, 1),
        skipped,
        decl(ItemKind::Use(use_tree(&["a"])), 17, 23, 3, 3),
    ];
    assert_eq!(ReorderableItemKind::from(&items[1]), ReorderableItemKind::Other);
    let out = run_visitor(cfg(false), source, &items);
    assert_eq!(out, "use b;\nuse   x ;\nuse a;");
}

#[test]
fn failure_fallback_emits_original_run() {
    // the run cannot be laid out within the width: its whole span stays as
    // the original source text, not a partially sorted result
    let source = "mod zeta;\nmod alphabeticallylongname;";
    let items = vec![mod_decl("zeta", 0, 9, 1), mod_decl("alphabeticallylongname", 10, 37, 2)];
    let mut v = FmtVisitor::new(cfg(false), source.to_string(), Shape { width: 12, indent: 0 });
    v.visit_items_with_reordering(&items);
    let mut out = v.buffer;
    out.push_str(&source[v.last_pos..]);
    assert_eq!(out, source);
}

#[test]
fn unsupported_variant_fails_the_whole_run() {
    let items = vec![mod_decl("b", 0, 6, 1), decl(ItemKind::Fn, 7, 20, 2, 2)];
    let r = rewrite_reorderable_or_regroupable_items(&cfg(false), &items, &shape());
    assert_eq!(r, Err(RewriteError::UnsupportedDeclarationVariant));
}

#[test]
fn foreign_kind_in_import_run_is_unknown() {
    let items = vec![
        decl(ItemKind::Use(use_tree(&["a"])), 0, 6, 1, 1),
        mod_decl("b", 7, 13, 2),
    ];
    let r = rewrite_reorderable_or_regroupable_items(&cfg(false), &items, &shape());
    assert_eq!(r, Err(RewriteError::Unknown));
}

#[test]
fn layout_overflow_is_reported() {
    let items = vec![mod_decl("averyveryverylongmodulename", 0, 32, 1)];
    let r = rewrite_reorderable_or_regroupable_items(
        &cfg(false),
        &items,
        &Shape { width: 10, indent: 0 },
    );
    assert_eq!(r, Err(RewriteError::LayoutOverflow));
}

#[test]
fn crate_granularity_merges_and_preserves_leaves() {
    let trees = vec![use_tree(&["a", "c"]), use_tree(&["b", "x"]), use_tree(&["a", "b"])];
    let before = leaf_paths(&trees);
    let merged = reorder::imports::normalize_use_trees_with_granularity(
        trees,
        ImportGranularity::Crate,
        false,
    );
    let after = leaf_paths(&merged);
    assert_eq!(before, after);
    let rendered: Vec<String> = merged.iter().map(|t| render(t)).collect();
    assert_eq!(rendered, vec!["a::{b, c}".to_string(), "b::x".to_string()]);
}

#[test]
fn item_granularity_flattens_nested_lists() {
    let nested = UseTree {
        path: vec![
            ident("a"),
            UseSegment::List(vec![use_tree(&["b"]), use_tree(&["c", "d"])]),
        ],
        comment: None,
    };
    let before = leaf_paths(&vec![
        UseTree { path: nested.path.iter().map(clone_seg_helper).collect(), comment: None },
    ]);
    let split = reorder::imports::normalize_use_trees_with_granularity(
        vec![nested],
        ImportGranularity::Item,
        false,
    );
    let after = leaf_paths(&split);
    assert_eq!(before, after);
    let rendered: Vec<String> = split.iter().map(|t| render(t)).collect();
    assert_eq!(rendered, vec!["a::b".to_string(), "a::c::d".to_string()]);
}

fn clone_seg_helper(s: &UseSegment) -> UseSegment {
    reorder::imports::clone_seg(s)
}

#[test]
fn one_granularity_merges_whole_run() {
    let trees = vec![use_tree(&["c", "d"]), use_tree(&["a", "b"])];
    let before = leaf_paths(&trees);
    let merged = reorder::imports::normalize_use_trees_with_granularity(
        trees,
        ImportGranularity::One,
        false,
    );
    let after = leaf_paths(&merged);
    assert_eq!(before, after);
    let rendered: Vec<String> = merged.iter().map(|t| render(t)).collect();
    assert_eq!(rendered, vec!["{a::b, c::d}".to_string()]);
}

#[test]
fn idempotence_on_own_output() {
    // re-running the pipeline on its own output, with the same
    // configuration, is byte-identical
    let source = "use c::d;\nuse a::b;";
    let items = vec![
        decl(ItemKind::Use(use_tree(&["c", "d"])), 0, 9, 1, 1),
        decl(ItemKind::Use(use_tree(&["a", "b"])), 10, 19, 2, 2),
    ];
    let out1 = run_visitor(cfg(false), source, &items);
    assert_eq!(out1, "use a::b;\nuse c::d;");
    let items2 = vec![
        decl(ItemKind::Use(use_tree(&["a", "b"])), 0, 9, 1, 1),
        decl(ItemKind::Use(use_tree(&["c", "d"])), 10, 19, 2, 2),
    ];
    let out2 = run_visitor(cfg(false), &out1, &items2);
    assert_eq!(out2, out1);
}

#[test]
fn group_imports_partitions_in_order() {
    let trees = vec![
        use_tree(&["x", "y"]),
        use_tree(&["std", "fmt"]),
        UseTree { path: vec![UseSegment::Super, ident("z")], comment: None },
        use_tree(&["core", "mem"]),
    ];
    let groups = group_imports(trees);
    assert_eq!(groups.len(), 3);
    let std_names: Vec<String> = groups[0].iter().map(|t| render(t)).collect();
    let ext_names: Vec<String> = groups[1].iter().map(|t| render(t)).collect();
    let loc_names: Vec<String> = groups[2].iter().map(|t| render(t)).collect();
    assert_eq!(std_names, vec!["std::fmt".to_string(), "core::mem".to_string()]);
    assert_eq!(ext_names, vec!["x::y".to_string()]);
    assert_eq!(loc_names, vec!["super::z".to_string()]);
}

#[test]
fn classifier_honors_markers_and_inline_modules() {
    let mut m = mod_decl("a", 0, 6, 1);
    m.has_macro_use_attr = true;
    assert_eq!(ReorderableItemKind::from(&m), ReorderableItemKind::Other);
    let inline = decl(ItemKind::Mod { name: "a".to_string(), is_decl: false }, 0, 10, 1, 1);
    assert_eq!(ReorderableItemKind::from(&inline), ReorderableItemKind::Other);
    let fwd = mod_decl("a", 0, 6, 1);
    assert_eq!(ReorderableItemKind::from(&fwd), ReorderableItemKind::Mod);
    let ec = decl(
        ItemKind::ExternCrate { orig_name: None, ident: "serde".to_string() },
        0,
        19,
        1,
        1,
    );
    assert_eq!(ReorderableItemKind::from(&ec), ReorderableItemKind::ExternCrate);
    // configuration switches
    let c = cfg(false);
    assert!(ReorderableItemKind::Mod.is_reorderable(&c));
    assert!(!ReorderableItemKind::Other.is_reorderable(&c));
    assert!(!ReorderableItemKind::Use.is_regroupable(&c));
    let mut c2 = c;
    c2.group_imports = GroupImportsTactic::StdExternalCrate;
    assert!(ReorderableItemKind::Use.is_regroupable(&c2));
    assert!(ReorderableItemKind::Mod.in_group(&c2));
    assert!(ReorderableItemKind::Use.in_group(&c));
    assert!(!ReorderableItemKind::Use.in_group(&c2));
}

#[test]
fn rewrite_single_items_exactly() {
    let m = mod_decl("alpha", 0, 10, 1);
    assert_eq!(rewrite_reorderable_item(&m, &shape()).unwrap(), "mod alpha;");
    let ec = decl(
        ItemKind::ExternCrate {
            orig_name: Some("foo".to_string()),
            ident: "bar".to_string(),
        },
        0,
        25,
        1,
        1,
    );
    assert_eq!(rewrite_reorderable_item(&ec, &shape()).unwrap(), "extern crate foo as bar;");
    assert_eq!(
        rewrite_reorderable_item(&decl(ItemKind::Struct, 0, 5, 1, 1), &shape()),
        Err(RewriteError::UnsupportedDeclarationVariant)
    );
}

#[test]
fn wrap_joins_units_and_propagates_errors() {
    let items = vec![
        ListItem {
            pre_comment: Some("// first".to_string()),
            post_comment: None,
            item: Ok("mod a;".to_string()),
        },
        ListItem {
            pre_comment: None,
            post_comment: Some("// after".to_string()),
            item: Ok("mod b;".to_string()),
        },
    ];
    let out = wrap_reorderable_items(&items, &Shape { width: 80, indent: 2 }).unwrap();
    assert_eq!(out, "// first\n  mod a;\n  mod b; // after");
    let failing = vec![ListItem {
        pre_comment: None,
        post_comment: None,
        item: Err(RewriteError::LayoutOverflow),
    }];
    assert_eq!(
        wrap_reorderable_items(&failing, &shape()),
        Err(RewriteError::LayoutOverflow)
    );
}

#[test]
fn renames_and_markers_render_in_import_lines() {
    let t = UseTree {
        path: vec![
            UseSegment::CrateRoot,
            UseSegment::Ident { name: "util".to_string(), alias: Some("u".to_string()) },
            UseSegment::Glob,
        ],
        comment: None,
    };
    assert_eq!(render(&t), "crate::util as u::*");
    let items = vec![decl(ItemKind::Use(use_tree(&["m", "n"])), 0, 9, 1, 1)];
    let out = rewrite_reorderable_or_regroupable_items(&cfg(false), &items, &shape()).unwrap();
    assert_eq!(out, "use m::n;");
}

#[test]
fn module_granularity_merges_shared_prefix() {
    let trees = vec![use_tree(&["a", "b", "d"]), use_tree(&["a", "b", "c"])];
    let before = leaf_paths(&trees);
    let merged = reorder::imports::normalize_use_trees_with_granularity(
        trees,
        ImportGranularity::Module,
        false,
    );
    assert_eq!(before, leaf_paths(&merged));
    let rendered: Vec<String> = merged.iter().map(|t| render(t)).collect();
    assert_eq!(rendered, vec!["a::b::{c, d}".to_string()]);
}

#[test]
fn blank_inserted_before_item_like_run() {
    // rewriting an import run never collapses the separator before a
    // following item-like declaration: the walker inserts a synthetic
    // newline when the original gap holds fewer than two
    let source = "use x;\nmod a;";
    let items = vec![
        decl(ItemKind::Use(use_tree(&["x"])), 0, 6, 1, 1),
        mod_decl("a", 7, 13, 2),
    ];
    let out = run_visitor(cfg(false), source, &items);
    assert_eq!(out, "use x;\n\nmod a;");
}

#[test]
fn blank_inserted_before_singly_visited_item() {
    let source = "use x;\nfn f() {}";
    let items = vec![
        decl(ItemKind::Use(use_tree(&["x"])), 0, 6, 1, 1),
        decl(ItemKind::Fn, 7, 16, 2, 2),
    ];
    let out = run_visitor(cfg(false), source, &items);
    assert_eq!(out, "use x;\n\nfn f() {}");
}

#[test]
fn import_comment_travels_with_its_tree() {
    // the leading comment attached to an import declaration follows its
    // tree through sorting and is re-attached above the rendered line
    let source = "// note\nuse c::d;\nuse a::b;";
    let mut first = decl(ItemKind::Use(use_tree(&["c", "d"])), 8, 17, 2, 2);
    first.leading_comment = Some("// note".to_string());
    let items = vec![first, decl(ItemKind::Use(use_tree(&["a", "b"])), 18, 27, 3, 3)];
    let run = rewrite_reorderable_or_regroupable_items(&cfg(false), &items, &shape()).unwrap();
    assert_eq!(run, "use a::b;\n// note\nuse c::d;");
}

#[test]
fn trailing_comment_follows_its_module() {
    let mut b = mod_decl("b", 0, 6, 1);
    b.trailing_comment = Some("// tail".to_string());
    let items = vec![b, mod_decl("a", 7, 13, 2)];
    let out = rewrite_reorderable_or_regroupable_items(&cfg(false), &items, &shape()).unwrap();
    assert_eq!(out, "mod a;\nmod b; // tail");
}
