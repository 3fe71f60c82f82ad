use vstd::prelude::*;

use crate::config::{same_text, AutoGenConfig, DirectoryWithoutIndexBehavior};
use crate::fingerprint::fingerprint_of;
use crate::render::{
    body_lines, is_outline_itself, render_summary, summary_text, top_lines, SUMMARY_FILE,
};
use crate::sort::{
    distinct_keys, insert_pos, lemma_distinct_keys_kept, lemma_insert_pos, lemma_insert_pos_by_key,
    lemma_sort_ignores_listing_order,
    sort_entry_recursive, sort_models, sorted_kids, sorted_tree,
};
use crate::text::is_markdown;
use crate::tree::{
    doc_entries, doc_entry, is_index_name, last_index, lemma_doc_entries_concat,
    lemma_ignored_directory_is_absent, lemma_insert_split, lemma_last_index,
    lemma_children_keys, lemma_last_index_concat, lemma_push_injective, lemma_stubs_change_nothing,
    names_unique, resolve_dir, stub_views, sub_results, walk_dir, with_stubs,
    DirNode, EntryModel, FileNode, PathModel,
};

verus! {

/// The name under which the book's build knows this preprocessor.
pub const PREPROCESSOR_NAME: &'static str = "auto-gen-summary";

/// The title of the root entry, unless it takes its index's heading.
pub const ROOT_TITLE: &'static str = "Welcome";

/// The preprocessor that keeps a book's outline in step with its source tree.
pub struct AutoGenSummary;

impl AutoGenSummary {
    pub fn new() -> (r: AutoGenSummary) {
        AutoGenSummary
    }

    /// The preprocessor's name.
    pub fn name(&self) -> (r: &'static str)
        ensures
            r@ == PREPROCESSOR_NAME@,
    {
        PREPROCESSOR_NAME
    }

    /// Every renderer is supported but the one named `not-supported`.
    pub fn supports_renderer(&self, renderer: &str) -> (r: bool)
        ensures
            r == (renderer@ != "not-supported"@),
    {
        !same_text(renderer, "not-supported")
    }
}

/// The root entry as the outline shows it: titled `Welcome` unless
/// directory titles come from headings.
pub open spec fn with_root_title(e: EntryModel, cfg: AutoGenConfig) -> EntryModel {
    if cfg.index_first_line_as_directory_link_text {
        e
    } else {
        EntryModel { title: ROOT_TITLE@, ..e }
    }
}

/// The outline of the source tree `d`: its root resolved, retitled and
/// sorted; none where the root is left out.
pub open spec fn outline(d: DirNode, cfg: AutoGenConfig) -> Option<EntryModel> {
    match resolve_dir(d, Seq::empty(), cfg).0 {
        None => None,
        Some(e) => Some(sorted_tree(with_root_title(e, cfg))),
    }
}

/// What a run computes: the outline's text, and the stub index documents
/// to create, as paths from the source root.
pub struct Generation {
    pub content: String,
    pub stubs: Vec<Vec<String>>,
    /// False where the root was left out: the outline is then only its heading.
    pub root_found: bool,
}

/// Builds the outline of the source tree `source_dir` (its root).
pub fn gen_summary(source_dir: &DirNode, config: &AutoGenConfig) -> (r: Generation)
    ensures
        r.content@ == summary_text(outline(*source_dir, *config)),
        stub_views(r.stubs@) == resolve_dir(*source_dir, Seq::empty(), *config).1,
        r.root_found == outline(*source_dir, *config) is Some,
{
    let root: Vec<String> = Vec::new();
    let mut stubs: Vec<Vec<String>> = Vec::new();
    assert(crate::config::views(root@) =~= Seq::<Seq<char>>::empty());
    let group = walk_dir(source_dir, &root, config, &mut stubs);
    assert(stub_views(stubs@) =~= resolve_dir(*source_dir, Seq::empty(), *config).1);
    let root_found = group.is_some();
    let group = match group {
        Some(mut group) => {
            if !config.index_first_line_as_directory_link_text {
                group.title = String::from_str(ROOT_TITLE);
            }
            sort_entry_recursive(&mut group);
            Some(group)
        },
        None => None,
    };
    let content = render_summary(&group);
    Generation { content, stubs, root_found }
}

/// Under the ignore policy, where the index names are markdown names and the
/// source root holds no markdown document, the root is left out and the
/// outline is its heading and a blank line.
pub proof fn lemma_tree_without_documents(d: DirNode, cfg: AutoGenConfig)
    requires
        cfg.directory_without_index_behavior == DirectoryWithoutIndexBehavior::Ignore,
        forall|k: int| 0 <= k < cfg.index_names().len() ==> is_markdown(#[trigger] cfg.index_names()[k]),
        forall|i: int| 0 <= i < d.files@.len() ==> !is_markdown(#[trigger] d.files@[i].name@),
    ensures
        outline(d, cfg) is None,
        summary_text(outline(d, cfg)) == "# Summary\n\n"@,
{
    assert forall|i: int| 0 <= i < d.files@.len() implies !is_index_name(
        cfg,
        #[trigger] d.files@[i].name@,
    ) by {
        assert(!is_markdown(d.files@[i].name@));
    }
    lemma_ignored_directory_is_absent(d, Seq::empty(), cfg);
    reveal_strlit("# Summary\n\n");
    reveal_strlit("# Summary\n");
    assert(summary_text(outline(d, cfg)) =~= "# Summary\n\n"@);
}

/// Leaving out the outline document itself: an entry for it, put anywhere
/// among the top-level entries, adds no line.
pub proof fn lemma_outline_entry_adds_no_line(
    r: Seq<EntryModel>,
    p: int,
    x: EntryModel,
    i: int,
    last_was_dir: bool,
)
    requires
        0 <= i <= p <= r.len(),
        is_outline_itself(x),
    ensures
        top_lines(r.insert(p, x), i, last_was_dir) == top_lines(r, i, last_was_dir),
    decreases p - i,
{
    let r2 = r.insert(p, x);
    if i == p {
        assert(r2[p] == x);
        lemma_shifted_lines(r, p, x, p, last_was_dir);
    } else {
        assert(r2[i] == r[i]);
        let is_dir = r[i].children.len() > 0;
        if is_dir || !is_outline_itself(r[i]) {
            lemma_outline_entry_adds_no_line(r, p, x, i + 1, is_dir);
        } else {
            lemma_outline_entry_adds_no_line(r, p, x, i + 1, last_was_dir);
        }
    }
}

/// After the inserted entry, the lines are those of the entries it pushed on.
pub proof fn lemma_shifted_lines(r: Seq<EntryModel>, p: int, x: EntryModel, j: int, last_was_dir: bool)
    requires
        0 <= p <= j <= r.len(),
    ensures
        top_lines(r.insert(p, x), j + 1, last_was_dir) == top_lines(r, j, last_was_dir),
    decreases r.len() - j,
{
    let r2 = r.insert(p, x);
    if j < r.len() {
        assert(r2[j + 1] == r[j]);
        let is_dir = r[j].children.len() > 0;
        if is_dir || !is_outline_itself(r[j]) {
            lemma_shifted_lines(r, p, x, j + 1, is_dir);
        } else {
            lemma_shifted_lines(r, p, x, j + 1, last_was_dir);
        }
    }
}

/// The outline document, once written at the source root, changes nothing:
/// the tree that holds it besides what it held before has the same outline
/// text. The tree is one that a file system can hold, and held no entry of
/// that name before.
pub proof fn lemma_outline_document_adds_nothing(
    d1: DirNode,
    d2: DirNode,
    f: FileNode,
    pos: int,
    cfg: AutoGenConfig,
)
    requires
        d2.name == d1.name,
        d2.dirs == d1.dirs,
        0 <= pos <= d1.files@.len(),
        d2.files@ == d1.files@.insert(pos, f),
        f.name@ == SUMMARY_FILE@,
        !is_index_name(cfg, SUMMARY_FILE@),
        names_unique(d1),
        forall|i: int| 0 <= i < d1.files@.len() ==> #[trigger] d1.files@[i].name@ != SUMMARY_FILE@,
        forall|j: int| 0 <= j < d1.dirs@.len() ==> #[trigger] d1.dirs@[j].name@ != SUMMARY_FILE@,
    ensures
        summary_text(outline(d2, cfg)) == summary_text(outline(d1, cfg)),
        !(fingerprint_of(summary_text(outline(d2, cfg))) != fingerprint_of(
            summary_text(outline(d1, cfg)),
        )),
{
    let p: PathModel = Seq::empty();
    reveal_strlit("SUMMARY.md");
    lemma_root_keys(d1, cfg);
    assert(is_markdown(f.name@));
    let files = d1.files@;
    let before = files.subrange(0, pos);
    let after = files.subrange(pos, files.len() as int);
    lemma_insert_split(files, pos, f);
    assert(seq![f].drop_last() =~= Seq::<FileNode>::empty());
    assert(seq![f].last() == f);
    assert(last_index(Seq::<FileNode>::empty(), cfg) is None);
    assert(!is_index_name(cfg, seq![f].last().name@));
    assert(last_index(seq![f], cfg) is None);
    lemma_last_index_concat(seq![f], after, cfg);
    lemma_last_index_concat(before, seq![f] + after, cfg);
    lemma_last_index_concat(before, after, cfg);
    lemma_last_index(before, cfg);
    lemma_last_index(after, cfg);
    match last_index(after, cfg) {
        Some(j) => {
            assert(last_index(d2.files@, cfg) == Some(pos + 1 + j));
            assert(last_index(files, cfg) == Some(pos + j));
            assert(d2.files@[pos + 1 + j] == files[pos + j]);
        },
        None => {
            assert(last_index(d2.files@, cfg) == last_index(before, cfg));
            assert(last_index(files, cfg) == last_index(before, cfg));
            if let Some(j) = last_index(before, cfg) {
                assert(d2.files@[j] == files[j]);
            }
        },
    }
    let x = doc_entry(f, p, cfg)->0;
    lemma_doc_entries_concat(seq![f], after, p, cfg);
    lemma_doc_entries_concat(before, seq![f] + after, p, cfg);
    lemma_doc_entries_concat(before, after, p, cfg);
    assert(doc_entries(Seq::<FileNode>::empty(), p, cfg) =~= Seq::<EntryModel>::empty());
    assert(doc_entries(seq![f], p, cfg) =~= seq![x]);
    assert(sub_results(d2, p, cfg) =~= sub_results(d1, p, cfg));
    match resolve_dir(d1, p, cfg).0 {
        None => {},
        Some(e1) => {
            let e2 = resolve_dir(d2, p, cfg).0->0;
            let q = doc_entries(before, p, cfg).len() as int;
            assert(e2.children =~= e1.children.insert(q, x));
            let w1 = with_root_title(e1, cfg);
            let w2 = with_root_title(e2, cfg);
            let k1 = sorted_kids(w1);
            let k2 = sorted_kids(w2);
            assert(sorted_tree(x) == x) by {
                assert(sorted_kids(x) =~= Seq::<EntryModel>::empty());
                assert(sort_models(sorted_kids(x)) =~= Seq::<EntryModel>::empty());
                assert(sorted_tree(x).children =~= x.children);
            }
            assert(k2 =~= k1.insert(q, x));
            let s1 = k1.push(x);
            assert(s1.to_multiset() == k2.to_multiset()) by {
                vstd::seq_lib::to_multiset_insert(k1, q, x);
                vstd::seq_lib::to_multiset_build(k1, x);
            }
            assert(distinct_keys(s1)) by {
                assert forall|a: int, b: int|
                    0 <= a < s1.len() && 0 <= b < s1.len() && a != b implies s1[a].key
                    != s1[b].key by {
                    if a < k1.len() {
                        assert(s1[a].key == e1.children[a].key);
                    }
                    if b < k1.len() {
                        assert(s1[b].key == e1.children[b].key);
                    }
                }
            }
            lemma_sort_ignores_listing_order(s1, k2);
            let r = sort_models(k1);
            assert(s1.drop_last() =~= k1);
            lemma_insert_pos(r, x);
            assert(sort_models(s1) == r.insert(insert_pos(r, x), x));
            assert(is_outline_itself(x));
            lemma_outline_entry_adds_no_line(r, insert_pos(r, x), x, 0, false);
            let o1 = sorted_tree(w1);
            let o2 = sorted_tree(w2);
            assert(e2.title == e1.title && e2.link == e1.link);
            assert(o2.children == sort_models(k2));
            assert(o1.children == r);
            assert(top_lines(o2.children, 0, false) == top_lines(o1.children, 0, false));
            assert(o2.title == o1.title && o2.link == o1.link);
            assert(body_lines(o2) == body_lines(o1));
        },
    }
}

/// In a directory whose names are unique and none of them the outline
/// document's, the root's entries have distinct keys, none of them the
/// outline document's own.
pub proof fn lemma_root_keys(d: DirNode, cfg: AutoGenConfig)
    requires
        names_unique(d),
        forall|i: int| 0 <= i < d.files@.len() ==> #[trigger] d.files@[i].name@ != SUMMARY_FILE@,
        forall|j: int| 0 <= j < d.dirs@.len() ==> #[trigger] d.dirs@[j].name@ != SUMMARY_FILE@,
    ensures
        resolve_dir(d, Seq::empty(), cfg).0 matches Some(e) ==> distinct_keys(e.children) && forall|
            k: int,
        | 0 <= k < e.children.len() ==> #[trigger] e.children[k].key != seq![SUMMARY_FILE@],
{
    let p: PathModel = Seq::empty();
    if resolve_dir(d, p, cfg).0 is Some {
        lemma_children_keys(d, p, cfg);
        let cs = resolve_dir(d, p, cfg).0->0.children;
        assert(p.push(SUMMARY_FILE@) =~= seq![SUMMARY_FILE@]);
        assert forall|k: int| 0 <= k < cs.len() implies #[trigger] cs[k].key != seq![
            SUMMARY_FILE@,
        ] by {
            if exists|i: int| 0 <= i < d.files@.len() && cs[k].key == p.push(d.files@[i].name@) {
                let i = choose|i: int| 0 <= i < d.files@.len() && cs[k].key == p.push(d.files@[i].name@);
                lemma_push_injective(p, d.files@[i].name@, SUMMARY_FILE@);
            } else {
                let j = choose|j: int| 0 <= j < d.dirs@.len() && cs[k].key == p.push(d.dirs@[j].name@);
                lemma_push_injective(p, d.dirs@[j].name@, SUMMARY_FILE@);
            }
        }
    }
}

/// An outline document that the tree already held, rewritten with other
/// content, changes nothing: the tree has the same outline text.
pub proof fn lemma_outline_document_rewrite_changes_nothing(
    d1: DirNode,
    d2: DirNode,
    f: FileNode,
    pos: int,
    cfg: AutoGenConfig,
)
    requires
        d2.name == d1.name,
        d2.dirs == d1.dirs,
        0 <= pos < d1.files@.len(),
        d1.files@[pos].name@ == SUMMARY_FILE@,
        d2.files@ == d1.files@.update(pos, f),
        f.name@ == SUMMARY_FILE@,
        !is_index_name(cfg, SUMMARY_FILE@),
        names_unique(d1),
    ensures
        summary_text(outline(d2, cfg)) == summary_text(outline(d1, cfg)),
{
    let p: PathModel = Seq::empty();
    reveal_strlit("SUMMARY.md");
    let files = d1.files@;
    let f0 = files[pos];
    let before = files.subrange(0, pos);
    let after = files.subrange(pos + 1, files.len() as int);
    assert(files =~= before + (seq![f0] + after));
    assert(d2.files@ =~= before + (seq![f] + after));
    assert(seq![f].drop_last() =~= Seq::<FileNode>::empty());
    assert(seq![f0].drop_last() =~= Seq::<FileNode>::empty());
    assert(seq![f].last() == f && seq![f0].last() == f0);
    assert(last_index(Seq::<FileNode>::empty(), cfg) is None);
    assert(last_index(seq![f], cfg) is None);
    assert(last_index(seq![f0], cfg) is None);
    lemma_last_index_concat(seq![f], after, cfg);
    lemma_last_index_concat(seq![f0], after, cfg);
    lemma_last_index_concat(before, seq![f] + after, cfg);
    lemma_last_index_concat(before, seq![f0] + after, cfg);
    lemma_last_index(before, cfg);
    lemma_last_index(after, cfg);
    match last_index(after, cfg) {
        Some(j) => {
            assert(d2.files@[pos + 1 + j] == files[pos + 1 + j]);
        },
        None => {
            if let Some(j) = last_index(before, cfg) {
                assert(d2.files@[j] == files[j]);
            }
        },
    }
    assert(last_index(d2.files@, cfg) == last_index(files, cfg));
    let x = doc_entry(f, p, cfg)->0;
    let x0 = doc_entry(f0, p, cfg)->0;
    lemma_doc_entries_concat(seq![f], after, p, cfg);
    lemma_doc_entries_concat(seq![f0], after, p, cfg);
    lemma_doc_entries_concat(before, seq![f] + after, p, cfg);
    lemma_doc_entries_concat(before, seq![f0] + after, p, cfg);
    assert(doc_entries(Seq::<FileNode>::empty(), p, cfg) =~= Seq::<EntryModel>::empty());
    assert(doc_entries(seq![f], p, cfg) =~= seq![x]);
    assert(doc_entries(seq![f0], p, cfg) =~= seq![x0]);
    assert(sub_results(d2, p, cfg) =~= sub_results(d1, p, cfg));
    match resolve_dir(d1, p, cfg).0 {
        None => {},
        Some(e1) => {
            lemma_children_keys(d1, p, cfg);
            let e2 = resolve_dir(d2, p, cfg).0->0;
            let q = doc_entries(before, p, cfg).len() as int;
            assert(e1.children[q] == x0);
            assert(e2.children =~= e1.children.update(q, x));
            let w1 = with_root_title(e1, cfg);
            let w2 = with_root_title(e2, cfg);
            let k1 = sorted_kids(w1);
            let k2 = sorted_kids(w2);
            assert(sorted_tree(x) == x) by {
                assert(sorted_kids(x) =~= Seq::<EntryModel>::empty());
                assert(sort_models(sorted_kids(x)) =~= Seq::<EntryModel>::empty());
                assert(sorted_tree(x).children =~= x.children);
            }
            assert(sorted_tree(x0) == x0) by {
                assert(sorted_kids(x0) =~= Seq::<EntryModel>::empty());
                assert(sort_models(sorted_kids(x0)) =~= Seq::<EntryModel>::empty());
                assert(sorted_tree(x0).children =~= x0.children);
            }
            assert(k1[q] == x0);
            assert(k2 =~= k1.update(q, x));
            let t = k1.remove(q);
            assert(k1 =~= t.insert(q, x0));
            assert(k2 =~= t.insert(q, x));
            assert(distinct_keys(k1)) by {
                assert forall|a: int, b: int|
                    0 <= a < k1.len() && 0 <= b < k1.len() && a != b implies k1[a].key
                    != k1[b].key by {
                    assert(k1[a].key == e1.children[a].key && k1[b].key == e1.children[b].key);
                }
            }
            let s1 = t.push(x0);
            let s2 = t.push(x);
            assert(s1.to_multiset() == k1.to_multiset()) by {
                vstd::seq_lib::to_multiset_insert(t, q, x0);
                vstd::seq_lib::to_multiset_build(t, x0);
            }
            assert(s2.to_multiset() == k2.to_multiset()) by {
                vstd::seq_lib::to_multiset_insert(t, q, x);
                vstd::seq_lib::to_multiset_build(t, x);
            }
            lemma_distinct_keys_kept(k1, s1);
            assert(distinct_keys(s2)) by {
                assert forall|a: int, b: int|
                    0 <= a < s2.len() && 0 <= b < s2.len() && a != b implies s2[a].key
                    != s2[b].key by {
                    assert(s2[a].key == s1[a].key && s2[b].key == s1[b].key);
                }
            }
            lemma_sort_ignores_listing_order(s1, k1);
            lemma_sort_ignores_listing_order(s2, k2);
            let r = sort_models(t);
            assert(s1.drop_last() =~= t);
            assert(s2.drop_last() =~= t);
            lemma_insert_pos(r, x);
            lemma_insert_pos(r, x0);
            lemma_insert_pos_by_key(r, x, x0);
            let ip = insert_pos(r, x);
            assert(sort_models(s1) == r.insert(ip, x0));
            assert(sort_models(s2) == r.insert(ip, x));
            assert(is_outline_itself(x) && is_outline_itself(x0));
            lemma_outline_entry_adds_no_line(r, ip, x, 0, false);
            lemma_outline_entry_adds_no_line(r, ip, x0, 0, false);
            let o1 = sorted_tree(w1);
            let o2 = sorted_tree(w2);
            assert(e2.title == e1.title && e2.link == e1.link);
            assert(o2.children == sort_models(k2));
            assert(o1.children == sort_models(k1));
            assert(top_lines(o2.children, 0, false) == top_lines(o1.children, 0, false));
            assert(body_lines(o2) == body_lines(o1));
        },
    }
}

/// Running twice writes nothing the second time. The first run creates its
/// stubs (under the stub policy) and writes the outline document at the
/// source root, where it may already have stood with other content; the tree
/// that the second run reads holds both besides what it held before, and the
/// outline computed from it is the same text, with the same fingerprint as
/// what was written. The tree as the first run left it is one that a file
/// system can hold: names are unique in its root.
pub proof fn lemma_second_run_writes_nothing(
    d1: DirNode,
    dm: DirNode,
    d2: DirNode,
    f: FileNode,
    pos: int,
    existed: bool,
    cfg: AutoGenConfig,
)
    requires
        cfg.wf(),
        cfg.directory_without_index_behavior == DirectoryWithoutIndexBehavior::GenerateStubIndex
            ==> with_stubs(d1, dm, cfg),
        cfg.directory_without_index_behavior != DirectoryWithoutIndexBehavior::GenerateStubIndex
            ==> dm == d1,
        names_unique(dm),
        d2.name == dm.name,
        d2.dirs == dm.dirs,
        f.name@ == SUMMARY_FILE@,
        !is_index_name(cfg, SUMMARY_FILE@),
        existed ==> 0 <= pos < dm.files@.len() && dm.files@[pos].name@ == SUMMARY_FILE@
            && d2.files@ == dm.files@.update(pos, f),
        !existed ==> 0 <= pos <= dm.files@.len() && d2.files@ == dm.files@.insert(pos, f) && (
        forall|i: int| 0 <= i < dm.files@.len() ==> #[trigger] dm.files@[i].name@ != SUMMARY_FILE@)
            && (forall|j: int|
            0 <= j < dm.dirs@.len() ==> #[trigger] dm.dirs@[j].name@ != SUMMARY_FILE@),
    ensures
        summary_text(outline(d2, cfg)) == summary_text(outline(d1, cfg)),
        !(fingerprint_of(summary_text(outline(d2, cfg))) != fingerprint_of(
            summary_text(outline(d1, cfg)),
        )),
{
    if cfg.directory_without_index_behavior == DirectoryWithoutIndexBehavior::GenerateStubIndex {
        lemma_stubs_change_nothing(d1, dm, Seq::empty(), cfg);
    }
    if existed {
        lemma_outline_document_rewrite_changes_nothing(dm, d2, f, pos, cfg);
    } else {
        lemma_outline_document_adds_nothing(dm, d2, f, pos, cfg);
    }
}

} // verus!
