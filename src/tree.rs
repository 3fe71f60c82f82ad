use vstd::prelude::*;

use crate::config::{views, AutoGenConfig, DirectoryWithoutIndexBehavior};
use crate::sort::distinct_keys;
use crate::text::{get_title, is_markdown, is_markdown_name, title_of};

verus! {

/// A file of the source tree: its name, and its text where the outline needs
/// it (see `wants_content`; empty otherwise).
pub struct FileNode {
    pub name: String,
    pub content: String,
}

/// A directory of the source tree: its name, its files and its
/// subdirectories, each in the order in which the directory lists them.
pub struct DirNode {
    pub name: String,
    pub files: Vec<FileNode>,
    pub dirs: Vec<DirNode>,
}

/// A location in the source tree, as the names that lead to it from the
/// source root.
pub type PathModel = Seq<Seq<char>>;

/// An entry of the outline.
pub struct MdEntry {
    pub title: String,
    /// The document that the entry links to, as the names that lead to it from
    /// the source root. None corresponds to a draft entry.
    pub path: Option<Vec<String>>,
    /// A path used only for sorting: that of the document, or of the directory
    /// for a directory's entry.
    pub sorting_path: Vec<String>,
    pub children: Vec<MdEntry>,
}

/// What an outline entry holds, as mathematical values.
pub struct EntryModel {
    pub title: Seq<char>,
    pub link: Option<PathModel>,
    pub key: PathModel,
    pub children: Seq<EntryModel>,
}

pub open spec fn empty_model() -> EntryModel {
    EntryModel { title: Seq::empty(), link: None, key: Seq::empty(), children: Seq::empty() }
}

pub open spec fn path_of(p: Option<Vec<String>>) -> Option<PathModel> {
    match p {
        Some(v) => Some(views(v@)),
        None => None,
    }
}

impl MdEntry {
    pub open spec fn model(self) -> EntryModel
        decreases self,
    {
        EntryModel {
            title: self.title@,
            link: path_of(self.path),
            key: views(self.sorting_path@),
            children: Seq::new(
                self.children@.len(),
                |i: int|
                    if 0 <= i < self.children@.len() {
                        self.children@[i].model()
                    } else {
                        empty_model()
                    },
            ),
        }
    }
}

/// The models of a list of entries.
pub open spec fn models(s: Seq<MdEntry>) -> Seq<EntryModel> {
    Seq::new(s.len(), |i: int| s[i].model())
}

pub open spec fn opt_model(e: Option<MdEntry>) -> Option<EntryModel> {
    match e {
        Some(e) => Some(e.model()),
        None => None,
    }
}

/// The name is one of the configured index names.
pub open spec fn is_index_name(cfg: AutoGenConfig, name: Seq<char>) -> bool {
    cfg.index_names().contains(name)
}

/// The last file, in listing order, whose name is an index name.
pub open spec fn last_index(files: Seq<FileNode>, cfg: AutoGenConfig) -> Option<int>
    decreases files.len(),
{
    if files.len() == 0 {
        None
    } else if is_index_name(cfg, files.last().name@) {
        Some(files.len() - 1)
    } else {
        last_index(files.drop_last(), cfg)
    }
}

/// The index found is one of the files, and bears an index name.
pub proof fn lemma_last_index(files: Seq<FileNode>, cfg: AutoGenConfig)
    ensures
        last_index(files, cfg) matches Some(k) ==> 0 <= k < files.len() && is_index_name(
            cfg,
            files[k].name@,
        ),
    decreases files.len(),
{
    if files.len() > 0 {
        lemma_last_index(files.drop_last(), cfg);
    }
}

/// The leaf entry that a file of the directory at `p` gives: markdown
/// documents that are no index give one.
pub open spec fn doc_entry(f: FileNode, p: PathModel, cfg: AutoGenConfig) -> Option<EntryModel> {
    if is_index_name(cfg, f.name@) || !is_markdown(f.name@) {
        None
    } else {
        Some(
            EntryModel {
                title: if cfg.first_line_as_link_text && title_of(f.content@).len() > 0 {
                    title_of(f.content@)
                } else {
                    f.name@
                },
                link: Some(p.push(f.name@)),
                key: p.push(f.name@),
                children: Seq::empty(),
            },
        )
    }
}

/// The leaf entries of the files of the directory at `p`, in listing order.
pub open spec fn doc_entries(files: Seq<FileNode>, p: PathModel, cfg: AutoGenConfig) -> Seq<
    EntryModel,
> {
    files.filter_map(|f: FileNode| doc_entry(f, p, cfg))
}

/// What resolving a directory gives: its entry, if it is kept, and the stub
/// index documents to create, in the order of the walk.
pub type Resolved = (Option<EntryModel>, Seq<PathModel>);

/// The results of the subdirectories of `d`, which stands at `p`.
pub open spec fn sub_results(d: DirNode, p: PathModel, cfg: AutoGenConfig) -> Seq<Resolved>
    decreases d, 0int,
{
    Seq::new(
        d.dirs@.len(),
        |j: int|
            if 0 <= j < d.dirs@.len() {
                resolve_dir(d.dirs@[j], p.push(d.dirs@[j].name@), cfg)
            } else {
                (None, Seq::empty())
            },
    )
}

/// The stubs to create, in order, over a list of results.
pub open spec fn all_stubs(rs: Seq<Resolved>) -> Seq<PathModel>
    decreases rs.len(),
{
    if rs.len() == 0 {
        Seq::empty()
    } else {
        all_stubs(rs.drop_last()) + rs.last().1
    }
}

/// The entries that a list of results keeps.
pub open spec fn kept(rs: Seq<Resolved>) -> Seq<EntryModel> {
    rs.filter_map(|r: Resolved| r.0)
}

/// Resolves the directory `d`, which stands at `p` in the source tree.
///
/// The directory's index is the last file, in listing order, whose name is an
/// index name. Without one the policy decides: the directory and all below it
/// are left out; or it is kept as a draft; or a stub index document, named by
/// the configured name, is to be created and stands as its index. The
/// directory's children are the leaf entries of its other markdown
/// documents, then the kept entries of its subdirectories, in listing order.
pub open spec fn resolve_dir(d: DirNode, p: PathModel, cfg: AutoGenConfig) -> Resolved
    decreases d, 1int,
{
    let idx = last_index(d.files@, cfg);
    let policy = cfg.directory_without_index_behavior;
    if idx is None && policy == DirectoryWithoutIndexBehavior::Ignore {
        (None, Seq::empty())
    } else {
        let stub = idx is None && policy == DirectoryWithoutIndexBehavior::GenerateStubIndex;
        let link = match idx {
            Some(i) => Some(p.push(d.files@[i].name@)),
            None => if stub {
                Some(p.push(cfg.generated_directory_index_name@))
            } else {
                None
            },
        };
        let heading = match idx {
            Some(i) => title_of(d.files@[i].content@),
            None => Seq::empty(),
        };
        let title = if link is Some && cfg.index_first_line_as_directory_link_text
            && heading.len() > 0 {
            heading
        } else {
            d.name@
        };
        let subs = sub_results(d, p, cfg);
        let own_stub = if stub {
            seq![p.push(cfg.generated_directory_index_name@)]
        } else {
            Seq::empty()
        };
        (
            Some(
                EntryModel {
                    title,
                    link,
                    key: p,
                    children: doc_entries(d.files@, p, cfg) + kept(subs),
                },
            ),
            own_stub + all_stubs(subs),
        )
    }
}

/// A copy of a path.
pub fn copy_path(p: &Vec<String>) -> (r: Vec<String>)
    ensures
        views(r@) == views(p@),
{
    let mut r: Vec<String> = Vec::new();
    let mut i: usize = 0;
    while i < p.len()
        invariant
            0 <= i <= p@.len(),
            r@.len() == i,
            forall|k: int| 0 <= k < i ==> #[trigger] r@[k]@ == p@[k]@,
        decreases p@.len() - i,
    {
        r.push(p[i].clone());
        i = i + 1;
    }
    assert(views(r@) =~= views(p@));
    r
}

/// The path of the entry `name` in the directory at `p`.
pub fn child_path(p: &Vec<String>, name: &String) -> (r: Vec<String>)
    ensures
        views(r@) == views(p@).push(name@),
{
    let mut r = copy_path(p);
    let ghost before = r@;
    r.push(name.clone());
    assert(views(r@) =~= views(before).push(name@));
    r
}

/// Whether the outline needs the text of a file of this name: that of the
/// markdown documents that are no index, and that of index documents where
/// directory titles come from headings.
pub fn wants_content(name: &String, cfg: &AutoGenConfig) -> (r: bool)
    ensures
        r == if is_index_name(*cfg, name@) {
            cfg.index_first_line_as_directory_link_text
        } else {
            is_markdown(name@)
        },
{
    if is_index_name_of(cfg, name) {
        cfg.index_first_line_as_directory_link_text
    } else {
        is_markdown_name(name.as_str())
    }
}

/// Whether `name` is one of the configured index names.
pub fn is_index_name_of(cfg: &AutoGenConfig, name: &String) -> (r: bool)
    ensures
        r == is_index_name(*cfg, name@),
{
    let names = &cfg.directory_index_names;
    let mut i: usize = 0;
    while i < names.len()
        invariant
            0 <= i <= names@.len(),
            names == &cfg.directory_index_names,
            forall|k: int| 0 <= k < i ==> #[trigger] names@[k]@ != name@,
        decreases names@.len() - i,
    {
        if names[i] == *name {
            assert(cfg.index_names()[i as int] == name@);
            return true;
        }
        i = i + 1;
    }
    assert forall|k: int| 0 <= k < cfg.index_names().len() implies cfg.index_names()[k]
        != name@ by {
        assert(cfg.index_names()[k] == names@[k]@);
    }
    false
}

/// The paths of a list of stubs.
pub open spec fn stub_views(s: Seq<Vec<String>>) -> Seq<PathModel> {
    s.map_values(|v: Vec<String>| views(v@))
}

/// Resolves the directory `d`, which stands at `p` in the source tree (see
/// `resolve_dir`), and adds the stub index documents to create to `stubs`.
pub fn walk_dir(d: &DirNode, p: &Vec<String>, cfg: &AutoGenConfig, stubs: &mut Vec<Vec<String>>) -> (r:
    Option<MdEntry>)
    ensures
        opt_model(r) == resolve_dir(*d, views(p@), *cfg).0,
        stub_views(final(stubs)@) == stub_views(old(stubs)@) + resolve_dir(*d, views(p@), *cfg).1,
    decreases d,
{
    let ghost pm = views(p@);
    let ghost files = d.files@;
    let mut children: Vec<MdEntry> = Vec::new();
    let mut index: Option<usize> = None;
    let mut i: usize = 0;
    while i < d.files.len()
        invariant
            0 <= i <= files.len(),
            files == d.files@,
            pm == views(p@),
            match index {
                Some(k) => last_index(files.subrange(0, i as int), *cfg) == Some(k as int),
                None => last_index(files.subrange(0, i as int), *cfg) is None,
            },
            models(children@) == doc_entries(files.subrange(0, i as int), pm, *cfg),
        decreases files.len() - i,
    {
        let f = &d.files[i];
        let ghost before = children@;
        if is_index_name_of(cfg, &f.name) {
            index = Some(i);
        } else if is_markdown_name(f.name.as_str()) {
            let t = get_title(f.content.as_str());
            let title = if cfg.first_line_as_link_text && !t.as_str().is_empty() {
                t
            } else {
                f.name.clone()
            };
            let path = child_path(p, &f.name);
            let key = child_path(p, &f.name);
            let leaf = MdEntry { title, path: Some(path), sorting_path: key, children: Vec::new() };
            assert(leaf.model().children =~= Seq::<EntryModel>::empty());
            children.push(leaf);
            assert(models(children@) =~= models(before).push(leaf.model()));
        }
        i = i + 1;
        assert(files.subrange(0, i as int).drop_last() =~= files.subrange(0, i - 1));
    }
    assert(files.subrange(0, i as int) =~= files);
    proof {
        lemma_last_index(files, *cfg);
    }
    let link: Option<Vec<String>>;
    match index {
        Some(k) => {
            link = Some(child_path(p, &d.files[k].name));
        },
        None => match cfg.directory_without_index_behavior {
            DirectoryWithoutIndexBehavior::Ignore => {
                return None;
            },
            DirectoryWithoutIndexBehavior::Draft => {
                link = None;
            },
            DirectoryWithoutIndexBehavior::GenerateStubIndex => {
                let sp = child_path(p, &cfg.generated_directory_index_name);
                let ghost before = stubs@;
                stubs.push(copy_path(&sp));
                assert(stub_views(stubs@) =~= stub_views(before).push(views(sp@)));
                link = Some(sp);
            },
        },
    }
    let ghost subs = sub_results(*d, pm, *cfg);
    let ghost docs = models(children@);
    let ghost stubs0 = stub_views(stubs@);
    assert(subs.subrange(0, 0) =~= Seq::<Resolved>::empty());
    assert(docs + kept(subs.subrange(0, 0)) =~= docs);
    assert(stubs0 + all_stubs(subs.subrange(0, 0)) =~= stubs0);
    let mut j: usize = 0;
    while j < d.dirs.len()
        invariant
            0 <= j <= d.dirs@.len(),
            pm == views(p@),
            subs == sub_results(*d, pm, *cfg),
            models(children@) == docs + kept(subs.subrange(0, j as int)),
            stub_views(stubs@) == stubs0 + all_stubs(subs.subrange(0, j as int)),
        decreases d.dirs@.len() - j,
    {
        let cp = child_path(p, &d.dirs[j].name);
        let ghost before = children@;
        let ghost stubs_before = stub_views(stubs@);
        let g = walk_dir(&d.dirs[j], &cp, cfg, stubs);
        assert(subs[j as int] == resolve_dir(d.dirs@[j as int], views(cp@), *cfg));
        match g {
            Some(g) => {
                children.push(g);
                assert(models(children@) =~= models(before).push(g.model()));
            },
            None => {},
        }
        j = j + 1;
        assert(subs.subrange(0, j as int).drop_last() =~= subs.subrange(0, j - 1));
        assert(stub_views(stubs@) =~= stubs0 + all_stubs(subs.subrange(0, j as int)));
        assert(models(children@) =~= docs + kept(subs.subrange(0, j as int)));
    }
    assert(subs.subrange(0, j as int) =~= subs);
    let title = if link.is_some() && cfg.index_first_line_as_directory_link_text {
        let t = match index {
            Some(k) => get_title(d.files[k].content.as_str()),
            None => String::new(),
        };
        if !t.as_str().is_empty() {
            t
        } else {
            d.name.clone()
        }
    } else {
        d.name.clone()
    };
    let r = MdEntry { title, path: link, sorting_path: copy_path(p), children };
    assert(r.model().children =~= models(r.children@));
    Some(r)
}

/// Under the ignore policy a directory without an index document is left out,
/// with all that lies below it, whatever its subdirectories hold; and no stub
/// is created for it or below it.
pub proof fn lemma_ignored_directory_is_absent(d: DirNode, p: PathModel, cfg: AutoGenConfig)
    requires
        cfg.directory_without_index_behavior == DirectoryWithoutIndexBehavior::Ignore,
        forall|i: int| 0 <= i < d.files@.len() ==> !is_index_name(cfg, #[trigger] d.files@[i].name@),
    ensures
        resolve_dir(d, p, cfg).0 is None,
        resolve_dir(d, p, cfg).1.len() == 0,
{
    lemma_no_index(d.files@, cfg);
}

/// Under the draft policy a directory without an index document is kept, with
/// no link and its own name as title, and its children are still resolved:
/// its markdown documents, then the kept entries of its subdirectories.
pub proof fn lemma_draft_directory_is_kept(d: DirNode, p: PathModel, cfg: AutoGenConfig)
    requires
        cfg.directory_without_index_behavior == DirectoryWithoutIndexBehavior::Draft,
        forall|i: int| 0 <= i < d.files@.len() ==> !is_index_name(cfg, #[trigger] d.files@[i].name@),
    ensures
        resolve_dir(d, p, cfg).0 == Some(
            EntryModel {
                title: d.name@,
                link: None,
                key: p,
                children: doc_entries(d.files@, p, cfg) + kept(sub_results(d, p, cfg)),
            },
        ),
{
    lemma_no_index(d.files@, cfg);
}

/// Under the stub policy a directory without an index document gets a stub
/// index document, named by the configured name, created before any below it;
/// the directory's entry links to it.
pub proof fn lemma_stub_directory_links_to_stub(d: DirNode, p: PathModel, cfg: AutoGenConfig)
    requires
        cfg.directory_without_index_behavior == DirectoryWithoutIndexBehavior::GenerateStubIndex,
        forall|i: int| 0 <= i < d.files@.len() ==> !is_index_name(cfg, #[trigger] d.files@[i].name@),
    ensures
        resolve_dir(d, p, cfg).1.len() > 0,
        resolve_dir(d, p, cfg).1[0] == p.push(cfg.generated_directory_index_name@),
        resolve_dir(d, p, cfg).0 is Some,
        resolve_dir(d, p, cfg).0->0.link == Some(p.push(cfg.generated_directory_index_name@)),
        resolve_dir(d, p, cfg).0->0.title == d.name@,
{
    lemma_no_index(d.files@, cfg);
}

/// No file with an index name: no index.
pub proof fn lemma_no_index(files: Seq<FileNode>, cfg: AutoGenConfig)
    requires
        forall|i: int| 0 <= i < files.len() ==> !is_index_name(cfg, #[trigger] files[i].name@),
    ensures
        last_index(files, cfg) is None,
    decreases files.len(),
{
    if files.len() > 0 {
        assert(!is_index_name(cfg, files[files.len() - 1].name@));
        let rest = files.drop_last();
        assert forall|i: int| 0 <= i < rest.len() implies !is_index_name(
            cfg,
            #[trigger] rest[i].name@,
        ) by {
            assert(rest[i] == files[i]);
        }
        lemma_no_index(rest, cfg);
    }
}

/// The leaf entries of two lists of files, one after the other.
pub proof fn lemma_doc_entries_concat(a: Seq<FileNode>, b: Seq<FileNode>, p: PathModel, cfg: AutoGenConfig)
    ensures
        doc_entries(a + b, p, cfg) == doc_entries(a, p, cfg) + doc_entries(b, p, cfg),
    decreases b.len(),
{
    if b.len() == 0 {
        assert(a + b =~= a);
        assert(doc_entries(a, p, cfg) + doc_entries(b, p, cfg) =~= doc_entries(a, p, cfg));
    } else {
        lemma_doc_entries_concat(a, b.drop_last(), p, cfg);
        assert((a + b).drop_last() =~= a + b.drop_last());
        assert((a + b).last() == b.last());
        assert(doc_entries(a + b, p, cfg) =~= doc_entries(a, p, cfg) + doc_entries(b, p, cfg));
    }
}

/// The index among two lists of files, one after the other: the second
/// list's, if it has one.
pub proof fn lemma_last_index_concat(a: Seq<FileNode>, b: Seq<FileNode>, cfg: AutoGenConfig)
    ensures
        last_index(a + b, cfg) == match last_index(b, cfg) {
            Some(j) => Some(a.len() + j),
            None => last_index(a, cfg),
        },
    decreases b.len(),
{
    if b.len() == 0 {
        assert(a + b =~= a);
    } else {
        lemma_last_index_concat(a, b.drop_last(), cfg);
        assert((a + b).drop_last() =~= a + b.drop_last());
        assert((a + b).last() == b.last());
    }
}

/// Without an index, no file bears an index name.
pub proof fn lemma_no_index_conv(files: Seq<FileNode>, cfg: AutoGenConfig)
    requires
        last_index(files, cfg) is None,
    ensures
        forall|i: int| 0 <= i < files.len() ==> !is_index_name(cfg, #[trigger] files[i].name@),
    decreases files.len(),
{
    if files.len() > 0 {
        lemma_no_index_conv(files.drop_last(), cfg);
        assert forall|i: int| 0 <= i < files.len() implies !is_index_name(
            cfg,
            #[trigger] files[i].name@,
        ) by {
            if i < files.len() - 1 {
                assert(files.drop_last()[i] == files[i]);
            }
        }
    }
}

/// A file put among others, with what comes before it and after it.
pub proof fn lemma_insert_split(s: Seq<FileNode>, k: int, f: FileNode)
    requires
        0 <= k <= s.len(),
    ensures
        s.insert(k, f) == s.subrange(0, k) + (seq![f] + s.subrange(k, s.len() as int)),
        s == s.subrange(0, k) + s.subrange(k, s.len() as int),
{
    assert(s.insert(k, f) =~= s.subrange(0, k) + (seq![f] + s.subrange(k, s.len() as int)));
    assert(s =~= s.subrange(0, k) + s.subrange(k, s.len() as int));
}

/// Within the directory each name stands once, among its files and its
/// subdirectories together, as a file system has it.
pub open spec fn names_unique(d: DirNode) -> bool {
    &&& forall|i: int, j: int|
        0 <= i < j < d.files@.len() ==> d.files@[i].name@ != d.files@[j].name@
    &&& forall|i: int, j: int| 0 <= i < j < d.dirs@.len() ==> d.dirs@[i].name@ != d.dirs@[j].name@
    &&& forall|i: int, j: int|
        0 <= i < d.files@.len() && 0 <= j < d.dirs@.len() ==> d.files@[i].name@ != d.dirs@[j].name@
}

/// The names of distinct entries of a directory are distinct, so are their paths.
pub proof fn lemma_push_injective(p: PathModel, a: Seq<char>, b: Seq<char>)
    ensures
        p.push(a) == p.push(b) ==> a == b,
{
    if p.push(a) == p.push(b) {
        assert(p.push(a).last() == a);
    }
}

/// Each leaf entry of a list of files has the path of one of the files.
pub proof fn lemma_doc_keys(files: Seq<FileNode>, p: PathModel, cfg: AutoGenConfig)
    ensures
        forall|k: int|
            0 <= k < doc_entries(files, p, cfg).len() ==> exists|i: int|
                0 <= i < files.len() && #[trigger] doc_entries(files, p, cfg)[k].key == p.push(
                    files[i].name@,
                ),
        (forall|i: int, j: int| 0 <= i < j < files.len() ==> files[i].name@ != files[j].name@)
            ==> distinct_keys(doc_entries(files, p, cfg)),
    decreases files.len(),
{
    if files.len() > 0 {
        let rest = files.drop_last();
        lemma_doc_keys(rest, p, cfg);
        let dr = doc_entries(rest, p, cfg);
        let ds = doc_entries(files, p, cfg);
        assert forall|k: int| 0 <= k < ds.len() implies exists|i: int|
            0 <= i < files.len() && #[trigger] ds[k].key == p.push(files[i].name@) by {
            if k < dr.len() {
                let i = choose|i: int| 0 <= i < rest.len() && dr[k].key == p.push(rest[i].name@);
                assert(rest[i] == files[i]);
            } else {
                assert(ds[k].key == p.push(files[files.len() - 1].name@));
            }
        }
        if forall|i: int, j: int| 0 <= i < j < files.len() ==> files[i].name@ != files[j].name@ {
            assert forall|i: int, j: int| 0 <= i < j < rest.len() implies rest[i].name@
                != rest[j].name@ by {
                assert(rest[i] == files[i] && rest[j] == files[j]);
            }
            assert forall|a: int, b: int|
                0 <= a < ds.len() && 0 <= b < ds.len() && a != b implies ds[a].key
                != ds[b].key by {
                if a < dr.len() && b < dr.len() {
                } else if a < dr.len() || b < dr.len() {
                    let k = if a < dr.len() {
                        a
                    } else {
                        b
                    };
                    let i = choose|i: int| 0 <= i < rest.len() && dr[k].key == p.push(rest[i].name@);
                    assert(rest[i] == files[i]);
                    lemma_push_injective(p, files[i].name@, files[files.len() - 1].name@);
                }
            }
        }
    }
}

/// Each kept entry of the first `n` subdirectories has the path of one of them.
pub proof fn lemma_kept_keys(d: DirNode, p: PathModel, cfg: AutoGenConfig, n: int)
    requires
        0 <= n <= d.dirs@.len(),
    ensures
        forall|k: int|
            0 <= k < kept(sub_results(d, p, cfg).subrange(0, n)).len() ==> exists|j: int|
                0 <= j < n && #[trigger] kept(sub_results(d, p, cfg).subrange(0, n))[k].key
                    == p.push(d.dirs@[j].name@),
        (forall|i: int, j: int| 0 <= i < j < d.dirs@.len() ==> d.dirs@[i].name@ != d.dirs@[j].name@)
            ==> distinct_keys(kept(sub_results(d, p, cfg).subrange(0, n))),
    decreases n,
{
    let subs = sub_results(d, p, cfg);
    if n == 0 {
        assert(subs.subrange(0, 0) =~= Seq::<Resolved>::empty());
    } else {
        lemma_kept_keys(d, p, cfg, n - 1);
        assert(subs.subrange(0, n).drop_last() =~= subs.subrange(0, n - 1));
        let kr = kept(subs.subrange(0, n - 1));
        let ks = kept(subs.subrange(0, n));
        let c = d.dirs@[n - 1];
        assert(subs.subrange(0, n).last() == resolve_dir(c, p.push(c.name@), cfg));
        assert forall|k: int| 0 <= k < ks.len() implies exists|j: int|
            0 <= j < n && #[trigger] ks[k].key == p.push(d.dirs@[j].name@) by {
            if k < kr.len() {
                let j = choose|j: int| 0 <= j < n - 1 && kr[k].key == p.push(d.dirs@[j].name@);
            } else {
                assert(ks[k].key == p.push(c.name@));
            }
        }
        if forall|i: int, j: int|
            0 <= i < j < d.dirs@.len() ==> d.dirs@[i].name@ != d.dirs@[j].name@ {
            assert forall|a: int, b: int|
                0 <= a < ks.len() && 0 <= b < ks.len() && a != b implies ks[a].key
                != ks[b].key by {
                if a < kr.len() && b < kr.len() {
                } else if a < kr.len() || b < kr.len() {
                    let k = if a < kr.len() {
                        a
                    } else {
                        b
                    };
                    let j = choose|j: int| 0 <= j < n - 1 && kr[k].key == p.push(d.dirs@[j].name@);
                    lemma_push_injective(p, d.dirs@[j].name@, c.name@);
                }
            }
        }
    }
}

/// In a directory whose names are unique, the entries of its children have
/// distinct paths, each that of one of its files or subdirectories.
pub proof fn lemma_children_keys(d: DirNode, p: PathModel, cfg: AutoGenConfig)
    requires
        names_unique(d),
        resolve_dir(d, p, cfg).0 is Some,
    ensures
        distinct_keys(resolve_dir(d, p, cfg).0->0.children),
        forall|k: int|
            0 <= k < resolve_dir(d, p, cfg).0->0.children.len() ==> (exists|i: int|
                0 <= i < d.files@.len() && #[trigger] resolve_dir(d, p, cfg).0->0.children[k].key
                    == p.push(d.files@[i].name@)) || (exists|j: int|
                0 <= j < d.dirs@.len() && resolve_dir(d, p, cfg).0->0.children[k].key == p.push(
                    d.dirs@[j].name@,
                )),
{
    let n = d.dirs@.len() as int;
    let subs = sub_results(d, p, cfg);
    assert(subs.subrange(0, n) =~= subs);
    lemma_doc_keys(d.files@, p, cfg);
    lemma_kept_keys(d, p, cfg, n);
    let docs = doc_entries(d.files@, p, cfg);
    let ks = kept(subs);
    let cs = resolve_dir(d, p, cfg).0->0.children;
    assert(cs == docs + ks);
    assert forall|k: int| 0 <= k < cs.len() implies (exists|i: int|
        0 <= i < d.files@.len() && #[trigger] cs[k].key == p.push(d.files@[i].name@)) || (exists|
        j: int,
    | 0 <= j < d.dirs@.len() && cs[k].key == p.push(d.dirs@[j].name@)) by {
        if k < docs.len() {
            assert(cs[k] == docs[k]);
        } else {
            assert(cs[k] == ks[k - docs.len()]);
        }
    }
    assert forall|a: int, b: int|
        0 <= a < cs.len() && 0 <= b < cs.len() && a != b implies cs[a].key != cs[b].key by {
        if a < docs.len() && b < docs.len() {
            assert(cs[a] == docs[a] && cs[b] == docs[b]);
        } else if a >= docs.len() && b >= docs.len() {
            assert(cs[a] == ks[a - docs.len()] && cs[b] == ks[b - docs.len()]);
        } else {
            let (x, y) = if a < docs.len() {
                (a, b)
            } else {
                (b, a)
            };
            assert(cs[x] == docs[x] && cs[y] == ks[y - docs.len()]);
            let i = choose|i: int| 0 <= i < d.files@.len() && docs[x].key == p.push(d.files@[i].name@);
            let j = choose|j: int| 0 <= j < n && ks[y - docs.len()].key == p.push(d.dirs@[j].name@);
            lemma_push_injective(p, d.files@[i].name@, d.dirs@[j].name@);
        }
    }
}

/// The path `k` lies at or below `q`.
pub open spec fn is_under(k: PathModel, q: PathModel) -> bool {
    q.len() <= k.len() && k.subrange(0, q.len() as int) == q
}

/// Every entry of the tree of `e`, `e` included, lies at or below `q`.
pub open spec fn all_under(e: EntryModel, q: PathModel) -> bool
    decreases e, 1int, 0int,
{
    is_under(e.key, q) && children_all_under(e, e.children.len() as int, q)
}

/// The trees of the first `n` children of `e` lie at or below `q`.
pub open spec fn children_all_under(e: EntryModel, n: int, q: PathModel) -> bool
    decreases e, 0int, n,
{
    if n <= 0 || n > e.children.len() {
        true
    } else {
        children_all_under(e, n - 1, q) && all_under(e.children[n - 1], q)
    }
}

/// No entry of the tree of `e`, `e` included, lies at or below `q`.
pub open spec fn none_under(e: EntryModel, q: PathModel) -> bool
    decreases e, 1int, 0int,
{
    !is_under(e.key, q) && children_none_under(e, e.children.len() as int, q)
}

/// No entry of the trees of the first `n` children of `e` lies at or below `q`.
pub open spec fn children_none_under(e: EntryModel, n: int, q: PathModel) -> bool
    decreases e, 0int, n,
{
    if n <= 0 || n > e.children.len() {
        true
    } else {
        children_none_under(e, n - 1, q) && none_under(e.children[n - 1], q)
    }
}

/// A tree below `q` lies below every path above `q`.
pub proof fn lemma_under_weaken(e: EntryModel, q: PathModel, p: PathModel)
    requires
        all_under(e, q),
        is_under(q, p),
    ensures
        all_under(e, p),
    decreases e, 1int, 0int,
{
    assert(e.key.subrange(0, p.len() as int) =~= q.subrange(0, p.len() as int));
    lemma_children_under_weaken(e, e.children.len() as int, q, p);
}

/// The children's trees below `q` lie below every path above `q`.
pub proof fn lemma_children_under_weaken(e: EntryModel, n: int, q: PathModel, p: PathModel)
    requires
        children_all_under(e, n, q),
        is_under(q, p),
        0 <= n <= e.children.len(),
    ensures
        children_all_under(e, n, p),
    decreases e, 0int, n,
{
    if n > 0 {
        lemma_children_under_weaken(e, n - 1, q, p);
        lemma_under_weaken(e.children[n - 1], q, p);
    }
}

/// A tree below `q` has nothing below another path `q0` of the same length.
pub proof fn lemma_under_disjoint(e: EntryModel, q: PathModel, q0: PathModel)
    requires
        all_under(e, q),
        q.len() == q0.len(),
        q != q0,
    ensures
        none_under(e, q0),
    decreases e, 1int, 0int,
{
    lemma_children_under_disjoint(e, e.children.len() as int, q, q0);
}

/// The children's trees below `q` have nothing below another path `q0` of the same length.
pub proof fn lemma_children_under_disjoint(e: EntryModel, n: int, q: PathModel, q0: PathModel)
    requires
        children_all_under(e, n, q),
        q.len() == q0.len(),
        q != q0,
        0 <= n <= e.children.len(),
    ensures
        children_none_under(e, n, q0),
    decreases e, 0int, n,
{
    if n > 0 {
        lemma_children_under_disjoint(e, n - 1, q, q0);
        lemma_under_disjoint(e.children[n - 1], q, q0);
    }
}

/// Each kept entry of the first `n` subdirectories is the entry of one of them.
pub proof fn lemma_kept_from(d: DirNode, p: PathModel, cfg: AutoGenConfig, n: int)
    requires
        0 <= n <= d.dirs@.len(),
    ensures
        forall|k: int|
            0 <= k < kept(sub_results(d, p, cfg).subrange(0, n)).len() ==> exists|j: int|
                0 <= j < n && resolve_dir(d.dirs@[j], p.push(d.dirs@[j].name@), cfg).0 == Some(
                    #[trigger] kept(sub_results(d, p, cfg).subrange(0, n))[k],
                ),
    decreases n,
{
    let subs = sub_results(d, p, cfg);
    if n == 0 {
        assert(subs.subrange(0, 0) =~= Seq::<Resolved>::empty());
    } else {
        lemma_kept_from(d, p, cfg, n - 1);
        assert(subs.subrange(0, n).drop_last() =~= subs.subrange(0, n - 1));
        let kr = kept(subs.subrange(0, n - 1));
        let ks = kept(subs.subrange(0, n));
        let c = d.dirs@[n - 1];
        assert(subs.subrange(0, n).last() == resolve_dir(c, p.push(c.name@), cfg));
        assert forall|k: int| 0 <= k < ks.len() implies exists|j: int|
            0 <= j < n && resolve_dir(d.dirs@[j], p.push(d.dirs@[j].name@), cfg).0 == Some(
                #[trigger] ks[k],
            ) by {
            if k < kr.len() {
                assert(ks[k] == kr[k]);
            }
        }
    }
}

/// Every entry of a resolved directory's tree lies at or below the directory.
pub proof fn lemma_resolved_under(d: DirNode, p: PathModel, cfg: AutoGenConfig)
    requires
        resolve_dir(d, p, cfg).0 is Some,
    ensures
        all_under(resolve_dir(d, p, cfg).0->0, p),
    decreases d, 1int, 0int,
{
    let e = resolve_dir(d, p, cfg).0->0;
    assert(p.subrange(0, p.len() as int) =~= p);
    lemma_resolved_children_under(d, p, cfg, e.children.len() as int);
}

/// The first `n` children of a resolved directory lie at or below it.
pub proof fn lemma_resolved_children_under(d: DirNode, p: PathModel, cfg: AutoGenConfig, n: int)
    requires
        resolve_dir(d, p, cfg).0 is Some,
        0 <= n <= resolve_dir(d, p, cfg).0->0.children.len(),
    ensures
        children_all_under(resolve_dir(d, p, cfg).0->0, n, p),
    decreases d, 0int, n,
{
    if n > 0 {
        lemma_resolved_children_under(d, p, cfg, n - 1);
        let e = resolve_dir(d, p, cfg).0->0;
        let docs = doc_entries(d.files@, p, cfg);
        let subs = sub_results(d, p, cfg);
        let m = d.dirs@.len() as int;
        assert(subs.subrange(0, m) =~= subs);
        let ks = kept(subs);
        assert(e.children == docs + ks);
        let c = e.children[n - 1];
        if n - 1 < docs.len() {
            lemma_doc_keys(d.files@, p, cfg);
            assert(c == docs[n - 1]);
            let i = choose|i: int| 0 <= i < d.files@.len() && docs[n - 1].key == p.push(d.files@[i].name@);
            lemma_doc_children(d.files@, p, cfg, n - 1);
            assert(c.key.subrange(0, p.len() as int) =~= p);
            assert(all_under(c, p));
        } else {
            lemma_kept_from(d, p, cfg, m);
            assert(c == ks[n - 1 - docs.len()]);
            let j = choose|j: int|
                0 <= j < m && resolve_dir(d.dirs@[j], p.push(d.dirs@[j].name@), cfg).0 == Some(
                    ks[n - 1 - docs.len()],
                );
            let q = p.push(d.dirs@[j].name@);
            lemma_resolved_under(d.dirs@[j], q, cfg);
            assert(q.subrange(0, p.len() as int) =~= p);
            lemma_under_weaken(c, q, p);
        }
    }
}

/// Leaf entries have no children.
pub proof fn lemma_doc_children(files: Seq<FileNode>, p: PathModel, cfg: AutoGenConfig, k: int)
    requires
        0 <= k < doc_entries(files, p, cfg).len(),
    ensures
        doc_entries(files, p, cfg)[k].children.len() == 0,
    decreases files.len(),
{
    if files.len() > 0 {
        let dr = doc_entries(files.drop_last(), p, cfg);
        if k < dr.len() {
            lemma_doc_children(files.drop_last(), p, cfg, k);
        }
    }
}

/// Under the ignore policy, a subdirectory without an index document leaves
/// nothing in its parent's tree: no entry at any depth lies at or below it,
/// whatever lies below it. The parent is one that a file system can hold.
pub proof fn lemma_ignored_subtree_absent(d: DirNode, j0: int, p: PathModel, cfg: AutoGenConfig)
    requires
        names_unique(d),
        cfg.directory_without_index_behavior == DirectoryWithoutIndexBehavior::Ignore,
        0 <= j0 < d.dirs@.len(),
        forall|i: int|
            0 <= i < d.dirs@[j0].files@.len() ==> !is_index_name(
                cfg,
                #[trigger] d.dirs@[j0].files@[i].name@,
            ),
        resolve_dir(d, p, cfg).0 is Some,
    ensures
        none_under(resolve_dir(d, p, cfg).0->0, p.push(d.dirs@[j0].name@)),
{
    let e = resolve_dir(d, p, cfg).0->0;
    let q0 = p.push(d.dirs@[j0].name@);
    lemma_ignored_directory_is_absent(d.dirs@[j0], q0, cfg);
    lemma_children_none_under(d, j0, p, cfg, e.children.len() as int);
}

/// The first `n` children of the parent leave nothing at or below the ignored directory.
proof fn lemma_children_none_under(d: DirNode, j0: int, p: PathModel, cfg: AutoGenConfig, n: int)
    requires
        names_unique(d),
        0 <= j0 < d.dirs@.len(),
        resolve_dir(d.dirs@[j0], p.push(d.dirs@[j0].name@), cfg).0 is None,
        resolve_dir(d, p, cfg).0 is Some,
        0 <= n <= resolve_dir(d, p, cfg).0->0.children.len(),
    ensures
        children_none_under(resolve_dir(d, p, cfg).0->0, n, p.push(d.dirs@[j0].name@)),
    decreases n,
{
    if n > 0 {
        lemma_children_none_under(d, j0, p, cfg, n - 1);
        let e = resolve_dir(d, p, cfg).0->0;
        let q0 = p.push(d.dirs@[j0].name@);
        let docs = doc_entries(d.files@, p, cfg);
        let subs = sub_results(d, p, cfg);
        let m = d.dirs@.len() as int;
        assert(subs.subrange(0, m) =~= subs);
        let ks = kept(subs);
        assert(e.children == docs + ks);
        let c = e.children[n - 1];
        if n - 1 < docs.len() {
            lemma_doc_keys(d.files@, p, cfg);
            assert(c == docs[n - 1]);
            let i = choose|i: int| 0 <= i < d.files@.len() && docs[n - 1].key == p.push(d.files@[i].name@);
            lemma_push_injective(p, d.files@[i].name@, d.dirs@[j0].name@);
            lemma_doc_children(d.files@, p, cfg, n - 1);
            assert(c.key.subrange(0, q0.len() as int) =~= c.key);
            assert(none_under(c, q0));
        } else {
            lemma_kept_from(d, p, cfg, m);
            assert(c == ks[n - 1 - docs.len()]);
            let j = choose|j: int|
                0 <= j < m && resolve_dir(d.dirs@[j], p.push(d.dirs@[j].name@), cfg).0 == Some(
                    ks[n - 1 - docs.len()],
                );
            let q = p.push(d.dirs@[j].name@);
            assert(j != j0);
            lemma_push_injective(p, d.dirs@[j].name@, d.dirs@[j0].name@);
            lemma_resolved_under(d.dirs@[j], q, cfg);
            lemma_under_disjoint(c, q, q0);
        }
    }
}

/// `d2` is `d1` once the stub index documents of a run are created: each
/// directory without an index document holds one more file, empty and named
/// by the configured name, listed anywhere among the others.
pub open spec fn with_stubs(d1: DirNode, d2: DirNode, cfg: AutoGenConfig) -> bool
    decreases d1, 1int, 0int,
{
    &&& d2.name == d1.name
    &&& if last_index(d1.files@, cfg) is None {
        exists|k: int|
            0 <= k <= d1.files@.len() && d2.files@ == d1.files@.insert(k, #[trigger] d2.files@[k])
                && d2.files@[k].name@ == cfg.generated_directory_index_name@
                && d2.files@[k].content@.len() == 0
    } else {
        d2.files@ == d1.files@
    }
    &&& d2.dirs@.len() == d1.dirs@.len()
    &&& dirs_with_stubs(d1, d2, d1.dirs@.len() as int, cfg)
}

/// The first `n` subdirectories of `d2` are those of `d1` with their stubs.
pub open spec fn dirs_with_stubs(d1: DirNode, d2: DirNode, n: int, cfg: AutoGenConfig) -> bool
    decreases d1, 0int, n,
{
    if n <= 0 {
        true
    } else if n > d1.dirs@.len() || n > d2.dirs@.len() {
        false
    } else {
        dirs_with_stubs(d1, d2, n - 1, cfg) && with_stubs(d1.dirs@[n - 1], d2.dirs@[n - 1], cfg)
    }
}

/// Under the stub policy, the stubs that a run creates change nothing in the
/// next run: each is found as its directory's index, gives the same entry,
/// and no stub is to be created any more.
pub proof fn lemma_stubs_change_nothing(d1: DirNode, d2: DirNode, p: PathModel, cfg: AutoGenConfig)
    requires
        cfg.wf(),
        cfg.directory_without_index_behavior == DirectoryWithoutIndexBehavior::GenerateStubIndex,
        with_stubs(d1, d2, cfg),
    ensures
        resolve_dir(d2, p, cfg).0 == resolve_dir(d1, p, cfg).0,
        resolve_dir(d2, p, cfg).1.len() == 0,
    decreases d1, 1int, 0int,
{
    let n = d1.dirs@.len() as int;
    lemma_stubbed_subdirs(d1, d2, p, cfg, n);
    let s1 = sub_results(d1, p, cfg);
    let s2 = sub_results(d2, p, cfg);
    assert(s1.subrange(0, n) =~= s1);
    assert(s2.subrange(0, n) =~= s2);
    lemma_last_index(d1.files@, cfg);
    if last_index(d1.files@, cfg) is None {
        let files = d1.files@;
        let k = choose|k: int|
            0 <= k <= files.len() && d2.files@ == files.insert(k, #[trigger] d2.files@[k])
                && d2.files@[k].name@ == cfg.generated_directory_index_name@
                && d2.files@[k].content@.len() == 0;
        let f = d2.files@[k];
        assert(cfg.index_names()[0] == cfg.generated_directory_index_name@);
        assert(is_index_name(cfg, f.name@));
        let before = files.subrange(0, k);
        let after = files.subrange(k, files.len() as int);
        lemma_insert_split(files, k, f);
        lemma_no_index_conv(files, cfg);
        assert forall|i: int| 0 <= i < after.len() implies !is_index_name(
            cfg,
            #[trigger] after[i].name@,
        ) by {
            assert(after[i] == files[k + i]);
        }
        lemma_no_index(after, cfg);
        lemma_last_index_concat(seq![f], after, cfg);
        lemma_last_index_concat(before, seq![f] + after, cfg);
        assert(last_index(d2.files@, cfg) == Some(k));
        lemma_doc_entries_concat(seq![f], after, p, cfg);
        lemma_doc_entries_concat(before, seq![f] + after, p, cfg);
        lemma_doc_entries_concat(before, after, p, cfg);
        assert(seq![f].drop_last() =~= Seq::<FileNode>::empty());
        assert(seq![f].last() == f);
        assert(doc_entry(f, p, cfg) is None);
        assert(doc_entries(Seq::<FileNode>::empty(), p, cfg) =~= Seq::<EntryModel>::empty());
        assert(doc_entries(seq![f], p, cfg) =~= Seq::<EntryModel>::empty());
        assert(doc_entries(d2.files@, p, cfg) == doc_entries(d1.files@, p, cfg));
        assert(f.content@ =~= Seq::<char>::empty());
        assert(crate::text::heading_from(f.content@, 0) is None);
    }
}

/// The subdirectories of a directory with its stubs resolve as before, and
/// ask for no stub.
pub proof fn lemma_stubbed_subdirs(
    d1: DirNode,
    d2: DirNode,
    p: PathModel,
    cfg: AutoGenConfig,
    n: int,
)
    requires
        cfg.wf(),
        cfg.directory_without_index_behavior == DirectoryWithoutIndexBehavior::GenerateStubIndex,
        0 <= n <= d1.dirs@.len(),
        d1.dirs@.len() == d2.dirs@.len(),
        dirs_with_stubs(d1, d2, n, cfg),
    ensures
        kept(sub_results(d2, p, cfg).subrange(0, n)) == kept(sub_results(d1, p, cfg).subrange(0, n)),
        all_stubs(sub_results(d2, p, cfg).subrange(0, n)).len() == 0,
    decreases d1, 0int, n,
{
    let s1 = sub_results(d1, p, cfg);
    let s2 = sub_results(d2, p, cfg);
    if n == 0 {
        assert(s1.subrange(0, 0) =~= Seq::<Resolved>::empty());
        assert(s2.subrange(0, 0) =~= Seq::<Resolved>::empty());
    } else {
        lemma_stubbed_subdirs(d1, d2, p, cfg, n - 1);
        let c1 = d1.dirs@[n - 1];
        let c2 = d2.dirs@[n - 1];
        assert(with_stubs(c1, c2, cfg));
        assert(c2.name == c1.name);
        lemma_stubs_change_nothing(c1, c2, p.push(c1.name@), cfg);
        assert(s1.subrange(0, n).drop_last() =~= s1.subrange(0, n - 1));
        assert(s2.subrange(0, n).drop_last() =~= s2.subrange(0, n - 1));
    }
}

} // verus!
