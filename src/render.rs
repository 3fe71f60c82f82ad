use vstd::prelude::*;

use crate::config::views;
use crate::tree::{opt_model, path_of, EntryModel, MdEntry, PathModel};

verus! {

/// The name of the outline document, written at the source root.
pub const SUMMARY_FILE: &'static str = "SUMMARY.md";

/// A path as text: its names joined by `/`.
pub open spec fn join_path(p: PathModel) -> Seq<char>
    decreases p.len(),
{
    if p.len() == 0 {
        Seq::empty()
    } else if p.len() == 1 {
        p[0]
    } else {
        join_path(p.drop_last()) + seq!['/'] + p.last()
    }
}

/// The link of an entry as text, relative to the source root; empty for a draft.
pub open spec fn link_text(l: Option<PathModel>) -> Seq<char> {
    match l {
        Some(p) => join_path(p),
        None => Seq::empty(),
    }
}

/// Four spaces for each level of depth.
pub open spec fn indentation(depth: nat) -> Seq<char> {
    Seq::new(4 * depth, |i: int| ' ')
}

/// One line of the outline: `<indentation>* [<title>](<link>)`.
pub open spec fn summary_line(depth: nat, title: Seq<char>, link: Seq<char>) -> Seq<char> {
    indentation(depth) + seq!['*', ' ', '['] + title + seq![']', '('] + link + seq![')']
}

/// The lines of the first `n` children of `e`, each with its descendants, at `depth`.
pub open spec fn child_lines(e: EntryModel, n: int, depth: nat) -> Seq<Seq<char>>
    decreases e, 0int, n,
{
    if n <= 0 || n > e.children.len() {
        Seq::empty()
    } else {
        child_lines(e, n - 1, depth) + entry_lines(e.children[n - 1], depth)
    }
}

/// The lines of an entry at `depth`, then those of its descendants, depth first.
pub open spec fn entry_lines(e: EntryModel, depth: nat) -> Seq<Seq<char>>
    decreases e, 1int, 0int,
{
    seq![summary_line(depth, e.title, link_text(e.link))] + child_lines(
        e,
        e.children.len() as int,
        depth + 1,
    )
}

/// The line that stands between top-level groups.
pub open spec fn separator() -> Seq<char> {
    seq!['\n', '-', '-', '-', '-', '\n']
}

/// A top-level entry that is the outline document itself.
pub open spec fn is_outline_itself(c: EntryModel) -> bool {
    &&& c.children.len() == 0
    &&& c.link is Some
    &&& c.link->0.len() > 0
    &&& c.link->0.last() == SUMMARY_FILE@
}

/// The lines of the top-level entries from the `i`-th on. A separator comes
/// before each directory, and before the entry after a directory; the outline
/// document itself is left out.
pub open spec fn top_lines(cs: Seq<EntryModel>, i: int, last_was_dir: bool) -> Seq<Seq<char>>
    decreases cs.len() - i,
{
    if i < 0 || i >= cs.len() {
        Seq::empty()
    } else {
        let c = cs[i];
        let is_dir = c.children.len() > 0;
        if !is_dir && is_outline_itself(c) {
            top_lines(cs, i + 1, last_was_dir)
        } else {
            (if last_was_dir || is_dir {
                seq![separator()]
            } else {
                Seq::empty()
            }) + entry_lines(c, 0) + top_lines(cs, i + 1, is_dir)
        }
    }
}

/// The lines under the heading, for a root entry.
pub open spec fn body_lines(root: EntryModel) -> Seq<Seq<char>> {
    seq![summary_line(0, root.title, link_text(root.link))] + top_lines(root.children, 0, false)
}

/// Lines, each after a line feed.
pub open spec fn after_newlines(ls: Seq<Seq<char>>) -> Seq<char>
    decreases ls.len(),
{
    if ls.len() == 0 {
        Seq::empty()
    } else {
        after_newlines(ls.drop_last()) + seq!['\n'] + ls.last()
    }
}

/// The heading line of the outline document, with its line feed.
pub open spec fn heading() -> Seq<char> {
    "# Summary\n"@
}

/// The text of the outline: for an empty tree, the heading and a blank line;
/// else the heading and then the lines, each after a line feed.
pub open spec fn summary_text(root: Option<EntryModel>) -> Seq<char> {
    match root {
        None => heading() + seq!['\n'],
        Some(r) => heading() + after_newlines(body_lines(r)),
    }
}

/// Struct that marks a string as a relativized link.
///
/// This struct was made to prevent the insertion of absolute paths into
/// the outline: it is only ever made from a path relative to the source root.
pub struct RelativizedLink(pub String);

impl RelativizedLink {
    /// The path's names joined by `/`, or empty for no path.
    pub fn from(path: &Option<Vec<String>>) -> (r: RelativizedLink)
        ensures
            r.0@ == link_text(path_of(*path)),
    {
        proof {
            reveal_strlit("/");
        }
        let mut out = String::new();
        match path {
            None => {},
            Some(p) => {
                let ghost v = views(p@);
                let mut i: usize = 0;
                while i < p.len()
                    invariant
                        0 <= i <= p@.len(),
                        v == views(p@),
                        out@ == join_path(v.subrange(0, i as int)),
                    decreases p@.len() - i,
                {
                    let ghost before = out@;
                    if i > 0 {
                        out.append("/");
                    }
                    out.append(p[i].as_str());
                    i = i + 1;
                    assert(v.subrange(0, i as int).drop_last() =~= v.subrange(0, i - 1));
                    assert(v.subrange(0, i as int).last() == p@[i - 1]@);
                    if i == 1 {
                        assert(out@ =~= join_path(v.subrange(0, i as int)));
                    } else {
                        assert("/"@ =~= seq!['/']) by {
                            reveal_strlit("/");
                        }
                        assert(out@ =~= before + seq!['/'] + p@[i - 1]@);
                        assert(out@ =~= join_path(v.subrange(0, i as int)));
                    }
                }
                assert(v.subrange(0, i as int) =~= v);
            },
        }
        RelativizedLink(out)
    }
}

/// One line of the outline, after the given indentation.
fn line_after(indent: &String, title: &str, link: &RelativizedLink, Ghost(depth): Ghost<nat>) -> (r:
    String)
    requires
        indent@ == indentation(depth),
    ensures
        r@ == summary_line(depth, title@, link.0@),
{
    proof {
        reveal_strlit("* [");
        reveal_strlit("](");
        reveal_strlit(")");
    }
    let mut out = indent.clone();
    out.append("* [");
    out.append(title);
    out.append("](");
    out.append(link.0.as_str());
    out.append(")");
    assert(out@ =~= summary_line(depth, title@, link.0@));
    out
}

/// Four spaces for each level of depth.
fn indent_of(level: usize) -> (r: String)
    ensures
        r@ == indentation(level as nat),
{
    proof {
        reveal_strlit("    ");
    }
    let mut out = String::new();
    let mut i: usize = 0;
    assert("    "@ =~= seq![' ', ' ', ' ', ' ']);
    while i < level
        invariant
            0 <= i <= level,
            out@ == indentation(i as nat),
            "    "@ =~= seq![' ', ' ', ' ', ' '],
        decreases level - i,
    {
        let ghost before = out@;
        out.append("    ");
        assert(out@ == before + seq![' ', ' ', ' ', ' ']);
        i = i + 1;
        assert(out@ =~= indentation(i as nat));
    }
    out
}

/// One line of the outline: `<4 spaces for each level>* [<title>](<link>)`.
pub fn generate_summary_line(indentation_level: usize, title: &str, link: &RelativizedLink) -> (r:
    String)
    ensures
        r@ == summary_line(indentation_level as nat, title@, link.0@),
{
    let indent = indent_of(indentation_level);
    line_after(&indent, title, link, Ghost(indentation_level as nat))
}

/// The lines of an entry, then those of its descendants, depth first.
fn gen_summary_for_entry(indent: &String, md_entry: &MdEntry, Ghost(depth): Ghost<nat>) -> (r: Vec<
    String,
>)
    requires
        indent@ == indentation(depth),
    ensures
        views(r@) == entry_lines(md_entry.model(), depth),
    decreases md_entry,
{
    proof {
        reveal_strlit("    ");
    }
    let ghost e = md_entry.model();
    let mut lines: Vec<String> = Vec::new();
    let path = RelativizedLink::from(&md_entry.path);
    lines.push(line_after(indent, md_entry.title.as_str(), &path, Ghost(depth)));
    let mut inner = indent.clone();
    inner.append("    ");
    assert(inner@ =~= indentation(depth + 1));
    let mut i: usize = 0;
    assert(views(lines@) =~= seq![summary_line(depth, e.title, link_text(e.link))] + child_lines(
        e,
        0,
        depth + 1,
    ));
    while i < md_entry.children.len()
        invariant
            0 <= i <= md_entry.children@.len(),
            e == md_entry.model(),
            inner@ == indentation(depth + 1),
            views(lines@) == seq![summary_line(depth, e.title, link_text(e.link))] + child_lines(
                e,
                i as int,
                depth + 1,
            ),
        decreases md_entry.children@.len() - i,
    {
        let child = &md_entry.children[i];
        assert(decreases_to!(md_entry => md_entry.children@[i as int]));
        let more = gen_summary_for_entry(&inner, child, Ghost(depth + 1));
        let ghost before = lines@;
        let mut j: usize = 0;
        while j < more.len()
            invariant
                0 <= j <= more@.len(),
                views(lines@) == views(before) + views(more@).subrange(0, j as int),
            decreases more@.len() - j,
        {
            let ghost mid = lines@;
            lines.push(more[j].clone());
            j = j + 1;
            assert(views(lines@) =~= views(before) + views(more@).subrange(0, j as int)) by {
                assert(views(lines@) =~= views(mid).push(more@[j - 1]@));
                assert(views(more@).subrange(0, j as int) =~= views(more@).subrange(
                    0,
                    j - 1,
                ).push(more@[j - 1]@));
            }
        }
        assert(views(more@).subrange(0, j as int) =~= views(more@));
        assert(e.children[i as int] == child.model());
        i = i + 1;
        assert(views(lines@) =~= seq![summary_line(depth, e.title, link_text(e.link))]
            + child_lines(e, i as int, depth + 1));
    }
    lines
}

/// Adds the lines of `more` after those of `lines`.
fn append_lines(lines: &mut Vec<String>, more: &Vec<String>)
    ensures
        views(final(lines)@) == views(old(lines)@) + views(more@),
{
    let ghost start = lines@;
    let mut j: usize = 0;
    while j < more.len()
        invariant
            0 <= j <= more@.len(),
            views(lines@) == views(start) + views(more@).subrange(0, j as int),
        decreases more@.len() - j,
    {
        let ghost mid = lines@;
        lines.push(more[j].clone());
        j = j + 1;
        assert(views(lines@) =~= views(mid).push(more@[j - 1]@));
        assert(views(more@).subrange(0, j as int) =~= views(more@).subrange(0, j - 1).push(
            more@[j - 1]@,
        ));
    }
    assert(views(more@).subrange(0, j as int) =~= views(more@));
}

/// Writes each line after a line feed.
fn write_lines(out: &mut String, lines: &Vec<String>)
    ensures
        final(out)@ == old(out)@ + after_newlines(views(lines@)),
{
    let ghost start = out@;
    let ghost v = views(lines@);
    let mut i: usize = 0;
    while i < lines.len()
        invariant
            0 <= i <= lines@.len(),
            v == views(lines@),
            out@ == start + after_newlines(v.subrange(0, i as int)),
        decreases lines@.len() - i,
    {
        let ghost before = out@;
        out.append("\n");
        out.append(lines[i].as_str());
        i = i + 1;
        assert(v.subrange(0, i as int).drop_last() =~= v.subrange(0, i - 1));
        assert("\n"@ =~= seq!['\n']) by {
            reveal_strlit("\n");
        }
        assert(out@ =~= start + after_newlines(v.subrange(0, i as int)));
    }
    assert(v.subrange(0, i as int) =~= v);
}

/// Whether a top-level entry is the outline document itself.
fn is_outline_entry(c: &MdEntry) -> (r: bool)
    ensures
        r == is_outline_itself(c.model()),
{
    match &c.path {
        None => false,
        Some(p) => {
            if c.children.len() == 0 && p.len() > 0 {
                assert(views(p@).last() == p@[p@.len() - 1]@);
                crate::config::same_text(p[p.len() - 1].as_str(), SUMMARY_FILE)
            } else {
                false
            }
        },
    }
}

/// The text of the outline of a resolved, sorted tree (see `summary_text`).
pub fn render_summary(root: &Option<MdEntry>) -> (r: String)
    ensures
        r@ == summary_text(opt_model(*root)),
{
    proof {
        reveal_strlit("# Summary\n");
        reveal_strlit("\n");
        reveal_strlit("\n----\n");
    }
    let mut out = String::from_str("# Summary\n");
    match root {
        None => {
            out.append("\n");
            assert(out@ =~= summary_text(opt_model(*root)));
        },
        Some(root) => {
            let ghost e = root.model();
            let ghost cs = e.children;
            let mut lines: Vec<String> = Vec::new();
            let link = RelativizedLink::from(&root.path);
            lines.push(generate_summary_line(0, root.title.as_str(), &link));
            let top = String::new();
            assert(top@ =~= indentation(0));
            let mut last_was_dir = false;
            let mut i: usize = 0;
            assert(views(lines@) + top_lines(cs, 0, false) =~= body_lines(e));
            while i < root.children.len()
                invariant
                    0 <= i <= root.children@.len(),
                    e == root.model(),
                    cs == e.children,
                    top@ == indentation(0),
                    "\n----\n"@ == separator(),
                    views(lines@) + top_lines(cs, i as int, last_was_dir) == body_lines(e),
                decreases root.children@.len() - i,
            {
                let child = &root.children[i];
                assert(cs[i as int] == child.model());
                let is_dir = child.children.len() > 0;
                let ghost before = views(lines@);
                if !is_dir && is_outline_entry(child) {
                } else {
                    if last_was_dir || is_dir {
                        lines.push(String::from_str("\n----\n"));
                    }
                    let more = gen_summary_for_entry(&top, child, Ghost(0));
                    append_lines(&mut lines, &more);
                    assert(views(lines@) =~= before + (if last_was_dir || is_dir {
                        seq![separator()]
                    } else {
                        Seq::empty()
                    }) + entry_lines(cs[i as int], 0));
                    last_was_dir = is_dir;
                }
                i = i + 1;
            }
            assert(views(lines@) =~= body_lines(e));
            write_lines(&mut out, &lines);
        },
    }
    out
}

/// A draft entry's line ends in an empty link, `()`, and the lines of its
/// children follow it one level deeper.
pub proof fn lemma_draft_renders_empty_link(e: EntryModel, depth: nat)
    requires
        e.link is None,
    ensures
        entry_lines(e, depth)[0] == indentation(depth) + seq!['*', ' ', '['] + e.title + seq![
            ']',
            '(',
            ')',
        ],
        entry_lines(e, depth) == seq![entry_lines(e, depth)[0]] + child_lines(
            e,
            e.children.len() as int,
            depth + 1,
        ),
{
    assert(entry_lines(e, depth)[0] =~= indentation(depth) + seq!['*', ' ', '['] + e.title + seq![
        ']',
        '(',
        ')',
    ]);
}

} // verus!
