use vstd::prelude::*;

verus! {

/// Relies on `str::chars`, collected into a `Vec`: the characters of the
/// string, in order.
#[verifier::external_body]
pub(crate) fn chars_of(s: &str) -> (r: Vec<char>)
    ensures
        r@ == s@,
{
    s.chars().collect()
}

/// Unicode's White_Space characters, which `str::trim` removes.
pub open spec fn is_space(c: char) -> bool {
    let n = c as u32;
    ||| 0x9 <= n <= 0xd
    ||| n == 0x20
    ||| n == 0x85
    ||| n == 0xa0
    ||| n == 0x1680
    ||| 0x2000 <= n <= 0x200a
    ||| n == 0x2028
    ||| n == 0x2029
    ||| n == 0x202f
    ||| n == 0x205f
    ||| n == 0x3000
}

/// `s` without the white space at its start.
pub open spec fn trim_start(s: Seq<char>) -> Seq<char>
    decreases s.len(),
{
    if s.len() > 0 && is_space(s[0]) {
        trim_start(s.drop_first())
    } else {
        s
    }
}

/// `s` without the white space at its end.
pub open spec fn trim_end(s: Seq<char>) -> Seq<char>
    decreases s.len(),
{
    if s.len() > 0 && is_space(s.last()) {
        trim_end(s.drop_last())
    } else {
        s
    }
}

/// `s` without the white space at both ends.
pub open spec fn trim_both(s: Seq<char>) -> Seq<char> {
    trim_end(trim_start(s))
}

/// The text of a heading line: without its `#` marker, then without the white
/// space round it.
pub open spec fn heading_text(line: Seq<char>) -> Seq<char> {
    trim_both(line.drop_first())
}

/// Where the line that starts at `i` ends: at the next line feed, or at the end.
pub open spec fn line_end(s: Seq<char>, i: int) -> int
    decreases s.len() - i,
{
    if i < 0 || i >= s.len() {
        s.len() as int
    } else if s[i] == '\n' {
        i
    } else {
        line_end(s, i + 1)
    }
}

/// A line ends at or after its start, and at a line feed or at the end.
pub proof fn lemma_line_end(s: Seq<char>, i: int)
    requires
        0 <= i <= s.len(),
    ensures
        i <= line_end(s, i) <= s.len(),
        line_end(s, i) < s.len() ==> s[line_end(s, i)] == '\n',
    decreases s.len() - i,
{
    if i < s.len() && s[i] != '\n' {
        lemma_line_end(s, i + 1);
    }
}

/// The line that starts at `i` is a top-level heading: it starts with a
/// single `#` and white space.
pub open spec fn starts_heading(s: Seq<char>, i: int) -> bool {
    0 <= i && i + 1 < s.len() && s[i] == '#' && is_space(s[i + 1]) && s[i + 1] != '\n'
}

/// The text of the first top-level heading among the lines from the one that
/// starts at `i` on.
pub open spec fn heading_from(s: Seq<char>, i: int) -> Option<Seq<char>>
    decreases s.len() - i,
{
    if i < 0 || i > s.len() {
        None
    } else if starts_heading(s, i) {
        Some(heading_text(s.subrange(i, line_end(s, i))))
    } else if line_end(s, i) >= s.len() {
        None
    } else {
        proof {
            lemma_line_end(s, i);
        }
        heading_from(s, line_end(s, i) + 1)
    }
}

/// The title that a document gives itself: the text of its first top-level
/// heading, or empty.
pub open spec fn title_of(content: Seq<char>) -> Seq<char> {
    match heading_from(content, 0) {
        Some(t) => t,
        None => Seq::empty(),
    }
}

/// A markdown document's name: its extension is `md`.
pub open spec fn is_markdown(name: Seq<char>) -> bool {
    let n = name.len();
    n >= 4 && name[n - 3] == '.' && name[n - 2] == 'm' && name[n - 1] == 'd'
}

fn is_space_char(c: char) -> (r: bool)
    ensures
        r == is_space(c),
{
    let n = c as u32;
    (0x9 <= n && n <= 0xd) || n == 0x20 || n == 0x85 || n == 0xa0 || n == 0x1680 || (0x2000 <= n
        && n <= 0x200a) || n == 0x2028 || n == 0x2029 || n == 0x202f || n == 0x205f || n == 0x3000
}

/// The bounds of what is left of `v[from..to]` without the white space at both ends.
fn trim_range(v: &Vec<char>, from: usize, to: usize) -> (r: (usize, usize))
    requires
        from <= to <= v@.len(),
    ensures
        from <= r.0 <= r.1 <= to,
        v@.subrange(r.0 as int, r.1 as int) == trim_both(v@.subrange(from as int, to as int)),
{
    let mut lo = from;
    while lo < to && is_space_char(v[lo])
        invariant
            from <= lo <= to <= v@.len(),
            trim_start(v@.subrange(from as int, to as int)) == trim_start(
                v@.subrange(lo as int, to as int)),
        decreases to - lo,
    {
        assert(v@.subrange(lo as int, to as int).drop_first() =~= v@.subrange(
            lo + 1,
            to as int,
        ));
        lo = lo + 1;
    }
    let mut hi = to;
    while hi > lo && is_space_char(v[hi - 1])
        invariant
            from <= lo <= hi <= to <= v@.len(),
            trim_start(v@.subrange(from as int, to as int)) == v@.subrange(
                lo as int,
                to as int,
            ),
            trim_end(v@.subrange(lo as int, to as int)) == trim_end(
                v@.subrange(lo as int, hi as int)),
        decreases hi - lo,
    {
        assert(v@.subrange(lo as int, hi as int).drop_last() =~= v@.subrange(
            lo as int,
            hi - 1,
        ));
        hi = hi - 1;
    }
    (lo, hi)
}

/// The bounds of the first top-level heading's text in `v`, if it has one.
fn heading_range(v: &Vec<char>) -> (r: Option<(usize, usize)>)
    ensures
        match r {
            Some((lo, hi)) => lo <= hi <= v@.len() && heading_from(v@, 0) == Some(
                v@.subrange(lo as int, hi as int),
            ),
            None => heading_from(v@, 0) is None,
        },
{
    let n = v.len();
    let mut i: usize = 0;
    while i <= n
        invariant
            n == v@.len(),
            0 <= i <= n + 1,
            i <= n ==> heading_from(v@, 0) == heading_from(v@, i as int),
            i > n ==> heading_from(v@, 0) is None,
        decreases n + 1 - i,
    {
        let mut e = i;
        while e < n && v[e] != '\n'
            invariant
                n == v@.len(),
                i <= e <= n,
                line_end(v@, i as int) == line_end(v@, e as int),
            decreases n - e,
        {
            e = e + 1;
        }
        if i < n && i + 1 < n && v[i] == '#' && is_space_char(v[i + 1]) && v[i + 1] != '\n' {
            assert(v@.subrange(i as int, e as int).drop_first() =~= v@.subrange(i + 1, e as int));
            return Some(trim_range(v, i + 1, e));
        }
        if e == n {
            return None;
        }
        i = e + 1;
    }
    None
}

/// The title that a document with this content gives itself: the text of its
/// first line that starts with a single `#` and white space, without the
/// marks and the white space round it; empty where no line does.
pub fn get_title(content: &str) -> (r: String)
    ensures
        r@ == title_of(content@),
{
    let v = chars_of(content);
    match heading_range(&v) {
        Some((lo, hi)) => content.substring_char(lo, hi).to_owned(),
        None => String::new(),
    }
}

/// Whether a file of this name is a markdown document: its extension is `md`.
pub fn is_markdown_name(name: &str) -> (r: bool)
    ensures
        r == is_markdown(name@),
{
    let v = chars_of(name);
    let n = v.len();
    n >= 4 && v[n - 3] == '.' && v[n - 2] == 'm' && v[n - 1] == 'd'
}

} // verus!
