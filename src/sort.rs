use vstd::prelude::*;

use crate::config::views;
use crate::text::chars_of;
use crate::tree::{empty_model, models, EntryModel, MdEntry, PathModel};

verus! {

/// `a` comes before `b`, comparing from position `i` on, character by
/// character by code point; a proper prefix comes first.
pub open spec fn text_lt_from(a: Seq<char>, b: Seq<char>, i: int) -> bool
    decreases a.len() - i,
{
    if i < 0 {
        false
    } else if i >= a.len() {
        i < b.len()
    } else if i >= b.len() {
        false
    } else if a[i] != b[i] {
        (a[i] as int) < (b[i] as int)
    } else {
        text_lt_from(a, b, i + 1)
    }
}

/// The order of names: by code point, character by character.
pub open spec fn text_lt(a: Seq<char>, b: Seq<char>) -> bool {
    text_lt_from(a, b, 0)
}

/// `a` comes before `b`, comparing from component `i` on.
pub open spec fn path_lt_from(a: PathModel, b: PathModel, i: int) -> bool
    decreases a.len() - i,
{
    if i < 0 {
        false
    } else if i >= a.len() {
        i < b.len()
    } else if i >= b.len() {
        false
    } else if a[i] != b[i] {
        text_lt(a[i], b[i])
    } else {
        path_lt_from(a, b, i + 1)
    }
}

/// The order of paths: component by component, each compared as names are.
pub open spec fn path_lt(a: PathModel, b: PathModel) -> bool {
    path_lt_from(a, b, 0)
}

/// Where `x` goes into `s`: after the last entry whose key is not greater.
pub open spec fn insert_pos(s: Seq<EntryModel>, x: EntryModel) -> int
    decreases s.len(),
{
    if s.len() == 0 {
        0
    } else if path_lt(x.key, s.last().key) {
        insert_pos(s.drop_last(), x)
    } else {
        s.len() as int
    }
}

/// Entries stably sorted by key: each put in turn after those before it with a
/// key that is not greater.
pub open spec fn sort_models(s: Seq<EntryModel>) -> Seq<EntryModel>
    decreases s.len(),
{
    if s.len() == 0 {
        s
    } else {
        let r = sort_models(s.drop_last());
        r.insert(insert_pos(r, s.last()), s.last())
    }
}

/// The children of `e`, each with its own children sorted at every depth.
pub open spec fn sorted_kids(e: EntryModel) -> Seq<EntryModel>
    decreases e, 0int,
{
    Seq::new(
        e.children.len(),
        |i: int|
            if 0 <= i < e.children.len() {
                sorted_tree(e.children[i])
            } else {
                empty_model()
            },
    )
}

/// The entry with the children at every depth stably sorted by key.
pub open spec fn sorted_tree(e: EntryModel) -> EntryModel
    decreases e, 1int,
{
    EntryModel { title: e.title, link: e.link, key: e.key, children: sort_models(sorted_kids(e)) }
}

/// Neighbours in `s` come in key order: no key is smaller than the one
/// before it.
pub open spec fn keys_ordered(s: Seq<EntryModel>) -> bool {
    forall|k: int| 0 <= k < s.len() - 1 ==> !path_lt(#[trigger] s[k + 1].key, s[k].key)
}

/// Of two names, at most one comes first.
pub proof fn lemma_text_lt_asymmetric(a: Seq<char>, b: Seq<char>, i: int)
    requires
        0 <= i,
    ensures
        !(text_lt_from(a, b, i) && text_lt_from(b, a, i)),
    decreases a.len() - i,
{
    if i < a.len() && i < b.len() && a[i] == b[i] {
        lemma_text_lt_asymmetric(a, b, i + 1);
    }
}

/// Of two paths, at most one comes first.
pub proof fn lemma_path_lt_asymmetric(a: PathModel, b: PathModel, i: int)
    requires
        0 <= i,
    ensures
        !(path_lt_from(a, b, i) && path_lt_from(b, a, i)),
    decreases a.len() - i,
{
    if i < a.len() && i < b.len() {
        if a[i] == b[i] {
            lemma_path_lt_asymmetric(a, b, i + 1);
        } else {
            lemma_text_lt_asymmetric(a[i], b[i], 0);
        }
    }
}

/// Where an entry is put: after entries not greater than it, before entries
/// greater than it.
pub proof fn lemma_insert_pos(s: Seq<EntryModel>, x: EntryModel)
    ensures
        0 <= insert_pos(s, x) <= s.len(),
        insert_pos(s, x) > 0 ==> !path_lt(x.key, s[insert_pos(s, x) - 1].key),
        forall|j: int| insert_pos(s, x) <= j < s.len() ==> path_lt(x.key, #[trigger] s[j].key),
    decreases s.len(),
{
    if s.len() > 0 && path_lt(x.key, s.last().key) {
        let rest = s.drop_last();
        lemma_insert_pos(rest, x);
        assert forall|j: int| insert_pos(s, x) <= j < s.len() implies path_lt(
            x.key,
            #[trigger] s[j].key,
        ) by {
            if j < rest.len() {
                assert(rest[j] == s[j]);
            }
        }
    }
}

/// Where an entry goes depends on its key alone.
pub proof fn lemma_insert_pos_by_key(s: Seq<EntryModel>, x: EntryModel, y: EntryModel)
    requires
        x.key == y.key,
    ensures
        insert_pos(s, x) == insert_pos(s, y),
    decreases s.len(),
{
    if s.len() > 0 {
        lemma_insert_pos_by_key(s.drop_last(), x, y);
    }
}

/// Putting an entry in its place keeps the keys in order, and adds just that entry.
pub proof fn lemma_insert_keeps_order(s: Seq<EntryModel>, x: EntryModel)
    requires
        keys_ordered(s),
    ensures
        keys_ordered(s.insert(insert_pos(s, x), x)),
{
    lemma_insert_pos(s, x);
    let p = insert_pos(s, x);
    let r = s.insert(p, x);
    assert forall|k: int| 0 <= k < r.len() - 1 implies !path_lt(#[trigger] r[k + 1].key, r[k].key) by {
        if k + 1 < p {
            assert(r[k] == s[k] && r[k + 1] == s[k + 1]);
            assert(!path_lt(s[k + 1].key, s[k].key));
        } else if k + 1 == p {
            assert(r[k] == s[k] && r[k + 1] == x);
        } else if k == p {
            assert(r[k] == x && r[k + 1] == s[k]);
            assert(path_lt(x.key, s[k].key));
            lemma_path_lt_asymmetric(x.key, s[k].key, 0);
        } else {
            assert(r[k] == s[k - 1] && r[k + 1] == s[k]);
            assert(!path_lt(s[k - 1 + 1].key, s[k - 1].key));
        }
    }
}

/// Sorting puts the keys in order and keeps the entries: the result holds
/// the same entries, as often, whatever their order in the input.
pub proof fn lemma_sort_models(s: Seq<EntryModel>)
    ensures
        keys_ordered(sort_models(s)),
        sort_models(s).to_multiset() == s.to_multiset(),
        sort_models(s).len() == s.len(),
        forall|k: int|
            0 <= k < s.len() ==> exists|j: int| 0 <= j < s.len() && #[trigger] sort_models(s)[k] == s[j],
    decreases s.len(),
{
    if s.len() > 0 {
        let rest = s.drop_last();
        lemma_sort_models(rest);
        let r = sort_models(rest);
        lemma_insert_keeps_order(r, s.last());
        lemma_insert_pos(r, s.last());
        let p = insert_pos(r, s.last());
        let out = r.insert(p, s.last());
        assert(out.to_multiset() == s.to_multiset()) by {
            vstd::seq_lib::to_multiset_insert(r, p, s.last());
            vstd::seq_lib::to_multiset_build(rest, s.last());
            assert(rest.push(s.last()) =~= s);
        }
        assert forall|k: int| 0 <= k < s.len() implies exists|j: int|
            0 <= j < s.len() && #[trigger] sort_models(s)[k] == s[j] by {
            if k < p {
                assert(out[k] == r[k]);
                let j = choose|j: int| 0 <= j < rest.len() && r[k] == rest[j];
                assert(s[j] == rest[j]);
            } else if k == p {
                assert(out[k] == s[s.len() - 1]);
            } else {
                assert(out[k] == r[k - 1]);
                let j = choose|j: int| 0 <= j < rest.len() && r[k - 1] == rest[j];
                assert(s[j] == rest[j]);
            }
        }
    }
}

/// Sorting an entry orders its children by key, and each of its children is
/// itself the sorted form of one of the entry's children: so siblings come in
/// key order at every depth.
pub proof fn lemma_sorted_tree_ordered(e: EntryModel)
    ensures
        keys_ordered(sorted_tree(e).children),
        sorted_tree(e).children.len() == e.children.len(),
        forall|k: int|
            0 <= k < e.children.len() ==> exists|j: int|
                0 <= j < e.children.len() && #[trigger] sorted_tree(e).children[k] == sorted_tree(
                    e.children[j],
                ),
{
    let kids = sorted_kids(e);
    lemma_sort_models(kids);
    let r = sorted_tree(e);
    assert forall|k: int| 0 <= k < e.children.len() implies exists|j: int|
        0 <= j < e.children.len() && #[trigger] r.children[k] == sorted_tree(e.children[j]) by {
        let j = choose|j: int| 0 <= j < kids.len() && r.children[k] == kids[j];
        assert(kids[j] == sorted_tree(e.children[j]));
    }
}

/// Two sequences that agree at `i` and after it agree from `i` on.
pub proof fn lemma_suffix_step<A>(a: Seq<A>, b: Seq<A>, i: int)
    requires
        0 <= i < a.len(),
        i < b.len(),
        a[i] == b[i],
    ensures
        a.subrange(i + 1, a.len() as int) == b.subrange(i + 1, b.len() as int) ==> a.subrange(
            i,
            a.len() as int,
        ) == b.subrange(i, b.len() as int),
{
    let sa = a.subrange(i + 1, a.len() as int);
    let sb = b.subrange(i + 1, b.len() as int);
    if sa == sb {
        assert(sa.len() == sb.len());
        assert forall|k: int| 0 <= k < a.len() - i implies a.subrange(i, a.len() as int)[k]
            == b.subrange(i, b.len() as int)[k] by {
            if k > 0 {
                assert(sa[k - 1] == sb[k - 1]);
            }
        }
        assert(a.subrange(i, a.len() as int) =~= b.subrange(i, b.len() as int));
    }
}

/// Of two different names, one comes first.
pub proof fn lemma_text_lt_total(a: Seq<char>, b: Seq<char>, i: int)
    requires
        0 <= i <= a.len(),
        i <= b.len(),
    ensures
        text_lt_from(a, b, i) || text_lt_from(b, a, i) || a.subrange(i, a.len() as int)
            == b.subrange(i, b.len() as int),
    decreases a.len() - i,
{
    if i == a.len() && i == b.len() {
        assert(a.subrange(i, a.len() as int) =~= b.subrange(i, b.len() as int));
    } else if i < a.len() && i < b.len() {
        if a[i] == b[i] {
            lemma_text_lt_total(a, b, i + 1);
            lemma_suffix_step(a, b, i);
        } else {
            assert((a[i] as int) != (b[i] as int));
        }
    }
}

/// Names in order: the order is transitive.
pub proof fn lemma_text_lt_transitive(a: Seq<char>, b: Seq<char>, c: Seq<char>, i: int)
    requires
        0 <= i,
        text_lt_from(a, b, i),
        text_lt_from(b, c, i),
    ensures
        text_lt_from(a, c, i),
    decreases a.len() - i,
{
    if i < a.len() && i < b.len() && i < c.len() && a[i] == b[i] && b[i] == c[i] {
        lemma_text_lt_transitive(a, b, c, i + 1);
    }
}

/// Of two different paths, one comes first.
pub proof fn lemma_path_lt_total(a: PathModel, b: PathModel, i: int)
    requires
        0 <= i <= a.len(),
        i <= b.len(),
    ensures
        path_lt_from(a, b, i) || path_lt_from(b, a, i) || a.subrange(i, a.len() as int)
            == b.subrange(i, b.len() as int),
    decreases a.len() - i,
{
    if i == a.len() && i == b.len() {
        assert(a.subrange(i, a.len() as int) =~= b.subrange(i, b.len() as int));
    } else if i < a.len() && i < b.len() {
        if a[i] == b[i] {
            lemma_path_lt_total(a, b, i + 1);
            lemma_suffix_step(a, b, i);
        } else {
            lemma_text_lt_total(a[i], b[i], 0);
            assert(a[i].subrange(0, a[i].len() as int) =~= a[i]);
            assert(b[i].subrange(0, b[i].len() as int) =~= b[i]);
        }
    }
}

/// Paths in order: the order is transitive.
pub proof fn lemma_path_lt_transitive(a: PathModel, b: PathModel, c: PathModel, i: int)
    requires
        0 <= i,
        path_lt_from(a, b, i),
        path_lt_from(b, c, i),
    ensures
        path_lt_from(a, c, i),
    decreases a.len() - i,
{
    if i < a.len() && i < b.len() && i < c.len() {
        if a[i] == b[i] && b[i] == c[i] {
            lemma_path_lt_transitive(a, b, c, i + 1);
        } else if a[i] != b[i] && b[i] != c[i] {
            lemma_text_lt_transitive(a[i], b[i], c[i], 0);
            if a[i] == c[i] {
                lemma_text_lt_asymmetric(a[i], b[i], 0);
            }
        }
    }
}

/// No two entries of `s` share a key.
pub open spec fn distinct_keys(s: Seq<EntryModel>) -> bool {
    forall|i: int, j: int| 0 <= i < s.len() && 0 <= j < s.len() && i != j ==> s[i].key != s[j].key
}

/// Keys stay distinct when the entries are only reordered.
pub proof fn lemma_distinct_keys_kept(s: Seq<EntryModel>, t: Seq<EntryModel>)
    requires
        distinct_keys(s),
        s.to_multiset() == t.to_multiset(),
    ensures
        distinct_keys(t),
{
    broadcast use vstd::seq_lib::group_to_multiset_ensures;

    assert(s.no_duplicates());
    s.lemma_multiset_has_no_duplicates();
    t.lemma_multiset_has_no_duplicates_conv();
    assert forall|i: int, j: int| 0 <= i < t.len() && 0 <= j < t.len() && i != j implies t[i].key
        != t[j].key by {
        assert(t.contains(t[i]) && t.contains(t[j]));
        assert(t.to_multiset().count(t[i]) > 0 && t.to_multiset().count(t[j]) > 0);
        assert(s.contains(t[i]) && s.contains(t[j]));
        let a = choose|a: int| 0 <= a < s.len() && s[a] == t[i];
        let b = choose|b: int| 0 <= b < s.len() && s[b] == t[j];
    }
}

/// In a list whose neighbours are in strict key order, every entry comes
/// before all those after it.
pub proof fn lemma_strict_chain(r: Seq<EntryModel>, i: int, j: int)
    requires
        forall|k: int| 0 <= k < r.len() - 1 ==> path_lt(#[trigger] r[k].key, r[k + 1].key),
        0 <= i < j < r.len(),
    ensures
        path_lt(r[i].key, r[j].key),
    decreases j - i,
{
    if j > i + 1 {
        lemma_strict_chain(r, i, j - 1);
        assert(path_lt(r[j - 1].key, r[j].key));
        lemma_path_lt_transitive(r[i].key, r[j - 1].key, r[j].key, 0);
    }
}

/// Two lists in strict key order that hold the same entries are the same.
pub proof fn lemma_strict_unique(r1: Seq<EntryModel>, r2: Seq<EntryModel>)
    requires
        forall|i: int, j: int| 0 <= i < j < r1.len() ==> path_lt(r1[i].key, r1[j].key),
        forall|i: int, j: int| 0 <= i < j < r2.len() ==> path_lt(r2[i].key, r2[j].key),
        r1.to_multiset() == r2.to_multiset(),
    ensures
        r1 == r2,
    decreases r1.len(),
{
    broadcast use vstd::seq_lib::group_to_multiset_ensures;

    assert(r1.len() == r1.to_multiset().len());
    if r1.len() == 0 {
        assert(r1 =~= r2);
    } else {
        assert(r1.to_multiset().count(r1[0]) > 0);
        assert(r2.to_multiset().count(r2[0]) > 0);
        let j = choose|j: int| 0 <= j < r2.len() && r2[j] == r1[0];
        let i = choose|i: int| 0 <= i < r1.len() && r1[i] == r2[0];
        if r1[0] != r2[0] {
            assert(i > 0 && j > 0);
            assert(path_lt(r1[0].key, r1[i].key));
            assert(path_lt(r2[0].key, r2[j].key));
            lemma_path_lt_asymmetric(r1[0].key, r2[0].key, 0);
        }
        assert(r1[0] == r2[0]);
        let t1 = r1.drop_first();
        let t2 = r2.drop_first();
        assert(r1.remove(0) =~= t1);
        assert(r2.remove(0) =~= t2);
        vstd::seq_lib::to_multiset_remove(r1, 0);
        vstd::seq_lib::to_multiset_remove(r2, 0);
        lemma_strict_unique(t1, t2);
        assert(r1 =~= r2) by {
            assert forall|k: int| 0 <= k < r1.len() implies r1[k] == r2[k] by {
                if k > 0 {
                    assert(t1[k - 1] == t2[k - 1]);
                }
            }
        }
    }
}

/// Sorted entries with distinct keys come in strict key order.
pub proof fn lemma_sorted_strict(s: Seq<EntryModel>)
    requires
        distinct_keys(s),
    ensures
        forall|i: int, j: int|
            0 <= i < j < sort_models(s).len() ==> path_lt(sort_models(s)[i].key, sort_models(s)[j].key),
{
    let r = sort_models(s);
    lemma_sort_models(s);
    lemma_distinct_keys_kept(s, r);
    assert forall|k: int| 0 <= k < r.len() - 1 implies path_lt(#[trigger] r[k].key, r[k + 1].key) by {
        assert(!path_lt(r[k + 1].key, r[k].key));
        assert(r[k].key != r[k + 1].key);
        lemma_path_lt_total(r[k].key, r[k + 1].key, 0);
        assert(r[k].key.subrange(0, r[k].key.len() as int) =~= r[k].key);
        assert(r[k + 1].key.subrange(0, r[k + 1].key.len() as int) =~= r[k + 1].key);
    }
    assert forall|i: int, j: int| 0 <= i < j < r.len() implies path_lt(r[i].key, r[j].key) by {
        lemma_strict_chain(r, i, j);
    }
}

/// Where no two siblings share a key, their sorted order does not depend on
/// the order in which the directory lists them.
pub proof fn lemma_sort_ignores_listing_order(s1: Seq<EntryModel>, s2: Seq<EntryModel>)
    requires
        distinct_keys(s1),
        s1.to_multiset() == s2.to_multiset(),
    ensures
        sort_models(s1) == sort_models(s2),
{
    lemma_distinct_keys_kept(s1, s2);
    lemma_sort_models(s1);
    lemma_sort_models(s2);
    lemma_sorted_strict(s1);
    lemma_sorted_strict(s2);
    lemma_strict_unique(sort_models(s1), sort_models(s2));
}

/// Every entry of `s` has a key not smaller than those before it.
pub open spec fn all_pairs_ordered(s: Seq<EntryModel>) -> bool {
    forall|i: int, j: int| 0 <= i < j < s.len() ==> !path_lt(s[j].key, s[i].key)
}

/// The children of `e` come in key order, and so at every depth below it.
pub open spec fn ordered_everywhere(e: EntryModel) -> bool
    decreases e, 1int, 0int,
{
    all_pairs_ordered(e.children) && children_ordered_everywhere(e, e.children.len() as int)
}

/// The first `n` children of `e` are ordered at every depth.
pub open spec fn children_ordered_everywhere(e: EntryModel, n: int) -> bool
    decreases e, 0int, n,
{
    if n <= 0 || n > e.children.len() {
        true
    } else {
        children_ordered_everywhere(e, n - 1) && ordered_everywhere(e.children[n - 1])
    }
}

/// Not after, then not after: not after.
pub proof fn lemma_path_le_transitive(a: PathModel, b: PathModel, c: PathModel)
    requires
        !path_lt(b, a),
        !path_lt(c, b),
    ensures
        !path_lt(c, a),
{
    lemma_path_lt_total(a, b, 0);
    lemma_path_lt_total(b, c, 0);
    assert(a.subrange(0, a.len() as int) =~= a);
    assert(b.subrange(0, b.len() as int) =~= b);
    assert(c.subrange(0, c.len() as int) =~= c);
    lemma_path_lt_asymmetric(a, b, 0);
    lemma_path_lt_asymmetric(b, c, 0);
    lemma_path_lt_asymmetric(a, c, 0);
    if path_lt(a, b) && path_lt(b, c) {
        lemma_path_lt_transitive(a, b, c, 0);
    }
}

/// Neighbours in key order: every pair in key order.
pub proof fn lemma_all_pairs_ordered(s: Seq<EntryModel>, i: int, j: int)
    requires
        keys_ordered(s),
        0 <= i < j < s.len(),
    ensures
        !path_lt(s[j].key, s[i].key),
    decreases j - i,
{
    assert(!path_lt(s[j - 1 + 1].key, s[j - 1].key));
    if j > i + 1 {
        lemma_all_pairs_ordered(s, i, j - 1);
        lemma_path_le_transitive(s[i].key, s[j - 1].key, s[j].key);
    }
}

/// Sorting an entry orders the children of every entry of the result, any
/// two of them, at every depth.
pub proof fn lemma_sorted_tree_ordered_everywhere(e: EntryModel)
    ensures
        ordered_everywhere(sorted_tree(e)),
    decreases e, 1int, 0int,
{
    let r = sorted_tree(e);
    lemma_sorted_tree_ordered(e);
    assert forall|i: int, j: int| 0 <= i < j < r.children.len() implies !path_lt(
        r.children[j].key,
        r.children[i].key,
    ) by {
        lemma_all_pairs_ordered(r.children, i, j);
    }
    lemma_sorted_children_ordered(e, r.children.len() as int);
}

/// The first `n` children of a sorted entry are ordered at every depth.
pub proof fn lemma_sorted_children_ordered(e: EntryModel, n: int)
    requires
        0 <= n <= e.children.len(),
    ensures
        children_ordered_everywhere(sorted_tree(e), n),
    decreases e, 0int, n,
{
    if n > 0 {
        lemma_sorted_tree_ordered(e);
        lemma_sorted_children_ordered(e, n - 1);
        let r = sorted_tree(e);
        let j = choose|j: int|
            0 <= j < e.children.len() && #[trigger] r.children[n - 1] == sorted_tree(
                e.children[j],
            );
        lemma_sorted_tree_ordered_everywhere(e.children[j]);
    }
}

/// Compares two names by code point, character by character.
pub fn text_less(a: &String, b: &String) -> (r: bool)
    ensures
        r == text_lt(a@, b@),
{
    let x = chars_of(a.as_str());
    let y = chars_of(b.as_str());
    let mut i: usize = 0;
    while i < x.len() && i < y.len() && x[i] == y[i]
        invariant
            0 <= i <= x@.len(),
            i <= y@.len(),
            text_lt(a@, b@) == text_lt_from(x@, y@, i as int),
        decreases x@.len() - i,
    {
        i = i + 1;
    }
    if i >= x.len() {
        i < y.len()
    } else if i >= y.len() {
        false
    } else {
        x[i] < y[i]
    }
}

/// Compares two paths component by component.
pub fn path_less(a: &Vec<String>, b: &Vec<String>) -> (r: bool)
    ensures
        r == path_lt(views(a@), views(b@)),
{
    let ghost va = views(a@);
    let ghost vb = views(b@);
    let mut i: usize = 0;
    while i < a.len() && i < b.len() && a[i] == b[i]
        invariant
            0 <= i <= a@.len(),
            i <= b@.len(),
            va == views(a@),
            vb == views(b@),
            path_lt(va, vb) == path_lt_from(va, vb, i as int),
        decreases a@.len() - i,
    {
        i = i + 1;
    }
    if i >= a.len() {
        i < b.len()
    } else if i >= b.len() {
        false
    } else {
        assert(va[i as int] == a@[i as int]@ && vb[i as int] == b@[i as int]@);
        text_less(&a[i], &b[i])
    }
}

/// The entry with the children at every depth stably sorted by key.
fn sorted_entry(e: MdEntry) -> (r: MdEntry)
    ensures
        r.model() == sorted_tree(e.model()),
    decreases e,
{
    let ghost orig = e.model();
    let ghost kids_model = Seq::new(
        orig.children.len(),
        |i: int| sorted_tree(orig.children[i]),
    );
    let MdEntry { title, path, sorting_path, children } = e;
    let mut kids = children;
    let ghost m = kids@.len();
    let mut out: Vec<MdEntry> = Vec::new();
    assert(kids@.subrange(0, m as int) =~= kids@);
    assert(kids_model.subrange(0, 0) =~= Seq::<EntryModel>::empty());
    while kids.len() > 0
        invariant
            kids@.len() <= m,
            m == orig.children.len(),
            m == children@.len(),
            kids@ == children@.subrange(m - kids@.len(), m as int),
            orig == e.model(),
            children == e.children,
            kids_model == Seq::new(orig.children.len(), |i: int| sorted_tree(orig.children[i])),
            models(out@) == sort_models(kids_model.subrange(0, m - kids@.len())),
        decreases kids@.len(),
    {
        let ghost t = m - kids@.len();
        let c0 = kids.remove(0);
        assert(c0 == children@[t]);
        assert(decreases_to!(e => children@[t]));
        let c = sorted_entry(c0);
        assert(c.model() == kids_model[t]);
        let mut k = out.len();
        let ghost om = models(out@);
        assert(om.subrange(0, k as int) =~= om);
        while k > 0 && path_less(&c.sorting_path, &out[k - 1].sorting_path)
            invariant
                0 <= k <= out@.len(),
                om == models(out@),
                insert_pos(om, c.model()) == insert_pos(om.subrange(0, k as int), c.model()),
            decreases k,
        {
            assert(om.subrange(0, k as int).drop_last() =~= om.subrange(0, k - 1));
            k = k - 1;
        }
        assert(om.subrange(0, k as int).len() == k);
        out.insert(k, c);
        assert(models(out@) =~= om.insert(k as int, c.model()));
        assert(kids_model.subrange(0, t + 1).drop_last() =~= kids_model.subrange(0, t));
        assert(kids@ =~= children@.subrange(m - kids@.len(), m as int));
    }
    assert(kids_model.subrange(0, m as int) =~= kids_model);
    let r = MdEntry { title, path, sorting_path, children: out };
    assert(r.model().children =~= models(out@));
    assert(kids_model =~= Seq::new(
        orig.children.len(),
        |i: int|
            if 0 <= i < orig.children.len() {
                sorted_tree(orig.children[i])
            } else {
                empty_model()
            },
    ));
    assert(models(out@) == sort_models(kids_model));
    assert(r.model().title == orig.title);
    assert(r.model().link == orig.link);
    assert(r.model().key == orig.key);
    assert(kids_model =~= sorted_kids(orig));
    assert(r.model().children == sorted_tree(orig).children);
    r
}

/// Recursively sorts the entries by path
pub fn sort_entry_recursive(entry: &mut MdEntry)
    ensures
        final(entry).model() == sorted_tree(old(entry).model()),
{
    let mut e = MdEntry {
        title: String::new(),
        path: None,
        sorting_path: Vec::new(),
        children: Vec::new(),
    };
    std::mem::swap(&mut e, entry);
    *entry = sorted_entry(e);
}

} // verus!
