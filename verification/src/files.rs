//! Which files of a folder make up an image sequence, and in what order:
//! the image files, sorted by name.
use vstd::prelude::*;
use crate::scan::{chars_of, has_image_extension, is_image_file_name};

verus! {

/// `a` sorts before `b`, comparing characters by code point from the
/// start, a proper prefix sorting first (the order of `str`, whose UTF-8
/// bytes sort as their code points do).
pub open spec fn text_lt(a: Seq<char>, b: Seq<char>) -> bool
    decreases a.len(),
{
    if b.len() == 0 {
        false
    } else if a.len() == 0 {
        true
    } else if a[0] != b[0] {
        (a[0] as int) < (b[0] as int)
    } else {
        text_lt(a.drop_first(), b.drop_first())
    }
}

/// No text sorts before itself.
pub proof fn lemma_text_lt_irreflexive(a: Seq<char>)
    ensures
        !text_lt(a, a),
    decreases a.len(),
{
    if a.len() > 0 {
        lemma_text_lt_irreflexive(a.drop_first());
    }
}

/// Of two different texts exactly one sorts first.
pub proof fn lemma_text_lt_total(a: Seq<char>, b: Seq<char>)
    ensures
        a != b ==> (text_lt(a, b) || text_lt(b, a)),
        !(text_lt(a, b) && text_lt(b, a)),
    decreases a.len(),
{
    if a.len() > 0 && b.len() > 0 {
        if a[0] == b[0] {
            lemma_text_lt_total(a.drop_first(), b.drop_first());
            if a != b {
                assert(a =~= seq![a[0]] + a.drop_first());
                assert(b =~= seq![b[0]] + b.drop_first());
            }
        } else {
        }
    } else if a.len() == 0 && b.len() == 0 {
        assert(a =~= b);
    }
}

/// Texts are compared character by character from the start: at the first
/// position `i` where they differ, the one with the smaller character code
/// sorts first.
pub proof fn lemma_text_lt_first_difference(a: Seq<char>, b: Seq<char>, i: int)
    requires
        0 <= i < a.len(),
        i < b.len(),
        a.take(i) == b.take(i),
        a[i] != b[i],
    ensures
        text_lt(a, b) <==> (a[i] as int) < (b[i] as int),
    decreases i,
{
    if i > 0 {
        assert(a[0] == a.take(i)[0] && b[0] == b.take(i)[0]);
        assert(a.drop_first().take(i - 1) =~= a.take(i).drop_first());
        assert(b.drop_first().take(i - 1) =~= b.take(i).drop_first());
        lemma_text_lt_first_difference(a.drop_first(), b.drop_first(), i - 1);
    }
}

/// A proper prefix of a text sorts before it, and not after it.
pub proof fn lemma_text_lt_prefix(a: Seq<char>, b: Seq<char>)
    requires
        a.len() < b.len(),
        a == b.take(a.len() as int),
    ensures
        text_lt(a, b),
        !text_lt(b, a),
    decreases a.len(),
{
    if a.len() > 0 {
        assert(a[0] == b.take(a.len() as int)[0]);
        assert(a.drop_first() =~= b.drop_first().take(a.len() - 1));
        lemma_text_lt_prefix(a.drop_first(), b.drop_first());
    }
}

/// Sorting first is transitive.
pub proof fn lemma_text_lt_transitive(a: Seq<char>, b: Seq<char>, c: Seq<char>)
    requires
        text_lt(a, b),
        text_lt(b, c),
    ensures
        text_lt(a, c),
    decreases a.len(),
{
    if a.len() > 0 && a[0] == b[0] && b[0] == c[0] {
        lemma_text_lt_transitive(a.drop_first(), b.drop_first(), c.drop_first());
    }
}

proof fn lemma_text_lt_skip(a: Seq<char>, b: Seq<char>, i: int)
    requires
        0 <= i < a.len(),
        i < b.len(),
        a[i] == b[i],
    ensures
        text_lt(a.skip(i), b.skip(i)) == text_lt(a.skip(i + 1), b.skip(i + 1)),
{
    assert(a.skip(i).drop_first() =~= a.skip(i + 1));
    assert(b.skip(i).drop_first() =~= b.skip(i + 1));
}

/// Whether `a` sorts before `b`.
pub fn text_less(a: &[char], b: &[char]) -> (r: bool)
    ensures
        r == text_lt(a@, b@),
{
    let mut i: usize = 0;
    assert(a@.skip(0) =~= a@);
    assert(b@.skip(0) =~= b@);
    while i < a.len() && i < b.len() && a[i] == b[i]
        invariant
            i <= a@.len(),
            i <= b@.len(),
            text_lt(a@, b@) == text_lt(a@.skip(i as int), b@.skip(i as int)),
        decreases a@.len() - i,
    {
        proof {
            lemma_text_lt_skip(a@, b@, i as int);
        }
        i = i + 1;
    }
    if i == b.len() {
        assert(b@.skip(i as int).len() == 0);
        false
    } else if i == a.len() {
        assert(a@.skip(i as int).len() == 0);
        true
    } else {
        assert(a@.skip(i as int)[0] == a@[i as int]);
        assert(b@.skip(i as int)[0] == b@[i as int]);
        a[i] < b[i]
    }
}

/// File `a` comes before file `b`: by name, and by listing order among
/// equal names.
pub open spec fn file_before(names: Seq<Seq<char>>, a: int, b: int) -> bool {
    text_lt(names[a], names[b]) || (names[a] == names[b] && a < b)
}

/// `order` lists, once each and sorted by name, exactly the image files
/// among `names`.
pub open spec fn is_image_file_order(names: Seq<Seq<char>>, order: Seq<usize>) -> bool {
    &&& forall|i: int|
        0 <= i < order.len() ==> #[trigger] order[i] < names.len() && is_image_file_name(
            names[order[i] as int],
        )
    &&& forall|j: int| 0 <= j < names.len() && is_image_file_name(names[j]) ==> order.contains(j as usize)
    &&& order.no_duplicates()
    &&& forall|i: int, j: int|
        0 <= i < j < order.len() ==> file_before(names, #[trigger] order[i] as int, #[trigger] order[j] as int)
}

/// The views of the file names.
pub open spec fn name_views(names: Seq<String>) -> Seq<Seq<char>> {
    Seq::new(names.len(), |i: int| names[i]@)
}

proof fn lemma_file_before_transitive(names: Seq<Seq<char>>, a: int, b: int, c: int)
    requires
        file_before(names, a, b),
        file_before(names, b, c),
    ensures
        file_before(names, a, c),
{
    if text_lt(names[a], names[b]) && text_lt(names[b], names[c]) {
        lemma_text_lt_transitive(names[a], names[b], names[c]);
    }
}

/// The image files among `names` (the folder's entries, by position), in
/// the order a sequence shows them: sorted by name.
pub fn select_image_files(names: &[String]) -> (r: Vec<usize>)
    ensures
        is_image_file_order(name_views(names@), r@),
{
    let ghost views = name_views(names@);
    let n = names.len();
    let mut texts: Vec<Vec<char>> = Vec::new();
    let mut t: usize = 0;
    while t < n
        invariant
            n == names@.len(),
            views == name_views(names@),
            t <= n,
            texts@.len() == t,
            forall|i: int| 0 <= i < t ==> #[trigger] texts@[i]@ == views[i],
        decreases n - t,
    {
        texts.push(chars_of(names[t].as_str()));
        t = t + 1;
    }
    let mut order: Vec<usize> = Vec::new();
    let mut k: usize = 0;
    while k < n
        invariant
            n == names@.len(),
            views == name_views(names@),
            views.len() == n,
            texts@.len() == n,
            forall|i: int| 0 <= i < n ==> #[trigger] texts@[i]@ == views[i],
            k <= n,
            forall|i: int|
                0 <= i < order@.len() ==> #[trigger] order@[i] < k && is_image_file_name(
                    views[order@[i] as int],
                ),
            forall|j: int| 0 <= j < k && is_image_file_name(views[j]) ==> order@.contains(j as usize),
            order@.no_duplicates(),
            forall|i: int, j: int|
                0 <= i < j < order@.len() ==> file_before(
                    views,
                    #[trigger] order@[i] as int,
                    #[trigger] order@[j] as int,
                ),
        decreases n - k,
    {
        let ghost old_order = order@;
        if has_image_extension(names[k].as_str()) {
            let mut p: usize = 0;
            while p < order.len() && !text_less(texts[k].as_slice(), texts[order[p]].as_slice())
                invariant
                    n == names@.len(),
                    views.len() == n,
                    texts@.len() == n,
                    forall|i: int| 0 <= i < n ==> #[trigger] texts@[i]@ == views[i],
                    k < n,
                    order@ == old_order,
                    forall|i: int| 0 <= i < order@.len() ==> #[trigger] order@[i] < k,
                    p <= order@.len(),
                    forall|m: int|
                        0 <= m < p ==> file_before(views, #[trigger] order@[m] as int, k as int),
                decreases order@.len() - p,
            {
                proof {
                    let q = order@[p as int] as int;
                    lemma_text_lt_total(views[k as int], views[q]);
                }
                p = p + 1;
            }
            proof {
                assert forall|m: int| p <= m < old_order.len() implies file_before(
                    views,
                    k as int,
                    #[trigger] old_order[m] as int,
                ) by {
                    let q = old_order[p as int] as int;
                    assert(text_lt(views[k as int], views[q]));
                    if m > p {
                        lemma_file_before_transitive(views, k as int, q, old_order[m] as int);
                    }
                }
            }
            order.insert(p, k);
            proof {
                let o = order@;
                assert(o == old_order.insert(p as int, k));
                assert forall|i: int| 0 <= i < o.len() implies #[trigger] o[i] < k + 1
                    && is_image_file_name(views[o[i] as int]) by {
                    if i > p {
                        assert(o[i] == old_order[i - 1]);
                    } else if i < p {
                        assert(o[i] == old_order[i]);
                    }
                }
                assert forall|i: int, j: int|
                    0 <= i < o.len() && 0 <= j < o.len() && i != j implies o[i] != o[j] by {
                    if i < p && j > p {
                        assert(o[j] == old_order[j - 1]);
                    } else if j < p && i > p {
                        assert(o[i] == old_order[i - 1]);
                    } else if i > p && j > p {
                        assert(o[i] == old_order[i - 1]);
                        assert(o[j] == old_order[j - 1]);
                    }
                }
                assert forall|i: int, j: int| 0 <= i < j < o.len() implies file_before(
                    views,
                    #[trigger] o[i] as int,
                    #[trigger] o[j] as int,
                ) by {
                    if j < p {
                    } else if j == p {
                        assert(file_before(views, old_order[i] as int, k as int));
                    } else if i < p {
                        assert(o[j] == old_order[j - 1]);
                    } else if i == p {
                        assert(o[j] == old_order[j - 1]);
                    } else {
                        assert(o[i] == old_order[i - 1]);
                        assert(o[j] == old_order[j - 1]);
                    }
                }
                assert forall|j: int|
                    0 <= j < k + 1 && is_image_file_name(views[j]) implies o.contains(j as usize) by {
                    if j == k {
                        assert(o[p as int] == k);
                    } else {
                        assert(old_order.contains(j as usize));
                        let m = choose|m: int| 0 <= m < old_order.len() && old_order[m] == j as usize;
                        if m < p {
                            assert(o[m] == j as usize);
                        } else {
                            assert(o[m + 1] == j as usize);
                        }
                    }
                }
            }
        } else {
            proof {
                assert forall|j: int|
                    0 <= j < k + 1 && is_image_file_name(views[j]) implies order@.contains(
                    j as usize,
                ) by {
                    if j == k {
                        assert(views[j] == names@[j]@);
                    }
                }
            }
        }
        k = k + 1;
    }
    order
}

/// `path` without the `/` characters at its end.
pub open spec fn without_trailing_slashes(path: Seq<char>) -> Seq<char>
    decreases path.len(),
{
    if path.len() > 0 && path.last() == '/' {
        without_trailing_slashes(path.drop_last())
    } else {
        path
    }
}

/// The folder of one layer of a sequence: the folder `layer` inside `path`.
pub open spec fn layer_folder_of(path: Seq<char>, layer: Seq<char>) -> Seq<char> {
    without_trailing_slashes(path) + seq!['/'] + layer
}

/// The folder that holds one layer of a sequence: `layer` inside `path`,
/// joined by one `/` whatever slashes `path` ends with.
pub fn layer_folder(path: &str, layer: &str) -> (r: String)
    ensures
        r@ == layer_folder_of(path@, layer@),
{
    let mut n = path.unicode_len();
    assert(path@.take(n as int) =~= path@);
    while n > 0 && path.get_char(n - 1) == '/'
        invariant
            n <= path@.len(),
            without_trailing_slashes(path@) == without_trailing_slashes(path@.take(n as int)),
        decreases n,
    {
        assert(path@.take(n as int).drop_last() =~= path@.take(n - 1));
        n = n - 1;
    }
    let base = path.substring_char(0, n);
    assert(base@ =~= path@.take(n as int));
    let mut out = String::from_str(base);
    out.append("/");
    out.append(layer);
    proof {
        reveal_strlit("/");
        assert(out@ =~= layer_folder_of(path@, layer@));
    }
    out
}

} // verus!
