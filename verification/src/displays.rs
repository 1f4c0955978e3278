//! Ordering the attached displays by their position on the desktop.
use vstd::prelude::*;

verus! {

/// Desktop position `a` comes before `b`: further left, or equally far
/// left and higher up.
pub open spec fn position_lt(a: (i64, i64), b: (i64, i64)) -> bool {
    a.0 < b.0 || (a.0 == b.0 && a.1 < b.1)
}

/// Item `a` comes before item `b` in the stable order of `keys`: by
/// position, and by place in `keys` among equal positions.
pub open spec fn comes_before(keys: Seq<(i64, i64)>, a: int, b: int) -> bool {
    position_lt(keys[a], keys[b]) || (keys[a] == keys[b] && a < b)
}

/// `order` lists every item of `keys` once, sorted by position, items at
/// the same position keeping the order they have in `keys`: a stable sort.
pub open spec fn is_stable_order(keys: Seq<(i64, i64)>, order: Seq<usize>) -> bool {
    &&& order.len() == keys.len()
    &&& forall|i: int| 0 <= i < order.len() ==> #[trigger] order[i] < keys.len()
    &&& order.no_duplicates()
    &&& forall|i: int, j: int|
        0 <= i < j < order.len() ==> comes_before(keys, #[trigger] order[i] as int, #[trigger] order[j] as int)
}

proof fn lemma_comes_before_transitive(keys: Seq<(i64, i64)>, a: int, b: int, c: int)
    requires
        comes_before(keys, a, b),
        comes_before(keys, b, c),
    ensures
        comes_before(keys, a, c),
{
}

proof fn lemma_comes_before_total(keys: Seq<(i64, i64)>, a: int, b: int)
    requires
        a != b,
    ensures
        comes_before(keys, a, b) || comes_before(keys, b, a),
        !(comes_before(keys, a, b) && comes_before(keys, b, a)),
{
}

/// Position `q` is left of `key`, or equally far left and not lower.
fn at_or_before(q: (i64, i64), key: (i64, i64)) -> (r: bool)
    ensures
        r == (position_lt(q, key) || q == key),
{
    q.0 < key.0 || (q.0 == key.0 && q.1 <= key.1)
}

/// The stable sort of items by desktop position, as the list of their
/// places in `keys`.
pub fn position_order(keys: &[(i64, i64)]) -> (r: Vec<usize>)
    ensures
        is_stable_order(keys@, r@),
        forall|i: int, j: int|
            0 <= i < j < r@.len() ==> #[trigger] keys@[r@[i] as int].0 < #[trigger] keys@[r@[j] as int].0
                || (keys@[r@[i] as int].0 == keys@[r@[j] as int].0 && keys@[r@[i] as int].1
                <= keys@[r@[j] as int].1),
{
    let n = keys.len();
    let mut order: Vec<usize> = Vec::new();
    let mut k: usize = 0;
    while k < n
        invariant
            n == keys@.len(),
            k <= n,
            order@.len() == k,
            forall|i: int| 0 <= i < order@.len() ==> #[trigger] order@[i] < k,
            order@.no_duplicates(),
            forall|i: int, j: int|
                0 <= i < j < order@.len() ==> comes_before(
                    keys@,
                    #[trigger] order@[i] as int,
                    #[trigger] order@[j] as int,
                ),
        decreases n - k,
    {
        let key = keys[k];
        let mut p: usize = 0;
        while p < order.len() && at_or_before(keys[order[p]], key)
            invariant
                n == keys@.len(),
                k < n,
                key == keys@[k as int],
                order@.len() == k,
                forall|i: int| 0 <= i < order@.len() ==> #[trigger] order@[i] < k,
                p <= order@.len(),
                forall|m: int| 0 <= m < p ==> comes_before(keys@, #[trigger] order@[m] as int, k as int),
            decreases order@.len() - p,
        {
            p = p + 1;
        }
        let ghost old_order = order@;
        proof {
            assert forall|m: int| p <= m < old_order.len() implies comes_before(
                keys@,
                k as int,
                #[trigger] old_order[m] as int,
            ) by {
                assert(!comes_before(keys@, old_order[p as int] as int, k as int));
                lemma_comes_before_total(keys@, old_order[p as int] as int, k as int);
                if m > p {
                    lemma_comes_before_transitive(
                        keys@,
                        k as int,
                        old_order[p as int] as int,
                        old_order[m] as int,
                    );
                }
            }
        }
        order.insert(p, k);
        proof {
            let o = order@;
            assert(o == old_order.insert(p as int, k));
            assert forall|i: int| 0 <= i < o.len() implies #[trigger] o[i] < k + 1 by {
                if i > p {
                    assert(o[i] == old_order[i - 1]);
                }
            }
            assert forall|i: int, j: int| 0 <= i < o.len() && 0 <= j < o.len() && i != j implies o[i]
                != o[j] by {
                if i < p && j > p {
                    assert(o[j] == old_order[j - 1]);
                } else if j < p && i > p {
                    assert(o[i] == old_order[i - 1]);
                } else if i > p && j > p {
                    assert(o[i] == old_order[i - 1]);
                    assert(o[j] == old_order[j - 1]);
                }
            }
            assert forall|i: int, j: int| 0 <= i < j < o.len() implies comes_before(
                keys@,
                #[trigger] o[i] as int,
                #[trigger] o[j] as int,
            ) by {
                if j < p {
                } else if j == p {
                    assert(comes_before(keys@, old_order[i] as int, k as int));
                } else if i < p {
                    assert(o[j] == old_order[j - 1]);
                } else if i == p {
                    assert(o[j] == old_order[j - 1]);
                } else {
                    assert(o[i] == old_order[i - 1]);
                    assert(o[j] == old_order[j - 1]);
                }
            }
        }
        k = k + 1;
    }
    proof {
        lemma_stable_order_left_to_right(keys@, order@);
    }
    order
}

/// The desktop positions of displays given as `(x, y, width, height)`.
pub open spec fn display_positions(displays: Seq<(isize, isize, usize, usize)>) -> Seq<(i64, i64)> {
    Seq::new(displays.len(), |i: int| (displays[i].0 as i64, displays[i].1 as i64))
}

/// The bounds `(x, y, width, height)` of the display at place `index` when
/// the displays are stably ordered by position (left to right, then top to
/// bottom).
pub fn display_at(displays: &[(isize, isize, usize, usize)], index: usize) -> (r: (
    isize,
    isize,
    usize,
    usize,
))
    requires
        index < displays@.len(),
    ensures
        exists|order: Seq<usize>|
            {
                &&& is_stable_order(display_positions(displays@), order)
                &&& r == displays@[order[index as int] as int]
                &&& forall|i: int, j: int|
                    0 <= i < j < order.len() ==> #[trigger] displays@[order[i] as int].0
                        < #[trigger] displays@[order[j] as int].0 || (displays@[order[i] as int].0
                        == displays@[order[j] as int].0 && displays@[order[i] as int].1
                        <= displays@[order[j] as int].1)
            },
{
    let mut keys: Vec<(i64, i64)> = Vec::new();
    let mut i: usize = 0;
    while i < displays.len()
        invariant
            i <= displays@.len(),
            keys@ == display_positions(displays@).take(i as int),
        decreases displays@.len() - i,
    {
        let d = displays[i];
        keys.push((d.0 as i64, d.1 as i64));
        i = i + 1;
        assert(keys@ =~= display_positions(displays@).take(i as int));
    }
    assert(keys@ =~= display_positions(displays@));
    let order = position_order(keys.as_slice());
    proof {
        assert forall|i: int, j: int| 0 <= i < j < order@.len() implies #[trigger] displays@[order@[i] as int].0
            < #[trigger] displays@[order@[j] as int].0 || (displays@[order@[i] as int].0
            == displays@[order@[j] as int].0 && displays@[order@[i] as int].1
            <= displays@[order@[j] as int].1) by {
            assert(keys@[order@[i] as int].0 < keys@[order@[j] as int].0 || (keys@[order@[i] as int].0
                == keys@[order@[j] as int].0 && keys@[order@[i] as int].1
                <= keys@[order@[j] as int].1));
        }
    }
    displays[order[index]]
}

/// A stable order lists every item: each place below the number of items
/// occurs in it.
pub proof fn lemma_stable_order_covers(keys: Seq<(i64, i64)>, order: Seq<usize>, x: usize)
    requires
        is_stable_order(keys, order),
        keys.len() <= usize::MAX,
        x < keys.len(),
    ensures
        order.contains(x),
{
    let n = keys.len() as usize;
    let all = Set::<usize>::range(0, n);
    vstd::set_lib::range_set_properties::<usize>(0, n);
    order.unique_seq_to_set();
    assert(order.to_set().subset_of(all)) by {
        assert forall|y: usize| order.to_set().contains(y) implies all.contains(y) by {
            let i = choose|i: int| 0 <= i < order.len() && order[i] == y;
            assert(order[i] < keys.len());
            assert(y < n);
        }
    }
    vstd::set_lib::lemma_subset_equality(order.to_set(), all);
    assert(all.contains(x));
    assert(order.to_set().contains(x));
}

proof fn lemma_stable_orders_agree_below(
    keys: Seq<(i64, i64)>,
    o1: Seq<usize>,
    o2: Seq<usize>,
    p: int,
)
    requires
        is_stable_order(keys, o1),
        is_stable_order(keys, o2),
        keys.len() <= usize::MAX,
        0 <= p <= keys.len(),
    ensures
        forall|i: int| 0 <= i < p ==> o1[i] == o2[i],
    decreases p,
{
    if p > 0 {
        lemma_stable_orders_agree_below(keys, o1, o2, p - 1);
        let q = p - 1;
        let a = o1[q];
        let b = o2[q];
        if a != b {
            lemma_stable_order_covers(keys, o2, a);
            lemma_stable_order_covers(keys, o1, b);
            let j = choose|j: int| 0 <= j < o2.len() && o2[j] == a;
            let k = choose|k: int| 0 <= k < o1.len() && o1[k] == b;
            if j < q {
                assert(o1[j] == o2[j]);
                assert(o1[j] == o1[q]);
            }
            if k < q {
                assert(o1[k] == o2[k]);
                assert(o2[k] == o2[q]);
            }
            assert(j > q && k > q);
            assert(comes_before(keys, b as int, a as int));
            assert(comes_before(keys, a as int, b as int));
            lemma_comes_before_total(keys, a as int, b as int);
        }
    }
}

/// There is only one stable order of a list of positions, so the order
/// `position_order` returns, and the display `display_at` picks, are fully
/// determined by the positions.
pub proof fn lemma_stable_order_unique(keys: Seq<(i64, i64)>, o1: Seq<usize>, o2: Seq<usize>)
    requires
        is_stable_order(keys, o1),
        is_stable_order(keys, o2),
        keys.len() <= usize::MAX,
    ensures
        o1 == o2,
{
    lemma_stable_orders_agree_below(keys, o1, o2, keys.len() as int);
    assert(o1 =~= o2);
}

/// Positions are ordered left to right first: a position further left comes
/// before, whatever the heights; only at equal `x` does the higher one (the
/// smaller `y`) come first.
pub proof fn lemma_left_first(a: (i64, i64), b: (i64, i64))
    ensures
        a.0 < b.0 ==> position_lt(a, b),
        a.0 > b.0 ==> !position_lt(a, b),
        a.0 == b.0 ==> (position_lt(a, b) <==> a.1 < b.1),
{
}

/// A stable order lists the items by `x`, then by `y`: an item listed
/// earlier is further left, or equally far left and not lower.
pub proof fn lemma_stable_order_left_to_right(keys: Seq<(i64, i64)>, order: Seq<usize>)
    requires
        is_stable_order(keys, order),
    ensures
        forall|i: int, j: int|
            0 <= i < j < order.len() ==> #[trigger] keys[order[i] as int].0 < #[trigger] keys[order[j] as int].0
                || (keys[order[i] as int].0 == keys[order[j] as int].0 && keys[order[i] as int].1
                <= keys[order[j] as int].1),
{
    assert forall|i: int, j: int| 0 <= i < j < order.len() implies #[trigger] keys[order[i] as int].0
        < #[trigger] keys[order[j] as int].0 || (keys[order[i] as int].0 == keys[order[j] as int].0
        && keys[order[i] as int].1 <= keys[order[j] as int].1) by {
        assert(comes_before(keys, order[i] as int, order[j] as int));
    }
}

} // verus!
