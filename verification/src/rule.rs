//! Enumeration of multi-dimensional index tuples, and their ordering by
//! distance from the origin.

use vstd::prelude::*;

verus! {

/// The distance of a tuple from the origin: the sum of its coordinates.
pub open spec fn distance(t: Seq<usize>) -> int
    decreases t.len(),
{
    if t.len() == 0 {
        0
    } else {
        distance(t.drop_last()) + t.last()
    }
}

/// `a` and `b` hold the same coordinates at every position below `k`.
pub open spec fn agree_below(a: Seq<usize>, b: Seq<usize>, k: int) -> bool {
    forall|i: int| 0 <= i < k ==> a[i] == b[i]
}

/// `a` is smaller than `b` at the first position where the two differ.
pub open spec fn lex_less(a: Seq<usize>, b: Seq<usize>) -> bool {
    exists|k: int| 0 <= k < a.len() && k < b.len() && agree_below(a, b, k) && #[trigger] a[k] < b[k]
}

/// `a` comes strictly before `b`: it is nearer to the origin, or as near and
/// lexicographically smaller.
pub open spec fn precedes(a: Seq<usize>, b: Seq<usize>) -> bool {
    distance(a) < distance(b) || (distance(a) == distance(b) && lex_less(a, b))
}

/// Neither distance nor any coordinate that both tuples have tells `a` and
/// `b` apart. Two tuples of one length tie exactly when they are equal.
pub open spec fn ties(a: Seq<usize>, b: Seq<usize>) -> bool {
    distance(a) == distance(b) && agree_below(
        a,
        b,
        if a.len() <= b.len() {
            a.len() as int
        } else {
            b.len() as int
        },
    )
}

/// No two entries of `ts` at different positions tie.
pub open spec fn tie_free(ts: Seq<Seq<usize>>) -> bool {
    forall|i: int, j: int| 0 <= i < j < ts.len() ==> !ties(#[trigger] ts[i], #[trigger] ts[j])
}

/// Each entry of `ts` comes strictly before all later ones.
pub open spec fn ascending(ts: Seq<Seq<usize>>) -> bool {
    forall|i: int, j: int| 0 <= i < j < ts.len() ==> precedes(#[trigger] ts[i], #[trigger] ts[j])
}

proof fn lemma_distance_bound(t: Seq<usize>)
    ensures
        0 <= distance(t) <= t.len() * usize::MAX,
    decreases t.len(),
{
    if t.len() > 0 {
        lemma_distance_bound(t.drop_last());
        assert((t.len() - 1) * usize::MAX + usize::MAX == t.len() * usize::MAX) by (nonlinear_arith);
    }
}

/// The sum of the coordinates of `t`, in a type wide enough for any tuple.
fn total(t: &Vec<usize>) -> (sum: u128)
    ensures
        sum == distance(t@),
{
    let mut sum: u128 = 0;
    let mut i: usize = 0;
    while i < t.len()
        invariant
            i <= t.len(),
            sum == distance(t@.take(i as int)),
        decreases t.len() - i,
    {
        proof {
            lemma_distance_bound(t@.take(i as int));
            assert(i * usize::MAX <= (usize::MAX - 1) * usize::MAX) by (nonlinear_arith)
                requires
                    i <= usize::MAX - 1,
            ;
            assert((usize::MAX - 1) * usize::MAX + usize::MAX <= u128::MAX) by (nonlinear_arith)
                requires
                    usize::MAX <= 0xffff_ffff_ffff_ffff,
            ;
            assert(t@.take(i + 1).drop_last() =~= t@.take(i as int));
        }
        sum = sum + t[i] as u128;
        i += 1;
    }
    assert(t@.take(i as int) =~= t@);
    sum
}

/// Decides whether `a` comes strictly before `b`.
pub fn comes_before(a: &Vec<usize>, b: &Vec<usize>) -> (r: bool)
    ensures
        r == precedes(a@, b@),
{
    let total_a = total(a);
    let total_b = total(b);
    if total_a < total_b {
        return true;
    }
    if total_a > total_b {
        return false;
    }
    let mut k: usize = 0;
    while k < a.len() && k < b.len()
        invariant
            k <= a.len(),
            k <= b.len(),
            distance(a@) == distance(b@),
            agree_below(a@, b@, k as int),
        decreases a.len() - k,
    {
        if a[k] < b[k] {
            return true;
        }
        if a[k] > b[k] {
            proof {
                lemma_first_difference(a@, b@, k as int);
            }
            return false;
        }
        k += 1;
    }
    proof {
        if lex_less(a@, b@) {
            let w = choose|w: int| 0 <= w < a.len() && w < b.len() && agree_below(a@, b@, w) && #[trigger] a@[w] < b@[w];
            assert(a@[w] == b@[w]);
        }
    }
    false
}

/// Where `a` and `b` agree below `k` and `a` is the larger at `k`, `a` is
/// not lexicographically smaller than `b`.
proof fn lemma_first_difference(a: Seq<usize>, b: Seq<usize>, k: int)
    requires
        0 <= k < a.len(),
        k < b.len(),
        agree_below(a, b, k),
        a[k] > b[k],
    ensures
        !lex_less(a, b),
{
    if lex_less(a, b) {
        let w = choose|w: int| 0 <= w < a.len() && w < b.len() && agree_below(a, b, w) && #[trigger] a[w] < b[w];
        if w < k {
            assert(a[w] == b[w]);
        } else if w > k {
            assert(a[k] == b[k]);
        }
    }
}

/// The tuples that `v` holds, in order.
pub open spec fn tuples(v: Vec<Vec<usize>>) -> Seq<Seq<usize>> {
    Seq::new(v.len() as nat, |i: int| v[i]@)
}

/// Of two tuples at the same distance that agree below `k`, one is
/// lexicographically smaller, or the two agree wherever both have a
/// coordinate.
proof fn lemma_lex_total(a: Seq<usize>, b: Seq<usize>, k: int)
    requires
        0 <= k <= a.len(),
        k <= b.len(),
        agree_below(a, b, k),
    ensures
        lex_less(a, b) || lex_less(b, a) || agree_below(
            a,
            b,
            if a.len() <= b.len() {
                a.len() as int
            } else {
                b.len() as int
            },
        ),
    decreases a.len() - k,
{
    if k < a.len() && k < b.len() {
        if a[k] < b[k] {
        } else if b[k] < a[k] {
            assert(agree_below(b, a, k));
        } else {
            lemma_lex_total(a, b, k + 1);
        }
    }
}

/// Of two tuples that do not tie, one comes strictly before the other.
pub proof fn lemma_precedes_total(a: Seq<usize>, b: Seq<usize>)
    ensures
        precedes(a, b) || precedes(b, a) || ties(a, b),
{
    lemma_lex_total(a, b, 0);
}

/// No tuple comes before itself, and of two tuples at most one comes before
/// the other.
pub proof fn lemma_precedes_asymmetric(a: Seq<usize>, b: Seq<usize>)
    ensures
        !(precedes(a, b) && precedes(b, a)),
        precedes(a, b) ==> !ties(a, b),
{
    if lex_less(a, b) {
        let w = choose|w: int| 0 <= w < a.len() && w < b.len() && agree_below(a, b, w) && #[trigger] a[w] < b[w];
        if lex_less(b, a) {
            let v = choose|v: int| 0 <= v < b.len() && v < a.len() && agree_below(b, a, v) && #[trigger] b[v] < a[v];
            if v < w {
                assert(a[v] == b[v]);
            } else if w < v {
                assert(b[w] == a[w]);
            }
        }
        if ties(a, b) {
            assert(a[w] == b[w]);
        }
    }
}

/// Coming before is transitive.
pub proof fn lemma_precedes_transitive(a: Seq<usize>, b: Seq<usize>, c: Seq<usize>)
    requires
        precedes(a, b),
        precedes(b, c),
    ensures
        precedes(a, c),
{
    if distance(a) == distance(b) && distance(b) == distance(c) {
        let i = choose|i: int| 0 <= i < a.len() && i < b.len() && agree_below(a, b, i) && #[trigger] a[i] < b[i];
        let j = choose|j: int| 0 <= j < b.len() && j < c.len() && agree_below(b, c, j) && #[trigger] b[j] < c[j];
        if i <= j {
            assert(forall|m: int| 0 <= m < i ==> a[m] == b[m] && b[m] == c[m]);
            assert(agree_below(a, c, i));
            assert(i < j ==> b[i] == c[i]);
            assert(a[i] < c[i]);
        } else {
            assert(forall|m: int| 0 <= m < j ==> a[m] == b[m] && b[m] == c[m]);
            assert(agree_below(a, c, j));
            assert(a[j] == b[j]);
            assert(a[j] < c[j]);
        }
    }
}

/// Two ascending arrangements of the same tuples are the same arrangement.
pub proof fn lemma_ascending_unique(a: Seq<Seq<usize>>, b: Seq<Seq<usize>>)
    requires
        ascending(a),
        ascending(b),
        a.to_multiset() == b.to_multiset(),
    ensures
        a == b,
    decreases a.len(),
{
    a.to_multiset_ensures();
    b.to_multiset_ensures();
    if a.len() > 0 {
        assert(a.contains(a[0]));
        assert(b.to_multiset().count(a[0]) > 0);
        assert(b.contains(a[0]));
        let j = choose|j: int| 0 <= j < b.len() && b[j] == a[0];
        assert(b.contains(b[0]));
        assert(a.to_multiset().count(b[0]) > 0);
        assert(a.contains(b[0]));
        let i = choose|i: int| 0 <= i < a.len() && a[i] == b[0];
        if j > 0 {
            assert(precedes(b[0], b[j]));
            lemma_precedes_asymmetric(b[0], a[0]);
            if i > 0 {
                assert(precedes(a[0], a[i]));
            }
        }
        assert(a[0] == b[0]);
        assert(a.remove(0) =~= a.drop_first());
        assert(b.remove(0) =~= b.drop_first());
        assert(a.drop_first().to_multiset() == b.drop_first().to_multiset());
        assert forall|x: int, y: int| 0 <= x < y < a.drop_first().len() implies precedes(
            #[trigger] a.drop_first()[x],
            #[trigger] a.drop_first()[y],
        ) by {
            assert(precedes(a[x + 1], a[y + 1]));
        }
        assert forall|x: int, y: int| 0 <= x < y < b.drop_first().len() implies precedes(
            #[trigger] b.drop_first()[x],
            #[trigger] b.drop_first()[y],
        ) by {
            assert(precedes(b[x + 1], b[y + 1]));
        }
        lemma_ascending_unique(a.drop_first(), b.drop_first());
        assert(a =~= seq![a[0]] + a.drop_first());
        assert(b =~= seq![b[0]] + b.drop_first());
    } else {
        assert(b.len() == 0);
        assert(a =~= b);
    }
}

/// Reorders `indices` by distance from the origin, nearest first; tuples at
/// one distance stand in lexicographic order.
///
/// The result holds the tuples of `indices`, each as often as `indices`
/// does, and each entry comes strictly before every later one. There is
/// only one such arrangement.
pub fn order_by_distance(indices: Vec<Vec<usize>>) -> (sorted: Vec<Vec<usize>>)
    requires
        tie_free(tuples(indices)),
    ensures
        sorted.len() == indices.len(),
        tuples(sorted).to_multiset() == tuples(indices).to_multiset(),
        ascending(tuples(sorted)),
{
    let mut rest = indices;
    let mut sorted: Vec<Vec<usize>> = Vec::new();
    proof {
        assert(tuples(sorted) =~= Seq::<Seq<usize>>::empty());
        assert(tuples(sorted).to_multiset().add(tuples(rest).to_multiset()) =~= tuples(
            indices,
        ).to_multiset()) by {
            broadcast use vstd::seq_lib::group_to_multiset_ensures;

            assert(tuples(sorted).to_multiset().len() == 0);
        }
    }
    while rest.len() > 0
        invariant
            tie_free(tuples(rest)),
            ascending(tuples(sorted)),
            forall|k: int, m: int|
                0 <= k < sorted.len() && 0 <= m < rest.len() ==> !ties(
                    #[trigger] sorted[k]@,
                    #[trigger] rest[m]@,
                ),
            tuples(sorted).to_multiset().add(tuples(rest).to_multiset()) == tuples(
                indices,
            ).to_multiset(),
        decreases rest.len(),
    {
        let ghost before = tuples(rest);
        let ghost placed = tuples(sorted);
        let tuple = rest.pop().unwrap();
        proof {
            assert(tuples(rest) =~= before.drop_last());
            assert(before =~= tuples(rest).push(tuple@));
            assert forall|k: int| 0 <= k < placed.len() implies !ties(#[trigger] placed[k], tuple@) by {
                assert(!ties(sorted[k]@, before[before.len() - 1]));
            }
            assert forall|m: int| 0 <= m < rest.len() implies !ties(tuple@, #[trigger] rest[m]@) by {
                assert(!ties(before[m], before[before.len() - 1]));
            }
        }
        let mut pos: usize = 0;
        while pos < sorted.len() && !comes_before(&tuple, &sorted[pos])
            invariant
                pos <= sorted.len(),
                placed == tuples(sorted),
                forall|k: int| 0 <= k < placed.len() ==> !ties(#[trigger] placed[k], tuple@),
                forall|k: int| 0 <= k < pos ==> precedes(#[trigger] placed[k], tuple@),
            decreases sorted.len() - pos,
        {
            proof {
                assert(placed[pos as int] == sorted[pos as int]@);
                lemma_precedes_total(placed[pos as int], tuple@);
            }
            pos += 1;
        }
        assert(pos < sorted.len() ==> precedes(tuple@, placed[pos as int]));
        sorted.insert(pos, tuple);
        proof {
            let now = tuples(sorted);
            assert(now =~= placed.insert(pos as int, tuple@));
            vstd::seq_lib::to_multiset_insert(placed, pos as int, tuple@);
            vstd::seq_lib::to_multiset_build(tuples(rest), tuple@);
            assert(now.to_multiset().add(tuples(rest).to_multiset()) =~= placed.to_multiset().add(
                before.to_multiset(),
            ));
            assert forall|i: int, j: int| 0 <= i < j < now.len() implies precedes(
                #[trigger] now[i],
                #[trigger] now[j],
            ) by {
                if j == pos {
                    assert(now[i] == placed[i]);
                } else if i == pos {
                    assert(now[j] == placed[j - 1]);
                    if j > pos + 1 {
                        lemma_precedes_transitive(tuple@, placed[pos as int], placed[j - 1]);
                    }
                } else {
                    let i0 = if i < pos { i } else { i - 1 };
                    let j0 = if j < pos { j } else { j - 1 };
                    assert(now[i] == placed[i0] && now[j] == placed[j0]);
                }
            }
            assert forall|k: int, m: int| 0 <= k < sorted.len() && 0 <= m < rest.len() implies !ties(
                #[trigger] sorted[k]@,
                #[trigger] rest[m]@,
            ) by {
                if k != pos {
                    let k0 = if k < pos { k } else { k - 1 };
                    assert(now[k] == placed[k0]);
                    assert(sorted[k]@ == now[k]);
                    assert(rest[m]@ == before[m]);
                }
            }
        }
    }
    proof {
        assert(tuples(rest) =~= Seq::<Seq<usize>>::empty());
        assert(tuples(sorted).to_multiset().add(tuples(rest).to_multiset()) =~= tuples(
            sorted,
        ).to_multiset()) by {
            broadcast use vstd::seq_lib::group_to_multiset_ensures;

            assert(tuples(rest).to_multiset().len() == 0);
        }
        tuples(sorted).to_multiset_ensures();
        tuples(indices).to_multiset_ensures();
    }
    sorted
}

/// `b` can be had from `a` by cloning at most `n` times in a row.
pub open spec fn cloned_times<T: Clone>(a: T, b: T, n: nat) -> bool
    decreases n,
{
    if n == 0 {
        a == b
    } else {
        exists|mid: T| cloned_times(a, mid, (n - 1) as nat) && #[trigger] cloned(mid, b)
    }
}

/// One more clone extends a chain of clones by one.
pub proof fn lemma_cloned_times_step<T: Clone>(a: T, mid: T, b: T, n: nat)
    requires
        cloned_times(a, mid, n),
        cloned(mid, b),
    ensures
        cloned_times(a, b, n + 1),
{
}

/// A chain of at most `n` clones is one of at most `m`, for any `m >= n`.
pub proof fn lemma_cloned_times_more<T: Clone>(a: T, b: T, n: nat, m: nat)
    requires
        cloned_times(a, b, n),
        n <= m,
    ensures
        cloned_times(a, b, m),
    decreases m - n,
{
    if n < m {
        assert(cloned(b, b));
        lemma_cloned_times_step(a, b, b, n);
        lemma_cloned_times_more(a, b, n + 1, m);
    }
}

/// Cloning an index gives the index back, however often it is done.
pub proof fn lemma_cloned_times_usize(a: usize, b: usize, n: nat)
    requires
        cloned_times(a, b, n),
    ensures
        a == b,
    decreases n,
{
    if n > 0 {
        let mid = choose|mid: usize| cloned_times(a, mid, (n - 1) as nat) && #[trigger] cloned(mid, b);
        lemma_cloned_times_usize(a, mid, (n - 1) as nat);
    }
}

/// `row` is a copy of `xs` with a copy of `y` behind it.
pub open spec fn extends<T: Clone>(xs: Seq<T>, y: T, row: Seq<T>) -> bool {
    &&& row.len() == xs.len() + 1
    &&& forall|k: int| 0 <= k < xs.len() ==> cloned(xs[k], #[trigger] row[k])
    &&& cloned(y, row[xs.len() as int])
}

/// Every row of `a` extended by every element of `b`: the rows that begin
/// with `a[0]` first, and among those the one that ends with `b[0]` first.
pub fn partial_cartesian<T: Clone>(a: Vec<Vec<T>>, b: Vec<T>) -> (out: Vec<Vec<T>>)
    ensures
        out.len() == a.len() * b.len(),
        forall|m: int|
            0 <= m < out.len() ==> extends(
                a[m / (b.len() as int)]@,
                b[m % (b.len() as int)],
                #[trigger] out[m]@,
            ),
{
    let mut out: Vec<Vec<T>> = Vec::new();
    let mut i: usize = 0;
    while i < a.len()
        invariant
            i <= a.len(),
            out.len() == i * b.len(),
            forall|m: int|
                0 <= m < out.len() ==> extends(
                    a[m / (b.len() as int)]@,
                    b[m % (b.len() as int)],
                    #[trigger] out[m]@,
                ),
        decreases a.len() - i,
    {
        let mut j: usize = 0;
        while j < b.len()
            invariant
                i < a.len(),
                j <= b.len(),
                out.len() == i * b.len() + j,
                forall|m: int|
                    0 <= m < out.len() ==> extends(
                        a[m / (b.len() as int)]@,
                        b[m % (b.len() as int)],
                        #[trigger] out[m]@,
                    ),
            decreases b.len() - j,
        {
            let mut row = a[i].clone();
            row.push(b[j].clone());
            proof {
                let m = out.len() as int;
                vstd::arithmetic::div_mod::lemma_fundamental_div_mod_converse(
                    m,
                    b.len() as int,
                    i as int,
                    j as int,
                );
                assert(extends(a[i as int]@, b[j as int], row@));
            }
            out.push(row);
            j += 1;
        }
        proof {
            assert(i * b.len() + b.len() == (i + 1) * b.len()) by (nonlinear_arith);
        }
        i += 1;
    }
    out
}

/// The number of index tuples of a grid with the given sizes: their product.
pub open spec fn volume(lens: Seq<usize>) -> nat
    decreases lens.len(),
{
    if lens.len() == 0 {
        1
    } else {
        volume(lens.drop_last()) * (lens.last() as nat)
    }
}

/// Coordinate `k` of the tuple at position `m` of a grid with the given
/// sizes, where the last coordinate varies fastest: the digits of `m`
/// written with the sizes as bases.
pub open spec fn coordinate(lens: Seq<usize>, m: int, k: int) -> int
    decreases lens.len(),
{
    if lens.len() == 0 {
        0
    } else if k == lens.len() - 1 {
        m % (lens.last() as int)
    } else {
        coordinate(lens.drop_last(), m / (lens.last() as int), k)
    }
}

/// The lengths of the given lists, in order.
pub open spec fn lengths<T>(lists: Seq<Vec<T>>) -> Seq<usize> {
    Seq::new(lists.len(), |k: int| lists[k].len())
}

/// `row` holds one element of each list: from list `k`, a copy (made in at
/// most `n` clones) of the element that position `m` of the grid selects.
pub open spec fn picks<T: Clone>(lists: Seq<Vec<T>>, m: int, row: Seq<T>, n: nat) -> bool {
    &&& row.len() == lists.len()
    &&& forall|k: int|
        0 <= k < lists.len() ==> cloned_times(
            lists[k]@[coordinate(lengths(lists), m, k)],
            #[trigger] row[k],
            n,
        )
}

/// Every coordinate of a position of the grid lies below its size.
pub proof fn lemma_coordinate_in_range(lens: Seq<usize>, m: int, k: int)
    requires
        0 <= m < volume(lens),
        0 <= k < lens.len(),
    ensures
        0 <= coordinate(lens, m, k) < lens[k],
    decreases lens.len(),
{
    let last = lens.last() as int;
    assert(last > 0) by (nonlinear_arith)
        requires
            0 <= m < volume(lens.drop_last()) * last,
            last >= 0,
    ;
    if k == lens.len() - 1 {
        vstd::arithmetic::div_mod::lemma_mod_bound(m, last);
    } else {
        lemma_position_splits(lens, m);
        lemma_coordinate_in_range(lens.drop_last(), m / last, k);
    }
}

/// A position of a grid, divided by the last size, is a position of the
/// grid without its last dimension.
proof fn lemma_position_splits(lens: Seq<usize>, m: int)
    requires
        lens.len() > 0,
        0 <= m < volume(lens),
    ensures
        lens.last() > 0,
        0 <= m / (lens.last() as int) < volume(lens.drop_last()),
        0 <= m % (lens.last() as int) < lens.last(),
{
    let last = lens.last() as int;
    let front = volume(lens.drop_last()) as int;
    assert(last > 0) by (nonlinear_arith)
        requires
            0 <= m < front * last,
            last >= 0,
    ;
    vstd::arithmetic::div_mod::lemma_fundamental_div_mod(m, last);
    vstd::arithmetic::div_mod::lemma_mod_bound(m, last);
    assert(0 <= m / last < front) by (nonlinear_arith)
        requires
            0 <= m < front * last,
            last > 0,
            m == last * (m / last) + m % last,
            0 <= m % last < last,
    ;
}

/// Every combination of one element from each list, in the order of the
/// lists: the combinations that begin with the first element of the first
/// list come first, and the choice from the last list varies fastest. No
/// list at all gives no combination.
pub fn cartesian_product<T: Clone>(lists: Vec<Vec<T>>) -> (out: Vec<Vec<T>>)
    ensures
        lists.len() == 0 ==> out.len() == 0,
        lists.len() > 0 ==> out.len() == volume(lengths(lists@)),
        forall|m: int|
            0 <= m < out.len() ==> picks(lists@, m, #[trigger] out[m]@, lists.len() as nat),
{
    if lists.len() == 0 {
        return Vec::new();
    }
    let mut acc: Vec<Vec<T>> = Vec::new();
    let mut i: usize = 0;
    proof {
        let lens = lengths(lists@.take(1));
        assert(lens.drop_last() =~= Seq::<usize>::empty());
        assert(volume(lens.drop_last()) == 1);
        assert(volume(lens) == lists[0].len()) by (nonlinear_arith)
            requires
                volume(lens) == 1 * (lists[0].len() as nat),
        ;
    }
    while i < lists[0].len()
        invariant
            lists.len() > 0,
            i <= lists[0].len(),
            acc.len() == i,
            forall|m: int| 0 <= m < acc.len() ==> picks(lists@.take(1), m, #[trigger] acc[m]@, 1),
        decreases lists[0].len() - i,
    {
        let mut row: Vec<T> = Vec::new();
        row.push(lists[0][i].clone());
        proof {
            let lens = lengths(lists@.take(1));
            vstd::arithmetic::div_mod::lemma_small_mod(i as nat, lists[0].len() as nat);
            assert(coordinate(lens, i as int, 0) == i);
            assert(cloned_times(lists[0][i as int], lists[0][i as int], 0));
            lemma_cloned_times_step(lists[0][i as int], lists[0][i as int], row[0], 0);
            assert(picks(lists@.take(1), i as int, row@, 1));
        }
        acc.push(row);
        i += 1;
    }
    let mut s: usize = 1;
    while s < lists.len()
        invariant
            1 <= s <= lists.len(),
            acc.len() == volume(lengths(lists@.take(s as int))),
            forall|m: int|
                0 <= m < acc.len() ==> picks(lists@.take(s as int), m, #[trigger] acc[m]@, s as nat),
        decreases lists.len() - s,
    {
        let list = lists[s].clone();
        let ghost before = acc;
        acc = partial_cartesian(acc, list);
        proof {
            let lens = lengths(lists@.take(s as int));
            let next = lengths(lists@.take(s + 1));
            let width = list.len() as int;
            assert(next.drop_last() =~= lens);
            assert(next.last() == width);
            assert forall|m: int| 0 <= m < acc.len() implies picks(
                lists@.take(s + 1),
                m,
                #[trigger] acc[m]@,
                (s + 1) as nat,
            ) by {
                lemma_position_splits(next, m);
                let q = m / width;
                let r = m % width;
                let row = acc[m]@;
                assert(extends(before[q]@, list[r], row));
                assert(picks(lists@.take(s as int), q, before[q]@, s as nat));
                assert forall|k: int| 0 <= k < s + 1 implies cloned_times(
                    lists@.take(s + 1)[k]@[coordinate(next, m, k)],
                    #[trigger] row[k],
                    (s + 1) as nat,
                ) by {
                    if k < s {
                        let from = lists@.take(s as int)[k]@[coordinate(lens, q, k)];
                        assert(cloned_times(from, before[q]@[k], s as nat));
                        assert(cloned(before[q]@[k], row[k]));
                        lemma_cloned_times_step(from, before[q]@[k], row[k], s as nat);
                    } else {
                        let from = lists[s as int][r];
                        assert(cloned(from, list[r]));
                        assert(cloned_times(from, from, 0));
                        lemma_cloned_times_step(from, from, list[r], 0);
                        lemma_cloned_times_step(from, list[r], row[k], 1);
                        lemma_cloned_times_more(from, row[k], 2, (s + 1) as nat);
                    }
                }
            }
        }
        s += 1;
    }
    proof {
        assert(lists@.take(s as int) =~= lists@);
    }
    acc
}

/// The index tuple at position `m` of a grid with sizes `dims`.
pub open spec fn grid_tuple(dims: Seq<usize>, m: int) -> Seq<usize> {
    Seq::new(dims.len(), |k: int| coordinate(dims, m, k) as usize)
}

/// An earlier position of a grid holds a lexicographically smaller tuple.
pub proof fn lemma_grid_lexicographic(dims: Seq<usize>, m1: int, m2: int)
    requires
        0 <= m1 < m2 < volume(dims),
    ensures
        lex_less(grid_tuple(dims, m1), grid_tuple(dims, m2)),
    decreases dims.len(),
{
    let a = grid_tuple(dims, m1);
    let b = grid_tuple(dims, m2);
    if dims.len() == 0 {
    } else {
        let last = dims.last() as int;
        let front = dims.drop_last();
        lemma_position_splits(dims, m1);
        lemma_position_splits(dims, m2);
        vstd::arithmetic::div_mod::lemma_fundamental_div_mod(m1, last);
        vstd::arithmetic::div_mod::lemma_fundamental_div_mod(m2, last);
        let q1 = m1 / last;
        let q2 = m2 / last;
        assert(q1 <= q2) by (nonlinear_arith)
            requires
                m1 < m2,
                last > 0,
                m1 == last * q1 + m1 % last,
                m2 == last * q2 + m2 % last,
                0 <= m1 % last < last,
                0 <= m2 % last < last,
        ;
        assert forall|k: int| 0 <= k < dims.len() - 1 implies a[k] == grid_tuple(front, q1)[k] && b[k]
            == grid_tuple(front, q2)[k] by {}
        if q1 < q2 {
            lemma_grid_lexicographic(front, q1, q2);
            let fa = grid_tuple(front, q1);
            let fb = grid_tuple(front, q2);
            let w = choose|w: int|
                0 <= w < fa.len() && w < fb.len() && agree_below(fa, fb, w) && #[trigger] fa[w] < fb[w];
            assert(agree_below(a, b, w));
            assert(a[w] < b[w]);
        } else {
            let w = dims.len() - 1;
            assert(agree_below(a, b, w));
            lemma_coordinate_in_range(dims, m1, w);
            lemma_coordinate_in_range(dims, m2, w);
            assert(a[w] < b[w]);
        }
    }
}

/// Every tuple whose coordinates lie below the sizes of a grid stands at
/// some position of it.
pub proof fn lemma_grid_complete(dims: Seq<usize>, t: Seq<usize>) -> (m: int)
    requires
        dims.len() > 0,
        t.len() == dims.len(),
        forall|k: int| 0 <= k < dims.len() ==> t[k] < dims[k],
    ensures
        0 <= m < volume(dims),
        grid_tuple(dims, m) == t,
    decreases dims.len(),
{
    let last = dims.last() as int;
    let digit = t.last() as int;
    let front = dims.drop_last();
    let q = if dims.len() == 1 {
        0
    } else {
        lemma_grid_complete(front, t.drop_last())
    };
    assert(0 <= q < volume(front)) by {
        if dims.len() == 1 {
            assert(front.len() == 0);
        }
    }
    let m = q * last + digit;
    vstd::arithmetic::div_mod::lemma_fundamental_div_mod_converse(m, last, q, digit);
    assert(0 <= m < volume(front) * last) by (nonlinear_arith)
        requires
            0 <= q < volume(front),
            0 <= digit < last,
            m == q * last + digit,
    ;
    assert forall|k: int| 0 <= k < dims.len() implies grid_tuple(dims, m)[k] == t[k] by {
        if k < dims.len() - 1 {
            assert(grid_tuple(front, q)[k] == t.drop_last()[k]);
        }
    }
    assert(grid_tuple(dims, m) =~= t);
    m
}

/// The numbers below `n`, in ascending order.
fn range_below(n: usize) -> (r: Vec<usize>)
    ensures
        r.len() == n,
        forall|i: int| 0 <= i < n ==> r[i] == i,
{
    let mut r: Vec<usize> = Vec::new();
    let mut i: usize = 0;
    while i < n
        invariant
            i <= n,
            r.len() == i,
            forall|k: int| 0 <= k < i ==> r[k] == k,
        decreases n - i,
    {
        r.push(i);
        i += 1;
    }
    r
}

/// Every index tuple of a grid with sizes `dims`, in lexicographic order:
/// position `m` holds the digits of `m` written with the sizes as bases,
/// so that the last coordinate varies fastest. No dimension at all gives no
/// tuple.
pub fn index_array(dims: Vec<usize>) -> (out: Vec<Vec<usize>>)
    ensures
        dims.len() == 0 ==> out.len() == 0,
        dims.len() > 0 ==> out.len() == volume(dims@),
        forall|m: int| 0 <= m < out.len() ==> #[trigger] out[m]@ == grid_tuple(dims@, m),
        tie_free(tuples(out)),
{
    let mut ranges: Vec<Vec<usize>> = Vec::new();
    let mut k: usize = 0;
    while k < dims.len()
        invariant
            k <= dims.len(),
            ranges.len() == k,
            forall|d: int| 0 <= d < k ==> (#[trigger] ranges[d]).len() == dims[d],
            forall|d: int, i: int| 0 <= d < k && 0 <= i < dims[d] ==> #[trigger] ranges[d][i] == i,
        decreases dims.len() - k,
    {
        ranges.push(range_below(dims[k]));
        k += 1;
    }
    let out = cartesian_product(ranges);
    proof {
        assert(lengths(ranges@) =~= dims@);
        assert forall|m: int| 0 <= m < out.len() implies #[trigger] out[m]@ == grid_tuple(dims@, m) by {
            assert(picks(ranges@, m, out[m]@, ranges.len() as nat));
            assert forall|d: int| 0 <= d < dims.len() implies out[m]@[d] == grid_tuple(dims@, m)[d] by {
                lemma_coordinate_in_range(dims@, m, d);
                let c = coordinate(dims@, m, d);
                assert(ranges[d][c] == c);
                lemma_cloned_times_usize(ranges[d]@[c], out[m]@[d], ranges.len() as nat);
            }
            assert(out[m]@ =~= grid_tuple(dims@, m));
        }
        assert forall|i: int, j: int| 0 <= i < j < tuples(out).len() implies !ties(
            #[trigger] tuples(out)[i],
            #[trigger] tuples(out)[j],
        ) by {
            assert(tuples(out)[i] == out[i]@ && tuples(out)[j] == out[j]@);
            lemma_grid_lexicographic(dims@, i, j);
            lemma_lex_excludes_tie(out[i]@, out[j]@);
        }
    }
    out
}

/// A lexicographically smaller tuple does not tie with the larger one.
proof fn lemma_lex_excludes_tie(a: Seq<usize>, b: Seq<usize>)
    requires
        lex_less(a, b),
    ensures
        !ties(a, b),
{
    let w = choose|w: int| 0 <= w < a.len() && w < b.len() && agree_below(a, b, w) && #[trigger] a[w] < b[w];
    if ties(a, b) {
        assert(a[w] == b[w]);
    }
}

} // verus!
