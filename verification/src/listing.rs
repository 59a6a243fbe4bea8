//! Newest-first pagination over records keyed by a numeric id.
//!
//! A listing orders the records by key, greatest first, keeping records with
//! equal keys in their original order; keeps, when a cursor names the last key
//! already sent, only the records with a smaller key; and cuts the result to
//! the requested limit.

use vstd::prelude::*;

verus! {

/// Positions held in `usize`, read as integers.
pub open spec fn positions(v: Seq<usize>) -> Seq<int> {
    v.map_values(|x: usize| x as int)
}

/// Puts position `i` into `order` right after every position whose key is at
/// least `keys[i]`.
pub open spec fn insert_by_key(keys: Seq<u128>, order: Seq<int>, i: int) -> Seq<int>
    decreases order.len(),
{
    if order.len() == 0 {
        seq![i]
    } else if keys[order[0]] >= keys[i] {
        seq![order[0]] + insert_by_key(keys, order.drop_first(), i)
    } else {
        seq![i] + order
    }
}

/// The positions `0..n` ordered by key, greatest first; positions with equal
/// keys stay in increasing order.
pub open spec fn newest_first_prefix(keys: Seq<u128>, n: nat) -> Seq<int>
    decreases n,
{
    if n == 0 {
        Seq::empty()
    } else {
        insert_by_key(keys, newest_first_prefix(keys, (n - 1) as nat), n - 1)
    }
}

/// All positions of `keys`, greatest key first, ties in their original order.
pub open spec fn newest_first(keys: Seq<u128>) -> Seq<int> {
    newest_first_prefix(keys, keys.len())
}

/// The positions of `order` whose key is below `bound`, in the same order.
pub open spec fn older_than(keys: Seq<u128>, order: Seq<int>, bound: u128) -> Seq<int>
    decreases order.len(),
{
    if order.len() == 0 {
        order
    } else if keys[order[0]] < bound {
        seq![order[0]] + older_than(keys, order.drop_first(), bound)
    } else {
        older_than(keys, order.drop_first(), bound)
    }
}

/// The first `limit` elements of `s`, or all of them when there are fewer or
/// no limit is given.
pub open spec fn at_most(s: Seq<int>, limit: Option<usize>) -> Seq<int> {
    match limit {
        Some(n) => if n < s.len() {
            s.take(n as int)
        } else {
            s
        },
        None => s,
    }
}

/// The positions that one page of a listing shows: newest first, only those
/// older than the cursor's key when there is one, at most `limit` of them.
pub open spec fn listing_page(keys: Seq<u128>, after: Option<u128>, limit: Option<usize>) -> Seq<
    int,
> {
    let ordered = newest_first(keys);
    let rest = match after {
        Some(bound) => older_than(keys, ordered, bound),
        None => ordered,
    };
    at_most(rest, limit)
}

/// Every element of `order` is a position of `keys`, and none occurs twice.
pub open spec fn distinct_positions(order: Seq<int>, n: nat) -> bool {
    &&& forall|a: int| 0 <= a < order.len() ==> 0 <= #[trigger] order[a] < n
    &&& order.no_duplicates()
}

/// Keys never increase along `order`.
pub open spec fn is_newest_first(keys: Seq<u128>, order: Seq<int>) -> bool {
    forall|a: int, b: int|
        0 <= a < b < order.len() ==> keys[#[trigger] order[a]] >= keys[#[trigger] order[b]]
}

/// Positions with equal keys appear in increasing order.
pub open spec fn ties_keep_order(keys: Seq<u128>, order: Seq<int>) -> bool {
    forall|a: int, b: int|
        0 <= a < b < order.len() && keys[#[trigger] order[a]] == keys[#[trigger] order[b]]
            ==> order[a] < order[b]
}

proof fn lemma_insert_by_key_props(keys: Seq<u128>, order: Seq<int>, i: int)
    requires
        0 <= i < keys.len(),
        distinct_positions(order, i as nat),
        is_newest_first(keys, order),
        ties_keep_order(keys, order),
    ensures
        insert_by_key(keys, order, i).len() == order.len() + 1,
        distinct_positions(insert_by_key(keys, order, i), (i + 1) as nat),
        is_newest_first(keys, insert_by_key(keys, order, i)),
        ties_keep_order(keys, insert_by_key(keys, order, i)),
        forall|x: int| #[trigger]
            insert_by_key(keys, order, i).contains(x) <==> (order.contains(x) || x == i),
    decreases order.len(),
{
    let r = insert_by_key(keys, order, i);
    if order.len() == 0 {
        assert(r =~= seq![i]);
        assert forall|x: int| #[trigger] r.contains(x) <==> (order.contains(x) || x == i) by {
            if r.contains(x) {
                let k = choose|k: int| 0 <= k < r.len() && r[k] == x;
                assert(k == 0);
            }
            if x == i {
                assert(r[0] == i);
            }
        }
    } else if keys[order[0]] >= keys[i] {
        let tail = order.drop_first();
        assert forall|a: int| 0 <= a < tail.len() implies 0 <= #[trigger] tail[a] < i by {
            assert(tail[a] == order[a + 1]);
        }
        assert forall|a: int, b: int|
            0 <= a < b < tail.len() implies keys[#[trigger] tail[a]] >= keys[#[trigger] tail[b]] by {
            assert(tail[a] == order[a + 1] && tail[b] == order[b + 1]);
        }
        assert forall|a: int, b: int|
            0 <= a < b < tail.len() && keys[#[trigger] tail[a]] == keys[#[trigger] tail[b]]
                implies tail[a] < tail[b] by {
            assert(tail[a] == order[a + 1] && tail[b] == order[b + 1]);
        }
        assert(tail.no_duplicates()) by {
            assert forall|a: int, b: int|
                0 <= a < tail.len() && 0 <= b < tail.len() && a != b implies tail[a] != tail[b] by {
                assert(tail[a] == order[a + 1] && tail[b] == order[b + 1]);
            }
        }
        lemma_insert_by_key_props(keys, tail, i);
        let rest = insert_by_key(keys, tail, i);
        assert(r == seq![order[0]] + rest);
        assert forall|x: int| #[trigger] r.contains(x) <==> (order.contains(x) || x == i) by {
            if r.contains(x) {
                let k = choose|k: int| 0 <= k < r.len() && r[k] == x;
                if k > 0 {
                    assert(rest[k - 1] == x);
                    assert(rest.contains(x));
                    if tail.contains(x) {
                        let j = choose|j: int| 0 <= j < tail.len() && tail[j] == x;
                        assert(order[j + 1] == x);
                    }
                } else {
                    assert(order[0] == x);
                }
            }
            if order.contains(x) {
                let j = choose|j: int| 0 <= j < order.len() && order[j] == x;
                if j == 0 {
                    assert(r[0] == x);
                } else {
                    assert(tail[j - 1] == x);
                    assert(tail.contains(x));
                    assert(rest.contains(x));
                    let k = choose|k: int| 0 <= k < rest.len() && rest[k] == x;
                    assert(r[k + 1] == x);
                }
            }
            if x == i {
                assert(rest.contains(i));
                let k = choose|k: int| 0 <= k < rest.len() && rest[k] == i;
                assert(r[k + 1] == i);
            }
        }
        // every element of `rest` is an element of the tail or `i`
        assert forall|k: int| 0 <= k < rest.len() implies keys[order[0]] >= keys[#[trigger] rest[k]]
            && order[0] != rest[k] && (keys[order[0]] == keys[rest[k]] ==> order[0] < rest[k]) by {
            let x = rest[k];
            assert(rest.contains(x));
            if tail.contains(x) {
                let j = choose|j: int| 0 <= j < tail.len() && tail[j] == x;
                assert(order[j + 1] == x);
                assert(keys[order[0]] >= keys[order[j + 1]]);
            } else {
                assert(x == i);
                assert(order[0] < i);
            }
        }
        assert forall|a: int| 0 <= a < r.len() implies 0 <= #[trigger] r[a] < i + 1 by {
            if a > 0 {
                assert(r[a] == rest[a - 1]);
            }
        }
        assert forall|a: int, b: int|
            0 <= a < b < r.len() implies keys[#[trigger] r[a]] >= keys[#[trigger] r[b]] by {
            assert(r[b] == rest[b - 1]);
            if a > 0 {
                assert(r[a] == rest[a - 1]);
            }
        }
        assert forall|a: int, b: int|
            0 <= a < b < r.len() && keys[#[trigger] r[a]] == keys[#[trigger] r[b]] implies r[a]
                < r[b] by {
            assert(r[b] == rest[b - 1]);
            if a > 0 {
                assert(r[a] == rest[a - 1]);
            }
        }
        assert forall|a: int, b: int|
            0 <= a < r.len() && 0 <= b < r.len() && a != b implies r[a] != r[b] by {
            if a > 0 {
                assert(r[a] == rest[a - 1]);
            }
            if b > 0 {
                assert(r[b] == rest[b - 1]);
            }
        }
    } else {
        assert(r == seq![i] + order);
        assert forall|x: int| #[trigger] r.contains(x) <==> (order.contains(x) || x == i) by {
            if r.contains(x) {
                let k = choose|k: int| 0 <= k < r.len() && r[k] == x;
                if k > 0 {
                    assert(order[k - 1] == x);
                }
            }
            if order.contains(x) {
                let j = choose|j: int| 0 <= j < order.len() && order[j] == x;
                assert(r[j + 1] == x);
            }
            if x == i {
                assert(r[0] == i);
            }
        }
        assert forall|a: int| 0 <= a < r.len() implies 0 <= #[trigger] r[a] < i + 1 by {
            if a > 0 {
                assert(r[a] == order[a - 1]);
            }
        }
        assert forall|a: int, b: int|
            0 <= a < b < r.len() implies keys[#[trigger] r[a]] >= keys[#[trigger] r[b]] by {
            assert(r[b] == order[b - 1]);
            if a > 0 {
                assert(r[a] == order[a - 1]);
            } else {
                assert(keys[order[0]] >= keys[order[b - 1]]) by {
                    if b - 1 > 0 {
                        assert(keys[order[0]] >= keys[order[b - 1]]);
                    }
                }
            }
        }
        assert forall|a: int, b: int|
            0 <= a < b < r.len() && keys[#[trigger] r[a]] == keys[#[trigger] r[b]] implies r[a]
                < r[b] by {
            assert(r[b] == order[b - 1]);
            if a > 0 {
                assert(r[a] == order[a - 1]);
            } else {
                if b - 1 > 0 {
                    assert(keys[order[0]] >= keys[order[b - 1]]);
                }
            }
        }
        assert forall|a: int, b: int|
            0 <= a < r.len() && 0 <= b < r.len() && a != b implies r[a] != r[b] by {
            if a > 0 {
                assert(r[a] == order[a - 1]);
            }
            if b > 0 {
                assert(r[b] == order[b - 1]);
            }
        }
    }
}

proof fn lemma_newest_first_prefix_props(keys: Seq<u128>, n: nat)
    requires
        n <= keys.len(),
    ensures
        newest_first_prefix(keys, n).len() == n,
        distinct_positions(newest_first_prefix(keys, n), n),
        is_newest_first(keys, newest_first_prefix(keys, n)),
        ties_keep_order(keys, newest_first_prefix(keys, n)),
        forall|x: int| #[trigger] newest_first_prefix(keys, n).contains(x) <==> 0 <= x < n,
    decreases n,
{
    if n > 0 {
        lemma_newest_first_prefix_props(keys, (n - 1) as nat);
        lemma_insert_by_key_props(keys, newest_first_prefix(keys, (n - 1) as nat), n - 1);
    }
}

/// Keeping the positions older than `bound` drops exactly the first `c`
/// elements when those are the ones whose key reaches the bound.
proof fn lemma_older_than_skip(keys: Seq<u128>, order: Seq<int>, bound: u128, c: int)
    requires
        0 <= c <= order.len(),
        forall|q: int| 0 <= q < c ==> keys[#[trigger] order[q]] >= bound,
        forall|q: int| c <= q < order.len() ==> keys[#[trigger] order[q]] < bound,
    ensures
        older_than(keys, order, bound) == order.skip(c),
    decreases order.len(),
{
    if order.len() > 0 {
        let tail = order.drop_first();
        if c == 0 {
            assert forall|q: int| 0 <= q < tail.len() implies keys[#[trigger] tail[q]] < bound by {
                assert(tail[q] == order[q + 1]);
            }
            lemma_older_than_skip(keys, tail, bound, 0);
            assert(order.skip(0) =~= seq![order[0]] + tail.skip(0));
        } else {
            assert forall|q: int| 0 <= q < c - 1 implies keys[#[trigger] tail[q]] >= bound by {
                assert(tail[q] == order[q + 1]);
            }
            assert forall|q: int| c - 1 <= q < tail.len() implies keys[#[trigger] tail[q]]
                < bound by {
                assert(tail[q] == order[q + 1]);
            }
            lemma_older_than_skip(keys, tail, bound, c - 1);
            assert(order.skip(c) =~= tail.skip(c - 1));
        }
    } else {
        assert(order.skip(c) =~= order);
    }
}

/// In a newest-first order, the positions older than a bound form a suffix.
proof fn lemma_older_than_split(keys: Seq<u128>, order: Seq<int>, bound: u128) -> (c: int)
    requires
        forall|a: int| 0 <= a < order.len() ==> 0 <= #[trigger] order[a] < keys.len(),
        is_newest_first(keys, order),
    ensures
        0 <= c <= order.len(),
        forall|q: int| 0 <= q < c ==> keys[#[trigger] order[q]] >= bound,
        forall|q: int| c <= q < order.len() ==> keys[#[trigger] order[q]] < bound,
        older_than(keys, order, bound) == order.skip(c),
    decreases order.len(),
{
    if order.len() == 0 {
        lemma_older_than_skip(keys, order, bound, 0);
        0
    } else if keys[order[0]] < bound {
        assert forall|q: int| 0 <= q < order.len() implies keys[#[trigger] order[q]] < bound by {
            if q > 0 {
                assert(keys[order[0]] >= keys[order[q]]);
            }
        }
        lemma_older_than_skip(keys, order, bound, 0);
        0
    } else {
        let tail = order.drop_first();
        assert forall|a: int| 0 <= a < tail.len() implies 0 <= #[trigger] tail[a] < keys.len() by {
            assert(tail[a] == order[a + 1]);
        }
        assert forall|a: int, b: int|
            0 <= a < b < tail.len() implies keys[#[trigger] tail[a]] >= keys[#[trigger] tail[b]] by {
            assert(tail[a] == order[a + 1] && tail[b] == order[b + 1]);
        }
        let c1 = lemma_older_than_split(keys, tail, bound);
        assert forall|q: int| 0 <= q < c1 + 1 implies keys[#[trigger] order[q]] >= bound by {
            if q > 0 {
                assert(order[q] == tail[q - 1]);
            }
        }
        assert forall|q: int| c1 + 1 <= q < order.len() implies keys[#[trigger] order[q]]
            < bound by {
            assert(order[q] == tail[q - 1]);
        }
        lemma_older_than_skip(keys, order, bound, c1 + 1);
        c1 + 1
    }
}

/// Position `x` comes before position `y` in the listing: its key is
/// greater, or the keys are equal and `x` is the earlier position.
pub open spec fn ranks_before(keys: Seq<u128>, x: int, y: int) -> bool {
    keys[x] > keys[y] || (keys[x] == keys[y] && x < y)
}

/// Every position of `order` comes before every later one.
pub open spec fn strictly_ranked(keys: Seq<u128>, order: Seq<int>) -> bool {
    forall|i: int, j: int|
        0 <= i < j < order.len() ==> ranks_before(keys, #[trigger] order[i], #[trigger] order[j])
}

/// Newest first, ties in original order and no repeats amount to each
/// position coming before every later one.
proof fn lemma_strictly_ranked_iff(keys: Seq<u128>, order: Seq<int>)
    ensures
        strictly_ranked(keys, order) <==> (is_newest_first(keys, order) && ties_keep_order(
            keys,
            order,
        ) && order.no_duplicates()),
{
    if strictly_ranked(keys, order) {
        assert forall|a: int, b: int|
            0 <= a < order.len() && 0 <= b < order.len() && a != b implies order[a] != order[b] by {
            if a < b {
                assert(ranks_before(keys, order[a], order[b]));
            } else {
                assert(ranks_before(keys, order[b], order[a]));
            }
        }
    }
    if is_newest_first(keys, order) && ties_keep_order(keys, order) && order.no_duplicates() {
        assert forall|i: int, j: int| 0 <= i < j < order.len() implies ranks_before(
            keys,
            #[trigger] order[i],
            #[trigger] order[j],
        ) by {
            assert(keys[order[i]] >= keys[order[j]]);
        }
    }
}

/// Two orders in which each position comes before every later one, over the
/// same positions, are the same order.
proof fn lemma_strictly_ranked_unique(keys: Seq<u128>, s: Seq<int>, t: Seq<int>)
    requires
        strictly_ranked(keys, s),
        strictly_ranked(keys, t),
        forall|x: int| s.contains(x) <==> t.contains(x),
    ensures
        s == t,
    decreases s.len(),
{
    if s.len() == 0 {
        if t.len() > 0 {
            assert(t.contains(t[0]));
        }
        assert(s =~= t);
    } else {
        assert(s.contains(s[0]));
        let j = choose|j: int| 0 <= j < t.len() && t[j] == s[0];
        assert(t.contains(t[0]));
        let k = choose|k: int| 0 <= k < s.len() && s[k] == t[0];
        if j > 0 {
            assert(ranks_before(keys, t[0], t[j]));
            if k > 0 {
                assert(ranks_before(keys, s[0], s[k]));
            }
            assert(false);
        }
        let s1 = s.drop_first();
        let t1 = t.drop_first();
        assert forall|i: int, l: int| 0 <= i < l < s1.len() implies ranks_before(
            keys,
            #[trigger] s1[i],
            #[trigger] s1[l],
        ) by {
            assert(s1[i] == s[i + 1] && s1[l] == s[l + 1]);
        }
        assert forall|i: int, l: int| 0 <= i < l < t1.len() implies ranks_before(
            keys,
            #[trigger] t1[i],
            #[trigger] t1[l],
        ) by {
            assert(t1[i] == t[i + 1] && t1[l] == t[l + 1]);
        }
        assert forall|x: int| s1.contains(x) <==> t1.contains(x) by {
            if s1.contains(x) {
                let a = choose|a: int| 0 <= a < s1.len() && s1[a] == x;
                assert(s[a + 1] == x);
                assert(ranks_before(keys, s[0], s[a + 1]));
                assert(s.contains(x));
                let b = choose|b: int| 0 <= b < t.len() && t[b] == x;
                assert(b != 0);
                assert(t1[b - 1] == x);
            }
            if t1.contains(x) {
                let a = choose|a: int| 0 <= a < t1.len() && t1[a] == x;
                assert(t[a + 1] == x);
                assert(ranks_before(keys, t[0], t[a + 1]));
                assert(t.contains(x));
                let b = choose|b: int| 0 <= b < s.len() && s[b] == x;
                assert(b != 0);
                assert(s1[b - 1] == x);
            }
        }
        lemma_strictly_ranked_unique(keys, s1, t1);
        assert(s =~= seq![s[0]] + s1);
        assert(t =~= seq![t[0]] + t1);
    }
}

proof fn lemma_push_contains(s: Seq<int>, e: int, x: int)
    ensures
        s.push(e).contains(x) <==> (s.contains(x) || x == e),
{
    if s.push(e).contains(x) {
        let k = choose|k: int| 0 <= k < s.push(e).len() && s.push(e)[k] == x;
        if k < s.len() {
            assert(s[k] == x);
        }
    }
    if s.contains(x) {
        let k = choose|k: int| 0 <= k < s.len() && s[k] == x;
        assert(s.push(e)[k] == x);
    }
    if x == e {
        assert(s.push(e)[s.len() as int] == x);
    }
}

/// Whether position `x` comes before position `y`.
fn ranks_first(keys: &Vec<u128>, x: usize, y: usize) -> (first: bool)
    requires
        x < keys.len(),
        y < keys.len(),
    ensures
        first == ranks_before(keys@, x as int, y as int),
{
    keys[x] > keys[y] || (keys[x] == keys[y] && x < y)
}

/// Merges two listing orders over disjoint positions into one.
fn merge_ranked(keys: &Vec<u128>, a: Vec<usize>, b: Vec<usize>) -> (merged: Vec<usize>)
    requires
        strictly_ranked(keys@, positions(a@)),
        strictly_ranked(keys@, positions(b@)),
        forall|x: int| !(positions(a@).contains(x) && positions(b@).contains(x)),
        forall|i: int| 0 <= i < a.len() ==> #[trigger] a@[i] < keys.len(),
        forall|i: int| 0 <= i < b.len() ==> #[trigger] b@[i] < keys.len(),
    ensures
        strictly_ranked(keys@, positions(merged@)),
        forall|x: int|
            positions(merged@).contains(x) <==> (positions(a@).contains(x) || positions(
                b@,
            ).contains(x)),
        forall|i: int| 0 <= i < merged.len() ==> #[trigger] merged@[i] < keys.len(),
{
    let ghost pa = positions(a@);
    let ghost pb = positions(b@);
    let mut merged: Vec<usize> = Vec::new();
    let mut i: usize = 0;
    let mut j: usize = 0;
    while i < a.len() || j < b.len()
        invariant
            pa == positions(a@),
            pb == positions(b@),
            strictly_ranked(keys@, pa),
            strictly_ranked(keys@, pb),
            forall|x: int| !(pa.contains(x) && pb.contains(x)),
            forall|k: int| 0 <= k < a.len() ==> #[trigger] a@[k] < keys.len(),
            forall|k: int| 0 <= k < b.len() ==> #[trigger] b@[k] < keys.len(),
            i <= a.len(),
            j <= b.len(),
            merged.len() == i + j,
            strictly_ranked(keys@, positions(merged@)),
            forall|x: int|
                positions(merged@).contains(x) <==> (pa.take(i as int).contains(x) || pb.take(
                    j as int,
                ).contains(x)),
            forall|k: int| 0 <= k < merged.len() ==> #[trigger] merged@[k] < keys.len(),
            merged.len() > 0 && i < a.len() ==> ranks_before(
                keys@,
                positions(merged@).last(),
                pa[i as int],
            ),
            merged.len() > 0 && j < b.len() ==> ranks_before(
                keys@,
                positions(merged@).last(),
                pb[j as int],
            ),
        decreases a.len() + b.len() - i - j,
    {
        let ghost before = positions(merged@);
        let ghost old_i = i as int;
        let ghost old_j = j as int;
        let take_a = if j >= b.len() {
            true
        } else if i >= a.len() {
            false
        } else {
            ranks_first(keys, a[i], b[j])
        };
        let ghost next: int;
        if take_a {
            proof {
                next = pa[i as int];
                assert(pa[i as int] == a@[i as int] as int);
                assert(pa.take(i + 1) =~= pa.take(i as int).push(next));
            }
            merged.push(a[i]);
            i = i + 1;
            proof {
                if j < b.len() {
                    assert(pb[j as int] == b@[j as int] as int);
                }
                if i < a.len() {
                    assert(ranks_before(keys@, pa[i - 1], pa[i as int]));
                }
            }
        } else {
            proof {
                next = pb[j as int];
                assert(pb[j as int] == b@[j as int] as int);
                assert(pb.take(j + 1) =~= pb.take(j as int).push(next));
                if i < a.len() {
                    assert(pa[i as int] == a@[i as int] as int);
                    assert(pa.contains(pa[i as int]));
                    assert(pb.contains(pb[j as int]));
                    assert(pa[i as int] != pb[j as int]);
                }
            }
            merged.push(b[j]);
            j = j + 1;
            proof {
                if j < b.len() {
                    assert(ranks_before(keys@, pb[j - 1], pb[j as int]));
                }
            }
        }
        proof {
            let after = positions(merged@);
            assert(after =~= before.push(next));
            assert forall|p: int, q: int| 0 <= p < q < after.len() implies ranks_before(
                keys@,
                #[trigger] after[p],
                #[trigger] after[q],
            ) by {
                if q == after.len() - 1 && p < q - 1 {
                    assert(ranks_before(keys@, before[p], before.last()));
                }
            }
            assert forall|x: int|
                after.contains(x) <==> (pa.take(i as int).contains(x) || pb.take(
                    j as int,
                ).contains(x)) by {
                lemma_push_contains(before, next, x);
                if take_a {
                    assert(pb.take(j as int) == pb.take(old_j));
                    lemma_push_contains(pa.take(old_i), next, x);
                } else {
                    assert(pa.take(i as int) == pa.take(old_i));
                    lemma_push_contains(pb.take(old_j), next, x);
                }
            }
        }
    }
    assert(pa.take(a.len() as int) =~= pa);
    assert(pb.take(b.len() as int) =~= pb);
    merged
}

/// Sorts distinct positions into listing order.
fn sort_ranked(keys: &Vec<u128>, v: Vec<usize>) -> (sorted: Vec<usize>)
    requires
        positions(v@).no_duplicates(),
        forall|i: int| 0 <= i < v.len() ==> #[trigger] v@[i] < keys.len(),
    ensures
        strictly_ranked(keys@, positions(sorted@)),
        forall|x: int| positions(sorted@).contains(x) <==> positions(v@).contains(x),
        forall|i: int| 0 <= i < sorted.len() ==> #[trigger] sorted@[i] < keys.len(),
    decreases v.len(),
{
    if v.len() <= 1 {
        return v;
    }
    let ghost pv = positions(v@);
    let mid = v.len() / 2;
    let mut left = v;
    let right = left.split_off(mid);
    proof {
        assert(positions(left@) =~= pv.subrange(0, mid as int));
        assert(positions(right@) =~= pv.subrange(mid as int, pv.len() as int));
        assert forall|i: int, j: int|
            0 <= i < positions(left@).len() && 0 <= j < positions(left@).len() && i != j implies positions(
            left@,
        )[i] != positions(left@)[j] by {
            assert(pv[i] != pv[j]);
        }
        assert forall|i: int, j: int|
            0 <= i < positions(right@).len() && 0 <= j < positions(right@).len() && i
                != j implies positions(right@)[i] != positions(right@)[j] by {
            assert(pv[i + mid] != pv[j + mid]);
        }
    }
    let a = sort_ranked(keys, left);
    let b = sort_ranked(keys, right);
    proof {
        assert forall|x: int| !(positions(a@).contains(x) && positions(b@).contains(x)) by {
            if positions(a@).contains(x) && positions(b@).contains(x) {
                assert(positions(left@).contains(x));
                assert(positions(right@).contains(x));
                let p = choose|p: int| 0 <= p < positions(left@).len() && positions(left@)[p] == x;
                let q = choose|q: int|
                    0 <= q < positions(right@).len() && positions(right@)[q] == x;
                assert(pv[p] == x);
                assert(pv[q + mid] == x);
            }
        }
        assert forall|x: int|
            positions(left@).contains(x) || positions(right@).contains(x) <==> pv.contains(x) by {
            if pv.contains(x) {
                let k = choose|k: int| 0 <= k < pv.len() && pv[k] == x;
                if k < mid {
                    assert(positions(left@)[k] == x);
                } else {
                    assert(positions(right@)[k - mid] == x);
                }
            }
            if positions(left@).contains(x) {
                let k = choose|k: int| 0 <= k < mid && positions(left@)[k] == x;
                assert(pv[k] == x);
            }
            if positions(right@).contains(x) {
                let k = choose|k: int| 0 <= k < positions(right@).len() && positions(right@)[k] == x;
                assert(pv[k + mid] == x);
            }
        }
    }
    merge_ranked(keys, a, b)
}

/// The positions of `keys`, greatest key first, ties in their original order.
fn newest_first_order(keys: &Vec<u128>) -> (order: Vec<usize>)
    ensures
        positions(order@) == newest_first(keys@),
{
    let n = keys.len();
    let mut all: Vec<usize> = Vec::new();
    for i in 0..n
        invariant
            n == keys.len(),
            all@.len() == i,
            forall|k: int| 0 <= k < i ==> #[trigger] all@[k] == k,
    {
        all.push(i);
    }
    proof {
        assert forall|i: int, j: int|
            0 <= i < positions(all@).len() && 0 <= j < positions(all@).len() && i != j implies positions(
            all@,
        )[i] != positions(all@)[j] by {}
    }
    let ghost pall = positions(all@);
    let order = sort_ranked(keys, all);
    proof {
        assert forall|x: int| #[trigger] positions(order@).contains(x) <==> 0 <= x < n by {
            if 0 <= x < n {
                assert(pall[x] == x);
                assert(pall.contains(x));
            }
            if pall.contains(x) {
                let k = choose|k: int| 0 <= k < pall.len() && pall[k] == x;
                assert(all@[k] == k);
            }
        }
        lemma_strictly_ranked_iff(keys@, positions(order@));
        lemma_newest_first_unique(keys@, positions(order@));
    }
    order
}

/// The positions shown on one page of a listing over `keys`: newest first,
/// only those with a key below `after` when it is given, at most `limit`.
pub fn page_positions(keys: &Vec<u128>, after: Option<u128>, limit: Option<usize>) -> (page: Vec<
    usize,
>)
    ensures
        positions(page@) == listing_page(keys@, after, limit),
{
    let order = newest_first_order(keys);
    let ghost ordered = positions(order@);
    proof {
        lemma_newest_first_prefix_props(keys@, keys@.len());
    }
    assert forall|q: int| 0 <= q < order.len() implies #[trigger] order@[q] < keys.len() by {
        assert(ordered[q] == order@[q] as int);
    }
    let mut start: usize = 0;
    match after {
        Some(bound) => {
            while start < order.len() && keys[order[start]] >= bound
                invariant
                    start <= order.len(),
                    ordered == positions(order@),
                    forall|q: int| 0 <= q < order.len() ==> #[trigger] order@[q] < keys.len(),
                    forall|q: int| 0 <= q < start ==> keys@[#[trigger] ordered[q]] >= bound,
                decreases order.len() - start,
            {
                assert(ordered[start as int] == order@[start as int] as int);
                start = start + 1;
            }
            proof {
                assert forall|q: int| start <= q < ordered.len() implies keys@[#[trigger] ordered[q]]
                    < bound by {
                    assert(ordered[start as int] == order@[start as int] as int);
                    assert(keys@[ordered[start as int]] < bound);
                    if q > start {
                        assert(keys@[ordered[start as int]] >= keys@[ordered[q]]);
                    }
                }
                lemma_older_than_skip(keys@, ordered, bound, start as int);
            }
        },
        None => {},
    }
    let remaining = order.len() - start;
    let count = match limit {
        Some(n) => if n < remaining {
            n
        } else {
            remaining
        },
        None => remaining,
    };
    let mut page: Vec<usize> = Vec::new();
    let mut k: usize = 0;
    while k < count
        invariant
            count <= order.len() - start,
            start <= order.len(),
            k <= count,
            positions(page@) == ordered.subrange(start as int, start + k),
            ordered == positions(order@),
        decreases count - k,
    {
        let ghost before = page@;
        page.push(order[start + k]);
        assert(page@ == before.push(order@[start + k]));
        assert(ordered[start + k] == order@[start + k] as int);
        assert(positions(page@) =~= positions(before).push(order@[start + k] as int));
        assert(ordered.subrange(start as int, start + k + 1) =~= ordered.subrange(
            start as int,
            start + k,
        ).push(ordered[start + k]));
        assert(positions(page@) =~= ordered.subrange(start as int, start + k + 1));
        k = k + 1;
    }
    let ghost rest = ordered.skip(start as int);
    assert(match after {
        Some(bound) => older_than(keys@, ordered, bound),
        None => ordered,
    } == rest) by {
        if after is None {
            assert(ordered.skip(0) =~= ordered);
        }
    }
    assert(positions(page@) =~= at_most(rest, limit));
    page
}

/// The listing order: every position of `keys` appears exactly once, keys
/// never increase along it, and positions with equal keys keep their original
/// order.
pub proof fn lemma_newest_first_order(keys: Seq<u128>)
    ensures
        newest_first(keys).len() == keys.len(),
        distinct_positions(newest_first(keys), keys.len()),
        is_newest_first(keys, newest_first(keys)),
        ties_keep_order(keys, newest_first(keys)),
        forall|x: int| #[trigger] newest_first(keys).contains(x) <==> 0 <= x < keys.len(),
{
    lemma_newest_first_prefix_props(keys, keys.len());
}

/// The listing order is the only one of its kind: any order that holds each
/// position of `keys` once, greatest key first, with ties in their original
/// order, is `newest_first(keys)`.
pub proof fn lemma_newest_first_unique(keys: Seq<u128>, order: Seq<int>)
    requires
        forall|x: int| #[trigger] order.contains(x) <==> 0 <= x < keys.len(),
        order.no_duplicates(),
        is_newest_first(keys, order),
        ties_keep_order(keys, order),
    ensures
        order == newest_first(keys),
{
    lemma_newest_first_prefix_props(keys, keys.len());
    lemma_strictly_ranked_iff(keys, order);
    lemma_strictly_ranked_iff(keys, newest_first(keys));
    lemma_strictly_ranked_unique(keys, order, newest_first(keys));
}

/// The positions before the cursor's place in the newest-first order: `c` is
/// where the page starts.
proof fn lemma_page_start(keys: Seq<u128>, after: Option<u128>) -> (c: int)
    ensures
        0 <= c <= keys.len(),
        newest_first(keys).skip(c) == match after {
            Some(bound) => older_than(keys, newest_first(keys), bound),
            None => newest_first(keys),
        },
        after matches Some(bound) ==> forall|q: int|
            c <= q < keys.len() ==> keys[#[trigger] newest_first(keys)[q]] < bound,
{
    lemma_newest_first_order(keys);
    let order = newest_first(keys);
    match after {
        Some(bound) => lemma_older_than_split(keys, order, bound),
        None => {
            assert(order.skip(0) =~= order);
            0
        },
    }
}

/// Which positions a page holds: in the newest-first order, the ones before
/// place `c` have a key at least the cursor's bound and the ones from `c` on
/// are below it (`c` is 0 without a cursor); the page is the run of the
/// order that starts at `c` and is as long as the limit allows (all the rest
/// when there is no limit or it is larger).
pub proof fn lemma_page_window(keys: Seq<u128>, after: Option<u128>, limit: Option<usize>) -> (c:
    int)
    ensures
        0 <= c <= keys.len(),
        after is None ==> c == 0,
        after matches Some(bound) ==> forall|q: int|
            0 <= q < c ==> keys[#[trigger] newest_first(keys)[q]] >= bound,
        after matches Some(bound) ==> forall|q: int|
            c <= q < keys.len() ==> keys[#[trigger] newest_first(keys)[q]] < bound,
        listing_page(keys, after, limit) == newest_first(keys).subrange(
            c,
            c + match limit {
                Some(n) => if n < keys.len() - c {
                    n as int
                } else {
                    keys.len() - c
                },
                None => keys.len() - c,
            },
        ),
{
    lemma_newest_first_order(keys);
    let order = newest_first(keys);
    let c = match after {
        Some(bound) => lemma_older_than_split(keys, order, bound),
        None => 0,
    };
    let rest = order.skip(c);
    assert(rest == match after {
        Some(bound) => older_than(keys, order, bound),
        None => order,
    }) by {
        if after is None {
            assert(order.skip(0) =~= order);
        }
    }
    let m = match limit {
        Some(n) => if n < keys.len() - c {
            n as int
        } else {
            keys.len() - c
        },
        None => keys.len() - c,
    };
    assert(listing_page(keys, after, limit) =~= order.subrange(c, c + m));
    c
}

/// What one page holds: positions of `keys`, none twice, greatest key first,
/// all older than the cursor's key when there is one, and no more than the
/// limit; and it is a run of consecutive positions of the newest-first order.
pub proof fn lemma_page_contents(keys: Seq<u128>, after: Option<u128>, limit: Option<usize>)
    ensures
        distinct_positions(listing_page(keys, after, limit), keys.len()),
        is_newest_first(keys, listing_page(keys, after, limit)),
        ties_keep_order(keys, listing_page(keys, after, limit)),
        forall|a: int|
            0 <= a < listing_page(keys, after, limit).len() ==> (after matches Some(bound) ==> keys[
                #[trigger] listing_page(keys, after, limit)[a]] < bound),
        limit matches Some(n) ==> listing_page(keys, after, limit).len() <= n,
        exists|c: int|
            0 <= c <= keys.len() && listing_page(keys, after, limit) =~= (#[trigger] newest_first(
                keys,
            ).skip(c)).take(listing_page(keys, after, limit).len() as int),
{
    lemma_newest_first_order(keys);
    let order = newest_first(keys);
    let c = lemma_page_start(keys, after);
    let page = listing_page(keys, after, limit);
    let rest = order.skip(c);
    assert(page == at_most(rest, limit));
    assert forall|a: int| 0 <= a < page.len() implies #[trigger] page[a] == order[c + a] by {}
    assert(page =~= order.skip(c).take(page.len() as int));
    assert forall|a: int| 0 <= a < page.len() implies 0 <= #[trigger] page[a] < keys.len() by {
        assert(page[a] == order[c + a]);
    }
    assert forall|a: int, b: int|
        0 <= a < page.len() && 0 <= b < page.len() && a != b implies page[a] != page[b] by {
        assert(page[a] == order[c + a] && page[b] == order[c + b]);
    }
    assert forall|a: int, b: int|
        0 <= a < b < page.len() implies keys[#[trigger] page[a]] >= keys[#[trigger] page[b]] by {
        assert(page[a] == order[c + a] && page[b] == order[c + b]);
    }
    assert forall|a: int, b: int|
        0 <= a < b < page.len() && keys[#[trigger] page[a]] == keys[#[trigger] page[b]] implies page[a]
            < page[b] by {
        assert(page[a] == order[c + a] && page[b] == order[c + b]);
    }
    assert forall|a: int|
        0 <= a < page.len() implies (after matches Some(bound) ==> keys[#[trigger] page[a]]
            < bound) by {
        assert(page[a] == order[c + a]);
    }
}

/// The cursor a page leaves behind: the key of its last position, or the
/// cursor it was asked with when it is empty.
pub open spec fn next_after(keys: Seq<u128>, page: Seq<int>, after: Option<u128>) -> Option<u128> {
    if page.len() > 0 {
        Some(keys[page.last()])
    } else {
        after
    }
}

/// Paging through a listing: when no two records share a key, a page of
/// `first` positions followed by the page asked with the cursor it leaves
/// behind gives exactly the page of `first` plus `second` positions (or the
/// rest of the listing, when the second page has no limit).
pub proof fn lemma_next_page_continues(
    keys: Seq<u128>,
    after: Option<u128>,
    first: usize,
    second: Option<usize>,
)
    requires
        keys.no_duplicates(),
        second matches Some(b) ==> first + b <= usize::MAX,
    ensures
        ({
            let page1 = listing_page(keys, after, Some(first));
            let page2 = listing_page(keys, next_after(keys, page1, after), second);
            let both = match second {
                Some(b) => Some((first + b) as usize),
                None => None,
            };
            page1 + page2 == listing_page(keys, after, both)
        }),
{
    lemma_newest_first_order(keys);
    let order = newest_first(keys);
    let n = keys.len() as int;
    let c0 = lemma_page_start(keys, after);
    let rest = order.skip(c0);
    let page1 = listing_page(keys, after, Some(first));
    let m = page1.len() as int;
    let both = match second {
        Some(b) => Some((first + b) as usize),
        None => None::<usize>,
    };
    assert(page1 == at_most(rest, Some(first)));
    assert(page1 =~= rest.take(m));
    let next = next_after(keys, page1, after);
    if m > 0 {
        let t = c0 + m - 1;
        assert(page1.last() == order[t]);
        let bound = keys[order[t]];
        assert forall|q: int| 0 <= q < t + 1 implies keys[#[trigger] order[q]] >= bound by {
            if q < t {
                assert(keys[order[q]] >= keys[order[t]]);
            }
        }
        assert forall|q: int| t + 1 <= q < n implies keys[#[trigger] order[q]] < bound by {
            assert(keys[order[t]] >= keys[order[q]]);
            assert(order[t] != order[q]);
            assert(keys[order[t]] != keys[order[q]]);
        }
        lemma_older_than_skip(keys, order, bound, t + 1);
        assert(order.skip(t + 1) =~= rest.skip(m));
        let page2 = listing_page(keys, next, second);
        assert(page2 == at_most(rest.skip(m), second));
        assert(page1 + page2 =~= at_most(rest, both));
    } else {
        assert(next == after);
        let page2 = listing_page(keys, next, second);
        assert(page2 == at_most(rest, second));
        if first == 0 {
            assert(page1 + page2 =~= at_most(rest, both));
        } else {
            assert(rest.len() == 0);
            assert(page1 + page2 =~= at_most(rest, both));
        }
    }
}

} // verus!
