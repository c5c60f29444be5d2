//! Lists of chunks: what a stream is still to deliver, piece by piece.
//!
//! A list of chunks stands for the rows of its chunks in order; no chunk is empty. Several lists
//! over the same rows are read side by side by cutting each where any of them is cut.
use vstd::prelude::*;

verus! {

/// The rows of the chunks, in order.
pub open spec fn flat<T>(chunks: Seq<Seq<T>>) -> Seq<T>
    decreases chunks.len(),
{
    if chunks.len() == 0 {
        Seq::empty()
    } else {
        chunks.first() + flat(chunks.drop_first())
    }
}

/// No chunk is empty.
pub open spec fn full<T>(chunks: Seq<Seq<T>>) -> bool {
    forall|i: int| 0 <= i < chunks.len() ==> (#[trigger] chunks[i]).len() > 0
}

/// The chunks left once the first `n` rows are dropped.
pub open spec fn dropped<T>(chunks: Seq<Seq<T>>, n: nat) -> Seq<Seq<T>>
    decreases chunks.len(),
{
    if n == 0 || chunks.len() == 0 {
        chunks
    } else if n >= chunks.first().len() {
        dropped(chunks.drop_first(), (n - chunks.first().len()) as nat)
    } else {
        seq![chunks.first().skip(n as int)] + chunks.drop_first()
    }
}

/// The length of the shortest first chunk among the lists.
pub open spec fn shortest<T>(lanes: Seq<Seq<Seq<T>>>) -> nat
    decreases lanes.len(),
{
    if lanes.len() == 0 {
        0
    } else if lanes.len() == 1 {
        lanes[0].first().len()
    } else {
        let rest = shortest(lanes.drop_last());
        let last = lanes.last().first().len();
        if last < rest {
            last
        } else {
            rest
        }
    }
}

/// Every list has a chunk left, and there is at least one list.
pub open spec fn all_ready<T>(lanes: Seq<Seq<Seq<T>>>) -> bool {
    &&& lanes.len() > 0
    &&& forall|j: int| 0 <= j < lanes.len() ==> (#[trigger] lanes[j]).len() > 0
}

/// Every list once its first `n` rows are dropped.
pub open spec fn all_dropped<T>(lanes: Seq<Seq<Seq<T>>>, n: nat) -> Seq<Seq<Seq<T>>> {
    Seq::new(lanes.len(), |j: int| dropped(lanes[j], n))
}

/// The rows at position `i` of the first chunks of the lists.
pub open spec fn across<T>(lanes: Seq<Seq<Seq<T>>>, i: int) -> Seq<T> {
    Seq::new(lanes.len(), |j: int| lanes[j].first()[i])
}

/// The first `n` rows of the first chunks, put together row by row.
pub open spec fn joined<T>(lanes: Seq<Seq<Seq<T>>>, n: nat, join: spec_fn(Seq<T>) -> T) -> Seq<T> {
    Seq::new(n, |i: int| join(across(lanes, i)))
}

/// The lists read side by side: each chunk ends where the first of the lists ends one, and the
/// reading ends with the first list that ends.
pub open spec fn aligned<T>(lanes: Seq<Seq<Seq<T>>>, join: spec_fn(Seq<T>) -> T) -> Seq<Seq<T>>
    decreases flat(lanes.first()).len(),
{
    if !all_ready(lanes) || shortest(lanes) == 0 {
        Seq::empty()
    } else {
        let n = shortest(lanes);
        proof {
            lemma_shortest(lanes);
            lemma_dropped(lanes.first(), n);
            assert(flat(lanes.first()).len() >= lanes.first().first().len());
        }
        seq![joined(lanes, n, join)] + aligned(all_dropped(lanes, n), join)
    }
}

/// The rows at position `i` of the lists.
pub open spec fn row_across<T>(lanes: Seq<Seq<Seq<T>>>, i: int) -> Seq<T> {
    Seq::new(lanes.len(), |j: int| flat(lanes[j])[i])
}

pub proof fn lemma_flat_one<T>(rows: Seq<T>)
    ensures
        flat(seq![rows]) == rows,
{
    reveal_with_fuel(flat, 2);
    assert(seq![rows].drop_first() =~= Seq::empty());
    assert(rows + Seq::empty() =~= rows);
}

pub proof fn lemma_flat_concat<T>(a: Seq<Seq<T>>, b: Seq<Seq<T>>)
    ensures
        flat(a + b) == flat(a) + flat(b),
    decreases a.len(),
{
    if a.len() == 0 {
        assert(a + b =~= b);
        assert(flat(a) + flat(b) =~= flat(b));
    } else {
        lemma_flat_concat(a.drop_first(), b);
        assert((a + b).drop_first() =~= a.drop_first() + b);
        assert((a + b).first() == a.first());
        assert(a.first() + (flat(a.drop_first()) + flat(b)) =~= (a.first() + flat(a.drop_first()))
            + flat(b));
    }
}

pub proof fn lemma_full_tail<T>(chunks: Seq<Seq<T>>)
    requires
        full(chunks),
        chunks.len() > 0,
    ensures
        full(chunks.drop_first()),
        chunks.first().len() > 0,
{
    assert forall|i: int| 0 <= i < chunks.drop_first().len() implies (
    #[trigger] chunks.drop_first()[i]).len() > 0 by {
        assert(chunks.drop_first()[i] == chunks[i + 1]);
    }
}

/// A list of non-empty chunks has rows exactly when it has chunks.
pub proof fn lemma_full_flat<T>(chunks: Seq<Seq<T>>)
    requires
        full(chunks),
    ensures
        flat(chunks).len() == 0 <==> chunks.len() == 0,
{
    if chunks.len() > 0 {
        assert(chunks[0].len() > 0);
    }
}

/// Dropping rows from a list of chunks drops them from its rows, and leaves no empty chunk.
pub proof fn lemma_dropped<T>(chunks: Seq<Seq<T>>, n: nat)
    ensures
        n <= flat(chunks).len() ==> flat(dropped(chunks, n)) == flat(chunks).skip(n as int),
        full(chunks) ==> full(dropped(chunks, n)),
    decreases chunks.len(),
{
    if n == 0 || chunks.len() == 0 {
        assert(flat(chunks).skip(0) =~= flat(chunks));
    } else if n >= chunks.first().len() {
        let m = (n - chunks.first().len()) as nat;
        lemma_dropped(chunks.drop_first(), m);
        if full(chunks) {
            lemma_full_tail(chunks);
        }
        if n <= flat(chunks).len() {
            assert(flat(chunks).skip(n as int) =~= flat(chunks.drop_first()).skip(m as int));
        }
    } else {
        let head = chunks.first().skip(n as int);
        let tail = chunks.drop_first();
        let result = seq![head] + tail;
        lemma_flat_concat(seq![head], tail);
        lemma_flat_one(head);
        assert(head + flat(tail) =~= flat(chunks).skip(n as int));
        if full(chunks) {
            lemma_full_tail(chunks);
            assert forall|i: int| 0 <= i < result.len() implies (#[trigger] result[i]).len()
                > 0 by {
                if i > 0 {
                    assert(result[i] == tail[i - 1]);
                }
            }
        }
    }
}

/// Dropping twice is dropping once.
pub proof fn lemma_dropped_twice<T>(chunks: Seq<Seq<T>>, a: nat, b: nat)
    requires
        full(chunks),
    ensures
        dropped(dropped(chunks, a), b) == dropped(chunks, a + b),
    decreases chunks.len(),
{
    if a == 0 || chunks.len() == 0 || b == 0 {
    } else if a >= chunks.first().len() {
        lemma_full_tail(chunks);
        lemma_dropped_twice(chunks.drop_first(), (a - chunks.first().len()) as nat, b);
    } else {
        let head = chunks.first().skip(a as int);
        let tail = chunks.drop_first();
        let once = seq![head] + tail;
        assert(once.first() == head);
        assert(once.drop_first() =~= tail);
        if b < head.len() {
            assert(head.skip(b as int) =~= chunks.first().skip((a + b) as int));
        }
    }
}

/// Dropping a whole chunk leaves the others.
pub proof fn lemma_dropped_first<T>(chunks: Seq<Seq<T>>)
    requires
        full(chunks),
        chunks.len() > 0,
    ensures
        dropped(chunks, chunks.first().len()) == chunks.drop_first(),
{
    reveal_with_fuel(dropped, 2);
    lemma_full_tail(chunks);
}

/// Rows are dropped from the front list until it is used up.
pub proof fn lemma_dropped_concat<T>(a: Seq<Seq<T>>, b: Seq<Seq<T>>, n: nat)
    ensures
        n <= flat(a).len() ==> dropped(a + b, n) == dropped(a, n) + b,
        n >= flat(a).len() && full(a) ==> dropped(a + b, n) == dropped(
            b,
            (n - flat(a).len()) as nat,
        ),
    decreases a.len(),
{
    if a.len() == 0 {
        assert(a + b =~= b);
        assert(dropped(a, n) + b =~= b);
    } else {
        assert((a + b).first() == a.first());
        assert((a + b).drop_first() =~= a.drop_first() + b);
        if n == 0 {
            if full(a) {
                lemma_full_tail(a);
            }
        } else if n >= a.first().len() {
            lemma_dropped_concat(a.drop_first(), b, (n - a.first().len()) as nat);
            if full(a) {
                lemma_full_tail(a);
            }
        } else {
            assert(seq![a.first().skip(n as int)] + (a.drop_first() + b) =~= (seq![
                a.first().skip(n as int),
            ] + a.drop_first()) + b);
        }
    }
}

/// The chunks with every row replaced.
pub open spec fn mapped<T>(chunks: Seq<Seq<T>>, change: spec_fn(T) -> T) -> Seq<Seq<T>> {
    Seq::new(chunks.len(), |i: int| chunks[i].map_values(change))
}

/// Replacing rows keeps the cuts between chunks.
pub proof fn lemma_mapped<T>(chunks: Seq<Seq<T>>, change: spec_fn(T) -> T, n: nat)
    ensures
        flat(mapped(chunks, change)) == flat(chunks).map_values(change),
        dropped(mapped(chunks, change), n) == mapped(dropped(chunks, n), change),
        full(chunks) ==> full(mapped(chunks, change)),
    decreases chunks.len(),
{
    let all = mapped(chunks, change);
    if chunks.len() == 0 {
        assert(flat(all) =~= flat(chunks).map_values(change));
        assert(dropped(all, n) =~= mapped(dropped(chunks, n), change));
    } else {
        let tail = chunks.drop_first();
        assert(all.drop_first() =~= mapped(tail, change));
        assert(all.first() == chunks.first().map_values(change));
        let m = if n >= chunks.first().len() {
            (n - chunks.first().len()) as nat
        } else {
            0
        };
        lemma_mapped(tail, change, m);
        assert(flat(all) =~= flat(chunks).map_values(change));
        if n == 0 {
        } else if n < chunks.first().len() {
            let head = chunks.first().skip(n as int);
            assert(all.first().skip(n as int) =~= head.map_values(change));
            assert(dropped(all, n) =~= mapped(seq![head] + tail, change));
        }
        if full(chunks) {
            assert forall|i: int| 0 <= i < all.len() implies (#[trigger] all[i]).len() > 0 by {
                assert(chunks[i].len() > 0);
            }
        }
    }
}

/// The shortest first chunk is one of them, and none is shorter.
pub proof fn lemma_shortest<T>(lanes: Seq<Seq<Seq<T>>>)
    ensures
        forall|j: int|
            0 <= j < lanes.len() ==> shortest(lanes) <= (#[trigger] lanes[j]).first().len(),
        lanes.len() > 0 ==> exists|j: int|
            0 <= j < lanes.len() && shortest(lanes) == (#[trigger] lanes[j]).first().len(),
    decreases lanes.len(),
{
    if lanes.len() == 1 {
        assert(lanes[0].first().len() == shortest(lanes));
    } else if lanes.len() > 1 {
        let front = lanes.drop_last();
        lemma_shortest(front);
        assert forall|j: int| 0 <= j < lanes.len() implies shortest(lanes) <= (
        #[trigger] lanes[j]).first().len() by {
            if j < front.len() {
                assert(front[j] == lanes[j]);
            }
        }
        if shortest(lanes) == shortest(front) {
            let j = choose|j: int|
                0 <= j < front.len() && shortest(front) == (#[trigger] front[j]).first().len();
            assert(lanes[j] == front[j]);
        } else {
            assert(lanes[lanes.len() - 1].first().len() == shortest(lanes));
        }
    }
}

/// What is read side by side has no empty chunk.
pub proof fn lemma_aligned_full<T>(lanes: Seq<Seq<Seq<T>>>, join: spec_fn(Seq<T>) -> T)
    ensures
        full(aligned(lanes, join)),
    decreases flat(lanes.first()).len(),
{
    if all_ready(lanes) && shortest(lanes) != 0 {
        let n = shortest(lanes);
        lemma_shortest(lanes);
        lemma_dropped(lanes.first(), n);
        assert(flat(lanes.first()).len() >= lanes.first().first().len());
        let rest = all_dropped(lanes, n);
        assert(rest.first() == dropped(lanes.first(), n));
        lemma_aligned_full(rest, join);
        let result = aligned(lanes, join);
        assert forall|i: int| 0 <= i < result.len() implies (#[trigger] result[i]).len() > 0 by {
            if i > 0 {
                assert(result[i] == aligned(rest, join)[i - 1]);
            }
        }
    }
}

/// Every list is made of non-empty chunks.
pub open spec fn all_full<T>(lanes: Seq<Seq<Seq<T>>>) -> bool {
    forall|j: int| 0 <= j < lanes.len() ==> full(#[trigger] lanes[j])
}

/// Every list holds at least `n` rows.
pub open spec fn all_hold<T>(lanes: Seq<Seq<Seq<T>>>, n: nat) -> bool {
    forall|j: int| 0 <= j < lanes.len() ==> flat(#[trigger] lanes[j]).len() >= n
}

pub proof fn lemma_all_dropped<T>(lanes: Seq<Seq<Seq<T>>>, n: nat)
    requires
        all_full(lanes),
    ensures
        all_full(all_dropped(lanes, n)),
        all_hold(lanes, n) ==> forall|j: int|
            0 <= j < lanes.len() ==> flat(#[trigger] all_dropped(lanes, n)[j]) == flat(
                lanes[j],
            ).skip(n as int),
{
    assert forall|j: int| 0 <= j < lanes.len() implies full(
        #[trigger] all_dropped(lanes, n)[j],
    ) by {
        assert(full(lanes[j]));
        lemma_dropped(lanes[j], n);
    }
    if all_hold(lanes, n) {
        assert forall|j: int| 0 <= j < lanes.len() implies flat(#[trigger] all_dropped(lanes, n)[j])
            == flat(lanes[j]).skip(n as int) by {
            assert(flat(lanes[j]).len() >= n);
            lemma_dropped(lanes[j], n);
        }
    }
}

/// Dropping rows before or after reading side by side comes to the same.
pub proof fn lemma_aligned_dropped<T>(
    lanes: Seq<Seq<Seq<T>>>,
    join: spec_fn(Seq<T>) -> T,
    n: nat,
)
    requires
        lanes.len() > 0,
        all_full(lanes),
        all_hold(lanes, n),
    ensures
        aligned(all_dropped(lanes, n), join) == dropped(aligned(lanes, join), n),
    decreases n,
{
    if n == 0 {
        assert(all_dropped(lanes, 0) =~= lanes);
    } else {
        assert forall|j: int| 0 <= j < lanes.len() implies (#[trigger] lanes[j]).len() > 0 by {
            assert(flat(lanes[j]).len() >= n);
        }
        let m = shortest(lanes);
        lemma_shortest(lanes);
        let k = choose|j: int|
            0 <= j < lanes.len() && shortest(lanes) == (#[trigger] lanes[j]).first().len();
        assert(full(lanes[k]) && lanes[k][0].len() > 0);
        let whole = aligned(lanes, join);
        let first = joined(lanes, m, join);
        let rest = all_dropped(lanes, m);
        assert(whole.first() == first);
        assert(whole.drop_first() =~= aligned(rest, join));
        lemma_all_dropped(lanes, m);
        let after = all_dropped(lanes, n);
        if n >= m {
            let r = (n - m) as nat;
            assert(all_hold(rest, r)) by {
                assert forall|j: int| 0 <= j < rest.len() implies flat(#[trigger] rest[j]).len()
                    >= r by {
                    assert(flat(lanes[j]).len() >= n);
                    lemma_dropped(lanes[j], m);
                }
            }
            lemma_aligned_dropped(rest, join, r);
            assert(all_dropped(rest, r) =~= after) by {
                assert forall|j: int| 0 <= j < lanes.len() implies all_dropped(rest, r)[j]
                    == after[j] by {
                    assert(full(lanes[j]));
                    lemma_dropped_twice(lanes[j], m, r);
                }
            }
        } else {
            lemma_all_dropped(lanes, n);
            let r = (m - n) as nat;
            assert forall|j: int| 0 <= j < lanes.len() implies after[j].len() > 0
                && after[j].first() == lanes[j].first().skip(n as int) by {
                assert(m <= lanes[j].first().len());
            }
            assert(all_ready(after)) by {
                assert forall|j: int| 0 <= j < after.len() implies (#[trigger] after[j]).len()
                    > 0 by {
                    assert(lanes[j].len() > 0);
                }
            }
            assert(shortest(after) == r) by {
                lemma_shortest(after);
                assert(after[k].first() == lanes[k].first().skip(n as int));
                let q = choose|j: int|
                    0 <= j < after.len() && shortest(after) == (#[trigger] after[j]).first().len();
                assert(m <= lanes[q].first().len());
                assert(after[q].first() == lanes[q].first().skip(n as int));
            }
            assert(joined(after, r, join) =~= first.skip(n as int)) by {
                assert forall|i: int| 0 <= i < r implies joined(after, r, join)[i] == first.skip(
                    n as int,
                )[i] by {
                    assert(across(after, i) =~= across(lanes, i + n)) by {
                        assert forall|j: int| 0 <= j < lanes.len() implies across(after, i)[j]
                            == across(lanes, i + n)[j] by {
                            assert(m <= lanes[j].first().len());
                            assert(after[j].first() == lanes[j].first().skip(n as int));
                        }
                    }
                }
            }
            assert(all_dropped(after, r) =~= rest) by {
                assert forall|j: int| 0 <= j < lanes.len() implies all_dropped(after, r)[j]
                    == rest[j] by {
                    assert(full(lanes[j]));
                    lemma_dropped_twice(lanes[j], n, r);
                }
            }
        }
    }
}

/// Read side by side, lists over `n` rows each give those rows put together one by one.
pub proof fn lemma_aligned_flat<T>(lanes: Seq<Seq<Seq<T>>>, join: spec_fn(Seq<T>) -> T, n: nat)
    requires
        lanes.len() > 0,
        all_full(lanes),
        forall|j: int| 0 <= j < lanes.len() ==> flat(#[trigger] lanes[j]).len() == n,
    ensures
        flat(aligned(lanes, join)) == Seq::new(n, |i: int| join(row_across(lanes, i))),
    decreases n,
{
    if n == 0 {
        assert(flat(lanes[0]).len() == 0);
        assert(full(lanes[0]));
        lemma_full_flat(lanes[0]);
        assert(flat(aligned(lanes, join)) =~= Seq::new(n, |i: int| join(row_across(lanes, i))));
    } else {
        assert forall|j: int| 0 <= j < lanes.len() implies (#[trigger] lanes[j]).len() > 0 by {
            assert(flat(lanes[j]).len() == n);
        }
        let m = shortest(lanes);
        lemma_shortest(lanes);
        let k = choose|j: int|
            0 <= j < lanes.len() && shortest(lanes) == (#[trigger] lanes[j]).first().len();
        assert(full(lanes[k]) && lanes[k][0].len() > 0);
        assert(flat(lanes[k]).len() == n);
        let rest = all_dropped(lanes, m);
        assert(all_hold(lanes, m)) by {
            assert forall|j: int| 0 <= j < lanes.len() implies flat(#[trigger] lanes[j]).len()
                >= m by {
                assert(m <= lanes[j].first().len());
            }
        }
        lemma_all_dropped(lanes, m);
        let r = (n - m) as nat;
        assert forall|j: int| 0 <= j < rest.len() implies flat(#[trigger] rest[j]).len() == r by {
            assert(flat(lanes[j]).len() == n);
        }
        lemma_aligned_flat(rest, join, r);
        let first = joined(lanes, m, join);
        assert((seq![first] + aligned(rest, join)).drop_first() =~= aligned(rest, join));
        let goal = Seq::new(n, |i: int| join(row_across(lanes, i)));
        let tail = Seq::new(r, |i: int| join(row_across(rest, i)));
        assert(first + tail =~= goal) by {
            assert forall|i: int| 0 <= i < n implies (first + tail)[i] == goal[i] by {
                if i < m {
                    assert(across(lanes, i) =~= row_across(lanes, i)) by {
                        assert forall|j: int| 0 <= j < lanes.len() implies across(lanes, i)[j]
                            == row_across(lanes, i)[j] by {
                            assert(m <= lanes[j].first().len());
                        }
                    }
                } else {
                    assert(row_across(rest, i - m) =~= row_across(lanes, i)) by {
                        assert forall|j: int| 0 <= j < lanes.len() implies row_across(
                            rest,
                            i - m,
                        )[j] == row_across(lanes, i)[j] by {
                            assert(flat(rest[j]) == flat(lanes[j]).skip(m as int));
                        }
                    }
                }
            }
        }
    }
}

/// What is read side by side is no longer than any of the lists.
pub proof fn lemma_aligned_len<T>(lanes: Seq<Seq<Seq<T>>>, join: spec_fn(Seq<T>) -> T)
    ensures
        all_hold(lanes, flat(aligned(lanes, join)).len()),
    decreases flat(lanes.first()).len(),
{
    if all_ready(lanes) && shortest(lanes) != 0 {
        let n = shortest(lanes);
        lemma_shortest(lanes);
        lemma_dropped(lanes.first(), n);
        assert(flat(lanes.first()).len() >= lanes.first().first().len());
        let rest = all_dropped(lanes, n);
        assert(rest.first() == dropped(lanes.first(), n));
        lemma_aligned_len(rest, join);
        let whole = aligned(lanes, join);
        assert(whole.first().len() == n);
        assert(whole.drop_first() =~= aligned(rest, join));
        assert forall|j: int| 0 <= j < lanes.len() implies flat(#[trigger] lanes[j]).len() >= flat(
            whole,
        ).len() by {
            lemma_dropped(lanes[j], n);
            assert(lanes[j].len() > 0);
            assert(n <= lanes[j].first().len());
            assert(flat(lanes[j]).len() >= lanes[j].first().len());
            assert(flat(rest[j]).len() >= flat(aligned(rest, join)).len());
        }
    }
}

/// What is read side by side is as long as the rows that each of the lists has.
pub proof fn lemma_aligned_least<T>(lanes: Seq<Seq<Seq<T>>>, join: spec_fn(Seq<T>) -> T, n: nat)
    requires
        lanes.len() > 0,
        all_full(lanes),
        all_hold(lanes, n),
    ensures
        flat(aligned(lanes, join)).len() >= n,
    decreases n,
{
    if n > 0 {
        assert forall|j: int| 0 <= j < lanes.len() implies (#[trigger] lanes[j]).len() > 0 by {
            assert(flat(lanes[j]).len() >= n);
        }
        let m = shortest(lanes);
        lemma_shortest(lanes);
        let k = choose|j: int|
            0 <= j < lanes.len() && shortest(lanes) == (#[trigger] lanes[j]).first().len();
        assert(full(lanes[k]) && lanes[k][0].len() > 0);
        let whole = aligned(lanes, join);
        let rest = all_dropped(lanes, m);
        assert(whole.first().len() == m);
        assert(whole.drop_first() =~= aligned(rest, join));
        if n > m {
            lemma_all_dropped(lanes, m);
            assert(all_hold(rest, (n - m) as nat)) by {
                assert forall|j: int| 0 <= j < rest.len() implies flat(#[trigger] rest[j]).len()
                    >= n - m by {
                    assert(flat(lanes[j]).len() >= n);
                    lemma_dropped(lanes[j], m);
                }
            }
            lemma_aligned_least(rest, join, (n - m) as nat);
        }
    }
}

} // verus!
