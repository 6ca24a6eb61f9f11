//! Flat-tree indexing: leaves at even positions, parents at odd ones, and the
//! decomposition of a run of leaves into maximal complete subtrees.
use vstd::prelude::*;

verus! {

/// Number of leaves under a complete subtree of the given depth.
pub open spec fn span(depth: nat) -> nat
    decreases depth,
{
    if depth == 0 {
        1
    } else {
        2 * span((depth - 1) as nat)
    }
}

/// Depth of the largest complete subtree that fits in `n` leaves (`n >= 1`).
pub open spec fn floor_depth(n: nat) -> nat
    decreases n,
{
    if n <= 1 {
        0
    } else {
        1 + floor_depth(n / 2)
    }
}

/// Flat-tree index of the root of a complete subtree of `width` leaves whose
/// first leaf is the leaf numbered `start`.
pub open spec fn subtree_root(start: nat, width: nat) -> nat {
    (2 * start + width - 1) as nat
}

/// Roots, left to right, of the maximal complete subtrees covering `n` leaves
/// that start at leaf `start`: largest first, as in a binary counter.
pub open spec fn roots_from(start: nat, n: nat) -> Seq<nat>
    decreases n,
{
    if n == 0 {
        Seq::empty()
    } else {
        let w = span(floor_depth(n));
        if w == 0 || w > n {
            Seq::empty()
        } else {
            seq![subtree_root(start, w)] + roots_from(start + w, (n - w) as nat)
        }
    }
}

/// The full roots of a tree whose next free leaf position is `index` (an even
/// flat-tree index, i.e. `2 * block_count`).
pub open spec fn full_roots_spec(index: nat) -> Seq<nat> {
    roots_from(0, index / 2)
}

pub proof fn lemma_span_positive(d: nat)
    ensures
        span(d) >= 1,
    decreases d,
{
    if d > 0 {
        lemma_span_positive((d - 1) as nat);
    }
}

pub proof fn lemma_span_monotonic(a: nat, b: nat)
    requires
        a <= b,
    ensures
        span(a) <= span(b),
    decreases b,
{
    if a < b {
        lemma_span_monotonic(a, (b - 1) as nat);
        lemma_span_positive((b - 1) as nat);
    }
}

/// `span(floor_depth(n))` is the largest power of two not above `n`.
pub proof fn lemma_floor_depth_bounds(n: nat)
    requires
        n >= 1,
    ensures
        span(floor_depth(n)) <= n < span(floor_depth(n) + 1),
    decreases n,
{
    if n > 1 {
        lemma_floor_depth_bounds(n / 2);
        assert(span(floor_depth(n)) == 2 * span(floor_depth(n / 2)));
        assert(span(floor_depth(n) + 1) == 2 * span(floor_depth(n)));
        assert(span(floor_depth(n / 2) + 1) == 2 * span(floor_depth(n / 2)));
        assert(n / 2 * 2 <= n <= n / 2 * 2 + 1);
    } else {
        assert(span(1) == 2 * span(0));
    }
}

/// A depth whose span brackets `n` as a power of two is `floor_depth(n)`.
pub proof fn lemma_floor_depth_unique(n: nat, d: nat)
    requires
        span(d) <= n < span(d + 1),
    ensures
        floor_depth(n) == d,
{
    lemma_span_positive(d);
    lemma_floor_depth_bounds(n);
    let f = floor_depth(n);
    if f < d {
        lemma_span_monotonic(f + 1, d);
    } else if f > d {
        lemma_span_monotonic(d + 1, f);
    }
}

/// Total leaves under a run of complete subtrees of the given depths.
pub open spec fn sum_spans(ds: Seq<nat>) -> nat
    decreases ds.len(),
{
    if ds.len() == 0 {
        0
    } else {
        span(ds[0]) + sum_spans(ds.drop_first())
    }
}

/// Roots of a run of complete subtrees, laid side by side from leaf `start`,
/// whose depths are `ds`.
pub open spec fn roots_of(start: nat, ds: Seq<nat>) -> Seq<nat>
    decreases ds.len(),
{
    if ds.len() == 0 {
        Seq::empty()
    } else {
        seq![subtree_root(start, span(ds[0]))] + roots_of(start + span(ds[0]), ds.drop_first())
    }
}

pub open spec fn strictly_decreasing(ds: Seq<nat>) -> bool {
    forall|i: int, j: int| 0 <= i < j < ds.len() ==> ds[i] > ds[j]
}

pub proof fn lemma_span_strict(a: nat, b: nat)
    requires
        a < b,
    ensures
        span(a) < span(b),
{
    lemma_span_positive(a);
    lemma_span_monotonic(a + 1, b);
    assert(span(a + 1) == 2 * span(a));
}

pub proof fn lemma_roots_of_len(start: nat, ds: Seq<nat>)
    ensures
        roots_of(start, ds).len() == ds.len(),
    decreases ds.len(),
{
    if ds.len() > 0 {
        lemma_roots_of_len(start + span(ds[0]), ds.drop_first());
    }
}

/// Adding a subtree on the right of a run.
pub proof fn lemma_push_subtree(start: nat, ds: Seq<nat>, d: nat)
    ensures
        sum_spans(ds.push(d)) == sum_spans(ds) + span(d),
        roots_of(start, ds.push(d)) == roots_of(start, ds).push(
            subtree_root(start + sum_spans(ds), span(d)),
        ),
    decreases ds.len(),
{
    if ds.len() == 0 {
        assert(ds.push(d).drop_first() =~= Seq::<nat>::empty());
        assert(ds.push(d)[0] == d);
        assert(sum_spans(Seq::<nat>::empty()) == 0);
        assert(roots_of(start + span(d), Seq::<nat>::empty()) == Seq::<nat>::empty());
        assert(sum_spans(ds.push(d)) == span(d) + sum_spans(ds.push(d).drop_first()));
        assert(roots_of(start, ds.push(d)) =~= roots_of(start, ds).push(
            subtree_root(start + sum_spans(ds), span(d)),
        ));
    } else {
        assert(ds.push(d).drop_first() =~= ds.drop_first().push(d));
        assert(ds.push(d)[0] == ds[0]);
        lemma_push_subtree(start + span(ds[0]), ds.drop_first(), d);
        assert(roots_of(start, ds.push(d)) =~= roots_of(start, ds).push(
            subtree_root(start + sum_spans(ds), span(d)),
        ));
    }
}

/// Subtrees of strictly decreasing depth hold fewer leaves than twice the first.
pub proof fn lemma_sum_below(ds: Seq<nat>)
    requires
        strictly_decreasing(ds),
        ds.len() > 0,
    ensures
        span(ds[0]) <= sum_spans(ds) < span(ds[0] + 1),
    decreases ds.len(),
{
    let rest = ds.drop_first();
    assert(span(ds[0] + 1) == 2 * span(ds[0]));
    if rest.len() > 0 {
        assert(strictly_decreasing(rest)) by {
            assert forall|i: int, j: int| 0 <= i < j < rest.len() implies rest[i] > rest[j] by {
                assert(ds[i + 1] > ds[j + 1]);
            }
        }
        lemma_sum_below(rest);
        assert(ds[0] > ds[1]);
        lemma_span_monotonic(rest[0] + 1, ds[0]);
    } else {
        lemma_span_positive(ds[0]);
    }
}

/// A run of subtrees of strictly decreasing depth is the full-roots
/// decomposition of the leaves it covers.
pub proof fn lemma_roots_of_full(start: nat, ds: Seq<nat>)
    requires
        strictly_decreasing(ds),
    ensures
        roots_of(start, ds) == roots_from(start, sum_spans(ds)),
    decreases ds.len(),
{
    if ds.len() > 0 {
        let n = sum_spans(ds);
        let rest = ds.drop_first();
        lemma_sum_below(ds);
        lemma_span_positive(ds[0]);
        lemma_floor_depth_unique(n, ds[0]);
        assert(strictly_decreasing(rest)) by {
            assert forall|i: int, j: int| 0 <= i < j < rest.len() implies rest[i] > rest[j] by {
                assert(ds[i + 1] > ds[j + 1]);
            }
        }
        lemma_roots_of_full(start + span(ds[0]), rest);
    }
}

/// Every root of `roots_from(start, n)` lies below position `2 * (start + n)`.
pub proof fn lemma_roots_below(start: nat, n: nat)
    ensures
        forall|i: int| 0 <= i < roots_from(start, n).len() ==> roots_from(start, n)[i] < 2 * (start + n),
    decreases n,
{
    if n > 0 {
        let w = span(floor_depth(n));
        if w != 0 && w <= n {
            lemma_roots_below(start + w, (n - w) as nat);
            let rest = roots_from(start + w, (n - w) as nat);
            assert(roots_from(start, n) == seq![subtree_root(start, w)] + rest);
            assert forall|i: int| 0 <= i < roots_from(start, n).len() implies roots_from(start, n)[i] < 2 * (
            start + n) by {
                if i > 0 {
                    assert(roots_from(start, n)[i] == rest[i - 1]);
                }
            }
        }
    }
}

/// Position in the flat tree of the leaf for block `block`.
pub fn leaf_to_node(block: usize) -> (r: usize)
    requires
        block <= usize::MAX / 2,
    ensures
        r == 2 * block,
{
    2 * block
}

/// Relies on flat_tree::full_roots: for an even index `i` it pushes, left to
/// right, the roots of the largest complete subtrees covering `i / 2` leaves
/// (it asserts that `i` is even).
#[verifier::external_body]
fn flat_full_roots(index: usize) -> (r: Vec<usize>)
    requires
        index % 2 == 0,
    ensures
        r@.len() == full_roots_spec(index as nat).len(),
        forall|i: int| 0 <= i < r@.len() ==> r@[i] as nat == full_roots_spec(index as nat)[i],
{
    let mut nodes = Vec::new();
    flat_tree::full_roots(index, &mut nodes);
    nodes
}

/// The full roots, left to right, of a tree whose next free leaf position is
/// `index`: the maximal complete subtrees over its `index / 2` leaves,
/// largest first. All of them lie below `index`.
pub fn full_roots(index: usize) -> (r: Vec<usize>)
    requires
        index % 2 == 0,
    ensures
        r@.len() == full_roots_spec(index as nat).len(),
        forall|i: int| 0 <= i < r@.len() ==> r@[i] as nat == full_roots_spec(index as nat)[i],
        forall|i: int| 0 <= i < r@.len() ==> r@[i] < index,
{
    let r = flat_full_roots(index);
    proof {
        lemma_roots_below(0, (index / 2) as nat);
    }
    r
}

} // verus!
