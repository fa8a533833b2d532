//! What it means to label the 4-connected components of a mask.
//!
//! A mask is a row-major sequence of bytes in which zero is background and
//! anything else is foreground. Two foreground pixels belong to one component
//! when a path of foreground pixels joins them whose consecutive pixels are
//! horizontal or vertical neighbours. A labelling gives every background pixel
//! the label zero and every component a positive label of its own, numbering
//! the components in the order in which a row-by-row scan first meets them.

use vstd::prelude::*;
use vstd::relations::injective_on;
use vstd::set_lib::{lemma_int_range, lemma_len_subset, lemma_map_size, set_int_range};

verus! {

/// Every pixel of the mask is either 0 (background) or 255 (foreground).
pub open spec fn is_binary(mask: Seq<u8>) -> bool {
    forall|i: int| 0 <= i < mask.len() ==> mask[i] == 0 || mask[i] == 255
}

/// `i` is the index of a foreground pixel of the mask.
pub open spec fn is_foreground(mask: Seq<u8>, i: int) -> bool {
    0 <= i < mask.len() && mask[i] != 0
}

/// The pixels at row-major indices `a` and `b` of a grid `width` columns wide
/// are neighbours to the east, west, south or north. Diagonals do not count.
pub open spec fn adjacent(width: int, a: int, b: int) -> bool {
    ||| a / width == b / width && (a + 1 == b || b + 1 == a)
    ||| a + width == b
    ||| b + width == a
}

/// `path` is a non-empty walk over foreground pixels, each step to a
/// neighbour.
pub open spec fn is_path(mask: Seq<u8>, width: int, path: Seq<int>) -> bool {
    &&& path.len() > 0
    &&& forall|k: int| 0 <= k < path.len() ==> is_foreground(mask, #[trigger] path[k])
    &&& forall|k: int| 0 <= k < path.len() - 1 ==> adjacent(width, #[trigger] path[k], path[k + 1])
}

/// The foreground pixels `a` and `b` belong to one component.
pub open spec fn connected(mask: Seq<u8>, width: int, a: int, b: int) -> bool {
    exists|path: Seq<int>| is_path(mask, width, path) && path.first() == a && path.last() == b
}

/// The largest label of the sequence, zero when it is empty.
pub open spec fn max_label(labels: Seq<u32>) -> nat
    decreases labels.len(),
{
    if labels.len() == 0 {
        0
    } else {
        let rest = max_label(labels.drop_last());
        if labels.last() > rest {
            labels.last() as nat
        } else {
            rest
        }
    }
}

/// No label exceeds the largest label before it by more than one: new labels
/// are handed out in increasing order as the scan proceeds.
pub open spec fn numbered_in_scan_order(labels: Seq<u32>) -> bool {
    forall|i: int| 0 <= i < labels.len() ==> labels[i] <= max_label(#[trigger] labels.take(i)) + 1
}

/// `labels` labels the components of `mask`: background is zero, foreground is
/// not, two foreground pixels share a label exactly when they are connected,
/// and the labels are numbered in scan order.
pub open spec fn is_component_labelling(mask: Seq<u8>, width: int, labels: Seq<u32>) -> bool {
    &&& labels.len() == mask.len()
    &&& forall|i: int| 0 <= i < mask.len() ==> (labels[i] == 0 <==> mask[i] == 0)
    &&& forall|i: int, j: int|
        is_foreground(mask, i) && is_foreground(mask, j) ==> (labels[i] == labels[j] <==> #[trigger] connected(
            mask,
            width,
            i,
            j,
        ))
    &&& numbered_in_scan_order(labels)
}

/// The labelling of the components of `mask`. There is at most one, see
/// [`lemma_labelling_unique`].
pub open spec fn component_labels(mask: Seq<u8>, width: int) -> Seq<u32> {
    choose|labels: Seq<u32>| is_component_labelling(mask, width, labels)
}

/// `i` is the first pixel, in scan order, of its component.
pub open spec fn is_component_root(mask: Seq<u8>, width: int, i: int) -> bool {
    is_foreground(mask, i) && forall|j: int| 0 <= j < i ==> !connected(mask, width, j, i)
}

/// The first pixel of every component.
pub open spec fn component_roots(mask: Seq<u8>, width: int) -> Set<int> {
    Set::new(|i: int| is_component_root(mask, width, i))
}

/// The number of 4-connected foreground components of the mask.
pub open spec fn component_count(mask: Seq<u8>, width: int) -> nat {
    component_roots(mask, width).len()
}

/// The distinct labels other than zero that occur in `labels`.
pub open spec fn nonzero_labels(labels: Seq<u32>) -> Set<int> {
    Set::new(|l: int| l != 0 && exists|i: int| 0 <= i < labels.len() && labels[i] == l)
}

/// Every foreground pixel is connected to itself.
pub proof fn lemma_connected_reflexive(mask: Seq<u8>, width: int, i: int)
    requires
        is_foreground(mask, i),
    ensures
        connected(mask, width, i, i),
{
    let path = seq![i];
    assert(is_path(mask, width, path));
    assert(path.first() == i && path.last() == i);
}

/// Connection does not depend on the direction of the walk.
pub proof fn lemma_connected_symmetric(mask: Seq<u8>, width: int, a: int, b: int)
    requires
        connected(mask, width, a, b),
    ensures
        connected(mask, width, b, a),
{
    let path = choose|path: Seq<int>|
        is_path(mask, width, path) && path.first() == a && path.last() == b;
    let back = path.reverse();
    assert forall|k: int| 0 <= k < back.len() implies is_foreground(mask, #[trigger] back[k]) by {
        assert(back[k] == path[path.len() - 1 - k]);
    }
    assert forall|k: int| 0 <= k < back.len() - 1 implies adjacent(
        width,
        #[trigger] back[k],
        back[k + 1],
    ) by {
        let m = path.len() - 2 - k;
        assert(back[k] == path[m + 1]);
        assert(back[k + 1] == path[m]);
        assert(adjacent(width, path[m], path[m + 1]));
    }
    assert(is_path(mask, width, back));
    assert(back.first() == b && back.last() == a);
}

/// Two walks that meet make one walk.
pub proof fn lemma_connected_transitive(mask: Seq<u8>, width: int, a: int, b: int, c: int)
    requires
        connected(mask, width, a, b),
        connected(mask, width, b, c),
    ensures
        connected(mask, width, a, c),
{
    let first = choose|path: Seq<int>|
        is_path(mask, width, path) && path.first() == a && path.last() == b;
    let second = choose|path: Seq<int>|
        is_path(mask, width, path) && path.first() == b && path.last() == c;
    let joined = first + second.drop_first();
    assert forall|k: int| 0 <= k < joined.len() implies is_foreground(mask, #[trigger] joined[k]) by {
        if k < first.len() {
            assert(joined[k] == first[k]);
        } else {
            assert(joined[k] == second[k - first.len() + 1]);
        }
    }
    assert forall|k: int| 0 <= k < joined.len() - 1 implies adjacent(
        width,
        #[trigger] joined[k],
        joined[k + 1],
    ) by {
        if k + 1 < first.len() {
            assert(joined[k] == first[k] && joined[k + 1] == first[k + 1]);
            assert(adjacent(width, first[k], first[k + 1]));
        } else if k + 1 == first.len() {
            assert(joined[k] == first.last());
            assert(joined[k + 1] == second[1]);
            assert(adjacent(width, second[0], second[1]));
        } else {
            let m = k - first.len() + 1;
            assert(joined[k] == second[m] && joined[k + 1] == second[m + 1]);
            assert(adjacent(width, second[m], second[m + 1]));
        }
    }
    assert(is_path(mask, width, joined));
    assert(joined.first() == a);
    if second.len() == 1 {
        assert(joined =~= first);
        assert(joined.last() == c);
    } else {
        assert(joined.last() == second.last());
    }
}

/// The first pixel, in scan order, that is connected to `i`.
proof fn lemma_first_connected(mask: Seq<u8>, width: int, i: int, j: int) -> (first: int)
    requires
        connected(mask, width, j, i),
    ensures
        0 <= first <= j,
        connected(mask, width, first, i),
        forall|p: int| 0 <= p < first ==> !connected(mask, width, p, i),
    decreases j,
{
    let path = choose|path: Seq<int>|
        is_path(mask, width, path) && path.first() == j && path.last() == i;
    assert(is_foreground(mask, path[0]));
    if exists|p: int| 0 <= p < j && connected(mask, width, p, i) {
        let p = choose|p: int| 0 <= p < j && connected(mask, width, p, i);
        lemma_first_connected(mask, width, i, p)
    } else {
        j
    }
}

/// Every foreground pixel belongs to exactly one component: it is connected
/// to the first pixel of one component and of no other.
pub proof fn lemma_one_component(mask: Seq<u8>, width: int, i: int) -> (root: int)
    requires
        is_foreground(mask, i),
    ensures
        is_component_root(mask, width, root),
        connected(mask, width, root, i),
        forall|other: int|
            is_component_root(mask, width, other) && connected(mask, width, other, i) ==> other
                == root,
{
    lemma_connected_reflexive(mask, width, i);
    let root = lemma_first_connected(mask, width, i, i);
    let path = choose|path: Seq<int>|
        is_path(mask, width, path) && path.first() == root && path.last() == i;
    assert(is_foreground(mask, path[0]));
    assert forall|p: int| 0 <= p < root implies !connected(mask, width, p, root) by {
        if connected(mask, width, p, root) {
            lemma_connected_transitive(mask, width, p, root, i);
        }
    }
    assert forall|other: int|
        is_component_root(mask, width, other) && connected(mask, width, other, i) implies other
        == root by {
        lemma_connected_symmetric(mask, width, other, i);
        lemma_connected_symmetric(mask, width, root, i);
        lemma_connected_transitive(mask, width, other, i, root);
        lemma_connected_transitive(mask, width, root, i, other);
    }
    root
}

/// No label is larger than the largest.
pub proof fn lemma_max_label_bounds(labels: Seq<u32>, i: int)
    requires
        0 <= i < labels.len(),
    ensures
        labels[i] <= max_label(labels),
    decreases labels.len(),
{
    if i < labels.len() - 1 {
        lemma_max_label_bounds(labels.drop_last(), i);
    }
}

/// Labels numbered in scan order are no larger than the number of pixels.
pub proof fn lemma_max_label_at_most_len(labels: Seq<u32>)
    requires
        numbered_in_scan_order(labels),
    ensures
        max_label(labels) <= labels.len(),
{
    lemma_max_label_prefix_at_most(labels, labels.len() as int);
    assert(labels.take(labels.len() as int) =~= labels);
}

proof fn lemma_max_label_prefix_at_most(labels: Seq<u32>, n: int)
    requires
        numbered_in_scan_order(labels),
        0 <= n <= labels.len(),
    ensures
        max_label(labels.take(n)) <= n,
    decreases n,
{
    if n > 0 {
        assert(labels.take(n).drop_last() =~= labels.take(n - 1));
        lemma_max_label_prefix_at_most(labels, n - 1);
    }
}

/// With labels numbered in scan order, every value from one to the largest
/// label of a prefix occurs in that prefix.
pub proof fn lemma_prefix_dense(labels: Seq<u32>, n: int, l: int)
    requires
        numbered_in_scan_order(labels),
        0 <= n <= labels.len(),
        1 <= l <= max_label(labels.take(n)),
    ensures
        exists|j: int| 0 <= j < n && labels[j] == l,
    decreases n,
{
    let prefix = labels.take(n);
    if n > 0 {
        assert(prefix.drop_last() =~= labels.take(n - 1));
        assert(prefix.last() == labels[n - 1]);
        let before = max_label(labels.take(n - 1));
        assert(labels[n - 1] <= before + 1);
        if l <= before {
            lemma_prefix_dense(labels, n - 1, l);
        } else {
            assert(labels[n - 1] == l);
        }
    }
}

/// The first place at which a label occurs.
pub proof fn lemma_first_occurrence(labels: Seq<u32>, j: int) -> (first: int)
    requires
        0 <= j < labels.len(),
    ensures
        0 <= first <= j,
        labels[first] == labels[j],
        forall|p: int| 0 <= p < first ==> labels[p] != labels[j],
    decreases j,
{
    if exists|p: int| 0 <= p < j && labels[p] == labels[j] {
        let p = choose|p: int| 0 <= p < j && labels[p] == labels[j];
        lemma_first_occurrence(labels, p)
    } else {
        j
    }
}

/// Labels are dense: the labels other than zero are exactly the numbers from
/// one to the largest label.
pub proof fn lemma_labels_dense(labels: Seq<u32>)
    requires
        numbered_in_scan_order(labels),
    ensures
        nonzero_labels(labels) == set_int_range(1, max_label(labels) as int + 1),
        nonzero_labels(labels).finite(),
        nonzero_labels(labels).len() == max_label(labels),
{
    let top = max_label(labels) as int;
    assert(labels.take(labels.len() as int) =~= labels);
    assert forall|l: int| nonzero_labels(labels).contains(l) <==> set_int_range(
        1,
        top + 1,
    ).contains(l) by {
        if nonzero_labels(labels).contains(l) {
            let i = choose|i: int| 0 <= i < labels.len() && labels[i] == l;
            lemma_max_label_bounds(labels, i);
        }
        if 1 <= l <= top {
            lemma_prefix_dense(labels, labels.len() as int, l);
        }
    }
    assert(nonzero_labels(labels) =~= set_int_range(1, top + 1));
    lemma_int_range(1, top + 1);
}

/// The number of distinct labels other than zero is the number of components,
/// and it is the largest label.
pub proof fn lemma_label_count(mask: Seq<u8>, width: int, labels: Seq<u32>)
    requires
        is_component_labelling(mask, width, labels),
    ensures
        component_roots(mask, width).finite(),
        nonzero_labels(labels).len() == component_count(mask, width),
        max_label(labels) == component_count(mask, width),
{
    let top = max_label(labels) as int;
    let roots = component_roots(mask, width);
    let label_at = |i: int| labels[i] as int;
    let range = set_int_range(1, top + 1);
    lemma_labels_dense(labels);
    assert(labels.take(labels.len() as int) =~= labels);

    assert(roots.finite()) by {
        let indices = set_int_range(0, mask.len() as int);
        lemma_int_range(0, mask.len() as int);
        assert(roots.subset_of(indices));
        lemma_len_subset(roots, indices);
    }
    assert(injective_on(label_at, roots)) by {
        assert forall|r1: int, r2: int|
            roots.contains(r1) && roots.contains(r2) && #[trigger] label_at(r1) == #[trigger] label_at(
                r2,
            ) implies r1 == r2 by {
            assert(connected(mask, width, r1, r2));
            assert(connected(mask, width, r2, r1));
        }
    }
    assert forall|l: int| roots.map(label_at).contains(l) <==> range.contains(l) by {
        if roots.map(label_at).contains(l) {
            let r = choose|r: int| roots.contains(r) && l == label_at(r);
            lemma_max_label_bounds(labels, r);
        }
        if range.contains(l) {
            lemma_prefix_dense(labels, labels.len() as int, l);
            let j = choose|j: int| 0 <= j < labels.len() && labels[j] == l;
            let first = lemma_first_occurrence(labels, j);
            assert forall|p: int| 0 <= p < first implies !connected(mask, width, p, first) by {
                if connected(mask, width, p, first) {
                    let path = choose|path: Seq<int>|
                        is_path(mask, width, path) && path.first() == p && path.last() == first;
                    assert(is_foreground(mask, path[0]));
                }
            }
            assert(is_component_root(mask, width, first));
            assert(roots.contains(first) && l == label_at(first));
        }
    }
    assert(roots.map(label_at) =~= range);
    lemma_map_size(roots, range, label_at);
}

/// A mask has at most one labelling.
pub proof fn lemma_labelling_unique(mask: Seq<u8>, width: int, a: Seq<u32>, b: Seq<u32>)
    requires
        is_component_labelling(mask, width, a),
        is_component_labelling(mask, width, b),
    ensures
        a == b,
{
    lemma_prefixes_agree(mask, width, a, b, mask.len() as int);
    assert(a.take(a.len() as int) =~= a);
    assert(b.take(b.len() as int) =~= b);
}

proof fn lemma_prefixes_agree(mask: Seq<u8>, width: int, a: Seq<u32>, b: Seq<u32>, n: int)
    requires
        is_component_labelling(mask, width, a),
        is_component_labelling(mask, width, b),
        0 <= n <= mask.len(),
    ensures
        a.take(n) == b.take(n),
    decreases n,
{
    if n == 0 {
        assert(a.take(0) =~= b.take(0));
    } else {
        let i = n - 1;
        lemma_prefixes_agree(mask, width, a, b, i);
        assert forall|j: int| 0 <= j < i implies a[j] == b[j] by {
            assert(a.take(i)[j] == b.take(i)[j]);
        }
        if mask[i] != 0 {
            if exists|j: int| 0 <= j < i && connected(mask, width, j, i) {
                let j = choose|j: int| 0 <= j < i && connected(mask, width, j, i);
                let path = choose|path: Seq<int>|
                    is_path(mask, width, path) && path.first() == j && path.last() == i;
                assert(is_foreground(mask, path[0]));
                assert(a[i] == a[j] && b[i] == b[j]);
            } else {
                lemma_new_label(mask, width, a, i);
                lemma_new_label(mask, width, b, i);
            }
        }
        assert(a.take(n) =~= a.take(i).push(a[i]));
        assert(b.take(n) =~= b.take(i).push(b[i]));
    }
}

/// The first pixel of a component gets the label after the largest so far.
proof fn lemma_new_label(mask: Seq<u8>, width: int, labels: Seq<u32>, i: int)
    requires
        is_component_labelling(mask, width, labels),
        is_component_root(mask, width, i),
    ensures
        labels[i] == max_label(labels.take(i)) + 1,
{
    let before = max_label(labels.take(i));
    if labels[i] <= before {
        lemma_prefix_dense(labels, i, labels[i] as int);
        let j = choose|j: int| 0 <= j < i && labels[j] == labels[i];
        assert(is_foreground(mask, j));
        assert(connected(mask, width, j, i));
    }
}

} // verus!
