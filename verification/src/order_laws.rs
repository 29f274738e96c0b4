//! What sorting by keys brings about.

use vstd::prelude::*;

use crate::order::{
    inserted, lemma_sorted_members, sorted_by, text_less, text_less_is_irreflexive,
    text_less_is_total, text_less_is_transitive,
};

verus! {

/// The order of keys that are lists of texts: by the first texts that differ.
pub open spec fn key_less(left: Seq<Seq<char>>, right: Seq<Seq<char>>) -> bool
    decreases left.len(),
{
    if right.len() == 0 {
        false
    } else if left.len() == 0 {
        true
    } else if left[0] == right[0] {
        key_less(left.drop_first(), right.drop_first())
    } else {
        text_less(left[0], right[0])
    }
}

pub proof fn key_less_is_irreflexive(key: Seq<Seq<char>>)
    ensures
        !key_less(key, key),
    decreases key.len(),
{
    if key.len() > 0 {
        key_less_is_irreflexive(key.drop_first());
    }
}

pub proof fn key_less_is_total(left: Seq<Seq<char>>, right: Seq<Seq<char>>)
    ensures
        left != right ==> key_less(left, right) != key_less(right, left),
    decreases left.len(),
{
    if left.len() > 0 && right.len() > 0 {
        if left[0] == right[0] {
            key_less_is_total(left.drop_first(), right.drop_first());
            if left.drop_first() == right.drop_first() {
                assert(left =~= seq![left[0]] + left.drop_first());
                assert(right =~= seq![right[0]] + right.drop_first());
            }
        } else {
            text_less_is_total(left[0], right[0]);
        }
    } else if left.len() == 0 && right.len() == 0 {
        assert(left =~= right);
    }
}

pub proof fn key_less_is_transitive(a: Seq<Seq<char>>, b: Seq<Seq<char>>, c: Seq<Seq<char>>)
    requires
        key_less(a, b),
        key_less(b, c),
    ensures
        key_less(a, c),
    decreases a.len(),
{
    if a.len() > 0 && b.len() > 0 && c.len() > 0 {
        if a[0] == b[0] && b[0] == c[0] {
            key_less_is_transitive(a.drop_first(), b.drop_first(), c.drop_first());
        } else if a[0] != b[0] && b[0] != c[0] {
            text_less_is_transitive(a[0], b[0], c[0]);
            text_less_is_irreflexive(a[0]);
        }
    }
}

/// Whether an order goes by keys.
pub open spec fn goes_by_key<M>(
    before: spec_fn(M, M) -> bool,
    key: spec_fn(M) -> Seq<Seq<char>>,
) -> bool {
    forall|left: M, right: M| #[trigger] before(left, right) == key_less(key(left), key(right))
}

/// Whether no two items have the same key.
pub open spec fn distinct_keys<M>(items: Seq<M>, key: spec_fn(M) -> Seq<Seq<char>>) -> bool {
    forall|i: int, j: int|
        0 <= i < j < items.len() ==> key(#[trigger] items[i]) != key(#[trigger] items[j])
}

/// Whether the keys go up.
pub open spec fn increasing<M>(items: Seq<M>, key: spec_fn(M) -> Seq<Seq<char>>) -> bool {
    forall|i: int, j: int|
        0 <= i < j < items.len() ==> key_less(
            key(#[trigger] items[i]),
            key(#[trigger] items[j]),
        )
}

proof fn inserting_keeps_increasing<M>(
    sorted: Seq<M>,
    item: M,
    before: spec_fn(M, M) -> bool,
    key: spec_fn(M) -> Seq<Seq<char>>,
)
    requires
        goes_by_key(before, key),
        increasing(sorted, key),
        forall|i: int| 0 <= i < sorted.len() ==> key(#[trigger] sorted[i]) != key(item),
    ensures
        increasing(inserted(sorted, item, before), key),
        forall|x: M|
            #[trigger] inserted(sorted, item, before).contains(x) ==> x == item
                || sorted.contains(x),
    decreases sorted.len(),
{
    let result = inserted(sorted, item, before);
    if sorted.len() > 0 && before(item, sorted.last()) {
        let rest = sorted.drop_last();
        assert forall|i: int| 0 <= i < rest.len() implies key(#[trigger] rest[i]) != key(item) by {
            assert(rest[i] == sorted[i]);
        }
        assert forall|i: int, j: int| 0 <= i < j < rest.len() implies key_less(
            key(#[trigger] rest[i]),
            key(#[trigger] rest[j]),
        ) by {
            assert(rest[i] == sorted[i] && rest[j] == sorted[j]);
        }
        inserting_keeps_increasing(rest, item, before, key);
        let inner = inserted(rest, item, before);
        assert forall|i: int, j: int| 0 <= i < j < result.len() implies key_less(
            key(#[trigger] result[i]),
            key(#[trigger] result[j]),
        ) by {
            if j < inner.len() {
                assert(result[i] == inner[i] && result[j] == inner[j]);
            } else {
                assert(result[i] == inner[i]);
                assert(inner.contains(inner[i]));
                if inner[i] != item {
                    let k = choose|k: int| 0 <= k < rest.len() && rest[k] == inner[i];
                    assert(sorted[k] == inner[i]);
                    assert(sorted[sorted.len() - 1] == sorted.last());
                }
            }
        }
        assert forall|x: M| #[trigger] result.contains(x) implies x == item || sorted.contains(
            x,
        ) by {
            let k = choose|k: int| 0 <= k < result.len() && result[k] == x;
            if k < inner.len() {
                assert(inner.contains(inner[k]));
                if x != item {
                    let j = choose|j: int| 0 <= j < rest.len() && rest[j] == x;
                    assert(sorted[j] == x);
                }
            } else {
                assert(sorted[sorted.len() - 1] == x);
            }
        }
    } else {
        assert forall|i: int, j: int| 0 <= i < j < result.len() implies key_less(
            key(#[trigger] result[i]),
            key(#[trigger] result[j]),
        ) by {
            if j < sorted.len() {
                assert(result[i] == sorted[i] && result[j] == sorted[j]);
            } else {
                let last = sorted[sorted.len() - 1];
                assert(result[i] == sorted[i]);
                assert(!before(item, last));
                key_less_is_total(key(last), key(item));
                if i < sorted.len() - 1 {
                    key_less_is_transitive(key(sorted[i]), key(last), key(item));
                }
            }
        }
        assert forall|x: M| #[trigger] result.contains(x) implies x == item || sorted.contains(
            x,
        ) by {
            let k = choose|k: int| 0 <= k < result.len() && result[k] == x;
            if k < sorted.len() {
                assert(sorted[k] == x);
            }
        }
    }
}

/// Items with different keys come out of sorting with their keys going up.
pub proof fn sorting_brings_order<M>(
    items: Seq<M>,
    before: spec_fn(M, M) -> bool,
    key: spec_fn(M) -> Seq<Seq<char>>,
)
    requires
        goes_by_key(before, key),
        distinct_keys(items, key),
    ensures
        increasing(sorted_by(items, before), key),
    decreases items.len(),
{
    if items.len() > 0 {
        let rest = items.drop_last();
        assert forall|i: int, j: int| 0 <= i < j < rest.len() implies key(#[trigger] rest[i])
            != key(#[trigger] rest[j]) by {
            assert(rest[i] == items[i] && rest[j] == items[j]);
        }
        sorting_brings_order(rest, before, key);
        let sorted = sorted_by(rest, before);
        lemma_sorted_members(rest, before);
        assert forall|i: int| 0 <= i < sorted.len() implies key(#[trigger] sorted[i]) != key(
            items.last(),
        ) by {
            assert(sorted.contains(sorted[i]));
            let k = choose|k: int| 0 <= k < rest.len() && rest[k] == sorted[i];
            assert(items[k] == sorted[i]);
            assert(items[items.len() - 1] == items.last());
        }
        inserting_keeps_increasing(sorted, items.last(), before, key);
    }
}

/// Two lists with their keys going up and the same items are one.
proof fn increasing_is_unique<M>(
    left: Seq<M>,
    right: Seq<M>,
    key: spec_fn(M) -> Seq<Seq<char>>,
)
    requires
        increasing(left, key),
        increasing(right, key),
        forall|x: M| #[trigger] left.contains(x) <==> right.contains(x),
    ensures
        left == right,
    decreases left.len(),
{
    if left.len() == 0 {
        if right.len() > 0 {
            assert(right.contains(right[0]));
            assert(left.contains(right[0]));
        }
        assert(left =~= right);
    } else {
        assert(left.contains(left[0]));
        let k = choose|k: int| 0 <= k < right.len() && right[k] == left[0];
        assert(right.contains(right[0]));
        assert(left.contains(right[0]));
        let j = choose|j: int| 0 <= j < left.len() && left[j] == right[0];
        if k > 0 {
            assert(key_less(key(right[0]), key(right[k])));
            if j > 0 {
                assert(key_less(key(left[0]), key(left[j])));
                key_less_is_transitive(key(right[0]), key(left[0]), key(right[0]));
            }
            key_less_is_irreflexive(key(right[0]));
        }
        assert(left[0] == right[0]);
        let a = left.drop_first();
        let b = right.drop_first();
        assert forall|i: int, n: int| 0 <= i < n < a.len() implies key_less(
            key(#[trigger] a[i]),
            key(#[trigger] a[n]),
        ) by {
            assert(a[i] == left[i + 1] && a[n] == left[n + 1]);
        }
        assert forall|i: int, n: int| 0 <= i < n < b.len() implies key_less(
            key(#[trigger] b[i]),
            key(#[trigger] b[n]),
        ) by {
            assert(b[i] == right[i + 1] && b[n] == right[n + 1]);
        }
        assert forall|x: M| #[trigger] a.contains(x) <==> b.contains(x) by {
            key_less_is_irreflexive(key(x));
            if a.contains(x) {
                let i = choose|i: int| 0 <= i < a.len() && a[i] == x;
                assert(left[i + 1] == x);
                assert(left.contains(x));
                let n = choose|n: int| 0 <= n < right.len() && right[n] == x;
                if n == 0 {
                    assert(key_less(key(left[0]), key(left[i + 1])));
                }
                assert(b[n - 1] == x);
            }
            if b.contains(x) {
                let i = choose|i: int| 0 <= i < b.len() && b[i] == x;
                assert(right[i + 1] == x);
                assert(right.contains(x));
                assert(left.contains(x));
                let n = choose|n: int| 0 <= n < left.len() && left[n] == x;
                if n == 0 {
                    assert(key_less(key(right[0]), key(right[i + 1])));
                }
                assert(a[n - 1] == x);
            }
        }
        increasing_is_unique(a, b, key);
        assert(left =~= seq![left[0]] + a);
        assert(right =~= seq![right[0]] + b);
    }
}

/// In which order items with different keys come does not matter to sorting.
pub proof fn sorting_ignores_order<M>(
    left: Seq<M>,
    right: Seq<M>,
    before: spec_fn(M, M) -> bool,
    key: spec_fn(M) -> Seq<Seq<char>>,
)
    requires
        goes_by_key(before, key),
        distinct_keys(left, key),
        distinct_keys(right, key),
        forall|x: M| #[trigger] left.contains(x) <==> right.contains(x),
    ensures
        sorted_by(left, before) == sorted_by(right, before),
{
    sorting_brings_order(left, before, key);
    sorting_brings_order(right, before, key);
    lemma_sorted_members(left, before);
    lemma_sorted_members(right, before);
    let a = sorted_by(left, before);
    let b = sorted_by(right, before);
    assert forall|x: M| #[trigger] a.contains(x) <==> b.contains(x) by {
        assert(left.contains(x) <==> right.contains(x));
        assert(b.contains(x) <==> right.contains(x));
    }
    increasing_is_unique(a, b, key);
}

/// What is in order already stays as it is.
pub proof fn sorting_keeps_order<M>(
    items: Seq<M>,
    before: spec_fn(M, M) -> bool,
    key: spec_fn(M) -> Seq<Seq<char>>,
)
    requires
        goes_by_key(before, key),
        increasing(items, key),
    ensures
        sorted_by(items, before) == items,
{
    assert forall|i: int, j: int| 0 <= i < j < items.len() implies key(#[trigger] items[i]) != key(
        #[trigger] items[j],
    ) by {
        key_less_is_irreflexive(key(items[i]));
    }
    sorting_brings_order(items, before, key);
    lemma_sorted_members(items, before);
    increasing_is_unique(sorted_by(items, before), items, key);
}

// Items that may be listed more than once.

/// Whether no item comes before an earlier one.
pub open spec fn in_order<M>(items: Seq<M>, before: spec_fn(M, M) -> bool) -> bool {
    forall|i: int, j: int|
        0 <= i < j < items.len() ==> !before(#[trigger] items[j], #[trigger] items[i])
}

/// Whether items with the same key are the same.
pub open spec fn one_per_key<M>(items: Seq<M>, key: spec_fn(M) -> Seq<Seq<char>>) -> bool {
    forall|i: int, j: int|
        0 <= i < items.len() && 0 <= j < items.len() && key(#[trigger] items[i]) == key(
            #[trigger] items[j],
        ) ==> items[i] == items[j]
}

/// The items, each once where it stands several times in a row.
pub open spec fn without_repeats<M>(items: Seq<M>) -> Seq<M>
    decreases items.len(),
{
    if items.len() == 0 {
        seq![]
    } else {
        let before = without_repeats(items.drop_last());
        if before.len() > 0 && before.last() == items.last() {
            before
        } else {
            before.push(items.last())
        }
    }
}

proof fn lemma_in_order_rest<M>(items: Seq<M>, before: spec_fn(M, M) -> bool)
    requires
        items.len() > 0,
        in_order(items, before),
    ensures
        in_order(items.drop_last(), before),
{
    let rest = items.drop_last();
    assert forall|i: int, j: int| 0 <= i < j < rest.len() implies !before(
        #[trigger] rest[j],
        #[trigger] rest[i],
    ) by {
        assert(rest[i] == items[i] && rest[j] == items[j]);
    }
}

/// What is not before the last is before nothing that is in order with it.
proof fn lemma_not_before<M>(
    first: M,
    last: M,
    item: M,
    before: spec_fn(M, M) -> bool,
    key: spec_fn(M) -> Seq<Seq<char>>,
)
    requires
        goes_by_key(before, key),
        !before(last, first),
        !before(item, last),
    ensures
        !before(item, first),
{
    if before(item, first) {
        assert(key_less(key(item), key(first)));
        assert(!key_less(key(last), key(first)));
        assert(!key_less(key(item), key(last)));
        key_less_is_total(key(first), key(last));
        if key(first) != key(last) {
            key_less_is_transitive(key(item), key(first), key(last));
        }
    }
}

proof fn lemma_inserted_in_order<M>(
    sorted: Seq<M>,
    item: M,
    before: spec_fn(M, M) -> bool,
    key: spec_fn(M) -> Seq<Seq<char>>,
)
    requires
        goes_by_key(before, key),
        in_order(sorted, before),
    ensures
        in_order(inserted(sorted, item, before), before),
        forall|x: M|
            #[trigger] inserted(sorted, item, before).contains(x) ==> x == item
                || sorted.contains(x),
    decreases sorted.len(),
{
    let result = inserted(sorted, item, before);
    if sorted.len() > 0 && before(item, sorted.last()) {
        let rest = sorted.drop_last();
        let last = sorted.last();
        lemma_in_order_rest(sorted, before);
        lemma_inserted_in_order(rest, item, before, key);
        let inner = inserted(rest, item, before);
        assert(sorted[sorted.len() - 1] == last);
        assert forall|i: int, j: int| 0 <= i < j < result.len() implies !before(
            #[trigger] result[j],
            #[trigger] result[i],
        ) by {
            assert(result[i] == inner[i]);
            if j < inner.len() {
                assert(result[j] == inner[j]);
            } else {
                assert(inner.contains(inner[i]));
                if inner[i] == item {
                    if before(last, item) {
                        key_less_is_transitive(key(item), key(last), key(item));
                        key_less_is_irreflexive(key(item));
                    }
                } else {
                    let k = choose|k: int| 0 <= k < rest.len() && rest[k] == inner[i];
                    assert(sorted[k] == inner[i]);
                }
            }
        }
        assert forall|x: M| #[trigger] result.contains(x) implies x == item || sorted.contains(
            x,
        ) by {
            let k = choose|k: int| 0 <= k < result.len() && result[k] == x;
            if k < inner.len() {
                assert(inner.contains(inner[k]));
                if x != item {
                    let j = choose|j: int| 0 <= j < rest.len() && rest[j] == x;
                    assert(sorted[j] == x);
                }
            }
        }
    } else {
        assert forall|i: int, j: int| 0 <= i < j < result.len() implies !before(
            #[trigger] result[j],
            #[trigger] result[i],
        ) by {
            assert(result[i] == sorted[i]);
            if j < sorted.len() {
                assert(result[j] == sorted[j]);
            } else if i < sorted.len() - 1 {
                lemma_not_before(sorted[i], sorted[sorted.len() - 1], item, before, key);
            }
        }
        assert forall|x: M| #[trigger] result.contains(x) implies x == item || sorted.contains(
            x,
        ) by {
            let k = choose|k: int| 0 <= k < result.len() && result[k] == x;
            if k < sorted.len() {
                assert(sorted[k] == x);
            }
        }
    }
}

/// Sorting puts items in order, whatever their keys are.
pub proof fn sorting_puts_in_order<M>(
    items: Seq<M>,
    before: spec_fn(M, M) -> bool,
    key: spec_fn(M) -> Seq<Seq<char>>,
)
    requires
        goes_by_key(before, key),
    ensures
        in_order(sorted_by(items, before), before),
    decreases items.len(),
{
    if items.len() > 0 {
        sorting_puts_in_order(items.drop_last(), before, key);
        lemma_inserted_in_order(
            sorted_by(items.drop_last(), before),
            items.last(),
            before,
            key,
        );
    }
}

pub proof fn lemma_without_repeats<M>(items: Seq<M>)
    ensures
        forall|x: M| #[trigger] without_repeats(items).contains(x) <==> items.contains(x),
        items.len() > 0 ==> without_repeats(items).len() > 0 && without_repeats(items).last()
            == items.last(),
    decreases items.len(),
{
    if items.len() > 0 {
        let rest = items.drop_last();
        let item = items.last();
        lemma_without_repeats(rest);
        let before = without_repeats(rest);
        let all = without_repeats(items);
        assert(items[items.len() - 1] == item);
        assert(all[all.len() - 1] == item);
        assert forall|x: M| #[trigger] all.contains(x) <==> items.contains(x) by {
            if all.contains(x) {
                let k = choose|k: int| 0 <= k < all.len() && all[k] == x;
                if k < before.len() {
                    assert(before[k] == x);
                    assert(before.contains(x));
                    let i = choose|i: int| 0 <= i < rest.len() && rest[i] == x;
                    assert(items[i] == x);
                }
            }
            if items.contains(x) && x != item {
                let i = choose|i: int| 0 <= i < items.len() && items[i] == x;
                assert(rest[i] == x);
                assert(before.contains(x));
                let k = choose|k: int| 0 <= k < before.len() && before[k] == x;
                assert(all[k] == x);
            }
        }
    } else {
        assert forall|x: M| !(#[trigger] without_repeats(items).contains(x)) by {}
    }
}

proof fn lemma_repeats_increase<M>(
    items: Seq<M>,
    before: spec_fn(M, M) -> bool,
    key: spec_fn(M) -> Seq<Seq<char>>,
)
    requires
        goes_by_key(before, key),
        in_order(items, before),
        one_per_key(items, key),
    ensures
        increasing(without_repeats(items), key),
    decreases items.len(),
{
    if items.len() > 0 {
        let rest = items.drop_last();
        let item = items.last();
        lemma_in_order_rest(items, before);
        assert forall|i: int, j: int|
            0 <= i < rest.len() && 0 <= j < rest.len() && key(#[trigger] rest[i]) == key(
                #[trigger] rest[j],
            ) implies rest[i] == rest[j] by {
            assert(rest[i] == items[i] && rest[j] == items[j]);
        }
        lemma_repeats_increase(rest, before, key);
        lemma_without_repeats(rest);
        let old = without_repeats(rest);
        let all = without_repeats(items);
        assert(items[items.len() - 1] == item);
        if all != old {
            assert forall|i: int, j: int| 0 <= i < j < all.len() implies key_less(
                key(#[trigger] all[i]),
                key(#[trigger] all[j]),
            ) by {
                assert(all[i] == old[i]);
                if j < old.len() {
                    assert(all[j] == old[j]);
                } else {
                    let last = old[old.len() - 1];
                    lemma_stands_before(items, old[i], before, key);
                    lemma_stands_before(items, last, before, key);
                    if key(old[i]) == key(item) && i < old.len() - 1 {
                        assert(key_less(key(old[i]), key(last)));
                    }
                    key_less_is_total(key(old[i]), key(item));
                }
            }
        }
    }
}

proof fn lemma_stands_before<M>(
    items: Seq<M>,
    x: M,
    before: spec_fn(M, M) -> bool,
    key: spec_fn(M) -> Seq<Seq<char>>,
)
    requires
        goes_by_key(before, key),
        in_order(items, before),
        one_per_key(items, key),
        items.len() > 0,
        without_repeats(items.drop_last()).contains(x),
    ensures
        !key_less(key(items.last()), key(x)),
        key(x) == key(items.last()) ==> x == items.last(),
{
    let rest = items.drop_last();
    lemma_without_repeats(rest);
    assert(rest.contains(x));
    let k = choose|k: int| 0 <= k < rest.len() && rest[k] == x;
    assert(items[k] == x);
    assert(items[items.len() - 1] == items.last());
    assert(!before(items[items.len() - 1], items[k]));
}

/// How often an item is listed, and where, does not matter to sorting but for
/// repeats.
pub proof fn sorting_ignores_repeats<M>(
    left: Seq<M>,
    right: Seq<M>,
    before: spec_fn(M, M) -> bool,
    key: spec_fn(M) -> Seq<Seq<char>>,
)
    requires
        goes_by_key(before, key),
        one_per_key(left, key),
        one_per_key(right, key),
        forall|x: M| #[trigger] left.contains(x) <==> right.contains(x),
    ensures
        without_repeats(sorted_by(left, before)) == without_repeats(sorted_by(right, before)),
        increasing(without_repeats(sorted_by(left, before)), key),
{
    lemma_sorted_repeats(left, before, key);
    lemma_sorted_repeats(right, before, key);
    let a = without_repeats(sorted_by(left, before));
    let b = without_repeats(sorted_by(right, before));
    assert forall|x: M| #[trigger] a.contains(x) <==> b.contains(x) by {
        assert(left.contains(x) <==> right.contains(x));
        assert(b.contains(x) <==> right.contains(x));
    }
    increasing_is_unique(a, b, key);
}

/// Sorted items with their repeats left out have their keys going up.
pub proof fn lemma_sorted_repeats<M>(
    items: Seq<M>,
    before: spec_fn(M, M) -> bool,
    key: spec_fn(M) -> Seq<Seq<char>>,
)
    requires
        goes_by_key(before, key),
        one_per_key(items, key),
    ensures
        increasing(without_repeats(sorted_by(items, before)), key),
        forall|x: M|
            #[trigger] without_repeats(sorted_by(items, before)).contains(x) <==> items.contains(x),
{
    let sorted = sorted_by(items, before);
    sorting_puts_in_order(items, before, key);
    lemma_sorted_members(items, before);
    assert forall|i: int, j: int|
        0 <= i < sorted.len() && 0 <= j < sorted.len() && key(#[trigger] sorted[i]) == key(
            #[trigger] sorted[j],
        ) implies sorted[i] == sorted[j] by {
        assert(sorted.contains(sorted[i]) && sorted.contains(sorted[j]));
        let a = choose|a: int| 0 <= a < items.len() && items[a] == sorted[i];
        let b = choose|b: int| 0 <= b < items.len() && items[b] == sorted[j];
        assert(items[a] == items[b]);
    }
    lemma_repeats_increase(sorted, before, key);
    lemma_without_repeats(sorted);
    assert forall|x: M| #[trigger] without_repeats(sorted).contains(x) <==> items.contains(x) by {
        assert(sorted.contains(x) <==> items.contains(x));
    }
}

// Items of which, among those with the same key, the last one counts.

/// The last of the items with a key.
pub open spec fn last_with<M>(
    items: Seq<M>,
    key: spec_fn(M) -> Seq<Seq<char>>,
    wanted: Seq<Seq<char>>,
) -> Option<M>
    decreases items.len(),
{
    if items.len() == 0 {
        None
    } else if key(items.last()) == wanted {
        Some(items.last())
    } else {
        last_with(items.drop_last(), key, wanted)
    }
}

pub proof fn lemma_last_with<M>(
    items: Seq<M>,
    key: spec_fn(M) -> Seq<Seq<char>>,
    wanted: Seq<Seq<char>>,
)
    ensures
        match last_with(items, key, wanted) {
            Some(item) => items.contains(item) && key(item) == wanted,
            None => forall|i: int| 0 <= i < items.len() ==> key(#[trigger] items[i]) != wanted,
        },
    decreases items.len(),
{
    if items.len() > 0 {
        let rest = items.drop_last();
        assert(items[items.len() - 1] == items.last());
        if key(items.last()) != wanted {
            lemma_last_with(rest, key, wanted);
            match last_with(rest, key, wanted) {
                Some(item) => {
                    let k = choose|k: int| 0 <= k < rest.len() && rest[k] == item;
                    assert(items[k] == item);
                },
                None => {
                    assert forall|i: int| 0 <= i < items.len() implies key(#[trigger] items[i])
                        != wanted by {
                        if i < rest.len() {
                            assert(rest[i] == items[i]);
                        }
                    }
                },
            }
        }
    }
}

/// The last of two lists in a row is that of the second, where it has one.
pub proof fn lemma_last_with_both<M>(
    left: Seq<M>,
    right: Seq<M>,
    key: spec_fn(M) -> Seq<Seq<char>>,
    wanted: Seq<Seq<char>>,
)
    ensures
        last_with(left + right, key, wanted) == (match last_with(right, key, wanted) {
            Some(item) => Some(item),
            None => last_with(left, key, wanted),
        }),
    decreases right.len(),
{
    if right.len() == 0 {
        assert(left + right =~= left);
    } else {
        assert((left + right).drop_last() =~= left + right.drop_last());
        assert((left + right).last() == right.last());
        lemma_last_with_both(left, right.drop_last(), key, wanted);
    }
}

proof fn lemma_last_inserted<M>(
    sorted: Seq<M>,
    item: M,
    before: spec_fn(M, M) -> bool,
    key: spec_fn(M) -> Seq<Seq<char>>,
    wanted: Seq<Seq<char>>,
)
    requires
        goes_by_key(before, key),
    ensures
        last_with(inserted(sorted, item, before), key, wanted) == (if key(item) == wanted {
            Some(item)
        } else {
            last_with(sorted, key, wanted)
        }),
    decreases sorted.len(),
{
    if sorted.len() > 0 && before(item, sorted.last()) {
        let inner = inserted(sorted.drop_last(), item, before);
        key_less_is_irreflexive(key(item));
        lemma_last_inserted(sorted.drop_last(), item, before, key, wanted);
        assert(inner.push(sorted.last()).drop_last() =~= inner);
    } else {
        assert(sorted.push(item).drop_last() =~= sorted);
    }
}

/// Sorting keeps items with the same key as they were, so the last stays last.
pub proof fn sorting_keeps_the_last<M>(
    items: Seq<M>,
    before: spec_fn(M, M) -> bool,
    key: spec_fn(M) -> Seq<Seq<char>>,
    wanted: Seq<Seq<char>>,
)
    requires
        goes_by_key(before, key),
    ensures
        last_with(sorted_by(items, before), key, wanted) == last_with(items, key, wanted),
    decreases items.len(),
{
    if items.len() > 0 {
        let rest = items.drop_last();
        sorting_keeps_the_last(rest, before, key, wanted);
        lemma_last_inserted(sorted_by(rest, before), items.last(), before, key, wanted);
    }
}

/// The items with one more, in place of the last one where both have the same key.
pub open spec fn in_place<M>(items: Seq<M>, item: M, key: spec_fn(M) -> Seq<Seq<char>>) -> Seq<M> {
    if items.len() > 0 && key(items.last()) == key(item) {
        items.drop_last().push(item)
    } else {
        items.push(item)
    }
}

/// The items, and of those with the same key in a row only the last.
pub open spec fn last_of_each<M>(items: Seq<M>, key: spec_fn(M) -> Seq<Seq<char>>) -> Seq<M>
    decreases items.len(),
{
    if items.len() == 0 {
        seq![]
    } else {
        in_place(last_of_each(items.drop_last(), key), items.last(), key)
    }
}

/// Of items in order the last of each key are left, with their keys going up.
pub proof fn lemma_last_of_each<M>(
    items: Seq<M>,
    before: spec_fn(M, M) -> bool,
    key: spec_fn(M) -> Seq<Seq<char>>,
)
    requires
        goes_by_key(before, key),
        in_order(items, before),
    ensures
        increasing(last_of_each(items, key), key),
        forall|x: M|
            #[trigger] last_of_each(items, key).contains(x) <==> last_with(items, key, key(x))
                == Some(x),
        items.len() > 0 ==> last_of_each(items, key).len() > 0 && last_of_each(items, key).last()
            == items.last(),
    decreases items.len(),
{
    if items.len() > 0 {
        let rest = items.drop_last();
        let item = items.last();
        lemma_in_order_rest(items, before);
        lemma_last_of_each(rest, before, key);
        let old = last_of_each(rest, key);
        let all = last_of_each(items, key);
        assert forall|i: int| 0 <= i < old.len() implies !key_less(
            key(item),
            key(#[trigger] old[i]),
        ) by {
            assert(old.contains(old[i]));
            lemma_last_with(rest, key, key(old[i]));
            let k = choose|k: int| 0 <= k < rest.len() && rest[k] == old[i];
            assert(items[k] == old[i] && items[items.len() - 1] == item);
            assert(!before(items[items.len() - 1], items[k]));
        }
        lemma_last_joins(old, item, key);
        assert forall|x: M| #[trigger] all.contains(x) <==> last_with(items, key, key(x)) == Some(
            x,
        ) by {
            assert(old.contains(x) <==> last_with(rest, key, key(x)) == Some(x));
            assert(in_place(old, item, key).contains(x) <==> all.contains(x));
        }
    } else {
        assert forall|x: M| !(#[trigger] last_of_each(items, key).contains(x)) by {}
    }
}

/// One more item takes the place of the one with its key, or stands behind all.
proof fn lemma_last_joins<M>(old: Seq<M>, item: M, key: spec_fn(M) -> Seq<Seq<char>>)
    requires
        increasing(old, key),
        forall|i: int| 0 <= i < old.len() ==> !key_less(key(item), key(#[trigger] old[i])),
    ensures
        increasing(in_place(old, item, key), key),
        forall|x: M|
            #[trigger] in_place(old, item, key).contains(x) <==> (if key(x) == key(item) {
                x == item
            } else {
                old.contains(x)
            }),
{
    let joins = old.len() > 0 && key(old.last()) == key(item);
    let kept = if joins {
        old.drop_last()
    } else {
        old
    };
    let all = in_place(old, item, key);
    let n = old.len() - 1;
    assert forall|i: int| 0 <= i < kept.len() implies key_less(
        key(#[trigger] kept[i]),
        key(item),
    ) by {
        assert(kept[i] == old[i]);
        if joins {
            assert(key_less(key(old[i]), key(old[n])));
        } else {
            key_less_is_total(key(old[i]), key(item));
            if key(old[i]) == key(item) {
                assert(old[n] == old.last());
                assert(key_less(key(old[i]), key(old[n])));
            }
        }
    }
    assert forall|i: int, j: int| 0 <= i < j < all.len() implies key_less(
        key(#[trigger] all[i]),
        key(#[trigger] all[j]),
    ) by {
        assert(all[i] == kept[i]);
        if j < kept.len() {
            assert(all[j] == kept[j]);
            assert(old[i] == kept[i] && old[j] == kept[j]);
        }
    }
    assert forall|x: M| #[trigger] all.contains(x) <==> if key(x) == key(item) {
        x == item
    } else {
        old.contains(x)
    } by {
        key_less_is_irreflexive(key(item));
        if all.contains(x) && x != item {
            let k = choose|k: int| 0 <= k < all.len() && all[k] == x;
            assert(kept[k] == x && old[k] == x);
        }
        if key(x) == key(item) && x == item {
            assert(all[kept.len() as int] == x);
        }
        if key(x) != key(item) && old.contains(x) {
            let k = choose|k: int| 0 <= k < old.len() && old[k] == x;
            assert(k < kept.len()) by {
                if joins && k == n {
                    assert(old[n] == old.last());
                }
            }
            assert(all[k] == x);
        }
    }
}

/// Two lists in which the last item of each key is the same have these in the
/// same order once they are sorted.
pub proof fn sorting_goes_by_the_last<M>(
    left: Seq<M>,
    right: Seq<M>,
    before: spec_fn(M, M) -> bool,
    key: spec_fn(M) -> Seq<Seq<char>>,
)
    requires
        goes_by_key(before, key),
        forall|wanted: Seq<Seq<char>>| #[trigger]
            last_with(left, key, wanted) == last_with(right, key, wanted),
    ensures
        last_of_each(sorted_by(left, before), key) == last_of_each(sorted_by(right, before), key),
{
    let a = sorted_by(left, before);
    let b = sorted_by(right, before);
    sorting_puts_in_order(left, before, key);
    sorting_puts_in_order(right, before, key);
    lemma_last_of_each(a, before, key);
    lemma_last_of_each(b, before, key);
    assert forall|x: M| #[trigger]
        last_of_each(a, key).contains(x) <==> last_of_each(b, key).contains(x) by {
        sorting_keeps_the_last(left, before, key, key(x));
        sorting_keeps_the_last(right, before, key, key(x));
        assert(last_with(left, key, key(x)) == last_with(right, key, key(x)));
        assert(last_of_each(b, key).contains(x) <==> last_with(b, key, key(x)) == Some(x));
    }
    increasing_is_unique(last_of_each(a, key), last_of_each(b, key), key);
}

// Orders that do not go by keys.

/// Whether an order ranks: of two items at most one comes before the other, and
/// what is not before one that is not before a third is not before the third.
pub open spec fn is_ranking<M>(before: spec_fn(M, M) -> bool) -> bool {
    &&& forall|a: M, b: M| #[trigger] before(a, b) ==> !before(b, a)
    &&& forall|a: M, b: M, c: M|
        !(#[trigger] before(b, a)) && !(#[trigger] before(c, b)) ==> !before(c, a)
}

proof fn lemma_inserted_ranks<M>(sorted: Seq<M>, item: M, before: spec_fn(M, M) -> bool)
    requires
        is_ranking(before),
        in_order(sorted, before),
    ensures
        in_order(inserted(sorted, item, before), before),
        inserted(sorted, item, before).len() == sorted.len() + 1,
        forall|x: M|
            #[trigger] inserted(sorted, item, before).contains(x) ==> x == item
                || sorted.contains(x),
    decreases sorted.len(),
{
    let result = inserted(sorted, item, before);
    if sorted.len() > 0 && before(item, sorted.last()) {
        let rest = sorted.drop_last();
        let last = sorted.last();
        lemma_in_order_rest(sorted, before);
        lemma_inserted_ranks(rest, item, before);
        let inner = inserted(rest, item, before);
        assert(sorted[sorted.len() - 1] == last);
        assert forall|i: int, j: int| 0 <= i < j < result.len() implies !before(
            #[trigger] result[j],
            #[trigger] result[i],
        ) by {
            assert(result[i] == inner[i]);
            if j < inner.len() {
                assert(result[j] == inner[j]);
            } else {
                assert(inner.contains(inner[i]));
                if inner[i] != item {
                    let k = choose|k: int| 0 <= k < rest.len() && rest[k] == inner[i];
                    assert(sorted[k] == inner[i]);
                }
            }
        }
        assert forall|x: M| #[trigger] result.contains(x) implies x == item || sorted.contains(
            x,
        ) by {
            let k = choose|k: int| 0 <= k < result.len() && result[k] == x;
            if k < inner.len() {
                assert(inner.contains(inner[k]));
                if x != item {
                    let j = choose|j: int| 0 <= j < rest.len() && rest[j] == x;
                    assert(sorted[j] == x);
                }
            }
        }
    } else {
        assert forall|i: int, j: int| 0 <= i < j < result.len() implies !before(
            #[trigger] result[j],
            #[trigger] result[i],
        ) by {
            assert(result[i] == sorted[i]);
            if j < sorted.len() {
                assert(result[j] == sorted[j]);
            } else if i < sorted.len() - 1 {
                assert(!before(sorted[sorted.len() - 1], sorted[i]));
                assert(!before(item, sorted[sorted.len() - 1]));
            }
        }
        assert forall|x: M| #[trigger] result.contains(x) implies x == item || sorted.contains(
            x,
        ) by {
            let k = choose|k: int| 0 <= k < result.len() && result[k] == x;
            if k < sorted.len() {
                assert(sorted[k] == x);
            }
        }
    }
}

/// Sorting by an order that ranks puts items in order, and loses none.
pub proof fn sorting_puts_in_rank<M>(items: Seq<M>, before: spec_fn(M, M) -> bool)
    requires
        is_ranking(before),
    ensures
        in_order(sorted_by(items, before), before),
        sorted_by(items, before).len() == items.len(),
    decreases items.len(),
{
    if items.len() > 0 {
        sorting_puts_in_rank(items.drop_last(), before);
        lemma_inserted_ranks(sorted_by(items.drop_last(), before), items.last(), before);
    }
}

// Leaving out.

/// What is left of a list is what was wanted of it.
pub proof fn filtering_keeps_what_is_wanted<M>(items: Seq<M>, wanted: spec_fn(M) -> bool)
    ensures
        forall|x: M| #[trigger] items.filter(wanted).contains(x) <==> items.contains(x) && wanted(x),
    decreases items.len(),
{
    reveal(Seq::filter);
    let all = items.filter(wanted);
    if items.len() > 0 {
        let rest = items.drop_last();
        let before = rest.filter(wanted);
        let item = items.last();
        filtering_keeps_what_is_wanted(rest, wanted);
        assert(items[items.len() - 1] == item);
        assert forall|x: M| #[trigger] all.contains(x) <==> items.contains(x) && wanted(x) by {
            assert(before.contains(x) <==> rest.contains(x) && wanted(x));
            if all.contains(x) {
                let k = choose|k: int| 0 <= k < all.len() && all[k] == x;
                if k < before.len() {
                    assert(before[k] == x);
                    assert(before.contains(x));
                    let i = choose|i: int| 0 <= i < rest.len() && rest[i] == x;
                    assert(items[i] == x);
                }
            }
            if items.contains(x) && wanted(x) {
                let i = choose|i: int| 0 <= i < items.len() && items[i] == x;
                if i < rest.len() {
                    assert(rest[i] == x);
                    let k = choose|k: int| 0 <= k < before.len() && before[k] == x;
                    assert(all[k] == x);
                } else {
                    assert(all[before.len() as int] == x);
                }
            }
        }
    } else {
        assert forall|x: M| !(#[trigger] all.contains(x)) by {}
    }
}

/// Whether an order goes by a text first of all.
pub open spec fn goes_first_by<M>(
    before: spec_fn(M, M) -> bool,
    key: spec_fn(M) -> Seq<char>,
) -> bool {
    &&& forall|a: M, b: M| text_less(#[trigger] key(a), #[trigger] key(b)) ==> before(a, b)
    &&& forall|a: M, b: M| #[trigger] before(a, b) ==> !text_less(key(b), key(a))
}

proof fn lemma_inserted_by<M>(
    sorted: Seq<M>,
    item: M,
    before: spec_fn(M, M) -> bool,
    key: spec_fn(M) -> Seq<char>,
)
    requires
        goes_first_by(before, key),
        forall|i: int, j: int|
            0 <= i < j < sorted.len() ==> !text_less(
                key(#[trigger] sorted[j]),
                key(#[trigger] sorted[i]),
            ),
    ensures
        forall|i: int, j: int|
            0 <= i < j < inserted(sorted, item, before).len() ==> !text_less(
                key(#[trigger] inserted(sorted, item, before)[j]),
                key(#[trigger] inserted(sorted, item, before)[i]),
            ),
        forall|i: int|
            0 <= i < inserted(sorted, item, before).len() ==> (#[trigger] inserted(
                sorted,
                item,
                before,
            )[i]) == item || sorted.contains(inserted(sorted, item, before)[i]),
    decreases sorted.len(),
{
    let all = inserted(sorted, item, before);
    if sorted.len() > 0 && before(item, sorted.last()) {
        let rest = sorted.drop_last();
        let head = inserted(rest, item, before);
        let last = sorted.last();
        assert forall|i: int, j: int| 0 <= i < j < rest.len() implies !text_less(
            key(#[trigger] rest[j]),
            key(#[trigger] rest[i]),
        ) by {
            assert(rest[i] == sorted[i] && rest[j] == sorted[j]);
        }
        lemma_inserted_by(rest, item, before, key);
        assert(sorted[sorted.len() - 1] == last);
        assert forall|i: int| 0 <= i < all.len() implies (#[trigger] all[i]) == item
            || sorted.contains(all[i]) by {
            if i < head.len() {
                assert(all[i] == head[i]);
                if head[i] != item {
                    let k = choose|k: int| 0 <= k < rest.len() && rest[k] == head[i];
                    assert(sorted[k] == head[i]);
                }
            }
        }
        assert forall|i: int, j: int| 0 <= i < j < all.len() implies !text_less(
            key(#[trigger] all[j]),
            key(#[trigger] all[i]),
        ) by {
            assert(all[i] == head[i]);
            if j < head.len() {
                assert(all[j] == head[j]);
            } else if head[i] != item {
                let k = choose|k: int| 0 <= k < rest.len() && rest[k] == head[i];
                assert(sorted[k] == head[i]);
                assert(!text_less(key(sorted[sorted.len() - 1]), key(sorted[k])));
            }
        }
    } else {
        assert forall|i: int| 0 <= i < all.len() implies (#[trigger] all[i]) == item
            || sorted.contains(all[i]) by {
            if i < sorted.len() {
                assert(all[i] == sorted[i]);
            }
        }
        assert forall|i: int, j: int| 0 <= i < j < all.len() implies !text_less(
            key(#[trigger] all[j]),
            key(#[trigger] all[i]),
        ) by {
            assert(all[i] == sorted[i]);
            if j < sorted.len() {
                assert(all[j] == sorted[j]);
            } else {
                let last = sorted.last();
                assert(sorted[sorted.len() - 1] == last);
                assert(!text_less(key(item), key(last)));
                text_less_is_total(key(last), key(sorted[i]));
                if i < sorted.len() - 1 {
                    assert(!text_less(key(sorted[sorted.len() - 1]), key(sorted[i])));
                }
                if text_less(key(item), key(sorted[i])) && text_less(key(sorted[i]), key(last)) {
                    text_less_is_transitive(key(item), key(sorted[i]), key(last));
                }
            }
        }
    }
}

/// What is sorted by an order that goes by a text first of all stands in the order
/// of that text.
pub proof fn sorting_goes_by_the_first_key<M>(
    items: Seq<M>,
    before: spec_fn(M, M) -> bool,
    key: spec_fn(M) -> Seq<char>,
)
    requires
        goes_first_by(before, key),
    ensures
        forall|i: int, j: int|
            0 <= i < j < sorted_by(items, before).len() ==> !text_less(
                key(#[trigger] sorted_by(items, before)[j]),
                key(#[trigger] sorted_by(items, before)[i]),
            ),
    decreases items.len(),
{
    if items.len() > 0 {
        sorting_goes_by_the_first_key(items.drop_last(), before, key);
        lemma_inserted_by(sorted_by(items.drop_last(), before), items.last(), before, key);
    }
}

} // verus!
