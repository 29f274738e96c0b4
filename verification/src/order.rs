//! The order of texts, and sorting.

use vstd::prelude::*;

use crate::text::chars_of;

verus! {

/// `left` comes before `right`: by the first character in which they differ,
/// or as a proper prefix of it.
pub open spec fn text_less(left: Seq<char>, right: Seq<char>) -> bool
    decreases left.len(),
{
    if right.len() == 0 {
        false
    } else if left.len() == 0 {
        true
    } else if left[0] == right[0] {
        text_less(left.drop_first(), right.drop_first())
    } else {
        left[0] < right[0]
    }
}

pub fn is_less(left: &str, right: &str) -> (less: bool)
    ensures
        less == text_less(left@, right@),
{
    let a = chars_of(left);
    let b = chars_of(right);
    let mut i: usize = 0;
    assert(left@.skip(0) =~= left@);
    assert(right@.skip(0) =~= right@);
    while i < a.len() && i < b.len()
        invariant
            a@ == left@,
            b@ == right@,
            i <= a.len(),
            i <= b.len(),
            text_less(left@, right@) == text_less(left@.skip(i as int), right@.skip(i as int)),
        decreases a.len() - i,
    {
        if a[i] != b[i] {
            return a[i] < b[i];
        }
        assert(left@.skip(i as int).drop_first() =~= left@.skip(i + 1));
        assert(right@.skip(i as int).drop_first() =~= right@.skip(i + 1));
        i = i + 1;
    }
    i < b.len()
}

/// No text comes before itself.
pub proof fn text_less_is_irreflexive(text: Seq<char>)
    ensures
        !text_less(text, text),
    decreases text.len(),
{
    if text.len() > 0 {
        text_less_is_irreflexive(text.drop_first());
    }
}

/// Of two different texts one comes before the other, and only one.
pub proof fn text_less_is_total(left: Seq<char>, right: Seq<char>)
    ensures
        left != right ==> text_less(left, right) != text_less(right, left),
        left == right ==> !text_less(left, right),
    decreases left.len(),
{
    if left.len() > 0 && right.len() > 0 && left[0] == right[0] {
        text_less_is_total(left.drop_first(), right.drop_first());
        if left.drop_first() == right.drop_first() {
            assert(left =~= seq![left[0]] + left.drop_first());
            assert(right =~= seq![right[0]] + right.drop_first());
        }
    } else if left.len() == 0 && right.len() == 0 {
        assert(left =~= right);
    }
}

pub proof fn text_less_is_transitive(a: Seq<char>, b: Seq<char>, c: Seq<char>)
    requires
        text_less(a, b),
        text_less(b, c),
    ensures
        text_less(a, c),
    decreases a.len(),
{
    if a.len() > 0 && b.len() > 0 && c.len() > 0 && a[0] == b[0] && b[0] == c[0] {
        text_less_is_transitive(a.drop_first(), b.drop_first(), c.drop_first());
    }
}

/// A missing text comes before any other.
pub open spec fn optional_less(left: Option<Seq<char>>, right: Option<Seq<char>>) -> bool {
    match (left, right) {
        (None, Some(_)) => true,
        (Some(left), Some(right)) => text_less(left, right),
        _ => false,
    }
}

pub fn is_optional_less(left: &Option<String>, right: &Option<String>) -> (less: bool)
    ensures
        less == optional_less(left.deep_view(), right.deep_view()),
{
    match (left, right) {
        (None, Some(_)) => true,
        (Some(left), Some(right)) => is_less(left.as_str(), right.as_str()),
        _ => false,
    }
}

// Sorting.

/// A type whose values have an order, given over what contracts see of them.
pub trait Ranked: DeepView + Sized {
    spec fn ranks_before(left: Self::V, right: Self::V) -> bool;

    fn is_before(&self, other: &Self) -> (before: bool)
        ensures
            before == Self::ranks_before(self.deep_view(), other.deep_view()),
    ;
}

/// `sorted` with `item` put behind everything that it does not come before.
pub open spec fn inserted<M>(sorted: Seq<M>, item: M, before: spec_fn(M, M) -> bool) -> Seq<M>
    decreases sorted.len(),
{
    if sorted.len() > 0 && before(item, sorted.last()) {
        inserted(sorted.drop_last(), item, before).push(sorted.last())
    } else {
        sorted.push(item)
    }
}

/// The items in order; those of equal rank stay as they were.
pub open spec fn sorted_by<M>(items: Seq<M>, before: spec_fn(M, M) -> bool) -> Seq<M>
    decreases items.len(),
{
    if items.len() == 0 {
        seq![]
    } else {
        inserted(sorted_by(items.drop_last(), before), items.last(), before)
    }
}

/// The items in the order of their type.
pub open spec fn ranked<T: Ranked>(items: Seq<T::V>) -> Seq<T::V> {
    sorted_by(items, |left: T::V, right: T::V| T::ranks_before(left, right))
}

proof fn lemma_inserted_at<M>(sorted: Seq<M>, item: M, before: spec_fn(M, M) -> bool, at: int)
    requires
        0 <= at <= sorted.len(),
        forall|i: int| at <= i < sorted.len() ==> before(item, #[trigger] sorted[i]),
        at > 0 ==> !before(item, sorted[at - 1]),
    ensures
        inserted(sorted, item, before) == sorted.insert(at, item),
    decreases sorted.len(),
{
    if at == sorted.len() {
        assert(sorted.push(item) =~= sorted.insert(at, item));
    } else {
        let rest = sorted.drop_last();
        assert forall|i: int| at <= i < rest.len() implies before(item, #[trigger] rest[i]) by {
            assert(rest[i] == sorted[i]);
        }
        lemma_inserted_at(rest, item, before, at);
        assert(rest.insert(at, item).push(sorted.last()) =~= sorted.insert(at, item));
    }
}

/// Puts an item into a sorted vector.
pub fn insert_ranked<T: Ranked>(sorted: &mut Vec<T>, item: T)
    ensures
        final(sorted).deep_view() == inserted(
            old(sorted).deep_view(),
            item.deep_view(),
            |left: T::V, right: T::V| T::ranks_before(left, right),
        ),
{
    let mut at: usize = sorted.len();
    while at > 0 && item.is_before(&sorted[at - 1])
        invariant
            at <= sorted.len(),
            forall|i: int|
                at <= i < sorted.len() ==> T::ranks_before(
                    item.deep_view(),
                    #[trigger] sorted.deep_view()[i],
                ),
        decreases at,
    {
        at = at - 1;
    }
    let ghost all = sorted.deep_view();
    let ghost model = item.deep_view();
    proof {
        assert(at > 0 ==> all[at - 1] == sorted[at - 1].deep_view());
        lemma_inserted_at(
            all,
            model,
            |left: T::V, right: T::V| T::ranks_before(left, right),
            at as int,
        );
    }
    sorted.insert(at, item);
    assert(sorted.deep_view() =~= all.insert(at as int, model));
}

fn reverse<T: DeepView>(items: Vec<T>) -> (reversed: Vec<T>)
    ensures
        reversed.deep_view() == items.deep_view().reverse(),
{
    let ghost all = items.deep_view();
    let mut rest = items;
    let mut reversed: Vec<T> = Vec::new();
    while rest.len() > 0
        invariant
            rest.len() + reversed.len() == all.len(),
            rest.deep_view() == all.take(rest.len() as int),
            forall|i: int|
                0 <= i < reversed.len() ==> (#[trigger] reversed.deep_view()[i]) == all[all.len() - 1
                    - i],
        decreases rest.len(),
    {
        let ghost before_rest = rest.deep_view();
        let ghost before = reversed.deep_view();
        match rest.pop() {
            Some(item) => {
                let ghost model = item.deep_view();
                reversed.push(item);
                proof {
                    assert(reversed.deep_view() =~= before.push(model));
                    assert(model == before_rest.last());
                    assert(rest.deep_view() =~= before_rest.drop_last());
                    assert(rest.deep_view() =~= all.take(rest.len() as int));
                }
            },
            None => {},
        }
    }
    assert(reversed.deep_view() =~= all.reverse());
    reversed
}

/// Sorts a vector; items of equal rank keep their order.
pub fn sort<T: Ranked>(items: Vec<T>) -> (sorted: Vec<T>)
    ensures
        sorted.deep_view() == ranked::<T>(items.deep_view()),
{
    let ghost all = items.deep_view();
    let mut reversed = reverse(items);
    assert(reversed.deep_view().len() == reversed.len());
    assert(all.reverse().take(all.len() as int) =~= all.reverse());
    let mut sorted: Vec<T> = Vec::new();
    let ghost less = |left: T::V, right: T::V| T::ranks_before(left, right);
    assert(all.take(0) =~= seq![]);
    assert(sorted.deep_view() =~= seq![]);
    while reversed.len() > 0
        invariant
            reversed.len() <= all.len(),
            less == (|left: T::V, right: T::V| T::ranks_before(left, right)),
            reversed.deep_view() == all.reverse().take(reversed.len() as int),
            sorted.deep_view() == sorted_by(all.take(all.len() - reversed.len()), less),
        decreases reversed.len(),
    {
        let ghost before = reversed.deep_view();
        let ghost done = all.len() - reversed.len();
        match reversed.pop() {
            Some(item) => {
                proof {
                    assert(item.deep_view() == before.last());
                    assert(item.deep_view() == all[done]);
                    assert(all.take(done + 1).drop_last() =~= all.take(done));
                    assert(reversed.deep_view() =~= before.drop_last());
                    assert(reversed.deep_view() =~= all.reverse().take(reversed.len() as int));
                }
                insert_ranked(&mut sorted, item);
            },
            None => {},
        }
    }
    assert(all.take(all.len() as int) =~= all);
    sorted
}

impl Ranked for String {
    open spec fn ranks_before(left: Seq<char>, right: Seq<char>) -> bool {
        text_less(left, right)
    }

    fn is_before(&self, other: &Self) -> (before: bool) {
        is_less(self.as_str(), other.as_str())
    }
}

// What sorting keeps, and what it brings about.

proof fn lemma_inserted_members<M>(sorted: Seq<M>, item: M, before: spec_fn(M, M) -> bool)
    ensures
        inserted(sorted, item, before).len() == sorted.len() + 1,
        forall|x: M|
            #[trigger] inserted(sorted, item, before).contains(x) <==> x == item
                || sorted.contains(x),
    decreases sorted.len(),
{
    let result = inserted(sorted, item, before);
    if sorted.len() > 0 && before(item, sorted.last()) {
        let rest = sorted.drop_last();
        lemma_inserted_members(rest, item, before);
        let inner = inserted(rest, item, before);
        assert forall|x: M| #[trigger] result.contains(x) <==> x == item || sorted.contains(x) by {
            if result.contains(x) {
                let k = choose|k: int| 0 <= k < result.len() && result[k] == x;
                if k < inner.len() {
                    assert(inner[k] == x);
                    assert(inner.contains(x));
                    if rest.contains(x) {
                        let j = choose|j: int| 0 <= j < rest.len() && rest[j] == x;
                        assert(sorted[j] == x);
                    }
                } else {
                    assert(sorted[sorted.len() - 1] == x);
                }
            }
            if x == item || sorted.contains(x) {
                if x == item || rest.contains(x) {
                    assert(inner.contains(x));
                    let j = choose|j: int| 0 <= j < inner.len() && inner[j] == x;
                    assert(result[j] == x);
                } else {
                    let j = choose|j: int| 0 <= j < sorted.len() && sorted[j] == x;
                    assert(j == sorted.len() - 1) by {
                        if j < sorted.len() - 1 {
                            assert(rest[j] == x);
                        }
                    }
                    assert(result[result.len() - 1] == x);
                }
            }
        }
    } else {
        assert forall|x: M| #[trigger] result.contains(x) <==> x == item || sorted.contains(x) by {
            if result.contains(x) {
                let k = choose|k: int| 0 <= k < result.len() && result[k] == x;
                if k < sorted.len() {
                    assert(sorted[k] == x);
                }
            }
            if sorted.contains(x) {
                let j = choose|j: int| 0 <= j < sorted.len() && sorted[j] == x;
                assert(result[j] == x);
            }
            assert(result[sorted.len() as int] == item);
        }
    }
}

/// Sorting neither adds nor drops an item.
pub proof fn lemma_sorted_members<M>(items: Seq<M>, before: spec_fn(M, M) -> bool)
    ensures
        sorted_by(items, before).len() == items.len(),
        forall|x: M| #[trigger] sorted_by(items, before).contains(x) <==> items.contains(x),
    decreases items.len(),
{
    if items.len() > 0 {
        let rest = items.drop_last();
        lemma_sorted_members(rest, before);
        lemma_inserted_members(sorted_by(rest, before), items.last(), before);
        assert forall|x: M| #[trigger] sorted_by(items, before).contains(x) <==> items.contains(
            x,
        ) by {
            if items.contains(x) {
                let k = choose|k: int| 0 <= k < items.len() && items[k] == x;
                if k < rest.len() {
                    assert(rest[k] == x);
                    assert(rest.contains(x));
                }
            }
            if rest.contains(x) {
                let k = choose|k: int| 0 <= k < rest.len() && rest[k] == x;
                assert(items[k] == x);
            }
            assert(items[items.len() - 1] == items.last());
        }
    }
}

// Grouping what has been sorted.

/// Ranked values that fall into groups. Of two that stand for the same entry the
/// later one counts.
pub trait Grouped: Ranked {
    spec fn together(left: Self::V, right: Self::V) -> bool;

    spec fn same_entry(left: Self::V, right: Self::V) -> bool;

    fn is_together(&self, other: &Self) -> (together: bool)
        ensures
            together == Self::together(self.deep_view(), other.deep_view()),
    ;

    fn is_same_entry(&self, other: &Self) -> (same: bool)
        ensures
            same == Self::same_entry(self.deep_view(), other.deep_view()),
    ;
}

/// A group with one more item, which takes the place of the last one where both
/// are the same entry.
pub open spec fn joined_by<T: Grouped>(group: Seq<T::V>, item: T::V) -> Seq<T::V> {
    if T::same_entry(group.last(), item) {
        group.drop_last().push(item)
    } else {
        group.push(item)
    }
}

/// The runs of sorted items that belong together.
pub open spec fn groups_of<T: Grouped>(items: Seq<T::V>) -> Seq<Seq<T::V>>
    decreases items.len(),
{
    if items.len() == 0 {
        seq![]
    } else {
        let before = groups_of::<T>(items.drop_last());
        let item = items.last();
        if before.len() > 0 && before.last().len() > 0 && T::together(
            before.last().last(),
            item,
        ) {
            before.drop_last().push(joined_by::<T>(before.last(), item))
        } else {
            before.push(seq![item])
        }
    }
}

/// The groups of some items, each in order.
pub open spec fn grouped<T: Grouped>(items: Seq<T::V>) -> Seq<Seq<T::V>> {
    groups_of::<T>(ranked::<T>(items))
}

/// Sorts the items and puts them into groups.
pub fn group<T: Grouped>(items: Vec<T>) -> (groups: Vec<Vec<T>>)
    ensures
        groups.deep_view() == grouped::<T>(items.deep_view()),
{
    let sorted = sort(items);
    let ghost all = sorted.deep_view();
    let mut rest = reverse(sorted);
    assert(rest.deep_view().len() == rest.len());
    assert(all.reverse().take(all.len() as int) =~= all.reverse());
    let mut groups: Vec<Vec<T>> = Vec::new();
    assert(all.take(0) =~= seq![]);
    assert(groups.deep_view() =~= seq![]);
    while rest.len() > 0
        invariant
            rest.len() <= all.len(),
            rest.deep_view() == all.reverse().take(rest.len() as int),
            groups.deep_view() == groups_of::<T>(all.take(all.len() - rest.len())),
        decreases rest.len(),
    {
        let ghost before_rest = rest.deep_view();
        let ghost done = all.len() - rest.len();
        let ghost before = groups.deep_view();
        match rest.pop() {
            Some(item) => {
                let ghost model = item.deep_view();
                proof {
                    assert(model == before_rest.last());
                    assert(model == all[done]);
                    assert(rest.deep_view() =~= before_rest.drop_last());
                    assert(rest.deep_view() =~= all.reverse().take(rest.len() as int));
                    assert(all.take(done + 1).drop_last() =~= all.take(done));
                }
                match groups.pop() {
                    Some(last) => {
                        let mut last = last;
                        let ghost members = last.deep_view();
                        proof {
                            assert(members == before.last());
                            assert(groups.deep_view() =~= before.drop_last());
                        }
                        let joins = last.len() > 0 && last[last.len() - 1].is_together(&item);
                        if joins {
                            assert(members.last() == last[last.len() - 1].deep_view());
                            if last[last.len() - 1].is_same_entry(&item) {
                                last.pop();
                                assert(last.deep_view() =~= members.drop_last());
                            }
                            let ghost base = last.deep_view();
                            last.push(item);
                            assert(last.deep_view() =~= base.push(model));
                            assert(last.deep_view() =~= joined_by::<T>(members, model));
                            groups.push(last);
                            assert(groups.deep_view() =~= before.drop_last().push(
                                joined_by::<T>(members, model),
                            ));
                        } else {
                            groups.push(last);
                            assert(groups.deep_view() =~= before);
                            let mut fresh: Vec<T> = Vec::new();
                            fresh.push(item);
                            assert(fresh.deep_view() =~= seq![model]);
                            groups.push(fresh);
                            assert(groups.deep_view() =~= before.push(seq![model]));
                        }
                    },
                    None => {
                        let mut fresh: Vec<T> = Vec::new();
                        fresh.push(item);
                        assert(fresh.deep_view() =~= seq![model]);
                        groups.push(fresh);
                        assert(groups.deep_view() =~= before.push(seq![model]));
                    },
                }
            },
            None => {},
        }
    }
    assert(all.take(all.len() as int) =~= all);
    groups
}

} // verus!
