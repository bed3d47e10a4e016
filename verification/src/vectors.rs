//! Vectors of plain values.
use vstd::prelude::*;

verus! {

/// A copy of a vector.
pub fn copied<T: Copy>(items: &Vec<T>) -> (copy: Vec<T>)
    ensures
        copy@ == items@,
{
    let mut copy: Vec<T> = Vec::new();
    for i in 0..items.len()
        invariant
            copy@ == items@.take(i as int),
    {
        copy.push(items[i]);
        proof {
            assert(items@.take(i as int + 1) =~= items@.take(i as int).push(items@[i as int]));
        }
    }
    proof {
        assert(items@.take(items@.len() as int) =~= items@);
    }
    copy
}

/// What is kept of a sequence is one stretch of it, where the rest is not kept.
pub proof fn lemma_kept_stretch<T>(items: Seq<T>, keep: spec_fn(T) -> bool, first: int, last: int)
    requires
        0 <= first <= last <= items.len(),
        forall|i: int|
            #![trigger items[i]]
            0 <= i < items.len() ==> (keep(items[i]) <==> first <= i < last),
    ensures
        items.filter(keep) == items.subrange(first, last),
    decreases items.len(),
{
    reveal(Seq::filter);
    if items.len() > 0 {
        let rest = items.drop_last();
        assert(keep(items.last()) <==> last == items.len() && first < last);
        if first <= rest.len() {
            let end = if last == items.len() {
                last - 1
            } else {
                last
            };
            if first < last {
                lemma_kept_stretch(rest, keep, first, if first <= end {
                    end
                } else {
                    first
                });
            } else {
                lemma_kept_stretch(rest, keep, first, first);
            }
            assert(items.filter(keep) =~= items.subrange(first, last));
        } else {
            lemma_kept_stretch(rest, keep, 0, 0);
            assert(items.filter(keep) =~= items.subrange(first, last));
        }
    } else {
        assert(items.filter(keep) =~= items.subrange(first, last));
    }
}

/// What is kept of a sequence is some of it.
pub proof fn lemma_kept_are_some<T>(items: Seq<T>, keep: spec_fn(T) -> bool, i: int)
    requires
        0 <= i < items.filter(keep).len(),
    ensures
        keep(items.filter(keep)[i]),
        exists|k: int| 0 <= k < items.len() && #[trigger] items[k] == items.filter(keep)[i],
    decreases items.len(),
{
    reveal(Seq::filter);
    if items.len() > 0 {
        let rest = items.drop_last();
        if i < rest.filter(keep).len() {
            lemma_kept_are_some(rest, keep, i);
            let k = choose|k: int| 0 <= k < rest.len() && #[trigger] rest[k] == rest.filter(keep)[i];
            assert(items[k] == items.filter(keep)[i]);
        } else {
            assert(items[items.len() - 1] == items.filter(keep)[i]);
        }
    }
}

/// What two sequences hold together is what either holds.
pub proof fn lemma_joined_contains<T>(a: Seq<T>, b: Seq<T>, x: T)
    ensures
        (a + b).contains(x) <==> a.contains(x) || b.contains(x),
{
    if a.contains(x) {
        let i = choose|i: int| 0 <= i < a.len() && a[i] == x;
        assert((a + b)[i] == x);
    }
    if b.contains(x) {
        let i = choose|i: int| 0 <= i < b.len() && b[i] == x;
        assert((a + b)[a.len() + i] == x);
    }
    if (a + b).contains(x) {
        let i = choose|i: int| 0 <= i < (a + b).len() && (a + b)[i] == x;
        if i < a.len() {
            assert(a[i] == x);
        } else {
            assert(b[i - a.len()] == x);
        }
    }
}

/// It does not matter whether items are mapped before or after some are kept.
pub proof fn lemma_kept_and_mapped<T, U>(
    items: Seq<T>,
    image: spec_fn(T) -> U,
    keep: spec_fn(T) -> bool,
    keep_image: spec_fn(U) -> bool,
)
    requires
        forall|i: int|
            #![trigger items[i]]
            0 <= i < items.len() ==> keep(items[i]) == keep_image(image(items[i])),
    ensures
        items.filter(keep).map_values(image) == items.map_values(image).filter(keep_image),
    decreases items.len(),
{
    reveal(Seq::filter);
    if items.len() > 0 {
        let rest = items.drop_last();
        assert forall|i: int| #![trigger rest[i]] 0 <= i < rest.len() implies keep(rest[i])
            == keep_image(image(rest[i])) by {
            assert(rest[i] == items[i]);
        }
        lemma_kept_and_mapped(rest, image, keep, keep_image);
        assert(items.map_values(image).drop_last() =~= rest.map_values(image));
        assert(keep(items[items.len() - 1]) == keep_image(image(items[items.len() - 1])));
        assert(items.filter(keep).map_values(image) =~= items.map_values(image).filter(keep_image));
    } else {
        assert(items.filter(keep).map_values(image) =~= items.map_values(image).filter(keep_image));
    }
}

/// Each entry is less than the next.
pub open spec fn increasing(values: Seq<i32>) -> bool {
    forall|i: int, j: int| 0 <= i < j < values.len() ==> values[i] < values[j]
}

/// Puts a value into an increasing vector where it belongs, unless it is there.
pub fn put_in_order(values: &mut Vec<i32>, value: i32)
    requires
        increasing(old(values)@),
    ensures
        increasing(final(values)@),
        final(values)@.to_set() == old(values)@.to_set().insert(value),
{
    let mut i: usize = 0;
    while i < values.len() && values[i] < value
        invariant
            i <= values@.len(),
            values@ == old(values)@,
            forall|j: int| 0 <= j < i ==> values@[j] < value,
        decreases values@.len() - i,
    {
        i = i + 1;
    }
    let ghost before = values@;
    if i < values.len() && values[i] == value {
        proof {
            assert(before.to_set() =~= before.to_set().insert(value)) by {
                assert(before[i as int] == value);
            }
        }
    } else {
        values.insert(i, value);
        proof {
            let after = before.insert(i as int, value);
            assert forall|x: i32| #[trigger] after.to_set().contains(x)
                <==> before.to_set().insert(value).contains(x) by {
                if before.contains(x) {
                    let k = choose|k: int| 0 <= k < before.len() && before[k] == x;
                    assert(after[if k < i {
                        k
                    } else {
                        k + 1
                    }] == x);
                }
                if after.contains(x) && x != value {
                    let k = choose|k: int| 0 <= k < after.len() && after[k] == x;
                    assert(before[if k < i {
                        k
                    } else {
                        k - 1
                    }] == x);
                }
                assert(after[i as int] == value);
            }
            assert(after.to_set() =~= before.to_set().insert(value));
        }
    }
}

/// What is to be kept is kept.
pub proof fn lemma_kept_has<T>(items: Seq<T>, keep: spec_fn(T) -> bool, k: int)
    requires
        0 <= k < items.len(),
        keep(items[k]),
    ensures
        exists|i: int|
            0 <= i < items.filter(keep).len() && #[trigger] items.filter(keep)[i] == items[k],
    decreases items.len(),
{
    reveal(Seq::filter);
    let rest = items.drop_last();
    let all = items.filter(keep);
    if k == items.len() - 1 {
        assert(all[all.len() - 1] == items[k]);
    } else {
        lemma_kept_has(rest, keep, k);
        let i = choose|i: int|
            0 <= i < rest.filter(keep).len() && #[trigger] rest.filter(keep)[i] == rest[k];
        assert(all[i] == items[k]);
    }
}

/// What is kept stays in order.
pub proof fn lemma_kept_in_order<T>(items: Seq<T>, keep: spec_fn(T) -> bool, i: int, j: int)
    requires
        0 <= i < j < items.filter(keep).len(),
    ensures
        exists|k: int, l: int|
            0 <= k < l < items.len() && #[trigger] items[k] == items.filter(keep)[i]
                && #[trigger] items[l] == items.filter(keep)[j],
    decreases items.len(),
{
    reveal(Seq::filter);
    if items.len() > 0 {
        let rest = items.drop_last();
        let kept = rest.filter(keep);
        if j < kept.len() {
            lemma_kept_in_order(rest, keep, i, j);
            let (k, l) = choose|k: int, l: int|
                0 <= k < l < rest.len() && #[trigger] rest[k] == kept[i] && #[trigger] rest[l]
                    == kept[j];
            assert(items[k] == items.filter(keep)[i] && items[l] == items.filter(keep)[j]);
        } else {
            lemma_kept_are_some(rest, keep, i);
            let k = choose|k: int| 0 <= k < rest.len() && #[trigger] rest[k] == kept[i];
            let l = items.len() - 1;
            assert(items[k] == items.filter(keep)[i] && items[l] == items.filter(keep)[j]);
        }
    }
}

} // verus!
