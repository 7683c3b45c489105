//! Facts about sequences that the lists rely on.
use vstd::prelude::*;

verus! {

/// What is left of `s` when the elements whose place in `keep` holds `false`
/// are taken out: the kept elements, in their order in `s`.
pub open spec fn retained<A>(s: Seq<A>, keep: Seq<bool>) -> Seq<A>
    decreases s.len(),
{
    if s.len() == 0 {
        Seq::empty()
    } else {
        let front = retained(s.drop_last(), keep.drop_last());
        if keep.last() {
            front.push(s.last())
        } else {
            front
        }
    }
}

/// Retaining from `s` with one more element at its end either appends that
/// element to what was retained from `s` or leaves it as it was.
pub proof fn lemma_retained_push<A>(s: Seq<A>, keep: Seq<bool>, element: A, kept: bool)
    requires
        s.len() == keep.len(),
    ensures
        retained(s.push(element), keep.push(kept)) == if kept {
            retained(s, keep).push(element)
        } else {
            retained(s, keep)
        },
{
    assert(s.push(element).drop_last() =~= s);
    assert(keep.push(kept).drop_last() =~= keep);
}

/// Nothing is retained that was not there, and no more than was there.
pub proof fn lemma_retained_len<A>(s: Seq<A>, keep: Seq<bool>)
    requires
        s.len() == keep.len(),
    ensures
        retained(s, keep).len() <= s.len(),
    decreases s.len(),
{
    if s.len() > 0 {
        lemma_retained_len(s.drop_last(), keep.drop_last());
    }
}

/// Every retained element is an element of `s`: the one at position `k` of
/// what is retained stands at the returned position of `s`.
pub proof fn lemma_retained_member<A>(s: Seq<A>, keep: Seq<bool>, k: int) -> (j: int)
    requires
        s.len() == keep.len(),
        0 <= k < retained(s, keep).len(),
    ensures
        0 <= j < s.len(),
        s[j] == retained(s, keep)[k],
    decreases s.len(),
{
    let front = retained(s.drop_last(), keep.drop_last());
    if keep.last() && k == front.len() {
        s.len() - 1
    } else {
        lemma_retained_member(s.drop_last(), keep.drop_last(), k)
    }
}

/// Retaining commutes with reading each member through `read`: what is
/// retained of the values read is what is read from the retained members.
pub proof fn lemma_retained_read<A, B>(s: Seq<A>, keep: Seq<bool>, read: spec_fn(A) -> B)
    requires
        s.len() == keep.len(),
    ensures
        retained(Seq::new(s.len(), |i: int| read(s[i])), keep) == Seq::new(
            retained(s, keep).len(),
            |i: int| read(retained(s, keep)[i]),
        ),
    decreases s.len(),
{
    let values = Seq::new(s.len(), |i: int| read(s[i]));
    if s.len() > 0 {
        let front = s.drop_last();
        lemma_retained_read(front, keep.drop_last(), read);
        assert(values.drop_last() =~= Seq::new(front.len(), |i: int| read(front[i])));
        let kept = retained(front, keep.drop_last());
        if keep.last() {
            assert(Seq::new(kept.len(), |i: int| read(kept[i])).push(read(s.last())) =~= Seq::new(
                kept.push(s.last()).len(),
                |i: int| read(kept.push(s.last())[i]),
            ));
        }
    } else {
        assert(retained(values, keep) =~= Seq::new(
            retained(s, keep).len(),
            |i: int| read(retained(s, keep)[i]),
        ));
    }
}

/// Where `keep` marks exactly the elements that satisfy `pred`, what is
/// retained is `s` filtered by `pred`.
pub proof fn lemma_retained_is_filter<A>(s: Seq<A>, keep: Seq<bool>, pred: spec_fn(A) -> bool)
    requires
        s.len() == keep.len(),
        forall|i: int| 0 <= i < s.len() ==> keep[i] == pred(#[trigger] s[i]),
    ensures
        retained(s, keep) == s.filter(pred),
    decreases s.len(),
{
    reveal(Seq::filter);
    if s.len() > 0 {
        lemma_retained_is_filter(s.drop_last(), keep.drop_last(), pred);
    }
}

/// A sequence of distinct addresses below `bound` has at most `bound`
/// members.
pub proof fn lemma_distinct_addresses_bounded(s: Seq<usize>, bound: nat)
    requires
        s.no_duplicates(),
        forall|i: int| 0 <= i < s.len() ==> (#[trigger] s[i]) < bound,
    ensures
        s.len() <= bound,
    decreases bound,
{
    if s.len() == 0 {
    } else if bound == 0 {
        assert(s[0] < bound);
    } else {
        let top = (bound - 1) as usize;
        if exists|i: int| 0 <= i < s.len() && s[i] == top {
            let k = choose|i: int| 0 <= i < s.len() && s[i] == top;
            let rest = s.remove(k);
            assert forall|i: int| 0 <= i < rest.len() implies (#[trigger] rest[i]) < bound - 1 by {
                if i < k {
                    assert(rest[i] == s[i]);
                } else {
                    assert(rest[i] == s[i + 1]);
                }
            }
            assert(rest.no_duplicates()) by {
                assert forall|i: int, j: int|
                    0 <= i < rest.len() && 0 <= j < rest.len() && i != j implies rest[i]
                    != rest[j] by {
                    let ii = if i < k { i } else { i + 1 };
                    let jj = if j < k { j } else { j + 1 };
                    assert(rest[i] == s[ii]);
                    assert(rest[j] == s[jj]);
                }
            }
            lemma_distinct_addresses_bounded(rest, (bound - 1) as nat);
        } else {
            assert forall|i: int| 0 <= i < s.len() implies (#[trigger] s[i]) < bound - 1 by {
                assert(s[i] < bound);
            }
            lemma_distinct_addresses_bounded(s, (bound - 1) as nat);
        }
    }
}

/// The list that results from pushing the members of `items`, one after the
/// other, to the back of `list`.
pub open spec fn pushed_back<A>(list: Seq<A>, items: Seq<A>) -> Seq<A>
    decreases items.len(),
{
    if items.len() == 0 {
        list
    } else {
        pushed_back(list, items.drop_last()).push(items.last())
    }
}

/// The list that results from pushing the members of `items`, one after the
/// other, to the front of `list`.
pub open spec fn pushed_front<A>(list: Seq<A>, items: Seq<A>) -> Seq<A>
    decreases items.len(),
{
    if items.len() == 0 {
        list
    } else {
        seq![items.last()] + pushed_front(list, items.drop_last())
    }
}

/// What an iterator over `list` has left to yield after `count` calls of
/// `next`.
pub open spec fn after_next<A>(list: Seq<A>, count: nat) -> Seq<A>
    decreases count,
{
    if count == 0 {
        list
    } else {
        after_next(list, (count - 1) as nat).drop_first()
    }
}

/// What an iterator over `list` has left to yield after `count` calls of
/// `next_back`.
pub open spec fn after_next_back<A>(list: Seq<A>, count: nat) -> Seq<A>
    decreases count,
{
    if count == 0 {
        list
    } else {
        after_next_back(list, (count - 1) as nat).drop_last()
    }
}

/// Pushing to the back keeps the push order: the list holds what it held,
/// then the pushed elements in the order in which they were pushed.
pub proof fn lemma_pushed_back_order<A>(list: Seq<A>, items: Seq<A>)
    ensures
        pushed_back(list, items) == list + items,
    decreases items.len(),
{
    if items.len() == 0 {
        assert(list + items =~= list);
    } else {
        lemma_pushed_back_order(list, items.drop_last());
        assert((list + items.drop_last()).push(items.last()) =~= list + items);
    }
}

/// Pushing to the front reverses the push order: the list holds the pushed
/// elements, the one pushed last first, then what it held.
pub proof fn lemma_pushed_front_order<A>(list: Seq<A>, items: Seq<A>)
    ensures
        pushed_front(list, items) == items.reverse() + list,
    decreases items.len(),
{
    if items.len() == 0 {
        assert(items.reverse() + list =~= list);
    } else {
        lemma_pushed_front_order(list, items.drop_last());
        assert(seq![items.last()] + (items.drop_last().reverse() + list) =~= items.reverse()
            + list);
    }
}

/// Forward iteration observes the list order: after `count` calls of `next`
/// the members from position `count` on are left, so the call that follows
/// yields the member at position `count`, and after as many calls as the
/// list has members nothing is left.
pub proof fn lemma_after_next<A>(list: Seq<A>, count: nat)
    requires
        count <= list.len(),
    ensures
        after_next(list, count) == list.skip(count as int),
        count < list.len() ==> after_next(list, count).first() == list[count as int],
        count == list.len() ==> after_next(list, count).len() == 0,
    decreases count,
{
    if count == 0 {
        assert(list.skip(0) =~= list);
    } else {
        lemma_after_next(list, (count - 1) as nat);
        assert(list.skip(count - 1).drop_first() =~= list.skip(count as int));
    }
}

/// Backward iteration observes the reverse of the list order: after `count`
/// calls of `next_back` the members before position `len - count` are left,
/// so the call that follows yields the member at position `len - count - 1`.
pub proof fn lemma_after_next_back<A>(list: Seq<A>, count: nat)
    requires
        count <= list.len(),
    ensures
        after_next_back(list, count) == list.take(list.len() - count),
        count < list.len() ==> after_next_back(list, count).last() == list[list.len() - count
            - 1],
        count == list.len() ==> after_next_back(list, count).len() == 0,
    decreases count,
{
    if count == 0 {
        assert(list.take(list.len() as int) =~= list);
    } else {
        lemma_after_next_back(list, (count - 1) as nat);
        assert(list.take(list.len() - count + 1).drop_last() =~= list.take(list.len() - count));
    }
}

/// A push to the back that is followed by a pop from the back yields the
/// pushed element and leaves the list as it was before the push; the same
/// holds of a push to the front that is followed by a pop from the front.
pub proof fn lemma_push_then_pop<A>(list: Seq<A>, element: A)
    ensures
        list.push(element).last() == element,
        list.push(element).drop_last() == list,
        list.push(element).len() == list.len() + 1,
        (seq![element] + list).first() == element,
        (seq![element] + list).drop_first() == list,
        (seq![element] + list).len() == list.len() + 1,
{
    assert(list.push(element).drop_last() =~= list);
    assert((seq![element] + list).drop_first() =~= list);
}

/// What has been yielded after an iterator over `list` was driven once for
/// each member of `from_back`: from the back where the member is `true`,
/// from the front where it is `false`.
pub open spec fn driven_yield<A>(list: Seq<A>, from_back: Seq<bool>) -> Seq<A>
    decreases from_back.len(),
{
    if from_back.len() == 0 {
        Seq::empty()
    } else {
        let rest = driven_rest(list, from_back.drop_last());
        let yielded = driven_yield(list, from_back.drop_last());
        if rest.len() == 0 {
            yielded
        } else if from_back.last() {
            yielded.push(rest.last())
        } else {
            yielded.push(rest.first())
        }
    }
}

/// What is left to yield after an iterator over `list` was driven once for
/// each member of `from_back`.
pub open spec fn driven_rest<A>(list: Seq<A>, from_back: Seq<bool>) -> Seq<A>
    decreases from_back.len(),
{
    if from_back.len() == 0 {
        list
    } else {
        let rest = driven_rest(list, from_back.drop_last());
        if rest.len() == 0 {
            rest
        } else if from_back.last() {
            rest.drop_last()
        } else {
            rest.drop_first()
        }
    }
}

/// However an iterator is driven from its two ends, it yields each element
/// once: what was yielded and what is left make up the list, member for
/// member, and what is left is the stretch of the list between what was
/// yielded from the front and what was yielded from the back. Once it was
/// driven as many times as the list has members, nothing is left.
pub proof fn lemma_driven_yields_each_once<A>(list: Seq<A>, from_back: Seq<bool>)
    ensures
        driven_yield(list, from_back).to_multiset().add(
            driven_rest(list, from_back).to_multiset(),
        ) == list.to_multiset(),
        driven_yield(list, from_back).len() + driven_rest(list, from_back).len() == list.len(),
        from_back.len() <= list.len() ==> driven_yield(list, from_back).len() == from_back.len(),
        from_back.len() >= list.len() ==> driven_rest(list, from_back).len() == 0,
    decreases from_back.len(),
{
    broadcast use vstd::seq_lib::group_to_multiset_ensures;

    if from_back.len() == 0 {
        assert(driven_yield(list, from_back).to_multiset() =~= vstd::multiset::Multiset::empty());
        assert(driven_yield(list, from_back).to_multiset().add(list.to_multiset())
            =~= list.to_multiset());
    } else {
        let earlier = from_back.drop_last();
        lemma_driven_yields_each_once(list, earlier);
        let rest = driven_rest(list, earlier);
        let yielded = driven_yield(list, earlier);
        if rest.len() > 0 {
            if from_back.last() {
                assert(rest =~= rest.drop_last().push(rest.last()));
                assert(yielded.push(rest.last()).to_multiset().add(rest.drop_last().to_multiset())
                    =~= yielded.to_multiset().add(rest.to_multiset()));
            } else {
                assert(rest =~= seq![rest.first()] + rest.drop_first());
                vstd::seq_lib::lemma_multiset_commutative(seq![rest.first()], rest.drop_first());
                assert(seq![rest.first()] =~= Seq::empty().push(rest.first()));
                assert(yielded.push(rest.first()).to_multiset().add(
                    rest.drop_first().to_multiset(),
                ) =~= yielded.to_multiset().add(rest.to_multiset()));
            }
        }
    }
}

/// Where nothing is kept, nothing is retained.
pub proof fn lemma_retained_none<A>(s: Seq<A>, keep: Seq<bool>)
    requires
        s.len() == keep.len(),
        forall|i: int| 0 <= i < keep.len() ==> !(#[trigger] keep[i]),
    ensures
        retained(s, keep) == Seq::<A>::empty(),
    decreases s.len(),
{
    if s.len() > 0 {
        lemma_retained_none(s.drop_last(), keep.drop_last());
    }
}

} // verus!
