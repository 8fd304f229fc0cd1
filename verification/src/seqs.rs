use vstd::prelude::*;

verus! {

/// Filtering a prefix one element longer adds that element when it passes.
pub proof fn lemma_filter_take_step<A>(s: Seq<A>, pred: spec_fn(A) -> bool, i: int)
    requires
        0 <= i < s.len(),
    ensures
        s.take(i + 1).filter(pred) == if pred(s[i]) {
            s.take(i).filter(pred).push(s[i])
        } else {
            s.take(i).filter(pred)
        },
{
    reveal(Seq::filter);
    assert(s.take(i + 1).drop_last() =~= s.take(i));
}

/// Filtering a prefix keeps no more elements than filtering the whole sequence.
pub proof fn lemma_filter_prefix_len<A>(s: Seq<A>, pred: spec_fn(A) -> bool, i: int)
    requires
        0 <= i <= s.len(),
    ensures
        s.take(i).filter(pred).len() <= s.filter(pred).len(),
{
    assert(s =~= s.take(i) + s.skip(i));
    Seq::filter_distributes_over_add(s.take(i), s.skip(i), pred);
}

/// Filtering a sequence whose elements all pass leaves it as it is.
pub proof fn lemma_filter_all_pass<A>(s: Seq<A>, pred: spec_fn(A) -> bool)
    requires
        forall|i: int| 0 <= i < s.len() ==> pred(#[trigger] s[i]),
    ensures
        s.filter(pred) == s,
    decreases s.len(),
{
    reveal(Seq::filter);
    if s.len() > 0 {
        lemma_filter_all_pass(s.drop_last(), pred);
        assert(s.drop_last().push(s.last()) =~= s);
    }
}

/// Filtering a sequence of which no element passes leaves nothing.
pub proof fn lemma_filter_none_pass<A>(s: Seq<A>, pred: spec_fn(A) -> bool)
    requires
        forall|i: int| 0 <= i < s.len() ==> !pred(#[trigger] s[i]),
    ensures
        s.filter(pred).len() == 0,
    decreases s.len(),
{
    reveal(Seq::filter);
    if s.len() > 0 {
        lemma_filter_none_pass(s.drop_last(), pred);
    }
}

/// Filtering a sequence without repeated elements repeats none either.
pub proof fn lemma_filter_no_duplicates<A>(s: Seq<A>, pred: spec_fn(A) -> bool)
    requires
        s.no_duplicates(),
    ensures
        s.filter(pred).no_duplicates(),
    decreases s.len(),
{
    reveal(Seq::filter);
    if s.len() > 0 {
        let rest = s.drop_last();
        assert(rest.no_duplicates());
        lemma_filter_no_duplicates(rest, pred);
        if pred(s.last()) {
            if rest.filter(pred).contains(s.last()) {
                rest.lemma_filter_contains_rev(pred, s.last());
            }
        }
    }
}

/// Filtering by `pred` and then by a stricter `finer` keeps what filtering
/// by `finer` alone keeps.
pub proof fn lemma_filter_filter<A>(s: Seq<A>, pred: spec_fn(A) -> bool, finer: spec_fn(A) -> bool)
    requires
        forall|i: int| 0 <= i < s.len() && finer(#[trigger] s[i]) ==> pred(s[i]),
    ensures
        s.filter(pred).filter(finer) == s.filter(finer),
    decreases s.len(),
{
    reveal(Seq::filter);
    if s.len() > 0 {
        lemma_filter_filter(s.drop_last(), pred, finer);
        s.drop_last().filter(pred).lemma_filter_push(s.last(), finer);
    }
}

/// Dropping the first element keeps no more elements through a filter.
pub proof fn lemma_filter_drop_first_len<A>(s: Seq<A>, pred: spec_fn(A) -> bool)
    requires
        s.len() > 0,
    ensures
        s.drop_first().filter(pred).len() <= s.filter(pred).len(),
{
    assert(s =~= seq![s[0]] + s.drop_first());
    s.drop_first().lemma_filter_prepend(s[0], pred);
}

/// Removing an element keeps no more elements through a filter.
pub proof fn lemma_filter_remove_len<A>(s: Seq<A>, pred: spec_fn(A) -> bool, i: int)
    requires
        0 <= i < s.len(),
    ensures
        s.remove(i).filter(pred).len() <= s.filter(pred).len(),
{
    assert(s =~= s.take(i) + (seq![s[i]] + s.skip(i + 1)));
    assert(s.remove(i) =~= s.take(i) + s.skip(i + 1));
    Seq::filter_distributes_over_add(s.take(i), seq![s[i]] + s.skip(i + 1), pred);
    Seq::filter_distributes_over_add(s.take(i), s.skip(i + 1), pred);
    s.skip(i + 1).lemma_filter_prepend(s[i], pred);
}

/// A sequence in which exactly one element passes keeps exactly that one.
pub proof fn lemma_filter_single<A>(t: Seq<A>, pred: spec_fn(A) -> bool, j: int)
    requires
        0 <= j < t.len(),
        pred(t[j]),
        forall|k: int| 0 <= k < t.len() && k != j ==> !pred(#[trigger] t[k]),
    ensures
        t.filter(pred) == seq![t[j]],
{
    let a = t.take(j);
    let b = t.skip(j + 1);
    assert(t =~= a + (seq![t[j]] + b));
    assert forall|k: int| 0 <= k < a.len() implies !pred(#[trigger] a[k]) by {
        assert(a[k] == t[k]);
    }
    assert forall|k: int| 0 <= k < b.len() implies !pred(#[trigger] b[k]) by {
        assert(b[k] == t[k + j + 1]);
    }
    lemma_filter_none_pass(a, pred);
    lemma_filter_none_pass(b, pred);
    Seq::filter_distributes_over_add(a, seq![t[j]] + b, pred);
    b.lemma_filter_prepend(t[j], pred);
    assert(a.filter(pred) =~= Seq::<A>::empty());
    assert(b.filter(pred) =~= Seq::<A>::empty());
    assert(t.filter(pred) =~= seq![t[j]]);
}

/// Each element either passes `pred` or passes its complement `rest`, so the
/// two filters together keep every element.
pub proof fn lemma_filter_split_count<A>(s: Seq<A>, pred: spec_fn(A) -> bool, rest: spec_fn(A) -> bool)
    requires
        forall|x: A| #[trigger] rest(x) == !pred(x),
    ensures
        s.filter(pred).len() + s.filter(rest).len() == s.len(),
    decreases s.len(),
{
    reveal(Seq::filter);
    if s.len() > 0 {
        lemma_filter_split_count(s.drop_last(), pred, rest);
    }
}

} // verus!
