//! Stepping through selections: one element out of each of several sequences.
//!
//! A selection is a tuple of cursors, one index per sequence. The getter
//! starts with every cursor on the first element and advances by the rule
//! [`advance`], as a counter does: the first cursor that is not on its last
//! element moves one element on, and every cursor before it goes back to the
//! first element. So the first sequence moves fastest, and the walk visits
//! every selection exactly once: [`combinations`] lists them in closed form,
//! as many as the [`product`] of the lengths.

use vstd::arithmetic::div_mod::lemma_fundamental_div_mod;
use vstd::arithmetic::div_mod::lemma_fundamental_div_mod_converse;
use vstd::arithmetic::div_mod::lemma_hoist_over_denominator;
use vstd::arithmetic::div_mod::lemma_mod_multiples_vanish;
use vstd::arithmetic::div_mod::lemma_small_mod;
use vstd::prelude::*;

verus! {

/// The product of the lengths: the number of selections.
pub open spec fn product(lens: Seq<nat>) -> nat
    decreases lens.len(),
{
    if lens.len() == 0 {
        1
    } else {
        product(lens.drop_last()) * lens.last()
    }
}

/// Whether every sequence has an element to select.
pub open spec fn all_nonempty(lens: Seq<nat>) -> bool {
    forall|i: int| 0 <= i < lens.len() ==> lens[i] > 0
}

/// Whether `cursors` names one element in each sequence.
pub open spec fn is_selection(lens: Seq<nat>, cursors: Seq<int>) -> bool {
    &&& cursors.len() == lens.len()
    &&& forall|i: int| 0 <= i < lens.len() ==> 0 <= #[trigger] cursors[i] < lens[i]
}

/// The cursor tuple reached after `k` advances from the first selection:
/// `k` written with one digit per sequence, the first sequence holding the
/// lowest digit, and each digit counting up to the length of its sequence.
pub open spec fn cursors_at(lens: Seq<nat>, k: nat) -> Seq<int> {
    Seq::new(
        lens.len(),
        |i: int| (k as int / product(lens.take(i)) as int) % (lens[i] as int),
    )
}

/// The cursor tuples that a getter over sequences of the lengths `lens`
/// yields, in the order in which it yields them: every selection once.
/// There is none when some sequence is empty.
pub open spec fn combinations(lens: Seq<nat>) -> Seq<Seq<int>> {
    Seq::new(product(lens), |k: int| cursors_at(lens, k as nat))
}

/// The place of a selection in the walk: the number whose digits its
/// cursors are.
pub open spec fn rank(lens: Seq<nat>, cursors: Seq<int>) -> int
    decreases lens.len(),
{
    if lens.len() == 0 {
        0
    } else {
        rank(lens.drop_last(), cursors.drop_last()) + cursors.last() * product(lens.drop_last())
    }
}

/// The position of the first cursor at or after `from` that is not on the
/// last element of its sequence; `lens.len()` when there is none.
pub open spec fn first_open(lens: Seq<nat>, cursors: Seq<int>, from: int) -> int
    decreases lens.len() - from,
{
    if from < 0 || from >= lens.len() {
        lens.len() as int
    } else if cursors[from] != lens[from] - 1 {
        from
    } else {
        first_open(lens, cursors, from + 1)
    }
}

/// `cursors` with the cursor at `at` moved on by one and every cursor
/// before it back on the first element.
pub open spec fn carried(cursors: Seq<int>, at: int) -> Seq<int> {
    Seq::new(
        cursors.len(),
        |i: int|
            if i < at {
                0
            } else if i == at {
                cursors[i] + 1
            } else {
                cursors[i]
            },
    )
}

/// One step of the walk: the first cursor that is not on its last element
/// moves on by one, every cursor before it goes back to the first element,
/// and every cursor after it keeps its place. `None` when every cursor is on
/// its last element.
pub open spec fn advance(lens: Seq<nat>, cursors: Seq<int>) -> Option<Seq<int>> {
    let at = first_open(lens, cursors, 0);
    if at == lens.len() {
        None
    } else {
        Some(carried(cursors, at))
    }
}

/// The lengths of the given sequences.
pub open spec fn lengths<T>(arrays: Seq<Seq<T>>) -> Seq<nat> {
    Seq::new(arrays.len(), |i: int| arrays[i].len())
}

/// Whether `picked` holds, for each sequence, the element under its cursor.
pub open spec fn selects<T>(arrays: Seq<Seq<T>>, cursors: Seq<int>, picked: Seq<&T>) -> bool {
    &&& picked.len() == arrays.len()
    &&& forall|i: int| 0 <= i < arrays.len() ==> *picked[i] == arrays[i][cursors[i]]
}

proof fn lemma_product_positive(lens: Seq<nat>)
    requires
        all_nonempty(lens),
    ensures
        product(lens) >= 1,
    decreases lens.len(),
{
    if lens.len() > 0 {
        lemma_product_positive(lens.drop_last());
        assert(product(lens.drop_last()) * lens.last() >= 1) by (nonlinear_arith)
            requires
                product(lens.drop_last()) >= 1,
                lens.last() >= 1,
        ;
    }
}

proof fn lemma_product_zero(lens: Seq<nat>, at: int)
    requires
        0 <= at < lens.len(),
        lens[at] == 0,
    ensures
        product(lens) == 0,
    decreases lens.len(),
{
    if at < lens.len() - 1 {
        lemma_product_zero(lens.drop_last(), at);
    }
    assert(product(lens.drop_last()) * lens.last() == 0) by (nonlinear_arith)
        requires
            product(lens.drop_last()) == 0 || lens.last() == 0,
    ;
}

/// The product of all lengths is the product of the first `i` of them,
/// times the product of the others, which is returned.
proof fn lemma_product_split(lens: Seq<nat>, i: int) -> (others: nat)
    requires
        0 <= i <= lens.len(),
    ensures
        product(lens) == product(lens.take(i)) * others,
    decreases lens.len(),
{
    if i == lens.len() {
        assert(lens.take(i) =~= lens);
        1
    } else {
        let front = lens.drop_last();
        let behind = lemma_product_split(front, i);
        assert(front.take(i) =~= lens.take(i));
        let first = product(lens.take(i));
        let last = lens.last();
        assert(first * behind * last == first * (behind * last)) by (nonlinear_arith);
        behind * last
    }
}

/// A digit of a number does not depend on what is added above it.
proof fn lemma_digit(low: int, high: int, below: int, len: int, above: int)
    requires
        0 <= low,
        0 <= high,
        0 < below,
        0 < len,
        0 <= above,
    ensures
        ((low + high * (below * len * above)) / below) % len == (low / below) % len,
{
    let shift = high * above * len;
    assert(high * (below * len * above) == shift * below) by (nonlinear_arith)
        requires
            shift == high * above * len,
    ;
    lemma_hoist_over_denominator(low, shift, below as nat);
    assert(len * (high * above) == shift) by (nonlinear_arith)
        requires
            shift == high * above * len,
    ;
    lemma_mod_multiples_vanish(high * above, low / below, len);
}

/// The cursors of a number that is `low`, below the product of the
/// sequences before the last, and `high` times that product: the cursors
/// before the last are those of `low`, and the last is `high`, counted up to
/// the length of the last sequence.
proof fn lemma_cursors_at_front(lens: Seq<nat>, low: int, high: int)
    requires
        lens.len() > 0,
        all_nonempty(lens),
        0 <= low < product(lens.drop_last()),
        0 <= high,
    ensures
        cursors_at(lens, (low + high * product(lens.drop_last())) as nat).drop_last()
            == cursors_at(lens.drop_last(), low as nat),
        cursors_at(lens, (low + high * product(lens.drop_last())) as nat).last() == high % (
        lens.last() as int),
{
    let front = lens.drop_last();
    let whole = product(front) as int;
    let k = low + high * whole;
    assert(high * whole >= 0) by (nonlinear_arith)
        requires
            high >= 0,
            whole >= 0,
    ;
    let ours = cursors_at(lens, k as nat).drop_last();
    let theirs = cursors_at(front, low as nat);
    assert forall|i: int| 0 <= i < front.len() implies ours[i] == theirs[i] by {
        assert(front.take(i) =~= lens.take(i));
        assert(front.take(i + 1).drop_last() =~= front.take(i));
        let below = product(front.take(i)) as int;
        let len = front[i] as int;
        let above = lemma_product_split(front, i + 1) as int;
        assert(all_nonempty(front.take(i)));
        lemma_product_positive(front.take(i));
        lemma_digit(low, high, below, len, above);
    }
    assert(ours =~= theirs);
    assert(lens.take(lens.len() - 1) =~= front);
    lemma_fundamental_div_mod_converse(k, whole, high, low);
}

/// A selection stands in the walk at the place that its rank names.
pub proof fn lemma_rank_of_selection(lens: Seq<nat>, cursors: Seq<int>)
    requires
        is_selection(lens, cursors),
    ensures
        0 <= rank(lens, cursors) < product(lens),
        cursors_at(lens, rank(lens, cursors) as nat) == cursors,
        combinations(lens)[rank(lens, cursors)] == cursors,
    decreases lens.len(),
{
    if lens.len() == 0 {
        assert(cursors_at(lens, 0) =~= cursors);
    } else {
        let front = lens.drop_last();
        let before = cursors.drop_last();
        let whole = product(front) as int;
        let low = rank(front, before);
        let high = cursors.last();
        assert(is_selection(front, before));
        assert(0 <= cursors[cursors.len() - 1] < lens[lens.len() - 1]);
        lemma_rank_of_selection(front, before);
        assert(0 <= low + high * whole < whole * lens.last()) by (nonlinear_arith)
            requires
                0 <= low < whole,
                0 <= high < lens.last(),
        ;
        assert(all_nonempty(lens)) by {
            assert forall|i: int| 0 <= i < lens.len() implies lens[i] > 0 by {
                assert(cursors[i] < lens[i]);
            }
        }
        lemma_cursors_at_front(lens, low, high);
        let at = cursors_at(lens, (low + high * whole) as nat);
        lemma_small_mod(high as nat, lens.last());
        assert(at =~= at.drop_last().push(at.last()));
        assert(cursors =~= before.push(high));
    }
}

/// The selection at place `k` of the walk, and its rank, which is `k`.
pub proof fn lemma_rank_of_combination(lens: Seq<nat>, k: int)
    requires
        0 <= k < combinations(lens).len(),
    ensures
        is_selection(lens, combinations(lens)[k]),
        rank(lens, combinations(lens)[k]) == k,
    decreases lens.len(),
{
    if lens.len() > 0 {
        let front = lens.drop_last();
        let whole = product(front) as int;
        assert(whole > 0 && lens.last() > 0) by (nonlinear_arith)
            requires
                whole >= 0,
                0 <= k < whole * lens.last(),
        ;
        let low = k % whole;
        let high = k / whole;
        lemma_fundamental_div_mod(k, whole);
        assert(0 <= high < lens.last()) by (nonlinear_arith)
            requires
                k == whole * high + low,
                0 <= low < whole,
                0 <= k < whole * lens.last(),
        ;
        assert(whole * high == high * whole) by (nonlinear_arith);
        lemma_rank_of_combination(front, low);
        assert(all_nonempty(lens)) by {
            let at = cursors_at(front, low as nat);
            assert forall|i: int| 0 <= i < lens.len() implies lens[i] > 0 by {
                if i < front.len() {
                    assert(at[i] < front[i]);
                }
            }
        }
        lemma_cursors_at_front(lens, low, high);
        let at = cursors_at(lens, k as nat);
        lemma_small_mod(high as nat, lens.last());
        assert forall|i: int| 0 <= i < lens.len() implies 0 <= #[trigger] at[i] < lens[i] by {
            if i < front.len() {
                assert(at[i] == at.drop_last()[i]);
            }
        }
    }
}

/// What the walk visits is a selection: every cursor points at an element
/// of its sequence.
pub proof fn lemma_combination_is_selection(lens: Seq<nat>, k: int)
    requires
        0 <= k < combinations(lens).len(),
    ensures
        is_selection(lens, combinations(lens)[k]),
{
    lemma_rank_of_combination(lens, k);
}

/// The walk yields as many selections as the product of the lengths.
pub proof fn lemma_count_is_product(lens: Seq<nat>)
    ensures
        combinations(lens).len() == product(lens),
{
}

/// No selection is yielded twice: two places in the walk hold different
/// cursor tuples, whatever the elements under them are.
pub proof fn lemma_combinations_distinct(lens: Seq<nat>, j: int, k: int)
    requires
        0 <= j < k < combinations(lens).len(),
    ensures
        combinations(lens)[j] != combinations(lens)[k],
{
    lemma_rank_of_combination(lens, j);
    lemma_rank_of_combination(lens, k);
}

/// The walk leaves no selection out.
pub proof fn lemma_every_selection_visited(lens: Seq<nat>, cursors: Seq<int>)
    requires
        is_selection(lens, cursors),
    ensures
        combinations(lens).contains(cursors),
{
    lemma_rank_of_selection(lens, cursors);
}

/// Where a sequence is empty there is no selection.
pub proof fn lemma_no_combination_of_empty(lens: Seq<nat>, at: int)
    requires
        0 <= at < lens.len(),
        lens[at] == 0,
    ensures
        combinations(lens).len() == 0,
{
    lemma_product_zero(lens, at);
}

/// With no sequence at all there is exactly one selection, the empty one.
pub proof fn lemma_combinations_of_nothing()
    ensures
        combinations(Seq::<nat>::empty()) == seq![Seq::<int>::empty()],
{
    let none = Seq::<nat>::empty();
    assert(cursors_at(none, 0) =~= Seq::<int>::empty());
    assert(combinations(none) =~= seq![Seq::<int>::empty()]);
}

proof fn lemma_rank_of_first(lens: Seq<nat>, cursors: Seq<int>)
    requires
        cursors.len() == lens.len(),
        forall|i: int| 0 <= i < cursors.len() ==> cursors[i] == 0,
    ensures
        rank(lens, cursors) == 0,
    decreases lens.len(),
{
    if lens.len() > 0 {
        lemma_rank_of_first(lens.drop_last(), cursors.drop_last());
    }
}

proof fn lemma_first_open_found(lens: Seq<nat>, cursors: Seq<int>, from: int, at: int)
    requires
        0 <= from <= at <= lens.len(),
        forall|i: int| from <= i < at ==> cursors[i] == lens[i] - 1,
        at < lens.len() ==> cursors[at] != lens[at] - 1,
    ensures
        first_open(lens, cursors, from) == at,
    decreases at - from,
{
    if from < at {
        lemma_first_open_found(lens, cursors, from + 1, at);
    }
}

proof fn lemma_first_open_is(lens: Seq<nat>, cursors: Seq<int>, from: int)
    requires
        0 <= from <= lens.len(),
    ensures
        from <= first_open(lens, cursors, from) <= lens.len(),
        forall|i: int| from <= i < first_open(lens, cursors, from) ==> cursors[i] == lens[i] - 1,
        first_open(lens, cursors, from) < lens.len() ==> cursors[first_open(lens, cursors, from)]
            != lens[first_open(lens, cursors, from)] - 1,
    decreases lens.len() - from,
{
    if from < lens.len() && cursors[from] == lens[from] - 1 {
        lemma_first_open_is(lens, cursors, from + 1);
    }
}

/// What a carry does to the rank: where the cursors before `at` are on
/// their last elements and the one at `at` is not, the carry gives the next
/// selection; where all are on their last elements, the selection is the last.
proof fn lemma_rank_of_carried(lens: Seq<nat>, cursors: Seq<int>, at: int)
    requires
        is_selection(lens, cursors),
        0 <= at <= lens.len(),
        forall|i: int| 0 <= i < at ==> cursors[i] == lens[i] - 1,
        at < lens.len() ==> cursors[at] != lens[at] - 1,
    ensures
        at == lens.len() ==> rank(lens, cursors) == product(lens) - 1,
        at < lens.len() ==> is_selection(lens, carried(cursors, at)) && rank(
            lens,
            carried(cursors, at),
        ) == rank(lens, cursors) + 1,
    decreases lens.len(),
{
    if lens.len() > 0 {
        let front = lens.drop_last();
        let before = cursors.drop_last();
        let whole = product(front) as int;
        let high = cursors.last();
        assert(is_selection(front, before));
        assert(0 <= cursors[cursors.len() - 1] < lens[lens.len() - 1]);
        if at < front.len() {
            lemma_rank_of_carried(front, before, at);
            assert(carried(cursors, at).drop_last() =~= carried(before, at));
        } else {
            lemma_rank_of_carried(front, before, front.len() as int);
            if at == front.len() {
                lemma_rank_of_first(front, carried(cursors, at).drop_last());
                assert((high + 1) * whole == high * whole + whole) by (nonlinear_arith);
            } else {
                assert((whole - 1) + (lens.last() - 1) * whole == whole * lens.last() - 1)
                    by (nonlinear_arith);
            }
        }
        if at < lens.len() {
            let next = carried(cursors, at);
            assert forall|i: int| 0 <= i < lens.len() implies 0 <= #[trigger] next[i]
                < lens[i] by {
                assert(0 <= cursors[i] < lens[i]);
            }
        }
    }
}

/// The walk starts with every cursor on the first element of its sequence.
pub proof fn lemma_first_combination(lens: Seq<nat>)
    requires
        all_nonempty(lens),
    ensures
        combinations(lens).len() >= 1,
        combinations(lens)[0] == Seq::new(lens.len(), |i: int| 0int),
{
    lemma_product_positive(lens);
    let first = Seq::new(lens.len(), |i: int| 0int);
    lemma_rank_of_first(lens, first);
    lemma_rank_of_selection(lens, first);
}

/// Each selection but the last is followed by the one that [`advance`]
/// makes of it.
pub proof fn lemma_next_combination(lens: Seq<nat>, k: int)
    requires
        0 <= k,
        k + 1 < combinations(lens).len(),
    ensures
        advance(lens, combinations(lens)[k]) == Some(combinations(lens)[k + 1]),
{
    let now = combinations(lens)[k];
    lemma_rank_of_combination(lens, k);
    lemma_first_open_is(lens, now, 0);
    let at = first_open(lens, now, 0);
    lemma_rank_of_carried(lens, now, at);
    lemma_rank_of_selection(lens, carried(now, at));
}

/// The last selection has every cursor on the last element of its sequence,
/// and [`advance`] makes nothing of it.
pub proof fn lemma_last_combination(lens: Seq<nat>)
    requires
        all_nonempty(lens),
    ensures
        combinations(lens).len() >= 1,
        combinations(lens).last() == Seq::new(lens.len(), |i: int| lens[i] - 1),
        advance(lens, combinations(lens).last()) is None,
{
    lemma_product_positive(lens);
    let last = Seq::new(lens.len(), |i: int| lens[i] - 1);
    lemma_rank_of_carried(lens, last, lens.len() as int);
    lemma_rank_of_selection(lens, last);
    lemma_first_open_found(lens, last, 0, lens.len() as int);
}

/// The sequences in a getter's store.
spec fn stored_arrays<T>(store: Seq<(usize, &[T])>) -> Seq<Seq<T>> {
    Seq::new(store.len(), |i: int| store[i].1@)
}

/// The cursors in a getter's store.
spec fn stored_cursors<T>(store: Seq<(usize, &[T])>) -> Seq<int> {
    Seq::new(store.len(), |i: int| store[i].0 as int)
}

/// The cursors of a running getter name a selection.
spec fn on_the_walk<T>(store: Seq<(usize, &[T])>, end: bool) -> bool {
    end || is_selection(lengths(stored_arrays(store)), stored_cursors(store))
}

/// Yields selections from a fixed list of sequences, one element of each
/// sequence at a time, in the order of [`combinations`].
///
/// A getter runs once: after its last selection it yields nothing more.
#[derive(Debug)]
pub struct CombinationsGetter<'a, T: 'a> {
    arrays: Vec<(usize, &'a [T])>,
    end: bool,
}

impl<'a, T> CombinationsGetter<'a, T> {
    /// The sequences that the getter selects from.
    pub closed spec fn arrays(&self) -> Seq<Seq<T>> {
        stored_arrays(self.arrays@)
    }

    /// The cursor into each sequence.
    spec fn cursors(&self) -> Seq<int> {
        stored_cursors(self.arrays@)
    }

    /// Whether the getter has yielded its last selection.
    spec fn ended(&self) -> bool {
        self.end
    }

    /// The cursor tuples of the selections still to come, next one first.
    pub closed spec fn remaining(&self) -> Seq<Seq<int>> {
        if self.end {
            Seq::empty()
        } else {
            let lens = lengths(self.arrays());
            combinations(lens).skip(rank(lens, self.cursors()))
        }
    }

    #[verifier::type_invariant]
    spec fn well_formed(self) -> bool {
        on_the_walk(self.arrays@, self.end)
    }

    /// A getter over `arrays`, standing before the first selection. It has
    /// nothing to yield when one of the sequences is empty.
    pub fn new(arrays: &[&'a [T]]) -> (getter: Self)
        ensures
            getter.arrays() == Seq::new(arrays@.len(), |i: int| arrays@[i]@),
            getter.remaining() == combinations(lengths(getter.arrays())),
    {
        let mut store: Vec<(usize, &'a [T])> = Vec::new();
        let mut end: bool = false;
        let mut i: usize = 0;
        while i < arrays.len()
            invariant
                i <= arrays@.len(),
                store@.len() == i,
                forall|j: int| 0 <= j < i ==> store@[j] == (0usize, arrays@[j]),
                end <==> exists|j: int| 0 <= j < i && arrays@[j]@.len() == 0,
            decreases arrays.len() - i,
        {
            let array: &'a [T] = arrays[i];
            if array.len() == 0 {
                end = true;
            }
            store.push((0, array));
            i += 1;
        }
        proof {
            let lens = lengths(stored_arrays(store@));
            assert(stored_arrays(store@) =~= Seq::new(arrays@.len(), |i: int| arrays@[i]@));
            if end {
                let j = choose|j: int| 0 <= j < arrays@.len() && arrays@[j]@.len() == 0;
                lemma_product_zero(lens, j);
                assert(combinations(lens) =~= Seq::<Seq<int>>::empty());
            } else {
                assert(is_selection(lens, stored_cursors(store@)));
                lemma_rank_of_first(lens, stored_cursors(store@));
                assert(combinations(lens).skip(0) =~= combinations(lens));
            }
        }
        Self { arrays: store, end }
    }

    /// Moves the first cursor that is not on its last element one element
    /// on and puts the cursors before it back on their first elements; where
    /// every cursor is on its last element, the getter has ended.
    fn arrange_next_combination(&mut self)
        requires
            !old(self).ended(),
        ensures
            final(self).arrays() == old(self).arrays(),
            final(self).remaining() == old(self).remaining().drop_first(),
            match advance(lengths(old(self).arrays()), old(self).cursors()) {
                Some(cursors) => !final(self).ended() && final(self).cursors() == cursors,
                None => final(self).ended() && final(self).cursors() == old(self).cursors(),
            },
    {
        proof {
            use_type_invariant(&*self);
        }
        let ghost lens = lengths(self.arrays());
        let ghost before = self.cursors();
        let ghost k = rank(lens, before);
        assert forall|i: int| 0 <= i < self.arrays@.len() implies self.arrays@[i].1@.len() > 0 by {
            assert(before[i] < lens[i]);
        }
        let mut at: usize = 0;
        while at < self.arrays.len() && self.arrays[at].1.len() - 1 == self.arrays[at].0
            invariant
                at <= self.arrays@.len(),
                forall|i: int| 0 <= i < self.arrays@.len() ==> self.arrays@[i].1@.len() > 0,
                forall|i: int| 0 <= i < at ==> self.arrays@[i].0 == self.arrays@[i].1@.len() - 1,
            decreases self.arrays@.len() - at,
        {
            at += 1;
        }
        proof {
            lemma_first_open_found(lens, before, 0, at as int);
            lemma_rank_of_selection(lens, before);
            lemma_rank_of_carried(lens, before, at as int);
            assert(combinations(lens).skip(k).drop_first() =~= combinations(lens).skip(k + 1));
        }
        if at < self.arrays.len() {
            let (index, array) = self.arrays[at];
            assert(0 <= before[at as int] < lens[at as int]);
            let mut store: Vec<(usize, &'a [T])> = Vec::new();
            core::mem::swap(&mut self.arrays, &mut store);
            let mut i: usize = 0;
            while i < at
                invariant
                    i <= at < store@.len(),
                    stored_arrays(store@) == old(self).arrays(),
                    forall|j: int| 0 <= j < i ==> store@[j].0 == 0,
                    forall|j: int| i <= j < store@.len() ==> store@[j].0 == before[j],
                decreases at - i,
            {
                let ghost earlier = store@;
                let sequence: &'a [T] = store[i].1;
                store.set(i, (0, sequence));
                proof {
                    assert(stored_arrays(store@) =~= stored_arrays(earlier));
                }
                i += 1;
            }
            let ghost earlier = store@;
            store.set(at, (index + 1, array));
            proof {
                assert(stored_arrays(store@) =~= stored_arrays(earlier));
                assert(stored_cursors(store@) =~= carried(before, at as int));
            }
            core::mem::swap(&mut self.arrays, &mut store);
        } else {
            self.end = true;
        }
    }

    /// The next selection, as one reference into each sequence; `None` once
    /// the walk is over.
    pub fn next(&mut self) -> (combination: Option<Vec<&'a T>>)
        ensures
            final(self).arrays() == old(self).arrays(),
            match combination {
                Some(picked) => {
                    &&& old(self).remaining().len() > 0
                    &&& is_selection(lengths(old(self).arrays()), old(self).remaining()[0])
                    &&& selects(old(self).arrays(), old(self).remaining()[0], picked@)
                    &&& final(self).remaining() == old(self).remaining().drop_first()
                },
                None => {
                    &&& old(self).remaining().len() == 0
                    &&& final(self).remaining() == old(self).remaining()
                },
            },
    {
        proof {
            use_type_invariant(&*self);
        }
        if self.end {
            return None;
        }
        let ghost lens = lengths(self.arrays());
        let ghost cursors = self.cursors();
        proof {
            lemma_rank_of_selection(lens, cursors);
        }
        let mut combination: Vec<&'a T> = Vec::new();
        let mut i: usize = 0;
        while i < self.arrays.len()
            invariant
                i <= self.arrays@.len(),
                lens == lengths(self.arrays()),
                cursors == self.cursors(),
                is_selection(lens, cursors),
                combination@.len() == i,
                forall|j: int| 0 <= j < i ==> *combination@[j] == self.arrays()[j][cursors[j]],
            decreases self.arrays@.len() - i,
        {
            let (index, array) = self.arrays[i];
            assert(0 <= cursors[i as int] < lens[i as int]);
            combination.push(&array[index]);
            i += 1;
        }
        self.arrange_next_combination();
        Some(combination)
    }
}

} // verus!
