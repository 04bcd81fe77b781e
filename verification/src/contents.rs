//! What operations do to the contents of a container, and what follows for
//! every run of them.
use vstd::prelude::*;

verus! {

/// What one step of an operation does to the contents of a container.
pub enum Effect<T> {
    /// The contents stay as they are.
    Nothing,
    /// A push takes effect: the payload is added.
    Pushed(T),
    /// A pop takes effect: the payload is removed and goes to the caller.
    Popped(T),
    /// A pop takes effect on an empty container: the caller gets nothing.
    Missed,
}

/// The effect of a pop that returns `result`.
pub open spec fn taking<T>(result: Option<T>) -> Effect<T> {
    match result {
        Some(payload) => Effect::Popped(payload),
        None => Effect::Missed,
    }
}

/// First in, first out: a push adds at the back, a pop removes at the front.
pub open spec fn fifo<T>(effect: Effect<T>, before: Seq<T>, after: Seq<T>) -> bool {
    match effect {
        Effect::Nothing => after == before,
        Effect::Pushed(payload) => after == before.push(payload),
        Effect::Popped(payload) => before.len() > 0 && payload == before[0] && after
            == before.skip(1),
        Effect::Missed => before.len() == 0 && after == before,
    }
}

/// Last in, first out: a push adds at the front, and a pop removes there.
pub open spec fn lifo<T>(effect: Effect<T>, before: Seq<T>, after: Seq<T>) -> bool {
    match effect {
        Effect::Nothing => after == before,
        Effect::Pushed(payload) => after == seq![payload] + before,
        Effect::Popped(payload) => before.len() > 0 && payload == before[0] && after
            == before.skip(1),
        Effect::Missed => before.len() == 0 && after == before,
    }
}

/// `states` are the contents of a queue before, between and after the steps
/// whose effects are `effects`.
pub open spec fn fifo_run<T>(effects: Seq<Effect<T>>, states: Seq<Seq<T>>) -> bool {
    &&& states.len() == effects.len() + 1
    &&& forall|i: int| 0 <= i < effects.len() ==> fifo(#[trigger] effects[i], states[i], states[i + 1])
}

/// `states` are the contents of a stack before, between and after the steps
/// whose effects are `effects`.
pub open spec fn lifo_run<T>(effects: Seq<Effect<T>>, states: Seq<Seq<T>>) -> bool {
    &&& states.len() == effects.len() + 1
    &&& forall|i: int| 0 <= i < effects.len() ==> lifo(#[trigger] effects[i], states[i], states[i + 1])
}

/// The payloads that the pushes among `effects` have added, in their order.
pub open spec fn pushes<T>(effects: Seq<Effect<T>>) -> Seq<T>
    decreases effects.len(),
{
    if effects.len() == 0 {
        Seq::empty()
    } else {
        match effects.last() {
            Effect::Pushed(payload) => pushes(effects.drop_last()).push(payload),
            _ => pushes(effects.drop_last()),
        }
    }
}

/// The payloads that the pops among `effects` have removed, in their order.
pub open spec fn pops<T>(effects: Seq<Effect<T>>) -> Seq<T>
    decreases effects.len(),
{
    if effects.len() == 0 {
        Seq::empty()
    } else {
        match effects.last() {
            Effect::Popped(payload) => pops(effects.drop_last()).push(payload),
            _ => pops(effects.drop_last()),
        }
    }
}

/// Conservation in a queue, for every order in which the steps of pushes and
/// pops come: what was there and what was pushed is, in this order, what was
/// popped and what is left. So no more is popped than was there or pushed,
/// and each payload that is popped was there or pushed, once.
pub proof fn lemma_fifo_conserves<T>(effects: Seq<Effect<T>>, states: Seq<Seq<T>>)
    requires
        fifo_run(effects, states),
    ensures
        states[0] + pushes(effects) == pops(effects) + states.last(),
        pops(effects).len() <= states[0].len() + pushes(effects).len(),
    decreases effects.len(),
{
    if effects.len() == 0 {
        assert(states[0] + pushes(effects) =~= pops(effects) + states.last());
    } else {
        let shorter = effects.drop_last();
        let earlier = states.drop_last();
        assert forall|i: int| 0 <= i < shorter.len() implies fifo(
            #[trigger] shorter[i],
            earlier[i],
            earlier[i + 1],
        ) by {
            assert(fifo(effects[i], states[i], states[i + 1]));
        }
        lemma_fifo_conserves(shorter, earlier);
        let at = effects.len() - 1;
        let before = states[at];
        let after = states[at + 1];
        let start = states[0];
        assert(fifo(effects[at], before, after));
        assert(earlier.last() == before);
        assert(earlier[0] == start);
        assert(states.last() == after);
        assert(start + pushes(shorter) == pops(shorter) + before);
        match effects.last() {
            Effect::Pushed(payload) => {
                assert(pushes(effects) == pushes(shorter).push(payload));
                assert(pops(effects) == pops(shorter));
                assert(start + pushes(shorter).push(payload) =~= (start + pushes(shorter)).push(
                    payload,
                ));
                assert((pops(shorter) + before).push(payload) =~= pops(shorter) + before.push(
                    payload,
                ));
            },
            Effect::Popped(payload) => {
                assert(pushes(effects) == pushes(shorter));
                assert(pops(effects) == pops(shorter).push(payload));
                assert(before =~= seq![payload] + after);
                assert(pops(shorter).push(payload) + after =~= pops(shorter) + (seq![payload]
                    + after));
            },
            _ => {
                assert(pushes(effects) == pushes(shorter));
                assert(pops(effects) == pops(shorter));
            },
        }
        assert(start + pushes(effects) == pops(effects) + after);
        assert((start + pushes(effects)).len() == (pops(effects) + after).len());
    }
}

/// Conservation in a stack, for every order in which the steps of pushes and
/// pops come: what was there and what was pushed is, counted with
/// multiplicity, what was popped and what is left.
pub proof fn lemma_lifo_conserves<T>(effects: Seq<Effect<T>>, states: Seq<Seq<T>>)
    requires
        lifo_run(effects, states),
    ensures
        states[0].to_multiset().add(pushes(effects).to_multiset()) == pops(
            effects,
        ).to_multiset().add(states.last().to_multiset()),
        pops(effects).len() + states.last().len() == states[0].len() + pushes(effects).len(),
    decreases effects.len(),
{
    if effects.len() == 0 {
        assert(pushes(effects) =~= Seq::<T>::empty());
        assert(pops(effects) =~= Seq::<T>::empty());
        assert(states[0].to_multiset().add(Seq::<T>::empty().to_multiset()) =~= Seq::<
            T,
        >::empty().to_multiset().add(states.last().to_multiset()));
    } else {
        let shorter = effects.drop_last();
        let earlier = states.drop_last();
        assert forall|i: int| 0 <= i < shorter.len() implies lifo(
            #[trigger] shorter[i],
            earlier[i],
            earlier[i + 1],
        ) by {
            assert(lifo(effects[i], states[i], states[i + 1]));
        }
        lemma_lifo_conserves(shorter, earlier);
        let at = effects.len() - 1;
        let before = states[at];
        let after = states[at + 1];
        let start = states[0];
        assert(lifo(effects[at], before, after));
        assert(earlier.last() == before);
        assert(earlier[0] == start);
        assert(states.last() == after);
        let was = start.to_multiset().add(pushes(shorter).to_multiset());
        assert(was == pops(shorter).to_multiset().add(before.to_multiset()));
        match effects.last() {
            Effect::Pushed(payload) => {
                assert(pushes(effects) == pushes(shorter).push(payload));
                assert(pops(effects) == pops(shorter));
                assert(after =~= before.insert(0, payload));
                vstd::seq_lib::to_multiset_insert(before, 0, payload);
                vstd::seq_lib::to_multiset_build(pushes(shorter), payload);
                assert(start.to_multiset().add(pushes(effects).to_multiset()) =~= was.insert(
                    payload,
                ));
                assert(pops(effects).to_multiset().add(after.to_multiset()) =~= was.insert(
                    payload,
                ));
            },
            Effect::Popped(payload) => {
                assert(pushes(effects) == pushes(shorter));
                assert(pops(effects) == pops(shorter).push(payload));
                assert(before =~= after.insert(0, payload));
                vstd::seq_lib::to_multiset_insert(after, 0, payload);
                vstd::seq_lib::to_multiset_build(pops(shorter), payload);
                assert(pops(effects).to_multiset().add(after.to_multiset()) =~= was);
            },
            _ => {
                assert(pushes(effects) == pushes(shorter));
                assert(pops(effects) == pops(shorter));
            },
        }
    }
}

/// The order of a queue: after the pushes of `values` into an empty queue,
/// as many pops return the values in the order of the pushes, and leave the
/// queue empty.
pub proof fn lemma_fifo_order<T>(values: Seq<T>, effects: Seq<Effect<T>>, states: Seq<Seq<T>>)
    requires
        fifo_run(effects, states),
        states[0].len() == 0,
        effects.len() == 2 * values.len(),
        forall|i: int| 0 <= i < values.len() ==> #[trigger] effects[i] == Effect::Pushed(values[i]),
        forall|i: int|
            values.len() <= i < effects.len() ==> (#[trigger] effects[i]) is Popped
                || effects[i] is Missed,
    ensures
        forall|i: int|
            0 <= i < values.len() ==> #[trigger] effects[values.len() + i] == Effect::Popped(
                values[i],
            ),
        states.last().len() == 0,
{
    let n = values.len() as int;
    lemma_filled(values, effects, states, n);
    lemma_emptied(values, effects, states, n);
    assert forall|i: int| 0 <= i < n implies #[trigger] effects[n + i] == Effect::Popped(
        values[i],
    ) by {
        lemma_emptied(values, effects, states, i);
        assert(fifo(effects[n + i], states[n + i], states[n + i + 1]));
    }
}

/// After the first `k` pushes the queue holds the first `k` values.
proof fn lemma_filled<T>(values: Seq<T>, effects: Seq<Effect<T>>, states: Seq<Seq<T>>, k: int)
    requires
        fifo_run(effects, states),
        states[0].len() == 0,
        effects.len() == 2 * values.len(),
        forall|i: int| 0 <= i < values.len() ==> #[trigger] effects[i] == Effect::Pushed(values[i]),
        0 <= k <= values.len(),
    ensures
        states[k] == values.take(k),
    decreases k,
{
    if k == 0 {
        assert(states[0] =~= values.take(0));
    } else {
        lemma_filled(values, effects, states, k - 1);
        assert(fifo(effects[k - 1], states[k - 1], states[k]));
        assert(states[k] =~= values.take(k));
    }
}

/// After the first `k` pops the queue holds the values from the `k`-th on.
proof fn lemma_emptied<T>(values: Seq<T>, effects: Seq<Effect<T>>, states: Seq<Seq<T>>, k: int)
    requires
        fifo_run(effects, states),
        states[0].len() == 0,
        effects.len() == 2 * values.len(),
        forall|i: int| 0 <= i < values.len() ==> #[trigger] effects[i] == Effect::Pushed(values[i]),
        forall|i: int|
            values.len() <= i < effects.len() ==> (#[trigger] effects[i]) is Popped
                || effects[i] is Missed,
        0 <= k <= values.len(),
    ensures
        states[values.len() + k] == values.skip(k),
    decreases k,
{
    let n = values.len() as int;
    if k == 0 {
        lemma_filled(values, effects, states, n);
        assert(values.take(n) =~= values.skip(0));
    } else {
        lemma_emptied(values, effects, states, k - 1);
        assert(fifo(effects[n + k - 1], states[n + k - 1], states[n + k]));
        assert(states[n + k] =~= values.skip(k));
    }
}

/// The order of a stack: after the pushes of `values` onto an empty stack,
/// as many pops return the values in the reverse order of the pushes, and
/// leave the stack empty.
pub proof fn lemma_lifo_order<T>(values: Seq<T>, effects: Seq<Effect<T>>, states: Seq<Seq<T>>)
    requires
        lifo_run(effects, states),
        states[0].len() == 0,
        effects.len() == 2 * values.len(),
        forall|i: int| 0 <= i < values.len() ==> #[trigger] effects[i] == Effect::Pushed(values[i]),
        forall|i: int|
            values.len() <= i < effects.len() ==> (#[trigger] effects[i]) is Popped
                || effects[i] is Missed,
    ensures
        forall|i: int|
            0 <= i < values.len() ==> #[trigger] effects[values.len() + i] == Effect::Popped(
                values[values.len() - 1 - i],
            ),
        states.last().len() == 0,
{
    let n = values.len() as int;
    lemma_unpiled(values, effects, states, n);
    assert forall|i: int| 0 <= i < n implies #[trigger] effects[n + i] == Effect::Popped(
        values[n - 1 - i],
    ) by {
        lemma_unpiled(values, effects, states, i);
        assert(lifo(effects[n + i], states[n + i], states[n + i + 1]));
    }
}

/// After the first `k` pushes the stack holds the first `k` values, the last
/// of them on top.
proof fn lemma_piled<T>(values: Seq<T>, effects: Seq<Effect<T>>, states: Seq<Seq<T>>, k: int)
    requires
        lifo_run(effects, states),
        states[0].len() == 0,
        effects.len() == 2 * values.len(),
        forall|i: int| 0 <= i < values.len() ==> #[trigger] effects[i] == Effect::Pushed(values[i]),
        0 <= k <= values.len(),
    ensures
        states[k] == values.take(k).reverse(),
    decreases k,
{
    if k == 0 {
        assert(states[0] =~= values.take(0).reverse());
    } else {
        lemma_piled(values, effects, states, k - 1);
        assert(lifo(effects[k - 1], states[k - 1], states[k]));
        assert(states[k] =~= values.take(k).reverse());
    }
}

/// After the first `k` pops the stack holds all but the last `k` values.
proof fn lemma_unpiled<T>(values: Seq<T>, effects: Seq<Effect<T>>, states: Seq<Seq<T>>, k: int)
    requires
        lifo_run(effects, states),
        states[0].len() == 0,
        effects.len() == 2 * values.len(),
        forall|i: int| 0 <= i < values.len() ==> #[trigger] effects[i] == Effect::Pushed(values[i]),
        forall|i: int|
            values.len() <= i < effects.len() ==> (#[trigger] effects[i]) is Popped
                || effects[i] is Missed,
        0 <= k <= values.len(),
    ensures
        states[values.len() + k] == values.take(values.len() - k).reverse(),
    decreases k,
{
    let n = values.len() as int;
    if k == 0 {
        lemma_piled(values, effects, states, n);
    } else {
        lemma_unpiled(values, effects, states, k - 1);
        assert(lifo(effects[n + k - 1], states[n + k - 1], states[n + k]));
        assert(states[n + k] =~= values.take(n - k).reverse());
    }
}

/// A pop of an empty container returns nothing and leaves the container
/// empty, however often it is repeated.
pub proof fn lemma_empty_stays_empty<T>(effects: Seq<Effect<T>>, states: Seq<Seq<T>>)
    requires
        fifo_run(effects, states) || lifo_run(effects, states),
        states[0].len() == 0,
        forall|i: int|
            0 <= i < effects.len() ==> (#[trigger] effects[i]) is Popped || effects[i] is Missed,
    ensures
        forall|i: int| 0 <= i < effects.len() ==> #[trigger] effects[i] == Effect::<T>::Missed,
        forall|i: int| 0 <= i < states.len() ==> (#[trigger] states[i]).len() == 0,
{
    assert forall|i: int| 0 <= i < states.len() implies (#[trigger] states[i]).len() == 0 by {
        lemma_still_empty(effects, states, i);
    }
    assert forall|i: int| 0 <= i < effects.len() implies #[trigger] effects[i] == Effect::<
        T,
    >::Missed by {
        lemma_still_empty(effects, states, i);
        assert(fifo(effects[i], states[i], states[i + 1]) || lifo(
            effects[i],
            states[i],
            states[i + 1],
        ));
    }
}

/// After `k` pops of an empty container the container is empty.
proof fn lemma_still_empty<T>(effects: Seq<Effect<T>>, states: Seq<Seq<T>>, k: int)
    requires
        fifo_run(effects, states) || lifo_run(effects, states),
        states[0].len() == 0,
        forall|i: int|
            0 <= i < effects.len() ==> (#[trigger] effects[i]) is Popped || effects[i] is Missed,
        0 <= k < states.len(),
    ensures
        states[k].len() == 0,
    decreases k,
{
    if k > 0 {
        lemma_still_empty(effects, states, k - 1);
        assert(fifo(effects[k - 1], states[k - 1], states[k]) || lifo(
            effects[k - 1],
            states[k - 1],
            states[k],
        ));
    }
}

/// The empty sequence holds nothing.
proof fn lemma_empty_multiset<T>()
    ensures
        Seq::<T>::empty().to_multiset() == vstd::multiset::Multiset::<T>::empty(),
{
    let none = Seq::<T>::empty();
    vstd::seq_lib::to_multiset_len(none);
    vstd::multiset::lemma_multiset_empty_len(none.to_multiset());
}

/// What one effect adds to the payloads that were pushed, and to those that
/// were popped.
proof fn lemma_one_effect<T>(effects: Seq<Effect<T>>, effect: Effect<T>)
    ensures
        pushes(effects.push(effect)).to_multiset() == pushes(effects).to_multiset().add(
            pushes(seq![effect]).to_multiset(),
        ),
        pops(effects.push(effect)).to_multiset() == pops(effects).to_multiset().add(
            pops(seq![effect]).to_multiset(),
        ),
{
    let longer = effects.push(effect);
    let single = seq![effect];
    assert(longer.drop_last() =~= effects);
    assert(longer.last() == effect);
    assert(single.drop_last() =~= Seq::<Effect<T>>::empty());
    assert(single.last() == effect);
    assert(pushes(Seq::<Effect<T>>::empty()) =~= Seq::<T>::empty());
    assert(pops(Seq::<Effect<T>>::empty()) =~= Seq::<T>::empty());
    let none = Seq::<T>::empty();
    lemma_empty_multiset::<T>();
    match effect {
        Effect::Pushed(payload) => {
            vstd::seq_lib::to_multiset_build(pushes(effects), payload);
            vstd::seq_lib::to_multiset_build(none, payload);
            assert(pushes(longer).to_multiset() =~= pushes(effects).to_multiset().add(
                pushes(single).to_multiset(),
            ));
            assert(pops(longer).to_multiset() =~= pops(effects).to_multiset().add(
                pops(single).to_multiset(),
            ));
        },
        Effect::Popped(payload) => {
            vstd::seq_lib::to_multiset_build(pops(effects), payload);
            vstd::seq_lib::to_multiset_build(none, payload);
            assert(pushes(longer).to_multiset() =~= pushes(effects).to_multiset().add(
                pushes(single).to_multiset(),
            ));
            assert(pops(longer).to_multiset() =~= pops(effects).to_multiset().add(
                pops(single).to_multiset(),
            ));
        },
        _ => {
            assert(pushes(longer).to_multiset() =~= pushes(effects).to_multiset().add(
                pushes(single).to_multiset(),
            ));
            assert(pops(longer).to_multiset() =~= pops(effects).to_multiset().add(
                pops(single).to_multiset(),
            ));
        },
    }
}

/// Who pushes and who pops counts, not where in the list of effects: an
/// effect that takes the place of no effect adds its payload.
pub proof fn lemma_effect_in_place<T>(effects: Seq<Effect<T>>, at: int, effect: Effect<T>)
    requires
        0 <= at < effects.len(),
        effects[at] is Nothing,
    ensures
        pushes(effects.update(at, effect)).to_multiset() == pushes(effects).to_multiset().add(
            pushes(seq![effect]).to_multiset(),
        ),
        pops(effects.update(at, effect)).to_multiset() == pops(effects).to_multiset().add(
            pops(seq![effect]).to_multiset(),
        ),
    decreases effects.len(),
{
    let changed = effects.update(at, effect);
    let shorter = effects.drop_last();
    if at == effects.len() - 1 {
        assert(changed =~= shorter.push(effect));
        lemma_one_effect(shorter, effect);
        assert(pushes(effects) == pushes(shorter));
        assert(pops(effects) == pops(shorter));
    } else {
        let last = effects.last();
        assert(changed =~= shorter.update(at, effect).push(last));
        assert(effects =~= shorter.push(last));
        lemma_effect_in_place(shorter, at, effect);
        lemma_one_effect(shorter.update(at, effect), last);
        lemma_one_effect(shorter, last);
        let a = pushes(shorter).to_multiset();
        let b = pushes(seq![effect]).to_multiset();
        let c = pushes(seq![last]).to_multiset();
        assert(a.add(b).add(c) =~= a.add(c).add(b));
        let x = pops(shorter).to_multiset();
        let y = pops(seq![effect]).to_multiset();
        let z = pops(seq![last]).to_multiset();
        assert(x.add(y).add(z) =~= x.add(z).add(y));
    }
}

/// One step conserves: what was there and what the step pushes is, counted
/// with multiplicity, what the step pops and what is left.
pub proof fn lemma_step_conserves<T>(effect: Effect<T>, before: Seq<T>, after: Seq<T>)
    requires
        fifo(effect, before, after) || lifo(effect, before, after),
    ensures
        before.to_multiset().add(pushes(seq![effect]).to_multiset()) == pops(
            seq![effect],
        ).to_multiset().add(after.to_multiset()),
{
    let single = seq![effect];
    let none = Seq::<T>::empty();
    assert(single.drop_last() =~= Seq::<Effect<T>>::empty());
    assert(single.last() == effect);
    assert(pushes(Seq::<Effect<T>>::empty()) =~= none);
    assert(pops(Seq::<Effect<T>>::empty()) =~= none);
    lemma_empty_multiset::<T>();
    match effect {
        Effect::Pushed(payload) => {
            vstd::seq_lib::to_multiset_build(none, payload);
            if after == before.push(payload) {
                vstd::seq_lib::to_multiset_build(before, payload);
            } else {
                assert(after =~= before.insert(0, payload));
                vstd::seq_lib::to_multiset_insert(before, 0, payload);
            }
            assert(before.to_multiset().add(pushes(single).to_multiset()) =~= pops(
                single,
            ).to_multiset().add(after.to_multiset()));
        },
        Effect::Popped(payload) => {
            vstd::seq_lib::to_multiset_build(none, payload);
            assert(before =~= after.insert(0, payload));
            vstd::seq_lib::to_multiset_insert(after, 0, payload);
            assert(before.to_multiset().add(pushes(single).to_multiset()) =~= pops(
                single,
            ).to_multiset().add(after.to_multiset()));
        },
        _ => {
            assert(before.to_multiset().add(pushes(single).to_multiset()) =~= pops(
                single,
            ).to_multiset().add(after.to_multiset()));
        },
    }
}

/// The payloads are conserved between `before` and `after`, given the effects
/// that the operations have had in between.
pub open spec fn conserved<T>(before: Seq<T>, effects: Seq<Effect<T>>, after: Seq<T>) -> bool {
    before.to_multiset().add(pushes(effects).to_multiset()) == pops(effects).to_multiset().add(
        after.to_multiset(),
    )
}

/// Conservation goes on: when the payloads were conserved up to here, and
/// the step of one operation, which had no effect before, has the effect
/// `effect`, they are conserved after the step.
pub proof fn lemma_conserved_step<T>(
    start: Seq<T>,
    effects: Seq<Effect<T>>,
    before: Seq<T>,
    at: int,
    effect: Effect<T>,
    after: Seq<T>,
)
    requires
        conserved(start, effects, before),
        0 <= at < effects.len(),
        effects[at] is Nothing,
        fifo(effect, before, after) || lifo(effect, before, after),
    ensures
        conserved(start, effects.update(at, effect), after),
{
    lemma_effect_in_place(effects, at, effect);
    lemma_step_conserves(effect, before, after);
    let s = start.to_multiset();
    let p = pushes(effects).to_multiset();
    let q = pops(effects).to_multiset();
    let b = before.to_multiset();
    let a = after.to_multiset();
    let dp = pushes(seq![effect]).to_multiset();
    let dq = pops(seq![effect]).to_multiset();
    assert(s.add(p) == q.add(b));
    assert(b.add(dp) == dq.add(a));
    assert(s.add(p.add(dp)) =~= s.add(p).add(dp));
    assert(q.add(b).add(dp) =~= q.add(b.add(dp)));
    assert(q.add(dq.add(a)) =~= q.add(dq).add(a));
}

/// Nothing has happened yet: the payloads are conserved.
pub proof fn lemma_conserved_start<T>(start: Seq<T>, effects: Seq<Effect<T>>)
    requires
        forall|i: int| 0 <= i < effects.len() ==> (#[trigger] effects[i]) is Nothing,
    ensures
        conserved(start, effects, start),
        pushes(effects).len() == 0,
        pops(effects).len() == 0,
    decreases effects.len(),
{
    if effects.len() == 0 {
        assert(pushes(effects) =~= Seq::<T>::empty());
        assert(pops(effects) =~= Seq::<T>::empty());
    } else {
        let shorter = effects.drop_last();
        assert(effects.last() == effects[effects.len() - 1]);
        assert forall|i: int| 0 <= i < shorter.len() implies (#[trigger] shorter[i]) is Nothing by {
            assert(shorter[i] == effects[i]);
        }
        lemma_conserved_start(start, shorter);
        assert(pushes(effects) == pushes(shorter));
        assert(pops(effects) == pops(shorter));
    }
    assert(pushes(effects) =~= Seq::<T>::empty());
    assert(pops(effects) =~= Seq::<T>::empty());
    lemma_empty_multiset::<T>();
    assert(start.to_multiset().add(vstd::multiset::Multiset::<T>::empty())
        =~= vstd::multiset::Multiset::<T>::empty().add(start.to_multiset()));
}

} // verus!
