use vstd::prelude::*;
use vstd::std_specs::cmp::PartialEqSpec;
use std::collections::VecDeque;

verus! {

/// The first `k` items of `s` are its last `k` items as well. Only a part
/// of the sequence counts, so `k` is less than its length.
pub open spec fn is_border<T>(s: Seq<T>, k: int) -> bool {
    &&& 0 <= k < s.len()
    &&& forall|t: int| 0 <= t < k ==> #[trigger] s[t] == s[s.len() - k + t]
}

/// `k` is the length of the longest part of `s` that `s` both begins and
/// ends with.
pub open spec fn is_longest_border<T>(s: Seq<T>, k: int) -> bool {
    &&& is_border(s, k)
    &&& forall|longer: int| k < longer < s.len() ==> !is_border(s, longer)
}

/// The sequence repeats with period `p`: each item is the one `p` places
/// before it.
pub open spec fn has_period<T>(s: Seq<T>, p: int) -> bool {
    &&& 1 <= p <= s.len()
    &&& forall|t: int| 0 <= t < s.len() - p ==> #[trigger] s[t] == s[t + p]
}

/// A sequence begins and ends with the same `k` items exactly when it
/// repeats with the period that is left of its length.
pub proof fn lemma_border_is_period<T>(s: Seq<T>, k: int)
    requires
        0 <= k < s.len(),
    ensures
        is_border(s, k) <==> has_period(s, s.len() - k),
{
    let p = s.len() - k;
    if is_border(s, k) {
        assert forall|t: int| 0 <= t < s.len() - p implies #[trigger] s[t] == s[t + p] by {
            assert(s[t] == s[s.len() - k + t]);
        }
    }
    if has_period(s, p) {
        assert forall|t: int| 0 <= t < k implies #[trigger] s[t] == s[s.len() - k + t] by {
            assert(s[t] == s[t + p]);
        }
    }
}

/// Among the parts shorter than a border of a sequence, the borders of the
/// sequence are the borders of that border.
proof fn lemma_border_of_border<T>(s: Seq<T>, outer: int, inner: int)
    requires
        is_border(s, outer),
        0 <= inner < outer,
    ensures
        is_border(s, inner) <==> is_border(s.take(outer), inner),
{
    let head = s.take(outer);
    let n = s.len() as int;
    if is_border(s, inner) {
        assert forall|t: int| 0 <= t < inner implies #[trigger] head[t] == head[head.len() - inner
            + t] by {
            // the end of the head is the end of the sequence
            assert(s[t] == s[n - inner + t]);
            assert(s[outer - inner + t] == s[n - outer + (outer - inner + t)]);
        }
    }
    if is_border(head, inner) {
        assert forall|t: int| 0 <= t < inner implies #[trigger] s[t] == s[n - inner + t] by {
            assert(head[t] == head[head.len() - inner + t]);
            assert(s[outer - inner + t] == s[n - outer + (outer - inner + t)]);
        }
    }
}

/// From one border of a sequence to the next shorter one: the longest
/// border of that border. Where the item behind no longer border is
/// `value`, and not the one behind this border either, the same holds of
/// the next.
proof fn lemma_next_border<T>(s: Seq<T>, border: int, shorter: int, value: T)
    requires
        is_border(s, border),
        border > 0,
        s[border] != value,
        is_longest_border(s.take(border), shorter),
        forall|longer: int| border < longer < s.len() && is_border(s, longer) ==> s[longer] != value,
    ensures
        is_border(s, shorter),
        forall|longer: int|
            shorter < longer < s.len() && is_border(s, longer) ==> s[longer] != value,
{
    lemma_border_of_border(s, border, shorter);
    assert forall|longer: int| shorter < longer < s.len() && is_border(s, longer) implies s[longer]
        != value by {
        if longer < border {
            lemma_border_of_border(s, border, longer);
        }
    }
}

/// The longest border of a sequence with one more item: one longer than
/// the longest border of the sequence that the new item follows there too,
/// or none.
proof fn lemma_longest_border_of_push<T>(s: Seq<T>, value: T, border: int, found: bool)
    requires
        s.len() > 0,
        is_border(s, border),
        found <==> s[border] == value,
        !found ==> border == 0,
        forall|longer: int| border < longer < s.len() && is_border(s, longer) ==> s[longer] != value,
    ensures
        is_longest_border(
            s.push(value),
            if found {
                border + 1
            } else {
                0
            },
        ),
{
    let after = s.push(value);
    let n = s.len() as int;
    let result = if found {
        border + 1
    } else {
        0
    };
    if found {
        assert forall|t: int| 0 <= t < result implies #[trigger] after[t] == after[n + 1 - result
            + t] by {
            if t < border {
                assert(s[t] == s[n - border + t]);
            }
        }
    }
    assert(is_border(after, result));
    assert forall|longer: int| result < longer < n + 1 implies !is_border(after, longer) by {
        if is_border(after, longer) {
            // without its last item a border of the longer sequence is a
            // border of the shorter one, and the new item follows it there
            let k = longer - 1;
            assert(after[k] == after[n + 1 - longer + k]);
            assert forall|t: int| 0 <= t < k implies #[trigger] s[t] == s[n - k + t] by {
                assert(after[t] == after[n + 1 - longer + t]);
            }
            assert(is_border(s, k));
            assert(s[k] == value);
        }
    }
}

/// A sequence with the length of its longest border after each of its
/// items, kept up to date as items are added.
#[derive(Debug, Clone, Default)]
pub struct IncrementalPrefixFunction<T>(pub Vec<(T, usize)>);

impl<T: Eq> IncrementalPrefixFunction<T> {
    /// The items pushed so far.
    pub open spec fn items(&self) -> Seq<T> {
        Seq::new(self.0@.len(), |i: int| self.0@[i].0)
    }

    /// After each item the length of the longest border of the sequence up
    /// to it is recorded.
    pub open spec fn wf(&self) -> bool {
        forall|i: int|
            0 <= i < self.0@.len() ==> is_longest_border(
                self.items().take(i + 1),
                (#[trigger] self.0@[i]).1 as int,
            )
    }

    /// Adds `value` at the end, with the length of the longest border of the
    /// sequence that it completes.
    pub fn push(&mut self, value: T)
        requires
            old(self).wf(),
            T::obeys_eq_spec(),
            forall|a: T, b: T| #[trigger] a.eq_spec(&b) <==> (a == b),
        ensures
            final(self).wf(),
            final(self).items() == old(self).items().push(value),
    {
        let len = self.0.len();
        let ghost before = self.items();
        if len == 0 {
            self.0.push((value, 0));
            proof {
                assert(self.items() =~= before.push(value));
                assert(self.items().take(1) =~= self.items());
                assert(is_longest_border(self.items(), 0));
            }
            return ;
        }
        let mut i = self.0[len - 1].1;
        proof {
            assert(before.take(len as int) =~= before);
        }
        while i > 0 && !Self::holds(&self.0[i].0, &value)
            invariant
                self.0@.len() == len,
                len > 0,
                self == old(self),
                before == self.items(),
                self.wf(),
                T::obeys_eq_spec(),
                forall|a: T, b: T| #[trigger] a.eq_spec(&b) <==> (a == b),
                is_border(before, i as int),
                forall|longer: int|
                    i < longer < len && is_border(before, longer) ==> before[longer] != value,
            decreases i,
        {
            let shorter = self.0[i - 1].1;
            proof {
                assert(before[i as int] == self.0@[i as int].0);
                assert(is_longest_border(before.take(i - 1 + 1), self.0@[i - 1].1 as int));
                lemma_next_border(before, i as int, shorter as int, value);
            }
            i = shorter;
        }
        let found = Self::holds(&self.0[i].0, &value);
        if found {
            i += 1;
        }
        proof {
            assert(before[if found {
                i - 1
            } else {
                i as int
            }] == self.0@[if found {
                i - 1
            } else {
                i as int
            }].0);
            lemma_longest_border_of_push(
                before,
                value,
                if found {
                    i - 1
                } else {
                    i as int
                },
                found,
            );
        }
        self.0.push((value, i));
        proof {
            let after = before.push(value);
            assert(self.items() =~= after);
            assert forall|j: int| 0 <= j < self.0@.len() implies is_longest_border(
                self.items().take(j + 1),
                (#[trigger] self.0@[j]).1 as int,
            ) by {
                if j < len {
                    assert(self.0@[j] == old(self).0@[j]);
                    assert(after.take(j + 1) =~= before.take(j + 1));
                } else {
                    assert(after.take(j + 1) =~= after);
                }
            }
        }
    }

    /// Whether `item` is `value`.
    fn holds(item: &T, value: &T) -> (same: bool)
        requires
            T::obeys_eq_spec(),
            forall|a: T, b: T| #[trigger] a.eq_spec(&b) <==> (a == b),
        ensures
            same == (*item == *value),
    {
        *item == *value
    }

    /// The least period with which the sequence repeats: its length less the
    /// length of its longest border. An empty sequence has none, and 0 is
    /// returned.
    pub fn cycle_len(&self) -> (period: usize)
        requires
            self.wf(),
        ensures
            self.items().len() == 0 ==> period == 0,
            self.items().len() > 0 ==> is_longest_border(
                self.items(),
                self.items().len() - period,
            ),
    {
        let len = self.0.len();
        if len == 0 {
            return 0;
        }
        proof {
            assert(self.items().take(len as int) =~= self.items());
        }
        len - self.0[len - 1].1
    }
}

/// The kinds of modules.
#[derive(Debug, Clone, Copy, PartialEq, Eq, Structural)]
pub enum ModuleType {
    Broadcast,
    FlipFlop,
    Conjunction,
}

/// A system of modules that send pulses to each other.
///
/// Module `i` is of kind `types[i]` and sends its pulses along `wires[i]`,
/// each wire given as the module at its end and the number of the input
/// there. The state of module `i` lies in the places from
/// `state_offsets[i]` up to `state_offsets[i + 1]` of the state of the
/// system.
#[derive(Debug, Clone)]
pub struct System {
    pub types: Vec<ModuleType>,
    pub wires: Vec<Vec<(usize, usize)>>,
    pub state_offsets: Vec<usize>,
    pub broadcast_module: usize,
}

impl System {
    /// The number of places of the state of the system: the last of the
    /// offsets, or 0 where there is none.
    pub fn state_len(&self) -> (len: usize)
        ensures
            len == if self.state_offsets@.len() == 0 {
                0
            } else {
                self.state_offsets@.last()
            },
    {
        let count = self.state_offsets.len();
        if count == 0 {
            0
        } else {
            self.state_offsets[count - 1]
        }
    }
}

/// A pulse on its way: the module that it goes to, the number of the input
/// that it arrives at, and whether it is high.
pub type Pulse = (usize, usize, bool);

impl System {
    /// Where the state of module `module` begins.
    pub open spec fn begin(&self, module: int) -> int {
        self.state_offsets@[module] as int
    }

    /// The system is wired up soundly for a state of `state_len` places:
    /// every module has its kind, its wires and its share of the state,
    /// every wire ends at a module, and every pulse that can arrive at a
    /// conjunction arrives at one of its inputs.
    pub open spec fn wf(&self, state_len: int) -> bool {
        &&& self.wires@.len() == self.types@.len()
        &&& self.state_offsets@.len() == self.types@.len() + 1
        &&& self.broadcast_module < self.types@.len()
        &&& self.arrives(self.broadcast_module as int, 0)
        &&& forall|module: int|
            0 <= module < self.types@.len() ==> self.begin(module) <= #[trigger] self.begin(
                module + 1,
            ) <= state_len
        &&& forall|module: int|
            0 <= module < self.types@.len() && #[trigger] self.types@[module]
                == ModuleType::FlipFlop ==> self.begin(module) < self.begin(module + 1)
        &&& forall|module: int, wire: int|
            0 <= module < self.types@.len() && 0 <= wire < self.wires@[module]@.len() ==> (
            #[trigger] self.wires@[module]@[wire]).0 < self.types@.len() && self.arrives(
                self.wires@[module]@[wire].0 as int,
                self.wires@[module]@[wire].1 as int,
            )
    }

    /// A pulse can arrive at input `input` of module `module`: a conjunction
    /// has a place in its state for the input.
    pub open spec fn arrives(&self, module: int, input: int) -> bool {
        self.types@[module] == ModuleType::Conjunction ==> self.begin(module) + input < self.begin(
            module + 1,
        )
    }

    /// Whether all the places from `from` up to `to` of the state are high.
    pub open spec fn all_high(state: Seq<bool>, from: int, to: int) -> bool {
        forall|place: int| from <= place < to ==> state[place]
    }

    /// The state after a pulse has arrived: a flip-flop that gets a low
    /// pulse flips, a conjunction notes the pulse at its input, and nothing
    /// else changes.
    pub open spec fn state_after(&self, state: Seq<bool>, pulse: Pulse) -> Seq<bool> {
        let (module, input, high) = pulse;
        match self.types@[module as int] {
            ModuleType::Broadcast => state,
            ModuleType::FlipFlop => if high {
                state
            } else {
                state.update(self.begin(module as int), !state[self.begin(module as int)])
            },
            ModuleType::Conjunction => state.update(self.begin(module as int) + input, high),
        }
    }

    /// What a module sends after a pulse has arrived, if it sends anything:
    /// a broadcaster what it got, a flip-flop that got a low pulse what it
    /// holds now, and a conjunction a low pulse where all its inputs were
    /// high last, and else a high one. A flip-flop that gets a high pulse
    /// sends nothing.
    pub open spec fn sends(&self, state: Seq<bool>, pulse: Pulse) -> Option<bool> {
        let (module, input, high) = pulse;
        let now = self.state_after(state, pulse);
        match self.types@[module as int] {
            ModuleType::Broadcast => Some(high),
            ModuleType::FlipFlop => if high {
                None
            } else {
                Some(now[self.begin(module as int)])
            },
            ModuleType::Conjunction => Some(
                !Self::all_high(now, self.begin(module as int), self.begin(module + 1)),
            ),
        }
    }

    /// The pulses that a module sends along its first `upto` wires after a
    /// pulse has arrived, in the order of the wires.
    pub open spec fn emitted(&self, state: Seq<bool>, pulse: Pulse, upto: int) -> Seq<Pulse>
        decreases upto,
    {
        if upto <= 0 || self.sends(state, pulse) is None {
            Seq::empty()
        } else {
            self.emitted(state, pulse, upto - 1).push(
                (
                    self.wires@[pulse.0 as int]@[upto - 1].0,
                    self.wires@[pulse.0 as int]@[upto - 1].1,
                    self.sends(state, pulse).unwrap(),
                ),
            )
        }
    }

    /// The pulses on their way after the first of them has arrived.
    pub open spec fn queue_after(&self, state: Seq<bool>, queue: Seq<Pulse>) -> Seq<Pulse> {
        queue.drop_first() + self.emitted(
            state,
            queue[0],
            self.wires@[queue[0].0 as int]@.len() as int,
        )
    }

    /// Whether no pulse is on its way any more after at most `rounds`
    /// pulses have arrived.
    pub open spec fn settles(&self, state: Seq<bool>, queue: Seq<Pulse>, rounds: nat) -> bool
        decreases rounds,
    {
        queue.len() == 0 || (rounds > 0 && self.settles(
            self.state_after(state, queue[0]),
            self.queue_after(state, queue),
            (rounds - 1) as nat,
        ))
    }

    /// The state when no pulse is on its way any more, and the numbers of
    /// low and of high pulses that have arrived by then, counted from `low`
    /// and from `high`.
    pub open spec fn settled(
        &self,
        state: Seq<bool>,
        queue: Seq<Pulse>,
        rounds: nat,
        low: int,
        high: int,
    ) -> (Seq<bool>, int, int)
        decreases rounds,
    {
        if queue.len() == 0 || rounds == 0 {
            (state, low, high)
        } else {
            self.settled(
                self.state_after(state, queue[0]),
                self.queue_after(state, queue),
                (rounds - 1) as nat,
                if queue[0].2 {
                    low
                } else {
                    low + 1
                },
                if queue[0].2 {
                    high + 1
                } else {
                    high
                },
            )
        }
    }

    /// The least number of pulses after whose arrival none is on its way
    /// any more.
    pub open spec fn rounds_left(&self, state: Seq<bool>, queue: Seq<Pulse>) -> nat {
        choose|rounds: nat|
            self.settles(state, queue, rounds) && forall|fewer: nat|
                fewer < rounds ==> !self.settles(state, queue, fewer)
    }

    /// Where the pulses die out at all, there is a least number of pulses
    /// after which they have.
    pub proof fn lemma_rounds_left(&self, state: Seq<bool>, queue: Seq<Pulse>, rounds: nat)
        requires
            self.settles(state, queue, rounds),
        ensures
            self.settles(state, queue, self.rounds_left(state, queue)),
            self.rounds_left(state, queue) <= rounds,
            forall|fewer: nat|
                fewer < self.rounds_left(state, queue) ==> !self.settles(state, queue, fewer),
        decreases rounds,
    {
        if exists|fewer: nat| fewer < rounds && self.settles(state, queue, fewer) {
            let fewer = choose|fewer: nat| fewer < rounds && self.settles(state, queue, fewer);
            self.lemma_rounds_left(state, queue, fewer);
        } else {
            assert(self.settles(state, queue, rounds) && forall|fewer: nat|
                fewer < rounds ==> !self.settles(state, queue, fewer));
        }
    }

    /// After a pulse has arrived, one pulse fewer is left to arrive.
    pub proof fn lemma_one_round(&self, state: Seq<bool>, queue: Seq<Pulse>, rounds: nat)
        requires
            self.settles(state, queue, rounds),
            queue.len() > 0,
        ensures
            self.rounds_left(state, queue) > 0,
            self.settles(
                self.state_after(state, queue[0]),
                self.queue_after(state, queue),
                (self.rounds_left(state, queue) - 1) as nat,
            ),
            self.rounds_left(self.state_after(state, queue[0]), self.queue_after(state, queue))
                == self.rounds_left(state, queue) - 1,
    {
        self.lemma_rounds_left(state, queue, rounds);
        let left = self.rounds_left(state, queue);
        let next_state = self.state_after(state, queue[0]);
        let next_queue = self.queue_after(state, queue);
        assert(left > 0);
        self.lemma_rounds_left(next_state, next_queue, (left - 1) as nat);
        let next_left = self.rounds_left(next_state, next_queue);
        if next_left < left - 1 {
            assert(self.settles(state, queue, (next_left + 1) as nat));
        }
    }
}

impl System {
    /// The pulse that the button sends: a low pulse to the broadcaster.
    pub open spec fn button(&self) -> Pulse {
        (self.broadcast_module, 0usize, false)
    }

    /// Every pulse on its way goes to an input of a module.
    pub open spec fn on_their_way(&self, queue: Seq<Pulse>) -> bool {
        forall|i: int|
            0 <= i < queue.len() ==> (#[trigger] queue[i]).0 < self.types@.len() && self.arrives(
                queue[i].0 as int,
                queue[i].1 as int,
            )
    }

    /// A module that sends `value` sends it along each of its wires.
    proof fn lemma_emitted(&self, state: Seq<bool>, pulse: Pulse, upto: int)
        requires
            0 <= upto,
        ensures
            self.emitted(state, pulse, upto) == match self.sends(state, pulse) {
                Some(value) => Seq::new(
                    upto as nat,
                    |i: int|
                        (
                            self.wires@[pulse.0 as int]@[i].0,
                            self.wires@[pulse.0 as int]@[i].1,
                            value,
                        ),
                ),
                None => Seq::empty(),
            },
        decreases upto,
    {
        if upto > 0 && self.sends(state, pulse) is Some {
            self.lemma_emitted(state, pulse, upto - 1);
            let value = self.sends(state, pulse).unwrap();
            let all = Seq::new(
                upto as nat,
                |i: int|
                    (self.wires@[pulse.0 as int]@[i].0, self.wires@[pulse.0 as int]@[i].1, value),
            );
            assert(self.emitted(state, pulse, upto) =~= all);
        } else if self.sends(state, pulse) is Some {
            let value = self.sends(state, pulse).unwrap();
            assert(self.emitted(state, pulse, upto) =~= Seq::new(
                upto as nat,
                |i: int|
                    (self.wires@[pulse.0 as int]@[i].0, self.wires@[pulse.0 as int]@[i].1, value),
            ));
        }
    }

    /// Sends `value` along each wire of `module`.
    fn send(&self, queue: &mut VecDeque<Pulse>, module: usize, value: bool)
        requires
            module < self.wires@.len(),
        ensures
            final(queue)@ == old(queue)@ + Seq::new(
                self.wires@[module as int]@.len(),
                |i: int| (self.wires@[module as int]@[i].0, self.wires@[module as int]@[i].1, value),
            ),
    {
        let wires = &self.wires[module];
        let mut i: usize = 0;
        while i < wires.len()
            invariant
                module < self.wires@.len(),
                wires@ == self.wires@[module as int]@,
                i <= wires@.len(),
                queue@ == old(queue)@ + Seq::new(
                    i as nat,
                    |k: int| (wires@[k].0, wires@[k].1, value),
                ),
            decreases wires@.len() - i,
        {
            let (to_idx, to_in_idx) = wires[i];
            let ghost before = queue@;
            queue.push_back((to_idx, to_in_idx, value));
            i += 1;
            proof {
                assert(queue@ =~= old(queue)@ + Seq::new(
                    i as nat,
                    |k: int| (wires@[k].0, wires@[k].1, value),
                ));
            }
        }
        proof {
            assert(queue@ =~= old(queue)@ + Seq::new(
                self.wires@[module as int]@.len(),
                |k: int|
                    (self.wires@[module as int]@[k].0, self.wires@[module as int]@[k].1, value),
            ));
        }
    }

    /// Lets one pulse arrive: changes the state of the module that it goes
    /// to, and sends on what that module sends.
    fn deliver(&self, state: &mut [bool], queue: &mut VecDeque<Pulse>, pulse: Pulse)
        requires
            self.wf(old(state)@.len() as int),
            pulse.0 < self.types@.len(),
            self.arrives(pulse.0 as int, pulse.1 as int),
        ensures
            final(state)@ == self.state_after(old(state)@, pulse),
            final(queue)@ == old(queue)@ + self.emitted(
                old(state)@,
                pulse,
                self.wires@[pulse.0 as int]@.len() as int,
            ),
    {
        let (module_idx, in_idx, high) = pulse;
        proof {
            self.lemma_emitted(old(state)@, pulse, self.wires@[module_idx as int]@.len() as int);
        }
        match self.types[module_idx] {
            ModuleType::Broadcast => {
                self.send(queue, module_idx, high);
            },
            ModuleType::FlipFlop => {
                if !high {
                    let offset = self.state_offsets[module_idx];
                    assert(self.begin(module_idx as int) < self.begin(module_idx + 1));
                    let flipped = !state[offset];
                    state[offset] = flipped;
                    self.send(queue, module_idx, flipped);
                } else {
                    assert(queue@ =~= old(queue)@ + Seq::<Pulse>::empty());
                }
            },
            ModuleType::Conjunction => {
                let state_begin = self.state_offsets[module_idx];
                assert(module_idx + 1 < self.state_offsets.len());
                let state_end = self.state_offsets[module_idx + 1];
                assert(self.begin(module_idx as int) <= self.begin(module_idx + 1));
                state[state_begin + in_idx] = high;
                let mut all_high = true;
                let mut place = state_begin;
                while place < state_end
                    invariant
                        state_begin <= place <= state_end <= state@.len(),
                        all_high == Self::all_high(state@, state_begin as int, place as int),
                    decreases state_end - place,
                {
                    if !state[place] {
                        all_high = false;
                    }
                    place += 1;
                }
                self.send(queue, module_idx, !all_high);
            },
        }
        proof {
            assert(state@ =~= self.state_after(old(state)@, pulse));
        }
    }

    /// What holds after one more pulse has arrived: one pulse fewer is left
    /// to arrive, the pulses on their way still go to inputs of modules, and
    /// the state to come and the numbers of pulses are what they were going
    /// to be.
    proof fn lemma_after_round(&self, state: Seq<bool>, queue: Seq<Pulse>, low: int, high: int)
        requires
            self.wf(state.len() as int),
            self.on_their_way(queue),
            queue.len() > 0,
            self.settles(state, queue, self.rounds_left(state, queue)),
        ensures
            ({
                let next_state = self.state_after(state, queue[0]);
                let next_queue = self.queue_after(state, queue);
                &&& next_state.len() == state.len()
                &&& self.on_their_way(next_queue)
                &&& self.rounds_left(state, queue) > 0
                &&& self.rounds_left(next_state, next_queue) == self.rounds_left(state, queue) - 1
                &&& self.settles(next_state, next_queue, self.rounds_left(next_state, next_queue))
                &&& self.settled(
                    next_state,
                    next_queue,
                    self.rounds_left(next_state, next_queue),
                    if queue[0].2 {
                        low
                    } else {
                        low + 1
                    },
                    if queue[0].2 {
                        high + 1
                    } else {
                        high
                    },
                ) == self.settled(state, queue, self.rounds_left(state, queue), low, high)
            }),
    {
        let pulse = queue[0];
        let next_queue = self.queue_after(state, queue);
        let count = self.wires@[pulse.0 as int]@.len() as int;
        self.lemma_one_round(state, queue, self.rounds_left(state, queue));
        self.lemma_emitted(state, pulse, count);
        assert forall|i: int| 0 <= i < next_queue.len() implies (#[trigger] next_queue[i]).0
            < self.types@.len() && self.arrives(next_queue[i].0 as int, next_queue[i].1 as int) by {
            if i < queue.len() - 1 {
                assert(next_queue[i] == queue[i + 1]);
            } else {
                let wire = i - (queue.len() - 1);
                assert(next_queue[i] == self.emitted(state, pulse, count)[wire]);
                assert(next_queue[i].0 == self.wires@[pulse.0 as int]@[wire].0);
                assert(next_queue[i].1 == self.wires@[pulse.0 as int]@[wire].1);
            }
        }
    }

    /// Presses the button once and lets the pulses run until none is on its
    /// way any more. Returns the numbers of low and of high pulses that have
    /// arrived, and leaves the modules in the state that they are in then.
    ///
    /// The pulses must die out: nothing is returned from a system in which
    /// they go round forever.
    pub fn simulate_cycle(&self, state: &mut [bool], queue: &mut VecDeque<Pulse>) -> (counts: [usize; 2])
        requires
            self.wf(old(state)@.len() as int),
            old(queue)@.len() == 0,
            exists|rounds: nat| self.settles(old(state)@, seq![self.button()], rounds),
            self.rounds_left(old(state)@, seq![self.button()]) <= usize::MAX,
        ensures
            final(queue)@.len() == 0,
            (final(state)@, counts@[0] as int, counts@[1] as int) == self.settled(
                old(state)@,
                seq![self.button()],
                self.rounds_left(old(state)@, seq![self.button()]),
                0,
                0,
            ),
    {
        let mut low: usize = 0;
        let mut high: usize = 0;
        queue.push_back((self.broadcast_module, 0, false));
        let ghost first_queue = seq![self.button()];
        let ghost total = self.rounds_left(old(state)@, first_queue);
        proof {
            assert(queue@ =~= first_queue);
            let rounds = choose|rounds: nat| self.settles(old(state)@, first_queue, rounds);
            self.lemma_rounds_left(old(state)@, first_queue, rounds);
        }
        loop
            invariant
                self.wf(state@.len() as int),
                first_queue == seq![self.button()],
                total == self.rounds_left(old(state)@, first_queue),
                total <= usize::MAX,
                self.on_their_way(queue@),
                self.settles(state@, queue@, self.rounds_left(state@, queue@)),
                low + high + self.rounds_left(state@, queue@) == total,
                self.settled(
                    state@,
                    queue@,
                    self.rounds_left(state@, queue@),
                    low as int,
                    high as int,
                ) == self.settled(old(state)@, first_queue, total, 0, 0),
            ensures
                queue@.len() == 0,
                self.settled(
                    state@,
                    queue@,
                    self.rounds_left(state@, queue@),
                    low as int,
                    high as int,
                ) == self.settled(old(state)@, first_queue, total, 0, 0),
            decreases self.rounds_left(state@, queue@),
        {
            let ghost before = state@;
            let ghost waiting = queue@;
            let pulse = match queue.pop_front() {
                Some(pulse) => pulse,
                None => {
                    break ;
                },
            };
            proof {
                assert(waiting[0] == pulse);
                assert(queue@ =~= waiting.drop_first());
                self.lemma_after_round(before, waiting, low as int, high as int);
            }
            if pulse.2 {
                high += 1;
            } else {
                low += 1;
            }
            self.deliver(state, queue, pulse);
        }
        [low, high]
    }
}

} // verus!
