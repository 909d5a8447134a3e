use vstd::prelude::*;

verus! {

/// The values of a history as integers.
pub open spec fn values(history: Seq<i64>) -> Seq<int> {
    Seq::new(history.len(), |i: int| history[i] as int)
}

/// The steps from each value of a sequence to the next.
pub open spec fn differences(s: Seq<int>) -> Seq<int> {
    Seq::new((s.len() - 1) as nat, |i: int| s[i + 1] - s[i])
}

/// All values of the sequence are the same.
pub open spec fn is_constant(s: Seq<int>) -> bool {
    forall|i: int| 0 <= i < s.len() ==> #[trigger] s[i] == s[0]
}

/// The value that continues a sequence: the value itself where all are the
/// same, and else the last value plus what continues the sequence of the
/// steps.
pub open spec fn next_value(s: Seq<int>) -> int
    decreases s.len(),
{
    if s.len() <= 1 || is_constant(s) {
        s[0]
    } else {
        s.last() + next_value(differences(s))
    }
}

/// Whether a number is a 64-bit integer.
pub open spec fn fits(n: int) -> bool {
    i64::MIN <= n <= i64::MAX
}

/// Whether a sequence can be continued in 64-bit integers: its values, the
/// values of the sequences of steps down to the one where all are the same,
/// and the values that continue them are all 64-bit integers.
pub open spec fn continues_in_range(s: Seq<int>) -> bool
    decreases s.len(),
{
    &&& s.len() >= 1
    &&& forall|i: int| 0 <= i < s.len() ==> fits(#[trigger] s[i])
    &&& s.len() <= 1 || is_constant(s) || (continues_in_range(differences(s)) && fits(
        s.last() + next_value(differences(s)),
    ))
}

/// The sequence of steps of the sequence of steps and so on, `depth` times.
pub open spec fn level(s: Seq<int>, depth: int) -> Seq<int>
    decreases depth,
{
    if depth <= 0 {
        s
    } else {
        differences(level(s, depth - 1))
    }
}

/// A sequence with the value that continues it.
pub open spec fn continued(s: Seq<int>) -> Seq<int> {
    s.push(next_value(s))
}

/// The values of a history from position `from` on.
pub open spec fn tail(history: Seq<i64>, from: int) -> Seq<int> {
    values(history).subrange(from, history.len() as int)
}

/// Whether all readings from position `from` on are the same.
fn is_flat(history: &Vec<i64>, from: usize) -> (flat: bool)
    requires
        from < history@.len(),
    ensures
        flat == is_constant(tail(history@, from as int)),
{
    let ghost here = tail(history@, from as int);
    let mut k: usize = from;
    while k < history.len()
        invariant
            from <= k <= history@.len(),
            from < history@.len(),
            here == tail(history@, from as int),
            forall|t: int| 0 <= t < k - from ==> #[trigger] here[t] == here[0],
        decreases history@.len() - k,
    {
        if history[k] != history[from] {
            assert(here[k - from] == history@[k as int]);
            assert(here[0] == history@[from as int]);
            return false;
        }
        assert(here[k - from] == history@[k as int]);
        k += 1;
    }
    true
}

/// Replaces the readings behind position `from` by the steps that lead to
/// them.
fn step_down(history: &mut Vec<i64>, from: usize)
    requires
        from < old(history)@.len(),
        forall|t: int|
            0 <= t < old(history)@.len() - from - 1 ==> fits(
                #[trigger] differences(tail(old(history)@, from as int))[t],
            ),
    ensures
        final(history)@.len() == old(history)@.len(),
        tail(final(history)@, from + 1) == differences(tail(old(history)@, from as int)),
        forall|m: int| 0 <= m <= from ==> final(history)@[m] == old(history)@[m],
{
    let len = history.len();
    let ghost here = tail(history@, from as int);
    let ghost steps = differences(here);
    let mut j: usize = len - 1;
    while j > from
        invariant
            history@.len() == len,
            old(history)@.len() == len,
            from <= j < len,
            here == tail(old(history)@, from as int),
            steps == differences(here),
            forall|t: int| 0 <= t < len - from - 1 ==> fits(#[trigger] steps[t]),
            forall|m: int| 0 <= m <= j ==> history@[m] == old(history)@[m],
            forall|t: int| j - from <= t < len - from - 1 ==> history@[from + 1 + t] == #[trigger] steps[t],
        decreases j,
    {
        proof {
            assert(here[j - from] == old(history)@[j as int]);
            assert(here[j - from - 1] == old(history)@[j - 1]);
            assert(fits(steps[j - from - 1]));
        }
        history[j] -= history[j - 1];
        j -= 1;
    }
    proof {
        assert forall|t: int| 0 <= t < len - from - 1 implies tail(history@, from + 1)[t]
            == steps[t] by {
            assert(history@[from + 1 + t] == steps[t]);
        }
        assert(tail(history@, from + 1) =~= steps);
    }
}

/// Turns the continued steps behind position `from` back into the continued
/// readings that they lead to.
fn build_up(history: &mut Vec<i64>, from: usize, Ghost(upper): Ghost<Seq<int>>)
    requires
        from + 2 <= old(history)@.len(),
        upper.len() == old(history)@.len() - from - 1,
        upper.len() >= 2,
        !is_constant(upper),
        forall|t: int| 0 <= t < upper.len() ==> fits(#[trigger] upper[t]),
        fits(upper.last() + next_value(differences(upper))),
        old(history)@[from as int] == upper[0],
        tail(old(history)@, from + 1) == continued(differences(upper)),
    ensures
        final(history)@.len() == old(history)@.len(),
        tail(final(history)@, from as int) == continued(upper),
        forall|m: int| 0 <= m < from ==> final(history)@[m] == old(history)@[m],
{
    let len = history.len();
    let ghost lower = continued(differences(upper));
    let ghost full = continued(upper);
    proof {
        assert forall|t: int| 0 <= t < len - from - 1 implies history@[from + 1 + t]
            == #[trigger] lower[t] by {
            assert(tail(history@, from + 1)[t] == history@[from + 1 + t]);
        }
    }
    let mut k: usize = from + 1;
    while k < len
        invariant
            history@.len() == len,
            old(history)@.len() == len,
            from + 1 <= k <= len,
            upper.len() == len - from - 1,
            upper.len() >= 2,
            !is_constant(upper),
            forall|t: int| 0 <= t < upper.len() ==> fits(#[trigger] upper[t]),
            fits(upper.last() + next_value(differences(upper))),
            lower == continued(differences(upper)),
            full == continued(upper),
            forall|m: int| 0 <= m < from ==> history@[m] == old(history)@[m],
            forall|t: int| 0 <= t < k - from ==> history@[from + t] == #[trigger] full[t],
            forall|t: int| k - from - 1 <= t < len - from - 1 ==> history@[from + 1 + t] == #[trigger] lower[t],
        decreases len - k,
    {
        proof {
            let t = k - from - 1;
            assert(history@[from + t] == full[t]);
            assert(history@[from + 1 + t] == lower[t]);
            assert(full[t + 1] == full[t] + lower[t]) by {
                if t + 1 < upper.len() {
                    assert(differences(upper)[t] == upper[t + 1] - upper[t]);
                }
            }
            if t + 1 < upper.len() {
                assert(fits(upper[t + 1]));
            }
        }
        history[k] += history[k - 1];
        k += 1;
    }
    proof {
        assert forall|t: int| 0 <= t < len - from implies tail(history@, from as int)[t]
            == full[t] by {
            assert(history@[from + t] == full[t]);
        }
        assert(tail(history@, from as int) =~= full);
    }
}

/// The value that continues a history of readings: the last reading where
/// all are the same, and else the last reading plus what continues the
/// history of the steps from each reading to the next.
pub fn extrapolate(history: Vec<i64>) -> (next: i64)
    requires
        continues_in_range(values(history@)),
    ensures
        next == next_value(values(history@)),
{
    let mut history = history;
    let ghost first = values(history@);
    let len = history.len();
    let mut depth: usize = 0;
    assert(tail(history@, 0) =~= first);
    while !is_flat(&history, depth)
        invariant
            history@.len() == len,
            first.len() == len,
            depth < len,
            tail(history@, depth as int) == level(first, depth as int),
            continues_in_range(level(first, depth as int)),
            forall|d: int| 0 <= d < depth ==> history@[d] == (#[trigger] level(first, d))[0],
            forall|d: int|
                0 <= d < depth ==> {
                    &&& (#[trigger] level(first, d)).len() == len - d
                    &&& !is_constant(level(first, d))
                    &&& continues_in_range(level(first, d))
                    &&& fits(level(first, d).last() + next_value(level(first, d + 1)))
                },
        decreases len - depth,
    {
        let ghost here = level(first, depth as int);
        proof {
            assert(here.len() == len - depth);
            assert(here.len() >= 2) by {
                if here.len() == 1 {
                    assert(is_constant(here));
                }
            }
            assert(level(first, depth + 1) == differences(here));
            assert(continues_in_range(differences(here)));
            assert forall|t: int| 0 <= t < len - depth - 1 implies fits(
                #[trigger] differences(here)[t],
            ) by {
                assert(differences(here).len() == len - depth - 1);
            }
            assert(here[0] == history@[depth as int]);
        }
        step_down(&mut history, depth);
        depth += 1;
    }
    let ghost flat = level(first, depth as int);
    let constant = history[depth];
    history.push(constant);
    proof {
        assert(flat[0] == constant);
        assert(next_value(flat) == flat[0]);
        assert(tail(history@, depth as int) =~= continued(flat));
    }
    while depth > 0
        invariant
            history@.len() == len + 1,
            first.len() == len,
            depth < len,
            level(first, depth as int).len() == len - depth,
            tail(history@, depth as int) == continued(level(first, depth as int)),
            forall|d: int| 0 <= d < depth ==> history@[d] == (#[trigger] level(first, d))[0],
            forall|d: int|
                0 <= d < depth ==> {
                    &&& (#[trigger] level(first, d)).len() == len - d
                    &&& !is_constant(level(first, d))
                    &&& continues_in_range(level(first, d))
                    &&& fits(level(first, d).last() + next_value(level(first, d + 1)))
                },
        decreases depth,
    {
        depth -= 1;
        let ghost upper = level(first, depth as int);
        proof {
            assert(level(first, depth + 1) == differences(upper));
            assert(upper.len() >= 2) by {
                if upper.len() == 1 {
                    assert(is_constant(upper));
                }
            }
        }
        build_up(&mut history, depth, Ghost(upper));
    }
    proof {
        assert(level(first, 0) == first);
        assert(tail(history@, 0)[len as int] == continued(first)[len as int]);
    }
    history[history.len() - 1]
}

} // verus!
