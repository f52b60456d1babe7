use std::collections::VecDeque;
use vstd::prelude::*;

verus! {

/// Number of samples a chart keeps on screen.
pub const HISTORY: usize = 60;

/// Number of serialized snapshots the server keeps for late joiners.
pub const HISTORY_SIZE: usize = 60;

/// Appends `v` to `s` and, when the result is longer than `cap`,
/// drops the oldest element.
pub open spec fn window_push<T>(s: Seq<T>, v: T, cap: nat) -> Seq<T> {
    let t = s.push(v);
    if t.len() > cap {
        t.drop_first()
    } else {
        t
    }
}

/// The window obtained by pushing every element of `vs`, oldest first,
/// into an empty history of capacity `cap`.
pub open spec fn window_after<T>(vs: Seq<T>, cap: nat) -> Seq<T>
    decreases vs.len(),
{
    if vs.len() == 0 {
        Seq::empty()
    } else {
        window_push(window_after(vs.drop_last(), cap), vs.last(), cap)
    }
}

/// The last `cap` elements of `vs` (all of them when there are fewer).
pub open spec fn latest<T>(vs: Seq<T>, cap: nat) -> Seq<T> {
    if vs.len() > cap {
        vs.subrange(vs.len() - cap, vs.len() as int)
    } else {
        vs
    }
}

/// Records a chart sample: `v` becomes the newest value and, once the
/// history holds more than `HISTORY` samples, the oldest one is dropped.
pub fn push_hist<T>(h: &mut Vec<T>, v: T)
    ensures
        final(h)@ == window_push(old(h)@, v, HISTORY as nat),
        old(h)@.len() < HISTORY ==> final(h)@ == old(h)@.push(v),
        old(h)@.len() >= HISTORY ==> final(h)@ == old(h)@.subrange(1, old(h)@.len() as int).push(v),
{
    h.push(v);
    if h.len() > HISTORY {
        h.remove(0);
    }
    proof {
        if old(h)@.len() >= HISTORY {
            assert(old(h)@.push(v).drop_first() =~= old(h)@.subrange(1, old(h)@.len() as int).push(v));
        }
    }
}

/// Records a serialized snapshot in the server's replay buffer: `msg`
/// becomes the newest entry and, once more than `HISTORY_SIZE` entries
/// are held, the oldest one is dropped.
pub fn record_snapshot(hist: &mut VecDeque<String>, msg: String)
    ensures
        final(hist)@ == window_push(old(hist)@, msg, HISTORY_SIZE as nat),
        old(hist)@.len() < HISTORY_SIZE ==> final(hist)@ == old(hist)@.push(msg),
        old(hist)@.len() >= HISTORY_SIZE ==> final(hist)@ == old(hist)@.subrange(
            1,
            old(hist)@.len() as int,
        ).push(msg),
{
    let ghost pushed = old(hist)@.push(msg);
    hist.push_back(msg);
    if hist.len() > HISTORY_SIZE {
        hist.pop_front();
        assert(hist@ =~= pushed.drop_first());
    }
    proof {
        if old(hist)@.len() >= HISTORY_SIZE {
            assert(pushed.drop_first() =~= old(hist)@.subrange(1, old(hist)@.len() as int).push(pushed.last()));
        }
    }
}

/// A history that holds at most `cap` samples still does after a push,
/// and the pushed value is its newest sample.
pub proof fn lemma_window_push_bounded<T>(s: Seq<T>, v: T, cap: nat)
    requires
        s.len() <= cap,
        cap > 0,
    ensures
        window_push(s, v, cap).len() <= cap,
        window_push(s, v, cap).len() == if s.len() < cap { s.len() + 1 } else { cap },
        window_push(s, v, cap).last() == v,
{
}

/// Pushing a sequence of samples into an empty history leaves exactly
/// the latest `cap` of them, oldest first.
pub proof fn lemma_window_after_is_latest<T>(vs: Seq<T>, cap: nat)
    requires
        cap > 0,
    ensures
        window_after(vs, cap) == latest(vs, cap),
    decreases vs.len(),
{
    if vs.len() > 0 {
        let prefix = vs.drop_last();
        lemma_window_after_is_latest(prefix, cap);
        let w = latest(prefix, cap);
        let t = w.push(vs.last());
        if prefix.len() >= cap {
            assert(t.drop_first() =~= latest(vs, cap));
        } else {
            assert(t =~= latest(vs, cap));
        }
    }
}

} // verus!
