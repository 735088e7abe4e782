//! The reactor's registry of wakers: tasks waiting for I/O readiness leave a waker
//! under the token of their source, and each readiness event fires and removes the
//! waker registered under its token.
use vstd::prelude::*;
use std::collections::HashMap;

verus! {

broadcast use vstd::std_specs::hash::group_hash_axioms;

/// What firing the events `tokens`, in order, does to the registry `m`: the wakers
/// fired, in event order, and the registry afterwards. An event fires the waker
/// registered under its token, if any, and removes it.
pub open spec fn dispatch<W>(m: Map<usize, W>, tokens: Seq<usize>) -> (Seq<W>, Map<usize, W>)
    decreases tokens.len(),
{
    if tokens.len() == 0 {
        (Seq::empty(), m)
    } else {
        let (fired, rest) = dispatch(m, tokens.drop_last());
        let t = tokens.last();
        if rest.contains_key(t) {
            (fired.push(rest[t]), rest.remove(t))
        } else {
            (fired, rest)
        }
    }
}

/// Firing events removes exactly the wakers registered under their tokens: every
/// other waker stays registered as it was.
pub proof fn lemma_dispatch_removes_event_tokens<W>(m: Map<usize, W>, tokens: Seq<usize>)
    ensures
        dispatch(m, tokens).1 == m.remove_keys(tokens.to_set()),
    decreases tokens.len(),
{
    if tokens.len() > 0 {
        let prefix = tokens.drop_last();
        lemma_dispatch_removes_event_tokens(m, prefix);
        assert(tokens.to_set() =~= prefix.to_set().insert(tokens.last())) by {
            assert forall|t: usize| tokens.to_set().contains(t) implies prefix.to_set().insert(
                tokens.last(),
            ).contains(t) by {
                let i = choose|i: int| 0 <= i < tokens.len() && tokens[i] == t;
                if i < tokens.len() - 1 {
                    assert(prefix[i] == t);
                }
            }
            assert forall|t: usize| prefix.to_set().insert(tokens.last()).contains(t) implies tokens.to_set().contains(
                t,
            ) by {
                if t != tokens.last() {
                    let i = choose|i: int| 0 <= i < prefix.len() && prefix[i] == t;
                    assert(tokens[i] == t);
                } else {
                    assert(tokens[tokens.len() - 1] == t);
                }
            }
        }
        assert(dispatch(m, tokens).1 =~= m.remove_keys(tokens.to_set()));
    } else {
        assert(tokens.to_set() =~= Set::empty());
        assert(m.remove_keys(tokens.to_set()) =~= m);
    }
}

/// Each event fires at most one waker, and every fired waker is one that was
/// registered under the token of one of the events.
pub proof fn lemma_dispatch_fires_registered<W>(m: Map<usize, W>, tokens: Seq<usize>)
    ensures
        dispatch(m, tokens).0.len() <= tokens.len(),
        forall|i: int|
            0 <= i < dispatch(m, tokens).0.len() ==> exists|j: int|
                0 <= j < tokens.len() && m.contains_key(tokens[j]) && #[trigger] dispatch(
                    m,
                    tokens,
                ).0[i] == m[tokens[j]],
    decreases tokens.len(),
{
    if tokens.len() > 0 {
        let prefix = tokens.drop_last();
        lemma_dispatch_fires_registered(m, prefix);
        lemma_dispatch_removes_event_tokens(m, prefix);
        let (fired, rest) = dispatch(m, prefix);
        assert forall|i: int| 0 <= i < dispatch(m, tokens).0.len() implies exists|j: int|
            0 <= j < tokens.len() && m.contains_key(tokens[j]) && #[trigger] dispatch(m, tokens).0[i]
                == m[tokens[j]] by {
            if i < fired.len() {
                let j = choose|j: int|
                    0 <= j < prefix.len() && m.contains_key(prefix[j]) && #[trigger] fired[i]
                        == m[prefix[j]];
                assert(tokens[j] == prefix[j]);
            } else {
                let t = tokens.last();
                assert(rest.contains_key(t));
                assert(rest[t] == m[t]);
                assert(tokens[tokens.len() - 1] == t);
            }
        }
    }
}

/// The tokens of a sequence are those of all but its last element, and the last.
proof fn lemma_to_set_last(tokens: Seq<usize>)
    requires
        tokens.len() > 0,
    ensures
        tokens.to_set() == tokens.drop_last().to_set().insert(tokens.last()),
{
    let prefix = tokens.drop_last();
    assert forall|t: usize| tokens.to_set().contains(t) implies prefix.to_set().insert(
        tokens.last(),
    ).contains(t) by {
        let i = choose|i: int| 0 <= i < tokens.len() && tokens[i] == t;
        if i < tokens.len() - 1 {
            assert(prefix[i] == t);
        }
    }
    assert forall|t: usize| prefix.to_set().insert(tokens.last()).contains(t) implies tokens.to_set().contains(
        t,
    ) by {
        if t != tokens.last() {
            let i = choose|i: int| 0 <= i < prefix.len() && prefix[i] == t;
            assert(tokens[i] == t);
        } else {
            assert(tokens[tokens.len() - 1] == t);
        }
    }
    assert(tokens.to_set() =~= prefix.to_set().insert(tokens.last()));
}

/// No wake-up is lost: a batch of events fires, once each, the waker of every
/// distinct token of the batch that had one registered, and nothing else. The
/// returned `hit` lists those tokens without repetition, in the order they were
/// first met; the fired wakers are the ones registered under them, in that order.
pub proof fn lemma_dispatch_fires_every_hit<W>(m: Map<usize, W>, tokens: Seq<usize>) -> (hit: Seq<usize>)
    ensures
        hit.no_duplicates(),
        hit.to_set() == m.dom().intersect(tokens.to_set()),
        dispatch(m, tokens).0 == hit.map_values(|t: usize| m[t]),
    decreases tokens.len(),
{
    if tokens.len() == 0 {
        assert(tokens.to_set() =~= Set::empty());
        let hit = Seq::<usize>::empty();
        assert(hit.to_set() =~= Set::empty());
        assert(m.dom().intersect(tokens.to_set()) =~= Set::empty());
        assert(hit.map_values(|t: usize| m[t]) =~= Seq::<W>::empty());
        hit
    } else {
        let prefix = tokens.drop_last();
        let hit0 = lemma_dispatch_fires_every_hit(m, prefix);
        lemma_dispatch_removes_event_tokens(m, prefix);
        lemma_to_set_last(tokens);
        let (fired0, rest) = dispatch(m, prefix);
        let t = tokens.last();
        assert(rest.contains_key(t) <==> (m.contains_key(t) && !prefix.to_set().contains(t)));
        if rest.contains_key(t) {
            let hit = hit0.push(t);
            assert(!hit0.to_set().contains(t));
            assert(!hit0.contains(t)) by {
                if hit0.contains(t) {
                    let k = choose|k: int| 0 <= k < hit0.len() && hit0[k] == t;
                    assert(hit0.to_set().contains(hit0[k]));
                }
            }
            assert(hit.no_duplicates()) by {
                assert forall|i: int, j: int| 0 <= i < hit.len() && 0 <= j < hit.len() && i != j implies hit[i]
                    != hit[j] by {
                    if i < hit0.len() && j < hit0.len() {
                    } else if i == hit0.len() {
                        assert(hit0[j] != t) by {
                            if hit0[j] == t {
                                assert(hit0.contains(t));
                            }
                        }
                    } else {
                        assert(hit0[i] != t) by {
                            if hit0[i] == t {
                                assert(hit0.contains(t));
                            }
                        }
                    }
                }
            }
            assert(hit.to_set() =~= hit0.to_set().insert(t)) by {
                assert forall|x: usize| hit.to_set().contains(x) implies hit0.to_set().insert(t).contains(x) by {
                    let k = choose|k: int| 0 <= k < hit.len() && hit[k] == x;
                    if k < hit0.len() {
                        assert(hit0[k] == x);
                    }
                }
                assert forall|x: usize| hit0.to_set().insert(t).contains(x) implies hit.to_set().contains(x) by {
                    if x == t {
                        assert(hit[hit0.len() as int] == x);
                    } else {
                        let k = choose|k: int| 0 <= k < hit0.len() && hit0[k] == x;
                        assert(hit[k] == x);
                    }
                }
            }
            assert(hit.to_set() =~= m.dom().intersect(tokens.to_set()));
            assert(rest[t] == m[t]);
            assert(hit.map_values(|t: usize| m[t]) =~= hit0.map_values(|t: usize| m[t]).push(m[t]));
            hit
        } else {
            assert(m.dom().intersect(tokens.to_set()) =~= m.dom().intersect(prefix.to_set()));
            hit0
        }
    }
}

/// A waker registered under `token` is fired by the next event for `token`, and
/// only once: a second event for the same token fires nothing.
pub proof fn lemma_registered_waker_fires_once<W>(m: Map<usize, W>, token: usize, waker: W)
    ensures
        dispatch(m.insert(token, waker), seq![token]).0 == seq![waker],
        dispatch(m.insert(token, waker), seq![token, token]).0 == seq![waker],
        !dispatch(m.insert(token, waker), seq![token]).1.contains_key(token),
{
    let m1 = m.insert(token, waker);
    assert(seq![token].drop_last() =~= Seq::<usize>::empty());
    assert(seq![token, token].drop_last() =~= seq![token]);
    assert(dispatch(m1, Seq::<usize>::empty()) == (Seq::<W>::empty(), m1));
    assert(Seq::<W>::empty().push(waker) =~= seq![waker]);
    let (f1, r1) = dispatch(m1, seq![token]);
    assert(f1 == seq![waker]);
    assert(!r1.contains_key(token));
    assert(seq![token, token].last() == token);
    assert(dispatch(m1, seq![token, token]) == (f1, r1));
}

/// The outcome of one non-blocking I/O attempt.
pub enum IoAttempt<T, E> {
    /// The operation completed with a value.
    Done(T),
    /// The source is not ready; the operation would block.
    WouldBlock,
    /// The operation failed with an error other than `WouldBlock`.
    Failed(E),
}

/// What an I/O future reports for one poll.
pub enum IoPoll<T, E> {
    Ready(Result<T, E>),
    Pending,
}

/// The registry of wakers waiting for readiness, keyed by token.
pub struct Reactor<W> {
    wakers: HashMap<usize, W>,
}

impl<W> Reactor<W> {
    /// The registered wakers, by token.
    pub closed spec fn wakers(&self) -> Map<usize, W> {
        self.wakers@
    }

    /// An empty registry.
    pub fn new() -> (r: Self)
        ensures
            r.wakers() == Map::<usize, W>::empty(),
    {
        Reactor { wakers: HashMap::new() }
    }

    /// Registers `waker` to be fired by the next event for `token`, replacing any
    /// waker registered under it before.
    pub fn add_waker(&mut self, token: usize, waker: W)
        ensures
            final(self).wakers() == old(self).wakers().insert(token, waker),
    {
        self.wakers.insert(token, waker);
    }

    /// Handles a batch of readiness events: for each token, in order, removes the
    /// waker registered under it and hands it out to be woken. Tokens with no waker
    /// are skipped.
    pub fn dispatch_events(&mut self, tokens: &Vec<usize>) -> (fired: Vec<W>)
        ensures
            (fired@, final(self).wakers()) == dispatch(old(self).wakers(), tokens@),
    {
        let mut fired: Vec<W> = Vec::new();
        let mut i: usize = 0;
        while i < tokens.len()
            invariant
                i <= tokens@.len(),
                (fired@, self.wakers@) == dispatch(old(self).wakers(), tokens@.subrange(0, i as int)),
            decreases tokens@.len() - i,
        {
            let t = tokens[i];
            assert(tokens@.subrange(0, i as int + 1).drop_last() =~= tokens@.subrange(0, i as int));
            match self.wakers.remove(&t) {
                Some(w) => {
                    fired.push(w);
                },
                None => {},
            }
            i = i + 1;
        }
        assert(tokens@.subrange(0, i as int) =~= tokens@);
        fired
    }

    /// Decides what an I/O future reports after one attempt on the source with
    /// `token`: a completed attempt is ready with its value and a failed one with its
    /// error; one that would block leaves `waker` under `token` and is pending.
    pub fn poll_io<T, E>(&mut self, attempt: IoAttempt<T, E>, token: usize, waker: W) -> (r: IoPoll<
        T,
        E,
    >)
        ensures
            match attempt {
                IoAttempt::Done(v) => r == IoPoll::<T, E>::Ready(Ok(v)) && final(self).wakers()
                    == old(self).wakers(),
                IoAttempt::WouldBlock => r == IoPoll::<T, E>::Pending && final(self).wakers()
                    == old(self).wakers().insert(token, waker),
                IoAttempt::Failed(e) => r == IoPoll::<T, E>::Ready(Err(e)) && final(self).wakers()
                    == old(self).wakers(),
            },
    {
        match attempt {
            IoAttempt::Done(v) => IoPoll::Ready(Ok(v)),
            IoAttempt::WouldBlock => {
                self.add_waker(token, waker);
                IoPoll::Pending
            },
            IoAttempt::Failed(e) => IoPoll::Ready(Err(e)),
        }
    }
}

} // verus!
