//! Things to do around frames.
use vstd::prelude::*;

verus! {

/// Things to do once a frame is reached, in the order they came in.
pub struct Scheduled<T> {
    pub entries: Vec<(u64, T)>,
}

/// What is due at `now` among the first `n` entries, in order.
pub open spec fn due_of<T>(entries: Seq<(u64, T)>, now: u64, n: nat) -> Seq<T>
    decreases n,
{
    if 0 < n <= entries.len() {
        let before = due_of(entries, now, (n - 1) as nat);
        if entries[n - 1].0 <= now {
            before.push(entries[n - 1].1)
        } else {
            before
        }
    } else {
        Seq::empty()
    }
}

/// What is not due at `now` among the first `n` entries, in order.
pub open spec fn waiting_of<T>(entries: Seq<(u64, T)>, now: u64, n: nat) -> Seq<(u64, T)>
    decreases n,
{
    if 0 < n <= entries.len() {
        let before = waiting_of(entries, now, (n - 1) as nat);
        if entries[n - 1].0 <= now {
            before
        } else {
            before.push(entries[n - 1])
        }
    } else {
        Seq::empty()
    }
}

/// Things that are all due at one frame.
pub open spec fn due_at<T>(frame: u64, things: Seq<T>) -> Seq<(u64, T)> {
    Seq::new(things.len(), |i: int| (frame, things[i]))
}

impl<T> Scheduled<T> {
    /// Nothing scheduled.
    pub fn new() -> (r: Self)
        ensures
            r.entries@.len() == 0,
    {
        Scheduled { entries: Vec::new() }
    }

    /// Schedules something for a frame.
    pub fn push(&mut self, frame: u64, thing: T)
        ensures
            final(self).entries@ == old(self).entries@.push((frame, thing)),
    {
        self.entries.push((frame, thing));
    }

    /// Schedules several things for a frame, in order.
    pub fn push_all(&mut self, frame: u64, things: Vec<T>)
        ensures
            final(self).entries@ == old(self).entries@ + due_at(frame, things@),
    {
        let ghost before = self.entries@;
        let ghost all = things@;
        proof {
            assert(before + due_at(frame, all.take(0)) =~= before);
        }
        for thing in it: things
            invariant
                it.seq() == all,
                self.entries@ == before + due_at(frame, all.take(it.index())),
        {
            self.entries.push((frame, thing));
            proof {
                let n = it.index();
                assert(all.take(n + 1) =~= all.take(n).push(thing));
                assert(self.entries@ =~= before + due_at(frame, all.take(n + 1)));
            }
        }
        proof {
            assert(all.take(all.len() as int) =~= all);
        }
    }

    /// Takes out what is due at `now`, in the order it came in. The rest stays in order.
    pub fn take_due(&mut self, now: u64) -> (due: Vec<T>)
        ensures
            due@ == due_of(old(self).entries@, now, old(self).entries@.len()),
            final(self).entries@ == waiting_of(old(self).entries@, now, old(self).entries@.len()),
    {
        let ghost all = self.entries@;
        let ghost mut seen: nat = 0;
        let mut due: Vec<T> = Vec::new();
        let mut i: usize = 0;
        proof {
            assert(all =~= waiting_of(all, now, 0) + all.skip(0));
        }
        while i < self.entries.len()
            invariant
                seen <= all.len(),
                i == waiting_of(all, now, seen).len(),
                i <= self.entries.len(),
                due@ == due_of(all, now, seen),
                self.entries@ == waiting_of(all, now, seen) + all.skip(seen as int),
            decreases self.entries.len() - i,
        {
            proof {
                assert(self.entries@[i as int] == all.skip(seen as int)[0]);
                assert(all.skip(seen as int)[0] == all[seen as int]);
            }
            if self.entries[i].0 <= now {
                let (_, thing) = self.entries.remove(i);
                due.push(thing);
                proof {
                    seen = seen + 1;
                    assert(self.entries@ =~= waiting_of(all, now, seen) + all.skip(seen as int));
                }
            } else {
                i = i + 1;
                proof {
                    seen = seen + 1;
                    assert(self.entries@ =~= waiting_of(all, now, seen) + all.skip(seen as int));
                }
            }
        }
        proof {
            assert(all.skip(seen as int).len() == 0);
            assert(self.entries@ =~= waiting_of(all, now, seen));
        }
        due
    }
}

/// Whether a thing is among the first `n` entries, for a frame that `now` has reached.
pub open spec fn is_due<T>(entries: Seq<(u64, T)>, now: u64, n: nat, thing: T) -> bool {
    exists|k: int| 0 <= k < n && (#[trigger] entries[k]).0 <= now && entries[k].1 == thing
}

/// Nothing is lost and nothing is doubled: what is due and what waits make up what was
/// scheduled, each thing as often as it came in. Nothing is due before its frame, and
/// nothing waits beyond it.
pub proof fn law_due_and_waiting_are_all<T>(entries: Seq<(u64, T)>, now: u64, n: nat)
    requires
        n <= entries.len(),
    ensures
        due_of(entries, now, n).to_multiset().add(
            waiting_of(entries, now, n).map_values(|e: (u64, T)| e.1).to_multiset(),
        ) == entries.take(n as int).map_values(|e: (u64, T)| e.1).to_multiset(),
        forall|i: int|
            0 <= i < due_of(entries, now, n).len() ==> is_due(
                entries,
                now,
                n,
                #[trigger] due_of(entries, now, n)[i],
            ),
        forall|i: int|
            0 <= i < waiting_of(entries, now, n).len() ==> (#[trigger] waiting_of(
                entries,
                now,
                n,
            )[i]).0 > now,
    decreases n,
{
    broadcast use vstd::seq_lib::group_to_multiset_ensures;

    let thing = |e: (u64, T)| e.1;
    let due = due_of(entries, now, n);
    let waiting = waiting_of(entries, now, n);
    let all = entries.take(n as int).map_values(thing);
    if n > 0 {
        let last = entries[n - 1];
        let due_before = due_of(entries, now, (n - 1) as nat);
        let waiting_before = waiting_of(entries, now, (n - 1) as nat);
        law_due_and_waiting_are_all(entries, now, (n - 1) as nat);
        assert(all =~= entries.take(n - 1).map_values(thing).push(last.1));
        if last.0 <= now {
            assert(due == due_before.push(last.1));
        } else {
            assert(waiting.map_values(thing) =~= waiting_before.map_values(thing).push(last.1));
        }
        assert forall|i: int| 0 <= i < due.len() implies is_due(
            entries,
            now,
            n,
            #[trigger] due[i],
        ) by {
            if i < due_before.len() {
                assert(due[i] == due_before[i]);
                assert(is_due(entries, now, (n - 1) as nat, due_before[i]));
            } else {
                assert(entries[n - 1].1 == due[i]);
            }
        }
        assert(due.to_multiset().add(waiting.map_values(thing).to_multiset()) =~= all.to_multiset());
    } else {
        assert(due =~= Seq::<T>::empty());
        assert(waiting.map_values(thing) =~= Seq::<T>::empty());
        assert(all =~= Seq::<T>::empty());
        assert(due.to_multiset().add(waiting.map_values(thing).to_multiset()) =~= all.to_multiset());
    }
}

/// Whatever is scheduled waits as long as its frame is not reached, and is due from then
/// on.
pub proof fn law_each_waits_for_its_frame<T>(entries: Seq<(u64, T)>, now: u64, n: nat, at: int)
    requires
        0 <= at < n <= entries.len(),
    ensures
        entries[at].0 > now ==> waiting_of(entries, now, n).contains(entries[at]),
        entries[at].0 <= now ==> due_of(entries, now, n).contains(entries[at].1),
    decreases n,
{
    let due = due_of(entries, now, n);
    let waiting = waiting_of(entries, now, n);
    if at == n - 1 {
        if entries[at].0 <= now {
            assert(due.last() == entries[at].1);
        } else {
            assert(waiting.last() == entries[at]);
        }
    } else {
        let due_before = due_of(entries, now, (n - 1) as nat);
        let waiting_before = waiting_of(entries, now, (n - 1) as nat);
        law_each_waits_for_its_frame(entries, now, (n - 1) as nat, at);
        if entries[at].0 <= now {
            let i = choose|i: int| 0 <= i < due_before.len() && due_before[i] == entries[at].1;
            assert(due[i] == entries[at].1);
        } else {
            let i = choose|i: int|
                0 <= i < waiting_before.len() && waiting_before[i] == entries[at];
            assert(waiting[i] == entries[at]);
        }
    }
}

/// Whether things are scheduled in the order of their frames.
pub open spec fn in_frame_order<T>(entries: Seq<(u64, T)>) -> bool {
    forall|i: int, j: int| #![trigger entries[i], entries[j]]
        0 <= i <= j < entries.len() ==> entries[i].0 <= entries[j].0
}

/// What is in the order of its frames stays so when something is scheduled for the last of
/// the frames or a later one, and when what is due among the first `n` is taken out. What is
/// due is then what came first.
pub proof fn law_frame_order_is_kept<T>(
    entries: Seq<(u64, T)>,
    frame: u64,
    thing: T,
    now: u64,
    n: nat,
)
    requires
        in_frame_order(entries),
        n <= entries.len(),
    ensures
        (entries.len() == 0 || entries.last().0 <= frame) ==> in_frame_order(
            entries.push((frame, thing)),
        ),
        in_frame_order(waiting_of(entries, now, n)),
        forall|i: int|
            0 <= i < due_of(entries, now, n).len() ==> #[trigger] due_of(entries, now, n)[i]
                == entries[i].1,
        waiting_of(entries, now, n) == entries.subrange(
            due_of(entries, now, n).len() as int,
            n as int,
        ),
    decreases n,
{
    if n > 0 {
        law_frame_order_is_kept(entries, frame, thing, now, (n - 1) as nat);
        let due = due_of(entries, now, (n - 1) as nat);
        let waiting = waiting_of(entries, now, (n - 1) as nat);
        lemma_counts(entries, now, (n - 1) as nat);
        if entries[n - 1].0 <= now {
            if due.len() < n - 1 {
                assert(waiting[0] == entries[due.len() as int]);
                law_due_and_waiting_are_all(entries, now, (n - 1) as nat);
                assert(entries[due.len() as int].0 <= entries[n - 1].0);
                assert(false);
            }
        }
    }
    assert(waiting_of(entries, now, n) =~= entries.subrange(
        due_of(entries, now, n).len() as int,
        n as int,
    ));
}

proof fn lemma_counts<T>(entries: Seq<(u64, T)>, now: u64, n: nat)
    requires
        n <= entries.len(),
    ensures
        due_of(entries, now, n).len() + waiting_of(entries, now, n).len() == n,
    decreases n,
{
    if n > 0 {
        lemma_counts(entries, now, (n - 1) as nat);
    }
}

} // verus!
