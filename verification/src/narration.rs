//! The narration queue behind the `explain(key, text)` script call: each key
//! is narrated at most once per run, entries wait in call order, and at most
//! one bubble is shown at a time while the simulation is paused.
use vstd::prelude::*;
use std::collections::VecDeque;
use crate::text::{string_views, find_string};
use crate::topology::lemma_push_contains;

verus! {

broadcast use vstd::seq_lib::group_seq_properties;

/// One `explain()` call that passed the once-per-run check: the node it is
/// anchored to, its key, and its text.
#[derive(Debug)]
pub struct ExplainEntry {
    pub node_name: String,
    pub key: String,
    pub text: String,
}

/// An entry as plain values: (node name, key, text).
pub open spec fn entry_view(e: ExplainEntry) -> (Seq<char>, Seq<char>, Seq<char>) {
    (e.node_name@, e.key@, e.text@)
}

/// Entries as plain values.
pub open spec fn entries_view(s: Seq<ExplainEntry>) -> Seq<(Seq<char>, Seq<char>, Seq<char>)> {
    s.map_values(|e: ExplainEntry| entry_view(e))
}

/// The narration state of a run: the keys already narrated, the entries
/// waiting to be shown, and the node the bubble on screen is anchored to.
#[derive(Debug)]
pub struct PendingExplain {
    pub seen: Vec<String>,
    pub queue: VecDeque<ExplainEntry>,
    pub showing: Option<String>,
}

/// The narration state as plain values.
pub struct ExplainView {
    pub seen: Set<Seq<char>>,
    pub queue: Seq<(Seq<char>, Seq<char>, Seq<char>)>,
    pub showing: Option<Seq<char>>,
}

impl View for PendingExplain {
    type V = ExplainView;

    open spec fn view(&self) -> ExplainView {
        ExplainView {
            seen: string_views(self.seen@).to_set(),
            queue: entries_view(self.queue@),
            showing: match self.showing {
                Some(s) => Some(s@),
                None => None,
            },
        }
    }
}

/// The state after one `explain()` call made by `node` with `key` and
/// `text`: a key seen before this run changes nothing; a new key is marked
/// seen and its entry queued at the back.
pub open spec fn record_step(st: ExplainView, call: (Seq<char>, Seq<char>, Seq<char>)) -> ExplainView {
    if st.seen.contains(call.1) {
        st
    } else {
        ExplainView { seen: st.seen.insert(call.1), queue: st.queue.push(call), showing: st.showing }
    }
}

/// The state after a frame's calls, in order.
pub open spec fn record_all(st: ExplainView, calls: Seq<(Seq<char>, Seq<char>, Seq<char>)>) -> ExplainView
    decreases calls.len(),
{
    if calls.len() == 0 {
        st
    } else {
        record_step(record_all(st, calls.drop_last()), calls.last())
    }
}

/// Every queued key has been seen, and no key is queued twice.
pub open spec fn queue_consistent(st: ExplainView) -> bool {
    &&& forall|i: int| 0 <= i < st.queue.len() ==> st.seen.contains(#[trigger] st.queue[i].1)
    &&& forall|i: int, j: int| 0 <= i < st.queue.len() && 0 <= j < st.queue.len() && i != j
        ==> #[trigger] st.queue[i].1 != #[trigger] st.queue[j].1
}

impl PendingExplain {
    /// A fresh run: nothing seen, nothing queued, nothing shown.
    pub fn new() -> (r: Self)
        ensures
            r@.seen == Set::<Seq<char>>::empty(),
            r@.queue == Seq::<(Seq<char>, Seq<char>, Seq<char>)>::empty(),
            r@.showing is None,
    {
        let r = PendingExplain { seen: Vec::new(), queue: VecDeque::new(), showing: None };
        assert(r@.seen =~= Set::<Seq<char>>::empty());
        assert(r@.queue =~= Seq::<(Seq<char>, Seq<char>, Seq<char>)>::empty());
        r
    }

    /// Starts a fresh run: a reloaded graph gets to narrate itself again and
    /// no stale entry keeps the simulation waiting.
    pub fn reset(&mut self)
        ensures
            final(self)@.seen == Set::<Seq<char>>::empty(),
            final(self)@.queue == Seq::<(Seq<char>, Seq<char>, Seq<char>)>::empty(),
            final(self)@.showing is None,
    {
        self.seen = Vec::new();
        self.queue.clear();
        self.showing = None;
        assert(self@.seen =~= Set::<Seq<char>>::empty());
        assert(self@.queue =~= Seq::<(Seq<char>, Seq<char>, Seq<char>)>::empty());
    }

    /// Records one `explain()` call by `node_name`; returns whether its key
    /// was new this run (and so its entry was queued).
    pub fn record(&mut self, node_name: String, key: String, text: String) -> (queued: bool)
        ensures
            queued == !old(self)@.seen.contains(key@),
            final(self)@ == record_step(old(self)@, (node_name@, key@, text@)),
    {
        match find_string(&self.seen, &key) {
            Some(k) => {
                assert(string_views(self.seen@)[k as int] == key@);
                false
            },
            None => {
                let ghost s0 = string_views(self.seen@);
                let ghost q0 = entries_view(self.queue@);
                self.seen.push(key.clone());
                assert(string_views(self.seen@) =~= s0.push(key@));
                assert(string_views(self.seen@).to_set() =~= s0.to_set().insert(key@)) by {
                    assert forall|y: Seq<char>| #[trigger] s0.push(key@).contains(y) <==> s0.to_set().insert(key@).contains(y) by {
                        lemma_push_contains(s0, key@, y);
                    }
                }
                self.queue.push_back(ExplainEntry { node_name, key, text });
                assert(entries_view(self.queue@) =~= q0.push((node_name@, key@, text@)));
                true
            },
        }
    }

    /// Records a frame's `explain()` calls, each (node, key, text), in order.
    pub fn record_frame(&mut self, calls: Vec<(String, String, String)>)
        ensures
            final(self)@ == record_all(
                old(self)@,
                calls@.map_values(|c: (String, String, String)| (c.0@, c.1@, c.2@)),
            ),
    {
        let ghost st0 = self@;
        let ghost cv = calls@.map_values(|c: (String, String, String)| (c.0@, c.1@, c.2@));
        let mut i: usize = 0;
        assert(cv.take(0) =~= Seq::<(Seq<char>, Seq<char>, Seq<char>)>::empty());
        while i < calls.len()
            invariant
                i <= calls.len(),
                cv == calls@.map_values(|c: (String, String, String)| (c.0@, c.1@, c.2@)),
                self@ == record_all(st0, cv.take(i as int)),
            decreases calls.len() - i,
        {
            assert(cv.take(i + 1).drop_last() =~= cv.take(i as int));
            assert(cv.take(i + 1).last() == cv[i as int]);
            let _ = self.record(calls[i].0.clone(), calls[i].1.clone(), calls[i].2.clone());
            i = i + 1;
        }
        assert(cv.take(calls.len() as int) =~= cv);
    }
}

/// What `show_next` does to the state and hands back. Nothing happens
/// while a bubble is on screen or the queue is empty. Otherwise the front
/// entry leaves the queue; if its node no longer exists it is dropped,
/// else it is handed back and its node becomes the one shown.
pub open spec fn show_next_spec(st: ExplainView, bubble_active: bool, live: Seq<Seq<char>>) -> (
    ExplainView,
    Option<(Seq<char>, Seq<char>, Seq<char>)>,
) {
    if bubble_active || st.queue.len() == 0 {
        (st, None)
    } else {
        let e = st.queue[0];
        let rest = st.queue.subrange(1, st.queue.len() as int);
        if !live.contains(e.0) {
            (ExplainView { seen: st.seen, queue: rest, showing: st.showing }, None)
        } else {
            (ExplainView { seen: st.seen, queue: rest, showing: Some(e.0) }, Some(e))
        }
    }
}

impl PendingExplain {
    /// Takes the next entry to narrate, given whether a bubble is already
    /// on screen and the names of the live nodes. `Some` means: pause the
    /// simulation and show this entry's bubble on its node.
    pub fn show_next(&mut self, bubble_active: bool, live_nodes: &Vec<String>) -> (r: Option<ExplainEntry>)
        ensures
            (final(self)@, match r {
                Some(e) => Some(entry_view(e)),
                None => None,
            }) == show_next_spec(old(self)@, bubble_active, string_views(live_nodes@)),
    {
        if bubble_active {
            return None;
        }
        let ghost q0 = self.queue@;
        match self.queue.pop_front() {
            None => None,
            Some(entry) => {
                assert(entries_view(self.queue@) =~= entries_view(q0).subrange(1, q0.len() as int));
                assert(entry_view(entry) == entries_view(q0)[0]);
                match find_string(live_nodes, &entry.node_name) {
                    None => None,
                    Some(k) => {
                        assert(string_views(live_nodes@)[k as int] == entry.node_name@);
                        self.showing = Some(entry.node_name.clone());
                        Some(entry)
                    },
                }
            },
        }
    }

    /// The bubble on screen was dismissed; returns whether the simulation
    /// resumes (nothing else is waiting).
    pub fn dismiss(&mut self) -> (resume: bool)
        ensures
            final(self)@.seen == old(self)@.seen,
            final(self)@.queue == old(self)@.queue,
            final(self)@.showing is None,
            resume == (old(self)@.queue.len() == 0),
    {
        self.showing = None;
        self.queue.len() == 0
    }
}

/// Each key is narrated at most once per run: recording calls keeps every
/// queued key marked seen and no key queued twice, and a call whose key
/// was already seen changes nothing.
pub proof fn lemma_record_consistent(st: ExplainView, calls: Seq<(Seq<char>, Seq<char>, Seq<char>)>)
    requires
        queue_consistent(st),
    ensures
        queue_consistent(record_all(st, calls)),
        st.seen.subset_of(record_all(st, calls).seen),
    decreases calls.len(),
{
    if calls.len() > 0 {
        lemma_record_consistent(st, calls.drop_last());
        let pre = record_all(st, calls.drop_last());
        let c = calls.last();
        if !pre.seen.contains(c.1) {
            let post = record_all(st, calls);
            assert(post.queue == pre.queue.push(c));
            assert forall|i: int| 0 <= i < post.queue.len() implies post.seen.contains(#[trigger] post.queue[i].1) by {
                if i < pre.queue.len() {
                    assert(post.queue[i] == pre.queue[i]);
                }
            }
            assert forall|i: int, j: int| 0 <= i < post.queue.len() && 0 <= j < post.queue.len() && i != j
                implies #[trigger] post.queue[i].1 != #[trigger] post.queue[j].1 by {
                if i < pre.queue.len() {
                    assert(post.queue[i] == pre.queue[i]);
                    assert(pre.seen.contains(pre.queue[i].1));
                }
                if j < pre.queue.len() {
                    assert(post.queue[j] == pre.queue[j]);
                    assert(pre.seen.contains(pre.queue[j].1));
                }
            }
        }
    }
}

/// Showing the next entry keeps the queue consistent and forgets no key.
pub proof fn lemma_show_next_consistent(st: ExplainView, bubble_active: bool, live: Seq<Seq<char>>)
    requires
        queue_consistent(st),
    ensures
        queue_consistent(show_next_spec(st, bubble_active, live).0),
        show_next_spec(st, bubble_active, live).0.seen == st.seen,
{
    if !bubble_active && st.queue.len() > 0 {
        let post = show_next_spec(st, bubble_active, live).0;
        assert forall|i: int| 0 <= i < post.queue.len() implies post.seen.contains(#[trigger] post.queue[i].1) by {
            assert(post.queue[i] == st.queue[i + 1]);
        }
        assert forall|i: int, j: int| 0 <= i < post.queue.len() && 0 <= j < post.queue.len() && i != j
            implies #[trigger] post.queue[i].1 != #[trigger] post.queue[j].1 by {
            assert(post.queue[i] == st.queue[i + 1]);
            assert(post.queue[j] == st.queue[j + 1]);
        }
    }
}

} // verus!
