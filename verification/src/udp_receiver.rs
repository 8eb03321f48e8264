use std::collections::HashMap;
use vstd::multiset::Multiset;
use vstd::prelude::*;

verus! {

broadcast use vstd::std_specs::hash::group_hash_axioms;

/// Every entry's sequence number is at most that of every later entry.
pub open spec fn sorted_by_seq<T>(s: Seq<(u64, T)>) -> bool {
    forall|i: int, j: int| 0 <= i <= j < s.len() ==> #[trigger] s[i].0 <= #[trigger] s[j].0
}

/// Index at which an entry numbered `seq` joins a buffer ordered by
/// sequence number: just after the last entry numbered at most `seq`,
/// so that entries with equal numbers keep their arrival order.
pub open spec fn insertion_point<T>(s: Seq<(u64, T)>, seq: u64) -> nat
    decreases s.len(),
{
    if s.len() == 0 {
        0
    } else if s.last().0 <= seq {
        s.len()
    } else {
        insertion_point(s.drop_last(), seq)
    }
}

/// The buffer after a new entry has joined it in sequence order.
pub open spec fn insert_sorted<T>(s: Seq<(u64, T)>, e: (u64, T)) -> Seq<(u64, T)> {
    s.insert(insertion_point(s, e.0) as int, e)
}

/// Every entry is numbered above `last`.
pub open spec fn all_above<T>(s: Seq<(u64, T)>, last: u64) -> bool {
    forall|i: int| 0 <= i < s.len() ==> #[trigger] s[i].0 > last
}

/// Every entry is numbered above `last + 1`: none of them continues the
/// sequence delivered up to `last`.
pub open spec fn all_beyond_next<T>(s: Seq<(u64, T)>, last: u64) -> bool {
    forall|i: int| 0 <= i < s.len() ==> #[trigger] s[i].0 > last + 1
}

/// Releasing the contiguous run of a buffer, given the last sequence number
/// delivered: an entry numbered at most `last` is late or a repeat and is
/// dropped, the entry numbered `last + 1` is delivered and becomes the new
/// `last`, and the first entry beyond a gap stops the run.
/// The result is (delivered entries, entries kept, entries dropped, new last).
pub open spec fn drain_run<T>(s: Seq<(u64, T)>, last: u64) -> (
    Seq<(u64, T)>,
    Seq<(u64, T)>,
    Seq<(u64, T)>,
    u64,
)
    decreases s.len(),
{
    if s.len() == 0 {
        (Seq::empty(), Seq::empty(), Seq::empty(), last)
    } else if s[0].0 <= last {
        let r = drain_run(s.drop_first(), last);
        (r.0, r.1, seq![s[0]] + r.2, r.3)
    } else if s[0].0 == last + 1 {
        let r = drain_run(s.drop_first(), s[0].0);
        (seq![s[0]] + r.0, r.1, r.2, r.3)
    } else {
        (Seq::empty(), s, Seq::empty(), last)
    }
}

/// What one insertion does to one satellite's buffer. A packet numbered at
/// most `last` (late, or a repeat of one delivered) is dropped at once.
/// Otherwise it joins the buffer in order; if the buffer then holds more
/// than `capacity` entries its oldest entry is delivered at once (filling
/// the gap before it) and `last` moves up to it, or dropped if it is not
/// above `last`; then the contiguous run is released.
/// The result is (delivered entries, entries kept, entries dropped, new last).
pub open spec fn insert_outcome<T>(
    pending: Seq<(u64, T)>,
    last: u64,
    capacity: usize,
    e: (u64, T),
) -> (Seq<(u64, T)>, Seq<(u64, T)>, Seq<(u64, T)>, u64) {
    if e.0 <= last {
        (Seq::empty(), pending, seq![e], last)
    } else {
        let p = insert_sorted(pending, e);
        if p.len() > capacity {
            let oldest = p[0];
            if oldest.0 > last {
                let r = drain_run(p.drop_first(), oldest.0);
                (seq![oldest] + r.0, r.1, r.2, r.3)
            } else {
                let r = drain_run(p.drop_first(), last);
                (r.0, r.1, seq![oldest] + r.2, r.3)
            }
        } else {
            drain_run(p, last)
        }
    }
}

/// The packets delivered by a series of insertions into one satellite's
/// buffer, all concatenated, with the buffer and last number afterwards.
pub open spec fn run_inserts<T>(
    pending: Seq<(u64, T)>,
    last: u64,
    capacity: usize,
    events: Seq<(u64, T)>,
) -> (Seq<(u64, T)>, Seq<(u64, T)>, u64)
    decreases events.len(),
{
    if events.len() == 0 {
        (Seq::empty(), pending, last)
    } else {
        let r = run_inserts(pending, last, capacity, events.drop_last());
        let o = insert_outcome(r.1, r.2, capacity, events.last());
        (r.0 + o.0, o.1, o.3)
    }
}

/// The payloads of a sequence of numbered entries.
pub open spec fn payloads<T>(s: Seq<(u64, T)>) -> Seq<T> {
    s.map_values(|p: (u64, T)| p.1)
}

/// Entries at or after the insertion point are numbered above `seq`;
/// in an ordered buffer, entries before it are numbered at most `seq`.
pub proof fn lemma_insertion_point<T>(s: Seq<(u64, T)>, seq: u64)
    ensures
        insertion_point(s, seq) <= s.len(),
        forall|i: int| insertion_point(s, seq) <= i < s.len() ==> #[trigger] s[i].0 > seq,
        sorted_by_seq(s) ==> forall|i: int|
            0 <= i < insertion_point(s, seq) ==> #[trigger] s[i].0 <= seq,
    decreases s.len(),
{
    if s.len() > 0 && s.last().0 > seq {
        lemma_insertion_point(s.drop_last(), seq);
        assert forall|i: int| insertion_point(s, seq) <= i < s.len() implies #[trigger] s[i].0
            > seq by {
            if i < s.len() - 1 {
                assert(s[i] == s.drop_last()[i]);
            }
        }
        if sorted_by_seq(s) {
            assert(sorted_by_seq(s.drop_last())) by {
                assert forall|i: int, j: int|
                    0 <= i <= j < s.drop_last().len() implies #[trigger] s.drop_last()[i].0
                    <= #[trigger] s.drop_last()[j].0 by {
                    assert(s.drop_last()[i] == s[i]);
                    assert(s.drop_last()[j] == s[j]);
                }
            }
            assert forall|i: int| 0 <= i < insertion_point(s, seq) implies #[trigger] s[i].0
                <= seq by {
                assert(s[i] == s.drop_last()[i]);
            }
        }
    } else if s.len() > 0 {
        if sorted_by_seq(s) {
            assert forall|i: int| 0 <= i < insertion_point(s, seq) implies #[trigger] s[i].0
                <= seq by {
                assert(s[i].0 <= s[s.len() - 1].0);
            }
        }
    }
}

/// Joining an ordered buffer keeps it ordered, adds one entry and
/// loses none.
pub proof fn lemma_insert_sorted<T>(s: Seq<(u64, T)>, e: (u64, T))
    ensures
        insert_sorted(s, e).len() == s.len() + 1,
        insert_sorted(s, e).to_multiset() =~= s.to_multiset().insert(e),
        sorted_by_seq(s) ==> sorted_by_seq(insert_sorted(s, e)),
{
    broadcast use vstd::seq_lib::group_to_multiset_ensures;

    lemma_insertion_point(s, e.0);
    let k = insertion_point(s, e.0) as int;
    let r = insert_sorted(s, e);
    assert(r.remove(k) =~= s);
    assert(r[k] == e);
    if sorted_by_seq(s) {
        assert forall|i: int, j: int| 0 <= i <= j < r.len() implies #[trigger] r[i].0
            <= #[trigger] r[j].0 by {
            if i < k && j < k {
                assert(r[i] == s[i] && r[j] == s[j]);
            } else if i < k && j == k {
                assert(r[i] == s[i]);
            } else if i < k {
                assert(r[i] == s[i] && r[j] == s[j - 1]);
            } else if i == k && j > k {
                assert(r[j] == s[j - 1]);
            } else if i > k {
                assert(r[i] == s[i - 1] && r[j] == s[j - 1]);
            }
        }
    }
}

/// What draining guarantees: every entry is delivered, kept or dropped,
/// delivered entries are numbered `last + 1, last + 2, ...` without gaps,
/// the new `last` is the number of the final delivered entry (or `last`
/// when none is delivered), dropped entries are numbered at most the new
/// `last`, the run released is maximal (what is kept never starts with the
/// entry numbered right after the new `last`), and an ordered buffer stays
/// ordered with every kept entry beyond the new `last + 1`.
pub proof fn lemma_drain_run<T>(s: Seq<(u64, T)>, last: u64)
    ensures
        ({
            let r = drain_run(s, last);
            &&& r.0.len() + r.1.len() + r.2.len() == s.len()
            &&& s.to_multiset() =~= r.0.to_multiset().add(r.1.to_multiset()).add(r.2.to_multiset())
            &&& r.3 == last + r.0.len()
            &&& forall|i: int| 0 <= i < r.0.len() ==> #[trigger] r.0[i].0 == last + 1 + i
            &&& forall|i: int| 0 <= i < r.2.len() ==> #[trigger] r.2[i].0 <= r.3
            &&& r.1.len() > 0 ==> r.1[0].0 > r.3 + 1
            &&& sorted_by_seq(s) ==> sorted_by_seq(r.1) && all_above(r.1, r.3) && all_beyond_next(
                r.1,
                r.3,
            )
        }),
    decreases s.len(),
{
    broadcast use vstd::seq_lib::group_to_multiset_ensures;

    let r = drain_run(s, last);
    if s.len() == 0 {
        assert(s.to_multiset() =~= Multiset::empty());
        assert(r.0.to_multiset() =~= Multiset::empty());
        assert(r.1.to_multiset() =~= Multiset::empty());
        assert(r.2.to_multiset() =~= Multiset::empty());
    } else {
        let t = s.drop_first();
        assert(s =~= seq![s[0]] + t);
        vstd::seq_lib::lemma_multiset_commutative(seq![s[0]], t);
        assert(seq![s[0]] =~= Seq::<(u64, T)>::empty().push(s[0]));
        assert(Seq::<(u64, T)>::empty().to_multiset() =~= Multiset::empty());
        if sorted_by_seq(s) {
            assert(sorted_by_seq(t)) by {
                assert forall|i: int, j: int| 0 <= i <= j < t.len() implies #[trigger] t[i].0
                    <= #[trigger] t[j].0 by {
                    assert(t[i] == s[i + 1] && t[j] == s[j + 1]);
                }
            }
        }
        if s[0].0 <= last {
            lemma_drain_run(t, last);
            let q = drain_run(t, last);
            vstd::seq_lib::lemma_multiset_commutative(seq![s[0]], q.2);
            assert forall|i: int| 0 <= i < r.2.len() implies #[trigger] r.2[i].0 <= r.3 by {
                if i > 0 {
                    assert(r.2[i] == q.2[i - 1]);
                }
            }
        } else if s[0].0 == last + 1 {
            lemma_drain_run(t, s[0].0);
            let q = drain_run(t, s[0].0);
            vstd::seq_lib::lemma_multiset_commutative(seq![s[0]], q.0);
            assert forall|i: int| 0 <= i < r.0.len() implies #[trigger] r.0[i].0 == last + 1 + i by {
                if i > 0 {
                    assert(r.0[i] == q.0[i - 1]);
                }
            }
        } else {
            assert(r.1 =~= s);
            assert(r.0.to_multiset() =~= Multiset::empty());
            assert(r.2.to_multiset() =~= Multiset::empty());
            if sorted_by_seq(s) {
                assert forall|i: int| 0 <= i < r.1.len() implies #[trigger] r.1[i].0 > r.3 + 1 by {
                    assert(s[0].0 <= s[i].0);
                }
            }
        }
    }
}

/// Per-satellite reordering of telemetry: packets are held until they
/// continue the sequence already delivered for their satellite, and a
/// satellite's buffer never holds more than `max_buffer_size` packets.
pub struct ReorderBuffer<T> {
    buffers: HashMap<u16, Vec<(u64, T)>>,
    max_buffer_size: usize,
    last_delivered: HashMap<u16, u64>,
}

impl<T> ReorderBuffer<T> {
    /// The packets held for `sat`, in delivery order, with their numbers.
    pub closed spec fn pending(&self, sat: u16) -> Seq<(u64, T)> {
        if self.buffers@.contains_key(sat) {
            self.buffers@[sat]@
        } else {
            Seq::empty()
        }
    }

    /// The number of the last packet delivered for `sat` (0 before any).
    pub closed spec fn last_delivered(&self, sat: u16) -> u64 {
        if self.last_delivered@.contains_key(sat) {
            self.last_delivered@[sat]
        } else {
            0
        }
    }

    pub closed spec fn capacity(&self) -> usize {
        self.max_buffer_size
    }

    /// Each satellite's buffer is ordered by sequence number, within
    /// capacity, and holds only packets beyond the gap after the delivered
    /// sequence (a packet that continued it would have been delivered).
    pub closed spec fn wf(&self) -> bool {
        forall|sat: u16|
            #![trigger self.pending(sat)]
            sorted_by_seq(self.pending(sat)) && self.pending(sat).len() <= self.max_buffer_size
                && all_beyond_next(self.pending(sat), self.last_delivered(sat))
    }

    /// An empty buffer holding at most `max_buffer_size` packets per satellite.
    pub fn new(max_buffer_size: usize) -> (b: Self)
        ensures
            b.wf(),
            b.capacity() == max_buffer_size,
            forall|sat: u16| #[trigger] b.pending(sat) == Seq::<(u64, T)>::empty(),
            forall|sat: u16| #[trigger] b.last_delivered(sat) == 0,
    {
        ReorderBuffer { buffers: HashMap::new(), max_buffer_size, last_delivered: HashMap::new() }
    }

    /// Capacity of each satellite's buffer.
    pub fn max_buffer_size(&self) -> (n: usize)
        ensures
            n == self.capacity(),
    {
        self.max_buffer_size
    }

    /// How many packets are held for `sat`.
    pub fn pending_count(&self, sat: u16) -> (n: usize)
        ensures
            n == self.pending(sat).len(),
    {
        match self.buffers.get(&sat) {
            Some(b) => b.len(),
            None => 0,
        }
    }

    /// The number of the last packet delivered for `sat` (0 before any).
    pub fn last_delivered_seq(&self, sat: u16) -> (n: u64)
        ensures
            n == self.last_delivered(sat),
    {
        match self.last_delivered.get(&sat) {
            Some(l) => *l,
            None => 0,
        }
    }

    /// Accepts packet number `seq` of satellite `sat_id` and returns, in
    /// order, the packets that are now ready: the contiguous run that
    /// continues the satellite's delivered sequence, preceded, when the
    /// buffer overflowed, by its oldest packet. A packet numbered at or
    /// below the last one delivered is late or a repeat and is dropped.
    pub fn insert(&mut self, sat_id: u16, seq: u64, data: T) -> (delivered: Vec<T>)
        requires
            old(self).wf(),
        ensures
            final(self).wf(),
            final(self).capacity() == old(self).capacity(),
            forall|s: u16|
                s != sat_id ==> #[trigger] final(self).pending(s) == old(self).pending(s)
                    && final(self).last_delivered(s) == old(self).last_delivered(s),
            ({
                let o = insert_outcome(
                    old(self).pending(sat_id),
                    old(self).last_delivered(sat_id),
                    old(self).capacity(),
                    (seq, data),
                );
                &&& delivered@ == payloads(o.0)
                &&& final(self).pending(sat_id) == o.1
                &&& final(self).last_delivered(sat_id) == o.3
            }),
            all_beyond_next(final(self).pending(sat_id), final(self).last_delivered(sat_id)),
    {
        let ghost p0 = self.pending(sat_id);
        let ghost l0 = self.last_delivered(sat_id);
        let ghost e = (seq, data);
        let mut last = match self.last_delivered.get(&sat_id) {
            Some(l) => *l,
            None => 0,
        };
        if seq <= last {
            proof {
                assert(payloads(Seq::<(u64, T)>::empty()) =~= Seq::<T>::empty());
            }
            return Vec::new();
        }
        let mut buffer = match self.buffers.remove(&sat_id) {
            Some(b) => b,
            None => Vec::new(),
        };
        assert(buffer@ == p0);
        proof {
            assert(sorted_by_seq(self.pending(sat_id)));
            lemma_insert_sorted(p0, e);
            lemma_insertion_point(p0, seq);
        }
        let pos = Self::insertion_index(&buffer, seq);
        buffer.insert(pos, (seq, data));
        assert(buffer@ == insert_sorted(p0, e));
        let ghost p1 = buffer@;
        let mut delivered: Vec<T> = Vec::new();
        let ghost mut oldest_delivered = false;
        if buffer.len() > self.max_buffer_size {
            let oldest = buffer.remove(0);
            assert(buffer@ =~= p1.drop_first());
            if oldest.0 > last {
                last = oldest.0;
                delivered.push(oldest.1);
                assert(delivered@ =~= payloads(seq![oldest]));
            } else {
                assert(delivered@ =~= Seq::<T>::empty());
            }
        }
        let ghost before = delivered@;
        let ghost b1 = buffer@;
        let ghost l1 = last;
        Self::drain_contiguous(&mut buffer, &mut last, &mut delivered);
        proof {
            lemma_drain_run(b1, l1);
            let o = insert_outcome(p0, l0, self.max_buffer_size, e);
            assert(sorted_by_seq(b1)) by {
                if p1.len() > self.max_buffer_size {
                    assert forall|i: int, j: int| 0 <= i <= j < b1.len() implies #[trigger] b1[i].0
                        <= #[trigger] b1[j].0 by {
                        assert(b1[i] == p1[i + 1] && b1[j] == p1[j + 1]);
                    }
                }
            }
            if p1.len() > self.max_buffer_size {
                if p1[0].0 > l0 {
                    assert(payloads(seq![p1[0]] + drain_run(b1, l1).0) =~= payloads(seq![p1[0]])
                        + payloads(drain_run(b1, l1).0));
                } else {
                    assert(before =~= Seq::<T>::empty());
                    assert(delivered@ =~= payloads(o.0));
                }
            } else {
                assert(before =~= Seq::<T>::empty());
                assert(delivered@ =~= payloads(o.0));
            }
        }
        self.last_delivered.insert(sat_id, last);
        if buffer.len() > 0 {
            self.buffers.insert(sat_id, buffer);
        }
        proof {
            assert forall|s: u16|
                #![trigger self.pending(s)]
                sorted_by_seq(self.pending(s)) && self.pending(s).len() <= self.max_buffer_size
                    && all_beyond_next(self.pending(s), self.last_delivered(s)) by {
                if s != sat_id {
                    assert(self.pending(s) == old(self).pending(s));
                    assert(self.last_delivered(s) == old(self).last_delivered(s));
                }
            }
        }
        delivered
    }

    /// Index at which packet number `seq` joins the ordered buffer `b`.
    fn insertion_index(b: &Vec<(u64, T)>, seq: u64) -> (k: usize)
        ensures
            k == insertion_point(b@, seq),
    {
        let mut k = b.len();
        assert(b@.take(b@.len() as int) =~= b@);
        while k > 0 && b[k - 1].0 > seq
            invariant
                k <= b@.len(),
                insertion_point(b@, seq) == insertion_point(b@.take(k as int), seq),
            decreases k,
        {
            assert(b@.take(k as int).drop_last() =~= b@.take(k - 1));
            k = k - 1;
        }
        k
    }

    /// Releases the contiguous run of `buffer` after `last`, appending the
    /// released payloads to `out` and dropping late or repeated entries.
    fn drain_contiguous(buffer: &mut Vec<(u64, T)>, last: &mut u64, out: &mut Vec<T>)
        ensures
            ({
                let r = drain_run(old(buffer)@, *old(last));
                &&& final(out)@ == old(out)@ + payloads(r.0)
                &&& final(buffer)@ == r.1
                &&& *final(last) == r.3
            }),
    {
        let ghost b0 = buffer@;
        let ghost l0 = *last;
        let ghost o0 = out@;
        let ghost mut taken: Seq<(u64, T)> = Seq::empty();
        let mut stopped = false;
        assert(taken + drain_run(b0, l0).0 =~= drain_run(b0, l0).0);
        assert(payloads(taken) =~= Seq::<T>::empty());
        assert(o0 + payloads(taken) =~= o0);
        while buffer.len() > 0 && !stopped
            invariant
                out@ == o0 + payloads(taken),
                ({
                    let r = drain_run(buffer@, *last);
                    &&& taken + r.0 == drain_run(b0, l0).0
                    &&& r.1 == drain_run(b0, l0).1
                    &&& r.3 == drain_run(b0, l0).3
                }),
                stopped ==> drain_run(buffer@, *last) == (
                    Seq::<(u64, T)>::empty(),
                    buffer@,
                    Seq::<(u64, T)>::empty(),
                    *last,
                ),
            decreases buffer@.len() + (if stopped { 0int } else { 1int }),
        {
            let s = buffer[0].0;
            let ghost rest = buffer@;
            if s <= *last {
                let _late = buffer.remove(0);
                assert(rest.drop_first() =~= buffer@);
            } else if s == *last + 1 {
                let e = buffer.remove(0);
                assert(rest.drop_first() =~= buffer@);
                proof {
                    assert(taken.push(e) + drain_run(rest.drop_first(), e.0).0 =~= taken + (seq![e]
                        + drain_run(rest.drop_first(), e.0).0));
                    assert(payloads(taken.push(e)) =~= payloads(taken).push(e.1));
                    taken = taken.push(e);
                }
                *last = e.0;
                out.push(e.1);
            } else {
                stopped = true;
            }
        }
        proof {
            if !stopped {
                assert(buffer@ =~= Seq::<(u64, T)>::empty());
            }
            assert(taken + Seq::<(u64, T)>::empty() =~= taken);
        }
    }
}

/// Every packet handed to the buffer is accounted for exactly once: the
/// packets held before an insertion, plus the new one, are the packets
/// delivered, those held afterwards and those dropped; and a dropped packet
/// is numbered at most the last delivered number, so it is late or a repeat.
pub proof fn law_every_packet_accounted_for<T>(
    pending: Seq<(u64, T)>,
    last: u64,
    capacity: usize,
    e: (u64, T),
)
    ensures
        ({
            let o = insert_outcome(pending, last, capacity, e);
            &&& pending.to_multiset().insert(e) =~= o.0.to_multiset().add(o.1.to_multiset()).add(
                o.2.to_multiset(),
            )
            &&& forall|i: int| 0 <= i < o.2.len() ==> #[trigger] o.2[i].0 <= o.3
        }),
{
    broadcast use vstd::seq_lib::group_to_multiset_ensures;

    let o = insert_outcome(pending, last, capacity, e);
    if e.0 <= last {
        assert(seq![e] =~= Seq::<(u64, T)>::empty().push(e));
        assert(Seq::<(u64, T)>::empty().to_multiset() =~= Multiset::empty());
    } else {
        lemma_insert_sorted(pending, e);
        let p = insert_sorted(pending, e);
        if p.len() > capacity {
            let t = p.drop_first();
            assert(p =~= seq![p[0]] + t);
            vstd::seq_lib::lemma_multiset_commutative(seq![p[0]], t);
            assert(seq![p[0]] =~= Seq::<(u64, T)>::empty().push(p[0]));
            assert(Seq::<(u64, T)>::empty().to_multiset() =~= Multiset::empty());
            if p[0].0 > last {
                lemma_drain_run(t, p[0].0);
                vstd::seq_lib::lemma_multiset_commutative(seq![p[0]], drain_run(t, p[0].0).0);
            } else {
                lemma_drain_run(t, last);
                let r = drain_run(t, last);
                vstd::seq_lib::lemma_multiset_commutative(seq![p[0]], r.2);
                assert forall|i: int| 0 <= i < o.2.len() implies #[trigger] o.2[i].0 <= o.3 by {
                    if i > 0 {
                        assert(o.2[i] == r.2[i - 1]);
                    }
                }
            }
        } else {
            lemma_drain_run(p, last);
        }
    }
}

/// Each insertion delivers packets in strictly increasing sequence order,
/// all above the last number delivered before it, and the last one it
/// delivers becomes the new last number (which stays put when nothing is
/// delivered): no late packet and no repeat is ever delivered.
pub proof fn law_delivery_strictly_increasing<T>(
    pending: Seq<(u64, T)>,
    last: u64,
    capacity: usize,
    e: (u64, T),
)
    ensures
        ({
            let o = insert_outcome(pending, last, capacity, e);
            &&& forall|i: int| 0 <= i < o.0.len() ==> #[trigger] o.0[i].0 > last
            &&& forall|i: int, j: int|
                0 <= i < j < o.0.len() ==> #[trigger] o.0[i].0 < #[trigger] o.0[j].0
            &&& o.0.len() == 0 ==> o.3 == last
            &&& o.0.len() > 0 ==> o.3 == o.0.last().0
        }),
{
    let o = insert_outcome(pending, last, capacity, e);
    if e.0 > last {
        let p = insert_sorted(pending, e);
        if p.len() > capacity {
            let t = p.drop_first();
            if p[0].0 > last {
                lemma_drain_run(t, p[0].0);
                let r = drain_run(t, p[0].0);
                assert forall|i: int| 1 <= i < o.0.len() implies #[trigger] o.0[i].0 == p[0].0 + i by {
                    assert(o.0[i] == r.0[i - 1]);
                }
                assert(forall|i: int| 0 <= i < o.0.len() ==> #[trigger] o.0[i].0 == p[0].0 + i);
            } else {
                lemma_drain_run(t, last);
            }
        } else {
            lemma_drain_run(p, last);
        }
    }
}

/// Without an overflow, the packets delivered continue the satellite's
/// sequence without gaps: they are numbered `last + 1`, `last + 2`, ...,
/// and the last one delivered becomes the new `last`.
pub proof fn law_in_order_delivery<T>(
    pending: Seq<(u64, T)>,
    last: u64,
    capacity: usize,
    e: (u64, T),
)
    requires
        pending.len() < capacity,
    ensures
        ({
            let o = insert_outcome(pending, last, capacity, e);
            &&& forall|i: int| 0 <= i < o.0.len() ==> #[trigger] o.0[i].0 == last + 1 + i
            &&& o.3 == last + o.0.len()
        }),
{
    if e.0 > last {
        lemma_insert_sorted(pending, e);
        lemma_drain_run(insert_sorted(pending, e), last);
    }
}

/// A late packet or a repeat (numbered at most `last`) is dropped on
/// arrival: nothing is delivered and the buffer is unchanged.
pub proof fn law_late_packet_dropped<T>(
    pending: Seq<(u64, T)>,
    last: u64,
    capacity: usize,
    e: (u64, T),
)
    requires
        e.0 <= last,
    ensures
        insert_outcome(pending, last, capacity, e) == (
            Seq::<(u64, T)>::empty(),
            pending,
            seq![e],
            last,
        ),
{
}

/// On overflow of a buffer holding only packets ahead of the delivered
/// sequence, the oldest packet (the lowest number, earliest arrival among
/// equals) is delivered first whatever gap precedes it, the sequence
/// resumes from it, and what follows it continues without gaps.
pub proof fn law_overflow_fills_gap<T>(
    pending: Seq<(u64, T)>,
    last: u64,
    capacity: usize,
    e: (u64, T),
)
    requires
        sorted_by_seq(pending),
        all_above(pending, last),
        pending.len() == capacity,
        e.0 > last,
    ensures
        ({
            let o = insert_outcome(pending, last, capacity, e);
            let p = insert_sorted(pending, e);
            &&& o.0.len() >= 1
            &&& o.0[0] == p[0]
            &&& forall|i: int| 0 <= i < p.len() ==> o.0[0].0 <= #[trigger] p[i].0
            &&& forall|i: int| 0 <= i < o.0.len() ==> #[trigger] o.0[i].0 == p[0].0 + i
            &&& o.3 == p[0].0 + (o.0.len() - 1)
        }),
{
    lemma_insert_sorted(pending, e);
    lemma_insertion_point(pending, e.0);
    let p = insert_sorted(pending, e);
    let k = insertion_point(pending, e.0) as int;
    assert(p[0].0 > last) by {
        if k == 0 {
            assert(p[0] == e);
        } else {
            assert(p[0] == pending[0]);
        }
    }
    let t = p.drop_first();
    lemma_drain_run(t, p[0].0);
    let o = insert_outcome(pending, last, capacity, e);
    let r = drain_run(t, p[0].0);
    assert forall|i: int| 0 <= i < o.0.len() implies #[trigger] o.0[i].0 == p[0].0 + i by {
        if i > 0 {
            assert(o.0[i] == r.0[i - 1]);
        }
    }
    assert forall|i: int| 0 <= i < p.len() implies o.0[0].0 <= #[trigger] p[i].0 by {
        assert(p[0].0 <= p[i].0);
    }
}

/// The last delivered number never decreases, and a buffer that is ordered,
/// within capacity and holds only packets ahead of the delivered sequence
/// stays so.
pub proof fn law_progress_and_bound<T>(
    pending: Seq<(u64, T)>,
    last: u64,
    capacity: usize,
    e: (u64, T),
)
    requires
        sorted_by_seq(pending),
        pending.len() <= capacity,
        all_above(pending, last),
    ensures
        ({
            let o = insert_outcome(pending, last, capacity, e);
            &&& o.3 >= last
            &&& o.1.len() <= capacity
            &&& sorted_by_seq(o.1)
            &&& all_above(o.1, o.3)
        }),
{
    if e.0 > last {
        lemma_insert_sorted(pending, e);
        let p = insert_sorted(pending, e);
        if p.len() > capacity {
            let l = if p[0].0 > last { p[0].0 } else { last };
            let t = p.drop_first();
            assert(sorted_by_seq(t)) by {
                assert forall|i: int, j: int| 0 <= i <= j < t.len() implies #[trigger] t[i].0
                    <= #[trigger] t[j].0 by {
                    assert(t[i] == p[i + 1] && t[j] == p[j + 1]);
                }
            }
            lemma_drain_run(t, l);
        } else {
            lemma_drain_run(p, last);
        }
    }
}

/// After an insertion nothing held continues the delivered sequence: the
/// whole contiguous run has been released, late and repeated entries met
/// on the way are dropped without stopping it, and every packet still held
/// is numbered beyond the new `last + 1`.
pub proof fn law_run_released_maximally<T>(
    pending: Seq<(u64, T)>,
    last: u64,
    capacity: usize,
    e: (u64, T),
)
    requires
        sorted_by_seq(pending),
        all_beyond_next(pending, last),
    ensures
        ({
            let o = insert_outcome(pending, last, capacity, e);
            &&& o.1.len() > 0 ==> o.1[0].0 > o.3 + 1
            &&& all_beyond_next(o.1, o.3)
        }),
{
    if e.0 > last {
        lemma_insert_sorted(pending, e);
        let p = insert_sorted(pending, e);
        if p.len() > capacity {
            let l = if p[0].0 > last { p[0].0 } else { last };
            let t = p.drop_first();
            assert(sorted_by_seq(t)) by {
                assert forall|i: int, j: int| 0 <= i <= j < t.len() implies #[trigger] t[i].0
                    <= #[trigger] t[j].0 by {
                    assert(t[i] == p[i + 1] && t[j] == p[j + 1]);
                }
            }
            lemma_drain_run(t, l);
        } else {
            lemma_drain_run(p, last);
        }
    }
}

/// Over any series of insertions into one satellite's buffer, the packets
/// delivered, taken together in the order delivered, have strictly
/// increasing sequence numbers, all above the last number delivered
/// before the series: delivery is in sequence order, without repeats or
/// late packets.
pub proof fn law_sequence_order_across_insertions<T>(
    pending: Seq<(u64, T)>,
    last: u64,
    capacity: usize,
    events: Seq<(u64, T)>,
)
    ensures
        ({
            let r = run_inserts(pending, last, capacity, events);
            &&& forall|i: int| 0 <= i < r.0.len() ==> #[trigger] r.0[i].0 > last
            &&& forall|i: int, j: int|
                0 <= i < j < r.0.len() ==> #[trigger] r.0[i].0 < #[trigger] r.0[j].0
            &&& r.2 >= last
            &&& r.0.len() == 0 ==> r.2 == last
            &&& r.0.len() > 0 ==> r.2 == r.0.last().0
        }),
    decreases events.len(),
{
    if events.len() > 0 {
        law_sequence_order_across_insertions(pending, last, capacity, events.drop_last());
        let q = run_inserts(pending, last, capacity, events.drop_last());
        law_delivery_strictly_increasing(q.1, q.2, capacity, events.last());
        let o = insert_outcome(q.1, q.2, capacity, events.last());
        let r = run_inserts(pending, last, capacity, events);
        assert(r.0 == q.0 + o.0);
        assert forall|i: int| 0 <= i < r.0.len() implies #[trigger] r.0[i].0 > last by {
            if i < q.0.len() {
                assert(r.0[i] == q.0[i]);
            } else {
                assert(r.0[i] == o.0[i - q.0.len()]);
            }
        }
        assert forall|i: int, j: int| 0 <= i < j < r.0.len() implies #[trigger] r.0[i].0
            < #[trigger] r.0[j].0 by {
            if j < q.0.len() {
                assert(r.0[i] == q.0[i] && r.0[j] == q.0[j]);
            } else if i >= q.0.len() {
                assert(r.0[i] == o.0[i - q.0.len()] && r.0[j] == o.0[j - q.0.len()]);
            } else {
                assert(r.0[i] == q.0[i] && r.0[j] == o.0[j - q.0.len()]);
                assert(q.0[i].0 <= q.2) by {
                    if i < q.0.len() - 1 {
                        assert(q.0[i].0 < q.0[q.0.len() - 1].0);
                    }
                }
            }
        }
        if o.0.len() > 0 {
            assert(r.0.last() == o.0.last());
        } else {
            assert(r.0 =~= q.0);
        }
    }
}

/// A packet that directly continues an empty satellite's sequence passes
/// straight through: it is delivered alone and nothing is held.
pub proof fn law_next_packet_passes_through<T>(last: u64, capacity: usize, data: T)
    requires
        capacity >= 1,
        last < u64::MAX,
    ensures
        ({
            let e = ((last + 1) as u64, data);
            let o = insert_outcome(Seq::<(u64, T)>::empty(), last, capacity, e);
            &&& o.0 == seq![e]
            &&& o.1 == Seq::<(u64, T)>::empty()
            &&& o.3 == last + 1
        }),
{
    let e = ((last + 1) as u64, data);
    let p = insert_sorted(Seq::<(u64, T)>::empty(), e);
    assert(p =~= seq![e]);
    assert(p.drop_first() =~= Seq::<(u64, T)>::empty());
    assert(p[0] == e);
    let r = drain_run(p.drop_first(), e.0);
    assert(r == (
        Seq::<(u64, T)>::empty(),
        Seq::<(u64, T)>::empty(),
        Seq::<(u64, T)>::empty(),
        e.0,
    ));
    assert(seq![p[0]] + r.0 =~= seq![e]);
    assert(drain_run(p, last) == (seq![p[0]] + r.0, r.1, r.2, r.3));
}

} // verus!
