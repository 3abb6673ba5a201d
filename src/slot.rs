use vstd::prelude::*;

verus! {

/// One 64-byte quote record: a sequence number that is odd while a write is
/// in progress, the slot's coordinates, and the published prices and time.
#[derive(Debug, Clone, Copy, PartialEq, Eq, Structural)]
pub struct Quote64 {
    pub seq: u64,
    pub source_id: u64,
    pub symbol_id: u64,
    pub bid: i64,
    pub ask: i64,
    pub ts: i64,
    pub reserved0: u64,
    pub reserved1: u64,
}

/// What a reader takes from a slot: (source_id, symbol_id, bid, ask, ts).
pub type Snapshot = (u64, u64, i64, i64, i64);

/// The sequence number after `s`, wrapping at `u64::MAX`.
pub open spec fn seq_next(s: u64) -> u64 {
    if s == u64::MAX {
        0
    } else {
        (s + 1) as u64
    }
}

pub open spec fn is_stable(s: u64) -> bool {
    s % 2 == 0
}

/// The states a slot passes through during one write, first to last: the
/// sequence number turns odd, the three data fields are stored one by one,
/// and the sequence number turns even again.
#[verifier::opaque]
pub open spec fn write_states(q: Quote64, bid: i64, ask: i64, ts: i64) -> Seq<Quote64> {
    let q1 = Quote64 { seq: seq_next(q.seq), ..q };
    let q2 = Quote64 { bid, ..q1 };
    let q3 = Quote64 { ask, ..q2 };
    let q4 = Quote64 { ts, ..q3 };
    let q5 = Quote64 { seq: seq_next(q4.seq), ..q4 };
    seq![q, q1, q2, q3, q4, q5]
}

/// A step a slot may take while readers look at it: nothing changes; or the
/// sequence number goes up by one and nothing else changes; or, while the
/// number is odd, the data fields change and nothing else does.
pub open spec fn protocol_step(x: Quote64, y: Quote64) -> bool {
    ||| y == x
    ||| (y == Quote64 { seq: (x.seq + 1) as u64, ..x } && x.seq < u64::MAX)
    ||| (x.seq % 2 == 1 && y == Quote64 { bid: y.bid, ask: y.ask, ts: y.ts, ..x })
}

pub open spec fn valid_history(h: Seq<Quote64>) -> bool {
    forall|i: int| 0 <= i < h.len() - 1 ==> protocol_step(#[trigger] h[i], h[i + 1])
}

impl Quote64 {
    pub open spec fn snapshot(self) -> Snapshot {
        (self.source_id, self.symbol_id, self.bid, self.ask, self.ts)
    }

    /// The value `init_slot` gives a slot.
    pub open spec fn initial(source_id: u64, symbol_id: u64) -> Quote64 {
        Quote64 { seq: 0, source_id, symbol_id, bid: 0, ask: 0, ts: 0, reserved0: 0, reserved1: 0 }
    }

    /// What a reader that finds this state at both sequence loads returns.
    pub open spec fn read_spec(self) -> Option<Snapshot> {
        if is_stable(self.seq) {
            Some(self.snapshot())
        } else {
            None
        }
    }

    /// A zeroed slot of the given coordinates.
    pub fn new(source_id: u64, symbol_id: u64) -> (r: Quote64)
        ensures
            r == Quote64::initial(source_id, symbol_id),
    {
        Quote64 { seq: 0, source_id, symbol_id, bid: 0, ask: 0, ts: 0, reserved0: 0, reserved1: 0 }
    }

    /// Sets the slot's coordinates and clears everything else.
    pub fn init_slot(&mut self, source_id: u64, symbol_id: u64)
        ensures
            *final(self) == Quote64::initial(source_id, symbol_id),
    {
        self.seq = 0;
        self.source_id = source_id;
        self.symbol_id = symbol_id;
        self.bid = 0;
        self.ask = 0;
        self.ts = 0;
        self.reserved0 = 0;
        self.reserved1 = 0;
    }

    fn bump_seq(&mut self)
        ensures
            *final(self) == (Quote64 { seq: seq_next(old(self).seq), ..*old(self) }),
    {
        self.seq = if self.seq == u64::MAX {
            0
        } else {
            self.seq + 1
        };
    }

    /// Publishes a quote: the sequence number turns odd, the prices and time
    /// are stored, and the sequence number turns even again.
    pub fn write(&mut self, bid: i64, ask: i64, ts: i64)
        ensures
            *final(self) == write_states(*old(self), bid, ask, ts).last(),
            final(self).seq == seq_next(seq_next(old(self).seq)),
            final(self).bid == bid && final(self).ask == ask && final(self).ts == ts,
            final(self).source_id == old(self).source_id,
            final(self).symbol_id == old(self).symbol_id,
    {
        proof {
            reveal(write_states);
        }
        self.bump_seq();
        self.bid = bid;
        self.ask = ask;
        self.ts = ts;
        self.bump_seq();
    }

    /// Reads the slot: the snapshot when no write is in progress.
    pub fn read(&self) -> (r: Option<Snapshot>)
        ensures
            r == self.read_spec(),
    {
        accept_snapshot(self.seq, self, self.seq)
    }
}

/// The result of `accept_snapshot`.
pub open spec fn accept_snapshot_spec(seq_before: u64, fields: Quote64, seq_after: u64) -> Option<
    Snapshot,
> {
    if is_stable(seq_before) && seq_before == seq_after {
        Some(fields.snapshot())
    } else {
        None
    }
}

/// The reader's decision: fields read between two loads of the sequence
/// number are a snapshot when both loads saw the same even number.
pub fn accept_snapshot(seq_before: u64, fields: &Quote64, seq_after: u64) -> (r: Option<Snapshot>)
    ensures
        r == accept_snapshot_spec(seq_before, *fields, seq_after),
{
    if seq_before % 2 == 0 && seq_before == seq_after {
        Some((fields.source_id, fields.symbol_id, fields.bid, fields.ask, fields.ts))
    } else {
        None
    }
}

proof fn lemma_seq_non_decreasing(h: Seq<Quote64>, i: int, j: int)
    requires
        valid_history(h),
        0 <= i <= j < h.len(),
    ensures
        h[i].seq <= h[j].seq,
    decreases j - i,
{
    if i < j {
        lemma_seq_non_decreasing(h, i, j - 1);
        assert(protocol_step(h[j - 1], h[j]));
    }
}

/// One write, started from a stable slot whose sequence number has room to
/// grow, is a run of protocol steps that ends stable, with the new values in
/// place, and every state strictly inside it is unstable.
pub proof fn lemma_write_follows_protocol(q: Quote64, bid: i64, ask: i64, ts: i64)
    requires
        is_stable(q.seq),
        q.seq + 2 <= u64::MAX,
    ensures
        valid_history(write_states(q, bid, ask, ts)),
        write_states(q, bid, ask, ts).len() == 6,
        write_states(q, bid, ask, ts)[0] == q,
        write_states(q, bid, ask, ts).last().seq == q.seq + 2,
        write_states(q, bid, ask, ts).last().snapshot() == (q.source_id, q.symbol_id, bid, ask, ts),
        forall|i: int|
            0 < i < 5 ==> !is_stable(#[trigger] write_states(q, bid, ask, ts)[i].seq),
{
    reveal(write_states);
    let h = write_states(q, bid, ask, ts);
    assert forall|i: int| 0 <= i < h.len() - 1 implies protocol_step(#[trigger] h[i], h[i + 1]) by {
        if i == 0 {
            assert(h[1] == Quote64 { seq: (h[0].seq + 1) as u64, ..h[0] });
        } else if i == 4 {
            assert(h[5] == Quote64 { seq: (h[4].seq + 1) as u64, ..h[4] });
        } else {
            assert(h[i + 1] == Quote64 { bid: h[i + 1].bid, ask: h[i + 1].ask, ts: h[i + 1].ts, ..h[i] });
        }
    }
}

/// A reader whose two sequence loads, at states `a` and `c` of a protocol
/// history, see the same even number reads, at any state `b` between them,
/// exactly the snapshot of state `a`: never a mix of two writes.
pub proof fn lemma_even_bracket_is_consistent(h: Seq<Quote64>, a: int, b: int, c: int)
    requires
        valid_history(h),
        0 <= a <= b <= c < h.len(),
        h[a].seq == h[c].seq,
        is_stable(h[a].seq),
    ensures
        h[b] == h[a],
        accept_snapshot_spec(h[a].seq, h[b], h[c].seq) == Some(h[a].snapshot()),
    decreases b - a,
{
    if a < b {
        lemma_even_bracket_is_consistent(h, a, b - 1, c);
        lemma_seq_non_decreasing(h, b, c);
        assert(protocol_step(h[b - 1], h[b]));
    }
}

/// Initialising a slot, writing one quote and reading it back yields the
/// coordinates given to the initialisation and the values given to the write.
pub proof fn lemma_init_write_read(
    source_id: u64,
    symbol_id: u64,
    bid: i64,
    ask: i64,
    ts: i64,
)
    ensures
        write_states(Quote64::initial(source_id, symbol_id), bid, ask, ts).last().read_spec()
            == Some::<Snapshot>((source_id, symbol_id, bid, ask, ts)),
{
    reveal(write_states);
}

/// The slot after applying the writes `ws`, each (bid, ask, ts), in order.
pub open spec fn after_writes(q: Quote64, ws: Seq<(i64, i64, i64)>) -> Quote64
    decreases ws.len(),
{
    if ws.len() == 0 {
        q
    } else {
        let w = ws.last();
        write_states(after_writes(q, ws.drop_last()), w.0, w.1, w.2).last()
    }
}

/// When successive writes are stamped by a clock that never goes back, the
/// time published in the slot never goes back either.
pub proof fn lemma_published_ts_non_decreasing(q: Quote64, ws: Seq<(i64, i64, i64)>, i: int, j: int)
    requires
        0 <= i <= j <= ws.len(),
        forall|k: int| 0 <= k < ws.len() ==> q.ts <= (#[trigger] ws[k]).2,
        forall|k: int, l: int| 0 <= k <= l < ws.len() ==> (#[trigger] ws[k]).2 <= (#[trigger] ws[l]).2,
    ensures
        after_writes(q, ws.take(i)).ts <= after_writes(q, ws.take(j)).ts,
    decreases j - i,
{
    reveal(write_states);
    if i < j {
        lemma_published_ts_non_decreasing(q, ws, i, j - 1);
        let t = ws.take(j);
        assert(t.drop_last() =~= ws.take(j - 1));
        assert(after_writes(q, t).ts == ws[j - 1].2);
        if i < j - 1 {
            let u = ws.take(j - 1);
            assert(u.drop_last() =~= ws.take(j - 2));
            assert(after_writes(q, u).ts == ws[j - 2].2);
        } else if i > 0 {
            let u = ws.take(i);
            assert(u.drop_last() =~= ws.take(i - 1));
            assert(after_writes(q, u).ts == ws[i - 1].2);
        } else {
            assert(ws.take(0) =~= Seq::<(i64, i64, i64)>::empty());
        }
    }
}

/// Every state a slot passes through while the writes `ws` are applied to
/// `q` in turn.
pub open spec fn writes_history(q: Quote64, ws: Seq<(i64, i64, i64)>) -> Seq<Quote64>
    decreases ws.len(),
{
    if ws.len() == 0 {
        seq![q]
    } else {
        let w = ws.last();
        writes_history(q, ws.drop_last()) + write_states(after_writes(q, ws.drop_last()), w.0, w.1, w.2).skip(1)
    }
}

proof fn lemma_after_writes_seq(q: Quote64, ws: Seq<(i64, i64, i64)>)
    requires
        q.seq + 2 * ws.len() <= u64::MAX,
    ensures
        after_writes(q, ws).seq == q.seq + 2 * ws.len(),
        after_writes(q, ws).source_id == q.source_id,
        after_writes(q, ws).symbol_id == q.symbol_id,
        ws.len() > 0 ==> after_writes(q, ws).bid == ws.last().0 && after_writes(q, ws).ask
            == ws.last().1 && after_writes(q, ws).ts == ws.last().2,
    decreases ws.len(),
{
    reveal(write_states);
    if ws.len() > 0 {
        lemma_after_writes_seq(q, ws.drop_last());
    }
}

proof fn lemma_history_concat_valid(h0: Seq<Quote64>, st: Seq<Quote64>)
    requires
        valid_history(h0),
        valid_history(st),
        h0.len() >= 1,
        st.len() >= 1,
        h0.last() == st[0],
    ensures
        valid_history(h0 + st.skip(1)),
{
    let h = h0 + st.skip(1);
    assert forall|i: int| 0 <= i < h.len() - 1 implies protocol_step(#[trigger] h[i], h[i + 1]) by {
        if i < h0.len() - 1 {
            assert(h[i] == h0[i] && h[i + 1] == h0[i + 1]);
        } else if i == h0.len() - 1 {
            assert(h[i] == st[0] && h[i + 1] == st[1]);
        } else {
            let k = i - h0.len() + 1;
            assert(h[i] == st[k] && h[i + 1] == st[k + 1]);
        }
    }
}

/// `x` is the slot as it stands after some whole number of the writes `ws`.
#[verifier::opaque]
pub open spec fn reached_by_prefix(q: Quote64, ws: Seq<(i64, i64, i64)>, x: Quote64) -> bool {
    exists|j: int| 0 <= j <= ws.len() && x == after_writes(q, ws.take(j))
}

proof fn lemma_prefix_extends(q: Quote64, ws: Seq<(i64, i64, i64)>, x: Quote64)
    requires
        ws.len() > 0,
        reached_by_prefix(q, ws.drop_last(), x),
    ensures
        reached_by_prefix(q, ws, x),
{
    reveal(reached_by_prefix);
    let ws0 = ws.drop_last();
    let j = choose|j: int| 0 <= j <= ws0.len() && x == after_writes(q, ws0.take(j));
    assert(ws0.take(j) =~= ws.take(j));
}

proof fn lemma_whole_run_reached(q: Quote64, ws: Seq<(i64, i64, i64)>)
    ensures
        reached_by_prefix(q, ws, after_writes(q, ws)),
{
    reveal(reached_by_prefix);
    assert(ws.take(ws.len() as int) =~= ws);
}

proof fn lemma_writes_history(q: Quote64, ws: Seq<(i64, i64, i64)>)
    requires
        is_stable(q.seq),
        q.seq + 2 * ws.len() <= u64::MAX,
    ensures
        writes_history(q, ws).len() == 5 * ws.len() + 1,
        writes_history(q, ws)[0] == q,
        writes_history(q, ws).last() == after_writes(q, ws),
        valid_history(writes_history(q, ws)),
        forall|i: int|
            0 <= i < writes_history(q, ws).len() && is_stable(#[trigger] writes_history(q, ws)[i].seq)
                ==> reached_by_prefix(q, ws, writes_history(q, ws)[i]),
    decreases ws.len(),
{
    let h = writes_history(q, ws);
    if ws.len() == 0 {
        assert forall|i: int| 0 <= i < h.len() && is_stable(#[trigger] h[i].seq) implies reached_by_prefix(
            q,
            ws,
            h[i],
        ) by {
            lemma_whole_run_reached(q, ws);
        }
    } else {
        let ws0 = ws.drop_last();
        let w = ws.last();
        lemma_writes_history(q, ws0);
        lemma_after_writes_seq(q, ws0);
        let h0 = writes_history(q, ws0);
        let q0 = after_writes(q, ws0);
        let st = write_states(q0, w.0, w.1, w.2);
        assert((q.seq + 2 * ws0.len()) % 2 == 0);
        lemma_write_follows_protocol(q0, w.0, w.1, w.2);
        assert(h == h0 + st.skip(1));
        lemma_history_concat_valid(h0, st);
        assert(after_writes(q, ws) == st.last());
        assert forall|i: int| 0 <= i < h.len() && is_stable(#[trigger] h[i].seq) implies reached_by_prefix(
            q,
            ws,
            h[i],
        ) by {
            if i < h0.len() {
                assert(h[i] == h0[i]);
                lemma_prefix_extends(q, ws, h[i]);
            } else {
                let k = i - h0.len() + 1;
                assert(h[i] == st[k]);
                assert(k == 5);
                lemma_whole_run_reached(q, ws);
            }
        }
    }
}

/// After the first `j` of the writes `ws`, the slot holds its coordinates
/// and exactly the values of write `j`.
pub proof fn lemma_after_writes_snapshot(q: Quote64, ws: Seq<(i64, i64, i64)>, j: int)
    requires
        q.seq + 2 * ws.len() <= u64::MAX,
        1 <= j <= ws.len(),
    ensures
        after_writes(q, ws.take(j)).snapshot() == (
            q.source_id,
            q.symbol_id,
            ws[j - 1].0,
            ws[j - 1].1,
            ws[j - 1].2,
        ),
{
    lemma_after_writes_seq(q, ws.take(j));
    assert(ws.take(j).last() == ws[j - 1]);
}

/// Over any run of successive writes, a reader whose two sequence loads see
/// the same even number returns the slot as it stood after a whole number
/// `j` of the writes: the initial values, or exactly those of write `j`
/// (see `lemma_after_writes_snapshot`), never a mix.
pub proof fn lemma_reader_sees_one_write(q: Quote64, ws: Seq<(i64, i64, i64)>, a: int, b: int, c: int)
    requires
        is_stable(q.seq),
        q.seq + 2 * ws.len() <= u64::MAX,
        0 <= a <= b <= c < writes_history(q, ws).len(),
        writes_history(q, ws)[a].seq == writes_history(q, ws)[c].seq,
        is_stable(writes_history(q, ws)[a].seq),
    ensures
        exists|j: int|
            0 <= j <= ws.len() && accept_snapshot_spec(
                writes_history(q, ws)[a].seq,
                writes_history(q, ws)[b],
                writes_history(q, ws)[c].seq,
            ) == Some(#[trigger] after_writes(q, ws.take(j)).snapshot()),
{
    let h = writes_history(q, ws);
    lemma_writes_history(q, ws);
    lemma_even_bracket_is_consistent(h, a, b, c);
    assert(is_stable(h[a].seq));
    assert(reached_by_prefix(q, ws, h[a]));
    reveal(reached_by_prefix);
    let j = choose|j: int| 0 <= j <= ws.len() && h[a] == after_writes(q, ws.take(j));
    assert(accept_snapshot_spec(h[a].seq, h[b], h[c].seq) == Some(after_writes(q, ws.take(j)).snapshot()));
}

} // verus!
