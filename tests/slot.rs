use quote_writer::slot::{accept_snapshot, Quote64};

#[test]
fn test_quote64_size() {
    assert_eq!(std::mem::size_of::<Quote64>(), 64);
}

#[test]
fn test_seqlock() {
    let mut quote = Quote64 {
        seq: 0,
        source_id: 1,
        symbol_id: 10,
        bid: 0,
        ask: 0,
        ts: 0,
        reserved0: 0,
        reserved1: 0,
    };

    quote.write(10000000000, 10000100000, 123456789);

    let result = quote.read();
    assert!(result.is_some());
    let (sid, sym, bid, ask, ts) = result.unwrap();
    assert_eq!(sid, 1);
    assert_eq!(sym, 10);
    assert_eq!(bid, 10000000000);
    assert_eq!(ask, 10000100000);
    assert_eq!(ts, 123456789);
}

#[test]
fn init_write_read_round_trip() {
    let mut q = Quote64::new(7, 7);
    q.bid = 99;
    q.seq = 41;
    q.init_slot(3, 5);
    assert_eq!(q, Quote64::new(3, 5));
    assert_eq!(q.read(), Some((3, 5, 0, 0, 0)));
    q.write(-4, 8, 1_000);
    assert_eq!(q.seq, 2);
    assert_eq!(q.read(), Some((3, 5, -4, 8, 1_000)));
}

#[test]
fn odd_sequence_is_not_read() {
    let mut q = Quote64::new(1, 1);
    q.seq = 3;
    assert_eq!(q.read(), None);
}

#[test]
fn sequence_wraps_at_the_top() {
    let mut q = Quote64::new(1, 1);
    q.seq = u64::MAX - 1;
    q.write(1, 2, 3);
    assert_eq!(q.seq, 0);
}

#[test]
fn published_ts_follows_the_writes() {
    let mut q = Quote64::new(1, 2);
    let mut last = q.ts;
    for ts in [5i64, 5, 9, 120] {
        q.write(1, 2, ts);
        assert!(q.ts >= last);
        last = q.ts;
    }
    assert_eq!(q.ts, 120);
}

/// Every state the slot passes through during two writes, field by field.
fn states_of_two_writes() -> Vec<Quote64> {
    let mut q = Quote64::new(1, 1);
    q.write(10, 20, 100);
    let mut states = vec![q];
    for (bid, ask, ts) in [(11i64, 21i64, 101i64)] {
        q.seq += 1;
        states.push(q);
        q.bid = bid;
        states.push(q);
        q.ask = ask;
        states.push(q);
        q.ts = ts;
        states.push(q);
        q.seq += 1;
        states.push(q);
    }
    states
}

#[test]
fn interleaved_reader_never_sees_a_mix() {
    let states = states_of_two_writes();
    let first = (1u64, 1u64, 10i64, 20i64, 100i64);
    let second = (1u64, 1u64, 11i64, 21i64, 101i64);
    let mut accepted = 0;
    for a in 0..states.len() {
        for b in a..states.len() {
            for c in b..states.len() {
                match accept_snapshot(states[a].seq, &states[b], states[c].seq) {
                    None => {}
                    Some(s) => {
                        accepted += 1;
                        assert!(s == first || s == second, "mixed snapshot {:?}", s);
                    }
                }
            }
        }
    }
    assert!(accepted > 0);
}

#[test]
fn write_then_snapshot_is_the_written_values() {
    let mut q = Quote64::new(2, 4);
    q.write(10, 20, 100);
    q.write(11, 21, 101);
    assert_eq!(accept_snapshot(q.seq, &q, q.seq), Some((2, 4, 11, 21, 101)));
    assert_eq!(accept_snapshot(q.seq, &q, q.seq + 2), None);
}
