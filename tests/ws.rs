use quote_writer::shm::{ShmHeader, ShmLayout};
use quote_writer::slot::Quote64;
use quote_writer::symbols::{create_symbol_id_map, parse_subscribe_list, parse_symbols_tsv};
use quote_writer::ws::{
    chunk_by, chunk_symbols, create_ws_url, decide_quote, BackoffCalculator, BookTickerData,
    ConnectionOutcome, ConnectionSupervisor, PerfStats, QuoteDecision, SupervisorAction,
    WsConnection, WsManager,
};
use quote_writer::price::PriceError;

#[test]
fn test_chunk_symbols() {
    let symbols: Vec<String> = (0..1000).map(|i| format!("SYM{}", i)).collect();
    let chunks = chunk_symbols(&symbols);

    assert_eq!(chunks.len(), 10);
    assert_eq!(chunks[0].len(), 100);
    assert_eq!(chunks[9].len(), 100);
}

#[test]
fn test_create_ws_url() {
    let symbols = vec!["BTCUSDT".to_string(), "ETHUSDT".to_string()];
    let url = create_ws_url(&symbols);

    assert!(url.contains("wss://fstream.binance.com/stream?streams="));
    assert!(url.contains("btcusdt@bookTicker"));
    assert!(url.contains("ethusdt@bookTicker"));
}

#[test]
fn ws_url_is_exact() {
    let symbols = vec!["BTCUSDT".to_string(), "ETHUSDT".to_string()];
    assert_eq!(
        create_ws_url(&symbols),
        "wss://fstream.binance.com/stream?streams=btcusdt@bookTicker/ethusdt@bookTicker"
    );
    assert_eq!(create_ws_url(&[]), "wss://fstream.binance.com/stream?streams=");
    let c = WsConnection::new(vec!["XRPUSDT".to_string()], 0u8);
    assert_eq!(c.url(), "wss://fstream.binance.com/stream?streams=xrpusdt@bookTicker");
}

#[test]
fn two_hundred_fifty_symbols_make_three_shards() {
    let symbols: Vec<String> = (0..250).map(|i| format!("S{}", i)).collect();
    let chunks = chunk_by(&symbols, 100);
    assert_eq!(chunks.iter().map(|c| c.len()).collect::<Vec<_>>(), vec![100, 100, 50]);
    assert_eq!(chunks[2][0], "S200");
    let manager = WsManager::new(symbols.clone(), 7u32);
    assert_eq!(manager.connections.len(), 3);
    assert_eq!(manager.connections[1].symbols[0], "S100");
    assert_eq!(manager.connections[2].symbols.len(), 50);
    assert_eq!(ConnectionSupervisor::new(2).startup_delay_ms(), 400);
    assert_eq!(ConnectionSupervisor::new(0).startup_delay_ms(), 0);
    assert!(chunk_symbols(&[]).is_empty());
}

#[test]
fn backoff_follows_the_schedule() {
    let mut b = BackoffCalculator::new();
    let got: Vec<u64> = (0..9).map(|_| b.next_delay()).collect();
    assert_eq!(got, vec![200, 500, 1000, 2000, 5000, 10000, 30000, 30000, 30000]);
    b.reset();
    assert_eq!(b.next_delay(), 200);
}

#[test]
fn jitter_disperses_connections() {
    assert_eq!(ConnectionSupervisor::new(0).jitter_ms(), 0);
    assert_eq!(ConnectionSupervisor::new(3).jitter_ms(), 150);
    assert_eq!(ConnectionSupervisor::new(12).jitter_ms(), 100);
    assert_eq!(ConnectionSupervisor::new(u64::MAX).jitter_ms(), 250);
}

#[test]
fn eleventh_consecutive_failure_gives_up() {
    let mut s = ConnectionSupervisor::new(1);
    for k in 0..10 {
        match s.on_outcome(ConnectionOutcome::Failed) {
            SupervisorAction::Reconnect { .. } => {}
            SupervisorAction::GiveUp => panic!("gave up after {} failures", k + 1),
        }
    }
    assert_eq!(s.on_outcome(ConnectionOutcome::Failed), SupervisorAction::GiveUp);
}

#[test]
fn clean_close_resets_failures_and_backoff() {
    let mut s = ConnectionSupervisor::new(1);
    assert_eq!(s.on_outcome(ConnectionOutcome::Failed), SupervisorAction::Reconnect { delay_ms: 250 });
    assert_eq!(s.on_outcome(ConnectionOutcome::Failed), SupervisorAction::Reconnect { delay_ms: 550 });
    for _ in 0..8 {
        s.on_outcome(ConnectionOutcome::Failed);
    }
    assert_eq!(s.consecutive_errors, 10);
    assert_eq!(s.on_outcome(ConnectionOutcome::Closed), SupervisorAction::Reconnect { delay_ms: 250 });
    assert_eq!(s.consecutive_errors, 0);
    for _ in 0..10 {
        assert_ne!(s.on_outcome(ConnectionOutcome::Failed), SupervisorAction::GiveUp);
    }
}

#[test]
fn stats_track_max_count_and_slow_samples() {
    let mut p = PerfStats::new();
    for x in [10u64, 7000, 5000, 5001, 3] {
        p.record(x);
    }
    assert_eq!(p.total_messages, 5);
    assert_eq!(p.max_proc_us, 7000);
    assert_eq!(p.over_5000us_count, 2);
}

fn quote(symbol: &str, bid: &str, ask: &str) -> BookTickerData {
    BookTickerData { symbol: symbol.to_string(), bid_price: bid.to_string(), ask_price: ask.to_string() }
}

#[test]
fn quote_decisions() {
    let table = parse_symbols_tsv("1\tBTCUSDT\n2\tETHUSDT\n").unwrap();
    let subs = parse_subscribe_list("BTCUSDT\n").unwrap();
    let map = create_symbol_id_map(&subs, &table).unwrap();
    assert_eq!(decide_quote(&map, &quote("ETHUSDT", "1", "2")), QuoteDecision::UnknownSymbol);
    assert_eq!(
        decide_quote(&map, &quote("BTCUSDT", "1.2.3", "2")),
        QuoteDecision::BadBid(PriceError::MultipleDecimalPoints)
    );
    assert_eq!(decide_quote(&map, &quote("BTCUSDT", "1", "")), QuoteDecision::BadAsk(PriceError::Empty));
}

#[test]
fn quote_is_published_into_its_slot() {
    let table = parse_symbols_tsv("1\tBTCUSDT\n2\tETHUSDT\n").unwrap();
    let subs = parse_subscribe_list("BTCUSDT\n").unwrap();
    let map = create_symbol_id_map(&subs, &table).unwrap();

    let mut b = Vec::new();
    b.extend_from_slice(b"QSHM1\0\0\0");
    for f in [1u64, 4096, 64, 4096, 100_000_000, 1_000_000, 2, 3, 6, 4096 + 6 * 64] {
        b.extend_from_slice(&f.to_le_bytes());
    }
    let layout = ShmLayout::validate(&ShmHeader::decode(&b).unwrap(), 4096 + 6 * 64, None).unwrap();
    let mut slots: Vec<Quote64> = (0..6).map(|i| Quote64::new(i / 3, i % 3)).collect();

    let now = 1_000_000i64;
    match decide_quote(&map, &quote("BTCUSDT", "43567.89", "43567.90")) {
        QuoteDecision::Publish { symbol_id, bid, ask } => {
            let idx = layout.slot_index(1, symbol_id).unwrap() as usize;
            slots[idx].write(bid, ask, now);
        }
        other => panic!("unexpected {:?}", other),
    }
    let (src, sym, bid, ask, ts) = slots[4].read().unwrap();
    assert_eq!((src, sym), (1, 1));
    assert_eq!(bid, 4_356_789_000_000);
    assert_eq!(ask, 4_356_790_000_000);
    assert!((ts - now).abs() <= 1_000_000);
}
