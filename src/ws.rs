use vstd::prelude::*;
use crate::text::{lower_of, to_lower};
use crate::symbols::{views, SymbolMap};
use crate::price::{parse_price_i64_1e8, parse_spec, PriceError};
use crate::text::trim_of;

verus! {

/// Most streams one upstream connection carries.
pub const CHUNK_SIZE: usize = 100;

/// Delay between the starts of successive connections.
pub const STARTUP_STAGGER_MS: u64 = 200;

/// Longest reconnect delay.
pub const MAX_DELAY_MS: u64 = 30000;

/// Consecutive failures a connection may have; one more is fatal.
pub const MAX_CONSECUTIVE_ERRORS: u32 = 10;

/// A processing time above this many microseconds counts as slow.
pub const SLOW_THRESHOLD_US: u64 = 5000;

/// One best bid / best ask update as the upstream sends it.
pub struct BookTickerData {
    pub symbol: String,
    pub bid_price: String,
    pub ask_price: String,
}

/// An update of the combined stream: the stream's name and its payload.
pub struct StreamMessage {
    pub stream: String,
    pub data: BookTickerData,
}

/// `parts` joined with `/` between neighbours.
pub open spec fn join_slash(parts: Seq<Seq<char>>) -> Seq<char>
    decreases parts.len(),
{
    if parts.len() == 0 {
        Seq::empty()
    } else if parts.len() == 1 {
        parts[0]
    } else {
        join_slash(parts.drop_last()) + "/"@ + parts.last()
    }
}

/// The stream name of one symbol.
pub open spec fn stream_of(symbol: Seq<char>) -> Seq<char> {
    lower_of(symbol) + "@bookTicker"@
}

/// The combined-stream address for `symbols`.
pub open spec fn ws_url_of(symbols: Seq<Seq<char>>) -> Seq<char> {
    "wss://fstream.binance.com/stream?streams="@ + join_slash(symbols.map_values(|s: Seq<char>| stream_of(s)))
}

/// Relies on `String::push_str`: appends `s`.
#[verifier::external_body]
fn push_str(dst: &mut String, s: &str)
    ensures
        final(dst)@ == old(dst)@ + s@,
{
    dst.push_str(s)
}

/// The combined-stream address that subscribes to `symbols`.
pub fn create_ws_url(symbols: &[String]) -> (r: String)
    ensures
        r@ == ws_url_of(views(symbols@)),
{
    let ghost names = views(symbols@);
    let ghost streams = names.map_values(|s: Seq<char>| stream_of(s));
    let mut joined = String::new();
    let mut i: usize = 0;
    while i < symbols.len()
        invariant
            names == views(symbols@),
            streams == names.map_values(|s: Seq<char>| stream_of(s)),
            i <= symbols@.len(),
            joined@ == join_slash(streams.take(i as int)),
        decreases symbols@.len() - i,
    {
        let ghost before = joined@;
        let ghost t = streams.take(i + 1);
        assert(t.drop_last() =~= streams.take(i as int));
        assert(t.last() == stream_of(symbols@[i as int]@));
        if i > 0 {
            push_str(&mut joined, "/");
        }
        let lower = to_lower(symbols[i].as_str());
        push_str(&mut joined, lower.as_str());
        push_str(&mut joined, "@bookTicker");
        if i == 0 {
            assert(t.len() == 1);
            assert(joined@ =~= t[0]);
        } else {
            assert(joined@ =~= join_slash(t.drop_last()) + "/"@ + t.last());
        }
        i += 1;
    }
    assert(streams.take(symbols@.len() as int) =~= streams);
    let mut url = String::new();
    push_str(&mut url, "wss://fstream.binance.com/stream?streams=");
    push_str(&mut url, joined.as_str());
    url
}

/// The number of chunks of `size` that `n` items make.
pub open spec fn chunk_count(n: int, size: int) -> int {
    (n + size - 1) / size
}

/// `symbols` cut, in order, into runs of `size`; the last may be shorter.
pub fn chunk_by(symbols: &[String], size: usize) -> (r: Vec<Vec<String>>)
    requires
        size > 0,
    ensures
        r@.len() == chunk_count(symbols@.len() as int, size as int),
        forall|i: int|
            0 <= i < r@.len() ==> views(#[trigger] r@[i]@) == views(symbols@).subrange(
                i * size,
                if (i + 1) * size < symbols@.len() {
                    (i + 1) * size
                } else {
                    symbols@.len() as int
                },
            ),
{
    let n = symbols.len();
    let mut out: Vec<Vec<String>> = Vec::new();
    let mut start: usize = 0;
    proof {
        if n == 0 {
            assert(chunk_count(0, size as int) == 0) by (nonlinear_arith)
                requires
                    size > 0,
            ;
        } else {
            assert(chunk_count(n as int, size as int) >= 1) by (nonlinear_arith)
                requires
                    size > 0,
                    n > 0,
            ;
        }
        assert(0 * size == 0);
    }
    while start < n
        invariant
            n == symbols@.len(),
            size > 0,
            start < n ==> start == out@.len() * size,
            start <= n,
            start == n ==> out@.len() == chunk_count(n as int, size as int),
            start < n ==> out@.len() < chunk_count(n as int, size as int),
            forall|i: int|
                0 <= i < out@.len() ==> views(#[trigger] out@[i]@) == views(symbols@).subrange(
                    i * size,
                    if (i + 1) * size < n {
                        (i + 1) * size
                    } else {
                        n as int
                    },
                ),
        decreases n - start,
    {
        let end = if n - start > size {
            start + size
        } else {
            n
        };
        let mut chunk: Vec<String> = Vec::new();
        let mut j = start;
        while j < end
            invariant
                start <= j <= end <= n == symbols@.len(),
                views(chunk@) == views(symbols@).subrange(start as int, j as int),
            decreases end - j,
        {
            let ghost before = views(chunk@);
            chunk.push(symbols[j].clone());
            assert(views(chunk@) =~= before.push(symbols@[j as int]@));
            assert(views(symbols@).subrange(start as int, j + 1) =~= views(symbols@).subrange(
                start as int,
                j as int,
            ).push(symbols@[j as int]@));
            j += 1;
        }
        let ghost k = out@.len();
        proof {
            assert(start == k * size);
            assert((k + 1) * size == k * size + size) by (nonlinear_arith);
            if end == n {
                assert(chunk_count(n as int, size as int) == k + 1) by (nonlinear_arith)
                    requires
                        n - k * size <= size,
                        n > k * size,
                        size > 0,
                ;
            } else {
                assert(chunk_count(n as int, size as int) > k + 1) by (nonlinear_arith)
                    requires
                        n > k * size + size,
                        size > 0,
                ;
            }
        }
        let ghost old_out = out@;
        out.push(chunk);
        assert forall|i: int|
            0 <= i < out@.len() implies views(#[trigger] out@[i]@) == views(symbols@).subrange(
                i * size,
                if (i + 1) * size < n {
                    (i + 1) * size
                } else {
                    n as int
                },
            ) by {
            if i < k {
                assert(out@[i] == old_out[i]);
            }
        }
        start = end;
    }
    out
}

/// `symbols` cut, in order, into runs of `CHUNK_SIZE`; the last may be
/// shorter.
pub fn chunk_symbols(symbols: &[String]) -> (r: Vec<Vec<String>>)
    ensures
        r@.len() == chunk_count(symbols@.len() as int, CHUNK_SIZE as int),
        forall|i: int|
            0 <= i < r@.len() ==> views(#[trigger] r@[i]@) == views(symbols@).subrange(
                i * CHUNK_SIZE,
                if (i + 1) * CHUNK_SIZE < symbols@.len() {
                    (i + 1) * CHUNK_SIZE
                } else {
                    symbols@.len() as int
                },
            ),
{
    chunk_by(symbols, CHUNK_SIZE)
}

/// The reconnect delay, in milliseconds, after `attempt` earlier attempts.
pub open spec fn backoff_delay(attempt: int) -> u64 {
    if attempt == 0 {
        200
    } else if attempt == 1 {
        500
    } else if attempt == 2 {
        1000
    } else if attempt == 3 {
        2000
    } else if attempt == 4 {
        5000
    } else if attempt == 5 {
        10000
    } else {
        MAX_DELAY_MS
    }
}

/// The exponential reconnect schedule of one connection.
pub struct BackoffCalculator {
    pub attempt: u32,
}

impl BackoffCalculator {
    /// A schedule at its first step.
    pub fn new() -> (r: BackoffCalculator)
        ensures
            r.attempt == 0,
    {
        BackoffCalculator { attempt: 0 }
    }

    /// The delay for the current attempt; moves to the next one.
    pub fn next_delay(&mut self) -> (r: u64)
        ensures
            r == backoff_delay(old(self).attempt as int),
            final(self).attempt == if old(self).attempt < u32::MAX {
                old(self).attempt + 1
            } else {
                old(self).attempt as int
            },
    {
        let delay = match self.attempt {
            0 => 200,
            1 => 500,
            2 => 1000,
            3 => 2000,
            4 => 5000,
            5 => 10000,
            _ => MAX_DELAY_MS,
        };
        if self.attempt < u32::MAX {
            self.attempt = self.attempt + 1;
        }
        delay
    }

    /// Back to the first step.
    pub fn reset(&mut self)
        ensures
            final(self).attempt == 0,
    {
        self.attempt = 0;
    }
}

/// How one run of a connection ended.
#[derive(Debug, Clone, Copy, PartialEq, Eq, Structural)]
pub enum ConnectionOutcome {
    /// The upstream closed the stream cleanly.
    Closed,
    /// Connecting or streaming failed.
    Failed,
}

/// What the supervisor of a connection does next.
#[derive(Debug, Clone, Copy, PartialEq, Eq, Structural)]
pub enum SupervisorAction {
    /// Wait this many milliseconds, then connect again.
    Reconnect { delay_ms: u64 },
    /// Too many failures in a row: the process must stop.
    GiveUp,
}

/// The per-connection jitter added to every reconnect delay.
pub open spec fn jitter_of(index: u64) -> int {
    (index * 50) % 500
}

/// The reconnect policy of the connection with index `index`.
pub struct ConnectionSupervisor {
    pub index: u64,
    pub backoff: BackoffCalculator,
    pub consecutive_errors: u32,
}

/// The supervisor after one outcome, as `on_outcome` leaves it.
pub open spec fn after_outcome(s: ConnectionSupervisor, o: ConnectionOutcome) -> (u32, u32) {
    match o {
        ConnectionOutcome::Closed => (1u32, 0u32),
        ConnectionOutcome::Failed => (
            if s.backoff.attempt < u32::MAX {
                (s.backoff.attempt + 1) as u32
            } else {
                s.backoff.attempt
            },
            if s.consecutive_errors < u32::MAX {
                (s.consecutive_errors + 1) as u32
            } else {
                s.consecutive_errors
            },
        ),
    }
}

/// The failure count after `k` more failures in a row, counted as
/// `on_outcome` counts them.
pub open spec fn errors_after_failures(e: u32, k: nat) -> u32
    decreases k,
{
    if k == 0 {
        e
    } else {
        let p = errors_after_failures(e, (k - 1) as nat);
        if p < u32::MAX {
            (p + 1) as u32
        } else {
            p
        }
    }
}

/// From a fresh supervisor, or one just reset by a clean close, the `k`-th
/// failure in a row leaves a count of `k`, so it gives up exactly when `k`
/// is eleven or more: ten failures in a row are survived, the eleventh is
/// fatal.
pub proof fn lemma_eleventh_failure_gives_up(k: nat)
    requires
        1 <= k <= u32::MAX,
    ensures
        errors_after_failures(0, k) == k,
        errors_after_failures(0, k) > MAX_CONSECUTIVE_ERRORS <==> k >= 11,
        forall|s: ConnectionSupervisor|
            s.consecutive_errors == errors_after_failures(0, (k - 1) as nat) ==> #[trigger] after_outcome(
                s,
                ConnectionOutcome::Failed,
            ).1 == errors_after_failures(0, k),
    decreases k,
{
    assert(errors_after_failures(0, 0) == 0);
    if k > 1 {
        lemma_eleventh_failure_gives_up((k - 1) as nat);
    }
}

impl ConnectionSupervisor {
    /// The supervisor of connection `index`, before its first attempt.
    pub fn new(index: u64) -> (r: ConnectionSupervisor)
        ensures
            r.index == index,
            r.backoff.attempt == 0,
            r.consecutive_errors == 0,
    {
        ConnectionSupervisor { index, backoff: BackoffCalculator::new(), consecutive_errors: 0 }
    }

    /// How long connection `index` waits before its first attempt.
    pub fn startup_delay_ms(&self) -> (r: u64)
        ensures
            r == if self.index * STARTUP_STAGGER_MS > u64::MAX {
                u64::MAX as int
            } else {
                self.index * STARTUP_STAGGER_MS
            },
    {
        match self.index.checked_mul(STARTUP_STAGGER_MS) {
            Some(d) => d,
            None => u64::MAX,
        }
    }

    /// The fixed jitter of this connection: `(index * 50) mod 500` ms.
    pub fn jitter_ms(&self) -> (r: u64)
        ensures
            r == jitter_of(self.index),
    {
        let r = (self.index % 10) * 50;
        proof {
            let i = self.index as int;
            assert((i * 50) % 500 == (i % 10) * 50) by (nonlinear_arith)
                requires
                    i >= 0,
            ;
        }
        r
    }

    /// Takes the outcome of one run and decides what follows: a clean close
    /// restarts the schedule and clears the failure count; a failure counts,
    /// and the eleventh in a row gives up; otherwise the connection waits
    /// for the scheduled delay plus its jitter.
    pub fn on_outcome(&mut self, outcome: ConnectionOutcome) -> (r: SupervisorAction)
        ensures
            final(self).index == old(self).index,
            outcome == ConnectionOutcome::Closed ==> final(self).consecutive_errors == 0,
            outcome == ConnectionOutcome::Failed ==> final(self).consecutive_errors
                == after_outcome(*old(self), outcome).1,
            r == SupervisorAction::GiveUp <==> (outcome == ConnectionOutcome::Failed
                && final(self).consecutive_errors > MAX_CONSECUTIVE_ERRORS),
            r != SupervisorAction::GiveUp ==> final(self).backoff.attempt == after_outcome(
                *old(self),
                outcome,
            ).0 && r == (SupervisorAction::Reconnect {
                delay_ms: (backoff_delay(
                    if outcome == ConnectionOutcome::Closed {
                        0
                    } else {
                        old(self).backoff.attempt as int
                    },
                ) + jitter_of(old(self).index)) as u64,
            }),
    {
        match outcome {
            ConnectionOutcome::Closed => {
                self.backoff.reset();
                self.consecutive_errors = 0;
            },
            ConnectionOutcome::Failed => {
                if self.consecutive_errors < u32::MAX {
                    self.consecutive_errors = self.consecutive_errors + 1;
                }
                if self.consecutive_errors > MAX_CONSECUTIVE_ERRORS {
                    return SupervisorAction::GiveUp;
                }
            },
        }
        let base = self.backoff.next_delay();
        let jitter = self.jitter_ms();
        SupervisorAction::Reconnect { delay_ms: base + jitter }
    }
}

/// Processing-time statistics of the write path.
pub struct PerfStats {
    pub max_proc_us: u64,
    pub over_5000us_count: u64,
    pub total_messages: u64,
}

/// The counters (total, max, count over the threshold) after one more
/// sample `x`; the two counts wrap at 2^64.
pub open spec fn stats_step(p: (u64, u64, u64), x: u64) -> (u64, u64, u64) {
    (
        (if p.0 == u64::MAX { 0 } else { p.0 + 1 }) as u64,
        if x > p.1 { x } else { p.1 },
        (if x > SLOW_THRESHOLD_US { if p.2 == u64::MAX { 0 } else { p.2 + 1 } } else { p.2 as int }) as u64,
    )
}

/// The counters after recording the samples `xs` from zero.
pub open spec fn stats_of(xs: Seq<u64>) -> (u64, u64, u64)
    decreases xs.len(),
{
    if xs.len() == 0 {
        (0, 0, 0)
    } else {
        stats_step(stats_of(xs.drop_last()), xs.last())
    }
}

pub open spec fn seq_max(xs: Seq<u64>) -> u64
    decreases xs.len(),
{
    if xs.len() == 0 {
        0
    } else if xs.last() > seq_max(xs.drop_last()) {
        xs.last()
    } else {
        seq_max(xs.drop_last())
    }
}

pub open spec fn count_over(xs: Seq<u64>, threshold: u64) -> nat
    decreases xs.len(),
{
    if xs.len() == 0 {
        0
    } else {
        count_over(xs.drop_last(), threshold) + if xs.last() > threshold {
            1nat
        } else {
            0nat
        }
    }
}

impl PerfStats {
    pub open spec fn view_triple(self) -> (u64, u64, u64) {
        (self.total_messages, self.max_proc_us, self.over_5000us_count)
    }

    /// All counters at zero.
    pub fn new() -> (r: PerfStats)
        ensures
            r.view_triple() == stats_of(Seq::empty()),
    {
        PerfStats { max_proc_us: 0, over_5000us_count: 0, total_messages: 0 }
    }

    /// Accounts one processing time in microseconds.
    pub fn record(&mut self, proc_us: u64)
        ensures
            final(self).view_triple() == stats_step(old(self).view_triple(), proc_us),
    {
        self.total_messages = if self.total_messages == u64::MAX {
            0
        } else {
            self.total_messages + 1
        };
        if proc_us > self.max_proc_us {
            self.max_proc_us = proc_us;
        }
        if proc_us > SLOW_THRESHOLD_US {
            self.over_5000us_count = if self.over_5000us_count == u64::MAX {
                0
            } else {
                self.over_5000us_count + 1
            };
        }
    }
}

/// Recording the samples `xs` one by one from fresh counters leaves the
/// maximum of the samples, their number and the number of them above the
/// slow threshold (while fewer than 2^64 samples have been taken).
pub proof fn lemma_stats_summarise_samples(xs: Seq<u64>)
    requires
        xs.len() < u64::MAX,
    ensures
        stats_of(xs).0 == xs.len(),
        stats_of(xs).1 == seq_max(xs),
        stats_of(xs).2 == count_over(xs, SLOW_THRESHOLD_US),
        forall|i: int| 0 <= i < xs.len() ==> #[trigger] xs[i] <= stats_of(xs).1,
        xs.len() > 0 ==> exists|i: int| 0 <= i < xs.len() && #[trigger] xs[i] == stats_of(xs).1,
    decreases xs.len(),
{
    if xs.len() > 0 {
        let t = xs.drop_last();
        lemma_stats_summarise_samples(t);
        assert(count_over(t, SLOW_THRESHOLD_US) <= t.len()) by {
            lemma_count_over_bound(t, SLOW_THRESHOLD_US);
        }
        assert forall|i: int| 0 <= i < xs.len() implies #[trigger] xs[i] <= stats_of(xs).1 by {
            if i < t.len() {
                assert(xs[i] == t[i]);
            }
        }
        if t.len() > 0 && xs.last() <= stats_of(t).1 {
            let j = choose|j: int| 0 <= j < t.len() && #[trigger] t[j] == stats_of(t).1;
            assert(xs[j] == t[j]);
        } else {
            assert(xs[xs.len() - 1] == xs.last());
        }
    }
}

proof fn lemma_count_over_bound(xs: Seq<u64>, threshold: u64)
    ensures
        count_over(xs, threshold) <= xs.len(),
    decreases xs.len(),
{
    if xs.len() > 0 {
        lemma_count_over_bound(xs.drop_last(), threshold);
    }
}

/// One upstream connection: the symbols it subscribes to and the handler of
/// its updates.
pub struct WsConnection<H> {
    pub symbols: Vec<String>,
    pub handler: H,
}

impl<H> WsConnection<H> {
    pub fn new(symbols: Vec<String>, handler: H) -> (r: WsConnection<H>)
        ensures
            r.symbols == symbols,
            r.handler == handler,
    {
        WsConnection { symbols, handler }
    }

    /// The address this connection subscribes at.
    pub fn url(&self) -> (r: String)
        ensures
            r@ == ws_url_of(views(self.symbols@)),
    {
        create_ws_url(self.symbols.as_slice())
    }
}

/// The connections that together carry a subscription list.
pub struct WsManager<H> {
    pub connections: Vec<WsConnection<H>>,
}

impl<H: Clone> WsManager<H> {
    /// One connection per chunk of `CHUNK_SIZE` symbols, in order, each with
    /// a copy of `handler`.
    pub fn new(symbols: Vec<String>, handler: H) -> (r: WsManager<H>)
        ensures
            r.connections@.len() == chunk_count(symbols@.len() as int, CHUNK_SIZE as int),
            forall|i: int|
                0 <= i < r.connections@.len() ==> views(#[trigger] r.connections@[i].symbols@)
                    == views(symbols@).subrange(
                    i * CHUNK_SIZE,
                    if (i + 1) * CHUNK_SIZE < symbols@.len() {
                        (i + 1) * CHUNK_SIZE
                    } else {
                        symbols@.len() as int
                    },
                ),
    {
        let mut chunks = chunk_symbols(symbols.as_slice());
        let ghost all = chunks@;
        let mut connections: Vec<WsConnection<H>> = Vec::new();
        let n = chunks.len();
        let mut rest: Vec<Vec<String>> = Vec::new();
        // Take the chunks from the back, then restore their order.
        while chunks.len() > 0
            invariant
                chunks@ == all.take(chunks@.len() as int),
                chunks@.len() <= all.len(),
                rest@.len() == all.len() - chunks@.len(),
                forall|j: int|
                    0 <= j < rest@.len() ==> #[trigger] rest@[j] == all[all.len() - 1 - j],
            decreases chunks@.len(),
        {
            let ghost before = rest@;
            let c = chunks.pop().unwrap();
            assert(chunks@ =~= all.take(chunks@.len() as int));
            rest.push(c);
            assert forall|j: int| 0 <= j < rest@.len() implies #[trigger] rest@[j] == all[all.len() - 1 - j] by {
                if j < before.len() {
                    assert(rest@[j] == before[j]);
                }
            }
        }
        while rest.len() > 0
            invariant
                rest@.len() + connections@.len() == all.len(),
                n == all.len(),
                forall|j: int|
                    0 <= j < rest@.len() ==> #[trigger] rest@[j] == all[all.len() - 1 - j],
                forall|i: int|
                    0 <= i < connections@.len() ==> #[trigger] connections@[i].symbols == all[i],
            decreases rest@.len(),
        {
            let ghost k = connections@.len();
            let c = rest.pop().unwrap();
            assert(c == all[k as int]);
            let ghost before = connections@;
            connections.push(WsConnection::new(c, handler.clone()));
            assert forall|i: int| 0 <= i < connections@.len() implies #[trigger] connections@[i].symbols == all[i] by {
                if i < k {
                    assert(connections@[i] == before[i]);
                }
            }
        }
        WsManager { connections }
    }
}

/// What the write path does with one upstream update.
#[derive(Debug, Clone, Copy, PartialEq, Eq, Structural)]
pub enum QuoteDecision {
    /// The symbol is not subscribed: the configuration is out of step.
    UnknownSymbol,
    /// The bid price does not parse; the update is skipped.
    BadBid(PriceError),
    /// The ask price does not parse; the update is skipped.
    BadAsk(PriceError),
    /// Publish these scaled prices into the slot of this symbol id.
    Publish { symbol_id: u64, bid: i64, ask: i64 },
}

/// Resolves the symbol of an update and parses its prices.
pub fn decide_quote(symbol_id_map: &SymbolMap, data: &BookTickerData) -> (r: QuoteDecision)
    ensures
        !symbol_id_map@.contains_key(data.symbol@) ==> r == QuoteDecision::UnknownSymbol,
        symbol_id_map@.contains_key(data.symbol@) && parse_spec(trim_of(data.bid_price@)) is Err
            ==> r == QuoteDecision::BadBid(parse_spec(trim_of(data.bid_price@))->Err_0),
        symbol_id_map@.contains_key(data.symbol@) && parse_spec(trim_of(data.bid_price@)) is Ok
            && parse_spec(trim_of(data.ask_price@)) is Err ==> r == QuoteDecision::BadAsk(
            parse_spec(trim_of(data.ask_price@))->Err_0,
        ),
        symbol_id_map@.contains_key(data.symbol@) && parse_spec(trim_of(data.bid_price@)) is Ok
            && parse_spec(trim_of(data.ask_price@)) is Ok ==> r == (QuoteDecision::Publish {
            symbol_id: symbol_id_map@[data.symbol@],
            bid: parse_spec(trim_of(data.bid_price@))->Ok_0,
            ask: parse_spec(trim_of(data.ask_price@))->Ok_0,
        }),
{
    let symbol_id = match symbol_id_map.get(data.symbol.as_str()) {
        Some(id) => *id,
        None => {
            return QuoteDecision::UnknownSymbol;
        },
    };
    let bid = match parse_price_i64_1e8(data.bid_price.as_str()) {
        Ok(v) => v,
        Err(e) => {
            return QuoteDecision::BadBid(e);
        },
    };
    let ask = match parse_price_i64_1e8(data.ask_price.as_str()) {
        Ok(v) => v,
        Err(e) => {
            return QuoteDecision::BadAsk(e);
        },
    };
    QuoteDecision::Publish { symbol_id, bid, ask }
}

} // verus!
