use vstd::prelude::*;

verus! {

/// Size in bytes of the file header.
pub const HEADER_SIZE: u64 = 4096;

/// Size in bytes of one quote record.
pub const RECORD_SIZE: u64 = 64;

/// Byte offset of the first record.
pub const RECORDS_OFFSET: u64 = 4096;

/// Prices are stored times this factor.
pub const PRICE_SCALE: u64 = 100_000_000;

/// Timestamps are stored in units of 1 / this of a second (microseconds).
pub const TS_SCALE: u64 = 1_000_000;

/// Bytes of the header that carry fields.
pub const HEADER_FIELDS_LEN: usize = 88;

/// The magic bytes "QSHM1\0\0\0" read as a little-endian integer.
pub const MAGIC_LE: u64 = 0x0000_0031_4d48_5351;

/// The file header at the start of the shared region.
#[derive(Debug, Clone, Copy, PartialEq, Eq, Structural)]
pub struct ShmHeader {
    pub magic: u64,
    pub version: u64,
    pub header_size: u64,
    pub record_size: u64,
    pub records_offset: u64,
    pub price_scale: u64,
    pub ts_scale: u64,
    pub n_sources: u64,
    pub n_symbols: u64,
    pub n_records: u64,
    pub shm_total_size: u64,
}

/// The little-endian value of the eight bytes of `b` starting at `off`.
pub open spec fn le_u64(b: Seq<u8>, off: int) -> int {
    b[off] + 256 * (b[off + 1] + 256 * (b[off + 2] + 256 * (b[off + 3] + 256 * (b[off + 4] + 256
        * (b[off + 5] + 256 * (b[off + 6] + 256 * b[off + 7]))))))
}

/// Reads the little-endian `u64` at byte offset `off`.
pub fn read_u64_le(b: &[u8], off: usize) -> (r: u64)
    requires
        off + 8 <= b@.len(),
    ensures
        r == le_u64(b@, off as int),
{
    let v = b[off] as u64 + 256 * (b[off + 1] as u64 + 256 * (b[off + 2] as u64 + 256 * (b[off
        + 3] as u64 + 256 * (b[off + 4] as u64 + 256 * (b[off + 5] as u64 + 256 * (b[off
        + 6] as u64 + 256 * b[off + 7] as u64))))));
    v
}

/// The header that the first bytes of `b` hold.
pub open spec fn header_of(b: Seq<u8>) -> ShmHeader {
    ShmHeader {
        magic: le_u64(b, 0) as u64,
        version: le_u64(b, 8) as u64,
        header_size: le_u64(b, 16) as u64,
        record_size: le_u64(b, 24) as u64,
        records_offset: le_u64(b, 32) as u64,
        price_scale: le_u64(b, 40) as u64,
        ts_scale: le_u64(b, 48) as u64,
        n_sources: le_u64(b, 56) as u64,
        n_symbols: le_u64(b, 64) as u64,
        n_records: le_u64(b, 72) as u64,
        shm_total_size: le_u64(b, 80) as u64,
    }
}

impl ShmHeader {
    /// Decodes the header from the first bytes of the region; `None` when
    /// fewer bytes than the header's fields are given.
    pub fn decode(b: &[u8]) -> (r: Option<ShmHeader>)
        ensures
            b@.len() < HEADER_FIELDS_LEN ==> r is None,
            b@.len() >= HEADER_FIELDS_LEN ==> r == Some(header_of(b@)),
    {
        if b.len() < HEADER_FIELDS_LEN {
            return None;
        }
        Some(
            ShmHeader {
                magic: read_u64_le(b, 0),
                version: read_u64_le(b, 8),
                header_size: read_u64_le(b, 16),
                record_size: read_u64_le(b, 24),
                records_offset: read_u64_le(b, 32),
                price_scale: read_u64_le(b, 40),
                ts_scale: read_u64_le(b, 48),
                n_sources: read_u64_le(b, 56),
                n_symbols: read_u64_le(b, 64),
                n_records: read_u64_le(b, 72),
                shm_total_size: read_u64_le(b, 80),
            },
        )
    }
}


/// A header field that validation checks.
#[derive(Debug, Clone, Copy, PartialEq, Eq, Structural)]
pub enum HeaderField {
    Magic,
    Version,
    HeaderSize,
    RecordSize,
    RecordsOffset,
    PriceScale,
    TsScale,
    ShmTotalSize,
    NRecords,
}

pub open spec fn field_name(f: HeaderField) -> Seq<char> {
    match f {
        HeaderField::Magic => "magic"@,
        HeaderField::Version => "version"@,
        HeaderField::HeaderSize => "header_size"@,
        HeaderField::RecordSize => "record_size"@,
        HeaderField::RecordsOffset => "records_offset"@,
        HeaderField::PriceScale => "price_scale"@,
        HeaderField::TsScale => "ts_scale"@,
        HeaderField::ShmTotalSize => "shm_total_size"@,
        HeaderField::NRecords => "n_records"@,
    }
}

impl HeaderField {
    /// The field's name as the header layout spells it.
    pub fn name(&self) -> (r: &'static str)
        ensures
            r@ == field_name(*self),
    {
        match self {
            HeaderField::Magic => "magic",
            HeaderField::Version => "version",
            HeaderField::HeaderSize => "header_size",
            HeaderField::RecordSize => "record_size",
            HeaderField::RecordsOffset => "records_offset",
            HeaderField::PriceScale => "price_scale",
            HeaderField::TsScale => "ts_scale",
            HeaderField::ShmTotalSize => "shm_total_size",
            HeaderField::NRecords => "n_records",
        }
    }
}

/// A header field whose value is not the one required.
#[derive(Debug, Clone, Copy, PartialEq, Eq, Structural)]
pub struct HeaderError {
    pub field: HeaderField,
    pub expected: u64,
    pub observed: u64,
}

pub open spec fn mismatch(field: HeaderField, expected: u64, observed: u64) -> Option<HeaderError> {
    Some(HeaderError { field, expected, observed })
}

pub open spec fn saturate(v: int) -> u64 {
    if v > u64::MAX {
        u64::MAX
    } else {
        v as u64
    }
}

/// Bytes the region needs to hold the header and every record.
pub open spec fn required_size(h: ShmHeader) -> int {
    RECORDS_OFFSET + h.n_records * RECORD_SIZE
}

/// The first field of `h` that is wrong for a region of `file_len` bytes, in
/// the order the fields are checked; `None` when the header is valid.
pub open spec fn header_mismatch(h: ShmHeader, file_len: u64, expected_version: Option<u64>) -> Option<
    HeaderError,
> {
    if h.magic != MAGIC_LE {
        mismatch(HeaderField::Magic, MAGIC_LE, h.magic)
    } else if expected_version is Some && h.version != expected_version->Some_0 {
        mismatch(HeaderField::Version, expected_version->Some_0, h.version)
    } else if h.header_size != HEADER_SIZE {
        mismatch(HeaderField::HeaderSize, HEADER_SIZE, h.header_size)
    } else if h.record_size != RECORD_SIZE {
        mismatch(HeaderField::RecordSize, RECORD_SIZE, h.record_size)
    } else if h.records_offset != RECORDS_OFFSET {
        mismatch(HeaderField::RecordsOffset, RECORDS_OFFSET, h.records_offset)
    } else if h.price_scale != PRICE_SCALE {
        mismatch(HeaderField::PriceScale, PRICE_SCALE, h.price_scale)
    } else if h.ts_scale != TS_SCALE {
        mismatch(HeaderField::TsScale, TS_SCALE, h.ts_scale)
    } else if h.shm_total_size != file_len {
        mismatch(HeaderField::ShmTotalSize, file_len, h.shm_total_size)
    } else if h.n_records != h.n_sources * h.n_symbols {
        mismatch(HeaderField::NRecords, saturate(h.n_sources * h.n_symbols), h.n_records)
    } else if required_size(h) > h.shm_total_size {
        mismatch(HeaderField::ShmTotalSize, saturate(required_size(h)), h.shm_total_size)
    } else {
        None
    }
}

/// The dimensions of a validated region: `n_sources` rows of `n_symbols`
/// records each, all inside the region.
#[derive(Debug, Clone, Copy)]
pub struct ShmLayout {
    n_sources: u64,
    n_symbols: u64,
}

/// Why a (source, symbol) pair names no slot.
#[derive(Debug, Clone, Copy, PartialEq, Eq, Structural)]
pub enum SlotError {
    SourceOutOfRange { source_id: u64, n_sources: u64 },
    SymbolOutOfRange { symbol_id: u64, n_symbols: u64 },
}

impl ShmLayout {
    pub closed spec fn sources(self) -> u64 {
        self.n_sources
    }

    pub closed spec fn symbols(self) -> u64 {
        self.n_symbols
    }

    /// Every record lies below `u64::MAX` bytes into the region.
    pub closed spec fn wf(self) -> bool {
        RECORDS_OFFSET + self.n_sources * self.n_symbols * RECORD_SIZE <= u64::MAX
    }

    /// Checks every header field against the required values and the
    /// region's length; on success returns the region's dimensions.
    pub fn validate(h: &ShmHeader, file_len: u64, expected_version: Option<u64>) -> (r: Result<
        ShmLayout,
        HeaderError,
    >)
        ensures
            r is Err <==> header_mismatch(*h, file_len, expected_version) is Some,
            r is Err ==> Some(r->Err_0) == header_mismatch(*h, file_len, expected_version),
            r is Ok ==> r->Ok_0.wf() && r->Ok_0.sources() == h.n_sources && r->Ok_0.symbols()
                == h.n_symbols,
    {
        if h.magic != MAGIC_LE {
            return Err(HeaderError { field: HeaderField::Magic, expected: MAGIC_LE, observed: h.magic });
        }
        if let Some(v) = expected_version {
            if h.version != v {
                return Err(HeaderError { field: HeaderField::Version, expected: v, observed: h.version });
            }
        }
        if h.header_size != HEADER_SIZE {
            return Err(
                HeaderError {
                    field: HeaderField::HeaderSize,
                    expected: HEADER_SIZE,
                    observed: h.header_size,
                },
            );
        }
        if h.record_size != RECORD_SIZE {
            return Err(
                HeaderError {
                    field: HeaderField::RecordSize,
                    expected: RECORD_SIZE,
                    observed: h.record_size,
                },
            );
        }
        if h.records_offset != RECORDS_OFFSET {
            return Err(
                HeaderError {
                    field: HeaderField::RecordsOffset,
                    expected: RECORDS_OFFSET,
                    observed: h.records_offset,
                },
            );
        }
        if h.price_scale != PRICE_SCALE {
            return Err(
                HeaderError {
                    field: HeaderField::PriceScale,
                    expected: PRICE_SCALE,
                    observed: h.price_scale,
                },
            );
        }
        if h.ts_scale != TS_SCALE {
            return Err(
                HeaderError { field: HeaderField::TsScale, expected: TS_SCALE, observed: h.ts_scale },
            );
        }
        if h.shm_total_size != file_len {
            return Err(
                HeaderError {
                    field: HeaderField::ShmTotalSize,
                    expected: file_len,
                    observed: h.shm_total_size,
                },
            );
        }
        let expected_records = h.n_sources.checked_mul(h.n_symbols);
        match expected_records {
            None => {
                return Err(
                    HeaderError {
                        field: HeaderField::NRecords,
                        expected: u64::MAX,
                        observed: h.n_records,
                    },
                );
            },
            Some(n) => {
                if h.n_records != n {
                    return Err(
                        HeaderError { field: HeaderField::NRecords, expected: n, observed: h.n_records },
                    );
                }
            },
        }
        let needed = match h.n_records.checked_mul(RECORD_SIZE) {
            Some(x) => x.checked_add(RECORDS_OFFSET),
            None => None,
        };
        match needed {
            None => {
                return Err(
                    HeaderError {
                        field: HeaderField::ShmTotalSize,
                        expected: u64::MAX,
                        observed: h.shm_total_size,
                    },
                );
            },
            Some(x) => {
                if x > h.shm_total_size {
                    return Err(
                        HeaderError {
                            field: HeaderField::ShmTotalSize,
                            expected: x,
                            observed: h.shm_total_size,
                        },
                    );
                }
            },
        }
        Ok(ShmLayout { n_sources: h.n_sources, n_symbols: h.n_symbols })
    }

    pub fn n_sources(&self) -> (r: u64)
        ensures
            r == self.sources(),
    {
        self.n_sources
    }

    pub fn n_symbols(&self) -> (r: u64)
        ensures
            r == self.symbols(),
    {
        self.n_symbols
    }

    /// Row-major index of the slot of (`source_id`, `symbol_id`), after
    /// checking both against the dimensions.
    pub fn slot_index(&self, source_id: u64, symbol_id: u64) -> (r: Result<u64, SlotError>)
        requires
            self.wf(),
        ensures
            source_id >= self.sources() ==> r == Err::<u64, SlotError>(
                SlotError::SourceOutOfRange { source_id, n_sources: self.sources() },
            ),
            source_id < self.sources() && symbol_id >= self.symbols() ==> r == Err::<u64, SlotError>(
                SlotError::SymbolOutOfRange { symbol_id, n_symbols: self.symbols() },
            ),
            source_id < self.sources() && symbol_id < self.symbols() ==> r == Ok::<u64, SlotError>(
                (source_id * self.symbols() + symbol_id) as u64,
            ),
            r is Ok ==> r->Ok_0 == source_id * self.symbols() + symbol_id && r->Ok_0 < self.sources()
                * self.symbols(),
    {
        if source_id >= self.n_sources {
            return Err(SlotError::SourceOutOfRange { source_id, n_sources: self.n_sources });
        }
        if symbol_id >= self.n_symbols {
            return Err(SlotError::SymbolOutOfRange { symbol_id, n_symbols: self.n_symbols });
        }
        proof {
            assert(source_id * self.n_symbols + symbol_id < self.n_sources * self.n_symbols)
                by (nonlinear_arith)
                requires
                    source_id < self.n_sources,
                    symbol_id < self.n_symbols,
            ;
            assert(self.n_sources * self.n_symbols * RECORD_SIZE >= self.n_sources * self.n_symbols)
                by (nonlinear_arith)
                requires
                    self.n_sources * self.n_symbols >= 0,
            ;
        }
        Ok(source_id * self.n_symbols + symbol_id)
    }

    /// Byte offset in the region of the slot of (`source_id`, `symbol_id`).
    pub fn get_slot(&self, source_id: u64, symbol_id: u64) -> (r: Result<u64, SlotError>)
        requires
            self.wf(),
        ensures
            source_id >= self.sources() ==> r == Err::<u64, SlotError>(
                SlotError::SourceOutOfRange { source_id, n_sources: self.sources() },
            ),
            source_id < self.sources() && symbol_id >= self.symbols() ==> r == Err::<u64, SlotError>(
                SlotError::SymbolOutOfRange { symbol_id, n_symbols: self.symbols() },
            ),
            source_id < self.sources() && symbol_id < self.symbols() ==> r == Ok::<u64, SlotError>(
                (RECORDS_OFFSET + (source_id * self.symbols() + symbol_id) * RECORD_SIZE) as u64,
            ),
            r is Ok ==> r->Ok_0 + RECORD_SIZE <= RECORDS_OFFSET + self.sources() * self.symbols()
                * RECORD_SIZE,
    {
        let idx = self.slot_index(source_id, symbol_id)?;
        proof {
            assert(idx + 1 <= self.n_sources * self.n_symbols);
            assert((idx + 1) * RECORD_SIZE <= self.n_sources * self.n_symbols * RECORD_SIZE)
                by (nonlinear_arith)
                requires
                    idx + 1 <= self.n_sources * self.n_symbols,
            ;
        }
        Ok(RECORDS_OFFSET + idx * RECORD_SIZE)
    }
}

} // verus!
