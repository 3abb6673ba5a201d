use quote_writer::shm::{HeaderField, ShmHeader, ShmLayout, SlotError, read_u64_le};

fn header_bytes(fields: &[u64; 10]) -> Vec<u8> {
    let mut b = Vec::new();
    b.extend_from_slice(b"QSHM1\0\0\0");
    for f in fields {
        b.extend_from_slice(&f.to_le_bytes());
    }
    b.resize(4096, 0);
    b
}

/// version, header_size, record_size, records_offset, price_scale, ts_scale,
/// n_sources, n_symbols, n_records, shm_total_size
fn good_fields() -> [u64; 10] {
    [1, 4096, 64, 4096, 100_000_000, 1_000_000, 2, 3, 6, 4096 + 6 * 64]
}

#[test]
fn decodes_little_endian_fields() {
    assert_eq!(read_u64_le(&[1, 2, 0, 0, 0, 0, 0, 0, 9], 0), 0x0201);
    assert_eq!(read_u64_le(&[9, 0xff, 0xff, 0xff, 0xff, 0xff, 0xff, 0xff, 0xff], 1), u64::MAX);
    let h = ShmHeader::decode(&header_bytes(&good_fields())).unwrap();
    assert_eq!(h.version, 1);
    assert_eq!(h.n_sources, 2);
    assert_eq!(h.n_symbols, 3);
    assert_eq!(h.shm_total_size, 4096 + 6 * 64);
    assert!(ShmHeader::decode(&[0u8; 87]).is_none());
}

#[test]
fn valid_header_gives_layout() {
    let h = ShmHeader::decode(&header_bytes(&good_fields())).unwrap();
    let layout = ShmLayout::validate(&h, 4096 + 6 * 64, None).unwrap();
    assert_eq!(layout.n_sources(), 2);
    assert_eq!(layout.n_symbols(), 3);
    assert!(ShmLayout::validate(&h, 4096 + 6 * 64, Some(1)).is_ok());
}

#[test]
fn ts_scale_mismatch_names_the_field() {
    let mut f = good_fields();
    f[5] = 1_000_000_000;
    let h = ShmHeader::decode(&header_bytes(&f)).unwrap();
    let e = ShmLayout::validate(&h, 4096 + 6 * 64, None).unwrap_err();
    assert_eq!(e.field, HeaderField::TsScale);
    assert_eq!(e.field.name(), "ts_scale");
    assert_eq!(e.expected, 1_000_000);
    assert_eq!(e.observed, 1_000_000_000);
}

#[test]
fn every_field_mismatch_is_named() {
    let cases: [(usize, u64, HeaderField, &str); 6] = [
        (1, 8192, HeaderField::HeaderSize, "header_size"),
        (2, 32, HeaderField::RecordSize, "record_size"),
        (3, 0, HeaderField::RecordsOffset, "records_offset"),
        (4, 1_000, HeaderField::PriceScale, "price_scale"),
        (8, 7, HeaderField::NRecords, "n_records"),
        (9, 1, HeaderField::ShmTotalSize, "shm_total_size"),
    ];
    for (i, v, field, name) in cases {
        let mut f = good_fields();
        f[i] = v;
        let h = ShmHeader::decode(&header_bytes(&f)).unwrap();
        let e = ShmLayout::validate(&h, h.shm_total_size, None).unwrap_err();
        assert_eq!(e.field, field);
        assert_eq!(e.field.name(), name);
        assert_eq!(e.observed, v);
    }
    let mut b = header_bytes(&good_fields());
    b[0] = b'X';
    let h = ShmHeader::decode(&b).unwrap();
    let e = ShmLayout::validate(&h, 4096 + 6 * 64, None).unwrap_err();
    assert_eq!(e.field, HeaderField::Magic);
    assert_eq!(e.field.name(), "magic");
    let h = ShmHeader::decode(&header_bytes(&good_fields())).unwrap();
    let e = ShmLayout::validate(&h, 4096 + 6 * 64, Some(2)).unwrap_err();
    assert_eq!(e.field, HeaderField::Version);
    let e = ShmLayout::validate(&h, 9999, None).unwrap_err();
    assert_eq!(e.field, HeaderField::ShmTotalSize);
    assert_eq!(e.expected, 9999);
}

#[test]
fn records_must_fit_in_the_region() {
    let mut f = good_fields();
    f[9] = 4096 + 5 * 64;
    let h = ShmHeader::decode(&header_bytes(&f)).unwrap();
    let e = ShmLayout::validate(&h, 4096 + 5 * 64, None).unwrap_err();
    assert_eq!(e.field, HeaderField::ShmTotalSize);
    assert_eq!(e.expected, 4096 + 6 * 64);
}

#[test]
fn slot_lookup_is_bounds_checked() {
    let h = ShmHeader::decode(&header_bytes(&good_fields())).unwrap();
    let layout = ShmLayout::validate(&h, 4096 + 6 * 64, None).unwrap();
    assert_eq!(
        layout.get_slot(2, 0),
        Err(SlotError::SourceOutOfRange { source_id: 2, n_sources: 2 })
    );
    assert_eq!(
        layout.get_slot(0, 3),
        Err(SlotError::SymbolOutOfRange { symbol_id: 3, n_symbols: 3 })
    );
    assert_eq!(layout.slot_index(1, 2), Ok(5));
    assert_eq!(layout.get_slot(0, 0), Ok(4096));
    assert_eq!(layout.get_slot(1, 1), Ok(4096 + 4 * 64));
}
