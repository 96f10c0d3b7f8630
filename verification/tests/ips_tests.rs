use ips_patch::error::IpsError;
use ips_patch::error::PatchField;
use ips_patch::ips::patch_data;
use ips_patch::ips::Patch;
use ips_patch::ips::Record;

fn parse_ok(bytes: &[u8]) -> Patch {
    Patch::parse(bytes).expect("patch should parse")
}

fn apply_ok(p: &Patch, input: &[u8]) -> Vec<u8> {
    p.apply(input).expect("patch should apply")
}

// ---- header ----

#[test]
fn missing_header_short_buffer() {
    assert_eq!(
        Patch::parse(b"PATC").unwrap_err(),
        IpsError::MalformedHeader
    );
    assert_eq!(
        Patch::parse(b"").unwrap_err(),
        IpsError::MalformedHeader
    );
}

#[test]
fn missing_header_wrong_magic() {
    assert_eq!(
        Patch::parse(b"PETCHEOF").unwrap_err(),
        IpsError::MalformedHeader
    );
    assert_eq!(
        Patch::parse(b"patchEOF").unwrap_err(),
        IpsError::MalformedHeader
    );
}

#[test]
fn empty_patch_parses_to_no_records() {
    let p = parse_ok(b"PATCHEOF");
    assert_eq!(p.records.len(), 0);
}

#[test]
fn trailing_bytes_after_eof_are_ignored() {
    let p = parse_ok(b"PATCHEOFgarbage trailing bytes");
    assert_eq!(p.records.len(), 0);
}

// ---- record parsing ----

#[test]
fn parses_literal_record_fields() {
    // offset 0x010203, size 2, payload [0xAA, 0xBB]
    let bytes = b"PATCH\x01\x02\x03\x00\x02\xAA\xBBEOF";
    let p = parse_ok(bytes);
    assert_eq!(p.records.len(), 1);
    match &p.records[0] {
        Record::Normal { offset, data } => {
            assert_eq!(*offset, 0x010203);
            assert_eq!(data, &vec![0xAA, 0xBB]);
        }
        other => panic!("expected a literal record, got {:?}", other),
    }
}

#[test]
fn parses_rle_record_fields() {
    // offset 0x000002, size 0 -> RLE, length 4, value 0xFF
    let bytes = b"PATCH\x00\x00\x02\x00\x00\x00\x04\xFFEOF";
    let p = parse_ok(bytes);
    assert_eq!(p.records.len(), 1);
    match &p.records[0] {
        Record::RuntimeLengthEncoded { offset, size, value } => {
            assert_eq!(*offset, 2);
            assert_eq!(*size, 4);
            assert_eq!(*value, 0xFF);
        }
        other => panic!("expected a run-length record, got {:?}", other),
    }
}

#[test]
fn parses_two_records_in_file_order() {
    let bytes = b"PATCH\x00\x00\x00\x00\x01\x11\x00\x00\x01\x00\x01\x22EOF";
    let p = parse_ok(bytes);
    assert_eq!(p.records.len(), 2);
    match &p.records[0] {
        Record::Normal { offset, data } => {
            assert_eq!(*offset, 0);
            assert_eq!(data, &vec![0x11]);
        }
        other => panic!("expected a literal record, got {:?}", other),
    }
    match &p.records[1] {
        Record::Normal { offset, data } => {
            assert_eq!(*offset, 1);
            assert_eq!(data, &vec![0x22]);
        }
        other => panic!("expected a literal record, got {:?}", other),
    }
}

// ---- truncation errors, one per field boundary ----

#[test]
fn truncated_nothing_after_header() {
    assert_eq!(
        Patch::parse(b"PATCH").unwrap_err(),
        IpsError::TruncatedRecord { field: PatchField::EofMarker, have: 0, need: 3 }
    );
}

#[test]
fn truncated_between_records() {
    // one full record, then the buffer ends with no terminator
    assert_eq!(
        Patch::parse(b"PATCH\x00\x00\x00\x00\x01\x11").unwrap_err(),
        IpsError::TruncatedRecord { field: PatchField::EofMarker, have: 0, need: 3 }
    );
}

#[test]
fn truncated_offset() {
    assert_eq!(
        Patch::parse(b"PATCH\x00\x01").unwrap_err(),
        IpsError::TruncatedRecord { field: PatchField::Offset, have: 2, need: 3 }
    );
    assert_eq!(
        Patch::parse(b"PATCH\x00").unwrap_err(),
        IpsError::TruncatedRecord { field: PatchField::Offset, have: 1, need: 3 }
    );
}

#[test]
fn truncated_size() {
    assert_eq!(
        Patch::parse(b"PATCH\x00\x00\x05").unwrap_err(),
        IpsError::TruncatedRecord { field: PatchField::Size, have: 0, need: 2 }
    );
    assert_eq!(
        Patch::parse(b"PATCH\x00\x00\x05\x00").unwrap_err(),
        IpsError::TruncatedRecord { field: PatchField::Size, have: 1, need: 2 }
    );
}

#[test]
fn truncated_rle_length() {
    assert_eq!(
        Patch::parse(b"PATCH\x00\x00\x05\x00\x00").unwrap_err(),
        IpsError::TruncatedRecord { field: PatchField::RleLength, have: 0, need: 2 }
    );
    assert_eq!(
        Patch::parse(b"PATCH\x00\x00\x05\x00\x00\x00").unwrap_err(),
        IpsError::TruncatedRecord { field: PatchField::RleLength, have: 1, need: 2 }
    );
}

#[test]
fn truncated_rle_value() {
    assert_eq!(
        Patch::parse(b"PATCH\x00\x00\x05\x00\x00\x00\x04").unwrap_err(),
        IpsError::TruncatedRecord { field: PatchField::RleValue, have: 0, need: 1 }
    );
}

#[test]
fn truncated_data() {
    assert_eq!(
        Patch::parse(b"PATCH\x00\x00\x05\x00\x03\x41\x42").unwrap_err(),
        IpsError::TruncatedRecord { field: PatchField::Data, have: 2, need: 3 }
    );
    assert_eq!(
        Patch::parse(b"PATCH\x00\x00\x05\x00\x03").unwrap_err(),
        IpsError::TruncatedRecord { field: PatchField::Data, have: 0, need: 3 }
    );
}

#[test]
fn truncated_well_formed_patch_at_each_boundary() {
    // A well-formed patch: one literal record, one RLE record, EOF.
    let full = b"PATCH\x00\x00\x01\x00\x02\xAA\xBB\x00\x00\x03\x00\x00\x00\x02\xCC";
    // Cut the buffer at every prefix length before the terminator and
    // check that the named field matches the position of the cut.
    let expected: &[(usize, PatchField, usize, usize)] = &[
        (5, PatchField::EofMarker, 0, 3),
        (6, PatchField::Offset, 1, 3),
        (7, PatchField::Offset, 2, 3),
        (8, PatchField::Size, 0, 2),
        (9, PatchField::Size, 1, 2),
        (10, PatchField::Data, 0, 2),
        (11, PatchField::Data, 1, 2),
        (12, PatchField::EofMarker, 0, 3),
        (13, PatchField::Offset, 1, 3),
        (14, PatchField::Offset, 2, 3),
        (15, PatchField::Size, 0, 2),
        (16, PatchField::Size, 1, 2),
        (17, PatchField::RleLength, 0, 2),
        (18, PatchField::RleLength, 1, 2),
        (19, PatchField::RleValue, 0, 1),
    ];
    for &(cut, field, have, need) in expected {
        assert_eq!(
            Patch::parse(&full[..cut]).unwrap_err(),
            IpsError::TruncatedRecord { field, have, need },
            "cut at {}",
            cut
        );
    }
}

// ---- application ----

#[test]
fn empty_patch_is_identity() {
    let p = parse_ok(b"PATCHEOF");
    let input = vec![9u8, 8, 7, 6];
    assert_eq!(apply_ok(&p, &input), input);
    let empty: Vec<u8> = Vec::new();
    assert_eq!(apply_ok(&p, &empty), empty);
}

#[test]
fn literal_overwrite_in_place() {
    // write [0xAA, 0xBB] at offset 1 of a 4-byte buffer
    let p = parse_ok(b"PATCH\x00\x00\x01\x00\x02\xAA\xBBEOF");
    assert_eq!(apply_ok(&p, &[0, 0, 0, 0]), vec![0, 0xAA, 0xBB, 0]);
}

#[test]
fn concrete_literal_append_scenario() {
    // offset 5 == input length 5: the append special case
    let p = parse_ok(b"PATCH\x00\x00\x05\x00\x03\x41\x42\x43EOF");
    assert_eq!(
        apply_ok(&p, &[0, 0, 0, 0, 0]),
        vec![0, 0, 0, 0, 0, 0x41, 0x42, 0x43]
    );
}

#[test]
fn concrete_rle_scenario() {
    // fill 4 bytes of 0xFF at offset 2 of a 10-byte zero buffer
    let p = parse_ok(b"PATCH\x00\x00\x02\x00\x00\x00\x04\xFFEOF");
    assert_eq!(
        apply_ok(&p, &[0u8; 10]),
        vec![0, 0, 0xFF, 0xFF, 0xFF, 0xFF, 0, 0, 0, 0]
    );
}

#[test]
fn rle_append_at_end() {
    // offset 3 == input length 3: append two 0x7F bytes
    let p = parse_ok(b"PATCH\x00\x00\x03\x00\x00\x00\x02\x7FEOF");
    assert_eq!(apply_ok(&p, &[1, 2, 3]), vec![1, 2, 3, 0x7F, 0x7F]);
}

#[test]
fn rle_zero_length_is_noop() {
    let p = parse_ok(b"PATCH\x00\x00\x01\x00\x00\x00\x00\xFFEOF");
    assert_eq!(apply_ok(&p, &[5, 6, 7]), vec![5, 6, 7]);
}

#[test]
fn append_only_growth_in_file_order() {
    // appends at offsets 3, 5, 7: each at the then-current end
    let p = parse_ok(
        b"PATCH\x00\x00\x03\x00\x02\x0A\x0B\x00\x00\x05\x00\x02\x0C\x0D\x00\x00\x07\x00\x00\x00\x03\x0EEOF",
    );
    let out = apply_ok(&p, &[1, 2, 3]);
    assert_eq!(out, vec![1, 2, 3, 0x0A, 0x0B, 0x0C, 0x0D, 0x0E, 0x0E, 0x0E]);
    assert_eq!(out.len(), 3 + 2 + 2 + 3);
}

#[test]
fn literal_out_of_bounds() {
    // offset 4 > input length 3, and not an append (4 != 3)
    let p = parse_ok(b"PATCH\x00\x00\x04\x00\x02\xAA\xBBEOF");
    assert_eq!(
        p.apply(&[0, 0, 0]),
        Err(IpsError::OutOfBounds { offset: 4, size: 2 })
    );
}

#[test]
fn literal_overlapping_end_out_of_bounds() {
    // offset 2, size 2 reaches byte 4 of a 3-byte input
    let p = parse_ok(b"PATCH\x00\x00\x02\x00\x02\xAA\xBBEOF");
    assert_eq!(
        p.apply(&[0, 0, 0]),
        Err(IpsError::OutOfBounds { offset: 2, size: 2 })
    );
}

#[test]
fn rle_out_of_bounds() {
    let p = parse_ok(b"PATCH\x00\x00\x09\x00\x00\x00\x05\xFFEOF");
    assert_eq!(
        p.apply(&[0u8; 4]),
        Err(IpsError::OutOfBounds { offset: 9, size: 5 })
    );
}

#[test]
fn bounds_checked_against_original_length_not_grown() {
    // First record appends two bytes (length becomes 5), second wants
    // to overwrite at offset 3, size 2: inside the grown buffer, but
    // past the original 3-byte input, so it fails.
    let p = parse_ok(b"PATCH\x00\x00\x03\x00\x02\xAA\xBB\x00\x00\x03\x00\x01\xCCEOF");
    assert_eq!(
        p.apply(&[1, 2, 3]),
        Err(IpsError::OutOfBounds { offset: 3, size: 1 })
    );
}

#[test]
fn gap_offset_is_not_an_append() {
    // offset 5 on a 3-byte input: strictly past the end, no sparse fill
    let p = parse_ok(b"PATCH\x00\x00\x05\x00\x01\xAAEOF");
    assert_eq!(
        p.apply(&[1, 2, 3]),
        Err(IpsError::OutOfBounds { offset: 5, size: 1 })
    );
}

#[test]
fn same_offset_last_record_wins() {
    let p = parse_ok(b"PATCH\x00\x00\x01\x00\x02\xAA\xBB\x00\x00\x01\x00\x02\xCC\xDDEOF");
    assert_eq!(apply_ok(&p, &[0, 0, 0, 0]), vec![0, 0xCC, 0xDD, 0]);
}

#[test]
fn sorting_records_by_offset_changes_the_output() {
    // File order: write [0x41] at offset 2, then [0x58, 0x59, 0x5A] at
    // offset 0. Offset order would apply them the other way round.
    let r1 = Record::Normal { offset: 2, data: vec![0x41] };
    let r2 = Record::Normal { offset: 0, data: vec![0x58, 0x59, 0x5A] };
    let file_order = Patch {
        records: vec![
            Record::Normal { offset: 2, data: vec![0x41] },
            Record::Normal { offset: 0, data: vec![0x58, 0x59, 0x5A] },
        ],
    };
    let offset_order = Patch { records: vec![r2, r1] };
    let input = [0u8; 3];
    let by_file = apply_ok(&file_order, &input);
    let by_offset = apply_ok(&offset_order, &input);
    assert_eq!(by_file, vec![0x58, 0x59, 0x5A]);
    assert_eq!(by_offset, vec![0x58, 0x59, 0x41]);
    assert_ne!(by_file, by_offset);
}

#[test]
fn apply_stops_at_first_failing_record() {
    // The failing record comes first; the in-bounds one after it must
    // not run.
    let p = parse_ok(b"PATCH\x00\x00\x09\x00\x01\xAA\x00\x00\x00\x00\x01\xBBEOF");
    assert_eq!(
        p.apply(&[0, 0, 0]),
        Err(IpsError::OutOfBounds { offset: 9, size: 1 })
    );
}

#[test]
fn patch_data_runs_the_whole_pipeline() {
    assert_eq!(
        patch_data(b"PATCH\x00\x00\x05\x00\x03\x41\x42\x43EOF", &[0, 0, 0, 0, 0]),
        Ok(vec![0, 0, 0, 0, 0, 0x41, 0x42, 0x43])
    );
    assert_eq!(
        patch_data(b"PATC", &[1, 2, 3]),
        Err(IpsError::MalformedHeader)
    );
    assert_eq!(
        patch_data(b"PATCH\x00\x00\x04\x00\x02\xAA\xBBEOF", &[0, 0, 0]),
        Err(IpsError::OutOfBounds { offset: 4, size: 2 })
    );
}

#[test]
fn offset_that_reads_as_eof_ends_the_stream() {
    // A record whose offset field is 0x454F46 spells `EOF`: the parser
    // stops there and ignores the rest.
    let p = parse_ok(b"PATCH\x45\x4F\x46\x00\x01\xAAEOF");
    assert_eq!(p.records.len(), 0);
}

#[test]
fn max_offset_and_size_roundtrip() {
    // offset 0xFFFFFF, RLE length 0xFFFF
    let p = parse_ok(b"PATCH\xFF\xFF\xFF\x00\x00\xFF\xFF\x01EOF");
    match &p.records[0] {
        Record::RuntimeLengthEncoded { offset, size, value } => {
            assert_eq!(*offset, 0xFFFFFF);
            assert_eq!(*size, 0xFFFF);
            assert_eq!(*value, 1);
        }
        other => panic!("expected a run-length record, got {:?}", other),
    }
}
