//! IPS patch parsing and application.
//!
//! A patch is the 5-byte magic `PATCH`, a sequence of records, and the
//! 3-byte terminator `EOF`. Each record is a 3-byte big-endian offset
//! followed by a 2-byte big-endian size: a non-zero size introduces a
//! literal record carrying `size` bytes of payload, while a zero size
//! introduces a run-length record carrying a 2-byte run length and one
//! fill byte. Applying a patch replays its records in file order over a
//! copy of the input buffer: a record whose offset equals the current
//! output length appends its bytes, any other record overwrites in
//! place after a bounds check against the original input length.
//!
//! Parsing is strict: a missing `PATCH` magic and every truncated field
//! are reported as errors, each naming the field that was being read.
//! When the stream ends cleanly between records (zero bytes left where
//! a record or the terminator was expected) the missing field is
//! reported as the terminator; a partial field names that field.

use vstd::pervasive::VecAdditionalExecFns;
use vstd::prelude::*;

use crate::error::IpsError;
use crate::error::PatchField;

verus! {

/// One edit instruction of a patch: either literal bytes to write at an
/// offset, or a run-length-encoded fill (one value repeated).
#[derive(Debug)]
pub enum Record {
    Normal { offset: usize, data: Vec<u8> },
    RuntimeLengthEncoded { offset: usize, size: usize, value: u8 },
}

/// Mathematical model of a [`Record`], with unbounded integers and
/// byte sequences in place of machine types.
pub ghost enum RecordModel {
    Normal { offset: nat, data: Seq<u8> },
    RuntimeLengthEncoded { offset: nat, size: nat, value: u8 },
}

impl View for Record {
    type V = RecordModel;

    open spec fn view(&self) -> RecordModel {
        match self {
            Record::Normal { offset, data } => RecordModel::Normal {
                offset: *offset as nat,
                data: data@,
            },
            Record::RuntimeLengthEncoded { offset, size, value } => {
                RecordModel::RuntimeLengthEncoded {
                    offset: *offset as nat,
                    size: *size as nat,
                    value: *value,
                }
            },
        }
    }
}

/// The absolute target offset of a record.
pub open spec fn rec_offset(r: RecordModel) -> nat {
    match r {
        RecordModel::Normal { offset, .. } => offset,
        RecordModel::RuntimeLengthEncoded { offset, .. } => offset,
    }
}

/// The bytes a record writes: a literal's payload, or a run-length
/// record's fill value repeated `size` times.
pub open spec fn rec_bytes(r: RecordModel) -> Seq<u8> {
    match r {
        RecordModel::Normal { data, .. } => data,
        RecordModel::RuntimeLengthEncoded { size, value, .. } => {
            Seq::new(size, |i: int| value)
        },
    }
}

/// How many bytes a record writes.
pub open spec fn rec_size(r: RecordModel) -> nat {
    rec_bytes(r).len()
}

/// A record as the parser produces it: the offset fits its 3-byte
/// field and the write length fits its 2-byte field.
pub open spec fn rec_wf(r: RecordModel) -> bool {
    rec_offset(r) <= 0xFFFFFF && rec_size(r) <= 0xFFFF
}

/// An ordered sequence of records, applied strictly in file order.
#[derive(Debug)]
pub struct Patch {
    pub records: Vec<Record>,
}

impl View for Patch {
    type V = Seq<RecordModel>;

    open spec fn view(&self) -> Seq<RecordModel> {
        self.records@.map_values(|r: Record| r@)
    }
}

impl Patch {
    /// Every record's fields fit the bit widths of the binary format.
    pub open spec fn wf(&self) -> bool {
        forall|i: int| 0 <= i < self@.len() ==> rec_wf(#[trigger] self@[i])
    }
}

/// The value of a 2-byte big-endian unsigned integer.
pub open spec fn be16_spec(hi: u8, lo: u8) -> nat {
    (hi * 256 + lo) as nat
}

/// The value of a 3-byte big-endian unsigned integer.
pub open spec fn be24_spec(b0: u8, b1: u8, b2: u8) -> nat {
    (b0 * 65536 + b1 * 256 + b2) as nat
}

/// The 5 magic bytes `PATCH` that every patch must begin with.
pub open spec fn magic() -> Seq<u8> {
    seq![80u8, 65u8, 84u8, 67u8, 72u8]
}

/// Whether the stream begins with the 3-byte terminator `EOF`.
pub open spec fn starts_with_eof(s: Seq<u8>) -> bool {
    s.len() >= 3 && s[0] == 69u8 && s[1] == 79u8 && s[2] == 70u8
}

/// Prepends one parsed record to the outcome of parsing the rest of
/// the stream; an error in the rest stays an error.
pub open spec fn cons_parsed(
    m: RecordModel,
    rest: Result<Seq<RecordModel>, IpsError>,
) -> Result<Seq<RecordModel>, IpsError> {
    match rest {
        Ok(rs) => Ok(seq![m] + rs),
        Err(e) => Err(e),
    }
}

/// The record grammar: what parsing a record stream (the bytes after
/// the magic) yields, record by record, until the `EOF` terminator.
/// Bytes after the terminator are ignored.
pub open spec fn parse_records_spec(s: Seq<u8>) -> Result<Seq<RecordModel>, IpsError>
    decreases s.len(),
{
    if starts_with_eof(s) {
        Ok(Seq::empty())
    } else if s.len() == 0 {
        Err(IpsError::TruncatedRecord { field: PatchField::EofMarker, have: 0, need: 3 })
    } else if s.len() < 3 {
        Err(IpsError::TruncatedRecord {
            field: PatchField::Offset,
            have: s.len() as usize,
            need: 3,
        })
    } else {
        let offset = be24_spec(s[0], s[1], s[2]);
        let s1 = s.skip(3);
        if s1.len() < 2 {
            Err(IpsError::TruncatedRecord {
                field: PatchField::Size,
                have: s1.len() as usize,
                need: 2,
            })
        } else {
            let size = be16_spec(s1[0], s1[1]);
            let s2 = s1.skip(2);
            if size == 0 {
                if s2.len() < 2 {
                    Err(IpsError::TruncatedRecord {
                        field: PatchField::RleLength,
                        have: s2.len() as usize,
                        need: 2,
                    })
                } else {
                    let length = be16_spec(s2[0], s2[1]);
                    let s3 = s2.skip(2);
                    if s3.len() < 1 {
                        Err(IpsError::TruncatedRecord {
                            field: PatchField::RleValue,
                            have: 0,
                            need: 1,
                        })
                    } else {
                        cons_parsed(
                            RecordModel::RuntimeLengthEncoded {
                                offset,
                                size: length,
                                value: s3[0],
                            },
                            parse_records_spec(s3.skip(1)),
                        )
                    }
                }
            } else {
                if s2.len() < size {
                    Err(IpsError::TruncatedRecord {
                        field: PatchField::Data,
                        have: s2.len() as usize,
                        need: size as usize,
                    })
                } else {
                    cons_parsed(
                        RecordModel::Normal { offset, data: s2.take(size as int) },
                        parse_records_spec(s2.skip(size as int)),
                    )
                }
            }
        }
    }
}

/// What parsing a whole patch buffer yields: the magic check, then the
/// record grammar on the remaining bytes.
pub open spec fn parse_spec(s: Seq<u8>) -> Result<Seq<RecordModel>, IpsError> {
    if s.len() < 5 || s.take(5) != magic() {
        Err(IpsError::MalformedHeader)
    } else {
        parse_records_spec(s.skip(5))
    }
}

/// Prepends an already-parsed prefix of records to the outcome of
/// parsing the remaining stream.
pub open spec fn prepend_parsed(
    acc: Seq<RecordModel>,
    rest: Result<Seq<RecordModel>, IpsError>,
) -> Result<Seq<RecordModel>, IpsError> {
    match rest {
        Ok(rs) => Ok(acc + rs),
        Err(e) => Err(e),
    }
}

proof fn lemma_prepend_cons(
    acc: Seq<RecordModel>,
    m: RecordModel,
    rest: Result<Seq<RecordModel>, IpsError>,
)
    ensures
        prepend_parsed(acc, cons_parsed(m, rest)) == prepend_parsed(acc.push(m), rest),
{
    match rest {
        Ok(rs) => {
            assert(acc + (seq![m] + rs) =~= acc.push(m) + rs);
        },
        Err(_) => {},
    }
}

impl Patch {
    /// Parses a raw IPS patch buffer into its record sequence.
    ///
    /// Returns exactly what the grammar [`parse_spec`] yields on the
    /// buffer: the records in file order on success, and on failure the
    /// error the grammar assigns to the buffer (`MalformedHeader` for a
    /// missing magic, `TruncatedRecord` naming the field the buffer ran
    /// out in).
    #[verifier::rlimit(100)]
    pub fn parse(patch: &[u8]) -> (r: Result<Patch, IpsError>)
        ensures
            match r {
                Ok(p) => parse_spec(patch@) == Ok::<Seq<RecordModel>, IpsError>(p@) && p.wf(),
                Err(e) => parse_spec(patch@) == Err::<Seq<RecordModel>, IpsError>(e),
            },
    {
        if patch.len() < 5 {
            return Err(IpsError::MalformedHeader);
        }
        let m0 = *vstd::slice::slice_index_get(patch, 0);
        let m1 = *vstd::slice::slice_index_get(patch, 1);
        let m2 = *vstd::slice::slice_index_get(patch, 2);
        let m3 = *vstd::slice::slice_index_get(patch, 3);
        let m4 = *vstd::slice::slice_index_get(patch, 4);
        if !(m0 == 80 && m1 == 65 && m2 == 84 && m3 == 67 && m4 == 72) {
            proof {
                if patch@.take(5) == magic() {
                    assert(patch@.take(5)[0] == 80u8);
                    assert(patch@.take(5)[1] == 65u8);
                    assert(patch@.take(5)[2] == 84u8);
                    assert(patch@.take(5)[3] == 67u8);
                    assert(patch@.take(5)[4] == 72u8);
                }
            }
            return Err(IpsError::MalformedHeader);
        }
        proof {
            assert(patch@.take(5) =~= magic());
        }

        let ghost stream = patch@.skip(5);
        let mut pos: usize = 5;
        let mut records: Vec<Record> = Vec::new();

        loop
            invariant
                5 <= pos <= patch@.len(),
                patch@.len() >= 5,
                patch@.take(5) == magic(),
                stream == patch@.skip(5),
                forall|i: int| 0 <= i < records@.len() ==> rec_wf(#[trigger] records@[i]@),
                prepend_parsed(
                    records@.map_values(|r: Record| r@),
                    parse_records_spec(patch@.skip(pos as int)),
                ) == parse_records_spec(stream),
            decreases patch@.len() - pos,
        {
            let ghost rem = patch@.skip(pos as int);
            let rem_len = patch.len() - pos;

            // Terminator?
            if rem_len >= 3 {
                let e0 = *vstd::slice::slice_index_get(patch, pos);
                let e1 = *vstd::slice::slice_index_get(patch, pos + 1);
                let e2 = *vstd::slice::slice_index_get(patch, pos + 2);
                if e0 == 69 && e1 == 79 && e2 == 70 {
                    let p = Patch { records };
                    proof {
                        assert(starts_with_eof(rem));
                        let acc = p.records@.map_values(|r: Record| r@);
                        assert(acc + Seq::<RecordModel>::empty() =~= acc);
                        assert(parse_records_spec(stream) == Ok::<Seq<RecordModel>, IpsError>(p@));
                        assert forall|i: int| 0 <= i < p@.len() implies rec_wf(#[trigger] p@[i]) by {
                            assert(p@[i] == p.records@[i]@);
                        }
                    }
                    return Ok(p);
                }
            }
            proof {
                assert(!starts_with_eof(rem));
            }

            if rem_len == 0 {
                return Err(IpsError::TruncatedRecord {
                    field: PatchField::EofMarker,
                    have: 0,
                    need: 3,
                });
            }
            if rem_len < 3 {
                return Err(IpsError::TruncatedRecord {
                    field: PatchField::Offset,
                    have: rem_len,
                    need: 3,
                });
            }

            let o0 = *vstd::slice::slice_index_get(patch, pos);
            let o1 = *vstd::slice::slice_index_get(patch, pos + 1);
            let o2 = *vstd::slice::slice_index_get(patch, pos + 2);
            let offset: usize = (o0 as usize) * 65536 + (o1 as usize) * 256 + (o2 as usize);
            proof {
                assert(offset as nat == be24_spec(rem[0], rem[1], rem[2]));
                assert(rem.skip(3) =~= patch@.skip(pos + 3));
            }

            if rem_len < 5 {
                return Err(IpsError::TruncatedRecord {
                    field: PatchField::Size,
                    have: rem_len - 3,
                    need: 2,
                });
            }

            let s0 = *vstd::slice::slice_index_get(patch, pos + 3);
            let s1 = *vstd::slice::slice_index_get(patch, pos + 4);
            let size: usize = (s0 as usize) * 256 + (s1 as usize);
            proof {
                assert(size as nat == be16_spec(rem.skip(3)[0], rem.skip(3)[1]));
                assert(rem.skip(3).skip(2) =~= patch@.skip(pos + 5));
            }

            if size == 0 {
                // Run-length record: 2-byte run length, then the fill byte.
                if rem_len < 7 {
                    return Err(IpsError::TruncatedRecord {
                        field: PatchField::RleLength,
                        have: rem_len - 5,
                        need: 2,
                    });
                }
                let l0 = *vstd::slice::slice_index_get(patch, pos + 5);
                let l1 = *vstd::slice::slice_index_get(patch, pos + 6);
                let length: usize = (l0 as usize) * 256 + (l1 as usize);
                proof {
                    let s2 = patch@.skip(pos + 5);
                    assert(length as nat == be16_spec(s2[0], s2[1]));
                    assert(s2.skip(2) =~= patch@.skip(pos + 7));
                }
                if rem_len < 8 {
                    return Err(IpsError::TruncatedRecord {
                        field: PatchField::RleValue,
                        have: 0,
                        need: 1,
                    });
                }
                let value = *vstd::slice::slice_index_get(patch, pos + 7);
                let rec = Record::RuntimeLengthEncoded { offset, size: length, value };
                proof {
                    let s3 = patch@.skip(pos + 7);
                    assert(value == s3[0]);
                    assert(s3.skip(1) =~= patch@.skip(pos + 8));
                    assert(parse_records_spec(rem) == cons_parsed(
                        rec@,
                        parse_records_spec(patch@.skip(pos + 8)),
                    ));
                    lemma_prepend_cons(
                        records@.map_values(|r: Record| r@),
                        rec@,
                        parse_records_spec(patch@.skip(pos + 8)),
                    );
                    assert(records@.push(rec).map_values(|r: Record| r@) =~= records@.map_values(
                        |r: Record| r@,
                    ).push(rec@));
                }
                records.push(rec);
                pos = pos + 8;
            } else {
                // Literal record: `size` bytes of payload.
                if rem_len - 5 < size {
                    return Err(IpsError::TruncatedRecord {
                        field: PatchField::Data,
                        have: rem_len - 5,
                        need: size,
                    });
                }
                let payload = vstd::slice::slice_to_vec(
                    vstd::slice::slice_subrange(patch, pos + 5, pos + 5 + size),
                );
                let rec = Record::Normal { offset, data: payload };
                proof {
                    let s2 = patch@.skip(pos + 5);
                    assert(rec@->Normal_data =~= s2.take(size as int));
                    assert(s2.skip(size as int) =~= patch@.skip(pos + 5 + size));
                    assert(parse_records_spec(rem) == cons_parsed(
                        rec@,
                        parse_records_spec(patch@.skip(pos + 5 + size)),
                    ));
                    lemma_prepend_cons(
                        records@.map_values(|r: Record| r@),
                        rec@,
                        parse_records_spec(patch@.skip(pos + 5 + size)),
                    );
                    assert(records@.push(rec).map_values(|r: Record| r@) =~= records@.map_values(
                        |r: Record| r@,
                    ).push(rec@));
                }
                records.push(rec);
                pos = pos + 5 + size;
            }
        }
    }
}

/// The buffer `s` with `bs` written in place starting at `off`.
pub open spec fn overwrite_seq(s: Seq<u8>, off: nat, bs: Seq<u8>) -> Seq<u8> {
    Seq::new(
        s.len(),
        |i: int| if off <= i < off + bs.len() { bs[i - off] } else { s[i] },
    )
}

/// The effect of one record on the output buffer `out`: an append when
/// the record's offset equals the current output length, otherwise an
/// in-place overwrite, bounds-checked against the original input
/// length `orig_len` (not the possibly grown output). A failed check
/// yields the offending record.
pub open spec fn apply_record_spec(out: Seq<u8>, orig_len: nat, r: RecordModel) -> Result<
    Seq<u8>,
    RecordModel,
> {
    if rec_offset(r) == out.len() {
        Ok(out + rec_bytes(r))
    } else if rec_offset(r) + rec_size(r) > orig_len {
        Err(r)
    } else {
        Ok(overwrite_seq(out, rec_offset(r), rec_bytes(r)))
    }
}

/// Sequential replay: the records applied to `out` strictly in order,
/// stopping at the first record that fails its bounds check.
pub open spec fn apply_records_spec(out: Seq<u8>, orig_len: nat, rs: Seq<RecordModel>) -> Result<
    Seq<u8>,
    RecordModel,
> decreases rs.len(),
{
    if rs.len() == 0 {
        Ok(out)
    } else {
        match apply_record_spec(out, orig_len, rs[0]) {
            Ok(next) => apply_records_spec(next, orig_len, rs.drop_first()),
            Err(r) => Err(r),
        }
    }
}

/// What applying a whole patch to an input buffer yields.
pub open spec fn apply_spec(rs: Seq<RecordModel>, input: Seq<u8>) -> Result<
    Seq<u8>,
    RecordModel,
> {
    apply_records_spec(input, input.len(), rs)
}

/// The error reported for a record that failed its bounds check.
pub open spec fn oob_error(r: RecordModel) -> IpsError {
    IpsError::OutOfBounds { offset: rec_offset(r) as usize, size: rec_size(r) as usize }
}

/// Appends all of `data` to the end of `obuf`.
fn push_bytes(obuf: &mut Vec<u8>, data: &Vec<u8>)
    ensures
        final(obuf)@ == old(obuf)@ + data@,
{
    let ghost base = obuf@;
    let mut j: usize = 0;
    while j < data.len()
        invariant
            j <= data.len(),
            obuf@ == base + data@.take(j as int),
        decreases data.len() - j,
    {
        let b = data[j];
        obuf.push(b);
        proof {
            assert(obuf@ =~= base + data@.take(j + 1));
        }
        j += 1;
    }
    proof {
        assert(base + data@.take(data@.len() as int) =~= base + data@);
    }
}

/// Appends `count` copies of `value` to the end of `obuf`.
fn push_run(obuf: &mut Vec<u8>, value: u8, count: usize)
    ensures
        final(obuf)@ == old(obuf)@ + Seq::new(count as nat, |i: int| value),
{
    let ghost base = obuf@;
    let mut j: usize = 0;
    while j < count
        invariant
            j <= count,
            obuf@ == base + Seq::new(j as nat, |i: int| value),
        decreases count - j,
    {
        obuf.push(value);
        proof {
            assert(obuf@ =~= base + Seq::new((j + 1) as nat, |i: int| value));
        }
        j += 1;
    }
}

/// Overwrites `obuf` in place with `data`, starting at `off`.
fn write_bytes(obuf: &mut Vec<u8>, off: usize, data: &Vec<u8>)
    requires
        off + data@.len() <= old(obuf)@.len(),
    ensures
        final(obuf)@ == overwrite_seq(old(obuf)@, off as nat, data@),
{
    let ghost base = obuf@;
    proof {
        assert(obuf.len() == obuf@.len());
    }
    let mut j: usize = 0;
    while j < data.len()
        invariant
            j <= data.len(),
            off + data@.len() <= base.len(),
            obuf@.len() == base.len(),
            base.len() <= usize::MAX,
            forall|k: int|
                off <= k < off + j ==> #[trigger] obuf@[k] == data@[k - off],
            forall|k: int|
                0 <= k < base.len() && !(off <= k < off + j) ==> #[trigger] obuf@[k] == base[k],
        decreases data.len() - j,
    {
        let b = data[j];
        obuf.set(off + j, b);
        j += 1;
    }
    proof {
        assert(obuf@ =~= overwrite_seq(base, off as nat, data@));
    }
}

/// Overwrites `obuf` in place with `count` copies of `value`, starting
/// at `off`.
fn write_run(obuf: &mut Vec<u8>, off: usize, value: u8, count: usize)
    requires
        off + count <= old(obuf)@.len(),
    ensures
        final(obuf)@ == overwrite_seq(
            old(obuf)@,
            off as nat,
            Seq::new(count as nat, |i: int| value),
        ),
{
    let ghost base = obuf@;
    proof {
        assert(obuf.len() == obuf@.len());
    }
    let mut j: usize = 0;
    while j < count
        invariant
            j <= count,
            off + count <= base.len(),
            obuf@.len() == base.len(),
            base.len() <= usize::MAX,
            forall|k: int| off <= k < off + j ==> #[trigger] obuf@[k] == value,
            forall|k: int|
                0 <= k < base.len() && !(off <= k < off + j) ==> #[trigger] obuf@[k] == base[k],
        decreases count - j,
    {
        obuf.set(off + j, value);
        j += 1;
    }
    proof {
        assert(obuf@ =~= overwrite_seq(base, off as nat, Seq::new(count as nat, |i: int| value)));
    }
}

/// Replays one record over the output buffer. Returns whether the
/// record passed its bounds check; on failure the buffer is untouched.
fn apply_record(obuf: &mut Vec<u8>, orig_len: usize, rec: &Record) -> (ok: bool)
    requires
        rec_wf(rec@),
        orig_len <= old(obuf)@.len(),
    ensures
        old(obuf)@.len() <= final(obuf)@.len(),
        ok ==> apply_record_spec(old(obuf)@, orig_len as nat, rec@) == Ok::<
            Seq<u8>,
            RecordModel,
        >(final(obuf)@),
        !ok ==> final(obuf)@ == old(obuf)@ && apply_record_spec(
            old(obuf)@,
            orig_len as nat,
            rec@,
        ) == Err::<Seq<u8>, RecordModel>(rec@),
{
    match rec {
        Record::Normal { offset, data } => {
            let off: usize = *offset;
            if obuf.len() == off {
                // Append: the record starts exactly at the end of the
                // current output.
                push_bytes(obuf, data);
                true
            } else if off + data.len() > orig_len {
                false
            } else {
                write_bytes(obuf, off, data);
                true
            }
        },
        Record::RuntimeLengthEncoded { offset, size, value } => {
            let off: usize = *offset;
            let count: usize = *size;
            if obuf.len() == off {
                push_run(obuf, *value, count);
                true
            } else if off + count > orig_len {
                false
            } else {
                write_run(obuf, off, *value, count);
                true
            }
        },
    }
}

impl Patch {
    /// Applies the patch to an input buffer, replaying the records in
    /// file order over a copy of it.
    ///
    /// Returns exactly what the replay [`apply_spec`] yields: the
    /// patched buffer on success, and `OutOfBounds` carrying the first
    /// offending record's offset and size when a non-append record
    /// reaches past the original input.
    pub fn apply(&self, ibuf: &[u8]) -> (r: Result<Vec<u8>, IpsError>)
        requires
            self.wf(),
        ensures
            match r {
                Ok(obuf) => apply_spec(self@, ibuf@) == Ok::<Seq<u8>, RecordModel>(obuf@),
                Err(e) => apply_spec(self@, ibuf@) matches Err(f) && e == oob_error(f),
            },
    {
        let mut obuf: Vec<u8> = vstd::slice::slice_to_vec(ibuf);
        let orig_len = ibuf.len();
        let n = self.records.len();
        let mut idx: usize = 0;
        proof {
            assert(self@.skip(0) =~= self@);
        }
        while idx < n
            invariant
                idx <= n,
                n == self.records.len(),
                self.wf(),
                orig_len == ibuf@.len(),
                orig_len <= obuf@.len(),
                apply_records_spec(obuf@, orig_len as nat, self@.skip(idx as int)) == apply_spec(
                    self@,
                    ibuf@,
                ),
            decreases n - idx,
        {
            let rec = &self.records[idx];
            proof {
                assert(self@[idx as int] == self.records@[idx as int]@);
                assert(rec_wf(self@[idx as int]));
                assert(self@.skip(idx as int)[0] == self@[idx as int]);
                assert(self@.skip(idx as int).drop_first() =~= self@.skip(idx as int + 1));
            }
            let ghost pre = obuf@;
            let ok = apply_record(&mut obuf, orig_len, rec);
            if !ok {
                let off: usize;
                let sz: usize;
                match rec {
                    Record::Normal { offset, data } => {
                        off = *offset;
                        sz = data.len();
                    },
                    Record::RuntimeLengthEncoded { offset, size, .. } => {
                        off = *offset;
                        sz = *size;
                    },
                }
                return Err(IpsError::OutOfBounds { offset: off, size: sz });
            }
            idx += 1;
        }
        proof {
            assert(self@.skip(n as int) =~= Seq::<RecordModel>::empty());
        }
        Ok(obuf)
    }
}

/// The whole operation as one pure function: what parsing the patch
/// bytes and replaying the records over the input yields.
pub open spec fn patch_spec(patch: Seq<u8>, input: Seq<u8>) -> Result<Seq<u8>, IpsError> {
    match parse_spec(patch) {
        Ok(rs) => match apply_spec(rs, input) {
            Ok(out) => Ok(out),
            Err(r) => Err(oob_error(r)),
        },
        Err(e) => Err(e),
    }
}

/// Parses a patch buffer and applies it to an input buffer in one
/// call, returning exactly what [`patch_spec`] yields on the pair.
pub fn patch_data(patch: &[u8], input: &[u8]) -> (r: Result<Vec<u8>, IpsError>)
    ensures
        match r {
            Ok(out) => patch_spec(patch@, input@) == Ok::<Seq<u8>, IpsError>(out@),
            Err(e) => patch_spec(patch@, input@) == Err::<Seq<u8>, IpsError>(e),
        },
{
    match Patch::parse(patch) {
        Ok(p) => p.apply(input),
        Err(e) => Err(e),
    }
}

/// Law: a patch with no records leaves any input buffer unchanged,
/// same bytes and same length.
pub proof fn lemma_empty_patch_identity(input: Seq<u8>)
    ensures
        apply_spec(Seq::<RecordModel>::empty(), input) == Ok::<Seq<u8>, RecordModel>(input),
{
}

/// The bytes written by the records of `rs`, concatenated in file
/// order.
pub open spec fn concat_bytes(rs: Seq<RecordModel>) -> Seq<u8>
    decreases rs.len(),
{
    if rs.len() == 0 {
        Seq::empty()
    } else {
        rec_bytes(rs[0]) + concat_bytes(rs.drop_first())
    }
}

/// Whether every record of `rs` starts exactly where the buffer ends
/// once the records before it have been appended, starting from a
/// buffer of length `base`.
pub open spec fn all_appends(rs: Seq<RecordModel>, base: nat) -> bool
    decreases rs.len(),
{
    rs.len() == 0 || (rec_offset(rs[0]) == base && all_appends(
        rs.drop_first(),
        base + rec_size(rs[0]),
    ))
}

/// Law (append-only growth): records whose offsets exactly match the
/// successive buffer ends all take the append path, whatever the
/// original length used for bounds checks; the result is the buffer
/// followed by each record's bytes in file order.
pub proof fn lemma_append_chain(out: Seq<u8>, orig_len: nat, rs: Seq<RecordModel>)
    requires
        all_appends(rs, out.len()),
    ensures
        apply_records_spec(out, orig_len, rs) == Ok::<Seq<u8>, RecordModel>(
            out + concat_bytes(rs),
        ),
    decreases rs.len(),
{
    if rs.len() == 0 {
        assert(out + concat_bytes(rs) =~= out);
    } else {
        let r = rs[0];
        assert(apply_record_spec(out, orig_len, r) == Ok::<Seq<u8>, RecordModel>(
            out + rec_bytes(r),
        ));
        assert((out + rec_bytes(r)).len() == out.len() + rec_size(r));
        lemma_append_chain(out + rec_bytes(r), orig_len, rs.drop_first());
        assert((out + rec_bytes(r)) + concat_bytes(rs.drop_first()) =~= out + concat_bytes(rs));
    }
}

/// Law (append-only growth), for a whole patch: applying it succeeds
/// and the output is the input followed by the appended chunks, so the
/// output length is the input length plus the sum of their lengths.
pub proof fn lemma_append_only_growth(rs: Seq<RecordModel>, input: Seq<u8>)
    requires
        all_appends(rs, input.len()),
    ensures
        apply_spec(rs, input) == Ok::<Seq<u8>, RecordModel>(input + concat_bytes(rs)),
{
    lemma_append_chain(input, input.len(), rs);
}

/// Law (overwrite bounds): a patch whose first record reaches past the
/// original input without being a contiguous append yields that record
/// as its bounds failure and no output.
pub proof fn lemma_out_of_bounds(input: Seq<u8>, rs: Seq<RecordModel>)
    requires
        rs.len() > 0,
        rec_offset(rs[0]) != input.len(),
        rec_offset(rs[0]) + rec_size(rs[0]) > input.len(),
    ensures
        apply_spec(rs, input) == Err::<Seq<u8>, RecordModel>(rs[0]),
{
}

/// A record applied successfully never shrinks the buffer.
pub proof fn lemma_apply_record_len(out: Seq<u8>, orig_len: nat, r: RecordModel)
    ensures
        apply_record_spec(out, orig_len, r) matches Ok(next) ==> next.len() >= out.len(),
{
}

/// Law: a replay that succeeds never shrinks the buffer — the output
/// is at least as long as the buffer it started from.
pub proof fn lemma_output_never_shorter(out: Seq<u8>, orig_len: nat, rs: Seq<RecordModel>)
    ensures
        apply_records_spec(out, orig_len, rs) matches Ok(res) ==> res.len() >= out.len(),
    decreases rs.len(),
{
    if rs.len() > 0 {
        match apply_record_spec(out, orig_len, rs[0]) {
            Ok(next) => {
                lemma_apply_record_len(out, orig_len, rs[0]);
                lemma_output_never_shorter(next, orig_len, rs.drop_first());
            },
            Err(_) => {},
        }
    }
}

/// Law (order sensitivity, last write wins): when a patch of two
/// records at the same offset applies successfully in file order, the
/// output holds the second record's bytes at that offset, whatever the
/// first wrote there.
pub proof fn lemma_same_offset_last_wins(
    input: Seq<u8>,
    r1: RecordModel,
    r2: RecordModel,
    out: Seq<u8>,
)
    requires
        rec_offset(r1) == rec_offset(r2),
        apply_spec(seq![r1, r2], input) == Ok::<Seq<u8>, RecordModel>(out),
    ensures
        out.subrange(
            rec_offset(r2) as int,
            (rec_offset(r2) + rec_size(r2)) as int,
        ) == rec_bytes(r2),
{
    reveal_with_fuel(apply_records_spec, 4);
    let rs = seq![r1, r2];
    let len = input.len();
    assert(rs[0] == r1);
    assert(rs.drop_first() =~= seq![r2]);
    assert(seq![r2][0] == r2);
    assert(seq![r2].drop_first() =~= Seq::<RecordModel>::empty());
    assert(apply_record_spec(input, len, r1) is Ok);
    let mid = apply_record_spec(input, len, r1)->Ok_0;
    assert(apply_records_spec(mid, len, seq![r2]) == Ok::<Seq<u8>, RecordModel>(out));
    assert(apply_record_spec(mid, len, r2) == Ok::<Seq<u8>, RecordModel>(out));
    lemma_apply_record_len(input, len, r1);
    let o = rec_offset(r2);
    if o == mid.len() {
        assert(out == mid + rec_bytes(r2));
        assert(out.subrange(o as int, (o + rec_size(r2)) as int) =~= rec_bytes(r2));
    } else {
        assert(out == overwrite_seq(mid, o, rec_bytes(r2)));
        assert(o + rec_size(r2) <= len <= mid.len());
        assert(out.subrange(o as int, (o + rec_size(r2)) as int) =~= rec_bytes(r2));
    }
}

/// Law (zero-length run is a no-op): a run-length record with length 0
/// either fails its bounds check or returns the buffer byte-for-byte
/// unchanged, and it succeeds exactly when its offset is the current
/// buffer end or lies within the original input.
pub proof fn lemma_rle_zero_noop(out: Seq<u8>, orig_len: nat, offset: nat, value: u8)
    ensures
        (offset == out.len() || offset <= orig_len) ==> apply_record_spec(
            out,
            orig_len,
            RecordModel::RuntimeLengthEncoded { offset, size: 0, value },
        ) == Ok::<Seq<u8>, RecordModel>(out),
        !(offset == out.len() || offset <= orig_len) ==> apply_record_spec(
            out,
            orig_len,
            RecordModel::RuntimeLengthEncoded { offset, size: 0, value },
        ) == Err::<Seq<u8>, RecordModel>(
            RecordModel::RuntimeLengthEncoded { offset, size: 0, value },
        ),
{
    let r = RecordModel::RuntimeLengthEncoded { offset, size: 0, value };
    assert(rec_bytes(r) =~= Seq::<u8>::empty());
    if offset == out.len() {
        assert(out + rec_bytes(r) =~= out);
    } else if offset <= orig_len {
        assert(overwrite_seq(out, offset, rec_bytes(r)) =~= out);
    }
}

/// The bytes that encode a record in the binary format: 3-byte
/// big-endian offset, 2-byte big-endian size, then either the payload
/// (literal) or, after a zero size, the 2-byte run length and the fill
/// byte.
pub open spec fn rec_enc(r: RecordModel) -> Seq<u8> {
    match r {
        RecordModel::Normal { offset, data } => seq![
            (offset / 65536) as u8,
            ((offset / 256) % 256) as u8,
            (offset % 256) as u8,
            (data.len() / 256) as u8,
            (data.len() % 256) as u8,
        ] + data,
        RecordModel::RuntimeLengthEncoded { offset, size, value } => seq![
            (offset / 65536) as u8,
            ((offset / 256) % 256) as u8,
            (offset % 256) as u8,
            0u8,
            0u8,
            (size / 256) as u8,
            (size % 256) as u8,
            value,
        ],
    }
}

/// A record the parser itself can produce: well-formed, a literal's
/// payload non-empty, and an offset other than `0x454F46`, whose
/// 3-byte encoding is the bytes `EOF` and so ends the record stream
/// instead of starting a record.
pub open spec fn rec_encodable(r: RecordModel) -> bool {
    &&& rec_wf(r)
    &&& (r matches RecordModel::Normal { data, .. } ==> data.len() >= 1)
    &&& rec_offset(r) != 0x454F46
}

proof fn lemma_be16_roundtrip(x: nat)
    requires
        x <= 0xFFFF,
    ensures
        be16_spec((x / 256) as u8, (x % 256) as u8) == x,
{
    vstd::arithmetic::div_mod::lemma_fundamental_div_mod(x as int, 256);
}

proof fn lemma_be24_roundtrip(x: nat)
    requires
        x <= 0xFFFFFF,
    ensures
        be24_spec((x / 65536) as u8, ((x / 256) % 256) as u8, (x % 256) as u8) == x,
{
    vstd::arithmetic::div_mod::lemma_fundamental_div_mod(x as int, 256);
    vstd::arithmetic::div_mod::lemma_fundamental_div_mod(x as int / 256, 256);
    vstd::arithmetic::div_mod::lemma_div_denominator(x as int, 256, 256);
}

/// Parsing a stream that begins with a record's encoding yields that
/// record, followed by whatever parsing the rest of the stream yields.
pub proof fn lemma_parse_enc(r: RecordModel, t: Seq<u8>)
    requires
        rec_encodable(r),
    ensures
        parse_records_spec(rec_enc(r) + t) == cons_parsed(r, parse_records_spec(t)),
{
    let e = rec_enc(r);
    let s = e + t;
    let o = rec_offset(r);
    lemma_be24_roundtrip(o);
    assert(s[0] == e[0] && s[1] == e[1] && s[2] == e[2]);
    assert(be24_spec(s[0], s[1], s[2]) == o);
    if starts_with_eof(s) {
        assert(be24_spec(69u8, 79u8, 70u8) == 0x454F46);
        assert(false);
    }
    assert(s.skip(3).skip(2) =~= s.skip(5));
    match r {
        RecordModel::Normal { offset, data } => {
            lemma_be16_roundtrip(data.len());
            assert(s.skip(3)[0] == e[3] && s.skip(3)[1] == e[4]);
            assert(be16_spec(e[3], e[4]) == data.len());
            let s2 = s.skip(5);
            assert(s2 =~= data + t);
            assert(s2.len() >= data.len());
            assert(s2.take(data.len() as int) =~= data);
            assert(s2.skip(data.len() as int) =~= t);
            assert(parse_records_spec(s) == cons_parsed(
                RecordModel::Normal { offset, data: s2.take(data.len() as int) },
                parse_records_spec(t),
            ));
        },
        RecordModel::RuntimeLengthEncoded { offset, size, value } => {
            lemma_be16_roundtrip(size);
            assert(s.skip(3)[0] == e[3] && s.skip(3)[1] == e[4]);
            assert(be16_spec(e[3], e[4]) == 0);
            let s2 = s.skip(5);
            assert(s2 =~= seq![e[5], e[6], e[7]] + t);
            assert(s2[0] == e[5] && s2[1] == e[6]);
            assert(be16_spec(e[5], e[6]) == size);
            let s3 = s2.skip(2);
            assert(s3 =~= seq![e[7]] + t);
            assert(s3[0] == value);
            assert(s3.skip(1) =~= t);
        },
    }
}

/// The truncation error the parser reports when a record's encoding
/// is cut off `cut` bytes in: nothing of the record present reads as a
/// missing terminator, a partial field names that field.
pub open spec fn trunc_field_error(r: RecordModel, cut: nat) -> IpsError {
    if cut == 0 {
        IpsError::TruncatedRecord { field: PatchField::EofMarker, have: 0, need: 3 }
    } else if cut < 3 {
        IpsError::TruncatedRecord { field: PatchField::Offset, have: cut as usize, need: 3 }
    } else if cut < 5 {
        IpsError::TruncatedRecord { field: PatchField::Size, have: (cut - 3) as usize, need: 2 }
    } else {
        match r {
            RecordModel::Normal { data, .. } => IpsError::TruncatedRecord {
                field: PatchField::Data,
                have: (cut - 5) as usize,
                need: data.len() as usize,
            },
            RecordModel::RuntimeLengthEncoded { .. } => if cut < 7 {
                IpsError::TruncatedRecord {
                    field: PatchField::RleLength,
                    have: (cut - 5) as usize,
                    need: 2,
                }
            } else {
                IpsError::TruncatedRecord { field: PatchField::RleValue, have: 0, need: 1 }
            },
        }
    }
}

/// Law (parser truncation, one record): a record's encoding cut off
/// anywhere before its end parses to a `TruncatedRecord` error naming
/// the field being read at the cut.
pub proof fn lemma_truncated_record(r: RecordModel, cut: nat)
    requires
        rec_encodable(r),
        cut < rec_enc(r).len(),
    ensures
        parse_records_spec(rec_enc(r).take(cut as int)) == Err::<Seq<RecordModel>, IpsError>(
            trunc_field_error(r, cut),
        ),
{
    let e = rec_enc(r);
    let p = e.take(cut as int);
    let o = rec_offset(r);
    lemma_be24_roundtrip(o);
    if cut >= 3 {
        assert(p[0] == e[0] && p[1] == e[1] && p[2] == e[2]);
        assert(be24_spec(p[0], p[1], p[2]) == o);
        if starts_with_eof(p) {
            assert(be24_spec(69u8, 79u8, 70u8) == 0x454F46);
            assert(false);
        }
    }
    if cut < 5 {
        // The cut falls in the offset or size field, whatever the
        // record variant.
        if cut >= 3 {
            assert(p.skip(3).len() == cut - 3 < 2);
        }
    } else {
        assert(p.skip(3).skip(2) =~= p.skip(5));
        assert(p.skip(3)[0] == e[3] && p.skip(3)[1] == e[4]);
        let s2 = p.skip(5);
        assert(s2 =~= e.skip(5).take(cut - 5));
        match r {
            RecordModel::Normal { offset, data } => {
                lemma_be16_roundtrip(data.len());
                assert(be16_spec(e[3], e[4]) == data.len());
                assert(data.len() >= 1);
                assert(s2.len() == cut - 5 < data.len());
            },
            RecordModel::RuntimeLengthEncoded { offset, size, value } => {
                assert(be16_spec(e[3], e[4]) == 0);
                if cut < 7 {
                    assert(s2.len() == cut - 5 < 2);
                } else {
                    assert(cut == 7);
                    assert(s2[0] == e[5] && s2[1] == e[6]);
                    assert(s2.skip(2).len() == 0);
                }
            },
        }
    }
}

/// The concatenated encodings of a sequence of records.
pub open spec fn concat_encs(rs: Seq<RecordModel>) -> Seq<u8>
    decreases rs.len(),
{
    if rs.len() == 0 {
        Seq::empty()
    } else {
        rec_enc(rs[0]) + concat_encs(rs.drop_first())
    }
}

/// Law (parser truncation): a record stream truncated anywhere inside
/// the encoding of its record number `j` — at a field boundary or mid
/// field — parses to a `TruncatedRecord` error naming the field being
/// read at the cut.
pub proof fn lemma_parser_truncation(rs: Seq<RecordModel>, j: int, cut: nat)
    requires
        forall|i: int| 0 <= i < rs.len() ==> rec_encodable(#[trigger] rs[i]),
        0 <= j < rs.len(),
        cut < rec_enc(rs[j]).len(),
    ensures
        parse_records_spec(concat_encs(rs.take(j)) + rec_enc(rs[j]).take(cut as int)) == Err::<
            Seq<RecordModel>,
            IpsError,
        >(trunc_field_error(rs[j], cut)),
    decreases j,
{
    if j == 0 {
        assert(rs.take(0) =~= Seq::<RecordModel>::empty());
        assert(concat_encs(rs.take(0)) + rec_enc(rs[0]).take(cut as int) =~= rec_enc(
            rs[0],
        ).take(cut as int));
        lemma_truncated_record(rs[0], cut);
    } else {
        let rest = rs.drop_first();
        assert(forall|i: int| 0 <= i < rest.len() ==> rec_encodable(#[trigger] rest[i])) by {
            assert(forall|i: int| 0 <= i < rest.len() ==> rest[i] == rs[i + 1]);
        }
        assert(rest[j - 1] == rs[j]);
        lemma_parser_truncation(rest, j - 1, cut);
        let tail = concat_encs(rest.take(j - 1)) + rec_enc(rs[j]).take(cut as int);
        lemma_parse_enc(rs[0], tail);
        assert(rs.take(j)[0] == rs[0]);
        assert(rs.take(j).drop_first() =~= rest.take(j - 1));
        assert(concat_encs(rs.take(j)) + rec_enc(rs[j]).take(cut as int) =~= rec_enc(rs[0])
            + tail);
    }
}

/// Law (parser truncation, whole buffer): a patch buffer made of the
/// magic and a record stream, truncated inside record number `j`,
/// parses to exactly the truncation error for the field cut.
pub proof fn lemma_patch_truncation(rs: Seq<RecordModel>, j: int, cut: nat)
    requires
        forall|i: int| 0 <= i < rs.len() ==> rec_encodable(#[trigger] rs[i]),
        0 <= j < rs.len(),
        cut < rec_enc(rs[j]).len(),
    ensures
        parse_spec(magic() + concat_encs(rs.take(j)) + rec_enc(rs[j]).take(cut as int)) == Err::<
            Seq<RecordModel>,
            IpsError,
        >(trunc_field_error(rs[j], cut)),
{
    let body = concat_encs(rs.take(j)) + rec_enc(rs[j]).take(cut as int);
    let s = magic() + concat_encs(rs.take(j)) + rec_enc(rs[j]).take(cut as int);
    assert(s.take(5) =~= magic());
    assert(s.skip(5) =~= body);
    lemma_parser_truncation(rs, j, cut);
}

} // verus!
