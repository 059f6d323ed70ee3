use vstd::prelude::*;
use vstd::utf8::{decode_utf8, valid_utf8};

use byteorder::ByteOrder;

use super::{
    ExecutionData, ExecutionDataModel, JacocoError, JacocoErrorModel, JacocoReport,
    JacocoReportModel, SessionInfo, SessionInfoModel,
};
use crate::result::{fails_with, Error, ErrorModel};

verus! {

/// Tag of a header block.
pub const BLOCK_HEADER: u8 = 0x01;

/// Tag of a session block.
pub const BLOCK_SESSION_INFO: u8 = 0x10;

/// Tag of an execution-data block.
pub const BLOCK_EXECUTION_DATA: u8 = 0x11;

/// Magic number that a header carries, as a signed 16-bit value (`0xC0C0`).
pub const MAGIC_NUMBER: i16 = -16192;

/// Format version that a header carries.
pub const FORMAT_VERSION: i16 = 0x1007;

/// Whether chrono can represent the instant `ms` milliseconds after the Unix epoch.
pub uninterp spec fn millis_representable(ms: i64) -> bool;

/// Unsigned big-endian value of `s`.
pub open spec fn be_value(s: Seq<u8>) -> nat
    decreases s.len(),
{
    if s.len() == 0 {
        0
    } else {
        be_value(s.drop_last()) * 256 + s.last() as nat
    }
}

/// The two's complement reading of the 16-bit value `v`.
pub open spec fn signed16(v: nat) -> int {
    if v >= 0x8000 {
        v - 0x1_0000
    } else {
        v as int
    }
}

/// The two's complement reading of the 64-bit value `v`.
pub open spec fn signed64(v: nat) -> int {
    if v >= 0x8000_0000_0000_0000 {
        v - 0x1_0000_0000_0000_0000
    } else {
        v as int
    }
}

/// The 32-bit two's complement value of the low 32 bits of `v`.
pub open spec fn wrap_i32(v: nat) -> i32 {
    let w = v % 0x1_0000_0000;
    if w >= 0x8000_0000 {
        (w - 0x1_0000_0000) as i32
    } else {
        w as i32
    }
}

/// `n` bytes of `d` from `p`.
pub open spec fn bytes_at(d: Seq<u8>, p: int, n: int) -> Seq<u8> {
    d.subrange(p, p + n)
}

/// Relies on byteorder's `BigEndian::read_i16`: the two bytes at `pos`, big-endian.
#[verifier::external_body]
fn be_i16_at(data: &[u8], pos: usize) -> (r: i16)
    requires
        pos + 2 <= data@.len(),
    ensures
        r as int == signed16(be_value(bytes_at(data@, pos as int, 2))),
{
    byteorder::BigEndian::read_i16(&data[pos..])
}

/// Relies on byteorder's `BigEndian::read_u16`: the two bytes at `pos`, big-endian.
#[verifier::external_body]
fn be_u16_at(data: &[u8], pos: usize) -> (r: u16)
    requires
        pos + 2 <= data@.len(),
    ensures
        r as nat == be_value(bytes_at(data@, pos as int, 2)),
{
    byteorder::BigEndian::read_u16(&data[pos..])
}

/// Relies on byteorder's `BigEndian::read_i64`: the eight bytes at `pos`, big-endian.
#[verifier::external_body]
fn be_i64_at(data: &[u8], pos: usize) -> (r: i64)
    requires
        pos + 8 <= data@.len(),
    ensures
        r as int == signed64(be_value(bytes_at(data@, pos as int, 8))),
{
    byteorder::BigEndian::read_i64(&data[pos..])
}

/// Relies on `String::from_utf8`: it succeeds exactly on valid UTF-8 and then
/// holds the decoded characters; its error gives the bytes back.
#[verifier::external_body]
fn utf8_string(bytes: Vec<u8>) -> (r: Result<String, Vec<u8>>)
    ensures
        match r {
            Ok(s) => valid_utf8(bytes@) && s@ == decode_utf8(bytes@),
            Err(b) => !valid_utf8(bytes@) && b@ == bytes@,
        },
{
    match String::from_utf8(bytes) {
        Ok(s) => Ok(s),
        Err(e) => Err(e.into_bytes()),
    }
}

/// Relies on chrono's `DateTime::from_timestamp_millis`, which returns `None`
/// exactly for instants out of its range.
#[verifier::external_body]
fn representable_millis(ms: i64) -> (r: bool)
    ensures
        r == millis_representable(ms),
{
    chrono::DateTime::from_timestamp_millis(ms).is_some()
}

/// A 16-bit big-endian signed value at `p`, with the bytes it takes.
pub open spec fn short_at(d: Seq<u8>, p: int) -> Result<(i16, nat), ErrorModel> {
    if p + 2 > d.len() {
        Err(ErrorModel::UnexpectedEof)
    } else {
        Ok((signed16(be_value(bytes_at(d, p, 2))) as i16, 2))
    }
}

/// A 64-bit big-endian signed value at `p`, with the bytes it takes.
pub open spec fn long_at(d: Seq<u8>, p: int) -> Result<(i64, nat), ErrorModel> {
    if p + 8 > d.len() {
        Err(ErrorModel::UnexpectedEof)
    } else {
        Ok((signed64(be_value(bytes_at(d, p, 8))) as i64, 8))
    }
}

/// A string at `p`: a 16-bit big-endian byte count, then that many bytes of UTF-8.
pub open spec fn utf8_at(d: Seq<u8>, p: int) -> Result<(Seq<char>, nat), ErrorModel> {
    if p + 2 > d.len() {
        Err(ErrorModel::UnexpectedEof)
    } else {
        let n = be_value(bytes_at(d, p, 2));
        if p + 2 + n > d.len() {
            Err(ErrorModel::UnexpectedEof)
        } else if !valid_utf8(bytes_at(d, p + 2, n as int)) {
            Err(ErrorModel::FromUtf8(bytes_at(d, p + 2, n as int)))
        } else {
            Ok((decode_utf8(bytes_at(d, p + 2, n as int)), (2 + n) as nat))
        }
    }
}

/// The number of groups of the variable-length integer at `p`, looking from its
/// group `j` on: the first byte with a clear high bit ends it, and a value
/// takes at most five groups.
pub open spec fn var_int_groups(d: Seq<u8>, p: int, j: nat) -> Result<nat, ErrorModel>
    decreases 5 - j,
{
    if j >= 5 || p + j >= d.len() {
        Err(ErrorModel::UnexpectedEof)
    } else if d[p + j] < 0x80 {
        Ok(j + 1)
    } else if j == 4 {
        Err(ErrorModel::Jacoco(JacocoErrorModel::VarIntTooLong))
    } else {
        var_int_groups(d, p, j + 1)
    }
}

/// `128` to the power `n`.
pub open spec fn pow128(n: nat) -> nat
    decreases n,
{
    if n == 0 {
        1
    } else {
        128 * pow128((n - 1) as nat)
    }
}

/// The value of the first `n` groups at `p`: seven bits each, least
/// significant group first.
pub open spec fn groups_value(d: Seq<u8>, p: int, n: nat) -> nat
    decreases n,
{
    if n == 0 {
        0
    } else {
        groups_value(d, p, (n - 1) as nat) + (d[p + n - 1] % 128) as nat * pow128(
            (n - 1) as nat,
        )
    }
}

/// The variable-length integer at `p`, with the bytes it takes; its value is
/// the low 32 bits of the groups' value.
pub open spec fn var_int_at(d: Seq<u8>, p: int) -> Result<(i32, nat), ErrorModel> {
    match var_int_groups(d, p, 0) {
        Ok(n) => Ok((wrap_i32(groups_value(d, p, n)), n)),
        Err(e) => Err(e),
    }
}

/// Flag `k` (0 to 7) of byte `b`, least significant bit first.
pub open spec fn bit_of(b: u8, k: u32) -> bool {
    (b >> k) & 1u8 == 1u8
}

/// `n` flags packed eight to a byte from `p`, least significant bit first.
pub open spec fn packed_flags(d: Seq<u8>, p: int, n: nat) -> Seq<bool> {
    Seq::new(n, |i: int| bit_of(d[p + i / 8], (i % 8) as u32))
}

/// Bytes that `n` packed flags take.
pub open spec fn packed_len(n: nat) -> nat {
    (n + 7) / 8
}

/// A flag array at `p`: a variable-length count, then the packed flags.
pub open spec fn boolean_array_at(d: Seq<u8>, p: int) -> Result<(Seq<bool>, nat), ErrorModel> {
    match var_int_at(d, p) {
        Err(e) => Err(e),
        Ok((count, k)) => if count < 0 {
            Err(ErrorModel::FromInt(count))
        } else if p + k + packed_len(count as nat) > d.len() {
            Err(ErrorModel::UnexpectedEof)
        } else {
            Ok((packed_flags(d, p + k, count as nat), k + packed_len(count as nat)))
        },
    }
}

/// The payload of a header block at `p`, with the bytes it takes.
pub open spec fn header_at(d: Seq<u8>, p: int) -> Result<nat, ErrorModel> {
    match short_at(d, p) {
        Err(e) => Err(e),
        Ok((magic, _)) => if magic != MAGIC_NUMBER {
            Err(ErrorModel::Jacoco(JacocoErrorModel::WrongMagicHeader(magic)))
        } else {
            match short_at(d, p + 2) {
                Err(e) => Err(e),
                Ok((version, _)) => if version != FORMAT_VERSION {
                    Err(ErrorModel::Jacoco(JacocoErrorModel::WrongFormatVersion(version)))
                } else {
                    Ok(4)
                },
            }
        },
    }
}

/// The payload of a session block at `p`, with the bytes it takes.
pub open spec fn session_at(d: Seq<u8>, p: int) -> Result<(SessionInfoModel, nat), ErrorModel> {
    match utf8_at(d, p) {
        Err(e) => Err(e),
        Ok((id, n)) => match long_at(d, p + n) {
            Err(e) => Err(e),
            Ok((start, _)) => match long_at(d, p + n + 8) {
                Err(e) => Err(e),
                Ok((dump, _)) => if !millis_representable(start) {
                    Err(ErrorModel::Jacoco(JacocoErrorModel::InvalidTimestamp(start)))
                } else if !millis_representable(dump) {
                    Err(ErrorModel::Jacoco(JacocoErrorModel::InvalidTimestamp(dump)))
                } else {
                    Ok((SessionInfoModel { id, start, dump }, n + 16))
                },
            },
        },
    }
}

/// The payload of an execution-data block at `p`, with the bytes it takes.
pub open spec fn execution_data_at(d: Seq<u8>, p: int) -> Result<
    (ExecutionDataModel, nat),
    ErrorModel,
> {
    match long_at(d, p) {
        Err(e) => Err(e),
        Ok((id, _)) => match utf8_at(d, p + 8) {
            Err(e) => Err(e),
            Ok((name, n)) => match boolean_array_at(d, p + 8 + n) {
                Err(e) => Err(e),
                Ok((probes, k)) => Ok((ExecutionDataModel { id, name, probes }, 8 + n + k)),
            },
        },
    }
}

/// Decoding of the blocks from `p` on, after the sessions and records already
/// read. The end of the input before a tag ends decoding, and so does the end
/// of the input inside a block, which is then dropped; every other failure is
/// the result. The first block must be a header.
pub open spec fn decode_blocks(
    d: Seq<u8>,
    p: int,
    first: bool,
    sessions: Seq<SessionInfoModel>,
    records: Seq<ExecutionDataModel>,
) -> Result<JacocoReportModel, ErrorModel>
    decreases d.len() - p,
{
    if p < 0 || p >= d.len() {
        Ok(JacocoReportModel { sessions, records })
    } else {
        let tag = d[p];
        if tag != BLOCK_HEADER && tag != BLOCK_SESSION_INFO && tag != BLOCK_EXECUTION_DATA {
            Err(ErrorModel::Jacoco(JacocoErrorModel::WrongBlockType(tag)))
        } else if first && tag != BLOCK_HEADER {
            Err(ErrorModel::Jacoco(JacocoErrorModel::InvalidFile))
        } else if tag == BLOCK_HEADER {
            match header_at(d, p + 1) {
                Ok(n) => decode_blocks(d, p + 1 + n, false, sessions, records),
                Err(ErrorModel::UnexpectedEof) => Ok(JacocoReportModel { sessions, records }),
                Err(e) => Err(e),
            }
        } else if tag == BLOCK_SESSION_INFO {
            match session_at(d, p + 1) {
                Ok((s, n)) => decode_blocks(d, p + 1 + n, false, sessions.push(s), records),
                Err(ErrorModel::UnexpectedEof) => Ok(JacocoReportModel { sessions, records }),
                Err(e) => Err(e),
            }
        } else {
            match execution_data_at(d, p + 1) {
                Ok((r, n)) => decode_blocks(d, p + 1 + n, false, sessions, records.push(r)),
                Err(ErrorModel::UnexpectedEof) => Ok(JacocoReportModel { sessions, records }),
                Err(e) => Err(e),
            }
        }
    }
}

/// Decoding of a whole execution-data dump.
pub open spec fn decode_report(d: Seq<u8>) -> Result<JacocoReportModel, ErrorModel> {
    decode_blocks(d, 0, true, seq![], seq![])
}

/// The low 32 bits of `v`, read as a two's complement value.
fn wrap_to_i32(v: u64) -> (r: i32)
    ensures
        r == wrap_i32(v as nat),
{
    let w: u64 = v % 0x1_0000_0000;
    if w >= 0x8000_0000 {
        (w as i64 - 0x1_0000_0000i64) as i32
    } else {
        w as i32
    }
}

impl JacocoReport {
    /// Reads a signed 16-bit big-endian value at `pos`; returns it with the
    /// position after it.
    fn read_char(data: &[u8], pos: usize) -> (r: Result<(i16, usize), Error>)
        ensures
            match r {
                Ok((v, q)) => q >= pos && short_at(data@, pos as int) == Ok::<_, ErrorModel>((v, (q - pos) as nat)),
                Err(e) => fails_with(short_at(data@, pos as int), e@),
            },
    {
        if pos > data.len() || data.len() - pos < 2 {
            return Err(Error::UnexpectedEof);
        }
        Ok((be_i16_at(data, pos), pos + 2))
    }

    /// Reads a signed 64-bit big-endian value at `pos`; returns it with the
    /// position after it.
    fn read_long(data: &[u8], pos: usize) -> (r: Result<(i64, usize), Error>)
        ensures
            match r {
                Ok((v, q)) => q >= pos && long_at(data@, pos as int) == Ok::<_, ErrorModel>((v, (q - pos) as nat)),
                Err(e) => fails_with(long_at(data@, pos as int), e@),
            },
    {
        if pos > data.len() || data.len() - pos < 8 {
            return Err(Error::UnexpectedEof);
        }
        Ok((be_i64_at(data, pos), pos + 8))
    }

    /// Reads a length-prefixed UTF-8 string at `pos`; returns it with the
    /// position after it.
    fn read_utf8(data: &[u8], pos: usize) -> (r: Result<(String, usize), Error>)
        ensures
            match r {
                Ok((s, q)) => q >= pos && utf8_at(data@, pos as int) == Ok::<_, ErrorModel>((s@, (q - pos) as nat)),
                Err(e) => fails_with(utf8_at(data@, pos as int), e@),
            },
    {
        if pos > data.len() || data.len() - pos < 2 {
            return Err(Error::UnexpectedEof);
        }
        let n = be_u16_at(data, pos) as usize;
        let start = pos + 2;
        if data.len() - start < n {
            return Err(Error::UnexpectedEof);
        }
        let end = start + n;
        let mut bytes: Vec<u8> = Vec::with_capacity(n);
        let mut i: usize = 0;
        while i < n
            invariant
                end == start + n,
                start + n <= data@.len(),
                i <= n,
                bytes@ == bytes_at(data@, start as int, i as int),
            decreases n - i,
        {
            bytes.push(data[start + i]);
            i += 1;
            assert(bytes@ =~= bytes_at(data@, start as int, i as int));
        }
        match utf8_string(bytes) {
            Ok(s) => Ok((s, end)),
            Err(b) => Err(Error::FromUtf8(b)),
        }
    }

    /// Reads the variable-length integer at `pos`: seven bits per byte, least
    /// significant group first, the high bit marking that another group
    /// follows. At most five groups are read: a fifth byte that announces
    /// another group fails with `VarIntTooLong`. Returns the low 32 bits of the value, as a signed
    /// integer, with the position after it.
    pub fn read_var_int(data: &[u8], pos: usize) -> (r: Result<(i32, usize), Error>)
        ensures
            match r {
                Ok((v, q)) => q >= pos && var_int_at(data@, pos as int) == Ok::<_, ErrorModel>((v, (q - pos) as nat)),
                Err(e) => fails_with(var_int_at(data@, pos as int), e@),
            },
    {
        let mut j: usize = 0;
        let mut acc: u64 = 0;
        let mut mult: u64 = 1;
        loop
            invariant
                j <= 4,
                var_int_groups(data@, pos as int, 0) == var_int_groups(data@, pos as int, j as nat),
                acc == groups_value(data@, pos as int, j as nat),
                mult == pow128(j as nat),
                acc < mult,
                (j == 0 && mult == 1) || (j == 1 && mult == 128) || (j == 2 && mult == 16384) || (j
                    == 3 && mult == 2097152) || (j == 4 && mult == 268435456),
            decreases 4 - j,
        {
            if pos >= data.len() || j >= data.len() - pos {
                return Err(Error::UnexpectedEof);
            }
            let b = data[pos + j];
            let low = (b % 128) as u64;
            assert(low * mult <= 127 * mult) by (nonlinear_arith)
                requires
                    low <= 127,
            ;
            let next = acc + low * mult;
            assert(next == groups_value(data@, pos as int, (j + 1) as nat));
            if b < 0x80 {
                return Ok((wrap_to_i32(next), pos + j + 1));
            }
            if j == 4 {
                return Err(Error::Jacoco(JacocoError::VarIntTooLong));
            }
            acc = next;
            mult = mult * 128;
            j += 1;
        }
    }

    /// Reads a flag array at `pos`: a variable-length count, then the flags
    /// packed eight to a byte, least significant bit first, a fresh byte for
    /// every eight flags. A negative count fails with `FromInt`. Returns the
    /// flags with the position after them.
    pub fn read_boolean_array(data: &[u8], pos: usize) -> (r: Result<(Vec<bool>, usize), Error>)
        ensures
            match r {
                Ok((v, q)) => q >= pos && boolean_array_at(data@, pos as int) == Ok::<_, ErrorModel>(
                    (v@, (q - pos) as nat),
                ),
                Err(e) => fails_with(boolean_array_at(data@, pos as int), e@),
            },
    {
        let (count, start) = match Self::read_var_int(data, pos) {
            Ok(v) => v,
            Err(e) => return Err(e),
        };
        if count < 0 {
            return Err(Error::FromInt(count));
        }
        let n = count as usize;
        let nbytes: usize = n / 8 + if n % 8 == 0 {
            0
        } else {
            1
        };
        assert(nbytes == packed_len(n as nat));
        if start > data.len() || data.len() - start < nbytes {
            return Err(Error::UnexpectedEof);
        }
        let end = start + nbytes;
        let mut flags: Vec<bool> = Vec::new();
        let mut i: usize = 0;
        while i < n
            invariant
                end == start + nbytes,
                i <= n,
                start + nbytes <= data@.len(),
                nbytes == packed_len(n as nat),
                flags@ == packed_flags(data@, start as int, n as nat).subrange(0, i as int),
            decreases n - i,
        {
            assert(i / 8 < nbytes) by (nonlinear_arith)
                requires
                    i < n,
                    nbytes == (n + 7) / 8,
            ;
            let byte = data[start + i / 8];
            let k = (i % 8) as u32;
            flags.push((byte >> k) & 1u8 == 1u8);
            i += 1;
            assert(flags@ =~= packed_flags(data@, start as int, n as nat).subrange(0, i as int));
        }
        assert(flags@ =~= packed_flags(data@, start as int, n as nat));
        Ok((flags, end))
    }

    /// Reads a header payload at `pos`; returns the position after it.
    fn read_header(data: &[u8], pos: usize) -> (r: Result<usize, Error>)
        ensures
            match r {
                Ok(q) => q >= pos && header_at(data@, pos as int) == Ok::<_, ErrorModel>(
                    (q - pos) as nat,
                ),
                Err(e) => fails_with(header_at(data@, pos as int), e@),
            },
    {
        let (magic, at_version) = match Self::read_char(data, pos) {
            Ok(v) => v,
            Err(e) => return Err(e),
        };
        if magic != MAGIC_NUMBER {
            return Err(Error::Jacoco(JacocoError::WrongMagicHeader(magic)));
        }
        let (version, end) = match Self::read_char(data, at_version) {
            Ok(v) => v,
            Err(e) => return Err(e),
        };
        if version != FORMAT_VERSION {
            return Err(Error::Jacoco(JacocoError::WrongFormatVersion(version)));
        }
        Ok(end)
    }

    /// Reads a session payload at `pos`; returns it with the position after it.
    fn read_session_info(data: &[u8], pos: usize) -> (r: Result<(SessionInfo, usize), Error>)
        ensures
            match r {
                Ok((s, q)) => q >= pos && session_at(data@, pos as int) == Ok::<_, ErrorModel>(
                    (s@, (q - pos) as nat),
                ),
                Err(e) => fails_with(session_at(data@, pos as int), e@),
            },
    {
        let (id, at_start) = match Self::read_utf8(data, pos) {
            Ok(v) => v,
            Err(e) => return Err(e),
        };
        let (start, at_dump) = match Self::read_long(data, at_start) {
            Ok(v) => v,
            Err(e) => return Err(e),
        };
        let (dump, end) = match Self::read_long(data, at_dump) {
            Ok(v) => v,
            Err(e) => return Err(e),
        };
        if !representable_millis(start) {
            return Err(Error::Jacoco(JacocoError::InvalidTimestamp(start)));
        }
        if !representable_millis(dump) {
            return Err(Error::Jacoco(JacocoError::InvalidTimestamp(dump)));
        }
        let session = SessionInfo { id, start, dump };
        assert(session@ == SessionInfoModel { id: id@, start, dump });
        Ok((session, end))
    }

    /// Reads an execution-data payload at `pos`; returns it with the position
    /// after it.
    fn read_execution_data(data: &[u8], pos: usize) -> (r: Result<(ExecutionData, usize), Error>)
        ensures
            match r {
                Ok((x, q)) => q >= pos && execution_data_at(data@, pos as int) == Ok::<
                    _,
                    ErrorModel,
                >((x@, (q - pos) as nat)),
                Err(e) => fails_with(execution_data_at(data@, pos as int), e@),
            },
    {
        let (id, at_name) = match Self::read_long(data, pos) {
            Ok(v) => v,
            Err(e) => return Err(e),
        };
        let (name, at_probes) = match Self::read_utf8(data, at_name) {
            Ok(v) => v,
            Err(e) => return Err(e),
        };
        let (probes, end) = match Self::read_boolean_array(data, at_probes) {
            Ok(v) => v,
            Err(e) => return Err(e),
        };
        let record = ExecutionData { id, name, probes };
        assert(record@ == ExecutionDataModel { id, name: name@, probes: probes@ });
        Ok((record, end))
    }

    /// Decodes a whole execution-data dump. Blocks are read until the input
    /// ends; a block cut short by the end of the input is dropped and ends
    /// decoding without error. The first block must be a header.
    pub fn from_read(data: &[u8]) -> (r: Result<JacocoReport, Error>)
        ensures
            match r {
                Ok(rep) => decode_report(data@) == Ok::<_, ErrorModel>(rep@),
                Err(e) => fails_with(decode_report(data@), e@),
            },
    {
        let mut session_infos: Vec<SessionInfo> = Vec::new();
        let mut execution_datas: Vec<ExecutionData> = Vec::new();
        let mut is_first_block = true;
        let mut pos: usize = 0;
        assert(session_infos@.map_values(|s: SessionInfo| s@) =~= seq![]);
        assert(execution_datas@.map_values(|x: ExecutionData| x@) =~= seq![]);
        loop
            invariant
                decode_report(data@) == decode_blocks(
                    data@,
                    pos as int,
                    is_first_block,
                    session_infos@.map_values(|s: SessionInfo| s@),
                    execution_datas@.map_values(|x: ExecutionData| x@),
                ),
            ensures
                decode_report(data@) == Ok::<_, ErrorModel>(
                    JacocoReportModel {
                        sessions: session_infos@.map_values(|s: SessionInfo| s@),
                        records: execution_datas@.map_values(|x: ExecutionData| x@),
                    },
                ),
            decreases data@.len() - pos,
        {
            let ghost sessions = session_infos@.map_values(|s: SessionInfo| s@);
            let ghost records = execution_datas@.map_values(|x: ExecutionData| x@);
            if pos >= data.len() {
                break;
            }
            let tag = data[pos];
            if tag != BLOCK_HEADER && tag != BLOCK_SESSION_INFO && tag != BLOCK_EXECUTION_DATA {
                return Err(Error::Jacoco(JacocoError::WrongBlockType(tag)));
            }
            if is_first_block && tag != BLOCK_HEADER {
                return Err(Error::Jacoco(JacocoError::InvalidFile));
            }
            is_first_block = false;
            if tag == BLOCK_HEADER {
                match Self::read_header(data, pos + 1) {
                    Ok(q) => {
                        pos = q;
                    },
                    Err(Error::UnexpectedEof) => break,
                    Err(e) => return Err(e),
                }
            } else if tag == BLOCK_SESSION_INFO {
                match Self::read_session_info(data, pos + 1) {
                    Ok((s, q)) => {
                        session_infos.push(s);
                        assert(session_infos@.map_values(|s: SessionInfo| s@) =~= sessions.push(
                            s@,
                        ));
                        pos = q;
                    },
                    Err(Error::UnexpectedEof) => break,
                    Err(e) => return Err(e),
                }
            } else {
                match Self::read_execution_data(data, pos + 1) {
                    Ok((x, q)) => {
                        execution_datas.push(x);
                        assert(execution_datas@.map_values(|x: ExecutionData| x@) =~= records.push(
                            x@,
                        ));
                        pos = q;
                    },
                    Err(Error::UnexpectedEof) => break,
                    Err(e) => return Err(e),
                }
            }
        }
        Ok(JacocoReport { session_infos, execution_datas })
    }
}

} // verus!
