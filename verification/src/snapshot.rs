//! The decisions behind taking a snapshot, reading bytes back from one, and
//! scanning one for a pattern. Storage and process access stay with the
//! caller, which hands in what it read and carries out what is decided here.

use vstd::prelude::*;
use crate::models::{MemoryReadResult, MemoryRegion, ScanMatch, ScanResult, SnapshotInfo};
use crate::pattern::{
    matches_at, parse_address, parse_pattern, parse_stored_address, search_pattern, search_result,
    AddressError, PatternError, PatternErrorKind, address_value, lemma_address_roundtrip,
    pattern_value, stored_address,
};
use crate::regions::region_base;
use crate::text::{
    chars_equal, dec_chars, dec_seq, hex_bytes_spaced, hex_bytes_string, hex_seq, hex_string,
    str_chars, string_from_chars, IntErrorKind,
};

verus! {

// ---------------------------------------------------------------------------
// Taking a snapshot
// ---------------------------------------------------------------------------

/// The most bytes captured from a single region.
pub const MAX_CAPTURE_BYTES: usize = 0x1000_0000;

/// `n` in decimal with a leading `-` when negative.
pub open spec fn signed_dec_seq(n: int) -> Seq<char> {
    if n < 0 {
        seq!['-'] + dec_seq((-n) as nat)
    } else {
        dec_seq(n as nat)
    }
}

/// The name of the data file that holds a snapshot's bytes.
pub open spec fn data_file_name_text(snapshot_id: i64) -> Seq<char> {
    "snapshot_"@ + signed_dec_seq(snapshot_id as int) + ".bin"@
}

/// The name of the data file that holds a snapshot's bytes:
/// `snapshot_<id>.bin`.
pub fn data_file_name(snapshot_id: i64) -> (s: String)
    ensures
        s@ == data_file_name_text(snapshot_id),
{
    let mut s = String::from_str("snapshot_");
    if snapshot_id < 0 {
        s.append("-");
        let magnitude: u64 = (0i128 - snapshot_id as i128) as u64;
        let digits = string_from_chars(&dec_chars(magnitude));
        s.append(digits.as_str());
    } else {
        let digits = string_from_chars(&dec_chars(snapshot_id as u64));
        s.append(digits.as_str());
    }
    s.append(".bin");
    proof {
        reveal_strlit("-");
    }
    s
}

/// How many bytes of a region are captured: committed regions are captured
/// up to their size (taken as unsigned), at most `MAX_CAPTURE_BYTES`; other
/// regions not at all.
pub open spec fn capture_length_of(region: MemoryRegion) -> Option<usize> {
    if region.state@ == "Commit"@ {
        let size = region.region_size as usize;
        Some(
            if size < MAX_CAPTURE_BYTES {
                size
            } else {
                MAX_CAPTURE_BYTES
            },
        )
    } else {
        None
    }
}

/// How many bytes of a region to capture, if any.
pub fn capture_length(region: &MemoryRegion) -> (r: Option<usize>)
    ensures
        r == capture_length_of(*region),
{
    if chars_equal(&str_chars(region.state.as_str()), &str_chars("Commit")) {
        let size = region.region_size as usize;
        Some(
            if size < MAX_CAPTURE_BYTES {
                size
            } else {
                MAX_CAPTURE_BYTES
            },
        )
    } else {
        None
    }
}

/// Bookkeeping while a snapshot's regions are written one after another to
/// its data file: where the next bytes go, how many bytes are stored, and
/// how many regions are recorded.
pub struct SnapshotBuilder {
    file_offset: i64,
    total_bytes: i64,
    region_count: i64,
}

impl SnapshotBuilder {
    /// The stored bytes are exactly the bytes written so far, which end where
    /// the next region's bytes begin.
    #[verifier::type_invariant]
    spec fn inv(self) -> bool {
        &&& self.file_offset == self.total_bytes
        &&& 0 <= self.total_bytes
        &&& 0 <= self.region_count
    }

    /// Where the next captured bytes go in the data file.
    pub closed spec fn next_offset(self) -> int {
        self.file_offset as int
    }

    /// Bytes stored so far.
    pub closed spec fn stored_bytes(self) -> int {
        self.total_bytes as int
    }

    /// Regions recorded so far.
    pub closed spec fn recorded_regions(self) -> int {
        self.region_count as int
    }

    /// Nothing written, nothing recorded.
    pub fn new() -> (b: Self)
        ensures
            b.next_offset() == 0,
            b.stored_bytes() == 0,
            b.recorded_regions() == 0,
    {
        SnapshotBuilder { file_offset: 0, total_bytes: 0, region_count: 0 }
    }

    /// Bytes stored so far.
    pub fn total_bytes(&self) -> (r: i64)
        ensures
            r == self.stored_bytes(),
    {
        self.total_bytes
    }

    /// Regions recorded so far.
    pub fn region_count(&self) -> (r: i64)
        ensures
            r == self.recorded_regions(),
    {
        self.region_count
    }

    /// Notes that `len` captured bytes were written at the end of the data
    /// file; returns where they start and how many they are.
    pub fn record_stored(&mut self, len: usize) -> (r: (i64, i64))
        requires
            len <= i64::MAX,
            old(self).next_offset() + len <= i64::MAX,
        ensures
            r.0 == old(self).next_offset(),
            r.1 == len,
            final(self).next_offset() == old(self).next_offset() + len,
            final(self).stored_bytes() == old(self).stored_bytes() + len,
            final(self).stored_bytes() == final(self).next_offset(),
            final(self).recorded_regions() == old(self).recorded_regions(),
    {
        proof {
            use_type_invariant(&*self);
        }
        let len = len as i64;
        let off = self.file_offset;
        *self = SnapshotBuilder {
            file_offset: off + len,
            total_bytes: self.total_bytes + len,
            region_count: self.region_count,
        };
        (off, len)
    }

    /// Notes that one more region was recorded.
    pub fn count_region(&mut self)
        requires
            old(self).recorded_regions() < i64::MAX,
        ensures
            final(self).next_offset() == old(self).next_offset(),
            final(self).stored_bytes() == old(self).stored_bytes(),
            final(self).recorded_regions() == old(self).recorded_regions() + 1,
            final(self).stored_bytes() == final(self).next_offset(),
    {
        proof {
            use_type_invariant(&*self);
        }
        *self = SnapshotBuilder {
            file_offset: self.file_offset,
            total_bytes: self.total_bytes,
            region_count: self.region_count + 1,
        };
    }
}

/// A stored snapshot row as a record; the process id is stored widened and
/// is narrowed back.
pub fn snapshot_from_row(
    id: i64,
    pid: i64,
    process_name: String,
    process_path: String,
    total_size_bytes: i64,
    region_count: i64,
    created_at: i64,
) -> (r: SnapshotInfo)
    ensures
        r.id == id,
        r.pid == pid as u32,
        r.process_name == process_name,
        r.process_path == process_path,
        r.total_size_bytes == total_size_bytes,
        r.region_count == region_count,
        r.created_at == created_at,
{
    SnapshotInfo {
        id,
        pid: pid as u32,
        process_name,
        process_path,
        total_size_bytes,
        region_count,
        created_at,
    }
}

// ---------------------------------------------------------------------------
// Reading bytes back
// ---------------------------------------------------------------------------

/// The most bytes returned by one read.
pub const MAX_READ_LENGTH: usize = 0x100_0000;

/// Why bytes could not be read back from a snapshot.
#[derive(Clone, Debug)]
pub enum ReadError {
    /// The address text is not a hexadecimal address.
    InvalidAddress(AddressError),
    /// A read of zero bytes was asked for.
    ZeroLength,
    /// More than `MAX_READ_LENGTH` bytes were asked for.
    TooLong,
    /// No region of the snapshot covers the address.
    NotInAnyRegion(u64),
    /// The covering region has no stored bytes.
    NoStoredData,
    /// The address lies past the stored bytes of its region.
    OffsetOutOfRange,
    /// Nothing is left to read.
    NothingToRead,
}

/// A read request's address and length are acceptable.
pub open spec fn read_request_ok(address_text: Seq<char>, length: usize) -> bool {
    &&& address_value(address_text) is Ok
    &&& length != 0
    &&& length <= MAX_READ_LENGTH
}

/// Checks a read request: the address must parse, the length must be
/// positive and at most `MAX_READ_LENGTH`, in that order.
pub fn check_read_request(address_hex: &str, length: usize) -> (r: Result<u64, ReadError>)
    ensures
        match r {
            Ok(a) => read_request_ok(address_hex@, length) && address_value(address_hex@) == Ok::<
                nat,
                IntErrorKind,
            >(a as nat),
            Err(ReadError::InvalidAddress(e)) => address_value(address_hex@) == Err::<
                nat,
                IntErrorKind,
            >(e.kind) && e.text@ == address_hex@,
            Err(ReadError::ZeroLength) => address_value(address_hex@) is Ok && length == 0,
            Err(ReadError::TooLong) => address_value(address_hex@) is Ok && length != 0 && length
                > MAX_READ_LENGTH,
            Err(_) => false,
        },
{
    let address = match parse_address(address_hex) {
        Ok(a) => a,
        Err(e) => {
            return Err(ReadError::InvalidAddress(e));
        },
    };
    if length == 0 {
        return Err(ReadError::ZeroLength);
    }
    if length > MAX_READ_LENGTH {
        return Err(ReadError::TooLong);
    }
    Ok(address)
}

/// Where in the data file to read, and how much.
#[derive(Clone, Debug)]
pub struct ReadPlan {
    pub data_path: String,
    pub file_position: u64,
    pub length: usize,
}

/// The offset of `address` inside its region, as stored (signed).
pub open spec fn offset_in_region(address: u64, base: nat) -> i64 {
    (address - base) as i64
}

/// The number of stored bytes from the offset on.
pub open spec fn available_bytes(data_length: i64, offset: i64) -> usize {
    (data_length - offset) as usize
}

/// How many bytes a read returns at most.
pub open spec fn read_span(length: usize, data_length: i64, offset: i64) -> usize {
    if length < available_bytes(data_length, offset) {
        length
    } else {
        available_bytes(data_length, offset)
    }
}

/// The arithmetic of planning a read stays within the signed 64-bit range.
pub open spec fn read_arithmetic_fits(
    address: u64,
    length: usize,
    region: MemoryRegion,
    has_path: bool,
    data_offset: i64,
    data_length: i64,
) -> bool {
    let offset = offset_in_region(address, region_base(region));
    &&& has_path && offset < data_length ==> i64::MIN <= data_length - offset <= i64::MAX
    &&& has_path && offset < data_length && read_span(length, data_length, offset) != 0
        ==> i64::MIN <= data_offset + offset <= i64::MAX
}

/// Plans a read of `length` bytes at `address` from the stored bytes of the
/// region that covers it (which begin at `data_offset` in the file named
/// `data_path` and are `data_length` long).
pub fn plan_region_read(
    address: u64,
    length: usize,
    region: &MemoryRegion,
    data_path: Option<String>,
    data_offset: i64,
    data_length: i64,
) -> (r: Result<ReadPlan, ReadError>)
    requires
        region_base(*region) <= address,
        read_arithmetic_fits(address, length, *region, data_path is Some, data_offset, data_length),
    ensures
        ({
            let offset = offset_in_region(address, region_base(*region));
            match r {
                Ok(plan) => data_path matches Some(p) && plan.data_path == p && offset
                    < data_length && plan.length == read_span(length, data_length, offset)
                    && plan.length != 0 && plan.file_position == (data_offset + offset) as u64,
                Err(ReadError::NoStoredData) => data_path is None,
                Err(ReadError::OffsetOutOfRange) => data_path is Some && offset >= data_length,
                Err(ReadError::NothingToRead) => data_path is Some && offset < data_length
                    && read_span(length, data_length, offset) == 0,
                Err(_) => false,
            }
        }),
{
    let base = parse_stored_address(&region.base_address);
    let offset = (address - base) as i64;
    let path = match data_path {
        Some(p) => p,
        None => {
            return Err(ReadError::NoStoredData);
        },
    };
    if offset >= data_length {
        return Err(ReadError::OffsetOutOfRange);
    }
    let available = (data_length - offset) as usize;
    let actual = if length < available {
        length
    } else {
        available
    };
    if actual == 0 {
        return Err(ReadError::NothingToRead);
    }
    Ok(ReadPlan { data_path: path, file_position: (data_offset + offset) as u64, length: actual })
}

/// Reading back what was stored: when a region's captured bytes were stored
/// at `stored_at` with length `stored_len` (as `record_stored` reports them),
/// a read of `length` bytes at `k` bytes past the region's base may be
/// planned, and the plan reads from file position `stored_at + k` no more
/// than the bytes that remain of that region's extent, and at least one.
pub proof fn lemma_read_back_within_extent(
    region: MemoryRegion,
    k: i64,
    length: usize,
    stored_at: i64,
    stored_len: i64,
)
    requires
        0 <= k < stored_len,
        region_base(region) + k <= u64::MAX,
        0 <= stored_at,
        stored_at + stored_len <= i64::MAX,
        stored_len <= usize::MAX,
        length > 0,
    ensures
        ({
            let address = (region_base(region) + k) as u64;
            let offset = offset_in_region(address, region_base(region));
            &&& region_base(region) <= address
            &&& read_arithmetic_fits(address, length, region, true, stored_at, stored_len)
            &&& offset == k
            &&& offset < stored_len
            &&& read_span(length, stored_len, offset) >= 1
            &&& k + read_span(length, stored_len, offset) <= stored_len
            &&& read_span(length, stored_len, offset) == if length < stored_len - k {
                length as int
            } else {
                stored_len - k
            }
            &&& (stored_at + offset) as u64 == stored_at + k
        }),
{
}

/// The result of a read at `address` that returned `data`.
pub fn read_result(address: u64, data: Vec<u8>) -> (r: MemoryReadResult)
    ensures
        r.base_address@ == hex_seq(address as nat),
        stored_address(r.base_address@) == address,
        r.length == data@.len(),
        r.data@ == data@,
        r.highlights@.len() == 0,
        r.highlight_length == 0,
{
    proof {
        lemma_address_roundtrip(address);
    }
    MemoryReadResult {
        base_address: hex_string(address),
        length: data.len(),
        data,
        highlights: Vec::new(),
        highlight_length: 0,
    }
}

// ---------------------------------------------------------------------------
// Scanning
// ---------------------------------------------------------------------------

/// After this many matches the scan of a region stops.
pub const MAX_SCAN_MATCHES: usize = 5000;

/// Parses a pattern for scanning; a pattern with no element is refused.
pub fn scan_pattern_of(pattern_str: &str) -> (r: Result<Vec<Option<u8>>, PatternError>)
    ensures
        match r {
            Ok(v) => pattern_value(pattern_str@) == Ok::<
                Seq<Option<u8>>,
                (PatternErrorKind, Seq<char>),
            >(v@) && v@.len() > 0,
            Err(e) => (e.kind == PatternErrorKind::EmptyPattern && e.text@.len() == 0
                && pattern_value(pattern_str@) == Ok::<
                Seq<Option<u8>>,
                (PatternErrorKind, Seq<char>),
            >(seq![])) || pattern_value(pattern_str@) == Err::<
                Seq<Option<u8>>,
                (PatternErrorKind, Seq<char>),
            >((e.kind, e.text@)),
        },
{
    let p = parse_pattern(pattern_str);
    match p {
        Ok(v) => {
            if v.len() == 0 {
                assert(v@ =~= seq![]);
                return Err(PatternError { kind: PatternErrorKind::EmptyPattern, text: String::new() });
            }
            Ok(v)
        },
        Err(e) => Err(e),
    }
}

/// Where the context shown around a match at `m` begins: four bytes before
/// it, or the region's start.
pub open spec fn context_start(m: int) -> int {
    if m >= 4 {
        m - 4
    } else {
        0
    }
}

/// Where the context shown around a match at `m` ends: twelve bytes past the
/// pattern's end, or the end of the data.
pub open spec fn context_end(m: int, pattern_len: int, data_len: int) -> int {
    if m + pattern_len + 12 < data_len {
        m + pattern_len + 12
    } else {
        data_len
    }
}

/// `rec` describes the match at offset `m` of a region's data.
pub open spec fn scan_match_ok(
    rec: ScanMatch,
    region: MemoryRegion,
    data: Seq<u8>,
    pattern_len: int,
    m: int,
) -> bool {
    &&& rec.address@ == hex_seq((region_base(region) + m) as nat)
    &&& rec.region_type == region.region_type
    &&& rec.module_name@ == region.module_name@
    &&& rec.offset_in_region@ == hex_seq(m as nat)
    &&& rec.context_hex@ == hex_bytes_spaced(
        data.subrange(context_start(m), context_end(m, pattern_len, data.len() as int)),
    )
}

/// How many of a region's hits are recorded when `recorded` matches are
/// already held: all of them up to `MAX_SCAN_MATCHES` in total, and always
/// at least one when there is one.
pub open spec fn hits_taken(recorded: nat, hits: nat) -> nat {
    if hits == 0 {
        0
    } else if recorded >= MAX_SCAN_MATCHES {
        1
    } else if hits < MAX_SCAN_MATCHES - recorded {
        hits
    } else {
        (MAX_SCAN_MATCHES - recorded) as nat
    }
}

/// The cap on recorded matches: a region's hits are all recorded while they
/// fit under `MAX_SCAN_MATCHES`; once a region's hits would pass the cap the
/// total stops exactly at it; a region with a hit always records at least
/// one; and nothing is recorded from a region without hits.
pub proof fn lemma_scan_cap(recorded: nat, hits: nat)
    ensures
        hits_taken(recorded, hits) <= hits,
        hits == 0 ==> hits_taken(recorded, hits) == 0,
        hits > 0 ==> hits_taken(recorded, hits) >= 1,
        recorded + hits <= MAX_SCAN_MATCHES ==> hits_taken(recorded, hits) == hits,
        recorded < MAX_SCAN_MATCHES < recorded + hits ==> recorded + hits_taken(recorded, hits)
            == MAX_SCAN_MATCHES,
        recorded >= MAX_SCAN_MATCHES && hits > 0 ==> hits_taken(recorded, hits) == 1,
{
}

/// A region's hits can be turned into addresses and context windows without
/// leaving the 64-bit range.
pub open spec fn scan_arithmetic_fits(region: MemoryRegion, data: Seq<u8>, pattern: Seq<Option<u8>>) -> bool {
    &&& data.len() + pattern.len() <= usize::MAX
    &&& forall|k: int|
        0 <= k < search_result(data, pattern).len() ==> region_base(region)
            + #[trigger] search_result(data, pattern)[k] <= u64::MAX && search_result(data, pattern)[k]
            + pattern.len() + 12 <= usize::MAX
}

/// The running state of a scan over a snapshot's regions.
pub struct ScanState {
    pub matches: Vec<ScanMatch>,
    pub regions_scanned: usize,
    pub bytes_scanned: u64,
}

impl ScanState {
    /// No region scanned, nothing found.
    pub fn new() -> (s: Self)
        ensures
            s.matches@.len() == 0,
            s.regions_scanned == 0,
            s.bytes_scanned == 0,
    {
        ScanState { matches: Vec::new(), regions_scanned: 0, bytes_scanned: 0 }
    }

    /// Scans one region's stored bytes for `pattern` and records the hits,
    /// in order, as far as `hits_taken` allows.
    pub fn scan_region(&mut self, region: &MemoryRegion, data: &[u8], pattern: &[Option<u8>])
        requires
            old(self).regions_scanned < usize::MAX,
            old(self).bytes_scanned + data@.len() <= u64::MAX,
            scan_arithmetic_fits(*region, data@, pattern@),
        ensures
            ({
                let hits = search_result(data@, pattern@);
                let taken = hits_taken(old(self).matches@.len(), hits.len());
                &&& final(self).regions_scanned == old(self).regions_scanned + 1
                &&& final(self).bytes_scanned == old(self).bytes_scanned + data@.len()
                &&& final(self).matches@.len() == old(self).matches@.len() + taken
                &&& forall|i: int|
                    0 <= i < old(self).matches@.len() ==> final(self).matches@[i] == old(
                        self,
                    ).matches@[i]
                &&& forall|j: int|
                    0 <= j < taken ==> scan_match_ok(
                        #[trigger] final(self).matches@[old(self).matches@.len() + j],
                        *region,
                        data@,
                        pattern@.len() as int,
                        hits[j] as int,
                    ) && matches_at(data@, pattern@, hits[j] as int)
                &&& forall|j: int|
                    0 <= j < taken ==> stored_address(
                        (#[trigger] final(self).matches@[old(self).matches@.len() + j]).address@,
                    ) == region_base(*region) + hits[j] && stored_address(
                        final(self).matches@[old(self).matches@.len() + j].offset_in_region@,
                    ) == hits[j]
            }),
    {
        let ghost old_matches = self.matches@;
        self.regions_scanned = self.regions_scanned + 1;
        self.bytes_scanned = self.bytes_scanned + data.len() as u64;
        let base = parse_stored_address(&region.base_address);
        let hits = search_pattern(data, pattern);
        let ghost taken = hits_taken(old_matches.len(), hits@.len());
        let mut j: usize = 0;
        while j < hits.len()
            invariant_except_break
                j <= hits@.len(),
                hits@ == search_result(data@, pattern@),
                base == region_base(*region),
                scan_arithmetic_fits(*region, data@, pattern@),
                self.matches@.len() == old_matches.len() + j,
                j > 0 ==> old_matches.len() + j < MAX_SCAN_MATCHES,
                j <= taken,
                taken == hits_taken(old_matches.len(), hits@.len()),
                self.regions_scanned == old(self).regions_scanned + 1,
                self.bytes_scanned == old(self).bytes_scanned + data@.len(),
                forall|k: int| 0 <= k < hits@.len() ==> matches_at(data@, pattern@, #[trigger] hits@[k] as int),
                forall|i: int| 0 <= i < old_matches.len() ==> self.matches@[i] == old_matches[i],
                forall|k: int|
                    0 <= k < j ==> scan_match_ok(
                        #[trigger] self.matches@[old_matches.len() + k],
                        *region,
                        data@,
                        pattern@.len() as int,
                        hits@[k] as int,
                    ),
            ensures
                hits@ == search_result(data@, pattern@),
                forall|k: int| 0 <= k < hits@.len() ==> matches_at(data@, pattern@, #[trigger] hits@[k] as int),
                self.regions_scanned == old(self).regions_scanned + 1,
                self.bytes_scanned == old(self).bytes_scanned + data@.len(),
                self.matches@.len() == old_matches.len() + taken,
                forall|i: int| 0 <= i < old_matches.len() ==> self.matches@[i] == old_matches[i],
                forall|k: int|
                    0 <= k < taken ==> scan_match_ok(
                        #[trigger] self.matches@[old_matches.len() + k],
                        *region,
                        data@,
                        pattern@.len() as int,
                        hits@[k] as int,
                    ),
            decreases hits.len() - j,
        {
            let m = hits[j];
            let match_addr = base + m as u64;
            let start_ctx = if m >= 4 {
                m - 4
            } else {
                0
            };
            let end_ctx = if m + pattern.len() + 12 < data.len() {
                m + pattern.len() + 12
            } else {
                data.len()
            };
            let ctx = copy_slice(data, start_ctx, end_ctx);
            let rec = ScanMatch {
                address: hex_string(match_addr),
                region_type: region.region_type,
                module_name: region.module_name.clone(),
                offset_in_region: hex_string(m as u64),
                context_hex: hex_bytes_string(ctx.as_slice()),
            };
            let ghost before = self.matches@;
            self.matches.push(rec);
            assert(self.matches@[old_matches.len() + j] == rec);
            assert forall|i: int| 0 <= i < old_matches.len() implies self.matches@[i]
                == old_matches[i] by {
                assert(self.matches@[i] == before[i]);
            }
            assert forall|k: int| 0 <= k < j + 1 implies scan_match_ok(
                #[trigger] self.matches@[old_matches.len() + k],
                *region,
                data@,
                pattern@.len() as int,
                hits@[k] as int,
            ) by {
                if k < j {
                    assert(self.matches@[old_matches.len() + k] == before[old_matches.len() + k]);
                }
            }
            j += 1;
            if self.matches.len() >= MAX_SCAN_MATCHES {
                break;
            }
        }
        proof {
            assert forall|j: int| 0 <= j < taken implies {
                let rec = #[trigger] self.matches@[old_matches.len() + j];
                &&& stored_address(rec.address@) == region_base(*region) + hits@[j]
                &&& stored_address(rec.offset_in_region@) == hits@[j]
            } by {
                let m = hits@[j];
                assert(region_base(*region) + search_result(data@, pattern@)[j] <= u64::MAX);
                lemma_address_roundtrip((region_base(*region) + m) as u64);
                lemma_address_roundtrip(m as u64);
            }
        }
    }

    /// The result of the scan, with the time it took.
    pub fn finish(self, elapsed_ms: u128) -> (r: ScanResult)
        ensures
            r.matches@ == self.matches@,
            r.total_matches == self.matches@.len(),
            r.regions_scanned == self.regions_scanned,
            r.bytes_scanned == self.bytes_scanned,
            r.elapsed_ms == elapsed_ms,
            r.regions_skipped_no_access == 0,
            r.regions_skipped_guard == 0,
    {
        let total = self.matches.len();
        ScanResult {
            matches: self.matches,
            total_matches: total,
            regions_scanned: self.regions_scanned,
            bytes_scanned: self.bytes_scanned,
            elapsed_ms,
            regions_skipped_no_access: 0,
            regions_skipped_guard: 0,
        }
    }
}

/// The bytes of `data` from `lo` (inclusive) to `hi` (exclusive).
fn copy_slice(data: &[u8], lo: usize, hi: usize) -> (r: Vec<u8>)
    requires
        lo <= hi <= data@.len(),
    ensures
        r@ == data@.subrange(lo as int, hi as int),
{
    let mut r: Vec<u8> = Vec::new();
    let mut i: usize = lo;
    while i < hi
        invariant
            lo <= i <= hi <= data@.len(),
            r@ == data@.subrange(lo as int, i as int),
        decreases hi - i,
    {
        r.push(data[i]);
        i += 1;
    }
    r
}

} // verus!
