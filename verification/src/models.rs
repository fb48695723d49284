//! The records the analyzer produces and exchanges.

use vstd::prelude::*;

verus! {

/// What a memory region is used for.
#[derive(Clone, Copy, Debug, PartialEq, Eq, Structural)]
pub enum RegionType {
    Image,
    Heap,
    Stack,
    Private,
    Mapped,
    Other,
}

/// One region of a process's address space, as recorded in a snapshot.
#[derive(Clone, Debug)]
pub struct MemoryRegion {
    pub id: i64,
    pub snapshot_id: i64,
    pub region_type: RegionType,
    /// Base address in upper-case hexadecimal.
    pub base_address: String,
    pub region_size: i64,
    pub protection: String,
    pub state: String,
    pub type_info: String,
    pub module_name: String,
    pub details: String,
    pub has_data: bool,
    pub is_readable: bool,
    pub is_writable: bool,
}

/// Bytes read back from a snapshot.
#[derive(Clone, Debug)]
pub struct MemoryReadResult {
    /// The address read from, in upper-case hexadecimal.
    pub base_address: String,
    pub length: usize,
    pub data: Vec<u8>,
    pub highlights: Vec<usize>,
    pub highlight_length: usize,
}

/// One place where a pattern was found.
#[derive(Clone, Debug)]
pub struct ScanMatch {
    /// Absolute address of the match, upper-case hexadecimal.
    pub address: String,
    pub region_type: RegionType,
    pub module_name: String,
    /// Offset of the match inside its region, upper-case hexadecimal.
    pub offset_in_region: String,
    /// The bytes around the match as spaced two-digit hexadecimal.
    pub context_hex: String,
}

/// The outcome of scanning a snapshot for a pattern.
#[derive(Clone, Debug)]
pub struct ScanResult {
    pub matches: Vec<ScanMatch>,
    pub total_matches: usize,
    pub regions_scanned: usize,
    pub bytes_scanned: u64,
    pub elapsed_ms: u128,
    pub regions_skipped_no_access: usize,
    pub regions_skipped_guard: usize,
}

/// Progress of a running scan.
#[derive(Clone, Debug)]
pub struct ScanProgress {
    pub current: usize,
    pub total: usize,
    pub percent: u32,
    pub current_region: String,
    pub bytes_scanned: u64,
    pub matches_found: usize,
}

/// Whether the analyzer can inspect a process, and what to do if not.
#[derive(Clone, Debug)]
pub struct PrivilegeCheckResult {
    pub is_admin: bool,
    pub can_open_process: bool,
    pub suggested_action: String,
}

/// How a region differs between two snapshots.
#[derive(Clone, Copy, Debug, PartialEq, Eq, Structural)]
pub enum DiffChangeType {
    Modified,
    Added,
    Removed,
}

/// One byte that differs between two snapshots.
#[derive(Clone, Debug)]
pub struct DiffByte {
    pub offset_in_region: u64,
    pub absolute_address: String,
    pub old_value: Option<u8>,
    pub new_value: Option<u8>,
}

/// One change seen while monitoring a process.
#[derive(Clone, Debug)]
pub struct MonitorLogEntry {
    pub timestamp: i64,
    pub cycle_index: usize,
    pub base_address: String,
    pub region_type: RegionType,
    pub module_name: String,
    pub change_type: DiffChangeType,
    pub offset_in_region: u64,
    pub absolute_address: String,
    pub old_value: Option<u8>,
    pub new_value: Option<u8>,
}

/// The state of the process monitor.
#[derive(Clone, Debug)]
pub struct MonitorStatus {
    pub is_running: bool,
    pub pid: Option<u32>,
    pub process_name: Option<String>,
    pub started_at: Option<i64>,
    pub current_cycle: usize,
    pub interval_ms: u64,
    pub total_changes: usize,
    pub log_entry_count: usize,
    pub last_error: Option<String>,
}

/// What one monitoring cycle found.
#[derive(Clone, Debug)]
pub struct MonitorCycleEvent {
    pub cycle_index: usize,
    pub timestamp: i64,
    pub duration_ms: u64,
    pub changes_found: usize,
    pub total_changes_so_far: usize,
}

/// A stored snapshot. The size in mebibytes that the user sees is derived
/// from `total_size_bytes` where the record is presented.
#[derive(Clone, Debug)]
pub struct SnapshotInfo {
    pub id: i64,
    pub pid: u32,
    pub process_name: String,
    pub process_path: String,
    pub total_size_bytes: i64,
    pub region_count: i64,
    pub created_at: i64,
}

} // verus!
