//! Describing memory regions: their type names as stored, their protection,
//! state and type texts, how regions are classified when a process is
//! enumerated, and how stored rows become region records.

use vstd::prelude::*;
use crate::models::{MemoryRegion, RegionType};
use crate::pattern::{lemma_address_roundtrip, parse_stored_address, stored_address};
use crate::text::{
    chars_equal, contains_chars, contains_seq, dec_chars, dec_seq, hex_seq, hex_string, occurs_at,
    str_chars,
};

verus! {

// ---------------------------------------------------------------------------
// Region type names
// ---------------------------------------------------------------------------

/// The name under which a region type is stored.
pub open spec fn region_type_name(t: RegionType) -> Seq<char> {
    match t {
        RegionType::Image => "image"@,
        RegionType::Heap => "heap"@,
        RegionType::Stack => "stack"@,
        RegionType::Private => "private"@,
        RegionType::Mapped => "mapped"@,
        RegionType::Other => "other"@,
    }
}

/// The region type a stored name denotes; unknown names denote `Other`.
pub open spec fn region_type_of_name(s: Seq<char>) -> RegionType {
    if s == "image"@ {
        RegionType::Image
    } else if s == "heap"@ {
        RegionType::Heap
    } else if s == "stack"@ {
        RegionType::Stack
    } else if s == "private"@ {
        RegionType::Private
    } else if s == "mapped"@ {
        RegionType::Mapped
    } else {
        RegionType::Other
    }
}

/// The name under which a region type is stored.
pub fn region_type_to_str(t: &RegionType) -> (s: &'static str)
    ensures
        s@ == region_type_name(*t),
{
    match t {
        RegionType::Image => "image",
        RegionType::Heap => "heap",
        RegionType::Stack => "stack",
        RegionType::Private => "private",
        RegionType::Mapped => "mapped",
        RegionType::Other => "other",
    }
}

/// The region type a stored name denotes.
pub fn str_to_region_type(s: &str) -> (t: RegionType)
    ensures
        t == region_type_of_name(s@),
{
    let c = str_chars(s);
    if chars_equal(&c, &str_chars("image")) {
        RegionType::Image
    } else if chars_equal(&c, &str_chars("heap")) {
        RegionType::Heap
    } else if chars_equal(&c, &str_chars("stack")) {
        RegionType::Stack
    } else if chars_equal(&c, &str_chars("private")) {
        RegionType::Private
    } else if chars_equal(&c, &str_chars("mapped")) {
        RegionType::Mapped
    } else {
        RegionType::Other
    }
}

/// A region type survives being stored by name and read back.
pub proof fn lemma_region_type_name_roundtrip(t: RegionType)
    ensures
        region_type_of_name(region_type_name(t)) == t,
{
    reveal_strlit("image");
    reveal_strlit("heap");
    reveal_strlit("stack");
    reveal_strlit("private");
    reveal_strlit("mapped");
    reveal_strlit("other");
    let image = "image"@;
    let heap = "heap"@;
    let stack = "stack"@;
    let private = "private"@;
    let mapped = "mapped"@;
    let other = "other"@;
    assert(heap.len() != image.len());
    assert(stack[0] != image[0]);
    assert(stack.len() != heap.len());
    assert(private.len() != image.len() && private.len() != heap.len() && private.len()
        != stack.len());
    assert(mapped.len() != image.len() && mapped.len() != heap.len() && mapped.len()
        != stack.len() && mapped.len() != private.len());
    assert(other[0] != image[0] && other.len() != heap.len() && other[0] != stack[0]
        && other.len() != private.len() && other.len() != mapped.len());
}

// ---------------------------------------------------------------------------
// Protection text
// ---------------------------------------------------------------------------

/// Protection text says the region cannot be accessed at all.
pub open spec fn protection_blocks_access(p: Seq<char>) -> bool {
    contains_seq(p, "NOA"@) || contains_seq(p, "GUARD"@)
}

/// Protection text grants reading.
pub open spec fn protection_readable(p: Seq<char>) -> bool {
    &&& !protection_blocks_access(p)
    &&& {
        ||| contains_seq(p, "R--"@)
        ||| contains_seq(p, "RW-"@)
        ||| contains_seq(p, "R-X"@)
        ||| contains_seq(p, "RWX"@)
        ||| contains_seq(p, "RWC"@)
        ||| contains_seq(p, "RWXC"@)
    }
}

/// Protection text grants writing.
pub open spec fn protection_writable(p: Seq<char>) -> bool {
    &&& !protection_blocks_access(p)
    &&& {
        ||| contains_seq(p, "RW-"@)
        ||| contains_seq(p, "RWX"@)
        ||| contains_seq(p, "RWC"@)
        ||| contains_seq(p, "RWXC"@)
    }
}

/// Whether `p` contains the literal `needle`.
fn contains_lit(p: &Vec<char>, needle: &str) -> (r: bool)
    ensures
        r == contains_seq(p@, needle@),
{
    contains_chars(p, &str_chars(needle))
}

/// Whether protection text grants reading.
pub fn parse_readable_from_protection(prot: &str) -> (r: bool)
    ensures
        r == protection_readable(prot@),
{
    let p = str_chars(prot);
    if contains_lit(&p, "NOA") || contains_lit(&p, "GUARD") {
        return false;
    }
    contains_lit(&p, "R--") || contains_lit(&p, "RW-") || contains_lit(&p, "R-X") || contains_lit(
        &p,
        "RWX",
    ) || contains_lit(&p, "RWC") || contains_lit(&p, "RWXC")
}

/// Whether protection text grants writing.
pub fn parse_writable_from_protection(prot: &str) -> (r: bool)
    ensures
        r == protection_writable(prot@),
{
    let p = str_chars(prot);
    if contains_lit(&p, "NOA") || contains_lit(&p, "GUARD") {
        return false;
    }
    contains_lit(&p, "RW-") || contains_lit(&p, "RWX") || contains_lit(&p, "RWC") || contains_lit(
        &p,
        "RWXC",
    )
}

/// Whatever protection text grants writing also grants reading.
pub proof fn lemma_writable_implies_readable(p: Seq<char>)
    ensures
        protection_writable(p) ==> protection_readable(p),
{
}

// ---------------------------------------------------------------------------
// Windows memory constants (values of the Windows ABI)
// ---------------------------------------------------------------------------

pub const PAGE_NOACCESS: u32 = 0x01;
pub const PAGE_READONLY: u32 = 0x02;
pub const PAGE_READWRITE: u32 = 0x04;
pub const PAGE_WRITECOPY: u32 = 0x08;
pub const PAGE_EXECUTE: u32 = 0x10;
pub const PAGE_EXECUTE_READ: u32 = 0x20;
pub const PAGE_EXECUTE_READWRITE: u32 = 0x40;
pub const PAGE_EXECUTE_WRITECOPY: u32 = 0x80;
pub const PAGE_GUARD: u32 = 0x100;
pub const PAGE_NOCACHE: u32 = 0x200;
pub const PAGE_WRITECOMBINE: u32 = 0x400;
pub const MEM_COMMIT: u32 = 0x1000;
pub const MEM_RESERVE: u32 = 0x2000;
pub const MEM_FREE: u32 = 0x10000;
pub const MEM_PRIVATE: u32 = 0x20000;
pub const MEM_MAPPED: u32 = 0x40000;
pub const MEM_IMAGE: u32 = 0x1000000;

// ---------------------------------------------------------------------------
// Protection, state and type texts
// ---------------------------------------------------------------------------

/// The name of a basic page protection (the low byte of a protection value).
pub open spec fn protection_base_name(base: u32) -> Seq<char> {
    if base == PAGE_EXECUTE {
        "--X"@
    } else if base == PAGE_EXECUTE_READ {
        "R-X"@
    } else if base == PAGE_EXECUTE_READWRITE {
        "RWX"@
    } else if base == PAGE_EXECUTE_WRITECOPY {
        "RWXC"@
    } else if base == PAGE_NOACCESS {
        "NOA"@
    } else if base == PAGE_READONLY {
        "R--"@
    } else if base == PAGE_READWRITE {
        "RW-"@
    } else if base == PAGE_WRITECOPY {
        "RWC"@
    } else {
        "???"@
    }
}

/// The text of a protection value: its basic protection, then `|GUARD`,
/// `|NC` and `|WC` for the modifier flags that are set.
pub open spec fn protection_text(prot: u32) -> Seq<char> {
    protection_base_name(prot & 0xFF) + (if prot & PAGE_GUARD != 0 {
        "|GUARD"@
    } else {
        seq![]
    }) + (if prot & PAGE_NOCACHE != 0 {
        "|NC"@
    } else {
        seq![]
    }) + (if prot & PAGE_WRITECOMBINE != 0 {
        "|WC"@
    } else {
        seq![]
    })
}

/// The protection value lets the region be read: a readable basic
/// protection and no guard page.
pub open spec fn protection_grants_read(prot: u32) -> bool {
    let b = prot & 0xFF;
    &&& b == PAGE_READONLY || b == PAGE_READWRITE || b == PAGE_WRITECOPY || b == PAGE_EXECUTE_READ
        || b == PAGE_EXECUTE_READWRITE || b == PAGE_EXECUTE_WRITECOPY
    &&& prot & PAGE_GUARD == 0
}

/// The protection value lets the region be written: a writable basic
/// protection and no guard page.
pub open spec fn protection_grants_write(prot: u32) -> bool {
    let b = prot & 0xFF;
    &&& b == PAGE_READWRITE || b == PAGE_WRITECOPY || b == PAGE_EXECUTE_READWRITE || b
        == PAGE_EXECUTE_WRITECOPY
    &&& prot & PAGE_GUARD == 0
}

/// A needle without `|` occurs in `x | y` exactly when it occurs in `x` or in `y`.
proof fn lemma_contains_split(x: Seq<char>, y: Seq<char>, n: Seq<char>)
    requires
        n.len() > 0,
        forall|k: int| 0 <= k < n.len() ==> n[k] != '|',
    ensures
        contains_seq(x + seq!['|'] + y, n) == (contains_seq(x, n) || contains_seq(y, n)),
{
    let z = x + seq!['|'] + y;
    if contains_seq(x, n) {
        let i = choose|i: int| occurs_at(x, n, i);
        assert(z.subrange(i, i + n.len()) =~= x.subrange(i, i + n.len()));
        assert(occurs_at(z, n, i));
    }
    if contains_seq(y, n) {
        let i = choose|i: int| occurs_at(y, n, i);
        let j = i + x.len() + 1;
        assert(z.subrange(j, j + n.len()) =~= y.subrange(i, i + n.len()));
        assert(occurs_at(z, n, j));
    }
    if contains_seq(z, n) {
        let i = choose|i: int| occurs_at(z, n, i);
        if i + n.len() <= x.len() {
            assert(x.subrange(i, i + n.len()) =~= z.subrange(i, i + n.len()));
            assert(occurs_at(x, n, i));
        } else if i >= x.len() + 1 {
            let j = i - x.len() - 1;
            assert(y.subrange(j, j + n.len()) =~= z.subrange(i, i + n.len()));
            assert(occurs_at(y, n, j));
        } else {
            let k = x.len() - i;
            assert(z.subrange(i, i + n.len())[k] == z[x.len() as int]);
            assert(n[k] == '|');
        }
    }
}

/// Occurrence in a text at most one character longer than the needle.
proof fn lemma_contains_short(x: Seq<char>, n: Seq<char>)
    ensures
        n.len() > x.len() ==> !contains_seq(x, n),
        n.len() == x.len() ==> (contains_seq(x, n) == (x == n)),
        n.len() + 1 == x.len() ==> (contains_seq(x, n) == (x.take(n.len() as int) == n
            || x.skip(1) == n)),
{
    if n.len() == x.len() && x == n {
        assert(x.subrange(0, n.len() as int) =~= x);
        assert(occurs_at(x, n, 0));
    }
    if n.len() + 1 == x.len() {
        if x.take(n.len() as int) == n {
            assert(occurs_at(x, n, 0));
        }
        if x.skip(1) == n {
            assert(x.subrange(1, 1 + n.len() as int) =~= x.skip(1));
            assert(occurs_at(x, n, 1));
        }
        if contains_seq(x, n) {
            let i = choose|i: int| occurs_at(x, n, i);
            if i == 0 {
                assert(x.take(n.len() as int) =~= x.subrange(0, n.len() as int));
            } else {
                assert(x.skip(1) =~= x.subrange(1, 1 + n.len() as int));
            }
        }
    }
    if n.len() == x.len() && contains_seq(x, n) {
        let i = choose|i: int| occurs_at(x, n, i);
        assert(x.subrange(0, n.len() as int) =~= x);
    }
}

/// Whether a needle occurs in a protection text is decided by the basic
/// protection's name and the modifier words that are present.
proof fn lemma_protection_text_contains(prot: u32, n: Seq<char>)
    requires
        n.len() > 0,
        forall|k: int| 0 <= k < n.len() ==> n[k] != '|',
    ensures
        contains_seq(protection_text(prot), n) == (contains_seq(
            protection_base_name(prot & 0xFF),
            n,
        ) || (prot & PAGE_GUARD != 0 && contains_seq("GUARD"@, n)) || (prot & PAGE_NOCACHE != 0
            && contains_seq("NC"@, n)) || (prot & PAGE_WRITECOMBINE != 0 && contains_seq(
            "WC"@,
            n,
        ))),
{
    reveal_strlit("|GUARD");
    reveal_strlit("GUARD");
    reveal_strlit("|NC");
    reveal_strlit("NC");
    reveal_strlit("|WC");
    reveal_strlit("WC");
    let b = protection_base_name(prot & 0xFF);
    let g = if prot & PAGE_GUARD != 0 {
        "|GUARD"@
    } else {
        seq![]
    };
    let c = if prot & PAGE_NOCACHE != 0 {
        "|NC"@
    } else {
        seq![]
    };
    let w = if prot & PAGE_WRITECOMBINE != 0 {
        "|WC"@
    } else {
        seq![]
    };
    let x1 = b + g;
    let x2 = x1 + c;
    let x3 = x2 + w;
    assert(protection_text(prot) == x3);
    if prot & PAGE_GUARD != 0 {
        assert(x1 =~= b + seq!['|'] + "GUARD"@);
        lemma_contains_split(b, "GUARD"@, n);
    } else {
        assert(x1 =~= b);
    }
    if prot & PAGE_NOCACHE != 0 {
        assert(x2 =~= x1 + seq!['|'] + "NC"@);
        lemma_contains_split(x1, "NC"@, n);
    } else {
        assert(x2 =~= x1);
    }
    if prot & PAGE_WRITECOMBINE != 0 {
        assert(x3 =~= x2 + seq!['|'] + "WC"@);
        lemma_contains_split(x2, "WC"@, n);
    } else {
        assert(x3 =~= x2);
    }
}

/// One of the texts that decide access when found in protection text.
pub open spec fn is_access_needle(n: Seq<char>) -> bool {
    n == "NOA"@ || n == "GUARD"@ || n == "R--"@ || n == "RW-"@ || n == "R-X"@ || n == "RWX"@ || n
        == "RWC"@ || n == "RWXC"@
}

/// The modifier words hold no access needle but `GUARD` itself.
proof fn lemma_modifier_words(n: Seq<char>)
    requires
        is_access_needle(n),
    ensures
        contains_seq("GUARD"@, n) == (n == "GUARD"@),
        !contains_seq("NC"@, n),
        !contains_seq("WC"@, n),
        n.len() > 0,
        forall|k: int| 0 <= k < n.len() ==> n[k] != '|',
{
    reveal_strlit("NOA");
    reveal_strlit("GUARD");
    reveal_strlit("NC");
    reveal_strlit("WC");
    reveal_strlit("R--");
    reveal_strlit("RW-");
    reveal_strlit("R-X");
    reveal_strlit("RWX");
    reveal_strlit("RWC");
    reveal_strlit("RWXC");
    lemma_contains_short("NC"@, n);
    lemma_contains_short("WC"@, n);
    lemma_contains_short("GUARD"@, n);
    if n.len() < 5 && contains_seq("GUARD"@, n) {
        let j = choose|j: int| occurs_at("GUARD"@, n, j);
        assert("GUARD"@.subrange(j, j + n.len())[0] == "GUARD"@[j]);
        assert(n[0] == 'N' || n[0] == 'R');
    }
}

/// The name of a basic protection holds an access needle exactly when it
/// is that needle, or is `RWXC` holding `RWX`.
proof fn lemma_base_name_contains(b: Seq<char>, n: Seq<char>)
    requires
        is_access_needle(n),
        b == "--X"@ || b == "R-X"@ || b == "RWX"@ || b == "RWXC"@ || b == "NOA"@ || b == "R--"@
            || b == "RW-"@ || b == "RWC"@ || b == "???"@,
    ensures
        contains_seq(b, n) == (b == n || (b == "RWXC"@ && n == "RWX"@)),
{
    reveal_strlit("NOA");
    reveal_strlit("GUARD");
    reveal_strlit("R--");
    reveal_strlit("RW-");
    reveal_strlit("R-X");
    reveal_strlit("RWX");
    reveal_strlit("RWC");
    reveal_strlit("RWXC");
    reveal_strlit("--X");
    reveal_strlit("???");
    lemma_contains_short(b, n);
    if b == "RWXC"@ && n.len() == 3 {
        assert(b.take(3) =~= "RWX"@);
        assert(b.skip(1) =~= seq!['W', 'X', 'C']);
        assert(n[0] != 'W');
    }
}

/// How one of the access needles occurs in a protection text.
proof fn lemma_needle_in_protection_text(prot: u32, n: Seq<char>)
    requires
        is_access_needle(n),
    ensures
        contains_seq(protection_text(prot), n) == ((protection_base_name(prot & 0xFF) == n || (
        protection_base_name(prot & 0xFF) == "RWXC"@ && n == "RWX"@)) || (prot & PAGE_GUARD != 0
            && n == "GUARD"@)),
{
    lemma_modifier_words(n);
    lemma_protection_text_contains(prot, n);
    lemma_base_name_contains(protection_base_name(prot & 0xFF), n);
}

/// Protection text grants reading exactly when the protection value does,
/// and writing likewise: the text the enumerator writes and the parsing
/// applied when regions are read back agree.
pub proof fn lemma_protection_text_access(prot: u32)
    ensures
        protection_readable(protection_text(prot)) == protection_grants_read(prot),
        protection_writable(protection_text(prot)) == protection_grants_write(prot),
{
    reveal_strlit("NOA");
    reveal_strlit("GUARD");
    reveal_strlit("R--");
    reveal_strlit("RW-");
    reveal_strlit("R-X");
    reveal_strlit("RWX");
    reveal_strlit("RWC");
    reveal_strlit("RWXC");
    reveal_strlit("--X");
    reveal_strlit("???");
    lemma_needle_in_protection_text(prot, "NOA"@);
    lemma_needle_in_protection_text(prot, "GUARD"@);
    lemma_needle_in_protection_text(prot, "R--"@);
    lemma_needle_in_protection_text(prot, "RW-"@);
    lemma_needle_in_protection_text(prot, "R-X"@);
    lemma_needle_in_protection_text(prot, "RWX"@);
    lemma_needle_in_protection_text(prot, "RWC"@);
    lemma_needle_in_protection_text(prot, "RWXC"@);
    let base = prot & 0xFF;
    let b = protection_base_name(base);
    let names = seq!["--X"@, "R-X"@, "RWX"@, "RWXC"@, "NOA"@, "R--"@, "RW-"@, "RWC"@, "???"@];
    assert forall|i: int, j: int|
        0 <= i < names.len() && 0 <= j < names.len() && i != j implies #[trigger] names[i]
        != #[trigger] names[j] by {
        if names[i].len() == names[j].len() {
            if names[i][0] == names[j][0] {
                if names[i][1] == names[j][1] {
                    assert(names[i][2] != names[j][2]);
                }
            }
        }
    }
    assert("GUARD"@.len() != b.len());
    if base == PAGE_EXECUTE {
        assert(b == names[0]);
    } else if base == PAGE_EXECUTE_READ {
        assert(b == names[1]);
    } else if base == PAGE_EXECUTE_READWRITE {
        assert(b == names[2]);
    } else if base == PAGE_EXECUTE_WRITECOPY {
        assert(b == names[3]);
    } else if base == PAGE_NOACCESS {
        assert(b == names[4]);
    } else if base == PAGE_READONLY {
        assert(b == names[5]);
    } else if base == PAGE_READWRITE {
        assert(b == names[6]);
    } else if base == PAGE_WRITECOPY {
        assert(b == names[7]);
    } else {
        assert(b == names[8]);
    }
    assert(names[0] != names[1] && names[0] != names[2] && names[0] != names[3] && names[0]
        != names[4] && names[0] != names[5] && names[0] != names[6] && names[0] != names[7]);
    assert(names[8] != names[1] && names[8] != names[2] && names[8] != names[3] && names[8]
        != names[4] && names[8] != names[5] && names[8] != names[6] && names[8] != names[7]);
    assert(names[1] != names[2] && names[1] != names[3] && names[1] != names[4] && names[1]
        != names[5] && names[1] != names[6] && names[1] != names[7]);
    assert(names[2] != names[3] && names[2] != names[4] && names[2] != names[5] && names[2]
        != names[6] && names[2] != names[7]);
    assert(names[3] != names[4] && names[3] != names[5] && names[3] != names[6] && names[3]
        != names[7]);
    assert(names[4] != names[5] && names[4] != names[6] && names[4] != names[7]);
    assert(names[5] != names[6] && names[5] != names[7]);
    assert(names[6] != names[7]);
}

/// The text of a protection value.
pub fn protection_to_string(prot: u32) -> (s: String)
    ensures
        s@ == protection_text(prot),
{
    let base = prot & 0xFF;
    let mut s = if base == PAGE_EXECUTE {
        String::from_str("--X")
    } else if base == PAGE_EXECUTE_READ {
        String::from_str("R-X")
    } else if base == PAGE_EXECUTE_READWRITE {
        String::from_str("RWX")
    } else if base == PAGE_EXECUTE_WRITECOPY {
        String::from_str("RWXC")
    } else if base == PAGE_NOACCESS {
        String::from_str("NOA")
    } else if base == PAGE_READONLY {
        String::from_str("R--")
    } else if base == PAGE_READWRITE {
        String::from_str("RW-")
    } else if base == PAGE_WRITECOPY {
        String::from_str("RWC")
    } else {
        String::from_str("???")
    };
    let ghost s0 = s@;
    if prot & PAGE_GUARD != 0 {
        s.append("|GUARD");
    }
    let ghost s1 = s@;
    assert(s1 == s0 + (if prot & PAGE_GUARD != 0 { "|GUARD"@ } else { seq![] }));
    if prot & PAGE_NOCACHE != 0 {
        s.append("|NC");
    }
    let ghost s2 = s@;
    assert(s2 == s1 + (if prot & PAGE_NOCACHE != 0 { "|NC"@ } else { seq![] }));
    if prot & PAGE_WRITECOMBINE != 0 {
        s.append("|WC");
    }
    assert(s@ == s2 + (if prot & PAGE_WRITECOMBINE != 0 { "|WC"@ } else { seq![] }));
    s
}

/// `Unknown(n)` for a value without a name.
pub open spec fn unknown_text(n: u32) -> Seq<char> {
    "Unknown("@ + dec_seq(n as nat) + ")"@
}

/// `Unknown(n)`.
fn unknown_string(n: u32) -> (s: String)
    ensures
        s@ == unknown_text(n),
{
    let mut s = String::from_str("Unknown(");
    let digits = crate::text::string_from_chars(&dec_chars(n as u64));
    s.append(digits.as_str());
    s.append(")");
    s
}

/// The text of an allocation state.
pub open spec fn state_text(state: u32) -> Seq<char> {
    if state == MEM_COMMIT {
        "Commit"@
    } else if state == MEM_FREE {
        "Free"@
    } else if state == MEM_RESERVE {
        "Reserve"@
    } else {
        unknown_text(state)
    }
}

/// The text of an allocation state.
pub fn state_to_string(state: u32) -> (s: String)
    ensures
        s@ == state_text(state),
{
    if state == MEM_COMMIT {
        String::from_str("Commit")
    } else if state == MEM_FREE {
        String::from_str("Free")
    } else if state == MEM_RESERVE {
        String::from_str("Reserve")
    } else {
        unknown_string(state)
    }
}

/// The text of a region's backing type.
pub open spec fn type_info_text(t: u32) -> Seq<char> {
    if t == MEM_IMAGE {
        "Image"@
    } else if t == MEM_MAPPED {
        "Mapped"@
    } else if t == MEM_PRIVATE {
        "Private"@
    } else {
        unknown_text(t)
    }
}

/// The text of a region's backing type.
pub fn type_info_to_string(t: u32) -> (s: String)
    ensures
        s@ == type_info_text(t),
{
    if t == MEM_IMAGE {
        String::from_str("Image")
    } else if t == MEM_MAPPED {
        String::from_str("Mapped")
    } else if t == MEM_PRIVATE {
        String::from_str("Private")
    } else {
        unknown_string(t)
    }
}

/// A base address as text: upper-case hexadecimal without prefix.
pub fn base_address_string(addr: u64) -> (s: String)
    ensures
        s@ == hex_seq(addr as nat),
        stored_address(s@) == addr,
{
    proof {
        lemma_address_roundtrip(addr);
    }
    hex_string(addr)
}

// ---------------------------------------------------------------------------
// Classifying enumerated regions
// ---------------------------------------------------------------------------

/// What the operating system reports about one region of address space.
#[derive(Clone, Copy, Debug)]
pub struct BasicInfo {
    pub base: u64,
    pub size: i64,
    pub state: u32,
    pub protect: u32,
    pub mem_type: u32,
}

/// A module loaded in a process: where it starts and its file name.
#[derive(Clone, Debug)]
pub struct ModuleInfo {
    pub base: u64,
    pub size: u64,
    pub name: String,
}

/// Some module starts exactly at `base`.
pub open spec fn is_module_base(base: u64, modules: Seq<ModuleInfo>) -> bool {
    exists|i: int| 0 <= i < modules.len() && (#[trigger] modules[i]).base == base
}

/// The region looks like a thread stack: a guard page, or small read-write
/// memory in the low or the very high part of the address space.
pub open spec fn likely_stack(base: u64, size: i64, info: BasicInfo) -> bool {
    ||| info.protect & PAGE_GUARD != 0
    ||| {
        &&& info.protect & 0xFF == PAGE_READWRITE
        &&& size <= 0x200000
        &&& {
            ||| base & 0xFFFF_FFFF_0000_0000 == 0
            ||| base & 0xFFFF_FFFF_0000_0000 == 0x7FF0_0000_0000_0000
        }
    }
}

/// The region looks like heap memory: private, read-write or write-copy.
pub open spec fn likely_heap(info: BasicInfo) -> bool {
    &&& (info.protect & 0xFF == PAGE_READWRITE || info.protect & 0xFF == PAGE_WRITECOPY)
    &&& info.mem_type == MEM_PRIVATE
}

/// The type of region the enumerator assigns.
pub open spec fn region_class(base: u64, size: i64, info: BasicInfo, modules: Seq<ModuleInfo>) -> RegionType {
    if info.mem_type == MEM_IMAGE || is_module_base(base, modules) {
        RegionType::Image
    } else if info.mem_type == MEM_MAPPED {
        RegionType::Mapped
    } else if info.protect & PAGE_GUARD != 0 || likely_stack(base, size, info) {
        RegionType::Stack
    } else if likely_heap(info) {
        RegionType::Heap
    } else {
        RegionType::Private
    }
}

/// How the enumerator classifies a region, stated from the region's own
/// fields: image-backed memory and memory starting at a module's base is
/// Image; otherwise mapped memory is Mapped; otherwise guarded memory, and
/// read-write memory of at most 2 MiB whose address has its upper 32 bits
/// all clear or equal to 0x7FF0_0000, is Stack; otherwise private memory
/// whose basic protection (the low byte) is read-write or write-copy is
/// Heap; everything else (executable, read-only, no-access, ...) is Private.
pub proof fn lemma_region_classification(
    base: u64,
    size: i64,
    info: BasicInfo,
    modules: Seq<ModuleInfo>,
)
    ensures
        ({
            let prot = info.protect & 0xFF;
            let image = info.mem_type == MEM_IMAGE || exists|i: int|
                0 <= i < modules.len() && (#[trigger] modules[i]).base == base;
            let stack = info.protect & PAGE_GUARD != 0 || (prot == PAGE_READWRITE && size <= 0x200000
                && (base & 0xFFFF_FFFF_0000_0000 == 0 || base & 0xFFFF_FFFF_0000_0000
                == 0x7FF0_0000_0000_0000));
            region_class(base, size, info, modules) == if image {
                RegionType::Image
            } else if info.mem_type == MEM_MAPPED {
                RegionType::Mapped
            } else if stack {
                RegionType::Stack
            } else if info.mem_type == MEM_PRIVATE && (prot == PAGE_READWRITE || prot
                == PAGE_WRITECOPY) {
                RegionType::Heap
            } else {
                RegionType::Private
            }
        }),
{
}

/// Whether the region looks like a thread stack.
pub fn is_likely_stack(base: u64, size: i64, info: &BasicInfo) -> (r: bool)
    ensures
        r == likely_stack(base, size, *info),
{
    if info.protect & PAGE_GUARD != 0 {
        return true;
    }
    if (info.protect & 0xFF) == PAGE_READWRITE && size <= 0x200000 {
        let mod_base = base & 0xFFFF_FFFF_0000_0000;
        if mod_base == 0 || mod_base == 0x7FF0_0000_0000_0000 {
            return true;
        }
    }
    false
}

/// Whether the region looks like heap memory.
pub fn is_likely_heap(info: &BasicInfo) -> (r: bool)
    ensures
        r == likely_heap(*info),
{
    let prot = info.protect & 0xFF;
    (prot == PAGE_READWRITE || prot == PAGE_WRITECOPY) && info.mem_type == MEM_PRIVATE
}

/// The type of a region: image-backed or a module's start, mapped, stack,
/// heap, or otherwise private.
pub fn classify_region(base: u64, size: i64, info: &BasicInfo, modules: &[ModuleInfo]) -> (r: RegionType)
    ensures
        r == region_class(base, size, *info, modules@),
{
    if info.mem_type == MEM_IMAGE {
        return RegionType::Image;
    }
    let mut i: usize = 0;
    while i < modules.len()
        invariant
            i <= modules@.len(),
            forall|j: int| 0 <= j < i ==> (#[trigger] modules@[j]).base != base,
        decreases modules.len() - i,
    {
        if base == modules[i].base {
            return RegionType::Image;
        }
        i += 1;
    }
    if info.mem_type == MEM_MAPPED {
        return RegionType::Mapped;
    }
    if info.protect & PAGE_GUARD != 0 || is_likely_stack(base, size, info) {
        return RegionType::Stack;
    }
    if is_likely_heap(info) {
        return RegionType::Heap;
    }
    RegionType::Private
}

/// The name of the first module starting at `base`, from index `i` on.
pub open spec fn module_name_from(base: u64, modules: Seq<ModuleInfo>, i: int) -> Seq<char>
    decreases modules.len() - i,
{
    if i < 0 || i >= modules.len() {
        seq![]
    } else if modules[i].base == base {
        modules[i].name@
    } else {
        module_name_from(base, modules, i + 1)
    }
}

/// The name of the first module starting at `base`; empty when there is none.
pub open spec fn module_name_at(base: u64, modules: Seq<ModuleInfo>) -> Seq<char> {
    module_name_from(base, modules, 0)
}

/// The name of the first module starting at `base`, or the empty string.
pub fn find_module_name(base: u64, modules: &[ModuleInfo]) -> (r: String)
    ensures
        r@ == module_name_at(base, modules@),
{
    let mut i: usize = 0;
    while i < modules.len()
        invariant
            i <= modules@.len(),
            module_name_at(base, modules@) == module_name_from(base, modules@, i as int),
        decreases modules.len() - i,
    {
        if base == modules[i].base {
            return modules[i].name.clone();
        }
        i += 1;
    }
    String::new()
}

/// The description given to a region that belongs to no module.
pub open spec fn region_details(t: RegionType, module_name: Seq<char>) -> Seq<char> {
    if module_name.len() == 0 {
        match t {
            RegionType::Heap => "堆区域"@,
            RegionType::Stack => "线程栈"@,
            RegionType::Private => "私有提交区域"@,
            RegionType::Mapped => "映射文件"@,
            _ => seq![],
        }
    } else {
        seq![]
    }
}

/// The description of a region.
pub fn details_for(t: RegionType, module_name: &String) -> (r: String)
    ensures
        r@ == region_details(t, module_name@),
{
    if module_name.as_str().unicode_len() == 0 {
        match t {
            RegionType::Heap => String::from_str("堆区域"),
            RegionType::Stack => String::from_str("线程栈"),
            RegionType::Private => String::from_str("私有提交区域"),
            RegionType::Mapped => String::from_str("映射文件"),
            _ => String::new(),
        }
    } else {
        String::new()
    }
}

/// The record of an enumerated region (`None` for free address space).
pub open spec fn region_record_ok(
    r: MemoryRegion,
    info: BasicInfo,
    modules: Seq<ModuleInfo>,
    snapshot_id: i64,
    with_data: bool,
) -> bool {
    let t = region_class(info.base, info.size, info, modules);
    &&& r.id == 0
    &&& r.snapshot_id == snapshot_id
    &&& r.region_type == t
    &&& r.base_address@ == hex_seq(info.base as nat)
    &&& r.region_size == info.size
    &&& r.protection@ == protection_text(info.protect)
    &&& r.state@ == state_text(info.state)
    &&& r.type_info@ == type_info_text(info.mem_type)
    &&& r.module_name@ == module_name_at(info.base, modules)
    &&& r.details@ == region_details(t, module_name_at(info.base, modules))
    &&& r.has_data == (with_data && info.state == MEM_COMMIT)
    &&& r.is_readable == protection_readable(protection_text(info.protect))
    &&& r.is_writable == protection_writable(protection_text(info.protect))
}

/// Turns what the operating system reports about a region into its record;
/// free address space yields no record. Readability and writability are
/// those that the region's protection text grants.
pub fn region_from_basic_info(
    info: &BasicInfo,
    modules: &[ModuleInfo],
    snapshot_id: i64,
    with_data: bool,
) -> (r: Option<MemoryRegion>)
    ensures
        r is None <==> info.state == MEM_FREE,
        r matches Some(region) ==> region_record_ok(region, *info, modules@, snapshot_id, with_data),
        r matches Some(region) ==> {
            &&& region_base(region) == info.base
            &&& region.region_size == info.size
            &&& region.id == 0
            &&& region.snapshot_id == snapshot_id
            &&& region.has_data == (with_data && info.state == MEM_COMMIT)
        },
{
    if info.state == MEM_FREE {
        return None;
    }
    let region_type = classify_region(info.base, info.size, info, modules);
    let module_name = find_module_name(info.base, modules);
    let details = details_for(region_type, &module_name);
    let protection = protection_to_string(info.protect);
    let is_readable = parse_readable_from_protection(protection.as_str());
    let is_writable = parse_writable_from_protection(protection.as_str());
    Some(
        MemoryRegion {
            id: 0,
            snapshot_id,
            region_type,
            base_address: base_address_string(info.base),
            region_size: info.size,
            protection,
            state: state_to_string(info.state),
            type_info: type_info_to_string(info.mem_type),
            module_name,
            details,
            has_data: with_data && info.state == MEM_COMMIT,
            is_readable,
            is_writable,
        },
    )
}

/// Where enumeration continues after a region: just past its end.
pub fn next_query_address(info: &BasicInfo) -> (r: u64)
    requires
        info.base + (info.size as u64) <= u64::MAX,
    ensures
        r == info.base + (info.size as u64),
{
    info.base + info.size as u64
}

/// How the walk over a process's address space goes on after one query.
#[derive(Clone, Copy, Debug, PartialEq, Eq, Structural)]
pub enum WalkNext {
    /// Query the region that starts at this address next.
    Query(u64),
    /// The walk is over.
    Stop,
}

/// One step of the walk over a process's address space. `query` is what the
/// operating system reported for the current address (`None` when the query
/// failed). A failed query ends the walk; free address space yields no
/// record and the walk goes on just past it; any other region yields its
/// record, and the walk goes on just past it unless that address is 0. A
/// region whose end lies past the 64-bit range is not accepted (the address
/// arithmetic would overflow), so within that range the address after a
/// region is 0 only for a region of size 0 at address 0.
pub fn walk_step(
    query: Option<BasicInfo>,
    modules: &[ModuleInfo],
    snapshot_id: i64,
    with_data: bool,
) -> (r: (Option<MemoryRegion>, WalkNext))
    requires
        query matches Some(info) ==> info.base + (info.size as u64) <= u64::MAX,
    ensures
        query is None ==> r.0 is None && r.1 == WalkNext::Stop,
        query matches Some(info) ==> {
            let next = (info.base + (info.size as u64)) as u64;
            &&& (r.0 is None <==> info.state == MEM_FREE)
            &&& (r.0 matches Some(region) ==> region_record_ok(
                region,
                info,
                modules@,
                snapshot_id,
                with_data,
            ))
            &&& r.1 == if info.state != MEM_FREE && next == 0 {
                WalkNext::Stop
            } else {
                WalkNext::Query(next)
            }
        },
{
    match query {
        None => (None, WalkNext::Stop),
        Some(info) => {
            let next = next_query_address(&info);
            if info.state == MEM_FREE {
                return (None, WalkNext::Query(next));
            }
            let region = region_from_basic_info(&info, modules, snapshot_id, with_data);
            if next == 0 {
                (region, WalkNext::Stop)
            } else {
                (region, WalkNext::Query(next))
            }
        },
    }
}

// ---------------------------------------------------------------------------
// Stored rows
// ---------------------------------------------------------------------------

/// A region row as read from the store. Text columns that may be missing
/// or unreadable are `None`; the two flag columns likewise.
#[derive(Clone, Debug)]
pub struct RegionRow {
    pub id: i64,
    pub snapshot_id: i64,
    pub region_type: String,
    pub base_address: String,
    pub region_size: i64,
    pub protection: Option<String>,
    pub state: Option<String>,
    pub type_info: Option<String>,
    pub module_name: Option<String>,
    pub details: Option<String>,
    /// The stored data length when positive, else 0 or less.
    pub data_length_flag: i64,
    pub readable_flag: Option<i64>,
    pub writable_flag: Option<i64>,
}

/// A missing text column reads as the empty text.
pub open spec fn text_or_empty(t: Option<String>) -> Seq<char> {
    match t {
        Some(s) => s@,
        None => seq![],
    }
}

/// The region record a stored row stands for. A region is readable when
/// its stored flag says so (a missing flag counts as set) or its protection
/// text grants reading; writable when its stored flag says so (a missing
/// flag counts as clear) or its protection text grants writing.
pub open spec fn region_of_row(row: RegionRow, r: MemoryRegion) -> bool {
    let protection = text_or_empty(row.protection);
    let readable_flag = match row.readable_flag {
        Some(f) => f,
        None => 1,
    };
    let writable_flag = match row.writable_flag {
        Some(f) => f,
        None => 0,
    };
    &&& r.id == row.id
    &&& r.snapshot_id == row.snapshot_id
    &&& r.region_type == region_type_of_name(row.region_type@)
    &&& r.base_address@ == row.base_address@
    &&& r.region_size == row.region_size
    &&& r.protection@ == protection
    &&& r.state@ == text_or_empty(row.state)
    &&& r.type_info@ == text_or_empty(row.type_info)
    &&& r.module_name@ == text_or_empty(row.module_name)
    &&& r.details@ == text_or_empty(row.details)
    &&& r.has_data == (row.data_length_flag > 0)
    &&& r.is_readable == (readable_flag > 0 || protection_readable(protection))
    &&& r.is_writable == (writable_flag > 0 || protection_writable(protection))
}

fn text_or_default(t: Option<String>) -> (r: String)
    ensures
        r@ == text_or_empty(t),
{
    match t {
        Some(s) => s,
        None => String::new(),
    }
}

/// The region record for a stored row.
pub fn region_from_row(row: RegionRow) -> (r: MemoryRegion)
    ensures
        region_of_row(row, r),
        r.id == row.id,
        r.snapshot_id == row.snapshot_id,
        r.base_address@ == row.base_address@,
        r.region_size == row.region_size,
        r.protection@ == text_or_empty(row.protection),
        r.state@ == text_or_empty(row.state),
        r.type_info@ == text_or_empty(row.type_info),
        r.module_name@ == text_or_empty(row.module_name),
        r.details@ == text_or_empty(row.details),
        r.has_data <==> row.data_length_flag > 0,
        region_type_name(r.region_type) == row.region_type@ || (r.region_type
            == RegionType::Other && forall|t: RegionType| region_type_name(t) != row.region_type@),
{
    let protection = text_or_default(row.protection);
    let readable_flag: i64 = match row.readable_flag {
        Some(f) => f,
        None => 1,
    };
    let writable_flag: i64 = match row.writable_flag {
        Some(f) => f,
        None => 0,
    };
    let readable = readable_flag > 0 || parse_readable_from_protection(protection.as_str());
    let writable = writable_flag > 0 || parse_writable_from_protection(protection.as_str());
    let region_type = str_to_region_type(row.region_type.as_str());
    MemoryRegion {
        id: row.id,
        snapshot_id: row.snapshot_id,
        region_type,
        base_address: row.base_address,
        region_size: row.region_size,
        protection,
        state: text_or_default(row.state),
        type_info: text_or_default(row.type_info),
        module_name: text_or_default(row.module_name),
        details: text_or_default(row.details),
        has_data: row.data_length_flag > 0,
        is_readable: readable,
        is_writable: writable,
    }
}

/// The base address of a region as a number (0 when its text does not parse).
pub open spec fn region_base(r: MemoryRegion) -> nat {
    stored_address(r.base_address@)
}

/// The region covers `addr`: it lies at or after the base and before the
/// base plus the size (the size taken as unsigned).
pub open spec fn region_contains(r: MemoryRegion, addr: u64) -> bool {
    region_base(r) <= addr && addr < region_base(r) + (r.region_size as u64)
}

/// Looking for `addr` in `regions` in order never adds a base and a size
/// beyond the 64-bit range.
pub open spec fn containment_checkable(regions: Seq<MemoryRegion>, addr: u64) -> bool {
    forall|i: int|
        0 <= i < regions.len() && (forall|j: int| 0 <= j < i ==> !region_contains(#[trigger] regions[j], addr))
            && region_base(#[trigger] regions[i]) <= addr ==> region_base(regions[i])
            + (regions[i].region_size as u64) <= u64::MAX
}

/// The index of the first region, in the given order, that covers `addr`.
pub fn find_region_containing(regions: &Vec<MemoryRegion>, addr: u64) -> (r: Option<usize>)
    requires
        containment_checkable(regions@, addr),
    ensures
        match r {
            Some(i) => i < regions@.len() && region_contains(regions@[i as int], addr) && forall|j: int|
                0 <= j < i ==> !region_contains(#[trigger] regions@[j], addr),
            None => forall|j: int|
                0 <= j < regions@.len() ==> !region_contains(#[trigger] regions@[j], addr),
        },
{
    let mut i: usize = 0;
    while i < regions.len()
        invariant
            i <= regions@.len(),
            containment_checkable(regions@, addr),
            forall|j: int| 0 <= j < i ==> !region_contains(#[trigger] regions@[j], addr),
        decreases regions.len() - i,
    {
        let r = &regions[i];
        let base = parse_stored_address(&r.base_address);
        if addr >= base && addr < base + r.region_size as u64 {
            return Some(i);
        }
        i += 1;
    }
    None
}

/// Total size of the committed regions among `regions`.
pub open spec fn committed_total(regions: Seq<MemoryRegion>) -> int
    decreases regions.len(),
{
    if regions.len() == 0 {
        0
    } else {
        committed_total(regions.drop_last()) + if regions.last().state@ == "Commit"@ {
            regions.last().region_size as int
        } else {
            0
        }
    }
}

/// Summing committed sizes in order stays within the 64-bit signed range.
pub open spec fn committed_sums_fit(regions: Seq<MemoryRegion>) -> bool {
    forall|k: int|
        0 <= k <= regions.len() ==> i64::MIN <= #[trigger] committed_total(regions.take(k))
            <= i64::MAX
}

/// Total size in bytes of the committed regions.
pub fn committed_size(regions: &Vec<MemoryRegion>) -> (r: i64)
    requires
        committed_sums_fit(regions@),
    ensures
        r == committed_total(regions@),
{
    let commit = str_chars("Commit");
    let mut total: i64 = 0;
    let mut i: usize = 0;
    assert(regions@.take(0) =~= Seq::<MemoryRegion>::empty());
    while i < regions.len()
        invariant
            i <= regions@.len(),
            commit@ == "Commit"@,
            committed_sums_fit(regions@),
            total == committed_total(regions@.take(i as int)),
        decreases regions.len() - i,
    {
        assert(regions@.take(i + 1).drop_last() =~= regions@.take(i as int));
        assert(i64::MIN <= committed_total(regions@.take(i + 1)) <= i64::MAX);
        if chars_equal(&str_chars(regions[i].state.as_str()), &commit) {
            total = total + regions[i].region_size;
        }
        i += 1;
    }
    assert(regions@.take(i as int) =~= regions@);
    total
}

/// How many of `owners` are `pid`.
pub open spec fn owned_count(owners: Seq<u32>, pid: u32) -> nat
    decreases owners.len(),
{
    if owners.len() == 0 {
        0
    } else {
        owned_count(owners.drop_last(), pid) + if owners.last() == pid {
            1nat
        } else {
            0nat
        }
    }
}

/// The number of threads, given their owning process ids, that `pid` owns.
pub fn count_owned_threads(owners: &[u32], pid: u32) -> (r: u32)
    requires
        owned_count(owners@, pid) <= u32::MAX,
    ensures
        r == owned_count(owners@, pid),
{
    let mut count: u32 = 0;
    let mut i: usize = 0;
    assert(owners@.take(0) =~= Seq::<u32>::empty());
    while i < owners.len()
        invariant
            i <= owners@.len(),
            owned_count(owners@, pid) <= u32::MAX,
            count == owned_count(owners@.take(i as int), pid),
        decreases owners.len() - i,
    {
        assert(owners@.take(i + 1).drop_last() =~= owners@.take(i as int));
        proof {
            lemma_owned_count_prefix(owners@, pid, i + 1);
        }
        if owners[i] == pid {
            count = count + 1;
        }
        i += 1;
    }
    assert(owners@.take(i as int) =~= owners@);
    count
}

/// A prefix counts no more than the whole.
proof fn lemma_owned_count_prefix(owners: Seq<u32>, pid: u32, k: int)
    requires
        0 <= k <= owners.len(),
    ensures
        owned_count(owners.take(k), pid) <= owned_count(owners, pid),
    decreases owners.len() - k,
{
    if k < owners.len() {
        assert(owners.drop_last().take(k) =~= owners.take(k));
        lemma_owned_count_prefix(owners.drop_last(), pid, k);
    } else {
        assert(owners.take(k) =~= owners);
    }
}

} // verus!
