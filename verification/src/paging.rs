//! Page sizes, the boot page tables, and what the loaders know of a mapping.
use vstd::prelude::*;

verus! {

pub const PAGE_SIZE_4K: u64 = 4096;

pub const HUGE_PAGE_SIZE: u64 = 0x20_0000;

pub const BOOT_IDENTITY_MAP_BYTES: u64 = 0x4000_0000;

pub const PAGE_TABLE_MEMORY_BYTES: u64 = 12288;

/// Where the first byte of a user program is mapped.
pub const USER_ELF_BASE: u64 = 0x4010_0000;

pub const PAGE_TABLE_ENTRIES: usize = 512;

const ENTRY_PRESENT: u64 = 0x1;

const ENTRY_HUGE_PAGE: u64 = 0x80;

const ENTRY_ADDR_MASK: u64 = 0x000f_ffff_ffff_f000;

const HUGE_ENTRY_ADDR_MASK: u64 = 0x000f_ffff_ffe0_0000;

/// Why a page could not be mapped or unmapped, under the name it is reported by.
#[derive(Clone, Copy, PartialEq, Eq)]
pub struct MapError {
    pub name: &'static str,
}

/// Why an operation on an address space failed, under the name it is reported by.
#[derive(Clone, Copy, PartialEq, Eq)]
pub struct AddressSpaceError {
    pub name: &'static str,
}

/// The name under which `error` is reported.
pub fn map_error_name(error: MapError) -> (name: &'static str)
    ensures
        name == error.name,
{
    error.name
}

/// The name under which `error` is reported.
pub fn address_space_error_name(error: AddressSpaceError) -> (name: &'static str)
    ensures
        name == error.name,
{
    error.name
}

/// What a user page may be used for besides reading.
#[derive(Clone, Copy, PartialEq, Eq, Structural)]
pub struct UserPagePermissions {
    pub writable: bool,
    pub executable: bool,
}

impl UserPagePermissions {
    /// A data page: writable, not executable.
    pub fn read_write() -> (r: Self)
        ensures
            r == (UserPagePermissions { writable: true, executable: false }),
    {
        UserPagePermissions { writable: true, executable: false }
    }
}

/// Where user programs live: the range for their segments and the page for their stack.
#[derive(Clone, Copy, PartialEq, Eq, Structural)]
pub struct UserLayout {
    pub base: u64,
    pub end: u64,
    pub stack_page: u64,
    pub stack_top: u64,
    pub stack_guard: u64,
}

#[derive(Clone, Copy, PartialEq, Eq, Structural)]
pub struct Snapshot {
    pub initialized: bool,
    pub cr3: u64,
    pub p4_addr: u64,
    pub p3_addr: u64,
    pub p2_addr: u64,
    pub p4_present_entries: u64,
    pub p3_present_entries: u64,
    pub p2_present_entries: u64,
    pub huge_pages: u64,
    pub identity_mapped_bytes: u64,
    pub page_table_bytes: u64,
}

#[derive(Clone, Copy, PartialEq, Eq, Structural)]
pub struct TranslateResult {
    pub virt: u64,
    pub phys: u64,
    pub mapped: bool,
    pub huge_page: bool,
    pub page_size: u64,
}

/// The three tables that the machine boots with, and where they lie.
pub struct BootTables<'a> {
    pub p4_addr: u64,
    pub p3_addr: u64,
    pub p2_addr: u64,
    pub p4: &'a [u64; PAGE_TABLE_ENTRIES],
    pub p3: &'a [u64; PAGE_TABLE_ENTRIES],
    pub p2: &'a [u64; PAGE_TABLE_ENTRIES],
}

/// Whether paging has been announced as ready.
pub struct PagingState {
    pub initialized: bool,
}

/// Bit 0 of a table entry.
pub open spec fn is_present(entry: u64) -> bool {
    entry % 2 == 1
}

/// Bit 7 of a table entry.
pub open spec fn is_huge(entry: u64) -> bool {
    (entry / 128) % 2 == 1
}

/// Bits 12 to 51 of a table entry: the address of a page or of a lower table.
pub open spec fn frame_of(entry: u64) -> int {
    entry % 0x10_0000_0000_0000 - entry % 4096
}

/// Bits 21 to 51 of a table entry: the address of a huge page.
pub open spec fn huge_frame_of(entry: u64) -> int {
    entry % 0x10_0000_0000_0000 - entry % 0x20_0000
}

/// How many entries of `table` meet `wanted`.
pub open spec fn count_entries(table: Seq<u64>, wanted: spec_fn(u64) -> bool) -> nat
    decreases table.len(),
{
    if table.len() == 0 {
        0
    } else {
        count_entries(table.drop_last(), wanted) + if wanted(table.last()) {
            1nat
        } else {
            0nat
        }
    }
}

/// No more entries are counted than there are.
proof fn lemma_count_bound(table: Seq<u64>, wanted: spec_fn(u64) -> bool)
    ensures
        count_entries(table, wanted) <= table.len(),
    decreases table.len(),
{
    if table.len() > 0 {
        lemma_count_bound(table.drop_last(), wanted);
    }
}

impl BootTables<'_> {
    /// The first two levels lead from `virt` to the last table: the address is in the first
    /// gigabyte of its 256-terabyte window, and the first entry of each table names the next.
    pub open spec fn walk_reaches_p2(&self, virt: u64) -> bool {
        &&& (virt / 0x80_0000_0000) % 512 == 0
        &&& (virt / 0x4000_0000) % 512 == 0
        &&& is_present(self.p4@[0])
        &&& frame_of(self.p4@[0]) == self.p3_addr
        &&& is_present(self.p3@[0])
        &&& frame_of(self.p3@[0]) == self.p2_addr
    }

    /// The entry of the last table that `virt` selects.
    pub open spec fn p2_entry(&self, virt: u64) -> u64 {
        self.p2@[(virt / 0x20_0000) as int % 512]
    }

    /// `virt` is mapped.
    pub open spec fn maps(&self, virt: u64) -> bool {
        self.walk_reaches_p2(virt) && is_present(self.p2_entry(virt))
    }

    /// What a walk of the tables from `virt` finds.
    pub open spec fn lookup(&self, virt: u64) -> TranslateResult {
        let entry = self.p2_entry(virt);
        if !self.maps(virt) {
            TranslateResult { virt, phys: 0, mapped: false, huge_page: false, page_size: 0 }
        } else if is_huge(entry) {
            TranslateResult {
                virt,
                phys: (huge_frame_of(entry) + virt % 0x20_0000) as u64,
                mapped: true,
                huge_page: true,
                page_size: HUGE_PAGE_SIZE,
            }
        } else {
            TranslateResult {
                virt,
                phys: (frame_of(entry) + virt % 4096) as u64,
                mapped: true,
                huge_page: false,
                page_size: PAGE_SIZE_4K,
            }
        }
    }

    /// What `snapshot` reports.
    pub open spec fn report(&self, initialized: bool, cr3: u64) -> Snapshot {
        let huge = count_entries(self.p2@, |e: u64| is_present(e) && is_huge(e));
        Snapshot {
            initialized,
            cr3,
            p4_addr: self.p4_addr,
            p3_addr: self.p3_addr,
            p2_addr: self.p2_addr,
            p4_present_entries: count_entries(self.p4@, |e: u64| is_present(e)) as u64,
            p3_present_entries: count_entries(self.p3@, |e: u64| is_present(e)) as u64,
            p2_present_entries: count_entries(self.p2@, |e: u64| is_present(e)) as u64,
            huge_pages: huge as u64,
            identity_mapped_bytes: (huge * 0x20_0000) as u64,
            page_table_bytes: PAGE_TABLE_MEMORY_BYTES,
        }
    }

    /// Entry `i` of the last table maps huge page `i` onto itself, for each `i`.
    pub open spec fn is_identity(&self) -> bool {
        &&& self.walk_reaches_p2(0)
        &&& forall|i: int|
            0 <= i < 512 ==> is_present(#[trigger] self.p2@[i]) && is_huge(self.p2@[i])
                && huge_frame_of(self.p2@[i]) == i * 0x20_0000
    }
}

/// Marks paging as ready and reports on the boot tables.
pub fn init(state: &mut PagingState, tables: &BootTables, cr3: u64) -> (r: Snapshot)
    ensures
        final(state).initialized,
        r == tables.report(true, cr3),
{
    state.initialized = true;
    snapshot(state, tables, cr3)
}

/// Reports on the boot tables; `cr3` is what the processor's register of that name holds.
pub fn snapshot(state: &PagingState, tables: &BootTables, cr3: u64) -> (r: Snapshot)
    ensures
        r == tables.report(state.initialized, cr3),
{
    let p4_present_entries: u64 = count_present_entries(tables.p4);
    let p3_present_entries: u64 = count_present_entries(tables.p3);
    let p2_present_entries: u64 = count_present_entries(tables.p2);
    let huge_pages: u64 = count_huge_entries(tables.p2);
    proof {
        lemma_count_bound(tables.p2@, |e: u64| is_present(e) && is_huge(e));
    }
    Snapshot {
        initialized: state.initialized,
        cr3,
        p4_addr: tables.p4_addr,
        p3_addr: tables.p3_addr,
        p2_addr: tables.p2_addr,
        p4_present_entries,
        p3_present_entries,
        p2_present_entries,
        huge_pages,
        identity_mapped_bytes: huge_pages * HUGE_PAGE_SIZE,
        page_table_bytes: PAGE_TABLE_MEMORY_BYTES,
    }
}

/// Walks the boot tables from `virt`.
pub fn translate(tables: &BootTables, virt: u64) -> (r: TranslateResult)
    ensures
        r == tables.lookup(virt),
{
    assert((virt >> 39) & 0x1ff == (virt / 0x80_0000_0000) % 512) by (bit_vector);
    assert((virt >> 30) & 0x1ff == (virt / 0x4000_0000) % 512) by (bit_vector);
    assert((virt >> 21) & 0x1ff == (virt / 0x20_0000) % 512) by (bit_vector);
    assert(virt & 0x1f_ffff == virt % 0x20_0000) by (bit_vector);
    assert(virt & 0xfff == virt % 4096) by (bit_vector);
    let p4_index: usize = ((virt >> 39) & 0x1ff) as usize;
    let p3_index: usize = ((virt >> 30) & 0x1ff) as usize;
    let p2_index: usize = ((virt >> 21) & 0x1ff) as usize;
    let huge_offset: u64 = virt & (HUGE_PAGE_SIZE - 1);

    if p4_index != 0 || p3_index != 0 {
        return unmapped(virt);
    }
    let p4_entry: u64 = tables.p4[p4_index];
    if !entry_present(p4_entry) || entry_addr(p4_entry) != tables.p3_addr {
        return unmapped(virt);
    }
    let p3_entry: u64 = tables.p3[p3_index];
    if !entry_present(p3_entry) || entry_addr(p3_entry) != tables.p2_addr {
        return unmapped(virt);
    }
    let p2_entry: u64 = tables.p2[p2_index];
    if !entry_present(p2_entry) {
        return unmapped(virt);
    }
    if entry_huge(p2_entry) {
        return TranslateResult {
            virt,
            phys: huge_entry_addr(p2_entry).saturating_add(huge_offset),
            mapped: true,
            huge_page: true,
            page_size: HUGE_PAGE_SIZE,
        };
    }
    TranslateResult {
        virt,
        phys: entry_addr(p2_entry).saturating_add(virt & (PAGE_SIZE_4K - 1)),
        mapped: true,
        huge_page: false,
        page_size: PAGE_SIZE_4K,
    }
}

fn unmapped(virt: u64) -> (r: TranslateResult)
    ensures
        r == (TranslateResult { virt, phys: 0, mapped: false, huge_page: false, page_size: 0 }),
{
    TranslateResult { virt, phys: 0, mapped: false, huge_page: false, page_size: 0 }
}

fn count_present_entries(table: &[u64; PAGE_TABLE_ENTRIES]) -> (count: u64)
    ensures
        count == count_entries(table@, |e: u64| is_present(e)),
{
    let ghost wanted = |e: u64| is_present(e);
    let mut count: u64 = 0;
    let mut index: usize = 0;
    while index < PAGE_TABLE_ENTRIES
        invariant
            index <= PAGE_TABLE_ENTRIES,
            wanted == (|e: u64| is_present(e)),
            count == count_entries(table@.take(index as int), wanted),
            count <= index,
        decreases PAGE_TABLE_ENTRIES - index,
    {
        assert(table@.take(index + 1).drop_last() =~= table@.take(index as int));
        if entry_present(table[index]) {
            count = count + 1;
        }
        index = index + 1;
    }
    assert(table@.take(512) =~= table@);
    count
}

fn count_huge_entries(table: &[u64; PAGE_TABLE_ENTRIES]) -> (count: u64)
    ensures
        count == count_entries(table@, |e: u64| is_present(e) && is_huge(e)),
        count <= PAGE_TABLE_ENTRIES,
{
    let ghost wanted = |e: u64| is_present(e) && is_huge(e);
    let mut count: u64 = 0;
    let mut index: usize = 0;
    while index < PAGE_TABLE_ENTRIES
        invariant
            index <= PAGE_TABLE_ENTRIES,
            wanted == (|e: u64| is_present(e) && is_huge(e)),
            count == count_entries(table@.take(index as int), wanted),
            count <= index,
        decreases PAGE_TABLE_ENTRIES - index,
    {
        assert(table@.take(index + 1).drop_last() =~= table@.take(index as int));
        if entry_present(table[index]) && entry_huge(table[index]) {
            count = count + 1;
        }
        index = index + 1;
    }
    assert(table@.take(512) =~= table@);
    count
}

fn entry_present(entry: u64) -> (r: bool)
    ensures
        r == is_present(entry),
{
    assert((entry & 0x1 != 0) == (entry % 2 == 1)) by (bit_vector);
    entry & ENTRY_PRESENT != 0
}

fn entry_huge(entry: u64) -> (r: bool)
    ensures
        r == is_huge(entry),
{
    assert((entry & 0x80 != 0) == ((entry / 128) % 2 == 1)) by (bit_vector);
    entry & ENTRY_HUGE_PAGE != 0
}

fn entry_addr(entry: u64) -> (r: u64)
    ensures
        r == frame_of(entry),
        r <= 0xf_ffff_ffff_f000,
{
    assert(entry & 0x000f_ffff_ffff_f000 == entry % 0x10_0000_0000_0000 - entry % 4096)
        by (bit_vector);
    assert(entry & 0x000f_ffff_ffff_f000 <= 0xf_ffff_ffff_f000) by (bit_vector);
    entry & ENTRY_ADDR_MASK
}

fn huge_entry_addr(entry: u64) -> (r: u64)
    ensures
        r == huge_frame_of(entry),
        r <= 0xf_ffff_ffe0_0000,
{
    assert(entry & 0x000f_ffff_ffe0_0000 == entry % 0x10_0000_0000_0000 - entry % 0x20_0000)
        by (bit_vector);
    assert(entry & 0x000f_ffff_ffe0_0000 <= 0xf_ffff_ffe0_0000) by (bit_vector);
    entry & HUGE_ENTRY_ADDR_MASK
}

/// With identity tables every address below the boot limit is mapped to itself.
pub proof fn law_identity_map(tables: BootTables, virt: u64)
    requires
        tables.is_identity(),
        virt < BOOT_IDENTITY_MAP_BYTES,
    ensures
        tables.lookup(virt).mapped,
        tables.lookup(virt).phys == virt,
{
    let i = (virt / 0x20_0000) as int;
    assert(is_present(tables.p2@[i]));
}

/// Translation keeps the offset within the page, and reports unmapped addresses as such.
pub proof fn law_offset_kept(tables: BootTables, virt: u64)
    ensures
        tables.lookup(virt).virt == virt,
        tables.lookup(virt).mapped <==> tables.maps(virt),
        tables.lookup(virt).mapped ==> tables.lookup(virt).phys % tables.lookup(virt).page_size
            == virt % tables.lookup(virt).page_size,
        !tables.lookup(virt).mapped ==> tables.lookup(virt).phys == 0,
        BOOT_IDENTITY_MAP_BYTES <= virt < 0x1_0000_0000_0000 ==> !tables.lookup(virt).mapped,
{
}

proof fn lemma_entry_bits(entry: u64)
    by (bit_vector)
    ensures
        entry & 1 != 0 <==> entry % 2 == 1,
        entry & 0x80 != 0 <==> (entry / 128) % 2 == 1,
        entry & 0x000f_ffff_ffff_f000 == entry % 0x10_0000_0000_0000 - entry % 4096,
        entry & 0x000f_ffff_ffe0_0000 == entry % 0x10_0000_0000_0000 - entry % 0x20_0000,
{
}

proof fn lemma_address_bits(virt: u64)
    by (bit_vector)
    ensures
        (virt >> 39) & 0x1ff == (virt / 0x80_0000_0000) % 512,
        (virt >> 30) & 0x1ff == (virt / 0x4000_0000) % 512,
        (virt >> 21) & 0x1ff == (virt / 0x20_0000) % 512,
        virt & 0x1f_ffff == virt % 0x20_0000,
        virt & 0xfff == virt % 4096,
        (virt >> 21) & 0x1ff < 512,
{
}

/// A walk follows the bits of the address and of the entries: bits 30 to 47 of the address have to
/// be zero, and the first entry of each upper table has to be present and to hold the address of
/// the next table in bits 12 to 51. Bits 21 to 29 of the address pick the last entry; where that
/// is present it gives the physical address, above bit 20 for a huge page, which bit 7 marks, and
/// above bit 11 for any other.
#[verifier::rlimit(40)]
pub proof fn law_walks_follow_the_bits(tables: BootTables, virt: u64)
    ensures
        ({
            let found = tables.lookup(virt);
            let p4 = tables.p4@[0];
            let p3 = tables.p3@[0];
            let entry = tables.p2@[((virt >> 21) & 0x1ff) as int];
            let huge = entry & 0x80 != 0;
            &&& found.mapped <==> {
                &&& (virt >> 39) & 0x1ff == 0
                &&& (virt >> 30) & 0x1ff == 0
                &&& p4 & 1 != 0
                &&& p4 & 0x000f_ffff_ffff_f000 == tables.p3_addr
                &&& p3 & 1 != 0
                &&& p3 & 0x000f_ffff_ffff_f000 == tables.p2_addr
                &&& entry & 1 != 0
            }
            &&& found.virt == virt
            &&& found.mapped && huge ==> found.huge_page && found.page_size == 0x20_0000
                && found.phys == (entry & 0x000f_ffff_ffe0_0000) + (virt & 0x1f_ffff)
            &&& found.mapped && !huge ==> !found.huge_page && found.page_size == 4096 && found.phys
                == (entry & 0x000f_ffff_ffff_f000) + (virt & 0xfff)
            &&& !found.mapped ==> found.phys == 0 && !found.huge_page && found.page_size == 0
        }),
{
    lemma_address_bits(virt);
    lemma_entry_bits(tables.p4@[0]);
    lemma_entry_bits(tables.p3@[0]);
    lemma_entry_bits(tables.p2@[((virt >> 21) & 0x1ff) as int]);
}

/// Entries are counted one by one: an entry more counts where bit 0 is set, and among the huge
/// ones where bit 7 is set too.
pub proof fn law_entries_are_counted(table: Seq<u64>, entry: u64)
    ensures
        count_entries(table.push(entry), |e: u64| is_present(e)) == count_entries(
            table,
            |e: u64| is_present(e),
        ) + if entry & 1 != 0 {
            1int
        } else {
            0
        },
        count_entries(table.push(entry), |e: u64| is_present(e) && is_huge(e)) == count_entries(
            table,
            |e: u64| is_present(e) && is_huge(e),
        ) + if entry & 1 != 0 && entry & 0x80 != 0 {
            1int
        } else {
            0
        },
        count_entries(Seq::empty(), |e: u64| is_present(e)) == 0,
        count_entries(Seq::empty(), |e: u64| is_present(e) && is_huge(e)) == 0,
{
    lemma_entry_bits(entry);
    assert(table.push(entry).drop_last() =~= table);
}

/// Each huge page stands for two megabytes of what is mapped.
pub proof fn law_huge_pages_are_what_is_mapped(tables: BootTables, initialized: bool, cr3: u64)
    ensures
        ({
            let report = tables.report(initialized, cr3);
            &&& report.identity_mapped_bytes == report.huge_pages * 2_097_152
            &&& report.huge_pages <= 512
            &&& report.p4_present_entries == count_entries(tables.p4@, |e: u64| is_present(e))
            &&& report.p3_present_entries == count_entries(tables.p3@, |e: u64| is_present(e))
            &&& report.p2_present_entries == count_entries(tables.p2@, |e: u64| is_present(e))
            &&& report.huge_pages == count_entries(
                tables.p2@,
                |e: u64| is_present(e) && is_huge(e),
            )
            &&& report.initialized == initialized
            &&& report.cr3 == cr3
            &&& report.p4_addr == tables.p4_addr
            &&& report.p3_addr == tables.p3_addr
            &&& report.p2_addr == tables.p2_addr
        }),
{
    lemma_count_bound(tables.p2@, |e: u64| is_present(e) && is_huge(e));
    lemma_count_bound(tables.p2@, |e: u64| is_present(e));
    lemma_count_bound(tables.p3@, |e: u64| is_present(e));
    lemma_count_bound(tables.p4@, |e: u64| is_present(e));
}

} // verus!
