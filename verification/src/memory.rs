use vstd::prelude::*;
use std::collections::HashMap;

verus! {

broadcast use vstd::std_specs::hash::group_hash_axioms;

/// Size of a page frame in bytes.
pub const PAGE_SIZE: u64 = 4096;

/// The start of the frame that holds the byte at `addr`.
pub open spec fn frame_of(addr: u64) -> u64 {
    addr & !0xFFFu64
}

/// `addr` is the start of a frame.
pub open spec fn frame_aligned(addr: u64) -> bool {
    addr % 4096 == 0
}

pub proof fn lemma_frame_of(addr: u64)
    ensures
        frame_aligned(frame_of(addr)),
        frame_of(addr) <= addr,
        addr - frame_of(addr) < 4096,
        frame_aligned(addr) ==> frame_of(addr) == addr,
{
    assert((addr & !0xFFFu64) % 4096 == 0) by (bit_vector);
    assert((addr & !0xFFFu64) <= addr) by (bit_vector);
    assert(addr - (addr & !0xFFFu64) < 4096) by (bit_vector);
    assert(addr % 4096 == 0 ==> (addr & !0xFFFu64) == addr) by (bit_vector);
}

/// What can go wrong when asking for memory.
#[derive(Debug, PartialEq, Eq)]
pub enum MemoryError {
    OutOfMemory,
}

impl MemoryError {
    /// The text shown for the error.
    pub fn message(&self) -> (r: &'static str)
        ensures
            r@ == "Out of memory"@,
    {
        match self {
            MemoryError::OutOfMemory => "Out of memory",
        }
    }
}

/// `addr` can be a virtual address: bits 47 to 63 are all clear or all set,
/// or only bit 47 of them is set.
pub open spec fn virt_addr_valid(addr: u64) -> bool {
    let high = addr >> 47u64;
    high == 0 || high == 1 || high == 0x1ffff
}

/// The canonical form of `addr`: bit 47 copied into bits 48 to 63.
pub open spec fn canonical(addr: u64) -> u64 {
    if addr >> 47u64 == 1 {
        addr | 0xFFFF_0000_0000_0000u64
    } else {
        addr
    }
}

/// Calls `x86_64::VirtAddr::new` and reads the address back with
/// `VirtAddr::as_u64`. The crate's source keeps an address whose bits 47 to
/// 63 are all clear or all set, sign-extends one where only bit 47 of them
/// is set, and panics on any other; the contract states this.
#[verifier::external_body]
fn virt_addr_new(addr: u64) -> (r: u64)
    requires
        virt_addr_valid(addr),
    ensures
        r == canonical(addr),
{
    x86_64::VirtAddr::new(addr).as_u64()
}

/// The start of the higher-half direct map as a canonical virtual address.
pub fn hhdm(memory: &Memory) -> (r: u64)
    requires
        memory.hhdm_offset().is_some(),
        virt_addr_valid(memory.hhdm_offset().unwrap()),
    ensures
        r == canonical(memory.hhdm_offset().unwrap()),
{
    match memory.hhdm {
        Some(value) => virt_addr_new(value),
        None => 0,
    }
}

/// The kinds of region in the bootloader's memory map.
#[derive(Clone, Copy, Debug, PartialEq, Eq, Structural)]
pub enum MemoryKind {
    Usable,
    Reserved,
    AcpiReclaimable,
    AcpiNvs,
    BadMemory,
    BootloaderReclaimable,
    KernelAndModules,
    Framebuffer,
}

/// One region of the bootloader's memory map.
#[derive(Clone, Copy, Debug)]
pub struct MemmapEntry {
    pub base: u64,
    pub len: u64,
    pub typ: MemoryKind,
}

/// Number of frames it takes to cover `len` bytes.
pub open spec fn frames_in(len: int) -> int {
    (len + 4095) / 4096
}

/// The frames `build` hands out for one region: one per 4096 bytes from its
/// base on, each rounded down to a frame boundary.
pub open spec fn region_frames(base: u64, len: u64) -> Seq<u64> {
    Seq::new(frames_in(len as int) as nat, |k: int| frame_of((base + 4096 * k) as u64))
}

/// The frames of all usable regions of `memmap`, in map order.
pub open spec fn usable_frames(memmap: Seq<MemmapEntry>) -> Seq<u64>
    decreases memmap.len(),
{
    if memmap.len() == 0 {
        Seq::empty()
    } else {
        let e = memmap.last();
        usable_frames(memmap.drop_last()) + if e.typ == MemoryKind::Usable {
            region_frames(e.base, e.len)
        } else {
            Seq::empty()
        }
    }
}

/// Walking a usable region one frame at a time stays below 2^64.
pub open spec fn region_addressable(e: MemmapEntry) -> bool {
    e.typ == MemoryKind::Usable ==> e.base + 4096 * frames_in(e.len as int) <= u64::MAX
}

/// Physical memory as the kernel manages it: the list of free frames, the
/// frames that hold page tables, and the offset of the higher-half direct map.
pub struct Memory {
    free_list: Vec<u64>,
    tables: HashMap<u64, Vec<u64>>,
    hhdm: Option<u64>,
}

impl Memory {
    /// The free frames; the last one is the head of the list, handed out next.
    pub closed spec fn free_frames(&self) -> Seq<u64> {
        self.free_list@
    }

    /// The page tables, by the physical address of their frame.
    pub closed spec fn tables(&self) -> Map<u64, Seq<u64>> {
        self.tables@.map_values(|t: Vec<u64>| t@)
    }

    /// The offset of the higher-half direct map, once known.
    pub closed spec fn hhdm_offset(&self) -> Option<u64> {
        self.hhdm
    }

    pub closed spec fn wf(&self) -> bool {
        &&& forall|i: int| 0 <= i < self.free_list@.len() ==> frame_aligned(#[trigger] self.free_list@[i])
        &&& forall|a: u64| #[trigger] self.tables@.contains_key(a) ==> self.tables@[a]@.len() == 512
    }

    /// No memory yet: no free frames, no page tables, no direct map.
    pub fn new() -> (m: Memory)
        ensures
            m.wf(),
            m.free_frames() == Seq::<u64>::empty(),
            m.tables() == Map::<u64, Seq<u64>>::empty(),
            m.hhdm_offset() == None::<u64>,
    {
        let m = Memory { free_list: Vec::new(), tables: HashMap::new(), hhdm: None };
        assert(m.tables() =~= Map::<u64, Seq<u64>>::empty());
        m
    }

    /// Registers the page table held in the frame `frame`, such as the
    /// kernel's level-4 table, with the given entries.
    pub fn load_table(&mut self, frame: u64, entries: Vec<u64>)
        requires
            old(self).wf(),
            entries@.len() == 512,
        ensures
            final(self).wf(),
            final(self).free_frames() == old(self).free_frames(),
            final(self).hhdm_offset() == old(self).hhdm_offset(),
            final(self).tables() == old(self).tables().insert(frame, entries@),
            old(self).frames_fresh() && !old(self).free_frames().contains(frame) ==> final(self).frames_fresh(),
    {
        let ghost e = entries@;
        self.tables.insert(frame, entries);
        proof {
            assert(self.tables() =~= old(self).tables().insert(frame, e));
            if old(self).frames_fresh() && !old(self).free_frames().contains(frame) {
                let f = self.free_frames();
                assert forall|i: int| 0 <= i < f.len() implies !self.tables().contains_key(#[trigger] f[i]) by {
                    assert(f[i] != frame);
                }
            }
        }
    }

    /// The entries of the page table in the frame `frame`, where there is one.
    pub fn table(&self, frame: u64) -> (r: Option<Vec<u64>>)
        requires
            self.wf(),
        ensures
            match r {
                Some(t) => self.tables().contains_key(frame) && t@ == self.tables()[frame],
                None => !self.tables().contains_key(frame),
            },
    {
        if self.tables.contains_key(&frame) {
            let mut copy: Vec<u64> = Vec::new();
            for i in 0..512usize
                invariant
                    self.wf(),
                    self.tables().contains_key(frame),
                    copy@ == self.tables()[frame].subrange(0, i as int),
            {
                let e = self.read_entry(frame, i);
                copy.push(e);
                proof {
                    assert(copy@ =~= self.tables()[frame].subrange(0, i + 1));
                }
            }
            proof {
                self.lemma_table_len(frame);
                assert(copy@ =~= self.tables()[frame]);
            }
            Some(copy)
        } else {
            None
        }
    }

    /// The free frames, the head of the list last.
    pub fn free_list(&self) -> (r: &Vec<u64>)
        ensures
            r@ == self.free_frames(),
    {
        &self.free_list
    }

    pub fn free_count(&self) -> (r: usize)
        ensures r == self.free_frames().len(),
    {
        self.free_list.len()
    }
}

/// `r` is what taking the head of the free list `before` gives, leaving
/// `after`: the last frame, or `OutOfMemory` when there is none.
pub open spec fn allocated(before: Seq<u64>, after: Seq<u64>, r: Result<u64, MemoryError>) -> bool {
    match r {
        Ok(page) => {
            &&& before.len() > 0
            &&& page == before.last()
            &&& after == before.drop_last()
        },
        Err(e) => {
            &&& e == MemoryError::OutOfMemory
            &&& before.len() == 0
            &&& after == before
        },
    }
}

/// Freeing a frame and then allocating hands back the frame that was freed,
/// rounded down to its start, and leaves the free list as it was.
pub proof fn lemma_free_then_allocate(before: Seq<u64>, page: u64, after: Seq<u64>, r: Result<u64, MemoryError>)
    requires
        allocated(before.push(frame_of(page)), after, r),
    ensures
        r == Ok::<u64, MemoryError>(frame_of(page)),
        after == before,
{
    assert(before.push(frame_of(page)).drop_last() =~= before);
}

/// Allocating a frame and then freeing it leaves the free list as it was.
pub proof fn lemma_allocate_then_free(before: Seq<u64>, after: Seq<u64>, page: u64)
    requires
        forall|i: int| 0 <= i < before.len() ==> frame_aligned(#[trigger] before[i]),
        allocated(before, after, Ok(page)),
    ensures
        after.push(frame_of(page)) == before,
{
    lemma_frame_of(page);
    assert(frame_aligned(before[before.len() - 1]));
    assert(after.push(frame_of(page)) =~= before);
}

/// Takes the frame at the head of the free list.
pub fn allocate(memory: &mut Memory) -> (r: Result<u64, MemoryError>)
    requires
        old(memory).wf(),
    ensures
        final(memory).wf(),
        final(memory).tables() == old(memory).tables(),
        final(memory).hhdm_offset() == old(memory).hhdm_offset(),
        old(memory).frames_fresh() ==> final(memory).frames_fresh(),
        allocated(old(memory).free_frames(), final(memory).free_frames(), r),
        r matches Ok(page) ==> frame_aligned(page),
{
    match memory.free_list.pop() {
        Some(page) => {
            assert(memory.free_list@ =~= old(memory).free_list@.drop_last());
            proof {
                let f = memory.free_frames();
                let of = old(memory).free_frames();
                if old(memory).frames_fresh() {
                    assert forall|i: int| 0 <= i < f.len() implies !memory.tables().contains_key(#[trigger] f[i]) by {
                        assert(f[i] == of[i]);
                    }
                }
            }
            Ok(page)
        },
        None => Err(MemoryError::OutOfMemory),
    }
}

/// Puts the frame that holds `page` at the head of the free list.
pub fn free(memory: &mut Memory, page: u64)
    requires
        old(memory).wf(),
    ensures
        final(memory).wf(),
        final(memory).tables() == old(memory).tables(),
        final(memory).hhdm_offset() == old(memory).hhdm_offset(),
        final(memory).free_frames() == old(memory).free_frames().push(frame_of(page)),
{
    let quantized_page = page & !0xFFFu64;
    proof {
        lemma_frame_of(page);
    }
    memory.free_list.push(quantized_page);
}

/// Frees every frame of the usable regions of `memmap`, region by region and
/// frame by frame from the base up, and records the direct map's offset.
pub fn build(memory: &mut Memory, memmap: &[MemmapEntry], hhdm_offset: u64)
    requires
        old(memory).wf(),
        forall|i: int| 0 <= i < memmap@.len() ==> region_addressable(#[trigger] memmap@[i]),
    ensures
        final(memory).wf(),
        final(memory).tables() == old(memory).tables(),
        final(memory).hhdm_offset() == Some(hhdm_offset),
        final(memory).free_frames() == old(memory).free_frames() + usable_frames(memmap@),
{
    let ghost start = old(memory).free_frames();
    for i in 0..memmap.len()
        invariant
            memory.wf(),
            memory.tables() == old(memory).tables(),
            memory.hhdm_offset() == old(memory).hhdm_offset(),
            forall|j: int| 0 <= j < memmap@.len() ==> region_addressable(#[trigger] memmap@[j]),
            memory.free_frames() == start + usable_frames(memmap@.subrange(0, i as int)),
    {
        let entry = memmap[i];
        proof {
            assert(memmap@.subrange(0, i + 1).drop_last() =~= memmap@.subrange(0, i as int));
            assert(memmap@.subrange(0, i + 1).last() == entry);
        }
        if entry.typ != MemoryKind::Usable {
            proof {
                let s1 = memmap@.subrange(0, i + 1);
                assert(usable_frames(s1) == usable_frames(s1.drop_last()) + Seq::<u64>::empty());
                assert(usable_frames(s1) =~= usable_frames(memmap@.subrange(0, i as int)));
            }
        } else {
            let ghost n = frames_in(entry.len as int);
            let ghost before = memory.free_frames();
            proof {
                assert(region_addressable(memmap@[i as int]));
                assert(entry.len <= 4096 * n && 4096 * (n - 1) < entry.len) by (nonlinear_arith)
                    requires n == (entry.len + 4095) / 4096, entry.len >= 0;
            }
            let mut address = entry.base;
            let ghost mut k: int = 0;
            while address < entry.base + entry.len
                invariant
                    memory.wf(),
                    memory.tables() == old(memory).tables(),
                    memory.hhdm_offset() == old(memory).hhdm_offset(),
                    n == frames_in(entry.len as int),
                    entry.base + 4096 * n <= u64::MAX,
                    entry.len <= 4096 * n,
                    4096 * (n - 1) < entry.len,
                    0 <= k <= n,
                    address == entry.base + 4096 * k,
                    memory.free_frames() == before + region_frames(entry.base, entry.len).take(k),
                decreases n - k,
            {
                proof {
                    assert(k < n);
                }
                free(memory, address);
                proof {
                    assert(region_frames(entry.base, entry.len).take(k + 1)
                        =~= region_frames(entry.base, entry.len).take(k).push(frame_of(address)));
                    k = k + 1;
                }
                address = address + 4096;
            }
            proof {
                assert(k == n);
                assert(region_frames(entry.base, entry.len).take(k) =~= region_frames(entry.base, entry.len));
                assert(memory.free_frames() =~= start + usable_frames(memmap@.subrange(0, i + 1)));
            }
        }
    }
    proof {
        assert(memmap@.subrange(0, memmap@.len() as int) =~= memmap@);
    }
    memory.hhdm = Some(hhdm_offset);
}

/// The entry maps a frame or a lower table: its present bit is set.
pub open spec fn present(entry: u64) -> bool {
    entry & 1u64 != 0
}

/// The index into the level-4 table (PML4) for `vaddr`: bits 39 to 47.
pub open spec fn l4_index(vaddr: u64) -> int {
    ((vaddr >> 39u64) & 0x1FFu64) as int
}

/// The index into the level-3 table for `vaddr`: bits 30 to 38.
pub open spec fn l3_index(vaddr: u64) -> int {
    ((vaddr >> 30u64) & 0x1FFu64) as int
}

/// The index into the level-2 table for `vaddr`: bits 21 to 29.
pub open spec fn l2_index(vaddr: u64) -> int {
    ((vaddr >> 21u64) & 0x1FFu64) as int
}

/// The index into the level-1 table for `vaddr`: bits 12 to 20.
pub open spec fn l1_index(vaddr: u64) -> int {
    ((vaddr >> 12u64) & 0x1FFu64) as int
}

pub proof fn lemma_indices(vaddr: u64)
    ensures
        0 <= l4_index(vaddr) < 512,
        0 <= l3_index(vaddr) < 512,
        0 <= l2_index(vaddr) < 512,
        0 <= l1_index(vaddr) < 512,
{
    assert((vaddr >> 39u64) & 0x1FFu64 < 512) by (bit_vector);
    assert((vaddr >> 30u64) & 0x1FFu64 < 512) by (bit_vector);
    assert((vaddr >> 21u64) & 0x1FFu64 < 512) by (bit_vector);
    assert((vaddr >> 12u64) & 0x1FFu64 < 512) by (bit_vector);
}

/// An empty page table.
pub open spec fn zeroed_table() -> Seq<u64> {
    Seq::new(512, |i: int| 0u64)
}

/// The entries a walk of the page tables rooted at `root` reads for `vaddr`,
/// level 4 first. An entry below one that is not present is never read; it
/// is given here as it would be read from wherever its table would be.
pub open spec fn walk_entries(tables: Map<u64, Seq<u64>>, root: u64, vaddr: u64) -> (u64, u64, u64, u64) {
    let e4 = tables[root][l4_index(vaddr)];
    let e3 = tables[frame_of(e4)][l3_index(vaddr)];
    let e2 = tables[frame_of(e3)][l2_index(vaddr)];
    let e1 = tables[frame_of(e2)][l1_index(vaddr)];
    (e4, e3, e2, e1)
}

/// Every table the walk for `vaddr` reaches through present entries is
/// among `tables`.
pub open spec fn walk_defined(tables: Map<u64, Seq<u64>>, root: u64, vaddr: u64) -> bool {
    let (e4, e3, e2, e1) = walk_entries(tables, root, vaddr);
    &&& tables.contains_key(root)
    &&& present(e4) ==> tables.contains_key(frame_of(e4))
    &&& present(e4) && present(e3) ==> tables.contains_key(frame_of(e3))
    &&& present(e4) && present(e3) && present(e2) ==> tables.contains_key(frame_of(e2))
}

/// The frame that `vaddr` is mapped to by the page tables rooted at `root`,
/// or `None` where some entry on the way is not present.
pub open spec fn translate(tables: Map<u64, Seq<u64>>, root: u64, vaddr: u64) -> Option<u64> {
    let (e4, e3, e2, e1) = walk_entries(tables, root, vaddr);
    if present(e4) && present(e3) && present(e2) && present(e1) {
        Some(frame_of(e1))
    } else {
        None
    }
}

/// How many tables `map_to` has to create for `vaddr`: one for each level
/// below the first entry on the walk that is not present.
pub open spec fn tables_to_create(tables: Map<u64, Seq<u64>>, root: u64, vaddr: u64) -> nat {
    let (e4, e3, e2, e1) = walk_entries(tables, root, vaddr);
    if !present(e4) {
        3
    } else if !present(e3) {
        2
    } else if !present(e2) {
        1
    } else {
        0
    }
}

/// Where the walk for `vaddr` already reaches a level-1 table, its
/// level-1 entry is none of the entries read on the way there.
pub open spec fn walk_unaliased(tables: Map<u64, Seq<u64>>, root: u64, vaddr: u64) -> bool {
    let (e4, e3, e2, e1) = walk_entries(tables, root, vaddr);
    present(e4) && present(e3) && present(e2) ==> {
        let t1 = frame_of(e2);
        &&& !(t1 == root && l1_index(vaddr) == l4_index(vaddr))
        &&& !(t1 == frame_of(e4) && l1_index(vaddr) == l3_index(vaddr))
        &&& !(t1 == frame_of(e3) && l1_index(vaddr) == l2_index(vaddr))
    }
}

impl Memory {
    /// Each free frame is listed once and none of them holds a page table.
    pub open spec fn frames_fresh(&self) -> bool {
        &&& self.free_frames().no_duplicates()
        &&& forall|i: int| 0 <= i < self.free_frames().len() ==> !self.tables().contains_key(#[trigger] self.free_frames()[i])
    }

    /// Every page table has 512 entries.
    pub proof fn lemma_table_len(&self, a: u64)
        requires
            self.wf(),
            self.tables().contains_key(a),
        ensures
            self.tables()[a].len() == 512,
    {
    }

    /// Every page table has 512 entries, for all tables at once.
    pub proof fn lemma_all_tables_len(&self)
        requires
            self.wf(),
        ensures
            forall|a: u64| #[trigger] self.tables().contains_key(a) ==> self.tables()[a].len() == 512,
    {
    }

    proof fn lemma_tables(&self, a: u64)
        requires
            self.wf(),
            self.tables().contains_key(a),
        ensures
            self.tables@.contains_key(a),
            self.tables()[a] == self.tables@[a]@,
            self.tables()[a].len() == 512,
    {
    }

    /// The entry `index` of the table in the frame `table`.
    fn read_entry(&self, table: u64, index: usize) -> (e: u64)
        requires
            self.wf(),
            self.tables().contains_key(table),
            index < 512,
        ensures
            e == self.tables()[table][index as int],
    {
        proof {
            self.lemma_tables(table);
        }
        match self.tables.get(&table) {
            Some(t) => t[index],
            None => 0,
        }
    }

    /// Stores `value` as the entry `index` of the table in the frame `table`.
    pub(crate) fn write_entry(&mut self, table: u64, index: usize, value: u64)
        requires
            old(self).wf(),
            old(self).tables().contains_key(table),
            index < 512,
        ensures
            final(self).wf(),
            final(self).free_frames() == old(self).free_frames(),
            final(self).hhdm_offset() == old(self).hhdm_offset(),
            final(self).tables() == old(self).tables().insert(table, old(self).tables()[table].update(index as int, value)),
    {
        proof {
            old(self).lemma_tables(table);
        }
        let ghost before = self.tables@;
        match self.tables.remove(&table) {
            Some(mut t) => {
                t.set(index, value);
                self.tables.insert(table, t);
                proof {
                    assert(self.tables@ == before.insert(table, t));
                    assert(self.tables() =~= old(self).tables().insert(table, old(self).tables()[table].update(index as int, value)));
                }
            },
            None => {},
        }
    }

    /// Makes the frame `frame` a copy of the page table in the frame `source`.
    pub(crate) fn copy_table(&mut self, frame: u64, source: u64)
        requires
            old(self).wf(),
            old(self).tables().contains_key(source),
        ensures
            final(self).wf(),
            final(self).free_frames() == old(self).free_frames(),
            final(self).hhdm_offset() == old(self).hhdm_offset(),
            final(self).tables() == old(self).tables().insert(frame, old(self).tables()[source]),
    {
        let mut copy: Vec<u64> = Vec::new();
        for i in 0..512usize
            invariant
                self.wf(),
                self.tables().contains_key(source),
                copy@ == self.tables()[source].subrange(0, i as int),
        {
            let e = self.read_entry(source, i);
            copy.push(e);
            proof {
                assert(copy@ =~= self.tables()[source].subrange(0, i + 1));
            }
        }
        proof {
            assert(copy@ =~= old(self).tables()[source]);
        }
        self.tables.insert(frame, copy);
        proof {
            assert(self.tables() =~= old(self).tables().insert(frame, old(self).tables()[source]));
        }
    }

    /// Makes the frame `frame` an empty page table.
    fn install_table(&mut self, frame: u64)
        requires
            old(self).wf(),
        ensures
            final(self).wf(),
            final(self).free_frames() == old(self).free_frames(),
            final(self).hhdm_offset() == old(self).hhdm_offset(),
            final(self).tables() == old(self).tables().insert(frame, zeroed_table()),
    {
        let t: Vec<u64> = vec![0u64; 512];
        self.tables.insert(frame, t);
        proof {
            assert(t@ =~= zeroed_table());
            assert(self.tables() =~= old(self).tables().insert(frame, zeroed_table()));
        }
    }
}

proof fn lemma_new_entry(page: u64)
    requires
        frame_aligned(page),
    ensures
        present(page | 7),
        frame_of(page | 7) == page,
{
    assert((page | 7u64) & 1u64 != 0) by (bit_vector);
    assert(page % 4096 == 0 ==> ((page | 7u64) & !0xFFFu64) == page) by (bit_vector);
}

/// One level of `map_to`: the table that the entry `entry` of the table in
/// the frame `table` refers to, first creating an empty one, from the head
/// of the free list, where the entry is not present.
fn map_step(memory: &mut Memory, table: u64, entry: usize) -> (r: Option<u64>)
    requires
        old(memory).wf(),
        old(memory).frames_fresh(),
        old(memory).tables().contains_key(table),
        entry < 512,
    ensures
        final(memory).wf(),
        final(memory).frames_fresh(),
        final(memory).hhdm_offset() == old(memory).hhdm_offset(),
        forall|t: u64, i: int|
            old(memory).tables().contains_key(t) && 0 <= i < 512 && present(#[trigger] old(memory).tables()[t][i])
                ==> final(memory).tables().contains_key(t) && final(memory).tables()[t][i] == old(memory).tables()[t][i],
        forall|t: u64| old(memory).tables().contains_key(t) ==> #[trigger] final(memory).tables().contains_key(t),
        forall|t: u64|
            #[trigger] final(memory).tables().contains_key(t) <==> (old(memory).tables().contains_key(t)
                || (old(memory).free_frames().contains(t) && !final(memory).free_frames().contains(t))),
        forall|t: u64| #[trigger] final(memory).free_frames().contains(t) ==> old(memory).free_frames().contains(t),
        ({
            let e = old(memory).tables()[table][entry as int];
            if present(e) {
                &&& r == Some(frame_of(e))
                &&& final(memory).free_frames() == old(memory).free_frames()
                &&& final(memory).tables() == old(memory).tables()
            } else if old(memory).free_frames().len() == 0 {
                &&& r == None::<u64>
                &&& final(memory).free_frames() == old(memory).free_frames()
                &&& final(memory).tables() == old(memory).tables()
            } else {
                let page = old(memory).free_frames().last();
                &&& r == Some(page)
                &&& frame_aligned(page)
                &&& page != table
                &&& !old(memory).tables().contains_key(page)
                &&& final(memory).free_frames() == old(memory).free_frames().drop_last()
                &&& final(memory).tables() == old(memory).tables().insert(
                    table,
                    old(memory).tables()[table].update(entry as int, page | 7),
                ).insert(page, zeroed_table())
                &&& final(memory).tables()[table][entry as int] == page | 7
                &&& present(page | 7)
                &&& frame_of(page | 7) == page
            }
        }),
{
    let e = memory.read_entry(table, entry);
    if e & 1 == 0 {
        let page = match allocate(memory) {
            Ok(page) => page,
            Err(_) => {
                return None;
            },
        };
        proof {
            let n = old(memory).free_frames().len();
            assert(old(memory).free_frames()[n - 1] == page);
            lemma_new_entry(page);
        }
        memory.write_entry(table, entry, page | 7);
        memory.install_table(page);
        proof {
            let f = memory.free_frames();
            let of = old(memory).free_frames();
            assert forall|i: int| 0 <= i < f.len() implies !memory.tables().contains_key(#[trigger] f[i]) by {
                assert(f[i] == of[i]);
                assert(of[of.len() - 1] == page);
            }
            assert(of[of.len() - 1] == page);
            assert(of.contains(page));
            assert(!f.contains(page)) by {
                if f.contains(page) {
                    let k = f.index_of(page);
                    assert(of[k] == page);
                }
            }
            assert forall|t: u64| #[trigger] of.contains(t) && t != page implies f.contains(t) by {
                let k = of.index_of(t);
                assert(f[k] == t);
            }
            assert forall|t: u64| #[trigger] f.contains(t) implies of.contains(t) by {
                let k = f.index_of(t);
                assert(of[k] == t);
            }
        }
        Some(page)
    } else {
        proof {
            lemma_frame_of(e);
        }
        Some(e & !0xFFFu64)
    }
}

/// The slot `(table, index)` is one of the four entries the walk for
/// `vaddr` reads.
pub open spec fn walk_slot(tables: Map<u64, Seq<u64>>, root: u64, vaddr: u64, table: u64, index: int) -> bool {
    let (e4, e3, e2, e1) = walk_entries(tables, root, vaddr);
    ||| table == root && index == l4_index(vaddr)
    ||| table == frame_of(e4) && index == l3_index(vaddr)
    ||| table == frame_of(e3) && index == l2_index(vaddr)
    ||| table == frame_of(e2) && index == l1_index(vaddr)
}

/// Between `before` and `after`, only entries the walk for `vaddr` reads in
/// `after` changed: tables of `before` keep every other entry, and tables
/// new in `after` hold zero everywhere else.
pub open spec fn only_walk_changed(before: Map<u64, Seq<u64>>, after: Map<u64, Seq<u64>>, root: u64, vaddr: u64) -> bool {
    &&& forall|t: u64, i: int|
        before.contains_key(t) && 0 <= i < 512 && !walk_slot(after, root, vaddr, t, i)
            ==> #[trigger] after[t][i] == before[t][i]
    &&& forall|t: u64, i: int|
        after.contains_key(t) && !before.contains_key(t) && 0 <= i < 512 && !walk_slot(after, root, vaddr, t, i)
            ==> #[trigger] after[t][i] == 0
}

/// In `after`, the walk for `vaddr` passes through present entries to a
/// level-1 entry equal to `entry`; the entries of it that were present in
/// `before` are kept, the ones that were not now hold the frame of a new
/// table with the present, writable and user flags (7), and the tables it
/// reaches below the first that was not present are new and distinct.
pub open spec fn mapped_walk(before: Map<u64, Seq<u64>>, after: Map<u64, Seq<u64>>, root: u64, vaddr: u64, entry: u64) -> bool {
    let (e4, e3, e2, e1) = walk_entries(before, root, vaddr);
    let (f4, f3, f2, f1) = walk_entries(after, root, vaddr);
    &&& present(f4) && present(f3) && present(f2) && f1 == entry
    &&& present(e4) ==> f4 == e4
    &&& present(e4) && present(e3) ==> f3 == e3
    &&& present(e4) && present(e3) && present(e2) ==> f2 == e2
    &&& !present(e4) ==> f4 == frame_of(f4) | 7u64
    &&& !(present(e4) && present(e3)) ==> f3 == frame_of(f3) | 7u64
    &&& !(present(e4) && present(e3) && present(e2)) ==> f2 == frame_of(f2) | 7u64
    &&& !present(e4) ==> !before.contains_key(frame_of(f4))
    &&& !(present(e4) && present(e3)) ==> !before.contains_key(frame_of(f3))
    &&& !(present(e4) && present(e3) && present(e2)) ==> !before.contains_key(frame_of(f2))
    &&& !before.contains_key(frame_of(f4)) ==> frame_of(f4) != frame_of(f3) && frame_of(f4) != frame_of(f2)
    &&& !before.contains_key(frame_of(f3)) ==> frame_of(f3) != frame_of(f2)
}

/// Every entry that was present in `before` holds the same value in
/// `after`, except perhaps the one in the slot `leaf`.
pub open spec fn present_entries_kept(before: Map<u64, Seq<u64>>, after: Map<u64, Seq<u64>>, leaf: Option<(u64, int)>) -> bool {
    forall|t: u64, i: int|
        before.contains_key(t) && 0 <= i < 512 && present(#[trigger] before[t][i]) && leaf != Some((t, i))
            ==> after.contains_key(t) && after[t][i] == before[t][i]
}

/// A page that was mapped keeps its mapping, entry for entry, when only
/// entries that were not present changed, besides perhaps one slot that its
/// walk does not read.
pub proof fn lemma_mapped_kept(before: Map<u64, Seq<u64>>, after: Map<u64, Seq<u64>>, root: u64, u: u64, leaf: Option<(u64, int)>)
    requires
        present_entries_kept(before, after, leaf),
        walk_defined(before, root, u),
        translate(before, root, u).is_some(),
        leaf matches Some(slot) ==> !walk_slot(before, root, u, slot.0, slot.1),
    ensures
        walk_entries(after, root, u) == walk_entries(before, root, u),
        translate(after, root, u) == translate(before, root, u),
{
    lemma_indices(u);
    let (e4, e3, e2, e1) = walk_entries(before, root, u);
    assert(after[root][l4_index(u)] == e4);
    assert(after[frame_of(e4)][l3_index(u)] == e3);
    assert(after[frame_of(e3)][l2_index(u)] == e2);
    assert(after[frame_of(e2)][l1_index(u)] == e1);
}

/// The slot `(table, index)` is the level-4 or the level-3 entry that the
/// walk for `vaddr` reads.
pub open spec fn upper_walk_slot(tables: Map<u64, Seq<u64>>, root: u64, vaddr: u64, table: u64, index: int) -> bool {
    let (e4, e3, e2, e1) = walk_entries(tables, root, vaddr);
    ||| table == root && index == l4_index(vaddr)
    ||| table == frame_of(e4) && index == l3_index(vaddr)
}

/// Maps the page of `vaddr` to `paddr` with `flags` in the page tables
/// rooted at the frame `pagemap`, creating the missing lower tables from
/// the free list, each linked with the flags 7. `None` where the free list
/// ran out first: then only the level-4 and level-3 entries of the walk may
/// have changed, each from not present to a new empty table, and no level-1
/// entry was written.
pub fn map_to(memory: &mut Memory, pagemap: u64, vaddr: u64, paddr: u64, flags: u64) -> (r: Option<u64>)
    requires
        old(memory).wf(),
        old(memory).frames_fresh(),
        walk_defined(old(memory).tables(), pagemap, vaddr),
    ensures
        final(memory).wf(),
        final(memory).frames_fresh(),
        final(memory).hhdm_offset() == old(memory).hhdm_offset(),
        r.is_some() <==> old(memory).free_frames().len() >= tables_to_create(old(memory).tables(), pagemap, vaddr),
        r.is_some() ==> r == Some(paddr),
        r.is_some() ==> final(memory).free_frames() == old(memory).free_frames().subrange(
            0,
            old(memory).free_frames().len() - tables_to_create(old(memory).tables(), pagemap, vaddr),
        ),
        r.is_none() ==> final(memory).free_frames() == Seq::<u64>::empty(),
        r.is_some() && walk_unaliased(old(memory).tables(), pagemap, vaddr) ==> walk_defined(
            final(memory).tables(),
            pagemap,
            vaddr,
        ),
        r.is_some() && walk_unaliased(old(memory).tables(), pagemap, vaddr) ==> translate(
            final(memory).tables(),
            pagemap,
            vaddr,
        ) == if present(paddr | flags) {
            Some(frame_of(paddr | flags))
        } else {
            None::<u64>
        },
        forall|t: u64|
            #[trigger] final(memory).tables().contains_key(t) <==> (old(memory).tables().contains_key(t)
                || (old(memory).free_frames().contains(t) && !final(memory).free_frames().contains(t))),
        only_walk_changed(old(memory).tables(), final(memory).tables(), pagemap, vaddr),
        r.is_none() ==> present_entries_kept(old(memory).tables(), final(memory).tables(), None),
        r.is_none() ==> forall|t: u64, i: int|
            old(memory).tables().contains_key(t) && 0 <= i < 512 && !upper_walk_slot(final(memory).tables(), pagemap, vaddr, t, i)
                ==> #[trigger] final(memory).tables()[t][i] == old(memory).tables()[t][i],
        r.is_none() ==> forall|t: u64, i: int|
            final(memory).tables().contains_key(t) && !old(memory).tables().contains_key(t) && 0 <= i < 512
                && !upper_walk_slot(final(memory).tables(), pagemap, vaddr, t, i) ==> #[trigger] final(memory).tables()[t][i] == 0,
        r.is_some() && walk_unaliased(old(memory).tables(), pagemap, vaddr) ==> present_entries_kept(
            old(memory).tables(),
            final(memory).tables(),
            Some((frame_of(walk_entries(final(memory).tables(), pagemap, vaddr).2), l1_index(vaddr))),
        ),
        r.is_some() && walk_unaliased(old(memory).tables(), pagemap, vaddr) ==> mapped_walk(
            old(memory).tables(),
            final(memory).tables(),
            pagemap,
            vaddr,
            paddr | flags,
        ),
{
    proof {
        lemma_indices(vaddr);
    }
    let entry_l4 = ((vaddr >> 39) & 0x1FF) as usize;
    let entry_l3 = ((vaddr >> 30) & 0x1FF) as usize;
    let entry_l2 = ((vaddr >> 21) & 0x1FF) as usize;
    let entry_l1 = ((vaddr >> 12) & 0x1FF) as usize;
    let ghost m0 = *memory;
    let ghost (e4, e3, e2, e1) = walk_entries(m0.tables(), pagemap, vaddr);
    proof {
        assert(!present(0u64)) by (bit_vector);
    }
    let pml3 = match map_step(memory, pagemap, entry_l4) {
        Some(t) => t,
        None => {
            return None;
        },
    };
    let ghost m1 = *memory;
    proof {
        lemma_frame_of(m1.tables()[pagemap][entry_l4 as int]);
        assert(pml3 == frame_of(m1.tables()[pagemap][entry_l4 as int]));
        if present(e4) {
            assert(pml3 == frame_of(e4));
            assert(m1.tables()[pml3] == m0.tables()[pml3]);
        } else {
            assert(m1.tables()[pml3] == zeroed_table());
        }
    }
    let pml2 = match map_step(memory, pml3, entry_l3) {
        Some(t) => t,
        None => {
            return None;
        },
    };
    let ghost m2 = *memory;
    proof {
        if present(e4) && present(e3) {
            assert(pml2 == frame_of(e3));
            assert(m2.tables()[pml2] == m0.tables()[pml2]);
        } else {
            assert(m2.tables()[pml2] == zeroed_table());
        }
        assert(m2.tables().contains_key(pml2));
    }
    let pml1 = match map_step(memory, pml2, entry_l2) {
        Some(t) => t,
        None => {
            return None;
        },
    };
    let ghost m3 = *memory;
    proof {
        if present(e4) && present(e3) && present(e2) {
            assert(pml1 == frame_of(e2));
        }
        assert(m3.tables().contains_key(pml1));
    }
    memory.write_entry(pml1, entry_l1, paddr | flags);
    proof {
        let v = paddr | flags;
        let t4 = memory.tables();
        let s4 = m1.tables()[pagemap][entry_l4 as int];
        let s3 = m2.tables()[pml3][entry_l3 as int];
        let s2 = m3.tables()[pml2][entry_l2 as int];
        assert(present(s4) && frame_of(s4) == pml3);
        assert(present(s3) && frame_of(s3) == pml2);
        assert(present(s2) && frame_of(s2) == pml1);
        assert(m1.tables().contains_key(pagemap));
        assert(m2.tables()[pagemap][entry_l4 as int] == s4);
        assert(m3.tables()[pagemap][entry_l4 as int] == s4);
        assert(m3.tables()[pml3][entry_l3 as int] == s3);
        if present(e4) && present(e3) && present(e2) {
            if walk_unaliased(m0.tables(), pagemap, vaddr) {
                assert(t4[pagemap][entry_l4 as int] == s4);
                assert(t4[pml3][entry_l3 as int] == s3);
                assert(t4[pml2][entry_l2 as int] == s2);
                assert(t4[pml1][entry_l1 as int] == v);
                assert(walk_entries(t4, pagemap, vaddr) == (s4, s3, s2, v));
            }
        } else {
            assert(!m2.tables().contains_key(pml1));
            assert(t4[pagemap][entry_l4 as int] == s4);
            assert(t4[pml3][entry_l3 as int] == s3);
            assert(t4[pml2][entry_l2 as int] == s2);
            assert(t4[pml1][entry_l1 as int] == v);
            assert(walk_entries(t4, pagemap, vaddr) == (s4, s3, s2, v));
        }
    }
    Some(paddr)
}

/// The tables below entry 0 of the level-4 table `root` form a tree with
/// level-3 tables `a3`, level-2 tables `a2` and level-1 tables `a1`: each
/// present entry of a table points to a table of the level below, and no two
/// entries point to the same table.
pub open spec fn low_tree(t: Map<u64, Seq<u64>>, root: u64, a3: Set<u64>, a2: Set<u64>, a1: Set<u64>) -> bool {
    &&& t.contains_key(root)
    &&& forall|x: u64| #[trigger] a3.contains(x) ==> t.contains_key(x) && x != root && !a2.contains(x) && !a1.contains(x)
    &&& forall|x: u64| #[trigger] a2.contains(x) ==> t.contains_key(x) && x != root && !a1.contains(x)
    &&& forall|x: u64| #[trigger] a1.contains(x) ==> t.contains_key(x) && x != root
    &&& present(t[root][0]) ==> a3.contains(frame_of(t[root][0]))
    &&& forall|x: u64, i: int|
        a3.contains(x) && 0 <= i < 512 && present(#[trigger] t[x][i]) ==> a2.contains(frame_of(t[x][i]))
    &&& forall|x: u64, i: int|
        a2.contains(x) && 0 <= i < 512 && present(#[trigger] t[x][i]) ==> a1.contains(frame_of(t[x][i]))
    &&& forall|x: u64, i: int, y: u64, j: int|
        a3.contains(x) && a3.contains(y) && 0 <= i < 512 && 0 <= j < 512 && present(#[trigger] t[x][i])
            && present(#[trigger] t[y][j]) && frame_of(t[x][i]) == frame_of(t[y][j]) ==> x == y && i == j
    &&& forall|x: u64, i: int, y: u64, j: int|
        a2.contains(x) && a2.contains(y) && 0 <= i < 512 && 0 <= j < 512 && present(#[trigger] t[x][i])
            && present(#[trigger] t[y][j]) && frame_of(t[x][i]) == frame_of(t[y][j]) ==> x == y && i == j
}

/// In a tree below entry 0, the walk for an address whose level-4 index is
/// 0 only reaches known tables, each level in a table of its own.
pub proof fn lemma_low_tree_walk(t: Map<u64, Seq<u64>>, root: u64, a3: Set<u64>, a2: Set<u64>, a1: Set<u64>, v: u64)
    requires
        low_tree(t, root, a3, a2, a1),
        l4_index(v) == 0,
    ensures
        walk_defined(t, root, v),
        walk_unaliased(t, root, v),
{
    lemma_indices(v);
    let (e4, e3, e2, e1) = walk_entries(t, root, v);
    if present(e4) {
        assert(a3.contains(frame_of(e4)));
        if present(e3) {
            assert(a2.contains(frame_of(e3)));
            if present(e2) {
                assert(a1.contains(frame_of(e2)));
            }
        }
    }
}

/// A `map_to` for an address whose level-4 index is 0 keeps the tree below
/// entry 0, with the tables of the new walk added to their levels.
pub proof fn lemma_low_tree_map(
    before: Map<u64, Seq<u64>>,
    after: Map<u64, Seq<u64>>,
    root: u64,
    a3: Set<u64>,
    a2: Set<u64>,
    a1: Set<u64>,
    v: u64,
    entry: u64,
)
    requires
        low_tree(before, root, a3, a2, a1),
        l4_index(v) == 0,
        forall|x: u64| #[trigger] before.contains_key(x) ==> after.contains_key(x),
        walk_defined(after, root, v),
        only_walk_changed(before, after, root, v),
        mapped_walk(before, after, root, v, entry),
    ensures
        ({
            let (f4, f3, f2, f1) = walk_entries(after, root, v);
            low_tree(after, root, a3.insert(frame_of(f4)), a2.insert(frame_of(f3)), a1.insert(frame_of(f2)))
        }),
{
    lemma_indices(v);
    let (e4, e3, e2, e1) = walk_entries(before, root, v);
    let (f4, f3, f2, f1) = walk_entries(after, root, v);
    let t3 = frame_of(f4);
    let t2 = frame_of(f3);
    let t1 = frame_of(f2);
    let b3 = a3.insert(t3);
    let b2 = a2.insert(t2);
    let b1 = a1.insert(t1);
    let l3 = l3_index(v);
    let l2 = l2_index(v);
    let l1 = l1_index(v);
    // Where the walk's tables lie.
    if before.contains_key(t3) {
        assert(present(e4));
        assert(a3.contains(t3));
    }
    if before.contains_key(t2) {
        assert(present(e4) && present(e3));
        assert(a2.contains(t2));
    }
    if before.contains_key(t1) {
        assert(present(e4) && present(e3) && present(e2));
        assert(a1.contains(t1));
    }
    assert(root != t3 && root != t2 && root != t1);
    assert(t3 != t2 && t3 != t1 && t2 != t1);
    // The walk slots of `after`.
    assert forall|x: u64, i: int| #[trigger] walk_slot(after, root, v, x, i) <==> (
        (x == root && i == 0) || (x == t3 && i == l3) || (x == t2 && i == l2) || (x == t1 && i == l1)) by {}
    assert(present(after[root][0]) && frame_of(after[root][0]) == t3);
    assert forall|x: u64| #[trigger] b3.contains(x) implies after.contains_key(x) && x != root && !b2.contains(x) && !b1.contains(x) by {}
    assert forall|x: u64| #[trigger] b2.contains(x) implies after.contains_key(x) && x != root && !b1.contains(x) by {}
    assert forall|x: u64| #[trigger] b1.contains(x) implies after.contains_key(x) && x != root by {}
    assert forall|x: u64, i: int| b3.contains(x) && 0 <= i < 512 && present(#[trigger] after[x][i]) implies b2.contains(frame_of(after[x][i])) by {
        if x == t3 && i == l3 {
        } else if before.contains_key(x) {
            assert(!walk_slot(after, root, v, x, i));
            assert(after[x][i] == before[x][i]);
        } else {
            assert(!walk_slot(after, root, v, x, i));
            assert(after[x][i] == 0);
            assert(!present(0u64)) by (bit_vector);
        }
    }
    assert forall|x: u64, i: int| b2.contains(x) && 0 <= i < 512 && present(#[trigger] after[x][i]) implies b1.contains(frame_of(after[x][i])) by {
        if x == t2 && i == l2 {
        } else if before.contains_key(x) {
            assert(!walk_slot(after, root, v, x, i));
            assert(after[x][i] == before[x][i]);
        } else {
            assert(!walk_slot(after, root, v, x, i));
            assert(after[x][i] == 0);
            assert(!present(0u64)) by (bit_vector);
        }
    }
    assert forall|x: u64, i: int, y: u64, j: int|
        b3.contains(x) && b3.contains(y) && 0 <= i < 512 && 0 <= j < 512 && present(#[trigger] after[x][i])
            && present(#[trigger] after[y][j]) && frame_of(after[x][i]) == frame_of(after[y][j]) implies x == y && i == j by {
        assert(!present(0u64)) by (bit_vector);
        let xi_walk = x == t3 && i == l3;
        let yj_walk = y == t3 && j == l3;
        if !xi_walk {
            assert(!walk_slot(after, root, v, x, i));
            assert(before.contains_key(x));
            assert(after[x][i] == before[x][i]);
        }
        if !yj_walk {
            assert(!walk_slot(after, root, v, y, j));
            assert(before.contains_key(y));
            assert(after[y][j] == before[y][j]);
        }
        if xi_walk && !yj_walk {
            if !before.contains_key(t2) {
                assert(a2.contains(frame_of(before[y][j])));
            } else {
                assert(after[x][i] == before[x][i]);
            }
        }
        if yj_walk && !xi_walk {
            if !before.contains_key(t2) {
                assert(a2.contains(frame_of(before[x][i])));
            } else {
                assert(after[y][j] == before[y][j]);
            }
        }
    }
    assert forall|x: u64, i: int, y: u64, j: int|
        b2.contains(x) && b2.contains(y) && 0 <= i < 512 && 0 <= j < 512 && present(#[trigger] after[x][i])
            && present(#[trigger] after[y][j]) && frame_of(after[x][i]) == frame_of(after[y][j]) implies x == y && i == j by {
        assert(!present(0u64)) by (bit_vector);
        let xi_walk = x == t2 && i == l2;
        let yj_walk = y == t2 && j == l2;
        if !xi_walk {
            assert(!walk_slot(after, root, v, x, i));
            assert(before.contains_key(x));
            assert(after[x][i] == before[x][i]);
        }
        if !yj_walk {
            assert(!walk_slot(after, root, v, y, j));
            assert(before.contains_key(y));
            assert(after[y][j] == before[y][j]);
        }
        if xi_walk && !yj_walk {
            if !before.contains_key(t1) {
                assert(a1.contains(frame_of(before[y][j])));
            } else {
                assert(after[x][i] == before[x][i]);
            }
        }
        if yj_walk && !xi_walk {
            if !before.contains_key(t1) {
                assert(a1.contains(frame_of(before[x][i])));
            } else {
                assert(after[y][j] == before[y][j]);
            }
        }
    }
}

/// The page of `u` and the page of `v` are different pages below entry 0.
pub open spec fn other_low_page(u: u64, v: u64) -> bool {
    l4_index(u) == 0 && l4_index(v) == 0 && (l3_index(u) != l3_index(v) || l2_index(u) != l2_index(v)
        || l1_index(u) != l1_index(v))
}

/// A `map_to` for an address below entry 0 leaves the mapping of every
/// other page below entry 0 that was mapped before.
pub proof fn lemma_low_tree_keeps(
    before: Map<u64, Seq<u64>>,
    after: Map<u64, Seq<u64>>,
    root: u64,
    a3: Set<u64>,
    a2: Set<u64>,
    a1: Set<u64>,
    v: u64,
    entry: u64,
    u: u64,
)
    requires
        low_tree(before, root, a3, a2, a1),
        forall|x: u64| #[trigger] before.contains_key(x) ==> after.contains_key(x),
        only_walk_changed(before, after, root, v),
        mapped_walk(before, after, root, v, entry),
        other_low_page(u, v),
        translate(before, root, u).is_some(),
    ensures
        walk_entries(after, root, u) == walk_entries(before, root, u),
        translate(after, root, u) == translate(before, root, u),
{
    lemma_indices(v);
    lemma_indices(u);
    let (e4, e3, e2, e1) = walk_entries(before, root, v);
    let (f4, f3, f2, f1) = walk_entries(after, root, v);
    let (g4, g3, g2, g1) = walk_entries(before, root, u);
    let t3 = frame_of(f4);
    let t2 = frame_of(f3);
    let t1 = frame_of(f2);
    let u3 = frame_of(g4);
    let u2 = frame_of(g3);
    let u1 = frame_of(g2);
    assert(a3.contains(u3));
    assert(a2.contains(u2));
    assert(a1.contains(u1));
    assert(before.contains_key(u3) && before.contains_key(u2) && before.contains_key(u1));
    // The walk of `v` starts at the same level-3 table.
    assert(g4 == e4);
    assert(f4 == e4);
    assert(t3 == u3);
    if before.contains_key(t2) {
        assert(present(e3));
        assert(a2.contains(t2));
    }
    if before.contains_key(t1) {
        assert(present(e3) && present(e2));
        assert(a1.contains(t1));
    }
    let l3 = l3_index(v);
    let l2 = l2_index(v);
    let l1 = l1_index(v);
    // Each entry of the walk of `u` keeps its value.
    assert(after[root][0] == before[root][0]);
    if l3_index(u) == l3 {
        assert(f3 == e3);
    } else {
        assert(!walk_slot(after, root, v, u3, l3_index(u)));
    }
    assert(after[u3][l3_index(u)] == g3);
    if l3_index(u) == l3 && l2_index(u) == l2 {
        assert(f2 == e2);
    } else {
        if u2 == t2 {
            assert(before.contains_key(t2));
            assert(frame_of(before[u3][l3_index(u)]) == frame_of(before[t3][l3]));
        }
        assert(!walk_slot(after, root, v, u2, l2_index(u)));
    }
    assert(after[u2][l2_index(u)] == g2);
    if u1 == t1 {
        assert(before.contains_key(t1));
        assert(frame_of(before[u2][l2_index(u)]) == frame_of(before[t2][l2]));
        assert(u2 == t2 && l2_index(u) == l2);
        assert(frame_of(before[u3][l3_index(u)]) == frame_of(before[t3][l3]));
        assert(l3_index(u) == l3);
        assert(l1_index(u) != l1);
    }
    assert(!walk_slot(after, root, v, u1, l1_index(u)));
    assert(after[u1][l1_index(u)] == g1);
    assert(walk_entries(after, root, u) == (g4, g3, g2, g1));
}

/// A `map_to` for an address below entry 0 maps no other page below entry 0
/// that was not mapped before.
pub proof fn lemma_low_tree_no_new(
    before: Map<u64, Seq<u64>>,
    after: Map<u64, Seq<u64>>,
    root: u64,
    a3: Set<u64>,
    a2: Set<u64>,
    a1: Set<u64>,
    v: u64,
    entry: u64,
    u: u64,
)
    requires
        low_tree(before, root, a3, a2, a1),
        forall|x: u64| #[trigger] before.contains_key(x) ==> after.contains_key(x),
        only_walk_changed(before, after, root, v),
        walk_defined(after, root, v),
        mapped_walk(before, after, root, v, entry),
        other_low_page(u, v),
        translate(after, root, u).is_some(),
    ensures
        translate(before, root, u) == translate(after, root, u),
{
    lemma_indices(v);
    lemma_indices(u);
    assert(!present(0u64)) by (bit_vector);
    let (e4, e3, e2, e1) = walk_entries(before, root, v);
    let (f4, f3, f2, f1) = walk_entries(after, root, v);
    let (h4, h3, h2, h1) = walk_entries(after, root, u);
    let t3 = frame_of(f4);
    let t2 = frame_of(f3);
    let t1 = frame_of(f2);
    let l3 = l3_index(v);
    let l2 = l2_index(v);
    let l1 = l1_index(v);
    // Where the walk's tables lie.
    if before.contains_key(t3) {
        assert(present(e4));
        assert(a3.contains(t3));
    }
    if before.contains_key(t2) {
        assert(present(e4) && present(e3));
        assert(a2.contains(t2));
    }
    if before.contains_key(t1) {
        assert(present(e4) && present(e3) && present(e2));
        assert(a1.contains(t1));
    }
    assert(root != t3 && root != t2 && root != t1);
    assert(t3 != t2 && t3 != t1 && t2 != t1);
    assert(h4 == f4);
    let u2 = frame_of(h3);
    let u1 = frame_of(h2);
    if l3_index(u) == l3 {
        assert(h3 == f3);
        if l2_index(u) == l2 {
            assert(h2 == f2);
            assert(l1_index(u) != l1);
            assert(!walk_slot(after, root, v, t1, l1_index(u)));
            if !before.contains_key(t1) {
                assert(after[t1][l1_index(u)] == 0);
            }
            assert(before[t1][l1_index(u)] == h1);
        } else {
            assert(!walk_slot(after, root, v, t2, l2_index(u)));
            if !before.contains_key(t2) {
                assert(after[t2][l2_index(u)] == 0);
            }
            assert(before.contains_key(t2));
            assert(before[t2][l2_index(u)] == h2);
            assert(a1.contains(u1));
            if u1 == t1 {
                if before.contains_key(t1) {
                    assert(frame_of(before[t2][l2_index(u)]) == frame_of(before[t2][l2]));
                }
            }
            assert(u1 != t1);
            assert(!walk_slot(after, root, v, u1, l1_index(u)));
            assert(before[u1][l1_index(u)] == h1);
        }
    } else {
        assert(!walk_slot(after, root, v, t3, l3_index(u)));
        if !before.contains_key(t3) {
            assert(after[t3][l3_index(u)] == 0);
        }
        assert(before.contains_key(t3));
        assert(before[t3][l3_index(u)] == h3);
        assert(a2.contains(u2));
        if u2 == t2 {
            if before.contains_key(t2) {
                assert(frame_of(before[t3][l3_index(u)]) == frame_of(before[t3][l3]));
            }
        }
        assert(u2 != t2);
        assert(!walk_slot(after, root, v, u2, l2_index(u)));
        assert(before[u2][l2_index(u)] == h2);
        assert(a1.contains(u1));
        if u1 == t1 {
            if before.contains_key(t1) {
                assert(frame_of(before[u2][l2_index(u)]) == frame_of(before[t2][l2]));
            }
        }
        assert(u1 != t1);
        assert(!walk_slot(after, root, v, u1, l1_index(u)));
        assert(before[u1][l1_index(u)] == h1);
    }
    assert(walk_entries(before, root, u) == (h4, h3, h2, h1));
}

/// One level of a walk: the table the entry `entry` of the table in the
/// frame `table` refers to, or `None` where the entry is not present.
fn translate_step(memory: &Memory, table: u64, entry: usize) -> (r: Option<u64>)
    requires
        memory.wf(),
        memory.tables().contains_key(table),
        entry < 512,
    ensures
        r == if present(memory.tables()[table][entry as int]) {
            Some(frame_of(memory.tables()[table][entry as int]))
        } else {
            None::<u64>
        },
{
    let e = memory.read_entry(table, entry);
    if e & 1 == 0 {
        None
    } else {
        Some(e & !0xFFFu64)
    }
}

/// The frame that the page of `vaddr` is mapped to by the page tables rooted
/// at the frame `pagemap`, or `None` where it is not mapped.
pub fn translate_page(memory: &Memory, pagemap: u64, vaddr: u64) -> (r: Option<u64>)
    requires
        memory.wf(),
        walk_defined(memory.tables(), pagemap, vaddr),
    ensures
        r == translate(memory.tables(), pagemap, vaddr),
{
    proof {
        lemma_indices(vaddr);
    }
    let entry_l4 = ((vaddr >> 39) & 0x1FF) as usize;
    let entry_l3 = ((vaddr >> 30) & 0x1FF) as usize;
    let entry_l2 = ((vaddr >> 21) & 0x1FF) as usize;
    let entry_l1 = ((vaddr >> 12) & 0x1FF) as usize;
    let pml3 = match translate_step(memory, pagemap, entry_l4) {
        Some(t) => t,
        None => {
            return None;
        },
    };
    let pml2 = match translate_step(memory, pml3, entry_l3) {
        Some(t) => t,
        None => {
            return None;
        },
    };
    let pml1 = match translate_step(memory, pml2, entry_l2) {
        Some(t) => t,
        None => {
            return None;
        },
    };
    let e = memory.read_entry(pml1, entry_l1);
    if e & 1 == 0 {
        None
    } else {
        Some(e & !0xFFFu64)
    }
}

} // verus!
