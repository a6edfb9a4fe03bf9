//! Lays a resolved table out in sectors: the primary sector and one extended boot record
//! (EBR) per logical partition.
//!
//! Each EBR sits in the first block of its logical partition's range, and the partition's
//! data starts in the block after it. EBRs are chained in input order: the second entry of
//! each points at the next EBR, relative to the start of the extended container. That
//! container starts at the first EBR, where the MBR's extended entry points. CHS fields
//! always hold the "unrepresentable" triple (1023, 255, 63); the LBA fields are
//! authoritative.
use vstd::prelude::*;
use super::header::{encode, entry_bytes, le32_bytes, Chs, EntryFields, SectorFields};
use super::resolve::{logical_positions, LayoutModel, MbrLayout};
use super::resolve::layout_ok;
use super::{MbrPart, DATA_PART_TYPE, EXTENDED_LBA_PART_TYPE, EXTENDED_LINK_PART_TYPE};

verus! {

/// The 16 bytes of an entry with the "unrepresentable" CHS triple in both CHS fields.
pub open spec fn entry_image(status: u8, part_type: u8, first: u64, size: u64) -> Seq<u8> {
    seq![status, 0xffu8, 0xffu8, 0xffu8, part_type, 0xffu8, 0xffu8, 0xffu8] + le32_bytes(
        first as u32,
    ) + le32_bytes(size as u32)
}

pub open spec fn zero_bytes(n: int) -> Seq<u8> {
    Seq::new(n as nat, |i: int| 0u8)
}

/// Status byte of the partition at position `j`.
pub open spec fn status_for(l: LayoutModel, j: int) -> u8 {
    if l.bootable == Some(j) {
        0x80
    } else {
        0
    }
}

/// The first of the first `i` partitions that has number `k`.
pub open spec fn slot_owner(parts: Seq<MbrPart>, k: int, i: int) -> Option<int>
    decreases i,
{
    if i <= 0 {
        None
    } else {
        match slot_owner(parts, k, i - 1) {
            Some(j) => Some(j),
            None => if parts[i - 1].number == k {
                Some(i - 1)
            } else {
                None
            },
        }
    }
}

/// Primary entry `k`: the partition with number `k`, else the container if it has that
/// number, else all zero.
pub open spec fn primary_slot(l: LayoutModel, k: int) -> Seq<u8> {
    match slot_owner(l.parts, k, l.parts.len() as int) {
        Some(j) => entry_image(
            status_for(l, j),
            DATA_PART_TYPE,
            l.parts[j].start,
            (l.parts[j].end - l.parts[j].start) as u64,
        ),
        None => match l.container {
            Some(c) => if c.number == k {
                entry_image(0, EXTENDED_LBA_PART_TYPE, c.start, (c.end - c.start) as u64)
            } else {
                zero_bytes(16)
            },
            None => zero_bytes(16),
        },
    }
}

/// The primary sector.
pub open spec fn primary_sector(head: Seq<u8>, l: LayoutModel) -> Seq<u8> {
    head + primary_slot(l, 0) + primary_slot(l, 1) + primary_slot(l, 2) + primary_slot(
        l,
        3,
    ) + seq![0x55u8, 0xaau8]
}

/// The EBR of the `k`-th logical partition.
pub open spec fn ebr_sector(l: LayoutModel, k: int) -> Seq<u8> {
    let idx = logical_positions(l.parts, l.parts.len() as int);
    let p = l.parts[idx[k]];
    let c = l.container->0;
    zero_bytes(446) + entry_image(
        status_for(l, idx[k]),
        DATA_PART_TYPE,
        1,
        (p.end - p.start - 1) as u64,
    ) + if k + 1 < idx.len() {
        let q = l.parts[idx[k + 1]];
        entry_image(0, EXTENDED_LINK_PART_TYPE, (q.start - c.start) as u64, (q.end - q.start) as u64)
    } else {
        zero_bytes(16)
    } + zero_bytes(16) + zero_bytes(16) + seq![0x55u8, 0xaau8]
}

/// Every sector of the table with its block address: the primary sector at block 0, then
/// the EBRs in chain order.
pub open spec fn table_sectors(head: Seq<u8>, l: LayoutModel) -> Seq<(u64, Seq<u8>)> {
    let idx = logical_positions(l.parts, l.parts.len() as int);
    seq![(0u64, primary_sector(head, l))] + Seq::new(
        idx.len(),
        |k: int| (l.parts[idx[k]].start, ebr_sector(l, k)),
    )
}

/// One sector to be written at block `lba`.
pub struct MbrSector {
    pub lba: u64,
    pub data: [u8; 512],
}

/// A table that may be directly commited to a device: its sectors, in writing order.
pub struct MbrWriter {
    sectors: Vec<MbrSector>,
}

impl View for MbrWriter {
    type V = Seq<(u64, Seq<u8>)>;

    closed spec fn view(&self) -> Seq<(u64, Seq<u8>)> {
        self.sectors@.map_values(|s: MbrSector| (s.lba, s.data@))
    }
}

impl MbrWriter {
    /// The sectors to write, in order.
    pub fn sectors(&self) -> (r: &Vec<MbrSector>)
        ensures
            r@.len() == self@.len(),
            forall|i: int|
                0 <= i < r@.len() ==> (#[trigger] r@[i]).lba == self@[i].0 && r@[i].data@
                    == self@[i].1,
    {
        &self.sectors
    }
}

fn make_entry(status: u8, part_type: u8, first: u64, size: u64) -> (e: EntryFields)
    ensures
        entry_bytes(e) == entry_image(status, part_type, first, size),
{
    let e = EntryFields {
        status,
        chs_first: Chs::unrepresentable(),
        part_type,
        chs_last: Chs::unrepresentable(),
        lba_first: first as u32,
        lba_size: size as u32,
    };
    assert(entry_bytes(e) =~= entry_image(status, part_type, first, size));
    e
}

fn zero_entry() -> (e: EntryFields)
    ensures
        entry_bytes(e) == zero_bytes(16),
{
    let e = EntryFields {
        status: 0,
        chs_first: Chs::new(0, 0, 0),
        part_type: 0,
        chs_last: Chs::new(0, 0, 0),
        lba_first: 0,
        lba_size: 0,
    };
    assert(entry_bytes(e) =~= zero_bytes(16));
    e
}


proof fn lemma_slot_owner_stable(parts: Seq<MbrPart>, k: int, i: int, n: int)
    requires
        0 <= i <= n,
        slot_owner(parts, k, i) is Some,
    ensures
        slot_owner(parts, k, n) == slot_owner(parts, k, i),
    decreases n - i,
{
    if i < n {
        lemma_slot_owner_stable(parts, k, i, n - 1);
    }
}

fn find_slot_owner(parts: &Vec<MbrPart>, k: u32) -> (r: Option<usize>)
    ensures
        match r {
            Some(j) => j < parts@.len() && slot_owner(parts@, k as int, parts@.len() as int)
                == Some(j as int),
            None => slot_owner(parts@, k as int, parts@.len() as int) is None,
        },
{
    let n = parts.len();
    let mut j: usize = 0;
    while j < n
        invariant
            n == parts@.len(),
            j <= n,
            slot_owner(parts@, k as int, j as int) is None,
        decreases n - j,
    {
        if parts[j].number == k {
            proof {
                lemma_slot_owner_stable(parts@, k as int, j + 1, n as int);
            }
            return Some(j);
        }
        j = j + 1;
    }
    None
}

fn status_of_part(l: &MbrLayout, j: usize) -> (r: u8)
    ensures
        r == status_for(l@, j as int),
{
    match l.bootable {
        Some(b) => if b == j {
            0x80
        } else {
            0
        },
        None => 0,
    }
}

fn primary_entry(l: &MbrLayout, k: u32) -> (e: EntryFields)
    requires
        layout_ok(l@),
    ensures
        entry_bytes(e) == primary_slot(l@, k as int),
{
    match find_slot_owner(&l.parts, k) {
        Some(j) => {
            let p = l.parts[j];
            assert(l@.parts[j as int].start < l@.parts[j as int].end);
            make_entry(status_of_part(l, j), DATA_PART_TYPE, p.start, p.end - p.start)
        },
        None => match l.container {
            Some(c) => if c.number == k {
                make_entry(0, EXTENDED_LBA_PART_TYPE, c.start, c.end - c.start)
            } else {
                zero_entry()
            },
            None => zero_entry(),
        },
    }
}

fn logical_list(parts: &Vec<MbrPart>) -> (r: Vec<usize>)
    ensures
        r@.len() == logical_positions(parts@, parts@.len() as int).len(),
        forall|k: int|
            0 <= k < r@.len() ==> #[trigger] r@[k] as int == logical_positions(
                parts@,
                parts@.len() as int,
            )[k],
        forall|k: int| 0 <= k < r@.len() ==> #[trigger] r@[k] < parts@.len(),
        forall|k: int| 0 <= k < r@.len() ==> (#[trigger] parts@[r@[k] as int]).number >= 4,
{
    let n = parts.len();
    let mut r: Vec<usize> = Vec::new();
    let mut i: usize = 0;
    while i < n
        invariant
            n == parts@.len(),
            i <= n,
            r@.len() == logical_positions(parts@, i as int).len(),
            forall|k: int|
                0 <= k < r@.len() ==> #[trigger] r@[k] as int == logical_positions(
                    parts@,
                    i as int,
                )[k],
            forall|k: int| 0 <= k < r@.len() ==> #[trigger] r@[k] < i,
            forall|k: int| 0 <= k < r@.len() ==> (#[trigger] parts@[r@[k] as int]).number >= 4,
        decreases n - i,
    {
        if parts[i].number >= 4 {
            r.push(i);
        }
        i = i + 1;
    }
    r
}

fn ebr(l: &MbrLayout, idx: &Vec<usize>, k: usize) -> (r: [u8; 512])
    requires
        layout_ok(l@),
        l@.container is Some,
        idx@.len() == logical_positions(l@.parts, l@.parts.len() as int).len(),
        forall|m: int|
            0 <= m < idx@.len() ==> #[trigger] idx@[m] as int == logical_positions(
                l@.parts,
                l@.parts.len() as int,
            )[m],
        forall|m: int| 0 <= m < idx@.len() ==> #[trigger] idx@[m] < l@.parts.len(),
        forall|m: int| 0 <= m < idx@.len() ==> (#[trigger] l@.parts[idx@[m] as int]).number >= 4,
        k < idx@.len(),
    ensures
        r@ == ebr_sector(l@, k as int),
{
    let c = l.container.unwrap();
    let p = l.parts[idx[k]];
    assert(l@.parts[idx@[k as int] as int].number >= 4);
    let e0 = make_entry(status_of_part(l, idx[k]), DATA_PART_TYPE, 1, p.end - p.start - 1);
    let e1 = if k < idx.len() - 1 {
        let q = l.parts[idx[k + 1]];
        assert(l@.parts[idx@[k + 1] as int].number >= 4);
        make_entry(0, EXTENDED_LINK_PART_TYPE, q.start - c.start, q.end - q.start)
    } else {
        zero_entry()
    };
    let f = SectorFields { head: Vec::new(), entries: [e0, e1, zero_entry(), zero_entry()] };
    let r = encode(&f);
    assert(r@ =~= ebr_sector(l@, k as int));
    r
}

/// Lays out the table: `head` (the 446 bytes before the entries) and the resolved layout.
pub(crate) fn layout_sectors(head: Vec<u8>, l: &MbrLayout) -> (r: MbrWriter)
    requires
        head@.len() == 446,
        layout_ok(l@),
    ensures
        r@ == table_sectors(head@, l@),
{
    let ghost h = head@;
    let f = SectorFields {
        head,
        entries: [primary_entry(l, 0), primary_entry(l, 1), primary_entry(l, 2), primary_entry(l, 3)],
    };
    let first = encode(&f);
    assert(first@ =~= primary_sector(h, l@));
    let mut sectors: Vec<MbrSector> = Vec::new();
    sectors.push(MbrSector { lba: 0, data: first });
    let idx = logical_list(&l.parts);
    let ghost table = table_sectors(h, l@);
    let mut k: usize = 0;
    while k < idx.len()
        invariant
            table == table_sectors(h, l@),
            layout_ok(l@),
            idx@.len() == logical_positions(l@.parts, l@.parts.len() as int).len(),
            forall|m: int|
                0 <= m < idx@.len() ==> #[trigger] idx@[m] as int == logical_positions(
                    l@.parts,
                    l@.parts.len() as int,
                )[m],
            forall|m: int| 0 <= m < idx@.len() ==> #[trigger] idx@[m] < l@.parts.len(),
            forall|m: int|
                0 <= m < idx@.len() ==> (#[trigger] l@.parts[idx@[m] as int]).number >= 4,
            k <= idx@.len(),
            sectors@.len() == k + 1,
            forall|i: int|
                0 <= i < sectors@.len() ==> (#[trigger] sectors@[i]).lba == table[i].0
                    && sectors@[i].data@ == table[i].1,
        decreases idx@.len() - k,
    {
        let j = idx[k];
        assert(l@.parts[j as int].number >= 4);
        let d = ebr(l, &idx, k);
        sectors.push(MbrSector { lba: l.parts[j].start, data: d });
        k = k + 1;
    }
    let r = MbrWriter { sectors };
    assert(r@ =~= table);
    r
}


/// The extended entry of the primary table points at the first EBR of the chain: the
/// second sector written is at the container's start.
pub proof fn lemma_extended_entry_points_at_first_ebr(head: Seq<u8>, l: LayoutModel)
    requires
        layout_ok(l),
    ensures
        l.container matches Some(c) ==> table_sectors(head, l).len() > 1 && table_sectors(
            head,
            l,
        )[1].0 == c.start,
{
    if let Some(c) = l.container {
        let t = table_sectors(head, l);
        assert(t[1] == (l.parts[logical_positions(l.parts, l.parts.len() as int)[0]].start, ebr_sector(l, 0)));
    }
}


/// Byte offset of block `lba` on a store with blocks of `block_size` bytes; `None` where a
/// block is smaller than a sector or the offset does not fit in 64 bits.
pub fn sector_offset(lba: u64, block_size: u64) -> (r: Option<u64>)
    ensures
        r == if block_size < 512 || lba * block_size > u64::MAX {
            None::<u64>
        } else {
            Some((lba * block_size) as u64)
        },
{
    if block_size < 512 {
        return None;
    }
    let q = u64::MAX / block_size;
    if lba > q {
        assert(lba * block_size > u64::MAX) by (nonlinear_arith)
            requires
                lba > q,
                q == u64::MAX / block_size,
                block_size >= 512,
        ;
        return None;
    }
    assert(lba * block_size <= u64::MAX) by (nonlinear_arith)
        requires
            lba <= q,
            q == u64::MAX / block_size,
            block_size >= 512,
    ;
    Some(lba * block_size)
}


proof fn lemma_primary_slot_len(l: LayoutModel, k: int)
    ensures
        primary_slot(l, k).len() == 16,
{
}

/// Every sector of a table, the primary one and each EBR, is 512 bytes long and ends with
/// the boot signature `55 AA`.
pub proof fn lemma_sectors_signed(head: Seq<u8>, l: LayoutModel)
    requires
        head.len() == 446,
        layout_ok(l),
    ensures
        forall|q: int|
            0 <= q < table_sectors(head, l).len() ==> {
                let b = #[trigger] table_sectors(head, l)[q].1;
                &&& b.len() == 512
                &&& b[510] == 0x55
                &&& b[511] == 0xaa
            },
{
    let t = table_sectors(head, l);
    lemma_primary_slot_len(l, 0);
    lemma_primary_slot_len(l, 1);
    lemma_primary_slot_len(l, 2);
    lemma_primary_slot_len(l, 3);
    assert forall|q: int| 0 <= q < t.len() implies {
        let b = #[trigger] t[q].1;
        &&& b.len() == 512
        &&& b[510] == 0x55
        &&& b[511] == 0xaa
    } by {
        if q > 0 {
            assert(t[q].1 == ebr_sector(l, q - 1));
        }
    }
}


/// The only status byte 0x80 (active) in a table is that of the bootable partition's own
/// entry: in the primary sector, the slot it owns; in an EBR, the first entry when the EBR
/// describes it. Container, link and empty entries are never active.
pub proof fn lemma_only_bootable_active(l: LayoutModel)
    ensures
        forall|k: int|
            0 <= k < 4 ==> ((#[trigger] primary_slot(l, k))[0] == 0x80 <==> (slot_owner(
                l.parts,
                k,
                l.parts.len() as int,
            ) matches Some(j) && l.bootable == Some(j))),
        forall|k: int|
            0 <= k < logical_positions(l.parts, l.parts.len() as int).len() ==> {
                &&& ((#[trigger] ebr_sector(l, k))[446] == 0x80 <==> l.bootable == Some(
                    logical_positions(l.parts, l.parts.len() as int)[k],
                ))
                &&& ebr_sector(l, k)[462] == 0
            },
{
    assert forall|k: int| 0 <= k < 4 implies ((#[trigger] primary_slot(l, k))[0] == 0x80 <==> (
    slot_owner(l.parts, k, l.parts.len() as int) matches Some(j) && l.bootable == Some(j))) by {
        if let Some(j) = slot_owner(l.parts, k, l.parts.len() as int) {
            assert(primary_slot(l, k)[0] == status_for(l, j));
        }
    }
    let idx = logical_positions(l.parts, l.parts.len() as int);
    assert forall|k: int| 0 <= k < idx.len() implies {
        &&& ((#[trigger] ebr_sector(l, k))[446] == 0x80 <==> l.bootable == Some(idx[k]))
        &&& ebr_sector(l, k)[462] == 0
    } by {
        let e = ebr_sector(l, k);
        assert(e[446] == status_for(l, idx[k]));
    }
}

} // verus!
