//! The 512-byte MBR/EBR sector: decoding views and encoding.
use vstd::prelude::*;

verus! {

/// Little-endian 16-bit value stored at `o`.
pub open spec fn le16(s: Seq<u8>, o: int) -> int {
    s[o] + s[o + 1] * 256
}

/// Little-endian 32-bit value stored at `o`.
pub open spec fn le32(s: Seq<u8>, o: int) -> int {
    s[o] + s[o + 1] * 256 + s[o + 2] * 65536 + s[o + 3] * 16777216
}

proof fn lemma_le32_value(a: u8, b: u8, c: u8, d: u8)
    ensures
        (a as u32 | (b as u32) << 8u32 | (c as u32) << 16u32 | (d as u32) << 24u32) as int
            == a + b * 256 + c * 65536 + d * 16777216,
{
    assert((a as u32 | (b as u32) << 8u32 | (c as u32) << 16u32 | (d as u32) << 24u32)
        == a as u32 + b as u32 * 256 + c as u32 * 65536 + d as u32 * 16777216) by (bit_vector);
}

/// The four little-endian bytes of `v`.
pub open spec fn le32_bytes(v: u32) -> Seq<u8> {
    seq![(v % 256) as u8, ((v / 256) % 256) as u8, ((v / 65536) % 256) as u8, (v / 16777216) as u8]
}

proof fn lemma_le32_bytes_of(a: u8, b: u8, c: u8, d: u8)
    ensures
        le32_bytes((a + b * 256 + c * 65536 + d * 16777216) as u32) == seq![a, b, c, d],
        a + b * 256 + c * 65536 + d * 16777216 <= u32::MAX,
{
    let v: u32 = (a as u32 | (b as u32) << 8u32 | (c as u32) << 16u32 | (d as u32) << 24u32);
    lemma_le32_value(a, b, c, d);
    assert(v % 256 == a as u32 && (v / 256) % 256 == b as u32 && (v / 65536) % 256 == c as u32
        && v / 16777216 == d as u32) by (bit_vector)
        requires
            v == (a as u32 | (b as u32) << 8u32 | (c as u32) << 16u32 | (d as u32) << 24u32),
    ;
    assert(le32_bytes(v) =~= seq![a, b, c, d]);
}

proof fn lemma_le32_of_bytes(v: u32)
    ensures
        le32(le32_bytes(v), 0) == v,
{
    assert(v as int == (v % 256) + ((v / 256) % 256) * 256 + ((v / 65536) % 256) * 65536 + (v
        / 16777216) * 16777216) by (nonlinear_arith);
}

/// Reads a little-endian `u32` from the four bytes of `x` at `o`.
fn r32(x: &[u8], o: usize) -> (r: u32)
    requires
        o + 4 <= x@.len(),
    ensures
        r as int == le32(x@, o as int),
{
    proof {
        lemma_le32_value(x@[o as int], x@[o + 1], x@[o + 2], x@[o + 3]);
    }
    x[o] as u32 | (x[o + 1] as u32) << 8u32 | (x[o + 2] as u32) << 16u32 | (x[o + 3] as u32)
        << 24u32
}

/// Cylinder of a packed CHS triple: ten bits, the top two in the sector byte.
pub open spec fn chs_cylinder(b: Seq<u8>) -> int {
    b[2] + (b[1] / 64) as int * 256
}

/// Head of a packed CHS triple.
pub open spec fn chs_head(b: Seq<u8>) -> int {
    b[0] as int
}

/// Sector of a packed CHS triple: the low six bits of the middle byte.
pub open spec fn chs_sector(b: Seq<u8>) -> int {
    (b[1] % 64) as int
}

/// The packed bytes of a cylinder/head/sector triple.
pub open spec fn chs_pack(c: int, h: int, s: int) -> Seq<u8> {
    seq![h as u8, (s + (c / 256) * 64) as u8, (c % 256) as u8]
}

/// Packing a cylinder in `[0, 1023]`, a head in `[0, 255]` and a sector in `[1, 63]` and
/// unpacking the bytes again gives back the same triple.
pub proof fn lemma_chs_round_trip(c: int, h: int, s: int)
    requires
        0 <= c <= 1023,
        0 <= h <= 255,
        1 <= s <= 63,
    ensures
        chs_cylinder(chs_pack(c, h, s)) == c,
        chs_head(chs_pack(c, h, s)) == h,
        chs_sector(chs_pack(c, h, s)) == s,
{
    let b = chs_pack(c, h, s);
    assert(0 <= c / 256 <= 3);
    assert(b[1] == s + (c / 256) * 64);
    assert(b[2] == c % 256);
    assert((s + (c / 256) * 64) / 64 == c / 256 && (s + (c / 256) * 64) % 64 == s)
        by (nonlinear_arith)
        requires
            1 <= s <= 63,
            0 <= c / 256 <= 3,
    ;
}

/// Cylinder, head, sector address.
///
/// This is a legacy field: the LBA fields are authoritative. Where CHS cannot express a
/// location, the triple is (1023, 255, 63), the bytes `FF FF FF`.
#[derive(Clone, Copy)]
pub struct Chs {
    data: [u8; 3],
}

impl View for Chs {
    type V = Seq<u8>;

    closed spec fn view(&self) -> Seq<u8> {
        self.data@
    }
}

impl Chs {
    /// Packs a cylinder (10 bits), head and sector (6 bits).
    pub fn new(c: u16, h: u8, s: u8) -> (r: Chs)
        requires
            c < 1024,
            s < 64,
        ensures
            r@ == chs_pack(c as int, h as int, s as int),
    {
        let r = Chs { data: [h, s + ((c / 256) as u8) * 64, (c % 256) as u8] };
        assert(r@ =~= chs_pack(c as int, h as int, s as int));
        r
    }

    /// The triple used where CHS cannot express a location: (1023, 255, 63).
    pub fn unrepresentable() -> (r: Chs)
        ensures
            r@ == chs_pack(1023, 255, 63),
            r@ == seq![0xffu8, 0xffu8, 0xffu8],
    {
        let r = Chs { data: [0xff, 0xff, 0xff] };
        assert(r@ =~= chs_pack(1023, 255, 63));
        assert(r@ =~= seq![0xffu8, 0xffu8, 0xffu8]);
        r
    }

    /// The three raw bytes.
    pub fn bytes(&self) -> (r: [u8; 3])
        ensures
            r@ == self@,
    {
        self.data
    }

    /// 10-bit cylinder.
    pub fn c(&self) -> (r: u16)
        ensures
            r == chs_cylinder(self@),
    {
        let b1 = self.data[1];
        let b2 = self.data[2];
        assert(b2 as u16 | (((b1 >> 6u8) as u16) << 8u16) == b2 as u16 + (b1 as u16 / 64) * 256)
            by (bit_vector);
        b2 as u16 | (((b1 >> 6u8) as u16) << 8u16)
    }

    /// 8-bit head.
    pub fn h(&self) -> (r: u8)
        ensures
            r == chs_head(self@),
    {
        self.data[0]
    }

    /// 6-bit sector.
    pub fn s(&self) -> (r: u8)
        ensures
            r == chs_sector(self@),
    {
        let b1 = self.data[1];
        assert(b1 & 63u8 == b1 % 64) by (bit_vector);
        b1 & 63u8
    }
}

} // verus!

verus! {

/// What the status byte of an entry says.
pub enum PartitionStatus {
    /// "Bootable"
    Active,
    /// "Not bootable"
    Inactive,
    /// 0x01 to 0x7f are invalid
    Invalid(u8),
}

/// The status that a raw status byte stands for.
pub open spec fn status_of(b: u8) -> PartitionStatus {
    if b == 0 {
        PartitionStatus::Inactive
    } else if b == 0x80 {
        PartitionStatus::Active
    } else {
        PartitionStatus::Invalid(b)
    }
}

/// A read-only view of one 16-byte partition entry.
pub struct PartitionEntry {
    data: [u8; 16],
}

impl View for PartitionEntry {
    type V = Seq<u8>;

    closed spec fn view(&self) -> Seq<u8> {
        self.data@
    }
}

impl PartitionEntry {
    pub fn status(&self) -> (r: PartitionStatus)
        ensures
            r == status_of(self@[0]),
    {
        match self.data[0] {
            0 => PartitionStatus::Inactive,
            0x80 => PartitionStatus::Active,
            x => PartitionStatus::Invalid(x),
        }
    }

    /// Logical Block Address (ie: block number) of the first block in the partition
    pub fn lba_first(&self) -> (r: u32)
        ensures
            r == le32(self@, 8),
    {
        r32(&self.data, 8)
    }

    /// Size of the partition in logical blocks
    pub fn lba_size(&self) -> (r: u32)
        ensures
            r == le32(self@, 12),
    {
        r32(&self.data, 12)
    }

    /// Partition type
    pub fn part_type(&self) -> (r: u8)
        ensures
            r == self@[4],
    {
        self.data[4]
    }

    pub fn chs_first(&self) -> (r: Chs)
        ensures
            r@ == self@.subrange(1, 4),
    {
        let r = Chs { data: [self.data[1], self.data[2], self.data[3]] };
        assert(r@ =~= self@.subrange(1, 4));
        r
    }

    pub fn chs_last(&self) -> (r: Chs)
        ensures
            r@ == self@.subrange(5, 8),
    {
        let r = Chs { data: [self.data[5], self.data[6], self.data[7]] };
        assert(r@ =~= self@.subrange(5, 8));
        r
    }
}

/// Byte offset of primary entry `k` in the sector.
pub open spec fn entry_offset(k: int) -> int {
    446 + 16 * k
}

/// A read-only view over one 512-byte MBR or EBR sector; nothing is copied until an
/// accessor is called.
pub struct MbrHeader<'a> {
    data: &'a [u8; 512],
}

impl<'a> View for MbrHeader<'a> {
    type V = Seq<u8>;

    closed spec fn view(&self) -> Seq<u8> {
        self.data@
    }
}

fn entry_at(d: &[u8; 512], o: usize) -> (r: PartitionEntry)
    requires
        o + 16 <= 512,
    ensures
        r@ == d@.subrange(o as int, o + 16),
{
    let r = PartitionEntry {
        data: [
            d[o],
            d[o + 1],
            d[o + 2],
            d[o + 3],
            d[o + 4],
            d[o + 5],
            d[o + 6],
            d[o + 7],
            d[o + 8],
            d[o + 9],
            d[o + 10],
            d[o + 11],
            d[o + 12],
            d[o + 13],
            d[o + 14],
            d[o + 15],
        ],
    };
    assert(r@ =~= d@.subrange(o as int, o + 16));
    r
}

impl<'a> MbrHeader<'a> {
    pub fn from_bytes(data: &'a [u8; 512]) -> (r: Self)
        ensures
            r@ == data@,
    {
        MbrHeader { data: data }
    }

    pub fn bootsig(&self) -> (r: [u8; 2])
        ensures
            r@ == self@.subrange(510, 512),
    {
        let r = [self.data[510], self.data[511]];
        assert(r@ =~= self@.subrange(510, 512));
        r
    }

    pub fn bootsig_is_valid(&self) -> (r: bool)
        ensures
            r == (self@[510] == 0x55 && self@[511] == 0xaa),
    {
        self.data[510] == 0x55 && self.data[511] == 0xaa
    }

    pub fn disk_sig(&self) -> (r: u32)
        ensures
            r == le32(self@, 440),
    {
        r32(self.data, 440)
    }

    pub fn copy_protect(&self) -> (r: u16)
        ensures
            r == le16(self@, 444),
    {
        let a = self.data[444];
        let b = self.data[445];
        assert(a as u16 | (b as u16) << 8u16 == a as u16 + b as u16 * 256) by (bit_vector);
        a as u16 | (b as u16) << 8u16
    }

    pub fn primary_partitions(&self) -> (r: [PartitionEntry; 4])
        ensures
            forall|k: int|
                0 <= k < 4 ==> #[trigger] r@[k]@ == self@.subrange(
                    entry_offset(k),
                    entry_offset(k) + 16,
                ),
    {
        let r = [
            entry_at(self.data, 446),
            entry_at(self.data, 462),
            entry_at(self.data, 478),
            entry_at(self.data, 494),
        ];
        r
    }
}

} // verus!

verus! {

/// The values of one partition entry, as written by `encode` and read by `decode`.
#[derive(Clone, Copy)]
pub struct EntryFields {
    pub status: u8,
    pub chs_first: Chs,
    pub part_type: u8,
    pub chs_last: Chs,
    pub lba_first: u32,
    pub lba_size: u32,
}

/// The values of one sector: the 446 bytes before the entries (bootcode, and where present
/// the modern fields, disk signature and copy-protect flag) and the four entries.
pub struct SectorFields {
    pub head: Vec<u8>,
    pub entries: [EntryFields; 4],
}

/// The 16 bytes of an entry.
pub open spec fn entry_bytes(e: EntryFields) -> Seq<u8> {
    seq![e.status] + e.chs_first@ + seq![e.part_type] + e.chs_last@ + le32_bytes(e.lba_first)
        + le32_bytes(e.lba_size)
}

/// The 512 bytes of a sector: `head` zero-padded to 446 bytes, the four entries and the
/// boot signature `55 AA`.
pub open spec fn sector_bytes(head: Seq<u8>, entries: Seq<EntryFields>) -> Seq<u8> {
    head + Seq::new((446 - head.len()) as nat, |i: int| 0u8) + entry_bytes(entries[0])
        + entry_bytes(entries[1]) + entry_bytes(entries[2]) + entry_bytes(entries[3]) + seq![
        0x55u8,
        0xaau8,
    ]
}

/// `head` and `entries` are what the sector `b` holds.
pub open spec fn decodes_to(head: Seq<u8>, entries: Seq<EntryFields>, b: Seq<u8>) -> bool {
    &&& b.len() == 512
    &&& head == b.subrange(0, 446)
    &&& entries.len() == 4
    &&& forall|k: int|
        0 <= k < 4 ==> #[trigger] entry_bytes(entries[k]) == b.subrange(
            entry_offset(k),
            entry_offset(k) + 16,
        )
}

/// A sector whose boot signature is `55 AA`.
pub open spec fn is_valid_sector(b: Seq<u8>) -> bool {
    b.len() == 512 && b[510] == 0x55 && b[511] == 0xaa
}

proof fn lemma_chs_len(c: Chs)
    ensures
        c@.len() == 3,
{
}

proof fn lemma_entry_bytes_len(e: EntryFields)
    ensures
        entry_bytes(e).len() == 16,
{
    lemma_chs_len(e.chs_first);
    lemma_chs_len(e.chs_last);
}

/// Two entries with the same bytes hold the same values.
proof fn lemma_entry_bytes_injective(e: EntryFields, g: EntryFields)
    requires
        entry_bytes(e) == entry_bytes(g),
    ensures
        e.status == g.status,
        e.part_type == g.part_type,
        e.chs_first@ == g.chs_first@,
        e.chs_last@ == g.chs_last@,
        e.lba_first == g.lba_first,
        e.lba_size == g.lba_size,
{
    lemma_chs_len(e.chs_first);
    lemma_chs_len(e.chs_last);
    lemma_chs_len(g.chs_first);
    lemma_chs_len(g.chs_last);
    let x = entry_bytes(e);
    let y = entry_bytes(g);
    assert(x[0] == e.status && y[0] == g.status);
    assert(x[4] == e.part_type && y[4] == g.part_type);
    assert(x.subrange(1, 4) =~= e.chs_first@ && y.subrange(1, 4) =~= g.chs_first@);
    assert(x.subrange(5, 8) =~= e.chs_last@ && y.subrange(5, 8) =~= g.chs_last@);
    assert(x.subrange(8, 12) =~= le32_bytes(e.lba_first));
    assert(y.subrange(8, 12) =~= le32_bytes(g.lba_first));
    assert(x.subrange(12, 16) =~= le32_bytes(e.lba_size));
    assert(y.subrange(12, 16) =~= le32_bytes(g.lba_size));
    lemma_le32_of_bytes(e.lba_first);
    lemma_le32_of_bytes(g.lba_first);
    lemma_le32_of_bytes(e.lba_size);
    lemma_le32_of_bytes(g.lba_size);
}

/// Decoding a valid sector, encoding the values and decoding the result again gives the
/// same bytes and so the same values: boot signature, head (bootcode, disk signature,
/// copy-protect flag) and, per entry, status, type, both CHS triples and both LBA fields.
pub proof fn lemma_sector_round_trip(
    b: Seq<u8>,
    head: Seq<u8>,
    entries: Seq<EntryFields>,
    head2: Seq<u8>,
    entries2: Seq<EntryFields>,
)
    requires
        is_valid_sector(b),
        decodes_to(head, entries, b),
        decodes_to(head2, entries2, sector_bytes(head, entries)),
    ensures
        sector_bytes(head, entries) == b,
        head2 == head,
        forall|k: int|
            0 <= k < 4 ==> {
                &&& (#[trigger] entries2[k]).status == entries[k].status
                &&& entries2[k].part_type == entries[k].part_type
                &&& entries2[k].chs_first@ == entries[k].chs_first@
                &&& entries2[k].chs_last@ == entries[k].chs_last@
                &&& entries2[k].lba_first == entries[k].lba_first
                &&& entries2[k].lba_size == entries[k].lba_size
            },
{
    let e = sector_bytes(head, entries);
    lemma_entry_bytes_len(entries[0]);
    lemma_entry_bytes_len(entries[1]);
    lemma_entry_bytes_len(entries[2]);
    lemma_entry_bytes_len(entries[3]);
    assert(entry_bytes(entries[0]) == b.subrange(446, 462));
    assert(entry_bytes(entries[1]) == b.subrange(462, 478));
    assert(entry_bytes(entries[2]) == b.subrange(478, 494));
    assert(entry_bytes(entries[3]) == b.subrange(494, 510));
    assert(e =~= b);
    assert forall|k: int| 0 <= k < 4 implies {
        &&& (#[trigger] entries2[k]).status == entries[k].status
        &&& entries2[k].part_type == entries[k].part_type
        &&& entries2[k].chs_first@ == entries[k].chs_first@
        &&& entries2[k].chs_last@ == entries[k].chs_last@
        &&& entries2[k].lba_first == entries[k].lba_first
        &&& entries2[k].lba_size == entries[k].lba_size
    } by {
        assert(entry_bytes(entries2[k]) == entry_bytes(entries[k]));
        lemma_entry_bytes_injective(entries2[k], entries[k]);
    }
}

} // verus!

verus! {

fn put_entry(out: &mut [u8; 512], o: usize, e: &EntryFields)
    requires
        o + 16 <= 512,
    ensures
        final(out)@ == old(out)@.subrange(0, o as int) + entry_bytes(*e) + old(out)@.subrange(
            o + 16,
            512,
        ),
{
    let first = e.chs_first.bytes();
    let last = e.chs_last.bytes();
    out[o] = e.status;
    out[o + 1] = first[0];
    out[o + 2] = first[1];
    out[o + 3] = first[2];
    out[o + 4] = e.part_type;
    out[o + 5] = last[0];
    out[o + 6] = last[1];
    out[o + 7] = last[2];
    out[o + 8] = (e.lba_first % 256) as u8;
    out[o + 9] = ((e.lba_first / 256) % 256) as u8;
    out[o + 10] = ((e.lba_first / 65536) % 256) as u8;
    out[o + 11] = (e.lba_first / 16777216) as u8;
    out[o + 12] = (e.lba_size % 256) as u8;
    out[o + 13] = ((e.lba_size / 256) % 256) as u8;
    out[o + 14] = ((e.lba_size / 65536) % 256) as u8;
    out[o + 15] = (e.lba_size / 16777216) as u8;
    proof {
        lemma_entry_bytes_len(*e);
    }
    assert(final(out)@ =~= old(out)@.subrange(0, o as int) + entry_bytes(*e) + old(out)@.subrange(
        o + 16,
        512,
    ));
}

/// Encodes a sector: `head` zero-padded to 446 bytes, the four entries, and the boot
/// signature `55 AA`.
pub fn encode(f: &SectorFields) -> (r: [u8; 512])
    requires
        f.head@.len() <= 446,
    ensures
        r@ == sector_bytes(f.head@, f.entries@),
{
    let mut out = [0u8; 512];
    let n = f.head.len();
    let mut i: usize = 0;
    while i < n
        invariant
            n == f.head@.len() <= 446,
            i <= n,
            out@.len() == 512,
            forall|j: int| 0 <= j < i ==> out@[j] == f.head@[j],
            forall|j: int| i <= j < 512 ==> out@[j] == 0,
        decreases n - i,
    {
        out[i] = f.head[i];
        i = i + 1;
    }
    assert(out@.subrange(0, 446) =~= f.head@ + Seq::new((446 - n) as nat, |i: int| 0u8));
    let ghost pre = out@;
    put_entry(&mut out, 446, &f.entries[0]);
    put_entry(&mut out, 462, &f.entries[1]);
    put_entry(&mut out, 478, &f.entries[2]);
    put_entry(&mut out, 494, &f.entries[3]);
    out[510] = 0x55;
    out[511] = 0xaa;
    proof {
        lemma_entry_bytes_len(f.entries@[0]);
        lemma_entry_bytes_len(f.entries@[1]);
        lemma_entry_bytes_len(f.entries@[2]);
        lemma_entry_bytes_len(f.entries@[3]);
    }
    assert(out@ =~= sector_bytes(f.head@, f.entries@));
    out
}

fn entry_fields_at(d: &[u8; 512], o: usize) -> (r: EntryFields)
    requires
        o + 16 <= 512,
    ensures
        entry_bytes(r) == d@.subrange(o as int, o + 16),
{
    let first = Chs { data: [d[o + 1], d[o + 2], d[o + 3]] };
    let last = Chs { data: [d[o + 5], d[o + 6], d[o + 7]] };
    let lba_first = r32(d, o + 8);
    let lba_size = r32(d, o + 12);
    proof {
        lemma_le32_bytes_of(d@[o + 8], d@[o + 9], d@[o + 10], d@[o + 11]);
        lemma_le32_bytes_of(d@[o + 12], d@[o + 13], d@[o + 14], d@[o + 15]);
    }
    let r = EntryFields {
        status: d[o],
        chs_first: first,
        part_type: d[o + 4],
        chs_last: last,
        lba_first,
        lba_size,
    };
    assert(entry_bytes(r) =~= d@.subrange(o as int, o + 16));
    r
}

/// Decodes a sector into its head (the 446 bytes before the entries) and its four entries.
pub fn decode(d: &[u8; 512]) -> (r: SectorFields)
    ensures
        decodes_to(r.head@, r.entries@, d@),
{
    let mut head: Vec<u8> = Vec::new();
    let mut i: usize = 0;
    while i < 446
        invariant
            i <= 446,
            head@ == d@.subrange(0, i as int),
        decreases 446 - i,
    {
        head.push(d[i]);
        i = i + 1;
        assert(head@ =~= d@.subrange(0, i as int));
    }
    let entries = [
        entry_fields_at(d, 446),
        entry_fields_at(d, 462),
        entry_fields_at(d, 478),
        entry_fields_at(d, 494),
    ];
    let r = SectorFields { head, entries };
    assert forall|k: int| 0 <= k < 4 implies #[trigger] entry_bytes(r.entries@[k])
        == d@.subrange(entry_offset(k), entry_offset(k) + 16) by {
        if k == 0 {
        } else if k == 1 {
        } else if k == 2 {
        } else {
        }
    }
    r
}

} // verus!
