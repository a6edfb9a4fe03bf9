//! Master Boot Record tables: codec, partition resolution and layout.
//!
//! MBR was publicly introduced in 1983 with PC DOS 2.0. This supports the classic (basic)
//! layout and the modern layout; Windows LDM and other variants are not covered.
pub mod header;
pub mod resolve;
pub mod writer;

use vstd::prelude::*;
use self::header::le32_bytes;
use self::resolve::{resolution, resolve};
use self::writer::{layout_sectors, table_sectors, MbrWriter};

verus! {

/// Refers to another partition request by its position in the request list.
#[derive(Clone, Copy, PartialEq, Eq, Structural, Debug)]
pub enum PartRef {
    /// N requests before this one. 0 is the current request, 1 the one just before.
    Previous(u32),
    /// N requests after this one. 1 is the one just after.
    Next(u32),
    /// The request at position N of the list; the first is 0.
    Exact(u32),
}

/// A partition boundary.
#[derive(Clone, Copy, PartialEq, Eq, Structural, Debug)]
pub enum LocSpec {
    /// At the end of a partition
    AtEndOf(PartRef),
    /// At the start of a partition
    AtStartOf(PartRef),
    /// At an absolute block address.
    Block(u64),
}

/// A partition number request.
#[derive(Clone, Copy, PartialEq, Eq, Structural, Debug)]
pub enum NumSpec {
    Exact(u32),
}

/// One constraint on a partition.
#[derive(Clone, Copy, PartialEq, Eq, Structural, Debug)]
pub enum PartSpec {
    Number(NumSpec),
    Start(LocSpec),
    End(LocSpec),
    IsBootable,
}

/// The constraints that one partition should satisfy, in no particular order. A kind of
/// constraint given twice must have the same value both times. Without a start the partition follows the one
/// before it; without an end it reaches the end of the device.
#[derive(Clone, Debug)]
pub struct MbrPartSpec {
    pub specs: Vec<PartSpec>,
}

impl MbrPartSpec {
    pub fn new(specs: Vec<PartSpec>) -> (r: MbrPartSpec)
        ensures
            r.specs@ == specs@,
    {
        MbrPartSpec { specs }
    }
}

/// A concrete MBR partition: blocks `[start, end)`.
#[derive(Clone, Copy, PartialEq, Eq, Structural, Debug)]
pub struct MbrPart {
    pub number: u32,
    pub start: u64,
    pub end: u64,
}

impl MbrPart {
    /// Numbers 0 to 3 are primary entries of the MBR itself.
    pub fn is_primary(&self) -> (r: bool)
        ensures
            r == (self.number < 4),
    {
        self.number < 4
    }

    /// Numbers from 4 on are logical partitions, each described by its own extended boot
    /// record.
    pub fn is_extended(&self) -> (r: bool)
        ensures
            r == (self.number >= 4),
    {
        !self.is_primary()
    }
}

/// Why a table cannot be built.
#[derive(Clone, Copy, PartialEq, Eq, Structural, Debug)]
pub enum MbrBuilderError {
    /// The bootcode is longer than its region allows.
    BootcodeTooLong,
    /// Two of the optional fields would share bytes.
    LayoutOverflow,
    /// A cycle of references: `spec` is a request on it, found by following unresolved
    /// references from the lowest unresolved request, and `refers_to` is the request on the
    /// cycle that it waits on (in a cycle of two, the other member).
    CyclicReference { spec: u32, refers_to: u32 },
    /// The request at this position refers outside the list, or is the first one and has
    /// no start to anchor it.
    UnresolvedReference { spec: u32 },
    /// The two requests at these positions share blocks.
    OverlappingPartitions { a: u32, b: u32 },
    /// The request at this position does not end after it starts.
    ZeroLengthPartition { spec: u32 },
    /// The request at this position starts at block 0, which holds the MBR, or ends past
    /// the device or past what 32-bit LBAs reach.
    OutOfBounds { spec: u32 },
    /// The request at this position holds two different constraints of one kind (two
    /// starts, two ends or two numbers).
    ConflictingConstraints { spec: u32 },
    /// More than one request asks to be bootable.
    MultipleBootable,
    /// The logical partitions cannot be chained in an extended partition.
    ExtendedChainOverflow,
    /// More requests than a table takes.
    TooManyPartitions,
    /// Two requests ask for the same number.
    DuplicateNumber { number: u32 },
}


/// Partition type written for a data partition (Linux).
pub const DATA_PART_TYPE: u8 = 0x83;

/// Partition type of the extended container in the MBR (extended, LBA addressed).
pub const EXTENDED_LBA_PART_TYPE: u8 = 0x0f;

/// Partition type of the link to the next extended boot record in an EBR.
pub const EXTENDED_LINK_PART_TYPE: u8 = 0x05;

/// The configuration of a builder.
pub struct BuilderModel {
    pub bootcode: Option<Seq<u8>>,
    pub bootcode_2: Option<Seq<u8>>,
    pub timestamp: Option<(u8, u8, u8)>,
    pub original_physical_drive: Option<u8>,
    pub disk_sig: Option<(u32, u16)>,
    pub specs: Seq<MbrPartSpec>,
}

pub open spec fn opt_len(s: Option<Seq<u8>>) -> int {
    match s {
        Some(v) => v.len() as int,
        None => 0,
    }
}

/// A modern-layout field is set: timestamp, original drive, the second bootcode part, or
/// the disk signature (which ends the second bootcode region).
pub open spec fn is_modern(m: BuilderModel) -> bool {
    m.timestamp is Some || m.original_physical_drive is Some || m.bootcode_2 is Some
        || m.disk_sig is Some
}

/// How long the first bootcode part may be: 446 bytes in the classic layout, 226 in the
/// modern one.
pub open spec fn max_bootcode(modern: bool) -> int {
    if modern {
        226
    } else {
        446
    }
}

/// The longest second bootcode part: bytes 224 to 445.
pub const MAX_BOOTCODE_2: usize = 222;

/// Every set field fits in its region and no two share a byte. Regions: bootcode
/// `[0, a)`, original drive `218`, timestamp `[219, 222)`, second bootcode `[224, 224 + b)`,
/// disk signature and copy-protect flag `[440, 446)`.
pub open spec fn fits(m: BuilderModel) -> bool {
    let a = opt_len(m.bootcode);
    let b = opt_len(m.bootcode_2);
    &&& a <= max_bootcode(is_modern(m))
    &&& b <= MAX_BOOTCODE_2
    &&& (m.original_physical_drive is Some ==> a <= 218)
    &&& (m.timestamp is Some ==> a <= 219)
    &&& (b > 0 ==> a <= 224)
    &&& (m.disk_sig is Some ==> a <= 440 && 224 + b <= 440)
}

pub open spec fn sig_fields(m: BuilderModel) -> (u32, u16) {
    m.disk_sig->0
}

pub open spec fn timestamp_fields(m: BuilderModel) -> (u8, u8, u8) {
    m.timestamp->0
}

/// Byte `i` of the 446 bytes before the entries, for a configuration that fits.
pub open spec fn head_byte(m: BuilderModel, i: int) -> u8 {
    if m.disk_sig is Some && 440 <= i < 444 {
        le32_bytes(sig_fields(m).0)[i - 440]
    } else if m.disk_sig is Some && 444 <= i < 446 {
        if i == 444 {
            (sig_fields(m).1 % 256) as u8
        } else {
            (sig_fields(m).1 / 256) as u8
        }
    } else if m.original_physical_drive is Some && i == 218 {
        m.original_physical_drive->0
    } else if m.timestamp is Some && 219 <= i < 222 {
        if i == 219 {
            timestamp_fields(m).0
        } else if i == 220 {
            timestamp_fields(m).1
        } else {
            timestamp_fields(m).2
        }
    } else if m.bootcode_2 is Some && 224 <= i < 224 + opt_len(m.bootcode_2) {
        m.bootcode_2->0[i - 224]
    } else if m.bootcode is Some && 0 <= i < opt_len(m.bootcode) {
        m.bootcode->0[i]
    } else {
        0
    }
}

/// The 446 bytes before the entries of the primary sector.
pub open spec fn head_bytes(m: BuilderModel) -> Seq<u8> {
    Seq::new(446, |i: int| head_byte(m, i))
}

/// Allows creating and commiting a new MBR to a block device.
#[derive(Clone)]
pub struct MbrBuilder {
    bootcode: Option<Vec<u8>>,
    bootcode_2: Option<Vec<u8>>,
    partitions: Vec<MbrPartSpec>,
    timestamp: Option<(u8, u8, u8)>,
    original_physical_drive: Option<u8>,
    disk_sig: Option<(u32, u16)>,
}

impl View for MbrBuilder {
    type V = BuilderModel;

    closed spec fn view(&self) -> BuilderModel {
        BuilderModel {
            bootcode: match self.bootcode {
                Some(v) => Some(v@),
                None => None,
            },
            bootcode_2: match self.bootcode_2 {
                Some(v) => Some(v@),
                None => None,
            },
            timestamp: self.timestamp,
            original_physical_drive: self.original_physical_drive,
            disk_sig: self.disk_sig,
            specs: self.partitions@,
        }
    }
}

fn copy_bytes(code: &[u8]) -> (r: Vec<u8>)
    ensures
        r@ == code@,
{
    let mut v: Vec<u8> = Vec::new();
    let mut i: usize = 0;
    while i < code.len()
        invariant
            i <= code@.len(),
            v@ == code@.subrange(0, i as int),
        decreases code@.len() - i,
    {
        v.push(code[i]);
        i = i + 1;
        assert(v@ =~= code@.subrange(0, i as int));
    }
    assert(v@ =~= code@);
    v
}

fn len_of(v: &Option<Vec<u8>>) -> (r: usize)
    ensures
        r == opt_len(
            match v {
                Some(x) => Some(x@),
                None => None,
            },
        ),
{
    match v {
        Some(x) => x.len(),
        None => 0,
    }
}

impl MbrBuilder {
    pub fn new() -> (r: Self)
        ensures
            r@ == (BuilderModel {
                bootcode: None,
                bootcode_2: None,
                timestamp: None,
                original_physical_drive: None,
                disk_sig: None,
                specs: Seq::empty(),
            }),
            fits(r@),
    {
        MbrBuilder {
            bootcode: None,
            bootcode_2: None,
            partitions: Vec::new(),
            timestamp: None,
            original_physical_drive: None,
            disk_sig: None,
        }
    }

    fn check_fits(&self) -> (r: bool)
        ensures
            r == fits(self@),
    {
        let a = len_of(&self.bootcode);
        let b = len_of(&self.bootcode_2);
        let modern = self.timestamp.is_some() || self.original_physical_drive.is_some()
            || self.bootcode_2.is_some() || self.disk_sig.is_some();
        let max_a: usize = if modern {
            226
        } else {
            446
        };
        a <= max_a && b <= MAX_BOOTCODE_2 && (self.original_physical_drive.is_none() || a <= 218)
            && (self.timestamp.is_none() || a <= 219) && (b == 0 || a <= 224) && (
        self.disk_sig.is_none() || (a <= 440 && b <= 216))
    }

    /// Sets the bootcode at byte 0: up to 446 bytes in the classic layout, 226 once a
    /// modern field (timestamp, original drive, second part, disk signature) is set. The rest of its region stays zero.
    pub fn set_bootcode(self, code: &[u8]) -> (r: Result<Self, MbrBuilderError>)
        ensures
            code@.len() > max_bootcode(is_modern(self@)) ==> r == Err::<Self, MbrBuilderError>(
                MbrBuilderError::BootcodeTooLong,
            ),
            code@.len() <= max_bootcode(is_modern(self@)) ==> match r {
                Ok(b) => b@ == (BuilderModel { bootcode: Some(code@), ..self@ }) && fits(b@),
                Err(e) => e == MbrBuilderError::LayoutOverflow && !fits(
                    BuilderModel { bootcode: Some(code@), ..self@ },
                ),
            },
    {
        let modern = self.timestamp.is_some() || self.original_physical_drive.is_some()
            || self.bootcode_2.is_some() || self.disk_sig.is_some();
        let max_a: usize = if modern {
            226
        } else {
            446
        };
        if code.len() > max_a {
            return Err(MbrBuilderError::BootcodeTooLong);
        }
        let b = MbrBuilder { bootcode: Some(copy_bytes(code)), ..self };
        if b.check_fits() {
            Ok(b)
        } else {
            Err(MbrBuilderError::LayoutOverflow)
        }
    }

    /// Sets the disk timestamp (seconds, minutes, hours) of the modern layout, in bytes
    /// 219 to 221.
    pub fn set_timestamp(self, seconds: u8, minutes: u8, hours: u8) -> (r: Result<
        Self,
        MbrBuilderError,
    >)
        ensures
            ({
                let m = BuilderModel { timestamp: Some((seconds, minutes, hours)), ..self@ };
                match r {
                    Ok(b) => b@ == m && fits(m),
                    Err(e) => e == MbrBuilderError::LayoutOverflow && !fits(m),
                }
            }),
    {
        let b = MbrBuilder { timestamp: Some((seconds, minutes, hours)), ..self };
        if b.check_fits() {
            Ok(b)
        } else {
            Err(MbrBuilderError::LayoutOverflow)
        }
    }

    /// Sets the original physical drive (a BIOS drive number, 0x80 to 0xFF) of the modern
    /// layout, in byte 218.
    pub fn set_original_physical_drive(self, drv: u8) -> (r: Result<Self, MbrBuilderError>)
        ensures
            ({
                let m = BuilderModel { original_physical_drive: Some(drv), ..self@ };
                match r {
                    Ok(b) => b@ == m && fits(m),
                    Err(e) => e == MbrBuilderError::LayoutOverflow && !fits(m),
                }
            }),
    {
        let b = MbrBuilder { original_physical_drive: Some(drv), ..self };
        if b.check_fits() {
            Ok(b)
        } else {
            Err(MbrBuilderError::LayoutOverflow)
        }
    }

    /// Sets the second bootcode part of the modern layout, at byte 224: up to 222 bytes,
    /// 216 when a disk signature is set. A longer part does not fit its shared region.
    pub fn set_bootcode_part2(self, code: &[u8]) -> (r: Result<Self, MbrBuilderError>)
        ensures
            code@.len() > MAX_BOOTCODE_2 ==> r == Err::<Self, MbrBuilderError>(
                MbrBuilderError::LayoutOverflow,
            ),
            code@.len() <= MAX_BOOTCODE_2 ==> match r {
                Ok(b) => b@ == (BuilderModel { bootcode_2: Some(code@), ..self@ }) && fits(b@),
                Err(e) => e == MbrBuilderError::LayoutOverflow && !fits(
                    BuilderModel { bootcode_2: Some(code@), ..self@ },
                ),
            },
    {
        if code.len() > MAX_BOOTCODE_2 {
            return Err(MbrBuilderError::LayoutOverflow);
        }
        let b = MbrBuilder { bootcode_2: Some(copy_bytes(code)), ..self };
        if b.check_fits() {
            Ok(b)
        } else {
            Err(MbrBuilderError::LayoutOverflow)
        }
    }

    /// Sets the disk signature (bytes 440 to 443) and the copy-protect flag `extra`
    /// (bytes 444 and 445: 0x0000 normally, 0x5A5A for a copy-protected disk). This takes
    /// the last 6 bytes of the second bootcode part.
    pub fn set_disk_signature(self, sig: u32, extra: u16) -> (r: Result<Self, MbrBuilderError>)
        ensures
            ({
                let m = BuilderModel { disk_sig: Some((sig, extra)), ..self@ };
                match r {
                    Ok(b) => b@ == m && fits(m),
                    Err(e) => e == MbrBuilderError::LayoutOverflow && !fits(m),
                }
            }),
    {
        let b = MbrBuilder { disk_sig: Some((sig, extra)), ..self };
        if b.check_fits() {
            Ok(b)
        } else {
            Err(MbrBuilderError::LayoutOverflow)
        }
    }

    /// Appends a partition request; the list's order is the one that `PartRef` counts in.
    pub fn add_partition(self, spec: MbrPartSpec) -> (r: Self)
        ensures
            r@ == (BuilderModel { specs: self@.specs.push(spec), ..self@ }),
            fits(r@) == fits(self@),
    {
        let mut partitions = self.partitions;
        partitions.push(spec);
        MbrBuilder { partitions, ..self }
    }
}


impl MbrBuilder {
    fn head_byte_at(&self, i: usize) -> (r: u8)
        requires
            i < 446,
        ensures
            r == head_byte(self@, i as int),
    {
        if let Some((sig, extra)) = self.disk_sig {
            if 440 <= i && i < 444 {
                return if i == 440 {
                    (sig % 256) as u8
                } else if i == 441 {
                    ((sig / 256) % 256) as u8
                } else if i == 442 {
                    ((sig / 65536) % 256) as u8
                } else {
                    (sig / 16777216) as u8
                };
            } else if 444 <= i {
                return if i == 444 {
                    (extra % 256) as u8
                } else {
                    (extra / 256) as u8
                };
            }
        }
        if let Some(d) = self.original_physical_drive {
            if i == 218 {
                return d;
            }
        }
        if let Some((s, m, h)) = self.timestamp {
            if 219 <= i && i < 222 {
                return if i == 219 {
                    s
                } else if i == 220 {
                    m
                } else {
                    h
                };
            }
        }
        if let Some(b) = &self.bootcode_2 {
            if 224 <= i && i - 224 < b.len() {
                return b[i - 224];
            }
        }
        if let Some(a) = &self.bootcode {
            if i < a.len() {
                return a[i];
            }
        }
        0
    }

    /// The 446 bytes before the entries of the primary sector.
    fn head(&self) -> (r: Vec<u8>)
        ensures
            r@ == head_bytes(self@),
    {
        let mut v: Vec<u8> = Vec::new();
        let mut i: usize = 0;
        while i < 446
            invariant
                i <= 446,
                v@.len() == i,
                forall|j: int| 0 <= j < i ==> v@[j] == head_byte(self@, j),
            decreases 446 - i,
        {
            v.push(self.head_byte_at(i));
            i = i + 1;
        }
        assert(v@ =~= head_bytes(self@));
        v
    }

    /// Checks the layout of the optional fields, then resolves the partition requests on
    /// a device of `blocks` blocks and lays the table out in sectors. Layout errors come
    /// before resolution errors. Performs no I/O; a failure leaves nothing to write.
    pub fn compile(self, blocks: u64) -> (r: Result<MbrWriter, MbrBuilderError>)
        ensures
            !fits(self@) ==> r == Err::<MbrWriter, MbrBuilderError>(
                MbrBuilderError::LayoutOverflow,
            ),
            fits(self@) ==> match resolution(self@.specs, blocks) {
                Ok(l) => r matches Ok(w) && w@ == table_sectors(head_bytes(self@), l),
                Err(e) => r == Err::<MbrWriter, MbrBuilderError>(e),
            },
    {
        if !self.check_fits() {
            return Err(MbrBuilderError::LayoutOverflow);
        }
        match resolve(&self.partitions, blocks) {
            Ok(l) => Ok(layout_sectors(self.head(), &l)),
            Err(e) => Err(e),
        }
    }
}


/// Seconds, minutes and hours of the day for a time `secs` seconds after a midnight (the
/// fields of `MbrBuilder::set_timestamp`).
pub fn time_of_day(secs: u64) -> (r: (u8, u8, u8))
    ensures
        r.0 == secs % 60,
        r.1 == (secs / 60) % 60,
        r.2 == (secs % 86400) / 3600,
{
    let day = secs % 86400;
    assert(day % 60 == secs % 60 && (day / 60) % 60 == (secs / 60) % 60) by (nonlinear_arith)
        requires
            day == secs % 86400,
    ;
    ((day % 60) as u8, ((day / 60) % 60) as u8, (day / 3600) as u8)
}

} // verus!
