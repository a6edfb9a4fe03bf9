use partition::mbr::header::{decode, encode, Chs, MbrHeader, PartitionStatus};
use partition::mbr::resolve::{resolve, MbrLayout};
use partition::mbr::time_of_day;
use partition::mbr::writer::{sector_offset, MbrWriter};
use partition::mbr::{
    LocSpec, MbrBuilder, MbrBuilderError, MbrPart, MbrPartSpec, NumSpec, PartRef, PartSpec,
};

fn part(specs: Vec<PartSpec>) -> MbrPartSpec {
    MbrPartSpec::new(specs)
}

fn span(start: u64, end: u64) -> MbrPartSpec {
    part(vec![PartSpec::Start(LocSpec::Block(start)), PartSpec::End(LocSpec::Block(end))])
}

fn resolved(specs: Vec<MbrPartSpec>, blocks: u64) -> Result<MbrLayout, MbrBuilderError> {
    resolve(&specs, blocks)
}

fn le32(b: &[u8], o: usize) -> u32 {
    u32::from_le_bytes([b[o], b[o + 1], b[o + 2], b[o + 3]])
}

fn build(specs: Vec<MbrPartSpec>, blocks: u64) -> Result<MbrWriter, MbrBuilderError> {
    let mut b = MbrBuilder::new();
    for s in specs {
        b = b.add_partition(s);
    }
    b.compile(blocks)
}

#[test]
fn it_works() {}

#[test]
fn chs_pack_unpack_all_corners() {
    for &(c, h, s) in &[(0u16, 0u8, 1u8), (1023, 255, 63), (512, 17, 32), (255, 1, 63), (256, 254, 1)] {
        let x = Chs::new(c, h, s);
        assert_eq!((x.c(), x.h(), x.s()), (c, h, s));
    }
}

#[test]
fn chs_unpacks_bit_fields() {
    let x = Chs::new(0x3ff, 0xfe, 0x3f);
    assert_eq!(x.bytes(), [0xfe, 0xff, 0xff]);
    assert_eq!(Chs::unrepresentable().bytes(), [0xff, 0xff, 0xff]);
    let y = Chs::new(0x1a5, 3, 9);
    assert_eq!(y.bytes(), [3, 0x49, 0xa5]);
}

fn sample_sector() -> [u8; 512] {
    let mut b = [0u8; 512];
    for i in 0..440 {
        b[i] = (i % 251) as u8;
    }
    b[440..444].copy_from_slice(&0xdeadbeefu32.to_le_bytes());
    b[444] = 0x5a;
    b[445] = 0x5a;
    b[446] = 0x80;
    b[447..450].copy_from_slice(&[0x01, 0x41, 0x02]);
    b[450] = 0x83;
    b[451..454].copy_from_slice(&[0xfe, 0xff, 0xff]);
    b[454..458].copy_from_slice(&2048u32.to_le_bytes());
    b[458..462].copy_from_slice(&204800u32.to_le_bytes());
    b[462] = 0x17;
    b[466] = 0x07;
    b[470..474].copy_from_slice(&0x01020304u32.to_le_bytes());
    b[510] = 0x55;
    b[511] = 0xaa;
    b
}

#[test]
fn header_reads_fields() {
    let b = sample_sector();
    let h = MbrHeader::from_bytes(&b);
    assert!(h.bootsig_is_valid());
    assert_eq!(h.bootsig(), [0x55, 0xaa]);
    assert_eq!(h.disk_sig(), 0xdeadbeef);
    assert_eq!(h.copy_protect(), 0x5a5a);
    let e = h.primary_partitions();
    assert!(matches!(e[0].status(), PartitionStatus::Active));
    assert!(matches!(e[1].status(), PartitionStatus::Invalid(0x17)));
    assert!(matches!(e[2].status(), PartitionStatus::Inactive));
    assert_eq!(e[0].part_type(), 0x83);
    assert_eq!(e[0].lba_first(), 2048);
    assert_eq!(e[0].lba_size(), 204800);
    assert_eq!(e[1].lba_first(), 0x01020304);
    assert_eq!(e[1].part_type(), 0x07);
    let f = e[0].chs_first();
    assert_eq!((f.c(), f.h(), f.s()), (2 | (1 << 8), 1, 1));
    let l = e[0].chs_last();
    assert_eq!((l.c(), l.h(), l.s()), (1023, 254, 63));
}

#[test]
fn invalid_bootsig_is_reported() {
    let mut b = sample_sector();
    b[511] = 0;
    assert!(!MbrHeader::from_bytes(&b).bootsig_is_valid());
}

#[test]
fn decode_encode_decode_round_trip() {
    let b = sample_sector();
    let f = decode(&b);
    let e = encode(&f);
    assert_eq!(e.to_vec(), b.to_vec());
    let g = decode(&e);
    assert_eq!(g.head, f.head);
    for k in 0..4 {
        assert_eq!(g.entries[k].status, f.entries[k].status);
        assert_eq!(g.entries[k].part_type, f.entries[k].part_type);
        assert_eq!(g.entries[k].lba_first, f.entries[k].lba_first);
        assert_eq!(g.entries[k].lba_size, f.entries[k].lba_size);
        assert_eq!(g.entries[k].chs_first.bytes(), f.entries[k].chs_first.bytes());
        assert_eq!(g.entries[k].chs_last.bytes(), f.entries[k].chs_last.bytes());
    }
}

#[test]
fn encode_pads_and_signs() {
    let mut f = decode(&sample_sector());
    f.head = vec![1, 2, 3];
    let e = encode(&f);
    assert_eq!(&e[0..3], &[1, 2, 3]);
    assert!(e[3..446].iter().all(|&x| x == 0));
    assert_eq!(&e[510..512], &[0x55, 0xaa]);
    assert_eq!(le32(&e, 454), 2048);
}

#[test]
fn example_layout_resolves_in_input_order() {
    let a = part(vec![
        PartSpec::Start(LocSpec::Block(2048)),
        PartSpec::End(LocSpec::AtStartOf(PartRef::Exact(1))),
    ]);
    let b = part(vec![
        PartSpec::Start(LocSpec::Block(206848)),
        PartSpec::End(LocSpec::Block(999999)),
    ]);
    let l = resolved(vec![a, b], 1_000_000).unwrap();
    assert_eq!(
        l.parts,
        vec![
            MbrPart { number: 0, start: 2048, end: 206848 },
            MbrPart { number: 1, start: 206848, end: 999999 }
        ]
    );
    assert!(l.container.is_none());
    assert_eq!(l.bootable, None);
}

#[test]
fn mutual_start_end_references_are_a_cycle() {
    let a = part(vec![
        PartSpec::Start(LocSpec::Block(2048)),
        PartSpec::End(LocSpec::AtStartOf(PartRef::Exact(1))),
    ]);
    let b = part(vec![
        PartSpec::Start(LocSpec::AtEndOf(PartRef::Previous(1))),
        PartSpec::End(LocSpec::Block(999999)),
    ]);
    assert_eq!(
        resolved(vec![a, b], 1_000_000).err(),
        Some(MbrBuilderError::CyclicReference { spec: 0, refers_to: 1 })
    );
}

#[test]
fn start_cycle_is_detected() {
    let a = part(vec![
        PartSpec::Start(LocSpec::AtStartOf(PartRef::Next(1))),
        PartSpec::End(LocSpec::Block(100)),
    ]);
    let b = part(vec![
        PartSpec::Start(LocSpec::AtStartOf(PartRef::Previous(1))),
        PartSpec::End(LocSpec::Block(200)),
    ]);
    assert_eq!(
        resolved(vec![a, b], 1000).err(),
        Some(MbrBuilderError::CyclicReference { spec: 0, refers_to: 1 })
    );
}

#[test]
fn missing_start_follows_previous() {
    let a = span(10, 20);
    let b = part(vec![PartSpec::End(LocSpec::Block(50))]);
    let l = resolved(vec![a, b], 100).unwrap();
    assert_eq!(l.parts[1], MbrPart { number: 1, start: 20, end: 50 });
}

#[test]
fn first_without_start_is_unresolved() {
    let a = part(vec![PartSpec::End(LocSpec::Block(50))]);
    assert_eq!(
        resolved(vec![a], 100).err(),
        Some(MbrBuilderError::UnresolvedReference { spec: 0 })
    );
}

#[test]
fn reference_outside_list_is_unresolved() {
    let a = span(10, 20);
    let b = part(vec![
        PartSpec::Start(LocSpec::AtEndOf(PartRef::Next(1))),
        PartSpec::End(LocSpec::Block(50)),
    ]);
    assert_eq!(
        resolved(vec![a, b], 100).err(),
        Some(MbrBuilderError::UnresolvedReference { spec: 1 })
    );
}

#[test]
fn bootable_uniqueness() {
    let a = part(vec![
        PartSpec::IsBootable,
        PartSpec::Start(LocSpec::Block(10)),
        PartSpec::End(LocSpec::Block(20)),
    ]);
    let b = part(vec![
        PartSpec::IsBootable,
        PartSpec::Start(LocSpec::Block(20)),
        PartSpec::End(LocSpec::Block(30)),
    ]);
    assert_eq!(
        resolved(vec![a.clone(), b], 100).err(),
        Some(MbrBuilderError::MultipleBootable)
    );
    let l = resolved(vec![span(1, 10), a], 100).unwrap();
    assert_eq!(l.bootable, Some(1));
    assert!(resolved(vec![span(1, 10), span(10, 20)], 100).is_ok());
}

#[test]
fn zero_length_out_of_bounds_and_overlap() {
    assert_eq!(
        resolved(vec![span(5, 5)], 100).err(),
        Some(MbrBuilderError::ZeroLengthPartition { spec: 0 })
    );
    assert_eq!(
        resolved(vec![span(1, 10), span(50, 101)], 100).err(),
        Some(MbrBuilderError::OutOfBounds { spec: 1 })
    );
    assert_eq!(
        resolved(vec![span(1, 10), span(20, 30), span(25, 40)], 100).err(),
        Some(MbrBuilderError::OverlappingPartitions { a: 1, b: 2 })
    );
    assert_eq!(
        resolved(vec![span(1, 0x1_0000_0000)], u64::MAX).err(),
        Some(MbrBuilderError::OutOfBounds { spec: 0 })
    );
}

#[test]
fn explicit_numbers() {
    let a = part(vec![
        PartSpec::Number(NumSpec::Exact(2)),
        PartSpec::Start(LocSpec::Block(1)),
        PartSpec::End(LocSpec::Block(10)),
    ]);
    let l = resolved(vec![a.clone(), span(10, 20), span(20, 30)], 100).unwrap();
    let nums: Vec<u32> = l.parts.iter().map(|p| p.number).collect();
    assert_eq!(nums, vec![2, 0, 1]);
    let b = part(vec![
        PartSpec::Number(NumSpec::Exact(2)),
        PartSpec::Start(LocSpec::Block(50)),
        PartSpec::End(LocSpec::Block(60)),
    ]);
    assert_eq!(
        resolved(vec![a, span(10, 20), b], 100).err(),
        Some(MbrBuilderError::DuplicateNumber { number: 2 })
    );
}

#[test]
fn too_many_partitions() {
    let specs: Vec<MbrPartSpec> = (0..129).map(|i| span(i * 10, i * 10 + 10)).collect();
    assert_eq!(resolved(specs, 1_000_000).err(), Some(MbrBuilderError::TooManyPartitions));
}

#[test]
fn chain_overflow_when_primary_inside_container() {
    let specs = vec![
        span(100, 200),
        span(200, 300),
        span(300, 400),
        span(1, 50),
        span(500, 600),
    ];
    assert_eq!(resolved(specs, 1000).err(), Some(MbrBuilderError::ExtendedChainOverflow));
    let full: Vec<MbrPartSpec> = (0..5u32)
        .map(|i| {
            part(vec![
                PartSpec::Number(NumSpec::Exact(i)),
                PartSpec::Start(LocSpec::Block(u64::from(i) * 10 + 10)),
                PartSpec::End(LocSpec::Block(u64::from(i) * 10 + 20)),
            ])
        })
        .collect();
    assert_eq!(resolved(full, 1000).err(), Some(MbrBuilderError::ExtendedChainOverflow));
}

#[test]
fn five_partitions_chain_through_ebrs() {
    let specs: Vec<MbrPartSpec> =
        (0..5u64).map(|i| span(2048 + i * 2048, 4096 + i * 2048)).collect();
    let w = build(specs, 100_000).unwrap();
    let s = w.sectors();
    assert_eq!(s.len(), 3);
    assert_eq!(s[0].lba, 0);
    let p = &s[0].data;
    assert_eq!(&p[510..512], &[0x55, 0xaa]);
    for k in 0..3 {
        let o = 446 + 16 * k;
        assert_eq!(p[o + 4], 0x83);
        assert_eq!(&p[o + 1..o + 4], &[0xff, 0xff, 0xff]);
        assert_eq!(le32(p, o + 8), 2048 + 2048 * k as u32);
        assert_eq!(le32(p, o + 12), 2048);
    }
    assert_eq!(p[494 + 4], 0x0f);
    assert_eq!(le32(p, 494 + 8), 8192);
    assert_eq!(le32(p, 494 + 12), 4096);
    assert_eq!(s[1].lba, 8192);
    assert_eq!(s[2].lba, 10240);
    for e in &s[1..] {
        assert_eq!(&e.data[510..512], &[0x55, 0xaa]);
        assert_eq!(e.data[446 + 4], 0x83);
        assert_eq!(le32(&e.data, 446 + 8), 1);
        assert_eq!(le32(&e.data, 446 + 12), 2047);
    }
    assert_eq!(s[1].data[462 + 4], 0x05);
    assert_eq!(le32(&s[1].data, 462 + 8), 2048);
    assert_eq!(le32(&s[1].data, 462 + 12), 2048);
    assert!(s[2].data[462..478].iter().all(|&x| x == 0));
    let l = resolved(
        (0..5u64).map(|i| span(2048 + i * 2048, 4096 + i * 2048)).collect(),
        100_000,
    )
    .unwrap();
    let nums: Vec<u32> = l.parts.iter().map(|p| p.number).collect();
    assert_eq!(nums, vec![0, 1, 2, 4, 5]);
    assert!(l.parts[3].is_extended() && l.parts[0].is_primary());
    assert_eq!(l.container, Some(MbrPart { number: 3, start: 8192, end: 12288 }));
}

#[test]
fn builder_places_modern_fields() {
    let b = MbrBuilder::new()
        .set_bootcode(&[0xeb, 0x63, 0x90])
        .unwrap()
        .set_original_physical_drive(0x80)
        .unwrap()
        .set_timestamp(1, 2, 3)
        .unwrap()
        .set_bootcode_part2(&[9; 216])
        .unwrap()
        .set_disk_signature(0x12345678, 0x5a5a)
        .unwrap()
        .add_partition(part(vec![
            PartSpec::IsBootable,
            PartSpec::Start(LocSpec::Block(2048)),
            PartSpec::End(LocSpec::Block(4096)),
        ]));
    let w = b.compile(10_000).unwrap();
    let d = &w.sectors()[0].data;
    assert_eq!(&d[0..4], &[0xeb, 0x63, 0x90, 0]);
    assert_eq!(d[218], 0x80);
    assert_eq!(&d[219..222], &[1, 2, 3]);
    assert!(d[224..440].iter().all(|&x| x == 9));
    let h = MbrHeader::from_bytes(d);
    assert_eq!(h.disk_sig(), 0x12345678);
    assert_eq!(h.copy_protect(), 0x5a5a);
    let e = h.primary_partitions();
    assert!(matches!(e[0].status(), PartitionStatus::Active));
    assert_eq!(e[0].lba_first(), 2048);
    assert_eq!(e[0].lba_size(), 2048);
    assert_eq!(e[1].lba_size(), 0);
}

#[test]
fn builder_layout_errors() {
    assert_eq!(
        MbrBuilder::new().set_bootcode(&[0; 447]).err(),
        Some(MbrBuilderError::BootcodeTooLong)
    );
    assert!(MbrBuilder::new().set_bootcode(&[0; 446]).is_ok());
    let modern = MbrBuilder::new().set_timestamp(0, 0, 0).unwrap();
    assert_eq!(modern.set_bootcode(&[0; 227]).err(), Some(MbrBuilderError::BootcodeTooLong));
    let modern = MbrBuilder::new().set_timestamp(0, 0, 0).unwrap();
    assert_eq!(modern.set_bootcode(&[0; 220]).err(), Some(MbrBuilderError::LayoutOverflow));
    let big = MbrBuilder::new().set_bootcode(&[0; 300]).unwrap();
    assert_eq!(big.set_timestamp(0, 0, 0).err(), Some(MbrBuilderError::LayoutOverflow));
    let b2 = MbrBuilder::new().set_bootcode_part2(&[1; 222]).unwrap();
    assert_eq!(b2.set_disk_signature(1, 0).err(), Some(MbrBuilderError::LayoutOverflow));
    assert_eq!(
        MbrBuilder::new().set_bootcode_part2(&[1; 223]).err(),
        Some(MbrBuilderError::LayoutOverflow)
    );
    let classic = MbrBuilder::new().set_bootcode(&[7; 440]).unwrap();
    assert_eq!(
        classic.set_disk_signature(0xaabbccdd, 0).err(),
        Some(MbrBuilderError::LayoutOverflow)
    );
    let signed = MbrBuilder::new().set_disk_signature(0xaabbccdd, 0).unwrap();
    assert_eq!(signed.set_bootcode(&[7; 227]).err(), Some(MbrBuilderError::BootcodeTooLong));
    let signed = MbrBuilder::new().set_disk_signature(0xaabbccdd, 0).unwrap();
    let w = signed.set_bootcode(&[7; 226]).unwrap().compile(100).unwrap();
    assert_eq!(MbrHeader::from_bytes(&w.sectors()[0].data).disk_sig(), 0xaabbccdd);
    assert_eq!(w.sectors()[0].data[225], 7);
}

#[test]
fn compile_reports_resolution_error() {
    let b = MbrBuilder::new().add_partition(span(10, 5));
    assert_eq!(b.compile(100).err(), Some(MbrBuilderError::ZeroLengthPartition { spec: 0 }));
}

#[test]
fn resolution_is_deterministic() {
    let mk = || {
        vec![
            span(100, 200),
            part(vec![PartSpec::End(LocSpec::Block(300))]),
            part(vec![
                PartSpec::Start(LocSpec::AtEndOf(PartRef::Previous(1))),
                PartSpec::End(LocSpec::Block(400)),
                PartSpec::IsBootable,
            ]),
        ]
    };
    let a = resolved(mk(), 1000).unwrap();
    let b = resolved(mk(), 1000).unwrap();
    assert_eq!(a.parts, b.parts);
    assert_eq!(a.bootable, b.bootable);
    assert_eq!(a.container, b.container);
}

#[test]
fn resolved_ranges_are_disjoint() {
    let specs: Vec<MbrPartSpec> = vec![
        span(500, 600),
        part(vec![PartSpec::End(LocSpec::Block(700))]),
        part(vec![
            PartSpec::Start(LocSpec::Block(10)),
            PartSpec::End(LocSpec::AtStartOf(PartRef::Exact(0))),
        ]),
        span(800, 900),
        span(900, 950),
        span(950, 990),
    ];
    let l = resolved(specs, 1000).unwrap();
    for i in 0..l.parts.len() {
        assert!(l.parts[i].start < l.parts[i].end);
        for j in i + 1..l.parts.len() {
            let (x, y) = (l.parts[i], l.parts[j]);
            assert!(x.end <= y.start || y.end <= x.start);
        }
    }
    let c = l.container.unwrap();
    assert_eq!((c.start, c.end), (800, 990));
    for p in l.parts.iter().filter(|p| p.is_primary()) {
        assert!(p.end <= c.start || c.end <= p.start);
    }
}

#[test]
fn start_only_cycle_is_detected() {
    let a = part(vec![PartSpec::Start(LocSpec::AtStartOf(PartRef::Next(1)))]);
    let b = part(vec![PartSpec::Start(LocSpec::AtStartOf(PartRef::Previous(1)))]);
    assert_eq!(
        resolved(vec![a, b], 1000).err(),
        Some(MbrBuilderError::CyclicReference { spec: 0, refers_to: 1 })
    );
}

#[test]
fn cycle_is_reported_before_missing_first_start() {
    let a = part(vec![PartSpec::End(LocSpec::AtEndOf(PartRef::Next(2)))]);
    let b = span(5, 10);
    let c = part(vec![PartSpec::Start(LocSpec::AtStartOf(PartRef::Next(0)))]);
    assert_eq!(
        resolved(vec![a, b, c], 1000).err(),
        Some(MbrBuilderError::CyclicReference { spec: 2, refers_to: 2 })
    );
}

#[test]
fn missing_end_reaches_device_end() {
    let l = resolved(vec![span(1, 10), part(vec![])], 1000).unwrap();
    assert_eq!(l.parts[1], MbrPart { number: 1, start: 10, end: 1000 });
}

#[test]
fn block_zero_is_reserved() {
    let a = part(vec![
        PartSpec::Number(NumSpec::Exact(4)),
        PartSpec::Start(LocSpec::Block(0)),
        PartSpec::End(LocSpec::Block(10)),
    ]);
    assert_eq!(
        resolved(vec![a, span(10, 20)], 100).err(),
        Some(MbrBuilderError::OutOfBounds { spec: 0 })
    );
}

#[test]
fn chain_head_must_start_lowest() {
    let specs = vec![span(10, 20), span(20, 30), span(30, 40), span(60, 70), span(50, 60)];
    assert_eq!(resolved(specs, 1000).err(), Some(MbrBuilderError::ExtendedChainOverflow));
    let specs = vec![span(10, 20), span(20, 30), span(30, 40), span(50, 60), span(60, 70)];
    let l = resolved(specs.clone(), 1000).unwrap();
    assert_eq!(l.container, Some(MbrPart { number: 3, start: 50, end: 70 }));
    let w = build(specs, 1000).unwrap();
    assert_eq!(le32(&w.sectors()[0].data, 494 + 8), 50);
    assert_eq!(w.sectors()[1].lba, 50);
    assert_eq!(w.sectors()[2].lba, 60);
}

#[test]
fn every_reference_is_checked() {
    let b = part(vec![
        PartSpec::Start(LocSpec::AtEndOf(PartRef::Previous(1))),
        PartSpec::Start(LocSpec::AtStartOf(PartRef::Next(5))),
        PartSpec::End(LocSpec::Block(40)),
    ]);
    assert_eq!(
        resolved(vec![span(10, 20), b], 100).err(),
        Some(MbrBuilderError::UnresolvedReference { spec: 1 })
    );
}

#[test]
fn differing_constraints_of_one_kind_conflict() {
    let b = part(vec![
        PartSpec::Start(LocSpec::AtEndOf(PartRef::Previous(1))),
        PartSpec::Start(LocSpec::AtStartOf(PartRef::Previous(1))),
        PartSpec::End(LocSpec::Block(40)),
    ]);
    assert_eq!(
        resolved(vec![span(10, 20), b], 100).err(),
        Some(MbrBuilderError::ConflictingConstraints { spec: 1 })
    );
    let n = part(vec![
        PartSpec::Number(NumSpec::Exact(1)),
        PartSpec::Number(NumSpec::Exact(2)),
        PartSpec::Start(LocSpec::Block(30)),
    ]);
    assert_eq!(
        resolved(vec![span(10, 20), n], 100).err(),
        Some(MbrBuilderError::ConflictingConstraints { spec: 1 })
    );
    let same = part(vec![
        PartSpec::End(LocSpec::Block(40)),
        PartSpec::Start(LocSpec::AtEndOf(PartRef::Previous(1))),
        PartSpec::End(LocSpec::Block(40)),
    ]);
    let l = resolved(vec![span(10, 20), same], 100).unwrap();
    assert_eq!(l.parts[1], MbrPart { number: 1, start: 20, end: 40 });
}

#[test]
fn time_of_day_fields() {
    assert_eq!(time_of_day(0), (0, 0, 0));
    assert_eq!(time_of_day(86_400 * 3 + 3600 * 13 + 60 * 7 + 42), (42, 7, 13));
    assert_eq!(time_of_day(86_399), (59, 59, 23));
}

#[test]
fn sector_offsets() {
    assert_eq!(sector_offset(8192, 512), Some(8192 * 512));
    assert_eq!(sector_offset(3, 4096), Some(12288));
    assert_eq!(sector_offset(1, 256), None);
    assert_eq!(sector_offset(u64::MAX / 512 + 1, 512), None);
}

#[test]
fn cycle_error_names_members_not_dependents() {
    let a = part(vec![
        PartSpec::Start(LocSpec::Block(1)),
        PartSpec::End(LocSpec::AtStartOf(PartRef::Next(1))),
    ]);
    let b = part(vec![PartSpec::Start(LocSpec::AtStartOf(PartRef::Next(1)))]);
    let c = part(vec![PartSpec::Start(LocSpec::AtStartOf(PartRef::Previous(1)))]);
    assert_eq!(
        resolved(vec![a, b, c], 1000).err(),
        Some(MbrBuilderError::CyclicReference { spec: 1, refers_to: 2 })
    );
}
