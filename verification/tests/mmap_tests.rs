use arceos_core::errno::{syscall_error, Errno};
use arceos_core::mmap::{
    fill_after_read, fill_read_size, mmap_mapped, mmap_start, FillStep, MappingFlags, MmapFlags,
    MmapMapped, MmapProt, MmapRequest, MmapStart, ReadOutcome, ANON_MAP_START, FILE_MAP_START,
    MAP_ANONYMOUS, MAP_PRIVATE, MAP_SHARED, PROT_EXEC, PROT_READ, PROT_WRITE, zero_tail,
};
use arceos_core::syscall::{
    classify_syscall, openat_dirfd_supported, unimplemented_syscall, Syscall, AT_FDCWD,
};

#[test]
fn error_codes_are_negated_errno_numbers() {
    assert_eq!(syscall_error(Errno::EBADF), -9);
    assert_eq!(syscall_error(Errno::ENOMEM), -12);
    assert_eq!(syscall_error(Errno::ENOSYS), -38);
}

#[test]
fn flags_drop_unknown_bits() {
    assert_eq!(MmapProt::from_bits_truncate(0xff).bits, 7);
    assert_eq!(MmapFlags::from_bits_truncate(-1).bits, 0x24033);
    assert!(MmapFlags::from_bits_truncate(0x22).contains(MAP_ANONYMOUS));
    assert!(!MmapFlags::from_bits_truncate(0x02).contains(MAP_ANONYMOUS));
}

#[test]
fn mapping_flags_follow_protection() {
    assert_eq!(MappingFlags::from(MmapProt::from_bits_truncate(0)).bits, 8);
    assert_eq!(MappingFlags::from(MmapProt::from_bits_truncate(PROT_READ)).bits, 9);
    assert_eq!(
        MappingFlags::from(MmapProt::from_bits_truncate(PROT_READ | PROT_WRITE)).bits,
        11
    );
    assert_eq!(
        MappingFlags::from(MmapProt::from_bits_truncate(PROT_READ | PROT_EXEC)).bits,
        13
    );
    assert_eq!(
        MappingFlags::from(MmapProt::from_bits_truncate(PROT_READ | PROT_WRITE | PROT_EXEC)).bits,
        15
    );
}

#[test]
fn anonymous_mapping() {
    let r = mmap_start(5000, PROT_READ | PROT_WRITE, MAP_ANONYMOUS | MAP_PRIVATE, -1);
    assert_eq!(
        r,
        MmapStart::MakeMapping(MmapRequest {
            start: ANON_MAP_START,
            length: 8192,
            flags: MappingFlags { bits: 11 },
            file_backed: false,
        })
    );
}

#[test]
fn file_mapping() {
    let r = mmap_start(4096, PROT_READ, MAP_SHARED, 3);
    assert_eq!(
        r,
        MmapStart::MakeMapping(MmapRequest {
            start: FILE_MAP_START,
            length: 4096,
            flags: MappingFlags { bits: 9 },
            file_backed: true,
        })
    );
    let r = mmap_start(0, PROT_READ, MAP_PRIVATE, 0);
    match r {
        MmapStart::MakeMapping(req) => assert_eq!(req.length, 0),
        MmapStart::Return(_) => panic!("expected a mapping"),
    }
}

#[test]
fn file_mapping_with_bad_descriptor() {
    assert_eq!(mmap_start(4096, PROT_READ, MAP_PRIVATE, -1), MmapStart::Return(-9));
}

#[test]
fn outcome_of_the_mapping() {
    let anon = MmapRequest {
        start: ANON_MAP_START,
        length: 4096,
        flags: MappingFlags { bits: 9 },
        file_backed: false,
    };
    let file = MmapRequest { start: FILE_MAP_START, file_backed: true, ..anon };
    assert_eq!(mmap_mapped(&anon, true), MmapMapped::Return(0x1000_0000));
    assert_eq!(mmap_mapped(&anon, false), MmapMapped::Return(-12));
    assert_eq!(mmap_mapped(&file, true), MmapMapped::FillFromFile(0x2000_0000));
    assert_eq!(mmap_mapped(&file, false), MmapMapped::Return(-12));
}

#[test]
fn read_sizes_of_the_regions() {
    assert_eq!(fill_read_size(0, 5000, 4096), Some(4096));
    assert_eq!(fill_read_size(4096, 5000, 4096), Some(904));
    assert_eq!(fill_read_size(5000, 5000, 4096), None);
    assert_eq!(fill_read_size(6000, 5000, 4096), None);
}

#[test]
fn bookkeeping_after_a_read() {
    assert_eq!(
        fill_after_read(0, 4096, ReadOutcome::Read(4096)),
        FillStep { total_read: 4096, zero_from: 4096 }
    );
    assert_eq!(
        fill_after_read(4096, 904, ReadOutcome::Read(100)),
        FillStep { total_read: 4196, zero_from: 100 }
    );
    assert_eq!(
        fill_after_read(4096, 904, ReadOutcome::Failed),
        FillStep { total_read: 4096, zero_from: 0 }
    );
}

#[test]
fn syscall_numbers() {
    assert_eq!(classify_syscall(29), Syscall::Ioctl);
    assert_eq!(classify_syscall(56), Syscall::Openat);
    assert_eq!(classify_syscall(57), Syscall::Close);
    assert_eq!(classify_syscall(63), Syscall::Read);
    assert_eq!(classify_syscall(64), Syscall::Write);
    assert_eq!(classify_syscall(66), Syscall::Writev);
    assert_eq!(classify_syscall(93), Syscall::Exit);
    assert_eq!(classify_syscall(94), Syscall::ExitGroup);
    assert_eq!(classify_syscall(96), Syscall::SetTidAddress);
    assert_eq!(classify_syscall(222), Syscall::Mmap);
    assert_eq!(classify_syscall(0), Syscall::Unimplemented);
    assert_eq!(classify_syscall(221), Syscall::Unimplemented);
    assert_eq!(unimplemented_syscall(), -38);
}

#[test]
fn openat_needs_the_working_directory() {
    assert!(openat_dirfd_supported(AT_FDCWD));
    assert!(!openat_dirfd_supported(3));
}

#[test]
fn zero_tail_clears_the_unread_part() {
    let mut buf = [7u8; 8];
    zero_tail(&mut buf, 3);
    assert_eq!(buf, [7, 7, 7, 0, 0, 0, 0, 0]);
    let mut buf = [7u8; 4];
    zero_tail(&mut buf, 4);
    assert_eq!(buf, [7; 4]);
    zero_tail(&mut buf, 10);
    assert_eq!(buf, [7; 4]);
    zero_tail(&mut buf, 0);
    assert_eq!(buf, [0; 4]);
}

#[test]
fn a_file_mapping_holds_the_file_then_zeros() {
    // Two regions of 4096 bytes cover a length of 5000; the file has 100 bytes.
    let file: Vec<u8> = (0..100u8).collect();
    let length = 5000;
    let mut regions = vec![vec![0xaau8; 4096], vec![0xaau8; 904]];
    let mut total_read = 0;
    for region in regions.iter_mut() {
        let read_size = match fill_read_size(total_read, length, region.len()) {
            Some(n) => n,
            None => break,
        };
        let buffer = &mut region[..read_size];
        let n = std::cmp::min(read_size, file.len().saturating_sub(total_read));
        buffer[..n].copy_from_slice(&file[total_read..total_read + n]);
        let step = fill_after_read(total_read, read_size, ReadOutcome::Read(n));
        zero_tail(buffer, step.zero_from);
        total_read = step.total_read;
    }
    let image: Vec<u8> = regions.concat();
    assert_eq!(image.len(), length);
    assert_eq!(&image[..100], &file[..]);
    assert!(image[100..].iter().all(|b| *b == 0));
}
