use qemu_fw_cfg::bytes::{u16_from_be, u16_to_be, u32_from_be, u32_from_le, u32_to_be, u64_to_be};
use qemu_fw_cfg::probe::{hypervisor_id_bytes, is_qemu_cpu_id};
use qemu_fw_cfg::dma::{dma_address_halves, dma_outcome, write_control_word};
use qemu_fw_cfg::session::is_signature;
use qemu_fw_cfg::{
    FwCfg, FwCfgDmaAccess, FwCfgError, FwCfgFile, FwCfgWriteError, MemoryDevice, Transport,
};

const DIR: u16 = 0x19;
const FEATURES: u16 = 0x01;

fn record(size: u32, key: u16, name: &str) -> Vec<u8> {
    let mut r = Vec::new();
    r.extend_from_slice(&size.to_be_bytes());
    r.extend_from_slice(&key.to_be_bytes());
    r.extend_from_slice(&[0, 0]);
    r.extend_from_slice(name.as_bytes());
    r.resize(64, 0);
    r
}

fn directory(files: &[(u32, u16, &str)]) -> Vec<u8> {
    let mut d = (files.len() as u32).to_be_bytes().to_vec();
    for (size, key, name) in files {
        d.extend(record(*size, *key, name));
    }
    d
}

fn device(features: u32, files: &[(u32, u16, &str)], data: Vec<(u16, Vec<u8>)>) -> MemoryDevice {
    let mut items = vec![
        (0u16, b"QEMU".to_vec()),
        (FEATURES, features.to_le_bytes().to_vec()),
        (DIR, directory(files)),
    ];
    items.extend(data);
    MemoryDevice::new(items)
}

fn three_files() -> Vec<(u32, u16, &'static str)> {
    vec![
        (4, 0x20, "etc/one"),
        (6, 0x21, "etc/two"),
        (8, 0x22, "opt/three"),
    ]
}

#[test]
fn scenario_single_file_find_and_read() {
    let dev = device(0, &[(11, 0x20, "opt/input.txt")], vec![(0x20, b"hello world".to_vec())]);
    let mut fw = FwCfg::new(dev).ok().unwrap();
    let file = fw.find_file("opt/input.txt").unwrap();
    assert_eq!(file.size(), 11);
    assert_eq!(file.key(), 0x20);
    assert_eq!(file.name(), Some("opt/input.txt"));
    assert_eq!(fw.read_file(&file), b"hello world".to_vec());
    assert!(fw.find_file("opt/missing.txt").is_none());
}

#[test]
fn wrong_signature_is_rejected() {
    let dev = MemoryDevice::new(vec![(0, b"QEMX".to_vec()), (DIR, directory(&three_files()))]);
    let rejected = match FwCfg::new(dev) {
        Err(rejected) => rejected,
        Ok(_) => panic!("a wrong signature was accepted"),
    };
    assert_eq!(rejected.error(), FwCfgError::InvalidSignature);
    assert_eq!(rejected.transport().selections(), &[0u16][..]);
    assert_eq!(rejected.transport().dma_transfers(), 0);
    let empty = MemoryDevice::new(vec![]);
    assert!(matches!(FwCfg::new(empty), Err(r) if r.error() == FwCfgError::InvalidSignature));
}

#[test]
fn check_signature_again_on_open_session() {
    let mut fw = FwCfg::new(device(0, &three_files(), vec![])).ok().unwrap();
    assert_eq!(fw.check_signature(), Ok(()));
    assert_eq!(fw.transport().selections(), &[0u16, 0][..]);
}

#[test]
fn rejected_device_is_handed_back() {
    let dev = MemoryDevice::new(vec![(0, b"KVM!".to_vec())]);
    let rejected = FwCfg::new(dev).err().unwrap();
    let dev = rejected.into_transport();
    assert_eq!(dev.selections(), &[0u16][..]);
}

#[test]
fn signature_bytes_are_checked_exactly() {
    assert!(is_signature(b"QEMU"));
    assert!(!is_signature(b"QEMX"));
    assert!(!is_signature(b"qemu"));
    assert!(!is_signature(b"QEM"));
    assert!(!is_signature(b"QEMUQ"));
    assert!(!is_signature(&[0, 0, 0, 0]));
}

#[test]
fn new_session_selects_signature_once() {
    let fw = FwCfg::new(device(0, &three_files(), vec![])).ok().unwrap();
    assert_eq!(fw.transport().selections(), &[0u16][..]);
}

#[test]
fn find_file_in_three_entry_directory() {
    let mut fw = FwCfg::new(device(0, &three_files(), vec![])).ok().unwrap();
    let two = fw.find_file("etc/two").unwrap();
    assert_eq!(two.size(), 6);
    assert_eq!(two.key(), 0x21);
    let three = fw.find_file("opt/three").unwrap();
    assert_eq!(three.size(), 8);
    assert_eq!(three.key(), 0x22);
    assert!(fw.find_file("etc/four").is_none());
    assert!(fw.find_file("etc/tw").is_none());
    assert!(fw.find_file("").is_none());
    assert_eq!(fw.transport().selections(), &[0u16, DIR, DIR, DIR, DIR, DIR][..]);
}

#[test]
fn find_file_returns_first_of_equal_names() {
    let files = vec![(1, 0x30, "same"), (2, 0x31, "same")];
    let mut fw = FwCfg::new(device(0, &files, vec![])).ok().unwrap();
    let f = fw.find_file("same").unwrap();
    assert_eq!(f.key(), 0x30);
    assert_eq!(f.size(), 1);
}

#[test]
fn find_files_duplicates_and_preseeded() {
    let mut fw = FwCfg::new(device(0, &three_files(), vec![])).ok().unwrap();
    let seeded = FwCfgFile::decode(&record(99, 0x77, "seed"));
    let mut entries = [
        ("etc/two", None),
        ("absent", Some(seeded)),
        ("etc/two", None),
        ("etc/one", None),
    ];
    fw.find_files(&mut entries);
    let a = entries[0].1.unwrap();
    assert_eq!(entries[0].1, entries[2].1);
    assert_eq!(a.key(), 0x21);
    assert_eq!(a.size(), 6);
    assert_eq!(entries[1].1, Some(seeded));
    assert_eq!(entries[3].1.unwrap().key(), 0x20);
    assert_eq!(entries[1].0, "absent");
}

#[test]
fn find_files_absent_names_keep_none() {
    let mut fw = FwCfg::new(device(0, &three_files(), vec![])).ok().unwrap();
    let mut entries = [("nothing", None), ("opt/three", None)];
    fw.find_files(&mut entries);
    assert!(entries[0].1.is_none());
    assert_eq!(entries[1].1.unwrap().key(), 0x22);
}

#[test]
fn find_files_with_no_entries() {
    let mut fw = FwCfg::new(device(0, &three_files(), vec![])).ok().unwrap();
    let mut entries: [(&str, Option<FwCfgFile>); 0] = [];
    fw.find_files(&mut entries);
    assert_eq!(fw.transport().selections(), &[0u16, DIR][..]);
}

#[test]
fn iter_files_lists_directory_in_order() {
    let mut fw = FwCfg::new(device(0, &three_files(), vec![])).ok().unwrap();
    let files = fw.iter_files();
    assert_eq!(files.len(), 3);
    assert_eq!(files[0].name(), Some("etc/one"));
    assert_eq!(files[1].name(), Some("etc/two"));
    assert_eq!(files[2].name(), Some("opt/three"));
    assert_eq!(files[2].size(), 8);
    assert_eq!(files[2].key(), 0x22);
}

#[test]
fn iter_files_on_empty_directory() {
    let mut fw = FwCfg::new(device(0, &[], vec![])).ok().unwrap();
    assert!(fw.iter_files().is_empty());
    let mut missing = FwCfg::new(MemoryDevice::new(vec![(0, b"QEMU".to_vec())])).ok().unwrap();
    assert!(missing.iter_files().is_empty());
}

#[test]
fn read_file_to_short_buffer() {
    let dev = device(0, &[(11, 0x20, "opt/input.txt")], vec![(0x20, b"hello world".to_vec())]);
    let mut fw = FwCfg::new(dev).ok().unwrap();
    let file = fw.find_file("opt/input.txt").unwrap();
    let mut buffer = [0u8; 5];
    fw.read_file_to_buffer(&file, &mut buffer);
    assert_eq!(&buffer, b"hello");
}

#[test]
fn read_file_to_long_buffer_keeps_tail() {
    let dev = device(0, &[(11, 0x20, "opt/input.txt")], vec![(0x20, b"hello world".to_vec())]);
    let mut fw = FwCfg::new(dev).ok().unwrap();
    let file = fw.find_file("opt/input.txt").unwrap();
    let mut buffer = [0xAAu8; 14];
    fw.read_file_to_buffer(&file, &mut buffer);
    assert_eq!(&buffer[..11], b"hello world");
    assert_eq!(&buffer[11..], &[0xAA, 0xAA, 0xAA]);
    let mut empty: [u8; 0] = [];
    fw.read_file_to_buffer(&file, &mut empty);
}

#[test]
fn read_past_item_end_gives_zeros() {
    let dev = device(0, &[(6, 0x20, "short")], vec![(0x20, b"abc".to_vec())]);
    let mut fw = FwCfg::new(dev).ok().unwrap();
    let file = fw.find_file("short").unwrap();
    assert_eq!(fw.read_file(&file), vec![b'a', b'b', b'c', 0, 0, 0]);
}

#[test]
fn write_without_dma_is_refused() {
    let dev = device(0x01, &[(4, 0x20, "etc/one")], vec![]);
    let mut fw = FwCfg::new(dev).ok().unwrap();
    let file = fw.find_file("etc/one").unwrap();
    assert_eq!(fw.begin_write_to_file(&file, b"data"), Err(FwCfgWriteError::DmaNotAvailable));
    assert_eq!(fw.transport().dma_transfers(), 0);
    assert_eq!(fw.begin_write_to_file(&file, b"data"), Err(FwCfgWriteError::DmaNotAvailable));
    assert_eq!(fw.transport().dma_transfers(), 0);
    assert_eq!(fw.transport().selections(), &[0u16, DIR, FEATURES][..]);
}

#[test]
fn dma_write_reports_error_bit() {
    let mut dev = device(0x02, &[(4, 0x20, "etc/one")], vec![]);
    let control = 0x0020_0018;
    dev.set_dma_controls(vec![control, control | 0x01]);
    let mut fw = FwCfg::new(dev).ok().unwrap();
    let file = fw.find_file("etc/one").unwrap();
    assert_eq!(fw.begin_write_to_file(&file, b"data"), Ok(()));
    assert_eq!(fw.transport().dma_transfers(), 1);
    assert_eq!(fw.poll_write(), None);
    assert_eq!(fw.poll_write(), Some(Err(FwCfgWriteError::DmaFailed)));
}

#[test]
fn dma_write_completes_when_control_clears() {
    let mut dev = device(0x03, &[(4, 0x20, "etc/one")], vec![]);
    dev.set_dma_controls(vec![0x0020_0018, 0x0020_0008, 0]);
    let mut fw = FwCfg::new(dev).ok().unwrap();
    let file = fw.find_file("etc/one").unwrap();
    assert_eq!(fw.begin_write_to_file(&file, b"xy"), Ok(()));
    assert_eq!(fw.poll_write(), None);
    assert_eq!(fw.poll_write(), None);
    assert_eq!(fw.poll_write(), Some(Ok(())));
    assert_eq!(fw.begin_write_to_file(&file, b"z"), Ok(()));
    assert_eq!(fw.transport().dma_transfers(), 2);
    assert_eq!(fw.transport().selections(), &[0u16, DIR, FEATURES][..]);
}

#[test]
fn record_round_trip() {
    let mut r = record(0x0102_0304, 0xA0B0, "etc/name");
    r[6] = 0x55;
    r[7] = 0x66;
    r[30] = b'x';
    let f = FwCfgFile::decode(&r);
    assert_eq!(f.size(), 0x0102_0304);
    assert_eq!(f.key(), 0xA0B0);
    assert_eq!(f.name_bytes(), b"etc/name");
    let e = f.encode();
    assert_eq!(&e[..6], &r[..6]);
    assert_eq!(&e[6..8], &[0, 0]);
    assert_eq!(&e[8..16], b"etc/name");
    assert!(e[16..].iter().all(|&b| b == 0));
    assert_eq!(FwCfgFile::decode(&e), f);
}

#[test]
fn name_without_nul_takes_whole_field() {
    let long = "a".repeat(56);
    let f = FwCfgFile::decode(&record(1, 2, &long));
    assert_eq!(f.name(), Some(long.as_str()));
    assert!(f.has_name(&long));
    assert!(!f.has_name(&long[..55]));
}

#[test]
fn invalid_utf8_name() {
    let mut r = record(1, 2, "ab");
    r[9] = 0xFF;
    let f = FwCfgFile::decode(&r);
    assert_eq!(f.name(), None);
    assert_eq!(f.name_bytes(), &[b'a', 0xFF][..]);
    assert!(!f.has_name("ab"));
}

#[test]
fn default_file_is_empty() {
    let f = FwCfgFile::default();
    assert_eq!(f.size(), 0);
    assert_eq!(f.key(), 0);
    assert_eq!(f.name(), Some(""));
    assert_eq!(f.encode(), [0u8; 64]);
}

#[test]
fn dma_descriptor_layout() {
    let d = FwCfgDmaAccess::new(0x0020_0018, 0x1122_3344_5566_7788, 5);
    assert_eq!(
        d.to_bytes(),
        [0x00, 0x20, 0x00, 0x18, 0, 0, 0, 5, 0x11, 0x22, 0x33, 0x44, 0x55, 0x66, 0x77, 0x88]
    );
    assert_eq!(FwCfgDmaAccess::control_from_bytes(&d.to_bytes()), 0x0020_0018);
}

#[test]
fn dma_control_word_and_outcomes() {
    assert_eq!(write_control_word(0x20), 0x0020_0018);
    assert_eq!(write_control_word(0xFFFF), 0xFFFF_0018);
    assert_eq!(dma_outcome(0), Some(Ok(())));
    assert_eq!(dma_outcome(0x0020_0019), Some(Err(FwCfgWriteError::DmaFailed)));
    assert_eq!(dma_outcome(1), Some(Err(FwCfgWriteError::DmaFailed)));
    assert_eq!(dma_outcome(0x0020_0018), None);
    assert_eq!(dma_address_halves(0x1122_3344_5566_7788), (0x1122_3344, 0x5566_7788));
    assert_eq!(dma_address_halves(0xFFFF_FFFF), (0, 0xFFFF_FFFF));
}

#[test]
fn integer_byte_orders() {
    assert_eq!(u32_from_be(&[1, 2, 3, 4]), 0x0102_0304);
    assert_eq!(u32_from_le(&[1, 2, 3, 4]), 0x0403_0201);
    assert_eq!(u16_from_be(&[0xAB, 0xCD]), 0xABCD);
    assert_eq!(u32_to_be(0x0102_0304), [1, 2, 3, 4]);
    assert_eq!(u16_to_be(0xABCD), [0xAB, 0xCD]);
    assert_eq!(u64_to_be(0x0102_0304_0506_0708), [1, 2, 3, 4, 5, 6, 7, 8]);
}

#[test]
fn memory_device_reads_follow_selection() {
    let mut dev = MemoryDevice::new(vec![(5, vec![1, 2, 3]), (5, vec![9]), (6, vec![4])]);
    let mut buf = [0u8; 2];
    dev.select(5);
    dev.read(&mut buf);
    assert_eq!(buf, [1, 2]);
    dev.read(&mut buf);
    assert_eq!(buf, [3, 0]);
    dev.read(&mut buf);
    assert_eq!(buf, [0, 0]);
    dev.select(6);
    dev.read(&mut buf);
    assert_eq!(buf, [4, 0]);
    dev.select(5);
    dev.read(&mut buf);
    assert_eq!(buf, [1, 2]);
    assert_eq!(dev.selections(), &[5u16, 6, 5][..]);
}

#[test]
fn hypervisor_ids() {
    let tcg = hypervisor_id_bytes(
        u32::from_le_bytes(*b"TCGT"),
        u32::from_le_bytes(*b"CGTC"),
        u32::from_le_bytes(*b"GTCG"),
    );
    assert_eq!(&tcg, b"TCGTCGTCGTCG");
    assert!(is_qemu_cpu_id(&tcg));
    assert!(is_qemu_cpu_id(b"KVMKVMKVM\0\0\0"));
    assert!(!is_qemu_cpu_id(b"KVMKVMKVM\0\0"));
    assert!(!is_qemu_cpu_id(b"Microsoft Hv"));
    assert!(!is_qemu_cpu_id(b""));
}

#[test]
fn find_files_mixed_entries() {
    let dev = device(0, &[(11, 0x20, "opt/input.txt")], vec![(0x20, b"hello world".to_vec())]);
    let mut fw = FwCfg::new(dev).ok().unwrap();
    let f = fw.find_file("opt/input.txt").unwrap();
    let mut entries = [
        ("opt/input.txt", None),
        ("opt/not_found.txt", None),
        ("opt/input.txt", None),
        ("opt/not_found.txt", Some(f)),
    ];
    fw.find_files(&mut entries);
    let slots: Vec<Option<FwCfgFile>> = entries.iter().map(|e| e.1).collect();
    assert_eq!(slots, vec![Some(f), None, Some(f), Some(f)]);
}

#[test]
fn read_file_to_half_buffer() {
    let input = b"hello world, this is input";
    let dev = device(0, &[(input.len() as u32, 0x20, "opt/input.txt")], vec![(0x20, input.to_vec())]);
    let mut fw = FwCfg::new(dev).ok().unwrap();
    let file = fw.find_file("opt/input.txt").unwrap();
    let mut buffer = vec![0u8; input.len() / 2];
    fw.read_file_to_buffer(&file, &mut buffer);
    assert_eq!(&buffer[..], &input[..input.len() / 2]);
}
