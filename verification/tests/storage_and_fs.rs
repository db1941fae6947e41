use lib::drivers::block::{BlockDeviceInfo, BlockError, BlockIo};
use lib::fs::devfs::{bytes_lt, DevFs, DeviceFile};
use lib::fs::dunitfs::{encode_node, mount_global, DunitFs, DunitFsError, Node, OpenHandle};
use lib::fs::vfs::{DirEntry, FileSystem, FileType, OpenFlags, VfsError};
use lib::initrd::Initrd;
use lib::memory::vmm::{phys_to_virt, virt_to_phys};
use lib::dpkg::{get_available_package, PackageDb};
use lib::storage::gpt::{self, crc32, exact_outcome, GptError};
use lib::storage::installer::{
    bios_layout, install, install_layout, make_guid, mbr_image, mix, patch_gpt_header, transfer_outcome, BiosLayout, InstallError,
    InstallLayout,
};

/// A disk in memory; reads and writes may span blocks.
struct MemDisk {
    data: Vec<u8>,
}

impl BlockIo for MemDisk {
    fn read_block(&mut self, _name: &str, lba: u64, buf: &mut [u8]) -> Result<usize, BlockError> {
        let start = lba as usize * 512;
        if start + buf.len() > self.data.len() {
            return Err(BlockError::OutOfRange);
        }
        buf.copy_from_slice(&self.data[start..start + buf.len()]);
        Ok(buf.len())
    }

    fn write_block(&mut self, _name: &str, lba: u64, buf: &[u8]) -> Result<usize, BlockError> {
        let start = lba as usize * 512;
        if start + buf.len() > self.data.len() {
            return Err(BlockError::OutOfRange);
        }
        self.data[start..start + buf.len()].copy_from_slice(buf);
        Ok(buf.len())
    }
}

fn ahci_disk(blocks: u64) -> BlockDeviceInfo {
    BlockDeviceInfo { name: "ahci0", driver: "ahci", block_size: 512, blocks, readonly: false }
}

#[test]
fn crc32_check_value() {
    assert_eq!(crc32(b"123456789"), 0xCBF4_3926);
    assert_eq!(crc32(b""), 0);
}

#[test]
fn installer_layouts() {
    assert_eq!(install_layout(8192, 1024), Ok(InstallLayout { esp_blocks: 2, root_start: 2050, root_end: 8158 }));
    assert_eq!(install_layout(4000, 1024), Err(InstallError::DiskTooSmall));
    assert_eq!(install_layout(10, 0), Err(InstallError::DiskTooSmall));
    let l = bios_layout(8192, 512 + 3 * 512).unwrap();
    assert_eq!(
        l,
        BiosLayout {
            stage2_size: 1536,
            stage_a_blocks: 2,
            stage_b_blocks: 1,
            stage_a_size: 1024,
            stage_b_size: 512,
            stage_a_lba: 32,
            stage_b_lba: 8190,
            entry_count: 120,
        }
    );
    assert_eq!(bios_layout(8192, 513), Err(InstallError::InvalidBiosPayload));
    assert_eq!(bios_layout(8192, 512 + 64 * 512), Err(InstallError::InvalidBiosPayload));
    assert_eq!(InstallError::DiskTooSmall.as_str(), "target disk is too small");
}

#[test]
fn guids_are_version_four() {
    let g = make_guid(0x1234, 1);
    assert_eq!(g[7] & 0xf0, 0x40);
    assert_eq!(g[8] & 0xc0, 0x80);
    assert_ne!(make_guid(0x1234, 1), make_guid(0x1234, 2));
    assert_eq!(mix(0), 0);
    assert_eq!(mix(1), 0x5692_161d_100b_05e5);
}

#[test]
fn boot_sector_keeps_disk_fields() {
    let image: Vec<u8> = (0..2048u32).map(|i| (i % 251) as u8).collect();
    let old = vec![0xeeu8; 512];
    let l = bios_layout(8192, image.len()).unwrap();
    let m = mbr_image(&image, &old, l);
    assert_eq!(m.len(), 512);
    assert_eq!(m[0], image[0]);
    assert_eq!(&m[218..224], &old[218..224]);
    assert_eq!(&m[440..510], &old[440..510]);
    assert_eq!(u16::from_le_bytes([m[0x1a4], m[0x1a5]]) as usize, l.stage_a_size);
    assert_eq!(u64::from_le_bytes(m[0x1b0..0x1b8].try_into().unwrap()), l.stage_b_lba * 512);
}

#[test]
fn gpt_header_patch() {
    let mut h = vec![0u8; 512];
    h[..8].copy_from_slice(b"EFI PART");
    h[12] = 92;
    let p = patch_gpt_header(&h, 40, 0xdead_beef).unwrap();
    assert_eq!(u32::from_le_bytes(p[80..84].try_into().unwrap()), 40);
    assert_eq!(u32::from_le_bytes(p[88..92].try_into().unwrap()), 0xdead_beef);
    let mut check = p[..92].to_vec();
    check[16..20].copy_from_slice(&[0, 0, 0, 0]);
    assert_eq!(u32::from_le_bytes(p[16..20].try_into().unwrap()), crc32(&check));
    let bad = vec![0u8; 512];
    assert_eq!(patch_gpt_header(&bad, 1, 1), Err(InstallError::BiosInstallFailed));
}

#[test]
fn install_refusals() {
    let mut disk = MemDisk { data: vec![0; 8192 * 512] };
    let payload = vec![1u8; 1024];
    let mut bios = vec![0u8; 2048];
    bios[510] = 0x55;
    bios[511] = 0xaa;
    let mut ro = ahci_disk(8192);
    ro.readonly = true;
    assert_eq!(install(&mut disk, ro, false, Some(payload.as_slice()), Some(bios.as_slice()), 7), Err(InstallError::UnsupportedDevice));
    assert_eq!(install(&mut disk, ahci_disk(8192), true, Some(payload.as_slice()), Some(bios.as_slice()), 7), Err(InstallError::AlreadyMounted));
    assert_eq!(install(&mut disk, ahci_disk(8192), false, None, Some(bios.as_slice()), 7), Err(InstallError::PayloadUnavailable));
    assert_eq!(install(&mut disk, ahci_disk(8192), false, Some(&payload.as_slice()[..100]), Some(bios.as_slice()), 7), Err(InstallError::InvalidPayload));
    assert_eq!(install(&mut disk, ahci_disk(8192), false, Some(payload.as_slice()), None, 7), Err(InstallError::BiosPayloadUnavailable));
    assert_eq!(install(&mut disk, ahci_disk(8192), false, Some(payload.as_slice()), Some(&bios.as_slice()[..512]), 7), Err(InstallError::InvalidBiosPayload));
    assert_eq!(install(&mut disk, ahci_disk(3000), false, Some(payload.as_slice()), Some(bios.as_slice()), 7), Err(InstallError::DiskTooSmall));
    assert!(disk.data.iter().all(|b| *b == 0));
}

#[test]
fn install_writes_the_disk() {
    let mut disk = MemDisk { data: vec![0; 8192 * 512] };
    let payload = vec![0x5au8; 1024];
    let mut bios: Vec<u8> = (0..2048u32).map(|i| (i % 7) as u8).collect();
    bios[510] = 0x55;
    bios[511] = 0xaa;
    let r = install(&mut disk, ahci_disk(8192), false, Some(payload.as_slice()), Some(bios.as_slice()), 99);
    assert_eq!(r, Err(InstallError::MountFailed));
    assert_eq!(&disk.data[2048 * 512..2048 * 512 + 1024], &payload[..]);
    assert_eq!(&disk.data[512..520], b"EFI PART");
    assert_eq!(disk.data[510], 0x55);
    assert_eq!(disk.data[511], 0xaa);
    let table = gpt::read(&mut disk, ahci_disk(8192)).unwrap();
    assert_eq!(table.partition_count, 2);
    let root = table.partitions[1].unwrap();
    assert_eq!(root.first_lba, 2050);
    assert_eq!(root.last_lba, 8158);
    assert_eq!(root.name(), b"DUNIT-ROOT".to_vec());
    let fs = DunitFs::load(&mut disk, ahci_disk(8192), 2050, 8158 - 2050 + 1);
    assert!(fs.is_ok());
    assert!(matches!(
        mount_global(&mut disk, "/persist", false, ahci_disk(8192), 2050, 8158 - 2050 + 1),
        Err(DunitFsError::Vfs(VfsError::Unsupported))
    ));
    assert!(mount_global(&mut disk, "/", false, ahci_disk(8192), 2050, 8158 - 2050 + 1).is_ok());
    assert!(matches!(mount_global(&mut disk, "/", true, ahci_disk(8192), 2050, 6109), Err(DunitFsError::AlreadyMounted)));
}

#[test]
fn devfs_lists_devices_in_order() {
    let mut fs = DevFs::new();
    let mut buf = [0u8; 4];
    fs.add_device("ahci0", DeviceFile::new("ahci0"));
    fs.add_device("kbd", DeviceFile::with_data("kbd", vec![1, 2]));
    let names: Vec<Vec<u8>> = fs.readdir(b"").unwrap().iter().map(|e| e.name()).collect();
    assert_eq!(names, vec![b"ahci0".to_vec(), b"fb0".to_vec(), b"kbd".to_vec(), b"mouse".to_vec()]);
    assert!(matches!(fs.readdir(b"x"), Err(VfsError::NotADirectory)));
    assert_eq!(fs.open(b"mouse", OpenFlags::flag_read()), Ok(1));
    assert_eq!(fs.open(b"mouse", OpenFlags::flag_read()), Ok(2));
    assert_eq!(fs.open(b"nope", OpenFlags::flag_read()), Err(VfsError::NotFound));
    assert_eq!(fs.read(1, &mut buf), Ok(0));
    assert_eq!(fs.write(1, b"abc"), Ok(3));
    let st = fs.stat(b"").unwrap();
    assert_eq!(st.file_type, FileType::Directory);
    assert_eq!(st.size, 4);
    assert_eq!(fs.stat(b"kbd").unwrap().file_type, FileType::Device);
    assert_eq!(fs.create(b"x"), Err(VfsError::Unsupported));
    let mut entries = [DirEntry::empty(); 2];
    assert_eq!(fs.readdir_into(b"", &mut entries), Ok(2));
    assert_eq!(entries[1].name(), b"fb0".to_vec());
    assert!(bytes_lt(b"ab", b"abc"));
    assert!(!bytes_lt(b"b", b"abc"));
}

#[test]
fn initrd_lookup() {
    let mut rd = Initrd::new();
    rd.add_file(String::from("init"), vec![1, 2, 3]);
    rd.add_file(String::from("init"), vec![9]);
    rd.add_file(String::from("motd"), b"hi".to_vec());
    assert_eq!(rd.get_file("init"), Some(&[1u8, 2, 3][..]));
    assert_eq!(rd.get_file("none"), None);
    assert_eq!(rd.list_files(), vec!["init", "init", "motd"]);
    assert_eq!(rd.file_count(), 3);
}

#[test]
fn package_manager() {
    let mut db = PackageDb::new();
    assert_eq!(db.list(), "Package manager not initialized");
    assert!(!db.install("vim", "9.0.0", "Text editor"));
    db.init();
    let listing = db.list();
    assert!(listing.starts_with("Installed packages:\n  dunit-base  1.0.0  Base system\n"));
    assert!(db.is_installed("dunit-utils"));
    assert!(db.install("vim", "9.0.0", "Text editor"));
    assert!(!db.install("vim", "9.0.0", "Text editor"));
    assert!(db.remove("vim"));
    assert!(!db.remove("vim"));
    assert_eq!(get_available_package("git"), Some(("git", "2.43.0", "Version control")));
    assert_eq!(get_available_package("emacs"), None);
}

fn empty_dunitfs() -> DunitFs {
    DunitFs {
        device: ahci_disk(4096),
        partition_start: 0,
        partition_blocks: 4096,
        nodes: (0..64).map(|_| None).collect(),
        handles: Vec::new(),
        next_handle: 1,
    }
}

fn file_node(path: &[u8]) -> Node {
    Node { path: path.to_vec(), file_type: FileType::File, size: 0, first_block: 0, block_count: 0 }
}

#[test]
fn metadata_block_entries_fill_their_slots() {
    let mut data = vec![0u8; 512];
    data[128..256].copy_from_slice(&encode_node(&file_node(b"a")));
    data[384..512].copy_from_slice(&encode_node(&file_node(b"b")));
    let mut fs = empty_dunitfs();
    assert_eq!(fs.load_block_entries(&data, 2), Ok(()));
    assert!(fs.nodes[8].is_none());
    assert_eq!(fs.nodes[9].as_ref().map(|n| n.path.clone()), Some(b"a".to_vec()));
    assert!(fs.nodes[10].is_none());
    assert_eq!(fs.nodes[11].as_ref().map(|n| n.path.clone()), Some(b"b".to_vec()));
    assert_eq!(fs.nodes.iter().filter(|n| n.is_some()).count(), 2);
}

#[test]
fn metadata_block_entries_refuse_duplicates_and_corruption() {
    let mut data = vec![0u8; 512];
    data[0..128].copy_from_slice(&encode_node(&file_node(b"a")));
    data[256..384].copy_from_slice(&encode_node(&file_node(b"a")));
    let mut fs = empty_dunitfs();
    assert_eq!(fs.load_block_entries(&data, 0), Err(DunitFsError::CorruptMetadata));

    let mut bad = vec![0u8; 512];
    bad[0..128].copy_from_slice(&encode_node(&file_node(b"c")));
    bad[127] ^= 1;
    let mut fs = empty_dunitfs();
    assert_eq!(fs.load_block_entries(&bad, 1), Err(DunitFsError::CorruptMetadata));

    let mut taken = empty_dunitfs();
    taken.nodes[0] = Some(file_node(b"d"));
    let mut one = vec![0u8; 512];
    one[0..128].copy_from_slice(&encode_node(&file_node(b"d")));
    assert_eq!(taken.load_block_entries(&one, 3), Err(DunitFsError::CorruptMetadata));
}

#[test]
fn load_nodes_needs_a_metadata_block() {
    let mut disk = MemDisk { data: vec![0u8; 512 * 8] };
    let mut fs = empty_dunitfs();
    fs.partition_blocks = 1;
    assert_eq!(fs.load_nodes(&mut disk), Err(DunitFsError::Io));
}

#[test]
fn transfer_outcomes() {
    assert_eq!(exact_outcome(Ok(512), 512), Ok(()));
    assert_eq!(exact_outcome(Ok(100), 512), Err(GptError::Block(BlockError::Io)));
    assert_eq!(exact_outcome(Err(BlockError::OutOfRange), 512), Err(GptError::Block(BlockError::OutOfRange)));
    assert_eq!(transfer_outcome(Ok(1024), 1024), Ok(()));
    assert_eq!(transfer_outcome(Ok(512), 1024), Err(InstallError::BiosInstallFailed));
    assert_eq!(transfer_outcome(Err(BlockError::Io), 1024), Err(InstallError::BiosInstallFailed));
}

#[test]
fn formatted_volume_loads_empty() {
    let mut disk = MemDisk { data: vec![0xAB; 64 * 512] };
    assert_eq!(lib::fs::dunitfs::format(&mut disk, false, ahci_disk(64), 4, 40), Ok(()));
    assert_eq!(&disk.data[4 * 512..4 * 512 + 8], b"DUNITFS1");
    assert!(disk.data[5 * 512..21 * 512].iter().all(|b| *b == 0));
    assert!(disk.data[21 * 512..].iter().all(|b| *b == 0xAB));
    let fs = DunitFs::load(&mut disk, ahci_disk(64), 4, 40).unwrap();
    assert!(fs.nodes.iter().all(|n| n.is_none()));
    assert!(matches!(DunitFs::load(&mut disk, ahci_disk(64), 4, 41), Err(DunitFsError::InvalidSuperblock)));
}

#[test]
fn gpt_write_then_read_and_refusal() {
    let mut disk = MemDisk { data: vec![0; 128 * 512] };
    let guid = [7u8; 16];
    let spec = gpt::PartitionSpec {
        type_guid: [1; 16],
        unique_guid: [2; 16],
        first_lba: 40,
        last_lba: 60,
        attributes: 0,
        name: "DATA",
    };
    assert_eq!(gpt::write(&mut disk, ahci_disk(128), [0u8; 16], &[spec]), Err(GptError::InvalidHeader));
    assert!(disk.data.iter().all(|b| *b == 0));
    assert_eq!(gpt::write(&mut disk, ahci_disk(128), guid, &[spec]), Ok(()));
    let t = gpt::read(&mut disk, ahci_disk(128)).unwrap();
    assert_eq!(t.disk_guid, guid);
    assert_eq!(t.first_usable_lba, 34);
    assert_eq!(t.last_usable_lba, 128 - 34);
    assert_eq!(t.partition_count, 1);
    let p = t.partitions[0].unwrap();
    assert_eq!((p.first_lba, p.last_lba), (40, 60));
    assert_eq!(p.name(), b"DATA".to_vec());
}

#[test]
fn block_runs_are_allocated_first_fit() {
    let mut fs = empty_dunitfs();
    fs.partition_blocks = 100;
    fs.nodes[0] = Some(Node { path: b"a".to_vec(), file_type: FileType::File, size: 0, first_block: 17, block_count: 3 });
    fs.nodes[5] = Some(Node { path: b"b".to_vec(), file_type: FileType::File, size: 0, first_block: 22, block_count: 2 });
    assert!(!fs.range_free(17, 1, 64));
    assert!(fs.range_free(17, 1, 0));
    assert!(!fs.range_free(16, 1, 64));
    assert!(!fs.range_free(99, 2, 64));
    assert_eq!(fs.allocate_range(2, 64), Some(20));
    assert_eq!(fs.allocate_range(3, 64), Some(24));
    assert_eq!(fs.allocate_range(5, 0), Some(17));
    assert_eq!(fs.allocate_range(6, 0), Some(24));
    assert_eq!(fs.allocate_range(3, 5), Some(20));
    assert_eq!(fs.allocate_range(200, 64), None);
}

#[test]
fn persisted_node_is_loaded_back() {
    let mut disk = MemDisk { data: vec![0; 64 * 512] };
    assert_eq!(lib::fs::dunitfs::format(&mut disk, false, ahci_disk(64), 4, 40), Ok(()));
    let mut fs = DunitFs::load(&mut disk, ahci_disk(64), 4, 40).unwrap();
    fs.nodes[5] = Some(Node { path: b"notes".to_vec(), file_type: FileType::File, size: 0, first_block: 0, block_count: 0 });
    assert_eq!(fs.persist_node(&mut disk, 5), Ok(()));
    let back = DunitFs::load(&mut disk, ahci_disk(64), 4, 40).unwrap();
    assert_eq!(back.nodes[5].as_ref().map(|n| n.path.clone()), Some(b"notes".to_vec()));
    assert!(back.nodes[4].is_none());
    fs.nodes[6] = Some(Node { path: b"tty".to_vec(), file_type: FileType::Device, size: 0, first_block: 0, block_count: 0 });
    assert_eq!(fs.persist_node(&mut disk, 6), Err(VfsError::Unsupported));
    fs.nodes[5] = None;
    assert_eq!(fs.persist_node(&mut disk, 5), Ok(()));
    let empty = DunitFs::load(&mut disk, ahci_disk(64), 4, 40).unwrap();
    assert!(empty.nodes.iter().all(|n| n.is_none()));
}

#[test]
fn dunitfs_parent_directories() {
    let mut fs = empty_dunitfs();
    fs.nodes[0] = Some(Node { path: b"docs".to_vec(), file_type: FileType::Directory, size: 0, first_block: 0, block_count: 0 });
    fs.nodes[1] = Some(Node { path: b"readme".to_vec(), file_type: FileType::File, size: 0, first_block: 0, block_count: 0 });
    assert!(fs.parent_exists(b"top"));
    assert!(fs.parent_exists(b"docs/a"));
    assert!(fs.parent_exists(b"/docs/a"));
    assert!(!fs.parent_exists(b"readme/x"));
    assert!(!fs.parent_exists(b"missing/x"));
}

#[test]
fn created_nodes_reach_the_disk() {
    let mut disk = MemDisk { data: vec![0; 64 * 512] };
    assert_eq!(lib::fs::dunitfs::format(&mut disk, false, ahci_disk(64), 4, 40), Ok(()));
    let mut fs = DunitFs::load(&mut disk, ahci_disk(64), 4, 40).unwrap();
    assert_eq!(fs.create_node(&mut disk, b"/docs/", FileType::Directory), Ok(()));
    assert_eq!(fs.create_node(&mut disk, b"docs/a", FileType::File), Ok(()));
    assert_eq!(fs.create_node(&mut disk, b"x/y", FileType::File), Err(VfsError::InvalidPath));
    assert_eq!(fs.create_node(&mut disk, b"docs", FileType::File), Err(VfsError::AlreadyExists));
    assert_eq!(fs.create_node(&mut disk, b"//", FileType::File), Err(VfsError::InvalidPath));
    let back = DunitFs::load(&mut disk, ahci_disk(64), 4, 40).unwrap();
    assert_eq!(back.nodes[0].as_ref().map(|n| n.path.clone()), Some(b"docs".to_vec()));
    assert_eq!(back.nodes[1].as_ref().map(|n| (n.path.clone(), n.file_type)), Some((b"docs/a".to_vec(), FileType::File)));
    assert!(back.nodes[2].is_none());
}

#[test]
fn memfs_write_then_read_through_handles() {
    let mut fs = lib::fs::memfs::MemFs::new();
    fs.add_file("tmp/f", b"old contents".to_vec());
    let w = fs.open(b"tmp/f", OpenFlags::from_bits(2 | 8)).unwrap();
    assert_eq!(fs.write(w, b"fresh"), Ok(5));
    let r = fs.open(b"tmp/f", OpenFlags::flag_read()).unwrap();
    let mut buf = [0u8; 16];
    assert_eq!(fs.read(r, &mut buf), Ok(5));
    assert_eq!(&buf[..5], b"fresh");
    assert_eq!(fs.read(r, &mut buf), Ok(0));
    assert_eq!(fs.stat(b"tmp/f").map(|s| s.size), Ok(5));
    assert_eq!(fs.remove(b"tmp/f"), Ok(()));
    assert_eq!(fs.stat(b"tmp/f").map(|s| s.size), Err(VfsError::NotFound));
    assert_eq!(fs.read(r, &mut buf), Err(VfsError::InvalidDescriptor));
}

#[test]
fn static_images_stay_static() {
    static IMAGE: [u8; 3] = [9, 8, 7];
    let mut fs = lib::fs::memfs::MemFs::new();
    fs.add_static_file("app/img", &IMAGE);
    assert_eq!(fs.static_file("app/img"), Some(&IMAGE[..]));
    fs.add_file("app/img", vec![1, 2]);
    assert_eq!(fs.static_file("app/img"), None);
    assert_eq!(fs.stat(b"app/img").map(|s| s.size), Ok(2));
}

#[test]
fn phys_and_virt_addresses() {
    assert_eq!(phys_to_virt(0x1000, 0xffff_8000_0000_0000), 0xffff_8000_0000_1000);
    assert_eq!(virt_to_phys(0xffff_8000_0000_1000, 0xffff_8000_0000_0000), 0x1000);
}

#[test]
fn dunitfs_file_bytes_are_read_across_blocks() {
    let mut disk = MemDisk { data: (0..64 * 512).map(|i| (i % 251) as u8).collect() };
    let mut fs = empty_dunitfs();
    fs.partition_start = 4;
    fs.partition_blocks = 40;
    fs.nodes[2] = Some(Node { path: b"log".to_vec(), file_type: FileType::File, size: 700, first_block: 20, block_count: 2 });
    let mut out = vec![0xEEu8; 100];
    assert_eq!(fs.read_node(&mut disk, 2, 500, &mut out), Ok(100));
    let base = (4 + 20) * 512 + 500;
    let expected: Vec<u8> = (base..base + 100).map(|i| (i % 251) as u8).collect();
    assert_eq!(out, expected);
    let mut tail = vec![0xEEu8; 300];
    assert_eq!(fs.read_node(&mut disk, 2, 600, &mut tail), Ok(100));
    assert_eq!(tail[100..], vec![0xEEu8; 200][..]);
    assert_eq!(fs.read_node(&mut disk, 2, 700, &mut tail), Ok(0));
    assert_eq!(fs.read_node(&mut disk, 3, 0, &mut tail), Err(VfsError::NotFound));
}

fn formatted_dunitfs(disk: &mut MemDisk) -> DunitFs {
    assert_eq!(lib::fs::dunitfs::format(disk, false, ahci_disk(64), 4, 40), Ok(()));
    DunitFs::load(disk, ahci_disk(64), 4, 40).unwrap()
}

#[test]
fn dunitfs_written_bytes_are_read_back() {
    let mut disk = MemDisk { data: vec![0; 64 * 512] };
    let mut fs = formatted_dunitfs(&mut disk);
    fs.nodes[0] = Some(file_node(b"a"));
    assert_eq!(fs.write_node(&mut disk, 0, 0, b"hello"), Ok(5));
    let n = fs.nodes[0].as_ref().unwrap();
    assert_eq!((n.size, n.first_block, n.block_count), (5, 17, 1));
    let mut out = vec![0u8; 5];
    assert_eq!(fs.read_node(&mut disk, 0, 0, &mut out), Ok(5));
    assert_eq!(out, b"hello".to_vec());
    assert_eq!(fs.write_node(&mut disk, 0, 600, b"0123456789"), Ok(10));
    let n = fs.nodes[0].as_ref().unwrap();
    assert_eq!((n.size, n.first_block, n.block_count), (610, 17, 2));
    let mut out = vec![0u8; 20];
    assert_eq!(fs.read_node(&mut disk, 0, 600, &mut out), Ok(10));
    assert_eq!(out[..10], b"0123456789"[..]);
    let mut head = vec![0u8; 5];
    assert_eq!(fs.read_node(&mut disk, 0, 0, &mut head), Ok(5));
    assert_eq!(head, b"hello".to_vec());
    let back = DunitFs::load(&mut disk, ahci_disk(64), 4, 40).unwrap();
    assert_eq!(back.nodes[0].as_ref().map(|n| n.size), Some(610));
    assert_eq!(fs.write_node(&mut disk, 0, usize::MAX, b"x"), Err(VfsError::IoError));
}

#[test]
fn dunitfs_growing_file_moves_past_its_neighbour() {
    let mut disk = MemDisk { data: vec![0; 64 * 512] };
    let mut fs = formatted_dunitfs(&mut disk);
    fs.nodes[0] = Some(file_node(b"a"));
    fs.nodes[1] = Some(Node { path: b"b".to_vec(), file_type: FileType::File, size: 0, first_block: 19, block_count: 2 });
    let data: Vec<u8> = (0..1024u32).map(|i| (i % 253) as u8).collect();
    assert_eq!(fs.write_node(&mut disk, 0, 0, &data), Ok(1024));
    let n = fs.nodes[0].as_ref().unwrap();
    assert_eq!((n.first_block, n.block_count), (17, 2));
    assert_eq!(fs.write_node(&mut disk, 0, 1024, b"tail"), Ok(4));
    let n = fs.nodes[0].as_ref().unwrap();
    assert_eq!((n.size, n.first_block, n.block_count), (1028, 21, 3));
    let mut out = vec![0u8; 1028];
    assert_eq!(fs.read_node(&mut disk, 0, 0, &mut out), Ok(1028));
    assert_eq!(out[..1024], data[..]);
    assert_eq!(out[1024..], b"tail"[..]);
}

#[test]
fn dunitfs_handles_read_write_and_close() {
    let mut disk = MemDisk { data: vec![0; 64 * 512] };
    let mut fs = formatted_dunitfs(&mut disk);
    fs.nodes[0] = Some(file_node(b"notes"));
    let rw = OpenFlags::from_bits(OpenFlags::flag_read().bits() | OpenFlags::flag_write().bits());
    let app = OpenFlags::from_bits(OpenFlags::flag_write().bits() | OpenFlags::flag_append().bits());
    fs.handles.push((3, OpenHandle { node: 0, offset: 0, flags: rw }));
    fs.handles.push((4, OpenHandle { node: 0, offset: 0, flags: app }));
    fs.handles.push((5, OpenHandle { node: 0, offset: 0, flags: OpenFlags::flag_read() }));
    assert_eq!(fs.write(&mut disk, 3, b"abc"), Ok(3));
    assert_eq!(fs.handles[0].1.offset, 3);
    assert_eq!(fs.write(&mut disk, 4, b"def"), Ok(3));
    assert_eq!(fs.handles[1].1.offset, 6);
    assert_eq!(fs.write(&mut disk, 5, b"x"), Err(VfsError::PermissionDenied));
    assert_eq!(fs.write(&mut disk, 9, b"x"), Err(VfsError::InvalidDescriptor));
    let st = fs.stat(b"/notes").unwrap();
    assert_eq!((st.file_type, st.size), (FileType::File, 6));
    assert_eq!(fs.stat(b"/missing").map(|s| s.size), Err(VfsError::NotFound));
    assert_eq!(fs.stat(b"/").map(|s| s.file_type), Ok(FileType::Directory));
    let mut buf = vec![0u8; 4];
    assert_eq!(fs.read(&mut disk, 5, &mut buf), Ok(4));
    assert_eq!(buf, b"abcd".to_vec());
    assert_eq!(fs.read(&mut disk, 5, &mut buf), Ok(2));
    assert_eq!(buf[..2], b"ef"[..]);
    assert_eq!(fs.read(&mut disk, 5, &mut buf), Ok(0));
    assert_eq!(fs.read(&mut disk, 4, &mut buf), Err(VfsError::PermissionDenied));
    assert_eq!(fs.close(5), Ok(()));
    assert_eq!(fs.read(&mut disk, 5, &mut buf), Err(VfsError::InvalidDescriptor));
    assert_eq!(fs.close(5), Err(VfsError::InvalidDescriptor));
}

#[test]
fn dunitfs_truncate_and_remove() {
    let mut disk = MemDisk { data: vec![0; 64 * 512] };
    let mut fs = formatted_dunitfs(&mut disk);
    fs.nodes[0] = Some(file_node(b"log"));
    fs.nodes[1] = Some(Node { path: b"docs".to_vec(), file_type: FileType::Directory, size: 0, first_block: 0, block_count: 0 });
    fs.handles.push((3, OpenHandle { node: 0, offset: 0, flags: OpenFlags::flag_write() }));
    fs.handles.push((4, OpenHandle { node: 0, offset: 0, flags: OpenFlags::flag_read() }));
    assert_eq!(fs.write(&mut disk, 3, b"some text"), Ok(9));
    assert_eq!(fs.truncate(&mut disk, b"/log"), Ok(()));
    let n = fs.nodes[0].as_ref().unwrap();
    assert_eq!((n.size, n.first_block, n.block_count), (0, 0, 0));
    assert_eq!(fs.truncate(&mut disk, b"/docs"), Err(VfsError::IsADirectory));
    assert_eq!(fs.truncate(&mut disk, b"/none"), Err(VfsError::NotFound));
    assert_eq!(fs.remove(&mut disk, b"/docs"), Err(VfsError::IsADirectory));
    assert_eq!(fs.remove(&mut disk, b"/log"), Ok(()));
    assert!(fs.nodes[0].is_none());
    assert!(fs.handles.is_empty());
    assert_eq!(fs.stat(b"/log").map(|s| s.size), Err(VfsError::NotFound));
    assert_eq!(fs.remove(&mut disk, b"/log"), Err(VfsError::NotFound));
    let back = DunitFs::load(&mut disk, ahci_disk(64), 4, 40).unwrap();
    assert!(back.nodes[0].is_none());
}

#[test]
fn dunitfs_open_write_open_read() {
    let mut disk = MemDisk { data: vec![0; 64 * 512] };
    let mut fs = formatted_dunitfs(&mut disk);
    let create = OpenFlags::from_bits(OpenFlags::flag_write().bits() | OpenFlags::flag_create().bits());
    let h1 = fs.open(&mut disk, b"/diary", create).unwrap();
    assert_eq!(h1, 1);
    assert_eq!(fs.write(&mut disk, h1, b"dear diary"), Ok(10));
    let h2 = fs.open(&mut disk, b"/diary", OpenFlags::flag_read()).unwrap();
    assert_eq!(h2, 2);
    let mut buf = vec![0u8; 32];
    assert_eq!(fs.read(&mut disk, h2, &mut buf), Ok(10));
    assert_eq!(buf[..10], b"dear diary"[..]);
    assert_eq!(fs.read(&mut disk, h2, &mut buf), Ok(0));
    let st = fs.stat(b"/diary").unwrap();
    assert_eq!((st.file_type, st.size), (FileType::File, 10));
    let trunc = OpenFlags::from_bits(OpenFlags::flag_write().bits() | OpenFlags::flag_trunc().bits());
    let h3 = fs.open(&mut disk, b"/diary", trunc).unwrap();
    assert_eq!(fs.stat(b"/diary").map(|s| s.size), Ok(0));
    let app = OpenFlags::from_bits(OpenFlags::flag_write().bits() | OpenFlags::flag_append().bits());
    assert_eq!(fs.write(&mut disk, h3, b"ab"), Ok(2));
    let h4 = fs.open(&mut disk, b"/diary", app).unwrap();
    assert_eq!(fs.handles.last().unwrap().1.offset, 2);
    assert_eq!(fs.write(&mut disk, h4, b"cd"), Ok(2));
    assert_eq!(fs.stat(b"/diary").map(|s| s.size), Ok(4));
    assert_eq!(fs.open(&mut disk, b"/nothing", OpenFlags::flag_read()), Err(VfsError::NotFound));
    assert_eq!(fs.open(&mut disk, b"/diary", OpenFlags::from_bits(0)), Err(VfsError::PermissionDenied));
    let back = DunitFs::load(&mut disk, ahci_disk(64), 4, 40).unwrap();
    assert_eq!(back.nodes.iter().flatten().map(|n| n.size).collect::<Vec<_>>(), vec![4]);
}
