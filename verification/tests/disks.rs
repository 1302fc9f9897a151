use wmde_settings::hardware::disks::{
    classify, device_numbers, parse_mountinfo, partition, partitions, sectors_to_bytes, usage_of,
    PartitionSource,
};
use wmde_settings::hardware::util::Attr;
use wmde_settings::hardware::DiskKind;

const MOUNTINFO_FIXTURE: &str = r"25 30 0:22 / /proc rw,nosuid,nodev,noexec shared:5 - proc proc rw
31 25 259:9 / / rw,relatime shared:1 - ext4 /dev/nvme0n1p2 rw
56 31 8:1 / /mnt/My\040Disk rw,relatime shared:102 master:7 - ext4 /dev/sda1 rw
70 31 259:3 /@ /data rw,relatime shared:3 - btrfs /dev/nvme1n1p1 rw,subvol=/@
71 31 259:3 /@home /data/home rw,relatime shared:4 - btrfs /dev/nvme1n1p1 rw,subvol=/@home
72 31 0:55 / /net rw,relatime - nfs4 server:/export rw
this line is not a mount entry
";

#[test]
fn mountinfo_optional_fields_do_not_shift_the_tail() {
    let mounts = parse_mountinfo(MOUNTINFO_FIXTURE);
    assert_eq!(mounts.len(), 6, "the malformed line must be dropped");
    assert_eq!(mounts[0].fstype, "proc");
    assert_eq!(mounts[0].source, "proc");
    assert_eq!(mounts[2].fstype, "ext4");
    assert_eq!(mounts[2].source, "/dev/sda1");
    assert_eq!(mounts[5].fstype, "nfs4");
    assert_eq!(mounts[5].source, "server:/export");
}

#[test]
fn mountinfo_root_row_keeps_its_device_number() {
    let mounts = parse_mountinfo(MOUNTINFO_FIXTURE);
    assert_eq!(mounts[1].dev, "259:9");
    assert_eq!(mounts[1].mountpoint, "/");
    assert_eq!(mounts[1].source, "/dev/nvme0n1p2");
}

#[test]
fn mountinfo_mount_point_with_a_space_survives() {
    let mounts = parse_mountinfo(MOUNTINFO_FIXTURE);
    assert_eq!(mounts[2].mountpoint, "/mnt/My Disk");
    assert_eq!(mounts[2].dev, "8:1");
}

#[test]
fn mountinfo_one_device_can_carry_several_mount_points() {
    let mounts = parse_mountinfo(MOUNTINFO_FIXTURE);
    let btrfs: Vec<&str> = mounts
        .iter()
        .filter(|m| m.dev == "259:3")
        .map(|m| m.mountpoint.as_str())
        .collect();
    assert_eq!(btrfs, vec!["/data", "/data/home"]);
}

#[test]
fn only_block_sources_are_eligible_for_statvfs() {
    let mounts = parse_mountinfo(MOUNTINFO_FIXTURE);
    assert!(mounts[1].source.starts_with("/dev/"));
    assert!(!mounts[5].source.starts_with("/dev/"));
    assert!(!mounts[0].source.starts_with("/dev/"));
}

#[test]
fn sizes_are_always_512_byte_sectors() {
    assert_eq!(sectors_to_bytes(3_907_029_168), 2_000_398_934_016);
    assert_eq!(sectors_to_bytes(487_346_176), 249_521_242_112);
    assert_eq!(sectors_to_bytes(0), 0);
}

#[test]
fn sizes_saturate_instead_of_wrapping() {
    assert_eq!(sectors_to_bytes(u64::MAX), u64::MAX);
    assert_eq!(sectors_to_bytes(u64::MAX / 512), (u64::MAX / 512) * 512);
    assert_eq!(sectors_to_bytes(u64::MAX / 512 + 1), u64::MAX);
}

#[test]
fn disk_kind_classification() {
    assert_eq!(classify("nvme0n1", false, Some(false)), DiskKind::Nvme);
    assert_eq!(classify("nvme0n1", true, None), DiskKind::Nvme);
    assert_eq!(classify("sdb", true, Some(true)), DiskKind::Removable);
    assert_eq!(classify("sda", false, Some(true)), DiskKind::Hdd);
    assert_eq!(classify("sda", false, Some(false)), DiskKind::Ssd);
    assert_eq!(classify("sda", false, None), DiskKind::Unknown);
}

fn text(s: &str) -> Attr {
    Attr::Text(s.to_owned())
}

fn source(index: Option<&str>, name: &str, devs: Vec<Attr>) -> PartitionSource {
    PartitionSource {
        index: match index {
            Some(i) => text(i),
            None => Attr::Missing,
        },
        name: name.to_owned(),
        size: text("2048\n"),
        devs,
    }
}

#[test]
fn partitions_sort_by_number_and_collect_their_mounts() {
    let mounts = parse_mountinfo(MOUNTINFO_FIXTURE);
    let parts = vec![
        source(Some("10"), "nvme1n1p10", vec![text("259:77")]),
        source(None, "queue", vec![]),
        // The btrfs partition: two mount points of one device, the holder listed twice.
        source(Some("1"), "nvme1n1p1", vec![text("259:3"), text(" 259:3 "), Attr::Denied]),
        source(Some("2"), "nvme1n1p2", vec![text("0:55")]),
    ];
    let out = partitions(&parts, &mounts);
    let names: Vec<&str> = out.iter().map(|p| p.name.as_str()).collect();
    // Sorted by partition number, not by name: a name sort puts p10 before p2.
    assert_eq!(names, vec!["nvme1n1p1", "nvme1n1p2", "nvme1n1p10"]);
    assert_eq!(out[0].fstype.as_deref(), Some("btrfs"));
    assert_eq!(out[0].mountpoints, vec!["/data".to_owned(), "/data/home".to_owned()]);
    assert_eq!(out[0].size_bytes, 2048 * 512);
    // The NFS mount of 0:55 is not a block device, so it is not the partition's.
    assert_eq!(out[1].fstype, None);
    assert!(out[1].mountpoints.is_empty());
    assert!(out[2].usage.is_none());
}

#[test]
fn device_numbers_are_kept_once_in_walk_order() {
    let devs = vec![text("8:1"), Attr::Missing, text("253:0"), text("8:1 "), text("   ")];
    assert_eq!(device_numbers(&devs), vec!["8:1".to_owned(), "253:0".to_owned()]);
}

#[test]
fn a_partition_with_an_unreadable_size_is_zero_bytes() {
    let mounts = parse_mountinfo("");
    let mut src = source(Some("1"), "sda1", vec![]);
    src.size = Attr::Denied;
    assert_eq!(partition(&src, &mounts).size_bytes, 0);
}

#[test]
fn usage_uses_the_fragment_size_and_saturates() {
    let u = usage_of(4096, 1024, 100, 40, 30);
    assert_eq!((u.total, u.used, u.available), (409_600, 245_760, 122_880));
    // No fragment size: the block size stands in.
    let u = usage_of(0, 512, 10, 2, 1);
    assert_eq!((u.total, u.used, u.available), (5120, 4096, 512));
    // More free than total (FUSE does this): used is zero, not a wrap.
    let u = usage_of(1, 1, 5, 9, 9);
    assert_eq!(u.used, 0);
    assert_eq!(usage_of(u64::MAX, 0, 2, 0, 0).total, u64::MAX);
}
