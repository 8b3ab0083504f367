use gate::disk::{find_mounted, used_space_at, DiskInfo};

fn disk(name: &str, mount: &str, total: u64, available: u64) -> DiskInfo {
    DiskInfo {
        name: name.to_string(),
        mount_point: mount.to_string(),
        total_space: total,
        available_space: available,
    }
}

#[test]
fn used_space_is_capacity_less_available() {
    assert_eq!(disk("a", "/", 1000, 250).used_space(), 750);
    assert_eq!(disk("a", "/", 1000, 1000).used_space(), 0);
    assert_eq!(disk("a", "/", u64::MAX, 0).used_space(), u64::MAX);
}

#[test]
fn first_volume_at_the_mount_point_is_found() {
    let disks = vec![disk("a", "/", 10, 1), disk("b", "/home", 20, 2), disk("c", "/home", 30, 3)];
    assert_eq!(find_mounted(&disks, &"/home".to_string()), Some(1));
    assert_eq!(find_mounted(&disks, &"/".to_string()), Some(0));
    assert_eq!(find_mounted(&disks, &"/mnt".to_string()), None);
    assert_eq!(find_mounted(&vec![], &"/".to_string()), None);
}

#[test]
fn used_space_at_a_mount_point() {
    let disks = vec![disk("a", "/", 10, 1), disk("b", "/home", 20, 2), disk("c", "/home", 30, 3)];
    assert_eq!(used_space_at(&disks, &"/home".to_string()), 18);
    assert_eq!(used_space_at(&disks, &"/".to_string()), 9);
}

#[test]
fn used_space_reads_the_mounted_volume_alone() {
    let disks = vec![disk("odd", "/", 10, 20), disk("b", "/home", 20, 2)];
    assert_eq!(used_space_at(&disks, &"/home".to_string()), 18);
    assert_eq!(used_space_at(&disks, &"/mnt".to_string()), 1);
}

#[test]
fn used_space_of_no_volume_is_one() {
    let disks = vec![disk("a", "/", 10, 1)];
    assert_eq!(used_space_at(&disks, &"/mnt".to_string()), 1);
    assert_eq!(used_space_at(&vec![], &"/".to_string()), 1);
}

#[test]
fn disk_info_can_be_copied() {
    let d = disk("a", "/", 10, 1);
    let e = d.clone();
    assert_eq!(e.name, "a");
    assert_eq!(e.mount_point, "/");
    assert_eq!((e.total_space, e.available_space), (10, 1));
}
