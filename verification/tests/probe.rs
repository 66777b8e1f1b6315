use cosmonaut::probe::{
    align_down, align_up, check_table, compute_gaps, human_size, list_disk_paths, parse_disk,
    partition_number, probed_disks, BadJson, DiskInfo, Gap, LsblkDevice, ProbeError,
    SfdiskPartition, SfdiskTable, ALIGNMENT_BYTES,
};
use serde_json::Value;

fn text(v: &Value, key: &str) -> Option<String> {
    v.get(key).and_then(Value::as_str).map(str::to_owned)
}

fn flag(v: &Value, key: &str) -> bool {
    v.get(key).and_then(Value::as_bool).unwrap_or(false)
}

fn device(v: &Value) -> Option<LsblkDevice> {
    let mut mountpoints = Vec::new();
    if let Some(list) = v.get("mountpoints").and_then(Value::as_array) {
        for m in list {
            mountpoints.push(m.as_str().map(str::to_owned));
        }
    }
    Some(LsblkDevice {
        path: text(v, "path")?,
        size: v.get("size")?.as_u64()?,
        dev_type: text(v, "type")?,
        fstype: text(v, "fstype"),
        label: text(v, "label"),
        parttype: text(v, "parttype"),
        partuuid: text(v, "partuuid"),
        uuid: text(v, "uuid"),
        model: text(v, "model"),
        rm: flag(v, "rm"),
        rota: flag(v, "rota"),
        mountpoints,
    })
}

fn lsblk(json: &str) -> Result<Vec<LsblkDevice>, BadJson> {
    let v: Value = serde_json::from_str(json).map_err(|_| BadJson)?;
    let mut out = Vec::new();
    for d in v
        .get("blockdevices")
        .and_then(Value::as_array)
        .ok_or(BadJson)?
    {
        out.push(device(d).ok_or(BadJson)?);
    }
    Ok(out)
}

fn sfdisk(json: &str) -> Result<SfdiskTable, BadJson> {
    let v: Value = serde_json::from_str(json).map_err(|_| BadJson)?;
    let t = v.get("partitiontable").ok_or(BadJson)?;
    let mut partitions = Vec::new();
    if let Some(list) = t.get("partitions").and_then(Value::as_array) {
        for p in list {
            partitions.push(SfdiskPartition {
                node: text(p, "node").ok_or(BadJson)?,
                start: p.get("start").and_then(Value::as_u64).ok_or(BadJson)?,
                size: p.get("size").and_then(Value::as_u64).ok_or(BadJson)?,
            });
        }
    }
    Ok(SfdiskTable {
        label: text(t, "label").ok_or(BadJson)?,
        firstlba: t.get("firstlba").and_then(Value::as_u64),
        lastlba: t.get("lastlba").and_then(Value::as_u64),
        sectorsize: t.get("sectorsize").and_then(Value::as_u64).unwrap_or(512),
        partitions,
    })
}

fn parse(lsblk_json: &str, sfdisk_json: Option<&str>) -> Result<DiskInfo, ProbeError> {
    parse_disk(&lsblk(lsblk_json), &sfdisk_json.map(sfdisk))
}

const LSBLK_FIXTURE: &str = r#"{
    "blockdevices": [
        {"path":"/dev/vdb","size":64424509440,"type":"disk","fstype":null,"label":null,"parttype":null,"partuuid":null,"uuid":null,"model":"virtio-disk","rm":false,"rota":false,"mountpoints":[]},
        {"path":"/dev/vdb1","size":536870912,"type":"part","fstype":"vfat","label":null,"parttype":"c12a7328-f81f-11d2-ba4b-00a0c93ec93b","partuuid":"aaaa-01","uuid":"1234-ABCD","rm":false,"rota":false,"mountpoints":[null]},
        {"path":"/dev/vdb2","size":1073741824,"type":"part","fstype":"ext4","label":"boot","parttype":"0fc63daf-8483-4772-8e79-3d69d8477de4","partuuid":"aaaa-02","uuid":"0fc06bbf-e032-48c5-97a9-3472abb7299f","rm":false,"rota":false,"mountpoints":["/mnt/boot"]},
        {"path":"/dev/vdb3","size":32212254720,"type":"part","fstype":"btrfs","label":"cosmic-root","parttype":"4f68bce3-e8cd-4db1-96e7-fbcaf984b709","partuuid":"aaaa-03","uuid":"10a0c499-fa2d-4d24-a993-16ac9cd106d8","rm":false,"rota":false,"mountpoints":[]}
    ]
}"#;

const SFDISK_FIXTURE: &str = r#"{
    "partitiontable": {
        "label": "gpt",
        "id": "C9EF0CC2-C524-41EB-ABCE-52FA6A07AB51",
        "device": "/dev/vdb",
        "unit": "sectors",
        "firstlba": 2048,
        "lastlba": 125829086,
        "sectorsize": 512,
        "partitions": [
            {"node":"/dev/vdb1","start":2048,"size":1048576,"type":"C12A7328-F81F-11D2-BA4B-00A0C93EC93B","uuid":"AAAA-01","name":"ESP"},
            {"node":"/dev/vdb2","start":1050624,"size":2097152,"type":"0FC63DAF-8483-4772-8E79-3D69D8477DE4","uuid":"AAAA-02","name":"boot"},
            {"node":"/dev/vdb3","start":3147776,"size":62914560,"type":"4F68BCE3-E8CD-4DB1-96E7-FBCAF984B709","uuid":"AAAA-03","name":"root"}
        ]
    }
}"#;

#[test]
fn parses_disk_with_partitions_and_tail_gap() {
    let disk = parse(LSBLK_FIXTURE, Some(SFDISK_FIXTURE)).unwrap();
    assert_eq!(disk.path, "/dev/vdb");
    assert_eq!(disk.model, "virtio-disk");
    assert_eq!(disk.table.as_deref(), Some("gpt"));
    assert_eq!(disk.partitions.len(), 3);

    let esp = &disk.partitions[0];
    assert_eq!(esp.number, 1);
    assert_eq!(esp.start_bytes, 2048 * 512);
    assert_eq!(esp.size_bytes, 512 * 1024 * 1024);
    assert_eq!(
        esp.part_type.as_deref(),
        Some("c12a7328-f81f-11d2-ba4b-00a0c93ec93b")
    );
    assert!(!esp.mounted);
    assert!(disk.partitions[1].mounted);

    // One tail gap: from end of vdb3 to lastlba, aligned.
    assert_eq!(disk.gaps.len(), 1);
    let gap = disk.gaps[0];
    assert_eq!(gap.start_bytes, (3147776 + 62914560) * 512);
    // 125829087 sectors * 512 aligned down to MiB.
    let end = align_down(125829087 * 512, ALIGNMENT_BYTES);
    assert_eq!(gap.size_bytes, end - gap.start_bytes);
}

#[test]
fn gap_between_partitions_is_found_and_aligned() {
    // ESP at 2048, then a hole, then a partition at 4196352 (2 GiB in).
    let sfdisk_json = r#"{
        "partitiontable": {
            "label": "gpt", "id": "X", "device": "/dev/vdb",
            "unit": "sectors",
            "firstlba": 2048, "lastlba": 8390655, "sectorsize": 512,
            "partitions": [
                {"node":"/dev/vdb1","start":2048,"size":1048576,"type":"T","uuid":"U","name":"ESP"},
                {"node":"/dev/vdb2","start":4196352,"size":4194302,"type":"T","uuid":"U","name":"data"}
            ]
        }
    }"#;
    let lsblk_json = r#"{"blockdevices":[
        {"path":"/dev/vdb","size":4294967296,"type":"disk","fstype":null,"label":null,"parttype":null,"partuuid":null,"uuid":null,"model":null,"rm":false,"rota":false,"mountpoints":[]},
        {"path":"/dev/vdb1","size":536870912,"type":"part","fstype":null,"label":null,"parttype":null,"partuuid":null,"uuid":null,"rm":false,"rota":false,"mountpoints":[]},
        {"path":"/dev/vdb2","size":2147482624,"type":"part","fstype":null,"label":null,"parttype":null,"partuuid":null,"uuid":null,"rm":false,"rota":false,"mountpoints":[]}
    ]}"#;
    let disk = parse(lsblk_json, Some(sfdisk_json)).unwrap();
    assert_eq!(disk.gaps.len(), 1);
    let gap = disk.gaps[0];
    // Hole spans sectors [1050624, 4196352) = bytes [537918464, 2148532224).
    assert_eq!(gap.start_bytes, align_up(1050624 * 512, ALIGNMENT_BYTES));
    assert_eq!(
        gap.start_bytes + gap.size_bytes,
        align_down(4196352 * 512, ALIGNMENT_BYTES)
    );
}

#[test]
fn blank_disk_is_one_big_gap() {
    let lsblk_json = r#"{"blockdevices":[
        {"path":"/dev/vdc","size":10737418240,"type":"disk","fstype":null,"label":null,"parttype":null,"partuuid":null,"uuid":null,"model":"blank","rm":false,"rota":false,"mountpoints":[]}
    ]}"#;
    let disk = parse(lsblk_json, None).unwrap();
    assert!(disk.table.is_none());
    assert!(disk.partitions.is_empty());
    assert_eq!(disk.gaps.len(), 1);
    assert_eq!(disk.gaps[0].start_bytes, ALIGNMENT_BYTES);
}

#[test]
fn partition_numbers() {
    let n = |d: &str, p: &str| partition_number(d, p);
    assert_eq!(n("/dev/sda", "/dev/sda3"), Some(3));
    assert_eq!(n("/dev/nvme0n1", "/dev/nvme0n1p2"), Some(2));
    assert_eq!(n("/dev/mmcblk0", "/dev/mmcblk0p1"), Some(1));
    assert_eq!(n("/dev/vdb", "/dev/vdb12"), Some(12));
}

#[test]
fn human_sizes() {
    assert_eq!(human_size(512), "512 B");
    assert_eq!(human_size(536870912), "512 MiB");
    assert_eq!(human_size(64424509440), "60 GiB");
    assert_eq!(human_size(1000204886016), "931.5 GiB");
}

#[test]
fn partition_numbers_of_foreign_nodes_are_their_last_digits() {
    assert_eq!(partition_number("/dev/sda", "/dev/sdb7"), Some(7));
    assert_eq!(partition_number("/dev/sda", "/dev/nvme0n1p2"), Some(2));
    assert_eq!(partition_number("/dev/sda", "/dev/sdb"), None);
    assert_eq!(partition_number("/dev/sda", "/dev/sda"), None);
    assert_eq!(partition_number("/dev/sda", "/dev/sda4294967295"), Some(u32::MAX));
    assert_eq!(partition_number("/dev/sda", "/dev/sda4294967296"), None);
    assert_eq!(partition_number("/dev/sda", "/dev/sdap+5"), Some(5));
}

fn float_size(bytes: u64) -> String {
    const UNITS: [&str; 5] = ["B", "KiB", "MiB", "GiB", "TiB"];
    let mut value = bytes as f64;
    let mut unit = 0;
    while value >= 1024.0 && unit < UNITS.len() - 1 {
        value /= 1024.0;
        unit += 1;
    }
    if unit == 0 {
        format!("{bytes} B")
    } else if (value - value.round()).abs() < 0.05 {
        format!("{} {}", value.round(), UNITS[unit])
    } else {
        format!("{value:.1} {}", UNITS[unit])
    }
}

#[test]
fn human_sizes_match_floating_point() {
    let mut cases: Vec<u64> = vec![0, 1, 1023, 1024, 1025, 1075, 1076, 1536, u64::MAX, u64::MAX - 1023];
    let mut seed: u64 = 0x9e37_79b9_7f4a_7c15;
    for i in 0..4000u64 {
        seed = seed.wrapping_mul(6364136223846793005).wrapping_add(1442695040888963407);
        cases.push(seed >> (i % 64));
    }
    for p in 0..64 {
        let b = 1u64 << p;
        cases.push(b);
        cases.push(b - 1);
        cases.push(b | 1);
    }
    for bytes in cases {
        assert_eq!(human_size(bytes), float_size(bytes), "{bytes}");
    }
}

#[test]
fn alignment_rounds_to_multiples() {
    assert_eq!(align_up(0, 1024), 0);
    assert_eq!(align_up(1, 1024), 1024);
    assert_eq!(align_up(1024, 1024), 1024);
    assert_eq!(align_down(1023, 1024), 0);
    assert_eq!(align_down(2047, 1024), 1024);
}

#[test]
fn gaps_lie_between_partitions_in_any_order() {
    let part = |start: u64, size: u64| SfdiskPartition {
        node: String::from("n"),
        start,
        size,
    };
    // Listed back to front, overlapping, and with a sliver below 1 MiB.
    let parts = vec![part(10240, 2048), part(2048, 4096), part(4096, 2048), part(12290, 100)];
    let gaps = compute_gaps(2048, 20479, 512, &parts);
    assert_eq!(
        gaps,
        vec![
            Gap { start_bytes: 6144 * 512, size_bytes: 4096 * 512 },
            Gap { start_bytes: 14336 * 512, size_bytes: 6144 * 512 },
        ]
    );
    // Nothing is left of a full disk.
    assert!(compute_gaps(2048, 4095, 512, &vec![part(2048, 2048)]).is_empty());
}

#[test]
fn readings_that_cannot_be_merged_are_named() {
    let disk_only = r#"{"blockdevices":[{"path":"/dev/vdc","size":1,"type":"disk"}]}"#;
    let part_first = r#"{"blockdevices":[{"path":"/dev/vdc1","size":1,"type":"part"}]}"#;
    assert_eq!(parse("nonsense", None), Err(ProbeError::LsblkJson));
    assert_eq!(parse(part_first, None), Err(ProbeError::NoDisk));
    assert_eq!(parse(r#"{"blockdevices":[]}"#, None), Err(ProbeError::NoDisk));
    assert_eq!(parse(disk_only, Some("{")), Err(ProbeError::SfdiskJson));
    // The disk is looked for before the table is read.
    assert_eq!(parse(part_first, Some("{")), Err(ProbeError::NoDisk));
    assert_eq!(ProbeError::LsblkJson.message(), "parsing lsblk JSON");
    assert_eq!(
        ProbeError::NoDisk.message(),
        "lsblk output does not start with a disk device"
    );
    assert_eq!(ProbeError::SfdiskJson.message(), "parsing sfdisk JSON");
}

#[test]
fn partitions_without_sector_data_keep_their_size() {
    let lsblk_json = r#"{"blockdevices":[
        {"path":"/dev/sda","size":10737418240,"type":"disk","model":"  spaced  ","rm":true,"rota":true},
        {"path":"/dev/sda2","size":1000,"type":"part","parttype":"0XEF"},
        {"path":"/dev/sda1","size":2000,"type":"part","parttype":"ÄB"},
        {"path":"/dev/sr0","size":3000,"type":"rom"}
    ]}"#;
    let disk = parse(lsblk_json, None).unwrap();
    assert_eq!(disk.model, "spaced");
    assert!(disk.removable && disk.rotational);
    assert_eq!(disk.sector_size, 512);
    assert!(disk.gaps.is_empty());
    assert_eq!(disk.partitions.len(), 2);
    // Starts are unknown, so the order of the reading stays.
    assert_eq!(disk.partitions[0].path, "/dev/sda2");
    assert_eq!(disk.partitions[0].start_bytes, 0);
    assert_eq!(disk.partitions[0].size_bytes, 1000);
    // Types come in lower case, beyond ASCII too.
    assert_eq!(disk.partitions[0].part_type.as_deref(), Some("0xef"));
    assert_eq!(disk.partitions[1].part_type.as_deref(), Some("äb"));
}

#[test]
fn partitions_that_the_table_lacks_are_dropped() {
    let lsblk_json = r#"{"blockdevices":[
        {"path":"/dev/loop0","size":1073741824,"type":"loop"},
        {"path":"/dev/loop0p2","size":1,"type":"part"},
        {"path":"/dev/loop0p1","size":1,"type":"part"},
        {"path":"/dev/loop0p9","size":1,"type":"part"}
    ]}"#;
    let sfdisk_json = r#"{"partitiontable":{"label":"dos","partitions":[
        {"node":"/dev/loop0p1","start":2048,"size":2048},
        {"node":"/dev//loop0p2","start":8192,"size":2048}
    ]}}"#;
    let table = sfdisk(sfdisk_json).unwrap();
    assert!(check_table(&table, &lsblk(lsblk_json).unwrap()));
    let disk = parse(lsblk_json, Some(sfdisk_json)).unwrap();
    assert_eq!(disk.table.as_deref(), Some("dos"));
    let nodes: Vec<&str> = disk.partitions.iter().map(|p| p.path.as_str()).collect();
    assert_eq!(nodes, vec!["/dev/loop0p1", "/dev/loop0p2"]);
    // Without a usable range the disk from 1 MiB on counts.
    assert_eq!(disk.gaps[0].start_bytes, 2 * ALIGNMENT_BYTES);
    let last = disk.gaps[disk.gaps.len() - 1];
    assert_eq!(last.start_bytes + last.size_bytes, 1073741824);
    assert_eq!(disk.largest_gap(), Some(last));
}

#[test]
fn tables_beyond_the_address_range_are_told_apart() {
    let table = |sectorsize: u64, lastlba: Option<u64>| SfdiskTable {
        label: String::from("gpt"),
        firstlba: Some(34),
        lastlba,
        sectorsize,
        partitions: Vec::new(),
    };
    let devs = lsblk(
        r#"{"blockdevices":[
            {"path":"/dev/sda","size":1000000,"type":"disk"},
            {"path":"/dev/sda1","size":1,"type":"part"}
        ]}"#,
    )
    .unwrap();
    assert!(check_table(&table(512, Some(1000)), &devs));
    assert!(!check_table(&table(0, Some(1000)), &devs));
    assert!(!check_table(&table(4096, Some(u64::MAX)), &devs));
    assert!(!check_table(&table(4096, Some(u64::MAX / 4096)), &devs));

    // Positions count only where there is space, and where a partition is
    // listed: this one reaches up to the last byte, with none behind it.
    let end: u64 = 1 << 55;
    let full = |node: &str, start: u64| SfdiskTable {
        label: String::from("gpt"),
        firstlba: Some(2048),
        lastlba: Some(end - 1),
        sectorsize: 512,
        partitions: vec![SfdiskPartition { node: String::from(node), start, size: end - start }],
    };
    assert!(check_table(&full("/dev/sda1", 2048), &devs));
    assert_eq!(compute_gaps(2048, end - 1, 512, &full("/dev/sda1", 2048).partitions), vec![]);
    assert_eq!(
        compute_gaps(2048, end - 1, 512, &full("/dev/sda1", 8192).partitions),
        vec![Gap { start_bytes: 2048 * 512, size_bytes: 6144 * 512 }]
    );
    // From the first sector on, its size does not fit.
    assert!(!check_table(&full("/dev/sda1", 0), &devs));
    assert!(check_table(&full("/dev/sda9", 0), &devs));
}

#[test]
fn of_equal_gaps_the_last_is_the_largest() {
    let mut disk = parse(LSBLK_FIXTURE, Some(SFDISK_FIXTURE)).unwrap();
    assert!(disk.is_wf());
    disk.gaps = vec![
        Gap { start_bytes: 1, size_bytes: 5 },
        Gap { start_bytes: 10, size_bytes: 7 },
        Gap { start_bytes: 20, size_bytes: 7 },
        Gap { start_bytes: 30, size_bytes: 2 },
    ];
    assert_eq!(disk.largest_gap(), Some(Gap { start_bytes: 20, size_bytes: 7 }));
    let copy = disk.clone();
    assert_eq!(copy, disk);
    disk.gaps = vec![Gap { start_bytes: u64::MAX, size_bytes: 1 }];
    assert!(!disk.is_wf());
    disk.gaps = Vec::new();
    assert_eq!(disk.largest_gap(), None);
}

#[test]
fn only_whole_disks_are_listed() {
    let row = |p: &str, t: &str| (String::from(p), String::from(t));
    let rows = vec![
        row("/dev/sda", "disk"),
        row("/dev/sda1", "part"),
        row("/dev/loop0", "loop"),
        row("/dev/nvme0n1", "disk"),
    ];
    assert_eq!(list_disk_paths(&rows), vec!["/dev/sda", "/dev/nvme0n1"]);
    let good = parse(LSBLK_FIXTURE, Some(SFDISK_FIXTURE)).unwrap();
    let listed = probed_disks(vec![Err(String::from("unplugged")), Ok(good)]);
    assert_eq!(listed.len(), 1);
    assert_eq!(listed[0].path, "/dev/vdb");
}
