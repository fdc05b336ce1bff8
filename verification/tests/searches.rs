use fshost::config::Config;
use fshost::constants::{
    BLOBFS_PARTITION_LABEL, BLOBFS_TYPE_GUID, BOOTPART_DRIVER_PATH, DATA_PARTITION_LABEL,
    DATA_TYPE_GUID, FLAG_BOOTPART, FVM_DRIVER_PATH, GPT_DRIVER_PATH, NAND_BROKER_DRIVER_PATH,
};
use fshost::device::{Answer, BlockInfo, DeviceInfo, DiskFormat, Request};
use fshost::matchers::{Matchers, Notice, Step};

fn nothing() -> Config {
    Config {
        blobfs: false,
        bootpart: false,
        data: false,
        data_filesystem_format: "minfs".to_string(),
        fvm: false,
        fvm_ramdisk: false,
        gpt: false,
        gpt_all: false,
        nand: false,
        netboot: false,
        ramdisk_prefix: "ram/".to_string(),
    }
}

fn everything() -> Config {
    Config {
        blobfs: true,
        bootpart: true,
        data: true,
        fvm: true,
        gpt: true,
        nand: true,
        ..nothing()
    }
}

struct Script {
    path: &'static str,
    nand: bool,
    flags: u32,
    format: DiskFormat,
    label: &'static str,
    type_guid: [u8; 16],
    // The request that fails, by its name.
    fails: &'static str,
}

fn device(path: &'static str) -> Script {
    Script {
        path,
        nand: false,
        flags: 0,
        format: DiskFormat::Unknown,
        label: "",
        type_guid: [0; 16],
        fails: "",
    }
}

fn fvm(path: &'static str) -> Script {
    Script { format: DiskFormat::Fvm, ..device(path) }
}

fn gpt(path: &'static str) -> Script {
    Script { format: DiskFormat::Gpt, ..device(path) }
}

fn blobfs(path: &'static str) -> Script {
    Script { label: BLOBFS_PARTITION_LABEL, type_guid: BLOBFS_TYPE_GUID, ..device(path) }
}

fn data(path: &'static str) -> Script {
    Script { label: DATA_PARTITION_LABEL, type_guid: DATA_TYPE_GUID, ..device(path) }
}

fn name(request: Request) -> String {
    match request {
        Request::BlockInfo => "info".to_string(),
        Request::ContentFormat => "format".to_string(),
        Request::PartitionLabel => "label".to_string(),
        Request::PartitionType => "type".to_string(),
        Request::AttachDriver(path) => format!("attach {}", path),
        Request::MountBlobfs => "mount blobfs".to_string(),
        Request::MountData => "mount data".to_string(),
        Request::BindZxcrypt => "bind zxcrypt".to_string(),
    }
}

// The result of the search and the requests that it made.
fn run(matchers: &mut Matchers, device: &Script) -> (Result<bool, String>, Vec<String>) {
    let mut log = Vec::new();
    let mut step = matchers.match_device(Notice::Appeared(DeviceInfo {
        topological_path: device.path.to_string(),
        is_nand: device.nand,
    }));
    loop {
        match step {
            Step::Done(result) => return (result, log),
            Step::Ask(search) => {
                let request = search.request();
                let name = name(request);
                let answer = if name == device.fails {
                    Err(format!("{} failed", name))
                } else {
                    Ok(match request {
                        Request::BlockInfo => Answer::BlockInfo(BlockInfo { flags: device.flags }),
                        Request::ContentFormat => Answer::ContentFormat(device.format),
                        Request::PartitionLabel => Answer::PartitionLabel(device.label.to_string()),
                        Request::PartitionType => Answer::PartitionType(device.type_guid),
                        _ => Answer::Done,
                    })
                };
                log.push(name);
                step = matchers.match_device(Notice::Answered(search, answer));
            }
        }
    }
}

fn check(matchers: &mut Matchers, device: &Script, taken: bool, requests: &[&str]) {
    let (result, log) = run(matchers, device);
    assert_eq!(result, Ok(taken));
    assert_eq!(log, requests);
}

fn attach(path: &str) -> String {
    format!("attach {}", path)
}

#[test]
fn no_matchers_ask_nothing() {
    let mut matchers = Matchers::new(&nothing());
    check(&mut matchers, &gpt("disk"), false, &[]);
    check(&mut matchers, &Script { nand: true, ..device("disk") }, false, &[]);
}

#[test]
fn matchers_are_tried_in_order() {
    let config = Config { fvm_ramdisk: true, gpt_all: true, ..everything() };
    // Every matcher looks at the device, and the checks of each go no further than they have to.
    check(
        &mut Matchers::new(&config),
        &device("ram/disk"),
        false,
        &["info", "format", "format", "format", "format"],
    );
    // Only the matchers that admit the device are asked: this one is not on the ramdisk.
    check(
        &mut Matchers::new(&config),
        &device("disk"),
        false,
        &["info", "format", "format", "format"],
    );
    check(
        &mut Matchers::new(&config),
        &Script { nand: true, format: DiskFormat::Gpt, ..device("disk") },
        true,
        &["info", &attach(NAND_BROKER_DRIVER_PATH)],
    );
    check(
        &mut Matchers::new(&config),
        &Script { nand: true, flags: FLAG_BOOTPART | 1, ..device("disk") },
        true,
        &["info", &attach(BOOTPART_DRIVER_PATH)],
    );
    check(
        &mut Matchers::new(&config),
        &fvm("ram/disk"),
        true,
        &["info", "format", "format", &attach(FVM_DRIVER_PATH)],
    );
}

#[test]
fn other_flags_are_no_boot_partition() {
    let mut matchers = Matchers::new(&Config { bootpart: true, ..nothing() });
    check(&mut matchers, &Script { flags: !FLAG_BOOTPART, ..device("disk") }, false, &["info"]);
}

#[test]
fn boot_partitions_and_nand_match_again() {
    let mut matchers = Matchers::new(&everything());
    for _ in 0..2 {
        check(
            &mut matchers,
            &Script { flags: FLAG_BOOTPART, ..device("disk") },
            true,
            &["info", &attach(BOOTPART_DRIVER_PATH)],
        );
        check(
            &mut matchers,
            &Script { nand: true, ..device("nand") },
            true,
            &["info", &attach(NAND_BROKER_DRIVER_PATH)],
        );
    }
}

#[test]
fn single_map_takes_one_device() {
    let mut matchers = Matchers::new(&Config { gpt: true, ..nothing() });
    check(&mut matchers, &gpt("a"), true, &["format", &attach(GPT_DRIVER_PATH)]);
    // It does not even look at another one.
    check(&mut matchers, &gpt("b"), false, &[]);
    check(&mut matchers, &gpt("a"), false, &[]);
}

#[test]
fn multiple_map_takes_many_devices() {
    let mut matchers = Matchers::new(&Config { gpt_all: true, ..nothing() });
    for path in ["a", "b", "a"] {
        check(&mut matchers, &gpt(path), true, &["format", &attach(GPT_DRIVER_PATH)]);
    }
    // The single one is tried first.
    let mut matchers = Matchers::new(&Config { gpt: true, gpt_all: true, ..nothing() });
    check(&mut matchers, &gpt("a"), true, &["format", &attach(GPT_DRIVER_PATH)]);
    check(&mut matchers, &device("b"), false, &["format"]);
}

#[test]
fn filesystems_bring_fvm() {
    for config in [
        Config { blobfs: true, ..nothing() },
        Config { data: true, ..nothing() },
        Config { fvm: true, netboot: true, ..nothing() },
    ] {
        let mut matchers = Matchers::new(&config);
        check(&mut matchers, &fvm("disk"), true, &["format", &attach(FVM_DRIVER_PATH)]);
    }
    // When netbooting, the filesystems alone do not.
    let mut matchers =
        Matchers::new(&Config { blobfs: true, data: true, netboot: true, ..nothing() });
    check(&mut matchers, &fvm("disk"), false, &[]);
}

#[test]
fn children_come_first() {
    let mut matchers = Matchers::new(&everything());
    check(
        &mut matchers,
        &fvm("disk"),
        true,
        &["info", "format", "format", &attach(FVM_DRIVER_PATH)],
    );
    // Blobfs is tried before data, and both before the global matchers.
    check(
        &mut matchers,
        &Script { flags: FLAG_BOOTPART, ..blobfs("disk/fvm/blobfs-p-1/block") },
        true,
        &["label", "type", "mount blobfs"],
    );
    check(
        &mut matchers,
        &Script { flags: FLAG_BOOTPART, ..data("disk/fvm/data-p-2/block") },
        true,
        &["label", "label", "type", "mount data"],
    );
    // What the children decline goes to the global matchers.
    check(
        &mut matchers,
        &Script { type_guid: [1; 16], ..gpt("disk/fvm/other-p-3/block") },
        true,
        &["label", "label", "info", "format", &attach(GPT_DRIVER_PATH)],
    );
    // A filesystem can be mounted again.
    check(
        &mut matchers,
        &blobfs("disk/fvm/blobfs-p-1/block"),
        true,
        &["label", "type", "mount blobfs"],
    );
}

#[test]
fn only_immediate_children_are_adopted() {
    for (path, adopted) in [
        ("disk/fvm/blobfs-p-1/block", true),
        ("disk/fvm//block", true),
        ("disk/fvm/block/block", true),
        ("disk/fvm/blobfs-p-1/x/block", false),
        ("disk/fvm/blobfs-p-1/block/", false),
        ("disk/fvm/blobfs-p-1/blocks", false),
        ("disk/fvm/blobfs-p-1", false),
        ("disk/fvm/block", false),
        ("disk/gvm/blobfs-p-1/block", false),
        ("disk/blobfs-p-1/block", false),
        ("disk/x/fvm/blobfs-p-1/block", false),
        ("disk2/fvm/blobfs-p-1/block", false),
        ("x/disk/fvm/blobfs-p-1/block", false),
        ("disk", false),
        ("block", false),
        ("", false),
    ] {
        let mut matchers = Matchers::new(&Config { blobfs: true, ..nothing() });
        check(&mut matchers, &fvm("disk"), true, &["format", &attach(FVM_DRIVER_PATH)]);
        let expected: &[&str] =
            if adopted { &["label", "type", "mount blobfs"] } else { &[] };
        check(&mut matchers, &blobfs(path), adopted, expected);
    }
}

#[test]
fn paths_are_compared_by_character() {
    let mut matchers = Matchers::new(&Config { blobfs: true, ..nothing() });
    check(&mut matchers, &fvm("d\u{ef}sk"), true, &["format", &attach(FVM_DRIVER_PATH)]);
    check(&mut matchers, &blobfs("d\u{ee}sk/fvm/a/block"), false, &[]);
    check(
        &mut matchers,
        &blobfs("d\u{ef}sk/fvm/\u{1f600}/block"),
        true,
        &["label", "type", "mount blobfs"],
    );
}

#[test]
fn partitions_wait_for_their_parent() {
    let mut matchers = Matchers::new(&Config { blobfs: true, gpt_all: true, ..nothing() });
    check(&mut matchers, &blobfs("disk/fvm/a/block"), false, &["format", "format"]);
    // Being below a matched device of another kind does not help.
    check(&mut matchers, &gpt("disk"), true, &["format", "format", &attach(GPT_DRIVER_PATH)]);
    check(&mut matchers, &blobfs("disk/fvm/a/block"), false, &["format", "format"]);
    check(
        &mut matchers,
        &fvm("disk/part-000/block"),
        true,
        &["format", &attach(FVM_DRIVER_PATH)],
    );
    check(
        &mut matchers,
        &blobfs("disk/part-000/block/fvm/a/block"),
        true,
        &["label", "type", "mount blobfs"],
    );
}

#[test]
fn nearest_parent_decides_before_those_above() {
    // The partition is also below the GPT device, whose matcher has no children to offer it to.
    let mut matchers = Matchers::new(&Config { gpt: true, data: true, ..nothing() });
    check(&mut matchers, &gpt("disk"), true, &["format", &attach(GPT_DRIVER_PATH)]);
    check(&mut matchers, &fvm("disk/p/block"), true, &["format", &attach(FVM_DRIVER_PATH)]);
    check(
        &mut matchers,
        &data("disk/p/block/fvm/data/block"),
        true,
        &["label", "type", "mount data"],
    );
    // A device below a mounted partition has parents, none of which adopts it.
    check(&mut matchers, &data("disk/p/block/fvm/data/block/zxcrypt/unsealed/block"), false, &[]);
}

#[test]
fn failures_are_handed_back_and_change_nothing() {
    let attach_fvm = attach(FVM_DRIVER_PATH);
    let whole: [&str; 4] = ["info", "format", "format", &attach_fvm];
    let mut matchers = Matchers::new(&everything());
    for fails in ["info", "format"] {
        let (result, log) = run(&mut matchers, &Script { fails, ..fvm("disk") });
        assert_eq!(result, Err(format!("{} failed", fails)));
        assert_eq!(log.last().map(|s| s.as_str()), Some(fails));
    }
    // An FVM whose driver could not be attached is not matched.
    let (result, log) =
        run(&mut matchers, &Script { fails: "attach /boot/driver/fvm.so", ..fvm("disk") });
    assert_eq!(result, Err("attach /boot/driver/fvm.so failed".to_string()));
    assert_eq!(log, whole);
    check(
        &mut matchers,
        &blobfs("disk/fvm/a/block"),
        false,
        &["info", "format", "format"],
    );
    check(&mut matchers, &fvm("disk"), true, &whole);
    // A failing child ends the search.
    for (fails, log_expected) in [
        ("label", vec!["label"]),
        ("type", vec!["label", "type"]),
        ("mount blobfs", vec!["label", "type", "mount blobfs"]),
    ] {
        let (result, log) =
            run(&mut matchers, &Script { fails, ..blobfs("disk/fvm/a/block") });
        assert_eq!(result, Err(format!("{} failed", fails)));
        assert_eq!(log, log_expected);
    }
    let (result, _) =
        run(&mut matchers, &Script { fails: "mount data", ..data("disk/fvm/b/block") });
    assert_eq!(result, Err("mount data failed".to_string()));
}

#[test]
fn zxcrypt_is_bound_beside_the_ramdisk_only() {
    let config = Config { fvm: true, data: true, fvm_ramdisk: true, ..nothing() };
    let mut matchers = Matchers::new(&config);
    check(&mut matchers, &fvm("ram/0"), true, &["format", &attach(FVM_DRIVER_PATH)]);
    check(&mut matchers, &fvm("disk"), true, &["format", &attach(FVM_DRIVER_PATH)]);
    check(&mut matchers, &fvm("ram/1"), false, &[]);
    check(&mut matchers, &data("ram/0/fvm/data/block"), true, &["label", "type", "mount data"]);
    check(&mut matchers, &data("disk/fvm/data/block"), true, &["label", "type", "bind zxcrypt"]);
    let (result, _) =
        run(&mut matchers, &Script { fails: "bind zxcrypt", ..data("disk/fvm/data/block") });
    assert_eq!(result, Err("bind zxcrypt failed".to_string()));

    // Netbooting does not keep zxcrypt from being bound, unlike fxfs.
    let mut matchers = Matchers::new(&Config { netboot: true, ..config.clone() });
    check(&mut matchers, &fvm("disk"), true, &["format", &attach(FVM_DRIVER_PATH)]);
    check(&mut matchers, &data("disk/fvm/data/block"), true, &["label", "type", "bind zxcrypt"]);
    let mut matchers =
        Matchers::new(&Config { data_filesystem_format: "fxfs".to_string(), ..config });
    check(&mut matchers, &fvm("disk"), true, &["format", &attach(FVM_DRIVER_PATH)]);
    check(&mut matchers, &data("disk/fvm/data/block"), false, &[]);
}

#[test]
fn a_search_can_be_abandoned() {
    let mut matchers = Matchers::new(&Config { gpt: true, ..nothing() });
    let step: Step<String> = matchers.match_device(Notice::Appeared(DeviceInfo {
        topological_path: "disk".to_string(),
        is_nand: false,
    }));
    assert!(matches!(step, Step::Ask(_)));
    check(&mut matchers, &gpt("disk"), true, &["format", &attach(GPT_DRIVER_PATH)]);
}

#[test]
fn requests_accept_answers_of_their_kind() {
    let answers = [
        Answer::BlockInfo(BlockInfo { flags: 0 }),
        Answer::ContentFormat(DiskFormat::Mbr),
        Answer::PartitionLabel(String::new()),
        Answer::PartitionType([0; 16]),
        Answer::Done,
    ];
    for (request, kind) in [
        (Request::BlockInfo, 0),
        (Request::ContentFormat, 1),
        (Request::PartitionLabel, 2),
        (Request::PartitionType, 3),
        (Request::AttachDriver("driver"), 4),
        (Request::MountBlobfs, 4),
        (Request::MountData, 4),
        (Request::BindZxcrypt, 4),
    ] {
        for (i, answer) in answers.iter().enumerate() {
            assert_eq!(request.accepts(answer), i == kind);
        }
    }
}

// Which of the devices at `paths` are taken.
fn bound(config: &Config, paths: &[&'static str], format: DiskFormat) -> Vec<&'static str> {
    let mut matchers = Matchers::new(config);
    let mut taken = Vec::new();
    for path in paths {
        if run(&mut matchers, &Script { format, ..device(path) }).0 == Ok(true) {
            taken.push(*path);
        }
    }
    taken
}

#[test]
fn a_product_binds_one_map_of_a_kind() {
    let paths = ["disk/0", "ram/0", "disk/1", "ram/1", "disk/0"];
    let config = everything();
    assert_eq!(bound(&config, &paths, DiskFormat::Gpt), ["disk/0"]);
    assert_eq!(bound(&config, &paths, DiskFormat::Fvm), ["disk/0"]);
    let config = Config { gpt_all: true, ..config };
    assert_eq!(bound(&config, &paths, DiskFormat::Gpt), paths);
    assert_eq!(bound(&config, &paths, DiskFormat::Fvm), ["disk/0"]);
}

#[test]
fn a_product_with_a_ramdisk_binds_two_volumes() {
    let config = Config { fvm_ramdisk: true, ..everything() };
    assert_eq!(
        bound(&config, &["disk/0", "disk/1", "ram/0", "ram/1"], DiskFormat::Fvm),
        ["disk/0", "ram/0"]
    );
    assert_eq!(
        bound(&config, &["ram/0", "ram/1", "disk/0", "ram/2"], DiskFormat::Fvm),
        ["ram/0", "ram/1"]
    );
    assert_eq!(bound(&config, &["disk/0", "disk/1"], DiskFormat::Fvm), ["disk/0"]);
}

#[test]
fn a_failed_search_leaves_room_for_the_next() {
    let mut matchers = Matchers::new(&Config { fvm: true, blobfs: true, ..nothing() });
    let attached = attach(FVM_DRIVER_PATH);
    let fails = Script { fails: "attach /boot/driver/fvm.so", ..fvm("a") };
    assert!(run(&mut matchers, &fails).0.is_err());
    // Nothing was recorded: the partition has no parent, and another device can still be taken.
    check(&mut matchers, &blobfs("a/fvm/blobfs/block"), false, &["format"]);
    check(&mut matchers, &fvm("b"), true, &["format", &attached]);
    check(
        &mut matchers,
        &blobfs("b/fvm/blobfs/block"),
        true,
        &["label", "type", "mount blobfs"],
    );
}
