use fshost::config::Config;
use fshost::constants::{
    BLOBFS_PARTITION_LABEL, BLOBFS_TYPE_GUID, BOOTPART_DRIVER_PATH, DATA_PARTITION_LABEL,
    DATA_TYPE_GUID, FLAG_BOOTPART, FVM_DRIVER_PATH, GPT_DRIVER_PATH, NAND_BROKER_DRIVER_PATH,
};
use fshost::device::{Answer, BlockInfo, DeviceInfo, DiskFormat, Request};
use fshost::matchers::{Matchers, Notice, Step};

fn default_config() -> Config {
    Config {
        blobfs: true,
        bootpart: true,
        data: true,
        data_filesystem_format: String::new(),
        fvm: true,
        fvm_ramdisk: false,
        gpt: true,
        gpt_all: false,
        nand: false,
        netboot: false,
        ramdisk_prefix: "/dev/sys/platform/00:00:2d/ramctl".to_string(),
    }
}

#[derive(Clone)]
struct MockDevice {
    block_flags: u32,
    is_nand: bool,
    content_format: DiskFormat,
    topological_path: String,
    partition_label: Option<String>,
    partition_type: Option<[u8; 16]>,
}

impl MockDevice {
    fn new() -> Self {
        MockDevice {
            block_flags: 0,
            is_nand: false,
            content_format: DiskFormat::Unknown,
            topological_path: "mock_device".to_string(),
            partition_label: None,
            partition_type: None,
        }
    }
    fn set_block_flags(mut self, flags: u32) -> Self {
        self.block_flags = flags;
        self
    }
    fn set_nand(mut self, v: bool) -> Self {
        self.is_nand = v;
        self
    }
    fn set_content_format(mut self, format: DiskFormat) -> Self {
        self.content_format = format;
        self
    }
    fn set_topological_path(mut self, path: &str) -> Self {
        self.topological_path = path.to_string();
        self
    }
    fn set_partition_label(mut self, label: &str) -> Self {
        self.partition_label = Some(label.to_string());
        self
    }
    fn set_partition_type(mut self, partition_type: &[u8; 16]) -> Self {
        self.partition_type = Some(*partition_type);
        self
    }
}

struct MockEnv {
    expected_driver_path: Option<String>,
    expect_bind_zxcrypt: bool,
    expect_mount_blobfs: bool,
    expect_mount_data: bool,
}

impl MockEnv {
    fn new() -> Self {
        MockEnv {
            expected_driver_path: None,
            expect_bind_zxcrypt: false,
            expect_mount_blobfs: false,
            expect_mount_data: false,
        }
    }
    fn expect_attach_driver(mut self, path: &str) -> Self {
        self.expected_driver_path = Some(path.to_string());
        self
    }
    fn expect_bind_zxcrypt(mut self) -> Self {
        self.expect_bind_zxcrypt = true;
        self
    }
    fn expect_mount_blobfs(mut self) -> Self {
        self.expect_mount_blobfs = true;
        self
    }
    fn expect_mount_data(mut self) -> Self {
        self.expect_mount_data = true;
        self
    }
}

impl Drop for MockEnv {
    fn drop(&mut self) {
        assert!(self.expected_driver_path.is_none());
        assert!(!self.expect_bind_zxcrypt);
        assert!(!self.expect_mount_blobfs);
        assert!(!self.expect_mount_data);
    }
}

fn perform(request: Request, device: &MockDevice, env: &mut MockEnv) -> Result<Answer, String> {
    match request {
        Request::BlockInfo => Ok(Answer::BlockInfo(BlockInfo { flags: device.block_flags })),
        Request::ContentFormat => Ok(Answer::ContentFormat(device.content_format)),
        Request::PartitionLabel => Ok(Answer::PartitionLabel(
            device.partition_label.clone().expect("Unexpected call to partition_label"),
        )),
        Request::PartitionType => Ok(Answer::PartitionType(
            device.partition_type.expect("Unexpected call to partition_type"),
        )),
        Request::AttachDriver(path) => {
            assert_eq!(
                path,
                env.expected_driver_path.take().expect("Unexpected call to attach_driver")
            );
            Ok(Answer::Done)
        }
        Request::BindZxcrypt => {
            assert_eq!(
                std::mem::take(&mut env.expect_bind_zxcrypt),
                true,
                "Unexpected call to bind_zxcrypt"
            );
            Ok(Answer::Done)
        }
        Request::MountBlobfs => {
            assert_eq!(
                std::mem::take(&mut env.expect_mount_blobfs),
                true,
                "Unexpected call to mount_blobfs"
            );
            Ok(Answer::Done)
        }
        Request::MountData => {
            assert_eq!(
                std::mem::take(&mut env.expect_mount_data),
                true,
                "Unexpected call to mount_data"
            );
            Ok(Answer::Done)
        }
    }
}

fn match_device(
    matchers: &mut Matchers,
    device: &MockDevice,
    env: &mut MockEnv,
) -> Result<bool, String> {
    let mut step = matchers.match_device(Notice::Appeared(DeviceInfo {
        topological_path: device.topological_path.clone(),
        is_nand: device.is_nand,
    }));
    loop {
        match step {
            Step::Done(result) => return result,
            Step::Ask(search) => {
                let answer = perform(search.request(), device, env);
                step = matchers.match_device(Notice::Answered(search, answer));
            }
        }
    }
}

#[test]
fn test_bootpart_matcher() {
    let mock_device = MockDevice::new().set_block_flags(FLAG_BOOTPART);

    // Check no match when disabled in config.
    assert!(!match_device(
        &mut Matchers::new(&Config { bootpart: false, ..default_config() }),
        &mock_device,
        &mut MockEnv::new()
    )
    .expect("match_device failed"));

    assert!(match_device(
        &mut Matchers::new(&default_config()),
        &mock_device,
        &mut MockEnv::new().expect_attach_driver(BOOTPART_DRIVER_PATH)
    )
    .expect("match_device failed"));
}

#[test]
fn test_nand_matcher() {
    let device = MockDevice::new().set_nand(true);
    let mut env = MockEnv::new().expect_attach_driver(NAND_BROKER_DRIVER_PATH);

    // Default shouldn't match.
    assert!(!match_device(&mut Matchers::new(&default_config()), &device, &mut env)
        .expect("match_device failed"));

    assert!(match_device(
        &mut Matchers::new(&Config { nand: true, ..default_config() }),
        &device,
        &mut env
    )
    .expect("match_device failed"));
}

#[test]
fn test_partition_map_matcher() {
    let mut env = MockEnv::new().expect_attach_driver(GPT_DRIVER_PATH);

    // Check no match when disabled in config.
    let device = MockDevice::new().set_content_format(DiskFormat::Gpt);
    assert!(!match_device(
        &mut Matchers::new(&Config { blobfs: false, data: false, gpt: false, ..default_config() }),
        &device,
        &mut env
    )
    .expect("match_device failed"));

    let mut matchers = Matchers::new(&default_config());
    assert!(match_device(&mut matchers, &device, &mut env).expect("match_device failed"));

    // More GPT devices should not get matched.
    assert!(!match_device(&mut matchers, &device, &mut env).expect("match_device failed"));

    // The gpt_all config should allow multiple GPT devices to be matched.
    let mut matchers = Matchers::new(&Config { gpt_all: true, ..default_config() });
    let mut env = MockEnv::new().expect_attach_driver(GPT_DRIVER_PATH);
    assert!(match_device(&mut matchers, &device, &mut env).expect("match_device failed"));
    let mut env = MockEnv::new().expect_attach_driver(GPT_DRIVER_PATH);
    assert!(match_device(&mut matchers, &device, &mut env).expect("match_device failed"));
}

#[test]
fn test_partition_map_matcher_ramdisk_prefix() {
    // If fvm_ramdisk is true and one of the devices matches the ramdisk prefix, we will match
    // two fvm devices, and the third one will fail.
    let mut matchers = Matchers::new(&Config {
        fvm_ramdisk: true,
        ramdisk_prefix: "second_prefix".to_string(),
        data_filesystem_format: "minfs".to_string(),
        ..default_config()
    });
    let fvm_device = MockDevice::new()
        .set_content_format(DiskFormat::Fvm)
        .set_topological_path("first_prefix");
    let mut env = MockEnv::new().expect_attach_driver(FVM_DRIVER_PATH);
    assert!(match_device(&mut matchers, &fvm_device, &mut env).expect("match_device failed"));

    let fvm_device = fvm_device.set_topological_path("second_prefix");
    let mut env = MockEnv::new().expect_attach_driver(FVM_DRIVER_PATH);
    assert!(match_device(&mut matchers, &fvm_device, &mut env).expect("match_device failed"));

    let fvm_device = fvm_device.set_topological_path("third_prefix");
    assert!(!match_device(&mut matchers, &fvm_device, &mut MockEnv::new())
        .expect("match_device failed"));

    // Afterwards, filesystems will work on the device with the right prefix, and not on other
    // devices without that prefix.
    let blobfs_device = MockDevice::new()
        .set_topological_path("first_prefix/fvm/blobfs-p-1/block")
        .set_partition_label(BLOBFS_PARTITION_LABEL)
        .set_partition_type(&BLOBFS_TYPE_GUID);
    assert!(!match_device(&mut matchers, &blobfs_device, &mut MockEnv::new())
        .expect("match_device failed"));
    let blobfs_device = blobfs_device.set_topological_path("second_prefix/fvm/blobfs-p-1/block");
    let mut env = MockEnv::new().expect_mount_blobfs();
    assert!(match_device(&mut matchers, &blobfs_device, &mut env).expect("match_device failed"));

    // However, we will bind zxcrypt to the device which matched the non-ramdisk prefix.
    let data_device = MockDevice::new()
        .set_topological_path("first_prefix/fvm/data-p-2/block")
        .set_partition_label(DATA_PARTITION_LABEL)
        .set_partition_type(&DATA_TYPE_GUID);
    let mut env = MockEnv::new().expect_bind_zxcrypt();
    assert!(match_device(&mut matchers, &data_device, &mut env).expect("match_device failed"));

    // If fvm_ramdisk is true but no devices match the prefix, only the first device will
    // match.
    let mut matchers = Matchers::new(&Config {
        fvm_ramdisk: true,
        ramdisk_prefix: "wrong_prefix".to_string(),
        data_filesystem_format: "fxfs".to_string(),
        ..default_config()
    });
    let fvm_device = MockDevice::new()
        .set_content_format(DiskFormat::Fvm)
        .set_topological_path("first_prefix");
    let mut env = MockEnv::new().expect_attach_driver(FVM_DRIVER_PATH);
    assert!(match_device(&mut matchers, &fvm_device, &mut env).expect("match_device failed"));
    let fvm_device = fvm_device.set_topological_path("second_prefix");
    assert!(!match_device(&mut matchers, &fvm_device, &mut MockEnv::new())
        .expect("match_device failed"));

    // When configured with fxfs as the data format, zxcrypt is not bound.
    let data_device = MockDevice::new()
        .set_topological_path("first_prefix/fvm/data-p-2/block")
        .set_partition_label(DATA_PARTITION_LABEL)
        .set_partition_type(&DATA_TYPE_GUID);
    assert!(!match_device(&mut matchers, &data_device, &mut MockEnv::new())
        .expect("match_device failed"));
}

fn fake_blobfs_device() -> MockDevice {
    MockDevice::new()
        .set_topological_path("mock_device/fvm/blobfs-p-1/block")
        .set_partition_label(BLOBFS_PARTITION_LABEL)
        .set_partition_type(&BLOBFS_TYPE_GUID)
}

#[test]
fn test_blobfs_matcher() {
    let fvm_device = MockDevice::new().set_content_format(DiskFormat::Fvm);
    let mut env = MockEnv::new().expect_attach_driver(FVM_DRIVER_PATH).expect_mount_blobfs();

    let mut matchers = Matchers::new(&default_config());

    // Attach the first GPT device.
    assert!(match_device(&mut matchers, &fvm_device, &mut env).expect("match_device failed"));

    // Attaching blobfs with a different path should fail.
    assert!(!match_device(
        &mut matchers,
        &fake_blobfs_device().set_topological_path("another_device/fvm/blobfs-p-1/block"),
        &mut env
    )
    .expect("match_device failed"));

    // Attaching blobfs with a different label should fail.
    assert!(!match_device(
        &mut matchers,
        &fake_blobfs_device().set_partition_label("data"),
        &mut env
    )
    .expect("match_device failed"));

    // Attaching blobfs with a different type should fail.
    assert!(!match_device(
        &mut matchers,
        &fake_blobfs_device().set_partition_type(&[1; 16]),
        &mut env
    )
    .expect("match_device failed"));

    // Attach blobfs.
    assert!(match_device(&mut matchers, &fake_blobfs_device(), &mut env)
        .expect("match_device failed"));
}

#[test]
fn test_data_matcher() {
    let mut matchers = Matchers::new(&default_config());

    // Attach FVM device.
    assert!(match_device(
        &mut matchers,
        &MockDevice::new().set_content_format(DiskFormat::Fvm),
        &mut MockEnv::new().expect_attach_driver(FVM_DRIVER_PATH)
    )
    .expect("match_device failed"));

    // Check that the data partition is mounted.
    assert!(match_device(
        &mut matchers,
        &MockDevice::new()
            .set_topological_path("mock_device/fvm/data-p-2/block")
            .set_partition_label(DATA_PARTITION_LABEL)
            .set_partition_type(&DATA_TYPE_GUID),
        &mut MockEnv::new().expect_mount_data()
    )
    .expect("match_device failed"));
}

#[test]
fn test_netboot_flag_true() {
    let mut matchers = Matchers::new(&Config { netboot: true, ..default_config() });

    // Attach FVM device.
    assert!(match_device(
        &mut matchers,
        &MockDevice::new().set_content_format(DiskFormat::Fvm),
        &mut MockEnv::new().expect_attach_driver(FVM_DRIVER_PATH)
    )
    .expect("match_device failed"));

    let env = &mut MockEnv::new();

    // Attaching blobfs should fail if netboot is true
    assert!(!match_device(
        &mut matchers,
        &MockDevice::new()
            .set_topological_path("mock_device/fvm/blobfs-p-1/block")
            .set_partition_label(DATA_PARTITION_LABEL)
            .set_partition_type(&DATA_TYPE_GUID),
        env
    )
    .expect("match_device failed"));

    // Attaching data should fail if netboot is true
    assert!(!match_device(
        &mut matchers,
        &MockDevice::new()
            .set_topological_path("mock_device/fvm/data-p-2/block")
            .set_partition_label(DATA_PARTITION_LABEL)
            .set_partition_type(&DATA_TYPE_GUID),
        env
    )
    .expect("match_device failed"));
}

#[test]
fn test_zxcrypt_matcher() {
    let mut matchers = Matchers::new(&Config {
        fvm_ramdisk: true,
        data_filesystem_format: "minfs".to_string(),
        ..default_config()
    });

    // Attach FVM device.
    assert!(match_device(
        &mut matchers,
        &MockDevice::new().set_content_format(DiskFormat::Fvm),
        &mut MockEnv::new().expect_attach_driver(FVM_DRIVER_PATH)
    )
    .expect("match_device failed"));

    // Check that the data partition is mounted.
    assert!(match_device(
        &mut matchers,
        &MockDevice::new()
            .set_topological_path("mock_device/fvm/data-p-2/block")
            .set_partition_label(DATA_PARTITION_LABEL)
            .set_partition_type(&DATA_TYPE_GUID),
        &mut MockEnv::new().expect_bind_zxcrypt()
    )
    .expect("match_device failed"));
}
