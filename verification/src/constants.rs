//! The drivers, labels and type GUIDs that the matchers know.
use vstd::prelude::*;

verus! {

pub const BOOTPART_DRIVER_PATH: &'static str = "/boot/driver/bootpart.so";

pub const FVM_DRIVER_PATH: &'static str = "/boot/driver/fvm.so";

pub const GPT_DRIVER_PATH: &'static str = "/boot/driver/gpt.so";

pub const NAND_BROKER_DRIVER_PATH: &'static str = "/boot/driver/nand-broker.so";

pub const BLOBFS_PARTITION_LABEL: &'static str = "blobfs";

pub const DATA_PARTITION_LABEL: &'static str = "data";

/// 2967380E-134C-4CBB-B6DA-17E7CE1CA45D, as it stands on disk.
pub const BLOBFS_TYPE_GUID: [u8; 16] = [
    0x0e, 0x38, 0x67, 0x29, 0x4c, 0x13, 0xbb, 0x4c, 0xb6, 0xda, 0x17, 0xe7, 0xce, 0x1c, 0xa4, 0x5d,
];

/// 08185F0C-892D-428A-A789-DBEEC8F55E6A, as it stands on disk.
pub const DATA_TYPE_GUID: [u8; 16] = [
    0x0c, 0x5f, 0x18, 0x08, 0x2d, 0x89, 0x8a, 0x42, 0xa7, 0x89, 0xdb, 0xee, 0xc8, 0xf5, 0x5e, 0x6a,
];

/// The suffix that FVM puts between its own path and those of its partitions.
pub const FVM_PATH_SUFFIX: &'static str = "/fvm";

/// The format of the data filesystem that needs no zxcrypt.
pub const FXFS: &'static str = "fxfs";

/// The block flag of a boot partition.
pub const FLAG_BOOTPART: u32 = 0x4;

} // verus!
