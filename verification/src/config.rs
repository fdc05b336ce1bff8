//! What the product configures.
use crate::constants::{
    BLOBFS_PARTITION_LABEL, BLOBFS_TYPE_GUID, DATA_PARTITION_LABEL, DATA_TYPE_GUID,
    FVM_DRIVER_PATH, FVM_PATH_SUFFIX, FXFS, GPT_DRIVER_PATH,
};
use crate::device::{DiskFormat, Request};
use crate::model::{MatcherModel, PartitionMapModel};
use vstd::prelude::*;

verus! {

/// Which devices and partitions a product expects.
#[derive(Clone, Debug)]
pub struct Config {
    /// Expect a blobfs partition in FVM.
    pub blobfs: bool,
    /// Bind boot partitions.
    pub bootpart: bool,
    /// Expect a data partition in FVM.
    pub data: bool,
    /// The format of the data filesystem.
    pub data_filesystem_format: String,
    /// Bind one FVM device.
    pub fvm: bool,
    /// FVM is on a ramdisk.
    pub fvm_ramdisk: bool,
    /// Bind one GPT device.
    pub gpt: bool,
    /// Bind all GPT devices.
    pub gpt_all: bool,
    /// Bind Nand devices.
    pub nand: bool,
    /// Do not mount filesystems.
    pub netboot: bool,
    /// What the topological path of the ramdisk begins with.
    pub ramdisk_prefix: String,
}

/// The matcher for GPT devices.
pub open spec fn gpt(allow_multiple: bool) -> MatcherModel {
    MatcherModel::PartitionMap(
        PartitionMapModel {
            content_format: DiskFormat::Gpt,
            allow_multiple,
            driver_path: GPT_DRIVER_PATH,
            path_suffix: ""@,
            ramdisk_required: None,
            device_paths: seq![],
            child_matchers: seq![],
        },
    )
}

/// The matcher for an FVM device and its partitions.
pub open spec fn fvm(
    ramdisk_required: Option<Seq<char>>,
    child_matchers: Seq<MatcherModel>,
) -> MatcherModel {
    MatcherModel::PartitionMap(
        PartitionMapModel {
            content_format: DiskFormat::Fvm,
            allow_multiple: false,
            driver_path: FVM_DRIVER_PATH,
            path_suffix: FVM_PATH_SUFFIX@,
            ramdisk_required,
            device_paths: seq![],
            child_matchers,
        },
    )
}

/// Mounts the blobfs partition.
pub open spec fn blobfs() -> MatcherModel {
    MatcherModel::Partition {
        label: BLOBFS_PARTITION_LABEL@,
        type_guid: BLOBFS_TYPE_GUID@,
        effect: Some(Request::MountBlobfs),
    }
}

/// Mounts the data partition.
pub open spec fn data() -> MatcherModel {
    MatcherModel::Partition {
        label: DATA_PARTITION_LABEL@,
        type_guid: DATA_TYPE_GUID@,
        effect: Some(Request::MountData),
    }
}

/// Binds zxcrypt to the data partition.
pub open spec fn zxcrypt() -> MatcherModel {
    MatcherModel::Partition {
        label: DATA_PARTITION_LABEL@,
        type_guid: DATA_TYPE_GUID@,
        effect: Some(Request::BindZxcrypt),
    }
}

/// `matcher` alone, if it is wanted.
pub open spec fn only_if(wanted: bool, matcher: MatcherModel) -> Seq<MatcherModel> {
    if wanted {
        seq![matcher]
    } else {
        seq![]
    }
}

impl Config {
    /// What is mounted from FVM.
    pub open spec fn filesystems(self) -> Seq<MatcherModel> {
        only_if(self.blobfs && !self.netboot, blobfs()) + only_if(
            self.data && !self.netboot,
            data(),
        )
    }

    /// The matchers for FVM, if it is wanted for itself or for a filesystem. When FVM is to be on
    /// a ramdisk there is another one, for an FVM that is not, which only unlocks the data
    /// partition there, and not even that for fxfs.
    pub open spec fn volumes(self) -> Seq<MatcherModel> {
        if !self.fvm && self.filesystems().len() == 0 {
            seq![]
        } else if !self.fvm_ramdisk {
            seq![fvm(None, self.filesystems())]
        } else {
            seq![
                fvm(Some(self.ramdisk_prefix@), self.filesystems()),
                fvm(None, only_if(self.data_filesystem_format@ != FXFS@, zxcrypt())),
            ]
        }
    }

    /// The matchers of a product, in the order in which they are tried.
    pub open spec fn matchers(self) -> Seq<MatcherModel> {
        only_if(self.bootpart, MatcherModel::Bootpart) + only_if(self.nand, MatcherModel::Nand)
            + only_if(self.gpt, gpt(false)) + self.volumes() + only_if(self.gpt_all, gpt(true))
    }
}

/// The number of matchers that come before those for FVM.
pub open spec fn first_volume(config: Config) -> int {
    let bootpart: int = if config.bootpart { 1 } else { 0 };
    let nand: int = if config.nand { 1 } else { 0 };
    let gpt: int = if config.gpt { 1 } else { 0 };
    bootpart + nand + gpt
}

/// No matcher has matched anything at first.
pub proof fn lemma_matchers_wf(config: Config)
    ensures
        forall|i: int|
            0 <= i < config.matchers().len() ==> (#[trigger] config.matchers()[i]).wf(),
{
    assert(forall|i: int|
        0 <= i < config.filesystems().len() ==> (#[trigger] config.filesystems()[i]).wf());
    assert(zxcrypt().wf());
    assert(fvm(None, config.filesystems()).wf());
    assert(fvm(Some(config.ramdisk_prefix@), config.filesystems()).wf());
    assert(fvm(None, only_if(config.data_filesystem_format@ != FXFS@, zxcrypt())).wf());
    assert(forall|i: int|
        0 <= i < config.volumes().len() ==> (#[trigger] config.volumes()[i]).wf());
}

/// What a configured matcher can be, and where it stands.
pub proof fn lemma_configured(config: Config, i: int)
    requires
        0 <= i < config.matchers().len(),
    ensures
        ({
            let matcher = config.matchers()[i];
            let at = first_volume(config);
            let volumes = config.fvm || config.filesystems().len() > 0;
            let keys = only_if(config.data_filesystem_format@ != FXFS@, zxcrypt());
            ||| i < at && config.bootpart && matcher == MatcherModel::Bootpart
            ||| i < at && config.nand && matcher == MatcherModel::Nand
            ||| i == at - 1 && config.gpt && matcher == gpt(false)
            ||| i == at && volumes && !config.fvm_ramdisk && matcher == fvm(
                None,
                config.filesystems(),
            )
            ||| i == at && volumes && config.fvm_ramdisk && matcher == fvm(
                Some(config.ramdisk_prefix@),
                config.filesystems(),
            )
            ||| i == at + 1 && volumes && config.fvm_ramdisk && matcher == fvm(None, keys)
            ||| i >= at && config.gpt_all && matcher == gpt(true)
        }),
{
    let a = only_if(config.bootpart, MatcherModel::Bootpart);
    let b = only_if(config.nand, MatcherModel::Nand);
    let c = only_if(config.gpt, gpt(false));
    let v = config.volumes();
    let e = only_if(config.gpt_all, gpt(true));
    let matcher = config.matchers()[i];
    if i < a.len() {
        assert(matcher == a[i]);
    } else if i < a.len() + b.len() {
        assert(matcher == b[i - a.len()]);
    } else if i < a.len() + b.len() + c.len() {
        assert(matcher == c[i - a.len() - b.len()]);
    } else if i < a.len() + b.len() + c.len() + v.len() {
        assert(matcher == v[i - a.len() - b.len() - c.len()]);
    } else {
        assert(matcher == e[i - a.len() - b.len() - c.len() - v.len()]);
    }
}

/// Each flag brings its matcher, whatever the other flags are: boot partitions, Nand devices and
/// GPT devices by their own flags alone, FVM by its own flag or a filesystem that is to be mounted,
/// and a second FVM matcher if FVM is to be on a ramdisk. They stand in this order, all GPT devices
/// last, and there is no other.
pub proof fn law_configured_is_there(config: Config)
    ensures
        ({
            let matchers = config.matchers();
            let mounts = !config.netboot && (config.blobfs || config.data);
            let boot: int = if config.bootpart { 1 } else { 0 };
            let nand: int = if config.nand { 1 } else { 0 };
            let gpt: int = if config.gpt { 1 } else { 0 };
            let volumes: int = if !config.fvm && !mounts {
                0
            } else if config.fvm_ramdisk {
                2
            } else {
                1
            };
            let all: int = if config.gpt_all { 1 } else { 0 };
            let at = boot + nand + gpt;
            &&& matchers.len() == at + volumes + all
            &&& config.bootpart ==> matchers[0] == MatcherModel::Bootpart
            &&& config.nand ==> matchers[boot] == MatcherModel::Nand
            &&& config.gpt ==> (matchers[boot + nand] matches MatcherModel::PartitionMap(map) && {
                &&& map.content_format == DiskFormat::Gpt
                &&& !map.allow_multiple
                &&& map.driver_path == GPT_DRIVER_PATH
                &&& map.path_suffix == ""@
                &&& map.ramdisk_required is None
                &&& map.device_paths.len() == 0
                &&& map.child_matchers.len() == 0
            })
            &&& volumes > 0 ==> (matchers[at] matches MatcherModel::PartitionMap(map) && {
                &&& map.content_format == DiskFormat::Fvm
                &&& !map.allow_multiple
                &&& map.driver_path == FVM_DRIVER_PATH
                &&& map.path_suffix == "/fvm"@
                &&& config.fvm_ramdisk ==> map.ramdisk_required == Some(config.ramdisk_prefix@)
                &&& !config.fvm_ramdisk ==> map.ramdisk_required is None
                &&& map.device_paths.len() == 0
                &&& map.child_matchers == config.filesystems()
            })
            &&& volumes > 1 ==> (matchers[at + 1] matches MatcherModel::PartitionMap(map) && {
                &&& map.content_format == DiskFormat::Fvm
                &&& !map.allow_multiple
                &&& map.driver_path == FVM_DRIVER_PATH
                &&& map.path_suffix == "/fvm"@
                &&& map.ramdisk_required is None
                &&& map.device_paths.len() == 0
                &&& config.data_filesystem_format@ == "fxfs"@ ==> map.child_matchers.len() == 0
                &&& config.data_filesystem_format@ != "fxfs"@ ==> map.child_matchers.len() == 1
                    && map.child_matchers[0] == (MatcherModel::Partition {
                    label: DATA_PARTITION_LABEL@,
                    type_guid: DATA_TYPE_GUID@,
                    effect: Some(Request::BindZxcrypt),
                })
            })
            &&& config.gpt_all ==> (matchers[at + volumes] matches MatcherModel::PartitionMap(map)
                && {
                &&& map.content_format == DiskFormat::Gpt
                &&& map.allow_multiple
                &&& map.driver_path == GPT_DRIVER_PATH
                &&& map.path_suffix == ""@
                &&& map.ramdisk_required is None
                &&& map.device_paths.len() == 0
                &&& map.child_matchers.len() == 0
            })
        }),
{
    law_configured_filesystems(config);
    let a = only_if(config.bootpart, MatcherModel::Bootpart);
    let b = only_if(config.nand, MatcherModel::Nand);
    let c = only_if(config.gpt, gpt(false));
    let v = config.volumes();
    let matchers = config.matchers();
    if config.bootpart {
        assert(matchers[0] == a[0]);
    }
    if config.nand {
        assert(matchers[a.len() as int] == b[0]);
    }
    if config.gpt {
        assert(matchers[(a.len() + b.len()) as int] == c[0]);
    }
    let at = (a.len() + b.len() + c.len()) as int;
    assert(forall|i: int| 0 <= i < v.len() ==> matchers[at + i] == #[trigger] v[i]);
    if v.len() > 0 {
        assert(matchers[at + 0] == v[0]);
    }
    if v.len() > 1 {
        assert(matchers[at + 1] == v[1]);
    }
    if config.gpt_all {
        assert(matchers[at + v.len()] == gpt(true));
    }
}

/// Blobfs and data are mounted from FVM by their own flags, blobfs before data, but nothing is
/// when netbooting.
pub proof fn law_configured_filesystems(config: Config)
    ensures
        ({
            let filesystems = config.filesystems();
            let first: int = if config.blobfs { 1 } else { 0 };
            let second: int = if config.data { 1 } else { 0 };
            &&& config.netboot ==> filesystems.len() == 0
            &&& !config.netboot ==> filesystems.len() == first + second
            &&& !config.netboot && config.blobfs ==> filesystems[0] == (MatcherModel::Partition {
                label: BLOBFS_PARTITION_LABEL@,
                type_guid: BLOBFS_TYPE_GUID@,
                effect: Some(Request::MountBlobfs),
            })
            &&& !config.netboot && config.data ==> filesystems[first] == (MatcherModel::Partition {
                label: DATA_PARTITION_LABEL@,
                type_guid: DATA_TYPE_GUID@,
                effect: Some(Request::MountData),
            })
        }),
{
}

/// What a configured filesystem can be.
pub proof fn lemma_filesystems(config: Config, i: int)
    requires
        0 <= i < config.filesystems().len(),
    ensures
        !config.netboot,
        (config.blobfs && config.filesystems()[i] == blobfs()) || (config.data
            && config.filesystems()[i] == data()),
{
    let a = only_if(config.blobfs && !config.netboot, blobfs());
    let b = only_if(config.data && !config.netboot, data());
    if i < a.len() {
        assert(config.filesystems()[i] == a[i]);
    } else {
        assert(config.filesystems()[i] == b[i - a.len()]);
    }
}

} // verus!
