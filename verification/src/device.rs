//! What a matcher sees of a block device, and what it asks for.
use vstd::prelude::*;

verus! {

/// What is known of a device without asking it.
pub struct DeviceInfo {
    pub topological_path: String,
    pub is_nand: bool,
}

pub struct DeviceView {
    pub path: Seq<char>,
    pub nand: bool,
}

impl View for DeviceInfo {
    type V = DeviceView;

    open spec fn view(&self) -> DeviceView {
        DeviceView { path: self.topological_path@, nand: self.is_nand }
    }
}

/// What the content of a device looks like.
#[derive(Clone, Copy, Debug, PartialEq, Eq, Structural)]
pub enum DiskFormat {
    Unknown,
    Gpt,
    Mbr,
    Minfs,
    Fat,
    Blobfs,
    Fvm,
    Zxcrypt,
    FactoryFs,
    BlockVerity,
    VbMeta,
    BootPart,
    Fxfs,
    F2fs,
    NandBroker,
}

/// What a block device says of itself.
#[derive(Clone, Copy, Debug)]
pub struct BlockInfo {
    pub flags: u32,
}

/// Something that a matcher wants of the device or of the environment: the first four ask the
/// device, the others have the environment act on it.
#[derive(Clone, Copy, Debug)]
pub enum Request {
    BlockInfo,
    ContentFormat,
    PartitionLabel,
    PartitionType,
    AttachDriver(&'static str),
    MountBlobfs,
    MountData,
    BindZxcrypt,
}

/// What came back for a request that did not fail.
#[derive(Clone, Debug)]
pub enum Answer {
    BlockInfo(BlockInfo),
    ContentFormat(DiskFormat),
    PartitionLabel(String),
    PartitionType([u8; 16]),
    Done,
}

impl Request {
    /// The request has the environment act, rather than asking the device.
    pub open spec fn is_effect(self) -> bool {
        match self {
            Request::BlockInfo => false,
            Request::ContentFormat => false,
            Request::PartitionLabel => false,
            Request::PartitionType => false,
            _ => true,
        }
    }

    /// `answer` is of the kind that the request asks for.
    pub open spec fn answered_by(self, answer: Answer) -> bool {
        match self {
            Request::BlockInfo => answer is BlockInfo,
            Request::ContentFormat => answer is ContentFormat,
            Request::PartitionLabel => answer is PartitionLabel,
            Request::PartitionType => answer is PartitionType,
            _ => answer is Done,
        }
    }

    /// Whether `answer` is of the kind that the request asks for.
    pub fn accepts(&self, answer: &Answer) -> (r: bool)
        ensures
            r == self.answered_by(*answer),
    {
        match (self, answer) {
            (Request::BlockInfo, Answer::BlockInfo(_)) => true,
            (Request::BlockInfo, _) => false,
            (Request::ContentFormat, Answer::ContentFormat(_)) => true,
            (Request::ContentFormat, _) => false,
            (Request::PartitionLabel, Answer::PartitionLabel(_)) => true,
            (Request::PartitionLabel, _) => false,
            (Request::PartitionType, Answer::PartitionType(_)) => true,
            (Request::PartitionType, _) => false,
            (_, Answer::Done) => true,
            (_, _) => false,
        }
    }
}

/// A device is seen by its whole path, and by whether it is a Nand device.
pub proof fn law_device_is_seen(device: DeviceInfo)
    ensures
        device@.path == device.topological_path@,
        device@.nand == device.is_nand,
{
}

/// Whatever it says, an answer of the kind that is asked for is accepted, and no other is: what
/// the environment did is answered by its being done.
pub proof fn law_answers_go_by_kind(request: Request, answer: Answer)
    ensures
        request.answered_by(answer) <==> match answer {
            Answer::BlockInfo(_) => request == Request::BlockInfo,
            Answer::ContentFormat(_) => request == Request::ContentFormat,
            Answer::PartitionLabel(_) => request == Request::PartitionLabel,
            Answer::PartitionType(_) => request == Request::PartitionType,
            Answer::Done => request is AttachDriver || request == Request::MountBlobfs || request
                == Request::MountData || request == Request::BindZxcrypt,
        },
        request.is_effect() <==> request.answered_by(Answer::Done),
{
}

} // verus!
