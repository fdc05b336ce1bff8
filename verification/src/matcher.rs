//! The matchers.
use crate::constants::{
    BLOBFS_PARTITION_LABEL, BLOBFS_TYPE_GUID, BOOTPART_DRIVER_PATH, DATA_PARTITION_LABEL,
    DATA_TYPE_GUID, FLAG_BOOTPART, NAND_BROKER_DRIVER_PATH,
};
use crate::device::{Answer, DeviceInfo, DiskFormat, Request};
use crate::model::{Action, Event, MatcherModel, Offer, PartitionMapModel};
use crate::text::{equal, is_partition, starts_with};
use vstd::prelude::*;

verus! {

/// Something that recognises a kind of device. What a matcher needs of a device and of the
/// environment it asks for, one request at a time, and goes on when the answer is there.
pub trait Matcher: Send {
    spec fn model(&self) -> MatcherModel;

    /// Tries to match this device against this matcher.
    fn match_device(&mut self, device: &DeviceInfo, event: &Event) -> (action: Action)
        requires
            old(self).model().expects(*event),
        ensures
            action == old(self).model().reaction(device@, *event),
            final(self).model() == old(self).model().after(device@.path, action),
    ;

    /// This is called when a device appears that is a child of an already matched device, and for
    /// the answers to what child matcher `child` then asked. It can be anywhere within the
    /// hierarchy, so not necessarily an immediate child. Devices will be matched as children
    /// before being matched against global matches.
    fn match_child(
        &mut self,
        device: &DeviceInfo,
        parent_path: &str,
        child: usize,
        event: &Event,
    ) -> (offer: Offer)
        requires
            old(self).model().expects_child(device@.path, parent_path@, child as int, *event),
        ensures
            offer@ == old(self).model().child_reaction(
                device@,
                parent_path@,
                child as int,
                *event,
            ),
            final(self).model() == old(self).model().child_after(
                device@.path,
                child as int,
                offer@,
            ),
    ;
}

/// A matcher of some kind, as an element of a list.
pub struct AnyMatcher(pub Box<dyn Matcher>);

/// The models of some matchers.
pub open spec fn models(matchers: Seq<AnyMatcher>) -> Seq<MatcherModel> {
    Seq::new(matchers.len(), |i: int| matchers[i].0.model())
}

/// Offers the device to `matchers` in turn, from number `from` on, until one has a request.
fn offer_from(matchers: &mut Vec<AnyMatcher>, device: &DeviceInfo, from: usize) -> (offer:
    Offer)
    ensures
        offer@ == crate::model::offer_from(models(old(matchers)@), device@, from as int),
        models(final(matchers)@) == models(old(matchers)@),
{
    let ghost before = models(matchers@);
    let mut i: usize = from;
    while i < matchers.len()
        invariant
            before == models(old(matchers)@),
            models(matchers@) == before,
            crate::model::first_admitting(before, device@, from as int)
                == crate::model::first_admitting(before, device@, i as int),
        decreases matchers@.len() - i,
    {
        let action = matchers[i].0.match_device(device, &Event::Appeared);
        assert(models(matchers@) =~= before);
        match action {
            Action::Ask(request) => return Offer::Ask { number: i, step: 0, request },
            _ => {},
        }
        i += 1;
    }
    Offer::Decline
}

/// Hands `event` to matcher `number`; when that one declines, offers the device to those behind
/// it.
pub(crate) fn round(
    matchers: &mut Vec<AnyMatcher>,
    device: &DeviceInfo,
    number: usize,
    event: &Event,
) -> (offer: Offer)
    requires
        *event is Answered ==> number < old(matchers).len() && models(
            old(matchers)@,
        )[number as int].expects(*event),
    ensures
        offer@ == crate::model::round(models(old(matchers)@), device@, number as int, *event),
        models(final(matchers)@) == crate::model::round_after(
            models(old(matchers)@),
            device@.path,
            number as int,
            offer@,
        ),
{
    let ghost before = models(matchers@);
    match event {
        Event::Appeared => offer_from(matchers, device, number),
        Event::Answered(step, _) => {
            let action = matchers[number].0.match_device(device, event);
            assert(models(matchers@) =~= before.update(
                number as int,
                before[number as int].after(device@.path, action),
            ));
            match action {
                Action::Ask(request) => {
                    assert(models(matchers@) =~= before);
                    Offer::Ask { number, step: *step + 1, request }
                },
                Action::Match => Offer::Match,
                Action::Decline => {
                    assert(models(matchers@) =~= before);
                    offer_from(matchers, device, number + 1)
                },
            }
        },
    }
}

/// Matches Bootpart devices.
pub struct BootpartMatcher();

impl BootpartMatcher {
    pub fn new() -> (m: Self)
        ensures
            m.model() == MatcherModel::Bootpart,
    {
        BootpartMatcher()
    }
}

impl BootpartMatcher {
    pub(crate) fn boxed(self) -> (m: AnyMatcher)
        ensures
            m.0.model() == self.model(),
    {
        AnyMatcher(Box::new(self))
    }
}

impl Matcher for BootpartMatcher {
    closed spec fn model(&self) -> MatcherModel {
        MatcherModel::Bootpart
    }

    fn match_device(&mut self, _device: &DeviceInfo, event: &Event) -> (action: Action) {
        match event {
            Event::Appeared => Action::Ask(Request::BlockInfo),
            Event::Answered(_, Answer::BlockInfo(info)) => {
                if info.flags & FLAG_BOOTPART == FLAG_BOOTPART {
                    Action::Ask(Request::AttachDriver(BOOTPART_DRIVER_PATH))
                } else {
                    Action::Decline
                }
            },
            Event::Answered(..) => Action::Match,
        }
    }

    fn match_child(
        &mut self,
        _device: &DeviceInfo,
        _parent_path: &str,
        _child: usize,
        _event: &Event,
    ) -> (offer: Offer) {
        Offer::Decline
    }
}

/// Matches Nand devices.
pub struct NandMatcher();

impl NandMatcher {
    pub fn new() -> (m: Self)
        ensures
            m.model() == MatcherModel::Nand,
    {
        NandMatcher()
    }
}

impl NandMatcher {
    pub(crate) fn boxed(self) -> (m: AnyMatcher)
        ensures
            m.0.model() == self.model(),
    {
        AnyMatcher(Box::new(self))
    }
}

impl Matcher for NandMatcher {
    closed spec fn model(&self) -> MatcherModel {
        MatcherModel::Nand
    }

    fn match_device(&mut self, device: &DeviceInfo, event: &Event) -> (action: Action) {
        match event {
            Event::Appeared => {
                if device.is_nand {
                    Action::Ask(Request::AttachDriver(NAND_BROKER_DRIVER_PATH))
                } else {
                    Action::Decline
                }
            },
            Event::Answered(..) => Action::Match,
        }
    }

    fn match_child(
        &mut self,
        _device: &DeviceInfo,
        _parent_path: &str,
        _child: usize,
        _event: &Event,
    ) -> (offer: Offer) {
        Offer::Decline
    }
}

/// Matches partition maps. Matching is done using content sniffing. `child_matchers` contain
/// matchers that will match against partitions of partition maps.
pub struct PartitionMapMatcher {
    // The content format expected.
    content_format: DiskFormat,
    // If true, match against multiple devices. Otherwise, only the first is matched.
    allow_multiple: bool,
    // When matched, this driver is attached to the device.
    driver_path: &'static str,
    // The expected path suffix used in the topological path. For example, FVM uses an "/fvm"
    // suffix.
    path_suffix: &'static str,
    // If this partition is required to exist on a ramdisk, then this contains the prefix it should
    // have.
    ramdisk_required: Option<String>,
    // The topological paths of all devices matched so far.
    device_paths: Vec<String>,
    // A list of matchers to use against partitions of matched devices.
    child_matchers: Vec<AnyMatcher>,
}

impl PartitionMapMatcher {
    pub fn new(
        content_format: DiskFormat,
        allow_multiple: bool,
        driver_path: &'static str,
        path_suffix: &'static str,
        ramdisk_required: Option<String>,
    ) -> (m: Self)
        ensures
            m.model() == MatcherModel::PartitionMap(
                PartitionMapModel {
                    content_format,
                    allow_multiple,
                    driver_path,
                    path_suffix: path_suffix@,
                    ramdisk_required: match ramdisk_required {
                        Some(prefix) => Some(prefix@),
                        None => None,
                    },
                    device_paths: seq![],
                    child_matchers: seq![],
                },
            ),
    {
        let m = Self {
            content_format,
            allow_multiple,
            driver_path,
            path_suffix,
            ramdisk_required,
            device_paths: Vec::new(),
            child_matchers: Vec::new(),
        };
        assert(m.map_model().device_paths =~= seq![]);
        assert(m.map_model().child_matchers =~= seq![]);
        m
    }

    closed spec fn map_model(&self) -> PartitionMapModel {
        PartitionMapModel {
            content_format: self.content_format,
            allow_multiple: self.allow_multiple,
            driver_path: self.driver_path,
            path_suffix: self.path_suffix@,
            ramdisk_required: match self.ramdisk_required {
                Some(prefix) => Some(prefix@),
                None => None,
            },
            device_paths: self.device_paths@.map_values(|path: String| path@),
            child_matchers: models(self.child_matchers@),
        }
    }

    /// Whatever it has matched, the matcher is one for partition maps.
    pub proof fn lemma_is_partition_map(&self)
        ensures
            self.model() is PartitionMap,
    {
    }

    /// Whether there are matchers for the partitions of matched devices.
    pub(crate) fn has_children(&self) -> (r: bool)
        ensures
            r == (self.model().children().len() > 0),
    {
        !self.child_matchers.is_empty()
    }

    /// Adds a matcher for the partitions of matched devices, behind those that are there.
    pub(crate) fn add_child(&mut self, child: AnyMatcher)
        ensures
            final(self).model() == MatcherModel::PartitionMap(
                PartitionMapModel {
                    child_matchers: old(self).model().children().push(child.0.model()),
                    ..old(self).model()->PartitionMap_0
                },
            ),
    {
        let ghost before = models(self.child_matchers@);
        self.child_matchers.push(child);
        assert(models(self.child_matchers@) =~= before.push(child.0.model()));
    }
}

impl PartitionMapMatcher {
    pub(crate) fn boxed(self) -> (m: AnyMatcher)
        ensures
            m.0.model() == self.model(),
    {
        AnyMatcher(Box::new(self))
    }
}

impl Matcher for PartitionMapMatcher {
    closed spec fn model(&self) -> MatcherModel {
        MatcherModel::PartitionMap(self.map_model())
    }

    fn match_device(&mut self, device: &DeviceInfo, event: &Event) -> (action: Action) {
        match event {
            Event::Appeared => {
                if !self.allow_multiple && !self.device_paths.is_empty() {
                    return Action::Decline;
                }
                if let Some(ramdisk_prefix) = &self.ramdisk_required {
                    if !starts_with(device.topological_path.as_str(), ramdisk_prefix.as_str()) {
                        return Action::Decline;
                    }
                }
                Action::Ask(Request::ContentFormat)
            },
            Event::Answered(_, Answer::ContentFormat(content_format)) => {
                if *content_format == self.content_format {
                    Action::Ask(Request::AttachDriver(self.driver_path))
                } else {
                    Action::Decline
                }
            },
            Event::Answered(..) => {
                let ghost before = self.map_model().device_paths;
                self.device_paths.push(device.topological_path.clone());
                assert(self.map_model().device_paths =~= before.push(device@.path));
                Action::Match
            },
        }
    }

    fn match_child(
        &mut self,
        device: &DeviceInfo,
        parent_path: &str,
        child: usize,
        event: &Event,
    ) -> (offer: Offer) {
        // Only match against children that are immediate children.
        // Child partitions should have topological paths of the form:
        //   ...<suffix>/<partition-name>/block
        if is_partition(device.topological_path.as_str(), parent_path, self.path_suffix) {
            round(&mut self.child_matchers, device, child, event)
        } else {
            Offer::Decline
        }
    }
}

/// Matches a partition by its label and type GUID.
pub struct PartitionMatcher {
    label: &'static str,
    type_guid: &'static [u8; 16],
}

impl PartitionMatcher {
    pub fn new(label: &'static str, type_guid: &'static [u8; 16]) -> (m: Self)
        ensures
            m.model() == (MatcherModel::Partition {
                label: label@,
                type_guid: type_guid@,
                effect: None,
            }),
    {
        Self { label, type_guid }
    }
}

/// Whether two GUIDs are the same.
fn same_guid(a: &[u8; 16], b: &[u8; 16]) -> (r: bool)
    ensures
        r == (a@ == b@),
{
    let mut i: usize = 0;
    while i < 16
        invariant
            i <= 16,
            forall|j: int| 0 <= j < i ==> a@[j] == b@[j],
        decreases 16 - i,
    {
        if a[i] != b[i] {
            return false;
        }
        i += 1;
    }
    assert(a@ =~= b@);
    true
}

impl Matcher for PartitionMatcher {
    closed spec fn model(&self) -> MatcherModel {
        MatcherModel::Partition { label: self.label@, type_guid: self.type_guid@, effect: None }
    }

    fn match_device(&mut self, _device: &DeviceInfo, event: &Event) -> (action: Action) {
        match event {
            Event::Appeared => Action::Ask(Request::PartitionLabel),
            Event::Answered(_, Answer::PartitionLabel(label)) => {
                if equal(label.as_str(), self.label) {
                    Action::Ask(Request::PartitionType)
                } else {
                    Action::Decline
                }
            },
            Event::Answered(_, Answer::PartitionType(type_guid)) => {
                if same_guid(type_guid, self.type_guid) {
                    Action::Match
                } else {
                    Action::Decline
                }
            },
            Event::Answered(..) => Action::Decline,
        }
    }

    fn match_child(
        &mut self,
        _device: &DeviceInfo,
        _parent_path: &str,
        _child: usize,
        _event: &Event,
    ) -> (offer: Offer) {
        Offer::Decline
    }
}

/// Matches against a Blobfs partition (by checking for partition label and type GUID).
pub struct BlobfsMatcher(PartitionMatcher);

impl BlobfsMatcher {
    pub fn new() -> (m: Self)
        ensures
            m.model() == (MatcherModel::Partition {
                label: BLOBFS_PARTITION_LABEL@,
                type_guid: BLOBFS_TYPE_GUID@,
                effect: Some(Request::MountBlobfs),
            }),
    {
        Self(PartitionMatcher::new(BLOBFS_PARTITION_LABEL, &BLOBFS_TYPE_GUID))
    }
}

impl BlobfsMatcher {
    pub(crate) fn boxed(self) -> (m: AnyMatcher)
        ensures
            m.0.model() == self.model(),
    {
        AnyMatcher(Box::new(self))
    }
}

impl Matcher for BlobfsMatcher {
    closed spec fn model(&self) -> MatcherModel {
        MatcherModel::Partition {
            label: self.0.label@,
            type_guid: self.0.type_guid@,
            effect: Some(Request::MountBlobfs),
        }
    }

    fn match_device(&mut self, device: &DeviceInfo, event: &Event) -> (action: Action) {
        if let Event::Answered(_, Answer::Done) = event {
            return Action::Match;
        }
        match self.0.match_device(device, event) {
            Action::Match => Action::Ask(Request::MountBlobfs),
            action => action,
        }
    }

    fn match_child(
        &mut self,
        _device: &DeviceInfo,
        _parent_path: &str,
        _child: usize,
        _event: &Event,
    ) -> (offer: Offer) {
        Offer::Decline
    }
}

/// Matches against a Data partition (by checking for partition label and type GUID).
pub struct DataMatcher(PartitionMatcher);

impl DataMatcher {
    pub fn new() -> (m: Self)
        ensures
            m.model() == (MatcherModel::Partition {
                label: DATA_PARTITION_LABEL@,
                type_guid: DATA_TYPE_GUID@,
                effect: Some(Request::MountData),
            }),
    {
        Self(PartitionMatcher::new(DATA_PARTITION_LABEL, &DATA_TYPE_GUID))
    }
}

impl DataMatcher {
    pub(crate) fn boxed(self) -> (m: AnyMatcher)
        ensures
            m.0.model() == self.model(),
    {
        AnyMatcher(Box::new(self))
    }
}

impl Matcher for DataMatcher {
    closed spec fn model(&self) -> MatcherModel {
        MatcherModel::Partition {
            label: self.0.label@,
            type_guid: self.0.type_guid@,
            effect: Some(Request::MountData),
        }
    }

    fn match_device(&mut self, device: &DeviceInfo, event: &Event) -> (action: Action) {
        if let Event::Answered(_, Answer::Done) = event {
            return Action::Match;
        }
        match self.0.match_device(device, event) {
            Action::Match => Action::Ask(Request::MountData),
            action => action,
        }
    }

    fn match_child(
        &mut self,
        _device: &DeviceInfo,
        _parent_path: &str,
        _child: usize,
        _event: &Event,
    ) -> (offer: Offer) {
        Offer::Decline
    }
}

/// Matches a zxcrypt partition.
pub struct ZxcryptMatcher(PartitionMatcher);

impl ZxcryptMatcher {
    pub fn new() -> (m: Self)
        ensures
            m.model() == (MatcherModel::Partition {
                label: DATA_PARTITION_LABEL@,
                type_guid: DATA_TYPE_GUID@,
                effect: Some(Request::BindZxcrypt),
            }),
    {
        Self(PartitionMatcher::new(DATA_PARTITION_LABEL, &DATA_TYPE_GUID))
    }
}

impl ZxcryptMatcher {
    pub(crate) fn boxed(self) -> (m: AnyMatcher)
        ensures
            m.0.model() == self.model(),
    {
        AnyMatcher(Box::new(self))
    }
}

impl Matcher for ZxcryptMatcher {
    closed spec fn model(&self) -> MatcherModel {
        MatcherModel::Partition {
            label: self.0.label@,
            type_guid: self.0.type_guid@,
            effect: Some(Request::BindZxcrypt),
        }
    }

    fn match_device(&mut self, device: &DeviceInfo, event: &Event) -> (action: Action) {
        if let Event::Answered(_, Answer::Done) = event {
            return Action::Match;
        }
        match self.0.match_device(device, event) {
            Action::Match => Action::Ask(Request::BindZxcrypt),
            action => action,
        }
    }

    fn match_child(
        &mut self,
        _device: &DeviceInfo,
        _parent_path: &str,
        _child: usize,
        _event: &Event,
    ) -> (offer: Offer) {
        Offer::Decline
    }
}

} // verus!
