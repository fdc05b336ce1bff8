//! What a matcher is, as a value: which devices it admits, what it checks of them, and what it
//! has done to those that pass.
use crate::constants::{BOOTPART_DRIVER_PATH, FLAG_BOOTPART, NAND_BROKER_DRIVER_PATH};
use crate::device::{Answer, DeviceView, DiskFormat, Request};
use vstd::prelude::*;

verus! {

/// What happens while a matcher looks at a device: the device appears, or the matcher's request
/// number `step` is answered.
pub enum Event {
    Appeared,
    Answered(usize, Answer),
}

/// What the matcher does then.
pub enum Action {
    Ask(Request),
    Match,
    Decline,
}

/// What a list of matchers does about a device that is offered to them in turn: the one with the
/// given number makes its request number `step`, the one that got an answer matches, or it
/// declines as all those behind it do.
pub enum Offer {
    Ask { number: usize, step: usize, request: Request },
    Match,
    Decline,
}

pub enum OfferView {
    Ask { number: int, step: int, request: Request },
    Match,
    Decline,
}

impl View for Offer {
    type V = OfferView;

    open spec fn view(&self) -> OfferView {
        match *self {
            Offer::Ask { number, step, request } => OfferView::Ask {
                number: number as int,
                step: step as int,
                request,
            },
            Offer::Match => OfferView::Match,
            Offer::Decline => OfferView::Decline,
        }
    }
}

/// One thing that a matcher checks of a device.
pub enum Check {
    /// The block flags include this one.
    Flag(u32),
    /// The content has this format.
    Format(DiskFormat),
    /// The partition has this label.
    Label(Seq<char>),
    /// The partition has this type GUID.
    TypeGuid(Seq<u8>),
}

impl Check {
    /// What to ask for in order to check.
    pub open spec fn query(self) -> Request {
        match self {
            Check::Flag(_) => Request::BlockInfo,
            Check::Format(_) => Request::ContentFormat,
            Check::Label(_) => Request::PartitionLabel,
            Check::TypeGuid(_) => Request::PartitionType,
        }
    }

    /// The answer shows what was to be checked.
    pub open spec fn passes(self, answer: Answer) -> bool {
        match self {
            Check::Flag(flag) => answer matches Answer::BlockInfo(info) && info.flags & flag
                == flag,
            Check::Format(format) => answer == Answer::ContentFormat(format),
            Check::Label(label) => answer matches Answer::PartitionLabel(found) && found@ == label,
            Check::TypeGuid(guid) => answer matches Answer::PartitionType(found) && found@ == guid,
        }
    }
}

pub struct PartitionMapModel {
    pub content_format: DiskFormat,
    pub allow_multiple: bool,
    pub driver_path: &'static str,
    pub path_suffix: Seq<char>,
    pub ramdisk_required: Option<Seq<char>>,
    pub device_paths: Seq<Seq<char>>,
    pub child_matchers: Seq<MatcherModel>,
}

pub enum MatcherModel {
    Bootpart,
    Nand,
    PartitionMap(PartitionMapModel),
    /// Matches a partition by label and type, then has `effect` done to it.
    Partition { label: Seq<char>, type_guid: Seq<u8>, effect: Option<Request> },
}

impl MatcherModel {
    /// The matcher has something done to the devices that it takes, and so have its child
    /// matchers. A partition map that is not to match several devices has matched at most one.
    pub open spec fn wf(self) -> bool
        decreases self,
    {
        &&& self.effect() matches Some(effect) && effect.is_effect()
        &&& self matches MatcherModel::PartitionMap(map) ==> {
            &&& map.allow_multiple || map.device_paths.len() <= 1
            &&& forall|i: int|
                0 <= i < map.child_matchers.len() ==> (#[trigger] map.child_matchers[i]).wf()
        }
    }

    /// The matcher looks into a device like `d`, going by what is known without asking.
    pub open spec fn admits(self, d: DeviceView) -> bool {
        match self {
            MatcherModel::Bootpart => true,
            MatcherModel::Nand => d.nand,
            MatcherModel::PartitionMap(map) => {
                &&& map.allow_multiple || map.device_paths.len() == 0
                &&& map.ramdisk_required matches Some(prefix) ==> prefix.is_prefix_of(d.path)
            },
            MatcherModel::Partition { .. } => true,
        }
    }

    /// What it checks, in this order, declining at the first check that does not pass.
    pub open spec fn checks(self) -> Seq<Check> {
        match self {
            MatcherModel::Bootpart => seq![Check::Flag(FLAG_BOOTPART)],
            MatcherModel::Nand => seq![],
            MatcherModel::PartitionMap(map) => seq![Check::Format(map.content_format)],
            MatcherModel::Partition { label, type_guid, .. } => seq![
                Check::Label(label),
                Check::TypeGuid(type_guid),
            ],
        }
    }

    /// What it has the environment do to a device that passed every check.
    pub open spec fn effect(self) -> Option<Request> {
        match self {
            MatcherModel::Bootpart => Some(Request::AttachDriver(BOOTPART_DRIVER_PATH)),
            MatcherModel::Nand => Some(Request::AttachDriver(NAND_BROKER_DRIVER_PATH)),
            MatcherModel::PartitionMap(map) => Some(Request::AttachDriver(map.driver_path)),
            MatcherModel::Partition { effect, .. } => effect,
        }
    }

    /// How many requests it takes to match a device.
    pub open spec fn steps(self) -> nat {
        self.checks().len() + if self.effect() is Some { 1nat } else { 0nat }
    }

    /// Request number `step`: the checks come first, the effect last.
    pub open spec fn request(self, step: int) -> Request {
        if step < self.checks().len() {
            self.checks()[step].query()
        } else {
            self.effect()->0
        }
    }

    /// What it does once the first `step` requests are behind it.
    pub open spec fn stage(self, step: int) -> Action {
        if step < self.steps() {
            Action::Ask(self.request(step))
        } else {
            Action::Match
        }
    }

    /// `event` can happen to the matcher.
    pub open spec fn expects(self, event: Event) -> bool {
        match event {
            Event::Appeared => true,
            Event::Answered(step, answer) => step < self.steps() && self.request(
                step as int,
            ).answered_by(answer),
        }
    }

    /// What it does about `event`.
    pub open spec fn reaction(self, d: DeviceView, event: Event) -> Action {
        match event {
            Event::Appeared => if self.admits(d) {
                self.stage(0)
            } else {
                Action::Decline
            },
            Event::Answered(step, answer) => if step < self.checks().len()
                && !self.checks()[step as int].passes(answer) {
                Action::Decline
            } else {
                self.stage(step + 1)
            },
        }
    }

    /// The matcher once it has done `action` for the device at `path`: a partition map keeps the
    /// paths of the devices that it matched.
    pub open spec fn after(self, path: Seq<char>, action: Action) -> MatcherModel {
        match (self, action) {
            (MatcherModel::PartitionMap(map), Action::Match) => MatcherModel::PartitionMap(
                PartitionMapModel { device_paths: map.device_paths.push(path), ..map },
            ),
            _ => self,
        }
    }

    /// The matcher offers the device at `path` to its child matchers, given that it matched the
    /// one at `parent`.
    pub open spec fn adopts(self, path: Seq<char>, parent: Seq<char>) -> bool {
        match self {
            MatcherModel::PartitionMap(map) => crate::text::is_partition_of(
                path,
                parent,
                map.path_suffix,
            ),
            _ => false,
        }
    }

    pub open spec fn children(self) -> Seq<MatcherModel> {
        match self {
            MatcherModel::PartitionMap(map) => map.child_matchers,
            _ => seq![],
        }
    }

    /// `event` can happen to child matcher `child`, for the device at `path` below `parent`.
    pub open spec fn expects_child(
        self,
        path: Seq<char>,
        parent: Seq<char>,
        child: int,
        event: Event,
    ) -> bool {
        event is Answered ==> {
            &&& self.adopts(path, parent)
            &&& 0 <= child < self.children().len()
            &&& self.children()[child].expects(event)
        }
    }

    /// What the matcher does about `event` at child matcher `child`.
    pub open spec fn child_reaction(
        self,
        d: DeviceView,
        parent: Seq<char>,
        child: int,
        event: Event,
    ) -> OfferView {
        if self.adopts(d.path, parent) {
            round(self.children(), d, child, event)
        } else {
            OfferView::Decline
        }
    }

    /// The matcher once its child matcher `child` has answered the device at `path` with `offer`.
    pub open spec fn child_after(
        self,
        path: Seq<char>,
        child: int,
        offer: OfferView,
    ) -> MatcherModel {
        match self {
            MatcherModel::PartitionMap(map) => MatcherModel::PartitionMap(
                PartitionMapModel {
                    child_matchers: round_after(map.child_matchers, path, child, offer),
                    ..map
                },
            ),
            _ => self,
        }
    }
}

/// The device is offered to `matchers` in turn, from number `from` on.
pub open spec fn offer_from(matchers: Seq<MatcherModel>, d: DeviceView, from: int) -> OfferView {
    match first_admitting(matchers, d, from) {
        Some(number) => OfferView::Ask { number, step: 0, request: matchers[number].request(0) },
        None => OfferView::Decline,
    }
}

/// What `matchers` do about `event` at matcher `number`: when that one declines, the device is
/// offered to those behind it.
pub open spec fn round(
    matchers: Seq<MatcherModel>,
    d: DeviceView,
    number: int,
    event: Event,
) -> OfferView {
    match event {
        Event::Appeared => offer_from(matchers, d, number),
        Event::Answered(step, _) => match matchers[number].reaction(d, event) {
            Action::Ask(request) => OfferView::Ask { number, step: step + 1, request },
            Action::Match => OfferView::Match,
            Action::Decline => offer_from(matchers, d, number + 1),
        },
    }
}

/// The matchers once matcher `number` has answered the device at `path` with `offer`.
pub open spec fn round_after(
    matchers: Seq<MatcherModel>,
    path: Seq<char>,
    number: int,
    offer: OfferView,
) -> Seq<MatcherModel> {
    if offer is Match {
        matchers.update(number, matchers[number].after(path, Action::Match))
    } else {
        matchers
    }
}

/// The first of `matchers`, from number `from` on, that admits `d`.
pub open spec fn first_admitting(matchers: Seq<MatcherModel>, d: DeviceView, from: int) -> Option<
    int,
>
    decreases matchers.len() - from,
{
    if from >= matchers.len() {
        None
    } else if matchers[from].admits(d) {
        Some(from)
    } else {
        first_admitting(matchers, d, from + 1)
    }
}

/// A request that comes of `event` is one of a matcher that admits the device, and the one that
/// the matcher makes at that step.
pub proof fn lemma_round_asks(
    matchers: Seq<MatcherModel>,
    d: DeviceView,
    number: int,
    event: Event,
)
    requires
        0 <= number,
        event is Answered ==> number < matchers.len() && matchers[number].admits(d)
            && matchers[number].expects(event),
    ensures
        round(matchers, d, number, event) matches OfferView::Ask { number: n, step, request } ==> {
            &&& number <= n < matchers.len()
            &&& matchers[n].admits(d)
            &&& 0 <= step < matchers[n].steps()
            &&& request == matchers[n].request(step)
        },
{
    lemma_first_admitting(matchers, d, number);
    lemma_first_admitting(matchers, d, number + 1);
}

/// `first_admitting` finds the least number at which a matcher admits the device.
pub proof fn lemma_first_admitting(matchers: Seq<MatcherModel>, d: DeviceView, from: int)
    requires
        0 <= from,
    ensures
        match first_admitting(matchers, d, from) {
            Some(n) => {
                &&& from <= n < matchers.len()
                &&& matchers[n].admits(d)
                &&& forall|i: int| from <= i < n ==> !(#[trigger] matchers[i]).admits(d)
            },
            None => forall|i: int| from <= i < matchers.len() ==> !(#[trigger] matchers[i]).admits(
                d,
            ),
        },
    decreases matchers.len() - from,
{
    if from < matchers.len() && !matchers[from].admits(d) {
        lemma_first_admitting(matchers, d, from + 1);
    }
}

} // verus!
