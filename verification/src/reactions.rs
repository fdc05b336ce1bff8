//! What each kind of matcher makes of what a device says.
use crate::constants::{BOOTPART_DRIVER_PATH, FLAG_BOOTPART, NAND_BROKER_DRIVER_PATH};
use crate::device::{Answer, BlockInfo, DeviceView, DiskFormat, Request};
use crate::model::{
    lemma_first_admitting, Action, Event, MatcherModel, OfferView, PartitionMapModel,
};
use crate::text::{is_partition_of, law_partition_form_is_recognised};
use vstd::prelude::*;

verus! {

/// A boot partition is known by one flag, whatever the others are: a device with that flag gets
/// the driver, one without it is declined.
pub proof fn law_boot_flag_decides(d: DeviceView, flags: u32)
    ensures
        ({
            let boot = MatcherModel::Bootpart;
            let with = Event::Answered(
                0,
                Answer::BlockInfo(BlockInfo { flags: flags | FLAG_BOOTPART }),
            );
            let without = Event::Answered(
                0,
                Answer::BlockInfo(BlockInfo { flags: flags & !FLAG_BOOTPART }),
            );
            let done = Event::Answered(1, Answer::Done);
            &&& boot.reaction(d, Event::Appeared) == Action::Ask(Request::BlockInfo)
            &&& boot.expects(with) && boot.expects(without) && boot.expects(done)
            &&& boot.reaction(d, with) == Action::Ask(Request::AttachDriver(BOOTPART_DRIVER_PATH))
            &&& boot.reaction(d, without) == Action::Decline
            &&& boot.reaction(d, done) == Action::Match
        }),
        FLAG_BOOTPART == 0x4,
{
    assert((flags | 0x4u32) & 0x4u32 == 0x4u32) by (bit_vector);
    assert((flags & !0x4u32) & 0x4u32 != 0x4u32) by (bit_vector);
}

/// A Nand device gets its driver without being asked anything, every other device is declined.
pub proof fn law_nand_decides(d: DeviceView)
    ensures
        ({
            let nand = MatcherModel::Nand;
            let done = Event::Answered(0, Answer::Done);
            &&& d.nand ==> nand.reaction(d, Event::Appeared) == Action::Ask(
                Request::AttachDriver(NAND_BROKER_DRIVER_PATH),
            )
            &&& !d.nand ==> nand.reaction(d, Event::Appeared) == Action::Decline
            &&& nand.expects(done)
            &&& nand.reaction(d, done) == Action::Match
        }),
{
}

/// A partition map goes by the content format alone: the device gets the driver exactly if it has
/// the format that is looked for. It is asked for it exactly if the map may still take a device
/// and the device is on the ramdisk that the map is to be on.
pub proof fn law_format_decides(map: PartitionMapModel, d: DeviceView, format: DiskFormat)
    ensures
        ({
            let matcher = MatcherModel::PartitionMap(map);
            let answered = Event::Answered(0, Answer::ContentFormat(format));
            let done = Event::Answered(1, Answer::Done);
            let full = !map.allow_multiple && map.device_paths.len() > 0;
            let elsewhere = map.ramdisk_required matches Some(prefix) && !(prefix.len()
                <= d.path.len() && d.path.take(prefix.len() as int) == prefix);
            &&& full || elsewhere ==> matcher.reaction(d, Event::Appeared) == Action::Decline
            &&& !full && !elsewhere ==> matcher.reaction(d, Event::Appeared) == Action::Ask(
                Request::ContentFormat,
            )
            &&& matcher.expects(answered) && matcher.expects(done)
            &&& format == map.content_format ==> matcher.reaction(d, answered) == Action::Ask(
                Request::AttachDriver(map.driver_path),
            )
            &&& format != map.content_format ==> matcher.reaction(d, answered) == Action::Decline
            &&& matcher.reaction(d, done) == Action::Match
        }),
{
    if let Some(prefix) = map.ramdisk_required {
        if prefix.len() <= d.path.len() {
            assert(d.path.take(prefix.len() as int) =~= d.path.subrange(0, prefix.len() as int));
        }
    }
}

/// A partition is known by its label and its type together, each the very same as the one that is
/// looked for: only then is the effect asked for, and the type is not asked for unless the label
/// is the right one.
pub proof fn law_label_and_type_decide(
    label: Seq<char>,
    type_guid: Seq<u8>,
    effect: Option<Request>,
    d: DeviceView,
    found: String,
    found_type: [u8; 16],
)
    requires
        effect matches Some(request) ==> request.is_effect(),
    ensures
        ({
            let matcher = MatcherModel::Partition { label, type_guid, effect };
            let named = Event::Answered(0, Answer::PartitionLabel(found));
            let typed = Event::Answered(1, Answer::PartitionType(found_type));
            let done = Event::Answered(2, Answer::Done);
            &&& matcher.reaction(d, Event::Appeared) == Action::Ask(Request::PartitionLabel)
            &&& matcher.expects(named) && matcher.expects(typed)
            &&& found@ == label ==> matcher.reaction(d, named) == Action::Ask(
                Request::PartitionType,
            )
            &&& found@ != label ==> matcher.reaction(d, named) == Action::Decline
            &&& found_type@ != type_guid ==> matcher.reaction(d, typed) == Action::Decline
            &&& found_type@ == type_guid ==> matcher.reaction(d, typed) == match effect {
                Some(request) => Action::Ask(request),
                None => Action::Match,
            }
            &&& effect is Some ==> matcher.expects(done) && matcher.reaction(d, done)
                == Action::Match
        }),
{
}

/// Only a partition map changes, and only by a match: it adds the path of the device to those that
/// it holds.
pub proof fn law_match_is_held(matcher: MatcherModel, path: Seq<char>, action: Action)
    ensures
        ({
            let after = matcher.after(path, action);
            &&& !(matcher is PartitionMap) || !(action is Match) ==> after == matcher
            &&& action is Match ==> (matcher matches MatcherModel::PartitionMap(map) ==> (
            after matches MatcherModel::PartitionMap(now) && {
                &&& now.device_paths == map.device_paths + seq![path]
                &&& now.content_format == map.content_format
                &&& now.allow_multiple == map.allow_multiple
                &&& now.driver_path == map.driver_path
                &&& now.path_suffix == map.path_suffix
                &&& now.ramdisk_required == map.ramdisk_required
                &&& now.child_matchers == map.child_matchers
            }))
        }),
{
    if let MatcherModel::PartitionMap(map) = matcher {
        assert(map.device_paths.push(path) =~= map.device_paths + seq![path]);
    }
}

/// A partition map offers its partitions to its child matchers, whatever their parent and their
/// name, and so does no other matcher.
pub proof fn law_partitions_are_adopted(
    matcher: MatcherModel,
    parent: Seq<char>,
    name: Seq<char>,
)
    requires
        !name.contains('/'),
    ensures
        matcher matches MatcherModel::PartitionMap(map) ==> matcher.adopts(
            parent + map.path_suffix + "/"@ + name + "/block"@,
            parent,
        ),
        !(matcher is PartitionMap) ==> forall|path: Seq<char>| !#[trigger] matcher.adopts(
            path,
            parent,
        ),
{
    if let MatcherModel::PartitionMap(map) = matcher {
        law_partition_form_is_recognised(parent, map.path_suffix, name);
    }
}

/// A device of another form is declined without asking it anything, and changes nothing.
pub proof fn law_other_children_are_declined(
    matcher: MatcherModel,
    d: DeviceView,
    parent: Seq<char>,
    child: int,
)
    requires
        matcher matches MatcherModel::PartitionMap(map) ==> !is_partition_of(
            d.path,
            parent,
            map.path_suffix,
        ),
    ensures
        matcher.child_reaction(d, parent, child, Event::Appeared) == OfferView::Decline,
        matcher.child_after(d.path, child, OfferView::Decline) == matcher,
{
}

/// The child matchers are offered a partition in turn: the first that does not decline it has its
/// request made, those before it decline.
pub proof fn law_children_in_turn(
    map: PartitionMapModel,
    d: DeviceView,
    parent: Seq<char>,
    name: Seq<char>,
    from: int,
)
    requires
        !name.contains('/'),
        d.path == parent + map.path_suffix + "/"@ + name + "/block"@,
        0 <= from,
    ensures
        match MatcherModel::PartitionMap(map).child_reaction(d, parent, from, Event::Appeared) {
            OfferView::Ask { number, step, request } => {
                &&& from <= number < map.child_matchers.len()
                &&& step == 0
                &&& map.child_matchers[number].reaction(d, Event::Appeared) == Action::Ask(request)
                &&& forall|i: int|
                    from <= i < number ==> (#[trigger] map.child_matchers[i]).reaction(
                        d,
                        Event::Appeared,
                    ) == Action::Decline
            },
            OfferView::Match => false,
            OfferView::Decline => forall|i: int|
                from <= i < map.child_matchers.len() ==> (
                #[trigger] map.child_matchers[i]).reaction(d, Event::Appeared) == Action::Decline,
        },
{
    law_partition_form_is_recognised(parent, map.path_suffix, name);
    lemma_first_admitting(map.child_matchers, d, from);
}

/// An answer goes to the child matcher that asked: it makes its next request or takes the device,
/// or else the device is offered to the next child matcher. A match changes that child matcher
/// alone, and nothing else does.
pub proof fn law_child_is_answered(
    map: PartitionMapModel,
    d: DeviceView,
    parent: Seq<char>,
    name: Seq<char>,
    child: int,
    step: usize,
    answer: Answer,
)
    requires
        !name.contains('/'),
        d.path == parent + map.path_suffix + "/"@ + name + "/block"@,
        0 <= child < map.child_matchers.len(),
        map.child_matchers[child].expects(Event::Answered(step, answer)),
    ensures
        ({
            let matcher = MatcherModel::PartitionMap(map);
            let event = Event::Answered(step, answer);
            let offer = matcher.child_reaction(d, parent, child, event);
            let after = matcher.child_after(d.path, child, offer);
            &&& matcher.expects_child(d.path, parent, child, event)
            &&& match map.child_matchers[child].reaction(d, event) {
                Action::Ask(request) => offer == (OfferView::Ask {
                    number: child,
                    step: step + 1,
                    request,
                }),
                Action::Match => offer == OfferView::Match,
                Action::Decline => offer == matcher.child_reaction(
                    d,
                    parent,
                    child + 1,
                    Event::Appeared,
                ),
            }
            &&& !(offer is Match) ==> after == matcher
            &&& offer is Match ==> after == MatcherModel::PartitionMap(
                PartitionMapModel {
                    child_matchers: map.child_matchers.update(
                        child,
                        map.child_matchers[child].after(d.path, Action::Match),
                    ),
                    ..map
                },
            )
        }),
{
    law_partition_form_is_recognised(parent, map.path_suffix, name);
}

} // verus!
