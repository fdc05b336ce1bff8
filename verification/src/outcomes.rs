//! What is done to a device, told from the configuration, the devices that appeared before, and
//! what the device says of itself.
use crate::config::{
    first_volume, law_configured_filesystems, law_configured_is_there, lemma_configured,
    lemma_filesystems, Config,
};
use crate::constants::{
    BLOBFS_PARTITION_LABEL, BLOBFS_TYPE_GUID, BOOTPART_DRIVER_PATH, DATA_PARTITION_LABEL,
    DATA_TYPE_GUID, FLAG_BOOTPART, FVM_DRIVER_PATH, GPT_DRIVER_PATH, NAND_BROKER_DRIVER_PATH,
};
use crate::device::{Answer, DeviceView, DiskFormat, Request};
use crate::dialogue::{below, globally, interview, lemma_offered, lemma_progress, try_device};
use crate::history::{law_initial_matchers, law_ramdisk_is_kept};
use crate::laws::{
    law_first_in_order_decides, law_one_effect, law_search_finds_taker, law_taken_device_passed,
};
use crate::matched::{is_ancestor, law_ancestors_nearest_first};
use crate::model::{Check, Event, MatcherModel};
use crate::runs::{
    law_map_holds_what_it_took, law_record_stands, law_run_keeps, lemma_attaching_matcher,
    lemma_drivers_differ, lemma_first_taken, lemma_matched_was_taken, lemma_single_map_in_run,
    lemma_volume_matcher, Encounter,
};
use crate::search::{lemma_parents_in_range, MatchersModel, Outcome, PlaceView, SearchView};
use crate::text::{
    is_component, is_partition_of, law_partition_form_is_recognised, law_partition_has_one_parent,
    partition_path,
};
use vstd::prelude::*;

verus! {

/// The path of the partition `name` of the FVM at `parent`.
pub open spec fn volume_path(parent: Seq<char>, name: Seq<char>) -> Seq<char> {
    parent + "/fvm/"@ + name + "/block"@
}

impl MatchersModel {
    /// The replies that the matchers get about `d` are its answers to what they ask, whichever of
    /// them asks, and are of the kinds that are asked for.
    pub open spec fn hears<E>(
        self,
        d: DeviceView,
        replies: spec_fn(PlaceView, int) -> Result<Answer, E>,
        answers: spec_fn(Request) -> Result<Answer, E>,
    ) -> bool {
        &&& forall|request: Request|
            #[trigger] answers(request) matches Ok(answer) ==> request.answered_by(answer)
        &&& forall|place: PlaceView, step: int|
            {
                let s = SearchView { device: d, parents: self.parents(d), place, step };
                s.fits(self) ==> #[trigger] replies(place, step) == answers(
                    s.matcher(self).request(step),
                )
            }
    }

    /// What the search for a matcher for `d` asks of the device and of the environment.
    pub open spec fn asked<E>(
        self,
        d: DeviceView,
        replies: spec_fn(PlaceView, int) -> Result<Answer, E>,
    ) -> Seq<Request> {
        self.requests(d, self.parents(d), replies, self.start(d))
    }

    /// What was done to the device in the end, if a matcher took it, or the failure.
    pub open spec fn done<E>(
        self,
        d: DeviceView,
        replies: spec_fn(PlaceView, int) -> Result<Answer, E>,
    ) -> Result<Option<Request>, E> {
        match self.conclude(d, self.parents(d), replies, self.start(d)) {
            Ok(Some(_)) => Ok(Some(self.asked(d, replies).last())),
            Ok(None) => Ok(None),
            Err(error) => Err(error),
        }
    }
}

/// The request is made, and the device is taken if it does not fail.
pub open spec fn if_done<E>(
    answers: spec_fn(Request) -> Result<Answer, E>,
    request: Request,
) -> Result<Option<Request>, E> {
    match answers(request) {
        Ok(_) => Ok(Some(request)),
        Err(error) => Err(error),
    }
}

/// Whether a matcher takes a device with these answers.
spec fn told<E>(
    matcher: MatcherModel,
    d: DeviceView,
    answers: spec_fn(Request) -> Result<Answer, E>,
) -> Result<bool, E> {
    try_device(matcher, d, |step: int| answers(matcher.request(step)))
}

proof fn lemma_interviews_agree<E>(
    matcher: MatcherModel,
    some: spec_fn(int) -> Result<Answer, E>,
    other: spec_fn(int) -> Result<Answer, E>,
    step: int,
)
    requires
        0 <= step,
        forall|k: int| 0 <= k < matcher.steps() ==> #[trigger] some(k) == other(k),
    ensures
        interview(matcher, some, step) == interview(matcher, other, step),
    decreases matcher.steps() - step,
{
    if step < matcher.steps() {
        assert(some(step) == other(step));
        lemma_interviews_agree(matcher, some, other, step + 1);
    }
}

/// What the matcher at a place makes of the device is what it makes of the answers.
proof fn lemma_try_at<E>(
    m: MatchersModel,
    d: DeviceView,
    replies: spec_fn(PlaceView, int) -> Result<Answer, E>,
    answers: spec_fn(Request) -> Result<Answer, E>,
    place: PlaceView,
)
    requires
        m.wf(),
        m.hears(d, replies, answers),
        m.offers(d, m.parents(d), place),
    ensures
        m.try_at(d, m.parents(d), replies, place) == told(
            m.search_at(d, place).matcher(m),
            d,
            answers,
        ),
{
    let parents = m.parents(d);
    let matcher = m.search_at(d, place).matcher(m);
    lemma_parents_in_range(m, d.path, d.path.len());
    let other = |step: int| answers(matcher.request(step));
    let some = match place {
        PlaceView::Child { parent, child } => below(replies, parent)(child),
        PlaceView::Global { index } => globally(replies)(index),
    };
    if matcher.admits(d) {
        assert forall|k: int| 0 <= k < matcher.steps() implies #[trigger] some(k) == other(k) by {
            let s = SearchView { device: d, parents, place, step: k };
            assert(s.fits(m));
            assert(some(k) == replies(place, k));
        }
        lemma_interviews_agree(matcher, some, other, 0);
    }
}

proof fn lemma_suits<E>(
    m: MatchersModel,
    d: DeviceView,
    replies: spec_fn(PlaceView, int) -> Result<Answer, E>,
    answers: spec_fn(Request) -> Result<Answer, E>,
)
    requires
        m.hears(d, replies, answers),
    ensures
        m.suits(d, m.parents(d), replies),
{
    let parents = m.parents(d);
    assert forall|place: PlaceView, step: int|
        {
            let s = SearchView { device: d, parents, place, step };
            s.fits(m) ==> (#[trigger] replies(place, step) matches Ok(answer) ==> s.matcher(
                m,
            ).request(step).answered_by(answer))
        } by {
        let s = SearchView { device: d, parents, place, step };
        if s.fits(m) {
            let request = s.matcher(m).request(step);
            assert(replies(place, step) == answers(request));
        }
    }
}

/// Of two places one comes before the other.
proof fn lemma_places_in_order(p: PlaceView, q: PlaceView)
    ensures
        p == q || p.comes_before(q) || q.comes_before(p),
{
}

/// The matcher at `place` decides if all before it decline and it does not.
proof fn lemma_decides<E>(
    m: MatchersModel,
    d: DeviceView,
    replies: spec_fn(PlaceView, int) -> Result<Answer, E>,
    answers: spec_fn(Request) -> Result<Answer, E>,
    place: PlaceView,
)
    requires
        m.wf(),
        m.hears(d, replies, answers),
        m.offers(d, m.parents(d), place),
        told(m.search_at(d, place).matcher(m), d, answers) != Ok::<bool, E>(false),
        forall|p: PlaceView| #[trigger]
            m.offers(d, m.parents(d), p) && p.comes_before(place) ==> told(
                m.search_at(d, p).matcher(m),
                d,
                answers,
            ) == Ok::<bool, E>(false),
    ensures
        m.done(d, replies) == match told(m.search_at(d, place).matcher(m), d, answers) {
            Ok(_) => Ok(m.search_at(d, place).matcher(m).effect()),
            Err(error) => Err(error),
        },
        m.taker(d, replies) == match told(m.search_at(d, place).matcher(m), d, answers) {
            Ok(_) => Ok(Some(place)),
            Err(error) => Err(error),
        },
{
    let parents = m.parents(d);
    lemma_suits(m, d, replies, answers);
    law_search_finds_taker(m, d, replies);
    law_one_effect(m, d, replies);
    law_first_in_order_decides(m, d, replies);
    lemma_try_at(m, d, replies, answers, place);
    assert forall|p: PlaceView| #[trigger]
        m.offers(d, parents, p) && p.comes_before(place) implies m.try_at(d, parents, replies, p)
        == Ok::<bool, E>(false) by {
        lemma_try_at(m, d, replies, answers, p);
    }
    match m.taker(d, replies) {
        Ok(Some(p)) => {
            lemma_places_in_order(p, place);
        },
        Ok(None) => {},
        Err(error) => {
            let p = choose|p: PlaceView| #[trigger]
                m.falls_to(d, parents, replies, p) && m.try_at(d, parents, replies, p) == Err::<
                    bool,
                    E,
                >(error);
            lemma_places_in_order(p, place);
        },
    }
}

/// Nothing is done if all decline.
proof fn lemma_all_decline<E>(
    m: MatchersModel,
    d: DeviceView,
    replies: spec_fn(PlaceView, int) -> Result<Answer, E>,
    answers: spec_fn(Request) -> Result<Answer, E>,
)
    requires
        m.wf(),
        m.hears(d, replies, answers),
        forall|p: PlaceView| #[trigger]
            m.offers(d, m.parents(d), p) ==> told(m.search_at(d, p).matcher(m), d, answers) == Ok::<
                bool,
                E,
            >(false),
    ensures
        m.done(d, replies) == Ok::<Option<Request>, E>(None),
{
    let parents = m.parents(d);
    lemma_suits(m, d, replies, answers);
    law_search_finds_taker(m, d, replies);
    law_first_in_order_decides(m, d, replies);
    assert forall|p: PlaceView| #[trigger] m.offers(d, parents, p) implies m.try_at(
        d,
        parents,
        replies,
        p,
    ) == Ok::<bool, E>(false) by {
        lemma_try_at(m, d, replies, answers, p);
    }
}

/// What each kind of matcher makes of the answers.
proof fn lemma_told<E>(
    matcher: MatcherModel,
    d: DeviceView,
    answers: spec_fn(Request) -> Result<Answer, E>,
)
    ensures
        match matcher {
            MatcherModel::Bootpart => told(matcher, d, answers) == match answers(
                Request::BlockInfo,
            ) {
                Err(error) => Err(error),
                Ok(answer) => if answer matches Answer::BlockInfo(info) && info.flags
                    & FLAG_BOOTPART != 0 {
                    match answers(Request::AttachDriver(BOOTPART_DRIVER_PATH)) {
                        Err(error) => Err(error),
                        Ok(_) => Ok(true),
                    }
                } else {
                    Ok(false)
                },
            },
            MatcherModel::Nand => told(matcher, d, answers) == if d.nand {
                match answers(Request::AttachDriver(NAND_BROKER_DRIVER_PATH)) {
                    Err(error) => Err(error),
                    Ok(_) => Ok(true),
                }
            } else {
                Ok(false)
            },
            MatcherModel::PartitionMap(map) => told(matcher, d, answers) == if matcher.admits(d) {
                match answers(Request::ContentFormat) {
                    Err(error) => Err(error),
                    Ok(answer) => if answer == Answer::ContentFormat(map.content_format) {
                        match answers(Request::AttachDriver(map.driver_path)) {
                            Err(error) => Err(error),
                            Ok(_) => Ok(true),
                        }
                    } else {
                        Ok(false)
                    },
                }
            } else {
                Ok(false)
            },
            MatcherModel::Partition { label, type_guid, effect } => told(matcher, d, answers)
                == match answers(Request::PartitionLabel) {
                Err(error) => Err(error),
                Ok(answer) => if answer matches Answer::PartitionLabel(found) && found@ == label {
                    match answers(Request::PartitionType) {
                        Err(error) => Err(error),
                        Ok(answer) => if answer matches Answer::PartitionType(found) && found@
                            == type_guid {
                            match effect {
                                None => Ok(true),
                                Some(request) => match answers(request) {
                                    Err(error) => Err(error),
                                    Ok(_) => Ok(true),
                                },
                            }
                        } else {
                            Ok(false)
                        },
                    }
                } else {
                    Ok(false)
                },
            },
        },
{
    reveal_with_fuel(interview, 4);
    assert(forall|x: u32| (#[trigger] (x & 0x4u32) == 0x4u32) == (x & 0x4u32 != 0)) by (bit_vector);
}

/// The matchers of a product after the devices of `run`.
pub open spec fn product<E>(config: Config, run: Seq<Encounter<E>>) -> MatchersModel {
    MatchersModel::initial(config).after_run(run)
}

/// A matcher took device number `k` of `run` and attached the driver at `driver_path` to it.
pub open spec fn got_driver<E>(
    config: Config,
    run: Seq<Encounter<E>>,
    k: int,
    driver_path: &'static str,
) -> bool {
    0 <= k < run.len() && MatchersModel::initial(config).attaches(run, k, driver_path)
}

/// A matcher took device number `k` of `run`.
pub open spec fn was_taken<E>(config: Config, run: Seq<Encounter<E>>, k: int) -> bool {
    0 <= k < run.len() && (MatchersModel::initial(config).taker_of(run, k) matches Ok(Some(_)))
}

/// The path of `d` is that of an FVM partition of a device that was taken.
pub open spec fn is_volume<E>(config: Config, run: Seq<Encounter<E>>, d: DeviceView) -> bool {
    exists|k: int, name: Seq<char>|
        was_taken(config, run, k) && !name.contains('/') && d.path == #[trigger] volume_path(
            run[k].device.path,
            name,
        )
}

/// The device is neither blobfs nor data in FVM: it is not in FVM at all, or has another label, or
/// another type.
pub open spec fn is_no_filesystem<E>(
    config: Config,
    run: Seq<Encounter<E>>,
    d: DeviceView,
    answers: spec_fn(Request) -> Result<Answer, E>,
) -> bool {
    ||| !is_volume(config, run, d)
    ||| answers(Request::PartitionLabel) matches Ok(Answer::PartitionLabel(label)) && label@
        != "blobfs"@ && label@ != "data"@
    ||| answers(Request::PartitionLabel) is Ok && (answers(
        Request::PartitionType,
    ) matches Ok(Answer::PartitionType(found)) && found@ != BLOBFS_TYPE_GUID@ && found@
        != DATA_TYPE_GUID@)
}

/// If the product binds boot partitions, the device says that it is none.
pub open spec fn is_no_boot_partition<E>(
    config: Config,
    answers: spec_fn(Request) -> Result<Answer, E>,
) -> bool {
    config.bootpart ==> (answers(Request::BlockInfo) matches Ok(Answer::BlockInfo(info))
        && info.flags & FLAG_BOOTPART == 0)
}

/// The product expects FVM, for itself or for a filesystem.
pub open spec fn wants_fvm(config: Config) -> bool {
    config.fvm || (!config.netboot && (config.blobfs || config.data))
}

/// The matchers of a product stay what they were configured to be.
proof fn lemma_product<E>(config: Config, run: Seq<Encounter<E>>)
    ensures
        product(config, run).wf(),
        MatchersModel::initial(config).wf(),
        MatchersModel::initial(config).becomes(product(config, run)),
        product(config, run).matchers.len() == config.matchers().len(),
{
    law_initial_matchers(config);
    law_run_keeps(MatchersModel::initial(config), run);
}

/// What the child matchers of a product are, and whose.
proof fn lemma_child<E>(config: Config, run: Seq<Encounter<E>>, index: int, child: int)
    requires
        0 <= index < config.matchers().len(),
        0 <= child < product(config, run).matchers[index].children().len(),
    ensures
        ({
            let matcher = product(config, run).matchers[index];
            &&& child < config.matchers()[index].children().len()
            &&& matcher.children()[child] == config.matchers()[index].children()[child]
            &&& matcher matches MatcherModel::PartitionMap(map) && map.path_suffix == "/fvm"@
            &&& matcher.children()[child] matches MatcherModel::Partition {
                label,
                type_guid,
                effect,
            } && {
                ||| label == "blobfs"@ && type_guid == BLOBFS_TYPE_GUID@ && effect == Some(
                    Request::MountBlobfs,
                )
                ||| label == "data"@ && type_guid == DATA_TYPE_GUID@ && (effect == Some(
                    Request::MountData,
                ) || effect == Some(Request::BindZxcrypt))
            }
        }),
{
    let at_first = config.matchers()[index];
    let matcher = product(config, run).matchers[index];
    lemma_product(config, run);
    assert(MatchersModel::initial(config).matchers[index].becomes(matcher));
    lemma_configured(config, index);
    assert(at_first.children()[child].becomes(matcher.children()[child]));
    if at_first.children() == config.filesystems() {
        lemma_filesystems(config, child);
    }
}

/// The path of a partition in FVM has the form that the FVM matchers look for.
proof fn lemma_volume_path(parent: Seq<char>, name: Seq<char>)
    requires
        !name.contains('/'),
    ensures
        is_partition_of(volume_path(parent, name), parent, "/fvm"@),
{
    reveal_strlit("/fvm/");
    reveal_strlit("/fvm");
    reveal_strlit("/");
    law_partition_form_is_recognised(parent, "/fvm"@, name);
    assert(volume_path(parent, name) =~= parent + "/fvm"@ + "/"@ + name + "/block"@);
}

/// A device that is offered to child matchers is a partition in FVM.
proof fn lemma_offered_child<E>(
    config: Config,
    run: Seq<Encounter<E>>,
    d: DeviceView,
    parent: int,
    child: int,
)
    requires
        product(config, run).offers(
            d,
            product(config, run).parents(d),
            PlaceView::Child { parent, child },
        ),
    ensures
        ({
            let parents = product(config, run).parents(d);
            &&& 0 <= parents[parent].1 < config.matchers().len()
            &&& is_partition_of(d.path, parents[parent].0, "/fvm"@)
            &&& is_volume(config, run, d)
        }),
{
    let m = product(config, run);
    let parents = m.parents(d);
    lemma_product(config, run);
    lemma_parents_in_range(m, d.path, d.path.len());
    law_ancestors_nearest_first(m.matched, d.path);
    let above = parents[parent].0;
    lemma_child(config, run, parents[parent].1, child);
    let k = lemma_matched_was_taken(config, run, above);
    let name = choose|name: Seq<char>|
        is_component(name) && d.path == #[trigger] partition_path(
            above,
            "/fvm"@,
            name,
        );
    reveal_strlit("/fvm/");
    reveal_strlit("/fvm");
    reveal_strlit("block");
    reveal_strlit("/block");
    assert(was_taken(config, run, k));
    assert(d.path =~= volume_path(run[k].device.path, name));
}

/// The child matchers decline what is no filesystem.
proof fn lemma_children_decline<E>(
    config: Config,
    run: Seq<Encounter<E>>,
    d: DeviceView,
    answers: spec_fn(Request) -> Result<Answer, E>,
)
    requires
        is_no_filesystem(config, run, d, answers),
    ensures
        forall|parent: int, child: int|
            #![trigger product(config, run).search_at(d, PlaceView::Child { parent, child })]
            product(config, run).offers(
                d,
                product(config, run).parents(d),
                PlaceView::Child { parent, child },
            ) ==> told(
                product(config, run).search_at(d, PlaceView::Child { parent, child }).matcher(
                    product(config, run),
                ),
                d,
                answers,
            ) == Ok::<bool, E>(false),
{
    let m = product(config, run);
    assert forall|parent: int, child: int|
        #![trigger m.search_at(d, PlaceView::Child { parent, child })]
        m.offers(d, m.parents(d), PlaceView::Child { parent, child }) implies told(
        m.search_at(d, PlaceView::Child { parent, child }).matcher(m),
        d,
        answers,
    ) == Ok::<bool, E>(false) by {
        lemma_offered_child(config, run, d, parent, child);
        lemma_child(config, run, m.parents(d)[parent].1, child);
        lemma_told(m.search_at(d, PlaceView::Child { parent, child }).matcher(m), d, answers);
    }
}

/// The matchers themselves decide if those before number `index` decline.
proof fn lemma_matcher_decides<E>(
    config: Config,
    run: Seq<Encounter<E>>,
    d: DeviceView,
    replies: spec_fn(PlaceView, int) -> Result<Answer, E>,
    answers: spec_fn(Request) -> Result<Answer, E>,
    index: int,
)
    requires
        product(config, run).hears(d, replies, answers),
        is_no_filesystem(config, run, d, answers),
        0 <= index <= config.matchers().len(),
        forall|i: int|
            0 <= i < index ==> told(
                #[trigger] product(config, run).matchers[i],
                d,
                answers,
            ) == Ok::<bool, E>(false),
        index < config.matchers().len() ==> told(
            product(config, run).matchers[index],
            d,
            answers,
        ) != Ok::<bool, E>(false),
    ensures
        index == config.matchers().len() ==> product(config, run).done(d, replies) == Ok::<
            Option<Request>,
            E,
        >(None),
        index < config.matchers().len() ==> product(config, run).done(d, replies) == match told(
            product(config, run).matchers[index],
            d,
            answers,
        ) {
            Ok(_) => Ok(product(config, run).matchers[index].effect()),
            Err(error) => Err(error),
        },
{
    let m = product(config, run);
    lemma_product(config, run);
    lemma_children_decline(config, run, d, answers);
    let here = PlaceView::Global { index };
    assert forall|p: PlaceView| #[trigger]
        m.offers(d, m.parents(d), p) && p.comes_before(here) implies told(
        m.search_at(d, p).matcher(m),
        d,
        answers,
    ) == Ok::<bool, E>(false) by {
        match p {
            PlaceView::Child { parent, child } => {
                assert(m.search_at(d, p) == m.search_at(d, PlaceView::Child { parent, child }));
            },
            PlaceView::Global { index: i } => {
                assert(told(m.matchers[i], d, answers) == Ok::<bool, E>(false));
            },
        }
    }
    if index < config.matchers().len() {
        lemma_decides(m, d, replies, answers, here);
    } else {
        lemma_all_decline(m, d, replies, answers);
    }
}

/// What becomes of a configured matcher.
proof fn lemma_now<E>(config: Config, run: Seq<Encounter<E>>, i: int)
    requires
        0 <= i < config.matchers().len(),
    ensures
        config.matchers()[i].becomes(product(config, run).matchers[i]),
{
    lemma_product(config, run);
    assert(MatchersModel::initial(config).matchers[i].becomes(product(config, run).matchers[i]));
}

/// A boot partition gets its driver, whatever else it is, unless it is a filesystem in FVM. When
/// it cannot be asked, the search fails.
pub proof fn law_boot_partition_is_bound<E>(
    config: Config,
    run: Seq<Encounter<E>>,
    d: DeviceView,
    replies: spec_fn(PlaceView, int) -> Result<Answer, E>,
    answers: spec_fn(Request) -> Result<Answer, E>,
)
    requires
        config.bootpart,
        product(config, run).hears(d, replies, answers),
        is_no_filesystem(config, run, d, answers),
    ensures
        answers(Request::BlockInfo) matches Ok(Answer::BlockInfo(info)) ==> (info.flags
            & FLAG_BOOTPART != 0 ==> product(config, run).done(d, replies) == if_done(
            answers,
            Request::AttachDriver(BOOTPART_DRIVER_PATH),
        )),
        answers(Request::BlockInfo) matches Err(error) ==> product(config, run).done(d, replies)
            == Err::<Option<Request>, E>(error),
{
    law_configured_is_there(config);
    lemma_now(config, run, 0);
    let matcher = product(config, run).matchers[0];
    lemma_told(matcher, d, answers);
    if told(matcher, d, answers) != Ok::<bool, E>(false) {
        lemma_matcher_decides(config, run, d, replies, answers, 0);
    }
}

/// A Nand device gets its driver, unless it is a boot partition or a filesystem in FVM.
pub proof fn law_nand_device_is_bound<E>(
    config: Config,
    run: Seq<Encounter<E>>,
    d: DeviceView,
    replies: spec_fn(PlaceView, int) -> Result<Answer, E>,
    answers: spec_fn(Request) -> Result<Answer, E>,
)
    requires
        config.nand,
        d.nand,
        product(config, run).hears(d, replies, answers),
        is_no_filesystem(config, run, d, answers),
        is_no_boot_partition(config, answers),
    ensures
        product(config, run).done(d, replies) == if_done(
            answers,
            Request::AttachDriver(NAND_BROKER_DRIVER_PATH),
        ),
{
    law_configured_is_there(config);
    let index: int = if config.bootpart {
        1
    } else {
        0
    };
    let m = product(config, run);
    lemma_now(config, run, index);
    lemma_now(config, run, 0);
    lemma_told(m.matchers[index], d, answers);
    lemma_told(m.matchers[0], d, answers);
    lemma_matcher_decides(config, run, d, replies, answers, index);
}

/// Of the matchers of a product, those for boot partitions and Nand devices decline others.
proof fn lemma_plain_declined<E>(
    config: Config,
    run: Seq<Encounter<E>>,
    d: DeviceView,
    answers: spec_fn(Request) -> Result<Answer, E>,
    i: int,
)
    requires
        0 <= i < config.matchers().len(),
        is_no_boot_partition(config, answers),
        config.nand ==> !d.nand,
    ensures
        !(product(config, run).matchers[i] is PartitionMap) ==> told(
            product(config, run).matchers[i],
            d,
            answers,
        ) == Ok::<bool, E>(false),
        product(config, run).matchers[i] is PartitionMap <==> config.matchers()[i] is PartitionMap,
{
    lemma_now(config, run, i);
    lemma_configured(config, i);
    lemma_told(product(config, run).matchers[i], d, answers);
}

/// A matcher that took nothing is free.
proof fn lemma_free<E>(
    config: Config,
    run: Seq<Encounter<E>>,
    index: int,
    driver_path: &'static str,
)
    requires
        0 <= index < config.matchers().len(),
        config.matchers()[index] matches MatcherModel::PartitionMap(map) && map.driver_path
            == driver_path,
        forall|k: int| #[trigger]
            got_driver(config, run, k, driver_path) ==> (
            config.matchers()[index].ramdisk() matches Some(prefix) && !prefix.is_prefix_of(
                run[k].device.path,
            )),
    ensures
        product(config, run).matchers[index] matches MatcherModel::PartitionMap(map)
            && map.device_paths.len() == 0,
{
    let at_first = MatchersModel::initial(config);
    let m = product(config, run);
    lemma_now(config, run, index);
    law_map_holds_what_it_took(config, run, index);
    if at_first.takes(run, index).len() > 0 {
        let k = lemma_first_taken(at_first, run, index);
        lemma_now(config, run.take(k), index);
        assert(got_driver(config, run, k, driver_path));
        let paths = m.matchers[index]->PartitionMap_0.device_paths;
        assert(paths[0] == run[k].device.path);
    }
}

/// A GPT device gets the GPT driver if the product binds all of them, or binds one and no device
/// got the driver before; unless it is a boot partition, a Nand device or a filesystem in FVM. No
/// other flag of the product matters. When its format cannot be read, the search fails.
pub proof fn law_gpt_device_is_bound<E>(
    config: Config,
    run: Seq<Encounter<E>>,
    d: DeviceView,
    replies: spec_fn(PlaceView, int) -> Result<Answer, E>,
    answers: spec_fn(Request) -> Result<Answer, E>,
)
    requires
        config.gpt_all || (config.gpt && forall|k: int|
            !#[trigger] got_driver(config, run, k, GPT_DRIVER_PATH)),
        product(config, run).hears(d, replies, answers),
        is_no_filesystem(config, run, d, answers),
        is_no_boot_partition(config, answers),
        config.nand ==> !d.nand,
    ensures
        answers(Request::ContentFormat) == Ok::<Answer, E>(Answer::ContentFormat(DiskFormat::Gpt))
            ==> product(config, run).done(d, replies) == if_done(
            answers,
            Request::AttachDriver(GPT_DRIVER_PATH),
        ),
        answers(Request::ContentFormat) matches Err(error) ==> product(config, run).done(d, replies)
            == Err::<Option<Request>, E>(error),
{
    law_configured_is_there(config);
    let m = product(config, run);
    let n = config.matchers().len();
    let format = answers(Request::ContentFormat);
    if format == Ok::<Answer, E>(Answer::ContentFormat(DiskFormat::Gpt)) || format is Err {
        let single = first_volume(config) - 1;
        if config.gpt && !config.gpt_all {
            lemma_free(config, run, single, GPT_DRIVER_PATH);
        }
        let last: int = if config.gpt_all {
            n - 1
        } else {
            single
        };
        lemma_now(config, run, last);
        lemma_told(m.matchers[last], d, answers);
        let index = lemma_first_taking(config, run, d, answers, last);
        lemma_now(config, run, index);
        lemma_configured(config, index);
        lemma_plain_declined(config, run, d, answers, index);
        lemma_told(m.matchers[index], d, answers);
        lemma_matcher_decides(config, run, d, replies, answers, index);
    }
}

/// The first matcher, up to number `last`, that does not decline.
proof fn lemma_first_taking<E>(
    config: Config,
    run: Seq<Encounter<E>>,
    d: DeviceView,
    answers: spec_fn(Request) -> Result<Answer, E>,
    last: int,
) -> (index: int)
    requires
        0 <= last < config.matchers().len(),
        told(product(config, run).matchers[last], d, answers) != Ok::<bool, E>(false),
    ensures
        0 <= index <= last,
        told(product(config, run).matchers[index], d, answers) != Ok::<bool, E>(false),
        forall|i: int|
            0 <= i < index ==> told(
                #[trigger] product(config, run).matchers[i],
                d,
                answers,
            ) == Ok::<bool, E>(false),
    decreases last,
{
    let m = product(config, run);
    if exists|i: int|
        0 <= i < last && told(#[trigger] m.matchers[i], d, answers) != Ok::<bool, E>(false) {
        let i = choose|i: int|
            0 <= i < last && told(#[trigger] m.matchers[i], d, answers) != Ok::<bool, E>(false);
        lemma_first_taking(config, run, d, answers, i)
    } else {
        last
    }
}

/// A product that may bind one FVM device has bound one; or, with a ramdisk, has bound two, or one
/// that was not on the ramdisk, as `d` is not.
pub open spec fn no_volume_is_free<E>(
    config: Config,
    run: Seq<Encounter<E>>,
    d: DeviceView,
) -> bool {
    let prefix = config.ramdisk_prefix@;
    ||| !config.fvm_ramdisk && exists|k: int| #[trigger]
        got_driver(config, run, k, FVM_DRIVER_PATH)
    ||| exists|j: int, k: int| #[trigger]
        got_driver(config, run, j, FVM_DRIVER_PATH) && #[trigger] got_driver(
            config,
            run,
            k,
            FVM_DRIVER_PATH,
        ) && j < k
    ||| !prefix.is_prefix_of(d.path) && exists|k: int| #[trigger]
        got_driver(config, run, k, FVM_DRIVER_PATH) && !prefix.is_prefix_of(run[k].device.path)
}

/// Where no matcher for FVM is free, each declines the device.
proof fn lemma_volumes_declined<E>(config: Config, run: Seq<Encounter<E>>, d: DeviceView, i: int)
    requires
        0 <= i < config.matchers().len(),
        no_volume_is_free(config, run, d),
        config.matchers()[i] matches MatcherModel::PartitionMap(map) && map.content_format
            == DiskFormat::Fvm,
    ensures
        !product(config, run).matchers[i].admits(d),
{
    let prefix = config.ramdisk_prefix@;
    lemma_configured(config, i);
    lemma_now(config, run, i);
    if exists|j: int, k: int| #[trigger]
        got_driver(config, run, j, FVM_DRIVER_PATH) && #[trigger] got_driver(
            config,
            run,
            k,
            FVM_DRIVER_PATH,
        ) && j < k {
        let (j, k): (int, int) = choose|j: int, k: int| #[trigger]
            got_driver(config, run, j, FVM_DRIVER_PATH) && #[trigger] got_driver(
                config,
                run,
                k,
                FVM_DRIVER_PATH,
            ) && j < k;
        let a = lemma_volume_matcher(config, run, j);
        let b = lemma_volume_matcher(config, run, k);
        law_initial_matchers(config);
        lemma_single_map_in_run(MatchersModel::initial(config), run, j, k, a);
        lemma_used(config, run, a, j);
        lemma_used(config, run, b, k);
    } else if !config.fvm_ramdisk {
        let k = choose|k: int| #[trigger] got_driver(config, run, k, FVM_DRIVER_PATH);
        let a = lemma_volume_matcher(config, run, k);
        lemma_used(config, run, a, k);
    } else {
        let k = choose|k: int| #[trigger]
            got_driver(config, run, k, FVM_DRIVER_PATH) && !prefix.is_prefix_of(
                run[k].device.path,
            );
        let a = lemma_volume_matcher(config, run, k);
        lemma_used(config, run, a, k);
    }
}

/// A device that is no boot partition, no Nand device, no filesystem in FVM, and has neither GPT
/// nor FVM on it is declined. So is one with GPT or FVM on it if the product binds no such device
/// or has already bound all that it may.
pub proof fn law_other_device_is_declined<E>(
    config: Config,
    run: Seq<Encounter<E>>,
    d: DeviceView,
    replies: spec_fn(PlaceView, int) -> Result<Answer, E>,
    answers: spec_fn(Request) -> Result<Answer, E>,
    format: DiskFormat,
)
    requires
        product(config, run).hears(d, replies, answers),
        is_no_filesystem(config, run, d, answers),
        is_no_boot_partition(config, answers),
        config.nand ==> !d.nand,
        answers(Request::ContentFormat) == Ok::<Answer, E>(Answer::ContentFormat(format)),
        format == DiskFormat::Gpt ==> !config.gpt_all && (config.gpt ==> exists|k: int| #[trigger]
            got_driver(config, run, k, GPT_DRIVER_PATH)),
        format == DiskFormat::Fvm ==> !wants_fvm(config) || no_volume_is_free(config, run, d),
    ensures
        product(config, run).done(d, replies) == Ok::<Option<Request>, E>(None),
{
    let m = product(config, run);
    law_configured_is_there(config);
    assert forall|i: int| 0 <= i < config.matchers().len() implies told(
        #[trigger] m.matchers[i],
        d,
        answers,
    ) == Ok::<bool, E>(false) by {
        lemma_now(config, run, i);
        lemma_configured(config, i);
        law_configured_filesystems(config);
        lemma_plain_declined(config, run, d, answers, i);
        lemma_told(m.matchers[i], d, answers);
        if let MatcherModel::PartitionMap(map) = config.matchers()[i] {
            if format == DiskFormat::Fvm && map.content_format == format {
                lemma_volumes_declined(config, run, d, i);
            } else if map.content_format == format {
                let k = choose|k: int| #[trigger] got_driver(config, run, k, map.driver_path);
                let by = lemma_attaching_matcher(config, run, k, map.driver_path);
                lemma_drivers_differ();
                lemma_configured(config, by);
                lemma_used(config, run, by, k);
            }
        }
    }
    lemma_matcher_decides(config, run, d, replies, answers, config.matchers().len() as int);
}

/// A matcher that took a device holds it.
proof fn lemma_used<E>(config: Config, run: Seq<Encounter<E>>, index: int, k: int)
    requires
        0 <= index < config.matchers().len(),
        config.matchers()[index] is PartitionMap,
        0 <= k < run.len(),
        MatchersModel::initial(config).taker_of(run, k) == Ok::<Option<PlaceView>, E>(
            Some(PlaceView::Global { index }),
        ),
    ensures
        product(config, run).matchers[index] matches MatcherModel::PartitionMap(map)
            && map.device_paths.len() > 0,
{
    lemma_now(config, run, index);
    law_map_holds_what_it_took(config, run, index);
    lemma_takes_grow(config, run, index, k);
}

proof fn lemma_takes_grow<E>(config: Config, run: Seq<Encounter<E>>, index: int, k: int)
    requires
        0 <= k < run.len(),
        MatchersModel::initial(config).taker_of(run, k) == Ok::<Option<PlaceView>, E>(
            Some(PlaceView::Global { index }),
        ),
    ensures
        MatchersModel::initial(config).takes(run, index).len() > 0,
    decreases run.len(),
{
    let shorter = run.drop_last();
    if k == run.len() - 1 {
        assert(run.take(k) =~= shorter);
    } else {
        assert(shorter.take(k) =~= run.take(k));
        lemma_takes_grow(config, shorter, index, k);
    }
}

/// Device number `k` of `run` answers a request alike, whichever matcher makes it.
pub open spec fn answers_alike<E>(config: Config, run: Seq<Encounter<E>>, k: int) -> bool {
    let m = MatchersModel::initial(config).before(run, k);
    let parents = m.parents(run[k].device);
    forall|p: PlaceView, i: int, q: PlaceView, j: int|
        #![trigger (run[k].replies)(p, i), (run[k].replies)(q, j)]
        {
            let s = SearchView { device: run[k].device, parents, place: p, step: i };
            let t = SearchView { device: run[k].device, parents, place: q, step: j };
            s.fits(m) && t.fits(m) && s.matcher(m).request(i) == t.matcher(m).request(j) ==> (
            run[k].replies)(p, i) == (run[k].replies)(q, j)
        }
}

/// The first FVM on the ramdisk goes to the matcher for the ramdisk.
proof fn lemma_ramdisk_first<E>(config: Config, run: Seq<Encounter<E>>, k: int)
    requires
        config.fvm_ramdisk,
        got_driver(config, run, k, FVM_DRIVER_PATH),
        config.ramdisk_prefix@.is_prefix_of(run[k].device.path),
        answers_alike(config, run, k),
        forall|j: int| #[trigger]
            got_driver(config, run, j, FVM_DRIVER_PATH) && j < k
                ==> !config.ramdisk_prefix@.is_prefix_of(run[j].device.path),
    ensures
        MatchersModel::initial(config).taker_of(run, k) == Ok::<Option<PlaceView>, E>(
            Some(PlaceView::Global { index: first_volume(config) }),
        ),
{
    let at = first_volume(config);
    let at_first = MatchersModel::initial(config);
    let m = at_first.before(run, k);
    let d = run[k].device;
    let replies = run[k].replies;
    let index = lemma_volume_matcher(config, run, k);
    if index != at {
        law_configured_is_there(config);
        law_configured_filesystems(config);
        lemma_configured(config, index);
        lemma_now(config, run.take(k), at);
        lemma_now(config, run.take(k), index);
        assert forall|j: int| #[trigger]
            got_driver(config, run.take(k), j, FVM_DRIVER_PATH) implies (
        config.matchers()[at].ramdisk() matches Some(prefix) && !prefix.is_prefix_of(
            run.take(k)[j].device.path,
        )) by {
            assert(run.take(k).take(j) =~= run.take(j));
            assert(got_driver(config, run, j, FVM_DRIVER_PATH));
        }
        lemma_free(config, run.take(k), at, FVM_DRIVER_PATH);
        lemma_product(config, run.take(k));
        law_first_in_order_decides(m, d, replies);
        let here = PlaceView::Global { index };
        let ram = PlaceView::Global { index: at };
        assert(m.offers(d, m.parents(d), ram));
        assert(m.try_at(d, m.parents(d), replies, ram) == Ok::<bool, E>(false));
        law_taken_device_passed(m.matchers[index], d, globally(replies)(index));
        let matcher = m.matchers[at];
        assert(matcher.admits(d));
        assert(m.matchers[index].checks()[0] == Check::Format(DiskFormat::Fvm));
        assert(matcher.checks()[0] == Check::Format(DiskFormat::Fvm));
        assert(globally(replies)(index)(0) == replies(here, 0));
        assert(globally(replies)(at)(0) == replies(ram, 0));
        lemma_parents_in_range(m, d.path, d.path.len());
        assert((SearchView { device: d, parents: m.parents(d), place: here, step: 0 }).fits(m));
        assert((SearchView { device: d, parents: m.parents(d), place: ram, step: 0 }).fits(m));
        assert(replies(here, 0) == replies(ram, 0));
        reveal_with_fuel(interview, 4);
    }
}

/// An FVM device gets the FVM driver, where the product expects FVM, if no device got it before;
/// unless it is a boot partition, a Nand device or a filesystem in FVM. With a ramdisk, one on the
/// ramdisk gets it if no other there did, and a second device gets it beside the one on the
/// ramdisk.
pub proof fn law_fvm_device_is_bound<E>(
    config: Config,
    run: Seq<Encounter<E>>,
    d: DeviceView,
    replies: spec_fn(PlaceView, int) -> Result<Answer, E>,
    answers: spec_fn(Request) -> Result<Answer, E>,
)
    requires
        wants_fvm(config),
        ({
            let prefix = config.ramdisk_prefix@;
            ||| !config.fvm_ramdisk && forall|k: int|
                !#[trigger] got_driver(config, run, k, FVM_DRIVER_PATH)
            ||| config.fvm_ramdisk && prefix.is_prefix_of(d.path) && forall|k: int| #[trigger]
                got_driver(config, run, k, FVM_DRIVER_PATH) ==> !prefix.is_prefix_of(
                    run[k].device.path,
                )
            ||| config.fvm_ramdisk && forall|k: int| #[trigger]
                got_driver(config, run, k, FVM_DRIVER_PATH) ==> {
                    &&& prefix.is_prefix_of(run[k].device.path)
                    &&& answers_alike(config, run, k)
                    &&& forall|j: int| #[trigger]
                        got_driver(config, run, j, FVM_DRIVER_PATH) ==> j == k
                }
        }),
        product(config, run).hears(d, replies, answers),
        is_no_filesystem(config, run, d, answers),
        is_no_boot_partition(config, answers),
        config.nand ==> !d.nand,
        answers(Request::ContentFormat) == Ok::<Answer, E>(Answer::ContentFormat(DiskFormat::Fvm)),
    ensures
        product(config, run).done(d, replies) == if_done(
            answers,
            Request::AttachDriver(FVM_DRIVER_PATH),
        ),
{
    let m = product(config, run);
    let at = first_volume(config);
    let prefix = config.ramdisk_prefix@;
    let on_ramdisk = config.fvm_ramdisk && prefix.is_prefix_of(d.path) && forall|k: int| #[trigger]
        got_driver(config, run, k, FVM_DRIVER_PATH) ==> !prefix.is_prefix_of(run[k].device.path);
    law_configured_is_there(config);
    law_configured_filesystems(config);
    let last = if !config.fvm_ramdisk || on_ramdisk {
        lemma_free(config, run, at, FVM_DRIVER_PATH);
        at
    } else {
        lemma_beside_ramdisk_free(config, run);
        at + 1
    };
    lemma_now(config, run, last);
    lemma_told(m.matchers[last], d, answers);
    let index = lemma_first_taking(config, run, d, answers, last);
    lemma_now(config, run, index);
    lemma_configured(config, index);
    lemma_plain_declined(config, run, d, answers, index);
    lemma_told(m.matchers[index], d, answers);
    lemma_matcher_decides(config, run, d, replies, answers, index);
}

/// The matcher for an FVM beside the ramdisk is free while only one on the ramdisk was bound.
proof fn lemma_beside_ramdisk_free<E>(config: Config, run: Seq<Encounter<E>>)
    requires
        wants_fvm(config),
        config.fvm_ramdisk,
        forall|k: int| #[trigger]
            got_driver(config, run, k, FVM_DRIVER_PATH) ==> {
                &&& config.ramdisk_prefix@.is_prefix_of(run[k].device.path)
                &&& answers_alike(config, run, k)
                &&& forall|j: int| #[trigger]
                    got_driver(config, run, j, FVM_DRIVER_PATH) ==> j == k
            },
    ensures
        product(config, run).matchers[first_volume(config) + 1] matches
            MatcherModel::PartitionMap(map) && map.device_paths.len() == 0,
{
    let index = first_volume(config) + 1;
    let at_first = MatchersModel::initial(config);
    law_configured_is_there(config);
    lemma_now(config, run, index);
    law_map_holds_what_it_took(config, run, index);
    if at_first.takes(run, index).len() > 0 {
        let k = lemma_first_taken(at_first, run, index);
        lemma_now(config, run.take(k), index);
        assert(got_driver(config, run, k, FVM_DRIVER_PATH));
        lemma_ramdisk_first(config, run, k);
    }
}

/// The child matchers of the FVM that took the device above decide.
proof fn lemma_volume_decides<E>(
    config: Config,
    run: Seq<Encounter<E>>,
    i: int,
    index: int,
    d: DeviceView,
    name: Seq<char>,
    replies: spec_fn(PlaceView, int) -> Result<Answer, E>,
    answers: spec_fn(Request) -> Result<Answer, E>,
    child: int,
)
    requires
        0 <= i < run.len(),
        MatchersModel::initial(config).taker_of(run, i) == Ok::<Option<PlaceView>, E>(
            Some(PlaceView::Global { index }),
        ),
        0 <= index < config.matchers().len(),
        forall|j: int| i < j < run.len() ==> (#[trigger] run[j]).device.path != run[i].device.path,
        !name.contains('/'),
        d.path == volume_path(run[i].device.path, name),
        product(config, run).hears(d, replies, answers),
        0 <= child < config.matchers()[index].children().len(),
        told(config.matchers()[index].children()[child], d, answers) != Ok::<bool, E>(false),
        forall|c: int|
            0 <= c < child ==> told(
                #[trigger] config.matchers()[index].children()[c],
                d,
                answers,
            ) == Ok::<bool, E>(false),
    ensures
        product(config, run).done(d, replies) == match told(
            config.matchers()[index].children()[child],
            d,
            answers,
        ) {
            Ok(_) => Ok(config.matchers()[index].children()[child].effect()),
            Err(error) => Err(error),
        },
{
    let m = product(config, run);
    let above = run[i].device.path;
    let parents = m.parents(d);
    lemma_product(config, run);
    lemma_now(config, run, index);
    law_record_stands(
        MatchersModel::initial(config),
        run,
        i,
        PlaceView::Global { index },
    );
    lemma_volume_path(above, name);
    assert(d.path =~= above + d.path.skip(above.len() as int));
    law_ancestors_nearest_first(m.matched, d.path);
    reveal_strlit("/fvm/");
    assert(is_ancestor(above, d.path)) by {
        assert(above =~= d.path.subrange(0, above.len() as int));
    }
    assert(m.matched.contains_key(above));
    assert(parents.contains((above, m.matched[above])));
    let parent = parents.index_of((above, index));
    assert(parents[parent] == (above, index));
    let here = PlaceView::Child { parent, child };
    lemma_child(config, run, index, child);
    assert(m.offers(d, parents, here));
    assert forall|p: PlaceView| #[trigger]
        m.offers(d, parents, p) && p.comes_before(here) implies told(
        m.search_at(d, p).matcher(m),
        d,
        answers,
    ) == Ok::<bool, E>(false) by {
        if let PlaceView::Child { parent: other, child: c } = p {
            lemma_offered_child(config, run, d, other, c);
            law_partition_has_one_parent(d.path, parents[other].0, above, "/fvm"@);
            if other < parent {
                assert(parents[other].0.len() > parents[parent].0.len());
            }
            lemma_child(config, run, index, c);
            assert(told(config.matchers()[index].children()[c], d, answers) == Ok::<bool, E>(
                false,
            ));
        }
    }
    lemma_decides(m, d, replies, answers, here);
}

/// Device number `i` of `run` got the FVM driver, and is still what stands at its path.
pub open spec fn holds_volumes<E>(config: Config, run: Seq<Encounter<E>>, i: int) -> bool {
    &&& got_driver(config, run, i, FVM_DRIVER_PATH)
    &&& forall|j: int| i < j < run.len() ==> (#[trigger] run[j]).device.path != run[i].device.path
}

/// Where filesystems are mounted from: if FVM is to be on a ramdisk, the first FVM that is there,
/// otherwise any.
pub open spec fn is_mounted_from<E>(config: Config, run: Seq<Encounter<E>>, i: int) -> bool {
    config.fvm_ramdisk ==> {
        &&& config.ramdisk_prefix@.is_prefix_of(run[i].device.path)
        &&& answers_alike(config, run, i)
        &&& forall|j: int| #[trigger]
            got_driver(config, run, j, FVM_DRIVER_PATH) && j < i
                ==> !config.ramdisk_prefix@.is_prefix_of(run[j].device.path)
    }
}

/// The matcher that took the FVM that filesystems are mounted from.
proof fn lemma_mounting_matcher<E>(config: Config, run: Seq<Encounter<E>>, i: int)
    requires
        got_driver(config, run, i, FVM_DRIVER_PATH),
        is_mounted_from(config, run, i),
    ensures
        ({
            let index = first_volume(config);
            &&& 0 <= index < config.matchers().len()
            &&& MatchersModel::initial(config).taker_of(run, i) == Ok::<Option<PlaceView>, E>(
                Some(PlaceView::Global { index }),
            )
            &&& config.matchers()[index].children() == config.filesystems()
        }),
{
    let index = lemma_volume_matcher(config, run, i);
    if config.fvm_ramdisk {
        lemma_ramdisk_first(config, run, i);
    }
    lemma_configured(config, index);
    law_configured_is_there(config);
}

/// The labels are different ones.
proof fn lemma_labels_differ()
    ensures
        "blobfs"@ != "data"@,
        BLOBFS_PARTITION_LABEL@ == "blobfs"@,
        DATA_PARTITION_LABEL@ == "data"@,
{
    reveal_strlit("blobfs");
    reveal_strlit("data");
    assert("blobfs"@.len() != "data"@.len());
}

/// Blobfs is mounted from a partition of FVM with its label and its type, whatever the paths are
/// and whatever else the partition is, if the product mounts it.
pub proof fn law_blobfs_is_mounted<E>(
    config: Config,
    run: Seq<Encounter<E>>,
    i: int,
    d: DeviceView,
    name: Seq<char>,
    replies: spec_fn(PlaceView, int) -> Result<Answer, E>,
    answers: spec_fn(Request) -> Result<Answer, E>,
)
    requires
        config.blobfs,
        !config.netboot,
        holds_volumes(config, run, i),
        is_mounted_from(config, run, i),
        !name.contains('/'),
        d.path == volume_path(run[i].device.path, name),
        product(config, run).hears(d, replies, answers),
        answers(Request::PartitionLabel) matches Ok(Answer::PartitionLabel(label)) && label@
            == "blobfs"@,
        answers(Request::PartitionType) matches Ok(Answer::PartitionType(found)) && found@
            == BLOBFS_TYPE_GUID@,
    ensures
        product(config, run).done(d, replies) == if_done(answers, Request::MountBlobfs),
{
    let index = first_volume(config);
    lemma_mounting_matcher(config, run, i);
    law_configured_filesystems(config);
    lemma_labels_differ();
    lemma_told(config.filesystems()[0], d, answers);
    lemma_volume_decides(config, run, i, index, d, name, replies, answers, 0);
}

/// Data is mounted from a partition of FVM with its label and its type, whatever the paths are and
/// whatever else the partition is, if the product mounts it.
pub proof fn law_data_is_mounted<E>(
    config: Config,
    run: Seq<Encounter<E>>,
    i: int,
    d: DeviceView,
    name: Seq<char>,
    replies: spec_fn(PlaceView, int) -> Result<Answer, E>,
    answers: spec_fn(Request) -> Result<Answer, E>,
)
    requires
        config.data,
        !config.netboot,
        holds_volumes(config, run, i),
        is_mounted_from(config, run, i),
        !name.contains('/'),
        d.path == volume_path(run[i].device.path, name),
        product(config, run).hears(d, replies, answers),
        answers(Request::PartitionLabel) matches Ok(Answer::PartitionLabel(label)) && label@
            == "data"@,
        answers(Request::PartitionType) matches Ok(Answer::PartitionType(found)) && found@
            == DATA_TYPE_GUID@,
    ensures
        product(config, run).done(d, replies) == if_done(answers, Request::MountData),
{
    let index = first_volume(config);
    let child: int = if config.blobfs {
        1
    } else {
        0
    };
    lemma_mounting_matcher(config, run, i);
    law_configured_filesystems(config);
    lemma_labels_differ();
    lemma_told(config.filesystems()[0], d, answers);
    lemma_told(config.filesystems()[child], d, answers);
    lemma_volume_decides(config, run, i, index, d, name, replies, answers, child);
}

/// Zxcrypt is bound to the data partition of an FVM beside the one on the ramdisk, whatever the
/// paths are, netbooting or not, unless the data filesystem is fxfs.
pub proof fn law_zxcrypt_is_bound<E>(
    config: Config,
    run: Seq<Encounter<E>>,
    i: int,
    d: DeviceView,
    name: Seq<char>,
    replies: spec_fn(PlaceView, int) -> Result<Answer, E>,
    answers: spec_fn(Request) -> Result<Answer, E>,
)
    requires
        config.fvm_ramdisk,
        config.data_filesystem_format@ != "fxfs"@,
        holds_volumes(config, run, i),
        !config.ramdisk_prefix@.is_prefix_of(run[i].device.path) || exists|j: int| #[trigger]
            got_driver(config, run, j, FVM_DRIVER_PATH) && j < i && is_mounted_from(config, run, j),
        !name.contains('/'),
        d.path == volume_path(run[i].device.path, name),
        product(config, run).hears(d, replies, answers),
        answers(Request::PartitionLabel) matches Ok(Answer::PartitionLabel(label)) && label@
            == "data"@,
        answers(Request::PartitionType) matches Ok(Answer::PartitionType(found)) && found@
            == DATA_TYPE_GUID@,
    ensures
        product(config, run).done(d, replies) == if_done(answers, Request::BindZxcrypt),
{
    let index = lemma_volume_matcher(config, run, i);
    if config.ramdisk_prefix@.is_prefix_of(run[i].device.path) {
        let j = choose|j: int| #[trigger]
            got_driver(config, run, j, FVM_DRIVER_PATH) && j < i && is_mounted_from(config, run, j);
        lemma_ramdisk_first(config, run, j);
        law_initial_matchers(config);
        let first = lemma_volume_matcher(config, run, j);
        lemma_single_map_in_run(MatchersModel::initial(config), run, j, i, first);
    }
    law_configured_is_there(config);
    law_configured_filesystems(config);
    lemma_configured(config, index);
    lemma_labels_differ();
    lemma_told(config.matchers()[index].children()[0], d, answers);
    lemma_volume_decides(config, run, i, index, d, name, replies, answers, 0);
}

/// When the label of a partition that filesystems are mounted from cannot be read, the search
/// fails, and no other matcher is asked.
pub proof fn law_unreadable_label_fails<E>(
    config: Config,
    run: Seq<Encounter<E>>,
    i: int,
    d: DeviceView,
    name: Seq<char>,
    replies: spec_fn(PlaceView, int) -> Result<Answer, E>,
    answers: spec_fn(Request) -> Result<Answer, E>,
    error: E,
)
    requires
        config.blobfs || config.data,
        !config.netboot,
        holds_volumes(config, run, i),
        is_mounted_from(config, run, i),
        !name.contains('/'),
        d.path == volume_path(run[i].device.path, name),
        product(config, run).hears(d, replies, answers),
        answers(Request::PartitionLabel) == Err::<Answer, E>(error),
    ensures
        product(config, run).done(d, replies) == Err::<Option<Request>, E>(error),
{
    let index = first_volume(config);
    lemma_mounting_matcher(config, run, i);
    law_configured_filesystems(config);
    lemma_told(config.filesystems()[0], d, answers);
    lemma_volume_decides(config, run, i, index, d, name, replies, answers, 0);
}

/// A device that is offered to a matcher is asked that matcher's first request first.
proof fn lemma_first_request_first(
    m: MatchersModel,
    d: DeviceView,
    parents: Seq<(Seq<char>, int)>,
    parent: int,
    child: int,
)
    ensures
        m.child_turn(d, parents, parent, child, Event::Appeared) matches Outcome::Ask { step, .. }
            ==> step == 0,
    decreases parents.len() - parent,
{
    if parent < parents.len() {
        lemma_first_request_first(m, d, parents, parent + 1, 0);
    }
}

/// The checks of the matcher at the place of `s` that come before its step have passed.
spec fn passed<E>(
    m: MatchersModel,
    s: SearchView,
    replies: spec_fn(PlaceView, int) -> Result<Answer, E>,
) -> bool {
    forall|k: int|
        0 <= k < s.step && k < s.matcher(m).checks().len() ==> (#[trigger] replies(
            s.place,
            k,
        ) matches Ok(answer) && s.matcher(m).checks()[k].passes(answer))
}

/// The last request of a search is one of a matcher whose earlier checks have passed.
proof fn lemma_last_asked<E>(
    m: MatchersModel,
    d: DeviceView,
    parents: Seq<(Seq<char>, int)>,
    replies: spec_fn(PlaceView, int) -> Result<Answer, E>,
    place: PlaceView,
    step: int,
) -> (s: SearchView)
    requires
        m.suits(d, parents, replies),
        m.reached(d, parents, Outcome::Ask { place, step }),
        passed(m, SearchView { device: d, parents, place, step }, replies),
    ensures
        s.device == d,
        s.parents == parents,
        s.fits(m),
        passed(m, s, replies),
        m.requests(d, parents, replies, Outcome::Ask { place, step }).len() > 0,
        m.requests(d, parents, replies, Outcome::Ask { place, step }).last() == s.matcher(
            m,
        ).request(s.step),
    decreases
        m.rank(parents, Outcome::Ask { place, step }).0,
        m.rank(parents, Outcome::Ask { place, step }).1,
        m.rank(parents, Outcome::Ask { place, step }).2,
{
    let here = Outcome::Ask { place, step };
    let s = SearchView { device: d, parents, place, step };
    match replies(place, step) {
        Err(_) => s,
        Ok(answer) => {
            lemma_progress(m, s, answer);
            let next = m.resume(s, answer);
            let rest = m.requests(d, parents, replies, next);
            assert(m.requests(d, parents, replies, here) == seq![s.matcher(m).request(step)]
                + rest);
            if let Outcome::Ask { place: p, step: n } = next {
                if let PlaceView::Child { parent, .. } = place {
                    lemma_first_request_first(m, d, parents, parent + 1, 0);
                }
                let t = SearchView { device: d, parents, place: p, step: n };
                assert(n == 0 || (p == place && n == step + 1));
                assert(passed(m, t, replies)) by {
                    assert forall|k: int|
                        0 <= k < n && k < t.matcher(m).checks().len() implies (#[trigger] replies(
                        p,
                        k,
                    ) matches Ok(found) && t.matcher(m).checks()[k].passes(found)) by {
                        assert(p == place);
                    }
                }
                lemma_last_asked(m, d, parents, replies, p, n)
            } else {
                assert(rest.len() == 0);
                s
            }
        },
    }
}

/// What `d` is, going by its path and its answers, and what the product expects call for
/// `request`.
pub open spec fn is_called_for<E>(
    config: Config,
    run: Seq<Encounter<E>>,
    d: DeviceView,
    answers: spec_fn(Request) -> Result<Answer, E>,
    request: Request,
) -> bool {
    let has_format = |format: DiskFormat|
        answers(Request::ContentFormat) == Ok::<Answer, E>(Answer::ContentFormat(format));
    let has_label = |label: Seq<char>|
        answers(Request::PartitionLabel) matches Ok(Answer::PartitionLabel(found)) && found@
            == label;
    let has_type = |type_guid: Seq<u8>|
        answers(Request::PartitionType) matches Ok(Answer::PartitionType(found)) && found@
            == type_guid;
    match request {
        Request::AttachDriver(path) => {
            ||| path == BOOTPART_DRIVER_PATH && config.bootpart && (answers(
                Request::BlockInfo,
            ) matches Ok(Answer::BlockInfo(info)) && info.flags & FLAG_BOOTPART != 0)
            ||| path == NAND_BROKER_DRIVER_PATH && config.nand && d.nand
            ||| path == GPT_DRIVER_PATH && (config.gpt || config.gpt_all) && has_format(
                DiskFormat::Gpt,
            )
            ||| path == FVM_DRIVER_PATH && wants_fvm(config) && has_format(DiskFormat::Fvm)
        },
        Request::MountBlobfs => {
            &&& config.blobfs && !config.netboot
            &&& config.fvm_ramdisk ==> config.ramdisk_prefix@.is_prefix_of(d.path)
            &&& is_volume(config, run, d)
            &&& has_label("blobfs"@) && has_type(BLOBFS_TYPE_GUID@)
        },
        Request::MountData => {
            &&& config.data && !config.netboot
            &&& config.fvm_ramdisk ==> config.ramdisk_prefix@.is_prefix_of(d.path)
            &&& is_volume(config, run, d)
            &&& has_label("data"@) && has_type(DATA_TYPE_GUID@)
        },
        Request::BindZxcrypt => {
            &&& config.fvm_ramdisk && config.data_filesystem_format@ != "fxfs"@
            &&& is_volume(config, run, d)
            &&& has_label("data"@) && has_type(DATA_TYPE_GUID@)
        },
        _ => true,
    }
}

/// Nothing is done to a device, or even tried, that is not called for: a driver is attached only
/// to a device with the very flag, kind or format that the driver is for, and a filesystem is
/// mounted, or zxcrypt bound, only in an FVM that was taken and only with the very label and type.
pub proof fn law_only_what_is_called_for<E>(
    config: Config,
    run: Seq<Encounter<E>>,
    d: DeviceView,
    replies: spec_fn(PlaceView, int) -> Result<Answer, E>,
    answers: spec_fn(Request) -> Result<Answer, E>,
)
    requires
        product(config, run).hears(d, replies, answers),
    ensures
        forall|i: int|
            0 <= i < product(config, run).asked(d, replies).len() ==> is_called_for(
                config,
                run,
                d,
                answers,
                #[trigger] product(config, run).asked(d, replies)[i],
            ),
{
    let m = product(config, run);
    let parents = m.parents(d);
    let asked = m.asked(d, replies);
    lemma_product(config, run);
    lemma_suits(m, d, replies, answers);
    lemma_parents_in_range(m, d.path, d.path.len());
    lemma_offered(m, d, parents, 0, 0);
    lemma_first_request_first(m, d, parents, 0, 0);
    law_one_effect(m, d, replies);
    if let Outcome::Ask { place, step } = m.start(d) {
        let s = lemma_last_asked(m, d, parents, replies, place, step);
        lemma_asked_is_called_for(config, run, d, replies, answers, s);
    }
}

proof fn lemma_asked_is_called_for<E>(
    config: Config,
    run: Seq<Encounter<E>>,
    d: DeviceView,
    replies: spec_fn(PlaceView, int) -> Result<Answer, E>,
    answers: spec_fn(Request) -> Result<Answer, E>,
    s: SearchView,
)
    requires
        product(config, run).hears(d, replies, answers),
        s.device == d,
        s.parents == product(config, run).parents(d),
        s.fits(product(config, run)),
        passed(product(config, run), s, replies),
    ensures
        is_called_for(
            config,
            run,
            d,
            answers,
            s.matcher(product(config, run)).request(s.step),
        ),
{
    let m = product(config, run);
    let matcher = s.matcher(m);
    let index = s.index();
    let request = matcher.request(s.step);
    lemma_product(config, run);
    lemma_now(config, run, index);
    lemma_configured(config, index);
    law_configured_filesystems(config);
    lemma_labels_differ();
    lemma_drivers_differ();
    assert(forall|x: u32| (#[trigger] (x & 0x4u32) == 0x4u32) == (x & 0x4u32 != 0)) by (bit_vector);
    if s.step == matcher.checks().len() {
        assert forall|k: int| 0 <= k < matcher.checks().len() implies (answers(
            (#[trigger] matcher.checks()[k]).query(),
        ) matches Ok(answer) && matcher.checks()[k].passes(answer)) by {
            let t = SearchView { device: d, parents: s.parents, place: s.place, step: k };
            assert(t.fits(m));
            assert(replies(s.place, k) == answers(matcher.request(k)));
        }
        if matcher.checks().len() > 0 {
            assert(answers(matcher.checks()[0].query()) is Ok);
        }
        if matcher.checks().len() > 1 {
            assert(answers(matcher.checks()[1].query()) is Ok);
        }
        if let PlaceView::Child { parent, child } = s.place {
            law_initial_matchers(config);
            law_run_keeps(MatchersModel::initial(config), run);
            law_ramdisk_is_kept(m, s);
            lemma_offered_child(config, run, d, parent, child);
            lemma_child(config, run, index, child);
            if config.matchers()[index].children() == config.filesystems() {
                lemma_filesystems(config, child);
            }
        }
    }
}

} // verus!
