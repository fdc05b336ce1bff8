//! What the matchers of a product take, over any number of devices.
use crate::config::{first_volume, lemma_configured, lemma_filesystems, Config};
use crate::constants::{
    BOOTPART_DRIVER_PATH, FVM_DRIVER_PATH, GPT_DRIVER_PATH, NAND_BROKER_DRIVER_PATH,
};
use crate::device::{Answer, DeviceView, Request};
use crate::history::{
    law_becomes_is_reflexive, law_becomes_is_transitive, law_initial_matchers,
    law_match_only_adds, law_ramdisk_is_kept, law_single_map_takes_one,
};
use crate::laws::law_first_in_order_decides;
use crate::model::MatcherModel;
use crate::search::{lemma_after_match_wf, lemma_parents_in_range, MatchersModel, PlaceView};
use vstd::prelude::*;

verus! {

/// A device that appears, and what comes back for the requests of its search.
pub struct Encounter<E> {
    pub device: DeviceView,
    pub replies: spec_fn(PlaceView, int) -> Result<Answer, E>,
}

impl MatchersModel {
    /// The matchers after the searches for all the devices of `run`, one after the other.
    pub open spec fn after_run<E>(self, run: Seq<Encounter<E>>) -> MatchersModel
        decreases run.len(),
    {
        if run.len() == 0 {
            self
        } else {
            self.after_run(run.drop_last()).after_search(run.last().device, run.last().replies)
        }
    }

    /// The matchers when device number `i` of `run` appears.
    pub open spec fn before<E>(self, run: Seq<Encounter<E>>, i: int) -> MatchersModel {
        self.after_run(run.take(i))
    }

    /// Which matcher takes device number `i` of `run`, if any does.
    pub open spec fn taker_of<E>(self, run: Seq<Encounter<E>>, i: int) -> Result<
        Option<PlaceView>,
        E,
    > {
        self.before(run, i).taker(run[i].device, run[i].replies)
    }

    /// A matcher takes device number `i` of `run`, and attaches the driver at `driver_path` to it.
    pub open spec fn attaches<E>(
        self,
        run: Seq<Encounter<E>>,
        i: int,
        driver_path: &'static str,
    ) -> bool {
        let m = self.before(run, i);
        &&& self.taker_of(run, i) matches Ok(Some(place))
        &&& m.search_at(run[i].device, place).matcher(m).effect() == Some(
            Request::AttachDriver(driver_path),
        )
    }

    /// The paths of the devices of `run` that the matcher `index` takes itself, in the order in
    /// which they appear.
    pub open spec fn takes<E>(self, run: Seq<Encounter<E>>, index: int) -> Seq<Seq<char>>
        decreases run.len(),
    {
        if run.len() == 0 {
            seq![]
        } else {
            let so_far = self.takes(run.drop_last(), index);
            if self.after_run(run.drop_last()).taker(run.last().device, run.last().replies) == Ok::<
                Option<PlaceView>,
                E,
            >(Some(PlaceView::Global { index })) {
                so_far.push(run.last().device.path)
            } else {
                so_far
            }
        }
    }
}

/// The matcher that takes a device is one that a search comes to.
proof fn lemma_taker_fits<E>(
    m: MatchersModel,
    d: DeviceView,
    replies: spec_fn(PlaceView, int) -> Result<Answer, E>,
)
    requires
        m.wf(),
    ensures
        m.taker(d, replies) matches Ok(Some(place)) ==> m.search_at(d, place).fits(m),
{
    law_first_in_order_decides(m, d, replies);
    lemma_parents_in_range(m, d.path, d.path.len());
    if let Ok(Some(place)) = m.taker(d, replies) {
        let s = m.search_at(d, place);
        assert(m.matchers[s.index()].wf());
        assert(s.matcher(m).wf());
        assert(s.matcher(m).steps() > 0);
    }
}

/// One search keeps what is to be kept.
proof fn lemma_search_keeps<E>(
    m: MatchersModel,
    d: DeviceView,
    replies: spec_fn(PlaceView, int) -> Result<Answer, E>,
)
    requires
        m.wf(),
    ensures
        m.after_search(d, replies).wf(),
        m.becomes(m.after_search(d, replies)),
        m.on_ramdisk() ==> m.after_search(d, replies).on_ramdisk(),
{
    lemma_taker_fits(m, d, replies);
    law_becomes_is_reflexive(m);
    if let Ok(Some(place)) = m.taker(d, replies) {
        let s = m.search_at(d, place);
        lemma_after_match_wf(m, s);
        law_match_only_adds(m, s);
        if m.on_ramdisk() {
            law_ramdisk_is_kept(m, s);
        }
    }
}

/// Whatever devices appear, the matchers stay well-formed, keep what they look for and what they
/// took, and a matcher for a ramdisk holds devices on that ramdisk only.
pub proof fn law_run_keeps<E>(m: MatchersModel, run: Seq<Encounter<E>>)
    requires
        m.wf(),
    ensures
        m.after_run(run).wf(),
        m.becomes(m.after_run(run)),
        m.on_ramdisk() ==> m.after_run(run).on_ramdisk(),
    decreases run.len(),
{
    law_becomes_is_reflexive(m);
    if run.len() > 0 {
        let before = m.after_run(run.drop_last());
        law_run_keeps(m, run.drop_last());
        lemma_search_keeps(before, run.last().device, run.last().replies);
        law_becomes_is_transitive(m, before, m.after_run(run));
    }
}

/// What holds at one point of a run still does later.
proof fn lemma_later<E>(m: MatchersModel, run: Seq<Encounter<E>>, i: int, j: int)
    requires
        m.wf(),
        0 <= i <= j <= run.len(),
    ensures
        m.before(run, i).becomes(m.before(run, j)),
    decreases j - i,
{
    law_becomes_is_reflexive(m.before(run, i));
    if i < j {
        let earlier = m.before(run, j - 1);
        let last = run[j - 1];
        lemma_later(m, run, i, j - 1);
        assert(run.take(j).drop_last() =~= run.take(j - 1));
        law_run_keeps(m, run.take(j - 1));
        lemma_search_keeps(earlier, last.device, last.replies);
        law_becomes_is_transitive(m.before(run, i), earlier, m.before(run, j));
    }
}

/// A single map takes at most one device of a run.
pub proof fn lemma_single_map_in_run<E>(
    m: MatchersModel,
    run: Seq<Encounter<E>>,
    i: int,
    j: int,
    index: int,
)
    requires
        m.wf(),
        0 <= i < j < run.len(),
        0 <= index < m.matchers.len(),
        m.matchers[index].is_single_map(),
        m.taker_of(run, i) == Ok::<Option<PlaceView>, E>(Some(PlaceView::Global { index })),
    ensures
        m.taker_of(run, j) != Ok::<Option<PlaceView>, E>(Some(PlaceView::Global { index })),
{
    let then = m.before(run, i);
    let s = then.search_at(run[i].device, PlaceView::Global { index });
    law_run_keeps(m, run.take(i));
    lemma_taker_fits(then, run[i].device, run[i].replies);
    assert(m.matchers[index].becomes(then.matchers[index]));
    assert(run.take(i + 1).drop_last() =~= run.take(i));
    assert(m.before(run, i + 1) == then.after_match(s));
    lemma_later(m, run, i + 1, j);
    law_single_map_takes_one(then, s, m.before(run, j), run[j].device, run[j].replies);
}

/// A matched path is that of a device that was taken.
pub proof fn lemma_matched_was_taken<E>(
    config: Config,
    run: Seq<Encounter<E>>,
    path: Seq<char>,
) -> (k: int)
    requires
        MatchersModel::initial(config).after_run(run).matched.contains_key(path),
    ensures
        0 <= k < run.len(),
        run[k].device.path == path,
        MatchersModel::initial(config).taker_of(run, k) matches Ok(Some(_)),
    decreases run.len(),
{
    let last = run.last();
    let shorter = run.drop_last();
    let before = MatchersModel::initial(config).after_run(shorter);
    if before.matched.contains_key(path) {
        let k = lemma_matched_was_taken(config, shorter, path);
        assert(shorter.take(k) =~= run.take(k));
        k
    } else {
        assert(run.take(run.len() - 1) =~= shorter);
        run.len() - 1
    }
}

/// What a matcher takes is recorded under the path of the device, and the record stands until the
/// same path appears again.
pub proof fn law_record_stands<E>(
    m: MatchersModel,
    run: Seq<Encounter<E>>,
    i: int,
    place: PlaceView,
)
    requires
        0 <= i < run.len(),
        m.taker_of(run, i) == Ok::<Option<PlaceView>, E>(Some(place)),
        forall|j: int| i < j < run.len() ==> (#[trigger] run[j]).device.path != run[i].device.path,
    ensures
        m.after_run(run).matched.contains_key(run[i].device.path),
        m.after_run(run).matched[run[i].device.path] == match place {
            PlaceView::Global { index } => index,
            PlaceView::Child { parent, .. } => m.before(run, i).parents(run[i].device)[parent].1,
        },
    decreases run.len(),
{
    let shorter = run.drop_last();
    if i == run.len() - 1 {
        assert(run.take(i) =~= shorter);
    } else {
        assert(shorter.take(i) =~= run.take(i));
        assert forall|j: int| i < j < shorter.len() implies (#[trigger] shorter[j]).device.path
            != shorter[i].device.path by {
            assert(shorter[j] == run[j]);
        }
        law_record_stands(m, shorter, i, place);
        assert(run[run.len() - 1].device.path != run[i].device.path);
    }
}

/// Of what a matcher took itself, the first.
pub proof fn lemma_first_taken<E>(m: MatchersModel, run: Seq<Encounter<E>>, index: int) -> (k: int)
    requires
        m.takes(run, index).len() > 0,
    ensures
        0 <= k < run.len(),
        m.taker_of(run, k) == Ok::<Option<PlaceView>, E>(Some(PlaceView::Global { index })),
        run[k].device.path == m.takes(run, index)[0],
    decreases run.len(),
{
    let shorter = run.drop_last();
    if m.takes(shorter, index).len() > 0 {
        let k = lemma_first_taken(m, shorter, index);
        assert(shorter.take(k) =~= run.take(k));
        k
    } else {
        assert(run.take(run.len() - 1) =~= shorter);
        run.len() - 1
    }
}

/// The drivers are different ones.
pub proof fn lemma_drivers_differ()
    ensures
        GPT_DRIVER_PATH != FVM_DRIVER_PATH,
        GPT_DRIVER_PATH != BOOTPART_DRIVER_PATH,
        GPT_DRIVER_PATH != NAND_BROKER_DRIVER_PATH,
        FVM_DRIVER_PATH != BOOTPART_DRIVER_PATH,
        FVM_DRIVER_PATH != NAND_BROKER_DRIVER_PATH,
        BOOTPART_DRIVER_PATH != NAND_BROKER_DRIVER_PATH,
{
    reveal_strlit("/boot/driver/gpt.so");
    reveal_strlit("/boot/driver/fvm.so");
    reveal_strlit("/boot/driver/bootpart.so");
    reveal_strlit("/boot/driver/nand-broker.so");
    assert(GPT_DRIVER_PATH@[13] == 'g');
    assert(FVM_DRIVER_PATH@[13] == 'f');
    assert(BOOTPART_DRIVER_PATH@[13] == 'b');
    assert(NAND_BROKER_DRIVER_PATH@[13] == 'n');
}

/// The child matchers are for single partitions, and none attaches a driver.
proof fn lemma_configured_child(config: Config, i: int, child: int)
    requires
        0 <= i < config.matchers().len(),
        0 <= child < config.matchers()[i].children().len(),
    ensures
        config.matchers()[i].children()[child] matches MatcherModel::Partition { effect, .. }
            && !(effect matches Some(Request::AttachDriver(_))),
{
    lemma_configured(config, i);
    if config.matchers()[i].children() == config.filesystems() {
        lemma_filesystems(config, child);
    }
}

/// A driver is attached by one of the matchers themselves, which admits the device.
pub proof fn lemma_attaching_matcher<E>(
    config: Config,
    run: Seq<Encounter<E>>,
    i: int,
    driver_path: &'static str,
) -> (index: int)
    requires
        0 <= i < run.len(),
        MatchersModel::initial(config).attaches(run, i, driver_path),
    ensures
        0 <= index < config.matchers().len(),
        MatchersModel::initial(config).taker_of(run, i) == Ok::<Option<PlaceView>, E>(
            Some(PlaceView::Global { index }),
        ),
        config.matchers()[index].effect() == Some(Request::AttachDriver(driver_path)),
        config.matchers()[index].ramdisk() matches Some(prefix) ==> prefix.is_prefix_of(
            run[i].device.path,
        ),
{
    let at_first = MatchersModel::initial(config);
    let m = at_first.before(run, i);
    law_initial_matchers(config);
    law_run_keeps(at_first, run.take(i));
    lemma_taker_fits(m, run[i].device, run[i].replies);
    let place = at_first.taker_of(run, i)->Ok_0->0;
    let s = m.search_at(run[i].device, place);
    assert(at_first.matchers[s.index()].becomes(m.matchers[s.index()]));
    if let PlaceView::Child { child, .. } = place {
        assert(at_first.matchers[s.index()].children()[child].becomes(
            m.matchers[s.index()].children()[child],
        ));
        lemma_configured_child(config, s.index(), child);
    }
    s.index()
}

/// A product that does not bind all GPT devices binds one at most: of any two devices that appear,
/// at most one gets the GPT driver.
pub proof fn law_one_gpt<E>(config: Config, run: Seq<Encounter<E>>, i: int, j: int)
    requires
        !config.gpt_all,
        0 <= i < j < run.len(),
    ensures
        !(MatchersModel::initial(config).attaches(run, i, GPT_DRIVER_PATH)
            && MatchersModel::initial(config).attaches(run, j, GPT_DRIVER_PATH)),
{
    let m = MatchersModel::initial(config);
    if m.attaches(run, i, GPT_DRIVER_PATH) && m.attaches(run, j, GPT_DRIVER_PATH) {
        let a = lemma_attaching_matcher(config, run, i, GPT_DRIVER_PATH);
        let b = lemma_attaching_matcher(config, run, j, GPT_DRIVER_PATH);
        lemma_drivers_differ();
        lemma_configured(config, a);
        lemma_configured(config, b);
        law_initial_matchers(config);
        lemma_single_map_in_run(m, run, i, j, a);
    }
}

/// The matcher that attaches the FVM driver.
pub proof fn lemma_volume_matcher<E>(config: Config, run: Seq<Encounter<E>>, i: int) -> (index: int)
    requires
        0 <= i < run.len(),
        MatchersModel::initial(config).attaches(run, i, FVM_DRIVER_PATH),
    ensures
        0 <= index < config.matchers().len(),
        config.matchers()[index].is_single_map(),
        MatchersModel::initial(config).taker_of(run, i) == Ok::<Option<PlaceView>, E>(
            Some(PlaceView::Global { index }),
        ),
        index == first_volume(config) || (config.fvm_ramdisk && index == first_volume(config) + 1),
        config.fvm_ramdisk && index == first_volume(config)
            ==> config.ramdisk_prefix@.is_prefix_of(run[i].device.path),
{
    let index = lemma_attaching_matcher(config, run, i, FVM_DRIVER_PATH);
    lemma_drivers_differ();
    lemma_configured(config, index);
    index
}

/// A product binds one FVM device at most, unless FVM is to be on a ramdisk: of any two devices
/// that appear, at most one gets the FVM driver.
pub proof fn law_one_fvm<E>(config: Config, run: Seq<Encounter<E>>, i: int, j: int)
    requires
        !config.fvm_ramdisk,
        0 <= i < j < run.len(),
    ensures
        !(MatchersModel::initial(config).attaches(run, i, FVM_DRIVER_PATH)
            && MatchersModel::initial(config).attaches(run, j, FVM_DRIVER_PATH)),
{
    let m = MatchersModel::initial(config);
    if m.attaches(run, i, FVM_DRIVER_PATH) && m.attaches(run, j, FVM_DRIVER_PATH) {
        law_two_fvm_with_ramdisk(config, run, i, j);
    }
}

/// A product binds two FVM devices only when FVM is to be on a ramdisk, and never a third. One of
/// the two is then on the ramdisk: its path begins with the prefix.
pub proof fn law_two_fvm_with_ramdisk<E>(config: Config, run: Seq<Encounter<E>>, i: int, j: int)
    requires
        0 <= i < j < run.len(),
        MatchersModel::initial(config).attaches(run, i, FVM_DRIVER_PATH),
        MatchersModel::initial(config).attaches(run, j, FVM_DRIVER_PATH),
    ensures
        config.fvm_ramdisk,
        config.ramdisk_prefix@.is_prefix_of(run[i].device.path)
            || config.ramdisk_prefix@.is_prefix_of(run[j].device.path),
        forall|k: int|
            0 <= k < run.len() && k != i && k != j ==> !(
            #[trigger] MatchersModel::initial(config).attaches(run, k, FVM_DRIVER_PATH)),
{
    let m = MatchersModel::initial(config);
    law_initial_matchers(config);
    let a = lemma_volume_matcher(config, run, i);
    let b = lemma_volume_matcher(config, run, j);
    lemma_single_map_in_run(m, run, i, j, a);
    assert forall|k: int| 0 <= k < run.len() && k != i && k != j implies !(
    #[trigger] m.attaches(run, k, FVM_DRIVER_PATH)) by {
        if m.attaches(run, k, FVM_DRIVER_PATH) {
            let c = lemma_volume_matcher(config, run, k);
            let other = if c == a {
                i
            } else {
                j
            };
            if other < k {
                lemma_single_map_in_run(m, run, other, k, c);
            } else {
                lemma_single_map_in_run(m, run, k, other, c);
            }
        }
    }
}

/// Whatever devices appear, a partition map holds the paths of exactly those that it took itself,
/// in the order in which they appeared. Where it is to be on a ramdisk, each of them begins with
/// the prefix of the ramdisk. No child matcher is a partition map.
pub proof fn law_map_holds_what_it_took<E>(config: Config, run: Seq<Encounter<E>>, index: int)
    requires
        0 <= index < config.matchers().len(),
    ensures
        MatchersModel::initial(config).after_run(run).matchers[index] matches
            MatcherModel::PartitionMap(map) ==> {
            &&& map.device_paths == MatchersModel::initial(config).takes(run, index)
            &&& map.ramdisk_required matches Some(prefix) ==> forall|k: int|
                0 <= k < map.device_paths.len() ==> prefix.is_prefix_of(
                    #[trigger] map.device_paths[k],
                )
        },
        ({
            let children = MatchersModel::initial(config).after_run(
                run,
            ).matchers[index].children();
            forall|child: int|
                0 <= child < children.len() ==> (#[trigger] children[child]) is Partition
        }),
    decreases run.len(),
{
    let at_first = MatchersModel::initial(config);
    law_initial_matchers(config);
    law_run_keeps(at_first, run);
    let now = at_first.after_run(run).matchers[index];
    assert(at_first.matchers[index].becomes(now));
    assert forall|child: int| 0 <= child < now.children().len() implies (
    #[trigger] now.children()[child]) is Partition by {
        lemma_configured_child(config, index, child);
        assert(at_first.matchers[index].children()[child].becomes(now.children()[child]));
    }
    if run.len() == 0 {
        lemma_configured(config, index);
    } else {
        let m = at_first.after_run(run.drop_last());
        let last = run.last();
        law_map_holds_what_it_took(config, run.drop_last(), index);
        law_run_keeps(at_first, run.drop_last());
        lemma_taker_fits(m, last.device, last.replies);
    }
}

} // verus!
