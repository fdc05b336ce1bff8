//! What the matchers come to over many searches.
use crate::config::{lemma_configured, lemma_filesystems, lemma_matchers_wf, Config};
use crate::constants::FXFS;
use crate::device::{Answer, DeviceView, DiskFormat, Request};
use crate::laws::law_first_in_order_decides;
use crate::matched::law_ancestors_nearest_first;
use crate::model::MatcherModel;
use crate::search::{MatchersModel, PlaceView, SearchView};
use crate::text::law_partition_extends_parent;
use vstd::prelude::*;

verus! {

impl MatcherModel {
    /// The matcher may come to be `later` by taking devices: only the lists of the devices that
    /// it and its child matchers took get longer.
    pub open spec fn becomes(self, later: MatcherModel) -> bool
        decreases self,
    {
        match (self, later) {
            (MatcherModel::PartitionMap(a), MatcherModel::PartitionMap(b)) => {
                &&& a.content_format == b.content_format
                &&& a.allow_multiple == b.allow_multiple
                &&& a.driver_path == b.driver_path
                &&& a.path_suffix == b.path_suffix
                &&& a.ramdisk_required == b.ramdisk_required
                &&& a.device_paths.is_prefix_of(b.device_paths)
                &&& a.child_matchers.len() == b.child_matchers.len()
                &&& forall|i: int|
                    0 <= i < a.child_matchers.len() ==> (#[trigger] a.child_matchers[i]).becomes(
                        b.child_matchers[i],
                    )
            },
            _ => self == later,
        }
    }
}

impl MatchersModel {
    /// The matchers may come to be `later` by taking devices: each keeps what it looks for, and
    /// what is matched stays matched.
    pub open spec fn becomes(self, later: MatchersModel) -> bool {
        &&& self.matchers.len() == later.matchers.len()
        &&& forall|i: int|
            0 <= i < self.matchers.len() ==> (#[trigger] self.matchers[i]).becomes(
                later.matchers[i],
            )
        &&& self.matched.dom().subset_of(later.matched.dom())
    }

    /// What a matcher for a ramdisk took, itself or by its child matchers, lies on that ramdisk.
    pub open spec fn on_ramdisk(self) -> bool {
        forall|path: Seq<char>| #[trigger]
            self.matched.contains_key(path) ==> (
            self.matchers[self.matched[path]].ramdisk() matches Some(prefix)
                ==> prefix.is_prefix_of(path))
    }

    /// The matchers of a product before any device appeared.
    pub open spec fn initial(config: Config) -> MatchersModel {
        MatchersModel { matchers: config.matchers(), matched: Map::empty() }
    }
}

impl MatcherModel {
    /// The prefix of the ramdisk that the devices are to be on.
    pub open spec fn ramdisk(self) -> Option<Seq<char>> {
        match self {
            MatcherModel::PartitionMap(map) => map.ramdisk_required,
            _ => None,
        }
    }

    /// A partition map that is to match one device only.
    pub open spec fn is_single_map(self) -> bool {
        self matches MatcherModel::PartitionMap(map) && !map.allow_multiple
    }
}

proof fn lemma_becomes_itself(m: MatcherModel)
    ensures
        m.becomes(m),
    decreases m,
{
    if let MatcherModel::PartitionMap(map) = m {
        assert forall|i: int| 0 <= i < map.child_matchers.len() implies (
        #[trigger] map.child_matchers[i]).becomes(map.child_matchers[i]) by {
            lemma_becomes_itself(map.child_matchers[i]);
        }
    }
}

proof fn lemma_becomes_composes(a: MatcherModel, b: MatcherModel, c: MatcherModel)
    requires
        a.becomes(b),
        b.becomes(c),
    ensures
        a.becomes(c),
    decreases a,
{
    if let MatcherModel::PartitionMap(map) = a {
        let kids = b->PartitionMap_0.child_matchers;
        let grandkids = c->PartitionMap_0.child_matchers;
        assert forall|i: int| 0 <= i < map.child_matchers.len() implies (
        #[trigger] map.child_matchers[i]).becomes(grandkids[i]) by {
            assert(kids[i].becomes(grandkids[i]));
            lemma_becomes_composes(map.child_matchers[i], kids[i], grandkids[i]);
        }
    }
}

/// Matchers may stay as they are.
pub proof fn law_becomes_is_reflexive(m: MatchersModel)
    ensures
        m.becomes(m),
{
    assert forall|i: int| 0 <= i < m.matchers.len() implies (#[trigger] m.matchers[i]).becomes(
        m.matchers[i],
    ) by {
        lemma_becomes_itself(m.matchers[i]);
    }
}

/// What comes of what comes of the matchers comes of the matchers.
pub proof fn law_becomes_is_transitive(a: MatchersModel, b: MatchersModel, c: MatchersModel)
    requires
        a.becomes(b),
        b.becomes(c),
    ensures
        a.becomes(c),
{
    assert forall|i: int| 0 <= i < a.matchers.len() implies (#[trigger] a.matchers[i]).becomes(
        c.matchers[i],
    ) by {
        assert(b.matchers[i].becomes(c.matchers[i]));
        lemma_becomes_composes(a.matchers[i], b.matchers[i], c.matchers[i]);
    }
}

/// Taking a device is such a change.
pub proof fn law_match_only_adds(m: MatchersModel, s: SearchView)
    requires
        s.fits(m),
    ensures
        m.becomes(m.after_match(s)),
        m.after_match(s).matched.contains_key(s.device.path),
        m.after_match(s).matched[s.device.path] == s.index(),
{
    let after = m.after_match(s);
    let matcher = m.matchers[s.index()];
    assert forall|i: int| 0 <= i < m.matchers.len() implies (#[trigger] m.matchers[i]).becomes(
        after.matchers[i],
    ) by {
        lemma_becomes_itself(m.matchers[i]);
        if i == s.index() {
            if let MatcherModel::PartitionMap(map) = matcher {
                let kids = after.matchers[i]->PartitionMap_0.child_matchers;
                assert forall|c: int| 0 <= c < map.child_matchers.len() implies (
                #[trigger] map.child_matchers[c]).becomes(kids[c]) by {
                    lemma_becomes_itself(map.child_matchers[c]);
                    if let MatcherModel::PartitionMap(inner) = map.child_matchers[c] {
                        assert forall|k: int| 0 <= k < inner.child_matchers.len() implies (
                        #[trigger] inner.child_matchers[k]).becomes(inner.child_matchers[k]) by {
                            lemma_becomes_itself(inner.child_matchers[k]);
                        }
                    }
                }
            }
        }
    }
}

/// A partition map that is to match one device only takes no second one, however many searches
/// come after the first.
pub proof fn law_single_map_takes_one<E>(
    m: MatchersModel,
    s: SearchView,
    later: MatchersModel,
    d: DeviceView,
    replies: spec_fn(PlaceView, int) -> Result<Answer, E>,
)
    requires
        s.fits(m),
        s.place is Global,
        s.matcher(m).is_single_map(),
        m.after_match(s).becomes(later),
    ensures
        !later.matchers[s.index()].admits(d),
        later.taker(d, replies) != Ok::<Option<PlaceView>, E>(Some(s.place)),
{
    let i = s.index();
    assert(m.after_match(s).matchers[i].becomes(later.matchers[i]));
    law_first_in_order_decides(later, d, replies);
}

/// A partition map that may match several devices admits a device whatever it took before.
pub proof fn law_multiple_map_stays_open(m: MatchersModel, s: SearchView, d: DeviceView)
    requires
        s.fits(m),
        s.place is Global,
        s.matcher(m) matches MatcherModel::PartitionMap(map) && map.allow_multiple,
    ensures
        m.after_match(s).matchers[s.index()].admits(d) == s.matcher(m).admits(d),
{
}

/// A device that was taken is among the parents of every device below it, then and later.
pub proof fn law_taken_device_is_parent(
    m: MatchersModel,
    s: SearchView,
    later: MatchersModel,
    d: DeviceView,
)
    requires
        s.fits(m),
        m.after_match(s).becomes(later),
        crate::matched::is_ancestor(s.device.path, d.path),
    ensures
        later.parents(d).contains((s.device.path, later.matched[s.device.path])),
        m.after_match(s).parents(d).contains((s.device.path, s.index())),
{
    law_ancestors_nearest_first(later.matched, d.path);
    law_ancestors_nearest_first(m.after_match(s).matched, d.path);
    assert(m.after_match(s).matched.dom().contains(s.device.path));
    assert(later.matched.contains_key(s.device.path));
    assert(m.after_match(s).matched.contains_key(s.device.path));
}

/// A matcher for a ramdisk, and its child matchers, only take devices on that ramdisk.
pub proof fn law_ramdisk_is_kept(m: MatchersModel, s: SearchView)
    requires
        m.wf(),
        m.on_ramdisk(),
        s.fits(m),
        s.parents == m.parents(s.device),
    ensures
        m.matchers[s.index()].ramdisk() matches Some(prefix) ==> prefix.is_prefix_of(s.device.path),
        m.after_match(s).on_ramdisk(),
{
    let matcher = m.matchers[s.index()];
    law_ancestors_nearest_first(m.matched, s.device.path);
    if let PlaceView::Child { parent, .. } = s.place {
        let above = s.parents[parent].0;
        assert(m.matched.contains_key(above));
        if let MatcherModel::PartitionMap(map) = matcher {
            law_partition_extends_parent(s.device.path, above, map.path_suffix);
            if let Some(prefix) = map.ramdisk_required {
                assert(prefix =~= above.subrange(0, prefix.len() as int));
                assert(prefix =~= s.device.path.subrange(0, prefix.len() as int));
            }
        }
    }
    let after = m.after_match(s);
    assert forall|path: Seq<char>| #[trigger] after.matched.contains_key(path) implies (
    after.matchers[after.matched[path]].ramdisk() matches Some(prefix) ==> prefix.is_prefix_of(
        path,
    )) by {
        if path != s.device.path {
            assert(m.matched.contains_key(path));
        }
    }
}

/// Before any device appeared the matchers of a product are well-formed.
pub proof fn law_initial_matchers(config: Config)
    ensures
        MatchersModel::initial(config).wf(),
        MatchersModel::initial(config).on_ramdisk(),
{
    lemma_matchers_wf(config);
}

/// A search only comes to matchers that the product configures. Blobfs and data are mounted only
/// where they are configured and not when netbooting, and then, if FVM is to be on a ramdisk, only
/// below the matcher for that ramdisk. Zxcrypt is bound only beside a ramdisk, and not when the
/// data filesystem is fxfs.
pub proof fn law_only_what_is_configured(config: Config, m: MatchersModel, s: SearchView)
    requires
        MatchersModel::initial(config).becomes(m),
        s.fits(m),
    ensures
        match s.matcher(m) {
            MatcherModel::Bootpart => config.bootpart,
            MatcherModel::Nand => config.nand,
            MatcherModel::PartitionMap(map) => {
                ||| map.content_format == DiskFormat::Gpt && config.gpt && !map.allow_multiple
                ||| map.content_format == DiskFormat::Gpt && config.gpt_all && map.allow_multiple
                ||| map.content_format == DiskFormat::Fvm && !map.allow_multiple && (config.fvm
                    || config.filesystems().len() > 0)
            },
            MatcherModel::Partition { .. } => config.fvm || config.filesystems().len() > 0,
        },
        ({
            let request = s.matcher(m).request(s.step);
            let ramdisk = m.matchers[s.index()].ramdisk();
            &&& request == Request::MountBlobfs ==> config.blobfs && !config.netboot
            &&& request == Request::MountData ==> config.data && !config.netboot
            &&& request == Request::MountBlobfs || request == Request::MountData ==> ramdisk
                == if config.fvm_ramdisk {
                Some(config.ramdisk_prefix@)
            } else {
                None
            }
            &&& request == Request::BindZxcrypt ==> config.fvm_ramdisk && ramdisk is None
                && config.data_filesystem_format@ != FXFS@
        }),
{
    let i = s.index();
    let at_first = config.matchers()[i];
    assert(MatchersModel::initial(config).matchers[i].becomes(m.matchers[i]));
    lemma_configured(config, i);
    if let PlaceView::Child { child, .. } = s.place {
        assert(at_first.children()[child].becomes(m.matchers[i].children()[child]));
        if at_first.children() == config.filesystems() {
            lemma_filesystems(config, child);
        }
    }
}

} // verus!
