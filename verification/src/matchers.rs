//! The set of matchers of a product.
use crate::config::{fvm, gpt, lemma_matchers_wf, only_if, zxcrypt, Config};
use crate::constants::{FVM_DRIVER_PATH, FVM_PATH_SUFFIX, FXFS, GPT_DRIVER_PATH};
use crate::device::{Answer, DeviceInfo, DeviceView, DiskFormat, Request};
use crate::history::{law_becomes_is_reflexive, law_match_only_adds};
use crate::matched::{entry_views, Entry, MatchedPaths};
use crate::matcher::{
    models, round, AnyMatcher, BlobfsMatcher, BootpartMatcher, DataMatcher, Matcher, NandMatcher,
    PartitionMapMatcher, ZxcryptMatcher,
};
use crate::model::{lemma_round_asks, Event, MatcherModel, Offer};
use crate::search::{
    lemma_after_match_wf, lemma_appeared_is_not_taken, lemma_parents_in_range, MatchersModel,
    Outcome, PlaceView, SearchView,
};
use crate::text::equal;
use vstd::prelude::*;

verus! {

/// The matchers of a product, in the order in which they are tried, and the devices that they
/// have matched.
pub struct Matchers {
    matchers: Vec<AnyMatcher>,
    matched: MatchedPaths,
}

impl View for Matchers {
    type V = MatchersModel;

    closed spec fn view(&self) -> MatchersModel {
        MatchersModel {
            matchers: models(self.matchers@),
            matched: self.matched@,
        }
    }
}

/// The matcher that a search has come to.
enum Place {
    Child { parent: usize, child: usize },
    Global { index: usize },
}

impl View for Place {
    type V = PlaceView;

    closed spec fn view(&self) -> PlaceView {
        match *self {
            Place::Child { parent, child } => PlaceView::Child {
                parent: parent as int,
                child: child as int,
            },
            Place::Global { index } => PlaceView::Global { index: index as int },
        }
    }
}

/// A search for the matcher that takes a device, while a request is outstanding.
pub struct Search {
    device: DeviceInfo,
    parents: Vec<Entry>,
    place: Place,
    step: usize,
    request: Request,
}

impl View for Search {
    type V = SearchView;

    closed spec fn view(&self) -> SearchView {
        SearchView {
            device: self.device@,
            parents: entry_views(self.parents@),
            place: self.place@,
            step: self.step as int,
        }
    }
}

impl Search {
    /// The request that is outstanding.
    pub closed spec fn pending(&self) -> Request {
        self.request
    }

    /// What the matcher wants of the device or of the environment.
    pub fn request(&self) -> (request: Request)
        ensures
            request == self.pending(),
    {
        self.request
    }

    /// The search is one among the matchers of `m`, and waits for what the matcher asked.
    pub open spec fn fits(&self, m: MatchersModel) -> bool {
        self@.fits(m) && self.pending() == self@.matcher(m).request(self@.step)
    }
}

/// What happens to the matchers: a device appears, or the request of a search was answered or
/// failed.
pub enum Notice<E> {
    Appeared(DeviceInfo),
    Answered(Search, Result<Answer, E>),
}

/// What is to be done then: perform the request of the search and hand the answer back, or
/// nothing more, the result being whether a matcher took the device.
pub enum Step<E> {
    Ask(Search),
    Done(Result<bool, E>),
}

impl<E> Step<E> {
    /// The step carries out `outcome` in the search for `device` among the matchers of `m`.
    pub open spec fn shows(
        self,
        outcome: Outcome,
        device: DeviceView,
        parents: Seq<(Seq<char>, int)>,
        m: MatchersModel,
    ) -> bool {
        match outcome {
            Outcome::Ask { place, step } => {
                &&& self matches Step::Ask(search)
                &&& search@ == (SearchView { device, parents, place, step })
                &&& search.fits(m)
            },
            Outcome::Match(_) => self == Step::<E>::Done(Ok(true)),
            Outcome::Decline => self == Step::<E>::Done(Ok(false)),
        }
    }
}

/// A search is over with `true` exactly if a matcher took the device, and with `false` exactly if
/// all declined. Otherwise it waits for the request that the matcher makes at the place and step
/// that it has come to, about the same device.
pub proof fn law_step_tells_outcome<E>(
    step: Step<E>,
    outcome: Outcome,
    device: DeviceView,
    parents: Seq<(Seq<char>, int)>,
    m: MatchersModel,
)
    requires
        step.shows(outcome, device, parents, m),
    ensures
        step == Step::<E>::Done(Ok(true)) <==> outcome is Match,
        step == Step::<E>::Done(Ok(false)) <==> outcome is Decline,
        !(step matches Step::Done(Err(_))),
        step matches Step::Ask(search) ==> {
            &&& outcome == (Outcome::Ask { place: search@.place, step: search@.step })
            &&& search@.device == device
            &&& search@.parents == parents
            &&& search.pending() == search@.matcher(m).request(search@.step)
            &&& search.fits(m)
        },
{
}

/// Adds `matcher` behind those that are there.
fn append(matchers: &mut Vec<AnyMatcher>, matcher: AnyMatcher)
    ensures
        models(final(matchers)@) == models(old(matchers)@).push(matcher.0.model()),
{
    matchers.push(matcher);
    assert(models(matchers@) =~= models(old(matchers)@).push(matcher.0.model()));
}

/// The matcher for FVM, on the ramdisk if it is to be there, and for the filesystems in it.
fn fvm_matcher(config: &Config) -> (m: PartitionMapMatcher)
    ensures
        m.model() == fvm(
            if config.fvm_ramdisk {
                Some(config.ramdisk_prefix@)
            } else {
                None
            },
            config.filesystems(),
        ),
{
    let mut m = PartitionMapMatcher::new(
        DiskFormat::Fvm,
        false,
        FVM_DRIVER_PATH,
        FVM_PATH_SUFFIX,
        if config.fvm_ramdisk { Some(config.ramdisk_prefix.clone()) } else { None },
    );
    if !config.netboot {
        if config.blobfs {
            m.add_child(BlobfsMatcher::new().boxed());
        }
        if config.data {
            m.add_child(DataMatcher::new().boxed());
        }
    }
    assert(m.model().children() =~= config.filesystems());
    m
}

/// The matcher for an FVM that is not on the ramdisk.
fn non_ramdisk_fvm_matcher(config: &Config) -> (m: PartitionMapMatcher)
    ensures
        m.model() == fvm(None, only_if(config.data_filesystem_format@ != FXFS@, zxcrypt())),
{
    let mut m = PartitionMapMatcher::new(
        DiskFormat::Fvm,
        false,
        FVM_DRIVER_PATH,
        FVM_PATH_SUFFIX,
        None,
    );
    if !equal(config.data_filesystem_format.as_str(), FXFS) {
        m.add_child(ZxcryptMatcher::new().boxed());
    }
    assert(m.model().children() =~= only_if(
        config.data_filesystem_format@ != FXFS@,
        zxcrypt(),
    ));
    m
}

/// Adds the matchers for FVM behind those that are there.
fn append_volumes(matchers: &mut Vec<AnyMatcher>, config: &Config)
    ensures
        models(final(matchers)@) == models(old(matchers)@) + config.volumes(),
{
    let fvm_matcher = fvm_matcher(config);
    if config.fvm || fvm_matcher.has_children() {
        append(matchers, fvm_matcher.boxed());

        if config.fvm_ramdisk {
            // Add another matcher for the non-ramdisk version of fvm.
            append(matchers, non_ramdisk_fvm_matcher(config).boxed());
        }
    }
    assert(models(matchers@) =~= models(old(matchers)@) + config.volumes());
}

impl Matchers {
    /// Every matched device belongs to a matcher, no partition map has matched more devices than
    /// it is to, and each matched path occurs once.
    pub closed spec fn wf(&self) -> bool {
        self.matched.wf() && self@.wf()
    }

    /// The matchers that this stands for are well-formed.
    pub proof fn lemma_view_is_wf(&self)
        requires
            self.wf(),
        ensures
            self@.wf(),
    {
    }

    /// Create a new set of matchers. This essentially describes the expected partition layout for
    /// a device.
    pub fn new(config: &Config) -> (m: Self)
        ensures
            m.wf(),
            m@.wf(),
            m@.matchers == config.matchers(),
            m@.matched == Map::<Seq<char>, int>::empty(),
    {
        let mut matchers: Vec<AnyMatcher> = Vec::new();
        assert(models(matchers@) =~= seq![]);

        if config.bootpart {
            append(&mut matchers, BootpartMatcher::new().boxed());
        }
        let ghost expected = only_if(config.bootpart, MatcherModel::Bootpart);
        assert(models(matchers@) =~= expected);
        if config.nand {
            append(&mut matchers, NandMatcher::new().boxed());
        }
        let ghost expected = expected + only_if(config.nand, MatcherModel::Nand);
        assert(models(matchers@) =~= expected);
        let gpt_matcher = PartitionMapMatcher::new(DiskFormat::Gpt, false, GPT_DRIVER_PATH, "", None);
        if config.gpt || gpt_matcher.has_children() {
            append(&mut matchers, gpt_matcher.boxed());
        }
        let ghost expected = expected + only_if(config.gpt, gpt(false));
        assert(models(matchers@) =~= expected);
        append_volumes(&mut matchers, config);
        let ghost expected = expected + config.volumes();
        if config.gpt_all {
            let matcher = PartitionMapMatcher::new(DiskFormat::Gpt, true, GPT_DRIVER_PATH, "", None);
            append(&mut matchers, matcher.boxed());
        }
        assert(models(matchers@) =~= config.matchers());
        proof {
            lemma_matchers_wf(*config);
        }
        Matchers { matchers, matched: MatchedPaths::new() }
    }

    /// Using the set of matchers we created, figure out if this block device matches any of our
    /// expected partitions. If it does, have the filesystem launched or the driver bound that
    /// goes with it.
    pub fn match_device<E>(&mut self, notice: Notice<E>) -> (step: Step<E>)
        requires
            old(self).wf(),
            notice matches Notice::Answered(search, answer) ==> {
                &&& search.fits(old(self)@)
                &&& answer matches Ok(answer) ==> search.pending().answered_by(answer)
            },
        ensures
            final(self).wf(),
            final(self)@.wf(),
            old(self)@.becomes(final(self)@),
            match notice {
                Notice::Appeared(device) => {
                    &&& step.shows(
                        old(self)@.start(device@),
                        device@,
                        old(self)@.parents(device@),
                        old(self)@,
                    )
                    &&& final(self)@ == old(self)@
                },
                Notice::Answered(search, Ok(answer)) => {
                    &&& step.shows(
                        old(self)@.resume(search@, answer),
                        search@.device,
                        search@.parents,
                        old(self)@,
                    )
                    &&& final(self)@ == old(self)@.after_answer(search@, answer)
                },
                Notice::Answered(_, Err(error)) => {
                    &&& step == Step::Done(Err(error))
                    &&& final(self)@ == old(self)@
                },
            },
    {
        proof {
            law_becomes_is_reflexive(self@);
        }
        match notice {
            Notice::Appeared(device) => {
                let parents = self.matched.ancestors(device.topological_path.as_str());
                proof {
                    lemma_parents_in_range(self@, device@.path, device@.path.len());
                    lemma_appeared_is_not_taken(self@, device@, self@.parents(device@), 0, 0);
                }
                self.advance_child(device, parents, 0, 0, Event::Appeared)
            },
            Notice::Answered(search, Ok(answer)) => {
                proof {
                    law_match_only_adds(self@, search@);
                }
                let event = Event::Answered(search.step, answer);
                match search.place {
                    Place::Child { parent, child } => self.advance_child(
                        search.device,
                        search.parents,
                        parent,
                        child,
                        event,
                    ),
                    Place::Global { index } => self.advance_global(
                        search.device,
                        search.parents,
                        index,
                        event,
                    ),
                }
            },
            Notice::Answered(_, Err(error)) => Step::Done(Err(error)),
        }
    }

    /// Hands `event` to child matcher `child` below parent number `parent`, and offers the device
    /// to those that come behind until one has a request or takes the device.
    fn advance_child<E>(
        &mut self,
        device: DeviceInfo,
        parents: Vec<Entry>,
        parent: usize,
        child: usize,
        event: Event,
    ) -> (step: Step<E>)
        requires
            old(self).wf(),
            old(self)@.expects(
                device@,
                entry_views(parents@),
                PlaceView::Child { parent: parent as int, child: child as int },
                event,
            ),
        ensures
            final(self).wf(),
            step.shows(
                old(self)@.child_turn(
                    device@,
                    entry_views(parents@),
                    parent as int,
                    child as int,
                    event,
                ),
                device@,
                entry_views(parents@),
                old(self)@,
            ),
            final(self)@ == if old(self)@.child_turn(
                device@,
                entry_views(parents@),
                parent as int,
                child as int,
                event,
            ) is Match {
                old(self)@.after_match(
                    SearchView {
                        device: device@,
                        parents: entry_views(parents@),
                        place: PlaceView::Child { parent: parent as int, child: child as int },
                        step: 0,
                    },
                )
            } else {
                old(self)@
            },
        decreases parents@.len() - parent,
    {
        if parent >= parents.len() {
            return self.advance_global(device, parents, 0, Event::Appeared);
        }
        let ghost before = self@;
        let entry = &parents[parent];
        assert(entry_views(parents@)[parent as int] == entry@);
        proof {
            if before.matchers[entry.index as int].adopts(device@.path, entry.path@) {
                lemma_round_asks(
                    before.matchers[entry.index as int].children(),
                    device@,
                    child as int,
                    event,
                );
            }
        }
        let offer = self.matchers[entry.index].0.match_child(
            &device,
            entry.path.as_str(),
            child,
            &event,
        );
        proof {
            assert(self@.matchers =~= before.matchers.update(
                entry.index as int,
                before.matchers[entry.index as int].child_after(
                    device@.path,
                    child as int,
                    offer@,
                ),
            ));
            if !(offer is Match) {
                assert(self@.matchers =~= before.matchers);
            }
        }
        match offer {
            Offer::Ask { number, step, request } => {
                Step::Ask(
                    Search {
                        device,
                        parents,
                        place: Place::Child { parent, child: number },
                        step,
                        request,
                    },
                )
            },
            Offer::Match => {
                proof {
                    lemma_after_match_wf(
                        before,
                        SearchView {
                            device: device@,
                            parents: entry_views(parents@),
                            place: PlaceView::Child { parent: parent as int, child: child as int },
                            step: 0,
                        },
                    );
                }
                self.matched.insert(device.topological_path.as_str(), entry.index);
                Step::Done(Ok(true))
            },
            Offer::Decline => {
                proof {
                    lemma_appeared_is_not_taken(
                        before,
                        device@,
                        entry_views(parents@),
                        parent + 1,
                        0,
                    );
                }
                self.advance_child(device, parents, parent + 1, 0, Event::Appeared)
            },
        }
    }

    /// Hands `event` to the matcher `index`, and offers the device to those that come behind it
    /// until one has a request or takes the device.
    fn advance_global<E>(
        &mut self,
        device: DeviceInfo,
        parents: Vec<Entry>,
        index: usize,
        event: Event,
    ) -> (step: Step<E>)
        requires
            old(self).wf(),
            old(self)@.expects(
                device@,
                entry_views(parents@),
                PlaceView::Global { index: index as int },
                event,
            ),
        ensures
            final(self).wf(),
            step.shows(
                old(self)@.global_turn(device@, index as int, event),
                device@,
                entry_views(parents@),
                old(self)@,
            ),
            final(self)@ == if old(self)@.global_turn(device@, index as int, event) is Match {
                old(self)@.after_match(
                    SearchView {
                        device: device@,
                        parents: entry_views(parents@),
                        place: PlaceView::Global { index: index as int },
                        step: 0,
                    },
                )
            } else {
                old(self)@
            },
    {
        let ghost before = self@;
        proof {
            lemma_round_asks(before.matchers, device@, index as int, event);
        }
        match round(&mut self.matchers, &device, index, &event) {
            Offer::Ask { number, step, request } => {
                Step::Ask(
                    Search { device, parents, place: Place::Global { index: number }, step, request },
                )
            },
            Offer::Match => {
                proof {
                    lemma_after_match_wf(
                        before,
                        SearchView {
                            device: device@,
                            parents: entry_views(parents@),
                            place: PlaceView::Global { index: index as int },
                            step: 0,
                        },
                    );
                }
                self.matched.insert(device.topological_path.as_str(), index);
                Step::Done(Ok(true))
            },
            Offer::Decline => Step::Done(Ok(false)),
        }
    }
}

} // verus!
