//! What comes of a search in the end, told from all the answers that it gets.
//!
//! The answers are given as a function: `replies(place, step)` is what comes back for request
//! number `step` of the matcher at `place`, which a search makes at most once.
use crate::device::{Answer, DeviceView, Request};
use crate::model::{lemma_first_admitting, lemma_round_asks, Event, MatcherModel};
use crate::search::{MatchersModel, Outcome, PlaceView, SearchView};
use vstd::prelude::*;

verus! {

/// The matcher makes its requests from number `step` on: the first that fails is the failure of
/// the whole, the first check that does not pass has the device declined, and when all is done
/// the device is taken.
pub open spec fn interview<E>(
    matcher: MatcherModel,
    replies: spec_fn(int) -> Result<Answer, E>,
    step: int,
) -> Result<bool, E>
    decreases matcher.steps() - step,
{
    if step >= matcher.steps() {
        Ok(true)
    } else {
        match replies(step) {
            Err(error) => Err(error),
            Ok(answer) => if step < matcher.checks().len() && !matcher.checks()[step].passes(
                answer,
            ) {
                Ok(false)
            } else {
                interview(matcher, replies, step + 1)
            },
        }
    }
}

/// Whether the matcher takes the device.
pub open spec fn try_device<E>(
    matcher: MatcherModel,
    d: DeviceView,
    replies: spec_fn(int) -> Result<Answer, E>,
) -> Result<bool, E> {
    if matcher.admits(d) {
        interview(matcher, replies, 0)
    } else {
        Ok(false)
    }
}

/// The first of `matchers`, from number `from` on, that takes the device, unless one before it
/// fails.
pub open spec fn try_each<E>(
    matchers: Seq<MatcherModel>,
    d: DeviceView,
    replies: spec_fn(int) -> spec_fn(int) -> Result<Answer, E>,
    from: int,
) -> Result<Option<int>, E>
    decreases matchers.len() - from,
{
    if from >= matchers.len() {
        Ok(None)
    } else {
        match try_device(matchers[from], d, replies(from)) {
            Err(error) => Err(error),
            Ok(true) => Ok(Some(from)),
            Ok(false) => try_each(matchers, d, replies, from + 1),
        }
    }
}

/// The replies that the child matchers below parent number `parent` get.
pub open spec fn below<E>(
    replies: spec_fn(PlaceView, int) -> Result<Answer, E>,
    parent: int,
) -> spec_fn(int) -> spec_fn(int) -> Result<Answer, E> {
    |child: int| |step: int| replies(PlaceView::Child { parent, child }, step)
}

/// The replies that the matchers themselves get.
pub open spec fn globally<E>(
    replies: spec_fn(PlaceView, int) -> Result<Answer, E>,
) -> spec_fn(int) -> spec_fn(int) -> Result<Answer, E> {
    |index: int| |step: int| replies(PlaceView::Global { index }, step)
}

impl MatchersModel {
    /// The first child matcher that takes the device, from child matcher `child` below parent
    /// number `parent` on.
    pub open spec fn try_children<E>(
        self,
        d: DeviceView,
        parents: Seq<(Seq<char>, int)>,
        replies: spec_fn(PlaceView, int) -> Result<Answer, E>,
        parent: int,
        child: int,
    ) -> Result<Option<PlaceView>, E>
        decreases parents.len() - parent,
    {
        if parent >= parents.len() {
            Ok(None)
        } else {
            let matcher = self.matchers[parents[parent].1];
            let found = if matcher.adopts(d.path, parents[parent].0) {
                try_each(matcher.children(), d, below(replies, parent), child)
            } else {
                Ok(None)
            };
            match found {
                Err(error) => Err(error),
                Ok(Some(child)) => Ok(Some(PlaceView::Child { parent, child })),
                Ok(None) => self.try_children(d, parents, replies, parent + 1, 0),
            }
        }
    }

    /// The first of the matchers themselves that takes the device, from number `index` on.
    pub open spec fn try_globally<E>(
        self,
        d: DeviceView,
        replies: spec_fn(PlaceView, int) -> Result<Answer, E>,
        index: int,
    ) -> Result<Option<PlaceView>, E> {
        match try_each(self.matchers, d, globally(replies), index) {
            Err(error) => Err(error),
            Ok(Some(index)) => Ok(Some(PlaceView::Global { index })),
            Ok(None) => Ok(None),
        }
    }

    /// What comes of the search from child matcher `child` below parent number `parent` on.
    pub open spec fn taker_from<E>(
        self,
        d: DeviceView,
        parents: Seq<(Seq<char>, int)>,
        replies: spec_fn(PlaceView, int) -> Result<Answer, E>,
        parent: int,
        child: int,
    ) -> Result<Option<PlaceView>, E> {
        match self.try_children(d, parents, replies, parent, child) {
            Ok(None) => self.try_globally(d, replies, 0),
            found => found,
        }
    }

    /// Which matcher takes the device, if any does: the child matchers below the matched parents
    /// of the device come first, from the nearest parent up, then the matchers themselves.
    pub open spec fn taker<E>(
        self,
        d: DeviceView,
        replies: spec_fn(PlaceView, int) -> Result<Answer, E>,
    ) -> Result<Option<PlaceView>, E> {
        self.taker_from(d, self.parents(d), replies, 0, 0)
    }

    /// The replies are of the kinds that the matchers ask for.
    pub open spec fn suits<E>(
        self,
        d: DeviceView,
        parents: Seq<(Seq<char>, int)>,
        replies: spec_fn(PlaceView, int) -> Result<Answer, E>,
    ) -> bool {
        forall|place: PlaceView, step: int|
            {
                let s = SearchView { device: d, parents, place, step };
                s.fits(self) ==> (#[trigger] replies(place, step) matches Ok(answer)
                    ==> s.matcher(self).request(step).answered_by(answer))
            }
    }

    /// What comes of the search that has got to `outcome`, when each request is performed and its
    /// answer handed back.
    pub open spec fn conclude<E>(
        self,
        d: DeviceView,
        parents: Seq<(Seq<char>, int)>,
        replies: spec_fn(PlaceView, int) -> Result<Answer, E>,
        outcome: Outcome,
    ) -> Result<Option<PlaceView>, E>
        decreases
            self.rank(parents, outcome).0,
            self.rank(parents, outcome).1,
            self.rank(parents, outcome).2,
        when self.suits(d, parents, replies) && self.reached(d, parents, outcome)
    {
        match outcome {
            Outcome::Match(place) => Ok(Some(place)),
            Outcome::Decline => Ok(None),
            Outcome::Ask { place, step } => match replies(place, step) {
                Err(error) => Err(error),
                Ok(answer) => {
                    let s = SearchView { device: d, parents, place, step };
                    proof {
                        lemma_progress(self, s, answer);
                    }
                    self.conclude(d, parents, replies, self.resume(s, answer))
                },
            },
        }
    }

    /// The matchers at the end of the search that has got to `outcome`, when each request is
    /// performed and its answer handed back.
    pub open spec fn left<E>(
        self,
        d: DeviceView,
        parents: Seq<(Seq<char>, int)>,
        replies: spec_fn(PlaceView, int) -> Result<Answer, E>,
        outcome: Outcome,
    ) -> MatchersModel
        decreases
            self.rank(parents, outcome).0,
            self.rank(parents, outcome).1,
            self.rank(parents, outcome).2,
        when self.suits(d, parents, replies) && self.reached(d, parents, outcome)
    {
        match outcome {
            Outcome::Ask { place, step } => match replies(place, step) {
                Err(_) => self,
                Ok(answer) => {
                    let s = SearchView { device: d, parents, place, step };
                    let next = self.resume(s, answer);
                    proof {
                        lemma_progress(self, s, answer);
                    }
                    if next is Ask {
                        self.left(d, parents, replies, next)
                    } else {
                        self.after_answer(s, answer)
                    }
                },
            },
            _ => self,
        }
    }

    /// The search for `d` at the matcher at `place`.
    pub open spec fn search_at(self, d: DeviceView, place: PlaceView) -> SearchView {
        SearchView { device: d, parents: self.parents(d), place, step: 0 }
    }

    /// The matchers after the search for a matcher for `d`: changed by the one that takes the
    /// device, if any does.
    pub open spec fn after_search<E>(
        self,
        d: DeviceView,
        replies: spec_fn(PlaceView, int) -> Result<Answer, E>,
    ) -> MatchersModel {
        match self.taker(d, replies) {
            Ok(Some(place)) => self.after_match(self.search_at(d, place)),
            _ => self,
        }
    }

    /// The requests that the search makes from `outcome` on.
    pub open spec fn requests<E>(
        self,
        d: DeviceView,
        parents: Seq<(Seq<char>, int)>,
        replies: spec_fn(PlaceView, int) -> Result<Answer, E>,
        outcome: Outcome,
    ) -> Seq<Request>
        decreases
            self.rank(parents, outcome).0,
            self.rank(parents, outcome).1,
            self.rank(parents, outcome).2,
        when self.suits(d, parents, replies) && self.reached(d, parents, outcome)
    {
        match outcome {
            Outcome::Ask { place, step } => {
                let s = SearchView { device: d, parents, place, step };
                let request = s.matcher(self).request(step);
                match replies(place, step) {
                    Err(_) => seq![request],
                    Ok(answer) => {
                        proof {
                            lemma_progress(self, s, answer);
                        }
                        seq![request] + self.requests(d, parents, replies, self.resume(s, answer))
                    },
                }
            },
            _ => seq![],
        }
    }

    /// The device can be offered to the matcher at `place`.
    pub open spec fn offers(
        self,
        d: DeviceView,
        parents: Seq<(Seq<char>, int)>,
        place: PlaceView,
    ) -> bool {
        match place {
            PlaceView::Child { parent, child } => {
                &&& 0 <= parent < parents.len()
                &&& self.matchers[parents[parent].1].adopts(d.path, parents[parent].0)
                &&& 0 <= child < self.matchers[parents[parent].1].children().len()
            },
            PlaceView::Global { index } => 0 <= index < self.matchers.len(),
        }
    }

    /// Whether the matcher at `place` takes the device.
    pub open spec fn try_at<E>(
        self,
        d: DeviceView,
        parents: Seq<(Seq<char>, int)>,
        replies: spec_fn(PlaceView, int) -> Result<Answer, E>,
        place: PlaceView,
    ) -> Result<bool, E> {
        match place {
            PlaceView::Child { parent, child } => try_device(
                self.matchers[parents[parent].1].children()[child],
                d,
                below(replies, parent)(child),
            ),
            PlaceView::Global { index } => try_device(
                self.matchers[index],
                d,
                globally(replies)(index),
            ),
        }
    }

    /// The device can be offered to the matcher at `place`, and every matcher to which it is
    /// offered before declines.
    pub open spec fn falls_to<E>(
        self,
        d: DeviceView,
        parents: Seq<(Seq<char>, int)>,
        replies: spec_fn(PlaceView, int) -> Result<Answer, E>,
        place: PlaceView,
    ) -> bool {
        &&& self.offers(d, parents, place)
        &&& forall|p: PlaceView| #[trigger]
            self.offers(d, parents, p) && p.comes_before(place) ==> self.try_at(
                d,
                parents,
                replies,
                p,
            ) == Ok::<bool, E>(false)
    }

    /// `outcome` is one that a search can get to.
    pub open spec fn reached(
        self,
        d: DeviceView,
        parents: Seq<(Seq<char>, int)>,
        outcome: Outcome,
    ) -> bool {
        outcome matches Outcome::Ask { place, step } ==> (SearchView {
            device: d,
            parents,
            place,
            step,
        }).fits(self)
    }

    /// How much lies before a search: the parents, the matchers there, the requests of the one
    /// that it has come to.
    pub open spec fn rank(self, parents: Seq<(Seq<char>, int)>, outcome: Outcome) -> (
        int,
        int,
        int,
    ) {
        match outcome {
            Outcome::Ask { place: PlaceView::Child { parent, child }, step } => {
                let children = self.matchers[parents[parent].1].children();
                (parents.len() - parent, children.len() - child, children[child].steps() - step)
            },
            Outcome::Ask { place: PlaceView::Global { index }, step } => (
                0,
                self.matchers.len() - index,
                self.matchers[index].steps() - step,
            ),
            _ => (0, 0, 0),
        }
    }
}

impl PlaceView {
    /// A device is offered to the matcher here before it is offered to the one at `other`.
    pub open spec fn comes_before(self, other: PlaceView) -> bool {
        match (self, other) {
            (
                PlaceView::Child { parent, child },
                PlaceView::Child { parent: other_parent, child: other_child },
            ) => parent < other_parent || (parent == other_parent && child < other_child),
            (PlaceView::Child { .. }, PlaceView::Global { .. }) => true,
            (PlaceView::Global { .. }, PlaceView::Child { .. }) => false,
            (PlaceView::Global { index }, PlaceView::Global { index: other_index }) => index
                < other_index,
        }
    }
}

/// `a` is less than `b`, going by the first component in which they differ.
pub open spec fn less(a: (int, int, int), b: (int, int, int)) -> bool {
    a.0 < b.0 || (a.0 == b.0 && (a.1 < b.1 || (a.1 == b.1 && a.2 < b.2)))
}

/// A device that is offered from child matcher `child` below parent number `parent` on gets to
/// one of the matchers that lie before it.
pub proof fn lemma_offered(
    m: MatchersModel,
    d: DeviceView,
    parents: Seq<(Seq<char>, int)>,
    parent: int,
    child: int,
)
    requires
        0 <= parent,
        0 <= child,
        forall|j: int|
            0 <= j < parents.len() ==> 0 <= (#[trigger] parents[j]).1 < m.matchers.len(),
    ensures
        ({
            let next = m.child_turn(d, parents, parent, child, Event::Appeared);
            let rank = m.rank(parents, next);
            &&& m.reached(d, parents, next)
            &&& 0 <= rank.0 && (parent <= parents.len() ==> rank.0 <= parents.len() - parent)
            &&& 0 <= rank.1
            &&& 0 <= rank.2
        }),
    decreases parents.len() - parent,
{
    if parent >= parents.len() {
        lemma_round_asks(m.matchers, d, 0, Event::Appeared);
    } else {
        lemma_round_asks(m.matchers[parents[parent].1].children(), d, child, Event::Appeared);
        lemma_offered(m, d, parents, parent + 1, 0);
    }
}

/// An answer brings a search forward.
pub proof fn lemma_progress(m: MatchersModel, s: SearchView, answer: Answer)
    requires
        s.fits(m),
        s.matcher(m).request(s.step).answered_by(answer),
    ensures
        ({
            let next = m.resume(s, answer);
            let rank = m.rank(s.parents, next);
            &&& m.reached(s.device, s.parents, next)
            &&& less(rank, m.rank(s.parents, Outcome::Ask { place: s.place, step: s.step }))
            &&& 0 <= rank.0
            &&& 0 <= rank.1
            &&& 0 <= rank.2
        }),
{
    let event = Event::Answered(s.step as usize, answer);
    match s.place {
        PlaceView::Child { parent, child } => {
            lemma_round_asks(m.matchers[s.parents[parent].1].children(), s.device, child, event);
            lemma_first_admitting(
                m.matchers[s.parents[parent].1].children(),
                s.device,
                child + 1,
            );
            lemma_offered(m, s.device, s.parents, parent + 1, 0);
        },
        PlaceView::Global { index } => {
            lemma_round_asks(m.matchers, s.device, index, event);
            lemma_first_admitting(m.matchers, s.device, index + 1);
        },
    }
}

} // verus!
