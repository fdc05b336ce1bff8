//! The search for a matcher: what a set of matchers does about a device, as a value.
use crate::device::{Answer, DeviceView};
use crate::model::{Action, Event, MatcherModel, OfferView};
use vstd::prelude::*;

verus! {

/// A matcher in a search: child matcher `child` of the matcher that took parent number `parent`,
/// or one of the matchers themselves.
pub enum PlaceView {
    Child { parent: int, child: int },
    Global { index: int },
}

/// A search that waits for the answer to request number `step` of the matcher at `place`.
pub struct SearchView {
    pub device: DeviceView,
    /// The matched devices above this one, the nearest first, each with the index of its matcher.
    pub parents: Seq<(Seq<char>, int)>,
    pub place: PlaceView,
    pub step: int,
}

/// How a search goes on.
pub enum Outcome {
    /// The matcher at `place` makes its request number `step`.
    Ask { place: PlaceView, step: int },
    /// The matcher at this place took the device.
    Match(PlaceView),
    /// No matcher took it.
    Decline,
}

pub struct MatchersModel {
    pub matchers: Seq<MatcherModel>,
    /// The matched devices, each with the index of the matcher that took it or whose child did.
    pub matched: Map<Seq<char>, int>,
}

impl SearchView {
    /// The index of the matcher that the search has come to, or whose child it has come to.
    pub open spec fn index(self) -> int {
        match self.place {
            PlaceView::Child { parent, .. } => self.parents[parent].1,
            PlaceView::Global { index } => index,
        }
    }

    /// The matcher that the search has come to.
    pub open spec fn matcher(self, m: MatchersModel) -> MatcherModel {
        match self.place {
            PlaceView::Child { parent, child } => m.matchers[self.parents[parent].1].children()[child],
            PlaceView::Global { index } => m.matchers[index],
        }
    }

    /// The search is one among the matchers of `m`.
    pub open spec fn fits(self, m: MatchersModel) -> bool {
        &&& forall|j: int|
            0 <= j < self.parents.len() ==> 0 <= (#[trigger] self.parents[j]).1 < m.matchers.len()
        &&& match self.place {
            PlaceView::Child { parent, child } => {
                &&& 0 <= parent < self.parents.len()
                &&& m.matchers[self.parents[parent].1].adopts(
                    self.device.path,
                    self.parents[parent].0,
                )
                &&& 0 <= child < m.matchers[self.parents[parent].1].children().len()
            },
            PlaceView::Global { index } => 0 <= index < m.matchers.len(),
        }
        &&& self.matcher(m).admits(self.device)
        &&& 0 <= self.step < self.matcher(m).steps()
    }
}

impl MatchersModel {
    /// Every matched device belongs to a matcher.
    pub open spec fn wf(self) -> bool {
        &&& forall|path: Seq<char>| #[trigger]
            self.matched.contains_key(path) ==> 0 <= self.matched[path] < self.matchers.len()
        &&& forall|i: int| 0 <= i < self.matchers.len() ==> (#[trigger] self.matchers[i]).wf()
    }

    /// `event` at the matcher `index`, or the device being offered to it and those behind it.
    pub open spec fn global_turn(self, d: DeviceView, index: int, event: Event) -> Outcome {
        match crate::model::round(self.matchers, d, index, event) {
            OfferView::Ask { number, step, .. } => Outcome::Ask {
                place: PlaceView::Global { index: number },
                step,
            },
            OfferView::Match => Outcome::Match(PlaceView::Global { index }),
            OfferView::Decline => Outcome::Decline,
        }
    }

    /// `event` at child matcher `child` below parent number `parent`. When the child matchers
    /// there decline, the device is offered below the next parent, and to the matchers
    /// themselves when there are no more parents.
    pub open spec fn child_turn(
        self,
        d: DeviceView,
        parents: Seq<(Seq<char>, int)>,
        parent: int,
        child: int,
        event: Event,
    ) -> Outcome
        decreases parents.len() - parent,
    {
        if parent >= parents.len() {
            self.global_turn(d, 0, Event::Appeared)
        } else {
            match self.matchers[parents[parent].1].child_reaction(
                d,
                parents[parent].0,
                child,
                event,
            ) {
                OfferView::Ask { number, step, .. } => Outcome::Ask {
                    place: PlaceView::Child { parent, child: number },
                    step,
                },
                OfferView::Match => Outcome::Match(PlaceView::Child { parent, child }),
                OfferView::Decline => self.child_turn(d, parents, parent + 1, 0, Event::Appeared),
            }
        }
    }

    /// What becomes of a device that appears: it is offered to the child matchers below its
    /// matched parents first, from the nearest parent up, then to the matchers themselves.
    pub open spec fn start(self, d: DeviceView) -> Outcome {
        self.child_turn(d, self.parents(d), 0, 0, Event::Appeared)
    }

    /// The matched devices whose paths the path of `d` extends, the nearest first.
    pub open spec fn parents(self, d: DeviceView) -> Seq<(Seq<char>, int)> {
        crate::matched::ancestors(self.matched, d.path)
    }

    /// `event` at the matcher at `place`.
    pub open spec fn turn(
        self,
        d: DeviceView,
        parents: Seq<(Seq<char>, int)>,
        place: PlaceView,
        event: Event,
    ) -> Outcome {
        match place {
            PlaceView::Child { parent, child } => self.child_turn(d, parents, parent, child, event),
            PlaceView::Global { index } => self.global_turn(d, index, event),
        }
    }

    /// `event` can happen at `place`.
    pub open spec fn expects(
        self,
        d: DeviceView,
        parents: Seq<(Seq<char>, int)>,
        place: PlaceView,
        event: Event,
    ) -> bool {
        &&& forall|j: int|
            0 <= j < parents.len() ==> 0 <= (#[trigger] parents[j]).1 < self.matchers.len()
        &&& match event {
            Event::Appeared => true,
            Event::Answered(step, answer) => {
                let s = SearchView { device: d, parents, place, step: step as int };
                s.fits(self) && s.matcher(self).expects(event)
            },
        }
    }

    /// What becomes of the search `s` when its request is answered.
    pub open spec fn resume(self, s: SearchView, answer: Answer) -> Outcome {
        self.turn(s.device, s.parents, s.place, Event::Answered(s.step as usize, answer))
    }

    /// The matchers once the one at the place of `s` took the device: it is matched from then on.
    pub open spec fn after_match(self, s: SearchView) -> MatchersModel {
        let path = s.device.path;
        let matcher = self.matchers[s.index()];
        MatchersModel {
            matchers: self.matchers.update(
                s.index(),
                match s.place {
                    PlaceView::Child { child, .. } => matcher.child_after(
                        path,
                        child,
                        OfferView::Match,
                    ),
                    PlaceView::Global { .. } => matcher.after(path, Action::Match),
                },
            ),
            matched: self.matched.insert(path, s.index()),
        }
    }

    /// The matchers once the request of the search `s` is answered.
    pub open spec fn after_answer(self, s: SearchView, answer: Answer) -> MatchersModel {
        if self.resume(s, answer) is Match {
            self.after_match(s)
        } else {
            self
        }
    }
}

/// The parents of a device belong to matchers.
pub proof fn lemma_parents_in_range(m: MatchersModel, path: Seq<char>, n: nat)
    requires
        m.wf(),
        n <= path.len(),
    ensures
        ({
            let parents = crate::matched::ancestors_below(m.matched, path, n);
            forall|j: int|
                0 <= j < parents.len() ==> 0 <= (#[trigger] parents[j]).1 < m.matchers.len()
        }),
    decreases n,
{
    if n > 0 {
        lemma_parents_in_range(m, path, (n - 1) as nat);
        let shorter = path.take(n - 1);
        let rest = crate::matched::ancestors_below(m.matched, path, (n - 1) as nat);
        let parents = crate::matched::ancestors_below(m.matched, path, n);
        if m.matched.contains_key(shorter) {
            assert forall|j: int| 0 <= j < parents.len() implies 0 <= (#[trigger] parents[j]).1
                < m.matchers.len() by {
                if j > 0 {
                    assert(parents[j] == rest[j - 1]);
                }
            }
        }
    }
}

/// A device that merely appears is not taken yet: every matcher has a request first.
pub proof fn lemma_appeared_is_not_taken(
    m: MatchersModel,
    d: DeviceView,
    parents: Seq<(Seq<char>, int)>,
    parent: int,
    child: int,
)
    ensures
        !(m.child_turn(d, parents, parent, child, Event::Appeared) is Match),
    decreases parents.len() - parent,
{
    if parent < parents.len() {
        lemma_appeared_is_not_taken(m, d, parents, parent + 1, 0);
    }
}

/// Taking a device keeps the matchers well-formed.
pub proof fn lemma_after_match_wf(m: MatchersModel, s: SearchView)
    requires
        m.wf(),
        s.fits(m),
    ensures
        m.after_match(s).wf(),
{
    let after = m.after_match(s);
    let matcher = m.matchers[s.index()];
    assert(matcher.wf());
    assert(after.matchers[s.index()].wf()) by {
        match s.place {
            PlaceView::Child { child, .. } => {
                let old_child = matcher.children()[child];
                assert(old_child.wf());
                let new_child = old_child.after(s.device.path, Action::Match);
                assert(new_child.wf());
                let new = matcher.child_after(s.device.path, child, OfferView::Match);
                assert(new.children() == matcher.children().update(child, new_child));
                assert(forall|i: int|
                    0 <= i < new.children().len() ==> (#[trigger] new.children()[i]).wf());
            },
            PlaceView::Global { .. } => {},
        }
    }
}

} // verus!
