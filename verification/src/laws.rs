//! What holds of the matchers as a whole.
use crate::device::{Answer, DeviceView};
use crate::dialogue::{
    below, globally, interview, lemma_offered, lemma_progress, try_device, try_each,
};
use crate::model::{first_admitting, lemma_first_admitting, Event, MatcherModel};
use crate::search::{
    lemma_appeared_is_not_taken, lemma_parents_in_range, MatchersModel, Outcome, PlaceView,
    SearchView,
};
use vstd::prelude::*;

verus! {

/// What is to come of a search that has got to `outcome`.
spec fn prospect<E>(
    m: MatchersModel,
    d: DeviceView,
    parents: Seq<(Seq<char>, int)>,
    replies: spec_fn(PlaceView, int) -> Result<Answer, E>,
    outcome: Outcome,
) -> Result<Option<PlaceView>, E> {
    match outcome {
        Outcome::Match(place) => Ok(Some(place)),
        Outcome::Decline => Ok(None),
        Outcome::Ask { place: PlaceView::Child { parent, child }, step } => match interview(
            m.matchers[parents[parent].1].children()[child],
            below(replies, parent)(child),
            step,
        ) {
            Err(error) => Err(error),
            Ok(true) => Ok(Some(PlaceView::Child { parent, child })),
            Ok(false) => m.taker_from(d, parents, replies, parent, child + 1),
        },
        Outcome::Ask { place: PlaceView::Global { index }, step } => match interview(
            m.matchers[index],
            globally(replies)(index),
            step,
        ) {
            Err(error) => Err(error),
            Ok(true) => Ok(Some(PlaceView::Global { index })),
            Ok(false) => m.try_globally(d, replies, index + 1),
        },
    }
}

/// Matchers that do not admit the device are passed over.
proof fn lemma_try_each_skips<E>(
    matchers: Seq<MatcherModel>,
    d: DeviceView,
    replies: spec_fn(int) -> spec_fn(int) -> Result<Answer, E>,
    from: int,
)
    requires
        0 <= from,
    ensures
        try_each(matchers, d, replies, from) == match first_admitting(matchers, d, from) {
            Some(n) => try_each(matchers, d, replies, n),
            None => Ok(None),
        },
    decreases matchers.len() - from,
{
    if from < matchers.len() && !matchers[from].admits(d) {
        lemma_try_each_skips(matchers, d, replies, from + 1);
    }
}

/// The prospect of a device that is offered to the matchers themselves.
proof fn lemma_global_prospect<E>(
    m: MatchersModel,
    d: DeviceView,
    parents: Seq<(Seq<char>, int)>,
    replies: spec_fn(PlaceView, int) -> Result<Answer, E>,
    index: int,
)
    requires
        0 <= index,
    ensures
        prospect(m, d, parents, replies, m.global_turn(d, index, Event::Appeared))
            == m.try_globally(d, replies, index),
{
    lemma_try_each_skips(m.matchers, d, globally(replies), index);
    lemma_first_admitting(m.matchers, d, index);
}

/// The prospect of a device that is offered from child matcher `child` below parent number
/// `parent` on.
proof fn lemma_child_prospect<E>(
    m: MatchersModel,
    d: DeviceView,
    parents: Seq<(Seq<char>, int)>,
    replies: spec_fn(PlaceView, int) -> Result<Answer, E>,
    parent: int,
    child: int,
)
    requires
        0 <= parent,
        0 <= child,
    ensures
        prospect(m, d, parents, replies, m.child_turn(d, parents, parent, child, Event::Appeared))
            == m.taker_from(d, parents, replies, parent, child),
    decreases parents.len() - parent,
{
    if parent >= parents.len() {
        lemma_global_prospect(m, d, parents, replies, 0);
    } else {
        let matcher = m.matchers[parents[parent].1];
        if matcher.adopts(d.path, parents[parent].0) {
            lemma_try_each_skips(matcher.children(), d, below(replies, parent), child);
            lemma_first_admitting(matcher.children(), d, child);
        }
        lemma_child_prospect(m, d, parents, replies, parent + 1, 0);
    }
}

/// A search comes to what was in prospect.
proof fn lemma_conclude<E>(
    m: MatchersModel,
    d: DeviceView,
    parents: Seq<(Seq<char>, int)>,
    replies: spec_fn(PlaceView, int) -> Result<Answer, E>,
    outcome: Outcome,
)
    requires
        m.suits(d, parents, replies),
        m.reached(d, parents, outcome),
    ensures
        m.conclude(d, parents, replies, outcome) == prospect(m, d, parents, replies, outcome),
    decreases
        m.rank(parents, outcome).0,
        m.rank(parents, outcome).1,
        m.rank(parents, outcome).2,
{
    if let Outcome::Ask { place, step } = outcome {
        let s = SearchView { device: d, parents, place, step };
        match place {
            PlaceView::Child { parent, child } => {
                assert(below(replies, parent)(child)(step) == replies(place, step));
            },
            PlaceView::Global { index } => {
                assert(globally(replies)(index)(step) == replies(place, step));
            },
        }
        if let Ok(answer) = replies(place, step) {
            lemma_progress(m, s, answer);
            let next = m.resume(s, answer);
            lemma_conclude(m, d, parents, replies, next);
            let event = Event::Answered(step as usize, answer);
            let reaction = s.matcher(m).reaction(d, event);
            match place {
                PlaceView::Child { parent, child } => {
                    lemma_child_prospect(m, d, parents, replies, parent, child + 1);
                    assert(reaction is Match ==> interview(
                        s.matcher(m),
                        below(replies, parent)(child),
                        step + 1,
                    ) == Ok::<bool, E>(true));
                    assert(reaction is Decline ==> next == m.child_turn(
                        d,
                        parents,
                        parent,
                        child + 1,
                        Event::Appeared,
                    ));
                },
                PlaceView::Global { index } => {
                    lemma_global_prospect(m, d, parents, replies, index + 1);
                    assert(reaction is Match ==> interview(
                        s.matcher(m),
                        globally(replies)(index),
                        step + 1,
                    ) == Ok::<bool, E>(true));
                    assert(reaction is Decline ==> next == m.global_turn(
                        d,
                        index + 1,
                        Event::Appeared,
                    ));
                },
            }
        }
    }
}

/// A search that is driven request by request finds the matcher that takes the device, or that
/// there is none, or fails, as trying one matcher after the other would. It ends whatever the
/// answers are.
pub proof fn law_search_finds_taker<E>(
    m: MatchersModel,
    d: DeviceView,
    replies: spec_fn(PlaceView, int) -> Result<Answer, E>,
)
    requires
        m.wf(),
        m.suits(d, m.parents(d), replies),
    ensures
        m.conclude(d, m.parents(d), replies, m.start(d)) == m.taker(d, replies),
{
    lemma_parents_in_range(m, d.path, d.path.len());
    lemma_offered(m, d, m.parents(d), 0, 0);
    lemma_conclude(m, d, m.parents(d), replies, m.start(d));
    lemma_child_prospect(m, d, m.parents(d), replies, 0, 0);
}

/// A search leaves the matchers as the one that takes the device changes them, and as they were
/// when none takes it or when the search fails.
pub proof fn law_search_leaves_match<E>(
    m: MatchersModel,
    d: DeviceView,
    replies: spec_fn(PlaceView, int) -> Result<Answer, E>,
)
    requires
        m.wf(),
        m.suits(d, m.parents(d), replies),
    ensures
        m.left(d, m.parents(d), replies, m.start(d)) == match m.taker(d, replies) {
            Ok(Some(place)) => m.after_match(m.search_at(d, place)),
            Ok(None) => m,
            Err(_) => m,
        },
        m.left(d, m.parents(d), replies, m.start(d)) == m.after_search(d, replies),
{
    law_search_finds_taker(m, d, replies);
    lemma_parents_in_range(m, d.path, d.path.len());
    lemma_offered(m, d, m.parents(d), 0, 0);
    lemma_appeared_is_not_taken(m, d, m.parents(d), 0, 0);
    lemma_left(m, d, m.parents(d), replies, m.start(d));
}

proof fn lemma_left<E>(
    m: MatchersModel,
    d: DeviceView,
    parents: Seq<(Seq<char>, int)>,
    replies: spec_fn(PlaceView, int) -> Result<Answer, E>,
    outcome: Outcome,
)
    requires
        m.suits(d, parents, replies),
        m.reached(d, parents, outcome),
        !(outcome is Match),
    ensures
        m.left(d, parents, replies, outcome) == match m.conclude(d, parents, replies, outcome) {
            Ok(Some(place)) => m.after_match(SearchView { device: d, parents, place, step: 0 }),
            _ => m,
        },
    decreases
        m.rank(parents, outcome).0,
        m.rank(parents, outcome).1,
        m.rank(parents, outcome).2,
{
    if let Outcome::Ask { place, step } = outcome {
        let s = SearchView { device: d, parents, place, step };
        if let Ok(answer) = replies(place, step) {
            lemma_progress(m, s, answer);
            let next = m.resume(s, answer);
            if let PlaceView::Child { parent, .. } = place {
                lemma_appeared_is_not_taken(m, d, parents, parent + 1, 0);
            }
            assert(next matches Outcome::Match(taken) ==> taken == place);
            if next is Ask {
                lemma_left(m, d, parents, replies, next);
            } else {
                assert(m.conclude(d, parents, replies, next) == match next {
                    Outcome::Match(taken) => Ok::<Option<PlaceView>, E>(Some(taken)),
                    _ => Ok(None),
                });
            }
        }
    }
}

/// The first matcher that does not decline is found, those before it decline.
proof fn lemma_try_each<E>(
    matchers: Seq<MatcherModel>,
    d: DeviceView,
    replies: spec_fn(int) -> spec_fn(int) -> Result<Answer, E>,
    from: int,
)
    requires
        0 <= from,
    ensures
        match try_each(matchers, d, replies, from) {
            Ok(Some(n)) => {
                &&& from <= n < matchers.len()
                &&& try_device(matchers[n], d, replies(n)) == Ok::<bool, E>(true)
                &&& forall|i: int|
                    from <= i < n ==> try_device(#[trigger] matchers[i], d, replies(i)) == Ok::<
                        bool,
                        E,
                    >(false)
            },
            Ok(None) => forall|i: int|
                from <= i < matchers.len() ==> try_device(#[trigger] matchers[i], d, replies(i))
                    == Ok::<bool, E>(false),
            Err(error) => exists|n: int|
                {
                    &&& from <= n < matchers.len()
                    &&& try_device(#[trigger] matchers[n], d, replies(n)) == Err::<bool, E>(error)
                    &&& forall|i: int|
                        from <= i < n ==> try_device(#[trigger] matchers[i], d, replies(i)) == Ok::<
                            bool,
                            E,
                        >(false)
                },
        },
    decreases matchers.len() - from,
{
    if from < matchers.len() {
        let here = try_device(matchers[from], d, replies(from));
        if here == Ok::<bool, E>(false) {
            lemma_try_each(matchers, d, replies, from + 1);
        }
    }
}

/// `found` is what the first matcher among those from `from` on and before `to` that does not
/// decline makes of the device.
spec fn settled<E>(
    m: MatchersModel,
    d: DeviceView,
    parents: Seq<(Seq<char>, int)>,
    replies: spec_fn(PlaceView, int) -> Result<Answer, E>,
    from: PlaceView,
    to: PlaceView,
    found: Result<Option<PlaceView>, E>,
) -> bool {
    match found {
        Ok(Some(p)) => {
            &&& m.offers(d, parents, p)
            &&& !p.comes_before(from) && p.comes_before(to)
            &&& m.try_at(d, parents, replies, p) == Ok::<bool, E>(true)
            &&& declined(m, d, parents, replies, from, p)
        },
        Ok(None) => declined(m, d, parents, replies, from, to),
        Err(error) => exists|p: PlaceView|
            {
                &&& #[trigger] m.offers(d, parents, p)
                &&& !p.comes_before(from) && p.comes_before(to)
                &&& m.try_at(d, parents, replies, p) == Err::<bool, E>(error)
                &&& declined(m, d, parents, replies, from, p)
            },
    }
}

/// Every matcher from `from` on that comes before `to` declines.
spec fn declined<E>(
    m: MatchersModel,
    d: DeviceView,
    parents: Seq<(Seq<char>, int)>,
    replies: spec_fn(PlaceView, int) -> Result<Answer, E>,
    from: PlaceView,
    to: PlaceView,
) -> bool {
    forall|p: PlaceView| #[trigger]
        m.offers(d, parents, p) && !p.comes_before(from) && p.comes_before(to) ==> m.try_at(
            d,
            parents,
            replies,
            p,
        ) == Ok::<bool, E>(false)
}

/// What trying the child matchers from parent number `parent` on says of each of them.
proof fn lemma_try_children<E>(
    m: MatchersModel,
    d: DeviceView,
    parents: Seq<(Seq<char>, int)>,
    replies: spec_fn(PlaceView, int) -> Result<Answer, E>,
    parent: int,
)
    requires
        0 <= parent,
    ensures
        settled(
            m,
            d,
            parents,
            replies,
            PlaceView::Child { parent, child: 0 },
            PlaceView::Global { index: 0 },
            m.try_children(d, parents, replies, parent, 0),
        ),
    decreases parents.len() - parent,
{
    if parent < parents.len() {
        let children = m.matchers[parents[parent].1].children();
        let adopts = m.matchers[parents[parent].1].adopts(d.path, parents[parent].0);
        let here = try_each(children, d, below(replies, parent), 0);
        let start = PlaceView::Child { parent, child: 0 };
        let next = PlaceView::Child { parent: parent + 1, child: 0 };
        lemma_try_each(children, d, below(replies, parent), 0);
        lemma_try_children(m, d, parents, replies, parent + 1);
        assert forall|q: PlaceView, n: int|
            {
                &&& #[trigger] m.offers(d, parents, q)
                &&& !q.comes_before(start)
                &&& q.comes_before(#[trigger] child_place(parent, n))
                &&& forall|i: int|
                    0 <= i < n && i < children.len() ==> try_device(
                        #[trigger] children[i],
                        d,
                        below(replies, parent)(i),
                    ) == Ok::<bool, E>(false)
            } implies m.try_at(d, parents, replies, q) == Ok::<bool, E>(false) by {
            let i = q->Child_child;
            assert(q == child_place(parent, i));
            assert(try_device(children[i], d, below(replies, parent)(i)) == Ok::<bool, E>(false));
        }
        if adopts && here matches Ok(Some(n)) {
            let n = here->Ok_0->0;
            assert(m.offers(d, parents, child_place(parent, n)));
        } else if adopts && here is Err {
            let n = choose|n: int|
                {
                    &&& 0 <= n < children.len()
                    &&& try_device(#[trigger] children[n], d, below(replies, parent)(n)) == Err::<
                        bool,
                        E,
                    >(here->Err_0)
                    &&& forall|i: int|
                        0 <= i < n ==> try_device(
                            #[trigger] children[i],
                            d,
                            below(replies, parent)(i),
                        ) == Ok::<bool, E>(false)
                };
            assert(m.offers(d, parents, child_place(parent, n)));
            assert(declined(m, d, parents, replies, start, child_place(parent, n)));
        } else {
            assert(declined(m, d, parents, replies, start, next)) by {
                assert forall|q: PlaceView| #[trigger]
                    m.offers(d, parents, q) && !q.comes_before(start) && q.comes_before(
                        next,
                    ) implies m.try_at(d, parents, replies, q) == Ok::<bool, E>(false) by {
                    assert(q.comes_before(child_place(parent, children.len() as int)));
                }
            }
        }
    }
}

/// Child matcher `child` below parent number `parent`.
spec fn child_place(parent: int, child: int) -> PlaceView {
    PlaceView::Child { parent, child }
}

/// The device goes to the first matcher, in the order in which it is offered, that does not
/// decline it: child matchers before the matchers themselves, those below a nearer parent before
/// those below one further up. When that matcher fails, so does the search; when all decline, no
/// matcher takes the device.
pub proof fn law_first_in_order_decides<E>(
    m: MatchersModel,
    d: DeviceView,
    replies: spec_fn(PlaceView, int) -> Result<Answer, E>,
)
    ensures
        ({
            let parents = m.parents(d);
            match m.taker(d, replies) {
                Ok(Some(p)) => m.falls_to(d, parents, replies, p) && m.try_at(
                    d,
                    parents,
                    replies,
                    p,
                ) == Ok::<bool, E>(true),
                Ok(None) => forall|q: PlaceView| #[trigger]
                    m.offers(d, parents, q) ==> m.try_at(d, parents, replies, q) == Ok::<bool, E>(
                        false,
                    ),
                Err(error) => exists|p: PlaceView| #[trigger]
                    m.falls_to(d, parents, replies, p) && m.try_at(d, parents, replies, p) == Err::<
                        bool,
                        E,
                    >(error),
            }
        }),
{
    let parents = m.parents(d);
    lemma_try_children(m, d, parents, replies, 0);
    lemma_try_each(m.matchers, d, globally(replies), 0);
    let start = PlaceView::Child { parent: 0, child: 0 };
    let taker = m.taker(d, replies);
    let among_children = m.try_children(d, parents, replies, 0, 0);
    if let Err(error) = among_children {
        let p = choose|p: PlaceView|
            {
                &&& #[trigger] m.offers(d, parents, p)
                &&& !p.comes_before(start) && p.comes_before(PlaceView::Global { index: 0 })
                &&& m.try_at(d, parents, replies, p) == Err::<bool, E>(error)
                &&& declined(m, d, parents, replies, start, p)
            };
        assert(m.falls_to(d, parents, replies, p));
    } else if among_children == Ok::<Option<PlaceView>, E>(None) {
        if let Err(error) = taker {
            let n = choose|n: int|
                {
                    &&& 0 <= n < m.matchers.len()
                    &&& try_device(#[trigger] m.matchers[n], d, globally(replies)(n)) == Err::<
                        bool,
                        E,
                    >(error)
                    &&& forall|i: int|
                        0 <= i < n ==> try_device(
                            #[trigger] m.matchers[i],
                            d,
                            globally(replies)(i),
                        ) == Ok::<bool, E>(false)
                };
            assert(m.falls_to(d, parents, replies, PlaceView::Global { index: n }));
        }
    }
}

/// What a matcher takes, it admits, and every check of it has passed and its effect been done.
pub proof fn law_taken_device_passed<E>(
    matcher: MatcherModel,
    d: DeviceView,
    replies: spec_fn(int) -> Result<Answer, E>,
)
    requires
        try_device(matcher, d, replies) == Ok::<bool, E>(true),
    ensures
        matcher.admits(d),
        forall|k: int|
            #![trigger matcher.checks()[k]]
            0 <= k < matcher.checks().len() ==> (replies(k) matches Ok(answer)
                && matcher.checks()[k].passes(answer)),
        matcher.effect() is Some ==> replies(matcher.checks().len() as int) is Ok,
{
    lemma_interview(matcher, replies, 0);
}

proof fn lemma_interview<E>(
    matcher: MatcherModel,
    replies: spec_fn(int) -> Result<Answer, E>,
    step: int,
)
    requires
        0 <= step,
        interview(matcher, replies, step) == Ok::<bool, E>(true),
    ensures
        forall|k: int|
            #![trigger replies(k)]
            step <= k < matcher.steps() ==> (replies(k) matches Ok(answer) && (k
                < matcher.checks().len() ==> matcher.checks()[k].passes(answer))),
    decreases matcher.steps() - step,
{
    if step < matcher.steps() {
        lemma_interview(matcher, replies, step + 1);
    }
}

/// A search has at most one thing done to the device, and that last: if a matcher takes the
/// device, the last request is the only one that has the environment act, and it is for what that
/// matcher has done to its devices; if none does, there is no such request; and if the search
/// fails, the last request is the one that failed, and only that may be one.
pub proof fn law_one_effect<E>(
    m: MatchersModel,
    d: DeviceView,
    replies: spec_fn(PlaceView, int) -> Result<Answer, E>,
)
    requires
        m.wf(),
        m.suits(d, m.parents(d), replies),
    ensures
        ({
            let requests = m.requests(d, m.parents(d), replies, m.start(d));
            &&& forall|i: int|
                0 <= i < requests.len() - 1 ==> !(#[trigger] requests[i]).is_effect()
            &&& match m.taker(d, replies) {
                Ok(Some(place)) => {
                    &&& requests.len() > 0
                    &&& requests.last().is_effect()
                    &&& m.search_at(d, place).matcher(m).effect() == Some(requests.last())
                },
                Ok(None) => requests.len() > 0 ==> !requests.last().is_effect(),
                Err(error) => requests.len() > 0 && exists|place: PlaceView, step: int|
                    {
                        let s = SearchView { device: d, parents: m.parents(d), place, step };
                        &&& #[trigger] replies(place, step) == Err::<Answer, E>(error)
                        &&& s.fits(m)
                        &&& requests.last() == s.matcher(m).request(step)
                    },
            }
        }),
{
    law_search_finds_taker(m, d, replies);
    lemma_parents_in_range(m, d.path, d.path.len());
    lemma_offered(m, d, m.parents(d), 0, 0);
    lemma_appeared_is_not_taken(m, d, m.parents(d), 0, 0);
    lemma_one_effect(m, d, m.parents(d), replies, m.start(d));
}

proof fn lemma_one_effect<E>(
    m: MatchersModel,
    d: DeviceView,
    parents: Seq<(Seq<char>, int)>,
    replies: spec_fn(PlaceView, int) -> Result<Answer, E>,
    outcome: Outcome,
)
    requires
        m.wf(),
        m.suits(d, parents, replies),
        m.reached(d, parents, outcome),
    ensures
        ({
            let requests = m.requests(d, parents, replies, outcome);
            &&& forall|i: int|
                0 <= i < requests.len() - 1 ==> !(#[trigger] requests[i]).is_effect()
            &&& match m.conclude(d, parents, replies, outcome) {
                Ok(Some(taken)) => outcome is Match || {
                    let at = SearchView { device: d, parents, place: taken, step: 0 };
                    &&& requests.len() > 0
                    &&& requests.last().is_effect()
                    &&& at.matcher(m).effect() == Some(requests.last())
                },
                Ok(None) => requests.len() > 0 ==> !requests.last().is_effect(),
                Err(error) => requests.len() > 0 && exists|place: PlaceView, step: int|
                    {
                        let s = SearchView { device: d, parents, place, step };
                        &&& #[trigger] replies(place, step) == Err::<Answer, E>(error)
                        &&& s.fits(m)
                        &&& requests.last() == s.matcher(m).request(step)
                    },
            }
        }),
    decreases
        m.rank(parents, outcome).0,
        m.rank(parents, outcome).1,
        m.rank(parents, outcome).2,
{
    if let Outcome::Ask { place, step } = outcome {
        let s = SearchView { device: d, parents, place, step };
        let matcher = s.matcher(m);
        assert(m.matchers[s.index()].wf());
        assert(matcher.wf());
        if let Ok(answer) = replies(place, step) {
            lemma_progress(m, s, answer);
            let next = m.resume(s, answer);
            lemma_one_effect(m, d, parents, replies, next);
            let rest = m.requests(d, parents, replies, next);
            let requests = m.requests(d, parents, replies, outcome);
            assert(requests == seq![matcher.request(step)] + rest);
            if let PlaceView::Child { parent, .. } = place {
                lemma_appeared_is_not_taken(m, d, parents, parent + 1, 0);
            }
            assert(next is Match <==> step == matcher.checks().len());
            assert(next matches Outcome::Match(taken) ==> taken == place);
            assert forall|i: int| 0 <= i < requests.len() - 1 implies !(
            #[trigger] requests[i]).is_effect() by {
                if i > 0 {
                    assert(requests[i] == rest[i - 1]);
                }
            }
            if rest.len() > 0 {
                assert(requests.last() == rest.last());
            }
        }
    }
}

} // verus!
