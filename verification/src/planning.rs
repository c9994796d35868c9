//! Plans the layers of a document's injections: which old layer goes on, and what becomes new.
use crate::injection::{InjectionCandidate, InjectionScope};
use crate::mapping::MappedOldInjection;
use crate::ordering::{in_key_order, order_by_key, stably_ordered, Keyed};
use crate::types::{copy_range, same_range, Language, Layer, Pattern};
use std::ops::Range;
use vstd::prelude::*;

verus! {

/// Where a planned layer comes from.
#[derive(Debug, Clone, Copy, PartialEq, Eq, Structural)]
pub enum PlannedLayerSource {
    Reuse(Layer),
    New,
}

/// What to do for one layer.
#[derive(Debug)]
pub struct PlannedLayerAction {
    pub source: PlannedLayerSource,
    /// The old layer whose tree a new layer starts from.
    pub seed_layer: Option<Layer>,
    pub language: Language,
    pub pattern: Pattern,
    pub ranges: Vec<Range<u32>>,
    pub moved: bool,
    pub modified: bool,
}

/// One injected range, by the action that makes its layer.
#[derive(Debug)]
pub struct PlannedInjection {
    pub range: Range<u32>,
    pub matched_node_range: Range<u32>,
    pub layer_action: usize,
}

/// The layers and injections of one parent layer.
#[derive(Debug)]
pub struct InjectionPlan {
    pub layer_actions: Vec<PlannedLayerAction>,
    pub injections: Vec<PlannedInjection>,
    pub retired_layers: Vec<Layer>,
}

impl Keyed for PlannedInjection {
    open spec fn order_key(&self) -> u64 {
        self.range.start as u64
    }

    fn key(&self) -> u64 {
        self.range.start as u64
    }
}

/// What a planned action says, with its ranges as a sequence.
pub struct ActionView {
    pub source: PlannedLayerSource,
    pub seed_layer: Option<Layer>,
    pub language: Language,
    pub pattern: Pattern,
    pub ranges: Seq<Range<u32>>,
    pub moved: bool,
    pub modified: bool,
}

impl View for PlannedLayerAction {
    type V = ActionView;

    open spec fn view(&self) -> ActionView {
        ActionView {
            source: self.source,
            seed_layer: self.seed_layer,
            language: self.language,
            pattern: self.pattern,
            ranges: self.ranges@,
            moved: self.moved,
            modified: self.modified,
        }
    }
}

/// A new layer for a candidate; it goes on with the layer of `reused`, if there is one.
pub open spec fn new_action(
    candidate: InjectionCandidate,
    reused: Option<MappedOldInjection>,
) -> ActionView {
    ActionView {
        source: match reused {
            Some(old) => PlannedLayerSource::Reuse(old.layer),
            None => PlannedLayerSource::New,
        },
        seed_layer: None,
        language: candidate.language,
        pattern: candidate.pattern,
        ranges: Seq::empty(),
        moved: reused is Some && reused->0.moved,
        modified: reused is Some && reused->0.modified,
    }
}

/// Whether the node of a candidate sat elsewhere in the tree of `layer`.
pub open spec fn differs_from(
    layer: Layer,
    candidate: InjectionCandidate,
    reused: Option<MappedOldInjection>,
) -> bool {
    match reused {
        Some(old) => old.layer != layer || old.matched_node_range != candidate.matched_node_range,
        None => true,
    }
}

/// `action` with the ranges of one more candidate.
pub open spec fn with_candidate(
    action: ActionView,
    candidate: InjectionCandidate,
    reused: Option<MappedOldInjection>,
) -> ActionView {
    let ranges = action.ranges + candidate.emitted_ranges@;
    match action.source {
        PlannedLayerSource::Reuse(layer) => {
            let same = reused is Some && reused->0.layer == layer;
            ActionView {
                ranges,
                moved: action.moved || (same && reused->0.moved),
                modified: action.modified || differs_from(layer, candidate, reused) || (same
                    && reused->0.modified),
                ..action
            }
        },
        PlannedLayerSource::New => match (action.seed_layer, reused) {
            (Some(seed), _) => ActionView {
                ranges,
                modified: action.modified || differs_from(seed, candidate, reused),
                ..action
            },
            (None, Some(old)) => ActionView {
                ranges,
                seed_layer: Some(old.layer),
                modified: true,
                ..action
            },
            (None, None) => ActionView { ranges, ..action },
        },
    }
}

/// Appends copies of `more` to `ranges`.
fn extend_ranges(ranges: &mut Vec<Range<u32>>, more: &Vec<Range<u32>>)
    ensures
        final(ranges)@ == old(ranges)@ + more@,
{
    let ghost before = ranges@;
    for i in 0..more.len()
        invariant
            ranges@ == before + more@.take(i as int),
    {
        ranges.push(copy_range(&more[i]));
        assert(more@.take(i + 1) == more@.take(i as int).push(more@[i as int]));
    }
    assert(more@.take(more.len() as int) == more@);
}

fn node_differs(
    layer: Layer,
    candidate: &InjectionCandidate,
    reused: Option<&MappedOldInjection>,
) -> (res: bool)
    ensures
        res == differs_from(layer, *candidate, target(reused)),
{
    match reused {
        Some(old) => old.layer != layer || !same_range(
            &old.matched_node_range,
            &candidate.matched_node_range,
        ),
        None => true,
    }
}

/// The value behind an optional reference.
pub open spec fn target(reused: Option<&MappedOldInjection>) -> Option<MappedOldInjection> {
    match reused {
        Some(old) => Some(*old),
        None => None,
    }
}

impl PlannedLayerAction {
    /// Plans a layer for a candidate; it goes on with the layer of `reused`, if there is one.
    pub fn new(candidate: &InjectionCandidate, reused: Option<&MappedOldInjection>) -> (action:
        Self)
        ensures
            action@ == new_action(*candidate, target(reused)),
    {
        let (source, moved, modified) = match reused {
            Some(old) => (PlannedLayerSource::Reuse(old.layer), old.moved, old.modified),
            None => (PlannedLayerSource::New, false, false),
        };
        let action = PlannedLayerAction {
            source,
            seed_layer: None,
            language: candidate.language,
            pattern: candidate.pattern,
            ranges: Vec::new(),
            moved,
            modified,
        };
        assert(action@.ranges == Seq::<Range<u32>>::empty());
        action
    }

    /// Adds the ranges of one more candidate to the layer.
    pub fn apply_candidate(
        &mut self,
        candidate: &InjectionCandidate,
        reused: Option<&MappedOldInjection>,
    )
        ensures
            final(self)@ == with_candidate(old(self)@, *candidate, target(reused)),
    {
        extend_ranges(&mut self.ranges, &candidate.emitted_ranges);
        match self.source {
            PlannedLayerSource::Reuse(layer) => {
                if node_differs(layer, candidate, reused) {
                    self.modified = true;
                }
                if let Some(old_injection) = reused {
                    if old_injection.layer == layer {
                        self.moved = self.moved || old_injection.moved;
                        self.modified = self.modified || old_injection.modified;
                    }
                }
            },
            PlannedLayerSource::New => {
                if let Some(seed) = self.seed_layer {
                    if node_differs(seed, candidate, reused) {
                        self.modified = true;
                    }
                } else if let Some(old_injection) = reused {
                    self.seed_layer = Some(old_injection.layer);
                    self.modified = true;
                }
            },
        }
    }
}

/// The position of the first old injection at or behind `from` that reaches past `byte`.
pub open spec fn first_old_reaching(
    old_injections: Seq<MappedOldInjection>,
    from: int,
    byte: u32,
) -> int
    decreases old_injections.len() - from,
{
    if 0 <= from < old_injections.len() && old_injections[from].range.end <= byte {
        first_old_reaching(old_injections, from + 1, byte)
    } else {
        from
    }
}

/// Whether a candidate may go on with the layer of an old injection.
pub open spec fn can_reuse(
    old_injection: MappedOldInjection,
    language: Language,
    pattern: Pattern,
    new_range: Range<u32>,
) -> bool {
    &&& old_injection.range.start < new_range.end
    &&& old_injection.language == language
    &&& old_injection.pattern == Some(pattern)
}

/// The layers of the old injections from `from` to `to`.
pub open spec fn layers_between(
    old_injections: Seq<MappedOldInjection>,
    from: int,
    to: int,
) -> Seq<Layer> {
    Seq::new((to - from) as nat, |i: int| old_injections[from + i].layer)
}

/// What is planned once some candidates have been looked at.
pub struct PlanState {
    /// The old injections before this one are done with.
    pub next_old: int,
    pub actions: Seq<ActionView>,
    pub injections: Seq<PlannedInjection>,
    /// The action of each scope that may still get candidates.
    pub open_scopes: Map<InjectionScope, usize>,
    pub retired: Seq<Layer>,
    /// The layers of the old injections that a candidate was found for.
    pub reused: Seq<Layer>,
}

/// Nothing is planned yet.
pub open spec fn empty_plan() -> PlanState {
    PlanState {
        next_old: 0,
        actions: Seq::empty(),
        injections: Seq::empty(),
        open_scopes: Map::empty(),
        retired: Seq::empty(),
        reused: Seq::empty(),
    }
}

/// The old injection that a candidate goes on with.
pub open spec fn reused_by(
    state: PlanState,
    candidate: InjectionCandidate,
    old_injections: Seq<MappedOldInjection>,
) -> Option<MappedOldInjection> {
    let at = first_old_reaching(
        old_injections,
        state.next_old,
        candidate.matched_node_range.start,
    );
    if at < old_injections.len() && can_reuse(
        old_injections[at],
        candidate.language,
        candidate.pattern,
        candidate.matched_node_range,
    ) {
        Some(old_injections[at])
    } else {
        None
    }
}

/// The action that an open scope leads a candidate to.
pub open spec fn open_action(state: PlanState, candidate: InjectionCandidate) -> Option<usize> {
    match candidate.scope {
        Some(scope) => if state.open_scopes.dom().contains(scope) {
            Some(state.open_scopes[scope])
        } else {
            None
        },
        None => None,
    }
}

/// Whether the candidate is the last one of its scope.
pub open spec fn closes_scope(candidate: InjectionCandidate) -> bool {
    candidate.last_match && (candidate.scope matches Some(InjectionScope::Match { .. }))
}

/// The injections of a candidate whose layer is made by action `at`.
pub open spec fn planned_injections(candidate: InjectionCandidate, at: usize) -> Seq<
    PlannedInjection,
> {
    Seq::new(
        candidate.emitted_ranges@.len(),
        |i: int|
            PlannedInjection {
                range: candidate.emitted_ranges@[i],
                matched_node_range: candidate.matched_node_range,
                layer_action: at,
            },
    )
}

/// The plan once `candidate` has been looked at too. It goes on with the first old injection that
/// reaches into it, if that one has its language and pattern; those before it retire. Candidates of
/// one scope share one layer.
pub open spec fn plan_step(
    state: PlanState,
    candidate: InjectionCandidate,
    old_injections: Seq<MappedOldInjection>,
) -> PlanState {
    let skip_to = first_old_reaching(
        old_injections,
        state.next_old,
        candidate.matched_node_range.start,
    );
    let reused = reused_by(state, candidate, old_injections);
    let found = open_action(state, candidate);
    let at = match found {
        Some(at) => at,
        None => state.actions.len() as usize,
    };
    let actions = match found {
        Some(_) => state.actions,
        None => state.actions.push(new_action(candidate, reused)),
    };
    PlanState {
        next_old: if reused is Some {
            skip_to + 1
        } else {
            skip_to
        },
        actions: actions.update(at as int, with_candidate(actions[at as int], candidate, reused)),
        injections: state.injections + planned_injections(candidate, at),
        open_scopes: if candidate.scope is None {
            state.open_scopes
        } else if closes_scope(candidate) {
            state.open_scopes.remove(candidate.scope->0)
        } else {
            state.open_scopes.insert(candidate.scope->0, at)
        },
        retired: state.retired + layers_between(old_injections, state.next_old, skip_to),
        reused: match reused {
            Some(old) => state.reused.push(old.layer),
            None => state.reused,
        },
    }
}

/// The plan once all of `candidates` have been looked at in order.
pub open spec fn planned(
    candidates: Seq<InjectionCandidate>,
    old_injections: Seq<MappedOldInjection>,
) -> PlanState
    decreases candidates.len(),
{
    if candidates.len() == 0 {
        empty_plan()
    } else {
        plan_step(
            planned(candidates.drop_last(), old_injections),
            candidates.last(),
            old_injections,
        )
    }
}

/// The old injections that no candidate has reached retire as well.
pub open spec fn all_retired(state: PlanState, old_injections: Seq<MappedOldInjection>) -> Seq<
    Layer,
> {
    state.retired + layers_between(old_injections, state.next_old, old_injections.len() as int)
}

/// `entries` lists the scopes of `scopes`, each one once.
pub open spec fn lists_scopes(
    entries: Seq<(InjectionScope, usize)>,
    scopes: Map<InjectionScope, usize>,
) -> bool {
    &&& forall|i: int|
        0 <= i < entries.len() ==> scopes.dom().contains((#[trigger] entries[i]).0)
            && scopes[entries[i].0] == entries[i].1
    &&& forall|scope: InjectionScope| #[trigger]
        scopes.dom().contains(scope) ==> exists|i: int|
            0 <= i < entries.len() && (#[trigger] entries[i]).0 == scope
    &&& forall|i: int, j: int|
        0 <= i < j < entries.len() ==> (#[trigger] entries[i]).0 != (#[trigger] entries[j]).0
}

/// Finds the entry of a scope.
fn find_scope(
    entries: &Vec<(InjectionScope, usize)>,
    scope: InjectionScope,
    Ghost(scopes): Ghost<Map<InjectionScope, usize>>,
) -> (at: Option<usize>)
    requires
        lists_scopes(entries@, scopes),
    ensures
        match at {
            Some(i) => i < entries.len() && entries@[i as int].0 == scope && scopes.dom().contains(
                scope,
            ) && scopes[scope] == entries@[i as int].1,
            None => !scopes.dom().contains(scope),
        },
{
    for i in 0..entries.len()
        invariant
            lists_scopes(entries@, scopes),
            forall|k: int| 0 <= k < i ==> (#[trigger] entries@[k]).0 != scope,
    {
        if entries[i].0 == scope {
            return Some(i);
        }
    }
    None
}

/// Steps over the old injections that end at or before `byte`; their layers retire.
fn retire_until(
    old_injections: &Vec<MappedOldInjection>,
    from: usize,
    byte: u32,
    retired_layers: &mut Vec<Layer>,
) -> (at: usize)
    requires
        from <= old_injections.len(),
    ensures
        at == first_old_reaching(old_injections@, from as int, byte),
        from <= at <= old_injections.len(),
        final(retired_layers)@ == old(retired_layers)@ + layers_between(
            old_injections@,
            from as int,
            at as int,
        ),
{
    let mut at: usize = from;
    let ghost before = retired_layers@;
    assert(retired_layers@ == before + layers_between(old_injections@, from as int, at as int));
    while at < old_injections.len() && old_injections[at].range.end <= byte
        invariant
            from <= at <= old_injections.len(),
            first_old_reaching(old_injections@, from as int, byte) == first_old_reaching(
                old_injections@,
                at as int,
                byte,
            ),
            retired_layers@ == before + layers_between(old_injections@, from as int, at as int),
        decreases old_injections.len() - at,
    {
        retired_layers.push(old_injections[at].layer);
        at = at + 1;
        assert(retired_layers@ == before + layers_between(
            old_injections@,
            from as int,
            at as int,
        ));
    }
    at
}

/// Finds the old injection that a candidate may go on with. The first part of the result is where
/// the search for the next candidate starts.
pub fn take_reusable_injection<'a>(
    language: Language,
    pattern: Pattern,
    new_range: &Range<u32>,
    old_injections: &'a Vec<MappedOldInjection>,
    from: usize,
    retired_layers: &mut Vec<Layer>,
) -> (res: (usize, Option<&'a MappedOldInjection>))
    requires
        from <= old_injections.len(),
    ensures
        ({
            let at = first_old_reaching(old_injections@, from as int, new_range.start);
            &&& final(retired_layers)@ == old(retired_layers)@ + layers_between(
                old_injections@,
                from as int,
                at,
            )
            &&& if at < old_injections.len() && can_reuse(
                old_injections@[at],
                language,
                pattern,
                *new_range,
            ) {
                res.0 == at + 1 && res.1 == Some(&old_injections@[at])
            } else {
                res.0 == at && res.1 is None
            }
        }),
        from <= res.0 <= old_injections.len(),
{
    let at: usize = retire_until(old_injections, from, new_range.start, retired_layers);
    if at < old_injections.len() {
        let old_injection = &old_injections[at];
        let same_pattern: bool = match old_injection.pattern {
            Some(old_pattern) => old_pattern == pattern,
            None => false,
        };
        if old_injection.range.start < new_range.end && old_injection.language == language
            && same_pattern {
            return (at + 1, Some(old_injection));
        }
    }
    (at, None)
}

/// Appends an action for a candidate and returns its position.
fn push_layer_action(
    layer_actions: &mut Vec<PlannedLayerAction>,
    candidate: &InjectionCandidate,
    reused: Option<&MappedOldInjection>,
) -> (at: usize)
    ensures
        at == old(layer_actions).len(),
        final(layer_actions).len() == at + 1,
        forall|i: int| 0 <= i < at ==> final(layer_actions)@[i] == #[trigger] old(layer_actions)@[i],
        final(layer_actions)@[at as int]@ == new_action(*candidate, target(reused)),
{
    layer_actions.push(PlannedLayerAction::new(candidate, reused));
    layer_actions.len() - 1
}

/// What the actions of a plan say.
pub open spec fn action_views(actions: Seq<PlannedLayerAction>) -> Seq<ActionView> {
    Seq::new(actions.len(), |i: int| actions[i]@)
}

/// Every open scope leads to an action that is there, as does every injection.
pub open spec fn plan_is_closed(state: PlanState) -> bool {
    &&& forall|scope: InjectionScope| #[trigger]
        state.open_scopes.dom().contains(scope) ==> state.open_scopes[scope] < state.actions.len()
    &&& forall|i: int|
        0 <= i < state.injections.len() ==> (#[trigger] state.injections[i]).layer_action
            < state.actions.len()
}

/// Plans the layers for `candidates`, given the injections that were there before, in document
/// order and placed where the edits have moved them.
pub fn plan_layers(
    candidates: &Vec<InjectionCandidate>,
    old_injections: &Vec<MappedOldInjection>,
) -> (plan: InjectionPlan)
    ensures
        ({
            let state = planned(candidates@, old_injections@);
            &&& action_views(plan.layer_actions@) == state.actions
            &&& plan.injections@ == stably_ordered(state.injections)
            &&& plan.retired_layers@ == all_retired(state, old_injections@)
        }),
        in_key_order(plan.injections@),
        plan.injections@.to_multiset() == planned(
            candidates@,
            old_injections@,
        ).injections.to_multiset(),
{
    let mut layer_actions: Vec<PlannedLayerAction> = Vec::new();
    let mut injections: Vec<PlannedInjection> = Vec::new();
    let mut open_scopes: Vec<(InjectionScope, usize)> = Vec::new();
    let mut retired_layers: Vec<Layer> = Vec::new();
    let mut next_old: usize = 0;
    proof {
        assert(candidates@.take(0) == Seq::<InjectionCandidate>::empty());
        assert(action_views(layer_actions@) == empty_plan().actions);
    }
    for c in 0..candidates.len()
        invariant
            next_old <= old_injections.len(),
            ({
                let state = planned(candidates@.take(c as int), old_injections@);
                &&& next_old == state.next_old
                &&& action_views(layer_actions@) == state.actions
                &&& injections@ == state.injections
                &&& lists_scopes(open_scopes@, state.open_scopes)
                &&& retired_layers@ == state.retired
                &&& plan_is_closed(state)
            }),
    {
        let ghost state = planned(candidates@.take(c as int), old_injections@);
        let ghost next = planned(candidates@.take(c + 1), old_injections@);
        proof {
            assert(candidates@.take(c + 1).drop_last() == candidates@.take(c as int));
            assert(candidates@.take(c + 1).last() == candidates@[c as int]);
        }
        let candidate = &candidates[c];
        let (after, reused) = take_reusable_injection(
            candidate.language,
            candidate.pattern,
            &candidate.matched_node_range,
            old_injections,
            next_old,
            &mut retired_layers,
        );
        next_old = after;
        assert(target(reused) == reused_by(state, *candidate, old_injections@));
        let ghost scopes_before = open_scopes@;
        let ghost actions_before = layer_actions@;
        let at: usize;
        match candidate.scope {
            Some(scope) => {
                let closes: bool = match scope {
                    InjectionScope::Match { .. } => candidate.last_match,
                    InjectionScope::Pattern { .. } => false,
                };
                match find_scope(&open_scopes, scope, Ghost(state.open_scopes)) {
                    Some(i) => {
                        at = open_scopes[i].1;
                        if closes {
                            open_scopes.remove(i);
                            proof {
                                lemma_scope_removed(scopes_before, state.open_scopes, i as int);
                            }
                        } else {
                            assert(state.open_scopes.insert(scope, at) == state.open_scopes);
                        }
                    },
                    None => {
                        at = push_layer_action(&mut layer_actions, candidate, reused);
                        if !closes {
                            open_scopes.push((scope, at));
                            proof {
                                lemma_scope_added(scopes_before, state.open_scopes, scope, at);
                            }
                        } else {
                            assert(state.open_scopes.remove(scope) == state.open_scopes);
                        }
                    },
                }
            },
            None => {
                at = push_layer_action(&mut layer_actions, candidate, reused);
            },
        }
        let ghost actions_with_new = layer_actions@;
        proof {
            let pushed = match open_action(state, *candidate) {
                Some(_) => state.actions,
                None => state.actions.push(new_action(*candidate, target(reused))),
            };
            assert(action_views(actions_with_new) == pushed);
        }
        layer_actions[at].apply_candidate(candidate, reused);
        proof {
            let pushed = action_views(actions_with_new);
            assert(action_views(layer_actions@) == pushed.update(
                at as int,
                with_candidate(pushed[at as int], *candidate, target(reused)),
            ));
            assert(action_views(layer_actions@) == next.actions);
        }
        let ghost injections_before = injections@;
        for i in 0..candidate.emitted_ranges.len()
            invariant
                injections@ == injections_before + planned_injections(*candidate, at).take(
                    i as int,
                ),
        {
            injections.push(
                PlannedInjection {
                    range: copy_range(&candidate.emitted_ranges[i]),
                    matched_node_range: copy_range(&candidate.matched_node_range),
                    layer_action: at,
                },
            );
            assert(planned_injections(*candidate, at).take(i + 1) == planned_injections(
                *candidate,
                at,
            ).take(i as int).push(planned_injections(*candidate, at)[i as int]));
        }
        proof {
            let all = planned_injections(*candidate, at);
            assert(all.take(all.len() as int) == all);
        }
    }
    proof {
        assert(candidates@.take(candidates.len() as int) == candidates@);
    }
    for i in next_old..old_injections.len()
        invariant
            next_old <= old_injections.len(),
            ({
                let state = planned(candidates@, old_injections@);
                &&& next_old == state.next_old
                &&& retired_layers@ == state.retired + layers_between(
                    old_injections@,
                    next_old as int,
                    i as int,
                )
            }),
    {
        retired_layers.push(old_injections[i].layer);
        assert(retired_layers@ == planned(candidates@, old_injections@).retired + layers_between(
            old_injections@,
            next_old as int,
            i + 1,
        ));
    }
    order_by_key(&mut injections);
    InjectionPlan { layer_actions, injections, retired_layers }
}

proof fn lemma_scope_removed(
    entries: Seq<(InjectionScope, usize)>,
    scopes: Map<InjectionScope, usize>,
    at: int,
)
    requires
        lists_scopes(entries, scopes),
        0 <= at < entries.len(),
    ensures
        lists_scopes(entries.remove(at), scopes.remove(entries[at].0)),
{
    let left = entries.remove(at);
    let fewer = scopes.remove(entries[at].0);
    assert forall|i: int| 0 <= i < left.len() implies fewer.dom().contains((#[trigger] left[i]).0)
        && fewer[left[i].0] == left[i].1 by {
        if i < at {
            assert(left[i] == entries[i]);
        } else {
            assert(left[i] == entries[i + 1]);
        }
    }
    assert forall|scope: InjectionScope| #[trigger] fewer.dom().contains(scope) implies exists|
        i: int,
    |
        0 <= i < left.len() && (#[trigger] left[i]).0 == scope by {
        assert(scopes.dom().contains(scope));
        let k = choose|k: int| 0 <= k < entries.len() && (#[trigger] entries[k]).0 == scope;
        if k < at {
            assert(left[k] == entries[k]);
        } else {
            assert(left[k - 1] == entries[k]);
        }
    }
    assert forall|i: int, j: int| 0 <= i < j < left.len() implies (#[trigger] left[i]).0 != (
    #[trigger] left[j]).0 by {
        let a = if i < at {
            i
        } else {
            i + 1
        };
        let b = if j < at {
            j
        } else {
            j + 1
        };
        assert(left[i] == entries[a] && left[j] == entries[b]);
    }
}

proof fn lemma_scope_added(
    entries: Seq<(InjectionScope, usize)>,
    scopes: Map<InjectionScope, usize>,
    scope: InjectionScope,
    at: usize,
)
    requires
        lists_scopes(entries, scopes),
        !scopes.dom().contains(scope),
    ensures
        lists_scopes(entries.push((scope, at)), scopes.insert(scope, at)),
{
    let more = entries.push((scope, at));
    let grown = scopes.insert(scope, at);
    assert forall|i: int| 0 <= i < more.len() implies grown.dom().contains((#[trigger] more[i]).0)
        && grown[more[i].0] == more[i].1 by {
        if i < entries.len() {
            assert(more[i] == entries[i]);
        }
    }
    assert forall|s: InjectionScope| #[trigger] grown.dom().contains(s) implies exists|i: int|
        0 <= i < more.len() && (#[trigger] more[i]).0 == s by {
        if s == scope {
            assert(more[entries.len() as int].0 == s);
        } else {
            assert(scopes.dom().contains(s));
            let k = choose|k: int| 0 <= k < entries.len() && (#[trigger] entries[k]).0 == s;
            assert(more[k] == entries[k]);
        }
    }
    assert forall|i: int, j: int| 0 <= i < j < more.len() implies (#[trigger] more[i]).0 != (
    #[trigger] more[j]).0 by {
        assert(more[i] == entries[i]);
        if j < entries.len() {
            assert(more[j] == entries[j]);
        }
    }
}

/// Whether the old injections up to where the plan has come are all settled: each one's layer
/// retired, or was reused, once.
pub open spec fn settles(state: PlanState, old_injections: Seq<MappedOldInjection>) -> bool {
    &&& 0 <= state.next_old <= old_injections.len()
    &&& layers_between(old_injections, 0, state.next_old).to_multiset()
        =~= state.retired.to_multiset().add(state.reused.to_multiset())
}

/// Every old layer is either reused or retired, once for each injection that it had, and nothing
/// else retires.
pub proof fn lemma_plan_settles_every_old_layer(
    candidates: Seq<InjectionCandidate>,
    old_injections: Seq<MappedOldInjection>,
)
    ensures
        ({
            let state = planned(candidates, old_injections);
            layers_between(old_injections, 0, old_injections.len() as int).to_multiset()
                =~= all_retired(state, old_injections).to_multiset().add(
                state.reused.to_multiset(),
            )
        }),
{
    lemma_planned_settles(candidates, old_injections);
    let state = planned(candidates, old_injections);
    let end = old_injections.len() as int;
    lemma_layers_split(old_injections, state.next_old, end);
    vstd::seq_lib::lemma_multiset_commutative(
        state.retired,
        layers_between(old_injections, state.next_old, end),
    );
}

proof fn lemma_layers_split(old_injections: Seq<MappedOldInjection>, from: int, to: int)
    requires
        0 <= from <= to <= old_injections.len(),
    ensures
        layers_between(old_injections, 0, to).to_multiset() =~= layers_between(
            old_injections,
            0,
            from,
        ).to_multiset().add(layers_between(old_injections, from, to).to_multiset()),
{
    let before = layers_between(old_injections, 0, from);
    let after = layers_between(old_injections, from, to);
    assert(layers_between(old_injections, 0, to) =~= before + after);
    vstd::seq_lib::lemma_multiset_commutative(before, after);
}

/// The search for the next old injection never goes back, nor past the end.
pub proof fn lemma_first_old_reaching(
    old_injections: Seq<MappedOldInjection>,
    from: int,
    byte: u32,
)
    requires
        0 <= from <= old_injections.len(),
    ensures
        from <= first_old_reaching(old_injections, from, byte) <= old_injections.len(),
    decreases old_injections.len() - from,
{
    if from < old_injections.len() && old_injections[from].range.end <= byte {
        lemma_first_old_reaching(old_injections, from + 1, byte);
    }
}

proof fn lemma_planned_settles(
    candidates: Seq<InjectionCandidate>,
    old_injections: Seq<MappedOldInjection>,
)
    ensures
        settles(planned(candidates, old_injections), old_injections),
    decreases candidates.len(),
{
    broadcast use vstd::seq_lib::group_to_multiset_ensures;

    if candidates.len() == 0 {
        assert(layers_between(old_injections, 0, 0) =~= Seq::<Layer>::empty());
        assert(Seq::<Layer>::empty().to_multiset() =~= vstd::multiset::Multiset::empty());
    } else {
        lemma_planned_settles(candidates.drop_last(), old_injections);
        let state = planned(candidates.drop_last(), old_injections);
        let candidate = candidates.last();
        let at = first_old_reaching(
            old_injections,
            state.next_old,
            candidate.matched_node_range.start,
        );
        lemma_first_old_reaching(
            old_injections,
            state.next_old,
            candidate.matched_node_range.start,
        );
        lemma_layers_split(old_injections, state.next_old, at);
        vstd::seq_lib::lemma_multiset_commutative(
            state.retired,
            layers_between(old_injections, state.next_old, at),
        );
        if let Some(old) = reused_by(state, candidate, old_injections) {
            assert(layers_between(old_injections, 0, at + 1) =~= layers_between(
                old_injections,
                0,
                at,
            ).push(old.layer));
        }
    }
}

/// What holds of every action: where it goes on with an old layer, an old injection of that layer
/// had the action's language and pattern; and a tree to start from is that of an old layer.
pub open spec fn reuses_rightly(
    action: ActionView,
    old_injections: Seq<MappedOldInjection>,
) -> bool {
    &&& action.source matches PlannedLayerSource::Reuse(layer) ==> exists|i: int|
        0 <= i < old_injections.len() && (#[trigger] old_injections[i]).layer == layer
            && old_injections[i].language == action.language && old_injections[i].pattern == Some(
            action.pattern,
        )
    &&& action.seed_layer matches Some(layer) ==> exists|i: int|
        0 <= i < old_injections.len() && (#[trigger] old_injections[i]).layer == layer
}

/// An old layer goes on only with the language and the pattern that it had, and trees to start from
/// are those of old layers.
pub proof fn lemma_plan_reuses_rightly(
    candidates: Seq<InjectionCandidate>,
    old_injections: Seq<MappedOldInjection>,
)
    ensures
        forall|i: int|
            0 <= i < planned(candidates, old_injections).actions.len() ==> reuses_rightly(
                #[trigger] planned(candidates, old_injections).actions[i],
                old_injections,
            ),
        plan_is_closed(planned(candidates, old_injections)),
    decreases candidates.len(),
{
    if candidates.len() > 0 {
        lemma_plan_reuses_rightly(candidates.drop_last(), old_injections);
        lemma_planned_settles(candidates.drop_last(), old_injections);
        let state = planned(candidates.drop_last(), old_injections);
        let candidate = candidates.last();
        let reused = reused_by(state, candidate, old_injections);
        lemma_first_old_reaching(
            old_injections,
            state.next_old,
            candidate.matched_node_range.start,
        );
        assert(reuses_rightly(new_action(candidate, reused), old_injections));
    }
}

/// Whether the range of every planned injection is one of its layer's ranges.
pub open spec fn injections_lie_in_layers(state: PlanState) -> bool {
    forall|i: int|
        0 <= i < state.injections.len() ==> lies_in_layer(#[trigger] state.injections[i], state)
}

pub open spec fn lies_in_layer(injection: PlannedInjection, state: PlanState) -> bool {
    &&& injection.layer_action < state.actions.len()
    &&& state.actions[injection.layer_action as int].ranges.contains(injection.range)
}

/// The range of every planned injection is one of the ranges of its layer, provided the number of
/// candidates is one that memory can hold.
pub proof fn lemma_planned_injections_lie_in_layers(
    candidates: Seq<InjectionCandidate>,
    old_injections: Seq<MappedOldInjection>,
)
    requires
        candidates.len() <= usize::MAX,
    ensures
        injections_lie_in_layers(planned(candidates, old_injections)),
        planned(candidates, old_injections).actions.len() <= candidates.len(),
    decreases candidates.len(),
{
    if candidates.len() > 0 {
        lemma_planned_injections_lie_in_layers(candidates.drop_last(), old_injections);
        lemma_plan_reuses_rightly(candidates.drop_last(), old_injections);
        let state = planned(candidates.drop_last(), old_injections);
        let next = planned(candidates, old_injections);
        let candidate = candidates.last();
        let found = open_action(state, candidate);
        let at: int = match found {
            Some(at) => at as int,
            None => state.actions.len() as int,
        };
        let ranges_before = match found {
            Some(at) => state.actions[at as int].ranges,
            None => Seq::empty(),
        };
        assert(next.actions[at].ranges == ranges_before + candidate.emitted_ranges@);
        assert forall|i: int| 0 <= i < next.injections.len() implies lies_in_layer(
            #[trigger] next.injections[i],
            next,
        ) by {
            let injection = next.injections[i];
            if i < state.injections.len() {
                assert(lies_in_layer(state.injections[i], state));
                if injection.layer_action == at {
                    let k = ranges_before.index_of(injection.range);
                    assert(next.actions[at].ranges[k] == injection.range);
                }
            } else {
                let k = i - state.injections.len();
                assert(next.actions[at].ranges[ranges_before.len() + k] == injection.range);
            }
        }
    }
}

/// A candidate goes on with the first old injection left that ends behind the begin of its node,
/// exactly where that one begins before the end of the node and has its language and its pattern.
/// Those before it are given up, and so is that one unless the candidate goes on with it or a later
/// candidate does.
pub proof fn lemma_which_layer_goes_on(
    state: PlanState,
    candidate: InjectionCandidate,
    old_injections: Seq<MappedOldInjection>,
    at: int,
)
    requires
        0 <= state.next_old <= at <= old_injections.len(),
        forall|i: int|
            state.next_old <= i < at ==> (#[trigger] old_injections[i]).range.end
                <= candidate.matched_node_range.start,
        at < old_injections.len() ==> old_injections[at].range.end
            > candidate.matched_node_range.start,
    ensures
        ({
            let reused = reused_by(state, candidate, old_injections);
            let after = plan_step(state, candidate, old_injections);
            let goes_on = at < old_injections.len() && old_injections[at].range.start
                < candidate.matched_node_range.end && old_injections[at].language
                == candidate.language && old_injections[at].pattern == Some(candidate.pattern);
            &&& reused == if goes_on {
                Some(old_injections[at])
            } else {
                None
            }
            &&& after.next_old == if goes_on {
                at + 1
            } else {
                at
            }
            &&& after.retired == state.retired + Seq::new(
                (at - state.next_old) as nat,
                |i: int| old_injections[state.next_old + i].layer,
            )
        }),
{
    lemma_first_old_is(old_injections, state.next_old, candidate.matched_node_range.start, at);
    assert(layers_between(old_injections, state.next_old, at) =~= Seq::new(
        (at - state.next_old) as nat,
        |i: int| old_injections[state.next_old + i].layer,
    ));
}

proof fn lemma_first_old_is(
    old_injections: Seq<MappedOldInjection>,
    from: int,
    byte: u32,
    at: int,
)
    requires
        0 <= from <= at <= old_injections.len(),
        forall|i: int| from <= i < at ==> (#[trigger] old_injections[i]).range.end <= byte,
        at < old_injections.len() ==> old_injections[at].range.end > byte,
    ensures
        first_old_reaching(old_injections, from, byte) == at,
    decreases at - from,
{
    if from < at {
        assert(old_injections[from].range.end <= byte);
        lemma_first_old_is(old_injections, from + 1, byte, at);
    }
}

/// A candidate that is on its own, or the first of its scope, gets a layer of its own, with its
/// language, its pattern and its ranges. The layer is the old one that the candidate goes on with,
/// if there is one; it counts as modified exactly where the old injection was, or its node is
/// another one now, and as moved where the old injection was. A new layer starts without a tree.
pub proof fn lemma_layer_of_a_first_candidate(
    state: PlanState,
    candidate: InjectionCandidate,
    old_injections: Seq<MappedOldInjection>,
)
    requires
        state.actions.len() < usize::MAX,
        candidate.scope is None || !state.open_scopes.dom().contains(candidate.scope->0),
    ensures
        ({
            let after = plan_step(state, candidate, old_injections);
            let reused = reused_by(state, candidate, old_injections);
            let action = after.actions.last();
            &&& after.actions.len() == state.actions.len() + 1
            &&& after.actions.drop_last() == state.actions
            &&& action.language == candidate.language
            &&& action.pattern == candidate.pattern
            &&& action.ranges == candidate.emitted_ranges@
            &&& action.seed_layer is None
            &&& match reused {
                Some(old) => {
                    &&& action.source == PlannedLayerSource::Reuse(old.layer)
                    &&& action.moved == old.moved
                    &&& action.modified == (old.modified || old.matched_node_range
                        != candidate.matched_node_range)
                },
                None => action.source == PlannedLayerSource::New && !action.moved
                    && !action.modified,
            }
        }),
{
    let after = plan_step(state, candidate, old_injections);
    assert(after.actions.drop_last() =~= state.actions);
    assert(after.actions.last().ranges =~= candidate.emitted_ranges@);
}

/// A further candidate of a scope adds its ranges to the layer of that scope, behind those that are
/// there. The layer counts as modified then, unless the candidate goes on with the old layer of the
/// very same node and that one was not modified. A new layer starts from the tree of the first old
/// layer that one of its further candidates could go on with.
pub proof fn lemma_layer_of_a_further_candidate(
    state: PlanState,
    candidate: InjectionCandidate,
    old_injections: Seq<MappedOldInjection>,
)
    requires
        candidate.scope is Some,
        state.open_scopes.dom().contains(candidate.scope->0),
        state.open_scopes[candidate.scope->0] < state.actions.len(),
    ensures
        ({
            let at = state.open_scopes[candidate.scope->0] as int;
            let after = plan_step(state, candidate, old_injections);
            let reused = reused_by(state, candidate, old_injections);
            let (before, now) = (state.actions[at], after.actions[at]);
            &&& after.actions.len() == state.actions.len()
            &&& forall|i: int|
                0 <= i < state.actions.len() && i != at ==> #[trigger] after.actions[i]
                    == state.actions[i]
            &&& now.source == before.source
            &&& now.language == before.language
            &&& now.pattern == before.pattern
            &&& now.ranges == before.ranges + candidate.emitted_ranges@
            &&& before.modified ==> now.modified
            &&& before.moved ==> now.moved
            &&& before.source matches PlannedLayerSource::Reuse(layer) ==> {
                &&& now.seed_layer == before.seed_layer
                &&& now.modified == (before.modified || reused is None || (reused->0).layer != layer
                    || (reused->0).matched_node_range != candidate.matched_node_range || (
                reused->0).modified)
                &&& now.moved == (before.moved || (reused is Some && (reused->0).layer == layer && (
                reused->0).moved))
            }
            &&& before.source == PlannedLayerSource::New ==> {
                &&& now.moved == before.moved
                &&& now.seed_layer == if before.seed_layer is Some {
                    before.seed_layer
                } else if reused is Some {
                    Some((reused->0).layer)
                } else {
                    None
                }
                &&& before.seed_layer is None && reused is Some ==> now.modified
                &&& before.seed_layer is None && reused is None ==> now.modified == before.modified
                &&& before.seed_layer is Some ==> now.modified == (before.modified || reused is None
                    || Some((reused->0).layer) != before.seed_layer || (
                reused->0).matched_node_range != candidate.matched_node_range)
            }
        }),
{
}

/// The injections of a candidate are its ranges in their order, each with its node, and all of them
/// in one layer. Two candidates in a row that are of one scope share a layer unless the first was
/// the last node of its match; all others do not.
pub proof fn lemma_who_shares_a_layer(
    state: PlanState,
    first: InjectionCandidate,
    second: InjectionCandidate,
    old_injections: Seq<MappedOldInjection>,
)
    requires
        state.actions.len() + 1 < usize::MAX,
        plan_is_closed(state),
        second.scope is Some && second.scope != first.scope ==> !state.open_scopes.dom().contains(
            second.scope->0,
        ),
    ensures
        ({
            let middle = plan_step(state, first, old_injections);
            let after = plan_step(middle, second, old_injections);
            let (a, b) = (state.injections.len(), middle.injections.len());
            let shared = first.scope is Some && first.scope == second.scope && !(
            first.last_match && first.scope->0 is Match);
            &&& middle.injections.take(a as int) == state.injections
            &&& middle.injections.len() == a + first.emitted_ranges.len()
            &&& forall|i: int|
                a <= i < b ==> {
                    &&& (#[trigger] middle.injections[i]).range == first.emitted_ranges@[i - a]
                    &&& middle.injections[i].matched_node_range == first.matched_node_range
                }
            &&& forall|i: int, j: int|
                a <= i < b && b <= j < after.injections.len() ==> ((
                #[trigger] after.injections[i]).layer_action == (
                #[trigger] after.injections[j]).layer_action <==> shared)
            &&& forall|i: int, j: int|
                b <= i < after.injections.len() && b <= j < after.injections.len() ==> (
                #[trigger] after.injections[i]).layer_action == (
                #[trigger] after.injections[j]).layer_action
        }),
{
    let middle = plan_step(state, first, old_injections);
    let after = plan_step(middle, second, old_injections);
    let (a, b) = (state.injections.len(), middle.injections.len());
    assert(middle.injections.take(a as int) =~= state.injections);
    assert forall|i: int| a <= i < b implies after.injections[i] == #[trigger] middle.injections[i] by {
    }
}

} // verus!
