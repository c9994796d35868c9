//! Parses documents layer by layer.
use crate::byte_text::byte_len;
use crate::candidates::{accepted_matches, collect_injection_candidates, is_candidate_of};
use crate::config::LanguageLoader;
use crate::injection::{in_turn, order_by_precedence, InjectionCandidate, InjectionQueryMatch};
use crate::injections_query::are_injections;
use crate::layers::{
    acted, action_fits, carried_out, injections_stay_small, is_layer_of, is_plan_for, mapped_old,
    no_flags, no_layers, plan_fits, ranges_written, retired, settled, slab_index_mut, slab_insert,
    slab_keys, slab_new, slab_retain_touched, LayerData, LayerUpdateFlags, LayerView, Syntax,
};
use crate::locals::{only_root, Locals};
use crate::mapping::{
    farthest_shift, injection_stays_small, is_farthest, keeps_injection_small, total_shift,
    MappedOldInjection,
};
use crate::ordering::{lemma_stably_ordered, stably_ordered};
use crate::planning::{
    action_views, all_retired, layers_between, lemma_plan_reuses_rightly,
    lemma_plan_settles_every_old_layer, planned, reuses_rightly, ActionView, InjectionPlan,
    PlannedLayerSource,
};
use crate::rope::{
    in_one_piece, slice_get_byte_slice, slice_len_bytes, slice_of_str, slice_text, slice_to_string,
};
use crate::treesitter::{
    at_characters, describes, duration_secs, edited_tree, grammar_of, in_order, is_compatible,
    is_edit, parse_limited, parse_unlimited, parsed_tree, same_grammar, tree_edit, tree_grammar,
    whole_secs, ParseOutcome,
};
use crate::types::{Injection, InputEdit, Language, Layer};
use ropey::RopeSlice;
use std::ops::Range;
use std::time::Duration;
use tree_house_bindings::{Grammar, Tree};
use vstd::prelude::*;

verus! {

/// Whether candidates are what is made of matches in the order of the document, given the ranges of
/// their layer.
pub open spec fn are_candidates(
    candidates: Seq<InjectionCandidate>,
    matches: Seq<InjectionQueryMatch>,
    parents: Seq<Range<u32>>,
) -> bool {
    &&& candidates.len() == accepted_matches(in_turn(matches), parents).len()
    &&& forall|i: int|
        0 <= i < candidates.len() ==> is_candidate_of(
            #[trigger] candidates[i],
            accepted_matches(in_turn(matches), parents)[i],
            parents,
        )
}

/// The layers while the injections of one of them are looked for: it lends out its ranges, its tree
/// and its injections.
pub open spec fn hollowed(layers: Map<usize, LayerView>, layer: Layer) -> Map<usize, LayerView> {
    layers.insert(
        layer.0,
        LayerView {
            ranges: Seq::empty(),
            parse_tree: None,
            injections: Seq::empty(),
            ..layers[layer.0]
        },
    )
}

/// Whether the layers `after` are what becomes of those `before` when the injections of a layer
/// are looked for, and what it finds is `matches`.
pub open spec fn is_injected(
    before: Map<usize, LayerView>,
    after: Map<usize, LayerView>,
    layer: Layer,
    matches: Seq<InjectionQueryMatch>,
    edits: Seq<InputEdit>,
    ids: Seq<Layer>,
) -> bool {
    exists|candidates: Seq<InjectionCandidate>, plan: InjectionPlan|
        #![trigger are_candidates(candidates, matches, before[layer.0].ranges), plan.layer_actions@]
        {
            &&& are_candidates(candidates, matches, before[layer.0].ranges)
            &&& is_plan_for(
                plan,
                candidates,
                mapped_old(hollowed(before, layer), before[layer.0].injections, edits),
            )
            &&& ids.len() == plan.layer_actions.len()
            &&& forall|i: int|
                0 <= i < ids.len() ==> #[trigger] is_layer_of(
                    retired(hollowed(before, layer), plan.retired_layers@),
                    layer,
                    action_views(plan.layer_actions@),
                    ids,
                    i,
                )
            &&& after == carried_out(
                hollowed(before, layer),
                layer,
                before[layer.0].ranges,
                before[layer.0].parse_tree->0,
                plan,
                ids,
            )
        }
}

/// Whether the injections of a layer can be looked for: it has been parsed, the layers of its
/// injections are there and know it, and the edits keep all offsets small.
pub open spec fn is_ready(
    layers: Map<usize, LayerView>,
    layer: Layer,
    edits: Seq<InputEdit>,
) -> bool {
    &&& layers.dom().contains(layer.0)
    &&& layers[layer.0].parse_tree is Some
    &&& forall|i: int|
        0 <= i < layers[layer.0].injections.len() ==> is_child(
            layers,
            layer,
            (#[trigger] layers[layer.0].injections[i]).layer,
        )
    &&& injections_stay_small(edits, layers[layer.0].injections)
}

/// Whether `child` is a layer inside of `layer`.
pub open spec fn is_child(layers: Map<usize, LayerView>, layer: Layer, child: Layer) -> bool {
    &&& layers.dom().contains(child.0)
    &&& layers[child.0].parent == Some(layer)
}

/// A plan speaks of the layers of the old injections only.
proof fn lemma_plan_fits(
    layers: Map<usize, LayerView>,
    layer: Layer,
    plan: InjectionPlan,
    candidates: Seq<InjectionCandidate>,
    old_injections: Seq<MappedOldInjection>,
)
    requires
        is_plan_for(plan, candidates, old_injections),
        forall|i: int|
            0 <= i < old_injections.len() ==> is_child(
                layers,
                layer,
                (#[trigger] old_injections[i]).layer,
            ),
    ensures
        plan_fits(layers, layer, plan),
{
    broadcast use vstd::seq_lib::group_to_multiset_ensures;

    let state = planned(candidates, old_injections);
    let end = old_injections.len() as int;
    lemma_plan_settles_every_old_layer(candidates, old_injections);
    assert forall|i: int| 0 <= i < plan.retired_layers.len() implies layers.dom().contains(
        (#[trigger] plan.retired_layers@[i]).0,
    ) by {
        let given_up = all_retired(state, old_injections);
        let all = layers_between(old_injections, 0, end);
        assert(given_up.contains(plan.retired_layers@[i]));
        assert(given_up.to_multiset().count(plan.retired_layers@[i]) > 0);
        assert(all.to_multiset().count(plan.retired_layers@[i]) > 0);
        assert(all.contains(plan.retired_layers@[i]));
        let k = choose|k: int| 0 <= k < all.len() && all[k] == plan.retired_layers@[i];
        assert(is_child(layers, layer, old_injections[k].layer));
    }
    lemma_plan_reuses_rightly(candidates, old_injections);
    assert forall|i: int| 0 <= i < plan.layer_actions.len() implies action_fits(
        layers,
        layer,
        (#[trigger] plan.layer_actions@[i])@,
    ) by {
        assert(action_views(plan.layer_actions@)[i] == plan.layer_actions@[i]@);
        assert(reuses_rightly(state.actions[i], old_injections));
    }
    lemma_stably_ordered(state.injections);
    assert forall|i: int| 0 <= i < plan.injections.len() implies (
    #[trigger] plan.injections@[i]).layer_action < plan.layer_actions.len() by {
        let ordered = stably_ordered(state.injections);
        assert(ordered.contains(plan.injections@[i]));
        assert(ordered.to_multiset().count(plan.injections@[i]) > 0);
        assert(state.injections.contains(plan.injections@[i]));
    }
}

/// Whether all trees are in sync with a text.
pub open spec fn in_sync(layers: Map<usize, LayerView>, text: Seq<char>) -> bool {
    forall|key: usize| #[trigger]
        layers.dom().contains(key) ==> (layers[key].parse_tree matches Some(tree) ==> describes(
            tree,
            text,
        ))
}

/// Whether a layer is still the same one, and has been touched if it was.
pub open spec fn same_layer(before: LayerView, after: LayerView) -> bool {
    &&& after.language == before.language
    &&& after.parent == before.parent
    &&& after.flags.touched == before.flags.touched
}

/// Whether a layer is still the same one, with the same ranges and the same tree.
pub open spec fn same_top(before: LayerView, after: LayerView) -> bool {
    &&& same_layer(before, after)
    &&& after.ranges == before.ranges
    &&& after.parse_tree == before.parse_tree
}

proof fn lemma_retired_is_same(layers: Map<usize, LayerView>, given_up: Seq<Layer>, text: Seq<char>)
    requires
        forall|i: int|
            0 <= i < given_up.len() ==> layers.dom().contains((#[trigger] given_up[i]).0),
    ensures
        retired(layers, given_up).dom() == layers.dom(),
        forall|key: usize| #[trigger]
            layers.dom().contains(key) ==> same_top(layers[key], retired(layers, given_up)[key]),
        in_sync(layers, text) ==> in_sync(retired(layers, given_up), text),
    decreases given_up.len(),
{
    if given_up.len() > 0 {
        lemma_retired_is_same(layers, given_up.drop_last(), text);
        assert(layers.dom().contains(given_up.last().0));
        assert(retired(layers, given_up).dom() =~= layers.dom());
    }
}

proof fn lemma_acted_is_same(
    layers: Map<usize, LayerView>,
    parent: Layer,
    actions: Seq<ActionView>,
    ids: Seq<Layer>,
    count: int,
    text: Seq<char>,
)
    requires
        0 <= count <= ids.len() == actions.len(),
        forall|i: int|
            0 <= i < actions.len() ==> action_fits(layers, parent, #[trigger] actions[i]),
        forall|i: int|
            0 <= i < actions.len() ==> #[trigger] is_layer_of(layers, parent, actions, ids, i),
    ensures
        layers.dom().subset_of(acted(layers, parent, actions, ids, count).dom()),
        forall|key: usize| #[trigger]
            layers.dom().contains(key) && layers[key].parent is None ==> acted(
                layers,
                parent,
                actions,
                ids,
                count,
            )[key] == layers[key],
        in_sync(layers, text) ==> in_sync(acted(layers, parent, actions, ids, count), text),
        forall|key: usize| #[trigger]
            layers.dom().contains(key) && layers[key].parent == Some(parent) ==> acted(
                layers,
                parent,
                actions,
                ids,
                count,
            )[key].parent == Some(parent),
        forall|i: int|
            0 <= i < count ==> {
                &&& acted(layers, parent, actions, ids, count).dom().contains(
                    (#[trigger] ids[i]).0,
                )
                &&& acted(layers, parent, actions, ids, count)[ids[i].0].parent == Some(parent)
                &&& !(layers.dom().contains(ids[i].0) && layers[ids[i].0].parent is None)
            },
    decreases count,
{
    if count > 0 {
        lemma_acted_is_same(layers, parent, actions, ids, count - 1, text);
        let before = acted(layers, parent, actions, ids, count - 1);
        assert(action_fits(layers, parent, actions[count - 1]));
        assert(is_layer_of(layers, parent, actions, ids, count - 1));
        if let Some(seed) = actions[count - 1].seed_layer {
            assert(before.dom().contains(seed.0));
        }
        if let PlannedLayerSource::Reuse(layer) = actions[count - 1].source {
            assert(before.dom().contains(layer.0));
        }
    }
}

proof fn lemma_ranges_written_is_same(
    layers: Map<usize, LayerView>,
    actions: Seq<ActionView>,
    ids: Seq<Layer>,
    count: int,
    text: Seq<char>,
)
    requires
        0 <= count <= ids.len() == actions.len(),
        forall|i: int| 0 <= i < ids.len() ==> layers.dom().contains((#[trigger] ids[i]).0),
    ensures
        ranges_written(layers, actions, ids, count).dom() == layers.dom(),
        forall|key: usize| #[trigger]
            layers.dom().contains(key) ==> same_layer(
                layers[key],
                ranges_written(layers, actions, ids, count)[key],
            ) && ranges_written(layers, actions, ids, count)[key].parse_tree
                == layers[key].parse_tree,
        forall|key: usize| #[trigger]
            layers.dom().contains(key) && (forall|i: int|
                0 <= i < count ==> (#[trigger] ids[i]).0 != key) ==> ranges_written(
                layers,
                actions,
                ids,
                count,
            )[key] == layers[key],
        in_sync(layers, text) ==> in_sync(ranges_written(layers, actions, ids, count), text),
    decreases count,
{
    if count > 0 {
        lemma_ranges_written_is_same(layers, actions, ids, count - 1, text);
        assert(layers.dom().contains(ids[count - 1].0));
        assert(ranges_written(layers, actions, ids, count).dom() =~= layers.dom());
    }
}

/// Carrying out a plan keeps trees in sync, and layers without parents.
proof fn lemma_carried_out_is_same(
    layers: Map<usize, LayerView>,
    parent: Layer,
    parent_ranges: Seq<Range<u32>>,
    parse_tree: Tree,
    plan: InjectionPlan,
    ids: Seq<Layer>,
    text: Seq<char>,
)
    requires
        layers.dom().contains(parent.0),
        plan_fits(layers, parent, plan),
        ids.len() == plan.layer_actions.len(),
        forall|i: int|
            0 <= i < ids.len() ==> #[trigger] is_layer_of(
                retired(layers, plan.retired_layers@),
                parent,
                action_views(plan.layer_actions@),
                ids,
                i,
            ),
    ensures
        ({
            let after = carried_out(layers, parent, parent_ranges, parse_tree, plan, ids);
            &&& in_sync(layers, text) && describes(parse_tree, text) ==> in_sync(after, text)
            &&& forall|key: usize| #[trigger]
                layers.dom().contains(key) && layers[key].parent is None ==> {
                    &&& same_layer(layers[key], after[key])
                    &&& key != parent.0 ==> same_top(layers[key], after[key])
                    &&& key == parent.0 ==> after[key].ranges == parent_ranges
                        && after[key].parse_tree == Some(parse_tree)
                }
            &&& layers.dom().subset_of(after.dom())
            &&& forall|i: int| 0 <= i < ids.len() ==> is_child(after, parent, #[trigger] ids[i])
        }),
{
    let actions = action_views(plan.layer_actions@);
    let cleared = retired(layers, plan.retired_layers@);
    lemma_retired_is_same(layers, plan.retired_layers@, text);
    assert forall|i: int| 0 <= i < actions.len() implies action_fits(
        cleared,
        parent,
        #[trigger] actions[i],
    ) by {
        assert(action_fits(layers, parent, plan.layer_actions@[i]@));
    }
    let count = actions.len() as int;
    lemma_acted_is_same(cleared, parent, actions, ids, count, text);
    let made = acted(cleared, parent, actions, ids, count);
    lemma_ranges_written_is_same(made, actions, ids, count, text);
    let written = ranges_written(made, actions, ids, count);
    assert forall|key: usize| #[trigger]
        layers.dom().contains(key) && layers[key].parent is None implies same_top(
        layers[key],
        written[key],
    ) by {
        assert(cleared.dom().contains(key));
        assert(made.dom().contains(key));
        assert forall|i: int| 0 <= i < count implies (#[trigger] ids[i]).0 != key by {
            assert(!(cleared.dom().contains(ids[i].0) && cleared[ids[i].0].parent is None));
        }
    }
    assert(cleared.dom().contains(parent.0));
    assert(made.dom().contains(parent.0));
    let after = carried_out(layers, parent, parent_ranges, parse_tree, plan, ids);
    assert forall|i: int| 0 <= i < ids.len() implies is_child(
        after,
        parent,
        #[trigger] ids[i],
    ) by {
        assert(made.dom().contains(ids[i].0));
    }
    assert forall|key: usize| layers.dom().contains(key) implies #[trigger] after.dom().contains(
        key,
    ) by {
        assert(cleared.dom().contains(key));
        assert(made.dom().contains(key));
    }
}

/// Whether the layers that are there when the injections of a layer are looked for stay: trees stay
/// in sync, and layers without parents as they are. The layers that are to be parsed are children
/// of the one whose injections are looked for.
pub open spec fn keeps_layers(
    before: Map<usize, LayerView>,
    after: Map<usize, LayerView>,
    layer: Layer,
    ids: Seq<Layer>,
) -> bool {
    &&& before.dom().subset_of(after.dom())
    &&& forall|i: int| 0 <= i < ids.len() ==> is_child(after, layer, #[trigger] ids[i])
    &&& forall|text: Seq<char>| #[trigger] in_sync(before, text) ==> in_sync(after, text)
    &&& forall|key: usize| #[trigger]
        before.dom().contains(key) && before[key].parent is None ==> same_top(
            before[key],
            after[key],
        )
}

/// Looking for injections keeps trees in sync, and the layers without parents as they are. The
/// layers that are to be parsed are children of the one whose injections were looked for.
pub proof fn lemma_injected(
    before: Map<usize, LayerView>,
    after: Map<usize, LayerView>,
    layer: Layer,
    matches: Seq<InjectionQueryMatch>,
    edits: Seq<InputEdit>,
    ids: Seq<Layer>,
)
    requires
        is_ready(before, layer, edits),
        is_injected(before, after, layer, matches, edits, ids),
    ensures
        keeps_layers(before, after, layer, ids),
{
    let hollow = hollowed(before, layer);
    let ranges = before[layer.0].ranges;
    let tree = before[layer.0].parse_tree->0;
    let mapped = mapped_old(hollow, before[layer.0].injections, edits);
    let (candidates, plan) = choose|candidates: Seq<InjectionCandidate>, plan: InjectionPlan|
        #![trigger are_candidates(candidates, matches, ranges), plan.layer_actions@]
        {
            &&& are_candidates(candidates, matches, ranges)
            &&& is_plan_for(plan, candidates, mapped)
            &&& ids.len() == plan.layer_actions.len()
            &&& forall|i: int|
                0 <= i < ids.len() ==> #[trigger] is_layer_of(
                    retired(hollow, plan.retired_layers@),
                    layer,
                    action_views(plan.layer_actions@),
                    ids,
                    i,
                )
            &&& after == carried_out(hollow, layer, ranges, tree, plan, ids)
        };
    assert forall|i: int| 0 <= i < mapped.len() implies is_child(
        hollow,
        layer,
        (#[trigger] mapped[i]).layer,
    ) by {
        assert(is_child(before, layer, before[layer.0].injections[i].layer));
    }
    lemma_plan_fits(hollow, layer, plan, candidates, mapped);
    assert(hollow.dom() =~= before.dom());
    assert forall|text: Seq<char>| #[trigger] in_sync(before, text) implies in_sync(after, text) by {
        assert(before.dom().contains(layer.0));
        assert(in_sync(hollow, text));
        lemma_carried_out_is_same(hollow, layer, ranges, tree, plan, ids, text);
    }
    lemma_carried_out_is_same(hollow, layer, ranges, tree, plan, ids, Seq::empty());
    assert forall|key: usize| #[trigger]
        before.dom().contains(key) && before[key].parent is None implies same_top(
        before[key],
        after[key],
    ) by {
        assert(hollow.dom().contains(key));
        assert(same_layer(before[key], hollow[key]));
    }
}

impl Syntax {
    /// Plans and carries out what the matches of a layer's injection query ask for. Returns the
    /// layers that are to be parsed.
    pub fn inject(
        &mut self,
        layer: Layer,
        query_matches: Vec<InjectionQueryMatch>,
        edits: &[InputEdit],
    ) -> (ids: Vec<Layer>)
        requires
            is_ready(old(self).view(), layer, edits@),
        ensures
            final(self).root == old(self).root,
            is_injected(
                old(self).view(),
                final(self).view(),
                layer,
                query_matches@,
                edits@,
                ids@,
            ),
            keeps_layers(old(self).view(), final(self).view(), layer, ids@),
    {
        let ghost before = self.view();
        let data = slab_index_mut(&mut self.layers, layer.idx());
        let mut parent_ranges: Vec<Range<u32>> = Vec::new();
        std::mem::swap(&mut parent_ranges, &mut data.ranges);
        let mut old_injections: Vec<Injection> = Vec::new();
        std::mem::swap(&mut old_injections, &mut data.injections);
        let parse_tree: Tree = data.parse_tree.take().unwrap();
        proof {
            assert(data.ranges@ =~= Seq::empty());
            assert(data.injections@ =~= Seq::empty());
        }
        let ghost matches = query_matches@;
        // The matches come in the order of the document; of those that compete, later patterns have
        // their turn first.
        let in_turn = order_by_precedence(query_matches);
        let candidates = collect_injection_candidates(&in_turn, &parent_ranges);
        proof {
            assert(self.view() == hollowed(before, layer));
            assert forall|i: int| 0 <= i < old_injections.len() implies self.has(
                (#[trigger] old_injections@[i]).layer,
            ) by {
                assert(is_child(before, layer, before[layer.0].injections[i].layer));
            }
        }
        let ghost candidates_seq = candidates@;
        let ghost mapped = mapped_old(hollowed(before, layer), before[layer.0].injections, edits@);
        let plan = self.plan_injections(candidates, old_injections, edits);
        proof {
            assert forall|i: int| 0 <= i < mapped.len() implies is_child(
                self.view(),
                layer,
                (#[trigger] mapped[i]).layer,
            ) by {
                assert(is_child(before, layer, before[layer.0].injections[i].layer));
            }
            lemma_plan_fits(self.view(), layer, plan, candidates_seq, mapped);
        }
        let ghost whole_plan = plan;
        let ids = self.apply_injection_plan(layer, parent_ranges, parse_tree, plan);
        proof {
            assert(are_candidates(candidates_seq, matches, before[layer.0].ranges));
            assert(whole_plan.layer_actions@.len() == ids.len());
            lemma_injected(before, self.view(), layer, matches, edits@, ids@);
        }
        ids
    }
}

/// Why a document could not be parsed.
#[derive(Debug, Clone, Copy, PartialEq, Eq, Structural)]
pub enum EngineError {
    /// The time was up.
    Timeout,
    /// The document takes half a gibibyte or more.
    ExceededMaximumSize,
    /// An edit does not fit the document, or the parts to parse are not in order.
    InvalidRanges,
    /// A layer does not fit the document, or does not know the layers inside of it.
    Unknown,
    /// The loader does not know the language of the document.
    NoRootConfig,
    /// The parser cannot use the grammar of a language.
    IncompatibleGrammar(Language),
}

/// The first number of bytes that is too large for a document. Tree-sitter would be too slow, and
/// counts in signed numbers of 32 bits.
pub const MAX_SOURCE_BYTES: usize = 0x2000_0000;

/// The longest time limit, in seconds, that is worth watching.
pub const MAX_TIMEOUT_SECS: u64 = 4_000_000_000;

/// The query that finds the injections of a layer, if its language has one.
pub open spec fn injection_query_of<L: LanguageLoader>(
    loader: &L,
    language: Language,
) -> Option<crate::injections_query::InjectionsQuery> {
    match loader.config_of(language) {
        Some(config) => if config.injection_query.injection_content_capture is Some {
            Some(config.injection_query)
        } else {
            None
        },
        None => None,
    }
}

/// Whether the layers `after` are what becomes of those `before` when the injection query of a
/// layer is run, and `ids` are the layers that are to be parsed.
pub open spec fn is_queried<L: LanguageLoader>(
    before: Map<usize, LayerView>,
    after: Map<usize, LayerView>,
    layer: Layer,
    edits: Seq<InputEdit>,
    source: RopeSlice<'_>,
    loader: &L,
    ids: Seq<Layer>,
) -> bool {
    match injection_query_of(loader, before[layer.0].language) {
        None => after == before && ids == Seq::<Layer>::empty(),
        Some(query) => exists|matches: Seq<InjectionQueryMatch>| #[trigger]
            are_injections(matches, query, before[layer.0].parse_tree->0, source, loader)
                && is_injected(before, after, layer, matches, edits, ids),
    }
}

impl Syntax {
    /// Tells whether the injections of a layer can be looked for.
    fn check_ready(&self, layer: Layer, edits: &[InputEdit]) -> (ready: bool)
        ensures
            ready == is_ready(self.view(), layer, edits@),
    {
        let data = match self.get_layer(layer) {
            Some(data) => data,
            None => return false,
        };
        if data.parse_tree.is_none() {
            return false;
        }
        for i in 0..data.injections.len()
            invariant
                self.has(layer),
                data@ == self.view()[layer.0],
                forall|k: int|
                    0 <= k < i ==> is_child(
                        self.view(),
                        layer,
                        (#[trigger] self.view()[layer.0].injections[k]).layer,
                    ),
        {
            let child = data.injections[i].layer;
            assert(self.view()[layer.0].injections[i as int].layer == child);
            match self.get_layer(child) {
                Some(found) => if found.parent != Some(layer) {
                    return false;
                },
                None => return false,
            }
        }
        if edits.len() == 0 {
            return true;
        }
        match farthest_shift(edits) {
            None => false,
            Some(most) => {
                assert(total_shift(edits@, 0) == 0);
                for i in 0..data.injections.len()
                    invariant
                        edits.len() > 0,
                        data@ == self.view()[layer.0],
                        is_farthest(edits@, most as int),
                        most <= i32::MAX,
                        forall|k: int|
                            0 <= k < i ==> injection_stays_small(
                                edits@,
                                #[trigger] self.view()[layer.0].injections[k],
                            ),
                {
                    assert(self.view()[layer.0].injections[i as int] == data.injections@[i as int]);
                    if !keeps_injection_small(edits, most, &data.injections[i]) {
                        return false;
                    }
                }
                true
            },
        }
    }

    /// Looks for the injections of a layer, and brings its child layers up to date. Returns the
    /// layers that are to be parsed.
    pub fn run_injection_query<L: LanguageLoader>(
        &mut self,
        layer: Layer,
        edits: &[InputEdit],
        source: RopeSlice<'_>,
        loader: &L,
    ) -> (ids: Vec<Layer>)
        requires
            is_ready(old(self).view(), layer, edits@),
            describes(old(self).view()[layer.0].parse_tree->0, slice_text(source)),
        ensures
            final(self).root == old(self).root,
            is_queried(
                old(self).view(),
                final(self).view(),
                layer,
                edits@,
                source,
                loader,
                ids@,
            ),
            keeps_layers(old(self).view(), final(self).view(), layer, ids@),
    {
        let text = slice_to_string(&source);
        self.query_injections(layer, edits, source, slice_of_str(&text), loader)
    }

    /// Looks for the injections of a layer in a document whose text is also there in one piece.
    fn query_injections<L: LanguageLoader>(
        &mut self,
        layer: Layer,
        edits: &[InputEdit],
        source: RopeSlice<'_>,
        whole: RopeSlice<'_>,
        loader: &L,
    ) -> (ids: Vec<Layer>)
        requires
            is_ready(old(self).view(), layer, edits@),
            describes(old(self).view()[layer.0].parse_tree->0, slice_text(source)),
            in_one_piece(whole),
            slice_text(whole) == slice_text(source),
        ensures
            final(self).root == old(self).root,
            is_queried(
                old(self).view(),
                final(self).view(),
                layer,
                edits@,
                source,
                loader,
                ids@,
            ),
            keeps_layers(old(self).view(), final(self).view(), layer, ids@),
    {
        let data = self.layer(layer);
        let config = match loader.get_config(data.language) {
            Some(config) => config,
            None => return Vec::new(),
        };
        if config.injection_query.injection_content_capture.is_none() {
            return Vec::new();
        }
        let query_matches = match &data.parse_tree {
            Some(tree) => config.injection_query.execute_on(tree, source, whole, loader),
            None => return Vec::new(),
        };
        self.inject(layer, query_matches, edits)
    }
}

/// Whether edits, the last one first, turn one text into another, and 32 bits can always count its
/// bytes.
pub open spec fn edits_turn(before: Seq<char>, after: Seq<char>, edits: Seq<InputEdit>) -> bool
    decreases edits.len(),
{
    if edits.len() == 0 {
        before == after
    } else {
        exists|middle: Seq<char>| #[trigger]
            is_edit(before, middle, edits.last()) && byte_len(middle) <= u32::MAX && edits_turn(
                middle,
                after,
                edits.drop_last(),
            )
    }
}

/// A tree once its text has been edited, the last edit first.
pub open spec fn edited_through(tree: Tree, edits: Seq<InputEdit>) -> Tree
    decreases edits.len(),
{
    if edits.len() == 0 {
        tree
    } else {
        edited_through(edited_tree(tree, edits.last()), edits.drop_last())
    }
}

/// The layers once their text has been edited, the last edit first.
pub open spec fn edited_layers(layers: Map<usize, LayerView>, edits: Seq<InputEdit>) -> Map<
    usize,
    LayerView,
> {
    Map::new(
        |key: usize| layers.dom().contains(key),
        |key: usize|
            LayerView {
                parse_tree: match layers[key].parse_tree {
                    Some(tree) => Some(edited_through(tree, edits)),
                    None => None,
                },
                ..layers[key]
            },
    )
}

/// Keeps a tree in sync with a text that is edited, the last edit first. If they were applied in
/// order, each one would displace the next.
fn edit_tree(
    tree: &mut Tree,
    edits: &[InputEdit],
    Ghost(before): Ghost<Seq<char>>,
    Ghost(after): Ghost<Seq<char>>,
)
    requires
        describes(*old(tree), before),
        edits_turn(before, after, edits@),
    ensures
        describes(*final(tree), after),
        *final(tree) == edited_through(*old(tree), edits@),
{
    let ghost mut current = before;
    let mut left: usize = edits.len();
    assert(edits@.take(left as int) =~= edits@);
    while left > 0
        invariant
            left <= edits.len(),
            describes(*tree, current),
            edited_through(*tree, edits@.take(left as int)) == edited_through(*old(tree), edits@),
            edits_turn(current, after, edits@.take(left as int)),
        decreases left,
    {
        let ghost some = edits@.take(left as int);
        assert(some.drop_last() =~= edits@.take(left - 1));
        let ghost middle = choose|middle: Seq<char>| #[trigger]
            is_edit(current, middle, some.last()) && byte_len(middle) <= u32::MAX && edits_turn(
                middle,
                after,
                some.drop_last(),
            );
        left = left - 1;
        tree_edit(tree, &edits[left]);
        proof {
            current = middle;
        }
    }
}

/// The tree that a parse with a grammar may be helped by: the one that is there, if it is of that
/// grammar.
pub open spec fn helpful(tree: Option<Tree>, grammar: Grammar) -> Option<Tree> {
    match tree {
        Some(tree) => if tree_grammar(tree) == grammar {
            Some(tree)
        } else {
            None
        },
        None => None,
    }
}

/// The layers once one of them has been parsed, with the help of its old tree. Where the loader
/// does not know the language, nothing changes.
pub open spec fn with_parse<L: LanguageLoader>(
    layers: Map<usize, LayerView>,
    layer: Layer,
    text: Seq<char>,
    loader: &L,
) -> Map<usize, LayerView> {
    let data = layers[layer.0];
    match loader.config_of(data.language) {
        Some(config) => layers.insert(
            layer.0,
            LayerView {
                parse_tree: Some(
                    parsed_tree(
                        config.grammar,
                        data.ranges,
                        text,
                        helpful(data.parse_tree, config.grammar),
                    ),
                ),
                ..data
            },
        ),
        None => layers,
    }
}

/// What comes of a parse of a text in a language.
pub open spec fn result_of(outcome: ParseOutcome, language: Language) -> Result<Tree, EngineError> {
    match outcome {
        ParseOutcome::Parsed(tree) => Ok(tree),
        ParseOutcome::Stopped => Err(EngineError::Timeout),
        ParseOutcome::InvalidRanges => Err(EngineError::InvalidRanges),
        ParseOutcome::IncompatibleGrammar => Err(EngineError::IncompatibleGrammar(language)),
    }
}

/// Says what comes of a parse of a text in a language: a parse that was stopped has run out of
/// time.
pub fn outcome_result(outcome: ParseOutcome, language: Language) -> (res: Result<Tree, EngineError>)
    ensures
        res == result_of(outcome, language),
{
    match outcome {
        ParseOutcome::Parsed(tree) => Ok(tree),
        ParseOutcome::Stopped => Err(EngineError::Timeout),
        ParseOutcome::InvalidRanges => Err(EngineError::InvalidRanges),
        ParseOutcome::IncompatibleGrammar => Err(EngineError::IncompatibleGrammar(language)),
    }
}

/// Whether there is a limit to the time that a parse may take.
pub open spec fn is_limited(timeout: Duration) -> bool {
    duration_secs(timeout) <= MAX_TIMEOUT_SECS
}

/// Whether a parse of a layer may fail in this way. Only a parse with a time limit runs out of
/// time, and only if nothing else is wrong.
pub open spec fn is_parse_failure<L: LanguageLoader>(
    layer: LayerView,
    error: EngineError,
    text: Seq<char>,
    timeout: Duration,
    loader: &L,
) -> bool {
    loader.config_of(layer.language) matches Some(config) && if !at_characters(
        layer.ranges,
        text,
    ) {
        error == EngineError::Unknown
    } else if !is_compatible(config.grammar) {
        error == EngineError::IncompatibleGrammar(layer.language)
    } else if !in_order(layer.ranges) {
        error == EngineError::InvalidRanges
    } else {
        error == EngineError::Timeout && is_limited(timeout)
    }
}

/// Tells whether ranges begin and end at characters of a document, or end behind it.
fn check_ranges(ranges: &Vec<Range<u32>>, source: &RopeSlice<'_>) -> (fit: bool)
    ensures
        fit == at_characters(ranges@, slice_text(*source)),
{
    let len: usize = slice_len_bytes(source);
    if ranges.len() > u32::MAX as usize {
        return false;
    }
    for i in 0..ranges.len()
        invariant
            len == byte_len(slice_text(*source)),
            ranges.len() <= u32::MAX,
            at_characters(ranges@.take(i as int), slice_text(*source)),
    {
        let start: usize = ranges[i].start as usize;
        let end: usize = ranges[i].end as usize;
        assert(ranges@.take(i + 1) =~= ranges@.take(i as int).push(ranges@[i as int]));
        if slice_get_byte_slice(source, start, start).is_none() || (end < len
            && slice_get_byte_slice(source, end, end).is_none()) {
            assert(!at_characters(ranges@, slice_text(*source))) by {
                assert(ranges@[i as int].start == start);
            }
            return false;
        }
    }
    assert(ranges@.take(ranges.len() as int) =~= ranges@);
    true
}

impl Syntax {
    /// Parses a layer.
    pub fn parse_layer<L: LanguageLoader>(
        &mut self,
        layer: Layer,
        source: RopeSlice<'_>,
        timeout: Duration,
        loader: &L,
    ) -> (res: Result<(), EngineError>)
        requires
            old(self).has(layer),
            byte_len(slice_text(source)) < MAX_SOURCE_BYTES,
            old(self).view()[layer.0].parse_tree matches Some(tree) ==> describes(
                tree,
                slice_text(source),
            ),
        ensures
            final(self).root == old(self).root,
            match res {
                Ok(()) => {
                    &&& final(self).view() == with_parse(
                        old(self).view(),
                        layer,
                        slice_text(source),
                        loader,
                    )
                    &&& final(self).view()[layer.0].parse_tree matches Some(tree) ==> describes(
                        tree,
                        slice_text(source),
                    )
                },
                Err(error) => {
                    &&& final(self).view() == old(self).view()
                    &&& is_parse_failure(
                        old(self).view()[layer.0],
                        error,
                        slice_text(source),
                        timeout,
                        loader,
                    )
                },
            },
    {
        let data = self.layer(layer);
        let language = data.language;
        let config = match loader.get_config(language) {
            Some(config) => config,
            None => return Ok(()),
        };
        if !check_ranges(&data.ranges, &source) {
            return Err(EngineError::Unknown);
        }
        let grammar = config.grammar;
        let older = match data.tree() {
            Some(tree) => if same_grammar(grammar_of(tree), grammar) {
                Some(tree)
            } else {
                None
            },
            None => None,
        };
        let outcome = if whole_secs(timeout) > MAX_TIMEOUT_SECS {
            parse_unlimited(grammar, &data.ranges, source, older)
        } else {
            parse_limited(grammar, &data.ranges, source, older, timeout)
        };
        match outcome_result(outcome, language) {
            Ok(tree) => {
                slab_index_mut(&mut self.layers, layer.idx()).parse_tree = Some(tree);
                Ok(())
            },
            Err(error) => Err(error),
        }
    }

    /// Keeps all trees in sync with a text that is edited.
    fn edit_trees(
        &mut self,
        edits: &[InputEdit],
        Ghost(before): Ghost<Seq<char>>,
        Ghost(after): Ghost<Seq<char>>,
    )
        requires
            in_sync(old(self).view(), before),
            edits_turn(before, after, edits@),
        ensures
            final(self).root == old(self).root,
            in_sync(final(self).view(), after),
            final(self).view() == edited_layers(old(self).view(), edits@),
    {
        let ghost layers = self.view();
        let ghost edited = edited_layers(layers, edits@);
        let keys = slab_keys(&self.layers);
        for i in 0..keys.len()
            invariant
                keys@.no_duplicates(),
                forall|key: usize| keys@.contains(key) == #[trigger] layers.dom().contains(key),
                in_sync(layers, before),
                edits_turn(before, after, edits@),
                self.root == old(self).root,
                self.view().dom() == layers.dom(),
                edited == edited_layers(layers, edits@),
                forall|k: int|
                    0 <= k < i ==> self.view()[#[trigger] keys@[k]] == edited[keys@[k]] && (
                    edited[keys@[k]].parse_tree matches Some(tree) ==> describes(tree, after)),
                forall|k: int|
                    i <= k < keys.len() ==> self.view()[#[trigger] keys@[k]] == layers[keys@[k]],
        {
            let ghost key = keys@[i as int];
            assert(keys@.contains(key));
            assert(layers.dom().contains(key));
            let data = slab_index_mut(&mut self.layers, keys[i]);
            if let Some(tree) = data.parse_tree.as_mut() {
                edit_tree(tree, edits, Ghost(before), Ghost(after));
            }
            assert(self.view().dom() =~= layers.dom());
        }
        assert forall|key: usize| #[trigger] layers.dom().contains(key) implies self.view()[key]
            == edited[key] && (edited[key].parse_tree matches Some(tree) ==> describes(
            tree,
            after,
        )) by {
            let k = choose|k: int| 0 <= k < keys.len() && keys@[k] == key;
            assert(self.view()[keys@[k]] == edited[keys@[k]]);
        }
        assert(self.view() =~= edited);
    }
}

/// Whether layers can be kept up to date: the root is there and has no parent, and some text that
/// all trees are in sync with is turned into `after` by the edits.
pub open spec fn can_update(
    layers: Map<usize, LayerView>,
    root: Layer,
    after: Seq<char>,
    edits: Seq<InputEdit>,
) -> bool {
    &&& layers.dom().contains(root.0)
    &&& layers[root.0].parent is None
    &&& exists|before: Seq<char>| #[trigger]
        in_sync(layers, before) && edits_turn(before, after, edits)
}

/// Whether layers are up to date with a text: the root has a tree, and all trees are in sync.
pub open spec fn is_up_to_date(
    layers: Map<usize, LayerView>,
    root: Layer,
    text: Seq<char>,
) -> bool {
    &&& layers.dom().contains(root.0)
    &&& layers[root.0].parent is None
    &&& layers[root.0].parse_tree is Some
    &&& in_sync(layers, text)
    &&& forall|key: usize| #[trigger]
        layers.dom().contains(key) ==> layers[key].flags == no_flags()
}

/// The layers while a document is parsed, and those that are still to be looked at, the next one
/// last.
pub struct EngineState {
    pub layers: Map<usize, LayerView>,
    pub queue: Seq<Layer>,
}

/// Whether a layer is to be parsed: its text has changed, or it has no tree.
pub open spec fn needs_parse(layer: LayerView) -> bool {
    layer.flags.modified || layer.parse_tree is None
}

/// The layers once one of them has been parsed, if need be.
pub open spec fn looked_at<L: LanguageLoader>(
    layers: Map<usize, LayerView>,
    layer: Layer,
    text: Seq<char>,
    loader: &L,
) -> Map<usize, LayerView> {
    if needs_parse(layers[layer.0]) {
        with_parse(layers, layer, text, loader)
    } else {
        layers
    }
}

/// Whether `after` comes of `before` when the next layer is looked at: it is parsed if need be, and
/// the layers that its injections ask for are to be looked at next.
#[verifier::opaque]
pub open spec fn is_step<L: LanguageLoader>(
    before: EngineState,
    after: EngineState,
    edits: Seq<InputEdit>,
    source: RopeSlice<'_>,
    loader: &L,
) -> bool {
    let layer = before.queue.last();
    let rest = before.queue.drop_last();
    &&& before.queue.len() > 0
    &&& before.layers.dom().contains(layer.0)
    &&& if before.layers[layer.0].ranges.len() == 0 {
        after.layers == before.layers && after.queue == rest
    } else {
        let parsed = looked_at(before.layers, layer, slice_text(source), loader);
        exists|ids: Seq<Layer>|
            #![trigger rest + ids]
            {
                &&& if parsed[layer.0].parse_tree is Some {
                    is_ready(parsed, layer, edits) && is_queried(
                        parsed,
                        after.layers,
                        layer,
                        edits,
                        source,
                        loader,
                        ids,
                    )
                } else {
                    after.layers == parsed && ids == Seq::<Layer>::empty()
                }
                &&& after.queue == rest + ids
            }
    }
}

/// Whether looking at the next layer may fail in this way: it cannot be parsed, or its injections
/// cannot be looked for.
#[verifier::opaque]
pub open spec fn is_failure<L: LanguageLoader>(
    state: EngineState,
    error: EngineError,
    edits: Seq<InputEdit>,
    source: RopeSlice<'_>,
    timeout: Duration,
    loader: &L,
) -> bool {
    let layer = state.queue.last();
    let data = state.layers[layer.0];
    let parsed = looked_at(state.layers, layer, slice_text(source), loader);
    &&& state.queue.len() > 0
    &&& state.layers.dom().contains(layer.0)
    &&& data.ranges.len() > 0
    &&& {
        ||| needs_parse(data) && is_parse_failure(data, error, slice_text(source), timeout, loader)
        ||| error == EngineError::Unknown && parsed[layer.0].parse_tree is Some && !is_ready(
            parsed,
            layer,
            edits,
        )
    }
}

/// Whether a run from the outermost layer may end with this error: at a layer that cannot be looked
/// at, or behind so many layers that they would never come to an end.
pub open spec fn is_failed_run<L: LanguageLoader>(
    states: Seq<EngineState>,
    root: Layer,
    before: Map<usize, LayerView>,
    error: EngineError,
    edits: Seq<InputEdit>,
    source: RopeSlice<'_>,
    timeout: Duration,
    loader: &L,
) -> bool {
    &&& is_run(states, edits, source, loader)
    &&& states[0] == (EngineState { layers: before, queue: seq![root] })
    &&& {
        ||| is_failure(states.last(), error, edits, source, timeout, loader)
        ||| error == EngineError::Timeout && states.len() > u32::MAX
    }
}

/// Whether each state of a run comes of the one before.
pub open spec fn is_run<L: LanguageLoader>(
    states: Seq<EngineState>,
    edits: Seq<InputEdit>,
    source: RopeSlice<'_>,
    loader: &L,
) -> bool {
    &&& states.len() > 0
    &&& forall|i: int|
        #![trigger states[i]]
        0 <= i < states.len() - 1 ==> is_step(states[i], states[i + 1], edits, source, loader)
}

proof fn lemma_run_goes_on<L: LanguageLoader>(
    states: Seq<EngineState>,
    next: EngineState,
    edits: Seq<InputEdit>,
    source: RopeSlice<'_>,
    loader: &L,
)
    requires
        is_run(states, edits, source, loader),
        is_step(states.last(), next, edits, source, loader),
    ensures
        is_run(states.push(next), edits, source, loader),
{
    let more = states.push(next);
    assert forall|i: int|
        #![trigger more[i]]
        0 <= i < more.len() - 1 implies is_step(more[i], more[i + 1], edits, source, loader) by {
        if i < states.len() - 1 {
            assert(is_step(states[i], states[i + 1], edits, source, loader));
        }
    }
}

/// Whether a run leads from the outermost layer to the end.
pub open spec fn is_whole_run<L: LanguageLoader>(
    states: Seq<EngineState>,
    root: Layer,
    before: Map<usize, LayerView>,
    after: Map<usize, LayerView>,
    edits: Seq<InputEdit>,
    source: RopeSlice<'_>,
    loader: &L,
) -> bool {
    &&& is_run(states, edits, source, loader)
    &&& states[0] == (EngineState { layers: before, queue: seq![root] })
    &&& states.last() == (EngineState { layers: after, queue: seq![] })
}

/// The tree of a layer once it has been looked at.
pub open spec fn tree_after<L: LanguageLoader>(
    layer: LayerView,
    text: Seq<char>,
    loader: &L,
) -> Option<Tree> {
    if layer.ranges.len() > 0 && needs_parse(layer) {
        match loader.config_of(layer.language) {
            Some(config) => Some(
                parsed_tree(
                    config.grammar,
                    layer.ranges,
                    text,
                    helpful(layer.parse_tree, config.grammar),
                ),
            ),
            None => layer.parse_tree,
        }
    } else {
        layer.parse_tree
    }
}

/// A step on another layer leaves a layer without a parent as it is, and out of the queue.
proof fn lemma_step_elsewhere<L: LanguageLoader>(
    before: EngineState,
    after: EngineState,
    root: Layer,
    edits: Seq<InputEdit>,
    source: RopeSlice<'_>,
    loader: &L,
)
    requires
        is_step(before, after, edits, source, loader),
        before.layers.dom().contains(root.0),
        before.layers[root.0].parent is None,
        !before.queue.contains(root),
    ensures
        after.layers.dom().contains(root.0),
        same_top(before.layers[root.0], after.layers[root.0]),
        !after.queue.contains(root),
{
    reveal(is_step);
    let layer = before.queue.last();
    let rest = before.queue.drop_last();
    assert(before.queue.contains(layer)) by {
        assert(before.queue[before.queue.len() - 1] == layer);
    }
    assert(!rest.contains(root)) by {
        if rest.contains(root) {
            let i = choose|i: int| 0 <= i < rest.len() && rest[i] == root;
            assert(before.queue[i] == root);
        }
    }
    if before.layers[layer.0].ranges.len() > 0 {
        lemma_step(before, after, root, edits, source, loader);
    }
}

/// A step on any layer leaves those without parents as they are but for the tree of the layer
/// itself, and asks for none of them.
proof fn lemma_step<L: LanguageLoader>(
    before: EngineState,
    after: EngineState,
    root: Layer,
    edits: Seq<InputEdit>,
    source: RopeSlice<'_>,
    loader: &L,
)
    requires
        is_step(before, after, edits, source, loader),
        before.layers.dom().contains(root.0),
        before.layers[root.0].parent is None,
        before.layers[before.queue.last().0].ranges.len() > 0,
    ensures
        after.layers.dom().contains(root.0),
        same_top(
            LayerView {
                parse_tree: after.layers[root.0].parse_tree,
                ..before.layers[root.0]
            },
            after.layers[root.0],
        ),
        before.queue.last() != root ==> after.layers[root.0].parse_tree
            == before.layers[root.0].parse_tree,
        before.queue.last() == root ==> after.layers[root.0].parse_tree == tree_after(
            before.layers[root.0],
            slice_text(source),
            loader,
        ),
        !before.queue.drop_last().contains(root) ==> !after.queue.contains(root),
{
    reveal(is_step);
    let layer = before.queue.last();
    let rest = before.queue.drop_last();
    let parsed = looked_at(before.layers, layer, slice_text(source), loader);
    let ids = choose|ids: Seq<Layer>|
        #![trigger rest + ids]
        {
            &&& if parsed[layer.0].parse_tree is Some {
                is_ready(parsed, layer, edits) && is_queried(
                    parsed,
                    after.layers,
                    layer,
                    edits,
                    source,
                    loader,
                    ids,
                )
            } else {
                after.layers == parsed && ids == Seq::<Layer>::empty()
            }
            &&& after.queue == rest + ids
        };
    assert(parsed.dom().contains(root.0));
    assert(parsed[root.0].parent is None);
    if parsed[layer.0].parse_tree is Some {
        if let Some(query) = injection_query_of(loader, parsed[layer.0].language) {
            let matches = choose|matches: Seq<InjectionQueryMatch>| #[trigger]
                are_injections(
                    matches,
                    query,
                    parsed[layer.0].parse_tree->0,
                    source,
                    loader,
                ) && is_injected(parsed, after.layers, layer, matches, edits, ids);
            lemma_injected(parsed, after.layers, layer, matches, edits, ids);
        }
    }
    if !rest.contains(root) && after.queue.contains(root) {
        let i = choose|i: int| 0 <= i < after.queue.len() && after.queue[i] == root;
        if i < rest.len() {
            assert(rest[i] == root);
        } else {
            assert(is_child(after.layers, layer, ids[i - rest.len()]));
        }
    }
}

/// When a document has been parsed, its outermost layer has the tree of the whole text, parsed with
/// the help of the tree that it had.
pub proof fn lemma_run_parses_the_root<L: LanguageLoader>(
    states: Seq<EngineState>,
    root: Layer,
    before: Map<usize, LayerView>,
    after: Map<usize, LayerView>,
    edits: Seq<InputEdit>,
    source: RopeSlice<'_>,
    loader: &L,
)
    requires
        is_whole_run(states, root, before, after, edits, source, loader),
        before.dom().contains(root.0),
        before[root.0].parent is None,
    ensures
        after.dom().contains(root.0),
        same_top(
            LayerView {
                parse_tree: tree_after(before[root.0], slice_text(source), loader),
                ..before[root.0]
            },
            after[root.0],
        ),
{
    assert(states.len() > 1) by {
        if states.len() == 1 {
            assert(states[0].queue.len() == 1);
            assert(states.last() == states[0]);
        }
    }
    assert(states[0].queue.last() == root);
    assert(states[0].queue.drop_last() =~= Seq::empty());
    assert(is_step(states[0], states[1], edits, source, loader));
    reveal(is_step);
    if before[root.0].ranges.len() > 0 {
        lemma_step(states[0], states[1], root, edits, source, loader);
    }
    lemma_run_keeps_the_root(states, 1, root, edits, source, loader);
}

proof fn lemma_run_keeps_the_root<L: LanguageLoader>(
    states: Seq<EngineState>,
    from: int,
    root: Layer,
    edits: Seq<InputEdit>,
    source: RopeSlice<'_>,
    loader: &L,
)
    requires
        is_run(states, edits, source, loader),
        0 <= from < states.len(),
        states[from].layers.dom().contains(root.0),
        states[from].layers[root.0].parent is None,
        !states[from].queue.contains(root),
    ensures
        states.last().layers.dom().contains(root.0),
        same_top(states[from].layers[root.0], states.last().layers[root.0]),
    decreases states.len() - from,
{
    if from < states.len() - 1 {
        assert(is_step(states[from], states[from + 1], edits, source, loader));
        lemma_step_elsewhere(states[from], states[from + 1], root, edits, source, loader);
        lemma_run_keeps_the_root(states, from + 1, root, edits, source, loader);
    }
}

/// The layers with the outermost one marked as one that is to be kept, and whose text has changed
/// if it was edited.
pub open spec fn marked(layers: Map<usize, LayerView>, root: Layer, edited: bool) -> Map<
    usize,
    LayerView,
> {
    layers.insert(
        root.0,
        LayerView {
            flags: LayerUpdateFlags { touched: true, modified: edited, ..layers[root.0].flags },
            ..layers[root.0]
        },
    )
}

/// Whether the layers `after` are what becomes of those `before` when they are brought up to date:
/// a run from the outermost layer on, after which the layers that it has not touched are dropped.
pub open spec fn is_updated<L: LanguageLoader>(
    before: Map<usize, LayerView>,
    after: Map<usize, LayerView>,
    root: Layer,
    edits: Seq<InputEdit>,
    source: RopeSlice<'_>,
    loader: &L,
) -> bool {
    let ready = marked(edited_layers(before, edits), root, edits.len() > 0);
    &&& exists|states: Seq<EngineState>, done: Map<usize, LayerView>|
        #![trigger is_whole_run(states, root, ready, done, edits, source, loader)]
        is_whole_run(states, root, ready, done, edits, source, loader) && after == settled(done)
    &&& !lacks_config(before[root.0], loader)
    &&& after[root.0].language == before[root.0].language
    &&& after[root.0].ranges == before[root.0].ranges
    &&& after[root.0].parse_tree == tree_after(ready[root.0], slice_text(source), loader)
}

/// Whether layers may not be brought up to date for this reason: the text is too large, the
/// outermost layer lacks a configuration, or the run that it takes fails.
pub open spec fn is_update_failure<L: LanguageLoader>(
    before: Map<usize, LayerView>,
    root: Layer,
    error: EngineError,
    edits: Seq<InputEdit>,
    source: RopeSlice<'_>,
    timeout: Duration,
    loader: &L,
) -> bool {
    let ready = marked(edited_layers(before, edits), root, edits.len() > 0);
    if byte_len(slice_text(source)) >= MAX_SOURCE_BYTES {
        error == EngineError::ExceededMaximumSize
    } else if lacks_config(before[root.0], loader) {
        error == EngineError::NoRootConfig
    } else {
        exists|states: Seq<EngineState>| #[trigger]
            is_failed_run(states, root, ready, error, edits, source, timeout, loader)
    }
}

/// Whether an outermost layer without a tree cannot be parsed: its language has no configuration,
/// or it has no ranges.
pub open spec fn lacks_config<L: LanguageLoader>(root: LayerView, loader: &L) -> bool {
    root.parse_tree is None && (loader.config_of(root.language) is None || root.ranges.len() == 0)
}

/// Errors tell what went wrong: that a text is too large, or that the outermost layer lacks a
/// configuration, is told if and only if it is so. Without a time limit, only a run that would
/// never come to an end is said to have run out of time.
pub proof fn lemma_failures_tell<L: LanguageLoader>(
    before: Map<usize, LayerView>,
    root: Layer,
    error: EngineError,
    edits: Seq<InputEdit>,
    source: RopeSlice<'_>,
    timeout: Duration,
    loader: &L,
)
    requires
        is_update_failure(before, root, error, edits, source, timeout, loader),
    ensures
        (error == EngineError::ExceededMaximumSize) == (byte_len(slice_text(source))
            >= MAX_SOURCE_BYTES),
        (error == EngineError::NoRootConfig) == (byte_len(slice_text(source)) < MAX_SOURCE_BYTES
            && lacks_config(before[root.0], loader)),
        error == EngineError::Timeout && !is_limited(timeout) ==> exists|
            states: Seq<EngineState>,
        | #[trigger]
            is_run(states, edits, source, loader) && states.len() > u32::MAX,
{
    reveal(is_failure);
    if byte_len(slice_text(source)) < MAX_SOURCE_BYTES && !lacks_config(before[root.0], loader) {
        let ready = marked(edited_layers(before, edits), root, edits.len() > 0);
        let states = choose|states: Seq<EngineState>| #[trigger]
            is_failed_run(states, root, ready, error, edits, source, timeout, loader);
        assert(is_run(states, edits, source, loader));
    }
}

impl Syntax {
    /// Looks at the next layer of a queue: parses it if need be, and puts the layers that its
    /// injections ask for on the queue. The text of the document is also there in one piece.
    fn look_at_next<L: LanguageLoader>(
        &mut self,
        queue: &mut Vec<Layer>,
        source: RopeSlice<'_>,
        whole: RopeSlice<'_>,
        timeout: Duration,
        edits: &[InputEdit],
        loader: &L,
    ) -> (res: Result<(), EngineError>)
        requires
            old(queue).len() > 0,
            forall|i: int| 0 <= i < old(queue).len() ==> old(self).has(#[trigger] old(queue)@[i]),
            in_sync(old(self).view(), slice_text(source)),
            byte_len(slice_text(source)) < MAX_SOURCE_BYTES,
            in_one_piece(whole),
            slice_text(whole) == slice_text(source),
        ensures
            final(self).root == old(self).root,
            match res {
                Ok(()) => {
                    &&& is_step(
                        EngineState { layers: old(self).view(), queue: old(queue)@ },
                        EngineState { layers: final(self).view(), queue: final(queue)@ },
                        edits@,
                        source,
                        loader,
                    )
                    &&& forall|i: int|
                        0 <= i < final(queue).len() ==> final(self).has(#[trigger] final(queue)@[i])
                    &&& in_sync(final(self).view(), slice_text(source))
                },
                Err(error) => is_failure(
                    EngineState { layers: old(self).view(), queue: old(queue)@ },
                    error,
                    edits@,
                    source,
                    timeout,
                    loader,
                ),
            },
    {
        proof {
            reveal(is_step);
            reveal(is_failure);
        }
        let ghost layers = self.view();
        let ghost asked_before = queue@;
        let layer = match queue.pop() {
            Some(layer) => layer,
            None => return Ok(()),
        };
        let ghost rest = queue@;
        assert(asked_before.last() == layer && asked_before.drop_last() == rest);
        assert(self.has(asked_before[asked_before.len() - 1]));
        assert forall|i: int| 0 <= i < queue.len() implies self.has(#[trigger] queue@[i]) by {
            assert(queue@[i] == asked_before[i]);
        }
        let data = self.layer(layer);
        if data.ranges.len() == 0 {
            return Ok(());
        }
        if data.flags.modified || data.parse_tree.is_none() {
            match self.parse_layer(layer, source, timeout, loader) {
                Ok(()) => {},
                Err(error) => return Err(error),
            }
        }
        let ghost parsed = self.view();
        proof {
            assert(parsed == looked_at(layers, layer, slice_text(source), loader));
            assert(parsed.dom() =~= layers.dom());
            assert forall|key: usize| #[trigger] parsed.dom().contains(key) implies (
            parsed[key].parse_tree matches Some(tree) ==> describes(tree, slice_text(source))) by {
                assert(layers.dom().contains(key));
            }
        }
        assert(in_sync(parsed, slice_text(source)));
        if self.layer(layer).parse_tree.is_none() {
            assert(rest + Seq::<Layer>::empty() =~= rest);
            return Ok(());
        }
        if !self.check_ready(layer, edits) {
            return Err(EngineError::Unknown);
        }
        let ids = self.query_injections(layer, edits, source, whole, loader);
        let ghost asked = ids@;
        assert(asked.take(0) =~= Seq::empty());
        for i in 0..ids.len()
            invariant
                asked == ids@,
                queue@ == rest + asked.take(i as int),
        {
            queue.push(ids[i]);
            assert(rest + asked.take(i + 1) =~= (rest + asked.take(i as int)).push(ids@[i as int]));
        }
        assert(asked.take(ids.len() as int) =~= asked);
        assert forall|k: int| 0 <= k < queue.len() implies self.has(#[trigger] queue@[k]) by {
            if k < rest.len() {
                assert(queue@[k] == asked_before[k]);
                assert(layers.dom().contains(asked_before[k].0));
                assert(parsed.dom().contains(asked_before[k].0));
            } else {
                assert(is_child(self.view(), layer, ids@[k - rest.len()]));
            }
        }
        proof {
            assert(asked_before.drop_last() + asked == queue@);
            assert(in_sync(self.view(), slice_text(source)));
            assert(is_queried(parsed, self.view(), layer, edits@, source, loader, asked));
            assert(is_step(
                EngineState { layers, queue: asked_before },
                EngineState { layers: self.view(), queue: queue@ },
                edits@,
                source,
                loader,
            ));
        }
        Ok(())
    }

    /// Parses the outermost layer and those that it asks for.
    fn parse_queue<L: LanguageLoader>(
        &mut self,
        source: RopeSlice<'_>,
        timeout: Duration,
        edits: &[InputEdit],
        loader: &L,
    ) -> (res: Result<(), EngineError>)
        requires
            old(self).has(old(self).root),
            in_sync(old(self).view(), slice_text(source)),
            byte_len(slice_text(source)) < MAX_SOURCE_BYTES,
        ensures
            final(self).root == old(self).root,
            match res {
                Ok(()) => in_sync(final(self).view(), slice_text(source)) && exists|
                    states: Seq<EngineState>,
                | #[trigger]
                    is_whole_run(
                        states,
                        old(self).root,
                        old(self).view(),
                        final(self).view(),
                        edits@,
                        source,
                        loader,
                    ),
                Err(error) => exists|states: Seq<EngineState>| #[trigger]
                    is_failed_run(
                        states,
                        old(self).root,
                        old(self).view(),
                        error,
                        edits@,
                        source,
                        timeout,
                        loader,
                    ),
            },
    {
        let root = self.root;
        let ghost start = self.view();
        let text = slice_to_string(&source);
        let whole = slice_of_str(&text);
        let mut queue: Vec<Layer> = Vec::with_capacity(32);
        queue.push(root);
        let ghost mut states: Seq<EngineState> = seq![
            EngineState { layers: start, queue: seq![root] },
        ];
        // Layers that inject themselves would keep the queue full.
        let mut left: u32 = u32::MAX;
        while queue.len() > 0
            invariant
                self.root == root,
                root == old(self).root,
                start == old(self).view(),
                in_one_piece(whole),
                slice_text(whole) == slice_text(source),
                states.len() + left == u32::MAX + 1,
                is_run(states, edits@, source, loader),
                states[0] == (EngineState { layers: start, queue: seq![root] }),
                states.last() == (EngineState { layers: self.view(), queue: queue@ }),
                in_sync(self.view(), slice_text(source)),
                byte_len(slice_text(source)) < MAX_SOURCE_BYTES,
                forall|i: int| 0 <= i < queue.len() ==> self.has(#[trigger] queue@[i]),
            decreases left,
        {
            if left == 0 {
                assert(is_failed_run(
                    states,
                    root,
                    start,
                    EngineError::Timeout,
                    edits@,
                    source,
                    timeout,
                    loader,
                ));
                return Err(EngineError::Timeout);
            }
            left = left - 1;
            match self.look_at_next(&mut queue, source, whole, timeout, edits, loader) {
                Ok(()) => {},
                Err(error) => {
                    assert(is_failure(states.last(), error, edits@, source, timeout, loader));
                    assert(is_failed_run(
                        states,
                        root,
                        start,
                        error,
                        edits@,
                        source,
                        timeout,
                        loader,
                    ));
                    return Err(error);
                },
            }
            proof {
                let next = EngineState { layers: self.view(), queue: queue@ };
                lemma_run_goes_on(states, next, edits@, source, loader);
                states = states.push(next);
            }
        }
        proof {
            assert(queue@ =~= seq![]);
            assert(is_whole_run(states, root, start, self.view(), edits@, source, loader));
        }
        Ok(())
    }

    /// Brings the layers up to date with a document that was edited.
    pub fn update<L: LanguageLoader>(
        &mut self,
        source: RopeSlice<'_>,
        timeout: Duration,
        edits: &[InputEdit],
        loader: &L,
    ) -> (res: Result<(), EngineError>)
        requires
            can_update(old(self).view(), old(self).root, slice_text(source), edits@),
        ensures
            final(self).root == old(self).root,
            match res {
                Ok(()) => {
                    &&& byte_len(slice_text(source)) < MAX_SOURCE_BYTES
                    &&& is_up_to_date(final(self).view(), final(self).root, slice_text(source))
                    &&& is_updated(
                        old(self).view(),
                        final(self).view(),
                        old(self).root,
                        edits@,
                        source,
                        loader,
                    )
                },
                Err(error) => is_update_failure(
                    old(self).view(),
                    old(self).root,
                    error,
                    edits@,
                    source,
                    timeout,
                    loader,
                ),
            },
    {
        if slice_len_bytes(&source) >= MAX_SOURCE_BYTES {
            return Err(EngineError::ExceededMaximumSize);
        }
        let root = self.root;
        let ghost start = self.view();
        let ghost before = choose|before: Seq<char>| #[trigger]
            in_sync(start, before) && edits_turn(before, slice_text(source), edits@);
        self.edit_trees(edits, Ghost(before), Ghost(slice_text(source)));
        assert(self.has(root));
        {
            let flags = &mut slab_index_mut(&mut self.layers, root.idx()).flags;
            flags.touched = true;
            flags.modified = edits.len() > 0;
        }
        let ghost ready = self.view();
        assert(ready == marked(edited_layers(start, edits@), root, edits@.len() > 0));
        let data = self.layer(root);
        if data.parse_tree.is_none() && (data.ranges.len() == 0 || loader.get_config(
            data.language,
        ).is_none()) {
            return Err(EngineError::NoRootConfig);
        }
        assert(!lacks_config(start[root.0], loader));
        match self.parse_queue(source, timeout, edits, loader) {
            Ok(()) => {},
            Err(error) => {
                assert(byte_len(slice_text(source)) < MAX_SOURCE_BYTES);
                assert(is_update_failure(
                    start,
                    root,
                    error,
                    edits@,
                    source,
                    timeout,
                    loader,
                ));
                return Err(error);
            },
        }
        let ghost done = self.view();
        proof {
            let states = choose|states: Seq<EngineState>| #[trigger]
                is_whole_run(states, root, ready, done, edits@, source, loader);
            lemma_run_parses_the_root(states, root, ready, done, edits@, source, loader);
        }
        slab_retain_touched(&mut self.layers);
        assert forall|key: usize| #[trigger] self.view().dom().contains(key) implies (
        self.view()[key].parse_tree matches Some(tree) ==> describes(tree, slice_text(source))) by {
            assert(done.dom().contains(key));
        }
        Ok(())
    }
}

/// All of a text.
pub open spec fn whole_text() -> Range<u32> {
    Range { start: 0, end: u32::MAX }
}

/// The layers of a document that has not been parsed yet.
pub open spec fn only_layer(root: Layer, language: Language) -> Map<usize, LayerView> {
    no_layers().insert(
        root.0,
        LayerView {
            language,
            parse_tree: None,
            origin_pattern: None,
            ranges: seq![whole_text()],
            injections: Seq::empty(),
            flags: no_flags(),
            parent: None,
            locals: only_root(),
        },
    )
}

/// Whether layers are what comes of the first parse of a document: they are up to date, and the
/// outermost one has the tree of the whole text.
pub open spec fn is_first_parse<L: LanguageLoader>(
    layers: Map<usize, LayerView>,
    root: Layer,
    language: Language,
    text: Seq<char>,
    loader: &L,
) -> bool {
    &&& is_up_to_date(layers, root, text)
    &&& byte_len(text) < MAX_SOURCE_BYTES
    &&& layers[root.0].language == language
    &&& layers[root.0].ranges == seq![whole_text()]
    &&& loader.config_of(language) matches Some(config) && layers[root.0].parse_tree == Some(
        parsed_tree(config.grammar, seq![whole_text()], text, None),
    )
    &&& exists|source: RopeSlice<'_>|
        #![trigger slice_text(source)]
        slice_text(source) == text && is_updated(
            only_layer(root, language),
            layers,
            root,
            Seq::empty(),
            source,
            loader,
        )
}

/// Whether a document may be refused for this reason: it is too large, its language has no
/// configuration, or its first parse fails.
pub open spec fn is_refused<L: LanguageLoader>(
    error: EngineError,
    language: Language,
    text: Seq<char>,
    timeout: Duration,
    loader: &L,
) -> bool {
    if byte_len(text) >= MAX_SOURCE_BYTES {
        error == EngineError::ExceededMaximumSize
    } else if loader.config_of(language) is None {
        error == EngineError::NoRootConfig
    } else {
        exists|root: Layer, source: RopeSlice<'_>| #[trigger]
            is_update_failure(
                only_layer(root, language),
                root,
                error,
                Seq::empty(),
                source,
                timeout,
                loader,
            ) && slice_text(source) == text
    }
}

impl Syntax {
    /// Parses a document.
    pub fn new<L: LanguageLoader>(
        source: RopeSlice<'_>,
        language: Language,
        timeout: Duration,
        loader: &L,
    ) -> (res: Result<Self, EngineError>)
        ensures
            match res {
                Ok(syntax) => is_first_parse(
                    syntax.view(),
                    syntax.root,
                    language,
                    slice_text(source),
                    loader,
                ),
                Err(error) => is_refused(error, language, slice_text(source), timeout, loader),
            },
    {
        let mut ranges: Vec<Range<u32>> = Vec::new();
        ranges.push(0..u32::MAX);
        let mut layers = slab_new();
        let root = Layer(
            slab_insert(
                &mut layers,
                LayerData {
                    language,
                    parse_tree: None,
                    origin_pattern: None,
                    ranges,
                    injections: Vec::new(),
                    flags: LayerUpdateFlags::default(),
                    parent: None,
                    locals: Locals::default(),
                },
            ),
        );
        let mut syntax = Syntax { layers, root };
        let edits: [InputEdit; 0] = [];
        proof {
            assert(edits@ =~= Seq::empty());
            assert(in_sync(syntax.view(), slice_text(source)));
            assert(syntax.view() =~= only_layer(root, language));
        }
        match syntax.update(source, timeout, &edits, loader) {
            Ok(()) => Ok(syntax),
            Err(error) => Err(error),
        }
    }
}

/// When a layer is looked at it is parsed if its text has changed or it has no tree, with its
/// grammar, its ranges, the whole text, and the tree that it had if that was of the same grammar;
/// else its tree stays. Nothing else about it changes, nor about any other layer. A layer whose
/// language has no configuration stays as it is.
pub proof fn lemma_when_a_layer_is_parsed<L: LanguageLoader>(
    layers: Map<usize, LayerView>,
    layer: Layer,
    text: Seq<char>,
    loader: &L,
)
    requires
        layers.dom().contains(layer.0),
    ensures
        ({
            let data = layers[layer.0];
            let after = looked_at(layers, layer, text, loader);
            let config = loader.config_of(data.language);
            &&& forall|key: usize| #[trigger]
                layers.dom().contains(key) && key != layer.0 ==> after.dom().contains(key)
                    && after[key] == layers[key]
            &&& config is None ==> after == layers
            &&& !data.flags.modified && data.parse_tree is Some ==> after == layers
            &&& (data.flags.modified || data.parse_tree is None) && config is Some ==> {
                let grammar = (config->0).grammar;
                let older = if data.parse_tree is Some && tree_grammar(data.parse_tree->0)
                    == grammar {
                    data.parse_tree
                } else {
                    None
                };
                &&& after[layer.0].parse_tree == Some(
                    parsed_tree(grammar, data.ranges, text, older),
                )
                &&& after[layer.0].ranges == data.ranges
                &&& after[layer.0].injections == data.injections
                &&& after[layer.0].language == data.language
                &&& after[layer.0].flags == data.flags
                &&& after[layer.0].parent == data.parent
            }
        }),
{
}

/// Edits reach a tree the last one first, so that none displaces another; of layers they change the
/// trees and nothing else, and they reach the tree of every layer.
pub proof fn lemma_edits_reach_every_tree(
    layers: Map<usize, LayerView>,
    edits: Seq<InputEdit>,
    edit: InputEdit,
    tree: Tree,
)
    ensures
        edited_through(tree, Seq::empty()) == tree,
        edited_through(tree, edits.push(edit)) == edited_through(edited_tree(tree, edit), edits),
        edited_layers(layers, edits).dom() == layers.dom(),
        forall|key: usize| #[trigger]
            layers.dom().contains(key) ==> {
                let (before, after) = (layers[key], edited_layers(layers, edits)[key]);
                &&& before.parse_tree is None ==> after == before
                &&& before.parse_tree is Some ==> after.parse_tree == Some(
                    edited_through(before.parse_tree->0, edits),
                )
                &&& after.ranges == before.ranges
                &&& after.injections == before.injections
                &&& after.flags == before.flags
                &&& after.language == before.language
                &&& after.parent == before.parent
            },
{
    assert(edits.push(edit).drop_last() =~= edits);
    assert(edited_layers(layers, edits).dom() =~= layers.dom());
}

/// Bringing layers up to date with edits parses the outermost layer anew, with the help of its tree
/// once edited; without edits, a tree that is there stays. Layers that the run did not touch are
/// dropped, and no marks are left.
pub proof fn lemma_updated_root<L: LanguageLoader>(
    before: Map<usize, LayerView>,
    after: Map<usize, LayerView>,
    root: Layer,
    edits: Seq<InputEdit>,
    source: RopeSlice<'_>,
    loader: &L,
)
    requires
        before.dom().contains(root.0),
        is_updated(before, after, root, edits, source, loader),
    ensures
        after[root.0].language == before[root.0].language,
        after[root.0].ranges == before[root.0].ranges,
        edits.len() == 0 && before[root.0].parse_tree is Some ==> after[root.0].parse_tree
            == before[root.0].parse_tree,
        edits.len() > 0 && before[root.0].ranges.len() > 0 ==> (loader.config_of(
            before[root.0].language,
        ) matches Some(config) ==> {
            let older = match before[root.0].parse_tree {
                Some(tree) => if tree_grammar(edited_through(tree, edits)) == config.grammar {
                    Some(edited_through(tree, edits))
                } else {
                    None
                },
                None => None,
            };
            after[root.0].parse_tree == Some(
                parsed_tree(config.grammar, before[root.0].ranges, slice_text(source), older),
            )
        }),
        edits.len() == 0 && before[root.0].parse_tree is None ==> before[root.0].ranges.len() > 0 && (
        loader.config_of(before[root.0].language) matches Some(config) && after[root.0].parse_tree
            == Some(
            parsed_tree(config.grammar, before[root.0].ranges, slice_text(source), None),
        )),
        forall|key: usize| #[trigger]
            after.dom().contains(key) ==> !after[key].flags.touched && !after[key].flags.modified
                && !after[key].flags.moved && !after[key].flags.reused,
{
    if edits.len() == 0 {
        assert(edits =~= Seq::empty());
        if let Some(tree) = before[root.0].parse_tree {
            assert(edited_through(tree, edits) == tree);
        }
    }
}

/// Each outcome of a parse is told: a tree, that the time was up, that the ranges are not in order,
/// or that the grammar cannot be used and of which language it is.
pub proof fn lemma_outcomes_are_told(tree: Tree, language: Language)
    ensures
        result_of(ParseOutcome::Parsed(tree), language) == Ok::<Tree, EngineError>(tree),
        result_of(ParseOutcome::Stopped, language) == Err::<Tree, EngineError>(
            EngineError::Timeout,
        ),
        result_of(ParseOutcome::InvalidRanges, language) == Err::<Tree, EngineError>(
            EngineError::InvalidRanges,
        ),
        result_of(ParseOutcome::IncompatibleGrammar, language) == Err::<Tree, EngineError>(
            EngineError::IncompatibleGrammar(language),
        ),
{
}

/// Why a layer cannot be parsed: its ranges do not lie at characters, its grammar cannot be used,
/// its ranges are not in order, or, with a time limit and nothing else wrong, the time was up. A
/// layer whose language has no configuration does not fail.
pub proof fn lemma_why_a_parse_fails<L: LanguageLoader>(
    layer: LayerView,
    error: EngineError,
    text: Seq<char>,
    timeout: Duration,
    loader: &L,
)
    requires
        is_parse_failure(layer, error, text, timeout, loader),
    ensures
        loader.config_of(layer.language) matches Some(config) && {
            &&& error == EngineError::Unknown <==> !at_characters(layer.ranges, text)
            &&& error == EngineError::IncompatibleGrammar(layer.language) <==> at_characters(
                layer.ranges,
                text,
            ) && !is_compatible(config.grammar)
            &&& error == EngineError::InvalidRanges <==> at_characters(layer.ranges, text)
                && is_compatible(config.grammar) && !in_order(layer.ranges)
            &&& error == EngineError::Timeout ==> duration_secs(timeout) <= 4_000_000_000
                && at_characters(layer.ranges, text) && is_compatible(config.grammar) && in_order(
                layer.ranges,
            )
            &&& error != EngineError::ExceededMaximumSize && error != EngineError::NoRootConfig
        },
{
}

/// What a step does to the queue: the layer that was next is gone, those below it stay where they
/// are, and the layers inside of it that are to be looked at lie on top. A layer without ranges is
/// passed over.
pub proof fn lemma_step_of_a_queue<L: LanguageLoader>(
    before: EngineState,
    after: EngineState,
    edits: Seq<InputEdit>,
    source: RopeSlice<'_>,
    loader: &L,
)
    requires
        is_step(before, after, edits, source, loader),
    ensures
        before.queue.len() > 0,
        after.queue.len() >= before.queue.len() - 1,
        after.queue.take(before.queue.len() - 1) == before.queue.drop_last(),
        before.layers[before.queue.last().0].ranges.len() == 0 ==> after.layers == before.layers
            && after.queue.len() == before.queue.len() - 1,
{
    reveal(is_step);
    assert(after.queue.take(before.queue.len() - 1) =~= before.queue.drop_last());
}

/// The first parse of a document gives its outermost layer the language of the document and the
/// tree of its whole text, parsed without an older one by the grammar of that language.
pub proof fn lemma_first_parse<L: LanguageLoader>(
    layers: Map<usize, LayerView>,
    root: Layer,
    language: Language,
    text: Seq<char>,
    loader: &L,
)
    requires
        is_first_parse(layers, root, language, text, loader),
    ensures
        layers.dom().contains(root.0),
        layers[root.0].language == language,
        byte_len(text) < 0x2000_0000,
        loader.config_of(language) is Some,
        layers[root.0].ranges.len() == 1,
        layers[root.0].ranges[0].start == 0,
        layers[root.0].ranges[0].end == u32::MAX,
        layers[root.0].parse_tree == Some(
            parsed_tree(
                (loader.config_of(language)->0).grammar,
                seq![0..u32::MAX],
                text,
                None,
            ),
        ),
{
}

/// A document of half a gibibyte or more is refused for its size, whatever else is wrong; any other
/// whose language has no configuration is refused for that.
pub proof fn lemma_refused_documents<L: LanguageLoader>(
    error: EngineError,
    language: Language,
    text: Seq<char>,
    timeout: Duration,
    loader: &L,
)
    requires
        is_refused(error, language, text, timeout, loader),
    ensures
        byte_len(text) >= 0x2000_0000 ==> error == EngineError::ExceededMaximumSize,
        byte_len(text) < 0x2000_0000 && loader.config_of(language) is None ==> error
            == EngineError::NoRootConfig,
{
}

/// The injections of a layer are looked for only where its language is known and the injection
/// query of that language captures what is injected. Else no layer changes and none is to be looked
/// at.
pub proof fn lemma_when_injections_are_looked_for<L: LanguageLoader>(
    before: Map<usize, LayerView>,
    after: Map<usize, LayerView>,
    layer: Layer,
    edits: Seq<InputEdit>,
    source: RopeSlice<'_>,
    loader: &L,
    ids: Seq<Layer>,
)
    requires
        is_queried(before, after, layer, edits, source, loader, ids),
    ensures
        ({
            let config = loader.config_of(before[layer.0].language);
            let query = (config->0).injection_query;
            if config is Some && query.injection_content_capture is Some {
                exists|matches: Seq<InjectionQueryMatch>| #[trigger]
                    are_injections(matches, query, before[layer.0].parse_tree->0, source, loader)
                        && is_injected(before, after, layer, matches, edits, ids)
            } else {
                after == before && ids.len() == 0
            }
        }),
{
}

/// A parse is stopped by the clock only if its limit is one that the clock can reach: four thousand
/// million seconds at most.
pub proof fn lemma_limited_parses(timeout: Duration)
    ensures
        is_limited(timeout) <==> duration_secs(timeout) < 4_000_000_001,
{
}

} // verus!
