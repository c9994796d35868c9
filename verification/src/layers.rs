//! The layers of a document, and how the plan for a layer's injections changes them.
use crate::injection::InjectionCandidate;
use crate::locals::{Locals, ScopeView};
use crate::mapping::{
    edits_done, edits_stay_small, injection_stays_small, map_old_injections, mapped_injection,
    MappedOldInjection,
};
use crate::ordering::{in_key_order, lemma_stably_ordered, stably_ordered, Keyed};
use crate::planning::{
    action_views, all_retired, layers_between, lemma_plan_settles_every_old_layer, plan_layers,
    planned, ActionView, InjectionPlan, PlannedInjection, PlannedLayerAction, PlannedLayerSource,
};
use crate::treesitter::tree_clone;
use crate::types::{copy_range, Injection, InputEdit, Language, Layer, Pattern};
use slab::Slab;
use std::ops::Range;
use tree_house_bindings::Tree;
use vstd::prelude::*;

verus! {

#[verifier::external_type_specification]
#[verifier::external_body]
#[verifier::reject_recursive_types(T)]
pub struct ExSlab<T>(slab::Slab<T>);

/// What an update has done to a layer.
#[derive(Debug, Clone, Copy, PartialEq, Eq, Structural)]
pub struct LayerUpdateFlags {
    pub reused: bool,
    pub modified: bool,
    pub moved: bool,
    pub touched: bool,
}

impl Default for LayerUpdateFlags {
    fn default() -> (flags: Self)
        ensures
            flags == no_flags(),
    {
        LayerUpdateFlags { reused: false, modified: false, moved: false, touched: false }
    }
}

/// Nothing has been done.
pub open spec fn no_flags() -> LayerUpdateFlags {
    LayerUpdateFlags { reused: false, modified: false, moved: false, touched: false }
}

/// One layer: a language and the parts of the document that are parsed as it.
#[derive(Debug)]
pub struct LayerData {
    pub language: Language,
    pub parse_tree: Option<Tree>,
    /// The pattern of the parent's injection query that asked for the layer.
    pub origin_pattern: Option<Pattern>,
    pub ranges: Vec<Range<u32>>,
    pub injections: Vec<Injection>,
    pub flags: LayerUpdateFlags,
    pub parent: Option<Layer>,
    pub locals: Locals,
}

/// What is known of a layer, with sequences for its parts.
pub struct LayerView {
    pub language: Language,
    pub parse_tree: Option<Tree>,
    pub origin_pattern: Option<Pattern>,
    pub ranges: Seq<Range<u32>>,
    pub injections: Seq<Injection>,
    pub flags: LayerUpdateFlags,
    pub parent: Option<Layer>,
    pub locals: Seq<ScopeView>,
}

impl View for LayerData {
    type V = LayerView;

    open spec fn view(&self) -> LayerView {
        LayerView {
            language: self.language,
            parse_tree: self.parse_tree,
            origin_pattern: self.origin_pattern,
            ranges: self.ranges@,
            injections: self.injections@,
            flags: self.flags,
            parent: self.parent,
            locals: self.locals@,
        }
    }
}

/// Copies a tree, if it is there.
fn clone_tree(tree: &Option<Tree>) -> (copy: Option<Tree>)
    ensures
        copy == *tree,
{
    match tree {
        Some(tree) => Some(tree_clone(tree)),
        None => None,
    }
}

/// Copies ranges.
pub fn clone_ranges(ranges: &Vec<Range<u32>>) -> (copy: Vec<Range<u32>>)
    ensures
        copy@ == ranges@,
{
    let mut copy: Vec<Range<u32>> = Vec::with_capacity(ranges.len());
    for i in 0..ranges.len()
        invariant
            copy@ == ranges@.take(i as int),
    {
        copy.push(copy_range(&ranges[i]));
        assert(copy@ =~= ranges@.take(i + 1));
    }
    assert(ranges@.take(ranges.len() as int) =~= ranges@);
    copy
}

impl Clone for LayerData {
    fn clone(&self) -> (copy: Self)
        ensures
            copy@ == self@,
    {
        let mut injections: Vec<Injection> = Vec::with_capacity(self.injections.len());
        for i in 0..self.injections.len()
            invariant
                injections@ == self.injections@.take(i as int),
        {
            injections.push(self.injections[i].clone());
            assert(injections@ =~= self.injections@.take(i + 1));
        }
        assert(self.injections@.take(self.injections.len() as int) =~= self.injections@);
        LayerData {
            language: self.language,
            parse_tree: clone_tree(&self.parse_tree),
            origin_pattern: self.origin_pattern,
            ranges: clone_ranges(&self.ranges),
            injections,
            flags: self.flags,
            parent: self.parent,
            locals: self.locals.clone(),
        }
    }
}

impl LayerData {
    /// The tree of the layer, once it has been parsed.
    pub fn tree(&self) -> (tree: Option<&Tree>)
        ensures
            match tree {
                Some(tree) => self.parse_tree == Some(*tree),
                None => self.parse_tree is None,
            },
    {
        self.parse_tree.as_ref()
    }

    /// The pattern of the parent's injection query that asked for the layer.
    pub fn origin_pattern(&self) -> (pattern: Option<Pattern>)
        ensures
            pattern == self.origin_pattern,
    {
        self.origin_pattern
    }

    /// Puts the flags back, and tells whether the layer was touched.
    pub fn settle(&mut self) -> (touched: bool)
        ensures
            final(self)@ == (LayerView { flags: no_flags(), ..old(self)@ }),
            touched == old(self).flags.touched,
    {
        let touched: bool = self.flags.touched;
        self.flags = LayerUpdateFlags::default();
        touched
    }
}

/// What a store holds under its keys.
pub uninterp spec fn layers_in(layers: Slab<LayerData>) -> Map<usize, LayerView>;

/// No layers at all.
pub open spec fn no_layers() -> Map<usize, LayerView> {
    Map::empty()
}

/// `slab::Slab::new`: a store without layers.
#[verifier::external_body]
pub(crate) fn slab_new() -> (layers: Slab<LayerData>)
    ensures
        layers_in(layers) == no_layers(),
{
    Slab::new()
}

/// `slab::Slab::clone`, which clones each layer under its key.
#[verifier::external_body]
pub(crate) fn slab_clone(layers: &Slab<LayerData>) -> (copy: Slab<LayerData>)
    ensures
        layers_in(copy) == layers_in(*layers),
{
    layers.clone()
}

/// `slab::Slab::len`: the number of layers.
#[verifier::external_body]
pub(crate) fn slab_len(layers: &Slab<LayerData>) -> (len: usize)
    ensures
        len == layers_in(*layers).len(),
{
    layers.len()
}

/// `slab::Slab::iter`: the keys that are taken, each one once.
#[verifier::external_body]
pub(crate) fn slab_keys(layers: &Slab<LayerData>) -> (keys: Vec<usize>)
    ensures
        keys@.no_duplicates(),
        forall|key: usize| keys@.contains(key) == #[trigger] layers_in(*layers).dom().contains(key),
{
    layers.iter().map(|(key, _)| key).collect()
}

/// `slab::Slab::get`: the layer under a key.
#[verifier::external_body]
pub(crate) fn slab_get(layers: &Slab<LayerData>, key: usize) -> (layer: Option<&LayerData>)
    ensures
        match layer {
            Some(layer) => layers_in(*layers).dom().contains(key) && layers_in(*layers)[key]
                == layer@,
            None => !layers_in(*layers).dom().contains(key),
        },
{
    layers.get(key)
}

/// `slab::Slab::index_mut`: the layer under a key, to be changed in its place. It panics where
/// there is none.
#[verifier::external_body]
pub(crate) fn slab_index_mut(layers: &mut Slab<LayerData>, key: usize) -> (layer: &mut LayerData)
    requires
        layers_in(*old(layers)).dom().contains(key),
    ensures
        layer@ == layers_in(*old(layers))[key],
        layers_in(*final(layers)) == layers_in(*old(layers)).insert(key, final(layer)@),
{
    &mut layers[key]
}

/// `slab::Slab::insert`: puts a layer under a key that was free.
#[verifier::external_body]
pub(crate) fn slab_insert(layers: &mut Slab<LayerData>, layer: LayerData) -> (key: usize)
    ensures
        !layers_in(*old(layers)).dom().contains(key),
        layers_in(*final(layers)) == layers_in(*old(layers)).insert(key, layer@),
{
    layers.insert(layer)
}

/// The touched layers, with their flags put back.
pub open spec fn settled(layers: Map<usize, LayerView>) -> Map<usize, LayerView> {
    Map::new(
        |key: usize| layers.dom().contains(key) && layers[key].flags.touched,
        |key: usize| LayerView { flags: no_flags(), ..layers[key] },
    )
}

/// `slab::Slab::retain`: settles each layer, and keeps those that were touched.
#[verifier::external_body]
pub(crate) fn slab_retain_touched(layers: &mut Slab<LayerData>)
    ensures
        layers_in(*final(layers)) == settled(layers_in(*old(layers))),
{
    layers.retain(|_, layer| layer.settle())
}

/// The syntax of a document: its layers, and which of them is the root.
#[derive(Debug)]
pub struct Syntax {
    pub layers: Slab<LayerData>,
    pub root: Layer,
}

impl Clone for Syntax {
    fn clone(&self) -> (copy: Self)
        ensures
            copy.view() == self.view(),
            copy.root == self.root,
    {
        Syntax { layers: slab_clone(&self.layers), root: self.root }
    }
}

impl Syntax {
    /// The layers by their keys.
    pub open spec fn view(&self) -> Map<usize, LayerView> {
        layers_in(self.layers)
    }

    /// Whether there is such a layer.
    pub open spec fn has(&self, layer: Layer) -> bool {
        self.view().dom().contains(layer.0)
    }

    /// Looks up a layer.
    pub fn get_layer(&self, layer: Layer) -> (data: Option<&LayerData>)
        ensures
            match data {
                Some(data) => self.has(layer) && self.view()[layer.0] == data@,
                None => !self.has(layer),
            },
    {
        slab_get(&self.layers, layer.idx())
    }

    /// Returns a layer.
    pub fn layer(&self, layer: Layer) -> (data: &LayerData)
        requires
            self.has(layer),
        ensures
            data@ == self.view()[layer.0],
    {
        slab_get(&self.layers, layer.idx()).unwrap()
    }

    /// The number of layers.
    pub fn layer_count(&self) -> (count: usize)
        ensures
            count == self.view().len(),
    {
        slab_len(&self.layers)
    }
}

/// The old injections of a layer, placed where the edits have moved them.
pub open spec fn mapped_old(
    layers: Map<usize, LayerView>,
    old_injections: Seq<Injection>,
    edits: Seq<InputEdit>,
) -> Seq<MappedOldInjection> {
    Seq::new(
        old_injections.len(),
        |i: int|
            mapped_injection(
                old_injections[i],
                layers[old_injections[i].layer.0].language,
                layers[old_injections[i].layer.0].origin_pattern,
                edits,
                edits_done(old_injections, edits, i),
            ),
    )
}

/// Whether a plan is the one for some candidates, given the old injections.
pub open spec fn is_plan_for(
    plan: InjectionPlan,
    candidates: Seq<InjectionCandidate>,
    old_injections: Seq<MappedOldInjection>,
) -> bool {
    let state = planned(candidates, old_injections);
    &&& action_views(plan.layer_actions@) == state.actions
    &&& plan.injections@ == stably_ordered(state.injections)
    &&& plan.retired_layers@ == all_retired(state, old_injections)
}

/// The edits keep the ends of all injections below the limit of two gibibytes.
pub open spec fn injections_stay_small(edits: Seq<InputEdit>, injections: Seq<Injection>) -> bool {
    edits.len() > 0 ==> edits_stay_small(edits) && forall|i: int|
        0 <= i < injections.len() ==> injection_stays_small(edits, #[trigger] injections[i])
}

impl Syntax {
    /// Whether the layers of all injections are there.
    pub open spec fn has_all(&self, injections: Seq<Injection>) -> bool {
        forall|i: int| 0 <= i < injections.len() ==> self.has((#[trigger] injections[i]).layer)
    }

    /// Plans the layers for candidates, given the injections that were there before the edits.
    pub fn plan_injections(
        &self,
        candidates: Vec<InjectionCandidate>,
        old_injections: Vec<Injection>,
        edits: &[InputEdit],
    ) -> (plan: InjectionPlan)
        requires
            self.has_all(old_injections@),
            injections_stay_small(edits@, old_injections@),
        ensures
            is_plan_for(plan, candidates@, mapped_old(self.view(), old_injections@, edits@)),
            in_key_order(plan.injections@),
    {
        // What goes on is decided against the document as it is after the edits.
        let layer_info = |layer: Layer| -> (info: (Language, Option<Pattern>))
            requires
                self.has(layer),
            ensures
                info.0 == self.view()[layer.0].language,
                info.1 == self.view()[layer.0].origin_pattern,
            {
                let data = self.layer(layer);
                (data.language, data.origin_pattern())
            };
        let mapped = map_old_injections(&old_injections, edits, layer_info);
        assert(mapped@ =~= mapped_old(self.view(), old_injections@, edits@));
        plan_layers(&candidates, &mapped)
    }
}

/// The layers once some of them have been given up.
pub open spec fn retired(layers: Map<usize, LayerView>, given_up: Seq<Layer>) -> Map<
    usize,
    LayerView,
>
    decreases given_up.len(),
{
    if given_up.len() == 0 {
        layers
    } else {
        let before = retired(layers, given_up.drop_last());
        let key = given_up.last().0;
        before.insert(
            key,
            LayerView {
                flags: LayerUpdateFlags { modified: true, ..before[key].flags },
                ..before[key]
            },
        )
    }
}

/// What an action makes of a layer that goes on.
pub open spec fn continued(layer: LayerView, action: ActionView) -> LayerView {
    LayerView {
        language: action.language,
        origin_pattern: Some(action.pattern),
        ranges: Seq::empty(),
        flags: LayerUpdateFlags {
            reused: true,
            modified: action.modified,
            moved: action.moved,
            touched: true,
        },
        ..layer
    }
}

/// The new layer that an action makes; it starts from `tree`.
pub open spec fn created(action: ActionView, tree: Option<Tree>, parent: Layer) -> LayerView {
    LayerView {
        language: action.language,
        parse_tree: tree,
        origin_pattern: Some(action.pattern),
        ranges: Seq::empty(),
        injections: Seq::empty(),
        flags: LayerUpdateFlags {
            reused: action.seed_layer is Some,
            modified: action.modified,
            moved: action.moved,
            touched: true,
        },
        parent: Some(parent),
        locals: crate::locals::only_root(),
    }
}

/// The tree that a new layer starts from.
pub open spec fn seed_tree(layers: Map<usize, LayerView>, action: ActionView) -> Option<Tree> {
    match action.seed_layer {
        Some(seed) => layers[seed.0].parse_tree,
        None => None,
    }
}

/// The layers once the first `count` actions have been carried out, `ids` being the layers that
/// they are about.
pub open spec fn acted(
    layers: Map<usize, LayerView>,
    parent: Layer,
    actions: Seq<ActionView>,
    ids: Seq<Layer>,
    count: int,
) -> Map<usize, LayerView>
    decreases count,
{
    if count <= 0 {
        layers
    } else {
        let before = acted(layers, parent, actions, ids, count - 1);
        let action = actions[count - 1];
        let key = ids[count - 1].0;
        match action.source {
            PlannedLayerSource::Reuse(_) => before.insert(key, continued(before[key], action)),
            PlannedLayerSource::New => before.insert(
                key,
                created(action, seed_tree(before, action), parent),
            ),
        }
    }
}

/// Whether a layer is the one that action number `at` is about: the old one that goes on, or a new
/// one.
pub open spec fn is_layer_of(
    layers: Map<usize, LayerView>,
    parent: Layer,
    actions: Seq<ActionView>,
    ids: Seq<Layer>,
    at: int,
) -> bool {
    match actions[at].source {
        PlannedLayerSource::Reuse(layer) => ids[at] == layer,
        PlannedLayerSource::New => !acted(layers, parent, actions, ids, at).dom().contains(
            ids[at].0,
        ),
    }
}

/// The layers once the ranges of the first `count` actions have been written down.
pub open spec fn ranges_written(
    layers: Map<usize, LayerView>,
    actions: Seq<ActionView>,
    ids: Seq<Layer>,
    count: int,
) -> Map<usize, LayerView>
    decreases count,
{
    if count <= 0 {
        layers
    } else {
        let before = ranges_written(layers, actions, ids, count - 1);
        let key = ids[count - 1].0;
        before.insert(key, LayerView { ranges: actions[count - 1].ranges, ..before[key] })
    }
}

/// The injections of a plan, with the layers that its actions are about.
pub open spec fn placed(injections: Seq<PlannedInjection>, ids: Seq<Layer>) -> Seq<Injection> {
    Seq::new(
        injections.len(),
        |i: int|
            Injection {
                range: injections[i].range,
                layer: ids[injections[i].layer_action as int],
                matched_node_range: injections[i].matched_node_range,
            },
    )
}

/// The layers once a plan has been carried out.
pub open spec fn carried_out(
    layers: Map<usize, LayerView>,
    parent: Layer,
    parent_ranges: Seq<Range<u32>>,
    parse_tree: Tree,
    plan: InjectionPlan,
    ids: Seq<Layer>,
) -> Map<usize, LayerView> {
    let actions = action_views(plan.layer_actions@);
    let after = ranges_written(
        acted(
            retired(layers, plan.retired_layers@),
            parent,
            actions,
            ids,
            actions.len() as int,
        ),
        actions,
        ids,
        actions.len() as int,
    );
    after.insert(
        parent.0,
        LayerView {
            ranges: parent_ranges,
            parse_tree: Some(parse_tree),
            injections: placed(plan.injections@, ids),
            ..after[parent.0]
        },
    )
}

/// Whether a plan speaks of layers that are there, and of actions that it has.
pub open spec fn plan_fits(
    layers: Map<usize, LayerView>,
    parent: Layer,
    plan: InjectionPlan,
) -> bool {
    &&& forall|i: int|
        0 <= i < plan.retired_layers.len() ==> layers.dom().contains(
            (#[trigger] plan.retired_layers@[i]).0,
        )
    &&& forall|i: int|
        0 <= i < plan.layer_actions.len() ==> action_fits(
            layers,
            parent,
            (#[trigger] plan.layer_actions@[i])@,
        )
    &&& forall|i: int|
        0 <= i < plan.injections.len() ==> (#[trigger] plan.injections@[i]).layer_action
            < plan.layer_actions.len()
}

/// Whether an action speaks of layers that are there; one that goes on has the same parent.
pub open spec fn action_fits(
    layers: Map<usize, LayerView>,
    parent: Layer,
    action: ActionView,
) -> bool {
    &&& action.source matches PlannedLayerSource::Reuse(layer) ==> layers.dom().contains(layer.0)
        && layers[layer.0].parent == Some(parent)
    &&& action.seed_layer matches Some(layer) ==> layers.dom().contains(layer.0)
}

proof fn lemma_retired_keeps_layers(layers: Map<usize, LayerView>, given_up: Seq<Layer>)
    requires
        forall|i: int|
            0 <= i < given_up.len() ==> layers.dom().contains((#[trigger] given_up[i]).0),
    ensures
        retired(layers, given_up).dom() == layers.dom(),
    decreases given_up.len(),
{
    if given_up.len() > 0 {
        lemma_retired_keeps_layers(layers, given_up.drop_last());
        assert(layers.dom().contains(given_up.last().0));
        assert(retired(layers, given_up).dom() =~= layers.dom());
    }
}

impl Syntax {
    /// Marks layers that were given up as modified.
    fn retire_layers(&mut self, given_up: &Vec<Layer>)
        requires
            forall|i: int| 0 <= i < given_up.len() ==> old(self).has(#[trigger] given_up@[i]),
        ensures
            final(self).view() == retired(old(self).view(), given_up@),
            final(self).root == old(self).root,
    {
        let ghost before = self.view();
        assert(given_up@.take(0) =~= Seq::empty());
        for i in 0..given_up.len()
            invariant
                forall|k: int|
                    0 <= k < given_up.len() ==> before.dom().contains((#[trigger] given_up@[k]).0),
                self.view() == retired(before, given_up@.take(i as int)),
                self.root == old(self).root,
        {
            proof {
                lemma_retired_keeps_layers(before, given_up@.take(i as int));
                assert(before.dom().contains(given_up@[i as int].0));
                assert(given_up@.take(i + 1).drop_last() =~= given_up@.take(i as int));
                assert(given_up@.take(i + 1).last() == given_up@[i as int]);
            }
            slab_index_mut(&mut self.layers, given_up[i].idx()).flags.modified = true;
        }
        assert(given_up@.take(given_up.len() as int) =~= given_up@);
    }

    /// Carries out one action, and returns the layer that it is about.
    fn act(&mut self, parent: Layer, action: &PlannedLayerAction) -> (id: Layer)
        requires
            action.source matches PlannedLayerSource::Reuse(layer) ==> old(self).has(layer),
            action.seed_layer matches Some(layer) ==> old(self).has(layer),
        ensures
            final(self).root == old(self).root,
            match action.source {
                PlannedLayerSource::Reuse(layer) => id == layer && final(self).view() == old(
                    self,
                ).view().insert(id.0, continued(old(self).view()[id.0], action@)),
                PlannedLayerSource::New => !old(self).has(id) && final(self).view() == old(
                    self,
                ).view().insert(
                    id.0,
                    created(action@, seed_tree(old(self).view(), action@), parent),
                ),
            },
    {
        match action.source {
            PlannedLayerSource::Reuse(layer) => {
                let data = slab_index_mut(&mut self.layers, layer.idx());
                data.language = action.language;
                data.origin_pattern = Some(action.pattern);
                data.ranges = Vec::new();
                data.flags = LayerUpdateFlags {
                    reused: true,
                    modified: action.modified,
                    moved: action.moved,
                    touched: true,
                };
                assert(data.ranges@ =~= Seq::empty());
                layer
            },
            PlannedLayerSource::New => {
                let parse_tree = match action.seed_layer {
                    Some(seed) => clone_tree(&self.layer(seed).parse_tree),
                    None => None,
                };
                let data = LayerData {
                    language: action.language,
                    parse_tree,
                    origin_pattern: Some(action.pattern),
                    ranges: Vec::new(),
                    injections: Vec::new(),
                    flags: LayerUpdateFlags {
                        reused: action.seed_layer.is_some(),
                        modified: action.modified,
                        moved: action.moved,
                        touched: true,
                    },
                    parent: Some(parent),
                    locals: Locals::default(),
                };
                assert(data.ranges@ =~= Seq::empty());
                assert(data.injections@ =~= Seq::empty());
                Layer(slab_insert(&mut self.layers, data))
            },
        }
    }
}

/// The layers that actions are about depend on no later layers.
proof fn lemma_acted_prefix(
    layers: Map<usize, LayerView>,
    parent: Layer,
    actions: Seq<ActionView>,
    ids: Seq<Layer>,
    more: Seq<Layer>,
    count: int,
)
    requires
        0 <= count <= ids.len() <= more.len(),
        forall|i: int| 0 <= i < ids.len() ==> ids[i] == #[trigger] more[i],
    ensures
        acted(layers, parent, actions, ids, count) == acted(layers, parent, actions, more, count),
    decreases count,
{
    if count > 0 {
        lemma_acted_prefix(layers, parent, actions, ids, more, count - 1);
        assert(ids[count - 1] == more[count - 1]);
    }
}

/// No layer is lost while actions are carried out, and each action's layer is there from then on.
proof fn lemma_acted_keeps_layers(
    layers: Map<usize, LayerView>,
    parent: Layer,
    actions: Seq<ActionView>,
    ids: Seq<Layer>,
    count: int,
)
    requires
        0 <= count <= ids.len(),
    ensures
        layers.dom().subset_of(acted(layers, parent, actions, ids, count).dom()),
        forall|i: int|
            0 <= i < count ==> acted(layers, parent, actions, ids, count).dom().contains(
                (#[trigger] ids[i]).0,
            ),
    decreases count,
{
    if count > 0 {
        lemma_acted_keeps_layers(layers, parent, actions, ids, count - 1);
    }
}

proof fn lemma_ranges_written_keeps_layers(
    layers: Map<usize, LayerView>,
    actions: Seq<ActionView>,
    ids: Seq<Layer>,
    count: int,
)
    requires
        0 <= count <= ids.len(),
    ensures
        layers.dom().subset_of(ranges_written(layers, actions, ids, count).dom()),
    decreases count,
{
    if count > 0 {
        lemma_ranges_written_keeps_layers(layers, actions, ids, count - 1);
    }
}

impl Syntax {
    /// Carries out the actions of a plan, and returns the layers that they are about.
    fn act_all(&mut self, parent: Layer, actions: &Vec<PlannedLayerAction>) -> (ids: Vec<Layer>)
        requires
            forall|i: int|
                0 <= i < actions.len() ==> ((#[trigger] actions@[i]).source
                    matches PlannedLayerSource::Reuse(layer) ==> old(self).has(layer)) && (
                actions@[i].seed_layer matches Some(layer) ==> old(self).has(layer)),
        ensures
            final(self).root == old(self).root,
            ids.len() == actions.len(),
            final(self).view() == acted(
                old(self).view(),
                parent,
                action_views(actions@),
                ids@,
                actions.len() as int,
            ),
            forall|i: int|
                0 <= i < actions.len() ==> #[trigger] is_layer_of(
                    old(self).view(),
                    parent,
                    action_views(actions@),
                    ids@,
                    i,
                ),
    {
        let ghost before = self.view();
        let ghost views = action_views(actions@);
        let mut ids: Vec<Layer> = Vec::with_capacity(actions.len());
        for i in 0..actions.len()
            invariant
                forall|k: int|
                    0 <= k < actions.len() ==> ((#[trigger] actions@[k]).source
                        matches PlannedLayerSource::Reuse(layer) ==> before.dom().contains(
                        layer.0,
                    )) && (actions@[k].seed_layer matches Some(layer) ==> before.dom().contains(
                        layer.0,
                    )),
                self.root == old(self).root,
                views == action_views(actions@),
                ids.len() == i,
                self.view() == acted(before, parent, views, ids@, i as int),
                forall|k: int|
                    0 <= k < i ==> #[trigger] is_layer_of(before, parent, views, ids@, k),
        {
            let ghost ids_before = ids@;
            proof {
                lemma_acted_keeps_layers(before, parent, views, ids@, i as int);
                assert(views[i as int] == actions@[i as int]@);
            }
            let id = self.act(parent, &actions[i]);
            ids.push(id);
            proof {
                lemma_acted_prefix(before, parent, views, ids_before, ids@, i as int);
                assert forall|k: int| 0 <= k < i + 1 implies #[trigger] is_layer_of(
                    before,
                    parent,
                    views,
                    ids@,
                    k,
                ) by {
                    if k < i {
                        assert(is_layer_of(before, parent, views, ids_before, k));
                        lemma_acted_prefix(before, parent, views, ids_before, ids@, k);
                        assert(ids_before[k] == ids@[k]);
                    }
                }
            }
        }
        ids
    }

    /// Writes down the ranges of the layers that actions are about.
    fn write_ranges(&mut self, actions: &Vec<PlannedLayerAction>, ids: &Vec<Layer>)
        requires
            ids.len() == actions.len(),
            forall|i: int| 0 <= i < ids.len() ==> old(self).has(#[trigger] ids@[i]),
        ensures
            final(self).root == old(self).root,
            final(self).view() == ranges_written(
                old(self).view(),
                action_views(actions@),
                ids@,
                actions.len() as int,
            ),
    {
        let ghost before = self.view();
        let ghost views = action_views(actions@);
        for i in 0..actions.len()
            invariant
                ids.len() == actions.len(),
                views == action_views(actions@),
                forall|k: int|
                    0 <= k < ids.len() ==> before.dom().contains((#[trigger] ids@[k]).0),
                self.root == old(self).root,
                self.view() == ranges_written(before, views, ids@, i as int),
        {
            proof {
                lemma_ranges_written_keeps_layers(before, views, ids@, i as int);
                assert(before.dom().contains(ids@[i as int].0));
                assert(views[i as int] == actions@[i as int]@);
            }
            slab_index_mut(&mut self.layers, ids[i].idx()).ranges = clone_ranges(
                &actions[i].ranges,
            );
        }
    }

    /// Carries out the plan for the injections of `parent`, and returns the layers that are to be
    /// parsed.
    pub fn apply_injection_plan(
        &mut self,
        parent: Layer,
        parent_ranges: Vec<Range<u32>>,
        parse_tree: Tree,
        plan: InjectionPlan,
    ) -> (ids: Vec<Layer>)
        requires
            old(self).has(parent),
            plan_fits(old(self).view(), parent, plan),
        ensures
            final(self).root == old(self).root,
            ids.len() == plan.layer_actions.len(),
            final(self).view() == carried_out(
                old(self).view(),
                parent,
                parent_ranges@,
                parse_tree,
                plan,
                ids@,
            ),
            forall|i: int|
                0 <= i < ids.len() ==> #[trigger] is_layer_of(
                    retired(old(self).view(), plan.retired_layers@),
                    parent,
                    action_views(plan.layer_actions@),
                    ids@,
                    i,
                ),
            old(self).view().dom().subset_of(final(self).view().dom()),
            forall|i: int| 0 <= i < ids.len() ==> final(self).has(#[trigger] ids@[i]),
    {
        let ghost before = self.view();
        let ghost actions = action_views(plan.layer_actions@);
        proof {
            lemma_retired_keeps_layers(before, plan.retired_layers@);
            assert forall|i: int| 0 <= i < plan.layer_actions.len() implies ((
            #[trigger] plan.layer_actions@[i]).source matches PlannedLayerSource::Reuse(layer)
                ==> before.dom().contains(layer.0)) && (
            plan.layer_actions@[i].seed_layer matches Some(layer) ==> before.dom().contains(
                layer.0,
            )) by {
                assert(action_fits(before, parent, plan.layer_actions@[i]@));
            }
        }
        self.retire_layers(&plan.retired_layers);
        let ghost cleared = self.view();
        let ids = self.act_all(parent, &plan.layer_actions);
        proof {
            lemma_acted_keeps_layers(cleared, parent, actions, ids@, ids.len() as int);
        }
        let ghost made = self.view();
        self.write_ranges(&plan.layer_actions, &ids);
        proof {
            lemma_ranges_written_keeps_layers(made, actions, ids@, ids.len() as int);
        }
        let mut injections: Vec<Injection> = Vec::with_capacity(plan.injections.len());
        for i in 0..plan.injections.len()
            invariant
                ids.len() == plan.layer_actions.len(),
                forall|k: int|
                    0 <= k < plan.injections.len() ==> (
                    #[trigger] plan.injections@[k]).layer_action < plan.layer_actions.len(),
                injections@ == placed(plan.injections@, ids@).take(i as int),
        {
            let injection = &plan.injections[i];
            injections.push(
                Injection {
                    range: copy_range(&injection.range),
                    layer: ids[injection.layer_action],
                    matched_node_range: copy_range(&injection.matched_node_range),
                },
            );
            assert(injections@ =~= placed(plan.injections@, ids@).take(i + 1));
        }
        assert(injections@ =~= placed(plan.injections@, ids@));
        let data = slab_index_mut(&mut self.layers, parent.idx());
        data.ranges = parent_ranges;
        data.parse_tree = Some(parse_tree);
        data.injections = injections;
        ids
    }
}

/// Layers that are given up count as modified; nothing else changes about them, and nothing at all
/// about the others.
pub proof fn lemma_given_up_layers(layers: Map<usize, LayerView>, given_up: Seq<Layer>, key: usize)
    requires
        forall|i: int|
            0 <= i < given_up.len() ==> layers.dom().contains((#[trigger] given_up[i]).0),
        layers.dom().contains(key),
    ensures
        retired(layers, given_up).dom() == layers.dom(),
        ({
            let (before, after) = (layers[key], retired(layers, given_up)[key]);
            &&& after.flags.modified == (before.flags.modified || given_up.contains(Layer(key)))
            &&& after.flags.touched == before.flags.touched
            &&& after.flags.moved == before.flags.moved
            &&& after.flags.reused == before.flags.reused
            &&& after.language == before.language
            &&& after.parse_tree == before.parse_tree
            &&& after.ranges == before.ranges
            &&& after.injections == before.injections
            &&& after.parent == before.parent
            &&& after.origin_pattern == before.origin_pattern
            &&& after.locals == before.locals
        }),
    decreases given_up.len(),
{
    if given_up.len() > 0 {
        let front = given_up.drop_last();
        lemma_given_up_layers(layers, front, key);
        assert(retired(layers, given_up).dom() =~= layers.dom()) by {
            assert(layers.dom().contains(given_up[given_up.len() - 1].0));
        }
        if front.contains(Layer(key)) {
            let i = choose|i: int| 0 <= i < front.len() && front[i] == Layer(key);
            assert(given_up[i] == Layer(key));
        }
        if given_up.contains(Layer(key)) {
            let i = choose|i: int| 0 <= i < given_up.len() && given_up[i] == Layer(key);
            if i < front.len() {
                assert(front[i] == Layer(key));
            }
        }
        if given_up.last() == Layer(key) {
            assert(given_up[given_up.len() - 1] == Layer(key));
        }
    }
}

/// Layers that were not touched are dropped; of the others only the flags are put back.
pub proof fn lemma_only_touched_layers_stay(layers: Map<usize, LayerView>, key: usize)
    ensures
        settled(layers).dom().contains(key) <==> layers.dom().contains(key)
            && layers[key].flags.touched,
        settled(layers).dom().contains(key) ==> {
            let (before, after) = (layers[key], settled(layers)[key]);
            &&& !after.flags.touched && !after.flags.modified && !after.flags.moved
                && !after.flags.reused
            &&& after.language == before.language
            &&& after.parse_tree == before.parse_tree
            &&& after.ranges == before.ranges
            &&& after.injections == before.injections
            &&& after.parent == before.parent
            &&& after.origin_pattern == before.origin_pattern
        },
{
}

proof fn lemma_acted_on_others(
    layers: Map<usize, LayerView>,
    parent: Layer,
    actions: Seq<ActionView>,
    ids: Seq<Layer>,
    count: int,
    key: usize,
)
    requires
        0 <= count <= ids.len() == actions.len(),
        layers.dom().contains(key),
        forall|i: int|
            0 <= i < actions.len() ==> #[trigger] is_layer_of(layers, parent, actions, ids, i),
    ensures
        ({
            let after = acted(layers, parent, actions, ids, count);
            &&& after.dom().contains(key)
            &&& after[key].parse_tree == layers[key].parse_tree
            &&& after[key].injections == layers[key].injections
            &&& after[key].parent == layers[key].parent
            &&& after[key].locals == layers[key].locals
            &&& (forall|i: int| 0 <= i < count ==> (#[trigger] ids[i]).0 != key) ==> after[key]
                == layers[key]
        }),
    decreases count,
{
    if count > 0 {
        lemma_acted_on_others(layers, parent, actions, ids, count - 1, key);
        assert(is_layer_of(layers, parent, actions, ids, count - 1));
    }
}

proof fn lemma_acted_stays(
    layers: Map<usize, LayerView>,
    parent: Layer,
    actions: Seq<ActionView>,
    ids: Seq<Layer>,
    at: int,
    count: int,
)
    requires
        0 <= at < count <= ids.len() == actions.len(),
        ids.no_duplicates(),
    ensures
        acted(layers, parent, actions, ids, count).dom().contains(ids[at].0),
        acted(layers, parent, actions, ids, count)[ids[at].0] == acted(
            layers,
            parent,
            actions,
            ids,
            at + 1,
        )[ids[at].0],
    decreases count - at,
{
    if count > at + 1 {
        lemma_acted_stays(layers, parent, actions, ids, at, count - 1);
        assert(ids[at] != ids[count - 1]);
        assert(ids[at].0 != ids[count - 1].0);
    }
}

proof fn lemma_ranges_written_stay(
    layers: Map<usize, LayerView>,
    actions: Seq<ActionView>,
    ids: Seq<Layer>,
    key: usize,
    count: int,
)
    requires
        0 <= count <= ids.len() == actions.len(),
        ids.no_duplicates(),
    ensures
        ({
            let after = ranges_written(layers, actions, ids, count);
            &&& layers.dom().contains(key) ==> after.dom().contains(key)
            &&& (forall|i: int| 0 <= i < count ==> (#[trigger] ids[i]).0 != key) ==> after[key]
                == layers[key]
            &&& forall|at: int|
                0 <= at < count && (#[trigger] ids[at]).0 == key ==> after[key] == (LayerView {
                    ranges: actions[at].ranges,
                    ..layers[key]
                })
        }),
    decreases count,
{
    if count > 0 {
        lemma_ranges_written_stay(layers, actions, ids, key, count - 1);
        assert forall|at: int| 0 <= at < count && (#[trigger] ids[at]).0
            == key implies ranges_written(layers, actions, ids, count)[key] == (LayerView {
            ranges: actions[at].ranges,
            ..layers[key]
        }) by {
            if at < count - 1 {
                assert(ids[at] != ids[count - 1]);
                assert(ids[at].0 != ids[count - 1].0);
            } else {
                assert forall|i: int| 0 <= i < count - 1 implies (#[trigger] ids[i]).0 != key by {
                    assert(ids[i] != ids[at]);
                }
            }
        }
    }
}

/// What a plan makes of the layer that one of its actions is about: it has the language, the
/// pattern, the ranges and the marks that the action says. One that goes on keeps its tree and its
/// injections; a new one starts from the tree of the layer that the action names, if it names one,
/// and lies in the parent. The parent gets its ranges, its tree, and the injections of the plan,
/// each with the layer of its action.
pub proof fn lemma_layer_of_an_action(
    layers: Map<usize, LayerView>,
    parent: Layer,
    parent_ranges: Seq<Range<u32>>,
    parse_tree: Tree,
    plan: InjectionPlan,
    ids: Seq<Layer>,
    at: int,
)
    requires
        plan_fits(layers, parent, plan),
        layers.dom().contains(parent.0),
        ids.len() == plan.layer_actions.len(),
        ids.no_duplicates(),
        !ids.contains(parent),
        0 <= at < ids.len(),
        forall|i: int|
            0 <= i < ids.len() ==> #[trigger] is_layer_of(
                retired(layers, plan.retired_layers@),
                parent,
                action_views(plan.layer_actions@),
                ids,
                i,
            ),
    ensures
        ({
            let after = carried_out(layers, parent, parent_ranges, parse_tree, plan, ids);
            let action = plan.layer_actions@[at]@;
            let now = after[ids[at].0];
            &&& after.dom().contains(ids[at].0)
            &&& now.language == action.language
            &&& now.origin_pattern == Some(action.pattern)
            &&& now.ranges == action.ranges
            &&& now.flags.touched
            &&& now.flags.modified == action.modified
            &&& now.flags.moved == action.moved
            &&& match action.source {
                PlannedLayerSource::Reuse(layer) => {
                    &&& ids[at] == layer
                    &&& now.flags.reused
                    &&& now.parse_tree == layers[layer.0].parse_tree
                    &&& now.injections == layers[layer.0].injections
                    &&& now.parent == layers[layer.0].parent
                },
                PlannedLayerSource::New => {
                    &&& !layers.dom().contains(ids[at].0)
                    &&& now.parent == Some(parent)
                    &&& now.injections.len() == 0
                    &&& now.parse_tree == match action.seed_layer {
                        Some(seed) => layers[seed.0].parse_tree,
                        None => None,
                    }
                },
            }
            &&& after[parent.0].ranges == parent_ranges
            &&& after[parent.0].parse_tree == Some(parse_tree)
            &&& after[parent.0].injections.len() == plan.injections.len()
            &&& forall|i: int|
                0 <= i < plan.injections.len() ==> {
                    let (planned, made) = (
                        plan.injections@[i],
                        #[trigger] after[parent.0].injections[i],
                    );
                    &&& made.range == planned.range
                    &&& made.matched_node_range == planned.matched_node_range
                    &&& made.layer == ids[planned.layer_action as int]
                }
        }),
{
    let actions = action_views(plan.layer_actions@);
    let cleared = retired(layers, plan.retired_layers@);
    let count = actions.len() as int;
    let made = acted(cleared, parent, actions, ids, count);
    let key = ids[at].0;
    let action = actions[at];
    assert(action == plan.layer_actions@[at]@);
    assert(action_fits(layers, parent, plan.layer_actions@[at]@));
    assert(ids[at] != parent) by {
        assert(ids.contains(ids[at]));
    }
    assert(key != parent.0);
    assert forall|k: usize| layers.dom().contains(k) implies cleared.dom().contains(k)
        && #[trigger] cleared[k].parse_tree == layers[k].parse_tree && cleared[k].injections
        == layers[k].injections && cleared[k].parent == layers[k].parent by {
        lemma_given_up_layers(layers, plan.retired_layers@, k);
    }
    lemma_given_up_layers(layers, plan.retired_layers@, parent.0);
    lemma_acted_stays(cleared, parent, actions, ids, at, count);
    lemma_ranges_written_stay(made, actions, ids, key, count);
    lemma_acted_on_others(cleared, parent, actions, ids, count, parent.0);
    lemma_ranges_written_stay(made, actions, ids, parent.0, count);
    assert(is_layer_of(cleared, parent, actions, ids, at));
    let before = acted(cleared, parent, actions, ids, at);
    match action.source {
        PlannedLayerSource::Reuse(layer) => {
            assert(cleared[layer.0].parse_tree == layers[layer.0].parse_tree);
            lemma_acted_on_others(cleared, parent, actions, ids, at, layer.0);
        },
        PlannedLayerSource::New => {
            if let Some(seed) = action.seed_layer {
                assert(cleared[seed.0].parse_tree == layers[seed.0].parse_tree);
                lemma_acted_on_others(cleared, parent, actions, ids, at, seed.0);
            }
            if layers.dom().contains(key) {
                assert(cleared[key].parse_tree == layers[key].parse_tree);
                lemma_acted_on_others(cleared, parent, actions, ids, at, key);
            }
        },
    }
}

/// The injections of a plan come in the order of the document and are those that were planned, and
/// of the old layers those are given up that no candidate goes on with.
pub proof fn lemma_plan(
    plan: InjectionPlan,
    candidates: Seq<InjectionCandidate>,
    old_injections: Seq<MappedOldInjection>,
)
    requires
        is_plan_for(plan, candidates, old_injections),
    ensures
        forall|i: int, j: int|
            0 <= i < j < plan.injections@.len() ==> (#[trigger] plan.injections@[i]).range.start
                <= (#[trigger] plan.injections@[j]).range.start,
        plan.injections@.to_multiset() == planned(
            candidates,
            old_injections,
        ).injections.to_multiset(),
        action_views(plan.layer_actions@) == planned(candidates, old_injections).actions,
        old_injections.map_values(|old: MappedOldInjection| old.layer).to_multiset()
            =~= plan.retired_layers@.to_multiset().add(
            planned(candidates, old_injections).reused.to_multiset(),
        ),
{
    let state = planned(candidates, old_injections);
    lemma_stably_ordered(state.injections);
    assert forall|i: int, j: int| 0 <= i < j < plan.injections@.len() implies (
    #[trigger] plan.injections@[i]).range.start <= (#[trigger] plan.injections@[j]).range.start by {
        assert(plan.injections@[i].order_key() <= plan.injections@[j].order_key());
    }
    lemma_plan_settles_every_old_layer(candidates, old_injections);
    assert(old_injections.map_values(|old: MappedOldInjection| old.layer) =~= layers_between(
        old_injections,
        0,
        old_injections.len() as int,
    ));
}

/// An old injection is judged by the language and the pattern of its layer.
pub proof fn lemma_old_injections_know_their_layers(
    layers: Map<usize, LayerView>,
    old_injections: Seq<Injection>,
    edits: Seq<InputEdit>,
    k: int,
)
    requires
        0 <= k < old_injections.len(),
    ensures
        mapped_old(layers, old_injections, edits).len() == old_injections.len(),
        ({
            let mapped = mapped_old(layers, old_injections, edits)[k];
            let layer = old_injections[k].layer;
            &&& mapped.layer == layer
            &&& mapped.language == layers[layer.0].language
            &&& mapped.pattern == layers[layer.0].origin_pattern
            &&& edits.len() == 0 ==> mapped.range == old_injections[k].range
                && mapped.matched_node_range == old_injections[k].matched_node_range
                && !mapped.moved && !mapped.modified
        }),
{
    if edits.len() == 0 {
        assert(edits =~= Seq::empty());
        lemma_done_without_edits(old_injections, edits, k);
    }
}

proof fn lemma_done_without_edits(injections: Seq<Injection>, edits: Seq<InputEdit>, index: int)
    requires
        edits.len() == 0,
        0 <= index,
    ensures
        edits_done(injections, edits, index) == 0,
    decreases index,
{
    if index > 0 {
        lemma_done_without_edits(injections, edits, index - 1);
    }
}

} // verus!
