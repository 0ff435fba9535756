//! Where evidence goes: the application sites that pass solved dictionaries
//! to a term, the abstraction sites that bind dictionary parameters, and the
//! collectors that decide, for each wanted constraint, which site receives
//! its evidence.
use std::collections::VecDeque;

use vstd::prelude::*;

use super::evidence::{EvidenceBinder, EvidenceBinderId, EvidenceEntry, EvidenceState, EvidenceVarId, Evidences, EvidencesModel};
use super::types::{DeriveId, InstanceId, TypeId};
use crate::ids::{
    DoStatementId, ExpressionId, LetBindingNameGroupId, RecordPunId, TermItemId, TermOperatorId,
};
use crate::text::table::{lemma_table_domain, lemma_table_last, lemma_table_update_last, table_map};

verus! {

/// A semantic application boundary where solved evidence is passed to a term.
#[derive(Debug, Clone, Copy, PartialEq, Eq, Hash, Structural)]
pub enum EvidenceApplicationSite {
    Expression(ExpressionId),
    Application { expression: ExpressionId, argument: u32 },
    Operator(TermOperatorId),
    OperatorResult(TermOperatorId),
    Infix { expression: ExpressionId, pair: u32, argument: u8 },
    Negate(ExpressionId),
    RecordPun(RecordPunId),
    RecordAccess { expression: ExpressionId, label: u32 },
    Do { expression: ExpressionId, statement: DoStatementId, argument: u8 },
    DoResult { expression: ExpressionId, statement: DoStatementId },
    Ado { expression: ExpressionId, statement: DoStatementId, argument: u8 },
    AdoResult { expression: ExpressionId, statement: DoStatementId },
    AdoPure(ExpressionId),
}

/// A semantic abstraction boundary where dictionary parameters are introduced.
#[derive(Debug, Clone, Copy, PartialEq, Eq, Hash, Structural)]
pub enum EvidenceAbstractionSite {
    Expression(ExpressionId),
    Operator(TermOperatorId),
    RecordPun(RecordPunId),
    /// Local proof assumptions used inside a compiler-generated dictionary.
    Derived(DeriveId),
    Term(TermItemId),
    Let(LetBindingNameGroupId),
    InstanceMember { instance: InstanceId, member: u32 },
}

/// Keys of the placement tables, compared by value.
pub trait PlacementKey: Copy {
    fn same_key(&self, other: &Self) -> (same: bool)
        ensures
            same == (*self == *other),
    ;
}

impl PlacementKey for EvidenceApplicationSite {
    fn same_key(&self, other: &Self) -> (same: bool) {
        *self == *other
    }
}

impl PlacementKey for EvidenceAbstractionSite {
    fn same_key(&self, other: &Self) -> (same: bool) {
        *self == *other
    }
}

impl PlacementKey for InstanceId {
    fn same_key(&self, other: &Self) -> (same: bool) {
        *self == *other
    }
}

impl PlacementKey for DeriveId {
    fn same_key(&self, other: &Self) -> (same: bool) {
        *self == *other
    }
}

/// The entries of a placement table with their lists as sequences.
pub open spec fn placed<K, V>(entries: Seq<(K, Vec<V>)>) -> Seq<(K, Seq<V>)> {
    entries.map_values(|entry: (K, Vec<V>)| (entry.0, entry.1@))
}

/// `values` appended to the list of `key`, which starts out empty.
pub open spec fn appended<K, V>(map: Map<K, Seq<V>>, key: K, values: Seq<V>) -> Map<K, Seq<V>> {
    map.insert(key, (if map.contains_key(key) { map[key] } else { Seq::empty() }) + values)
}

/// The position of the last entry for `key` in a placement table.
fn find_key<K: PlacementKey, V>(entries: &Vec<(K, Vec<V>)>, key: &K) -> (found: Option<usize>)
    ensures
        match found {
            Some(k) => k < entries@.len() && entries@[k as int].0 == *key && forall|j: int|
                k < j < entries@.len() ==> (#[trigger] entries@[j]).0 != *key,
            None => forall|k: int| 0 <= k < entries@.len() ==> (#[trigger] entries@[k]).0 != *key,
        },
{
    let mut k: usize = entries.len();
    while k > 0
        invariant
            k <= entries@.len(),
            forall|j: int| k <= j < entries@.len() ==> (#[trigger] entries@[j]).0 != *key,
        decreases k,
    {
        k = k - 1;
        if entries[k].0.same_key(key) {
            return Some(k);
        }
    }
    None
}

/// Appends `values` to the list of `key` in a placement table.
fn extend_placement<K: PlacementKey, V>(entries: &mut Vec<(K, Vec<V>)>, key: K, values: Vec<V>)
    ensures
        table_map(placed(final(entries)@)) == appended(table_map(placed(old(entries)@)), key, values@),
{
    let ghost before = placed(entries@);
    let ghost added = values@;
    let mut values = values;
    match find_key(entries, &key) {
        Some(k) => {
            let (found, mut list) = entries.remove(k);
            let ghost previous = list@;
            list.append(&mut values);
            entries.insert(k, (found, list));
            proof {
                assert(before[k as int] == (key, previous));
                assert forall|j: int| k < j < before.len() implies #[trigger] before[j].0 != before[k as int].0 by {
                    assert(before[j].0 == old(entries)@[j].0);
                }
                lemma_table_last(before, k as int);
                lemma_table_update_last(before, k as int, previous + added);
                assert(placed(entries@) =~= before.update(k as int, (before[k as int].0, previous + added)));
            }
        },
        None => {
            proof {
                lemma_table_domain(before, key);
                if exists|i: int| 0 <= i < before.len() && #[trigger] before[i].0 == key {
                    let i = choose|i: int| 0 <= i < before.len() && #[trigger] before[i].0 == key;
                    assert(entries@[i].0 != key);
                }
            }
            entries.push((key, values));
            proof {
                assert(placed(entries@) =~= before.push((key, added)));
                assert(placed(entries@).drop_last() =~= before);
                assert(Seq::<V>::empty() + added =~= added);
            }
        },
    }
}

/// Evidence arguments and parameters associated with semantic Core boundaries.
///
/// Each table is an association list from a boundary to the evidence placed
/// there, so a lookup is a linear search. Adding evidence extends the entry
/// of its boundary when there is one and adds an entry otherwise, so a
/// boundary has at most one entry; a lookup reads the last entry of a
/// boundary, which is its only one.
pub struct EvidencePlacements {
    pub applications: Vec<(EvidenceApplicationSite, Vec<EvidenceVarId>)>,
    pub abstractions: Vec<(EvidenceAbstractionSite, Vec<EvidenceBinderId>)>,
    pub instance_superclasses: Vec<(InstanceId, Vec<EvidenceVarId>)>,
    /// Solved dictionaries required by a compiler-generated derived instance.
    pub derived_requirements: Vec<(DeriveId, Vec<EvidenceVarId>)>,
}

/// The placement tables as maps from boundaries to the evidence placed there,
/// in the order it was placed.
pub struct PlacementsModel {
    pub applications: Map<EvidenceApplicationSite, Seq<EvidenceVarId>>,
    pub abstractions: Map<EvidenceAbstractionSite, Seq<EvidenceBinderId>>,
    pub instance_superclasses: Map<InstanceId, Seq<EvidenceVarId>>,
    pub derived_requirements: Map<DeriveId, Seq<EvidenceVarId>>,
}

impl View for EvidencePlacements {
    type V = PlacementsModel;

    open spec fn view(&self) -> PlacementsModel {
        PlacementsModel {
            applications: table_map(placed(self.applications@)),
            abstractions: table_map(placed(self.abstractions@)),
            instance_superclasses: table_map(placed(self.instance_superclasses@)),
            derived_requirements: table_map(placed(self.derived_requirements@)),
        }
    }
}

/// The list of `key` in a placement table, if it has one.
fn lookup_placement<K: PlacementKey, V>(entries: &Vec<(K, Vec<V>)>, key: K) -> (list: Option<&Vec<V>>)
    ensures
        match list {
            Some(values) => table_map(placed(entries@)).contains_key(key) && values@ == table_map(
                placed(entries@),
            )[key],
            None => !table_map(placed(entries@)).contains_key(key),
        },
{
    let ghost view = placed(entries@);
    match find_key(entries, &key) {
        Some(k) => {
            proof {
                assert forall|j: int| k < j < view.len() implies #[trigger] view[j].0 != view[k as int].0 by {
                    assert(view[j].0 == entries@[j].0);
                }
                lemma_table_last(view, k as int);
            }
            Some(&entries[k].1)
        },
        None => {
            proof {
                lemma_table_domain(view, key);
                if exists|i: int| 0 <= i < view.len() && #[trigger] view[i].0 == key {
                    let i = choose|i: int| 0 <= i < view.len() && #[trigger] view[i].0 == key;
                    assert(entries@[i].0 != key);
                }
            }
            None
        },
    }
}

impl EvidencePlacements {
    /// The evidence passed at `site`, if any was placed there.
    pub fn applications_at(&self, site: EvidenceApplicationSite) -> (placed_here: Option<&Vec<EvidenceVarId>>)
        ensures
            match placed_here {
                Some(list) => self@.applications.contains_key(site) && list@ == self@.applications[site],
                None => !self@.applications.contains_key(site),
            },
    {
        lookup_placement(&self.applications, site)
    }

    /// The dictionary parameters bound at `site`, if any were placed there.
    pub fn abstractions_at(&self, site: EvidenceAbstractionSite) -> (placed_here: Option<&Vec<EvidenceBinderId>>)
        ensures
            match placed_here {
                Some(list) => self@.abstractions.contains_key(site) && list@ == self@.abstractions[site],
                None => !self@.abstractions.contains_key(site),
            },
    {
        lookup_placement(&self.abstractions, site)
    }
}

impl Default for EvidencePlacements {
    fn default() -> (placements: EvidencePlacements)
        ensures
            placements@.applications == Map::<EvidenceApplicationSite, Seq<EvidenceVarId>>::empty(),
            placements@.abstractions == Map::<EvidenceAbstractionSite, Seq<EvidenceBinderId>>::empty(),
            placements@.instance_superclasses == Map::<InstanceId, Seq<EvidenceVarId>>::empty(),
            placements@.derived_requirements == Map::<DeriveId, Seq<EvidenceVarId>>::empty(),
    {
        let placements = EvidencePlacements {
            applications: Vec::new(),
            abstractions: Vec::new(),
            instance_superclasses: Vec::new(),
            derived_requirements: Vec::new(),
        };
        assert(placed(placements.applications@) =~= Seq::empty());
        assert(placed(placements.abstractions@) =~= Seq::empty());
        assert(placed(placements.instance_superclasses@) =~= Seq::empty());
        assert(placed(placements.derived_requirements@) =~= Seq::empty());
        placements
    }
}

/// What consumes the evidence of the wanted constraints a collector gathers.
#[derive(Debug, Clone, Copy, PartialEq, Eq, Structural)]
pub enum WantedDestination {
    Application(EvidenceApplicationSite),
    DerivedRequirement(DeriveId),
    InstanceSuperclass(InstanceId),
    Compiler,
    NonCollecting,
}

impl PlacementsModel {
    /// The placements after `variable` was recorded for `destination`: it
    /// joins the end of that boundary's list; compiler-known and
    /// non-collecting evidence is placed nowhere.
    pub open spec fn recorded(self, destination: WantedDestination, variable: EvidenceVarId) -> PlacementsModel {
        match destination {
            WantedDestination::Application(site) => PlacementsModel {
                applications: appended(self.applications, site, seq![variable]),
                ..self
            },
            WantedDestination::DerivedRequirement(derive) => PlacementsModel {
                derived_requirements: appended(self.derived_requirements, derive, seq![variable]),
                ..self
            },
            WantedDestination::InstanceSuperclass(instance) => PlacementsModel {
                instance_superclasses: appended(self.instance_superclasses, instance, seq![variable]),
                ..self
            },
            WantedDestination::Compiler | WantedDestination::NonCollecting => self,
        }
    }
}

/// A wanted constraint and the evidence variable that will hold its solution.
#[derive(Debug, Clone, Copy, PartialEq, Eq, Structural)]
pub struct WantedConstraint {
    pub constraint: TypeId,
    pub evidence: EvidenceVarId,
}

/// An explicit capability for introducing wanted constraints; it records what
/// will consume the resulting evidence.
#[derive(Debug, PartialEq, Eq)]
pub struct WantedCollector {
    destination: WantedDestination,
}

impl WantedCollector {
    pub closed spec fn destination(&self) -> WantedDestination {
        self.destination
    }

    pub fn application(site: EvidenceApplicationSite) -> (collector: WantedCollector)
        ensures
            collector.destination() == WantedDestination::Application(site),
    {
        WantedCollector { destination: WantedDestination::Application(site) }
    }

    pub fn derived_requirement(derive: DeriveId) -> (collector: WantedCollector)
        ensures
            collector.destination() == WantedDestination::DerivedRequirement(derive),
    {
        WantedCollector { destination: WantedDestination::DerivedRequirement(derive) }
    }

    pub fn instance_superclass(instance: InstanceId) -> (collector: WantedCollector)
        ensures
            collector.destination() == WantedDestination::InstanceSuperclass(instance),
    {
        WantedCollector { destination: WantedDestination::InstanceSuperclass(instance) }
    }

    /// Evidence for a compiler-known constraint which is erased from Core.
    pub fn compiler() -> (collector: WantedCollector)
        ensures
            collector.destination() == WantedDestination::Compiler,
    {
        WantedCollector { destination: WantedDestination::Compiler }
    }

    /// Evidence which is solved during checking but not collected for Core.
    pub fn non_collecting() -> (collector: WantedCollector)
        ensures
            collector.destination() == WantedDestination::NonCollecting,
    {
        WantedCollector { destination: WantedDestination::NonCollecting }
    }

    /// Wants `constraint`: creates an evidence variable for it, places the
    /// variable at the collector's destination and queues the wanted
    /// constraint.
    pub fn collect(&mut self, state: &mut PlacementState, constraint: TypeId) -> (evidence: EvidenceVarId)
        requires
            old(state).evidence_model().variables.len() < u32::MAX,
        ensures
            *final(self) == *old(self),
            evidence.0 == old(state).evidence_model().variables.len(),
            final(state).evidence_model() == (EvidencesModel {
                variables: old(state).evidence_model().variables.push(
                    EvidenceEntry { constraint: None, state: EvidenceState::Unsolved },
                ),
                ..old(state).evidence_model()
            }),
            final(state).placements_model() == old(state).placements_model().recorded(old(self).destination(), evidence),
            final(state).wanted_model() == old(state).wanted_model().push(WantedConstraint { constraint, evidence }),
            final(state).captures() == old(state).captures(),
    {
        state.collect_for(self, constraint)
    }

    fn record(&self, placements: &mut EvidencePlacements, variable: EvidenceVarId)
        ensures
            final(placements)@ == old(placements)@.recorded(self.destination(), variable),
    {
        let mut single: Vec<EvidenceVarId> = Vec::new();
        single.push(variable);
        assert(single@ =~= seq![variable]);
        match self.destination {
            WantedDestination::Application(site) => {
                extend_placement(&mut placements.applications, site, single);
            },
            WantedDestination::DerivedRequirement(derive) => {
                extend_placement(&mut placements.derived_requirements, derive, single);
            },
            WantedDestination::InstanceSuperclass(instance) => {
                extend_placement(&mut placements.instance_superclasses, instance, single);
            },
            WantedDestination::Compiler | WantedDestination::NonCollecting => {},
        }
    }
}

/// The part of the checker's state that evidence placement reads and
/// writes: the evidence table, the placements, the wanted constraints of the
/// current implication, and the open binder captures, innermost last.
pub struct PlacementState {
    evidence: Evidences,
    placements: EvidencePlacements,
    wanted: VecDeque<WantedConstraint>,
    binder_captures: Vec<(EvidenceAbstractionSite, Vec<EvidenceBinderId>)>,
}

impl PlacementState {
    /// The open binder captures, innermost last, with the binders each has
    /// captured so far.
    pub closed spec fn captures(&self) -> Seq<(EvidenceAbstractionSite, Seq<EvidenceBinderId>)> {
        placed(self.binder_captures@)
    }

    /// The evidence table.
    pub closed spec fn evidence_model(&self) -> EvidencesModel {
        self.evidence@
    }

    /// The evidence placed at each boundary.
    pub closed spec fn placements_model(&self) -> PlacementsModel {
        self.placements@
    }

    /// The wanted constraints of the current implication, in order.
    pub closed spec fn wanted_model(&self) -> Seq<WantedConstraint> {
        self.wanted@
    }

    /// The evidence table.
    pub fn evidence(&self) -> (evidence: &Evidences)
        ensures
            evidence@ == self.evidence_model(),
    {
        &self.evidence
    }

    /// The evidence placed at each boundary.
    pub fn placements(&self) -> (placements: &EvidencePlacements)
        ensures
            placements@ == self.placements_model(),
    {
        &self.placements
    }

    /// The wanted constraints of the current implication, in order.
    pub fn wanted(&self) -> (wanted: &VecDeque<WantedConstraint>)
        ensures
            wanted@ == self.wanted_model(),
    {
        &self.wanted
    }

    fn collect_for(&mut self, collector: &WantedCollector, constraint: TypeId) -> (evidence: EvidenceVarId)
        requires
            old(self).evidence_model().variables.len() < u32::MAX,
        ensures
            evidence.0 == old(self).evidence_model().variables.len(),
            final(self).evidence_model() == (EvidencesModel {
                variables: old(self).evidence_model().variables.push(
                    EvidenceEntry { constraint: None, state: EvidenceState::Unsolved },
                ),
                ..old(self).evidence_model()
            }),
            final(self).placements_model() == old(self).placements_model().recorded(collector.destination(), evidence),
            final(self).wanted_model() == old(self).wanted_model().push(WantedConstraint { constraint, evidence }),
            final(self).captures() == old(self).captures(),
    {
        let evidence = self.evidence.fresh_variable();
        collector.record(&mut self.placements, evidence);
        self.wanted.push_back(WantedConstraint { constraint, evidence });
        evidence
    }

    pub fn new() -> (state: PlacementState)
        ensures
            state.evidence_model() == (EvidencesModel { variables: Seq::empty(), binders: Seq::empty(), terms: Seq::empty() }),
            state.placements_model().applications == Map::<EvidenceApplicationSite, Seq<EvidenceVarId>>::empty(),
            state.placements_model().abstractions == Map::<EvidenceAbstractionSite, Seq<EvidenceBinderId>>::empty(),
            state.placements_model().instance_superclasses == Map::<InstanceId, Seq<EvidenceVarId>>::empty(),
            state.placements_model().derived_requirements == Map::<DeriveId, Seq<EvidenceVarId>>::empty(),
            state.wanted_model() == Seq::<WantedConstraint>::empty(),
            state.captures() == Seq::<(EvidenceAbstractionSite, Seq<EvidenceBinderId>)>::empty(),
    {
        let state = PlacementState {
            evidence: Evidences::default(),
            placements: EvidencePlacements::default(),
            wanted: VecDeque::new(),
            binder_captures: Vec::new(),
        };
        assert(placed(state.binder_captures@) =~= Seq::empty());
        state
    }
}

/// The open captures after a binder was created: the innermost capture,
/// if any, receives it.
pub open spec fn captured(
    captures: Seq<(EvidenceAbstractionSite, Seq<EvidenceBinderId>)>,
    binder: EvidenceBinderId,
) -> Seq<(EvidenceAbstractionSite, Seq<EvidenceBinderId>)> {
    if captures.len() == 0 {
        captures
    } else {
        captures.update(captures.len() - 1, (captures.last().0, captures.last().1.push(binder)))
    }
}

impl PlacementState {
    /// Creates a dictionary binder; the innermost open capture, if any,
    /// captures it.
    pub fn fresh_evidence_binder(&mut self) -> (binder: EvidenceBinderId)
        requires
            old(self).evidence_model().binders.len() < u32::MAX,
        ensures
            binder.0 == old(self).evidence_model().binders.len(),
            final(self).evidence_model() == (EvidencesModel {
                binders: old(self).evidence_model().binders.push(EvidenceBinder { constraint: None, erased: false }),
                ..old(self).evidence_model()
            }),
            final(self).captures() == captured(old(self).captures(), binder),
            final(self).placements_model() == old(self).placements_model(),
            final(self).wanted_model() == old(self).wanted_model(),
    {
        let binder = self.evidence.fresh_binder();
        let count = self.binder_captures.len();
        if count > 0 {
            let ghost before = self.binder_captures@;
            let (site, mut binders) = self.binder_captures.pop().unwrap();
            binders.push(binder);
            self.binder_captures.push((site, binders));
            proof {
                assert(placed(self.binder_captures@) =~= captured(placed(before), binder));
            }
        }
        binder
    }

    /// Opens a capture for the binders created at `site`.
    pub fn begin_binder_capture(&mut self, site: EvidenceAbstractionSite)
        ensures
            final(self).captures() == old(self).captures().push((site, Seq::<EvidenceBinderId>::empty())),
            final(self).evidence_model() == old(self).evidence_model(),
            final(self).placements_model() == old(self).placements_model(),
            final(self).wanted_model() == old(self).wanted_model(),
    {
        let ghost before = self.binder_captures@;
        self.binder_captures.push((site, Vec::new()));
        assert(placed(self.binder_captures@) =~= placed(before).push((site, Seq::<EvidenceBinderId>::empty())));
    }

    /// Closes the innermost capture: the binders it captured, if any, become
    /// parameters of its site, after those the site already has.
    pub fn end_binder_capture(&mut self)
        requires
            old(self).captures().len() > 0,
        ensures
            final(self).captures() == old(self).captures().drop_last(),
            final(self).placements_model() == (if old(self).captures().last().1.len() > 0 {
                PlacementsModel {
                    abstractions: appended(
                        old(self).placements_model().abstractions,
                        old(self).captures().last().0,
                        old(self).captures().last().1,
                    ),
                    ..old(self).placements_model()
                }
            } else {
                old(self).placements_model()
            }),
            final(self).evidence_model() == old(self).evidence_model(),
            final(self).wanted_model() == old(self).wanted_model(),
    {
        let ghost before = self.binder_captures@;
        let (site, binders) = self.binder_captures.pop().unwrap();
        proof {
            assert(placed(self.binder_captures@) =~= placed(before).drop_last());
        }
        if binders.len() > 0 {
            extend_placement(&mut self.placements.abstractions, site, binders);
        }
    }

    /// Runs `f` with a capture open for the binders created at `site`; the
    /// binders created while it is the innermost capture become parameters of
    /// `site`. A capture that `f` itself closed is not closed again.
    pub fn capture_binders<T, F: FnOnce(&mut PlacementState) -> T>(
        &mut self,
        site: EvidenceAbstractionSite,
        f: F,
    ) -> (result: T)
        requires
            forall|state: &mut PlacementState| f.requires((state,)),
        ensures
            exists|inner: &mut PlacementState|
                #[trigger] f.ensures((inner,), result) && opened_capture(*old(self), mut_ref_current(inner), site)
                    && closed_innermost_capture(mut_ref_future(inner), *final(self)),
    {
        self.begin_binder_capture(site);
        let result = f(self);
        if self.binder_captures.len() > 0 {
            self.end_binder_capture();
        }
        result
    }

    /// Runs `f` with `collector` as the destination of the constraints it
    /// wants.
    pub fn with_wanted_collector<T, F: FnOnce(&mut PlacementState, &mut WantedCollector) -> T>(
        &mut self,
        collector: WantedCollector,
        f: F,
    ) -> (result: T)
        requires
            forall|state: &mut PlacementState, wanted: &mut WantedCollector| f.requires((state, wanted)),
        ensures
            exists|inner: &mut PlacementState, wanted: &mut WantedCollector|
                #[trigger] f.ensures((inner, wanted), result) && mut_ref_current(inner) == *old(self)
                    && mut_ref_current(wanted) == collector && *final(self) == mut_ref_future(inner),
    {
        let mut collector = collector;
        f(self, &mut collector)
    }
}

/// `inner` is `outer` with a capture for the binders created at `site`
/// opened.
pub open spec fn opened_capture(outer: PlacementState, inner: PlacementState, site: EvidenceAbstractionSite) -> bool {
    &&& inner.captures() == outer.captures().push((site, Seq::<EvidenceBinderId>::empty()))
    &&& inner.evidence_model() == outer.evidence_model()
    &&& inner.placements_model() == outer.placements_model()
    &&& inner.wanted_model() == outer.wanted_model()
}

/// `after` is `before` with its innermost capture, if it has one, closed:
/// the binders it captured, if any, become parameters of its site.
pub open spec fn closed_innermost_capture(before: PlacementState, after: PlacementState) -> bool {
    &&& after.evidence_model() == before.evidence_model()
    &&& after.wanted_model() == before.wanted_model()
    &&& if before.captures().len() > 0 {
        &&& after.captures() == before.captures().drop_last()
        &&& after.placements_model() == (if before.captures().last().1.len() > 0 {
            PlacementsModel {
                abstractions: appended(
                    before.placements_model().abstractions,
                    before.captures().last().0,
                    before.captures().last().1,
                ),
                ..before.placements_model()
            }
        } else {
            before.placements_model()
        })
    } else {
        &&& after.captures() == before.captures()
        &&& after.placements_model() == before.placements_model()
    }
}

/// A collector records evidence only at its own destination: every other
/// boundary keeps its placements.
pub proof fn law_recorded_only_at_destination(
    placements: PlacementsModel,
    destination: WantedDestination,
    variable: EvidenceVarId,
    site: EvidenceApplicationSite,
)
    requires
        destination != WantedDestination::Application(site),
    ensures
        placements.recorded(destination, variable).applications.contains_key(site)
            == placements.applications.contains_key(site),
        placements.applications.contains_key(site) ==> placements.recorded(destination, variable).applications[site]
            == placements.applications[site],
        placements.recorded(destination, variable).abstractions == placements.abstractions,
{
}

/// A binder created while captures are open is captured by the innermost
/// one only.
pub proof fn law_binder_captured_by_innermost(
    captures: Seq<(EvidenceAbstractionSite, Seq<EvidenceBinderId>)>,
    binder: EvidenceBinderId,
    i: int,
)
    requires
        0 <= i < captures.len(),
    ensures
        captured(captures, binder).len() == captures.len(),
        captured(captures, binder)[i].0 == captures[i].0,
        i < captures.len() - 1 ==> captured(captures, binder)[i].1 == captures[i].1,
        i == captures.len() - 1 ==> captured(captures, binder)[i].1 == captures[i].1.push(binder),
{
}

} // verus!
