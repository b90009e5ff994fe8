//! The editor's model of a recipe and of its reading page, field for field
//! what the desktop editor renders.

use vstd::prelude::*;
use crate::model::{
    concat3, BindingRole, Dependency, DonenessCue, DonenessKind, HeatLevel, LaborMode, Operation, Property,
    Quantity, ResourceBinding, SourceSpan,
};
use crate::storage::{lowercase, to_lowercase};
use crate::semantic::texts;
use crate::syntax::outline::opt_view;
use crate::ui::offsets::Utf16Offsets;

verus! {

/// A span in UTF-16 units.
#[derive(Debug, Clone, Copy, PartialEq, Eq, Structural)]
pub struct UiRange {
    pub start: usize,
    pub end: usize,
}

impl UiRange {
    /// A byte span converted with `offsets`, so that slicing on the
    /// JavaScript side lands where the parser meant.
    pub fn new(span: &SourceSpan, offsets: &Utf16Offsets) -> (r: UiRange)
        ensures
            offsets@.len() >= 1,
            r.start == (if span.start < offsets@.len() {
                offsets@[span.start as int]
            } else {
                offsets@[offsets@.len() - 1]
            }),
            r.end == (if span.end < offsets@.len() {
                offsets@[span.end as int]
            } else {
                offsets@[offsets@.len() - 1]
            }),
    {
        UiRange { start: offsets.at(span.start), end: offsets.at(span.end) }
    }
}

#[derive(Debug, Clone)]
pub struct UiResource {
    pub symbol: String,
    pub name: String,
    pub kind: String,
    pub measurement: String,
    pub quantity: Option<String>,
    pub state: Option<String>,
    pub allergen: Option<String>,
    pub optional: Option<bool>,
    pub divided: Option<bool>,
    pub substitutes: Option<Vec<String>>,
    pub to_taste: Option<bool>,
    pub size: Option<String>,
    pub variant: Option<String>,
    pub notes: Option<Vec<String>>,
    pub range: Option<UiRange>,
}

#[derive(Debug, Clone)]
pub struct UiProcess {
    pub symbol: String,
}

#[derive(Debug, Clone)]
pub struct UiInputBinding {
    pub symbol: String,
    pub quantity: Option<String>,
}

#[derive(Debug, Clone)]
pub struct UiDonenessCue {
    pub kind: String,
    pub value: String,
}

#[derive(Debug, Clone)]
pub struct UiDiagnostic {
    pub message: String,
    pub start: usize,
    pub end: usize,
}

#[derive(Debug, Clone)]
pub struct UiIngredientLine {
    pub symbol: String,
    /// Amount as displayed; empty when the amount is the cook's call.
    pub quantity: String,
    /// Size, state and name: "large Hass avocados".
    pub description: String,
    /// Trailing modifiers, for a layout that sets them apart.
    pub aside: Option<String>,
}

#[derive(Debug, Clone)]
pub struct UiIngredientGroup {
    pub label: Option<String>,
    pub items: Vec<UiIngredientLine>,
}

#[derive(Debug, Clone)]
pub struct UiMise {
    pub ingredients: Vec<UiIngredientLine>,
    pub equipment: Vec<String>,
}

#[derive(Debug, Clone)]
pub struct UiStep {
    /// The operation's symbol, so the editor acts on the right declaration.
    pub symbol: String,
    pub number: usize,
    pub text: String,
    pub time: Option<String>,
    pub meta: Option<String>,
    pub tools: Vec<String>,
}

#[derive(Debug, Clone)]
pub struct UiSection {
    pub process: String,
    pub title: Option<String>,
    pub note: Option<String>,
    pub steps: Vec<UiStep>,
    pub mise: UiMise,
}

#[derive(Debug, Clone)]
pub struct UiNarrative {
    pub summary: String,
    pub ingredient_groups: Vec<UiIngredientGroup>,
    pub equipment: Vec<String>,
    pub sections: Vec<UiSection>,
}

/// One step as the editor shows it. Durations stay in whole seconds; the
/// editor divides by sixty for its minute fields.
#[derive(Debug, Clone)]
pub struct UiOperation {
    pub symbol: String,
    /// The action's name in lower case, the key of the editor's verb table.
    pub action: String,
    pub process: String,
    /// The shortest duration, zero where none is given.
    pub duration_seconds: u64,
    pub duration_max_seconds: Option<u64>,
    pub labor: String,
    /// The steps it waits for, in the order its dependencies list them.
    pub after: Vec<String>,
    /// The resources it consumes, in binding order.
    pub inputs: Vec<String>,
    /// The tools, containers, equipment and targets it holds, in binding order.
    pub equipment: Vec<String>,
    /// The first resource it produces.
    pub produces: Option<String>,
    /// Each input with the amount the step uses, in binding order.
    pub input_bindings: Vec<UiInputBinding>,
    pub target_temperature: Option<String>,
    pub heat_level: Option<String>,
    /// Its doneness cues, where it has any.
    pub doneness: Option<Vec<UiDonenessCue>>,
    /// The text of its `photo` property.
    pub photo: Option<String>,
    pub repeat: Option<u32>,
    /// Its notes, where it has any.
    pub notes: Option<Vec<String>>,
    pub range: Option<UiRange>,
}

/// How the editor writes an amount: the number, a space, the unit.
pub open spec fn quantity_words(q: Quantity) -> Seq<char> {
    q.amount@ + " "@ + q.unit@
}

pub open spec fn opt_quantity_words(q: Option<Quantity>) -> Option<Seq<char>> {
    match q {
        Some(q) => Some(quantity_words(q)),
        None => None,
    }
}

/// The inputs of the bindings with their amounts, in order.
pub open spec fn input_entries(bs: Seq<ResourceBinding>) -> Seq<(Seq<char>, Option<Seq<char>>)>
    decreases bs.len(),
{
    if bs.len() == 0 {
        Seq::empty()
    } else {
        let p = input_entries(bs.drop_last());
        if bs.last().role == BindingRole::Input {
            p.push((bs.last().resource@, opt_quantity_words(bs.last().quantity)))
        } else {
            p
        }
    }
}

pub open spec fn ui_input_views(v: Seq<UiInputBinding>) -> Seq<(Seq<char>, Option<Seq<char>>)> {
    v.map_values(|b: UiInputBinding| (b.symbol@, opt_view(b.quantity)))
}

/// The word the editor shows for a heat level.
pub open spec fn heat_word(h: HeatLevel) -> Seq<char> {
    match h {
        HeatLevel::Low => "low"@,
        HeatLevel::MediumLow => "medium_low"@,
        HeatLevel::Medium => "medium"@,
        HeatLevel::MediumHigh => "medium_high"@,
        HeatLevel::High => "high"@,
    }
}

/// The word the editor shows for a kind of doneness cue.
pub open spec fn doneness_word(k: DonenessKind) -> Seq<char> {
    match k {
        DonenessKind::InternalTemp => "internal_temp"@,
        DonenessKind::Visual => "visual"@,
        DonenessKind::Tester => "tester"@,
        DonenessKind::Texture => "texture"@,
        DonenessKind::Rise => "rise"@,
    }
}

/// Each cue's word and value text (empty where the value has none), in order.
pub open spec fn cue_entries(cs: Seq<DonenessCue>) -> Seq<(Seq<char>, Seq<char>)> {
    cs.map_values(
        |c: DonenessCue|
            (
                doneness_word(c.kind),
                match c.value {
                    Some(v) => v@,
                    None => Seq::empty(),
                },
            ),
    )
}

pub open spec fn ui_cue_views(v: Seq<UiDonenessCue>) -> Seq<(Seq<char>, Seq<char>)> {
    v.map_values(|c: UiDonenessCue| (c.kind@, c.value@))
}

/// The first property with this key.
pub open spec fn first_with_key(ps: Seq<Property>, key: Seq<char>) -> Option<Property>
    decreases ps.len(),
{
    if ps.len() == 0 {
        None
    } else {
        match first_with_key(ps.drop_last(), key) {
            Some(p) => Some(p),
            None => if ps.last().key@ == key {
                Some(ps.last())
            } else {
                None
            },
        }
    }
}

/// The text of the property with this key, where it has one.
pub open spec fn prop_text(ps: Seq<Property>, key: Seq<char>) -> Option<Seq<char>> {
    match first_with_key(ps, key) {
        Some(p) => opt_view(p.text),
        None => None,
    }
}

/// The word the editor shows for a labor mode.
pub open spec fn labor_word(l: Option<LaborMode>) -> Seq<char> {
    match l {
        Some(LaborMode::Active) => "active"@,
        Some(LaborMode::Passive) => "passive"@,
        Some(LaborMode::Monitor) => "monitor"@,
        Some(LaborMode::Automated) => "automated"@,
        None => "unspecified"@,
    }
}

/// The roles of the things a step holds rather than consumes or makes.
pub open spec fn holds_role(role: BindingRole) -> bool {
    role == BindingRole::Tool || role == BindingRole::Container || role == BindingRole::Equipment
        || role == BindingRole::Target
}

/// The resources of the bindings whose role `pick` accepts, in order.
pub open spec fn resources_where(bs: Seq<ResourceBinding>, pick: spec_fn(BindingRole) -> bool) -> Seq<
    Seq<char>,
>
    decreases bs.len(),
{
    if bs.len() == 0 {
        Seq::empty()
    } else {
        let p = resources_where(bs.drop_last(), pick);
        if pick(bs.last().role) {
            p.push(bs.last().resource@)
        } else {
            p
        }
    }
}

/// The editor's input list for these bindings.
pub open spec fn inputs_of(bs: Seq<ResourceBinding>) -> Seq<Seq<char>> {
    resources_where(bs, |role: BindingRole| role == BindingRole::Input)
}

/// The editor's input list holds the resource of every input binding, in
/// binding order, and of no other binding; the produced resource it shows
/// is that of the first output binding, and there is none without one.
pub proof fn lemma_inputs_and_product(bs: Seq<ResourceBinding>)
    ensures
        inputs_of(bs) == bs.filter_map(
            |b: ResourceBinding|
                if b.role == BindingRole::Input {
                    Some(b.resource@)
                } else {
                    None
                },
        ),
        first_output(bs) matches Some(r) ==> exists|i: int|
            0 <= i < bs.len() && #[trigger] bs[i].role == BindingRole::Output && bs[i].resource@ == r
                && forall|j: int| 0 <= j < i ==> (#[trigger] bs[j]).role != BindingRole::Output,
        first_output(bs) is None ==> forall|i: int| 0 <= i < bs.len() ==> (#[trigger] bs[i]).role
            != BindingRole::Output,
    decreases bs.len(),
{
    if bs.len() > 0 {
        let init = bs.drop_last();
        lemma_inputs_and_product(init);
        match first_output(init) {
            Some(r) => {
                let i = choose|i: int|
                    0 <= i < init.len() && #[trigger] init[i].role == BindingRole::Output && init[i].resource@
                        == r && forall|j: int| 0 <= j < i ==> (#[trigger] init[j]).role != BindingRole::Output;
                assert(bs[i] == init[i]);
                assert forall|j: int| 0 <= j < i implies (#[trigger] bs[j]).role != BindingRole::Output by {
                    assert(bs[j] == init[j]);
                }
            },
            None => {
                assert forall|j: int| 0 <= j < bs.len() - 1 implies (#[trigger] bs[j]).role
                    != BindingRole::Output by {
                    assert(bs[j] == init[j]);
                }
                if bs.last().role == BindingRole::Output {
                    assert(bs[bs.len() - 1].role == BindingRole::Output);
                }
            },
        }
    }
}

/// The editor's equipment list for these bindings.
pub open spec fn equipment_of(bs: Seq<ResourceBinding>) -> Seq<Seq<char>> {
    resources_where(bs, |role: BindingRole| holds_role(role))
}

/// The editor's equipment list holds the resource of every binding that is
/// a tool, a container, equipment or a target, in binding order, and of no
/// other binding.
pub proof fn lemma_equipment_is_held_bindings(bs: Seq<ResourceBinding>)
    ensures
        equipment_of(bs) == bs.filter_map(
            |b: ResourceBinding|
                if b.role == BindingRole::Tool || b.role == BindingRole::Container || b.role
                    == BindingRole::Equipment || b.role == BindingRole::Target {
                    Some(b.resource@)
                } else {
                    None
                },
        ),
        forall|i: int|
            0 <= i < bs.len() && (bs[i].role == BindingRole::Tool || bs[i].role
                == BindingRole::Container || bs[i].role == BindingRole::Equipment || bs[i].role
                == BindingRole::Target) ==> equipment_of(bs).contains(#[trigger] bs[i].resource@),
    decreases bs.len(),
{
    if bs.len() > 0 {
        lemma_equipment_is_held_bindings(bs.drop_last());
        assert forall|i: int|
            0 <= i < bs.len() && (bs[i].role == BindingRole::Tool || bs[i].role
                == BindingRole::Container || bs[i].role == BindingRole::Equipment || bs[i].role
                == BindingRole::Target) implies equipment_of(bs).contains(#[trigger] bs[i].resource@) by {
            let p = equipment_of(bs.drop_last());
            if i < bs.len() - 1 {
                assert(bs.drop_last()[i] == bs[i]);
                let j = choose|j: int| 0 <= j < p.len() && p[j] == bs[i].resource@;
                if holds_role(bs.last().role) {
                    assert(equipment_of(bs)[j] == p[j]);
                } else {
                    assert(equipment_of(bs) == p);
                }
            } else {
                assert(equipment_of(bs) == p.push(bs.last().resource@));
                assert(equipment_of(bs)[p.len() as int] == bs[i].resource@);
            }
        }
    }
}

/// The resource of the first output binding.
pub open spec fn first_output(bs: Seq<ResourceBinding>) -> Option<Seq<char>>
    decreases bs.len(),
{
    if bs.len() == 0 {
        None
    } else {
        match first_output(bs.drop_last()) {
            Some(x) => Some(x),
            None => if bs.last().role == BindingRole::Output {
                Some(bs.last().resource@)
            } else {
                None
            },
        }
    }
}

/// The predecessors that dependencies name, in order.
pub open spec fn predecessors(ds: Seq<Dependency>) -> Seq<Seq<char>> {
    ds.map_values(|d: Dependency| d.predecessor@)
}

/// The UTF-16 index that `offsets` gives a byte offset, the end for one past it.
pub open spec fn utf16_at(offsets: Seq<u32>, byte: usize) -> u32 {
    if byte < offsets.len() {
        offsets[byte as int]
    } else {
        offsets[offsets.len() - 1]
    }
}

fn labor_text(labor: Option<LaborMode>) -> (r: String)
    ensures
        r@ == labor_word(labor),
{
    match labor {
        Some(LaborMode::Active) => "active".to_owned(),
        Some(LaborMode::Passive) => "passive".to_owned(),
        Some(LaborMode::Monitor) => "monitor".to_owned(),
        Some(LaborMode::Automated) => "automated".to_owned(),
        None => "unspecified".to_owned(),
    }
}

fn is_input_role(role: BindingRole) -> (r: bool)
    ensures
        r == (role == BindingRole::Input),
{
    match role {
        BindingRole::Input => true,
        _ => false,
    }
}

fn is_held_role(role: BindingRole) -> (r: bool)
    ensures
        r == holds_role(role),
{
    match role {
        BindingRole::Tool | BindingRole::Container | BindingRole::Equipment | BindingRole::Target => true,
        _ => false,
    }
}

fn is_output_role(role: BindingRole) -> (r: bool)
    ensures
        r == (role == BindingRole::Output),
{
    match role {
        BindingRole::Output => true,
        _ => false,
    }
}

fn quantity_text(q: &Quantity) -> (r: String)
    ensures
        r@ == quantity_words(*q),
{
    concat3(q.amount.as_str(), " ", q.unit.as_str())
}

fn opt_quantity_text(q: &Option<Quantity>) -> (r: Option<String>)
    ensures
        opt_view(r) == opt_quantity_words(*q),
{
    match q {
        Some(q) => Some(quantity_text(q)),
        None => None,
    }
}

fn heat_text(h: HeatLevel) -> (r: &'static str)
    ensures
        r@ == heat_word(h),
{
    match h {
        HeatLevel::Low => "low",
        HeatLevel::MediumLow => "medium_low",
        HeatLevel::Medium => "medium",
        HeatLevel::MediumHigh => "medium_high",
        HeatLevel::High => "high",
    }
}

fn doneness_kind_text(k: DonenessKind) -> (r: &'static str)
    ensures
        r@ == doneness_word(k),
{
    match k {
        DonenessKind::InternalTemp => "internal_temp",
        DonenessKind::Visual => "visual",
        DonenessKind::Tester => "tester",
        DonenessKind::Texture => "texture",
        DonenessKind::Rise => "rise",
    }
}

/// The inputs of `bs` with their amounts, in order.
fn input_bindings_of(bs: &Vec<ResourceBinding>) -> (r: Vec<UiInputBinding>)
    ensures
        ui_input_views(r@) == input_entries(bs@),
{
    let mut r: Vec<UiInputBinding> = Vec::new();
    let mut j: usize = 0;
    while j < bs.len()
        invariant
            j <= bs@.len(),
            ui_input_views(r@) == input_entries(bs@.take(j as int)),
        decreases bs@.len() - j,
    {
        let ghost next = bs@.take(j + 1);
        proof {
            assert(next.drop_last() =~= bs@.take(j as int));
            assert(next.last() == bs@[j as int]);
        }
        let b = &bs[j];
        if is_input_role(b.role) {
            let ghost prev = r@;
            r.push(UiInputBinding { symbol: b.resource.clone(), quantity: opt_quantity_text(&b.quantity) });
            proof {
                assert(r@ =~= prev.push(r@[prev.len() as int]));
                assert(ui_input_views(r@) =~= ui_input_views(prev).push(
                    (b.resource@, opt_quantity_words(b.quantity)),
                ));
            }
        }
        j = j + 1;
    }
    proof {
        assert(bs@.take(j as int) =~= bs@);
    }
    r
}

/// The cues of `cs` for the editor, in order.
fn cues_of(cs: &Vec<DonenessCue>) -> (r: Vec<UiDonenessCue>)
    ensures
        ui_cue_views(r@) == cue_entries(cs@),
{
    let mut r: Vec<UiDonenessCue> = Vec::new();
    let mut j: usize = 0;
    while j < cs.len()
        invariant
            j <= cs@.len(),
            r@.len() == j,
            ui_cue_views(r@) == cue_entries(cs@.take(j as int)),
        decreases cs@.len() - j,
    {
        let c = &cs[j];
        let value = match &c.value {
            Some(v) => v.clone(),
            None => String::new(),
        };
        let ghost prev = r@;
        r.push(UiDonenessCue { kind: doneness_kind_text(c.kind).to_owned(), value });
        proof {
            assert(r@ =~= prev.push(r@[j as int]));
            assert(ui_cue_views(r@) =~= ui_cue_views(prev).push(cue_entries(cs@)[j as int]));
            assert(cs@.take(j + 1) =~= cs@.take(j as int).push(cs@[j as int]));
            assert(cue_entries(cs@.take(j + 1)) =~= cue_entries(cs@.take(j as int)).push(
                cue_entries(cs@)[j as int],
            ));
            assert(ui_cue_views(r@) =~= cue_entries(cs@.take(j + 1)));
        }
        j = j + 1;
    }
    proof {
        assert(cs@.take(j as int) =~= cs@);
    }
    r
}

/// The text of the first property of `ps` with this key.
fn property_text(ps: &Vec<Property>, key: &str) -> (r: Option<String>)
    ensures
        opt_view(r) == prop_text(ps@, key@),
{
    let mut j: usize = 0;
    while j < ps.len()
        invariant
            j <= ps@.len(),
            first_with_key(ps@.take(j as int), key@) is None,
        decreases ps@.len() - j,
    {
        let ghost next = ps@.take(j + 1);
        proof {
            assert(next.drop_last() =~= ps@.take(j as int));
            assert(next.last() == ps@[j as int]);
        }
        if crate::syntax::text::str_eq(ps[j].key.as_str(), key) {
            proof {
                lemma_first_with_key_kept(ps@, key@, j + 1);
            }
            return match &ps[j].text {
                Some(t) => Some(t.clone()),
                None => None,
            };
        }
        j = j + 1;
    }
    proof {
        assert(ps@.take(j as int) =~= ps@);
    }
    None
}

/// Once found among the first `k` properties, the first with a key stays it.
proof fn lemma_first_with_key_kept(ps: Seq<Property>, key: Seq<char>, k: int)
    requires
        0 <= k <= ps.len(),
        first_with_key(ps.take(k), key) is Some,
    ensures
        first_with_key(ps, key) == first_with_key(ps.take(k), key),
    decreases ps.len() - k,
{
    if k < ps.len() {
        let next = ps.take(k + 1);
        assert(next.drop_last() =~= ps.take(k));
        lemma_first_with_key_kept(ps, key, k + 1);
    } else {
        assert(ps.take(k) =~= ps);
    }
}

/// Notes for the editor: none where there are none.
fn notes_of(notes: &Vec<String>) -> (r: Option<Vec<String>>)
    ensures
        notes@.len() == 0 ==> r is None,
        notes@.len() > 0 ==> (r matches Some(v) && texts(v@) == texts(notes@)),
{
    if notes.len() == 0 {
        None
    } else {
        let mut v: Vec<String> = Vec::new();
        let mut j: usize = 0;
        while j < notes.len()
            invariant
                j <= notes@.len(),
                v@.len() == j,
                texts(v@) == texts(notes@.take(j as int)),
            decreases notes@.len() - j,
        {
            let ghost prev = v@;
            v.push(notes[j].clone());
            proof {
                assert(v@ =~= prev.push(v@[j as int]));
                assert(texts(v@) =~= texts(prev).push(notes@[j as int]@));
                assert(notes@.take(j + 1) =~= notes@.take(j as int).push(notes@[j as int]));
                assert(texts(v@) =~= texts(notes@.take(j + 1)));
            }
            j = j + 1;
        }
        proof {
            assert(notes@.take(j as int) =~= notes@);
        }
        Some(v)
    }
}

/// The editor's view of one operation: its bindings sorted by role, its
/// predecessors, its labor word and its declaration's range in UTF-16 units.
pub fn ui_operation(op: &Operation, offsets: &Utf16Offsets) -> (r: UiOperation)
    ensures
        r.symbol@ == op.symbol@,
        r.action@ == lowercase(op.action@),
        r.process@ == op.process@,
        r.duration_seconds == (match op.duration_min_seconds {
            Some(s) => s,
            None => 0u64,
        }),
        r.duration_max_seconds == op.duration_max_seconds,
        r.labor@ == labor_word(op.labor),
        texts(r.after@) == predecessors(op.dependencies@),
        texts(r.inputs@) == inputs_of(op.bindings@),
        texts(r.equipment@) == equipment_of(op.bindings@),
        opt_view(r.produces) == first_output(op.bindings@),
        ui_input_views(r.input_bindings@) == input_entries(op.bindings@),
        opt_view(r.target_temperature) == opt_quantity_words(op.target_temperature),
        opt_view(r.heat_level) == (match op.heat_level {
            Some(h) => Some(heat_word(h)),
            None => None,
        }),
        op.doneness@.len() == 0 ==> r.doneness is None,
        op.doneness@.len() > 0 ==> (r.doneness matches Some(d) && ui_cue_views(d@) == cue_entries(
            op.doneness@,
        )),
        opt_view(r.photo) == prop_text(op.properties@, "photo"@),
        r.repeat == op.repeat,
        op.notes@.len() == 0 ==> r.notes is None,
        op.notes@.len() > 0 ==> (r.notes matches Some(v) && texts(v@) == texts(op.notes@)),
        op.span is None ==> r.range is None,
        op.span matches Some(s) ==> (r.range matches Some(g) && g.start == utf16_at(offsets@, s.start)
            && g.end == utf16_at(offsets@, s.end)),
{
    let ghost inputs_pick = |role: BindingRole| role == BindingRole::Input;
    let ghost held_pick = |role: BindingRole| holds_role(role);
    let mut after: Vec<String> = Vec::new();
    let mut k: usize = 0;
    while k < op.dependencies.len()
        invariant
            k <= op.dependencies@.len(),
            after@.len() == k,
            texts(after@) == predecessors(op.dependencies@.take(k as int)),
        decreases op.dependencies@.len() - k,
    {
        let ghost prev = after@;
        after.push(op.dependencies[k].predecessor.clone());
        proof {
            assert(after@ =~= prev.push(after@[k as int]));
            assert(texts(after@) =~= texts(prev).push(op.dependencies@[k as int].predecessor@));
            assert(op.dependencies@.take(k + 1) =~= op.dependencies@.take(k as int).push(
                op.dependencies@[k as int],
            ));
            assert(texts(after@) =~= predecessors(op.dependencies@.take(k + 1)));
        }
        k = k + 1;
    }
    proof {
        assert(op.dependencies@.take(k as int) =~= op.dependencies@);
    }
    let mut inputs: Vec<String> = Vec::new();
    let mut equipment: Vec<String> = Vec::new();
    let mut produces: Option<String> = None;
    let mut j: usize = 0;
    while j < op.bindings.len()
        invariant
            j <= op.bindings@.len(),
            inputs_pick == (|role: BindingRole| role == BindingRole::Input),
            held_pick == (|role: BindingRole| holds_role(role)),
            texts(inputs@) == resources_where(op.bindings@.take(j as int), inputs_pick),
            texts(equipment@) == resources_where(op.bindings@.take(j as int), held_pick),
            opt_view(produces) == first_output(op.bindings@.take(j as int)),
        decreases op.bindings@.len() - j,
    {
        let b = &op.bindings[j];
        let ghost before = op.bindings@.take(j as int);
        let ghost next = op.bindings@.take(j + 1);
        proof {
            assert(next.drop_last() =~= before);
            assert(next.last() == op.bindings@[j as int]);
        }
        if is_input_role(b.role) {
            inputs.push(b.resource.clone());
        }
        if is_held_role(b.role) {
            equipment.push(b.resource.clone());
        }
        if produces.is_none() && is_output_role(b.role) {
            produces = Some(b.resource.clone());
        }
        proof {
            assert(texts(inputs@) =~= resources_where(next, inputs_pick));
            assert(texts(equipment@) =~= resources_where(next, held_pick));
        }
        j = j + 1;
    }
    proof {
        assert(op.bindings@.take(j as int) =~= op.bindings@);
    }
    let duration_seconds: u64 = match op.duration_min_seconds {
        Some(s) => s,
        None => 0,
    };
    let range = match op.span {
        Some(s) => Some(UiRange::new(&s, offsets)),
        None => None,
    };
    let heat_level = match op.heat_level {
        Some(h) => Some(heat_text(h).to_owned()),
        None => None,
    };
    let doneness = if op.doneness.len() == 0 {
        None
    } else {
        Some(cues_of(&op.doneness))
    };
    UiOperation {
        symbol: op.symbol.clone(),
        action: to_lowercase(op.action.as_str()),
        process: op.process.clone(),
        duration_seconds,
        duration_max_seconds: op.duration_max_seconds,
        labor: labor_text(op.labor),
        after,
        inputs,
        equipment,
        produces,
        input_bindings: input_bindings_of(&op.bindings),
        target_temperature: opt_quantity_text(&op.target_temperature),
        heat_level,
        doneness,
        photo: property_text(&op.properties, "photo"),
        repeat: op.repeat,
        notes: notes_of(&op.notes),
        range,
    }
}

} // verus!
