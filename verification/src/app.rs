//! Application state and update logic: the conversation being billed, the
//! pickers, and the open tabs.

use vstd::prelude::*;
use crate::lines::{
    extract_inline_marker, extract_inline_marker_of, marker_label, marker_label_of, strip_repeat,
    strip_repeat_of, Marker,
};
use crate::model::{default_models, ModelInfo, ModelRecord};
use crate::parser::{parse, parse_checked, parse_in_range, parse_result, parsed_repeat_at_least_one, ParsedTurn};
use crate::format::{decimal, decimal_string};
use crate::lines::{eq_ignore_ascii_case, marker_raw, marker_raw_of, same_ignoring_ascii_case};
use crate::text::{chars_of, concat, string_of, trim, trim_chars};
use crate::storage::SavedConversation;

verus! {

/// One simulated conversation turn, with the tokens billed.
#[derive(Debug)]
pub struct Turn {
    pub raw: String,
    pub cached: u64,
    pub input: u64,
    pub output: u64,
    /// Thinking / reasoning tokens, billed at the output rate. They do not
    /// carry into the next turn's context window.
    pub thinking: u64,
    /// The index, in the model list, of the model the turn was billed at;
    /// its price is what the turn cost.
    pub model: usize,
}

/// What a turn is, as plain values.
pub struct TurnRecord {
    pub raw: Seq<char>,
    pub cached: u64,
    pub input: u64,
    pub output: u64,
    pub thinking: u64,
    pub model: usize,
}

impl View for Turn {
    type V = TurnRecord;

    open spec fn view(&self) -> TurnRecord {
        TurnRecord {
            raw: self.raw@,
            cached: self.cached,
            input: self.input,
            output: self.output,
            thinking: self.thinking,
            model: self.model,
        }
    }
}

impl Turn {
    /// An exact copy of this turn.
    pub fn duplicate(&self) -> (t: Turn)
        ensures
            t@ == self@,
    {
        Turn {
            raw: self.raw.clone(),
            cached: self.cached,
            input: self.input,
            output: self.output,
            thinking: self.thinking,
            model: self.model,
        }
    }
}

/// The records of a list of turns.
pub open spec fn turns_view(v: Seq<Turn>) -> Seq<TurnRecord> {
    v.map_values(|t: Turn| t@)
}

/// The records of a list of markers.
pub open spec fn markers_view(v: Seq<Marker>) -> Seq<(usize, Seq<char>)> {
    v.map_values(|m: Marker| m@)
}

/// The texts of a list of strings.
pub open spec fn strings_view(v: Seq<String>) -> Seq<Seq<char>> {
    v.map_values(|s: String| s@)
}

/// The text of an optional string.
pub open spec fn opt_view(o: Option<String>) -> Option<Seq<char>> {
    match o {
        Some(s) => Some(s@),
        None => None,
    }
}

/// A copy of a list of turns.
pub fn copy_turns(v: &Vec<Turn>) -> (r: Vec<Turn>)
    ensures
        turns_view(r@) == turns_view(v@),
{
    let mut r: Vec<Turn> = Vec::new();
    let mut i: usize = 0;
    while i < v.len()
        invariant
            i <= v@.len(),
            turns_view(r@) == turns_view(v@.take(i as int)),
        decreases v@.len() - i,
    {
        let t = v[i].duplicate();
        let ghost before = turns_view(r@);
        r.push(t);
        assert(turns_view(r@) =~= before.push(v@[i as int]@));
        assert(v@.take(i + 1) == v@.take(i as int).push(v@[i as int]));
        assert(turns_view(v@.take(i + 1)) =~= turns_view(v@.take(i as int)).push(v@[i as int]@));
        i += 1;
    }
    assert(v@.take(v@.len() as int) == v@);
    r
}

/// A copy of a list of markers.
pub fn copy_markers(v: &Vec<Marker>) -> (r: Vec<Marker>)
    ensures
        markers_view(r@) == markers_view(v@),
{
    let mut r: Vec<Marker> = Vec::new();
    let mut i: usize = 0;
    while i < v.len()
        invariant
            i <= v@.len(),
            markers_view(r@) == markers_view(v@.take(i as int)),
        decreases v@.len() - i,
    {
        let m = v[i].duplicate();
        let ghost before = markers_view(r@);
        r.push(m);
        assert(markers_view(r@) =~= before.push(v@[i as int]@));
        assert(v@.take(i + 1) == v@.take(i as int).push(v@[i as int]));
        assert(markers_view(v@.take(i + 1)) =~= markers_view(v@.take(i as int)).push(
            v@[i as int]@,
        ));
        i += 1;
    }
    assert(v@.take(v@.len() as int) == v@);
    r
}

/// A copy of a list of strings.
pub fn copy_strings(v: &Vec<String>) -> (r: Vec<String>)
    ensures
        strings_view(r@) == strings_view(v@),
{
    let mut r: Vec<String> = Vec::new();
    let mut i: usize = 0;
    while i < v.len()
        invariant
            i <= v@.len(),
            strings_view(r@) == strings_view(v@.take(i as int)),
        decreases v@.len() - i,
    {
        let s = v[i].clone();
        let ghost before = strings_view(r@);
        r.push(s);
        assert(strings_view(r@) =~= before.push(v@[i as int]@));
        assert(v@.take(i + 1) == v@.take(i as int).push(v@[i as int]));
        assert(strings_view(v@.take(i + 1)) =~= strings_view(v@.take(i as int)).push(
            v@[i as int]@,
        ));
        i += 1;
    }
    assert(v@.take(v@.len() as int) == v@);
    r
}

/// A copy of an optional string.
pub fn copy_opt(o: &Option<String>) -> (r: Option<String>)
    ensures
        opt_view(r) == opt_view(*o),
{
    match o {
        Some(s) => Some(s.clone()),
        None => None,
    }
}

/// An open conversation tab. Holds everything that distinguishes one
/// conversation from another. The *active* tab's data lives in the App's
/// "live" fields (turns, input, …); this struct is where an inactive tab's
/// state is stashed, and is swapped back into the live fields on switch.
#[derive(Debug)]
pub struct Tab {
    pub active_model: Option<usize>,
    pub turns: Vec<Turn>,
    pub carried_cached: u64,
    pub input: String,
    pub status: String,
    pub input_history: Vec<String>,
    pub history_pos: Option<usize>,
    pub scroll_up: u16,
    /// Positional markers the user dropped into this conversation.
    pub markers: Vec<Marker>,
    /// The saved-conversation name this tab was loaded from (or last saved as),
    /// used to default the "save as" prompt so re-saving overrides the entry.
    pub conv_name: Option<String>,
}

/// What a tab holds, as plain values.
pub struct TabRecord {
    pub active_model: Option<usize>,
    pub turns: Seq<TurnRecord>,
    pub carried_cached: u64,
    pub input: Seq<char>,
    pub status: Seq<char>,
    pub input_history: Seq<Seq<char>>,
    pub history_pos: Option<usize>,
    pub scroll_up: u16,
    pub markers: Seq<(usize, Seq<char>)>,
    pub conv_name: Option<Seq<char>>,
}

impl View for Tab {
    type V = TabRecord;

    open spec fn view(&self) -> TabRecord {
        TabRecord {
            active_model: self.active_model,
            turns: turns_view(self.turns@),
            carried_cached: self.carried_cached,
            input: self.input@,
            status: self.status@,
            input_history: strings_view(self.input_history@),
            history_pos: self.history_pos,
            scroll_up: self.scroll_up,
            markers: markers_view(self.markers@),
            conv_name: opt_view(self.conv_name),
        }
    }
}

/// A tab with nothing in it.
pub open spec fn empty_tab() -> TabRecord {
    TabRecord {
        active_model: None,
        turns: Seq::empty(),
        carried_cached: 0,
        input: Seq::empty(),
        status: Seq::empty(),
        input_history: Seq::empty(),
        history_pos: None,
        scroll_up: 0,
        markers: Seq::empty(),
        conv_name: None,
    }
}

/// Whether a tab's history cursor points into its history.
pub open spec fn tab_cursor_ok(t: TabRecord) -> bool {
    t.history_pos matches Some(p) ==> p < t.input_history.len()
}

impl Tab {
    /// An exact copy of this tab.
    pub fn duplicate(&self) -> (t: Tab)
        ensures
            t@ == self@,
    {
        Tab {
            active_model: self.active_model,
            turns: copy_turns(&self.turns),
            carried_cached: self.carried_cached,
            input: self.input.clone(),
            status: self.status.clone(),
            input_history: copy_strings(&self.input_history),
            history_pos: self.history_pos,
            scroll_up: self.scroll_up,
            markers: copy_markers(&self.markers),
            conv_name: copy_opt(&self.conv_name),
        }
    }

    /// A tab with nothing in it.
    pub fn empty() -> (t: Tab)
        ensures
            t@ == empty_tab(),
    {
        let t = Tab {
            active_model: None,
            turns: Vec::new(),
            carried_cached: 0,
            input: String::new(),
            status: String::new(),
            input_history: Vec::new(),
            history_pos: None,
            scroll_up: 0,
            markers: Vec::new(),
            conv_name: None,
        };
        assert(turns_view(t.turns@) =~= Seq::empty());
        assert(strings_view(t.input_history@) =~= Seq::empty());
        assert(markers_view(t.markers@) =~= Seq::empty());
        t
    }
}

impl Default for Tab {
    fn default() -> (t: Self)
        ensures
            t@ == empty_tab(),
    {
        Tab::empty()
    }
}

/// A one-line summary of a tab for the tab bar.
pub struct TabSummary {
    pub label: String,
    pub active: bool,
}

/// Which view is currently on screen.
#[derive(PartialEq, Eq, Structural, Clone, Copy, Debug)]
pub enum Screen {
    ModelSelect,
    CustomModel,
    Start,
    Chat,
    SaveName,
    /// Confirming deletion of the highlighted saved conversation.
    ConfirmDelete,
}

/// An entry on the "Start" picker: a blank conversation, a built-in example,
/// or a previously saved conversation.
#[derive(Debug)]
pub enum StartItem {
    Blank,
    Example { name: String, turns: Vec<String> },
    Saved { name: String, model: ModelInfo, turns: Vec<String> },
}

/// What a start item is, as plain values.
pub enum StartRecord {
    Blank,
    Example { name: Seq<char>, turns: Seq<Seq<char>> },
    Saved { name: Seq<char>, model: ModelRecord, turns: Seq<Seq<char>> },
}

impl View for StartItem {
    type V = StartRecord;

    open spec fn view(&self) -> StartRecord {
        match self {
            StartItem::Blank => StartRecord::Blank,
            StartItem::Example { name, turns } => StartRecord::Example {
                name: name@,
                turns: strings_view(turns@),
            },
            StartItem::Saved { name, model, turns } => StartRecord::Saved {
                name: name@,
                model: model@,
                turns: strings_view(turns@),
            },
        }
    }
}

/// The number of fields in the custom-model form.
pub const FORM_FIELD_COUNT: usize = 5;

/// The whole application state apart from money amounts (the models'
/// prices), the custom-model form's text, and file paths, which the front
/// end holds alongside it.
pub struct App {
    pub screen: Screen,
    pub models: Vec<ModelInfo>,
    pub selected: usize,
    pub active_model: Option<usize>,
    // Chat state.
    pub turns: Vec<Turn>,
    pub carried_cached: u64,
    pub input: String,
    pub status: String,
    // Lines the user actually submitted, in order, for Up/Down recall. Unlike
    // `turns`, this keeps the line as typed (e.g. a `repeat N` directive)
    // and stores one entry per submission rather than per expanded turn.
    pub input_history: Vec<String>,
    // Which field of the custom-model form has the focus.
    pub form_field: usize,
    // Start picker state.
    pub start_items: Vec<StartItem>,
    pub start_selected: usize,
    // Save-as state.
    pub save_name: String,
    // Input-history cursor (Up/Down to recall previous turns).
    pub history_pos: Option<usize>,
    // How many lines the turn history is scrolled up from the bottom. 0 sticks
    // to the newest turn; mouse-wheel up increases it to reveal older turns.
    pub scroll_up: u16,
    // Positional markers in the active conversation (see `Tab::markers`).
    pub markers: Vec<Marker>,
    // Saved-conversation name backing the active tab (see `Tab::conv_name`).
    pub conv_name: Option<String>,
    // Max history scroll offset from the last render, so the scroll handlers
    // can clamp correctly against the real (marker-inclusive) line count.
    pub history_max_scroll: u16,
    // Open conversation tabs. The active tab's data lives in the fields above;
    // the others are stashed here. `active_tab` indexes into `tabs`.
    pub tabs: Vec<Tab>,
    pub active_tab: usize,
    pub should_quit: bool,
}

/// The application state as plain values.
pub struct AppView {
    pub screen: Screen,
    pub models: Seq<ModelRecord>,
    pub selected: usize,
    pub active_model: Option<usize>,
    pub turns: Seq<TurnRecord>,
    pub carried_cached: u64,
    pub input: Seq<char>,
    pub status: Seq<char>,
    pub input_history: Seq<Seq<char>>,
    pub form_field: usize,
    pub start_items: Seq<StartRecord>,
    pub start_selected: usize,
    pub save_name: Seq<char>,
    pub history_pos: Option<usize>,
    pub scroll_up: u16,
    pub markers: Seq<(usize, Seq<char>)>,
    pub conv_name: Option<Seq<char>>,
    pub history_max_scroll: u16,
    pub tabs: Seq<TabRecord>,
    pub active_tab: usize,
    pub should_quit: bool,
}

impl View for App {
    type V = AppView;

    open spec fn view(&self) -> AppView {
        AppView {
            screen: self.screen,
            models: self.models@.map_values(|m: ModelInfo| m@),
            selected: self.selected,
            active_model: self.active_model,
            turns: turns_view(self.turns@),
            carried_cached: self.carried_cached,
            input: self.input@,
            status: self.status@,
            input_history: strings_view(self.input_history@),
            form_field: self.form_field,
            start_items: self.start_items@.map_values(|s: StartItem| s@),
            start_selected: self.start_selected,
            save_name: self.save_name@,
            history_pos: self.history_pos,
            scroll_up: self.scroll_up,
            markers: markers_view(self.markers@),
            conv_name: opt_view(self.conv_name),
            history_max_scroll: self.history_max_scroll,
            tabs: self.tabs@.map_values(|t: Tab| t@),
            active_tab: self.active_tab,
            should_quit: self.should_quit,
        }
    }
}

impl AppView {
    /// The invariant the application state keeps: there is a model and a
    /// tab, the selections point at an entry, and every history cursor
    /// points into its history.
    pub open spec fn wf(self) -> bool {
        &&& 1 <= self.models.len() <= usize::MAX
        &&& self.selected < self.models.len()
        &&& self.start_items.len() <= usize::MAX
        &&& 1 <= self.tabs.len() <= usize::MAX
        &&& self.active_tab < self.tabs.len()
        &&& self.history_pos matches Some(p) ==> p < self.input_history.len()
        &&& forall|i: int| 0 <= i < self.tabs.len() ==> tab_cursor_ok(#[trigger] self.tabs[i])
        &&& self.start_selected == 0 || self.start_selected < self.start_items.len()
        &&& self.form_field < FORM_FIELD_COUNT
    }

    /// Whether the active model is one of the models.
    pub open spec fn has_model(self) -> bool {
        self.active_model matches Some(i) && i < self.models.len()
    }

    /// The live conversation, as a tab.
    pub open spec fn live_tab(self) -> TabRecord {
        TabRecord {
            active_model: self.active_model,
            turns: self.turns,
            carried_cached: self.carried_cached,
            input: self.input,
            status: self.status,
            input_history: self.input_history,
            history_pos: self.history_pos,
            scroll_up: self.scroll_up,
            markers: self.markers,
            conv_name: self.conv_name,
        }
    }

    /// Every open conversation in tab order, the active one read from the
    /// live fields.
    pub open spec fn conversations(self) -> Seq<TabRecord> {
        self.tabs.update(self.active_tab as int, self.live_tab())
    }

    /// The state with the live conversation emptied (what resetting the
    /// conversation leaves).
    pub open spec fn reset(self) -> AppView {
        AppView {
            turns: Seq::empty(),
            carried_cached: 0,
            input: Seq::empty(),
            input_history: Seq::empty(),
            history_pos: None,
            scroll_up: 0,
            markers: Seq::empty(),
            conv_name: None,
            ..self
        }
    }
}

/// How many times a parsed turn is billed.
pub open spec fn reps(p: ParsedTurn) -> nat {
    if p.repeat >= 1 {
        p.repeat as nat
    } else {
        1
    }
}

/// The cached tokens billed on the first repetition: the explicit override,
/// or what the conversation has carried over.
pub open spec fn first_cached(p: ParsedTurn, carried: u64) -> int {
    match p.cached_override {
        Some(c) => c as int,
        None => carried as int,
    }
}

/// What one repetition adds to the context: its input and its output.
pub open spec fn turn_load(p: ParsedTurn) -> int {
    p.input + p.output
}

/// The turns a parsed line bills: one per repetition, each re-caching
/// everything before it, so the `i`-th is billed `first_cached + i * load`
/// cached tokens.
pub open spec fn billed_turns(p: ParsedTurn, carried: u64, raw: Seq<char>, model: usize) -> Seq<
    TurnRecord,
> {
    Seq::new(
        reps(p),
        |i: int|
            TurnRecord {
                raw,
                cached: (first_cached(p, carried) + i * turn_load(p)) as u64,
                input: p.input,
                output: p.output,
                thinking: p.thinking,
                model,
            },
    )
}

/// The cache carried out of the billed turns: everything the last one held
/// in context (thinking excluded).
pub open spec fn carried_after(p: ParsedTurn, carried: u64) -> int {
    first_cached(p, carried) + reps(p) * turn_load(p)
}

/// What applying a raw turn line does.
pub enum TurnEffect {
    /// Nothing: the line is blank, has no token counts, or no model is chosen.
    Rejected,
    /// The line is a marker command with this label.
    MarkerOnly(Seq<char>),
    /// The line bills `parsed`, stored as `stored`, with an inline marker
    /// after it when `inline` is set.
    Billed { parsed: ParsedTurn, stored: Seq<char>, inline: Option<Seq<char>> },
}

/// What applying the raw line `raw` does, given whether a model is chosen.
pub open spec fn turn_effect(raw: Seq<char>, has_model: bool) -> TurnEffect {
    let t = trim(raw);
    if t.len() == 0 {
        TurnEffect::Rejected
    } else if marker_label_of(t) is Some {
        TurnEffect::MarkerOnly(marker_label_of(t)->0)
    } else {
        let (line, inline) = extract_inline_marker_of(t);
        if !has_model {
            TurnEffect::Rejected
        } else {
            match parse_result(line) {
                None => TurnEffect::Rejected,
                Some(p) => TurnEffect::Billed { parsed: p, stored: strip_repeat_of(line), inline },
            }
        }
    }
}

/// Whether applying `raw` keeps every count within a `u64`: the line's
/// totals, a turn's output plus thinking (what is billed at the output
/// rate), and the cache carried out of the last repetition.
pub open spec fn turn_fits(raw: Seq<char>, has_model: bool, carried: u64) -> bool {
    let t = trim(raw);
    let line = extract_inline_marker_of(t).0;
    t.len() == 0 || marker_label_of(t) is Some || !has_model || (parse_in_range(line) && match parse_result(line) {
        None => true,
        Some(p) => p.output + p.thinking <= u64::MAX && carried_after(p, carried) <= u64::MAX,
    })
}

/// The state after applying a raw turn line to `v` (see [`turn_effect`]).
pub open spec fn applied(v: AppView, raw: Seq<char>) -> AppView {
    match turn_effect(raw, v.has_model()) {
        TurnEffect::Rejected => v,
        TurnEffect::MarkerOnly(l) => AppView { markers: v.markers.push((v.turns.len() as usize, l)), ..v },
        TurnEffect::Billed { parsed, stored, inline } => {
            let turns = v.turns + billed_turns(parsed, v.carried_cached, stored, v.active_model->0);
            AppView {
                turns,
                carried_cached: carried_after(parsed, v.carried_cached) as u64,
                markers: match inline {
                    Some(l) => v.markers.push((turns.len() as usize, l)),
                    None => v.markers,
                },
                ..v
            }
        },
    }
}

/// The state a fresh application starts in.
pub open spec fn initial_app(models: Seq<ModelRecord>) -> AppView {
    AppView {
        screen: Screen::ModelSelect,
        models,
        selected: 0,
        active_model: None,
        turns: Seq::empty(),
        carried_cached: 0,
        input: Seq::empty(),
        status: Seq::empty(),
        input_history: Seq::empty(),
        form_field: 0,
        start_items: Seq::empty(),
        start_selected: 0,
        save_name: Seq::empty(),
        history_pos: None,
        scroll_up: 0,
        markers: Seq::empty(),
        conv_name: None,
        history_max_scroll: 0,
        tabs: seq![empty_tab()],
        active_tab: 0,
        should_quit: false,
    }
}

/// `first + i * load` grows with `i`.
proof fn lemma_cache_step(first: int, i: int, n: int, load: int)
    requires
        0 <= i < n,
        load >= 0,
    ensures
        first + i * load + load == first + (i + 1) * load,
        first + (i + 1) * load <= first + n * load,
{
    assert(first + i * load + load == first + (i + 1) * load) by (nonlinear_arith);
    assert((i + 1) * load <= n * load) by (nonlinear_arith)
        requires
            i + 1 <= n,
            load >= 0,
    ;
}

/// The cache carried out of applying `raw`: what the billed turns leave,
/// or the cache unchanged when nothing is billed.
pub open spec fn new_carried(raw: Seq<char>, has_model: bool, carried: u64) -> u64 {
    match turn_effect(raw, has_model) {
        TurnEffect::Billed { parsed, .. } => carried_after(parsed, carried) as u64,
        _ => carried,
    }
}

/// The cache carried after applying `raws` one after another.
pub open spec fn carried_replay(has_model: bool, carried: u64, raws: Seq<Seq<char>>) -> u64
    decreases raws.len(),
{
    if raws.len() == 0 {
        carried
    } else {
        new_carried(raws.last(), has_model, carried_replay(has_model, carried, raws.drop_last()))
    }
}

/// Whether applying `raws` one after another keeps every count within a
/// `u64` at each step.
pub open spec fn replay_fits(has_model: bool, carried: u64, raws: Seq<Seq<char>>) -> bool
    decreases raws.len(),
{
    raws.len() == 0 || (replay_fits(has_model, carried, raws.drop_last()) && turn_fits(
        raws.last(),
        has_model,
        carried_replay(has_model, carried, raws.drop_last()),
    ))
}

/// A replay that fits fits on every prefix.
proof fn lemma_replay_fits_prefix(has_model: bool, carried: u64, raws: Seq<Seq<char>>, i: int)
    requires
        0 <= i <= raws.len(),
        replay_fits(has_model, carried, raws),
    ensures
        replay_fits(has_model, carried, raws.take(i)),
    decreases raws.len(),
{
    if i == raws.len() {
        assert(raws.take(i) == raws);
    } else {
        assert(raws.drop_last().take(i) == raws.take(i));
        lemma_replay_fits_prefix(has_model, carried, raws.drop_last(), i);
    }
}

/// Checks that applying `raw` keeps every count within a `u64`, and if so
/// returns the cache carried out of it.
pub fn step_carried(raw: &str, has_model: bool, carried: u64) -> (r: Option<u64>)
    ensures
        r is Some <==> turn_fits(raw@, has_model, carried),
        r matches Some(c) ==> c == new_carried(raw@, has_model, carried),
{
    let chars = crate::text::chars_of(raw);
    let t = crate::text::trim_chars(&chars);
    if t.len() == 0 {
        return Some(carried);
    }
    let t_str = crate::text::string_of(&t);
    if marker_label(t_str.as_str()).is_some() {
        return Some(carried);
    }
    if !has_model {
        return Some(carried);
    }
    let (line, _) = extract_inline_marker(t_str.as_str());
    match parse_checked(line.as_str()) {
        Err(_) => None,
        Ok(None) => Some(carried),
        Ok(Some(p)) => {
            if p.output.checked_add(p.thinking).is_none() {
                return None;
            }
            let first: u64 = match p.cached_override {
                Some(c) => c,
                None => carried,
            };
            let n: u64 = if p.repeat >= 1 {
                p.repeat
            } else {
                1
            };
            let load64 = match p.input.checked_add(p.output) {
                Some(l) => l,
                None => {
                    assert(n * turn_load(p) >= turn_load(p)) by (nonlinear_arith)
                        requires
                            n >= 1,
                            turn_load(p) >= 0,
                    ;
                    return None;
                },
            };
            let load = load64 as u128;
            assert((n as u128) * load <= 0xffff_ffff_ffff_ffff * 0xffff_ffff_ffff_ffff)
                by (nonlinear_arith)
                requires
                    n <= 0xffff_ffff_ffff_ffff,
                    load <= 0xffff_ffff_ffff_ffff,
            ;
            let total: u128 = first as u128 + (n as u128) * load;
            if total <= 0xffff_ffff_ffff_ffff {
                Some(total as u64)
            } else {
                None
            }
        },
    }
}

/// Billing accumulates context: the first repetition is billed the explicit
/// cached override or the carried cache, each further repetition re-caches
/// the one before (its cached count is the previous cached, input and output
/// together), the cache carried out is the last repetition's cached, input
/// and output, and thinking tokens never enter it.
pub proof fn context_accumulates(p: ParsedTurn, carried: u64, raw: Seq<char>, model: usize)
    requires
        carried_after(p, carried) <= u64::MAX,
    ensures
        ({
            let b = billed_turns(p, carried, raw, model);
            &&& b.len() == reps(p) >= 1
            &&& b[0].cached == first_cached(p, carried)
            &&& forall|i: int|
                1 <= i < b.len() ==> #[trigger] b[i].cached == b[i - 1].cached + p.input
                    + p.output
            &&& carried_after(p, carried) == b[b.len() - 1].cached + p.input + p.output
            &&& carried_after(ParsedTurn { thinking: 0, ..p }, carried) == carried_after(p, carried)
        }),
{
    let b = billed_turns(p, carried, raw, model);
    let first = first_cached(p, carried);
    let load = turn_load(p);
    let n = reps(p) as int;
    assert(first + 0 * load == first) by (nonlinear_arith);
    assert forall|i: int| 1 <= i < b.len() implies #[trigger] b[i].cached == b[i - 1].cached
        + p.input + p.output by {
        lemma_cache_step(first, i - 1, n, load);
        assert(0 <= (i - 1) * load) by (nonlinear_arith)
            requires
                1 <= i,
                load >= 0,
        ;
        assert((i - 1) * load <= i * load) by (nonlinear_arith)
            requires
                load >= 0,
        ;
    }
    lemma_cache_step(first, n - 1, n, load);
}

impl App {
    pub fn new() -> (app: App)
        ensures
            app@ == initial_app(app@.models),
            app@.models.len() == 5,
            forall|i: int|
                0 <= i < 5 ==> #[trigger] app@.models[i] == (ModelRecord {
                    name: crate::model::default_model_names()[i],
                    context_window: 1_000_000,
                }),
            app@.wf(),
    {
        let models = default_models();
        let app = App {
            screen: Screen::ModelSelect,
            models,
            selected: 0,
            active_model: None,
            turns: Vec::new(),
            carried_cached: 0,
            input: String::new(),
            status: String::new(),
            input_history: Vec::new(),
            form_field: 0,
            start_items: Vec::new(),
            start_selected: 0,
            save_name: String::new(),
            history_pos: None,
            scroll_up: 0,
            markers: Vec::new(),
            conv_name: None,
            history_max_scroll: 0,
            tabs: vec![Tab::empty()],
            active_tab: 0,
            should_quit: false,
        };
        assert(turns_view(app.turns@) =~= Seq::empty());
        assert(strings_view(app.input_history@) =~= Seq::empty());
        assert(markers_view(app.markers@) =~= Seq::empty());
        assert(app@.start_items =~= Seq::empty());
        assert(app@.tabs =~= seq![empty_tab()]);
        app
    }

    /// The active model, if one is chosen.
    pub fn model(&self) -> (m: Option<&ModelInfo>)
        ensures
            match m {
                Some(m) => self@.has_model() && m@ == self@.models[self.active_model->0 as int],
                None => !self@.has_model(),
            },
    {
        match self.active_model {
            Some(i) => if i < self.models.len() {
                Some(&self.models[i])
            } else {
                None
            },
            None => None,
        }
    }

    /// Tokens currently occupying the context window — i.e. everything that
    /// carries into the next turn as cache.
    pub fn context_used(&self) -> (n: u64)
        ensures
            n == self.carried_cached,
    {
        self.carried_cached
    }

    /// The active model's maximum context window (0 if none selected).
    pub fn context_max(&self) -> (n: u64)
        ensures
            n == if self@.has_model() {
                self@.models[self.active_model->0 as int].context_window
            } else {
                0
            },
    {
        match self.model() {
            Some(m) => m.context_window,
            None => 0,
        }
    }

    /// Clear the conversation back to an empty state.
    fn reset_conversation(&mut self)
        ensures
            final(self)@ == old(self)@.reset(),
    {
        self.turns = Vec::new();
        self.carried_cached = 0;
        self.input = String::new();
        self.input_history = Vec::new();
        self.history_pos = None;
        self.scroll_up = 0;
        self.markers = Vec::new();
        self.conv_name = None;
        assert(turns_view(self.turns@) =~= Seq::empty());
        assert(strings_view(self.input_history@) =~= Seq::empty());
        assert(markers_view(self.markers@) =~= Seq::empty());
    }

    /// Whether applying `raw` keeps every count within a `u64` (see
    /// [`turn_fits`]); [`App::apply_turn`] asks for it.
    pub fn turn_fits(&self, raw: &str) -> (b: bool)
        ensures
            b == turn_fits(raw@, self@.has_model(), self.carried_cached),
    {
        step_carried(raw, self.model().is_some(), self.carried_cached).is_some()
    }

    /// Apply a raw turn description: parse it, bill it, and append it.
    /// Returns false if the line had no recognizable token counts.
    pub fn apply_turn(&mut self, raw: String) -> (r: bool)
        requires
            old(self)@.wf(),
            turn_fits(raw@, old(self)@.has_model(), old(self).carried_cached),
        ensures
            final(self)@ == applied(old(self)@, raw@),
            r == !(turn_effect(raw@, old(self)@.has_model()) is Rejected),
            final(self)@.wf(),
    {
        let ghost v0 = self@;
        let chars = crate::text::chars_of(raw.as_str());
        let t = crate::text::trim_chars(&chars);
        if t.len() == 0 {
            return false;
        }
        let t_str = crate::text::string_of(&t);
        // A marker is a positional annotation, not a billed turn. Recording it
        // here lets a replayed (loaded) conversation restore its markers too.
        if let Some(label) = marker_label(t_str.as_str()) {
            let after = self.turns.len();
            let ghost before = markers_view(self.markers@);
            self.markers.push(Marker { after, label });
            assert(markers_view(self.markers@) =~= before.push((after, label@)));
            return true;
        }
        // A marker may also ride inside a turn line (e.g. "300 prompt, 400 out,
        // marker: reviewed"). Strip it out before billing so the stored turn
        // stays a plain description, then drop the marker after the turn below.
        let (line, inline_marker) = extract_inline_marker(t_str.as_str());
        let model_idx = match self.active_model {
            Some(i) => if i < self.models.len() {
                i
            } else {
                return false;
            },
            None => {
                return false;
            },
        };
        let parsed = match parse(line.as_str()) {
            Some(p) => p,
            None => {
                return false;
            },
        };
        // Store each expanded turn as a single-turn line (without the `repeat`
        // directive) so saving/reloading doesn't re-multiply the repeats.
        let stored_raw = strip_repeat(line.as_str());
        let ghost bills = billed_turns(parsed, v0.carried_cached, stored_raw@, model_idx);
        let ghost first = first_cached(parsed, v0.carried_cached);
        let ghost load = turn_load(parsed);
        let n: u64 = if parsed.repeat >= 1 {
            parsed.repeat
        } else {
            1
        };
        // Apply the turn `repeat` times; each repetition re-caches the
        // previous one, so the cost grows as context accumulates.
        let mut i: u64 = 0;
        while i < n
            invariant
                i <= n,
                n == reps(parsed),
                v0.wf(),
                first + n * load <= u64::MAX,
                load == parsed.input + parsed.output,
                first == first_cached(parsed, v0.carried_cached),
                bills == billed_turns(parsed, v0.carried_cached, stored_raw@, model_idx),
                self@ == (AppView {
                    turns: v0.turns + bills.take(i as int),
                    carried_cached: self.carried_cached,
                    ..v0
                }),
                i == 0 ==> self.carried_cached == v0.carried_cached,
                i > 0 ==> self.carried_cached == first + i * load,
            decreases n - i,
        {
            // Cached tokens billed this turn: an explicit override (first
            // repetition only), or what the conversation has accumulated.
            let cached = match parsed.cached_override {
                Some(c) => if i == 0 {
                    c
                } else {
                    self.carried_cached
                },
                None => self.carried_cached,
            };
            proof {
                lemma_cache_step(first, i as int, n as int, load);
                assert(cached == first + i * load);
            }
            let turn = Turn {
                raw: stored_raw.clone(),
                cached,
                input: parsed.input,
                output: parsed.output,
                thinking: parsed.thinking,
                model: model_idx,
            };
            let ghost before = turns_view(self.turns@);
            self.turns.push(turn);
            assert(turns_view(self.turns@) =~= before.push(bills[i as int]));
            assert(bills.take(i + 1) =~= bills.take(i as int).push(bills[i as int]));
            // Everything this turn (prompt + tool inputs + outputs) plus what
            // was already cached now becomes cached input for the next turn.
            // Thinking tokens are excluded — they don't enter the context.
            self.carried_cached = cached + parsed.input + parsed.output;
            i += 1;
        }
        assert(bills.take(n as int) =~= bills);
        // Drop the inline marker (if any) after the turn(s) just billed.
        if let Some(label) = inline_marker {
            let after = self.turns.len();
            let ghost before = markers_view(self.markers@);
            self.markers.push(Marker { after, label });
            assert(markers_view(self.markers@) =~= before.push((after, label@)));
        }
        true
    }
}


/// The model selection moved up one, wrapping to the last.
pub open spec fn select_up_of(v: AppView) -> AppView {
    AppView {
        selected: if v.selected == 0 {
            if v.models.len() >= 1 {
                (v.models.len() - 1) as usize
            } else {
                0
            }
        } else {
            (v.selected - 1) as usize
        },
        ..v
    }
}

/// The model selection moved down one, wrapping to the first.
pub open spec fn select_down_of(v: AppView) -> AppView {
    AppView {
        selected: if v.selected + 1 >= v.models.len() {
            0
        } else {
            (v.selected + 1) as usize
        },
        ..v
    }
}

/// The start-picker selection moved up one (wrapping), status cleared.
pub open spec fn start_up_of(v: AppView) -> AppView {
    AppView {
        status: Seq::empty(),
        start_selected: if v.start_selected == 0 {
            if v.start_items.len() >= 1 {
                (v.start_items.len() - 1) as usize
            } else {
                0
            }
        } else {
            (v.start_selected - 1) as usize
        },
        ..v
    }
}

/// The start-picker selection moved down one (wrapping), status cleared.
pub open spec fn start_down_of(v: AppView) -> AppView {
    AppView {
        status: Seq::empty(),
        start_selected: if v.start_selected + 1 >= v.start_items.len() {
            0
        } else {
            (v.start_selected + 1) as usize
        },
        ..v
    }
}

/// The form focus moved to the next field (wrapping).
pub open spec fn form_next_of(v: AppView) -> AppView {
    AppView { form_field: ((v.form_field + 1) % (FORM_FIELD_COUNT as int)) as usize, ..v }
}

/// The form focus moved to the previous field (wrapping).
pub open spec fn form_prev_of(v: AppView) -> AppView {
    AppView {
        form_field: ((v.form_field + FORM_FIELD_COUNT - 1) % (FORM_FIELD_COUNT as int)) as usize,
        ..v
    }
}

/// The turn history scrolled one line toward older turns, capped at the
/// scrollable distance.
pub open spec fn scroll_up_of(v: AppView) -> AppView {
    AppView {
        scroll_up: if v.scroll_up + 1 <= v.history_max_scroll {
            (v.scroll_up + 1) as u16
        } else {
            v.history_max_scroll
        },
        ..v
    }
}

/// The turn history scrolled one line toward newer turns, stopping at the
/// newest.
pub open spec fn scroll_down_of(v: AppView) -> AppView {
    AppView {
        scroll_up: if v.scroll_up >= 1 {
            (v.scroll_up - 1) as u16
        } else {
            0
        },
        ..v
    }
}

/// Recalling the previous submitted line: the cursor moves to the newest
/// line from nothing, one line older otherwise (staying at the oldest),
/// and the input box takes that line.
pub open spec fn history_up_of(v: AppView) -> AppView {
    if v.input_history.len() == 0 {
        v
    } else {
        let pos: int = match v.history_pos {
            None => v.input_history.len() - 1,
            Some(p) => if p == 0 {
                0
            } else {
                p - 1
            },
        };
        AppView { history_pos: Some(pos as usize), input: v.input_history[pos], ..v }
    }
}

/// Moving toward more recent lines: the next line if there is one, else
/// the cursor is dropped and the input box cleared; nothing without a
/// cursor.
pub open spec fn history_down_of(v: AppView) -> AppView {
    match v.history_pos {
        Some(p) => if p + 1 < v.input_history.len() {
            AppView {
                history_pos: Some((p + 1) as usize),
                input: v.input_history[p + 1],
                ..v
            }
        } else {
            AppView { history_pos: None, input: Seq::empty(), ..v }
        },
        None => v,
    }
}

impl App {
    pub fn select_up(&mut self)
        requires
            old(self)@.wf(),
        ensures
            final(self)@ == select_up_of(old(self)@),
            final(self)@.wf(),
    {
        if self.selected == 0 {
            self.selected = self.models.len().saturating_sub(1);
        } else {
            self.selected -= 1;
        }
    }

    pub fn select_down(&mut self)
        requires
            old(self)@.wf(),
        ensures
            final(self)@ == select_down_of(old(self)@),
            final(self)@.wf(),
    {
        let n = self.models.len();
        if self.selected + 1 >= n {
            self.selected = 0;
        } else {
            self.selected += 1;
        }
    }

    /// Choose the highlighted model; the front end then opens the Start
    /// picker.
    pub fn choose_model(&mut self)
        ensures
            final(self)@ == (AppView { active_model: Some(old(self).selected), ..old(self)@ }),
    {
        self.active_model = Some(self.selected);
    }

    pub fn start_up(&mut self)
        requires
            old(self)@.wf(),
        ensures
            final(self)@ == start_up_of(old(self)@),
            final(self)@.wf(),
    {
        self.status = String::new();
        if self.start_selected == 0 {
            self.start_selected = self.start_items.len().saturating_sub(1);
        } else {
            self.start_selected -= 1;
        }
    }

    pub fn start_down(&mut self)
        requires
            old(self)@.wf(),
        ensures
            final(self)@ == start_down_of(old(self)@),
            final(self)@.wf(),
    {
        self.status = String::new();
        let n = self.start_items.len();
        if self.start_selected + 1 >= n {
            self.start_selected = 0;
        } else {
            self.start_selected += 1;
        }
    }

    /// Dismiss the deletion modal without deleting.
    pub fn cancel_delete(&mut self)
        ensures
            final(self)@ == (AppView { screen: Screen::Start, ..old(self)@ }),
    {
        self.screen = Screen::Start;
    }

    /// Open the custom-model form with the focus on its first field (the
    /// front end empties the fields' text).
    pub fn open_form(&mut self)
        ensures
            final(self)@ == (AppView { form_field: 0, screen: Screen::CustomModel, ..old(self)@ }),
    {
        self.form_field = 0;
        self.screen = Screen::CustomModel;
    }

    pub fn form_next(&mut self)
        requires
            old(self)@.wf(),
        ensures
            final(self)@ == form_next_of(old(self)@),
            final(self)@.wf(),
    {
        self.form_field = (self.form_field + 1) % FORM_FIELD_COUNT;
    }

    pub fn form_prev(&mut self)
        requires
            old(self)@.wf(),
        ensures
            final(self)@ == form_prev_of(old(self)@),
            final(self)@.wf(),
    {
        self.form_field = (self.form_field + FORM_FIELD_COUNT - 1) % FORM_FIELD_COUNT;
    }

    /// Recall an older submitted line into the input box (Up arrow). Cycles
    /// over the lines as typed, so a `repeat N` directive is preserved and a
    /// repeated turn is recalled once, not once per expanded turn.
    pub fn history_up(&mut self)
        requires
            old(self)@.wf(),
        ensures
            final(self)@ == history_up_of(old(self)@),
            final(self)@.wf(),
    {
        if self.input_history.len() == 0 {
            return;
        }
        let pos = match self.history_pos {
            None => self.input_history.len() - 1,
            Some(p) => if p == 0 {
                0
            } else {
                p - 1
            },
        };
        self.history_pos = Some(pos);
        self.input = self.input_history[pos].clone();
    }

    /// Move toward more recent lines, clearing past the newest (Down arrow).
    pub fn history_down(&mut self)
        requires
            old(self)@.wf(),
        ensures
            final(self)@ == history_down_of(old(self)@),
            final(self)@.wf(),
    {
        match self.history_pos {
            Some(p) => {
                let n = self.input_history.len();
                if p + 1 < n {
                    self.history_pos = Some(p + 1);
                    self.input = self.input_history[p + 1].clone();
                } else {
                    self.history_pos = None;
                    self.input = String::new();
                }
            },
            None => {},
        }
    }

    /// Called when the user edits the input directly — drop the history cursor.
    pub fn on_input_edit(&mut self)
        requires
            old(self)@.wf(),
        ensures
            final(self)@ == (AppView { history_pos: None, ..old(self)@ }),
            final(self)@.wf(),
    {
        self.history_pos = None;
    }

    /// Scroll the turn history up toward older turns (mouse wheel up).
    pub fn scroll_history_up(&mut self)
        requires
            old(self).scroll_up < u16::MAX,
        ensures
            final(self)@ == scroll_up_of(old(self)@),
    {
        // Cap at the real scrollable distance from the last render, which
        // accounts for marker lines and any wrapping.
        let max = self.history_max_scroll;
        let next = self.scroll_up + 1;
        self.scroll_up = if next <= max {
            next
        } else {
            max
        };
    }

    /// Scroll the turn history down toward newer turns (mouse wheel down).
    pub fn scroll_history_down(&mut self)
        ensures
            final(self)@ == scroll_down_of(old(self)@),
    {
        self.scroll_up = self.scroll_up.saturating_sub(1);
    }
}

/// Moving the model selection up and then down comes back to where it was.
pub proof fn select_up_then_down(v: AppView)
    requires
        v.wf(),
    ensures
        select_down_of(select_up_of(v)) == v,
{
    assert(select_down_of(select_up_of(v)).selected == v.selected);
}

/// Moving the model selection down and then up comes back to where it was.
pub proof fn select_down_then_up(v: AppView)
    requires
        v.wf(),
    ensures
        select_up_of(select_down_of(v)) == v,
{
    assert(select_up_of(select_down_of(v)).selected == v.selected);
}

/// Moving the start-picker selection up and then down comes back to the
/// same entry (with the status line cleared).
pub proof fn start_up_then_down(v: AppView)
    requires
        v.wf(),
        v.start_items.len() >= 1,
    ensures
        start_down_of(start_up_of(v)) == (AppView { status: Seq::empty(), ..v }),
{
    assert(start_down_of(start_up_of(v)).start_selected == v.start_selected);
}

/// Moving the form focus forward and then back comes back to the same field.
pub proof fn form_next_then_prev(v: AppView)
    requires
        v.wf(),
    ensures
        form_prev_of(form_next_of(v)) == v,
{
}

/// Scrolling one line up and then one down comes back to the same offset
/// whenever the scroll was not already at its cap.
pub proof fn scroll_up_then_down(v: AppView)
    requires
        v.scroll_up < v.history_max_scroll,
    ensures
        scroll_down_of(scroll_up_of(v)) == v,
{
}


impl AppView {
    /// The state with the live conversation fields taken from `t`.
    pub open spec fn with_live(self, t: TabRecord) -> AppView {
        AppView {
            active_model: t.active_model,
            turns: t.turns,
            carried_cached: t.carried_cached,
            input: t.input,
            status: t.status,
            input_history: t.input_history,
            history_pos: t.history_pos,
            scroll_up: t.scroll_up,
            markers: t.markers,
            conv_name: t.conv_name,
            ..self
        }
    }

    /// The state after switching to tab `i`: nothing when `i` is the active
    /// tab or out of range; otherwise the live conversation is stashed in its
    /// slot, tab `i`'s is brought live, and the chat is shown.
    pub open spec fn switched_to(self, i: int) -> AppView {
        if i == self.active_tab || i >= self.tabs.len() || i < 0 {
            self
        } else {
            let tabs = self.tabs.update(self.active_tab as int, self.live_tab());
            AppView { tabs, active_tab: i as usize, screen: Screen::Chat, ..self }.with_live(
                tabs[i],
            )
        }
    }
}

/// Switching tabs keeps every open conversation as it was: only which one
/// is live changes.
pub proof fn switching_keeps_conversations(v: AppView, i: int)
    requires
        v.wf(),
        0 <= i < v.tabs.len(),
    ensures
        v.switched_to(i).conversations() == v.conversations(),
        v.switched_to(i).active_tab == i,
        v.switched_to(i).wf(),
{
    let w = v.switched_to(i);
    if i != v.active_tab {
        let tabs = v.tabs.update(v.active_tab as int, v.live_tab());
        assert(w.live_tab() == tabs[i]);
        assert(w.conversations() =~= tabs);
        assert(tabs =~= v.conversations());
        assert forall|k: int| 0 <= k < w.tabs.len() implies tab_cursor_ok(#[trigger] w.tabs[k]) by {
            if k != v.active_tab {
                assert(w.tabs[k] == v.tabs[k]);
            }
        }
        assert(tab_cursor_ok(tabs[i]));
    } else {
        assert(v.conversations()[i] == v.live_tab());
        assert(v.conversations() =~= v.conversations());
    }
}

/// Moving to the next tab and back to the previous one returns to the same
/// tab, with every conversation as it was.
pub proof fn next_then_prev_tab(v: AppView)
    requires
        v.wf(),
        v.tabs.len() > 1,
    ensures
        ({
            let n = v.tabs.len() as int;
            let w = v.switched_to((v.active_tab + 1) % n);
            let u = w.switched_to((w.active_tab + n - 1) % n);
            &&& u.active_tab == v.active_tab
            &&& u.conversations() == v.conversations()
        }),
{
    let n = v.tabs.len() as int;
    let j = (v.active_tab + 1) % n;
    switching_keeps_conversations(v, j);
    let w = v.switched_to(j);
    let k = (w.active_tab + n - 1) % n;
    let a = v.active_tab as int;
    if a + 1 < n {
        assert(j == a + 1) by (nonlinear_arith)
            requires
                j == (a + 1) % n,
                0 <= a,
                a + 1 < n,
        ;
        assert(k == a) by (nonlinear_arith)
            requires
                k == (j + n - 1) % n,
                j == a + 1,
                0 <= a < n,
        ;
    } else {
        assert(j == 0) by (nonlinear_arith)
            requires
                j == (a + 1) % n,
                a + 1 == n,
                n > 0,
        ;
        assert(k == a) by (nonlinear_arith)
            requires
                k == (j + n - 1) % n,
                j == 0,
                a + 1 == n,
                n > 1,
        ;
    }
    switching_keeps_conversations(w, k);
}

impl App {
    /// Copy the live conversation fields into the active tab's slot.
    fn stash_active(&mut self)
        requires
            old(self)@.wf(),
        ensures
            final(self)@ == (AppView {
                tabs: old(self)@.tabs.update(old(self).active_tab as int, old(self)@.live_tab()),
                turns: Seq::empty(),
                input: Seq::empty(),
                status: Seq::empty(),
                input_history: Seq::empty(),
                markers: Seq::empty(),
                conv_name: None,
                ..old(self)@
            }),
    {
        let mut turns: Vec<Turn> = Vec::new();
        std::mem::swap(&mut turns, &mut self.turns);
        let mut input = String::new();
        std::mem::swap(&mut input, &mut self.input);
        let mut status = String::new();
        std::mem::swap(&mut status, &mut self.status);
        let mut input_history: Vec<String> = Vec::new();
        std::mem::swap(&mut input_history, &mut self.input_history);
        let mut markers: Vec<Marker> = Vec::new();
        std::mem::swap(&mut markers, &mut self.markers);
        let mut conv_name: Option<String> = None;
        std::mem::swap(&mut conv_name, &mut self.conv_name);
        let t = Tab {
            active_model: self.active_model,
            turns,
            carried_cached: self.carried_cached,
            input,
            status,
            input_history,
            history_pos: self.history_pos,
            scroll_up: self.scroll_up,
            markers,
            conv_name,
        };
        let ghost tabs0 = self.tabs@;
        self.tabs.set(self.active_tab, t);
        assert(self.tabs@.map_values(|t: Tab| t@) =~= tabs0.map_values(|t: Tab| t@).update(
            self.active_tab as int,
            t@,
        ));
        assert(turns_view(self.turns@) =~= Seq::empty());
        assert(strings_view(self.input_history@) =~= Seq::empty());
        assert(markers_view(self.markers@) =~= Seq::empty());
    }

    /// Load the active tab's stored state into the live conversation fields.
    fn restore_into_live(&mut self)
        requires
            old(self).active_tab < old(self).tabs@.len(),
        ensures
            final(self)@ == old(self)@.with_live(old(self)@.tabs[old(self).active_tab as int]),
    {
        let t = self.tabs[self.active_tab].duplicate();
        self.active_model = t.active_model;
        self.turns = t.turns;
        self.carried_cached = t.carried_cached;
        self.input = t.input;
        self.status = t.status;
        self.input_history = t.input_history;
        self.history_pos = t.history_pos;
        self.scroll_up = t.scroll_up;
        self.markers = t.markers;
        self.conv_name = t.conv_name;
    }

    /// Switch the active tab to index `i`, stashing the current one first.
    fn switch_to(&mut self, i: usize)
        requires
            old(self)@.wf(),
        ensures
            final(self)@ == old(self)@.switched_to(i as int),
    {
        if i == self.active_tab || i >= self.tabs.len() {
            return;
        }
        let ghost v = self@;
        self.stash_active();
        assert(self.tabs@.len() == self@.tabs.len());
        self.active_tab = i;
        self.restore_into_live();
        self.screen = Screen::Chat;
        assert(self@ == v.switched_to(i as int));
    }

    /// Move to the next tab (wraps around). No-op with a single tab.
    pub fn next_tab(&mut self)
        requires
            old(self)@.wf(),
        ensures
            old(self).tabs@.len() <= 1 ==> final(self)@ == old(self)@,
            old(self).tabs@.len() > 1 ==> final(self)@ == old(self)@.switched_to(
                (old(self).active_tab + 1) % (old(self).tabs@.len() as int),
            ),
            final(self)@.conversations() == old(self)@.conversations(),
            final(self)@.wf(),
    {
        if self.tabs.len() <= 1 {
            return;
        }
        proof {
            switching_keeps_conversations(self@, (self.active_tab + 1) % (self.tabs@.len() as int));
        }
        self.switch_to((self.active_tab + 1) % self.tabs.len());
    }

    /// Move to the previous tab (wraps around). No-op with a single tab.
    pub fn prev_tab(&mut self)
        requires
            old(self)@.wf(),
            old(self).active_tab + old(self).tabs@.len() <= usize::MAX,
        ensures
            old(self).tabs@.len() <= 1 ==> final(self)@ == old(self)@,
            old(self).tabs@.len() > 1 ==> final(self)@ == old(self)@.switched_to(
                (old(self).active_tab + old(self).tabs@.len() - 1) % (old(self).tabs@.len() as int),
            ),
            final(self)@.conversations() == old(self)@.conversations(),
            final(self)@.wf(),
    {
        if self.tabs.len() <= 1 {
            return;
        }
        let i = (self.active_tab + self.tabs.len() - 1) % self.tabs.len();
        proof {
            switching_keeps_conversations(self@, i as int);
        }
        self.switch_to(i);
    }

    /// Open a fresh tab and route to model selection to set it up.
    pub fn new_tab(&mut self)
        requires
            old(self)@.wf(),
            old(self).tabs@.len() < usize::MAX,
        ensures
            final(self)@.conversations() == old(self)@.conversations().push(empty_tab()),
            final(self)@.active_tab == old(self).tabs@.len(),
            final(self)@.screen == Screen::ModelSelect,
            final(self)@ == (AppView {
                tabs: final(self)@.tabs,
                active_tab: final(self)@.active_tab,
                screen: Screen::ModelSelect,
                ..old(self)@.with_live(empty_tab())
            }),
            final(self)@.wf(),
    {
        let ghost v = self@;
        self.stash_active();
        let ghost tabs1 = self@.tabs;
        self.tabs.push(Tab::default());
        assert(self@.tabs =~= tabs1.push(empty_tab()));
        self.active_tab = self.tabs.len() - 1;
        // Start the new tab from a clean slate.
        self.active_model = None;
        self.turns = Vec::new();
        self.carried_cached = 0;
        self.input = String::new();
        self.status = String::new();
        self.history_pos = None;
        self.scroll_up = 0;
        self.markers = Vec::new();
        self.conv_name = None;
        self.screen = Screen::ModelSelect;
        assert(turns_view(self.turns@) =~= Seq::empty());
        assert(markers_view(self.markers@) =~= Seq::empty());
        assert(self@.live_tab() =~= empty_tab());
        assert(self@.conversations() =~= v.conversations().push(empty_tab()));
        assert forall|k: int| 0 <= k < self@.tabs.len() implies tab_cursor_ok(
            #[trigger] self@.tabs[k],
        ) by {
            if k < v.tabs.len() && k != v.active_tab {
                assert(self@.tabs[k] == v.tabs[k]);
            }
        }
    }

    /// Close the active tab and activate a neighbour. Keeps the last tab.
    pub fn close_tab(&mut self)
        requires
            old(self)@.wf(),
        ensures
            old(self).tabs@.len() <= 1 ==> final(self)@ == (AppView {
                status: "Can't close the last tab."@,
                ..old(self)@
            }),
            old(self).tabs@.len() > 1 ==> {
                &&& final(self)@.conversations() == old(self)@.conversations().remove(
                    old(self).active_tab as int,
                )
                &&& final(self)@.active_tab == if old(self).active_tab + 1 < old(self).tabs@.len() {
                    old(self).active_tab as int
                } else {
                    old(self).tabs@.len() - 2
                }
                &&& final(self)@ == (AppView {
                    tabs: old(self)@.tabs.remove(old(self).active_tab as int),
                    active_tab: final(self)@.active_tab,
                    screen: Screen::Chat,
                    ..old(self)@
                }).with_live(final(self)@.tabs[final(self)@.active_tab as int])
            },
            final(self)@.wf(),
    {
        if self.tabs.len() <= 1 {
            self.status = "Can't close the last tab.".to_owned();
            return;
        }
        let ghost v = self@;
        let _closed = self.tabs.remove(self.active_tab);
        assert(self@.tabs =~= v.tabs.remove(v.active_tab as int));
        let n = self.tabs.len();
        assert(n == v.tabs.len() - 1);
        if self.active_tab >= n {
            self.active_tab = n - 1;
        }
        assert(self.active_tab < self.tabs@.len());
        self.restore_into_live();
        self.screen = Screen::Chat;
        let ghost w = self@;
        assert(w.conversations() =~= v.conversations().remove(v.active_tab as int)) by {
            assert forall|k: int| 0 <= k < w.tabs.len() implies w.conversations()[k]
                == v.conversations().remove(v.active_tab as int)[k] by {
                if k < v.active_tab {
                    assert(v.conversations()[k] == v.tabs[k]);
                } else {
                    assert(v.conversations()[k + 1] == v.tabs[k + 1]);
                }
            }
        }
        assert forall|k: int| 0 <= k < w.tabs.len() implies tab_cursor_ok(#[trigger] w.tabs[k]) by {
            if k < v.active_tab {
                assert(w.tabs[k] == v.tabs[k]);
            } else {
                assert(w.tabs[k] == v.tabs[k + 1]);
            }
        }
    }

    /// The turns belonging to tab `i`. The active tab's data lives in the
    /// live `turns` field rather than its `tabs` slot, so it's special-cased.
    pub fn tab_turns(&self, i: usize) -> (r: &[Turn])
        requires
            self@.wf(),
            i < self.tabs@.len(),
        ensures
            turns_view(r@) == self@.conversations()[i as int].turns,
    {
        assert(self@.tabs[i as int] == self.tabs@[i as int]@);
        if i == self.active_tab {
            assert(self@.conversations()[i as int] == self@.live_tab());
            self.turns.as_slice()
        } else {
            assert(self@.conversations()[i as int] == self@.tabs[i as int]);
            self.tabs[i].turns.as_slice()
        }
    }

    /// The model selected for tab `i` (active tab reads the live field).
    pub fn tab_model(&self, i: usize) -> (r: Option<&ModelInfo>)
        requires
            self@.wf(),
            i < self.tabs@.len(),
        ensures
            ({
                let idx = self@.conversations()[i as int].active_model;
                match r {
                    Some(m) => idx matches Some(j) && j < self@.models.len() && m@ == self@.models[j as int],
                    None => !(idx matches Some(j) && j < self@.models.len()),
                }
            }),
    {
        assert(self@.tabs[i as int] == self.tabs@[i as int]@);
        if i == self.active_tab {
            assert(self@.conversations()[i as int] == self@.live_tab());
        } else {
            assert(self@.conversations()[i as int] == self@.tabs[i as int]);
        }
        let idx = if i == self.active_tab {
            self.active_model
        } else {
            self.tabs[i].active_model
        };
        match idx {
            Some(m) => if m < self.models.len() {
                Some(&self.models[m])
            } else {
                None
            },
            None => None,
        }
    }
}


/// What submitting the input box did.
#[derive(PartialEq, Eq, Structural, Clone, Copy, Debug)]
pub enum Submitted {
    /// The input was blank.
    Nothing,
    /// The input was `clear`: the conversation was wiped.
    Cleared,
    /// The input was a marker command: a marker was placed.
    Marker,
    /// The input had no token counts (or no model is chosen).
    NoCounts,
    /// The input billed this many turns.
    Billed(usize),
}

/// The word `clear`.
pub open spec fn clear_word() -> Seq<char> {
    seq!['c', 'l', 'e', 'a', 'r']
}

/// The status line after placing a marker after `after` turns.
pub open spec fn marker_status_of(label: Seq<char>, after: nat) -> Seq<char> {
    if label.len() == 0 {
        "Marker placed after turn "@ + decimal(after) + "."@
    } else {
        "Marker '"@ + label + "' placed after turn "@ + decimal(after) + "."@
    }
}

/// The status line after billing several turns.
pub open spec fn added_status_of(added: nat, cached: nat) -> Seq<char> {
    "Added "@ + decimal(added) + " turns. "@ + decimal(cached) + " tokens now cached."@
}

/// The status line after loading a conversation of `n` turns.
pub open spec fn loaded_status_of(n: nat) -> Seq<char> {
    "Loaded "@ + decimal(n) + " turns. Continue typing to add more."@
}

/// `v` with `line` recorded for Up/Down recall, unless it repeats the last
/// recorded line.
pub open spec fn with_history(v: AppView, line: Seq<char>) -> AppView {
    if v.input_history.len() > 0 && v.input_history.last() == line {
        v
    } else {
        AppView { input_history: v.input_history.push(line), ..v }
    }
}

/// What submitting the input box does to the state.
pub open spec fn submitted_of(v: AppView) -> AppView {
    let t = trim(v.input);
    let h = with_history(v, t);
    if t.len() == 0 {
        v
    } else if eq_ignore_ascii_case(t, clear_word()) {
        AppView { status: "Conversation cleared."@, ..h.reset() }
    } else if marker_label_of(t) is Some {
        let l = marker_label_of(t)->0;
        AppView {
            markers: h.markers.push((v.turns.len() as usize, l)),
            input: Seq::empty(),
            history_pos: None,
            status: marker_status_of(l, v.turns.len()),
            ..h
        }
    } else if turn_effect(v.input, v.has_model()) is Rejected {
        AppView { status: "Couldn't find any token counts in that line."@, ..h }
    } else {
        let a = applied(h, v.input);
        let added = a.turns.len() - v.turns.len();
        AppView {
            input: Seq::empty(),
            history_pos: None,
            scroll_up: 0,
            status: if added > 1 {
                added_status_of(added as nat, a.carried_cached as nat)
            } else {
                a.status
            },
            ..a
        }
    }
}

/// What submitting the input box reports.
pub open spec fn submit_outcome(v: AppView) -> Submitted {
    let t = trim(v.input);
    if t.len() == 0 {
        Submitted::Nothing
    } else if eq_ignore_ascii_case(t, clear_word()) {
        Submitted::Cleared
    } else if marker_label_of(t) is Some {
        Submitted::Marker
    } else if turn_effect(v.input, v.has_model()) is Rejected {
        Submitted::NoCounts
    } else {
        Submitted::Billed((applied(v, v.input).turns.len() - v.turns.len()) as usize)
    }
}

/// One loaded line: recorded for recall when it is not blank, then applied.
#[verifier::opaque]
pub open spec fn load_step(v: AppView, raw: Seq<char>) -> AppView {
    let t = trim(raw);
    let h = if t.len() > 0 {
        with_history(v, t)
    } else {
        v
    };
    applied(h, raw)
}

/// The lines of a conversation loaded one after another.
pub open spec fn load_fold(v: AppView, raws: Seq<Seq<char>>) -> AppView
    decreases raws.len(),
{
    if raws.len() == 0 {
        v
    } else {
        load_step(load_fold(v, raws.drop_last()), raws.last())
    }
}

/// A fresh conversation with `raws` loaded into it, shown in the chat.
pub open spec fn loaded_of(v: AppView, raws: Seq<Seq<char>>) -> AppView {
    AppView {
        status: loaded_status_of(load_fold(v.reset(), raws).turns.len()),
        screen: Screen::Chat,
        ..load_fold(v.reset(), raws)
    }
}

/// The raw lines of the markers placed after `pos` turns, in order.
pub open spec fn marker_lines_at(ms: Seq<(usize, Seq<char>)>, pos: int) -> Seq<Seq<char>>
    decreases ms.len(),
{
    if ms.len() == 0 {
        Seq::empty()
    } else {
        let prev = marker_lines_at(ms.drop_last(), pos);
        if ms.last().0 == pos {
            prev.push(marker_raw_of(ms.last().1))
        } else {
            prev
        }
    }
}

/// The first `k` turns' raw lines, each preceded by the markers placed just
/// before it.
pub open spec fn woven(turns: Seq<TurnRecord>, ms: Seq<(usize, Seq<char>)>, k: int) -> Seq<
    Seq<char>,
>
    decreases k,
{
    if k <= 0 {
        Seq::empty()
    } else {
        woven(turns, ms, k - 1) + marker_lines_at(ms, k - 1) + seq![turns[k - 1].raw]
    }
}

/// The conversation as a flat list of raw lines: each turn's raw text with
/// `marker` lines woven in at their recorded positions.
pub open spec fn history_raws_of(v: AppView) -> Seq<Seq<char>> {
    woven(v.turns, v.markers, v.turns.len() as int) + marker_lines_at(v.markers, v.turns.len() as int)
}

/// Applying a line keeps the model choice and the recall history.
proof fn lemma_load_step_keeps(v: AppView, raw: Seq<char>)
    ensures
        load_step(v, raw).active_model == v.active_model,
        load_step(v, raw).models == v.models,
        load_step(v, raw).has_model() == v.has_model(),
        load_step(v, raw).carried_cached == new_carried(raw, v.has_model(), v.carried_cached),
{
    reveal(load_step);
}

/// Loading keeps the model choice, and carries the cache as a replay does.
pub(crate) proof fn lemma_load_fold_carried(v: AppView, raws: Seq<Seq<char>>)
    ensures
        load_fold(v, raws).has_model() == v.has_model(),
        load_fold(v, raws).active_model == v.active_model,
        load_fold(v, raws).models == v.models,
        load_fold(v, raws).carried_cached == carried_replay(v.has_model(), v.carried_cached, raws),
    decreases raws.len(),
{
    if raws.len() > 0 {
        lemma_load_fold_carried(v, raws.drop_last());
        lemma_load_step_keeps(load_fold(v, raws.drop_last()), raws.last());
    }
}

/// The status line after placing a marker.
fn marker_status(label: &str, after: usize) -> (s: String)
    ensures
        s@ == marker_status_of(label@, after as nat),
{
    let n = decimal_string(after as u64);
    if label.is_empty() {
        let a = concat("Marker placed after turn ", n.as_str());
        concat(a.as_str(), ".")
    } else {
        let a = concat("Marker '", label);
        let b = concat(a.as_str(), "' placed after turn ");
        let c = concat(b.as_str(), n.as_str());
        concat(c.as_str(), ".")
    }
}

/// The status line after billing several turns.
fn added_status(added: usize, cached: u64) -> (s: String)
    ensures
        s@ == added_status_of(added as nat, cached as nat),
{
    let a = concat("Added ", decimal_string(added as u64).as_str());
    let b = concat(a.as_str(), " turns. ");
    let c = concat(b.as_str(), decimal_string(cached).as_str());
    concat(c.as_str(), " tokens now cached.")
}

/// The status line after loading a conversation.
fn loaded_status(n: usize) -> (s: String)
    ensures
        s@ == loaded_status_of(n as nat),
{
    let a = concat("Loaded ", decimal_string(n as u64).as_str());
    concat(a.as_str(), " turns. Continue typing to add more.")
}

/// Whether applying `raws` one after another to a fresh conversation keeps
/// every count within a `u64`.
pub fn replay_ok(raws: &Vec<String>, has_model: bool) -> (b: bool)
    ensures
        b == replay_fits(has_model, 0, strings_view(raws@)),
{
    let ghost all = strings_view(raws@);
    let mut carried: u64 = 0;
    let mut i: usize = 0;
    assert(all.take(0) =~= Seq::<Seq<char>>::empty());
    while i < raws.len()
        invariant
            i <= raws@.len(),
            all == strings_view(raws@),
            replay_fits(has_model, 0, all.take(i as int)),
            carried == carried_replay(has_model, 0, all.take(i as int)),
        decreases raws@.len() - i,
    {
        assert(all.take(i + 1).drop_last() == all.take(i as int));
        assert(all.take(i + 1).last() == raws@[i as int]@);
        match step_carried(raws[i].as_str(), has_model, carried) {
            Some(c) => carried = c,
            None => {
                proof {
                    if replay_fits(has_model, 0, all) {
                        lemma_replay_fits_prefix(has_model, 0, all, i + 1);
                    }
                }
                return false;
            },
        }
        i += 1;
    }
    assert(all.take(raws@.len() as int) == all);
    true
}

impl App {
    /// Record a line for Up/Down recall, skipping a repeat of the last one.
    fn remember(&mut self, line: String)
        requires
            old(self)@.wf(),
        ensures
            final(self)@ == with_history(old(self)@, line@),
            final(self)@.wf(),
    {
        let n = self.input_history.len();
        let same = n > 0 && self.input_history[n - 1] == line;
        if !same {
            let ghost before = strings_view(self.input_history@);
            self.input_history.push(line);
            assert(strings_view(self.input_history@) =~= before.push(line@));
        }
    }

    /// Whether loading `raws` into a fresh conversation keeps every count
    /// within a `u64` (see [`replay_fits`]); [`App::load_turns`] asks for it.
    pub fn load_fits(&self, raws: &Vec<String>) -> (b: bool)
        ensures
            b == replay_fits(self@.has_model(), 0, strings_view(raws@)),
    {
        replay_ok(raws, self.model().is_some())
    }

    /// Submit the current input buffer as a turn.
    pub fn submit_turn(&mut self) -> (r: Submitted)
        requires
            old(self)@.wf(),
            turn_fits(old(self).input@, old(self)@.has_model(), old(self).carried_cached),
        ensures
            final(self)@ == submitted_of(old(self)@),
            r == submit_outcome(old(self)@),
            final(self)@.wf(),
    {
        let ghost v = self@;
        let chars = chars_of(self.input.as_str());
        let t = trim_chars(&chars);
        if t.len() == 0 {
            return Submitted::Nothing;
        }
        let trimmed = string_of(&t);
        // Record the line as typed for Up/Down recall, before it's parsed,
        // expanded, or cleared. Skip a run of identical lines so repeatedly
        // submitting the same turn doesn't clutter the recall list.
        self.remember(trimmed.clone());
        let ghost h = self@;
        // `clear` wipes the current conversation.
        let clear: [char; 5] = ['c', 'l', 'e', 'a', 'r'];
        assert(clear@ == clear_word());
        if same_ignoring_ascii_case(&t, &clear) {
            self.reset_conversation();
            self.status = "Conversation cleared.".to_owned();
            return Submitted::Cleared;
        }
        // `marker` (optionally `marker: text`) drops a marker at the current
        // point in the conversation. It isn't a turn and isn't billed.
        if let Some(label) = marker_label(trimmed.as_str()) {
            let after = self.turns.len();
            let status = marker_status(label.as_str(), after);
            let ghost before = markers_view(self.markers@);
            self.markers.push(Marker { after, label });
            assert(markers_view(self.markers@) =~= before.push((after, label@)));
            self.input = String::new();
            self.history_pos = None;
            self.status = status;
            return Submitted::Marker;
        }
        let before = self.turns.len();
        let raw = self.input.clone();
        if !self.apply_turn(raw) {
            self.status = "Couldn't find any token counts in that line.".to_owned();
            return Submitted::NoCounts;
        }
        assert(self@ == applied(h, v.input));
        let added = self.turns.len() - before;
        self.input = String::new();
        self.history_pos = None;
        // Jump back to the newest turn after sending.
        self.scroll_up = 0;
        if added > 1 {
            self.status = added_status(added, self.carried_cached);
        }
        Submitted::Billed(added)
    }

    /// Replay a list of raw turns into a fresh conversation, then open chat.
    pub fn load_turns(&mut self, raws: Vec<String>)
        requires
            old(self)@.wf(),
            replay_fits(old(self)@.has_model(), 0, strings_view(raws@)),
        ensures
            final(self)@ == loaded_of(old(self)@, strings_view(raws@)),
            final(self)@.wf(),
    {
        self.reset_conversation();
        let ghost u = self@;
        let ghost all = strings_view(raws@);
        let mut i: usize = 0;
        assert(all.take(0) =~= Seq::<Seq<char>>::empty());
        while i < raws.len()
            invariant
                i <= raws@.len(),
                all == strings_view(raws@),
                u.wf(),
                replay_fits(u.has_model(), 0, all),
                u.carried_cached == 0,
                self@ == load_fold(u, all.take(i as int)),
                self@.wf(),
            decreases raws@.len() - i,
        {
            let ghost prefix = all.take(i as int);
            assert(all.take(i + 1).drop_last() == prefix);
            assert(all.take(i + 1).last() == raws@[i as int]@);
            proof {
                lemma_replay_fits_prefix(u.has_model(), 0, all, i + 1);
                lemma_load_fold_carried(u, prefix);
                reveal(load_step);
            }
            let raw = raws[i].clone();
            // Make loaded lines recallable with Up/Down, skipping consecutive
            // duplicates as a live submission would.
            let chars = chars_of(raw.as_str());
            let t = trim_chars(&chars);
            if t.len() > 0 {
                self.remember(string_of(&t));
            }
            self.apply_turn(raw);
            i += 1;
        }
        assert(all.take(raws@.len() as int) == all);
        self.status = loaded_status(self.turns.len());
        self.screen = Screen::Chat;
    }

    /// The raw lines of the markers placed after `pos` turns.
    fn push_marker_lines(&self, out: &mut Vec<String>, pos: usize)
        ensures
            strings_view(final(out)@) == strings_view(old(out)@) + marker_lines_at(
                markers_view(self.markers@),
                pos as int,
            ),
    {
        let ghost base = strings_view(out@);
        let ghost ms = markers_view(self.markers@);
        let mut j: usize = 0;
        assert(ms.take(0) =~= Seq::<(usize, Seq<char>)>::empty());
        while j < self.markers.len()
            invariant
                j <= self.markers@.len(),
                ms == markers_view(self.markers@),
                strings_view(out@) == base + marker_lines_at(ms.take(j as int), pos as int),
            decreases self.markers@.len() - j,
        {
            assert(ms.take(j + 1).drop_last() == ms.take(j as int));
            assert(ms.take(j + 1).last() == self.markers@[j as int]@);
            let m = &self.markers[j];
            if m.after == pos {
                let line = marker_raw(m.label.as_str());
                let ghost before = strings_view(out@);
                out.push(line);
                assert(strings_view(out@) =~= before.push(line@));
            }
            j += 1;
        }
        assert(ms.take(self.markers@.len() as int) == ms);
    }

    /// The conversation as a flat list of raw lines for saving: each turn's
    /// raw text with `marker` lines woven in at their recorded positions. A
    /// marker placed after `k` turns lands between turn `k` and turn `k+1`.
    pub fn history_raws(&self) -> (r: Vec<String>)
        ensures
            strings_view(r@) == history_raws_of(self@),
    {
        let mut out: Vec<String> = Vec::new();
        let ghost ts = turns_view(self.turns@);
        let ghost ms = markers_view(self.markers@);
        let mut i: usize = 0;
        assert(strings_view(out@) =~= Seq::<Seq<char>>::empty());
        while i < self.turns.len()
            invariant
                i <= self.turns@.len(),
                ts == turns_view(self.turns@),
                ms == markers_view(self.markers@),
                strings_view(out@) == woven(ts, ms, i as int),
            decreases self.turns@.len() - i,
        {
            self.push_marker_lines(&mut out, i);
            let line = self.turns[i].raw.clone();
            let ghost before = strings_view(out@);
            out.push(line);
            assert(strings_view(out@) =~= before.push(line@));
            assert(ts[i as int].raw == line@);
            i += 1;
        }
        self.push_marker_lines(&mut out, self.turns.len());
        out
    }
}


/// The built-in example conversations: their names and turn lines.
pub open spec fn example_conversations_of() -> Seq<(Seq<char>, Seq<Seq<char>>)> {
    seq![
        ("Quick Q&A"@, seq![
            "200 prompt, 350 response"@,
            "150 prompt, 500 response"@,
            "120 prompt, 300 response"@,
        ]),
        ("Coding session with tools"@, seq![
            "400 prompt, 8000 tools, 1200 out"@,
            "300 prompt, 15000 tools, 2500 out"@,
            "250 prompt, 6000 tools, 1800 out"@,
        ]),
        ("Long agentic run"@, seq![
            "500 prompt, 20000 tools, 3000 out"@,
            "300 prompt, 30000 tools, 4000 out"@,
            "300 prompt, 45000 tools, 5000 out"@,
            "300 prompt, 60000 tools, 6000 out"@,
        ]),
    ]
}

/// An example conversation as plain values.
pub open spec fn example_view(e: (String, Vec<String>)) -> (Seq<char>, Seq<Seq<char>>) {
    (e.0@, strings_view(e.1@))
}

/// A list of owned strings from string literals.
fn owned_lines(lines: &[&str]) -> (v: Vec<String>)
    ensures
        strings_view(v@) == lines@.map_values(|l: &str| l@),
{
    let mut v: Vec<String> = Vec::new();
    let mut i: usize = 0;
    while i < lines.len()
        invariant
            i <= lines@.len(),
            strings_view(v@) == lines@.map_values(|l: &str| l@).take(i as int),
        decreases lines@.len() - i,
    {
        let s = lines[i].to_owned();
        let ghost before = strings_view(v@);
        v.push(s);
        assert(strings_view(v@) =~= before.push(lines@[i as int]@));
        assert(lines@.map_values(|l: &str| l@).take(i + 1) =~= lines@.map_values(|l: &str| l@).take(
            i as int,
        ).push(lines@[i as int]@));
        i += 1;
    }
    assert(lines@.map_values(|l: &str| l@).take(lines@.len() as int) == lines@.map_values(
        |l: &str| l@,
    ));
    v
}

/// Built-in example conversations the user can start from.
pub fn example_conversations() -> (r: Vec<(String, Vec<String>)>)
    ensures
        r@.map_values(|e: (String, Vec<String>)| example_view(e)) == example_conversations_of(),
{
    let la: [&str; 3] = [
        "200 prompt, 350 response",
        "150 prompt, 500 response",
        "120 prompt, 300 response",
    ];
    let lb: [&str; 3] = [
        "400 prompt, 8000 tools, 1200 out",
        "300 prompt, 15000 tools, 2500 out",
        "250 prompt, 6000 tools, 1800 out",
    ];
    let lc: [&str; 4] = [
        "500 prompt, 20000 tools, 3000 out",
        "300 prompt, 30000 tools, 4000 out",
        "300 prompt, 45000 tools, 5000 out",
        "300 prompt, 60000 tools, 6000 out",
    ];
    let a = owned_lines(&la);
    let b = owned_lines(&lb);
    let c = owned_lines(&lc);
    assert(la@.map_values(|l: &str| l@) =~= example_conversations_of()[0].1);
    assert(lb@.map_values(|l: &str| l@) =~= example_conversations_of()[1].1);
    assert(lc@.map_values(|l: &str| l@) =~= example_conversations_of()[2].1);
    let r = vec![
        ("Quick Q&A".to_owned(), a),
        ("Coding session with tools".to_owned(), b),
        ("Long agentic run".to_owned(), c),
    ];
    assert(r@.map_values(|e: (String, Vec<String>)| example_view(e)) =~= example_conversations_of());
    r
}

/// A saved conversation as a start item.
pub open spec fn saved_item(c: crate::storage::SavedRecord) -> StartRecord {
    StartRecord::Saved { name: c.name, model: c.model, turns: c.turns }
}

/// The start picker's entries: a blank conversation, the examples, then
/// the saved conversations.
pub open spec fn start_items_of(saved: Seq<crate::storage::SavedRecord>) -> Seq<StartRecord> {
    seq![StartRecord::Blank] + example_conversations_of().map_values(
        |e: (Seq<char>, Seq<Seq<char>>)| StartRecord::Example { name: e.0, turns: e.1 },
    ) + saved.map_values(|c: crate::storage::SavedRecord| saved_item(c))
}

/// The highlighted start entry, if the selection points at one.
pub open spec fn chosen_item(v: AppView) -> Option<StartRecord> {
    if v.start_selected < v.start_items.len() {
        Some(v.start_items[v.start_selected as int])
    } else {
        None
    }
}

/// Whether model `i` is the model `m`: the same name and context window,
/// and (by `same`, one flag per model) the same input, output and cached
/// prices.
pub open spec fn model_matches(ms: Seq<ModelRecord>, m: ModelRecord, same: Seq<bool>, i: int) -> bool {
    ms[i].name == m.name && ms[i].context_window == m.context_window && same[i]
}

/// The first model that is the model `m` (see [`model_matches`]); the
/// model count when there is none.
pub open spec fn model_slot(ms: Seq<ModelRecord>, m: ModelRecord, same: Seq<bool>) -> int {
    if exists|i: int| 0 <= i < ms.len() && model_matches(ms, m, same, i) {
        choose|i: int|
            0 <= i < ms.len() && model_matches(ms, m, same, i) && forall|j: int|
                0 <= j < i ==> !model_matches(ms, m, same, j)
    } else {
        ms.len() as int
    }
}

/// Whether loading the highlighted start entry keeps every count within a
/// `u64`.
pub open spec fn start_choice_fits(v: AppView) -> bool {
    match chosen_item(v) {
        Some(StartRecord::Example { turns, .. }) => replay_fits(v.has_model(), 0, turns),
        Some(StartRecord::Saved { turns, .. }) => replay_fits(true, 0, turns),
        _ => true,
    }
}

/// What choosing the highlighted start entry does, given which models have
/// the same three prices as a saved entry's model: a blank entry opens an
/// empty chat; an example is loaded; a saved conversation brings its model
/// back whole (reusing a model only when its name, context window and
/// prices all match, registering the saved model otherwise), is loaded,
/// and remembers its name.
pub open spec fn start_chosen(v: AppView, same: Seq<bool>) -> AppView {
    match chosen_item(v) {
        None => v,
        Some(StartRecord::Blank) => AppView {
            status: "New conversation. Describe a turn and press Enter."@,
            screen: Screen::Chat,
            ..v.reset()
        },
        Some(StartRecord::Example { turns, .. }) => loaded_of(v, turns),
        Some(StartRecord::Saved { name, model, turns }) => {
            let slot = model_slot(v.models, model, same);
            let models = if slot < v.models.len() {
                v.models
            } else {
                v.models.push(model)
            };
            let w = AppView {
                models,
                active_model: Some(slot as usize),
                selected: slot as usize,
                ..v
            };
            AppView { conv_name: Some(name), ..loaded_of(w, turns) }
        },
    }
}

/// Token totals over a list of turns: cached, input, output, thinking.
pub open spec fn token_totals(ts: Seq<TurnRecord>) -> (nat, nat, nat, nat)
    decreases ts.len(),
{
    if ts.len() == 0 {
        (0, 0, 0, 0)
    } else {
        let (c, i, o, th) = token_totals(ts.drop_last());
        let t = ts.last();
        (c + t.cached as nat, i + t.input as nat, o + t.output as nat, th + t.thinking as nat)
    }
}

/// Whether the token totals of a list of turns fit in `u64`s.
pub open spec fn totals_in_range(ts: Seq<TurnRecord>) -> bool {
    let (c, i, o, th) = token_totals(ts);
    c <= u64::MAX && i <= u64::MAX && o <= u64::MAX && th <= u64::MAX
}

/// Totals over a prefix are at most totals over the whole list.
proof fn lemma_totals_prefix(ts: Seq<TurnRecord>, k: int)
    requires
        0 <= k <= ts.len(),
    ensures
        token_totals(ts.take(k)).0 <= token_totals(ts).0,
        token_totals(ts.take(k)).1 <= token_totals(ts).1,
        token_totals(ts.take(k)).2 <= token_totals(ts).2,
        token_totals(ts.take(k)).3 <= token_totals(ts).3,
    decreases ts.len(),
{
    if k == ts.len() {
        assert(ts.take(k) == ts);
    } else {
        assert(ts.drop_last().take(k) == ts.take(k));
        lemma_totals_prefix(ts.drop_last(), k);
    }
}

/// The number of turn lines among saved lines (marker lines excluded).
pub open spec fn count_turn_lines(lines: Seq<Seq<char>>) -> nat
    decreases lines.len(),
{
    if lines.len() == 0 {
        0
    } else {
        count_turn_lines(lines.drop_last()) + if marker_label_of(lines.last()) is None {
            1nat
        } else {
            0nat
        }
    }
}

/// The label a start entry is listed under.
pub open spec fn start_label_of(item: StartRecord) -> Seq<char> {
    match item {
        StartRecord::Blank => "Blank conversation"@,
        StartRecord::Example { name, turns } => "Example: "@ + name + "  ("@ + decimal(
            turns.len(),
        ) + " turns)"@,
        StartRecord::Saved { name, model, turns } => "Saved: "@ + name + "  — "@ + model.name
            + " ("@ + decimal(count_turn_lines(turns)) + " turns)"@,
    }
}

impl StartItem {
    /// The label this entry is listed under; markers saved as lines are not
    /// counted as turns.
    pub fn label(&self) -> (s: String)
        ensures
            s@ == start_label_of(self@),
    {
        match self {
            StartItem::Blank => "Blank conversation".to_owned(),
            StartItem::Example { name, turns } => {
                let a = concat("Example: ", name.as_str());
                let b = concat(a.as_str(), "  (");
                let c = concat(b.as_str(), decimal_string(turns.len() as u64).as_str());
                concat(c.as_str(), " turns)")
            },
            StartItem::Saved { name, model, turns } => {
                // Markers are saved as turn lines too; don't count them.
                let ghost all = strings_view(turns@);
                let mut n: usize = 0;
                let mut i: usize = 0;
                assert(all.take(0) =~= Seq::<Seq<char>>::empty());
                while i < turns.len()
                    invariant
                        i <= turns@.len(),
                        all == strings_view(turns@),
                        n == count_turn_lines(all.take(i as int)),
                        n <= i,
                    decreases turns@.len() - i,
                {
                    assert(all.take(i + 1).drop_last() == all.take(i as int));
                    assert(all.take(i + 1).last() == turns@[i as int]@);
                    if marker_label(turns[i].as_str()).is_none() {
                        n += 1;
                    }
                    i += 1;
                }
                assert(all.take(turns@.len() as int) == all);
                let a = concat("Saved: ", name.as_str());
                let b = concat(a.as_str(), "  — ");
                let c = concat(b.as_str(), model.name.as_str());
                let d = concat(c.as_str(), " (");
                let e = concat(d.as_str(), decimal_string(n as u64).as_str());
                concat(e.as_str(), " turns)")
            },
        }
    }
}

impl App {
    /// Build the list of start options (blank + examples + saved
    /// conversations, as listed from disk by the caller) and open the picker.
    pub fn open_start(&mut self, saved: Vec<SavedConversation>)
        requires
            old(self)@.wf(),
        ensures
            final(self)@ == (AppView {
                start_items: start_items_of(saved@.map_values(|c: SavedConversation| c@)),
                start_selected: 0,
                screen: Screen::Start,
                ..old(self)@
            }),
            final(self)@.wf(),
    {
        let mut items: Vec<StartItem> = vec![StartItem::Blank];
        let examples = example_conversations();
        let ghost ex = example_conversations_of();
        let mut k: usize = 0;
        let ghost target = start_items_of(saved@.map_values(|c: SavedConversation| c@));
        while k < examples.len()
            invariant
                k <= examples@.len(),
                examples@.map_values(|e: (String, Vec<String>)| example_view(e)) == ex,
                ex == example_conversations_of(),
                items@.map_values(|s: StartItem| s@) == seq![StartRecord::Blank] + ex.take(
                    k as int,
                ).map_values(
                    |e: (Seq<char>, Seq<Seq<char>>)| StartRecord::Example { name: e.0, turns: e.1 },
                ),
            decreases examples@.len() - k,
        {
            let name = examples[k].0.clone();
            let turns = copy_strings(&examples[k].1);
            let ghost before = items@.map_values(|s: StartItem| s@);
            let item = StartItem::Example { name, turns };
            items.push(item);
            assert(ex[k as int] == example_view(examples@[k as int]));
            assert(items@.map_values(|s: StartItem| s@) =~= before.push(item@));
            assert(ex.take(k + 1) =~= ex.take(k as int).push(ex[k as int]));
            k += 1;
        }
        assert(ex.take(3) =~= ex);
        let mut saved = saved;
        let ghost sv = saved@.map_values(|c: SavedConversation| c@);
        let ghost base = items@.map_values(|s: StartItem| s@);
        let mut j: usize = 0;
        let n = saved.len();
        let mut rest: Vec<SavedConversation> = Vec::new();
        std::mem::swap(&mut rest, &mut saved);
        let mut reversed: Vec<SavedConversation> = Vec::new();
        while rest.len() > 0
            invariant
                reversed@.len() + rest@.len() == n,
                n == sv.len(),
                forall|q: int| 0 <= q < rest@.len() ==> #[trigger] rest@[q]@ == sv[q],
                forall|q: int|
                    0 <= q < reversed@.len() ==> #[trigger] reversed@[q]@ == sv[n - 1 - q],
            decreases rest@.len(),
        {
            let ghost rl = rest@.len();
            let c = rest.pop().unwrap();
            let ghost before = reversed@;
            reversed.push(c);
            assert(reversed@[reversed@.len() - 1]@ == sv[rl - 1]);
        }
        while reversed.len() > 0
            invariant
                reversed@.len() + j == n,
                n == sv.len(),
                forall|q: int|
                    0 <= q < reversed@.len() ==> #[trigger] reversed@[q]@ == sv[n - 1 - q],
                items@.map_values(|s: StartItem| s@) == base + sv.take(j as int).map_values(
                    |c: crate::storage::SavedRecord| saved_item(c),
                ),
            decreases reversed@.len(),
        {
            let ghost rl = reversed@.len();
            let c = reversed.pop().unwrap();
            assert(c@ == sv[j as int]);
            let ghost before = items@.map_values(|s: StartItem| s@);
            let item = StartItem::Saved { name: c.name, model: c.model, turns: c.turns };
            assert(item@ == saved_item(sv[j as int]));
            items.push(item);
            assert(items@.map_values(|s: StartItem| s@) =~= before.push(saved_item(sv[j as int])));
            assert(sv.take(j + 1) =~= sv.take(j as int).push(sv[j as int]));
            j += 1;
        }
        assert(sv.take(n as int) =~= sv);
        assert(items@.map_values(|s: StartItem| s@) =~= target);
        let count = items.len();
        self.start_items = items;
        assert(self.start_items@.len() == count);
        self.start_selected = 0;
        self.screen = Screen::Start;
    }
}


/// The first matching model is the slot.
proof fn lemma_model_slot_found(ms: Seq<ModelRecord>, name: ModelRecord, same: Seq<bool>, i: int)
    requires
        0 <= i < ms.len(),
        model_matches(ms, name, same, i),
        forall|j: int| 0 <= j < i ==> !model_matches(ms, name, same, j),
    ensures
        model_slot(ms, name, same) == i,
{
    let c = model_slot(ms, name, same);
    assert(0 <= c < ms.len() && model_matches(ms, name, same, c) && forall|j: int|
        0 <= j < c ==> !model_matches(ms, name, same, j));
    if c < i {
        assert(!model_matches(ms, name, same, c));
    } else if c > i {
        assert(!model_matches(ms, name, same, i));
    }
}

/// Without a matching model the slot is one past the last model.
proof fn lemma_model_slot_none(ms: Seq<ModelRecord>, name: ModelRecord, same: Seq<bool>)
    requires
        forall|j: int| 0 <= j < ms.len() ==> !model_matches(ms, name, same, j),
    ensures
        model_slot(ms, name, same) == ms.len(),
{
}

/// What opening the save prompt does: with no turns it only says so;
/// otherwise the prompt is filled with the name the conversation was loaded
/// or last saved under, else "<model> conversation", else "conversation".
pub open spec fn open_save_of(v: AppView) -> AppView {
    if v.turns.len() == 0 {
        AppView { status: "Nothing to save yet."@, ..v }
    } else {
        AppView {
            save_name: match v.conv_name {
                Some(n) => n,
                None => if v.has_model() {
                    v.models[v.active_model->0 as int].name + " conversation"@
                } else {
                    "conversation"@
                },
            },
            screen: Screen::SaveName,
            ..v
        }
    }
}

impl StartItem {
    /// An exact copy of this entry.
    pub fn duplicate(&self) -> (r: StartItem)
        ensures
            r@ == self@,
    {
        match self {
            StartItem::Blank => StartItem::Blank,
            StartItem::Example { name, turns } => StartItem::Example {
                name: name.clone(),
                turns: copy_strings(turns),
            },
            StartItem::Saved { name, model, turns } => StartItem::Saved {
                name: name.clone(),
                model: model.duplicate(),
                turns: copy_strings(turns),
            },
        }
    }
}

impl App {
    /// Whether loading the highlighted start entry keeps every count within
    /// a `u64` (see [`start_choice_fits`]); [`App::start_choose`] asks for it.
    pub fn start_choice_fits(&self) -> (b: bool)
        ensures
            b == start_choice_fits(self@),
    {
        if self.start_selected >= self.start_items.len() {
            return true;
        }
        assert(self@.start_items[self.start_selected as int] == self.start_items@[self.start_selected as int]@);
        match &self.start_items[self.start_selected] {
            StartItem::Blank => true,
            StartItem::Example { turns, .. } => self.load_fits(turns),
            // A saved conversation always brings its own model.
            StartItem::Saved { turns, .. } => replay_ok(turns, true),
        }
    }

    /// Act on the highlighted start option (see [`start_chosen`]).
    /// `same_prices[i]` tells whether model `i` has the same input, output
    /// and cached prices as the highlighted saved conversation's model
    /// (prices are money amounts the caller holds).
    pub fn start_choose(&mut self, same_prices: &Vec<bool>)
        requires
            old(self)@.wf(),
            start_choice_fits(old(self)@),
            same_prices@.len() == old(self)@.models.len(),
            old(self)@.models.len() < usize::MAX,
        ensures
            final(self)@ == start_chosen(old(self)@, same_prices@),
            final(self)@.wf(),
    {
        if self.start_selected >= self.start_items.len() {
            return;
        }
        let ghost v = self@;
        assert(v.start_items[self.start_selected as int] == self.start_items@[self.start_selected as int]@);
        let item = self.start_items[self.start_selected].duplicate();
        match item {
            StartItem::Blank => {
                self.reset_conversation();
                self.status = "New conversation. Describe a turn and press Enter.".to_owned();
                self.screen = Screen::Chat;
            },
            StartItem::Example { turns, .. } => self.load_turns(turns),
            StartItem::Saved { name, model, turns } => {
                // Restore (and if needed register) the saved conversation's model.
                let ghost ms = v.models;
                let ghost same = same_prices@;
                let n = self.models.len();
                let mut found: Option<usize> = None;
                let mut i: usize = 0;
                while i < n && found.is_none()
                    invariant
                        i <= n == self.models@.len(),
                        ms == v.models,
                        self@ == v,
                        same == same_prices@,
                        same.len() == n,
                        found matches Some(f) ==> f < n && model_matches(ms, model@, same, f as int)
                            && forall|j: int| 0 <= j < f ==> !model_matches(ms, model@, same, j),
                        found is None ==> forall|j: int|
                            0 <= j < i ==> !model_matches(ms, model@, same, j),
                    decreases n - i + if found is None {
                        1int
                    } else {
                        0int
                    },
                {
                    assert(ms[i as int] == self.models@[i as int]@);
                    if self.models[i].name == model.name
                        && self.models[i].context_window == model.context_window && same_prices[i] {
                        found = Some(i);
                    } else {
                        i += 1;
                    }
                }
                let idx = match found {
                    Some(f) => {
                        proof {
                            lemma_model_slot_found(ms, model@, same, f as int);
                        }
                        f
                    },
                    None => {
                        proof {
                            lemma_model_slot_none(ms, model@, same);
                        }
                        let ghost m = model@;
                        self.models.push(model);
                        assert(self@.models =~= ms.push(m));
                        self.models.len() - 1
                    },
                };
                self.active_model = Some(idx);
                self.selected = idx;
                self.load_turns(turns);
                // load_turns resets state, so record the source name afterwards
                // — it defaults the save prompt so re-saving overrides this file.
                self.conv_name = Some(name);
            },
        }
    }

    /// The highlighted start item's name if it is a deletable saved
    /// conversation, for the confirmation prompt.
    pub fn selected_saved_name(&self) -> (r: Option<&str>)
        ensures
            match chosen_item(self@) {
                Some(StartRecord::Saved { name, .. }) => r matches Some(n) && n@ == name,
                _ => r is None,
            },
    {
        if self.start_selected >= self.start_items.len() {
            return None;
        }
        assert(self@.start_items[self.start_selected as int] == self.start_items@[self.start_selected as int]@);
        match &self.start_items[self.start_selected] {
            StartItem::Saved { name, .. } => Some(name.as_str()),
            _ => None,
        }
    }

    /// Ask to delete the highlighted start item: open the confirmation modal if
    /// it's a saved conversation, otherwise explain why it can't be deleted.
    pub fn request_delete(&mut self)
        ensures
            final(self)@ == if chosen_item(old(self)@) matches Some(StartRecord::Saved { .. }) {
                AppView { screen: Screen::ConfirmDelete, ..old(self)@ }
            } else {
                AppView { status: "Only saved conversations can be deleted."@, ..old(self)@ }
            },
    {
        if self.selected_saved_name().is_some() {
            self.screen = Screen::ConfirmDelete;
        } else {
            self.status = "Only saved conversations can be deleted.".to_owned();
        }
    }

    /// After the highlighted saved conversation `name` was deleted from disk:
    /// rebuild the list from `saved` (what is left on disk), keep the
    /// selection in range, and say so.
    pub fn deleted(&mut self, name: &str, saved: Vec<SavedConversation>)
        requires
            old(self)@.wf(),
        ensures
            final(self)@ == (AppView {
                start_items: start_items_of(saved@.map_values(|c: SavedConversation| c@)),
                start_selected: if old(self).start_selected < final(self)@.start_items.len() {
                    old(self).start_selected
                } else {
                    (final(self)@.start_items.len() - 1) as usize
                },
                screen: Screen::Start,
                status: "Deleted saved conversation '"@ + name@ + "'."@,
                ..old(self)@
            }),
            final(self)@.wf(),
    {
        let prev = self.start_selected;
        self.open_start(saved);
        let last = self.start_items.len() - 1;
        self.start_selected = if prev < last {
            prev
        } else {
            last
        };
        let a = concat("Deleted saved conversation '", name);
        self.status = concat(a.as_str(), "'.");
    }

    /// After deleting the highlighted saved conversation failed.
    pub fn delete_failed(&mut self, error: &str)
        ensures
            final(self)@ == (AppView {
                status: "Delete failed: "@ + error@,
                screen: Screen::Start,
                ..old(self)@
            }),
    {
        self.status = concat("Delete failed: ", error);
        self.screen = Screen::Start;
    }

    /// Open the "save as" prompt (no-op if there's nothing to save).
    pub fn open_save(&mut self)
        ensures
            final(self)@ == open_save_of(old(self)@),
    {
        if self.turns.len() == 0 {
            self.status = "Nothing to save yet.".to_owned();
            return;
        }
        // Default to the name this conversation was loaded from (so pressing
        // Enter overrides that entry); otherwise suggest one from the model.
        self.save_name = match &self.conv_name {
            Some(n) => n.clone(),
            None => match self.model() {
                Some(m) => concat(m.name.as_str(), " conversation"),
                None => "conversation".to_owned(),
            },
        };
        self.screen = Screen::SaveName;
    }

    /// What saving writes: the trimmed name from the prompt and the
    /// conversation's raw lines; `None` when no model is chosen (nothing is
    /// saved then).
    pub fn save_request(&self) -> (r: Option<(String, Vec<String>)>)
        ensures
            match r {
                Some((name, raws)) => self@.has_model() && name@ == trim(self.save_name@)
                    && strings_view(raws@) == history_raws_of(self@),
                None => !self@.has_model(),
            },
    {
        if self.model().is_none() {
            return None;
        }
        let raws = self.history_raws();
        let chars = chars_of(self.save_name.as_str());
        let name = string_of(&trim_chars(&chars));
        Some((name, raws))
    }

    /// After the conversation was written to `path` under `name`: remember
    /// the name so a later save defaults to overriding it.
    pub fn saved_as(&mut self, name: String, path: &str)
        ensures
            final(self)@ == (AppView {
                conv_name: Some(name@),
                status: "Saved to "@ + path@,
                screen: Screen::Chat,
                ..old(self)@
            }),
    {
        self.conv_name = Some(name);
        self.status = concat("Saved to ", path);
        self.screen = Screen::Chat;
    }

    /// After writing the conversation failed.
    pub fn save_failed(&mut self, error: &str)
        ensures
            final(self)@ == (AppView {
                status: "Save failed: "@ + error@,
                screen: Screen::Chat,
                ..old(self)@
            }),
    {
        self.status = concat("Save failed: ", error);
        self.screen = Screen::Chat;
    }

    /// Add a model built from the custom-model form, select it, and go back
    /// to model selection.
    pub fn add_model(&mut self, model: ModelInfo)
        requires
            old(self)@.wf(),
            old(self)@.models.len() < usize::MAX,
        ensures
            final(self)@ == (AppView {
                models: old(self)@.models.push(model@),
                selected: old(self)@.models.len() as usize,
                screen: Screen::ModelSelect,
                ..old(self)@
            }),
            final(self)@.wf(),
    {
        let ghost ms = self@.models;
        self.models.push(model);
        assert(self@.models =~= ms.push(model@));
        self.selected = self.models.len() - 1;
        self.screen = Screen::ModelSelect;
    }

    /// Whether the token totals fit in `u64`s; [`App::total_tokens`] asks
    /// for it.
    pub fn totals_fit(&self) -> (b: bool)
        ensures
            b == totals_in_range(self@.turns),
    {
        let ghost ts = self@.turns;
        let mut c: u64 = 0;
        let mut inp: u64 = 0;
        let mut o: u64 = 0;
        let mut th: u64 = 0;
        let mut k: usize = 0;
        assert(ts.take(0) =~= Seq::<TurnRecord>::empty());
        while k < self.turns.len()
            invariant
                k <= self.turns@.len(),
                ts == turns_view(self.turns@),
                token_totals(ts.take(k as int)) == (c as nat, inp as nat, o as nat, th as nat),
            decreases self.turns@.len() - k,
        {
            let t = &self.turns[k];
            assert(ts.take(k + 1).drop_last() == ts.take(k as int));
            assert(ts.take(k + 1).last() == t@);
            proof {
                lemma_totals_prefix(ts, k + 1);
            }
            match (
                c.checked_add(t.cached),
                inp.checked_add(t.input),
                o.checked_add(t.output),
                th.checked_add(t.thinking),
            ) {
                (Some(a), Some(b), Some(d), Some(e)) => {
                    c = a;
                    inp = b;
                    o = d;
                    th = e;
                },
                _ => {
                    return false;
                },
            }
            k += 1;
        }
        assert(ts.take(self.turns@.len() as int) == ts);
        true
    }

    /// The token totals over the conversation: cached, input, output,
    /// thinking.
    pub fn total_tokens(&self) -> (r: (u64, u64, u64, u64))
        requires
            totals_in_range(self@.turns),
        ensures
            (r.0 as nat, r.1 as nat, r.2 as nat, r.3 as nat) == token_totals(self@.turns),
    {
        let ghost ts = self@.turns;
        let mut c: u64 = 0;
        let mut inp: u64 = 0;
        let mut o: u64 = 0;
        let mut th: u64 = 0;
        let mut k: usize = 0;
        assert(ts.take(0) =~= Seq::<TurnRecord>::empty());
        while k < self.turns.len()
            invariant
                k <= self.turns@.len(),
                ts == turns_view(self.turns@),
                totals_in_range(ts),
                token_totals(ts.take(k as int)) == (c as nat, inp as nat, o as nat, th as nat),
            decreases self.turns@.len() - k,
        {
            let t = &self.turns[k];
            assert(ts.take(k + 1).drop_last() == ts.take(k as int));
            assert(ts.take(k + 1).last() == t@);
            proof {
                lemma_totals_prefix(ts, k + 1);
            }
            c = c + t.cached;
            inp = inp + t.input;
            o = o + t.output;
            th = th + t.thinking;
            k += 1;
        }
        assert(ts.take(self.turns@.len() as int) == ts);
        (c, inp, o, th)
    }
}

/// The name shown for a model slot: the model's name, or a dash when the
/// slot is empty or points past the models.
pub open spec fn model_name_or_dash(models: Seq<ModelRecord>, m: Option<usize>) -> Seq<char> {
    match m {
        Some(i) => if i < models.len() {
            models[i as int].name
        } else {
            "\u{2014}"@
        },
        None => "\u{2014}"@,
    }
}

/// The tab bar label of conversation `i`: its number, its model, its turn
/// count and its total cost as `cost` writes it.
pub open spec fn tab_label_of(v: AppView, i: int, cost: Seq<char>) -> Seq<char> {
    let c = v.conversations()[i];
    decimal((i + 1) as nat) + ":"@ + model_name_or_dash(v.models, c.active_model) + " ("@ + decimal(
        c.turns.len(),
    ) + "\u{b7}$"@ + cost + ")"@
}

impl App {
    /// The name shown for a model slot (see [`model_name_or_dash`]).
    fn slot_name(&self, m: Option<usize>) -> (r: String)
        ensures
            r@ == model_name_or_dash(self@.models, m),
    {
        match m {
            Some(i) => if i < self.models.len() {
                self.models[i].name.clone()
            } else {
                "\u{2014}".to_owned()
            },
            None => "\u{2014}".to_owned(),
        }
    }

    /// One summary per open tab for the tab bar, in order: its label (see
    /// [`tab_label_of`]; `costs` holds each tab's total cost as written
    /// with three decimals) and whether it is the active tab.
    pub fn tab_summaries(&self, costs: &Vec<String>) -> (r: Vec<TabSummary>)
        requires
            self@.wf(),
            costs@.len() == self.tabs@.len(),
        ensures
            r@.len() == self.tabs@.len(),
            forall|i: int|
                0 <= i < r@.len() ==> (#[trigger] r@[i]).label@ == tab_label_of(self@, i, costs@[i]@)
                    && r@[i].active == (i == self.active_tab),
    {
        let mut out: Vec<TabSummary> = Vec::new();
        let mut i: usize = 0;
        while i < self.tabs.len()
            invariant
                i <= self.tabs@.len(),
                self@.wf(),
                costs@.len() == self.tabs@.len(),
                out@.len() == i,
                forall|k: int|
                    0 <= k < i ==> (#[trigger] out@[k]).label@ == tab_label_of(self@, k, costs@[k]@)
                        && out@[k].active == (k == self.active_tab),
            decreases self.tabs@.len() - i,
        {
            let active = i == self.active_tab;
            let (n, m) = if active {
                (self.turns.len(), self.active_model)
            } else {
                (self.tabs[i].turns.len(), self.tabs[i].active_model)
            };
            assert(self@.conversations()[i as int].turns.len() == n);
            assert(self@.conversations()[i as int].active_model == m);
            let name = self.slot_name(m);
            let a = concat(decimal_string((i + 1) as u64).as_str(), ":");
            let b = concat(a.as_str(), name.as_str());
            let c = concat(b.as_str(), " (");
            let d = concat(c.as_str(), decimal_string(n as u64).as_str());
            let e = concat(d.as_str(), "\u{b7}$");
            let f = concat(e.as_str(), costs[i].as_str());
            let label = concat(f.as_str(), ")");
            let ghost before = out@;
            out.push(TabSummary { label, active });
            assert forall|k: int| 0 <= k < i implies out@[k] == before[k] by {}
            i += 1;
        }
        out
    }
}

/// Up recall steps one line older each time: from no cursor to the newest
/// line, from line `p > 0` to line `p - 1`, staying on the oldest line; the
/// input shows the line under the cursor and nothing else changes. With
/// nothing recalled yet it does nothing.
pub proof fn history_up_steps_back(v: AppView)
    ensures
        v.input_history.len() == 0 ==> history_up_of(v) == v,
        v.input_history.len() > 0 && v.history_pos is None ==> history_up_of(v) == (AppView {
            history_pos: Some((v.input_history.len() - 1) as usize),
            input: v.input_history[v.input_history.len() - 1],
            ..v
        }),
        v.input_history.len() > 0 && v.history_pos == Some(0usize) ==> history_up_of(v) == (AppView {
            history_pos: Some(0usize),
            input: v.input_history[0],
            ..v
        }),
        v.history_pos is Some && 0 < v.history_pos->0 < v.input_history.len() ==> history_up_of(v) == (AppView {
            history_pos: Some((v.history_pos->0 - 1) as usize),
            input: v.input_history[v.history_pos->0 - 1],
            ..v
        }),
{
}

/// Down recall steps one line newer: from line `p` to line `p + 1`, and
/// past the newest line it drops the cursor and empties the input; with no
/// cursor it does nothing.
pub proof fn history_down_steps_forward(v: AppView)
    ensures
        v.history_pos is None ==> history_down_of(v) == v,
        v.history_pos is Some && v.history_pos->0 + 1 < v.input_history.len() ==> history_down_of(v) == (AppView {
            history_pos: Some((v.history_pos->0 + 1) as usize),
            input: v.input_history[v.history_pos->0 + 1],
            ..v
        }),
        v.history_pos is Some && v.history_pos->0 + 1 >= v.input_history.len() ==> history_down_of(v) == (AppView {
            history_pos: None,
            input: Seq::empty(),
            ..v
        }),
{
}

/// Up then Down, from a cursor on a line that is not the oldest, comes
/// back to that line: the cursor and the input are where they were.
pub proof fn history_up_then_down(v: AppView)
    requires
        v.history_pos is Some,
        0 < v.history_pos->0 < v.input_history.len(),
    ensures
        history_down_of(history_up_of(v)).history_pos == v.history_pos,
        history_down_of(history_up_of(v)).input == v.input_history[v.history_pos->0 as int],
{
}

/// The token totals of the turns are the sums of their fields: nothing
/// for no turns, and one more turn adds its cached, input, output and
/// thinking counts.
pub proof fn token_totals_add_up(ts: Seq<TurnRecord>, t: TurnRecord)
    ensures
        token_totals(Seq::<TurnRecord>::empty()) == (0nat, 0nat, 0nat, 0nat),
        token_totals(ts.push(t)).0 == token_totals(ts).0 + t.cached,
        token_totals(ts.push(t)).1 == token_totals(ts).1 + t.input,
        token_totals(ts.push(t)).2 == token_totals(ts).2 + t.output,
        token_totals(ts.push(t)).3 == token_totals(ts).3 + t.thinking,
{
    assert(ts.push(t).drop_last() =~= ts);
}

/// When some model matches at `i`, a first one matches.
proof fn lemma_first_match(ms: Seq<ModelRecord>, m: ModelRecord, same: Seq<bool>, i: int)
    requires
        0 <= i < ms.len(),
        model_matches(ms, m, same, i),
    ensures
        exists|k: int|
            0 <= k < ms.len() && model_matches(ms, m, same, k) && forall|j: int|
                0 <= j < k ==> !model_matches(ms, m, same, j),
    decreases i,
{
    if exists|j: int| 0 <= j < i && model_matches(ms, m, same, j) {
        let j = choose|j: int| 0 <= j < i && model_matches(ms, m, same, j);
        lemma_first_match(ms, m, same, j);
    } else {
        assert(forall|j: int| 0 <= j < i ==> !model_matches(ms, m, same, j));
    }
}

/// Reopening a saved conversation brings its model back whole: it reuses
/// the first model whose name, context window and prices (by `same`) are
/// the saved model's, and when there is none it adds the saved model and
/// makes it the active one; the conversation keeps its saved name.
pub proof fn saved_model_restored(v: AppView, same: Seq<bool>)
    requires
        same.len() == v.models.len(),
        v.models.len() < usize::MAX,
    ensures
        chosen_item(v) matches Some(StartRecord::Saved { name, model, turns }) ==> {
            let w = start_chosen(v, same);
            let i = w.active_model->0 as int;
            &&& w.active_model is Some
            &&& w.conv_name == Some(name)
            &&& i < v.models.len() ==> {
                &&& w.models == v.models
                &&& v.models[i].name == model.name
                &&& v.models[i].context_window == model.context_window
                &&& same[i]
                &&& forall|j: int|
                    0 <= j < i ==> !(v.models[j].name == model.name && v.models[j].context_window
                        == model.context_window && same[j])
            }
            &&& i >= v.models.len() ==> {
                &&& i == v.models.len()
                &&& w.models == v.models.push(model)
                &&& forall|j: int|
                    0 <= j < v.models.len() ==> !(v.models[j].name == model.name
                        && v.models[j].context_window == model.context_window && same[j])
            }
        },
{
    if let Some(StartRecord::Saved { name, model, turns }) = chosen_item(v) {
        let ms = v.models;
        let slot = model_slot(ms, model, same);
        if exists|k: int| 0 <= k < ms.len() && model_matches(ms, model, same, k) {
            let k = choose|k: int| 0 <= k < ms.len() && model_matches(ms, model, same, k);
            lemma_first_match(ms, model, same, k);
            assert(0 <= slot < ms.len() && model_matches(ms, model, same, slot) && forall|j: int|
                0 <= j < slot ==> !model_matches(ms, model, same, j));
            assert forall|j: int| 0 <= j < slot implies !(ms[j].name == model.name
                && ms[j].context_window == model.context_window && same[j]) by {
                assert(!model_matches(ms, model, same, j));
            }
        } else {
            assert(slot == ms.len());
        }
        let w0 = AppView {
            models: if slot < ms.len() { ms } else { ms.push(model) },
            active_model: Some(slot as usize),
            selected: slot as usize,
            ..v
        };
        lemma_load_fold_carried(w0.reset(), turns);
        assert(start_chosen(v, same) == AppView { conv_name: Some(name), ..loaded_of(w0, turns) });
        assert(loaded_of(w0, turns).models == w0.models);
        assert(loaded_of(w0, turns).active_model == Some(slot as usize));
        if slot >= ms.len() {
            assert(!(exists|k: int| 0 <= k < ms.len() && model_matches(ms, model, same, k)));
            assert forall|j: int| 0 <= j < ms.len() implies !(ms[j].name == model.name
                && ms[j].context_window == model.context_window && same[j]) by {
                assert(!model_matches(ms, model, same, j));
            }
        }
    }
}

/// `(a + 1) % n` steps forward round `n`, and `(a + n - 1) % n` back.
proof fn lemma_step_round(a: int, n: int)
    requires
        0 <= a < n,
    ensures
        (a + 1) % n == if a + 1 < n { a + 1 } else { 0 },
        (a + n - 1) % n == if a > 0 { a - 1 } else { n - 1 },
{
    if a + 1 < n {
        vstd::arithmetic::div_mod::lemma_small_mod((a + 1) as nat, n as nat);
    } else {
        vstd::arithmetic::div_mod::lemma_mod_self_0(n);
    }
    if a > 0 {
        vstd::arithmetic::div_mod::lemma_fundamental_div_mod_converse(a + n - 1, n, 1, a - 1);
    } else {
        vstd::arithmetic::div_mod::lemma_small_mod((n - 1) as nat, n as nat);
    }
}

/// The model and start-picker highlights, and the form focus, move one
/// step round their lists: Down to the next entry and Up to the one
/// before, both wrapping at the ends; the start picker also clears its
/// status line, and nothing else changes.
pub proof fn highlights_move_one_step(v: AppView)
    requires
        v.wf(),
    ensures
        select_down_of(v) == (AppView {
            selected: ((v.selected + 1) % (v.models.len() as int)) as usize,
            ..v
        }),
        select_up_of(v) == (AppView {
            selected: ((v.selected + v.models.len() - 1) % (v.models.len() as int)) as usize,
            ..v
        }),
        v.start_items.len() > 0 ==> start_down_of(v) == (AppView {
            status: Seq::empty(),
            start_selected: ((v.start_selected + 1) % (v.start_items.len() as int)) as usize,
            ..v
        }),
        v.start_items.len() > 0 ==> start_up_of(v) == (AppView {
            status: Seq::empty(),
            start_selected: ((v.start_selected + v.start_items.len() - 1) % (
            v.start_items.len() as int)) as usize,
            ..v
        }),
        v.start_items.len() == 0 ==> start_down_of(v) == (AppView { status: Seq::empty(), start_selected: 0, ..v }),
        v.start_items.len() == 0 ==> start_up_of(v) == (AppView { status: Seq::empty(), start_selected: 0, ..v }),
        form_next_of(v).form_field == (v.form_field + 1) % 5,
        form_prev_of(v).form_field == (v.form_field + 4) % 5,
        form_next_of(v) == (AppView { form_field: form_next_of(v).form_field, ..v }),
        form_prev_of(v) == (AppView { form_field: form_prev_of(v).form_field, ..v }),
{
    lemma_step_round(v.selected as int, v.models.len() as int);
    if v.start_items.len() > 0 {
        lemma_step_round(v.start_selected as int, v.start_items.len() as int);
    }
}

/// The history scrolls one line per wheel step: up toward older turns no
/// further than the scrollable distance, down toward newer turns no
/// further than the newest; nothing else changes.
pub proof fn scrolling_moves_one_line(v: AppView)
    requires
        v.scroll_up <= v.history_max_scroll,
    ensures
        v.scroll_up < v.history_max_scroll ==> scroll_up_of(v) == (AppView { scroll_up: (v.scroll_up + 1) as u16, ..v }),
        v.scroll_up == v.history_max_scroll ==> scroll_up_of(v) == v,
        v.scroll_up > 0 ==> scroll_down_of(v) == (AppView { scroll_up: (v.scroll_up - 1) as u16, ..v }),
        v.scroll_up == 0 ==> scroll_down_of(v) == v,
{
}

/// What submitting the input box does, case by case: a blank line does
/// nothing; any other line is recorded for recall (trimmed, unless it
/// repeats the last line recorded); `clear` (in any case) empties the
/// conversation and its recall list; a marker command places a marker
/// after the turns so far and empties the input; a line that bills turns
/// appends them as applying the line does, empties the input and scrolls
/// to the newest turn; a line that bills nothing keeps the input and says
/// so.
pub proof fn submitting_a_line(v: AppView)
    ensures
        trim(v.input).len() == 0 ==> submitted_of(v) == v,
        trim(v.input).len() > 0 && !eq_ignore_ascii_case(trim(v.input), clear_word())
            ==> submitted_of(v).input_history == if v.input_history.len() > 0
            && v.input_history.last() == trim(v.input) {
            v.input_history
        } else {
            v.input_history.push(trim(v.input))
        },
        trim(v.input).len() > 0 && eq_ignore_ascii_case(trim(v.input), clear_word()) ==> {
            &&& submitted_of(v).turns.len() == 0
            &&& submitted_of(v).markers.len() == 0
            &&& submitted_of(v).carried_cached == 0
            &&& submitted_of(v).input_history.len() == 0
            &&& submitted_of(v).input.len() == 0
            &&& submitted_of(v).status == "Conversation cleared."@
        },
        trim(v.input).len() > 0 && !eq_ignore_ascii_case(trim(v.input), clear_word())
            && marker_label_of(trim(v.input)) is Some ==> {
            &&& submitted_of(v).markers == v.markers.push(
                (v.turns.len() as usize, marker_label_of(trim(v.input))->0),
            )
            &&& submitted_of(v).turns == v.turns
            &&& submitted_of(v).carried_cached == v.carried_cached
            &&& submitted_of(v).input.len() == 0
        },
        trim(v.input).len() > 0 && !eq_ignore_ascii_case(trim(v.input), clear_word())
            && marker_label_of(trim(v.input)) is None && turn_effect(v.input, v.has_model()) is Billed
            ==> {
            &&& submitted_of(v).turns == applied(v, v.input).turns
            &&& submitted_of(v).turns.len() > v.turns.len()
            &&& submitted_of(v).markers == applied(v, v.input).markers
            &&& submitted_of(v).carried_cached == applied(v, v.input).carried_cached
            &&& submitted_of(v).input.len() == 0
            &&& submitted_of(v).scroll_up == 0
        },
        trim(v.input).len() > 0 && !eq_ignore_ascii_case(trim(v.input), clear_word())
            && marker_label_of(trim(v.input)) is None && turn_effect(v.input, v.has_model()) is Rejected
            ==> {
            &&& submitted_of(v).turns == v.turns
            &&& submitted_of(v).markers == v.markers
            &&& submitted_of(v).input == v.input
            &&& submitted_of(v).status == "Couldn't find any token counts in that line."@
        },
{
    if trim(v.input).len() > 0 && !eq_ignore_ascii_case(trim(v.input), clear_word())
        && marker_label_of(trim(v.input)) is None {
        if let TurnEffect::Billed { parsed, stored, inline } = turn_effect(v.input, v.has_model()) {
            parsed_repeat_at_least_one(extract_inline_marker_of(trim(v.input)).0);
            assert(reps(parsed) >= 1);
        }
    }
}

} // verus!
