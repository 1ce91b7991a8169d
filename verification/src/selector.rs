//! The interactive choice of a host: the list of hosts that can be chosen,
//! the query that narrows it, the highlighted entry, and the key events that
//! drive them.
//!
//! `FilterState` is the mathematical model and holds the rules; `App` is the
//! executable state, and each of its operations does to its model what the
//! model's function of the same name says.

use crate::ssh_config::config::{ConfigValuesView, SSHConfig, SSHConfigValues};
use crate::text::{is_substring, occurs_at, str_contains, texts};
use vstd::prelude::*;
use vstd::string::StringExecFns;

verus! {

/// Whether the choice is still going on, or how it ended.
#[derive(Clone, Copy, Debug, PartialEq, Eq, Structural)]
pub enum ExitState {
    /// Key events are still taken.
    Running,
    /// The user left without choosing.
    Exit,
    /// The user chose the highlighted entry.
    Selected,
}

/// The keys that mean something to the selector.
#[derive(Clone, Copy, Debug, PartialEq, Eq)]
pub enum KeyCode {
    Esc,
    Up,
    Down,
    Backspace,
    Enter,
    /// A character key.
    Char(char),
    /// Any other key.
    Other,
}

/// A key that was pressed, and whether the control key was held with it.
#[derive(Clone, Copy, Debug, PartialEq, Eq)]
pub struct KeyEvent {
    pub code: KeyCode,
    pub control: bool,
}

/// What the terminal reports.
#[derive(Clone, Copy, Debug, PartialEq, Eq)]
pub enum Event {
    /// A key went down.
    Press(KeyEvent),
    /// Anything else: a key released or repeated, the mouse, a resize.
    Other,
}

/// A host can be listed if it has a name and an address.
pub open spec fn is_listable(values: ConfigValuesView) -> bool {
    values.host is Some && values.hostname is Some
}

/// The hosts of `values` that can be listed, in the order of `values`.
pub open spec fn listable(values: Seq<SSHConfigValues>) -> Seq<SSHConfigValues>
    decreases values.len(),
{
    if values.len() == 0 {
        Seq::empty()
    } else if is_listable(values.last()@) {
        listable(values.drop_last()).push(values.last())
    } else {
        listable(values.drop_last())
    }
}

/// The text that a query is matched against: the name of the host, a space,
/// and its address.
pub open spec fn search_text(values: ConfigValuesView) -> Seq<char> {
    values.host->0 + seq![' '] + values.hostname->0
}

/// The positions below `limit` of the entries that contain `query`, in
/// ascending order.
pub open spec fn matches_below(entries: Seq<Seq<char>>, query: Seq<char>, limit: int) -> Seq<int>
    decreases limit,
{
    if limit <= 0 {
        Seq::empty()
    } else if is_substring(query, entries[limit - 1]) {
        matches_below(entries, query, limit - 1).push(limit - 1)
    } else {
        matches_below(entries, query, limit - 1)
    }
}

/// The positions of the entries that contain `query` as a substring, in
/// ascending order: what is visible under that query.
pub open spec fn matches(entries: Seq<Seq<char>>, query: Seq<char>) -> Seq<int> {
    matches_below(entries, query, entries.len() as int)
}

/// `matches_below` holds exactly the positions below `limit` whose entries
/// contain the query, each once and in ascending order.
pub proof fn lemma_matches_below(entries: Seq<Seq<char>>, query: Seq<char>, limit: int)
    requires
        0 <= limit <= entries.len(),
    ensures
        matches_below(entries, query, limit).len() <= limit,
        forall|k: int|
            0 <= k < matches_below(entries, query, limit).len() ==> {
                let i = #[trigger] matches_below(entries, query, limit)[k];
                0 <= i < limit && is_substring(query, entries[i])
            },
        forall|k: int, l: int|
            0 <= k < l < matches_below(entries, query, limit).len() ==> matches_below(
                entries,
                query,
                limit,
            )[k] < matches_below(entries, query, limit)[l],
        forall|i: int|
            0 <= i < limit && is_substring(query, #[trigger] entries[i]) ==> matches_below(
                entries,
                query,
                limit,
            ).contains(i),
    decreases limit,
{
    if limit > 0 {
        lemma_matches_below(entries, query, limit - 1);
        let shorter = matches_below(entries, query, limit - 1);
        let all = matches_below(entries, query, limit);
        assert forall|i: int| 0 <= i < limit && is_substring(query, #[trigger] entries[i]) implies all.contains(
            i,
        ) by {
            if i < limit - 1 {
                let k = shorter.index_of(i);
                assert(shorter.contains(i));
                assert(all[k] == i);
            } else {
                assert(all[all.len() - 1] == i);
            }
        }
    }
}

/// The empty query is in every entry, so under it every position is visible.
pub proof fn lemma_matches_empty_query(entries: Seq<Seq<char>>, limit: int)
    requires
        0 <= limit <= entries.len(),
    ensures
        matches_below(entries, Seq::empty(), limit) == Seq::new(limit as nat, |i: int| i),
    decreases limit,
{
    if limit > 0 {
        lemma_matches_empty_query(entries, limit - 1);
        assert(occurs_at(Seq::empty(), entries[limit - 1], 0));
        assert(matches_below(entries, Seq::empty(), limit) =~= Seq::new(limit as nat, |i: int| i));
    } else {
        assert(matches_below(entries, Seq::empty(), limit) =~= Seq::new(limit as nat, |i: int| i));
    }
}

/// `shorter` can be had from `longer` by leaving elements out: `at` gives, in
/// ascending order, the position in `longer` of each element of `shorter`.
pub open spec fn embeds_at(shorter: Seq<int>, longer: Seq<int>, at: Seq<int>) -> bool {
    &&& at.len() == shorter.len()
    &&& forall|k: int| 0 <= k < at.len() ==> 0 <= #[trigger] at[k] < longer.len() && longer[at[k]] == shorter[k]
    &&& forall|k: int, l: int| 0 <= k < l < at.len() ==> #[trigger] at[k] < #[trigger] at[l]
}

/// `shorter` is a subsequence of `longer`.
pub open spec fn is_subsequence(shorter: Seq<int>, longer: Seq<int>) -> bool {
    exists|at: Seq<int>| embeds_at(shorter, longer, at)
}

/// The highlight that a list of `count` visible entries can keep: none if the
/// list is empty, the first entry if none was highlighted, and otherwise the
/// same position, or the last one if the list has become too short for it.
pub open spec fn settle(highlight: Option<int>, count: int) -> Option<int> {
    if count <= 0 {
        None
    } else {
        match highlight {
            None => Some(0),
            Some(h) => if h >= count {
                Some(count - 1)
            } else {
                Some(h)
            },
        }
    }
}

/// The state of the choice.
pub struct FilterState {
    /// The search texts of the hosts that can be chosen. They never change.
    pub entries: Seq<Seq<char>>,
    /// What the user has typed.
    pub query: Seq<char>,
    /// The positions in `entries` of the hosts that are shown.
    pub visible: Seq<int>,
    /// The position in `visible` of the highlighted host, if one is.
    pub highlight: Option<int>,
    /// Whether the choice is over, and how.
    pub exit: ExitState,
}

impl FilterState {
    /// The state is consistent: the visible entries are those that contain
    /// the query, and one of them is highlighted unless there is none.
    pub open spec fn wf(self) -> bool {
        &&& self.visible == matches(self.entries, self.query)
        &&& match self.highlight {
            None => self.visible.len() == 0,
            Some(h) => 0 <= h < self.visible.len(),
        }
    }

    /// The state at the start: no query, every entry visible, and the first
    /// one highlighted if there is one.
    pub open spec fn initial(entries: Seq<Seq<char>>) -> FilterState {
        FilterState {
            entries,
            query: Seq::empty(),
            visible: matches(entries, Seq::empty()),
            highlight: settle(Some(0), matches(entries, Seq::empty()).len() as int),
            exit: ExitState::Running,
        }
    }

    /// The state with the visible entries worked out anew for the query, and
    /// the highlight settled on what is left.
    pub open spec fn recalculate_shown(self) -> FilterState {
        let visible = matches(self.entries, self.query);
        FilterState { visible, highlight: settle(self.highlight, visible.len() as int), ..self }
    }

    /// The user typed `c`: it is added to the query.
    pub open spec fn add_char(self, c: char) -> FilterState {
        (FilterState { query: self.query.push(c), ..self }).recalculate_shown()
    }

    /// The user pressed backspace: the last character of the query goes. With
    /// an empty query nothing happens.
    pub open spec fn delete_char(self) -> FilterState {
        if self.query.len() == 0 {
            self
        } else {
            (FilterState { query: self.query.drop_last(), ..self }).recalculate_shown()
        }
    }

    /// The highlight moves one entry up the list, to the next higher position,
    /// and stays on the last entry when it is there.
    pub open spec fn up(self) -> FilterState {
        let moved = match self.highlight {
            None => None,
            Some(h) => Some(h + 1),
        };
        FilterState { highlight: settle(moved, self.visible.len() as int), ..self }
    }

    /// The highlight moves one entry down the list, to the next lower
    /// position, and stays on the first entry when it is there.
    pub open spec fn down(self) -> FilterState {
        let moved = match self.highlight {
            None => None,
            Some(h) => if h > 0 {
                Some(h - 1)
            } else {
                Some(0)
            },
        };
        FilterState { highlight: moved, ..self }
    }

    /// The user confirmed: the highlighted entry is chosen. Without a
    /// highlighted entry nothing happens.
    pub open spec fn select(self) -> FilterState {
        if self.highlight is Some {
            FilterState { exit: ExitState::Selected, ..self }
        } else {
            self
        }
    }

    /// The user cancelled.
    pub open spec fn exit(self) -> FilterState {
        FilterState { exit: ExitState::Exit, ..self }
    }

    /// What a pressed key does. Once the choice is over, nothing.
    pub open spec fn handle_key_event(self, key_event: KeyEvent) -> FilterState {
        if self.exit != ExitState::Running {
            self
        } else {
            match key_event.code {
                KeyCode::Esc => self.exit(),
                KeyCode::Up => self.up(),
                KeyCode::Down => self.down(),
                KeyCode::Backspace => self.delete_char(),
                KeyCode::Enter => self.select(),
                KeyCode::Char(c) => if key_event.control && c == 'p' {
                    self.up()
                } else if key_event.control && c == 'n' {
                    self.down()
                } else {
                    self.add_char(c)
                },
                KeyCode::Other => self,
            }
        }
    }

    /// What an event does: a key press what the key says, anything else
    /// nothing.
    pub open spec fn handle_event(self, event: Event) -> FilterState {
        match event {
            Event::Press(key_event) => self.handle_key_event(key_event),
            Event::Other => self,
        }
    }

    /// The state after the events, taken one at a time in their order.
    pub open spec fn run(self, events: Seq<Event>) -> FilterState
        decreases events.len(),
    {
        if events.len() == 0 {
            self
        } else {
            self.run(events.drop_last()).handle_event(events.last())
        }
    }

    /// The position in `entries` of the host that was chosen, if one was.
    pub open spec fn chosen(self) -> Option<int> {
        match self.highlight {
            Some(h) if self.exit == ExitState::Selected => Some(self.visible[h]),
            _ => None,
        }
    }
}

/// A text that holds `query` followed by `c` holds `query`.
pub proof fn lemma_substring_of_longer(query: Seq<char>, c: char, hay: Seq<char>)
    requires
        is_substring(query.push(c), hay),
    ensures
        is_substring(query, hay),
{
    let at = choose|at: int| occurs_at(query.push(c), hay, at);
    assert forall|i: int| 0 <= i < query.len() implies hay[at + i] == #[trigger] query[i] by {
        assert(query.push(c)[i] == query[i]);
    }
    assert(occurs_at(query, hay, at));
}

/// Typing narrows the list: what is visible under a query with one more
/// character is a subsequence of what was visible before.
pub proof fn lemma_typing_narrows(entries: Seq<Seq<char>>, query: Seq<char>, c: char)
    ensures
        is_subsequence(matches(entries, query.push(c)), matches(entries, query)),
{
    let wide = matches(entries, query);
    let narrow = matches(entries, query.push(c));
    lemma_matches_below(entries, query, entries.len() as int);
    lemma_matches_below(entries, query.push(c), entries.len() as int);
    let at = Seq::new(narrow.len(), |k: int| wide.index_of(narrow[k]));
    assert forall|k: int| 0 <= k < at.len() implies 0 <= #[trigger] at[k] < wide.len()
        && wide[at[k]] == narrow[k] by {
        lemma_substring_of_longer(query, c, entries[narrow[k]]);
        assert(wide.contains(narrow[k]));
    }
    assert forall|k: int, l: int| 0 <= k < l < at.len() implies #[trigger] at[k]
        < #[trigger] at[l] by {
        assert(narrow[k] < narrow[l]);
        if at[k] > at[l] {
            assert(wide[at[l]] < wide[at[k]]);
        }
    }
    assert(embeds_at(narrow, wide, at));
}

/// The state at the start is consistent.
pub proof fn lemma_initial_wf(entries: Seq<Seq<char>>)
    ensures
        FilterState::initial(entries).wf(),
        FilterState::initial(entries).visible == Seq::new(entries.len(), |i: int| i),
{
    lemma_matches_empty_query(entries, entries.len() as int);
}

/// Every event leaves a consistent state consistent and the entries as they
/// are, and an event that is no key press leaves the whole state as it is.
pub proof fn lemma_handle_event_keeps_wf(state: FilterState, event: Event)
    requires
        state.wf(),
    ensures
        state.handle_event(event).wf(),
        state.handle_event(event).entries == state.entries,
        event is Other ==> state.handle_event(event) == state,
{
    assert(state.query.len() > 0 ==> state.delete_char().wf());
}

/// The choice ends once: when it is over, no event changes the state.
pub proof fn lemma_over_is_over(state: FilterState, event: Event)
    requires
        state.exit != ExitState::Running,
    ensures
        state.handle_event(event) == state,
{
}

/// Backspace undoes the character typed last: query and visible list are as
/// they were before it was typed. The highlight is as it was, too, if it
/// stood on the first entry or at a position that the narrower list still
/// had, and if nothing was highlighted. Otherwise the narrower list was too
/// short to keep it: it moved to the last entry of that list and stays at
/// that position, or it was lost with an empty list and is back on the first
/// entry.
pub proof fn lemma_backspace_undoes_typing(state: FilterState, c: char)
    requires
        state.wf(),
    ensures
        state.add_char(c).delete_char().entries == state.entries,
        state.add_char(c).delete_char().query == state.query,
        state.add_char(c).delete_char().visible == state.visible,
        state.add_char(c).delete_char().exit == state.exit,
        state.add_char(c).delete_char().highlight == state.highlight <==> (state.highlight matches Some(
            h,
        ) ==> h == 0 || h < state.add_char(c).visible.len()),
        state.add_char(c).delete_char().highlight == settle(
            settle(state.highlight, state.add_char(c).visible.len() as int),
            state.visible.len() as int,
        ),
{
    assert(state.query.push(c).drop_last() =~= state.query);
    lemma_typing_narrows(state.entries, state.query, c);
    let narrow = state.add_char(c).visible;
    let at = choose|at: Seq<int>| embeds_at(narrow, state.visible, at);
    if narrow.len() > 0 {
        assert(at[narrow.len() - 1] < state.visible.len());
        assert forall|k: int| 0 <= k < at.len() implies k <= #[trigger] at[k] by {
            lemma_ascending_positions(at, k);
        }
    }
}

/// Confirming when nothing is visible changes nothing: the choice goes on.
pub proof fn lemma_confirm_needs_an_entry(state: FilterState, control: bool)
    requires
        state.wf(),
        state.visible.len() == 0,
    ensures
        state.select() == state,
        state.handle_key_event(KeyEvent { code: KeyCode::Enter, control }) == state,
{
}

/// Confirming a highlighted entry of a running choice chooses the entry that
/// the highlight stands on, by its position among all entries.
pub proof fn lemma_confirm_chooses_the_highlight(state: FilterState, control: bool)
    requires
        state.wf(),
        state.exit == ExitState::Running,
        state.highlight is Some,
    ensures
        state.handle_key_event(KeyEvent { code: KeyCode::Enter, control }).exit
            == ExitState::Selected,
        state.handle_key_event(KeyEvent { code: KeyCode::Enter, control }).chosen() == Some(
            state.visible[state.highlight->0],
        ),
        0 <= state.visible[state.highlight->0] < state.entries.len(),
        is_substring(state.query, state.entries[state.visible[state.highlight->0]]),
{
    lemma_matches_below(state.entries, state.query, state.entries.len() as int);
}

/// In a sequence of ascending positions that start at zero or above, each
/// position is at least its own index.
proof fn lemma_ascending_positions(at: Seq<int>, k: int)
    requires
        0 <= k < at.len(),
        forall|i: int| 0 <= i < at.len() ==> 0 <= #[trigger] at[i],
        forall|i: int, j: int| 0 <= i < j < at.len() ==> #[trigger] at[i] < #[trigger] at[j],
    ensures
        k <= at[k],
    decreases k,
{
    if k > 0 {
        lemma_ascending_positions(at, k - 1);
    }
}

/// The positions held in a vector of indices.
pub open spec fn positions(indices: Seq<usize>) -> Seq<int> {
    indices.map_values(|i: usize| i as int)
}

/// `positions` of a vector with one more index.
pub proof fn lemma_positions_push(indices: Seq<usize>, last: usize)
    ensures
        positions(indices.push(last)) == positions(indices).push(last as int),
{
    assert(positions(indices.push(last)) =~= positions(indices).push(last as int));
}

/// The position held in an optional index.
pub open spec fn position_of(index: Option<usize>) -> Option<int> {
    match index {
        Some(i) => Some(i as int),
        None => None,
    }
}

/// The part of the selector's state that changes with the keys.
#[derive(Debug, Clone)]
pub struct AppState {
    exit: ExitState,
    selected: Option<usize>,
    current_input: String,
    shown_indices: Vec<usize>,
}

impl AppState {
    /// Whether the choice is over, and how.
    pub closed spec fn exit(&self) -> ExitState {
        self.exit
    }

    /// The position among the shown hosts of the highlighted one.
    pub closed spec fn highlight(&self) -> Option<int> {
        position_of(self.selected)
    }

    /// What the user has typed.
    pub closed spec fn query(&self) -> Seq<char> {
        self.current_input@
    }

    /// The positions of the shown hosts in the list of all that can be chosen.
    pub closed spec fn visible(&self) -> Seq<int> {
        positions(self.shown_indices@)
    }

    /// Whether the choice is over, and how.
    pub fn exit_state(&self) -> (exit: ExitState)
        ensures
            exit == self.exit(),
    {
        self.exit
    }

    /// The position among the shown hosts of the highlighted one.
    pub fn selected(&self) -> (selected: Option<usize>)
        ensures
            position_of(selected) == self.highlight(),
    {
        self.selected
    }

    /// What the user has typed.
    pub fn current_input(&self) -> (input: &str)
        ensures
            input@ == self.query(),
    {
        self.current_input.as_str()
    }

    /// The positions of the shown hosts in the list of all that can be chosen.
    pub fn shown_indices(&self) -> (shown: &Vec<usize>)
        ensures
            positions(shown@) == self.visible(),
    {
        &self.shown_indices
    }
}

/// The selector: the hosts that can be chosen, and the state of the choice.
#[derive(Debug)]
pub struct App {
    state: AppState,
    searchable_strings: Vec<String>,
    ssh_config_values: Vec<SSHConfigValues>,
}

impl View for App {
    type V = FilterState;

    open spec fn view(&self) -> FilterState {
        FilterState {
            entries: self.entries(),
            query: self.spec_state().query(),
            visible: self.spec_state().visible(),
            highlight: self.spec_state().highlight(),
            exit: self.spec_state().exit(),
        }
    }
}

/// The search texts of `hosts`, in their order.
pub open spec fn search_texts(hosts: Seq<SSHConfigValues>) -> Seq<Seq<char>> {
    Seq::new(hosts.len(), |i: int| search_text(hosts[i]@))
}

impl App {
    /// The hosts that can be chosen, in the order of the list.
    pub closed spec fn hosts(&self) -> Seq<SSHConfigValues> {
        self.ssh_config_values@
    }

    /// The texts that the query is matched against, one for each host.
    pub closed spec fn entries(&self) -> Seq<Seq<char>> {
        texts(self.searchable_strings@)
    }

    /// The state that changes with the keys.
    pub closed spec fn spec_state(&self) -> AppState {
        self.state
    }

    /// Each host can be listed, and the entries are the search texts of the
    /// hosts.
    pub open spec fn indexed(&self) -> bool {
        &&& self.entries() == search_texts(self.hosts())
        &&& forall|i: int| 0 <= i < self.hosts().len() ==> is_listable(#[trigger] self.hosts()[i]@)
    }

    /// The selector is well formed: its hosts are indexed and its state is
    /// consistent.
    pub open spec fn wf(&self) -> bool {
        self.indexed() && self@.wf()
    }

    /// The hosts of `values` that have a name and an address.
    pub fn listable_hosts(values: Vec<SSHConfigValues>) -> (hosts: Vec<SSHConfigValues>)
        ensures
            hosts@ == listable(values@),
    {
        let mut hosts: Vec<SSHConfigValues> = Vec::new();
        for value in it: values
            invariant
                it.seq() == values@,
                hosts@ == listable(values@.take(it.index() as int)),
        {
            proof {
                let next = values@.take(it.index() + 1);
                assert(next.drop_last() =~= values@.take(it.index() as int));
                assert(next.last() == value);
            }
            if value.host.is_some() && value.hostname.is_some() {
                hosts.push(value);
            }
        }
        proof {
            assert(values@.take(values@.len() as int) =~= values@);
        }
        hosts
    }

    /// A selector for the hosts of `ssh_config` that have a name and an
    /// address, in ascending order of the names they are filed under, with an
    /// empty query.
    pub fn with_config(ssh_config: SSHConfig) -> (app: Self)
        ensures
            app.wf(),
            app.hosts() == listable(ssh_config.host_specific_config.ordered_values()),
            app@ == FilterState::initial(search_texts(app.hosts())),
    {
        let listable_config_values = Self::listable_hosts(
            ssh_config.host_specific_config.into_values(),
        );
        let mut searchable_strings: Vec<String> = Vec::new();
        let mut shown_indices: Vec<usize> = Vec::new();
        let mut i: usize = 0;
        proof {
            lemma_listable(ssh_config.host_specific_config.ordered_values());
            assert(positions(shown_indices@) =~= Seq::new(0, |k: int| k));
        }
        while i < listable_config_values.len()
            invariant
                i <= listable_config_values@.len(),
                searchable_strings@.len() == i,
                forall|k: int|
                    0 <= k < listable_config_values@.len() ==> is_listable(
                        #[trigger] listable_config_values@[k]@,
                    ),
                forall|k: int|
                    0 <= k < i ==> (#[trigger] searchable_strings@[k])@ == search_text(
                        listable_config_values@[k]@,
                    ),
                positions(shown_indices@) == Seq::new(i as nat, |k: int| k),
            decreases listable_config_values@.len() - i,
        {
            let value = &listable_config_values[i];
            let mut text = match &value.host {
                Some(host) => host.clone(),
                None => String::new(),
            };
            text.push(' ');
            match &value.hostname {
                Some(hostname) => {
                    text.append(hostname.as_str());
                },
                None => {},
            }
            searchable_strings.push(text);
            proof {
                lemma_positions_push(shown_indices@, i);
            }
            shown_indices.push(i);
            i += 1;
            proof {
                assert(positions(shown_indices@) =~= Seq::new(i as nat, |k: int| k));
            }
        }
        let selected = if shown_indices.len() > 0 {
            Some(0)
        } else {
            None
        };
        let app = App {
            state: AppState {
                exit: ExitState::Running,
                selected,
                current_input: String::new(),
                shown_indices,
            },
            searchable_strings,
            ssh_config_values: listable_config_values,
        };
        proof {
            assert(app.entries() =~= search_texts(app.hosts()));
            lemma_matches_empty_query(app@.entries, app@.entries.len() as int);
            assert(app@.query =~= Seq::empty());
        }
        app
    }

    /// The state that changes with the keys.
    pub fn state(&self) -> (state: &AppState)
        ensures
            *state == self.spec_state(),
    {
        &self.state
    }

    /// The hosts that are shown, in the order of the list.
    pub fn hosts_to_show(&self) -> (shown: Vec<&SSHConfigValues>)
        requires
            self.wf(),
        ensures
            shown@.len() == self@.visible.len(),
            forall|k: int|
                0 <= k < shown@.len() ==> 0 <= self@.visible[k] < self.hosts().len()
                    && *#[trigger] shown@[k] == self.hosts()[self@.visible[k]],
    {
        proof {
            lemma_matches_below(self@.entries, self@.query, self@.entries.len() as int);
        }
        let mut shown: Vec<&SSHConfigValues> = Vec::new();
        let mut k: usize = 0;
        while k < self.state.shown_indices.len()
            invariant
                self.wf(),
                k <= self.state.shown_indices@.len(),
                shown@.len() == k,
                forall|l: int|
                    0 <= l < self@.visible.len() ==> 0 <= #[trigger] self@.visible[l]
                        < self.hosts().len(),
                forall|l: int|
                    0 <= l < k ==> *#[trigger] shown@[l] == self.hosts()[self@.visible[l]],
            decreases self.state.shown_indices@.len() - k,
        {
            let index = self.state.shown_indices[k];
            assert(self@.visible[k as int] == index);
            shown.push(&self.ssh_config_values[index]);
            k += 1;
        }
        shown
    }

    /// Works out anew which hosts are shown, and settles the highlight on
    /// what is left.
    fn recalculate_shown(&mut self)
        requires
            old(self).indexed(),
        ensures
            final(self).wf(),
            final(self).hosts() == old(self).hosts(),
            final(self)@ == old(self)@.recalculate_shown(),
    {
        let mut shown: Vec<usize> = Vec::new();
        let mut i: usize = 0;
        let ghost entries = self@.entries;
        let ghost query = self@.query;
        proof {
            assert(positions(shown@) =~= matches_below(entries, query, 0));
        }
        while i < self.searchable_strings.len()
            invariant
                *self == *old(self),
                entries == self@.entries,
                query == self@.query,
                i <= self.searchable_strings@.len(),
                positions(shown@) == matches_below(entries, query, i as int),
            decreases self.searchable_strings@.len() - i,
        {
            if str_contains(self.searchable_strings[i].as_str(), self.state.current_input.as_str()) {
                proof {
                    lemma_positions_push(shown@, i);
                }
                shown.push(i);
            }
            i += 1;
        }
        let count = shown.len();
        self.state.shown_indices = shown;
        self.state.selected = if count == 0 {
            None
        } else {
            match self.state.selected {
                None => Some(0),
                Some(h) => if h >= count {
                    Some((count - 1) as usize)
                } else {
                    Some(h)
                },
            }
        };
    }

    /// The user typed `ch`.
    fn add_char(&mut self, ch: char)
        requires
            old(self).wf(),
        ensures
            final(self).wf(),
            final(self).hosts() == old(self).hosts(),
            final(self)@ == old(self)@.add_char(ch),
    {
        self.state.current_input.push(ch);
        self.recalculate_shown();
    }

    /// The user pressed backspace.
    fn delete_char(&mut self)
        requires
            old(self).wf(),
        ensures
            final(self).wf(),
            final(self).hosts() == old(self).hosts(),
            final(self)@ == old(self)@.delete_char(),
    {
        if self.state.current_input.pop().is_some() {
            self.recalculate_shown();
        }
    }

    /// The highlight moves up the list.
    fn up(&mut self)
        requires
            old(self).wf(),
        ensures
            final(self).wf(),
            final(self).hosts() == old(self).hosts(),
            final(self)@ == old(self)@.up(),
    {
        match self.state.selected {
            Some(h) => {
                let count = self.state.shown_indices.len();
                assert(h < self@.visible.len() == count);
                if h + 1 < count {
                    self.state.selected = Some(h + 1);
                }
            },
            None => {},
        }
    }

    /// The highlight moves down the list.
    fn down(&mut self)
        requires
            old(self).wf(),
        ensures
            final(self).wf(),
            final(self).hosts() == old(self).hosts(),
            final(self)@ == old(self)@.down(),
    {
        match self.state.selected {
            Some(h) => {
                if h > 0 {
                    self.state.selected = Some((h - 1) as usize);
                }
            },
            None => {},
        }
    }

    /// The user confirmed.
    fn select(&mut self)
        requires
            old(self).wf(),
        ensures
            final(self).wf(),
            final(self).hosts() == old(self).hosts(),
            final(self)@ == old(self)@.select(),
    {
        if self.state.selected.is_some() {
            self.state.exit = ExitState::Selected;
        }
    }

    /// The user cancelled.
    fn exit(&mut self)
        requires
            old(self).wf(),
        ensures
            final(self).wf(),
            final(self).hosts() == old(self).hosts(),
            final(self)@ == old(self)@.exit(),
    {
        self.state.exit = ExitState::Exit;
    }

    /// Takes a pressed key. Once the choice is over, keys do nothing.
    pub fn handle_key_event(&mut self, key_event: KeyEvent)
        requires
            old(self).wf(),
        ensures
            final(self).wf(),
            final(self).hosts() == old(self).hosts(),
            final(self)@ == old(self)@.handle_key_event(key_event),
    {
        if self.state.exit != ExitState::Running {
            return;
        }
        match key_event.code {
            KeyCode::Esc => self.exit(),
            KeyCode::Up => self.up(),
            KeyCode::Down => self.down(),
            KeyCode::Backspace => self.delete_char(),
            KeyCode::Enter => self.select(),
            KeyCode::Char(ch) => {
                if key_event.control && ch == 'p' {
                    self.up()
                } else if key_event.control && ch == 'n' {
                    self.down()
                } else {
                    self.add_char(ch)
                }
            },
            KeyCode::Other => {},
        }
    }

    /// Takes an event of the terminal: a key press does what the key says,
    /// and anything else does nothing.
    pub fn handle_event(&mut self, event: Event)
        requires
            old(self).wf(),
        ensures
            final(self).wf(),
            final(self).hosts() == old(self).hosts(),
            final(self)@ == old(self)@.handle_event(event),
    {
        match event {
            Event::Press(key_event) => self.handle_key_event(key_event),
            Event::Other => {},
        }
    }

    /// Ends the choice and hands out the host that was chosen, if one was.
    pub fn into_selected(self) -> (chosen: Option<SSHConfigValues>)
        requires
            self.wf(),
        ensures
            match chosen {
                Some(host) => self@.chosen() matches Some(index) && 0 <= index < self.hosts().len()
                    && host == self.hosts()[index],
                None => self@.chosen() is None,
            },
    {
        proof {
            lemma_matches_below(self@.entries, self@.query, self@.entries.len() as int);
        }
        let App { state, searchable_strings: _, ssh_config_values } = self;
        let mut ssh_config_values = ssh_config_values;
        match state.exit {
            ExitState::Selected => match state.selected {
                Some(h) => {
                    let index = state.shown_indices[h];
                    assert(self@.visible[h as int] == index);
                    Some(ssh_config_values.remove(index))
                },
                None => None,
            },
            _ => None,
        }
    }

    /// Takes the events in their order until the choice is over or the events
    /// run out, and hands out the host that was chosen, if one was.
    pub fn run(self, events: Vec<Event>) -> (chosen: Option<SSHConfigValues>)
        requires
            self.wf(),
        ensures
            match chosen {
                Some(host) => self@.run(events@).chosen() matches Some(index) && 0 <= index
                    < self.hosts().len() && host == self.hosts()[index],
                None => self@.run(events@).chosen() is None,
            },
    {
        let mut app = self;
        let mut i: usize = 0;
        proof {
            assert(events@.take(0) =~= Seq::empty());
        }
        while i < events.len()
            invariant
                i <= events@.len(),
                app.wf(),
                app.hosts() == self.hosts(),
                app@ == self@.run(events@.take(i as int)),
            decreases events@.len() - i,
        {
            proof {
                let next = events@.take(i + 1);
                assert(next.drop_last() =~= events@.take(i as int));
                assert(next.last() == events@[i as int]);
            }
            app.handle_event(events[i]);
            i += 1;
        }
        proof {
            assert(events@.take(events@.len() as int) =~= events@);
        }
        app.into_selected()
    }
}

/// Every host of `listable(values)` can be listed.
pub proof fn lemma_listable(values: Seq<SSHConfigValues>)
    ensures
        forall|k: int|
            0 <= k < listable(values).len() ==> is_listable(#[trigger] listable(values)[k]@),
    decreases values.len(),
{
    if values.len() > 0 {
        lemma_listable(values.drop_last());
        let shorter = listable(values.drop_last());
        assert forall|k: int| 0 <= k < listable(values).len() implies is_listable(
            #[trigger] listable(values)[k]@,
        ) by {
            if k < shorter.len() {
                assert(listable(values)[k] == shorter[k]);
            }
        }
    }
}

} // verus!
