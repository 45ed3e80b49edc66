//! The interface state: which commands are visible, which one is selected,
//! and how each key press changes the state.

use vstd::prelude::*;

use crate::config::{Command, CommandView, commands_view, strings_view};
use crate::search::{fuzzy_match, opt_int, spec_fuzzy_match};
use crate::sorting::{insert_pos, sort_by};

verus! {

/// Whether keys navigate or edit the search query.
#[derive(PartialEq, Eq, Structural, Clone, Copy, Debug)]
pub enum Mode {
    Normal,
    Search,
}

/// What the caller does after a key press.
pub enum Action {
    Quit,
    Copy(String),
    Continue,
}

/// The characters of an `Action`.
pub enum ActionView {
    Quit,
    Copy(Seq<char>),
    Continue,
}

impl View for Action {
    type V = ActionView;

    open spec fn view(&self) -> ActionView {
        match self {
            Action::Quit => ActionView::Quit,
            Action::Copy(s) => ActionView::Copy(s@),
            Action::Continue => ActionView::Continue,
        }
    }
}

/// The key of a key press.
#[derive(PartialEq, Eq, Structural, Clone, Copy, Debug)]
pub enum KeyCode {
    Char(char),
    Esc,
    Enter,
    Tab,
    BackTab,
    Backspace,
    Up,
    Down,
    Other,
}

/// A key press: its key, and whether Control was held.
#[derive(PartialEq, Eq, Structural, Clone, Copy, Debug)]
pub struct KeyInput {
    pub code: KeyCode,
    pub ctrl: bool,
}

/// The state of the interface. `selected_tab` is a category index, or
/// `categories.len()` for the "All" tab; `visible` holds indices into
/// `commands`; `selected` is a position in `visible`.
pub struct App {
    pub commands: Vec<Command>,
    pub categories: Vec<String>,
    pub selected_tab: usize,
    pub search_query: String,
    pub mode: Mode,
    pub visible: Vec<usize>,
    pub selected: Option<usize>,
}

/// The state as plain values.
pub struct AppView {
    pub commands: Seq<CommandView>,
    pub categories: Seq<Seq<char>>,
    pub selected_tab: int,
    pub search_query: Seq<char>,
    pub mode: Mode,
    pub visible: Seq<int>,
    pub selected: Option<int>,
}

pub open spec fn usizes_view(v: Seq<usize>) -> Seq<int> {
    v.map_values(|i: usize| i as int)
}

pub open spec fn opt_usize_view(o: Option<usize>) -> Option<int> {
    match o {
        Some(i) => Some(i as int),
        None => None,
    }
}

impl View for App {
    type V = AppView;

    open spec fn view(&self) -> AppView {
        AppView {
            commands: commands_view(self.commands@),
            categories: strings_view(self.categories@),
            selected_tab: self.selected_tab as int,
            search_query: self.search_query@,
            mode: self.mode,
            visible: usizes_view(self.visible@),
            selected: opt_usize_view(self.selected),
        }
    }
}

impl AppView {
    /// The state is consistent: the tab is a category or "All", every visible
    /// index names a command, and the selection is in the visible list (or is
    /// 0, where moving up from nothing leaves it).
    pub open spec fn wf(self) -> bool {
        &&& self.categories.len() < usize::MAX
        &&& 0 <= self.selected_tab <= self.categories.len()
        &&& forall|i: int| 0 <= i < self.visible.len() ==> 0 <= #[trigger] self.visible[i] < self.commands.len()
        &&& (self.selected matches Some(s) ==> s == 0 || 0 <= s < self.visible.len())
    }
}

/// The score of a command for a query: twice the name's score plus the
/// description's, either alone when only it matches, or none.
pub open spec fn command_score(query: Seq<char>, c: CommandView) -> Option<int> {
    match (spec_fuzzy_match(query, c.name), spec_fuzzy_match(query, c.description)) {
        (Some(n), Some(d)) => Some(n * 2 + d),
        (Some(n), None) => Some(n * 2),
        (None, Some(d)) => Some(d),
        (None, None) => None,
    }
}

/// The (index, score) of each of the first `n` commands that the query
/// matches, in command order.
pub open spec fn scored_prefix(query: Seq<char>, cmds: Seq<CommandView>, n: nat) -> Seq<(int, int)>
    decreases n,
{
    if n == 0 {
        Seq::empty()
    } else {
        let prev = scored_prefix(query, cmds, (n - 1) as nat);
        match command_score(query, cmds[n - 1]) {
            Some(s) => prev.push((n - 1, s)),
            None => prev,
        }
    }
}

/// Higher scores first.
pub open spec fn score_le() -> spec_fn((int, int), (int, int)) -> bool {
    |a: (int, int), b: (int, int)| a.1 >= b.1
}

/// The indices of the commands that match the query, best score first, ties
/// in command order.
pub open spec fn search_results(query: Seq<char>, cmds: Seq<CommandView>) -> Seq<int> {
    sort_by(scored_prefix(query, cmds, cmds.len()), score_le()).map_values(|p: (int, int)| p.0)
}

/// The indices of the first `n` commands in category `cat`, in order.
pub open spec fn category_members(cmds: Seq<CommandView>, cat: Seq<char>, n: nat) -> Seq<int>
    decreases n,
{
    if n == 0 {
        Seq::empty()
    } else {
        let prev = category_members(cmds, cat, (n - 1) as nat);
        if cmds[n - 1].category == cat {
            prev.push(n - 1)
        } else {
            prev
        }
    }
}

/// The visible commands: the search results while there is a query;
/// otherwise the commands of the selected category, or all of them on the
/// "All" tab.
pub open spec fn spec_visible(v: AppView) -> Seq<int> {
    if v.search_query.len() > 0 {
        search_results(v.search_query, v.commands)
    } else if v.selected_tab < v.categories.len() {
        category_members(v.commands, v.categories[v.selected_tab], v.commands.len())
    } else {
        Seq::new(v.commands.len(), |i: int| i)
    }
}

/// The state after the visible list is recomputed: the selection stays where
/// it was (0 when there was none), pulled back to the last visible command,
/// and is none when nothing is visible.
pub open spec fn refreshed(v: AppView) -> AppView {
    let vis = spec_visible(v);
    AppView {
        visible: vis,
        selected: if vis.len() == 0 {
            None
        } else {
            let cur = match v.selected {
                Some(s) => s,
                None => 0,
            };
            Some(if cur < vis.len() - 1 { cur } else { vis.len() - 1 })
        },
        ..v
    }
}

} // verus!

verus! {

/// The name of the selected command, when the selection is on a visible one.
pub open spec fn selected_name(v: AppView) -> Option<Seq<char>> {
    match v.selected {
        Some(s) => if 0 <= s < v.visible.len() {
            Some(v.commands[v.visible[s]].name)
        } else {
            None
        },
        None => None,
    }
}

/// Enter: copy the selected command's name, if there is one.
pub open spec fn copy_action(v: AppView) -> ActionView {
    match selected_name(v) {
        Some(n) => ActionView::Copy(n),
        None => ActionView::Continue,
    }
}

/// Moving down: one further, but not past the last visible command.
pub open spec fn select_next_view(v: AppView) -> AppView {
    if v.visible.len() == 0 {
        v
    } else {
        let cur = match v.selected {
            Some(s) => s,
            None => 0,
        };
        let max = v.visible.len() - 1;
        AppView { selected: Some(if cur + 1 < max { cur + 1 } else { max }), ..v }
    }
}

/// Moving up: one back, but not before the first.
pub open spec fn select_prev_view(v: AppView) -> AppView {
    let cur = match v.selected {
        Some(s) => s,
        None => 0,
    };
    AppView { selected: Some(if cur > 0 { cur - 1 } else { 0 }), ..v }
}

/// The tab after `tab` ("All" wraps round to the first category).
pub open spec fn next_tab(tab: int, n: int) -> int {
    (tab + 1) % (n + 1)
}

/// The tab before `tab` (the first category wraps round to "All").
pub open spec fn prev_tab(tab: int, n: int) -> int {
    if tab == 0 {
        n
    } else {
        tab - 1
    }
}

/// Switching to tab `tab`: the selection goes to the top and the visible
/// list is recomputed.
pub open spec fn switch_tab(v: AppView, tab: int) -> AppView {
    refreshed(AppView { selected_tab: tab, selected: Some(0), ..v })
}

/// A key in normal mode.
pub open spec fn spec_handle_normal(v: AppView, code: KeyCode) -> (AppView, ActionView) {
    match code {
        KeyCode::Char('q') | KeyCode::Esc => (v, ActionView::Quit),
        KeyCode::Char('j') | KeyCode::Down => (select_next_view(v), ActionView::Continue),
        KeyCode::Char('k') | KeyCode::Up => (select_prev_view(v), ActionView::Continue),
        KeyCode::Tab => (
            switch_tab(v, next_tab(v.selected_tab, v.categories.len() as int)),
            ActionView::Continue,
        ),
        KeyCode::BackTab => (
            switch_tab(v, prev_tab(v.selected_tab, v.categories.len() as int)),
            ActionView::Continue,
        ),
        KeyCode::Char('/') => (
            AppView { mode: Mode::Search, search_query: Seq::empty(), ..v },
            ActionView::Continue,
        ),
        KeyCode::Enter => (v, copy_action(v)),
        _ => (v, ActionView::Continue),
    }
}

/// A key in search mode.
pub open spec fn spec_handle_search(v: AppView, code: KeyCode) -> (AppView, ActionView) {
    match code {
        KeyCode::Esc => (
            refreshed(AppView { mode: Mode::Normal, search_query: Seq::empty(), ..v }),
            ActionView::Continue,
        ),
        KeyCode::Enter => (v, copy_action(v)),
        KeyCode::Backspace => (
            refreshed(
                AppView {
                    search_query: if v.search_query.len() > 0 {
                        v.search_query.drop_last()
                    } else {
                        v.search_query
                    },
                    ..v
                },
            ),
            ActionView::Continue,
        ),
        KeyCode::Char(c) => (
            refreshed(AppView { search_query: v.search_query.push(c), ..v }),
            ActionView::Continue,
        ),
        KeyCode::Down => (select_next_view(v), ActionView::Continue),
        KeyCode::Up => (select_prev_view(v), ActionView::Continue),
        _ => (v, ActionView::Continue),
    }
}

/// A key press: Control-C quits in every mode; other keys go by the mode.
pub open spec fn spec_handle_key(v: AppView, key: KeyInput) -> (AppView, ActionView) {
    if key.ctrl && key.code == KeyCode::Char('c') {
        (v, ActionView::Quit)
    } else {
        match v.mode {
            Mode::Normal => spec_handle_normal(v, key.code),
            Mode::Search => spec_handle_search(v, key.code),
        }
    }
}

} // verus!

verus! {

pub open spec fn pairs_view(v: Seq<(usize, i64)>) -> Seq<(int, int)> {
    v.map_values(|p: (usize, i64)| (p.0 as int, p.1 as int))
}

/// Sorts (index, score) pairs by score, highest first, stably.
pub fn sort_by_score_desc(v: &Vec<(usize, i64)>) -> (r: Vec<(usize, i64)>)
    ensures
        pairs_view(r@) == sort_by(pairs_view(v@), score_le()),
{
    let ghost input = pairs_view(v@);
    let mut out: Vec<(usize, i64)> = Vec::new();
    let mut n: usize = 0;
    assert(input.take(0) =~= Seq::<(int, int)>::empty());
    while n < v.len()
        invariant
            n <= v@.len(),
            input == pairs_view(v@),
            pairs_view(out@) == sort_by(input.take(n as int), score_le()),
        decreases v@.len() - n,
    {
        let x = v[n];
        let ghost xv = (x.0 as int, x.1 as int);
        assert(input[n as int] == xv);
        let ghost out_v = pairs_view(out@);
        let mut p: usize = 0;
        assert(out_v.skip(0) =~= out_v);
        if out.len() == 0 {
            assert(out_v.skip(0) =~= Seq::<(int, int)>::empty());
        }
        while p < out.len()
            invariant_except_break
                p <= out@.len(),
                out_v == pairs_view(out@),
                xv == (x.0 as int, x.1 as int),
                insert_pos(out_v, xv, score_le()) == p + insert_pos(out_v.skip(p as int), xv, score_le()),
            ensures
                p <= out@.len(),
                p == insert_pos(out_v, xv, score_le()),
            decreases out@.len() - p,
        {
            assert(out_v.skip(p as int)[0] == out_v[p as int]);
            assert(out_v[p as int] == (out@[p as int].0 as int, out@[p as int].1 as int));
            let ghost le = score_le();
            assert(le(out_v[p as int], xv) == (out_v[p as int].1 >= xv.1));
            if out[p].1 < x.1 {
                assert(insert_pos(out_v.skip(p as int), xv, le) == 0);
                break;
            }
            assert(out_v.skip(p as int).drop_first() =~= out_v.skip(p + 1));
            assert(insert_pos(out_v.skip(p as int), xv, le) == 1 + insert_pos(
                out_v.skip(p + 1),
                xv,
                le,
            ));
            p = p + 1;
            if p == out.len() {
                assert(out_v.skip(p as int) =~= Seq::<(int, int)>::empty());
            }
        }
        proof {
            if p == out@.len() {
                assert(out_v.skip(p as int) =~= Seq::<(int, int)>::empty());
            }
        }
        out.insert(p, x);
        proof {
            assert(input.take(n + 1).drop_last() =~= input.take(n as int));
            assert(input.take(n + 1).last() == xv);
            assert(pairs_view(out@) =~= out_v.insert(p as int, xv));
        }
        n = n + 1;
    }
    assert(input.take(n as int) =~= input);
    out
}

} // verus!

verus! {

/// The (index, score) of each command that `query` matches, in command order.
fn scored_commands(query: &String, commands: &Vec<Command>) -> (r: Vec<(usize, i64)>)
    ensures
        pairs_view(r@) == scored_prefix(query@, commands_view(commands@), commands@.len()),
{
    let ghost cmds = commands_view(commands@);
    let mut scored: Vec<(usize, i64)> = Vec::new();
    let mut i: usize = 0;
    while i < commands.len()
        invariant
            i <= commands@.len(),
            cmds == commands_view(commands@),
            pairs_view(scored@) == scored_prefix(query@, cmds, i as nat),
        decreases commands@.len() - i,
    {
        let cmd = &commands[i];
        assert(cmds[i as int] == cmd@);
        let name_score = fuzzy_match(query.as_str(), cmd.name.as_str());
        let desc_score = fuzzy_match(query.as_str(), cmd.description.as_str());
        let score = match (name_score, desc_score) {
            (Some(n), Some(d)) => Some(n * 2 + d),
            (Some(n), None) => Some(n * 2),
            (None, Some(d)) => Some(d),
            (None, None) => None,
        };
        assert(opt_int(score) == command_score(query@, cmds[i as int]));
        match score {
            Some(s) => {
                let ghost before = scored@;
                scored.push((i, s));
                assert(pairs_view(scored@) =~= pairs_view(before).push((i as int, s as int)));
            },
            None => {},
        }
        i = i + 1;
    }
    scored
}

/// The indices of the commands in category `cat`, in order.
fn category_indices(commands: &Vec<Command>, cat: &String) -> (r: Vec<usize>)
    ensures
        usizes_view(r@) == category_members(commands_view(commands@), cat@, commands@.len()),
{
    let ghost cmds = commands_view(commands@);
    let mut r: Vec<usize> = Vec::new();
    let mut i: usize = 0;
    while i < commands.len()
        invariant
            i <= commands@.len(),
            cmds == commands_view(commands@),
            usizes_view(r@) == category_members(cmds, cat@, i as nat),
        decreases commands@.len() - i,
    {
        assert(cmds[i as int] == commands@[i as int]@);
        if commands[i].category == *cat {
            let ghost before = r@;
            r.push(i);
            assert(usizes_view(r@) =~= usizes_view(before).push(i as int));
        }
        i = i + 1;
    }
    r
}

/// The indices `0..n`.
fn all_indices(n: usize) -> (r: Vec<usize>)
    ensures
        usizes_view(r@) == Seq::new(n as nat, |i: int| i),
{
    let mut r: Vec<usize> = Vec::new();
    let mut i: usize = 0;
    while i < n
        invariant
            i <= n,
            r@.len() == i,
            usizes_view(r@) == Seq::new(i as nat, |k: int| k),
        decreases n - i,
    {
        let ghost before = r@;
        r.push(i);
        assert forall|k: int| 0 <= k < i + 1 implies usizes_view(r@)[k] == k by {
            if k < i {
                assert(r@[k] == before[k]);
                assert(usizes_view(before)[k] == Seq::new(i as nat, |j: int| j)[k]);
            }
        }
        assert(usizes_view(r@) =~= Seq::new((i + 1) as nat, |k: int| k));
        i = i + 1;
    }
    r
}

/// The first elements of the pairs.
fn first_of_pairs(v: &Vec<(usize, i64)>) -> (r: Vec<usize>)
    ensures
        usizes_view(r@) == pairs_view(v@).map_values(|p: (int, int)| p.0),
{
    let mut r: Vec<usize> = Vec::new();
    let mut i: usize = 0;
    while i < v.len()
        invariant
            i <= v@.len(),
            r@.len() == i,
            usizes_view(r@) == pairs_view(v@).map_values(|p: (int, int)| p.0).take(i as int),
        decreases v@.len() - i,
    {
        r.push(v[i].0);
        assert(usizes_view(r@) =~= pairs_view(v@).map_values(|p: (int, int)| p.0).take(i + 1));
        i = i + 1;
    }
    assert(pairs_view(v@).map_values(|p: (int, int)| p.0).take(i as int) =~= pairs_view(
        v@,
    ).map_values(|p: (int, int)| p.0));
    r
}

} // verus!

verus! {

/// Appends `c` to `s` (`String::push`). Claimed: the characters of `s` gain
/// `c` at the end.
#[verifier::external_body]
fn push_char(s: &mut String, c: char)
    ensures
        final(s)@ == old(s)@.push(c),
{
    s.push(c);
}

/// Removes the last character of `s` (`String::pop`). Claimed: on a
/// non-empty string the last character is removed and returned; on an empty
/// one nothing changes and `None` comes back.
#[verifier::external_body]
fn pop_char(s: &mut String) -> (r: Option<char>)
    ensures
        old(s)@.len() == 0 ==> r is None && final(s)@ == old(s)@,
        old(s)@.len() > 0 ==> r == Some(old(s)@.last()) && final(s)@ == old(s)@.drop_last(),
{
    s.pop()
}

impl App {
    /// The interface state for `commands` (sorted) and `categories`: the
    /// first tab, no query, normal mode, the top command selected.
    pub fn new(commands: Vec<Command>, categories: Vec<String>) -> (r: App)
        requires
            categories@.len() < usize::MAX,
        ensures
            r@.wf(),
            r@ == refreshed(
                AppView {
                    commands: commands_view(commands@),
                    categories: strings_view(categories@),
                    selected_tab: 0,
                    search_query: Seq::empty(),
                    mode: Mode::Normal,
                    visible: Seq::new(commands@.len(), |i: int| i),
                    selected: Some(0),
                },
            ),
    {
        let visible = all_indices(commands.len());
        let mut app = App {
            visible,
            commands,
            categories,
            selected_tab: 0,
            search_query: String::new(),
            mode: Mode::Normal,
            selected: Some(0),
        };
        assert(app@.wf());
        app.refresh_visible();
        app
    }

    /// Recomputes the visible commands (see `spec_visible`) and pulls the
    /// selection into them.
    pub fn refresh_visible(&mut self)
        requires
            old(self)@.wf(),
        ensures
            final(self)@ == refreshed(old(self)@),
            final(self)@.wf(),
    {
        let ghost v = self@;
        let visible = if !self.search_query.as_str().is_empty() {
            let scored = scored_commands(&self.search_query, &self.commands);
            let sorted = sort_by_score_desc(&scored);
            first_of_pairs(&sorted)
        } else if self.selected_tab < self.categories.len() {
            assert(v.categories[self.selected_tab as int] == self.categories@[self.selected_tab as int]@);
            category_indices(&self.commands, &self.categories[self.selected_tab])
        } else {
            all_indices(self.commands.len())
        };
        assert(usizes_view(visible@) == spec_visible(v));
        let sel = if visible.len() == 0 {
            None
        } else {
            let current = match self.selected {
                Some(s) => s,
                None => 0,
            };
            let max = visible.len() - 1;
            Some(if current < max { current } else { max })
        };
        self.visible = visible;
        self.selected = sel;
        proof {
            let w = refreshed(v);
            assert(self@.visible == w.visible);
            assert(self@.selected == w.selected);
            lemma_visible_in_range(v);
        }
    }
}

} // verus!

verus! {

proof fn lemma_scored_prefix_in_range(query: Seq<char>, cmds: Seq<CommandView>, n: nat)
    requires
        n <= cmds.len(),
    ensures
        forall|i: int|
            0 <= i < scored_prefix(query, cmds, n).len() ==> 0 <= #[trigger] scored_prefix(
                query,
                cmds,
                n,
            )[i].0 < n,
    decreases n,
{
    if n > 0 {
        let m = (n - 1) as nat;
        lemma_scored_prefix_in_range(query, cmds, m);
        let prev = scored_prefix(query, cmds, m);
        assert forall|i: int| 0 <= i < scored_prefix(query, cmds, n).len() implies 0
            <= #[trigger] scored_prefix(query, cmds, n)[i].0 < n by {
            if i < prev.len() {
                assert(scored_prefix(query, cmds, n)[i] == prev[i]);
            }
        }
    }
}

proof fn lemma_category_members_in_range(cmds: Seq<CommandView>, cat: Seq<char>, n: nat)
    requires
        n <= cmds.len(),
    ensures
        forall|i: int|
            0 <= i < category_members(cmds, cat, n).len() ==> 0 <= #[trigger] category_members(
                cmds,
                cat,
                n,
            )[i] < n,
    decreases n,
{
    if n > 0 {
        let m = (n - 1) as nat;
        lemma_category_members_in_range(cmds, cat, m);
        let prev = category_members(cmds, cat, m);
        assert forall|i: int| 0 <= i < category_members(cmds, cat, n).len() implies 0
            <= #[trigger] category_members(cmds, cat, n)[i] < n by {
            if i < prev.len() {
                assert(category_members(cmds, cat, n)[i] == prev[i]);
            }
        }
    }
}

/// Every visible index names a command.
pub proof fn lemma_visible_in_range(v: AppView)
    ensures
        forall|i: int|
            0 <= i < spec_visible(v).len() ==> 0 <= #[trigger] spec_visible(v)[i] < v.commands.len(),
{
    let n = v.commands.len();
    if v.search_query.len() > 0 {
        let scored = scored_prefix(v.search_query, v.commands, n);
        let sorted = sort_by(scored, score_le());
        lemma_scored_prefix_in_range(v.search_query, v.commands, n);
        crate::sorting::lemma_sort_by_permutes(scored, score_le());
        assert forall|i: int| 0 <= i < sorted.len() implies 0 <= #[trigger] sorted[i].0 < n by {
            vstd::seq_lib::to_multiset_contains(sorted, sorted[i]);
            assert(sorted.contains(sorted[i]));
            vstd::seq_lib::to_multiset_contains(scored, sorted[i]);
            let w = choose|w: int| 0 <= w < scored.len() && scored[w] == sorted[i];
            assert(scored[w].0 < n);
        }
    } else if v.selected_tab < v.categories.len() {
        lemma_category_members_in_range(v.commands, v.categories[v.selected_tab], n);
    }
}

} // verus!

verus! {

impl App {
    /// The name of the selected command, when the selection is on a visible one.
    fn selected_command_name(&self) -> (r: Option<String>)
        requires
            self@.wf(),
        ensures
            opt_string_view(r) == selected_name(self@),
    {
        let sel = match self.selected {
            Some(s) => s,
            None => return None,
        };
        if sel < self.visible.len() {
            let i = self.visible[sel];
            assert(self@.visible[sel as int] == i as int);
            assert(self@.commands[i as int] == self.commands@[i as int]@);
            Some(self.commands[i].name.clone())
        } else {
            None
        }
    }

    /// The selected command, for the preview: the visible command at the
    /// selection (the top one when there is no selection), if any.
    pub fn selected_command(&self) -> (r: Option<&Command>)
        requires
            self@.wf(),
        ensures
            ({
                let pos = match self@.selected {
                    Some(s) => s,
                    None => 0,
                };
                match r {
                    Some(c) => 0 <= pos < self@.visible.len() && c@ == self@.commands[self@.visible[pos]],
                    None => !(0 <= pos < self@.visible.len()),
                }
            }),
    {
        let pos = match self.selected {
            Some(s) => s,
            None => 0,
        };
        if pos < self.visible.len() {
            let i = self.visible[pos];
            assert(self@.visible[pos as int] == i as int);
            assert(self@.commands[i as int] == self.commands@[i as int]@);
            Some(&self.commands[i])
        } else {
            None
        }
    }

    fn select_next(&mut self)
        requires
            old(self)@.wf(),
        ensures
            final(self)@ == select_next_view(old(self)@),
            final(self)@.wf(),
    {
        if self.visible.len() == 0 {
            return;
        }
        let current = match self.selected {
            Some(s) => s,
            None => 0,
        };
        let max = self.visible.len() - 1;
        self.selected = Some(if current + 1 < max { current + 1 } else { max });
    }

    fn select_prev(&mut self)
        requires
            old(self)@.wf(),
        ensures
            final(self)@ == select_prev_view(old(self)@),
            final(self)@.wf(),
    {
        let current = match self.selected {
            Some(s) => s,
            None => 0,
        };
        self.selected = Some(if current > 0 { current - 1 } else { 0 });
    }

    fn copy_selected(&self) -> (r: Action)
        requires
            self@.wf(),
        ensures
            r@ == copy_action(self@),
    {
        match self.selected_command_name() {
            Some(name) => Action::Copy(name),
            None => Action::Continue,
        }
    }

    fn handle_normal(&mut self, code: KeyCode) -> (r: Action)
        requires
            old(self)@.wf(),
        ensures
            (final(self)@, r@) == spec_handle_normal(old(self)@, code),
            final(self)@.wf(),
    {
        match code {
            KeyCode::Char('q') | KeyCode::Esc => Action::Quit,
            KeyCode::Char('j') | KeyCode::Down => {
                self.select_next();
                Action::Continue
            },
            KeyCode::Char('k') | KeyCode::Up => {
                self.select_prev();
                Action::Continue
            },
            KeyCode::Tab => {
                self.selected_tab = (self.selected_tab + 1) % (self.categories.len() + 1);
                self.selected = Some(0);
                assert(self@.visible == old(self)@.visible);
                self.refresh_visible();
                Action::Continue
            },
            KeyCode::BackTab => {
                if self.selected_tab == 0 {
                    self.selected_tab = self.categories.len();
                } else {
                    self.selected_tab = self.selected_tab - 1;
                }
                self.selected = Some(0);
                assert(self@.visible == old(self)@.visible);
                self.refresh_visible();
                Action::Continue
            },
            KeyCode::Char('/') => {
                self.mode = Mode::Search;
                self.search_query = String::new();
                Action::Continue
            },
            KeyCode::Enter => self.copy_selected(),
            _ => Action::Continue,
        }
    }

    fn handle_search(&mut self, code: KeyCode) -> (r: Action)
        requires
            old(self)@.wf(),
        ensures
            (final(self)@, r@) == spec_handle_search(old(self)@, code),
            final(self)@.wf(),
    {
        match code {
            KeyCode::Esc => {
                self.mode = Mode::Normal;
                self.search_query = String::new();
                assert(self@.visible == old(self)@.visible);
                self.refresh_visible();
                Action::Continue
            },
            KeyCode::Enter => self.copy_selected(),
            KeyCode::Backspace => {
                pop_char(&mut self.search_query);
                assert(self@.visible == old(self)@.visible);
                self.refresh_visible();
                Action::Continue
            },
            KeyCode::Char(c) => {
                push_char(&mut self.search_query, c);
                assert(self@.visible == old(self)@.visible);
                self.refresh_visible();
                Action::Continue
            },
            KeyCode::Down => {
                self.select_next();
                Action::Continue
            },
            KeyCode::Up => {
                self.select_prev();
                Action::Continue
            },
            _ => Action::Continue,
        }
    }

    /// Handles a key press (see `spec_handle_key`) and says what to do next.
    pub fn handle_key(&mut self, key: KeyInput) -> (r: Action)
        requires
            old(self)@.wf(),
        ensures
            (final(self)@, r@) == spec_handle_key(old(self)@, key),
            final(self)@.wf(),
    {
        if key.ctrl && key.code == KeyCode::Char('c') {
            return Action::Quit;
        }
        match self.mode {
            Mode::Normal => self.handle_normal(key.code),
            Mode::Search => self.handle_search(key.code),
        }
    }
}

pub open spec fn opt_string_view(o: Option<String>) -> Option<Seq<char>> {
    match o {
        Some(s) => Some(s@),
        None => None,
    }
}

} // verus!

verus! {

/// In normal mode, Tab and then Shift+Tab come back to the same tab, and so
/// do Shift+Tab and then Tab.
pub proof fn lemma_tab_backtab_roundtrip(v: AppView)
    requires
        v.wf(),
        v.mode == Mode::Normal,
    ensures
        spec_handle_key(
            spec_handle_key(v, KeyInput { code: KeyCode::Tab, ctrl: false }).0,
            KeyInput { code: KeyCode::BackTab, ctrl: false },
        ).0.selected_tab == v.selected_tab,
        spec_handle_key(
            spec_handle_key(v, KeyInput { code: KeyCode::BackTab, ctrl: false }).0,
            KeyInput { code: KeyCode::Tab, ctrl: false },
        ).0.selected_tab == v.selected_tab,
{
    let n = v.categories.len() as int;
    let t = v.selected_tab;
    if t < n {
        vstd::arithmetic::div_mod::lemma_small_mod((t + 1) as nat, (n + 1) as nat);
    } else {
        vstd::arithmetic::div_mod::lemma_mod_self_0(n + 1);
    }
    if t == 0 {
        vstd::arithmetic::div_mod::lemma_mod_self_0(n + 1);
    } else {
        vstd::arithmetic::div_mod::lemma_small_mod(t as nat, (n + 1) as nat);
    }
}

/// After the visible list is recomputed, the selection is on a visible
/// command, and there is none exactly when nothing is visible: it stays
/// where it was (the top when there was none) unless that is past the end,
/// when it goes to the last visible command. Nothing else but the visible
/// list changes.
pub proof fn lemma_refreshed_selection(v: AppView)
    requires
        v.wf(),
    ensures
        refreshed(v).selected is None <==> refreshed(v).visible.len() == 0,
        refreshed(v).selected matches Some(s) ==> 0 <= s < refreshed(v).visible.len(),
        ({
            let n = spec_visible(v).len();
            let cur = match v.selected {
                Some(s) => s,
                None => 0,
            };
            &&& refreshed(v).visible == spec_visible(v)
            &&& refreshed(v).selected == (if n == 0 {
                Option::<int>::None
            } else if cur <= n - 1 {
                Some(cur)
            } else {
                Some(n - 1)
            })
            &&& refreshed(v) == (AppView { visible: refreshed(v).visible, selected: refreshed(v).selected, ..v })
        }),
{
}

proof fn lemma_scored_prefix_scores(query: Seq<char>, cmds: Seq<CommandView>, n: nat)
    requires
        n <= cmds.len(),
    ensures
        ({
            let sp = scored_prefix(query, cmds, n);
            &&& forall|i: int|
                0 <= i < sp.len() ==> 0 <= #[trigger] sp[i].0 < n && command_score(query, cmds[sp[i].0])
                    == Some(sp[i].1)
            &&& forall|j: int|
                0 <= j < n && command_score(query, cmds[j]) is Some ==> exists|i: int|
                    0 <= i < sp.len() && #[trigger] sp[i].0 == j
        }),
    decreases n,
{
    if n > 0 {
        let m = (n - 1) as nat;
        lemma_scored_prefix_scores(query, cmds, m);
        let prev = scored_prefix(query, cmds, m);
        let sp = scored_prefix(query, cmds, n);
        assert forall|i: int| 0 <= i < sp.len() implies 0 <= #[trigger] sp[i].0 < n
            && command_score(query, cmds[sp[i].0]) == Some(sp[i].1) by {
            if i < prev.len() {
                assert(sp[i] == prev[i]);
            }
        }
        assert forall|j: int| 0 <= j < n && command_score(query, cmds[j]) is Some implies exists|
            i: int,
        | 0 <= i < sp.len() && #[trigger] sp[i].0 == j by {
            if j < m {
                let i = choose|i: int| 0 <= i < prev.len() && #[trigger] prev[i].0 == j;
                assert(sp[i] == prev[i]);
            } else {
                assert(sp[sp.len() - 1].0 == j);
            }
        }
    }
}

proof fn lemma_scored_prefix_increasing(query: Seq<char>, cmds: Seq<CommandView>, n: nat)
    requires
        n <= cmds.len(),
    ensures
        forall|i: int, j: int|
            0 <= i < j < scored_prefix(query, cmds, n).len() ==> #[trigger] scored_prefix(
                query,
                cmds,
                n,
            )[i].0 < #[trigger] scored_prefix(query, cmds, n)[j].0,
    decreases n,
{
    if n > 0 {
        let m = (n - 1) as nat;
        lemma_scored_prefix_increasing(query, cmds, m);
        lemma_scored_prefix_in_range(query, cmds, m);
        let prev = scored_prefix(query, cmds, m);
        let sp = scored_prefix(query, cmds, n);
        assert forall|i: int, j: int| 0 <= i < j < sp.len() implies #[trigger] sp[i].0
            < #[trigger] sp[j].0 by {
            assert(sp[i] == prev[i]);
            if j < prev.len() {
                assert(sp[j] == prev[j]);
            }
        }
    }
}

/// While a query is typed, the visible commands are exactly those that the
/// query matches (in name or description), each once, best score first.
pub proof fn lemma_search_results(query: Seq<char>, cmds: Seq<CommandView>)
    ensures
        ({
            let sp = scored_prefix(query, cmds, cmds.len());
            let sorted = sort_by(sp, score_le());
            let res = search_results(query, cmds);
            &&& res.len() == sorted.len()
            &&& forall|i: int|
                0 <= i < res.len() ==> 0 <= #[trigger] res[i] < cmds.len() && command_score(
                    query,
                    cmds[res[i]],
                ) == Some(sorted[i].1)
            &&& forall|j: int|
                0 <= j < cmds.len() && command_score(query, cmds[j]) is Some ==> res.contains(j)
            &&& forall|i: int, k: int| 0 <= i < k < sorted.len() ==> #[trigger] sorted[i].1 >= #[trigger] sorted[k].1
        }),
{
    let n = cmds.len();
    let sp = scored_prefix(query, cmds, n);
    let sorted = sort_by(sp, score_le());
    let res = search_results(query, cmds);
    lemma_scored_prefix_scores(query, cmds, n);
    crate::sorting::lemma_sort_by_permutes(sp, score_le());
    assert(is_total_preorder_scores()) by {
        assert forall|a: (int, int), b: (int, int)| #[trigger] score_le()(a, b) || #[trigger] score_le()(b, a) by {}
        assert forall|a: (int, int), b: (int, int), c: (int, int)|
            #[trigger] score_le()(a, b) && #[trigger] score_le()(b, c) implies score_le()(a, c) by {}
    }
    crate::sorting::lemma_sort_by_sorted(sp, score_le());
    assert forall|i: int| 0 <= i < res.len() implies 0 <= #[trigger] res[i] < cmds.len()
        && command_score(query, cmds[res[i]]) == Some(sorted[i].1) by {
        vstd::seq_lib::to_multiset_contains(sorted, sorted[i]);
        assert(sorted.contains(sorted[i]));
        vstd::seq_lib::to_multiset_contains(sp, sorted[i]);
        let w = choose|w: int| 0 <= w < sp.len() && sp[w] == sorted[i];
        assert(sp[w].0 < n);
    }
    assert forall|j: int| 0 <= j < cmds.len() && command_score(query, cmds[j]) is Some implies res.contains(j) by {
        let i = choose|i: int| 0 <= i < sp.len() && #[trigger] sp[i].0 == j;
        vstd::seq_lib::to_multiset_contains(sp, sp[i]);
        assert(sp.contains(sp[i]));
        vstd::seq_lib::to_multiset_contains(sorted, sp[i]);
        let w = choose|w: int| 0 <= w < sorted.len() && sorted[w] == sp[i];
        assert(res[w] == j);
    }
    assert forall|i: int, k: int| 0 <= i < k < sorted.len() implies #[trigger] sorted[i].1 >= #[trigger] sorted[k].1 by {
        assert(score_le()(sorted[i], sorted[k]));
    }
}

pub open spec fn is_total_preorder_scores() -> bool {
    crate::sorting::is_total_preorder(score_le())
}

} // verus!

verus! {

/// In search mode, typing a character and then deleting it gives back the
/// query and the visible list that were there before.
pub proof fn lemma_type_then_backspace(v: AppView, c: char)
    requires
        v.wf(),
        v.mode == Mode::Search,
    ensures
        ({
            let typed = spec_handle_key(v, KeyInput { code: KeyCode::Char(c), ctrl: false }).0;
            let back = spec_handle_key(typed, KeyInput { code: KeyCode::Backspace, ctrl: false }).0;
            &&& back.search_query == v.search_query
            &&& back.visible == spec_visible(v)
            &&& back.mode == Mode::Search
        }),
{
    assert(v.search_query.push(c).drop_last() =~= v.search_query);
}

} // verus!

verus! {

/// What each key does, said directly. Control-C, and `q` or Esc in normal
/// mode, quit and change nothing. Down (and `j` in normal mode) moves the
/// selection one further but not past the last visible command; Up (and `k`
/// in normal mode) moves it one back but not before the first; neither
/// touches anything else. Enter copies the name of the selected visible
/// command and changes nothing. `/` in normal mode starts an empty search
/// without touching the list. In search mode a character is added to the
/// query, Backspace removes the last one, and Esc leaves search with an
/// empty query. Tab and Shift+Tab in normal mode move to the next and
/// previous tab, wrapping round through "All". No key changes the commands
/// or the categories.
pub proof fn lemma_key_effects(v: AppView, key: KeyInput)
    requires
        v.wf(),
    ensures
        ({
            let (w, a) = spec_handle_key(v, key);
            let n = v.visible.len();
            let cur = match v.selected {
                Some(s) => s,
                None => 0,
            };
            let ctrl_c = key.ctrl && key.code == KeyCode::Char('c');
            let normal = v.mode == Mode::Normal;
            let search = v.mode == Mode::Search;
            let down = !ctrl_c && (key.code == KeyCode::Down || (normal && key.code == KeyCode::Char('j')));
            let up = !ctrl_c && (key.code == KeyCode::Up || (normal && key.code == KeyCode::Char('k')));
            let nc = v.categories.len() as int;
            &&& w.commands == v.commands
            &&& w.categories == v.categories
            &&& ctrl_c ==> a == ActionView::Quit && w == v
            &&& !ctrl_c && normal && (key.code == KeyCode::Char('q') || key.code == KeyCode::Esc)
                ==> a == ActionView::Quit && w == v
            &&& down && n == 0 ==> a == ActionView::Continue && w == v
            &&& down && n > 0 ==> a == ActionView::Continue && w == (AppView {
                selected: Some(if cur + 1 < n - 1 { cur + 1 } else { n - 1 }),
                ..v
            })
            &&& down && n > 0 && 0 <= cur < n ==> (w.selected matches Some(s) && cur <= s < n)
            &&& up ==> a == ActionView::Continue && w == (AppView {
                selected: Some(if cur > 0 { cur - 1 } else { 0 }),
                ..v
            })
            &&& !ctrl_c && key.code == KeyCode::Enter ==> w == v && a == (match v.selected {
                Some(s) => if 0 <= s < n {
                    ActionView::Copy(v.commands[v.visible[s]].name)
                } else {
                    ActionView::Continue
                },
                None => ActionView::Continue,
            })
            &&& !ctrl_c && normal && key.code == KeyCode::Char('/') ==> a == ActionView::Continue
                && w == (AppView { mode: Mode::Search, search_query: Seq::empty(), ..v })
            &&& !ctrl_c && search && (key.code matches KeyCode::Char(c)) ==> a
                == ActionView::Continue && w.mode == Mode::Search && w.search_query
                == v.search_query.push(key.code->Char_0) && w.selected_tab == v.selected_tab
            &&& !ctrl_c && search && key.code == KeyCode::Backspace ==> a == ActionView::Continue
                && w.mode == Mode::Search && w.search_query == (if v.search_query.len() > 0 {
                v.search_query.drop_last()
            } else {
                v.search_query
            })
            &&& !ctrl_c && search && key.code == KeyCode::Esc ==> a == ActionView::Continue
                && w.mode == Mode::Normal && w.search_query.len() == 0 && w.selected_tab
                == v.selected_tab
            &&& !ctrl_c && normal && key.code == KeyCode::Tab ==> a == ActionView::Continue
                && w.mode == Mode::Normal && w.search_query == v.search_query && w.selected_tab
                == (if v.selected_tab < nc { v.selected_tab + 1 } else { 0 })
            &&& !ctrl_c && normal && key.code == KeyCode::BackTab ==> a == ActionView::Continue
                && w.mode == Mode::Normal && w.search_query == v.search_query && w.selected_tab
                == (if v.selected_tab > 0 { v.selected_tab - 1 } else { nc })
            &&& (w.visible != v.visible ==> w.visible == spec_visible(w))
            &&& !ctrl_c && search && ((key.code matches KeyCode::Char(_)) || key.code
                == KeyCode::Backspace || key.code == KeyCode::Esc) ==> w.visible == spec_visible(w)
                && w.selected == (if w.visible.len() == 0 {
                Option::<int>::None
            } else {
                Some(if cur < w.visible.len() - 1 { cur } else { w.visible.len() - 1 })
            })
            &&& !ctrl_c && normal && (key.code == KeyCode::Tab || key.code == KeyCode::BackTab)
                ==> w.visible == spec_visible(w) && w.selected == (if w.visible.len() == 0 {
                Option::<int>::None
            } else {
                Some(0int)
            })
            &&& !ctrl_c && normal && !(key.code == KeyCode::Char('q') || key.code == KeyCode::Esc
                || key.code == KeyCode::Char('j') || key.code == KeyCode::Down || key.code
                == KeyCode::Char('k') || key.code == KeyCode::Up || key.code == KeyCode::Tab
                || key.code == KeyCode::BackTab || key.code == KeyCode::Char('/') || key.code
                == KeyCode::Enter) ==> w == v && a == ActionView::Continue
            &&& !ctrl_c && search && !((key.code matches KeyCode::Char(_)) || key.code
                == KeyCode::Esc || key.code == KeyCode::Enter || key.code == KeyCode::Backspace
                || key.code == KeyCode::Down || key.code == KeyCode::Up) ==> w == v && a
                == ActionView::Continue
        }),
{
    let nc = v.categories.len() as int;
    let t = v.selected_tab;
    if t < nc {
        vstd::arithmetic::div_mod::lemma_small_mod((t + 1) as nat, (nc + 1) as nat);
    } else {
        vstd::arithmetic::div_mod::lemma_mod_self_0(nc + 1);
    }
}

} // verus!

verus! {

/// The search weight of a command: twice its name's score plus its
/// description's score, a missing score counting as 0.
pub open spec fn match_weight(query: Seq<char>, c: CommandView) -> int {
    2 * match spec_fuzzy_match(query, c.name) {
        Some(n) => n,
        None => 0,
    } + match spec_fuzzy_match(query, c.description) {
        Some(d) => d,
        None => 0,
    }
}

proof fn lemma_category_members_exact(cmds: Seq<CommandView>, cat: Seq<char>, n: nat)
    requires
        n <= cmds.len(),
    ensures
        ({
            let m = category_members(cmds, cat, n);
            &&& forall|j: int| 0 <= j < n ==> (m.contains(j) <==> cmds[j].category == cat)
            &&& forall|i: int| 0 <= i < m.len() ==> 0 <= #[trigger] m[i] < n
            &&& forall|a: int, b: int| 0 <= a < b < m.len() ==> #[trigger] m[a] < #[trigger] m[b]
        }),
    decreases n,
{
    if n > 0 {
        let k = (n - 1) as nat;
        lemma_category_members_exact(cmds, cat, k);
        let prev = category_members(cmds, cat, k);
        let m = category_members(cmds, cat, n);
        assert forall|i: int| 0 <= i < m.len() implies 0 <= #[trigger] m[i] < n by {
            if i < prev.len() {
                assert(m[i] == prev[i]);
            }
        }
        assert forall|a: int, b: int| 0 <= a < b < m.len() implies #[trigger] m[a] < #[trigger] m[b] by {
            assert(m[a] == prev[a]);
            if b < prev.len() {
                assert(m[b] == prev[b]);
            }
        }
        assert forall|j: int| 0 <= j < n implies (m.contains(j) <==> cmds[j].category == cat) by {
            if j < k {
                if prev.contains(j) {
                    let w = choose|w: int| 0 <= w < prev.len() && prev[w] == j;
                    assert(m[w] == j);
                }
                if m.contains(j) {
                    let w = choose|w: int| 0 <= w < m.len() && m[w] == j;
                    if w < prev.len() {
                        assert(prev[w] == j);
                    }
                }
            } else {
                if cmds[j].category == cat {
                    assert(m[m.len() - 1] == j);
                }
                if m.contains(j) {
                    let w = choose|w: int| 0 <= w < m.len() && m[w] == j;
                    if w < prev.len() {
                        assert(prev[w] == j);
                    }
                }
            }
        }
    }
}

/// Which commands are visible, said directly. While there is a query, a
/// command is visible exactly when the query matches its name or its
/// description, and the visible commands come in order of falling weight
/// (`match_weight`), commands of equal weight in command order, so each one
/// once. Without a query, on a category tab a command is visible
/// exactly when it is in that category, in command order; on the "All" tab
/// every command is visible, in command order.
pub proof fn lemma_visible_contents(v: AppView)
    ensures
        ({
            let vis = spec_visible(v);
            let q = v.search_query;
            let cmds = v.commands;
            &&& forall|i: int| 0 <= i < vis.len() ==> 0 <= #[trigger] vis[i] < cmds.len()
            &&& q.len() > 0 ==> (forall|j: int|
                0 <= j < cmds.len() ==> (vis.contains(j) <==> (spec_fuzzy_match(q, cmds[j].name) is Some
                    || spec_fuzzy_match(q, cmds[j].description) is Some)))
            &&& q.len() > 0 ==> (forall|a: int, b: int|
                0 <= a < b < vis.len() ==> match_weight(q, cmds[#[trigger] vis[a]]) >= match_weight(
                    q,
                    cmds[#[trigger] vis[b]],
                ))
            &&& q.len() > 0 ==> (forall|a: int, b: int|
                0 <= a < b < vis.len() ==> match_weight(q, cmds[#[trigger] vis[a]]) > match_weight(
                    q,
                    cmds[#[trigger] vis[b]],
                ) || (match_weight(q, cmds[vis[a]]) == match_weight(q, cmds[vis[b]]) && vis[a]
                    < vis[b]))
            &&& q.len() == 0 && v.selected_tab < v.categories.len() ==> (forall|j: int|
                0 <= j < cmds.len() ==> (vis.contains(j) <==> cmds[j].category
                    == v.categories[v.selected_tab]))
            &&& q.len() == 0 && v.selected_tab < v.categories.len() ==> (forall|a: int, b: int|
                0 <= a < b < vis.len() ==> #[trigger] vis[a] < #[trigger] vis[b])
            &&& q.len() == 0 && v.selected_tab >= v.categories.len() ==> vis == Seq::new(
                cmds.len(),
                |i: int| i,
            )
        }),
{
    let q = v.search_query;
    let cmds = v.commands;
    lemma_visible_in_range(v);
    if q.len() > 0 {
        lemma_search_results(q, cmds);
        let sp = scored_prefix(q, cmds, cmds.len());
        let sorted = sort_by(sp, score_le());
        let vis = spec_visible(v);
        assert forall|j: int| 0 <= j < cmds.len() implies (vis.contains(j) <==> (spec_fuzzy_match(
            q,
            cmds[j].name,
        ) is Some || spec_fuzzy_match(q, cmds[j].description) is Some)) by {
            if vis.contains(j) {
                let w = choose|w: int| 0 <= w < vis.len() && vis[w] == j;
                assert(command_score(q, cmds[vis[w]]) == Some(sorted[w].1));
            }
        }
        assert forall|a: int, b: int| 0 <= a < b < vis.len() implies match_weight(
            q,
            cmds[#[trigger] vis[a]],
        ) >= match_weight(q, cmds[#[trigger] vis[b]]) by {
            assert(command_score(q, cmds[vis[a]]) == Some(sorted[a].1));
            assert(command_score(q, cmds[vis[b]]) == Some(sorted[b].1));
            assert(sorted[a].1 >= sorted[b].1);
        }
        assert(is_total_preorder_scores()) by {
            assert forall|a: (int, int), b: (int, int)| #[trigger] score_le()(a, b) || #[trigger] score_le()(b, a) by {}
            assert forall|a: (int, int), b: (int, int), c: (int, int)|
                #[trigger] score_le()(a, b) && #[trigger] score_le()(b, c) implies score_le()(a, c) by {}
        }
        lemma_scored_prefix_increasing(q, cmds, cmds.len());
        let key = |p: (int, int)| p.0;
        crate::sorting::lemma_sort_by_ties_in_order(sp, score_le(), key);
        assert forall|a: int, b: int| 0 <= a < b < vis.len() implies match_weight(
            q,
            cmds[#[trigger] vis[a]],
        ) > match_weight(q, cmds[#[trigger] vis[b]]) || (match_weight(q, cmds[vis[a]])
            == match_weight(q, cmds[vis[b]]) && vis[a] < vis[b]) by {
            assert(command_score(q, cmds[vis[a]]) == Some(sorted[a].1));
            assert(command_score(q, cmds[vis[b]]) == Some(sorted[b].1));
            assert(sorted[a].1 >= sorted[b].1);
            assert(vis[a] == sorted[a].0 && vis[b] == sorted[b].0);
            if sorted[a].1 == sorted[b].1 {
                assert(score_le()(sorted[b], sorted[a]));
                assert(key(sorted[a]) < key(sorted[b]));
            }
        }
    } else if v.selected_tab < v.categories.len() {
        lemma_category_members_exact(cmds, v.categories[v.selected_tab], cmds.len());
    }
}

} // verus!
