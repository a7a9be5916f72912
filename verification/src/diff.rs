//! The browser of repositories and diffs: what it shows and how the keys move it.
//!
//! The list keeps its selection in a `ListState` of ratatui, so that the
//! widget that draws the list can be handed the same state.

use ratatui::widgets::ListState;
use vstd::prelude::*;

use crate::git_data::GitData;
use crate::status::{classify_listed, spec_classify_listed, RepoState};
use crate::text::{chars_of, lines, rows, split_lines, starts_with, string_of};

verus! {

/// `ListState` of ratatui, the state of a list that is drawn: of what it
/// holds only the selection is spoken of, under the name `selected_index`.
#[verifier::external_type_specification]
#[verifier::external_body]
pub struct ExListState(ListState);

/// The index that a `ListState` of ratatui holds as selected, if it holds one.
pub uninterp spec fn selected_index(state: ListState) -> Option<usize>;

/// `ListState::default` of ratatui: a state in which nothing is selected.
pub assume_specification[ <ListState as Default>::default ]() -> (state: ListState)
    ensures
        selected_index(state) is None,
;

/// `ListState::with_selected` of ratatui: the same state with the given selection.
pub assume_specification[ ListState::with_selected ](
    state: ListState,
    selected: Option<usize>,
) -> (out: ListState)
    ensures
        selected_index(out) == selected,
;

/// `ListState::selected` of ratatui: the selection that the state holds.
pub assume_specification[ ListState::selected ](state: &ListState) -> (out: Option<usize>)
    ensures
        out == selected_index(*state),
;

/// `ListState::select_next` of ratatui: the index after the selected one,
/// which stays where it is at `usize::MAX`; index 0 where nothing was selected.
pub assume_specification[ ListState::select_next ](state: &mut ListState)
    ensures
        selected_index(*final(state)) == Some(spec_next(selected_index(*old(state)))),
;

/// `ListState::select_previous` of ratatui: the index before the selected
/// one, which stays where it is at 0; `usize::MAX` where nothing was selected.
pub assume_specification[ ListState::select_previous ](state: &mut ListState)
    ensures
        selected_index(*final(state)) == Some(spec_previous(selected_index(*old(state)))),
;

/// `ListState::select_first` of ratatui: index 0.
pub assume_specification[ ListState::select_first ](state: &mut ListState)
    ensures
        selected_index(*final(state)) == Some(0usize),
;

/// `ListState::select_last` of ratatui: `usize::MAX`, which the list
/// brings down to its last item when it is drawn.
pub assume_specification[ ListState::select_last ](state: &mut ListState)
    ensures
        selected_index(*final(state)) == Some(usize::MAX),
;

/// The index after the selected one.
pub open spec fn spec_next(selected: Option<usize>) -> usize {
    match selected {
        Some(i) => if i < usize::MAX {
            (i + 1) as usize
        } else {
            i
        },
        None => 0,
    }
}

/// The index before the selected one.
pub open spec fn spec_previous(selected: Option<usize>) -> usize {
    match selected {
        Some(i) => if i > 0 {
            (i - 1) as usize
        } else {
            i
        },
        None => usize::MAX,
    }
}

/// The part of the screen that the keys move in.
#[derive(Debug, Clone, Copy, PartialEq, Eq, Structural)]
pub enum FocusedWindow {
    PathList,
    DiffPreview,
}

/// A key that was pressed.
#[derive(Debug, Clone, Copy, PartialEq, Eq, Structural)]
pub enum Key {
    Char(char),
    Esc,
    Up,
    Down,
    Left,
    Right,
    PageUp,
    PageDown,
    Other,
}

/// What a key asks for.
#[derive(Debug, Clone, Copy, PartialEq, Eq, Structural)]
pub enum Action {
    Quit,
    SelectNext,
    SelectPrevious,
    HoverPathList,
    HoverDiffPreview,
    SelectFirst,
    SelectLast,
    Nothing,
}

/// How a line of a diff is drawn.
#[derive(Debug, Clone, Copy, PartialEq, Eq, Structural)]
pub enum LineKind {
    /// A line that was added.
    Added,
    /// A line that was removed.
    Removed,
    /// The head of a hunk.
    Hunk,
    /// The head of a file.
    Header,
    /// Any other line.
    Plain,
}

/// What is shown in place of a diff while no repository is selected.
pub const NOTHING_SELECTED: &'static str = "Nothing selected...";

/// What a key asks for.
pub open spec fn spec_action(key: Key) -> Action {
    match key {
        Key::Char(c) => if c == 'q' {
            Action::Quit
        } else if c == 'j' {
            Action::SelectNext
        } else if c == 'k' {
            Action::SelectPrevious
        } else if c == 'h' {
            Action::HoverPathList
        } else if c == 'l' {
            Action::HoverDiffPreview
        } else if c == 'g' {
            Action::SelectFirst
        } else if c == 'G' {
            Action::SelectLast
        } else {
            Action::Nothing
        },
        Key::Esc => Action::Quit,
        Key::Down => Action::SelectNext,
        Key::Up => Action::SelectPrevious,
        Key::Left => Action::HoverPathList,
        Key::Right => Action::HoverDiffPreview,
        Key::PageUp => Action::SelectFirst,
        Key::PageDown => Action::SelectLast,
        Key::Other => Action::Nothing,
    }
}

/// How a line of a diff is drawn: by its first character, and for a head
/// of a file by its first word.
pub open spec fn spec_line_kind(line: Seq<char>) -> LineKind {
    if line.len() == 0 {
        LineKind::Plain
    } else if line[0] == '+' {
        LineKind::Added
    } else if line[0] == '-' {
        LineKind::Removed
    } else if line[0] == '@' {
        LineKind::Hunk
    } else if "diff --git"@.is_prefix_of(line) || "index"@.is_prefix_of(line) {
        LineKind::Header
    } else {
        LineKind::Plain
    }
}

/// What a key asks for.
pub fn action(key: Key) -> (out: Action)
    ensures
        out == spec_action(key),
{
    match key {
        Key::Char(c) => if c == 'q' {
            Action::Quit
        } else if c == 'j' {
            Action::SelectNext
        } else if c == 'k' {
            Action::SelectPrevious
        } else if c == 'h' {
            Action::HoverPathList
        } else if c == 'l' {
            Action::HoverDiffPreview
        } else if c == 'g' {
            Action::SelectFirst
        } else if c == 'G' {
            Action::SelectLast
        } else {
            Action::Nothing
        },
        Key::Esc => Action::Quit,
        Key::Down => Action::SelectNext,
        Key::Up => Action::SelectPrevious,
        Key::Left => Action::HoverPathList,
        Key::Right => Action::HoverDiffPreview,
        Key::PageUp => Action::SelectFirst,
        Key::PageDown => Action::SelectLast,
        Key::Other => Action::Nothing,
    }
}

/// How the line is drawn.
pub fn line_kind(line: &[char]) -> (out: LineKind)
    ensures
        out == spec_line_kind(line@),
{
    if line.len() == 0 {
        return LineKind::Plain;
    }
    let first = line[0];
    if first == '+' {
        LineKind::Added
    } else if first == '-' {
        LineKind::Removed
    } else if first == '@' {
        LineKind::Hunk
    } else {
        let file = chars_of("diff --git");
        let index = chars_of("index");
        if starts_with(line, file.as_slice()) || starts_with(line, index.as_slice()) {
            LineKind::Header
        } else {
            LineKind::Plain
        }
    }
}

/// The lines of a diff, each with the way it is drawn.
pub fn styled_lines(diff: &str) -> (out: Vec<(String, LineKind)>)
    ensures
        out@.len() == lines(diff@).len(),
        forall|i: int|
            0 <= i < out@.len() ==> (#[trigger] out@[i]).0@ == lines(diff@)[i] && out@[i].1
                == spec_line_kind(lines(diff@)[i]),
{
    let chars = chars_of(diff);
    let all = split_lines(chars.as_slice());
    let mut out: Vec<(String, LineKind)> = Vec::new();
    let mut i: usize = 0;
    while i < all.len()
        invariant
            i <= all.len(),
            rows(all@) == lines(diff@),
            out@.len() == i,
            forall|k: int|
                0 <= k < i ==> (#[trigger] out@[k]).0@ == lines(diff@)[k] && out@[k].1
                    == spec_line_kind(lines(diff@)[k]),
        decreases all.len() - i,
    {
        proof {
            assert(rows(all@)[i as int] == all@[i as int]@);
        }
        let kind = line_kind(all[i].as_slice());
        out.push((string_of(all[i].as_slice()), kind));
        i += 1;
    }
    proof {
        assert(rows(all@).len() == all@.len());
    }
    out
}

/// The browser: a list of repositories beside the diff of the selected one.
#[derive(Debug)]
pub struct App {
    state: ListState,
    diff_scroll: u16,
    max_diff_scroll: u16,
    focused_window: FocusedWindow,
    base_path: String,
    items: Vec<(String, GitData)>,
}

/// What the browser holds.
pub struct AppView {
    /// The index of the selected repository.
    pub selected: Option<usize>,
    /// How many lines the diff is scrolled down.
    pub diff_scroll: u16,
    /// How far the diff that was shown last can be scrolled.
    pub max_diff_scroll: u16,
    /// The part of the screen that the keys move in.
    pub focused_window: FocusedWindow,
    /// The directory that was searched.
    pub base_path: Seq<char>,
    /// The repositories, each with its state.
    pub items: Seq<(String, GitData)>,
}

impl AppView {
    /// The browser after the key for the next entry.
    pub open spec fn select_next(self) -> AppView {
        match self.focused_window {
            FocusedWindow::PathList => AppView {
                selected: Some(spec_next(self.selected)),
                diff_scroll: 0,
                ..self
            },
            FocusedWindow::DiffPreview => AppView {
                diff_scroll: if self.diff_scroll < u16::MAX {
                    (self.diff_scroll + 1) as u16
                } else {
                    self.diff_scroll
                },
                ..self
            },
        }
    }

    /// The browser after the key for the previous entry.
    pub open spec fn select_previous(self) -> AppView {
        match self.focused_window {
            FocusedWindow::PathList => AppView {
                selected: Some(spec_previous(self.selected)),
                diff_scroll: 0,
                ..self
            },
            FocusedWindow::DiffPreview => AppView {
                diff_scroll: if self.diff_scroll > 0 {
                    (self.diff_scroll - 1) as u16
                } else {
                    self.diff_scroll
                },
                ..self
            },
        }
    }

    /// The browser after the key for the first entry.
    pub open spec fn select_first(self) -> AppView {
        match self.focused_window {
            FocusedWindow::PathList => AppView { selected: Some(0usize), diff_scroll: 0, ..self },
            FocusedWindow::DiffPreview => AppView { diff_scroll: 0, ..self },
        }
    }

    /// The browser after the key for the last entry.
    pub open spec fn select_last(self) -> AppView {
        match self.focused_window {
            FocusedWindow::PathList => AppView {
                selected: Some(usize::MAX),
                diff_scroll: 0,
                ..self
            },
            FocusedWindow::DiffPreview => AppView { diff_scroll: self.max_diff_scroll, ..self },
        }
    }

    /// The browser after the given action. To quit changes nothing.
    pub open spec fn after(self, action: Action) -> AppView {
        match action {
            Action::SelectNext => self.select_next(),
            Action::SelectPrevious => self.select_previous(),
            Action::SelectFirst => self.select_first(),
            Action::SelectLast => self.select_last(),
            Action::HoverPathList => AppView { focused_window: FocusedWindow::PathList, ..self },
            Action::HoverDiffPreview => AppView {
                focused_window: FocusedWindow::DiffPreview,
                ..self
            },
            Action::Quit => self,
            Action::Nothing => self,
        }
    }

    /// The diff that is shown: that of the selected repository, or a
    /// notice where none is selected or the selection is beyond the list.
    pub open spec fn shown_diff(self) -> Seq<char> {
        match self.selected {
            Some(i) => if i < self.items.len() {
                self.items[i as int].1.diff@
            } else {
                NOTHING_SELECTED@
            },
            None => NOTHING_SELECTED@,
        }
    }

    /// The browser after its diff was drawn: where a repository is
    /// selected, the diff can be scrolled by the number of its lines, cut
    /// to sixteen bits.
    pub open spec fn drawn(self) -> AppView {
        match self.selected {
            Some(i) => if i < self.items.len() {
                AppView {
                    max_diff_scroll: (lines(self.items[i as int].1.diff@).len() % 0x10000) as u16,
                    ..self
                }
            } else {
                self
            },
            None => self,
        }
    }
}

impl View for App {
    type V = AppView;

    closed spec fn view(&self) -> AppView {
        AppView {
            selected: selected_index(self.state),
            diff_scroll: self.diff_scroll,
            max_diff_scroll: self.max_diff_scroll,
            focused_window: self.focused_window,
            base_path: self.base_path@,
            items: self.items@,
        }
    }
}

impl App {
    /// A browser of the given repositories. The first one is selected, the
    /// keys move in the list, and the diff stands at its top.
    pub fn new(base_path: String, git_data: Vec<(String, GitData)>) -> (out: App)
        ensures
            out@ == (AppView {
                selected: Some(0usize),
                diff_scroll: 0,
                max_diff_scroll: 0,
                focused_window: FocusedWindow::PathList,
                base_path: base_path@,
                items: git_data@,
            }),
    {
        App {
            state: ListState::default().with_selected(Some(0)),
            diff_scroll: 0,
            max_diff_scroll: 0,
            focused_window: FocusedWindow::PathList,
            base_path,
            items: git_data,
        }
    }

    /// Moves down by one: in the list to the next repository, which puts
    /// the diff back at its top, in the diff by one line.
    pub fn select_next(&mut self)
        ensures
            final(self)@ == old(self)@.select_next(),
    {
        match self.focused_window {
            FocusedWindow::PathList => {
                self.state.select_next();
                self.diff_scroll = 0;
            },
            FocusedWindow::DiffPreview => {
                self.diff_scroll = self.diff_scroll.saturating_add(1);
            },
        }
    }

    /// Moves up by one: in the list to the previous repository, which puts
    /// the diff back at its top, in the diff by one line.
    pub fn select_previous(&mut self)
        ensures
            final(self)@ == old(self)@.select_previous(),
    {
        match self.focused_window {
            FocusedWindow::PathList => {
                self.state.select_previous();
                self.diff_scroll = 0;
            },
            FocusedWindow::DiffPreview => {
                self.diff_scroll = self.diff_scroll.saturating_sub(1);
            },
        }
    }

    /// Moves to the top: of the list, which puts the diff back at its top
    /// too, or of the diff.
    pub fn select_first(&mut self)
        ensures
            final(self)@ == old(self)@.select_first(),
    {
        match self.focused_window {
            FocusedWindow::PathList => {
                self.state.select_first();
                self.diff_scroll = 0;
            },
            FocusedWindow::DiffPreview => {
                self.diff_scroll = 0;
            },
        }
    }

    /// Moves to the end: of the list, which puts the diff back at its top,
    /// or of the diff as far as it was found to scroll.
    pub fn select_last(&mut self)
        ensures
            final(self)@ == old(self)@.select_last(),
    {
        match self.focused_window {
            FocusedWindow::PathList => {
                self.state.select_last();
                self.diff_scroll = 0;
            },
            FocusedWindow::DiffPreview => {
                self.diff_scroll = self.max_diff_scroll;
            },
        }
    }

    /// Lets the keys move in the list.
    pub fn hover_path_list(&mut self)
        ensures
            final(self)@ == (AppView { focused_window: FocusedWindow::PathList, ..old(self)@ }),
    {
        self.focused_window = FocusedWindow::PathList;
    }

    /// Lets the keys move in the diff.
    pub fn hover_diff_preview(&mut self)
        ensures
            final(self)@ == (AppView { focused_window: FocusedWindow::DiffPreview, ..old(self)@ }),
    {
        self.focused_window = FocusedWindow::DiffPreview;
    }

    /// Does what the key asks for, and says whether the browser goes on.
    /// Only `q` and Esc end it.
    pub fn handle_key(&mut self, key: Key) -> (goes_on: bool)
        ensures
            goes_on == !(spec_action(key) is Quit),
            final(self)@ == old(self)@.after(spec_action(key)),
    {
        match action(key) {
            Action::Quit => {
                return false;
            },
            Action::SelectNext => self.select_next(),
            Action::SelectPrevious => self.select_previous(),
            Action::HoverPathList => self.hover_path_list(),
            Action::HoverDiffPreview => self.hover_diff_preview(),
            Action::SelectFirst => self.select_first(),
            Action::SelectLast => self.select_last(),
            Action::Nothing => {},
        }
        true
    }

    /// The diff to draw, and with it how far it can be scrolled.
    pub fn diff_preview(&mut self) -> (out: String)
        ensures
            out@ == old(self)@.shown_diff(),
            final(self)@ == old(self)@.drawn(),
    {
        match self.state.selected() {
            Some(i) => {
                if i < self.items.len() {
                    let diff = self.items[i].1.diff.clone();
                    let chars = chars_of(diff.as_str());
                    let all = split_lines(chars.as_slice());
                    let count = all.len();
                    proof {
                        assert(rows(all@).len() == lines(diff@).len());
                    }
                    self.max_diff_scroll = (count % 0x10000) as u16;
                    return diff;
                }
            },
            None => {},
        }
        NOTHING_SELECTED.to_owned()
    }

    /// The entries of the list: for each repository the path under which
    /// it is shown, followed by ` .. `, and the state that closes the entry.
    pub fn list_entries(&self) -> (out: Vec<(String, RepoState)>)
        ensures
            out@.len() == self@.items.len(),
            forall|i: int|
                0 <= i < out@.len() ==> (#[trigger] out@[i]).0@ == self@.items[i].0@ + " .. "@
                    && out@[i].1 == spec_classify_listed(self@.items[i].1.status@),
    {
        let mut out: Vec<(String, RepoState)> = Vec::new();
        let mut i: usize = 0;
        while i < self.items.len()
            invariant
                i <= self.items@.len(),
                out@.len() == i,
                forall|k: int|
                    0 <= k < i ==> (#[trigger] out@[k]).0@ == self.items@[k].0@ + " .. "@
                        && out@[k].1 == spec_classify_listed(self.items@[k].1.status@),
            decreases self.items.len() - i,
        {
            let mut text = self.items[i].0.clone();
            text.append(" .. ");
            let state = classify_listed(&self.items[i].1);
            out.push((text, state));
            i += 1;
        }
        out
    }

    /// The state of the list, for the widget that draws it. The widget
    /// may move the selection: it brings one that lies beyond the list
    /// down to the last item.
    pub fn list_state(&mut self) -> (state: &mut ListState)
        ensures
            selected_index(*state) == old(self)@.selected,
            final(self)@ == (AppView { selected: selected_index(*final(state)), ..old(self)@ }),
    {
        &mut self.state
    }

    /// The directory that was searched.
    pub fn base_path(&self) -> (out: &String)
        ensures
            out@ == self@.base_path,
    {
        &self.base_path
    }

    /// The repositories, each with its state.
    pub fn items(&self) -> (out: &Vec<(String, GitData)>)
        ensures
            out@ == self@.items,
    {
        &self.items
    }

    /// The index of the selected repository.
    pub fn selected(&self) -> (out: Option<usize>)
        ensures
            out == self@.selected,
    {
        self.state.selected()
    }

    /// How many lines the diff is scrolled down.
    pub fn diff_scroll(&self) -> (out: u16)
        ensures
            out == self@.diff_scroll,
    {
        self.diff_scroll
    }

    /// How far the diff that was shown last can be scrolled.
    pub fn max_diff_scroll(&self) -> (out: u16)
        ensures
            out == self@.max_diff_scroll,
    {
        self.max_diff_scroll
    }

    /// The part of the screen that the keys move in.
    pub fn focused_window(&self) -> (out: FocusedWindow)
        ensures
            out == self@.focused_window,
    {
        self.focused_window
    }
}

} // verus!
