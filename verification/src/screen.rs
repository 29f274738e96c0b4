//! What the settings screen shows: where its windows stand, and what they say.

use vstd::prelude::*;
use vstd::string::*;

use crate::finder::{shown_from, shown_paths, FinderView, RootFinder, RootFinderFocus};
use crate::numeral::{decimal, decimal_usize};
use crate::text;
use crate::tui::{AppView, ConfigApp, Field};

verus! {

// Windows.

/// A part of the screen.
#[derive(Clone, Copy, Debug, PartialEq, Eq, Structural)]
pub struct Area {
    pub x: u16,
    pub y: u16,
    pub width: u16,
    pub height: u16,
}

impl Area {
    /// Whether its far corner can be named.
    pub open spec fn is_on_screen(self) -> bool {
        self.x + self.width <= u16::MAX && self.y + self.height <= u16::MAX
    }

    /// Whether it does not reach beyond another.
    pub open spec fn lies_in(self, outer: Area) -> bool {
        &&& outer.x <= self.x && self.x + self.width <= outer.x + outer.width
        &&& outer.y <= self.y && self.y + self.height <= outer.y + outer.height
    }
}

pub open spec fn smaller(left: int, right: int) -> int {
    if left < right {
        left
    } else {
        right
    }
}

/// What is left of a length without its margin.
pub open spec fn within_margin(length: int, margin: int) -> int {
    if length > margin {
        length - margin
    } else {
        0
    }
}

/// A window in the middle of an area, no larger than the area.
pub open spec fn centered(width: int, height: int, area: Area) -> Area {
    let width = smaller(width, area.width as int);
    let height = smaller(height, area.height as int);
    Area {
        x: (area.x + (area.width - width) / 2) as u16,
        y: (area.y + (area.height - height) / 2) as u16,
        width: width as u16,
        height: height as u16,
    }
}

fn min(left: u16, right: u16) -> (least: u16)
    ensures
        least == smaller(left as int, right as int),
{
    if left < right {
        left
    } else {
        right
    }
}

pub fn centered_rect(width: u16, height: u16, area: Area) -> (window: Area)
    requires
        area.is_on_screen(),
    ensures
        window == centered(width as int, height as int, area),
        window.lies_in(area),
{
    let width = min(width, area.width);
    let height = min(height, area.height);
    Area {
        x: area.x + (area.width - width) / 2,
        y: area.y + (area.height - height) / 2,
        width,
        height,
    }
}

/// The window in which a setting is typed.
pub fn editor_area(area: Area) -> (window: Area)
    requires
        area.is_on_screen(),
    ensures
        window == centered(smaller(within_margin(area.width as int, 8), 88), 7, area),
        window.lies_in(area),
{
    centered_rect(min(area.width.saturating_sub(8), 88), 7, area)
}

/// The window in which one of so many options is chosen.
pub fn picker_area(options: usize, area: Area) -> (window: Area)
    requires
        area.is_on_screen(),
        options + 4 <= u16::MAX,
    ensures
        window == centered(
            smaller(within_margin(area.width as int, 8), 88),
            smaller(options + 4, within_margin(area.height as int, 2)),
            area,
        ),
        window.lies_in(area),
{
    centered_rect(
        min(area.width.saturating_sub(8), 88),
        min(options as u16 + 4, area.height.saturating_sub(2)),
        area,
    )
}

/// The window in which a directory is looked for.
pub fn finder_area(area: Area) -> (window: Area)
    requires
        area.is_on_screen(),
    ensures
        window == centered(
            smaller(within_margin(area.width as int, 6), 96),
            smaller(16, within_margin(area.height as int, 2)),
            area,
        ),
        window.lies_in(area),
{
    centered_rect(
        min(area.width.saturating_sub(6), 96),
        min(16, area.height.saturating_sub(2)),
        area,
    )
}

// The screen.

/// What stands before the settings.
#[derive(Clone, Copy, Debug, PartialEq, Eq, Structural)]
pub enum Overlay {
    Nothing,
    Picker,
    Finder,
    Editor(Field),
}

/// The window that is open, if any.
pub fn overlay(app: &ConfigApp) -> (shown: Overlay)
    ensures
        shown == (if app@.picker is Some {
            Overlay::Picker
        } else if app@.root_finder is Some {
            Overlay::Finder
        } else {
            match app@.editing {
                Some(field) => Overlay::Editor(field),
                None => Overlay::Nothing,
            }
        }),
{
    if app.picker.is_some() {
        Overlay::Picker
    } else if app.root_finder.is_some() {
        Overlay::Finder
    } else {
        match app.editing {
            Some(field) => Overlay::Editor(field),
            None => Overlay::Nothing,
        }
    }
}

/// What is said of changes that are not written yet.
pub fn unsaved_mark(app: &ConfigApp) -> (mark: &'static str)
    ensures
        mark@ == (if app@.dirty {
            " [unsaved]"@
        } else {
            ""@
        }),
{
    if app.dirty {
        " [unsaved]"
    } else {
        ""
    }
}

/// The lines below the settings.
pub open spec fn footer_of(app: AppView) -> Seq<Seq<char>> {
    seq![
        app.message,
        "Enter apply/select  S save config  I init vault  R reset  Q quit"@,
        "profile-root: Ctrl-F opens an editable HOME path filter; Tab focuses paths"@,
    ]
}

pub fn footer(app: &ConfigApp) -> (lines: Vec<String>)
    ensures
        lines.deep_view() == footer_of(app@),
{
    let mut lines: Vec<String> = Vec::new();
    lines.push(app.message.clone());
    lines.push("Enter apply/select  S save config  I init vault  R reset  Q quit".to_owned());
    lines.push(
        "profile-root: Ctrl-F opens an editable HOME path filter; Tab focuses paths".to_owned(),
    );
    assert(lines.deep_view() =~= footer_of(app@));
    lines
}

// The finder.

/// What is shown of a finder.
#[derive(Debug)]
pub struct FinderDisplay {
    pub title: String,
    pub filter: String,
    pub progress: String,
    pub hint: &'static str,
    pub heading: &'static str,
    pub paths: Vec<String>,
    pub selected: Option<usize>,
}

#[verifier::ext_equal]
pub struct FinderDisplayView {
    pub title: Seq<char>,
    pub filter: Seq<char>,
    pub progress: Seq<char>,
    pub hint: Seq<char>,
    pub heading: Seq<char>,
    pub paths: Seq<Seq<char>>,
    pub selected: Option<usize>,
}

impl View for FinderDisplay {
    type V = FinderDisplayView;

    open spec fn view(&self) -> FinderDisplayView {
        FinderDisplayView {
            title: self.title@,
            filter: self.filter@,
            progress: self.progress@,
            hint: self.hint@,
            heading: self.heading@,
            paths: self.paths.deep_view(),
            selected: self.selected,
        }
    }
}

/// How far the search has come.
pub open spec fn search_state(finder: FinderView) -> Seq<char> {
    if finder.refilter_cursor is Some {
        "filtering results"@
    } else if finder.scanning {
        "searching HOME"@
    } else {
        "search complete"@
    }
}

/// What is shown of a finder. The selection is marked while the paths have the
/// focus.
pub open spec fn display_of(finder: FinderView) -> FinderDisplayView {
    let filtering = finder.focus == RootFinderFocus::Filter;
    FinderDisplayView {
        title: " Find profile root · "@ + finder.search_root + " "@,
        filter: "path filter"@ + (if filtering {
            " [focused]"@
        } else {
            ""@
        }) + ": "@ + finder.query,
        progress: search_state(finder) + " · "@ + decimal(finder.matches.len())
            + " matches under "@ + finder.search_root,
        hint: if filtering {
            "Edit the HOME path or type freely (including j/k) · Ctrl-A clears · Tab focuses paths · Enter selects · Esc cancels"@
        } else {
            "Paths [focused]: arrows/jk move · Tab returns to filter · Enter selects · Esc cancels"@
        },
        heading: if filtering {
            " Paths (Tab to focus) "@
        } else {
            " Paths [focused] "@
        },
        paths: shown_paths(finder),
        selected: if !filtering && finder.matches.len() > 0 {
            Some((finder.selected - shown_from(finder)) as usize)
        } else {
            None
        },
    }
}

pub fn display(finder: &RootFinder) -> (shown: FinderDisplay)
    requires
        finder@.well_formed(),
    ensures
        shown@ == display_of(finder@),
        shown.selected matches Some(selected) ==> selected < shown.paths.len(),
{
    let filtering = finder.focus == RootFinderFocus::Filter;
    let (start, paths) = finder.visible_matching_paths();
    let root = finder.search_root.as_str();
    let state = if finder.refilter_cursor.is_some() {
        "filtering results"
    } else if finder.scanning {
        "searching HOME"
    } else {
        "search complete"
    };
    let mut progress = text::concat4(
        state,
        " · ",
        decimal_usize(finder.matches.len()).as_str(),
        " matches under ",
    );
    progress.append(root);
    let shown = FinderDisplay {
        title: text::concat3(" Find profile root · ", root, " "),
        filter: text::concat4(
            "path filter",
            if filtering {
                " [focused]"
            } else {
                ""
            },
            ": ",
            finder.query.as_str(),
        ),
        progress,
        hint: if filtering {
            "Edit the HOME path or type freely (including j/k) · Ctrl-A clears · Tab focuses paths · Enter selects · Esc cancels"
        } else {
            "Paths [focused]: arrows/jk move · Tab returns to filter · Enter selects · Esc cancels"
        },
        heading: if filtering {
            " Paths (Tab to focus) "
        } else {
            " Paths [focused] "
        },
        paths,
        selected: if !filtering && finder.matches.len() > 0 {
            Some(finder.selected - start)
        } else {
            None
        },
    };
    assert(finder@.matches.len() == finder.matches.len());
    assert(shown@ =~= display_of(finder@));
    assert(shown.paths.deep_view().len() == shown.paths.len());
    shown
}

} // verus!
