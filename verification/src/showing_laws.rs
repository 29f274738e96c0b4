//! What is shown, and what keys do: rows and columns, colours, and the settings.

use vstd::prelude::*;

use crate::config::{
    lemma_profile_index, lemma_profile_index_spec, normal_root, profile_index,
    upserted_profile_is_found, ConfigView, ProfileView, StorageMode,
};
use crate::conflict::{ConflictKind, ConflictView};
use crate::doctor::{DoctorLevel, FindingView};
use crate::error::Error;
use crate::memory::{title_of, MemoryView};
use crate::numeral::signed_decimal;
use crate::output::{
    aligned, colon_value_of, color_disabled, color_forced, highlighted, listing, padded, painted,
    painted_cells, resolve_color, row_of, width_of, widths_of, Cell, ColorChoice, Syntax, Tone,
};
use crate::picker::Motion;
use crate::report::{
    conflict_cells, dry_run_lines_of, ended_rows, ensure_committable, finding_row, memory_cells,
    profile_line_of, resolution_lines_of, resolved_line,
};
use crate::resolution::ResolutionView;
use crate::screen::{centered, Area};
use crate::text::{joined, pieces, trimmed};
use crate::text_laws::joined_pieces_read_back;
use crate::transaction::{DryRunReport, DryRunView};
use crate::tui::{
    has_active, pressed, set_to, AppView, Effect, Field, Key, KeyPress, PickerView, SurroundingsView,
};

verus! {

// Rows.

/// The texts of the cells of a row.
pub open spec fn texts_of(cells: Seq<Cell>) -> Seq<Seq<char>> {
    cells.map_values(|cell: Cell| cell.0)
}

/// Without colours a text is shown as it is; a program reads the cells of a row
/// back, with the tabs between them, where no cell holds a tab.
pub proof fn rows_read_back(cells: Seq<Cell>, tone: Tone, value: Seq<char>)
    requires
        cells.len() > 0,
        forall|i: int| 0 <= i < cells.len() ==> !(#[trigger] cells[i]).0.contains('\t'),
    ensures
        painted(value, tone, false) == value,
        pieces(row_of(cells, false), '\t') == texts_of(cells),
{
    reveal_strlit("\t");
    assert("\t"@ =~= seq!['\t']);
    let texts = texts_of(cells);
    assert(painted_cells(cells, false) =~= texts);
    assert forall|i: int| 0 <= i < texts.len() implies !(#[trigger] texts[i]).contains('\t') by {
        assert(texts[i] == cells[i].0);
    }
    joined_pieces_read_back(texts, '\t');
}

/// A program gets a line for each row and no headers; a reader gets the headers
/// before them.
pub proof fn listings_have_a_line_for_each_row(
    headers: Seq<Seq<char>>,
    rows: Seq<Seq<Cell>>,
    enabled: bool,
    at: int,
)
    requires
        0 <= at < rows.len(),
    ensures
        listing(headers, rows, false, enabled).len() == rows.len(),
        listing(headers, rows, false, enabled)[at] == row_of(rows[at], enabled),
        listing(headers, rows, true, enabled).len() == rows.len() + 1,
        listing(headers, rows, true, enabled)[at + 1] == aligned(
            rows[at],
            widths_of(
                seq![headers.map_values(|header: Seq<char>| (header, Tone::Key))] + rows,
                headers.len(),
            ),
            enabled,
        ),
{
}

/// A column is as wide as its widest cell, and no wider.
pub proof fn columns_fit_their_cells(rows: Seq<Seq<Cell>>, column: int)
    requires
        column >= 0,
    ensures
        forall|i: int|
            0 <= i < rows.len() && column < (#[trigger] rows[i]).len() ==> rows[i][column].0.len()
                <= width_of(rows, column),
        width_of(rows, column) > 0 ==> exists|i: int|
            0 <= i < rows.len() && column < (#[trigger] rows[i]).len() && rows[i][column].0.len()
                == width_of(rows, column),
    decreases rows.len(),
{
    if rows.len() > 0 {
        let rest = rows.drop_last();
        columns_fit_their_cells(rest, column);
        assert(rows[rows.len() - 1] == rows.last());
        assert forall|i: int|
            0 <= i < rows.len() && column < (#[trigger] rows[i]).len() implies rows[i][column].0.len()
            <= width_of(rows, column) by {
            if i < rest.len() {
                assert(rest[i] == rows[i]);
            }
        }
        if width_of(rows, column) > 0 {
            if width_of(rows, column) == width_of(rest, column) {
                let i = choose|i: int|
                    0 <= i < rest.len() && column < (#[trigger] rest[i]).len()
                        && rest[i][column].0.len() == width_of(rest, column);
                assert(rows[i] == rest[i]);
            } else {
                assert(rows[rows.len() - 1][column].0.len() == width_of(rows, column));
            }
        }
    }
}

/// A cell in a column begins with its text, and is filled up with spaces.
pub proof fn cells_are_filled_up(cell: Cell, width: int)
    ensures
        cell.0.is_prefix_of(padded(cell, width, false)),
        padded(cell, width, false).len() == if width > cell.0.len() {
            width
        } else {
            cell.0.len() as int
        },
        forall|i: int|
            cell.0.len() <= i < padded(cell, width, false).len() ==> #[trigger] padded(
                cell,
                width,
                false,
            )[i] == ' ',
{
    let whole = padded(cell, width, false);
    assert(whole.subrange(0, cell.0.len() as int) =~= cell.0);
}

/// A memory is listed by its id, its type, its scope, its kind and its title; a
/// conflict by its id, its status, its kind, its scope, what it is about, and how
/// many members it has.
pub proof fn lists_tell_the_main_things(memory: MemoryView, conflict: ConflictView)
    ensures
        texts_of(memory_cells(memory)) == seq![
            memory.metadata.id,
            memory.metadata.memory_type.name(),
            memory.metadata.scope.name(),
            memory.metadata.kind.name(),
            title_of(memory),
        ],
        texts_of(conflict_cells(conflict)) == seq![
            conflict.id,
            conflict.status.name(),
            conflict.kind.name(),
            conflict.scope.name(),
            match conflict.subject {
                Some(subject) => subject,
                None => "-"@,
            },
            match conflict.relation {
                Some(relation) => relation,
                None => "-"@,
            },
            crate::numeral::decimal(conflict.members.len()),
        ],
{
}

/// The active profile is marked, and no other.
pub proof fn active_profiles_are_marked(profile: ProfileView, active: Seq<char>)
    ensures
        profile_line_of(profile, active, false) == (if profile.name == active {
            "*"@
        } else {
            " "@
        }) + " "@ + profile.name + "\t"@ + profile.storage.name() + "\t"@ + profile.root,
{
}

/// A commit that would leave something wrong is refused beforehand.
pub proof fn dry_runs_tell_of_failures(report: &DryRunReport, committable: Result<(), Error>)
    requires
        call_ensures(ensure_committable, (report,), committable),
    ensures
        committable is Ok <==> report.diagnostics == 0,
{
}

// Colours.

/// Colours are on where they are asked for, off where they are refused, and else go
/// by the environment, and at last by whether someone looks.
pub proof fn colours_go_by_what_is_asked(
    choice: ColorChoice,
    disabled: bool,
    forced: bool,
    stdout_is_terminal: bool,
    stderr_is_terminal: bool,
    enabled: (bool, bool),
)
    requires
        call_ensures(
            resolve_color,
            (choice, disabled, forced, stdout_is_terminal, stderr_is_terminal),
            enabled,
        ),
    ensures
        enabled.0 <==> choice == ColorChoice::Always || (choice == ColorChoice::Auto && !disabled && (
        forced || stdout_is_terminal)),
        enabled.1 <==> choice == ColorChoice::Always || (choice == ColorChoice::Auto && !disabled && (
        forced || stderr_is_terminal)),
{
}

/// The environment refuses colours by a value of `NO_COLOR`, or a zero in
/// `CLICOLOR`; it asks for them by a value, other than zero, of `CLICOLOR_FORCE` or
/// of `FORCE_COLOR`.
pub proof fn environments_ask_for_colours(
    no_color: Option<&str>,
    clicolor: Option<&str>,
    clicolor_force: Option<&str>,
    force_color: Option<&str>,
    disabled: bool,
    forced: bool,
)
    requires
        call_ensures(color_disabled, (no_color, clicolor), disabled),
        call_ensures(color_forced, (clicolor_force, force_color), forced),
    ensures
        disabled <==> (no_color is Some && no_color->Some_0@.len() > 0) || (clicolor is Some
            && clicolor->Some_0@ == "0"@),
        forced <==> (clicolor_force is Some && clicolor_force->Some_0@.len() > 0
            && clicolor_force->Some_0@ != "0"@) || (force_color is Some
            && force_color->Some_0@.len() > 0 && force_color->Some_0@ != "0"@),
{
}

/// A document without colours is shown as it is.
pub proof fn plain_documents_stay(raw: Seq<char>, syntax: Syntax)
    ensures
        highlighted(raw, syntax, false) == raw,
{
}

// Windows.

/// A window stands in the middle of an area, and fits into it.
pub proof fn windows_stand_in_the_middle(width: int, height: int, area: Area)
    requires
        area.is_on_screen(),
        0 <= width,
        0 <= height,
    ensures
        ({
            let window = centered(width, height, area);
            let left = window.x - area.x;
            let right = area.x + area.width - (window.x + window.width);
            let above = window.y - area.y;
            let under = area.y + area.height - (window.y + window.height);
            &&& window.width <= area.width && window.height <= area.height
            &&& width <= area.width ==> window.width == width
            &&& width > area.width ==> window.width == area.width
            &&& height <= area.height ==> window.height == height
            &&& height > area.height ==> window.height == area.height
            &&& 0 <= left <= right <= left + 1
            &&& 0 <= above <= under <= above + 1
        }),
{
}

// Settings.

proof fn lemma_updated(profiles: Seq<ProfileView>, name: Seq<char>, profile: ProfileView)
    requires
        profile_index(profiles, name) < profiles.len(),
        profile.name == name,
    ensures
        profile_index(profiles.update(profile_index(profiles, name), profile), name)
            == profile_index(profiles, name),
{
    lemma_profile_index_spec(profiles, name);
    let at = profile_index(profiles, name);
    let after = profiles.update(at, profile);
    assert forall|i: int| 0 <= i < at implies (#[trigger] after[i]).name != name by {
        assert(after[i] == profiles[i]);
    }
    lemma_profile_index(after, name, at);
}

/// What is set is what a setting says from then on. Another setting says what it
/// said, unless another profile was made the active one.
pub proof fn settings_say_what_was_set(
    field: Field,
    other: Field,
    config: ConfigView,
    value: Seq<char>,
    around: SurroundingsView,
)
    requires
        has_active(config),
        set_to(field, config, value, around) is Ok,
    ensures
        ({
            let after = set_to(field, config, value, around)->Ok_0;
            &&& has_active(after)
            &&& match field {
                Field::ActiveProfile => field.value_in(after) == if value.len() == 0 {
                    "default"@
                } else {
                    value
                },
                Field::ProfileRoot => field.value_in(after) == normal_root(
                    value,
                    around.home,
                    around.current_dir,
                ),
                Field::StorageMode => field.value_in(after) == trimmed(value),
                Field::DefaultSearch => field.value_in(after) == trimmed(value),
                Field::Editor => field.value_in(after) == value && (after.editor is None
                    <==> value.len() == 0),
            }
            &&& other != field && field != Field::ActiveProfile ==> other.value_in(after)
                == other.value_in(config)
            &&& other == Field::DefaultSearch || other == Field::Editor ==> (other != field
                ==> other.value_in(after) == other.value_in(config))
        }),
{
    let profiles = config.profiles;
    let active = config.active_profile;
    let at = profile_index(profiles, active);
    lemma_profile_index_spec(profiles, active);
    match field {
        Field::ActiveProfile => {
            let name = if value.len() == 0 {
                "default"@
            } else {
                value
            };
            let renamed = ConfigView { active_profile: name, ..config };
            if !has_active(renamed) {
                upserted_profile_is_found(
                    profiles,
                    ProfileView {
                        name,
                        root: crate::tui::active_of(config).root,
                        storage: crate::tui::active_of(config).storage,
                    },
                );
            }
        },
        Field::ProfileRoot => {
            let root = normal_root(value, around.home, around.current_dir);
            lemma_updated(profiles, active, ProfileView { root, ..profiles[at] });
        },
        Field::StorageMode => {
            let storage = StorageMode::of_name(value)->Ok_0;
            lemma_updated(profiles, active, ProfileView { storage, ..profiles[at] });
        },
        _ => {},
    }
}

/// A profile that is new is like the one that was active before.
pub proof fn new_profiles_are_like_the_active_one(
    config: ConfigView,
    value: Seq<char>,
    around: SurroundingsView,
)
    requires
        has_active(config),
        value.len() > 0,
        profile_index(config.profiles, value) == config.profiles.len(),
    ensures
        ({
            let after = set_to(Field::ActiveProfile, config, value, around)->Ok_0;
            &&& set_to(Field::ActiveProfile, config, value, around) is Ok
            &&& Field::ProfileRoot.value_in(after) == Field::ProfileRoot.value_in(config)
            &&& Field::StorageMode.value_in(after) == Field::StorageMode.value_in(config)
        }),
{
    upserted_profile_is_found(
        config.profiles,
        ProfileView {
            name: value,
            root: crate::tui::active_of(config).root,
            storage: crate::tui::active_of(config).storage,
        },
    );
}

/// One leaves by the keys for it, from the list of settings only; what is typed
/// into a setting, a picker or the finder never does that.
pub proof fn one_leaves_from_the_list(app: AppView, press: KeyPress)
    requires
        !app.should_quit,
    ensures
        pressed(app, press).0.should_quit <==> {
            &&& app.root_finder is None && app.picker is None && app.editing is None
            &&& press.key == Key::Char('q') || press.key == Key::Char('Q') || press.key == Key::Esc
                || (press.key == Key::Char('c') && press.control)
        },
{
}

/// The configuration is written, or a vault made, by the keys for it, from the list
/// of settings only.
pub proof fn effects_come_from_the_list(app: AppView, press: KeyPress)
    ensures
        pressed(app, press).1 == Effect::Save <==> {
            &&& app.root_finder is None && app.picker is None && app.editing is None
            &&& press.key == Key::Char('s') || press.key == Key::Char('S')
        },
        pressed(app, press).1 == Effect::InitializeVault <==> {
            &&& app.root_finder is None && app.picker is None && app.editing is None
            &&& press.key == Key::Char('i') || press.key == Key::Char('I')
        },
{
}

/// While a value is typed, a character is added to it, unless a control key is
/// held; backspace takes the last one away, escape drops it, and enter applies it.
pub proof fn values_are_typed(app: AppView, field: Field, press: KeyPress)
    requires
        app.root_finder is None,
        app.picker is None,
        app.editing == Some(field),
    ensures
        ({
            let after = pressed(app, press).0;
            &&& press.key is Char && !press.control ==> after == (AppView {
                input: app.input.push(press.key->Char_0),
                ..app
            })
            &&& press.key == Key::Backspace && app.input.len() > 0 ==> after == (AppView {
                input: app.input.drop_last(),
                ..app
            })
            &&& press.key == Key::Esc ==> after.editing is None && after.config == app.config
                && after.dirty == app.dirty
            &&& press.key == Key::Enter ==> match set_to(
                field,
                app.config,
                trimmed(app.input),
                app.around,
            ) {
                Ok(config) => after.config == config && after.dirty && after.editing is None,
                Err(_) => after.config == app.config && after.editing == Some(field),
            }
        }),
{
}

/// While a picker is open, enter sets the setting to the option, escape leaves it, and
/// the arrows go to an option that can be chosen.
pub proof fn options_are_picked(app: AppView, picker: PickerView, press: KeyPress)
    requires
        app.root_finder is None,
        app.picker == Some(picker),
        picker.selected < picker.options.len(),
        picker.options.len() <= usize::MAX,
        picker.options[picker.selected as int].enabled,
    ensures
        ({
            let after = pressed(app, press).0;
            let value = picker.options[picker.selected as int].value;
            &&& press.key == Key::Enter ==> match set_to(
                picker.field,
                app.config,
                value,
                app.around,
            ) {
                Ok(config) => after.config == config && after.dirty && after.picker is None,
                Err(_) => after.config == app.config && after.picker == app.picker,
            }
            &&& press.key == Key::Esc ==> after.picker is None && after.config == app.config
                && after.dirty == app.dirty
            &&& press.key == Key::Down || press.key == Key::Up ==> {
                &&& after.config == app.config
                &&& after.picker matches Some(other) && other.field == picker.field && other.options
                    == picker.options && other.selected < picker.options.len()
                    && picker.options[other.selected as int].enabled
            }
        }),
{
    crate::picker::selection_rests_on_enabled(
        picker.options,
        picker.selected as int,
        Motion::Next,
        picker.selected as int,
    );
    crate::picker::selection_rests_on_enabled(
        picker.options,
        picker.selected as int,
        Motion::Previous,
        picker.selected as int,
    );
}

/// On the list of settings the arrows go from one to the next, and enter opens the one
/// that is selected: to be typed with what it says, or to be picked.
pub proof fn settings_are_opened(app: AppView, press: KeyPress)
    requires
        app.well_formed(),
        app.root_finder is None,
        app.picker is None,
        app.editing is None,
    ensures
        ({
            let after = pressed(app, press).0;
            let field = app.field();
            &&& press.key == Key::Down ==> after.selected == if app.selected == 4 {
                0
            } else {
                app.selected + 1
            }
            &&& press.key == Key::Up ==> after.selected == if app.selected == 0 {
                4
            } else {
                app.selected - 1
            }
            &&& press.key == Key::Enter && (field == Field::StorageMode || field
                == Field::DefaultSearch) ==> after.picker is Some && after.picker->Some_0.field
                == field && after.editing is None
            &&& press.key == Key::Enter && field != Field::StorageMode && field
                != Field::DefaultSearch ==> after.editing == Some(field) && after.input
                == field.value_in(app.config) && after.picker is None
            &&& press.key == Key::Down || press.key == Key::Up || press.key == Key::Enter
                ==> after.config == app.config && after.dirty == app.dirty
        }),
{
}

/// A dry run lists every path that would be committed.
pub proof fn dry_runs_list_every_path(report: DryRunView, at: int)
    requires
        0 <= at < report.changed_paths.len(),
    ensures
        dry_run_lines_of(report, false).len() == report.changed_paths.len() + 2,
        dry_run_lines_of(report, false)[at + 1] == "would commit"@ + "\t"@
            + report.changed_paths[at],
{
    let cells = seq![("would commit"@, Tone::Info), (report.changed_paths[at], Tone::Path)];
    lemma_two_cells(cells);
}

proof fn lemma_two_cells(cells: Seq<Cell>)
    requires
        cells.len() == 2,
    ensures
        row_of(cells, false) == cells[0].0 + "\t"@ + cells[1].0,
{
    let texts = painted_cells(cells, false);
    assert(texts[0] == cells[0].0 && texts[1] == cells[1].0);
    assert(texts.drop_last().len() == 1);
    assert(texts.drop_last()[0] == texts[0]);
    reveal_with_fuel(joined, 2);
}

/// What a resolution ended is listed: every memory that was archived, and every fact
/// that expired.
pub proof fn resolutions_list_what_ended(
    resolution: ResolutionView,
    kind: ConflictKind,
    commit_id: Option<Seq<char>>,
    id: Seq<char>,
)
    ensures
        resolution.archived_memory_ids.contains(id) ==> resolution_lines_of(
            resolution,
            kind,
            commit_id,
            false,
        ).contains("archived"@ + "\t"@ + id),
        resolution.expired_fact_ids.contains(id) ==> resolution_lines_of(
            resolution,
            kind,
            commit_id,
            false,
        ).contains("expired"@ + "\t"@ + id),
{
    let all = resolution_lines_of(resolution, kind, commit_id, false);
    let head = seq![resolved_line(resolution, kind, false)] + (match resolution.expired_at {
        Some(time) => seq![
            colon_value_of("expired_at"@, signed_decimal(time as int), Tone::Muted, false),
        ],
        None => seq![],
    });
    let archived = ended_rows("archived"@, resolution.archived_memory_ids, false);
    let expired = ended_rows("expired"@, resolution.expired_fact_ids, false);
    lemma_two_cells(seq![("archived"@, Tone::Warning), (id, Tone::Id)]);
    lemma_two_cells(seq![("expired"@, Tone::Warning), (id, Tone::Id)]);
    if resolution.archived_memory_ids.contains(id) {
        let i = choose|i: int|
            0 <= i < resolution.archived_memory_ids.len() && resolution.archived_memory_ids[i] == id;
        assert(archived[i] == "archived"@ + "\t"@ + id);
        assert(all[head.len() + i] == archived[i]);
    }
    if resolution.expired_fact_ids.contains(id) {
        let i = choose|i: int|
            0 <= i < resolution.expired_fact_ids.len() && resolution.expired_fact_ids[i] == id;
        assert(expired[i] == "expired"@ + "\t"@ + id);
        assert(all[head.len() + archived.len() + i] == expired[i]);
    }
}

/// A finding is shown with its level: whether it is in order, or is to be looked after.
pub proof fn findings_are_shown_with_their_level(finding: FindingView)
    ensures
        finding_row(finding, false) == (match finding.level {
            DoctorLevel::Fine => "ok"@,
            DoctorLevel::Warn => "warn"@,
        }) + "\t"@ + finding.message,
{
    lemma_two_cells(
        seq![
            (
                finding.level.name(),
                match finding.level {
                    DoctorLevel::Fine => Tone::Success,
                    DoctorLevel::Warn => Tone::Warning,
                },
            ),
            (finding.message, Tone::Value),
        ],
    );
}

} // verus!
