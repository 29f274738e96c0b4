use rem::config::AppConfig;
use rem::finder::{RootFinder, RootFinderFocus};
use rem::screen::{
    centered_rect, display, editor_area, finder_area, footer, overlay, picker_area, unsaved_mark,
    Area, Overlay,
};
use rem::tui::{ConfigApp, Field, Key, KeyPress, Surroundings};

fn screen(width: u16, height: u16) -> Area {
    Area { x: 0, y: 0, width, height }
}

fn app() -> ConfigApp {
    let around = Surroundings { home: None, current_dir: "/work".to_string(), editor: None };
    ConfigApp::with_finder_root(
        AppConfig::with_editor(None),
        "/config.toml".to_string(),
        around,
        Some("/home".to_string()),
    )
}

fn press(app: &mut ConfigApp, key: Key, control: bool) {
    app.handle_key(KeyPress { key, control });
}

#[test]
fn windows_stand_in_the_middle() {
    assert_eq!(
        centered_rect(20, 4, screen(100, 30)),
        Area { x: 40, y: 13, width: 20, height: 4 }
    );
    assert_eq!(centered_rect(20, 40, screen(10, 30)), screen(10, 30));
    assert_eq!(
        centered_rect(2, 2, Area { x: 5, y: 7, width: 5, height: 5 }),
        Area { x: 6, y: 8, width: 2, height: 2 }
    );
}

#[test]
fn windows_leave_margins() {
    assert_eq!(editor_area(screen(100, 30)), Area { x: 6, y: 11, width: 88, height: 7 });
    assert_eq!(editor_area(screen(40, 30)), Area { x: 4, y: 11, width: 32, height: 7 });
    assert_eq!(picker_area(5, screen(40, 30)), Area { x: 4, y: 10, width: 32, height: 9 });
    assert_eq!(picker_area(5, screen(40, 8)), Area { x: 4, y: 1, width: 32, height: 6 });
    assert_eq!(finder_area(screen(120, 40)), Area { x: 12, y: 12, width: 96, height: 16 });
    assert_eq!(finder_area(screen(4, 1)), Area { x: 2, y: 0, width: 0, height: 0 });
}

#[test]
fn one_window_is_open_at_a_time() {
    let mut app = app();
    assert_eq!(overlay(&app), Overlay::Nothing);
    assert_eq!(unsaved_mark(&app), "");
    press(&mut app, Key::Enter, false);
    assert_eq!(overlay(&app), Overlay::Editor(Field::ActiveProfile));
    press(&mut app, Key::Esc, false);
    press(&mut app, Key::Down, false);
    press(&mut app, Key::Char('f'), true);
    assert_eq!(overlay(&app), Overlay::Finder);
    press(&mut app, Key::Esc, false);
    press(&mut app, Key::Down, false);
    press(&mut app, Key::Enter, false);
    assert_eq!(overlay(&app), Overlay::Picker);
    press(&mut app, Key::Enter, false);
    assert_eq!(unsaved_mark(&app), " [unsaved]");
    assert_eq!(footer(&app)[0], "Updated storage-mode. Press S to write config changes.");
    assert_eq!(footer(&app).len(), 3);
}

#[test]
fn finders_say_how_far_they_are() {
    let mut finder = RootFinder::new("/home");
    let shown = display(&finder);
    assert_eq!(shown.title, " Find profile root · /home ");
    assert_eq!(shown.filter, "path filter [focused]: /home");
    assert_eq!(shown.progress, "searching HOME · 1 matches under /home");
    assert_eq!(shown.heading, " Paths (Tab to focus) ");
    assert_eq!(shown.paths, vec!["/home"]);
    assert_eq!(shown.selected, None);

    finder.poll(&vec!["/home/a".to_string()], true);
    assert_eq!(finder.toggle_focus(), RootFinderFocus::Paths);
    let shown = display(&finder);
    assert_eq!(shown.filter, "path filter: /home");
    assert_eq!(shown.progress, "search complete · 2 matches under /home");
    assert_eq!(shown.heading, " Paths [focused] ");
    assert_eq!(shown.selected, Some(0));

    finder.clear_query();
    assert_eq!(display(&finder).progress, "filtering results · 0 matches under /home");
}
