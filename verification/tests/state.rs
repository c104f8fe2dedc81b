//! Reducer behaviour: navigation, tagging, discovery and events.

use gopro_importer::cache::Source;
use gopro_importer::destination::Destination;
use gopro_importer::events::{Event, Key};
use gopro_importer::focus::Focus;
use gopro_importer::mode::{Args, Mode};
use gopro_importer::progress::Bare;
use gopro_importer::session::{File, Status};
use gopro_importer::state::{Directive, Popup, State};

fn file(name: &str, date: &str, created: u64) -> File {
    File {
        path: format!("/src/DCIM/{}", name),
        size: 1000,
        created,
        date: date.to_string(),
        seconds: 30,
        note: None,
        status: None,
    }
}

fn importing_state() -> State {
    State::new(Mode::from(Args {
        input_dir: Some("/src".to_string()),
        output_dir: "/dst".to_string(),
    }))
}

#[test]
fn moves_on_empty_lists_stay_at_zero() {
    let mut st = importing_state();
    for _ in 0..3 {
        st.list_up();
        st.list_down();
    }
    assert_eq!(st.session_idx, 0);
    assert_eq!(st.file_idx, 0);
}

#[test]
fn moves_clamp_to_list_bounds() {
    let mut st = importing_state();
    st.add_file(file("a.MP4", "2024-03-09", 1), None);
    st.add_file(file("b.MP4", "2024-03-10", 2), None);
    st.add_file(file("c.MP4", "2024-03-11", 3), None);
    for _ in 0..10 {
        st.list_down();
    }
    assert_eq!(st.session_idx, 2);
    for _ in 0..10 {
        st.list_up();
    }
    assert_eq!(st.session_idx, 0);
}

#[test]
fn toggling_import_twice_returns_to_untagged() {
    let mut st = importing_state();
    st.add_file(file("a.MP4", "2024-03-09", 1), None);
    st.focus = Focus::Files;
    st.toggle_file_import();
    assert_eq!(st.sessions[0].files[0].status, Some(Status::Import));
    st.toggle_file_import();
    assert_eq!(st.sessions[0].files[0].status, None);
}

#[test]
fn import_then_ignore_leaves_ignore() {
    let mut st = importing_state();
    st.add_file(file("a.MP4", "2024-03-09", 1), None);
    st.focus = Focus::Files;
    st.toggle_file_import();
    st.toggle_file_ignore();
    assert_eq!(st.sessions[0].files[0].status, Some(Status::Ignore));
}

#[test]
fn files_sharing_a_date_share_a_session() {
    let mut st = importing_state();
    st.add_file(file("a.MP4", "2024-03-09", 2), None);
    st.add_file(file("b.MP4", "2024-03-09", 1), None);
    st.add_file(file("c.MP4", "2024-03-10", 3), None);
    assert_eq!(st.sessions.len(), 2);
    assert_eq!(st.sessions[0].date, "2024-03-09");
    assert_eq!(st.sessions[0].files.len(), 2);
    // Within a session, files sit in creation order.
    assert_eq!(st.sessions[0].files[0].path, "/src/DCIM/b.MP4");
    assert_eq!(st.sessions[0].files[1].path, "/src/DCIM/a.MP4");
    // Sessions themselves sit in date order.
    assert_eq!(st.sessions[1].date, "2024-03-10");
}

#[test]
fn equal_creation_time_replaces_the_entry() {
    let mut st = importing_state();
    st.add_file(file("a.MP4", "2024-03-09", 1), None);
    st.add_file(file("b.MP4", "2024-03-09", 1), None);
    assert_eq!(st.sessions[0].files.len(), 1);
    assert_eq!(st.sessions[0].files[0].path, "/src/DCIM/b.MP4");
}

#[test]
fn destinations_group_under_their_parent() {
    let mut st = importing_state();
    st.add_destination(Destination::new("/dst/trip", "/dst").unwrap());
    st.add_destination(Destination::new("/dst/alps", "/dst").unwrap());
    st.add_destination(Destination::new("/dst/trip/day1", "/dst").unwrap());
    assert_eq!(st.dest_groups.len(), 2);
    assert_eq!(st.dest_groups[0].parent, "/dst");
    assert_eq!(st.dest_groups[0].items.len(), 2);
    assert_eq!(st.dest_groups[0].items[0].base, "alps");
    assert_eq!(st.dest_groups[0].items[1].base, "trip");
    assert_eq!(st.dest_groups[1].parent, "/dst/trip");
    let flat = st.destinations_flat();
    assert_eq!(flat.len(), 3);
}

#[test]
fn committing_a_search_binds_and_closes() {
    let mut st = importing_state();
    st.add_file(file("a.MP4", "2024-03-09", 1), None);
    st.search();
    assert_eq!(st.popup(), Popup::Search);
    let best = Destination::new("/dst/vacation", "/dst").unwrap();
    st.set_session_destination(Some(best));
    assert!(st.search.is_none());
    assert_eq!(st.sessions[0].destination.as_ref().unwrap().abs, "/dst/vacation");
}

#[test]
fn committing_without_a_match_still_closes() {
    let mut st = importing_state();
    st.add_file(file("a.MP4", "2024-03-09", 1), None);
    st.search();
    st.set_session_destination(None);
    assert!(st.search.is_none());
    assert!(st.sessions[0].destination.is_none());
}

#[test]
fn popup_priority_is_input_search_error_progress() {
    let mut st = importing_state();
    assert_eq!(st.popup(), Popup::Closed);
    st.progress = Some(Bare::new(3));
    assert_eq!(st.popup(), Popup::Progress);
    st.error = Some("boom".to_string());
    assert_eq!(st.popup(), Popup::Error);
    st.search = Some(String::new());
    assert_eq!(st.popup(), Popup::Search);
    st.input = Some(String::new());
    assert_eq!(st.popup(), Popup::Input);
}

#[test]
fn note_buffer_commits_to_the_file() {
    let mut st = importing_state();
    st.add_file(file("a.MP4", "2024-03-09", 1), None);
    st.focus = Focus::Files;
    st.input();
    st.input_char('h');
    st.input_char('i');
    st.input_del();
    st.input_char('o');
    st.write_note();
    assert!(st.input.is_none());
    assert_eq!(st.sessions[0].files[0].note.as_deref(), Some("ho"));
    // An empty buffer clears the note.
    st.input();
    assert_eq!(st.input.as_deref(), Some("ho"));
    st.input_del();
    st.input_del();
    st.write_note();
    assert_eq!(st.sessions[0].files[0].note, None);
}

#[test]
fn key_dispatch_names_the_outside_work() {
    let mut st = importing_state();
    st.add_file(file("a.MP4", "2024-03-09", 1), None);
    assert_eq!(st.handle_key(Key::Char('q')), Directive::Quit);
    assert_eq!(st.handle_key(Key::Char('j')), Directive::SyncPlayer);
    assert_eq!(st.handle_key(Key::Char('h')), Directive::Idle);
    assert_eq!(st.focus, Focus::Files);
    assert_eq!(st.handle_key(Key::Char('a')), Directive::PersistFocusedFile);
    assert_eq!(st.sessions[0].files[0].status, Some(Status::Import));
    assert_eq!(st.handle_key(Key::Enter), Directive::Preview);
    // Open the search from the session list.
    assert_eq!(st.handle_key(Key::Char('h')), Directive::Idle);
    assert_eq!(st.handle_key(Key::Char('n')), Directive::Idle);
    assert_eq!(st.popup(), Popup::Search);
    assert_eq!(st.handle_key(Key::Char('v')), Directive::Idle);
    assert_eq!(st.search.as_deref(), Some("v"));
    assert_eq!(st.handle_key(Key::Enter), Directive::CommitSearch);
    assert_eq!(st.handle_key(Key::Esc), Directive::Idle);
    assert_eq!(st.popup(), Popup::Closed);
}

#[test]
fn file_event_updates_cache_and_state() {
    let mut st = importing_state();
    let mut cache = Source::new("SN1".to_string());
    let dest = Destination::new("/dst/vacation", "/dst").unwrap();
    cache.set_session_destination("2024-03-09", dest);
    let d = st.handle_event(&mut cache, Event::File(file("a.MP4", "2024-03-09", 1)));
    assert_eq!(d, Directive::PersistCache);
    // The record landed under the base name.
    let rec = cache.get("a.MP4").unwrap();
    assert_eq!(rec.date, "2024-03-09");
    assert!(!rec.imported);
    // The session picked up the destination known for its date.
    assert_eq!(st.sessions.len(), 1);
    assert_eq!(st.sessions[0].destination.as_ref().unwrap().abs, "/dst/vacation");
}

#[test]
fn session_destination_event_binds_both_sides() {
    let mut st = importing_state();
    let mut cache = Source::new("SN1".to_string());
    st.add_file(file("a.MP4", "2024-03-09", 1), None);
    let dest = Destination::new("/dst/trip", "/dst").unwrap();
    let d = st.handle_event(
        &mut cache,
        Event::SessionDestination { date: "2024-03-09".to_string(), destination: dest },
    );
    assert_eq!(d, Directive::PersistCache);
    assert_eq!(st.sessions[0].destination.as_ref().unwrap().abs, "/dst/trip");
    assert_eq!(cache.get_session_destination("2024-03-09").unwrap().abs, "/dst/trip");
}

#[test]
fn tick_event_syncs_player_and_progress() {
    let mut st = importing_state();
    let mut cache = Source::new("SN1".to_string());
    let mut bare = Bare::new(4);
    bare.file_idx = 2;
    st.handle_event(&mut cache, Event::Tick { player_pos: Some(1), progress: Some(bare) });
    assert_eq!(st.file_idx, 1);
    assert_eq!(st.progress.unwrap().file_idx, 2);
    // A done batch clears the bar.
    let mut done = Bare::new(4);
    done.done = true;
    st.handle_event(&mut cache, Event::Tick { player_pos: None, progress: Some(done) });
    assert!(st.progress.is_none());
}

#[test]
fn error_event_shows_the_message() {
    let mut st = importing_state();
    let mut cache = Source::new("SN1".to_string());
    st.handle_event(&mut cache, Event::Error("scan: unreadable entry".to_string()));
    assert_eq!(st.error.as_deref(), Some("scan: unreadable entry"));
    assert_eq!(st.popup(), Popup::Error);
}

#[test]
fn mode_follows_the_arguments() {
    let importing = Mode::from(Args {
        input_dir: Some("/camera".to_string()),
        output_dir: "/library".to_string(),
    });
    assert_eq!(importing.input_dir(), "/camera");
    assert_eq!(importing.output_dir().as_deref(), Some("/library"));
    let viewing = Mode::from(Args { input_dir: None, output_dir: "/library".to_string() });
    assert_eq!(viewing.input_dir(), "/library");
    assert!(viewing.output_dir().is_none());
}
