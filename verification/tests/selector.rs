use fuzzy_ssh::selector::{App, Event, ExitState, KeyCode, KeyEvent};
use fuzzy_ssh::ssh_config::config::SSHConfig;

fn key(code: KeyCode) -> KeyEvent {
    KeyEvent { code, control: false }
}

fn control(c: char) -> KeyEvent {
    KeyEvent { code: KeyCode::Char(c), control: true }
}

fn typed(text: &str) -> Vec<Event> {
    text.chars().map(|c| Event::Press(key(KeyCode::Char(c)))).collect()
}

fn app(text: &str) -> App {
    App::with_config(SSHConfig::from_string(text).unwrap())
}

fn two_hosts() -> App {
    app("Host a\nHostname 1.1.1.1\nHost b\nHostname 2.2.2.2")
}

fn five_hosts() -> App {
    app(
        "Host web\nHostname 10.0.0.1\nHost db\nHostname 10.0.0.2\nHost cache\nHostname 10.0.1.1\n\
         Host mail\nHostname 10.0.1.2\nHost backup\nHostname 192.168.0.1",
    )
}

fn shown(app: &App) -> Vec<String> {
    app.hosts_to_show().into_iter().map(|values| values.host.clone().unwrap()).collect()
}

fn press(app: &mut App, text: &str) {
    for c in text.chars() {
        app.handle_key_event(key(KeyCode::Char(c)));
    }
}

#[test]
fn only_hosts_with_name_and_address_are_listed() {
    let app = app("User me\nHostname nowhere\nHost b\nHostname 2.2.2.2\nHost lonely\nHost a\nHostname 1.1.1.1");

    assert_eq!(shown(&app), vec!["a", "b"]);
    assert_eq!(app.state().shown_indices(), &vec![0, 1]);
    assert_eq!(app.state().selected(), Some(0));
    assert_eq!(app.state().current_input(), "");
    assert_eq!(app.state().exit_state(), ExitState::Running);
}

#[test]
fn without_hosts_nothing_is_highlighted() {
    let mut app = app("User me");

    assert_eq!(shown(&app), Vec::<String>::new());
    assert_eq!(app.state().selected(), None);
    app.handle_key_event(key(KeyCode::Up));
    assert_eq!(app.state().selected(), None);
    app.handle_key_event(key(KeyCode::Down));
    assert_eq!(app.state().selected(), None);
    app.handle_key_event(key(KeyCode::Enter));
    assert_eq!(app.state().exit_state(), ExitState::Running);
    assert!(app.into_selected().is_none());
}

#[test]
fn typing_narrows_the_list_to_the_entries_that_contain_the_query() {
    let mut first = two_hosts();
    press(&mut first, "a");
    assert_eq!(shown(&first), vec!["a"]);
    assert_eq!(first.state().shown_indices(), &vec![0]);

    let mut second = two_hosts();
    press(&mut second, "2");
    assert_eq!(shown(&second), vec!["b"]);
    assert_eq!(second.state().shown_indices(), &vec![1]);
    assert_eq!(second.state().selected(), Some(0));

    second.handle_key_event(key(KeyCode::Enter));
    assert_eq!(second.state().exit_state(), ExitState::Selected);
    let chosen = second.into_selected().unwrap();
    assert_eq!(chosen.host, Some("b".to_string()));
    assert_eq!(chosen.hostname, Some("2.2.2.2".to_string()));
}

#[test]
fn a_run_of_events_ends_with_the_chosen_host() {
    let mut events = typed("2");
    events.push(Event::Press(key(KeyCode::Enter)));
    events.push(Event::Press(key(KeyCode::Esc)));
    let chosen = two_hosts().run(events).unwrap();
    assert_eq!(chosen.host, Some("b".to_string()));

    let mut events = typed("2");
    events.push(Event::Press(key(KeyCode::Esc)));
    events.push(Event::Press(key(KeyCode::Enter)));
    assert!(two_hosts().run(events).is_none());

    assert!(two_hosts().run(typed("2")).is_none());

    let events = vec![Event::Other, Event::Press(key(KeyCode::Enter))];
    assert_eq!(two_hosts().run(events).unwrap().host, Some("a".to_string()));
}

#[test]
fn the_query_matches_name_and_address_as_one_text() {
    let mut app = two_hosts();
    press(&mut app, "a 1.");
    assert_eq!(shown(&app), vec!["a"]);
    press(&mut app, "1.1.1");
    assert_eq!(shown(&app), vec!["a"]);
    assert_eq!(app.state().current_input(), "a 1.1.1.1");
    press(&mut app, "1");
    assert_eq!(shown(&app), Vec::<String>::new());
}

#[test]
fn matching_is_exact_in_case_and_order() {
    let mut app = app("Host Web\nHostname Example.org");
    press(&mut app, "web");
    assert_eq!(shown(&app), Vec::<String>::new());
    for _ in 0..3 {
        app.handle_key_event(key(KeyCode::Backspace));
    }
    press(&mut app, "Web Ex");
    assert_eq!(shown(&app), vec!["Web"]);
    for _ in 0..6 {
        app.handle_key_event(key(KeyCode::Backspace));
    }
    press(&mut app, "bW");
    assert_eq!(shown(&app), Vec::<String>::new());
}

#[test]
fn each_character_typed_leaves_a_part_of_what_was_shown() {
    let mut app = five_hosts();
    let mut before = app.state().shown_indices().clone();
    assert_eq!(before, vec![0, 1, 2, 3, 4]);
    for (c, expected) in [
        ('1', vec![0, 1, 2, 3, 4]),
        ('0', vec![1, 2, 3, 4]),
        ('.', vec![1, 2, 3, 4]),
        ('0', vec![1, 2, 3, 4]),
        ('.', vec![1, 2, 3, 4]),
        ('1', vec![1, 3]),
        ('.', vec![1, 3]),
        ('2', vec![3]),
        ('x', vec![]),
    ] {
        app.handle_key_event(key(KeyCode::Char(c)));
        let after = app.state().shown_indices().clone();
        assert_eq!(after, expected);
        let mut kept = before.iter();
        assert!(after.iter().all(|i| kept.any(|j| j == i)));
        before = after;
    }
}

#[test]
fn backspace_undoes_the_character_typed_last() {
    let mut app = five_hosts();
    press(&mut app, "10.0.");
    app.handle_key_event(key(KeyCode::Up));
    let shown_before = app.state().shown_indices().clone();
    let selected_before = app.state().selected();
    assert_eq!(shown_before, vec![1, 2, 3, 4]);
    assert_eq!(selected_before, Some(1));

    app.handle_key_event(key(KeyCode::Char('1')));
    assert_eq!(app.state().shown_indices(), &vec![1, 3]);
    assert_eq!(app.state().selected(), Some(1));
    app.handle_key_event(key(KeyCode::Backspace));

    assert_eq!(app.state().current_input(), "10.0.");
    assert_eq!(app.state().shown_indices(), &shown_before);
    assert_eq!(app.state().selected(), selected_before);
}

#[test]
fn backspace_restores_the_list_but_not_a_highlight_that_was_lost() {
    let mut app = five_hosts();
    app.handle_key_event(key(KeyCode::Up));
    app.handle_key_event(key(KeyCode::Up));
    app.handle_key_event(key(KeyCode::Up));
    assert_eq!(app.state().selected(), Some(3));

    app.handle_key_event(key(KeyCode::Char('9')));
    assert_eq!(app.state().shown_indices(), &vec![0]);
    assert_eq!(app.state().selected(), Some(0));
    app.handle_key_event(key(KeyCode::Backspace));
    assert_eq!(app.state().shown_indices(), &vec![0, 1, 2, 3, 4]);
    assert_eq!(app.state().selected(), Some(0));

    app.handle_key_event(key(KeyCode::Up));
    app.handle_key_event(key(KeyCode::Char('?')));
    assert_eq!(app.state().shown_indices(), &Vec::<usize>::new());
    assert_eq!(app.state().selected(), None);
    app.handle_key_event(key(KeyCode::Backspace));
    assert_eq!(app.state().shown_indices(), &vec![0, 1, 2, 3, 4]);
    assert_eq!(app.state().selected(), Some(0));
}

#[test]
fn backspace_on_an_empty_query_changes_nothing() {
    let mut app = five_hosts();
    app.handle_key_event(key(KeyCode::Up));
    app.handle_key_event(key(KeyCode::Backspace));
    assert_eq!(app.state().current_input(), "");
    assert_eq!(app.state().shown_indices(), &vec![0, 1, 2, 3, 4]);
    assert_eq!(app.state().selected(), Some(1));
    assert_eq!(app.state().exit_state(), ExitState::Running);
}

#[test]
fn confirming_an_empty_list_changes_nothing() {
    let mut app = two_hosts();
    press(&mut app, "zzz");
    assert_eq!(app.state().shown_indices(), &Vec::<usize>::new());
    app.handle_key_event(key(KeyCode::Enter));
    assert_eq!(app.state().exit_state(), ExitState::Running);
    assert_eq!(app.state().current_input(), "zzz");
    assert_eq!(app.state().selected(), None);
    app.handle_key_event(key(KeyCode::Backspace));
    assert_eq!(app.state().current_input(), "zz");
    assert!(app.into_selected().is_none());
}

#[test]
fn the_highlight_stops_at_both_ends_of_the_list() {
    let mut app = five_hosts();
    assert_eq!(app.state().selected(), Some(0));
    app.handle_key_event(key(KeyCode::Down));
    assert_eq!(app.state().selected(), Some(0));
    for expected in [1, 2, 3, 4, 4, 4] {
        app.handle_key_event(key(KeyCode::Up));
        assert_eq!(app.state().selected(), Some(expected));
    }
    for expected in [3, 2, 1, 0, 0] {
        app.handle_key_event(control('n'));
        assert_eq!(app.state().selected(), Some(expected));
    }
    app.handle_key_event(control('p'));
    assert_eq!(app.state().selected(), Some(1));
    assert_eq!(app.state().current_input(), "");
}

#[test]
fn the_chosen_host_is_found_through_the_narrowed_list() {
    let mut app = five_hosts();
    assert_eq!(shown(&app), vec!["backup", "cache", "db", "mail", "web"]);
    press(&mut app, ".1");
    assert_eq!(shown(&app), vec!["backup", "cache", "mail", "web"]);
    app.handle_key_event(key(KeyCode::Up));
    app.handle_key_event(key(KeyCode::Up));
    assert_eq!(app.state().selected(), Some(2));
    press(&mut app, ".");
    assert_eq!(shown(&app), vec!["cache", "mail"]);
    assert_eq!(app.state().selected(), Some(1));
    app.handle_key_event(key(KeyCode::Enter));
    assert_eq!(app.state().shown_indices(), &vec![1, 3]);
    assert_eq!(app.into_selected().unwrap().host, Some("mail".to_string()));
}

#[test]
fn escape_ends_the_choice_without_a_host() {
    let mut app = two_hosts();
    app.handle_key_event(key(KeyCode::Esc));
    assert_eq!(app.state().exit_state(), ExitState::Exit);
    assert!(app.into_selected().is_none());
}

#[test]
fn after_the_end_keys_do_nothing() {
    let mut app = two_hosts();
    app.handle_key_event(key(KeyCode::Enter));
    assert_eq!(app.state().exit_state(), ExitState::Selected);
    app.handle_key_event(key(KeyCode::Esc));
    app.handle_key_event(key(KeyCode::Up));
    press(&mut app, "zz");
    app.handle_event(Event::Press(key(KeyCode::Backspace)));
    assert_eq!(app.state().exit_state(), ExitState::Selected);
    assert_eq!(app.state().selected(), Some(0));
    assert_eq!(app.state().current_input(), "");
    assert_eq!(app.into_selected().unwrap().host, Some("a".to_string()));

    let mut app = two_hosts();
    app.handle_key_event(key(KeyCode::Esc));
    app.handle_key_event(key(KeyCode::Enter));
    assert_eq!(app.state().exit_state(), ExitState::Exit);
}

#[test]
fn keys_without_a_meaning_and_other_events_do_nothing() {
    let mut app = two_hosts();
    press(&mut app, "b");
    app.handle_key_event(key(KeyCode::Other));
    app.handle_key_event(KeyEvent { code: KeyCode::Other, control: true });
    app.handle_event(Event::Other);
    assert_eq!(app.state().current_input(), "b");
    assert_eq!(app.state().shown_indices(), &vec![1]);
    assert_eq!(app.state().selected(), Some(0));
    assert_eq!(app.state().exit_state(), ExitState::Running);
}

#[test]
fn control_with_another_letter_types_the_letter() {
    let mut app = two_hosts();
    app.handle_key_event(control('a'));
    assert_eq!(app.state().current_input(), "a");
    app.handle_key_event(key(KeyCode::Char('p')));
    app.handle_key_event(key(KeyCode::Char('n')));
    assert_eq!(app.state().current_input(), "apn");
}
