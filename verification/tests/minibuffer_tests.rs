use uemacs::edit::minibuffer::{MiniStep, Minibuffer};
use uemacs::edit::Editor;
use uemacs::terminal::Key;
use uemacs::util::{completions_in, expand_tilde, resolve_completion_parts};

/// The files of the directory the line reader completes in.
fn listing() -> Vec<(String, bool)> {
    vec![
        ("Cargo.lock".to_string(), false),
        ("Cargo.toml".to_string(), false),
        ("src".to_string(), true),
    ]
}

/// Reads a line from `keys` as the editor's reader does, completing file names against
/// `listing()`; gives the line and the number of beeps.
fn read_line(keys: Vec<Key>, echo: bool) -> (String, usize) {
    let mut mb = Minibuffer::new(echo);
    let mut keys = keys.into_iter();
    let mut beeps = 0;
    loop {
        let mut step = mb.key(keys.next());
        if step == MiniStep::Complete {
            let expanded = expand_tilde(&mb.buf, "");
            let parts = resolve_completion_parts(&expanded);
            let entries = if parts.dir_to_read == "." { listing() } else { Vec::new() };
            let cands = completions_in(&entries, &parts.base, &parts.prefix_str);
            step = mb.complete(cands);
        }
        match step {
            MiniStep::Done(s) => return (s, beeps),
            MiniStep::Beep => beeps += 1,
            _ => {}
        }
    }
}

fn chars(s: &str) -> Vec<Key> {
    s.chars().map(Key::Char).collect()
}

#[test]
fn test_minibuffer_readline_inline_enter() {
    let (result, _) = read_line(vec![Key::Char('a'), Key::Enter], true);
    assert_eq!(result, "a");
}

#[test]
fn test_minibuffer_readline_inline_ctrl_g() {
    let (result, _) = read_line(vec![Key::Char('a'), Key::Control('G')], true);
    assert_eq!(result, "");
}

#[test]
fn test_minibuffer_readline_inline_backspace() {
    let (result, _) = read_line(vec![Key::Char('a'), Key::Char('b'), Key::Backspace, Key::Enter], true);
    assert_eq!(result, "a");
}

#[test]
fn test_minibuffer_readline_tab_cycles_candidates() {
    let mut keys = chars("Cargo");
    keys.extend(vec![Key::Tab, Key::Tab, Key::Tab, Key::Tab, Key::Enter]);
    let (result, beeps) = read_line(keys, true);
    assert_eq!(result, "Cargo.lock");
    assert_eq!(beeps, 0);
}

#[test]
fn test_minibuffer_readline_tab_second_candidate() {
    let mut keys = chars("Cargo.");
    keys.extend(vec![Key::Tab, Key::Tab, Key::Enter]);
    let (result, _) = read_line(keys, true);
    assert_eq!(result, "Cargo.toml");
}

#[test]
fn test_minibuffer_readline_tab_typing_resets_cycle() {
    let mut keys = chars("Cargo");
    keys.extend(vec![Key::Tab, Key::Char('t'), Key::Tab, Key::Enter]);
    let (result, _) = read_line(keys, true);
    assert_eq!(result, "Cargo.toml");
}

#[test]
fn test_minibuffer_readline_inline_no_input() {
    let (result, _) = read_line(vec![], true);
    assert_eq!(result, "");
}

#[test]
fn test_minibuffer_tab_without_echo_beeps() {
    let (result, beeps) = read_line(vec![Key::Char('x'), Key::Tab, Key::Enter], false);
    assert_eq!(result, "x");
    assert_eq!(beeps, 1);
}

#[test]
fn test_minibuffer_tab_without_match_beeps() {
    let (result, beeps) = read_line(vec![Key::Char('z'), Key::Tab, Key::Enter], true);
    assert_eq!(result, "z");
    assert_eq!(beeps, 1);
}

#[test]
fn test_minibuffer_other_key_beeps_and_unknown_zero_ends() {
    let (result, beeps) = read_line(vec![Key::Char('q'), Key::Up, Key::Unknown(0)], true);
    assert_eq!(result, "");
    assert_eq!(beeps, 1);
}

#[test]
fn test_minibuffer_complete_common_prefix() {
    let mut mb = Minibuffer::new(true);
    mb.key(Some(Key::Char('a')));
    let step = mb.complete(vec!["abcx".to_string(), "abcy".to_string()]);
    assert_eq!(step, MiniStep::Show);
    assert_eq!(mb.buf, "abc");
}

#[test]
fn test_complete_buffer_name_sorted_and_visible() {
    let mut ed = Editor::new();
    ed.create_buffer("zeta");
    ed.create_buffer("alpha");
    ed.create_buffer("beta");
    let hidden = ed.create_buffer("ahidden");
    ed.buffers.get_mut(hidden).unwrap().flags = uemacs::types::BufferFlags::invisible();
    assert_eq!(ed.complete_buffer_name(""), vec!["alpha", "beta", "zeta"]);
    assert_eq!(ed.complete_buffer_name("a"), vec!["alpha"]);
    assert!(ed.complete_buffer_name("q").is_empty());
}

#[test]
fn test_hidden_line_shows_prompt_only() {
    let mut a = Minibuffer::new(false);
    let mut b = Minibuffer::new(false);
    for (x, y) in [('s', 'x'), ('e', 'y'), ('c', 'z')] {
        assert!(a.key(Some(Key::Char(x))) == b.key(Some(Key::Char(y))));
        assert_eq!(a.shown("Password: "), "Password: ");
        assert_eq!(b.shown("Password: "), "Password: ");
    }
    let mut c = Minibuffer::new(true);
    c.key(Some(Key::Char('o')));
    c.key(Some(Key::Char('k')));
    assert_eq!(c.shown("Name: "), "Name: ok");
}
