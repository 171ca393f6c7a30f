use uemacs::edit::Editor;
use uemacs::session::{folded_key_code, loop_action, mark_screen_garbage, relayout, LoopAction};
use uemacs::terminal::{key_code, Key};
use uemacs::types::{Error, KeyCode, LineId, WindowFlags, META};

#[test]
fn test_mark_screen_garbage_sets_sgarbf_and_window_flags() {
    let mut editor = Editor::new();
    let bid = editor.create_buffer("main");
    let w1 = editor.create_window(bid, LineId(0));
    let w2 = editor.create_window(bid, LineId(0));
    editor.sgarbf_requested = false;
    editor.windows.get_mut(w1).unwrap().flags = WindowFlags::empty();
    editor.windows.get_mut(w2).unwrap().flags = WindowFlags::empty();

    mark_screen_garbage(&mut editor);

    assert!(editor.sgarbf_requested, "sgarbf must be set after SIGCONT");
    let expected = WindowFlags::hard().0 | WindowFlags::mode_line().0;
    assert_eq!(editor.windows.get(w1).unwrap().flags.0 & expected, expected);
    assert_eq!(editor.windows.get(w2).unwrap().flags.0 & expected, expected);
}

#[test]
fn test_folded_key_code() {
    assert_eq!(folded_key_code(Key::Meta('x')), KeyCode(META | 'X' as u32));
    assert_eq!(folded_key_code(Key::Meta('X')), key_code(Key::Meta('X')));
    assert_eq!(folded_key_code(Key::Meta('1')), key_code(Key::Meta('1')));
    assert_eq!(folded_key_code(Key::Char('x')), key_code(Key::Char('x')));
}

#[test]
fn test_loop_action() {
    let mut ed = Editor::new();
    assert_eq!(loop_action(&ed, Ok(())), LoopAction::Continue);
    assert_eq!(loop_action(&ed, Err(Error::Abort)), LoopAction::Beep);
    assert_eq!(loop_action(&ed, Err(Error::IoError)), LoopAction::Stop);
    ed.quit_requested = true;
    assert_eq!(loop_action(&ed, Ok(())), LoopAction::Stop);
    assert_eq!(loop_action(&ed, Err(Error::Abort)), LoopAction::Stop);
}

#[test]
fn test_relayout_shares_rows() {
    let mut ed = Editor::new();
    let bid = ed.create_buffer("main");
    let w1 = ed.create_window(bid, LineId(0));
    let w2 = ed.create_window(bid, LineId(0));
    let w3 = ed.create_window(bid, LineId(0));
    relayout(&mut ed.windows, 25);
    let rows = |id| {
        let w = ed.windows.get(id).unwrap();
        (w.top_row, w.n_rows)
    };
    assert_eq!(rows(w1), (0, 7));
    assert_eq!(rows(w2), (8, 7));
    assert_eq!(rows(w3), (16, 7));
}

#[test]
fn test_relayout_tiny_screen() {
    let mut ed = Editor::new();
    let bid = ed.create_buffer("main");
    let w1 = ed.create_window(bid, LineId(0));
    let w2 = ed.create_window(bid, LineId(0));
    relayout(&mut ed.windows, 2);
    assert_eq!((ed.windows.get(w1).unwrap().top_row, ed.windows.get(w1).unwrap().n_rows), (0, 0));
    assert_eq!((ed.windows.get(w2).unwrap().top_row, ed.windows.get(w2).unwrap().n_rows), (1, 0));
}
