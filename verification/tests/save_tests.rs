use uemacs::edit::commands::save::{SaveFile, SavePlan};
use uemacs::edit::Editor;
use uemacs::line::Line;
use uemacs::types::{BufferFlags, BufferId, LineId, WindowFlags};

/// An editor with one buffer holding `lines` and a window on it.
fn editor_with(lines: &[&str]) -> (Editor, BufferId) {
    let mut ed = Editor::new();
    let buf_id = ed.create_buffer("main");
    {
        let buf = ed.buffers.get_mut(buf_id).unwrap();
        let mut prev = LineId(0);
        for text in lines {
            let id = buf.insert_after(prev, Line::new());
            buf.line_mut(id).unwrap().text = text.as_bytes().to_vec();
            prev = id;
        }
    }
    ed.create_window(buf_id, LineId(0));
    (ed, buf_id)
}

#[test]
fn test_save_plan_unchanged_buffer() {
    let (ed, _) = editor_with(&["a"]);
    assert!(matches!(SaveFile.plan(&ed), Ok(SavePlan::Unchanged)));
}

#[test]
fn test_save_plan_without_file_name_fails() {
    let (mut ed, buf_id) = editor_with(&["a"]);
    ed.buffers.get_mut(buf_id).unwrap().flags = BufferFlags::changed();
    assert!(SaveFile.plan(&ed).is_err());
}

#[test]
fn test_save_plan_without_window_fails() {
    let mut ed = Editor::new();
    ed.create_buffer("x");
    assert!(SaveFile.plan(&ed).is_err());
}

#[test]
fn test_save_plan_gives_text_and_saved_clears_flag() {
    let (mut ed, buf_id) = editor_with(&["ab", "c"]);
    {
        let b = ed.buffers.get_mut(buf_id).unwrap();
        b.flags = BufferFlags::changed();
        b.filename = String::from("out.txt");
    }
    match SaveFile.plan(&ed) {
        Ok(SavePlan::Write { buffer, filename, text }) => {
            assert_eq!(buffer, buf_id);
            assert_eq!(filename, "out.txt");
            assert_eq!(text, b"ab\nc\n".to_vec());
        }
        _ => panic!("expected a write"),
    }
    ed.current_window_mut().unwrap().clear_flags();
    SaveFile.saved(&mut ed, buf_id);
    assert!(!ed.buffers.get(buf_id).unwrap().flags.intersects(BufferFlags::changed()));
    assert!(ed.current_window().unwrap().has_flag(WindowFlags::mode_line()));
    assert!(matches!(SaveFile.plan(&ed), Ok(SavePlan::Unchanged)));
}
