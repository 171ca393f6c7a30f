use uemacs::buffer::Buffer;
use uemacs::edit::commands::chars::{BackwardChar, ForwardChar};
use uemacs::edit::commands::chars_edit::{insert_at_dot, InsertTab, TransposeChars};
use uemacs::edit::commands::delete::{BackwardDelete, ForwardDelete};
use uemacs::edit::commands::fill::{collect_paragraph, FillPara};
use uemacs::edit::commands::insert::{cmode_find_open_brace_col, cmode_reindent, InsertChar, WrapWord};
use uemacs::edit::commands::justify::{justify_reflow_words, JustifyPara};
use uemacs::edit::commands::kill::{kill_n_chars, KillLine};
use uemacs::edit::commands::lines::ForwardLine;
use uemacs::edit::commands::listing::ListBuffers;
use uemacs::edit::commands::newline::{InsertNewline, NewlineAndIndent, OpenLine};
use uemacs::edit::commands::para_motion::GotoBop;
use uemacs::edit::commands::paragraph::{DeleteBlankLines, KillParagraph};
use uemacs::edit::commands::region::{transform_region, LowerRegion};
use uemacs::edit::commands::rewrite::{DetabLine, EntabLine, TrimLine};
use uemacs::edit::commands::searching::{BackwardSearch, ForwardSearch};
use uemacs::edit::commands::word_case::{case_words, CapWord, LowerWord, UpperWord, WordCase};
use uemacs::edit::commands::words::{
    skip_non_word_backward, skip_non_word_forward, skip_word_backward, skip_word_forward, BackwardWord,
    DeleteBackwardWord, DeleteForwardWord, ForwardWord,
};
use uemacs::edit::commands::yank::Yank;
use uemacs::edit::{Command, Editor};
use uemacs::line::Line;
use uemacs::types::{BufferFlags, BufferId, CmdFlags, LineId, LineOffset, Mode, UndoAction};

/// An editor with one buffer holding `lines` and a window on its first line.
fn editor_with(lines: &[&str]) -> (Editor, BufferId, Vec<LineId>) {
    let mut ed = Editor::new();
    let buf_id = ed.create_buffer("main");
    let mut ids = Vec::new();
    {
        let buf = ed.buffers.get_mut(buf_id).unwrap();
        let mut prev = LineId(0);
        for text in lines {
            let id = buf.insert_after(prev, Line::new());
            buf.line_mut(id).unwrap().text = text.as_bytes().to_vec();
            ids.push(id);
            prev = id;
        }
    }
    let first = if ids.is_empty() { LineId(0) } else { ids[0] };
    ed.create_window(buf_id, first);
    (ed, buf_id, ids)
}

fn texts(ed: &Editor, buf_id: BufferId) -> Vec<String> {
    let buf: &Buffer = ed.buffers.get(buf_id).unwrap();
    let mut out = Vec::new();
    let mut cur = buf.next_line(LineId(0));
    while let Some(id) = cur {
        if id == LineId(0) {
            break;
        }
        out.push(String::from_utf8(buf.line(id).unwrap().text.clone()).unwrap());
        cur = buf.next_line(id);
    }
    out
}

fn dot(ed: &Editor) -> (LineId, usize) {
    let w = ed.current_window().unwrap();
    (w.dot_line, w.dot_offset.0)
}

#[test]
fn test_forward_line_goal_exceeds_line_len() {
    let mut ed = Editor::new();
    let buf_id = ed.create_buffer("main");
    let buf = ed.buffers.get_mut(buf_id).unwrap();
    let l1 = buf.insert_after(LineId(0), Line::new());
    let l2 = buf.insert_after(l1, Line::new());
    buf.line_mut(l1).unwrap().text = b"hello world".to_vec();
    buf.line_mut(l2).unwrap().text = b"hi".to_vec();
    ed.create_window(buf_id, l1);
    ed.current_window_mut().unwrap().set_dot(l1, LineOffset(10));
    ed.cur_goal = 10;
    ForwardLine.execute(&mut ed, false, 1).unwrap();
    assert_eq!(ed.current_window().unwrap().dot_offset.0, 2);
}

#[test]
fn test_kill_line_beyond_buffer_error() {
    let mut ed = Editor::new();
    let buf_id = ed.create_buffer("main");
    let buf = ed.buffers.get_mut(buf_id).unwrap();
    let l1 = buf.insert_after(LineId(0), Line::new());
    buf.line_mut(l1).unwrap().text = b"hello".to_vec();
    ed.create_window(buf_id, l1);
    ed.current_window_mut().unwrap().set_dot(l1, LineOffset(0));
    let result = KillLine.execute(&mut ed, true, 2);
    assert!(result.is_err());
}

#[test]
fn test_entab_line_non_tab_stop_run() {
    let mut ed = Editor::new();
    let buf_id = ed.create_buffer("main");
    let buf = ed.buffers.get_mut(buf_id).unwrap();
    let l1 = buf.insert_after(LineId(0), Line::new());
    buf.line_mut(l1).unwrap().text = b"ab          cd".to_vec();
    ed.create_window(buf_id, l1);
    ed.current_window_mut().unwrap().set_dot(l1, LineOffset(0));
    EntabLine.execute(&mut ed, false, 1).unwrap();
    let result = &ed.buffers.get(buf_id).unwrap().line(l1).unwrap().text;
    assert!(result.contains(&b'\t'));
}

#[test]
fn test_goto_bop_from_middle() {
    let mut ed = Editor::new();
    let buf_id = ed.create_buffer("main");
    let buf = ed.buffers.get_mut(buf_id).unwrap();
    let l1 = buf.insert_after(LineId(0), Line::new());
    let l2 = buf.insert_after(l1, Line::new());
    buf.line_mut(l1).unwrap().text = b"line1".to_vec();
    buf.line_mut(l2).unwrap().text = b"line2".to_vec();
    ed.create_window(buf_id, l1);
    ed.current_window_mut().unwrap().set_dot(l2, LineOffset(3));
    GotoBop.execute(&mut ed, false, 1).unwrap();
    assert_eq!(ed.current_window().unwrap().dot_line, l1);
}

#[test]
fn test_forward_line_with_large_goal() {
    let mut ed = Editor::new();
    let buf_id = ed.create_buffer("main");
    let buf = ed.buffers.get_mut(buf_id).unwrap();
    let l1 = buf.insert_after(LineId(0), Line::new());
    let l2 = buf.insert_after(l1, Line::new());
    buf.line_mut(l1).unwrap().text = b"short".to_vec();
    buf.line_mut(l2).unwrap().text = b"hi".to_vec();
    ed.create_window(buf_id, l1);
    ed.current_window_mut().unwrap().set_dot(l1, LineOffset(0));
    ed.cur_goal = 100;
    ed.last_flag = CmdFlags::line_move();
    ForwardLine.execute(&mut ed, false, 1).unwrap();
    assert_eq!(ed.current_window().unwrap().dot_offset.0, 2);
}

#[test]
fn test_set_var_fillcol() {
    let mut ed = Editor::new();
    ed.set_var("fillcol", 72);
    assert_eq!(ed.fillcol, 72);
}

#[test]
fn test_forward_line_goal_exceeds_length() {
    let mut ed = Editor::new();
    let buf_id = ed.create_buffer("main");
    let buf = ed.buffers.get_mut(buf_id).unwrap();
    let l1 = buf.insert_after(LineId(0), Line::new());
    let l2 = buf.insert_after(l1, Line::new());
    buf.line_mut(l1).unwrap().text = b"hello world".to_vec();
    buf.line_mut(l2).unwrap().text = b"hi".to_vec();
    ed.create_window(buf_id, l1);
    ed.current_window_mut().unwrap().set_dot(l1, LineOffset(0));
    ed.cur_goal = 100;
    ed.last_flag = CmdFlags::line_move();
    ForwardLine.execute(&mut ed, false, 1).unwrap();
    let win = ed.current_window().unwrap();
    assert_eq!(win.dot_offset.0, 2);
}

#[test]
fn test_set_var_tab_width_zero_ignored() {
    let mut ed = Editor::new();
    ed.set_var("tab_width", 0);
    assert_eq!(ed.tab_width, 8);
    ed.set_var("tab_width", 4);
    assert_eq!(ed.tab_width, 4);
}

#[test]
fn test_fill_para_reflows_words() {
    let (mut ed, buf_id, ids) = editor_with(&["aaa bbb", "ccc ddd eee", "", "next"]);
    ed.fillcol = 8;
    FillPara.execute(&mut ed, false, 1).unwrap();
    assert_eq!(texts(&ed, buf_id), vec!["aaa bbb", "ccc ddd", "eee", "", "next"]);
    let (l, o) = dot(&ed);
    assert_eq!(ed.buffers.get(buf_id).unwrap().line(l).unwrap().text, b"eee".to_vec());
    assert_eq!(o, 3);
    assert_eq!(ed.undo_stack.len(), 1);
    let _ = ids;
}

#[test]
fn test_fill_para_long_word_alone() {
    let (mut ed, buf_id, _) = editor_with(&["a verylongword b"]);
    ed.fillcol = 5;
    FillPara.execute(&mut ed, false, 1).unwrap();
    assert_eq!(texts(&ed, buf_id), vec!["a", "verylongword", "b"]);
}

#[test]
fn test_fill_para_without_fill_column_changes_nothing() {
    let (mut ed, buf_id, _) = editor_with(&["aaa bbb", "ccc"]);
    ed.fillcol = 0;
    FillPara.execute(&mut ed, false, 1).unwrap();
    assert_eq!(texts(&ed, buf_id), vec!["aaa bbb", "ccc"]);
    assert_eq!(ed.undo_stack.len(), 0);
}

#[test]
fn test_fill_para_blank_paragraph_changes_nothing() {
    let (mut ed, buf_id, _) = editor_with(&["   ", "\t"]);
    FillPara.execute(&mut ed, false, 1).unwrap();
    assert_eq!(texts(&ed, buf_id), vec!["   ", "\t"]);
    assert_eq!(ed.undo_stack.len(), 0);
}

#[test]
fn test_fill_para_without_window_fails() {
    let mut ed = Editor::new();
    ed.create_buffer("main");
    assert!(FillPara.execute(&mut ed, false, 1).is_err());
}

#[test]
fn test_collect_paragraph_words() {
    let (ed, buf_id, ids) = editor_with(&["", "one  two", "\tthree", "", "four"]);
    let (head, start, end, words) = collect_paragraph(&ed, buf_id, ids[2]).unwrap();
    assert_eq!(head, LineId(0));
    assert_eq!(start, ids[1]);
    assert_eq!(end, ids[3]);
    assert_eq!(words, vec![b"one".to_vec(), b"two".to_vec(), b"three".to_vec()]);
    assert!(collect_paragraph(&ed, BufferId(7), ids[2]).is_err());
}

#[test]
fn test_justify_reflow_words_layout() {
    let words = vec![b"End.".to_vec(), b"Then".to_vec(), b"more".to_vec()];
    let lines = justify_reflow_words(&words, 12, 2, b"> ".to_vec());
    assert_eq!(lines, vec![b"> End.  Then".to_vec(), b"  more".to_vec()]);
}

#[test]
fn test_justify_para_with_margin() {
    let (mut ed, buf_id, ids) = editor_with(&["  alpha beta gamma delta", "epsilon"]);
    ed.fillcol = 14;
    ed.current_window_mut().unwrap().set_dot(ids[0], LineOffset(2));
    JustifyPara.execute(&mut ed, false, 1).unwrap();
    assert_eq!(texts(&ed, buf_id), vec!["  alpha beta", "  gamma delta", "  epsilon"]);
    let (l, o) = dot(&ed);
    assert_eq!(ed.buffers.get(buf_id).unwrap().line(l).unwrap().text, b"  epsilon".to_vec());
    assert_eq!(o, 2);
}

#[test]
fn test_justify_para_margin_too_close_changes_nothing() {
    let (mut ed, buf_id, ids) = editor_with(&["alpha beta"]);
    ed.fillcol = 12;
    ed.current_window_mut().unwrap().set_dot(ids[0], LineOffset(3));
    JustifyPara.execute(&mut ed, false, 1).unwrap();
    assert_eq!(texts(&ed, buf_id), vec!["alpha beta"]);
}

#[test]
fn test_justify_para_view_mode_refused() {
    let (mut ed, buf_id, _) = editor_with(&["alpha beta"]);
    ed.buffers.get_mut(buf_id).unwrap().mode = Mode::view();
    assert!(JustifyPara.execute(&mut ed, false, 1).is_err());
    assert_eq!(texts(&ed, buf_id), vec!["alpha beta"]);
}

#[test]
fn test_forward_then_backward_char_returns() {
    let (mut ed, _, ids) = editor_with(&["héllo", "x"]);
    ed.current_window_mut().unwrap().set_dot(ids[0], LineOffset(1));
    ForwardChar.execute(&mut ed, false, 1).unwrap();
    assert_eq!(dot(&ed), (ids[0], 3));
    BackwardChar.execute(&mut ed, false, 1).unwrap();
    assert_eq!(dot(&ed), (ids[0], 1));
}

#[test]
fn test_forward_char_crosses_line_end() {
    let (mut ed, _, ids) = editor_with(&["ab", "cd"]);
    ed.current_window_mut().unwrap().set_dot(ids[0], LineOffset(2));
    ForwardChar.execute(&mut ed, false, 1).unwrap();
    assert_eq!(dot(&ed), (ids[1], 0));
}

#[test]
fn test_backward_char_at_start_fails() {
    let (mut ed, _, ids) = editor_with(&["ab"]);
    assert!(BackwardChar.execute(&mut ed, false, 1).is_err());
    assert_eq!(dot(&ed), (ids[0], 0));
}

#[test]
fn test_forward_delete_joins_lines() {
    let (mut ed, buf_id, ids) = editor_with(&["ab", "cd"]);
    ed.current_window_mut().unwrap().set_dot(ids[0], LineOffset(2));
    ForwardDelete.execute(&mut ed, false, 1).unwrap();
    assert_eq!(texts(&ed, buf_id), vec!["abcd"]);
}

#[test]
fn test_backward_delete_removes_char() {
    let (mut ed, buf_id, ids) = editor_with(&["abc"]);
    ed.current_window_mut().unwrap().set_dot(ids[0], LineOffset(2));
    BackwardDelete.execute(&mut ed, false, 1).unwrap();
    assert_eq!(texts(&ed, buf_id), vec!["ac"]);
    assert_eq!(dot(&ed), (ids[0], 1));
}

#[test]
fn test_insert_newline_splits_line() {
    let (mut ed, buf_id, ids) = editor_with(&["abcd"]);
    ed.current_window_mut().unwrap().set_dot(ids[0], LineOffset(2));
    InsertNewline.execute(&mut ed, false, 1).unwrap();
    assert_eq!(texts(&ed, buf_id), vec!["ab", "cd"]);
    assert_eq!(dot(&ed).1, 0);
}

#[test]
fn test_transpose_chars_twice_restores() {
    let (mut ed, buf_id, ids) = editor_with(&["abcd"]);
    ed.current_window_mut().unwrap().set_dot(ids[0], LineOffset(2));
    TransposeChars.execute(&mut ed, false, 1).unwrap();
    assert_eq!(texts(&ed, buf_id), vec!["acbd"]);
    TransposeChars.execute(&mut ed, false, 1).unwrap();
    assert_eq!(texts(&ed, buf_id), vec!["abcd"]);
}

#[test]
fn test_detab_then_entab_line() {
    let (mut ed, buf_id, _) = editor_with(&["\tx"]);
    DetabLine.execute(&mut ed, false, 1).unwrap();
    assert_eq!(texts(&ed, buf_id), vec!["        x"]);
    let (mut ed2, buf_id2, _) = editor_with(&["        x"]);
    EntabLine.execute(&mut ed2, false, 1).unwrap();
    assert_eq!(texts(&ed2, buf_id2), vec!["\tx"]);
}

#[test]
fn test_trim_line_removes_trailing_blanks() {
    let (mut ed, buf_id, _) = editor_with(&["abc \t "]);
    TrimLine.execute(&mut ed, false, 1).unwrap();
    assert_eq!(texts(&ed, buf_id), vec!["abc"]);
}

#[test]
fn test_kill_line_kills_text_and_newline() {
    let (mut ed, buf_id, _) = editor_with(&["abc", "def"]);
    KillLine.execute(&mut ed, false, 1).unwrap();
    assert_eq!(texts(&ed, buf_id), vec!["", "def"]);
    assert_eq!(ed.kill_buffer, b"abc".to_vec());
    KillLine.execute(&mut ed, false, 1).unwrap();
    assert_eq!(texts(&ed, buf_id), vec!["def"]);
}

#[test]
fn test_kill_paragraph_kills_text() {
    let (mut ed, buf_id, _) = editor_with(&["one", "two", "", "three"]);
    KillParagraph.execute(&mut ed, false, 1).unwrap();
    assert_eq!(texts(&ed, buf_id), vec!["", "three"]);
    assert_eq!(ed.kill_buffer, b"one\ntwo\n".to_vec());
}

#[test]
fn test_delete_blank_lines_removes_the_run() {
    let (mut ed, buf_id, ids) = editor_with(&["a", "", "  ", "", "b"]);
    ed.current_window_mut().unwrap().set_dot(ids[2], LineOffset(0));
    DeleteBlankLines.execute(&mut ed, false, 1).unwrap();
    assert_eq!(texts(&ed, buf_id), vec!["a", "b"]);
}

#[test]
fn test_insert_char_types_n_times() {
    let (mut ed, buf_id, ids) = editor_with(&["ac"]);
    ed.current_window_mut().unwrap().set_dot(ids[0], LineOffset(1));
    InsertChar('b').execute(&mut ed, true, 3).unwrap();
    assert_eq!(texts(&ed, buf_id), vec!["abbbc"]);
    assert_eq!(dot(&ed), (ids[0], 4));
    assert_eq!(ed.undo_stack.len(), 3);
}

#[test]
fn test_insert_char_utf8() {
    let (mut ed, buf_id, _) = editor_with(&[""]);
    InsertChar('é').execute(&mut ed, false, 1).unwrap();
    assert_eq!(texts(&ed, buf_id), vec!["é"]);
    assert_eq!(dot(&ed).1, 2);
}

#[test]
fn test_insert_char_overwrite_mode() {
    let (mut ed, buf_id, _) = editor_with(&["abc"]);
    ed.buffers.get_mut(buf_id).unwrap().mode = Mode::overwrite();
    InsertChar('x').execute(&mut ed, false, 1).unwrap();
    assert_eq!(texts(&ed, buf_id), vec!["xbc"]);
}

#[test]
fn test_insert_char_past_line_end_fails() {
    let (mut ed, buf_id, ids) = editor_with(&["ab"]);
    ed.current_window_mut().unwrap().set_dot(ids[0], LineOffset(5));
    assert!(InsertChar('x').execute(&mut ed, false, 1).is_err());
    assert_eq!(texts(&ed, buf_id), vec!["ab"]);
}

#[test]
fn test_insert_space_wraps_word() {
    let (mut ed, buf_id, ids) = editor_with(&["hello world"]);
    ed.buffers.get_mut(buf_id).unwrap().mode = Mode::wrap();
    ed.fillcol = 8;
    ed.current_window_mut().unwrap().set_dot(ids[0], LineOffset(11));
    InsertChar(' ').execute(&mut ed, false, 1).unwrap();
    assert_eq!(texts(&ed, buf_id), vec!["hello", "world "]);
    assert_eq!(dot(&ed).1, 6);
}

#[test]
fn test_wrap_word_at_line_start_breaks_at_end() {
    let (mut ed, buf_id, ids) = editor_with(&["abcdef"]);
    ed.current_window_mut().unwrap().set_dot(ids[0], LineOffset(4));
    WrapWord.execute(&mut ed, false, 1).unwrap();
    assert_eq!(texts(&ed, buf_id), vec!["abcdef", ""]);
}

#[test]
fn test_cmode_close_brace_aligns() {
    let (mut ed, buf_id, ids) = editor_with(&["\tif (x) {", "\t\t\ty();", "        "]);
    ed.buffers.get_mut(buf_id).unwrap().mode = Mode::c_mode();
    ed.current_window_mut().unwrap().set_dot(ids[2], LineOffset(8));
    InsertChar('}').execute(&mut ed, false, 1).unwrap();
    assert_eq!(texts(&ed, buf_id), vec!["\tif (x) {", "\t\t\ty();", "\t}"]);
    let before = texts(&ed, buf_id);
    cmode_reindent(&mut ed, buf_id, ids[0], 0, 'x').unwrap();
    assert_eq!(texts(&ed, buf_id), before);
    assert!(cmode_reindent(&mut ed, BufferId(9), ids[0], 0, '}').is_err());
}

#[test]
fn test_cmode_hash_rewinds() {
    let (mut ed, buf_id, ids) = editor_with(&["   "]);
    ed.buffers.get_mut(buf_id).unwrap().mode = Mode::c_mode();
    ed.current_window_mut().unwrap().set_dot(ids[0], LineOffset(3));
    InsertChar('#').execute(&mut ed, false, 1).unwrap();
    assert_eq!(texts(&ed, buf_id), vec!["#"]);
}

#[test]
fn test_find_open_brace_col() {
    let (ed, buf_id, ids) = editor_with(&["  {", "    { }", "x"]);
    assert_eq!(cmode_find_open_brace_col(&ed, buf_id, ids[2], 0).unwrap(), Some(2));
    assert_eq!(cmode_find_open_brace_col(&ed, buf_id, ids[0], 0).unwrap(), None);
    assert!(cmode_find_open_brace_col(&ed, buf_id, ids[0], 9).is_err());
}

#[test]
fn test_autosave_countdown() {
    let (mut ed, buf_id, _) = editor_with(&[""]);
    {
        let b = ed.buffers.get_mut(buf_id).unwrap();
        b.mode = Mode::auto_save();
        b.filename = "f.txt".to_string();
    }
    ed.gasave = 2;
    ed.gacount = 2;
    InsertChar('a').execute(&mut ed, false, 1).unwrap();
    assert_eq!(ed.gacount, 1);
    assert!(!ed.autosave_due);
    InsertChar('a').execute(&mut ed, false, 1).unwrap();
    assert_eq!(ed.gacount, 2);
    assert!(ed.autosave_due);
}

#[test]
fn test_forward_search_moves_past_match() {
    let (mut ed, _, ids) = editor_with(&["hello world", "say hello"]);
    ed.search_pattern = b"hello".to_vec();
    ForwardSearch.execute(&mut ed, false, 1).unwrap();
    assert_eq!(dot(&ed), (ids[0], 5));
    assert_eq!(ed.last_match, b"hello".to_vec());
    ForwardSearch.execute(&mut ed, false, 1).unwrap();
    assert_eq!(dot(&ed), (ids[1], 9));
    assert!(ForwardSearch.execute(&mut ed, false, 1).is_err());
    assert_eq!(dot(&ed), (ids[1], 9));
}

#[test]
fn test_forward_search_twice_with_argument() {
    let (mut ed, _, ids) = editor_with(&["ab ab ab"]);
    ed.search_pattern = b"ab".to_vec();
    ForwardSearch.execute(&mut ed, true, 2).unwrap();
    assert_eq!(dot(&ed), (ids[0], 5));
}

#[test]
fn test_backward_search_moves_to_match_start() {
    let (mut ed, _, ids) = editor_with(&["one two", "two three"]);
    ed.current_window_mut().unwrap().set_dot(ids[1], LineOffset(9));
    ed.search_pattern = b"two".to_vec();
    BackwardSearch.execute(&mut ed, false, 1).unwrap();
    assert_eq!(dot(&ed), (ids[1], 0));
    assert_eq!(ed.last_match, b"two".to_vec());
    BackwardSearch.execute(&mut ed, false, 1).unwrap();
    assert_eq!(dot(&ed), (ids[0], 4));
}

#[test]
fn test_search_without_pattern_fails() {
    let (mut ed, _, _) = editor_with(&["abc"]);
    assert!(ForwardSearch.execute(&mut ed, false, 1).is_err());
    assert!(BackwardSearch.execute(&mut ed, false, 1).is_err());
}

#[test]
fn test_search_ignores_case_unless_exact() {
    let (mut ed, buf_id, ids) = editor_with(&["Hello"]);
    ed.search_pattern = b"hello".to_vec();
    ForwardSearch.execute(&mut ed, false, 1).unwrap();
    assert_eq!(dot(&ed), (ids[0], 5));
    ed.current_window_mut().unwrap().set_dot(ids[0], LineOffset(0));
    ed.buffers.get_mut(buf_id).unwrap().mode = Mode::exact();
    assert!(ForwardSearch.execute(&mut ed, false, 1).is_err());
}

#[test]
fn test_yank_inserts_kill_buffer() {
    let (mut ed, buf_id, ids) = editor_with(&["ad"]);
    ed.current_window_mut().unwrap().set_dot(ids[0], LineOffset(1));
    ed.kill_buffer = b"b\nc".to_vec();
    Yank.execute(&mut ed, false, 1).unwrap();
    assert_eq!(texts(&ed, buf_id), vec!["ab", "cd"]);
    assert_eq!(dot(&ed).1, 1);
}

#[test]
fn test_yank_twice_and_empty() {
    let (mut ed, buf_id, _) = editor_with(&[""]);
    Yank.execute(&mut ed, false, 1).unwrap();
    assert_eq!(texts(&ed, buf_id), vec![""]);
    ed.kill_buffer = b"xy".to_vec();
    Yank.execute(&mut ed, true, 2).unwrap();
    assert_eq!(texts(&ed, buf_id), vec!["xyxy"]);
}

#[test]
fn test_kill_line_then_yank_restores() {
    let (mut ed, buf_id, ids) = editor_with(&["abc", "def"]);
    ed.current_window_mut().unwrap().set_dot(ids[0], LineOffset(1));
    KillLine.execute(&mut ed, false, 1).unwrap();
    assert_eq!(texts(&ed, buf_id), vec!["a", "def"]);
    Yank.execute(&mut ed, false, 1).unwrap();
    assert_eq!(texts(&ed, buf_id), vec!["abc", "def"]);
}

#[test]
fn test_list_buffers_rows() {
    let (mut ed, _, _) = editor_with(&["a", "b"]);
    let other = ed.create_buffer("other");
    {
        let b = ed.buffers.get_mut(other).unwrap();
        b.filename = String::from("b.txt");
        b.flags = BufferFlags::changed();
        b.insert_after(LineId(0), Line::new());
    }
    ListBuffers.execute(&mut ed, false, 1).unwrap();
    let list = BufferId(2);
    assert_eq!(ed.buffers.len(), 3);
    assert_eq!(
        texts(&ed, list),
        vec![
            " MR Size  Name          File",
            " -- ----  ----          ----",
            "        2  main           ",
            "  *     1  other          b.txt",
        ]
    );
    let lb = ed.buffers.get(list).unwrap();
    assert!(lb.flags.intersects(BufferFlags::invisible()));
    assert!(!lb.flags.intersects(BufferFlags::changed()));
    let w = ed.current_window().unwrap();
    assert_eq!(w.buffer_id, list);
    assert_eq!(w.dot_offset.0, 0);
    assert_eq!(lb.next_line(LineId(0)), Some(w.dot_line));
}

#[test]
fn test_list_buffers_twice_reuses_list() {
    let (mut ed, _, _) = editor_with(&["x"]);
    ListBuffers.execute(&mut ed, false, 1).unwrap();
    {
        let b = ed.buffers.get_mut(BufferId(1)).unwrap();
        b.filename = String::from("stale");
        b.flags = BufferFlags::changed();
    }
    ListBuffers.execute(&mut ed, false, 1).unwrap();
    assert_eq!(ed.buffers.len(), 2);
    let lb = ed.buffers.get(BufferId(1)).unwrap();
    assert_eq!(lb.filename, "");
    assert!(!lb.flags.intersects(BufferFlags::changed()));
    assert_eq!(
        texts(&ed, BufferId(1)),
        vec![" MR Size  Name          File", " -- ----  ----          ----", "        1  main           "]
    );
}

#[test]
fn test_list_buffers_without_window_fails_but_lists() {
    let mut ed = Editor::new();
    ed.create_buffer("solo");
    assert!(ListBuffers.execute(&mut ed, false, 1).is_err());
    assert_eq!(ed.buffers.len(), 2);
    assert_eq!(texts(&ed, BufferId(1)).len(), 3);
}

#[test]
fn test_forward_word_moves_past_words() {
    let (mut ed, _, ids) = editor_with(&["hello world foo"]);
    ForwardWord.execute(&mut ed, false, 1).unwrap();
    assert_eq!(dot(&ed), (ids[0], 6));
    ForwardWord.execute(&mut ed, false, 2).unwrap_err();
    assert_eq!(dot(&ed), (ids[0], 15));
    ed.current_window_mut().unwrap().set_dot(ids[0], LineOffset(0));
    ForwardWord.execute(&mut ed, false, 2).unwrap();
    assert_eq!(dot(&ed), (ids[0], 12));
    ForwardWord.execute(&mut ed, false, 0).unwrap();
    assert_eq!(dot(&ed), (ids[0], 12));
}

#[test]
fn test_forward_word_crosses_lines() {
    let (mut ed, _, ids) = editor_with(&["ab", "  cd"]);
    ForwardWord.execute(&mut ed, false, 1).unwrap();
    assert_eq!(dot(&ed), (ids[1], 2));
}

#[test]
fn test_backward_word_to_word_start() {
    let (mut ed, _, ids) = editor_with(&["hello world"]);
    ed.current_window_mut().unwrap().set_dot(ids[0], LineOffset(8));
    BackwardWord.execute(&mut ed, false, 1).unwrap();
    assert_eq!(dot(&ed), (ids[0], 6));
    assert!(BackwardWord.execute(&mut ed, false, 1).is_err());
    assert_eq!(dot(&ed), (ids[0], 0));
}

#[test]
fn test_backward_word_at_buffer_start_fails() {
    let (mut ed, _, ids) = editor_with(&["abc"]);
    assert!(BackwardWord.execute(&mut ed, false, 1).is_err());
    assert_eq!(dot(&ed), (ids[0], 0));
}

#[test]
fn test_skip_helpers_count_characters() {
    let (mut ed, _, ids) = editor_with(&["ab  cd"]);
    assert_eq!(skip_word_forward(&mut ed).unwrap(), 2);
    assert_eq!(skip_non_word_forward(&mut ed).unwrap(), 2);
    assert_eq!(dot(&ed), (ids[0], 4));
    assert_eq!(skip_non_word_backward(&mut ed).unwrap(), 0);
    assert_eq!(skip_word_forward(&mut ed).unwrap(), 2);
    assert_eq!(dot(&ed), (ids[0], 6));
    assert_eq!(skip_non_word_backward(&mut ed).unwrap(), 1);
    assert_eq!(skip_word_backward(&mut ed).unwrap(), 2);
    assert_eq!(dot(&ed), (ids[0], 3));
}

#[test]
fn test_skip_word_backward_stuck_at_start() {
    let (mut ed, _, ids) = editor_with(&["abc"]);
    ed.current_window_mut().unwrap().set_dot(ids[0], LineOffset(2));
    assert!(skip_word_backward(&mut ed).is_err());
    assert_eq!(dot(&ed), (ids[0], 0));
}

#[test]
fn test_delete_forward_word_kills_word_and_blanks() {
    let (mut ed, buf_id, ids) = editor_with(&["foo bar baz"]);
    DeleteForwardWord.execute(&mut ed, false, 1).unwrap();
    assert_eq!(texts(&ed, buf_id), vec!["bar baz"]);
    assert_eq!(ed.kill_buffer, b"foo ".to_vec());
    assert_eq!(dot(&ed), (ids[0], 0));
}

#[test]
fn test_delete_forward_word_zero_keeps_blanks() {
    let (mut ed, buf_id, ids) = editor_with(&["foo bar"]);
    DeleteForwardWord.execute(&mut ed, false, 0).unwrap();
    assert_eq!(texts(&ed, buf_id), vec![" bar"]);
    assert_eq!(dot(&ed), (ids[0], 0));
}

#[test]
fn test_delete_backward_word_kills_previous_word() {
    let (mut ed, buf_id, ids) = editor_with(&["foo bar"]);
    ed.current_window_mut().unwrap().set_dot(ids[0], LineOffset(7));
    DeleteBackwardWord.execute(&mut ed, false, 1).unwrap();
    assert_eq!(texts(&ed, buf_id), vec!["foo "]);
    assert_eq!(ed.kill_buffer, b"bar".to_vec());
    assert_eq!(dot(&ed), (ids[0], 4));
}

#[test]
fn test_delete_backward_word_to_buffer_start() {
    let (mut ed, buf_id, ids) = editor_with(&["abc"]);
    ed.current_window_mut().unwrap().set_dot(ids[0], LineOffset(3));
    DeleteBackwardWord.execute(&mut ed, false, 1).unwrap();
    assert_eq!(texts(&ed, buf_id), vec![""]);
    assert_eq!(ed.kill_buffer, b"abc".to_vec());
}

#[test]
fn test_delete_backward_word_errors() {
    let (mut ed, buf_id, _) = editor_with(&["abc"]);
    assert!(DeleteBackwardWord.execute(&mut ed, false, 1).is_err());
    assert!(DeleteBackwardWord.execute(&mut ed, false, 0).is_err());
    assert_eq!(texts(&ed, buf_id), vec!["abc"]);
}

#[test]
fn test_upper_word_uppercases_first_word() {
    let (mut ed, buf_id, ids) = editor_with(&["hello world"]);
    UpperWord.execute(&mut ed, false, 1).unwrap();
    assert_eq!(texts(&ed, buf_id), vec!["HELLO world"]);
    assert_eq!(dot(&ed), (ids[0], 5));
    assert!(ed.buffers.get(buf_id).unwrap().flags.intersects(BufferFlags::changed()));
    assert_eq!(ed.undo_stack.len(), 1);
}

#[test]
fn test_lower_and_cap_word() {
    let (mut ed, buf_id, ids) = editor_with(&["HeLLo World", "hELLO wORLD"]);
    LowerWord.execute(&mut ed, false, 2).unwrap();
    assert_eq!(texts(&ed, buf_id), vec!["hello world", "hELLO wORLD"]);
    assert_eq!(dot(&ed), (ids[0], 11));
    CapWord.execute(&mut ed, false, 2).unwrap();
    assert_eq!(texts(&ed, buf_id), vec!["hello world", "Hello World"]);
    assert_eq!(dot(&ed), (ids[1], 11));
}

#[test]
fn test_case_words_keeps_non_ascii() {
    let (mut ed, buf_id, _) = editor_with(&["\u{e9}t\u{e9} ok"]);
    case_words(&mut ed, 1, WordCase::Upper).unwrap();
    assert_eq!(texts(&ed, buf_id), vec!["\u{e9}T\u{e9} ok"]);
}

#[test]
fn test_upper_word_stuck_at_end_fails() {
    let (mut ed, buf_id, ids) = editor_with(&["ab  "]);
    ed.current_window_mut().unwrap().set_dot(ids[0], LineOffset(2));
    assert!(UpperWord.execute(&mut ed, false, 1).is_err());
    assert_eq!(texts(&ed, buf_id), vec!["ab  "]);
    assert_eq!(dot(&ed), (ids[0], 4));
    assert_eq!(ed.undo_stack.len(), 0);
}

#[test]
fn test_upper_word_nothing_to_change() {
    let (mut ed, buf_id, _) = editor_with(&["ABC"]);
    UpperWord.execute(&mut ed, false, 1).unwrap();
    assert_eq!(texts(&ed, buf_id), vec!["ABC"]);
    assert_eq!(ed.undo_stack.len(), 0);
    assert!(ed.buffers.get(buf_id).unwrap().flags.intersects(BufferFlags::changed()));
    UpperWord.execute(&mut ed, false, 0).unwrap();
}

#[test]
fn test_transform_region_applies_any_byte_map() {
    let (mut ed, buf_id, ids) = editor_with(&["abcd", "xyz"]);
    {
        let w = ed.current_window_mut().unwrap();
        w.set_mark(ids[0], LineOffset(1));
        w.set_dot(ids[1], LineOffset(2));
    }
    transform_region(&mut ed, |b: u8| b.wrapping_add(1)).unwrap();
    assert_eq!(texts(&ed, buf_id), vec!["acde", "yzz"]);
    assert!(ed.current_window().unwrap().mark().is_none());
    assert_eq!(ed.undo_stack.len(), 1);
}

#[test]
fn test_transform_region_identity_records_nothing() {
    let (mut ed, buf_id, ids) = editor_with(&["abc"]);
    ed.current_window_mut().unwrap().set_mark(ids[0], LineOffset(3));
    transform_region(&mut ed, |b: u8| b).unwrap();
    assert_eq!(texts(&ed, buf_id), vec!["abc"]);
    assert_eq!(ed.undo_stack.len(), 0);
    assert!(!ed.buffers.get(buf_id).unwrap().flags.intersects(BufferFlags::changed()));
}

#[test]
fn test_lower_region_lowers_letters() {
    let (mut ed, buf_id, ids) = editor_with(&["ABC Def"]);
    ed.current_window_mut().unwrap().set_mark(ids[0], LineOffset(5));
    LowerRegion.execute(&mut ed, false, 1).unwrap();
    assert_eq!(texts(&ed, buf_id), vec!["abc def"]);
}

#[test]
fn test_entab_then_detab_keeps_expansion() {
    let (mut ed, buf_id, ids) = editor_with(&["ab          cd"]);
    EntabLine.execute(&mut ed, false, 1).unwrap();
    let entabbed = texts(&ed, buf_id)[0].clone();
    assert_eq!(entabbed, "ab\t    cd");
    assert!(entabbed.len() <= 14);
    ed.current_window_mut().unwrap().set_dot(ids[0], LineOffset(0));
    DetabLine.execute(&mut ed, false, 1).unwrap();
    assert_eq!(texts(&ed, buf_id), vec!["ab          cd"]);
}

#[test]
fn test_push_undo_records_window_and_actions() {
    let (mut ed, buf_id, ids) = editor_with(&["abc"]);
    ed.current_window_mut().unwrap().set_dot(ids[0], LineOffset(2));
    ed.push_undo(Vec::new());
    let e = ed.undo_stack.last().unwrap();
    assert_eq!(e.buffer_id, buf_id);
    assert_eq!(e.dot_line, ids[0]);
    assert_eq!(e.dot_offset, LineOffset(2));
    assert!(e.actions.is_empty());
}

#[test]
fn test_detab_entab_with_zero_tab_width() {
    let (mut ed, buf_id, _) = editor_with(&["abc", "a\tb", "a b"]);
    ed.tab_width = 0;
    DetabLine.execute(&mut ed, false, 1).unwrap();
    EntabLine.execute(&mut ed, false, 1).unwrap();
    assert_eq!(texts(&ed, buf_id), vec!["abc", "a\tb", "a b"]);
    assert!(DetabLine.execute(&mut ed, false, 2).is_err());
    assert!(EntabLine.execute(&mut ed, false, 3).is_err());
    assert_eq!(texts(&ed, buf_id), vec!["abc", "a\tb", "a b"]);
}

#[test]
fn test_insert_tab_with_zero_tab_width() {
    let (mut ed, buf_id, ids) = editor_with(&["ab", "\tx"]);
    ed.tab_width = 0;
    ed.current_window_mut().unwrap().set_dot(ids[0], LineOffset(2));
    InsertTab.execute(&mut ed, false, 1).unwrap();
    assert_eq!(texts(&ed, buf_id)[0], "ab\t");
    ed.tabsize = 4;
    InsertTab.execute(&mut ed, false, 1).unwrap_err();
    ed.current_window_mut().unwrap().set_dot(ids[0], LineOffset(2));
    InsertTab.execute(&mut ed, false, 1).unwrap();
    assert_eq!(texts(&ed, buf_id)[0], "ab  \t");
    ed.current_window_mut().unwrap().set_dot(ids[1], LineOffset(2));
    assert!(InsertTab.execute(&mut ed, false, 1).is_err());
    assert_eq!(texts(&ed, buf_id)[1], "\tx");
}

/// An undo record written out, for comparing.
fn show(a: &UndoAction) -> String {
    match a {
        UndoAction::Insert { line, offset, data } => {
            format!("ins {} {} {:?}", line.0, offset, String::from_utf8(data.clone()).unwrap())
        }
        UndoAction::Delete { line, offset, data } => {
            format!("del {} {} {:?}", line.0, offset, String::from_utf8(data.clone()).unwrap())
        }
        UndoAction::Split { line, offset, new_line } => format!("split {} {} {}", line.0, offset, new_line.0),
        UndoAction::Merge { line, offset, next_line, next_data, after_next } => format!(
            "merge {} {} {} {:?} {}",
            line.0,
            offset,
            next_line.0,
            String::from_utf8(next_data.clone()).unwrap(),
            after_next.0
        ),
    }
}

fn last_undo(ed: &Editor) -> Vec<String> {
    ed.undo_stack.last().unwrap().actions.iter().map(show).collect()
}

#[test]
fn test_fill_para_undo_records() {
    let (mut ed, buf_id, ids) = editor_with(&["aaa bbb", "ccc ddd eee", "", "next"]);
    ed.fillcol = 8;
    FillPara.execute(&mut ed, false, 1).unwrap();
    assert_eq!(texts(&ed, buf_id), vec!["aaa bbb", "ccc ddd", "eee", "", "next"]);
    assert_eq!(ids, vec![LineId(1), LineId(2), LineId(3), LineId(4)]);
    let entry = ed.undo_stack.last().unwrap();
    assert_eq!(entry.buffer_id, buf_id);
    assert_eq!(entry.dot_line, ids[0]);
    assert_eq!(entry.dot_offset.0, 0);
    assert_eq!(
        last_undo(&ed),
        vec![
            "del 1 0 \"aaa bbb\"",
            "merge 1 0 2 \"ccc ddd eee\" 3",
            "ins 1 0 \"aaa\"",
            "ins 1 3 \" \"",
            "ins 1 4 \"bbb\"",
            "split 1 7 5",
            "ins 5 0 \"ccc\"",
            "ins 5 3 \" \"",
            "ins 5 4 \"ddd\"",
            "split 5 7 6",
            "ins 6 0 \"eee\"",
        ]
    );
}

#[test]
fn test_justify_para_undo_records() {
    let (mut ed, buf_id, ids) = editor_with(&["  alpha beta gamma delta", "epsilon"]);
    ed.fillcol = 14;
    ed.current_window_mut().unwrap().set_dot(ids[0], LineOffset(2));
    JustifyPara.execute(&mut ed, false, 1).unwrap();
    assert_eq!(texts(&ed, buf_id), vec!["  alpha beta", "  gamma delta", "  epsilon"]);
    assert_eq!(ed.undo_stack.len(), 1);
    let entry = ed.undo_stack.last().unwrap();
    assert_eq!(entry.dot_line, ids[0]);
    assert_eq!(entry.dot_offset.0, 2);
    assert_eq!(
        last_undo(&ed),
        vec![
            "del 1 2 \"alpha beta gamma delta\"",
            "merge 1 2 2 \"epsilon\" 0",
            "ins 1 2 \"alpha\"",
            "ins 1 7 \" \"",
            "ins 1 8 \"beta\"",
            "split 1 12 3",
            "ins 3 0 \"  \"",
            "ins 3 2 \"gamma\"",
            "ins 3 7 \" \"",
            "ins 3 8 \"delta\"",
            "split 3 13 4",
            "ins 4 0 \"  \"",
            "ins 4 2 \"epsilon\"",
        ]
    );
}

#[test]
fn test_justify_para_full_stop_record() {
    let (mut ed, buf_id, ids) = editor_with(&["End. more"]);
    ed.fillcol = 20;
    ed.current_window_mut().unwrap().set_dot(ids[0], LineOffset(0));
    JustifyPara.execute(&mut ed, false, 1).unwrap();
    assert_eq!(texts(&ed, buf_id), vec!["End.  more"]);
    assert_eq!(
        last_undo(&ed),
        vec![
            "del 1 0 \"End. more\"",
            "ins 1 0 \"End.\"",
            "ins 1 4 \" \"",
            "ins 1 5 \" \"",
            "ins 1 6 \"more\"",
        ]
    );
}

#[test]
fn test_justify_keeps_words() {
    let words = vec![b"Some".to_vec(), b"words.".to_vec(), b"And".to_vec(), b"then".to_vec(), b"others".to_vec()];
    let lines = justify_reflow_words(&words, 12, 3, b" > ".to_vec());
    let mut seen: Vec<Vec<u8>> = Vec::new();
    for l in &lines {
        for w in l.split(|b| *b == b' ') {
            if !w.is_empty() {
                seen.push(w.to_vec());
            }
        }
    }
    let mut expected = vec![b">".to_vec()];
    expected.extend(words.iter().cloned());
    assert_eq!(seen, expected);
    assert!(lines.len() > 1);
}

#[test]
fn test_transpose_chars_undo_record() {
    let (mut ed, buf_id, ids) = editor_with(&["abcd"]);
    ed.current_window_mut().unwrap().set_dot(ids[0], LineOffset(2));
    TransposeChars.execute(&mut ed, false, 1).unwrap();
    assert_eq!(texts(&ed, buf_id), vec!["acbd"]);
    let entry = ed.undo_stack.last().unwrap();
    assert_eq!((entry.dot_line, entry.dot_offset.0), (ids[0], 2));
    assert_eq!(last_undo(&ed), vec!["del 1 1 \"bc\"", "ins 1 1 \"cb\""]);
}

#[test]
fn test_insert_at_dot_undo_record() {
    let (mut ed, buf_id, ids) = editor_with(&["ab"]);
    ed.current_window_mut().unwrap().set_dot(ids[0], LineOffset(1));
    insert_at_dot(&mut ed, &b"xy".to_vec()).unwrap();
    assert_eq!(texts(&ed, buf_id), vec!["axyb"]);
    assert_eq!(dot(&ed), (ids[0], 3));
    let entry = ed.undo_stack.last().unwrap();
    assert_eq!((entry.dot_line, entry.dot_offset.0), (ids[0], 1));
    assert_eq!(last_undo(&ed), vec!["ins 1 1 \"xy\""]);
}

#[test]
fn test_detab_undo_records() {
    let (mut ed, buf_id, ids) = editor_with(&["\ta", "b", "c\td"]);
    DetabLine.execute(&mut ed, true, 3).unwrap();
    assert_eq!(texts(&ed, buf_id), vec!["        a", "b", "c       d"]);
    assert_eq!(ed.undo_stack.len(), 1);
    let entry = ed.undo_stack.last().unwrap();
    assert_eq!((entry.dot_line, entry.dot_offset.0), (ids[2], 0));
    assert_eq!(
        last_undo(&ed),
        vec![
            "del 1 0 \"\\ta\"",
            "ins 1 0 \"        a\"",
            "del 3 0 \"c\\td\"",
            "ins 3 0 \"c       d\"",
        ]
    );
}

#[test]
fn test_open_line_undo_records() {
    let (mut ed, buf_id, ids) = editor_with(&["abc"]);
    ed.current_window_mut().unwrap().set_dot(ids[0], LineOffset(1));
    OpenLine.execute(&mut ed, true, 2).unwrap();
    assert_eq!(texts(&ed, buf_id), vec!["a", "", "bc"]);
    assert_eq!(ed.undo_stack.len(), 2);
    let first: Vec<String> = ed.undo_stack[0].actions.iter().map(show).collect();
    let second: Vec<String> = ed.undo_stack[1].actions.iter().map(show).collect();
    assert_eq!(first, vec!["split 1 1 2"]);
    assert_eq!(second, vec!["split 2 0 3"]);
    assert_eq!((ed.undo_stack[1].dot_line, ed.undo_stack[1].dot_offset.0), (ids[0], 1));
}

#[test]
fn test_forward_delete_undo_records() {
    let (mut ed, buf_id, ids) = editor_with(&["ab", "cd"]);
    ed.current_window_mut().unwrap().set_dot(ids[0], LineOffset(1));
    ForwardDelete.execute(&mut ed, false, 2).unwrap();
    assert_eq!(texts(&ed, buf_id), vec!["acd"]);
    assert_eq!(ed.undo_stack.len(), 2);
    let first: Vec<String> = ed.undo_stack[0].actions.iter().map(show).collect();
    let second: Vec<String> = ed.undo_stack[1].actions.iter().map(show).collect();
    assert_eq!(first, vec!["del 1 1 \"b\""]);
    assert_eq!(second, vec!["merge 1 1 2 \"cd\" 0"]);
    assert_eq!((ed.undo_stack[1].dot_line, ed.undo_stack[1].dot_offset.0), (ids[0], 1));
}

#[test]
fn test_kill_chars_undo_record() {
    let (mut ed, buf_id, ids) = editor_with(&["ab", "cd"]);
    ed.current_window_mut().unwrap().set_dot(ids[0], LineOffset(1));
    kill_n_chars(&mut ed, 2).unwrap();
    assert_eq!(texts(&ed, buf_id), vec!["acd"]);
    assert_eq!(ed.kill_buffer, b"b\n".to_vec());
    assert_eq!(ed.undo_stack.len(), 1);
    assert_eq!(last_undo(&ed), vec!["del 1 1 \"b\"", "merge 1 1 2 \"cd\" 0"]);
}

#[test]
fn test_newline_and_indent_undo_records() {
    let (mut ed, buf_id, ids) = editor_with(&["  ab"]);
    ed.current_window_mut().unwrap().set_dot(ids[0], LineOffset(4));
    NewlineAndIndent.execute(&mut ed, false, 1).unwrap();
    assert_eq!(texts(&ed, buf_id), vec!["  ab", "  "]);
    assert_eq!(ed.undo_stack.len(), 1);
    let entry = ed.undo_stack.last().unwrap();
    assert_eq!((entry.dot_line, entry.dot_offset.0), (ids[0], 4));
    assert_eq!(last_undo(&ed), vec!["split 1 4 2", "ins 2 0 \"  \""]);
}

#[test]
fn test_transform_region_undo_records() {
    let (mut ed, buf_id, ids) = editor_with(&["abcd", "xyz"]);
    {
        let w = ed.current_window_mut().unwrap();
        w.set_mark(ids[0], LineOffset(1));
        w.set_dot(ids[1], LineOffset(2));
    }
    transform_region(&mut ed, |b: u8| b.wrapping_add(1)).unwrap();
    assert_eq!(texts(&ed, buf_id), vec!["acde", "yzz"]);
    let entry = ed.undo_stack.last().unwrap();
    assert_eq!((entry.dot_line, entry.dot_offset.0), (ids[1], 2));
    assert_eq!(
        last_undo(&ed),
        vec!["del 1 1 \"bcd\"", "ins 1 1 \"cde\"", "del 2 0 \"xy\"", "ins 2 0 \"yz\""]
    );
}

#[test]
fn test_lower_region_undo_records() {
    let (mut ed, buf_id, ids) = editor_with(&["ABC Def"]);
    ed.current_window_mut().unwrap().set_mark(ids[0], LineOffset(5));
    LowerRegion.execute(&mut ed, false, 1).unwrap();
    assert_eq!(texts(&ed, buf_id), vec!["abc def"]);
    assert_eq!(last_undo(&ed), vec!["del 1 0 \"ABC D\"", "ins 1 0 \"abc d\""]);
}

#[test]
fn test_delete_blank_lines_undo_records() {
    let (mut ed, buf_id, ids) = editor_with(&["a", "", "  ", "b"]);
    ed.current_window_mut().unwrap().set_dot(ids[1], LineOffset(0));
    DeleteBlankLines.execute(&mut ed, false, 1).unwrap();
    assert_eq!(texts(&ed, buf_id), vec!["a", "b"]);
    assert_eq!(ed.undo_stack.len(), 1);
    let entry = ed.undo_stack.last().unwrap();
    assert_eq!((entry.dot_line, entry.dot_offset.0), (ids[3], 0));
    assert_eq!(last_undo(&ed), vec!["merge 1 1 2 \"\" 3", "merge 1 1 3 \"  \" 4"]);
}
