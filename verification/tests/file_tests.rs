use uemacs::buffer::Buffer;
use uemacs::file::load_content;
use uemacs::line::Line;
use uemacs::search::buffer_text;
use uemacs::types::{BufferId, LineId};

fn lines_of(b: &Buffer) -> Vec<Vec<u8>> {
    let mut out = Vec::new();
    let mut cur = b.next_line(LineId(0));
    while let Some(id) = cur {
        if id == LineId(0) {
            break;
        }
        out.push(b.line(id).unwrap().text.clone());
        cur = b.next_line(id);
    }
    out
}

#[test]
fn test_written_text_reads_back_as_same_lines() {
    let mut b1 = Buffer::new(BufferId(0), "one");
    let mut prev = LineId(0);
    for t in ["first", "", "  third  "] {
        let id = b1.insert_after(prev, Line::new());
        b1.line_mut(id).unwrap().text = t.as_bytes().to_vec();
        prev = id;
    }
    let text = buffer_text(&b1);
    assert_eq!(text, b"first\n\n  third  \n".to_vec());
    let mut b2 = Buffer::new(BufferId(1), "two");
    let n = load_content(&mut b2, "f", &text);
    assert_eq!(n, 3);
    assert_eq!(lines_of(&b2), lines_of(&b1));
}

#[test]
fn test_empty_buffer_writes_empty_text() {
    let b1 = Buffer::new(BufferId(0), "one");
    let text = buffer_text(&b1);
    assert!(text.is_empty());
    let mut b2 = Buffer::new(BufferId(1), "two");
    assert_eq!(load_content(&mut b2, "f", &text), 0);
    assert!(lines_of(&b2).is_empty());
}
