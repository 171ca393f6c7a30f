use crate::buffer::Buffer;
use crate::flat::{
    flat, flat_index, line_start, lemma_line_start_prefix_all, lemma_nl_joined_len, nl_joined, lemma_joined_byte, lemma_joined_newline, lemma_line_end_bound,
    lemma_line_start_nonneg, ring_ids, ring_texts,
};
use crate::types::{LineId, Mode};
use vstd::prelude::*;

verus! {

/// ASCII lower-casing of a byte.
pub open spec fn ascii_lower(b: u8) -> u8 {
    if 65 <= b <= 90 {
        (b + 32) as u8
    } else {
        b
    }
}

/// Two bytes match: equal when `exact`, else equal up to ASCII case.
pub open spec fn byte_eq(a: u8, b: u8, exact: bool) -> bool {
    if exact {
        a == b
    } else {
        ascii_lower(a) == ascii_lower(b)
    }
}

/// `pat` occurs in `text` at index `q`.
pub open spec fn matches_at_index(text: Seq<u8>, q: int, pat: Seq<u8>, exact: bool) -> bool {
    &&& 0 <= q
    &&& q + pat.len() <= text.len()
    &&& forall|i: int| 0 <= i < pat.len() ==> byte_eq(#[trigger] text[q + i], pat[i], exact)
}

/// `pat` occurs at no index in `lo..hi`.
pub open spec fn no_match_in(text: Seq<u8>, lo: int, hi: int, pat: Seq<u8>, exact: bool) -> bool {
    forall|q: int| lo <= q < hi ==> !#[trigger] matches_at_index(text, q, pat, exact)
}

/// Whether searches in the buffer respect case.
pub open spec fn exact_mode(buf: &Buffer) -> bool {
    buf.mode.0 & 0x08 != 0
}

/// (`l`, `o`) is offset `o` of the `k`-th line of the ring.
pub open spec fn ring_at(buf: &Buffer, k: int, l: LineId, o: usize) -> bool {
    &&& 0 <= k < ring_ids(buf).len()
    &&& ring_ids(buf)[k] == l.0
    &&& o <= ring_texts(buf)[k].len()
}

/// (`l`, `o`) is a position of the ring that lies at index `x` of the flat text.
pub open spec fn at_flat(buf: &Buffer, l: LineId, o: usize, x: int) -> bool {
    exists|k: int| ring_at(buf, k, l, o) && flat_index(buf, k, o as int) == x
}

/// What a forward search from flat index `p` must answer.
pub open spec fn forward_answer(buf: &Buffer, pat: Seq<u8>, p: int, r: Option<(LineId, usize)>) -> bool {
    let text = flat(buf);
    let exact = exact_mode(buf);
    if pat.len() == 0 {
        r is None
    } else {
        match r {
            Some((l, o)) => exists|q: int|
                p <= q && matches_at_index(text, q, pat, exact) && no_match_in(
                    text,
                    p,
                    q,
                    pat,
                    exact,
                ) && at_flat(buf, l, o, q + pat.len()),
            None => no_match_in(text, p, text.len() as int, pat, exact),
        }
    }
}

/// What a backward search from flat index `p`, not going below `lo`, must answer.
pub open spec fn backward_answer(
    buf: &Buffer,
    pat: Seq<u8>,
    lo: int,
    p: int,
    r: Option<(LineId, usize)>,
) -> bool {
    let text = flat(buf);
    let exact = exact_mode(buf);
    if pat.len() == 0 {
        r is None
    } else {
        match r {
            Some((l, o)) => exists|q: int|
                lo <= q < p && matches_at_index(text, q, pat, exact) && no_match_in(
                    text,
                    q + 1,
                    p,
                    pat,
                    exact,
                ) && at_flat(buf, l, o, q),
            None => no_match_in(text, lo, p, pat, exact),
        }
    }
}

/// The ring lists each line once.
pub proof fn lemma_ring_unique(buf: &Buffer, a: int, b: int)
    requires
        buf.wf(),
        0 <= a < ring_ids(buf).len(),
        0 <= b < ring_ids(buf).len(),
        ring_ids(buf)[a] == ring_ids(buf)[b],
    ensures
        a == b,
{
    let ids = buf.ids();
    if a > 0 && b > 0 {
        assert(ring_ids(buf)[a] == ids[a - 1]);
        assert(ring_ids(buf)[b] == ids[b - 1]);
    } else if a > 0 {
        assert(ring_ids(buf)[a] == ids[a - 1]);
        assert(ids[a - 1] > 0);
    } else if b > 0 {
        assert(ring_ids(buf)[b] == ids[b - 1]);
        assert(ids[b - 1] > 0);
    }
}

/// What the `k`-th entry of the ring is.
pub proof fn lemma_ring_index(buf: &Buffer, k: int)
    requires
        0 <= k < ring_ids(buf).len(),
    ensures
        ring_ids(buf).len() == buf.ids().len() + 1,
        ring_texts(buf).len() == ring_ids(buf).len(),
        ring_ids(buf)[k] == (if k == 0 {
            0usize
        } else {
            buf.ids()[k - 1]
        }),
        ring_texts(buf)[k] == buf.text_of(ring_ids(buf)[k]),
        ring_texts(buf)[k] == buf.lines@[ring_ids(buf)[k] as int].text@,
{
}

/// How positions of the ring sit in the flat text.
pub proof fn lemma_ring_flat(buf: &Buffer, k: int, o: int)
    requires
        0 <= k < ring_ids(buf).len(),
        0 <= o <= ring_texts(buf)[k].len(),
    ensures
        flat_index(buf, k, o) >= 0,
        flat_index(buf, k, o) <= flat(buf).len(),
        o < ring_texts(buf)[k].len() ==> flat(buf)[flat_index(buf, k, o)] == ring_texts(
            buf,
        )[k][o],
        o == ring_texts(buf)[k].len() && k + 1 < ring_ids(buf).len() ==> flat(buf)[flat_index(
            buf,
            k,
            o,
        )] == 10u8 && flat_index(buf, k + 1, 0) == flat_index(buf, k, o) + 1,
        o == ring_texts(buf)[k].len() && k + 1 < ring_ids(buf).len() ==> flat_index(buf, k, o)
            < flat(buf).len(),
        o < ring_texts(buf)[k].len() ==> flat_index(buf, k, o) < flat(buf).len(),
        o == ring_texts(buf)[k].len() && k + 1 == ring_ids(buf).len() ==> flat_index(buf, k, o)
            == flat(buf).len(),
{
    let ls = ring_texts(buf);
    lemma_line_start_nonneg(ls, k);
    lemma_line_end_bound(ls, k);
    if o < ls[k].len() {
        lemma_joined_byte(ls, k, o);
    }
    if o == ls[k].len() && k + 1 < ls.len() {
        lemma_joined_newline(ls, k);
    }
}

/// Whether the buffer's searches treat the pattern as a regular expression.
pub fn is_regex(buf: &Buffer) -> (r: bool)
    ensures
        r == (buf.mode.0 & 0x40 != 0),
{
    buf.mode.intersects(Mode(0x40))
}

fn lower(b: u8) -> (r: u8)
    ensures
        r == ascii_lower(b),
{
    if 65 <= b && b <= 90 {
        b + 32
    } else {
        b
    }
}

/// Compares two bytes, ignoring ASCII case unless `exact`.
pub fn eq(a: u8, b: u8, exact: bool) -> (r: bool)
    ensures
        r == byte_eq(a, b, exact),
{
    if exact {
        a == b
    } else {
        lower(a) == lower(b)
    }
}

/// Whether (`line`, `offset`) is the very end of the buffer: the end of the last line.
pub fn is_boundary_forward(buf: &Buffer, line: LineId, offset: usize) -> (r: bool)
    requires
        buf.wf(),
        exists|k: int| ring_at(buf, k, line, offset),
    ensures
        forall|k: int|
            ring_at(buf, k, line, offset) ==> r == (offset == ring_texts(buf)[k].len() && k + 1
                == ring_ids(buf).len()),
{
    let len = match buf.line_len(line) {
        Some(n) => n,
        None => 0,
    };
    let next = buf.next_line(line);
    let r = offset >= len && next.is_none();
    proof {
        assert forall|k: int| ring_at(buf, k, line, offset) implies r == (offset == ring_texts(
            buf,
        )[k].len() && k + 1 == ring_ids(buf).len()) by {
            lemma_ring_index(buf, k);
            if k > 0 {
                assert(buf.ids()[k - 1] == line.0);
                assert(0 < buf.ids()[k - 1] < buf.lines@.len());
                assert(len == ring_texts(buf)[k].len());
                assert(next is None <==> k + 1 == ring_ids(buf).len());
            } else {
                assert(len == ring_texts(buf)[k].len());
                assert(next is None <==> k + 1 == ring_ids(buf).len());
            }
        }
    }
    r
}

/// Whether (`line`, `offset`) is the start of the first text line, before which a
/// backward move cannot go (for the header line: whether the buffer has no text lines).
pub fn is_boundary_backward(buf: &Buffer, line: LineId, offset: usize) -> (r: bool)
    requires
        buf.wf(),
        exists|k: int| ring_at(buf, k, line, offset),
    ensures
        forall|k: int|
            ring_at(buf, k, line, offset) ==> r == (offset == 0 && (k == 1 || (k == 0
                && buf.ids().len() == 0))),
{
    let r = offset == 0 && buf.prev_line(line).is_none();
    proof {
        assert forall|k: int| ring_at(buf, k, line, offset) implies r == (offset == 0 && (k == 1
            || (k == 0 && buf.ids().len() == 0))) by {
            lemma_ring_index(buf, k);
            if k > 0 {
                assert(buf.ids()[k - 1] == line.0);
            }
        }
    }
    r
}

/// Moves one byte forward, onto the next line after the end of a line; fails, changing
/// nothing, at the end of the buffer.
pub fn advance_forward(buf: &Buffer, line: &mut LineId, offset: &mut usize) -> (r: Option<()>)
    requires
        buf.wf(),
        exists|k: int| ring_at(buf, k, *old(line), *old(offset)),
    ensures
        forall|k: int|
            ring_at(buf, k, *old(line), *old(offset)) ==> {
                let len = ring_texts(buf)[k].len();
                &&& *old(offset) < len ==> r is Some && *final(line) == *old(line)
                    && *final(offset) == *old(offset) + 1
                &&& *old(offset) == len && k + 1 < ring_ids(buf).len() ==> r is Some
                    && *final(line) == LineId(ring_ids(buf)[k + 1]) && *final(offset) == 0
                &&& *old(offset) == len && k + 1 == ring_ids(buf).len() ==> r is None
                    && *final(line) == *old(line) && *final(offset) == *old(offset)
            },
{
    let line_len = match buf.line_len(*line) {
        Some(n) => n,
        None => return None,
    };
    if *offset >= line_len {
        let next = match buf.next_line(*line) {
            Some(n) => n,
            None => return None,
        };
        *line = next;
        *offset = 0;
    } else {
        *offset = *offset + 1;
    }
    proof {
        assert forall|k: int| ring_at(buf, k, *old(line), *old(offset)) implies {
            let len = ring_texts(buf)[k].len();
            &&& *old(offset) < len ==> *line == *old(line) && *offset == *old(
                offset,
            ) + 1
            &&& *old(offset) == len && k + 1 < ring_ids(buf).len() ==> *line == LineId(
                ring_ids(buf)[k + 1],
            ) && *offset == 0
        } by {
            lemma_ring_index(buf, k);
            if k + 1 < ring_ids(buf).len() {
                lemma_ring_index(buf, k + 1);
            }
            if k >= 1 {
                lemma_ring_index(buf, k - 1);
            }
            lemma_ring_index(buf, ring_ids(buf).len() - 1);
            if k > 0 {
                assert(buf.ids()[k - 1] == old(line).0);
            }
        }
    }
    Some(())
}

/// Moves one byte backward, onto the end of the previous line from the start of a line;
/// fails, changing nothing, at the start of the first text line.
pub fn advance_backward(buf: &Buffer, line: &mut LineId, offset: &mut usize) -> (r: Option<()>)
    requires
        buf.wf(),
        exists|k: int| ring_at(buf, k, *old(line), *old(offset)),
    ensures
        forall|k: int|
            ring_at(buf, k, *old(line), *old(offset)) ==> {
                &&& *old(offset) > 0 ==> r is Some && *final(line) == *old(line) && *final(offset)
                    == *old(offset) - 1
                &&& *old(offset) == 0 && k >= 2 ==> r is Some && *final(line) == LineId(
                    ring_ids(buf)[k - 1],
                ) && *final(offset) == ring_texts(buf)[k - 1].len()
                &&& *old(offset) == 0 && (k == 1 || (k == 0 && buf.ids().len() == 0)) ==> r is None
                    && *final(line) == *old(line) && *final(offset) == *old(offset)
                &&& *old(offset) == 0 && k == 0 && buf.ids().len() > 0 ==> r is Some
                    && *final(line) == LineId(ring_ids(buf)[ring_ids(buf).len() - 1])
                    && *final(offset) == ring_texts(buf)[ring_ids(buf).len() - 1].len()
            },
{
    if *offset == 0 {
        let prev = match buf.prev_line(*line) {
            Some(p) => p,
            None => return None,
        };
        let len = match buf.line_len(prev) {
            Some(n) => n,
            None => return None,
        };
        *line = prev;
        *offset = len;
    } else {
        *offset = *offset - 1;
    }
    proof {
        assert forall|k: int| ring_at(buf, k, *old(line), *old(offset)) implies {
            &&& *old(offset) == 0 && k >= 2 ==> *line == LineId(ring_ids(buf)[k - 1])
                && *offset == ring_texts(buf)[k - 1].len()
            &&& *old(offset) == 0 && k == 0 && buf.ids().len() > 0 ==> *line == LineId(
                ring_ids(buf)[ring_ids(buf).len() - 1],
            ) && *offset == ring_texts(buf)[ring_ids(buf).len() - 1].len()
        } by {
            lemma_ring_index(buf, k);
            if k + 1 < ring_ids(buf).len() {
                lemma_ring_index(buf, k + 1);
            }
            if k >= 1 {
                lemma_ring_index(buf, k - 1);
            }
            lemma_ring_index(buf, ring_ids(buf).len() - 1);
            if k > 0 {
                assert(buf.ids()[k - 1] == old(line).0);
            }
        }
    }
    Some(())
}

/// Reads the byte at (`line`, `offset`) and moves past it; the end of a line reads as a
/// newline.  Fails, changing nothing, at the end of the buffer.
pub fn advance_byte(buf: &Buffer, line: &mut LineId, offset: &mut usize) -> (r: Option<u8>)
    requires
        buf.wf(),
        exists|k: int| ring_at(buf, k, *old(line), *old(offset)),
    ensures
        forall|k: int|
            ring_at(buf, k, *old(line), *old(offset)) ==> {
                let len = ring_texts(buf)[k].len();
                &&& *old(offset) < len ==> r == Some(ring_texts(buf)[k][*old(offset) as int])
                    && *final(line) == *old(line) && *final(offset) == *old(offset) + 1
                &&& *old(offset) == len && k + 1 < ring_ids(buf).len() ==> r == Some(10u8)
                    && *final(line) == LineId(ring_ids(buf)[k + 1]) && *final(offset) == 0
                &&& *old(offset) == len && k + 1 == ring_ids(buf).len() ==> r is None
                    && *final(line) == *old(line) && *final(offset) == *old(offset)
            },
{
    let line_len = match buf.line_len(*line) {
        Some(n) => n,
        None => return None,
    };
    if *offset >= line_len {
        let next = match buf.next_line(*line) {
            Some(n) => n,
            None => return None,
        };
        *line = next;
        *offset = 0;
        proof {
            assert forall|k: int| ring_at(buf, k, *old(line), *old(offset)) implies (*old(offset)
                == ring_texts(buf)[k].len() && k + 1 < ring_ids(buf).len() ==> *line
                == LineId(ring_ids(buf)[k + 1])) by {
                if k > 0 {
                    assert(buf.ids()[k - 1] == old(line).0);
                }
            }
        }
        Some(10)
    } else {
        let b = buf.lines[line.0].text[*offset];
        *offset = *offset + 1;
        Some(b)
    }
}

/// Whether `pattern` occurs at (`line`, `offset`), newlines included; on success, the
/// position just past the occurrence.
pub fn matches_at(buf: &Buffer, pattern: &[u8], line: LineId, offset: usize) -> (r: Option<
    (LineId, usize),
>)
    requires
        buf.wf(),
        exists|k: int| ring_at(buf, k, line, offset),
    ensures
        forall|k: int|
            ring_at(buf, k, line, offset) ==> {
                let x = flat_index(buf, k, offset as int);
                match r {
                    Some((l, o)) => matches_at_index(flat(buf), x, pattern@, exact_mode(buf))
                        && at_flat(buf, l, o, x + pattern@.len()),
                    None => !matches_at_index(flat(buf), x, pattern@, exact_mode(buf)),
                }
            },
{
    let ghost k0 = choose|k: int| ring_at(buf, k, line, offset);
    let ghost x0 = flat_index(buf, k0, offset as int);
    let ghost text = flat(buf);
    let exact = buf.mode.intersects(Mode(0x08));
    let mut l = line;
    let mut o = offset;
    let mut i: usize = 0;
    let ghost mut k = k0;
    proof {
        lemma_ring_flat(buf, k0, offset as int);
    }
    while i < pattern.len()
        invariant
            buf.wf(),
            exact == exact_mode(buf),
            text == flat(buf),
            i <= pattern@.len(),
            ring_at(buf, k, l, o),
            ring_at(buf, k0, line, offset),
            x0 == flat_index(buf, k0, offset as int),
            flat_index(buf, k, o as int) == x0 + i,
            x0 >= 0,
            forall|j: int| 0 <= j < i ==> byte_eq(#[trigger] text[x0 + j], pattern@[j], exact),
        decreases pattern@.len() - i,
    {
        proof {
            lemma_ring_flat(buf, k, o as int);
        }
        let ghost k_before = k;
        let ghost o_before = o;
        let b = advance_byte(buf, &mut l, &mut o);
        match b {
            None => {
                proof {
                    assert(flat_index(buf, k, o as int) == text.len());
                    lemma_same_position(buf, k0, line, offset);
                }
                return None;
            },
            Some(b) => {
                if !eq(b, pattern[i], exact) {
                    proof {
                        assert(text[x0 + i] == b);
                        lemma_same_position(buf, k0, line, offset);
                    }
                    return None;
                }
                proof {
                    assert(text[x0 + i] == b);
                    if o_before < ring_texts(buf)[k_before].len() {
                    } else {
                        k = k_before + 1;
                        lemma_ring_flat(buf, k, 0);
                    }
                }
            },
        }
        i = i + 1;
    }
    proof {
        lemma_ring_flat(buf, k, o as int);
        lemma_same_position(buf, k0, line, offset);
        assert(at_flat(buf, l, o, x0 + pattern@.len()));
    }
    Some((l, o))
}

/// Any two ring indices naming the same position give the same flat index.
pub proof fn lemma_same_position(buf: &Buffer, k0: int, line: LineId, offset: usize)
    requires
        buf.wf(),
        ring_at(buf, k0, line, offset),
    ensures
        forall|k: int|
            ring_at(buf, k, line, offset) ==> k == k0 && flat_index(buf, k, offset as int)
                == flat_index(buf, k0, offset as int),
{
    assert forall|k: int| ring_at(buf, k, line, offset) implies k == k0 by {
        lemma_ring_unique(buf, k, k0);
    }
}

/// `find_forward` from a position of the buffer.
fn find_forward_from(buf: &Buffer, pattern: &[u8], line: LineId, offset: usize) -> (r: Option<
    (LineId, usize),
>)
    requires
        buf.wf(),
        exists|k: int| ring_at(buf, k, line, offset),
    ensures
        forall|k: int|
            ring_at(buf, k, line, offset) ==> forward_answer(
                buf,
                pattern@,
                flat_index(buf, k, offset as int),
                r,
            ),
{
    if pattern.len() == 0 {
        return None;
    }
    let ghost k0 = choose|k: int| ring_at(buf, k, line, offset);
    let ghost p = flat_index(buf, k0, offset as int);
    let ghost text = flat(buf);
    let ghost exact = exact_mode(buf);
    proof {
        lemma_same_position(buf, k0, line, offset);
        lemma_ring_flat(buf, k0, offset as int);
    }
    let mut l = line;
    let mut o = offset;
    let ghost mut k = k0;
    loop
        invariant
            buf.wf(),
            pattern@.len() > 0,
            text == flat(buf),
            exact == exact_mode(buf),
            ring_at(buf, k, l, o),
            ring_at(buf, k0, line, offset),
            p == flat_index(buf, k0, offset as int),
            forall|kk: int|
                ring_at(buf, kk, line, offset) ==> kk == k0,
            p <= flat_index(buf, k, o as int) <= text.len(),
            no_match_in(text, p, flat_index(buf, k, o as int), pattern@, exact),
        decreases text.len() - flat_index(buf, k, o as int),
    {
        proof {
            lemma_ring_flat(buf, k, o as int);
        }
        if is_boundary_forward(buf, l, o) {
            proof {
                assert forall|q: int| p <= q < text.len() implies !#[trigger] matches_at_index(
                    text,
                    q,
                    pattern@,
                    exact,
                ) by {
                    assert(q < flat_index(buf, k, o as int));
                }
            }
            return None;
        }
        let m = matches_at(buf, pattern, l, o);
        if m.is_some() {
            proof {
                let x = flat_index(buf, k, o as int);
                let (el, eo) = m.unwrap();
                assert(matches_at_index(text, x, pattern@, exact));
                assert(at_flat(buf, el, eo, x + pattern@.len()));
                assert(forward_answer(buf, pattern@, p, m));
            }
            return m;
        }
        let ghost x_before = flat_index(buf, k, o as int);
        let ghost k_before = k;
        let ghost o_before = o;
        let step = advance_forward(buf, &mut l, &mut o);
        if step.is_none() {
            return None;
        }
        proof {
            if o_before < ring_texts(buf)[k_before].len() {
            } else {
                k = k_before + 1;
                lemma_ring_flat(buf, k, 0);
            }
            assert forall|q: int| p <= q < flat_index(buf, k, o as int) implies !#[trigger] matches_at_index(
                text,
                q,
                pattern@,
                exact,
            ) by {
                if q < x_before {
                }
            }
        }
    }
}

/// `find_backward` from a position of the buffer.
fn find_backward_from(buf: &Buffer, pattern: &[u8], line: LineId, offset: usize) -> (r: Option<
    (LineId, usize),
>)
    requires
        buf.wf(),
        exists|k: int| ring_at(buf, k, line, offset) && (k >= 1 || buf.ids().len() == 0),
    ensures
        forall|k: int|
            ring_at(buf, k, line, offset) ==> backward_answer(
                buf,
                pattern@,
                if k == 0 {
                    0
                } else {
                    flat_index(buf, 1, 0)
                },
                flat_index(buf, k, offset as int),
                r,
            ),
{
    if pattern.len() == 0 {
        return None;
    }
    let ghost k0 = choose|k: int| ring_at(buf, k, line, offset) && (k >= 1 || buf.ids().len() == 0);
    let ghost p = flat_index(buf, k0, offset as int);
    let ghost lo = if k0 == 0 {
        0
    } else {
        flat_index(buf, 1, 0)
    };
    let ghost text = flat(buf);
    let ghost exact = exact_mode(buf);
    proof {
        lemma_same_position(buf, k0, line, offset);
        lemma_ring_flat(buf, k0, offset as int);
        lemma_line_start_nonneg(ring_texts(buf), k0);
        if k0 > 1 {
            crate::flat::lemma_line_start_mono(ring_texts(buf), 1, k0);
        }
    }
    let mut l = line;
    let mut o = offset;
    let ghost mut k = k0;
    loop
        invariant
            buf.wf(),
            pattern@.len() > 0,
            text == flat(buf),
            exact == exact_mode(buf),
            ring_at(buf, k, l, o),
            k >= 1 || buf.ids().len() == 0,
            k0 == 0 ==> k == 0,
            ring_at(buf, k0, line, offset),
            p == flat_index(buf, k0, offset as int),
            lo == (if k0 == 0 {
                0
            } else {
                flat_index(buf, 1, 0)
            }),
            forall|kk: int| ring_at(buf, kk, line, offset) ==> kk == k0,
            lo <= flat_index(buf, k, o as int) <= p,
            no_match_in(text, flat_index(buf, k, o as int), p, pattern@, exact),
        decreases flat_index(buf, k, o as int),
    {
        proof {
            lemma_ring_flat(buf, k, o as int);
        }
        if is_boundary_backward(buf, l, o) {
            return None;
        }
        let ghost x_before = flat_index(buf, k, o as int);
        let ghost k_before = k;
        let ghost o_before = o;
        let step = advance_backward(buf, &mut l, &mut o);
        if step.is_none() {
            return None;
        }
        proof {
            if o_before > 0 {
            } else {
                k = k_before - 1;
                lemma_ring_flat(buf, k, ring_texts(buf)[k].len() as int);
            }
            lemma_ring_flat(buf, k, o as int);
            if k >= 1 {
                lemma_line_start_nonneg(ring_texts(buf), k);
                if k > 1 {
                    crate::flat::lemma_line_start_mono(ring_texts(buf), 1, k);
                }
            }
            assert(flat_index(buf, k, o as int) == x_before - 1);
            assert(ring_at(buf, k, l, o));
        }
        let m = matches_at(buf, pattern, l, o);
        if m.is_some() {
            proof {
                let x = flat_index(buf, k, o as int);
                assert(matches_at_index(text, x, pattern@, exact));
                assert(at_flat(buf, l, o, x));
                assert(backward_answer(buf, pattern@, lo, p, Some((l, o))));
            }
            return Some((l, o));
        }
    }
}

/// The buffer's text lines, each followed by a newline.
pub open spec fn buffer_bytes(buf: &Buffer) -> Seq<u8> {
    nl_joined(buf.texts())
}

/// The position that byte `pos` of `buffer_bytes(buf)` belongs to: the text line whose
/// bytes or closing newline cover it, and the offset in that line.
pub open spec fn position_of_byte(buf: &Buffer, pos: int) -> Option<(LineId, usize)> {
    let ls = buf.texts();
    if exists|k: int|
        0 <= k < ls.len() && #[trigger] line_start(ls, k) <= pos <= line_start(ls, k) + ls[k].len() {
        let k = choose|k: int|
            0 <= k < ls.len() && #[trigger] line_start(ls, k) <= pos <= line_start(ls, k) + ls[k].len();
        Some((LineId(buf.ids()[k]), (pos - line_start(ls, k)) as usize))
    } else {
        None
    }
}

/// Where (`line`, `offset`) lies in `buffer_bytes(buf)`; a line outside the text counts
/// from the end.
pub open spec fn byte_of_position(buf: &Buffer, line: LineId, offset: int) -> int {
    let ls = buf.texts();
    if buf.has_line(line.0) {
        line_start(ls, buf.ids().index_of(line.0)) + offset
    } else {
        line_start(ls, ls.len() as int) + offset
    }
}

/// `line` is the `k`-th line of the ring (the header first).
pub open spec fn ring_line(buf: &Buffer, k: int, line: LineId) -> bool {
    0 <= k < ring_ids(buf).len() && ring_ids(buf)[k] == line.0
}

/// `offset`, or the end of the `k`-th line of the ring when it lies past it.
pub open spec fn clamped(buf: &Buffer, k: int, offset: usize) -> usize {
    if offset > ring_texts(buf)[k].len() {
        ring_texts(buf)[k].len() as usize
    } else {
        offset
    }
}

/// Where `line` stands in the ring, when it is the header or a text line, with the
/// length of its text.
fn ring_place(buf: &Buffer, line: LineId) -> (r: Option<usize>)
    requires
        buf.wf(),
    ensures
        match r {
            Some(len) => exists|k: int| #[trigger] ring_line(buf, k, line) && len == ring_texts(buf)[k].len(),
            None => forall|k: int| !#[trigger] ring_line(buf, k, line),
        },
{
    proof {
        lemma_ring_index(buf, 0);
        assert forall|k: int| ring_line(buf, k, line) implies line.0 == 0 || buf.has_line(line.0) by {
            lemma_ring_index(buf, k);
            if k > 0 {
                buf.lemma_pos_of(k - 1);
            }
        }
    }
    if line.0 != 0 && !buf.is_text_line(line) {
        return None;
    }
    let ghost k: int = if line.0 == 0 {
        0
    } else {
        buf.pos_of(line.0) + 1
    };
    proof {
        if line.0 != 0 {
            let p = buf.pos_of(line.0);
            assert(buf.ids()[p] == line.0);
            buf.lemma_pos_of(p);
        }
        lemma_ring_index(buf, k);
        assert(ring_line(buf, k, line));
    }
    match buf.line_len(line) {
        Some(n) => Some(n),
        None => {
            proof {
                assert(false);
            }
            None
        },
    }
}

/// Searches forward from (`line`, `offset`) for the first occurrence of `pattern`
/// that starts there or later; answers the position just past it.  An offset past the end
/// of its line counts as the end; a line that is neither the header nor a text line gives
/// no answer.
pub fn find_forward(buf: &Buffer, pattern: &[u8], line: LineId, offset: usize) -> (r: Option<
    (LineId, usize),
>)
    requires
        buf.wf(),
    ensures
        (forall|k: int| !#[trigger] ring_line(buf, k, line)) ==> r is None,
        forall|k: int|
            #[trigger] ring_line(buf, k, line) ==> forward_answer(
                buf,
                pattern@,
                flat_index(buf, k, clamped(buf, k, offset) as int),
                r,
            ),
{
    let len = match ring_place(buf, line) {
        Some(n) => n,
        None => return None,
    };
    let o = if offset > len {
        len
    } else {
        offset
    };
    proof {
        assert forall|k: int| #[trigger] ring_line(buf, k, line) implies ring_at(buf, k, line, o) && o
            == clamped(buf, k, offset) by {
            let k0 = choose|k: int| #[trigger] ring_line(buf, k, line) && len == ring_texts(buf)[k].len();
            lemma_ring_index(buf, k);
            lemma_ring_index(buf, k0);
            lemma_ring_unique(buf, k, k0);
        }
        let k0 = choose|k: int| #[trigger] ring_line(buf, k, line) && len == ring_texts(buf)[k].len();
        assert(ring_at(buf, k0, line, o));
    }
    find_forward_from(buf, pattern, line, o)
}

/// Searches backward from (`line`, `offset`) for the last occurrence of `pattern` that
/// starts before it, without going above the first text line; answers its start.  From
/// past the end of a line each place down to the end reads as the end of the line, so a
/// match at the end answers the place just before `offset`; a line that is neither the
/// header nor a text line gives no answer.
pub fn find_backward(buf: &Buffer, pattern: &[u8], line: LineId, offset: usize) -> (r: Option<
    (LineId, usize),
>)
    requires
        buf.wf(),
        forall|k: int| #[trigger] ring_line(buf, k, line) ==> k >= 1 || buf.ids().len() == 0,
    ensures
        (forall|k: int| !#[trigger] ring_line(buf, k, line)) ==> r is None,
        forall|k: int|
            #[trigger] ring_line(buf, k, line) ==> {
                let len = ring_texts(buf)[k].len();
                if pattern@.len() > 0 && offset > len && matches_at_index(
                    flat(buf),
                    flat_index(buf, k, len as int),
                    pattern@,
                    exact_mode(buf),
                ) {
                    r == Some((line, (offset - 1) as usize))
                } else {
                    backward_answer(
                        buf,
                        pattern@,
                        if k == 0 {
                            0
                        } else {
                            flat_index(buf, 1, 0)
                        },
                        flat_index(buf, k, clamped(buf, k, offset) as int),
                        r,
                    )
                }
            },
{
    let len = match ring_place(buf, line) {
        Some(n) => n,
        None => return None,
    };
    let ghost k0 = choose|k: int| #[trigger] ring_line(buf, k, line) && len == ring_texts(buf)[k].len();
    proof {
        assert forall|k: int| #[trigger] ring_line(buf, k, line) implies k == k0 by {
            lemma_ring_index(buf, k);
            lemma_ring_index(buf, k0);
            lemma_ring_unique(buf, k, k0);
        }
        lemma_ring_index(buf, k0);
        assert(ring_at(buf, k0, line, len));
    }
    if pattern.len() > 0 && offset > len {
        if matches_at(buf, pattern, line, len).is_some() {
            return Some((line, offset - 1));
        }
    }
    let o = if offset > len {
        len
    } else {
        offset
    };
    proof {
        assert(ring_at(buf, k0, line, o));
    }
    find_backward_from(buf, pattern, line, o)
}

/// The text lines of the buffer, each followed by a newline, as one byte vector.
pub fn buffer_text(buf: &Buffer) -> (text: Vec<u8>)
    requires
        buf.wf(),
    ensures
        text@ == buffer_bytes(buf),
{
    let ghost ids = buf.ids();
    let ghost ls = buf.texts();
    let mut text: Vec<u8> = Vec::new();
    let mut cur = buf.lines[0].next;
    let ghost mut k: int = 0;
    while cur.0 != 0
        invariant
            buf.wf(),
            ids == buf.ids(),
            ls == buf.texts(),
            0 <= k <= ids.len(),
            cur.0 == (if k < ids.len() {
                ids[k]
            } else {
                0
            }),
            text@ == nl_joined(ls.take(k)),
        decreases ids.len() - k,
    {
        let line = &buf.lines[cur.0];
        let mut j: usize = 0;
        let ghost before = text@;
        while j < line.text.len()
            invariant
                j <= line.text@.len(),
                text@ == before + line.text@.take(j as int),
            decreases line.text@.len() - j,
        {
            text.push(line.text[j]);
            j = j + 1;
            assert(text@ =~= before + line.text@.take(j as int));
        }
        text.push(10);
        proof {
            assert(line.text@.take(line.text@.len() as int) =~= line.text@);
            assert(ls[k] == line.text@);
            assert(ls.take(k + 1).drop_last() =~= ls.take(k));
            assert(ls.take(k + 1).last() == ls[k]);
            assert(text@ =~= nl_joined(ls.take(k + 1)));
            assert(buf.lines@[ids[k] as int].next.0 == crate::buffer::succ_of(ids, k));
        }
        cur = line.next;
        proof {
            k = k + 1;
        }
    }
    assert(ls.take(ids.len() as int) =~= ls);
    text
}

/// The position that byte `byte_pos` of `buffer_text(buf)` belongs to.
pub fn line_offset_for(buf: &Buffer, byte_pos: usize) -> (r: Option<(LineId, usize)>)
    requires
        buf.wf(),
        buffer_bytes(buf).len() <= usize::MAX,
    ensures
        r == position_of_byte(buf, byte_pos as int),
{
    let ghost ids = buf.ids();
    let ghost ls = buf.texts();
    proof {
        lemma_nl_joined_len(ls);
    }
    let mut pos: usize = 0;
    let mut cur = buf.lines[0].next;
    let ghost mut k: int = 0;
    while cur.0 != 0
        invariant
            buf.wf(),
            ids == buf.ids(),
            ls == buf.texts(),
            ls.len() == ids.len(),
            0 <= k <= ids.len(),
            cur.0 == (if k < ids.len() {
                ids[k]
            } else {
                0
            }),
            pos == line_start(ls, k),
            line_start(ls, ls.len() as int) <= usize::MAX,
            forall|j: int| 0 <= j < k ==> byte_pos > #[trigger] line_start(ls, j) + ls[j].len(),
        decreases ids.len() - k,
    {
        proof {
            crate::flat::lemma_line_start_mono(ls, k, ls.len() as int);
        }
        let len = buf.lines[cur.0].text.len();
        let line_end = pos + len;
        if byte_pos <= line_end {
            proof {
                assert(line_start(ls, k) <= byte_pos) by {
                    if k > 0 {
                        assert(byte_pos > line_start(ls, k - 1) + ls[k - 1].len());
                    }
                }
                assert forall|k2: int|
                    0 <= k2 < ls.len() && #[trigger] line_start(ls, k2) <= byte_pos <= line_start(
                        ls,
                        k2,
                    ) + ls[k2].len() implies k2 == k by {
                    if k2 < k {
                    } else if k2 > k {
                        crate::flat::lemma_line_start_mono(ls, k, k2);
                    }
                }
            }
            return Some((cur, byte_pos - pos));
        }
        assert(buf.lines@[ids[k] as int].next.0 == crate::buffer::succ_of(ids, k));
        pos = line_end + 1;
        cur = buf.lines[cur.0].next;
        proof {
            k = k + 1;
        }
    }
    None
}

/// Where (`line`, `offset`) lies in `buffer_text(buf)`.
pub fn byte_pos_of(buf: &Buffer, line: LineId, offset: usize) -> (r: Option<usize>)
    requires
        buf.wf(),
        buffer_bytes(buf).len() + offset <= usize::MAX,
    ensures
        r == Some(byte_of_position(buf, line, offset as int) as usize),
        offset <= byte_of_position(buf, line, offset as int) <= buffer_bytes(buf).len() + offset,
{
    let ghost ids = buf.ids();
    let ghost ls = buf.texts();
    proof {
        lemma_nl_joined_len(ls);
    }
    let mut pos: usize = 0;
    let mut cur = buf.lines[0].next;
    let ghost mut k: int = 0;
    while cur.0 != 0 && cur.0 != line.0
        invariant
            buf.wf(),
            ids == buf.ids(),
            ls == buf.texts(),
            ls.len() == ids.len(),
            0 <= k <= ids.len(),
            cur.0 == (if k < ids.len() {
                ids[k]
            } else {
                0
            }),
            pos == line_start(ls, k),
            line_start(ls, ls.len() as int) + offset <= usize::MAX,
            forall|j: int| 0 <= j < k ==> ids[j] != line.0,
        decreases ids.len() - k,
    {
        proof {
            crate::flat::lemma_line_start_mono(ls, k, ls.len() as int);
        }
        let len = buf.lines[cur.0].text.len();
        assert(buf.lines@[ids[k] as int].next.0 == crate::buffer::succ_of(ids, k));
        pos = pos + len + 1;
        cur = buf.lines[cur.0].next;
        proof {
            k = k + 1;
        }
    }
    proof {
        if buf.has_line(line.0) {
            let i = ids.index_of(line.0);
            assert(ids[i] == line.0);
            if k < ids.len() {
                assert(ids[k] == line.0);
                assert(ids.no_duplicates());
                assert(i == k);
            } else {
                assert(ids[i] != line.0);
            }
        } else {
            if k < ids.len() {
                assert(ids.contains(ids[k]));
            }
        }
        if k < ls.len() {
            crate::flat::lemma_line_start_mono(ls, k, ls.len() as int);
        }
        crate::flat::lemma_line_start_nonneg(ls, k);
    }
    Some(pos + offset)
}

/// Where a regular expression first matches in `haystack` at or after byte `start`:
/// `pattern` is compiled with `case_insensitive`; the answer is the match's first byte.
/// `None` when there is no match, or the pattern or haystack is not UTF-8, or the
/// pattern does not compile.
pub uninterp spec fn regex_search_at(
    pattern: Seq<u8>,
    case_insensitive: bool,
    haystack: Seq<u8>,
    start: nat,
) -> Option<nat>;

/// Where the last of the successive non-overlapping matches of a regular expression
/// in `haystack` starts, with the same conventions as `regex_search_at`.
pub uninterp spec fn regex_last_start(pattern: Seq<u8>, case_insensitive: bool, haystack: Seq<u8>) -> Option<nat>;

/// Compiles `pattern` with `regex::RegexBuilder` (case-insensitively when asked) and
/// runs `Regex::find_at` on `haystack` from `start`.  The contract claims that the answer
/// is a function of these arguments, and, as the crate documents, that a match found by
/// `find_at` starts at or after `start` and inside the haystack.
#[verifier::external_body]
fn regex_find_at(pattern: &[u8], case_insensitive: bool, haystack: &[u8], start: usize) -> (r: Option<usize>)
    requires
        start <= haystack@.len(),
    ensures
        r is None <==> regex_search_at(pattern@, case_insensitive, haystack@, start as nat) is None,
        r matches Some(p) ==> regex_search_at(pattern@, case_insensitive, haystack@, start as nat)
            == Some(p as nat) && start <= p <= haystack@.len(),
{
    let re_str = std::str::from_utf8(pattern).ok()?;
    let hay = std::str::from_utf8(haystack).ok()?;
    let re = regex::RegexBuilder::new(re_str).case_insensitive(case_insensitive).build().ok()?;
    re.find_at(hay, start).map(|m| m.start())
}

/// Compiles `pattern` as `regex_find_at` does and takes the last match of
/// `Regex::find_iter` over `haystack`.  The contract claims that the answer is a function
/// of the arguments and lies inside the haystack.
#[verifier::external_body]
fn regex_find_last(pattern: &[u8], case_insensitive: bool, haystack: &[u8]) -> (r: Option<usize>)
    ensures
        r is None <==> regex_last_start(pattern@, case_insensitive, haystack@) is None,
        r matches Some(p) ==> regex_last_start(pattern@, case_insensitive, haystack@) == Some(
            p as nat,
        ) && p <= haystack@.len(),
{
    let re_str = std::str::from_utf8(pattern).ok()?;
    let hay = std::str::from_utf8(haystack).ok()?;
    let re = regex::RegexBuilder::new(re_str).case_insensitive(case_insensitive).build().ok()?;
    re.find_iter(hay).last().map(|m| m.start())
}

/// What a forward regular-expression search from (`line`, `offset`) answers.
pub open spec fn regex_forward_answer(buf: &Buffer, pat: Seq<u8>, line: LineId, offset: usize) -> Option<
    (LineId, usize),
> {
    let text = buffer_bytes(buf);
    let s = byte_of_position(buf, line, offset as int);
    if text.len() + offset > usize::MAX || s > text.len() {
        None
    } else {
        match regex_search_at(pat, !exact_mode(buf), text, s as nat) {
            Some(m) => position_of_byte(buf, m as int),
            None => None,
        }
    }
}

/// What a backward regular-expression search from (`line`, `offset`) answers.
pub open spec fn regex_backward_answer(buf: &Buffer, pat: Seq<u8>, line: LineId, offset: usize) -> Option<
    (LineId, usize),
> {
    let text = buffer_bytes(buf);
    let s = byte_of_position(buf, line, offset as int);
    if text.len() + offset > usize::MAX || s > text.len() {
        None
    } else {
        match regex_last_start(pat, !exact_mode(buf), text.take(s)) {
            Some(m) => position_of_byte(buf, m as int),
            None => None,
        }
    }
}

/// Searches forward with `pattern` as a regular expression; answers the start of the
/// first match at or after (`line`, `offset`).
pub fn find_forward_regex(buf: &Buffer, pattern: &[u8], line: LineId, offset: usize) -> (r: Option<
    (LineId, usize),
>)
    requires
        buf.wf(),
    ensures
        r == regex_forward_answer(buf, pattern@, line, offset),
{
    let text = buffer_text(buf);
    if offset > usize::MAX - text.len() {
        return None;
    }
    let start = match byte_pos_of(buf, line, offset) {
        Some(p) => p,
        None => return None,
    };
    if start > text.len() {
        return None;
    }
    let exact = buf.mode.intersects(Mode(0x08));
    let m = match regex_find_at(pattern, !exact, text.as_slice(), start) {
        Some(m) => m,
        None => return None,
    };
    line_offset_for(buf, m)
}

/// Searches backward with `pattern` as a regular expression; answers the start of the
/// last match in the text before (`line`, `offset`).
pub fn find_backward_regex(buf: &Buffer, pattern: &[u8], line: LineId, offset: usize) -> (r: Option<
    (LineId, usize),
>)
    requires
        buf.wf(),
    ensures
        r == regex_backward_answer(buf, pattern@, line, offset),
{
    let mut text = buffer_text(buf);
    if offset > usize::MAX - text.len() {
        return None;
    }
    let end = match byte_pos_of(buf, line, offset) {
        Some(p) => p,
        None => return None,
    };
    if end > text.len() {
        return None;
    }
    let full_len = text.len();
    text.truncate(end);
    assert(text@ == buffer_bytes(buf).take(end as int));
    let exact = buf.mode.intersects(Mode(0x08));
    let m = match regex_find_last(pattern, !exact, text.as_slice()) {
        Some(m) => m,
        None => return None,
    };
    line_offset_for(buf, m)
}

} // verus!
