use crate::edit::Editor;
use crate::terminal::{key_code, key_code_of, Key};
use crate::types::{Error, KeyCode, Result, WindowFlags, META};
use crate::window::{Window, Windows};
use vstd::prelude::*;

verus! {

/// The code a key is looked up under when its own code has no binding: a meta key on a
/// lower-case ASCII letter folds to the upper-case letter; other keys keep their code.
pub open spec fn folded_code_of(key: Key) -> u32 {
    match key {
        Key::Meta(c) => if 'a' <= c && c <= 'z' {
            META | ((c as u32) - 32) as u32
        } else {
            key_code_of(key)
        },
        _ => key_code_of(key),
    }
}

/// The code `key` is looked up under when its own code has no binding.
pub fn folded_key_code(key: Key) -> (kc: KeyCode)
    ensures
        kc.0 == folded_code_of(key),
{
    match key {
        Key::Meta(c) => {
            if 'a' <= c && c <= 'z' {
                KeyCode(META | ((c as u32) - 32))
            } else {
                key_code(key)
            }
        },
        _ => key_code(key),
    }
}

/// What the main loop does after a command.
#[derive(Clone, Copy, PartialEq, Eq, Debug, Structural)]
pub enum LoopAction {
    /// Go on with the next key.
    Continue,
    /// Sound the bell, then go on.
    Beep,
    /// Leave the editor.
    Stop,
}

/// After a command that returned `r`: an aborted command sounds the bell, a failed read or
/// write ends the session, and so does a request to quit.
pub open spec fn after_command(r: Result<()>, quit: bool) -> LoopAction {
    match r {
        Err(Error::IoError) => LoopAction::Stop,
        _ => if quit {
            LoopAction::Stop
        } else {
            match r {
                Err(Error::Abort) => LoopAction::Beep,
                _ => LoopAction::Continue,
            }
        },
    }
}

/// What the main loop does after a command that returned `r`; see `after_command`.
pub fn loop_action(editor: &Editor, r: Result<()>) -> (a: LoopAction)
    ensures
        a == after_command(r, editor.quit_requested),
{
    match r {
        Err(Error::IoError) => LoopAction::Stop,
        _ => {
            if editor.quit_requested {
                LoopAction::Stop
            } else {
                match r {
                    Err(Error::Abort) => LoopAction::Beep,
                    _ => LoopAction::Continue,
                }
            }
        },
    }
}

/// The whole screen has to be drawn again: every window is marked for a full redraw of its
/// text and mode line, and the screen is asked to be cleared.
pub fn mark_screen_garbage(editor: &mut Editor)
    requires
        old(editor).wf(),
    ensures
        final(editor).wf(),
        final(editor).sgarbf_requested,
        final(editor).windows.seq().len() == old(editor).windows.seq().len(),
        forall|k: int|
            0 <= k < old(editor).windows.seq().len() ==> #[trigger] final(editor).windows.seq()[k] == (Window {
                flags: WindowFlags(old(editor).windows.seq()[k].flags.0 | WindowFlags::hard().0
                    | WindowFlags::mode_line().0),
                ..old(editor).windows.seq()[k]
            }),
        final(editor).windows.current_id() == old(editor).windows.current_id(),
        final(editor).windows.next_id_spec() == old(editor).windows.next_id_spec(),
        *final(editor) == (Editor { windows: final(editor).windows, sgarbf_requested: true, ..*old(editor) }),
{
    let flag = WindowFlags::hard().union(WindowFlags::mode_line());
    editor.windows.flag_all(flag);
    editor.sgarbf_requested = true;
    proof {
        assert(flag.0 == WindowFlags::hard().0 | WindowFlags::mode_line().0);
        assert forall|a: u32| (a | (WindowFlags::hard().0 | WindowFlags::mode_line().0)) == (a | WindowFlags::hard().0
            | WindowFlags::mode_line().0) by {
            let h = WindowFlags::hard().0;
            let m = WindowFlags::mode_line().0;
            assert((a | (h | m)) == (a | h | m)) by (bit_vector);
        }
    }
}

/// The rows of text of a screen of `nrows` rows (the last is the echo line), and the
/// rows each of `n` windows gets when they share them evenly (at least one).
pub open spec fn share(nrows: usize, n: nat) -> (nat, nat) {
    let total: nat = if nrows >= 1 {
        (nrows - 1) as nat
    } else {
        0
    };
    let per: nat = if total / n >= 1 {
        total / n
    } else {
        1
    };
    (total, per)
}

/// Window `i` of `n` laid out again on a screen of `nrows` rows: the windows share the
/// text rows evenly, top to bottom, one row of each going to its mode line; the last one
/// takes what is left.
pub open spec fn relaid(w: Window, i: nat, n: nat, nrows: usize) -> Window {
    let (total, per) = share(nrows, n);
    let row = i * per;
    Window {
        top_row: row as usize,
        n_rows: (if i + 1 == n {
            if total >= row + 1 {
                total - row - 1
            } else {
                0
            }
        } else {
            per - 1
        }) as usize,
        ..w
    }
}

proof fn lemma_rows_fit(i: nat, n: nat, total: nat)
    requires
        i <= n,
        n > 0,
        total / n >= 1,
    ensures
        i * (total / n) <= total,
{
    assert(i * (total / n) <= n * (total / n)) by (nonlinear_arith)
        requires
            i <= n,
    ;
    assert(n * (total / n) <= total) by (nonlinear_arith)
        requires
            n > 0,
    ;
}

/// Lays the windows out again for a screen of `nrows` rows; see `relaid`.
pub fn relayout(windows: &mut Windows, nrows: usize)
    requires
        old(windows).wf(),
    ensures
        final(windows).wf(),
        final(windows).seq().len() == old(windows).seq().len(),
        forall|k: int|
            0 <= k < old(windows).seq().len() ==> #[trigger] final(windows).seq()[k] == relaid(
                old(windows).seq()[k],
                k as nat,
                old(windows).seq().len(),
                nrows,
            ),
        final(windows).current_id() == old(windows).current_id(),
        final(windows).next_id_spec() == old(windows).next_id_spec(),
{
    let total: usize = if nrows >= 1 {
        nrows - 1
    } else {
        0
    };
    let count = windows.len();
    if count == 0 {
        return;
    }
    let per: usize = if total / count >= 1 {
        total / count
    } else {
        1
    };
    let ghost n = old(windows).seq().len();
    let mut row: usize = 0;
    let mut i: usize = 0;
    while i < count
        invariant
            windows.wf(),
            count == n,
            n > 0,
            i <= count,
            (total as nat, per as nat) == share(nrows, n),
            row == i * per,
            i * per <= total || per == 1,
            windows.seq().len() == n,
            windows.current_id() == old(windows).current_id(),
            windows.next_id_spec() == old(windows).next_id_spec(),
            forall|k: int|
                0 <= k < i ==> #[trigger] windows.seq()[k] == relaid(old(windows).seq()[k], k as nat, n, nrows),
            forall|k: int| i <= k < n ==> #[trigger] windows.seq()[k] == old(windows).seq()[k],
        decreases count - i,
    {
        let w = windows.as_slice()[i];
        let rows = if i + 1 == count {
            if total >= row + 1 {
                total - row - 1
            } else {
                0
            }
        } else {
            per - 1
        };
        windows.set_at(i, Window { top_row: row, n_rows: rows, ..w });
        proof {
            if (total as nat) / (n as nat) >= 1 {
                lemma_rows_fit((i + 1) as nat, n as nat, total as nat);
            }
            assert((i + 1) * per == i * per + per) by (nonlinear_arith);
        }
        row = row + per;
        i += 1;
    }
}

} // verus!

verus! {

/// Windows laid out again tile the screen: the rows of each window and its mode line end
/// where the next window begins.
pub proof fn lemma_relaid_tiles(w: Window, v: Window, i: nat, n: nat, nrows: usize)
    requires
        i + 1 < n,
        n <= usize::MAX,
    ensures
        relaid(w, i, n, nrows).top_row + relaid(w, i, n, nrows).n_rows + 1 == relaid(v, i + 1, n, nrows).top_row,
{
    let (total, per) = share(nrows, n);
    assert(per >= 1);
    assert((i + 1) * per == i * per + per) by (nonlinear_arith);
    if total / n >= 1 {
        lemma_rows_fit(i + 1, n, total);
        assert(total <= usize::MAX);
    } else {
        assert(per == 1);
        assert((i + 1) * per == i + 1);
    }
    assert(i * per <= (i + 1) * per) by (nonlinear_arith)
        requires
            per >= 1,
    ;
}

} // verus!
