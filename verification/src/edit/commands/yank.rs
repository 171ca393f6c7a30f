use crate::edit::commands::chars_edit::{insert_at_dot_marking, inserted_at_dot_marking};
use crate::edit::commands::newline::{newline_inserted, InsertNewline};
use crate::edit::{Command, Editor};
use crate::flat::joined;
use crate::types::{BufferFlags, Error, Result};
use vstd::prelude::*;

verus! {

/// The pieces of `kb` between its newlines: one more than there are newlines.
pub open spec fn pieces(kb: Seq<u8>) -> Seq<Seq<u8>>
    decreases kb.len(),
{
    if kb.len() == 0 {
        seq![Seq::empty()]
    } else {
        let rest = pieces(kb.drop_last());
        if kb.last() == 10u8 {
            rest.push(Seq::empty())
        } else {
            rest.update(rest.len() - 1, rest.last().push(kb.last()))
        }
    }
}

proof fn lemma_pieces_nonempty(kb: Seq<u8>)
    ensures
        pieces(kb).len() >= 1,
    decreases kb.len(),
{
    if kb.len() > 0 {
        lemma_pieces_nonempty(kb.drop_last());
    }
}

/// The pieces of a kill buffer hold no newline, and joined by newlines they give back the
/// kill buffer: a yank puts in exactly its bytes, its newlines as line breaks.
pub proof fn lemma_pieces_rejoin(kb: Seq<u8>)
    ensures
        joined(pieces(kb)) == kb,
        forall|k: int, i: int|
            0 <= k < pieces(kb).len() && 0 <= i < pieces(kb)[k].len() ==> #[trigger] pieces(kb)[k][i] != 10u8,
    decreases kb.len(),
{
    lemma_pieces_nonempty(kb);
    if kb.len() == 0 {
        assert(joined(seq![Seq::<u8>::empty()]) == Seq::<u8>::empty());
    } else {
        let init = kb.drop_last();
        lemma_pieces_rejoin(init);
        lemma_pieces_nonempty(init);
        let rest = pieces(init);
        if kb.last() == 10u8 {
            let ps = rest.push(Seq::<u8>::empty());
            assert(ps.drop_last() =~= rest);
            assert(joined(ps) == joined(rest) + seq![10u8] + Seq::<u8>::empty());
            assert(kb =~= init + seq![10u8] + Seq::<u8>::empty());
        } else {
            let ps = rest.update(rest.len() - 1, rest.last().push(kb.last()));
            if rest.len() == 1 {
                assert(joined(ps) == ps[0]);
                assert(joined(rest) == rest[0]);
                assert(kb =~= init.push(kb.last()));
            } else {
                assert(ps.drop_last() =~= rest.drop_last());
                assert(joined(ps) == joined(rest.drop_last()) + seq![10u8] + rest.last().push(kb.last()));
                assert(joined(rest) == joined(rest.drop_last()) + seq![10u8] + rest.last());
                assert(kb =~= init.push(kb.last()));
                assert(init == joined(rest.drop_last()) + seq![10u8] + rest.last());
                assert(kb =~= joined(rest.drop_last()) + seq![10u8] + rest.last().push(kb.last()));
            }
            assert forall|k: int, i: int| 0 <= k < ps.len() && 0 <= i < ps[k].len() implies #[trigger] ps[k][i] != 10u8 by {
                if k == rest.len() - 1 && i == rest.last().len() {
                } else {
                    assert(ps[k][i] == rest[k][i]);
                }
            }
        }
    }
}

/// The pieces of `kb` between its newlines; see `pieces`.
fn split_pieces(kb: &Vec<u8>) -> (r: Vec<Vec<u8>>)
    ensures
        r@.map_values(|v: Vec<u8>| v@) == pieces(kb@),
        r@.len() >= 1,
{
    let mut r: Vec<Vec<u8>> = Vec::new();
    r.push(Vec::new());
    let mut i: usize = 0;
    assert(kb@.take(0) =~= Seq::<u8>::empty());
    assert(r@.map_values(|v: Vec<u8>| v@) =~= seq![Seq::<u8>::empty()]);
    while i < kb.len()
        invariant
            i <= kb@.len(),
            r@.len() >= 1,
            r@.map_values(|v: Vec<u8>| v@) == pieces(kb@.take(i as int)),
        decreases kb@.len() - i,
    {
        let ghost r0 = r@.map_values(|v: Vec<u8>| v@);
        assert(kb@.take(i + 1).drop_last() =~= kb@.take(i as int));
        if kb[i] == 10 {
            r.push(Vec::new());
            assert(r@.map_values(|v: Vec<u8>| v@) =~= r0.push(Seq::<u8>::empty()));
        } else {
            let last = r.len() - 1;
            let mut p = r.pop().unwrap();
            let ghost p0 = p@;
            assert(p0 == r0.last());
            p.push(kb[i]);
            r.push(p);
            assert(r@.map_values(|v: Vec<u8>| v@) =~= r0.update(r0.len() - 1, r0.last().push(kb@[i as int])));
        }
        i += 1;
    }
    assert(kb@.take(kb@.len() as int) =~= kb@);
    r
}

/// The `a`-th step of one yank of pieces `ps`: piece `a / 2` is put in at even steps, and
/// a line break at odd ones (between pieces).
pub open spec fn step_is_piece(a: int) -> bool {
    a % 2 == 0
}

/// One step of a yank: a piece is put in at the dot (nothing for an empty piece; the
/// buffer is not marked changed), or the line is broken (see `newline_inserted`).
pub open spec fn yank_step(e0: &Editor, e1: &Editor, ps: Seq<Seq<u8>>, a: int, r: Result<()>) -> bool {
    let per = 2 * ps.len() - 1;
    let i = a % per;
    if step_is_piece(i) {
        let p = ps[i / 2];
        if p.len() == 0 {
            r is Ok && *e1 == *e0
        } else {
            inserted_at_dot_marking(e0, e1, p, false, r)
        }
    } else {
        newline_inserted(e0, e1, 1, r)
    }
}

/// `k` steps of yanking pieces `ps` again and again, stopping at the first failure.
pub open spec fn yank_steps(e0: &Editor, e1: &Editor, ps: Seq<Seq<u8>>, k: nat, r: Result<()>) -> bool
    decreases k,
{
    if k == 0 {
        r is Ok && *e1 == *e0
    } else {
        ||| (r is Err && yank_steps(e0, e1, ps, (k - 1) as nat, r))
        ||| exists|em: Editor|
            yank_steps(e0, &em, ps, (k - 1) as nat, Ok(())) && #[trigger] yank_step(&em, e1, ps, k - 1, r)
    }
}

/// The number of steps of `n` yanks (at least one) of `kb`.
pub open spec fn yank_total(kb: Seq<u8>, n: usize) -> nat {
    let count: nat = if n == 0 {
        1
    } else {
        n as nat
    };
    count * (2 * pieces(kb).len() - 1) as nat
}

/// What `yank` does: with an empty kill buffer nothing; else the kill buffer is put in at
/// the dot `n` times (at least once), its newlines breaking lines, and the buffer is then
/// marked changed; a failure ends it.
pub open spec fn yanked(e0: &Editor, e1: &Editor, n: usize, r: Result<()>) -> bool {
    let ps = pieces(e0.kill_buffer@);
    if e0.kill_buffer@.len() == 0 {
        r is Ok && *e1 == *e0
    } else {
        exists|ek: Editor, rk: Result<()>|
            #[trigger] yank_steps(e0, &ek, ps, yank_total(e0.kill_buffer@, n), rk) && (rk is Err ==> r == rk
                && *e1 == ek) && (rk is Ok ==> if !ek.has_cur() {
                r is Err && *e1 == ek
            } else {
                &&& r is Ok
                &&& *e1 == (Editor { buffers: e1.buffers, ..ek })
                &&& e1.buffers.seq() == ek.buffers.seq().update(
                    ek.cur_win().buffer_id.0 as int,
                    crate::buffer::Buffer {
                        flags: BufferFlags(ek.cur_buf().flags.0 | BufferFlags::changed().0),
                        ..ek.cur_buf()
                    },
                )
            })
    }
}

/// Puts the kill buffer in at the dot.
pub struct Yank;

proof fn lemma_yank_err_extends(e0: &Editor, e1: &Editor, ps: Seq<Seq<u8>>, k: nat, m: nat, r: Result<()>)
    requires
        k <= m,
        r is Err,
        yank_steps(e0, e1, ps, k, r),
    ensures
        yank_steps(e0, e1, ps, m, r),
    decreases m - k,
{
    if k < m {
        assert(yank_steps(e0, e1, ps, (k + 1) as nat, r));
        lemma_yank_err_extends(e0, e1, ps, (k + 1) as nat, m, r);
    }
}

/// Puts a piece in at the dot; see `yank_step`.
fn put_piece(editor: &mut Editor, p: &Vec<u8>) -> (r: Result<()>)
    requires
        old(editor).wf(),
    ensures
        final(editor).wf(),
        p@.len() == 0 ==> r is Ok && *final(editor) == *old(editor),
        p@.len() > 0 ==> inserted_at_dot_marking(&*old(editor), &*final(editor), p@, false, r),
{
    if p.len() == 0 {
        Ok(())
    } else {
        insert_at_dot_marking(editor, p, false)
    }
}

/// A step that failed.
/// Where step `2 * j` of round `rep` stands among the steps of all rounds.
proof fn lemma_step_index(a: int, rep: int, per: int, j: int, len: int, count: int, total: int)
    by (nonlinear_arith)
    requires
        a == rep * per + 2 * j,
        0 <= j < len,
        per == 2 * len - 1,
        0 <= rep < count,
        total == count * per,
    ensures
        a < total,
        a % per == 2 * j,
        j + 1 < len ==> a + 1 < total && (a + 1) % per == 2 * j + 1,
{
}

proof fn lemma_yank_fail(e0: &Editor, em: &Editor, e1: &Editor, ps: Seq<Seq<u8>>, a: nat, total: nat, r: Result<()>)
    requires
        a < total,
        r is Err,
        yank_steps(e0, em, ps, a, Ok(())),
        yank_step(em, e1, ps, a as int, r),
    ensures
        yank_steps(e0, e1, ps, total, r),
{
    assert(((a + 1) as nat - 1) as int == a as int);
    assert(yank_steps(e0, e1, ps, (a + 1) as nat, r));
    lemma_yank_err_extends(e0, e1, ps, (a + 1) as nat, total, r);
}

/// A step that worked.
proof fn lemma_yank_ok(e0: &Editor, em: &Editor, e1: &Editor, ps: Seq<Seq<u8>>, a: nat)
    requires
        yank_steps(e0, em, ps, a, Ok(())),
        yank_step(em, e1, ps, a as int, Ok(())),
    ensures
        yank_steps(e0, e1, ps, a + 1, Ok(())),
{
    assert(((a + 1) as nat - 1) as int == a as int);
}

impl Command for Yank {
    fn execute(&self, editor: &mut Editor, f: bool, n: usize) -> (r: Result<()>)
        ensures
            yanked(&*old(editor), &*final(editor), n, r),
    {
        if editor.kill_buffer.len() == 0 {
            return Ok(());
        }
        let ghost e0 = *editor;
        let ps = split_pieces(&editor.kill_buffer);
        let ghost pv = ps@.map_values(|v: Vec<u8>| v@);
        let ghost per: nat = (2 * ps@.len() - 1) as nat;
        let count: usize = if n == 0 {
            1
        } else {
            n
        };
        let ghost total: nat = count as nat * per;
        assert(pv == pieces(e0.kill_buffer@));
        assert(total == yank_total(e0.kill_buffer@, n));
        let mut rep: usize = 0;
        let ghost mut a: nat = 0;
        while rep < count
            invariant
                editor.wf(),
                e0.wf(),
                e0 == *old(editor),
                ps@.len() >= 1,
                pv == ps@.map_values(|v: Vec<u8>| v@),
                pv.len() == ps@.len(),
                per == 2 * ps@.len() - 1,
                total == count as nat * per,
                pv == pieces(e0.kill_buffer@),
                total == yank_total(e0.kill_buffer@, n),
                rep <= count,
                a == rep * per,
                yank_steps(&e0, &*editor, pv, a, Ok(())),
            decreases count - rep,
        {
            let mut j: usize = 0;
            while j < ps.len()
                invariant
                    editor.wf(),
                    e0.wf(),
                    ps@.len() >= 1,
                    pv == ps@.map_values(|v: Vec<u8>| v@),
                    pv.len() == ps@.len(),
                    per == 2 * ps@.len() - 1,
                    total == count as nat * per,
                    e0 == *old(editor),
                    pv == pieces(e0.kill_buffer@),
                    total == yank_total(e0.kill_buffer@, n),
                    rep < count,
                    j <= ps@.len(),
                    j < ps@.len() ==> a == rep * per + 2 * j,
                    j == ps@.len() ==> a == rep * per + per,
                    yank_steps(&e0, &*editor, pv, a, Ok(())),
                decreases ps@.len() - j,
            {
                proof {
                    lemma_step_index(a as int, rep as int, per as int, j as int, ps@.len() as int, count as int, total as int);
                    assert(pv[j as int] == ps@[j as int]@);
                    assert((2 * j) / 2 == j);
                }
                let ghost em = *editor;
                let r = put_piece(editor, &ps[j]);
                proof {
                    assert(yank_step(&em, &*editor, pv, a as int, r));
                }
                match r {
                    Ok(()) => {
                        proof {
                            assert(r->Ok_0 == ());
                            assert(r == Ok::<(), Error>(()));
                            lemma_yank_ok(&e0, &em, &*editor, pv, a);
                            a = a + 1;
                        }
                    },
                    Err(e) => {
                        proof {
                            lemma_yank_fail(&e0, &em, &*editor, pv, a, total, r);
                        }
                        return Err(e);
                    },
                }
                if j + 1 < ps.len() {
                    proof {
                        assert(a < total && (a % per) == 2 * j + 1) by (nonlinear_arith)
                            requires
                                a == rep * per + 2 * j + 1,
                                j + 1 < ps@.len(),
                                per == 2 * ps@.len() - 1,
                                rep < count,
                                total == count * per,
                        ;
                    }
                    let ghost en = *editor;
                    let r2 = InsertNewline.execute(editor, false, 1);
                    proof {
                        assert(yank_step(&en, &*editor, pv, a as int, r2));
                    }
                    match r2 {
                        Ok(()) => {
                            proof {
                                assert(r2->Ok_0 == ());
                                assert(r2 == Ok::<(), Error>(()));
                                lemma_yank_ok(&e0, &en, &*editor, pv, a);
                                a = a + 1;
                            }
                        },
                        Err(e) => {
                            proof {
                                lemma_yank_fail(&e0, &en, &*editor, pv, a, total, r2);
                            }
                            return Err(e);
                        },
                    }
                }
                j += 1;
            }
            proof {
                assert((rep + 1) * per == rep * per + per) by (nonlinear_arith);
            }
            rep += 1;
        }
        let ghost ek = *editor;
        proof {
            assert(a == total) by (nonlinear_arith)
                requires
                    a == rep * per,
                    rep == count,
                    total == count * per,
            ;
        }
        let w = match editor.cur_window() {
            Ok(w) => w,
            Err(e) => return Err(e),
        };
        if w.buffer_id.0 >= editor.buffers.len() {
            return Err(Error::Abort);
        }
        let mut b = editor.buffers.take(w.buffer_id);
        b.flags = b.flags.union(BufferFlags::changed());
        editor.buffers.put(w.buffer_id, b);
        proof {
            assert(editor.buffers.seq() =~= ek.buffers.seq().update(w.buffer_id.0 as int, b));
        }
        Ok(())
    }
}

} // verus!
