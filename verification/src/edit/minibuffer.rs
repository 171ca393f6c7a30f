use crate::buffer::Buffer;
use crate::edit::helpers::{find_common_prefix, is_prefix};
use crate::edit::Editor;
use crate::terminal::Key;
use crate::types::BufferFlags;
use crate::util::{lex_le, sort_strings, views};
use vstd::prelude::*;
use vstd::utf8::encode_utf8;

verus! {

/// What the line read in the echo area is completed from.
#[derive(Clone, Copy, PartialEq, Eq, Debug, Structural)]
pub enum Completion {
    Filename,
    Buffer,
}

/// What the caller of the line reader does next.
#[derive(PartialEq, Eq, Debug)]
pub enum MiniStep {
    /// Show the prompt, and the line when it is echoed, then read another key.
    Show,
    /// Sound the bell, then read another key.
    Beep,
    /// Find the completions of the line and hand them to `Minibuffer::complete`.
    Complete,
    /// Clear the echo area: the line read is this string.
    Done(String),
}

/// A line being read in the echo area: its text, whether it is echoed, and the
/// completions being cycled through with the one shown.
pub struct Minibuffer {
    pub buf: String,
    pub echo: bool,
    pub cycle: Option<(Vec<String>, usize)>,
}

/// `String::pop`: removes the last character, if any, and returns it.
#[verifier::external_body]
fn pop_char(s: &mut String) -> (r: Option<char>)
    ensures
        old(s)@.len() == 0 ==> r is None && final(s)@ == old(s)@,
        old(s)@.len() > 0 ==> r == Some(old(s)@.last()) && final(s)@ == old(s)@.drop_last(),
{
    s.pop()
}

/// Whether `s` starts with `p`.
pub fn starts_with(s: &str, p: &str) -> (r: bool)
    ensures
        r == is_prefix(p@, s@),
{
    let sl = s.unicode_len();
    let pl = p.unicode_len();
    if pl > sl {
        return false;
    }
    let mut i: usize = 0;
    while i < pl
        invariant
            i <= pl <= sl,
            sl == s@.len(),
            pl == p@.len(),
            forall|q: int| 0 <= q < i ==> #[trigger] s@[q] == p@[q],
        decreases pl - i,
    {
        if s.get_char(i) != p.get_char(i) {
            assert(s@.take(pl as int)[i as int] != p@[i as int]);
            return false;
        }
        i += 1;
    }
    assert(s@.take(pl as int) =~= p@);
    true
}

/// The names of the visible buffers of `bs` that start with `prefix`, in order.
pub open spec fn names_matching(bs: Seq<Buffer>, prefix: Seq<char>) -> Seq<Seq<char>>
    decreases bs.len(),
{
    if bs.len() == 0 {
        Seq::empty()
    } else {
        let b = bs.last();
        names_matching(bs.drop_last(), prefix) + (if b.flags.0 & BufferFlags::invisible().0 == 0
            && is_prefix(prefix, b.name@) {
            seq![b.name@]
        } else {
            Seq::empty()
        })
    }
}

impl Editor {
    /// The names of the visible buffers that start with `prefix`, sorted.
    pub fn complete_buffer_name(&self, prefix: &str) -> (r: Vec<String>)
        ensures
            views(r@).to_multiset() == names_matching(self.buffers.seq(), prefix@).to_multiset(),
            forall|i: int, j: int|
                0 <= i < j < r@.len() ==> lex_le(encode_utf8(#[trigger] r@[i]@), encode_utf8(#[trigger] r@[j]@)),
    {
        let bs = self.buffers.as_slice();
        let mut names: Vec<String> = Vec::new();
        let mut i: usize = 0;
        while i < bs.len()
            invariant
                i <= bs@.len(),
                bs@ == self.buffers.seq(),
                views(names@) == names_matching(bs@.take(i as int), prefix@),
            decreases bs@.len() - i,
        {
            let b = &bs[i];
            let ghost n0 = names@;
            if !b.flags.intersects(BufferFlags::invisible()) && starts_with(b.name.as_str(), prefix) {
                names.push(b.name.clone());
                assert(views(names@) =~= views(n0) + seq![b.name@]);
            } else {
                assert(views(names@) =~= views(n0) + Seq::<Seq<char>>::empty());
            }
            assert(bs@.take(i + 1).drop_last() =~= bs@.take(i as int));
            i += 1;
        }
        assert(bs@.take(bs@.len() as int) =~= bs@);
        sort_strings(&mut names);
        names
    }
}

/// The step of the line reader in state `(buf, cycle)` on `key` (`None` when no key
/// comes): the new line, the new cycle, and what to do next.  Tab, when the line is echoed,
/// shows the next of the completions being cycled through while the line is the one
/// shown, and otherwise asks for completions.
pub open spec fn key_step(
    buf: Seq<char>,
    echo: bool,
    cycle: Option<(Seq<Seq<char>>, nat)>,
    key: Option<Key>,
) -> (Seq<char>, Option<(Seq<Seq<char>>, nat)>, MiniOutcome) {
    match key {
        None => (buf, cycle, MiniOutcome::Done(Seq::empty())),
        Some(Key::Unknown(0)) => (buf, cycle, MiniOutcome::Done(Seq::empty())),
        Some(Key::Enter) => (buf, cycle, MiniOutcome::Done(buf)),
        Some(Key::Control('G')) => (buf, cycle, MiniOutcome::Done(Seq::empty())),
        Some(Key::Escape) => (buf, cycle, MiniOutcome::Done(Seq::empty())),
        Some(Key::Backspace) => (if buf.len() > 0 {
            buf.drop_last()
        } else {
            buf
        }, cycle, MiniOutcome::Show),
        Some(Key::Delete) => (if buf.len() > 0 {
            buf.drop_last()
        } else {
            buf
        }, cycle, MiniOutcome::Show),
        Some(Key::Tab) => if !echo {
            (buf, cycle, MiniOutcome::Beep)
        } else {
            match cycle {
                Some((c, i)) => if i < c.len() && c[i as int] == buf {
                    let next = ((i + 1) % c.len()) as nat;
                    (c[next as int], Some((c, next)), MiniOutcome::Show)
                } else {
                    (buf, None, MiniOutcome::Complete)
                },
                None => (buf, None, MiniOutcome::Complete),
            }
        },
        Some(Key::Char(ch)) => (buf.push(ch), cycle, MiniOutcome::Show),
        _ => (buf, cycle, MiniOutcome::Beep),
    }
}

/// What a step of the line reader asks for, by views.
pub enum MiniOutcome {
    Show,
    Beep,
    Complete,
    Done(Seq<char>),
}

/// The view of a `MiniStep`.
pub open spec fn outcome_of(s: MiniStep) -> MiniOutcome {
    match s {
        MiniStep::Show => MiniOutcome::Show,
        MiniStep::Beep => MiniOutcome::Beep,
        MiniStep::Complete => MiniOutcome::Complete,
        MiniStep::Done(t) => MiniOutcome::Done(t@),
    }
}

/// The view of a cycle of completions.
pub open spec fn cycle_view(c: Option<(Vec<String>, usize)>) -> Option<(Seq<Seq<char>>, nat)> {
    match c {
        Some((v, i)) => Some((views(v@), i as nat)),
        None => None,
    }
}

/// The length in bytes of `s` encoded in UTF-8, as `str::len` gives it.
pub open spec fn byte_len(s: Seq<char>) -> usize {
    encode_utf8(s).len() as usize
}

/// `p` is the longest prefix shared by all of `cands` (which are not none).
pub open spec fn is_lcp(p: Seq<char>, cands: Seq<Seq<char>>) -> bool {
    &&& cands.len() > 0
    &&& forall|i: int| 0 <= i < cands.len() ==> is_prefix(p, #[trigger] cands[i])
    &&& p.len() < cands[0].len() ==> exists|i: int|
        0 <= i < cands.len() && (#[trigger] cands[i].len() == p.len() || cands[i][p.len() as int]
            != cands[0][p.len() as int])
}

/// The longest prefix shared by all of `cands`.
pub open spec fn lcp(cands: Seq<Seq<char>>) -> Seq<char> {
    choose|p: Seq<char>| is_lcp(p, cands)
}

/// There is one longest common prefix.
pub proof fn lemma_lcp_unique(p: Seq<char>, q: Seq<char>, cands: Seq<Seq<char>>)
    requires
        is_lcp(p, cands),
        is_lcp(q, cands),
    ensures
        p == q,
{
    assert(is_prefix(p, cands[0]));
    assert(is_prefix(q, cands[0]));
    if p.len() < q.len() {
        let i = choose|i: int|
            0 <= i < cands.len() && (#[trigger] cands[i].len() == p.len() || cands[i][p.len() as int]
                != cands[0][p.len() as int]);
        assert(is_prefix(q, cands[i]));
        assert(cands[i].take(q.len() as int)[p.len() as int] == q[p.len() as int]);
        assert(cands[0].take(q.len() as int)[p.len() as int] == q[p.len() as int]);
    } else if q.len() < p.len() {
        let i = choose|i: int|
            0 <= i < cands.len() && (#[trigger] cands[i].len() == q.len() || cands[i][q.len() as int]
                != cands[0][q.len() as int]);
        assert(is_prefix(p, cands[i]));
        assert(cands[i].take(p.len() as int)[q.len() as int] == p[q.len() as int]);
        assert(cands[0].take(p.len() as int)[q.len() as int] == p[q.len() as int]);
    }
    assert(p =~= cands[0].take(p.len() as int));
    assert(q =~= cands[0].take(q.len() as int));
}

/// What the completions `cands` of line `buf` make of it: none sound the bell, one
/// replaces the line, several replace it by their longest common prefix when that is
/// longer (in bytes), else by the first of them, which starts a cycle through them.
pub open spec fn complete_step(buf: Seq<char>, cands: Seq<Seq<char>>) -> (
    Seq<char>,
    Option<(Seq<Seq<char>>, nat)>,
    MiniOutcome,
) {
    if cands.len() == 0 {
        (buf, None, MiniOutcome::Beep)
    } else if cands.len() == 1 {
        (cands[0], None, MiniOutcome::Show)
    } else if byte_len(lcp(cands)) > byte_len(buf) {
        (lcp(cands), None, MiniOutcome::Show)
    } else {
        (cands[0], Some((cands, 0)), MiniOutcome::Show)
    }
}

impl Minibuffer {
    /// An empty line, echoed or not.
    pub fn new(echo: bool) -> (m: Self)
        ensures
            m.buf@ == Seq::<char>::empty(),
            m.echo == echo,
            m.cycle is None,
    {
        Minibuffer { buf: String::new(), echo, cycle: None }
    }
    /// Handles `key` (`None` when no more keys come); see `key_step`.
    pub fn key(&mut self, key: Option<Key>) -> (r: MiniStep)
        ensures
            ({
                let (b, c, o) = key_step(old(self).buf@, old(self).echo, cycle_view(old(self).cycle), key);
                &&& final(self).buf@ == b
                &&& cycle_view(final(self).cycle) == c
                &&& outcome_of(r) == o
                &&& final(self).echo == old(self).echo
            }),
    {
        match key {
            None => MiniStep::Done(String::new()),
            Some(Key::Unknown(0)) => MiniStep::Done(String::new()),
            Some(Key::Enter) => MiniStep::Done(self.buf.clone()),
            Some(Key::Control('G')) => MiniStep::Done(String::new()),
            Some(Key::Escape) => MiniStep::Done(String::new()),
            Some(Key::Backspace) | Some(Key::Delete) => {
                let _ = pop_char(&mut self.buf);
                MiniStep::Show
            },
            Some(Key::Tab) => {
                if !self.echo {
                    return MiniStep::Beep;
                }
                let continuing = match &self.cycle {
                    Some((c, i)) => *i < c.len() && c[*i] == self.buf,
                    None => false,
                };
                if continuing {
                    let (c, i) = match self.cycle.take() {
                        Some(p) => p,
                        None => (Vec::new(), 0),
                    };
                    let next = (i + 1) % c.len();
                    self.buf = c[next].clone();
                    self.cycle = Some((c, next));
                    MiniStep::Show
                } else {
                    self.cycle = None;
                    MiniStep::Complete
                }
            },
            Some(Key::Char(ch)) => {
                crate::text::push_char(&mut self.buf, ch);
                MiniStep::Show
            },
            _ => MiniStep::Beep,
        }
    }

    /// Takes the completions `cands` of the line; see `complete_step`.
    pub fn complete(&mut self, cands: Vec<String>) -> (r: MiniStep)
        ensures
            ({
                let (b, c, o) = complete_step(old(self).buf@, views(cands@));
                &&& final(self).buf@ == b
                &&& cycle_view(final(self).cycle) == c
                &&& outcome_of(r) == o
                &&& final(self).echo == old(self).echo
            }),
    {
        if cands.len() == 0 {
            self.cycle = None;
            return MiniStep::Beep;
        }
        if cands.len() == 1 {
            self.buf = cands[0].clone();
            self.cycle = None;
            return MiniStep::Show;
        }
        let common = find_common_prefix(cands.as_slice());
        proof {
            let vs = views(cands@);
            assert forall|i: int| 0 <= i < vs.len() implies is_prefix(common@, #[trigger] vs[i]) by {
                assert(is_prefix(common@, cands@[i]@));
            }
            if common@.len() < vs[0].len() {
                let i = choose|i: int|
                    0 <= i < cands@.len() && (#[trigger] cands@[i]@.len() == common@.len() || cands@[i]@[common@.len() as int]
                        != cands@[0]@[common@.len() as int]);
                assert(vs[i] == cands@[i]@);
            }
            assert(is_lcp(common@, vs));
            lemma_lcp_unique(common@, lcp(vs), vs);
        }
        let cl = common.as_str().len();
        let bl = self.buf.as_str().len();
        assert(cl == byte_len(common@));
        assert(bl == byte_len(self.buf@));
        if cl > bl {
            self.buf = common;
            self.cycle = None;
            MiniStep::Show
        } else {
            self.buf = cands[0].clone();
            assert(views(cands@)[0] == cands@[0]@);
            self.cycle = Some((cands, 0));
            MiniStep::Show
        }
    }
}

/// What the echo line shows while a line is read after `prompt`: the prompt and the line
/// when it is echoed, the prompt alone when it is not.
pub open spec fn shown_line(prompt: Seq<char>, buf: Seq<char>, echo: bool) -> Seq<char> {
    if echo {
        prompt + buf
    } else {
        prompt
    }
}

impl Minibuffer {
    /// The text of the echo line after `prompt`; see `shown_line`.
    pub fn shown(&self, prompt: &str) -> (s: String)
        ensures
            s@ == shown_line(prompt@, self.buf@, self.echo),
    {
        let mut s = String::from_str(prompt);
        if self.echo {
            crate::util::push_str(&mut s, self.buf.as_str());
        }
        s
    }
}

/// The kind of what a step asks for.
pub open spec fn kind_of(o: MiniOutcome) -> int {
    match o {
        MiniOutcome::Show => 0,
        MiniOutcome::Beep => 1,
        MiniOutcome::Complete => 2,
        MiniOutcome::Done(_) => 3,
    }
}

/// Two keys that differ at most in the character typed.
pub open spec fn same_shape(a: Option<Key>, b: Option<Key>) -> bool {
    match (a, b) {
        (Some(Key::Char(_)), Some(Key::Char(_))) => true,
        _ => a == b,
    }
}

/// With the line not echoed, the kinds of the steps on `keys` and the echo lines shown
/// after each, up to the step that ends the reading.
pub open spec fn hidden_run(
    prompt: Seq<char>,
    buf: Seq<char>,
    cycle: Option<(Seq<Seq<char>>, nat)>,
    keys: Seq<Option<Key>>,
) -> Seq<(int, Seq<char>)>
    decreases keys.len(),
{
    if keys.len() == 0 {
        Seq::empty()
    } else {
        let (b2, c2, o) = key_step(buf, false, cycle, keys[0]);
        seq![(kind_of(o), shown_line(prompt, b2, false))] + if o is Done {
            Seq::empty()
        } else {
            hidden_run(prompt, b2, c2, keys.drop_first())
        }
    }
}

/// A line read without echo never shows what is typed: two runs on keys that differ only
/// in the characters typed ask for the same things and show the same echo lines.
pub proof fn lemma_hidden_input(
    prompt: Seq<char>,
    buf1: Seq<char>,
    buf2: Seq<char>,
    cycle: Option<(Seq<Seq<char>>, nat)>,
    keys1: Seq<Option<Key>>,
    keys2: Seq<Option<Key>>,
)
    requires
        buf1.len() == buf2.len(),
        keys1.len() == keys2.len(),
        forall|i: int| 0 <= i < keys1.len() ==> same_shape(#[trigger] keys1[i], keys2[i]),
    ensures
        hidden_run(prompt, buf1, cycle, keys1) == hidden_run(prompt, buf2, cycle, keys2),
    decreases keys1.len(),
{
    if keys1.len() > 0 {
        assert(same_shape(keys1[0], keys2[0]));
        let (b1, c1, o1) = key_step(buf1, false, cycle, keys1[0]);
        let (b2, c2, o2) = key_step(buf2, false, cycle, keys2[0]);
        assert(kind_of(o1) == kind_of(o2));
        assert(b1.len() == b2.len());
        assert(c1 == c2);
        assert forall|i: int| 0 <= i < keys1.drop_first().len() implies same_shape(
            #[trigger] keys1.drop_first()[i],
            keys2.drop_first()[i],
        ) by {
            assert(same_shape(keys1[i + 1], keys2[i + 1]));
        }
        lemma_hidden_input(prompt, b1, b2, c1, keys1.drop_first(), keys2.drop_first());
    }
}

} // verus!
