//! The operand stack of PostScript calculator code: which values it holds,
//! how a value is copied to the top, and how values are dropped after
//! their last use.  PDF limits such a stack to 100 entries, so every value
//! leaves the stack as soon as it is no longer needed.

use vstd::prelude::*;

use crate::text::{nat_text, push_nat, push_str, string_of};

verus! {

/// A value on the stack: a point coordinate, or a binding by its step.
#[derive(Clone, Copy, Debug, PartialEq, Eq, Structural)]
pub enum Slot {
    X,
    Y,
    Var(usize),
}

/// The step that uses a slot last, from a list of `(slot, step)` entries in
/// which a later entry replaces an earlier one.
pub open spec fn last_use(last: Seq<(Slot, usize)>, slot: Slot) -> Option<usize>
    decreases last.len(),
{
    if last.len() == 0 {
        None
    } else if last.last().0 == slot {
        Some(last.last().1)
    } else {
        last_use(last.drop_last(), slot)
    }
}

/// A slot is done at `step` when that step uses it last; a slot that is
/// never used is done at the step `usize::MAX`.
pub open spec fn done_at(last: Seq<(Slot, usize)>, slot: Slot, step: usize) -> bool {
    match last_use(last, slot) {
        Some(s) => s == step,
        None => step == usize::MAX,
    }
}

/// The code that drops the slot at position `j`: rolled to the top when
/// values lie above it, then popped.
pub open spec fn drop_text(len: nat, j: nat) -> Seq<char> {
    let above = len - j;
    (if above > 1 {
        nat_text(above as nat) + " -1 roll "@
    } else {
        Seq::empty()
    }) + "pop "@
}

/// The code and the stack after dropping the done slots among the first
/// `k` positions, from the top down.
pub open spec fn freed(stack: Seq<Slot>, k: nat, last: Seq<(Slot, usize)>, step: usize) -> (
    Seq<char>,
    Seq<Slot>,
)
    decreases k,
{
    if k == 0 {
        (Seq::empty(), stack)
    } else {
        let j = (k - 1) as nat;
        if j < stack.len() && done_at(last, stack[j as int], step) {
            let rest = freed(stack.remove(j as int), j, last, step);
            (drop_text(stack.len(), j) + rest.0, rest.1)
        } else {
            freed(stack, j, last, step)
        }
    }
}

/// The first position of a slot, or the length.
pub open spec fn position(stack: Seq<Slot>, slot: Slot) -> int
    decreases stack.len(),
{
    if stack.len() == 0 {
        0
    } else if position(stack.drop_last(), slot) < stack.len() - 1 {
        position(stack.drop_last(), slot)
    } else if stack.last() == slot {
        stack.len() - 1
    } else {
        stack.len() as int
    }
}

proof fn lemma_position(stack: Seq<Slot>, slot: Slot)
    ensures
        0 <= position(stack, slot) <= stack.len(),
        position(stack, slot) < stack.len() ==> stack[position(stack, slot)] == slot,
        forall|j: int| 0 <= j < position(stack, slot) ==> stack[j] != slot,
    decreases stack.len(),
{
    if stack.len() > 0 {
        lemma_position(stack.drop_last(), slot);
        assert(forall|j: int| 0 <= j < stack.len() - 1 ==> stack.drop_last()[j] == stack[j]);
    }
}

/// Calculator code being written, with what the stack holds between steps,
/// bottom first.
pub struct Code {
    out: Vec<char>,
    stack: Vec<Slot>,
}

fn last_step(last: &[(Slot, usize)], slot: Slot) -> (r: Option<usize>)
    ensures
        r == last_use(last@, slot),
{
    let mut k = last.len();
    assert(last@.take(k as int) =~= last@);
    while k > 0
        invariant
            k <= last@.len(),
            last_use(last@, slot) == last_use(last@.take(k as int), slot),
        decreases k,
    {
        assert(last@.take(k as int).drop_last() =~= last@.take(k - 1));
        if last[k - 1].0 == slot {
            return Some(last[k - 1].1);
        }
        k = k - 1;
    }
    None
}

impl Code {
    pub closed spec fn text(&self) -> Seq<char> {
        self.out@
    }

    pub closed spec fn slots(&self) -> Seq<Slot> {
        self.stack@
    }

    /// No code yet, and a stack holding `stack`.
    pub fn new(stack: Vec<Slot>) -> (c: Code)
        ensures
            c.text().len() == 0,
            c.slots() == stack@,
    {
        Code { out: Vec::new(), stack }
    }

    /// Put a value on the stack.
    pub fn push(&mut self, slot: Slot)
        ensures
            final(self).text() == old(self).text(),
            final(self).slots() == old(self).slots().push(slot),
    {
        self.stack.push(slot);
    }

    /// The number of values on the stack.
    pub fn depth(&self) -> (r: usize)
        ensures
            r == self.slots().len(),
    {
        self.stack.len()
    }

    /// The code written so far.
    pub fn to_text(&self) -> (s: String)
        ensures
            s@ == self.text(),
    {
        string_of(self.out.as_slice())
    }

    /// Append a word and a space.
    pub fn word(&mut self, w: &str)
        ensures
            final(self).text() == old(self).text() + w@ + " "@,
            final(self).slots() == old(self).slots(),
    {
        push_str(&mut self.out, w);
        push_str(&mut self.out, " ");
    }

    /// The `index` operand that copies `slot`, with `depth` values on the
    /// stack.
    pub fn index_of(&self, slot: Slot, depth: usize) -> (r: usize)
        requires
            position(self.slots(), slot) < self.slots().len(),
            position(self.slots(), slot) < depth,
        ensures
            r == depth - position(self.slots(), slot) - 1,
    {
        proof {
            lemma_position(self.stack@, slot);
        }
        let mut k: usize = 0;
        while k < self.stack.len()
            invariant
                k <= self.stack@.len(),
                forall|j: int| 0 <= j < k ==> self.stack@[j] != slot,
                0 <= position(self.stack@, slot) < self.stack@.len(),
                position(self.stack@, slot) < depth,
                self.stack@[position(self.stack@, slot)] == slot,
                forall|j: int| 0 <= j < position(self.stack@, slot) ==> self.stack@[j] != slot,
            decreases self.stack@.len() - k,
        {
            let here = self.stack[k];
            if here == slot {
                proof {
                    let p = position(self.stack@, slot);
                    assert(self.stack@[k as int] == slot);
                    if p < k {
                        assert(self.stack@[p] != slot);
                    }
                    if p > k {
                        assert(self.stack@[k as int] != slot);
                    }
                }
                return depth - k - 1;
            }
            k = k + 1;
        }
        assert(false);
        0
    }

    /// Drop the slots whose last use is `step` (or that are never used,
    /// when `step` is `usize::MAX`), from the top of the stack down.
    pub fn free(&mut self, last: &[(Slot, usize)], step: usize)
        ensures
            ({
                let f = freed(old(self).slots(), old(self).slots().len(), last@, step);
                &&& final(self).text() == old(self).text() + f.0
                &&& final(self).slots() == f.1
            }),
    {
        let ghost start = self.out@;
        let ghost s0 = self.stack@;
        let mut k = self.stack.len();
        proof {
            assert(freed(s0, s0.len(), last@, step) == freed(self.stack@, k as nat, last@, step));
        }
        while k > 0
            invariant
                k <= self.stack@.len(),
                ({
                    let f0 = freed(s0, s0.len(), last@, step);
                    let f = freed(self.stack@, k as nat, last@, step);
                    &&& f0.0 == self.out@.subrange(start.len() as int, self.out@.len() as int) + f.0
                    &&& f0.1 == f.1
                }),
                start.len() <= self.out@.len(),
                self.out@.subrange(0, start.len() as int) == start,
            decreases k,
        {
            k = k - 1;
            let slot = self.stack[k];
            let done = match last_step(last, slot) {
                Some(s) => s == step,
                None => step == usize::MAX,
            };
            if done {
                let ghost before = self.out@;
                let ghost st = self.stack@;
                let above = self.stack.len() - k;
                if above > 1 {
                    push_nat(&mut self.out, above as u64);
                    push_str(&mut self.out, " -1 roll ");
                }
                push_str(&mut self.out, "pop ");
                self.stack.remove(k);
                proof {
                    assert(self.out@ =~= before + drop_text(st.len(), k as nat));
                    assert(self.stack@ =~= st.remove(k as int));
                    assert(self.out@.subrange(start.len() as int, self.out@.len() as int) =~= before.subrange(
                        start.len() as int,
                        before.len() as int,
                    ) + drop_text(st.len(), k as nat));
                    assert(self.out@.subrange(0, start.len() as int) =~= before.subrange(0, start.len() as int));
                }
            }
        }
        proof {
            assert(self.out@ =~= start + self.out@.subrange(start.len() as int, self.out@.len() as int));
        }
    }
}

} // verus!
