//! Colours for shading: the base colours a figure uses, each given a slot,
//! and the colour they are mixed with.

use vstd::prelude::*;

use crate::registry::{get, value_of};
use crate::text::{str_is, string_copy, string_of, strings_equal};
use crate::value::{Attr, Value, ValueView, attrs_view};

verus! {

/// The colour a base colour is mixed with for shading.
#[derive(Clone, Copy, Debug, PartialEq, Eq, Structural)]
pub enum Other {
    White,
    Black,
}

/// The base colours of a figure, in order of first use.
pub struct Slots {
    exprs: Vec<String>,
}

/// The position of the first colour expression equal to `e`, or the length.
pub open spec fn slot_pos(s: Seq<Seq<char>>, e: Seq<char>) -> int
    decreases s.len(),
{
    if s.len() == 0 {
        0
    } else if slot_pos(s.drop_last(), e) < s.len() - 1 {
        slot_pos(s.drop_last(), e)
    } else if s.last() == e {
        s.len() - 1
    } else {
        s.len() as int
    }
}

proof fn lemma_slot_pos(s: Seq<Seq<char>>, e: Seq<char>)
    ensures
        0 <= slot_pos(s, e) <= s.len(),
        slot_pos(s, e) < s.len() ==> s[slot_pos(s, e)] == e,
        forall|j: int| 0 <= j < slot_pos(s, e) ==> s[j] != e,
    decreases s.len(),
{
    if s.len() > 0 {
        lemma_slot_pos(s.drop_last(), e);
        assert(forall|j: int| 0 <= j < s.len() - 1 ==> s.drop_last()[j] == s[j]);
    }
}

impl Slots {
    /// The colour expressions, by slot.
    pub closed spec fn view_exprs(&self) -> Seq<Seq<char>> {
        self.exprs@.map_values(|x: String| x@)
    }

    pub fn new() -> (s: Slots)
        ensures
            s.view_exprs().len() == 0,
    {
        let s = Slots { exprs: Vec::new() };
        assert(s.view_exprs() =~= Seq::<Seq<char>>::empty());
        s
    }

    /// The expressions, by slot.
    pub fn exprs(&self) -> (r: &[String])
        ensures
            r@.map_values(|x: String| x@) == self.view_exprs(),
    {
        self.exprs.as_slice()
    }

    /// The slot of a colour expression, given the next free slot when it
    /// is new.
    pub fn get(&mut self, expr: &str) -> (k: usize)
        ensures
            k == slot_pos(old(self).view_exprs(), expr@),
            k < old(self).view_exprs().len() ==> final(self).view_exprs() == old(self).view_exprs(),
            k == old(self).view_exprs().len() ==> final(self).view_exprs() == old(self).view_exprs().push(
                expr@,
            ),
    {
        let ghost v = self.view_exprs();
        proof {
            lemma_slot_pos(v, expr@);
        }
        let e = string_of(crate::text::chars_of(expr).as_slice());
        let mut k: usize = 0;
        while k < self.exprs.len()
            invariant
                k <= self.exprs@.len(),
                v == self.view_exprs(),
                e@ == expr@,
                0 <= slot_pos(v, expr@) <= v.len(),
                slot_pos(v, expr@) < v.len() ==> v[slot_pos(v, expr@)] == expr@,
                forall|j: int| 0 <= j < slot_pos(v, expr@) ==> v[j] != expr@,
                forall|j: int| 0 <= j < k ==> v[j] != expr@,
            decreases self.exprs@.len() - k,
        {
            if strings_equal(&self.exprs[k], &e) {
                assert(v[k as int] == expr@);
                return k;
            }
            k = k + 1;
        }
        let n = self.exprs.len();
        self.exprs.push(e);
        assert(self.view_exprs() =~= v.push(expr@));
        n
    }

    /// The slot of the colour an attribute names, or of `default` when the
    /// attribute does not name one.
    pub fn colour_attr(&mut self, attrs: &[Attr], key: &str, default: &str) -> (k: usize)
        ensures
            ({
                let e = match value_of(attrs_view(attrs@), key@) {
                    Some(ValueView::Word(w)) => w,
                    Some(ValueView::Str(w)) => w,
                    _ => default@,
                };
                &&& k == slot_pos(old(self).view_exprs(), e)
                &&& k < old(self).view_exprs().len() ==> final(self).view_exprs() == old(self).view_exprs()
                &&& k == old(self).view_exprs().len() ==> final(self).view_exprs() == old(
                    self,
                ).view_exprs().push(e)
            }),
    {
        let expr = match get(attrs, key) {
            Some(Value::Word(w)) => string_copy(w),
            Some(Value::Str(w)) => string_copy(w),
            _ => string_of(crate::text::chars_of(default).as_slice()),
        };
        self.get(expr.as_str())
    }
}

} // verus!
