//! The numeric type and the accumulator that turns digit runs into numbers.

use vstd::prelude::*;

use crate::error::Error;
use crate::model::{digit_value, digits_value, is_digit_char};

verus! {

/// Wrapper over the `isize` type: the only numeric domain supported.
#[derive(Debug, Clone, Copy, PartialEq, Eq, Structural)]
pub struct Number(pub isize);

/// Stack of digit characters: the number under accumulation, cleared every
/// time it is finalized.
pub struct NumberStack {
    digits: Vec<char>,
}

impl View for NumberStack {
    type V = Seq<char>;

    closed spec fn view(&self) -> Seq<char> {
        self.digits@
    }
}

/// The value of a digit run never shrinks as digits are appended, and never
/// goes below zero.
proof fn lemma_digits_value_bounds(ds: Seq<char>)
    requires
        forall|k: int| 0 <= k < ds.len() ==> is_digit_char(#[trigger] ds[k]),
    ensures
        digits_value(ds) >= 0,
        ds.len() > 0 ==> digits_value(ds) >= digits_value(ds.drop_last()),
    decreases ds.len(),
{
    if ds.len() > 0 {
        lemma_digits_value_bounds(ds.drop_last());
    }
}

/// The value of a digit run is at least the value of any of its prefixes.
proof fn lemma_digits_value_prefix(ds: Seq<char>, j: int)
    requires
        forall|k: int| 0 <= k < ds.len() ==> is_digit_char(#[trigger] ds[k]),
        0 <= j <= ds.len(),
    ensures
        digits_value(ds.take(j)) <= digits_value(ds),
    decreases ds.len() - j,
{
    if j < ds.len() {
        lemma_digits_value_prefix(ds, j + 1);
        assert(ds.take(j + 1).drop_last() =~= ds.take(j));
        assert(ds.take(j + 1).last() == ds[j]);
        lemma_digits_value_bounds(ds.take(j + 1));
    } else {
        assert(ds.take(j) =~= ds);
    }
}

impl NumberStack {
    /// Every buffered character is a decimal digit.
    pub open spec fn wf(self) -> bool {
        forall|k: int| 0 <= k < self@.len() ==> is_digit_char(#[trigger] self@[k])
    }

    /// Creates an empty stack.
    pub fn new() -> (r: Self)
        ensures
            r@ == Seq::<char>::empty(),
            r.wf(),
    {
        NumberStack { digits: Vec::new() }
    }

    /// Pushes a digit character on top of the stack. The caller is
    /// responsible for only passing digits; a digit never fails.
    pub fn push(&mut self, ch: char)
        requires
            old(self).wf(),
            is_digit_char(ch),
        ensures
            final(self)@ == old(self)@.push(ch),
            final(self).wf(),
    {
        self.digits.push(ch);
        proof {
            assert forall|k: int| 0 <= k < self@.len() implies is_digit_char(#[trigger] self@[k]) by {
                if k < old(self)@.len() {
                    assert(self@[k] == old(self)@[k]);
                } else {
                    assert(self@[k] == ch);
                }
            }
        }
    }

    /// Parses the buffered digit run and clears the buffer.
    ///
    /// An empty buffer yields no number, which is not an error: it means no
    /// digits were pending at this parse position. A non-empty buffer yields
    /// its decimal value, or [`Error::IntegerParse`] when that value does not
    /// fit the numeric type, in which case the buffer is left as it was.
    pub fn finalize(&mut self) -> (r: Result<Option<Number>, Error>)
        requires
            old(self).wf(),
        ensures
            final(self).wf(),
            r is Ok ==> final(self)@ == Seq::<char>::empty(),
            r is Err ==> final(self)@ == old(self)@,
            old(self)@.len() == 0 ==> r == Ok::<Option<Number>, Error>(None),
            old(self)@.len() > 0 && digits_value(old(self)@) <= isize::MAX ==> match r {
                Ok(opt) => opt matches Some(n) && n.0 == digits_value(old(self)@),
                Err(_) => false,
            },
            old(self)@.len() > 0 && digits_value(old(self)@) > isize::MAX ==> r == Err::<
                Option<Number>,
                Error,
            >(Error::IntegerParse),
    {
        if self.digits.len() == 0 {
            return Ok(None);
        }
        let ghost ds = self@;
        let mut value: isize = 0;
        let mut k: usize = 0;
        while k < self.digits.len()
            invariant
                self@ == ds,
                self.wf(),
                0 <= k <= ds.len(),
                0 <= value as int <= isize::MAX,
                value as int == digits_value(ds.take(k as int)),
            decreases ds.len() - k,
        {
            let d: isize = ((self.digits[k] as u32) - ('0' as u32)) as isize;
            proof {
                assert(ds.take(k as int + 1).drop_last() =~= ds.take(k as int));
                assert(ds.take(k as int + 1).last() == ds[k as int]);
                assert(d as int == digit_value(ds[k as int]));
            }
            let scaled = match value.checked_mul(10) {
                Some(s) => s,
                None => {
                    proof {
                        lemma_digits_value_prefix(ds, k as int + 1);
                        lemma_digits_value_bounds(ds.take(k as int + 1));
                    }
                    return Err(Error::IntegerParse);
                },
            };
            let next = match scaled.checked_add(d) {
                Some(n) => n,
                None => {
                    proof {
                        lemma_digits_value_prefix(ds, k as int + 1);
                    }
                    return Err(Error::IntegerParse);
                },
            };
            value = next;
            k = k + 1;
        }
        proof {
            assert(ds.take(ds.len() as int) =~= ds);
        }
        self.digits.clear();
        Ok(Some(Number(value)))
    }
}

} // verus!
