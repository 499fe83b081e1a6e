use vstd::prelude::*;
use vstd::string::StrSliceExecFns;

verus! {

/// Whether `c` is an ASCII decimal digit.
pub open spec fn is_digit(c: char) -> bool {
    '0' as u32 <= c as u32 <= '9' as u32
}

/// The number that a run of decimal digits spells.
pub open spec fn digits_value(s: Seq<char>) -> int
    decreases s.len(),
{
    if s.len() == 0 {
        0
    } else {
        digits_value(s.drop_last()) * 10 + (s.last() as u32 - '0' as u32)
    }
}

/// The digits of a page number: the text after an optional leading `+`.
pub open spec fn page_digits(s: Seq<char>) -> Seq<char> {
    if s.len() > 0 && s[0] == '+' {
        s.drop_first()
    } else {
        s
    }
}

/// The number that `s` reads as an unsigned machine integer: one or more
/// decimal digits after an optional `+`, with a value that fits a `usize`.
pub open spec fn page_number(s: Seq<char>) -> Option<int> {
    let d = page_digits(s);
    if d.len() > 0 && (forall|i: int| 0 <= i < d.len() ==> is_digit(#[trigger] d[i]))
        && digits_value(d) <= usize::MAX {
        Some(digits_value(d))
    } else {
        None
    }
}

/// A longer run of digits never spells a smaller number.
proof fn lemma_digits_value_grows(s: Seq<char>, i: int)
    requires
        0 <= i <= s.len(),
        forall|k: int| 0 <= k < s.len() ==> is_digit(#[trigger] s[k]),
    ensures
        digits_value(s.take(i)) <= digits_value(s),
        0 <= digits_value(s.take(i)),
    decreases s.len(),
{
    if i == s.len() {
        assert(s.take(i) =~= s);
        if s.len() > 0 {
            lemma_digits_value_grows(s.drop_last(), 0);
        } else {
            assert(digits_value(s) == 0);
        }
    } else {
        let t = s.drop_last();
        assert(s.take(i) =~= t.take(i));
        lemma_digits_value_grows(t, i);
        lemma_digits_value_grows(t, t.len() as int);
        assert(t.take(t.len() as int) =~= t);
        assert(is_digit(s[s.len() - 1]));
    }
}

/// A page number is never negative.
pub proof fn lemma_page_number_nonneg(s: Seq<char>)
    ensures
        page_number(s) matches Some(k) ==> 0 <= k,
{
    let d = page_digits(s);
    if page_number(s) is Some {
        lemma_digits_value_grows(d, d.len() as int);
        assert(d.take(d.len() as int) =~= d);
    }
}

/// Reads `s` as a page number and accepts it only below `bound`.
pub fn parse_page(s: &str, bound: usize) -> (r: Option<usize>)
    ensures
        match page_number(s@) {
            Some(k) => if k < bound {
                r == Some(k as usize)
            } else {
                r is None
            },
            None => r is None,
        },
{
    let len = s.unicode_len();
    let mut i: usize = 0;
    if len > 0 && s.get_char(0) == '+' {
        i = 1;
    }
    let ghost start = i as int;
    let ghost d = page_digits(s@);
    assert(d =~= s@.subrange(start, s@.len() as int));
    if i == len || bound == 0 {
        proof {
            if page_number(s@) is Some {
                lemma_digits_value_grows(d, 0);
                assert(d.take(0) =~= Seq::<char>::empty());
            }
        }
        return None;
    }
    let mut value: usize = 0;
    while i < len
        invariant
            0 <= start <= i <= len,
            start < len,
            len == s@.len(),
            d == s@.subrange(start, len as int),
            d == page_digits(s@),
            forall|k: int| 0 <= k < i - start ==> is_digit(#[trigger] d[k]),
            value == digits_value(d.take(i - start)),
            value < bound,
        decreases len - i,
    {
        let c = s.get_char(i);
        assert(d[i - start] == c);
        if (c as u32) < ('0' as u32) || (c as u32) > ('9' as u32) {
            assert(!is_digit(d[i - start]));
            return None;
        }
        let digit = (c as u32 - '0' as u32) as usize;
        assert(d.take(i - start + 1).drop_last() =~= d.take(i - start));
        let next = match value.checked_mul(10) {
            Some(t) => t.checked_add(digit),
            None => None,
        };
        match next {
            Some(v) if v < bound => {
                value = v;
            },
            _ => {
                proof {
                    if page_number(s@) is Some {
                        lemma_digits_value_grows(d, i - start + 1);
                    }
                }
                return None;
            },
        }
        i = i + 1;
    }
    assert(d.take(len - start) =~= d);
    Some(value)
}

} // verus!
