//! The session protocol's trigger: a textual message `maze:<N>` asks for
//! one maze of size `N`.  The transport validates the trigger before the
//! engine is invoked; this module holds that validation.

use vstd::prelude::*;
use vstd::string::StrSliceExecFns;

verus! {

/// A decimal digit character.
pub open spec fn is_digit(c: char) -> bool {
    48 <= c as int <= 57
}

/// The value of a digit string, most significant first.
pub open spec fn digits_val(s: Seq<char>) -> int
    decreases s.len(),
{
    if s.len() == 0 {
        0
    } else {
        digits_val(s.drop_last()) * 10 + (s.last() as int - 48)
    }
}

/// What a session trigger means: `Some(N)` for `maze:` followed by one or
/// more digits, `None` for anything else.
pub open spec fn maze_trigger_value(s: Seq<char>) -> Option<int> {
    if s.len() > 5 && s.subrange(0, 5) == "maze:"@ && (forall|i: int|
        5 <= i < s.len() ==> is_digit(#[trigger] s[i])) {
        Some(digits_val(s.subrange(5, s.len() as int)))
    } else {
        None
    }
}

proof fn lemma_digits_nonneg(s: Seq<char>)
    requires
        forall|i: int| 0 <= i < s.len() ==> is_digit(#[trigger] s[i]),
    ensures
        digits_val(s) >= 0,
    decreases s.len(),
{
    if s.len() > 0 {
        assert forall|i: int| 0 <= i < s.drop_last().len() implies is_digit(
            #[trigger] s.drop_last()[i],
        ) by {
            assert(s.drop_last()[i] == s[i]);
        }
        lemma_digits_nonneg(s.drop_last());
    }
}

/// A digit string is worth at least any of its prefixes.
proof fn lemma_digits_prefix(s: Seq<char>, j: int)
    requires
        forall|i: int| 0 <= i < s.len() ==> is_digit(#[trigger] s[i]),
        0 <= j <= s.len(),
    ensures
        digits_val(s.take(j)) <= digits_val(s),
    decreases s.len() - j,
{
    if j == s.len() {
        assert(s.take(j) =~= s);
    } else {
        let p = s.take(j + 1);
        assert(p.drop_last() =~= s.take(j));
        assert forall|i: int| 0 <= i < s.take(j).len() implies is_digit(
            #[trigger] s.take(j)[i],
        ) by {
            assert(s.take(j)[i] == s[i]);
        }
        lemma_digits_nonneg(s.take(j));
        assert(digits_val(p) == digits_val(s.take(j)) * 10 + (s[j] as int - 48));
        lemma_digits_prefix(s, j + 1);
    }
}

/// Read a session trigger.  `Some(n)` exactly when the message is
/// `maze:<digits>` and the value fits the machine; a malformed or oversized
/// trigger is rejected before the engine is ever constructed.
pub fn parse_maze_trigger(message: &str) -> (r: Option<usize>)
    ensures
        maze_trigger_value(message@) is None ==> r is None,
        maze_trigger_value(message@) matches Some(v) ==> r == (if v <= usize::MAX {
            Some(v as usize)
        } else {
            None::<usize>
        }),
{
    let ghost s = message@;
    proof {
        reveal_strlit("maze:");
    }
    let len = message.unicode_len();
    if len < 6 {
        return None;
    }
    let c0 = message.get_char(0);
    let c1 = message.get_char(1);
    let c2 = message.get_char(2);
    let c3 = message.get_char(3);
    let c4 = message.get_char(4);
    if c0 != 'm' || c1 != 'a' || c2 != 'z' || c3 != 'e' || c4 != ':' {
        proof {
            assert(s.subrange(0, 5) != "maze:"@) by {
                if s.subrange(0, 5) == "maze:"@ {
                    assert(s.subrange(0, 5)[0] == s[0]);
                    assert(s.subrange(0, 5)[1] == s[1]);
                    assert(s.subrange(0, 5)[2] == s[2]);
                    assert(s.subrange(0, 5)[3] == s[3]);
                    assert(s.subrange(0, 5)[4] == s[4]);
                }
            }
        }
        return None;
    }
    let mut val: usize = 0;
    let mut i: usize = 5;
    while i < len
        invariant
            5 <= i <= len,
            len == s.len(),
            s == message@,
            forall|j: int| 5 <= j < i ==> is_digit(#[trigger] s[j]),
            val == digits_val(s.subrange(5, i as int)),
        decreases len - i,
    {
        let c = message.get_char(i);
        let code = c as u32;
        if code < 48 || code > 57 {
            proof {
                assert(!is_digit(s[i as int]));
            }
            return None;
        }
        let d = (code - 48) as usize;
        proof {
            assert(s.subrange(5, i + 1).drop_last() =~= s.subrange(5, i as int));
            assert(digits_val(s.subrange(5, i + 1)) == val * 10 + d);
        }
        if val > (usize::MAX - d) / 10 {
            proof {
                let digits = s.subrange(5, s.len() as int);
                assert(val * 10 + d > usize::MAX) by (nonlinear_arith)
                    requires
                        val > (usize::MAX - d) / 10,
                        0 <= d <= 9,
                ;
                if maze_trigger_value(s) is Some {
                    assert forall|j: int| 0 <= j < digits.len() implies is_digit(
                        #[trigger] digits[j],
                    ) by {
                        assert(digits[j] == s[j + 5]);
                    }
                    assert(digits.take(i + 1 - 5) =~= s.subrange(5, i + 1));
                    lemma_digits_prefix(digits, i + 1 - 5);
                    assert(digits_val(digits) >= val * 10 + d);
                }
            }
            return None;
        }
        val = val * 10 + d;
        i = i + 1;
    }
    proof {
        assert(s.subrange(0, 5) =~= "maze:"@);
        assert(s.subrange(5, i as int) == s.subrange(5, s.len() as int));
        assert(maze_trigger_value(s) == Some(digits_val(s.subrange(5, s.len() as int))));
    }
    Some(val)
}

} // verus!
