//! Lexical ground work for the translator: whitespace tokenization of a
//! source line, string comparison, and base-10 signed integer literals.

use vstd::prelude::*;

verus! {

/// Is `c` one of the blank characters that separate tokens?
pub open spec fn is_space(c: char) -> bool {
    c == ' ' || c == '\t' || c == '\n' || c == '\x0C' || c == '\r'
}

/// The whitespace-separated tokens of `s`, scanned left to right; `cur`
/// carries the token built so far.
pub open spec fn scan_tokens(s: Seq<char>, cur: Seq<char>) -> Seq<Seq<char>>
    decreases s.len(),
{
    if s.len() == 0 {
        if cur.len() == 0 {
            Seq::empty()
        } else {
            seq![cur]
        }
    } else if is_space(s[0]) {
        if cur.len() == 0 {
            scan_tokens(s.skip(1), Seq::empty())
        } else {
            seq![cur] + scan_tokens(s.skip(1), Seq::empty())
        }
    } else {
        scan_tokens(s.skip(1), cur.push(s[0]))
    }
}

/// The whitespace-separated tokens of a source line, in order.  Tokens are
/// maximal runs of non-blank characters; blanks themselves never appear.
pub open spec fn tokenize(s: Seq<char>) -> Seq<Seq<char>> {
    scan_tokens(s, Seq::empty())
}

/// Is `c` an ASCII decimal digit?
pub open spec fn is_digit(c: char) -> bool {
    48 <= c as u32 <= 57
}

/// The value of a single decimal digit.
pub open spec fn digit_val(c: char) -> int {
    c as u32 - 48
}

/// Is every character of `s` a decimal digit?
pub open spec fn all_digits(s: Seq<char>) -> bool {
    forall|i: int| 0 <= i < s.len() ==> is_digit(s[i])
}

/// The integer denoted by a run of decimal digits, most significant first.
pub open spec fn digits_val(s: Seq<char>) -> int
    decreases s.len(),
{
    if s.len() == 0 {
        0
    } else {
        digits_val(s.drop_last()) * 10 + digit_val(s.last())
    }
}

/// Does `s` have the shape of a base-10 signed integer literal: an optional
/// sign followed by at least one digit?
pub open spec fn is_int_literal(s: Seq<char>) -> bool {
    if s.len() == 0 {
        false
    } else if s[0] == '-' || s[0] == '+' {
        s.len() > 1 && all_digits(s.skip(1))
    } else {
        all_digits(s)
    }
}

/// The mathematical value of an integer literal.
pub open spec fn literal_val(s: Seq<char>) -> int {
    if s[0] == '-' {
        -digits_val(s.skip(1))
    } else if s[0] == '+' {
        digits_val(s.skip(1))
    } else {
        digits_val(s)
    }
}

/// The `i64` a token denotes, when it is an integer literal whose value
/// fits; any other token is not a constant operand.
pub open spec fn spec_parse_i64(s: Seq<char>) -> Option<i64> {
    if is_int_literal(s) && i64::MIN <= literal_val(s) <= i64::MAX {
        Some(literal_val(s) as i64)
    } else {
        None
    }
}

/// A run of digits denotes a non-negative value.
pub proof fn lemma_digits_val_nonneg(s: Seq<char>)
    requires
        all_digits(s),
    ensures
        digits_val(s) >= 0,
    decreases s.len(),
{
    if s.len() > 0 {
        assert(all_digits(s.drop_last()));
        lemma_digits_val_nonneg(s.drop_last());
    }
}

/// Reading more digits never shrinks the value: the value of a prefix is a
/// lower bound for the value of the whole run.
pub proof fn lemma_digits_val_prefix(s: Seq<char>, k: int)
    requires
        all_digits(s),
        0 <= k <= s.len(),
    ensures
        digits_val(s.take(k)) <= digits_val(s),
    decreases s.len(),
{
    if k == s.len() {
        assert(s.take(k) =~= s);
    } else {
        assert(all_digits(s.drop_last()));
        assert(s.take(k) =~= s.drop_last().take(k));
        lemma_digits_val_prefix(s.drop_last(), k);
        lemma_digits_val_nonneg(s.drop_last());
        assert(digit_val(s.last()) >= 0);
    }
}

/// Split a source line into its whitespace-separated tokens.
pub fn split_tokens<'a>(line: &'a str) -> (tokens: Vec<&'a str>)
    ensures
        tokens.deep_view() == tokenize(line@),
{
    let n = line.unicode_len();
    let mut tokens: Vec<&'a str> = Vec::new();
    let mut start: usize = 0;
    let mut in_token: bool = false;
    let mut i: usize = 0;
    proof {
        assert(line@.skip(0) =~= line@);
        assert(tokens.deep_view() =~= Seq::<Seq<char>>::empty());
    }
    while i < n
        invariant
            i <= n,
            n == line@.len(),
            in_token ==> start < i,
            tokenize(line@) == tokens.deep_view() + scan_tokens(
                line@.skip(i as int),
                if in_token {
                    line@.subrange(start as int, i as int)
                } else {
                    Seq::empty()
                },
            ),
        decreases n - i,
    {
        let ghost cur: Seq<char> = if in_token {
            line@.subrange(start as int, i as int)
        } else {
            Seq::empty()
        };
        let ghost rest = line@.skip(i as int);
        proof {
            assert(rest[0] == line@[i as int]);
            assert(rest.skip(1) =~= line@.skip(i + 1));
        }
        let c = line.get_char(i);
        if c == ' ' || c == '\t' || c == '\n' || c == '\x0C' || c == '\r' {
            if in_token {
                let tok = line.substring_char(start, i);
                let ghost old_tokens = tokens.deep_view();
                tokens.push(tok);
                proof {
                    assert(cur.len() > 0);
                    assert(scan_tokens(rest, cur) == seq![cur] + scan_tokens(
                        rest.skip(1),
                        Seq::empty(),
                    ));
                    assert(tok@ == cur);
                    assert(tokens.deep_view() =~= old_tokens.push(cur));
                    assert(old_tokens + (seq![cur] + scan_tokens(rest.skip(1), Seq::empty()))
                        =~= old_tokens.push(cur) + scan_tokens(rest.skip(1), Seq::empty()));
                }
                in_token = false;
            } else {
                proof {
                    assert(scan_tokens(rest, cur) == scan_tokens(rest.skip(1), Seq::empty()));
                }
            }
        } else {
            if !in_token {
                start = i;
                in_token = true;
                proof {
                    assert(scan_tokens(rest, cur) == scan_tokens(rest.skip(1), cur.push(
                        line@[i as int],
                    )));
                    assert(cur.push(line@[i as int]) =~= line@.subrange(i as int, i + 1));
                }
            } else {
                proof {
                    assert(scan_tokens(rest, cur) == scan_tokens(rest.skip(1), cur.push(
                        line@[i as int],
                    )));
                    assert(cur.push(line@[i as int]) =~= line@.subrange(start as int, i + 1));
                }
            }
        }
        i += 1;
    }
    proof {
        assert(line@.skip(n as int) =~= Seq::<char>::empty());
    }
    if in_token {
        let tok = line.substring_char(start, n);
        let ghost old_tokens = tokens.deep_view();
        let ghost cur = line@.subrange(start as int, n as int);
        tokens.push(tok);
        proof {
            assert(cur.len() > 0);
            assert(scan_tokens(Seq::<char>::empty(), cur) == seq![cur]);
            assert(tokens.deep_view() =~= old_tokens.push(cur));
            assert(old_tokens + seq![cur] =~= old_tokens.push(cur));
        }
    } else {
        proof {
            assert(scan_tokens(Seq::<char>::empty(), Seq::<char>::empty())
                =~= Seq::<Seq<char>>::empty());
            assert(tokens.deep_view() + Seq::<Seq<char>>::empty() =~= tokens.deep_view());
        }
    }
    tokens
}

/// Compare two string slices character by character.
pub fn str_eq(a: &str, b: &str) -> (r: bool)
    ensures
        r == (a@ == b@),
{
    let la = a.unicode_len();
    let lb = b.unicode_len();
    if la != lb {
        return false;
    }
    let mut i: usize = 0;
    while i < la
        invariant
            i <= la,
            la == a@.len(),
            la == b@.len(),
            forall|j: int| 0 <= j < i ==> a@[j] == b@[j],
        decreases la - i,
    {
        let ca = a.get_char(i);
        let cb = b.get_char(i);
        if ca != cb {
            return false;
        }
        i += 1;
    }
    proof {
        assert(a@ =~= b@);
    }
    true
}

/// Parse a token as a base-10 signed 64-bit integer, accepting an optional
/// leading sign; a token of any other shape, or one whose value does not
/// fit, is no constant.
pub fn parse_i64(s: &str) -> (r: Option<i64>)
    ensures
        r == spec_parse_i64(s@),
{
    let n = s.unicode_len();
    if n == 0 {
        return None;
    }
    let c0 = s.get_char(0);
    let signed = c0 == '-' || c0 == '+';
    let start: usize = if signed {
        1
    } else {
        0
    };
    if signed && n == 1 {
        return None;
    }
    let ghost digits = s@.skip(start as int);
    // Accumulate the negated magnitude so that `i64::MIN` itself parses.
    let mut val: i64 = 0;
    let mut i: usize = start;
    while i < n
        invariant
            start <= i <= n,
            n == s@.len(),
            n > start,
            signed == (s@[0] == '-' || s@[0] == '+'),
            start == (if signed { 1int } else { 0int }),
            digits == s@.skip(start as int),
            all_digits(digits.take(i - start)),
            val == -digits_val(digits.take(i - start)),
            val <= 0,
        decreases n - i,
    {
        let c = s.get_char(i);
        let u = c as u32;
        if u < 48 || u > 57 {
            proof {
                assert(digits[i - start] == s@[i as int]);
                assert(!is_digit(digits[i - start]));
                assert(!all_digits(digits));
            }
            return None;
        }
        let d = (u - 48) as i64;
        let ghost taken = digits.take(i + 1 - start);
        proof {
            assert(taken.drop_last() =~= digits.take(i - start));
            assert(taken.last() == digits[i - start]);
            assert(digits[i - start] == s@[i as int]);
            assert(all_digits(taken));
            assert(digits_val(taken) == digits_val(digits.take(i - start)) * 10 + digit_val(s@[i as int]));
        }
        let next = match val.checked_mul(10) {
            Some(v) => v.checked_sub(d),
            None => None,
        };
        match next {
            Some(v) => {
                val = v;
                i += 1;
            },
            None => {
                proof {
                    // The magnitude read so far already exceeds 2^63, so the
                    // whole literal lies outside the i64 range.
                    assert(digits_val(taken) > 0x8000_0000_0000_0000int);
                    if is_int_literal(s@) {
                        if signed {
                            assert(all_digits(s@.skip(1)));
                        } else {
                            assert(s@.skip(0) =~= s@);
                            assert(all_digits(digits));
                        }
                        lemma_digits_val_prefix(digits, i + 1 - start);
                        assert(digits_val(digits) > 0x8000_0000_0000_0000int);
                        if s@[0] == '-' {
                            assert(literal_val(s@) == -digits_val(digits));
                            assert(literal_val(s@) < i64::MIN);
                        } else if s@[0] == '+' {
                            assert(literal_val(s@) == digits_val(digits));
                            assert(literal_val(s@) > i64::MAX);
                        } else {
                            assert(s@.skip(0) =~= s@);
                            assert(literal_val(s@) == digits_val(digits));
                            assert(literal_val(s@) > i64::MAX);
                        }
                    }
                }
                return None;
            },
        }
    }
    proof {
        assert(digits.take(i - start) =~= digits);
        assert(all_digits(digits));
        assert(val == -digits_val(digits));
        if signed {
            assert(s@.skip(1) == digits);
        } else {
            assert(s@.skip(0) =~= s@);
            assert(digits == s@);
        }
        assert(is_int_literal(s@));
        lemma_digits_val_nonneg(digits);
    }
    if signed {
        if c0 == '-' {
            proof {
                assert(literal_val(s@) == val as int);
                assert(literal_val(s@) as i64 == val);
            }
            Some(val)
        } else {
            if val == i64::MIN {
                proof {
                    assert(literal_val(s@) == digits_val(digits));
                    assert(literal_val(s@) > i64::MAX);
                }
                return None;
            }
            proof {
                assert(literal_val(s@) == -(val as int));
            }
            Some(-val)
        }
    } else {
        if val == i64::MIN {
            proof {
                assert(literal_val(s@) == digits_val(digits));
                assert(literal_val(s@) > i64::MAX);
            }
            return None;
        }
        proof {
            assert(literal_val(s@) == -(val as int));
        }
        Some(-val)
    }
}

} // verus!
