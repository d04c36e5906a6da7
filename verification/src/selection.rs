use vstd::prelude::*;

verus! {

// ---------------------------------------------------------------------------
// Characters
// ---------------------------------------------------------------------------

/// Whether a character is whitespace, as `char::is_whitespace` decides it.
pub uninterp spec fn is_space(c: char) -> bool;

/// Relies on char::is_whitespace: the Unicode whitespace property is a
/// function of the character alone; the ASCII blank, newline, tab and
/// carriage return are whitespace, and the characters a number token may
/// hold (digits and '+') are not.
#[verifier::external_body]
fn is_space_char(c: char) -> (r: bool)
    ensures
        r == is_space(c),
        c == ' ' || c == '\n' || c == '\t' || c == '\r' ==> r,
        is_digit(c) ==> !r,
        c == '+' ==> !r,
{
    c.is_whitespace()
}

/// Whether a character is a decimal digit.
pub open spec fn is_digit(c: char) -> bool {
    '0' as u32 <= c as u32 && c as u32 <= '9' as u32
}

// ---------------------------------------------------------------------------
// Number tokens
// ---------------------------------------------------------------------------

/// Every character of the token is a decimal digit.
pub open spec fn all_digits(t: Seq<char>) -> bool {
    forall|i: int| 0 <= i < t.len() ==> is_digit(#[trigger] t[i])
}

/// The value of a digit string, most significant digit first.
pub open spec fn digits_val(t: Seq<char>) -> int
    decreases t.len(),
{
    if t.len() == 0 {
        0
    } else {
        digits_val(t.drop_last()) * 10 + (t.last() as u32 - '0' as u32)
    }
}

/// The number a token denotes: an optional leading '+', then at least one
/// decimal digit, with a value that fits the index type; anything else
/// denotes no number.
pub open spec fn spec_parse_usize(t: Seq<char>) -> Option<usize> {
    let digits = if t.len() > 0 && t[0] == '+' {
        t.drop_first()
    } else {
        t
    };
    if digits.len() > 0 && all_digits(digits) && digits_val(digits) <= usize::MAX {
        Some(digits_val(digits) as usize)
    } else {
        None
    }
}

proof fn lemma_digits_val_nonneg(t: Seq<char>)
    requires
        all_digits(t),
    ensures
        digits_val(t) >= 0,
    decreases t.len(),
{
    if t.len() > 0 {
        assert(all_digits(t.drop_last())) by {
            assert(forall|i: int|
                0 <= i < t.len() - 1 ==> #[trigger] t.drop_last()[i] == t[i]);
        }
        lemma_digits_val_nonneg(t.drop_last());
        assert(is_digit(t.last()));
    }
}

/// Reading further digits never shrinks the value.
proof fn lemma_digits_val_grows(t: Seq<char>, j: int)
    requires
        all_digits(t),
        0 <= j <= t.len(),
    ensures
        digits_val(t) >= digits_val(t.take(j)),
    decreases t.len() - j,
{
    if j < t.len() {
        lemma_digits_val_grows(t, j + 1);
        assert(t.take(j + 1).drop_last() =~= t.take(j));
        assert(t.take(j + 1).last() == t[j]);
        assert(all_digits(t.take(j))) by {
            assert(forall|i: int| 0 <= i < j ==> #[trigger] t.take(j)[i] == t[i]);
        }
        lemma_digits_val_nonneg(t.take(j));
        assert(is_digit(t[j]));
        assert(digits_val(t.take(j + 1)) == digits_val(t.take(j)) * 10 + (t[j] as u32 - '0'
            as u32));
    } else {
        assert(t.take(j) =~= t);
    }
}

/// Parse one token as a selection number: an optional leading '+', then
/// decimal digits; anything else, or a value too large for the index type,
/// is no number.
pub fn parse_usize_token(token: &Vec<char>) -> (r: Option<usize>)
    ensures
        r == spec_parse_usize(token@),
{
    let ghost digits = if token@.len() > 0 && token@[0] == '+' {
        token@.drop_first()
    } else {
        token@
    };
    let start: usize = if token.len() > 0 && token[0] == '+' {
        1
    } else {
        0
    };
    proof {
        assert(digits =~= token@.skip(start as int));
    }
    if token.len() == start {
        return None;
    }
    let mut acc: usize = 0;
    let mut i: usize = start;
    while i < token.len()
        invariant
            start <= i <= token@.len(),
            start < token@.len(),
            digits == (if token@.len() > 0 && token@[0] == '+' {
                token@.drop_first()
            } else {
                token@
            }),
            digits == token@.skip(start as int),
            digits.len() == token@.len() - start,
            all_digits(digits.take(i - start)),
            acc as int == digits_val(digits.take(i - start)),
        decreases token@.len() - i,
    {
        let c = token[i];
        proof {
            assert(digits[i - start] == token@[i as int]);
            assert(digits.take(i - start + 1).drop_last() =~= digits.take(i - start));
            assert(digits.take(i - start + 1).last() == digits[i - start]);
        }
        let u = c as u32;
        let zero: u32 = '0' as u32;
        let nine: u32 = '9' as u32;
        if u < zero || u > nine {
            proof {
                assert(!is_digit(digits[i - start]));
                assert(!all_digits(digits));
            }
            return None;
        }
        let d = (u - zero) as usize;
        let limit = usize::MAX / 10;
        proof {
            vstd::arithmetic::div_mod::lemma_fundamental_div_mod(usize::MAX as int, 10);
            vstd::arithmetic::div_mod::lemma_mod_division_less_than_divisor(
                usize::MAX as int,
                10,
            );
        }
        if acc > limit || (acc == limit && d > usize::MAX % 10) {
            proof {
                assert(all_digits(digits.take(i - start + 1)));
                assert(digits_val(digits.take(i - start + 1)) == acc * 10 + d);
                assert(acc * 10 + d > usize::MAX);
                if all_digits(digits) {
                    lemma_digits_val_grows(digits, i - start + 1);
                    assert(digits_val(digits) > usize::MAX);
                }
            }
            return None;
        }
        proof {
            assert(acc * 10 + d <= usize::MAX);
        }
        acc = acc * 10 + d;
        i += 1;
    }
    proof {
        assert(digits.take(token@.len() - start) =~= digits);
    }
    Some(acc)
}

// ---------------------------------------------------------------------------
// Tokenizing a line
// ---------------------------------------------------------------------------

/// One left-to-right scan of a prefix: the whitespace-separated tokens seen
/// so far, and whether the scan stands inside a token.
pub open spec fn scan_tokens(s: Seq<char>) -> (Seq<Seq<char>>, bool)
    decreases s.len(),
{
    if s.len() == 0 {
        (Seq::empty(), false)
    } else {
        let prior = scan_tokens(s.drop_last());
        let c = s.last();
        if is_space(c) {
            (prior.0, false)
        } else if prior.1 {
            (prior.0.update(prior.0.len() - 1, prior.0.last().push(c)), true)
        } else {
            (prior.0.push(seq![c]), true)
        }
    }
}

/// The whitespace-separated tokens of a line, in order.
pub open spec fn spec_tokens(s: Seq<char>) -> Seq<Seq<char>> {
    scan_tokens(s).0
}

/// The numbers the tokens denote, in order; tokens that denote no number
/// are dropped.
pub open spec fn numbers_of_tokens(toks: Seq<Seq<char>>) -> Seq<usize>
    decreases toks.len(),
{
    if toks.len() == 0 {
        Seq::empty()
    } else {
        let rest = numbers_of_tokens(toks.drop_last());
        match spec_parse_usize(toks.last()) {
            Some(n) => rest.push(n),
            None => rest,
        }
    }
}

/// The numbers a line denotes: its tokens parsed, unparseable ones dropped.
pub open spec fn spec_numbers_of(s: Seq<char>) -> Seq<usize> {
    numbers_of_tokens(spec_tokens(s))
}

/// Split a line on whitespace and parse each token as a number; tokens that
/// denote no number are dropped. The numbers keep the order they were typed
/// in.
pub fn to_number_vec(numbers_string: &str) -> (r: Vec<usize>)
    ensures
        r@ == spec_numbers_of(numbers_string@),
{
    let ghost s = numbers_string@;
    let s_len = numbers_string.unicode_len();
    let mut result: Vec<usize> = Vec::new();
    let mut token: Vec<char> = Vec::new();
    let ghost mut closed: Seq<Seq<char>> = Seq::empty();
    let mut i: usize = 0;
    proof {
        assert(s.take(0) =~= Seq::<char>::empty());
    }
    while i < s_len
        invariant
            i <= s.len(),
            s_len == s.len(),
            s == numbers_string@,
            token@.len() == 0 ==> scan_tokens(s.take(i as int)) == (closed, false),
            token@.len() > 0 ==> scan_tokens(s.take(i as int)) == (closed.push(token@), true),
            result@ == numbers_of_tokens(closed),
        decreases s.len() - i,
    {
        let c = numbers_string.get_char(i);
        proof {
            assert(s.take(i + 1).drop_last() =~= s.take(i as int));
            assert(s.take(i + 1).last() == s[i as int]);
        }
        if is_space_char(c) {
            if token.len() > 0 {
                let parsed = parse_usize_token(&token);
                let ghost closed_before = closed;
                proof {
                    closed = closed.push(token@);
                    assert(closed.drop_last() =~= closed_before);
                    assert(closed.last() == token@);
                }
                match parsed {
                    Some(n) => result.push(n),
                    None => {},
                }
                token.clear();
            }
        } else {
            let ghost tok_prev = token@;
            token.push(c);
            proof {
                if tok_prev.len() > 0 {
                    assert(closed.push(tok_prev).update(
                        closed.push(tok_prev).len() - 1,
                        closed.push(tok_prev).last().push(c),
                    ) =~= closed.push(token@));
                } else {
                    assert(token@ =~= seq![c]);
                }
            }
        }
        i += 1;
    }
    proof {
        assert(s.take(s.len() as int) =~= s);
    }
    if token.len() > 0 {
        let parsed = parse_usize_token(&token);
        let ghost closed_before = closed;
        proof {
            closed = closed.push(token@);
            assert(closed.drop_last() =~= closed_before);
            assert(closed.last() == token@);
            assert(spec_tokens(s) == closed);
        }
        match parsed {
            Some(n) => result.push(n),
            None => {},
        }
    }
    result
}

// ---------------------------------------------------------------------------
// Validating a selection
// ---------------------------------------------------------------------------

/// The selection entries that fall outside `lo..=hi`, in order.
pub open spec fn spec_invalid(numbers: Seq<usize>, lo: usize, hi: usize) -> Seq<usize>
    decreases numbers.len(),
{
    if numbers.len() == 0 {
        Seq::empty()
    } else {
        let rest = spec_invalid(numbers.drop_last(), lo, hi);
        if lo <= numbers.last() && numbers.last() <= hi {
            rest
        } else {
            rest.push(numbers.last())
        }
    }
}

/// Check a selection against the inclusive range `lo..=hi`: `Ok` exactly
/// when every entry is in range, else exactly the out-of-range entries, in
/// the order they were given.
pub fn validate_numbers(numbers: &Vec<usize>, lo: usize, hi: usize) -> (r: Result<
    (),
    Vec<usize>,
>)
    ensures
        match r {
            Ok(_) => spec_invalid(numbers@, lo, hi).len() == 0 && forall|i: int|
                0 <= i < numbers@.len() ==> lo <= #[trigger] numbers@[i] <= hi,
            Err(bad) => bad@ == spec_invalid(numbers@, lo, hi) && bad@.len() > 0,
        },
{
    let mut bad: Vec<usize> = Vec::new();
    let mut i: usize = 0;
    proof {
        assert(numbers@.take(0) =~= Seq::<usize>::empty());
    }
    while i < numbers.len()
        invariant
            i <= numbers@.len(),
            bad@ == spec_invalid(numbers@.take(i as int), lo, hi),
            bad@.len() == 0 ==> forall|j: int|
                0 <= j < i ==> lo <= #[trigger] numbers@[j] <= hi,
        decreases numbers@.len() - i,
    {
        proof {
            assert(numbers@.take(i + 1).drop_last() =~= numbers@.take(i as int));
            assert(numbers@.take(i + 1).last() == numbers@[i as int]);
        }
        let n = numbers[i];
        if n < lo || n > hi {
            bad.push(n);
        }
        i += 1;
    }
    proof {
        assert(numbers@.take(numbers@.len() as int) =~= numbers@);
    }
    if bad.len() == 0 {
        Ok(())
    } else {
        Err(bad)
    }
}

} // verus!
