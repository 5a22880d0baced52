//! Splitting the raw maze description into lines and space-separated tokens,
//! and reading non-negative integers from tokens.

use vstd::prelude::*;
use vstd::arithmetic::div_mod::lemma_fundamental_div_mod;
use vstd::string::StrSliceExecFns;

verus! {

// ------------------------------------------------------------------
// Splitting
// ------------------------------------------------------------------
/// Index of the first occurrence of `sep` in `s`, or `s.len()` if none.
pub open spec fn first_of(s: Seq<char>, sep: char) -> int
    decreases s.len(),
{
    if s.len() == 0 {
        0
    } else if s[0] == sep {
        0
    } else {
        1 + first_of(s.drop_first(), sep)
    }
}

pub proof fn lemma_first_of_bounds(s: Seq<char>, sep: char)
    ensures
        0 <= first_of(s, sep) <= s.len(),
        forall|k: int| 0 <= k < first_of(s, sep) ==> s[k] != sep,
        first_of(s, sep) < s.len() ==> s[first_of(s, sep)] == sep,
    decreases s.len(),
{
    if s.len() > 0 && s[0] != sep {
        lemma_first_of_bounds(s.drop_first(), sep);
        assert forall|k: int| 0 <= k < first_of(s, sep) implies s[k] != sep by {
            if k >= 1 {
                assert(s[k] == s.drop_first()[k - 1]);
                assert(s.drop_first()[k - 1] != sep);
            }
        }
    }
}

/// A scan that saw no separator before `i`, and one at `i` unless `i` is the
/// end, has found the first occurrence.
pub proof fn lemma_first_of_is(s: Seq<char>, sep: char, i: int)
    requires
        0 <= i <= s.len(),
        forall|k: int| 0 <= k < i ==> s[k] != sep,
        i < s.len() ==> s[i] == sep,
    ensures
        first_of(s, sep) == i,
    decreases s.len(),
{
    if i == 0 {
        if s.len() > 0 {
            assert(s[0] == sep);
        }
    } else {
        assert(s[0] != sep);
        assert(forall|k: int| 0 <= k < i - 1 ==> s.drop_first()[k] != sep);
        lemma_first_of_is(s.drop_first(), sep, i - 1);
    }
}

/// A carriage return directly before a line break is not part of the line.
pub open spec fn strip_cr(l: Seq<char>) -> Seq<char> {
    if l.len() > 0 && l.last() == '\r' {
        l.drop_last()
    } else {
        l
    }
}

/// The lines of a text: pieces between line breaks, with no piece after a
/// final line break, as `str::lines` reads them.
pub open spec fn spec_lines(s: Seq<char>) -> Seq<Seq<char>>
    decreases s.len(),
    via spec_lines_decreases
{
    if s.len() == 0 {
        seq![]
    } else {
        let i = first_of(s, '\n');
        if i == s.len() {
            seq![s]
        } else {
            seq![strip_cr(s.take(i))] + spec_lines(s.skip(i + 1))
        }
    }
}

#[via_fn]
proof fn spec_lines_decreases(s: Seq<char>) {
    lemma_first_of_bounds(s, '\n');
}

/// The space-separated fields of a line; empty fields count, so the empty
/// line has one empty field.
pub open spec fn spec_tokens(s: Seq<char>) -> Seq<Seq<char>>
    decreases s.len(),
    via spec_tokens_decreases
{
    let i = first_of(s, ' ');
    if i == s.len() {
        seq![s]
    } else {
        seq![s.take(i)] + spec_tokens(s.skip(i + 1))
    }
}

#[via_fn]
proof fn spec_tokens_decreases(s: Seq<char>) {
    lemma_first_of_bounds(s, ' ');
}

/// No line is longer than the text it came from.
pub proof fn lemma_lines_fit(s: Seq<char>)
    ensures
        crate::table::sum_lens(spec_lines(s)) <= s.len(),
    decreases s.len(),
{
    if s.len() > 0 {
        lemma_first_of_bounds(s, '\n');
        let i = first_of(s, '\n');
        if i == s.len() {
            assert(spec_lines(s) == seq![s]);
            assert(spec_lines(s).drop_first() =~= Seq::<Seq<char>>::empty());
            assert(crate::table::sum_lens(spec_lines(s)) == s.len() + crate::table::sum_lens(
                spec_lines(s).drop_first(),
            ));
        } else {
            let rest = spec_lines(s.skip(i + 1));
            lemma_lines_fit(s.skip(i + 1));
            assert(spec_lines(s).drop_first() =~= rest);
            assert(spec_lines(s)[0] == strip_cr(s.take(i)));
            assert(strip_cr(s.take(i)).len() <= i);
            assert(crate::table::sum_lens(spec_lines(s)) == spec_lines(s)[0].len()
                + crate::table::sum_lens(rest));
        }
    }
}

/// The characters of a string, in order.
pub fn chars_of(s: &str) -> (v: Vec<char>)
    ensures
        v@ == s@,
{
    let n = s.unicode_len();
    let mut v: Vec<char> = Vec::new();
    let mut i: usize = 0;
    while i < n
        invariant
            i <= n,
            n == s@.len(),
            v@ == s@.take(i as int),
        decreases n - i,
    {
        let c = s.get_char(i);
        v.push(c);
        proof {
            assert(v@ =~= s@.take(i + 1));
        }
        i += 1;
    }
    proof {
        assert(s@.take(n as int) =~= s@);
    }
    v
}

/// Split a text into its lines.
pub fn split_lines(v: &Vec<char>) -> (r: Vec<Vec<char>>)
    ensures
        crate::table::view2(r) == spec_lines(v@),
{
    let mut r: Vec<Vec<char>> = Vec::new();
    let mut pos: usize = 0;
    proof {
        assert(v@.skip(0) =~= v@);
        assert(crate::table::view2(r) + spec_lines(v@) =~= spec_lines(v@));
    }
    while pos < v.len()
        invariant
            pos <= v@.len(),
            spec_lines(v@) == crate::table::view2(r) + spec_lines(v@.skip(pos as int)),
        ensures
            pos == v@.len(),
        decreases v@.len() - pos,
    {
        let ghost rem = v@.skip(pos as int);
        let mut j: usize = pos;
        while j < v.len() && v[j] != '\n'
            invariant
                pos <= j <= v@.len(),
                forall|k: int| pos <= k < j ==> v@[k] != '\n',
            decreases v@.len() - j,
        {
            j += 1;
        }
        proof {
            assert(forall|k: int| 0 <= k < j - pos ==> rem[k] != '\n');
            lemma_first_of_is(rem, '\n', j - pos);
        }
        let mut line: Vec<char> = Vec::new();
        let mut k: usize = pos;
        while k < j
            invariant
                pos <= k <= j <= v@.len(),
                line@ == v@.subrange(pos as int, k as int),
            decreases j - k,
        {
            line.push(v[k]);
            proof {
                assert(line@ =~= v@.subrange(pos as int, k + 1));
            }
            k += 1;
        }
        proof {
            assert(rem.take(j - pos) =~= v@.subrange(pos as int, j as int));
        }
        let ghost r_old = crate::table::view2(r);
        if j < v.len() {
            if line.len() > 0 && line[line.len() - 1] == '\r' {
                line.pop();
                proof {
                    assert(line@ =~= strip_cr(rem.take(j - pos)));
                }
            }
            proof {
                assert(line@ =~= strip_cr(rem.take(j - pos)));
            }
            r.push(line);
            proof {
                assert(crate::table::view2(r) =~= r_old.push(strip_cr(rem.take(j - pos))));
                assert(spec_lines(rem) == seq![strip_cr(rem.take(j - pos))] + spec_lines(
                    rem.skip(j - pos + 1),
                ));
                assert(rem.skip(j - pos + 1) =~= v@.skip(j + 1));
                assert(crate::table::view2(r) + spec_lines(v@.skip(j + 1)) =~= r_old + spec_lines(
                    rem,
                ));
            }
            pos = j + 1;
        } else {
            proof {
                assert(line@ =~= rem);
            }
            r.push(line);
            proof {
                assert(spec_lines(rem) == seq![rem]);
                assert(crate::table::view2(r) =~= r_old.push(rem));
                assert(spec_lines(v@.skip(j as int)) =~= Seq::<Seq<char>>::empty());
                assert(crate::table::view2(r) + spec_lines(v@.skip(j as int)) =~= r_old
                    + spec_lines(rem));
            }
            pos = j;
            proof {
                assert(pos == v@.len());
            }
            break;
        }
    }
    proof {
        assert(spec_lines(v@.skip(v@.len() as int)) =~= Seq::<Seq<char>>::empty());
        assert(crate::table::view2(r) + Seq::<Seq<char>>::empty() =~= crate::table::view2(r));
    }
    r
}

/// Split a line into its space-separated fields.
pub fn split_tokens(v: &Vec<char>) -> (r: Vec<Vec<char>>)
    ensures
        crate::table::view2(r) == spec_tokens(v@),
{
    let mut r: Vec<Vec<char>> = Vec::new();
    let mut pos: usize = 0;
    proof {
        assert(v@.skip(0) =~= v@);
        assert(crate::table::view2(r) + spec_tokens(v@) =~= spec_tokens(v@));
    }
    loop
        invariant_except_break
            pos <= v@.len(),
            spec_tokens(v@) == crate::table::view2(r) + spec_tokens(v@.skip(pos as int)),
        ensures
            crate::table::view2(r) == spec_tokens(v@),
        decreases v@.len() - pos,
    {
        let ghost rem = v@.skip(pos as int);
        let mut j: usize = pos;
        while j < v.len() && v[j] != ' '
            invariant
                pos <= j <= v@.len(),
                forall|k: int| pos <= k < j ==> v@[k] != ' ',
            decreases v@.len() - j,
        {
            j += 1;
        }
        proof {
            assert(forall|k: int| 0 <= k < j - pos ==> rem[k] != ' ');
            lemma_first_of_is(rem, ' ', j - pos);
        }
        let mut tok: Vec<char> = Vec::new();
        let mut k: usize = pos;
        while k < j
            invariant
                pos <= k <= j <= v@.len(),
                tok@ == v@.subrange(pos as int, k as int),
            decreases j - k,
        {
            tok.push(v[k]);
            proof {
                assert(tok@ =~= v@.subrange(pos as int, k + 1));
            }
            k += 1;
        }
        proof {
            assert(tok@ =~= rem.take(j - pos));
        }
        let ghost r_old = crate::table::view2(r);
        r.push(tok);
        if j < v.len() {
            proof {
                assert(crate::table::view2(r) =~= r_old.push(rem.take(j - pos)));
                assert(spec_tokens(rem) == seq![rem.take(j - pos)] + spec_tokens(
                    rem.skip(j - pos + 1),
                ));
                assert(rem.skip(j - pos + 1) =~= v@.skip(j + 1));
                assert(crate::table::view2(r) + spec_tokens(v@.skip(j + 1)) =~= r_old + spec_tokens(
                    rem,
                ));
            }
            pos = j + 1;
        } else {
            proof {
                assert(rem.take(j - pos) =~= rem);
                assert(spec_tokens(rem) == seq![rem]);
                assert(crate::table::view2(r) =~= r_old.push(rem));
                assert(crate::table::view2(r) =~= r_old + spec_tokens(rem));
            }
            break;
        }
    }
    r
}

// ------------------------------------------------------------------
// Reading numbers
// ------------------------------------------------------------------
pub open spec fn is_digit(c: char) -> bool {
    48 <= c as u32 <= 57
}

pub open spec fn digit_val(c: char) -> int {
    c as u32 - 48
}

pub open spec fn all_digits(t: Seq<char>) -> bool {
    forall|i: int| 0 <= i < t.len() ==> is_digit(#[trigger] t[i])
}

/// Value of a string of decimal digits, most significant first.
pub open spec fn digits_val(t: Seq<char>) -> int
    decreases t.len(),
{
    if t.len() == 0 {
        0
    } else {
        10 * digits_val(t.drop_last()) + digit_val(t.last())
    }
}

/// The digits of a token: an optional leading plus sign is not one of them.
pub open spec fn num_body(t: Seq<char>) -> Seq<char> {
    if t.len() > 0 && t[0] == '+' {
        t.drop_first()
    } else {
        t
    }
}

/// Whether a token reads as a non-negative integer that fits the machine,
/// as `str::parse::<usize>` accepts it.
pub open spec fn is_usize_token(t: Seq<char>) -> bool {
    let b = num_body(t);
    b.len() > 0 && all_digits(b) && digits_val(b) <= usize::MAX
}

/// The integer a token denotes.
pub open spec fn token_val(t: Seq<char>) -> int {
    digits_val(num_body(t))
}

pub proof fn lemma_digits_val_nonneg(t: Seq<char>)
    requires
        all_digits(t),
    ensures
        digits_val(t) >= 0,
    decreases t.len(),
{
    if t.len() > 0 {
        assert(all_digits(t.drop_last()));
        lemma_digits_val_nonneg(t.drop_last());
        assert(is_digit(t.last()));
    }
}

/// A digit string is worth at least any of its prefixes.
pub proof fn lemma_digits_val_prefix_le(t: Seq<char>, k: int)
    requires
        all_digits(t),
        0 <= k <= t.len(),
    ensures
        digits_val(t.take(k)) <= digits_val(t),
    decreases t.len(),
{
    assert(all_digits(t.take(k)));
    if k < t.len() {
        assert(t.drop_last().take(k) =~= t.take(k));
        assert(all_digits(t.drop_last()));
        lemma_digits_val_prefix_le(t.drop_last(), k);
        lemma_digits_val_nonneg(t.drop_last());
        assert(is_digit(t.last()));
        assert(digits_val(t) >= digits_val(t.drop_last()));
    } else {
        assert(t.take(k) =~= t);
    }
}

/// Read a token as a non-negative integer, exactly when it is one and fits.
pub fn parse_usize(t: &Vec<char>) -> (r: Option<usize>)
    ensures
        r is Some <==> is_usize_token(t@),
        r matches Some(v) ==> v == token_val(t@),
{
    let mut i: usize = 0;
    if t.len() > 0 && t[0] == '+' {
        i = 1;
    }
    let ghost body = num_body(t@);
    proof {
        assert(body =~= t@.skip(i as int));
    }
    if i >= t.len() {
        return None;
    }
    let mut acc: usize = 0;
    let mut j: usize = i;
    while j < t.len()
        invariant
            i <= j <= t@.len(),
            i < t@.len(),
            body == t@.skip(i as int),
            body == num_body(t@),
            all_digits(body.take(j - i)),
            acc == digits_val(body.take(j - i)),
        decreases t@.len() - j,
    {
        let c = t[j];
        let u = c as u32;
        if u < 48 || u > 57 {
            proof {
                assert(body[j - i] == c);
                assert(!is_digit(c));
                assert(!all_digits(body));
            }
            return None;
        }
        let d: usize = (u - 48) as usize;
        let limit: usize = (usize::MAX - d) / 10;
        proof {
            lemma_fundamental_div_mod((usize::MAX - d) as int, 10);
        }
        if acc > limit {
            proof {
                let pre = body.take(j - i + 1);
                assert(pre.drop_last() =~= body.take(j - i));
                assert(pre.last() == c);
                assert(digits_val(pre) == 10 * acc + d);
                assert(10 * acc >= 10 * (limit + 1)) by {
                    assert(acc >= limit + 1);
                }
                assert(digits_val(pre) > usize::MAX);
                if all_digits(body) {
                    lemma_digits_val_prefix_le(body, j - i + 1);
                    assert(digits_val(body) > usize::MAX);
                }
            }
            return None;
        }
        proof {
            assert(10 * acc <= 10 * limit) by {
                assert(acc <= limit);
            }
            assert(10 * acc + d <= usize::MAX);
            let pre = body.take(j - i + 1);
            assert(pre.drop_last() =~= body.take(j - i));
            assert(pre.last() == c);
            assert(is_digit(c));
            assert(all_digits(pre));
            assert(digits_val(pre) == 10 * acc + d);
        }
        acc = acc * 10 + d;
        j += 1;
    }
    proof {
        assert(body.take(j - i) =~= body);
        assert(body.len() > 0);
    }
    Some(acc)
}

} // verus!
