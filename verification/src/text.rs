//! Verified text helpers for the tab-separated wire format: decimal
//! rendering and parsing of unsigned integers, and splitting/joining of
//! fields around a separator character.

use vstd::arithmetic::div_mod::{lemma_div_is_strictly_smaller, lemma_fundamental_div_mod};
use vstd::prelude::*;

verus! {

/// The character for a single decimal digit value.
pub open spec fn digit_char(d: int) -> char {
    if d == 0 {
        '0'
    } else if d == 1 {
        '1'
    } else if d == 2 {
        '2'
    } else if d == 3 {
        '3'
    } else if d == 4 {
        '4'
    } else if d == 5 {
        '5'
    } else if d == 6 {
        '6'
    } else if d == 7 {
        '7'
    } else if d == 8 {
        '8'
    } else {
        '9'
    }
}

/// The numeric value of a decimal digit character, or -1 for any other
/// character.
pub open spec fn char_digit(c: char) -> int {
    if c == '0' {
        0
    } else if c == '1' {
        1
    } else if c == '2' {
        2
    } else if c == '3' {
        3
    } else if c == '4' {
        4
    } else if c == '5' {
        5
    } else if c == '6' {
        6
    } else if c == '7' {
        7
    } else if c == '8' {
        8
    } else if c == '9' {
        9
    } else {
        -1
    }
}

pub open spec fn is_digit_char(c: char) -> bool {
    char_digit(c) >= 0
}

pub open spec fn all_digits(s: Seq<char>) -> bool {
    forall|i: int| 0 <= i < s.len() ==> is_digit_char(#[trigger] s[i])
}

/// The canonical decimal representation of a non-negative integer.
pub open spec fn dec_rep(n: int) -> Seq<char>
    decreases n,
{
    if n < 10 {
        seq![digit_char(n)]
    } else {
        dec_rep(n / 10).push(digit_char(n % 10))
    }
}

/// The value of a sequence of decimal digit characters.
pub open spec fn dec_val(s: Seq<char>) -> int
    decreases s.len(),
{
    if s.len() == 0 {
        0
    } else {
        dec_val(s.drop_last()) * 10 + char_digit(s.last())
    }
}

pub proof fn lemma_dec_rep_digits(n: int)
    requires
        n >= 0,
    ensures
        dec_rep(n).len() >= 1,
        all_digits(dec_rep(n)),
        n >= 1 ==> dec_rep(n)[0] != '0',
    decreases n,
{
    if n >= 10 {
        lemma_div_is_strictly_smaller(n, 10);
        vstd::arithmetic::div_mod::lemma_div_pos_is_pos(n, 10);
        lemma_dec_rep_digits(n / 10);
        assert(n / 10 >= 1) by {
            lemma_fundamental_div_mod(n, 10);
        };
        assert forall|i: int| 0 <= i < dec_rep(n).len() implies is_digit_char(
            #[trigger] dec_rep(n)[i],
        ) by {
            if i < dec_rep(n / 10).len() {
                assert(dec_rep(n)[i] == dec_rep(n / 10)[i]);
            }
        };
    }
}

pub proof fn lemma_dec_val_of_rep(n: int)
    requires
        n >= 0,
    ensures
        dec_val(dec_rep(n)) == n,
    decreases n,
{
    if n < 10 {
        let s = dec_rep(n);
        assert(s =~= seq![digit_char(n)]);
        assert(s.drop_last() =~= Seq::<char>::empty());
        assert(dec_val(Seq::<char>::empty()) == 0);
        assert(dec_val(s) == dec_val(s.drop_last()) * 10 + char_digit(s.last()));
        assert(s.last() == digit_char(n));
        assert(char_digit(digit_char(n)) == n);
    } else {
        lemma_div_is_strictly_smaller(n, 10);
        vstd::arithmetic::div_mod::lemma_div_pos_is_pos(n, 10);
        lemma_dec_val_of_rep(n / 10);
        let s = dec_rep(n);
        assert(s.drop_last() =~= dec_rep(n / 10));
        assert(s.last() == digit_char(n % 10));
        assert(char_digit(digit_char(n % 10)) == n % 10);
        lemma_fundamental_div_mod(n, 10);
    }
}

/// Relies on `String::push` from std: appends exactly the given character
/// to the end of the string.
#[verifier::external_body]
pub(crate) fn push_char(s: &mut String, c: char)
    ensures
        final(s)@ == old(s)@.push(c),
{
    s.push(c);
}

/// Appends the canonical decimal representation of `n` to `s`.
pub fn push_u64(s: &mut String, n: u64)
    ensures
        final(s)@ == old(s)@ + dec_rep(n as int),
    decreases n,
{
    if n >= 10 {
        proof {
            lemma_div_is_strictly_smaller(n as int, 10);
            vstd::arithmetic::div_mod::lemma_div_pos_is_pos(n as int, 10);
        }
        push_u64(s, n / 10);
    }
    let d: u64 = n % 10;
    let c: char = if d == 0 {
        '0'
    } else if d == 1 {
        '1'
    } else if d == 2 {
        '2'
    } else if d == 3 {
        '3'
    } else if d == 4 {
        '4'
    } else if d == 5 {
        '5'
    } else if d == 6 {
        '6'
    } else if d == 7 {
        '7'
    } else if d == 8 {
        '8'
    } else {
        '9'
    };
    proof {
        if n < 10 {
            assert(old(s)@ + dec_rep(n as int) =~= old(s)@.push(c));
        } else {
            assert(old(s)@ + dec_rep(n as int) =~= (old(s)@ + dec_rep(n as int / 10)).push(c));
        }
    }
    push_char(s, c);
}

/// Renders `n` as its canonical decimal string.
pub fn u64_to_string(n: u64) -> (r: String)
    ensures
        r@ == dec_rep(n as int),
{
    let mut s = String::new();
    push_u64(&mut s, n);
    proof {
        assert(Seq::<char>::empty() + dec_rep(n as int) =~= dec_rep(n as int));
    }
    s
}

/// Parses a string of decimal digits into a `u64`. Returns `None` when the
/// string is empty, holds a non-digit character, or denotes a value that
/// does not fit in a `u64`.
pub fn parse_u64(s: &str) -> (r: Option<u64>)
    ensures
        r is Some <==> (s@.len() >= 1 && all_digits(s@) && dec_val(s@) <= u64::MAX),
        r matches Some(v) ==> v == dec_val(s@),
{
    let len = s.unicode_len();
    if len == 0 {
        return None;
    }
    let mut acc: u64 = 0;
    let mut i: usize = 0;
    while i < len
        invariant
            0 <= i <= len,
            len == s@.len(),
            all_digits(s@.take(i as int)),
            acc == dec_val(s@.take(i as int)),
        decreases len - i,
    {
        let c = s.get_char(i);
        let d: u64 = if c == '0' {
            0
        } else if c == '1' {
            1
        } else if c == '2' {
            2
        } else if c == '3' {
            3
        } else if c == '4' {
            4
        } else if c == '5' {
            5
        } else if c == '6' {
            6
        } else if c == '7' {
            7
        } else if c == '8' {
            8
        } else if c == '9' {
            9
        } else {
            proof {
                assert(!is_digit_char(s@[i as int]));
            }
            return None;
        };
        proof {
            assert(char_digit(c) == d);
            assert(s@.take(i + 1).drop_last() =~= s@.take(i as int));
            assert(s@.take(i + 1).last() == c);
            assert(dec_val(s@.take(i + 1)) == acc * 10 + d);
        }
        let shifted = match acc.checked_mul(10) {
            Some(x) => x,
            None => {
                proof {
                    lemma_dec_val_stays_large(s@, i + 1);
                }
                return None;
            },
        };
        acc = match shifted.checked_add(d) {
            Some(x) => x,
            None => {
                proof {
                    lemma_dec_val_stays_large(s@, i + 1);
                }
                return None;
            },
        };
        i += 1;
    }
    proof {
        assert(s@.take(len as int) =~= s@);
    }
    Some(acc)
}

/// Once a prefix of the string already denotes a value too large for
/// `u64`, the whole string does too, whatever characters follow.
proof fn lemma_dec_val_stays_large(s: Seq<char>, i: int)
    requires
        0 <= i <= s.len(),
        dec_val(s.take(i)) > u64::MAX,
    ensures
        dec_val(s) > u64::MAX,
    decreases s.len() - i,
{
    if i < s.len() {
        assert(s.take(i + 1).drop_last() =~= s.take(i));
        assert(s.take(i + 1).last() == s[i]);
        assert(char_digit(s[i]) >= -1);
        assert(dec_val(s.take(i + 1)) == dec_val(s.take(i)) * 10 + char_digit(s[i]));
        lemma_dec_val_stays_large(s, i + 1);
    } else {
        assert(s.take(i) =~= s);
    }
}

/// Splits a character sequence at every occurrence of `sep`. The result
/// always holds one more piece than there are separators; pieces can be
/// empty.
pub open spec fn split_by(s: Seq<char>, sep: char) -> Seq<Seq<char>>
    decreases s.len(),
{
    if s.len() == 0 {
        seq![Seq::<char>::empty()]
    } else if s[0] == sep {
        seq![Seq::<char>::empty()] + split_by(s.drop_first(), sep)
    } else {
        let rest = split_by(s.drop_first(), sep);
        seq![seq![s[0]] + rest[0]] + rest.drop_first()
    }
}

/// Joins pieces with a single separator between consecutive pieces.
pub open spec fn join_by(fs: Seq<Seq<char>>, sep: char) -> Seq<char>
    decreases fs.len(),
{
    if fs.len() == 0 {
        Seq::<char>::empty()
    } else if fs.len() == 1 {
        fs[0]
    } else {
        fs[0] + seq![sep] + join_by(fs.drop_first(), sep)
    }
}

pub open spec fn sep_free(s: Seq<char>, sep: char) -> bool {
    forall|i: int| 0 <= i < s.len() ==> #[trigger] s[i] != sep
}

pub proof fn lemma_split_by_basic(s: Seq<char>, sep: char)
    ensures
        split_by(s, sep).len() >= 1,
        forall|k: int|
            0 <= k < split_by(s, sep).len() ==> sep_free(#[trigger] split_by(s, sep)[k], sep),
    decreases s.len(),
{
    if s.len() == 0 {
    } else {
        lemma_split_by_basic(s.drop_first(), sep);
        if s[0] == sep {
        } else {
            let rest = split_by(s.drop_first(), sep);
            let r = split_by(s, sep);
            assert forall|k: int| 0 <= k < r.len() implies sep_free(#[trigger] r[k], sep) by {
                if k == 0 {
                    assert(sep_free(rest[0], sep));
                    assert(forall|i: int|
                        1 <= i < r[0].len() ==> #[trigger] r[0][i] == rest[0][i - 1]);
                } else {
                    assert(r[k] == rest[k]);
                }
            };
        }
    }
}

/// Splitting a joined sequence of separator-free pieces recovers exactly
/// those pieces.
pub proof fn lemma_split_of_join(fs: Seq<Seq<char>>, sep: char)
    requires
        fs.len() >= 1,
        forall|k: int| 0 <= k < fs.len() ==> sep_free(#[trigger] fs[k], sep),
    ensures
        split_by(join_by(fs, sep), sep) == fs,
    decreases fs.len(), fs[0].len(),
{
    let s = join_by(fs, sep);
    if fs.len() == 1 {
        lemma_split_of_single(fs[0], sep);
        assert(split_by(s, sep) =~~= fs);
    } else {
        if fs[0].len() == 0 {
            assert(s =~= Seq::<char>::empty() + seq![sep] + join_by(fs.drop_first(), sep));
            assert(s.len() > 0 && s[0] == sep);
            assert(s.drop_first() =~= join_by(fs.drop_first(), sep));
            lemma_split_of_join(fs.drop_first(), sep);
            assert(split_by(s, sep) =~~= seq![Seq::<char>::empty()] + split_by(
                s.drop_first(),
                sep,
            ));
            assert(split_by(s, sep) =~~= fs);
        } else {
            let fs2 = fs.update(0, fs[0].drop_first());
            assert(forall|k: int| 0 <= k < fs2.len() ==> sep_free(#[trigger] fs2[k], sep)) by {
                assert(forall|i: int| 0 <= i < fs2[0].len() ==> fs2[0][i] == fs[0][i + 1]);
                assert(sep_free(fs2[0], sep));
                assert(forall|k: int| 1 <= k < fs2.len() ==> fs2[k] == fs[k]);
            };
            assert(fs2[0].len() < fs[0].len());
            lemma_split_of_join(fs2, sep);
            assert(s.len() > 0);
            assert(s[0] == fs[0][0]);
            assert(s[0] != sep);
            assert(s.drop_first() =~= join_by(fs2, sep)) by {
                assert(join_by(fs2, sep) =~= fs2[0] + seq![sep] + join_by(fs2.drop_first(), sep));
                assert(fs2.drop_first() =~= fs.drop_first());
                assert(s =~= fs[0] + seq![sep] + join_by(fs.drop_first(), sep));
            };
            let rest = split_by(s.drop_first(), sep);
            assert(rest == fs2);
            assert(split_by(s, sep) =~= seq![seq![s[0]] + rest[0]] + rest.drop_first());
            assert(seq![s[0]] + rest[0] =~= fs[0]);
            assert(rest.drop_first() =~= fs.drop_first());
            assert(split_by(s, sep) =~~= fs);
        }
    }
}

proof fn lemma_split_of_single(f: Seq<char>, sep: char)
    requires
        sep_free(f, sep),
    ensures
        split_by(f, sep) == seq![f],
    decreases f.len(),
{
    if f.len() == 0 {
        assert(split_by(f, sep) =~~= seq![f]);
    } else {
        assert(sep_free(f.drop_first(), sep)) by {
            assert(forall|i: int| 0 <= i < f.len() - 1 ==> f.drop_first()[i] == f[i + 1]);
        };
        lemma_split_of_single(f.drop_first(), sep);
        let rest = split_by(f.drop_first(), sep);
        assert(rest == seq![f.drop_first()]);
        assert(seq![f[0]] + rest[0] =~= f);
        assert(split_by(f, sep) =~~= seq![f]);
    }
}

/// Splits a string at every occurrence of `sep`, yielding owned pieces.
pub fn split_str(s: &str, sep: char) -> (r: Vec<String>)
    ensures
        r.deep_view() == split_by(s@, sep),
    decreases s@.len(),
{
    let len = s.unicode_len();
    if len == 0 {
        let mut r: Vec<String> = Vec::new();
        r.push(String::new());
        proof {
            assert(r.deep_view() =~= split_by(s@, sep));
        }
        return r;
    }
    let c = s.get_char(0);
    let tail = s.substring_char(1, len);
    proof {
        assert(tail@ =~= s@.drop_first());
    }
    let mut rest = split_str(tail, sep);
    if c == sep {
        let mut r: Vec<String> = Vec::new();
        r.push(String::new());
        let mut k: usize = 0;
        while k < rest.len()
            invariant
                0 <= k <= rest.len(),
                r.len() == k + 1,
                r@[0]@ == Seq::<char>::empty(),
                forall|j: int| 0 <= j < k ==> r@[j + 1]@ == #[trigger] rest@[j]@,
            decreases rest.len() - k,
        {
            let piece = rest[k].clone();
            r.push(piece);
            k += 1;
        }
        proof {
            assert(r.deep_view() =~= seq![Seq::<char>::empty()] + rest.deep_view());
            assert(rest.deep_view() == split_by(s@.drop_first(), sep));
        }
        r
    } else {
        proof {
            lemma_split_by_basic(s@.drop_first(), sep);
            assert(rest.deep_view().len() >= 1);
            assert(rest.len() == rest.deep_view().len());
        }
        let mut first = String::new();
        push_char(&mut first, c);
        first.append(rest[0].as_str());
        let mut r: Vec<String> = Vec::new();
        r.push(first);
        let mut k: usize = 1;
        while k < rest.len()
            invariant
                1 <= k <= rest.len(),
                r.len() == k,
                r@[0]@ == seq![c] + rest@[0]@,
                forall|j: int| 1 <= j < k ==> r@[j]@ == #[trigger] rest@[j]@,
            decreases rest.len() - k,
        {
            let piece = rest[k].clone();
            r.push(piece);
            k += 1;
        }
        proof {
            let spec_rest = split_by(s@.drop_first(), sep);
            assert(r@[0]@ =~= seq![c] + spec_rest[0]) by {
                assert(Seq::<char>::empty().push(c) =~= seq![c]);
            };
            assert(r.deep_view() =~= seq![seq![s@[0]] + spec_rest[0]] + spec_rest.drop_first());
        }
        r
    }
}

} // verus!
