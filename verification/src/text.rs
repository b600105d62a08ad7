//! Conversions between strings and sequences of characters.
use vstd::prelude::*;

verus! {

/// The characters of `s`, in order.
pub fn chars_of(s: &str) -> (v: Vec<char>)
    ensures
        v@ == s@,
{
    let mut v: Vec<char> = Vec::new();
    for c in it: s.chars()
        invariant
            v@ == it.seq().take(it.index()),
            it.seq() == s@,
    {
        v.push(c);
    }
    v
}

/// `String::from_iter` over the characters of a vector: the string made of
/// exactly these characters, in order.
#[verifier::external_body]
pub(crate) fn string_of(chars: &Vec<char>) -> (s: String)
    ensures
        s@ == chars@,
{
    String::from_iter(chars.iter())
}

/// What `str::to_lowercase` returns for a string with these characters.
pub uninterp spec fn lowercase_of(s: Seq<char>) -> Seq<char>;

/// `str::to_lowercase`: the lowercase equivalent of the string, as Unicode
/// defines it. The contract only names the result.
#[verifier::external_body]
pub(crate) fn lowercase(s: &str) -> (r: String)
    ensures
        r@ == lowercase_of(s@),
{
    s.to_lowercase()
}

/// Whether a character is one of `'0'..='9'`.
pub open spec fn is_digit(c: char) -> bool {
    '0' <= c && c <= '9'
}

/// The number that a string of decimal digits stands for, and `None` where a
/// character is no digit. The empty string stands for zero.
pub open spec fn digits_value(s: Seq<char>) -> Option<nat>
    decreases s.len(),
{
    if s.len() == 0 {
        Some(0)
    } else {
        match digits_value(s.drop_last()) {
            Some(v) => if is_digit(s.last()) {
                Some((10 * v + (s.last() as int - 48)) as nat)
            } else {
                None
            },
            None => None,
        }
    }
}

/// The unsigned 64-bit number that a string stands for: an optional `+`,
/// then at least one decimal digit and nothing else, with a value that fits.
pub open spec fn parsed_u64(s: Seq<char>) -> Option<u64> {
    let digits = if s.len() > 0 && s[0] == '+' {
        s.skip(1)
    } else {
        s
    };
    if digits.len() == 0 {
        None
    } else {
        match digits_value(digits) {
            Some(v) => if v <= u64::MAX {
                Some(v as u64)
            } else {
                None
            },
            None => None,
        }
    }
}

/// The decimal digits of a number, without leading zeros.
pub open spec fn decimal_digits(n: nat) -> Seq<char>
    decreases n,
{
    if n < 10 {
        seq![(48 + n) as char]
    } else {
        decimal_digits(n / 10).push((48 + n % 10) as char)
    }
}

proof fn lemma_digits_value_prefix(s: Seq<char>, k: int)
    requires
        0 <= k <= s.len(),
        digits_value(s) is Some,
    ensures
        digits_value(s.take(k)) is Some,
        digits_value(s.take(k))->Some_0 <= digits_value(s)->Some_0,
    decreases s.len(),
{
    if k == s.len() {
        assert(s.take(k) =~= s);
    } else {
        lemma_digits_value_prefix(s.drop_last(), k);
        assert(s.drop_last().take(k) =~= s.take(k));
    }
}

/// Reading the decimal digits of a number gives the number back.
pub proof fn lemma_decimal_round_trip(n: nat)
    ensures
        decimal_digits(n).len() > 0,
        decimal_digits(n)[0] != '+',
        digits_value(decimal_digits(n)) == Some(n),
        n <= u64::MAX ==> parsed_u64(decimal_digits(n)) == Some(n as u64),
    decreases n,
{
    if n < 10 {
        let d = decimal_digits(n);
        assert(d.drop_last() =~= Seq::<char>::empty());
        assert(digits_value(d.drop_last()) == Some(0nat));
    } else {
        lemma_decimal_round_trip(n / 10);
        let d = decimal_digits(n);
        assert(d.drop_last() =~= decimal_digits(n / 10));
        assert(d[0] == decimal_digits(n / 10)[0]);
    }
}

/// The decimal text of a number.
pub fn decimal_text(n: u64) -> (s: String)
    ensures
        s@ == decimal_digits(n as nat),
{
    let mut low_first: Vec<char> = Vec::new();
    let mut rest: u64 = n;
    low_first.push((48 + (rest % 10) as u8) as char);
    rest = rest / 10;
    while rest > 0
        invariant
            low_first@.len() > 0,
            decimal_digits(n as nat) == (if rest > 0 {
                decimal_digits(rest as nat)
            } else {
                Seq::<char>::empty()
            }) + low_first@.reverse(),
        decreases rest,
    {
        let ghost before = low_first@;
        low_first.push((48 + (rest % 10) as u8) as char);
        proof {
            let d = (48 + rest % 10) as char;
            assert(low_first@.reverse() =~= seq![d] + before.reverse());
            let next = (rest / 10) as nat;
            if next > 0 {
                assert(decimal_digits(rest as nat) =~= decimal_digits(next) + seq![d]);
            } else {
                assert(decimal_digits(rest as nat) =~= seq![d]);
            }
            assert(decimal_digits(n as nat) =~= (if next > 0 {
                decimal_digits(next)
            } else {
                Seq::<char>::empty()
            }) + low_first@.reverse());
        }
        rest = rest / 10;
    }
    let mut out: Vec<char> = Vec::new();
    let mut i: usize = low_first.len();
    while i > 0
        invariant
            i <= low_first@.len(),
            out@ == low_first@.reverse().take(low_first@.len() - i),
        decreases i,
    {
        i = i - 1;
        out.push(low_first[i]);
        assert(out@ =~= low_first@.reverse().take(low_first@.len() - i));
    }
    assert(out@ =~= low_first@.reverse());
    assert(decimal_digits(n as nat) =~= low_first@.reverse());
    string_of(&out)
}

/// Reads an unsigned 64-bit number from its decimal text.
pub fn parse_decimal(s: &str) -> (n: Option<u64>)
    ensures
        n == parsed_u64(s@),
{
    let chars = chars_of(s);
    let start: usize = if chars.len() > 0 && chars[0] == '+' {
        1
    } else {
        0
    };
    if chars.len() == start {
        return None;
    }
    let ghost digits = if s@.len() > 0 && s@[0] == '+' {
        s@.skip(1)
    } else {
        s@
    };
    assert(digits =~= chars@.skip(start as int));
    let mut value: u64 = 0;
    let mut i: usize = start;
    while i < chars.len()
        invariant
            start <= i <= chars.len(),
            start < chars.len(),
            chars@ == s@,
            start == (if s@.len() > 0 && s@[0] == '+' {
                1int
            } else {
                0int
            }),
            digits == chars@.skip(start as int),
            digits == (if s@.len() > 0 && s@[0] == '+' {
                s@.skip(1)
            } else {
                s@
            }),
            digits_value(digits.take(i - start)) == Some(value as nat),
        decreases chars.len() - i,
    {
        let c: char = chars[i];
        let ghost head = digits.take(i + 1 - start);
        proof {
            assert(head.drop_last() =~= digits.take(i - start));
            assert(head.last() == c);
        }
        if !('0' <= c && c <= '9') {
            proof {
                assert(digits_value(head) is None);
                if digits_value(digits) is Some {
                    lemma_digits_value_prefix(digits, i + 1 - start);
                }
            }
            return None;
        }
        let d: u64 = (c as u32 - 48) as u64;
        if value > (u64::MAX - d) / 10 {
            proof {
                assert(digits_value(head) == Some((10 * value + d) as nat));
                assert(10 * value + d > u64::MAX);
                if digits_value(digits) is Some {
                    lemma_digits_value_prefix(digits, i + 1 - start);
                }
            }
            return None;
        }
        value = 10 * value + d;
        i = i + 1;
    }
    assert(digits.take(i - start) =~= digits);
    Some(value)
}

/// Pairs of a name and a value, as sequences of characters.
pub open spec fn pairs_of(v: Seq<(String, String)>) -> Seq<(Seq<char>, Seq<char>)> {
    Seq::new(v.len(), |i: int| (v[i].0@, v[i].1@))
}

/// The value under `name`: that of the last pair with this name, as in a map
/// that was filled pair by pair.
pub open spec fn pair_value(pairs: Seq<(Seq<char>, Seq<char>)>, name: Seq<char>) -> Option<Seq<char>>
    decreases pairs.len(),
{
    if pairs.len() == 0 {
        None
    } else if pairs.last().0 == name {
        Some(pairs.last().1)
    } else {
        pair_value(pairs.drop_last(), name)
    }
}

/// Looks `name` up among the pairs.
pub fn find_value(pairs: &Vec<(String, String)>, name: &str) -> (found: Option<String>)
    ensures
        match found {
            Some(v) => pair_value(pairs_of(pairs@), name@) == Some(v@),
            None => pair_value(pairs_of(pairs@), name@) is None,
        },
{
    let wanted = String::from_str(name);
    let ghost all = pairs_of(pairs@);
    let mut i: usize = pairs.len();
    assert(all.take(i as int) =~= all);
    while i > 0
        invariant
            i <= pairs@.len(),
            all == pairs_of(pairs@),
            wanted@ == name@,
            pair_value(all, name@) == pair_value(all.take(i as int), name@),
        decreases i,
    {
        let ghost head = all.take(i as int);
        proof {
            assert(head.last() == all[i - 1]);
            assert(head.drop_last() =~= all.take(i - 1));
        }
        i = i - 1;
        if pairs[i].0 == wanted {
            return Some(pairs[i].1.clone());
        }
    }
    proof {
        assert(all.take(0) =~= Seq::<(Seq<char>, Seq<char>)>::empty());
    }
    None
}

/// The pieces of `s` between the occurrences of `sep`: one more piece than
/// there are separators, each possibly empty.
pub open spec fn split_on(s: Seq<char>, sep: char) -> Seq<Seq<char>>
    decreases s.len(),
{
    if s.len() == 0 {
        seq![Seq::<char>::empty()]
    } else {
        let head = split_on(s.drop_last(), sep);
        if s.last() == sep {
            head.push(Seq::<char>::empty())
        } else {
            head.drop_last().push(head.last().push(s.last()))
        }
    }
}

/// The character sequences of a vector of character vectors.
pub open spec fn rows_of(v: Seq<Vec<char>>) -> Seq<Seq<char>> {
    Seq::new(v.len(), |i: int| v[i]@)
}

/// Splits the characters at every occurrence of `sep`.
pub fn split_chars(chars: &Vec<char>, sep: char) -> (pieces: Vec<Vec<char>>)
    ensures
        rows_of(pieces@) == split_on(chars@, sep),
{
    let mut pieces: Vec<Vec<char>> = Vec::new();
    let mut current: Vec<char> = Vec::new();
    let mut i: usize = 0;
    assert(chars@.take(0) =~= Seq::<char>::empty());
    assert(rows_of(pieces@).push(current@) =~= split_on(chars@.take(0), sep));
    while i < chars.len()
        invariant
            i <= chars@.len(),
            rows_of(pieces@).push(current@) == split_on(chars@.take(i as int), sep),
        decreases chars@.len() - i,
    {
        let c: char = chars[i];
        let ghost before = chars@.take(i as int);
        let ghost done = rows_of(pieces@);
        let ghost open = current@;
        proof {
            let next = chars@.take(i + 1);
            assert(next.drop_last() =~= before);
            assert(next.last() == c);
            assert(done.push(open).drop_last() =~= done);
            assert(done.push(open).last() == open);
        }
        if c == sep {
            pieces.push(current);
            current = Vec::new();
            proof {
                assert(rows_of(pieces@) =~= done.push(open));
            }
        } else {
            current.push(c);
            proof {
                assert(rows_of(pieces@) =~= done);
            }
        }
        i = i + 1;
    }
    assert(chars@.take(i as int) =~= chars@);
    let ghost done = rows_of(pieces@);
    let ghost open = current@;
    pieces.push(current);
    assert(rows_of(pieces@) =~= done.push(open));
    pieces
}

} // verus!
