//! Reading a `u8` from its digits, with the rules of `u8::from_str_radix`
//! (and so of `str::parse::<u8>` for radix 10).
use vstd::prelude::*;

verus! {

/// The value of `c` as a digit in `radix` (2 to 36): `0`-`9`, then letters
/// of either case, as `char::to_digit` reads them.
pub open spec fn digit_value(c: char, radix: u32) -> Option<u32> {
    let u = c as u32;
    let d: u32 = if 0x30 <= u <= 0x39 {
        (u - 0x30) as u32
    } else if 0x61 <= u <= 0x7a {
        (u - 0x61 + 10) as u32
    } else if 0x41 <= u <= 0x5a {
        (u - 0x41 + 10) as u32
    } else {
        99
    };
    if d < radix {
        Some(d)
    } else {
        None
    }
}

/// The number that the digits `s` denote in `radix`, most significant first;
/// `None` if one of them is not a digit.
pub open spec fn digits_value(s: Seq<char>, radix: u32) -> Option<nat>
    decreases s.len(),
{
    if s.len() == 0 {
        Some(0)
    } else {
        match (digits_value(s.drop_last(), radix), digit_value(s.last(), radix)) {
            (Some(v), Some(d)) => Some(v * radix as nat + d as nat),
            _ => None,
        }
    }
}

/// What `u8::from_str_radix(s, radix)` gives back when it succeeds: an
/// optional `+`, then at least one digit, denoting at most 255.
pub open spec fn parse_u8_radix(s: Seq<char>, radix: u32) -> Option<u8> {
    if s.len() == 0 {
        None
    } else {
        let digits = if s[0] == '+' {
            s.drop_first()
        } else {
            s
        };
        if digits.len() == 0 {
            None
        } else {
            match digits_value(digits, radix) {
                Some(v) => if v <= 255 {
                    Some(v as u8)
                } else {
                    None
                },
                None => None,
            }
        }
    }
}

/// A digit string's value is no smaller than that of any of its prefixes.
pub proof fn lemma_digits_value_prefix(s: Seq<char>, radix: u32, k: int)
    requires
        radix >= 1,
        0 <= k <= s.len(),
        digits_value(s, radix) is Some,
    ensures
        digits_value(s.take(k), radix) is Some,
        digits_value(s.take(k), radix).unwrap() <= digits_value(s, radix).unwrap(),
    decreases s.len(),
{
    if k == s.len() {
        assert(s.take(k) =~= s);
    } else {
        let p = s.drop_last();
        assert(p.take(k) =~= s.take(k));
        lemma_digits_value_prefix(p, radix, k);
        let v = digits_value(p, radix).unwrap();
        let d = digit_value(s.last(), radix).unwrap();
        assert(v * radix as nat + d as nat >= v) by (nonlinear_arith)
            requires
                radix >= 1,
        ;
    }
}

/// The value of `c` as a digit in `radix`.
pub fn to_digit(c: char, radix: u32) -> (r: Option<u32>)
    requires
        2 <= radix <= 36,
    ensures
        r == digit_value(c, radix),
{
    let u = c as u32;
    let d: u32 = if 0x30 <= u && u <= 0x39 {
        u - 0x30
    } else if 0x61 <= u && u <= 0x7a {
        u - 0x61 + 10
    } else if 0x41 <= u && u <= 0x5a {
        u - 0x41 + 10
    } else {
        99
    };
    if d < radix {
        Some(d)
    } else {
        None
    }
}

/// Reads `text[lo..hi]` as a `u8` in `radix`.
pub fn parse_u8_range(text: &Vec<char>, lo: usize, hi: usize, radix: u32) -> (r: Option<u8>)
    requires
        lo <= hi <= text@.len(),
        2 <= radix <= 16,
    ensures
        r == parse_u8_radix(text@.subrange(lo as int, hi as int), radix),
{
    let ghost s = text@.subrange(lo as int, hi as int);
    if lo == hi {
        return None;
    }
    let start = if text[lo] == '+' {
        lo + 1
    } else {
        lo
    };
    let ghost digits = text@.subrange(start as int, hi as int);
    assert(s[0] == '+' ==> s.drop_first() =~= digits);
    assert(s[0] != '+' ==> s =~= digits);
    if start == hi {
        return None;
    }
    let ghost expected = match digits_value(digits, radix) {
        Some(v) => if v <= 255 {
            Some(v as u8)
        } else {
            None
        },
        None => None,
    };
    assert(parse_u8_radix(s, radix) == expected);
    let mut acc: u32 = 0;
    let mut i = start;
    assert(text@.subrange(start as int, start as int) =~= Seq::<char>::empty());
    while i < hi
        invariant
            lo <= start <= i <= hi <= text@.len(),
            2 <= radix <= 16,
            digits == text@.subrange(start as int, hi as int),
            s == text@.subrange(lo as int, hi as int),
            parse_u8_radix(s, radix) == expected,
            expected == match digits_value(digits, radix) {
                Some(v) => if v <= 255 {
                    Some(v as u8)
                } else {
                    None
                },
                None => None,
            },
            acc <= 255,
            digits_value(text@.subrange(start as int, i as int), radix) == Some(acc as nat),
        decreases hi - i,
    {
        let ghost pre = text@.subrange(start as int, i + 1);
        assert(pre.drop_last() =~= text@.subrange(start as int, i as int));
        assert(pre.last() == text@[i as int]);
        match to_digit(text[i], radix) {
            None => {
                proof {
                    assert(digits_value(pre, radix) is None);
                    assert(digits.take(i + 1 - start) =~= pre);
                    if digits_value(digits, radix) is Some {
                        lemma_digits_value_prefix(digits, radix, i + 1 - start);
                    }
                }
                return None;
            },
            Some(d) => {
                assert(acc * radix <= 255 * 16) by (nonlinear_arith)
                    requires
                        acc <= 255,
                        radix <= 16,
                ;
                let next = acc * radix + d;
                if next > 255 {
                    proof {
                        assert(digits.take(i + 1 - start) =~= pre);
                        if digits_value(digits, radix) is Some {
                            lemma_digits_value_prefix(digits, radix, i + 1 - start);
                        }
                    }
                    return None;
                }
                acc = next;
            },
        }
        i = i + 1;
    }
    assert(text@.subrange(start as int, i as int) =~= digits);
    Some(acc as u8)
}


/// The character of the digit `d` (below 16): `0`-`9`, then `a`-`f`.
pub open spec fn digit_char(d: nat) -> char {
    if d == 0 {
        '0'
    } else if d == 1 {
        '1'
    } else if d == 2 {
        '2'
    } else if d == 3 {
        '3'
    } else if d == 4 {
        '4'
    } else if d == 5 {
        '5'
    } else if d == 6 {
        '6'
    } else if d == 7 {
        '7'
    } else if d == 8 {
        '8'
    } else if d == 9 {
        '9'
    } else if d == 10 {
        'a'
    } else if d == 11 {
        'b'
    } else if d == 12 {
        'c'
    } else if d == 13 {
        'd'
    } else if d == 14 {
        'e'
    } else {
        'f'
    }
}

/// The numeral of `n` in `radix` (2 to 16), most significant digit first,
/// without leading zeros.
pub open spec fn numeral(n: nat, radix: nat) -> Seq<char>
    decreases n,
{
    if n < radix || radix < 2 {
        seq![digit_char(n)]
    } else {
        proof {
            assert(n / radix < n) by (nonlinear_arith)
                requires
                    radix >= 2,
                    n >= radix,
            ;
        }
        numeral(n / radix, radix).push(digit_char(n % radix))
    }
}

/// Each digit below the radix reads back as itself.
pub proof fn law_digit_chars_read_back(d: nat, radix: u32)
    requires
        2 <= radix <= 16,
        d < radix,
    ensures
        digit_value(digit_char(d), radix) == Some(d as u32),
{
}

/// The decimal digits `0`-`9` are digits of value `c - '0'` in every radix
/// above that value, and of none below it.
pub proof fn law_decimal_digit_value(c: char, radix: u32)
    requires
        '0' <= c <= '9',
        2 <= radix <= 36,
    ensures
        digit_value(c, radix) == if (c as u32) - 48 < radix {
            Some(((c as u32) - 48) as u32)
        } else {
            None
        },
{
}

/// A numeral is nonempty, is made of digit characters, and denotes its number.
pub proof fn lemma_numeral_digits(n: nat, radix: nat)
    requires
        2 <= radix <= 16,
    ensures
        numeral(n, radix).len() >= 1,
        forall|i: int|
            0 <= i < numeral(n, radix).len() ==> {
                let u = #[trigger] numeral(n, radix)[i] as u32;
                (0x30 <= u <= 0x39) || (0x61 <= u <= 0x66)
            },
        digits_value(numeral(n, radix), radix as u32) == Some(n),
    decreases n,
{
    if n >= radix {
        lemma_numeral_digits(n / radix, radix);
        let q = numeral(n / radix, radix);
        assert(numeral(n, radix).drop_last() =~= q);
        assert(n % radix < radix);
        law_digit_chars_read_back(n % radix, radix as u32);
        assert((n / radix) * radix + n % radix == n) by (nonlinear_arith)
            requires
                radix > 0,
        ;
        assert(numeral(n, radix).last() == digit_char(n % radix));
        assert((radix as u32) as nat == radix);
        assert(digits_value(numeral(n, radix), radix as u32) == Some(
            (n / radix) * radix + n % radix,
        ));
        assert forall|i: int| 0 <= i < numeral(n, radix).len() implies {
            let u = #[trigger] numeral(n, radix)[i] as u32;
            (0x30 <= u <= 0x39) || (0x61 <= u <= 0x66)
        } by {
            if i < q.len() {
                assert(numeral(n, radix)[i] == q[i]);
            }
        }
    } else {
        law_digit_chars_read_back(n, radix as u32);
        assert(seq![digit_char(n)].drop_last() =~= Seq::<char>::empty());
        assert(digits_value(Seq::<char>::empty(), radix as u32) == Some(0nat));
        assert(0nat * radix == 0nat);
    }
}

/// Every `u8` reads back from its numeral in radix 2 to 16 (lowercase
/// digits), with or without a leading `+`.
pub proof fn law_numerals_read_back(n: u8, radix: u32)
    requires
        2 <= radix <= 16,
    ensures
        parse_u8_radix(numeral(n as nat, radix as nat), radix) == Some(n),
        parse_u8_radix(seq!['+'] + numeral(n as nat, radix as nat), radix) == Some(n),
{
    let t = numeral(n as nat, radix as nat);
    lemma_numeral_digits(n as nat, radix as nat);
    assert(t[0] != '+') by {
        let u = t[0] as u32;
        assert((0x30 <= u <= 0x39) || (0x61 <= u <= 0x66));
    }
    let p = seq!['+'] + t;
    assert(p[0] == '+');
    assert(p.drop_first() =~= t);
}

/// A digit string that denotes more than 255 is refused.
pub proof fn law_large_numbers_refused(s: Seq<char>, radix: u32)
    requires
        s.len() > 0,
        s[0] != '+',
        digits_value(s, radix) matches Some(v) && v > 255,
    ensures
        parse_u8_radix(s, radix) is None,
{
}

} // verus!
