//! Component addressing: the four-digit path tuple that locates one
//! section inside the queue's directory tree.
//!
//! A component `(c0, c1, c2, c3)` has `c0` in `{0, 1}` and the other
//! digits in `[0, 999]`. Its encoding packs the digits in base 1000,
//! so every component fits a signed 32-bit integer, and the successor
//! order of components is exactly the numeric order of encodings.

use vstd::prelude::*;
use vstd::string::*;

use crate::error::Error;

verus! {

/// One more than the largest digit a component may hold.
pub const MAX_COMPONENT_VALUE: u16 = 1000;

/// The largest encoded component, `encode((1, 999, 999, 999))`.
pub const MAX_COMPONENT_ENCODED_VALUE: u32 = 1_999_999_999;

/// A path to one section file, split into four digits counting from
/// `(0, 0, 0, 0)`.
#[derive(Debug, Clone, Copy, PartialEq, Eq, Structural)]
pub struct Component {
    one: u16,
    two: u16,
    three: u16,
    four: u16,
}

impl Component {
    /// Digit bounds that every constructed component satisfies.
    pub closed spec fn wf(&self) -> bool {
        self.one <= 1 && self.two < 1000 && self.three < 1000 && self.four < 1000
    }

    /// The base-1000 packing of the digits, as a mathematical integer.
    pub closed spec fn spec_encode(&self) -> int {
        self.one * 1_000_000_000 + self.two * 1_000_000 + self.three * 1000 + self.four
    }

    /// The component whose encoding is `n`.
    pub closed spec fn spec_decode(n: int) -> Component {
        Component {
            one: (n / 1_000_000_000) as u16,
            two: ((n % 1_000_000_000) / 1_000_000) as u16,
            three: ((n % 1_000_000) / 1000) as u16,
            four: (n % 1000) as u16,
        }
    }

    /// The first component: all digits zero.
    pub fn new() -> (c: Component)
        ensures
            c.wf(),
            c.spec_encode() == 0,
    {
        Component { one: 0, two: 0, three: 0, four: 0 }
    }

    /// Validated construction from four digits. Fails exactly when a
    /// digit is out of range.
    pub fn from(one: u16, two: u16, three: u16, four: u16) -> (r: Result<Component, Error>)
        ensures
            (one <= 1 && two < 1000 && three < 1000 && four < 1000) ==> (r matches Ok(c) && c.wf()
                && c.spec_encode() == one * 1_000_000_000 + two * 1_000_000 + three * 1000 + four),
            !(one <= 1 && two < 1000 && three < 1000 && four < 1000) ==> r == Err::<
                Component,
                Error,
            >(Error::CorruptData),
            r matches Ok(c) ==> c.wf(),
    {
        if one <= 1 && two < MAX_COMPONENT_VALUE && three < MAX_COMPONENT_VALUE && four
            < MAX_COMPONENT_VALUE {
            Ok(Component { one, two, three, four })
        } else {
            Err(Error::CorruptData)
        }
    }

    /// The 32-bit encoding of this component.
    pub fn encode(&self) -> (n: u32)
        requires
            self.wf(),
        ensures
            n == self.spec_encode(),
            n <= MAX_COMPONENT_ENCODED_VALUE,
    {
        self.one as u32 * 1_000_000_000 + self.two as u32 * 1_000_000 + self.three as u32 * 1000
            + self.four as u32
    }

    /// Recovers a component from its encoding. Fails exactly when the
    /// encoding exceeds the maximum.
    pub fn decode(encoded: u32) -> (r: Result<Component, Error>)
        ensures
            encoded <= MAX_COMPONENT_ENCODED_VALUE ==> r == Ok::<Component, Error>(
                Component::spec_decode(encoded as int),
            ),
            encoded > MAX_COMPONENT_ENCODED_VALUE ==> r == Err::<Component, Error>(
                Error::CorruptData,
            ),
            r matches Ok(c) ==> c.wf() && c.spec_encode() == encoded,
    {
        if encoded <= MAX_COMPONENT_ENCODED_VALUE {
            let one = encoded / 1_000_000_000;
            let two = (encoded % 1_000_000_000) / 1_000_000;
            let three = (encoded % 1_000_000) / 1000;
            let four = encoded % 1000;
            proof {
                lemma_component_digits(encoded as int);
            }
            Ok(Component { one: one as u16, two: two as u16, three: three as u16, four: four as u16 })
        } else {
            Err(Error::CorruptData)
        }
    }

    /// True only for the very first component.
    pub fn is_empty(&self) -> (r: bool)
        requires
            self.wf(),
        ensures
            r == (self.spec_encode() == 0),
    {
        self.one == 0 && self.two == 0 && self.three == 0 && self.four == 0
    }

    /// True only for the very last component, the one with no
    /// successor.
    pub fn is_full(&self) -> (r: bool)
        requires
            self.wf(),
        ensures
            r == (self.spec_encode() == MAX_COMPONENT_ENCODED_VALUE),
    {
        self.one == 1 && self.two == 999 && self.three == 999 && self.four == 999
    }

    /// The four digits, as mathematical integers.
    pub closed spec fn spec_digits(&self) -> (int, int, int, int) {
        (self.one as int, self.two as int, self.three as int, self.four as int)
    }

    /// The on-disk location of this component's section file under
    /// `base`: the directory `base/d<c0>/d<c1>/d<c2>` and the file
    /// `d<c3>` inside it.
    pub fn paths(&self, base: &str) -> (r: (String, String))
        requires
            self.wf(),
        ensures
            ({
                let (d0, d1, d2, d3) = self.spec_digits();
                r.0@ == base@ + spec_dir_part(d0) + spec_dir_part(d1) + spec_dir_part(d2)
                    && r.1@ == r.0@ + spec_dir_part(d3)
            }),
    {
        proof {
            reveal_strlit("/d");
        }
        let ghost (d0, d1, d2, d3) = self.spec_digits();
        let mut parent = base.to_owned();
        parent.append("/d");
        let s0 = decimal_string(self.one);
        parent.append(s0.as_str());
        parent.append("/d");
        let s1 = decimal_string(self.two);
        parent.append(s1.as_str());
        parent.append("/d");
        let s2 = decimal_string(self.three);
        parent.append(s2.as_str());
        proof {
            assert(parent@ =~= base@ + spec_dir_part(d0) + spec_dir_part(d1) + spec_dir_part(d2));
        }
        let mut file = parent.clone();
        file.append("/d");
        let s3 = decimal_string(self.four);
        file.append(s3.as_str());
        proof {
            assert(file@ =~= parent@ + spec_dir_part(d3));
        }
        (parent, file)
    }

    /// The successor component: increments the rightmost digit that is
    /// below 999, rolling the digits after it back to 0. `None` when
    /// this component is the last one.
    pub fn next(&self) -> (r: Option<Component>)
        requires
            self.wf(),
        ensures
            self.spec_encode() < MAX_COMPONENT_ENCODED_VALUE ==> (r matches Some(c) && c.wf()
                && c.spec_encode() == self.spec_encode() + 1),
            self.spec_encode() == MAX_COMPONENT_ENCODED_VALUE ==> r is None,
    {
        if self.four < MAX_COMPONENT_VALUE - 1 {
            Some(Component { one: self.one, two: self.two, three: self.three, four: self.four + 1 })
        } else if self.three < MAX_COMPONENT_VALUE - 1 {
            Some(Component { one: self.one, two: self.two, three: self.three + 1, four: 0 })
        } else if self.two < MAX_COMPONENT_VALUE - 1 {
            Some(Component { one: self.one, two: self.two + 1, three: 0, four: 0 })
        } else if self.one < 1 {
            Some(Component { one: self.one + 1, two: 0, three: 0, four: 0 })
        } else {
            None
        }
    }
}

/// One path segment of the directory layout: a slash, the letter `d`,
/// then the digit's decimal value.
pub open spec fn spec_dir_part(n: int) -> Seq<char> {
    seq!['/', 'd'] + spec_decimal(n)
}

/// The decimal digit character for a value below ten.
pub open spec fn spec_digit_char(d: int) -> char {
    if d == 0 {
        '0'
    } else if d == 1 {
        '1'
    } else if d == 2 {
        '2'
    } else if d == 3 {
        '3'
    } else if d == 4 {
        '4'
    } else if d == 5 {
        '5'
    } else if d == 6 {
        '6'
    } else if d == 7 {
        '7'
    } else if d == 8 {
        '8'
    } else {
        '9'
    }
}

/// The decimal representation of `n`, without leading zeros.
pub open spec fn spec_decimal(n: int) -> Seq<char>
    decreases n,
{
    if n < 10 {
        seq![spec_digit_char(n)]
    } else {
        spec_decimal(n / 10) + seq![spec_digit_char(n % 10)]
    }
}

/// The one-character string for a decimal digit.
fn digit_str(d: u16) -> (r: &'static str)
    requires
        d < 10,
    ensures
        r@ == seq![spec_digit_char(d as int)],
{
    proof {
        reveal_strlit("0");
        reveal_strlit("1");
        reveal_strlit("2");
        reveal_strlit("3");
        reveal_strlit("4");
        reveal_strlit("5");
        reveal_strlit("6");
        reveal_strlit("7");
        reveal_strlit("8");
        reveal_strlit("9");
    }
    let r = if d == 0 {
        "0"
    } else if d == 1 {
        "1"
    } else if d == 2 {
        "2"
    } else if d == 3 {
        "3"
    } else if d == 4 {
        "4"
    } else if d == 5 {
        "5"
    } else if d == 6 {
        "6"
    } else if d == 7 {
        "7"
    } else if d == 8 {
        "8"
    } else {
        "9"
    };
    proof {
        assert(r@ =~= seq![spec_digit_char(d as int)]);
    }
    r
}

/// Writes `n` in decimal.
fn decimal_string(n: u16) -> (r: String)
    ensures
        r@ == spec_decimal(n as int),
    decreases n,
{
    if n < 10 {
        String::from_str(digit_str(n))
    } else {
        let mut r = decimal_string(n / 10);
        r.append(digit_str(n % 10));
        r
    }
}

/// Whether `c` is a decimal digit character.
pub open spec fn spec_is_digit(c: char) -> bool {
    48 <= c as u32 <= 57
}

/// Whether every character of `s` is a decimal digit.
pub open spec fn spec_all_digits(s: Seq<char>) -> bool {
    forall|i: int| 0 <= i < s.len() ==> spec_is_digit(#[trigger] s[i])
}

/// The value of a string of decimal digits.
pub open spec fn spec_digits_val(s: Seq<char>) -> int
    decreases s.len(),
{
    if s.len() == 0 {
        0
    } else {
        spec_digits_val(s.take(s.len() - 1)) * 10 + (s.last() as u32 - 48)
    }
}

/// What a directory or file name of the layout means: `d` followed by
/// decimal digits whose value is at most 1000. Anything else is not
/// part of the layout.
pub open spec fn spec_depot_number(name: Seq<char>) -> Option<u16> {
    if name.len() >= 2 && name[0] == 'd' && spec_all_digits(name.skip(1)) && spec_digits_val(
        name.skip(1),
    ) <= 1000 {
        Some(spec_digits_val(name.skip(1)) as u16)
    } else {
        None
    }
}

/// Extracts the number from a directory or file name of the layout.
pub fn depot_number(name: &str) -> (r: Option<u16>)
    ensures
        r == spec_depot_number(name@),
{
    let len = name.unicode_len();
    if len < 2 {
        return None;
    }
    if name.get_char(0) != 'd' {
        return None;
    }
    let ghost digits = name@.skip(1);
    let mut acc: u32 = 0;
    let mut i: usize = 1;
    while i < len
        invariant
            1 <= i <= len == name@.len(),
            2 <= len,
            digits == name@.skip(1),
            spec_all_digits(digits.take(i - 1)),
            spec_digits_val(digits.take(i - 1)) <= 1000 ==> acc == spec_digits_val(
                digits.take(i - 1),
            ),
            spec_digits_val(digits.take(i - 1)) > 1000 ==> acc == 1001,
            acc <= 1001,
            spec_digits_val(digits.take(i - 1)) >= 0,
        decreases len - i,
    {
        let c = name.get_char(i);
        let v = c as u32;
        if v < 48 || v > 57 {
            proof {
                assert(digits[i - 1] == name@[i as int]);
                assert(!spec_is_digit(digits[i - 1]));
                assert(!spec_all_digits(digits));
            }
            return None;
        }
        proof {
            assert(digits[i - 1] == name@[i as int]);
            assert(digits.take(i as int).take(i - 1) =~= digits.take(i - 1));
            assert(digits.take(i as int).last() == digits[i - 1]);
            assert(spec_digits_val(digits.take(i as int)) == spec_digits_val(digits.take(i - 1))
                * 10 + (digits[i - 1] as u32 - 48));
            assert(forall|j: int|
                0 <= j < digits.take(i as int).len() ==> digits.take(i as int)[j] == digits[j]);
        }
        if acc > 1000 {
            proof {
                assert(spec_digits_val(digits.take(i - 1)) * 10 >= spec_digits_val(
                    digits.take(i - 1),
                ));
            }
            acc = 1001;
        } else {
            acc = acc * 10 + (v - 48);
            if acc > 1000 {
                acc = 1001;
            }
        }
        i = i + 1;
    }
    proof {
        assert(digits.take(len - 1) =~= digits);
    }
    if acc <= 1000 {
        Some(acc as u16)
    } else {
        None
    }
}

/// The largest layout number among directory entry names, if any
/// parses at all.
pub open spec fn spec_depot_latest(names: Seq<String>) -> Option<u16>
    decreases names.len(),
{
    if names.len() == 0 {
        None
    } else {
        let rest = spec_depot_latest(names.take(names.len() - 1));
        match (rest, spec_depot_number(names.last()@)) {
            (None, n) => n,
            (Some(m), None) => Some(m),
            (Some(m), Some(n)) => if n >= m {
                Some(n)
            } else {
                Some(m)
            },
        }
    }
}

/// Finds the latest (largest-numbered) layout entry among directory
/// entry names.
pub fn depot_latest(names: &Vec<String>) -> (r: Option<u16>)
    ensures
        r == spec_depot_latest(names@),
{
    let mut best: Option<u16> = None;
    let mut i: usize = 0;
    proof {
        assert(names@.take(0) =~= Seq::<String>::empty());
    }
    while i < names.len()
        invariant
            i <= names@.len(),
            best == spec_depot_latest(names@.take(i as int)),
        decreases names@.len() - i,
    {
        proof {
            assert(names@.take(i as int + 1).take(i as int) =~= names@.take(i as int));
            assert(names@.take(i as int + 1).last() == names@[i as int]);
        }
        let n = depot_number(names[i].as_str());
        best = match (best, n) {
            (None, n) => n,
            (Some(m), None) => Some(m),
            (Some(m), Some(n)) => if n >= m {
                Some(n)
            } else {
                Some(m)
            },
        };
        i = i + 1;
    }
    proof {
        assert(names@.take(names@.len() as int) =~= names@);
    }
    best
}

/// Base-1000 digit extraction matches base-1000 packing.
pub proof fn lemma_component_digits(n: int)
    requires
        0 <= n <= MAX_COMPONENT_ENCODED_VALUE,
    ensures
        ({
            let c = Component::spec_decode(n);
            c.wf() && c.spec_encode() == n
        }),
{
    let one = n / 1_000_000_000;
    let r1 = n % 1_000_000_000;
    let two = r1 / 1_000_000;
    vstd::arithmetic::div_mod::lemma_fundamental_div_mod(n, 1_000_000_000);
    vstd::arithmetic::div_mod::lemma_fundamental_div_mod(r1, 1_000_000);
    vstd::arithmetic::div_mod::lemma_fundamental_div_mod(r1 % 1_000_000, 1000);
    vstd::arithmetic::div_mod::lemma_fundamental_div_mod(n, 1_000_000);
    vstd::arithmetic::div_mod::lemma_fundamental_div_mod(n, 1000);
    assert(n % 1_000_000 == r1 % 1_000_000) by {
        vstd::arithmetic::div_mod::lemma_mod_mod(n, 1_000_000_000, 1_000_000);
    }
    assert(n % 1000 == (r1 % 1_000_000) % 1000) by {
        vstd::arithmetic::div_mod::lemma_mod_mod(n, 1_000_000_000, 1_000_000);
        vstd::arithmetic::div_mod::lemma_mod_mod(r1, 1_000_000, 1000);
    }
}

/// Encoding then decoding a component gives the component back.
pub proof fn lemma_component_round_trip(c: Component)
    requires
        c.wf(),
    ensures
        0 <= c.spec_encode() <= MAX_COMPONENT_ENCODED_VALUE,
        Component::spec_decode(c.spec_encode()) == c,
    decreases 0int,
{
    let n = c.spec_encode();
    vstd::arithmetic::div_mod::lemma_fundamental_div_mod_converse(
        n,
        1_000_000_000,
        c.one as int,
        (c.two * 1_000_000 + c.three * 1000 + c.four) as int,
    );
    vstd::arithmetic::div_mod::lemma_fundamental_div_mod_converse(
        n % 1_000_000_000,
        1_000_000,
        c.two as int,
        (c.three * 1000 + c.four) as int,
    );
    vstd::arithmetic::div_mod::lemma_fundamental_div_mod_converse(
        (n % 1_000_000_000) % 1_000_000,
        1000,
        c.three as int,
        c.four as int,
    );
    assert(n % 1_000_000 == (n % 1_000_000_000) % 1_000_000) by {
        vstd::arithmetic::div_mod::lemma_mod_mod(n, 1_000_000_000, 1_000_000);
    }
    assert(n % 1000 == ((n % 1_000_000_000) % 1_000_000) % 1000) by {
        vstd::arithmetic::div_mod::lemma_mod_mod(n, 1_000_000_000, 1_000_000);
        vstd::arithmetic::div_mod::lemma_mod_mod(n % 1_000_000_000, 1_000_000, 1000);
    }
}

} // verus!
