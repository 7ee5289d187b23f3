//! Roman numeral codec: rendering integers as canonical numerals and
//! decoding numerals by the right-to-left subtractive scan.

use vstd::prelude::*;
use vstd::string::StrSliceExecFns;
use vstd::string::StringExecFns;

verus! {

/// Error raised when a result integer has no canonical Roman numeral form.
#[derive(Clone, Copy, Debug, PartialEq, Eq, Structural)]
pub enum CodecError {
    /// The integer is zero, negative, or above 3999.
    NonRepresentable,
}

/// Numeric value of a single Roman symbol; 0 for any other character.
pub open spec fn symbol_value(c: char) -> int {
    if c == 'I' {
        1
    } else if c == 'V' {
        5
    } else if c == 'X' {
        10
    } else if c == 'L' {
        50
    } else if c == 'C' {
        100
    } else if c == 'D' {
        500
    } else if c == 'M' {
        1000
    } else {
        0
    }
}

/// Whether `c` is one of the seven Roman symbols.
pub open spec fn is_roman_symbol(c: char) -> bool {
    c == 'I' || c == 'V' || c == 'X' || c == 'L' || c == 'C' || c == 'D' || c == 'M'
}

/// Canonical encoding of the thousands digit (0 through 3).
pub open spec fn thousands_chars(d: int) -> Seq<char> {
    if d == 1 {
        seq!['M']
    } else if d == 2 {
        seq!['M', 'M']
    } else if d == 3 {
        seq!['M', 'M', 'M']
    } else {
        seq![]
    }
}

/// Canonical encoding of the hundreds digit (0 through 9).
pub open spec fn hundreds_chars(d: int) -> Seq<char> {
    if d == 1 {
        seq!['C']
    } else if d == 2 {
        seq!['C', 'C']
    } else if d == 3 {
        seq!['C', 'C', 'C']
    } else if d == 4 {
        seq!['C', 'D']
    } else if d == 5 {
        seq!['D']
    } else if d == 6 {
        seq!['D', 'C']
    } else if d == 7 {
        seq!['D', 'C', 'C']
    } else if d == 8 {
        seq!['D', 'C', 'C', 'C']
    } else if d == 9 {
        seq!['C', 'M']
    } else {
        seq![]
    }
}

/// Canonical encoding of the tens digit (0 through 9).
pub open spec fn tens_chars(d: int) -> Seq<char> {
    if d == 1 {
        seq!['X']
    } else if d == 2 {
        seq!['X', 'X']
    } else if d == 3 {
        seq!['X', 'X', 'X']
    } else if d == 4 {
        seq!['X', 'L']
    } else if d == 5 {
        seq!['L']
    } else if d == 6 {
        seq!['L', 'X']
    } else if d == 7 {
        seq!['L', 'X', 'X']
    } else if d == 8 {
        seq!['L', 'X', 'X', 'X']
    } else if d == 9 {
        seq!['X', 'C']
    } else {
        seq![]
    }
}

/// Canonical encoding of the units digit (0 through 9).
pub open spec fn units_chars(d: int) -> Seq<char> {
    if d == 1 {
        seq!['I']
    } else if d == 2 {
        seq!['I', 'I']
    } else if d == 3 {
        seq!['I', 'I', 'I']
    } else if d == 4 {
        seq!['I', 'V']
    } else if d == 5 {
        seq!['V']
    } else if d == 6 {
        seq!['V', 'I']
    } else if d == 7 {
        seq!['V', 'I', 'I']
    } else if d == 8 {
        seq!['V', 'I', 'I', 'I']
    } else if d == 9 {
        seq!['I', 'X']
    } else {
        seq![]
    }
}

/// The canonical Roman numeral for `n`, one place value at a time.
pub open spec fn spec_roman(n: int) -> Seq<char> {
    thousands_chars(n / 1000) + hundreds_chars(n / 100 % 10) + tens_chars(n / 10 % 10)
        + units_chars(n % 10)
}

/// A string is a canonical Roman numeral when it renders some integer
/// in the representable range 1 through 3999.
pub open spec fn is_canonical_roman(s: Seq<char>) -> bool {
    exists|n: int| 1 <= n <= 3999 && spec_roman(n) == s
}

/// State of the right-to-left subtractive scan: the running sum and the
/// value of the symbol processed most recently (0 before any symbol).
pub struct ScanState {
    pub sum: int,
    pub prev: int,
}

/// Processes `s` right to left starting from state `st` (the state left by
/// whatever stands to the right of `s`): a symbol is subtracted instead of
/// added exactly when its value is strictly below the previous symbol's.
pub open spec fn scan_from(s: Seq<char>, st: ScanState) -> ScanState
    decreases s.len(),
{
    if s.len() == 0 {
        st
    } else {
        let mid = scan_from(s.drop_first(), st);
        let v = symbol_value(s[0]);
        ScanState { sum: if v < mid.prev { mid.sum - v } else { mid.sum + v }, prev: v }
    }
}

/// Value computed by the subtractive scan over a whole string.
pub open spec fn scan_value(s: Seq<char>) -> int {
    scan_from(s, ScanState { sum: 0, prev: 0 }).sum
}


/// Scanning a concatenation right to left is scanning the right part first,
/// then the left part from the state the right part left behind.
pub proof fn lemma_scan_concat(a: Seq<char>, b: Seq<char>, st: ScanState)
    ensures
        scan_from(a + b, st) == scan_from(a, scan_from(b, st)),
    decreases a.len(),
{
    if a.len() == 0 {
        assert(a + b =~= b);
    } else {
        assert((a + b).drop_first() =~= a.drop_first() + b);
        lemma_scan_concat(a.drop_first(), b, st);
    }
}

/// Value of the leftmost symbol of the units encoding (0 when empty).
pub open spec fn units_lead(d: int) -> int {
    if d == 0 {
        0
    } else if 5 <= d <= 8 {
        5
    } else {
        1
    }
}

/// Value of the leftmost symbol of the tens encoding (0 when empty).
pub open spec fn tens_lead(d: int) -> int {
    if d == 0 {
        0
    } else if 5 <= d <= 8 {
        50
    } else {
        10
    }
}

/// Value of the leftmost symbol of the hundreds encoding (0 when empty).
pub open spec fn hundreds_lead(d: int) -> int {
    if d == 0 {
        0
    } else if 5 <= d <= 8 {
        500
    } else {
        100
    }
}

proof fn lemma_scan_units(d: int)
    requires
        0 <= d <= 9,
    ensures
        scan_from(units_chars(d), ScanState { sum: 0, prev: 0 }) == (ScanState {
            sum: d,
            prev: units_lead(d),
        }),
{
    reveal_with_fuel(scan_from, 5);
}

proof fn lemma_scan_tens(d: int, st: ScanState)
    requires
        0 <= d <= 9,
        0 <= st.prev <= 5,
    ensures
        scan_from(tens_chars(d), st) == (ScanState {
            sum: st.sum + 10 * d,
            prev: if d == 0 {
                st.prev
            } else {
                tens_lead(d)
            },
        }),
{
    reveal_with_fuel(scan_from, 5);
}

proof fn lemma_scan_hundreds(d: int, st: ScanState)
    requires
        0 <= d <= 9,
        0 <= st.prev <= 50,
    ensures
        scan_from(hundreds_chars(d), st) == (ScanState {
            sum: st.sum + 100 * d,
            prev: if d == 0 {
                st.prev
            } else {
                hundreds_lead(d)
            },
        }),
{
    reveal_with_fuel(scan_from, 5);
}

proof fn lemma_scan_thousands(d: int, st: ScanState)
    requires
        0 <= d <= 3,
        0 <= st.prev <= 500,
    ensures
        scan_from(thousands_chars(d), st) == (ScanState {
            sum: st.sum + 1000 * d,
            prev: if d == 0 {
                st.prev
            } else {
                1000
            },
        }),
{
    reveal_with_fuel(scan_from, 5);
}

/// Decomposition of `n` into its four decimal digits as used by `spec_roman`.
proof fn lemma_digit_decomposition(n: int)
    requires
        0 <= n <= 3999,
    ensures
        n == 1000 * (n / 1000) + 100 * (n / 100 % 10) + 10 * (n / 10 % 10) + n % 10,
        0 <= n / 1000 <= 3,
        0 <= n / 100 % 10 <= 9,
        0 <= n / 10 % 10 <= 9,
        0 <= n % 10 <= 9,
{
    vstd::arithmetic::div_mod::lemma_fundamental_div_mod(n, 10);
    vstd::arithmetic::div_mod::lemma_fundamental_div_mod(n / 10, 10);
    vstd::arithmetic::div_mod::lemma_fundamental_div_mod(n / 100, 10);
    vstd::arithmetic::div_mod::lemma_div_denominator(n, 10, 10);
    vstd::arithmetic::div_mod::lemma_div_denominator(n, 100, 10);
}

/// Round trip: the subtractive scan of the canonical rendering of `n`
/// yields `n` again, for every representable `n`.
pub proof fn lemma_roman_round_trip(n: int)
    requires
        1 <= n <= 3999,
    ensures
        scan_value(spec_roman(n)) == n,
{
    let t = n / 1000;
    let h = n / 100 % 10;
    let te = n / 10 % 10;
    let u = n % 10;
    lemma_digit_decomposition(n);
    let init = ScanState { sum: 0, prev: 0 };
    let tc = thousands_chars(t);
    let hc = hundreds_chars(h);
    let tec = tens_chars(te);
    let uc = units_chars(u);
    lemma_scan_concat(tc + hc + tec, uc, init);
    lemma_scan_concat(tc + hc, tec, scan_from(uc, init));
    lemma_scan_concat(tc, hc, scan_from(tec, scan_from(uc, init)));
    lemma_scan_units(u);
    lemma_scan_tens(te, scan_from(uc, init));
    lemma_scan_hundreds(h, scan_from(tec, scan_from(uc, init)));
    lemma_scan_thousands(t, scan_from(hc, scan_from(tec, scan_from(uc, init))));
}

/// A canonical numeral is 1 to 15 symbols long.
pub proof fn lemma_canonical_len(n: int)
    requires
        1 <= n <= 3999,
    ensures
        1 <= spec_roman(n).len() <= 15,
{
    lemma_digit_decomposition(n);
}


/// Whether `s` contains four equal symbols in a row.
pub open spec fn has_four_repeat(s: Seq<char>) -> bool {
    exists|i: int|
        0 <= i && i + 3 < s.len() && #[trigger] s[i] == s[i + 1] && s[i + 1] == s[i + 2] && s[i + 2]
            == s[i + 3]
}

/// Four equal symbols in a row cannot appear in a concatenation whose parts
/// are free of them and whose boundary symbols differ.
proof fn lemma_no_four_repeat_concat(a: Seq<char>, b: Seq<char>)
    requires
        !has_four_repeat(a),
        !has_four_repeat(b),
        a.len() > 0 && b.len() > 0 ==> a.last() != b.first(),
    ensures
        !has_four_repeat(a + b),
{
    let s = a + b;
    assert(!has_four_repeat(s)) by {
        if has_four_repeat(s) {
            let i = choose|i: int|
                0 <= i && i + 3 < s.len() && #[trigger] s[i] == s[i + 1] && s[i + 1] == s[i + 2]
                    && s[i + 2] == s[i + 3];
            if i + 3 < a.len() {
                assert(a[i] == a[i + 1] && a[i + 1] == a[i + 2] && a[i + 2] == a[i + 3]);
            } else if i >= a.len() {
                let j = i - a.len();
                assert(b[j] == b[j + 1] && b[j + 1] == b[j + 2] && b[j + 2] == b[j + 3]);
            } else {
                let k = a.len() as int;
                assert(s[k - 1] == s[k]);
                assert(a.last() == s[k - 1] && b.first() == s[k]);
            }
        }
    }
}

proof fn lemma_units_shape(d: int)
    requires
        0 <= d <= 9,
    ensures
        !has_four_repeat(units_chars(d)),
        units_chars(d).len() > 0 ==> (units_chars(d).first() == 'I' || units_chars(d).first()
            == 'V'),
        units_chars(d).len() > 0 ==> (units_chars(d).last() == 'I' || units_chars(d).last() == 'V'
            || units_chars(d).last() == 'X'),
{
}

proof fn lemma_tens_shape(d: int)
    requires
        0 <= d <= 9,
    ensures
        !has_four_repeat(tens_chars(d)),
        tens_chars(d).len() > 0 ==> (tens_chars(d).first() == 'X' || tens_chars(d).first() == 'L'),
        tens_chars(d).len() > 0 ==> (tens_chars(d).last() == 'X' || tens_chars(d).last() == 'L'
            || tens_chars(d).last() == 'C'),
{
}

proof fn lemma_hundreds_shape(d: int)
    requires
        0 <= d <= 9,
    ensures
        !has_four_repeat(hundreds_chars(d)),
        hundreds_chars(d).len() > 0 ==> (hundreds_chars(d).first() == 'C'
            || hundreds_chars(d).first() == 'D'),
        hundreds_chars(d).len() > 0 ==> (hundreds_chars(d).last() == 'C'
            || hundreds_chars(d).last() == 'D' || hundreds_chars(d).last() == 'M'),
{
}

proof fn lemma_thousands_shape(d: int)
    requires
        0 <= d <= 3,
    ensures
        !has_four_repeat(thousands_chars(d)),
        thousands_chars(d).len() > 0 ==> thousands_chars(d).first() == 'M',
        thousands_chars(d).len() > 0 ==> thousands_chars(d).last() == 'M',
{
}

/// Canonicality of the rendering: no symbol ever appears four times in a
/// row, and digit 4 and digit 9 of every place stand as their subtractive
/// pair (IV, IX, XL, XC, CD, CM) inside the four-place decomposition.
pub proof fn lemma_roman_canonical(n: int)
    requires
        1 <= n <= 3999,
    ensures
        !has_four_repeat(spec_roman(n)),
        n % 10 == 4 ==> units_chars(n % 10) == seq!['I', 'V'],
        n % 10 == 9 ==> units_chars(n % 10) == seq!['I', 'X'],
        n / 10 % 10 == 4 ==> tens_chars(n / 10 % 10) == seq!['X', 'L'],
        n / 10 % 10 == 9 ==> tens_chars(n / 10 % 10) == seq!['X', 'C'],
        n / 100 % 10 == 4 ==> hundreds_chars(n / 100 % 10) == seq!['C', 'D'],
        n / 100 % 10 == 9 ==> hundreds_chars(n / 100 % 10) == seq!['C', 'M'],
        spec_roman(n) == thousands_chars(n / 1000) + hundreds_chars(n / 100 % 10) + tens_chars(
            n / 10 % 10,
        ) + units_chars(n % 10),
{
    let t = n / 1000;
    let h = n / 100 % 10;
    let te = n / 10 % 10;
    let u = n % 10;
    lemma_digit_decomposition(n);
    lemma_thousands_shape(t);
    lemma_hundreds_shape(h);
    lemma_tens_shape(te);
    lemma_units_shape(u);
    let tc = thousands_chars(t);
    let hc = hundreds_chars(h);
    let tec = tens_chars(te);
    let uc = units_chars(u);
    lemma_no_four_repeat_concat(tc, hc);
    if (tc + hc).len() > 0 {
        assert((tc + hc).last() == 'C' || (tc + hc).last() == 'D' || (tc + hc).last() == 'M');
    }
    lemma_no_four_repeat_concat(tc + hc, tec);
    if (tc + hc + tec).len() > 0 {
        assert((tc + hc + tec).last() == 'X' || (tc + hc + tec).last() == 'L' || (tc + hc
            + tec).last() == 'C' || (tc + hc + tec).last() == 'D' || (tc + hc + tec).last() == 'M');
    }
    lemma_no_four_repeat_concat(tc + hc + tec, uc);
}


fn thousands_str(d: u16) -> (r: &'static str)
    requires
        d <= 3,
    ensures
        r@ == thousands_chars(d as int),
{
    proof {
        reveal_strlit("");
        reveal_strlit("M");
        reveal_strlit("MM");
        reveal_strlit("MMM");
        assert(""@ =~= thousands_chars(0));
        assert("M"@ =~= thousands_chars(1));
        assert("MM"@ =~= thousands_chars(2));
        assert("MMM"@ =~= thousands_chars(3));
    }
    if d == 1 {
        "M"
    } else if d == 2 {
        "MM"
    } else if d == 3 {
        "MMM"
    } else {
        ""
    }
}

fn hundreds_str(d: u16) -> (r: &'static str)
    requires
        d <= 9,
    ensures
        r@ == hundreds_chars(d as int),
{
    proof {
        reveal_strlit("");
        reveal_strlit("C");
        reveal_strlit("CC");
        reveal_strlit("CCC");
        reveal_strlit("CD");
        reveal_strlit("D");
        reveal_strlit("DC");
        reveal_strlit("DCC");
        reveal_strlit("DCCC");
        reveal_strlit("CM");
        assert(""@ =~= hundreds_chars(0));
        assert("C"@ =~= hundreds_chars(1));
        assert("CC"@ =~= hundreds_chars(2));
        assert("CCC"@ =~= hundreds_chars(3));
        assert("CD"@ =~= hundreds_chars(4));
        assert("D"@ =~= hundreds_chars(5));
        assert("DC"@ =~= hundreds_chars(6));
        assert("DCC"@ =~= hundreds_chars(7));
        assert("DCCC"@ =~= hundreds_chars(8));
        assert("CM"@ =~= hundreds_chars(9));
    }
    if d == 1 {
        "C"
    } else if d == 2 {
        "CC"
    } else if d == 3 {
        "CCC"
    } else if d == 4 {
        "CD"
    } else if d == 5 {
        "D"
    } else if d == 6 {
        "DC"
    } else if d == 7 {
        "DCC"
    } else if d == 8 {
        "DCCC"
    } else if d == 9 {
        "CM"
    } else {
        ""
    }
}

fn tens_str(d: u16) -> (r: &'static str)
    requires
        d <= 9,
    ensures
        r@ == tens_chars(d as int),
{
    proof {
        reveal_strlit("");
        reveal_strlit("X");
        reveal_strlit("XX");
        reveal_strlit("XXX");
        reveal_strlit("XL");
        reveal_strlit("L");
        reveal_strlit("LX");
        reveal_strlit("LXX");
        reveal_strlit("LXXX");
        reveal_strlit("XC");
        assert(""@ =~= tens_chars(0));
        assert("X"@ =~= tens_chars(1));
        assert("XX"@ =~= tens_chars(2));
        assert("XXX"@ =~= tens_chars(3));
        assert("XL"@ =~= tens_chars(4));
        assert("L"@ =~= tens_chars(5));
        assert("LX"@ =~= tens_chars(6));
        assert("LXX"@ =~= tens_chars(7));
        assert("LXXX"@ =~= tens_chars(8));
        assert("XC"@ =~= tens_chars(9));
    }
    if d == 1 {
        "X"
    } else if d == 2 {
        "XX"
    } else if d == 3 {
        "XXX"
    } else if d == 4 {
        "XL"
    } else if d == 5 {
        "L"
    } else if d == 6 {
        "LX"
    } else if d == 7 {
        "LXX"
    } else if d == 8 {
        "LXXX"
    } else if d == 9 {
        "XC"
    } else {
        ""
    }
}

fn units_str(d: u16) -> (r: &'static str)
    requires
        d <= 9,
    ensures
        r@ == units_chars(d as int),
{
    proof {
        reveal_strlit("");
        reveal_strlit("I");
        reveal_strlit("II");
        reveal_strlit("III");
        reveal_strlit("IV");
        reveal_strlit("V");
        reveal_strlit("VI");
        reveal_strlit("VII");
        reveal_strlit("VIII");
        reveal_strlit("IX");
        assert(""@ =~= units_chars(0));
        assert("I"@ =~= units_chars(1));
        assert("II"@ =~= units_chars(2));
        assert("III"@ =~= units_chars(3));
        assert("IV"@ =~= units_chars(4));
        assert("V"@ =~= units_chars(5));
        assert("VI"@ =~= units_chars(6));
        assert("VII"@ =~= units_chars(7));
        assert("VIII"@ =~= units_chars(8));
        assert("IX"@ =~= units_chars(9));
    }
    if d == 1 {
        "I"
    } else if d == 2 {
        "II"
    } else if d == 3 {
        "III"
    } else if d == 4 {
        "IV"
    } else if d == 5 {
        "V"
    } else if d == 6 {
        "VI"
    } else if d == 7 {
        "VII"
    } else if d == 8 {
        "VIII"
    } else if d == 9 {
        "IX"
    } else {
        ""
    }
}

/// Renders `n` as its canonical Roman numeral, or reports that no canonical
/// numeral exists (`n` zero, negative, or above 3999).
pub fn int_to_roman(num: i64) -> (r: Result<String, CodecError>)
    ensures
        r is Ok <==> 1 <= num <= 3999,
        r is Ok ==> r->Ok_0@ == spec_roman(num as int),
        r is Err ==> r->Err_0 == CodecError::NonRepresentable,
{
    if num < 1 || num > 3999 {
        return Err(CodecError::NonRepresentable);
    }
    let n = num as u16;
    let t = n / 1000;
    let h = n / 100 % 10;
    let te = n / 10 % 10;
    let u = n % 10;
    let mut s = String::new();
    s.append(thousands_str(t));
    s.append(hundreds_str(h));
    s.append(tens_str(te));
    s.append(units_str(u));
    proof {
        assert(s@ =~= spec_roman(num as int));
    }
    Ok(s)
}

/// Right-to-left subtractive scan over an arbitrary short string; characters
/// other than the seven Roman symbols count as 0, as in `symbol_value`.
pub(crate) fn scan_chars(s: &str) -> (r: i32)
    requires
        s@.len() <= 15,
    ensures
        r as int == scan_value(s@),
{
    let len = s.unicode_len();
    let mut i = len;
    let mut sum: i32 = 0;
    let mut prev: i32 = 0;
    while i > 0
        invariant
            i <= len,
            len == s@.len() <= 15,
            scan_from(s@.skip(i as int), ScanState { sum: 0, prev: 0 }) == (ScanState {
                sum: sum as int,
                prev: prev as int,
            }),
            -1000 * (len - i) <= sum <= 1000 * (len - i),
            0 <= prev <= 1000,
        decreases i,
    {
        i = i - 1;
        let c = s.get_char(i);
        let v: i32 = if c == 'I' {
            1
        } else if c == 'V' {
            5
        } else if c == 'X' {
            10
        } else if c == 'L' {
            50
        } else if c == 'C' {
            100
        } else if c == 'D' {
            500
        } else if c == 'M' {
            1000
        } else {
            0
        };
        proof {
            assert(s@.skip(i as int).drop_first() =~= s@.skip(i as int + 1));
            assert(s@.skip(i as int)[0] == s@[i as int]);
            assert(v as int == symbol_value(s@[i as int]));
        }
        if v < prev {
            sum = sum - v;
        } else {
            sum = sum + v;
        }
        prev = v;
    }
    proof {
        assert(s@.skip(0) =~= s@);
    }
    sum
}

/// Decodes a canonical Roman numeral by the right-to-left subtractive scan.
/// The input is assumed well formed; the grammar guarantees this for every
/// numeral the parser hands over.
pub fn roman_to_int(roman: &str) -> (r: i32)
    requires
        is_canonical_roman(roman@),
    ensures
        1 <= r <= 3999,
        spec_roman(r as int) == roman@,
        r as int == scan_value(roman@),
{
    proof {
        let n = choose|n: int| 1 <= n <= 3999 && spec_roman(n) == roman@;
        lemma_canonical_len(n);
        lemma_roman_round_trip(n);
    }
    scan_chars(roman)
}


/// A single nonzero digit at one place renders as that place's encoding
/// alone: these are exactly the matches of the grammar's place sub-rules.
pub proof fn lemma_place_roman(d: int)
    requires
        1 <= d <= 9,
    ensures
        spec_roman(d) == units_chars(d),
        spec_roman(10 * d) == tens_chars(d),
        spec_roman(100 * d) == hundreds_chars(d),
        d <= 3 ==> spec_roman(1000 * d) == thousands_chars(d),
{
    assert(spec_roman(d) =~= units_chars(d));
    assert(spec_roman(10 * d) =~= tens_chars(d));
    assert(spec_roman(100 * d) =~= hundreds_chars(d));
    if d <= 3 {
        assert(spec_roman(1000 * d) =~= thousands_chars(d));
    }
}

} // verus!
