use vstd::prelude::*;

verus! {

/// ASCII white space, as trimmed from both ends of a line.
pub open spec fn is_ws(b: u8) -> bool {
    b == 32 || b == 9 || b == 10 || b == 11 || b == 12 || b == 13
}

pub open spec fn is_digit(b: u8) -> bool {
    48 <= b <= 57
}

pub open spec fn trim_start(s: Seq<u8>) -> Seq<u8>
    decreases s.len(),
{
    if s.len() > 0 && is_ws(s[0]) {
        trim_start(s.drop_first())
    } else {
        s
    }
}

pub open spec fn trim_end(s: Seq<u8>) -> Seq<u8>
    decreases s.len(),
{
    if s.len() > 0 && is_ws(s.last()) {
        trim_end(s.drop_last())
    } else {
        s
    }
}

/// `s` without white space at either end.
pub open spec fn trimmed(s: Seq<u8>) -> Seq<u8> {
    trim_end(trim_start(s))
}

/// The pieces of `s` between single `sep` bytes; an empty `s` gives one empty piece.
pub open spec fn split_by(s: Seq<u8>, sep: u8) -> Seq<Seq<u8>>
    decreases s.len(),
{
    if s.len() == 0 {
        seq![Seq::empty()]
    } else {
        let r = split_by(s.drop_last(), sep);
        if s.last() == sep {
            r.push(Seq::empty())
        } else {
            r.update(r.len() - 1, r.last().push(s.last()))
        }
    }
}

/// The pieces of `s` between single spaces.
pub open spec fn split_fields(s: Seq<u8>) -> Seq<Seq<u8>> {
    split_by(s, 32)
}

pub open spec fn fields_view(v: Seq<Vec<u8>>) -> Seq<Seq<u8>> {
    v.map_values(|f: Vec<u8>| f@)
}

/// The number written by the decimal digits `s`.
pub open spec fn digits_value(s: Seq<u8>) -> nat
    decreases s.len(),
{
    if s.len() == 0 {
        0
    } else {
        digits_value(s.drop_last()) * 10 + (s.last() - 48) as nat
    }
}

pub open spec fn all_digits(s: Seq<u8>) -> bool {
    forall|i: int| 0 <= i < s.len() ==> is_digit(#[trigger] s[i])
}

/// `s` without one leading `+`.
pub open spec fn unsigned_digits(s: Seq<u8>) -> Seq<u8> {
    if s.len() > 0 && s[0] == 43 {
        s.drop_first()
    } else {
        s
    }
}

/// The unsigned integer written in `s` (an optional `+`, then at least one
/// decimal digit), if it is at most `max`.
pub open spec fn parse_unsigned(s: Seq<u8>, max: nat) -> Option<nat> {
    let d = unsigned_digits(s);
    if d.len() > 0 && all_digits(d) && digits_value(d) <= max {
        Some(digits_value(d))
    } else {
        None
    }
}

/// The 64-bit signed integer written in `s`: an optional `+` or `-`, then
/// at least one decimal digit, within the range of `i64`.
pub open spec fn parse_signed(s: Seq<u8>) -> Option<int> {
    if s.len() > 0 && s[0] == 45 {
        let d = s.drop_first();
        if d.len() > 0 && all_digits(d) && digits_value(d) <= 0x8000_0000_0000_0000 {
            Some(-digits_value(d))
        } else {
            None
        }
    } else {
        match parse_unsigned(s, 0x7fff_ffff_ffff_ffff) {
            Some(v) => Some(v as int),
            None => None,
        }
    }
}

/// The number of decimal digits in a row from position `i`.
pub open spec fn digit_run(s: Seq<u8>, i: int) -> int
    decreases s.len() - i,
{
    if 0 <= i < s.len() && is_digit(s[i]) {
        1 + digit_run(s, i + 1)
    } else {
        0
    }
}

pub open spec fn lower(b: u8) -> u8 {
    if 65 <= b <= 90 { (b + 32) as u8 } else { b }
}

/// From position `a` on, `s` spells `word` (lower case ASCII) in either case.
pub open spec fn spells(s: Seq<u8>, a: int, word: Seq<u8>) -> bool {
    &&& s.len() - a == word.len()
    &&& forall|i: int| 0 <= i < word.len() ==> lower(#[trigger] s[a + i]) == word[i]
}

pub open spec fn word_inf() -> Seq<u8> {
    seq![105u8, 110, 102]
}

pub open spec fn word_infinity() -> Seq<u8> {
    seq![105u8, 110, 102, 105, 110, 105, 116, 121]
}

pub open spec fn word_nan() -> Seq<u8> {
    seq![110u8, 97, 110]
}

pub open spec fn sign_len(s: Seq<u8>, i: int) -> int {
    if 0 <= i < s.len() && (s[i] == 43 || s[i] == 45) { 1 } else { 0 }
}

/// From position `i` on, `s` is an exponent: `e` or `E`, an optional sign, digits.
pub open spec fn is_exponent(s: Seq<u8>, i: int) -> bool {
    let e = i + 1 + sign_len(s, i + 1);
    &&& 0 <= i < s.len()
    &&& (s[i] == 101 || s[i] == 69)
    &&& digit_run(s, e) > 0
    &&& e + digit_run(s, e) == s.len()
}

/// From position `a` on, `s` is a decimal number: digits, optionally a point
/// and more digits, at least one digit in all, then optionally an exponent.
pub open spec fn is_decimal(s: Seq<u8>, a: int) -> bool {
    let i1 = a + digit_run(s, a);
    let has_point = i1 < s.len() && s[i1] == 46;
    let frac = if has_point { digit_run(s, i1 + 1) } else { 0 };
    let i2 = if has_point { i1 + 1 + frac } else { i1 };
    &&& digit_run(s, a) + frac > 0
    &&& (i2 == s.len() || is_exponent(s, i2))
}

/// `s` is the text of a floating-point number: an optional sign, then a
/// decimal number or, in any case, `inf`, `infinity` or `nan`.
pub open spec fn is_float_text(s: Seq<u8>) -> bool {
    let a = sign_len(s, 0);
    spells(s, a, word_inf()) || spells(s, a, word_infinity()) || spells(s, a, word_nan()) || is_decimal(s, a)
}

fn is_ws_byte(b: u8) -> (r: bool)
    ensures
        r == is_ws(b),
{
    b == 32 || b == 9 || b == 10 || b == 11 || b == 12 || b == 13
}

/// The line without white space at either end.
pub fn trim_line(s: &Vec<u8>) -> (r: Vec<u8>)
    ensures
        r@ == trimmed(s@),
{
    let len = s.len();
    let mut a: usize = 0;
    assert(s@.subrange(0, len as int) =~= s@);
    while a < len && is_ws_byte(s[a])
        invariant
            a <= len == s.len(),
            trim_start(s@) == trim_start(s@.subrange(a as int, len as int)),
        decreases len - a,
    {
        assert(s@.subrange(a as int, len as int).drop_first() =~= s@.subrange(a + 1, len as int));
        a = a + 1;
    }
    let ghost t = s@.subrange(a as int, len as int);
    assert(trim_start(s@) == t);
    let mut b: usize = len;
    while b > a && is_ws_byte(s[b - 1])
        invariant
            a <= b <= len == s.len(),
            trim_end(t) == trim_end(s@.subrange(a as int, b as int)),
            t == s@.subrange(a as int, len as int),
        decreases b,
    {
        assert(s@.subrange(a as int, b as int).drop_last() =~= s@.subrange(a as int, b - 1));
        b = b - 1;
    }
    let mut r: Vec<u8> = Vec::new();
    let mut i: usize = a;
    while i < b
        invariant
            a <= i <= b <= len == s.len(),
            r@ =~= s@.subrange(a as int, i as int),
        decreases b - i,
    {
        r.push(s[i]);
        i = i + 1;
    }
    r
}

/// The pieces of the line between single spaces.
pub fn split_line(s: &Vec<u8>) -> (r: Vec<Vec<u8>>)
    ensures
        fields_view(r@) == split_fields(s@),
{
    split_line_by(s, 32)
}

/// The pieces of the line between single `sep` bytes.
pub fn split_line_by(s: &Vec<u8>, sep: u8) -> (r: Vec<Vec<u8>>)
    ensures
        fields_view(r@) == split_by(s@, sep),
{
    let mut fields: Vec<Vec<u8>> = Vec::new();
    let mut cur: Vec<u8> = Vec::new();
    let mut i: usize = 0;
    assert(s@.take(0) =~= Seq::<u8>::empty());
    assert(fields_view(fields@).push(cur@) =~= seq![Seq::<u8>::empty()]);
    while i < s.len()
        invariant
            i <= s.len(),
            split_by(s@.take(i as int), sep) == fields_view(fields@).push(cur@),
        decreases s.len() - i,
    {
        let c = s[i];
        assert(s@.take(i + 1).drop_last() =~= s@.take(i as int));
        assert(s@.take(i + 1).last() == c);
        if c == sep {
            let mut done: Vec<u8> = Vec::new();
            std::mem::swap(&mut cur, &mut done);
            fields.push(done);
            assert(fields_view(fields@).push(cur@) =~= split_by(s@.take(i + 1), sep));
        } else {
            let ghost before = fields_view(fields@).push(cur@);
            cur.push(c);
            assert(fields_view(fields@).push(cur@) =~= before.update(before.len() - 1, before.last().push(c)));
        }
        i = i + 1;
    }
    assert(s@.take(s.len() as int) =~= s@);
    fields.push(cur);
    assert(fields_view(fields@) =~= split_by(s@, sep));
    fields
}

proof fn lemma_digits_prefix(d: Seq<u8>, k: int)
    requires
        0 <= k <= d.len(),
        all_digits(d),
    ensures
        digits_value(d.take(k)) <= digits_value(d),
    decreases d.len(),
{
    if k == d.len() {
        assert(d.take(k) =~= d);
    } else {
        assert(d.drop_last().take(k) =~= d.take(k));
        assert(is_digit(d[d.len() - 1]));
        lemma_digits_prefix(d.drop_last(), k);
    }
}

/// The unsigned integer written in `s`, if it is well written and at most `max`.
pub fn parse_unsigned_text(s: &Vec<u8>, max: u64) -> (r: Option<u64>)
    ensures
        r.is_some() == parse_unsigned(s@, max as nat).is_some(),
        r.is_some() ==> parse_unsigned(s@, max as nat) == Some(r.unwrap() as nat),
{
    let start: usize = if s.len() > 0 && s[0] == 43 { 1 } else { 0 };
    let ghost d = unsigned_digits(s@);
    assert(d =~= s@.subrange(start as int, s.len() as int));
    if start == s.len() {
        return None;
    }
    let mut v: u64 = 0;
    let mut i: usize = start;
    assert(d.take(0) =~= Seq::<u8>::empty());
    while i < s.len()
        invariant
            start <= i <= s.len(),
            d == unsigned_digits(s@),
            d =~= s@.subrange(start as int, s.len() as int),
            forall|k: int| 0 <= k < i - start ==> is_digit(#[trigger] d[k]),
            v as nat == digits_value(d.take(i - start)),
            v <= max,
        decreases s.len() - i,
    {
        let c = s[i];
        assert(d[i - start] == c);
        if c < 48 || c > 57 {
            assert(!is_digit(d[i - start]));
            assert(!all_digits(d));
            return None;
        }
        assert(d.take(i - start + 1).drop_last() =~= d.take(i - start));
        assert(d.take(i - start + 1).last() == c);
        assert(digits_value(d.take(i - start + 1)) == digits_value(d.take(i - start)) * 10 + (c - 48) as nat);
        let nv: u128 = v as u128 * 10 + (c - 48) as u128;
        if nv > max as u128 {
            proof {
                if all_digits(d) {
                    lemma_digits_prefix(d, i - start + 1);
                }
            }
            return None;
        }
        v = nv as u64;
        i = i + 1;
    }
    assert(d.take(d.len() as int) =~= d);
    Some(v)
}

/// The 64-bit signed integer written in `s`, if it is well written.
pub fn parse_signed_text(s: &Vec<u8>) -> (r: Option<i64>)
    ensures
        r.is_some() == parse_signed(s@).is_some(),
        r.is_some() ==> parse_signed(s@) == Some(r.unwrap() as int),
{
    if s.len() > 0 && s[0] == 45 {
        let mut rest: Vec<u8> = Vec::new();
        let mut i: usize = 1;
        while i < s.len()
            invariant
                1 <= i <= s.len(),
                rest@ =~= s@.subrange(1, i as int),
            decreases s.len() - i,
        {
            rest.push(s[i]);
            i = i + 1;
        }
        assert(rest@ =~= s@.drop_first());
        if rest.len() > 0 && rest[0] == 43 {
            assert(!all_digits(rest@));
            return None;
        }
        assert(unsigned_digits(rest@) == rest@);
        match parse_unsigned_text(&rest, 0x8000_0000_0000_0000) {
            None => None,
            Some(v) => {
                if v == 0x8000_0000_0000_0000 {
                    Some(i64::MIN)
                } else {
                    Some(-(v as i64))
                }
            },
        }
    } else {
        match parse_unsigned_text(s, 0x7fff_ffff_ffff_ffff) {
            None => None,
            Some(v) => Some(v as i64),
        }
    }
}

/// The number of decimal digits in a row from position `i`.
fn digit_run_at(s: &Vec<u8>, i: usize) -> (r: usize)
    requires
        i <= s.len(),
    ensures
        r as int == digit_run(s@, i as int),
        i + r <= s.len(),
{
    let mut j: usize = i;
    while j < s.len() && 48 <= s[j] && s[j] <= 57
        invariant
            i <= j <= s.len(),
            digit_run(s@, i as int) == (j - i) + digit_run(s@, j as int),
        decreases s.len() - j,
    {
        j = j + 1;
    }
    j - i
}

fn sign_len_at(s: &Vec<u8>, i: usize) -> (r: usize)
    ensures
        r as int == sign_len(s@, i as int),
{
    if i < s.len() && (s[i] == 43 || s[i] == 45) { 1 } else { 0 }
}

fn lower_byte(b: u8) -> (r: u8)
    ensures
        r == lower(b),
{
    if 65 <= b && b <= 90 { b + 32 } else { b }
}

/// From position `a` on, `s` spells `word` in either case.
fn spells_at(s: &Vec<u8>, a: usize, word: &Vec<u8>) -> (r: bool)
    requires
        a <= s.len(),
    ensures
        r == spells(s@, a as int, word@),
{
    if s.len() - a != word.len() {
        return false;
    }
    let mut i: usize = 0;
    while i < word.len()
        invariant
            i <= word.len() == s.len() - a,
            forall|k: int| 0 <= k < i ==> lower(#[trigger] s@[a + k]) == word@[k],
        decreases word.len() - i,
    {
        if lower_byte(s[a + i]) != word[i] {
            return false;
        }
        i = i + 1;
    }
    true
}

/// Whether `s` is the text of a floating-point number.
pub fn check_float_text(s: &Vec<u8>) -> (r: bool)
    ensures
        r == is_float_text(s@),
{
    let a = sign_len_at(s, 0);
    let inf: Vec<u8> = vec![105u8, 110, 102];
    let infinity: Vec<u8> = vec![105u8, 110, 102, 105, 110, 105, 116, 121];
    let nan: Vec<u8> = vec![110u8, 97, 110];
    assert(inf@ =~= word_inf());
    assert(infinity@ =~= word_infinity());
    assert(nan@ =~= word_nan());
    if a > s.len() {
        return false;
    }
    if spells_at(s, a, &inf) || spells_at(s, a, &infinity) || spells_at(s, a, &nan) {
        return true;
    }
    let int_digits = digit_run_at(s, a);
    let i1 = a + int_digits;
    let has_point = i1 < s.len() && s[i1] == 46;
    let frac: usize = if has_point { digit_run_at(s, i1 + 1) } else { 0 };
    let i2: usize = if has_point { i1 + 1 + frac } else { i1 };
    if int_digits + frac == 0 {
        return false;
    }
    if i2 == s.len() {
        return true;
    }
    if !(s[i2] == 101 || s[i2] == 69) {
        return false;
    }
    let e = i2 + 1 + sign_len_at(s, i2 + 1);
    if e > s.len() {
        return false;
    }
    let run = digit_run_at(s, e);
    run > 0 && e + run == s.len()
}

} // verus!
