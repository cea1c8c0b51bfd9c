//! Character-sequence helpers: whitespace trimming, splitting, joining,
//! case folding and decimal integers, each with its specification over `Seq<char>`.
use vstd::prelude::*;

verus! {

/// Unicode `White_Space`, the set that `char::is_whitespace` tests.
pub open spec fn is_space(c: char) -> bool {
    let u = c as u32;
    (0x9 <= u && u <= 0xd) || u == 0x20 || u == 0x85 || u == 0xa0 || u == 0x1680 || (0x2000 <= u
        && u <= 0x200a) || u == 0x2028 || u == 0x2029 || u == 0x202f || u == 0x205f || u == 0x3000
}

/// Index of the first non-whitespace character at or after `i`.
pub open spec fn skip_space(s: Seq<char>, i: int) -> int
    decreases s.len() - i,
{
    if 0 <= i < s.len() && is_space(s[i]) {
        skip_space(s, i + 1)
    } else {
        i
    }
}

/// One past the last non-whitespace character at or before `j - 1`.
pub open spec fn skip_space_back(s: Seq<char>, j: int) -> int
    decreases j,
{
    if 0 < j <= s.len() && is_space(s[j - 1]) {
        skip_space_back(s, j - 1)
    } else {
        j
    }
}

/// Number of leading whitespace characters (the indentation of a line).
pub open spec fn indentation(s: Seq<char>) -> int {
    skip_space(s, 0)
}

pub open spec fn trim_start(s: Seq<char>) -> Seq<char> {
    s.subrange(skip_space(s, 0), s.len() as int)
}

pub open spec fn trim_end(s: Seq<char>) -> Seq<char> {
    s.subrange(0, skip_space_back(s, s.len() as int))
}

pub open spec fn trim(s: Seq<char>) -> Seq<char> {
    trim_end(trim_start(s))
}

/// The pieces of `s` between occurrences of `sep`, as `str::split` gives them.
pub open spec fn split(s: Seq<char>, sep: char) -> Seq<Seq<char>>
    decreases s.len(),
{
    if s.len() == 0 {
        seq![Seq::empty()]
    } else {
        let rest = split(s.drop_last(), sep);
        if s.last() == sep {
            rest.push(Seq::empty())
        } else {
            rest.update(rest.len() - 1, rest.last().push(s.last()))
        }
    }
}

/// The pieces joined with `sep` between each two of them.
pub open spec fn join(ps: Seq<Seq<char>>, sep: char) -> Seq<char>
    decreases ps.len(),
{
    if ps.len() == 0 {
        Seq::empty()
    } else if ps.len() == 1 {
        ps[0]
    } else {
        join(ps.drop_last(), sep).push(sep) + ps.last()
    }
}

pub open spec fn lower_char(c: char) -> char {
    if 'A' <= c && c <= 'Z' {
        ((c as u32) + 32) as char
    } else {
        c
    }
}

/// ASCII lower case, as `str::to_ascii_lowercase` gives it.
pub open spec fn lower(s: Seq<char>) -> Seq<char> {
    s.map_values(|c: char| lower_char(c))
}

pub open spec fn is_prefix(p: Seq<char>, s: Seq<char>) -> bool {
    p.len() <= s.len() && s.subrange(0, p.len() as int) == p
}

pub open spec fn is_suffix(p: Seq<char>, s: Seq<char>) -> bool {
    p.len() <= s.len() && s.subrange(s.len() - p.len(), s.len() as int) == p
}

pub open spec fn is_digit(c: char) -> bool {
    '0' <= c && c <= '9'
}

pub open spec fn digit_value(c: char) -> int {
    (c as u32) - ('0' as u32)
}

pub open spec fn all_digits(s: Seq<char>) -> bool {
    forall|i: int| 0 <= i < s.len() ==> is_digit(#[trigger] s[i])
}

pub open spec fn digits_value(s: Seq<char>) -> int
    decreases s.len(),
{
    if s.len() == 0 {
        0
    } else {
        digits_value(s.drop_last()) * 10 + digit_value(s.last())
    }
}

/// What `str::parse` gives for an integer type whose values are `lo ..= hi`:
/// an optional sign (`-` only where `signed`), then one or more ASCII digits.
pub open spec fn int_of(s: Seq<char>, signed: bool, lo: int, hi: int) -> Option<int> {
    if s.len() == 0 {
        None
    } else {
        let neg = signed && s[0] == '-';
        let has_sign = s[0] == '+' || neg;
        let ds = if has_sign {
            s.drop_first()
        } else {
            s
        };
        let v = if neg {
            -digits_value(ds)
        } else {
            digits_value(ds)
        };
        if ds.len() == 0 || !all_digits(ds) || v < lo || v > hi {
            None
        } else {
            Some(v)
        }
    }
}

pub open spec fn digit_char(d: int) -> char {
    (('0' as u32) + d) as char
}

/// Decimal text of a natural number, without leading zeros.
pub open spec fn nat_text(n: nat) -> Seq<char>
    decreases n,
{
    if n < 10 {
        seq![digit_char(n as int)]
    } else {
        nat_text(n / 10).push(digit_char(n as int % 10))
    }
}

/// Decimal text of an integer, as `Display` writes it.
pub open spec fn int_text(n: int) -> Seq<char> {
    if n < 0 {
        seq!['-'] + nat_text((-n) as nat)
    } else {
        nat_text(n as nat)
    }
}

/// Relies on `FromIterator<char>` for `String`: the characters in order.
#[verifier::external_body]
pub(crate) fn string_from_chars(v: &Vec<char>) -> (r: String)
    ensures
        r@ == v@,
{
    v.iter().collect()
}

pub fn chars_of(s: &str) -> (r: Vec<char>)
    ensures
        r@ == s@,
{
    let n = s.unicode_len();
    let mut r: Vec<char> = Vec::new();
    let mut i: usize = 0;
    while i < n
        invariant
            n == s@.len(),
            i <= n,
            r@ == s@.subrange(0, i as int),
        decreases n - i,
    {
        r.push(s.get_char(i));
        i += 1;
        assert(r@ == s@.subrange(0, i as int));
    }
    assert(r@ == s@);
    r
}

pub fn append(out: &mut Vec<char>, s: &Vec<char>)
    ensures
        final(out)@ == old(out)@ + s@,
{
    let mut i: usize = 0;
    let ghost start = out@;
    while i < s.len()
        invariant
            i <= s.len(),
            out@ == start + s@.subrange(0, i as int),
        decreases s.len() - i,
    {
        out.push(s[i]);
        i += 1;
        assert(out@ == start + s@.subrange(0, i as int));
    }
    assert(s@.subrange(0, s@.len() as int) == s@);
}

pub fn append_str(out: &mut Vec<char>, s: &str)
    ensures
        final(out)@ == old(out)@ + s@,
{
    let v = chars_of(s);
    append(out, &v);
}

pub fn slice_of(s: &Vec<char>, a: usize, b: usize) -> (r: Vec<char>)
    requires
        a <= b <= s@.len(),
    ensures
        r@ == s@.subrange(a as int, b as int),
{
    let mut r: Vec<char> = Vec::new();
    let mut i: usize = a;
    while i < b
        invariant
            a <= i <= b <= s@.len(),
            r@ == s@.subrange(a as int, i as int),
        decreases b - i,
    {
        r.push(s[i]);
        i += 1;
        assert(r@ == s@.subrange(a as int, i as int));
    }
    r
}

pub fn char_is_space(c: char) -> (r: bool)
    ensures
        r == is_space(c),
{
    let u = c as u32;
    (0x9 <= u && u <= 0xd) || u == 0x20 || u == 0x85 || u == 0xa0 || u == 0x1680 || (0x2000 <= u
        && u <= 0x200a) || u == 0x2028 || u == 0x2029 || u == 0x202f || u == 0x205f || u == 0x3000
}

pub fn indentation_of(s: &Vec<char>) -> (r: usize)
    ensures
        r == indentation(s@),
        r <= s@.len(),
{
    let mut i: usize = 0;
    while i < s.len() && char_is_space(s[i])
        invariant
            i <= s@.len(),
            skip_space(s@, i as int) == skip_space(s@, 0),
        decreases s.len() - i,
    {
        i += 1;
    }
    i
}

pub fn trim_start_of(s: &Vec<char>) -> (r: Vec<char>)
    ensures
        r@ == trim_start(s@),
{
    let a = indentation_of(s);
    slice_of(s, a, s.len())
}

pub fn trim_end_of(s: &Vec<char>) -> (r: Vec<char>)
    ensures
        r@ == trim_end(s@),
{
    let mut j: usize = s.len();
    while j > 0 && char_is_space(s[j - 1])
        invariant
            j <= s@.len(),
            skip_space_back(s@, j as int) == skip_space_back(s@, s@.len() as int),
        decreases j,
    {
        j -= 1;
    }
    slice_of(s, 0, j)
}

pub fn trim_of(s: &Vec<char>) -> (r: Vec<char>)
    ensures
        r@ == trim(s@),
{
    let t = trim_start_of(s);
    trim_end_of(&t)
}

pub open spec fn views(v: Seq<Vec<char>>) -> Seq<Seq<char>> {
    v.map_values(|x: Vec<char>| x@)
}

pub fn split_of(s: &Vec<char>, sep: char) -> (r: Vec<Vec<char>>)
    ensures
        views(r@) == split(s@, sep),
        r@.len() >= 1,
{
    let mut parts: Vec<Vec<char>> = Vec::new();
    let mut cur: Vec<char> = Vec::new();
    let mut i: usize = 0;
    while i < s.len()
        invariant
            i <= s@.len(),
            views(parts@).push(cur@) == split(s@.subrange(0, i as int), sep),
        decreases s.len() - i,
    {
        let c = s[i];
        let ghost pre = s@.subrange(0, i as int);
        assert(s@.subrange(0, i + 1).drop_last() == pre);
        if c == sep {
            parts.push(cur);
            cur = Vec::new();
            assert(views(parts@) == views(parts@).drop_last().push(views(parts@).last()));
        } else {
            cur.push(c);
        }
        i += 1;
        assert(views(parts@).push(cur@) == split(s@.subrange(0, i as int), sep));
    }
    parts.push(cur);
    assert(s@.subrange(0, s@.len() as int) == s@);
    assert(views(parts@) == split(s@, sep));
    parts
}

pub fn join_of(ps: &Vec<Vec<char>>, from: usize, sep: char) -> (r: Vec<char>)
    requires
        from <= ps@.len(),
    ensures
        r@ == join(views(ps@).subrange(from as int, ps@.len() as int), sep),
{
    let mut r: Vec<char> = Vec::new();
    let mut i: usize = from;
    while i < ps.len()
        invariant
            from <= i <= ps@.len(),
            r@ == join(views(ps@).subrange(from as int, i as int), sep),
        decreases ps.len() - i,
    {
        let ghost before = views(ps@).subrange(from as int, i as int);
        let ghost after = views(ps@).subrange(from as int, i + 1);
        assert(after.drop_last() == before);
        if i > from {
            r.push(sep);
        }
        append(&mut r, &ps[i]);
        i += 1;
        assert(r@ == join(after, sep));
    }
    r
}

pub fn lower_of(s: &Vec<char>) -> (r: Vec<char>)
    ensures
        r@ == lower(s@),
{
    let mut r: Vec<char> = Vec::new();
    let mut i: usize = 0;
    while i < s.len()
        invariant
            i <= s@.len(),
            r@ == lower(s@.subrange(0, i as int)),
        decreases s.len() - i,
    {
        let c = s[i];
        r.push(lower_letter(c));
        i += 1;
        assert(r@ == lower(s@.subrange(0, i as int)));
    }
    assert(s@.subrange(0, s@.len() as int) == s@);
    r
}

fn lower_letter(c: char) -> (r: char)
    ensures
        r == lower_char(c),
{
    match c {
        'A' => 'a',
        'B' => 'b',
        'C' => 'c',
        'D' => 'd',
        'E' => 'e',
        'F' => 'f',
        'G' => 'g',
        'H' => 'h',
        'I' => 'i',
        'J' => 'j',
        'K' => 'k',
        'L' => 'l',
        'M' => 'm',
        'N' => 'n',
        'O' => 'o',
        'P' => 'p',
        'Q' => 'q',
        'R' => 'r',
        'S' => 's',
        'T' => 't',
        'U' => 'u',
        'V' => 'v',
        'W' => 'w',
        'X' => 'x',
        'Y' => 'y',
        'Z' => 'z',
        _ => c,
    }
}

pub fn starts_with(s: &Vec<char>, p: &Vec<char>) -> (r: bool)
    ensures
        r == is_prefix(p@, s@),
{
    if p.len() > s.len() {
        return false;
    }
    let mut i: usize = 0;
    while i < p.len()
        invariant
            p@.len() <= s@.len(),
            i <= p@.len(),
            forall|k: int| 0 <= k < i ==> s@[k] == p@[k],
        decreases p.len() - i,
    {
        if s[i] != p[i] {
            assert(s@.subrange(0, p@.len() as int)[i as int] != p@[i as int]);
            return false;
        }
        i += 1;
    }
    assert(s@.subrange(0, p@.len() as int) == p@);
    true
}

pub fn ends_with(s: &Vec<char>, p: &Vec<char>) -> (r: bool)
    ensures
        r == is_suffix(p@, s@),
{
    if p.len() > s.len() {
        return false;
    }
    let off = s.len() - p.len();
    let mut i: usize = 0;
    while i < p.len()
        invariant
            p@.len() <= s@.len(),
            off + p@.len() == s.len(),
            i <= p@.len(),
            forall|k: int| 0 <= k < i ==> s@[off + k] == p@[k],
        decreases p.len() - i,
    {
        if s[off + i] != p[i] {
            assert(s@.subrange(off as int, s@.len() as int)[i as int] != p@[i as int]);
            return false;
        }
        i += 1;
    }
    assert(s@.subrange(off as int, s@.len() as int) == p@);
    true
}

pub fn eq_chars(a: &Vec<char>, b: &Vec<char>) -> (r: bool)
    ensures
        r == (a@ == b@),
{
    if a.len() != b.len() {
        return false;
    }
    let r = starts_with(a, b);
    assert(a@.subrange(0, b@.len() as int) == a@);
    r
}

/// Bound past every integer value this library reads (above `u64::MAX`).
pub const BIG: u128 = 100_000_000_000_000_000_000;

proof fn lemma_digits_push(t: Seq<char>, c: char)
    ensures
        digits_value(t.push(c)) == digits_value(t) * 10 + digit_value(c),
{
    assert(t.push(c).drop_last() == t);
}

proof fn lemma_digits_nonneg(t: Seq<char>)
    requires
        all_digits(t),
    ensures
        digits_value(t) >= 0,
    decreases t.len(),
{
    if t.len() > 0 {
        assert(all_digits(t.drop_last()));
        lemma_digits_nonneg(t.drop_last());
        assert(is_digit(t[t.len() - 1]));
    }
}

fn digit_of(c: char) -> (r: u128)
    requires
        is_digit(c),
    ensures
        r == digit_value(c),
        r < 10,
{
    ((c as u32) - ('0' as u32)) as u128
}

/// Reads an integer as `str::parse` does for an integer type whose values are `lo ..= hi`.
pub fn parse_int(s: &Vec<char>, signed: bool, lo: i128, hi: i128) -> (r: Option<i128>)
    requires
        -(BIG as int) < lo <= 0 <= hi < BIG,
    ensures
        match r {
            Some(v) => int_of(s@, signed, lo as int, hi as int) == Some(v as int),
            None => int_of(s@, signed, lo as int, hi as int) is None,
        },
{
    if s.len() == 0 {
        return None;
    }
    let neg = signed && s[0] == '-';
    let has_sign = s[0] == '+' || neg;
    let start: usize = if has_sign {
        1
    } else {
        0
    };
    let ghost ds = if has_sign {
        s@.drop_first()
    } else {
        s@
    };
    assert(ds == s@.subrange(start as int, s@.len() as int));
    assert(neg == (signed && s@[0] == '-'));
    assert(has_sign == (s@[0] == '+' || neg));
    if start == s.len() {
        assert(ds.len() == 0);
        return None;
    }
    let mut acc: u128 = 0;
    let mut big = false;
    let mut i: usize = start;
    while i < s.len()
        invariant
            start <= i <= s@.len(),
            s@.len() > 0,
            neg == (signed && s@[0] == '-'),
            has_sign == (s@[0] == '+' || neg),
            ds == (if has_sign {
                s@.drop_first()
            } else {
                s@
            }),
            ds == s@.subrange(start as int, s@.len() as int),
            all_digits(s@.subrange(start as int, i as int)),
            !big ==> acc == digits_value(s@.subrange(start as int, i as int)) && acc <= BIG,
            big ==> digits_value(s@.subrange(start as int, i as int)) > BIG,
        decreases s.len() - i,
    {
        let c = s[i];
        let ghost t = s@.subrange(start as int, i as int);
        assert(s@.subrange(start as int, i + 1) == t.push(c));
        if !('0' <= c && c <= '9') {
            assert(ds[i - start] == c);
            assert(!is_digit(ds[i - start]));
            assert(!all_digits(ds));
            return None;
        }
        let d = digit_of(c);
        proof {
            lemma_digits_push(t, c);
            lemma_digits_nonneg(t);
        }
        if !big {
            assert(acc * 10 <= BIG * 10) by (nonlinear_arith)
                requires
                    acc <= BIG,
            ;
            acc = acc * 10 + d;
            if acc > BIG {
                big = true;
            }
        } else {
            assert(digits_value(t) * 10 + digit_value(c) >= digits_value(t)) by (nonlinear_arith)
                requires
                    digits_value(t) >= 0,
                    digit_value(c) >= 0,
            ;
        }
        i += 1;
    }
    assert(s@.subrange(start as int, s@.len() as int) == ds);
    if big {
        return None;
    }
    let v: i128 = if neg {
        -(acc as i128)
    } else {
        acc as i128
    };
    if v < lo || v > hi {
        return None;
    }
    Some(v)
}

fn digit_char_of(d: u128) -> (c: char)
    requires
        d < 10,
    ensures
        c == digit_char(d as int),
{
    match d {
        0 => '0',
        1 => '1',
        2 => '2',
        3 => '3',
        4 => '4',
        5 => '5',
        6 => '6',
        7 => '7',
        8 => '8',
        _ => '9',
    }
}

pub fn nat_chars(n: u128) -> (r: Vec<char>)
    ensures
        r@ == nat_text(n as nat),
    decreases n,
{
    if n < 10 {
        let mut v: Vec<char> = Vec::new();
        v.push(digit_char_of(n));
        assert(v@ == seq![digit_char(n as int)]);
        v
    } else {
        let mut v = nat_chars(n / 10);
        v.push(digit_char_of(n % 10));
        v
    }
}

/// Decimal text of `n`, as `Display` writes it.
pub fn int_chars(n: i128) -> (r: Vec<char>)
    requires
        -(BIG as int) < n < BIG,
    ensures
        r@ == int_text(n as int),
{
    if n < 0 {
        let mut v: Vec<char> = Vec::new();
        v.push('-');
        let d = nat_chars((-n) as u128);
        append(&mut v, &d);
        v
    } else {
        nat_chars(n as u128)
    }
}

/// Decimal text is digits only, and reads back as the number.
pub proof fn lemma_nat_text(n: nat)
    ensures
        nat_text(n).len() >= 1,
        all_digits(nat_text(n)),
        digits_value(nat_text(n)) == n,
    decreases n,
{
    if n < 10 {
        lemma_digit_char(n as int);
        assert(seq![digit_char(n as int)].drop_last() == Seq::<char>::empty());
        assert(digits_value(Seq::<char>::empty()) == 0);
    } else {
        lemma_nat_text(n / 10);
        lemma_digit_char(n as int % 10);
        let t = nat_text(n / 10);
        let c = digit_char(n as int % 10);
        lemma_digits_push(t, c);
        assert(digits_value(t.push(c)) == (n / 10) * 10 + n % 10);
        assert((n / 10) * 10 + n % 10 == n) by (nonlinear_arith);
        assert forall|i: int| 0 <= i < t.push(c).len() implies is_digit(#[trigger] t.push(c)[i]) by {
            if i < t.len() {
                assert(t.push(c)[i] == t[i]);
            }
        }
    }
}

proof fn lemma_digit_char(d: int)
    requires
        0 <= d < 10,
    ensures
        is_digit(digit_char(d)),
        digit_value(digit_char(d)) == d,
{
    if d == 0 {
    } else if d == 1 {
    } else if d == 2 {
    } else if d == 3 {
    } else if d == 4 {
    } else if d == 5 {
    } else if d == 6 {
    } else if d == 7 {
    } else if d == 8 {
    } else {
        assert(d == 9);
    }
}

/// Decimal text of a number in range reads back as that number.
pub proof fn lemma_int_of_nat_text(n: nat, signed: bool, lo: int, hi: int)
    requires
        lo <= 0,
        n <= hi,
    ensures
        int_of(nat_text(n), signed, lo, hi) == Some(n as int),
{
    lemma_nat_text(n);
    assert(is_digit(nat_text(n)[0]));
}

/// Text without `sep` splits into itself alone.
pub proof fn lemma_split_none(a: Seq<char>, sep: char)
    requires
        forall|i: int| 0 <= i < a.len() ==> a[i] != sep,
    ensures
        split(a, sep) == seq![a],
    decreases a.len(),
{
    if a.len() > 0 {
        lemma_split_none(a.drop_last(), sep);
        assert(a[a.len() - 1] != sep);
        assert(a.drop_last().push(a.last()) == a);
        let rest = seq![a.drop_last()];
        assert(rest.len() - 1 == 0);
        assert(rest.last() == a.drop_last());
        assert(rest.update(0, a.drop_last().push(a.last())) =~= seq![a]);
    } else {
        assert(a =~= Seq::<char>::empty());
    }
}

/// Splitting `a`, `sep`, `b` where `a` has no `sep`: `a`, then the pieces of `b`.
pub proof fn lemma_split_after(a: Seq<char>, sep: char, b: Seq<char>)
    requires
        forall|i: int| 0 <= i < a.len() ==> a[i] != sep,
    ensures
        split(a.push(sep) + b, sep) == seq![a] + split(b, sep),
    decreases b.len(),
{
    if b.len() == 0 {
        lemma_split_none(a, sep);
        assert(a.push(sep) + b == a.push(sep));
        assert(a.push(sep).drop_last() == a);
        assert(seq![a].push(Seq::<char>::empty()) =~= seq![a] + seq![Seq::<char>::empty()]);
    } else {
        lemma_split_after(a, sep, b.drop_last());
        let whole = a.push(sep) + b;
        assert(whole.drop_last() == a.push(sep) + b.drop_last());
        assert(whole.last() == b.last());
        let rest = split(b.drop_last(), sep);
        assert(rest.len() >= 1) by {
            lemma_split_len(b.drop_last(), sep);
        }
        if b.last() == sep {
            assert((seq![a] + rest).push(Seq::<char>::empty()) =~= seq![a] + rest.push(
                Seq::<char>::empty(),
            ));
        } else {
            let r2 = seq![a] + rest;
            assert(r2.update(r2.len() - 1, r2.last().push(b.last())) =~= seq![a] + rest.update(
                rest.len() - 1,
                rest.last().push(b.last()),
            ));
        }
    }
}

pub proof fn lemma_split_len(s: Seq<char>, sep: char)
    ensures
        split(s, sep).len() >= 1,
    decreases s.len(),
{
    if s.len() > 0 {
        lemma_split_len(s.drop_last(), sep);
    }
}

/// Text that neither starts nor ends with whitespace is its own trim.
pub proof fn lemma_trim_solid(s: Seq<char>)
    requires
        s.len() > 0,
        !is_space(s[0]),
        !is_space(s.last()),
    ensures
        trim(s) == s,
{
    assert(skip_space(s, 0) == 0);
    assert(s.subrange(0, s.len() as int) == s);
    assert(skip_space_back(s, s.len() as int) == s.len());
}

/// One space in front of a name that is its own trim is trimmed away.
pub proof fn lemma_trim_lead_space(n: Seq<char>)
    requires
        n.len() > 0 ==> !is_space(n[0]) && !is_space(n.last()),
    ensures
        trim(seq![' '] + n) == n,
{
    let s = seq![' '] + n;
    assert(is_space(s[0]));
    if n.len() > 0 {
        assert(s[1] == n[0]);
        assert(skip_space(s, 1) == 1);
        assert(trim_start(s) =~= n);
        assert(skip_space_back(n, n.len() as int) == n.len());
        assert(n.subrange(0, n.len() as int) == n);
    } else {
        assert(skip_space(s, 1) == 1);
        assert(trim_start(s) =~= n);
        assert(skip_space_back(n, 0) == 0);
        assert(n.subrange(0, 0) =~= n);
    }
}

pub proof fn lemma_skip_spaces_from(s: Seq<char>, depth: nat, i: int)
    requires
        0 <= i <= depth < s.len(),
        forall|k: int| 0 <= k < depth ==> s[k] == ' ',
        !is_space(s[depth as int]),
    ensures
        skip_space(s, i) == depth,
    decreases depth - i,
{
    if i < depth {
        lemma_skip_spaces_from(s, depth, i + 1);
    }
}

/// Leading spaces are what `trim_start` takes away.
pub proof fn lemma_trim_indent(depth: nat, t: Seq<char>)
    requires
        t.len() > 0,
        !is_space(t[0]),
    ensures
        trim_start(crate::error::repeat(" "@, depth) + t) == t,
{
    let sp = crate::error::repeat(" "@, depth);
    lemma_repeat_spaces(depth);
    let s = sp + t;
    lemma_skip_spaces_from(s, depth, 0);
    assert(s.subrange(depth as int, s.len() as int) =~= t);
}

pub proof fn lemma_repeat_spaces(depth: nat)
    ensures
        crate::error::repeat(" "@, depth).len() == depth,
        forall|k: int| 0 <= k < depth ==> #[trigger] crate::error::repeat(" "@, depth)[k] == ' ',
    decreases depth,
{
    reveal_strlit(" ");
    if depth > 0 {
        lemma_repeat_spaces((depth - 1) as nat);
        let r = crate::error::repeat(" "@, (depth - 1) as nat);
        assert forall|k: int| 0 <= k < depth implies #[trigger] crate::error::repeat(" "@, depth)[k]
            == ' ' by {
            if k < depth - 1 {
                assert((r + " "@)[k] == r[k]);
            }
        }
    }
}

/// Decimal text of an `i64` reads back as it, starts with `-` or a digit, ends with a digit.
pub proof fn lemma_int_text(n: int)
    requires
        i64::MIN <= n <= i64::MAX,
    ensures
        int_of(int_text(n), true, i64::MIN as int, i64::MAX as int) == Some(n),
        int_text(n).len() > 0,
        int_text(n)[0] == '-' || is_digit(int_text(n)[0]),
        is_digit(int_text(n).last()),
        forall|i: int| 0 <= i < int_text(n).len() ==> #[trigger] int_text(n)[i] == '-' || is_digit(int_text(n)[i]),
{
    if n < 0 {
        let t = nat_text((-n) as nat);
        lemma_nat_text((-n) as nat);
        assert((seq!['-'] + t).drop_first() =~= t);
        assert forall|i: int| 0 <= i < (seq!['-'] + t).len() implies #[trigger] (seq!['-'] + t)[i] == '-'
            || is_digit((seq!['-'] + t)[i]) by {
            if i > 0 {
                assert((seq!['-'] + t)[i] == t[i - 1]);
            }
        }
        assert((seq!['-'] + t).last() == t.last());
    } else {
        lemma_nat_text(n as nat);
        lemma_int_of_nat_text(n as nat, true, i64::MIN as int, i64::MAX as int);
    }
}

/// Splitting text that ends in `sep` and more text: the first part's pieces without the
/// empty last one, then the pieces of the rest.
pub proof fn lemma_split_concat(a: Seq<char>, sep: char, b: Seq<char>)
    requires
        a.len() > 0,
        a.last() == sep,
    ensures
        split(a + b, sep) == split(a, sep).drop_last() + split(b, sep),
    decreases b.len(),
{
    lemma_split_len(a.drop_last(), sep);
    assert(a.drop_last().push(sep) == a);
    if b.len() == 0 {
        assert(a + b == a);
        assert(split(a, sep) == split(a.drop_last(), sep).push(Seq::empty()));
        assert(split(a, sep).drop_last() + seq![Seq::<char>::empty()] =~= split(a, sep));
    } else {
        lemma_split_concat(a, sep, b.drop_last());
        let whole = a + b;
        assert(whole.drop_last() == a + b.drop_last());
        assert(whole.last() == b.last());
        let pre = split(a, sep).drop_last();
        let rest = split(b.drop_last(), sep);
        lemma_split_len(b.drop_last(), sep);
        if b.last() == sep {
            assert((pre + rest).push(Seq::<char>::empty()) =~= pre + rest.push(Seq::<char>::empty()));
        } else {
            let r2 = pre + rest;
            assert(r2.update(r2.len() - 1, r2.last().push(b.last())) =~= pre + rest.update(
                rest.len() - 1,
                rest.last().push(b.last()),
            ));
        }
    }
}

} // verus!
