//! Character-level helpers shared by the address resolver: splitting,
//! numeric parsing in base 10 and 16, and numeric rendering.

use vstd::prelude::*;

verus! {

/// The value of `c` as a digit in `radix` (10 or 16), or -1 when `c` is not
/// such a digit. Hexadecimal letters are accepted in either case.
pub open spec fn digit_value(c: char, radix: int) -> int {
    if '0' <= c && c <= '9' && (c as int) - ('0' as int) < radix {
        (c as int) - ('0' as int)
    } else if radix == 16 && 'a' <= c && c <= 'f' {
        (c as int) - ('a' as int) + 10
    } else if radix == 16 && 'A' <= c && c <= 'F' {
        (c as int) - ('A' as int) + 10
    } else {
        -1
    }
}

pub open spec fn all_digits(s: Seq<char>, radix: int) -> bool {
    forall|i: int| 0 <= i < s.len() ==> digit_value(#[trigger] s[i], radix) >= 0
}

/// The number written by the digits `s` in `radix`, most significant first.
pub open spec fn number_value(s: Seq<char>, radix: int) -> int
    decreases s.len(),
{
    if s.len() == 0 {
        0
    } else {
        number_value(s.drop_last(), radix) * radix + digit_value(s.last(), radix)
    }
}

/// The pieces of `s` between occurrences of `sep`; always at least one piece.
pub open spec fn split_on(s: Seq<char>, sep: char) -> Seq<Seq<char>>
    decreases s.len(),
{
    if s.len() == 0 {
        seq![Seq::empty()]
    } else {
        let rest = split_on(s.drop_last(), sep);
        if s.last() == sep {
            rest.push(Seq::empty())
        } else {
            rest.update(rest.len() - 1, rest.last().push(s.last()))
        }
    }
}

/// Index of the last occurrence of `c` in `s`, or -1.
pub open spec fn last_index_of(s: Seq<char>, c: char) -> int
    decreases s.len(),
{
    if s.len() == 0 {
        -1
    } else if s.last() == c {
        s.len() - 1
    } else {
        last_index_of(s.drop_last(), c)
    }
}

/// The digit character for `d` in lowercase hexadecimal (`d < 16`).
pub open spec fn digit_char(d: int) -> char {
    if d < 10 {
        (('0' as int) + d) as char
    } else {
        (('a' as int) + d - 10) as char
    }
}

/// `n` written in `radix` without leading zeros ("0" for zero).
pub open spec fn number_text(n: nat, radix: nat) -> Seq<char>
    decreases n via number_text_decreases
{
    if radix < 2 || n < radix {
        seq![digit_char(n as int)]
    } else {
        number_text(n / radix, radix).push(digit_char((n % radix) as int))
    }
}

#[via_fn]
proof fn number_text_decreases(n: nat, radix: nat) {
    if !(radix < 2 || n < radix) {
        assert(n / radix < n) by (nonlinear_arith)
            requires
                radix >= 2,
                n >= radix,
        ;
    }
}

/// The numbers of `v` written in `radix` and separated by `sep`.
pub open spec fn joined(v: Seq<nat>, radix: nat, sep: char) -> Seq<char>
    decreases v.len(),
{
    if v.len() == 0 {
        Seq::empty()
    } else if v.len() == 1 {
        number_text(v[0], radix)
    } else {
        joined(v.drop_last(), radix, sep).push(sep) + number_text(v.last(), radix)
    }
}

pub open spec fn nats_of(v: Seq<u32>) -> Seq<nat> {
    v.map_values(|x: u32| x as nat)
}

/// The pieces `parts` with `sep` between each two.
pub open spec fn join_parts(parts: Seq<Seq<char>>, sep: char) -> Seq<char>
    decreases parts.len(),
{
    if parts.len() == 0 {
        Seq::empty()
    } else if parts.len() == 1 {
        parts[0]
    } else {
        join_parts(parts.drop_last(), sep).push(sep) + parts.last()
    }
}

/// Decimal digits without a leading zero (but `0` itself).
pub open spec fn canonical_decimal(p: Seq<char>) -> bool {
    &&& p.len() > 0
    &&& all_digits(p, 10)
    &&& (p.len() > 1 ==> p[0] != '0')
}

/// Joining the pieces of a split gives the text back.
pub proof fn lemma_join_split(s: Seq<char>, sep: char)
    ensures
        join_parts(split_on(s, sep), sep) == s,
    decreases s.len(),
{
    if s.len() > 0 {
        let t = s.drop_last();
        let c = s.last();
        lemma_join_split(t, sep);
        lemma_split_nonempty(t, sep);
        let x = split_on(t, sep);
        if c == sep {
            assert(x.push(Seq::empty()).drop_last() =~= x);
            assert(join_parts(x, sep).push(sep) + Seq::<char>::empty() =~= s);
        } else {
            let y = x.update(x.len() - 1, x.last().push(c));
            if x.len() == 1 {
                assert(y[0] =~= s);
            } else {
                assert(y.drop_last() =~= x.drop_last());
                assert(join_parts(x.drop_last(), sep).push(sep) + x.last().push(c)
                    =~= (join_parts(x.drop_last(), sep).push(sep) + x.last()).push(c));
                assert(t.push(c) =~= s);
            }
        }
    }
}

/// Numbers whose texts are the pieces join to the joined pieces.
pub proof fn lemma_joined_parts(v: Seq<nat>, parts: Seq<Seq<char>>, radix: nat, sep: char)
    requires
        v.len() == parts.len(),
        forall|i: int| 0 <= i < v.len() ==> number_text(#[trigger] v[i], radix) == parts[i],
    ensures
        joined(v, radix, sep) == join_parts(parts, sep),
    decreases v.len(),
{
    if v.len() > 1 {
        lemma_joined_parts(v.drop_last(), parts.drop_last(), radix, sep);
        assert(number_text(v[v.len() - 1], radix) == parts[parts.len() - 1]);
    } else if v.len() == 1 {
        assert(number_text(v[0], radix) == parts[0]);
    }
}

proof fn lemma_decimal_positive(p: Seq<char>)
    requires
        p.len() > 0,
        all_digits(p, 10),
        p[0] != '0',
    ensures
        number_value(p, 10) >= 1,
    decreases p.len(),
{
    let q = p.drop_last();
    assert(digit_value(p[p.len() - 1], 10) >= 0);
    if p.len() == 1 {
        assert(digit_value(p[0], 10) >= 0);
        assert(q.len() == 0);
    } else {
        assert(all_digits(q, 10)) by {
            assert forall|j: int| 0 <= j < q.len() implies digit_value(#[trigger] q[j], 10) >= 0 by {
                assert(q[j] == p[j]);
            }
        }
        lemma_decimal_positive(q);
    }
}

/// A decimal number without leading zeros is written back as itself.
pub proof fn lemma_decimal_text(p: Seq<char>)
    requires
        canonical_decimal(p),
    ensures
        number_value(p, 10) >= 0,
        number_text(number_value(p, 10) as nat, 10) == p,
    decreases p.len(),
{
    let q = p.drop_last();
    let c = p.last();
    let d = digit_value(c, 10);
    assert(digit_value(p[p.len() - 1], 10) >= 0);
    assert(0 <= d < 10);
    assert(((('0' as int) + d) as char) == c);
    if p.len() == 1 {
        assert(q.len() == 0);
        assert(number_value(q, 10) == 0);
        assert(number_value(p, 10) == d);
        assert(seq![digit_char(d)] =~= p);
    } else {
        assert(all_digits(q, 10)) by {
            assert forall|j: int| 0 <= j < q.len() implies digit_value(#[trigger] q[j], 10) >= 0 by {
                assert(q[j] == p[j]);
            }
        }
        assert(q[0] == p[0]);
        lemma_decimal_text(q);
        lemma_decimal_positive(q);
        let vq = number_value(q, 10);
        let n = vq * 10 + d;
        assert(n >= 10 && n / 10 == vq && n % 10 == d) by (nonlinear_arith)
            requires
                vq >= 1,
                0 <= d < 10,
                n == vq * 10 + d,
        ;
        assert(q.push(c) =~= p);
    }
}

pub proof fn lemma_split_nonempty(s: Seq<char>, sep: char)
    ensures
        split_on(s, sep).len() >= 1,
    decreases s.len(),
{
    if s.len() > 0 {
        lemma_split_nonempty(s.drop_last(), sep);
    }
}

/// Appending a digit never makes a number smaller.
pub proof fn lemma_number_prefix(s: Seq<char>, radix: int, i: int)
    requires
        radix >= 2,
        all_digits(s, radix),
        0 <= i <= s.len(),
    ensures
        0 <= number_value(s.subrange(0, i), radix) <= number_value(s, radix),
    decreases s.len(),
{
    if s.len() > 0 {
        let p = s.drop_last();
        assert(all_digits(p, radix)) by {
            assert forall|j: int| 0 <= j < p.len() implies digit_value(#[trigger] p[j], radix) >= 0 by {
                assert(p[j] == s[j]);
            }
        }
        assert(digit_value(s[s.len() - 1], radix) >= 0);
        if i == s.len() {
            assert(s.subrange(0, i) =~= s);
            lemma_number_prefix(p, radix, p.len() as int);
            assert(p.subrange(0, p.len() as int) =~= p);
        } else {
            lemma_number_prefix(p, radix, i);
            assert(p.subrange(0, i) =~= s.subrange(0, i));
            lemma_number_prefix(p, radix, p.len() as int);
            assert(p.subrange(0, p.len() as int) =~= p);
        }
        assert(number_value(p, radix) * radix >= number_value(p, radix)) by (nonlinear_arith)
            requires
                number_value(p, radix) >= 0,
                radix >= 2,
        ;
    }
}

/// The characters of `s`, one by one.
pub fn chars_of(s: &str) -> (r: Vec<char>)
    ensures
        r@ == s@,
{
    let n = s.unicode_len();
    let mut v: Vec<char> = Vec::new();
    let mut i: usize = 0;
    while i < n
        invariant
            n == s@.len(),
            i <= n,
            v@ == s@.subrange(0, i as int),
        decreases n - i,
    {
        v.push(s.get_char(i));
        i += 1;
    }
    assert(v@ =~= s@);
    v
}

/// A copy of `s[lo..hi]`.
pub fn copy_range(s: &Vec<char>, lo: usize, hi: usize) -> (r: Vec<char>)
    requires
        lo <= hi <= s@.len(),
    ensures
        r@ == s@.subrange(lo as int, hi as int),
{
    let mut v: Vec<char> = Vec::new();
    let mut i: usize = lo;
    while i < hi
        invariant
            lo <= i <= hi <= s@.len(),
            v@ == s@.subrange(lo as int, i as int),
        decreases hi - i,
    {
        v.push(s[i]);
        i += 1;
    }
    v
}

/// Index of the last `c` in `s`, if any.
pub fn find_last(s: &Vec<char>, c: char) -> (r: Option<usize>)
    ensures
        r is None <==> last_index_of(s@, c) == -1,
        r matches Some(k) ==> k == last_index_of(s@, c) && k < s@.len(),
{
    let mut i: usize = s.len();
    assert(s@.subrange(0, i as int) =~= s@);
    while i > 0
        invariant
            i <= s@.len(),
            last_index_of(s@, c) == last_index_of(s@.subrange(0, i as int), c),
        decreases i,
    {
        let ghost p = s@.subrange(0, i as int);
        assert(p.drop_last() =~= s@.subrange(0, i - 1));
        if s[i - 1] == c {
            return Some(i - 1);
        }
        i -= 1;
    }
    assert(s@.subrange(0, 0) =~= Seq::<char>::empty());
    None
}

/// The pieces of `s` between occurrences of `sep`.
pub fn split_chars(s: &Vec<char>, sep: char) -> (r: Vec<Vec<char>>)
    ensures
        r@.len() == split_on(s@, sep).len(),
        forall|j: int| 0 <= j < r@.len() ==> (#[trigger] r@[j])@ == split_on(s@, sep)[j],
{
    let mut parts: Vec<Vec<char>> = Vec::new();
    let mut cur: Vec<char> = Vec::new();
    let mut i: usize = 0;
    assert(s@.subrange(0, 0) =~= Seq::<char>::empty());
    while i < s.len()
        invariant
            i <= s@.len(),
            parts@.len() + 1 == split_on(s@.subrange(0, i as int), sep).len(),
            forall|j: int|
                0 <= j < parts@.len() ==> (#[trigger] parts@[j])@ == split_on(
                    s@.subrange(0, i as int),
                    sep,
                )[j],
            cur@ == split_on(s@.subrange(0, i as int), sep).last(),
        decreases s@.len() - i,
    {
        let ghost prev = s@.subrange(0, i as int);
        let ghost next = s@.subrange(0, i + 1);
        assert(next.drop_last() =~= prev);
        assert(next.last() == s@[i as int]);
        proof {
            lemma_split_nonempty(prev, sep);
        }
        let c = s[i];
        if c == sep {
            parts.push(cur);
            cur = Vec::new();
        } else {
            cur.push(c);
        }
        i += 1;
    }
    assert(s@.subrange(0, s@.len() as int) =~= s@);
    parts.push(cur);
    parts
}

/// The value of `c` as a digit in `radix`.
pub fn digit_of(c: char, radix: u32) -> (r: Option<u32>)
    requires
        radix == 10 || radix == 16,
    ensures
        r is None <==> digit_value(c, radix as int) < 0,
        r matches Some(d) ==> d == digit_value(c, radix as int) && d < radix,
{
    if '0' <= c && c <= '9' && (c as u32) - ('0' as u32) < radix {
        Some((c as u32) - ('0' as u32))
    } else if radix == 16 && 'a' <= c && c <= 'f' {
        Some((c as u32) - ('a' as u32) + 10)
    } else if radix == 16 && 'A' <= c && c <= 'F' {
        Some((c as u32) - ('A' as u32) + 10)
    } else {
        None
    }
}

/// The number written by `d` in `radix`, when `d` is a nonempty run of digits
/// whose value is at most `max`.
pub fn parse_number(d: &Vec<char>, radix: u32, max: u32) -> (r: Option<u32>)
    requires
        radix == 10 || radix == 16,
        max <= 0xffff,
    ensures
        r is Some <==> (d@.len() > 0 && all_digits(d@, radix as int) && number_value(
            d@,
            radix as int,
        ) <= max),
        r matches Some(v) ==> v == number_value(d@, radix as int),
{
    if d.len() == 0 {
        return None;
    }
    let mut acc: u32 = 0;
    let mut i: usize = 0;
    assert(d@.subrange(0, 0) =~= Seq::<char>::empty());
    while i < d.len()
        invariant
            i <= d@.len(),
            radix == 10 || radix == 16,
            max <= 0xffff,
            all_digits(d@.subrange(0, i as int), radix as int),
            acc == number_value(d@.subrange(0, i as int), radix as int),
            acc <= max,
        decreases d@.len() - i,
    {
        let ghost next = d@.subrange(0, i + 1);
        assert(next.drop_last() =~= d@.subrange(0, i as int));
        match digit_of(d[i], radix) {
            None => {
                assert(!all_digits(d@, radix as int)) by {
                    assert(digit_value(d@[i as int], radix as int) < 0);
                }
                return None;
            },
            Some(v) => {
                let n = acc * radix + v;
                if n > max {
                    proof {
                        if all_digits(d@, radix as int) {
                            lemma_number_prefix(d@, radix as int, i + 1);
                        }
                    }
                    return None;
                }
                acc = n;
            },
        }
        i += 1;
    }
    assert(d@.subrange(0, d@.len() as int) =~= d@);
    Some(acc)
}

/// Relies on String::push: appends one character.
#[verifier::external_body]
pub(crate) fn push_char(s: &mut String, c: char)
    ensures
        final(s)@ == old(s)@.push(c),
{
    s.push(c);
}

/// Appends `n` written in `radix` (10 or 16, lowercase) to `out`.
pub fn push_number(out: &mut String, n: u32, radix: u32)
    requires
        radix == 10 || radix == 16,
    ensures
        final(out)@ == old(out)@ + number_text(n as nat, radix as nat),
{
    let mut digits: Vec<char> = Vec::new();
    let mut q: u32 = n;
    let ghost mut suffix: Seq<char> = Seq::empty();
    // digits holds the already produced low-order digits, least significant first
    while q >= radix
        invariant
            radix == 10 || radix == 16,
            number_text(n as nat, radix as nat) == number_text(q as nat, radix as nat) + suffix,
            digits@.len() == suffix.len(),
            forall|j: int| 0 <= j < suffix.len() ==> #[trigger] suffix[j] == digits@[digits@.len() - 1 - j],
        decreases q,
    {
        let d = q % radix;
        let c = if d < 10 {
            (('0' as u32) + d) as u8 as char
        } else {
            (('a' as u32) + d - 10) as u8 as char
        };
        assert(c == digit_char(d as int));
        let ghost old_suffix = suffix;
        proof {
            suffix = seq![c] + suffix;
            assert(number_text(q as nat, radix as nat) == number_text((q / radix) as nat, radix as nat).push(c));
            assert(number_text((q / radix) as nat, radix as nat).push(c) + old_suffix =~= number_text((q / radix) as nat, radix as nat) + suffix);
        }
        digits.push(c);
        q = q / radix;
    }
    let c0 = if q < 10 {
        (('0' as u32) + q) as u8 as char
    } else {
        (('a' as u32) + q - 10) as u8 as char
    };
    assert(number_text(q as nat, radix as nat) == seq![c0]);
    push_char(out, c0);
    let mut k: usize = digits.len();
    while k > 0
        invariant
            k <= digits@.len(),
            digits@.len() == suffix.len(),
            forall|j: int| 0 <= j < suffix.len() ==> #[trigger] suffix[j] == digits@[digits@.len() - 1 - j],
            out@ == old(out)@ + seq![c0] + suffix.subrange(0, (digits@.len() - k) as int),
        decreases k,
    {
        push_char(out, digits[k - 1]);
        proof {
            let m = (digits@.len() - k) as int;
            assert(suffix[m] == digits@[k - 1]);
            assert(suffix.subrange(0, m + 1) =~= suffix.subrange(0, m).push(suffix[m]));
        }
        k -= 1;
    }
    assert(suffix.subrange(0, suffix.len() as int) =~= suffix);
}

/// Appends the numbers `v[lo..hi]` written in `radix`, separated by `sep`.
pub fn push_joined(out: &mut String, v: &Vec<u32>, lo: usize, hi: usize, radix: u32, sep: char)
    requires
        lo <= hi <= v@.len(),
        radix == 10 || radix == 16,
    ensures
        final(out)@ == old(out)@ + joined(nats_of(v@).subrange(lo as int, hi as int), radix as nat, sep),
{
    let ghost start = out@;
    let mut i: usize = lo;
    assert(nats_of(v@).subrange(lo as int, lo as int) =~= Seq::<nat>::empty());
    assert(start =~= start + Seq::<char>::empty());
    while i < hi
        invariant
            lo <= i <= hi <= v@.len(),
            radix == 10 || radix == 16,
            out@ == start + joined(nats_of(v@).subrange(lo as int, i as int), radix as nat, sep),
        decreases hi - i,
    {
        let ghost prev = nats_of(v@).subrange(lo as int, i as int);
        let ghost next = nats_of(v@).subrange(lo as int, i + 1);
        assert(next.drop_last() =~= prev);
        assert(next.last() == v@[i as int] as nat);
        if i > lo {
            push_char(out, sep);
        }
        push_number(out, v[i], radix);
        proof {
            if i > lo {
                assert(start + joined(prev, radix as nat, sep).push(sep) + number_text(v@[i as int] as nat, radix as nat)
                    =~= start + joined(next, radix as nat, sep));
            } else {
                assert(prev.len() == 0);
                assert(next.len() == 1);
                assert(start + joined(prev, radix as nat, sep) + number_text(v@[i as int] as nat, radix as nat)
                    =~= start + joined(next, radix as nat, sep));
            }
        }
        i += 1;
    }
}

} // verus!
