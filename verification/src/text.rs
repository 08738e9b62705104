//! Character-level text helpers: joining and splitting on a separator,
//! decimal rendering of integers, and building `String`s from characters.
use vstd::prelude::*;
use vstd::string::StrSliceExecFns;

verus! {

/// The character views of a sequence of strings.
pub open spec fn string_views(v: Seq<String>) -> Seq<Seq<char>> {
    v.map_values(|s: String| s@)
}

/// Viewing after a push is pushing the view.
pub proof fn lemma_views_push(v: Seq<String>, x: String)
    ensures
        string_views(v.push(x)) == string_views(v).push(x@),
{
    assert(string_views(v.push(x)) =~= string_views(v).push(x@));
}

/// Joins segments, placing the separator between neighbours.
pub open spec fn join_seq(segs: Seq<Seq<char>>, sep: char) -> Seq<char>
    decreases segs.len(),
{
    if segs.len() == 0 {
        Seq::empty()
    } else if segs.len() == 1 {
        segs[0]
    } else {
        join_seq(segs.drop_last(), sep).push(sep) + segs.last()
    }
}

/// Splits at every occurrence of the separator, as `str::split` does:
/// the result always has one more segment than there are separators.
pub open spec fn split_seq(s: Seq<char>, sep: char) -> Seq<Seq<char>>
    decreases s.len(),
{
    if s.len() == 0 {
        seq![Seq::empty()]
    } else {
        let r = split_seq(s.drop_last(), sep);
        if s.last() == sep {
            r.push(Seq::empty())
        } else {
            r.update(r.len() - 1, r.last().push(s.last()))
        }
    }
}

/// Every character of `s` is different from `c`.
pub open spec fn free_of(s: Seq<char>, c: char) -> bool {
    forall|i: int| 0 <= i < s.len() ==> s[i] != c
}

pub proof fn lemma_split_nonempty(s: Seq<char>, sep: char)
    ensures
        split_seq(s, sep).len() >= 1,
        split_seq(s, sep).len() == 1 <==> free_of(s, sep),
    decreases s.len(),
{
    if s.len() > 0 {
        lemma_split_nonempty(s.drop_last(), sep);
        let d = s.drop_last();
        if s.last() == sep {
            assert(s[s.len() - 1] == sep);
        } else if free_of(d, sep) {
            assert forall|i: int| 0 <= i < s.len() implies s[i] != sep by {
                if i < s.len() - 1 {
                    assert(s[i] == d[i]);
                }
            }
        } else {
            let i = choose|i: int| 0 <= i < d.len() && d[i] == sep;
            assert(s[i] == sep);
        }
    }
}

proof fn lemma_join_replace_last(segs: Seq<Seq<char>>, sep: char, x: Seq<char>)
    requires
        segs.len() >= 1,
    ensures
        join_seq(segs.update(segs.len() - 1, segs.last() + x), sep) == join_seq(segs, sep) + x,
{
    let u = segs.update(segs.len() - 1, segs.last() + x);
    if segs.len() == 1 {
        assert(u[0] == segs[0] + x);
    } else {
        assert(u.drop_last() =~= segs.drop_last());
        assert(u.last() == segs.last() + x);
        assert(join_seq(u, sep) == join_seq(segs.drop_last(), sep).push(sep) + (segs.last() + x));
        assert((join_seq(segs.drop_last(), sep).push(sep) + segs.last()) + x =~= join_seq(
            segs.drop_last(),
            sep,
        ).push(sep) + (segs.last() + x));
    }
}

/// Joining the segments of a split gives the original text back.
pub proof fn lemma_join_split(s: Seq<char>, sep: char)
    ensures
        join_seq(split_seq(s, sep), sep) == s,
    decreases s.len(),
{
    if s.len() == 0 {
        assert(join_seq(seq![Seq::<char>::empty()], sep) == Seq::<char>::empty());
    } else {
        let r = split_seq(s.drop_last(), sep);
        lemma_split_nonempty(s.drop_last(), sep);
        lemma_join_split(s.drop_last(), sep);
        if s.last() == sep {
            let p = r.push(Seq::<char>::empty());
            assert(p.drop_last() =~= r);
            assert(join_seq(p, sep) == join_seq(r, sep).push(sep) + Seq::<char>::empty());
            assert(join_seq(p, sep) =~= s);
        } else {
            lemma_join_replace_last(r, sep, seq![s.last()]);
            assert(r.last().push(s.last()) =~= r.last() + seq![s.last()]);
            assert(join_seq(r, sep) + seq![s.last()] =~= s);
        }
    }
}

proof fn lemma_split_append_free(t: Seq<char>, x: Seq<char>, sep: char)
    requires
        free_of(x, sep),
    ensures
        split_seq(t + x, sep) == split_seq(t, sep).update(
            split_seq(t, sep).len() - 1,
            split_seq(t, sep).last() + x,
        ),
    decreases x.len(),
{
    lemma_split_nonempty(t, sep);
    let r = split_seq(t, sep);
    if x.len() == 0 {
        assert(t + x =~= t);
        assert(r.last() + x =~= r.last());
        assert(r.update(r.len() - 1, r.last()) =~= r);
    } else {
        let xs = x.drop_last();
        assert(free_of(xs, sep));
        lemma_split_append_free(t, xs, sep);
        assert((t + x).drop_last() =~= t + xs);
        assert((t + x).last() == x.last());
        let r2 = split_seq(t + xs, sep);
        assert(r2 == r.update(r.len() - 1, r.last() + xs));
        assert(r2.last().push(x.last()) =~= r.last() + x);
        assert(r2.update(r2.len() - 1, r2.last().push(x.last())) =~= r.update(
            r.len() - 1,
            r.last() + x,
        ));
    }
}

/// Splitting a join of separator-free segments gives the segments back.
pub proof fn lemma_split_join(segs: Seq<Seq<char>>, sep: char)
    requires
        segs.len() >= 1,
        forall|i: int| 0 <= i < segs.len() ==> free_of(#[trigger] segs[i], sep),
    ensures
        split_seq(join_seq(segs, sep), sep) == segs,
    decreases segs.len(),
{
    if segs.len() == 1 {
        lemma_split_append_free(Seq::empty(), segs[0], sep);
        assert(Seq::<char>::empty() + segs[0] =~= segs[0]);
        assert(split_seq(Seq::<char>::empty(), sep) == seq![Seq::<char>::empty()]);
        assert(seq![Seq::<char>::empty()].update(0, Seq::<char>::empty() + segs[0]) =~= segs);
    } else {
        let init = segs.drop_last();
        assert forall|i: int| 0 <= i < init.len() implies free_of(#[trigger] init[i], sep) by {
            assert(init[i] == segs[i]);
        }
        lemma_split_join(init, sep);
        let j = join_seq(init, sep).push(sep);
        assert(j.drop_last() =~= join_seq(init, sep));
        assert(split_seq(j, sep) == init.push(Seq::<char>::empty()));
        assert(free_of(segs[segs.len() - 1], sep));
        lemma_split_append_free(j, segs.last(), sep);
        let p = init.push(Seq::<char>::empty());
        assert(p.update(p.len() - 1, p.last() + segs.last()) =~= segs);
    }
}

/// Appends one character to a string.
#[verifier::external_body]
pub fn string_push(s: &mut String, c: char)
    ensures
        final(s)@ == old(s)@.push(c),
{
    s.push(c);
}

/// Builds a string from its characters.
pub fn string_from_chars(cs: &[char]) -> (r: String)
    ensures
        r@ == cs@,
{
    let mut r = String::new();
    let mut i: usize = 0;
    while i < cs.len()
        invariant
            i <= cs@.len(),
            r@ == cs@.subrange(0, i as int),
        decreases cs@.len() - i,
    {
        string_push(&mut r, cs[i]);
        assert(cs@.subrange(0, i + 1) =~= cs@.subrange(0, i as int).push(cs@[i as int]));
        i += 1;
    }
    assert(cs@.subrange(0, cs@.len() as int) =~= cs@);
    r
}

/// Appends all characters of `t` to `s`.
pub fn string_extend(s: &mut String, t: &str)
    ensures
        final(s)@ == old(s)@ + t@,
{
    let n = t.unicode_len();
    let mut i: usize = 0;
    while i < n
        invariant
            n == t@.len(),
            i <= n,
            s@ == old(s)@ + t@.subrange(0, i as int),
        decreases n - i,
    {
        let c = t.get_char(i);
        string_push(s, c);
        assert(t@.subrange(0, i + 1) =~= t@.subrange(0, i as int).push(c));
        assert(old(s)@ + t@.subrange(0, i + 1) =~= (old(s)@ + t@.subrange(0, i as int)).push(c));
        i += 1;
    }
    assert(t@.subrange(0, n as int) =~= t@);
}

/// The characters of a string slice, one per element.
pub fn chars_of(s: &str) -> (r: Vec<char>)
    ensures
        r@ == s@,
{
    let n = s.unicode_len();
    let mut v: Vec<char> = Vec::new();
    let mut i: usize = 0;
    while i < n
        invariant
            n == s@.len(),
            i <= n,
            v@ == s@.subrange(0, i as int),
        decreases n - i,
    {
        v.push(s.get_char(i));
        i += 1;
    }
    assert(s@.subrange(0, n as int) =~= s@);
    v
}

/// Copies a string.
pub fn copy_string(s: &String) -> (r: String)
    ensures
        r == *s,
        r@ == s@,
{
    s.clone()
}

/// Copies a vector of strings.
pub fn copy_strings(v: &Vec<String>) -> (r: Vec<String>)
    ensures
        r@ == v@,
{
    let mut r: Vec<String> = Vec::new();
    let mut i: usize = 0;
    while i < v.len()
        invariant
            i <= v@.len(),
            r@ == v@.subrange(0, i as int),
        decreases v@.len() - i,
    {
        r.push(copy_string(&v[i]));
        assert(v@.subrange(0, i + 1) =~= v@.subrange(0, i as int).push(v@[i as int]));
        i += 1;
    }
    assert(v@.subrange(0, v@.len() as int) =~= v@);
    r
}

/// Compares the characters of two strings.
pub fn same_text(a: &str, b: &str) -> (r: bool)
    ensures
        r == (a@ == b@),
{
    let n = a.unicode_len();
    let m = b.unicode_len();
    if n != m {
        return false;
    }
    let mut i: usize = 0;
    while i < n
        invariant
            n == a@.len(),
            m == b@.len(),
            n == m,
            i <= n,
            a@.subrange(0, i as int) == b@.subrange(0, i as int),
        decreases n - i,
    {
        if a.get_char(i) != b.get_char(i) {
            assert(a@[i as int] != b@[i as int]);
            return false;
        }
        assert(a@.subrange(0, i + 1) =~= a@.subrange(0, i as int).push(a@[i as int]));
        assert(b@.subrange(0, i + 1) =~= b@.subrange(0, i as int).push(b@[i as int]));
        i += 1;
    }
    assert(a@.subrange(0, n as int) =~= a@);
    assert(b@.subrange(0, n as int) =~= b@);
    true
}

/// Joins strings with a separator character.
pub fn join_strings(parts: &Vec<String>, sep: char) -> (r: String)
    ensures
        r@ == join_seq(string_views(parts@), sep),
{
    let mut r = String::new();
    let mut i: usize = 0;
    while i < parts.len()
        invariant
            i <= parts@.len(),
            r@ == join_seq(string_views(parts@.subrange(0, i as int)), sep),
        decreases parts@.len() - i,
    {
        let ghost before = string_views(parts@.subrange(0, i as int));
        let ghost after = string_views(parts@.subrange(0, i + 1));
        assert(after.drop_last() =~= before);
        assert(after.last() == parts@[i as int]@);
        if i > 0 {
            string_push(&mut r, sep);
        } else {
            assert(before.len() == 0);
            assert(r@ =~= Seq::<char>::empty());
        }
        string_extend(&mut r, parts[i].as_str());
        if i == 0 {
            assert(after.len() == 1);
            assert(r@ =~= after[0]);
        }
        i += 1;
    }
    assert(parts@.subrange(0, parts@.len() as int) =~= parts@);
    r
}

/// Splits a string at every occurrence of a separator character.
pub fn split_string(s: &str, sep: char) -> (r: Vec<String>)
    ensures
        string_views(r@) == split_seq(s@, sep),
{
    let n = s.unicode_len();
    let mut r: Vec<String> = Vec::new();
    let mut cur = String::new();
    let mut i: usize = 0;
    while i < n
        invariant
            n == s@.len(),
            i <= n,
            string_views(r@).push(cur@) == split_seq(s@.subrange(0, i as int), sep),
        decreases n - i,
    {
        let c = s.get_char(i);
        let ghost pre = s@.subrange(0, i as int);
        let ghost nxt = s@.subrange(0, i + 1);
        assert(nxt.drop_last() =~= pre);
        assert(nxt.last() == c);
        proof { lemma_split_nonempty(pre, sep); }
        if c == sep {
            let ghost old_r = string_views(r@);
            let done = cur;
            r.push(done);
            cur = String::new();
            assert(string_views(r@) =~= old_r.push(done@));
            assert(string_views(r@).push(cur@) =~= old_r.push(done@).push(Seq::<char>::empty()));
        } else {
            let ghost old_r = string_views(r@);
            let ghost old_cur = cur@;
            string_push(&mut cur, c);
            assert(old_r.push(cur@) =~= old_r.push(old_cur).update(
                old_r.len() as int,
                old_cur.push(c),
            ));
        }
        i += 1;
    }
    assert(s@.subrange(0, n as int) =~= s@);
    let ghost old_r = string_views(r@);
    r.push(cur);
    assert(string_views(r@) =~= old_r.push(r@.last()@));
    r
}

/// The decimal digits of a natural number, most significant first.
pub open spec fn decimal_chars(n: nat) -> Seq<char>
    decreases n,
{
    if n < 10 {
        seq![digit_of(n)]
    } else {
        decimal_chars(n / 10).push(digit_of(n % 10))
    }
}

/// The character of a decimal digit.
pub open spec fn digit_of(d: nat) -> char {
    if d == 0 {
        '0'
    } else if d == 1 {
        '1'
    } else if d == 2 {
        '2'
    } else if d == 3 {
        '3'
    } else if d == 4 {
        '4'
    } else if d == 5 {
        '5'
    } else if d == 6 {
        '6'
    } else if d == 7 {
        '7'
    } else if d == 8 {
        '8'
    } else {
        '9'
    }
}

/// Whether a character is a decimal digit.
pub open spec fn is_digit(c: char) -> bool {
    '0' <= c <= '9'
}

/// A nonempty run of decimal digits.
pub open spec fn all_digits(s: Seq<char>) -> bool {
    s.len() >= 1 && forall|i: int| 0 <= i < s.len() ==> is_digit(#[trigger] s[i])
}

/// The value of a decimal digit character.
pub open spec fn digit_value(c: char) -> nat {
    ((c as u32) - ('0' as u32)) as nat
}

/// The value of a sequence of decimal digits.
pub open spec fn decimal_value(s: Seq<char>) -> nat
    decreases s.len(),
{
    if s.len() == 0 {
        0
    } else {
        decimal_value(s.drop_last()) * 10 + digit_value(s.last())
    }
}

proof fn lemma_digit_of(d: nat)
    requires
        d < 10,
    ensures
        is_digit(digit_of(d)),
        digit_value(digit_of(d)) == d,
{
}

/// Reading back the decimal rendering of a number gives the number.
pub proof fn lemma_decimal_roundtrip(n: nat)
    ensures
        decimal_value(decimal_chars(n)) == n,
        forall|i: int| 0 <= i < decimal_chars(n).len() ==> is_digit(#[trigger] decimal_chars(n)[i]),
        decimal_chars(n).len() >= 1,
    decreases n,
{
    if n < 10 {
        lemma_digit_of(n);
        let s = decimal_chars(n);
        assert(s.drop_last() =~= Seq::<char>::empty());
        assert(decimal_value(s) == decimal_value(s.drop_last()) * 10 + digit_value(s.last()));
    } else {
        lemma_decimal_roundtrip(n / 10);
        lemma_digit_of(n % 10);
        let s = decimal_chars(n);
        assert(s.drop_last() =~= decimal_chars(n / 10));
        assert((n / 10) * 10 + n % 10 == n) by (nonlinear_arith);
        assert(decimal_value(s) == decimal_value(s.drop_last()) * 10 + digit_value(s.last()));
        assert forall|i: int| 0 <= i < s.len() implies is_digit(#[trigger] s[i]) by {
            if i < s.len() - 1 {
                assert(s[i] == decimal_chars(n / 10)[i]);
            }
        }
    }
}

fn digit_char(d: usize) -> (c: char)
    requires
        d < 10,
    ensures
        c == digit_of(d as nat),
{
    if d == 0 {
        '0'
    } else if d == 1 {
        '1'
    } else if d == 2 {
        '2'
    } else if d == 3 {
        '3'
    } else if d == 4 {
        '4'
    } else if d == 5 {
        '5'
    } else if d == 6 {
        '6'
    } else if d == 7 {
        '7'
    } else if d == 8 {
        '8'
    } else {
        '9'
    }
}

/// The decimal rendering of a number.
pub fn usize_to_string(n: usize) -> (r: String)
    ensures
        r@ == decimal_chars(n as nat),
{
    // digits collected least significant first
    let mut rev: Vec<char> = Vec::new();
    let mut m: usize = n;
    let ghost mut acc: Seq<char> = Seq::empty();
    while m >= 10
        invariant
            m <= n,
            decimal_chars(n as nat) == decimal_chars(m as nat) + rev@.reverse(),
        decreases m,
    {
        let d = m % 10;
        let c = digit_char(d);
        let ghost old_rev = rev@;
        rev.push(c);
        assert(decimal_chars(m as nat) == decimal_chars((m / 10) as nat).push(c));
        assert(rev@.reverse() =~= seq![c] + old_rev.reverse());
        assert(decimal_chars((m / 10) as nat).push(c) + old_rev.reverse() =~= decimal_chars(
            (m / 10) as nat,
        ) + rev@.reverse());
        m = m / 10;
    }
    let mut r = String::new();
    string_push(&mut r, digit_char(m));
    assert(r@ =~= decimal_chars(m as nat));
    let mut k: usize = rev.len();
    while k > 0
        invariant
            k <= rev@.len(),
            decimal_chars(n as nat) == r@ + rev@.subrange(0, k as int).reverse(),
        decreases k,
    {
        k -= 1;
        let ghost old_r = r@;
        string_push(&mut r, rev[k]);
        assert(rev@.subrange(0, k + 1).reverse() =~= seq![rev@[k as int]] + rev@.subrange(
            0,
            k as int,
        ).reverse());
        assert(old_r + rev@.subrange(0, k + 1).reverse() =~= r@ + rev@.subrange(
            0,
            k as int,
        ).reverse());
    }
    assert(rev@.subrange(0, 0).reverse() =~= Seq::<char>::empty());
    assert(r@ + Seq::<char>::empty() =~= r@);
    r
}

/// The decimal rendering of a signed number, with a leading '-' when negative.
pub open spec fn signed_decimal_chars(n: int) -> Seq<char> {
    if n < 0 {
        seq!['-'] + decimal_chars((-n) as nat)
    } else {
        decimal_chars(n as nat)
    }
}

/// The decimal rendering of a signed number.
pub fn isize_to_string(n: isize) -> (r: String)
    ensures
        r@ == signed_decimal_chars(n as int),
{
    if n < 0 {
        let magnitude: usize = if n == isize::MIN {
            (isize::MAX as usize) + 1
        } else {
            (-n) as usize
        };
        let digits = usize_to_string(magnitude);
        let mut r = String::new();
        string_push(&mut r, '-');
        string_extend(&mut r, digits.as_str());
        assert(r@ =~= seq!['-'] + digits@);
        r
    } else {
        usize_to_string(n as usize)
    }
}

/// The character of a hexadecimal digit, lower case.
pub open spec fn hex_digit_of(d: nat) -> char {
    if d < 10 {
        digit_of(d)
    } else if d == 10 {
        'a'
    } else if d == 11 {
        'b'
    } else if d == 12 {
        'c'
    } else if d == 13 {
        'd'
    } else if d == 14 {
        'e'
    } else {
        'f'
    }
}

/// The hexadecimal digits of a natural number, most significant first.
pub open spec fn hex_chars(n: nat) -> Seq<char>
    decreases n,
{
    if n < 16 {
        seq![hex_digit_of(n)]
    } else {
        hex_chars(n / 16).push(hex_digit_of(n % 16))
    }
}

fn hex_digit_char(d: usize) -> (c: char)
    requires
        d < 16,
    ensures
        c == hex_digit_of(d as nat),
{
    if d < 10 {
        digit_char(d)
    } else if d == 10 {
        'a'
    } else if d == 11 {
        'b'
    } else if d == 12 {
        'c'
    } else if d == 13 {
        'd'
    } else if d == 14 {
        'e'
    } else {
        'f'
    }
}

/// The lower-case hexadecimal rendering of a number.
pub fn usize_to_hex(n: usize) -> (r: String)
    ensures
        r@ == hex_chars(n as nat),
    decreases n,
{
    let mut r = if n < 16 {
        String::new()
    } else {
        usize_to_hex(n / 16)
    };
    let ghost before = r@;
    string_push(&mut r, hex_digit_char(n % 16));
    proof {
        if n < 16 {
            assert(r@ =~= seq![hex_digit_of(n as nat)]);
        }
    }
    r
}

} // verus!
