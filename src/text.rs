//! Decimal numerals and separator-delimited fields: the textual building
//! blocks of the log's operation encoding and of the store's key names.

use vstd::prelude::*;

verus! {

/// The character of a decimal digit.
pub open spec fn digit_char(d: int) -> char {
    if d == 0 { '0' }
    else if d == 1 { '1' }
    else if d == 2 { '2' }
    else if d == 3 { '3' }
    else if d == 4 { '4' }
    else if d == 5 { '5' }
    else if d == 6 { '6' }
    else if d == 7 { '7' }
    else if d == 8 { '8' }
    else { '9' }
}

/// The value of a decimal digit character.
pub open spec fn digit_value(c: char) -> int {
    if c == '0' { 0 }
    else if c == '1' { 1 }
    else if c == '2' { 2 }
    else if c == '3' { 3 }
    else if c == '4' { 4 }
    else if c == '5' { 5 }
    else if c == '6' { 6 }
    else if c == '7' { 7 }
    else if c == '8' { 8 }
    else { 9 }
}

pub open spec fn is_digit(c: char) -> bool {
    '0' <= c && c <= '9'
}

/// A non-empty run of decimal digits.
pub open spec fn is_digits(s: Seq<char>) -> bool {
    s.len() > 0 && forall|i: int| 0 <= i < s.len() ==> is_digit(#[trigger] s[i])
}

/// The digits of a natural number, most significant first, without leading zeros.
pub open spec fn nat_digits(n: nat) -> Seq<char>
    decreases n,
{
    if n < 10 {
        seq![digit_char(n as int)]
    } else {
        nat_digits(n / 10).push(digit_char((n % 10) as int))
    }
}

/// The canonical decimal form of an integer.
pub open spec fn decimal(n: int) -> Seq<char> {
    if n < 0 {
        seq!['-'] + nat_digits((-n) as nat)
    } else {
        nat_digits(n as nat)
    }
}

/// The number that a run of digits denotes.
pub open spec fn digits_value(s: Seq<char>) -> int
    decreases s.len(),
{
    if s.len() == 0 {
        0
    } else {
        digits_value(s.drop_last()) * 10 + digit_value(s.last())
    }
}

/// The integer a numeral denotes: digits, optionally after one sign character.
pub open spec fn numeral_value(s: Seq<char>) -> Option<int> {
    if s.len() > 0 && s[0] == '-' && is_digits(s.drop_first()) {
        Some(-digits_value(s.drop_first()))
    } else if s.len() > 0 && s[0] == '+' && is_digits(s.drop_first()) {
        Some(digits_value(s.drop_first()))
    } else if is_digits(s) {
        Some(digits_value(s))
    } else {
        None
    }
}

pub open spec fn is_i32(v: int) -> bool {
    i32::MIN <= v <= i32::MAX
}

/// The `i32` a string reads as, if any.
pub open spec fn i32_of(s: Seq<char>) -> Option<i32> {
    match numeral_value(s) {
        Some(v) => if is_i32(v) { Some(v as i32) } else { None },
        None => None,
    }
}

/// The pieces of `s` between occurrences of `sep`; always at least one piece.
pub open spec fn split(s: Seq<char>, sep: char) -> Seq<Seq<char>>
    decreases s.len(),
{
    if s.len() == 0 {
        seq![Seq::<char>::empty()]
    } else {
        let rest = split(s.drop_first(), sep);
        if s[0] == sep {
            seq![Seq::<char>::empty()] + rest
        } else {
            rest.update(0, seq![s[0]] + rest[0])
        }
    }
}

/// The pieces put back together with `sep` between neighbours.
pub open spec fn join(parts: Seq<Seq<char>>, sep: char) -> Seq<char>
    decreases parts.len(),
{
    if parts.len() == 0 {
        Seq::empty()
    } else if parts.len() == 1 {
        parts[0]
    } else {
        parts[0] + seq![sep] + join(parts.drop_first(), sep)
    }
}

pub open spec fn free_of(s: Seq<char>, c: char) -> bool {
    forall|i: int| 0 <= i < s.len() ==> s[i] != c
}

pub proof fn lemma_digit(d: int)
    requires
        0 <= d < 10,
    ensures
        digit_value(digit_char(d)) == d,
        is_digit(digit_char(d)),
{
}

pub proof fn lemma_nat_digits(n: nat)
    ensures
        is_digits(nat_digits(n)),
        digits_value(nat_digits(n)) == n,
        nat_digits(n)[0] != '-',
        nat_digits(n)[0] != '+',
    decreases n,
{
    if n >= 10 {
        lemma_nat_digits(n / 10);
        lemma_digit((n % 10) as int);
        let s = nat_digits(n);
        assert(s.drop_last() =~= nat_digits(n / 10));
        assert(s.last() == digit_char((n % 10) as int));
        assert(n == (n / 10) * 10 + n % 10);
        assert(digits_value(s) == digits_value(s.drop_last()) * 10 + digit_value(s.last()));
        assert(digits_value(s) == (n / 10) * 10 + n % 10);
        assert forall|i: int| 0 <= i < s.len() implies is_digit(#[trigger] s[i]) by {
            if i < s.len() - 1 {
                assert(s[i] == nat_digits(n / 10)[i]);
            }
        }
    } else {
        lemma_digit(n as int);
        let s = nat_digits(n);
        assert(s.drop_last() =~= Seq::<char>::empty());
        assert(digits_value(Seq::<char>::empty()) == 0);
        assert(digits_value(s) == digits_value(s.drop_last()) * 10 + digit_value(s.last()));
    }
}

/// Reading the canonical decimal form of an integer gives the integer back.
pub proof fn lemma_decimal_round_trip(n: int)
    ensures
        numeral_value(decimal(n)) == Some(n),
{
    if n < 0 {
        lemma_nat_digits((-n) as nat);
        let s = decimal(n);
        assert(s.drop_first() =~= nat_digits((-n) as nat));
    } else {
        lemma_nat_digits(n as nat);
    }
}

pub proof fn lemma_decimal_free_of(n: int, c: char)
    requires
        !is_digit(c),
        c != '-',
    ensures
        free_of(decimal(n), c),
{
    let m: nat = if n < 0 { (-n) as nat } else { n as nat };
    lemma_nat_digits(m);
    let d = nat_digits(m);
    assert(forall|i: int| 0 <= i < d.len() ==> is_digit(#[trigger] d[i]));
    if n < 0 {
        let s = decimal(n);
        assert forall|i: int| 0 <= i < s.len() implies s[i] != c by {
            if i > 0 {
                assert(s[i] == d[i - 1]);
            }
        }
    }
}

pub proof fn lemma_split_len(s: Seq<char>, sep: char)
    ensures
        split(s, sep).len() >= 1,
    decreases s.len(),
{
    if s.len() > 0 {
        lemma_split_len(s.drop_first(), sep);
    }
}

/// Splitting a concatenation joins the last piece of the left part to the
/// first piece of the right part.
pub proof fn lemma_split_concat(p: Seq<char>, r: Seq<char>, sep: char)
    ensures
        split(p + r, sep) =~= split(p, sep).drop_last() + seq![
            split(p, sep).last() + split(r, sep)[0],
        ] + split(r, sep).drop_first(),
    decreases p.len(),
{
    lemma_split_len(r, sep);
    if p.len() == 0 {
        assert(p + r =~= r);
        assert(split(p, sep).drop_last() =~= Seq::<Seq<char>>::empty());
        assert(seq![Seq::<char>::empty() + split(r, sep)[0]] =~= seq![split(r, sep)[0]]);
        assert(split(r, sep) =~= seq![split(r, sep)[0]] + split(r, sep).drop_first());
    } else {
        let q = p.drop_first();
        lemma_split_concat(q, r, sep);
        lemma_split_len(q, sep);
        assert((p + r).drop_first() =~= q + r);
        assert((p + r)[0] == p[0]);
        let a = split(q, sep);
        let rr = split(r, sep);
        if p[0] == sep {
            assert(split(p, sep) =~= seq![Seq::<char>::empty()] + a);
            assert(split(p, sep).drop_last() =~= seq![Seq::<char>::empty()] + a.drop_last());
        } else {
            let x = a.drop_last() + seq![a.last() + rr[0]] + rr.drop_first();
            assert(split(p + r, sep) == x.update(0, seq![p[0]] + x[0]));
            if a.len() == 1 {
                assert(x[0] == a[0] + rr[0]);
                assert(seq![p[0]] + (a[0] + rr[0]) =~= (seq![p[0]] + a[0]) + rr[0]);
            } else {
                assert(x[0] == a[0]);
            }
        }
    }
}

/// Splitting a text without separators gives the text as its only piece.
pub proof fn lemma_split_free(s: Seq<char>, sep: char)
    requires
        free_of(s, sep),
    ensures
        split(s, sep) =~= seq![s],
    decreases s.len(),
{
    if s.len() > 0 {
        let q = s.drop_first();
        assert(free_of(q, sep)) by {
            assert forall|i: int| 0 <= i < q.len() implies q[i] != sep by {
                assert(q[i] == s[i + 1]);
            }
        }
        lemma_split_free(q, sep);
        assert(s[0] != sep);
        assert(split(s, sep) == split(q, sep).update(0, seq![s[0]] + split(q, sep)[0]));
        assert(seq![s[0]] + q =~= s);
        assert(split(q, sep)[0] == q);
        assert(split(s, sep)[0] == s);
        assert(split(s, sep).len() == 1);
    } else {
        assert(s =~= Seq::<char>::empty());
    }
}

proof fn lemma_split_single_sep(sep: char)
    ensures
        split(seq![sep], sep) =~= seq![Seq::<char>::empty(), Seq::<char>::empty()],
{
    let e = Seq::<char>::empty();
    assert(seq![sep].drop_first() =~= e);
    assert(split(e, sep) == seq![e]);
    assert(seq![sep][0] == sep);
}

proof fn lemma_split_single_other(c: char, sep: char)
    requires
        c != sep,
    ensures
        split(seq![c], sep) =~= seq![seq![c]],
{
    let e = Seq::<char>::empty();
    assert(seq![c].drop_first() =~= e);
    assert(split(e, sep) == seq![e]);
    assert(seq![c][0] == c);
    assert(seq![c] + e =~= seq![c]);
}

/// Splitting joined pieces that hold no separator gives the pieces back.
pub proof fn lemma_split_join(parts: Seq<Seq<char>>, sep: char)
    requires
        parts.len() >= 1,
        forall|i: int| 0 <= i < parts.len() ==> free_of(#[trigger] parts[i], sep),
    ensures
        split(join(parts, sep), sep) =~= parts,
    decreases parts.len(),
{
    assert(free_of(parts[0], sep));
    lemma_split_free(parts[0], sep);
    if parts.len() > 1 {
        let rest = parts.drop_first();
        assert forall|i: int| 0 <= i < rest.len() implies free_of(#[trigger] rest[i], sep) by {
            assert(rest[i] == parts[i + 1]);
        }
        lemma_split_join(rest, sep);
        let head = parts[0] + seq![sep];
        lemma_split_concat(parts[0], seq![sep], sep);
        lemma_split_single_sep(sep);
        assert(parts[0] + Seq::<char>::empty() =~= parts[0]);
        assert(split(head, sep) =~= seq![parts[0], Seq::<char>::empty()]);
        lemma_split_concat(head, join(rest, sep), sep);
        assert(join(parts, sep) == head + join(rest, sep));
        assert(Seq::<char>::empty() + rest[0] =~= rest[0]);
        assert(parts =~= seq![parts[0]] + seq![rest[0]] + rest.drop_first());
    }
}

/// Whether two strings hold the same text.
pub fn same_text(a: &String, b: &String) -> (r: bool)
    ensures
        r == (a@ == b@),
{
    *a == *b
}

/// Relies on `String::push`: the character is added at the end.
#[verifier::external_body]
pub(crate) fn push_char(s: &mut String, c: char)
    ensures
        final(s)@ == old(s)@.push(c),
{
    s.push(c)
}

pub fn digit_to_char(d: u32) -> (c: char)
    requires
        d < 10,
    ensures
        c == digit_char(d as int),
{
    if d == 0 { '0' }
    else if d == 1 { '1' }
    else if d == 2 { '2' }
    else if d == 3 { '3' }
    else if d == 4 { '4' }
    else if d == 5 { '5' }
    else if d == 6 { '6' }
    else if d == 7 { '7' }
    else if d == 8 { '8' }
    else { '9' }
}

pub fn char_to_digit(c: char) -> (d: u32)
    requires
        is_digit(c),
    ensures
        d == digit_value(c),
        d < 10,
{
    if c == '0' { 0 }
    else if c == '1' { 1 }
    else if c == '2' { 2 }
    else if c == '3' { 3 }
    else if c == '4' { 4 }
    else if c == '5' { 5 }
    else if c == '6' { 6 }
    else if c == '7' { 7 }
    else if c == '8' { 8 }
    else { 9 }
}

/// Appends the digits of `n`.
pub fn push_digits(out: &mut String, n: u32)
    ensures
        final(out)@ == old(out)@ + nat_digits(n as nat),
    decreases n,
{
    if n >= 10 {
        push_digits(out, n / 10);
    }
    push_char(out, digit_to_char(n % 10));
    proof {
        if n < 10 {
            assert(nat_digits(n as nat) == seq![digit_char(n as int)]);
        }
    }
    assert(final(out)@ =~= old(out)@ + nat_digits(n as nat));
}

/// Appends the canonical decimal form of `n`.
pub fn push_i32(out: &mut String, n: i32)
    ensures
        final(out)@ == old(out)@ + decimal(n as int),
{
    if n < 0 {
        push_char(out, '-');
        let m: u32 = (-(n as i64)) as u32;
        push_digits(out, m);
        assert(final(out)@ =~= old(out)@ + decimal(n as int));
    } else {
        push_digits(out, n as u32);
    }
}

/// The canonical decimal form of `n`.
pub fn format_i32(n: i32) -> (r: String)
    ensures
        r@ == decimal(n as int),
{
    let mut out = String::new();
    push_i32(&mut out, n);
    assert(out@ =~= decimal(n as int));
    out
}

/// One more than the largest magnitude an `i32` can have.
const SATURATE: i64 = 2147483649;

proof fn lemma_saturate_step(x: int, d: int)
    requires
        x >= 0,
        0 <= d < 10,
    ensures
        (if x < SATURATE { x } else { SATURATE as int }) * 10 + d >= SATURATE
            <==> x * 10 + d >= SATURATE,
        x >= SATURATE ==> x * 10 + d >= SATURATE,
        x < SATURATE ==> (if x < SATURATE { x } else { SATURATE as int }) * 10 + d == x * 10 + d,
{
    if x >= SATURATE {
        assert(x * 10 >= SATURATE) by (nonlinear_arith)
            requires x >= SATURATE;
    }
}

proof fn lemma_digits_value_nonneg(s: Seq<char>)
    ensures
        digits_value(s) >= 0,
    decreases s.len(),
{
    if s.len() > 0 {
        lemma_digits_value_nonneg(s.drop_last());
    }
}

/// The value of the digits of `s` from `start` on, or `None` when they are
/// not all digits; values past the `i32` magnitude come back saturated.
fn read_digits(s: &str, start: usize) -> (r: Option<i64>)
    requires
        start <= s@.len(),
    ensures
        match r {
            Some(v) => is_digits(s@.subrange(start as int, s@.len() as int)) && 0 <= v && v == (if digits_value(
                s@.subrange(start as int, s@.len() as int),
            ) < SATURATE {
                digits_value(s@.subrange(start as int, s@.len() as int))
            } else {
                SATURATE as int
            }),
            None => !is_digits(s@.subrange(start as int, s@.len() as int)),
        },
{
    let len = s.unicode_len();
    if start >= len {
        return None;
    }
    let mut acc: i64 = 0;
    let mut i: usize = start;
    while i < len
        invariant
            start <= i <= len,
            len == s@.len(),
            0 <= acc <= SATURATE,
            forall|j: int| start <= j < i ==> is_digit(#[trigger] s@[j]),
            acc == (if digits_value(s@.subrange(start as int, i as int)) < SATURATE {
                digits_value(s@.subrange(start as int, i as int))
            } else {
                SATURATE as int
            }),
        decreases len - i,
    {
        let c = s.get_char(i);
        if !('0' <= c && c <= '9') {
            proof {
                let t = s@.subrange(start as int, len as int);
                assert(t[i - start] == c);
            }
            return None;
        }
        let d = char_to_digit(c);
        proof {
            let p = s@.subrange(start as int, i as int);
            let q = s@.subrange(start as int, i as int + 1);
            assert(q.drop_last() =~= p);
            assert(q.last() == c);
            lemma_digits_value_nonneg(p);
            lemma_saturate_step(digits_value(p), d as int);
        }
        let next: i64 = acc * 10 + d as i64;
        acc = if next < SATURATE { next } else { SATURATE };
        i = i + 1;
    }
    proof {
        let t = s@.subrange(start as int, len as int);
        assert forall|j: int| 0 <= j < t.len() implies is_digit(#[trigger] t[j]) by {
            assert(t[j] == s@[start + j]);
        }
    }
    Some(acc)
}

/// The `i32` that `s` reads as, if it is a numeral (digits, optionally after
/// one sign character) whose value fits.
pub fn parse_i32(s: &str) -> (r: Option<i32>)
    ensures
        r == i32_of(s@),
{
    let len = s.unicode_len();
    if len == 0 {
        return None;
    }
    let c0 = s.get_char(0);
    if c0 == '-' || c0 == '+' {
        let m = read_digits(s, 1);
        proof {
            assert(s@.subrange(1, s@.len() as int) =~= s@.drop_first());
            assert(!is_digits(s@)) by {
                assert(!is_digit(s@[0]));
            }
        }
        match m {
            None => None,
            Some(v) => {
                if c0 == '-' {
                    if v <= 2147483648 {
                        Some((-v) as i32)
                    } else {
                        None
                    }
                } else {
                    if v <= 2147483647 {
                        Some(v as i32)
                    } else {
                        None
                    }
                }
            },
        }
    } else {
        let m = read_digits(s, 0);
        proof {
            assert(s@.subrange(0, s@.len() as int) =~= s@);
        }
        match m {
            None => None,
            Some(v) => {
                if v <= 2147483647 {
                    Some(v as i32)
                } else {
                    None
                }
            },
        }
    }
}

/// Splits `s` at every occurrence of `sep`.
pub fn split_on(s: &str, sep: char) -> (r: Vec<String>)
    ensures
        r@.len() == split(s@, sep).len(),
        forall|i: int| 0 <= i < r@.len() ==> #[trigger] r@[i]@ == split(s@, sep)[i],
{
    let len = s.unicode_len();
    let mut done: Vec<String> = Vec::new();
    let mut cur = String::new();
    let mut i: usize = 0;
    proof {
        assert(s@.subrange(0, 0) =~= Seq::<char>::empty());
    }
    while i < len
        invariant
            i <= len,
            len == s@.len(),
            done@.len() + 1 == split(s@.subrange(0, i as int), sep).len(),
            forall|j: int| 0 <= j < done@.len() ==> #[trigger] done@[j]@ == split(s@.subrange(0, i as int), sep)[j],
            cur@ == split(s@.subrange(0, i as int), sep).last(),
        decreases len - i,
    {
        let c = s.get_char(i);
        let ghost p = s@.subrange(0, i as int);
        let ghost sp = split(p, sep);
        proof {
            assert(s@.subrange(0, i as int + 1) =~= p + seq![c]);
            lemma_split_concat(p, seq![c], sep);
            assert(seq![c].drop_first() =~= Seq::<char>::empty());
        }
        if c == sep {
            let ghost old_done = done@;
            done.push(cur);
            cur = String::new();
            proof {
                let np = split(s@.subrange(0, i as int + 1), sep);
                lemma_split_single_sep(sep);
                assert(sp.last() + Seq::<char>::empty() =~= sp.last());
                assert(np =~= sp.drop_last() + seq![sp.last()] + seq![Seq::<char>::empty()]);
                assert forall|j: int| 0 <= j < done@.len() implies #[trigger] done@[j]@ == np[j] by {
                    if j < old_done.len() {
                        assert(done@[j] == old_done[j]);
                    }
                }
            }
        } else {
            push_char(&mut cur, c);
            proof {
                let np = split(s@.subrange(0, i as int + 1), sep);
                lemma_split_single_other(c, sep);
                assert(np =~= sp.drop_last() + seq![sp.last() + seq![c]]);
                assert(np.last() =~= cur@);
            }
        }
        i = i + 1;
    }
    proof {
        assert(s@.subrange(0, len as int) =~= s@);
    }
    let ghost old_done = done@;
    done.push(cur);
    proof {
        assert forall|j: int| 0 <= j < done@.len() implies #[trigger] done@[j]@ == split(s@, sep)[j] by {
            if j < old_done.len() {
                assert(done@[j] == old_done[j]);
            }
        }
    }
    done
}

} // verus!
