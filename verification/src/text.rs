//! Text helpers: padding with spaces and decimal rendering of integers.

use vstd::prelude::*;

verus! {

/// `n` copies of the character `c`.
pub open spec fn repeat_char(c: char, n: nat) -> Seq<char> {
    Seq::new(n, |_i: int| c)
}

/// `text` followed by enough spaces to make it `width` characters long;
/// unchanged when it already has `width` characters or more.
pub open spec fn padded(text: Seq<char>, width: nat) -> Seq<char> {
    if text.len() < width {
        text + repeat_char(' ', (width - text.len()) as nat)
    } else {
        text
    }
}

/// Appends one character to a `String` (`String::push`).
#[verifier::external_body]
pub(crate) fn push_char(s: &mut String, c: char)
    ensures
        final(s)@ == old(s)@.push(c),
{
    s.push(c);
}

/// Pads `text` on the right with spaces up to `width` characters.
pub fn pad(text: &str, width: usize) -> (out: String)
    ensures
        out@ == padded(text@, width as nat),
{
    let mut out = text.to_owned();
    let mut count = text.unicode_len();
    while count < width
        invariant
            count as nat == out@.len(),
            text@.len() <= out@.len(),
            out@ == text@ + repeat_char(' ', (out@.len() - text@.len()) as nat),
            text@.len() < width ==> out@.len() <= width,
            text@.len() >= width ==> out@.len() == text@.len(),
        decreases width - count,
    {
        push_char(&mut out, ' ');
        count = count + 1;
        assert(out@ =~= text@ + repeat_char(' ', (out@.len() - text@.len()) as nat));
    }
    assert(out@ =~= padded(text@, width as nat));
    out
}

/// The ASCII character of the decimal digit `d`.
pub open spec fn digit_char(d: nat) -> char {
    (d + 48) as char
}

/// The decimal digits of `n`, most significant first, without leading zeros.
pub open spec fn decimal(n: nat) -> Seq<char>
    decreases n,
{
    if n < 10 {
        seq![digit_char(n)]
    } else {
        decimal(n / 10).push(digit_char(n % 10))
    }
}

/// The decimal digits of `n`, left-padded with `'0'` to at least `width` characters.
pub open spec fn zero_padded(n: nat, width: nat) -> Seq<char> {
    let digits = decimal(n);
    if digits.len() < width {
        repeat_char('0', (width - digits.len()) as nat) + digits
    } else {
        digits
    }
}

/// The number that the decimal digits `digits` stand for.
pub open spec fn decimal_value(digits: Seq<char>) -> int
    decreases digits.len(),
{
    if digits.len() == 0 {
        0
    } else {
        decimal_value(digits.drop_last()) * 10 + (digits.last() as int - 48)
    }
}

/// Every character of `digits` is an ASCII digit.
pub open spec fn all_digits(digits: Seq<char>) -> bool {
    forall|i: int| 0 <= i < digits.len() ==> '0' <= #[trigger] digits[i] <= '9'
}

/// `decimal(n)` is the decimal numeral of `n`: digits only, no leading zero
/// (but for zero itself), standing for `n`.
pub proof fn lemma_decimal_is_numeral(n: nat)
    ensures
        all_digits(decimal(n)),
        decimal(n).len() >= 1,
        decimal(n)[0] != '0' || n == 0,
        decimal_value(decimal(n)) == n,
    decreases n,
{
    if n >= 10 {
        lemma_decimal_is_numeral(n / 10);
        let front = decimal(n / 10);
        assert(decimal(n).drop_last() =~= front);
        assert(decimal(n)[0] == front[0]);
        assert(digit_char(n % 10) as int == n % 10 + 48);
        assert(decimal_value(decimal(n)) == decimal_value(front) * 10 + n % 10);
        assert((n / 10) * 10 + n % 10 == n);
        assert(decimal_value(decimal(n)) == n);
    } else {
        assert(digit_char(n) as int == n + 48);
        assert(decimal(n).drop_last() =~= Seq::<char>::empty());
        assert(decimal_value(Seq::<char>::empty()) == 0);
        assert(decimal_value(decimal(n)) == n);
    }
}

proof fn lemma_leading_zeros(k: nat, digits: Seq<char>)
    ensures
        decimal_value(repeat_char('0', k) + digits) == decimal_value(digits),
    decreases digits.len(),
{
    if digits.len() == 0 {
        assert(repeat_char('0', k) + digits =~= repeat_char('0', k));
        lemma_zeros_value(k);
    } else {
        lemma_leading_zeros(k, digits.drop_last());
        assert((repeat_char('0', k) + digits).drop_last() =~= repeat_char('0', k)
            + digits.drop_last());
    }
}

proof fn lemma_zeros_value(k: nat)
    ensures
        decimal_value(repeat_char('0', k)) == 0,
    decreases k,
{
    if k > 0 {
        assert(repeat_char('0', k).drop_last() =~= repeat_char('0', (k - 1) as nat));
        lemma_zeros_value((k - 1) as nat);
    }
}

/// A zero-padded field holds at least `width` digits and stands for `n`.
pub proof fn lemma_zero_padded_value(n: nat, width: nat)
    ensures
        all_digits(zero_padded(n, width)),
        zero_padded(n, width).len() == if decimal(n).len() < width {
            width
        } else {
            decimal(n).len()
        },
        decimal_value(zero_padded(n, width)) == n,
{
    lemma_decimal_is_numeral(n);
    if decimal(n).len() < width {
        lemma_leading_zeros((width - decimal(n).len()) as nat, decimal(n));
        let padded = zero_padded(n, width);
        let zeros = repeat_char('0', (width - decimal(n).len()) as nat);
        assert forall|i: int| 0 <= i < padded.len() implies '0' <= #[trigger] padded[i] <= '9' by {
            if i >= zeros.len() {
                assert(padded[i] == decimal(n)[i - zeros.len()]);
            }
        }
    }
}

/// `a` comes before `b` in lexicographic order of their characters (the order of
/// `String`, since UTF-8 keeps the order of code points): at the first position where
/// they differ `a` has the smaller character, or `a` is a proper prefix of `b`.
pub open spec fn lex_less(a: Seq<char>, b: Seq<char>) -> bool {
    exists|k: int|
        #![trigger a.take(k), b.take(k)]
        0 <= k <= a.len() && k <= b.len() && a.take(k) == b.take(k) && ((k == a.len() && k
            < b.len()) || (k < a.len() && k < b.len() && a[k] < b[k]))
}

/// Whether `a` comes before `b` in lexicographic order of their characters.
pub fn text_less(a: &str, b: &str) -> (less: bool)
    ensures
        less == lex_less(a@, b@),
{
    let la = a.unicode_len();
    let lb = b.unicode_len();
    let mut k: usize = 0;
    while k < la && k < lb
        invariant
            la == a@.len(),
            lb == b@.len(),
            k <= la,
            k <= lb,
            a@.take(k as int) == b@.take(k as int),
        decreases la - k,
    {
        let ca = a.get_char(k);
        let cb = b.get_char(k);
        if ca != cb {
            proof {
                if ca < cb {
                    assert(a@.take(k as int) == b@.take(k as int));
                } else if lex_less(a@, b@) {
                    let j = choose|j: int|
                        #![trigger a@.take(j), b@.take(j)]
                        0 <= j <= a@.len() && j <= b@.len() && a@.take(j) == b@.take(j) && ((j
                            == a@.len() && j < b@.len()) || (j < a@.len() && j < b@.len()
                            && a@[j] < b@[j]));
                    if j < k {
                        assert(a@.take(k as int)[j] == a@[j]);
                        assert(b@.take(k as int)[j] == b@[j]);
                    } else if j > k {
                        assert(a@.take(j)[k as int] == a@[k as int]);
                        assert(b@.take(j)[k as int] == b@[k as int]);
                    }
                }
            }
            return ca < cb;
        }
        k = k + 1;
        assert(a@.take(k as int) =~= b@.take(k as int)) by {
            assert(a@.take(k as int) =~= a@.take(k - 1).push(a@[k - 1]));
            assert(b@.take(k as int) =~= b@.take(k - 1).push(b@[k - 1]));
        }
    }
    proof {
        if la < lb {
            assert(a@.take(la as int) == b@.take(la as int));
        } else if lex_less(a@, b@) {
            let j = choose|j: int|
                #![trigger a@.take(j), b@.take(j)]
                0 <= j <= a@.len() && j <= b@.len() && a@.take(j) == b@.take(j) && ((j == a@.len()
                    && j < b@.len()) || (j < a@.len() && j < b@.len() && a@[j] < b@[j]));
            assert(a@.take(k as int)[j] == a@[j]);
            assert(b@.take(k as int)[j] == b@[j]);
        }
    }
    la < lb
}

/// Appending anything to two texts of the same length keeps their order.
pub proof fn lemma_lex_extend(p: Seq<char>, q: Seq<char>, x: Seq<char>, y: Seq<char>)
    requires
        p.len() == q.len(),
        lex_less(p, q),
    ensures
        lex_less(p + x, q + y),
{
    let k = choose|k: int|
        #![trigger p.take(k), q.take(k)]
        0 <= k <= p.len() && k <= q.len() && p.take(k) == q.take(k) && ((k == p.len() && k
            < q.len()) || (k < p.len() && k < q.len() && p[k] < q[k]));
    assert((p + x).take(k) =~= p.take(k));
    assert((q + y).take(k) =~= q.take(k));
    assert((p + x)[k] == p[k]);
    assert((q + y)[k] == q[k]);
}

/// A common prefix keeps the order of what follows it.
pub proof fn lemma_lex_prefix(p: Seq<char>, x: Seq<char>, y: Seq<char>)
    requires
        lex_less(x, y),
    ensures
        lex_less(p + x, p + y),
{
    let k = choose|k: int|
        #![trigger x.take(k), y.take(k)]
        0 <= k <= x.len() && k <= y.len() && x.take(k) == y.take(k) && ((k == x.len() && k
            < y.len()) || (k < x.len() && k < y.len() && x[k] < y[k]));
    let n = p.len() + k;
    assert((p + x).take(n) =~= p + x.take(k));
    assert((p + y).take(n) =~= p + y.take(k));
    if k < x.len() {
        assert((p + x)[n] == x[k]);
        assert((p + y)[n] == y[k]);
    }
}

/// Lexicographic order of concatenations of pieces of equal lengths: decided by the
/// first pieces, or by the second when the first are equal.
pub proof fn lemma_lex_step(p: Seq<char>, q: Seq<char>, x: Seq<char>, y: Seq<char>)
    requires
        p.len() == q.len(),
        x.len() == y.len(),
    ensures
        (p + x).len() == (q + y).len(),
        (lex_less(p, q) || (p == q && lex_less(x, y))) ==> lex_less(p + x, q + y),
        (p == q && x == y) ==> p + x == q + y,
{
    if lex_less(p, q) {
        lemma_lex_extend(p, q, x, y);
    } else if p == q && lex_less(x, y) {
        lemma_lex_prefix(p, x, y);
    }
}

proof fn lemma_digit_strings_equal(a: Seq<char>, b: Seq<char>)
    requires
        a.len() == b.len(),
        all_digits(a),
        all_digits(b),
        decimal_value(a) == decimal_value(b),
    ensures
        a == b,
    decreases a.len(),
{
    if a.len() > 0 {
        let (a1, b1) = (a.drop_last(), b.drop_last());
        assert(all_digits(a1) && all_digits(b1)) by {
            assert forall|i: int| 0 <= i < a1.len() implies '0' <= #[trigger] a1[i] <= '9' by {
                assert(a1[i] == a[i]);
            }
            assert forall|i: int| 0 <= i < b1.len() implies '0' <= #[trigger] b1[i] <= '9' by {
                assert(b1[i] == b[i]);
            }
        }
        assert('0' <= a.last() <= '9' && '0' <= b.last() <= '9');
        lemma_digit_strings_equal(a1, b1);
        assert(a =~= a1.push(a.last()));
        assert(b =~= b1.push(b.last()));
    } else {
        assert(a =~= b);
    }
}

/// Digit strings of one length are in lexicographic order when their values are in order.
pub proof fn lemma_digit_strings_ordered(a: Seq<char>, b: Seq<char>)
    requires
        a.len() == b.len(),
        all_digits(a),
        all_digits(b),
        decimal_value(a) < decimal_value(b),
    ensures
        lex_less(a, b),
    decreases a.len(),
{
    let n = a.len() as int;
    let (a1, b1) = (a.drop_last(), b.drop_last());
    assert(all_digits(a1) && all_digits(b1)) by {
        assert forall|i: int| 0 <= i < a1.len() implies '0' <= #[trigger] a1[i] <= '9' by {
            assert(a1[i] == a[i]);
        }
        assert forall|i: int| 0 <= i < b1.len() implies '0' <= #[trigger] b1[i] <= '9' by {
            assert(b1[i] == b[i]);
        }
    }
    if n == 0 {
        assert(false);
    }
    assert('0' <= a[n - 1] <= '9' && '0' <= b[n - 1] <= '9');
    if decimal_value(a1) < decimal_value(b1) {
        lemma_digit_strings_ordered(a1, b1);
        lemma_lex_extend(a1, b1, seq![a[n - 1]], seq![b[n - 1]]);
        assert(a =~= a1 + seq![a[n - 1]]);
        assert(b =~= b1 + seq![b[n - 1]]);
    } else {
        assert(decimal_value(a1) == decimal_value(b1));
        lemma_digit_strings_equal(a1, b1);
        assert(a.take(n - 1) =~= a1);
        assert(b.take(n - 1) =~= b1);
        assert(a[n - 1] < b[n - 1]);
        assert(a.take(n - 1) == b.take(n - 1));
    }
}

/// Zero-padded fields of one width whose values stay below the width's limit are in
/// lexicographic order when their values are.
pub proof fn lemma_zero_padded_ordered(a: nat, b: nat, width: nat)
    requires
        a < b,
        width == 2 && b < 100 || width == 4 && b < 10000,
    ensures
        zero_padded(a, width).len() == width,
        zero_padded(b, width).len() == width,
        lex_less(zero_padded(a, width), zero_padded(b, width)),
{
    lemma_zero_padded_width(a, width);
    lemma_zero_padded_width(b, width);
    lemma_zero_padded_value(a, width);
    lemma_zero_padded_value(b, width);
    lemma_digit_strings_ordered(zero_padded(a, width), zero_padded(b, width));
}

/// A value below the width's limit fills exactly that width.
pub proof fn lemma_zero_padded_width(n: nat, width: nat)
    requires
        width == 2 && n < 100 || width == 4 && n < 10000,
    ensures
        zero_padded(n, width).len() == width,
{
    reveal_with_fuel(decimal, 5);
    lemma_zero_padded_value(n, width);
    if n >= 10 {
        if n >= 100 {
            if n >= 1000 {
                assert(decimal(n / 1000).len() == 1);
            }
        }
    }
}

fn digit(d: u64) -> (c: char)
    requires
        d < 10,
    ensures
        c == digit_char(d as nat),
{
    if d == 0 {
        '0'
    } else if d == 1 {
        '1'
    } else if d == 2 {
        '2'
    } else if d == 3 {
        '3'
    } else if d == 4 {
        '4'
    } else if d == 5 {
        '5'
    } else if d == 6 {
        '6'
    } else if d == 7 {
        '7'
    } else if d == 8 {
        '8'
    } else {
        '9'
    }
}

fn decimal_digits(n: u64) -> (digits: Vec<char>)
    ensures
        digits@ == decimal(n as nat),
    decreases n,
{
    if n < 10 {
        let mut digits = Vec::new();
        digits.push(digit(n));
        assert(digits@ =~= decimal(n as nat));
        digits
    } else {
        let mut digits = decimal_digits(n / 10);
        digits.push(digit(n % 10));
        digits
    }
}

/// Appends every character of `chars` to `out`.
pub(crate) fn push_chars(out: &mut String, chars: &Vec<char>)
    ensures
        final(out)@ == old(out)@ + chars@,
{
    let ghost start = out@;
    let mut i: usize = 0;
    while i < chars.len()
        invariant
            i <= chars.len(),
            out@ == start + chars@.take(i as int),
        decreases chars.len() - i,
    {
        push_char(out, chars[i]);
        i = i + 1;
        assert(out@ =~= start + chars@.take(i as int));
    }
    assert(chars@.take(chars.len() as int) =~= chars@);
}

/// Appends `n` copies of `c` to `out`.
pub(crate) fn push_repeated(out: &mut String, c: char, n: usize)
    ensures
        final(out)@ == old(out)@ + repeat_char(c, n as nat),
{
    let ghost start = out@;
    let mut i: usize = 0;
    while i < n
        invariant
            i <= n,
            out@ == start + repeat_char(c, i as nat),
        decreases n - i,
    {
        push_char(out, c);
        i = i + 1;
        assert(out@ =~= start + repeat_char(c, i as nat));
    }
}

/// Appends the decimal digits of `n`, left-padded with zeros to `width` characters.
pub(crate) fn push_zero_padded(out: &mut String, n: u64, width: usize)
    ensures
        final(out)@ == old(out)@ + zero_padded(n as nat, width as nat),
{
    let digits = decimal_digits(n);
    let ghost start = out@;
    if digits.len() < width {
        push_repeated(out, '0', width - digits.len());
    }
    push_chars(out, &digits);
    assert(out@ =~= start + zero_padded(n as nat, width as nat));
}

} // verus!
