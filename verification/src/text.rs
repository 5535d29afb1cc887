//! Text helpers: the order of `String` keys, text equality, and decimal
//! rendering of integers, each with its mathematical statement.

use vstd::prelude::*;
use vstd::string::*;

verus! {

/// Lexicographic order on texts, comparing characters by their code point.
/// This is the order of `String` (and so of the keys of a `BTreeMap<String, _>`):
/// UTF-8 byte order and code-point order agree.
pub open spec fn text_lt(a: Seq<char>, b: Seq<char>) -> bool
    decreases a.len(),
{
    if a.len() == 0 {
        b.len() > 0
    } else if b.len() == 0 {
        false
    } else if a[0] != b[0] {
        (a[0] as int) < (b[0] as int)
    } else {
        text_lt(a.drop_first(), b.drop_first())
    }
}

/// No text comes before itself.
pub proof fn lemma_text_lt_irreflexive(a: Seq<char>)
    ensures
        !text_lt(a, a),
    decreases a.len(),
{
    if a.len() > 0 {
        lemma_text_lt_irreflexive(a.drop_first());
    }
}

/// Of two different texts, one comes before the other, and not both ways.
pub proof fn lemma_text_lt_total(a: Seq<char>, b: Seq<char>)
    ensures
        a != b ==> (text_lt(a, b) || text_lt(b, a)),
        !(text_lt(a, b) && text_lt(b, a)),
    decreases a.len(),
{
    if a.len() > 0 && b.len() > 0 && a[0] == b[0] {
        lemma_text_lt_total(a.drop_first(), b.drop_first());
        if a.drop_first() == b.drop_first() {
            assert forall|i: int| 0 <= i < a.len() implies a[i] == b[i] by {
                if i > 0 {
                    assert(a[i] == a.drop_first()[i - 1]);
                    assert(b[i] == b.drop_first()[i - 1]);
                }
            }
            assert(a =~= b);
        }
    } else if a.len() == 0 && b.len() == 0 {
        assert(a =~= b);
    } else if a.len() > 0 && b.len() > 0 {
        assert(a[0] != b[0]);
        assert((a[0] as int) != (b[0] as int));
    }
}

/// What the order is: `a` comes before `b` exactly when `a` is a proper prefix
/// of `b`, or at the first position where they differ `a` has the character
/// with the smaller code point.
pub proof fn lemma_text_lt_meaning(a: Seq<char>, b: Seq<char>)
    ensures
        text_lt(a, b) <==> ((a.len() < b.len() && a == b.take(a.len() as int)) || exists|k: int|
            0 <= k < a.len() && k < b.len() && a.take(k) == b.take(k) && (#[trigger] a[k] as int)
                < (b[k] as int)),
    decreases a.len(),
{
    let p = (a.len() < b.len() && a == b.take(a.len() as int));
    let q = exists|k: int|
        0 <= k < a.len() && k < b.len() && a.take(k) == b.take(k) && (#[trigger] a[k] as int) < (
        b[k] as int);
    if a.len() == 0 {
        if b.len() > 0 {
            assert(a =~= b.take(0));
        }
    } else if b.len() == 0 {
    } else if a[0] != b[0] {
        if (a[0] as int) < (b[0] as int) {
            assert(a.take(0) =~= b.take(0));
            assert(q);
        } else {
            if p {
                assert(a[0] == b.take(a.len() as int)[0]);
            }
            if q {
                let k = choose|k: int|
                    0 <= k < a.len() && k < b.len() && a.take(k) == b.take(k) && (#[trigger] a[k] as int)
                        < (b[k] as int);
                if k > 0 {
                    assert(a.take(k)[0] == b.take(k)[0]);
                }
            }
        }
    } else {
        let a2 = a.drop_first();
        let b2 = b.drop_first();
        lemma_text_lt_meaning(a2, b2);
        let p2 = (a2.len() < b2.len() && a2 == b2.take(a2.len() as int));
        let q2 = exists|k: int|
            0 <= k < a2.len() && k < b2.len() && a2.take(k) == b2.take(k) && (#[trigger] a2[k] as int)
                < (b2[k] as int);
        if p2 {
            assert forall|i: int| 0 <= i < a.len() implies a[i] == b.take(a.len() as int)[i] by {
                if i > 0 {
                    assert(a[i] == a2[i - 1]);
                    assert(a2[i - 1] == b2.take(a2.len() as int)[i - 1]);
                }
            }
            assert(a =~= b.take(a.len() as int));
        }
        if p {
            assert(a2 =~= b2.take(a2.len() as int));
        }
        if q2 {
            let k = choose|k: int|
                0 <= k < a2.len() && k < b2.len() && a2.take(k) == b2.take(k) && (#[trigger] a2[k] as int)
                    < (b2[k] as int);
            assert(a.take(k + 1) =~= seq![a[0]] + a2.take(k));
            assert(b.take(k + 1) =~= seq![b[0]] + b2.take(k));
            assert(a[k + 1] == a2[k]);
        }
        if q {
            let k = choose|k: int|
                0 <= k < a.len() && k < b.len() && a.take(k) == b.take(k) && (#[trigger] a[k] as int)
                    < (b[k] as int);
            assert(k > 0);
            assert(a2.take(k - 1) =~= a.take(k).drop_first());
            assert(b2.take(k - 1) =~= b.take(k).drop_first());
            assert(a2[k - 1] == a[k]);
        }
    }
}

/// The order is transitive.
pub proof fn lemma_text_lt_transitive(a: Seq<char>, b: Seq<char>, c: Seq<char>)
    requires
        text_lt(a, b),
        text_lt(b, c),
    ensures
        text_lt(a, c),
    decreases a.len(),
{
    if a.len() > 0 && b.len() > 0 && c.len() > 0 && a[0] == b[0] && b[0] == c[0] {
        lemma_text_lt_transitive(a.drop_first(), b.drop_first(), c.drop_first());
    }
}

/// Whether `a` comes before `b` in the order of `String`.
pub fn text_less(a: &str, b: &str) -> (r: bool)
    ensures
        r == text_lt(a@, b@),
{
    let la: usize = a.unicode_len();
    let lb: usize = b.unicode_len();
    let mut i: usize = 0;
    assert(a@.skip(0) =~= a@);
    assert(b@.skip(0) =~= b@);
    while i < la && i < lb
        invariant
            la == a@.len(),
            lb == b@.len(),
            i <= la,
            i <= lb,
            text_lt(a@, b@) == text_lt(a@.skip(i as int), b@.skip(i as int)),
        decreases la - i,
    {
        let ca = a.get_char(i);
        let cb = b.get_char(i);
        if ca != cb {
            return (ca as u32) < (cb as u32);
        }
        assert(a@.skip(i as int).drop_first() =~= a@.skip(i + 1));
        assert(b@.skip(i as int).drop_first() =~= b@.skip(i + 1));
        i = i + 1;
    }
    i == la && i < lb
}

/// The decimal digit character for `d` (meaningful for `d < 10`).
pub open spec fn digit_char(d: nat) -> char {
    if d == 0 {
        '0'
    } else if d == 1 {
        '1'
    } else if d == 2 {
        '2'
    } else if d == 3 {
        '3'
    } else if d == 4 {
        '4'
    } else if d == 5 {
        '5'
    } else if d == 6 {
        '6'
    } else if d == 7 {
        '7'
    } else if d == 8 {
        '8'
    } else {
        '9'
    }
}

/// Decimal notation of a natural number, without leading zeros ("0" for zero).
pub open spec fn nat_text(n: nat) -> Seq<char>
    decreases n,
{
    if n < 10 {
        seq![digit_char(n)]
    } else {
        nat_text(n / 10) + seq![digit_char(n % 10)]
    }
}

/// Decimal notation of an integer, as `{}` writes it: a minus sign for negatives.
pub open spec fn int_text(n: int) -> Seq<char> {
    if n < 0 {
        seq!['-'] + nat_text((-n) as nat)
    } else {
        nat_text(n as nat)
    }
}

/// Decimal notation of an integer with its sign always written, as `{:+}` writes it.
pub open spec fn signed_text(n: int) -> Seq<char> {
    if n < 0 {
        seq!['-'] + nat_text((-n) as nat)
    } else {
        seq!['+'] + nat_text(n as nat)
    }
}

/// The number that a string of decimal digits denotes.
pub open spec fn decimal_value(s: Seq<char>) -> int
    decreases s.len(),
{
    if s.len() == 0 {
        0
    } else {
        decimal_value(s.drop_last()) * 10 + ((s.last() as int) - ('0' as int))
    }
}

/// The decimal notation of `n` is made of digits, starts with a non-zero digit
/// unless `n` is 0, and denotes `n`.
pub proof fn lemma_nat_text_value(n: nat)
    ensures
        nat_text(n).len() > 0,
        forall|i: int| 0 <= i < nat_text(n).len() ==> '0' <= #[trigger] nat_text(n)[i] <= '9',
        n > 0 ==> nat_text(n)[0] != '0',
        decimal_value(nat_text(n)) == n,
    decreases n,
{
    if n >= 10 {
        lemma_nat_text_value(n / 10);
        let t = nat_text(n);
        assert(t.drop_last() =~= nat_text(n / 10));
        assert forall|i: int| 0 <= i < t.len() implies '0' <= #[trigger] t[i] <= '9' by {
            if i < t.len() - 1 {
                assert(t[i] == nat_text(n / 10)[i]);
            }
        }
        assert(t[0] == nat_text(n / 10)[0]);
        assert(t.last() == digit_char(n % 10));
        lemma_digit_value(n % 10);
        assert(n == (n / 10) * 10 + n % 10);
        assert(decimal_value(t) == decimal_value(t.drop_last()) * 10 + ((t.last() as int) - (
        '0' as int)));
    } else {
        lemma_digit_value(n);
        let t = nat_text(n);
        assert(t.drop_last() =~= Seq::<char>::empty());
        assert(decimal_value(Seq::<char>::empty()) == 0);
        assert(decimal_value(t) == decimal_value(t.drop_last()) * 10 + ((t.last() as int) - (
        '0' as int)));
    }
}

/// `{}` writes a negative number as a minus sign and its magnitude, a
/// non-negative one as its decimal notation; `{:+}` writes the sign always.
pub proof fn lemma_signed_texts_value(n: int)
    ensures
        n >= 0 ==> decimal_value(int_text(n)) == n && int_text(n)[0] != '-',
        n < 0 ==> int_text(n)[0] == '-' && decimal_value(int_text(n).drop_first()) == -n,
        n >= 0 ==> signed_text(n)[0] == '+' && decimal_value(signed_text(n).drop_first()) == n,
        n < 0 ==> signed_text(n)[0] == '-' && decimal_value(signed_text(n).drop_first()) == -n,
{
    if n >= 0 {
        lemma_nat_text_value(n as nat);
        assert('0' <= nat_text(n as nat)[0] <= '9');
        assert(signed_text(n).drop_first() =~= nat_text(n as nat));
    } else {
        lemma_nat_text_value((-n) as nat);
        assert(int_text(n).drop_first() =~= nat_text((-n) as nat));
        assert(signed_text(n).drop_first() =~= nat_text((-n) as nat));
    }
}

proof fn lemma_digit_value(d: nat)
    requires
        d < 10,
    ensures
        (digit_char(d) as int) - ('0' as int) == d,
        '0' <= digit_char(d) <= '9',
        d > 0 ==> digit_char(d) != '0',
{
}

fn digit_str(d: u64) -> (s: &'static str)
    requires
        d < 10,
    ensures
        s@ == seq![digit_char(d as nat)],
{
    proof {
        reveal_strlit("0");
        reveal_strlit("1");
        reveal_strlit("2");
        reveal_strlit("3");
        reveal_strlit("4");
        reveal_strlit("5");
        reveal_strlit("6");
        reveal_strlit("7");
        reveal_strlit("8");
        reveal_strlit("9");
    }
    if d == 0 {
        "0"
    } else if d == 1 {
        "1"
    } else if d == 2 {
        "2"
    } else if d == 3 {
        "3"
    } else if d == 4 {
        "4"
    } else if d == 5 {
        "5"
    } else if d == 6 {
        "6"
    } else if d == 7 {
        "7"
    } else if d == 8 {
        "8"
    } else {
        "9"
    }
}

/// Appends the decimal notation of `n`.
pub fn push_nat(out: &mut String, n: u64)
    ensures
        final(out)@ == old(out)@ + nat_text(n as nat),
    decreases n,
{
    if n >= 10 {
        push_nat(out, n / 10);
        out.append(digit_str(n % 10));
        assert(out@ =~= old(out)@ + nat_text(n as nat));
    } else {
        out.append(digit_str(n));
        assert(out@ =~= old(out)@ + nat_text(n as nat));
    }
}

/// The magnitude of an `i64`, exact for `i64::MIN` too.
fn magnitude(n: i64) -> (m: u64)
    ensures
        m as int == if n < 0 { -n } else { n as int },
{
    if n >= 0 {
        n as u64
    } else if n == i64::MIN {
        9223372036854775808u64
    } else {
        (-n) as u64
    }
}

/// Appends `n` as `{}` writes it.
pub fn push_int(out: &mut String, n: i64)
    ensures
        final(out)@ == old(out)@ + int_text(n as int),
{
    proof {
        reveal_strlit("-");
    }
    if n < 0 {
        out.append("-");
    }
    push_nat(out, magnitude(n));
    assert(out@ =~= old(out)@ + int_text(n as int));
}

/// Appends `n` as `{:+}` writes it.
pub fn push_signed(out: &mut String, n: i64)
    ensures
        final(out)@ == old(out)@ + signed_text(n as int),
{
    proof {
        reveal_strlit("-");
        reveal_strlit("+");
    }
    if n < 0 {
        out.append("-");
    } else {
        out.append("+");
    }
    push_nat(out, magnitude(n));
    assert(out@ =~= old(out)@ + signed_text(n as int));
}

/// Whether two texts are equal.
pub fn text_equal(a: &str, b: &str) -> (r: bool)
    ensures
        r == (a@ == b@),
{
    let la: usize = a.unicode_len();
    let lb: usize = b.unicode_len();
    if la != lb {
        return false;
    }
    let mut i: usize = 0;
    while i < la
        invariant
            la == a@.len(),
            lb == b@.len(),
            la == lb,
            i <= la,
            forall|j: int| 0 <= j < i ==> a@[j] == b@[j],
        decreases la - i,
    {
        let ca = a.get_char(i);
        let cb = b.get_char(i);
        if ca != cb {
            return false;
        }
        i = i + 1;
    }
    assert(a@ =~= b@);
    true
}

} // verus!
