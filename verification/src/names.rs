use vstd::prelude::*;

verus! {

/// The character of a decimal digit `d` (`0 <= d < 10`).
pub open spec fn digit_char(d: int) -> char {
    (d + 48) as char
}

/// Whether `c` is one of the characters `0`..`9`.
pub open spec fn is_digit(c: char) -> bool {
    48 <= (c as int) <= 57
}

/// The decimal representation of `n`, without leading zeros.
pub open spec fn dec(n: nat) -> Seq<char>
    decreases n,
{
    if n < 10 {
        seq![digit_char(n as int)]
    } else {
        dec(n / 10).push(digit_char((n % 10) as int))
    }
}

/// A name made of `prefix` followed by the decimal representation of `i`.
pub open spec fn indexed(prefix: Seq<char>, i: nat) -> Seq<char> {
    prefix + dec(i)
}

/// Whether `s` is non-empty and its last character is not a digit.
pub open spec fn ends_in_non_digit(s: Seq<char>) -> bool {
    s.len() > 0 && !is_digit(s[s.len() - 1])
}

/// Characters that a variable name of a diagram's variable set cannot hold.
pub open spec fn is_reserved_char(c: char) -> bool {
    c == '!' || c == '&' || c == '|' || c == '^' || c == '=' || c == '<' || c == '>' || c == '('
        || c == ')' || c == '?' || c == ':'
}

/// Whether `s` is usable as a variable name.
pub open spec fn valid_var_name(s: Seq<char>) -> bool {
    forall|i: int| 0 <= i < s.len() ==> !is_reserved_char(#[trigger] s[i])
}

/// Whether all the names of `names` are pairwise distinct and usable.
pub open spec fn valid_var_names(names: Seq<Seq<char>>) -> bool {
    &&& forall|i: int| 0 <= i < names.len() ==> valid_var_name(#[trigger] names[i])
    &&& forall|i: int, j: int|
        0 <= i < names.len() && 0 <= j < names.len() && i != j ==> #[trigger] names[i]
            != #[trigger] names[j]
}

pub proof fn lemma_digit_char(d: int)
    requires
        0 <= d < 10,
    ensures
        is_digit(digit_char(d)),
        digit_char(d) as int == d + 48,
{
}

pub proof fn lemma_dec_digits(n: nat)
    ensures
        dec(n).len() >= 1,
        forall|i: int| 0 <= i < dec(n).len() ==> is_digit(#[trigger] dec(n)[i]),
    decreases n,
{
    if n < 10 {
        lemma_digit_char(n as int);
    } else {
        lemma_dec_digits(n / 10);
        lemma_digit_char((n % 10) as int);
        assert forall|i: int| 0 <= i < dec(n).len() implies is_digit(#[trigger] dec(n)[i]) by {
            if i < dec(n / 10).len() {
                assert(dec(n)[i] == dec(n / 10)[i]);
            }
        }
    }
}

pub proof fn lemma_dec_injective(n: nat, m: nat)
    requires
        dec(n) == dec(m),
    ensures
        n == m,
    decreases n,
{
    lemma_dec_digits(n);
    lemma_dec_digits(m);
    if n < 10 && m < 10 {
        lemma_digit_char(n as int);
        lemma_digit_char(m as int);
        assert(dec(n)[0] == digit_char(n as int));
        assert(dec(m)[0] == digit_char(m as int));
        assert(dec(n)[0] == dec(m)[0]);
        assert(digit_char(n as int) as int == digit_char(m as int) as int);
    } else if n < 10 {
        lemma_dec_digits(m / 10);
        assert(dec(m).len() >= 2);
    } else if m < 10 {
        lemma_dec_digits(n / 10);
        assert(dec(n).len() >= 2);
    } else {
        let dn = dec(n);
        lemma_digit_char((n % 10) as int);
        lemma_digit_char((m % 10) as int);
        assert(dn.last() == digit_char((n % 10) as int));
        assert(dec(m).last() == digit_char((m % 10) as int));
        assert(dec(n / 10) =~= dn.drop_last());
        assert(dec(m / 10) =~= dec(m).drop_last());
        lemma_dec_injective(n / 10, m / 10);
        assert(n % 10 == m % 10);
        assert(n == 10 * (n / 10) + n % 10);
        assert(m == 10 * (m / 10) + m % 10);
    }
}

pub proof fn lemma_dec_valid(n: nat)
    ensures
        valid_var_name(dec(n)),
{
    lemma_dec_digits(n);
    assert forall|i: int| 0 <= i < dec(n).len() implies !is_reserved_char(#[trigger] dec(n)[i]) by {
        assert(is_digit(dec(n)[i]));
    }
}

/// Names made of a prefix ending in a non-digit and a decimal index are
/// equal only when both prefix and index are.
pub proof fn lemma_indexed_injective(p1: Seq<char>, i: nat, p2: Seq<char>, j: nat)
    requires
        ends_in_non_digit(p1),
        ends_in_non_digit(p2),
        indexed(p1, i) == indexed(p2, j),
    ensures
        p1 == p2,
        i == j,
{
    let s = p1 + dec(i);
    let t = p2 + dec(j);
    assert(s == t);
    lemma_dec_digits(i);
    lemma_dec_digits(j);
    assert(s.len() == p1.len() + dec(i).len());
    assert(t.len() == p2.len() + dec(j).len());
    if dec(i).len() < dec(j).len() {
        let k = p1.len() - 1;
        assert(k >= p2.len());
        assert(s[k] == p1[k]);
        assert(t[k] == dec(j)[k - p2.len()]);
        assert(is_digit(dec(j)[k - p2.len()]));
    } else if dec(j).len() < dec(i).len() {
        let k = p2.len() - 1;
        assert(k >= p1.len());
        assert(t[k] == p2[k]);
        assert(s[k] == dec(i)[k - p1.len()]);
        assert(is_digit(dec(i)[k - p1.len()]));
    } else {
        assert(p1 =~= s.subrange(0, p1.len() as int));
        assert(p2 =~= t.subrange(0, p2.len() as int));
        assert(dec(i) =~= s.subrange(p1.len() as int, s.len() as int));
        assert(dec(j) =~= t.subrange(p2.len() as int, t.len() as int));
        lemma_dec_injective(i, j);
    }
}

pub proof fn lemma_indexed_valid(p: Seq<char>, i: nat)
    requires
        valid_var_name(p),
    ensures
        valid_var_name(indexed(p, i)),
{
    lemma_dec_valid(i);
    let s = indexed(p, i);
    assert forall|k: int| 0 <= k < s.len() implies !is_reserved_char(#[trigger] s[k]) by {
        if k < p.len() {
            assert(s[k] == p[k]);
        } else {
            assert(s[k] == dec(i)[k - p.len()]);
        }
    }
}

pub proof fn lemma_indexed_first(p: Seq<char>, i: nat)
    requires
        p.len() > 0,
    ensures
        indexed(p, i)[0] == p[0],
        indexed(p, i).len() > p.len(),
{
    lemma_dec_digits(i);
}

/// The text of the decimal digit `d`.
fn digit_text(d: usize) -> (r: &'static str)
    requires
        d < 10,
    ensures
        r@ == seq![digit_char(d as int)],
{
    proof {
        reveal_strlit("0");
        reveal_strlit("1");
        reveal_strlit("2");
        reveal_strlit("3");
        reveal_strlit("4");
        reveal_strlit("5");
        reveal_strlit("6");
        reveal_strlit("7");
        reveal_strlit("8");
        reveal_strlit("9");
    }
    if d == 0 {
        "0"
    } else if d == 1 {
        "1"
    } else if d == 2 {
        "2"
    } else if d == 3 {
        "3"
    } else if d == 4 {
        "4"
    } else if d == 5 {
        "5"
    } else if d == 6 {
        "6"
    } else if d == 7 {
        "7"
    } else if d == 8 {
        "8"
    } else {
        "9"
    }
}

/// The decimal text of `n`.
pub(crate) fn usize_to_decimal(n: usize) -> (r: String)
    ensures
        r@ == dec(n as nat),
    decreases n,
{
    if n < 10 {
        let mut s = String::new();
        s.append(digit_text(n));
        s
    } else {
        let mut s = usize_to_decimal(n / 10);
        s.append(digit_text(n % 10));
        s
    }
}

/// The name `prefix` followed by the decimal text of `i`.
pub fn indexed_name(prefix: &str, i: usize) -> (r: String)
    ensures
        r@ == indexed(prefix@, i as nat),
{
    let mut s = prefix.to_owned();
    let d = usize_to_decimal(i);
    s.append(d.as_str());
    s
}

} // verus!
