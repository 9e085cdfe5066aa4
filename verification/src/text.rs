//! Numbers and names as text.

use vstd::prelude::*;
use vstd::string::*;

verus! {

/// The character of a decimal digit.
pub open spec fn digit(d: nat) -> char {
    if d == 0 {
        '0'
    } else if d == 1 {
        '1'
    } else if d == 2 {
        '2'
    } else if d == 3 {
        '3'
    } else if d == 4 {
        '4'
    } else if d == 5 {
        '5'
    } else if d == 6 {
        '6'
    } else if d == 7 {
        '7'
    } else if d == 8 {
        '8'
    } else {
        '9'
    }
}

/// A number in decimal notation.
pub open spec fn digits(n: nat) -> Seq<char>
    decreases n,
{
    if n < 10 {
        seq![digit(n)]
    } else {
        digits(n / 10).push(digit(n % 10))
    }
}

/// Different numbers have different digits.
pub proof fn lemma_digits_differ(a: nat, b: nat)
    requires
        digits(a) == digits(b),
    ensures
        a == b,
    decreases a,
{
    lemma_digits_length(a);
    lemma_digits_length(b);
    assert(digits(a).last() == digit(a % 10));
    assert(digits(b).last() == digit(b % 10));
    assert(a % 10 == b % 10);
    if a >= 10 && b >= 10 {
        assert(digits(a).drop_last() == digits(a / 10));
        assert(digits(b).drop_last() == digits(b / 10));
        lemma_digits_differ(a / 10, b / 10);
    }
}

proof fn lemma_digits_length(n: nat)
    ensures
        digits(n).len() >= 1,
        digits(n).len() == 1 <==> n < 10,
    decreases n,
{
    if n >= 10 {
        lemma_digits_length(n / 10);
    }
}

/// The text of a digit.
fn digit_text(d: u128) -> (r: &'static str)
    requires
        d < 10,
    ensures
        r@ == seq![digit(d as nat)],
{
    proof {
        reveal_strlit("0");
        reveal_strlit("1");
        reveal_strlit("2");
        reveal_strlit("3");
        reveal_strlit("4");
        reveal_strlit("5");
        reveal_strlit("6");
        reveal_strlit("7");
        reveal_strlit("8");
        reveal_strlit("9");
    }
    if d == 0 {
        "0"
    } else if d == 1 {
        "1"
    } else if d == 2 {
        "2"
    } else if d == 3 {
        "3"
    } else if d == 4 {
        "4"
    } else if d == 5 {
        "5"
    } else if d == 6 {
        "6"
    } else if d == 7 {
        "7"
    } else if d == 8 {
        "8"
    } else {
        "9"
    }
}

/// A number in decimal notation.
pub fn decimal(n: u128) -> (r: String)
    ensures
        r@ == digits(n as nat),
    decreases n,
{
    if n < 10 {
        digit_text(n).to_owned()
    } else {
        let mut text = decimal(n / 10);
        text.append(digit_text(n % 10));
        assert(text@ == digits(n as nat));
        text
    }
}

/// Whether one text comes before another in the order of their characters, from a
/// place on.
pub open spec fn sorts_before(a: Seq<char>, b: Seq<char>, k: int) -> bool
    decreases b.len() - k,
{
    if k >= b.len() {
        false
    } else if k >= a.len() {
        true
    } else {
        a[k] < b[k] || (a[k] == b[k] && sorts_before(a, b, k + 1))
    }
}

/// Whether one text comes before another in the order of their characters.
pub fn text_before(a: &String, b: &String) -> (r: bool)
    ensures
        r == sorts_before(a@, b@, 0),
{
    let s = a.as_str();
    let t = b.as_str();
    let n: usize = s.unicode_len();
    let m: usize = t.unicode_len();
    let mut k: usize = 0;
    while k < m
        invariant
            s@ == a@,
            t@ == b@,
            n == a@.len(),
            m == b@.len(),
            k <= n,
            k <= m,
            sorts_before(a@, b@, 0) == sorts_before(a@, b@, k as int),
        decreases m - k,
    {
        if k >= n {
            return true;
        }
        let x = s.get_char(k);
        let y = t.get_char(k);
        if x != y {
            return x < y;
        }
        k = k + 1;
    }
    false
}

/// Of two different texts one comes before the other.
pub proof fn lemma_sorts_total(a: Seq<char>, b: Seq<char>, k: int)
    requires
        0 <= k <= a.len(),
        k <= b.len(),
        forall|i: int| 0 <= i < k ==> a[i] == b[i],
    ensures
        sorts_before(a, b, k) || sorts_before(b, a, k) || a == b,
    decreases a.len() - k,
{
    if k < a.len() && k < b.len() {
        if a[k] == b[k] {
            lemma_sorts_total(a, b, k + 1);
        }
    } else if k == a.len() && k == b.len() {
        assert(a =~= b);
    }
}

/// The order of texts is transitive.
pub proof fn lemma_sorts_transitive(a: Seq<char>, b: Seq<char>, c: Seq<char>, k: int)
    requires
        k >= 0,
        sorts_before(a, b, k),
        sorts_before(b, c, k),
    ensures
        sorts_before(a, c, k),
    decreases c.len() - k,
{
    if k < c.len() && k < a.len() && k < b.len() && a[k] == b[k] && b[k] == c[k] {
        lemma_sorts_transitive(a, b, c, k + 1);
    }
}

/// The number that a digit stands for.
pub open spec fn digit_value(c: char) -> nat {
    if '0' <= c && c <= '9' {
        (c as nat - '0' as nat) as nat
    } else {
        0
    }
}

/// The number that digits in decimal notation stand for.
pub open spec fn read(text: Seq<char>) -> nat
    decreases text.len(),
{
    if text.len() == 0 {
        0
    } else {
        10 * read(text.drop_last()) + digit_value(text.last())
    }
}

/// A number in decimal notation reads as that number, and begins with no zero but for
/// zero itself.
pub proof fn numbers_read_as_they_are(n: nat)
    ensures
        read(digits(n)) == n,
        digits(n).len() > 1 ==> digits(n)[0] != '0',
        n > 0 ==> digits(n)[0] != '0',
    decreases n,
{
    if n >= 10 {
        numbers_read_as_they_are(n / 10);
        lemma_digits_length(n / 10);
        assert(digits(n).drop_last() == digits(n / 10));
        assert(digits(n)[0] == digits(n / 10)[0]);
    } else {
        assert(read(digits(n).drop_last()) == 0);
    }
    assert(digit_value(digit(n % 10)) == n % 10);
}

/// One text comes before another exactly where it has the lesser character in the first
/// place where they differ, or where it is only the beginning of the other.
pub proof fn texts_sort_by_their_first_difference(a: Seq<char>, b: Seq<char>, k: int)
    requires
        0 <= k <= a.len(),
        k <= b.len(),
        forall|i: int| 0 <= i < k ==> a[i] == b[i],
        k < a.len() && k < b.len() ==> a[k] != b[k],
    ensures
        sorts_before(a, b, 0) <==> k < b.len() && (k == a.len() || a[k] < b[k]),
{
    lemma_sorts_from(a, b, 0, k);
}

proof fn lemma_sorts_from(a: Seq<char>, b: Seq<char>, from: int, k: int)
    requires
        0 <= from <= k <= a.len(),
        k <= b.len(),
        forall|i: int| 0 <= i < k ==> a[i] == b[i],
    ensures
        sorts_before(a, b, from) == sorts_before(a, b, k),
    decreases k - from,
{
    if from < k {
        lemma_sorts_from(a, b, from + 1, k);
    }
}

} // verus!
