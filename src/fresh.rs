use vstd::prelude::*;

verus! {

/// The character of a decimal digit.
pub open spec fn digit_char(d: nat) -> char {
    if d == 0 { '0' } else if d == 1 { '1' } else if d == 2 { '2' } else if d == 3 { '3' }
    else if d == 4 { '4' } else if d == 5 { '5' } else if d == 6 { '6' } else if d == 7 { '7' }
    else if d == 8 { '8' } else { '9' }
}

/// The decimal representation of `n`, without leading zeros.
pub open spec fn decimal(n: nat) -> Seq<char>
    decreases n,
{
    if n < 10 {
        seq![digit_char(n)]
    } else {
        decimal(n / 10).push(digit_char(n % 10))
    }
}

/// The `n`-th name handed out by a fresh name supply: `_<n>`.
pub open spec fn fresh_name(n: nat) -> Seq<char> {
    seq!['_'] + decimal(n)
}

pub proof fn lemma_decimal_len(n: nat)
    ensures
        decimal(n).len() >= 1,
        n >= 10 ==> decimal(n).len() >= 2,
    decreases n,
{
    if n >= 10 {
        lemma_decimal_len(n / 10);
    }
}

proof fn lemma_digit_char_injective(a: nat, b: nat)
    requires
        a < 10,
        b < 10,
        digit_char(a) == digit_char(b),
    ensures
        a == b,
{
}

/// Distinct numbers have distinct decimal representations.
pub proof fn lemma_decimal_injective(a: nat, b: nat)
    requires
        decimal(a) == decimal(b),
    ensures
        a == b,
    decreases a,
{
    lemma_decimal_len(a);
    lemma_decimal_len(b);
    if a >= 10 && b >= 10 {
        let da = decimal(a);
        let db = decimal(b);
        assert(da.last() == db.last());
        assert(decimal(a / 10) == da.drop_last());
        assert(decimal(b / 10) == db.drop_last());
        lemma_digit_char_injective(a % 10, b % 10);
        lemma_decimal_injective(a / 10, b / 10);
    } else if a < 10 && b < 10 {
        assert(decimal(a)[0] == decimal(b)[0]);
        assert(decimal(a)[0] == digit_char(a));
        assert(decimal(b)[0] == digit_char(b));
        lemma_digit_char_injective(a, b);
    }
}

/// Two different positions of the counter never give the same name.
pub proof fn lemma_fresh_names_distinct(a: nat, b: nat)
    requires
        a != b,
    ensures
        fresh_name(a) != fresh_name(b),
{
    if fresh_name(a) == fresh_name(b) {
        assert(decimal(a) == fresh_name(a).drop_first());
        assert(decimal(b) == fresh_name(b).drop_first());
        lemma_decimal_injective(a, b);
    }
}

fn digit_str(d: u64) -> (r: &'static str)
    requires
        d < 10,
    ensures
        r@ == seq![digit_char(d as nat)],
{
    proof {
        reveal_strlit("0");
        reveal_strlit("1");
        reveal_strlit("2");
        reveal_strlit("3");
        reveal_strlit("4");
        reveal_strlit("5");
        reveal_strlit("6");
        reveal_strlit("7");
        reveal_strlit("8");
        reveal_strlit("9");
    }
    if d == 0 { "0" } else if d == 1 { "1" } else if d == 2 { "2" } else if d == 3 { "3" }
    else if d == 4 { "4" } else if d == 5 { "5" } else if d == 6 { "6" } else if d == 7 { "7" }
    else if d == 8 { "8" } else { "9" }
}

/// Appends the decimal representation of `n` to `s`.
pub fn push_decimal(s: &mut String, n: u64)
    ensures
        final(s)@ == old(s)@ + decimal(n as nat),
    decreases n,
{
    if n >= 10 {
        push_decimal(s, n / 10);
    }
    s.append(digit_str(n % 10));
    assert(final(s)@ =~= old(s)@ + decimal(n as nat));
}

/// A supply of fresh names `_0`, `_1`, `_2`, ... drawn from a counter that
/// only goes up. Callers that share one supply across threads hold it behind
/// a lock: every call takes it by `&mut`, so no two calls overlap.
pub struct NewStringGenerator {
    i: u64,
}

impl NewStringGenerator {
    /// The number that the next name will carry.
    pub closed spec fn next(&self) -> nat {
        self.i as nat
    }

    /// A supply whose first name is `_0`.
    pub fn new() -> (r: NewStringGenerator)
        ensures
            r.next() == 0,
    {
        NewStringGenerator { i: 0 }
    }

    /// The number that the next name will carry.
    pub fn counter(&self) -> (r: u64)
        ensures
            r == self.next(),
    {
        self.i
    }

    /// Hands out `_<n>` and moves the counter past `n`.
    pub fn new_string(&mut self) -> (r: String)
        requires
            old(self).next() < u64::MAX,
        ensures
            r@ == fresh_name(old(self).next()),
            final(self).next() == old(self).next() + 1,
    {
        let mut r = String::new();
        proof {
            reveal_strlit("_");
        }
        r.append("_");
        push_decimal(&mut r, self.i);
        self.i = self.i + 1;
        r
    }
}

impl Default for NewStringGenerator {
    fn default() -> (r: NewStringGenerator)
        ensures
            r.next() == 0,
    {
        NewStringGenerator::new()
    }
}

} // verus!
