use vstd::prelude::*;

verus! {

pub open spec fn is_digit(c: char) -> bool {
    48 <= (c as u32) && (c as u32) <= 57
}

pub open spec fn all_digits(s: Seq<char>) -> bool {
    forall|i: int| 0 <= i < s.len() ==> is_digit(#[trigger] s[i])
}

/// The number that a string of decimal digits writes.
pub open spec fn digits_value(s: Seq<char>) -> nat
    decreases s.len(),
{
    if s.len() == 0 {
        0
    } else {
        digits_value(s.drop_last()) * 10 + ((s.last() as u32) - ('0' as u32)) as nat
    }
}

/// What `str::parse::<u64>` accepts: an optional `+`, then one or more
/// decimal digits whose value fits in a `u64`.
pub open spec fn parse_u64_spec(s: Seq<char>) -> Option<u64> {
    let d = if s.len() > 0 && s[0] == '+' {
        s.drop_first()
    } else {
        s
    };
    if d.len() > 0 && all_digits(d) && digits_value(d) <= u64::MAX {
        Some(digits_value(d) as u64)
    } else {
        None
    }
}

/// Position of the first `.` in `s`, or its length where it has none.
pub open spec fn dot_index(s: Seq<char>) -> int
    decreases s.len(),
{
    if s.len() == 0 {
        0
    } else if s[0] == '.' {
        0
    } else {
        1 + dot_index(s.drop_first())
    }
}

/// The first `.`-separated field of `s`.
pub open spec fn first_field(s: Seq<char>) -> Seq<char> {
    s.subrange(0, dot_index(s))
}

/// The `(major, minor)` key of a channel name such as `8.0`: the first two
/// `.`-separated fields read as numbers, each 0 where it is missing or is
/// not a number.
pub open spec fn channel_key_spec(s: Seq<char>) -> (u64, u64) {
    let major = match parse_u64_spec(first_field(s)) {
        Some(v) => v,
        None => 0,
    };
    let minor = if dot_index(s) < s.len() {
        match parse_u64_spec(first_field(s.subrange(dot_index(s) + 1, s.len() as int))) {
            Some(v) => v,
            None => 0,
        }
    } else {
        0
    };
    (major, minor)
}

proof fn lemma_dot_index(s: Seq<char>, k: int)
    requires
        0 <= k <= s.len(),
        forall|j: int| 0 <= j < k ==> s[j] != '.',
        k == s.len() || s[k] == '.',
    ensures
        dot_index(s) == k,
    decreases k,
{
    if k > 0 {
        let t = s.drop_first();
        assert forall|j: int| 0 <= j < k - 1 implies t[j] != '.' by {
            assert(t[j] == s[j + 1]);
        }
        if k < s.len() {
            assert(t[k - 1] == s[k]);
        }
        lemma_dot_index(t, k - 1);
    }
}

proof fn lemma_digits_prefix_le(s: Seq<char>, k: int)
    requires
        0 <= k <= s.len(),
        all_digits(s),
    ensures
        digits_value(s.subrange(0, k)) <= digits_value(s),
    decreases s.len() - k,
{
    if k < s.len() {
        let t = s.drop_last();
        assert(is_digit(s[s.len() - 1]));
        assert(all_digits(t)) by {
            assert forall|i: int| 0 <= i < t.len() implies is_digit(#[trigger] t[i]) by {
                assert(t[i] == s[i]);
            }
        }
        lemma_digits_prefix_le(t, k);
        assert(t.subrange(0, k) =~= s.subrange(0, k));
        assert(digits_value(s) == digits_value(t) * 10 + ((s.last() as u32) - ('0' as u32)) as nat);
    } else {
        assert(s.subrange(0, k) =~= s);
    }
}

proof fn lemma_digits_step(s: Seq<char>, n: int)
    requires
        0 <= n < s.len(),
        all_digits(s.subrange(0, n)),
        is_digit(s[n]),
    ensures
        all_digits(s.subrange(0, n + 1)),
        digits_value(s.subrange(0, n + 1)) == digits_value(s.subrange(0, n)) * 10 + ((s[n] as u32) - 48) as nat,
{
    let p = s.subrange(0, n);
    let q = s.subrange(0, n + 1);
    assert(q.drop_last() =~= p);
    assert forall|j: int| 0 <= j < q.len() implies is_digit(#[trigger] q[j]) by {
        if j < n {
            assert(q[j] == p[j]);
        }
    }
}

/// Reads a decimal number as `str::parse::<u64>` does.
pub fn parse_u64(s: &str) -> (r: Option<u64>)
    ensures
        r == parse_u64_spec(s@),
{
    let len = s.unicode_len();
    let mut start: usize = 0;
    if len > 0 && s.get_char(0) == '+' {
        start = 1;
    }
    let ghost d = s@.subrange(start as int, len as int);
    assert(d =~= (if s@.len() > 0 && s@[0] == '+' { s@.drop_first() } else { s@ }));
    if start == len {
        return None;
    }
    let mut acc: u64 = 0;
    let mut i: usize = start;
    assert(d.subrange(0, 0) =~= Seq::<char>::empty());
    while i < len
        invariant
            start <= i <= len,
            len == s@.len(),
            d == s@.subrange(start as int, len as int),
            d == (if s@.len() > 0 && s@[0] == '+' { s@.drop_first() } else { s@ }),
            d.len() > 0,
            all_digits(d.subrange(0, i - start)),
            acc as nat == digits_value(d.subrange(0, i - start)),
        decreases len - i,
    {
        let c = s.get_char(i);
        assert(d[i - start] == c);
        if (c as u32) < 48 || (c as u32) > 57 {
            assert(!is_digit(d[i - start]));
            assert(!all_digits(d));
            return None;
        }
        let digit: u64 = ((c as u32) - 48) as u64;
        proof {
            lemma_digits_step(d, i - start);
        }
        if acc > (u64::MAX - digit) / 10 {
            proof {
                let q = d.subrange(0, i + 1 - start);
                assert(digits_value(q) > u64::MAX) by (nonlinear_arith)
                    requires
                        digits_value(q) == acc * 10 + digit,
                        acc > (u64::MAX - digit) / 10,
                        digit <= 9,
                ;
                if all_digits(d) {
                    lemma_digits_prefix_le(d, i + 1 - start);
                }
            }
            return None;
        }
        assert(acc * 10 + digit <= u64::MAX) by (nonlinear_arith)
            requires
                acc <= (u64::MAX - digit) / 10,
                digit <= 9,
        ;
        acc = acc * 10 + digit;
        i = i + 1;
    }
    assert(d.subrange(0, len - start) =~= d);
    Some(acc)
}

/// Splits `s` at its first `.`: the text before it, and the text after it
/// where there is one.
fn split_at_dot(s: &str) -> (r: (&str, Option<&str>))
    ensures
        r.0@ == first_field(s@),
        dot_index(s@) < s@.len() <==> r.1.is_some(),
        r.1.is_some() ==> r.1.unwrap()@ == s@.subrange(dot_index(s@) + 1, s@.len() as int),
{
    let len = s.unicode_len();
    let mut k: usize = 0;
    while k < len && s.get_char(k) != '.'
        invariant
            k <= len,
            len == s@.len(),
            forall|j: int| 0 <= j < k ==> s@[j] != '.',
        decreases len - k,
    {
        k = k + 1;
    }
    proof {
        lemma_dot_index(s@, k as int);
    }
    let head = s.substring_char(0, k);
    if k < len {
        (head, Some(s.substring_char(k + 1, len)))
    } else {
        (head, None)
    }
}

/// The `(major, minor)` key of a channel name; see [`channel_key_spec`].
pub fn parse_channel_key(channel: &str) -> (r: (u64, u64))
    ensures
        r == channel_key_spec(channel@),
{
    let (head, rest) = split_at_dot(channel);
    let major = match parse_u64(head) {
        Some(v) => v,
        None => 0,
    };
    let minor = match rest {
        Some(tail) => {
            let (second, _) = split_at_dot(tail);
            match parse_u64(second) {
                Some(v) => v,
                None => 0,
            }
        },
        None => 0,
    };
    (major, minor)
}

/// The character of a decimal digit.
pub open spec fn digit_char(d: nat) -> char {
    if d == 0 { '0' } else if d == 1 { '1' } else if d == 2 { '2' } else if d == 3 { '3' }
    else if d == 4 { '4' } else if d == 5 { '5' } else if d == 6 { '6' } else if d == 7 { '7' }
    else if d == 8 { '8' } else { '9' }
}

/// The decimal notation of `n`, without leading zeros.
pub open spec fn decimal(n: nat) -> Seq<char>
    decreases n,
{
    if n < 10 {
        seq![digit_char(n)]
    } else {
        decimal(n / 10).push(digit_char(n % 10))
    }
}

fn digit_str(d: u64) -> (r: &'static str)
    requires
        d < 10,
    ensures
        r@ == seq![digit_char(d as nat)],
{
    let r = if d == 0 { "0" } else if d == 1 { "1" } else if d == 2 { "2" } else if d == 3 { "3" }
        else if d == 4 { "4" } else if d == 5 { "5" } else if d == 6 { "6" } else if d == 7 { "7" }
        else if d == 8 { "8" } else { "9" };
    proof {
        reveal_strlit("0");
        reveal_strlit("1");
        reveal_strlit("2");
        reveal_strlit("3");
        reveal_strlit("4");
        reveal_strlit("5");
        reveal_strlit("6");
        reveal_strlit("7");
        reveal_strlit("8");
        reveal_strlit("9");
    }
    assert(r@ =~= seq![digit_char(d as nat)]);
    r
}

/// The decimal notation of `n`.
pub fn decimal_string(n: u64) -> (r: String)
    ensures
        r@ == decimal(n as nat),
    decreases n,
{
    if n < 10 {
        String::from_str(digit_str(n))
    } else {
        let mut s = decimal_string(n / 10);
        s.append(digit_str(n % 10));
        assert(s@ =~= decimal((n / 10) as nat).push(digit_char((n % 10) as nat)));
        s
    }
}

/// The channel `<major>.<minor>` that a version belongs to.
pub open spec fn channel_name(major: u64, minor: u64) -> Seq<char> {
    decimal(major as nat) + "."@ + decimal(minor as nat)
}

/// The channel `<major>.<minor>` that a version belongs to.
pub fn channel_of_version(major: u64, minor: u64) -> (r: String)
    ensures
        r@ == channel_name(major, minor),
{
    let mut s = decimal_string(major);
    s.append(".");
    let m = decimal_string(minor);
    s.append(m.as_str());
    s
}

} // verus!
