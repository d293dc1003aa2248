//! Character-level text handling: whitespace trimming, line framing and
//! decimal numbers, each with a mathematical model over `Seq<char>`.

use vstd::prelude::*;

verus! {

/// `String::push` appends one character to the end of the string.
pub assume_specification[ String::push ](s: &mut String, c: char)
    ensures
        final(s)@ == old(s)@.push(c),
;

/// The characters that carry the Unicode property `White_Space`.
pub open spec fn is_white(c: char) -> bool {
    let n = c as u32;
    (0x09 <= n && n <= 0x0D) || n == 0x20 || n == 0x85 || n == 0xA0 || n == 0x1680 || (0x2000 <= n
        && n <= 0x200A) || n == 0x2028 || n == 0x2029 || n == 0x202F || n == 0x205F || n == 0x3000
}

/// Number of white characters at the front of `s`.
pub open spec fn lead(s: Seq<char>) -> nat
    decreases s.len(),
{
    if s.len() > 0 && is_white(s[0]) {
        1 + lead(s.drop_first())
    } else {
        0
    }
}

/// Number of white characters at the back of `s`.
pub open spec fn trail(s: Seq<char>) -> nat
    decreases s.len(),
{
    if s.len() > 0 && is_white(s.last()) {
        1 + trail(s.drop_last())
    } else {
        0
    }
}

/// `s` without its leading and trailing white characters.
pub open spec fn trimmed(s: Seq<char>) -> Seq<char> {
    if lead(s) >= s.len() {
        Seq::empty()
    } else {
        s.subrange(lead(s) as int, s.len() - trail(s))
    }
}

/// Index of the last line feed in `s`, or -1 where `s` holds none.
pub open spec fn last_break(s: Seq<char>) -> int
    decreases s.len(),
{
    if s.len() == 0 {
        -1
    } else if s.last() == '\n' {
        s.len() - 1
    } else {
        last_break(s.drop_last())
    }
}

/// What follows the last line feed of `s`; all of `s` where it holds none.
pub open spec fn last_line(s: Seq<char>) -> Seq<char> {
    s.subrange(last_break(s) + 1, s.len() as int)
}

/// What precedes the last line feed of `s`; nothing where it holds none.
pub open spec fn before_last_line(s: Seq<char>) -> Seq<char> {
    if last_break(s) < 0 {
        Seq::empty()
    } else {
        s.subrange(0, last_break(s))
    }
}

/// `s` with every carriage return dropped that stands directly before a line feed.
pub open spec fn unfold_breaks(s: Seq<char>) -> Seq<char>
    decreases s.len(),
{
    if s.len() == 0 {
        s
    } else if s.len() >= 2 && s.last() == '\n' && s[s.len() - 2] == '\r' {
        unfold_breaks(s.drop_last().drop_last()).push('\n')
    } else {
        unfold_breaks(s.drop_last()).push(s.last())
    }
}

/// The index of the first character that is not white is `lead`.
pub proof fn lemma_lead_at(s: Seq<char>, i: int)
    requires
        0 <= i <= s.len(),
        forall|j: int| 0 <= j < i ==> is_white(#[trigger] s[j]),
        i == s.len() || !is_white(s[i]),
    ensures
        lead(s) == i,
    decreases i,
{
    if i > 0 {
        let t = s.drop_first();
        assert forall|j: int| 0 <= j < i - 1 implies is_white(#[trigger] t[j]) by {
            assert(t[j] == s[j + 1]);
        }
        lemma_lead_at(t, i - 1);
    }
}

/// The number of white characters behind the last other one is `trail`.
pub proof fn lemma_trail_at(s: Seq<char>, k: int)
    requires
        0 <= k <= s.len(),
        forall|j: int| s.len() - k <= j < s.len() ==> is_white(#[trigger] s[j]),
        k == s.len() || !is_white(s[s.len() - k - 1]),
    ensures
        trail(s) == k,
    decreases k,
{
    if k > 0 {
        let t = s.drop_last();
        assert forall|j: int| t.len() - (k - 1) <= j < t.len() implies is_white(#[trigger] t[j]) by {
            assert(t[j] == s[j]);
        }
        lemma_trail_at(t, k - 1);
    }
}

/// `lead` counts exactly the white characters before the first other one.
pub proof fn lemma_lead_props(s: Seq<char>)
    ensures
        lead(s) <= s.len(),
        forall|j: int| 0 <= j < lead(s) ==> is_white(#[trigger] s[j]),
        lead(s) < s.len() ==> !is_white(s[lead(s) as int]),
    decreases s.len(),
{
    if s.len() > 0 && is_white(s[0]) {
        let t = s.drop_first();
        lemma_lead_props(t);
        assert forall|j: int| 0 <= j < lead(s) implies is_white(#[trigger] s[j]) by {
            if j > 0 {
                assert(s[j] == t[j - 1]);
            }
        }
        if lead(s) < s.len() {
            assert(s[lead(s) as int] == t[lead(t) as int]);
        }
    }
}

/// `trail` counts exactly the white characters after the last other one.
pub proof fn lemma_trail_props(s: Seq<char>)
    ensures
        trail(s) <= s.len(),
        forall|j: int| s.len() - trail(s) <= j < s.len() ==> is_white(#[trigger] s[j]),
        trail(s) < s.len() ==> !is_white(s[s.len() - trail(s) - 1]),
    decreases s.len(),
{
    if s.len() > 0 && is_white(s.last()) {
        let t = s.drop_last();
        lemma_trail_props(t);
        assert forall|j: int| s.len() - trail(s) <= j < s.len() implies is_white(
            #[trigger] s[j],
        ) by {
            if j < s.len() - 1 {
                assert(s[j] == t[j]);
            }
        }
        if trail(s) < s.len() {
            assert(s[s.len() - trail(s) - 1] == t[t.len() - trail(t) - 1]);
        }
    }
}

/// The index of a line feed after which none follows is `last_break`.
pub proof fn lemma_last_break_at(s: Seq<char>, k: int)
    requires
        -1 <= k < s.len(),
        k >= 0 ==> s[k] == '\n',
        forall|j: int| k < j < s.len() ==> #[trigger] s[j] != '\n',
    ensures
        last_break(s) == k,
    decreases s.len(),
{
    if s.len() > 0 && k < s.len() - 1 {
        let t = s.drop_last();
        assert forall|j: int| k < j < t.len() implies #[trigger] t[j] != '\n' by {
            assert(t[j] == s[j]);
        }
        lemma_last_break_at(t, k);
    }
}

/// `last_break` is the index of a line feed after which none follows.
pub proof fn lemma_last_break_props(s: Seq<char>)
    ensures
        -1 <= last_break(s) < s.len(),
        last_break(s) >= 0 ==> s[last_break(s)] == '\n',
        forall|j: int| last_break(s) < j < s.len() ==> #[trigger] s[j] != '\n',
    decreases s.len(),
{
    if s.len() > 0 && s.last() != '\n' {
        let t = s.drop_last();
        lemma_last_break_props(t);
        assert forall|j: int| last_break(s) < j < s.len() implies #[trigger] s[j] != '\n' by {
            if j < s.len() - 1 {
                assert(s[j] == t[j]);
            }
        }
    }
}

/// Whether every character of `s` is white.
pub open spec fn all_white(s: Seq<char>) -> bool {
    forall|i: int| 0 <= i < s.len() ==> is_white(#[trigger] s[i])
}

/// A text that begins and ends with a character that is not white stays as
/// it is when white characters follow it and the whole is trimmed.
pub proof fn lemma_trimmed_core(a: Seq<char>, b: Seq<char>)
    requires
        a.len() > 0,
        !is_white(a[0]),
        !is_white(a.last()),
        all_white(b),
    ensures
        trimmed(a + b) == a,
{
    let s = a + b;
    assert(s[0] == a[0]);
    lemma_lead_at(s, 0);
    assert forall|j: int| s.len() - b.len() <= j < s.len() implies is_white(#[trigger] s[j]) by {
        assert(s[j] == b[j - a.len()]);
    }
    assert(s[s.len() - b.len() - 1] == a.last());
    lemma_trail_at(s, b.len() as int);
    assert(s.subrange(0, s.len() - b.len()) =~= a);
}

/// Trimming a text of white characters alone leaves nothing.
pub proof fn lemma_trimmed_white(s: Seq<char>)
    requires
        all_white(s),
    ensures
        trimmed(s) == Seq::<char>::empty(),
{
    lemma_lead_at(s, s.len() as int);
}

/// A trimmed text is empty, or begins and ends with a character that is not
/// white; the text itself is its white beginning, the trimmed text and its
/// white end.
pub proof fn lemma_trimmed_shape(s: Seq<char>)
    ensures
        trimmed(s).len() > 0 ==> !is_white(trimmed(s)[0]) && !is_white(trimmed(s).last()),
        trimmed(s).len() == 0 ==> all_white(s),
        trimmed(s).len() > 0 ==> lead(s) + trail(s) < s.len() && s == s.take(lead(s) as int)
            + trimmed(s) + s.skip(s.len() - trail(s)),
        all_white(s.take(lead(s) as int)),
        all_white(s.skip(s.len() - trail(s))),
{
    lemma_lead_props(s);
    lemma_trail_props(s);
    if lead(s) < s.len() {
        if s.len() - trail(s) <= lead(s) {
            assert(is_white(s[lead(s) as int]));
        }
        assert(s =~= s.take(lead(s) as int) + trimmed(s) + s.skip(s.len() - trail(s)));
    }
}

/// A character other than a line feed, put behind a text, joins its last line.
pub proof fn lemma_last_line_push(s: Seq<char>, c: char)
    requires
        c != '\n',
    ensures
        last_break(s.push(c)) == last_break(s),
        last_line(s.push(c)) == last_line(s).push(c),
{
    assert(s.push(c).drop_last() =~= s);
    lemma_last_break_props(s);
    assert(last_line(s.push(c)) =~= last_line(s).push(c));
}

/// Unfolding line breaks keeps the last character.
pub proof fn lemma_unfold_last(s: Seq<char>)
    requires
        s.len() > 0,
    ensures
        unfold_breaks(s).len() > 0,
        unfold_breaks(s).last() == s.last(),
{
}

/// Unfolding line breaks keeps a first character that is no carriage return.
pub proof fn lemma_unfold_first(s: Seq<char>)
    requires
        s.len() > 0,
        s[0] != '\r',
    ensures
        unfold_breaks(s).len() > 0,
        unfold_breaks(s)[0] == s[0],
    decreases s.len(),
{
    if s.len() >= 2 {
        if s.last() == '\n' && s[s.len() - 2] == '\r' {
            let t = s.drop_last().drop_last();
            if t.len() > 0 {
                assert(t[0] == s[0]);
                lemma_unfold_first(t);
                assert(unfold_breaks(s)[0] == unfold_breaks(t)[0]);
            } else {
                assert(s[s.len() - 2] == s[0]);
            }
        } else {
            let t = s.drop_last();
            assert(t[0] == s[0]);
            lemma_unfold_first(t);
            assert(unfold_breaks(s)[0] == unfold_breaks(t)[0]);
        }
    } else {
        let t = s.drop_last();
        assert(t.len() == 0);
        assert(unfold_breaks(t) =~= t);
        assert(unfold_breaks(s) =~= t.push(s.last()));
    }
}

/// Unfolding the line breaks of white characters leaves white characters.
pub proof fn lemma_unfold_white(s: Seq<char>)
    requires
        all_white(s),
    ensures
        all_white(unfold_breaks(s)),
    decreases s.len(),
{
    if s.len() > 0 {
        if s.len() >= 2 && s.last() == '\n' && s[s.len() - 2] == '\r' {
            let t = s.drop_last().drop_last();
            assert forall|i: int| 0 <= i < t.len() implies is_white(#[trigger] t[i]) by {
                assert(t[i] == s[i]);
            }
            lemma_unfold_white(t);
        } else {
            let t = s.drop_last();
            assert forall|i: int| 0 <= i < t.len() implies is_white(#[trigger] t[i]) by {
                assert(t[i] == s[i]);
            }
            lemma_unfold_white(t);
            assert(is_white(s[s.len() - 1]));
        }
    }
}

/// Unfolding goes part by part where the first part does not end with a
/// carriage return.
pub proof fn lemma_unfold_concat(a: Seq<char>, b: Seq<char>)
    requires
        a.len() == 0 || a.last() != '\r',
    ensures
        unfold_breaks(a + b) == unfold_breaks(a) + unfold_breaks(b),
    decreases b.len(),
{
    let s = a + b;
    if b.len() == 0 {
        assert(s =~= a);
        assert(unfold_breaks(a) + unfold_breaks(b) =~= unfold_breaks(a));
    } else {
        assert(s.last() == b.last());
        if b.len() >= 2 {
            assert(s[s.len() - 2] == b[b.len() - 2]);
        } else if a.len() > 0 {
            assert(s[s.len() - 2] == a.last());
        }
        if s.len() >= 2 && s.last() == '\n' && s[s.len() - 2] == '\r' {
            let t = b.drop_last().drop_last();
            assert(s.drop_last().drop_last() =~= a + t);
            lemma_unfold_concat(a, t);
            assert(unfold_breaks(s) =~= unfold_breaks(a) + unfold_breaks(b));
        } else {
            let t = b.drop_last();
            assert(s.drop_last() =~= a + t);
            lemma_unfold_concat(a, t);
            assert(unfold_breaks(s) =~= unfold_breaks(a) + unfold_breaks(b));
        }
    }
}

/// Unfolding line breaks does not change the last line.
pub proof fn lemma_unfold_last_line(s: Seq<char>)
    ensures
        last_line(unfold_breaks(s)) == last_line(s),
    decreases s.len(),
{
    if s.len() > 0 {
        let u = unfold_breaks(s);
        lemma_unfold_last(s);
        if s.last() == '\n' {
            assert(last_line(u) =~= Seq::<char>::empty());
            assert(last_line(s) =~= Seq::<char>::empty());
        } else {
            let t = s.drop_last();
            lemma_unfold_last_line(t);
            lemma_last_line_push(unfold_breaks(t), s.last());
            lemma_last_line_push(t, s.last());
            assert(t.push(s.last()) =~= s);
        }
    } else {
        assert(last_line(s) =~= Seq::<char>::empty());
    }
}

/// Whether `c` is a white character.
pub fn is_whitespace(c: char) -> (r: bool)
    ensures
        r == is_white(c),
{
    let n: u32 = c as u32;
    (0x09 <= n && n <= 0x0D) || n == 0x20 || n == 0x85 || n == 0xA0 || n == 0x1680 || (0x2000 <= n
        && n <= 0x200A) || n == 0x2028 || n == 0x2029 || n == 0x202F || n == 0x205F || n == 0x3000
}

/// The characters of `s`, one by one.
pub fn to_chars(s: &str) -> (v: Vec<char>)
    ensures
        v@ == s@,
{
    let mut v: Vec<char> = Vec::new();
    for c in it: s.chars()
        invariant
            it.seq() == s@,
            v@ == it.seq().take(it.index() as int),
    {
        v.push(c);
    }
    v
}

/// The text made of `v[from..to]`.
pub fn from_chars(v: &Vec<char>, from: usize, to: usize) -> (s: String)
    requires
        from <= to <= v.len(),
    ensures
        s@ == v@.subrange(from as int, to as int),
{
    let mut s = String::new();
    let mut i: usize = from;
    while i < to
        invariant
            from <= i <= to <= v.len(),
            s@ == v@.subrange(from as int, i as int),
        decreases to - i,
    {
        s.push(v[i]);
        i += 1;
    }
    s
}

/// The bounds of `v[from..to]` once trimmed: the part of `v` between the two
/// indices returned is the trimmed text.
pub fn trim_bounds(v: &Vec<char>, from: usize, to: usize) -> (r: (usize, usize))
    requires
        from <= to <= v.len(),
    ensures
        from <= r.0 <= r.1 <= to,
        v@.subrange(r.0 as int, r.1 as int) == trimmed(v@.subrange(from as int, to as int)),
{
    let ghost s = v@.subrange(from as int, to as int);
    let mut a: usize = from;
    while a < to && is_whitespace(v[a])
        invariant
            from <= a <= to <= v.len(),
            s == v@.subrange(from as int, to as int),
            forall|j: int| 0 <= j < a - from ==> is_white(#[trigger] s[j]),
        decreases to - a,
    {
        a += 1;
    }
    proof {
        lemma_lead_at(s, a - from);
    }
    if a == to {
        assert(v@.subrange(a as int, a as int) =~= Seq::<char>::empty());
        return (a, a);
    }
    let mut b: usize = to;
    while b > a + 1 && is_whitespace(v[b - 1])
        invariant
            from <= a < b <= to <= v.len(),
            s == v@.subrange(from as int, to as int),
            forall|j: int| b - from <= j < s.len() ==> is_white(#[trigger] s[j]),
        decreases b,
    {
        b -= 1;
    }
    proof {
        assert(!is_white(s[a - from]));
        lemma_trail_at(s, to - b);
        assert(v@.subrange(a as int, b as int) =~= s.subrange(a - from, s.len() - (to - b)));
    }
    (a, b)
}

/// The index in `v` at which the last line of `v[from..to]` begins.
pub fn line_start(v: &Vec<char>, from: usize, to: usize) -> (r: usize)
    requires
        from <= to <= v.len(),
    ensures
        from <= r <= to,
        r - from == last_break(v@.subrange(from as int, to as int)) + 1,
{
    let ghost s = v@.subrange(from as int, to as int);
    let mut k: usize = to;
    while k > from && v[k - 1] != '\n'
        invariant
            from <= k <= to <= v.len(),
            s == v@.subrange(from as int, to as int),
            forall|j: int| k - from <= j < s.len() ==> #[trigger] s[j] != '\n',
        decreases k,
    {
        k -= 1;
    }
    proof {
        lemma_last_break_at(s, k - from - 1);
    }
    k
}

/// `v` with every carriage return dropped that stands directly before a line feed.
pub fn unfold(v: &Vec<char>, from: usize, to: usize) -> (r: Vec<char>)
    requires
        from <= to <= v.len(),
    ensures
        r@ == unfold_breaks(v@.subrange(from as int, to as int)),
{
    let mut r: Vec<char> = Vec::new();
    let mut i: usize = from;
    proof {
        assert(v@.subrange(from as int, from as int) =~= Seq::<char>::empty());
    }
    while i < to
        invariant
            from <= i <= to <= v.len(),
            r@ == unfold_breaks(v@.subrange(from as int, i as int)),
        decreases to - i,
    {
        let c = v[i];
        let ghost before = v@.subrange(from as int, i as int);
        let ghost after = v@.subrange(from as int, i + 1);
        proof {
            assert(after.drop_last() =~= before);
            assert(after.last() == c);
        }
        if c == '\n' && i > from && v[i - 1] == '\r' {
            proof {
                assert(before.last() == '\r');
                assert(after[after.len() - 2] == '\r');
                assert(r@ == unfold_breaks(before.drop_last()).push('\r'));
            }
            r.pop();
            proof {
                assert(r@ =~= unfold_breaks(before.drop_last()));
                assert(after.drop_last().drop_last() =~= before.drop_last());
            }
        } else {
            proof {
                if after.len() >= 2 {
                    assert(after[after.len() - 2] == v@[i - 1]);
                }
            }
        }
        r.push(c);
        i += 1;
    }
    r
}

/// `s` without its leading and trailing white characters.
pub fn trim(s: &str) -> (r: String)
    ensures
        r@ == trimmed(s@),
{
    let v = to_chars(s);
    let (a, b) = trim_bounds(&v, 0, v.len());
    proof {
        assert(v@.subrange(0, v.len() as int) =~= v@);
    }
    from_chars(&v, a, b)
}

/// The character of the decimal digit `d`.
pub open spec fn digit(d: nat) -> char
    recommends
        d < 10,
{
    (('0' as u8) + (d as u8)) as char
}

/// `n` written in decimal digits, without sign or leading zeros.
pub open spec fn decimal(n: nat) -> Seq<char>
    decreases n,
{
    if n < 10 {
        seq![digit(n)]
    } else {
        decimal(n / 10).push(digit(n % 10))
    }
}

/// Whether `c` is one of the digits `0` to `9`.
pub open spec fn is_digit(c: char) -> bool {
    '0' <= c && c <= '9'
}

/// The number that the decimal digits `s` denote; the empty text denotes 0.
pub open spec fn digits_value(s: Seq<char>) -> nat
    decreases s.len(),
{
    if s.len() == 0 {
        0
    } else {
        digits_value(s.drop_last()) * 10 + ((s.last() as u8) - ('0' as u8)) as nat
    }
}

/// Whether `s` is made of digits alone, at least one.
pub open spec fn all_digits(s: Seq<char>) -> bool {
    s.len() > 0 && forall|i: int| 0 <= i < s.len() ==> is_digit(#[trigger] s[i])
}

/// What `s` denotes as an unsigned number of 64 bits: an optional `+`, then
/// digits alone, at least one, whose value fits.
pub open spec fn parsed_u64(s: Seq<char>) -> Option<u64> {
    let body = if s.len() > 0 && s[0] == '+' {
        s.drop_first()
    } else {
        s
    };
    if all_digits(body) && digits_value(body) <= u64::MAX {
        Some(digits_value(body) as u64)
    } else {
        None
    }
}

/// The digits of a number are digits, and denote the number.
pub proof fn lemma_decimal_digits(n: nat)
    ensures
        all_digits(decimal(n)),
        digits_value(decimal(n)) == n,
        n > 0 ==> decimal(n)[0] != '0',
    decreases n,
{
    if n < 10 {
        let s = decimal(n);
        assert(s.drop_last() =~= Seq::<char>::empty());
        assert(digits_value(s.drop_last()) == 0);
    } else {
        lemma_decimal_digits(n / 10);
        let s = decimal(n);
        assert(s.drop_last() =~= decimal(n / 10));
        assert(s[0] == decimal(n / 10)[0]);
    }
}

/// The value of a text of digits is at least that of each of its beginnings.
pub proof fn lemma_digits_value_grows(s: Seq<char>, k: int)
    requires
        0 <= k <= s.len(),
    ensures
        digits_value(s.take(k)) <= digits_value(s),
    decreases s.len() - k,
{
    if k < s.len() {
        lemma_digits_value_grows(s, k + 1);
        assert(s.take(k + 1).drop_last() =~= s.take(k));
    } else {
        assert(s.take(k) =~= s);
    }
}

/// `n` in decimal digits.
pub fn decimal_text(n: u64) -> (r: String)
    ensures
        r@ == decimal(n as nat),
{
    let mut digits: Vec<char> = Vec::new();
    let mut rest: u64 = n / 10;
    digits.push((('0' as u8) + (n % 10) as u8) as char);
    while rest > 0
        invariant
            digits.len() > 0,
            decimal(n as nat) == (if rest > 0 {
                decimal(rest as nat)
            } else {
                Seq::<char>::empty()
            }) + digits@.reverse(),
        decreases rest,
    {
        let ghost before = digits@;
        digits.push((('0' as u8) + (rest % 10) as u8) as char);
        proof {
            assert(digits@.reverse() =~= seq![digit((rest % 10) as nat)] + before.reverse());
            if rest >= 10 {
                assert(decimal(rest as nat) =~= decimal((rest / 10) as nat) + seq![
                    digit((rest % 10) as nat),
                ]);
            }
        }
        rest = rest / 10;
    }
    let mut r = String::new();
    let mut i: usize = digits.len();
    while i > 0
        invariant
            i <= digits.len(),
            r@ == digits@.reverse().take(digits.len() - i),
        decreases i,
    {
        i -= 1;
        r.push(digits[i]);
        proof {
            assert(digits@.reverse().take(digits.len() - i) =~= digits@.reverse().take(
                digits.len() - i - 1,
            ).push(digits@[i as int]));
        }
    }
    proof {
        assert(digits@.reverse().take(digits.len() as int) =~= digits@.reverse());
    }
    r
}

/// Reads `s` as an unsigned number of 64 bits.
pub fn parse_u64(s: &str) -> (r: Option<u64>)
    ensures
        r == parsed_u64(s@),
{
    let v = to_chars(s);
    let n = v.len();
    let start: usize = if n > 0 && v[0] == '+' {
        1
    } else {
        0
    };
    let ghost body = v@.subrange(start as int, n as int);
    proof {
        if start == 1 {
            assert(body =~= v@.drop_first());
        } else {
            assert(body =~= v@);
        }
    }
    if start == n {
        return None;
    }
    let mut value: u64 = 0;
    let mut i: usize = start;
    while i < n
        invariant
            start <= i <= n == v.len(),
            body == v@.subrange(start as int, n as int),
            parsed_u64(s@) == (if all_digits(body) && digits_value(body) <= u64::MAX {
                Some(digits_value(body) as u64)
            } else {
                None
            }),
            forall|j: int| 0 <= j < i - start ==> is_digit(#[trigger] body[j]),
            value == digits_value(body.take(i - start)),
        decreases n - i,
    {
        let c = v[i];
        if !('0' <= c && c <= '9') {
            assert(!is_digit(body[i - start]));
            return None;
        }
        let d: u64 = (c as u8 - ('0' as u8)) as u64;
        proof {
            assert(body.take(i - start + 1).drop_last() =~= body.take(i - start));
            assert(body.take(i - start + 1).last() == c);
            lemma_digits_value_grows(body, i - start + 1);
        }
        if value > (u64::MAX - d) / 10 {
            return None;
        }
        value = value * 10 + d;
        i += 1;
    }
    proof {
        assert(body.take(n - start) =~= body);
    }
    Some(value)
}

} // verus!
