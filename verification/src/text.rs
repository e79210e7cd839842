//! Strings as sequences of characters.
//!
//! Names, commands and messages are compared, cut and composed here. Every contract speaks of
//! the characters of a string, `s@`.
use vstd::arithmetic::power::pow;
use vstd::prelude::*;
use vstd::std_specs::iter::IteratorSpec;

verus! {

/// `String::push` appends one character to the end of the string.
pub assume_specification[ String::push ](s: &mut String, c: char)
    ensures
        final(s)@ == old(s)@.push(c),
;

/// The characters of `s`, in order.
pub fn chars_of(s: &str) -> (r: Vec<char>)
    ensures
        r@ == s@,
{
    let mut r: Vec<char> = Vec::new();
    for c in it: s.chars()
        invariant
            r@ == s@.take(it.index() as int),
            it.seq() == s@,
    {
        r.push(c);
        assert(s@.take(it.index() as int + 1) =~= s@.take(it.index() as int).push(c));
    }
    assert(s@.take(s@.len() as int) =~= s@);
    r
}

/// The string of `cs[from..to]`.
pub fn piece(cs: &[char], from: usize, to: usize) -> (r: String)
    requires
        from <= to <= cs@.len(),
    ensures
        r@ == cs@.subrange(from as int, to as int),
{
    let mut r = String::new();
    let mut i: usize = from;
    assert(cs@.subrange(from as int, from as int) =~= Seq::<char>::empty());
    while i < to
        invariant
            from <= i <= to <= cs@.len(),
            r@ == cs@.subrange(from as int, i as int),
        decreases to - i,
    {
        r.push(cs[i]);
        assert(cs@.subrange(from as int, i as int + 1) =~= cs@.subrange(
            from as int,
            i as int,
        ).push(cs@[i as int]));
        i += 1;
    }
    r
}

/// The string of all of `cs`.
pub fn string_of(cs: &[char]) -> (r: String)
    ensures
        r@ == cs@,
{
    assert(cs@.subrange(0, cs@.len() as int) =~= cs@);
    piece(cs, 0, cs.len())
}

/// Whether the two strings have the same characters.
pub fn same(a: &str, b: &str) -> (r: bool)
    ensures
        r == (a@ == b@),
{
    let mut x = a.chars();
    let mut y = b.chars();
    let ghost mut n: nat = 0;
    loop
        invariant
            n <= a@.len(),
            n <= b@.len(),
            x.obeys_prophetic_iter_laws(),
            y.obeys_prophetic_iter_laws(),
            x.remaining() == a@.skip(n as int),
            y.remaining() == b@.skip(n as int),
            a@.take(n as int) == b@.take(n as int),
        decreases a@.len() - n,
    {
        let p = x.next();
        let q = y.next();
        match (p, q) {
            (None, None) => {
                assert(a@.take(n as int) =~= a@);
                assert(b@.take(n as int) =~= b@);
                return true;
            },
            (Some(c), Some(d)) => {
                if c != d {
                    assert(a@[n as int] == c);
                    assert(b@[n as int] == d);
                    return false;
                }
                proof {
                    assert(a@.take(n as int + 1) =~= a@.take(n as int).push(c));
                    assert(b@.take(n as int + 1) =~= b@.take(n as int).push(d));
                    assert(a@.skip(n as int).drop_first() =~= a@.skip(n as int + 1));
                    assert(b@.skip(n as int).drop_first() =~= b@.skip(n as int + 1));
                    n = n + 1;
                }
            },
            _ => {
                return false;
            },
        }
    }
}

/// `a` comes before `b` in the order of strings: at the first place where they differ `a` has
/// the smaller character, or `a` ends there.
pub open spec fn before(a: Seq<char>, b: Seq<char>) -> bool {
    exists|n: int| #[trigger] differ_at(a, b, n)
}

/// `a` and `b` agree on the first `n` characters, and at `n` it is decided that `a` comes first.
pub open spec fn differ_at(a: Seq<char>, b: Seq<char>, n: int) -> bool {
    &&& 0 <= n <= a.len()
    &&& n < b.len()
    &&& a.take(n) == b.take(n)
    &&& (n == a.len() || a[n] < b[n])
}

/// The three ways in which one string can stand to another.
#[derive(Clone, Copy, PartialEq, Eq, Structural, Debug)]
pub enum Place {
    Before,
    Same,
    After,
}

/// Where `a` stands to `b` in the order of strings.
pub fn place(a: &str, b: &str) -> (r: Place)
    ensures
        r == Place::Before <==> before(a@, b@),
        r == Place::Same <==> a@ == b@,
        r == Place::After <==> before(b@, a@),
{
    let x = chars_of(a);
    let y = chars_of(b);
    let mut n: usize = 0;
    while n < x.len() && n < y.len() && x[n] == y[n]
        invariant
            x@ == a@,
            y@ == b@,
            n <= a@.len(),
            n <= b@.len(),
            a@.take(n as int) == b@.take(n as int),
        decreases a@.len() - n,
    {
        assert(a@.take(n as int + 1) =~= a@.take(n as int).push(a@[n as int]));
        assert(b@.take(n as int + 1) =~= b@.take(n as int).push(b@[n as int]));
        n += 1;
    }
    proof {
        lemma_before_strict(a@, b@);
    }
    if n == x.len() {
        if n == y.len() {
            assert(a@.take(n as int) =~= a@);
            assert(b@.take(n as int) =~= b@);
            Place::Same
        } else {
            assert(differ_at(a@, b@, n as int));
            Place::Before
        }
    } else if n == y.len() {
        assert(differ_at(b@, a@, n as int));
        Place::After
    } else if x[n] < y[n] {
        assert(differ_at(a@, b@, n as int));
        Place::Before
    } else {
        assert(differ_at(b@, a@, n as int));
        Place::After
    }
}

/// At most one of `a == b`, `a` before `b` and `b` before `a` holds.
pub proof fn lemma_before_strict(a: Seq<char>, b: Seq<char>)
    ensures
        !before(a, a),
        before(a, b) ==> !before(b, a) && a != b,
{
    if before(a, b) && before(b, a) {
        let n = choose|n: int| differ_at(a, b, n);
        let m = choose|m: int| differ_at(b, a, m);
        if n < m {
            assert(a[n] == a.take(m)[n]);
            assert(b[n] == b.take(m)[n]);
        } else if m < n {
            assert(a[m] == a.take(n)[m]);
            assert(b[m] == b.take(n)[m]);
        }
    }
    if before(a, a) {
        let n = choose|n: int| differ_at(a, a, n);
    }
}

/// The order of strings is transitive.
pub proof fn lemma_before_trans(a: Seq<char>, b: Seq<char>, c: Seq<char>)
    requires
        before(a, b),
        before(b, c),
    ensures
        before(a, c),
{
    let n = choose|n: int| differ_at(a, b, n);
    let m = choose|m: int| differ_at(b, c, m);
    if n < m {
        assert(b[n] == b.take(m)[n]);
        assert(c[n] == c.take(m)[n]);
        assert(b.take(n) =~= b.take(m).take(n));
        assert(c.take(n) =~= c.take(m).take(n));
        assert(differ_at(a, c, n));
    } else {
        if m < n {
            assert(a[m] == a.take(n)[m]);
            assert(b[m] == b.take(n)[m]);
            assert(a.take(m) =~= a.take(n).take(m));
            assert(b.take(m) =~= b.take(n).take(m));
        }
        assert(differ_at(a, c, m));
    }
}

// Numbers in decimal.

/// The character of a digit below ten.
pub open spec fn digit(d: nat) -> char {
    ((48 + d) as u8) as char
}

/// `n` in decimal, without leading zeros.
pub open spec fn dec(n: nat) -> Seq<char>
    decreases n,
{
    if n < 10 {
        seq![digit(n)]
    } else {
        dec(n / 10).push(digit(n % 10))
    }
}

/// `n` in decimal, with a minus sign where it is negative.
pub open spec fn dec_int(n: int) -> Seq<char> {
    if n < 0 {
        seq!['-'] + dec((-n) as nat)
    } else {
        dec(n as nat)
    }
}

/// Appends `n` in decimal.
pub fn push_dec(s: &mut String, n: u64)
    ensures
        final(s)@ == old(s)@ + dec(n as nat),
    decreases n,
{
    if n >= 10 {
        push_dec(s, n / 10);
    }
    s.push((48u8 + (n % 10) as u8) as char);
    assert(s@ =~= old(s)@ + dec(n as nat));
}

/// Appends `n` in decimal, with a minus sign where it is negative.
pub fn push_dec_int(s: &mut String, n: i64)
    requires
        n > i64::MIN,
    ensures
        final(s)@ == old(s)@ + dec_int(n as int),
{
    if n < 0 {
        s.push('-');
        push_dec(s, (-n) as u64);
        assert(s@ =~= old(s)@ + dec_int(n as int));
    } else {
        push_dec(s, n as u64);
    }
}

/// The number that a run of decimal digits stands for.
pub open spec fn digits_value(s: Seq<char>) -> nat
    decreases s.len(),
{
    if s.len() == 0 {
        0
    } else {
        digits_value(s.drop_last()) * 10 + (s.last() as u32 - 48) as nat
    }
}

pub open spec fn is_digit(c: char) -> bool {
    '0' <= c <= '9'
}

/// Nothing but digits.
pub open spec fn all_digits(s: Seq<char>) -> bool {
    forall|i: int| 0 <= i < s.len() ==> is_digit(#[trigger] s[i])
}

/// `s` without a plus sign at its front.
pub open spec fn unsigned(s: Seq<char>) -> Seq<char> {
    if s.len() > 0 && s[0] == '+' {
        s.skip(1)
    } else {
        s
    }
}

/// The number that `s` reads as: an optional plus sign, then digits and nothing else, with a
/// value of at most `max`.
pub open spec fn read_uint(s: Seq<char>, max: nat) -> Option<nat> {
    let d = unsigned(s);
    if d.len() > 0 && all_digits(d) && digits_value(d) <= max {
        Some(digits_value(d))
    } else {
        None
    }
}

/// Digits count by their place: those before the last `b` count for ten times as much for each of
/// them.
pub proof fn law_digits_count_by_place(a: Seq<char>, b: Seq<char>)
    ensures
        digits_value(a + b) == digits_value(a) * pow(10, b.len()) + digits_value(b),
    decreases b.len(),
{
    reveal(pow);
    if b.len() == 0 {
        assert(a + b =~= a);
    } else {
        let c = b.drop_last();
        law_digits_count_by_place(a, c);
        assert((a + b).drop_last() =~= a + c);
        assert((a + b).last() == b.last());
        let (x, y, z) = (digits_value(a) as int, pow(10, c.len()), digits_value(c) as int);
        assert((x * y + z) * 10 == x * (10 * y) + z * 10) by (nonlinear_arith);
    }
}

/// One digit counts for what it says.
pub proof fn law_one_digit_says_its_value(d: char)
    requires
        '0' <= d <= '9',
    ensures
        digits_value(seq![d]) == d as u32 - '0' as u32,
{
    assert(seq![d].drop_last() =~= Seq::empty());
    assert(digits_value(Seq::<char>::empty()) == 0);
}

/// A number in decimal has only digits, no needless zero in front, and reads back as itself.
pub proof fn law_decimal_reads_back(n: nat, max: nat)
    ensures
        dec(n).len() > 0,
        all_digits(dec(n)),
        n > 0 ==> dec(n)[0] != '0',
        n == 0 ==> dec(n) == seq!['0'],
        digits_value(dec(n)) == n,
        n <= max ==> read_uint(dec(n), max) == Some(n),
        n > max ==> read_uint(dec(n), max) is None,
        n < 10 ==> dec(n).len() == 1,
        10 <= n < 100 ==> dec(n).len() == 2,
        100 <= n < 1000 ==> dec(n).len() == 3,
    decreases n,
{
    if n < 10 {
        assert(dec(n).drop_last() =~= Seq::empty());
        assert(digits_value(Seq::<char>::empty()) == 0);
    } else {
        law_decimal_reads_back(n / 10, max);
        assert(dec(n).drop_last() =~= dec(n / 10));
        assert forall|i: int| 0 <= i < dec(n).len() implies is_digit(#[trigger] dec(n)[i]) by {
            if i < dec(n / 10).len() {
                assert(dec(n)[i] == dec(n / 10)[i]);
            }
        }
        assert(dec(n)[0] == dec(n / 10)[0]);
    }
    assert(is_digit(dec(n)[0]));
}

/// A plus sign in front of a number changes nothing, and anything but digits is no number.
pub proof fn law_what_reads_as_a_number(s: Seq<char>, max: nat)
    ensures
        s.len() > 0 && s[0] != '+' ==> read_uint(seq!['+'] + s, max) == read_uint(s, max),
        read_uint(s, max) is Some ==> read_uint(s, max)->0 <= max,
        forall|i: int|
            0 < i < s.len() && !('0' <= #[trigger] s[i] <= '9') ==> read_uint(s, max) is None,
        s.len() > 0 && s[0] != '+' && !('0' <= s[0] <= '9') ==> read_uint(s, max) is None,
        s.len() == 0 ==> read_uint(s, max) is None,
        s == seq!['+'] ==> read_uint(s, max) is None,
{
    assert((seq!['+'] + s).skip(1) =~= s);
    assert forall|i: int| 0 < i < s.len() && !('0' <= #[trigger] s[i] <= '9') implies read_uint(
        s,
        max,
    ) is None by {
        if s[0] == '+' {
            assert(!is_digit(s.skip(1)[i - 1]));
        } else {
            assert(!is_digit(s[i]));
        }
    }
    if s.len() > 0 && s[0] != '+' && !('0' <= s[0] <= '9') {
        assert(!is_digit(s[0]));
    }
}

/// The value of the digits so far never exceeds that of all of them.
proof fn lemma_digits_value_grows(s: Seq<char>, n: int)
    requires
        0 <= n <= s.len(),
        all_digits(s),
    ensures
        digits_value(s.take(n)) <= digits_value(s),
    decreases s.len(),
{
    if n == s.len() {
        assert(s.take(n) =~= s);
    } else {
        assert(s.drop_last().take(n) =~= s.take(n));
        assert forall|i: int| 0 <= i < s.drop_last().len() implies is_digit(
            #[trigger] s.drop_last()[i],
        ) by {
            assert(is_digit(s[i]));
        }
        lemma_digits_value_grows(s.drop_last(), n);
    }
}

/// Reads an unsigned number of at most `max` as `str::parse` does.
pub fn parse_uint(cs: &[char], max: u64) -> (r: Option<u64>)
    ensures
        match r {
            Some(v) => read_uint(cs@, max as nat) == Some(v as nat),
            None => read_uint(cs@, max as nat) is None,
        },
{
    let start: usize = if cs.len() > 0 && cs[0] == '+' {
        1
    } else {
        0
    };
    let ghost d = cs@.skip(start as int);
    assert(start == 0 ==> d =~= cs@);
    if start == cs.len() {
        return None;
    }
    let mut v: u64 = 0;
    let mut i: usize = start;
    assert(d.take(0) =~= Seq::<char>::empty());
    while i < cs.len()
        invariant
            start <= i <= cs@.len(),
            start < cs@.len(),
            d == cs@.skip(start as int),
            d == unsigned(cs@),
            v == digits_value(d.take(i - start)),
            v <= max,
            forall|k: int| 0 <= k < i - start ==> is_digit(#[trigger] d[k]),
        decreases cs@.len() - i,
    {
        let c = cs[i];
        assert(c == d[i - start]);
        if !('0' <= c && c <= '9') {
            assert(!is_digit(d[i - start]));
            return None;
        }
        let x: u64 = (c as u32 - 48) as u64;
        proof {
            assert(d.take(i - start + 1).drop_last() =~= d.take(i - start));
            assert(digits_value(d.take(i - start + 1)) == v * 10 + x);
            if all_digits(d) {
                lemma_digits_value_grows(d, i - start + 1);
            }
        }
        if v > max / 10 || x > max - v * 10 {
            assert(v * 10 + x > max);
            return None;
        }
        v = v * 10 + x;
        i += 1;
    }
    assert(d.take(d.len() as int) =~= d);
    Some(v)
}

// Words and lines.

/// The characters that separate words.
pub open spec fn is_white(c: char) -> bool {
    let u = c as u32;
    ||| 9 <= u <= 13
    ||| u == 0x20
    ||| u == 0x85
    ||| u == 0xa0
    ||| u == 0x1680
    ||| 0x2000 <= u <= 0x200a
    ||| u == 0x2028
    ||| u == 0x2029
    ||| u == 0x202f
    ||| u == 0x205f
    ||| u == 0x3000
}

/// Whether `c` is white space.
pub fn white(c: char) -> (r: bool)
    ensures
        r == is_white(c),
{
    let u: u32 = c as u32;
    (9 <= u && u <= 13) || u == 0x20 || u == 0x85 || u == 0xa0 || u == 0x1680 || (0x2000 <= u && u
        <= 0x200a) || u == 0x2028 || u == 0x2029 || u == 0x202f || u == 0x205f || u == 0x3000
}

/// How many characters at the front of `s` are white space, or are not.
pub open spec fn run(s: Seq<char>, w: bool) -> nat
    decreases s.len(),
{
    if s.len() == 0 || is_white(s[0]) != w {
        0
    } else {
        1 + run(s.skip(1), w)
    }
}

/// The words of `s`: its longest runs without white space, in order.
pub open spec fn words(s: Seq<char>) -> Seq<Seq<char>>
    decreases s.len(),
    via words_decreases
{
    let t = s.skip(run(s, true) as int);
    if t.len() == 0 {
        Seq::empty()
    } else {
        seq![t.take(run(t, false) as int)] + words(t.skip(run(t, false) as int))
    }
}

#[via_fn]
proof fn words_decreases(s: Seq<char>) {
    lemma_run_bound(s, true);
    let t = s.skip(run(s, true) as int);
    lemma_run_bound(t, false);
    lemma_run_stops(s, true);
}

pub proof fn lemma_run_bound(s: Seq<char>, w: bool)
    ensures
        run(s, w) <= s.len(),
    decreases s.len(),
{
    if s.len() > 0 && is_white(s[0]) == w {
        lemma_run_bound(s.skip(1), w);
    }
}

/// The character after the run is of the other kind.
pub proof fn lemma_run_stops(s: Seq<char>, w: bool)
    ensures
        run(s, w) <= s.len(),
        run(s, w) < s.len() ==> is_white(s[run(s, w) as int]) != w,
        forall|i: int| 0 <= i < run(s, w) ==> is_white(#[trigger] s[i]) == w,
    decreases s.len(),
{
    if s.len() > 0 && is_white(s[0]) == w {
        lemma_run_stops(s.skip(1), w);
        assert forall|i: int| 0 <= i < run(s, w) implies is_white(#[trigger] s[i]) == w by {
            if i > 0 {
                assert(s.skip(1)[i - 1] == s[i]);
            }
        }
    }
}

/// The end of the run of `cs` that starts at `from`.
fn run_end(cs: &[char], from: usize, w: bool) -> (r: usize)
    requires
        from <= cs@.len(),
    ensures
        from <= r <= cs@.len(),
        r - from == run(cs@.skip(from as int), w),
{
    let mut i: usize = from;
    while i < cs.len() && white(cs[i]) == w
        invariant
            from <= i <= cs@.len(),
            run(cs@.skip(from as int), w) == i - from + run(cs@.skip(i as int), w),
        decreases cs@.len() - i,
    {
        assert(cs@.skip(i as int).skip(1) =~= cs@.skip(i as int + 1));
        i += 1;
    }
    i
}

proof fn lemma_run_joins(a: Seq<char>, b: Seq<char>, w: bool)
    ensures
        run(a, w) < a.len() ==> run(a + b, w) == run(a, w),
        run(a, w) == a.len() ==> run(a + b, w) == a.len() + run(b, w),
    decreases a.len(),
{
    lemma_run_bound(a, w);
    if a.len() == 0 {
        assert(a + b =~= b);
    } else {
        assert((a + b)[0] == a[0]);
        assert((a + b).skip(1) =~= a.skip(1) + b);
        if is_white(a[0]) == w {
            lemma_run_joins(a.skip(1), b, w);
        }
    }
}

/// White space parts words: what stands before it and what stands after it are split as if each
/// stood alone. Without any, a string is a word by itself.
pub proof fn law_white_space_parts_words(a: Seq<char>, w: char, b: Seq<char>)
    requires
        is_white(w),
    ensures
        words(a + seq![w] + b) == words(a) + words(b),
    decreases a.len(),
{
    let s = a + seq![w] + b;
    assert(s =~= a + (seq![w] + b));
    let k = run(a, true) as int;
    lemma_run_stops(a, true);
    lemma_run_joins(a, seq![w] + b, true);
    lemma_run_joins(seq![w], b, true);
    assert(seq![w].skip(1) =~= Seq::empty());
    assert(run(Seq::<char>::empty(), true) == 0);
    assert(run(seq![w], true) == 1);
    if k == a.len() {
        lemma_run_stops(b, true);
        let t = s.skip(run(s, true) as int);
        assert(t =~= b.skip(run(b, true) as int));
        assert(a.skip(k) =~= Seq::empty());
        assert(words(a) =~= Seq::empty());
    } else {
        let t = a.skip(k);
        let u = s.skip(k);
        assert(u =~= t + (seq![w] + b));
        let n = run(t, false) as int;
        lemma_run_stops(t, false);
        lemma_run_joins(t, seq![w] + b, false);
        assert(run(seq![w] + b, false) == 0) by {
            assert((seq![w] + b)[0] == w);
        }
        assert(t[0] == a[k]);
        assert(n > 0);
        assert(u.take(n) =~= t.take(n));
        assert(u.skip(n) =~= t.skip(n) + seq![w] + b);
        law_white_space_parts_words(t.skip(n), w, b);
        assert(words(a) == seq![t.take(n)] + words(t.skip(n)));
        assert(words(s) =~= words(a) + words(b));
    }
}

/// A string without white space is one word, and an empty one is none.
pub proof fn law_one_word(s: Seq<char>)
    requires
        forall|i: int| 0 <= i < s.len() ==> !is_white(#[trigger] s[i]),
    ensures
        s.len() > 0 ==> words(s) == seq![s],
        s.len() == 0 ==> words(s) == Seq::<Seq<char>>::empty(),
{
    if s.len() > 0 {
        assert(!is_white(s[0]));
        assert(s.skip(0) =~= s);
        lemma_run_stops(s, false);
        assert(s.take(s.len() as int) =~= s);
        assert(words(s.skip(s.len() as int)) =~= Seq::empty());
    }
}

/// Trimming takes white space off both ends and nothing else.
pub proof fn law_trimming_takes_the_ends_off(a: Seq<char>, s: Seq<char>, b: Seq<char>)
    requires
        forall|i: int| 0 <= i < a.len() ==> is_white(#[trigger] a[i]),
        forall|i: int| 0 <= i < b.len() ==> is_white(#[trigger] b[i]),
        s.len() > 0 ==> !is_white(s[0]) && !is_white(s.last()),
    ensures
        trimmed(a + s + b) == s,
{
    let t = a + s + b;
    let k = run(t, true) as int;
    lemma_run_stops(t, true);
    if s.len() > 0 {
        assert(t[a.len() as int] == s[0]);
        assert(k == a.len()) by {
            if k < a.len() {
                assert(t[k] == a[k]);
            }
        }
        let u = t.skip(k);
        assert(u =~= s + b);
        let v = u.reverse();
        let m = run(v, true) as int;
        lemma_run_stops(v, true);
        assert(v[b.len() as int] == s.last());
        assert(m == b.len()) by {
            if m < b.len() {
                assert(v[m] == b[b.len() - 1 - m]);
            }
        }
        assert(u.take(u.len() - m) =~= s);
    } else {
        assert(k == t.len()) by {
            if k < t.len() {
                if k < a.len() {
                    assert(t[k] == a[k]);
                } else {
                    assert(t[k] == b[k - a.len()]);
                }
            }
        }
        assert(trimmed(t) =~= s);
    }
}

/// The views of a list of strings.
pub open spec fn views(v: Seq<String>) -> Seq<Seq<char>> {
    v.map_values(|s: String| s@)
}

/// The words of `s`.
pub fn split_words(s: &str) -> (r: Vec<String>)
    ensures
        views(r@) == words(s@),
{
    let cs = chars_of(s);
    let mut r: Vec<String> = Vec::new();
    let mut i: usize = 0;
    assert(cs@.skip(0) =~= s@);
    loop
        invariant
            cs@ == s@,
            i <= cs@.len(),
            views(r@) + words(cs@.skip(i as int)) =~= words(s@),
        decreases cs@.len() - i,
    {
        let a = run_end(&cs, i, true);
        let ghost rest = cs@.skip(i as int);
        assert(rest.skip(run(rest, true) as int) =~= cs@.skip(a as int));
        if a == cs.len() {
            assert(words(rest) =~= Seq::empty());
            return r;
        }
        let b = run_end(&cs, a, false);
        proof {
            let t = cs@.skip(a as int);
            lemma_run_stops(rest, true);
            assert(t[0] == rest[run(rest, true) as int]);
            assert(t.take(run(t, false) as int) =~= cs@.subrange(a as int, b as int));
            assert(t.skip(run(t, false) as int) =~= cs@.skip(b as int));
            assert(run(t, false) > 0);
        }
        let w = piece(&cs, a, b);
        let ghost before = r@;
        r.push(w);
        assert(views(r@) =~= views(before).push(w@));
        i = b;
    }
}

/// `s` without white space at either end: what is left between its first and its last character
/// that is not white space.
pub open spec fn trimmed(s: Seq<char>) -> Seq<char> {
    let t = s.skip(run(s, true) as int);
    t.take(t.len() - run(t.reverse(), true))
}

/// `s` without white space at either end.
pub fn trim(s: &str) -> (r: String)
    ensures
        r@ == trimmed(s@),
{
    let cs = chars_of(s);
    let a = run_end(&cs, 0, true);
    assert(cs@.skip(0) =~= s@);
    let ghost t = s@.skip(a as int);
    let mut b: usize = cs.len();
    assert(t.reverse().skip(0) =~= t.reverse());
    while b > a && white(cs[b - 1])
        invariant
            cs@ == s@,
            a <= b <= cs@.len(),
            t == s@.skip(a as int),
            run(t.reverse(), true) == cs@.len() - b + run(t.reverse().skip(cs@.len() - b), true),
        decreases b,
    {
        let ghost k = cs@.len() - b;
        assert(t.reverse().skip(k)[0] == cs@[b - 1]);
        assert(t.reverse().skip(k).skip(1) =~= t.reverse().skip(k + 1));
        b -= 1;
    }
    proof {
        let k = cs@.len() - b;
        if b > a {
            assert(t.reverse().skip(k)[0] == cs@[b - 1]);
        }
        assert(t.take(b - a) =~= cs@.subrange(a as int, b as int));
    }
    piece(&cs, a, b)
}

/// Whether `s` begins with `p`.
pub open spec fn has_prefix(s: Seq<char>, p: Seq<char>) -> bool {
    p.len() <= s.len() && s.take(p.len() as int) == p
}

/// Whether `cs[at..]` begins with `p`.
pub fn prefix_at(cs: &[char], at: usize, p: &[char]) -> (r: bool)
    requires
        at <= cs@.len(),
    ensures
        r == has_prefix(cs@.skip(at as int), p@),
{
    let ghost s = cs@.skip(at as int);
    if p.len() > cs.len() - at {
        return false;
    }
    let mut i: usize = 0;
    while i < p.len()
        invariant
            i <= p@.len() <= cs@.len() - at,
            at <= cs@.len() <= usize::MAX,
            s == cs@.skip(at as int),
            forall|k: int| 0 <= k < i ==> s[k] == #[trigger] p@[k],
        decreases p@.len() - i,
    {
        if cs[at + i] != p[i] {
            assert(s.take(p@.len() as int)[i as int] != p@[i as int]);
            return false;
        }
        i += 1;
    }
    assert(s.take(p@.len() as int) =~= p@);
    true
}

/// Whether `s` begins with `p`.
pub fn starts_with(s: &str, p: &str) -> (r: bool)
    ensures
        r == has_prefix(s@, p@),
{
    let cs = chars_of(s);
    let ps = chars_of(p);
    assert(cs@.skip(0) =~= s@);
    prefix_at(&cs, 0, &ps)
}

/// Whether `p` occurs somewhere in `s`.
pub open spec fn occurs(s: Seq<char>, p: Seq<char>) -> bool {
    exists|i: int| 0 <= i <= s.len() && has_prefix(#[trigger] s.skip(i), p)
}

/// Whether `p` occurs somewhere in `s`.
pub fn contains(s: &str, p: &str) -> (r: bool)
    ensures
        r == occurs(s@, p@),
{
    let cs = chars_of(s);
    let ps = chars_of(p);
    let mut i: usize = 0;
    loop
        invariant
            cs@ == s@,
            ps@ == p@,
            i <= cs@.len(),
            forall|k: int| 0 <= k < i ==> !has_prefix(#[trigger] s@.skip(k), p@),
        decreases cs@.len() - i,
    {
        if prefix_at(&cs, i, &ps) {
            return true;
        }
        if i == cs.len() {
            return false;
        }
        i += 1;
    }
}

/// The lines of `s`: what stands between line feeds, each without a carriage return at its end.
/// What follows the last line feed is a line only if it is not empty.
pub open spec fn lines(s: Seq<char>) -> Seq<Seq<char>>
    decreases s.len(),
{
    if s.len() == 0 {
        Seq::empty()
    } else if s.contains('\n') {
        let n = s.index_of_first('\n').unwrap();
        if 0 <= n < s.len() {
            seq![without_return(s.take(n))] + lines(s.skip(n + 1))
        } else {
            Seq::empty()
        }
    } else {
        seq![s]
    }
}

/// `s` without a carriage return at its end.
pub open spec fn without_return(s: Seq<char>) -> Seq<char> {
    if s.len() > 0 && s.last() == '\r' {
        s.drop_last()
    } else {
        s
    }
}

/// The lines of `s`.
pub fn split_lines(s: &str) -> (r: Vec<String>)
    ensures
        views(r@) == lines(s@),
{
    let cs = chars_of(s);
    let mut r: Vec<String> = Vec::new();
    let mut a: usize = 0;
    let mut b: usize = 0;
    assert(cs@.skip(0) =~= s@);
    while b < cs.len()
        invariant
            cs@ == s@,
            a <= b <= cs@.len(),
            forall|k: int| a <= k < b ==> cs@[k] != '\n',
            views(r@) + lines(cs@.skip(a as int)) =~= lines(s@),
        decreases cs@.len() - b,
    {
        if cs[b] == '\n' {
            let ghost rest = cs@.skip(a as int);
            let ghost old_r = r@;
            proof {
                let n = (b - a) as int;
                assert(rest[n] == '\n');
                assert(rest.contains('\n'));
                rest.index_of_first_ensures('\n');
                let m = rest.index_of_first('\n').unwrap();
                assert(rest[m] == cs@[a + m]);
                assert(m == n);
                assert(rest.take(n) =~= cs@.subrange(a as int, b as int));
                assert(rest.skip(n + 1) =~= cs@.skip(b as int + 1));
                if a < b {
                    assert(rest.take(n).last() == cs@[b - 1]);
                    assert(rest.take(n).drop_last() =~= cs@.subrange(a as int, b - 1));
                }
            }
            let line = if a < b && cs[b - 1] == '\r' {
                piece(&cs, a, b - 1)
            } else {
                piece(&cs, a, b)
            };
            r.push(line);
            assert(views(r@) =~= views(old_r).push(line@));
            a = b + 1;
        }
        b += 1;
    }
    if a < b {
        let ghost rest = cs@.skip(a as int);
        let ghost old_r = r@;
        assert(!rest.contains('\n'));
        let line = piece(&cs, a, b);
        assert(line@ =~= rest);
        r.push(line);
        assert(views(r@) =~= views(old_r).push(line@));
    }
    r
}

/// Whether `n` times `c` stand in a row in `s`, from `i` on.
pub open spec fn row_at(s: Seq<char>, c: char, n: int, i: int) -> bool {
    0 <= i && i + n <= s.len() && forall|k: int| i <= k < i + n ==> #[trigger] s[k] == c
}

/// Whether `n` times `c` stand in a row somewhere in `s`.
pub open spec fn has_row(s: Seq<char>, c: char, n: int) -> bool {
    exists|i: int| #[trigger] row_at(s, c, n, i)
}

/// Whether `n` times `c` stand in a row somewhere in `s`.
fn find_row(s: &str, c: char, n: usize) -> (r: bool)
    requires
        n > 0,
    ensures
        r == has_row(s@, c, n as int),
{
    let cs = chars_of(s);
    let mut i: usize = 0;
    let mut count: usize = 0;
    while i < cs.len()
        invariant
            cs@ == s@,
            i <= cs@.len(),
            count <= i,
            count < n,
            forall|k: int| i - count <= k < i ==> #[trigger] s@[k] == c,
            count < i ==> s@[i - count - 1] != c,
            forall|p: int| p + n <= i ==> !#[trigger] row_at(s@, c, n as int, p),
        decreases cs@.len() - i,
    {
        if cs[i] == c {
            count += 1;
            if count == n {
                assert(row_at(s@, c, n as int, i + 1 - n));
                return true;
            }
        } else {
            count = 0;
        }
        proof {
            let p = i + 1 - n;
            if row_at(s@, c, n as int, p) {
                assert(s@[i as int] == c);
                assert(s@[i + 1 - count - 1] == c);
            }
        }
        i += 1;
    }
    assert forall|p: int| !#[trigger] row_at(s@, c, n as int, p) by {}
    false
}

/// Whether a text can be put in quotes: no 256 quotes of a kind stand in a row.
pub open spec fn quotable(s: Seq<char>) -> bool {
    !has_row(s, '\'', 256) && !has_row(s, '"', 256)
}

/// Whether a text can be put in quotes.
pub fn is_quotable(s: &str) -> (r: bool)
    ensures
        r == quotable(s@),
{
    !find_row(s, '\'', 256) && !find_row(s, '"', 256)
}

/// Whether `s` is one of the texts.
pub fn among(v: &Vec<String>, s: &str) -> (r: bool)
    ensures
        r == views(v@).contains(s@),
{
    let mut i: usize = 0;
    while i < v.len()
        invariant
            i <= v@.len(),
            forall|k: int| 0 <= k < i ==> #[trigger] views(v@)[k] != s@,
        decreases v@.len() - i,
    {
        if same(v[i].as_str(), s) {
            assert(views(v@)[i as int] == s@);
            return true;
        }
        i += 1;
    }
    false
}

/// `s` without white space at its front.
pub open spec fn trimmed_start(s: Seq<char>) -> Seq<char> {
    s.skip(run(s, true) as int)
}

/// `s` without white space at its front.
pub fn trim_start(s: &str) -> (r: String)
    ensures
        r@ == trimmed_start(s@),
{
    let cs = chars_of(s);
    let a = run_end(&cs, 0, true);
    assert(cs@.skip(0) =~= s@);
    assert(cs@.subrange(a as int, cs@.len() as int) =~= trimmed_start(s@));
    piece(&cs, a, cs.len())
}

/// What follows `p` in `s`, where `s` begins with it.
pub open spec fn after_prefix(s: Seq<char>, p: Seq<char>) -> Option<Seq<char>> {
    if has_prefix(s, p) {
        Some(s.skip(p.len() as int))
    } else {
        None
    }
}

/// What follows `p` in `s`, where `s` begins with it.
pub fn strip_prefix(s: &str, p: &str) -> (r: Option<String>)
    ensures
        match r {
            Some(t) => after_prefix(s@, p@) == Some(t@),
            None => after_prefix(s@, p@) is None,
        },
{
    let cs = chars_of(s);
    let ps = chars_of(p);
    assert(cs@.skip(0) =~= s@);
    if prefix_at(&cs, 0, &ps) {
        assert(cs@.subrange(p@.len() as int, cs@.len() as int) =~= s@.skip(p@.len() as int));
        Some(piece(&cs, ps.len(), cs.len()))
    } else {
        None
    }
}

/// What stands before the first `c` in `s` and what stands behind it.
pub open spec fn split_first(s: Seq<char>, c: char) -> Option<(Seq<char>, Seq<char>)> {
    if s.contains(c) {
        let n = s.index_of_first(c).unwrap();
        Some((s.take(n), s.skip(n + 1)))
    } else {
        None
    }
}

/// Splits `s` at the first `c`.
pub fn split_once(s: &str, c: char) -> (r: Option<(String, String)>)
    ensures
        match r {
            Some((a, b)) => split_first(s@, c) == Some((a@, b@)),
            None => split_first(s@, c) is None,
        },
{
    let cs = chars_of(s);
    let mut i: usize = 0;
    while i < cs.len()
        invariant
            cs@ == s@,
            i <= cs@.len(),
            forall|k: int| 0 <= k < i ==> cs@[k] != c,
        decreases cs@.len() - i,
    {
        if cs[i] == c {
            proof {
                assert(s@.contains(c)) by {
                    assert(s@[i as int] == c);
                }
                s@.index_of_first_ensures(c);
                assert(s@.index_of_first(c).unwrap() == i);
                assert(cs@.subrange(0, i as int) =~= s@.take(i as int));
                assert(cs@.subrange(i + 1, cs@.len() as int) =~= s@.skip(i + 1));
            }
            return Some((piece(&cs, 0, i), piece(&cs, i + 1, cs.len())));
        }
        i += 1;
    }
    assert(!s@.contains(c));
    None
}

/// The parts of `s` between the places where `c` stands.
pub open spec fn parts(s: Seq<char>, c: char) -> Seq<Seq<char>>
    decreases s.len(),
{
    if s.contains(c) {
        let n = s.index_of_first(c).unwrap();
        if 0 <= n < s.len() {
            seq![s.take(n)] + parts(s.skip(n + 1), c)
        } else {
            seq![s]
        }
    } else {
        seq![s]
    }
}

/// The parts of `s` between the places where `c` stands.
pub fn split_on(s: &str, c: char) -> (r: Vec<String>)
    ensures
        views(r@) == parts(s@, c),
{
    let cs = chars_of(s);
    let mut r: Vec<String> = Vec::new();
    let mut a: usize = 0;
    let mut b: usize = 0;
    assert(cs@.skip(0) =~= s@);
    while b < cs.len()
        invariant
            cs@ == s@,
            a <= b <= cs@.len(),
            forall|k: int| a <= k < b ==> cs@[k] != c,
            views(r@) + parts(cs@.skip(a as int), c) =~= parts(s@, c),
        decreases cs@.len() - b,
    {
        if cs[b] == c {
            let ghost rest = cs@.skip(a as int);
            let ghost old_r = r@;
            proof {
                let n = (b - a) as int;
                assert(rest[n] == c);
                assert(rest.contains(c));
                rest.index_of_first_ensures(c);
                let m = rest.index_of_first(c).unwrap();
                assert(rest[m] == cs@[a + m]);
                assert(m == n);
                assert(rest.take(n) =~= cs@.subrange(a as int, b as int));
                assert(rest.skip(n + 1) =~= cs@.skip(b as int + 1));
            }
            let part = piece(&cs, a, b);
            r.push(part);
            assert(views(r@) =~= views(old_r).push(part@));
            a = b + 1;
        }
        b += 1;
    }
    let ghost rest = cs@.skip(a as int);
    let ghost old_r = r@;
    assert(!rest.contains(c));
    let part = piece(&cs, a, b);
    assert(part@ =~= rest);
    r.push(part);
    assert(views(r@) =~= views(old_r).push(part@));
    r
}

/// `s` without the `c`s at its front.
pub open spec fn without_leading(s: Seq<char>, c: char) -> Seq<char>
    decreases s.len(),
{
    if s.len() > 0 && s[0] == c {
        without_leading(s.skip(1), c)
    } else {
        s
    }
}

/// `s` without the `c`s at its front.
pub fn trim_leading(s: &str, c: char) -> (r: String)
    ensures
        r@ == without_leading(s@, c),
{
    let cs = chars_of(s);
    let mut i: usize = 0;
    assert(cs@.skip(0) =~= s@);
    while i < cs.len() && cs[i] == c
        invariant
            cs@ == s@,
            i <= cs@.len(),
            without_leading(cs@.skip(i as int), c) == without_leading(s@, c),
        decreases cs@.len() - i,
    {
        assert(cs@.skip(i as int)[0] == cs@[i as int]);
        assert(cs@.skip(i as int).skip(1) =~= cs@.skip(i as int + 1));
        i += 1;
    }
    proof {
        if i < cs@.len() {
            assert(cs@.skip(i as int)[0] == cs@[i as int]);
        }
        assert(cs@.subrange(i as int, cs@.len() as int) =~= cs@.skip(i as int));
    }
    piece(&cs, i, cs.len())
}

/// An ASCII letter in lower case; any other character as it is.
pub open spec fn ascii_lower(c: char) -> char {
    if 'A' <= c <= 'Z' {
        ((c as u8 + 32) as u8) as char
    } else {
        c
    }
}

/// Whether two strings differ in the case of ASCII letters at most.
pub open spec fn same_but_case(a: Seq<char>, b: Seq<char>) -> bool {
    a.len() == b.len() && forall|i: int|
        0 <= i < a.len() ==> ascii_lower(#[trigger] a[i]) == ascii_lower(b[i])
}

fn lower(c: char) -> (r: char)
    ensures
        r == ascii_lower(c),
{
    if 'A' <= c && c <= 'Z' {
        (c as u8 + 32) as char
    } else {
        c
    }
}

/// Whether two strings differ in the case of ASCII letters at most.
pub fn eq_ignore_case(a: &str, b: &str) -> (r: bool)
    ensures
        r == same_but_case(a@, b@),
{
    let x = chars_of(a);
    let y = chars_of(b);
    if x.len() != y.len() {
        return false;
    }
    let mut i: usize = 0;
    while i < x.len()
        invariant
            x@ == a@,
            y@ == b@,
            x@.len() == y@.len(),
            i <= x@.len(),
            forall|k: int| 0 <= k < i ==> ascii_lower(#[trigger] a@[k]) == ascii_lower(b@[k]),
        decreases x@.len() - i,
    {
        if lower(x[i]) != lower(y[i]) {
            assert(ascii_lower(a@[i as int]) != ascii_lower(b@[i as int]));
            return false;
        }
        i += 1;
    }
    true
}

// Numbers in hexadecimal, and padding.

/// The character of a hexadecimal digit, in lower case.
pub open spec fn hex_digit(d: nat) -> char {
    if d < 10 {
        ((48 + d) as u8) as char
    } else {
        ((87 + d) as u8) as char
    }
}

/// The last `w` hexadecimal digits of `n`.
pub open spec fn hex(n: nat, w: nat) -> Seq<char>
    decreases w,
{
    if w == 0 {
        Seq::empty()
    } else {
        hex(n / 16, (w - 1) as nat).push(hex_digit(n % 16))
    }
}

/// Appends the last `w` hexadecimal digits of `n`.
pub fn push_hex(s: &mut String, n: u64, w: u8)
    ensures
        final(s)@ == old(s)@ + hex(n as nat, w as nat),
    decreases w,
{
    if w > 0 {
        push_hex(s, n / 16, w - 1);
        let d: u8 = (n % 16) as u8;
        if d < 10 {
            s.push((48 + d) as char);
        } else {
            s.push((87 + d) as char);
        }
    }
    assert(s@ =~= old(s)@ + hex(n as nat, w as nat));
}

/// `n` blanks.
pub open spec fn blanks(n: int) -> Seq<char> {
    Seq::new(
        if n > 0 {
            n as nat
        } else {
            0
        },
        |i: int| ' ',
    )
}

/// `s`, filled up with blanks on the right to `w` characters.
pub open spec fn left_aligned(s: Seq<char>, w: nat) -> Seq<char> {
    s + blanks(w - s.len())
}

/// `s`, filled up with blanks on the left to `w` characters.
pub open spec fn flush_right(s: Seq<char>, w: nat) -> Seq<char> {
    blanks(w - s.len()) + s
}

/// Appends blanks up to `w` characters after a text of `len`.
pub fn push_blanks(s: &mut String, w: usize, len: usize)
    ensures
        final(s)@ == old(s)@ + blanks(w - len),
{
    let mut i: usize = len;
    assert(s@ =~= old(s)@ + blanks(0));
    while i < w
        invariant
            len <= w ==> len <= i <= w,
            len > w ==> i == len,
            s@ =~= old(s)@ + blanks(i - len),
        decreases w - i,
    {
        s.push(' ');
        i += 1;
    }
    assert(blanks(w - len) =~= blanks(i - len));
}

/// Appends `t`, filled up with blanks on the right to `w` characters.
pub fn push_left(s: &mut String, t: &str, w: usize)
    ensures
        final(s)@ == old(s)@ + left_aligned(t@, w as nat),
{
    let cs = chars_of(t);
    s.append(t);
    push_blanks(s, w, cs.len());
    assert(s@ =~= old(s)@ + left_aligned(t@, w as nat));
}

/// Appends `t`, filled up with blanks on the left to `w` characters.
pub fn push_right(s: &mut String, t: &str, w: usize)
    ensures
        final(s)@ == old(s)@ + flush_right(t@, w as nat),
{
    let cs = chars_of(t);
    push_blanks(s, w, cs.len());
    s.append(t);
    assert(s@ =~= old(s)@ + flush_right(t@, w as nat));
}

/// The decimal number as a string.
pub fn decimal(n: u64) -> (r: String)
    ensures
        r@ == dec(n as nat),
{
    let mut s = String::new();
    push_dec(&mut s, n);
    assert(s@ =~= dec(n as nat));
    s
}

/// Every string of a list, in order, with `sep` between them, from the first up to `n`.
pub open spec fn joined(v: Seq<Seq<char>>, sep: Seq<char>, n: int) -> Seq<char>
    decreases n,
{
    if n <= 0 {
        Seq::empty()
    } else if n == 1 {
        v[0]
    } else {
        joined(v, sep, n - 1) + sep + v[n - 1]
    }
}

/// Appends the strings with `sep` between them.
pub fn push_joined(s: &mut String, v: &Vec<String>, sep: &str)
    ensures
        final(s)@ == old(s)@ + joined(views(v@), sep@, v@.len() as int),
{
    let mut i: usize = 0;
    while i < v.len()
        invariant
            i <= v@.len(),
            s@ =~= old(s)@ + joined(views(v@), sep@, i as int),
        decreases v@.len() - i,
    {
        assert(views(v@)[i as int] == v@[i as int]@);
        if i > 0 {
            s.append(sep);
        }
        s.append(v[i].as_str());
        i += 1;
    }
}

// Paths.

/// The path of `name` in the directory `base`.
pub open spec fn in_dir(base: Seq<char>, name: Seq<char>) -> Seq<char> {
    if base.len() == 0 || base.last() == '/' {
        base + name
    } else {
        base + "/"@ + name
    }
}

/// The path of `name` in the directory `base`.
pub fn join_path(base: &str, name: &str) -> (r: String)
    ensures
        r@ == in_dir(base@, name@),
{
    let cs = chars_of(base);
    let mut s = base.to_owned();
    if !(cs.len() == 0 || cs[cs.len() - 1] == '/') {
        s.append("/");
    }
    s.append(name);
    s
}

/// Whether `s` ends with `p`.
pub open spec fn has_suffix(s: Seq<char>, p: Seq<char>) -> bool {
    p.len() <= s.len() && s.skip(s.len() - p.len()) == p
}

/// Whether `s` ends with `p`.
pub fn ends_with(s: &str, p: &str) -> (r: bool)
    ensures
        r == has_suffix(s@, p@),
{
    let cs = chars_of(s);
    let ps = chars_of(p);
    if ps.len() > cs.len() {
        return false;
    }
    let at: usize = cs.len() - ps.len();
    let r = prefix_at(&cs, at, &ps);
    proof {
        let t = s@.skip(at as int);
        assert(t.take(t.len() as int) =~= t);
    }
    r
}

/// The numbers with commas between them, from the first up to `n`.
pub open spec fn numbers_to(v: Seq<usize>, n: int) -> Seq<char>
    decreases n,
{
    if n <= 0 {
        Seq::empty()
    } else if n == 1 {
        dec(v[0] as nat)
    } else {
        numbers_to(v, n - 1) + ", "@ + dec(v[n - 1] as nat)
    }
}

/// The numbers as a list in square brackets.
pub open spec fn number_list(v: Seq<usize>) -> Seq<char> {
    "["@ + numbers_to(v, v.len() as int) + "]"@
}

/// Appends the numbers as a list in square brackets.
pub fn push_numbers(s: &mut String, v: &Vec<usize>)
    ensures
        final(s)@ == old(s)@ + number_list(v@),
{
    s.append("[");
    let ghost start = s@;
    let mut i: usize = 0;
    while i < v.len()
        invariant
            i <= v@.len(),
            s@ =~= start + numbers_to(v@, i as int),
        decreases v@.len() - i,
    {
        if i > 0 {
            s.append(", ");
        }
        push_dec(s, v[i] as u64);
        i += 1;
    }
    s.append("]");
    assert(s@ =~= old(s)@ + number_list(v@));
}

/// The bytes in hexadecimal with `sep` between them, from the first up to `n`.
pub open spec fn bytes_to(v: Seq<u8>, sep: Seq<char>, n: int) -> Seq<char>
    decreases n,
{
    if n <= 0 {
        Seq::empty()
    } else if n == 1 {
        hex(v[0] as nat, 2)
    } else {
        bytes_to(v, sep, n - 1) + sep + hex(v[n - 1] as nat, 2)
    }
}

/// Appends the bytes in hexadecimal with `sep` between them.
pub fn push_bytes(s: &mut String, v: &[u8], sep: &str)
    ensures
        final(s)@ == old(s)@ + bytes_to(v@, sep@, v@.len() as int),
{
    let mut i: usize = 0;
    while i < v.len()
        invariant
            i <= v@.len(),
            s@ =~= old(s)@ + bytes_to(v@, sep@, i as int),
        decreases v@.len() - i,
    {
        if i > 0 {
            s.append(sep);
        }
        push_hex(s, v[i] as u64, 2);
        i += 1;
    }
}

/// Appends `n` in decimal, filled up with blanks on the left to `w` characters.
pub fn push_dec_right(s: &mut String, n: u64, w: usize)
    ensures
        final(s)@ == old(s)@ + flush_right(dec(n as nat), w as nat),
{
    let t = decimal(n);
    push_right(s, t.as_str(), w);
}

// What splitting, joining and aligning do.

/// A text begins with another exactly where something can be put behind the other to make it, and
/// ends with it, or contains it, likewise.
pub proof fn law_prefixes_and_pieces(a: Seq<char>, p: Seq<char>, b: Seq<char>)
    ensures
        has_prefix(p + b, p),
        has_suffix(a + p, p),
        occurs(a + p + b, p),
        has_prefix(a, p) ==> a == p + a.skip(p.len() as int),
        has_suffix(a, p) ==> a == a.take(a.len() - p.len()) + p,
        occurs(a, p) ==> exists|i: int|
            0 <= i && i + p.len() <= a.len() && #[trigger] a.subrange(i, i + p.len()) == p,
        after_prefix(p + b, p) == Some(b),
{
    assert((p + b).take(p.len() as int) =~= p);
    assert((p + b).skip(p.len() as int) =~= b);
    assert((a + p).skip((a + p).len() - p.len()) =~= p);
    let s = a + p + b;
    assert(s.skip(a.len() as int).take(p.len() as int) =~= p);
    assert(has_prefix(s.skip(a.len() as int), p));
    if has_prefix(a, p) {
        assert(a =~= p + a.skip(p.len() as int));
    }
    if has_suffix(a, p) {
        assert(a =~= a.take(a.len() - p.len()) + p);
    }
    if occurs(a, p) {
        let i = choose|i: int| 0 <= i <= a.len() && has_prefix(#[trigger] a.skip(i), p);
        assert(a.subrange(i, i + p.len()) =~= a.skip(i).take(p.len() as int));
    }
}

/// Texts are in the order of their characters, the first that differs deciding, and a text comes
/// before any that goes on from it.
pub proof fn law_the_first_difference_decides(
    p: Seq<char>,
    c: char,
    d: char,
    a: Seq<char>,
    b: Seq<char>,
)
    ensures
        c < d ==> before(p + seq![c] + a, p + seq![d] + b),
        before(p, p + seq![c] + a),
{
    let (x, y) = (p + seq![c] + a, p + seq![d] + b);
    assert(x.take(p.len() as int) =~= p);
    assert(y.take(p.len() as int) =~= p);
    assert(p.take(p.len() as int) =~= p);
    if c < d {
        assert(differ_at(x, y, p.len() as int));
    }
    assert(differ_at(p, x, p.len() as int));
}

proof fn lemma_first_is(s: Seq<char>, c: char, n: int)
    requires
        0 <= n < s.len(),
        s[n] == c,
        forall|i: int| 0 <= i < n ==> s[i] != c,
    ensures
        s.contains(c),
        s.index_of_first(c) == Some(n),
{
    s.index_of_first_ensures(c);
}

/// A separator parts a text: what stands before the first one is the first part, and what stands
/// behind it is parted in turn. Without one, the text is one part.
pub proof fn law_a_separator_parts_a_text(a: Seq<char>, c: char, b: Seq<char>)
    requires
        !a.contains(c),
    ensures
        parts(a + seq![c] + b, c) == seq![a] + parts(b, c),
        parts(a, c) == seq![a],
        split_first(a + seq![c] + b, c) == Some((a, b)),
        split_first(a, c) is None,
{
    let s = a + seq![c] + b;
    let n = a.len() as int;
    assert forall|i: int| 0 <= i < n implies s[i] != c by {
        assert(s[i] == a[i]);
        assert(a.contains(a[i]));
    }
    lemma_first_is(s, c, n);
    assert(s.take(n) =~= a);
    assert(s.skip(n + 1) =~= b);
}

/// A line feed ends a line, together with a carriage return before it. What follows the last one is
/// a line where there is anything.
pub proof fn law_a_line_feed_ends_a_line(a: Seq<char>, b: Seq<char>)
    requires
        !a.contains('\n'),
    ensures
        a.len() == 0 || a.last() != '\r' ==> lines(a + seq!['\n'] + b) == seq![a] + lines(b),
        lines(a + seq!['\r', '\n'] + b) == seq![a] + lines(b),
        a.len() > 0 ==> lines(a) == seq![a],
        lines(Seq::empty()) == Seq::<Seq<char>>::empty(),
{
    let s = a + seq!['\n'] + b;
    let n = a.len() as int;
    assert forall|i: int| 0 <= i < n implies s[i] != '\n' by {
        assert(s[i] == a[i]);
        assert(a.contains(a[i]));
    }
    lemma_first_is(s, '\n', n);
    assert(s.take(n) =~= a);
    assert(s.skip(n + 1) =~= b);
    let t = a + seq!['\r', '\n'] + b;
    assert forall|i: int| 0 <= i < n + 1 implies t[i] != '\n' by {
        if i < n {
            assert(t[i] == a[i]);
            assert(a.contains(a[i]));
        }
    }
    lemma_first_is(t, '\n', n + 1);
    assert(t.take(n + 1) =~= a + seq!['\r']);
    assert((a + seq!['\r']).drop_last() =~= a);
    assert(t.skip(n + 2) =~= b);
}

/// Joining puts the separator between the texts and nowhere else.
pub proof fn law_joining_puts_the_separator_between(v: Seq<Seq<char>>, t: Seq<char>, sep: Seq<char>)
    ensures
        joined(Seq::empty(), sep, 0) == Seq::<char>::empty(),
        joined(seq![t], sep, 1) == t,
        v.len() > 0 ==> joined(v.push(t), sep, v.len() as int + 1) == joined(v, sep, v.len() as int) + sep
            + t,
{
    if v.len() > 0 {
        lemma_joined_same(v.push(t), v, sep, v.len() as int);
    }
}

proof fn lemma_joined_same(v: Seq<Seq<char>>, w: Seq<Seq<char>>, sep: Seq<char>, n: int)
    requires
        n <= v.len(),
        n <= w.len(),
        forall|i: int| 0 <= i < n ==> v[i] == w[i],
    ensures
        joined(v, sep, n) == joined(w, sep, n),
    decreases n,
{
    if n > 1 {
        lemma_joined_same(v, w, sep, n - 1);
    }
}

/// Aligning fills a text up with blanks, behind it or before it, to a width that it has not got yet,
/// and changes nothing else.
pub proof fn law_aligning_fills_up_with_blanks(s: Seq<char>, w: nat, i: int)
    ensures
        left_aligned(s, w).len() == if s.len() < w {
            w
        } else {
            s.len()
        },
        flush_right(s, w).len() == left_aligned(s, w).len(),
        left_aligned(s, w).take(s.len() as int) == s,
        flush_right(s, w).skip(flush_right(s, w).len() - s.len()) == s,
        s.len() <= i < left_aligned(s, w).len() ==> left_aligned(s, w)[i] == ' ',
        0 <= i < flush_right(s, w).len() - s.len() ==> flush_right(s, w)[i] == ' ',
{
    assert(left_aligned(s, w).take(s.len() as int) =~= s);
    assert(flush_right(s, w).skip(flush_right(s, w).len() - s.len()) =~= s);
}

/// What a hexadecimal digit counts for.
pub open spec fn hex_worth(c: char) -> int {
    if '0' <= c <= '9' {
        c as u32 - '0' as u32
    } else {
        c as u32 - 'a' as u32 + 10
    }
}

/// The hexadecimal digits of a number: as many as are asked for, each of them one of the sixteen,
/// and the last one counts for what is left over by sixteen.
pub proof fn law_hexadecimal_digits(n: nat, w: nat, i: int)
    requires
        0 <= i < w,
    ensures
        hex(n, w).len() == w,
        '0' <= hex(n, w)[i] <= '9' || 'a' <= hex(n, w)[i] <= 'f',
        hex_worth(hex(n, w)[i]) == (n as int / pow(16, (w - 1 - i) as nat)) % 16,
    decreases w,
{
    reveal(pow);
    let rest = hex(n / 16, (w - 1) as nat);
    lemma_hex_len(n, w);
    lemma_hex_len(n / 16, (w - 1) as nat);
    if i == w - 1 {
        assert(hex(n, w)[i] == hex_digit(n % 16));
    } else {
        law_hexadecimal_digits(n / 16, (w - 1) as nat, i);
        assert(hex(n, w)[i] == rest[i]);
        let k = (w - 2 - i) as nat;
        vstd::arithmetic::power::lemma_pow_positive(16, k);
        vstd::arithmetic::div_mod::lemma_div_denominator(n as int, 16, pow(16, k));
    }
}

proof fn lemma_hex_len(n: nat, w: nat)
    ensures
        hex(n, w).len() == w,
    decreases w,
{
    if w > 0 {
        lemma_hex_len(n / 16, (w - 1) as nat);
    }
}

/// The case of a letter does not count where it is to be ignored, and nothing else is ignored.
pub proof fn law_case_is_ignored(i: int, c: char, d: char)
    requires
        0 <= i < 26,
    ensures
        same_but_case(seq![(65 + i) as u8 as char], seq![(97 + i) as u8 as char]),
        c == d ==> same_but_case(seq![c], seq![d]),
        same_but_case(seq![c], seq![d]) && c != d ==> {
            ||| c as int - d as int == 32
            ||| d as int - c as int == 32
        },
{
    let (a, b) = (seq![(65 + i) as u8 as char], seq![(97 + i) as u8 as char]);
    assert(ascii_lower(a[0]) == ascii_lower(b[0]));
    if same_but_case(seq![c], seq![d]) {
        assert(ascii_lower(seq![c][0]) == ascii_lower(seq![d][0]));
    }
}

/// A path in a directory is the directory, a slash, and the name; a slash that is there already is
/// not put twice.
pub proof fn law_paths_have_one_slash(base: Seq<char>, name: Seq<char>)
    requires
        base.len() == 0 || base.last() != '/',
    ensures
        base.len() > 0 ==> in_dir(base, name) == base + seq!['/'] + name,
        in_dir(base + seq!['/'], name) == base + seq!['/'] + name,
        in_dir(Seq::empty(), name) == name,
{
    reveal_strlit("/");
    assert("/"@ =~= seq!['/']);
    assert(Seq::<char>::empty() + name =~= name);
}

/// Leading characters that are left out are all of that kind, and what is left does not begin with
/// one.
pub proof fn law_leading_characters_are_left_out(s: Seq<char>, c: char)
    ensures
        without_leading(seq![c] + s, c) == without_leading(s, c),
        s.len() > 0 && s[0] != c ==> without_leading(s, c) == s,
        without_leading(Seq::empty(), c) == Seq::<char>::empty(),
{
    assert((seq![c] + s).skip(1) =~= s);
}

} // verus!
