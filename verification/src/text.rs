//! Character-level text helpers with their specifications.

use vstd::prelude::*;

verus! {

/// Appends one character to a `String` (`String::push`).
#[verifier::external_body]
fn push_char(s: &mut String, c: char)
    ensures
        final(s)@ == old(s)@.push(c),
{
    s.push(c);
}

/// The characters of `s`, in order.
pub fn chars_of(s: &str) -> (v: Vec<char>)
    ensures
        v@ == s@,
{
    let mut v: Vec<char> = Vec::new();
    let mut it = s.chars();
    loop
        invariant
            vstd::std_specs::iter::IteratorSpec::remaining(&it) == s@.skip(v@.len() as int),
            v@ == s@.take(v@.len() as int),
            v@.len() <= s@.len(),
        ensures
            v@ == s@,
        decreases s@.len() - v@.len(),
    {
        match it.next() {
            Some(c) => {
                v.push(c);
            },
            None => {
                assert(v@ == s@.take(s@.len() as int));
                break;
            },
        }
    }
    v
}

/// A `String` holding exactly the characters of `v`.
pub fn string_of(v: &[char]) -> (s: String)
    ensures
        s@ == v@,
{
    let mut s = String::new();
    let mut i: usize = 0;
    while i < v.len()
        invariant
            i <= v@.len(),
            s@ == v@.take(i as int),
        decreases v@.len() - i,
    {
        push_char(&mut s, v[i]);
        i = i + 1;
        assert(s@ == v@.take(i as int));
    }
    assert(v@.take(v@.len() as int) == v@);
    s
}

} // verus!

verus! {

/// Unicode `White_Space`, the property behind `char::is_whitespace`.
pub open spec fn is_white_space(c: char) -> bool {
    let u = c as u32;
    ||| 0x09 <= u <= 0x0d
    ||| u == 0x20
    ||| u == 0x85
    ||| u == 0xa0
    ||| u == 0x1680
    ||| 0x2000 <= u <= 0x200a
    ||| u == 0x2028
    ||| u == 0x2029
    ||| u == 0x202f
    ||| u == 0x205f
    ||| u == 0x3000
}

/// Whether `c` is white space.
pub fn is_white_space_char(c: char) -> (b: bool)
    ensures
        b == is_white_space(c),
{
    let u = c as u32;
    (0x09 <= u && u <= 0x0d) || u == 0x20 || u == 0x85 || u == 0xa0 || u == 0x1680 || (0x2000
        <= u && u <= 0x200a) || u == 0x2028 || u == 0x2029 || u == 0x202f || u == 0x205f || u
        == 0x3000
}

/// `s` without its leading white space.
pub open spec fn trim_start(s: Seq<char>) -> Seq<char>
    decreases s.len(),
{
    if s.len() > 0 && is_white_space(s[0]) {
        trim_start(s.drop_first())
    } else {
        s
    }
}

/// `s` without its trailing white space.
pub open spec fn trim_end(s: Seq<char>) -> Seq<char>
    decreases s.len(),
{
    if s.len() > 0 && is_white_space(s.last()) {
        trim_end(s.drop_last())
    } else {
        s
    }
}

/// `s` without leading and trailing white space, as `str::trim` gives it.
pub open spec fn trim(s: Seq<char>) -> Seq<char> {
    trim_end(trim_start(s))
}

/// The bounds `(a, b)` of the trimmed part of `v`.
pub fn trim_bounds(v: &[char]) -> (r: (usize, usize))
    ensures
        r.0 <= r.1 <= v@.len(),
        v@.subrange(r.0 as int, r.1 as int) == trim(v@),
{
    let mut a: usize = 0;
    assert(v@.skip(0) == v@);
    while a < v.len() && is_white_space_char(v[a])
        invariant
            a <= v@.len(),
            trim_start(v@.skip(a as int)) == trim_start(v@),
        decreases v@.len() - a,
    {
        assert(v@.skip(a as int).drop_first() == v@.skip(a + 1));
        a = a + 1;
    }
    let ghost t = v@.skip(a as int);
    assert(trim_start(t) == t);
    let mut b: usize = v.len();
    while b > a && is_white_space_char(v[b - 1])
        invariant
            a <= b <= v@.len(),
            t == v@.skip(a as int),
            trim_end(v@.subrange(a as int, b as int)) == trim_end(t),
        decreases b,
    {
        assert(v@.subrange(a as int, b as int).drop_last() == v@.subrange(a as int, b - 1));
        b = b - 1;
    }
    assert(v@.subrange(a as int, v@.len() as int) == t);
    (a, b)
}

/// The characters of `v` inside the given bounds.
pub fn slice_chars(v: &[char], a: usize, b: usize) -> (r: Vec<char>)
    requires
        a <= b <= v@.len(),
    ensures
        r@ == v@.subrange(a as int, b as int),
{
    let mut r: Vec<char> = Vec::new();
    let mut i = a;
    while i < b
        invariant
            a <= i <= b <= v@.len(),
            r@ == v@.subrange(a as int, i as int),
        decreases b - i,
    {
        r.push(v[i]);
        i = i + 1;
        assert(r@ == v@.subrange(a as int, i as int));
    }
    r
}

/// `v` without leading and trailing white space.
pub fn trim_chars(v: &[char]) -> (r: Vec<char>)
    ensures
        r@ == trim(v@),
{
    let (a, b) = trim_bounds(v);
    slice_chars(v, a, b)
}

/// `s` without leading and trailing white space (`str::trim`).
pub fn trim_str(s: &str) -> (r: String)
    ensures
        r@ == trim(s@),
{
    let v = chars_of(s);
    let t = trim_chars(v.as_slice());
    string_of(t.as_slice())
}

} // verus!

verus! {

/// Index of the first `c` in `s`, or `s.len()` when `s` holds no `c`.
pub open spec fn index_of(s: Seq<char>, c: char) -> int
    decreases s.len(),
{
    if s.len() == 0 {
        0
    } else if s[0] == c {
        0
    } else {
        1 + index_of(s.drop_first(), c)
    }
}

/// `index_of` lies between 0 and the length.
pub proof fn lemma_index_of_bounds(s: Seq<char>, c: char)
    ensures
        0 <= index_of(s, c) <= s.len(),
    decreases s.len(),
{
    if s.len() > 0 && s[0] != c {
        lemma_index_of_bounds(s.drop_first(), c);
    }
}

/// `index_of` is the first position holding `c`.
pub proof fn lemma_index_of_is(s: Seq<char>, c: char, k: int)
    requires
        0 <= k <= s.len(),
        forall|j: int| 0 <= j < k ==> s[j] != c,
        k == s.len() || s[k] == c,
    ensures
        index_of(s, c) == k,
    decreases k,
{
    if k > 0 {
        lemma_index_of_is(s.drop_first(), c, k - 1);
    }
}

/// `l` without one trailing carriage return.
pub open spec fn strip_cr(l: Seq<char>) -> Seq<char> {
    if l.len() > 0 && l.last() == '\r' {
        l.drop_last()
    } else {
        l
    }
}

/// The lines of `s`, as `str::lines` yields them: split at each `\n`, a `\r`
/// right before a `\n` dropped, and no empty line after a final `\n`.
pub open spec fn lines(s: Seq<char>) -> Seq<Seq<char>>
    decreases s.len(),
{
    if s.len() == 0 {
        seq![]
    } else {
        let i = index_of(s, '\n');
        if i >= s.len() {
            seq![s]
        } else {
            proof {
                lemma_index_of_bounds(s, '\n');
            }
            seq![strip_cr(s.take(i))] + lines(s.skip(i + 1))
        }
    }
}

/// What the lines of a text are, stated without `index_of`: the empty text
/// has none; a non-empty text `a` without a line break is one line, `a`
/// itself; and a text that starts with `a` and a `\n` has for its lines `a`
/// (less a `\r` that ends it) followed by the lines of the rest. These three
/// fix the lines of every text, so no text is lost, final line included.
pub proof fn lemma_lines_cover(a: Seq<char>, b: Seq<char>)
    requires
        forall|j: int| 0 <= j < a.len() ==> a[j] != '\n',
    ensures
        lines(Seq::<char>::empty()) == Seq::<Seq<char>>::empty(),
        a.len() > 0 ==> lines(a) == seq![a],
        lines(a.push('\n') + b) == seq![
            if a.len() > 0 && a[a.len() - 1] == '\r' {
                a.take(a.len() - 1)
            } else {
                a
            },
        ] + lines(b),
{
    lemma_index_of_is(a, '\n', a.len() as int);
    let s = a.push('\n') + b;
    assert forall|j: int| 0 <= j < a.len() implies s[j] != '\n' by {
        assert(s[j] == a[j]);
    }
    assert(s[a.len() as int] == '\n');
    lemma_index_of_is(s, '\n', a.len() as int);
    assert(s.take(a.len() as int) =~= a);
    assert(s.skip(a.len() as int + 1) =~= b);
    if a.len() > 0 && a[a.len() - 1] == '\r' {
        assert(a.drop_last() =~= a.take(a.len() - 1));
    }
}

/// The lines of `v` (see `lines`).
pub fn split_lines(v: &[char]) -> (r: Vec<Vec<char>>)
    ensures
        r@.len() == lines(v@).len(),
        forall|k: int| 0 <= k < r@.len() ==> #[trigger] r@[k]@ == lines(v@)[k],
{
    let mut out: Vec<Vec<char>> = Vec::new();
    let ghost mut done: Seq<Seq<char>> = seq![];
    let mut cur: Vec<char> = Vec::new();
    let mut start: usize = 0;
    let mut i: usize = 0;
    assert(v@.skip(0) == v@);
    while i < v.len()
        invariant
            start <= i <= v@.len(),
            cur@ == v@.subrange(start as int, i as int),
            forall|j: int| start <= j < i ==> v@[j] != '\n',
            out@.len() == done.len(),
            forall|k: int| 0 <= k < out@.len() ==> #[trigger] out@[k]@ == done[k],
            lines(v@) == done + lines(v@.skip(start as int)),
        decreases v@.len() - i,
    {
        if v[i] == '\n' {
            let ghost s = v@.skip(start as int);
            proof {
                lemma_index_of_is(s, '\n', i - start);
                assert(s.take(i - start) == cur@);
                assert(s.skip(i - start + 1) == v@.skip(i + 1));
            }
            let mut line = cur;
            if line.len() > 0 && line[line.len() - 1] == '\r' {
                line.pop();
            }
            proof {
                done = done.push(line@);
                assert(seq![line@] + lines(v@.skip(i + 1)) == lines(s));
                assert(done + lines(v@.skip(i + 1)) =~= (done.drop_last() + seq![line@]) + lines(
                    v@.skip(i + 1),
                ));
            }
            out.push(line);
            cur = Vec::new();
            start = i + 1;
        } else {
            cur.push(v[i]);
        }
        i = i + 1;
        assert(cur@ == v@.subrange(start as int, i as int));
    }
    if start < v.len() {
        let ghost s = v@.skip(start as int);
        proof {
            lemma_index_of_is(s, '\n', s.len() as int);
            assert(cur@ == s);
            done = done.push(cur@);
            assert(lines(s) == seq![s]);
            assert(done =~= (done.drop_last() + seq![s]));
        }
        out.push(cur);
    } else {
        assert(done + lines(v@.skip(start as int)) == done);
    }
    out
}

} // verus!

verus! {

/// An ASCII decimal digit.
pub open spec fn is_digit(c: char) -> bool {
    '0' <= c <= '9'
}

/// Every character of `s` is an ASCII decimal digit.
pub open spec fn all_digits(s: Seq<char>) -> bool {
    forall|i: int| 0 <= i < s.len() ==> is_digit(#[trigger] s[i])
}

/// The value of a decimal digit.
pub open spec fn digit_value(c: char) -> int {
    (c as u32) - ('0' as u32)
}

/// The value of the decimal numeral `s`.
pub open spec fn numeral_value(s: Seq<char>) -> int
    decreases s.len(),
{
    if s.len() == 0 {
        0
    } else {
        numeral_value(s.drop_last()) * 10 + digit_value(s.last())
    }
}

/// What `str::parse` gives for an unsigned integer type whose largest value is
/// `max`: an optional `+`, then one or more digits whose value is at most `max`.
pub open spec fn parse_unsigned(s: Seq<char>, max: int) -> Option<int> {
    let d = if s.len() > 0 && s[0] == '+' {
        s.drop_first()
    } else {
        s
    };
    if d.len() > 0 && all_digits(d) && numeral_value(d) <= max {
        Some(numeral_value(d))
    } else {
        None
    }
}

/// A numeral is worth at least as much as each of its prefixes.
pub proof fn lemma_numeral_prefix(s: Seq<char>, k: int)
    requires
        0 <= k <= s.len(),
        all_digits(s),
    ensures
        numeral_value(s.take(k)) <= numeral_value(s),
        0 <= numeral_value(s),
    decreases s.len(),
{
    if s.len() > 0 {
        assert(all_digits(s.drop_last()));
        if k == s.len() {
            assert(s.take(k) == s);
            lemma_numeral_prefix(s.drop_last(), 0);
        } else {
            assert(s.drop_last().take(k) == s.take(k));
            lemma_numeral_prefix(s.drop_last(), k);
        }
    } else {
        assert(s.take(k) == s);
    }
}

/// The digits of `v`, read as a number, when they fit in a `u64`.
fn parse_digits(v: &[char], from: usize) -> (r: Option<u64>)
    requires
        from <= v@.len(),
    ensures
        ({
            let d = v@.skip(from as int);
            &&& r is Some <==> (d.len() > 0 && all_digits(d) && numeral_value(d) <= u64::MAX)
            &&& r matches Some(n) ==> n == numeral_value(d)
        }),
{
    let ghost d = v@.skip(from as int);
    if from == v.len() {
        return None;
    }
    let mut acc: u64 = 0;
    let mut i = from;
    while i < v.len()
        invariant
            from <= i <= v@.len(),
            d == v@.skip(from as int),
            all_digits(v@.subrange(from as int, i as int)),
            acc == numeral_value(v@.subrange(from as int, i as int)),
        decreases v@.len() - i,
    {
        let c = v[i];
        assert(v@.subrange(from as int, i + 1).drop_last() == v@.subrange(from as int, i as int));
        if !('0' <= c && c <= '9') {
            assert(d[i - from] == c);
            return None;
        }
        let dv = (c as u32 - '0' as u32) as u64;
        if acc > 1844674407370955161 || (acc == 1844674407370955161 && dv > 5) {
            proof {
                let t = v@.subrange(from as int, i + 1);
                assert(numeral_value(t) > u64::MAX);
                if all_digits(d) {
                    assert(d.take(i + 1 - from) == t);
                    lemma_numeral_prefix(d, i + 1 - from);
                }
            }
            return None;
        }
        acc = acc * 10 + dv;
        i = i + 1;
    }
    assert(v@.subrange(from as int, v@.len() as int) == d);
    Some(acc)
}

/// `str::parse::<u64>` on the characters of `v`.
pub fn parse_u64(v: &[char]) -> (r: Option<u64>)
    ensures
        r matches Some(n) ==> parse_unsigned(v@, u64::MAX as int) == Some(n as int),
        r is None ==> parse_unsigned(v@, u64::MAX as int) is None,
{
    if v.len() > 0 && v[0] == '+' {
        assert(v@.skip(1) == v@.drop_first());
        parse_digits(v, 1)
    } else {
        assert(v@.skip(0) == v@);
        parse_digits(v, 0)
    }
}

/// `str::parse::<u8>` on the characters of `v`.
pub fn parse_u8(v: &[char]) -> (r: Option<u8>)
    ensures
        r matches Some(n) ==> parse_unsigned(v@, u8::MAX as int) == Some(n as int),
        r is None ==> parse_unsigned(v@, u8::MAX as int) is None,
{
    match parse_u64(v) {
        Some(n) => {
            if n <= 255 {
                Some(n as u8)
            } else {
                None
            }
        },
        None => None,
    }
}

/// The decimal digit for `d < 10`.
pub open spec fn digit_char(d: nat) -> char {
    if d == 0 {
        '0'
    } else if d == 1 {
        '1'
    } else if d == 2 {
        '2'
    } else if d == 3 {
        '3'
    } else if d == 4 {
        '4'
    } else if d == 5 {
        '5'
    } else if d == 6 {
        '6'
    } else if d == 7 {
        '7'
    } else if d == 8 {
        '8'
    } else {
        '9'
    }
}

/// The decimal numeral of `n`, without leading zeros.
pub open spec fn decimal(n: nat) -> Seq<char>
    decreases n,
{
    if n < 10 {
        seq![digit_char(n)]
    } else {
        decimal(n / 10).push(digit_char(n % 10))
    }
}

/// The digit character for `d < 10`.
pub fn digit_to_char(d: u64) -> (c: char)
    requires
        d < 10,
    ensures
        c == digit_char(d as nat),
{
    let c: char = if d == 0 {
        '0'
    } else if d == 1 {
        '1'
    } else if d == 2 {
        '2'
    } else if d == 3 {
        '3'
    } else if d == 4 {
        '4'
    } else if d == 5 {
        '5'
    } else if d == 6 {
        '6'
    } else if d == 7 {
        '7'
    } else if d == 8 {
        '8'
    } else {
        '9'
    };
    c
}

/// Appends the decimal numeral of `n` to `out`.
pub fn push_decimal(out: &mut Vec<char>, n: u64)
    ensures
        final(out)@ == old(out)@ + decimal(n as nat),
    decreases n,
{
    if n < 10 {
        out.push(digit_to_char(n));
        assert(decimal(n as nat) == seq![digit_char(n as nat)]);
    } else {
        push_decimal(out, n / 10);
        out.push(digit_to_char(n % 10));
        assert(old(out)@ + decimal(n as nat) == old(out)@ + decimal((n / 10) as nat) + seq![
            digit_char((n % 10) as nat),
        ]);
    }
}

/// The digit character of `d` is a digit worth `d`.
pub proof fn lemma_digit_char(d: nat)
    requires
        d < 10,
    ensures
        is_digit(digit_char(d)),
        digit_value(digit_char(d)) == d,
        digit_char(d) != '+',
{
}

/// The decimal numeral of `n` reads back as `n`.
pub proof fn lemma_decimal_numeral(n: nat)
    ensures
        all_digits(decimal(n)),
        numeral_value(decimal(n)) == n,
        decimal(n).len() > 0,
        decimal(n)[0] != '+',
    decreases n,
{
    lemma_digit_char(n % 10);
    if n >= 10 {
        lemma_decimal_numeral(n / 10);
        let s = decimal(n);
        assert(s.drop_last() == decimal(n / 10));
        assert(s.last() == digit_char(n % 10));
        assert(numeral_value(s) == numeral_value(decimal(n / 10)) * 10 + digit_value(
            digit_char(n % 10),
        ));
        assert((n / 10) * 10 + n % 10 == n);
    } else {
        assert(decimal(n).drop_last() =~= Seq::<char>::empty());
        assert(numeral_value(Seq::<char>::empty()) == 0);
        assert(n % 10 == n);
    }
}

/// Reading a `u64` back from its decimal numeral gives the number again.
pub proof fn lemma_parse_decimal(n: u64)
    ensures
        parse_unsigned(decimal(n as nat), u64::MAX as int) == Some(n as int),
{
    lemma_decimal_numeral(n as nat);
}

/// ASCII lowercase of `c` (`char::to_ascii_lowercase`).
pub open spec fn ascii_lower(c: char) -> char {
    if 'A' <= c <= 'Z' {
        ((c as u32) + 32) as char
    } else {
        c
    }
}

/// `str::eq_ignore_ascii_case`: equal after ASCII lowercasing, char by char.
pub open spec fn eq_ignore_ascii_case(a: Seq<char>, b: Seq<char>) -> bool {
    a.len() == b.len() && forall|i: int| 0 <= i < a.len() ==> ascii_lower(#[trigger] a[i])
        == ascii_lower(b[i])
}

fn to_ascii_lower(c: char) -> (r: char)
    ensures
        r == ascii_lower(c),
{
    if 'A' <= c && c <= 'Z' {
        ((c as u32 + 32) as u8) as char
    } else {
        c
    }
}

/// Whether `a` and `b` are equal but for ASCII case.
pub fn chars_eq_ignore_ascii_case(a: &[char], b: &[char]) -> (r: bool)
    ensures
        r == eq_ignore_ascii_case(a@, b@),
{
    if a.len() != b.len() {
        return false;
    }
    let mut i: usize = 0;
    while i < a.len()
        invariant
            a@.len() == b@.len(),
            i <= a@.len(),
            forall|j: int| 0 <= j < i ==> ascii_lower(#[trigger] a@[j]) == ascii_lower(b@[j]),
        decreases a@.len() - i,
    {
        if to_ascii_lower(a[i]) != to_ascii_lower(b[i]) {
            return false;
        }
        i = i + 1;
    }
    true
}

/// `a` sorts strictly before `b` in the order of `Ord for String`: the first
/// differing character decides, and a proper prefix comes first.
pub open spec fn seq_lt(a: Seq<char>, b: Seq<char>) -> bool
    decreases a.len(),
{
    if a.len() == 0 {
        b.len() > 0
    } else if b.len() == 0 {
        false
    } else if a[0] != b[0] {
        (a[0] as u32) < (b[0] as u32)
    } else {
        seq_lt(a.drop_first(), b.drop_first())
    }
}

/// Whether `a` sorts strictly before `b`.
pub fn chars_lt(a: &[char], b: &[char]) -> (r: bool)
    ensures
        r == seq_lt(a@, b@),
{
    let mut i: usize = 0;
    assert(a@.skip(0) == a@ && b@.skip(0) == b@);
    while i < a.len() && i < b.len() && a[i] == b[i]
        invariant
            i <= a@.len(),
            i <= b@.len(),
            seq_lt(a@.skip(i as int), b@.skip(i as int)) == seq_lt(a@, b@),
        decreases a@.len() - i,
    {
        assert(a@.skip(i as int).drop_first() == a@.skip(i + 1));
        assert(b@.skip(i as int).drop_first() == b@.skip(i + 1));
        i = i + 1;
    }
    if i == a.len() {
        i < b.len()
    } else if i == b.len() {
        false
    } else {
        (a[i] as u32) < (b[i] as u32)
    }
}

/// `s` begins with `p`.
pub open spec fn starts_with(s: Seq<char>, p: Seq<char>) -> bool {
    p.len() <= s.len() && s.take(p.len() as int) == p
}

/// Whether `s` begins with `p`.
pub fn chars_start_with(s: &[char], p: &[char]) -> (r: bool)
    ensures
        r == starts_with(s@, p@),
{
    if p.len() > s.len() {
        return false;
    }
    let mut i: usize = 0;
    while i < p.len()
        invariant
            p@.len() <= s@.len(),
            i <= p@.len(),
            forall|j: int| 0 <= j < i ==> s@[j] == p@[j],
        decreases p@.len() - i,
    {
        if s[i] != p[i] {
            assert(s@.take(p@.len() as int)[i as int] != p@[i as int]);
            return false;
        }
        i = i + 1;
    }
    assert(s@.take(p@.len() as int) =~= p@);
    true
}

/// Whether `a` and `b` hold the same characters.
pub fn chars_eq(a: &[char], b: &[char]) -> (r: bool)
    ensures
        r == (a@ == b@),
{
    if a.len() != b.len() {
        return false;
    }
    let r = chars_start_with(a, b);
    assert(a@.take(b@.len() as int) == a@);
    r
}

} // verus!

verus! {

/// Every character of `s` is ASCII.
pub open spec fn all_ascii(s: Seq<char>) -> bool {
    forall|i: int| 0 <= i < s.len() ==> (#[trigger] s[i] as u32) < 128
}

/// ASCII uppercase of `c` (`char::to_ascii_uppercase`).
pub open spec fn ascii_upper(c: char) -> char {
    if 'a' <= c <= 'z' {
        ((c as u32) - 32) as char
    } else {
        c
    }
}

/// What `str::to_uppercase` returns for `s`: each character replaced by its
/// Unicode uppercase mapping (which may be several characters).
pub uninterp spec fn unicode_uppercase(s: Seq<char>) -> Seq<char>;

/// `str::to_uppercase`. Its result is named `unicode_uppercase`; on ASCII text
/// the Unicode mapping is the ASCII one, which the contract states too, and
/// since each character upper-cases to one or more characters the result is
/// at least as long as `s`. The mapping of other characters is left to the name.
#[verifier::external_body]
pub(crate) fn to_uppercase(s: &str) -> (r: String)
    ensures
        r@ == unicode_uppercase(s@),
        r@.len() >= s@.len(),
        all_ascii(s@) ==> r@ == s@.map_values(|c: char| ascii_upper(c)),
{
    s.to_uppercase()
}

/// Index of the first white-space character of `s`, or `s.len()`.
pub open spec fn first_white_space(s: Seq<char>) -> int
    decreases s.len(),
{
    if s.len() == 0 {
        0
    } else if is_white_space(s[0]) {
        0
    } else {
        1 + first_white_space(s.drop_first())
    }
}

/// `first_white_space` lies between 0 and the length.
pub proof fn lemma_first_white_space_bounds(s: Seq<char>)
    ensures
        0 <= first_white_space(s) <= s.len(),
    decreases s.len(),
{
    if s.len() > 0 && !is_white_space(s[0]) {
        lemma_first_white_space_bounds(s.drop_first());
    }
}

/// The index where the leading white space of `v[from..]` ends.
pub fn skip_white_space(v: &[char], from: usize) -> (a: usize)
    requires
        from <= v@.len(),
    ensures
        from <= a <= v@.len(),
        v@.skip(a as int) == trim_start(v@.skip(from as int)),
{
    let mut a = from;
    while a < v.len() && is_white_space_char(v[a])
        invariant
            from <= a <= v@.len(),
            trim_start(v@.skip(a as int)) == trim_start(v@.skip(from as int)),
        decreases v@.len() - a,
    {
        assert(v@.skip(a as int).drop_first() == v@.skip(a + 1));
        a = a + 1;
    }
    a
}

/// The index of the first white-space character of `v[from..]`, counted from
/// the start of `v`, or `v.len()`.
pub fn find_white_space(v: &[char], from: usize) -> (i: usize)
    requires
        from <= v@.len(),
    ensures
        from <= i <= v@.len(),
        i - from == first_white_space(v@.skip(from as int)),
{
    let mut i = from;
    while i < v.len() && !is_white_space_char(v[i])
        invariant
            from <= i <= v@.len(),
            first_white_space(v@.skip(from as int)) == (i - from) + first_white_space(
                v@.skip(i as int),
            ),
        decreases v@.len() - i,
    {
        assert(v@.skip(i as int).drop_first() == v@.skip(i + 1));
        i = i + 1;
    }
    i
}

} // verus!

verus! {

/// `seq_lt` never holds both ways, and never of equal sequences.
pub proof fn lemma_seq_lt_asymmetric(a: Seq<char>, b: Seq<char>)
    ensures
        !(seq_lt(a, b) && seq_lt(b, a)),
        !seq_lt(a, a),
    decreases a.len(),
{
    if a.len() > 0 && b.len() > 0 && a[0] == b[0] {
        lemma_seq_lt_asymmetric(a.drop_first(), b.drop_first());
    }
    if a.len() > 0 {
        lemma_seq_lt_asymmetric(a.drop_first(), a.drop_first());
    }
}

/// Two different sequences are ordered one way or the other.
pub proof fn lemma_seq_lt_total(a: Seq<char>, b: Seq<char>)
    ensures
        a == b || seq_lt(a, b) || seq_lt(b, a),
    decreases a.len(),
{
    if a.len() > 0 && b.len() > 0 && a[0] == b[0] {
        lemma_seq_lt_total(a.drop_first(), b.drop_first());
        if a.drop_first() == b.drop_first() {
            assert(a.drop_first().len() == b.drop_first().len());
            assert(a.len() == b.len());
            assert forall|i: int| 0 <= i < a.len() implies a[i] == b[i] by {
                if i > 0 {
                    assert(a[i] == a.drop_first()[i - 1]);
                    assert(b[i] == b.drop_first()[i - 1]);
                }
            }
            assert(a =~= b);
        }
    } else if a.len() == 0 && b.len() == 0 {
        assert(a =~= b);
    } else if a.len() > 0 && b.len() > 0 {
        vstd::utf8::char_u32_cast(a[0], a[0] as u32);
        vstd::utf8::char_u32_cast(b[0], b[0] as u32);
    }
}

/// `seq_lt` is transitive.
pub proof fn lemma_seq_lt_transitive(a: Seq<char>, b: Seq<char>, c: Seq<char>)
    requires
        seq_lt(a, b),
        seq_lt(b, c),
    ensures
        seq_lt(a, c),
    decreases a.len(),
{
    if a.len() > 0 && b.len() > 0 && c.len() > 0 && a[0] == b[0] && b[0] == c[0] {
        lemma_seq_lt_transitive(a.drop_first(), b.drop_first(), c.drop_first());
    }
}

} // verus!

verus! {

/// What `trim_start` leaves is a suffix of `s` that is empty or begins with
/// a character that is not white space.
pub proof fn lemma_trim_start_shape(s: Seq<char>)
    ensures
        trim_start(s).len() <= s.len(),
        trim_start(s) == s.skip(s.len() - trim_start(s).len()),
        trim_start(s).len() == 0 || !is_white_space(trim_start(s)[0]),
    decreases s.len(),
{
    if s.len() > 0 && is_white_space(s[0]) {
        lemma_trim_start_shape(s.drop_first());
        assert(s.drop_first().skip(s.drop_first().len() - trim_start(s).len()) == s.skip(
            s.len() - trim_start(s).len(),
        ));
    } else {
        assert(s.skip(0) == s);
    }
}

/// What `trim_end` leaves is a prefix of `s` that is empty or ends with a
/// character that is not white space.
pub proof fn lemma_trim_end_shape(s: Seq<char>)
    ensures
        trim_end(s).len() <= s.len(),
        trim_end(s) == s.take(trim_end(s).len() as int),
        trim_end(s).len() == 0 || !is_white_space(trim_end(s).last()),
    decreases s.len(),
{
    if s.len() > 0 && is_white_space(s.last()) {
        lemma_trim_end_shape(s.drop_last());
        assert(s.drop_last().take(trim_end(s).len() as int) == s.take(trim_end(s).len() as int));
    } else {
        assert(s.take(s.len() as int) == s);
    }
}

/// Trimming twice trims no more than trimming once, and a trimmed text
/// neither begins nor ends with white space.
pub proof fn lemma_trim_idempotent(s: Seq<char>)
    ensures
        trim(trim(s)) == trim(s),
        trim(s).len() == 0 || (!is_white_space(trim(s)[0]) && !is_white_space(trim(s).last())),
{
    let a = trim_start(s);
    lemma_trim_start_shape(s);
    let b = trim_end(a);
    lemma_trim_end_shape(a);
    if b.len() > 0 {
        assert(b[0] == a[0]);
    }
    assert(trim_start(b) == b);
    lemma_trim_end_shape(b);
    if b.len() > 0 {
        assert(trim_end(b) == b);
    } else {
        assert(trim_end(b) == b);
    }
}

} // verus!
