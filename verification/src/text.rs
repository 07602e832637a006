//! Character-level helpers shared by the rest of the library: reading a string's
//! characters, the lexicographic order of strings, prefixes, ASCII case folding and
//! decimal rendering of numbers.

use vstd::prelude::*;

verus! {

/// The characters of every string of `v`, in order.
pub open spec fn views(v: Seq<String>) -> Seq<Seq<char>> {
    v.map_values(|s: String| s@)
}

/// Lexicographic order on character sequences; this is the order `str` has in Rust,
/// since UTF-8 keeps the order of code points.
pub open spec fn lex_lt(a: Seq<char>, b: Seq<char>) -> bool
    decreases a.len(),
{
    if a.len() == 0 {
        b.len() > 0
    } else if b.len() == 0 {
        false
    } else if (a[0] as int) < (b[0] as int) {
        true
    } else if a[0] == b[0] {
        lex_lt(a.drop_first(), b.drop_first())
    } else {
        false
    }
}

pub proof fn lemma_lex_irreflexive(a: Seq<char>)
    ensures
        !lex_lt(a, a),
    decreases a.len(),
{
    if a.len() > 0 {
        lemma_lex_irreflexive(a.drop_first());
    }
}

pub proof fn lemma_lex_asymmetric(a: Seq<char>, b: Seq<char>)
    ensures
        !(lex_lt(a, b) && lex_lt(b, a)),
    decreases a.len(),
{
    if a.len() > 0 && b.len() > 0 && a[0] == b[0] {
        lemma_lex_asymmetric(a.drop_first(), b.drop_first());
    }
}

pub proof fn lemma_lex_transitive(a: Seq<char>, b: Seq<char>, c: Seq<char>)
    requires
        lex_lt(a, b),
        lex_lt(b, c),
    ensures
        lex_lt(a, c),
    decreases a.len(),
{
    if a.len() > 0 && b.len() > 0 && c.len() > 0 && a[0] == b[0] && b[0] == c[0] {
        lemma_lex_transitive(a.drop_first(), b.drop_first(), c.drop_first());
    }
}

pub proof fn lemma_lex_total(a: Seq<char>, b: Seq<char>)
    ensures
        a != b ==> lex_lt(a, b) || lex_lt(b, a),
    decreases a.len(),
{
    if a.len() > 0 && b.len() > 0 {
        if a[0] == b[0] {
            lemma_lex_total(a.drop_first(), b.drop_first());
            if a.drop_first() == b.drop_first() {
                assert(a =~= seq![a[0]] + a.drop_first());
                assert(b =~= seq![b[0]] + b.drop_first());
            }
        } else {
            assert((a[0] as int) != (b[0] as int));
        }
    } else if a.len() == 0 && b.len() == 0 {
        assert(a =~= b);
    }
}

/// The characters of `s`, in order.
pub fn chars_of(s: &str) -> (out: Vec<char>)
    ensures
        out@ == s@,
{
    let n = s.unicode_len();
    let mut out: Vec<char> = Vec::new();
    let mut i: usize = 0;
    while i < n
        invariant
            n == s@.len(),
            i <= n,
            out@ == s@.take(i as int),
        decreases n - i,
    {
        let c = s.get_char(i);
        out.push(c);
        i += 1;
        assert(out@ =~= s@.take(i as int));
    }
    assert(out@ =~= s@);
    out
}

/// Whether two character sequences are equal.
pub fn same_chars(a: &Vec<char>, b: &Vec<char>) -> (same: bool)
    ensures
        same == (a@ == b@),
{
    if a.len() != b.len() {
        return false;
    }
    let mut i: usize = 0;
    while i < a.len()
        invariant
            a@.len() == b@.len(),
            i <= a@.len(),
            forall|j: int| 0 <= j < i ==> a@[j] == b@[j],
        decreases a.len() - i,
    {
        if a[i] != b[i] {
            return false;
        }
        i += 1;
    }
    assert(a@ =~= b@);
    true
}

/// Whether `a` comes strictly before `b` in lexicographic order.
pub fn lex_less(a: &Vec<char>, b: &Vec<char>) -> (less: bool)
    ensures
        less == lex_lt(a@, b@),
{
    let mut i: usize = 0;
    assert(a@.skip(0) =~= a@ && b@.skip(0) =~= b@);
    while i < a.len() && i < b.len()
        invariant
            i <= a@.len(),
            i <= b@.len(),
            a@.take(i as int) == b@.take(i as int),
            lex_lt(a@, b@) == lex_lt(a@.skip(i as int), b@.skip(i as int)),
        decreases a.len() - i,
    {
        let x = a[i];
        let y = b[i];
        let ghost sa = a@.skip(i as int);
        let ghost sb = b@.skip(i as int);
        assert(sa[0] == x && sb[0] == y);
        if code_point(x) < code_point(y) {
            return true;
        }
        if x != y {
            return false;
        }
        assert(sa.drop_first() =~= a@.skip(i + 1));
        assert(sb.drop_first() =~= b@.skip(i + 1));
        i += 1;
        assert(a@.take(i as int) =~= a@.take(i - 1).push(x));
        assert(b@.take(i as int) =~= b@.take(i - 1).push(y));
    }
    a.len() == i && i < b.len()
}

/// Whether `prefix` is a prefix of `s`.
pub fn has_prefix(s: &Vec<char>, prefix: &str) -> (found: bool)
    ensures
        found == prefix@.is_prefix_of(s@),
{
    let p = chars_of(prefix);
    if p.len() > s.len() {
        return false;
    }
    let mut i: usize = 0;
    while i < p.len()
        invariant
            p@ == prefix@,
            p@.len() <= s@.len(),
            i <= p@.len(),
            forall|j: int| 0 <= j < i ==> p@[j] == s@[j],
        decreases p.len() - i,
    {
        if p[i] != s[i] {
            return false;
        }
        i += 1;
    }
    true
}

/// The code of `c` with ASCII capitals mapped to their lower-case letters.
pub open spec fn ascii_fold(c: char) -> int {
    if 65 <= (c as int) <= 90 {
        (c as int) + 32
    } else {
        c as int
    }
}

/// Equality of two strings up to the case of ASCII letters, which is what
/// `str::eq_ignore_ascii_case` computes.
pub open spec fn eq_ignore_ascii_case(a: Seq<char>, b: Seq<char>) -> bool {
    &&& a.len() == b.len()
    &&& forall|i: int| 0 <= i < a.len() ==> ascii_fold(#[trigger] a[i]) == ascii_fold(b[i])
}

/// The code point of `c`.
pub fn code_point(c: char) -> (code: u32)
    ensures
        code == c as int,
{
    c as u32
}

fn fold_code(c: char) -> (code: u32)
    ensures
        code == ascii_fold(c),
{
    let x = code_point(c);
    if 65 <= x && x <= 90 {
        x + 32
    } else {
        x
    }
}

/// Whether `a` and `b` are equal up to the case of ASCII letters.
pub fn same_ignoring_ascii_case(a: &Vec<char>, b: &str) -> (same: bool)
    ensures
        same == eq_ignore_ascii_case(a@, b@),
{
    let bc = chars_of(b);
    if a.len() != bc.len() {
        return false;
    }
    let mut i: usize = 0;
    while i < a.len()
        invariant
            bc@ == b@,
            a@.len() == bc@.len(),
            i <= a@.len(),
            forall|j: int| 0 <= j < i ==> ascii_fold(#[trigger] a@[j]) == ascii_fold(b@[j]),
        decreases a.len() - i,
    {
        if fold_code(a[i]) != fold_code(bc[i]) {
            return false;
        }
        i += 1;
    }
    true
}

/// The decimal digit character for `d`.
pub open spec fn digit_char(d: nat) -> char {
    if d == 0 {
        '0'
    } else if d == 1 {
        '1'
    } else if d == 2 {
        '2'
    } else if d == 3 {
        '3'
    } else if d == 4 {
        '4'
    } else if d == 5 {
        '5'
    } else if d == 6 {
        '6'
    } else if d == 7 {
        '7'
    } else if d == 8 {
        '8'
    } else {
        '9'
    }
}

/// The decimal rendering of `n`, without sign or leading zeros, as `Display` prints it.
pub open spec fn decimal(n: nat) -> Seq<char>
    decreases n,
{
    if n < 10 {
        seq![digit_char(n)]
    } else {
        decimal(n / 10).push(digit_char(n % 10))
    }
}

fn digit_str(d: u64) -> (s: &'static str)
    requires
        d < 10,
    ensures
        s@ == seq![digit_char(d as nat)],
{
    proof {
        reveal_strlit("0");
        reveal_strlit("1");
        reveal_strlit("2");
        reveal_strlit("3");
        reveal_strlit("4");
        reveal_strlit("5");
        reveal_strlit("6");
        reveal_strlit("7");
        reveal_strlit("8");
        reveal_strlit("9");
    }
    let s = if d == 0 {
        "0"
    } else if d == 1 {
        "1"
    } else if d == 2 {
        "2"
    } else if d == 3 {
        "3"
    } else if d == 4 {
        "4"
    } else if d == 5 {
        "5"
    } else if d == 6 {
        "6"
    } else if d == 7 {
        "7"
    } else if d == 8 {
        "8"
    } else {
        "9"
    };
    assert(s@ =~= seq![digit_char(d as nat)]);
    s
}

/// Appends the decimal rendering of `n` to `out`.
pub fn push_decimal(out: &mut String, n: u64)
    ensures
        final(out)@ == old(out)@ + decimal(n as nat),
    decreases n,
{
    if n < 10 {
        out.append(digit_str(n));
    } else {
        push_decimal(out, n / 10);
        out.append(digit_str(n % 10));
        assert(old(out)@ + decimal(n as nat) =~= old(out)@ + decimal((n / 10) as nat) + seq![
            digit_char((n % 10) as nat),
        ]);
    }
}

/// The decimal rendering of `n`.
pub fn decimal_string(n: u64) -> (s: String)
    ensures
        s@ == decimal(n as nat),
{
    let mut s = String::new();
    push_decimal(&mut s, n);
    assert(s@ =~= decimal(n as nat));
    s
}

/// `a` followed by `b`.
pub fn joined(a: &str, b: &str) -> (s: String)
    ensures
        s@ == a@ + b@,
{
    let mut s = String::from_str(a);
    s.append(b);
    s
}

/// The strings of `parts` with `sep` between each two of them.
pub open spec fn join_with(parts: Seq<Seq<char>>, sep: Seq<char>) -> Seq<char>
    decreases parts.len(),
{
    if parts.len() == 0 {
        Seq::empty()
    } else if parts.len() == 1 {
        parts[0]
    } else {
        join_with(parts.drop_last(), sep) + sep + parts.last()
    }
}

/// The strings of `parts` with `sep` between each two of them.
pub fn join_strings(parts: &Vec<String>, sep: &str) -> (out: String)
    ensures
        out@ == join_with(views(parts@), sep@),
{
    let mut out = String::new();
    let mut i: usize = 0;
    while i < parts.len()
        invariant
            i <= parts@.len(),
            out@ == join_with(views(parts@).take(i as int), sep@),
        decreases parts.len() - i,
    {
        let ghost t = views(parts@).take(i + 1);
        assert(t.drop_last() =~= views(parts@).take(i as int));
        if i > 0 {
            out.append(sep);
        } else {
            assert(views(parts@).take(0) =~= Seq::<Seq<char>>::empty());
        }
        out.append(parts[i].as_str());
        i += 1;
    }
    assert(views(parts@).take(parts@.len() as int) =~= views(parts@));
    out
}

/// The lower-case hexadecimal digit for `d`.
pub open spec fn hex_digit_char(d: nat) -> char {
    if d < 10 {
        digit_char(d)
    } else if d == 10 {
        'a'
    } else if d == 11 {
        'b'
    } else if d == 12 {
        'c'
    } else if d == 13 {
        'd'
    } else if d == 14 {
        'e'
    } else {
        'f'
    }
}

/// The lower-case hexadecimal rendering of `n`.
pub open spec fn hex(n: nat) -> Seq<char>
    decreases n,
{
    if n < 16 {
        seq![hex_digit_char(n)]
    } else {
        hex(n / 16).push(hex_digit_char(n % 16))
    }
}

/// `digits` padded on the left with zeros to at least `width` characters.
pub open spec fn zero_padded(digits: Seq<char>, width: nat) -> Seq<char> {
    if digits.len() >= width {
        digits
    } else {
        Seq::new((width - digits.len()) as nat, |i: int| '0') + digits
    }
}

fn hex_digit_str(d: u64) -> (s: &'static str)
    requires
        d < 16,
    ensures
        s@ == seq![hex_digit_char(d as nat)],
{
    if d < 10 {
        return digit_str(d);
    }
    proof {
        reveal_strlit("a");
        reveal_strlit("b");
        reveal_strlit("c");
        reveal_strlit("d");
        reveal_strlit("e");
        reveal_strlit("f");
    }
    let s = if d == 10 {
        "a"
    } else if d == 11 {
        "b"
    } else if d == 12 {
        "c"
    } else if d == 13 {
        "d"
    } else if d == 14 {
        "e"
    } else {
        "f"
    };
    assert(s@ =~= seq![hex_digit_char(d as nat)]);
    s
}

/// Appends the lower-case hexadecimal rendering of `n` to `out`.
pub fn push_hex(out: &mut String, n: u64)
    ensures
        final(out)@ == old(out)@ + hex(n as nat),
    decreases n,
{
    if n < 16 {
        out.append(hex_digit_str(n));
    } else {
        push_hex(out, n / 16);
        out.append(hex_digit_str(n % 16));
        assert(old(out)@ + hex(n as nat) =~= old(out)@ + hex((n / 16) as nat) + seq![
            hex_digit_char((n % 16) as nat),
        ]);
    }
}

/// The lower-case hexadecimal rendering of `n`, padded with zeros to at least four
/// digits, as `{:04x}` prints it.
pub fn hex4_string(n: u64) -> (s: String)
    ensures
        s@ == zero_padded(hex(n as nat), 4),
{
    let mut digits = String::new();
    push_hex(&mut digits, n);
    assert(digits@ =~= hex(n as nat));
    let len = digits.as_str().unicode_len();
    let mut s = String::new();
    let mut pad: usize = 0;
    while len + pad < 4
        invariant
            len == hex(n as nat).len(),
            s@ == Seq::new(pad as nat, |i: int| '0'),
            len + pad <= 4 || pad == 0,
        decreases 4 - pad,
    {
        proof {
            reveal_strlit("0");
        }
        s.append("0");
        pad += 1;
        assert(s@ =~= Seq::new(pad as nat, |i: int| '0'));
    }
    s.append(digits.as_str());
    proof {
        if len >= 4 {
            assert(s@ =~= hex(n as nat));
        } else {
            assert(pad == 4 - len);
        }
    }
    s
}

/// Whether `c` has the Unicode White_Space property, which is what
/// `char::is_whitespace` tests.
pub open spec fn is_white_space(c: char) -> bool {
    let x = c as int;
    ||| 0x09 <= x <= 0x0d
    ||| x == 0x20
    ||| x == 0x85
    ||| x == 0xa0
    ||| x == 0x1680
    ||| 0x2000 <= x <= 0x200a
    ||| x == 0x2028
    ||| x == 0x2029
    ||| x == 0x202f
    ||| x == 0x205f
    ||| x == 0x3000
}

/// `s` without its leading white space.
pub open spec fn trimmed_start(s: Seq<char>) -> Seq<char>
    decreases s.len(),
{
    if s.len() > 0 && is_white_space(s[0]) {
        trimmed_start(s.drop_first())
    } else {
        s
    }
}

/// `s` without its trailing white space.
pub open spec fn trimmed_end(s: Seq<char>) -> Seq<char>
    decreases s.len(),
{
    if s.len() > 0 && is_white_space(s.last()) {
        trimmed_end(s.drop_last())
    } else {
        s
    }
}

/// What `str::trim` leaves of a string: the string without its leading and trailing
/// white space.
pub open spec fn trimmed(s: Seq<char>) -> Seq<char> {
    trimmed_end(trimmed_start(s))
}

/// Calls `str::trim`, which drops the leading and trailing white space of `s` (the
/// characters for which `char::is_whitespace` holds).
#[verifier::external_body]
pub(crate) fn trim(s: &str) -> (t: &str)
    ensures
        t@ == trimmed(s@),
{
    s.trim()
}

/// The decimal rendering of `v` with a leading `-` when it is negative.
pub open spec fn signed_decimal(v: int) -> Seq<char> {
    if v < 0 {
        "-"@ + decimal((-v) as nat)
    } else {
        decimal(v as nat)
    }
}

/// The decimal rendering of `v`, as `Display` prints it.
pub fn signed_decimal_string(v: i32) -> (s: String)
    ensures
        s@ == signed_decimal(v as int),
{
    let wide = v as i64;
    if wide < 0 {
        let mut s = String::from_str("-");
        push_decimal(&mut s, (-wide) as u64);
        s
    } else {
        decimal_string(wide as u64)
    }
}

/// Whether `c` is an ASCII digit.
pub open spec fn is_digit(c: char) -> bool {
    '0' <= c <= '9'
}

/// The number the ASCII digits `d` spell.
pub open spec fn digits_value(d: Seq<char>) -> int
    decreases d.len(),
{
    if d.len() == 0 {
        0
    } else {
        10 * digits_value(d.drop_last()) + (d.last() as int - '0' as int)
    }
}

/// What `str::parse::<i32>` accepts: an optional `+` or `-`, then at least one ASCII
/// digit, spelling a number that fits an `i32`.
pub open spec fn parsed_i32(s: Seq<char>) -> Option<int> {
    let negative = s.len() > 0 && s[0] == '-';
    let body = if s.len() > 0 && (s[0] == '-' || s[0] == '+') {
        s.drop_first()
    } else {
        s
    };
    let value = if negative {
        -digits_value(body)
    } else {
        digits_value(body)
    };
    if body.len() > 0 && (forall|i: int| 0 <= i < body.len() ==> is_digit(#[trigger] body[i]))
        && i32::MIN <= value <= i32::MAX {
        Some(value)
    } else {
        None
    }
}

proof fn lemma_digit_char(d: nat)
    requires
        d < 10,
    ensures
        is_digit(digit_char(d)),
        digit_char(d) as int - '0' as int == d,
{
}

proof fn lemma_decimal_digits(n: nat)
    ensures
        decimal(n).len() > 0,
        forall|i: int| 0 <= i < decimal(n).len() ==> is_digit(#[trigger] decimal(n)[i]),
        digits_value(decimal(n)) == n,
    decreases n,
{
    if n < 10 {
        lemma_digit_char(n);
        assert(decimal(n).drop_last() =~= Seq::<char>::empty());
        assert(digits_value(Seq::<char>::empty()) == 0);
        assert(decimal(n).last() == digit_char(n));
    } else {
        lemma_decimal_digits(n / 10);
        lemma_digit_char(n % 10);
        let d = decimal(n);
        assert(d.drop_last() =~= decimal(n / 10));
        assert(d.last() == digit_char(n % 10));
        assert(digits_value(d) == 10 * digits_value(decimal(n / 10)) + (digit_char(n % 10) as int - '0' as int));
        assert(10 * (n / 10) + n % 10 == n);
        assert forall|i: int| 0 <= i < d.len() implies is_digit(#[trigger] d[i]) by {
            if i < d.len() - 1 {
                assert(d[i] == decimal(n / 10)[i]);
            }
        }
    }
}

/// Parsing the decimal rendering of an `i32` gives the number back, and the
/// rendering starts with a digit or a minus sign.
pub proof fn lemma_signed_decimal_parses(v: i32)
    ensures
        parsed_i32(signed_decimal(v as int)) == Some(v as int),
        signed_decimal(v as int).len() > 0,
        signed_decimal(v as int)[0] == '-' || is_digit(signed_decimal(v as int)[0]),
{
    let s = signed_decimal(v as int);
    if v < 0 {
        reveal_strlit("-");
        lemma_decimal_digits((-v) as nat);
        assert(s[0] == '-');
        assert(s.drop_first() =~= decimal((-v) as nat));
    } else {
        lemma_decimal_digits(v as nat);
        assert(is_digit(s[0]));
    }
}

/// The `Display` text of the error `str::parse::<i32>` gives for `s` when `s` is not
/// an `i32`.
pub uninterp spec fn parse_i32_error(s: Seq<char>) -> Seq<char>;

/// Calls `str::parse::<i32>`, turning its error into the error's `Display` text. The
/// contract states which strings parse and to what, as the documentation of
/// `i32::from_str` gives it; the text of the error is named: it depends on `s` alone.
#[verifier::external_body]
pub(crate) fn parse_i32(s: &str) -> (parsed: Result<i32, String>)
    ensures
        parsed is Ok <==> parsed_i32(s@) is Some,
        parsed is Ok ==> parsed->Ok_0 as int == parsed_i32(s@)->0,
        parsed is Err ==> parsed->Err_0@ == parse_i32_error(s@),
{
    match s.parse::<i32>() {
        Ok(value) => Ok(value),
        Err(error) => Err(error.to_string()),
    }
}

/// What `{:?}` prints for a string: it quoted, with special characters escaped.
pub uninterp spec fn debug_quoted(s: Seq<char>) -> Seq<char>;

/// Calls the `Debug` formatting of `str`. The contract only names the result: it is a
/// function of the characters of `s`.
#[verifier::external_body]
pub(crate) fn debug_quote(s: &str) -> (quoted: String)
    ensures
        quoted@ == debug_quoted(s@),
{
    format!("{:?}", s)
}

/// The pieces `s` falls into when it is cut at every `sep`, as `str::split` gives
/// them: one more piece than there are separators, empty pieces included.
pub open spec fn pieces(s: Seq<char>, sep: char) -> Seq<Seq<char>>
    decreases s.len(),
{
    if s.len() == 0 {
        seq![Seq::empty()]
    } else {
        let p = pieces(s.drop_last(), sep);
        if s.last() == sep {
            p.push(Seq::empty())
        } else {
            p.update(p.len() - 1, p.last().push(s.last()))
        }
    }
}

/// Whether a piece holds at least one character.
pub open spec fn is_nonempty(p: Seq<char>) -> bool {
    p.len() > 0
}

/// The non-empty pieces of `s` cut at every `sep`, in order.
pub open spec fn split_entries(s: Seq<char>, sep: char) -> Seq<Seq<char>> {
    pieces(s, sep).filter(|p: Seq<char>| is_nonempty(p))
}

proof fn lemma_pieces_len(s: Seq<char>, sep: char)
    ensures
        pieces(s, sep).len() >= 1,
    decreases s.len(),
{
    if s.len() > 0 {
        lemma_pieces_len(s.drop_last(), sep);
    }
}

/// A filter that keeps every element gives the sequence back.
pub(crate) proof fn lemma_filter_all(s: Seq<Seq<char>>, keep: spec_fn(Seq<char>) -> bool)
    requires
        forall|k: int| 0 <= k < s.len() ==> keep(#[trigger] s[k]),
    ensures
        s.filter(keep) == s,
    decreases s.len(),
{
    reveal(Seq::filter);
    if s.len() > 0 {
        lemma_filter_all(s.drop_last(), keep);
        assert(s.drop_last().push(s.last()) =~= s);
        s.drop_last().lemma_filter_push(s.last(), keep);
    } else {
        assert(s.filter(keep) =~= s);
    }
}

/// The non-empty pieces of `s` cut at every `sep`, in order.
pub fn split_nonempty(s: &str, sep: char) -> (out: Vec<String>)
    ensures
        views(out@) == split_entries(s@, sep),
{
    let chars = chars_of(s);
    let n = chars.len();
    let mut parts: Vec<String> = Vec::new();
    let mut start: usize = 0;
    let mut i: usize = 0;
    assert(s@.take(0) =~= Seq::<char>::empty());
    assert(views(parts@).push(s@.subrange(0, 0)) =~= pieces(s@.take(0), sep));
    while i < n
        invariant
            chars@ == s@,
            n == s@.len(),
            start <= i <= n,
            views(parts@).push(s@.subrange(start as int, i as int)) == pieces(
                s@.take(i as int),
                sep,
            ),
        decreases n - i,
    {
        let ghost before = views(parts@);
        let ghost current = s@.subrange(start as int, i as int);
        assert(s@.take(i + 1).drop_last() =~= s@.take(i as int));
        assert(s@.take(i + 1).last() == s@[i as int]);
        if chars[i] == sep {
            parts.push(String::from_str(s.substring_char(start, i)));
            start = i + 1;
            assert(views(parts@) =~= before.push(current));
            assert(s@.subrange(start as int, i + 1) =~= Seq::<char>::empty());
            assert(views(parts@).push(s@.subrange(start as int, i + 1)) =~= before.push(
                current,
            ).push(Seq::empty()));
        } else {
            assert(s@.subrange(start as int, i + 1) =~= current.push(s@[i as int]));
            assert(views(parts@).push(s@.subrange(start as int, i + 1)) =~= before.push(
                current,
            ).update(before.len() as int, current.push(s@[i as int])));
        }
        i += 1;
    }
    let ghost before = views(parts@);
    parts.push(String::from_str(s.substring_char(start, n)));
    assert(s@.take(n as int) =~= s@);
    assert(views(parts@) =~= before.push(s@.subrange(start as int, n as int)));
    let ghost all = views(parts@);
    let ghost keep = |p: Seq<char>| is_nonempty(p);
    let mut out: Vec<String> = Vec::new();
    let mut j: usize = 0;
    assert(all.take(0) =~= Seq::<Seq<char>>::empty());
    while j < parts.len()
        invariant
            all == views(parts@),
            all == pieces(s@, sep),
            keep == (|p: Seq<char>| is_nonempty(p)),
            j <= parts@.len(),
            views(out@) == all.take(j as int).filter(keep),
        decreases parts.len() - j,
    {
        assert(all.take(j + 1).drop_last() =~= all.take(j as int));
        assert(all.take(j + 1).last() == parts@[j as int]@);
        let piece = parts[j].as_str();
        let ghost before_out = views(out@);
        proof {
            assert(keep(parts@[j as int]@) == (piece@.len() > 0));
            reveal(Seq::filter);
            assert(all.take(j + 1).filter(keep) == if keep(parts@[j as int]@) {
                all.take(j as int).filter(keep).push(parts@[j as int]@)
            } else {
                all.take(j as int).filter(keep)
            });
        }
        if piece.unicode_len() > 0 {
            out.push(String::from_str(piece));
            assert(views(out@) =~= before_out.push(parts@[j as int]@));
        } else {
            assert(views(out@) =~= before_out);
        }
        j += 1;
    }
    assert(all.take(parts@.len() as int) =~= all);
    out
}

proof fn lemma_pieces_append(a: Seq<char>, b: Seq<char>, sep: char)
    requires
        !b.contains(sep),
    ensures
        pieces(a + b, sep) == pieces(a, sep).update(
            pieces(a, sep).len() - 1,
            pieces(a, sep).last() + b,
        ),
    decreases b.len(),
{
    lemma_pieces_len(a, sep);
    let p = pieces(a, sep);
    if b.len() == 0 {
        assert(a + b =~= a);
        assert(p.last() + b =~= p.last());
        assert(p.update(p.len() - 1, p.last() + b) =~= p);
    } else {
        assert((a + b).drop_last() =~= a + b.drop_last());
        assert(b.last() == b[b.len() - 1]);
        lemma_pieces_append(a, b.drop_last(), sep);
        assert(p.last() + b.drop_last() + seq![b.last()] =~= p.last() + b);
        assert((a + b).last() == b.last());
        assert(b.last() != sep);
        lemma_pieces_len(a + b.drop_last(), sep);
        assert((p.last() + b.drop_last()).push(b.last()) =~= p.last() + b);
        assert(pieces(a + b, sep) =~= p.update(p.len() - 1, p.last() + b));
    }
}

proof fn lemma_pieces_of_join(names: Seq<Seq<char>>, sep: char)
    requires
        names.len() >= 1,
        forall|k: int| 0 <= k < names.len() ==> !(#[trigger] names[k]).contains(sep),
    ensures
        pieces(join_with(names, seq![sep]), sep) == names,
    decreases names.len(),
{
    let empty = Seq::<char>::empty();
    if names.len() == 1 {
        lemma_pieces_append(empty, names[0], sep);
        assert(empty + names[0] =~= names[0]);
        assert(names =~= seq![names[0]]);
        assert(seq![empty].update(0, empty + names[0]) =~= names);
    } else {
        let rest = names.drop_last();
        lemma_pieces_of_join(rest, sep);
        let head = join_with(rest, seq![sep]) + seq![sep];
        assert(head.drop_last() =~= join_with(rest, seq![sep]));
        assert(pieces(head, sep) =~= rest.push(empty));
        lemma_pieces_append(head, names.last(), sep);
        assert(empty + names.last() =~= names.last());
        assert(rest.push(empty).update(rest.len() as int, names.last()) =~= names);
    }
}

/// Joining non-empty strings that hold no `sep` with `sep` between them, then
/// splitting the result at `sep`, gives the strings back.
pub proof fn lemma_split_join(names: Seq<Seq<char>>, sep: char)
    requires
        forall|k: int| 0 <= k < names.len() ==> is_nonempty(#[trigger] names[k]),
        forall|k: int| 0 <= k < names.len() ==> !(#[trigger] names[k]).contains(sep),
    ensures
        split_entries(join_with(names, seq![sep]), sep) == names,
{
    let keep = |p: Seq<char>| is_nonempty(p);
    if names.len() == 0 {
        let one = pieces(join_with(names, seq![sep]), sep);
        assert(join_with(names, seq![sep]) == Seq::<char>::empty());
        assert(one == seq![Seq::<char>::empty()]);
        reveal_with_fuel(Seq::filter, 2);
        assert(one.drop_last() =~= Seq::<Seq<char>>::empty());
        assert(one.filter(keep) =~= names);
    } else {
        lemma_pieces_of_join(names, sep);
        lemma_filter_all(names, keep);
    }
}

} // verus!
