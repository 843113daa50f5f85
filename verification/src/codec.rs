//! The line-oriented text encoding of an account store.
//!
//! One account per line, `name,balance` with the balance in decimal.
//! Decoding trims each line, skips lines that do not have exactly two
//! comma-separated fields, and fails on a two-field line whose balance
//! is not a well-formed integer.

use vstd::prelude::*;
use vstd::string::StrSliceExecFns;
use vstd::string::StringExecFns;
use crate::errors::BankError;
use crate::storage::Balance;
use crate::storage::Storage;
use crate::storage::in_i64;
use crate::storage::pairs_views;

verus! {

/// The whitespace stripped from the ends of a record line.
pub open spec fn is_space(c: char) -> bool {
    c == ' ' || c == '\t' || c == '\r' || c == '\n'
}

/// An ASCII decimal digit.
pub open spec fn is_digit(c: char) -> bool {
    48 <= c as int <= 57
}

/// Every character of `s` is a decimal digit.
pub open spec fn all_digits(s: Seq<char>) -> bool {
    forall|i: int| 0 <= i < s.len() ==> is_digit(#[trigger] s[i])
}

/// The digit character for a value below ten.
pub open spec fn digit_char(d: int) -> char {
    ((d + 48) as u8) as char
}

/// The decimal digits of `n`, most significant first.
pub open spec fn digits_of(n: nat) -> Seq<char>
    decreases n,
{
    if n < 10 {
        seq![digit_char(n as int)]
    } else {
        digits_of(n / 10).push(digit_char((n % 10) as int))
    }
}

/// The decimal rendering of a signed value.
pub open spec fn int_repr(v: int) -> Seq<char> {
    if v < 0 {
        seq!['-'] + digits_of((-v) as nat)
    } else {
        digits_of(v as nat)
    }
}

/// The value of a digit string, most significant first.
pub open spec fn digits_val(s: Seq<char>) -> int
    decreases s.len(),
{
    if s.len() == 0 {
        0
    } else {
        digits_val(s.drop_last()) * 10 + (s.last() as int - 48)
    }
}

/// The mathematical value of a decimal string: an optional single
/// `+` or `-` sign followed by at least one digit.
pub open spec fn int_of(s: Seq<char>) -> Option<int> {
    if s.len() == 0 {
        None
    } else if s[0] == '-' || s[0] == '+' {
        if s.len() > 1 && all_digits(s.skip(1)) {
            if s[0] == '-' {
                Some(-digits_val(s.skip(1)))
            } else {
                Some(digits_val(s.skip(1)))
            }
        } else {
            None
        }
    } else {
        if all_digits(s) {
            Some(digits_val(s))
        } else {
            None
        }
    }
}

/// The parse of a decimal string as a balance: its value when it is
/// well formed and fits the balance type, nothing otherwise.
pub open spec fn parse_int(s: Seq<char>) -> Option<int> {
    match int_of(s) {
        Some(v) => if in_i64(v) {
            Some(v)
        } else {
            None
        },
        None => None,
    }
}

/// Digit strings have non-negative value.
pub proof fn lemma_digits_val_nonneg(s: Seq<char>)
    requires
        all_digits(s),
    ensures
        digits_val(s) >= 0,
    decreases s.len(),
{
    if s.len() > 0 {
        lemma_digits_val_nonneg(s.drop_last());
    }
}

/// Extending a digit string to the right never lowers its value.
pub proof fn lemma_digits_val_prefix(s: Seq<char>, k: int)
    requires
        all_digits(s),
        0 <= k <= s.len(),
    ensures
        digits_val(s) >= digits_val(s.take(k)),
    decreases s.len(),
{
    lemma_digits_val_nonneg(s.take(k));
    if k < s.len() {
        assert(s.drop_last().take(k) =~= s.take(k));
        lemma_digits_val_prefix(s.drop_last(), k);
        lemma_digits_val_nonneg(s.drop_last());
    } else {
        assert(s.take(k) =~= s);
    }
}

/// The digits of `n` are digits, at least one, and read back as `n`.
pub proof fn lemma_digits_of_val(n: nat)
    ensures
        digits_of(n).len() >= 1,
        all_digits(digits_of(n)),
        digits_val(digits_of(n)) == n,
    decreases n,
{
    if n < 10 {
        let s = digits_of(n);
        assert(s.drop_last().len() == 0);
        assert(digits_val(s.drop_last()) == 0);
        assert(s.last() == digit_char(n as int));
        assert(digit_char(n as int) as int == n + 48);
        assert(digits_val(s) == n);
        assert(is_digit(digit_char(n as int)));
    } else {
        lemma_digits_of_val(n / 10);
        let d = digits_of(n / 10);
        let whole = d.push(digit_char((n % 10) as int));
        assert(whole.drop_last() =~= d);
        assert(digit_char((n % 10) as int) as int == n % 10 + 48);
        assert(is_digit(digit_char((n % 10) as int)));
        assert(forall|i: int|
            0 <= i < whole.len() ==> is_digit(#[trigger] whole[i]));
        vstd::arithmetic::div_mod::lemma_fundamental_div_mod(n as int, 10);
        assert(digits_val(whole) == digits_val(d) * 10 + (n % 10));
    }
}

/// Rendering a balance and parsing it back returns the same value.
pub proof fn lemma_parse_int_repr(v: int)
    requires
        in_i64(v),
    ensures
        parse_int(int_repr(v)) == Some(v),
{
    if v < 0 {
        let s = seq!['-'] + digits_of((-v) as nat);
        lemma_digits_of_val((-v) as nat);
        assert(s.skip(1) =~= digits_of((-v) as nat));
        assert(s[0] == '-');
        assert(is_digit(digits_of((-v) as nat)[0]));
    } else {
        lemma_digits_of_val(v as nat);
        let s = digits_of(v as nat);
        assert(is_digit(s[0]));
        assert(s[0] != '-' && s[0] != '+');
    }
}

/// The pieces of `s` between occurrences of `sep`: always one more
/// piece than there are separators, so the result is never empty.
pub open spec fn split_on(s: Seq<char>, sep: char) -> Seq<Seq<char>>
    decreases s.len(),
{
    if s.len() == 0 {
        seq![Seq::<char>::empty()]
    } else if s[0] == sep {
        seq![Seq::<char>::empty()] + split_on(s.skip(1), sep)
    } else {
        let rest = split_on(s.skip(1), sep);
        seq![seq![s[0]] + rest[0]] + rest.skip(1)
    }
}

/// The views of a sequence of owned strings.
pub open spec fn views_of(v: Seq<String>) -> Seq<Seq<char>> {
    v.map_values(|x: String| x@)
}

/// Splitting never yields an empty result.
pub proof fn lemma_split_len(s: Seq<char>, sep: char)
    ensures
        split_on(s, sep).len() >= 1,
    decreases s.len(),
{
    if s.len() > 0 {
        lemma_split_len(s.skip(1), sep);
    }
}

/// A string without the separator splits into just itself.
pub proof fn lemma_split_no_sep(s: Seq<char>, sep: char)
    requires
        forall|i: int| 0 <= i < s.len() ==> s[i] != sep,
    ensures
        split_on(s, sep) == seq![s],
    decreases s.len(),
{
    if s.len() > 0 {
        lemma_split_no_sep(s.skip(1), sep);
        let rest = split_on(s.skip(1), sep);
        assert(seq![s[0]] + rest[0] =~= s);
        assert(rest.skip(1) =~= Seq::<Seq<char>>::empty());
        assert(split_on(s, sep) =~= seq![s]);
    } else {
        assert(s =~= Seq::<char>::empty());
        assert(split_on(s, sep) =~= seq![s]);
    }
}

/// Splitting at the first separator: the clean part before it becomes
/// the first piece, and the rest splits on its own.
pub proof fn lemma_split_concat(a: Seq<char>, b: Seq<char>, sep: char)
    requires
        forall|i: int| 0 <= i < a.len() ==> a[i] != sep,
    ensures
        split_on(a + seq![sep] + b, sep) == seq![a] + split_on(b, sep),
    decreases a.len(),
{
    let s = a + seq![sep] + b;
    if a.len() == 0 {
        assert(s.len() == 1 + b.len());
        assert(s[0] == sep);
        assert forall|i: int| 0 <= i < b.len() implies s.skip(1)[i] == b[i] by {
            assert(s[i + 1] == b[i]);
        }
        assert(s.skip(1) =~= b);
        assert(a =~= Seq::<char>::empty());
        assert(split_on(s, sep) =~= seq![a] + split_on(b, sep));
    } else {
        assert(s[0] == a[0]);
        assert(s.skip(1) =~= a.skip(1) + seq![sep] + b);
        lemma_split_concat(a.skip(1), b, sep);
        let rest = split_on(s.skip(1), sep);
        lemma_split_len(b, sep);
        assert(rest[0] == a.skip(1));
        assert(seq![s[0]] + rest[0] =~= a);
        assert(rest.skip(1) =~= split_on(b, sep));
        assert(split_on(s, sep) =~= seq![a] + split_on(b, sep));
    }
}

/// Splits `s` at every occurrence of `sep`.
pub fn split_str(s: &str, sep: char) -> (parts: Vec<String>)
    ensures
        views_of(parts@) == split_on(s@, sep),
{
    let n = s.unicode_len();
    let mut parts: Vec<String> = Vec::new();
    let mut start: usize = 0;
    let mut i: usize = 0;
    proof {
        assert(views_of(parts@) =~= Seq::<Seq<char>>::empty());
        assert(s@.skip(0) =~= s@);
        assert(views_of(parts@) + split_on(s@, sep) =~= split_on(s@, sep));
    }
    while i < n
        invariant
            start <= i <= n,
            n == s@.len(),
            split_on(s@, sep) == views_of(parts@) + split_on(s@.skip(start as int), sep),
            forall|j: int| start <= j < i ==> s@[j] != sep,
        decreases n - i,
    {
        let c = s.get_char(i);
        if c == sep {
            let part = s.substring_char(start, i);
            let ghost prev = parts@;
            parts.push(part.to_owned());
            proof {
                let tail = s@.skip(start as int);
                assert(tail =~= part@ + seq![sep] + s@.skip(i + 1));
                lemma_split_concat(part@, s@.skip(i + 1), sep);
                assert(views_of(parts@) =~= views_of(prev) + seq![part@]);
                assert(views_of(prev) + (seq![part@] + split_on(s@.skip(i + 1), sep))
                    =~= (views_of(prev) + seq![part@]) + split_on(s@.skip(i + 1), sep));
            }
            start = i + 1;
        }
        i = i + 1;
    }
    let last = s.substring_char(start, n);
    let ghost prev = parts@;
    parts.push(last.to_owned());
    proof {
        assert(s@.skip(start as int) =~= last@);
        lemma_split_no_sep(last@, sep);
        assert(views_of(parts@) =~= views_of(prev) + seq![last@]);
    }
    parts
}

/// `s` without its leading whitespace.
pub open spec fn trim_start_rec(s: Seq<char>) -> Seq<char>
    decreases s.len(),
{
    if s.len() > 0 && is_space(s[0]) {
        trim_start_rec(s.skip(1))
    } else {
        s
    }
}

/// `s` without its trailing whitespace.
pub open spec fn trim_end_rec(s: Seq<char>) -> Seq<char>
    decreases s.len(),
{
    if s.len() > 0 && is_space(s.last()) {
        trim_end_rec(s.drop_last())
    } else {
        s
    }
}

/// `s` without whitespace at either end.
pub open spec fn spec_trim(s: Seq<char>) -> Seq<char> {
    trim_end_rec(trim_start_rec(s))
}

/// Dropping a whitespace prefix does not change the trimmed string.
proof fn lemma_trim_start_skip(s: Seq<char>, a: int)
    requires
        0 <= a <= s.len(),
        forall|j: int| 0 <= j < a ==> is_space(s[j]),
    ensures
        trim_start_rec(s) == trim_start_rec(s.skip(a)),
    decreases a,
{
    if a > 0 {
        assert(is_space(s[0]));
        lemma_trim_start_skip(s.skip(1), a - 1);
        assert(s.skip(1).skip(a - 1) =~= s.skip(a));
    } else {
        assert(s.skip(0) =~= s);
    }
}

/// Dropping a whitespace suffix does not change the trimmed string.
proof fn lemma_trim_end_take(s: Seq<char>, b: int)
    requires
        0 <= b <= s.len(),
        forall|j: int| b <= j < s.len() ==> is_space(s[j]),
    ensures
        trim_end_rec(s) == trim_end_rec(s.take(b)),
    decreases s.len() - b,
{
    if b < s.len() {
        assert(is_space(s.last()));
        lemma_trim_end_take(s.drop_last(), b);
        assert(s.drop_last().take(b) =~= s.take(b));
    } else {
        assert(s.take(b) =~= s);
    }
}

/// A string with no whitespace at either end trims to itself.
pub proof fn lemma_trim_identity(s: Seq<char>)
    requires
        s.len() > 0,
        !is_space(s[0]),
        !is_space(s.last()),
    ensures
        spec_trim(s) == s,
{
}

/// Strips leading and trailing whitespace.
pub fn trim_str<'a>(s: &'a str) -> (r: &'a str)
    ensures
        r@ == spec_trim(s@),
{
    let n = s.unicode_len();
    let mut a: usize = 0;
    while a < n && is_space_char(s.get_char(a))
        invariant
            a <= n,
            n == s@.len(),
            forall|j: int| 0 <= j < a ==> is_space(s@[j]),
        decreases n - a,
    {
        a = a + 1;
    }
    proof {
        lemma_trim_start_skip(s@, a as int);
    }
    if a == n {
        proof {
            assert(s@.skip(a as int) =~= Seq::<char>::empty());
        }
        let r = s.substring_char(n, n);
        proof {
            assert(r@ =~= Seq::<char>::empty());
        }
        return r;
    }
    let mut b: usize = n;
    while b > a + 1 && is_space_char(s.get_char(b - 1))
        invariant
            a < b <= n,
            n == s@.len(),
            forall|j: int| b <= j < n ==> is_space(s@[j]),
        decreases b,
    {
        b = b - 1;
    }
    let r = s.substring_char(a, b);
    proof {
        let t = s@.skip(a as int);
        assert(!is_space(t[0]));
        lemma_trim_end_take(t, b - a);
        assert(t.take(b - a) =~= s@.subrange(a as int, b as int));
        assert(t.take(b - a).last() == s@[b - 1]);
        assert(!is_space(s@[b - 1]));
    }
    r
}

/// Whether `c` counts as trimmable whitespace.
fn is_space_char(c: char) -> (r: bool)
    ensures
        r == is_space(c),
{
    c == ' ' || c == '\t' || c == '\r' || c == '\n'
}

/// The one-character string for a digit value.
fn digit_str(d: u64) -> (r: &'static str)
    requires
        d < 10,
    ensures
        r@ =~= seq![digit_char(d as int)],
{
    proof {
        reveal_strlit("0");
        reveal_strlit("1");
        reveal_strlit("2");
        reveal_strlit("3");
        reveal_strlit("4");
        reveal_strlit("5");
        reveal_strlit("6");
        reveal_strlit("7");
        reveal_strlit("8");
        reveal_strlit("9");
    }
    match d {
        0 => "0",
        1 => "1",
        2 => "2",
        3 => "3",
        4 => "4",
        5 => "5",
        6 => "6",
        7 => "7",
        8 => "8",
        _ => "9",
    }
}

/// The decimal digits of an unsigned value.
fn u64_digits(n: u64) -> (r: String)
    ensures
        r@ == digits_of(n as nat),
    decreases n,
{
    if n < 10 {
        digit_str(n).to_owned()
    } else {
        let mut s = u64_digits(n / 10);
        s.append(digit_str(n % 10));
        s
    }
}

/// Renders a balance amount as its plain decimal text.
pub fn balance_repr(v: i64) -> (r: String)
    ensures
        r@ == int_repr(v as int),
{
    if v >= 0 {
        u64_digits(v as u64)
    } else {
        let mag: u64 = (-(v as i128)) as u64;
        let mut s = "-".to_owned();
        proof {
            reveal_strlit("-");
            assert("-"@ =~= seq!['-']);
        }
        s.append(u64_digits(mag).as_str());
        s
    }
}

/// Parses a decimal balance; mirrors `parse_int` on the view.
pub fn parse_balance(s: &str) -> (r: Option<i64>)
    ensures
        match parse_int(s@) {
            Some(v) => r matches Some(x) && x as int == v,
            None => r is None,
        },
{
    let n = s.unicode_len();
    if n == 0 {
        return None;
    }
    let c0 = s.get_char(0);
    let neg = c0 == '-';
    let start: usize = if c0 == '-' || c0 == '+' {
        1
    } else {
        0
    };
    if start == n {
        return None;
    }
    let ghost body = s@.skip(start as int);
    proof {
        if start == 0 {
            assert(body =~= s@);
        }
    }
    let mut acc: u64 = 0;
    let mut i: usize = start;
    while i < n
        invariant
            start <= i <= n,
            n == s@.len(),
            start < n,
            body == s@.skip(start as int),
            start == 0 || start == 1,
            (s@[0] == '-' || s@[0] == '+') <==> start == 1,
            start == 0 ==> body == s@,
            all_digits(body.take(i - start)),
            acc == digits_val(body.take(i - start)),
        decreases n - i,
    {
        let c = s.get_char(i);
        let u = c as u32;
        proof {
            assert(body[i - start] == s@[i as int]);
        }
        if u < 48 || u > 57 {
            proof {
                assert(!is_digit(body[i - start]));
                assert(!all_digits(body));
            }
            return None;
        }
        let d = (u - 48) as u64;
        proof {
            assert(body.take(i - start + 1).drop_last() =~= body.take(i - start));
            assert(body.take(i - start + 1).last() == body[i - start]);
        }
        if acc > 1844674407370955160u64 {
            proof {
                if all_digits(body) {
                    lemma_digits_val_prefix(body, i - start + 1);
                    assert(digits_val(body.take(i - start + 1)) == acc * 10 + d);
                    assert(digits_val(body) > 9223372036854775808int);
                }
            }
            return None;
        }
        acc = acc * 10 + d;
        i = i + 1;
    }
    proof {
        assert(body.take(n - start) =~= body);
    }
    if neg {
        if acc > 9223372036854775808u64 {
            return None;
        }
        Some((-(acc as i128)) as i64)
    } else {
        if acc > 9223372036854775807u64 {
            return None;
        }
        Some(acc as i64)
    }
}

/// One record before its terminating newline: `name,balance`.
pub open spec fn line_body(name: Seq<char>, v: int) -> Seq<char> {
    name + seq![','] + int_repr(v)
}

/// The full encoding: one terminated record line per entry, in order.
pub open spec fn encode_model(t: Seq<(Seq<char>, int)>) -> Seq<char>
    decreases t.len(),
{
    if t.len() == 0 {
        Seq::empty()
    } else {
        (line_body(t[0].0, t[0].1) + seq!['\n']) + encode_model(t.skip(1))
    }
}

/// What one decoded line contributes: nothing, an account entry, or a
/// malformed balance that fails the whole decode.
pub enum LineForm {
    Skip,
    Entry(Seq<char>, int),
    Bad,
}

/// The reading of one line: trimmed, it must have exactly two
/// comma-separated fields, the second a well-formed balance.
pub open spec fn line_parse(line: Seq<char>) -> LineForm {
    let parts = split_on(spec_trim(line), ',');
    if parts.len() != 2 {
        LineForm::Skip
    } else {
        match parse_int(parts[1]) {
            Some(v) => LineForm::Entry(parts[0], v),
            None => LineForm::Bad,
        }
    }
}

/// The store contents described by a sequence of lines, each entry
/// inserted in order; nothing when some line has a malformed balance.
pub open spec fn decode_lines(lines: Seq<Seq<char>>) -> Option<Map<Seq<char>, int>>
    decreases lines.len(),
{
    if lines.len() == 0 {
        Some(Map::empty())
    } else {
        match decode_lines(lines.drop_last()) {
            None => None,
            Some(m) => match line_parse(lines.last()) {
                LineForm::Skip => Some(m),
                LineForm::Bad => None,
                LineForm::Entry(n, v) => Some(m.insert(n, v)),
            },
        }
    }
}

/// The store contents described by an encoded text, line by line.
pub open spec fn spec_decode(data: Seq<char>) -> Option<Map<Seq<char>, int>> {
    decode_lines(split_on(data, '\n'))
}

/// Once a prefix of the lines fails to decode, the whole fails.
proof fn lemma_decode_none(lines: Seq<Seq<char>>, i: int)
    requires
        0 <= i <= lines.len(),
        decode_lines(lines.take(i)) is None,
    ensures
        decode_lines(lines) is None,
    decreases lines.len() - i,
{
    if i < lines.len() {
        assert(lines.take(i + 1).drop_last() =~= lines.take(i));
        lemma_decode_none(lines, i + 1);
    } else {
        assert(lines.take(i) =~= lines);
    }
}

/// A name that survives the encoding unchanged: it contains neither
/// separator character and does not start with trimmable whitespace.
pub open spec fn name_encodable(n: Seq<char>) -> bool {
    &&& !n.contains(',')
    &&& !n.contains('\n')
    &&& (n.len() > 0 ==> !is_space(n[0]))
}

/// Every entry has an encodable name and a balance of the balance type.
pub open spec fn entries_encodable(t: Seq<(Seq<char>, int)>) -> bool {
    forall|i: int|
        0 <= i < t.len() ==> name_encodable(#[trigger] t[i].0) && in_i64(t[i].1)
}

/// The name-to-balance map described by a sequence of entry views.
pub open spec fn map_of_views(t: Seq<(Seq<char>, int)>) -> Map<Seq<char>, int>
    decreases t.len(),
{
    if t.len() == 0 {
        Map::empty()
    } else {
        map_of_views(t.drop_last()).insert(t.last().0, t.last().1)
    }
}

/// `map_of_views` of the entry views agrees with `map_of`.
pub proof fn lemma_map_of_views(s: Seq<(crate::storage::Name, Balance)>)
    ensures
        map_of_views(pairs_views(s)) == crate::storage::map_of(s),
    decreases s.len(),
{
    if s.len() > 0 {
        lemma_map_of_views(s.drop_last());
        assert(pairs_views(s).drop_last() =~= pairs_views(s.drop_last()));
        assert(pairs_views(s).last() == (s.last().0@, s.last().1@));
    } else {
        assert(pairs_views(s).len() == 0);
    }
}

/// An encoded record line reads back as exactly its entry.
proof fn lemma_line_round_trip(name: Seq<char>, v: int)
    requires
        name_encodable(name),
        in_i64(v),
    ensures
        line_parse(line_body(name, v)) == LineForm::Entry(name, v),
{
    let repr = int_repr(v);
    let body = line_body(name, v);
    lemma_parse_int_repr(v);
    if v < 0 {
        lemma_digits_of_val((-v) as nat);
        assert(repr.skip(1) =~= digits_of((-v) as nat));
        assert(forall|i: int| 1 <= i < repr.len() ==> is_digit(#[trigger] repr[i]));
    } else {
        lemma_digits_of_val(v as nat);
    }
    assert(repr.len() > 0);
    assert(forall|i: int| 0 <= i < repr.len() ==> repr[i] == '-' || is_digit(#[trigger] repr[i]));
    assert(forall|i: int| 0 <= i < repr.len() ==> repr[i] != ',' && !is_space(#[trigger] repr[i]));
    assert(forall|i: int| 0 <= i < name.len() ==> #[trigger] body[i] == name[i]);
    assert(body[name.len() as int] == ',');
    assert(forall|i: int|
        0 <= i < repr.len() ==> #[trigger] body[name.len() + 1 + i] == repr[i]);
    assert(body.len() == name.len() + 1 + repr.len());
    assert(body.last() == repr.last());
    if name.len() > 0 {
        assert(body[0] == name[0]);
    } else {
        assert(body[0] == ',');
    }
    lemma_trim_identity(body);
    assert(forall|i: int| 0 <= i < name.len() ==> #[trigger] name[i] != ',');
    lemma_split_concat(name, repr, ',');
    lemma_split_no_sep(repr, ',');
    let parts = split_on(spec_trim(body), ',');
    assert(parts =~= seq![name] + seq![repr]);
    assert(parts.len() == 2);
    assert(parts[0] == name);
    assert(parts[1] == repr);
}

/// Splitting an encoding on newlines yields one body per entry plus a
/// final empty piece.
proof fn lemma_split_encode(t: Seq<(Seq<char>, int)>)
    requires
        entries_encodable(t),
    ensures
        split_on(encode_model(t), '\n') == t.map_values(
            |p: (Seq<char>, int)| line_body(p.0, p.1),
        ) + seq![Seq::<char>::empty()],
    decreases t.len(),
{
    let bodies = t.map_values(|p: (Seq<char>, int)| line_body(p.0, p.1));
    if t.len() == 0 {
        assert(encode_model(t) =~= Seq::<char>::empty());
        assert(split_on(encode_model(t), '\n') =~= bodies + seq![Seq::<char>::empty()]);
    } else {
        let body0 = line_body(t[0].0, t[0].1);
        let repr = int_repr(t[0].1);
        if t[0].1 < 0 {
            lemma_digits_of_val((-t[0].1) as nat);
            assert(repr.skip(1) =~= digits_of((-t[0].1) as nat));
            assert(forall|i: int| 1 <= i < repr.len() ==> is_digit(#[trigger] repr[i]));
        } else {
            lemma_digits_of_val(t[0].1 as nat);
        }
        assert(forall|i: int|
            0 <= i < repr.len() ==> repr[i] == '-' || is_digit(#[trigger] repr[i]));
        assert(forall|i: int| 0 <= i < body0.len() ==> #[trigger] body0[i] != '\n') by {
            assert(forall|i: int| 0 <= i < t[0].0.len() ==> #[trigger] t[0].0[i] != '\n');
            assert(forall|i: int| 0 <= i < t[0].0.len() ==> #[trigger] body0[i] == t[0].0[i]);
            assert(body0[t[0].0.len() as int] == ',');
            assert(forall|i: int|
                0 <= i < repr.len() ==> #[trigger] body0[t[0].0.len() + 1 + i] == repr[i]);
        }
        lemma_split_encode(t.skip(1));
        let rest = encode_model(t.skip(1));
        assert(encode_model(t) =~= body0 + seq!['\n'] + rest);
        lemma_split_concat(body0, rest, '\n');
        let tail_bodies = t.skip(1).map_values(|p: (Seq<char>, int)| line_body(p.0, p.1));
        assert(split_on(encode_model(t), '\n') =~= seq![body0] + (tail_bodies + seq![
            Seq::<char>::empty(),
        ]));
        assert(forall|i: int| 0 <= i < t.skip(1).len() ==> #[trigger] tail_bodies[i] == bodies[
            i + 1
        ]);
        assert(split_on(encode_model(t), '\n') =~= bodies + seq![Seq::<char>::empty()]);
    }
}

/// Decoding the encoded bodies, in order, rebuilds exactly the map of
/// the entries.
proof fn lemma_decode_bodies(t: Seq<(Seq<char>, int)>)
    requires
        entries_encodable(t),
    ensures
        decode_lines(t.map_values(|p: (Seq<char>, int)| line_body(p.0, p.1)))
            == Some(map_of_views(t)),
    decreases t.len(),
{
    let bodies = t.map_values(|p: (Seq<char>, int)| line_body(p.0, p.1));
    if t.len() == 0 {
        assert(bodies.len() == 0);
    } else {
        lemma_decode_bodies(t.drop_last());
        assert(bodies.drop_last() =~= t.drop_last().map_values(
            |p: (Seq<char>, int)| line_body(p.0, p.1),
        ));
        assert(bodies.last() == line_body(t.last().0, t.last().1));
        lemma_line_round_trip(t.last().0, t.last().1);
    }
}

/// The empty trailing piece after the last newline decodes to nothing.
proof fn lemma_empty_line_skipped(lines: Seq<Seq<char>>)
    requires
        lines.len() > 0,
        lines.last() == Seq::<char>::empty(),
    ensures
        decode_lines(lines) == decode_lines(lines.drop_last()),
{
    let e = Seq::<char>::empty();
    assert(spec_trim(e) == e);
    assert(split_on(e, ',').len() == 1);
    assert(line_parse(e) == LineForm::Skip);
}

/// Round trip: the encoding of a store decodes back to exactly the
/// store's contents, for account names that survive the encoding.
pub proof fn lemma_encode_decode_round_trip(s: Storage)
    requires
        s.wf(),
        forall|i: int|
            0 <= i < s.entries().len() ==> name_encodable(#[trigger] s.entries()[i].0@),
    ensures
        spec_decode(encode_model(pairs_views(s.entries()))) == Some(s@),
{
    s.lemma_entries();
    let t = pairs_views(s.entries());
    assert(entries_encodable(t)) by {
        assert forall|i: int| 0 <= i < t.len() implies name_encodable(#[trigger] t[i].0)
            && in_i64(t[i].1) by {
            assert(t[i] == (s.entries()[i].0@, s.entries()[i].1@));
            crate::storage::lemma_balance_range(s.entries()[i].1);
        }
    }
    lemma_split_encode(t);
    let bodies = t.map_values(|p: (Seq<char>, int)| line_body(p.0, p.1));
    let lines = bodies + seq![Seq::<char>::empty()];
    lemma_empty_line_skipped(lines);
    assert(lines.drop_last() =~= bodies);
    lemma_decode_bodies(t);
    lemma_map_of_views(s.entries());
}

impl Storage {
    /// Serializes every account as a `name,balance` line.
    pub fn encode(&self) -> (r: String)
        requires
            self.wf(),
        ensures
            r@ == encode_model(pairs_views(self.entries())),
    {
        let all = self.get_all();
        let ghost t = pairs_views(all@);
        let mut out = String::new();
        let n = all.len();
        let mut i: usize = 0;
        proof {
            assert(t.skip(0) =~= t);
            assert(out@ + encode_model(t) =~= encode_model(t));
        }
        while i < n
            invariant
                i <= n,
                n == all@.len(),
                t == pairs_views(all@),
                out@ + encode_model(t.skip(i as int)) == encode_model(t),
            decreases n - i,
        {
            let ghost prev = out@;
            out.append(all[i].0.as_str());
            out.append(",");
            let repr = balance_repr(all[i].1.value());
            out.append(repr.as_str());
            out.append("\n");
            proof {
                reveal_strlit(",");
                reveal_strlit("\n");
                assert(","@ =~= seq![',']);
                assert("\n"@ =~= seq!['\n']);
                let rest = t.skip(i as int);
                assert(rest[0] == (all@[i as int].0@, all@[i as int].1@));
                assert(rest.skip(1) =~= t.skip(i + 1));
                let line = line_body(rest[0].0, rest[0].1) + seq!['\n'];
                assert(out@ =~= prev + line);
                assert(prev + (line + encode_model(t.skip(i + 1)))
                    =~= (prev + line) + encode_model(t.skip(i + 1)));
            }
            i = i + 1;
        }
        proof {
            assert(t.skip(n as int) =~= Seq::<(Seq<char>, int)>::empty());
            assert(out@ + encode_model(t.skip(n as int)) =~= out@);
        }
        out
    }

    /// Rebuilds a store from its encoded text. Trimmed lines without
    /// exactly two comma-separated fields are skipped; a two-field line
    /// whose balance does not parse fails the whole decode; a later
    /// line overwrites an earlier one carrying the same name.
    pub fn from_encoded(data: &str) -> (r: Result<Storage, BankError>)
        ensures
            match spec_decode(data@) {
                Some(m) => r matches Ok(s) && s.wf() && s@ == m,
                None => r matches Err(e) && e is System,
            },
    {
        let lines = split_str(data, '\n');
        let ghost lviews = views_of(lines@);
        let mut storage = Storage::new();
        let n = lines.len();
        let mut i: usize = 0;
        proof {
            assert(lviews.take(0) =~= Seq::<Seq<char>>::empty());
        }
        while i < n
            invariant
                i <= n,
                n == lines@.len(),
                lviews == views_of(lines@),
                lviews == split_on(data@, '\n'),
                storage.wf(),
                decode_lines(lviews.take(i as int)) == Some(storage@),
            decreases n - i,
        {
            proof {
                assert(lviews.take(i + 1).drop_last() =~= lviews.take(i as int));
                assert(lviews.take(i + 1).last() == lviews[i as int]);
            }
            let line = trim_str(lines[i].as_str());
            let parts = split_str(line, ',');
            proof {
                assert(lviews[i as int] == lines@[i as int]@);
                assert(views_of(parts@).len() == parts@.len());
            }
            if parts.len() == 2 {
                proof {
                    assert(views_of(parts@)[0] == parts@[0]@);
                    assert(views_of(parts@)[1] == parts@[1]@);
                }
                match parse_balance(parts[1].as_str()) {
                    Some(v) => {
                        let ghost before = storage@;
                        let name = &parts[0];
                        let _ = storage.remove_user(name);
                        let _ = storage.add_user(name.clone());
                        let _ = storage.deposit(name, Balance::new(v));
                        proof {
                            assert(storage@ =~= before.insert(name@, v as int));
                        }
                    },
                    None => {
                        proof {
                            lemma_decode_none(lviews, i + 1);
                        }
                        return Err(BankError::System("invalid balance record".to_owned()));
                    },
                }
            }
            i = i + 1;
        }
        proof {
            assert(lviews.take(n as int) =~= lviews);
        }
        Ok(storage)
    }

    /// The bootstrap store used when nothing has been persisted yet:
    /// a fixed set of seed accounts, each at zero.
    pub fn with_default_users() -> (s: Storage)
        ensures
            s.wf(),
            s@ == Map::<Seq<char>, int>::empty().insert("John"@, 0).insert("Alice"@, 0).insert(
                "Bob"@,
                0,
            ).insert("Vasya"@, 0),
    {
        proof {
            reveal_strlit("John");
            reveal_strlit("Alice");
            reveal_strlit("Bob");
            reveal_strlit("Vasya");
        }
        let mut s = Storage::new();
        let _ = s.add_user("John".to_owned());
        let _ = s.add_user("Alice".to_owned());
        let _ = s.add_user("Bob".to_owned());
        let _ = s.add_user("Vasya".to_owned());
        s
    }
}

} // verus!
