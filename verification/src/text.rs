//! Character-level string helpers with exact specifications.
use vstd::prelude::*;

verus! {

/// `String::push` appends one character.
pub assume_specification[ String::push ](s: &mut String, ch: char)
    ensures
        final(s)@ == old(s)@.push(ch),
;

/// The characters of `s`, in order.
pub fn chars_of(s: &str) -> (out: Vec<char>)
    ensures
        out@ == s@,
{
    let mut out: Vec<char> = Vec::new();
    for c in it: s.chars()
        invariant
            out@ == it.seq().take(it.index() as int),
    {
        out.push(c);
    }
    out
}


/// The character of a decimal digit.
pub open spec fn digit_char(d: int) -> char {
    if d == 0 { '0' } else if d == 1 { '1' } else if d == 2 { '2' } else if d == 3 { '3' }
    else if d == 4 { '4' } else if d == 5 { '5' } else if d == 6 { '6' } else if d == 7 { '7' }
    else if d == 8 { '8' } else { '9' }
}

/// The value of a decimal digit character.
pub open spec fn char_digit(c: char) -> int {
    if c == '0' { 0 } else if c == '1' { 1 } else if c == '2' { 2 } else if c == '3' { 3 }
    else if c == '4' { 4 } else if c == '5' { 5 } else if c == '6' { 6 } else if c == '7' { 7 }
    else if c == '8' { 8 } else { 9 }
}

pub open spec fn is_digit(c: char) -> bool {
    '0' <= c && c <= '9'
}

/// Decimal digits of a natural number, most significant first, without leading zeros.
pub open spec fn nat_digits(n: nat) -> Seq<char>
    decreases n,
{
    if n < 10 {
        seq![digit_char(n as int)]
    } else {
        nat_digits(n / 10).push(digit_char((n % 10) as int))
    }
}

/// Decimal text of an integer, as `to_string` writes it.
pub open spec fn decimal(n: int) -> Seq<char> {
    if n < 0 {
        seq!['-'] + nat_digits((-n) as nat)
    } else {
        nat_digits(n as nat)
    }
}

fn digit_to_char(d: u8) -> (c: char)
    requires
        d < 10,
    ensures
        c == digit_char(d as int),
{
    match d {
        0 => '0',
        1 => '1',
        2 => '2',
        3 => '3',
        4 => '4',
        5 => '5',
        6 => '6',
        7 => '7',
        8 => '8',
        _ => '9',
    }
}

/// Appends the decimal digits of `n` to `s`.
pub fn push_nat_digits(s: &mut String, n: u128)
    ensures
        final(s)@ == old(s)@ + nat_digits(n as nat),
    decreases n,
{
    if n >= 10 {
        push_nat_digits(s, n / 10);
    }
    let d = (n % 10) as u8;
    s.push(digit_to_char(d));
    assert(final(s)@ =~= old(s)@ + nat_digits(n as nat));
}

/// Appends the decimal text of `n` to `s`, as `to_string` writes it.
pub fn push_decimal(s: &mut String, n: i128)
    ensures
        final(s)@ == old(s)@ + decimal(n as int),
{
    if n < 0 {
        s.push('-');
        let mag: u128 = if n == i128::MIN { (i128::MAX as u128) + 1 } else { (-n) as u128 };
        push_nat_digits(s, mag);
        assert(final(s)@ =~= old(s)@ + decimal(n as int));
    } else {
        push_nat_digits(s, n as u128);
    }
}

/// The decimal text of `n`, as `to_string` writes it.
pub fn int_to_string(n: i128) -> (s: String)
    ensures
        s@ == decimal(n as int),
{
    let mut s = String::new();
    push_decimal(&mut s, n);
    assert(s@ =~= decimal(n as int));
    s
}


pub open spec fn all_digits(s: Seq<char>) -> bool {
    forall|i: int| 0 <= i < s.len() ==> is_digit(#[trigger] s[i])
}

/// The value of a string of decimal digits.
pub open spec fn digits_value(s: Seq<char>) -> nat
    decreases s.len(),
{
    if s.len() == 0 {
        0
    } else {
        digits_value(s.drop_last()) * 10 + char_digit(s.last()) as nat
    }
}

/// What `str::parse` gives for an integer type whose values are `lo..=hi`:
/// an optional sign (`-` only where the type is `signed`), then one or more
/// ASCII digits, whose value must lie in the range.
pub open spec fn parse_int_spec(s: Seq<char>, lo: int, hi: int, signed: bool) -> Option<int> {
    let neg = s.len() > 0 && s[0] == '-' && signed;
    let has_sign = s.len() > 0 && (s[0] == '+' || neg);
    let ds = if has_sign { s.drop_first() } else { s };
    if ds.len() == 0 || !all_digits(ds) {
        None
    } else {
        let v = if neg { -(digits_value(ds) as int) } else { digits_value(ds) as int };
        if lo <= v && v <= hi { Some(v) } else { None }
    }
}

proof fn lemma_digits_value_prefix(s: Seq<char>, k: int)
    requires
        0 <= k <= s.len(),
    ensures
        digits_value(s.take(k)) <= digits_value(s),
    decreases s.len(),
{
    if k < s.len() {
        assert(s.drop_last().take(k) =~= s.take(k));
        lemma_digits_value_prefix(s.drop_last(), k);
    } else {
        assert(s.take(k) =~= s);
    }
}

fn char_to_digit(c: char) -> (d: Option<u8>)
    ensures
        d is Some <==> is_digit(c),
        d matches Some(v) ==> v < 10 && v as int == char_digit(c),
{
    match c {
        '0' => Some(0),
        '1' => Some(1),
        '2' => Some(2),
        '3' => Some(3),
        '4' => Some(4),
        '5' => Some(5),
        '6' => Some(6),
        '7' => Some(7),
        '8' => Some(8),
        '9' => Some(9),
        _ => None,
    }
}

/// Reads an integer of the range `lo..=hi` from `s` as `str::parse` does.
pub fn parse_integer(s: &str, lo: i128, hi: i128, signed: bool) -> (r: Option<i128>)
    requires
        lo <= hi,
        -0x1_0000_0000_0000_0000 <= lo,
        hi <= 0x1_0000_0000_0000_0000,
    ensures
        r is Some <==> parse_int_spec(s@, lo as int, hi as int, signed) is Some,
        r matches Some(v) ==> parse_int_spec(s@, lo as int, hi as int, signed) == Some(v as int),
{
    let cs = chars_of(s);
    let n = cs.len();
    let neg = n > 0 && cs[0] == '-' && signed;
    let has_sign = n > 0 && (cs[0] == '+' || neg);
    let start: usize = if has_sign { 1 } else { 0 };
    let ghost ds = if has_sign { s@.drop_first() } else { s@ };
    if start >= n {
        return None;
    }
    let mut acc: u128 = 0;
    let mut i: usize = start;
    while i < n
        invariant
            cs@ == s@,
            n == cs@.len(),
            start <= i <= n,
            start < n,
            ds == cs@.subrange(start as int, n as int),
            acc == digits_value(ds.take(i - start)),
            all_digits(ds.take(i - start)),
            acc <= 0x1_0000_0000_0000_0000,
            neg == (s@.len() > 0 && s@[0] == '-' && signed),
            has_sign == (s@.len() > 0 && (s@[0] == '+' || neg)),
            ds == (if has_sign { s@.drop_first() } else { s@ }),
            start == (if has_sign { 1usize } else { 0usize }),
            -0x1_0000_0000_0000_0000 <= lo <= hi <= 0x1_0000_0000_0000_0000,
        decreases n - i,
    {
        let c = cs[i];
        assert(ds[i - start] == c);
        match char_to_digit(c) {
            None => {
                assert(!all_digits(ds));
                return None;
            },
            Some(d) => {
                assert(ds.take(i + 1 - start).drop_last() =~= ds.take(i - start));
                acc = acc * 10 + d as u128;
                assert(acc == digits_value(ds.take(i + 1 - start)));
                assert(all_digits(ds.take(i + 1 - start)));
                if acc > 0x1_0000_0000_0000_0000 {
                    proof {
                        lemma_digits_value_prefix(ds, i + 1 - start);
                    }
                    return None;
                }
            },
        }
        i = i + 1;
    }
    assert(ds.take(n - start) =~= ds);
    let v: i128 = if neg { -(acc as i128) } else { acc as i128 };
    if lo <= v && v <= hi {
        Some(v)
    } else {
        None
    }
}

/// `str::parse::<i32>`.
pub fn parse_i32(s: &str) -> (r: Option<i32>)
    ensures
        r is Some <==> parse_int_spec(s@, i32::MIN as int, i32::MAX as int, true) is Some,
        r matches Some(v) ==> parse_int_spec(s@, i32::MIN as int, i32::MAX as int, true) == Some(v as int),
{
    match parse_integer(s, i32::MIN as i128, i32::MAX as i128, true) {
        Some(v) => Some(v as i32),
        None => None,
    }
}

/// `str::parse::<i8>`.
pub fn parse_i8(s: &str) -> (r: Option<i8>)
    ensures
        r is Some <==> parse_int_spec(s@, i8::MIN as int, i8::MAX as int, true) is Some,
        r matches Some(v) ==> parse_int_spec(s@, i8::MIN as int, i8::MAX as int, true) == Some(v as int),
{
    match parse_integer(s, i8::MIN as i128, i8::MAX as i128, true) {
        Some(v) => Some(v as i8),
        None => None,
    }
}

/// `str::parse::<u64>`.
pub fn parse_u64(s: &str) -> (r: Option<u64>)
    ensures
        r is Some <==> parse_int_spec(s@, 0, u64::MAX as int, false) is Some,
        r matches Some(v) ==> parse_int_spec(s@, 0, u64::MAX as int, false) == Some(v as int),
{
    match parse_integer(s, 0, u64::MAX as i128, false) {
        Some(v) => Some(v as u64),
        None => None,
    }
}

/// `str::parse::<u16>`.
pub fn parse_u16(s: &str) -> (r: Option<u16>)
    ensures
        r is Some <==> parse_int_spec(s@, 0, u16::MAX as int, false) is Some,
        r matches Some(v) ==> parse_int_spec(s@, 0, u16::MAX as int, false) == Some(v as int),
{
    match parse_integer(s, 0, u16::MAX as i128, false) {
        Some(v) => Some(v as u16),
        None => None,
    }
}

/// `str::parse::<u8>`.
pub fn parse_u8(s: &str) -> (r: Option<u8>)
    ensures
        r is Some <==> parse_int_spec(s@, 0, u8::MAX as int, false) is Some,
        r matches Some(v) ==> parse_int_spec(s@, 0, u8::MAX as int, false) == Some(v as int),
{
    match parse_integer(s, 0, u8::MAX as i128, false) {
        Some(v) => Some(v as u8),
        None => None,
    }
}


proof fn lemma_digit_char(d: int)
    requires
        0 <= d < 10,
    ensures
        char_digit(digit_char(d)) == d,
        is_digit(digit_char(d)),
{
}

pub proof fn lemma_nat_digits(n: nat)
    ensures
        nat_digits(n).len() >= 1,
        all_digits(nat_digits(n)),
        is_digit(nat_digits(n)[0]),
        digits_value(nat_digits(n)) == n,
    decreases n,
{
    lemma_digit_char((n % 10) as int);
    if n < 10 {
        assert(nat_digits(n).drop_last() =~= Seq::<char>::empty());
        assert(digits_value(Seq::<char>::empty()) == 0);
        assert(nat_digits(n).last() == digit_char(n as int));
    } else {
        lemma_nat_digits(n / 10);
        assert(nat_digits(n).drop_last() =~= nat_digits(n / 10));
        assert(nat_digits(n).last() == digit_char((n % 10) as int));
        assert(digits_value(nat_digits(n)) == digits_value(nat_digits(n / 10)) * 10 + (n % 10));
    }
}

/// Reading back what `to_string` wrote gives the number again: for every
/// integer `n` in the range of a signed integer type, parsing its decimal
/// text gives `n`.
pub proof fn law_parse_reads_decimal(n: int, lo: int, hi: int)
    requires
        lo <= n <= hi,
    ensures
        parse_int_spec(decimal(n), lo, hi, true) == Some(n),
{
    if n < 0 {
        lemma_nat_digits((-n) as nat);
        assert(decimal(n).drop_first() =~= nat_digits((-n) as nat));
    } else {
        lemma_nat_digits(n as nat);
    }
}


/// The items of `list` with `sep` between neighbours, as `[T]::join` builds it.
pub open spec fn seq_join(list: Seq<Seq<char>>, sep: Seq<char>) -> Seq<char>
    decreases list.len(),
{
    if list.len() == 0 {
        Seq::empty()
    } else if list.len() == 1 {
        list[0]
    } else {
        seq_join(list.drop_last(), sep) + sep + list.last()
    }
}

/// The views of a list of strings.
pub open spec fn views(list: Seq<String>) -> Seq<Seq<char>> {
    list.map_values(|s: String| s@)
}

/// `list.join(sep)`.
pub fn join(list: &Vec<String>, sep: &str) -> (res: String)
    ensures
        res@ == seq_join(views(list@), sep@),
{
    let mut res = String::new();
    let ghost all = views(list@);
    let mut i: usize = 0;
    while i < list.len()
        invariant
            i <= list@.len(),
            all == views(list@),
            res@ == seq_join(all.take(i as int), sep@),
        decreases list.len() - i,
    {
        if i != 0 {
            res.append(sep);
        }
        res.append(list[i].as_str());
        assert(all.take(i + 1).drop_last() =~= all.take(i as int));
        i = i + 1;
    }
    assert(all.take(list@.len() as int) =~= all);
    res
}


/// The pieces of `s` between the occurrences of `c`, as `str::split(c)` yields them.
pub open spec fn split_on(s: Seq<char>, c: char) -> Seq<Seq<char>>
    decreases s.len(),
{
    if s.len() == 0 {
        seq![Seq::<char>::empty()]
    } else {
        let rest = split_on(s.drop_last(), c);
        if s.last() == c {
            rest.push(Seq::<char>::empty())
        } else {
            rest.update(rest.len() - 1, rest.last().push(s.last()))
        }
    }
}

proof fn lemma_split_on_nonempty(s: Seq<char>, c: char)
    ensures
        split_on(s, c).len() >= 1,
    decreases s.len(),
{
    if s.len() > 0 {
        lemma_split_on_nonempty(s.drop_last(), c);
    }
}

/// A text none of whose characters is `c` holds no `c`.
pub proof fn lemma_count_none(s: Seq<char>, c: char)
    requires
        forall|i: int| 0 <= i < s.len() ==> s[i] != c,
    ensures
        count_char(s, c) == 0,
    decreases s.len(),
{
    if s.len() > 0 {
        lemma_count_none(s.drop_last(), c);
    }
}

/// A text without `c` splits on `c` into itself.
pub proof fn lemma_split_without(s: Seq<char>, c: char)
    requires
        count_char(s, c) == 0,
    ensures
        split_on(s, c) == seq![s],
    decreases s.len(),
{
    if s.len() > 0 {
        lemma_split_without(s.drop_last(), c);
        assert(s.drop_last().push(s.last()) =~= s);
    } else {
        assert(s =~= Seq::<char>::empty());
    }
}

/// Splitting on `c` at a `c` splits the two sides apart.
pub proof fn lemma_split_at(a: Seq<char>, b: Seq<char>, c: char)
    ensures
        split_on(a + seq![c] + b, c) == split_on(a, c) + split_on(b, c),
    decreases b.len(),
{
    if b.len() == 0 {
        assert(a + seq![c] + b =~= a.push(c));
        assert((a + seq![c] + b).drop_last() =~= a);
        assert(split_on(b, c) =~= seq![Seq::<char>::empty()]);
        assert(split_on(a, c).push(Seq::<char>::empty()) =~= split_on(a, c) + split_on(b, c));
    } else {
        let b0 = b.drop_last();
        lemma_split_at(a, b0, c);
        lemma_split_on_nonempty(b0, c);
        let whole = a + seq![c] + b;
        assert(whole.drop_last() =~= a + seq![c] + b0);
        assert(whole.last() == b.last());
        let left = split_on(a, c);
        let right = split_on(b0, c);
        if b.last() == c {
            assert((left + right).push(Seq::<char>::empty()) =~= left + right.push(Seq::<char>::empty()));
        } else {
            let joined = left + right;
            assert(joined.last() == right.last());
            assert(joined.update(joined.len() - 1, joined.last().push(b.last()))
                =~= left + right.update(right.len() - 1, right.last().push(b.last())));
        }
    }
}

/// Items without `c`, joined with `c` and then `t` between them (`t`
/// without `c`), split on `c` back into the items, each but the first
/// after `t`.
pub proof fn law_split_undoes_join(items: Seq<Seq<char>>, c: char, t: Seq<char>)
    requires
        items.len() >= 1,
        count_char(t, c) == 0,
        forall|k: int| 0 <= k < items.len() ==> count_char(#[trigger] items[k], c) == 0,
    ensures
        split_on(seq_join(items, seq![c] + t), c).len() == items.len(),
        split_on(seq_join(items, seq![c] + t), c)[0] == items[0],
        forall|k: int| 1 <= k < items.len() ==> #[trigger] split_on(seq_join(items, seq![c] + t), c)[k] == t + items[k],
    decreases items.len(),
{
    if items.len() == 1 {
        lemma_split_without(items[0], c);
    } else {
        let init = items.drop_last();
        law_split_undoes_join(init, c, t);
        let last = items.last();
        lemma_count_concat(t, last, c);
        lemma_split_without(t + last, c);
        let a = seq_join(init, seq![c] + t);
        assert(seq_join(items, seq![c] + t) == a + (seq![c] + t) + last);
        assert(a + (seq![c] + t) + last =~= a + seq![c] + (t + last));
        lemma_split_at(a, t + last, c);
        assert forall|k: int| 1 <= k < items.len() implies #[trigger] split_on(seq_join(items, seq![c] + t), c)[k] == t + items[k] by {
            if k < items.len() - 1 {
                assert(init[k] == items[k]);
            }
        }
    }
}

/// Joining the pieces that splitting on `c` gives, with `c` between them, gives the text back.
pub proof fn law_join_undoes_split(s: Seq<char>, c: char)
    ensures
        seq_join(split_on(s, c), seq![c]) == s,
    decreases s.len(),
{
    if s.len() > 0 {
        let init = s.drop_last();
        law_join_undoes_split(init, c);
        lemma_split_on_nonempty(init, c);
        let rest = split_on(init, c);
        if s.last() == c {
            let parts = rest.push(Seq::<char>::empty());
            assert(parts.drop_last() =~= rest);
            assert(seq_join(parts, seq![c]) == seq_join(rest, seq![c]) + seq![c] + Seq::<char>::empty());
            assert(s =~= init + seq![c]);
        } else {
            let parts = rest.update(rest.len() - 1, rest.last().push(s.last()));
            if rest.len() == 1 {
                assert(seq_join(rest, seq![c]) == rest[0]);
                assert(s =~= rest[0].push(s.last()));
            } else {
                assert(parts.drop_last() =~= rest.drop_last());
                assert(seq_join(rest, seq![c]) == seq_join(rest.drop_last(), seq![c]) + seq![c] + rest.last());
                assert(seq_join(parts, seq![c]) == seq_join(rest.drop_last(), seq![c]) + seq![c] + rest.last().push(s.last()));
                assert(s =~= init.push(s.last()));
                assert(seq_join(parts, seq![c]) =~= s);
            }
        }
    }
}

/// `s.split(c)`, each piece as a `String`.
pub fn split_char(s: &str, c: char) -> (parts: Vec<String>)
    ensures
        views(parts@) == split_on(s@, c),
{
    let cs = chars_of(s);
    let mut parts: Vec<String> = Vec::new();
    let mut current = String::new();
    let mut i: usize = 0;
    assert(cs@.take(0) =~= Seq::<char>::empty());
    while i < cs.len()
        invariant
            cs@ == s@,
            i <= cs@.len(),
            views(parts@).push(current@) == split_on(cs@.take(i as int), c),
        decreases cs.len() - i,
    {
        let ch = cs[i];
        let ghost before = views(parts@).push(current@);
        assert(cs@.take(i + 1).drop_last() =~= cs@.take(i as int));
        assert(cs@.take(i + 1).last() == ch);
        if ch == c {
            let done = current;
            parts.push(done);
            current = String::new();
            assert(views(parts@).push(current@) =~= before.push(Seq::<char>::empty()));
        } else {
            let ghost prev_parts = views(parts@);
            current.push(ch);
            assert(views(parts@).push(current@) =~= before.update(before.len() - 1, before.last().push(ch)));
        }
        i = i + 1;
    }
    assert(cs@.take(cs@.len() as int) =~= cs@);
    parts.push(current);
    parts
}

/// Whether `s` begins with `prefix`.
pub open spec fn has_prefix(s: Seq<char>, prefix: Seq<char>) -> bool {
    prefix.len() <= s.len() && s.take(prefix.len() as int) == prefix
}

/// `s.starts_with(prefix)`.
pub fn starts_with(s: &str, prefix: &str) -> (r: bool)
    ensures
        r == has_prefix(s@, prefix@),
{
    let a = chars_of(s);
    let b = chars_of(prefix);
    if b.len() > a.len() {
        return false;
    }
    let mut i: usize = 0;
    while i < b.len()
        invariant
            a@ == s@,
            b@ == prefix@,
            b@.len() <= a@.len(),
            i <= b@.len(),
            forall|j: int| 0 <= j < i ==> a@[j] == b@[j],
        decreases b.len() - i,
    {
        if a[i] != b[i] {
            assert(s@.take(prefix@.len() as int)[i as int] != prefix@[i as int]);
            return false;
        }
        i = i + 1;
    }
    assert(s@.take(prefix@.len() as int) =~= prefix@);
    true
}

/// What `format!("{:?}", s)` writes for a string: the text in double quotes,
/// with the characters that need it escaped.
pub uninterp spec fn debug_text(s: Seq<char>) -> Seq<char>;

/// Whether every character of `s` is printable ASCII other than `"` and `\`:
/// the characters that the debug form of a string writes as they are.
pub open spec fn plain_text(s: Seq<char>) -> bool {
    forall|i: int| 0 <= i < s.len() ==> (' ' <= #[trigger] s[i] && s[i] <= '~' && s[i] != '"' && s[i] != '\\')
}

/// A text in double quotes.
pub open spec fn quote(t: Seq<char>) -> Seq<char> {
    "\""@ + t + "\""@
}

/// `format!("{:?}", s)`: the debug form of a string, quoted and escaped.
/// The standard library escapes only `"`, `\`, control characters and
/// characters that are not printable, so plain text comes out only quoted.
#[verifier::external_body]
pub(crate) fn debug_string(s: &str) -> (r: String)
    ensures
        r@ == debug_text(s@),
        plain_text(s@) ==> r@ == quote(s@),
{
    format!("{:?}", s)
}

/// The debug form of a list of strings, as `format!("{:?}", v)` writes a `Vec<String>`.
pub open spec fn debug_list(items: Seq<Seq<char>>) -> Seq<char> {
    "["@ + seq_join(items.map_values(|t: Seq<char>| debug_text(t)), ", "@) + "]"@
}

/// `format!("{:?}", v)` for a list of strings.
pub fn debug_strings(v: &Vec<String>) -> (r: String)
    ensures
        r@ == debug_list(views(v@)),
        (forall|k: int| 0 <= k < v@.len() ==> plain_text(#[trigger] v@[k]@))
            ==> r@ == "["@ + seq_join(views(v@).map_values(|t: Seq<char>| quote(t)), ", "@) + "]"@,
{
    let mut quoted: Vec<String> = Vec::new();
    let mut i: usize = 0;
    let ghost target = views(v@).map_values(|t: Seq<char>| debug_text(t));
    let ghost all_plain = forall|k: int| 0 <= k < v@.len() ==> plain_text(#[trigger] v@[k]@);
    while i < v.len()
        invariant
            i <= v@.len(),
            quoted@.len() == i,
            target == views(v@).map_values(|t: Seq<char>| debug_text(t)),
            views(quoted@) == target.take(i as int),
            all_plain == (forall|k: int| 0 <= k < v@.len() ==> plain_text(#[trigger] v@[k]@)),
            all_plain ==> forall|k: int| 0 <= k < i ==> target[k] == quote(#[trigger] views(v@)[k]),
        decreases v.len() - i,
    {
        let d = debug_string(v[i].as_str());
        assert(views(v@)[i as int] == v@[i as int]@);
        assert(all_plain ==> plain_text(v@[i as int]@));
        let ghost prev = quoted@;
        quoted.push(d);
        assert forall|k: int| 0 <= k < i + 1 implies #[trigger] views(quoted@)[k] == target.take(i + 1)[k] by {
            if k < i {
                assert(views(prev)[k] == target.take(i as int)[k]);
            }
        }
        assert(views(quoted@) =~= target.take(i + 1));
        i = i + 1;
    }
    assert(target.take(i as int) =~= target);
    let inner = join(&quoted, ", ");
    let mut r = String::new();
    r.append("[");
    r.append(inner.as_str());
    r.append("]");
    assert(r@ =~= debug_list(views(v@)));
    proof {
        if all_plain {
            assert(target =~= views(v@).map_values(|t: Seq<char>| quote(t)));
        }
    }
    r
}


/// How many times `c` occurs in `s`.
pub open spec fn count_char(s: Seq<char>, c: char) -> nat
    decreases s.len(),
{
    if s.len() == 0 {
        0
    } else {
        count_char(s.drop_last(), c) + (if s.last() == c { 1nat } else { 0nat })
    }
}

/// Splitting on `c` gives one piece more than `c` occurs.
pub proof fn lemma_split_len(s: Seq<char>, c: char)
    ensures
        split_on(s, c).len() == 1 + count_char(s, c),
    decreases s.len(),
{
    if s.len() > 0 {
        lemma_split_len(s.drop_last(), c);
        lemma_split_on_nonempty(s.drop_last(), c);
    }
}

/// Occurrences add up over a concatenation.
pub proof fn lemma_count_concat(a: Seq<char>, b: Seq<char>, c: char)
    ensures
        count_char(a + b, c) == count_char(a, c) + count_char(b, c),
    decreases b.len(),
{
    if b.len() == 0 {
        assert(a + b =~= a);
    } else {
        lemma_count_concat(a, b.drop_last(), c);
        assert((a + b).drop_last() =~= a + b.drop_last());
    }
}


/// Whether `a` comes before `b` in the order of `String`: by the first
/// character where they differ, a proper prefix first.
pub open spec fn text_less(a: Seq<char>, b: Seq<char>) -> bool
    decreases a.len(),
{
    if a.len() == 0 {
        b.len() > 0
    } else if b.len() == 0 {
        false
    } else if a[0] != b[0] {
        (a[0] as int) < (b[0] as int)
    } else {
        text_less(a.drop_first(), b.drop_first())
    }
}

proof fn lemma_eq_by_first(a: Seq<char>, b: Seq<char>)
    requires
        a.len() > 0,
        b.len() > 0,
        a[0] == b[0],
        a.drop_first() == b.drop_first(),
    ensures
        a == b,
{
    assert(a.drop_first().len() == a.len() - 1);
    assert(b.drop_first().len() == b.len() - 1);
    assert(a.len() == b.len());
    assert forall|k: int| 0 <= k < a.len() implies a[k] == b[k] by {
        if k > 0 {
            assert(a[k] == a.drop_first()[k - 1]);
            assert(b[k] == b.drop_first()[k - 1]);
        }
    }
    assert(a =~= b);
}

/// The order of texts is a strict total order.
pub proof fn lemma_text_less_order(a: Seq<char>, b: Seq<char>, c: Seq<char>)
    ensures
        !text_less(a, a),
        text_less(a, b) ==> !text_less(b, a),
        a != b ==> text_less(a, b) || text_less(b, a),
        text_less(a, b) && text_less(b, c) ==> text_less(a, c),
    decreases a.len(),
{
    if a.len() > 0 && b.len() > 0 && c.len() > 0 {
        lemma_text_less_order(a.drop_first(), b.drop_first(), c.drop_first());
        if a[0] == b[0] && a.drop_first() == b.drop_first() {
            lemma_eq_by_first(a, b);
        }
    } else if a.len() > 0 && b.len() > 0 {
        lemma_text_less_order(a.drop_first(), b.drop_first(), c);
        if a[0] == b[0] && a.drop_first() == b.drop_first() {
            lemma_eq_by_first(a, b);
        }
    } else if a.len() > 0 {
        lemma_text_less_order(a.drop_first(), b, c);
    }
    if a.len() == 0 && b.len() == 0 {
        assert(a =~= b);
    }
}

/// Whether `a` comes before `b` as `String`s are ordered.
pub fn less_text(a: &str, b: &str) -> (r: bool)
    ensures
        r == text_less(a@, b@),
{
    let x = chars_of(a);
    let y = chars_of(b);
    let mut i: usize = 0;
    assert(a@.subrange(0, a@.len() as int) =~= a@);
    assert(b@.subrange(0, b@.len() as int) =~= b@);
    while i < x.len() && i < y.len()
        invariant
            x@ == a@,
            y@ == b@,
            i <= x@.len(),
            i <= y@.len(),
            x@.subrange(0, i as int) == y@.subrange(0, i as int),
            text_less(a@, b@) == text_less(a@.subrange(i as int, a@.len() as int), b@.subrange(i as int, b@.len() as int)),
        decreases x.len() - i,
    {
        if x[i] != y[i] {
            assert(a@.subrange(i as int, a@.len() as int)[0] == x@[i as int]);
            assert(b@.subrange(i as int, b@.len() as int)[0] == y@[i as int]);
            return x[i] < y[i];
        }
        proof {
            let sa = a@.subrange(i as int, a@.len() as int);
            let sb = b@.subrange(i as int, b@.len() as int);
            assert(sa.drop_first() =~= a@.subrange(i + 1, a@.len() as int));
            assert(sb.drop_first() =~= b@.subrange(i + 1, b@.len() as int));
            assert(x@.subrange(0, i + 1) =~= x@.subrange(0, i as int).push(x@[i as int]));
            assert(y@.subrange(0, i + 1) =~= y@.subrange(0, i as int).push(y@[i as int]));
        }
        i = i + 1;
    }
    i < y.len()
}


/// The positions of `keys` in the order of their texts, as a `BTreeMap`
/// keyed by them is walked.
pub fn order_by_text(keys: &Vec<String>) -> (order: Vec<usize>)
    requires
        forall|i: int, j: int| 0 <= i < keys@.len() && 0 <= j < keys@.len() && i != j ==> keys@[i]@ != keys@[j]@,
    ensures
        order@.len() == keys@.len(),
        forall|i: int| 0 <= i < order@.len() ==> #[trigger] order@[i] < keys@.len(),
        forall|i: int, j: int| 0 <= i < j < order@.len()
            ==> text_less(keys@[order@[i] as int]@, keys@[order@[j] as int]@),
{
    let mut order: Vec<usize> = Vec::new();
    let n = keys.len();
    let mut k: usize = 0;
    while k < n
        invariant
            n == keys@.len(),
            k <= n,
            order@.len() == k,
            forall|i: int, j: int| 0 <= i < keys@.len() && 0 <= j < keys@.len() && i != j ==> keys@[i]@ != keys@[j]@,
            forall|i: int| 0 <= i < order@.len() ==> #[trigger] order@[i] < k,
            forall|i: int, j: int| 0 <= i < j < order@.len()
                ==> text_less(keys@[order@[i] as int]@, keys@[order@[j] as int]@),
        decreases n - k,
    {
        let mut p: usize = 0;
        while p < order.len() && !less_text(keys[k].as_str(), keys[order[p]].as_str())
            invariant
                p <= order@.len(),
                k < n,
                n == keys@.len(),
                forall|i: int| 0 <= i < order@.len() ==> #[trigger] order@[i] < k,
                forall|q: int| 0 <= q < p ==> !text_less(keys@[k as int]@, keys@[order@[q] as int]@),
            decreases order.len() - p,
        {
            p = p + 1;
        }
        let ghost prev = order@;
        proof {
            assert forall|q: int| 0 <= q < p implies text_less(keys@[prev[q] as int]@, keys@[k as int]@) by {
                lemma_text_less_order(keys@[k as int]@, keys@[prev[q] as int]@, keys@[k as int]@);
            }
        }
        order.insert(p, k);
        assert forall|i: int, j: int| 0 <= i < j < order@.len()
            implies text_less(keys@[order@[i] as int]@, keys@[order@[j] as int]@) by {
            if j < p {
                assert(order@[i] == prev[i] && order@[j] == prev[j]);
            } else if j == p {
                assert(order@[i] == prev[i]);
            } else if i == p {
                assert(order@[j] == prev[j - 1]);
                if j - 1 > p {
                    lemma_text_less_order(keys@[k as int]@, keys@[prev[p as int] as int]@, keys@[prev[j - 1] as int]@);
                }
            } else if i < p {
                assert(order@[i] == prev[i] && order@[j] == prev[j - 1]);
            } else {
                assert(order@[i] == prev[i - 1] && order@[j] == prev[j - 1]);
            }
        }
        assert forall|i: int| 0 <= i < order@.len() implies #[trigger] order@[i] < k + 1 by {
            if i < p {
                assert(order@[i] == prev[i]);
            } else if i > p {
                assert(order@[i] == prev[i - 1]);
            }
        }
        k = k + 1;
    }
    order
}

}
