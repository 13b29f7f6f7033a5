//! Text as sequences of characters: trimming, splitting, joining, ordering and numbers.

use vstd::prelude::*;

use vstd::arithmetic::power::pow;

verus! {

broadcast use vstd::string::group_string_axioms;

/// `String::push`: the text afterwards is the text before, followed by `c`.
pub assume_specification[ String::push ](s: &mut String, c: char)
    ensures
        final(s)@ == old(s)@.push(c),
;

// ----- Conversions -----

/// The texts of a sequence of strings.
pub open spec fn strings(v: Seq<String>) -> Seq<Seq<char>> {
    v.map_values(|s: String| s@)
}

/// The texts of a sequence of character vectors.
pub open spec fn char_texts(v: Seq<Vec<char>>) -> Seq<Seq<char>> {
    v.map_values(|s: Vec<char>| s@)
}

/// The text of an optional string.
pub open spec fn opt_text(s: Option<String>) -> Option<Seq<char>> {
    match s {
        Some(s) => Some(s@),
        None => None,
    }
}

/// The text of an optional string slice.
pub open spec fn opt_str(s: Option<&str>) -> Option<Seq<char>> {
    match s {
        Some(s) => Some(s@),
        None => None,
    }
}

/// The characters of `s`, in order.
pub fn chars_of(s: &str) -> (r: Vec<char>)
    ensures
        r@ == s@,
{
    let mut out: Vec<char> = Vec::new();
    for c in it: s.chars()
        invariant
            it.seq() == s@,
            out@ == s@.take(it.index()),
    {
        proof {
            assert(s@.take(it.index() + 1) =~= s@.take(it.index()).push(c));
        }
        out.push(c);
    }
    assert(s@.take(s@.len() as int) =~= s@);
    out
}

/// The string made of the characters `from..to` of `s`.
pub fn string_of(s: &Vec<char>, from: usize, to: usize) -> (r: String)
    requires
        from <= to <= s@.len(),
    ensures
        r@ == s@.subrange(from as int, to as int),
{
    let mut out = String::new();
    let mut i: usize = from;
    while i < to
        invariant
            from <= i <= to <= s@.len(),
            out@ == s@.subrange(from as int, i as int),
        decreases to - i,
    {
        out.push(s[i]);
        i = i + 1;
        assert(s@.subrange(from as int, i as int) =~= s@.subrange(from as int, i - 1).push(s@[i - 1]));
    }
    out
}

/// Whether two texts are the same.
pub fn text_eq(a: &str, b: &str) -> (r: bool)
    ensures
        r == (a@ == b@),
{
    a.to_owned() == b.to_owned()
}

/// Whether two character vectors hold the same text.
pub fn chars_eq(a: &Vec<char>, b: &Vec<char>) -> (r: bool)
    ensures
        r == (a@ == b@),
{
    if a.len() != b.len() {
        return false;
    }
    let mut i: usize = 0;
    while i < a.len()
        invariant
            a@.len() == b@.len(),
            i <= a@.len(),
            forall|k: int| 0 <= k < i ==> a@[k] == b@[k],
        decreases a@.len() - i,
    {
        if a[i] != b[i] {
            return false;
        }
        i = i + 1;
    }
    assert(a@ =~= b@);
    true
}

// ----- White space -----

/// The characters with the Unicode property `White_Space`.
pub open spec fn is_white_space(c: char) -> bool {
    let n = c as u32;
    ||| 0x9 <= n <= 0xD
    ||| n == 0x20
    ||| n == 0x85
    ||| n == 0xA0
    ||| n == 0x1680
    ||| 0x2000 <= n <= 0x200A
    ||| n == 0x2028
    ||| n == 0x2029
    ||| n == 0x202F
    ||| n == 0x205F
    ||| n == 0x3000
}

/// Whether `c` is white space.
pub fn white_space(c: char) -> (r: bool)
    ensures
        r == is_white_space(c),
{
    let n: u32 = c as u32;
    (0x9 <= n && n <= 0xD) || n == 0x20 || n == 0x85 || n == 0xA0 || n == 0x1680 || (0x2000 <= n
        && n <= 0x200A) || n == 0x2028 || n == 0x2029 || n == 0x202F || n == 0x205F || n == 0x3000
}

/// `s` without the white space at its start.
pub open spec fn trim_start(s: Seq<char>) -> Seq<char>
    decreases s.len(),
{
    if s.len() > 0 && is_white_space(s[0]) {
        trim_start(s.drop_first())
    } else {
        s
    }
}

/// `s` without the white space at its end.
pub open spec fn trim_end(s: Seq<char>) -> Seq<char>
    decreases s.len(),
{
    if s.len() > 0 && is_white_space(s.last()) {
        trim_end(s.drop_last())
    } else {
        s
    }
}

/// `s` without the white space at either end.
pub open spec fn trim(s: Seq<char>) -> Seq<char> {
    trim_end(trim_start(s))
}

/// The bounds of `s` without the white space at either end.
pub fn trim_bounds(s: &Vec<char>) -> (r: (usize, usize))
    ensures
        r.0 <= r.1 <= s@.len(),
        trim(s@) == s@.subrange(r.0 as int, r.1 as int),
{
    let mut from: usize = 0;
    assert(s@.skip(0) =~= s@);
    while from < s.len() && white_space(s[from])
        invariant
            from <= s@.len(),
            trim_start(s@) == trim_start(s@.skip(from as int)),
        decreases s@.len() - from,
    {
        assert(s@.skip(from as int).drop_first() =~= s@.skip(from + 1));
        from = from + 1;
    }
    let ghost middle = s@.skip(from as int);
    let mut to: usize = s.len();
    assert(middle =~= s@.subrange(from as int, to as int));
    while from < to && white_space(s[to - 1])
        invariant
            from <= to <= s@.len(),
            trim_end(middle) == trim_end(s@.subrange(from as int, to as int)),
        decreases to,
    {
        assert(s@.subrange(from as int, to as int).drop_last() =~= s@.subrange(from as int, to - 1));
        to = to - 1;
    }
    (from, to)
}

/// `s` without the white space at either end.
pub fn trimmed(s: &str) -> (r: String)
    ensures
        r@ == trim(s@),
{
    let chars = chars_of(s);
    let (from, to) = trim_bounds(&chars);
    string_of(&chars, from, to)
}

// ----- Splitting and joining -----

/// The pieces of `s` between the occurrences of `sep`: one more than `sep` occurs.
pub open spec fn split(s: Seq<char>, sep: char) -> Seq<Seq<char>>
    decreases s.len(),
{
    if s.len() == 0 {
        seq![Seq::empty()]
    } else {
        let before = split(s.drop_last(), sep);
        if s.last() == sep {
            before.push(Seq::empty())
        } else {
            before.drop_last().push(before.last().push(s.last()))
        }
    }
}

/// The texts `parts`, with `sep` between neighbours.
pub open spec fn join(parts: Seq<Seq<char>>, sep: char) -> Seq<char>
    decreases parts.len(),
{
    if parts.len() == 0 {
        Seq::empty()
    } else if parts.len() == 1 {
        parts[0]
    } else {
        join(parts.drop_last(), sep).push(sep) + parts.last()
    }
}

/// Splitting loses nothing: joining the pieces gives the text back, and no piece holds `sep`.
pub proof fn law_join_undoes_split(s: Seq<char>, sep: char)
    ensures
        split(s, sep).len() > 0,
        join(split(s, sep), sep) == s,
        forall|k: int| 0 <= k < split(s, sep).len() ==> !(#[trigger] split(s, sep)[k]).contains(sep),
    decreases s.len(),
{
    if s.len() > 0 {
        let before = split(s.drop_last(), sep);
        law_join_undoes_split(s.drop_last(), sep);
        let all = split(s, sep);
        assert(s =~= s.drop_last().push(s.last()));
        if s.last() == sep {
            assert(all.drop_last() =~= before);
            assert(join(all, sep) =~= s);
        } else {
            let piece = before.last().push(s.last());
            assert(all.drop_last() =~= before.drop_last());
            assert forall|k: int| 0 <= k < all.len() implies !(#[trigger] all[k]).contains(sep) by {
                if k < all.len() - 1 {
                    assert(all[k] == before[k]);
                } else {
                    assert(!before[before.len() - 1].contains(sep));
                    assert forall|i: int| 0 <= i < piece.len() implies piece[i] != sep by {
                        if i < before.last().len() {
                            assert(piece[i] == before.last()[i]);
                            assert(before.last().contains(before.last()[i]));
                        }
                    }
                }
            }
            assert(join(all, sep) =~= s);
        }
    }
}

/// Splitting two texts with a separator between them gives the pieces of both.
pub proof fn law_split_of_two_texts(a: Seq<char>, b: Seq<char>, sep: char)
    ensures
        split(a.push(sep) + b, sep) == split(a, sep) + split(b, sep),
    decreases b.len(),
{
    let s = a.push(sep) + b;
    if b.len() == 0 {
        assert(s =~= a.push(sep));
        assert(s.drop_last() =~= a);
        assert(split(s, sep) =~= split(a, sep) + split(b, sep));
    } else {
        let rest = b.drop_last();
        law_split_of_two_texts(a, rest, sep);
        law_join_undoes_split(rest, sep);
        assert(s.drop_last() =~= a.push(sep) + rest);
        let before = split(a, sep) + split(rest, sep);
        if b.last() != sep {
            assert(before.drop_last() =~= split(a, sep) + split(rest, sep).drop_last());
        }
        assert(split(s, sep) =~= split(a, sep) + split(b, sep));
    }
}

/// Splitting a text without separators gives the text.
pub proof fn lemma_split_of_one_piece(s: Seq<char>, sep: char)
    requires
        !s.contains(sep),
    ensures
        split(s, sep) == seq![s],
    decreases s.len(),
{
    if s.len() > 0 {
        let rest = s.drop_last();
        assert(s[s.len() - 1] != sep);
        assert forall|i: int| 0 <= i < rest.len() implies rest[i] != sep by {
            assert(s[i] == rest[i]);
        }
        lemma_split_of_one_piece(rest, sep);
        assert(rest.push(s.last()) =~= s);
        assert(split(s, sep) =~= seq![s]);
    } else {
        assert(s =~= Seq::empty());
    }
}

/// What does not occur in a text does not occur in its pieces.
pub proof fn lemma_pieces_hold_no_more(s: Seq<char>, sep: char, c: char)
    requires
        !s.contains(c),
    ensures
        forall|k: int| 0 <= k < split(s, sep).len() ==> !(#[trigger] split(s, sep)[k]).contains(c),
    decreases s.len(),
{
    if s.len() > 0 {
        let rest = s.drop_last();
        assert forall|i: int| 0 <= i < rest.len() implies rest[i] != c by {
            assert(s[i] == rest[i]);
            assert(s.contains(s[i]));
        }
        lemma_pieces_hold_no_more(rest, sep, c);
        law_join_undoes_split(rest, sep);
        assert(s.contains(s[s.len() - 1]));
        let before = split(rest, sep);
        let all = split(s, sep);
        assert forall|k: int| 0 <= k < all.len() implies !(#[trigger] all[k]).contains(c) by {
            assert(!before[before.len() - 1].contains(c));
            if k < before.len() - 1 {
                assert(all[k] == before[k]);
            } else if s.last() != sep {
                let piece = before.last().push(s.last());
                assert forall|i: int| 0 <= i < piece.len() implies piece[i] != c by {
                    if i < before.last().len() {
                        assert(before.last().contains(before.last()[i]));
                    }
                }
            }
        }
    }
}

/// What occurs neither in the pieces nor between them does not occur in their join.
pub proof fn lemma_join_holds_no_more(parts: Seq<Seq<char>>, sep: char, c: char)
    requires
        c != sep,
        forall|k: int| 0 <= k < parts.len() ==> !(#[trigger] parts[k]).contains(c),
    ensures
        !join(parts, sep).contains(c),
    decreases parts.len(),
{
    if parts.len() > 0 {
        let rest = parts.drop_last();
        assert forall|k: int| 0 <= k < rest.len() implies !(#[trigger] rest[k]).contains(c) by {
            assert(rest[k] == parts[k]);
        }
        lemma_join_holds_no_more(rest, sep, c);
        let last = parts[parts.len() - 1];
        let all = join(parts, sep);
        let before = join(rest, sep);
        assert forall|i: int| 0 <= i < all.len() implies all[i] != c by {
            if parts.len() == 1 {
                assert(last.contains(all[i]));
            } else if i < before.len() {
                assert(before.contains(before[i]));
            } else if i > before.len() {
                assert(last.contains(last[i - before.len() - 1]));
            }
        }
    }
}

/// Splitting undoes joining, where there are pieces and no piece has a separator in it.
pub proof fn law_split_undoes_join(parts: Seq<Seq<char>>, sep: char)
    requires
        parts.len() > 0,
        forall|k: int| 0 <= k < parts.len() ==> !(#[trigger] parts[k]).contains(sep),
    ensures
        split(join(parts, sep), sep) == parts,
    decreases parts.len(),
{
    assert(!parts[parts.len() - 1].contains(sep));
    lemma_split_of_one_piece(parts.last(), sep);
    if parts.len() == 1 {
        assert(parts =~= seq![parts[0]]);
    } else {
        let rest = parts.drop_last();
        assert forall|k: int| 0 <= k < rest.len() implies !(#[trigger] rest[k]).contains(sep) by {
            assert(rest[k] == parts[k]);
        }
        law_split_undoes_join(rest, sep);
        law_split_of_two_texts(join(rest, sep), parts.last(), sep);
        assert(rest + seq![parts.last()] =~= parts);
    }
}

/// Splits `s` at every `sep`.
pub fn split_chars(s: &Vec<char>, sep: char) -> (r: Vec<Vec<char>>)
    ensures
        char_texts(r@) == split(s@, sep),
{
    let mut done: Vec<Vec<char>> = Vec::new();
    let mut piece: Vec<char> = Vec::new();
    let mut i: usize = 0;
    assert(s@.take(0) =~= Seq::empty());
    assert(char_texts(done@).push(piece@) =~= split(s@.take(0), sep));
    while i < s.len()
        invariant
            i <= s@.len(),
            char_texts(done@).push(piece@) == split(s@.take(i as int), sep),
        decreases s@.len() - i,
    {
        let ghost before = split(s@.take(i as int), sep);
        let ghost old_done = done@;
        let ghost old_piece = piece@;
        let c = s[i];
        assert(s@.take(i + 1).drop_last() =~= s@.take(i as int));
        assert(before.drop_last() =~= char_texts(old_done));
        assert(before.last() == old_piece);
        if c == sep {
            done.push(piece);
            piece = Vec::new();
            assert(char_texts(done@) =~= char_texts(old_done).push(old_piece));
        } else {
            piece.push(c);
        }
        i = i + 1;
        assert(char_texts(done@).push(piece@) =~= split(s@.take(i as int), sep));
    }
    assert(s@.take(i as int) =~= s@);
    let ghost old_done = done@;
    let ghost old_piece = piece@;
    done.push(piece);
    assert(char_texts(done@) =~= char_texts(old_done).push(old_piece));
    done
}

// ----- Letters and replacement -----

/// `c` with an ASCII capital letter made small.
pub open spec fn ascii_lower(c: char) -> char {
    if 'A' <= c <= 'Z' {
        ((c as u32) + 32) as char
    } else {
        c
    }
}

/// `c` with an ASCII capital letter made small.
pub fn small_letter(c: char) -> (r: char)
    ensures
        r == ascii_lower(c),
{
    if 'A' <= c && c <= 'Z' {
        let small: u8 = c as u8 + 32;
        small as char
    } else {
        c
    }
}

/// `s` with its ASCII capital letters made small.
pub fn ascii_lowercase(s: &str) -> (r: String)
    ensures
        r@ == s@.map_values(|c: char| ascii_lower(c)),
{
    let chars = chars_of(s);
    let mut out = String::new();
    let mut i: usize = 0;
    while i < chars.len()
        invariant
            chars@ == s@,
            i <= chars@.len(),
            out@ == s@.take(i as int).map_values(|c: char| ascii_lower(c)),
        decreases chars@.len() - i,
    {
        out.push(small_letter(chars[i]));
        i = i + 1;
        assert(out@ =~= s@.take(i as int).map_values(|c: char| ascii_lower(c)));
    }
    assert(s@.take(i as int) =~= s@);
    out
}

/// `s` with every `from` replaced by `to`.
pub open spec fn replace(s: Seq<char>, from: char, to: char) -> Seq<char> {
    s.map_values(|c: char| if c == from { to } else { c })
}

/// Appends `s` to `out`, with every `from` replaced by `to`.
pub fn push_replaced(out: &mut String, s: &str, from: char, to: char)
    ensures
        final(out)@ == old(out)@ + replace(s@, from, to),
{
    let chars = chars_of(s);
    let mut i: usize = 0;
    assert(out@ =~= old(out)@ + replace(s@.take(0), from, to));
    while i < chars.len()
        invariant
            chars@ == s@,
            i <= chars@.len(),
            out@ == old(out)@ + replace(s@.take(i as int), from, to),
        decreases chars@.len() - i,
    {
        let c = chars[i];
        if c == from {
            out.push(to);
        } else {
            out.push(c);
        }
        i = i + 1;
        assert(out@ =~= old(out)@ + replace(s@.take(i as int), from, to));
    }
    assert(s@.take(i as int) =~= s@);
}

// ----- Numbers -----

/// The decimal digit of `n`.
pub open spec fn digit(n: int) -> char {
    (48 + n) as char
}

/// The decimal notation of `n`, without leading zeros.
pub open spec fn decimal(n: nat) -> Seq<char>
    decreases n,
{
    if n < 10 {
        seq![digit(n as int)]
    } else {
        decimal(n / 10).push(digit((n % 10) as int))
    }
}

/// Appends the decimal notation of `n` to `out`.
pub fn push_decimal(out: &mut String, n: u64)
    ensures
        final(out)@ == old(out)@ + decimal(n as nat),
    decreases n,
{
    if n >= 10 {
        push_decimal(out, n / 10);
    }
    let d: u8 = (n % 10) as u8;
    out.push((48 + d) as char);
    assert(out@ =~= old(out)@ + decimal(n as nat));
}

/// Whether `c` is an ASCII decimal digit.
pub open spec fn is_digit(c: char) -> bool {
    '0' <= c <= '9'
}

/// The number that the decimal digits `s` denote.
pub open spec fn digits_value(s: Seq<char>) -> nat
    decreases s.len(),
{
    if s.len() == 0 {
        0
    } else {
        digits_value(s.drop_last()) * 10 + (s.last() as u32 - 48) as nat
    }
}

/// The digits of a number as it is written: an optional plus sign comes first.
pub open spec fn unsigned_digits(s: Seq<char>) -> Seq<char> {
    if s.len() > 0 && s[0] == '+' {
        s.skip(1)
    } else {
        s
    }
}

/// The `u64` that `s` denotes: an optional plus sign, then one or more decimal digits.
pub open spec fn u64_of(s: Seq<char>) -> Option<u64> {
    let d = unsigned_digits(s);
    if d.len() > 0 && (forall|k: int| 0 <= k < d.len() ==> is_digit(#[trigger] d[k])) && digits_value(d)
        <= u64::MAX {
        Some(digits_value(d) as u64)
    } else {
        None
    }
}

/// The decimal digits of a number denote it, and begin with zero only for zero.
pub proof fn lemma_decimal(n: nat)
    ensures
        decimal(n).len() > 0,
        forall|k: int| 0 <= k < decimal(n).len() ==> is_digit(#[trigger] decimal(n)[k]),
        digits_value(decimal(n)) == n,
        n < 10 ==> decimal(n).len() == 1,
        n >= 10 ==> decimal(n).len() == decimal(n / 10).len() + 1,
        n > 0 ==> decimal(n)[0] != '0',
    decreases n,
{
    let s = decimal(n);
    reveal_with_fuel(digits_value, 2);
    if n < 10 {
        assert(s.drop_last() =~= Seq::empty());
    } else {
        lemma_decimal(n / 10);
        assert(s.drop_last() =~= decimal(n / 10));
    }
}

/// What is written in decimal digits is read back.
pub proof fn law_decimal_is_read_back(n: u64)
    ensures
        u64_of(decimal(n as nat)) == Some(n),
{
    lemma_decimal(n as nat);
    let s = decimal(n as nat);
    assert(is_digit(s[0]));
}

/// Reads a `u64`.
pub fn parse_u64(s: &str) -> (r: Option<u64>)
    ensures
        r == u64_of(s@),
{
    let chars = chars_of(s);
    let start: usize = if chars.len() > 0 && chars[0] == '+' {
        1
    } else {
        0
    };
    let ghost d = unsigned_digits(s@);
    assert(d =~= s@.skip(start as int));
    if chars.len() == start {
        return None;
    }
    let mut value: u64 = 0;
    let mut overflow: bool = false;
    let mut i: usize = start;
    assert(d.take(0) =~= Seq::empty());
    while i < chars.len()
        invariant
            chars@ == s@,
            d == s@.skip(start as int),
            d == unsigned_digits(s@),
            start <= i <= chars@.len(),
            forall|k: int| 0 <= k < i - start ==> is_digit(#[trigger] d[k]),
            !overflow ==> value == digits_value(d.take(i - start)),
            overflow ==> digits_value(d.take(i - start)) > u64::MAX,
        decreases chars@.len() - i,
    {
        let c = chars[i];
        assert(d[i - start] == c);
        if c < '0' || c > '9' {
            assert(!is_digit(d[i - start]));
            return None;
        }
        let n: u64 = (c as u32 - 48) as u64;
        proof {
            assert(d.take(i - start + 1).drop_last() =~= d.take(i - start));
        }
        if !overflow {
            if value > (u64::MAX - n) / 10 {
                overflow = true;
            } else {
                value = value * 10 + n;
            }
        }
        i = i + 1;
    }
    assert(d.take(i - start) =~= d);
    if overflow {
        None
    } else {
        Some(value)
    }
}

// ----- Order -----

/// The order of texts: by the first character in which they differ, a prefix first.
pub open spec fn text_le(a: Seq<char>, b: Seq<char>) -> bool
    decreases a.len(),
{
    if a.len() == 0 {
        true
    } else if b.len() == 0 {
        false
    } else if a[0] != b[0] {
        a[0] < b[0]
    } else {
        text_le(a.drop_first(), b.drop_first())
    }
}

/// The order of texts is total.
pub proof fn lemma_text_le_total(a: Seq<char>, b: Seq<char>)
    ensures
        text_le(a, b) || text_le(b, a),
        text_le(a, b) && text_le(b, a) ==> a == b,
    decreases a.len(),
{
    if a.len() > 0 && b.len() > 0 && a[0] == b[0] {
        lemma_text_le_total(a.drop_first(), b.drop_first());
        if a.drop_first() == b.drop_first() {
            assert(a =~= seq![a[0]] + a.drop_first());
            assert(b =~= seq![b[0]] + b.drop_first());
        }
    } else if a.len() == 0 && b.len() == 0 {
        assert(a =~= b);
    }
}

/// The order of texts is transitive.
pub proof fn lemma_text_le_transitive(a: Seq<char>, b: Seq<char>, c: Seq<char>)
    requires
        text_le(a, b),
        text_le(b, c),
    ensures
        text_le(a, c),
    decreases a.len(),
{
    if a.len() > 0 && b.len() > 0 && c.len() > 0 && a[0] == b[0] && b[0] == c[0] {
        lemma_text_le_transitive(a.drop_first(), b.drop_first(), c.drop_first());
    }
}

/// Whether `a` comes before `b` or is `b`.
pub fn text_ordered(a: &str, b: &str) -> (r: bool)
    ensures
        r == text_le(a@, b@),
{
    let x = chars_of(a);
    let y = chars_of(b);
    let mut i: usize = 0;
    assert(x@.skip(0) =~= x@ && y@.skip(0) =~= y@);
    while i < x.len() && i < y.len() && x[i] == y[i]
        invariant
            x@ == a@,
            y@ == b@,
            i <= x@.len(),
            i <= y@.len(),
            text_le(a@, b@) == text_le(x@.skip(i as int), y@.skip(i as int)),
        decreases x@.len() - i,
    {
        assert(x@.skip(i as int).drop_first() =~= x@.skip(i + 1));
        assert(y@.skip(i as int).drop_first() =~= y@.skip(i + 1));
        i = i + 1;
    }
    if i == x.len() {
        true
    } else if i == y.len() {
        false
    } else {
        x[i] < y[i]
    }
}

// ----- What holds of texts -----

/// The white space characters are exactly these.
pub proof fn law_white_space_is_what_unicode_says(c: char)
    ensures
        is_white_space(c)
            <==> "\u{9}\u{a}\u{b}\u{c}\u{d} \u{85}\u{a0}\u{1680}\u{2000}\u{2001}\u{2002}\u{2003}\u{2004}\u{2005}\u{2006}\u{2007}\u{2008}\u{2009}\u{200a}\u{2028}\u{2029}\u{202f}\u{205f}\u{3000}"@.contains(
            c,
        ),
{
    reveal_strlit(
        "\u{9}\u{a}\u{b}\u{c}\u{d} \u{85}\u{a0}\u{1680}\u{2000}\u{2001}\u{2002}\u{2003}\u{2004}\u{2005}\u{2006}\u{2007}\u{2008}\u{2009}\u{200a}\u{2028}\u{2029}\u{202f}\u{205f}\u{3000}",
    );
    let all =
        "\u{9}\u{a}\u{b}\u{c}\u{d} \u{85}\u{a0}\u{1680}\u{2000}\u{2001}\u{2002}\u{2003}\u{2004}\u{2005}\u{2006}\u{2007}\u{2008}\u{2009}\u{200a}\u{2028}\u{2029}\u{202f}\u{205f}\u{3000}"@;
    assert(all.len() == 25);
    assert(all[0] == '\u{9}' && all[1] == '\u{a}' && all[2] == '\u{b}' && all[3] == '\u{c}' && all[4] == '\u{d}');
    assert(all[5] == ' ' && all[6] == '\u{85}' && all[7] == '\u{a0}' && all[8] == '\u{1680}' && all[9] == '\u{2000}');
    assert(all[10] == '\u{2001}' && all[11] == '\u{2002}' && all[12] == '\u{2003}' && all[13] == '\u{2004}');
    assert(all[14] == '\u{2005}' && all[15] == '\u{2006}' && all[16] == '\u{2007}' && all[17] == '\u{2008}');
    assert(all[18] == '\u{2009}' && all[19] == '\u{200a}' && all[20] == '\u{2028}' && all[21] == '\u{2029}');
    assert(all[22] == '\u{202f}' && all[23] == '\u{205f}' && all[24] == '\u{3000}');
}

proof fn lemma_trim_start_splits(s: Seq<char>) -> (n: int)
    ensures
        0 <= n <= s.len(),
        trim_start(s) == s.skip(n),
        forall|k: int| 0 <= k < n ==> is_white_space(#[trigger] s[k]),
        n < s.len() ==> !is_white_space(s[n]),
    decreases s.len(),
{
    if s.len() > 0 && is_white_space(s[0]) {
        let rest = s.drop_first();
        let n = lemma_trim_start_splits(rest);
        assert(rest.skip(n) =~= s.skip(n + 1));
        assert forall|k: int| 0 <= k < n + 1 implies is_white_space(#[trigger] s[k]) by {
            if k > 0 {
                assert(rest[k - 1] == s[k]);
            }
        }
        n + 1
    } else {
        assert(s.skip(0) =~= s);
        0
    }
}

proof fn lemma_trim_end_splits(s: Seq<char>) -> (n: int)
    ensures
        0 <= n <= s.len(),
        trim_end(s) == s.take(n),
        forall|k: int| n <= k < s.len() ==> is_white_space(#[trigger] s[k]),
        n > 0 ==> !is_white_space(s[n - 1]),
    decreases s.len(),
{
    if s.len() > 0 && is_white_space(s.last()) {
        let rest = s.drop_last();
        let n = lemma_trim_end_splits(rest);
        assert(rest.take(n) =~= s.take(n));
        assert forall|k: int| n <= k < s.len() implies is_white_space(#[trigger] s[k]) by {
            if k < s.len() - 1 {
                assert(rest[k] == s[k]);
            }
        }
        n
    } else {
        assert(s.take(s.len() as int) =~= s);
        s.len() as int
    }
}

/// Trimming takes away white space and nothing else: the text is what is left with white space before and
/// behind it, and what is left neither begins nor ends with white space.
pub proof fn law_trim_takes_white_space_only(s: Seq<char>)
    ensures
        exists|from: int, to: int|
            #![trigger s.subrange(from, to)]
            {
                &&& 0 <= from <= to <= s.len()
                &&& trim(s) == s.subrange(from, to)
                &&& forall|k: int| 0 <= k < from || to <= k < s.len() ==> is_white_space(#[trigger] s[k])
            },
        trim(s).len() > 0 ==> !is_white_space(trim(s)[0]) && !is_white_space(trim(s).last()),
{
    let from = lemma_trim_start_splits(s);
    let rest = s.skip(from);
    let n = lemma_trim_end_splits(rest);
    let to = from + n;
    assert(rest.take(n) =~= s.subrange(from, to));
    assert forall|k: int| 0 <= k < from || to <= k < s.len() implies is_white_space(#[trigger] s[k]) by {
        if k >= to {
            assert(rest[k - from] == s[k]);
        }
    }
    if n > 0 {
        assert(rest[0] == s[from]);
    }
    assert(trim(s) == s.subrange(from, to));
}

/// A text without white space at its ends stays as it is, whatever white space is put round it.
pub proof fn law_trim_undoes_padding(before: Seq<char>, s: Seq<char>, behind: Seq<char>)
    requires
        forall|k: int| 0 <= k < before.len() ==> is_white_space(#[trigger] before[k]),
        forall|k: int| 0 <= k < behind.len() ==> is_white_space(#[trigger] behind[k]),
        s.len() > 0 ==> !is_white_space(s[0]) && !is_white_space(s.last()),
    ensures
        trim(before + s + behind) == s,
{
    let all = before + s + behind;
    let from = lemma_trim_start_splits(all);
    let rest = all.skip(from);
    let n = lemma_trim_end_splits(rest);
    if s.len() > 0 {
        assert(all[before.len() as int] == s[0]);
        if from < before.len() {
            assert(all[from] == before[from]);
        }
        assert(from == before.len());
        assert(rest[s.len() - 1] == s.last());
        if n > s.len() {
            assert(rest[n - 1] == behind[n - 1 - s.len()]);
        }
        assert(n == s.len());
        assert(rest.take(n) =~= s);
    } else {
        if from < all.len() {
            if from < before.len() {
                assert(all[from] == before[from]);
            } else {
                assert(all[from] == behind[from - before.len()]);
            }
        }
        assert(rest.take(n) =~= s);
    }
}

/// Exactly the twenty-six capital letters become the small letters; every other character stays.
pub proof fn law_capital_letters_become_small(c: char)
    ensures
        forall|k: int|
            0 <= k < 26 && c == #[trigger] "ABCDEFGHIJKLMNOPQRSTUVWXYZ"@[k] ==> ascii_lower(c)
                == "abcdefghijklmnopqrstuvwxyz"@[k],
        !"ABCDEFGHIJKLMNOPQRSTUVWXYZ"@.contains(c) ==> ascii_lower(c) == c,
{
    reveal_strlit("ABCDEFGHIJKLMNOPQRSTUVWXYZ");
    reveal_strlit("abcdefghijklmnopqrstuvwxyz");
    let big = "ABCDEFGHIJKLMNOPQRSTUVWXYZ"@;
    let small = "abcdefghijklmnopqrstuvwxyz"@;
    assert(big.len() == 26 && small.len() == 26);
    assert forall|k: int| 0 <= k < 26 implies #[trigger] big[k] as u32 == 65 + k && small[k] as u32 == 97 + k by {}
    if 'A' <= c <= 'Z' {
        assert(big[c as u32 - 65] == c);
    }
}

/// Replacing keeps the length and every other character.
pub proof fn law_replacing_changes_one_character_only(s: Seq<char>, from: char, to: char, i: int)
    requires
        0 <= i < s.len(),
    ensures
        replace(s, from, to).len() == s.len(),
        s[i] == from ==> replace(s, from, to)[i] == to,
        s[i] != from ==> replace(s, from, to)[i] == s[i],
{
}

/// Decimal notation is positional: the digit `k` places from the end counts the `k`-th power of ten, and
/// there is no digit too many or too few.
pub proof fn law_decimal_is_positional(n: nat, k: nat)
    ensures
        k < decimal(n).len() ==> decimal(n)[decimal(n).len() - 1 - k] == "0123456789"@[(n as int / pow(10, k)) % 10],
        n < pow(10, decimal(n).len()),
        decimal(n).len() > 1 ==> pow(10, (decimal(n).len() - 1) as nat) <= n,
        decimal(n).len() >= 1,
    decreases n,
{
    reveal(pow);
    reveal_strlit("0123456789");
    let digits = "0123456789"@;
    assert forall|d: int| 0 <= d < 10 implies #[trigger] digits[d] == digit(d) by {}
    if n < 10 {
        assert(pow(10, 0) == 1);
        assert(pow(10, 1) == 10 * pow(10, 0));
        if k == 0 {
            assert(n as int / 1 == n);
            assert((n as int) % 10 == n);
        }
    } else {
        let m = n / 10;
        let l = decimal(m).len();
        law_decimal_is_positional(m, 0);
        assert(decimal(n).len() == l + 1);
        assert(pow(10, (l + 1) as nat) == 10 * pow(10, l));
        assert(n < 10 * (m + 1) && m + 1 <= pow(10, l));
        if l > 1 {
            assert(pow(10, l) == 10 * pow(10, (l - 1) as nat));
        } else {
            assert(pow(10, 0) == 1);
            assert(pow(10, 1) == 10 * pow(10, 0));
        }
        if k == 0 {
            assert(pow(10, 0) == 1);
            assert(n as int / 1 == n);
        } else if k < l + 1 {
            let j = (k - 1) as nat;
            law_decimal_is_positional(m, j);
            assert(decimal(n)[l - k] == decimal(m)[l - 1 - j]);
            assert(pow(10, k) == 10 * pow(10, j));
            vstd::arithmetic::power::lemma_pow_positive(10, j);
            vstd::arithmetic::div_mod::lemma_div_denominator(n as int, 10, pow(10, j));
        }
    }
}

/// Decimal digits without a leading zero are the notation of the number that they denote.
pub proof fn lemma_digits_are_decimal(d: Seq<char>)
    requires
        d.len() > 0,
        forall|k: int| 0 <= k < d.len() ==> is_digit(#[trigger] d[k]),
        d.len() > 1 ==> d[0] != '0',
    ensures
        decimal(digits_value(d)) == d,
        d[0] != '0' ==> digits_value(d) > 0,
    decreases d.len(),
{
    let rest = d.drop_last();
    assert(is_digit(d[d.len() - 1]));
    if d.len() == 1 {
        reveal_with_fuel(digits_value, 2);
        assert(rest =~= Seq::empty());
        assert(decimal(digits_value(d)) =~= d);
    } else {
        assert forall|k: int| 0 <= k < rest.len() implies is_digit(#[trigger] rest[k]) by {
            assert(rest[k] == d[k]);
        }
        assert(rest[0] == d[0]);
        lemma_digits_are_decimal(rest);
        let v = digits_value(rest);
        let n = digits_value(d);
        assert(n / 10 == v && n % 10 == (d.last() as u32 - 48));
        assert(decimal(n) =~= d);
    }
}

/// `n` zeros.
pub open spec fn zeros(n: nat) -> Seq<char> {
    Seq::new(n, |k: int| '0')
}

proof fn lemma_leading_zeros(n: nat, d: Seq<char>)
    ensures
        digits_value(zeros(n) + d) == digits_value(d),
    decreases d.len(),
{
    let all = zeros(n) + d;
    if d.len() > 0 {
        assert(all.drop_last() =~= zeros(n) + d.drop_last());
        lemma_leading_zeros(n, d.drop_last());
    } else {
        assert(all =~= zeros(n));
        lemma_zeros(n);
    }
}

proof fn lemma_zeros(n: nat)
    ensures
        digits_value(zeros(n)) == 0,
    decreases n,
{
    if n > 0 {
        assert(zeros(n).drop_last() =~= zeros((n - 1) as nat));
        lemma_zeros((n - 1) as nat);
    }
}

/// A number is read exactly if it is written in decimal notation, with or without a plus sign and with any
/// number of zeros before it, and fits in 64 bits.
pub proof fn law_number_is_read_exactly_if_it_is_written(s: Seq<char>, n: u64)
    ensures
        u64_of(s) == Some(n) <==> exists|k: nat|
            s == #[trigger] zeros(k) + decimal(n as nat) || s == seq!['+'] + (zeros(k) + decimal(n as nat)),
{
    let d = unsigned_digits(s);
    lemma_decimal(n as nat);
    if u64_of(s) == Some(n) {
        let k = lemma_zeros_before(d);
        let rest = d.skip(k as int);
        assert(d =~= zeros(k) + rest);
        lemma_leading_zeros(k, rest);
        assert forall|i: int| 0 <= i < rest.len() implies is_digit(#[trigger] rest[i]) by {
            assert(rest[i] == d[i + k]);
        }
        lemma_digits_are_decimal(rest);
        if s[0] == '+' {
            assert(s =~= seq!['+'] + (zeros(k) + decimal(n as nat)));
        } else {
            assert(s =~= zeros(k) + decimal(n as nat));
        }
    }
    if exists|k: nat|
        s == #[trigger] zeros(k) + decimal(n as nat) || s == seq!['+'] + (zeros(k) + decimal(n as nat)) {
        let k = choose|k: nat|
            s == #[trigger] zeros(k) + decimal(n as nat) || s == seq!['+'] + (zeros(k) + decimal(n as nat));
        let all = zeros(k) + decimal(n as nat);
        lemma_leading_zeros(k, decimal(n as nat));
        assert forall|i: int| 0 <= i < all.len() implies is_digit(#[trigger] all[i]) by {
            if i >= k {
                assert(is_digit(decimal(n as nat)[i - k]));
            }
        }
        if s == all {
            assert(is_digit(all[0]));
            assert(d =~= all);
        } else {
            assert(d =~= all);
        }
    }
}

proof fn lemma_zeros_before(d: Seq<char>) -> (k: nat)
    requires
        d.len() > 0,
    ensures
        k < d.len(),
        forall|i: int| 0 <= i < k ==> d[i] == '0',
        k + 1 < d.len() ==> d[k as int] != '0',
    decreases d.len(),
{
    if d.len() > 1 && d[0] == '0' {
        let rest = d.drop_first();
        let k = lemma_zeros_before(rest);
        assert forall|i: int| 0 <= i < k + 1 implies d[i] == '0' by {
            if i > 0 {
                assert(rest[i - 1] == d[i]);
            }
        }
        k + 1
    } else {
        0
    }
}

/// Of two texts the one comes first that has the smaller character where they first differ, or that ends
/// where the other goes on.
pub proof fn law_texts_are_ordered_by_their_first_difference(a: Seq<char>, b: Seq<char>)
    ensures
        text_le(a, b) <==> a.is_prefix_of(b) || exists|i: int|
            #![trigger a[i], b[i]]
            0 <= i < a.len() && i < b.len() && a[i] < b[i] && a.take(i) == b.take(i),
    decreases a.len(),
{
    if a.len() == 0 {
        assert(a =~= b.subrange(0, 0));
    } else if b.len() == 0 {
    } else if a[0] != b[0] {
        if a.is_prefix_of(b) {
            assert(a == b.subrange(0, a.len() as int));
            assert(b.subrange(0, a.len() as int)[0] == b[0]);
        }
        if a[0] < b[0] {
            assert(a.take(0) =~= b.take(0));
        }
        assert forall|i: int|
            #![trigger a[i], b[i]]
            0 <= i < a.len() && i < b.len() && a[i] < b[i] && a.take(i) == b.take(i) implies a[0] < b[0] by {
            if i > 0 {
                assert(a.take(i)[0] == a[0] && b.take(i)[0] == b[0]);
            }
        }
    } else {
        let x = a.drop_first();
        let y = b.drop_first();
        law_texts_are_ordered_by_their_first_difference(x, y);
        if x.is_prefix_of(y) {
            assert(x == y.subrange(0, x.len() as int));
            assert forall|i: int| 0 <= i < a.len() implies a[i] == b.subrange(0, a.len() as int)[i] by {
                if i > 0 {
                    assert(x[i - 1] == y.subrange(0, x.len() as int)[i - 1]);
                }
            }
            assert(a =~= b.subrange(0, a.len() as int));
        }
        if a.is_prefix_of(b) {
            assert(a == b.subrange(0, a.len() as int));
            assert forall|i: int| 0 <= i < x.len() implies x[i] == y.subrange(0, x.len() as int)[i] by {
                assert(a[i + 1] == b.subrange(0, a.len() as int)[i + 1]);
            }
            assert(x =~= y.subrange(0, x.len() as int));
        }
        if exists|i: int|
            #![trigger x[i], y[i]]
            0 <= i < x.len() && i < y.len() && x[i] < y[i] && x.take(i) == y.take(i) {
            let i = choose|i: int|
                #![trigger x[i], y[i]]
                0 <= i < x.len() && i < y.len() && x[i] < y[i] && x.take(i) == y.take(i);
            assert(a[i + 1] == x[i] && b[i + 1] == y[i]);
            let l = i + 1;
            assert forall|k: int| 0 <= k < l implies #[trigger] a.take(l)[k] == b.take(l)[k] by {
                if k > 0 {
                    assert(x.take(i)[k - 1] == y.take(i)[k - 1]);
                }
            }
            assert(a.take(l) =~= b.take(l));
        }
        if exists|i: int|
            #![trigger a[i], b[i]]
            0 <= i < a.len() && i < b.len() && a[i] < b[i] && a.take(i) == b.take(i) {
            let i = choose|i: int|
                #![trigger a[i], b[i]]
                0 <= i < a.len() && i < b.len() && a[i] < b[i] && a.take(i) == b.take(i);
            assert(i > 0);
            assert(x[i - 1] == a[i] && y[i - 1] == b[i]);
            let l = i - 1;
            assert forall|k: int| 0 <= k < l implies #[trigger] x.take(l)[k] == y.take(l)[k] by {
                assert(a.take(i)[k + 1] == b.take(i)[k + 1]);
            }
            assert(x.take(l) =~= y.take(l));
        }
    }
}

/// An optional text is there exactly if the string is, with its characters.
pub proof fn law_optional_text_is_that_of_the_string(s: Option<String>, t: Option<&str>)
    ensures
        s matches Some(x) ==> opt_text(s) == Some(x@),
        s is None ==> opt_text(s) is None,
        t matches Some(x) ==> opt_str(t) == Some(x@),
        t is None ==> opt_str(t) is None,
{
}

/// The texts of a sequence of strings are those of its entries, in order.
pub proof fn law_texts_are_those_of_the_strings(v: Seq<String>, w: Seq<Vec<char>>, i: int)
    ensures
        strings(v).len() == v.len(),
        0 <= i < v.len() ==> strings(v)[i] == v[i]@,
        char_texts(w).len() == w.len(),
        0 <= i < w.len() ==> char_texts(w)[i] == w[i]@,
{
}

} // verus!
