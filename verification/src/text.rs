use vstd::prelude::*;

verus! {

/// The byte is an ASCII decimal digit.
pub open spec fn is_digit(b: u8) -> bool {
    48 <= b <= 57
}

/// The decimal numeral of `n`, without leading zeros, as ASCII bytes.
pub open spec fn decimal(n: nat) -> Seq<u8>
    decreases n,
{
    if n < 10 {
        seq![(48 + n) as u8]
    } else {
        decimal(n / 10).push((48 + n % 10) as u8)
    }
}

/// All bytes are ASCII decimal digits.
pub open spec fn all_digits(s: Seq<u8>) -> bool {
    forall|i: int| 0 <= i < s.len() ==> is_digit(#[trigger] s[i])
}

/// The number that a string of decimal digits denotes.
pub open spec fn number(s: Seq<u8>) -> nat
    decreases s.len(),
{
    if s.len() == 0 {
        0
    } else {
        number(s.drop_last()) * 10 + (s.last() - 48) as nat
    }
}

/// The digits of a numeral: the text without a leading plus sign.
pub open spec fn unsigned_part(s: Seq<u8>) -> Seq<u8> {
    if s.len() > 0 && s[0] == 43 {
        s.drop_first()
    } else {
        s
    }
}

/// The number that a text cell denotes, if it denotes one no larger than
/// `max`: an optional plus sign and then at least one decimal digit.
pub open spec fn parsed(s: Seq<u8>, max: nat) -> Option<nat> {
    let d = unsigned_part(s);
    if d.len() > 0 && all_digits(d) && number(d) <= max {
        Some(number(d))
    } else {
        None
    }
}

/// The first digits of a numeral denote no more than the whole numeral.
pub proof fn lemma_number_monotone(s: Seq<u8>, k: int)
    requires
        0 <= k <= s.len(),
        all_digits(s),
    ensures
        number(s.take(k)) <= number(s),
    decreases s.len() - k,
{
    if k < s.len() {
        lemma_number_monotone(s, k + 1);
        assert(s.take(k + 1).drop_last() =~= s.take(k));
        assert(is_digit(s[k]));
    } else {
        assert(s.take(k) =~= s);
    }
}

/// A decimal numeral is made of digits and denotes its number.
pub proof fn lemma_decimal_parses(n: nat)
    ensures
        decimal(n).len() > 0,
        all_digits(decimal(n)),
        number(decimal(n)) == n,
        unsigned_part(decimal(n)) == decimal(n),
    decreases n,
{
    if n < 10 {
        let s = decimal(n);
        assert(s.drop_last() =~= Seq::<u8>::empty());
        assert(number(s.drop_last()) == 0);
    } else {
        lemma_decimal_parses(n / 10);
        let p = decimal(n / 10);
        let s = decimal(n);
        assert(s.drop_last() =~= p);
        assert(s[0] == p[0]);
        assert(is_digit(p[0]));
    }
}

/// Parsing the decimal numeral of a number gives the number back.
pub proof fn lemma_parse_of_decimal(n: nat, max: nat)
    requires
        n <= max,
    ensures
        parsed(decimal(n), max) == Some(n),
{
    lemma_decimal_parses(n);
}

/// Writes `n` as a decimal numeral.
pub fn format_u64(n: u64) -> (out: Vec<u8>)
    ensures
        out@ == decimal(n as nat),
{
    let mut reversed: Vec<u8> = Vec::new();
    let mut rest: u64 = n;
    while rest >= 10
        invariant
            decimal(n as nat) == decimal(rest as nat) + reversed@.reverse(),
        decreases rest,
    {
        let digit = (48 + rest % 10) as u8;
        proof {
            let next = (rest / 10) as nat;
            assert(decimal(rest as nat) == decimal(next).push(digit));
            assert(decimal(next).push(digit) + reversed@.reverse() =~= decimal(next)
                + reversed@.push(digit).reverse());
        }
        reversed.push(digit);
        rest = rest / 10;
    }
    let last = (48 + rest) as u8;
    proof {
        assert(decimal(rest as nat) == seq![last]);
        assert(seq![last] + reversed@.reverse() =~= reversed@.push(last).reverse());
    }
    reversed.push(last);
    let mut out: Vec<u8> = Vec::new();
    let mut i: usize = reversed.len();
    while i > 0
        invariant
            i <= reversed.len(),
            out@ == reversed@.reverse().take(reversed.len() - i),
        decreases i,
    {
        i -= 1;
        out.push(reversed[i]);
        assert(out@ =~= reversed@.reverse().take(reversed.len() - i));
    }
    assert(out@ =~= reversed@.reverse());
    out
}

/// Reads a decimal numeral no larger than `max`.
pub fn parse_number(text: &[u8], max: u64) -> (r: Option<u64>)
    ensures
        match r {
            Some(n) => parsed(text@, max as nat) == Some(n as nat),
            None => parsed(text@, max as nat) is None,
        },
{
    let start: usize = if text.len() > 0 && text[0] == 43 {
        1
    } else {
        0
    };
    let ghost d = unsigned_part(text@);
    assert(d =~= text@.subrange(start as int, text@.len() as int));
    if start >= text.len() {
        return None;
    }
    let mut acc: u64 = 0;
    let mut i: usize = start;
    while i < text.len()
        invariant
            start <= i <= text.len(),
            d == text@.subrange(start as int, text@.len() as int),
            d == unsigned_part(text@),
            all_digits(d.take(i - start)),
            acc == number(d.take(i - start)),
            acc <= max,
        decreases text.len() - i,
    {
        let b = text[i];
        if b < 48 || b > 57 {
            assert(d[i - start] == b);
            assert(!all_digits(d));
            return None;
        }
        let digit = (b - 48) as u64;
        proof {
            assert(d.take(i - start + 1).drop_last() =~= d.take(i - start));
            assert(d.take(i - start + 1).last() == b);
            assert forall|j: int| 0 <= j < i - start + 1 implies is_digit(
                #[trigger] d.take(i - start + 1)[j],
            ) by {
                if j < i - start {
                    assert(is_digit(d.take(i - start)[j]));
                }
            }
        }
        if digit > max || acc > (max - digit) / 10 {
            proof {
                assert(number(d.take(i - start + 1)) > max);
                if all_digits(d) {
                    lemma_number_monotone(d, i - start + 1);
                }
            }
            return None;
        }
        acc = acc * 10 + digit;
        i += 1;
    }
    assert(d.take(i - start) =~= d);
    Some(acc)
}

/// The position of the first byte equal to `b` at or after `start`, or the
/// length of `bytes` where there is none.
pub open spec fn index_from(bytes: Seq<u8>, b: u8, start: int) -> int
    decreases bytes.len() - start,
{
    if start < 0 || start >= bytes.len() {
        bytes.len() as int
    } else if bytes[start] == b {
        start
    } else {
        index_from(bytes, b, start + 1)
    }
}

/// The first position of `b` from `start` lies at or behind `start`; it
/// holds `b` where it lies within the bytes, and no position between does.
pub proof fn lemma_index_from_bounds(bytes: Seq<u8>, b: u8, start: int)
    requires
        0 <= start,
    ensures
        index_from(bytes, b, start) <= bytes.len(),
        start <= bytes.len() ==> start <= index_from(bytes, b, start),
        index_from(bytes, b, start) < bytes.len() ==> bytes[index_from(bytes, b, start)] == b,
        forall|i: int| start <= i < index_from(bytes, b, start) ==> bytes[i] != b,
    decreases bytes.len() - start,
{
    if start < bytes.len() && bytes[start] != b {
        lemma_index_from_bounds(bytes, b, start + 1);
    }
}

/// A position that holds `b`, before which `b` does not occur from `start`
/// on, is the first position of `b` from `start`.
pub proof fn lemma_index_from_is(bytes: Seq<u8>, b: u8, start: int, end: int)
    requires
        0 <= start <= end <= bytes.len(),
        end < bytes.len() ==> bytes[end] == b,
        forall|i: int| start <= i < end ==> bytes[i] != b,
    ensures
        index_from(bytes, b, start) == end,
    decreases end - start,
{
    if start < end {
        lemma_index_from_is(bytes, b, start + 1, end);
    }
}

/// The pieces of `s` from `start` on that the separator `sep` parts; there
/// is always at least one, and a piece may be empty.
pub open spec fn split_from(s: Seq<u8>, sep: u8, start: int) -> Seq<Seq<u8>>
    decreases s.len() - start,
{
    let end = index_from(s, sep, start);
    if start < 0 || start > s.len() || end < start {
        Seq::empty()
    } else if end >= s.len() {
        seq![s.subrange(start, s.len() as int)]
    } else {
        seq![s.subrange(start, end)] + split_from(s, sep, end + 1)
    }
}

/// The pieces of `s` that the separator `sep` parts.
pub open spec fn split(s: Seq<u8>, sep: u8) -> Seq<Seq<u8>> {
    split_from(s, sep, 0)
}

/// The pieces with the separator between each two of them.
pub open spec fn join(pieces: Seq<Seq<u8>>, sep: u8) -> Seq<u8>
    decreases pieces.len(),
{
    if pieces.len() == 0 {
        Seq::empty()
    } else if pieces.len() == 1 {
        pieces[0]
    } else {
        pieces[0] + seq![sep] + join(pieces.drop_first(), sep)
    }
}

/// Joining the pieces of a text gives the text back, and no piece holds the
/// separator.
pub proof fn lemma_join_split(s: Seq<u8>, sep: u8, start: int)
    requires
        0 <= start <= s.len(),
    ensures
        split_from(s, sep, start).len() >= 1,
        join(split_from(s, sep, start), sep) == s.subrange(start, s.len() as int),
        forall|k: int|
            0 <= k < split_from(s, sep, start).len() ==> !(#[trigger] split_from(
                s,
                sep,
                start,
            )[k]).contains(sep),
    decreases s.len() - start,
{
    let end = index_from(s, sep, start);
    lemma_index_from_bounds(s, sep, start);
    let first = s.subrange(start, end);
    assert(!first.contains(sep)) by {
        if first.contains(sep) {
            let i = choose|i: int| 0 <= i < first.len() && first[i] == sep;
            assert(s[start + i] == sep);
        }
    }
    if end < s.len() {
        lemma_join_split(s, sep, end + 1);
        let rest = split_from(s, sep, end + 1);
        let all = split_from(s, sep, start);
        assert(all == seq![first] + rest);
        assert(all.drop_first() =~= rest);
        assert(all[0] == first);
        assert(join(all, sep) == first + seq![sep] + join(rest, sep));
        assert(first + seq![sep] + s.subrange(end + 1, s.len() as int) =~= s.subrange(
            start,
            s.len() as int,
        ));
        assert forall|k: int| 0 <= k < all.len() implies !(#[trigger] all[k]).contains(sep) by {
            if k > 0 {
                assert(all[k] == rest[k - 1]);
            }
        }
    }
}

/// Parts `s` at every occurrence of `sep`.
pub fn split_bytes(s: &[u8], sep: u8) -> (pieces: Vec<Vec<u8>>)
    ensures
        pieces@.map_values(|p: Vec<u8>| p@) == split(s@, sep),
{
    let mut pieces: Vec<Vec<u8>> = Vec::new();
    let mut piece: Vec<u8> = Vec::new();
    let mut start: usize = 0;
    let mut i: usize = 0;
    while i < s.len()
        invariant
            start <= i <= s.len(),
            piece@ == s@.subrange(start as int, i as int),
            forall|j: int| start <= j < i ==> s@[j] != sep,
            split(s@, sep) == pieces@.map_values(|p: Vec<u8>| p@) + split_from(
                s@,
                sep,
                start as int,
            ),
        decreases s.len() - i,
    {
        if s[i] == sep {
            proof {
                lemma_index_from_is(s@, sep, start as int, i as int);
                let done = pieces@.map_values(|p: Vec<u8>| p@);
                assert(done.push(piece@) + split_from(s@, sep, i + 1) =~= done + (seq![piece@]
                    + split_from(s@, sep, i + 1)));
                assert(pieces@.push(piece).map_values(|p: Vec<u8>| p@) =~= done.push(piece@));
            }
            pieces.push(piece);
            piece = Vec::new();
            start = i + 1;
            assert(piece@ =~= s@.subrange(start as int, start as int));
        } else {
            piece.push(s[i]);
            assert(piece@ =~= s@.subrange(start as int, i + 1));
        }
        i += 1;
    }
    proof {
        lemma_index_from_is(s@, sep, start as int, s@.len() as int);
        let done = pieces@.map_values(|p: Vec<u8>| p@);
        assert(pieces@.push(piece).map_values(|p: Vec<u8>| p@) =~= done.push(piece@));
        assert(done.push(piece@) =~= done + seq![piece@]);
    }
    pieces.push(piece);
    pieces
}

/// The text without its carriage returns.
pub open spec fn without_cr(s: Seq<u8>) -> Seq<u8>
    decreases s.len(),
{
    if s.len() == 0 {
        Seq::empty()
    } else if s.last() == 13 {
        without_cr(s.drop_last())
    } else {
        without_cr(s.drop_last()).push(s.last())
    }
}

/// Removes every carriage return from the text.
pub fn parsecsv(text: &[u8]) -> (out: Vec<u8>)
    ensures
        out@ == without_cr(text@),
{
    let mut out: Vec<u8> = Vec::new();
    let mut i: usize = 0;
    while i < text.len()
        invariant
            i <= text.len(),
            out@ == without_cr(text@.take(i as int)),
        decreases text.len() - i,
    {
        assert(text@.take(i + 1).drop_last() =~= text@.take(i as int));
        if text[i] != 13 {
            out.push(text[i]);
        }
        i += 1;
    }
    assert(text@.take(i as int) =~= text@);
    out
}

/// The value of a hexadecimal digit in either case, if the byte is one.
pub open spec fn hex_value(b: u8) -> Option<nat> {
    if 48 <= b <= 57 {
        Some((b - 48) as nat)
    } else if 97 <= b <= 102 {
        Some((b - 87) as nat)
    } else if 65 <= b <= 70 {
        Some((b - 55) as nat)
    } else {
        None
    }
}

/// All bytes are hexadecimal digits.
pub open spec fn all_hex(s: Seq<u8>) -> bool {
    forall|i: int| 0 <= i < s.len() ==> hex_value(#[trigger] s[i]) is Some
}

/// The number that a string of hexadecimal digits denotes.
pub open spec fn hex_number(s: Seq<u8>) -> nat
    decreases s.len(),
{
    if s.len() == 0 {
        0
    } else {
        hex_number(s.drop_last()) * 16 + match hex_value(s.last()) {
            Some(v) => v,
            None => 0,
        }
    }
}

/// The 32-bit number that a text denotes in hexadecimal, if it does: at
/// least one hexadecimal digit and nothing else.
pub open spec fn parsed_hex(s: Seq<u8>) -> Option<u32> {
    if s.len() > 0 && all_hex(s) && hex_number(s) <= 0xFFFF_FFFF {
        Some(hex_number(s) as u32)
    } else {
        None
    }
}

/// The first digits of a hexadecimal numeral denote no more than the whole
/// numeral.
pub proof fn lemma_hex_number_monotone(s: Seq<u8>, k: int)
    requires
        0 <= k <= s.len(),
    ensures
        hex_number(s.take(k)) <= hex_number(s),
    decreases s.len() - k,
{
    if k < s.len() {
        lemma_hex_number_monotone(s, k + 1);
        assert(s.take(k + 1).drop_last() =~= s.take(k));
    } else {
        assert(s.take(k) =~= s);
    }
}

/// Reads a 32-bit number written in hexadecimal.
pub fn parse_hex(text: &[u8]) -> (r: Option<u32>)
    ensures
        r == parsed_hex(text@),
{
    if text.len() == 0 {
        return None;
    }
    let mut acc: u64 = 0;
    let mut i: usize = 0;
    while i < text.len()
        invariant
            i <= text.len(),
            all_hex(text@.take(i as int)),
            acc == hex_number(text@.take(i as int)),
            acc <= 0xFFFF_FFFF,
        decreases text.len() - i,
    {
        let b = text[i];
        let digit: u64 = if 48 <= b && b <= 57 {
            (b - 48) as u64
        } else if 97 <= b && b <= 102 {
            (b - 87) as u64
        } else if 65 <= b && b <= 70 {
            (b - 55) as u64
        } else {
            assert(text@[i as int] == b);
            assert(!all_hex(text@));
            return None;
        };
        proof {
            assert(text@.take(i + 1).drop_last() =~= text@.take(i as int));
            assert(text@.take(i + 1).last() == b);
            assert forall|j: int| 0 <= j < i + 1 implies hex_value(
                #[trigger] text@.take(i + 1)[j],
            ) is Some by {
                if j < i {
                    assert(hex_value(text@.take(i as int)[j]) is Some);
                }
            }
        }
        acc = acc * 16 + digit;
        if acc > 0xFFFF_FFFF {
            proof {
                lemma_hex_number_monotone(text@, i + 1);
            }
            return None;
        }
        i += 1;
    }
    assert(text@.take(i as int) =~= text@);
    Some(acc as u32)
}

/// The lower-case hexadecimal digit of value `d`.
pub open spec fn hex_digit(d: nat) -> u8 {
    if d < 10 {
        (48 + d) as u8
    } else {
        (87 + d) as u8
    }
}

/// The lower-case hexadecimal numeral of `n`, without leading zeros.
pub open spec fn hexadecimal(n: nat) -> Seq<u8>
    decreases n,
{
    if n < 16 {
        seq![hex_digit(n)]
    } else {
        hexadecimal(n / 16).push(hex_digit(n % 16))
    }
}

/// Writes `n` as a lower-case hexadecimal numeral.
pub fn format_hex(n: u32) -> (out: Vec<u8>)
    ensures
        out@ == hexadecimal(n as nat),
{
    let mut reversed: Vec<u8> = Vec::new();
    let mut rest: u32 = n;
    while rest >= 16
        invariant
            hexadecimal(n as nat) == hexadecimal(rest as nat) + reversed@.reverse(),
        decreases rest,
    {
        let d = rest % 16;
        let digit = if d < 10 {
            (48 + d) as u8
        } else {
            (87 + d) as u8
        };
        proof {
            let next = (rest / 16) as nat;
            assert(hexadecimal(rest as nat) == hexadecimal(next).push(digit));
            assert(hexadecimal(next).push(digit) + reversed@.reverse() =~= hexadecimal(next)
                + reversed@.push(digit).reverse());
        }
        reversed.push(digit);
        rest = rest / 16;
    }
    let last = if rest < 10 {
        (48 + rest) as u8
    } else {
        (87 + rest) as u8
    };
    proof {
        assert(hexadecimal(rest as nat) == seq![last]);
        assert(seq![last] + reversed@.reverse() =~= reversed@.push(last).reverse());
    }
    reversed.push(last);
    let mut out: Vec<u8> = Vec::new();
    let mut i: usize = reversed.len();
    while i > 0
        invariant
            i <= reversed.len(),
            out@ == reversed@.reverse().take(reversed.len() - i),
        decreases i,
    {
        i -= 1;
        out.push(reversed[i]);
        assert(out@ =~= reversed@.reverse().take(reversed.len() - i));
    }
    assert(out@ =~= reversed@.reverse());
    out
}

/// A text without carriage returns loses nothing when they are dropped.
pub proof fn lemma_without_cr_keeps(s: Seq<u8>)
    requires
        !s.contains(13u8),
    ensures
        without_cr(s) == s,
    decreases s.len(),
{
    if s.len() > 0 {
        assert(s[s.len() - 1] != 13);
        assert forall|i: int| 0 <= i < s.drop_last().len() implies s.drop_last()[i] != 13 by {
            assert(s[i] != 13);
        }
        lemma_without_cr_keeps(s.drop_last());
        assert(s.drop_last().push(s.last()) =~= s);
    }
}

/// Joining with one more piece puts the separator and the piece at the end.
pub proof fn lemma_join_push(pieces: Seq<Seq<u8>>, piece: Seq<u8>, sep: u8)
    requires
        pieces.len() >= 1,
    ensures
        join(pieces.push(piece), sep) == join(pieces, sep) + seq![sep] + piece,
    decreases pieces.len(),
{
    let longer = pieces.push(piece);
    assert(longer[0] == pieces[0]);
    if pieces.len() == 1 {
        assert(longer.drop_first() =~= seq![piece]);
        assert(join(longer.drop_first(), sep) == piece);
    } else {
        lemma_join_push(pieces.drop_first(), piece, sep);
        assert(longer.drop_first() =~= pieces.drop_first().push(piece));
        assert(join(longer, sep) =~= join(pieces, sep) + seq![sep] + piece);
    }
}

/// The first `n` lines, each followed by a line feed.
pub open spec fn lines_text(lines: Seq<Seq<u8>>, n: int) -> Seq<u8>
    decreases n,
{
    if n <= 0 {
        Seq::empty()
    } else {
        lines_text(lines, n - 1) + lines[n - 1] + seq![10u8]
    }
}

/// The text of the first `n` lines depends on those lines alone.
pub proof fn lemma_lines_text_prefix(a: Seq<Seq<u8>>, b: Seq<Seq<u8>>, n: int)
    requires
        0 <= n <= a.len(),
        n <= b.len(),
        forall|j: int| 0 <= j < n ==> a[j] == b[j],
    ensures
        lines_text(a, n) == lines_text(b, n),
    decreases n,
{
    if n > 0 {
        lemma_lines_text_prefix(a, b, n - 1);
    }
}

/// The text of lines with one more line in front.
pub proof fn lemma_lines_text_prepend(first: Seq<u8>, rest: Seq<Seq<u8>>, n: int)
    requires
        0 <= n <= rest.len(),
    ensures
        lines_text(seq![first] + rest, n + 1) == first + seq![10u8] + lines_text(rest, n),
    decreases n,
{
    let all = seq![first] + rest;
    if n == 0 {
        assert(lines_text(all, 0) =~= Seq::<u8>::empty());
        assert(all[0] == first);
        assert(lines_text(all, 1) =~= first + seq![10u8]);
        assert(first + seq![10u8] + lines_text(rest, 0) =~= first + seq![10u8]);
    } else {
        lemma_lines_text_prepend(first, rest, n - 1);
        assert(all[n] == rest[n - 1]);
        assert(lines_text(all, n + 1) =~= first + seq![10u8] + lines_text(rest, n));
    }
}

/// The lines of a text, each followed by a line feed, are the text and one
/// line feed more.
pub proof fn lemma_lines_of_split(s: Seq<u8>, start: int)
    requires
        0 <= start <= s.len(),
    ensures
        lines_text(split_from(s, 10u8, start), split_from(s, 10u8, start).len() as int)
            == s.subrange(start, s.len() as int) + seq![10u8],
        split_from(s, 10u8, start).last().len() == 0 <==> (start == s.len() || s.last() == 10),
    decreases s.len() - start,
{
    let end = index_from(s, 10u8, start);
    lemma_index_from_bounds(s, 10u8, start);
    let first = s.subrange(start, end);
    let all = split_from(s, 10u8, start);
    if end < s.len() {
        let rest = split_from(s, 10u8, end + 1);
        lemma_lines_of_split(s, end + 1);
        lemma_join_split(s, 10u8, end + 1);
        assert(all == seq![first] + rest);
        lemma_lines_text_prepend(first, rest, rest.len() as int);
        assert(first + seq![10u8] + (s.subrange(end + 1, s.len() as int) + seq![10u8])
            =~= s.subrange(start, s.len() as int) + seq![10u8]);
        assert(all.last() == rest.last());
    } else {
        assert(all == seq![first]);
        assert(lines_text(all, 0) =~= Seq::<u8>::empty());
        assert(lines_text(all, 1) =~= first + seq![10u8]);
        if start < s.len() {
            assert(s[s.len() - 1] != 10);
        }
    }
}

/// A text with a line feed at its end; one is added where there is none.
pub open spec fn with_final_line_feed(s: Seq<u8>) -> Seq<u8> {
    if s.len() > 0 && s.last() == 10 {
        s
    } else {
        s.push(10u8)
    }
}

/// The first `n` cells of a line, each followed by a comma, but the last
/// cell of the line by a line feed.
pub open spec fn line_text(cells: Seq<Seq<u8>>, n: int) -> Seq<u8>
    decreases n,
{
    if n <= 0 {
        Seq::empty()
    } else {
        line_text(cells, n - 1) + cells[n - 1] + seq![
            if n == cells.len() {
                10u8
            } else {
                44u8
            },
        ]
    }
}

/// A line written cell by cell is its cells joined by commas, and a line
/// feed.
pub proof fn lemma_line_text_joins(cells: Seq<Seq<u8>>, n: int)
    requires
        1 <= n <= cells.len(),
    ensures
        line_text(cells, n) == join(cells.take(n), 44u8) + seq![
            if n == cells.len() {
                10u8
            } else {
                44u8
            },
        ],
    decreases n,
{
    if n == 1 {
        assert(line_text(cells, 0) =~= Seq::<u8>::empty());
        assert(cells.take(1)[0] == cells[0]);
        assert(join(cells.take(1), 44u8) == cells[0]);
        assert(line_text(cells, 1) =~= cells[0] + seq![
            if 1 == cells.len() {
                10u8
            } else {
                44u8
            },
        ]);
    } else {
        lemma_line_text_joins(cells, n - 1);
        lemma_join_push(cells.take(n - 1), cells[n - 1], 44u8);
        assert(cells.take(n - 1).push(cells[n - 1]) =~= cells.take(n));
    }
}

} // verus!
