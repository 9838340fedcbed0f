//! String helpers shared by the parsing and rendering code.
//!
//! Everything here is stated over `Seq<char>`, the view of `str` and `String`.

use vstd::prelude::*;
use vstd::slice::*;
use vstd::std_specs::iter::IteratorSpec;
use vstd::string::*;
use vstd::utf8::*;

verus! {

/// The pieces of `s` between occurrences of `sep`, read as a left fold over
/// the characters: a separator opens a new, empty piece and any other
/// character extends the piece that is currently open.
pub open spec fn split_on(s: Seq<char>, sep: char) -> Seq<Seq<char>>
    decreases s.len(),
{
    if s.len() == 0 {
        seq![Seq::<char>::empty()]
    } else {
        let before = split_on(s.drop_last(), sep);
        if s.last() == sep {
            before.push(Seq::<char>::empty())
        } else {
            before.drop_last().push(before.last().push(s.last()))
        }
    }
}

/// The pieces joined back together with `sep` between neighbours.
pub open spec fn join_with(pieces: Seq<Seq<char>>, sep: char) -> Seq<char>
    decreases pieces.len(),
{
    if pieces.len() == 0 {
        Seq::<char>::empty()
    } else if pieces.len() == 1 {
        pieces[0]
    } else {
        join_with(pieces.drop_last(), sep).push(sep) + pieces.last()
    }
}

/// Number of occurrences of `c` in `s`.
pub open spec fn count_of(s: Seq<char>, c: char) -> nat
    decreases s.len(),
{
    if s.len() == 0 {
        0
    } else {
        count_of(s.drop_last(), c) + if s.last() == c { 1nat } else { 0nat }
    }
}

/// Splitting always yields at least one piece, one more than there are
/// separators, and no piece contains the separator.
pub proof fn lemma_split_shape(s: Seq<char>, sep: char)
    ensures
        split_on(s, sep).len() == count_of(s, sep) + 1,
        forall|k: int| 0 <= k < split_on(s, sep).len() ==> !(#[trigger] split_on(s, sep)[k]).contains(sep),
    decreases s.len(),
{
    if s.len() > 0 {
        lemma_split_shape(s.drop_last(), sep);
        let before = split_on(s.drop_last(), sep);
        let after = split_on(s, sep);
        if s.last() != sep {
            let grown = before.last().push(s.last());
            assert forall|k: int| 0 <= k < after.len() implies !(#[trigger] after[k]).contains(sep) by {
                if k == after.len() - 1 {
                    assert(after[k] == grown);
                    assert forall|j: int| 0 <= j < grown.len() implies grown[j] != sep by {
                        if j < before.last().len() {
                            assert(before.last().contains(grown[j]));
                        }
                    }
                } else {
                    assert(after[k] == before[k]);
                }
            }
        } else {
            assert forall|k: int| 0 <= k < after.len() implies !(#[trigger] after[k]).contains(sep) by {
                if k < before.len() {
                    assert(after[k] == before[k]);
                }
            }
        }
    }
}

/// Joining the pieces of a split gives back the text that was split.
pub proof fn lemma_join_split(s: Seq<char>, sep: char)
    ensures
        join_with(split_on(s, sep), sep) == s,
    decreases s.len(),
{
    if s.len() == 0 {
        assert(join_with(split_on(s, sep), sep) =~= s);
    } else {
        lemma_join_split(s.drop_last(), sep);
        lemma_split_shape(s.drop_last(), sep);
        let before = split_on(s.drop_last(), sep);
        let after = split_on(s, sep);
        if s.last() == sep {
            assert(after.drop_last() =~= before);
            assert(join_with(after, sep) =~= s);
        } else {
            if before.len() == 1 {
                assert(join_with(after, sep) =~= s);
            } else {
                assert(after.drop_last() =~= before.drop_last());
                let head = join_with(before.drop_last(), sep).push(sep);
                assert(head + before.last().push(s.last()) =~= (head + before.last()).push(
                    s.last(),
                ));
                assert(s.drop_last().push(s.last()) =~= s);
            }
        }
    }
}

/// A text without the separator splits into itself alone.
pub proof fn lemma_split_without_sep(s: Seq<char>, sep: char)
    requires
        !s.contains(sep),
    ensures
        split_on(s, sep) == seq![s],
    decreases s.len(),
{
    if s.len() == 0 {
        assert(s =~= Seq::<char>::empty());
    } else {
        assert(s.last() == s[s.len() - 1]);
        assert forall|j: int| 0 <= j < s.drop_last().len() implies s.drop_last()[j] != sep by {
            assert(s.contains(s[j]));
        }
        lemma_split_without_sep(s.drop_last(), sep);
        assert(s.drop_last().push(s.last()) =~= s);
        assert(split_on(s, sep) =~= seq![s]);
    }
}

/// Splits `s` at every `sep`, keeping empty pieces.
pub fn split(s: &str, sep: char) -> (pieces: Vec<String>)
    ensures
        pieces.deep_view() == split_on(s@, sep),
{
    let n = s.unicode_len();
    let mut pieces: Vec<String> = Vec::new();
    let mut start: usize = 0;
    let mut i: usize = 0;
    proof {
        assert(s@.take(0) =~= Seq::<char>::empty());
        assert(s@.subrange(0, 0) =~= Seq::<char>::empty());
        assert(pieces.deep_view() =~= Seq::<Seq<char>>::empty());
        assert(split_on(s@.take(0), sep) =~= pieces.deep_view().push(s@.subrange(0, 0)));
    }
    while i < n
        invariant
            n == s@.len(),
            start <= i <= n,
            split_on(s@.take(i as int), sep) == pieces.deep_view().push(
                s@.subrange(start as int, i as int),
            ),
        decreases n - i,
    {
        let c = s.get_char(i);
        proof {
            assert(s@.take(i + 1).drop_last() =~= s@.take(i as int));
            assert(s@.take(i + 1).last() == c);
        }
        if c == sep {
            let piece = s.substring_char(start, i);
            let ghost before = pieces.deep_view();
            pieces.push(piece.to_string());
            proof {
                assert(pieces.deep_view() =~= before.push(s@.subrange(start as int, i as int)));
                assert(s@.subrange(i + 1, i + 1) =~= Seq::<char>::empty());
            }
            start = i + 1;
        } else {
            proof {
                let open = s@.subrange(start as int, i as int);
                assert(pieces.deep_view().push(open).drop_last() =~= pieces.deep_view());
                assert(open.push(c) =~= s@.subrange(start as int, i + 1));
            }
        }
        i = i + 1;
    }
    let piece = s.substring_char(start, n);
    let ghost before = pieces.deep_view();
    pieces.push(piece.to_string());
    proof {
        assert(s@.take(n as int) =~= s@);
        assert(pieces.deep_view() =~= before.push(s@.subrange(start as int, n as int)));
    }
    pieces
}

/// Lexicographic order on bytes: `a` comes before `b` when, at the first
/// place where they differ, `a` has the smaller byte or has ended.
pub open spec fn bytes_lt(a: Seq<u8>, b: Seq<u8>) -> bool
    decreases a.len(),
{
    if b.len() == 0 {
        false
    } else if a.len() == 0 {
        true
    } else if a[0] != b[0] {
        a[0] < b[0]
    } else {
        bytes_lt(a.drop_first(), b.drop_first())
    }
}

/// The order of texts: that of their UTF-8 encodings, byte by byte.
pub open spec fn text_lt(a: Seq<char>, b: Seq<char>) -> bool {
    bytes_lt(encode_utf8(a), encode_utf8(b))
}

/// Nothing comes before itself, and of two byte strings at most one comes
/// before the other.
pub proof fn lemma_bytes_lt_asymmetric(a: Seq<u8>, b: Seq<u8>)
    ensures
        bytes_lt(a, b) ==> !bytes_lt(b, a),
    decreases a.len(),
{
    if a.len() > 0 && b.len() > 0 && a[0] == b[0] {
        lemma_bytes_lt_asymmetric(a.drop_first(), b.drop_first());
    }
}

/// Of two different byte strings one comes before the other.
pub proof fn lemma_bytes_lt_total(a: Seq<u8>, b: Seq<u8>)
    ensures
        a == b || bytes_lt(a, b) || bytes_lt(b, a),
    decreases a.len(),
{
    if a.len() > 0 && b.len() > 0 && a[0] == b[0] {
        lemma_bytes_lt_total(a.drop_first(), b.drop_first());
        if a.drop_first() == b.drop_first() {
            assert(a =~= seq![a[0]] + a.drop_first());
            assert(b =~= seq![b[0]] + b.drop_first());
        }
    } else if a.len() == 0 && b.len() == 0 {
        assert(a =~= b);
    }
}

/// The order on bytes is transitive.
pub proof fn lemma_bytes_lt_transitive(a: Seq<u8>, b: Seq<u8>, c: Seq<u8>)
    requires
        bytes_lt(a, b),
        bytes_lt(b, c),
    ensures
        bytes_lt(a, c),
    decreases a.len(),
{
    if a.len() > 0 && a[0] == b[0] && b[0] == c[0] {
        lemma_bytes_lt_transitive(a.drop_first(), b.drop_first(), c.drop_first());
    }
}

/// The order of texts is a strict total order.
pub proof fn lemma_text_lt_total_order(a: Seq<char>, b: Seq<char>, c: Seq<char>)
    ensures
        !text_lt(a, a),
        text_lt(a, b) ==> !text_lt(b, a),
        a == b || text_lt(a, b) || text_lt(b, a),
        text_lt(a, b) && text_lt(b, c) ==> text_lt(a, c),
        !text_lt(b, a) && !text_lt(c, b) ==> !text_lt(c, a),
{
    let (x, y, z) = (encode_utf8(a), encode_utf8(b), encode_utf8(c));
    lemma_bytes_lt_asymmetric(x, x);
    lemma_bytes_lt_asymmetric(x, y);
    lemma_bytes_lt_total(x, y);
    if x == y {
        encode_utf8_decode_utf8(a);
        encode_utf8_decode_utf8(b);
    }
    if bytes_lt(x, y) && bytes_lt(y, z) {
        lemma_bytes_lt_transitive(x, y, z);
    }
    if !bytes_lt(y, x) && !bytes_lt(z, y) && bytes_lt(z, x) {
        if x != y {
            lemma_bytes_lt_transitive(z, x, y);
        }
    }
}

/// Whether `a` comes before `b` in the order of texts.
pub fn text_before(a: &str, b: &str) -> (before: bool)
    ensures
        before == text_lt(a@, b@),
{
    let x = a.as_bytes();
    let y = b.as_bytes();
    let mut i: usize = 0;
    proof {
        assert(x@.skip(0) =~= x@);
        assert(y@.skip(0) =~= y@);
    }
    while i < x.len() && i < y.len()
        invariant
            i <= x@.len(),
            i <= y@.len(),
            x@ == encode_utf8(a@),
            y@ == encode_utf8(b@),
            bytes_lt(x@, y@) == bytes_lt(x@.skip(i as int), y@.skip(i as int)),
        decreases x@.len() - i,
    {
        proof {
            assert(x@.skip(i as int)[0] == x@[i as int]);
            assert(y@.skip(i as int)[0] == y@[i as int]);
            assert(x@.skip(i as int).drop_first() =~= x@.skip(i + 1));
            assert(y@.skip(i as int).drop_first() =~= y@.skip(i + 1));
        }
        if x[i] != y[i] {
            return x[i] < y[i];
        }
        i = i + 1;
    }
    i < y.len()
}

/// Whether `c` is white space in the sense of Unicode.
pub open spec fn white_space(c: char) -> bool {
    let u = c as u32;
    ||| 0x09 <= u <= 0x0D
    ||| u == 0x20
    ||| u == 0x85
    ||| u == 0xA0
    ||| u == 0x1680
    ||| 0x2000 <= u <= 0x200A
    ||| u == 0x2028
    ||| u == 0x2029
    ||| u == 0x202F
    ||| u == 0x205F
    ||| u == 0x3000
}

/// Whether `c` is white space in the sense of Unicode.
pub fn is_white_space(c: char) -> (yes: bool)
    ensures
        yes == white_space(c),
{
    let u = c as u32;
    (0x09 <= u && u <= 0x0D) || u == 0x20 || u == 0x85 || u == 0xA0 || u == 0x1680 || (0x2000 <= u
        && u <= 0x200A) || u == 0x2028 || u == 0x2029 || u == 0x202F || u == 0x205F || u == 0x3000
}

/// `s` without the white space it starts with.
pub open spec fn trim_start(s: Seq<char>) -> Seq<char>
    decreases s.len(),
{
    if s.len() > 0 && white_space(s[0]) {
        trim_start(s.drop_first())
    } else {
        s
    }
}

/// `s` without the white space it ends with.
pub open spec fn trim_end(s: Seq<char>) -> Seq<char>
    decreases s.len(),
{
    if s.len() > 0 && white_space(s.last()) {
        trim_end(s.drop_last())
    } else {
        s
    }
}

/// `s` without the white space around it.
pub open spec fn trimmed(s: Seq<char>) -> Seq<char> {
    trim_end(trim_start(s))
}

/// Where the first `lead` characters are white space and the next one is
/// not, trimming the start drops exactly those.
pub proof fn lemma_trim_start_at(s: Seq<char>, lead: int)
    requires
        0 <= lead <= s.len(),
        forall|k: int| 0 <= k < lead ==> white_space(#[trigger] s[k]),
        lead < s.len() ==> !white_space(s[lead]),
    ensures
        trim_start(s) == s.skip(lead),
    decreases lead,
{
    if lead == 0 {
        assert(s.skip(0) =~= s);
    } else {
        assert(white_space(s[0]));
        let rest = s.drop_first();
        assert forall|k: int| 0 <= k < lead - 1 implies white_space(#[trigger] rest[k]) by {
            assert(rest[k] == s[k + 1]);
        }
        lemma_trim_start_at(rest, lead - 1);
        assert(rest.skip(lead - 1) =~= s.skip(lead));
    }
}

/// Where everything from `end` on is white space and the character before
/// is not, trimming the end keeps exactly what comes before `end`.
pub proof fn lemma_trim_end_at(s: Seq<char>, end: int)
    requires
        0 <= end <= s.len(),
        forall|k: int| end <= k < s.len() ==> white_space(#[trigger] s[k]),
        end > 0 ==> !white_space(s[end - 1]),
    ensures
        trim_end(s) == s.take(end),
    decreases s.len() - end,
{
    if end == s.len() {
        assert(s.take(end) =~= s);
    } else {
        assert(white_space(s[s.len() - 1]));
        let rest = s.drop_last();
        lemma_trim_end_at(rest, end);
        assert(rest.take(end) =~= s.take(end));
    }
}

/// `s` without the white space around it.
pub fn trim(s: &str) -> (inner: &str)
    ensures
        inner@ == trimmed(s@),
{
    broadcast use vstd::string::group_string_axioms;

    let n = s.unicode_len();
    let mut chars = s.chars();
    let mut i: usize = 0;
    let mut first: usize = 0;
    let mut end: usize = 0;
    let mut seen = false;
    loop
        invariant
            n == s@.len(),
            i <= n,
            chars.remaining() == s@.skip(i as int),
            !seen ==> first == 0 && end == 0 && forall|k: int|
                0 <= k < i ==> white_space(#[trigger] s@[k]),
            seen ==> {
                &&& first < end <= i
                &&& forall|k: int| 0 <= k < first ==> white_space(#[trigger] s@[k])
                &&& !white_space(s@[first as int])
                &&& !white_space(s@[end - 1])
                &&& forall|k: int| end <= k < i ==> white_space(#[trigger] s@[k])
            },
        ensures
            i == n,
        decreases n - i,
    {
        match chars.next() {
            Some(c) => {
                assert(c == s@[i as int]);
                if !is_white_space(c) {
                    if !seen {
                        first = i;
                        seen = true;
                    }
                    end = i + 1;
                }
                i = i + 1;
            },
            None => {
                break ;
            },
        }
    }
    proof {
        if seen {
            lemma_trim_start_at(s@, first as int);
            let tail = s@.skip(first as int);
            assert forall|k: int| end - first <= k < tail.len() implies white_space(
                #[trigger] tail[k],
            ) by {
                assert(tail[k] == s@[k + first]);
            }
            assert(tail[end - first - 1] == s@[end - 1]);
            lemma_trim_end_at(tail, end - first);
            assert(tail.take(end - first) =~= s@.subrange(first as int, end as int));
        } else {
            lemma_trim_start_at(s@, n as int);
            assert(s@.skip(n as int) =~= Seq::<char>::empty());
            assert(s@.subrange(0, 0) =~= Seq::<char>::empty());
        }
    }
    s.substring_char(first, end)
}

/// Whether `c` is one of the ten decimal digits.
pub open spec fn is_digit(c: char) -> bool {
    '0' <= c <= '9'
}

/// The number that a string of decimal digits stands for.
pub open spec fn digits_value(s: Seq<char>) -> nat
    decreases s.len(),
{
    if s.len() == 0 {
        0
    } else {
        digits_value(s.drop_last()) * 10 + (s.last() as nat - '0' as nat) as nat
    }
}

/// Every character of `s` is a decimal digit.
pub open spec fn all_digits(s: Seq<char>) -> bool {
    forall|i: int| 0 <= i < s.len() ==> is_digit(#[trigger] s[i])
}

/// The number a decimal numeral stands for: an optional `+`, then one digit
/// or more, and nothing else.
pub open spec fn numeral(s: Seq<char>) -> Option<nat> {
    let digits = if s.len() > 0 && s[0] == '+' {
        s.drop_first()
    } else {
        s
    };
    if digits.len() > 0 && all_digits(digits) {
        Some(digits_value(digits))
    } else {
        None
    }
}

/// The port a text names: a numeral of at most 65535.
pub open spec fn port_of(s: Seq<char>) -> Option<u16> {
    match numeral(s) {
        Some(value) => if value <= u16::MAX {
            Some(value as u16)
        } else {
            None
        },
        None => None,
    }
}

/// A string of digits stands for at least as much as any of its beginnings.
pub proof fn lemma_digits_value_grows(s: Seq<char>, upto: int)
    requires
        0 <= upto <= s.len(),
        all_digits(s),
    ensures
        digits_value(s.take(upto)) <= digits_value(s),
    decreases s.len() - upto,
{
    if upto == s.len() {
        assert(s.take(upto) =~= s);
    } else {
        assert(is_digit(s[s.len() - 1]));
        lemma_digits_value_grows(s.drop_last(), upto);
        assert(s.drop_last().take(upto) =~= s.take(upto));
    }
}

/// Reads a port number: an optional `+`, then decimal digits that stand for
/// at most 65535.
pub fn parse_port(s: &str) -> (port: Option<u16>)
    ensures
        port == port_of(s@),
{
    broadcast use vstd::string::group_string_axioms;

    let n = s.unicode_len();
    let mut chars = s.chars();
    let mut i: usize = 0;
    let mut value: u32 = 0;
    let mut signed = false;
    let ghost digits = if s@.len() > 0 && s@[0] == '+' {
        s@.drop_first()
    } else {
        s@
    };
    proof {
        assert(s@.skip(0) =~= s@);
        assert(digits.take(0) =~= Seq::<char>::empty());
    }
    loop
        invariant
            n == s@.len(),
            i <= n,
            chars.remaining() == s@.skip(i as int),
            signed <==> s@.len() > 0 && s@[0] == '+' && i > 0,
            digits == if s@.len() > 0 && s@[0] == '+' {
                s@.drop_first()
            } else {
                s@
            },
            i > 0 || !signed,
            all_digits(digits.take(i - if signed { 1int } else { 0int })),
            value == digits_value(digits.take(i - if signed { 1int } else { 0int })),
            value <= u16::MAX,
        ensures
            i == n,
        decreases n - i,
    {
        match chars.next() {
            Some(c) => {
                assert(c == s@[i as int]);
                if i == 0 && c == '+' {
                    signed = true;
                    proof {
                        assert(digits.take(0) =~= Seq::<char>::empty());
                    }
                } else {
                    let ghost at = i - if signed { 1int } else { 0int };
                    proof {
                        assert(digits[at] == c);
                        assert(digits.take(at + 1).drop_last() =~= digits.take(at));
                        assert(digits.take(at + 1).last() == c);
                    }
                    if !('0' <= c && c <= '9') {
                        return None;
                    }
                    proof {
                        assert forall|k: int| 0 <= k < at + 1 implies is_digit(
                            #[trigger] digits.take(at + 1)[k],
                        ) by {
                            if k < at {
                                assert(digits.take(at)[k] == digits.take(at + 1)[k]);
                            }
                        }
                    }
                    let next = value * 10 + (c as u32 - '0' as u32);
                    if next > 65535 {
                        proof {
                            if all_digits(digits) {
                                lemma_digits_value_grows(digits, at + 1);
                            }
                        }
                        return None;
                    }
                    value = next;
                }
                i = i + 1;
            },
            None => {
                break ;
            },
        }
    }
    proof {
        assert(digits.take(digits.len() as int) =~= digits);
    }
    if (signed && n == 1) || n == 0 {
        None
    } else {
        Some(value as u16)
    }
}

/// The character of a decimal digit.
pub open spec fn digit_char(digit: nat) -> char {
    if digit == 0 {
        '0'
    } else if digit == 1 {
        '1'
    } else if digit == 2 {
        '2'
    } else if digit == 3 {
        '3'
    } else if digit == 4 {
        '4'
    } else if digit == 5 {
        '5'
    } else if digit == 6 {
        '6'
    } else if digit == 7 {
        '7'
    } else if digit == 8 {
        '8'
    } else {
        '9'
    }
}

/// The decimal numeral of `n`, without leading zeros.
pub open spec fn decimal(n: nat) -> Seq<char>
    decreases n,
{
    if n < 10 {
        seq![digit_char(n)]
    } else {
        decimal(n / 10).push(digit_char(n % 10))
    }
}

/// A decimal numeral reads back as the number it was written for.
pub proof fn lemma_decimal_reads_back(n: nat)
    ensures
        decimal(n).len() > 0,
        all_digits(decimal(n)),
        digits_value(decimal(n)) == n,
        numeral(decimal(n)) == Some(n),
    decreases n,
{
    let text = decimal(n);
    if n < 10 {
        assert(text.drop_last() =~= Seq::<char>::empty());
        assert(digits_value(text.drop_last()) == 0);
        assert(text.last() == digit_char(n));
    } else {
        lemma_decimal_reads_back(n / 10);
        let front = decimal(n / 10);
        assert(text.drop_last() =~= front);
        assert(text.last() == digit_char(n % 10));
        assert forall|i: int| 0 <= i < text.len() implies is_digit(#[trigger] text[i]) by {
            if i < front.len() {
                assert(text[i] == front[i]);
            }
        }
    }
    assert(text[0] != '+');
}

/// The string of one decimal digit.
fn digit_str(digit: u64) -> (text: &'static str)
    requires
        digit < 10,
    ensures
        text@ == seq![digit_char(digit as nat)],
{
    proof {
        reveal_strlit("0");
        reveal_strlit("1");
        reveal_strlit("2");
        reveal_strlit("3");
        reveal_strlit("4");
        reveal_strlit("5");
        reveal_strlit("6");
        reveal_strlit("7");
        reveal_strlit("8");
        reveal_strlit("9");
    }
    let text = if digit == 0 {
        "0"
    } else if digit == 1 {
        "1"
    } else if digit == 2 {
        "2"
    } else if digit == 3 {
        "3"
    } else if digit == 4 {
        "4"
    } else if digit == 5 {
        "5"
    } else if digit == 6 {
        "6"
    } else if digit == 7 {
        "7"
    } else if digit == 8 {
        "8"
    } else {
        "9"
    };
    assert(text@ =~= seq![digit_char(digit as nat)]);
    text
}

/// Writes `n` in decimal.
pub fn render_decimal(n: u64) -> (text: String)
    ensures
        text@ == decimal(n as nat),
    decreases n,
{
    if n < 10 {
        digit_str(n).to_string()
    } else {
        let mut text = render_decimal(n / 10);
        text.append(digit_str(n % 10));
        proof {
            let front = decimal((n / 10) as nat);
            assert(front + seq![digit_char((n % 10) as nat)] =~= front.push(
                digit_char((n % 10) as nat),
            ));
        }
        text
    }
}

/// `s` with blanks put before it until it is `width` characters long; `s`
/// itself where it is that long already.
pub open spec fn padded_left(s: Seq<char>, width: nat) -> Seq<char> {
    if s.len() >= width {
        s
    } else {
        Seq::new((width - s.len()) as nat, |i: int| ' ') + s
    }
}

/// Sets `s` to the right of a column `width` characters wide.
pub fn pad_left(s: &str, width: usize) -> (padded: String)
    ensures
        padded@ == padded_left(s@, width as nat),
{
    let n = s.unicode_len();
    let mut padded = String::new();
    let mut i: usize = n;
    proof {
        reveal_strlit(" ");
    }
    while i < width
        invariant
            n <= i,
            n < width ==> i <= width,
            n >= width ==> i == n,
            " "@ == seq![' '],
            padded@ == Seq::new((i - n) as nat, |k: int| ' '),
        decreases width - i,
    {
        let ghost before = padded@;
        padded.append(" ");
        i = i + 1;
        proof {
            assert(padded@ =~= Seq::new((i - n) as nat, |k: int| ' '));
        }
    }
    let ghost blanks = padded@;
    padded.append(s);
    proof {
        if n >= width {
            assert(blanks =~= Seq::<char>::empty());
            assert(padded@ =~= s@);
        }
    }
    padded
}

} // verus!
