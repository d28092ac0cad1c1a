//! The text form of a graph.
//!
//! The first line holds the number of vertices and the number of edges.
//! Every further line holds one edge: the vertex it leaves, the vertex it
//! enters and its weight. The fields of a line are separated by blanks.
//! Lines end with a line feed; the last line may do without it.

use vstd::prelude::*;

verus! {

/// Space, tab, line feed, form feed and carriage return separate fields.
pub open spec fn is_blank(b: u8) -> bool {
    b == 0x20 || b == 0x09 || b == 0x0a || b == 0x0c || b == 0x0d
}

/// The byte is one of the digits `0` to `9`.
pub open spec fn is_digit(b: u8) -> bool {
    0x30 <= b <= 0x39
}

/// The number of bytes before the first line feed, or before the end.
pub open spec fn line_len(text: Seq<u8>) -> nat
    decreases text.len(),
{
    if text.len() == 0 || text[0] == 0x0a {
        0
    } else {
        1 + line_len(text.drop_first())
    }
}

/// A line ends within the text, at a line feed or at the end.
pub proof fn lemma_line_len(text: Seq<u8>)
    ensures
        line_len(text) <= text.len(),
        line_len(text) < text.len() ==> text[line_len(text) as int] == 0x0a,
    decreases text.len(),
{
    if text.len() > 0 && text[0] != 0x0a {
        lemma_line_len(text.drop_first());
    }
}

/// The lines of `text`, without their line feeds. A line feed at the very
/// end of the text does not start another line.
pub open spec fn split_lines(text: Seq<u8>) -> Seq<Seq<u8>>
    decreases text.len(),
{
    if text.len() == 0 {
        Seq::empty()
    } else {
        let n = line_len(text);
        proof {
            lemma_line_len(text);
        }
        if n < text.len() {
            seq![text.take(n as int)] + split_lines(text.skip(n as int + 1))
        } else {
            seq![text]
        }
    }
}

/// The number of blanks at the start of `s`.
pub open spec fn blank_len(s: Seq<u8>) -> nat
    decreases s.len(),
{
    if s.len() > 0 && is_blank(s[0]) {
        1 + blank_len(s.drop_first())
    } else {
        0
    }
}

/// The number of bytes at the start of `s` that are not blanks.
pub open spec fn word_len(s: Seq<u8>) -> nat
    decreases s.len(),
{
    if s.len() > 0 && !is_blank(s[0]) {
        1 + word_len(s.drop_first())
    } else {
        0
    }
}

/// The blanks at the start end within the text, before a byte that is not
/// a blank or at the end.
pub proof fn lemma_blank_len(s: Seq<u8>)
    ensures
        blank_len(s) <= s.len(),
        blank_len(s) < s.len() ==> !is_blank(s[blank_len(s) as int]),
    decreases s.len(),
{
    if s.len() > 0 && is_blank(s[0]) {
        lemma_blank_len(s.drop_first());
    }
}

/// A word ends within the text, and holds its first byte if that is not a
/// blank.
pub proof fn lemma_word_len(s: Seq<u8>)
    ensures
        word_len(s) <= s.len(),
        s.len() > 0 && !is_blank(s[0]) ==> word_len(s) >= 1,
    decreases s.len(),
{
    if s.len() > 0 && !is_blank(s[0]) {
        lemma_word_len(s.drop_first());
    }
}

/// The fields of a line: its longest stretches of bytes that are not blanks.
pub open spec fn tokens(s: Seq<u8>) -> Seq<Seq<u8>>
    decreases s.len(),
{
    let rest = s.skip(blank_len(s) as int);
    proof {
        lemma_blank_len(s);
        lemma_word_len(rest);
    }
    if rest.len() == 0 {
        Seq::empty()
    } else {
        seq![rest.take(word_len(rest) as int)] + tokens(rest.skip(word_len(rest) as int))
    }
}

/// The number that a string of decimal digits stands for.
pub open spec fn decimal(digits: Seq<u8>) -> nat
    decreases digits.len(),
{
    if digits.len() == 0 {
        0
    } else {
        (decimal(digits.drop_last()) * 10 + (digits.last() - 0x30)) as nat
    }
}

/// `digits` is not empty and holds decimal digits only.
pub open spec fn all_digits(digits: Seq<u8>) -> bool {
    &&& digits.len() > 0
    &&& forall|i: int| 0 <= i < digits.len() ==> is_digit(#[trigger] digits[i])
}

/// The number that a field stands for when read as an unsigned number: an
/// optional `+`, then at least one digit, with a value that fits `usize`.
pub open spec fn parse_unsigned(token: Seq<u8>) -> Option<usize> {
    let digits = if token.len() > 0 && token[0] == 0x2b {
        token.drop_first()
    } else {
        token
    };
    if all_digits(digits) && decimal(digits) <= usize::MAX {
        Some(decimal(digits) as usize)
    } else {
        None
    }
}

/// The number that a field stands for when read as a signed number: an
/// optional `+` or `-`, then at least one digit, with a value that fits `i32`.
pub open spec fn parse_signed(token: Seq<u8>) -> Option<i32> {
    let negative = token.len() > 0 && token[0] == 0x2d;
    let digits = if token.len() > 0 && (token[0] == 0x2b || token[0] == 0x2d) {
        token.drop_first()
    } else {
        token
    };
    if !all_digits(digits) {
        None
    } else if negative {
        if decimal(digits) <= 0x8000_0000 {
            Some((-decimal(digits)) as i32)
        } else {
            None
        }
    } else {
        if decimal(digits) <= 0x7fff_ffff {
            Some(decimal(digits) as i32)
        } else {
            None
        }
    }
}

/// A longer string of digits does not stand for a smaller number.
pub proof fn lemma_decimal_grows(digits: Seq<u8>, k: int)
    requires
        0 <= k <= digits.len(),
        forall|i: int| 0 <= i < digits.len() ==> is_digit(#[trigger] digits[i]),
    ensures
        decimal(digits.take(k)) <= decimal(digits),
    decreases digits.len() - k,
{
    if k < digits.len() {
        lemma_decimal_grows(digits, k + 1);
        assert(digits.take(k + 1).drop_last() =~= digits.take(k));
        assert(digits.take(k + 1).last() == digits[k]);
    } else {
        assert(digits.take(k) =~= digits);
    }
}

/// The end of the line that starts at `from`.
pub fn line_end(content: &[u8], from: usize) -> (end: usize)
    requires
        from <= content@.len(),
    ensures
        from <= end <= content@.len(),
        end == from + line_len(content@.skip(from as int)),
{
    let mut end: usize = from;
    while end < content.len() && content[end] != 0x0a
        invariant
            from <= end <= content@.len(),
            line_len(content@.skip(from as int)) == (end - from) + line_len(
                content@.skip(end as int),
            ),
        decreases content@.len() - end,
    {
        proof {
            assert(content@.skip(end as int).drop_first() =~= content@.skip(end + 1));
        }
        end += 1;
    }
    end
}

/// The position of the first byte from `from` on, and before `to`, that is
/// not a blank.
pub fn skip_blanks(content: &[u8], from: usize, to: usize) -> (end: usize)
    requires
        from <= to <= content@.len(),
    ensures
        from <= end <= to,
        end == from + blank_len(content@.subrange(from as int, to as int)),
{
    let mut end: usize = from;
    while end < to && (content[end] == 0x20 || content[end] == 0x09 || content[end] == 0x0a
        || content[end] == 0x0c || content[end] == 0x0d)
        invariant
            from <= end <= to <= content@.len(),
            blank_len(content@.subrange(from as int, to as int)) == (end - from) + blank_len(
                content@.subrange(end as int, to as int),
            ),
        decreases to - end,
    {
        proof {
            assert(content@.subrange(end as int, to as int).drop_first() =~= content@.subrange(
                end + 1,
                to as int,
            ));
        }
        end += 1;
    }
    end
}

/// The position of the first blank from `from` on, and before `to`.
pub fn skip_word(content: &[u8], from: usize, to: usize) -> (end: usize)
    requires
        from <= to <= content@.len(),
    ensures
        from <= end <= to,
        end == from + word_len(content@.subrange(from as int, to as int)),
{
    let mut end: usize = from;
    while end < to && !(content[end] == 0x20 || content[end] == 0x09 || content[end] == 0x0a
        || content[end] == 0x0c || content[end] == 0x0d)
        invariant
            from <= end <= to <= content@.len(),
            word_len(content@.subrange(from as int, to as int)) == (end - from) + word_len(
                content@.subrange(end as int, to as int),
            ),
        decreases to - end,
    {
        proof {
            assert(content@.subrange(end as int, to as int).drop_first() =~= content@.subrange(
                end + 1,
                to as int,
            ));
        }
        end += 1;
    }
    end
}

/// The fields that the given stretches of `content` hold.
pub open spec fn stretches(content: Seq<u8>, ranges: Seq<(usize, usize)>) -> Seq<Seq<u8>> {
    Seq::new(ranges.len(), |k: int| content.subrange(ranges[k].0 as int, ranges[k].1 as int))
}

/// The fields of the line that lies between `from` and `to`, each as the
/// stretch of `content` that it takes.
pub fn split_tokens(content: &[u8], from: usize, to: usize) -> (ranges: Vec<(usize, usize)>)
    requires
        from <= to <= content@.len(),
    ensures
        stretches(content@, ranges@) == tokens(content@.subrange(from as int, to as int)),
        forall|k: int|
            0 <= k < ranges@.len() ==> from <= (#[trigger] ranges@[k]).0 <= ranges@[k].1 <= to,
{
    let mut ranges: Vec<(usize, usize)> = Vec::new();
    let mut at: usize = from;
    let ghost line = content@.subrange(from as int, to as int);
    proof {
        assert(stretches(content@, ranges@) =~= Seq::<Seq<u8>>::empty());
    }
    loop
        invariant
            from <= at <= to <= content@.len(),
            line == content@.subrange(from as int, to as int),
            tokens(line) == stretches(content@, ranges@) + tokens(
                content@.subrange(at as int, to as int),
            ),
            forall|k: int|
                0 <= k < ranges@.len() ==> from <= (#[trigger] ranges@[k]).0 <= ranges@[k].1 <= to,
        ensures
            tokens(line) == stretches(content@, ranges@),
        decreases to - at,
    {
        let ghost here = content@.subrange(at as int, to as int);
        let start: usize = skip_blanks(content, at, to);
        let ghost rest = here.skip(blank_len(here) as int);
        proof {
            lemma_blank_len(here);
            assert(rest =~= content@.subrange(start as int, to as int));
        }
        if start == to {
            proof {
                assert(tokens(here) =~= Seq::<Seq<u8>>::empty());
            }
            break ;
        }
        let end: usize = skip_word(content, start, to);
        proof {
            lemma_word_len(rest);
            assert(rest.take(word_len(rest) as int) =~= content@.subrange(start as int, end as int));
            assert(rest.skip(word_len(rest) as int) =~= content@.subrange(end as int, to as int));
            assert(stretches(content@, ranges@.push((start, end))) =~= stretches(
                content@,
                ranges@,
            ) + seq![content@.subrange(start as int, end as int)]);
        }
        ranges.push((start, end));
        at = end;
    }
    ranges
}

/// Whether the byte before `to` completes a string of digits that started
/// at `from`; `value` is the number read so far.
spec fn digits_read(content: Seq<u8>, from: int, to: int, value: int) -> bool {
    &&& forall|i: int| from <= i < to ==> is_digit(#[trigger] content[i])
    &&& value == decimal(content.subrange(from, to))
}

/// Reads the digits between `from` and `to` as a number of at most `limit`.
fn read_digits(content: &[u8], from: usize, to: usize, limit: u64) -> (r: Option<u64>)
    requires
        from <= to <= content@.len(),
        9 <= limit,
    ensures
        r == if all_digits(content@.subrange(from as int, to as int)) && decimal(
            content@.subrange(from as int, to as int),
        ) <= limit {
            Some(decimal(content@.subrange(from as int, to as int)) as u64)
        } else {
            None
        },
{
    let ghost digits = content@.subrange(from as int, to as int);
    if from == to {
        return None;
    }
    let mut value: u64 = 0;
    let mut at: usize = from;
    proof {
        assert(content@.subrange(from as int, from as int) =~= Seq::<u8>::empty());
    }
    while at < to
        invariant
            from <= at <= to <= content@.len(),
            from < to,
            digits == content@.subrange(from as int, to as int),
            digits_read(content@, from as int, at as int, value as int),
            value <= limit,
            9 <= limit,
        decreases to - at,
    {
        let byte: u8 = content[at];
        if byte < 0x30 || byte > 0x39 {
            proof {
                assert(!is_digit(digits[at - from]));
            }
            return None;
        }
        let digit: u64 = (byte - 0x30) as u64;
        proof {
            assert(content@.subrange(from as int, at + 1).drop_last() =~= content@.subrange(
                from as int,
                at as int,
            ));
        }
        if value > (limit - digit) / 10 {
            proof {
                let read = content@.subrange(from as int, at + 1);
                assert(decimal(read) > limit);
                if all_digits(digits) {
                    assert(digits.take(at + 1 - from) =~= read);
                    lemma_decimal_grows(digits, at + 1 - from);
                }
            }
            return None;
        }
        value = value * 10 + digit;
        at += 1;
    }
    proof {
        assert forall|i: int| 0 <= i < digits.len() implies is_digit(#[trigger] digits[i]) by {
            assert(digits[i] == content@[from + i]);
        }
    }
    Some(value)
}

/// Reads the field between `from` and `to` as an unsigned number.
pub fn parse_usize(content: &[u8], from: usize, to: usize) -> (r: Option<usize>)
    requires
        from <= to <= content@.len(),
    ensures
        r == parse_unsigned(content@.subrange(from as int, to as int)),
{
    let ghost token = content@.subrange(from as int, to as int);
    let start: usize = if from < to && content[from] == 0x2b {
        from + 1
    } else {
        from
    };
    proof {
        if start > from {
            assert(token.drop_first() =~= content@.subrange(start as int, to as int));
        }
    }
    match read_digits(content, start, to, usize::MAX as u64) {
        Some(value) => Some(value as usize),
        None => None,
    }
}

/// Reads the field between `from` and `to` as a signed number.
pub fn parse_i32(content: &[u8], from: usize, to: usize) -> (r: Option<i32>)
    requires
        from <= to <= content@.len(),
    ensures
        r == parse_signed(content@.subrange(from as int, to as int)),
{
    let ghost token = content@.subrange(from as int, to as int);
    let negative: bool = from < to && content[from] == 0x2d;
    let start: usize = if from < to && (content[from] == 0x2b || content[from] == 0x2d) {
        from + 1
    } else {
        from
    };
    proof {
        if start > from {
            assert(token.drop_first() =~= content@.subrange(start as int, to as int));
        }
    }
    if negative {
        match read_digits(content, start, to, 0x8000_0000) {
            Some(value) => Some((0 - value as i64) as i32),
            None => None,
        }
    } else {
        match read_digits(content, start, to, 0x7fff_ffff) {
            Some(value) => Some(value as i32),
            None => None,
        }
    }
}

} // verus!
