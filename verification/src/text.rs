//! The text layer of the format: lines, whitespace-separated tokens and
//! decimal numbers, all on bytes.

use vstd::prelude::*;

verus! {

/// The byte that ends a line.
pub const NEWLINE: u8 = 10;

/// The byte that the encoder puts between two numbers.
pub const SPACE: u8 = 32;

/// The plus sign, which may stand before the digits of a number.
pub const PLUS: u8 = 43;

/// The digit zero.
pub const ZERO: u8 = 48;

/// Whitespace between tokens: space, tab, line feed, vertical tab, form feed
/// and carriage return.
pub open spec fn is_space(b: u8) -> bool {
    b == 32 || (9 <= b && b <= 13)
}

/// A decimal digit.
pub open spec fn is_digit(b: u8) -> bool {
    48 <= b && b <= 57
}

/// The lines of a text: the pieces between its newline bytes. A text with
/// `n` newlines has `n + 1` lines, of which any may be empty.
pub open spec fn lines(s: Seq<u8>) -> Seq<Seq<u8>>
    decreases s.len(),
{
    if s.len() == 0 {
        seq![Seq::empty()]
    } else {
        let before = lines(s.drop_last());
        if s.last() == NEWLINE {
            before.push(Seq::empty())
        } else {
            before.drop_last().push(before.last().push(s.last()))
        }
    }
}

/// The tokens of a line: its longest runs of bytes that are not whitespace,
/// from left to right.
pub open spec fn tokens(s: Seq<u8>) -> Seq<Seq<u8>>
    decreases s.len(),
{
    if s.len() == 0 {
        Seq::empty()
    } else {
        let before = tokens(s.drop_last());
        if is_space(s.last()) {
            before
        } else if s.len() >= 2 && !is_space(s[s.len() - 2]) {
            before.drop_last().push(before.last().push(s.last()))
        } else {
            before.push(seq![s.last()])
        }
    }
}

/// Every byte is a decimal digit.
pub open spec fn all_digits(s: Seq<u8>) -> bool {
    forall|i: int| 0 <= i < s.len() ==> is_digit(#[trigger] s[i])
}

/// The number that a run of digits writes, most significant digit first.
pub open spec fn digits_value(s: Seq<u8>) -> nat
    decreases s.len(),
{
    if s.len() == 0 {
        0
    } else {
        digits_value(s.drop_last()) * 10 + (s.last() - ZERO) as nat
    }
}

/// A token without the plus sign that may lead it.
pub open spec fn unsigned_part(s: Seq<u8>) -> Seq<u8> {
    if s.len() > 0 && s[0] == PLUS {
        s.skip(1)
    } else {
        s
    }
}

/// The token is written as a number: an optional plus sign, then one or more
/// digits. Leading zeros are allowed.
pub open spec fn is_numeric(s: Seq<u8>) -> bool {
    unsigned_part(s).len() > 0 && all_digits(unsigned_part(s))
}

/// The number that a token stands for, if it is written as one and does not
/// exceed `max`.
pub open spec fn parse_number(s: Seq<u8>, max: nat) -> Option<nat> {
    if is_numeric(s) && digits_value(unsigned_part(s)) <= max {
        Some(digits_value(unsigned_part(s)))
    } else {
        None
    }
}

/// The decimal digits of a number, without leading zeros.
pub open spec fn decimal(n: nat) -> Seq<u8>
    decreases n,
{
    if n < 10 {
        seq![(ZERO + n) as u8]
    } else {
        decimal(n / 10).push((ZERO + n % 10) as u8)
    }
}

/// What each vector of a list holds.
pub open spec fn views(v: Seq<Vec<u8>>) -> Seq<Seq<u8>> {
    v.map_values(|x: Vec<u8>| x@)
}

/// Whether a byte is whitespace.
pub fn byte_is_space(b: u8) -> (r: bool)
    ensures
        r == is_space(b),
{
    b == 32 || (9 <= b && b <= 13)
}

/// Splits a text at its newline bytes.
pub fn split_lines(data: &[u8]) -> (out: Vec<Vec<u8>>)
    ensures
        views(out@) == lines(data@),
{
    let mut done: Vec<Vec<u8>> = Vec::new();
    let mut cur: Vec<u8> = Vec::new();
    let mut i: usize = 0;
    assert(data@.take(0).len() == 0);
    assert(views(done@).push(cur@) =~= lines(data@.take(0)));
    while i < data.len()
        invariant
            i <= data@.len(),
            lines(data@.take(i as int)) == views(done@).push(cur@),
        decreases data@.len() - i,
    {
        let b = data[i];
        proof {
            let next = data@.take(i + 1);
            assert(next.drop_last() =~= data@.take(i as int));
            assert(next.last() == b);
        }
        let ghost old_done = views(done@);
        let ghost old_cur = cur@;
        if b == NEWLINE {
            done.push(cur);
            cur = Vec::new();
            assert(views(done@) =~= old_done.push(old_cur));
            assert(views(done@).push(cur@) =~= old_done.push(old_cur).push(Seq::empty()));
        } else {
            cur.push(b);
            assert(old_done.push(old_cur).drop_last() =~= old_done);
        }
        i += 1;
    }
    assert(data@.take(i as int) =~= data@);
    let ghost old_done = views(done@);
    done.push(cur);
    assert(views(done@) =~= old_done.push(cur@));
    done
}

/// Splits a line into its tokens.
pub fn split_tokens(line: &[u8]) -> (out: Vec<Vec<u8>>)
    ensures
        views(out@) == tokens(line@),
{
    let mut done: Vec<Vec<u8>> = Vec::new();
    let mut cur: Vec<u8> = Vec::new();
    let mut i: usize = 0;
    assert(line@.take(0).len() == 0);
    assert(views(done@) =~= tokens(line@.take(0)));
    while i < line.len()
        invariant
            i <= line@.len(),
            cur@.len() > 0 <==> (i > 0 && !is_space(line@[i - 1])),
            cur@.len() > 0 ==> tokens(line@.take(i as int)) == views(done@).push(cur@),
            cur@.len() == 0 ==> tokens(line@.take(i as int)) == views(done@),
        decreases line@.len() - i,
    {
        let b = line[i];
        proof {
            let next = line@.take(i + 1);
            assert(next.drop_last() =~= line@.take(i as int));
            assert(next.last() == b);
            assert(i > 0 ==> next[next.len() - 2] == line@[i - 1]);
        }
        let ghost old_done = views(done@);
        let ghost old_cur = cur@;
        if byte_is_space(b) {
            if cur.len() > 0 {
                done.push(cur);
                cur = Vec::new();
                assert(views(done@) =~= old_done.push(old_cur));
            }
        } else {
            cur.push(b);
            proof {
                if old_cur.len() > 0 {
                    assert(old_done.push(old_cur).drop_last() =~= old_done);
                } else {
                    assert(cur@ =~= seq![b]);
                }
            }
        }
        i += 1;
    }
    assert(line@.take(i as int) =~= line@);
    if cur.len() > 0 {
        let ghost old_done = views(done@);
        done.push(cur);
        assert(views(done@) =~= old_done.push(cur@));
    }
    done
}

/// Whether a token is written as a number, whatever its size.
pub fn is_number(token: &[u8]) -> (r: bool)
    ensures
        r == is_numeric(token@),
{
    let start: usize = if token.len() > 0 && token[0] == PLUS {
        1
    } else {
        0
    };
    let ghost d = unsigned_part(token@);
    assert(d =~= token@.skip(start as int));
    if start >= token.len() {
        return false;
    }
    let mut i: usize = start;
    while i < token.len()
        invariant
            start <= i <= token@.len(),
            d == token@.skip(start as int),
            d == unsigned_part(token@),
            forall|j: int| start <= j < i ==> is_digit(#[trigger] token@[j]),
        decreases token@.len() - i,
    {
        let b = token[i];
        if b < 48 || b > 57 {
            assert(d[i - start] == b);
            assert(!all_digits(d));
            return false;
        }
        i += 1;
    }
    assert(all_digits(d)) by {
        assert forall|k: int| 0 <= k < d.len() implies is_digit(#[trigger] d[k]) by {
            assert(d[k] == token@[k + start]);
        }
    }
    true
}

/// Reads a token as a number of at most `max`.
pub fn read_number(token: &[u8], max: usize) -> (r: Option<usize>)
    ensures
        match parse_number(token@, max as nat) {
            Some(v) => r == Some(v as usize),
            None => r is None,
        },
{
    let start: usize = if token.len() > 0 && token[0] == PLUS {
        1
    } else {
        0
    };
    let ghost d = unsigned_part(token@);
    assert(d =~= token@.skip(start as int));
    if start >= token.len() {
        return None;
    }
    let mut i: usize = start;
    let mut acc: usize = 0;
    let mut over: bool = false;
    assert(token@.subrange(start as int, start as int).len() == 0);
    while i < token.len()
        invariant
            start <= i <= token@.len(),
            d == token@.skip(start as int),
            d == unsigned_part(token@),
            forall|j: int| start <= j < i ==> is_digit(#[trigger] token@[j]),
            !over ==> acc == digits_value(token@.subrange(start as int, i as int)) && acc <= max,
            over ==> digits_value(token@.subrange(start as int, i as int)) > max,
        decreases token@.len() - i,
    {
        let b = token[i];
        if b < 48 || b > 57 {
            assert(d[i - start] == b);
            assert(!is_digit(d[i - start]));
            assert(!all_digits(d));
            return None;
        }
        let digit: usize = (b - 48) as usize;
        proof {
            let next = token@.subrange(start as int, i + 1);
            assert(next.drop_last() =~= token@.subrange(start as int, i as int));
            assert(next.last() == b);
        }
        if !over {
            if digit > max || acc > (max - digit) / 10 {
                over = true;
            } else {
                acc = acc * 10 + digit;
            }
        }
        i += 1;
    }
    assert(token@.subrange(start as int, i as int) =~= d);
    assert(all_digits(d)) by {
        assert forall|k: int| 0 <= k < d.len() implies is_digit(#[trigger] d[k]) by {
            assert(d[k] == token@[k + start]);
        }
    }
    if over {
        None
    } else {
        Some(acc)
    }
}

/// Appends the decimal digits of `n`.
pub fn push_decimal(out: &mut Vec<u8>, n: usize)
    ensures
        final(out)@ == old(out)@ + decimal(n as nat),
    decreases n,
{
    if n >= 10 {
        push_decimal(out, n / 10);
    }
    let digit: u8 = (n % 10) as u8;
    out.push(ZERO + digit);
    assert(out@ =~= old(out)@ + decimal(n as nat));
}

} // verus!
