//! Reading the record stream.
//!
//! The input is a header line naming the columns `type`, `client`, `tx`
//! and `amount` in any order, followed by one record per line. Lines end
//! with a line feed, optionally preceded by a carriage return; blank
//! lines are skipped. Fields are separated by commas and stripped of
//! surrounding blanks; a record may carry fewer fields than the header
//! (a missing `amount` means no amount) or more (the extra ones are
//! ignored). A record that cannot be read at all — a required column
//! missing, an unknown event kind, an unreadable number — abandons the
//! whole run with an error naming its line.

use vstd::prelude::*;
use crate::event::{Event, ParseError, ParseErrorKind, event_wf};
use crate::fixed::MAX_AMOUNT_UNITS;

verus! {

/// Blank bytes stripped around fields: space, tab, carriage return, form
/// feed.
pub open spec fn is_ws(b: u8) -> bool {
    b == 32 || b == 9 || b == 13 || b == 12
}

/// The sequence of byte rows a view of nested vectors denotes.
pub open spec fn rows_view(v: Seq<Vec<u8>>) -> Seq<Seq<u8>> {
    v.map_values(|x: Vec<u8>| x@)
}

/// Length of the first line: the number of bytes before the first line
/// feed, or the whole length if there is none.
pub open spec fn spec_line_end(s: Seq<u8>) -> nat
    decreases s.len(),
{
    if s.len() == 0 {
        0
    } else if s[0] == 10 {
        0
    } else {
        1 + spec_line_end(s.skip(1))
    }
}

proof fn lemma_line_end_from(s: Seq<u8>, k: int)
    requires
        0 <= k <= s.len(),
        forall|j: int| 0 <= j < k ==> s[j] != 10,
    ensures
        spec_line_end(s) == k + spec_line_end(s.skip(k)),
    decreases k,
{
    if k > 0 {
        assert(s.skip(k - 1)[0] == s[k - 1]);
        assert(s[k - 1] != 10);
        assert(s.skip(k - 1).skip(1) =~= s.skip(k));
        lemma_line_end_from(s, k - 1);
        assert(spec_line_end(s.skip(k - 1)) == 1 + spec_line_end(s.skip(k)));
    } else {
        assert(s.skip(0) =~= s);
    }
}

/// The lines of the input: split on line feeds, the final line needing no
/// terminator; a trailing line feed opens no extra line.
pub open spec fn spec_lines(s: Seq<u8>) -> Seq<Seq<u8>>
    decreases s.len(),
{
    if s.len() == 0 {
        Seq::empty()
    } else {
        let e: nat = spec_line_end(s);
        if e < s.len() {
            seq![s.take(e as int)] + spec_lines(s.skip(e + 1int))
        } else {
            seq![s]
        }
    }
}

/// A line with one trailing carriage return dropped, so both line feed
/// and carriage-return-line-feed endings are read alike.
pub open spec fn spec_strip_cr(l: Seq<u8>) -> Seq<u8> {
    if l.len() > 0 && l[l.len() - 1] == 13 {
        l.drop_last()
    } else {
        l
    }
}

/// A copy of `s[a..b]`.
fn copy_range(s: &[u8], a: usize, b: usize) -> (r: Vec<u8>)
    requires
        a <= b <= s@.len(),
    ensures
        r@ == s@.subrange(a as int, b as int),
{
    let mut r: Vec<u8> = Vec::new();
    let mut i: usize = a;
    while i < b
        invariant
            a <= i <= b <= s@.len(),
            r@ == s@.subrange(a as int, i as int),
        decreases b - i,
    {
        r.push(s[i]);
        i = i + 1;
        proof {
            assert(r@ =~= s@.subrange(a as int, i as int));
        }
    }
    proof {
        assert(r@ =~= s@.subrange(a as int, b as int));
    }
    r
}

/// Splits the input into its lines.
#[verifier::loop_isolation(false)]
pub fn split_lines(input: &[u8]) -> (r: Vec<Vec<u8>>)
    ensures
        rows_view(r@) == spec_lines(input@),
{
    let mut r: Vec<Vec<u8>> = Vec::new();
    let n: usize = input.len();
    let mut start: usize = 0;
    proof {
        assert(rows_view(r@) =~= Seq::<Seq<u8>>::empty());
        assert(input@.skip(0) =~= input@);
    }
    while start < n
        invariant
            start <= n,
            spec_lines(input@) == rows_view(r@) + spec_lines(input@.skip(start as int)),
        decreases n - start,
    {
        let ghost rest: Seq<u8> = input@.skip(start as int);
        let mut end: usize = start;
        while end < n && input[end] != 10
            invariant
                start <= end <= n,
                forall|j: int| start <= j < end ==> input@[j] != 10,
            decreases n - end,
        {
            end = end + 1;
        }
        proof {
            assert forall|j: int| 0 <= j < end - start implies rest[j] != 10 by {
                assert(rest[j] == input@[start + j]);
            }
            lemma_line_end_from(rest, end - start);
            if end < n {
                assert(rest.skip(end - start)[0] == input@[end as int]);
                assert(spec_line_end(rest.skip(end - start)) == 0);
            } else {
                assert(rest.skip(end - start) =~= Seq::<u8>::empty());
            }
            assert(spec_line_end(rest) == end - start);
        }
        let line: Vec<u8> = copy_range(input, start, end);
        let ghost prev: Seq<Vec<u8>> = r@;
        r.push(line);
        proof {
            assert(rows_view(r@) =~= rows_view(prev) + seq![line@]);
            assert(line@ =~= rest.take(end - start));
        }
        if end < n {
            proof {
                assert(spec_lines(rest) == seq![rest.take(end - start)] + spec_lines(
                    rest.skip(end - start + 1),
                ));
                assert(rest.skip(end - start + 1) =~= input@.skip(end + 1));
                assert(spec_lines(input@) == (rows_view(prev) + seq![line@]) + spec_lines(
                    input@.skip(end + 1),
                )) by {
                    assert(rows_view(prev) + (seq![line@] + spec_lines(input@.skip(end + 1)))
                        =~= (rows_view(prev) + seq![line@]) + spec_lines(input@.skip(end + 1)));
                }
            }
            start = end + 1;
        } else {
            proof {
                assert(spec_line_end(rest) == rest.len());
                assert(spec_lines(rest) == seq![rest]);
                assert(line@ =~= rest);
                assert(input@.skip(n as int) =~= Seq::<u8>::empty());
                assert(spec_lines(input@) == (rows_view(prev) + seq![line@]) + spec_lines(
                    input@.skip(n as int),
                )) by {
                    assert(rows_view(prev) + seq![line@] =~= (rows_view(prev) + seq![line@])
                        + Seq::<Seq<u8>>::empty());
                }
            }
            start = n;
        }
    }
    proof {
        assert(input@.skip(n as int) =~= Seq::<u8>::empty());
        assert(rows_view(r@) =~= rows_view(r@) + spec_lines(input@.skip(start as int)));
    }
    r
}

/// Drops one trailing carriage return, if any.
fn strip_cr(l: &Vec<u8>) -> (r: Vec<u8>)
    ensures
        r@ == spec_strip_cr(l@),
{
    let n: usize = l.len();
    if n > 0 && l[n - 1] == 13 {
        let r = copy_range(l.as_slice(), 0, n - 1);
        proof {
            assert(r@ =~= l@.drop_last());
        }
        r
    } else {
        let r = copy_range(l.as_slice(), 0, n);
        proof {
            assert(r@ =~= l@);
        }
        r
    }
}

/// The field with blanks dropped from the front.
pub open spec fn spec_trim_front(s: Seq<u8>) -> Seq<u8>
    decreases s.len(),
{
    if s.len() > 0 && is_ws(s[0]) {
        spec_trim_front(s.skip(1))
    } else {
        s
    }
}

/// The field with blanks dropped from the back.
pub open spec fn spec_trim_back(s: Seq<u8>) -> Seq<u8>
    decreases s.len(),
{
    if s.len() > 0 && is_ws(s[s.len() - 1]) {
        spec_trim_back(s.drop_last())
    } else {
        s
    }
}

/// The field with blanks dropped from both ends.
pub open spec fn spec_trim(s: Seq<u8>) -> Seq<u8> {
    spec_trim_back(spec_trim_front(s))
}

proof fn lemma_trim_front_from(s: Seq<u8>, k: int)
    requires
        0 <= k <= s.len(),
        forall|j: int| 0 <= j < k ==> is_ws(s[j]),
    ensures
        spec_trim_front(s) == spec_trim_front(s.skip(k)),
    decreases k,
{
    if k > 0 {
        lemma_trim_front_from(s, k - 1);
        assert(s.skip(k - 1)[0] == s[k - 1]);
        assert(s.skip(k - 1).len() > 0);
        assert(is_ws(s.skip(k - 1)[0]));
        assert(s.skip(k - 1).skip(1) =~= s.skip(k));
    } else {
        assert(s.skip(0) =~= s);
    }
}

proof fn lemma_trim_back_from(s: Seq<u8>, k: int)
    requires
        0 <= k <= s.len(),
        forall|j: int| k <= j < s.len() ==> is_ws(s[j]),
    ensures
        spec_trim_back(s) == spec_trim_back(s.take(k)),
    decreases s.len() - k,
{
    if k < s.len() {
        assert(is_ws(s[s.len() - 1]));
        assert(s.drop_last() =~= s.take(s.len() - 1));
        assert forall|j: int| k <= j < s.len() - 1 implies is_ws(#[trigger] s.take(s.len() - 1)[j])
            by {
            assert(s.take(s.len() - 1)[j] == s[j]);
        }
        lemma_trim_back_from(s.take(s.len() - 1), k);
        assert(s.take(s.len() - 1).take(k) =~= s.take(k));
        assert(spec_trim_back(s) == spec_trim_back(s.drop_last()));
    } else {
        assert(s.take(k) =~= s);
    }
}

/// A copy of the field with blanks dropped from both ends.
#[verifier::loop_isolation(false)]
fn trim(s: &Vec<u8>) -> (r: Vec<u8>)
    ensures
        r@ == spec_trim(s@),
{
    let n: usize = s.len();
    let mut a: usize = 0;
    while a < n && (s[a] == 32 || s[a] == 9 || s[a] == 13 || s[a] == 12)
        invariant
            a <= n,
            forall|j: int| 0 <= j < a ==> is_ws(s@[j]),
        decreases n - a,
    {
        a = a + 1;
    }
    proof {
        lemma_trim_front_from(s@, a as int);
        if a < n {
            assert(s@.skip(a as int)[0] == s@[a as int]);
            assert(!is_ws(s@.skip(a as int)[0]));
        } else {
            assert(s@.skip(a as int) =~= Seq::<u8>::empty());
        }
        assert(spec_trim_front(s@) == s@.skip(a as int));
    }
    let mut b: usize = n;
    while b > a && (s[b - 1] == 32 || s[b - 1] == 9 || s[b - 1] == 13 || s[b - 1] == 12)
        invariant
            a <= b <= n,
            forall|j: int| b <= j < n ==> is_ws(s@[j]),
        decreases b,
    {
        b = b - 1;
    }
    proof {
        let t: Seq<u8> = s@.skip(a as int);
        assert forall|j: int| b - a <= j < t.len() implies is_ws(t[j]) by {
            assert(t[j] == s@[a + j]);
        }
        lemma_trim_back_from(t, b - a);
        if b > a {
            assert(t.take(b - a)[b - a - 1] == s@[b - 1]);
            assert(!is_ws(t.take(b - a)[b - a - 1]));
            assert(spec_trim_back(t.take(b - a)) == t.take(b - a));
        } else {
            assert(t.take(0) =~= Seq::<u8>::empty());
            assert(spec_trim_back(t.take(0)) == t.take(0));
        }
        assert(spec_trim(s@) == t.take(b - a));
        assert(t.take(b - a) =~= s@.subrange(a as int, b as int));
    }
    copy_range(s.as_slice(), a, b)
}

/// Length of the first field: the number of bytes before the first comma,
/// or the whole length if there is none.
pub open spec fn spec_field_end(s: Seq<u8>) -> nat
    decreases s.len(),
{
    if s.len() == 0 {
        0
    } else if s[0] == 44 {
        0
    } else {
        1 + spec_field_end(s.skip(1))
    }
}

proof fn lemma_field_end_from(s: Seq<u8>, k: int)
    requires
        0 <= k <= s.len(),
        forall|j: int| 0 <= j < k ==> s[j] != 44,
    ensures
        spec_field_end(s) == k + spec_field_end(s.skip(k)),
    decreases k,
{
    if k > 0 {
        assert(s.skip(k - 1)[0] == s[k - 1]);
        assert(s[k - 1] != 44);
        assert(s.skip(k - 1).skip(1) =~= s.skip(k));
        lemma_field_end_from(s, k - 1);
        assert(spec_field_end(s.skip(k - 1)) == 1 + spec_field_end(s.skip(k)));
    } else {
        assert(s.skip(0) =~= s);
    }
}

/// The comma-separated fields of a line, each stripped of surrounding
/// blanks. An empty line has one empty field.
pub open spec fn spec_fields(s: Seq<u8>) -> Seq<Seq<u8>>
    decreases s.len(),
{
    let e: nat = spec_field_end(s);
    if e < s.len() {
        seq![spec_trim(s.take(e as int))] + spec_fields(s.skip(e + 1int))
    } else {
        seq![spec_trim(s)]
    }
}

/// Splits a line into its fields, each stripped of blanks.
#[verifier::loop_isolation(false)]
pub fn split_fields(line: &Vec<u8>) -> (r: Vec<Vec<u8>>)
    ensures
        rows_view(r@) == spec_fields(line@),
{
    let mut r: Vec<Vec<u8>> = Vec::new();
    let n: usize = line.len();
    let mut start: usize = 0;
    let mut done: bool = false;
    proof {
        assert(rows_view(r@) =~= Seq::<Seq<u8>>::empty());
        assert(line@.skip(0) =~= line@);
    }
    while !done
        invariant
            start <= n,
            done ==> rows_view(r@) == spec_fields(line@),
            !done ==> spec_fields(line@) == rows_view(r@) + spec_fields(line@.skip(start as int)),
        decreases n - start + (if done { 0int } else { 1int }),
    {
        let ghost rest: Seq<u8> = line@.skip(start as int);
        let mut end: usize = start;
        while end < n && line[end] != 44
            invariant
                start <= end <= n,
                forall|j: int| start <= j < end ==> line@[j] != 44,
            decreases n - end,
        {
            end = end + 1;
        }
        proof {
            assert forall|j: int| 0 <= j < end - start implies rest[j] != 44 by {
                assert(rest[j] == line@[start + j]);
            }
            lemma_field_end_from(rest, end - start);
            if end < n {
                assert(rest.skip(end - start)[0] == line@[end as int]);
                assert(spec_field_end(rest.skip(end - start)) == 0);
            } else {
                assert(rest.skip(end - start) =~= Seq::<u8>::empty());
            }
            assert(spec_field_end(rest) == end - start);
        }
        let piece: Vec<u8> = copy_range(line.as_slice(), start, end);
        let field: Vec<u8> = trim(&piece);
        let ghost prev: Seq<Vec<u8>> = r@;
        r.push(field);
        proof {
            assert(rows_view(r@) =~= rows_view(prev) + seq![field@]);
            assert(piece@ =~= rest.take(end - start));
        }
        if end < n {
            proof {
                assert(spec_fields(rest) == seq![spec_trim(rest.take(end - start))] + spec_fields(
                    rest.skip(end - start + 1),
                ));
                assert(rest.skip(end - start + 1) =~= line@.skip(end + 1));
                assert(spec_fields(line@) == (rows_view(prev) + seq![field@]) + spec_fields(
                    line@.skip(end + 1),
                )) by {
                    assert(rows_view(prev) + (seq![field@] + spec_fields(line@.skip(end + 1)))
                        =~= (rows_view(prev) + seq![field@]) + spec_fields(line@.skip(end + 1)));
                }
            }
            start = end + 1;
        } else {
            proof {
                assert(spec_field_end(rest) == rest.len());
                assert(spec_fields(rest) == seq![spec_trim(rest)]);
                assert(piece@ =~= rest);
                assert(rows_view(prev) + seq![field@] =~= spec_fields(line@));
            }
            start = n;
            done = true;
        }
    }
    r
}

/// A decimal digit.
pub open spec fn is_digit(b: u8) -> bool {
    48 <= b <= 57
}

pub open spec fn all_digits(s: Seq<u8>) -> bool {
    forall|j: int| 0 <= j < s.len() ==> is_digit(#[trigger] s[j])
}

/// The number a run of decimal digits denotes.
pub open spec fn spec_dec_val(s: Seq<u8>) -> nat
    decreases s.len(),
{
    if s.len() == 0 {
        0
    } else {
        (spec_dec_val(s.drop_last()) * 10 + (s.last() - 48)) as nat
    }
}

proof fn lemma_dec_val_prefix(s: Seq<u8>, i: int)
    requires
        0 <= i <= s.len(),
        all_digits(s),
    ensures
        spec_dec_val(s.take(i)) <= spec_dec_val(s),
    decreases s.len() - i,
{
    if i < s.len() {
        lemma_dec_val_prefix(s, i + 1);
        assert(s.take(i + 1).drop_last() =~= s.take(i));
        assert(s.take(i + 1).last() == s[i]);
        assert(is_digit(s[i]));
        assert(spec_dec_val(s.take(i + 1)) == spec_dec_val(s.take(i)) * 10 + (s[i] - 48));
    } else {
        assert(s.take(i) =~= s);
    }
}

proof fn lemma_dec_val_bound(s: Seq<u8>)
    requires
        all_digits(s),
    ensures
        spec_dec_val(s) < crate::fixed::pow10(s.len()),
    decreases s.len(),
{
    if s.len() > 0 {
        assert(all_digits(s.drop_last())) by {
            assert forall|j: int| 0 <= j < s.drop_last().len() implies is_digit(
                #[trigger] s.drop_last()[j],
            ) by {
                assert(s.drop_last()[j] == s[j]);
            }
        }
        lemma_dec_val_bound(s.drop_last());
        assert(is_digit(s.last()));
        assert(crate::fixed::pow10(s.len()) == 10 * crate::fixed::pow10((s.len() - 1) as nat));
    }
}

/// Reads the digits of `s[a..b]` as a number, refusing the range if it
/// holds anything but digits or a value above `cap`. An empty range reads
/// as zero.
fn parse_digits(s: &Vec<u8>, a: usize, b: usize, cap: u64) -> (r: Option<u64>)
    requires
        a <= b <= s@.len(),
        cap <= 1_000_000_000_000_000_000,
    ensures
        ({
            let t = s@.subrange(a as int, b as int);
            match r {
                Option::Some(v) => all_digits(t) && spec_dec_val(t) == v as nat && v <= cap,
                Option::None => !all_digits(t) || spec_dec_val(t) > cap,
            }
        }),
{
    let ghost t: Seq<u8> = s@.subrange(a as int, b as int);
    let mut acc: u64 = 0;
    let mut i: usize = a;
    proof {
        assert(t.take(0) =~= Seq::<u8>::empty());
    }
    while i < b
        invariant
            a <= i <= b <= s@.len(),
            cap <= 1_000_000_000_000_000_000,
            acc <= cap,
            t == s@.subrange(a as int, b as int),
            forall|j: int| 0 <= j < i - a ==> is_digit(#[trigger] t[j]),
            acc as nat == spec_dec_val(t.take(i - a)),
        decreases b - i,
    {
        let x: u8 = s[i];
        proof {
            assert(t[i - a] == s@[i as int]);
        }
        if x < 48 || x > 57 {
            proof {
                assert(!is_digit(t[i - a]));
            }
            return Option::None;
        }
        acc = acc * 10 + ((x - 48) as u64);
        i = i + 1;
        proof {
            assert(t.take(i - a).drop_last() =~= t.take(i - a - 1));
            assert(t.take(i - a).last() == t[i - a - 1]);
        }
        if acc > cap {
            proof {
                if all_digits(t) {
                    lemma_dec_val_prefix(t, i - a);
                }
            }
            return Option::None;
        }
    }
    proof {
        assert(t.take(b - a) =~= t);
    }
    Option::Some(acc)
}

/// Reads a client identifier: plain decimal digits, at most 65535.
pub open spec fn spec_parse_u16(s: Seq<u8>) -> Option<u16> {
    if s.len() > 0 && all_digits(s) && spec_dec_val(s) <= 65535 {
        Option::Some(spec_dec_val(s) as u16)
    } else {
        Option::None
    }
}

/// Reads a transaction identifier: plain decimal digits, at most
/// 4294967295.
pub open spec fn spec_parse_u32(s: Seq<u8>) -> Option<u32> {
    if s.len() > 0 && all_digits(s) && spec_dec_val(s) <= 4294967295 {
        Option::Some(spec_dec_val(s) as u32)
    } else {
        Option::None
    }
}

fn parse_u16(f: &Vec<u8>) -> (r: Option<u16>)
    ensures
        r == spec_parse_u16(f@),
{
    let n: usize = f.len();
    if n == 0 {
        return Option::None;
    }
    proof {
        assert(f@.subrange(0, n as int) =~= f@);
    }
    match parse_digits(f, 0, n, 65535) {
        Option::Some(v) => Option::Some(v as u16),
        Option::None => Option::None,
    }
}

fn parse_u32(f: &Vec<u8>) -> (r: Option<u32>)
    ensures
        r == spec_parse_u32(f@),
{
    let n: usize = f.len();
    if n == 0 {
        return Option::None;
    }
    proof {
        assert(f@.subrange(0, n as int) =~= f@);
    }
    match parse_digits(f, 0, n, 4294967295) {
        Option::Some(v) => Option::Some(v as u32),
        Option::None => Option::None,
    }
}

/// Largest integer part an amount may carry: eighteen nines.
pub const MAX_AMOUNT_WHOLE: u64 = 999_999_999_999_999_999;

/// Position of the first decimal point, or the length if there is none.
pub open spec fn spec_dot_pos(s: Seq<u8>) -> nat
    decreases s.len(),
{
    if s.len() == 0 {
        0
    } else if s[0] == 46 {
        0
    } else {
        1 + spec_dot_pos(s.skip(1))
    }
}

proof fn lemma_dot_pos_from(s: Seq<u8>, k: int)
    requires
        0 <= k <= s.len(),
        forall|j: int| 0 <= j < k ==> s[j] != 46,
    ensures
        spec_dot_pos(s) == k + spec_dot_pos(s.skip(k)),
    decreases k,
{
    if k > 0 {
        assert(s.skip(k - 1)[0] == s[k - 1]);
        assert(s[k - 1] != 46);
        assert(s.skip(k - 1).skip(1) =~= s.skip(k));
        lemma_dot_pos_from(s, k - 1);
        assert(spec_dot_pos(s.skip(k - 1)) == 1 + spec_dot_pos(s.skip(k)));
    } else {
        assert(s.skip(0) =~= s);
    }
}

/// Reads a signed fixed-point amount: an optional sign, an integer part
/// of at most eighteen digits, and at most four fraction digits after an
/// optional decimal point; at least one digit in all. The result is in
/// ten-thousandths.
pub open spec fn spec_parse_amount(s: Seq<u8>) -> Option<int> {
    let neg: bool = s.len() > 0 && s[0] == 45;
    let body: Seq<u8> = if s.len() > 0 && (s[0] == 45 || s[0] == 43) {
        s.skip(1)
    } else {
        s
    };
    let d: nat = spec_dot_pos(body);
    let ip: Seq<u8> = body.take(d as int);
    let fp: Seq<u8> = if d < body.len() {
        body.skip(d + 1int)
    } else {
        Seq::empty()
    };
    if ip.len() + fp.len() > 0 && all_digits(ip) && all_digits(fp) && fp.len() <= 4
        && spec_dec_val(ip) <= MAX_AMOUNT_WHOLE as nat {
        let mag: int = (spec_dec_val(ip) * 10000 + spec_dec_val(fp) * crate::fixed::pow10(
            (4 - fp.len()) as nat,
        )) as int;
        Option::Some(
            if neg {
                -mag
            } else {
                mag
            },
        )
    } else {
        Option::None
    }
}

#[verifier::loop_isolation(false)]
#[verifier::rlimit(60)]
fn parse_amount(f: &Vec<u8>) -> (r: Option<i128>)
    ensures
        match r {
            Option::Some(v) => spec_parse_amount(f@) == Option::Some(v as int)
                && -MAX_AMOUNT_UNITS <= v <= MAX_AMOUNT_UNITS,
            Option::None => spec_parse_amount(f@) == Option::<int>::None,
        },
{
    let n: usize = f.len();
    let neg: bool = n > 0 && f[0] == 45;
    let start: usize = if n > 0 && (f[0] == 45 || f[0] == 43) {
        1
    } else {
        0
    };
    let ghost body: Seq<u8> = f@.skip(start as int);
    proof {
        if start == 0 {
            assert(body =~= f@);
        }
    }
    let mut d: usize = start;
    while d < n && f[d] != 46
        invariant
            start <= d <= n,
            forall|j: int| start <= j < d ==> f@[j] != 46,
        decreases n - d,
    {
        d = d + 1;
    }
    proof {
        assert forall|j: int| 0 <= j < d - start implies body[j] != 46 by {
            assert(body[j] == f@[start + j]);
        }
        lemma_dot_pos_from(body, d - start);
        if d < n {
            assert(body.skip(d - start)[0] == f@[d as int]);
            assert(spec_dot_pos(body.skip(d - start)) == 0);
        } else {
            assert(body.skip(d - start) =~= Seq::<u8>::empty());
        }
        assert(spec_dot_pos(body) == d - start);
    }
    let ghost ip: Seq<u8> = body.take(d - start);
    let ghost fp: Seq<u8> = if d - start < body.len() {
        body.skip(d - start + 1)
    } else {
        Seq::<u8>::empty()
    };
    let fstart: usize = if d < n {
        d + 1
    } else {
        n
    };
    proof {
        assert(ip =~= f@.subrange(start as int, d as int));
        assert(fp =~= f@.subrange(fstart as int, n as int));
    }
    if n - fstart > 4 {
        return Option::None;
    }
    if d == start && fstart == n {
        return Option::None;
    }
    let ipv: u64 = match parse_digits(f, start, d, MAX_AMOUNT_WHOLE) {
        Option::Some(v) => v,
        Option::None => {
            return Option::None;
        },
    };
    let fpv: u64 = match parse_digits(f, fstart, n, 9999) {
        Option::Some(v) => v,
        Option::None => {
            proof {
                if all_digits(fp) {
                    reveal_with_fuel(crate::fixed::pow10, 5);
                    lemma_dec_val_bound(fp);
                }
            }
            return Option::None;
        },
    };
    let flen: usize = n - fstart;
    proof {
        assert(fp.len() == flen as int);
    }
    let fs4: u64 = scale_frac(fpv, flen, Ghost(fp));
    let mag: u128 = (ipv as u128) * 10000 + (fs4 as u128);
    proof {
        assert(mag as int == (spec_dec_val(ip) * 10000 + spec_dec_val(fp) * crate::fixed::pow10(
            (4 - fp.len()) as nat,
        )) as int);
        assert(mag <= MAX_AMOUNT_UNITS as u128);
    }
    if neg {
        Option::Some(-(mag as i128))
    } else {
        Option::Some(mag as i128)
    }
}

/// Shifts a fraction of `flen` digits up to the full four places.
fn scale_frac(fpv: u64, flen: usize, Ghost(fp): Ghost<Seq<u8>>) -> (r: u64)
    requires
        flen == fp.len(),
        flen <= 4,
        all_digits(fp),
        spec_dec_val(fp) == fpv as nat,
    ensures
        r as nat == spec_dec_val(fp) * crate::fixed::pow10((4 - fp.len()) as nat),
        r < 10000,
{
    proof {
        reveal_with_fuel(crate::fixed::pow10, 5);
        lemma_dec_val_bound(fp);
    }
    if flen == 0 {
        0
    } else if flen == 1 {
        fpv * 1000
    } else if flen == 2 {
        fpv * 100
    } else if flen == 3 {
        fpv * 10
    } else {
        fpv
    }
}

/// The bytes of `type`.
pub open spec fn spec_word_type() -> Seq<u8> {
    seq![116u8, 121u8, 112u8, 101u8]
}

/// The bytes of `client`.
pub open spec fn spec_word_client() -> Seq<u8> {
    seq![99u8, 108u8, 105u8, 101u8, 110u8, 116u8]
}

/// The bytes of `tx`.
pub open spec fn spec_word_tx() -> Seq<u8> {
    seq![116u8, 120u8]
}

/// The bytes of `amount`.
pub open spec fn spec_word_amount() -> Seq<u8> {
    seq![97u8, 109u8, 111u8, 117u8, 110u8, 116u8]
}

/// The bytes of `deposit`.
pub open spec fn spec_word_deposit() -> Seq<u8> {
    seq![100u8, 101u8, 112u8, 111u8, 115u8, 105u8, 116u8]
}

/// The bytes of `withdrawal`.
pub open spec fn spec_word_withdrawal() -> Seq<u8> {
    seq![119u8, 105u8, 116u8, 104u8, 100u8, 114u8, 97u8, 119u8, 97u8, 108u8]
}

/// The bytes of `dispute`.
pub open spec fn spec_word_dispute() -> Seq<u8> {
    seq![100u8, 105u8, 115u8, 112u8, 117u8, 116u8, 101u8]
}

/// The bytes of `resolve`.
pub open spec fn spec_word_resolve() -> Seq<u8> {
    seq![114u8, 101u8, 115u8, 111u8, 108u8, 118u8, 101u8]
}

/// The bytes of `chargeback`.
pub open spec fn spec_word_chargeback() -> Seq<u8> {
    seq![99u8, 104u8, 97u8, 114u8, 103u8, 101u8, 98u8, 97u8, 99u8, 107u8]
}

fn is_word_type(f: &Vec<u8>) -> (r: bool)
    ensures
        r == (f@ == spec_word_type()),
{
    let ok: bool = f.len() == 4 && f[0] == 116 && f[1] == 121 && f[2] == 112 && f[3] == 101;
    proof {
        if ok {
            assert(f@ =~= spec_word_type());
        } else {
            if f@ == spec_word_type() {
                assert(f@.len() == 4);
                assert(false);
            }
        }
    }
    ok
}

fn is_word_client(f: &Vec<u8>) -> (r: bool)
    ensures
        r == (f@ == spec_word_client()),
{
    let ok: bool = f.len() == 6 && f[0] == 99 && f[1] == 108 && f[2] == 105 && f[3] == 101 && f[4] == 110 && f[5] == 116;
    proof {
        if ok {
            assert(f@ =~= spec_word_client());
        } else {
            if f@ == spec_word_client() {
                assert(f@.len() == 6);
                assert(false);
            }
        }
    }
    ok
}

fn is_word_tx(f: &Vec<u8>) -> (r: bool)
    ensures
        r == (f@ == spec_word_tx()),
{
    let ok: bool = f.len() == 2 && f[0] == 116 && f[1] == 120;
    proof {
        if ok {
            assert(f@ =~= spec_word_tx());
        } else {
            if f@ == spec_word_tx() {
                assert(f@.len() == 2);
                assert(false);
            }
        }
    }
    ok
}

fn is_word_amount(f: &Vec<u8>) -> (r: bool)
    ensures
        r == (f@ == spec_word_amount()),
{
    let ok: bool = f.len() == 6 && f[0] == 97 && f[1] == 109 && f[2] == 111 && f[3] == 117 && f[4] == 110 && f[5] == 116;
    proof {
        if ok {
            assert(f@ =~= spec_word_amount());
        } else {
            if f@ == spec_word_amount() {
                assert(f@.len() == 6);
                assert(false);
            }
        }
    }
    ok
}

fn is_word_deposit(f: &Vec<u8>) -> (r: bool)
    ensures
        r == (f@ == spec_word_deposit()),
{
    let ok: bool = f.len() == 7 && f[0] == 100 && f[1] == 101 && f[2] == 112 && f[3] == 111 && f[4] == 115 && f[5] == 105 && f[6] == 116;
    proof {
        if ok {
            assert(f@ =~= spec_word_deposit());
        } else {
            if f@ == spec_word_deposit() {
                assert(f@.len() == 7);
                assert(false);
            }
        }
    }
    ok
}

fn is_word_withdrawal(f: &Vec<u8>) -> (r: bool)
    ensures
        r == (f@ == spec_word_withdrawal()),
{
    let ok: bool = f.len() == 10 && f[0] == 119 && f[1] == 105 && f[2] == 116 && f[3] == 104 && f[4] == 100 && f[5] == 114 && f[6] == 97 && f[7] == 119 && f[8] == 97 && f[9] == 108;
    proof {
        if ok {
            assert(f@ =~= spec_word_withdrawal());
        } else {
            if f@ == spec_word_withdrawal() {
                assert(f@.len() == 10);
                assert(false);
            }
        }
    }
    ok
}

fn is_word_dispute(f: &Vec<u8>) -> (r: bool)
    ensures
        r == (f@ == spec_word_dispute()),
{
    let ok: bool = f.len() == 7 && f[0] == 100 && f[1] == 105 && f[2] == 115 && f[3] == 112 && f[4] == 117 && f[5] == 116 && f[6] == 101;
    proof {
        if ok {
            assert(f@ =~= spec_word_dispute());
        } else {
            if f@ == spec_word_dispute() {
                assert(f@.len() == 7);
                assert(false);
            }
        }
    }
    ok
}

fn is_word_resolve(f: &Vec<u8>) -> (r: bool)
    ensures
        r == (f@ == spec_word_resolve()),
{
    let ok: bool = f.len() == 7 && f[0] == 114 && f[1] == 101 && f[2] == 115 && f[3] == 111 && f[4] == 108 && f[5] == 118 && f[6] == 101;
    proof {
        if ok {
            assert(f@ =~= spec_word_resolve());
        } else {
            if f@ == spec_word_resolve() {
                assert(f@.len() == 7);
                assert(false);
            }
        }
    }
    ok
}

fn is_word_chargeback(f: &Vec<u8>) -> (r: bool)
    ensures
        r == (f@ == spec_word_chargeback()),
{
    let ok: bool = f.len() == 10 && f[0] == 99 && f[1] == 104 && f[2] == 97 && f[3] == 114 && f[4] == 103 && f[5] == 101 && f[6] == 98 && f[7] == 97 && f[8] == 99 && f[9] == 107;
    proof {
        if ok {
            assert(f@ =~= spec_word_chargeback());
        } else {
            if f@ == spec_word_chargeback() {
                assert(f@.len() == 10);
                assert(false);
            }
        }
    }
    ok
}

/// Whether the type field names a known event kind.
pub open spec fn spec_kind_ok(t: Seq<u8>) -> bool {
    t == spec_word_deposit() || t == spec_word_withdrawal() || t == spec_word_dispute()
        || t == spec_word_resolve() || t == spec_word_chargeback()
}

/// First field equal to `name`, if any.
pub open spec fn spec_find_col(hs: Seq<Seq<u8>>, name: Seq<u8>) -> Option<int>
    decreases hs.len(),
{
    if hs.len() == 0 {
        Option::None
    } else if hs[0] == name {
        Option::Some(0)
    } else {
        match spec_find_col(hs.skip(1), name) {
            Option::Some(i) => Option::Some(i + 1),
            Option::None => Option::None,
        }
    }
}

proof fn lemma_find_col_at(hs: Seq<Seq<u8>>, name: Seq<u8>, k: int)
    requires
        0 <= k < hs.len(),
        hs[k] == name,
        forall|j: int| 0 <= j < k ==> hs[j] != name,
    ensures
        spec_find_col(hs, name) == Option::Some(k),
    decreases k,
{
    if k > 0 {
        assert(hs.skip(1)[k - 1] == hs[k]);
        assert forall|j: int| 0 <= j < k - 1 implies hs.skip(1)[j] != name by {
            assert(hs.skip(1)[j] == hs[j + 1]);
        }
        lemma_find_col_at(hs.skip(1), name, k - 1);
    }
}

proof fn lemma_find_col_none(hs: Seq<Seq<u8>>, name: Seq<u8>)
    requires
        forall|j: int| 0 <= j < hs.len() ==> hs[j] != name,
    ensures
        spec_find_col(hs, name) == Option::<int>::None,
    decreases hs.len(),
{
    if hs.len() > 0 {
        assert forall|j: int| 0 <= j < hs.skip(1).len() implies hs.skip(1)[j] != name by {
            assert(hs.skip(1)[j] == hs[j + 1]);
        }
        lemma_find_col_none(hs.skip(1), name);
    }
}

/// Where the header placed each column, if it did.
#[derive(Clone, Copy, Debug)]
pub struct Columns {
    pub ty: Option<usize>,
    pub client: Option<usize>,
    pub tx: Option<usize>,
    pub amount: Option<usize>,
}

/// The column layout the header line denotes, as positions into the
/// fields of each record.
pub open spec fn spec_header_cols(h: Seq<u8>) -> (
    Option<int>,
    Option<int>,
    Option<int>,
    Option<int>,
) {
    let fs = spec_fields(h);
    (
        spec_find_col(fs, spec_word_type()),
        spec_find_col(fs, spec_word_client()),
        spec_find_col(fs, spec_word_tx()),
        spec_find_col(fs, spec_word_amount()),
    )
}

pub open spec fn opt_idx_match(e: Option<usize>, s: Option<int>) -> bool {
    match e {
        Option::Some(v) => s == Option::Some(v as int),
        Option::None => s == Option::<int>::None,
    }
}

pub open spec fn cols_match(
    c: Columns,
    t: (Option<int>, Option<int>, Option<int>, Option<int>),
) -> bool {
    opt_idx_match(c.ty, t.0) && opt_idx_match(c.client, t.1) && opt_idx_match(c.tx, t.2)
        && opt_idx_match(c.amount, t.3)
}

/// One column's search state while scanning the header fields.
spec fn col_state(c: Option<usize>, hs: Seq<Seq<u8>>, upto: int, w: Seq<u8>) -> bool {
    match c {
        Option::Some(k) => k < upto && hs[k as int] == w && forall|j: int|
            0 <= j < k ==> hs[j] != w,
        Option::None => forall|j: int| 0 <= j < upto ==> hs[j] != w,
    }
}

#[verifier::loop_isolation(false)]
fn find_cols(hf: &Vec<Vec<u8>>) -> (r: Columns)
    ensures
        cols_match(
            r,
            (
                spec_find_col(rows_view(hf@), spec_word_type()),
                spec_find_col(rows_view(hf@), spec_word_client()),
                spec_find_col(rows_view(hf@), spec_word_tx()),
                spec_find_col(rows_view(hf@), spec_word_amount()),
            ),
        ),
{
    let ghost hs: Seq<Seq<u8>> = rows_view(hf@);
    let n: usize = hf.len();
    let mut ty: Option<usize> = Option::None;
    let mut client: Option<usize> = Option::None;
    let mut tx: Option<usize> = Option::None;
    let mut amount: Option<usize> = Option::None;
    let mut i: usize = 0;
    while i < n
        invariant
            i <= n,
            col_state(ty, hs, i as int, spec_word_type()),
            col_state(client, hs, i as int, spec_word_client()),
            col_state(tx, hs, i as int, spec_word_tx()),
            col_state(amount, hs, i as int, spec_word_amount()),
        decreases n - i,
    {
        proof {
            assert(hs[i as int] == hf@[i as int]@);
        }
        if ty.is_none() && is_word_type(&hf[i]) {
            ty = Option::Some(i);
        }
        if client.is_none() && is_word_client(&hf[i]) {
            client = Option::Some(i);
        }
        if tx.is_none() && is_word_tx(&hf[i]) {
            tx = Option::Some(i);
        }
        if amount.is_none() && is_word_amount(&hf[i]) {
            amount = Option::Some(i);
        }
        i = i + 1;
    }
    proof {
        lemma_col_state_final(ty, hs, spec_word_type());
        lemma_col_state_final(client, hs, spec_word_client());
        lemma_col_state_final(tx, hs, spec_word_tx());
        lemma_col_state_final(amount, hs, spec_word_amount());
    }
    Columns { ty, client, tx, amount }
}

proof fn lemma_col_state_final(c: Option<usize>, hs: Seq<Seq<u8>>, w: Seq<u8>)
    requires
        col_state(c, hs, hs.len() as int, w),
    ensures
        opt_idx_match(c, spec_find_col(hs, w)),
{
    match c {
        Option::Some(k) => {
            lemma_find_col_at(hs, w, k as int);
        },
        Option::None => {
            lemma_find_col_none(hs, w);
        },
    }
}

/// The field a record holds at a column, if the header named one and the
/// record reaches it.
pub open spec fn getf(fs: Seq<Seq<u8>>, c: Option<int>) -> Option<Seq<u8>> {
    match c {
        Option::Some(i) => if 0 <= i < fs.len() {
            Option::Some(fs[i])
        } else {
            Option::None
        },
        Option::None => Option::None,
    }
}

/// The event a record denotes once its fields are read: a deposit or
/// withdrawal without an amount is a no-op and denotes none.
pub open spec fn spec_make_event(
    tyf: Seq<u8>,
    client: u16,
    tx: u32,
    amount: Option<int>,
) -> Result<Option<Event>, ParseError> {
    if tyf == spec_word_deposit() {
        match amount {
            Option::None => Result::Ok(Option::None),
            Option::Some(v) => Result::Ok(
                Option::Some(Event::Deposit { client: client, tx: tx, amount: v as i128 }),
            ),
        }
    } else if tyf == spec_word_withdrawal() {
        match amount {
            Option::None => Result::Ok(Option::None),
            Option::Some(v) => Result::Ok(
                Option::Some(Event::Withdrawal { client: client, tx: tx, amount: v as i128 }),
            ),
        }
    } else if tyf == spec_word_dispute() {
        Result::Ok(Option::Some(Event::Dispute { client: client, tx: tx }))
    } else if tyf == spec_word_resolve() {
        Result::Ok(Option::Some(Event::Resolve { client: client, tx: tx }))
    } else {
        Result::Ok(Option::Some(Event::Chargeback { client: client, tx: tx }))
    }
}

/// How one record line is read: the type field must name a known kind,
/// the client and tx fields must be numbers in range, and the amount
/// field, when present and nonempty, must be a well-formed amount. The
/// checks happen in that order, and the first failure names the line.
pub open spec fn spec_record(
    l: Seq<u8>,
    lineno: usize,
    cols: (Option<int>, Option<int>, Option<int>, Option<int>),
) -> Result<Option<Event>, ParseError> {
    let fs = spec_fields(l);
    match getf(fs, cols.0) {
        Option::None => Result::Err(
            ParseError { line: lineno, kind: ParseErrorKind::MissingField },
        ),
        Option::Some(tyf) => if !spec_kind_ok(tyf) {
            Result::Err(ParseError { line: lineno, kind: ParseErrorKind::UnknownKind })
        } else {
            match getf(fs, cols.1) {
                Option::None => Result::Err(
                    ParseError { line: lineno, kind: ParseErrorKind::MissingField },
                ),
                Option::Some(clf) => match spec_parse_u16(clf) {
                    Option::None => Result::Err(
                        ParseError { line: lineno, kind: ParseErrorKind::BadClient },
                    ),
                    Option::Some(client) => match getf(fs, cols.2) {
                        Option::None => Result::Err(
                            ParseError { line: lineno, kind: ParseErrorKind::MissingField },
                        ),
                        Option::Some(txf) => match spec_parse_u32(txf) {
                            Option::None => Result::Err(
                                ParseError { line: lineno, kind: ParseErrorKind::BadTransaction },
                            ),
                            Option::Some(tx) => match getf(fs, cols.3) {
                                Option::None => spec_make_event(tyf, client, tx, Option::None),
                                Option::Some(amf) => if amf.len() == 0 {
                                    spec_make_event(tyf, client, tx, Option::None)
                                } else {
                                    match spec_parse_amount(amf) {
                                        Option::None => Result::Err(
                                            ParseError {
                                                line: lineno,
                                                kind: ParseErrorKind::BadAmount,
                                            },
                                        ),
                                        Option::Some(v) => spec_make_event(
                                            tyf,
                                            client,
                                            tx,
                                            Option::Some(v),
                                        ),
                                    }
                                },
                            },
                        },
                    },
                },
            }
        },
    }
}

enum RowKind {
    Deposit,
    Withdrawal,
    Dispute,
    Resolve,
    Chargeback,
}

/// Reads one nonblank record line against the header's columns.
#[verifier::rlimit(60)]
fn parse_record(
    l: &Vec<u8>,
    lineno: usize,
    cols: &Columns,
    Ghost(sc): Ghost<(Option<int>, Option<int>, Option<int>, Option<int>)>,
) -> (r: Result<Option<Event>, ParseError>)
    requires
        cols_match(*cols, sc),
    ensures
        r == spec_record(l@, lineno, sc),
        match r {
            Result::Ok(Option::Some(ev)) => event_wf(ev),
            _ => true,
        },
{
    let fs: Vec<Vec<u8>> = split_fields(l);
    let nf: usize = fs.len();
    let tyj: usize = match cols.ty {
        Option::Some(j) => j,
        Option::None => {
            return Result::Err(ParseError { line: lineno, kind: ParseErrorKind::MissingField });
        },
    };
    if tyj >= nf {
        return Result::Err(ParseError { line: lineno, kind: ParseErrorKind::MissingField });
    }
    proof {
        assert(fs@[tyj as int]@ == spec_fields(l@)[tyj as int]);
    }
    let kind: RowKind = if is_word_deposit(&fs[tyj]) {
        RowKind::Deposit
    } else if is_word_withdrawal(&fs[tyj]) {
        RowKind::Withdrawal
    } else if is_word_dispute(&fs[tyj]) {
        RowKind::Dispute
    } else if is_word_resolve(&fs[tyj]) {
        RowKind::Resolve
    } else if is_word_chargeback(&fs[tyj]) {
        RowKind::Chargeback
    } else {
        return Result::Err(ParseError { line: lineno, kind: ParseErrorKind::UnknownKind });
    };
    let clj: usize = match cols.client {
        Option::Some(j) => j,
        Option::None => {
            return Result::Err(ParseError { line: lineno, kind: ParseErrorKind::MissingField });
        },
    };
    if clj >= nf {
        return Result::Err(ParseError { line: lineno, kind: ParseErrorKind::MissingField });
    }
    proof {
        assert(fs@[clj as int]@ == spec_fields(l@)[clj as int]);
    }
    let client: u16 = match parse_u16(&fs[clj]) {
        Option::Some(v) => v,
        Option::None => {
            return Result::Err(ParseError { line: lineno, kind: ParseErrorKind::BadClient });
        },
    };
    let txj: usize = match cols.tx {
        Option::Some(j) => j,
        Option::None => {
            return Result::Err(ParseError { line: lineno, kind: ParseErrorKind::MissingField });
        },
    };
    if txj >= nf {
        return Result::Err(ParseError { line: lineno, kind: ParseErrorKind::MissingField });
    }
    proof {
        assert(fs@[txj as int]@ == spec_fields(l@)[txj as int]);
    }
    let tx: u32 = match parse_u32(&fs[txj]) {
        Option::Some(v) => v,
        Option::None => {
            return Result::Err(ParseError { line: lineno, kind: ParseErrorKind::BadTransaction });
        },
    };
    let mut amount: Option<i128> = Option::None;
    match cols.amount {
        Option::Some(j) => {
            if j < nf {
                proof {
                    assert(fs@[j as int]@ == spec_fields(l@)[j as int]);
                }
                if fs[j].len() > 0 {
                    match parse_amount(&fs[j]) {
                        Option::Some(v) => {
                            amount = Option::Some(v);
                        },
                        Option::None => {
                            return Result::Err(
                                ParseError { line: lineno, kind: ParseErrorKind::BadAmount },
                            );
                        },
                    }
                }
            }
        },
        Option::None => {},
    }
    match kind {
        RowKind::Deposit => match amount {
            Option::None => Result::Ok(Option::None),
            Option::Some(v) => Result::Ok(
                Option::Some(Event::Deposit { client: client, tx: tx, amount: v }),
            ),
        },
        RowKind::Withdrawal => match amount {
            Option::None => Result::Ok(Option::None),
            Option::Some(v) => Result::Ok(
                Option::Some(Event::Withdrawal { client: client, tx: tx, amount: v }),
            ),
        },
        RowKind::Dispute => Result::Ok(Option::Some(Event::Dispute { client: client, tx: tx })),
        RowKind::Resolve => Result::Ok(Option::Some(Event::Resolve { client: client, tx: tx })),
        RowKind::Chargeback => Result::Ok(
            Option::Some(Event::Chargeback { client: client, tx: tx }),
        ),
    }
}

/// The first line that holds a record — one that is not blank — at or
/// after `i`, or `-1` if none is left.
pub open spec fn spec_first_data(lines: Seq<Seq<u8>>, i: int) -> int
    decreases lines.len() - i,
{
    if i < 0 || i >= lines.len() {
        -1
    } else if spec_strip_cr(lines[i]).len() > 0 {
        i
    } else {
        spec_first_data(lines, i + 1)
    }
}

/// How the record lines from `i` on are read: blank lines are skipped,
/// every other line must read as a record, and the events come in line
/// order.
pub open spec fn spec_records(
    lines: Seq<Seq<u8>>,
    i: int,
    cols: (Option<int>, Option<int>, Option<int>, Option<int>),
) -> Result<Seq<Event>, ParseError>
    decreases lines.len() - i,
{
    if i < 0 || i >= lines.len() {
        Result::Ok(Seq::empty())
    } else {
        let l = spec_strip_cr(lines[i]);
        if l.len() == 0 {
            spec_records(lines, i + 1, cols)
        } else {
            match spec_record(l, (i + 1) as usize, cols) {
                Result::Err(e) => Result::Err(e),
                Result::Ok(opt) => match spec_records(lines, i + 1, cols) {
                    Result::Err(e) => Result::Err(e),
                    Result::Ok(rest) => match opt {
                        Option::None => Result::Ok(rest),
                        Option::Some(ev) => Result::Ok(seq![ev] + rest),
                    },
                },
            }
        }
    }
}

/// How a whole input is read: the first nonblank line is the header and
/// names the columns; every later nonblank line is a record. An input
/// with no nonblank line holds no events.
pub open spec fn spec_parse(s: Seq<u8>) -> Result<Seq<Event>, ParseError> {
    let lines = spec_lines(s);
    let h: int = spec_first_data(lines, 0);
    if h == -1 {
        Result::Ok(Seq::empty())
    } else {
        spec_records(lines, h + 1, spec_header_cols(spec_strip_cr(lines[h])))
    }
}

/// Reads the whole input into its events, or the error of the first
/// unreadable record.
#[verifier::loop_isolation(false)]
#[verifier::rlimit(60)]
pub fn parse_events(input: &[u8]) -> (r: Result<Vec<Event>, ParseError>)
    ensures
        match r {
            Result::Ok(evs) => spec_parse(input@) == Result::<Seq<Event>, ParseError>::Ok(evs@)
                && forall|j: int| 0 <= j < evs@.len() ==> event_wf(#[trigger] evs@[j]),
            Result::Err(e) => spec_parse(input@) == Result::<Seq<Event>, ParseError>::Err(e),
        },
{
    let lines: Vec<Vec<u8>> = split_lines(input);
    let ghost ls: Seq<Seq<u8>> = rows_view(lines@);
    let n: usize = lines.len();
    let mut h: usize = 0;
    while h < n
        invariant
            h <= n,
            spec_first_data(ls, 0) == spec_first_data(ls, h as int),
        decreases n - h,
    {
        let cl: Vec<u8> = strip_cr(&lines[h]);
        proof {
            assert(cl@ == spec_strip_cr(ls[h as int]));
        }
        if cl.len() > 0 {
            proof {
                assert(spec_first_data(ls, h as int) == h as int);
            }
            let hf: Vec<Vec<u8>> = split_fields(&cl);
            let cols: Columns = find_cols(&hf);
            let ghost sc: (Option<int>, Option<int>, Option<int>, Option<int>) = spec_header_cols(
                cl@,
            );
            proof {
                assert(rows_view(hf@) == spec_fields(cl@));
                assert(cols_match(cols, sc));
            }
            let mut evs: Vec<Event> = Vec::new();
            let mut i: usize = h + 1;
            proof {
                assert(evs@ =~= Seq::<Event>::empty());
            }
            while i < n
                invariant
                    h < i <= n,
                    cols_match(cols, sc),
                    forall|j: int| 0 <= j < evs@.len() ==> event_wf(#[trigger] evs@[j]),
                    match spec_records(ls, i as int, sc) {
                        Result::Ok(rest) => spec_records(ls, h + 1int, sc) == Result::<
                            Seq<Event>,
                            ParseError,
                        >::Ok(evs@ + rest),
                        Result::Err(e) => spec_records(ls, h + 1int, sc) == Result::<
                            Seq<Event>,
                            ParseError,
                        >::Err(e),
                    },
                decreases n - i,
            {
                let cl2: Vec<u8> = strip_cr(&lines[i]);
                proof {
                    assert(cl2@ == spec_strip_cr(ls[i as int]));
                }
                if cl2.len() > 0 {
                    match parse_record(&cl2, i + 1, &cols, Ghost(sc)) {
                        Result::Ok(Option::Some(ev)) => {
                            let ghost prev: Seq<Event> = evs@;
                            evs.push(ev);
                            proof {
                                match spec_records(ls, i + 1int, sc) {
                                    Result::Ok(rest2) => {
                                        assert(prev + (seq![ev] + rest2) =~= evs@ + rest2);
                                    },
                                    Result::Err(_) => {},
                                }
                            }
                        },
                        Result::Ok(Option::None) => {},
                        Result::Err(e) => {
                            return Result::Err(e);
                        },
                    }
                }
                i = i + 1;
            }
            proof {
                assert(spec_records(ls, n as int, sc) == Result::<Seq<Event>, ParseError>::Ok(
                    Seq::empty(),
                ));
                assert(evs@ + Seq::<Event>::empty() =~= evs@);
            }
            return Result::Ok(evs);
        }
        h = h + 1;
    }
    proof {
        assert(spec_first_data(ls, n as int) == -1);
    }
    Result::Ok(Vec::new())
}

} // verus!
