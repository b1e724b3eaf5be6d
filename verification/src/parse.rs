//! Parsing one cleaned trace row: four comma-separated columns holding
//! three decimal integers and one plain decimal usage value.

use vstd::prelude::*;

use crate::error::TraceError;
use crate::transfer::UsageRecord;
use vstd::arithmetic::mul::lemma_mul_inequality;
use vstd::slice::slice_subrange;

verus! {

/// An ASCII decimal digit.
pub open spec fn is_digit(b: u8) -> bool {
    48 <= b <= 57
}

/// Every byte of `s` is a decimal digit.
pub open spec fn all_digits(s: Seq<u8>) -> bool {
    forall|j: int| 0 <= j < s.len() ==> is_digit(#[trigger] s[j])
}

/// The number a digit string denotes.
pub open spec fn digits_val(s: Seq<u8>) -> int
    decreases s.len(),
{
    if s.len() == 0 {
        0
    } else {
        digits_val(s.drop_last()) * 10 + (s.last() - 48)
    }
}

/// A non-empty, all-digit string whose value fits `u64`.
pub open spec fn u64_digits(s: Seq<u8>) -> bool {
    &&& s.len() > 0
    &&& all_digits(s)
    &&& digits_val(s) <= u64::MAX
}

/// A digit string denotes a non-negative number.
pub proof fn lemma_digits_val_nonneg(s: Seq<u8>)
    requires
        all_digits(s),
    ensures
        digits_val(s) >= 0,
    decreases s.len(),
{
    if s.len() > 0 {
        assert(all_digits(s.drop_last()));
        lemma_digits_val_nonneg(s.drop_last());
    }
}

/// A prefix of a digit string never denotes more than the whole string.
pub proof fn lemma_digits_prefix_le(s: Seq<u8>, i: int)
    requires
        all_digits(s),
        0 <= i <= s.len(),
    ensures
        digits_val(s.take(i)) <= digits_val(s),
    decreases s.len(),
{
    if i == s.len() {
        assert(s.take(i) =~= s);
    } else {
        assert(all_digits(s.drop_last()));
        assert(s.take(i) =~= s.drop_last().take(i));
        lemma_digits_prefix_le(s.drop_last(), i);
        lemma_digits_val_nonneg(s.drop_last());
    }
}

/// Parses a non-empty string of decimal digits into a `u64`. Rejected as
/// malformed: an empty string, any non-digit byte, and a value that does
/// not fit.
pub fn parse_u64(s: &[u8]) -> (r: Result<u64, TraceError>)
    ensures
        r is Ok <==> u64_digits(s@),
        r is Ok ==> r.unwrap() == digits_val(s@),
        r is Err ==> r == Err::<u64, TraceError>(TraceError::MalformedRecord),
{
    if s.len() == 0 {
        return Err(TraceError::MalformedRecord);
    }
    let mut acc: u64 = 0;
    let mut i: usize = 0;
    while i < s.len()
        invariant
            i <= s@.len(),
            all_digits(s@.take(i as int)),
            acc == digits_val(s@.take(i as int)),
        decreases s@.len() - i,
    {
        let b = s[i];
        if b < 48 || b > 57 {
            assert(!is_digit(s@[i as int]));
            return Err(TraceError::MalformedRecord);
        }
        let d = (b - 48) as u64;
        if acc > (u64::MAX - d) / 10 {
            proof {
                let q = ((u64::MAX - d) / 10) as int;
                lemma_mul_inequality(q + 1, acc as int, 10);
                assert(q * 10 + 10 > u64::MAX - d) by (nonlinear_arith)
                    requires
                        q == ((u64::MAX - d) as int) / 10,
                        0 <= d <= 9,
                ;
                assert(s@.take(i as int + 1).drop_last() =~= s@.take(i as int));
                assert(s@.take(i as int + 1).last() == s@[i as int]);
                assert(digits_val(s@.take(i as int + 1)) > u64::MAX);
                if all_digits(s@) {
                    lemma_digits_prefix_le(s@, i as int + 1);
                }
            }
            return Err(TraceError::MalformedRecord);
        }
        proof {
            let q = ((u64::MAX - d) / 10) as int;
            lemma_mul_inequality(acc as int, q, 10);
            assert(q * 10 <= u64::MAX - d) by (nonlinear_arith)
                requires
                    q == ((u64::MAX - d) as int) / 10,
                    0 <= d <= 9,
            ;
            assert(s@.take(i as int + 1).drop_last() =~= s@.take(i as int));
            assert(s@.take(i as int + 1).last() == s@[i as int]);
        }
        acc = acc * 10 + d;
        i = i + 1;
    }
    proof {
        assert(s@.take(s@.len() as int) =~= s@);
    }
    Ok(acc)
}

/// Index of the first `.` in `s`; `s.len()` if there is none.
pub open spec fn dot_index(s: Seq<u8>) -> int
    decreases s.len(),
{
    if s.len() == 0 {
        0
    } else if s[0] == 46 {
        0
    } else {
        1 + dot_index(s.drop_first())
    }
}

/// `dot_index` is the unique position with no `.` before it.
pub proof fn lemma_dot_index_is(s: Seq<u8>, i: int)
    requires
        0 <= i <= s.len(),
        forall|j: int| 0 <= j < i ==> (#[trigger] s[j]) != 46,
        i < s.len() ==> s[i] == 46,
    ensures
        dot_index(s) == i,
    decreases s.len(),
{
    if s.len() == 0 {
    } else if i == 0 {
    } else {
        assert(s[0] != 46);
        assert forall|j: int| 0 <= j < i - 1 implies (#[trigger] s.drop_first()[j]) != 46 by {
            assert(s.drop_first()[j] == s[j + 1]);
        }
        lemma_dot_index_is(s.drop_first(), i - 1);
    }
}

/// The digits before the `.` (the whole string if there is no `.`).
pub open spec fn int_part(s: Seq<u8>) -> Seq<u8> {
    s.take(dot_index(s))
}

/// The digits after the `.`; empty if there is no `.`.
pub open spec fn frac_part(s: Seq<u8>) -> Seq<u8> {
    if dot_index(s) < s.len() {
        s.skip(dot_index(s) + 1)
    } else {
        Seq::empty()
    }
}

/// The `k`-th fractional digit, zero-padded past the end.
pub open spec fn frac_digit(f: Seq<u8>, k: int) -> int {
    if k < f.len() {
        f[k] - 48
    } else {
        0
    }
}

/// The first six fractional digits as millionths; further digits truncate.
pub open spec fn frac_units(f: Seq<u8>) -> int {
    ((((frac_digit(f, 0) * 10 + frac_digit(f, 1)) * 10 + frac_digit(f, 2)) * 10 + frac_digit(f, 3))
        * 10 + frac_digit(f, 4)) * 10 + frac_digit(f, 5)
}

/// A plain decimal usage value: optional integer part, optional `.` and
/// fractional digits, at least one digit in all.
pub open spec fn usage_wellformed(s: Seq<u8>) -> bool {
    &&& int_part(s).len() + frac_part(s).len() > 0
    &&& all_digits(int_part(s))
    &&& all_digits(frac_part(s))
}

/// The value of a usage string in fixed-point millionths of a unit.
pub open spec fn usage_units(s: Seq<u8>) -> int {
    digits_val(int_part(s)) * 1_000_000 + frac_units(frac_part(s))
}

/// Parses a plain decimal usage value (`12`, `0.5`, `.25`, `3.`) into
/// fixed-point millionths, truncating digits beyond the sixth fractional
/// place. Rejected as malformed: an empty string, a lone `.`, any byte that
/// is neither a digit nor the single `.`, and a value that does not fit.
pub fn parse_usage(s: &[u8]) -> (r: Result<u64, TraceError>)
    ensures
        r is Ok <==> usage_wellformed(s@) && usage_units(s@) <= u64::MAX,
        r is Ok ==> r.unwrap() == usage_units(s@),
        r is Err ==> r == Err::<u64, TraceError>(TraceError::MalformedRecord),
{
    let mut d: usize = 0;
    while d < s.len() && s[d] != 46
        invariant
            d <= s@.len(),
            forall|j: int| 0 <= j < d ==> (#[trigger] s@[j]) != 46,
        decreases s@.len() - d,
    {
        d = d + 1;
    }
    proof {
        lemma_dot_index_is(s@, d as int);
    }
    if d == 0 && s.len() <= 1 {
        // No integer digits and no fractional digits.
        return Err(TraceError::MalformedRecord);
    }
    let iv: u64 = if d == 0 {
        0
    } else {
        proof {
            assert(s@.subrange(0, d as int) =~= int_part(s@));
        }
        match parse_u64(slice_subrange(s, 0, d)) {
            Ok(v) => v,
            Err(e) => {
                proof {
                    if u64_digits(int_part(s@)) {
                    } else if usage_wellformed(s@) {
                        // The integer digits are well formed but overflow
                        // `u64`, so the whole value overflows too.
                        assert(digits_val(int_part(s@)) > u64::MAX);
                    }
                }
                return Err(e);
            },
        }
    };
    if iv > u64::MAX / 1_000_000 {
        return Err(TraceError::MalformedRecord);
    }
    let prod: u64 = iv * 1_000_000;
    // Every fractional byte must be a digit.
    let fstart: usize = if d < s.len() {
        d + 1
    } else {
        d
    };
    let mut i: usize = fstart;
    while i < s.len()
        invariant
            fstart <= i <= s@.len(),
            dot_index(s@) == d,
            d <= s@.len(),
            fstart as int == if d < s@.len() {
                d + 1
            } else {
                d as int
            },
            forall|j: int| fstart <= j < i ==> is_digit(#[trigger] s@[j]),
        decreases s@.len() - i,
    {
        let b = s[i];
        if b < 48 || b > 57 {
            proof {
                assert(frac_part(s@)[i - fstart] == s@[i as int]);
            }
            return Err(TraceError::MalformedRecord);
        }
        i = i + 1;
    }
    proof {
        assert forall|k: int| 0 <= k < frac_part(s@).len() implies is_digit(
            #[trigger] frac_part(s@)[k],
        ) by {
            assert(frac_part(s@)[k] == s@[fstart + k]);
        }
    }
    let flen: usize = s.len() - fstart;
    let f0: u64 = if flen > 0 { (s[fstart] - 48) as u64 } else { 0 };
    let f1: u64 = if flen > 1 { (s[fstart + 1] - 48) as u64 } else { 0 };
    let f2: u64 = if flen > 2 { (s[fstart + 2] - 48) as u64 } else { 0 };
    let f3: u64 = if flen > 3 { (s[fstart + 3] - 48) as u64 } else { 0 };
    let f4: u64 = if flen > 4 { (s[fstart + 4] - 48) as u64 } else { 0 };
    let f5: u64 = if flen > 5 { (s[fstart + 5] - 48) as u64 } else { 0 };
    let fu: u64 = ((((f0 * 10 + f1) * 10 + f2) * 10 + f3) * 10 + f4) * 10 + f5;
    proof {
        assert(fu == frac_units(frac_part(s@)));
    }
    if fu > u64::MAX - prod {
        return Err(TraceError::MalformedRecord);
    }
    Ok(prod + fu)
}

/// The fields of a row: the byte string split on every comma. A string
/// with no comma is one field; every comma separates two fields.
pub open spec fn split_commas(s: Seq<u8>) -> Seq<Seq<u8>>
    decreases s.len(),
{
    if s.len() == 0 {
        seq![Seq::<u8>::empty()]
    } else if s[0] == 44 {
        seq![Seq::<u8>::empty()] + split_commas(s.drop_first())
    } else {
        let rest = split_commas(s.drop_first());
        seq![seq![s[0]] + rest[0]] + rest.drop_first()
    }
}

/// A split has at least one field.
pub proof fn lemma_split_len(s: Seq<u8>)
    ensures
        split_commas(s).len() >= 1,
    decreases s.len(),
{
    if s.len() == 0 {
    } else {
        lemma_split_len(s.drop_first());
    }
}

/// A comma-free string is a single field.
pub proof fn lemma_split_no_comma(f: Seq<u8>)
    requires
        forall|j: int| 0 <= j < f.len() ==> (#[trigger] f[j]) != 44,
    ensures
        split_commas(f) == seq![f],
    decreases f.len(),
{
    if f.len() == 0 {
        assert(f =~= Seq::<u8>::empty());
    } else {
        assert forall|j: int| 0 <= j < f.drop_first().len() implies (#[trigger] f.drop_first()[j])
            != 44 by {
            assert(f.drop_first()[j] == f[j + 1]);
        }
        lemma_split_no_comma(f.drop_first());
        assert(split_commas(f.drop_first())[0] == f.drop_first());
        assert(seq![f[0]] + f.drop_first() =~= f);
        assert(split_commas(f.drop_first()).drop_first() =~= Seq::<Seq<u8>>::empty());
        assert(split_commas(f) =~= seq![f]);
    }
}

/// The first comma splits off the first field.
pub proof fn lemma_split_at_comma(f: Seq<u8>, rest: Seq<u8>)
    requires
        forall|j: int| 0 <= j < f.len() ==> (#[trigger] f[j]) != 44,
    ensures
        split_commas(f + seq![44u8] + rest) == seq![f] + split_commas(rest),
    decreases f.len(),
{
    let s = f + seq![44u8] + rest;
    if f.len() == 0 {
        assert(s[0] == 44);
        assert(s.drop_first() =~= rest);
        assert(f =~= Seq::<u8>::empty());
        assert(split_commas(s) == seq![Seq::<u8>::empty()] + split_commas(rest));
        assert(split_commas(s) =~= seq![f] + split_commas(rest));
    } else {
        assert(s[0] == f[0] && f[0] != 44);
        assert(s.drop_first() =~= f.drop_first() + seq![44u8] + rest);
        assert forall|j: int| 0 <= j < f.drop_first().len() implies (#[trigger] f.drop_first()[j])
            != 44 by {
            assert(f.drop_first()[j] == f[j + 1]);
        }
        lemma_split_at_comma(f.drop_first(), rest);
        let inner = split_commas(f.drop_first() + seq![44u8] + rest);
        assert(inner == seq![f.drop_first()] + split_commas(rest));
        assert(inner[0] == f.drop_first());
        assert(seq![s[0]] + inner[0] =~= f);
        assert(inner.drop_first() =~= split_commas(rest));
        assert(split_commas(s) =~= seq![f] + split_commas(rest));
    }
}

/// Splits one row into its comma-separated fields.
pub fn split_row(line: &[u8]) -> (r: Vec<Vec<u8>>)
    ensures
        r@.len() == split_commas(line@).len(),
        forall|k: int| 0 <= k < r@.len() ==> (#[trigger] r@[k])@ == split_commas(line@)[k],
{
    let mut fields: Vec<Vec<u8>> = Vec::new();
    let mut cur: Vec<u8> = Vec::new();
    let ghost mut fstart: int = 0;
    let mut i: usize = 0;
    proof {
        lemma_split_len(line@);
        assert(line@.skip(0) =~= line@);
        assert(split_commas(line@).skip(0) =~= split_commas(line@));
    }
    while i < line.len()
        invariant
            i <= line@.len(),
            0 <= fstart <= i,
            cur@ == line@.subrange(fstart, i as int),
            forall|j: int| fstart <= j < i ==> (#[trigger] line@[j]) != 44,
            fields@.len() < split_commas(line@).len(),
            forall|k: int|
                0 <= k < fields@.len() ==> (#[trigger] fields@[k])@ == split_commas(line@)[k],
            split_commas(line@.skip(fstart)) == split_commas(line@).skip(fields@.len() as int),
        decreases line@.len() - i,
    {
        let b = line[i];
        if b == 44 {
            proof {
                assert(line@.skip(fstart) =~= line@.subrange(fstart, i as int) + seq![44u8]
                    + line@.skip(i as int + 1));
                lemma_split_at_comma(line@.subrange(fstart, i as int), line@.skip(i as int + 1));
                let nf = fields@.len() as int;
                assert(split_commas(line@).skip(nf) == seq![cur@] + split_commas(
                    line@.skip(i as int + 1),
                ));
                assert(split_commas(line@)[nf] == (seq![cur@] + split_commas(
                    line@.skip(i as int + 1),
                ))[0]);
                assert(split_commas(line@).skip(nf + 1) =~= (seq![cur@] + split_commas(
                    line@.skip(i as int + 1),
                )).drop_first());
                assert(split_commas(line@).skip(nf + 1) =~= split_commas(line@.skip(i as int + 1)));
                lemma_split_len(line@.skip(i as int + 1));
            }
            fields.push(cur);
            cur = Vec::new();
            proof {
                fstart = i + 1;
            }
        } else {
            proof {
                assert(line@.subrange(fstart, i as int).push(line@[i as int]) =~= line@.subrange(
                    fstart,
                    i as int + 1,
                ));
            }
            cur.push(b);
        }
        i = i + 1;
    }
    proof {
        assert(line@.skip(fstart) =~= line@.subrange(fstart, line@.len() as int));
        lemma_split_no_comma(line@.skip(fstart));
        let nf = fields@.len() as int;
        assert(split_commas(line@).skip(nf) == seq![cur@]);
        assert(split_commas(line@).len() == nf + 1);
        assert(split_commas(line@)[nf] == seq![cur@][0]);
    }
    fields.push(cur);
    fields
}

/// The record a row denotes, if it has exactly four well-formed columns:
/// start time, end time, machine identifier, usage value.
pub open spec fn spec_parse_record(line: Seq<u8>) -> Option<UsageRecord> {
    let fs = split_commas(line);
    if fs.len() == 4 && u64_digits(fs[0]) && u64_digits(fs[1]) && u64_digits(fs[2])
        && usage_wellformed(fs[3]) && usage_units(fs[3]) <= u64::MAX {
        Some(
            UsageRecord {
                start_time_us: digits_val(fs[0]) as u64,
                end_time_us: digits_val(fs[1]) as u64,
                machine_id: digits_val(fs[2]) as u64,
                cpu_usage: usage_units(fs[3]) as u64,
            },
        )
    } else {
        None
    }
}

/// Parses one cleaned row into a usage record; any row that cannot be read
/// as four well-formed columns is malformed.
pub fn parse_record(line: &[u8]) -> (r: Result<UsageRecord, TraceError>)
    ensures
        r == (match spec_parse_record(line@) {
            Some(rec) => Ok::<UsageRecord, TraceError>(rec),
            None => Err::<UsageRecord, TraceError>(TraceError::MalformedRecord),
        }),
{
    let fields = split_row(line);
    if fields.len() != 4 {
        return Err(TraceError::MalformedRecord);
    }
    let start_time_us = match parse_u64(fields[0].as_slice()) {
        Ok(v) => v,
        Err(e) => {
            return Err(e);
        },
    };
    let end_time_us = match parse_u64(fields[1].as_slice()) {
        Ok(v) => v,
        Err(e) => {
            return Err(e);
        },
    };
    let machine_id = match parse_u64(fields[2].as_slice()) {
        Ok(v) => v,
        Err(e) => {
            return Err(e);
        },
    };
    let cpu_usage = match parse_usage(fields[3].as_slice()) {
        Ok(v) => v,
        Err(e) => {
            return Err(e);
        },
    };
    Ok(UsageRecord { start_time_us, end_time_us, machine_id, cpu_usage })
}

} // verus!
