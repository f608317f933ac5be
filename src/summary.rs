use vstd::prelude::*;

use crate::codec::high;
use crate::record::Record;
use crate::text::push_char;

verus! {

pub open spec fn is_digit(c: char) -> bool {
    0x30 <= (c as u32) <= 0x39
}

pub open spec fn digit_value(c: char) -> int {
    (c as u32) - 0x30
}

/// The number that a run of decimal digits writes.
pub open spec fn digits_value(s: Seq<char>) -> int
    decreases s.len(),
{
    if s.len() == 0 {
        0
    } else {
        digits_value(s.drop_last()) * 10 + digit_value(s.last())
    }
}

/// How many characters of `s` are a leading sign.
pub open spec fn sign_len(s: Seq<char>) -> int {
    if s.len() > 0 && (s[0] == '-' || s[0] == '+') {
        1
    } else {
        0
    }
}

pub open spec fn all_digits(ds: Seq<char>) -> bool {
    forall|i: int| 0 <= i < ds.len() ==> is_digit(#[trigger] ds[i])
}

/// The value that a signed decimal numeral writes.
pub open spec fn signed_value(s: Seq<char>) -> int {
    if sign_len(s) == 1 && s[0] == '-' {
        -digits_value(s.skip(1))
    } else {
        digits_value(s.skip(sign_len(s)))
    }
}

/// What `str::parse::<i64>` accepts: an optional sign and at least one decimal
/// digit, with a value that fits in an `i64`.
pub open spec fn parse_i64(s: Seq<char>) -> Option<int> {
    let ds = s.skip(sign_len(s));
    if ds.len() > 0 && all_digits(ds) && i64::MIN <= signed_value(s) <= i64::MAX {
        Some(signed_value(s))
    } else {
        None
    }
}

proof fn lemma_digits_grow(s: Seq<char>, i: int, j: int)
    requires
        0 <= i <= j <= s.len(),
        forall|k: int| 0 <= k < s.len() ==> is_digit(#[trigger] s[k]),
    ensures
        0 <= digits_value(s.take(i)) <= digits_value(s.take(j)),
    decreases j,
{
    if j > 0 {
        if i < j {
            lemma_digits_grow(s, i, j - 1);
        } else {
            lemma_digits_grow(s, i - 1, j - 1);
        }
        assert(s.take(j).drop_last() == s.take(j - 1));
        assert(is_digit(s[j - 1]));
    } else {
        assert(s.take(0) =~= Seq::<char>::empty());
    }
}

/// Reads a decimal integer as `str::parse::<i64>` does.
pub fn parse_int(s: &str) -> (r: Option<i64>)
    ensures
        match r {
            Some(n) => parse_i64(s@) == Some(n as int),
            None => parse_i64(s@) is None,
        },
{
    let cs = crate::text::chars_of(s);
    let n = cs.len();
    let mut start: usize = 0;
    let mut negative = false;
    if n > 0 && (cs[0] == '-' || cs[0] == '+') {
        start = 1;
        negative = cs[0] == '-';
    }
    let ghost ds = cs@.skip(start as int);
    assert(start == sign_len(s@));
    if start == n {
        return None;
    }
    let limit: u64 = if negative {
        0x8000_0000_0000_0000
    } else {
        0x7fff_ffff_ffff_ffff
    };
    let mut acc: u64 = 0;
    let mut i: usize = start;
    while i < n
        invariant
            start <= i <= n == cs.len(),
            cs@ == s@,
            start == (if n > 0 && (cs@[0] == '-' || cs@[0] == '+') {
                1usize
            } else {
                0usize
            }),
            negative == (start == 1 && cs@[0] == '-'),
            ds == cs@.skip(start as int),
            ds == s@.skip(sign_len(s@)),
            forall|k: int| 0 <= k < i - start ==> is_digit(#[trigger] ds[k]),
            acc as int == digits_value(ds.take(i - start)),
            acc <= limit,
            limit == if negative {
                0x8000_0000_0000_0000u64
            } else {
                0x7fff_ffff_ffff_ffffu64
            },
        decreases n - i,
    {
        let c = cs[i];
        let ghost k = i - start;
        assert(ds[k] == c);
        assert(ds.take(k + 1).drop_last() == ds.take(k));
        if !(0x30 <= (c as u32) && (c as u32) <= 0x39) {
            assert(!is_digit(ds[k]));
            return None;
        }
        let d = ((c as u32) - 0x30) as u64;
        if acc > (limit - d) / 10 {
            proof {
                assert(acc * 10 + d > limit) by (nonlinear_arith)
                    requires
                        acc > (limit - d) / 10,
                        d <= 9,
                        d <= limit,
                ;
                assert(digits_value(ds.take(k + 1)) == acc * 10 + d);
                if all_digits(ds) {
                    lemma_digits_grow(ds, k + 1, ds.len() as int);
                    assert(ds.take(ds.len() as int) == ds);
                    assert(digits_value(ds) > limit);
                }
            }
            return None;
        }
        assert(acc * 10 + d <= limit) by (nonlinear_arith)
            requires
                acc <= (limit - d) / 10,
                d <= 9,
                d <= limit,
        ;
        acc = acc * 10 + d;
        i = i + 1;
    }
    assert(ds.take(n - start) == ds);
    if negative {
        if acc == 0x8000_0000_0000_0000 {
            Some(i64::MIN)
        } else {
            Some(-(acc as i64))
        }
    } else {
        Some(acc as i64)
    }
}

/// The decimal digit for `d`.
pub open spec fn digit_char(d: int) -> char {
    seq!['0', '1', '2', '3', '4', '5', '6', '7', '8', '9'][d]
}

/// `n` in decimal, without leading zeros.
pub open spec fn nat_text(n: nat) -> Seq<char>
    decreases n,
{
    if n < 10 {
        seq![digit_char(n as int)]
    } else {
        nat_text(n / 10).push(digit_char((n % 10) as int))
    }
}

/// `n` in decimal, with a `-` before a negative number.
pub open spec fn int_text(n: int) -> Seq<char> {
    if n < 0 {
        seq!['-'] + nat_text((-n) as nat)
    } else {
        nat_text(n as nat)
    }
}

/// Appends `n` in decimal.
fn push_nat(s: &mut String, n: u128)
    ensures
        final(s)@ == old(s)@ + nat_text(n as nat),
    decreases n,
{
    let digits: [char; 10] = ['0', '1', '2', '3', '4', '5', '6', '7', '8', '9'];
    assert(digits@ =~= seq!['0', '1', '2', '3', '4', '5', '6', '7', '8', '9']);
    if n >= 10 {
        push_nat(s, n / 10);
    }
    push_char(s, digits[(n % 10) as usize]);
    proof {
        if n < 10 {
            assert(nat_text(n as nat) == seq![digit_char(n as int)]);
        }
    }
    assert(final(s)@ =~= old(s)@ + nat_text(n as nat));
}

/// Appends `n` in decimal, with a `-` before a negative number.
fn push_int(s: &mut String, n: i128)
    ensures
        final(s)@ == old(s)@ + int_text(n as int),
{
    if n < 0 {
        push_char(s, '-');
        let m: u128 = if n == i128::MIN {
            0x8000_0000_0000_0000_0000_0000_0000_0000
        } else {
            (-n) as u128
        };
        push_nat(s, m);
        assert(final(s)@ =~= old(s)@ + int_text(n as int));
    } else {
        push_nat(s, n as u128);
    }
}

/// What one record adds to the total of field `f`: its value where that reads as
/// an integer, else zero.
pub open spec fn contribution(m: Map<Seq<char>, Seq<char>>, f: Seq<char>) -> int {
    if m.contains_key(f) {
        match parse_i64(m[f]) {
            Some(n) => n,
            None => 0,
        }
    } else {
        0
    }
}

/// The total of field `f` over the records.
pub open spec fn field_total(rs: Seq<Map<Seq<char>, Seq<char>>>, f: Seq<char>) -> int
    decreases rs.len(),
{
    if rs.len() == 0 {
        0
    } else {
        field_total(rs.drop_last(), f) + contribution(rs.last(), f)
    }
}

/// `count=<N>`, followed by `, <field>_total=<T>` where a numeric field is given.
pub open spec fn summary_text(rs: Seq<Map<Seq<char>, Seq<char>>>, field: Option<Seq<char>>) -> Seq<
    char,
> {
    let head = seq!['c', 'o', 'u', 'n', 't', '='] + nat_text(rs.len());
    match field {
        None => head,
        Some(f) => head + seq![',', ' '] + f + seq!['_', 't', 'o', 't', 'a', 'l', '='] + int_text(
            field_total(rs, f),
        ),
    }
}

/// The field whose values the summary adds up.
pub fn numeric_field() -> (r: Option<String>)
    ensures
        r matches Some(f) && f@ == high(),
{
    Some(String::from_str(crate::codec::field_name(2)))
}

/// Sums field `field` over the records; a value that is missing or does not read
/// as an integer adds zero.
fn total_of(records: &[Record], field: &str) -> (t: i128)
    requires
        forall|i: int| 0 <= i < records@.len() ==> (#[trigger] records@[i]).wf(),
    ensures
        t == field_total(records@.map_values(|r: Record| r@), field@),
{
    let ghost views = records@.map_values(|r: Record| r@);
    let mut total: i128 = 0;
    let mut j: usize = 0;
    assert(views.take(0) =~= Seq::<Map<Seq<char>, Seq<char>>>::empty());
    while j < records.len()
        invariant
            j <= records.len(),
            views == records@.map_values(|r: Record| r@),
            forall|i: int| 0 <= i < records@.len() ==> (#[trigger] records@[i]).wf(),
            total == field_total(views.take(j as int), field@),
            -(j as int) * 0x8000_0000_0000_0000 <= total <= (j as int) * 0x8000_0000_0000_0000,
        decreases records.len() - j,
    {
        let rec = &records[j];
        proof {
            assert(views.take(j as int + 1).drop_last() == views.take(j as int));
            assert(views.take(j as int + 1).last() == rec@);
        }
        match rec.get(field) {
            Some(v) => match parse_int(v.as_str()) {
                Some(n) => {
                    total = total + n as i128;
                },
                None => {},
            },
            None => {},
        }
        j = j + 1;
    }
    assert(views.take(records.len() as int) == views);
    total
}

/// `count=<N>, <field>_total=<T>` over the records, or `count=<N>` where no field
/// is given. Values that are missing or do not read as integers add zero.
pub fn summarize(records: &[Record], field: Option<&str>) -> (r: String)
    requires
        forall|i: int| 0 <= i < records@.len() ==> (#[trigger] records@[i]).wf(),
    ensures
        r@ == summary_text(
            records@.map_values(|r: Record| r@),
            match field {
                None => None,
                Some(f) => Some(f@),
            },
        ),
{
    proof {
        reveal_strlit("count=");
        reveal_strlit(", ");
        reveal_strlit("_total=");
    }
    let mut r = String::new();
    r.append("count=");
    push_nat(&mut r, records.len() as u128);
    let ghost head = r@;
    assert(head =~= seq!['c', 'o', 'u', 'n', 't', '='] + nat_text(records@.len()));
    match field {
        None => {},
        Some(f) => {
            let total = total_of(records, f);
            r.append(", ");
            r.append(f);
            r.append("_total=");
            push_int(&mut r, total);
            assert(r@ =~= head + seq![',', ' '] + f@ + seq!['_', 't', 'o', 't', 'a', 'l', '=']
                + int_text(total as int));
        },
    }
    r
}

/// The summary line over the records, totalling the numeric field.
pub fn summary(records: &[Record]) -> (r: String)
    requires
        forall|i: int| 0 <= i < records@.len() ==> (#[trigger] records@[i]).wf(),
    ensures
        r@ == summary_text(records@.map_values(|r: Record| r@), Some(high())),
{
    match numeric_field() {
        Some(f) => summarize(records, Some(f.as_str())),
        None => summarize(records, None),
    }
}

} // verus!
