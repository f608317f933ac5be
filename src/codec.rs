use vstd::prelude::*;

use crate::error::{Error, ErrorView};
use crate::record::Record;
use crate::text::{chars_of, find_char, index_of, split_chars, split_on, string_of};

verus! {

pub open spec fn day() -> Seq<char> {
    seq!['d', 'a', 'y']
}

pub open spec fn condition() -> Seq<char> {
    seq!['c', 'o', 'n', 'd', 'i', 't', 'i', 'o', 'n']
}

pub open spec fn high() -> Seq<char> {
    seq!['h', 'i', 'g', 'h']
}

pub open spec fn low() -> Seq<char> {
    seq!['l', 'o', 'w']
}

/// The record's fields, in the order in which they are written.
pub open spec fn fields() -> Seq<Seq<char>> {
    seq![day(), condition(), high(), low()]
}

pub open spec fn is_field(k: Seq<char>) -> bool {
    k == day() || k == condition() || k == high() || k == low()
}

/// The value held for `k`, or the empty text where there is none.
pub open spec fn value_or_empty(m: Map<Seq<char>, Seq<char>>, k: Seq<char>) -> Seq<char> {
    if m.contains_key(k) {
        m[k]
    } else {
        Seq::empty()
    }
}

/// `k=v`, with `v` the value held for `k` or empty.
pub open spec fn pair_text(m: Map<Seq<char>, Seq<char>>, k: Seq<char>) -> Seq<char> {
    k.push('=') + value_or_empty(m, k)
}

/// The line that stores a record: the four fields in order, joined by `|`.
pub open spec fn encode(m: Map<Seq<char>, Seq<char>>) -> Seq<char> {
    pair_text(m, day()).push('|') + pair_text(m, condition()).push('|') + pair_text(m, high()).push(
        '|',
    ) + pair_text(m, low())
}

/// The record restricted to the four fields, each missing one given an empty value.
pub open spec fn normalized(m: Map<Seq<char>, Seq<char>>) -> Map<Seq<char>, Seq<char>> {
    Map::new(|k: Seq<char>| is_field(k), |k: Seq<char>| value_or_empty(m, k))
}

/// A segment split at its first `=` into key and value.
pub open spec fn split_pair(seg: Seq<char>) -> Option<(Seq<char>, Seq<char>)> {
    match index_of(seg, '=') {
        Some(i) => Some((seg.take(i), seg.skip(i + 1))),
        None => None,
    }
}

/// Decoding segments in order: empty ones are skipped, a later key overrides an
/// earlier one, and the first segment without `=` is the error.
pub open spec fn decode_segments(segs: Seq<Seq<char>>) -> Result<
    Map<Seq<char>, Seq<char>>,
    ErrorView,
>
    decreases segs.len(),
{
    if segs.len() == 0 {
        Ok(Map::empty())
    } else {
        match decode_segments(segs.drop_last()) {
            Err(e) => Err(e),
            Ok(m) => {
                let seg = segs.last();
                if seg.len() == 0 {
                    Ok(m)
                } else {
                    match split_pair(seg) {
                        None => Err(ErrorView::MalformedSegment(seg)),
                        Some(kv) => Ok(m.insert(kv.0, kv.1)),
                    }
                }
            },
        }
    }
}

/// What a stored line decodes to.
pub open spec fn decode(line: Seq<char>) -> Result<Map<Seq<char>, Seq<char>>, ErrorView> {
    decode_segments(split_on(line, '|'))
}

/// The name of the field at `i` in writing order.
pub fn field_name(i: usize) -> (r: &'static str)
    requires
        i < 4,
    ensures
        r@ == fields()[i as int],
{
    proof {
        reveal_strlit("day");
        reveal_strlit("condition");
        reveal_strlit("high");
        reveal_strlit("low");
    }
    if i == 0 {
        let r = "day";
        assert(r@ =~= day());
        r
    } else if i == 1 {
        let r = "condition";
        assert(r@ =~= condition());
        r
    } else if i == 2 {
        let r = "high";
        assert(r@ =~= high());
        r
    } else {
        let r = "low";
        assert(r@ =~= low());
        r
    }
}

/// Encodes a record as one line: `day=..|condition=..|high=..|low=..`.
/// Fields other than these four are left out; a missing one is written empty.
pub fn format_record(values: &Record) -> (r: String)
    requires
        values.wf(),
    ensures
        r@ == encode(values@),
{
    let mut r = String::new();
    let mut i: usize = 0;
    while i < 4
        invariant
            i <= 4,
            values.wf(),
            r@ == if i == 0 {
                Seq::empty()
            } else if i == 1 {
                pair_text(values@, day())
            } else if i == 2 {
                pair_text(values@, day()).push('|') + pair_text(values@, condition())
            } else if i == 3 {
                pair_text(values@, day()).push('|') + pair_text(values@, condition()).push('|')
                    + pair_text(values@, high())
            } else {
                encode(values@)
            },
        decreases 4 - i,
    {
        let ghost before = r@;
        let name = field_name(i);
        if i > 0 {
            crate::text::push_char(&mut r, '|');
        }
        r.append(name);
        crate::text::push_char(&mut r, '=');
        match values.get(name) {
            Some(v) => r.append(v.as_str()),
            None => {},
        }
        proof {
            let p = pair_text(values@, fields()[i as int]);
            if i == 0 {
                assert(r@ =~= p);
            } else {
                assert(r@ =~= before.push('|') + p);
            }
        }
        i = i + 1;
    }
    r
}

/// Decodes a stored line: splits it at `|`, skips empty segments, and splits each
/// other segment at its first `=`. Any keys are accepted; a later key overrides an
/// earlier one.
pub fn parse_line(line: &str) -> (r: Result<Record, Error>)
    ensures
        match r {
            Ok(rec) => rec.wf() && decode(line@) == Ok::<_, ErrorView>(rec@),
            Err(e) => decode(line@) == Err::<Map<Seq<char>, Seq<char>>, _>(e@),
        },
{
    let cs = chars_of(line);
    let segs = split_chars(&cs, '|');
    let ghost views = segs@.map_values(|p: Vec<char>| p@);
    let mut rec = Record::new();
    let mut j: usize = 0;
    while j < segs.len()
        invariant
            j <= segs.len(),
            views == segs@.map_values(|p: Vec<char>| p@),
            views == split_on(line@, '|'),
            rec.wf(),
            decode_segments(views.take(j as int)) == Ok::<_, ErrorView>(rec@),
        decreases segs.len() - j,
    {
        let seg = &segs[j];
        proof {
            assert(views.take(j as int + 1).drop_last() == views.take(j as int));
            assert(views.take(j as int + 1).last() == seg@);
        }
        if seg.len() > 0 {
            match find_char(seg, '=') {
                None => {
                    let bad = string_of(seg, 0, seg.len());
                    assert(bad@ =~= seg@);
                    proof { lemma_decode_error_stays(views, j as int); }
                    return Err(Error::MalformedSegment(bad));
                },
                Some(i) => {
                    let key = string_of(seg, 0, i);
                    let value = string_of(seg, i + 1, seg.len());
                    assert(key@ =~= seg@.take(i as int));
                    assert(value@ =~= seg@.skip(i as int + 1));
                    rec.insert(key, value);
                },
            }
        }
        j = j + 1;
    }
    assert(views.take(segs.len() as int) == views);
    Ok(rec)
}

/// Once a prefix of segments fails to decode, every longer prefix fails the same way.
proof fn lemma_decode_error_stays(segs: Seq<Seq<char>>, j: int)
    requires
        0 <= j < segs.len(),
        decode_segments(segs.take(j + 1)) is Err,
    ensures
        decode_segments(segs) == decode_segments(segs.take(j + 1)),
    decreases segs.len() - j,
{
    if j + 1 == segs.len() {
        assert(segs.take(j + 1) == segs);
    } else {
        assert(segs.take(j + 2).drop_last() == segs.take(j + 1));
        lemma_decode_error_stays(segs, j + 1);
    }
}

/// Checking one input item: it must hold `=`, its key must be a field, and its
/// value must not hold `|`.
pub open spec fn check_item(item: Seq<char>) -> Result<(Seq<char>, Seq<char>), ErrorView> {
    match split_pair(item) {
        None => Err(ErrorView::InvalidItem(item)),
        Some(kv) => if !is_field(kv.0) {
            Err(ErrorView::UnknownField(kv.0))
        } else if kv.1.contains('|') {
            Err(ErrorView::InvalidValue(kv.1))
        } else {
            Ok(kv)
        },
    }
}

/// The fields that the items give, in order; the first bad item is the error.
pub open spec fn parse_items(items: Seq<Seq<char>>) -> Result<Map<Seq<char>, Seq<char>>, ErrorView>
    decreases items.len(),
{
    if items.len() == 0 {
        Ok(Map::empty())
    } else {
        match parse_items(items.drop_last()) {
            Err(e) => Err(e),
            Ok(m) => match check_item(items.last()) {
                Err(e) => Err(e),
                Ok(kv) => Ok(m.insert(kv.0, kv.1)),
            },
        }
    }
}

/// Every field with an empty value.
pub open spec fn empty_fields() -> Map<Seq<char>, Seq<char>> {
    Map::new(|k: Seq<char>| is_field(k), |k: Seq<char>| Seq::<char>::empty())
}

/// The record that the input items describe, each field not given set empty.
pub open spec fn parse_input(items: Seq<Seq<char>>) -> Result<Map<Seq<char>, Seq<char>>, ErrorView> {
    match parse_items(items) {
        Err(e) => Err(e),
        Ok(m) => Ok(empty_fields().union_prefer_right(m)),
    }
}

/// Whether `cs[from..]` holds `c`.
fn holds_char_from(cs: &Vec<char>, from: usize, c: char) -> (r: bool)
    requires
        from <= cs.len(),
    ensures
        r == cs@.skip(from as int).contains(c),
{
    let mut i: usize = from;
    while i < cs.len()
        invariant
            from <= i <= cs.len(),
            forall|j: int| from <= j < i ==> cs@[j] != c,
        decreases cs.len() - i,
    {
        if cs[i] == c {
            assert(cs@.skip(from as int)[i - from] == c);
            return true;
        }
        i = i + 1;
    }
    assert forall|j: int| 0 <= j < cs@.skip(from as int).len() implies cs@.skip(from as int)[j]
        != c by {
        assert(cs@.skip(from as int)[j] == cs@[from + j]);
    }
    false
}

/// Whether `key` names one of the record's fields.
pub fn is_field_name(key: &str) -> (r: bool)
    ensures
        r == is_field(key@),
{
    let mut i: usize = 0;
    while i < 4
        invariant
            i <= 4,
            forall|j: int| 0 <= j < i ==> fields()[j] != key@,
        decreases 4 - i,
    {
        if crate::text::same_text(field_name(i), key) {
            return true;
        }
        i = i + 1;
    }
    assert(fields()[0] == day() && fields()[1] == condition());
    assert(fields()[2] == high() && fields()[3] == low());
    false
}

/// Sets `name` to the empty value unless the record already holds it.
fn fill_default(rec: &mut Record, name: &str)
    requires
        old(rec).wf(),
    ensures
        final(rec).wf(),
        final(rec)@ == if old(rec)@.contains_key(name@) {
            old(rec)@
        } else {
            old(rec)@.insert(name@, Seq::empty())
        },
{
    if rec.get(name).is_none() {
        rec.insert(String::from_str(name), String::new());
    }
}

/// Builds a record from `key=value` items. Each item is split at its first `=`
/// (`InvalidItem` without one); its key must be a field (`UnknownField`) and its
/// value must not hold `|` (`InvalidValue`). The first bad item decides the error.
/// Fields not given are set to the empty value.
pub fn parse_kv(items: &[String]) -> (r: Result<Record, Error>)
    ensures
        match r {
            Ok(rec) => rec.wf() && parse_input(items@.map_values(|s: String| s@)) == Ok::<
                _,
                ErrorView,
            >(rec@),
            Err(e) => parse_input(items@.map_values(|s: String| s@)) == Err::<
                Map<Seq<char>, Seq<char>>,
                _,
            >(e@),
        },
{
    let ghost views = items@.map_values(|s: String| s@);
    let mut rec = Record::new();
    let mut j: usize = 0;
    while j < items.len()
        invariant
            j <= items.len(),
            views == items@.map_values(|s: String| s@),
            rec.wf(),
            parse_items(views.take(j as int)) == Ok::<_, ErrorView>(rec@),
        decreases items.len() - j,
    {
        let item = items[j].as_str();
        proof {
            assert(views.take(j as int + 1).drop_last() == views.take(j as int));
            assert(views.take(j as int + 1).last() == item@);
        }
        let cs = chars_of(item);
        match find_char(&cs, '=') {
            None => {
                proof { lemma_items_error_stays(views, j as int); }
                return Err(Error::InvalidItem(String::from_str(item)));
            },
            Some(i) => {
                let key = string_of(&cs, 0, i);
                assert(key@ =~= cs@.take(i as int));
                if !is_field_name(key.as_str()) {
                    proof { lemma_items_error_stays(views, j as int); }
                    return Err(Error::UnknownField(key));
                }
                let value = string_of(&cs, i + 1, cs.len());
                assert(value@ =~= cs@.skip(i as int + 1));
                if holds_char_from(&cs, i + 1, '|') {
                    proof { lemma_items_error_stays(views, j as int); }
                    return Err(Error::InvalidValue(value));
                }
                rec.insert(key, value);
            },
        }
        j = j + 1;
    }
    assert(views.take(items.len() as int) == views);
    let ghost given = rec@;
    fill_default(&mut rec, field_name(0));
    fill_default(&mut rec, field_name(1));
    fill_default(&mut rec, field_name(2));
    fill_default(&mut rec, field_name(3));
    assert(rec@ =~= empty_fields().union_prefer_right(given));
    Ok(rec)
}

/// Once a prefix of the items fails, every longer prefix fails the same way.
proof fn lemma_items_error_stays(items: Seq<Seq<char>>, j: int)
    requires
        0 <= j < items.len(),
        parse_items(items.take(j + 1)) is Err,
    ensures
        parse_items(items) == parse_items(items.take(j + 1)),
    decreases items.len() - j,
{
    if j + 1 == items.len() {
        assert(items.take(j + 1) == items);
    } else {
        assert(items.take(j + 2).drop_last() == items.take(j + 1));
        lemma_items_error_stays(items, j + 1);
    }
}

/// A field name holds neither `=` nor `|`.
pub proof fn lemma_field_plain(k: Seq<char>)
    requires
        is_field(k),
    ensures
        !k.contains('='),
        !k.contains('|'),
        !k.contains('\n'),
        !k.contains('\r'),
{
    assert forall|i: int| 0 <= i < k.len() implies k[i] != '=' && k[i] != '|' && k[i] != '\n'
        && k[i] != '\r' by {
        if k == day() {
            assert(k[i] == 'd' || k[i] == 'a' || k[i] == 'y');
        } else if k == condition() {
            assert(k[i] == 'c' || k[i] == 'o' || k[i] == 'n' || k[i] == 'd' || k[i] == 'i' || k[i]
                == 't');
        } else if k == high() {
            assert(k[i] == 'h' || k[i] == 'i' || k[i] == 'g');
        } else {
            assert(k[i] == 'l' || k[i] == 'o' || k[i] == 'w');
        }
    }
}

/// The written pair for a field is one segment, and decodes back to the field's value.
proof fn lemma_pair_segment(m: Map<Seq<char>, Seq<char>>, k: Seq<char>)
    requires
        is_field(k),
        !value_or_empty(m, k).contains('|'),
    ensures
        split_on(pair_text(m, k), '|') == seq![pair_text(m, k)],
        split_pair(pair_text(m, k)) == Some((k, value_or_empty(m, k))),
        pair_text(m, k).len() > 0,
{
    let p = pair_text(m, k);
    let v = value_or_empty(m, k);
    lemma_field_plain(k);
    assert(!p.contains('|')) by {
        if p.contains('|') {
            let i = choose|i: int| 0 <= i < p.len() && p[i] == '|';
            if i < k.len() {
                assert(k[i] == '|');
            } else if i > k.len() {
                assert(v[i - k.len() - 1] == '|');
            }
        }
    }
    crate::text::lemma_split_plain(p, '|');
    crate::text::lemma_index_after(k, '=', v);
    assert(p.take(k.len() as int) =~= k);
    assert(p.skip(k.len() as int + 1) =~= v);
}

/// Decoding what a record encodes to gives back the record, restricted to the four
/// fields with each missing one empty, provided no field's value holds `|`.
pub proof fn law_decode_encode(m: Map<Seq<char>, Seq<char>>)
    requires
        forall|k: Seq<char>| is_field(k) && m.contains_key(k) ==> !(#[trigger] m[k]).contains('|'),
    ensures
        decode(encode(m)) == Ok::<_, ErrorView>(normalized(m)),
{
    let p0 = pair_text(m, day());
    let p1 = pair_text(m, condition());
    let p2 = pair_text(m, high());
    let p3 = pair_text(m, low());
    lemma_pair_segment(m, day());
    lemma_pair_segment(m, condition());
    lemma_pair_segment(m, high());
    lemma_pair_segment(m, low());
    let b = p0.push('|') + p1;
    let a = b.push('|') + p2;
    assert(encode(m) == a.push('|') + p3);
    crate::text::lemma_split_concat(p0, p1, '|');
    crate::text::lemma_split_concat(b, p2, '|');
    crate::text::lemma_split_concat(a, p3, '|');
    let segs = seq![p0, p1, p2, p3];
    assert(split_on(encode(m), '|') =~= segs);
    assert(segs.drop_last().drop_last().drop_last().drop_last() =~= Seq::<Seq<char>>::empty());
    assert(segs.drop_last() =~= seq![p0, p1, p2]);
    assert(segs.drop_last().drop_last() =~= seq![p0, p1]);
    assert(segs.drop_last().drop_last().drop_last() =~= seq![p0]);
    let d0 = Map::<Seq<char>, Seq<char>>::empty().insert(day(), value_or_empty(m, day()));
    let d1 = d0.insert(condition(), value_or_empty(m, condition()));
    let d2 = d1.insert(high(), value_or_empty(m, high()));
    let d = d2.insert(low(), value_or_empty(m, low()));
    assert(decode_segments(Seq::<Seq<char>>::empty()) == Ok::<_, ErrorView>(Map::<Seq<char>, Seq<char>>::empty()));
    assert(decode_segments(seq![p0]) == Ok::<_, ErrorView>(d0));
    assert(decode_segments(seq![p0, p1]) == Ok::<_, ErrorView>(d1));
    assert(decode_segments(seq![p0, p1, p2]) == Ok::<_, ErrorView>(d2));
    assert(decode_segments(segs) == Ok::<_, ErrorView>(d));
    assert(d =~= normalized(m));
}

/// What an accepted input gives holds only fields, and no value holds `|`.
proof fn lemma_parsed_fields(items: Seq<Seq<char>>)
    requires
        parse_items(items) is Ok,
    ensures
        forall|k: Seq<char>| #[trigger]
            parse_items(items)->Ok_0.contains_key(k) ==> is_field(k) && !parse_items(
                items,
            )->Ok_0[k].contains('|'),
    decreases items.len(),
{
    if items.len() > 0 {
        lemma_parsed_fields(items.drop_last());
    }
}

/// A record built from accepted input comes back unchanged from encoding and
/// decoding.
pub proof fn law_round_trip(items: Seq<Seq<char>>)
    requires
        parse_input(items) is Ok,
    ensures
        decode(encode(parse_input(items)->Ok_0)) == parse_input(items),
{
    let m = parse_input(items)->Ok_0;
    let given = parse_items(items)->Ok_0;
    lemma_parsed_fields(items);
    assert forall|k: Seq<char>| is_field(k) && m.contains_key(k) implies !(#[trigger] m[k]).contains(
        '|',
    ) by {
        if given.contains_key(k) {
            assert(m[k] == given[k]);
        } else {
            assert(m[k] == Seq::<char>::empty());
        }
    }
    law_decode_encode(m);
    assert(normalized(m) =~= m);
}

/// An empty segment after a trailing `|` is ignored: the line decodes as it would
/// without it.
pub proof fn law_trailing_separator(line: Seq<char>)
    ensures
        decode(line.push('|')) == decode(line),
{
    assert(line.push('|').drop_last() == line);
    crate::text::lemma_split_nonempty(line, '|');
    let segs = split_on(line.push('|'), '|');
    assert(segs.drop_last() == split_on(line, '|'));
}

} // verus!
