use vstd::prelude::*;

use crate::codec::{decode, encode, parse_line, format_record, normalized, pair_text, is_field, day, condition, high, low, value_or_empty};
use crate::error::{Error, ErrorView};
use crate::record::Record;
use crate::text::{chars_of, push_char, split_chars, split_on, string_of};

verus! {

/// Where the store lives, relative to the working directory.
pub fn store_path() -> (r: &'static str)
    ensures
        r@ == seq!['d', 'a', 't', 'a', '/', 's', 't', 'o', 'r', 'e', '.', 't', 'x', 't'],
{
    proof { reveal_strlit("data/store.txt"); }
    let r = "data/store.txt";
    assert(r@ =~= seq!['d', 'a', 't', 'a', '/', 's', 't', 'o', 'r', 'e', '.', 't', 'x', 't']);
    r
}

/// Whitespace as `char::is_whitespace` has it (the Unicode White_Space property).
pub open spec fn is_space(c: char) -> bool {
    let n = c as u32;
    (0x9 <= n <= 0xd) || n == 0x20 || n == 0x85 || n == 0xa0 || n == 0x1680 || (0x2000 <= n
        <= 0x200a) || n == 0x2028 || n == 0x2029 || n == 0x202f || n == 0x205f || n == 0x3000
}

/// A line that holds nothing but whitespace.
pub open spec fn is_blank(l: Seq<char>) -> bool {
    forall|i: int| 0 <= i < l.len() ==> is_space(#[trigger] l[i])
}

/// A line without the carriage return that ends a `\r\n` line ending.
pub open spec fn strip_cr(l: Seq<char>) -> Seq<char> {
    if l.len() > 0 && l.last() == '\r' {
        l.drop_last()
    } else {
        l
    }
}

/// The records that the stored lines hold, in order: blank lines are skipped, and
/// the first line that fails to decode is the error.
pub open spec fn load_lines(ls: Seq<Seq<char>>) -> Result<Seq<Map<Seq<char>, Seq<char>>>, ErrorView>
    decreases ls.len(),
{
    if ls.len() == 0 {
        Ok(Seq::empty())
    } else {
        match load_lines(ls.drop_last()) {
            Err(e) => Err(e),
            Ok(rs) => {
                let l = strip_cr(ls.last());
                if is_blank(l) {
                    Ok(rs)
                } else {
                    match decode(l) {
                        Err(e) => Err(e),
                        Ok(m) => Ok(rs.push(m)),
                    }
                }
            },
        }
    }
}

/// The records that a store holds: none where the file is absent, else those of its
/// lines.
pub open spec fn load_store(contents: Option<Seq<char>>) -> Result<
    Seq<Map<Seq<char>, Seq<char>>>,
    ErrorView,
> {
    match contents {
        None => Ok(Seq::empty()),
        Some(t) => load_lines(split_on(t, '\n')),
    }
}

/// The store after it is initialized: present and empty, whatever it was.
pub open spec fn after_initialize(contents: Option<Seq<char>>) -> Option<Seq<char>> {
    Some(Seq::empty())
}

/// The store after a record is appended: created if absent, with the record's line
/// added at the end.
pub open spec fn after_append(contents: Option<Seq<char>>, m: Map<Seq<char>, Seq<char>>) -> Option<
    Seq<char>,
> {
    let t = match contents {
        None => Seq::empty(),
        Some(t) => t,
    };
    Some(t + encode(m).push('\n'))
}

/// The text that appending `values` adds to the store: its encoded line and a newline.
pub fn record_line(values: &Record) -> (r: String)
    requires
        values.wf(),
    ensures
        r@ == encode(values@).push('\n'),
{
    let mut r = format_record(values);
    push_char(&mut r, '\n');
    r
}

fn is_space_char(c: char) -> (r: bool)
    ensures
        r == is_space(c),
{
    let n = c as u32;
    (0x9 <= n && n <= 0xd) || n == 0x20 || n == 0x85 || n == 0xa0 || n == 0x1680 || (0x2000 <= n
        && n <= 0x200a) || n == 0x2028 || n == 0x2029 || n == 0x202f || n == 0x205f || n == 0x3000
}

/// Reads the records of a store, given its contents, or `None` where the file is
/// absent. Lines are split at `\n`, a `\r` before it is dropped, blank lines are
/// skipped, and the first line that fails to decode aborts the load with its error.
pub fn load_all(contents: Option<&str>) -> (r: Result<Vec<Record>, Error>)
    ensures
        contents is None ==> (r matches Ok(v) && v@.len() == 0),
        match r {
            Ok(v) => (forall|i: int| 0 <= i < v@.len() ==> (#[trigger] v@[i]).wf()) && load_store(
                match contents {
                    None => None,
                    Some(t) => Some(t@),
                },
            ) == Ok::<_, ErrorView>(v@.map_values(|x: Record| x@)),
            Err(e) => load_store(
                match contents {
                    None => None,
                    Some(t) => Some(t@),
                },
            ) == Err::<Seq<Map<Seq<char>, Seq<char>>>, _>(e@),
        },
{
    let text = match contents {
        None => {
            let v: Vec<Record> = Vec::new();
            assert(v@.map_values(|x: Record| x@) =~= Seq::empty());
            return Ok(v);
        },
        Some(t) => t,
    };
    let cs = chars_of(text);
    let lines = split_chars(&cs, '\n');
    let ghost views = lines@.map_values(|p: Vec<char>| p@);
    let mut out: Vec<Record> = Vec::new();
    let mut j: usize = 0;
    assert(out@.map_values(|x: Record| x@) =~= Seq::empty());
    assert(views.take(0) =~= Seq::<Seq<char>>::empty());
    while j < lines.len()
        invariant
            j <= lines.len(),
            contents == Some(text),
            views == lines@.map_values(|p: Vec<char>| p@),
            views == split_on(text@, '\n'),
            forall|i: int| 0 <= i < out@.len() ==> (#[trigger] out@[i]).wf(),
            load_lines(views.take(j as int)) == Ok::<_, ErrorView>(out@.map_values(|x: Record| x@)),
        decreases lines.len() - j,
    {
        let line = &lines[j];
        proof {
            assert(views.take(j as int + 1).drop_last() == views.take(j as int));
            assert(views.take(j as int + 1).last() == line@);
        }
        let mut end = line.len();
        if end > 0 && line[end - 1] == '\r' {
            end = end - 1;
        }
        assert(line@.take(end as int) == strip_cr(line@));
        let mut blank = true;
        let mut i: usize = 0;
        while i < end
            invariant
                i <= end <= line.len(),
                blank == (forall|k: int| 0 <= k < i ==> is_space(#[trigger] line@[k])),
            decreases end - i,
        {
            if !is_space_char(line[i]) {
                blank = false;
            }
            i = i + 1;
        }
        assert(blank == is_blank(strip_cr(line@))) by {
            let l = strip_cr(line@);
            if blank {
                assert forall|k: int| 0 <= k < l.len() implies is_space(#[trigger] l[k]) by {
                    assert(l[k] == line@[k]);
                }
            } else {
                let k = choose|k: int| 0 <= k < end && !is_space(#[trigger] line@[k]);
                assert(l[k] == line@[k]);
            }
        }
        if !blank {
            let l = string_of(line, 0, end);
            match parse_line(l.as_str()) {
                Err(e) => {
                    proof { lemma_load_error_stays(views, j as int); }
                    return Err(e);
                },
                Ok(rec) => {
                    let ghost before = out@;
                    out.push(rec);
                    assert(out@.map_values(|x: Record| x@) =~= before.map_values(|x: Record| x@).push(
                        rec@,
                    ));
                },
            }
        }
        j = j + 1;
    }
    assert(views.take(lines.len() as int) == views);
    Ok(out)
}

/// Once a prefix of the lines fails to load, every longer prefix fails the same way.
proof fn lemma_load_error_stays(ls: Seq<Seq<char>>, j: int)
    requires
        0 <= j < ls.len(),
        load_lines(ls.take(j + 1)) is Err,
    ensures
        load_lines(ls) == load_lines(ls.take(j + 1)),
    decreases ls.len() - j,
{
    if j + 1 == ls.len() {
        assert(ls.take(j + 1) == ls);
    } else {
        assert(ls.take(j + 2).drop_last() == ls.take(j + 1));
        lemma_load_error_stays(ls, j + 1);
    }
}

/// Initializing twice leaves the store as initializing once does: present and
/// holding no records.
pub proof fn law_initialize_idempotent(contents: Option<Seq<char>>)
    ensures
        after_initialize(after_initialize(contents)) == after_initialize(contents),
        load_store(after_initialize(contents)) == Ok::<_, ErrorView>(
            Seq::<Map<Seq<char>, Seq<char>>>::empty(),
        ),
{
    lemma_load_empty_text();
}

/// An empty text holds no records.
proof fn lemma_load_empty_text()
    ensures
        load_lines(split_on(Seq::<char>::empty(), '\n')) == Ok::<_, ErrorView>(
            Seq::<Map<Seq<char>, Seq<char>>>::empty(),
        ),
{
    let ls = split_on(Seq::<char>::empty(), '\n');
    assert(ls == seq![Seq::<char>::empty()]);
    assert(ls.drop_last() =~= Seq::<Seq<char>>::empty());
    assert(load_lines(ls.drop_last()) == Ok::<_, ErrorView>(
        Seq::<Map<Seq<char>, Seq<char>>>::empty(),
    ));
    assert(ls.last() == Seq::<char>::empty());
    assert(strip_cr(ls.last()) == Seq::<char>::empty());
    assert(is_blank(strip_cr(ls.last())));
}

/// A record whose field values can stand in a stored line.
pub open spec fn storable(m: Map<Seq<char>, Seq<char>>) -> bool {
    forall|k: Seq<char>|
        is_field(k) && m.contains_key(k) ==> !(#[trigger] m[k]).contains('|') && !m[k].contains(
            '\n',
        ) && !m[k].contains('\r')
}

proof fn lemma_lacks_concat(a: Seq<char>, b: Seq<char>, c: char)
    requires
        !a.contains(c),
        !b.contains(c),
    ensures
        !(a + b).contains(c),
{
    if (a + b).contains(c) {
        let i = choose|i: int| 0 <= i < (a + b).len() && (a + b)[i] == c;
        if i < a.len() {
            assert(a[i] == c);
        } else {
            assert(b[i - a.len()] == c);
        }
    }
}

proof fn lemma_pair_lacks(m: Map<Seq<char>, Seq<char>>, k: Seq<char>, c: char)
    requires
        is_field(k),
        storable(m),
        c == '\n' || c == '\r',
    ensures
        !pair_text(m, k).contains(c),
        !pair_text(m, k).push('|').contains(c),
{
    crate::codec::lemma_field_plain(k);
    lemma_lacks_concat(k, seq!['='], c);
    assert(k.push('=') == k + seq!['=']);
    lemma_lacks_concat(k.push('='), value_or_empty(m, k), c);
    lemma_lacks_concat(pair_text(m, k), seq!['|'], c);
    assert(pair_text(m, k).push('|') == pair_text(m, k) + seq!['|']);
}

/// The line of a storable record holds no line break, does not end in `\r`, and is
/// not blank.
proof fn lemma_encode_line(m: Map<Seq<char>, Seq<char>>)
    requires
        storable(m),
    ensures
        !encode(m).contains('\n'),
        strip_cr(encode(m)) == encode(m),
        !is_blank(encode(m)),
{
    lemma_pair_lacks(m, day(), '\n');
    lemma_pair_lacks(m, condition(), '\n');
    lemma_pair_lacks(m, high(), '\n');
    lemma_pair_lacks(m, low(), '\n');
    let q0 = pair_text(m, day()).push('|');
    let q1 = pair_text(m, condition()).push('|');
    let q2 = pair_text(m, high()).push('|');
    let q3 = pair_text(m, low());
    lemma_lacks_concat(q0, q1, '\n');
    lemma_lacks_concat(q0 + q1, q2, '\n');
    lemma_lacks_concat(q0 + q1 + q2, q3, '\n');
    let e = encode(m);
    assert(e[0] == 'd');
    assert(!is_space('d'));
    lemma_pair_lacks(m, low(), '\r');
    let v = value_or_empty(m, low());
    if v.len() > 0 {
        assert(e.last() == v.last());
        assert(v[v.len() - 1] != '\r');
    } else {
        assert(e.last() == '=');
    }
}

/// Appending a record to a store whose lines load adds that record, as it decodes,
/// after the others, provided the store is absent, empty, or ends its last line.
pub proof fn law_append_adds_last(contents: Option<Seq<char>>, m: Map<Seq<char>, Seq<char>>)
    requires
        match contents {
            None => true,
            Some(t) => t.len() == 0 || t.last() == '\n',
        },
        load_store(contents) is Ok,
        storable(m),
    ensures
        load_store(after_append(contents, m)) == Ok::<_, ErrorView>(
            load_store(contents)->Ok_0.push(normalized(m)),
        ),
        after_append(contents, m)->0.last() == '\n',
{
    let t = match contents {
        None => Seq::empty(),
        Some(t) => t,
    };
    let e = encode(m);
    let nt = t + e.push('\n');
    assert(after_append(contents, m) == Some(nt));
    lemma_encode_line(m);
    crate::codec::law_decode_encode(m);
    crate::text::lemma_split_plain(e, '\n');
    crate::text::lemma_split_concat(e, Seq::empty(), '\n');
    assert(e.push('\n') + Seq::<char>::empty() == e.push('\n'));
    let tail = split_on(e.push('\n'), '\n');
    assert(tail =~= seq![e, Seq::<char>::empty()]);
    let empty_line = Seq::<char>::empty();
    assert(is_blank(strip_cr(empty_line)));
    if t.len() == 0 {
        assert(nt == e.push('\n'));
        assert(tail.drop_last() =~= seq![e]);
        assert(seq![e].drop_last() =~= Seq::<Seq<char>>::empty());
        lemma_load_empty_text();
        assert(t == Seq::<char>::empty());
        assert(load_store(contents) == Ok::<_, ErrorView>(
            Seq::<Map<Seq<char>, Seq<char>>>::empty(),
        ));
        assert(Seq::<Map<Seq<char>, Seq<char>>>::empty().push(normalized(m)) =~= seq![normalized(m)]);
        assert(seq![e].last() == e);
        assert(load_lines(Seq::<Seq<char>>::empty()) == Ok::<_, ErrorView>(
            Seq::<Map<Seq<char>, Seq<char>>>::empty(),
        ));
        assert(load_lines(seq![e]) == Ok::<_, ErrorView>(seq![normalized(m)]));
        assert(tail.last() == empty_line);
        assert(load_lines(tail) == Ok::<_, ErrorView>(seq![normalized(m)]));
    } else {
        let t0 = t.drop_last();
        assert(t == t0.push('\n') + Seq::<char>::empty());
        crate::text::lemma_split_concat(t0, Seq::empty(), '\n');
        assert(nt == t0.push('\n') + e.push('\n'));
        crate::text::lemma_split_concat(t0, e.push('\n'), '\n');
        let x = split_on(t0, '\n');
        let ls = x + tail;
        assert(split_on(nt, '\n') == ls);
        assert(ls.drop_last() =~= x.push(e));
        assert(x.push(e).drop_last() == x);
        assert(split_on(t, '\n') == x + seq![empty_line]);
        assert((x + seq![empty_line]).drop_last() =~= x);
        assert((x + seq![empty_line]).last() == empty_line);
        assert(load_lines(split_on(t, '\n')) == load_lines(x));
        assert(x.push(e).last() == e);
        assert(load_lines(x.push(e)) == Ok::<_, ErrorView>(load_lines(x)->Ok_0.push(normalized(m))));
        assert(ls.last() == empty_line);
        assert(load_lines(ls) == load_lines(x.push(e)));
    }
}

/// Records appended one after another to an initialized store load back in the
/// order in which they were appended.
pub proof fn law_append_keeps_order(
    contents: Option<Seq<char>>,
    r1: Map<Seq<char>, Seq<char>>,
    r2: Map<Seq<char>, Seq<char>>,
    r3: Map<Seq<char>, Seq<char>>,
)
    requires
        storable(r1),
        storable(r2),
        storable(r3),
    ensures
        load_store(after_append(after_append(after_append(after_initialize(contents), r1), r2), r3))
            == Ok::<_, ErrorView>(seq![normalized(r1), normalized(r2), normalized(r3)]),
{
    let s0 = after_initialize(contents);
    law_initialize_idempotent(contents);
    law_append_adds_last(s0, r1);
    let s1 = after_append(s0, r1);
    law_append_adds_last(s1, r2);
    let s2 = after_append(s1, r2);
    law_append_adds_last(s2, r3);
    assert(Seq::<Map<Seq<char>, Seq<char>>>::empty().push(normalized(r1)).push(normalized(r2)).push(
        normalized(r3),
    ) =~= seq![normalized(r1), normalized(r2), normalized(r3)]);
}

} // verus!
