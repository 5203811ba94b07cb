//! The plain-text model format: one header line naming the model and one
//! line per particle, each a run of whitespace-separated fields.  This
//! module frames the text into the header's name and the particle records;
//! reading the numbers inside a record is left to the caller.

use crate::model_codec::char_from_u32;
use crate::particles::chars_of;
use vstd::prelude::*;

verus! {

/// Unicode's White_Space characters, the ones `char::is_whitespace` accepts.
pub open spec fn is_white(c: char) -> bool {
    let v = c as u32;
    ||| 0x9 <= v <= 0xd
    ||| v == 0x20
    ||| v == 0x85
    ||| v == 0xa0
    ||| v == 0x1680
    ||| 0x2000 <= v <= 0x200a
    ||| v == 0x2028
    ||| v == 0x2029
    ||| v == 0x202f
    ||| v == 0x205f
    ||| v == 0x3000
}

/// `s` without its leading whitespace.
pub open spec fn trim_start(s: Seq<char>) -> Seq<char>
    decreases s.len(),
{
    if s.len() > 0 && is_white(s[0]) {
        trim_start(s.drop_first())
    } else {
        s
    }
}

/// `s` without its trailing whitespace.
pub open spec fn trim_end(s: Seq<char>) -> Seq<char>
    decreases s.len(),
{
    if s.len() > 0 && is_white(s.last()) {
        trim_end(s.drop_last())
    } else {
        s
    }
}

/// `s` without leading or trailing whitespace.
pub open spec fn trim(s: Seq<char>) -> Seq<char> {
    trim_end(trim_start(s))
}

/// Whether `c` is whitespace.
pub fn is_white_char(c: char) -> (r: bool)
    ensures
        r == is_white(c),
{
    let v = c as u32;
    (0x9 <= v && v <= 0xd) || v == 0x20 || v == 0x85 || v == 0xa0 || v == 0x1680 || (0x2000 <= v
        && v <= 0x200a) || v == 0x2028 || v == 0x2029 || v == 0x202f || v == 0x205f || v == 0x3000
}

/// `s` with leading and trailing whitespace removed.
pub fn trim_chars(s: &Vec<char>) -> (r: Vec<char>)
    ensures
        r@ == trim(s@),
{
    let n = s.len();
    let mut lo: usize = 0;
    assert(s@.skip(0) =~= s@);
    while lo < n && is_white_char(s[lo])
        invariant
            n == s@.len(),
            lo <= n,
            trim_start(s@) == trim_start(s@.skip(lo as int)),
        decreases n - lo,
    {
        assert(s@.skip(lo as int).drop_first() =~= s@.skip(lo + 1));
        lo += 1;
    }
    assert(trim_start(s@) == s@.skip(lo as int));
    let mut hi: usize = n;
    while hi > lo && is_white_char(s[hi - 1])
        invariant
            n == s@.len(),
            lo <= hi <= n,
            trim(s@) == trim_end(s@.subrange(lo as int, hi as int)),
        decreases hi,
    {
        assert(s@.subrange(lo as int, hi as int).drop_last() =~= s@.subrange(lo as int, hi - 1));
        hi -= 1;
    }
    let mut out: Vec<char> = Vec::new();
    let mut k: usize = lo;
    while k < hi
        invariant
            lo <= k <= hi,
            hi <= n,
            n == s@.len(),
            out@ == s@.subrange(lo as int, k as int),
        decreases hi - k,
    {
        out.push(s[k]);
        assert(s@.subrange(lo as int, k + 1) =~= s@.subrange(lo as int, k as int).push(s@[k as int]));
        k += 1;
    }
    out
}

/// The maximal runs of non-whitespace characters of `s`, in order, as
/// `str::split_whitespace` yields them.
pub open spec fn words(s: Seq<char>) -> Seq<Seq<char>>
    decreases s.len(),
{
    if s.len() == 0 {
        Seq::empty()
    } else {
        let w = words(s.drop_last());
        let c = s.last();
        if is_white(c) {
            w
        } else if s.len() >= 2 && !is_white(s[s.len() - 2]) {
            w.update(w.len() - 1, w.last().push(c))
        } else {
            w.push(seq![c])
        }
    }
}

/// The characters of each vector of `v`.
pub open spec fn char_rows(v: Seq<Vec<char>>) -> Seq<Seq<char>> {
    v.map_values(|w: Vec<char>| w@)
}

/// The whitespace-separated fields of `s`.
pub fn words_of(s: &Vec<char>) -> (r: Vec<Vec<char>>)
    ensures
        char_rows(r@) == words(s@),
{
    let mut out: Vec<Vec<char>> = Vec::new();
    let mut i: usize = 0;
    while i < s.len()
        invariant
            i <= s@.len(),
            char_rows(out@) == words(s@.take(i as int)),
            i > 0 && !is_white(s@[i - 1]) ==> out@.len() > 0,
        decreases s@.len() - i,
    {
        let c = s[i];
        let ghost prev = s@.take(i as int);
        assert(s@.take(i + 1).drop_last() =~= prev);
        assert(s@.take(i + 1).last() == c);
        if is_white_char(c) {
        } else if i > 0 && !is_white_char(s[i - 1]) {
            assert(s@.take(i + 1)[i - 1] == s@[i - 1]);
            let last = out.len() - 1;
            let mut w = out.remove(last);
            w.push(c);
            out.push(w);
            assert(char_rows(out@) =~= words(prev).update(words(prev).len() - 1, words(prev).last().push(c)));
        } else {
            assert(i > 0 ==> s@.take(i + 1)[i - 1] == s@[i - 1]);
            let mut w: Vec<char> = Vec::new();
            w.push(c);
            assert(w@ =~= seq![c]);
            out.push(w);
            assert(char_rows(out@) =~= words(prev).push(seq![c]));
        }
        i += 1;
    }
    assert(s@.take(s@.len() as int) =~= s@);
    out
}

/// The part of `s` before the first occurrence of `tag`, or all of `s`
/// when `tag` does not occur.
pub open spec fn before_tag(s: Seq<char>, tag: Seq<char>) -> Seq<char>
    decreases s.len(),
{
    if s.len() < tag.len() {
        s
    } else if s.take(tag.len() as int) == tag {
        Seq::empty()
    } else if s.len() == 0 {
        s
    } else {
        seq![s[0]] + before_tag(s.drop_first(), tag)
    }
}

/// Whether `tag` occurs in `s` at position `p`.
fn tag_at(s: &Vec<char>, p: usize, tag: &Vec<char>) -> (r: bool)
    requires
        p + tag@.len() <= s@.len(),
    ensures
        r == (s@.skip(p as int).take(tag@.len() as int) == tag@),
{
    let m = tag.len();
    let n = s.len();
    let mut j: usize = 0;
    while j < m
        invariant
            m == tag@.len(),
            n == s@.len(),
            p + m <= s@.len(),
            j <= m,
            forall|t: int| 0 <= t < j ==> s@[p + t] == tag@[t],
        decreases m - j,
    {
        if s[p + j] != tag[j] {
            assert(s@.skip(p as int).take(m as int)[j as int] != tag@[j as int]);
            return false;
        }
        j += 1;
    }
    assert(s@.skip(p as int).take(m as int) =~= tag@);
    true
}

/// The characters of `s` from `p` on.
fn tail_from(s: &Vec<char>, p: usize) -> (r: Vec<char>)
    requires
        p <= s@.len(),
    ensures
        r@ == s@.skip(p as int),
{
    let mut out: Vec<char> = Vec::new();
    let mut k = p;
    while k < s.len()
        invariant
            p <= k <= s@.len(),
            out@ == s@.subrange(p as int, k as int),
        decreases s@.len() - k,
    {
        out.push(s[k]);
        assert(s@.subrange(p as int, k + 1) =~= s@.subrange(p as int, k as int).push(s@[k as int]));
        k += 1;
    }
    assert(s@.subrange(p as int, s@.len() as int) =~= s@.skip(p as int));
    out
}

/// The characters of `s` from `from` on, up to the first occurrence of `tag`.
fn before_tag_from(s: &Vec<char>, from: usize, tag: &Vec<char>) -> (r: Vec<char>)
    requires
        from <= s@.len(),
        tag@.len() > 0,
    ensures
        r@ == before_tag(s@.skip(from as int), tag@),
{
    let n = s.len();
    let m = tag.len();
    let mut out: Vec<char> = Vec::new();
    let mut p: usize = from;
    loop
        invariant
            n == s@.len(),
            m == tag@.len(),
            m > 0,
            from <= p <= n,
            before_tag(s@.skip(from as int), tag@) == out@ + before_tag(s@.skip(p as int), tag@),
        decreases n - p,
    {
        let ghost rest = s@.skip(p as int);
        if n - p < m {
            assert(before_tag(rest, tag@) == rest);
            let mut t = tail_from(s, p);
            let ghost o = out@;
            out.append(&mut t);
            assert(out@ =~= o + rest);
            return out;
        }
        if tag_at(s, p, tag) {
            assert(before_tag(rest, tag@) == Seq::<char>::empty());
            assert(out@ + Seq::<char>::empty() =~= out@);
            return out;
        }
        proof {
            assert(rest.drop_first() =~= s@.skip(p + 1));
            assert(before_tag(rest, tag@) == seq![rest[0]] + before_tag(rest.drop_first(), tag@));
        }
        let ghost o = out@;
        out.push(s[p]);
        assert(o + (seq![s@[p as int]] + before_tag(s@.skip(p + 1), tag@)) =~= out@ + before_tag(s@.skip(p + 1), tag@));
        p += 1;
    }
}

/// The pieces of `s` between newline characters, the last one included even
/// when empty.
pub open spec fn split_lines(s: Seq<char>) -> Seq<Seq<char>>
    decreases s.len(),
{
    if s.len() == 0 {
        seq![Seq::<char>::empty()]
    } else {
        let prev = split_lines(s.drop_last());
        if s.last() == '\n' {
            prev.push(Seq::<char>::empty())
        } else {
            prev.update(prev.len() - 1, prev.last().push(s.last()))
        }
    }
}

/// The text that opens a header line, before the model's name.
pub open spec fn header_tag() -> Seq<char> {
    seq!['#', ' ', 'P', 'a', 'r', 't', 'i', 'c', 'l', 'e', 'M', 'o', 'd', 'e', 'l', ':']
}

/// The text that ends the name in a header line.
pub open spec fn id_tag() -> Seq<char> {
    seq!['i', 'd', ':']
}

/// The name a model gets when its text has no header.
pub open spec fn default_model_name() -> Seq<char> {
    seq!['i', 'm', 'p', 'o', 'r', 't', 'e', 'd']
}

/// The name read so far and the particle records read so far.
pub type TextRead = (Seq<char>, Seq<Seq<Seq<char>>>);

/// What one line does: a header line gives the name (its text after the
/// tag, up to `id:`, trimmed); other lines starting with `#`, blank lines
/// and lines of fewer than nine fields are skipped; any other line is a
/// particle record, its fields in order.
pub open spec fn text_step(acc: TextRead, raw: Seq<char>) -> TextRead {
    let line = trim(raw);
    if line.len() > 0 && line[0] == '#' {
        if line.len() >= 16 && line.take(16) == header_tag() {
            (trim(before_tag(line.skip(16), id_tag())), acc.1)
        } else {
            acc
        }
    } else if line.len() == 0 || words(line).len() < 9 {
        acc
    } else {
        (acc.0, acc.1.push(words(line)))
    }
}

/// The name and records read from `lines`, in order.
pub open spec fn text_fold(lines: Seq<Seq<char>>) -> TextRead
    decreases lines.len(),
{
    if lines.len() == 0 {
        (default_model_name(), Seq::empty())
    } else {
        text_step(text_fold(lines.drop_last()), lines.last())
    }
}

/// The name and particle records of a model's text.
pub open spec fn model_text_of(text: Seq<char>) -> TextRead {
    text_fold(split_lines(text))
}

/// The fields of each record of `v`.
pub open spec fn record_rows(v: Seq<Vec<Vec<char>>>) -> Seq<Seq<Seq<char>>> {
    v.map_values(|r: Vec<Vec<char>>| char_rows(r@))
}

fn chars_from(cs: &[char]) -> (r: Vec<char>)
    ensures
        r@ == cs@,
{
    let mut out: Vec<char> = Vec::new();
    let mut i: usize = 0;
    while i < cs.len()
        invariant
            i <= cs@.len(),
            out@ == cs@.take(i as int),
        decreases cs@.len() - i,
    {
        out.push(cs[i]);
        assert(cs@.take(i + 1) =~= cs@.take(i as int).push(cs@[i as int]));
        i += 1;
    }
    assert(cs@.take(cs@.len() as int) =~= cs@);
    out
}

/// Whether `line` opens with the header tag.
fn starts_with_header(line: &Vec<char>) -> (r: bool)
    ensures
        r == (line@.len() >= 16 && line@.take(16) == header_tag()),
{
    let tag = chars_from(&['#', ' ', 'P', 'a', 'r', 't', 'i', 'c', 'l', 'e', 'M', 'o', 'd', 'e', 'l', ':']);
    assert(tag@ =~= header_tag());
    if line.len() < 16 {
        return false;
    }
    let mut j: usize = 0;
    while j < 16
        invariant
            tag@ == header_tag(),
            line@.len() >= 16,
            j <= 16,
            forall|t: int| 0 <= t < j ==> line@[t] == tag@[t],
        decreases 16 - j,
    {
        if line[j] != tag[j] {
            assert(line@.take(16)[j as int] != header_tag()[j as int]);
            return false;
        }
        j += 1;
    }
    assert(line@.take(16) =~= header_tag());
    true
}

/// Reads one line into the name and records.
fn read_line(name: &mut Vec<char>, recs: &mut Vec<Vec<Vec<char>>>, raw: &Vec<char>)
    ensures
        (final(name)@, record_rows(final(recs)@)) == text_step((old(name)@, record_rows(old(recs)@)), raw@),
{
    let line = trim_chars(raw);
    if line.len() > 0 && line[0] == '#' {
        if starts_with_header(&line) {
            let id = chars_from(&['i', 'd', ':']);
            assert(id@ =~= id_tag());
            let part = before_tag_from(&line, 16, &id);
            *name = trim_chars(&part);
        }
        return;
    }
    if line.len() == 0 {
        return;
    }
    let fields = words_of(&line);
    if fields.len() < 9 {
        return;
    }
    let ghost before = recs@;
    recs.push(fields);
    assert(record_rows(recs@) =~= record_rows(before).push(words(line@)));
}

/// Frames a model's text: the model's name (from its header line, or
/// `imported` when it has none; the last header wins) and the fields of
/// each particle line, in order.
pub fn model_text_records(text: &str) -> (r: (Vec<char>, Vec<Vec<Vec<char>>>))
    ensures
        r.0@ == model_text_of(text@).0,
        record_rows(r.1@) == model_text_of(text@).1,
{
    let cs = chars_of(text);
    let mut name = chars_from(&['i', 'm', 'p', 'o', 'r', 't', 'e', 'd']);
    assert(name@ =~= default_model_name());
    let mut recs: Vec<Vec<Vec<char>>> = Vec::new();
    let mut cur: Vec<char> = Vec::new();
    let ghost mut done: Seq<Seq<char>> = Seq::empty();
    assert(record_rows(recs@) =~= Seq::<Seq<Seq<char>>>::empty());
    assert(cs@.take(0) =~= Seq::<char>::empty());
    assert(split_lines(cs@.take(0)) =~= done.push(cur@));
    let mut i: usize = 0;
    while i < cs.len()
        invariant
            cs@ == text@,
            i <= cs@.len(),
            split_lines(cs@.take(i as int)) == done.push(cur@),
            (name@, record_rows(recs@)) == text_fold(done),
        decreases cs@.len() - i,
    {
        let c = cs[i];
        assert(cs@.take(i + 1).drop_last() =~= cs@.take(i as int));
        assert(cs@.take(i + 1).last() == c);
        if c == '\n' {
            read_line(&mut name, &mut recs, &cur);
            proof {
                assert(done.push(cur@).drop_last() =~= done);
                done = done.push(cur@);
            }
            cur = Vec::new();
            assert(split_lines(cs@.take(i + 1)) =~= done.push(cur@));
        } else {
            let ghost old_cur = cur@;
            cur.push(c);
            assert(split_lines(cs@.take(i + 1)) =~= done.push(cur@));
        }
        i += 1;
    }
    assert(cs@.take(cs@.len() as int) =~= cs@);
    read_line(&mut name, &mut recs, &cur);
    assert(done.push(cur@).drop_last() =~= done);
    (name, recs)
}

/// The glyph a particle record's character code stands for: the character
/// with that code, or `.` when the code is no character.
pub fn glyph_of_code(code: u32) -> (r: char)
    ensures
        vstd::utf8::is_scalar(code) ==> r as u32 == code,
        !vstd::utf8::is_scalar(code) ==> r == '.',
{
    match char_from_u32(code) {
        Some(c) => c,
        None => '.',
    }
}

} // verus!
