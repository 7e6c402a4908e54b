//! The on-disk text form of the record store and the configuration: one
//! line per entry, fields separated by tabs, field text escaped so that any
//! string survives the trip. Encoding and decoding are inverse, so a saved
//! table loads back exactly; reading and writing the file itself is left to
//! the caller.

use vstd::prelude::*;

use crate::config::{Config, Feed};
use crate::data::{unique_links, Data, FeedLinkData};
use crate::text::{chars_to_string, string_to_chars};

verus! {

/// How a field character is written: backslash, line break and tab get a
/// two-character escape, everything else stands for itself.
pub open spec fn escape_char(c: char) -> Seq<char> {
    if c == '\\' {
        seq!['\\', '\\']
    } else if c == '\n' {
        seq!['\\', 'n']
    } else if c == '\t' {
        seq!['\\', 't']
    } else {
        seq![c]
    }
}

/// A field's text in escaped form.
pub open spec fn escape_seq(s: Seq<char>) -> Seq<char>
    decreases s.len(),
{
    if s.len() == 0 {
        Seq::empty()
    } else {
        escape_char(s[0]) + escape_seq(s.drop_first())
    }
}

/// Reading escaped field text back; fails on a dangling or unknown escape.
pub open spec fn unescape_seq(s: Seq<char>) -> Option<Seq<char>>
    decreases s.len(),
{
    if s.len() == 0 {
        Some(Seq::empty())
    } else if s[0] == '\\' {
        if s.len() >= 2 {
            let c = if s[1] == '\\' {
                Some('\\')
            } else if s[1] == 'n' {
                Some('\n')
            } else if s[1] == 't' {
                Some('\t')
            } else {
                None
            };
            match (c, unescape_seq(s.skip(2))) {
                (Some(c0), Some(rest)) => Some(seq![c0] + rest),
                _ => None,
            }
        } else {
            None
        }
    } else {
        match unescape_seq(s.drop_first()) {
            Some(rest) => Some(seq![s[0]] + rest),
            None => None,
        }
    }
}

/// Escaped text never holds a bare line break or tab, so splitting on them
/// cannot cut a field apart.
pub proof fn lemma_escape_no_separators(s: Seq<char>)
    ensures
        forall|i: int|
            0 <= i < escape_seq(s).len() ==> #[trigger] escape_seq(s)[i] != '\n' && escape_seq(
                s,
            )[i] != '\t',
    decreases s.len(),
{
    if s.len() > 0 {
        lemma_escape_no_separators(s.drop_first());
        let e = escape_seq(s);
        let head = escape_char(s[0]);
        let rest = escape_seq(s.drop_first());
        assert forall|i: int| 0 <= i < e.len() implies #[trigger] e[i] != '\n' && e[i]
            != '\t' by {
            if i < head.len() {
                assert(e[i] == head[i]);
            } else {
                assert(e[i] == rest[i - head.len()]);
            }
        }
    }
}

/// Unescaping undoes escaping on every string.
pub proof fn lemma_unescape_escape(s: Seq<char>)
    ensures
        unescape_seq(escape_seq(s)) == Some(s),
    decreases s.len(),
{
    if s.len() > 0 {
        lemma_unescape_escape(s.drop_first());
        let e = escape_seq(s);
        if s[0] == '\\' || s[0] == '\n' || s[0] == '\t' {
            assert(e.skip(2) =~= escape_seq(s.drop_first()));
            assert(seq![s[0]] + s.drop_first() =~= s);
        } else {
            assert(e[0] == s[0]);
            assert(e.drop_first() =~= escape_seq(s.drop_first()));
            assert(seq![s[0]] + s.drop_first() =~= s);
        }
    }
}

/// The segments of a character sequence split on a separator; one segment
/// more than there are separators, so the result is never empty.
pub open spec fn split_on(s: Seq<char>, sep: char) -> Seq<Seq<char>>
    decreases s.len(),
{
    if s.len() == 0 {
        seq![Seq::<char>::empty()]
    } else if s[0] == sep {
        seq![Seq::<char>::empty()] + split_on(s.drop_first(), sep)
    } else {
        let rest = split_on(s.drop_first(), sep);
        seq![seq![s[0]] + rest[0]] + rest.drop_first()
    }
}

/// Splitting never yields an empty segment list.
pub proof fn lemma_split_on_nonempty(s: Seq<char>, sep: char)
    ensures
        split_on(s, sep).len() >= 1,
    decreases s.len(),
{
    if s.len() > 0 {
        lemma_split_on_nonempty(s.drop_first(), sep);
    }
}

/// A sequence without the separator splits into itself alone.
pub proof fn lemma_split_on_free(s: Seq<char>, sep: char)
    requires
        forall|i: int| 0 <= i < s.len() ==> #[trigger] s[i] != sep,
    ensures
        split_on(s, sep) == seq![s],
    decreases s.len(),
{
    if s.len() == 0 {
        assert(s =~= Seq::<char>::empty());
        assert(split_on(s, sep) =~= seq![s]);
    } else {
        assert forall|i: int| 0 <= i < s.drop_first().len() implies #[trigger] s.drop_first()[i]
            != sep by {
            assert(s.drop_first()[i] == s[i + 1]);
        }
        lemma_split_on_free(s.drop_first(), sep);
        assert(seq![s[0]] + s.drop_first() =~= s);
        assert(split_on(s, sep) =~= seq![s]);
    }
}

/// Splitting a sequence that starts with a separator-free part, the
/// separator, and a remainder yields that part followed by the remainder's
/// segments.
pub proof fn lemma_split_on_append(a: Seq<char>, b: Seq<char>, sep: char)
    requires
        forall|i: int| 0 <= i < a.len() ==> #[trigger] a[i] != sep,
    ensures
        split_on(a + seq![sep] + b, sep) == seq![a] + split_on(b, sep),
    decreases a.len(),
{
    let s = a + seq![sep] + b;
    if a.len() == 0 {
        assert(a =~= Seq::<char>::empty());
        assert(s =~= seq![sep] + b);
        assert(s[0] == sep);
        assert(s.drop_first() =~= b);
        assert(split_on(s, sep) =~= seq![a] + split_on(b, sep));
    } else {
        assert forall|i: int| 0 <= i < a.drop_first().len() implies #[trigger] a.drop_first()[i]
            != sep by {
            assert(a.drop_first()[i] == a[i + 1]);
        }
        lemma_split_on_append(a.drop_first(), b, sep);
        lemma_split_on_nonempty(b, sep);
        assert(s[0] == a[0] && s[0] != sep);
        assert(s.drop_first() =~= a.drop_first() + seq![sep] + b);
        let rest = split_on(s.drop_first(), sep);
        assert(rest == seq![a.drop_first()] + split_on(b, sep));
        assert(rest[0] == a.drop_first());
        assert(seq![s[0]] + rest[0] =~= a);
        assert(rest.drop_first() =~= split_on(b, sep));
        assert(split_on(s, sep) =~= seq![a] + split_on(b, sep));
    }
}

/// One line's text for a list of fields: each field escaped, tabs between.
pub open spec fn join_escaped(fields: Seq<Seq<char>>) -> Seq<char>
    decreases fields.len(),
{
    if fields.len() == 0 {
        Seq::empty()
    } else if fields.len() == 1 {
        escape_seq(fields[0])
    } else {
        escape_seq(fields[0]) + seq!['\t'] + join_escaped(fields.drop_first())
    }
}

/// The fields read back from one line's text; fails on a bad escape.
pub open spec fn unescape_fields(segs: Seq<Seq<char>>) -> Option<Seq<Seq<char>>>
    decreases segs.len(),
{
    if segs.len() == 0 {
        Some(Seq::empty())
    } else {
        match (unescape_seq(segs[0]), unescape_fields(segs.drop_first())) {
            (Some(f), Some(rest)) => Some(seq![f] + rest),
            _ => None,
        }
    }
}

/// The fields of one line: its tab-separated segments, unescaped.
pub open spec fn decode_line(line: Seq<char>) -> Option<Seq<Seq<char>>> {
    unescape_fields(split_on(line, '\t'))
}

/// A joined line never holds a bare line break, so lines cannot run into
/// each other.
pub proof fn lemma_join_no_newline(fields: Seq<Seq<char>>)
    ensures
        forall|i: int|
            0 <= i < join_escaped(fields).len() ==> #[trigger] join_escaped(fields)[i] != '\n',
    decreases fields.len(),
{
    let j = join_escaped(fields);
    if fields.len() == 0 {
    } else if fields.len() == 1 {
        lemma_escape_no_separators(fields[0]);
    } else {
        lemma_escape_no_separators(fields[0]);
        lemma_join_no_newline(fields.drop_first());
        let head = escape_seq(fields[0]);
        let rest = join_escaped(fields.drop_first());
        assert forall|i: int| 0 <= i < j.len() implies #[trigger] j[i] != '\n' by {
            if i < head.len() {
                assert(j[i] == head[i]);
            } else if i == head.len() {
                assert(j[i] == '\t');
            } else {
                assert(j[i] == rest[i - head.len() - 1]);
            }
        }
    }
}

/// Reading one joined line back yields exactly the fields it was made of,
/// as long as there is at least one.
pub proof fn lemma_decode_join(fields: Seq<Seq<char>>)
    requires
        fields.len() >= 1,
    ensures
        decode_line(join_escaped(fields)) == Some(fields),
    decreases fields.len(),
{
    let j = join_escaped(fields);
    if fields.len() == 1 {
        lemma_escape_no_separators(fields[0]);
        lemma_split_on_free(escape_seq(fields[0]), '\t');
        lemma_unescape_escape(fields[0]);
        let segs = seq![escape_seq(fields[0])];
        assert(split_on(j, '\t') == segs);
        assert(segs.drop_first() =~= Seq::<Seq<char>>::empty());
        assert(unescape_fields(Seq::<Seq<char>>::empty()) == Some(Seq::<Seq<char>>::empty()));
        assert(unescape_fields(segs) == Some(seq![fields[0]] + Seq::<Seq<char>>::empty()));
        assert(seq![fields[0]] + Seq::<Seq<char>>::empty() =~= fields);
    } else {
        lemma_decode_join(fields.drop_first());
        lemma_escape_no_separators(fields[0]);
        lemma_unescape_escape(fields[0]);
        assert(j =~= escape_seq(fields[0]) + seq!['\t'] + join_escaped(fields.drop_first()));
        lemma_split_on_append(escape_seq(fields[0]), join_escaped(fields.drop_first()), '\t');
        let segs = split_on(j, '\t');
        assert(segs == seq![escape_seq(fields[0])] + split_on(
            join_escaped(fields.drop_first()),
            '\t',
        ));
        assert(segs[0] == escape_seq(fields[0]));
        assert(segs.drop_first() =~= split_on(join_escaped(fields.drop_first()), '\t'));
        assert(unescape_fields(segs.drop_first()) == Some(fields.drop_first()));
        assert(unescape_fields(segs) == Some(seq![fields[0]] + fields.drop_first()));
        assert(seq![fields[0]] + fields.drop_first() =~= fields);
    }
}

/// A record as the fields of its line: URL, schedule, last-seen marker.
pub open spec fn record_fields(r: FeedLinkData) -> Seq<Seq<char>> {
    seq![r.feed_link@, r.frequency@, r.last_seen@]
}

/// The file text of a record table: one line per record, each ended by a
/// line break.
pub open spec fn encode_records_spec(rs: Seq<FeedLinkData>) -> Seq<char>
    decreases rs.len(),
{
    if rs.len() == 0 {
        Seq::empty()
    } else {
        join_escaped(record_fields(rs[0])) + seq!['\n'] + encode_records_spec(rs.drop_first())
    }
}

/// The view of a record table: each record as its three field texts.
pub open spec fn rec_views(rs: Seq<FeedLinkData>) -> Seq<(Seq<char>, Seq<char>, Seq<char>)> {
    rs.map_values(|r: FeedLinkData| (r.feed_link@, r.frequency@, r.last_seen@))
}

/// The record views read from a list of lines; every line must carry
/// exactly three fields.
pub open spec fn decode_record_lines(lines: Seq<Seq<char>>) -> Option<
    Seq<(Seq<char>, Seq<char>, Seq<char>)>,
>
    decreases lines.len(),
{
    if lines.len() == 0 {
        Some(Seq::empty())
    } else {
        match (decode_line(lines[0]), decode_record_lines(lines.drop_first())) {
            (Some(fs), Some(rest)) => {
                if fs.len() == 3 {
                    Some(seq![(fs[0], fs[1], fs[2])] + rest)
                } else {
                    None
                }
            },
            _ => None,
        }
    }
}

/// The record views read from a whole file: the text must fall apart into
/// lines each ended by a line break, and each line must decode.
pub open spec fn decode_records_spec(input: Seq<char>) -> Option<
    Seq<(Seq<char>, Seq<char>, Seq<char>)>,
> {
    let segs = split_on(input, '\n');
    if segs.last() == Seq::<char>::empty() {
        decode_record_lines(segs.drop_last())
    } else {
        None
    }
}

/// Splitting an encoded record table on line breaks yields one segment per
/// record and a final empty one.
proof fn lemma_split_encoded_records(rs: Seq<FeedLinkData>)
    ensures
        split_on(encode_records_spec(rs), '\n') == rs.map_values(
            |r: FeedLinkData| join_escaped(record_fields(r)),
        ) + seq![Seq::<char>::empty()],
    decreases rs.len(),
{
    let lines = rs.map_values(|r: FeedLinkData| join_escaped(record_fields(r)));
    if rs.len() == 0 {
        assert(encode_records_spec(rs) =~= Seq::<char>::empty());
        assert(split_on(encode_records_spec(rs), '\n') =~= lines + seq![Seq::<char>::empty()]);
    } else {
        lemma_split_encoded_records(rs.drop_first());
        lemma_join_no_newline(record_fields(rs[0]));
        let head = join_escaped(record_fields(rs[0]));
        let rest = encode_records_spec(rs.drop_first());
        assert(encode_records_spec(rs) =~= head + seq!['\n'] + rest);
        lemma_split_on_append(head, rest, '\n');
        assert(rs.drop_first().map_values(|r: FeedLinkData| join_escaped(record_fields(r)))
            =~= lines.drop_first());
        assert(split_on(encode_records_spec(rs), '\n') =~= lines + seq![Seq::<char>::empty()]);
    }
}

/// Loading what was saved gives the record table back exactly: encoding a
/// record table and decoding the text yields the same records, by URL,
/// schedule and last-seen marker.
pub proof fn lemma_records_round_trip(rs: Seq<FeedLinkData>)
    ensures
        decode_records_spec(encode_records_spec(rs)) == Some(rec_views(rs)),
    decreases rs.len(),
{
    lemma_split_encoded_records(rs);
    let lines = rs.map_values(|r: FeedLinkData| join_escaped(record_fields(r)));
    let segs = split_on(encode_records_spec(rs), '\n');
    assert(segs.last() == Seq::<char>::empty());
    assert(segs.drop_last() =~= lines);
    lemma_decode_record_lines(rs);
}

/// Each encoded record line decodes back to that record's fields.
proof fn lemma_decode_record_lines(rs: Seq<FeedLinkData>)
    ensures
        decode_record_lines(
            rs.map_values(|r: FeedLinkData| join_escaped(record_fields(r))),
        ) == Some(rec_views(rs)),
    decreases rs.len(),
{
    let lines = rs.map_values(|r: FeedLinkData| join_escaped(record_fields(r)));
    if rs.len() == 0 {
        assert(rec_views(rs) =~= Seq::<(Seq<char>, Seq<char>, Seq<char>)>::empty());
    } else {
        lemma_decode_record_lines(rs.drop_first());
        lemma_decode_join(record_fields(rs[0]));
        assert(lines[0] == join_escaped(record_fields(rs[0])));
        assert(lines.drop_first() =~= rs.drop_first().map_values(
            |r: FeedLinkData| join_escaped(record_fields(r)),
        ));
        let fs = record_fields(rs[0]);
        assert(rec_views(rs) =~= seq![(fs[0], fs[1], fs[2])] + rec_views(rs.drop_first()));
    }
}

/// Escaping one more character extends the escaped text by that
/// character's escape.
proof fn lemma_escape_snoc(s: Seq<char>, i: int)
    requires
        0 <= i < s.len(),
    ensures
        escape_seq(s.take(i + 1)) == escape_seq(s.take(i)) + escape_char(s[i]),
    decreases i,
{
    if i == 0 {
        assert(s.take(0) =~= Seq::<char>::empty());
        assert(s.take(1)[0] == s[0]);
        assert(s.take(1).drop_first() =~= Seq::<char>::empty());
        assert(escape_seq(s.take(1)) =~= escape_seq(s.take(0)) + escape_char(s[0]));
    } else {
        lemma_escape_snoc(s.drop_first(), i - 1);
        assert(s.take(i + 1)[0] == s[0]);
        assert(s.take(i + 1).drop_first() =~= s.drop_first().take(i));
        assert(s.take(i)[0] == s[0]);
        assert(s.take(i).drop_first() =~= s.drop_first().take(i - 1));
        assert(s.drop_first()[i - 1] == s[i]);
        assert(escape_seq(s.take(i + 1)) =~= escape_seq(s.take(i)) + escape_char(s[i]));
    }
}

/// A three-field line is the three escaped fields with tabs between.
proof fn lemma_join3(a: Seq<char>, b: Seq<char>, c: Seq<char>)
    ensures
        join_escaped(seq![a, b, c]) == escape_seq(a) + seq!['\t'] + escape_seq(b) + seq!['\t']
            + escape_seq(c),
{
    let f = seq![a, b, c];
    assert(f.drop_first() =~= seq![b, c]);
    assert(seq![b, c].drop_first() =~= seq![c]);
    assert(join_escaped(seq![c]) == escape_seq(c));
    assert(join_escaped(seq![b, c]) == escape_seq(b) + seq!['\t'] + escape_seq(c));
    assert(join_escaped(f) =~= escape_seq(a) + seq!['\t'] + escape_seq(b) + seq!['\t']
        + escape_seq(c));
}

/// Encoding one more record appends that record's line.
proof fn lemma_encode_records_snoc(rs: Seq<FeedLinkData>, k: int)
    requires
        0 <= k < rs.len(),
    ensures
        encode_records_spec(rs.take(k + 1)) == encode_records_spec(rs.take(k)) + join_escaped(
            record_fields(rs[k]),
        ) + seq!['\n'],
    decreases k,
{
    if k == 0 {
        assert(rs.take(0) =~= Seq::<FeedLinkData>::empty());
        assert(rs.take(1)[0] == rs[0]);
        assert(rs.take(1).drop_first() =~= Seq::<FeedLinkData>::empty());
        assert(encode_records_spec(rs.take(1)) =~= encode_records_spec(rs.take(0)) + join_escaped(
            record_fields(rs[0]),
        ) + seq!['\n']);
    } else {
        lemma_encode_records_snoc(rs.drop_first(), k - 1);
        assert(rs.take(k + 1)[0] == rs[0]);
        assert(rs.take(k + 1).drop_first() =~= rs.drop_first().take(k));
        assert(rs.take(k)[0] == rs[0]);
        assert(rs.take(k).drop_first() =~= rs.drop_first().take(k - 1));
        assert(rs.drop_first()[k - 1] == rs[k]);
        assert(encode_records_spec(rs.take(k + 1)) =~= encode_records_spec(rs.take(k))
            + join_escaped(record_fields(rs[k])) + seq!['\n']);
    }
}

/// Appends the escaped form of a field to the output.
fn escape_into(out: &mut Vec<char>, s: &str)
    ensures
        final(out)@ == old(out)@ + escape_seq(s@),
{
    let cs = string_to_chars(s);
    let n = cs.len();
    let mut i: usize = 0;
    proof {
        assert(cs@.take(0) =~= Seq::<char>::empty());
        assert(old(out)@ + escape_seq(cs@.take(0)) =~= old(out)@);
    }
    while i < n
        invariant
            n == cs@.len(),
            cs@ == s@,
            i <= n,
            out@ == old(out)@ + escape_seq(cs@.take(i as int)),
        decreases n - i,
    {
        let ghost pre = out@;
        proof {
            lemma_escape_snoc(cs@, i as int);
        }
        let c = cs[i];
        if c == '\\' {
            out.push('\\');
            out.push('\\');
        } else if c == '\n' {
            out.push('\\');
            out.push('n');
        } else if c == '\t' {
            out.push('\\');
            out.push('t');
        } else {
            out.push(c);
        }
        proof {
            assert(out@ =~= pre + escape_char(cs@[i as int]));
            assert(out@ =~= old(out)@ + escape_seq(cs@.take(i as int + 1)));
        }
        i = i + 1;
    }
    proof {
        assert(cs@.take(n as int) =~= cs@);
    }
}

/// Renders the record store in its on-disk text form: one line per record,
/// fields escaped and separated by tabs, each line ended by a line break.
pub fn encode_records(data: &Data) -> (r: Vec<char>)
    ensures
        r@ == encode_records_spec(data@),
{
    let recs = data.get_all_feed_link_data();
    let mut out: Vec<char> = Vec::new();
    let n = recs.len();
    let mut k: usize = 0;
    proof {
        assert(recs@.take(0) =~= Seq::<FeedLinkData>::empty());
    }
    while k < n
        invariant
            n == recs@.len(),
            recs@ == data@,
            k <= n,
            out@ == encode_records_spec(recs@.take(k as int)),
        decreases n - k,
    {
        let ghost pre = out@;
        escape_into(&mut out, recs[k].feed_link.as_str());
        out.push('\t');
        escape_into(&mut out, recs[k].frequency.as_str());
        out.push('\t');
        escape_into(&mut out, recs[k].last_seen.as_str());
        out.push('\n');
        proof {
            lemma_encode_records_snoc(recs@, k as int);
            lemma_join3(
                recs@[k as int].feed_link@,
                recs@[k as int].frequency@,
                recs@[k as int].last_seen@,
            );
            assert(out@ =~= pre + join_escaped(record_fields(recs@[k as int])) + seq!['\n']);
            assert(out@ =~= encode_records_spec(recs@.take(k as int + 1)));
        }
        k = k + 1;
    }
    proof {
        assert(recs@.take(n as int) =~= recs@);
    }
    out
}
/// The views of a list of character vectors.
pub open spec fn vec_views(vs: Seq<Vec<char>>) -> Seq<Seq<char>> {
    vs.map_values(|v: Vec<char>| v@)
}

/// A segment list with its first segment extended at the front.
spec fn prepend_first(c: Seq<char>, ss: Seq<Seq<char>>) -> Seq<Seq<char>> {
    seq![c + ss[0]] + ss.drop_first()
}

/// Splits a character sequence on a separator.
fn split_on_vec(input: &[char], sep: char) -> (r: Vec<Vec<char>>)
    ensures
        vec_views(r@) == split_on(input@, sep),
        r@.len() >= 1,
{
    let mut done: Vec<Vec<char>> = Vec::new();
    let mut cur: Vec<char> = Vec::new();
    let n = input.len();
    let mut pos: usize = 0;
    proof {
        assert(input@.skip(0) =~= input@);
        lemma_split_on_nonempty(input@, sep);
        assert(vec_views(done@) =~= Seq::<Seq<char>>::empty());
    }
    while pos < n
        invariant
            n == input@.len(),
            pos <= n,
            split_on(input@, sep) == vec_views(done@) + prepend_first(
                cur@,
                split_on(input@.skip(pos as int), sep),
            ),
        decreases n - pos,
    {
        let ghost rest = input@.skip(pos as int);
        let ghost after = input@.skip(pos as int + 1);
        proof {
            assert(rest[0] == input@[pos as int]);
            assert(rest.drop_first() =~= after);
            lemma_split_on_nonempty(after, sep);
        }
        let c = input[pos];
        if c == sep {
            let ghost pre_done = done@;
            let ghost pre_cur = cur@;
            done.push(cur);
            cur = Vec::new();
            proof {
                assert(pre_cur + Seq::<char>::empty() =~= pre_cur);
                assert(prepend_first(pre_cur, split_on(rest, sep)) =~= seq![pre_cur] + split_on(
                    after,
                    sep,
                ));
                assert(vec_views(done@) =~= vec_views(pre_done).push(pre_cur));
                assert(Seq::<char>::empty() + split_on(after, sep)[0] =~= split_on(after, sep)[0]);
                assert(prepend_first(Seq::<char>::empty(), split_on(after, sep)) =~= split_on(
                    after,
                    sep,
                ));
                assert(split_on(input@, sep) =~= vec_views(done@) + prepend_first(
                    cur@,
                    split_on(after, sep),
                ));
            }
        } else {
            let ghost pre_cur = cur@;
            cur.push(c);
            proof {
                let ss = split_on(after, sep);
                assert(split_on(rest, sep) =~= seq![seq![rest[0]] + ss[0]] + ss.drop_first());
                assert(pre_cur + (seq![rest[0]] + ss[0]) =~= cur@ + ss[0]);
                assert(prepend_first(pre_cur, split_on(rest, sep)) =~= prepend_first(cur@, ss));
                assert(split_on(input@, sep) =~= vec_views(done@) + prepend_first(cur@, ss));
            }
        }
        pos = pos + 1;
    }
    let ghost last_cur = cur@;
    let ghost pre_done = done@;
    done.push(cur);
    proof {
        assert(input@.skip(n as int) =~= Seq::<char>::empty());
        assert(last_cur + Seq::<char>::empty() =~= last_cur);
        assert(prepend_first(last_cur, split_on(Seq::<char>::empty(), sep)) =~= seq![last_cur]);
        assert(vec_views(done@) =~= vec_views(pre_done).push(last_cur));
        assert(vec_views(done@) =~= split_on(input@, sep));
    }
    done
}

/// Reads escaped field text back into its characters.
fn unescape_vec(s: &[char]) -> (r: Option<Vec<char>>)
    ensures
        match r {
            Some(v) => unescape_seq(s@) == Some(v@),
            None => unescape_seq(s@) is None,
        },
{
    let mut out: Vec<char> = Vec::new();
    let n = s.len();
    let mut pos: usize = 0;
    proof {
        assert(s@.skip(0) =~= s@);
    }
    while pos < n
        invariant
            n == s@.len(),
            pos <= n,
            unescape_seq(s@) == (match unescape_seq(s@.skip(pos as int)) {
                Some(rest) => Some(out@ + rest),
                None => None::<Seq<char>>,
            }),
        decreases n - pos,
    {
        let ghost rest = s@.skip(pos as int);
        proof {
            assert(rest[0] == s@[pos as int]);
            assert(rest.drop_first() =~= s@.skip(pos as int + 1));
        }
        let c = s[pos];
        if c == '\\' {
            if pos + 1 >= n {
                proof {
                    assert(rest.len() == 1);
                }
                return None;
            }
            let e = s[pos + 1];
            proof {
                assert(rest[1] == s@[pos as int + 1]);
                assert(rest.skip(2) =~= s@.skip(pos as int + 2));
            }
            let decoded = if e == '\\' {
                Some('\\')
            } else if e == 'n' {
                Some('\n')
            } else if e == 't' {
                Some('\t')
            } else {
                None
            };
            match decoded {
                Some(d) => {
                    let ghost pre = out@;
                    out.push(d);
                    proof {
                        let r2 = unescape_seq(s@.skip(pos as int + 2));
                        if r2 is Some {
                            assert(unescape_seq(rest) == Some(seq![d] + r2->0));
                            assert(pre + (seq![d] + r2->0) =~= out@ + r2->0);
                        }
                    }
                    pos = pos + 2;
                },
                None => {
                    return None;
                },
            }
        } else {
            let ghost pre = out@;
            out.push(c);
            proof {
                let r2 = unescape_seq(s@.skip(pos as int + 1));
                if r2 is Some {
                    assert(unescape_seq(rest) == Some(seq![c] + r2->0));
                    assert(pre + (seq![c] + r2->0) =~= out@ + r2->0);
                }
            }
            pos = pos + 1;
        }
    }
    proof {
        assert(s@.skip(n as int) =~= Seq::<char>::empty());
        assert(out@ + Seq::<char>::empty() =~= out@);
    }
    Some(out)
}

/// A line's fields decode exactly when each segment unescapes, and then
/// field by field.
proof fn lemma_unescape_fields_char(segs: Seq<Seq<char>>)
    ensures
        (unescape_fields(segs) is Some) <==> (forall|i: int|
            0 <= i < segs.len() ==> unescape_seq(#[trigger] segs[i]) is Some),
        unescape_fields(segs) is Some ==> unescape_fields(segs)->0.len() == segs.len(),
        unescape_fields(segs) is Some ==> forall|i: int|
            0 <= i < segs.len() ==> #[trigger] unescape_fields(segs)->0[i] == unescape_seq(
                segs[i],
            )->0,
    decreases segs.len(),
{
    if segs.len() > 0 {
        let rest = segs.drop_first();
        lemma_unescape_fields_char(rest);
        assert forall|i: int| 0 <= i < rest.len() implies #[trigger] rest[i] == segs[i + 1] by {}
        if forall|i: int| 0 <= i < segs.len() ==> unescape_seq(#[trigger] segs[i]) is Some {
            assert forall|i: int| 0 <= i < rest.len() implies unescape_seq(
                #[trigger] rest[i],
            ) is Some by {
                assert(rest[i] == segs[i + 1]);
            }
            assert(unescape_fields(rest) is Some);
            assert(unescape_fields(segs) is Some);
        }
        if unescape_fields(segs) is Some {
            assert(unescape_seq(segs[0]) is Some);
            assert(unescape_fields(rest) is Some);
            assert forall|i: int| 0 <= i < segs.len() implies unescape_seq(
                #[trigger] segs[i],
            ) is Some by {
                if i > 0 {
                    assert(segs[i] == rest[i - 1]);
                    assert(unescape_seq(rest[i - 1]) is Some);
                }
            }
            let v = unescape_fields(segs)->0;
            let vr = unescape_fields(rest)->0;
            assert(v =~= seq![unescape_seq(segs[0])->0] + vr);
            assert forall|i: int| 0 <= i < segs.len() implies #[trigger] v[i] == unescape_seq(
                segs[i],
            )->0 by {
                if i > 0 {
                    assert(v[i] == vr[i - 1]);
                    assert(vr[i - 1] == unescape_seq(rest[i - 1])->0);
                    assert(segs[i] == rest[i - 1]);
                }
            }
        }
    }
}

/// A record table decodes exactly when every line carries three decodable
/// fields, and then line by line.
proof fn lemma_decode_record_lines_char(lines: Seq<Seq<char>>)
    ensures
        (decode_record_lines(lines) is Some) <==> (forall|i: int|
            0 <= i < lines.len() ==> (decode_line(#[trigger] lines[i]) matches Some(fs)
                && fs.len() == 3)),
        decode_record_lines(lines) is Some ==> decode_record_lines(lines)->0.len() == lines.len(),
        decode_record_lines(lines) is Some ==> forall|i: int|
            0 <= i < lines.len() ==> #[trigger] decode_record_lines(lines)->0[i] == (
            decode_line(lines[i])->0[0],
            decode_line(lines[i])->0[1],
            decode_line(lines[i])->0[2],
            ),
    decreases lines.len(),
{
    if lines.len() > 0 {
        let rest = lines.drop_first();
        lemma_decode_record_lines_char(rest);
        if forall|i: int|
            0 <= i < lines.len() ==> (decode_line(#[trigger] lines[i]) matches Some(fs)
                && fs.len() == 3) {
            assert forall|i: int| 0 <= i < rest.len() implies (decode_line(
                #[trigger] rest[i],
            ) matches Some(fs) && fs.len() == 3) by {
                assert(rest[i] == lines[i + 1]);
            }
            assert(decode_record_lines(rest) is Some);
            assert(decode_record_lines(lines) is Some);
        }
        if decode_record_lines(lines) is Some {
            assert(decode_line(lines[0]) is Some && decode_line(lines[0])->0.len() == 3);
            assert(decode_record_lines(rest) is Some);
            assert forall|i: int| 0 <= i < lines.len() implies (decode_line(
                #[trigger] lines[i],
            ) matches Some(fs) && fs.len() == 3) by {
                if i > 0 {
                    assert(lines[i] == rest[i - 1]);
                }
            }
            let v = decode_record_lines(lines)->0;
            let vr = decode_record_lines(rest)->0;
            let fs0 = decode_line(lines[0])->0;
            assert(v =~= seq![(fs0[0], fs0[1], fs0[2])] + vr);
            assert forall|i: int| 0 <= i < lines.len() implies #[trigger] v[i] == (
                decode_line(lines[i])->0[0],
                decode_line(lines[i])->0[1],
                decode_line(lines[i])->0[2],
            ) by {
                if i > 0 {
                    assert(v[i] == vr[i - 1]);
                    assert(lines[i] == rest[i - 1]);
                }
            }
        }
    }
}

/// Decodes one line into its field strings.
fn decode_fields(line: &[char]) -> (r: Option<Vec<String>>)
    ensures
        match r {
            Some(fs) => decode_line(line@) is Some && fs@.len() == decode_line(line@)->0.len()
                && forall|i: int|
                0 <= i < fs@.len() ==> #[trigger] fs@[i]@ == decode_line(line@)->0[i],
            None => decode_line(line@) is None,
        },
{
    let segs = split_on_vec(line, '\t');
    let ghost seg_views = vec_views(segs@);
    let mut fields: Vec<String> = Vec::new();
    let n = segs.len();
    let mut i: usize = 0;
    while i < n
        invariant
            n == segs@.len(),
            i <= n,
            seg_views == vec_views(segs@),
            seg_views == split_on(line@, '\t'),
            fields@.len() == i,
            forall|k: int|
                0 <= k < i ==> unescape_seq(#[trigger] seg_views[k]) is Some && fields@[k]@
                    == unescape_seq(seg_views[k])->0,
        decreases n - i,
    {
        proof {
            assert(seg_views[i as int] == segs@[i as int]@);
        }
        match unescape_vec(segs[i].as_slice()) {
            Some(v) => {
                fields.push(chars_to_string(&v));
            },
            None => {
                proof {
                    lemma_unescape_fields_char(seg_views);
                }
                return None;
            },
        }
        i = i + 1;
    }
    proof {
        lemma_unescape_fields_char(seg_views);
        assert(unescape_fields(seg_views) is Some);
    }
    Some(fields)
}

/// Why a persisted table could not be read back.
#[derive(Debug, Clone, Copy, PartialEq, Eq, Structural)]
pub enum CodecError {
    /// The text is not in the table form the encoder writes.
    Malformed,
    /// Two records carry the same feed URL.
    DuplicateLink,
}

/// Whether the decoded record views carry pairwise distinct feed URLs.
pub open spec fn distinct_view_links(vs: Seq<(Seq<char>, Seq<char>, Seq<char>)>) -> bool {
    forall|a: int, b: int|
        #![trigger vs[a], vs[b]]
        0 <= a < b < vs.len() ==> vs[a].0 != vs[b].0
}

/// Reads a record store back from its on-disk text form; rejects text that
/// the encoder cannot have written, and a table naming one feed twice.
pub fn parse_records(input: &[char]) -> (r: Result<Data, CodecError>)
    ensures
        match r {
            Ok(d) => d.wf() && decode_records_spec(input@) == Some(rec_views(d@)),
            Err(CodecError::Malformed) => decode_records_spec(input@) is None,
            Err(CodecError::DuplicateLink) => decode_records_spec(input@) matches Some(vs)
                && !distinct_view_links(vs),
        },
{
    let segs = split_on_vec(input, '\n');
    let last_idx = segs.len() - 1;
    if !segs[last_idx].is_empty() {
        proof {
            assert(vec_views(segs@).last() == segs@[last_idx as int]@);
        }
        return Err(CodecError::Malformed);
    }
    let ghost lines = vec_views(segs@).drop_last();
    proof {
        assert(vec_views(segs@).last() =~= Seq::<char>::empty());
        assert(decode_records_spec(input@) == decode_record_lines(lines));
    }
    let mut recs: Vec<FeedLinkData> = Vec::new();
    let n = last_idx;
    let mut i: usize = 0;
    while i < n
        invariant
            vec_views(segs@) == split_on(input@, '\n'),
            segs@.len() >= 1,
            n == segs@.len() - 1,
            i <= n,
            lines == vec_views(segs@).drop_last(),
            recs@.len() == i,
            forall|k: int|
                0 <= k < i ==> (decode_line(#[trigger] lines[k]) matches Some(fs) && fs.len() == 3
                    && recs@[k].feed_link@ == fs[0] && recs@[k].frequency@ == fs[1]
                    && recs@[k].last_seen@ == fs[2]),
        decreases n - i,
    {
        proof {
            assert(lines[i as int] == segs@[i as int]@);
        }
        match decode_fields(segs[i].as_slice()) {
            Some(fs) => {
                if fs.len() != 3 {
                    proof {
                        lemma_decode_record_lines_char(lines);
                    }
                    return Err(CodecError::Malformed);
                }
                recs.push(FeedLinkData::new(fs[0].clone(), fs[1].clone(), fs[2].clone()));
            },
            None => {
                proof {
                    lemma_decode_record_lines_char(lines);
                }
                return Err(CodecError::Malformed);
            },
        }
        i = i + 1;
    }
    proof {
        lemma_decode_record_lines_char(lines);
        assert(decode_record_lines(lines) is Some);
        assert(decode_record_lines(lines)->0 =~= rec_views(recs@));
    }
    let m = recs.len();
    let mut a: usize = 1;
    while a < m
        invariant
            m == recs@.len(),
            1 <= a || m == 0,
            a <= m || m == 0,
            decode_records_spec(input@) == Some(rec_views(recs@)),
            forall|x: int, y: int|
                #![trigger recs@[x].feed_link, recs@[y].feed_link]
                0 <= x < y < a ==> recs@[x].feed_link@ != recs@[y].feed_link@,
        decreases m - a,
    {
        let mut b: usize = 0;
        while b < a
            invariant
                m == recs@.len(),
                a < m,
                b <= a,
                decode_records_spec(input@) == Some(rec_views(recs@)),
                forall|x: int|
                    0 <= x < b ==> #[trigger] recs@[x].feed_link@ != recs@[a as int].feed_link@,
            decreases a - b,
        {
            if crate::text::str_eq(recs[b].feed_link.as_str(), recs[a].feed_link.as_str()) {
                proof {
                    assert(rec_views(recs@)[b as int].0 == rec_views(recs@)[a as int].0);
                }
                return Err(CodecError::DuplicateLink);
            }
            b = b + 1;
        }
        a = a + 1;
    }
    proof {
        assert(unique_links(recs@));
    }
    Ok(Data::from_records(recs))
}

/// A configured feed as the fields of its line: URL and schedule.
pub open spec fn config_fields(f: Feed) -> Seq<Seq<char>> {
    seq![f.link@, f.schedule@]
}

/// The file text of a configuration: one line per feed, each ended by a
/// line break.
pub open spec fn encode_config_spec(fs: Seq<Feed>) -> Seq<char>
    decreases fs.len(),
{
    if fs.len() == 0 {
        Seq::empty()
    } else {
        join_escaped(config_fields(fs[0])) + seq!['\n'] + encode_config_spec(fs.drop_first())
    }
}

/// The view of a configuration: each feed as its two field texts.
pub open spec fn feed_views(fs: Seq<Feed>) -> Seq<(Seq<char>, Seq<char>)> {
    fs.map_values(|f: Feed| (f.link@, f.schedule@))
}

/// The feed views read from a list of lines; every line must carry exactly
/// two fields.
pub open spec fn decode_config_lines(lines: Seq<Seq<char>>) -> Option<Seq<(Seq<char>, Seq<char>)>>
    decreases lines.len(),
{
    if lines.len() == 0 {
        Some(Seq::empty())
    } else {
        match (decode_line(lines[0]), decode_config_lines(lines.drop_first())) {
            (Some(fs), Some(rest)) => {
                if fs.len() == 2 {
                    Some(seq![(fs[0], fs[1])] + rest)
                } else {
                    None
                }
            },
            _ => None,
        }
    }
}

/// The feed views read from a whole configuration file.
pub open spec fn decode_config_spec(input: Seq<char>) -> Option<Seq<(Seq<char>, Seq<char>)>> {
    let segs = split_on(input, '\n');
    if segs.last() == Seq::<char>::empty() {
        decode_config_lines(segs.drop_last())
    } else {
        None
    }
}

/// A two-field line is the two escaped fields with a tab between.
proof fn lemma_join2(a: Seq<char>, b: Seq<char>)
    ensures
        join_escaped(seq![a, b]) == escape_seq(a) + seq!['\t'] + escape_seq(b),
{
    let f = seq![a, b];
    assert(f.drop_first() =~= seq![b]);
    assert(join_escaped(seq![b]) == escape_seq(b));
    assert(join_escaped(f) =~= escape_seq(a) + seq!['\t'] + escape_seq(b));
}

/// Encoding one more configured feed appends that feed's line.
proof fn lemma_encode_config_snoc(fs: Seq<Feed>, k: int)
    requires
        0 <= k < fs.len(),
    ensures
        encode_config_spec(fs.take(k + 1)) == encode_config_spec(fs.take(k)) + join_escaped(
            config_fields(fs[k]),
        ) + seq!['\n'],
    decreases k,
{
    if k == 0 {
        assert(fs.take(0) =~= Seq::<Feed>::empty());
        assert(fs.take(1)[0] == fs[0]);
        assert(fs.take(1).drop_first() =~= Seq::<Feed>::empty());
        assert(encode_config_spec(fs.take(1)) =~= encode_config_spec(fs.take(0)) + join_escaped(
            config_fields(fs[0]),
        ) + seq!['\n']);
    } else {
        lemma_encode_config_snoc(fs.drop_first(), k - 1);
        assert(fs.take(k + 1)[0] == fs[0]);
        assert(fs.take(k + 1).drop_first() =~= fs.drop_first().take(k));
        assert(fs.take(k)[0] == fs[0]);
        assert(fs.take(k).drop_first() =~= fs.drop_first().take(k - 1));
        assert(fs.drop_first()[k - 1] == fs[k]);
        assert(encode_config_spec(fs.take(k + 1)) =~= encode_config_spec(fs.take(k))
            + join_escaped(config_fields(fs[k])) + seq!['\n']);
    }
}

/// Splitting an encoded configuration on line breaks yields one segment
/// per feed and a final empty one.
proof fn lemma_split_encoded_config(fs: Seq<Feed>)
    ensures
        split_on(encode_config_spec(fs), '\n') == fs.map_values(
            |f: Feed| join_escaped(config_fields(f)),
        ) + seq![Seq::<char>::empty()],
    decreases fs.len(),
{
    let lines = fs.map_values(|f: Feed| join_escaped(config_fields(f)));
    if fs.len() == 0 {
        assert(encode_config_spec(fs) =~= Seq::<char>::empty());
        assert(split_on(encode_config_spec(fs), '\n') =~= lines + seq![Seq::<char>::empty()]);
    } else {
        lemma_split_encoded_config(fs.drop_first());
        lemma_join_no_newline(config_fields(fs[0]));
        let head = join_escaped(config_fields(fs[0]));
        let rest = encode_config_spec(fs.drop_first());
        assert(encode_config_spec(fs) =~= head + seq!['\n'] + rest);
        lemma_split_on_append(head, rest, '\n');
        assert(fs.drop_first().map_values(|f: Feed| join_escaped(config_fields(f)))
            =~= lines.drop_first());
        assert(split_on(encode_config_spec(fs), '\n') =~= lines + seq![Seq::<char>::empty()]);
    }
}

/// Each encoded configuration line decodes back to that feed's fields.
proof fn lemma_decode_config_lines_of(fs: Seq<Feed>)
    ensures
        decode_config_lines(fs.map_values(|f: Feed| join_escaped(config_fields(f)))) == Some(
            feed_views(fs),
        ),
    decreases fs.len(),
{
    let lines = fs.map_values(|f: Feed| join_escaped(config_fields(f)));
    if fs.len() == 0 {
        assert(feed_views(fs) =~= Seq::<(Seq<char>, Seq<char>)>::empty());
    } else {
        lemma_decode_config_lines_of(fs.drop_first());
        lemma_decode_join(config_fields(fs[0]));
        assert(lines[0] == join_escaped(config_fields(fs[0])));
        assert(lines.drop_first() =~= fs.drop_first().map_values(
            |f: Feed| join_escaped(config_fields(f)),
        ));
        let flds = config_fields(fs[0]);
        assert(feed_views(fs) =~= seq![(flds[0], flds[1])] + feed_views(fs.drop_first()));
    }
}

/// Loading what was saved gives the configuration back exactly: encoding a
/// feed list and decoding the text yields the same feeds, by URL and
/// schedule.
pub proof fn lemma_config_round_trip(fs: Seq<Feed>)
    ensures
        decode_config_spec(encode_config_spec(fs)) == Some(feed_views(fs)),
{
    lemma_split_encoded_config(fs);
    let lines = fs.map_values(|f: Feed| join_escaped(config_fields(f)));
    let segs = split_on(encode_config_spec(fs), '\n');
    assert(segs.last() == Seq::<char>::empty());
    assert(segs.drop_last() =~= lines);
    lemma_decode_config_lines_of(fs);
}

/// A configuration decodes exactly when every line carries two decodable
/// fields, and then line by line.
proof fn lemma_decode_config_lines_char(lines: Seq<Seq<char>>)
    ensures
        (decode_config_lines(lines) is Some) <==> (forall|i: int|
            0 <= i < lines.len() ==> (decode_line(#[trigger] lines[i]) matches Some(fs)
                && fs.len() == 2)),
        decode_config_lines(lines) is Some ==> decode_config_lines(lines)->0.len() == lines.len(),
        decode_config_lines(lines) is Some ==> forall|i: int|
            0 <= i < lines.len() ==> #[trigger] decode_config_lines(lines)->0[i] == (
            decode_line(lines[i])->0[0],
            decode_line(lines[i])->0[1],
            ),
    decreases lines.len(),
{
    if lines.len() > 0 {
        let rest = lines.drop_first();
        lemma_decode_config_lines_char(rest);
        if forall|i: int|
            0 <= i < lines.len() ==> (decode_line(#[trigger] lines[i]) matches Some(fs)
                && fs.len() == 2) {
            assert forall|i: int| 0 <= i < rest.len() implies (decode_line(
                #[trigger] rest[i],
            ) matches Some(fs) && fs.len() == 2) by {
                assert(rest[i] == lines[i + 1]);
            }
            assert(decode_config_lines(rest) is Some);
            assert(decode_config_lines(lines) is Some);
        }
        if decode_config_lines(lines) is Some {
            assert(decode_line(lines[0]) is Some && decode_line(lines[0])->0.len() == 2);
            assert(decode_config_lines(rest) is Some);
            assert forall|i: int| 0 <= i < lines.len() implies (decode_line(
                #[trigger] lines[i],
            ) matches Some(fs) && fs.len() == 2) by {
                if i > 0 {
                    assert(lines[i] == rest[i - 1]);
                }
            }
            let v = decode_config_lines(lines)->0;
            let vr = decode_config_lines(rest)->0;
            let fs0 = decode_line(lines[0])->0;
            assert(v =~= seq![(fs0[0], fs0[1])] + vr);
            assert forall|i: int| 0 <= i < lines.len() implies #[trigger] v[i] == (
                decode_line(lines[i])->0[0],
                decode_line(lines[i])->0[1],
            ) by {
                if i > 0 {
                    assert(v[i] == vr[i - 1]);
                    assert(lines[i] == rest[i - 1]);
                }
            }
        }
    }
}

/// Renders the configuration in its on-disk text form: one line per feed,
/// both fields escaped and separated by a tab, each line ended by a line
/// break.
pub fn encode_config(config: &Config) -> (r: Vec<char>)
    ensures
        r@ == encode_config_spec(config.feeds@),
{
    let mut out: Vec<char> = Vec::new();
    let n = config.feeds.len();
    let mut k: usize = 0;
    proof {
        assert(config.feeds@.take(0) =~= Seq::<Feed>::empty());
    }
    while k < n
        invariant
            n == config.feeds@.len(),
            k <= n,
            out@ == encode_config_spec(config.feeds@.take(k as int)),
        decreases n - k,
    {
        let ghost pre = out@;
        escape_into(&mut out, config.feeds[k].link.as_str());
        out.push('\t');
        escape_into(&mut out, config.feeds[k].schedule.as_str());
        out.push('\n');
        proof {
            lemma_encode_config_snoc(config.feeds@, k as int);
            lemma_join2(config.feeds@[k as int].link@, config.feeds@[k as int].schedule@);
            assert(out@ =~= pre + join_escaped(config_fields(config.feeds@[k as int])) + seq![
                '\n',
            ]);
            assert(out@ =~= encode_config_spec(config.feeds@.take(k as int + 1)));
        }
        k = k + 1;
    }
    proof {
        assert(config.feeds@.take(n as int) =~= config.feeds@);
    }
    out
}

/// Reads a configuration back from its on-disk text form; rejects text
/// that the encoder cannot have written.
pub fn parse_config(input: &[char]) -> (r: Result<Config, CodecError>)
    ensures
        match r {
            Ok(c) => decode_config_spec(input@) == Some(feed_views(c.feeds@)),
            Err(CodecError::Malformed) => decode_config_spec(input@) is None,
            Err(CodecError::DuplicateLink) => false,
        },
{
    let segs = split_on_vec(input, '\n');
    let last_idx = segs.len() - 1;
    if !segs[last_idx].is_empty() {
        proof {
            assert(vec_views(segs@).last() == segs@[last_idx as int]@);
        }
        return Err(CodecError::Malformed);
    }
    let ghost lines = vec_views(segs@).drop_last();
    proof {
        assert(vec_views(segs@).last() =~= Seq::<char>::empty());
        assert(decode_config_spec(input@) == decode_config_lines(lines));
    }
    let mut feeds: Vec<Feed> = Vec::new();
    let n = last_idx;
    let mut i: usize = 0;
    while i < n
        invariant
            vec_views(segs@) == split_on(input@, '\n'),
            segs@.len() >= 1,
            n == segs@.len() - 1,
            i <= n,
            lines == vec_views(segs@).drop_last(),
            feeds@.len() == i,
            forall|k: int|
                0 <= k < i ==> (decode_line(#[trigger] lines[k]) matches Some(fs) && fs.len() == 2
                    && feeds@[k].link@ == fs[0] && feeds@[k].schedule@ == fs[1]),
        decreases n - i,
    {
        proof {
            assert(lines[i as int] == segs@[i as int]@);
        }
        match decode_fields(segs[i].as_slice()) {
            Some(fs) => {
                if fs.len() != 2 {
                    proof {
                        lemma_decode_config_lines_char(lines);
                    }
                    return Err(CodecError::Malformed);
                }
                feeds.push(Feed { link: fs[0].clone(), schedule: fs[1].clone() });
            },
            None => {
                proof {
                    lemma_decode_config_lines_char(lines);
                }
                return Err(CodecError::Malformed);
            },
        }
        i = i + 1;
    }
    proof {
        lemma_decode_config_lines_char(lines);
        assert(decode_config_lines(lines) is Some);
        assert(decode_config_lines(lines)->0 =~= feed_views(feeds@));
    }
    Ok(Config { feeds })
}

} // verus!
