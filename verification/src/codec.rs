//! The wire codec: between flat byte buffers and structured records.
//!
//! Input buffers hold one record per line, lines separated by `'\n'`, each
//! line holding at least three NUL-separated components `id NUL title NUL url`
//! (a line with fewer components is silently dropped, further components are
//! ignored). Output buffers hold one `url NUL title` line per result. All
//! text is UTF-8; a buffer that is not valid UTF-8 fails decoding outright.

use vstd::prelude::*;
use vstd::string::StrSliceExecFns;
use vstd::string::StringExecFns;
use vstd::string::StringSliceAdditionalSpecFns;
use vstd::utf8::{decode_utf8, encode_utf8, valid_utf8};

use crate::record::{views_of, Record, RecordView};
use crate::store::RecordStore;

verus! {

/// The least index of `d` in `s`, or `s.len()` if `d` does not occur.
pub open spec fn find_char(s: Seq<char>, d: char) -> int
    decreases s.len(),
{
    if s.len() == 0 {
        0
    } else if s[0] == d {
        0
    } else {
        1 + find_char(s.drop_first(), d)
    }
}

/// The least index of `d` in `s` at or after `from`, or `s.len()`.
pub open spec fn find_char_from(s: Seq<char>, from: int, d: char) -> int {
    from + find_char(s.skip(from), d)
}

pub proof fn lemma_find_char_bounds(s: Seq<char>, d: char)
    ensures
        0 <= find_char(s, d) <= s.len(),
        forall|k: int| 0 <= k < find_char(s, d) ==> s[k] != d,
        find_char(s, d) < s.len() ==> s[find_char(s, d)] == d,
    decreases s.len(),
{
    if s.len() == 0 {
    } else if s[0] == d {
    } else {
        lemma_find_char_bounds(s.drop_first(), d);
        let f = find_char(s, d);
        assert forall|k: int| 0 <= k < f implies s[k] != d by {
            if k > 0 {
                assert(s.drop_first()[k - 1] == s[k]);
            }
        }
        if f < s.len() {
            assert(s.drop_first()[f - 1] == s[f]);
        }
    }
}

/// `find_char` is pinned down by the three properties of an index: in range,
/// no occurrence before it, an occurrence (or the end) at it.
pub proof fn lemma_find_char_is(s: Seq<char>, d: char, i: int)
    requires
        0 <= i <= s.len(),
        forall|k: int| 0 <= k < i ==> s[k] != d,
        i == s.len() || s[i] == d,
    ensures
        find_char(s, d) == i,
    decreases s.len(),
{
    if s.len() == 0 {
    } else if s[0] == d {
        assert(i == 0);
    } else {
        assert(i >= 1);
        let rest = s.drop_first();
        assert forall|k: int| 0 <= k < i - 1 implies rest[k] != d by {
            assert(rest[k] == s[k + 1]);
        }
        if i < s.len() {
            assert(rest[i - 1] == s[i]);
        }
        lemma_find_char_is(rest, d, i - 1);
    }
}

/// One parsed line: `id NUL title NUL url`, where the url component ends at
/// the next NUL (or the end of the line) and anything after it is ignored.
/// `None` when the line has fewer than three components.
pub open spec fn parse_line(line: Seq<char>) -> Option<RecordView> {
    let p1 = find_char(line, '\0');
    if p1 == line.len() {
        None
    } else {
        let p2 = find_char_from(line, p1 + 1, '\0');
        if p2 == line.len() {
            None
        } else {
            let p3 = find_char_from(line, p2 + 1, '\0');
            Some(
                RecordView {
                    id: line.take(p1),
                    title: line.subrange(p1 + 1, p2),
                    url: line.subrange(p2 + 1, p3),
                },
            )
        }
    }
}

/// All records parsed from a character buffer: the buffer is split on `'\n'`,
/// each segment is parsed as a line, malformed segments are dropped.
pub open spec fn parse_content(s: Seq<char>) -> Seq<RecordView>
    decreases s.len(),
    via parse_content_decreases
{
    let i = find_char(s, '\n');
    let head = match parse_line(s.take(i)) {
        Some(r) => seq![r],
        None => Seq::<RecordView>::empty(),
    };
    if 0 <= i < s.len() {
        head + parse_content(s.skip(i + 1))
    } else {
        head
    }
}

#[via_fn]
proof fn parse_content_decreases(s: Seq<char>) {
    lemma_find_char_bounds(s, '\n');
}

/// The wire line of a record on the way in: `id NUL title NUL url`.
pub open spec fn encode_line(r: RecordView) -> Seq<char> {
    r.id + seq!['\0'] + r.title + seq!['\0'] + r.url
}

/// The wire content of a record sequence: lines joined by `'\n'`, no
/// trailing separator.
pub open spec fn encode_content(rs: Seq<RecordView>) -> Seq<char>
    decreases rs.len(),
{
    if rs.len() == 0 {
        Seq::<char>::empty()
    } else if rs.len() == 1 {
        encode_line(rs[0])
    } else {
        encode_line(rs[0]) + seq!['\n'] + encode_content(rs.drop_first())
    }
}

/// The wire line of a result on the way out: `url NUL title`.
pub open spec fn output_line(r: RecordView) -> Seq<char> {
    r.url + seq!['\0'] + r.title
}

/// The wire content of ranked results: the `output_line` of each selected
/// record, joined by `'\n'`, no trailing separator.
pub open spec fn output_content(rs: Seq<RecordView>, idxs: Seq<int>) -> Seq<char>
    decreases idxs.len(),
{
    if idxs.len() == 0 {
        Seq::<char>::empty()
    } else if idxs.len() == 1 {
        output_line(rs[idxs[0]])
    } else {
        output_line(rs[idxs[0]]) + seq!['\n'] + output_content(rs, idxs.drop_first())
    }
}

proof fn lemma_encode_content_push(rs: Seq<RecordView>, r: RecordView)
    ensures
        encode_content(rs.push(r)) == if rs.len() == 0 {
            encode_line(r)
        } else {
            encode_content(rs) + seq!['\n'] + encode_line(r)
        },
    decreases rs.len(),
{
    let all = rs.push(r);
    if rs.len() == 0 {
        assert(all.len() == 1);
        assert(all[0] == r);
    } else {
        assert(all[0] == rs[0]);
        assert(all.drop_first() =~= rs.drop_first().push(r));
        lemma_encode_content_push(rs.drop_first(), r);
        if rs.len() == 1 {
            assert(encode_content(rs) == encode_line(rs[0]));
        }
    }
}

proof fn lemma_output_content_push(rs: Seq<RecordView>, idxs: Seq<int>, i: int)
    ensures
        output_content(rs, idxs.push(i)) == if idxs.len() == 0 {
            output_line(rs[i])
        } else {
            output_content(rs, idxs) + seq!['\n'] + output_line(rs[i])
        },
    decreases idxs.len(),
{
    let all = idxs.push(i);
    if idxs.len() == 0 {
        assert(all.len() == 1);
        assert(all[0] == i);
    } else {
        assert(all[0] == idxs[0]);
        assert(all.drop_first() =~= idxs.drop_first().push(i));
        lemma_output_content_push(rs, idxs.drop_first(), i);
        if idxs.len() == 1 {
            assert(output_content(rs, idxs) == output_line(rs[idxs[0]]));
        }
    }
}

/// A field that survives a wire round trip unchanged: it holds neither of
/// the two delimiters.
pub open spec fn clean_field(f: Seq<char>) -> bool {
    forall|k: int| 0 <= k < f.len() ==> f[k] != '\0' && f[k] != '\n'
}

/// A record that survives a wire round trip unchanged.
pub open spec fn wf_record(r: RecordView) -> bool {
    clean_field(r.id) && clean_field(r.title) && clean_field(r.url)
}

proof fn lemma_parse_line_of_encode_line(r: RecordView)
    requires
        wf_record(r),
    ensures
        parse_line(encode_line(r)) == Some(r),
        forall|k: int| 0 <= k < encode_line(r).len() ==> encode_line(r)[k] != '\n',
{
    let s = encode_line(r);
    let a = r.id.len() as int;
    let b = a + 1 + r.title.len();
    let n = s.len() as int;
    assert forall|k: int| 0 <= k < n implies s[k] != '\n' by {}
    lemma_find_char_is(s, '\0', a);
    assert(s.skip(a + 1) =~= r.title + seq!['\0'] + r.url);
    lemma_find_char_is(s.skip(a + 1), '\0', r.title.len() as int);
    assert(find_char_from(s, a + 1, '\0') == b);
    assert(s.skip(b + 1) =~= r.url);
    lemma_find_char_is(s.skip(b + 1), '\0', r.url.len() as int);
    assert(find_char_from(s, b + 1, '\0') == n);
    assert(s.take(a) =~= r.id);
    assert(s.subrange(a + 1, b) =~= r.title);
    assert(s.subrange(b + 1, n) =~= r.url);
}

/// Parsing inverts encoding, for records whose fields hold no delimiter.
pub proof fn lemma_parse_of_encode(rs: Seq<RecordView>)
    requires
        forall|k: int| 0 <= k < rs.len() ==> wf_record(#[trigger] rs[k]),
    ensures
        parse_content(encode_content(rs)) == rs,
    decreases rs.len(),
{
    let s = encode_content(rs);
    if rs.len() == 0 {
        lemma_find_char_is(s, '\n', 0);
        lemma_find_char_is(s, '\0', 0);
        assert(parse_content(s) =~= rs);
    } else if rs.len() == 1 {
        lemma_parse_line_of_encode_line(rs[0]);
        lemma_find_char_is(s, '\n', s.len() as int);
        assert(s.take(s.len() as int) =~= s);
        assert(parse_content(s) =~= rs);
    } else {
        let l0 = encode_line(rs[0]);
        let rest = encode_content(rs.drop_first());
        lemma_parse_line_of_encode_line(rs[0]);
        lemma_find_char_is(s, '\n', l0.len() as int);
        assert(s.take(l0.len() as int) =~= l0);
        assert(s.skip(l0.len() as int + 1) =~= rest);
        lemma_parse_of_encode(rs.drop_first());
        assert(parse_content(s) =~= rs);
    }
}

/// The full round trip at the byte level: encoding any sequence of
/// delimiter-free records yields a valid UTF-8 buffer which decodes back to
/// exactly those records, identifiers, titles and urls alike, in order.
pub proof fn lemma_codec_round_trip(rs: Seq<RecordView>)
    requires
        forall|k: int| 0 <= k < rs.len() ==> wf_record(#[trigger] rs[k]),
    ensures
        valid_utf8(encode_utf8(encode_content(rs))),
        parse_content(decode_utf8(encode_utf8(encode_content(rs)))) == rs,
{
    vstd::utf8::encode_utf8_valid_utf8(encode_content(rs));
    vstd::utf8::encode_utf8_decode_utf8(encode_content(rs));
    lemma_parse_of_encode(rs);
}

/// The least index of `d` in `s` at or after `from` (`n` when absent),
/// scanning characters.
fn find_from(s: &str, from: usize, n: usize, d: char) -> (j: usize)
    requires
        n == s@.len(),
        from <= n,
    ensures
        from <= j <= n,
        j - from == find_char(s@.skip(from as int), d),
        forall|k: int| from <= k < j ==> s@[k] != d,
        j < n ==> s@[j as int] == d,
{
    let mut j = from;
    while j < n && s.get_char(j) != d
        invariant
            n == s@.len(),
            from <= j <= n,
            forall|k: int| from <= k < j ==> s@[k] != d,
        decreases n - j,
    {
        j += 1;
    }
    proof {
        let rest = s@.skip(from as int);
        assert forall|k: int| 0 <= k < j - from implies rest[k] != d by {
            assert(rest[k] == s@[from + k]);
        }
        if j < n {
            assert(rest[j - from] == s@[j as int]);
        }
        lemma_find_char_is(rest, d, j - from);
    }
    j
}

/// Parses one line; `None` when it has fewer than three components.
fn parse_line_exec(line: &str) -> (r: Option<Record>)
    ensures
        r is Some <==> parse_line(line@) is Some,
        r matches Some(rec) ==> parse_line(line@) == Some(rec@),
{
    let m = line.unicode_len();
    proof {
        assert(line@.skip(0) =~= line@);
    }
    let p1 = find_from(line, 0, m, '\0');
    if p1 == m {
        return None;
    }
    let p2 = find_from(line, p1 + 1, m, '\0');
    if p2 == m {
        return None;
    }
    let p3 = find_from(line, p2 + 1, m, '\0');
    let id = line.substring_char(0, p1).to_owned();
    let title = line.substring_char(p1 + 1, p2).to_owned();
    let url = line.substring_char(p2 + 1, p3).to_owned();
    let rec = Record { id, title, url };
    proof {
        let v = parse_line(line@).unwrap();
        assert(line@.take(p1 as int) =~= line@.subrange(0, p1 as int));
        assert(v.id == rec@.id && v.title == rec@.title && v.url == rec@.url);
        assert(parse_line(line@) == Some(rec@));
    }
    Some(rec)
}

/// Parses a whole character buffer into records, dropping malformed lines.
pub fn parse_records(content: &str) -> (out: Vec<Record>)
    ensures
        views_of(out@) == parse_content(content@),
{
    let n = content.unicode_len();
    let mut out: Vec<Record> = Vec::new();
    let mut pos: usize = 0;
    proof {
        assert(content@.skip(0) =~= content@);
        assert(views_of(out@) =~= Seq::<RecordView>::empty());
    }
    loop
        invariant_except_break
            n == content@.len(),
            pos <= n,
            parse_content(content@) == views_of(out@) + parse_content(content@.skip(pos as int)),
        ensures
            views_of(out@) == parse_content(content@),
        decreases n - pos,
    {
        let ghost done = views_of(out@);
        let ghost rest = content@.skip(pos as int);
        let j = find_from(content, pos, n, '\n');
        proof {
            lemma_find_char_bounds(rest, '\n');
            assert(rest.take(j - pos) =~= content@.subrange(pos as int, j as int));
        }
        let line = content.substring_char(pos, j);
        let parsed = parse_line_exec(line);
        match parsed {
            Some(rec) => {
                out.push(rec);
                proof {
                    assert(views_of(out@) =~= done.push(rec@));
                }
            },
            None => {},
        }
        proof {
            let ghost head = match parse_line(line@) {
                Some(r) => seq![r],
                None => Seq::<RecordView>::empty(),
            };
            assert(views_of(out@) =~= done + head);
            if j < n {
                assert(rest.skip(j - pos + 1) =~= content@.skip(j + 1));
                assert(parse_content(rest) == head + parse_content(content@.skip(j + 1)));
                assert(views_of(out@) + parse_content(content@.skip(j + 1))
                    =~= done + parse_content(rest));
            } else {
                assert(parse_content(rest) == head);
                assert(views_of(out@) =~= done + parse_content(rest));
            }
        }
        if j == n {
            proof {
                assert(views_of(out@) =~= done + parse_content(rest));
            }
            break;
        }
        pos = j + 1;
    }
    out
}

/// Relies on `core::str::from_utf8`: it returns `Ok` exactly when the input
/// is valid UTF-8, and the returned string slice is backed by the input
/// bytes.
#[verifier::external_body]
fn bytes_to_str(buffer: &[u8]) -> (r: Option<&str>)
    ensures
        r is Some <==> valid_utf8(buffer@),
        r matches Some(s) ==> s.spec_bytes() == buffer@,
{
    core::str::from_utf8(buffer).ok()
}

/// Decodes a byte buffer into records. `None` exactly when the buffer is
/// not valid UTF-8 (the only hard decode failure); malformed lines inside a
/// valid buffer are dropped individually.
pub fn decode_records(buffer: &[u8]) -> (r: Option<Vec<Record>>)
    ensures
        r is Some <==> valid_utf8(buffer@),
        r matches Some(records) ==> views_of(records@) == parse_content(decode_utf8(buffer@)),
{
    match bytes_to_str(buffer) {
        None => None,
        Some(s) => {
            proof {
                vstd::utf8::encode_utf8_decode_utf8(s@);
            }
            Some(parse_records(s))
        },
    }
}

/// Encodes records into an input-format byte buffer, one `id NUL title NUL
/// url` line per record.
pub fn encode_records(records: &Vec<Record>) -> (out: Vec<u8>)
    ensures
        out@ == encode_utf8(encode_content(views_of(records@))),
{
    let mut s = String::new();
    let n = records.len();
    let mut i: usize = 0;
    proof {
        reveal_strlit("\n");
        reveal_strlit("\0");
        assert(views_of(records@.take(0)) =~= Seq::<RecordView>::empty());
    }
    while i < n
        invariant
            n == records@.len(),
            i <= n,
            s@ == encode_content(views_of(records@.take(i as int))),
        decreases n - i,
    {
        let ghost prefix = views_of(records@.take(i as int));
        if i > 0 {
            s.append("\n");
            proof {
                reveal_strlit("\n");
                assert("\n"@ =~= seq!['\n']);
            }
        }
        let r = &records[i];
        s.append(r.id.as_str());
        s.append("\0");
        s.append(r.title.as_str());
        s.append("\0");
        s.append(r.url.as_str());
        proof {
            reveal_strlit("\0");
            assert("\0"@ =~= seq!['\0']);
            assert(views_of(records@.take(i + 1)) =~= prefix.push(r@));
            lemma_encode_content_push(prefix, r@);
            if i > 0 {
                assert(s@ =~= encode_content(prefix) + seq!['\n'] + encode_line(r@));
            } else {
                assert(prefix.len() == 0);
                assert(s@ =~= encode_line(r@));
            }
        }
        i += 1;
    }
    proof {
        assert(records@.take(n as int) =~= records@);
    }
    s.as_str().as_bytes_vec()
}

/// Encodes ranked results into an output-format byte buffer, one `url NUL
/// title` line per selected record, in the given order.
pub fn encode_results(store: &RecordStore, idxs: &Vec<usize>) -> (out: Vec<u8>)
    requires
        forall|k: int| 0 <= k < idxs@.len() ==> #[trigger] idxs@[k] < store@.len(),
    ensures
        out@ == encode_utf8(output_content(store@, idxs@.map_values(|x: usize| x as int))),
{
    let ghost iv = idxs@.map_values(|x: usize| x as int);
    let mut s = String::new();
    let n = idxs.len();
    let mut i: usize = 0;
    proof {
        assert(output_content(store@, iv.take(0)) =~= Seq::<char>::empty());
    }
    while i < n
        invariant
            n == idxs@.len(),
            iv == idxs@.map_values(|x: usize| x as int),
            forall|k: int| 0 <= k < idxs@.len() ==> #[trigger] idxs@[k] < store@.len(),
            i <= n,
            s@ == output_content(store@, iv.take(i as int)),
        decreases n - i,
    {
        let ghost prefix = iv.take(i as int);
        if i > 0 {
            s.append("\n");
        }
        let r = store.get(idxs[i]);
        s.append(r.url.as_str());
        s.append("\0");
        s.append(r.title.as_str());
        proof {
            reveal_strlit("\n");
            reveal_strlit("\0");
            assert("\n"@ =~= seq!['\n']);
            assert("\0"@ =~= seq!['\0']);
            assert(iv.take(i + 1) =~= prefix.push(iv[i as int]));
            lemma_output_content_push(store@, prefix, iv[i as int]);
            assert(r@ == store@[iv[i as int]]);
            if i > 0 {
                assert(s@ =~= output_content(store@, prefix) + seq!['\n'] + output_line(r@));
            } else {
                assert(prefix.len() == 0);
                assert(s@ =~= output_line(r@));
            }
        }
        i += 1;
    }
    proof {
        assert(iv.take(n as int) =~= iv);
    }
    s.as_str().as_bytes_vec()
}

} // verus!
