//! Line deduplication: decoding an ingested buffer as text and emitting its
//! distinct trimmed lines in first-occurrence order, with their count.

use vstd::prelude::*;
use vstd::std_specs::iter::IteratorSpec;
use vstd::string::StrSliceExecFns;
use vstd::string::StringExecFns;

use crate::ingest::ByteBuffer;
use crate::text::{
    dedup_first, dedup_text, is_blank, join_lines, lemma_dedup_text_empty, lemma_trim_back_take,
    lemma_trim_front_skip, line_segments, trim_spec, trimmed_segments,
};

verus! {

/// The character sequence that lossy UTF-8 decoding yields on `bytes`.
pub uninterp spec fn lossy_utf8(bytes: Seq<u8>) -> Seq<char>;

/// Relies on `String::from_utf8_lossy`: the decoding is a function of the
/// bytes alone; invalid sequences are replaced with U+FFFD rather than
/// failing; valid UTF-8 decodes to exactly its own characters; empty input
/// decodes to empty text.
#[verifier::external_body]
fn decode_utf8_lossy(bytes: &Vec<u8>) -> (r: String)
    ensures
        r@ == lossy_utf8(bytes@),
        vstd::utf8::valid_utf8(bytes@) ==> r@ == vstd::utf8::decode_utf8(bytes@),
        bytes@.len() == 0 ==> r@.len() == 0,
{
    String::from_utf8_lossy(bytes).into_owned()
}

/// Relies on `String`'s `FromIterator` over characters: collecting yields
/// exactly the collected characters, in order.
#[verifier::external_body]
fn string_from_chars(chars: &Vec<char>) -> (r: String)
    ensures
        r@ == chars@,
{
    chars.iter().collect()
}

/// The views of a sequence of character vectors.
pub open spec fn views_of(vs: Seq<Vec<char>>) -> Seq<Seq<char>> {
    vs.map_values(|v: Vec<char>| v@)
}

/// The views of a sequence of strings.
pub open spec fn lines_view(lines: Seq<String>) -> Seq<Seq<char>> {
    lines.map_values(|s: String| s@)
}

/// The result of one deduplication run: the distinct, nonempty, trimmed
/// lines in first-occurrence order, and their number.
pub struct DedupOutcome {
    pub lines: Vec<String>,
    pub count: usize,
}

fn string_to_chars(s: &str) -> (r: Vec<char>)
    ensures
        r@ == s@,
{
    broadcast use vstd::string::axiom_spec_iter;
    broadcast use vstd::string::next_postcondition;

    let mut it = s.chars();
    let mut out: Vec<char> = Vec::new();
    loop
        invariant
            it.obeys_prophetic_iter_laws(),
            it.decrease() is Some,
            out@ + it.remaining() == s@,
        decreases it.decrease()->0,
    {
        let ghost pre = it.remaining();
        match it.next() {
            Some(c) => {
                out.push(c);
                proof {
                    assert(out@ + it.remaining() =~= s@);
                }
            },
            None => {
                proof {
                    assert(pre.len() == 0);
                    assert(out@ =~= s@);
                }
                return out;
            },
        }
    }
}

/// Whether `c` has the Unicode `White_Space` property.
fn is_blank_char(c: char) -> (r: bool)
    ensures
        r == is_blank(c),
{
    let u = c as u32;
    u == 0x09 || u == 0x0A || u == 0x0B || u == 0x0C || u == 0x0D || u == 0x20 || u == 0x85 || u
        == 0xA0 || u == 0x1680 || (0x2000 <= u && u <= 0x200A) || u == 0x2028 || u == 0x2029 || u
        == 0x202F || u == 0x205F || u == 0x3000
}

fn trim_vec(line: &Vec<char>) -> (r: Vec<char>)
    ensures
        r@ == trim_spec(line@),
{
    let n = line.len();
    let mut start: usize = 0;
    while start < n && is_blank_char(line[start])
        invariant
            n == line@.len(),
            start <= n,
            forall|k: int| 0 <= k < start ==> is_blank(line@[k]),
        decreases n - start,
    {
        start += 1;
    }
    proof {
        lemma_trim_front_skip(line@, start as int);
    }
    if start == n {
        let r: Vec<char> = Vec::new();
        proof {
            assert(line@.skip(n as int) =~= Seq::<char>::empty());
        }
        return r;
    }
    let mut end: usize = n;
    while end > start + 1 && is_blank_char(line[end - 1])
        invariant
            n == line@.len(),
            start < end <= n,
            forall|k: int| end <= k < n ==> is_blank(line@[k]),
        decreases end,
    {
        end -= 1;
    }
    proof {
        let t = line@.skip(start as int);
        let j = end - start;
        assert(forall|k: int| j <= k < t.len() ==> t[k] == line@[k + start]);
        assert(!is_blank(t[j - 1])) by {
            if end == start + 1 {
                assert(t[0] == line@[start as int]);
            } else {
                assert(t[j - 1] == line@[end - 1]);
            }
        }
        lemma_trim_back_take(t, j as int);
    }
    let mut out: Vec<char> = Vec::new();
    let mut k: usize = start;
    while k < end
        invariant
            n == line@.len(),
            start <= k <= end <= n,
            out@ == line@.subrange(start as int, k as int),
        decreases end - k,
    {
        proof {
            assert(line@.subrange(start as int, k as int + 1) =~= line@.subrange(
                start as int,
                k as int,
            ).push(line@[k as int]));
        }
        out.push(line[k]);
        k += 1;
    }
    proof {
        assert(out@ =~= line@.skip(start as int).take(end - start));
    }
    out
}

fn split_lines(text: &Vec<char>) -> (r: Vec<Vec<char>>)
    ensures
        views_of(r@) == line_segments(text@),
{
    let mut done: Vec<Vec<char>> = Vec::new();
    let mut cur: Vec<char> = Vec::new();
    let mut i: usize = 0;
    proof {
        assert(text@.take(0) =~= Seq::<char>::empty());
        assert(views_of(done@).push(cur@) =~= line_segments(text@.take(0)));
    }
    while i < text.len()
        invariant
            i <= text@.len(),
            views_of(done@).push(cur@) == line_segments(text@.take(i as int)),
        decreases text@.len() - i,
    {
        let ghost pre = text@.take(i as int);
        proof {
            assert(text@.take(i as int + 1).drop_last() =~= pre);
            assert(text@.take(i as int + 1).last() == text@[i as int]);
        }
        let c = text[i];
        if c == '\n' {
            let ghost old_done = done@;
            let ghost old_cur = cur@;
            done.push(cur);
            cur = Vec::new();
            proof {
                assert(views_of(done@) =~= views_of(old_done).push(old_cur));
                assert(views_of(done@).push(cur@) =~= line_segments(pre).push(Seq::<char>::empty()));
            }
        } else {
            let ghost old_done = done@;
            let ghost old_cur = cur@;
            cur.push(c);
            proof {
                let r0 = views_of(old_done).push(old_cur);
                assert(r0.drop_last() =~= views_of(old_done));
                assert(r0.last() == old_cur);
                assert(views_of(done@).push(cur@) =~= r0.drop_last().push(r0.last().push(
                    text@[i as int],
                )));
            }
        }
        i += 1;
    }
    proof {
        assert(text@.take(text@.len() as int) =~= text@);
    }
    let ghost old_done = done@;
    let ghost old_cur = cur@;
    done.push(cur);
    proof {
        assert(views_of(done@) =~= views_of(old_done).push(old_cur));
    }
    done
}

fn trim_all(lines: &Vec<Vec<char>>) -> (r: Vec<Vec<char>>)
    ensures
        views_of(r@) == views_of(lines@).map_values(|l: Seq<char>| trim_spec(l)),
{
    let ghost target = views_of(lines@).map_values(|l: Seq<char>| trim_spec(l));
    let mut out: Vec<Vec<char>> = Vec::new();
    let mut i: usize = 0;
    while i < lines.len()
        invariant
            i <= lines@.len(),
            target == views_of(lines@).map_values(|l: Seq<char>| trim_spec(l)),
            views_of(out@) == target.take(i as int),
        decreases lines@.len() - i,
    {
        let ghost old_out = out@;
        let t = trim_vec(&lines[i]);
        out.push(t);
        proof {
            assert(views_of(out@) =~= views_of(old_out).push(trim_spec(lines@[i as int]@)));
            assert(target[i as int] == trim_spec(lines@[i as int]@));
            assert(target.take(i as int + 1) =~= target.take(i as int).push(target[i as int]));
        }
        i += 1;
    }
    proof {
        assert(target.take(lines@.len() as int) =~= target);
    }
    out
}

fn char_vecs_eq(a: &Vec<char>, b: &Vec<char>) -> (r: bool)
    ensures
        r == (a@ == b@),
{
    if a.len() != b.len() {
        return false;
    }
    let mut k: usize = 0;
    while k < a.len()
        invariant
            a@.len() == b@.len(),
            k <= a@.len(),
            forall|t: int| 0 <= t < k ==> a@[t] == b@[t],
        decreases a@.len() - k,
    {
        if a[k] != b[k] {
            return false;
        }
        k += 1;
    }
    proof {
        assert(a@ =~= b@);
    }
    true
}

fn seen_contains(seen: &Vec<Vec<char>>, x: &Vec<char>) -> (r: bool)
    ensures
        r == views_of(seen@).contains(x@),
{
    let mut j: usize = 0;
    while j < seen.len()
        invariant
            j <= seen@.len(),
            forall|t: int| 0 <= t < j ==> views_of(seen@)[t] != x@,
        decreases seen@.len() - j,
    {
        if char_vecs_eq(&seen[j], x) {
            proof {
                assert(views_of(seen@)[j as int] == x@);
            }
            return true;
        }
        j += 1;
    }
    proof {
        assert(!views_of(seen@).contains(x@)) by {
            if views_of(seen@).contains(x@) {
                let w = choose|t: int|
                    0 <= t < views_of(seen@).len() && views_of(seen@)[t] == x@;
                assert(views_of(seen@)[w] != x@);
            }
        }
    }
    false
}

fn copy_chars(v: &Vec<char>) -> (r: Vec<char>)
    ensures
        r@ == v@,
{
    let mut out: Vec<char> = Vec::new();
    let mut k: usize = 0;
    while k < v.len()
        invariant
            k <= v@.len(),
            out@ == v@.take(k as int),
        decreases v@.len() - k,
    {
        proof {
            assert(v@.take(k as int + 1) =~= v@.take(k as int).push(v@[k as int]));
        }
        out.push(v[k]);
        k += 1;
    }
    proof {
        assert(v@.take(v@.len() as int) =~= v@);
    }
    out
}

fn dedup_pass(lines: &Vec<Vec<char>>) -> (r: Vec<Vec<char>>)
    ensures
        views_of(r@) == dedup_first(views_of(lines@)),
{
    let ghost lv = views_of(lines@);
    let mut out: Vec<Vec<char>> = Vec::new();
    let mut i: usize = 0;
    proof {
        assert(lv.take(0) =~= Seq::<Seq<char>>::empty());
    }
    while i < lines.len()
        invariant
            i <= lines@.len(),
            lv == views_of(lines@),
            views_of(out@) == dedup_first(lv.take(i as int)),
        decreases lines@.len() - i,
    {
        proof {
            assert(lv.take(i as int + 1).drop_last() =~= lv.take(i as int));
            assert(lv.take(i as int + 1).last() == lines@[i as int]@);
        }
        let keep = if lines[i].len() == 0 {
            false
        } else {
            !seen_contains(&out, &lines[i])
        };
        if keep {
            let ghost old_out = out@;
            let c = copy_chars(&lines[i]);
            out.push(c);
            proof {
                assert(views_of(out@) =~= views_of(old_out).push(lines@[i as int]@));
            }
        }
        i += 1;
    }
    proof {
        assert(lv.take(lines@.len() as int) =~= lv);
    }
    out
}

fn to_strings(lines: &Vec<Vec<char>>) -> (r: Vec<String>)
    ensures
        lines_view(r@) == views_of(lines@),
{
    let mut out: Vec<String> = Vec::new();
    let mut i: usize = 0;
    while i < lines.len()
        invariant
            i <= lines@.len(),
            lines_view(out@) == views_of(lines@).take(i as int),
        decreases lines@.len() - i,
    {
        let ghost old_out = out@;
        let s = string_from_chars(&lines[i]);
        out.push(s);
        proof {
            assert(lines_view(out@) =~= lines_view(old_out).push(lines@[i as int]@));
            assert(views_of(lines@).take(i as int + 1) =~= views_of(lines@).take(i as int).push(
                lines@[i as int]@,
            ));
        }
        i += 1;
    }
    proof {
        assert(views_of(lines@).take(lines@.len() as int) =~= views_of(lines@));
    }
    out
}

/// Deduplicates the lines of one ingested buffer. This never fails: bytes
/// that are not valid UTF-8 are replaced during decoding, not rejected.
///
/// The outcome holds the buffer's trimmed lines with empty lines dropped and
/// only the first occurrence of each distinct value kept, in input order,
/// and a count that always equals the number of lines.
pub fn deduplicate(buffer: ByteBuffer) -> (o: DedupOutcome)
    ensures
        lines_view(o.lines@) == dedup_text(lossy_utf8(buffer@)),
        vstd::utf8::valid_utf8(buffer@) ==> lines_view(o.lines@) == dedup_text(
            vstd::utf8::decode_utf8(buffer@),
        ),
        o.count == o.lines@.len(),
        buffer@.len() == 0 ==> o.count == 0,
{
    let decoded = decode_utf8_lossy(buffer.as_bytes());
    let text = string_to_chars(decoded.as_str());
    let segments = split_lines(&text);
    let trimmed = trim_all(&segments);
    let kept = dedup_pass(&trimmed);
    let lines = to_strings(&kept);
    let count = lines.len();
    proof {
        assert(views_of(trimmed@) == trimmed_segments(text@));
        if buffer@.len() == 0 {
            assert(text@ =~= Seq::<char>::empty());
            lemma_dedup_text_empty();
        }
    }
    DedupOutcome { lines, count }
}

/// Joins previously produced lines with a single newline between each pair
/// and no trailing newline, the exact form in which one run's output is
/// presented or exported.
pub fn join_output(lines: &Vec<String>) -> (r: String)
    ensures
        r@ == join_lines(lines_view(lines@)),
{
    let ghost lv = lines_view(lines@);
    let mut out = String::new();
    let mut i: usize = 0;
    while i < lines.len()
        invariant
            i <= lines@.len(),
            lv == lines_view(lines@),
            out@ == join_lines(lv.take(i as int)),
        decreases lines@.len() - i,
    {
        proof {
            assert(lv.take(i as int + 1).drop_last() =~= lv.take(i as int));
            assert(lv.take(i as int + 1).last() == lines@[i as int]@);
        }
        if i > 0 {
            out.append("\n");
            proof {
                reveal_strlit("\n");
                assert("\n"@ =~= seq!['\n']);
            }
        }
        out.append(lines[i].as_str());
        proof {
            if i == 0 {
                assert(out@ =~= lv.take(1).last());
                assert(lv.take(1).len() == 1);
            } else {
                assert(out@ =~= join_lines(lv.take(i as int)) + seq!['\n'] + lv[i as int]);
                assert(lv.take(i as int + 1).len() >= 2);
            }
        }
        i += 1;
    }
    proof {
        assert(lv.take(lines@.len() as int) =~= lv);
    }
    out
}

/// Whether `filename` names a `.txt` file: the test the boundary layer
/// applies before handing a payload to ingestion.
pub fn is_valid_file_type(filename: &str) -> (r: bool)
    ensures
        r == (filename@.len() >= 4 && filename@.subrange(
            filename@.len() - 4,
            filename@.len() as int,
        ) == seq!['.', 't', 'x', 't']),
{
    let n = filename.unicode_len();
    if n < 4 {
        return false;
    }
    let r = filename.get_char(n - 4) == '.' && filename.get_char(n - 3) == 't'
        && filename.get_char(n - 2) == 'x' && filename.get_char(n - 1) == 't';
    proof {
        let tail = filename@.subrange(filename@.len() - 4, filename@.len() as int);
        assert(tail.len() == 4);
        assert(tail[0] == filename@[filename@.len() - 4]);
        assert(tail[1] == filename@[filename@.len() - 3]);
        assert(tail[2] == filename@[filename@.len() - 2]);
        assert(tail[3] == filename@[filename@.len() - 1]);
        if r {
            assert(tail =~= seq!['.', 't', 'x', 't']);
        }
    }
    r
}

} // verus!
