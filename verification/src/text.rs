//! The mathematical model of line deduplication: splitting decoded text into
//! lines, trimming blank characters, dropping empty lines, and keeping the
//! first occurrence of each distinct line.

use vstd::prelude::*;

verus! {

/// Whether `c` is a blank character: one with the Unicode `White_Space`
/// property, the characters that trimming strips from the ends of a line.
pub open spec fn is_blank(c: char) -> bool {
    let u = c as u32;
    ||| u == 0x09
    ||| u == 0x0A
    ||| u == 0x0B
    ||| u == 0x0C
    ||| u == 0x0D
    ||| u == 0x20
    ||| u == 0x85
    ||| u == 0xA0
    ||| u == 0x1680
    ||| (0x2000 <= u && u <= 0x200A)
    ||| u == 0x2028
    ||| u == 0x2029
    ||| u == 0x202F
    ||| u == 0x205F
    ||| u == 0x3000
}

/// `s` without its leading blank characters.
pub open spec fn trim_front(s: Seq<char>) -> Seq<char>
    decreases s.len(),
{
    if s.len() > 0 && is_blank(s[0]) {
        trim_front(s.drop_first())
    } else {
        s
    }
}

/// `s` without its trailing blank characters.
pub open spec fn trim_back(s: Seq<char>) -> Seq<char>
    decreases s.len(),
{
    if s.len() > 0 && is_blank(s.last()) {
        trim_back(s.drop_last())
    } else {
        s
    }
}

/// `s` without leading and trailing blank characters.
pub open spec fn trim_spec(s: Seq<char>) -> Seq<char> {
    trim_back(trim_front(s))
}

/// The segments of `s` between newline characters, in order. The newline
/// characters themselves belong to no segment; there is always at least one
/// segment, and a trailing newline contributes a final empty segment.
pub open spec fn line_segments(s: Seq<char>) -> Seq<Seq<char>>
    decreases s.len(),
{
    if s.len() == 0 {
        seq![Seq::<char>::empty()]
    } else if s.last() == '\n' {
        line_segments(s.drop_last()).push(Seq::<char>::empty())
    } else {
        let r = line_segments(s.drop_last());
        r.drop_last().push(r.last().push(s.last()))
    }
}

/// `line_segments` never yields an empty sequence of segments.
pub proof fn lemma_line_segments_len(s: Seq<char>)
    ensures
        line_segments(s).len() >= 1,
    decreases s.len(),
{
    if s.len() > 0 {
        lemma_line_segments_len(s.drop_last());
    }
}

/// The distinct nonempty lines of `lines`, in first-occurrence order: a line
/// is kept the first time its value appears, empty lines are dropped, and
/// every later occurrence of a kept value is dropped.
pub open spec fn dedup_first(lines: Seq<Seq<char>>) -> Seq<Seq<char>>
    decreases lines.len(),
{
    if lines.len() == 0 {
        Seq::empty()
    } else {
        let init = dedup_first(lines.drop_last());
        let l = lines.last();
        if l.len() > 0 && !init.contains(l) {
            init.push(l)
        } else {
            init
        }
    }
}

/// The lines of `s`, each trimmed, in order.
pub open spec fn trimmed_segments(s: Seq<char>) -> Seq<Seq<char>> {
    line_segments(s).map_values(|l: Seq<char>| trim_spec(l))
}

/// What deduplication yields on the decoded text `s`: its trimmed lines,
/// empty ones dropped, first occurrences only, in order.
pub open spec fn dedup_text(s: Seq<char>) -> Seq<Seq<char>> {
    dedup_first(trimmed_segments(s))
}

/// The output lines joined with a single newline between each pair, with no
/// trailing newline.
pub open spec fn join_lines(lines: Seq<Seq<char>>) -> Seq<char>
    decreases lines.len(),
{
    if lines.len() == 0 {
        Seq::empty()
    } else if lines.len() == 1 {
        lines[0]
    } else {
        join_lines(lines.drop_last()) + seq!['\n'] + lines.last()
    }
}

/// When the first `i` characters of `s` are blank and, unless the whole of
/// `s` is blank, the character at `i` is not, trimming the front removes
/// exactly those `i` characters.
pub proof fn lemma_trim_front_skip(s: Seq<char>, i: int)
    requires
        0 <= i <= s.len(),
        forall|k: int| 0 <= k < i ==> is_blank(s[k]),
        i == s.len() || !is_blank(s[i]),
    ensures
        trim_front(s) == s.skip(i),
    decreases i,
{
    if i == 0 {
        assert(s.skip(0) =~= s);
    } else {
        assert(is_blank(s[0]));
        let rest = s.drop_first();
        assert(forall|k: int| 0 <= k < i - 1 ==> rest[k] == s[k + 1] && is_blank(s[k + 1]));
        lemma_trim_front_skip(rest, i - 1);
        assert(rest.skip(i - 1) =~= s.skip(i));
    }
}

/// When the characters of `s` from `j` on are blank and, unless the whole of
/// `s` is blank, the character at `j - 1` is not, trimming the back keeps
/// exactly the first `j` characters.
pub proof fn lemma_trim_back_take(s: Seq<char>, j: int)
    requires
        0 <= j <= s.len(),
        forall|k: int| j <= k < s.len() ==> is_blank(s[k]),
        j == 0 || !is_blank(s[j - 1]),
    ensures
        trim_back(s) == s.take(j),
    decreases s.len() - j,
{
    if j == s.len() {
        assert(s.take(j) =~= s);
    } else {
        assert(is_blank(s.last()));
        let rest = s.drop_last();
        assert(forall|k: int| j <= k < rest.len() ==> rest[k] == s[k] && is_blank(s[k]));
        lemma_trim_back_take(rest, j);
        assert(rest.take(j) =~= s.take(j));
    }
}

/// Trimming the back keeps a prefix of `s`.
pub proof fn lemma_trim_back_prefix(s: Seq<char>)
    ensures
        trim_back(s).len() <= s.len(),
        trim_back(s) == s.take(trim_back(s).len() as int),
    decreases s.len(),
{
    if s.len() > 0 && is_blank(s.last()) {
        let rest = s.drop_last();
        lemma_trim_back_prefix(rest);
        assert(rest.take(trim_back(rest).len() as int) =~= s.take(trim_back(rest).len() as int));
    } else {
        assert(s.take(s.len() as int) =~= s);
    }
}

/// Trimming the front keeps a suffix of `s`.
pub proof fn lemma_trim_front_suffix(s: Seq<char>)
    ensures
        trim_front(s).len() <= s.len(),
        trim_front(s) == s.skip(s.len() - trim_front(s).len()),
    decreases s.len(),
{
    if s.len() > 0 && is_blank(s[0]) {
        let rest = s.drop_first();
        lemma_trim_front_suffix(rest);
        let k = trim_front(rest).len();
        assert(rest.skip(rest.len() - k) =~= s.skip(s.len() - k));
    } else {
        assert(s.skip(0) =~= s);
    }
}

/// A nonempty front-trimmed sequence starts with a non-blank character.
pub proof fn lemma_trim_front_first(s: Seq<char>)
    ensures
        trim_front(s).len() > 0 ==> !is_blank(trim_front(s)[0]),
    decreases s.len(),
{
    if s.len() > 0 && is_blank(s[0]) {
        lemma_trim_front_first(s.drop_first());
    }
}

/// A nonempty back-trimmed sequence ends with a non-blank character.
pub proof fn lemma_trim_back_last(s: Seq<char>)
    ensures
        trim_back(s).len() > 0 ==> !is_blank(trim_back(s).last()),
    decreases s.len(),
{
    if s.len() > 0 && is_blank(s.last()) {
        lemma_trim_back_last(s.drop_last());
    }
}

/// A trimmed line is empty or begins and ends with non-blank characters.
pub proof fn lemma_trim_spec_clean(l: Seq<char>)
    ensures
        trim_spec(l).len() > 0 ==> !is_blank(trim_spec(l)[0]) && !is_blank(trim_spec(l).last()),
{
    let f = trim_front(l);
    lemma_trim_front_first(l);
    lemma_trim_back_last(f);
    lemma_trim_back_prefix(f);
    if trim_spec(l).len() > 0 {
        assert(trim_spec(l)[0] == f[0]);
    }
}

/// Trimming a line that is already clean changes nothing.
pub proof fn lemma_trim_clean_identity(l: Seq<char>)
    requires
        l.len() == 0 || (!is_blank(l[0]) && !is_blank(l.last())),
    ensures
        trim_spec(l) == l,
{
}

/// Trimming introduces no character: a character of the trimmed line occurs
/// in the original line.
pub proof fn lemma_trim_spec_chars(l: Seq<char>, c: char)
    ensures
        trim_spec(l).contains(c) ==> l.contains(c),
{
    let f = trim_front(l);
    lemma_trim_front_suffix(l);
    lemma_trim_back_prefix(f);
    if trim_spec(l).contains(c) {
        let w = choose|i: int| 0 <= i < trim_spec(l).len() && trim_spec(l)[i] == c;
        assert(f[w] == c);
        assert(l[w + (l.len() - f.len())] == c);
    }
}

/// No segment contains a newline: the terminators belong to no line.
pub proof fn lemma_line_segments_no_newline(s: Seq<char>)
    ensures
        forall|i: int| 0 <= i < line_segments(s).len() ==> !line_segments(s)[i].contains('\n'),
    decreases s.len(),
{
    if s.len() == 0 {
        assert(forall|i: int|
            0 <= i < line_segments(s).len() ==> line_segments(s)[i] == Seq::<char>::empty());
    } else {
        lemma_line_segments_no_newline(s.drop_last());
        lemma_line_segments_len(s.drop_last());
        let r = line_segments(s.drop_last());
        if s.last() == '\n' {
            assert(forall|i: int|
                0 <= i < r.len() ==> line_segments(s)[i] == r[i] && !r[i].contains('\n'));
            assert(!Seq::<char>::empty().contains('\n'));
        } else {
            let ext = r.last().push(s.last());
            assert(!ext.contains('\n')) by {
                if ext.contains('\n') {
                    let w = choose|i: int| 0 <= i < ext.len() && ext[i] == '\n';
                    if w < r.last().len() {
                        assert(r.last()[w] == '\n');
                        assert(r.last().contains('\n'));
                        assert(r[r.len() - 1] == r.last());
                    }
                }
            }
            assert(forall|i: int|
                0 <= i < r.len() - 1 ==> line_segments(s)[i] == r[i] && !r[i].contains('\n'));
        }
    }
}

/// Text without a newline is a single segment: itself.
pub proof fn lemma_line_segments_single(s: Seq<char>)
    requires
        !s.contains('\n'),
    ensures
        line_segments(s) == seq![s],
    decreases s.len(),
{
    if s.len() == 0 {
        assert(s =~= Seq::<char>::empty());
        assert(seq![Seq::<char>::empty()] =~= seq![s]);
    } else {
        assert(s.last() != '\n') by {
            if s.last() == '\n' {
                assert(s[s.len() - 1] == '\n');
            }
        }
        assert(!s.drop_last().contains('\n')) by {
            if s.drop_last().contains('\n') {
                let w = choose|i: int| 0 <= i < s.len() - 1 && s.drop_last()[i] == '\n';
                assert(s[w] == '\n');
            }
        }
        lemma_line_segments_single(s.drop_last());
        let r = line_segments(s.drop_last());
        assert(r.drop_last() =~= Seq::<Seq<char>>::empty());
        assert(r.last() == s.drop_last());
        assert(s.drop_last().push(s.last()) =~= s);
        assert(line_segments(s) =~= seq![s]);
    }
}

/// Appending a newline to the text opens a new, empty segment.
pub proof fn lemma_line_segments_newline(u: Seq<char>)
    ensures
        line_segments(u + seq!['\n']) == line_segments(u).push(Seq::<char>::empty()),
{
    let s = u + seq!['\n'];
    assert(s.last() == '\n');
    assert(s.drop_last() =~= u);
}

/// Appending newline-free text to the text extends its last segment.
pub proof fn lemma_line_segments_append(u: Seq<char>, b: Seq<char>)
    requires
        !b.contains('\n'),
    ensures
        line_segments(u + b) == line_segments(u).drop_last().push(line_segments(u).last() + b),
    decreases b.len(),
{
    lemma_line_segments_len(u);
    let r = line_segments(u);
    if b.len() == 0 {
        assert(u + b =~= u);
        assert(r.last() + b =~= r.last());
        assert(r.drop_last().push(r.last()) =~= r);
    } else {
        assert(b.last() != '\n') by {
            if b.last() == '\n' {
                assert(b[b.len() - 1] == '\n');
            }
        }
        assert(!b.drop_last().contains('\n')) by {
            if b.drop_last().contains('\n') {
                let w = choose|i: int| 0 <= i < b.len() - 1 && b.drop_last()[i] == '\n';
                assert(b[w] == '\n');
            }
        }
        lemma_line_segments_append(u, b.drop_last());
        let s = u + b;
        assert(s.last() == b.last());
        assert(s.last() != '\n');
        assert(s.drop_last() =~= u + b.drop_last());
        let bigr = line_segments(u + b.drop_last());
        assert(bigr == r.drop_last().push(r.last() + b.drop_last()));
        assert(line_segments(s) == bigr.drop_last().push(bigr.last().push(s.last())));
        assert(bigr.drop_last() =~= r.drop_last());
        assert(bigr.last() == r.last() + b.drop_last());
        assert((r.last() + b.drop_last()).push(b.last()) =~= r.last() + b);
    }
}

/// Joined clean lines split back into exactly those lines.
pub proof fn lemma_line_segments_join(lines: Seq<Seq<char>>)
    requires
        lines.len() >= 1,
        forall|i: int| 0 <= i < lines.len() ==> !(#[trigger] lines[i]).contains('\n'),
    ensures
        line_segments(join_lines(lines)) == lines,
    decreases lines.len(),
{
    if lines.len() == 1 {
        lemma_line_segments_single(lines[0]);
        assert(seq![lines[0]] =~= lines);
    } else {
        let init = lines.drop_last();
        assert(forall|i: int| 0 <= i < init.len() ==> init[i] == lines[i]);
        lemma_line_segments_join(init);
        let u = join_lines(init);
        assert(join_lines(lines) =~= (u + seq!['\n']) + lines.last());
        lemma_line_segments_newline(u);
        assert(!lines.last().contains('\n')) by {
            assert(lines[lines.len() - 1] == lines.last());
        }
        lemma_line_segments_append(u + seq!['\n'], lines.last());
        let r2 = line_segments(u + seq!['\n']);
        assert(r2 == init.push(Seq::<char>::empty()));
        assert(r2.drop_last() =~= init);
        assert(r2.last() =~= Seq::<char>::empty());
        assert(r2.last() + lines.last() =~= lines.last());
        assert(init.push(lines.last()) =~= lines);
    }
}

/// Law: every line that deduplication emits is nonempty, and no value is
/// emitted twice — the output lines are pairwise distinct.
pub proof fn lemma_dedup_first_unique(lines: Seq<Seq<char>>)
    ensures
        forall|i: int| 0 <= i < dedup_first(lines).len() ==> dedup_first(lines)[i].len() > 0,
        forall|i: int, j: int|
            0 <= i < j < dedup_first(lines).len() ==> dedup_first(lines)[i] != dedup_first(
                lines,
            )[j],
    decreases lines.len(),
{
    if lines.len() > 0 {
        lemma_dedup_first_unique(lines.drop_last());
        let init = dedup_first(lines.drop_last());
        let l = lines.last();
        if l.len() > 0 && !init.contains(l) {
            assert(forall|i: int| 0 <= i < init.len() ==> init[i] != l);
        }
    }
}

/// Law: a value appears among the output lines exactly when it is nonempty
/// and appears among the input lines; deduplication drops occurrences, never
/// values, and invents none.
pub proof fn lemma_dedup_first_membership(lines: Seq<Seq<char>>, x: Seq<char>)
    ensures
        dedup_first(lines).contains(x) <==> (lines.contains(x) && x.len() > 0),
    decreases lines.len(),
{
    if lines.len() == 0 {
    } else {
        let init_lines = lines.drop_last();
        lemma_dedup_first_membership(init_lines, x);
        let init = dedup_first(init_lines);
        let l = lines.last();
        let d = dedup_first(lines);
        assert(forall|i: int| 0 <= i < init_lines.len() ==> init_lines[i] == lines[i]);
        if lines.contains(x) && x.len() > 0 {
            let w = choose|i: int| 0 <= i < lines.len() && lines[i] == x;
            if w < lines.len() - 1 {
                assert(init_lines[w] == x);
                assert(init.contains(x));
            } else {
                assert(l == x);
            }
            if init.contains(x) {
                let v = choose|i: int| 0 <= i < init.len() && init[i] == x;
                assert(d.contains(x)) by {
                    assert(d[v] == x);
                }
            } else {
                assert(l == x);
                assert(d == init.push(l));
                assert(d[d.len() - 1] == x);
            }
        }
        if d.contains(x) {
            let v = choose|i: int| 0 <= i < d.len() && d[i] == x;
            if v < init.len() {
                assert(init[v] == x);
                assert(init.contains(x));
                assert(lines.contains(x)) by {
                    let u = choose|i: int| 0 <= i < init_lines.len() && init_lines[i] == x;
                    assert(lines[u] == x);
                }
            } else {
                assert(x == l);
                assert(x.len() > 0);
                assert(lines[lines.len() - 1] == x);
            }
        }
    }
}

/// Empty text deduplicates to no lines at all.
pub proof fn lemma_dedup_text_empty()
    ensures
        dedup_text(Seq::<char>::empty()).len() == 0,
{
    let e = Seq::<char>::empty();
    let ts = trimmed_segments(e);
    assert(line_segments(e) == seq![e]);
    assert(ts.len() == 1);
    assert(ts.last() == trim_spec(e));
    assert(trim_spec(e).len() == 0);
    assert(ts.drop_last() =~= Seq::<Seq<char>>::empty());
    assert(dedup_first(ts.drop_last()).len() == 0);
    assert(dedup_first(ts) == dedup_first(ts.drop_last()));
}

/// Law: deduplication is streaming and order-stable — over any prefix of the
/// input lines it yields a prefix of its final output, so later lines only
/// ever append to what earlier lines produced.
pub proof fn lemma_dedup_first_prefix(lines: Seq<Seq<char>>, k: int)
    requires
        0 <= k <= lines.len(),
    ensures
        dedup_first(lines.take(k)).is_prefix_of(dedup_first(lines)),
    decreases lines.len(),
{
    let d = dedup_first(lines);
    if k == lines.len() {
        assert(lines.take(k) =~= lines);
        assert(d.subrange(0, d.len() as int) =~= d);
    } else {
        let init = lines.drop_last();
        assert(lines.take(k) =~= init.take(k));
        lemma_dedup_first_prefix(init, k);
        let p = dedup_first(init.take(k));
        let di = dedup_first(init);
        assert(p =~= di.subrange(0, p.len() as int));
        if d == di.push(lines.last()) {
            assert(di.subrange(0, p.len() as int) =~= d.subrange(0, p.len() as int));
        } else {
            assert(d == di);
        }
    }
}

/// Deduplicating lines that are already pairwise distinct and nonempty
/// changes nothing.
pub proof fn lemma_dedup_first_identity(lines: Seq<Seq<char>>)
    requires
        forall|i: int| 0 <= i < lines.len() ==> (#[trigger] lines[i]).len() > 0,
        forall|i: int, j: int| 0 <= i < j < lines.len() ==> lines[i] != lines[j],
    ensures
        dedup_first(lines) == lines,
    decreases lines.len(),
{
    if lines.len() > 0 {
        let init = lines.drop_last();
        assert(forall|i: int| 0 <= i < init.len() ==> init[i] == lines[i]);
        lemma_dedup_first_identity(init);
        let l = lines.last();
        assert(lines[lines.len() - 1] == l);
        assert(!init.contains(l)) by {
            if init.contains(l) {
                let w = choose|i: int| 0 <= i < init.len() && init[i] == l;
                assert(lines[w] == lines[lines.len() - 1]);
            }
        }
        assert(init.push(l) =~= lines);
    }
}

/// Law: deduplication is idempotent — deduplicating the joined output of a
/// previous run reproduces that output, line for line.
pub proof fn lemma_dedup_idempotent(text: Seq<char>)
    ensures
        dedup_text(join_lines(dedup_text(text))) == dedup_text(text),
{
    let d = dedup_text(text);
    let ts = trimmed_segments(text);
    let segs = line_segments(text);
    lemma_dedup_first_unique(ts);
    if d.len() == 0 {
        lemma_dedup_text_empty();
        assert(join_lines(d) == Seq::<char>::empty());
        assert(dedup_text(join_lines(d)) =~= d);
    } else {
        assert forall|i: int| 0 <= i < d.len() implies !(#[trigger] d[i]).contains('\n') && (
        !is_blank(d[i][0]) && !is_blank(d[i].last())) by {
            assert(d.contains(d[i]));
            lemma_dedup_first_membership(ts, d[i]);
            let j = choose|k: int| 0 <= k < ts.len() && ts[k] == d[i];
            assert(ts[j] == trim_spec(segs[j]));
            lemma_line_segments_no_newline(text);
            assert(!segs[j].contains('\n'));
            lemma_trim_spec_chars(segs[j], '\n');
            lemma_trim_spec_clean(segs[j]);
        }
        lemma_line_segments_join(d);
        assert(trimmed_segments(join_lines(d)) =~= d) by {
            assert forall|i: int| 0 <= i < d.len() implies trimmed_segments(join_lines(d))[i]
                == d[i] by {
                assert(trimmed_segments(join_lines(d))[i] == trim_spec(d[i]));
                lemma_trim_clean_identity(d[i]);
            }
        }
        lemma_dedup_first_identity(d);
    }
}

/// Law: deduplication is deterministic. Its outcome is a function of the
/// decoded text alone, so two runs over the same text yield the same lines
/// and the same count, byte for byte.
pub proof fn lemma_dedup_deterministic(
    text: Seq<char>,
    lines1: Seq<Seq<char>>,
    count1: nat,
    lines2: Seq<Seq<char>>,
    count2: nat,
)
    requires
        lines1 == dedup_text(text),
        count1 == lines1.len(),
        lines2 == dedup_text(text),
        count2 == lines2.len(),
    ensures
        lines1 == lines2,
        count1 == count2,
{
}

} // verus!
