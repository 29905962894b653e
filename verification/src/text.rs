//! Character-level model of the string operations the library relies on:
//! whitespace trimming, line splitting, splitting on a separator, prefix
//! tests, ASCII case mapping, decimal integers.
//!
//! Every operation works on `Vec<char>` values and is tied to a spec
//! function over `Seq<char>`.
use vstd::prelude::*;

verus! {

// ---------------------------------------------------------------------
// Conversions between `str`/`String` and character vectors
// ---------------------------------------------------------------------

/// Copies the characters of `s` into a vector.
pub fn chars_of(s: &str) -> (v: Vec<char>)
    ensures
        v@ == s@,
{
    let mut v: Vec<char> = Vec::new();
    for c in it: s.chars()
        invariant
            v@ == it.seq().take(it.index() as int),
    {
        v.push(c);
    }
    v
}

/// Builds a `String` holding exactly the given characters
/// (`String::from_iter` over a `Vec<char>`, whose documented result is
/// the concatenation of the characters in order).
#[verifier::external_body]
pub(crate) fn string_of(v: Vec<char>) -> (s: String)
    ensures
        s@ == v@,
{
    String::from_iter(v)
}

/// Copies `v[lo..hi]` into a fresh vector.
pub fn copy_range(v: &Vec<char>, lo: usize, hi: usize) -> (r: Vec<char>)
    requires
        lo <= hi <= v@.len(),
    ensures
        r@ == v@.subrange(lo as int, hi as int),
{
    let mut r: Vec<char> = Vec::new();
    let mut i = lo;
    while i < hi
        invariant
            lo <= i <= hi <= v@.len(),
            r@ == v@.subrange(lo as int, i as int),
        decreases hi - i,
    {
        r.push(v[i]);
        proof {
            assert(r@ =~= v@.subrange(lo as int, i + 1));
        }
        i = i + 1;
    }
    r
}

/// Appends all characters of `src` to `dst`.
pub fn append_chars(dst: &mut Vec<char>, src: &Vec<char>)
    ensures
        final(dst)@ == old(dst)@ + src@,
{
    let mut i: usize = 0;
    while i < src.len()
        invariant
            i <= src@.len(),
            dst@ == old(dst)@ + src@.take(i as int),
        decreases src@.len() - i,
    {
        dst.push(src[i]);
        proof {
            assert(src@.take(i + 1) =~= src@.take(i as int).push(src@[i as int]));
            assert(dst@ =~= old(dst)@ + src@.take(i + 1));
        }
        i = i + 1;
    }
    proof {
        assert(src@.take(src@.len() as int) =~= src@);
    }
}

/// Equality of two character vectors.
pub fn chars_eq(a: &Vec<char>, b: &Vec<char>) -> (r: bool)
    ensures
        r == (a@ == b@),
{
    if a.len() != b.len() {
        return false;
    }
    let mut i: usize = 0;
    while i < a.len()
        invariant
            a@.len() == b@.len(),
            i <= a@.len(),
            forall|j: int| 0 <= j < i ==> a@[j] == b@[j],
        decreases a@.len() - i,
    {
        if a[i] != b[i] {
            return false;
        }
        i = i + 1;
    }
    proof {
        assert(a@ =~= b@);
    }
    true
}

// ---------------------------------------------------------------------
// Whitespace and trimming (`str::trim`, `str::trim_start`)
// ---------------------------------------------------------------------

/// The Unicode `White_Space` property, as used by `char::is_whitespace`.
pub open spec fn is_ws(c: char) -> bool {
    let n = c as u32;
    ||| 9 <= n <= 13
    ||| n == 32
    ||| n == 0x85
    ||| n == 0xA0
    ||| n == 0x1680
    ||| 0x2000 <= n <= 0x200A
    ||| n == 0x2028
    ||| n == 0x2029
    ||| n == 0x202F
    ||| n == 0x205F
    ||| n == 0x3000
}

pub fn is_whitespace(c: char) -> (r: bool)
    ensures
        r == is_ws(c),
{
    let n = c as u32;
    (9 <= n && n <= 13) || n == 32 || n == 0x85 || n == 0xA0 || n == 0x1680 || (0x2000 <= n
        && n <= 0x200A) || n == 0x2028 || n == 0x2029 || n == 0x202F || n == 0x205F || n == 0x3000
}

/// `s` without its leading whitespace.
pub open spec fn trim_start(s: Seq<char>) -> Seq<char>
    decreases s.len(),
{
    if s.len() > 0 && is_ws(s[0]) {
        trim_start(s.drop_first())
    } else {
        s
    }
}

/// `s` without its trailing whitespace.
pub open spec fn trim_end(s: Seq<char>) -> Seq<char>
    decreases s.len(),
{
    if s.len() > 0 && is_ws(s.last()) {
        trim_end(s.drop_last())
    } else {
        s
    }
}

/// `s` without leading and trailing whitespace.
pub open spec fn trim(s: Seq<char>) -> Seq<char> {
    trim_end(trim_start(s))
}

/// Index of the first character of `s` at or after `from` that is not
/// whitespace (or `s.len()`), with the fact that trimming the start of
/// `s.skip(from)` is `s.skip(result)`.
fn skip_ws(s: &Vec<char>, from: usize) -> (lo: usize)
    requires
        from <= s@.len(),
    ensures
        from <= lo <= s@.len(),
        trim_start(s@.skip(from as int)) == s@.skip(lo as int),
{
    let mut lo = from;
    while lo < s.len() && is_whitespace(s[lo])
        invariant
            from <= lo <= s@.len(),
            trim_start(s@.skip(from as int)) == trim_start(s@.skip(lo as int)),
        decreases s@.len() - lo,
    {
        proof {
            assert(s@.skip(lo as int).drop_first() =~= s@.skip(lo + 1));
        }
        lo = lo + 1;
    }
    proof {
        if lo < s@.len() {
            assert(s@.skip(lo as int)[0] == s@[lo as int]);
        } else {
            assert(s@.skip(lo as int).len() == 0);
        }
    }
    lo
}

/// `str::trim_start` on a character vector.
pub fn trim_start_chars(s: &Vec<char>) -> (r: Vec<char>)
    ensures
        r@ == trim_start(s@),
{
    let lo = skip_ws(s, 0);
    proof {
        assert(s@.skip(0) =~= s@);
        assert(s@.skip(lo as int) =~= s@.subrange(lo as int, s@.len() as int));
    }
    copy_range(s, lo, s.len())
}

/// `str::trim` on a character vector.
pub fn trim_chars(s: &Vec<char>) -> (r: Vec<char>)
    ensures
        r@ == trim(s@),
{
    let lo = skip_ws(s, 0);
    proof {
        assert(s@.skip(0) =~= s@);
        assert(s@.skip(lo as int) =~= s@.subrange(lo as int, s@.len() as int));
    }
    let mut hi = s.len();
    while hi > lo && is_whitespace(s[hi - 1])
        invariant
            lo <= hi <= s@.len(),
            trim(s@) == trim_end(s@.subrange(lo as int, hi as int)),
        decreases hi,
    {
        proof {
            assert(s@.subrange(lo as int, hi as int).drop_last() =~= s@.subrange(
                lo as int,
                hi - 1,
            ));
        }
        hi = hi - 1;
    }
    copy_range(s, lo, hi)
}

// ---------------------------------------------------------------------
// Prefixes and suffixes
// ---------------------------------------------------------------------

/// `s` starts with `p` (`str::starts_with`).
pub open spec fn has_prefix(s: Seq<char>, p: Seq<char>) -> bool {
    p.len() <= s.len() && s.take(p.len() as int) == p
}

/// `s` ends with `p` (`str::ends_with`).
pub open spec fn has_suffix(s: Seq<char>, p: Seq<char>) -> bool {
    p.len() <= s.len() && s.skip(s.len() - p.len()) == p
}

pub fn starts_with(s: &Vec<char>, p: &Vec<char>) -> (r: bool)
    ensures
        r == has_prefix(s@, p@),
{
    if p.len() > s.len() {
        return false;
    }
    let mut i: usize = 0;
    while i < p.len()
        invariant
            p@.len() <= s@.len(),
            i <= p@.len(),
            forall|j: int| 0 <= j < i ==> s@[j] == p@[j],
        decreases p@.len() - i,
    {
        if s[i] != p[i] {
            proof {
                assert(s@.take(p@.len() as int)[i as int] != p@[i as int]);
            }
            return false;
        }
        i = i + 1;
    }
    proof {
        assert(s@.take(p@.len() as int) =~= p@);
    }
    true
}

pub fn ends_with(s: &Vec<char>, p: &Vec<char>) -> (r: bool)
    ensures
        r == has_suffix(s@, p@),
{
    if p.len() > s.len() {
        return false;
    }
    let n = s.len();
    let off = n - p.len();
    let mut i: usize = 0;
    while i < p.len()
        invariant
            n == s@.len(),
            p@.len() <= s@.len(),
            off == s@.len() - p@.len(),
            off + p@.len() == s@.len(),
            i <= p@.len(),
            forall|j: int| 0 <= j < i ==> s@[off + j] == p@[j],
        decreases p@.len() - i,
    {
        if s[off + i] != p[i] {
            proof {
                assert(s@.skip(off as int)[i as int] != p@[i as int]);
            }
            return false;
        }
        i = i + 1;
    }
    proof {
        assert(s@.skip(off as int) =~= p@);
    }
    true
}

/// `s` starts with the character `c`.
pub open spec fn starts_with_char(s: Seq<char>, c: char) -> bool {
    s.len() > 0 && s[0] == c
}

/// `s` ends with the character `c`.
pub open spec fn ends_with_char(s: Seq<char>, c: char) -> bool {
    s.len() > 0 && s.last() == c
}

/// `s` contains the character `c`.
pub open spec fn has_char(s: Seq<char>, c: char) -> bool {
    exists|i: int| 0 <= i < s.len() && s[i] == c
}

/// `s` with every trailing `c` removed (`str::trim_end_matches` with a
/// character pattern).
pub open spec fn trim_end_char(s: Seq<char>, c: char) -> Seq<char>
    decreases s.len(),
{
    if s.len() > 0 && s.last() == c {
        trim_end_char(s.drop_last(), c)
    } else {
        s
    }
}

pub fn trim_end_matching(s: &Vec<char>, c: char) -> (r: Vec<char>)
    ensures
        r@ == trim_end_char(s@, c),
{
    let mut hi = s.len();
    proof {
        assert(s@.take(hi as int) =~= s@);
    }
    while hi > 0 && s[hi - 1] == c
        invariant
            hi <= s@.len(),
            trim_end_char(s@, c) == trim_end_char(s@.take(hi as int), c),
        decreases hi,
    {
        proof {
            assert(s@.take(hi as int).drop_last() =~= s@.take(hi - 1));
        }
        hi = hi - 1;
    }
    proof {
        assert(s@.take(hi as int) =~= s@.subrange(0, hi as int));
    }
    copy_range(s, 0, hi)
}

// ---------------------------------------------------------------------
// ASCII case mapping
// ---------------------------------------------------------------------

/// `char::to_ascii_uppercase`.
pub open spec fn upper(c: char) -> char {
    if 'a' <= c && c <= 'z' {
        ((c as u32) - 32) as char
    } else {
        c
    }
}

pub fn to_upper(c: char) -> (r: char)
    ensures
        r == upper(c),
{
    if 'a' <= c && c <= 'z' {
        let n = c as u8;
        (n - 32) as char
    } else {
        c
    }
}

/// `str::to_ascii_uppercase`.
pub open spec fn upper_all(s: Seq<char>) -> Seq<char> {
    s.map_values(|c: char| upper(c))
}

pub fn to_upper_all(s: &Vec<char>) -> (r: Vec<char>)
    ensures
        r@ == upper_all(s@),
{
    let mut r: Vec<char> = Vec::new();
    let mut i: usize = 0;
    while i < s.len()
        invariant
            i <= s@.len(),
            r@ == upper_all(s@.take(i as int)),
        decreases s@.len() - i,
    {
        r.push(to_upper(s[i]));
        proof {
            assert(upper_all(s@.take(i + 1)) =~= upper_all(s@.take(i as int)).push(upper(s@[i as int])));
        }
        i = i + 1;
    }
    proof {
        assert(s@.take(s@.len() as int) =~= s@);
    }
    r
}

/// `char::eq_ignore_ascii_case` lifted to strings.
pub open spec fn eq_ignore_case(a: Seq<char>, b: Seq<char>) -> bool {
    upper_all(a) == upper_all(b)
}

// ---------------------------------------------------------------------
// Line splitting (`str::lines`)
// ---------------------------------------------------------------------

/// A line without the `'\r'` of a `"\r\n"` terminator.
pub open spec fn strip_cr(l: Seq<char>) -> Seq<char> {
    if l.len() > 0 && l.last() == '\r' {
        l.drop_last()
    } else {
        l
    }
}

/// Lines completed so far and the partial line, after reading `s`.
pub open spec fn line_scan(s: Seq<char>) -> (Seq<Seq<char>>, Seq<char>)
    decreases s.len(),
{
    if s.len() == 0 {
        (seq![], seq![])
    } else {
        let (done, cur) = line_scan(s.drop_last());
        if s.last() == '\n' {
            (done.push(strip_cr(cur)), seq![])
        } else {
            (done, cur.push(s.last()))
        }
    }
}

/// The lines of `s` as `str::lines` yields them: split at `'\n'`, a
/// `'\r'` right before a `'\n'` dropped, no empty line after a final
/// terminator.
pub open spec fn lines_of(s: Seq<char>) -> Seq<Seq<char>> {
    let (done, cur) = line_scan(s);
    if cur.len() == 0 {
        done
    } else {
        done.push(cur)
    }
}

/// The character views of a vector of character vectors.
pub open spec fn views(v: Seq<Vec<char>>) -> Seq<Seq<char>> {
    v.map_values(|x: Vec<char>| x@)
}

pub fn split_lines(s: &Vec<char>) -> (r: Vec<Vec<char>>)
    ensures
        views(r@) == lines_of(s@),
{
    let mut done: Vec<Vec<char>> = Vec::new();
    let mut cur: Vec<char> = Vec::new();
    let mut i: usize = 0;
    while i < s.len()
        invariant
            i <= s@.len(),
            line_scan(s@.take(i as int)) == (views(done@), cur@),
        decreases s@.len() - i,
    {
        proof {
            assert(s@.take(i + 1).drop_last() =~= s@.take(i as int));
        }
        let c = s[i];
        if c == '\n' {
            let line = if cur.len() > 0 && cur[cur.len() - 1] == '\r' {
                copy_range(&cur, 0, cur.len() - 1)
            } else {
                copy_range(&cur, 0, cur.len())
            };
            proof {
                assert(cur@.subrange(0, cur@.len() as int) =~= cur@);
                assert(cur@.subrange(0, cur@.len() - 1) =~= cur@.drop_last());
            }
            let ghost old_done = done@;
            done.push(line);
            cur = Vec::new();
            proof {
                assert(views(done@) =~= views(old_done).push(line@));
            }
        } else {
            cur.push(c);
        }
        i = i + 1;
    }
    proof {
        assert(s@.take(s@.len() as int) =~= s@);
    }
    if cur.len() > 0 {
        let ghost old_done = done@;
        done.push(cur);
        proof {
            assert(views(done@) =~= views(old_done).push(cur@));
        }
    }
    done
}

// ---------------------------------------------------------------------
// Lines with their own terminators
// ---------------------------------------------------------------------

/// Segments completed so far and the current one, after reading `s`.
pub open spec fn segment_scan(s: Seq<char>) -> (Seq<Seq<char>>, Seq<char>)
    decreases s.len(),
{
    if s.len() == 0 {
        (seq![], seq![])
    } else {
        let (done, cur) = segment_scan(s.drop_last());
        if s.last() == '\n' {
            (done.push(cur.push('\n')), seq![])
        } else {
            (done, cur.push(s.last()))
        }
    }
}

/// The lines of `s`, each with its own terminator (`"\n"` or `"\r\n"`)
/// kept; the last one has none when `s` does not end with `'\n'`.
pub open spec fn segments_of(s: Seq<char>) -> Seq<Seq<char>> {
    let (done, cur) = segment_scan(s);
    if cur.len() == 0 {
        done
    } else {
        done.push(cur)
    }
}

/// The concatenation of `ls`.
pub open spec fn concat_all(ls: Seq<Seq<char>>) -> Seq<char>
    decreases ls.len(),
{
    if ls.len() == 0 {
        seq![]
    } else {
        concat_all(ls.drop_last()) + ls.last()
    }
}

/// Well-formed segments: none is empty, each holds `'\n'` at most as its
/// last character, and all but the last end with `'\n'`.
pub open spec fn segments_ok(ls: Seq<Seq<char>>) -> bool {
    forall|i: int|
        0 <= i < ls.len() ==> {
            &&& (#[trigger] ls[i]).len() > 0
            &&& !has_char(ls[i].drop_last(), '\n')
            &&& (i < ls.len() - 1 ==> ls[i].last() == '\n')
        }
}

pub fn split_segments(s: &Vec<char>) -> (r: Vec<Vec<char>>)
    ensures
        views(r@) == segments_of(s@),
{
    let mut done: Vec<Vec<char>> = Vec::new();
    let mut cur: Vec<char> = Vec::new();
    let mut i: usize = 0;
    while i < s.len()
        invariant
            i <= s@.len(),
            segment_scan(s@.take(i as int)) == (views(done@), cur@),
        decreases s@.len() - i,
    {
        proof {
            assert(s@.take(i + 1).drop_last() =~= s@.take(i as int));
        }
        let c = s[i];
        cur.push(c);
        if c == '\n' {
            let ghost old_done = done@;
            done.push(cur);
            cur = Vec::new();
            proof {
                assert(views(done@) =~= views(old_done).push(done@.last()@));
            }
        }
        i = i + 1;
    }
    proof {
        assert(s@.take(s@.len() as int) =~= s@);
    }
    if cur.len() > 0 {
        let ghost old_done = done@;
        done.push(cur);
        proof {
            assert(views(done@) =~= views(old_done).push(cur@));
        }
    }
    done
}

proof fn lemma_segment_scan_concat(s: Seq<char>)
    ensures
        concat_all(segment_scan(s).0) + segment_scan(s).1 == s,
        forall|i: int|
            0 <= i < segment_scan(s).0.len() ==> (#[trigger] segment_scan(s).0[i]).len() > 0
                && segment_scan(s).0[i].last() == '\n' && !has_char(
                segment_scan(s).0[i].drop_last(),
                '\n',
            ),
        !has_char(segment_scan(s).1, '\n'),
    decreases s.len(),
{
    if s.len() == 0 {
        assert(concat_all(Seq::<Seq<char>>::empty()) + Seq::<char>::empty() =~= s);
    } else {
        lemma_segment_scan_concat(s.drop_last());
        let (done, cur) = segment_scan(s.drop_last());
        let c = s.last();
        assert(s =~= s.drop_last().push(c));
        if c == '\n' {
            let seg = cur.push('\n');
            let d2 = done.push(seg);
            assert(d2.drop_last() =~= done);
            assert(concat_all(d2) + Seq::<char>::empty() =~= concat_all(done) + cur + seq![c]);
            assert(seg.drop_last() =~= cur);
            assert forall|i: int| 0 <= i < d2.len() implies (#[trigger] d2[i]).len() > 0
                && d2[i].last() == '\n' && !has_char(d2[i].drop_last(), '\n') by {
                if i < done.len() {
                    assert(d2[i] == done[i]);
                }
            }
        } else {
            let c2 = cur.push(c);
            assert(concat_all(done) + c2 =~= concat_all(done) + cur + seq![c]);
            assert(!has_char(c2, '\n')) by {
                if has_char(c2, '\n') {
                    let j = choose|j: int| 0 <= j < c2.len() && c2[j] == '\n';
                    if j < cur.len() {
                        assert(cur[j] == '\n');
                    }
                }
            }
        }
    }
}

/// Joining the segments of a text gives the text back, and they are
/// well formed.
pub proof fn lemma_segments_concat(s: Seq<char>)
    ensures
        concat_all(segments_of(s)) == s,
        segments_ok(segments_of(s)),
{
    lemma_segment_scan_concat(s);
    let (done, cur) = segment_scan(s);
    let l = segments_of(s);
    if cur.len() == 0 {
        assert(concat_all(done) + cur =~= concat_all(done));
    } else {
        assert(l.drop_last() =~= done);
        assert(cur.drop_last() =~= cur.subrange(0, cur.len() - 1));
        assert(!has_char(cur.drop_last(), '\n')) by {
            if has_char(cur.drop_last(), '\n') {
                let j = choose|j: int| 0 <= j < cur.drop_last().len() && cur.drop_last()[j] == '\n';
                assert(cur[j] == '\n');
            }
        }
    }
    assert forall|i: int| 0 <= i < l.len() implies {
        &&& (#[trigger] l[i]).len() > 0
        &&& !has_char(l[i].drop_last(), '\n')
        &&& (i < l.len() - 1 ==> l[i].last() == '\n')
    } by {
        if i < done.len() {
            assert(l[i] == done[i]);
        }
    }
}

proof fn lemma_segment_scan_append(a: Seq<char>, b: Seq<char>)
    requires
        !has_char(b, '\n'),
    ensures
        segment_scan(a + b) == (segment_scan(a).0, segment_scan(a).1 + b),
    decreases b.len(),
{
    if b.len() == 0 {
        assert(a + b =~= a);
        assert(segment_scan(a).1 + b =~= segment_scan(a).1);
    } else {
        let b2 = b.drop_last();
        assert(!has_char(b2, '\n')) by {
            if has_char(b2, '\n') {
                let j = choose|j: int| 0 <= j < b2.len() && b2[j] == '\n';
                assert(b[j] == '\n');
            }
        }
        lemma_segment_scan_append(a, b2);
        assert((a + b).drop_last() =~= a + b2);
        assert(b.last() != '\n') by {
            assert(b[b.len() - 1] == b.last());
        }
        assert((segment_scan(a).1 + b2).push(b.last()) =~= segment_scan(a).1 + b);
    }
}

/// Splitting the concatenation of well-formed segments gives them back.
pub proof fn lemma_segments_of_concat(k: Seq<Seq<char>>)
    requires
        segments_ok(k),
    ensures
        segments_of(concat_all(k)) == k,
{
    if k.len() > 0 {
        let last = k.last();
        let k2 = k.drop_last();
        assert(segment_scan(concat_all(k2)) == (k2, Seq::<char>::empty())) by {
            lemma_segment_scan_done(k2);
        }
        assert(last == k[k.len() - 1]);
        if last.last() == '\n' {
            let body = last.drop_last();
            lemma_segment_scan_append(concat_all(k2), body);
            assert(Seq::<char>::empty() + body =~= body);
            assert(concat_all(k) =~= (concat_all(k2) + body).push('\n'));
            assert((concat_all(k2) + body).push('\n').drop_last() =~= concat_all(k2) + body);
            assert(body.push('\n') =~= last);
            assert(k2.push(last) =~= k);
        } else {
            assert(!has_char(last, '\n')) by {
                if has_char(last, '\n') {
                    let j = choose|j: int| 0 <= j < last.len() && last[j] == '\n';
                    if j < last.len() - 1 {
                        assert(last.drop_last()[j] == '\n');
                    }
                }
            }
            lemma_segment_scan_append(concat_all(k2), last);
            assert(Seq::<char>::empty() + last =~= last);
            assert(k2.push(last) =~= k);
        }
    } else {
        assert(segment_scan(concat_all(k)).0 =~= k);
    }
}

proof fn lemma_segment_scan_done(k: Seq<Seq<char>>)
    requires
        forall|i: int|
            0 <= i < k.len() ==> (#[trigger] k[i]).len() > 0 && k[i].last() == '\n' && !has_char(
                k[i].drop_last(),
                '\n',
            ),
    ensures
        segment_scan(concat_all(k)) == (k, Seq::<char>::empty()),
    decreases k.len(),
{
    if k.len() == 0 {
        assert(segment_scan(concat_all(k)).0 =~= k);
    } else {
        let last = k.last();
        let k2 = k.drop_last();
        assert forall|i: int| 0 <= i < k2.len() implies (#[trigger] k2[i]).len() > 0
            && k2[i].last() == '\n' && !has_char(k2[i].drop_last(), '\n') by {
            assert(k2[i] == k[i]);
        }
        lemma_segment_scan_done(k2);
        assert(last == k[k.len() - 1]);
        let body = last.drop_last();
        lemma_segment_scan_append(concat_all(k2), body);
        assert(Seq::<char>::empty() + body =~= body);
        assert(concat_all(k) =~= (concat_all(k2) + body).push('\n'));
        assert((concat_all(k2) + body).push('\n').drop_last() =~= concat_all(k2) + body);
        assert(body.push('\n') =~= last);
        assert(k2.push(last) =~= k);
    }
}

// ---------------------------------------------------------------------
// Splitting on a separator (`str::split` with a character pattern)
// ---------------------------------------------------------------------

/// Pieces completed so far and the current piece, after reading `s`.
pub open spec fn split_scan(s: Seq<char>, sep: char) -> (Seq<Seq<char>>, Seq<char>)
    decreases s.len(),
{
    if s.len() == 0 {
        (seq![], seq![])
    } else {
        let (done, cur) = split_scan(s.drop_last(), sep);
        if s.last() == sep {
            (done.push(cur), seq![])
        } else {
            (done, cur.push(s.last()))
        }
    }
}

/// The pieces of `s` between occurrences of `sep`, as `str::split`
/// yields them (an empty string has one empty piece).
pub open spec fn split_on(s: Seq<char>, sep: char) -> Seq<Seq<char>> {
    let (done, cur) = split_scan(s, sep);
    done.push(cur)
}

pub fn split_chars(s: &Vec<char>, sep: char) -> (r: Vec<Vec<char>>)
    ensures
        views(r@) == split_on(s@, sep),
{
    let mut done: Vec<Vec<char>> = Vec::new();
    let mut cur: Vec<char> = Vec::new();
    let mut i: usize = 0;
    while i < s.len()
        invariant
            i <= s@.len(),
            split_scan(s@.take(i as int), sep) == (views(done@), cur@),
        decreases s@.len() - i,
    {
        proof {
            assert(s@.take(i + 1).drop_last() =~= s@.take(i as int));
        }
        let c = s[i];
        if c == sep {
            let ghost old_done = done@;
            let piece = copy_range(&cur, 0, cur.len());
            proof {
                assert(cur@.subrange(0, cur@.len() as int) =~= cur@);
            }
            done.push(piece);
            cur = Vec::new();
            proof {
                assert(views(done@) =~= views(old_done).push(piece@));
            }
        } else {
            cur.push(c);
        }
        i = i + 1;
    }
    proof {
        assert(s@.take(s@.len() as int) =~= s@);
    }
    let ghost old_done = done@;
    done.push(cur);
    proof {
        assert(views(done@) =~= views(old_done).push(cur@));
    }
    done
}

// ---------------------------------------------------------------------
// Quoted key/value lines (`"key"  "value"`)
// ---------------------------------------------------------------------

/// The value of a `"key"  "value"` line: the text between the third and
/// the fourth double quote (or the end of the line), when the line holds
/// at least three double quotes.
pub open spec fn kv_value(line: Seq<char>) -> Option<Seq<char>> {
    let parts = split_on(line, '"');
    if parts.len() >= 4 {
        Some(parts[3])
    } else {
        None
    }
}

proof fn lemma_split_scan_append(a: Seq<char>, b: Seq<char>, sep: char)
    requires
        !has_char(b, sep),
    ensures
        split_scan(a + b, sep) == (split_scan(a, sep).0, split_scan(a, sep).1 + b),
    decreases b.len(),
{
    if b.len() == 0 {
        assert(a + b =~= a);
        assert(split_scan(a, sep).1 + b =~= split_scan(a, sep).1);
    } else {
        let b2 = b.drop_last();
        assert(!has_char(b2, sep)) by {
            if has_char(b2, sep) {
                let j = choose|j: int| 0 <= j < b2.len() && b2[j] == sep;
                assert(b[j] == sep);
            }
        }
        lemma_split_scan_append(a, b2, sep);
        assert((a + b).drop_last() =~= a + b2);
        assert(b.last() != sep) by {
            assert(b[b.len() - 1] == b.last());
        }
        assert((split_scan(a, sep).1 + b2).push(b.last()) =~= split_scan(a, sep).1 + b);
    }
}

proof fn lemma_split_scan_sep(a: Seq<char>, sep: char)
    ensures
        split_scan(a.push(sep), sep) == (
            split_scan(a, sep).0.push(split_scan(a, sep).1),
            Seq::<char>::empty(),
        ),
{
    assert(a.push(sep).drop_last() =~= a);
}

/// The value of a line `"<key>"<gap>"<value>"` whose key, gap and value
/// hold no double quote is that value.
pub proof fn lemma_kv_value_of_pair(key: Seq<char>, gap: Seq<char>, value: Seq<char>)
    requires
        !has_char(key, '"'),
        !has_char(gap, '"'),
        !has_char(value, '"'),
    ensures
        kv_value(seq!['"'] + key + seq!['"'] + gap + seq!['"'] + value + seq!['"']) == Some(value),
{
    let q = '"';
    let e = Seq::<char>::empty();
    let s1 = e.push(q);
    lemma_split_scan_sep(e, q);
    assert(split_scan(e, q) == (Seq::<Seq<char>>::empty(), e));
    let s2 = s1 + key;
    lemma_split_scan_append(s1, key, q);
    let s3 = s2.push(q);
    lemma_split_scan_sep(s2, q);
    let s4 = s3 + gap;
    lemma_split_scan_append(s3, gap, q);
    let s5 = s4.push(q);
    lemma_split_scan_sep(s4, q);
    let s6 = s5 + value;
    lemma_split_scan_append(s5, value, q);
    let s7 = s6.push(q);
    lemma_split_scan_sep(s6, q);
    assert(s7 =~= seq!['"'] + key + seq!['"'] + gap + seq!['"'] + value + seq!['"']);
    assert(e + key =~= key);
    assert(e + gap =~= gap);
    assert(e + value =~= value);
    let parts = split_on(s7, q);
    assert(parts.len() == 5);
    assert(parts[3] == value);
}

pub proof fn lemma_trim_start_blank(w: Seq<char>, s: Seq<char>)
    requires
        forall|i: int| 0 <= i < w.len() ==> is_ws(#[trigger] w[i]),
    ensures
        trim_start(w + s) == trim_start(s),
    decreases w.len(),
{
    if w.len() > 0 {
        assert((w + s)[0] == w[0]);
        assert((w + s).drop_first() =~= w.drop_first() + s);
        assert forall|i: int| 0 <= i < w.drop_first().len() implies is_ws(#[trigger] w.drop_first()[i]) by {
            assert(w.drop_first()[i] == w[i + 1]);
        }
        lemma_trim_start_blank(w.drop_first(), s);
    } else {
        assert(w + s =~= s);
    }
}

proof fn lemma_trim_end_blank(s: Seq<char>, w: Seq<char>)
    requires
        forall|i: int| 0 <= i < w.len() ==> is_ws(#[trigger] w[i]),
    ensures
        trim_end(s + w) == trim_end(s),
    decreases w.len(),
{
    if w.len() > 0 {
        assert((s + w).last() == w.last());
        assert(is_ws(w[w.len() - 1]));
        assert((s + w).drop_last() =~= s + w.drop_last());
        assert forall|i: int| 0 <= i < w.drop_last().len() implies is_ws(#[trigger] w.drop_last()[i]) by {
            assert(w.drop_last()[i] == w[i]);
        }
        lemma_trim_end_blank(s, w.drop_last());
    } else {
        assert(s + w =~= s);
    }
}

/// Trimming blanks around a text that starts and ends with non-blanks
/// gives that text.
pub proof fn lemma_trim_around(w1: Seq<char>, core: Seq<char>, w2: Seq<char>)
    requires
        forall|i: int| 0 <= i < w1.len() ==> is_ws(#[trigger] w1[i]),
        forall|i: int| 0 <= i < w2.len() ==> is_ws(#[trigger] w2[i]),
        core.len() > 0,
        !is_ws(core[0]),
        !is_ws(core.last()),
    ensures
        trim(w1 + core + w2) == core,
{
    assert(w1 + core + w2 =~= w1 + (core + w2));
    lemma_trim_start_blank(w1, core + w2);
    assert((core + w2)[0] == core[0]);
    assert(trim_start(core + w2) == core + w2);
    lemma_trim_end_blank(core, w2);
    assert(trim_end(core) == core);
}

/// `has_char` over a concatenation.
pub proof fn lemma_has_char_concat(a: Seq<char>, b: Seq<char>, c: char)
    ensures
        has_char(a + b, c) <==> (has_char(a, c) || has_char(b, c)),
{
    if has_char(a + b, c) {
        let i = choose|i: int| 0 <= i < (a + b).len() && (a + b)[i] == c;
        if i >= a.len() {
            assert(b[i - a.len()] == c);
        }
    }
    if has_char(a, c) {
        let i = choose|i: int| 0 <= i < a.len() && a[i] == c;
        assert((a + b)[i] == c);
    }
    if has_char(b, c) {
        let i = choose|i: int| 0 <= i < b.len() && b[i] == c;
        assert((a + b)[a.len() + i] == c);
    }
}

pub fn kv_value_chars(line: &Vec<char>) -> (r: Option<Vec<char>>)
    ensures
        r matches Some(v) ==> kv_value(line@) == Some(v@),
        r is None ==> kv_value(line@) is None,
{
    let parts = split_chars(line, '"');
    if parts.len() >= 4 {
        let v = copy_range(&parts[3], 0, parts[3].len());
        proof {
            assert(v@ =~= parts@[3]@);
            assert(views(parts@)[3] == parts@[3]@);
        }
        Some(v)
    } else {
        None
    }
}

// ---------------------------------------------------------------------
// Decimal integers (`u32::from_str`, `u64::to_string`)
// ---------------------------------------------------------------------

pub open spec fn is_digit(c: char) -> bool {
    '0' <= c && c <= '9'
}

pub open spec fn digit_value(c: char) -> nat {
    ((c as u32) - 48) as nat
}

/// Value of a string of decimal digits.
pub open spec fn decimal_value(s: Seq<char>) -> nat
    decreases s.len(),
{
    if s.len() == 0 {
        0
    } else {
        decimal_value(s.drop_last()) * 10 + digit_value(s.last())
    }
}

/// The digits of a `u32` literal: `s` without one leading `'+'`.
pub open spec fn u32_digits(s: Seq<char>) -> Seq<char> {
    if s.len() > 0 && s[0] == '+' {
        s.drop_first()
    } else {
        s
    }
}

/// `s` is accepted by `u32::from_str`: an optional `'+'`, then at least
/// one ASCII digit, with a value that fits in 32 bits.
pub open spec fn parses_as_u32(s: Seq<char>) -> bool {
    let d = u32_digits(s);
    &&& d.len() > 0
    &&& forall|i: int| 0 <= i < d.len() ==> is_digit(#[trigger] d[i])
    &&& decimal_value(d) <= u32::MAX
}

proof fn lemma_decimal_value_grows(s: Seq<char>, t: Seq<char>)
    requires
        forall|i: int| 0 <= i < t.len() ==> is_digit(#[trigger] t[i]),
    ensures
        decimal_value(s + t) >= decimal_value(s),
    decreases t.len(),
{
    if t.len() > 0 {
        let t2 = t.drop_last();
        assert((s + t).drop_last() =~= s + t2);
        assert forall|i: int| 0 <= i < t2.len() implies is_digit(#[trigger] t2[i]) by {
            assert(t2[i] == t[i]);
        }
        lemma_decimal_value_grows(s, t2);
    } else {
        assert(s + t =~= s);
    }
}

pub fn parses_u32(s: &Vec<char>) -> (r: bool)
    ensures
        r == parses_as_u32(s@),
{
    let start: usize = if s.len() > 0 && s[0] == '+' {
        1
    } else {
        0
    };
    let ghost d = u32_digits(s@);
    proof {
        assert(d =~= s@.skip(start as int));
    }
    if start == s.len() {
        return false;
    }
    let mut value: u64 = 0;
    let mut i = start;
    while i < s.len()
        invariant
            start <= i <= s@.len(),
            d == s@.skip(start as int),
            d == u32_digits(s@),
            forall|j: int| start <= j < i ==> is_digit(#[trigger] s@[j]),
            value == decimal_value(s@.subrange(start as int, i as int)),
            value <= u32::MAX,
        decreases s@.len() - i,
    {
        let c = s[i];
        if !('0' <= c && c <= '9') {
            proof {
                assert(d[i - start] == c);
                assert(!is_digit(d[i - start]));
            }
            return false;
        }
        proof {
            assert(s@.subrange(start as int, i + 1).drop_last() =~= s@.subrange(
                start as int,
                i as int,
            ));
        }
        let dv = (c as u32 - 48) as u64;
        value = value * 10 + dv;
        if value > 0xFFFF_FFFF {
            proof {
                let p = s@.subrange(start as int, i + 1);
                let rest = s@.subrange(i + 1, s@.len() as int);
                assert(d =~= p + rest);
                if forall|j: int| 0 <= j < d.len() ==> is_digit(#[trigger] d[j]) {
                    assert forall|k: int| 0 <= k < rest.len() implies is_digit(
                        #[trigger] rest[k],
                    ) by {
                        assert(rest[k] == d[(i + 1 - start) + k]);
                        assert(is_digit(d[(i + 1 - start) + k]));
                    }
                    lemma_decimal_value_grows(p, rest);
                }
            }
            return false;
        }
        i = i + 1;
    }
    proof {
        assert(s@.subrange(start as int, s@.len() as int) =~= d);
        assert forall|j: int| 0 <= j < d.len() implies is_digit(#[trigger] d[j]) by {
            assert(d[j] == s@[start + j]);
        }
    }
    true
}

/// The decimal digit for `d < 10`.
pub open spec fn digit_char(d: nat) -> char {
    (48 + d) as char
}

/// Decimal rendering of `n` without leading zeros (`u64::to_string`).
pub open spec fn decimal(n: nat) -> Seq<char>
    decreases n,
{
    if n < 10 {
        seq![digit_char(n)]
    } else {
        decimal(n / 10).push(digit_char(n % 10))
    }
}

/// Appends the decimal rendering of `n` to `out`.
pub fn push_decimal(n: u64, out: &mut Vec<char>)
    ensures
        final(out)@ == old(out)@ + decimal(n as nat),
    decreases n,
{
    if n >= 10 {
        push_decimal(n / 10, out);
    }
    let d = (n % 10) as u8;
    out.push((d + 48) as char);
    proof {
        if n >= 10 {
            assert(final(out)@ =~= old(out)@ + decimal(n as nat));
        } else {
            assert(final(out)@ =~= old(out)@ + decimal(n as nat));
        }
    }
}

/// `u64::to_string`.
pub fn decimal_string(n: u64) -> (s: String)
    ensures
        s@ == decimal(n as nat),
{
    let mut v: Vec<char> = Vec::new();
    push_decimal(n, &mut v);
    proof {
        assert(v@ =~= decimal(n as nat));
    }
    string_of(v)
}

// ---------------------------------------------------------------------
// Facts about trimming
// ---------------------------------------------------------------------

proof fn lemma_trim_start_head(s: Seq<char>)
    ensures
        trim_start(s).len() == 0 || !is_ws(trim_start(s)[0]),
        trim_start(trim_start(s)) == trim_start(s),
    decreases s.len(),
{
    if s.len() > 0 && is_ws(s[0]) {
        lemma_trim_start_head(s.drop_first());
    }
}

proof fn lemma_trim_end_prefix(s: Seq<char>)
    ensures
        trim_end(s).len() <= s.len(),
        trim_end(s) == s.take(trim_end(s).len() as int),
        trim_end(s).len() == 0 || !is_ws(trim_end(s).last()),
        trim_end(trim_end(s)) == trim_end(s),
    decreases s.len(),
{
    if s.len() > 0 && is_ws(s.last()) {
        lemma_trim_end_prefix(s.drop_last());
        let t = trim_end(s.drop_last());
        assert(s.drop_last().take(t.len() as int) =~= s.take(t.len() as int));
    } else {
        assert(s.take(s.len() as int) =~= s);
    }
}

/// Trimming twice is trimming once.
pub proof fn lemma_trim_idempotent(s: Seq<char>)
    ensures
        trim(trim(s)) == trim(s),
{
    let a = trim_start(s);
    lemma_trim_start_head(s);
    lemma_trim_end_prefix(a);
    let b = trim_end(a);
    // `b` is a prefix of `a`, so it starts with a non-blank (or is empty)
    if b.len() > 0 {
        assert(b[0] == a[0]);
    }
    assert(trim_start(b) == b);
}

} // verus!
