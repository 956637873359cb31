//! Verified text utilities: the directive marker grammar, whitespace
//! trimming, whitespace splitting and physical-line splitting.

use vstd::prelude::*;

verus! {

/// Characters a directive keyword is drawn from: uppercase ASCII letters
/// and `-`.
pub open spec fn is_marker_char(c: char) -> bool {
    c == '-' || ('A' <= c && c <= 'Z')
}

/// The characters `trim` and whitespace splitting remove: the Unicode
/// `White_Space` set.
pub open spec fn is_space(c: char) -> bool {
    ||| c == ' '
    ||| c == '\t'
    ||| c == '\n'
    ||| c == '\u{b}'
    ||| c == '\u{c}'
    ||| c == '\r'
    ||| c == '\u{85}'
    ||| c == '\u{a0}'
    ||| c == '\u{1680}'
    ||| ('\u{2000}' <= c && c <= '\u{200a}')
    ||| c == '\u{2028}'
    ||| c == '\u{2029}'
    ||| c == '\u{202f}'
    ||| c == '\u{205f}'
    ||| c == '\u{3000}'
}

/// A directive marker `KEYWORD:` stands in `s` at position `i` with keyword
/// length `k`: `k >= 1` keyword characters, then a colon.
pub open spec fn marker_at(s: Seq<char>, i: int, k: int) -> bool {
    &&& 0 <= i
    &&& 1 <= k
    &&& i + k < s.len()
    &&& forall|j: int| i <= j < i + k ==> is_marker_char(#[trigger] s[j])
    &&& s[i + k] == ':'
}

/// Some marker starts at position `i` of `s`.
pub open spec fn starts_marker(s: Seq<char>, i: int) -> bool {
    exists|k: int| marker_at(s, i, k)
}

/// The line contains a directive marker somewhere.
pub open spec fn has_marker(s: Seq<char>) -> bool {
    exists|i: int| starts_marker(s, i)
}

/// First position at or after `i` where a marker starts; `s.len()` if none.
pub open spec fn marker_start_from(s: Seq<char>, i: int) -> int
    decreases s.len() - i,
{
    if i < 0 || i >= s.len() {
        s.len() as int
    } else if starts_marker(s, i) {
        i
    } else {
        marker_start_from(s, i + 1)
    }
}

/// Position of the leftmost marker of `s`.
pub open spec fn marker_start(s: Seq<char>) -> int {
    marker_start_from(s, 0)
}

/// Length of the run of keyword characters starting at `i`.
pub open spec fn marker_run_from(s: Seq<char>, i: int) -> int
    decreases s.len() - i,
{
    if i < 0 || i >= s.len() {
        0
    } else if is_marker_char(s[i]) {
        1 + marker_run_from(s, i + 1)
    } else {
        0
    }
}

/// Keyword length of the leftmost marker.
pub open spec fn marker_key_len(s: Seq<char>) -> int {
    marker_run_from(s, marker_start(s))
}

/// The keyword of the leftmost marker of `s`.
pub open spec fn marker_keyword(s: Seq<char>) -> Seq<char> {
    s.subrange(marker_start(s), marker_start(s) + marker_key_len(s))
}

/// The payload of the leftmost marker of `s`: everything after the colon.
pub open spec fn marker_payload(s: Seq<char>) -> Seq<char> {
    s.subrange(marker_start(s) + marker_key_len(s) + 1, s.len() as int)
}

proof fn lemma_marker_start_found(s: Seq<char>, lo: int, i: int)
    requires
        0 <= lo <= i,
        starts_marker(s, i),
        forall|j: int| lo <= j < i ==> !starts_marker(s, j),
    ensures
        marker_start_from(s, lo) == i,
    decreases i - lo,
{
    assert(i < s.len()) by {
        let k = choose|k: int| marker_at(s, i, k);
        assert(i + k < s.len() && k >= 1);
    }
    if lo < i {
        lemma_marker_start_found(s, lo + 1, i);
    }
}

proof fn lemma_marker_run(s: Seq<char>, i: int, j: int)
    requires
        0 <= i <= j <= s.len(),
        forall|t: int| i <= t < j ==> is_marker_char(#[trigger] s[t]),
        j == s.len() || !is_marker_char(s[j]),
    ensures
        marker_run_from(s, i) == j - i,
    decreases j - i,
{
    if i < j {
        lemma_marker_run(s, i + 1, j);
    }
}

/// Executable form of `is_space`.
pub fn space_char(c: char) -> (b: bool)
    ensures
        b == is_space(c),
{
    c == ' ' || c == '\t' || c == '\n' || c == '\u{b}' || c == '\u{c}' || c == '\r'
        || c == '\u{85}' || c == '\u{a0}' || c == '\u{1680}'
        || ('\u{2000}' <= c && c <= '\u{200a}') || c == '\u{2028}' || c == '\u{2029}'
        || c == '\u{202f}' || c == '\u{205f}' || c == '\u{3000}'
}

/// Executable form of `is_marker_char`.
pub fn marker_char(c: char) -> (b: bool)
    ensures
        b == is_marker_char(c),
{
    c == '-' || ('A' <= c && c <= 'Z')
}

/// Finds the leftmost directive marker of `s`: returns the keyword start and
/// the keyword length, or `None` when the line holds no marker.
pub fn find_marker(s: &str) -> (r: Option<(usize, usize)>)
    ensures
        r is Some <==> has_marker(s@),
        r matches Some((i, k)) ==> i == marker_start(s@) && k == marker_key_len(s@)
            && marker_at(s@, i as int, k as int),
{
    let n = s.unicode_len();
    let mut i: usize = 0;
    while i < n
        invariant
            0 <= i <= n,
            n == s@.len(),
            forall|j: int| 0 <= j < i ==> !starts_marker(s@, j),
        decreases n - i,
    {
        // Scan the keyword-character run that starts at i.
        let mut j: usize = i;
        while j < n && marker_char(s.get_char(j))
            invariant
                i <= j <= n,
                n == s@.len(),
                forall|t: int| i <= t < j ==> is_marker_char(#[trigger] s@[t]),
            decreases n - j,
        {
            j = j + 1;
        }
        if j > i && j < n && s.get_char(j) == ':' {
            proof {
                assert(marker_at(s@, i as int, (j - i) as int));
                assert(starts_marker(s@, i as int));
                assert(has_marker(s@));
                lemma_marker_start_found(s@, 0, i as int);
                lemma_marker_run(s@, i as int, j as int);
            }
            return Some((i, j - i));
        }
        proof {
            assert(!starts_marker(s@, i as int)) by {
                if starts_marker(s@, i as int) {
                    let k = choose|k: int| marker_at(s@, i as int, k);
                    // The run of keyword characters from i ends exactly at j,
                    // so the colon would have to stand at j.
                    if i + k < j {
                        assert(is_marker_char(s@[i + k]));
                    } else if i + k > j {
                        assert(is_marker_char(s@[j as int]));
                    }
                }
            }
        }
        i = i + 1;
    }
    proof {
        assert(forall|j: int| 0 <= j < s@.len() ==> !starts_marker(s@, j));
        assert(!has_marker(s@)) by {
            if has_marker(s@) {
                let i0 = choose|i0: int| starts_marker(s@, i0);
                let k0 = choose|k0: int| marker_at(s@, i0, k0);
                assert(0 <= i0 < s@.len());
            }
        }
    }
    None
}

/// `s` without its leading whitespace.
pub open spec fn trim_start(s: Seq<char>) -> Seq<char>
    decreases s.len(),
{
    if s.len() > 0 && is_space(s[0]) {
        trim_start(s.drop_first())
    } else {
        s
    }
}

/// `s` without its trailing whitespace.
pub open spec fn trim_end(s: Seq<char>) -> Seq<char>
    decreases s.len(),
{
    if s.len() > 0 && is_space(s.last()) {
        trim_end(s.drop_last())
    } else {
        s
    }
}

/// `s` without surrounding whitespace.
pub open spec fn trim(s: Seq<char>) -> Seq<char> {
    trim_end(trim_start(s))
}

proof fn lemma_trim_start(s: Seq<char>, a: int)
    requires
        0 <= a <= s.len(),
        forall|j: int| 0 <= j < a ==> is_space(#[trigger] s[j]),
        a == s.len() || !is_space(s[a]),
    ensures
        trim_start(s) == s.subrange(a, s.len() as int),
    decreases a,
{
    if a == 0 {
        assert(s.subrange(0, s.len() as int) =~= s);
    } else {
        let t = s.drop_first();
        lemma_trim_start(t, a - 1);
        assert(t.subrange(a - 1, t.len() as int) =~= s.subrange(a, s.len() as int));
    }
}

proof fn lemma_trim_end(s: Seq<char>, b: int)
    requires
        0 <= b <= s.len(),
        forall|j: int| b <= j < s.len() ==> is_space(#[trigger] s[j]),
        b == 0 || !is_space(s[b - 1]),
    ensures
        trim_end(s) == s.subrange(0, b),
    decreases s.len() - b,
{
    if b == s.len() {
        assert(s.subrange(0, b) =~= s);
    } else {
        let t = s.drop_last();
        lemma_trim_end(t, b);
        assert(t.subrange(0, b) =~= s.subrange(0, b));
    }
}

/// Removes surrounding whitespace.
pub fn trim_of(s: &str) -> (r: &str)
    ensures
        r@ == trim(s@),
{
    let n = s.unicode_len();
    let mut a: usize = 0;
    while a < n && space_char(s.get_char(a))
        invariant
            0 <= a <= n,
            n == s@.len(),
            forall|j: int| 0 <= j < a ==> is_space(#[trigger] s@[j]),
        decreases n - a,
    {
        a = a + 1;
    }
    proof {
        lemma_trim_start(s@, a as int);
    }
    if a == n {
        let r = s.substring_char(n, n);
        return r;
    }
    let mut b: usize = n;
    while b > a && space_char(s.get_char(b - 1))
        invariant
            a <= b <= n,
            n == s@.len(),
            forall|j: int| b <= j < n ==> is_space(#[trigger] s@[j]),
        decreases b,
    {
        b = b - 1;
    }
    proof {
        assert(b > a) by {
            if b == a {
                assert(is_space(s@[a as int]));
            }
        }
        let t = s@.subrange(a as int, s@.len() as int);
        lemma_trim_end(t, b - a);
        assert(t.subrange(0, b - a) =~= s@.subrange(a as int, b as int));
    }
    let r = s.substring_char(a, b);
    r
}

/// The views of a sequence of owned strings.
pub open spec fn views_of(ws: Seq<String>) -> Seq<Seq<char>> {
    ws.map_values(|w: String| w@)
}

/// The views of a sequence of borrowed strings.
pub open spec fn str_views(ls: Seq<&str>) -> Seq<Seq<char>> {
    ls.map_values(|l: &str| l@)
}

/// Length of the run of non-whitespace characters starting at `i`.
pub open spec fn word_run_from(s: Seq<char>, i: int) -> int
    decreases s.len() - i,
{
    if i < 0 || i >= s.len() {
        0
    } else if !is_space(s[i]) {
        1 + word_run_from(s, i + 1)
    } else {
        0
    }
}

proof fn lemma_word_run(s: Seq<char>, i: int, j: int)
    requires
        0 <= i <= j <= s.len(),
        forall|t: int| i <= t < j ==> !is_space(#[trigger] s[t]),
        j == s.len() || is_space(s[j]),
    ensures
        word_run_from(s, i) == j - i,
    decreases j - i,
{
    if i < j {
        lemma_word_run(s, i + 1, j);
    }
}

/// The whitespace-separated words of `s`, in order.
pub open spec fn split_ws(s: Seq<char>) -> Seq<Seq<char>>
    decreases s.len(),
{
    if s.len() == 0 {
        Seq::empty()
    } else if is_space(s[0]) {
        split_ws(s.drop_first())
    } else {
        let k = word_run_from(s, 0);
        // The bound check on k is never false; it keeps the recursion
        // visibly terminating.
        if 1 <= k <= s.len() {
            seq![s.subrange(0, k)] + split_ws(s.skip(k))
        } else {
            Seq::empty()
        }
    }
}

proof fn lemma_word_run_bounds(s: Seq<char>, i: int)
    requires
        0 <= i <= s.len(),
    ensures
        0 <= word_run_from(s, i) <= s.len() - i,
    decreases s.len() - i,
{
    if i < s.len() && !is_space(s[i]) {
        lemma_word_run_bounds(s, i + 1);
    }
}

/// Splits on whitespace: returns the words of `s`, in order.
pub fn split_whitespace_of(s: &str) -> (r: Vec<String>)
    ensures
        views_of(r@) == split_ws(s@),
{
    let n = s.unicode_len();
    let mut r: Vec<String> = Vec::new();
    let mut pos: usize = 0;
    proof {
        assert(s@.skip(0) =~= s@);
        assert(views_of(Seq::<String>::empty()) + split_ws(s@) =~= split_ws(s@));
    }
    while pos < n
        invariant
            0 <= pos <= n,
            n == s@.len(),
            split_ws(s@) == views_of(r@) + split_ws(s@.skip(pos as int)),
        decreases n - pos,
    {
        if space_char(s.get_char(pos)) {
            proof {
                assert(s@.skip(pos as int)[0] == s@[pos as int]);
                assert(s@.skip(pos as int).drop_first() =~= s@.skip(pos as int + 1));
            }
            pos = pos + 1;
        } else {
            let mut e: usize = pos + 1;
            while e < n && !space_char(s.get_char(e))
                invariant
                    pos < e <= n,
                    n == s@.len(),
                    forall|t: int| pos < t < e ==> !is_space(#[trigger] s@[t]),
                decreases n - e,
            {
                e = e + 1;
            }
            let w = String::from_str(s.substring_char(pos, e));
            proof {
                let ghost u = s@.skip(pos as int);
                assert(forall|t: int| 0 <= t < e - pos ==> u[t] == s@[pos + t]);
                lemma_word_run(u, 0, e - pos);
                lemma_word_run_bounds(u, 0);
                assert(u.subrange(0, e - pos) =~= s@.subrange(pos as int, e as int));
                assert(u.skip(e - pos) =~= s@.skip(e as int));
                assert(views_of(r@.push(w)) =~= views_of(r@).push(w@));
                assert(views_of(r@).push(w@) + split_ws(s@.skip(e as int)) =~= views_of(r@)
                    + (seq![w@] + split_ws(s@.skip(e as int))));
                assert(seq![w@] + split_ws(s@.skip(e as int)) =~= seq![u.subrange(0, e - pos)]
                    + split_ws(u.skip(e - pos)));
            }
            r.push(w);
            pos = e;
        }
    }
    proof {
        assert(s@.skip(n as int) =~= Seq::<char>::empty());
        assert(views_of(r@) + split_ws(s@.skip(pos as int)) =~= views_of(r@));
    }
    r
}

/// First index at or after `i` holding `c`; `s.len()` if none.
pub open spec fn find_from(s: Seq<char>, c: char, i: int) -> int
    decreases s.len() - i,
{
    if i < 0 || i >= s.len() {
        s.len() as int
    } else if s[i] == c {
        i
    } else {
        find_from(s, c, i + 1)
    }
}

proof fn lemma_find_from(s: Seq<char>, c: char, i: int, j: int)
    requires
        0 <= i <= j <= s.len(),
        forall|t: int| i <= t < j ==> s[t] != c,
        j == s.len() || s[j] == c,
    ensures
        find_from(s, c, i) == j,
    decreases j - i,
{
    if i < j {
        lemma_find_from(s, c, i + 1, j);
    }
}

/// A physical line with a trailing `\r` removed.
pub open spec fn strip_cr(l: Seq<char>) -> Seq<char> {
    if l.len() > 0 && l.last() == '\r' {
        l.drop_last()
    } else {
        l
    }
}

/// The physical lines of a body: split at `\n`, a `\r` standing directly
/// before the `\n` removed, and no empty final line after a trailing `\n`.
pub open spec fn lines_of(s: Seq<char>) -> Seq<Seq<char>>
    decreases s.len(),
{
    if s.len() == 0 {
        Seq::empty()
    } else {
        let j = find_from(s, '\n', 0);
        // j is never negative; the check keeps the recursion visibly
        // terminating.
        if j < 0 || j >= s.len() {
            seq![s]
        } else {
            seq![strip_cr(s.subrange(0, j))] + lines_of(s.skip(j + 1))
        }
    }
}

/// A body never holds more lines than characters.
pub proof fn lemma_lines_count(s: Seq<char>)
    ensures
        lines_of(s).len() <= s.len(),
    decreases s.len(),
{
    if s.len() > 0 {
        let j = find_from(s, '\n', 0);
        lemma_find_from_bounds(s, '\n', 0);
        if 0 <= j < s.len() {
            lemma_lines_count(s.skip(j + 1));
        }
    }
}

proof fn lemma_find_from_bounds(s: Seq<char>, c: char, i: int)
    requires
        0 <= i <= s.len(),
    ensures
        i <= find_from(s, c, i) <= s.len(),
    decreases s.len() - i,
{
    if i < s.len() && s[i] != c {
        lemma_find_from_bounds(s, c, i + 1);
    }
}

/// Splits a body into its physical lines.
pub fn split_lines<'a>(s: &'a str) -> (r: Vec<&'a str>)
    ensures
        str_views(r@) == lines_of(s@),
{
    let n = s.unicode_len();
    let mut r: Vec<&str> = Vec::new();
    let mut pos: usize = 0;
    proof {
        assert(s@.skip(0) =~= s@);
        assert(str_views(Seq::<&str>::empty()) + lines_of(s@) =~= lines_of(s@));
    }
    while pos < n
        invariant
            0 <= pos <= n,
            n == s@.len(),
            lines_of(s@) == str_views(r@) + lines_of(s@.skip(pos as int)),
        decreases n - pos,
    {
        let mut e: usize = pos;
        while e < n && s.get_char(e) != '\n'
            invariant
                pos <= e <= n,
                n == s@.len(),
                forall|t: int| pos <= t < e ==> s@[t] != '\n',
            decreases n - e,
        {
            e = e + 1;
        }
        proof {
            let ghost u = s@.skip(pos as int);
            assert(forall|t: int| 0 <= t < u.len() ==> u[t] == s@[pos + t]);
            lemma_find_from(u, '\n', 0, e - pos);
        }
        if e == n {
            let line = s.substring_char(pos, n);
            proof {
                let ghost u = s@.skip(pos as int);
                assert(u =~= s@.subrange(pos as int, n as int));
                assert(lines_of(u) == seq![u]);
                assert(s@.skip(n as int) =~= Seq::<char>::empty());
                assert(str_views(r@.push(line)) =~= str_views(r@).push(line@));
                assert(str_views(r@).push(line@) + lines_of(s@.skip(n as int)) =~= str_views(
                    r@,
                ) + (seq![u] + Seq::<Seq<char>>::empty()));
                assert(seq![u] + Seq::<Seq<char>>::empty() =~= seq![u]);
            }
            r.push(line);
            pos = n;
        } else {
            proof {
                let ghost u = s@.skip(pos as int);
                let ghost lraw = u.subrange(0, e - pos);
                assert(lraw =~= s@.subrange(pos as int, e as int));
                assert(u.skip(e - pos + 1) =~= s@.skip(e as int + 1));
                assert(lines_of(u) == seq![strip_cr(lraw)] + lines_of(s@.skip(e as int + 1)));
            }
            if e > pos && s.get_char(e - 1) == '\r' {
                let line = s.substring_char(pos, e - 1);
                proof {
                    let ghost u = s@.skip(pos as int);
                    let ghost lraw = u.subrange(0, e - pos);
                    assert(lraw.last() == s@[e - 1]);
                    assert(strip_cr(lraw) =~= s@.subrange(pos as int, e as int - 1));
                    assert(str_views(r@.push(line)) =~= str_views(r@).push(line@));
                    assert(str_views(r@).push(line@) + lines_of(s@.skip(e as int + 1))
                        =~= str_views(r@) + (seq![strip_cr(lraw)] + lines_of(
                        s@.skip(e as int + 1),
                    )));
                }
                r.push(line);
            } else {
                let line = s.substring_char(pos, e);
                proof {
                    let ghost u = s@.skip(pos as int);
                    let ghost lraw = u.subrange(0, e - pos);
                    assert(strip_cr(lraw) =~= lraw);
                    assert(str_views(r@.push(line)) =~= str_views(r@).push(line@));
                    assert(str_views(r@).push(line@) + lines_of(s@.skip(e as int + 1))
                        =~= str_views(r@) + (seq![strip_cr(lraw)] + lines_of(
                        s@.skip(e as int + 1),
                    )));
                }
                r.push(line);
            }
            pos = e + 1;
        }
    }
    proof {
        assert(s@.skip(pos as int) =~= Seq::<char>::empty());
        assert(str_views(r@) + lines_of(s@.skip(pos as int)) =~= str_views(r@));
    }
    r
}

/// Character-for-character string equality.
pub fn str_eq(a: &str, b: &str) -> (r: bool)
    ensures
        r == (a@ == b@),
{
    let an = a.unicode_len();
    let bn = b.unicode_len();
    if an != bn {
        return false;
    }
    let mut i: usize = 0;
    while i < an
        invariant
            0 <= i <= an,
            an == a@.len(),
            an == b@.len(),
            forall|j: int| 0 <= j < i ==> a@[j] == b@[j],
        decreases an - i,
    {
        if a.get_char(i) != b.get_char(i) {
            return false;
        }
        i = i + 1;
    }
    proof {
        assert(a@ =~= b@);
    }
    true
}

} // verus!
