//! Character-level helpers on strings: comparison, whitespace trimming,
//! line splitting and substring search.

use vstd::prelude::*;
use crate::model::{first_index, lemma_first_index, lemma_first_index_at, lemma_first_index_none};

verus! {

/// Whether two strings hold the same characters.
pub fn same_text(a: &str, b: &str) -> (r: bool)
    ensures
        r == (a@ == b@),
{
    let n = a.unicode_len();
    if n != b.unicode_len() {
        return false;
    }
    let mut i: usize = 0;
    while i < n
        invariant
            n == a@.len(),
            n == b@.len(),
            i <= n,
            forall|j: int| 0 <= j < i ==> a@[j] == b@[j],
        decreases n - i,
    {
        if a.get_char(i) != b.get_char(i) {
            return false;
        }
        i = i + 1;
    }
    assert(a@ =~= b@);
    true
}

/// The characters of a string, in order.
pub fn chars_of(s: &str) -> (v: Vec<char>)
    ensures
        v@ == s@,
{
    broadcast use vstd::string::group_string_axioms;
    let mut v: Vec<char> = Vec::new();
    for c in iter: s.chars()
        invariant
            v@ == iter.seq().take(iter.index() as int),
            iter.seq() == s@,
    {
        v.push(c);
    }
    v
}

// ---------------------------------------------------------------------------
// Whitespace
// ---------------------------------------------------------------------------

/// Whether `c` has the Unicode `White_Space` property, which is what
/// `char::is_whitespace` tests: the controls U+0009 to U+000D, the space,
/// U+0085, the no-break space U+00A0, the Ogham space mark U+1680, the
/// spaces U+2000 to U+200A, the line and paragraph separators U+2028 and
/// U+2029, U+202F, U+205F and the ideographic space U+3000.
pub open spec fn is_white_space(c: char) -> bool {
    let u = c as u32;
    ||| 0x09 <= u <= 0x0d
    ||| u == 0x20
    ||| u == 0x85
    ||| u == 0xa0
    ||| u == 0x1680
    ||| 0x2000 <= u <= 0x200a
    ||| u == 0x2028
    ||| u == 0x2029
    ||| u == 0x202f
    ||| u == 0x205f
    ||| u == 0x3000
}

/// Whether `c` is whitespace.
pub fn char_is_whitespace(c: char) -> (b: bool)
    ensures
        b == is_white_space(c),
{
    let u = c as u32;
    (0x09 <= u && u <= 0x0d) || u == 0x20 || u == 0x85 || u == 0xa0 || u == 0x1680 || (0x2000 <= u
        && u <= 0x200a) || u == 0x2028 || u == 0x2029 || u == 0x202f || u == 0x205f || u == 0x3000
}

/// `s` without its leading whitespace.
pub open spec fn trim_start_spec(s: Seq<char>) -> Seq<char>
    decreases s.len(),
{
    if s.len() > 0 && is_white_space(s[0]) {
        trim_start_spec(s.drop_first())
    } else {
        s
    }
}

/// `s` without its trailing whitespace.
pub open spec fn trim_end_spec(s: Seq<char>) -> Seq<char>
    decreases s.len(),
{
    if s.len() > 0 && is_white_space(s.last()) {
        trim_end_spec(s.drop_last())
    } else {
        s
    }
}

/// `s` without leading and trailing whitespace, as `str::trim` gives it.
pub open spec fn trim_spec(s: Seq<char>) -> Seq<char> {
    trim_end_spec(trim_start_spec(s))
}

/// Skips the whitespace at the front of `v[lo..hi]`.
pub fn skip_ws(v: &Vec<char>, lo: usize, hi: usize) -> (a: usize)
    requires
        lo <= hi <= v@.len(),
    ensures
        lo <= a <= hi,
        trim_start_spec(v@.subrange(lo as int, hi as int)) == v@.subrange(a as int, hi as int),
{
    let mut a = lo;
    while a < hi && char_is_whitespace(v[a])
        invariant
            lo <= a <= hi <= v@.len(),
            trim_start_spec(v@.subrange(lo as int, hi as int)) == trim_start_spec(
                v@.subrange(a as int, hi as int),
            ),
        decreases hi - a,
    {
        assert(v@.subrange(a as int, hi as int).drop_first() =~= v@.subrange(a + 1, hi as int));
        a = a + 1;
    }
    a
}

/// Skips the whitespace at the back of `v[lo..hi]`.
pub fn skip_ws_back(v: &Vec<char>, lo: usize, hi: usize) -> (b: usize)
    requires
        lo <= hi <= v@.len(),
    ensures
        lo <= b <= hi,
        trim_end_spec(v@.subrange(lo as int, hi as int)) == v@.subrange(lo as int, b as int),
{
    let mut b = hi;
    while b > lo && char_is_whitespace(v[b - 1])
        invariant
            lo <= b <= hi <= v@.len(),
            trim_end_spec(v@.subrange(lo as int, hi as int)) == trim_end_spec(
                v@.subrange(lo as int, b as int),
            ),
        decreases b - lo,
    {
        assert(v@.subrange(lo as int, b as int).drop_last() =~= v@.subrange(lo as int, b - 1));
        b = b - 1;
    }
    b
}

/// Bounds of `v[lo..hi]` trimmed of whitespace on both ends.
pub fn trim_range(v: &Vec<char>, lo: usize, hi: usize) -> (r: (usize, usize))
    requires
        lo <= hi <= v@.len(),
    ensures
        lo <= r.0 <= r.1 <= hi,
        trim_spec(v@.subrange(lo as int, hi as int)) == v@.subrange(r.0 as int, r.1 as int),
{
    let a = skip_ws(v, lo, hi);
    let b = skip_ws_back(v, a, hi);
    (a, b)
}

/// `s` holds nothing but whitespace.
pub fn is_blank(s: &str) -> (b: bool)
    ensures
        b == (trim_spec(s@).len() == 0),
{
    let v = chars_of(s);
    let (a, e) = trim_range(&v, 0, v.len());
    assert(v@.subrange(0, v@.len() as int) =~= s@);
    a == e
}

/// The characters `v[lo..hi]` as a string.
pub fn text_of(v: &Vec<char>, lo: usize, hi: usize) -> (t: String)
    requires
        lo <= hi <= v@.len(),
    ensures
        t@ == v@.subrange(lo as int, hi as int),
{
    let mut t = String::new();
    let mut i = lo;
    while i < hi
        invariant
            lo <= i <= hi <= v@.len(),
            t@ == v@.subrange(lo as int, i as int),
        decreases hi - i,
    {
        t.append(char_text(v[i]).as_str());
        i = i + 1;
        assert(t@ =~= v@.subrange(lo as int, i as int));
    }
    t
}

/// A one-character string; calls `char::to_string`.
#[verifier::external_body]
pub(crate) fn char_text(c: char) -> (t: String)
    ensures
        t@ == seq![c],
{
    c.to_string()
}

// ---------------------------------------------------------------------------
// Decimal numbers
// ---------------------------------------------------------------------------

/// The decimal digit character for `d < 10`.
pub open spec fn digit_spec(d: nat) -> char {
    if d == 0 { '0' }
    else if d == 1 { '1' }
    else if d == 2 { '2' }
    else if d == 3 { '3' }
    else if d == 4 { '4' }
    else if d == 5 { '5' }
    else if d == 6 { '6' }
    else if d == 7 { '7' }
    else if d == 8 { '8' }
    else { '9' }
}

/// `n` written in decimal without leading zeros.
pub open spec fn decimal_spec(n: nat) -> Seq<char>
    decreases n,
{
    if n < 10 {
        seq![digit_spec(n)]
    } else {
        decimal_spec(n / 10).push(digit_spec(n % 10))
    }
}

fn digit_char(d: u64) -> (c: char)
    requires
        d < 10,
    ensures
        c == digit_spec(d as nat),
{
    if d == 0 { '0' }
    else if d == 1 { '1' }
    else if d == 2 { '2' }
    else if d == 3 { '3' }
    else if d == 4 { '4' }
    else if d == 5 { '5' }
    else if d == 6 { '6' }
    else if d == 7 { '7' }
    else if d == 8 { '8' }
    else { '9' }
}

/// `n` in decimal.
pub fn decimal_text(n: u64) -> (t: String)
    ensures
        t@ == decimal_spec(n as nat),
    decreases n,
{
    if n < 10 {
        char_text(digit_char(n))
    } else {
        let mut t = decimal_text(n / 10);
        t.append(char_text(digit_char(n % 10)).as_str());
        t
    }
}

// ---------------------------------------------------------------------------
// Lines
// ---------------------------------------------------------------------------

/// Is a line feed.
pub open spec fn is_newline() -> spec_fn(char) -> bool {
    |c: char| c == '\n'
}

/// A line without the carriage return that ended it before the line feed.
pub open spec fn strip_cr(l: Seq<char>) -> Seq<char> {
    if l.len() > 0 && l.last() == '\r' {
        l.drop_last()
    } else {
        l
    }
}

/// The lines of `s` as `str::lines` gives them: split after each line feed,
/// each line without its `\n` (or `\r\n`) ending; a final ending adds no
/// empty line.
#[verifier::opaque]
pub open spec fn lines_spec(s: Seq<char>) -> Seq<Seq<char>>
    decreases s.len(),
{
    if s.len() == 0 {
        Seq::empty()
    } else {
        match first_index(s, is_newline()) {
            Some(i) => {
                proof {
                    lemma_first_index(s, is_newline());
                }
                seq![strip_cr(s.subrange(0, i))] + lines_spec(s.subrange(i + 1, s.len() as int))
            },
            None => seq![s],
        }
    }
}

/// The first line of `s`, empty when `s` has none.
pub open spec fn first_line_spec(s: Seq<char>) -> Seq<char> {
    if lines_spec(s).len() > 0 {
        lines_spec(s)[0]
    } else {
        Seq::empty()
    }
}

pub open spec fn views(ls: Seq<String>) -> Seq<Seq<char>> {
    ls.map_values(|l: String| l@)
}

proof fn lemma_lines_split(rest: Seq<char>, k: int)
    requires
        0 <= k < rest.len(),
        rest[k] == '\n',
        forall|x: int| 0 <= x < k ==> rest[x] != '\n',
    ensures
        lines_spec(rest) == seq![strip_cr(rest.subrange(0, k))] + lines_spec(
            rest.subrange(k + 1, rest.len() as int),
        ),
{
    reveal(lines_spec);
    lemma_first_index_at(rest, is_newline(), k);
}

proof fn lemma_lines_empty()
    ensures
        lines_spec(Seq::<char>::empty()) == Seq::<Seq<char>>::empty(),
{
    reveal(lines_spec);
}

proof fn lemma_lines_last(rest: Seq<char>)
    requires
        rest.len() > 0,
        forall|x: int| 0 <= x < rest.len() ==> rest[x] != '\n',
    ensures
        lines_spec(rest) == seq![rest],
{
    reveal(lines_spec);
    lemma_first_index_none(rest, is_newline());
}

/// The line-feed position at or after `from` in `v[..hi]`, if any.
fn find_newline(v: &Vec<char>, from: usize, hi: usize) -> (r: Option<usize>)
    requires
        from <= hi <= v@.len(),
    ensures
        match r {
            Some(j) => from <= j < hi && v@[j as int] == '\n' && forall|k: int|
                from <= k < j ==> v@[k] != '\n',
            None => forall|k: int| from <= k < hi ==> v@[k] != '\n',
        },
{
    let mut j = from;
    while j < hi
        invariant
            from <= j <= hi <= v@.len(),
            forall|k: int| from <= k < j ==> v@[k] != '\n',
        decreases hi - j,
    {
        if v[j] == '\n' {
            return Some(j);
        }
        j = j + 1;
    }
    None
}

/// The lines of `s`, as `str::lines` splits them.
pub fn lines_of(s: &str) -> (ls: Vec<String>)
    ensures
        views(ls@) == lines_spec(s@),
{
    let v = chars_of(s);
    let n = v.len();
    let mut out: Vec<String> = Vec::new();
    let mut pos: usize = 0;
    assert(v@.subrange(0, n as int) =~= s@);
    assert(views(out@) + lines_spec(v@.subrange(0, n as int)) =~= lines_spec(s@));
    while pos < n
        invariant
            n == v@.len(),
            v@ == s@,
            pos <= n,
            views(out@) + lines_spec(v@.subrange(pos as int, n as int)) == lines_spec(s@),
        decreases n - pos,
    {
        let ghost rest = v@.subrange(pos as int, n as int);
        let ghost before = views(out@);
        match find_newline(&v, pos, n) {
            Some(j) => {
                let end = if j > pos && v[j - 1] == '\r' { j - 1 } else { j };
                let line = text_of(&v, pos, end);
                proof {
                    lemma_lines_split(rest, j - pos);
                    assert(rest.subrange(0, j - pos) =~= v@.subrange(pos as int, j as int));
                    assert(rest.subrange(j - pos + 1, rest.len() as int) =~= v@.subrange(j + 1, n as int));
                    if j > pos && v@[j - 1] == '\r' {
                        assert(v@.subrange(pos as int, j as int).drop_last() =~= v@.subrange(pos as int, j - 1));
                    }
                    assert(line@ == strip_cr(v@.subrange(pos as int, j as int)));
                }
                out.push(line);
                proof {
                    assert(views(out@) =~= before.push(line@));
                    assert(before + lines_spec(rest) =~= views(out@) + lines_spec(v@.subrange(j + 1, n as int)));
                }
                pos = j + 1;
            },
            None => {
                let line = text_of(&v, pos, n);
                proof {
                    lemma_lines_last(rest);
                }
                out.push(line);
                proof {
                    assert(views(out@) =~= before.push(line@));
                    assert(v@.subrange(n as int, n as int) =~= Seq::<char>::empty());
                    lemma_lines_empty();
                    assert(before + lines_spec(rest) =~= views(out@) + lines_spec(v@.subrange(n as int, n as int)));
                }
                pos = n;
            },
        }
    }
    proof {
        assert(v@.subrange(n as int, n as int) =~= Seq::<char>::empty());
        reveal(lines_spec);
        assert(views(out@) + Seq::<Seq<char>>::empty() =~= views(out@));
    }
    out
}

/// The first line of `s` (empty when there is none).
pub fn first_line(s: &str) -> (l: String)
    ensures
        l@ == first_line_spec(s@),
{
    let mut ls = lines_of(s);
    if ls.len() > 0 {
        ls.swap_remove(0)
    } else {
        String::new()
    }
}

/// Two pieces of text one after the other.
pub fn joined(a: &str, b: &str) -> (t: String)
    ensures
        t@ == a@ + b@,
{
    let mut t = a.to_string();
    t.append(b);
    t
}

} // verus!
