//! Character classes and small text operations on `Seq<char>` / `Vec<char>`,
//! with the exact meaning of the `str` and `char` methods they stand for.
use vstd::prelude::*;

verus! {

/// Unicode `White_Space`, the property that `char::is_whitespace` tests.
pub open spec fn is_ws(c: char) -> bool {
    let n = c as u32;
    ||| (9 <= n && n <= 13)
    ||| n == 32
    ||| n == 0x85
    ||| n == 0xa0
    ||| n == 0x1680
    ||| (0x2000 <= n && n <= 0x200a)
    ||| n == 0x2028
    ||| n == 0x2029
    ||| n == 0x202f
    ||| n == 0x205f
    ||| n == 0x3000
}

pub fn is_whitespace(c: char) -> (b: bool)
    ensures
        b == is_ws(c),
{
    let n = c as u32;
    (9 <= n && n <= 13) || n == 32 || n == 0x85 || n == 0xa0 || n == 0x1680 || (0x2000 <= n && n
        <= 0x200a) || n == 0x2028 || n == 0x2029 || n == 0x202f || n == 0x205f || n == 0x3000
}

pub open spec fn is_ascii_alnum(c: char) -> bool {
    let n = c as u32;
    ||| (48 <= n && n <= 57)
    ||| (65 <= n && n <= 90)
    ||| (97 <= n && n <= 122)
}

pub fn is_ascii_alphanumeric(c: char) -> (b: bool)
    ensures
        b == is_ascii_alnum(c),
{
    let n = c as u32;
    (48 <= n && n <= 57) || (65 <= n && n <= 90) || (97 <= n && n <= 122)
}

/// `char::to_ascii_uppercase`.
pub open spec fn ascii_upper(c: char) -> char {
    let n = c as u32;
    if 97 <= n && n <= 122 {
        (n - 32) as char
    } else {
        c
    }
}

/// `char::to_ascii_lowercase`.
pub open spec fn ascii_lower(c: char) -> char {
    let n = c as u32;
    if 65 <= n && n <= 90 {
        (n + 32) as char
    } else {
        c
    }
}

pub fn to_ascii_uppercase(c: char) -> (r: char)
    ensures
        r == ascii_upper(c),
{
    let n = c as u32;
    if 97 <= n && n <= 122 {
        let m: u32 = n - 32;
        assert(65 <= m <= 90);
        char_from_ascii_letter(m)
    } else {
        c
    }
}

fn char_from_ascii_letter(m: u32) -> (r: char)
    requires
        65 <= m <= 90,
    ensures
        r == m as char,
{
    let b: u8 = m as u8;
    b as char
}

/// Index of the first character at or after `i` that is not whitespace
/// (the end of the run of whitespace that starts at `i`).
pub open spec fn ws_run_end(s: Seq<char>, i: int) -> int
    decreases s.len() - i,
{
    if 0 <= i < s.len() && is_ws(s[i]) {
        ws_run_end(s, i + 1)
    } else {
        i
    }
}

/// Index just past the last character before `j` that is not whitespace.
pub open spec fn ws_run_start(s: Seq<char>, j: int) -> int
    decreases j,
{
    if 0 < j <= s.len() && is_ws(s[j - 1]) {
        ws_run_start(s, j - 1)
    } else {
        j
    }
}

/// `str::trim_start`.
pub open spec fn trim_start(s: Seq<char>) -> Seq<char> {
    s.skip(ws_run_end(s, 0))
}

/// `str::trim_end`.
pub open spec fn trim_end(s: Seq<char>) -> Seq<char> {
    s.take(ws_run_start(s, s.len() as int))
}

/// `str::trim`.
pub open spec fn trim(s: Seq<char>) -> Seq<char> {
    trim_end(trim_start(s))
}

pub proof fn lemma_ws_run_end(s: Seq<char>, i: int)
    requires
        0 <= i <= s.len(),
    ensures
        i <= ws_run_end(s, i) <= s.len(),
        forall|k: int| i <= k < ws_run_end(s, i) ==> is_ws(#[trigger] s[k]),
        ws_run_end(s, i) < s.len() ==> !is_ws(s[ws_run_end(s, i)]),
    decreases s.len() - i,
{
    if i < s.len() && is_ws(s[i]) {
        lemma_ws_run_end(s, i + 1);
    }
}

pub proof fn lemma_ws_run_start(s: Seq<char>, j: int)
    requires
        0 <= j <= s.len(),
    ensures
        0 <= ws_run_start(s, j) <= j,
        forall|k: int| ws_run_start(s, j) <= k < j ==> is_ws(#[trigger] s[k]),
        ws_run_start(s, j) > 0 ==> !is_ws(s[ws_run_start(s, j) - 1]),
    decreases j,
{
    if 0 < j && is_ws(s[j - 1]) {
        lemma_ws_run_start(s, j - 1);
    }
}

/// A run of non-whitespace at the front means `trim_start` keeps the text.
pub proof fn lemma_trim_start_noop(s: Seq<char>)
    requires
        s.len() == 0 || !is_ws(s[0]),
    ensures
        trim_start(s) == s,
{
    assert(s.skip(0) =~= s);
}

pub proof fn lemma_trim_end_noop(s: Seq<char>)
    requires
        s.len() == 0 || !is_ws(s.last()),
    ensures
        trim_end(s) == s,
{
    assert(s.take(s.len() as int) =~= s);
}

/// Copy of `v[lo..hi]`.
pub fn subvec(v: &Vec<char>, lo: usize, hi: usize) -> (r: Vec<char>)
    requires
        lo <= hi <= v.len(),
    ensures
        r@ == v@.subrange(lo as int, hi as int),
{
    let mut r: Vec<char> = Vec::new();
    let mut i = lo;
    while i < hi
        invariant
            lo <= i <= hi <= v.len(),
            r@ == v@.subrange(lo as int, i as int),
        decreases hi - i,
    {
        r.push(v[i]);
        i = i + 1;
        assert(r@ =~= v@.subrange(lo as int, i as int));
    }
    r
}

/// Appends `w` to `v`.
pub fn extend(v: &mut Vec<char>, w: &Vec<char>)
    ensures
        final(v)@ == old(v)@ + w@,
{
    let mut i: usize = 0;
    while i < w.len()
        invariant
            i <= w.len(),
            v@ == old(v)@ + w@.take(i as int),
        decreases w.len() - i,
    {
        v.push(w[i]);
        i = i + 1;
        assert(v@ =~= old(v)@ + w@.take(i as int));
    }
    assert(w@.take(w.len() as int) =~= w@);
}

pub fn seq_eq(a: &Vec<char>, b: &Vec<char>) -> (r: bool)
    ensures
        r == (a@ == b@),
{
    if a.len() != b.len() {
        return false;
    }
    let mut i: usize = 0;
    while i < a.len()
        invariant
            a.len() == b.len(),
            i <= a.len(),
            forall|k: int| 0 <= k < i ==> a@[k] == b@[k],
        decreases a.len() - i,
    {
        if a[i] != b[i] {
            return false;
        }
        i = i + 1;
    }
    assert(a@ =~= b@);
    true
}

/// Returns `(lo, hi)` such that `v[lo..hi]` is `trim(v)`.
pub fn trim_bounds(v: &Vec<char>) -> (r: (usize, usize))
    ensures
        r.0 <= r.1 <= v.len(),
        v@.subrange(r.0 as int, r.1 as int) == trim(v@),
        r.0 == ws_run_end(v@, 0),
{
    let lo = trim_start_index(v);
    proof {
        lemma_ws_run_end(v@, 0);
    }
    let mut hi = v.len();
    let ghost t = trim_start(v@);
    proof {
        lemma_ws_run_start(t, t.len() as int);
    }
    while hi > lo && is_whitespace(v[hi - 1])
        invariant
            lo <= hi <= v.len(),
            lo == ws_run_end(v@, 0),
            t == v@.skip(lo as int),
            ws_run_start(t, (hi - lo) as int) == ws_run_start(t, t.len() as int),
        decreases hi,
    {
        hi = hi - 1;
    }
    assert(v@.subrange(lo as int, hi as int) =~= t.take((hi - lo) as int));
    (lo, hi)
}

/// Index where `trim_start(v)` begins.
pub fn trim_start_index(v: &Vec<char>) -> (r: usize)
    ensures
        r == ws_run_end(v@, 0),
        r <= v.len(),
{
    let mut i: usize = 0;
    while i < v.len() && is_whitespace(v[i])
        invariant
            i <= v.len(),
            ws_run_end(v@, i as int) == ws_run_end(v@, 0),
        decreases v.len() - i,
    {
        i = i + 1;
    }
    i
}

/// Index where `trim_end(v)` ends.
pub fn trim_end_index(v: &Vec<char>) -> (r: usize)
    ensures
        r == ws_run_start(v@, v@.len() as int),
        r <= v.len(),
{
    let mut j: usize = v.len();
    while j > 0 && is_whitespace(v[j - 1])
        invariant
            j <= v.len(),
            ws_run_start(v@, j as int) == ws_run_start(v@, v@.len() as int),
        decreases j,
    {
        j = j - 1;
    }
    j
}


/// The characters of `s`, in order.
pub fn chars_of(s: &str) -> (r: Vec<char>)
    ensures
        r@ == s@,
{
    broadcast use vstd::string::group_string_axioms;

    let mut r: Vec<char> = Vec::new();
    for c in it: s.chars()
        invariant
            it.seq() == s@,
            r@ == it.seq().take(it.index() as int),
    {
        r.push(c);
        assert(r@ =~= it.seq().take(it.index() + 1));
    }
    assert(r@ =~= s@);
    r
}


/// The text made of the characters of `v`, through `String`'s
/// `FromIterator<&char>` (std): the string holds exactly those characters.
#[verifier::external_body]
pub(crate) fn string_from_chars(v: &Vec<char>) -> (s: String)
    ensures
        s@ == v@,
{
    v.iter().collect()
}

/// Drops one `'\r'` from the end, as `BufRead::lines` and `str::lines` do
/// for a line that ended in `"\r\n"`.
pub open spec fn strip_cr(s: Seq<char>) -> Seq<char> {
    if s.len() > 0 && s.last() == '\r' {
        s.drop_last()
    } else {
        s
    }
}

/// The lines of `s` after the partial line `cur`: split at each `'\n'`,
/// a `"\r\n"` ending counting as one line ending, the last line ending
/// optional and no empty line after a final `'\n'`.
pub open spec fn lines_from(s: Seq<char>, cur: Seq<char>) -> Seq<Seq<char>>
    decreases s.len(),
{
    if s.len() == 0 {
        if cur.len() == 0 {
            Seq::empty()
        } else {
            seq![cur]
        }
    } else if s[0] == '\n' {
        seq![strip_cr(cur)] + lines_from(s.drop_first(), Seq::empty())
    } else {
        lines_from(s.drop_first(), cur.push(s[0]))
    }
}

/// `BufRead::lines` / `str::lines`.
pub open spec fn lines(s: Seq<char>) -> Seq<Seq<char>> {
    lines_from(s, Seq::empty())
}

pub proof fn lemma_strip_cr_byte_len(s: Seq<char>)
    ensures
        byte_len(strip_cr(s)) <= byte_len(s),
{
    if s.len() > 0 && s.last() == '\r' {
        lemma_byte_len_append(s.drop_last(), seq![s.last()]);
        assert(s.drop_last() + seq![s.last()] =~= s);
    }
}

pub proof fn lemma_lines_from_len(s: Seq<char>, cur: Seq<char>)
    ensures
        lines_from(s, cur).len() <= s.len() + (if cur.len() > 0 { 1int } else { 0int }),
        forall|k: int|
            0 <= k < lines_from(s, cur).len() ==> byte_len(#[trigger] lines_from(s, cur)[k])
                <= byte_len(s) + byte_len(cur),
    decreases s.len(),
{
    if s.len() > 0 {
        if s[0] == '\n' {
            lemma_lines_from_len(s.drop_first(), Seq::empty());
            lemma_strip_cr_byte_len(cur);
            let rest = lines_from(s.drop_first(), Seq::empty());
            assert(byte_len(Seq::<char>::empty()) == 0);
            assert forall|k: int| 0 <= k < lines_from(s, cur).len() implies byte_len(
                #[trigger] lines_from(s, cur)[k],
            ) <= byte_len(s) + byte_len(cur) by {
                if k > 0 {
                    assert(lines_from(s, cur)[k] == rest[k - 1]);
                }
            }
        } else {
            lemma_lines_from_len(s.drop_first(), cur.push(s[0]));
            lemma_byte_len_append(cur, seq![s[0]]);
            lemma_byte_len_single(s[0]);
            assert(cur + seq![s[0]] =~= cur.push(s[0]));
            assert(lines_from(s, cur) == lines_from(s.drop_first(), cur.push(s[0])));
        }
    } else {
        assert forall|k: int| 0 <= k < lines_from(s, cur).len() implies byte_len(
            #[trigger] lines_from(s, cur)[k],
        ) <= byte_len(s) + byte_len(cur) by {
            assert(lines_from(s, cur)[k] == cur);
        }
    }
}

/// Splits `s` into its lines.
pub fn split_lines(s: &Vec<char>) -> (r: Vec<Vec<char>>)
    ensures
        r@.len() == lines(s@).len(),
        forall|k: int| 0 <= k < r@.len() ==> (#[trigger] r@[k])@ == lines(s@)[k],
{
    let mut r: Vec<Vec<char>> = Vec::new();
    let mut cur: Vec<char> = Vec::new();
    let mut i: usize = 0;
    assert(s@.skip(0) =~= s@);
    assert(r@.map_values(|l: Vec<char>| l@) =~= Seq::<Seq<char>>::empty());
    while i < s.len()
        invariant
            i <= s.len(),
            r@.map_values(|l: Vec<char>| l@) + lines_from(s@.skip(i as int), cur@) == lines(s@),
        decreases s.len() - i,
    {
        let ghost rest = s@.skip(i as int);
        assert(rest.drop_first() =~= s@.skip(i + 1));
        if s[i] == '\n' {
            let mut line = cur;
            if line.len() > 0 && line[line.len() - 1] == '\r' {
                line.pop();
            }
            assert(line@ == strip_cr(cur@));
            let ghost before = r@.map_values(|l: Vec<char>| l@);
            r.push(line);
            assert(r@.map_values(|l: Vec<char>| l@) =~= before.push(strip_cr(cur@)));
            cur = Vec::new();
            assert(before + lines_from(rest, cur@) =~= before.push(strip_cr(cur@)) + lines_from(s@.skip(i + 1), Seq::empty()));
        } else {
            cur.push(s[i]);
        }
        i = i + 1;
    }
    assert(s@.skip(i as int) =~= Seq::<char>::empty());
    if cur.len() > 0 {
        let ghost before = r@.map_values(|l: Vec<char>| l@);
        r.push(cur);
        assert(r@.map_values(|l: Vec<char>| l@) =~= before.push(cur@));
    }
    assert(r@.map_values(|l: Vec<char>| l@) =~= lines(s@));
    r
}


/// First index `k >= i` with `s[k] == c`.
pub open spec fn find_char(s: Seq<char>, c: char, i: int) -> Option<int>
    decreases s.len() - i,
{
    if i < 0 || i >= s.len() {
        None
    } else if s[i] == c {
        Some(i)
    } else {
        find_char(s, c, i + 1)
    }
}

/// First index `k >= i` where the two characters `a`, `b` start.
pub open spec fn find_pair(s: Seq<char>, a: char, b: char, i: int) -> Option<int>
    decreases s.len() - i,
{
    if i < 0 || i + 1 >= s.len() {
        None
    } else if s[i] == a && s[i + 1] == b {
        Some(i)
    } else {
        find_pair(s, a, b, i + 1)
    }
}

pub proof fn lemma_find_char(s: Seq<char>, c: char, i: int)
    requires
        0 <= i,
    ensures
        find_char(s, c, i) matches Some(k) ==> i <= k < s.len() && s[k] == c && forall|j: int|
            i <= j < k ==> s[j] != c,
        find_char(s, c, i) is None ==> forall|j: int| i <= j < s.len() ==> s[j] != c,
    decreases s.len() - i,
{
    if i < s.len() && s[i] != c {
        lemma_find_char(s, c, i + 1);
    }
}

pub proof fn lemma_find_pair(s: Seq<char>, a: char, b: char, i: int)
    requires
        0 <= i,
    ensures
        find_pair(s, a, b, i) matches Some(k) ==> i <= k && k + 1 < s.len() && s[k] == a && s[k
            + 1] == b && forall|j: int| i <= j < k ==> !(#[trigger] s[j] == a && s[j + 1] == b),
        find_pair(s, a, b, i) is None ==> forall|j: int|
            i <= j && j + 1 < s.len() ==> !(#[trigger] s[j] == a && s[j + 1] == b),
    decreases s.len() - i,
{
    if i + 1 < s.len() && !(s[i] == a && s[i + 1] == b) {
        lemma_find_pair(s, a, b, i + 1);
    }
}

pub fn find_char_index(s: &Vec<char>, c: char) -> (r: Option<usize>)
    ensures
        r matches Some(k) ==> find_char(s@, c, 0) == Some(k as int),
        r is None ==> find_char(s@, c, 0) is None,
{
    let mut i: usize = 0;
    while i < s.len()
        invariant
            i <= s.len(),
            find_char(s@, c, 0) == find_char(s@, c, i as int),
        decreases s.len() - i,
    {
        if s[i] == c {
            return Some(i);
        }
        i = i + 1;
    }
    None
}

pub fn find_pair_index(s: &Vec<char>, a: char, b: char) -> (r: Option<usize>)
    ensures
        r matches Some(k) ==> find_pair(s@, a, b, 0) == Some(k as int),
        r is None ==> find_pair(s@, a, b, 0) is None,
{
    let mut i: usize = 0;
    while s.len() > 0 && i < s.len() - 1
        invariant
            find_pair(s@, a, b, 0) == find_pair(s@, a, b, i as int),
        decreases s.len() - i,
    {
        if s[i] == a && s[i + 1] == b {
            return Some(i);
        }
        i = i + 1;
    }
    None
}

/// Number of bytes in the UTF-8 encoding of `c`.
pub open spec fn utf8_width(c: char) -> nat {
    let n = c as u32;
    if n < 0x80 {
        1
    } else if n < 0x800 {
        2
    } else if n < 0x10000 {
        3
    } else {
        4
    }
}

/// Number of bytes in the UTF-8 encoding of `s` (what `str::len` counts).
pub open spec fn byte_len(s: Seq<char>) -> nat
    decreases s.len(),
{
    if s.len() == 0 {
        0
    } else {
        utf8_width(s[0]) + byte_len(s.drop_first())
    }
}

pub proof fn lemma_byte_len_single(c: char)
    ensures
        byte_len(seq![c]) == utf8_width(c),
{
    assert(seq![c].drop_first() =~= Seq::<char>::empty());
    assert(byte_len(Seq::<char>::empty()) == 0);
}

pub proof fn lemma_byte_len_append(a: Seq<char>, b: Seq<char>)
    ensures
        byte_len(a + b) == byte_len(a) + byte_len(b),
    decreases a.len(),
{
    if a.len() > 0 {
        assert((a + b).drop_first() =~= a.drop_first() + b);
        lemma_byte_len_append(a.drop_first(), b);
    } else {
        assert(a + b =~= b);
    }
}

pub proof fn lemma_byte_len_subrange(s: Seq<char>, lo: int, hi: int)
    requires
        0 <= lo <= hi <= s.len(),
    ensures
        byte_len(s.subrange(lo, hi)) <= byte_len(s),
{
    lemma_byte_len_append(s.take(lo), s.skip(lo));
    assert(s.take(lo) + s.skip(lo) =~= s);
    lemma_byte_len_append(s.subrange(lo, hi), s.skip(hi));
    assert(s.subrange(lo, hi) + s.skip(hi) =~= s.skip(lo));
}

pub proof fn lemma_encode_utf8_len(s: Seq<char>)
    ensures
        vstd::utf8::encode_utf8(s).len() == byte_len(s),
    decreases s.len(),
{
    if s.len() > 0 {
        lemma_encode_utf8_len(s.drop_first());
        let c = s[0] as u32;
        vstd::utf8::char_is_scalar(s[0]);
        assert(vstd::utf8::encode_scalar(c).len() == utf8_width(s[0]));
    }
}

pub fn char_width(c: char) -> (w: usize)
    ensures
        w == utf8_width(c),
{
    let n = c as u32;
    if n < 0x80 {
        1
    } else if n < 0x800 {
        2
    } else if n < 0x10000 {
        3
    } else {
        4
    }
}

/// `byte_len(v[lo..hi])`.
pub fn byte_len_of(v: &Vec<char>, lo: usize, hi: usize) -> (n: usize)
    requires
        lo <= hi <= v.len(),
        byte_len(v@) <= usize::MAX,
    ensures
        n == byte_len(v@.subrange(lo as int, hi as int)),
{
    proof {
        lemma_byte_len_subrange(v@, lo as int, hi as int);
    }
    let mut n: usize = 0;
    let mut i = lo;
    while i < hi
        invariant
            lo <= i <= hi <= v.len(),
            n == byte_len(v@.subrange(lo as int, i as int)),
            byte_len(v@.subrange(lo as int, hi as int)) <= usize::MAX,
        decreases hi - i,
    {
        proof {
            let a = v@.subrange(lo as int, i as int);
            let b = v@.subrange(i as int, i + 1);
            lemma_byte_len_append(a, b);
            assert(a + b =~= v@.subrange(lo as int, i + 1));
            lemma_byte_len_append(v@.subrange(lo as int, i + 1), v@.subrange(i + 1, hi as int));
            assert(v@.subrange(lo as int, i + 1) + v@.subrange(i + 1, hi as int) =~= v@.subrange(
                lo as int,
                hi as int,
            ));
            assert(byte_len(b) == utf8_width(v@[i as int])) by {
                assert(b.drop_first() =~= Seq::<char>::empty());
                assert(byte_len(b.drop_first()) == 0);
                assert(b[0] == v@[i as int]);
            }
        }
        n = n + char_width(v[i]);
        i = i + 1;
    }
    n
}

/// The characters of `s`, with the fact that its UTF-8 encoding fits
/// in memory.
pub fn chars_with_len(s: &str) -> (r: Vec<char>)
    ensures
        r@ == s@,
        byte_len(s@) <= usize::MAX,
{
    let bytes = s.as_bytes();
    let _n = bytes.len();
    proof {
        broadcast use vstd::slice::group_slice_axioms;

        lemma_encode_utf8_len(s@);
    }
    chars_of(s)
}


pub open spec fn is_digit(c: char) -> bool {
    48 <= (c as u32) && (c as u32) <= 57
}

pub open spec fn digit_value(c: char) -> nat {
    ((c as u32) - 48) as nat
}

/// The decimal digit for `d < 10`.
pub open spec fn digit_char(d: nat) -> char {
    if d == 0 {
        '0'
    } else if d == 1 {
        '1'
    } else if d == 2 {
        '2'
    } else if d == 3 {
        '3'
    } else if d == 4 {
        '4'
    } else if d == 5 {
        '5'
    } else if d == 6 {
        '6'
    } else if d == 7 {
        '7'
    } else if d == 8 {
        '8'
    } else {
        '9'
    }
}

/// `n.to_string()` for an unsigned integer: its decimal digits, no sign,
/// no leading zero.
pub open spec fn decimal(n: nat) -> Seq<char>
    decreases n,
{
    if n < 10 {
        seq![digit_char(n)]
    } else {
        decimal(n / 10).push(digit_char(n % 10))
    }
}

/// The number that a string of decimal digits spells.
pub open spec fn digits_value(s: Seq<char>) -> nat
    decreases s.len(),
{
    if s.len() == 0 {
        0
    } else {
        digits_value(s.drop_last()) * 10 + digit_value(s.last())
    }
}

pub proof fn lemma_digit_char(d: nat)
    requires
        d < 10,
    ensures
        is_digit(digit_char(d)),
        digit_value(digit_char(d)) == d,
{
}

pub proof fn lemma_decimal(n: nat)
    ensures
        decimal(n).len() > 0,
        forall|k: int| 0 <= k < decimal(n).len() ==> is_digit(#[trigger] decimal(n)[k]),
        digits_value(decimal(n)) == n,
    decreases n,
{
    if n < 10 {
        lemma_digit_char(n);
        assert(decimal(n).drop_last() =~= Seq::<char>::empty());
        assert(digits_value(Seq::<char>::empty()) == 0);
    } else {
        lemma_decimal(n / 10);
        lemma_digit_char(n % 10);
        assert(decimal(n).drop_last() =~= decimal(n / 10));
        assert(n == (n / 10) * 10 + n % 10);
        assert(decimal(n).last() == digit_char(n % 10));
        assert(digits_value(decimal(n)) == digits_value(decimal(n / 10)) * 10 + digit_value(
            digit_char(n % 10),
        ));
    }
}

/// A string of digits is worth at least as much as any of its prefixes.
pub proof fn lemma_digits_value_prefix(s: Seq<char>, j: int)
    requires
        0 <= j <= s.len(),
    ensures
        digits_value(s.take(j)) <= digits_value(s),
    decreases s.len(),
{
    if j < s.len() {
        assert(s.drop_last().take(j) =~= s.take(j));
        lemma_digits_value_prefix(s.drop_last(), j);
    } else {
        assert(s.take(j) =~= s);
    }
}

pub fn digit_to_char(d: usize) -> (c: char)
    requires
        d < 10,
    ensures
        c == digit_char(d as nat),
{
    if d == 0 {
        '0'
    } else if d == 1 {
        '1'
    } else if d == 2 {
        '2'
    } else if d == 3 {
        '3'
    } else if d == 4 {
        '4'
    } else if d == 5 {
        '5'
    } else if d == 6 {
        '6'
    } else if d == 7 {
        '7'
    } else if d == 8 {
        '8'
    } else {
        '9'
    }
}

/// `n.to_string()`.
pub fn to_decimal(n: usize) -> (r: Vec<char>)
    ensures
        r@ == decimal(n as nat),
    decreases n,
{
    if n < 10 {
        let mut r: Vec<char> = Vec::new();
        r.push(digit_to_char(n));
        assert(r@ =~= decimal(n as nat));
        r
    } else {
        let mut r = to_decimal(n / 10);
        r.push(digit_to_char(n % 10));
        r
    }
}

/// `Some(i)` when `k` is the decimal form of an `i < bound`; `None` when
/// it is the decimal form of no such number.
pub fn index_key(k: &Vec<char>, bound: usize) -> (r: Option<usize>)
    ensures
        r matches Some(i) ==> i < bound && k@ == decimal(i as nat),
        r is None ==> forall|i: nat| i < bound ==> k@ != #[trigger] decimal(i),
{
    if bound == 0 {
        return None;
    }
    let mut v: u128 = 0;
    let mut j: usize = 0;
    assert(k@.take(0) =~= Seq::<char>::empty());
    while j < k.len()
        invariant
            j <= k.len(),
            v < bound,
            v == digits_value(k@.take(j as int)),
            forall|t: int| 0 <= t < j ==> is_digit(#[trigger] k@[t]),
        decreases k.len() - j,
    {
        let c = k[j];
        let n = c as u32;
        if n < 48 || n > 57 {
            proof {
                assert forall|i: nat| i < bound implies k@ != #[trigger] decimal(i) by {
                    lemma_decimal(i);
                    if k@ == decimal(i) {
                        assert(is_digit(k@[j as int]));
                    }
                }
            }
            return None;
        }
        proof {
            assert(k@.take(j + 1).drop_last() =~= k@.take(j as int));
        }
        let nv: u128 = v * 10 + (n - 48) as u128;
        if nv >= bound as u128 {
            proof {
                assert forall|i: nat| i < bound implies k@ != #[trigger] decimal(i) by {
                    lemma_decimal(i);
                    if k@ == decimal(i) {
                        lemma_digits_value_prefix(k@, j + 1);
                    }
                }
            }
            return None;
        }
        v = nv;
        j = j + 1;
    }
    proof {
        assert(k@.take(k.len() as int) =~= k@);
    }
    let candidate: usize = v as usize;
    let d = to_decimal(candidate);
    if seq_eq(&d, k) {
        Some(candidate)
    } else {
        proof {
            assert forall|i: nat| i < bound implies k@ != #[trigger] decimal(i) by {
                lemma_decimal(i);
            }
        }
        None
    }
}


/// Each line followed by `'\n'`.
pub open spec fn terminated_text(ls: Seq<Seq<char>>) -> Seq<char>
    decreases ls.len(),
{
    if ls.len() == 0 {
        Seq::empty()
    } else {
        terminated_text(ls.drop_last()) + ls.last() + seq!['\n']
    }
}

} // verus!
