//! Character-level helpers shared by every module that reads text.
//!
//! Text is handled as sequences of `char`: a `String`'s view is its
//! characters, and every contract here is stated over that view.

use vstd::prelude::*;

verus! {

/// The characters of a string slice, in order.
pub fn chars_of(s: &str) -> (v: Vec<char>)
    ensures
        v@ == s@,
{
    broadcast use vstd::string::group_string_axioms;
    let mut v: Vec<char> = Vec::new();
    for c in it: s.chars()
        invariant
            v@ == it.seq().take(it.index() as int),
    {
        v.push(c);
    }
    v
}

/// A `String` holding exactly these characters (`String::from_iter`).
#[verifier::external_body]
pub(crate) fn string_of(v: &[char]) -> (s: String)
    ensures
        s@ == v@,
{
    v.iter().collect()
}

/// Whether two character sequences are equal.
pub fn chars_eq(a: &[char], b: &[char]) -> (r: bool)
    ensures
        r == (a@ == b@),
{
    if a.len() != b.len() {
        return false;
    }
    let mut i: usize = 0;
    while i < a.len()
        invariant
            a@.len() == b@.len(),
            i <= a@.len(),
            forall|j: int| 0 <= j < i ==> a@[j] == b@[j],
        decreases a@.len() - i,
    {
        if a[i] != b[i] {
            return false;
        }
        i = i + 1;
    }
    assert(a@ =~= b@);
    true
}

/// Whether two string slices hold the same characters.
pub fn str_eq(a: &str, b: &str) -> (r: bool)
    ensures
        r == (a@ == b@),
{
    let x = chars_of(a);
    let y = chars_of(b);
    chars_eq(x.as_slice(), y.as_slice())
}

/// Whether `s` begins with `p`.
pub open spec fn starts_with(s: Seq<char>, p: Seq<char>) -> bool {
    p.len() <= s.len() && s.take(p.len() as int) == p
}

/// Whether `s` ends with `p`.
pub open spec fn ends_with(s: Seq<char>, p: Seq<char>) -> bool {
    p.len() <= s.len() && s.skip(s.len() - p.len()) == p
}

/// Whether `c` occurs in `s`.
pub open spec fn has_char(s: Seq<char>, c: char) -> bool {
    exists|i: int| 0 <= i < s.len() && s[i] == c
}

/// Executable [`starts_with`].
pub fn chars_start_with(s: &[char], p: &[char]) -> (r: bool)
    ensures
        r == starts_with(s@, p@),
{
    if p.len() > s.len() {
        return false;
    }
    let mut i: usize = 0;
    while i < p.len()
        invariant
            p@.len() <= s@.len(),
            i <= p@.len(),
            forall|j: int| 0 <= j < i ==> s@[j] == p@[j],
        decreases p@.len() - i,
    {
        if s[i] != p[i] {
            assert(s@.take(p@.len() as int)[i as int] != p@[i as int]);
            return false;
        }
        i = i + 1;
    }
    assert(s@.take(p@.len() as int) =~= p@);
    true
}

/// Executable [`ends_with`].
pub fn chars_end_with(s: &[char], p: &[char]) -> (r: bool)
    ensures
        r == ends_with(s@, p@),
{
    if p.len() > s.len() {
        return false;
    }
    let off = s.len() - p.len();
    let mut i: usize = 0;
    while i < p.len()
        invariant
            p@.len() <= s@.len(),
            s@.len() == s.len(),
            off == s@.len() - p@.len(),
            i <= p@.len(),
            forall|j: int| 0 <= j < i ==> s@[off + j] == p@[j],
        decreases p@.len() - i,
    {
        if s[off + i] != p[i] {
            assert(s@.skip(off as int)[i as int] != p@[i as int]);
            return false;
        }
        i = i + 1;
    }
    assert(s@.skip(off as int) =~= p@);
    true
}

/// Executable [`has_char`].
pub fn chars_contain(s: &[char], c: char) -> (r: bool)
    ensures
        r == has_char(s@, c),
{
    let mut i: usize = 0;
    while i < s.len()
        invariant
            i <= s@.len(),
            forall|j: int| 0 <= j < i ==> s@[j] != c,
        decreases s@.len() - i,
    {
        if s[i] == c {
            return true;
        }
        i = i + 1;
    }
    false
}

/// Unicode `White_Space`, the property `char::is_whitespace` tests.
pub open spec fn is_space(c: char) -> bool {
    let u = c as u32;
    ||| 0x9 <= u <= 0xD
    ||| u == 0x20
    ||| u == 0x85
    ||| u == 0xA0
    ||| u == 0x1680
    ||| 0x2000 <= u <= 0x200A
    ||| u == 0x2028
    ||| u == 0x2029
    ||| u == 0x202F
    ||| u == 0x205F
    ||| u == 0x3000
}

/// Executable [`is_space`].
pub fn char_is_space(c: char) -> (r: bool)
    ensures
        r == is_space(c),
{
    let u = c as u32;
    (0x9 <= u && u <= 0xD) || u == 0x20 || u == 0x85 || u == 0xA0 || u == 0x1680 || (0x2000 <= u
        && u <= 0x200A) || u == 0x2028 || u == 0x2029 || u == 0x202F || u == 0x205F || u == 0x3000
}

/// How many leading characters of `s` are white space.
pub open spec fn leading_space(s: Seq<char>) -> nat
    decreases s.len(),
{
    if s.len() > 0 && is_space(s[0]) {
        1 + leading_space(s.drop_first())
    } else {
        0
    }
}

/// How many trailing characters of `s` are white space.
pub open spec fn trailing_space(s: Seq<char>) -> nat
    decreases s.len(),
{
    if s.len() > 0 && is_space(s.last()) {
        1 + trailing_space(s.drop_last())
    } else {
        0
    }
}

/// `str::trim_start`.
pub open spec fn trim_start(s: Seq<char>) -> Seq<char> {
    s.skip(leading_space(s) as int)
}

/// `str::trim_end`.
pub open spec fn trim_end(s: Seq<char>) -> Seq<char> {
    s.take(s.len() - trailing_space(s))
}

/// `str::trim`.
pub open spec fn trim(s: Seq<char>) -> Seq<char> {
    trim_end(trim_start(s))
}

pub proof fn lemma_leading_space_bound(s: Seq<char>)
    ensures
        leading_space(s) <= s.len(),
        forall|j: int| 0 <= j < leading_space(s) ==> is_space(#[trigger] s[j]),
        leading_space(s) < s.len() ==> !is_space(s[leading_space(s) as int]),
    decreases s.len(),
{
    if s.len() > 0 && is_space(s[0]) {
        lemma_leading_space_bound(s.drop_first());
        assert forall|j: int| 0 <= j < leading_space(s) implies is_space(#[trigger] s[j]) by {
            if j > 0 {
                assert(s[j] == s.drop_first()[j - 1]);
            }
        }
    }
}

pub proof fn lemma_trailing_space_bound(s: Seq<char>)
    ensures
        trailing_space(s) <= s.len(),
        forall|j: int| s.len() - trailing_space(s) <= j < s.len() ==> is_space(#[trigger] s[j]),
        trailing_space(s) < s.len() ==> !is_space(s[s.len() - trailing_space(s) - 1]),
    decreases s.len(),
{
    if s.len() > 0 && is_space(s.last()) {
        lemma_trailing_space_bound(s.drop_last());
        assert forall|j: int| s.len() - trailing_space(s) <= j < s.len() implies is_space(
            #[trigger] s[j],
        ) by {
            if j < s.len() - 1 {
                assert(s[j] == s.drop_last()[j]);
            }
        }
    }
}

/// Proves that counting leading white space by index gives [`leading_space`].
pub proof fn lemma_leading_space_index(s: Seq<char>, k: int)
    requires
        0 <= k <= s.len(),
        forall|j: int| 0 <= j < k ==> is_space(#[trigger] s[j]),
        k == s.len() || !is_space(s[k]),
    ensures
        leading_space(s) == k,
    decreases s.len(),
{
    if k > 0 {
        assert(is_space(s[0]));
        let t = s.drop_first();
        assert forall|j: int| 0 <= j < k - 1 implies is_space(#[trigger] t[j]) by {
            assert(t[j] == s[j + 1]);
        }
        if k < s.len() {
            assert(t[k - 1] == s[k]);
        }
        lemma_leading_space_index(t, k - 1);
    }
}

/// Proves that counting trailing white space by index gives [`trailing_space`].
pub proof fn lemma_trailing_space_index(s: Seq<char>, k: int)
    requires
        0 <= k <= s.len(),
        forall|j: int| s.len() - k <= j < s.len() ==> is_space(#[trigger] s[j]),
        k == s.len() || !is_space(s[s.len() - k - 1]),
    ensures
        trailing_space(s) == k,
    decreases s.len(),
{
    if k > 0 {
        assert(is_space(s[s.len() - 1]));
        let t = s.drop_last();
        assert forall|j: int| t.len() - (k - 1) <= j < t.len() implies is_space(#[trigger] t[j]) by {
            assert(t[j] == s[j]);
        }
        if k < s.len() {
            assert(t[t.len() - (k - 1) - 1] == s[s.len() - k - 1]);
        }
        lemma_trailing_space_index(t, k - 1);
    }
}

/// The characters of `s[lo..hi]`.
pub fn slice_chars(s: &[char], lo: usize, hi: usize) -> (r: Vec<char>)
    requires
        lo <= hi <= s@.len(),
    ensures
        r@ == s@.subrange(lo as int, hi as int),
{
    let mut r: Vec<char> = Vec::new();
    let mut i = lo;
    while i < hi
        invariant
            lo <= i <= hi <= s@.len(),
            r@ == s@.subrange(lo as int, i as int),
        decreases hi - i,
    {
        r.push(s[i]);
        i = i + 1;
        assert(r@ =~= s@.subrange(lo as int, i as int));
    }
    r
}

/// `trim_start` on characters.
pub fn chars_trim_start(s: &[char]) -> (r: Vec<char>)
    ensures
        r@ == trim_start(s@),
{
    let mut k: usize = 0;
    while k < s.len() && char_is_space(s[k])
        invariant
            k <= s@.len(),
            forall|j: int| 0 <= j < k ==> is_space(#[trigger] s@[j]),
        decreases s@.len() - k,
    {
        k = k + 1;
    }
    proof {
        lemma_leading_space_index(s@, k as int);
    }
    slice_chars(s, k, s.len())
}

/// `trim_end` on characters.
pub fn chars_trim_end(s: &[char]) -> (r: Vec<char>)
    ensures
        r@ == trim_end(s@),
{
    let mut k: usize = 0;
    while k < s.len() && char_is_space(s[s.len() - 1 - k])
        invariant
            k <= s@.len(),
            forall|j: int| s@.len() - k <= j < s@.len() ==> is_space(#[trigger] s@[j]),
        decreases s@.len() - k,
    {
        k = k + 1;
    }
    proof {
        lemma_trailing_space_index(s@, k as int);
    }
    slice_chars(s, 0, s.len() - k)
}

/// `trim` on characters.
pub fn chars_trim(s: &[char]) -> (r: Vec<char>)
    ensures
        r@ == trim(s@),
{
    let a = chars_trim_start(s);
    chars_trim_end(a.as_slice())
}

/// The decimal digits of a natural number, most significant first.
pub open spec fn decimal(n: nat) -> Seq<char>
    decreases n,
{
    if n < 10 {
        seq![digit(n)]
    } else {
        decimal(n / 10).push(digit(n % 10))
    }
}

/// The numeral for a single digit.
pub open spec fn digit(d: nat) -> char {
    if d == 0 {
        '0'
    } else if d == 1 {
        '1'
    } else if d == 2 {
        '2'
    } else if d == 3 {
        '3'
    } else if d == 4 {
        '4'
    } else if d == 5 {
        '5'
    } else if d == 6 {
        '6'
    } else if d == 7 {
        '7'
    } else if d == 8 {
        '8'
    } else {
        '9'
    }
}

fn digit_char(d: u64) -> (c: char)
    requires
        d < 10,
    ensures
        c == digit(d as nat),
{
    if d == 0 {
        '0'
    } else if d == 1 {
        '1'
    } else if d == 2 {
        '2'
    } else if d == 3 {
        '3'
    } else if d == 4 {
        '4'
    } else if d == 5 {
        '5'
    } else if d == 6 {
        '6'
    } else if d == 7 {
        '7'
    } else if d == 8 {
        '8'
    } else {
        '9'
    }
}

/// The decimal rendering of `n`, as `n.to_string()` gives it.
pub fn decimal_chars(n: u64) -> (r: Vec<char>)
    ensures
        r@ == decimal(n as nat),
    decreases n,
{
    if n < 10 {
        let mut r: Vec<char> = Vec::new();
        r.push(digit_char(n));
        r
    } else {
        let mut r = decimal_chars(n / 10);
        r.push(digit_char(n % 10));
        r
    }
}

/// The decimal rendering of a wide `n`.
pub fn decimal_chars_wide(n: u128) -> (r: Vec<char>)
    ensures
        r@ == decimal(n as nat),
    decreases n,
{
    if n < 10 {
        let mut r: Vec<char> = Vec::new();
        r.push(digit_char(n as u64));
        r
    } else {
        let mut r = decimal_chars_wide(n / 10);
        r.push(digit_char((n % 10) as u64));
        r
    }
}

/// Appends the characters of `b` to `a`.
pub fn append_chars(a: &mut Vec<char>, b: &[char])
    ensures
        final(a)@ == old(a)@ + b@,
{
    let ghost a0 = a@;
    let mut i: usize = 0;
    while i < b.len()
        invariant
            i <= b@.len(),
            a@ == a0 + b@.take(i as int),
        decreases b@.len() - i,
    {
        a.push(b[i]);
        i = i + 1;
        assert(a@ =~= a0 + b@.take(i as int));
    }
    assert(b@.take(b@.len() as int) =~= b@);
}

/// Appends the characters of a string slice to `a`.
pub fn append_str(a: &mut Vec<char>, b: &str)
    ensures
        final(a)@ == old(a)@ + b@,
{
    let v = chars_of(b);
    append_chars(a, v.as_slice());
}

} // verus!

verus! {

/// Bytes in the UTF-8 encoding of `c`.
pub open spec fn utf8_width(c: char) -> nat {
    let u = c as u32;
    if u < 0x80 {
        1
    } else if u < 0x800 {
        2
    } else if u < 0x10000 {
        3
    } else {
        4
    }
}

/// Bytes in the UTF-8 encoding of `s`: what `str::len` returns.
pub open spec fn utf8_len(s: Seq<char>) -> nat
    decreases s.len(),
{
    if s.len() == 0 {
        0
    } else {
        utf8_width(s[0]) + utf8_len(s.drop_first())
    }
}

/// Executable [`utf8_width`].
pub fn char_utf8_width(c: char) -> (w: usize)
    ensures
        w == utf8_width(c),
{
    let u = c as u32;
    if u < 0x80 {
        1
    } else if u < 0x800 {
        2
    } else if u < 0x10000 {
        3
    } else {
        4
    }
}

pub proof fn lemma_utf8_len_take(s: Seq<char>, k: int)
    requires
        0 <= k < s.len(),
    ensures
        utf8_len(s.take(k + 1)) == utf8_len(s.take(k)) + utf8_width(s[k]),
    decreases k,
{
    if k == 0 {
        assert(s.take(1).drop_first() =~= Seq::<char>::empty());
        assert(s.take(0) =~= Seq::<char>::empty());
        assert(s.take(1)[0] == s[0]);
    } else {
        let t = s.drop_first();
        lemma_utf8_len_take(t, k - 1);
        assert(s.take(k + 1).drop_first() =~= t.take(k));
        assert(s.take(k).drop_first() =~= t.take(k - 1));
    }
}

/// Whether `s` takes fewer than `n` bytes in UTF-8, without summing
/// past `n`.
pub fn utf8_len_below(s: &[char], n: usize) -> (r: bool)
    ensures
        r == (utf8_len(s@) < n),
{
    if n == 0 {
        return false;
    }
    let mut acc: usize = 0;
    let mut i: usize = 0;
    assert(s@.take(0) =~= Seq::<char>::empty());
    while i < s.len()
        invariant
            i <= s@.len(),
            acc == utf8_len(s@.take(i as int)),
            acc < n,
        decreases s@.len() - i,
    {
        proof {
            lemma_utf8_len_take(s@, i as int);
        }
        let w = char_utf8_width(s[i]);
        i = i + 1;
        if w >= n - acc {
            proof {
                lemma_utf8_len_prefix_le(s@, i as int);
            }
            return false;
        }
        acc = acc + w;
    }
    assert(s@.take(s@.len() as int) =~= s@);
    true
}

/// A prefix takes no more bytes than the whole.
pub proof fn lemma_utf8_len_prefix_le(s: Seq<char>, k: int)
    requires
        0 <= k <= s.len(),
    ensures
        utf8_len(s.take(k)) <= utf8_len(s),
    decreases s.len(),
{
    if k > 0 {
        lemma_utf8_len_prefix_le(s.drop_first(), k - 1);
        assert(s.take(k).drop_first() =~= s.drop_first().take(k - 1));
    }
}

/// The fields of `s` between occurrences of `sep`, empty fields
/// dropped: `s.split(sep).filter(|f| !f.is_empty())`.
pub open spec fn fields(s: Seq<char>, sep: char) -> Seq<Seq<char>>
    decreases s.len(),
{
    if s.len() == 0 {
        Seq::empty()
    } else {
        let k = first_index(s, sep);
        let piece = s.take(k as int);
        let head = if piece.len() > 0 {
            seq![piece]
        } else {
            Seq::empty()
        };
        if k < s.len() {
            head + fields(s.skip(k as int + 1), sep)
        } else {
            head
        }
    }
}

/// The index of the first `c` in `s`, or its length when there is none.
pub open spec fn first_index(s: Seq<char>, c: char) -> nat
    decreases s.len(),
{
    if s.len() == 0 {
        0
    } else if s[0] == c {
        0
    } else {
        1 + first_index(s.drop_first(), c)
    }
}

pub proof fn lemma_first_index(s: Seq<char>, c: char)
    ensures
        first_index(s, c) <= s.len(),
        forall|j: int| 0 <= j < first_index(s, c) ==> s[j] != c,
        first_index(s, c) < s.len() ==> s[first_index(s, c) as int] == c,
    decreases s.len(),
{
    if s.len() > 0 && s[0] != c {
        lemma_first_index(s.drop_first(), c);
        assert forall|j: int| 0 <= j < first_index(s, c) implies s[j] != c by {
            if j > 0 {
                assert(s[j] == s.drop_first()[j - 1]);
            }
        }
    }
}

pub proof fn lemma_first_index_at(s: Seq<char>, c: char, k: int)
    requires
        0 <= k <= s.len(),
        forall|j: int| 0 <= j < k ==> s[j] != c,
        k == s.len() || s[k] == c,
    ensures
        first_index(s, c) == k,
    decreases s.len(),
{
    if k > 0 {
        let t = s.drop_first();
        assert forall|j: int| 0 <= j < k - 1 implies t[j] != c by {
            assert(t[j] == s[j + 1]);
        }
        if k < s.len() {
            assert(t[k - 1] == s[k]);
        }
        lemma_first_index_at(t, c, k - 1);
    }
}

/// Executable [`first_index`], searching from `from`.
pub fn find_char_from(s: &[char], c: char, from: usize) -> (k: usize)
    requires
        from <= s@.len(),
    ensures
        from <= k <= s@.len(),
        k - from == first_index(s@.skip(from as int), c),
{
    let mut k = from;
    while k < s.len() && s[k] != c
        invariant
            from <= k <= s@.len(),
            forall|j: int| from <= j < k ==> s@[j] != c,
        decreases s@.len() - k,
    {
        k = k + 1;
    }
    proof {
        let t = s@.skip(from as int);
        assert forall|j: int| 0 <= j < k - from implies t[j] != c by {
            assert(t[j] == s@[from + j]);
        }
        if k < s@.len() {
            assert(t[k - from] == s@[k as int]);
        }
        lemma_first_index_at(t, c, k - from);
    }
    k
}

/// Splits on `sep`, dropping empty fields.
pub fn split_fields(s: &[char], sep: char) -> (r: Vec<Vec<char>>)
    ensures
        char_views(r@) == fields(s@, sep),
{
    let mut r: Vec<Vec<char>> = Vec::new();
    let mut pos: usize = 0;
    assert(s@.skip(0) =~= s@);
    assert(char_views(r@) =~= Seq::<Seq<char>>::empty());
    assert(Seq::<Seq<char>>::empty() + fields(s@, sep) =~= fields(s@, sep));
    while pos < s.len()
        invariant
            pos <= s@.len(),
            char_views(r@) + fields(s@.skip(pos as int), sep) == fields(s@, sep),
        decreases s@.len() - pos,
    {
        let ghost rest = s@.skip(pos as int);
        let k = find_char_from(s, sep, pos);
        let piece = slice_chars(s, pos, k);
        assert(piece@ =~= rest.take((k - pos) as int));
        let ghost old_r = char_views(r@);
        if piece.len() > 0 {
            r.push(piece);
        }
        assert(char_views(r@) =~= old_r + (if piece@.len() > 0 {
            seq![piece@]
        } else {
            Seq::empty()
        }));
        if k < s.len() {
            assert(rest.skip(k - pos + 1) =~= s@.skip(k + 1));
            pos = k + 1;
        } else {
            assert(fields(s@.skip(s@.len() as int), sep) =~= Seq::<Seq<char>>::empty());
            pos = k;
        }
    }
    assert(s@.skip(s@.len() as int) =~= Seq::<char>::empty());
    assert(char_views(r@) + Seq::<Seq<char>>::empty() =~= char_views(r@));
    r
}

} // verus!

verus! {

/// Every character takes between one and four bytes.
pub proof fn lemma_utf8_len_bounds(s: Seq<char>)
    ensures
        s.len() <= utf8_len(s) <= 4 * s.len(),
    decreases s.len(),
{
    if s.len() > 0 {
        lemma_utf8_len_bounds(s.drop_first());
    }
}

/// A `String` holding exactly these characters, when they come as a
/// vector.
pub fn string_of_vec(v: &Vec<char>) -> (s: String)
    ensures
        s@ == v@,
{
    string_of(v.as_slice())
}

/// The view of an optional string.
pub open spec fn opt_view(o: Option<String>) -> Option<Seq<char>> {
    match o {
        Some(s) => Some(s@),
        None => None,
    }
}


/// The views of a list of character vectors.
pub open spec fn char_views(v: Seq<Vec<char>>) -> Seq<Seq<char>> {
    v.map_values(|f: Vec<char>| f@)
}

/// The views of a list of pairs of character vectors.
pub open spec fn pair_char_views(v: Seq<(Vec<char>, Vec<char>)>) -> Seq<(Seq<char>, Seq<char>)> {
    v.map_values(|e: (Vec<char>, Vec<char>)| (e.0@, e.1@))
}


/// Membership after a push.
pub proof fn lemma_push_contains<A>(s: Seq<A>, x: A)
    ensures
        forall|v: A| #[trigger] s.push(x).contains(v) <==> (s.contains(v) || v == x),
{
    assert forall|v: A| #[trigger] s.push(x).contains(v) <==> (s.contains(v) || v == x) by {
        if s.push(x).contains(v) {
            let j = choose|j: int| 0 <= j < s.push(x).len() && s.push(x)[j] == v;
            if j < s.len() {
                assert(s[j] == v);
            }
        }
        if s.contains(v) {
            let j = choose|j: int| 0 <= j < s.len() && s[j] == v;
            assert(s.push(x)[j] == v);
        }
        if v == x {
            assert(s.push(x)[s.len() as int] == x);
        }
    }
}

/// The views of a list of owned strings.
pub open spec fn views(v: Seq<String>) -> Seq<Seq<char>> {
    v.map_values(|s: String| s@)
}

/// The views of a list of pairs of owned strings.
pub open spec fn pair_views(v: Seq<(String, String)>) -> Seq<(Seq<char>, Seq<char>)> {
    v.map_values(|p: (String, String)| (p.0@, p.1@))
}

/// The characters of each string of each pair.
pub fn string_pairs_chars(v: &[(String, String)]) -> (r: Vec<(Vec<char>, Vec<char>)>)
    ensures
        pair_char_views(r@) == pair_views(v@),
{
    let mut r: Vec<(Vec<char>, Vec<char>)> = Vec::new();
    let mut i: usize = 0;
    while i < v.len()
        invariant
            i <= v@.len(),
            r@.len() == i,
            forall|j: int| 0 <= j < i ==> #[trigger] pair_char_views(r@)[j] == pair_views(v@)[j],
        decreases v@.len() - i,
    {
        let a = chars_of(v[i].0.as_str());
        let b = chars_of(v[i].1.as_str());
        let ghost r0 = r@;
        r.push((a, b));
        assert forall|j: int| 0 <= j < i + 1 implies #[trigger] pair_char_views(r@)[j] == pair_views(
            v@,
        )[j] by {
            if j < i {
                assert(r@[j] == r0[j]);
                assert(pair_char_views(r0)[j] == pair_views(v@)[j]);
            }
        }
        i = i + 1;
    }
    assert(pair_char_views(r@) =~= pair_views(v@));
    r
}

} // verus!

verus! {

/// The pieces of `s` between occurrences of `sep`, empty ones kept,
/// as `s.split(sep)` gives them: always at least one.
pub open spec fn pieces(s: Seq<char>, sep: char) -> Seq<Seq<char>>
    decreases s.len(),
{
    let k = first_index(s, sep);
    if k < s.len() {
        seq![s.take(k as int)] + pieces(s.skip(k as int + 1), sep)
    } else {
        seq![s]
    }
}

/// Splits on `sep`, keeping empty pieces.
pub fn split_pieces(s: &[char], sep: char) -> (r: Vec<Vec<char>>)
    ensures
        char_views(r@) == pieces(s@, sep),
{
    let mut r: Vec<Vec<char>> = Vec::new();
    let mut pos: usize = 0;
    assert(s@.skip(0) =~= s@);
    assert(char_views(r@) + pieces(s@.skip(0), sep) =~= pieces(s@, sep));
    loop
        invariant_except_break
            pos <= s@.len(),
            char_views(r@) + pieces(s@.skip(pos as int), sep) == pieces(s@, sep),
        ensures
            char_views(r@) == pieces(s@, sep),
        decreases s@.len() - pos,
    {
        let ghost rest = s@.skip(pos as int);
        let k = find_char_from(s, sep, pos);
        let piece = slice_chars(s, pos, k);
        assert(piece@ =~= rest.take((k - pos) as int));
        let ghost old_r = char_views(r@);
        r.push(piece);
        assert(char_views(r@) =~= old_r.push(piece@));
        if k < s.len() {
            assert(rest.skip(k - pos + 1) =~= s@.skip(k + 1));
            assert(old_r + pieces(rest, sep) =~= char_views(r@) + pieces(s@.skip(k + 1), sep));
            pos = k + 1;
        } else {
            assert(rest.take((k - pos) as int) =~= rest);
            assert(old_r + pieces(rest, sep) =~= char_views(r@));
            break;
        }
    }
    r
}

/// The segments joined with `sep` between them.
pub open spec fn join(segs: Seq<Seq<char>>, sep: Seq<char>) -> Seq<char>
    decreases segs.len(),
{
    if segs.len() == 0 {
        Seq::empty()
    } else if segs.len() == 1 {
        segs[0]
    } else {
        join(segs.drop_last(), sep) + sep + segs.last()
    }
}

/// [`join`] on characters.
pub fn join_chars(segs: &Vec<Vec<char>>, sep: &[char]) -> (r: Vec<char>)
    ensures
        r@ == join(char_views(segs@), sep@),
{
    let mut r: Vec<char> = Vec::new();
    let mut i: usize = 0;
    while i < segs.len()
        invariant
            i <= segs@.len(),
            r@ == join(char_views(segs@).take(i as int), sep@),
        decreases segs@.len() - i,
    {
        let ghost pre = char_views(segs@).take(i + 1);
        assert(pre.drop_last() =~= char_views(segs@).take(i as int));
        assert(pre.last() == segs@[i as int]@);
        if i > 0 {
            append_chars(&mut r, sep);
        }
        append_chars(&mut r, segs[i].as_slice());
        if i == 0 {
            assert(r@ =~= pre[0]);
        }
        i = i + 1;
    }
    assert(char_views(segs@).take(segs@.len() as int) =~= char_views(segs@));
    r
}

/// The index of the last `c` in `s`, if any.
pub open spec fn last_index(s: Seq<char>, c: char) -> Option<nat>
    decreases s.len(),
{
    if s.len() == 0 {
        None
    } else if s.last() == c {
        Some((s.len() - 1) as nat)
    } else {
        last_index(s.drop_last(), c)
    }
}

pub proof fn lemma_last_index(s: Seq<char>, c: char)
    ensures
        match last_index(s, c) {
            Some(i) => i < s.len() && s[i as int] == c && forall|j: int| i < j < s.len() ==> s[j] != c,
            None => forall|j: int| 0 <= j < s.len() ==> s[j] != c,
        },
    decreases s.len(),
{
    if s.len() > 0 && s.last() != c {
        lemma_last_index(s.drop_last(), c);
        let t = s.drop_last();
        assert forall|j: int| 0 <= j < t.len() implies t[j] == s[j] by {}
    }
}

/// Executable [`last_index`].
pub fn find_last(s: &[char], c: char) -> (r: Option<usize>)
    ensures
        match r {
            Some(i) => last_index(s@, c) == Some(i as nat),
            None => last_index(s@, c) is None,
        },
{
    let mut k = s.len();
    assert(s@.take(k as int) =~= s@);
    while k > 0
        invariant
            k <= s@.len(),
            last_index(s@, c) == last_index(s@.take(k as int), c),
        decreases k,
    {
        let ghost pre = s@.take(k as int);
        assert(pre.last() == s@[k - 1]);
        assert(pre.drop_last() =~= s@.take(k - 1));
        if s[k - 1] == c {
            return Some(k - 1);
        }
        k = k - 1;
    }
    None
}

} // verus!

verus! {

/// What `str::to_lowercase` gives for these characters: their Unicode
/// lowercase, which is not always character by character (a capital
/// sigma at the end of a word becomes a final sigma).
pub uninterp spec fn lowercase(s: Seq<char>) -> Seq<char>;

/// `str::to_lowercase`: the string's Unicode lowercase. The contract
/// names the result and says nothing of the mapping itself.
#[verifier::external_body]
pub(crate) fn to_lowercase(s: &str) -> (r: String)
    ensures
        r@ == lowercase(s@),
{
    s.to_lowercase()
}

} // verus!

verus! {

/// What `{:?}` renders for a string: the text in double quotes, with
/// quotes, backslashes and non-printing characters escaped.
pub uninterp spec fn debug_text(s: Seq<char>) -> Seq<char>;

/// `<str as Debug>::fmt`, as `format!("{s:?}")` gives it. The contract
/// names the result and says nothing of the escaping rules.
#[verifier::external_body]
pub(crate) fn debug_quote(s: &str) -> (r: String)
    ensures
        r@ == debug_text(s@),
{
    format!("{s:?}")
}

} // verus!

verus! {

/// `line` without one trailing carriage return.
pub open spec fn without_cr(line: Seq<char>) -> Seq<char> {
    if line.len() > 0 && line.last() == '\r' {
        line.drop_last()
    } else {
        line
    }
}

/// The lines of a text, as `str::lines` gives them: split after each
/// `\n`, a `\r` just before it dropped, and no empty line after a
/// final `\n`.
pub open spec fn lines(s: Seq<char>) -> Seq<Seq<char>>
    decreases s.len(),
{
    if s.len() == 0 {
        Seq::empty()
    } else {
        let k = first_index(s, '\n');
        if k < s.len() {
            seq![without_cr(s.take(k as int))] + lines(s.skip(k as int + 1))
        } else {
            seq![s]
        }
    }
}

/// The lines of a text; see [`lines`].
pub fn split_lines(s: &[char]) -> (r: Vec<Vec<char>>)
    ensures
        char_views(r@) == lines(s@),
{
    let mut r: Vec<Vec<char>> = Vec::new();
    let mut pos: usize = 0;
    assert(s@.skip(0) =~= s@);
    assert(char_views(r@) + lines(s@.skip(0)) =~= lines(s@));
    while pos < s.len()
        invariant
            pos <= s@.len(),
            char_views(r@) + lines(s@.skip(pos as int)) == lines(s@),
        decreases s@.len() - pos,
    {
        let ghost rest = s@.skip(pos as int);
        let k = find_char_from(s, '\n', pos);
        let ghost old_r = char_views(r@);
        if k < s.len() {
            let mut line = slice_chars(s, pos, k);
            assert(line@ =~= rest.take((k - pos) as int));
            if line.len() > 0 && line[line.len() - 1] == '\r' {
                line.pop();
            }
            assert(line@ =~= without_cr(rest.take((k - pos) as int)));
            r.push(line);
            assert(rest.skip(k - pos + 1) =~= s@.skip(k + 1));
            assert(char_views(r@) =~= old_r.push(without_cr(rest.take((k - pos) as int))));
            assert(old_r + lines(rest) =~= char_views(r@) + lines(s@.skip(k + 1)));
            pos = k + 1;
        } else {
            let line = slice_chars(s, pos, k);
            assert(line@ =~= rest);
            r.push(line);
            assert(char_views(r@) =~= old_r.push(rest));
            assert(s@.skip(k as int) =~= Seq::<char>::empty());
            assert(old_r + lines(rest) =~= char_views(r@) + lines(s@.skip(k as int)));
            pos = k;
        }
    }
    assert(s@.skip(s@.len() as int) =~= Seq::<char>::empty());
    assert(char_views(r@) + Seq::<Seq<char>>::empty() =~= char_views(r@));
    r
}

/// The index of the first white space in `s`, or its length.
pub open spec fn first_space(s: Seq<char>) -> nat
    decreases s.len(),
{
    if s.len() == 0 {
        0
    } else if is_space(s[0]) {
        0
    } else {
        1 + first_space(s.drop_first())
    }
}

/// The first run of characters that are not white space, or nothing:
/// `s.split_whitespace().next().unwrap_or("")`.
pub open spec fn first_word(s: Seq<char>) -> Seq<char> {
    let t = trim_start(s);
    t.take(first_space(t) as int)
}

/// [`first_word`] on characters.
pub fn chars_first_word(s: &[char]) -> (r: Vec<char>)
    ensures
        r@ == first_word(s@),
{
    let t = chars_trim_start(s);
    let mut k: usize = 0;
    while k < t.len() && !char_is_space(t[k])
        invariant
            k <= t@.len(),
            forall|j: int| 0 <= j < k ==> !is_space(#[trigger] t@[j]),
        decreases t@.len() - k,
    {
        k = k + 1;
    }
    proof {
        lemma_first_space_at(t@, k as int);
    }
    slice_chars(t.as_slice(), 0, k)
}

proof fn lemma_first_space_at(s: Seq<char>, k: int)
    requires
        0 <= k <= s.len(),
        forall|j: int| 0 <= j < k ==> !is_space(#[trigger] s[j]),
        k == s.len() || is_space(s[k]),
    ensures
        first_space(s) == k,
    decreases s.len(),
{
    if k > 0 {
        let t = s.drop_first();
        assert forall|j: int| 0 <= j < k - 1 implies !is_space(#[trigger] t[j]) by {
            assert(t[j] == s[j + 1]);
        }
        if k < s.len() {
            assert(t[k - 1] == s[k]);
        }
        lemma_first_space_at(t, k - 1);
    }
}

pub proof fn lemma_decimal_nonempty(n: nat)
    ensures
        decimal(n).len() >= 1,
        n >= 10 ==> decimal(n).len() >= 2,
    decreases n,
{
    if n >= 10 {
        lemma_decimal_nonempty(n / 10);
    }
}

/// Different numbers have different decimal renderings.
pub proof fn lemma_decimal_injective(a: nat, b: nat)
    requires
        decimal(a) == decimal(b),
    ensures
        a == b,
    decreases a,
{
    lemma_decimal_nonempty(a);
    lemma_decimal_nonempty(b);
    if a < 10 && b < 10 {
        assert(decimal(a)[0] == digit(a));
        assert(decimal(b)[0] == digit(b));
    } else if a >= 10 && b >= 10 {
        assert(decimal(a).last() == digit(a % 10));
        assert(decimal(b).last() == digit(b % 10));
        assert(decimal(a).drop_last() =~= decimal(a / 10));
        assert(decimal(b).drop_last() =~= decimal(b / 10));
        lemma_decimal_injective(a / 10, b / 10);
    }
}

/// Whether `char::is_alphanumeric` holds of `c`: it is alphabetic or
/// numeric by its Unicode properties.
pub uninterp spec fn alphanumeric(c: char) -> bool;

/// `char::is_alphanumeric`. The contract names the answer and says
/// nothing of the Unicode tables behind it.
#[verifier::external_body]
pub(crate) fn char_is_alphanumeric(c: char) -> (r: bool)
    ensures
        r == alphanumeric(c),
{
    c.is_alphanumeric()
}

/// What `char::to_lowercase` yields for `c`: its Unicode lowercase
/// mapping, one or more characters.
pub uninterp spec fn char_lowercase(c: char) -> Seq<char>;

/// `char::to_lowercase`, collected. The contract names the mapping and
/// says nothing of it.
#[verifier::external_body]
pub(crate) fn char_to_lowercase(c: char) -> (r: Vec<char>)
    ensures
        r@ == char_lowercase(c),
{
    c.to_lowercase().collect()
}

} // verus!

verus! {

/// Whether `w` occurs in `s`.
pub open spec fn contains_text(s: Seq<char>, w: Seq<char>) -> bool {
    exists|i: int| 0 <= i <= s.len() - w.len() && #[trigger] s.subrange(i, i + w.len()) == w
}

/// Whether `w` occurs in `s`; see [`contains_text`].
pub fn chars_contain_text(s: &[char], w: &[char]) -> (r: bool)
    ensures
        r == contains_text(s@, w@),
{
    if w.len() > s.len() {
        return false;
    }
    if w.len() == 0 {
        assert(s@.subrange(0int, 0int + w@.len()) =~= w@);
        return true;
    }
    let slen = s.len();
    let end = slen - w.len() + 1;
    let mut i: usize = 0;
    while i < end
        invariant
            w@.len() >= 1,
            w@.len() <= s@.len(),
            slen == s@.len(),
            end == s@.len() - w@.len() + 1,
            i <= end,
            forall|j: int| 0 <= j < i ==> #[trigger] s@.subrange(j, j + w@.len()) != w@,
        decreases end - i,
    {
        let mut k: usize = 0;
        while k < w.len() && s[i + k] == w[k]
            invariant
                i < end,
                slen == s@.len(),
                end == s@.len() - w@.len() + 1,
                k <= w@.len(),
                forall|m: int| 0 <= m < k ==> s@[i + m] == w@[m],
            decreases w@.len() - k,
        {
            k = k + 1;
        }
        if k == w.len() {
            assert(s@.subrange(i as int, i + w@.len()) =~= w@);
            return true;
        }
        assert(s@.subrange(i as int, i + w@.len())[k as int] != w@[k as int]);
        i = i + 1;
    }
    false
}

} // verus!

verus! {

/// The decimal rendering of a signed number, as `to_string` gives it.
pub open spec fn signed_decimal(x: int) -> Seq<char> {
    if x < 0 {
        seq!['-'] + decimal((-x) as nat)
    } else {
        decimal(x as nat)
    }
}

/// Executable [`signed_decimal`].
pub fn signed_decimal_chars(x: i64) -> (r: Vec<char>)
    ensures
        r@ == signed_decimal(x as int),
{
    if x < 0 {
        let mut r: Vec<char> = Vec::new();
        r.push('-');
        let m: u64 = (-(x as i128)) as u64;
        let d = decimal_chars(m);
        append_chars(&mut r, d.as_slice());
        r
    } else {
        decimal_chars(x as u64)
    }
}

/// How many leading characters of `s` fit in `max` bytes of UTF-8.
pub open spec fn fitting(s: Seq<char>, max: int) -> nat
    decreases s.len(),
{
    if s.len() == 0 {
        0
    } else if utf8_width(s[0]) <= max {
        1 + fitting(s.drop_first(), max - utf8_width(s[0]))
    } else {
        0
    }
}

proof fn lemma_fitting(s: Seq<char>, max: int, k: int)
    requires
        0 <= k <= s.len(),
        utf8_len(s.take(k)) <= max,
        k == s.len() || utf8_len(s.take(k + 1)) > max,
    ensures
        fitting(s, max) == k,
    decreases s.len(),
{
    if s.len() > 0 {
        let t = s.drop_first();
        if k == 0 {
            lemma_utf8_len_take(s, 0);
            assert(s.take(0) =~= Seq::<char>::empty());
            assert(utf8_len(s.take(1)) == utf8_width(s[0]));
        } else {
            assert(s.take(k).drop_first() =~= t.take(k - 1));
            assert(s.take(k)[0] == s[0]);
            if k < s.len() {
                assert(s.take(k + 1).drop_first() =~= t.take(k));
                assert(s.take(k + 1)[0] == s[0]);
            }
            lemma_fitting(t, max - utf8_width(s[0]), k - 1);
        }
    }
}

/// Executable [`fitting`].
pub fn fitting_count(s: &[char], max: usize) -> (k: usize)
    ensures
        k == fitting(s@, max as int),
        k <= s@.len(),
        utf8_len(s@.take(k as int)) <= max,
{
    let mut acc: usize = 0;
    let mut i: usize = 0;
    assert(s@.take(0) =~= Seq::<char>::empty());
    while i < s.len()
        invariant
            i <= s@.len(),
            acc == utf8_len(s@.take(i as int)),
            acc <= max,
        decreases s@.len() - i,
    {
        proof {
            lemma_utf8_len_take(s@, i as int);
        }
        let w = char_utf8_width(s[i]);
        if w > max - acc {
            proof {
                lemma_fitting(s@, max as int, i as int);
            }
            return i;
        }
        acc = acc + w;
        i = i + 1;
    }
    proof {
        lemma_fitting(s@, max as int, i as int);
    }
    i
}

/// The UTF-8 length of `s`, counted wide.
pub fn utf8_len_wide(s: &[char]) -> (n: u128)
    ensures
        n == utf8_len(s@),
{
    let mut acc: u128 = 0;
    let mut i: usize = 0;
    assert(s@.take(0) =~= Seq::<char>::empty());
    while i < s.len()
        invariant
            i <= s@.len(),
            acc == utf8_len(s@.take(i as int)),
            acc <= 4 * i,
        decreases s@.len() - i,
    {
        proof {
            lemma_utf8_len_take(s@, i as int);
        }
        let w = char_utf8_width(s[i]);
        acc = acc + w as u128;
        i = i + 1;
    }
    assert(s@.take(s@.len() as int) =~= s@);
    acc
}

} // verus!
