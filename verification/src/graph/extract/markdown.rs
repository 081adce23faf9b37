//! Markdown headings become section nodes; links between documents
//! become edges.
//!
//! A small state machine rather than a set of patterns, for two
//! reasons: a `#` inside fenced code is not a heading, and a heading
//! is contained by the nearest one above it of a lower level.

use vstd::prelude::*;
use crate::graph::extract::imports::{walk_from, walked};
use crate::graph::extract::FileContext;
use crate::graph::impact::strip_trailing;
use crate::graph::model::{edge_views, node_views, EdgePredicate, ExtractedEdge, ExtractedEdgeV, ExtractedNode, FileExtraction, NodeKind, NodeV};
use crate::text::{alphanumeric, append_chars, char_is_alphanumeric, char_lowercase, char_to_lowercase, char_views, chars_eq, chars_first_word, chars_of, chars_start_with, chars_trim, decimal, find_char_from, first_index, first_word, slice_chars, starts_with, string_of_vec, trim};

verus! {

/// How many `#` a line begins with.
pub open spec fn leading_hashes(t: Seq<char>) -> nat
    decreases t.len(),
{
    if t.len() > 0 && t[0] == '#' {
        1 + leading_hashes(t.drop_first())
    } else {
        0
    }
}

proof fn lemma_leading_hashes(t: Seq<char>, k: int)
    requires
        0 <= k <= t.len(),
        forall|j: int| 0 <= j < k ==> t[j] == '#',
        k == t.len() || t[k] != '#',
    ensures
        leading_hashes(t) == k,
    decreases t.len(),
{
    if k > 0 {
        let u = t.drop_first();
        assert forall|j: int| 0 <= j < k - 1 implies u[j] == '#' by {
            assert(u[j] == t[j + 1]);
        }
        if k < t.len() {
            assert(u[k - 1] == t[k]);
        }
        lemma_leading_hashes(u, k - 1);
    }
}

/// The level and text of a heading line (already trimmed at the
/// start): one to six `#`, a space, then text, with any closing `#`s
/// dropped. `#hashtag` is not a heading.
pub open spec fn heading(t: Seq<char>) -> Option<(nat, Seq<char>)> {
    let level = leading_hashes(t);
    if !(t.len() > 0 && t[0] == '#') || !(1 <= level <= 6) {
        None
    } else {
        let rest = t.skip(level as int);
        if !(rest.len() > 0 && rest[0] == ' ') {
            None
        } else {
            let text = trim(strip_trailing(trim(rest), '#'));
            if text.len() == 0 {
                None
            } else {
                Some((level, text))
            }
        }
    }
}

fn strip_hashes(s: &[char]) -> (r: Vec<char>)
    ensures
        r@ == strip_trailing(s@, '#'),
{
    let mut k = s.len();
    assert(s@.take(k as int) =~= s@);
    while k > 0 && s[k - 1] == '#'
        invariant
            k <= s@.len(),
            strip_trailing(s@, '#') == strip_trailing(s@.take(k as int), '#'),
        decreases k,
    {
        assert(s@.take(k as int).drop_last() =~= s@.take(k - 1));
        k = k - 1;
    }
    assert(s@.take(k as int).len() == 0 || s@.take(k as int).last() != '#');
    slice_chars(s, 0, k)
}

/// `## Title` gives `(2, "Title")`; see [`heading`].
pub fn heading_of(trimmed: &[char]) -> (r: Option<(usize, Vec<char>)>)
    ensures
        match r {
            Some((l, t)) => heading(trimmed@) == Some((l as nat, t@)),
            None => heading(trimmed@) is None,
        },
{
    if !(trimmed.len() > 0 && trimmed[0] == '#') {
        return None;
    }
    let mut level: usize = 0;
    while level < trimmed.len() && trimmed[level] == '#'
        invariant
            level <= trimmed@.len(),
            forall|j: int| 0 <= j < level ==> trimmed@[j] == '#',
        decreases trimmed@.len() - level,
    {
        level = level + 1;
    }
    proof {
        lemma_leading_hashes(trimmed@, level as int);
    }
    if !(1 <= level && level <= 6) {
        return None;
    }
    let rest = slice_chars(trimmed, level, trimmed.len());
    assert(rest@ =~= trimmed@.skip(level as int));
    if !(rest.len() > 0 && rest[0] == ' ') {
        return None;
    }
    let t1 = chars_trim(rest.as_slice());
    let t2 = strip_hashes(t1.as_slice());
    let text = chars_trim(t2.as_slice());
    if text.len() == 0 {
        return None;
    }
    Some((level, text))
}

/// Where a bracket closes: scanning from `j` with `depth` brackets
/// open, the first `]` that closes the last of them.
pub open spec fn bracket_close(b: Seq<char>, j: nat, depth: int) -> Option<nat>
    decreases b.len() - j,
{
    if j >= b.len() {
        None
    } else if b[j as int] == '[' {
        bracket_close(b, j + 1, depth + 1)
    } else if b[j as int] == ']' {
        if depth - 1 == 0 {
            Some(j)
        } else {
            bracket_close(b, j + 1, depth - 1)
        }
    } else {
        bracket_close(b, j + 1, depth)
    }
}

pub proof fn lemma_bracket_close(b: Seq<char>, j: nat, depth: int)
    ensures
        bracket_close(b, j, depth) matches Some(c) ==> j <= c < b.len(),
    decreases b.len() - j,
{
    if j < b.len() {
        if b[j as int] == '[' {
            lemma_bracket_close(b, j + 1, depth + 1);
        } else if b[j as int] == ']' {
            if depth - 1 != 0 {
                lemma_bracket_close(b, j + 1, depth - 1);
            }
        } else {
            lemma_bracket_close(b, j + 1, depth);
        }
    }
}

/// The targets of the inline links `[text](target)` on a line, from
/// position `i` on; brackets nest in the text, and a target is the
/// first word inside the parentheses.
pub open spec fn links_from(b: Seq<char>, i: nat) -> Seq<Seq<char>>
    decreases b.len() - i,
{
    if i >= b.len() {
        Seq::empty()
    } else if b[i as int] != '[' {
        links_from(b, i + 1)
    } else {
        proof {
            lemma_bracket_close(b, i, 0);
        }
        match bracket_close(b, i, 0) {
            None => Seq::empty(),
            Some(c) => if c + 1 >= b.len() || b[c + 1 as int] != '(' {
                links_from(b, c + 1)
            } else {
                let rest = b.skip(c + 2 as int);
                let e = first_index(rest, ')');
                if e >= rest.len() {
                    Seq::empty()
                } else {
                    let target = first_word(rest.take(e as int));
                    (if target.len() > 0 {
                        seq![target]
                    } else {
                        Seq::empty()
                    }) + links_from(b, c + 2 + e)
                }
            },
        }
    }
}

/// The target of every inline link on a line; see [`links_from`].
pub fn links_in(line: &[char]) -> (r: Vec<Vec<char>>)
    ensures
        char_views(r@) == links_from(line@, 0),
{
    let b = line;
    let mut out: Vec<Vec<char>> = Vec::new();
    let mut i: usize = 0;
    assert(char_views(out@) + links_from(b@, 0) =~= links_from(b@, 0));
    while i < b.len()
        invariant
            i <= b@.len(),
            char_views(out@) + links_from(b@, i as nat) == links_from(b@, 0),
        ensures
            char_views(out@) == links_from(b@, 0),
        decreases b@.len() - i,
    {
        if b[i] != '[' {
            i = i + 1;
            proof {
                if i >= b@.len() {
                    assert(char_views(out@) + Seq::<Seq<char>>::empty() =~= char_views(out@));
                }
            }
            continue;
        }
        proof {
            lemma_bracket_close(b@, i as nat, 0);
        }
        let mut depth: usize = 0;
        let mut close: Option<usize> = None;
        let mut j: usize = i;
        while j < b.len() && close.is_none()
            invariant
                i <= j <= b@.len(),
                b@[i as int] == '[',
                depth <= j - i,
                j > i ==> depth >= 1,
                close.is_none() ==> bracket_close(b@, i as nat, 0) == bracket_close(b@, j as nat, depth as int),
                close matches Some(c) ==> bracket_close(b@, i as nat, 0) == Some(c as nat),
            decreases b@.len() - j + (if close.is_none() { 1int } else { 0int }),
        {
            let c = b[j];
            if c == '[' {
                depth = depth + 1;
                j = j + 1;
            } else if c == ']' {
                if depth == 1 {
                    close = Some(j);
                } else {
                    depth = depth - 1;
                    j = j + 1;
                }
            } else {
                j = j + 1;
            }
        }
        let close = match close {
            Some(c) => c,
            None => {
                assert(bracket_close(b@, j as nat, depth as int) is None);
                assert(links_from(b@, i as nat) =~= Seq::<Seq<char>>::empty());
                assert(char_views(out@) =~= char_views(out@) + Seq::<Seq<char>>::empty());
                assert(char_views(out@) == links_from(b@, 0));
                break;
            },
        };
        if close + 1 >= b.len() || b[close + 1] != '(' {
            i = close + 1;
            proof {
                if i >= b@.len() {
                    assert(char_views(out@) + Seq::<Seq<char>>::empty() =~= char_views(out@));
                }
            }
            continue;
        }
        let start = close + 2;
        let ghost rest = b@.skip(start as int);
        let end_at = find_char_from(b, ')', start);
        assert(rest =~= b@.skip(start as int));
        if end_at >= b.len() {
            assert(links_from(b@, i as nat) =~= Seq::<Seq<char>>::empty());
            assert(char_views(out@) =~= char_views(out@) + Seq::<Seq<char>>::empty());
            assert(char_views(out@) == links_from(b@, 0));
            break;
        }
        let inside = slice_chars(b, start, end_at);
        assert(inside@ =~= rest.take((end_at - start) as int));
        let target = chars_first_word(inside.as_slice());
        let ghost o0 = char_views(out@);
        if target.len() > 0 {
            out.push(target);
            assert(char_views(out@) =~= o0.push(target@));
            assert(o0 + (seq![target@] + links_from(b@, end_at as nat)) =~= char_views(out@) + links_from(b@, end_at as nat));
        } else {
            assert(o0 + (Seq::<Seq<char>>::empty() + links_from(b@, end_at as nat)) =~= char_views(out@) + links_from(b@, end_at as nat));
        }
        i = end_at;
        proof {
            if i >= b@.len() {
                assert(char_views(out@) + Seq::<Seq<char>>::empty() =~= char_views(out@));
            }
        }
    }
    out
}

/// What a link from `from_file` to `target` points at inside the
/// project, or nothing: external URLs, mail links and bare anchors
/// name nothing the graph will contain. The path is resolved against
/// the linking file's directory; an anchor is kept.
pub open spec fn link_target(from_file: Seq<char>, target: Seq<char>) -> Option<Seq<char>> {
    if starts_with(target, "http://"@) || starts_with(target, "https://"@) || starts_with(target, "mailto:"@)
        || (target.len() > 0 && target[0] == '#') {
        None
    } else {
        let k = first_index(target, '#');
        let path = target.take(k as int);
        if path.len() == 0 {
            None
        } else {
            let resolved = walked(from_file, path);
            if resolved.len() == 0 {
                None
            } else if k < target.len() {
                Some(resolved + seq!['#'] + target.skip(k as int + 1))
            } else {
                Some(resolved)
            }
        }
    }
}

/// Resolves a link target against the linking file; see
/// [`link_target`].
pub fn resolve_relative(from_file: &[char], target: &[char]) -> (r: Option<Vec<char>>)
    ensures
        match r {
            Some(v) => link_target(from_file@, target@) == Some(v@),
            None => link_target(from_file@, target@) is None,
        },
{
    let http = chars_of("http://");
    let https = chars_of("https://");
    let mailto = chars_of("mailto:");
    if chars_start_with(target, http.as_slice()) || chars_start_with(target, https.as_slice())
        || chars_start_with(target, mailto.as_slice()) || (target.len() > 0 && target[0] == '#') {
        return None;
    }
    assert(target@.skip(0) =~= target@);
    let k = find_char_from(target, '#', 0);
    let path = slice_chars(target, 0, k);
    assert(path@ =~= target@.take(k as int));
    if path.len() == 0 {
        return None;
    }
    let mut resolved = walk_from(from_file, path.as_slice());
    if resolved.len() == 0 {
        return None;
    }
    if k < target.len() {
        resolved.push('#');
        let anchor = slice_chars(target, k + 1, target.len());
        assert(anchor@ =~= target@.skip(k + 1));
        append_chars(&mut resolved, anchor.as_slice());
    }
    Some(resolved)
}

/// The slug of a text before its ends are trimmed, and whether it ends
/// in a dash: letters and digits lowercased, every other run one dash.
pub open spec fn slug_parts(t: Seq<char>) -> (Seq<char>, bool)
    decreases t.len(),
{
    if t.len() == 0 {
        (Seq::empty(), true)
    } else {
        let (o, dash) = slug_parts(t.drop_last());
        let c = t.last();
        if alphanumeric(c) {
            (o + char_lowercase(c), false)
        } else if !dash {
            (o.push('-'), true)
        } else {
            (o, dash)
        }
    }
}

/// `s` without leading `c`s.
pub open spec fn strip_leading(s: Seq<char>, c: char) -> Seq<char>
    decreases s.len(),
{
    if s.len() > 0 && s[0] == c {
        strip_leading(s.drop_first(), c)
    } else {
        s
    }
}

/// The slug of a heading's text, as anchors are written: letters and
/// digits lowercased, every other run a single dash, no dash at
/// either end.
pub open spec fn slug(t: Seq<char>) -> Seq<char> {
    strip_trailing(strip_leading(slug_parts(t).0, '-'), '-')
}

fn strip_dashes(s: &[char]) -> (r: Vec<char>)
    ensures
        r@ == strip_trailing(strip_leading(s@, '-'), '-'),
{
    let mut lo: usize = 0;
    assert(s@.skip(0) =~= s@);
    while lo < s.len() && s[lo] == '-'
        invariant
            lo <= s@.len(),
            strip_leading(s@, '-') == strip_leading(s@.skip(lo as int), '-'),
        decreases s@.len() - lo,
    {
        assert(s@.skip(lo as int).drop_first() =~= s@.skip(lo + 1));
        lo = lo + 1;
    }
    let t = slice_chars(s, lo, s.len());
    assert(t@ =~= s@.skip(lo as int));
    assert(strip_leading(t@, '-') == t@);
    let mut hi = t.len();
    assert(t@.take(hi as int) =~= t@);
    while hi > 0 && t[hi - 1] == '-'
        invariant
            hi <= t@.len(),
            strip_trailing(t@, '-') == strip_trailing(t@.take(hi as int), '-'),
        decreases hi,
    {
        assert(t@.take(hi as int).drop_last() =~= t@.take(hi - 1));
        hi = hi - 1;
    }
    slice_chars(t.as_slice(), 0, hi)
}

/// The slug of a heading's text; see [`slug`].
pub fn slugify(text: &[char]) -> (r: Vec<char>)
    ensures
        r@ == slug(text@),
{
    let mut out: Vec<char> = Vec::new();
    let mut last_dash = true;
    let mut i: usize = 0;
    assert(text@.take(0) =~= Seq::<char>::empty());
    while i < text.len()
        invariant
            i <= text@.len(),
            (out@, last_dash) == slug_parts(text@.take(i as int)),
        decreases text@.len() - i,
    {
        let c = text[i];
        assert(text@.take(i + 1).drop_last() =~= text@.take(i as int));
        assert(text@.take(i + 1).last() == c);
        if char_is_alphanumeric(c) {
            let low = char_to_lowercase(c);
            append_chars(&mut out, low.as_slice());
            last_dash = false;
        } else if !last_dash {
            out.push('-');
            last_dash = true;
        }
        i = i + 1;
    }
    assert(text@.take(text@.len() as int) =~= text@);
    strip_dashes(out.as_slice())
}

/// `base`, a dash and the decimal `n`.
pub open spec fn suffixed(base: Seq<char>, n: nat) -> Seq<char> {
    base + seq!['-'] + decimal(n)
}

/// The first suffix from 2 up whose slug is not yet used.
pub open spec fn first_free(base: Seq<char>, used: Seq<Seq<char>>) -> nat {
    choose|n: nat|
        n >= 2 && !used.contains(suffixed(base, n)) && forall|m: nat| 2 <= m < n ==> used.contains(#[trigger] suffixed(base, m))
}

/// The slug a heading gets when `used` are taken: its own (or
/// `section` when it has none), unless taken, else the first free
/// `-2`, `-3`, ... suffix.
pub open spec fn unique_slug_of(base: Seq<char>, used: Seq<Seq<char>>) -> Seq<char> {
    let b = if base.len() == 0 { "section"@ } else { base };
    if !used.contains(b) {
        b
    } else {
        suffixed(b, first_free(b, used))
    }
}

proof fn lemma_suffixed_injective(b: Seq<char>, m1: nat, m2: nat)
    requires
        suffixed(b, m1) == suffixed(b, m2),
    ensures
        m1 == m2,
{
    assert(suffixed(b, m1).skip(b.len() as int + 1) =~= decimal(m1));
    assert(suffixed(b, m2).skip(b.len() as int + 1) =~= decimal(m2));
    crate::text::lemma_decimal_injective(m1, m2);
}

/// If every suffix below `n` is taken, there were at least `n - 2`
/// slugs taken.
proof fn lemma_taken_bound(b: Seq<char>, used: Seq<Seq<char>>, n: nat)
    requires
        n >= 2,
        forall|m: nat| 2 <= m < n ==> used.contains(#[trigger] suffixed(b, m)),
    ensures
        n - 2 <= used.len(),
{
    let x = vstd::set_lib::set_int_range(2, n as int);
    let f = |m: int| suffixed(b, m as nat);
    let y = x.map(f);
    vstd::set_lib::lemma_int_range(2, n as int);
    assert(vstd::relations::injective_on(f, x)) by {
        assert forall|m1: int, m2: int| x.contains(m1) && x.contains(m2) && #[trigger] f(m1) == #[trigger] f(m2) implies m1 == m2 by {
            lemma_suffixed_injective(b, m1 as nat, m2 as nat);
        }
    }
    vstd::set_lib::lemma_map_size(x, y, f);
    assert(y.subset_of(used.to_set())) by {
        assert forall|s: Seq<char>| y.contains(s) implies used.to_set().contains(s) by {
            let m = choose|m: int| x.contains(m) && s == f(m);
            assert(used.contains(suffixed(b, m as nat)));
        }
    }
    vstd::set_lib::lemma_len_subset(y, used.to_set());
    used.lemma_cardinality_of_set();
}

fn is_used(used: &Vec<Vec<char>>, s: &[char]) -> (r: bool)
    ensures
        r == char_views(used@).contains(s@),
{
    let mut i: usize = 0;
    while i < used.len()
        invariant
            i <= used@.len(),
            forall|j: int| 0 <= j < i ==> used@[j]@ != s@,
        decreases used@.len() - i,
    {
        if chars_eq(used[i].as_slice(), s) {
            assert(char_views(used@)[i as int] == s@);
            return true;
        }
        i = i + 1;
    }
    assert forall|j: int| 0 <= j < used@.len() implies #[trigger] char_views(used@)[j] != s@ by {
        assert(used@[j]@ != s@);
    }
    false
}

/// A slug no earlier heading of the file has, recorded as used: two
/// headings with the same text would otherwise share an identity.
pub fn unique_slug(base: &[char], used: &mut Vec<Vec<char>>) -> (r: Vec<char>)
    ensures
        r@ == unique_slug_of(base@, char_views(old(used)@)),
        char_views(final(used)@) == char_views(old(used)@).push(r@),
{
    let ghost u0 = char_views(used@);
    let b = if base.len() == 0 {
        chars_of("section")
    } else {
        slice_chars(base, 0, base.len())
    };
    assert(base@.len() > 0 ==> b@ =~= base@);
    if !is_used(used, b.as_slice()) {
        let copy = slice_chars(b.as_slice(), 0, b.len());
        assert(copy@ =~= b@);
        used.push(copy);
        assert(char_views(used@) =~= u0.push(b@));
        return b;
    }
    let mut n: u128 = 2;
    let ulen = used.len();
    loop
        invariant
            u0.len() == ulen,
            2 <= n,
            n - 2 <= u0.len(),
            char_views(used@) == u0,
            u0.len() == used@.len(),
            forall|m: nat| 2 <= m < n ==> u0.contains(#[trigger] suffixed(b@, m)),
            u0.contains(b@),
            u0 == char_views(old(used)@),
            b@ == (if base@.len() == 0 { "section"@ } else { base@ }),
        decreases u0.len() + 2 - n,
    {
        let mut candidate = slice_chars(b.as_slice(), 0, b.len());
        candidate.push('-');
        let digits = crate::text::decimal_chars_wide(n);
        append_chars(&mut candidate, digits.as_slice());
        assert(candidate@ =~= suffixed(b@, n as nat));
        if !is_used(used, candidate.as_slice()) {
            proof {
                let nn = n as nat;
                assert(nn >= 2 && !u0.contains(suffixed(b@, nn)) && forall|m: nat| 2 <= m < nn ==> u0.contains(#[trigger] suffixed(b@, m)));
                let c = first_free(b@, u0);
                if c < nn {
                    assert(u0.contains(suffixed(b@, c)));
                } else if c > nn {
                    assert(u0.contains(suffixed(b@, nn)));
                }
                assert(c == nn);
            }
            let copy = slice_chars(candidate.as_slice(), 0, candidate.len());
            assert(copy@ =~= candidate@);
            used.push(copy);
            assert(char_views(used@) =~= u0.push(candidate@));
            return candidate;
        }
        proof {
            assert forall|m: nat| 2 <= m < n + 1 implies u0.contains(#[trigger] suffixed(b@, m)) by {
                if m == n {
                    assert(u0.contains(candidate@));
                }
            }
            lemma_taken_bound(b@, u0, (n + 1) as nat);
        }
        n = n + 1;
    }
}

/// A section still open: level, identity, heading text, first line,
/// body so far.
pub type SectionV = (nat, Seq<char>, Seq<char>, i64, Seq<char>);

/// What the reader holds between lines: the open sections, innermost
/// last; whether it is inside fenced code; the slugs used; the nodes
/// and edges found.
pub type ReadState = (Seq<SectionV>, bool, Seq<Seq<char>>, Seq<NodeV>, Seq<ExtractedEdgeV>);

/// The excerpt of a section: its trimmed body, at most 300 characters,
/// if any.
pub open spec fn section_excerpt(body: Seq<char>) -> Option<Seq<char>> {
    let t = trim(body);
    let e = if t.len() > 300 { t.take(300) } else { t };
    if e.len() > 0 {
        Some(e)
    } else {
        None
    }
}

/// The node a closed section becomes.
pub open spec fn section_node(path: Seq<char>, hash: Seq<char>, s: SectionV, end_line: i64) -> NodeV {
    (
        s.1,
        s.2,
        NodeKind::Section,
        "md-section"@,
        path,
        s.3,
        if end_line >= s.3 { end_line } else { s.3 },
        section_excerpt(s.4),
        hash,
        s.2 + seq!['\n'] + s.4,
    )
}

/// Closes the innermost open section at `end_line`.
pub open spec fn close_top(path: Seq<char>, hash: Seq<char>, st: ReadState, end_line: i64) -> ReadState {
    (st.0.drop_last(), st.1, st.2, st.3.push(section_node(path, hash, st.0.last(), end_line)), st.4)
}

/// Closes every open section of level `level` or deeper, innermost
/// first.
pub open spec fn close_from(path: Seq<char>, hash: Seq<char>, st: ReadState, level: nat, end_line: i64) -> ReadState
    decreases st.0.len(),
{
    if st.0.len() > 0 && st.0.last().0 >= level {
        close_from(path, hash, close_top(path, hash, st, end_line), level, end_line)
    } else {
        st
    }
}

/// The open sections with a line added to the innermost body.
pub open spec fn with_body_line(open: Seq<SectionV>, raw: Seq<char>) -> Seq<SectionV> {
    if open.len() > 0 {
        let s = open.last();
        open.update(open.len() - 1, (s.0, s.1, s.2, s.3, s.4 + raw + seq!['\n']))
    } else {
        open
    }
}

/// The node new links and sections hang from: the innermost open
/// section, or the file.
pub open spec fn current_node(path: Seq<char>, open: Seq<SectionV>) -> Seq<char> {
    if open.len() > 0 {
        open.last().1
    } else {
        path
    }
}

/// The edges for the link targets that resolve inside the project.
pub open spec fn link_edges(path: Seq<char>, source: Seq<char>, targets: Seq<Seq<char>>, line: i64) -> Seq<ExtractedEdgeV>
    decreases targets.len(),
{
    if targets.len() == 0 {
        Seq::empty()
    } else {
        let rest = link_edges(path, source, targets.drop_last(), line);
        match link_target(path, targets.last()) {
            Some(d) => rest.push((source, d, EdgePredicate::Links, path, line)),
            None => rest,
        }
    }
}

/// Whether a trimmed line opens or closes fenced code.
pub open spec fn fence_line(t: Seq<char>) -> bool {
    starts_with(t, "```"@) || starts_with(t, "~~~"@)
}

/// What reading one line does.
pub open spec fn read_line(path: Seq<char>, hash: Seq<char>, st: ReadState, raw: Seq<char>, line: i64) -> ReadState {
    let t = crate::text::trim_start(raw);
    let fenced = if fence_line(t) { !st.1 } else { st.1 };
    if fenced {
        (with_body_line(st.0, raw), fenced, st.2, st.3, st.4)
    } else {
        let edges = st.4 + link_edges(path, current_node(path, st.0), links_from(raw, 0), line);
        match heading(t) {
            None => (with_body_line(st.0, raw), fenced, st.2, st.3, edges),
            Some((level, text)) => {
                let st2 = close_from(path, hash, (st.0, fenced, st.2, st.3, edges), level, (line - 1) as i64);
                let s = unique_slug_of(slug(text), st2.2);
                let fqn = path + seq!['#'] + s;
                (
                    st2.0.push((level, fqn, text, line, Seq::empty())),
                    st2.1,
                    st2.2.push(s),
                    st2.3,
                    st2.4.push((current_node(path, st2.0), fqn, EdgePredicate::Contains, path, line)),
                )
            },
        }
    }
}

/// A count as an `i64`, saturating.
pub open spec fn count_i64(n: nat) -> i64 {
    if n <= i64::MAX { n as i64 } else { i64::MAX }
}

/// The state after reading `ls`, numbering lines from one.
pub open spec fn read_lines(path: Seq<char>, hash: Seq<char>, ls: Seq<Seq<char>>) -> ReadState
    decreases ls.len(),
{
    if ls.len() == 0 {
        (Seq::empty(), false, Seq::empty(), Seq::empty(), Seq::empty())
    } else {
        read_line(path, hash, read_lines(path, hash, ls.drop_last()), ls.last(), count_i64(ls.len()))
    }
}

/// The sections and edges of a markdown file: every line read, then
/// whatever is still open closed at the last line.
pub open spec fn markdown_extraction(path: Seq<char>, hash: Seq<char>, content: Seq<char>) -> (Seq<NodeV>, Seq<ExtractedEdgeV>) {
    let ls = crate::text::lines(content);
    let last = count_i64(if ls.len() > 1 { ls.len() } else { 1 });
    let fin = close_from(path, hash, read_lines(path, hash, ls), 0, last);
    (fin.3, fin.4)
}

/// Whether a trimmed line starts with three backticks or three tildes.
pub open spec fn opens_or_closes_code(raw: Seq<char>) -> bool {
    let t = crate::text::trim_start(raw);
    starts_with(t, "```"@) || starts_with(t, "~~~"@)
}

/// The open sections without their bodies: level, identity, heading
/// text, first line.
pub open spec fn section_heads(open: Seq<SectionV>) -> Seq<(nat, Seq<char>, Seq<char>, i64)> {
    open.map_values(|s: SectionV| (s.0, s.1, s.2, s.3))
}

proof fn lemma_body_line_keeps_heads(open: Seq<SectionV>, raw: Seq<char>)
    ensures
        section_heads(with_body_line(open, raw)) == section_heads(open),
{
    assert(section_heads(with_body_line(open, raw)) =~= section_heads(open));
}

proof fn lemma_close_from_keeps_fence(path: Seq<char>, hash: Seq<char>, st: ReadState, level: nat, end_line: i64)
    ensures
        close_from(path, hash, st, level, end_line).1 == st.1,
    decreases st.0.len(),
{
    if st.0.len() > 0 && st.0.last().0 >= level {
        lemma_close_from_keeps_fence(path, hash, close_top(path, hash, st, end_line), level, end_line);
    }
}

proof fn lemma_read_lines_step(path: Seq<char>, hash: Seq<char>, ls: Seq<Seq<char>>)
    requires
        ls.len() > 0,
    ensures
        read_lines(path, hash, ls) == read_line(
            path,
            hash,
            read_lines(path, hash, ls.drop_last()),
            ls.last(),
            count_i64(ls.len()),
        ),
{
}

proof fn lemma_no_code_outside(path: Seq<char>, hash: Seq<char>, ls: Seq<Seq<char>>)
    requires
        forall|j: int| 0 <= j < ls.len() ==> !#[trigger] opens_or_closes_code(ls[j]),
    ensures
        !read_lines(path, hash, ls).1,
    decreases ls.len(),
{
    if ls.len() > 0 {
        lemma_no_code_outside(path, hash, ls.drop_last());
        let st = read_lines(path, hash, ls.drop_last());
        let raw = ls.last();
        assert(!opens_or_closes_code(ls[ls.len() - 1]));
        let t = crate::text::trim_start(raw);
        match heading(t) {
            Some((level, text)) => {
                let edges = st.4 + link_edges(path, current_node(path, st.0), links_from(raw, 0), count_i64(ls.len()));
                lemma_close_from_keeps_fence(path, hash, (st.0, false, st.2, st.3, edges), level, (count_i64(ls.len()) - 1) as i64);
            },
            None => {},
        }
    }
}

/// A fenced code block opens no section: after lines with no fence,
/// a line opening fenced code (three backticks or tildes) and lines
/// inside it, the reader holds the same sections, slugs, nodes and
/// edges as before the fence. A `# heading` inside the block, say, is
/// body text: it yields no section node and no `contains` edge.
pub proof fn law_fenced_code_opens_no_sections(
    path: Seq<char>,
    hash: Seq<char>,
    before: Seq<Seq<char>>,
    fence: Seq<char>,
    inside: Seq<Seq<char>>,
)
    requires
        forall|j: int| 0 <= j < before.len() ==> !#[trigger] opens_or_closes_code(before[j]),
        opens_or_closes_code(fence),
        forall|j: int| 0 <= j < inside.len() ==> !#[trigger] opens_or_closes_code(inside[j]),
    ensures
        read_lines(path, hash, before + seq![fence] + inside).2 == read_lines(path, hash, before).2,
        read_lines(path, hash, before + seq![fence] + inside).3 == read_lines(path, hash, before).3,
        read_lines(path, hash, before + seq![fence] + inside).4 == read_lines(path, hash, before).4,
        section_heads(read_lines(path, hash, before + seq![fence] + inside).0) == section_heads(
            read_lines(path, hash, before).0,
        ),
    decreases inside.len(),
{
    let st = read_lines(path, hash, before);
    if inside.len() == 0 {
        let ls = before + seq![fence];
        assert(before + seq![fence] + inside =~= ls);
        assert(ls.drop_last() =~= before);
        assert(ls.last() == fence);
        lemma_read_lines_step(path, hash, ls);
        lemma_no_code_outside(path, hash, before);
        lemma_body_line_keeps_heads(st.0, fence);
    } else {
        let ls = before + seq![fence] + inside;
        let shorter = inside.drop_last();
        assert forall|j: int| 0 <= j < shorter.len() implies !#[trigger] opens_or_closes_code(shorter[j]) by {
            assert(shorter[j] == inside[j]);
        }
        law_fenced_code_opens_no_sections(path, hash, before, fence, shorter);
        assert(ls.drop_last() =~= before + seq![fence] + shorter);
        assert(ls.last() == inside[inside.len() - 1]);
        assert(!opens_or_closes_code(inside[inside.len() - 1]));
        lemma_read_lines_step(path, hash, ls);
        lemma_still_in_code(path, hash, before, fence, shorter);
        let prev = read_lines(path, hash, before + seq![fence] + shorter);
        lemma_body_line_keeps_heads(prev.0, ls.last());
    }
}

/// A second fence line closes the block: after it the reader is out
/// of code again, with the sections and nodes it had before the block
/// (the closing line's own links still count), and a heading on the
/// next line opens a section named by that heading.
pub proof fn law_closing_fence_ends_code(
    path: Seq<char>,
    hash: Seq<char>,
    before: Seq<Seq<char>>,
    fence: Seq<char>,
    inside: Seq<Seq<char>>,
    close: Seq<char>,
    next: Seq<char>,
)
    requires
        forall|j: int| 0 <= j < before.len() ==> !#[trigger] opens_or_closes_code(before[j]),
        opens_or_closes_code(fence),
        forall|j: int| 0 <= j < inside.len() ==> !#[trigger] opens_or_closes_code(inside[j]),
        opens_or_closes_code(close),
    ensures
        !read_lines(path, hash, before + seq![fence] + inside + seq![close]).1,
        read_lines(path, hash, before + seq![fence] + inside + seq![close]).3 == read_lines(path, hash, before).3,
        section_heads(read_lines(path, hash, before + seq![fence] + inside + seq![close]).0) == section_heads(
            read_lines(path, hash, before).0,
        ),
        !opens_or_closes_code(next) && heading(crate::text::trim_start(next)) is Some ==> {
            let after = read_lines(path, hash, before + seq![fence] + inside + seq![close] + seq![next]).0;
            after.len() > 0 && after.last().2 == (heading(crate::text::trim_start(next))->0).1
        },
{
    let ls = before + seq![fence] + inside + seq![close];
    law_fenced_code_opens_no_sections(path, hash, before, fence, inside);
    lemma_still_in_code(path, hash, before, fence, inside);
    assert(ls.drop_last() =~= before + seq![fence] + inside);
    assert(ls.last() == close);
    lemma_read_lines_step(path, hash, ls);
    let prev = read_lines(path, hash, before + seq![fence] + inside);
    lemma_body_line_keeps_heads(prev.0, close);
    reveal_strlit("```");
    reveal_strlit("~~~");
    let t = crate::text::trim_start(close);
    assert(t.take(3)[0] == t[0]);
    assert(heading(t) is None);
    let more = ls + seq![next];
    assert(more.drop_last() =~= ls);
    assert(more.last() == next);
    lemma_read_lines_step(path, hash, more);
}

/// Inside an open fence the reader stays in code.
proof fn lemma_still_in_code(
    path: Seq<char>,
    hash: Seq<char>,
    before: Seq<Seq<char>>,
    fence: Seq<char>,
    inside: Seq<Seq<char>>,
)
    requires
        forall|j: int| 0 <= j < before.len() ==> !#[trigger] opens_or_closes_code(before[j]),
        opens_or_closes_code(fence),
        forall|j: int| 0 <= j < inside.len() ==> !#[trigger] opens_or_closes_code(inside[j]),
    ensures
        read_lines(path, hash, before + seq![fence] + inside).1,
    decreases inside.len(),
{
    let ls = before + seq![fence] + inside;
    if inside.len() == 0 {
        assert(ls =~= before + seq![fence]);
        assert(ls.drop_last() =~= before);
        lemma_read_lines_step(path, hash, ls);
        lemma_no_code_outside(path, hash, before);
    } else {
        let shorter = inside.drop_last();
        assert forall|j: int| 0 <= j < shorter.len() implies !#[trigger] opens_or_closes_code(shorter[j]) by {
            assert(shorter[j] == inside[j]);
        }
        lemma_still_in_code(path, hash, before, fence, shorter);
        assert(ls.drop_last() =~= before + seq![fence] + shorter);
        assert(!opens_or_closes_code(inside[inside.len() - 1]));
        lemma_read_lines_step(path, hash, ls);
    }
}

/// A section still open, while reading.
struct OpenSection {
    level: usize,
    fqn: Vec<char>,
    name: Vec<char>,
    start_line: i64,
    body: Vec<char>,
}

impl View for OpenSection {
    type V = SectionV;

    closed spec fn view(&self) -> SectionV {
        (self.level as nat, self.fqn@, self.name@, self.start_line, self.body@)
    }
}

spec fn open_views(v: Seq<OpenSection>) -> Seq<SectionV> {
    v.map_values(|s: OpenSection| s@)
}

pub fn count_to_i64(n: usize) -> (r: i64)
    ensures
        r == count_i64(n as nat),
{
    if n as u128 <= i64::MAX as u128 {
        n as i64
    } else {
        i64::MAX
    }
}

fn close_section(
    open: &mut Vec<OpenSection>,
    nodes: &mut Vec<ExtractedNode>,
    path: &str,
    hash: &str,
    end_line: i64,
)
    requires
        old(open)@.len() > 0,
    ensures
        open_views(final(open)@) == open_views(old(open)@).drop_last(),
        final(open)@.len() == old(open)@.len() - 1,
        node_views(final(nodes)@) == node_views(old(nodes)@).push(
            section_node(path@, hash@, open_views(old(open)@).last(), end_line),
        ),
{
    let ghost o0 = open_views(open@);
    let section = open.pop().unwrap();
    assert(open_views(open@) =~= o0.drop_last());
    assert(section@ == o0.last());
    let t = chars_trim(section.body.as_slice());
    let e = if t.len() > 300 {
        slice_chars(t.as_slice(), 0, 300)
    } else {
        slice_chars(t.as_slice(), 0, t.len())
    };
    assert(t@.len() > 300 ==> e@ =~= t@.take(300));
    assert(t@.len() <= 300 ==> e@ =~= t@);
    let excerpt = if e.len() > 0 {
        Some(string_of_vec(&e))
    } else {
        None
    };
    let mut search = slice_chars(section.name.as_slice(), 0, section.name.len());
    search.push('\n');
    append_chars(&mut search, section.body.as_slice());
    assert(search@ =~= section.name@ + seq!['\n'] + section.body@);
    let node = ExtractedNode {
        fqn: string_of_vec(&section.fqn),
        name: string_of_vec(&section.name),
        kind: NodeKind::Section,
        extension: string_of_vec(&chars_of("md-section")),
        file_path: string_of_vec(&chars_of(path)),
        start_line: section.start_line,
        end_line: if end_line >= section.start_line {
            end_line
        } else {
            section.start_line
        },
        excerpt,
        content_hash: string_of_vec(&chars_of(hash)),
        search_text: string_of_vec(&search),
    };
    let ghost n0 = node_views(nodes@);
    nodes.push(node);
    assert(node_views(nodes@) =~= n0.push(section_node(path@, hash@, o0.last(), end_line)));
}

fn append_body(open: &mut Vec<OpenSection>, raw: &[char])
    ensures
        open_views(final(open)@) == with_body_line(open_views(old(open)@), raw@),
{
    let n = open.len();
    if n > 0 {
        let ghost o0 = open_views(open@);
        let mut s = open.pop().unwrap();
        let ghost s0 = s@;
        assert(s0 == o0.last());
        assert(open_views(open@) =~= o0.drop_last());
        append_chars(&mut s.body, raw);
        s.body.push('\n');
        assert(s@ == (s0.0, s0.1, s0.2, s0.3, s0.4 + raw@ + seq!['\n']));
        open.push(s);
        assert(open_views(open@) =~= with_body_line(o0, raw@));
    }
}

/// Closes sections of level `level` or deeper.
fn close_down_to(
    open: &mut Vec<OpenSection>,
    nodes: &mut Vec<ExtractedNode>,
    path: &str,
    hash: &str,
    level: usize,
    end_line: i64,
    Ghost(used): Ghost<Seq<Seq<char>>>,
    Ghost(fenced): Ghost<bool>,
    Ghost(edges): Ghost<Seq<ExtractedEdgeV>>,
)
    ensures
        ({
            let st = close_from(
                path@,
                hash@,
                (open_views(old(open)@), fenced, used, node_views(old(nodes)@), edges),
                level as nat,
                end_line,
            );
            &&& open_views(final(open)@) == st.0
            &&& node_views(final(nodes)@) == st.3
            &&& st.1 == fenced && st.2 == used && st.4 == edges
        }),
{
    let ghost st0 = (open_views(open@), fenced, used, node_views(nodes@), edges);
    loop
        invariant
            close_from(path@, hash@, (open_views(open@), fenced, used, node_views(nodes@), edges), level as nat, end_line)
                == close_from(path@, hash@, st0, level as nat, end_line),
        ensures
            !(open@.len() > 0 && open_views(open@).last().0 >= level),
            close_from(path@, hash@, (open_views(open@), fenced, used, node_views(nodes@), edges), level as nat, end_line)
                == close_from(path@, hash@, st0, level as nat, end_line),
        decreases open@.len(),
    {
        let n = open.len();
        if !(n > 0 && open[n - 1].level >= level) {
            break;
        }
        assert(open_views(open@).last() == open@[n - 1]@);
        close_section(open, nodes, path, hash, end_line);
    }
    proof {
        let cur = (open_views(open@), fenced, used, node_views(nodes@), edges);
        assert(close_from(path@, hash@, cur, level as nat, end_line) == cur);
    }
}

fn current_fqn(open: &Vec<OpenSection>, path: &[char]) -> (r: Vec<char>)
    ensures
        r@ == current_node(path@, open_views(open@)),
{
    let n = open.len();
    if n > 0 {
        assert(open_views(open@).last() == open@[n - 1]@);
        slice_chars(open[n - 1].fqn.as_slice(), 0, open[n - 1].fqn.len())
    } else {
        slice_chars(path, 0, path.len())
    }
}

fn edge_of(src: &[char], dst: &[char], predicate: EdgePredicate, path: &[char], line: i64) -> (e: ExtractedEdge)
    ensures
        e@ == (src@, dst@, predicate, path@, line),
{
    ExtractedEdge {
        src_fqn: crate::text::string_of(src),
        dst_fqn: crate::text::string_of(dst),
        predicate,
        file_path: crate::text::string_of(path),
        line,
    }
}

/// Reads a markdown file into section nodes and their edges: each
/// heading (outside fenced code) opens a section contained by the
/// nearest open section of a lower level, or by the file; each link
/// that resolves inside the project is an edge from the innermost
/// open section; see [`markdown_extraction`].
pub fn extract_markdown(file: &FileContext) -> (r: FileExtraction)
    ensures
        (node_views(r.nodes@), edge_views(r.edges@)) == markdown_extraction(
            file.relative_path@,
            file.content_hash@,
            file.content@,
        ),
{
    let path = chars_of(file.relative_path);
    let content = chars_of(file.content);
    let ls = crate::text::split_lines(content.as_slice());
    let ghost lv = char_views(ls@);
    let ghost ph = file.relative_path@;
    let ghost hh = file.content_hash@;
    let mut open: Vec<OpenSection> = Vec::new();
    let mut in_fence = false;
    let mut used: Vec<Vec<char>> = Vec::new();
    let mut nodes: Vec<ExtractedNode> = Vec::new();
    let mut edges: Vec<ExtractedEdge> = Vec::new();
    let fence_a = chars_of("```");
    let fence_b = chars_of("~~~");
    assert(lv.take(0) =~= Seq::<Seq<char>>::empty());
    assert(open_views(open@) =~= Seq::<SectionV>::empty());
    assert(char_views(used@) =~= Seq::<Seq<char>>::empty());
    assert(node_views(nodes@) =~= Seq::<NodeV>::empty());
    assert(edge_views(edges@) =~= Seq::<ExtractedEdgeV>::empty());
    let mut i: usize = 0;
    while i < ls.len()
        invariant
            i <= ls@.len(),
            lv == char_views(ls@),
            lv == crate::text::lines(file.content@),
            path@ == ph,
            ph == file.relative_path@,
            hh == file.content_hash@,
            fence_a@ == "```"@,
            fence_b@ == "~~~"@,
            (open_views(open@), in_fence, char_views(used@), node_views(nodes@), edge_views(edges@))
                == read_lines(ph, hh, lv.take(i as int)),
        decreases ls@.len() - i,
    {
        let raw = &ls[i];
        let line_no = count_to_i64(i + 1);
        let ghost st = read_lines(ph, hh, lv.take(i as int));
        assert(lv.take(i + 1).drop_last() =~= lv.take(i as int));
        assert(lv.take(i + 1).last() == raw@);
        assert(lv.take(i + 1).len() == i + 1);
        let t = crate::text::chars_trim_start(raw.as_slice());
        if chars_start_with(t.as_slice(), fence_a.as_slice()) || chars_start_with(t.as_slice(), fence_b.as_slice()) {
            in_fence = !in_fence;
        }
        if in_fence {
            append_body(&mut open, raw.as_slice());
            i = i + 1;
            continue;
        }
        // the links on this line hang from the innermost section
        let targets = links_in(raw.as_slice());
        let source = current_fqn(&open, path.as_slice());
        let ghost e0 = edge_views(edges@);
        let mut k: usize = 0;
        while k < targets.len()
            invariant
                k <= targets@.len(),
                path@ == ph,
                edge_views(edges@) == e0 + link_edges(ph, source@, char_views(targets@).take(k as int), line_no),
            decreases targets@.len() - k,
        {
            assert(char_views(targets@).take(k + 1).drop_last() =~= char_views(targets@).take(k as int));
            assert(char_views(targets@).take(k + 1).last() == targets@[k as int]@);
            let ghost ek = edge_views(edges@);
            match resolve_relative(path.as_slice(), targets[k].as_slice()) {
                Some(dst) => {
                    edges.push(edge_of(source.as_slice(), dst.as_slice(), EdgePredicate::Links, path.as_slice(), line_no));
                    assert(edge_views(edges@) =~= ek.push((source@, dst@, EdgePredicate::Links, ph, line_no)));
                },
                None => {},
            }
            k = k + 1;
        }
        assert(char_views(targets@).take(targets@.len() as int) =~= char_views(targets@));
        match heading_of(t.as_slice()) {
            None => {
                append_body(&mut open, raw.as_slice());
            },
            Some((level, text)) => {
                close_down_to(
                    &mut open,
                    &mut nodes,
                    file.relative_path,
                    file.content_hash,
                    level,
                    line_no - 1,
                    Ghost(char_views(used@)),
                    Ghost(in_fence),
                    Ghost(edge_views(edges@)),
                );
                let base = slugify(text.as_slice());
                let s = unique_slug(base.as_slice(), &mut used);
                let mut fqn = slice_chars(path.as_slice(), 0, path.len());
                fqn.push('#');
                append_chars(&mut fqn, s.as_slice());
                assert(fqn@ =~= ph + seq!['#'] + s@);
                let parent = current_fqn(&open, path.as_slice());
                let ghost ek = edge_views(edges@);
                edges.push(edge_of(parent.as_slice(), fqn.as_slice(), EdgePredicate::Contains, path.as_slice(), line_no));
                assert(edge_views(edges@) =~= ek.push((parent@, fqn@, EdgePredicate::Contains, ph, line_no)));
                let ghost o0 = open_views(open@);
                open.push(OpenSection { level, fqn, name: text, start_line: line_no, body: Vec::new() });
                assert(open_views(open@) =~= o0.push((level as nat, ph + seq!['#'] + s@, text@, line_no, Seq::empty())));
            },
        }
        i = i + 1;
    }
    assert(lv.take(lv.len() as int) =~= lv);
    let n = ls.len();
    let last = count_to_i64(if n > 1 { n } else { 1 });
    close_down_to(
        &mut open,
        &mut nodes,
        file.relative_path,
        file.content_hash,
        0,
        last,
        Ghost(char_views(used@)),
        Ghost(in_fence),
        Ghost(edge_views(edges@)),
    );
    FileExtraction { nodes, edges }
}

} // verus!
