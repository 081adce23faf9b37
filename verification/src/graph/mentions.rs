//! The `mentions` pass: one file naming another in its text.
//!
//! It runs after every file is extracted, because it needs every file
//! name in the project before it can look for one. It is the one
//! heuristic predicate, and a wrong edge here looks like a real one to
//! whoever follows it, so it is conservative:
//!
//! * only stems unique across the project count: two `mod.rs` would
//!   make every mention ambiguous, so neither is considered;
//! * only stems of [`MIN_MENTION_STEM`] bytes or more count: below that
//!   a name like `id` matches every sentence containing the word;
//! * a match must not be part of a longer word, so `auth` does not
//!   match `author`.

use vstd::prelude::*;

use crate::graph::extract::markdown::{count_i64, count_to_i64};
use crate::graph::model::{edge_views, EdgePredicate, ExtractedEdge, ExtractedEdgeV, ExtractedNode, NodeKind};
use crate::text::{
    alphanumeric, char_is_alphanumeric, chars_eq, chars_of, find_char_from, find_last, first_index,
    last_index, lines, slice_chars, split_lines, string_of, utf8_len,
};

verus! {

/// The shortest stem, in bytes, that a mention is looked for by.
pub const MIN_MENTION_STEM: usize = 4;

/// A path's last segment.
pub open spec fn base_name(fqn: Seq<char>) -> Seq<char> {
    match last_index(fqn, '/') {
        Some(k) => fqn.skip(k + 1int),
        None => fqn,
    }
}

/// What a file is mentioned by: its base name up to the first dot.
pub open spec fn mention_stem(fqn: Seq<char>) -> Seq<char> {
    base_name(fqn).take(first_index(base_name(fqn), '.') as int)
}

/// Whether a node is a file whose stem is long enough to look for.
pub open spec fn mentionable(n: ExtractedNode) -> bool {
    n.kind == NodeKind::File && utf8_len(mention_stem(n.fqn@)) >= MIN_MENTION_STEM
}

/// How many mentionable nodes among `nodes` have the stem `stem`.
pub open spec fn stem_count(nodes: Seq<ExtractedNode>, stem: Seq<char>) -> nat
    decreases nodes.len(),
{
    if nodes.len() == 0 {
        0
    } else {
        stem_count(nodes.drop_last(), stem) + if mentionable(nodes.last()) && mention_stem(
            nodes.last().fqn@,
        ) == stem {
            1nat
        } else {
            0nat
        }
    }
}

/// The files worth looking for, as (stem, identity), in node order:
/// the mentionable ones whose stem no other mentionable node shares.
pub open spec fn mention_targets(all: Seq<ExtractedNode>, nodes: Seq<ExtractedNode>) -> Seq<
    (Seq<char>, Seq<char>),
>
    decreases nodes.len(),
{
    if nodes.len() == 0 {
        Seq::empty()
    } else {
        let r = mention_targets(all, nodes.drop_last());
        let n = nodes.last();
        if mentionable(n) && stem_count(all, mention_stem(n.fqn@)) == 1 {
            r.push((mention_stem(n.fqn@), n.fqn@))
        } else {
            r
        }
    }
}

/// Whether `c` counts as part of a word.
pub open spec fn word_char(c: char) -> bool {
    alphanumeric(c) || c == '_'
}

/// Whether `word` occurs in `line` at `k`.
pub open spec fn occurs_at(line: Seq<char>, word: Seq<char>, k: int) -> bool {
    0 <= k && k + word.len() <= line.len() && line.subrange(k, k + word.len()) == word
}

/// The first place at or after `from` where `word` occurs in `line`.
pub open spec fn find_from(line: Seq<char>, word: Seq<char>, from: int) -> Option<int>
    decreases line.len() + 1 - from,
{
    if from < 0 || from + word.len() > line.len() {
        None
    } else if occurs_at(line, word, from) {
        Some(from)
    } else {
        find_from(line, word, from + 1)
    }
}

/// Whether the occurrence of `word` at `k` stands as a whole word.
pub open spec fn whole_word_at(line: Seq<char>, word: Seq<char>, k: int) -> bool {
    &&& (k == 0 || !word_char(line[k - 1]))
    &&& (k + word.len() == line.len() || !word_char(line[k + word.len()]))
}

/// Whether scanning `line` from `from` finds `word` as a whole word:
/// each occurrence is tested, and the search resumes after it.
pub open spec fn scan(line: Seq<char>, word: Seq<char>, from: int) -> bool
    decreases line.len() - from,
{
    if word.len() == 0 || from < 0 || from > line.len() {
        false
    } else {
        match find_from(line, word, from) {
            Some(s) => if s >= from && s + word.len() <= line.len() {
                whole_word_at(line, word, s) || scan(line, word, s + word.len())
            } else {
                false
            },
            None => false,
        }
    }
}

/// The index of the first of `ls` in which `word` stands as a whole
/// word.
pub open spec fn first_line_with(ls: Seq<Seq<char>>, word: Seq<char>) -> Option<nat>
    decreases ls.len(),
{
    if ls.len() == 0 {
        None
    } else {
        match first_line_with(ls.drop_last(), word) {
            Some(i) => Some(i),
            None => if scan(ls.last(), word, 0) {
                Some((ls.len() - 1) as nat)
            } else {
                None
            },
        }
    }
}

/// The first line, numbered from one, where `word` stands as a whole
/// word.
pub open spec fn line_of_word_spec(content: Seq<char>, word: Seq<char>) -> Option<i64> {
    match first_line_with(lines(content), word) {
        Some(i) => Some(count_i64(i + 1)),
        None => None,
    }
}

/// The mentions in one file: each target named in its text as a whole
/// word, other than the file itself, once.
pub open spec fn file_mentions(
    path: Seq<char>,
    content: Seq<char>,
    ts: Seq<(Seq<char>, Seq<char>)>,
) -> Seq<ExtractedEdgeV>
    decreases ts.len(),
{
    if ts.len() == 0 {
        Seq::empty()
    } else {
        let r = file_mentions(path, content, ts.drop_last());
        let (stem, target) = ts.last();
        let seen = exists|j: int| 0 <= j < r.len() && (#[trigger] r[j]).1 == target;
        match line_of_word_spec(content, stem) {
            Some(line) => if target != path && !seen {
                r.push((path, target, EdgePredicate::Mentions, path, line))
            } else {
                r
            },
            None => r,
        }
    }
}

/// The mentions in every file, in file order.
pub open spec fn all_mentions(
    nodes: Seq<ExtractedNode>,
    contents: Seq<(Seq<char>, Seq<char>)>,
) -> Seq<ExtractedEdgeV>
    decreases contents.len(),
{
    if contents.len() == 0 {
        Seq::empty()
    } else {
        all_mentions(nodes, contents.drop_last()) + file_mentions(
            contents.last().0,
            contents.last().1,
            mention_targets(nodes, nodes),
        )
    }
}

fn is_word_char(c: char) -> (r: bool)
    ensures
        r == word_char(c),
{
    c == '_' || char_is_alphanumeric(c)
}

fn occurs_exec(line: &[char], word: &[char], k: usize) -> (r: bool)
    requires
        word@.len() <= line@.len(),
        k <= line@.len() - word@.len(),
    ensures
        r == occurs_at(line@, word@, k as int),
{
    let n = word.len();
    let ll = line.len();
    let mut m: usize = 0;
    while m < n
        invariant
            n == word@.len(),
            ll == line@.len(),
            word@.len() <= line@.len(),
            k <= line@.len() - word@.len(),
            m <= n,
            forall|j: int| 0 <= j < m ==> line@[k + j] == word@[j],
        decreases n - m,
    {
        let i: usize = k + m;
        if line[i] != word[m] {
            assert(line@.subrange(k as int, k + word@.len())[m as int] != word@[m as int]);
            return false;
        }
        m = m + 1;
    }
    assert(line@.subrange(k as int, k + word@.len()) =~= word@);
    true
}

fn find_word_from(line: &[char], word: &[char], from: usize) -> (r: Option<usize>)
    requires
        from <= line@.len(),
        word@.len() > 0,
    ensures
        match r {
            Some(s) => find_from(line@, word@, from as int) == Some(s as int),
            None => find_from(line@, word@, from as int) is None,
        },
{
    if word.len() > line.len() {
        return None;
    }
    let ll = line.len();
    let mut k = from;
    while k <= ll - word.len()
        invariant
            ll == line@.len(),
            word@.len() <= line@.len(),
            word@.len() > 0,
            from <= k <= line@.len(),
            find_from(line@, word@, from as int) == find_from(line@, word@, k as int),
        decreases line@.len() - k,
    {
        if occurs_exec(line, word, k) {
            return Some(k);
        }
        k = k + 1;
    }
    None
}

fn scan_line(line: &[char], word: &[char]) -> (r: bool)
    requires
        word@.len() > 0,
    ensures
        r == scan(line@, word@, 0),
{
    let mut from: usize = 0;
    loop
        invariant
            word@.len() > 0,
            from <= line@.len(),
            scan(line@, word@, 0) == scan(line@, word@, from as int),
        decreases line@.len() - from,
    {
        match find_word_from(line, word, from) {
            None => {
                return false;
            },
            Some(start) => {
                proof {
                    lemma_find_from(line@, word@, from as int);
                }
                assert(start + word@.len() <= line@.len());
                let ll = line.len();
                let end = start + word.len();
                let before_ok = start == 0 || !is_word_char(line[start - 1]);
                let after_ok = end == line.len() || !is_word_char(line[end]);
                if before_ok && after_ok {
                    return true;
                }
                from = end;
            },
        }
    }
}

proof fn lemma_find_from(line: Seq<char>, word: Seq<char>, from: int)
    ensures
        match find_from(line, word, from) {
            Some(s) => from <= s && s + word.len() <= line.len() && occurs_at(line, word, s),
            None => true,
        },
    decreases line.len() + 1 - from,
{
    if from >= 0 && from + word.len() <= line.len() && !occurs_at(line, word, from) {
        lemma_find_from(line, word, from + 1);
    }
}

/// The first line of `content`, numbered from one, where `word` stands
/// as a whole word.
pub fn line_of_word(content: &str, word: &str) -> (r: Option<i64>)
    requires
        word@.len() > 0,
    ensures
        r == line_of_word_spec(content@, word@),
{
    let c = chars_of(content);
    let w = chars_of(word);
    let ls = split_lines(c.as_slice());
    let ghost lv = crate::text::char_views(ls@);
    let mut i: usize = 0;
    while i < ls.len()
        invariant
            i <= ls@.len(),
            w@ == word@,
            w@.len() > 0,
            lv == crate::text::char_views(ls@),
            lv == lines(content@),
            first_line_with(lv.take(i as int), w@) is None,
        decreases ls@.len() - i,
    {
        proof {
            let pre = lv.take(i + 1);
            assert(pre.drop_last() =~= lv.take(i as int));
            assert(pre.last() == ls@[i as int]@);
        }
        if scan_line(ls[i].as_slice(), w.as_slice()) {
            proof {
                lemma_first_line_prefix(lv, w@, i + 1);
            }
            return Some(count_to_i64(i + 1));
        }
        i = i + 1;
    }
    assert(lv.take(i as int) =~= lv);
    None
}

proof fn lemma_first_line_prefix(ls: Seq<Seq<char>>, word: Seq<char>, k: int)
    requires
        0 <= k <= ls.len(),
        first_line_with(ls.take(k), word) is Some,
    ensures
        first_line_with(ls, word) == first_line_with(ls.take(k), word),
    decreases ls.len() - k,
{
    if k < ls.len() {
        let pre = ls.take(k + 1);
        assert(pre.drop_last() =~= ls.take(k));
        lemma_first_line_prefix(ls, word, k + 1);
    } else {
        assert(ls.take(k) =~= ls);
    }
}

fn mention_stem_chars(fqn: &[char]) -> (r: Vec<char>)
    ensures
        r@ == mention_stem(fqn@),
{
    proof {
        crate::text::lemma_last_index(fqn@, '/');
    }
    let n = fqn.len();
    let base = match find_last(fqn, '/') {
        Some(k) => {
            let b = slice_chars(fqn, k + 1, n);
            assert(b@ =~= fqn@.skip(k + 1));
            b
        },
        None => slice_chars(fqn, 0, fqn.len()),
    };
    assert(base@ =~= base_name(fqn@));
    let d = find_char_from(base.as_slice(), '.', 0);
    assert(base@.skip(0) =~= base@);
    let r = slice_chars(base.as_slice(), 0, d);
    assert(r@ =~= mention_stem(fqn@));
    r
}

proof fn lemma_utf8_len_empty(s: Seq<char>)
    requires
        utf8_len(s) > 0,
    ensures
        s.len() > 0,
{
}

/// Whether entry `a` of the stems and marks was read from node `a`.
pub open spec fn noted(stems: Seq<Vec<char>>, marks: Seq<bool>, nodes: Seq<ExtractedNode>, a: int) -> bool {
    stems[a]@ == mention_stem(nodes[a].fqn@) && marks[a] == mentionable(nodes[a])
}

/// The files worth looking for; see [`mention_targets`].
fn targets_of(nodes: &[ExtractedNode]) -> (r: Vec<(Vec<char>, Vec<char>)>)
    ensures
        crate::text::pair_char_views(r@) == mention_targets(nodes@, nodes@),
        forall|i: int| 0 <= i < r@.len() ==> (#[trigger] r@[i]).0@.len() > 0,
{
    let mut stems: Vec<Vec<char>> = Vec::new();
    let mut marks: Vec<bool> = Vec::new();
    let mut i: usize = 0;
    while i < nodes.len()
        invariant
            i <= nodes@.len(),
            stems@.len() == i,
            marks@.len() == i,
            forall|a: int| 0 <= a < i ==> #[trigger] noted(stems@, marks@, nodes@, a),
        decreases nodes@.len() - i,
    {
        let fqn = chars_of(nodes[i].fqn.as_str());
        let st = mention_stem_chars(fqn.as_slice());
        let file = match nodes[i].kind {
            NodeKind::File => true,
            NodeKind::Section => false,
        };
        let m = file && !crate::text::utf8_len_below(st.as_slice(), MIN_MENTION_STEM);
        let ghost (s0, m0) = (stems@, marks@);
        stems.push(st);
        marks.push(m);
        proof {
            assert forall|a: int| 0 <= a < i + 1 implies #[trigger] noted(stems@, marks@, nodes@, a) by {
                if a < i {
                    assert(noted(s0, m0, nodes@, a));
                    assert(stems@[a] == s0[a]);
                    assert(marks@[a] == m0[a]);
                }
            }
        }
        i = i + 1;
    }
    let mut r: Vec<(Vec<char>, Vec<char>)> = Vec::new();
    let mut k: usize = 0;
    while k < nodes.len()
        invariant
            k <= nodes@.len(),
            stems@.len() == nodes@.len(),
            marks@.len() == nodes@.len(),
            forall|a: int| 0 <= a < nodes@.len() ==> #[trigger] noted(stems@, marks@, nodes@, a),
            crate::text::pair_char_views(r@) == mention_targets(nodes@, nodes@.take(k as int)),
            forall|a: int| 0 <= a < r@.len() ==> (#[trigger] r@[a]).0@.len() > 0,
        decreases nodes@.len() - k,
    {
        proof {
            let pre = nodes@.take(k + 1);
            assert(pre.drop_last() =~= nodes@.take(k as int));
            assert(pre.last() == nodes@[k as int]);
            assert(noted(stems@, marks@, nodes@, k as int));
        }
        if marks[k] {
            let mut count: usize = 0;
            let mut j: usize = 0;
            while j < nodes.len()
                invariant
                    j <= nodes@.len(),
                    k < nodes@.len(),
                    stems@.len() == nodes@.len(),
                    marks@.len() == nodes@.len(),
                    forall|a: int| 0 <= a < nodes@.len() ==> #[trigger] noted(stems@, marks@, nodes@, a),
                    count == stem_count(nodes@.take(j as int), stems@[k as int]@),
                    count <= j,
                decreases nodes@.len() - j,
            {
                proof {
                    let pre = nodes@.take(j + 1);
                    assert(pre.drop_last() =~= nodes@.take(j as int));
                    assert(pre.last() == nodes@[j as int]);
                    assert(noted(stems@, marks@, nodes@, j as int));
                    assert(noted(stems@, marks@, nodes@, k as int));
                }
                if marks[j] && chars_eq(stems[j].as_slice(), stems[k].as_slice()) {
                    count = count + 1;
                }
                j = j + 1;
            }
            assert(nodes@.take(j as int) =~= nodes@);
            if count == 1 {
                proof {
                    assert(noted(stems@, marks@, nodes@, k as int));
                    lemma_utf8_len_empty(stems@[k as int]@);
                }
                let fq = chars_of(nodes[k].fqn.as_str());
                let st = slice_chars(stems[k].as_slice(), 0, stems[k].len());
                assert(st@ =~= stems@[k as int]@);
                let ghost before = crate::text::pair_char_views(r@);
                r.push((st, fq));
                assert(crate::text::pair_char_views(r@) =~= before.push(
                    (mention_stem(nodes@[k as int].fqn@), nodes@[k as int].fqn@),
                ));
            }
        }
        k = k + 1;
    }
    assert(nodes@.take(k as int) =~= nodes@);
    r
}

/// The mentions in one file; see [`file_mentions`].
fn file_mentions_exec(path: &String, content: &String, ts: &Vec<(Vec<char>, Vec<char>)>) -> (r: Vec<
    ExtractedEdge,
>)
    requires
        forall|i: int| 0 <= i < ts@.len() ==> (#[trigger] ts@[i]).0@.len() > 0,
    ensures
        edge_views(r@) == file_mentions(path@, content@, crate::text::pair_char_views(ts@)),
{
    let ghost tv = crate::text::pair_char_views(ts@);
    let pc = chars_of(path.as_str());
    let mut r: Vec<ExtractedEdge> = Vec::new();
    let mut i: usize = 0;
    while i < ts.len()
        invariant
            i <= ts@.len(),
            tv == crate::text::pair_char_views(ts@),
            pc@ == path@,
            forall|a: int| 0 <= a < ts@.len() ==> (#[trigger] ts@[a]).0@.len() > 0,
            edge_views(r@) == file_mentions(path@, content@, tv.take(i as int)),
        decreases ts@.len() - i,
    {
        proof {
            let pre = tv.take(i + 1);
            assert(pre.drop_last() =~= tv.take(i as int));
            assert(pre.last() == tv[i as int]);
        }
        let ghost rv = edge_views(r@);
        let stem = string_of(ts[i].0.as_slice());
        let target = ts[i].1.as_slice();
        let mut seen = false;
        let mut j: usize = 0;
        while j < r.len()
            invariant
                j <= r@.len(),
                rv == edge_views(r@),
                seen == exists|b: int| 0 <= b < j && (#[trigger] rv[b]).1 == target@,
            decreases r@.len() - j,
        {
            let d = chars_of(r[j].dst_fqn.as_str());
            if chars_eq(d.as_slice(), target) {
                assert(rv[j as int].1 == target@);
                seen = true;
            }
            j = j + 1;
        }
        match line_of_word(content.as_str(), stem.as_str()) {
            Some(line) => {
                if !chars_eq(target, pc.as_slice()) && !seen {
                    let e = ExtractedEdge {
                        src_fqn: path.clone(),
                        dst_fqn: string_of(target),
                        predicate: EdgePredicate::Mentions,
                        file_path: path.clone(),
                        line,
                    };
                    r.push(e);
                    assert(edge_views(r@) =~= rv.push(e@));
                }
            },
            None => {},
        }
        i = i + 1;
    }
    assert(tv.take(i as int) =~= tv);
    r
}

/// The `mentions` edges of a project: for each file, in file order,
/// every file whose unique stem its text names as a whole word.
pub fn mentions(nodes: &[ExtractedNode], contents: &[(String, String)]) -> (r: Vec<ExtractedEdge>)
    ensures
        edge_views(r@) == all_mentions(nodes@, crate::text::pair_views(contents@)),
{
    let ts = targets_of(nodes);
    let ghost cv = crate::text::pair_views(contents@);
    let mut out: Vec<ExtractedEdge> = Vec::new();
    let mut i: usize = 0;
    while i < contents.len()
        invariant
            i <= contents@.len(),
            cv == crate::text::pair_views(contents@),
            crate::text::pair_char_views(ts@) == mention_targets(nodes@, nodes@),
            forall|a: int| 0 <= a < ts@.len() ==> (#[trigger] ts@[a]).0@.len() > 0,
            edge_views(out@) == all_mentions(nodes@, cv.take(i as int)),
        decreases contents@.len() - i,
    {
        proof {
            let pre = cv.take(i + 1);
            assert(pre.drop_last() =~= cv.take(i as int));
            assert(pre.last() == cv[i as int]);
        }
        let mut found = file_mentions_exec(&contents[i].0, &contents[i].1, &ts);
        let ghost before = out@;
        let ghost fv = found@;
        out.append(&mut found);
        assert(out@ == before + fv);
        assert(edge_views(out@) =~= edge_views(before) + edge_views(fv));
        i = i + 1;
    }
    assert(cv.take(i as int) =~= cv);
    out
}

/// The mentions found in one file point away from it, each at a
/// different file, and are all `mentions` edges from that file.
pub proof fn law_file_mentions_are_distinct_and_not_self(
    path: Seq<char>,
    content: Seq<char>,
    ts: Seq<(Seq<char>, Seq<char>)>,
)
    ensures
        forall|a: int|
            0 <= a < file_mentions(path, content, ts).len() ==> {
                let e = #[trigger] file_mentions(path, content, ts)[a];
                &&& e.0 == path
                &&& e.1 != path
                &&& e.2 == EdgePredicate::Mentions
                &&& e.3 == path
            },
        forall|a: int, b: int|
            0 <= a < b < file_mentions(path, content, ts).len() ==> (#[trigger] file_mentions(
                path,
                content,
                ts,
            )[a]).1 != (#[trigger] file_mentions(path, content, ts)[b]).1,
    decreases ts.len(),
{
    if ts.len() > 0 {
        law_file_mentions_are_distinct_and_not_self(path, content, ts.drop_last());
        let r = file_mentions(path, content, ts.drop_last());
        let cur = file_mentions(path, content, ts);
        assert forall|a: int| 0 <= a < cur.len() implies {
            let e = #[trigger] cur[a];
            &&& e.0 == path
            &&& e.1 != path
            &&& e.2 == EdgePredicate::Mentions
            &&& e.3 == path
        } by {
            if a < r.len() {
                assert(cur[a] == r[a]);
            }
        }
        assert forall|a: int, b: int| 0 <= a < b < cur.len() implies (#[trigger] cur[a]).1 != (
        #[trigger] cur[b]).1 by {
            if b < r.len() {
                assert(cur[a] == r[a] && cur[b] == r[b]);
            } else {
                assert(cur[a] == r[a]);
            }
        }
    }
}

/// No file is ever said to mention itself.
pub proof fn law_no_file_mentions_itself(
    nodes: Seq<ExtractedNode>,
    contents: Seq<(Seq<char>, Seq<char>)>,
)
    ensures
        forall|a: int|
            0 <= a < all_mentions(nodes, contents).len() ==> (#[trigger] all_mentions(
                nodes,
                contents,
            )[a]).0 != all_mentions(nodes, contents)[a].1,
    decreases contents.len(),
{
    if contents.len() > 0 {
        law_no_file_mentions_itself(nodes, contents.drop_last());
        let ts = mention_targets(nodes, nodes);
        let (path, content) = contents.last();
        law_file_mentions_are_distinct_and_not_self(path, content, ts);
        let head = all_mentions(nodes, contents.drop_last());
        let tail = file_mentions(path, content, ts);
        let all = all_mentions(nodes, contents);
        assert(all == head + tail);
        assert forall|a: int| 0 <= a < all.len() implies (#[trigger] all[a]).0 != all[a].1 by {
            if a < head.len() {
                assert(all[a] == head[a]);
            } else {
                assert(all[a] == tail[a - head.len()]);
            }
        }
    }
}

} // verus!
