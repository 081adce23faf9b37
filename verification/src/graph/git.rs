//! Reading what changed, from git's own machine-readable output.
//!
//! Records are NUL-separated (`-z`), so a path holding a space, a
//! quote or a newline survives intact.

use vstd::prelude::*;
use crate::text::{
    char_utf8_width, char_views, chars_of, chars_trim_start, fields, lemma_utf8_len_bounds, opt_view, slice_chars,
    split_fields, string_of_vec, trim_start, utf8_len, utf8_len_below, utf8_width,
};

verus! {

/// What happened to one file.
#[derive(Clone, Copy, Debug, PartialEq, Eq, Structural)]
pub enum ChangeKind {
    Added,
    Modified,
    Deleted,
    Renamed,
    /// On disk, never committed.
    Untracked,
}

/// One changed file, relative to the repository root.
#[derive(Clone, Debug)]
pub struct ChangedFile {
    pub path: String,
    pub kind: ChangeKind,
    /// Where a rename came from; `None` for everything else.
    pub renamed_from: Option<String>,
}

impl View for ChangedFile {
    type V = (Seq<char>, ChangeKind, Option<Seq<char>>);

    open spec fn view(&self) -> (Seq<char>, ChangeKind, Option<Seq<char>>) {
        (self.path@, self.kind, opt_view(self.renamed_from))
    }
}

/// A change, as a value.
pub open spec fn change(
    path: Seq<char>,
    kind: ChangeKind,
    from: Option<Seq<char>>,
) -> (Seq<char>, ChangeKind, Option<Seq<char>>) {
    (path, kind, from)
}

/// Whether the first character of a status record is one byte wide.
/// The two status columns are then its first two characters.
pub open spec fn status_is_ascii(rec: Seq<char>) -> bool {
    utf8_width(rec[0]) == 1
}

/// Whether splitting a record after its two status bytes lands on a
/// character boundary (the split panics otherwise).
pub open spec fn status_split_ok(rec: Seq<char>) -> bool {
    (status_is_ascii(rec) && utf8_width(rec[1]) == 1) || utf8_width(rec[0]) == 2
}

/// Characters the status columns occupy.
pub open spec fn status_width(rec: Seq<char>) -> int {
    if status_is_ascii(rec) {
        2
    } else {
        1
    }
}

/// The kind one status column denotes.
pub open spec fn column_kind(c: char) -> ChangeKind {
    if c == 'R' {
        ChangeKind::Renamed
    } else if c == 'A' {
        ChangeKind::Added
    } else if c == 'D' {
        ChangeKind::Deleted
    } else {
        ChangeKind::Modified
    }
}

/// The kind a pair of status columns denotes. The index column wins
/// when it is set: a file staged as added and then modified is, to a
/// reader, a new file. The worktree column decides only when the index
/// column is blank or `?`.
pub open spec fn status_kind(x: char, y: char) -> ChangeKind {
    if x != ' ' && x != '?' {
        column_kind(x)
    } else {
        column_kind(y)
    }
}

/// Whether a record is a rename, whose next field is the old path:
/// either column says `R`.
pub open spec fn status_renames(x: char, y: char) -> bool {
    x == 'R' || y == 'R'
}

/// The status columns of a record, as characters. A column whose byte
/// is not ASCII cannot be a status letter, and reads as a space.
pub open spec fn status_columns(rec: Seq<char>) -> (char, char) {
    if status_is_ascii(rec) {
        (rec[0], rec[1])
    } else {
        (' ', ' ')
    }
}

/// What `git status --porcelain -z` reports, given its fields.
pub open spec fn status_changes(fs: Seq<Seq<char>>) -> Seq<(Seq<char>, ChangeKind, Option<Seq<char>>)>
    decreases fs.len(),
{
    if fs.len() == 0 {
        Seq::empty()
    } else {
        let rec = fs[0];
        if utf8_len(rec) < 4 {
            status_changes(fs.drop_first())
        } else {
            let status = rec.take(status_width(rec));
            let path = trim_start(rec.skip(status_width(rec)));
            if status == seq!['?', '?'] {
                seq![change(path, ChangeKind::Untracked, None)] + status_changes(fs.drop_first())
            } else {
                let cols = status_columns(rec);
                let kind = status_kind(cols.0, cols.1);
                if status_renames(cols.0, cols.1) {
                    if fs.len() > 1 {
                        seq![change(path, kind, Some(fs[1]))] + status_changes(fs.skip(2))
                    } else {
                        seq![change(path, kind, None)]
                    }
                } else {
                    seq![change(path, kind, None)] + status_changes(fs.drop_first())
                }
            }
        }
    }
}

/// Whether every record `status_changes` splits can be split without
/// panicking.
pub open spec fn status_records_ok(fs: Seq<Seq<char>>) -> bool
    decreases fs.len(),
{
    if fs.len() == 0 {
        true
    } else {
        let rec = fs[0];
        if utf8_len(rec) < 4 {
            status_records_ok(fs.drop_first())
        } else {
            &&& status_split_ok(rec)
            &&& {
                let status = rec.take(status_width(rec));
                let cols = status_columns(rec);
                if status != seq!['?', '?'] && status_renames(cols.0, cols.1) {
                    fs.len() > 1 ==> status_records_ok(fs.skip(2))
                } else {
                    status_records_ok(fs.drop_first())
                }
            }
        }
    }
}

fn kind_of_column(c: char) -> (k: ChangeKind)
    ensures
        k == column_kind(c),
{
    if c == 'R' {
        ChangeKind::Renamed
    } else if c == 'A' {
        ChangeKind::Added
    } else if c == 'D' {
        ChangeKind::Deleted
    } else {
        ChangeKind::Modified
    }
}

fn kind_of_columns(x: char, y: char) -> (k: ChangeKind)
    ensures
        k == status_kind(x, y),
{
    if x != ' ' && x != '?' {
        kind_of_column(x)
    } else {
        kind_of_column(y)
    }
}

/// Whether `git status --porcelain -z` output can be parsed: every
/// record that is split after its two status bytes splits on a
/// character boundary. See [`status_records_ok`].
pub fn status_output_ok(out: &str) -> (r: bool)
    ensures
        r == status_records_ok(fields(out@, '\0')),
{
    let chars = chars_of(out);
    let fs = split_fields(chars.as_slice(), '\0');
    let ghost fv = char_views(fs@);
    let mut i: usize = 0;
    assert(fv.skip(0) =~= fv);
    while i < fs.len()
        invariant
            fv == char_views(fs@),
            fv == fields(out@, '\0'),
            i <= fs@.len(),
            status_records_ok(fv) == status_records_ok(fv.skip(i as int)),
        decreases fs@.len() - i,
    {
        let ghost rest = fv.skip(i as int);
        let rec = &fs[i];
        assert(rest[0] == rec@);
        assert(rest.drop_first() =~= fv.skip(i + 1));
        if utf8_len_below(rec.as_slice(), 4) {
            i = i + 1;
            continue;
        }
        proof {
            lemma_utf8_len_bounds(rec@);
            lemma_utf8_len_bounds(rec@.drop_first());
        }
        let w0 = char_utf8_width(rec[0]);
        let ascii = w0 == 1;
        let split_ok = (ascii && char_utf8_width(rec[1]) == 1) || w0 == 2;
        if !split_ok {
            return false;
        }
        let ghost status = rec@.take(if ascii { 2int } else { 1int });
        let untracked = ascii && rec[0] == '?' && rec[1] == '?';
        proof {
            if ascii {
                assert(untracked <==> status =~= seq!['?', '?']);
            } else {
                assert(status.len() == 1);
            }
        }
        let (x, y) = if ascii {
            (rec[0], rec[1])
        } else {
            (' ', ' ')
        };
        let renamed = x == 'R' || y == 'R';
        if !untracked && renamed {
            if i + 1 < fs.len() {
                assert(rest.skip(2) =~= fv.skip(i + 2));
                i = i + 2;
            } else {
                return true;
            }
        } else {
            i = i + 1;
        }
    }
    true
}

/// Parses `git status --porcelain -z`.
///
/// Each record is `XY <path>`, `X` the index column and `Y` the
/// working tree's. A rename is followed by a field holding the old
/// path, which it consumes. A record under four bytes is dropped.
pub fn parse_status(out: &str) -> (r: Vec<ChangedFile>)
    requires
        status_records_ok(fields(out@, '\0')),
    ensures
        r@.map_values(|c: ChangedFile| c@) == status_changes(fields(out@, '\0')),
{
    let chars = chars_of(out);
    let fs = split_fields(chars.as_slice(), '\0');
    let ghost fv = char_views(fs@);
    let mut changes: Vec<ChangedFile> = Vec::new();
    let mut i: usize = 0;
    assert(fv.skip(0) =~= fv);
    while i < fs.len()
        invariant
            fv == char_views(fs@),
            fv == fields(out@, '\0'),
            i <= fs@.len(),
            changes@.map_values(|c: ChangedFile| c@) + status_changes(fv.skip(i as int))
                == status_changes(fv),
            status_records_ok(fv.skip(i as int)),
        decreases fs@.len() - i,
    {
        let ghost rest = fv.skip(i as int);
        let ghost before = changes@.map_values(|c: ChangedFile| c@);
        let rec = &fs[i];
        assert(rest[0] == rec@);
        assert(rest.drop_first() =~= fv.skip(i + 1));
        if utf8_len_below(rec.as_slice(), 4) {
            i = i + 1;
            continue;
        }
        proof {
            lemma_utf8_len_bounds(rec@);
            lemma_utf8_len_bounds(rec@.drop_first());
        }
        let ascii = char_utf8_width(rec[0]) == 1;
        let cut: usize = if ascii {
            2
        } else {
            1
        };
        let tail = slice_chars(rec.as_slice(), cut, rec.len());
        let path_chars = chars_trim_start(tail.as_slice());
        let path = string_of_vec(&path_chars);
        let ghost status = rec@.take(cut as int);
        if ascii && rec[0] == '?' && rec[1] == '?' {
            assert(status =~= seq!['?', '?']);
            changes.push(ChangedFile { path, kind: ChangeKind::Untracked, renamed_from: None });
            assert(changes@.map_values(|c: ChangedFile| c@) =~= before + seq![
                change(path_chars@, ChangeKind::Untracked, None),
            ]);
            i = i + 1;
            continue;
        }
        assert(status != seq!['?', '?']) by {
            if ascii {
                assert(status[0] == rec@[0] && status[1] == rec@[1]);
            } else {
                assert(status.len() == 1);
            }
        }
        let (x, y) = if ascii {
            (rec[0], rec[1])
        } else {
            (' ', ' ')
        };
        let kind = kind_of_columns(x, y);
        match x == 'R' || y == 'R' {
            true => {
                if i + 1 < fs.len() {
                    let from = string_of_vec(&fs[i + 1]);
                    assert(rest[1] == fs@[i + 1]@);
                    assert(rest.skip(2) =~= fv.skip(i + 2));
                    changes.push(ChangedFile { path, kind, renamed_from: Some(from) });
                    assert(changes@.map_values(|c: ChangedFile| c@) =~= before + seq![
                        change(path_chars@, kind, Some(fs@[i + 1]@)),
                    ]);
                    i = i + 2;
                } else {
                    changes.push(ChangedFile { path, kind, renamed_from: None });
                    assert(changes@.map_values(|c: ChangedFile| c@) =~= before + seq![
                        change(path_chars@, kind, None),
                    ]);
                    assert(fv.skip(i + 1) =~= Seq::<Seq<char>>::empty());
                    i = i + 1;
                }
            },
            false => {
                changes.push(ChangedFile { path, kind, renamed_from: None });
                assert(changes@.map_values(|c: ChangedFile| c@) =~= before + seq![
                    change(path_chars@, kind, None),
                ]);
                i = i + 1;
            },
        }
    }
    assert(fv.skip(fs@.len() as int) =~= Seq::<Seq<char>>::empty());
    assert(changes@.map_values(|c: ChangedFile| c@) + Seq::empty() =~= changes@.map_values(
        |c: ChangedFile| c@,
    ));
    changes
}

/// The kind a `--name-status` letter denotes, for a non-rename.
pub open spec fn name_status_kind(letter: char) -> ChangeKind {
    if letter == 'A' {
        ChangeKind::Added
    } else if letter == 'D' {
        ChangeKind::Deleted
    } else {
        ChangeKind::Modified
    }
}

/// The first character of a status field.
pub open spec fn letter_of(f: Seq<char>) -> char {
    if f.len() > 0 {
        f[0]
    } else {
        ' '
    }
}

/// What `git diff --name-status -z` reports, given its fields. A
/// rename or copy (`R100`, `C75`) is followed by two paths, old then
/// new; anything else by one. A record cut short ends the parse.
pub open spec fn name_status_changes(fs: Seq<Seq<char>>) -> Seq<
    (Seq<char>, ChangeKind, Option<Seq<char>>),
>
    decreases fs.len(),
{
    if fs.len() == 0 {
        Seq::empty()
    } else {
        let l = letter_of(fs[0]);
        if l == 'R' || l == 'C' {
            if fs.len() >= 3 {
                seq![change(fs[2], ChangeKind::Renamed, Some(fs[1]))] + name_status_changes(
                    fs.skip(3),
                )
            } else {
                Seq::empty()
            }
        } else {
            if fs.len() >= 2 {
                seq![change(fs[1], name_status_kind(l), None)] + name_status_changes(fs.skip(2))
            } else {
                Seq::empty()
            }
        }
    }
}

/// Parses `git diff --name-status -z`.
pub fn parse_name_status(out: &str) -> (r: Vec<ChangedFile>)
    ensures
        r@.map_values(|c: ChangedFile| c@) == name_status_changes(fields(out@, '\0')),
{
    let chars = chars_of(out);
    let fs = split_fields(chars.as_slice(), '\0');
    let ghost fv = char_views(fs@);
    let mut changes: Vec<ChangedFile> = Vec::new();
    let mut i: usize = 0;
    assert(fv.skip(0) =~= fv);
    while i < fs.len()
        invariant
            fv == char_views(fs@),
            fv == fields(out@, '\0'),
            i <= fs@.len(),
            changes@.map_values(|c: ChangedFile| c@) + name_status_changes(fv.skip(i as int))
                == name_status_changes(fv),
        decreases fs@.len() - i,
    {
        let ghost rest = fv.skip(i as int);
        let ghost before = changes@.map_values(|c: ChangedFile| c@);
        let st = &fs[i];
        assert(rest[0] == st@);
        let letter = if st.len() > 0 {
            st[0]
        } else {
            ' '
        };
        if letter == 'R' || letter == 'C' {
            if fs.len() - i <= 2 {
                assert(name_status_changes(rest) =~= Seq::empty());
                assert(changes@.map_values(|c: ChangedFile| c@) + Seq::empty() =~= changes@.map_values(
                    |c: ChangedFile| c@,
                ));
                return changes;
            }
            let from = string_of_vec(&fs[i + 1]);
            let to = string_of_vec(&fs[i + 2]);
            assert(rest[1] == fs@[i + 1]@ && rest[2] == fs@[i + 2]@);
            assert(rest.skip(3) =~= fv.skip(i + 3));
            changes.push(ChangedFile { path: to, kind: ChangeKind::Renamed, renamed_from: Some(from) });
            assert(changes@.map_values(|c: ChangedFile| c@) =~= before + seq![
                change(fs@[i + 2]@, ChangeKind::Renamed, Some(fs@[i + 1]@)),
            ]);
            i = i + 3;
        } else {
            if fs.len() - i <= 1 {
                assert(name_status_changes(rest) =~= Seq::empty());
                assert(changes@.map_values(|c: ChangedFile| c@) + Seq::empty() =~= changes@.map_values(
                    |c: ChangedFile| c@,
                ));
                return changes;
            }
            let path = string_of_vec(&fs[i + 1]);
            let kind = if letter == 'A' {
                ChangeKind::Added
            } else if letter == 'D' {
                ChangeKind::Deleted
            } else {
                ChangeKind::Modified
            };
            assert(rest[1] == fs@[i + 1]@);
            assert(rest.skip(2) =~= fv.skip(i + 2));
            changes.push(ChangedFile { path, kind, renamed_from: None });
            assert(changes@.map_values(|c: ChangedFile| c@) =~= before + seq![
                change(fs@[i + 1]@, kind, None),
            ]);
            i = i + 2;
        }
    }
    assert(fv.skip(fs@.len() as int) =~= Seq::<Seq<char>>::empty());
    assert(changes@.map_values(|c: ChangedFile| c@) + Seq::empty() =~= changes@.map_values(
        |c: ChangedFile| c@,
    ));
    changes
}

/// What git reported as changed: the output of `git diff
/// --name-status -z` when comparing against a ref, of `git status
/// --porcelain -z` otherwise. `None` for status output holding a record
/// that cannot be split after its status bytes.
pub fn changed_files(against: Option<&str>, output: &str) -> (r: Option<Vec<ChangedFile>>)
    ensures
        match against {
            Some(_) => r matches Some(v) && v@.map_values(|c: ChangedFile| c@) == name_status_changes(
                fields(output@, '\0'),
            ),
            None => if status_records_ok(fields(output@, '\0')) {
                r matches Some(v) && v@.map_values(|c: ChangedFile| c@) == status_changes(
                    fields(output@, '\0'),
                )
            } else {
                r is None
            },
        },
{
    match against {
        Some(_) => Some(parse_name_status(output)),
        None => {
            if status_output_ok(output) {
                Some(parse_status(output))
            } else {
                None
            }
        },
    }
}

} // verus!
