//! A diff: the changes to any number of files, one block per file.

use crate::error::{MergeErr, ParseErr, parse_err};
use crate::file_diff::{FileDiff, FileDiffView, file_fused, file_of, write_lines};
use crate::lines::{Lines, join, text_lines};
use crate::text::{
    comes_before, lemma_lex_irreflexive, lemma_lex_total, lemma_lex_transitive, lex_lt, ref_views,
};
use vstd::prelude::*;

verus! {

/// The changes to any number of files, one block for each.
#[derive(Debug)]
pub struct Diff {
    /// The blocks, in the order of the diff. No two are for the same file.
    _files: Vec<FileDiff>,
}

/// The views of a list of blocks.
pub open spec fn file_views(files: Seq<FileDiff>) -> Seq<FileDiffView> {
    Seq::new(files.len(), |i: int| files[i]@)
}

/// Every block is valid and counts its lines right.
pub open spec fn files_wf(files: Seq<FileDiff>) -> bool {
    forall|i: int| 0 <= i < files.len() ==> (#[trigger] files[i]).wf()
}

/// Whether some block is for the file `name`.
pub open spec fn has_name(files: Seq<FileDiffView>, name: Seq<char>) -> bool {
    exists|i: int| 0 <= i < files.len() && (#[trigger] files[i]).name() == name
}

/// No file has two blocks.
pub open spec fn names_unique(files: Seq<FileDiffView>) -> bool {
    forall|i: int, j: int|
        0 <= i < j < files.len() ==> (#[trigger] files[i]).name() != (#[trigger] files[j]).name()
}

/// The blocks come in the order of their file names.
pub open spec fn names_sorted(files: Seq<FileDiffView>) -> bool {
    forall|i: int, j: int|
        0 <= i < j < files.len()
            ==> lex_lt((#[trigger] files[i]).name(), (#[trigger] files[j]).name())
}

/// Every block is valid and no file has two.
pub open spec fn diff_wf(files: Seq<FileDiffView>) -> bool {
    (forall|i: int| 0 <= i < files.len() ==> (#[trigger] files[i]).wf()) && names_unique(files)
}

/// In no block do two hunks overlap.
pub open spec fn diff_disjoint(files: Seq<FileDiffView>) -> bool {
    forall|i: int| 0 <= i < files.len() ==> (#[trigger] files[i]).disjoint()
}

/// The block for the file `name`, if there is one.
pub open spec fn lookup(files: Seq<FileDiffView>, name: Seq<char>) -> Option<FileDiffView>
    decreases files.len(),
{
    if files.len() == 0 {
        None
    } else if files.last().name() == name {
        Some(files.last())
    } else {
        lookup(files.drop_last(), name)
    }
}

/// All lines of a diff, block after block.
pub open spec fn diff_lines(files: Seq<FileDiffView>) -> Seq<Seq<char>>
    decreases files.len(),
{
    if files.len() == 0 {
        Seq::empty()
    } else {
        diff_lines(files.drop_last()) + files.last().lines()
    }
}

/// The diff that `lines` hold: block after block to the last line. `None`
/// where a block cannot be read and where a file has two blocks.
pub open spec fn diff_of(lines: Seq<Seq<char>>) -> Option<Seq<FileDiffView>>
    decreases lines.len(),
{
    if lines.len() == 0 {
        Some(Seq::empty())
    } else {
        match file_of(lines) {
            None => None,
            Some((file, n)) => {
                if 4 <= n <= lines.len() {
                    match diff_of(lines.subrange(n, lines.len() as int)) {
                        None => None,
                        Some(files) => if has_name(files, file.name()) {
                            None
                        } else {
                            Some(seq![file] + files)
                        },
                    }
                } else {
                    None
                }
            },
        }
    }
}

/// The diff a text holds.
pub open spec fn diff_of_text(text: Seq<char>) -> Option<Seq<FileDiffView>> {
    match text_lines(text) {
        Some(lines) => diff_of(lines),
        None => None,
    }
}

/// What the fused diff holds for one file, given what the two diffs hold
/// for it: the fusion where both have a block, else the one block there
/// is. The outer `None` stands for a fusion that fails.
pub open spec fn joined(
    a: Option<FileDiffView>,
    b: Option<FileDiffView>,
) -> Option<Option<FileDiffView>> {
    match (a, b) {
        (Some(x), Some(y)) => match file_fused(x, y) {
            Some(f) => Some(Some(f)),
            None => None,
        },
        (Some(x), None) => Some(Some(x)),
        (None, Some(y)) => Some(Some(y)),
        (None, None) => Some(None),
    }
}

/// Whether `r` is the fusion of the diffs `a` and `b`: its blocks are in
/// the order of their file names, and for every file it holds what
/// `joined` says.
pub open spec fn is_fusion(
    a: Seq<FileDiffView>,
    b: Seq<FileDiffView>,
    r: Seq<FileDiffView>,
) -> bool {
    &&& names_sorted(r)
    &&& forall|name: Seq<char>| joined(lookup(a, name), lookup(b,
        name)) == Some(#[trigger] lookup(r, name))
}

/// Whether the diffs `a` and `b` can be fused: no file for which both have
/// a block makes the fusion fail.
pub open spec fn fusable(a: Seq<FileDiffView>, b: Seq<FileDiffView>) -> bool {
    forall|name: Seq<char>| (#[trigger] joined(lookup(a, name), lookup(b, name))) is Some
}

impl View for Diff {
    type V = Seq<FileDiffView>;

    closed spec fn view(&self) -> Seq<FileDiffView> {
        file_views(self._files@)
    }
}

impl core::str::FromStr for Diff {
    type Err = ParseErr;

    /// Reads a diff from a text, as `Diff::parse` does: the blocks the
    /// text denotes, or an error where it denotes none.
    fn from_str(s: &str) -> (r: Result<Diff, ParseErr>)
        ensures
            match diff_of_text(s@) {
                Some(files) => {
                    &&& r is Ok
                    &&& r->Ok_0@ == files
                    &&& r->Ok_0.wf()
                    &&& diff_disjoint(files)
                },
                None => r is Err,
            },
    {
        Diff::parse(s)
    }
}

/// Whether some file has a block in both.
pub open spec fn share_a_name(done: Seq<FileDiffView>, files: Seq<FileDiffView>) -> bool {
    exists|i: int, j: int|
        0 <= i < done.len() && 0 <= j < files.len()
            && (#[trigger] done[i]).name() == (#[trigger] files[j]).name()
}

/// `done`, then `more`, where there is a `more` and no file has a block
/// in both.
pub open spec fn files_then(
    done: Seq<FileDiffView>,
    more: Option<Seq<FileDiffView>>,
) -> Option<Seq<FileDiffView>> {
    match more {
        None => None,
        Some(files) => if share_a_name(done, files) {
            None
        } else {
            Some(done + files)
        },
    }
}

/// What `lookup` finds is a block for that file, and it finds one if there
/// is any.
pub proof fn lemma_lookup(files: Seq<FileDiffView>, name: Seq<char>)
    ensures
        match lookup(files, name) {
            Some(f) => f.name() == name && exists|i: int| 0 <= i < files.len()
                && #[trigger] files[i] == f,
            None => forall|i: int| 0 <= i < files.len() ==> (#[trigger] files[i]).name() != name,
        },
        lookup(files, name) is Some <==> has_name(files, name),
    decreases files.len(),
{
    if files.len() > 0 {
        let front = files.drop_last();
        lemma_lookup(front, name);
        if files.last().name() == name {
            assert(files[files.len() - 1] == files.last());
        } else {
            match lookup(front, name) {
                Some(f) => {
                    let i = choose|i: int| 0 <= i < front.len() && #[trigger] front[i] == f;
                    assert(files[i] == f);
                },
                None => {
                    assert forall|i: int| 0 <= i < files.len() implies (#[trigger] files[i]).name()
                        != name by {
                        if i < front.len() {
                            assert(front[i] == files[i]);
                        }
                    }
                },
            }
        }
    }
}

/// Where no file has two blocks, `lookup` finds each block under its name.
pub proof fn lemma_lookup_at(files: Seq<FileDiffView>, i: int)
    requires
        names_unique(files),
        0 <= i < files.len(),
    ensures
        lookup(files, files[i].name()) == Some(files[i]),
{
    lemma_lookup(files, files[i].name());
    let f = lookup(files, files[i].name()).unwrap();
    let j = choose|j: int| 0 <= j < files.len() && #[trigger] files[j] == f;
    if j != i {
        if j < i {
            assert(files[j].name() != files[i].name());
        } else {
            assert(files[i].name() != files[j].name());
        }
    }
}

/// What is found once one block is taken out.
pub proof fn lemma_lookup_remove(files: Seq<FileDiffView>, i: int, name: Seq<char>)
    requires
        names_unique(files),
        0 <= i < files.len(),
    ensures
        names_unique(files.remove(i)),
        lookup(files.remove(i), name) == if name == files[i].name() {
            None
        } else {
            lookup(files, name)
        },
{
    let less = files.remove(i);
    assert forall|x: int, y: int| 0 <= x < y < less.len() implies (#[trigger] less[x]).name() != (
    #[trigger] less[y]).name() by {
        let fx = if x < i { x } else { x + 1 };
        let fy = if y < i { y } else { y + 1 };
        assert(less[x] == files[fx] && less[y] == files[fy]);
    }
    lemma_lookup(less, name);
    lemma_lookup(files, name);
    if name == files[i].name() {
        if lookup(less, name) is Some {
            let f = lookup(less, name).unwrap();
            let x = choose|x: int| 0 <= x < less.len() && #[trigger] less[x] == f;
            let fx = if x < i { x } else { x + 1 };
            assert(less[x] == files[fx]);
            if fx < i {
                assert(files[fx].name() != files[i].name());
            } else {
                assert(files[i].name() != files[fx].name());
            }
        }
    } else {
        match lookup(files, name) {
            Some(f) => {
                let x = choose|x: int| 0 <= x < files.len() && #[trigger] files[x] == f;
                let lx = if x < i { x } else { x - 1 };
                assert(less[lx] == files[x]);
                lemma_lookup_at(less, lx);
            },
            None => {
                if lookup(less, name) is Some {
                    let f = lookup(less, name).unwrap();
                    let x = choose|x: int| 0 <= x < less.len() && #[trigger] less[x] == f;
                    let fx = if x < i { x } else { x + 1 };
                    assert(less[x] == files[fx]);
                }
            },
        }
    }
}

/// What is found once a block for a new file is put in.
pub proof fn lemma_lookup_insert(
    files: Seq<FileDiffView>,
    pos: int,
    file: FileDiffView,
    name: Seq<char>,
)
    requires
        names_unique(files),
        !has_name(files, file.name()),
        0 <= pos <= files.len(),
    ensures
        names_unique(files.insert(pos, file)),
        lookup(files.insert(pos, file), name) == if name == file.name() {
            Some(file)
        } else {
            lookup(files, name)
        },
{
    let more = files.insert(pos, file);
    assert forall|x: int, y: int| 0 <= x < y < more.len() implies (#[trigger] more[x]).name() != (
    #[trigger] more[y]).name() by {
        let fx = if x < pos { x } else { x - 1 };
        let fy = if y < pos { y } else { y - 1 };
        if x == pos {
            assert(more[y] == files[fy]);
        } else if y == pos {
            assert(more[x] == files[fx]);
        } else {
            assert(more[x] == files[fx] && more[y] == files[fy]);
        }
    }
    assert(more[pos] == file);
    if name == file.name() {
        lemma_lookup_at(more, pos);
    } else {
        lemma_lookup(files, name);
        lemma_lookup(more, name);
        match lookup(files, name) {
            Some(f) => {
                let x = choose|x: int| 0 <= x < files.len() && #[trigger] files[x] == f;
                let mx = if x < pos { x } else { x + 1 };
                assert(more[mx] == files[x]);
                lemma_lookup_at(more, mx);
            },
            None => {
                if lookup(more, name) is Some {
                    let f = lookup(more, name).unwrap();
                    let x = choose|x: int| 0 <= x < more.len() && #[trigger] more[x] == f;
                    let fx = if x < pos { x } else { x - 1 };
                    assert(more[x] == files[fx]);
                }
            },
        }
    }
}

/// Blocks in the order of their names are blocks of different files.
pub proof fn lemma_sorted_unique(files: Seq<FileDiffView>)
    requires
        names_sorted(files),
    ensures
        names_unique(files),
{
    assert forall|i: int, j: int| 0 <= i < j < files.len() implies (#[trigger] files[i]).name() != (
    #[trigger] files[j]).name() by {
        lemma_lex_irreflexive(files[i].name());
    }
}

/// What is found once the last block is dropped.
pub proof fn lemma_dropped(files: Seq<FileDiffView>, name: Seq<char>)
    requires
        names_unique(files),
        files.len() > 0,
    ensures
        lookup(files.drop_last(), name) == if name == files.last().name() {
            None
        } else {
            lookup(files, name)
        },
        has_name(files.drop_last(), name) == (has_name(files, name) && name != files.last().name()),
        names_unique(files.drop_last()),
{
    let front = files.drop_last();
    lemma_lookup(front, name);
    lemma_lookup(files, name);
    assert forall|i: int, j: int| 0 <= i < j < front.len() implies (#[trigger] front[i]).name() != (
    #[trigger] front[j]).name() by {
        assert(front[i] == files[i] && front[j] == files[j]);
    }
    if name == files.last().name() {
        if lookup(front, name) is Some {
            let f = lookup(front, name).unwrap();
            let i = choose|i: int| 0 <= i < front.len() && #[trigger] front[i] == f;
            assert(files[i] == front[i]);
            assert(files[i].name() != files[files.len() - 1].name());
        }
    } else if has_name(files, name) {
        let i = choose|i: int| 0 <= i < files.len() && (#[trigger] files[i]).name() == name;
        assert(front[i] == files[i]);
    }
    if has_name(front, name) {
        let i = choose|i: int| 0 <= i < front.len() && (#[trigger] front[i]).name() == name;
        assert(files[i] == front[i]);
    }
}

/// A valid diff without one of its blocks is valid.
pub proof fn lemma_wf_remove(files: Seq<FileDiffView>, i: int)
    requires
        diff_wf(files),
        0 <= i < files.len(),
    ensures
        diff_wf(files.remove(i)),
{
    let less = files.remove(i);
    lemma_lookup_remove(files, i, files[i].name());
    assert forall|x: int| 0 <= x < less.len() implies (#[trigger] less[x]).wf() by {
        if x < i {
            assert(less[x] == files[x]);
        } else {
            assert(less[x] == files[x + 1]);
        }
    }
}

/// A valid diff with a valid block for a new file is valid.
pub proof fn lemma_wf_insert(files: Seq<FileDiffView>, pos: int, file: FileDiffView)
    requires
        diff_wf(files),
        file.wf(),
        !has_name(files, file.name()),
        0 <= pos <= files.len(),
    ensures
        diff_wf(files.insert(pos, file)),
{
    let more = files.insert(pos, file);
    lemma_lookup_insert(files, pos, file, file.name());
    assert forall|x: int| 0 <= x < more.len() implies (#[trigger] more[x]).wf() by {
        if x < pos {
            assert(more[x] == files[x]);
        } else if x > pos {
            assert(more[x] == files[x - 1]);
        }
    }
}

/// While the blocks of the second diff are gone through, last first: the
/// first diff has lost the blocks that found a partner, and the result
/// holds, for every file of the second diff seen so far, what `joined`
/// says.
pub open spec fn first_pass(
    a0: Seq<FileDiffView>,
    b0: Seq<FileDiffView>,
    a: Seq<FileDiffView>,
    b: Seq<FileDiffView>,
    o: Seq<FileDiffView>,
) -> bool {
    &&& forall|name: Seq<char>|
        #![trigger lookup(a, name)]
        lookup(a, name) == if has_name(b0, name) && !has_name(b, name) {
            None
        } else {
            lookup(a0, name)
        }
    &&& forall|name: Seq<char>|
        #![trigger lookup(o, name)]
        if has_name(b0, name) && !has_name(b, name) {
            joined(lookup(a0, name), lookup(b0, name)) == Some(lookup(o, name))
        } else {
            lookup(o, name) is None
        }
}

/// While the blocks left of the first diff are gone through: the result
/// holds what `joined` says for every file but those still to come.
pub open spec fn second_pass(
    a0: Seq<FileDiffView>,
    b0: Seq<FileDiffView>,
    a: Seq<FileDiffView>,
    o: Seq<FileDiffView>,
) -> bool {
    &&& forall|name: Seq<char>|
        #![trigger lookup(a, name)]
        lookup(a, name) is Some ==> !has_name(b0, name) && lookup(a, name) == lookup(a0, name)
    &&& forall|name: Seq<char>|
        #![trigger lookup(o, name)]
        if lookup(a, name) is Some {
            lookup(o, name) is None
        } else {
            joined(lookup(a0, name), lookup(b0, name)) == Some(lookup(o, name))
        }
}

/// The first pass starts with nothing seen and nothing found.
pub proof fn lemma_first_start(a0: Seq<FileDiffView>, b0: Seq<FileDiffView>)
    ensures
        first_pass(a0, b0, a0, b0, Seq::empty()),
{
}

/// The last block of the second diff is for a file the result does not
/// hold yet, and the first diff still has its block for it, if it ever had.
pub proof fn lemma_first_fresh(
    a0: Seq<FileDiffView>,
    b0: Seq<FileDiffView>,
    a: Seq<FileDiffView>,
    b: Seq<FileDiffView>,
    o: Seq<FileDiffView>,
)
    requires
        diff_wf(b0),
        first_pass(a0, b0, a, b, o),
        0 < b.len() <= b0.len(),
        b == b0.subrange(0, b.len() as int),
    ensures
        !has_name(o, b.last().name()),
        lookup(a, b.last().name()) == lookup(a0, b.last().name()),
        lookup(b0, b.last().name()) == Some(b.last()),
{
    let name = b.last().name();
    let k = b.len() - 1;
    assert(b[k] == b0[k]);
    assert(has_name(b, name));
    lemma_lookup(o, name);
    assert(lookup(o, name) is None);
    lemma_lookup_at(b0, k);
    let probe = lookup(a, name);
}

/// One step of the first pass.
pub proof fn lemma_first_step(
    a0: Seq<FileDiffView>,
    b0: Seq<FileDiffView>,
    a: Seq<FileDiffView>,
    b: Seq<FileDiffView>,
    o: Seq<FileDiffView>,
    found: Option<int>,
    file: FileDiffView,
    pos: int,
)
    requires
        diff_wf(a0),
        diff_wf(b0),
        diff_wf(a),
        diff_wf(o),
        first_pass(a0, b0, a, b, o),
        0 < b.len() <= b0.len(),
        b == b0.subrange(0, b.len() as int),
        0 <= pos <= o.len(),
        file.wf(),
        match found {
            Some(i) => {
                &&& 0 <= i < a.len()
                &&& a[i].name() == b.last().name()
                &&& file_fused(a[i], b.last()) == Some(file)
            },
            None => !has_name(a, b.last().name()) && file == b.last(),
        },
    ensures
        first_pass(
            a0,
            b0,
            if found is Some {
                a.remove(found.unwrap())
            } else {
                a
            },
            b.drop_last(),
            o.insert(pos, file),
        ),
        diff_wf(o.insert(pos, file)),
        diff_wf(
            if found is Some {
                a.remove(found.unwrap())
            } else {
                a
            },
        ),
{
    let y = b.last();
    let k = b.len() - 1;
    let a1 = if found is Some {
        a.remove(found.unwrap())
    } else {
        a
    };
    let b1 = b.drop_last();
    let o1 = o.insert(pos, file);
    lemma_first_fresh(a0, b0, a, b, o);
    assert(file.name() == y.name());
    lemma_wf_insert(o, pos, file);
    if found is Some {
        lemma_wf_remove(a, found.unwrap());
        lemma_lookup_at(a, found.unwrap());
    } else {
        lemma_lookup(a, y.name());
    }
    assert(names_unique(b)) by {
        assert forall|i: int, j: int| 0 <= i < j < b.len() implies (#[trigger] b[i]).name() != (
        #[trigger] b[j]).name() by {
            assert(b[i] == b0[i] && b[j] == b0[j]);
        }
    }
    assert(has_name(b0, y.name())) by {
        assert(b0[k] == y);
    }
    assert forall|name: Seq<char>|
        #![trigger lookup(a1, name)]
        lookup(a1, name) == if has_name(b0, name) && !has_name(b1, name) {
            None
        } else {
            lookup(a0, name)
        } by {
        lemma_dropped(b, name);
        let probe = lookup(a, name);
        if found is Some {
            lemma_lookup_remove(a, found.unwrap(), name);
        }
    }
    assert forall|name: Seq<char>|
        #![trigger lookup(o1, name)]
        if has_name(b0, name) && !has_name(b1, name) {
            joined(lookup(a0, name), lookup(b0, name)) == Some(lookup(o1, name))
        } else {
            lookup(o1, name) is None
        } by {
        lemma_dropped(b, name);
        let probe = lookup(o, name);
        lemma_lookup_insert(o, pos, file, name);
    }
}

/// A fusion that fails in the first pass makes the fusion of the diffs fail.
pub proof fn lemma_first_fails(
    a0: Seq<FileDiffView>,
    b0: Seq<FileDiffView>,
    a: Seq<FileDiffView>,
    b: Seq<FileDiffView>,
    o: Seq<FileDiffView>,
    i: int,
)
    requires
        diff_wf(b0),
        diff_wf(a),
        first_pass(a0, b0, a, b, o),
        0 < b.len() <= b0.len(),
        b == b0.subrange(0, b.len() as int),
        0 <= i < a.len(),
        a[i].name() == b.last().name(),
        file_fused(a[i], b.last()) is None,
    ensures
        !fusable(a0, b0),
{
    lemma_first_fresh(a0, b0, a, b, o);
    lemma_lookup_at(a, i);
    let name = b.last().name();
    assert(joined(lookup(a0, name), lookup(b0, name)) is None);
}

/// Where the first pass ends the second begins.
pub proof fn lemma_second_start(
    a0: Seq<FileDiffView>,
    b0: Seq<FileDiffView>,
    a: Seq<FileDiffView>,
    o: Seq<FileDiffView>,
)
    requires
        first_pass(a0, b0, a, Seq::empty(), o),
    ensures
        second_pass(a0, b0, a, o),
{
    let none = Seq::<FileDiffView>::empty();
    assert forall|name: Seq<char>|
        #![trigger lookup(a, name)]
        lookup(a, name) is Some ==> !has_name(b0, name) && lookup(a, name) == lookup(a0, name) by {
        assert(!has_name(none, name));
    }
    assert forall|name: Seq<char>|
        #![trigger lookup(o, name)]
        if lookup(a, name) is Some {
            lookup(o, name) is None
        } else {
            joined(lookup(a0, name), lookup(b0, name)) == Some(lookup(o, name))
        } by {
        assert(!has_name(none, name));
        let probe = lookup(a, name);
        lemma_lookup(b0, name);
    }
}

/// The last block left of the first diff is for a file the result does
/// not hold yet.
pub proof fn lemma_second_fresh(
    a0: Seq<FileDiffView>,
    b0: Seq<FileDiffView>,
    a: Seq<FileDiffView>,
    o: Seq<FileDiffView>,
)
    requires
        diff_wf(a),
        second_pass(a0, b0, a, o),
        a.len() > 0,
    ensures
        !has_name(o, a.last().name()),
{
    let name = a.last().name();
    lemma_lookup_at(a, a.len() - 1);
    lemma_lookup(o, name);
}

/// One step of the second pass.
pub proof fn lemma_second_step(
    a0: Seq<FileDiffView>,
    b0: Seq<FileDiffView>,
    a: Seq<FileDiffView>,
    o: Seq<FileDiffView>,
    pos: int,
)
    requires
        diff_wf(a),
        diff_wf(o),
        second_pass(a0, b0, a, o),
        a.len() > 0,
        0 <= pos <= o.len(),
    ensures
        second_pass(a0, b0, a.drop_last(), o.insert(pos, a.last())),
        diff_wf(a.drop_last()),
        diff_wf(o.insert(pos, a.last())),
{
    let x = a.last();
    let a1 = a.drop_last();
    let o1 = o.insert(pos, x);
    lemma_second_fresh(a0, b0, a, o);
    lemma_lookup_at(a, a.len() - 1);
    assert(x.wf());
    lemma_wf_insert(o, pos, x);
    lemma_dropped(a, x.name());
    assert forall|i: int| 0 <= i < a1.len() implies (#[trigger] a1[i]).wf() by {
        assert(a1[i] == a[i]);
    }
    lemma_lookup(b0, x.name());
    assert forall|name: Seq<char>|
        #![trigger lookup(a1, name)]
        lookup(a1, name) is Some ==> !has_name(b0, name)
            && lookup(a1, name) == lookup(a0, name) by {
        lemma_dropped(a, name);
        let probe = lookup(a, name);
    }
    assert forall|name: Seq<char>|
        #![trigger lookup(o1, name)]
        if lookup(a1, name) is Some {
            lookup(o1, name) is None
        } else {
            joined(lookup(a0, name), lookup(b0, name)) == Some(lookup(o1, name))
        } by {
        lemma_dropped(a, name);
        let probe = lookup(a, name);
        let other = lookup(o, name);
        lemma_lookup_insert(o, pos, x, name);
    }
}

/// Where the second pass ends the result is the fusion.
pub proof fn lemma_second_end(
    a0: Seq<FileDiffView>,
    b0: Seq<FileDiffView>,
    a: Seq<FileDiffView>,
    o: Seq<FileDiffView>,
)
    requires
        second_pass(a0, b0, a, o),
        a.len() == 0,
        names_sorted(o),
    ensures
        is_fusion(a0, b0, o),
        fusable(a0, b0),
{
    assert forall|name: Seq<char>|
        joined(lookup(a0, name), lookup(b0, name)) == Some(#[trigger] lookup(o, name)) by {
        let probe = lookup(a, name);
    }
    assert forall|name: Seq<char>| (#[trigger] joined(lookup(a0, name), lookup(b0,
        name))) is Some by {
        let probe = lookup(o, name);
    }
}

/// A cursor over the lines of a `Diff`.
pub struct LineIter<'a> {
    inner: crate::file_diff::LineIter<'a>,
}

impl<'a> LineIter<'a> {
    /// The lines still to come, in order.
    pub closed spec fn rest(&self) -> Seq<Seq<char>> {
        self.inner.rest()
    }

    /// The next line.
    pub fn next(&mut self) -> (r: Option<&'a String>)
        ensures
            match r {
                Some(l) => old(self).rest().len() > 0 && l@ == old(self).rest()[0]
                    && final(self).rest() == old(self).rest().drop_first(),
                None => old(self).rest().len() == 0 && final(self).rest() == old(self).rest(),
            },
    {
        self.inner.next()
    }
}

impl Diff {
    /// Every block is valid and no file has two.
    pub closed spec fn wf(&self) -> bool {
        diff_wf(self@) && files_wf(self._files@)
    }

    /// A valid diff is valid as a mathematical value.
    pub proof fn lemma_wf(&self)
        requires
            self.wf(),
        ensures
            diff_wf(self@),
    {
    }

    /// Whether some block is for the file `name`.
    fn contains(files: &Vec<FileDiff>, name: &str) -> (r: bool)
        ensures
            r == has_name(file_views(files@), name@),
    {
        let mut i: usize = 0;
        while i < files.len()
            invariant
                i <= files.len(),
                forall|j: int| 0 <= j < i ==> (#[trigger] file_views(files@)[j]).name() != name@,
            decreases files.len() - i,
        {
            if crate::text::same_text(files[i].header().file_name(), name) {
                assert(file_views(files@)[i as int].name() == name@);
                return true;
            }
            i = i + 1;
        }
        false
    }

    /// Reads a diff: one block after the other, to the last line.
    pub fn from_lines(lines: &mut Lines) -> (r: Result<Diff, ParseErr>)
        ensures
            match diff_of(old(lines).rest()) {
                Some(files) => r is Ok && r->Ok_0@ == files && r->Ok_0.wf() && diff_disjoint(files),
                None => r is Err,
            },
    {
        let ghost all = lines.rest();
        let mut _files: Vec<FileDiff> = Vec::new();
        proof {
            assert(file_views(_files@) =~= Seq::<FileDiffView>::empty());
            let goal = diff_of(all);
            if goal is Some {
                assert(Seq::<FileDiffView>::empty() + goal.unwrap() =~= goal.unwrap());
            }
        }
        loop
            invariant_except_break
                diff_of(all) == files_then(file_views(_files@), diff_of(lines.rest())),
            invariant
                all == old(lines).rest(),
                diff_wf(file_views(_files@)),
                files_wf(_files@),
                diff_disjoint(file_views(_files@)),
            ensures
                diff_of(all) == Some(file_views(_files@)),
            decreases lines.rest().len(),
        {
            let ghost done = file_views(_files@);
            let ghost rest = lines.rest();
            if lines.is_empty() {
                assert(done + Seq::<FileDiffView>::empty() =~= done);
                break ;
            }
            let file = match FileDiff::from_lines(lines) {
                Ok(file) => file,
                Err(e) => {
                    return Err(e);
                },
            };
            let ghost more = diff_of(lines.rest());
            if Self::contains(&_files, file.header().file_name()) {
                proof {
                    if more is Some && !has_name(more.unwrap(), file@.name()) {
                        let i = choose|i: int| 0 <= i < done.len()
                            && (#[trigger] done[i]).name() == file@.name();
                        let found = seq![file@] + more.unwrap();
                        assert(done[i].name() == found[0].name());
                    }
                }
                return Err(
                    parse_err(
                        "Diff: Invalid diff - multiple blocks for file ",
                        file.header().file_name(),
                        "",
                    ),
                );
            }
            let ghost view = file@;
            _files.push(file);
            proof {
                let now = file_views(_files@);
                assert(now =~= done.push(view));
                if more is Some {
                    let tail = more.unwrap();
                    let found = seq![view] + tail;
                    if has_name(tail, view.name()) {
                        let j = choose|j: int| 0 <= j < tail.len()
                            && (#[trigger] tail[j]).name() == view.name();
                        assert(now[done.len() as int].name() == tail[j].name());
                    } else {
                        assert(now + tail =~= done + found);
                        if share_a_name(done, found) {
                            let (i, j) = choose|i: int, j: int|
                                0 <= i < done.len() && 0 <= j < found.len()
                                    && (#[trigger] done[i]).name() == (#[trigger] found[j]).name();
                            assert(j > 0);
                            assert(found[j] == tail[j - 1]);
                            assert(now[i] == done[i]);
                            assert(now[i].name() == tail[j - 1].name());
                        }
                        if share_a_name(now, tail) {
                            let (i, j) = choose|i: int, j: int|
                                0 <= i < now.len() && 0 <= j < tail.len()
                                    && (#[trigger] now[i]).name() == (#[trigger] tail[j]).name();
                            if i < done.len() {
                                assert(done[i] == now[i]);
                                assert(found[j + 1] == tail[j]);
                                assert(done[i].name() == found[j + 1].name());
                            } else {
                                assert(tail[j].name() == view.name());
                            }
                        }
                    }
                }
            }
        }
        Ok(Diff { _files })
    }

    /// Where the block for the file `name` stands.
    fn position(files: &Vec<FileDiff>, name: &str) -> (r: Option<usize>)
        ensures
            match r {
                Some(i) => i < files.len() && file_views(files@)[i as int].name() == name@,
                None => !has_name(file_views(files@), name@),
            },
    {
        let mut i: usize = 0;
        while i < files.len()
            invariant
                i <= files.len(),
                forall|j: int| 0 <= j < i ==> (#[trigger] file_views(files@)[j]).name() != name@,
            decreases files.len() - i,
        {
            if crate::text::same_text(files[i].header().file_name(), name) {
                return Some(i);
            }
            i = i + 1;
        }
        None
    }

    /// Puts a block for a new file where its name belongs.
    fn insert_sorted(out: &mut Vec<FileDiff>, file: FileDiff) -> (pos: usize)
        requires
            names_sorted(file_views(old(out)@)),
            !has_name(file_views(old(out)@), file@.name()),
            files_wf(old(out)@),
            file.wf(),
        ensures
            pos <= old(out).len(),
            file_views(final(out)@) == file_views(old(out)@).insert(pos as int, file@),
            names_sorted(file_views(final(out)@)),
            files_wf(final(out)@),
    {
        let ghost before = file_views(out@);
        let ghost held = out@;
        let mut pos: usize = 0;
        while pos < out.len() && !comes_before(
            file.header().file_name(),
            out[pos].header().file_name(),
        )
            invariant
                pos <= out.len(),
                before == file_views(out@),
                held == out@,
                !has_name(before, file@.name()),
                forall|j: int| 0 <= j < pos ==> lex_lt((#[trigger] before[j]).name(), file@.name()),
            decreases out.len() - pos,
        {
            proof {
                lemma_lex_total(file@.name(), before[pos as int].name());
            }
            pos = pos + 1;
        }
        let ghost view = file@;
        out.insert(pos, file);
        proof {
            let now = file_views(out@);
            assert(now =~= before.insert(pos as int, view));
            assert forall|i: int| 0 <= i < out.len() implies (#[trigger] out[i]).wf() by {
                if i < pos {
                    assert(out[i] == held[i]);
                } else if i > pos {
                    assert(out[i] == held[i - 1]);
                }
            }
            assert forall|i: int, j: int| 0 <= i < j < now.len() implies lex_lt(
                (#[trigger] now[i]).name(),
                (#[trigger] now[j]).name(),
            ) by {
                let bi = if i < pos { i } else { i - 1 };
                let bj = if j < pos { j } else { j - 1 };
                if j == pos {
                    assert(now[i] == before[bi]);
                } else if i == pos {
                    assert(now[j] == before[bj]);
                    if bj > pos {
                        assert(lex_lt(before[pos as int].name(), before[bj].name()));
                        lemma_lex_transitive(view.name(), before[pos as int].name(),
                            before[bj].name());
                    }
                } else {
                    assert(now[i] == before[bi] && now[j] == before[bj]);
                }
            }
        }
        pos
    }

    /// Fuses `self`, the first diff, with `other`, the second. A file that
    /// both change gets the fusion of the two blocks, any other file the
    /// block it has. The blocks of the result come in the order of their
    /// file names. Fails where the blocks of a file cannot be fused.
    pub fn merge(self, other: Diff) -> (r: Result<Diff, MergeErr>)
        requires
            self.wf(),
            other.wf(),
        ensures
            r is Ok <==> fusable(self@, other@),
            r is Ok ==> is_fusion(self@, other@, r->Ok_0@) && r->Ok_0.wf(),
    {
        let ghost a0 = self@;
        let ghost b0 = other@;
        let mut mine = self._files;
        let mut theirs = other._files;
        let mut out: Vec<FileDiff> = Vec::new();
        proof {
            assert(file_views(theirs@).subrange(0, theirs.len() as int) =~= file_views(theirs@));
            lemma_first_start(a0, b0);
        }
        while theirs.len() > 0
            invariant
                a0 == self@,
                b0 == other@,
                diff_wf(a0),
                diff_wf(b0),
                theirs.len() <= b0.len(),
                file_views(theirs@) == b0.subrange(0, theirs.len() as int),
                diff_wf(file_views(mine@)),
                diff_wf(file_views(out@)),
                files_wf(mine@),
                files_wf(theirs@),
                files_wf(out@),
                names_sorted(file_views(out@)),
                first_pass(a0, b0, file_views(mine@), file_views(theirs@), file_views(out@)),
            decreases theirs.len(),
        {
            let ghost a = file_views(mine@);
            let ghost b = file_views(theirs@);
            let ghost o = file_views(out@);
            let ghost k = theirs.len() - 1;
            let y = match theirs.pop() {
                Some(y) => y,
                None => {
                    return Err(crate::error::merge_err("Diff: no block", "", ""));
                },
            };
            let ghost yv = y@;
            proof {
                assert(b[k] == yv);
                assert(b[k] == b0[k]);
                assert(file_views(theirs@) =~= b.drop_last());
                assert(b.drop_last() =~= b0.subrange(0, k));
                assert(b0[k].wf());
                lemma_first_fresh(a0, b0, a, b, o);
            }
            let found = Self::position(&mine, y.header().file_name());
            let ghost held = mine@;
            match found {
                Some(i) => {
                    let x = mine.remove(i);
                    proof {
                        assert forall|j: int| 0 <= j < mine.len() implies (#[trigger] mine[j]).wf()
                            by {
                            if j < i {
                                assert(mine[j] == held[j]);
                            } else {
                                assert(mine[j] == held[j + 1]);
                            }
                        }
                        assert(file_views(mine@) =~= a.remove(i as int));
                        assert(x@ == a[i as int]);
                        assert(a[i as int].wf());
                        lemma_lookup_at(a, i as int);
                        lemma_lookup_remove(a, i as int, yv.name());
                        lemma_wf_remove(a, i as int);
                    }
                    match x.fuse(y) {
                        Ok(f) => {
                            let ghost fv = f@;
                            let pos = Self::insert_sorted(&mut out, f);
                            proof {
                                lemma_first_step(a0, b0, a, b, o, Some(i as int), fv, pos as int);
                            }
                        },
                        Err(e) => {
                            proof {
                                lemma_first_fails(a0, b0, a, b, o, i as int);
                            }
                            return Err(e);
                        },
                    }
                },
                None => {
                    let pos = Self::insert_sorted(&mut out, y);
                    proof {
                        lemma_first_step(a0, b0, a, b, o, None, yv, pos as int);
                    }
                },
            }
        }
        proof {
            assert(file_views(theirs@) =~= Seq::<FileDiffView>::empty());
            lemma_second_start(a0, b0, file_views(mine@), file_views(out@));
        }
        while mine.len() > 0
            invariant
                a0 == self@,
                b0 == other@,
                diff_wf(a0),
                diff_wf(b0),
                diff_wf(file_views(mine@)),
                diff_wf(file_views(out@)),
                files_wf(mine@),
                files_wf(out@),
                names_sorted(file_views(out@)),
                second_pass(a0, b0, file_views(mine@), file_views(out@)),
            decreases mine.len(),
        {
            let ghost a = file_views(mine@);
            let ghost o = file_views(out@);
            let ghost k = mine.len() - 1;
            let x = match mine.pop() {
                Some(x) => x,
                None => {
                    return Err(crate::error::merge_err("Diff: no block", "", ""));
                },
            };
            let ghost xv = x@;
            proof {
                assert(file_views(mine@) =~= a.drop_last());
                assert(xv == a[k]);
                lemma_second_fresh(a0, b0, a, o);
            }
            let pos = Self::insert_sorted(&mut out, x);
            proof {
                lemma_second_step(a0, b0, a, o, pos as int);
            }
        }
        proof {
            assert(file_views(mine@) =~= Seq::<FileDiffView>::empty());
            lemma_second_end(a0, b0, file_views(mine@), file_views(out@));
        }
        Ok(Diff { _files: out })
    }

    /// Reads a diff from a text. Line ends may be line feeds or carriage
    /// returns with line feeds, but not both.
    pub fn parse(text: &str) -> (r: Result<Diff, ParseErr>)
        ensures
            match diff_of_text(text@) {
                Some(files) => r is Ok && r->Ok_0@ == files && r->Ok_0.wf() && diff_disjoint(files),
                None => r is Err,
            },
    {
        let mut lines = match Lines::from_text(text) {
            Ok(lines) => lines,
            Err(e) => {
                return Err(e);
            },
        };
        Diff::from_lines(&mut lines)
    }

    /// The blocks, in order.
    pub fn files(&self) -> (f: &Vec<FileDiff>)
        ensures
            file_views(f@) == self@,
    {
        &self._files
    }

    /// A cursor over all lines of the diff.
    pub fn line_iter(&self) -> (it: LineIter<'_>)
        ensures
            it.rest() == diff_lines(self@),
    {
        let mut lines: Vec<&String> = Vec::new();
        let mut i: usize = 0;
        assert(self@.subrange(0, 0) =~= Seq::<FileDiffView>::empty());
        assert(ref_views(lines@) =~= Seq::<Seq<char>>::empty());
        while i < self._files.len()
            invariant
                i <= self._files.len(),
                ref_views(lines@) == diff_lines(self@.subrange(0, i as int)),
            decreases self._files.len() - i,
        {
            self._files[i].push_lines(&mut lines);
            assert(self@.subrange(0, i + 1).drop_last() =~= self@.subrange(0, i as int));
            i = i + 1;
        }
        assert(self@.subrange(0, self._files.len() as int) =~= self@);
        LineIter { inner: crate::file_diff::LineIter::over(lines) }
    }

    /// The diff as text, a line feed after each line.
    pub fn to_string(&self) -> (s: String)
        ensures
            s@ == join(diff_lines(self@)),
    {
        let mut it = self.line_iter();
        write_lines(&mut it.inner)
    }
}

/// Two diffs whose blocks come in the order of their file names and that
/// hold the same block for every file are the same diff.
pub proof fn lemma_same_blocks(x: Seq<FileDiffView>, y: Seq<FileDiffView>)
    requires
        names_sorted(x),
        names_sorted(y),
        forall|name: Seq<char>| lookup(x, name) == lookup(y, name),
    ensures
        x == y,
    decreases x.len(),
{
    lemma_sorted_unique(x);
    lemma_sorted_unique(y);
    if x.len() == 0 {
        if y.len() > 0 {
            lemma_lookup_at(y, 0);
            assert(lookup(x, y[0].name()) is None);
        }
        assert(x =~= y);
    } else if y.len() == 0 {
        lemma_lookup_at(x, 0);
        assert(lookup(y, x[0].name()) is None);
    } else {
        let xl = x.last();
        let yl = y.last();
        lemma_lookup_at(x, x.len() - 1);
        lemma_lookup_at(y, y.len() - 1);
        lemma_lookup(y, xl.name());
        lemma_lookup(x, yl.name());
        let j = choose|j: int| 0 <= j < y.len() && #[trigger] y[j] == xl;
        let i = choose|i: int| 0 <= i < x.len() && #[trigger] x[i] == yl;
        lemma_lex_irreflexive(xl.name());
        if j < y.len() - 1 {
            assert(lex_lt(y[j].name(), y[y.len() - 1].name()));
            if i < x.len() - 1 {
                assert(lex_lt(x[i].name(), x[x.len() - 1].name()));
                lemma_lex_transitive(xl.name(), yl.name(), xl.name());
            }
        }
        assert(xl == yl);
        let xs = x.drop_last();
        let ys = y.drop_last();
        assert forall|a: int, b: int| 0 <= a < b < xs.len() implies lex_lt(
            (#[trigger] xs[a]).name(),
            (#[trigger] xs[b]).name(),
        ) by {
            assert(xs[a] == x[a] && xs[b] == x[b]);
        }
        assert forall|a: int, b: int| 0 <= a < b < ys.len() implies lex_lt(
            (#[trigger] ys[a]).name(),
            (#[trigger] ys[b]).name(),
        ) by {
            assert(ys[a] == y[a] && ys[b] == y[b]);
        }
        assert forall|name: Seq<char>| lookup(xs, name) == lookup(ys, name) by {
            lemma_dropped(x, name);
            lemma_dropped(y, name);
        }
        lemma_same_blocks(xs, ys);
        assert(x =~= xs.push(xl));
        assert(y =~= ys.push(yl));
    }
}

/// Fusion identity: fusing a diff with the empty diff, on either side,
/// gives the diff back, provided its blocks come in the order of their
/// file names.
pub proof fn lemma_fusion_identity(a: Seq<FileDiffView>, r: Seq<FileDiffView>)
    requires
        names_sorted(a),
        is_fusion(a, Seq::empty(), r) || is_fusion(Seq::empty(), a, r),
    ensures
        r == a,
{
    let none = Seq::<FileDiffView>::empty();
    assert forall|name: Seq<char>| lookup(r, name) == lookup(a, name) by {
        assert(lookup(none, name) is None);
        let probe = lookup(r, name);
        if is_fusion(a, none, r) {
            assert(joined(lookup(a, name), lookup(none, name)) == Some(lookup(r, name)));
        } else {
            assert(joined(lookup(none, name), lookup(a, name)) == Some(lookup(r, name)));
        }
    }
    lemma_same_blocks(r, a);
}

/// The empty diff can be fused with any diff.
pub proof fn lemma_fusable_with_nothing(a: Seq<FileDiffView>)
    ensures
        fusable(a, Seq::empty()),
        fusable(Seq::empty(), a),
{
    let none = Seq::<FileDiffView>::empty();
    assert forall|name: Seq<char>| (#[trigger] joined(lookup(a, name), lookup(none,
        name))) is Some by {
        assert(lookup(none, name) is None);
    }
    assert forall|name: Seq<char>| (#[trigger] joined(lookup(none, name), lookup(a,
        name))) is Some by {
        assert(lookup(none, name) is None);
    }
}

/// Whether no file has a block in both diffs.
pub open spec fn apart(a: Seq<FileDiffView>, b: Seq<FileDiffView>) -> bool {
    forall|name: Seq<char>| !(has_name(a, name) && has_name(b, name))
}

/// Fusion is associative over diffs that change different files: whether
/// the first two or the last two of three such diffs are fused first, the
/// result is the same.
pub proof fn lemma_fusion_associative_apart(
    a: Seq<FileDiffView>,
    b: Seq<FileDiffView>,
    c: Seq<FileDiffView>,
    ab: Seq<FileDiffView>,
    bc: Seq<FileDiffView>,
    left: Seq<FileDiffView>,
    right: Seq<FileDiffView>,
)
    requires
        apart(a, b),
        apart(a, c),
        apart(b, c),
        is_fusion(a, b, ab),
        is_fusion(ab, c, left),
        is_fusion(b, c, bc),
        is_fusion(a, bc, right),
    ensures
        left == right,
{
    assert forall|name: Seq<char>| lookup(left, name) == lookup(right, name) by {
        lemma_lookup(a, name);
        lemma_lookup(b, name);
        lemma_lookup(c, name);
        assert(!(has_name(a, name) && has_name(b, name)));
        assert(!(has_name(a, name) && has_name(c, name)));
        assert(!(has_name(b, name) && has_name(c, name)));
        assert(joined(lookup(a, name), lookup(b, name)) == Some(lookup(ab, name)));
        assert(joined(lookup(ab, name), lookup(c, name)) == Some(lookup(left, name)));
        assert(joined(lookup(b, name), lookup(c, name)) == Some(lookup(bc, name)));
        assert(joined(lookup(a, name), lookup(bc, name)) == Some(lookup(right, name)));
    }
    lemma_same_blocks(left, right);
}

/// The lines of a diff are the lines of its first block and then the
/// lines of the others.
pub proof fn lemma_diff_lines_front(files: Seq<FileDiffView>)
    requires
        files.len() > 0,
    ensures
        diff_lines(files) == files[0].lines() + diff_lines(files.drop_first()),
    decreases files.len(),
{
    if files.len() == 1 {
        assert(files.drop_last() =~= Seq::<FileDiffView>::empty());
        assert(files.drop_first() =~= Seq::<FileDiffView>::empty());
        assert(diff_lines(files) =~= files[0].lines() + diff_lines(files.drop_first()));
    } else {
        lemma_diff_lines_front(files.drop_last());
        assert(files.drop_last().drop_first() =~= files.drop_first().drop_last());
        assert(files.drop_last()[0] == files[0]);
        assert(files.drop_first().last() == files.last());
        assert(diff_lines(files) =~= files[0].lines() + diff_lines(files.drop_first()));
    }
}

/// Round trip, line by line: reading the lines of a diff gives the diff
/// back, provided its blocks are valid, no file has two, and no two
/// hunks of a block overlap.
pub proof fn lemma_lines_round_trip(files: Seq<FileDiffView>)
    requires
        diff_wf(files),
        diff_disjoint(files),
    ensures
        diff_of(diff_lines(files)) == Some(files),
    decreases files.len(),
{
    if files.len() == 0 {
        assert(files =~= Seq::<FileDiffView>::empty());
    } else {
        let f = files[0];
        let rest = files.drop_first();
        let more = diff_lines(rest);
        lemma_diff_lines_front(files);
        assert(f.wf() && f.disjoint());
        assert forall|i: int| 0 <= i < rest.len() implies (#[trigger] rest[i]).wf()
            && rest[i].disjoint() by {
            assert(rest[i] == files[i + 1]);
        }
        assert(names_unique(rest)) by {
            assert forall|i: int,
                j: int| 0 <= i < j < rest.len() implies (#[trigger] rest[i]).name() != (
            #[trigger] rest[j]).name() by {
                assert(rest[i] == files[i + 1] && rest[j] == files[j + 1]);
            }
        }
        if rest.len() > 0 {
            lemma_diff_lines_front(rest);
            assert(rest[0].wf());
            let first = rest[0].header.lines[0];
            assert(more[0] == first);
            assert(crate::header::index_prefix().is_prefix_of(first));
            assert(first[0] == crate::header::index_prefix()[0]);
            assert(first[1] == crate::header::index_prefix()[1]);
            assert(!crate::tags::is_space(first[0]));
            assert(first.subrange(0, 2)[0] == 'I');
        } else {
            assert(more =~= Seq::<Seq<char>>::empty());
        }
        crate::file_diff::lemma_file_round_trip(f, more);
        let lines = diff_lines(files);
        assert(f.lines().len() >= 4);
        assert(lines.subrange(f.lines().len() as int, lines.len() as int) =~= more);
        lemma_lines_round_trip(rest);
        if has_name(rest, f.name()) {
            let j = choose|j: int| 0 <= j < rest.len() && (#[trigger] rest[j]).name() == f.name();
            assert(rest[j] == files[j + 1]);
            assert(files[0].name() != files[j + 1].name());
        }
        assert(seq![f] + rest =~= files);
    }
}

/// Round trip: a diff written as text and parsed is the diff again,
/// provided its blocks are valid, no file has two, no two hunks of a
/// block overlap, and every line can be written.
pub proof fn lemma_parse_round_trip(files: Seq<FileDiffView>)
    requires
        diff_wf(files),
        diff_disjoint(files),
        crate::lines::all_printable(diff_lines(files)),
    ensures
        diff_of_text(join(diff_lines(files))) == Some(files),
{
    crate::lines::lemma_split_join(diff_lines(files));
    lemma_lines_round_trip(files);
}

} // verus!
