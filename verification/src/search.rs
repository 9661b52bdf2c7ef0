//! Finding the files that path patterns name: a pattern is split at `/`
//! into parts, each matched against the items of one directory level, with
//! `**` standing for any number of levels.
use vstd::prelude::*;

use crate::glob::{glob, glob_match};
use crate::os::fs::{common_len, join_with, split_on, split_push, Item, Path};
use crate::text::str_to_chars;

verus! {

/// What a walk through the directories does next, at one directory.
pub enum SearchStep {
    /// Walk on in the item `Some(name)` of the directory (or in the
    /// directory itself for `None`), from the part of this index on.
    Descend(Option<String>, usize),
    /// The item `Some(name)` of the directory (or the directory itself for
    /// `None`) is a file that the pattern names.
    Found(Option<String>),
}

/// A step, by its names' characters.
pub enum StepView {
    Descend(Option<Seq<char>>, int),
    Found(Option<Seq<char>>),
}

/// The view of a step.
pub open spec fn step_view(s: SearchStep) -> StepView {
    match s {
        SearchStep::Descend(n, k) => StepView::Descend(
            match n {
                Some(x) => Some(x@),
                None => None,
            },
            k as int,
        ),
        SearchStep::Found(n) => StepView::Found(
            match n {
                Some(x) => Some(x@),
                None => None,
            },
        ),
    }
}

/// An item's name and whether it is a directory.
pub open spec fn item_view(i: Item) -> (Seq<char>, bool) {
    match i {
        Item::Directory(n) => (n@, true),
        Item::File(n) => (n@, false),
    }
}

/// The part that stands for any number of directory levels.
pub open spec fn is_any_levels(p: Seq<char>) -> bool {
    p == seq!['*', '*']
}

/// The steps for the directories among `items`, from the part `k` on.
pub open spec fn dir_steps(items: Seq<(Seq<char>, bool)>, k: int) -> Seq<StepView>
    decreases items.len(),
{
    if items.len() == 0 {
        Seq::empty()
    } else {
        let rest = dir_steps(items.drop_last(), k);
        if items.last().1 {
            rest.push(StepView::Descend(Some(items.last().0), k))
        } else {
            rest
        }
    }
}

/// The steps for the items whose names match the part `part`: the files
/// that are found if it is the last part, else the directories to walk on
/// in from the next part.
pub open spec fn match_steps(items: Seq<(Seq<char>, bool)>, part: Seq<char>, last: bool, k: int) -> Seq<
    StepView,
>
    decreases items.len(),
{
    if items.len() == 0 {
        Seq::empty()
    } else {
        let rest = match_steps(items.drop_last(), part, last, k);
        let (name, is_dir) = items.last();
        if !glob_match(name, part) {
            rest
        } else if last {
            if !is_dir {
                rest.push(StepView::Found(Some(name)))
            } else {
                rest
            }
        } else if is_dir {
            rest.push(StepView::Descend(Some(name), k + 1))
        } else {
            rest
        }
    }
}

/// What the walk does at a directory (or file) reached with the parts of
/// the pattern from `k` on, given whether it is a file and its items.
pub open spec fn search_steps(
    parts: Seq<Seq<char>>,
    k: int,
    is_file: bool,
    items: Seq<(Seq<char>, bool)>,
) -> Seq<StepView> {
    if k >= parts.len() {
        if is_file {
            seq![StepView::Found(None)]
        } else {
            Seq::empty()
        }
    } else if is_any_levels(parts[k]) {
        seq![StepView::Descend(None, k + 1)] + dir_steps(items, k)
    } else {
        match_steps(items, parts[k], k + 1 == parts.len(), k)
    }
}

/// The characters of a list of strings.
pub open spec fn strings_view(v: Seq<String>) -> Seq<Seq<char>> {
    v.map_values(|s: String| s@)
}

fn is_any_levels_exec(p: &String) -> (r: bool)
    ensures
        r == is_any_levels(p@),
{
    let cs = str_to_chars(p.as_str());
    if cs.len() == 2 && cs[0] == '*' && cs[1] == '*' {
        assert(cs@ =~= seq!['*', '*']);
        true
    } else {
        false
    }
}

/// What the walk does at a directory (or file) reached with the parts of
/// the pattern from `k` on: for `**`, walk on in the directory itself from
/// the next part, then in each subdirectory from `**` again; for another
/// part, for each item whose name matches it, take the file if it is the
/// last part, else walk on in the subdirectory; with no part left, take
/// the directory itself if it is a file.
pub fn search_step(parts: &[String], k: usize, is_file: bool, items: &[Item]) -> (r: Vec<SearchStep>)
    requires
        k <= parts@.len(),
    ensures
        r@.map_values(|s: SearchStep| step_view(s)) == search_steps(
            strings_view(parts@),
            k as int,
            is_file,
            items@.map_values(|i: Item| item_view(i)),
        ),
{
    let ghost pv = strings_view(parts@);
    let ghost iv = items@.map_values(|i: Item| item_view(i));
    let mut r: Vec<SearchStep> = Vec::new();
    if k == parts.len() {
        if is_file {
            r.push(SearchStep::Found(None));
            proof {
                assert(r@.map_values(|s: SearchStep| step_view(s)) =~= seq![StepView::Found(None)]);
            }
        } else {
            proof {
                assert(r@.map_values(|s: SearchStep| step_view(s)) =~= Seq::<StepView>::empty());
            }
        }
        return r;
    }
    let n = items.len();
    let mut j: usize = 0;
    assert(pv[k as int] == parts@[k as int]@);
    if is_any_levels_exec(&parts[k]) {
        r.push(SearchStep::Descend(None, k + 1));
        proof {
            assert(iv.take(0) =~= Seq::<(Seq<char>, bool)>::empty());
            assert(r@.map_values(|s: SearchStep| step_view(s)) =~= seq![
                StepView::Descend(None, k + 1),
            ] + dir_steps(iv.take(0), k as int));
        }
        while j < n
            invariant
                j <= n,
                n == items@.len(),
                k < parts@.len(),
                iv == items@.map_values(|i: Item| item_view(i)),
                r@.map_values(|s: SearchStep| step_view(s)) == seq![StepView::Descend(None, k + 1)]
                    + dir_steps(iv.take(j as int), k as int),
            decreases n - j,
        {
            let ghost r0 = r@.map_values(|s: SearchStep| step_view(s));
            proof {
                assert(iv.take(j + 1).drop_last() =~= iv.take(j as int));
                assert(iv.take(j + 1).last() == item_view(items@[j as int]));
            }
            match &items[j] {
                Item::Directory(name) => {
                    r.push(SearchStep::Descend(Some(name.clone()), k));
                    proof {
                        assert(r@.map_values(|s: SearchStep| step_view(s)) =~= r0.push(
                            StepView::Descend(Some(name@), k as int),
                        ));
                    }
                },
                Item::File(_) => {},
            }
            j += 1;
        }
        proof {
            assert(iv.take(n as int) =~= iv);
        }
    } else {
        let last = k + 1 == parts.len();
        proof {
            assert(iv.take(0) =~= Seq::<(Seq<char>, bool)>::empty());
            assert(r@.map_values(|s: SearchStep| step_view(s)) =~= Seq::<StepView>::empty());
        }
        while j < n
            invariant
                j <= n,
                n == items@.len(),
                k < parts@.len(),
                pv == strings_view(parts@),
                last == (k + 1 == parts@.len()),
                iv == items@.map_values(|i: Item| item_view(i)),
                r@.map_values(|s: SearchStep| step_view(s)) == match_steps(
                    iv.take(j as int),
                    pv[k as int],
                    last,
                    k as int,
                ),
            decreases n - j,
        {
            let ghost r0 = r@.map_values(|s: SearchStep| step_view(s));
            proof {
                assert(iv.take(j + 1).drop_last() =~= iv.take(j as int));
                assert(iv.take(j + 1).last() == item_view(items@[j as int]));
                assert(pv[k as int] == parts@[k as int]@);
            }
            match &items[j] {
                Item::Directory(name) => {
                    if glob(name.as_str(), parts[k].as_str()) && !last {
                        r.push(SearchStep::Descend(Some(name.clone()), k + 1));
                        proof {
                            assert(r@.map_values(|s: SearchStep| step_view(s)) =~= r0.push(
                                StepView::Descend(Some(name@), k + 1),
                            ));
                        }
                    }
                },
                Item::File(name) => {
                    if glob(name.as_str(), parts[k].as_str()) && last {
                        r.push(SearchStep::Found(Some(name.clone())));
                        proof {
                            assert(r@.map_values(|s: SearchStep| step_view(s)) =~= r0.push(
                                StepView::Found(Some(name@)),
                            ));
                        }
                    }
                },
            }
            j += 1;
        }
        proof {
            assert(iv.take(n as int) =~= iv);
        }
    }
    r
}

/// Whether the file at `path` is left out: its path relative to `current`
/// matches one of the `gitignore` entries, the path taken as the pattern.
pub fn is_ignored(path: &Path, current: &Path, gitignore: &[String]) -> (r: bool)
    ensures
        r == exists|k: int|
            0 <= k < gitignore@.len() && glob_match(
                join_with(path@.skip(common_len(current@, path@) as int), '/'),
                #[trigger] gitignore@[k]@,
            ),
{
    let name = path.normalize_string(current);
    let n = gitignore.len();
    let mut k: usize = 0;
    while k < n
        invariant
            k <= n,
            n == gitignore@.len(),
            name@ == join_with(path@.skip(common_len(current@, path@) as int), '/'),
            forall|j: int| 0 <= j < k ==> !glob_match(name@, #[trigger] gitignore@[j]@),
        decreases n - k,
    {
        if glob(name.as_str(), gitignore[k].as_str()) {
            return true;
        }
        k += 1;
    }
    false
}

/// The parts of a path pattern: split at `/`, `\\` counting as `/`.
pub open spec fn pattern_parts_spec(pat: Seq<char>) -> Seq<Seq<char>> {
    split_on(pat.map_values(|c: char| if c == '\\' { '/' } else { c }), '/')
}

/// The parts of the path pattern `pat`: split at `/`, `\\` counting as `/`.
pub fn pattern_parts(pat: &str) -> (parts: Vec<String>)
    ensures
        strings_view(parts@) == pattern_parts_spec(pat@),
{
    let cs = str_to_chars(pat);
    let n = cs.len();
    let mut slashed: Vec<char> = Vec::new();
    let mut k: usize = 0;
    while k < n
        invariant
            k <= n,
            n == cs@.len(),
            slashed@ == cs@.take(k as int).map_values(|c: char| if c == '\\' { '/' } else { c }),
        decreases n - k,
    {
        let c = cs[k];
        slashed.push(if c == '\\' { '/' } else { c });
        proof {
            assert(cs@.take(k + 1) =~= cs@.take(k as int).push(c));
            assert(slashed@ =~= cs@.take(k + 1).map_values(
                |c: char|
                    if c == '\\' {
                        '/'
                    } else {
                        c
                    },
            ));
        }
        k += 1;
    }
    proof {
        assert(cs@.take(n as int) =~= cs@);
    }
    let mut parts: Vec<String> = Vec::new();
    split_push(&mut parts, &slashed, 0, '/');
    proof {
        assert(parts@.map_values(|p: String| p@) =~= Seq::<Seq<char>>::empty() + split_on(
            slashed@.subrange(0, slashed@.len() as int),
            '/',
        ));
        assert(slashed@.subrange(0, slashed@.len() as int) =~= slashed@);
    }
    parts
}

} // verus!
