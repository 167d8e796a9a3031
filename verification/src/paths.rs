//! Paths as text, with `/` between their components.

use vstd::prelude::*;
use vstd::string::*;

use crate::text::{chars_of, string_of};

verus! {

/// The position behind the last `/`; zero where there is none.
pub open spec fn behind_slash(s: Seq<char>) -> nat
    decreases s.len(),
{
    if s.len() == 0 {
        0
    } else if s.last() == '/' {
        s.len()
    } else {
        behind_slash(s.drop_last())
    }
}

/// The name at the end of a path. Slashes at the end and `.` components do not count;
/// the root, an empty path and one that ends in `..` have none.
pub open spec fn file_name(path: Seq<char>) -> Option<Seq<char>>
    decreases path.len(),
{
    let name = path.skip(behind_slash(path) as int);
    if path.len() == 0 {
        None
    } else if path.last() == '/' || name == seq!['.'] {
        file_name(path.drop_last())
    } else if name == seq!['.', '.'] {
        None
    } else {
        Some(name)
    }
}

/// The position of the last `.`; the length where there is none.
pub open spec fn last_dot(s: Seq<char>) -> nat
    decreases s.len(),
{
    if s.len() == 0 {
        0
    } else if s.last() == '.' {
        (s.len() - 1) as nat
    } else if last_dot(s.drop_last()) == s.len() - 1 {
        s.len()
    } else {
        last_dot(s.drop_last())
    }
}

/// The extension of a path: what follows the last `.` of its name, where something
/// stands before that.
pub open spec fn extension(path: Seq<char>) -> Option<Seq<char>> {
    match file_name(path) {
        None => None,
        Some(name) => if 0 < last_dot(name) < name.len() {
            Some(name.skip(last_dot(name) as int + 1))
        } else {
            None
        },
    }
}

/// The position behind the last `/` is within the path.
pub proof fn lemma_behind_slash(s: Seq<char>)
    ensures
        behind_slash(s) <= s.len(),
    decreases s.len(),
{
    if s.len() > 0 && s.last() != '/' {
        lemma_behind_slash(s.drop_last());
    }
}

proof fn lemma_last_dot(s: Seq<char>)
    ensures
        last_dot(s) <= s.len(),
    decreases s.len(),
{
    if s.len() > 0 && s.last() != '.' {
        lemma_last_dot(s.drop_last());
    }
}

/// The position behind the last `/` before `end`.
pub fn find_behind_slash(v: &Vec<char>, end: usize) -> (r: usize)
    requires
        end <= v@.len(),
    ensures
        r == behind_slash(v@.take(end as int)),
        r <= end,
{
    let mut i: usize = end;
    while i > 0 && v[i - 1] != '/'
        invariant
            i <= end <= v@.len(),
            behind_slash(v@.take(i as int)) == behind_slash(v@.take(end as int)),
        decreases i,
    {
        proof {
            assert(v@.take(i as int).last() == v@[i - 1]);
            assert(v@.take(i as int).drop_last() =~= v@.take(i - 1));
        }
        i = i - 1;
    }
    proof {
        if i > 0 {
            assert(v@.take(i as int).last() == v@[i - 1]);
        }
    }
    i
}

/// The bounds of the name at the end of a path.
fn find_name(v: &Vec<char>) -> (r: Option<(usize, usize)>)
    ensures
        match r {
            Some((a, b)) => a <= b <= v@.len() && file_name(v@) == Some(
                v@.subrange(a as int, b as int),
            ),
            None => file_name(v@) is None,
        },
{
    let mut end: usize = v.len();
    proof {
        assert(v@.take(end as int) =~= v@);
    }
    while end > 0
        invariant
            end <= v@.len(),
            file_name(v@.take(end as int)) == file_name(v@),
        decreases end,
    {
        let a: usize = find_behind_slash(v, end);
        let ghost path = v@.take(end as int);
        let ghost name = path.skip(a as int);
        proof {
            assert(name =~= v@.subrange(a as int, end as int));
            assert(path.last() == v@[end - 1]);
            assert(path.drop_last() =~= v@.take(end - 1));
        }
        if v[end - 1] == '/' || (end - a == 1 && v[a] == '.') {
            proof {
                if end - a == 1 && v@[a as int] == '.' {
                    assert(name =~= seq!['.']);
                }
            }
            end = end - 1;
        } else {
            proof {
                if name == seq!['.'] {
                    assert(name.len() == 1 && name[0] == '.');
                    assert(v@[a as int] == '.');
                }
            }
            if end - a == 2 && v[a] == '.' && v[a + 1] == '.' {
                proof {
                    assert(name =~= seq!['.', '.']);
                }
                return None;
            }
            proof {
                if name == seq!['.', '.'] {
                    assert(name.len() == 2 && name[0] == '.' && name[1] == '.');
                    assert(v@[a as int] == '.' && v@[a + 1] == '.');
                }
            }
            return Some((a, end));
        }
    }
    proof {
        assert(v@.take(0).len() == 0);
    }
    None
}

fn find_last_dot(v: &Vec<char>) -> (r: usize)
    ensures
        r == last_dot(v@),
        r <= v@.len(),
{
    let mut i: usize = v.len();
    proof {
        assert(v@.take(i as int) =~= v@);
    }
    while i > 0
        invariant
            i <= v@.len(),
            last_dot(v@) == (if last_dot(v@.take(i as int)) == i {
                v@.len()
            } else {
                last_dot(v@.take(i as int))
            }),
        decreases i,
    {
        proof {
            assert(v@.take(i as int).last() == v@[i - 1]);
            assert(v@.take(i as int).drop_last() =~= v@.take(i - 1));
            lemma_last_dot(v@.take(i - 1));
        }
        if v[i - 1] == '.' {
            return i - 1;
        }
        i = i - 1;
    }
    proof {
        assert(v@.take(0).len() == 0);
    }
    v.len()
}

/// The name at the end of a path.
pub fn name_of(path: &str) -> (r: Option<String>)
    ensures
        match r {
            Some(n) => file_name(path@) == Some(n@),
            None => file_name(path@) is None,
        },
{
    let v = chars_of(path);
    match find_name(&v) {
        Some((a, b)) => Some(string_of(&v, a, b)),
        None => None,
    }
}

/// The extension of a path.
pub fn extension_of(path: &str) -> (r: Option<String>)
    ensures
        match r {
            Some(e) => extension(path@) == Some(e@),
            None => extension(path@) is None,
        },
{
    let name = match name_of(path) {
        Some(n) => n,
        None => {
            return None;
        },
    };
    let v = chars_of(name.as_str());
    let k: usize = find_last_dot(&v);
    if k == 0 || k >= v.len() {
        return None;
    }
    proof {
        assert(v@.subrange(k + 1, v@.len() as int) =~= name@.skip(k + 1));
    }
    Some(string_of(&v, k + 1, v.len()))
}

// ── Laws ────────────────────────────────────────────────────────────────────

proof fn lemma_slash_before(dir: Seq<char>, name: Seq<char>)
    requires
        !name.contains('/'),
    ensures
        behind_slash(dir.push('/') + name) == dir.len() + 1,
        behind_slash(name) == 0,
    decreases name.len(),
{
    let s = dir.push('/') + name;
    if name.len() > 0 {
        let rest = name.drop_last();
        assert(name.last() != '/') by {
            assert(name.contains(name.last()));
        }
        assert forall|i: int| 0 <= i < rest.len() implies rest[i] != '/' by {
            assert(name.contains(name[i]));
        }
        lemma_slash_before(dir, rest);
        assert(s.drop_last() =~= dir.push('/') + rest);
        assert(s.last() == name.last());
    } else {
        assert(s =~= dir.push('/'));
    }
}

/// The name of a path is what stands behind its last `/`, or all of it where there is none,
/// whatever directory it is in.
pub proof fn law_the_name_stands_behind_the_last_slash(dir: Seq<char>, name: Seq<char>)
    requires
        !name.contains('/'),
        name.len() > 0,
        name != seq!['.'],
        name != seq!['.', '.'],
    ensures
        file_name(dir.push('/') + name) == Some(name),
        file_name(name) == Some(name),
{
    lemma_slash_before(dir, name);
    let s = dir.push('/') + name;
    assert(name.last() != '/') by {
        assert(name.contains(name.last()));
    }
    assert(s.last() == name.last());
    assert(s.skip(dir.len() as int + 1) =~= name);
    assert(name.skip(0) =~= name);
}

/// Slashes at the end of a path and `.` components there do not count; a path that ends in
/// `..` has no name, nor has an empty one.
pub proof fn law_names_are_told_without_dots_and_slashes(path: Seq<char>)
    ensures
        file_name(path.push('/')) == file_name(path),
        file_name(path.push('/').push('.')) == file_name(path),
        file_name(path.push('/').push('.').push('.')) is None,
        file_name(seq![]) is None,
        file_name(seq!['.']) is None,
        file_name(seq!['.', '.']) is None,
{
    let s = path.push('/');
    assert(s.drop_last() =~= path);
    assert(file_name(s) == file_name(path));
    let one = seq!['.'];
    let two = seq!['.', '.'];
    lemma_slash_before(path, one);
    lemma_slash_before(path, two);
    assert(s.push('.') =~= s + one);
    assert(s.push('.').push('.') =~= s + two);
    assert((s + one).skip(s.len() as int) =~= one);
    assert((s + two).skip(s.len() as int) =~= two);
    assert((s + one).drop_last() =~= s);
    assert((s + one).last() == '.');
    assert((s + two).last() == '.');
    assert(two.len() != one.len());
    assert(one.skip(0) =~= one && two.skip(0) =~= two);
    assert(one.drop_last() =~= seq![]);
    assert(file_name(one.drop_last()) is None);
}

proof fn lemma_dot_before(stem: Seq<char>, ext: Seq<char>)
    requires
        !ext.contains('.'),
    ensures
        last_dot(stem.push('.') + ext) == stem.len(),
        last_dot(ext) == ext.len(),
    decreases ext.len(),
{
    let s = stem.push('.') + ext;
    if ext.len() > 0 {
        let rest = ext.drop_last();
        assert(ext.last() != '.') by {
            assert(ext.contains(ext.last()));
        }
        assert forall|i: int| 0 <= i < rest.len() implies rest[i] != '.' by {
            assert(ext.contains(ext[i]));
        }
        lemma_dot_before(stem, rest);
        assert(s.drop_last() =~= stem.push('.') + rest);
        assert(s.last() == ext.last());
    } else {
        assert(s =~= stem.push('.'));
    }
}

/// The extension is what stands behind the last `.` of the name. A name without one has none,
/// nor has one that merely begins with it.
pub proof fn law_the_extension_stands_behind_the_last_dot(
    dir: Seq<char>,
    stem: Seq<char>,
    ext: Seq<char>,
)
    requires
        !stem.contains('/'),
        !ext.contains('/'),
        !ext.contains('.'),
        ext.len() > 0,
    ensures
        stem.len() > 0 ==> extension(dir.push('/') + (stem.push('.') + ext)) == Some(ext),
        extension(dir.push('/') + ext) is None,
        extension(dir.push('/') + seq!['.'] + ext) is None,
{
    let name = stem.push('.') + ext;
    lemma_dot_before(stem, ext);
    lemma_dot_before(seq![], ext);
    assert forall|i: int| 0 <= i < name.len() implies name[i] != '/' by {
        if i < stem.len() {
            assert(stem.contains(stem[i]));
        } else if i > stem.len() {
            assert(ext.contains(ext[i - stem.len() - 1]));
        }
    }
    assert(ext.last() != '.') by {
        assert(ext.contains(ext.last()));
    }
    assert(name.last() == ext.last());
    assert(name != seq!['.'] && name != seq!['.', '.']) by {
        assert(seq!['.'].last() == '.' && seq!['.', '.'].last() == '.');
    }
    assert(ext != seq!['.'] && ext != seq!['.', '.']) by {
        assert(seq!['.'].last() == '.' && seq!['.', '.'].last() == '.');
    }
    law_the_name_stands_behind_the_last_slash(dir, name);
    law_the_name_stands_behind_the_last_slash(dir, ext);
    assert(name.skip(stem.len() as int + 1) =~= ext);
    let hidden = Seq::<char>::empty().push('.') + ext;
    assert forall|i: int| 0 <= i < hidden.len() implies hidden[i] != '/' by {
        if i > 0 {
            assert(ext.contains(ext[i - 1]));
        }
    }
    assert(hidden.last() == ext.last());
    assert(hidden != seq!['.'] && hidden != seq!['.', '.']) by {
        assert(seq!['.'].last() == '.' && seq!['.', '.'].last() == '.');
    }
    law_the_name_stands_behind_the_last_slash(dir, hidden);
    assert(dir.push('/') + seq!['.'] + ext =~= dir.push('/') + hidden);
}

} // verus!
