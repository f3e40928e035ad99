//! Unix paths as text.
use crate::search;
use crate::search::starts_with;
use crate::text;
use crate::text::{from_chars, to_chars};
use vstd::prelude::*;

verus! {

broadcast use vstd::seq::group_seq_axioms;

/// `path` as seen from the directory `base`: an absolute path stands for itself.
pub open spec fn join(base: Seq<char>, path: Seq<char>) -> Seq<char> {
    if search::starts(path, "/"@) {
        path
    } else if base.len() == 0 || base.last() == '/' {
        base + path
    } else {
        base + "/"@ + path
    }
}

/// `path` as seen from the directory `base`: an absolute path stands for itself.
pub fn path_join(base: &str, path: &str) -> (r: String)
    ensures
        r@ == join(base@, path@),
{
    if starts_with(path, "/") {
        return path.to_owned();
    }
    let mut out = base.to_owned();
    let chars = to_chars(base);
    if chars.len() > 0 && chars[chars.len() - 1] != '/' {
        out.append("/");
    }
    out.append(path);
    out
}

/// What stands behind the last `c`; all of `s` where there is none.
pub open spec fn after_last(s: Seq<char>, c: char) -> Seq<char>
    decreases s.len(),
{
    if s.len() == 0 || s.last() == c {
        Seq::empty()
    } else {
        after_last(s.drop_last(), c).push(s.last())
    }
}

/// The part of a path behind its last slash.
pub fn last_segment(path: &str) -> (r: String)
    ensures
        r@ == after_last(path@, '/'),
{
    let v = to_chars(path);
    let n: usize = v.len();
    let from: usize = start_after(v.as_slice(), n, '/');
    proof {
        assert(v@.take(n as int) =~= v@);
    }
    from_chars(v.as_slice(), from, n)
}

/// The last part of a path that names a file or directory; none where the path ends in `..` or names
/// nothing. Slashes and parts that stand for the same place at the end do not count.
pub open spec fn file_name(path: Seq<char>) -> Option<Seq<char>>
    decreases path.len(),
{
    if path.len() == 0 {
        None
    } else if path.last() == '/' {
        file_name(path.drop_last())
    } else {
        let part = after_last(path, '/');
        if part == seq!['.'] {
            if path.len() == 1 {
                None
            } else {
                file_name(path.drop_last())
            }
        } else if part == seq!['.', '.'] {
            None
        } else {
            Some(part)
        }
    }
}

/// What stands behind the last dot of a file name; none where there is no dot but at its front.
pub open spec fn extension_of(name: Seq<char>) -> Option<Seq<char>> {
    let tail = after_last(name, '.');
    if tail.len() + 1 >= name.len() {
        None
    } else {
        Some(tail)
    }
}

/// The extension of a path's file name.
pub open spec fn extension(path: Seq<char>) -> Option<Seq<char>> {
    match file_name(path) {
        Some(name) => extension_of(name),
        None => None,
    }
}

/// Index from which on the characters of `v` before index `to` hold no `c`.
fn start_after(v: &[char], to: usize, c: char) -> (from: usize)
    requires
        to <= v@.len(),
    ensures
        from <= to,
        after_last(v@.take(to as int), c) == v@.subrange(from as int, to as int),
        from > 0 ==> v@[from - 1] == c,
{
    let mut i: usize = to;
    while i > 0 && v[i - 1] != c
        invariant
            i <= to <= v@.len(),
            after_last(v@.take(to as int), c) == after_last(v@.take(i as int), c) + v@.subrange(i as int, to as int),
        decreases i,
    {
        proof {
            let t = v@.take(i as int);
            assert(t.last() == v@[i - 1]);
            assert(t.drop_last() =~= v@.take(i - 1));
            assert(after_last(t.drop_last(), c).push(t.last()) + v@.subrange(i as int, to as int) =~= after_last(
                t.drop_last(),
                c,
            ) + v@.subrange(i - 1, to as int));
        }
        i -= 1;
    }
    proof {
        if i > 0 {
            assert(v@.take(i as int).last() == c);
        }
        assert(after_last(v@.take(i as int), c) =~= Seq::<char>::empty());
        assert(after_last(v@.take(to as int), c) =~= v@.subrange(i as int, to as int));
    }
    i
}

/// The extension of a path's file name.
pub fn path_extension(path: &str) -> (r: Option<String>)
    ensures
        text::opt_str(r) == extension(path@),
{
    let v = to_chars(path);
    let mut to: usize = v.len();
    proof {
        assert(v@.take(to as int) =~= v@);
    }
    loop
        invariant
            to <= v@.len(),
            v@ == path@,
            file_name(path@) == file_name(v@.take(to as int)),
        decreases to,
    {
        if to == 0 {
            return None;
        }
        let ghost t = v@.take(to as int);
        proof {
            assert(t.last() == v@[to - 1]);
            assert(t.drop_last() =~= v@.take(to - 1));
        }
        if v[to - 1] == '/' {
            to -= 1;
        } else {
            let from: usize = start_after(v.as_slice(), to, '/');
            let ghost part = v@.subrange(from as int, to as int);
            if to - from == 1 && v[from] == '.' {
                proof {
                    assert(part =~= seq!['.']);
                }
                if to == 1 {
                    return None;
                }
                to -= 1;
            } else if to - from == 2 && v[from] == '.' && v[from + 1] == '.' {
                proof {
                    assert(part =~= seq!['.', '.']);
                }
                return None;
            } else {
                proof {
                    if part =~= seq!['.'] {
                        assert(part.len() == 1 && part[0] == '.');
                        assert(false);
                    }
                    if part =~= seq!['.', '.'] {
                        assert(part.len() == 2 && part[0] == '.' && part[1] == '.');
                        assert(part[1] == v@[from + 1]);
                        assert(false);
                    }
                    assert(file_name(path@) == Some(part));
                }
                let name = vstd::slice::slice_subrange(v.as_slice(), from, to);
                let n: usize = name.len();
                let dot: usize = start_after(name, n, '.');
                proof {
                    assert(name@.take(n as int) =~= name@);
                    assert(name@ =~= part);
                }
                if dot <= 1 {
                    return None;
                }
                return Some(from_chars(name, dot, n));
            }
        }
    }
}

/// An absolute path stands for itself; any other is taken from the base, with one slash in between.
pub proof fn law_paths_are_taken_from_the_base(base: Seq<char>, path: Seq<char>)
    ensures
        path.len() > 0 && path[0] == '/' ==> join(base, path) == path,
        !(path.len() > 0 && path[0] == '/') && base.len() > 0 && base[base.len() - 1] != '/' ==> join(base, path)
            == base.push('/') + path,
        !(path.len() > 0 && path[0] == '/') && (base.len() == 0 || base[base.len() - 1] == '/') ==> join(base, path)
            == base + path,
{
    reveal_strlit("/");
    if path.len() > 0 {
        assert(path.take(1) =~= seq![path[0]]);
        assert("/"@ =~= seq!['/']);
        assert(seq![path[0]][0] == path[0]);
    }
    assert(base + "/"@ + path =~= base.push('/') + path);
}

/// What stands behind the last of a character is all that follows it, and everything where it does not
/// occur.
pub proof fn law_behind_the_last(a: Seq<char>, c: char, b: Seq<char>)
    requires
        !b.contains(c),
    ensures
        after_last(a.push(c) + b, c) == b,
        after_last(b, c) == b,
    decreases b.len(),
{
    let all = a.push(c) + b;
    if b.len() == 0 {
        assert(all.last() == c);
    } else {
        let front = b.drop_last();
        assert(b.contains(b.last()));
        assert forall|i: int| 0 <= i < front.len() implies front[i] != c by {
            assert(b.contains(b[i]));
        }
        law_behind_the_last(a, c, front);
        assert(all.drop_last() =~= a.push(c) + front);
        assert(front.push(b.last()) =~= b);
    }
}

/// The file name is the last part of a path, with or without a directory before it and slashes behind
/// it; a path that ends in its parent has none.
pub proof fn law_file_name_is_the_last_part(dir: Seq<char>, name: Seq<char>)
    requires
        name.len() > 0,
        !name.contains('/'),
        name != seq!['.'],
    ensures
        name != seq!['.', '.'] ==> file_name(dir.push('/') + name) == Some(name),
        name != seq!['.', '.'] ==> file_name(name) == Some(name),
        name == seq!['.', '.'] ==> file_name(dir.push('/') + name) is None,
        file_name(name.push('/')) == file_name(name),
        file_name((dir.push('/') + name).push('/')) == file_name(dir.push('/') + name),
        file_name(Seq::empty()) is None,
{
    let whole = dir.push('/') + name;
    law_behind_the_last(dir, '/', name);
    assert(name.contains(name.last()));
    assert(whole.last() == name.last());
    assert(name.push('/').drop_last() =~= name);
    assert(whole.push('/').drop_last() =~= whole);
}

/// The extension is what stands behind the last dot of a file name that has something before it.
pub proof fn law_extension_is_behind_the_last_dot(stem: Seq<char>, ext: Seq<char>)
    requires
        !ext.contains('.'),
    ensures
        stem.len() > 0 ==> extension_of(stem.push('.') + ext) == Some(ext),
        extension_of(ext) is None,
        extension_of(seq!['.'] + ext) is None,
{
    law_behind_the_last(stem, '.', ext);
    law_behind_the_last(Seq::empty(), '.', ext);
    assert(Seq::<char>::empty().push('.') + ext =~= seq!['.'] + ext);
}

/// A path that ends in itself is that path.
pub proof fn law_a_dot_stands_for_the_directory(dir: Seq<char>)
    ensures
        file_name(dir.push('/').push('.')) == file_name(dir),
        file_name(dir.push('/')) == file_name(dir),
        file_name(seq!['.']) is None,
{
    let slash = dir.push('/');
    let dot = slash.push('.');
    law_behind_the_last(dir, '/', seq!['.']);
    assert(slash + seq!['.'] =~= dot);
    assert(slash.drop_last() =~= dir);
    assert(dot.drop_last() =~= slash);
    law_behind_the_last(dir, '/', seq!['.']);
}

} // verus!
