//! Repository-relative paths, read the way `std::path::Path` reads a
//! '/'-separated path on Unix.
use crate::text::{chars_of, string_of, views_of};
use vstd::prelude::*;

verus! {

/// The pieces of `s` between '/' separators, empty pieces included.
pub open spec fn split_slash(s: Seq<char>) -> Seq<Seq<char>>
    decreases s.len(),
{
    if s.len() == 0 {
        seq![Seq::empty()]
    } else {
        let rest = split_slash(s.drop_last());
        if s.last() == '/' {
            rest.push(Seq::empty())
        } else {
            rest.update(rest.len() - 1, rest.last().push(s.last()))
        }
    }
}

/// A piece that `Path::components` reports as a normal component: not
/// empty, not "." and not "..".
pub open spec fn is_normal_part(p: Seq<char>) -> bool {
    p.len() > 0 && p != seq!['.'] && p != seq!['.', '.']
}

/// A piece that survives normalisation: not empty and not ".".
pub open spec fn is_named_part(p: Seq<char>) -> bool {
    p.len() > 0 && p != seq!['.']
}

/// The normal pieces of `ps`, in order.
pub open spec fn normal_parts(ps: Seq<Seq<char>>) -> Seq<Seq<char>>
    decreases ps.len(),
{
    if ps.len() == 0 {
        Seq::empty()
    } else if is_normal_part(ps.last()) {
        normal_parts(ps.drop_last()).push(ps.last())
    } else {
        normal_parts(ps.drop_last())
    }
}

/// Splitting never gives an empty list of pieces.
pub proof fn lemma_split_slash_nonempty(s: Seq<char>)
    ensures
        split_slash(s).len() >= 1,
    decreases s.len(),
{
    if s.len() > 0 {
        lemma_split_slash_nonempty(s.drop_last());
    }
}

/// The pieces of `x/y` are those of `x` followed by those of `y`.
pub proof fn lemma_split_slash_join(x: Seq<char>, y: Seq<char>)
    ensures
        split_slash(x + seq!['/'] + y) == split_slash(x) + split_slash(y),
    decreases y.len(),
{
    let s = x + seq!['/'] + y;
    if y.len() == 0 {
        assert(s.drop_last() =~= x);
        assert(split_slash(x).push(Seq::empty()) =~= split_slash(x) + split_slash(y));
    } else {
        let y1 = y.drop_last();
        assert(s.drop_last() =~= x + seq!['/'] + y1);
        lemma_split_slash_join(x, y1);
        lemma_split_slash_nonempty(y1);
        let rest = split_slash(x) + split_slash(y1);
        if y.last() == '/' {
            assert(rest.push(Seq::empty()) =~= split_slash(x) + split_slash(y));
        } else {
            assert(rest.update(rest.len() - 1, rest.last().push(y.last())) =~= split_slash(x)
                + split_slash(y));
        }
    }
}

/// A text without '/' is a single piece.
pub proof fn lemma_split_slash_single(p: Seq<char>)
    requires
        !p.contains('/'),
    ensures
        split_slash(p) == seq![p],
    decreases p.len(),
{
    if p.len() > 0 {
        let q = p.drop_last();
        assert(!q.contains('/')) by {
            if q.contains('/') {
                let i = choose|i: int| 0 <= i < q.len() && q[i] == '/';
                assert(p[i] == '/');
            }
        }
        lemma_split_slash_single(q);
        assert(p[p.len() - 1] != '/');
        assert(q.push(p.last()) =~= p);
        assert(seq![q].update(0, q.push(p.last())) =~= seq![p]);
    } else {
        assert(p =~= Seq::<char>::empty());
    }
}

/// The normal pieces of two lists joined are those of each, joined.
pub proof fn lemma_normal_parts_join(a: Seq<Seq<char>>, b: Seq<Seq<char>>)
    ensures
        normal_parts(a + b) == normal_parts(a) + normal_parts(b),
    decreases b.len(),
{
    if b.len() == 0 {
        assert(a + b =~= a);
        assert(normal_parts(a) + normal_parts(b) =~= normal_parts(a));
    } else {
        lemma_normal_parts_join(a, b.drop_last());
        assert((a + b).drop_last() =~= a + b.drop_last());
        if is_normal_part(b.last()) {
            assert(normal_parts(a) + normal_parts(b.drop_last()).push(b.last()) =~= (normal_parts(a)
                + normal_parts(b.drop_last())).push(b.last()));
        }
    }
}

/// The last piece of `ps` that survives normalisation.
pub open spec fn last_named(ps: Seq<Seq<char>>) -> Option<Seq<char>>
    decreases ps.len(),
{
    if ps.len() == 0 {
        None
    } else if is_named_part(ps.last()) {
        Some(ps.last())
    } else {
        last_named(ps.drop_last())
    }
}

/// The `Component::Normal` components of the path `s`, in order.
pub open spec fn normal_components(s: Seq<char>) -> Seq<Seq<char>> {
    normal_parts(split_slash(s))
}

/// `Path::file_name` of `s`: its final component, or none when the path
/// has no component or ends in "..".
pub open spec fn file_name(s: Seq<char>) -> Option<Seq<char>> {
    match last_named(split_slash(s)) {
        Some(p) => if p == seq!['.', '.'] {
            None
        } else {
            Some(p)
        },
        None => None,
    }
}

/// The file name of `s`, or the empty string where it has none.
pub open spec fn file_name_or_empty(s: Seq<char>) -> Seq<char> {
    match file_name(s) {
        Some(p) => p,
        None => Seq::empty(),
    }
}

/// The views of a list of character vectors.
pub open spec fn char_seqs(v: Seq<Vec<char>>) -> Seq<Seq<char>> {
    v.map_values(|x: Vec<char>| x@)
}

/// The pieces of `path` between '/' separators.
pub fn path_segments(path: &str) -> (r: Vec<Vec<char>>)
    ensures
        char_seqs(r@) == split_slash(path@),
{
    let cs = chars_of(path);
    let mut out: Vec<Vec<char>> = Vec::new();
    let mut cur: Vec<char> = Vec::new();
    let mut i: usize = 0;
    proof {
        assert(cs@.take(0) =~= Seq::<char>::empty());
        assert(char_seqs(out@).push(cur@) =~= split_slash(cs@.take(0)));
    }
    while i < cs.len()
        invariant
            cs@ == path@,
            i <= cs@.len(),
            char_seqs(out@).push(cur@) == split_slash(cs@.take(i as int)),
        decreases cs.len() - i,
    {
        let c = cs[i];
        let ghost before = char_seqs(out@).push(cur@);
        proof {
            assert(cs@.take(i + 1).drop_last() =~= cs@.take(i as int));
            assert(cs@.take(i + 1).last() == c);
        }
        if c == '/' {
            let done = cur;
            out.push(done);
            cur = Vec::new();
            proof {
                assert(char_seqs(out@).push(cur@) =~= before.push(Seq::empty()));
            }
        } else {
            let ghost old_cur = cur@;
            cur.push(c);
            proof {
                assert(char_seqs(out@).push(cur@) =~= before.update(
                    before.len() - 1,
                    old_cur.push(c),
                ));
            }
        }
        i += 1;
    }
    proof {
        assert(cs@.take(cs@.len() as int) =~= cs@);
    }
    out.push(cur);
    proof {
        assert(char_seqs(out@) =~= split_slash(path@));
    }
    out
}

/// Whether `p` is a normal component.
fn is_normal_piece(p: &Vec<char>) -> (r: bool)
    ensures
        r == is_normal_part(p@),
{
    if p.len() == 0 {
        return false;
    }
    if p.len() == 1 && p[0] == '.' {
        proof {
            assert(p@ =~= seq!['.']);
        }
        return false;
    }
    if p.len() == 2 && p[0] == '.' && p[1] == '.' {
        proof {
            assert(p@ =~= seq!['.', '.']);
        }
        return false;
    }
    proof {
        if p@ == seq!['.'] {
            assert(p@[0] == '.');
        }
        if p@ == seq!['.', '.'] {
            assert(p@[0] == '.' && p@[1] == '.');
        }
    }
    true
}

/// Whether `p` survives normalisation.
fn is_named_piece(p: &Vec<char>) -> (r: bool)
    ensures
        r == is_named_part(p@),
{
    if p.len() == 0 {
        return false;
    }
    if p.len() == 1 && p[0] == '.' {
        proof {
            assert(p@ =~= seq!['.']);
        }
        return false;
    }
    proof {
        if p@ == seq!['.'] {
            assert(p@[0] == '.');
        }
    }
    true
}

/// The normal components of `path`, in order, as `Path::components`
/// reports them.
pub fn path_normal_components(path: &str) -> (r: Vec<String>)
    ensures
        views_of(r@) == normal_components(path@),
{
    let segs = path_segments(path);
    let ghost ps = char_seqs(segs@);
    let mut out: Vec<String> = Vec::new();
    let mut k: usize = 0;
    proof {
        assert(ps.take(0) =~= Seq::<Seq<char>>::empty());
        assert(views_of(out@) =~= Seq::<Seq<char>>::empty());
    }
    while k < segs.len()
        invariant
            ps == char_seqs(segs@),
            ps == split_slash(path@),
            k <= segs@.len(),
            views_of(out@) == normal_parts(ps.take(k as int)),
        decreases segs.len() - k,
    {
        proof {
            assert(ps.take(k + 1).drop_last() =~= ps.take(k as int));
            assert(ps.take(k + 1).last() == segs@[k as int]@);
        }
        if is_normal_piece(&segs[k]) {
            let s = string_of(segs[k].as_slice());
            let ghost before = views_of(out@);
            out.push(s);
            proof {
                assert(views_of(out@) =~= before.push(s@));
            }
        }
        k += 1;
    }
    proof {
        assert(ps.take(segs@.len() as int) =~= ps);
    }
    out
}

/// `Path::file_name` of `path`.
pub fn path_file_name(path: &str) -> (r: Option<String>)
    ensures
        match r {
            Some(s) => file_name(path@) == Some(s@),
            None => file_name(path@) is None,
        },
{
    let segs = path_segments(path);
    let ghost ps = char_seqs(segs@);
    let mut found: Option<usize> = None;
    let mut k: usize = 0;
    while k < segs.len()
        invariant
            ps == char_seqs(segs@),
            ps == split_slash(path@),
            k <= segs@.len(),
            match found {
                Some(j) => j < k && last_named(ps.take(k as int)) == Some(ps[j as int]),
                None => last_named(ps.take(k as int)) is None,
            },
        decreases segs.len() - k,
    {
        proof {
            assert(ps.take(k + 1).drop_last() =~= ps.take(k as int));
            assert(ps.take(k + 1).last() == ps[k as int]);
        }
        if is_named_piece(&segs[k]) {
            found = Some(k);
        }
        k += 1;
    }
    proof {
        assert(ps.take(segs@.len() as int) =~= ps);
    }
    match found {
        Some(j) => {
            let p = &segs[j];
            if p.len() == 2 && p[0] == '.' && p[1] == '.' {
                proof {
                    assert(p@ =~= seq!['.', '.']);
                }
                None
            } else {
                proof {
                    if p@ == seq!['.', '.'] {
                        assert(p@[0] == '.' && p@[1] == '.');
                    }
                }
                Some(string_of(p.as_slice()))
            }
        },
        None => None,
    }
}

/// The file name of `path`, or the empty string where it has none.
pub fn path_file_name_or_empty(path: &str) -> (r: String)
    ensures
        r@ == file_name_or_empty(path@),
{
    match path_file_name(path) {
        Some(s) => s,
        None => String::new(),
    }
}

} // verus!
