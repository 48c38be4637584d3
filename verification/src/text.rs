use vstd::prelude::*;

verus! {

/// `String::push` of std: appends one character.
#[verifier::external_body]
pub(crate) fn push_char(s: &mut String, c: char)
    ensures
        final(s)@ == old(s)@.push(c),
{
    s.push(c)
}

/// The characters of `s`, in order.
pub fn chars_of(s: &str) -> (r: Vec<char>)
    ensures
        r@ == s@,
{
    let mut out: Vec<char> = Vec::new();
    for c in it: s.chars()
        invariant
            out@ == it.seq().take(it.index()),
            it.seq() == s@,
    {
        out.push(c);
        proof {
            assert(out@ =~= it.seq().take(it.index() + 1));
        }
    }
    proof {
        assert(out@ =~= s@);
    }
    out
}

/// A string made of the characters `cs`.
pub fn string_of(cs: &[char]) -> (r: String)
    ensures
        r@ == cs@,
{
    let mut out = String::new();
    let mut i: usize = 0;
    while i < cs.len()
        invariant
            i <= cs@.len(),
            out@ == cs@.take(i as int),
        decreases cs.len() - i,
    {
        push_char(&mut out, cs[i]);
        i += 1;
        proof {
            assert(out@ =~= cs@.take(i as int));
        }
    }
    proof {
        assert(out@ =~= cs@);
    }
    out
}

/// Equality of two character sequences.
pub fn chars_eq(a: &[char], b: &[char]) -> (r: bool)
    ensures
        r == (a@ == b@),
{
    if a.len() != b.len() {
        return false;
    }
    let mut i: usize = 0;
    while i < a.len()
        invariant
            a@.len() == b@.len(),
            i <= a@.len(),
            forall|j: int| 0 <= j < i ==> a@[j] == b@[j],
        decreases a.len() - i,
    {
        if a[i] != b[i] {
            return false;
        }
        i += 1;
    }
    proof {
        assert(a@ =~= b@);
    }
    true
}

/// Equality of two strings.
pub fn str_eq(a: &str, b: &str) -> (r: bool)
    ensures
        r == (a@ == b@),
{
    let ca = chars_of(a);
    let cb = chars_of(b);
    chars_eq(ca.as_slice(), cb.as_slice())
}

/// A copy of a string.
pub fn copy_string(s: &str) -> (r: String)
    ensures
        r@ == s@,
{
    s.to_string()
}

/// `a` followed by `b`.
pub fn concat(a: &str, b: &str) -> (r: String)
    ensures
        r@ == a@ + b@,
{
    let mut out = a.to_string();
    out.append(b);
    out
}

/// `s` starts with `p`.
pub open spec fn has_prefix(s: Seq<char>, p: Seq<char>) -> bool {
    p.len() <= s.len() && s.subrange(0, p.len() as int) == p
}

/// `s` ends with `p`.
pub open spec fn has_suffix(s: Seq<char>, p: Seq<char>) -> bool {
    p.len() <= s.len() && s.subrange(s.len() - p.len(), s.len() as int) == p
}

/// `p` occurs in `s` at position `i`.
pub open spec fn occurs_at(s: Seq<char>, p: Seq<char>, i: int) -> bool {
    0 <= i && i + p.len() <= s.len() && s.subrange(i, i + p.len()) == p
}

/// `p` occurs somewhere in `s`.
pub open spec fn contains_seq(s: Seq<char>, p: Seq<char>) -> bool {
    exists|i: int| occurs_at(s, p, i)
}

/// Whether `p` occurs in `s` at position `i`.
pub fn occurs_at_exec(s: &[char], p: &[char], i: usize) -> (r: bool)
    ensures
        r == occurs_at(s@, p@, i as int),
{
    if i > s.len() || p.len() > s.len() - i {
        return false;
    }
    let mut j: usize = 0;
    while j < p.len()
        invariant
            i + p@.len() <= s@.len(),
            s@.len() == s.len(),
            p@.len() == p.len(),
            j <= p@.len(),
            forall|k: int| 0 <= k < j ==> s@[i + k] == p@[k],
        decreases p.len() - j,
    {
        if s[i + j] != p[j] {
            proof {
                assert(s@.subrange(i as int, i + p@.len())[j as int] != p@[j as int]);
            }
            return false;
        }
        j += 1;
    }
    proof {
        assert(s@.subrange(i as int, i + p@.len()) =~= p@);
    }
    true
}

/// Whether `s` starts with `p`.
pub fn starts_with(s: &[char], p: &[char]) -> (r: bool)
    ensures
        r == has_prefix(s@, p@),
{
    occurs_at_exec(s, p, 0)
}

/// Whether `s` ends with `p`.
pub fn ends_with(s: &[char], p: &[char]) -> (r: bool)
    ensures
        r == has_suffix(s@, p@),
{
    if p.len() > s.len() {
        return false;
    }
    occurs_at_exec(s, p, s.len() - p.len())
}

/// Whether `p` occurs in `s`.
pub fn contains_chars(s: &[char], p: &[char]) -> (r: bool)
    ensures
        r == contains_seq(s@, p@),
{
    let mut i: usize = 0;
    while i < s.len()
        invariant
            i <= s@.len(),
            forall|k: int| 0 <= k < i ==> !occurs_at(s@, p@, k),
        decreases s.len() - i,
    {
        if occurs_at_exec(s, p, i) {
            return true;
        }
        i += 1;
    }
    if occurs_at_exec(s, p, i) {
        return true;
    }
    proof {
        assert forall|k: int| !occurs_at(s@, p@, k) by {
            if 0 <= k <= i {
            }
        }
    }
    false
}


// ---------------------------------------------------------------------------
// Lexicographic order (the order of `String`/`str`: by code points)
// ---------------------------------------------------------------------------
/// `a` sorts strictly before `b`.
pub open spec fn str_lt(a: Seq<char>, b: Seq<char>) -> bool
    decreases a.len(),
{
    if a.len() == 0 {
        b.len() > 0
    } else if b.len() == 0 {
        false
    } else if (a[0] as int) < (b[0] as int) {
        true
    } else if a[0] == b[0] {
        str_lt(a.drop_first(), b.drop_first())
    } else {
        false
    }
}

/// No text comes before itself.
pub proof fn lemma_str_lt_irreflexive(a: Seq<char>)
    ensures
        !str_lt(a, a),
    decreases a.len(),
{
    if a.len() > 0 {
        lemma_str_lt_irreflexive(a.drop_first());
    }
}

/// Text order is transitive.
pub proof fn lemma_str_lt_transitive(a: Seq<char>, b: Seq<char>, c: Seq<char>)
    requires
        str_lt(a, b),
        str_lt(b, c),
    ensures
        str_lt(a, c),
    decreases a.len(),
{
    if a.len() > 0 && b.len() > 0 && c.len() > 0 {
        if a[0] == b[0] && b[0] == c[0] {
            lemma_str_lt_transitive(a.drop_first(), b.drop_first(), c.drop_first());
        }
    }
}

/// Of two different texts, one comes before the other.
pub proof fn lemma_str_lt_total(a: Seq<char>, b: Seq<char>)
    ensures
        a == b || str_lt(a, b) || str_lt(b, a),
    decreases a.len(),
{
    if a.len() > 0 && b.len() > 0 {
        if a[0] == b[0] {
            lemma_str_lt_total(a.drop_first(), b.drop_first());
            if a.drop_first() == b.drop_first() {
                assert(a =~= seq![a[0]] + a.drop_first());
                assert(b =~= seq![b[0]] + b.drop_first());
            }
        } else {
            assert((a[0] as int) != (b[0] as int));
        }
    } else if a.len() == 0 && b.len() == 0 {
        assert(a =~= b);
    }
}

/// Of two texts, at most one comes before the other.
pub proof fn lemma_str_lt_asymmetric(a: Seq<char>, b: Seq<char>)
    requires
        str_lt(a, b),
    ensures
        !str_lt(b, a),
{
    if str_lt(b, a) {
        lemma_str_lt_transitive(a, b, a);
        lemma_str_lt_irreflexive(a);
    }
}

/// Whether `a` sorts strictly before `b`.
pub fn chars_less(a: &[char], b: &[char]) -> (r: bool)
    ensures
        r == str_lt(a@, b@),
{
    let mut i: usize = 0;
    proof {
        assert(a@.skip(0) =~= a@);
        assert(b@.skip(0) =~= b@);
    }
    while i < a.len() && i < b.len() && a[i] == b[i]
        invariant
            i <= a@.len(),
            i <= b@.len(),
            a@.take(i as int) == b@.take(i as int),
            str_lt(a@, b@) == str_lt(a@.skip(i as int), b@.skip(i as int)),
        decreases a.len() - i,
    {
        proof {
            let sa = a@.skip(i as int);
            let sb = b@.skip(i as int);
            assert(sa.drop_first() =~= a@.skip(i + 1));
            assert(sb.drop_first() =~= b@.skip(i + 1));
            assert(a@.take(i + 1) =~= a@.take(i as int).push(a@[i as int]));
            assert(b@.take(i + 1) =~= b@.take(i as int).push(b@[i as int]));
        }
        i += 1;
    }
    if i == a.len() {
        return i < b.len();
    }
    if i == b.len() {
        return false;
    }
    proof {
        assert(a@.skip(i as int)[0] == a@[i as int]);
        assert(b@.skip(i as int)[0] == b@[i as int]);
    }
    a[i] < b[i]
}

/// `v` is strictly increasing.
pub open spec fn strictly_sorted(v: Seq<Seq<char>>) -> bool {
    forall|i: int, j: int| 0 <= i < j < v.len() ==> str_lt(#[trigger] v[i], #[trigger] v[j])
}

/// `v` holds exactly the strings of `w`.
pub open spec fn same_strings(v: Seq<Seq<char>>, w: Seq<Seq<char>>) -> bool {
    forall|x: Seq<char>| v.contains(x) <==> w.contains(x)
}

/// The views of a list of strings.
pub open spec fn views_of(v: Seq<String>) -> Seq<Seq<char>> {
    v.map_values(|s: String| s@)
}

/// What a sequence with one more item holds.
pub proof fn lemma_contains_push<A>(s: Seq<A>, x: A)
    ensures
        forall|y: A| s.push(x).contains(y) <==> (s.contains(y) || y == x),
{
    assert forall|y: A| s.push(x).contains(y) <==> (s.contains(y) || y == x) by {
        if s.push(x).contains(y) {
            let i = choose|i: int| 0 <= i < s.push(x).len() && s.push(x)[i] == y;
            if i < s.len() {
                assert(s[i] == y);
            }
        }
        if s.contains(y) {
            let i = choose|i: int| 0 <= i < s.len() && s[i] == y;
            assert(s.push(x)[i] == y);
        }
        if y == x {
            assert(s.push(x)[s.len() as int] == y);
        }
    }
}

/// Inserts `x` into the strictly sorted `v`, unless it is already there.
pub fn insert_sorted_unique(v: &mut Vec<String>, x: String)
    requires
        strictly_sorted(views_of(old(v)@)),
    ensures
        strictly_sorted(views_of(final(v)@)),
        same_strings(views_of(final(v)@), views_of(old(v)@).push(x@)),
{
    let ghost w = views_of(v@);
    let xc = chars_of(x.as_str());
    let mut k: usize = 0;
    let mut searching = true;
    while searching && k < v.len()
        invariant
            w == views_of(v@),
            strictly_sorted(w),
            xc@ == x@,
            k <= v@.len(),
            forall|j: int| 0 <= j < k ==> str_lt(#[trigger] w[j], x@),
            !searching ==> k < v@.len() && !str_lt(w[k as int], x@),
        decreases (v.len() - k) as int + if searching {
            1int
        } else {
            0int
        },
    {
        let vk = chars_of(v[k].as_str());
        if !chars_less(vk.as_slice(), xc.as_slice()) {
            searching = false;
        } else {
            k += 1;
        }
    }
    proof {
        lemma_contains_push(w, x@);
    }
    if k < v.len() {
        let vk = chars_of(v[k].as_str());
        if chars_eq(vk.as_slice(), xc.as_slice()) {
            proof {
                assert(w[k as int] == x@);
                assert(w.contains(x@));
            }
            return;
        }
        proof {
            lemma_str_lt_total(w[k as int], x@);
        }
    }
    v.insert(k, x);
    proof {
        let nw = views_of(v@);
        assert(nw =~= w.insert(k as int, x@));
        assert forall|i: int, j: int| 0 <= i < j < nw.len() implies str_lt(
            #[trigger] nw[i],
            #[trigger] nw[j],
        ) by {
            if j < k {
                assert(str_lt(w[i], w[j]));
            } else if j == k {
            } else if i == k {
                if j - 1 > k {
                    assert(str_lt(w[k as int], w[j - 1]));
                    lemma_str_lt_transitive(x@, w[k as int], w[j - 1]);
                }
            } else if i < k {
                if j - 1 > k {
                    assert(str_lt(w[k as int], w[j - 1]));
                    lemma_str_lt_transitive(x@, w[k as int], w[j - 1]);
                }
                lemma_str_lt_transitive(w[i], x@, w[j - 1]);
            } else {
                assert(str_lt(w[i - 1], w[j - 1]));
            }
        }
        assert forall|y: Seq<char>| nw.contains(y) <==> (w.contains(y) || y == x@) by {
            if nw.contains(y) {
                let i = choose|i: int| 0 <= i < nw.len() && nw[i] == y;
                if i < k {
                    assert(w.push(x@)[i] == y);
                } else if i == k {
                    assert(w.push(x@)[w.len() as int] == y);
                } else {
                    assert(w.push(x@)[i - 1] == y);
                }
            }
            if y == x@ {
                assert(nw[k as int] == y);
            }
            if w.contains(y) {
                let i = choose|i: int| 0 <= i < w.len() && w[i] == y;
                if i < k {
                    assert(nw[i] == y);
                } else {
                    assert(nw[i + 1] == y);
                }
            }
        }
    }
}

/// The strings of `items`, sorted, without repetitions.
pub fn sorted_unique(items: Vec<String>) -> (r: Vec<String>)
    ensures
        strictly_sorted(views_of(r@)),
        same_strings(views_of(r@), views_of(items@)),
{
    let mut out: Vec<String> = Vec::new();
    let n = items.len();
    let mut i: usize = 0;
    proof {
        assert(views_of(items@.take(0)) =~= Seq::<Seq<char>>::empty());
        assert(views_of(out@) =~= Seq::<Seq<char>>::empty());
    }
    while i < n
        invariant
            n == items@.len(),
            i <= n,
            strictly_sorted(views_of(out@)),
            same_strings(views_of(out@), views_of(items@.take(i as int))),
        decreases n - i,
    {
        let x = items[i].clone();
        let ghost before = views_of(out@);
        insert_sorted_unique(&mut out, x);
        proof {
            lemma_contains_push(before, items@[i as int]@);
            lemma_contains_push(views_of(items@.take(i as int)), items@[i as int]@);
            assert(views_of(items@.take(i + 1)) =~= views_of(items@.take(i as int)).push(
                items@[i as int]@,
            ));
            assert forall|y: Seq<char>| views_of(out@).contains(y) <==> views_of(
                items@.take(i + 1),
            ).contains(y) by {
                assert(views_of(out@).contains(y) <==> before.push(items@[i as int]@).contains(y));
                assert(before.contains(y) <==> views_of(items@.take(i as int)).contains(y));
            }
        }
        i += 1;
    }
    proof {
        assert(items@.take(n as int) =~= items@);
    }
    out
}

} // verus!
