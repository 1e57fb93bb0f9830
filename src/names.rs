//! File names: their order, substring search, joining onto a directory and
//! the image extension.
use vstd::prelude::*;

verus! {

/// Lexicographic order of names by code point, the order of their UTF-8 bytes.
pub open spec fn name_lt(a: Seq<char>, b: Seq<char>) -> bool
    decreases a.len(),
{
    if b.len() == 0 {
        false
    } else if a.len() == 0 {
        true
    } else if a[0] != b[0] {
        a[0] < b[0]
    } else {
        name_lt(a.drop_first(), b.drop_first())
    }
}

pub proof fn lemma_name_lt_irreflexive(a: Seq<char>)
    ensures
        !name_lt(a, a),
    decreases a.len(),
{
    if a.len() > 0 {
        lemma_name_lt_irreflexive(a.drop_first());
    }
}

pub proof fn lemma_name_lt_asymmetric(a: Seq<char>, b: Seq<char>)
    ensures
        !(name_lt(a, b) && name_lt(b, a)),
    decreases a.len(),
{
    if a.len() > 0 && b.len() > 0 && a[0] == b[0] {
        lemma_name_lt_asymmetric(a.drop_first(), b.drop_first());
    }
}

pub proof fn lemma_name_lt_transitive(a: Seq<char>, b: Seq<char>, c: Seq<char>)
    requires
        name_lt(a, b),
        name_lt(b, c),
    ensures
        name_lt(a, c),
    decreases a.len(),
{
    if a.len() > 0 && a[0] == b[0] && b[0] == c[0] {
        lemma_name_lt_transitive(a.drop_first(), b.drop_first(), c.drop_first());
    }
}

pub proof fn lemma_name_lt_total(a: Seq<char>, b: Seq<char>)
    requires
        a != b,
    ensures
        name_lt(a, b) || name_lt(b, a),
    decreases a.len(),
{
    if a.len() > 0 && b.len() > 0 {
        if a[0] == b[0] {
            if a.drop_first() == b.drop_first() {
                assert(a =~= seq![a[0]] + a.drop_first());
                assert(b =~= seq![b[0]] + b.drop_first());
            }
            lemma_name_lt_total(a.drop_first(), b.drop_first());
        }
    } else if a.len() == 0 && b.len() == 0 {
        assert(a =~= b);
    }
}

/// Whether `a` comes strictly before `b` in the order of names.
pub fn name_less(a: &str, b: &str) -> (r: bool)
    ensures
        r == name_lt(a@, b@),
{
    let la: usize = a.unicode_len();
    let lb: usize = b.unicode_len();
    let mut i: usize = 0;
    assert(a@.skip(0) =~= a@);
    assert(b@.skip(0) =~= b@);
    while i < la && i < lb
        invariant
            la == a@.len(),
            lb == b@.len(),
            i <= la,
            i <= lb,
            name_lt(a@, b@) == name_lt(a@.skip(i as int), b@.skip(i as int)),
        decreases la - i,
    {
        let ca = a.get_char(i);
        let cb = b.get_char(i);
        if ca != cb {
            return ca < cb;
        }
        proof {
            assert(a@.skip(i as int).drop_first() =~= a@.skip(i + 1));
            assert(b@.skip(i as int).drop_first() =~= b@.skip(i + 1));
        }
        i = i + 1;
    }
    i < lb
}

/// Whether `f` occurs in `s` as a contiguous run; the empty text occurs everywhere.
pub open spec fn contains_text(s: Seq<char>, f: Seq<char>) -> bool {
    exists|i: int| 0 <= i && i + f.len() <= s.len() && #[trigger] s.subrange(i, i + f.len()) == f
}

/// Whether `f` occurs in `s` at position `i`.
fn occurs_at(s: &str, f: &str, i: usize, ls: usize, lf: usize) -> (r: bool)
    requires
        ls == s@.len(),
        lf == f@.len(),
        i + lf <= ls,
    ensures
        r == (s@.subrange(i as int, i + lf) == f@),
{
    let mut j: usize = 0;
    while j < lf
        invariant
            ls == s@.len(),
            lf == f@.len(),
            i + lf <= ls,
            j <= lf,
            s@.subrange(i as int, i + j) == f@.subrange(0, j as int),
        decreases lf - j,
    {
        if s.get_char(i + j) != f.get_char(j) {
            assert(s@.subrange(i as int, i + lf)[j as int] != f@[j as int]);
            return false;
        }
        assert(s@.subrange(i as int, i + j + 1) =~= s@.subrange(i as int, i + j).push(s@[i + j]));
        assert(f@.subrange(0, j + 1) =~= f@.subrange(0, j as int).push(f@[j as int]));
        j = j + 1;
    }
    assert(f@.subrange(0, lf as int) =~= f@);
    true
}

/// Whether two names are the same.
pub fn same_name(a: &str, b: &str) -> (r: bool)
    ensures
        r == (a@ == b@),
{
    let la: usize = a.unicode_len();
    if la != b.unicode_len() {
        return false;
    }
    let mut i: usize = 0;
    while i < la
        invariant
            la == a@.len() == b@.len(),
            i <= la,
            a@.subrange(0, i as int) == b@.subrange(0, i as int),
        decreases la - i,
    {
        if a.get_char(i) != b.get_char(i) {
            return false;
        }
        assert(a@.subrange(0, i + 1) =~= a@.subrange(0, i as int).push(a@[i as int]));
        assert(b@.subrange(0, i + 1) =~= b@.subrange(0, i as int).push(b@[i as int]));
        i = i + 1;
    }
    assert(a@ =~= a@.subrange(0, la as int));
    assert(b@ =~= b@.subrange(0, la as int));
    true
}

/// Whether the text `f` occurs in `s` (case-sensitive).
pub fn contains(s: &str, f: &str) -> (r: bool)
    ensures
        r == contains_text(s@, f@),
{
    let ls: usize = s.unicode_len();
    let lf: usize = f.unicode_len();
    if lf > ls {
        return false;
    }
    let last: usize = ls - lf;
    let mut i: usize = 0;
    loop
        invariant
            ls == s@.len(),
            lf == f@.len(),
            last == ls - lf,
            i <= last,
            forall|k: int| 0 <= k < i ==> #[trigger] s@.subrange(k, k + lf) != f@,
        decreases last - i,
    {
        if occurs_at(s, f, i, ls, lf) {
            return true;
        }
        if i == last {
            return false;
        }
        i = i + 1;
    }
}

/// A path made of a directory and a name, as `Path::join` makes it with the
/// separator `/`: an absolute name stands alone, an empty directory adds
/// nothing, and a separator is put between the two unless the directory
/// already ends with one.
pub open spec fn join_path(dir: Seq<char>, name: Seq<char>) -> Seq<char> {
    if name.len() > 0 && name[0] == '/' {
        name
    } else if dir.len() == 0 {
        name
    } else if dir.last() == '/' {
        dir + name
    } else {
        dir + seq!['/'] + name
    }
}

/// The path of the entry `name` in the directory `dir`.
pub fn join(dir: &str, name: &str) -> (r: String)
    ensures
        r@ == join_path(dir@, name@),
{
    let ln: usize = name.unicode_len();
    let ld: usize = dir.unicode_len();
    if ln > 0 && name.get_char(0) == '/' {
        return String::from_str(name);
    }
    if ld == 0 {
        return String::from_str(name);
    }
    let mut r = String::from_str(dir);
    if dir.get_char(ld - 1) != '/' {
        r.append("/");
    }
    r.append(name);
    proof {
        reveal_strlit("/");
    }
    r
}

/// Whether a file name has the image extension: its last four characters are
/// a dot and "png" in any case, and the dot does not start the name.
pub open spec fn has_image_extension(name: Seq<char>) -> bool {
    let n = name.len();
    &&& n >= 5
    &&& name[n - 4] == '.'
    &&& (name[n - 3] == 'p' || name[n - 3] == 'P')
    &&& (name[n - 2] == 'n' || name[n - 2] == 'N')
    &&& (name[n - 1] == 'g' || name[n - 1] == 'G')
}

/// Whether a file name names an image file.
pub fn is_image_file_name(name: &str) -> (r: bool)
    ensures
        r == has_image_extension(name@),
{
    let n: usize = name.unicode_len();
    if n < 5 {
        return false;
    }
    let dot = name.get_char(n - 4);
    let p = name.get_char(n - 3);
    let nn = name.get_char(n - 2);
    let g = name.get_char(n - 1);
    dot == '.' && (p == 'p' || p == 'P') && (nn == 'n' || nn == 'N') && (g == 'g' || g == 'G')
}

} // verus!
