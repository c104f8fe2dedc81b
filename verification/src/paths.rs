//! A plain-string model of file paths.
//!
//! The library sees every path as the `String` the surrounding program
//! hands it: components separated by `'/'`, no trailing separator on
//! file paths.  The functions here define, over that model, the pieces
//! of a path the logic reads: the base name, the parent directory, a
//! prefix-relative remainder, and the two name shapes the scanners
//! look for.

use vstd::prelude::*;
use vstd::string::StrSliceExecFns;

verus! {

/// The characters after the last `'/'` (the whole string when it has
/// no `'/'`); empty when the path is empty or ends with `'/'`.
pub open spec fn spec_basename(s: Seq<char>) -> Seq<char>
    decreases s.len(),
{
    if s.len() == 0 {
        Seq::empty()
    } else if s[s.len() - 1] == '/' {
        Seq::empty()
    } else {
        spec_basename(s.drop_last()).push(s[s.len() - 1])
    }
}

proof fn lemma_basename_after_slash(s: Seq<char>, i: int)
    requires
        0 <= i < s.len(),
        s[i] == '/',
        forall|j: int| i < j < s.len() ==> s[j] != '/',
    ensures
        spec_basename(s) == s.subrange(i + 1, s.len() as int),
    decreases s.len(),
{
    if i == s.len() - 1 {
        assert(spec_basename(s) =~= s.subrange(i + 1, s.len() as int));
    } else {
        lemma_basename_after_slash(s.drop_last(), i);
        assert(spec_basename(s) =~= s.subrange(i + 1, s.len() as int));
    }
}

proof fn lemma_basename_no_slash(s: Seq<char>)
    requires
        forall|j: int| 0 <= j < s.len() ==> s[j] != '/',
    ensures
        spec_basename(s) == s,
    decreases s.len(),
{
    if s.len() > 0 {
        lemma_basename_no_slash(s.drop_last());
        assert(spec_basename(s) =~= s);
    }
}

/// Index just after the last `'/'` of `s`, or `0` when `s` has none.
fn cut_after_last_slash(s: &str) -> (cut: usize)
    ensures
        cut <= s@.len(),
        cut > 0 ==> s@[cut - 1] == '/',
        forall|j: int| cut <= j < s@.len() ==> s@[j] != '/',
{
    let n = s.unicode_len();
    let mut i = n;
    loop
        invariant
            i <= n,
            n == s@.len(),
            forall|j: int| i <= j < s@.len() ==> s@[j] != '/',
        decreases i,
    {
        if i == 0 {
            return 0;
        }
        i = i - 1;
        if s.get_char(i) == '/' {
            return i + 1;
        }
    }
}

/// The base name of a path: the component after the last `'/'`.
/// `None` when that component is empty.
pub fn file_name(path: &str) -> (r: Option<String>)
    ensures
        r is Some <==> spec_basename(path@).len() > 0,
        r matches Some(b) ==> b@ == spec_basename(path@),
{
    let n = path.unicode_len();
    let cut = cut_after_last_slash(path);
    proof {
        if cut > 0 {
            lemma_basename_after_slash(path@, cut - 1);
        } else {
            lemma_basename_no_slash(path@);
        }
        assert(spec_basename(path@) =~= path@.subrange(cut as int, n as int));
    }
    if cut == n {
        None
    } else {
        Some(path.substring_char(cut, n).to_owned())
    }
}

/// The characters before the last `'/'`; nothing when the path has
/// no `'/'` at all.
pub open spec fn spec_parent(s: Seq<char>) -> Option<Seq<char>>
    decreases s.len(),
{
    if s.len() == 0 {
        Option::None
    } else if s[s.len() - 1] == '/' {
        Some(s.drop_last())
    } else {
        spec_parent(s.drop_last())
    }
}

proof fn lemma_parent_after_slash(s: Seq<char>, i: int)
    requires
        0 <= i < s.len(),
        s[i] == '/',
        forall|j: int| i < j < s.len() ==> s[j] != '/',
    ensures
        spec_parent(s) == Some(s.subrange(0, i)),
    decreases s.len(),
{
    if i == s.len() - 1 {
        assert(s.drop_last() =~= s.subrange(0, i));
    } else {
        lemma_parent_after_slash(s.drop_last(), i);
        assert(s.drop_last().subrange(0, i) =~= s.subrange(0, i));
    }
}

proof fn lemma_parent_no_slash(s: Seq<char>)
    requires
        forall|j: int| 0 <= j < s.len() ==> s[j] != '/',
    ensures
        spec_parent(s) is None,
    decreases s.len(),
{
    if s.len() > 0 {
        lemma_parent_no_slash(s.drop_last());
    }
}

/// The parent of a path (`spec_parent`): the characters before the
/// last `'/'`, or `None` when the path has no `'/'` at all.
pub fn parent_of(path: &str) -> (r: Option<String>)
    ensures
        r is Some <==> spec_parent(path@) is Some,
        r matches Some(p) ==> Some(p@) == spec_parent(path@),
{
    let cut = cut_after_last_slash(path);
    if cut == 0 {
        proof {
            lemma_parent_no_slash(path@);
        }
        None
    } else {
        let p = path.substring_char(0, cut - 1).to_owned();
        proof {
            lemma_parent_after_slash(path@, cut - 1);
        }
        Some(p)
    }
}

/// What remains of `abs` under `root`: empty when they are equal, the
/// part after `root/` when `abs` lies under it, `None` otherwise.
pub open spec fn spec_rel_to(abs: Seq<char>, root: Seq<char>) -> Option<Seq<char>> {
    if abs == root {
        Some(Seq::empty())
    } else if abs.len() > root.len() && abs.subrange(0, root.len() as int) == root && abs[root.len() as int]
        == '/' {
        Some(abs.subrange(root.len() as int + 1, abs.len() as int))
    } else {
        Option::None
    }
}

/// True when the `n` characters of `a` from `ai` equal those of `b`
/// from `bi`.
fn str_range_eq(a: &str, ai: usize, b: &str, bi: usize, n: usize) -> (r: bool)
    requires
        ai + n <= a@.len(),
        bi + n <= b@.len(),
    ensures
        r == (a@.subrange(ai as int, (ai + n) as int) == b@.subrange(bi as int, (bi + n) as int)),
{
    let an = a.unicode_len();
    let bn = b.unicode_len();
    let mut k: usize = 0;
    while k < n
        invariant
            k <= n,
            ai + n <= an,
            bi + n <= bn,
            an == a@.len(),
            bn == b@.len(),
            forall|j: int| 0 <= j < k ==> #[trigger] a@[ai + j] == b@[bi + j],
        decreases n - k,
    {
        if a.get_char(ai + k) != b.get_char(bi + k) {
            proof {
                assert(a@.subrange(ai as int, (ai + n) as int)[k as int] != b@.subrange(
                    bi as int,
                    (bi + n) as int,
                )[k as int]);
            }
            return false;
        }
        k = k + 1;
    }
    proof {
        assert forall|j: int| 0 <= j < n implies #[trigger] a@.subrange(
            ai as int,
            (ai + n) as int,
        )[j] == b@.subrange(bi as int, (bi + n) as int)[j] by {
            assert(a@[ai + j] == b@[bi + j]);
        }
        assert(a@.subrange(ai as int, (ai + n) as int) =~= b@.subrange(
            bi as int,
            (bi + n) as int,
        ));
    }
    true
}

/// The remainder of `abs` relative to `root`, per `spec_rel_to`.
pub fn rel_to(abs: &str, root: &str) -> (r: Option<String>)
    ensures
        r is Some <==> spec_rel_to(abs@, root@) is Some,
        r matches Some(s) ==> spec_rel_to(abs@, root@) matches Some(t) && s@ == t,
{
    let an = abs.unicode_len();
    let rn = root.unicode_len();
    if an == rn {
        if str_range_eq(abs, 0, root, 0, an) {
            proof {
                assert(abs@.subrange(0, an as int) =~= abs@);
                assert(root@.subrange(0, rn as int) =~= root@);
            }
            Some(String::new())
        } else {
            proof {
                assert(abs@.subrange(0, an as int) =~= abs@);
                assert(root@.subrange(0, rn as int) =~= root@);
            }
            None
        }
    } else if an > rn && str_range_eq(abs, 0, root, 0, rn) && abs.get_char(rn) == '/' {
        proof {
            assert(root@.subrange(0, rn as int) =~= root@);
            assert(abs@ != root@);
        }
        Some(abs.substring_char(rn + 1, an).to_owned())
    } else {
        proof {
            if an > rn && abs@.subrange(0, rn as int) == root@ && abs@[rn as int] == '/' {
                assert(root@.subrange(0, rn as int) =~= root@);
            }
            assert(spec_rel_to(abs@, root@) is None);
        }
        None
    }
}

/// True when a file name carries the video extension the importer
/// looks for: it ends in `.MP4` and has a non-empty stem.
pub open spec fn spec_is_mp4_name(name: Seq<char>) -> bool {
    name.len() >= 5 && name.subrange(name.len() - 4, name.len() as int) == ".MP4"@
}

/// Whether `name` is a video file name (`spec_is_mp4_name`).
pub fn is_mp4_name(name: &str) -> (r: bool)
    ensures
        r == spec_is_mp4_name(name@),
{
    let n = name.unicode_len();
    if n < 5 {
        return false;
    }
    let dotted = name.get_char(n - 4) == '.' && name.get_char(n - 3) == 'M' && name.get_char(
        n - 2,
    ) == 'P' && name.get_char(n - 1) == '4';
    proof {
        reveal_strlit(".MP4");
        let sub = name@.subrange(n - 4, n as int);
        assert(sub[0] == name@[n - 4] && sub[1] == name@[n - 3] && sub[2] == name@[n - 2] && sub[3]
            == name@[n - 1]);
        if dotted {
            assert(sub =~= ".MP4"@);
        }
    }
    dotted
}

pub open spec fn is_digit_char(c: char) -> bool {
    48 <= c as u32 <= 57
}

/// True when a directory name has the strict dated shape the
/// destination scanner treats as a session marker: four digits, a
/// dash, two digits, a dash, two digits.
pub open spec fn spec_is_date_name(name: Seq<char>) -> bool {
    &&& name.len() == 10
    &&& is_digit_char(name[0])
    &&& is_digit_char(name[1])
    &&& is_digit_char(name[2])
    &&& is_digit_char(name[3])
    &&& name[4] == '-'
    &&& is_digit_char(name[5])
    &&& is_digit_char(name[6])
    &&& name[7] == '-'
    &&& is_digit_char(name[8])
    &&& is_digit_char(name[9])
}

fn is_digit_at(name: &str, i: usize) -> (r: bool)
    requires
        i < name@.len(),
    ensures
        r == is_digit_char(name@[i as int]),
{
    let c = name.get_char(i);
    (c as u32) >= 48 && (c as u32) <= 57
}

/// Whether `name` has the dated session-marker shape
/// (`spec_is_date_name`).
pub fn is_date_name(name: &str) -> (r: bool)
    ensures
        r == spec_is_date_name(name@),
{
    if name.unicode_len() != 10 {
        return false;
    }
    is_digit_at(name, 0) && is_digit_at(name, 1) && is_digit_at(name, 2) && is_digit_at(name, 3)
        && name.get_char(4) == '-' && is_digit_at(name, 5) && is_digit_at(name, 6)
        && name.get_char(7) == '-' && is_digit_at(name, 8) && is_digit_at(name, 9)
}

/// `a` joined to `b` with a single separator.
pub fn join(a: &str, b: &str) -> (r: String)
    ensures
        r@ == a@ + "/"@ + b@,
{
    let mut s = a.to_owned();
    s.append("/");
    s.append(b);
    s
}

/// Whether two strings hold the same characters.
pub fn str_eq(a: &str, b: &str) -> (r: bool)
    ensures
        r == (a@ == b@),
{
    let an = a.unicode_len();
    let bn = b.unicode_len();
    if an != bn {
        return false;
    }
    let r = str_range_eq(a, 0, b, 0, an);
    proof {
        assert(a@.subrange(0, an as int) =~= a@);
        assert(b@.subrange(0, bn as int) =~= b@);
    }
    r
}

/// Strict lexicographic order on character sequences, by code point.
pub open spec fn spec_lex_lt(a: Seq<char>, b: Seq<char>) -> bool
    decreases a.len(),
{
    if b.len() == 0 {
        false
    } else if a.len() == 0 {
        true
    } else if (a[0] as u32) < (b[0] as u32) {
        true
    } else if (a[0] as u32) > (b[0] as u32) {
        false
    } else {
        spec_lex_lt(a.skip(1), b.skip(1))
    }
}

proof fn lemma_lex_lt_step(a: Seq<char>, b: Seq<char>, i: int)
    requires
        0 <= i,
        i < a.len(),
        i < b.len(),
        a[i] == b[i],
    ensures
        spec_lex_lt(a.skip(i), b.skip(i)) == spec_lex_lt(a.skip(i + 1), b.skip(i + 1)),
{
    assert(a.skip(i).skip(1) =~= a.skip(i + 1));
    assert(b.skip(i).skip(1) =~= b.skip(i + 1));
    assert(a.skip(i)[0] == a[i]);
    assert(b.skip(i)[0] == b[i]);
}

/// Whether `a@` comes strictly before `b@` (`spec_lex_lt`).
pub fn str_lt(a: &str, b: &str) -> (r: bool)
    ensures
        r == spec_lex_lt(a@, b@),
{
    let an = a.unicode_len();
    let bn = b.unicode_len();
    let mut i: usize = 0;
    proof {
        assert(a@.skip(0) =~= a@);
        assert(b@.skip(0) =~= b@);
    }
    loop
        invariant
            i <= an,
            i <= bn,
            an == a@.len(),
            bn == b@.len(),
            spec_lex_lt(a@, b@) == spec_lex_lt(a@.skip(i as int), b@.skip(i as int)),
            forall|j: int| 0 <= j < i ==> a@[j] == b@[j],
        decreases an - i,
    {
        if i == bn {
            return false;
        }
        if i == an {
            return true;
        }
        let ca = a.get_char(i);
        let cb = b.get_char(i);
        if (ca as u32) < (cb as u32) {
            return true;
        }
        if (ca as u32) > (cb as u32) {
            return false;
        }
        proof {
            lemma_lex_lt_step(a@, b@, i as int);
        }
        i = i + 1;
    }
}


proof fn lemma_char_eq_by_scalar(c: char, d: char)
    requires
        c as u32 == d as u32,
    ensures
        c == d,
{
}

/// Lexicographic order is transitive.
pub proof fn lemma_lex_lt_trans(a: Seq<char>, b: Seq<char>, c: Seq<char>)
    requires
        spec_lex_lt(a, b),
        spec_lex_lt(b, c),
    ensures
        spec_lex_lt(a, c),
    decreases a.len(),
{
    if b.len() == 0 {
    } else if a.len() == 0 {
    } else if c.len() == 0 {
    } else {
        if (a[0] as u32) == (b[0] as u32) && (b[0] as u32) == (c[0] as u32) {
            lemma_lex_lt_trans(a.skip(1), b.skip(1), c.skip(1));
        }
    }
}

/// Two distinct strings are lexicographically ordered one way or the
/// other.
pub proof fn lemma_lex_trichotomy(a: Seq<char>, b: Seq<char>)
    requires
        a != b,
    ensures
        spec_lex_lt(a, b) || spec_lex_lt(b, a),
    decreases a.len(),
{
    if a.len() == 0 {
        if b.len() == 0 {
            assert(a =~= b);
        }
        assert(b.len() > 0);
    } else if b.len() == 0 {
    } else {
        if (a[0] as u32) == (b[0] as u32) {
            lemma_char_eq_by_scalar(a[0], b[0]);
            if a.skip(1) == b.skip(1) {
                assert(a.skip(1).len() == b.skip(1).len());
                assert forall|i: int| 0 <= i < a.len() implies a[i] == b[i] by {
                    if i > 0 {
                        assert(a.skip(1)[i - 1] == b.skip(1)[i - 1]);
                    }
                }
                assert(a =~= b);
            }
            lemma_lex_trichotomy(a.skip(1), b.skip(1));
        }
    }
}

} // verus!
