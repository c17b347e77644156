pub mod compare_iter;

use vstd::prelude::*;
use vstd::string::*;

verus! {

/// Whether two strings hold the same text: std's `==` on `str`, which
/// compares the bytes, and so the characters.
#[verifier::external_body]
pub(crate) fn str_eq(a: &str, b: &str) -> (r: bool)
    ensures
        r == (a@ == b@),
{
    a == b
}

/// std's `String::push` appends the character `ch` at the end of `s`.
pub assume_specification[ String::push ](s: &mut String, ch: char)
    ensures
        final(s)@ == old(s)@.push(ch),
;

/// `t` with every match of `p` replaced by `w`, the matches taken from the
/// left and not overlapping, as std's `str::replace` does for a pattern
/// that is not empty.
pub open spec fn replaced(t: Seq<char>, p: Seq<char>, w: Seq<char>) -> Seq<char>
    decreases t.len(),
{
    if p.len() == 0 || t.len() < p.len() {
        t
    } else if t.take(p.len() as int) == p {
        w + replaced(t.skip(p.len() as int), p, w)
    } else {
        seq![t[0]] + replaced(t.skip(1), p, w)
    }
}

/// The characters of `s`, one by one.
fn chars_of(s: &str) -> (v: Vec<char>)
    ensures
        v@ == s@,
{
    let n = s.unicode_len();
    let mut v: Vec<char> = Vec::new();
    let mut i: usize = 0;
    while i < n
        invariant
            i <= n,
            n == s@.len(),
            v@ == s@.take(i as int),
        decreases n - i,
    {
        v.push(s.get_char(i));
        i = i + 1;
        assert(v@ == s@.take(i as int));
    }
    assert(s@.take(n as int) == s@);
    v
}

/// Whether `p` occurs in `t` at `i`.
fn matches_at(t: &Vec<char>, p: &Vec<char>, i: usize) -> (r: bool)
    requires
        i + p@.len() <= t@.len(),
    ensures
        r == (t@.skip(i as int).take(p@.len() as int) == p@),
{
    let tl = t.len();
    let mut k: usize = 0;
    while k < p.len()
        invariant
            k <= p@.len(),
            tl == t@.len(),
            i + p@.len() <= t@.len(),
            forall|j: int| 0 <= j < k ==> t@[i + j] == p@[j],
        decreases p@.len() - k,
    {
        if t[i + k] != p[k] {
            assert(t@.skip(i as int).take(p@.len() as int)[k as int] != p@[k as int]);
            return false;
        }
        k = k + 1;
    }
    assert(t@.skip(i as int).take(p@.len() as int) =~= p@);
    true
}

/// A copy of `text` in which every match of `pattern`, from the left and not
/// overlapping, is replaced by `with`.
pub fn replace_all(text: &str, pattern: &str, with: &str) -> (r: String)
    requires
        pattern@.len() > 0,
    ensures
        r@ == replaced(text@, pattern@, with@),
{
    let t = chars_of(text);
    let p = chars_of(pattern);
    let n = t.len();
    let m = p.len();
    let mut out = String::new();
    let mut i: usize = 0;
    proof {
        assert(t@.skip(0) =~= t@);
        assert(out@ + t@ =~= t@);
    }
    while i < n
        invariant
            i <= n,
            n == t@.len(),
            m == p@.len(),
            m > 0,
            t@ == text@,
            p@ == pattern@,
            replaced(t@, p@, with@) == out@ + replaced(t@.skip(i as int), p@, with@),
        decreases n - i,
    {
        let ghost rest = t@.skip(i as int);
        if m <= n - i && matches_at(&t, &p, i) {
            out.append(with);
            proof {
                assert(rest.skip(m as int) =~= t@.skip(i + m));
            }
            i = i + m;
        } else {
            out.push(t[i]);
            proof {
                assert(rest.skip(1) =~= t@.skip(i + 1));
                if rest.len() < m {
                    assert(rest == seq![rest[0]] + rest.skip(1));
                }
            }
            i = i + 1;
        }
    }
    proof {
        assert(t@.skip(n as int).len() == 0);
        assert(out@ + t@.skip(n as int) =~= out@);
        assert(t@.skip(0) =~= t@);
    }
    out
}

} // verus!
