use vstd::prelude::*;

use crate::strmap::{without, not_key};
use vstd::std_specs::iter::IteratorSpec;

verus! {

/// Character-wise equality of two string slices.
pub fn str_eq(a: &str, b: &str) -> (r: bool)
    ensures
        r == (a@ == b@),
{
    let sa = a.to_string();
    let sb = b.to_string();
    proof {
        broadcast use vstd::string::group_string_axioms;
    }
    sa == sb
}

/// An owned copy of a string slice.
pub fn owned(a: &str) -> (r: String)
    ensures
        r@ == a@,
{
    proof {
        broadcast use vstd::string::group_string_axioms;
    }
    a.to_string()
}

/// The character sequences of a sequence of strings.
pub open spec fn strs(s: Seq<String>) -> Seq<Seq<char>> {
    s.map_values(|x: String| x@)
}

pub fn clone_strings(v: &Vec<String>) -> (r: Vec<String>)
    ensures
        strs(r@) == strs(v@),
{
    let mut r: Vec<String> = Vec::new();
    let mut i: usize = 0;
    while i < v.len()
        invariant
            i <= v.len(),
            strs(r@) == strs(v@).subrange(0, i as int),
        decreases v.len() - i,
    {
        let c = v[i].clone();
        let ghost prev = r@;
        r.push(c);
        proof {
            assert(strs(prev).len() == i);
            assert forall|j: int| 0 <= j < i + 1 implies #[trigger] strs(r@)[j] == strs(v@).subrange(0, i + 1)[j] by {
                if j < i {
                    assert(r@[j] == prev[j]);
                    assert(strs(prev)[j] == strs(v@).subrange(0, i as int)[j]);
                }
            }
            assert(strs(r@) =~= strs(v@).subrange(0, i + 1));
        }
        i = i + 1;
    }
    proof {
        assert(strs(v@).subrange(0, v@.len() as int) =~= strs(v@));
    }
    r
}

/// First position of `s` in `v`.
pub fn position_of(v: &Vec<String>, s: &str) -> (r: Option<usize>)
    ensures
        match r {
            Some(i) => i < v@.len() && strs(v@)[i as int] == s@
                && forall|j: int| 0 <= j < i ==> strs(v@)[j] != s@,
            None => !strs(v@).contains(s@),
        },
{
    let mut i: usize = 0;
    while i < v.len()
        invariant
            i <= v.len(),
            forall|j: int| 0 <= j < i ==> strs(v@)[j] != s@,
        decreases v.len() - i,
    {
        if str_eq(v[i].as_str(), s) {
            return Some(i);
        }
        i = i + 1;
    }
    None
}

pub fn contains_str(v: &Vec<String>, s: &str) -> (r: bool)
    ensures
        r == strs(v@).contains(s@),
{
    position_of(v, s).is_some()
}

/// `v` with every occurrence of `s` removed, order kept.
pub fn remove_all(v: &Vec<String>, s: &str) -> (r: Vec<String>)
    ensures
        strs(r@) == without(strs(v@), s@),
{
    let mut r: Vec<String> = Vec::new();
    let mut i: usize = 0;
    while i < v.len()
        invariant
            i <= v.len(),
            strs(r@) == without(strs(v@).subrange(0, i as int), s@),
        decreases v.len() - i,
    {
        let ghost prefix = strs(v@).subrange(0, i as int);
        proof {
            assert(strs(v@).subrange(0, i + 1) =~= prefix.push(strs(v@)[i as int]));
            prefix.lemma_filter_push(strs(v@)[i as int], not_key(s@));
        }
        if !str_eq(v[i].as_str(), s) {
            r.push(v[i].clone());
        }
        i = i + 1;
        proof {
            assert(strs(r@) =~= without(strs(v@).subrange(0, i as int), s@));
        }
    }
    proof {
        assert(strs(v@).subrange(0, v@.len() as int) =~= strs(v@));
    }
    r
}

} // verus!

verus! {

/// The characters of `s`, in order.
pub fn to_chars(s: &str) -> (r: Vec<char>)
    ensures
        r@ == s@,
{
    broadcast use vstd::string::group_string_axioms;
    let mut out: Vec<char> = Vec::new();
    for c in iter: s.chars()
        invariant
            out@ == iter.seq().subrange(0, iter.index() as int),
    {
        out.push(c);
    }
    proof {
        assert(out@ =~= s@);
    }
    out
}

} // verus!

verus! {

/// Unicode `White_Space`, the set `str::trim` removes.
pub open spec fn is_white_space(c: char) -> bool {
    let u = c as u32;
    (0x09 <= u <= 0x0d) || u == 0x20 || u == 0x85 || u == 0xa0 || u == 0x1680
        || (0x2000 <= u <= 0x200a) || u == 0x2028 || u == 0x2029 || u == 0x202f
        || u == 0x205f || u == 0x3000
}

/// General category Cc, as `char::is_control` tests it.
pub open spec fn is_control(c: char) -> bool {
    let u = c as u32;
    u <= 0x1f || (0x7f <= u <= 0x9f)
}

pub fn white_space(c: char) -> (r: bool)
    ensures
        r == is_white_space(c),
{
    let u = c as u32;
    (0x09 <= u && u <= 0x0d) || u == 0x20 || u == 0x85 || u == 0xa0 || u == 0x1680
        || (0x2000 <= u && u <= 0x200a) || u == 0x2028 || u == 0x2029 || u == 0x202f
        || u == 0x205f || u == 0x3000
}

pub fn control(c: char) -> (r: bool)
    ensures
        r == is_control(c),
{
    let u = c as u32;
    u <= 0x1f || (0x7f <= u && u <= 0x9f)
}

/// `t` is `s` with leading and trailing white space removed.
pub open spec fn is_trim_of(t: Seq<char>, s: Seq<char>) -> bool {
    &&& t.len() > 0 ==> !is_white_space(t[0]) && !is_white_space(t[t.len() - 1])
    &&& exists|a: int, b: int| 0 <= a <= b <= s.len() && #[trigger] s.subrange(a, b) == t
        && (forall|i: int| 0 <= i < a ==> is_white_space(#[trigger] s[i]))
        && (forall|i: int| b <= i < s.len() ==> is_white_space(#[trigger] s[i]))
}

/// The span `[a, b)` of `s` left by trimming white space.
pub fn trim_span(s: &Vec<char>) -> (r: (usize, usize))
    ensures
        r.0 <= r.1 <= s@.len(),
        forall|i: int| 0 <= i < r.0 ==> is_white_space(#[trigger] s@[i]),
        forall|i: int| r.1 <= i < s@.len() ==> is_white_space(#[trigger] s@[i]),
        r.0 < r.1 ==> !is_white_space(s@[r.0 as int]) && !is_white_space(s@[r.1 - 1]),
        is_trim_of(s@.subrange(r.0 as int, r.1 as int), s@),
{
    let mut a: usize = 0;
    while a < s.len() && white_space(s[a])
        invariant
            a <= s@.len(),
            forall|i: int| 0 <= i < a ==> is_white_space(#[trigger] s@[i]),
        decreases s@.len() - a,
    {
        a = a + 1;
    }
    let mut b: usize = s.len();
    while b > a && white_space(s[b - 1])
        invariant
            a <= b <= s@.len(),
            forall|i: int| b <= i < s@.len() ==> is_white_space(#[trigger] s@[i]),
        decreases b,
    {
        b = b - 1;
    }
    proof {
        let t = s@.subrange(a as int, b as int);
        if t.len() > 0 {
            assert(t[0] == s@[a as int]);
            assert(t[t.len() - 1] == s@[b - 1]);
        }
        assert(s@.subrange(a as int, b as int) == t);
    }
    (a, b)
}

/// Trimming is unique: a string has one trim.
pub proof fn lemma_trim_unique(t1: Seq<char>, t2: Seq<char>, s: Seq<char>)
    requires
        is_trim_of(t1, s),
        is_trim_of(t2, s),
    ensures
        t1 == t2,
{
    let (a1, b1) = choose|a: int, b: int| 0 <= a <= b <= s.len() && #[trigger] s.subrange(a, b) == t1
        && (forall|i: int| 0 <= i < a ==> is_white_space(#[trigger] s[i]))
        && (forall|i: int| b <= i < s.len() ==> is_white_space(#[trigger] s[i]));
    let (a2, b2) = choose|a: int, b: int| 0 <= a <= b <= s.len() && #[trigger] s.subrange(a, b) == t2
        && (forall|i: int| 0 <= i < a ==> is_white_space(#[trigger] s[i]))
        && (forall|i: int| b <= i < s.len() ==> is_white_space(#[trigger] s[i]));
    if t1.len() == 0 || t2.len() == 0 {
        if t1.len() > 0 {
            // every character of s is white space, yet t1 starts with one that is not
            assert(s[a1] == t1[0]);
            if a1 < a2 { assert(is_white_space(s[a1])); } else { assert(is_white_space(s[a1])); }
        }
        if t2.len() > 0 {
            assert(s[a2] == t2[0]);
            if a2 < a1 { assert(is_white_space(s[a2])); } else { assert(is_white_space(s[a2])); }
        }
        assert(t1 =~= t2);
    } else {
        assert(s[a1] == t1[0]);
        assert(s[a2] == t2[0]);
        assert(s[b1 - 1] == t1[t1.len() - 1]);
        assert(s[b2 - 1] == t2[t2.len() - 1]);
        if a1 < a2 { assert(is_white_space(s[a1])); }
        if a2 < a1 { assert(is_white_space(s[a2])); }
        assert(a1 == a2);
        if b1 != b2 {
            if b1 < b2 { assert(b1 <= b2 - 1 < s.len()); assert(is_white_space(s[b2 - 1])); }
            else { assert(b2 <= b1 - 1 < s.len()); assert(is_white_space(s[b1 - 1])); }
        }
        assert(t1 =~= t2);
    }
}

/// Every string has a trim.
pub proof fn lemma_trim_exists(s: Seq<char>)
    ensures
        exists|t: Seq<char>| is_trim_of(t, s),
    decreases s.len(),
{
    if s.len() == 0 {
        assert(s.subrange(0, 0) =~= Seq::<char>::empty());
        assert(is_trim_of(Seq::<char>::empty(), s));
    } else if is_white_space(s[0]) {
        let r = s.drop_first();
        lemma_trim_exists(r);
        let t = choose|t: Seq<char>| is_trim_of(t, r);
        let (a, b) = choose|a: int, b: int| 0 <= a <= b <= r.len() && #[trigger] r.subrange(a, b) == t
            && (forall|i: int| 0 <= i < a ==> is_white_space(#[trigger] r[i]))
            && (forall|i: int| b <= i < r.len() ==> is_white_space(#[trigger] r[i]));
        assert(s.subrange(a + 1, b + 1) =~= t);
        assert forall|i: int| 0 <= i < a + 1 implies is_white_space(#[trigger] s[i]) by {
            if i > 0 { assert(s[i] == r[i - 1]); }
        }
        assert forall|i: int| b + 1 <= i < s.len() implies is_white_space(#[trigger] s[i]) by {
            assert(s[i] == r[i - 1]);
        }
        assert(is_trim_of(t, s));
    } else if is_white_space(s[s.len() - 1]) {
        let r = s.drop_last();
        lemma_trim_exists(r);
        let t = choose|t: Seq<char>| is_trim_of(t, r);
        let (a, b) = choose|a: int, b: int| 0 <= a <= b <= r.len() && #[trigger] r.subrange(a, b) == t
            && (forall|i: int| 0 <= i < a ==> is_white_space(#[trigger] r[i]))
            && (forall|i: int| b <= i < r.len() ==> is_white_space(#[trigger] r[i]));
        assert(s.subrange(a, b) =~= t);
        assert forall|i: int| 0 <= i < a implies is_white_space(#[trigger] s[i]) by {
            assert(s[i] == r[i]);
        }
        assert forall|i: int| b <= i < s.len() implies is_white_space(#[trigger] s[i]) by {
            if i < s.len() - 1 { assert(s[i] == r[i]); }
        }
        assert(is_trim_of(t, s));
    } else {
        assert(s.subrange(0, s.len() as int) =~= s);
        assert(is_trim_of(s, s));
    }
}

} // verus!
