//! Character-level helpers shared by the pattern types and the parser.

use vstd::prelude::*;
use vstd::string::StrSliceExecFns;

verus! {

/// The suffix of `p` after its last `'/'`; `p` itself when it has none.
pub open spec fn after_last_slash(p: Seq<char>) -> Seq<char>
    decreases p.len(),
{
    if p.len() == 0 {
        p
    } else if p.last() == '/' {
        Seq::empty()
    } else {
        after_last_slash(p.drop_last()).push(p.last())
    }
}

/// `s` holds `c` somewhere.
pub open spec fn seq_has_char(s: Seq<char>, c: char) -> bool {
    exists|i: int| 0 <= i < s.len() && s[i] == c
}

/// `needle` occurs as a contiguous run inside `hay`.
pub open spec fn seq_contains(hay: Seq<char>, needle: Seq<char>) -> bool {
    exists|i: int|
        #![trigger hay.subrange(i, i + needle.len())]
        0 <= i && i + needle.len() <= hay.len() && hay.subrange(i, i + needle.len()) == needle
}

/// `p` with every leading `'/'` removed.
pub open spec fn trim_leading_slashes(p: Seq<char>) -> Seq<char>
    decreases p.len(),
{
    if p.len() > 0 && p[0] == '/' {
        trim_leading_slashes(p.subrange(1, p.len() as int))
    } else {
        p
    }
}

pub proof fn lemma_trim_prefix(p: Seq<char>, k: int)
    requires
        0 <= k <= p.len(),
        forall|i: int| 0 <= i < k ==> p[i] == '/',
        k == p.len() || p[k] != '/',
    ensures
        trim_leading_slashes(p) == p.subrange(k, p.len() as int),
    decreases k,
{
    if k == 0 {
        assert(p.subrange(0, p.len() as int) =~= p);
    } else {
        assert(p[0] == '/');
        let q = p.subrange(1, p.len() as int);
        assert(trim_leading_slashes(p) == trim_leading_slashes(q));
        assert forall|i: int| 0 <= i < k - 1 implies q[i] == '/' by {
            assert(q[i] == p[i + 1]);
        }
        assert(k - 1 == q.len() || q[k - 1] != '/');
        lemma_trim_prefix(q, k - 1);
        assert(q.subrange(k - 1, q.len() as int) =~= p.subrange(k, p.len() as int));
    }
}

/// The characters of `s`, one vector element per `char`.
pub fn str_chars(s: &str) -> (r: Vec<char>)
    ensures
        r@ == s@,
{
    let n: usize = s.unicode_len();
    let mut r: Vec<char> = Vec::new();
    let mut i: usize = 0;
    proof {
        assert(r@ =~= s@.subrange(0, 0));
    }
    while i < n
        invariant
            n == s@.len(),
            i <= n,
            r@ == s@.subrange(0, i as int),
        decreases n - i,
    {
        r.push(s.get_char(i));
        i = i + 1;
        proof {
            assert(r@ =~= s@.subrange(0, i as int));
        }
    }
    proof {
        assert(r@ =~= s@);
    }
    r
}

/// Builds a `String` from its characters.
///
/// Relies on `String: FromIterator<char>`: collecting chars yields the
/// string with exactly those chars in order.
#[verifier::external_body]
pub fn chars_string(v: &Vec<char>) -> (r: String)
    ensures
        r@ == v@,
{
    v.iter().collect()
}

/// Whether `hay` holds `needle` as a substring, by direct scan.
pub fn str_contains(hay: &str, needle: &str) -> (r: bool)
    ensures
        r == seq_contains(hay@, needle@),
{
    let h = str_chars(hay);
    let n = str_chars(needle);
    chars_contain(&h, &n)
}

/// Whether `hay` holds `needle` as a contiguous run.
pub fn chars_contain(hay: &Vec<char>, needle: &Vec<char>) -> (r: bool)
    ensures
        r == seq_contains(hay@, needle@),
{
    if needle.len() > hay.len() {
        return false;
    }
    let last_start: usize = hay.len() - needle.len();
    let mut i: usize = 0;
    while i <= last_start
        invariant
            hay@.len() <= usize::MAX,
            needle@.len() <= hay@.len(),
            last_start == hay@.len() - needle@.len(),
            i <= last_start + 1,
            forall|s: int|
                #![trigger hay@.subrange(s, s + needle@.len())]
                0 <= s < i ==> hay@.subrange(s, s + needle@.len()) != needle@,
        decreases last_start + 1 - i,
    {
        let mut j: usize = 0;
        let mut all_eq: bool = true;
        while j < needle.len()
            invariant
                hay@.len() <= usize::MAX,
                needle@.len() <= hay@.len(),
                i + needle@.len() <= hay@.len(),
                j <= needle@.len(),
                all_eq == (hay@.subrange(i as int, i + j as int) =~= needle@.subrange(
                    0,
                    j as int,
                )),
            decreases needle@.len() - j,
        {
            let ghost pre = all_eq;
            if hay[i + j] != needle[j] {
                all_eq = false;
            }
            proof {
                let ii = i as int;
                let jj = j as int;
                assert(hay@.subrange(ii, ii + jj + 1).drop_last() =~= hay@.subrange(ii, ii + jj));
                assert(needle@.subrange(0, jj + 1).drop_last() =~= needle@.subrange(0, jj));
                assert(hay@.subrange(ii, ii + jj + 1).last() == hay@[ii + jj]);
                assert(needle@.subrange(0, jj + 1).last() == needle@[jj]);
                if pre && hay@[ii + jj] == needle@[jj] {
                    assert(hay@.subrange(ii, ii + jj + 1) =~= needle@.subrange(0, jj + 1));
                } else {
                    assert(hay@.subrange(ii, ii + jj + 1) != needle@.subrange(0, jj + 1));
                }
            }
            j = j + 1;
        }
        proof {
            if all_eq {
                assert(needle@.subrange(0, needle@.len() as int) =~= needle@);
                assert(seq_contains(hay@, needle@));
            }
        }
        if all_eq {
            return true;
        }
        proof {
            if needle@.len() == 0 {
                assert(hay@.subrange(i as int, i as int) =~= needle@.subrange(0, 0));
            }
        }
        i = i + 1;
    }
    proof {
        assert forall|s: int|
            #![trigger hay@.subrange(s, s + needle@.len())]
            0 <= s && s + needle@.len() <= hay@.len() implies hay@.subrange(s, s + needle@.len())
            != needle@ by {
            assert(s <= last_start);
        }
    }
    false
}

/// The index right after the last `'/'` of `p`, or 0 when there is none.
pub open spec fn final_component_start(p: Seq<char>) -> int
    decreases p.len(),
{
    if p.len() == 0 {
        0
    } else if p.last() == '/' {
        p.len() as int
    } else {
        final_component_start(p.drop_last())
    }
}

pub proof fn lemma_final_component_start(p: Seq<char>)
    ensures
        0 <= final_component_start(p) <= p.len(),
        after_last_slash(p) == p.subrange(final_component_start(p), p.len() as int),
        forall|i: int| final_component_start(p) <= i < p.len() ==> p[i] != '/',
        final_component_start(p) > 0 ==> p[final_component_start(p) - 1] == '/',
    decreases p.len(),
{
    if p.len() == 0 {
        assert(after_last_slash(p) =~= p.subrange(0, 0));
    } else if p.last() == '/' {
        assert(after_last_slash(p) =~= p.subrange(p.len() as int, p.len() as int));
    } else {
        lemma_final_component_start(p.drop_last());
        let q = p.drop_last();
        let st = final_component_start(q);
        assert(final_component_start(p) == st);
        assert(after_last_slash(p) == after_last_slash(q).push(p.last()));
        assert(after_last_slash(q) == q.subrange(st, q.len() as int));
        assert(q.subrange(st, q.len() as int).push(p.last()) =~= p.subrange(st, p.len() as int));
        assert forall|i: int| st <= i < p.len() implies p[i] != '/' by {
            if i < q.len() {
                assert(q[i] == p[i]);
            }
        }
        if st > 0 {
            assert(q[st - 1] == p[st - 1]);
        }
    }
}

/// The final path component of `p`: everything after the last `'/'`.
pub fn final_component(p: &str) -> (r: &str)
    ensures
        r@ == after_last_slash(p@),
{
    proof {
        lemma_final_component_start(p@);
    }
    let n: usize = p.unicode_len();
    let mut start: usize = 0;
    let mut i: usize = 0;
    while i < n
        invariant
            n == p@.len(),
            i <= n,
            start <= i,
            forall|j: int| start <= j < i ==> p@[j] != '/',
            start > 0 ==> p@[start - 1] == '/',
        decreases n - i,
    {
        if p.get_char(i) == '/' {
            start = i + 1;
        }
        i = i + 1;
    }
    proof {
        let fcs = final_component_start(p@);
        if fcs < start {
            assert(p@[start - 1] != '/');
        }
        if fcs > start {
            assert(p@[fcs - 1] == '/');
        }
        assert(fcs == start);
    }
    p.substring_char(start, n)
}

} // verus!
