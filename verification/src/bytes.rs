//! Small helpers on byte strings.

use vstd::prelude::*;

verus! {

/// Byte-string equality, decided by comparing lengths and each byte.
pub fn bytes_eq(a: &Vec<u8>, b: &Vec<u8>) -> (r: bool)
    ensures
        r == (a@ == b@),
{
    if a.len() != b.len() {
        proof {
            assert(a@ != b@);
        }
        return false;
    }
    let mut i: usize = 0;
    while i < a.len()
        invariant
            i <= a.len(),
            a@.len() == b@.len(),
            forall|j: int| 0 <= j < i ==> a@[j] == b@[j],
        decreases a.len() - i,
    {
        if a[i] != b[i] {
            return false;
        }
        i += 1;
    }
    proof {
        assert(a@ =~= b@);
    }
    true
}

/// Whether a byte is ASCII whitespace: space, tab, line feed, carriage return.
pub open spec fn is_ws(b: u8) -> bool {
    b == 32 || b == 9 || b == 10 || b == 13
}

/// Executable test matching [`is_ws`].
pub fn is_ws_byte(b: u8) -> (r: bool)
    ensures
        r == is_ws(b),
{
    b == 32 || b == 9 || b == 10 || b == 13
}

/// The given bytes with leading and trailing ASCII whitespace removed.
pub open spec fn spec_trim(s: Seq<u8>) -> Seq<u8>
    decreases s.len(),
{
    if s.len() == 0 {
        s
    } else if is_ws(s[0]) {
        spec_trim(s.subrange(1, s.len() as int))
    } else if is_ws(s[s.len() - 1]) {
        spec_trim(s.subrange(0, s.len() - 1))
    } else {
        s
    }
}

/// Removes leading and trailing ASCII whitespace.
pub fn trim_bytes(s: &Vec<u8>) -> (r: Vec<u8>)
    ensures
        r@ == spec_trim(s@),
{
    let mut lo: usize = 0;
    let mut hi: usize = s.len();
    proof {
        assert(s@.subrange(0, s@.len() as int) =~= s@);
    }
    while lo < hi && is_ws_byte(s[lo])
        invariant
            lo <= hi <= s.len(),
            spec_trim(s@) == spec_trim(s@.subrange(lo as int, hi as int)),
        decreases hi - lo,
    {
        proof {
            lemma_trim_drop_first(s@.subrange(lo as int, hi as int));
            assert(s@.subrange(lo as int, hi as int).subrange(1, (hi - lo) as int)
                =~= s@.subrange(lo as int + 1, hi as int));
        }
        lo += 1;
    }
    while lo < hi && is_ws_byte(s[hi - 1])
        invariant
            lo <= hi <= s.len(),
            spec_trim(s@) == spec_trim(s@.subrange(lo as int, hi as int)),
            lo < hi ==> !is_ws(s@[lo as int]),
        decreases hi - lo,
    {
        proof {
            lemma_trim_drop_last(s@.subrange(lo as int, hi as int));
            assert(s@.subrange(lo as int, hi as int).subrange(0, (hi - lo - 1) as int)
                =~= s@.subrange(lo as int, hi as int - 1));
        }
        hi -= 1;
    }
    let mut r: Vec<u8> = Vec::new();
    let mut i: usize = lo;
    while i < hi
        invariant
            lo <= i <= hi <= s.len(),
            r@ =~= s@.subrange(lo as int, i as int),
        decreases hi - i,
    {
        r.push(s[i]);
        i += 1;
    }
    proof {
        assert(r@ =~= s@.subrange(lo as int, hi as int));
        lemma_trim_of_trimmed(s@.subrange(lo as int, hi as int));
    }
    r
}

proof fn lemma_trim_drop_first(s: Seq<u8>)
    requires
        s.len() > 0,
        is_ws(s[0]),
    ensures
        spec_trim(s) == spec_trim(s.subrange(1, s.len() as int)),
{
}

proof fn lemma_trim_drop_last(s: Seq<u8>)
    requires
        s.len() > 0,
        !is_ws(s[0]),
        is_ws(s[s.len() - 1]),
    ensures
        spec_trim(s) == spec_trim(s.subrange(0, s.len() - 1)),
{
}

proof fn lemma_trim_of_trimmed(s: Seq<u8>)
    requires
        s.len() > 0 ==> !is_ws(s[0]),
        s.len() > 0 ==> !is_ws(s[s.len() - 1]),
    ensures
        spec_trim(s) == s,
{
}

} // verus!
