use vstd::prelude::*;

verus! {

/// `s` without its trailing zero bytes.
pub open spec fn trim_nulls(s: Seq<u8>) -> Seq<u8>
    decreases s.len(),
{
    if s.len() > 0 && s.last() == 0 {
        trim_nulls(s.drop_last())
    } else {
        s
    }
}

/// The ASCII upper case of one byte; other bytes are kept.
pub open spec fn upper(b: u8) -> u8 {
    if 97 <= b <= 122 {
        (b - 32) as u8
    } else {
        b
    }
}

/// The form under which names are compared: trailing zero bytes dropped,
/// ASCII letters in upper case.
pub open spec fn normalize(s: Seq<u8>) -> Seq<u8> {
    trim_nulls(s).map_values(|b: u8| upper(b))
}

proof fn lemma_trim_prefix(s: Seq<u8>, n: int)
    requires
        0 < n <= s.len(),
        s[n - 1] == 0,
    ensures
        trim_nulls(s.subrange(0, n)) == trim_nulls(s.subrange(0, n - 1)),
{
    assert(s.subrange(0, n).drop_last() =~= s.subrange(0, n - 1));
}

/// The ASCII upper case of one byte.
pub fn to_upper(b: u8) -> (r: u8)
    ensures
        r == upper(b),
{
    if b >= 97 && b <= 122 {
        b - 32
    } else {
        b
    }
}

/// The length of `s` once its trailing zero bytes are dropped.
pub fn trimmed_len(s: &[u8]) -> (r: usize)
    ensures
        r <= s@.len(),
        trim_nulls(s@) == s@.subrange(0, r as int),
{
    let mut n: usize = s.len();
    assert(s@.subrange(0, s@.len() as int) =~= s@);
    while n > 0 && s[n - 1] == 0
        invariant
            n <= s@.len(),
            trim_nulls(s@) == trim_nulls(s@.subrange(0, n as int)),
        decreases n,
    {
        proof {
            lemma_trim_prefix(s@, n as int);
        }
        n = n - 1;
    }
    n
}

/// The bytes of `s` without its trailing zero bytes.
pub fn trimmed(s: &[u8]) -> (r: Vec<u8>)
    ensures
        r@ == trim_nulls(s@),
{
    let n = trimmed_len(s);
    let mut r: Vec<u8> = Vec::new();
    let mut i: usize = 0;
    while i < n
        invariant
            n <= s@.len(),
            i <= n,
            r@ =~= s@.subrange(0, i as int),
        decreases n - i,
    {
        r.push(s[i]);
        i = i + 1;
    }
    r
}

/// The normalized form of `s`.
pub fn normalize_name(s: &[u8]) -> (r: Vec<u8>)
    ensures
        r@ == normalize(s@),
{
    let n = trimmed_len(s);
    let mut r: Vec<u8> = Vec::new();
    let mut i: usize = 0;
    while i < n
        invariant
            n <= s@.len(),
            i <= n,
            trim_nulls(s@) == s@.subrange(0, n as int),
            r@ =~= s@.subrange(0, i as int).map_values(|b: u8| upper(b)),
        decreases n - i,
    {
        r.push(to_upper(s[i]));
        i = i + 1;
    }
    r
}

/// Whether two byte strings are equal.
pub fn bytes_eq(a: &[u8], b: &[u8]) -> (r: bool)
    ensures
        r == (a@ == b@),
{
    if a.len() != b.len() {
        return false;
    }
    let mut i: usize = 0;
    while i < a.len()
        invariant
            a@.len() == b@.len(),
            i <= a@.len(),
            forall|j: int| 0 <= j < i ==> a@[j] == b@[j],
        decreases a@.len() - i,
    {
        if a[i] != b[i] {
            return false;
        }
        i = i + 1;
    }
    assert(a@ =~= b@);
    true
}

/// The index key of a name: its bytes shifted into a `u64`, so that a name
/// of at most eight bytes keeps all of them. Names that share a key are told
/// apart by comparing them.
pub open spec fn name_key(s: Seq<u8>) -> u64
    decreases s.len(),
{
    if s.len() == 0 {
        0
    } else {
        (name_key(s.drop_last()) << 8u64) | (s.last() as u64)
    }
}

/// The index key of `s`.
pub fn key_of(s: &[u8]) -> (r: u64)
    ensures
        r == name_key(s@),
{
    let mut h: u64 = 0;
    let mut i: usize = 0;
    while i < s.len()
        invariant
            i <= s@.len(),
            h == name_key(s@.subrange(0, i as int)),
        decreases s@.len() - i,
    {
        assert(s@.subrange(0, i + 1).drop_last() =~= s@.subrange(0, i as int));
        h = (h << 8u64) | (s[i] as u64);
        i = i + 1;
    }
    assert(s@.subrange(0, s@.len() as int) =~= s@);
    h
}

} // verus!
