//! Conversions between the library's types and their raw interchange
//! encodings, and small helpers on character vectors and strings.

use vstd::prelude::*;
use vstd::string::StrSliceExecFns;

verus! {

/// Relies on `String::push`, which appends the given character to the end
/// of the string.
pub assume_specification[ String::push ](s: &mut String, ch: char)
    ensures
        final(s)@ == old(s)@.push(ch),
;

/// The characters of a string, as a vector.
pub fn str_to_chars(s: &str) -> (r: Vec<char>)
    ensures
        r@ == s@,
{
    let n = s.unicode_len();
    let mut out: Vec<char> = Vec::new();
    let mut i: usize = 0;
    proof {
        assert(s@.subrange(0, 0) =~= Seq::<char>::empty());
    }
    while i < n
        invariant
            n == s@.len(),
            i <= n,
            out@ == s@.subrange(0, i as int),
        decreases n - i,
    {
        out.push(s.get_char(i));
        proof {
            assert(s@.subrange(0, i as int).push(s@[i as int]) =~= s@.subrange(0, i as int + 1));
        }
        i = i + 1;
    }
    proof {
        assert(s@.subrange(0, s@.len() as int) =~= s@);
    }
    out
}

/// The string holding the given characters.
pub fn chars_to_string(v: &Vec<char>) -> (r: String)
    ensures
        r@ == v@,
{
    let mut out = String::new();
    let mut i: usize = 0;
    proof {
        assert(v@.subrange(0, 0) =~= Seq::<char>::empty());
    }
    while i < v.len()
        invariant
            i <= v@.len(),
            out@ == v@.subrange(0, i as int),
        decreases v@.len() - i,
    {
        out.push(v[i]);
        proof {
            assert(v@.subrange(0, i as int).push(v@[i as int]) =~= v@.subrange(0, i as int + 1));
        }
        i = i + 1;
    }
    proof {
        assert(v@.subrange(0, v@.len() as int) =~= v@);
    }
    out
}

/// The characters of `v` from position `n` on.
pub fn vec_skip(v: &Vec<char>, n: usize) -> (r: Vec<char>)
    requires
        n <= v@.len(),
    ensures
        r@ == v@.skip(n as int),
{
    let mut out: Vec<char> = Vec::new();
    let mut i: usize = n;
    proof {
        assert(v@.subrange(n as int, n as int) =~= Seq::<char>::empty());
    }
    while i < v.len()
        invariant
            n <= i <= v@.len(),
            out@ == v@.subrange(n as int, i as int),
        decreases v@.len() - i,
    {
        out.push(v[i]);
        proof {
            assert(v@.subrange(n as int, i as int).push(v@[i as int]) =~= v@.subrange(
                n as int,
                i as int + 1,
            ));
        }
        i = i + 1;
    }
    out
}

/// The first `n` characters of `v`.
pub fn vec_take(v: &Vec<char>, n: usize) -> (r: Vec<char>)
    requires
        n <= v@.len(),
    ensures
        r@ == v@.take(n as int),
{
    let mut out: Vec<char> = Vec::new();
    let mut i: usize = 0;
    proof {
        assert(v@.subrange(0, 0) =~= Seq::<char>::empty());
    }
    while i < n
        invariant
            i <= n <= v@.len(),
            out@ == v@.subrange(0, i as int),
        decreases n - i,
    {
        out.push(v[i]);
        proof {
            assert(v@.subrange(0, i as int).push(v@[i as int]) =~= v@.subrange(0, i as int + 1));
        }
        i = i + 1;
    }
    out
}

/// A type with a stable raw encoding, for interchange with any serialized
/// form.
pub trait Binding: Sized {
    type Raw;

    /// The values that the raw encoding carries faithfully.
    spec fn raw_wf(&self) -> bool;

    /// The raw encoding of this value.
    spec fn raw_spec(&self) -> Self::Raw;

    /// The value that a raw encoding decodes to.
    spec fn from_raw_spec(raw: Self::Raw) -> Self;

    /// Encode this value.
    fn raw(&self) -> (r: Self::Raw)
        ensures
            r == self.raw_spec(),
    ;

    /// Decode a raw value.
    fn from_raw(raw: Self::Raw) -> (r: Self)
        ensures
            r == Self::from_raw_spec(raw),
    ;

    /// Law: decoding an encoded value gives the value back.
    proof fn lemma_raw_round_trip(&self)
        requires
            self.raw_wf(),
        ensures
            Self::from_raw_spec(self.raw_spec()) == *self,
    ;
}

} // verus!
