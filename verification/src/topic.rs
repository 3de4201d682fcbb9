//! Topic names and subscription filters: `/`-separated byte strings and
//! their decomposition into segment paths.

use vstd::prelude::*;
use vstd::slice::{slice_subrange, slice_to_vec};
use vstd::utf8::encode_utf8;

verus! {

/// The byte that separates topic segments.
pub open spec fn slash() -> u8 {
    47
}

/// Index of the first `/` in a byte string, or -1 when there is none.
pub open spec fn first_slash(t: Seq<u8>) -> int
    decreases t.len(),
{
    if t.len() == 0 {
        -1
    } else if t[0] == slash() {
        0
    } else {
        let r = first_slash(t.drop_first());
        if r == -1 {
            -1
        } else {
            1 + r
        }
    }
}

pub proof fn lemma_first_slash(t: Seq<u8>)
    ensures
        ({
            let r = first_slash(t);
            &&& -1 <= r < t.len()
            &&& r >= 0 ==> t[r] == slash() && (forall|k: int| 0 <= k < r ==> t[k] != slash())
            &&& r == -1 ==> forall|k: int| 0 <= k < t.len() ==> t[k] != slash()
        }),
    decreases t.len(),
{
    if t.len() != 0 && t[0] != slash() {
        let rest = t.drop_first();
        lemma_first_slash(rest);
        let r = first_slash(t);
        let rr = first_slash(rest);
        assert(forall|k: int| 0 <= k < rest.len() ==> rest[k] == t[k + 1]);
        if rr >= 0 {
            assert(r == 1 + rr);
            assert(t[r] == rest[rr]);
            assert forall|k: int| 0 <= k < r implies t[k] != slash() by {
                if k > 0 {
                    assert(t[k] == rest[k - 1]);
                }
            }
        } else {
            assert forall|k: int| 0 <= k < t.len() implies t[k] != slash() by {
                if k > 0 {
                    assert(t[k] == rest[k - 1]);
                }
            }
        }
    }
}

/// A topic or filter split at each `/` into its segments. Splitting never
/// yields an empty list: a string without a `/` is one segment, and the
/// empty string is one empty segment.
pub open spec fn split_seq(t: Seq<u8>) -> Seq<Seq<u8>>
    decreases t.len(),
{
    let j = first_slash(t);
    if j < 0 || j >= t.len() {
        seq![t]
    } else {
        seq![t.take(j)] + split_seq(t.skip(j + 1))
    }
}

/// The segment path named by a topic string: its UTF-8 bytes, split at `/`.
pub open spec fn str_path(s: Seq<char>) -> Seq<Seq<u8>> {
    split_seq(encode_utf8(s))
}

proof fn lemma_first_slash_is(s: Seq<u8>, j: int)
    requires
        0 <= j < s.len(),
        s[j] == slash(),
        forall|k: int| 0 <= k < j ==> s[k] != slash(),
    ensures
        first_slash(s) == j,
{
    lemma_first_slash(s);
    let r = first_slash(s);
    if r == -1 {
    } else if r < j {
    } else if r > j {
    }
}

proof fn lemma_first_slash_none(s: Seq<u8>)
    requires
        forall|k: int| 0 <= k < s.len() ==> s[k] != slash(),
    ensures
        first_slash(s) == -1,
{
    lemma_first_slash(s);
}

/// Split a topic into its `/`-separated segments.
pub fn split_bytes(t: &[u8]) -> (segs: Vec<Vec<u8>>)
    ensures
        segs.deep_view() == split_seq(t@),
{
    let mut segs: Vec<Vec<u8>> = Vec::new();
    let mut start: usize = 0;
    let mut i: usize = 0;
    proof {
        assert(t@.skip(0) =~= t@);
        assert(segs.deep_view() =~~= Seq::<Seq<u8>>::empty());
        assert(Seq::<Seq<u8>>::empty() + split_seq(t@) =~= split_seq(t@));
    }
    while i < t.len()
        invariant
            0 <= start <= i <= t@.len(),
            forall|k: int| start <= k < i ==> t@[k] != slash(),
            split_seq(t@) == segs.deep_view() + split_seq(t@.skip(start as int)),
        decreases t@.len() - i,
    {
        if t[i] == 47 {
            let seg = slice_to_vec(slice_subrange(t, start, i));
            let ghost prev = segs.deep_view();
            segs.push(seg);
            proof {
                let rest = t@.skip(start as int);
                assert forall|k: int| 0 <= k < i - start implies rest[k] != slash() by {
                    assert(rest[k] == t@[start + k]);
                }
                assert(rest[i - start] == t@[i as int]);
                lemma_first_slash_is(rest, i - start);
                assert(rest.take(i - start) =~= t@.subrange(start as int, i as int));
                assert(rest.skip(i - start + 1) =~= t@.skip(i + 1));
                assert(split_seq(rest) == seq![seg@] + split_seq(t@.skip(i + 1)));
                assert(segs.deep_view() =~~= prev + seq![seg@]);
                assert((prev + seq![seg@]) + split_seq(t@.skip(i + 1)) =~= prev + (seq![seg@]
                    + split_seq(t@.skip(i + 1))));
            }
            start = i + 1;
        }
        i = i + 1;
    }
    let seg = slice_to_vec(slice_subrange(t, start, t.len()));
    let ghost prev = segs.deep_view();
    segs.push(seg);
    proof {
        let rest = t@.skip(start as int);
        assert forall|k: int| 0 <= k < rest.len() implies rest[k] != slash() by {
            assert(rest[k] == t@[start + k]);
        }
        lemma_first_slash_none(rest);
        assert(rest =~= t@.subrange(start as int, t@.len() as int));
        assert(split_seq(rest) == seq![rest]);
        assert(segs.deep_view() =~~= prev + seq![seg@]);
    }
    segs
}

/// Byte-string equality.
pub fn eq_bytes(a: &[u8], b: &[u8]) -> (r: bool)
    ensures
        r == (a@ == b@),
{
    if a.len() != b.len() {
        return false;
    }
    let mut i: usize = 0;
    while i < a.len()
        invariant
            0 <= i <= a@.len(),
            a@.len() == b@.len(),
            forall|k: int| 0 <= k < i ==> a@[k] == b@[k],
        decreases a@.len() - i,
    {
        if a[i] != b[i] {
            return false;
        }
        i = i + 1;
    }
    proof {
        assert(a@ =~= b@);
    }
    true
}

} // verus!
