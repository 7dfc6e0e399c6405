//! Text handling for topic names: UTF-8 decoding of the bytes a packet
//! carries, and splitting a topic into its `/`-separated levels.

use vstd::prelude::*;
use vstd::utf8::{valid_utf8, decode_utf8};

verus! {

/// The levels of `s` as `str::split` with a one-character separator yields
/// them: every occurrence of `sep` ends one level and starts the next, so the
/// result always has one more level than `s` has separators.
pub open spec fn split_on(s: Seq<char>, sep: char) -> Seq<Seq<char>>
    decreases s.len(),
{
    if s.len() == 0 {
        seq![Seq::<char>::empty()]
    } else {
        let rest = split_on(s.drop_first(), sep);
        if s[0] == sep {
            seq![Seq::<char>::empty()] + rest
        } else {
            rest.update(0, seq![s[0]] + rest[0])
        }
    }
}

/// A split never yields an empty list of levels.
pub proof fn lemma_split_nonempty(s: Seq<char>, sep: char)
    ensures
        split_on(s, sep).len() >= 1,
    decreases s.len(),
{
    if s.len() > 0 {
        lemma_split_nonempty(s.drop_first(), sep);
    }
}

/// The views of a list of strings.
pub open spec fn string_views(v: Seq<String>) -> Seq<Seq<char>> {
    v.map_values(|s: String| s@)
}

/// `String::from_utf8`: it succeeds exactly when the bytes are well-formed
/// UTF-8, and the string then holds the characters they encode.
#[verifier::external_body]
pub(crate) fn string_from_utf8(bytes: Vec<u8>) -> (res: Option<String>)
    ensures
        res is Some <==> valid_utf8(bytes@),
        res matches Some(s) ==> s@ == decode_utf8(bytes@),
{
    String::from_utf8(bytes).ok()
}

/// `str::split` on `'/'`, each piece copied into a `String`: the pieces are
/// exactly the levels that `split_on` describes, in order.
#[verifier::external_body]
pub(crate) fn split_levels(s: &str) -> (res: Vec<String>)
    ensures
        string_views(res@) == split_on(s@, '/'),
{
    s.split('/').map(String::from).collect()
}

/// The bytes of `v` from `start` up to `end`.
pub fn copy_range(v: &Vec<u8>, start: usize, end: usize) -> (r: Vec<u8>)
    requires
        start <= end <= v.len(),
    ensures
        r@ == v@.subrange(start as int, end as int),
{
    let mut r: Vec<u8> = Vec::new();
    let mut k: usize = start;
    while k < end
        invariant
            start <= k <= end <= v.len(),
            r@ == v@.subrange(start as int, k as int),
        decreases end - k,
    {
        r.push(v[k]);
        k = k + 1;
    }
    r
}

} // verus!
