//! The alphabet of the codec: an ordered sequence of characters in which the
//! position of a character is the number it stands for.

use std::collections::HashSet;
use vstd::prelude::*;

verus! {

/// Validation of, and lookup in, a caller-supplied alphabet.
pub struct Charset;

impl Charset {
    /// A charset is safe when no character stands at two of its positions.
    pub open spec fn is_safe(charset: Seq<char>) -> bool {
        forall|i: int, j: int| 0 <= i < j < charset.len() ==> charset[i] != charset[j]
    }

    /// `i` is the first position of `charset` that holds `c`.
    pub open spec fn is_position(charset: Seq<char>, c: char, i: int) -> bool {
        &&& 0 <= i < charset.len()
        &&& charset[i] == c
        &&& forall|j: int| 0 <= j < i ==> charset[j] != c
    }

    /// The first position of `c` in `charset`, or `None` where `charset`
    /// does not hold `c`.
    pub open spec fn spec_position(charset: Seq<char>, c: char) -> Option<int> {
        if charset.contains(c) {
            Some(choose|i: int| Self::is_position(charset, c, i))
        } else {
            None
        }
    }

    /// A first position is the only one: whatever index meets
    /// `is_position` is the one that `spec_position` gives.
    pub proof fn lemma_position_unique(charset: Seq<char>, c: char, i: int)
        requires
            Self::is_position(charset, c, i),
        ensures
            Self::spec_position(charset, c) == Some(i),
    {
        assert(charset.contains(c));
        let k = choose|k: int| Self::is_position(charset, c, k);
        assert(k == i) by {
            if k < i {
                assert(charset[k] != c);
            } else if i < k {
                assert(charset[i] != c);
            }
        }
    }

    /// A character that the charset holds has a first position.
    pub proof fn lemma_position_exists(charset: Seq<char>, c: char)
        requires
            charset.contains(c),
        ensures
            Self::is_position(charset, c, Self::spec_position(charset, c)->Some_0),
    {
        let n = choose|n: int| 0 <= n < charset.len() && charset[n] == c;
        Self::lemma_first_below(charset, c, n);
    }

    /// Below any position that holds `c` or at it lies the first one.
    proof fn lemma_first_below(charset: Seq<char>, c: char, n: int)
        requires
            0 <= n < charset.len(),
            charset[n] == c,
        ensures
            exists|i: int| Self::is_position(charset, c, i),
        decreases n,
    {
        if exists|j: int| 0 <= j < n && charset[j] == c {
            let j = choose|j: int| 0 <= j < n && charset[j] == c;
            Self::lemma_first_below(charset, c, j);
        } else {
            assert(Self::is_position(charset, c, n));
        }
    }

    /// In a safe charset every position is the first, and only, position
    /// of the character that stands there.
    pub proof fn lemma_safe_position(charset: Seq<char>, i: int)
        requires
            Self::is_safe(charset),
            0 <= i < charset.len(),
        ensures
            Self::spec_position(charset, charset[i]) == Some(i),
    {
        assert(Self::is_position(charset, charset[i], i));
        Self::lemma_position_unique(charset, charset[i], i);
    }

    /// Judges whether `charset` is safe to encode and decode with.
    pub fn judge_charset_safe(charset: &str) -> (safe: bool)
        ensures
            safe == Self::is_safe(charset@),
    {
        let mut seen: HashSet<u32> = HashSet::new();
        for c in it: charset.chars()
            invariant
                it.seq() == charset@,
                Self::is_safe(charset@.take(it.index() as int)),
                forall|k: int|
                    0 <= k < it.index() ==> seen@.contains(#[trigger] charset@[k] as u32),
                forall|x: u32|
                    seen@.contains(x) ==> exists|k: int|
                        0 <= k < it.index() && #[trigger] charset@[k] as u32 == x,
        {
            let ghost n = it.index() as int;
            if !seen.insert(c as u32) {
                proof {
                    let k = choose|k: int| 0 <= k < n && #[trigger] charset@[k] as u32 == c as u32;
                    vstd::utf8::char_u32_cast(charset@[k], c as u32);
                    vstd::utf8::char_u32_cast(charset@[n], c as u32);
                    assert(charset@[k] == charset@[n]);
                }
                return false;
            }
            proof {
                let head = charset@.take(n);
                let next = charset@.take(n + 1);
                assert forall|i: int, j: int| 0 <= i < j < next.len() implies next[i]
                    != next[j] by {
                    if j < n {
                        assert(head[i] != head[j]);
                    } else {
                        assert(seen@.contains(charset@[i] as u32));
                    }
                }
            }
        }
        assert(charset@.take(charset@.len() as int) =~= charset@);
        true
    }

    /// Reads the characters of `charset` into a vector, in order.
    pub fn symbols(charset: &str) -> (v: Vec<char>)
        ensures
            v@ == charset@,
    {
        let mut v: Vec<char> = Vec::new();
        for c in it: charset.chars()
            invariant
                it.seq() == charset@,
                v@ == charset@.take(it.index() as int),
        {
            v.push(c);
        }
        v
    }

    /// Looks `c` up in `symbols` by linear search from the front.
    pub fn position(symbols: &Vec<char>, c: char) -> (found: Option<usize>)
        ensures
            match found {
                Some(i) => Self::spec_position(symbols@, c) == Some(i as int),
                None => Self::spec_position(symbols@, c).is_none(),
            },
    {
        let mut i: usize = 0;
        while i < symbols.len()
            invariant
                i <= symbols.len(),
                forall|j: int| 0 <= j < i ==> symbols@[j] != c,
            decreases symbols.len() - i,
        {
            if symbols[i] == c {
                proof {
                    Self::lemma_position_unique(symbols@, c, i as int);
                }
                return Some(i);
            }
            i += 1;
        }
        None
    }
}

} // verus!
