//! Removal of comment lines before a document is tokenized.
//!
//! A comment line is a line whose first byte after zero or more leading
//! spaces is `#`. Every byte of such a line, together with the newline that
//! ends the line before it, is overwritten with a space; the newline that ends
//! the comment line itself is kept. A run of comment lines therefore turns into
//! one run of spaces that trails the last line of data above it:
//!
//! ```text
//! name: Hamza\n  # note\nage: 21
//! name: Hamza          \nage: 21
//! ```
use vstd::prelude::*;

verus! {

/// The first index of the line that holds position `p`.
pub open spec fn line_start(b: Seq<u8>, p: int) -> int
    decreases p,
{
    if p <= 0 {
        0
    } else if b[p - 1] == 10u8 {
        p
    } else {
        line_start(b, p - 1)
    }
}

/// The first index at or after `k` that does not hold a space (`b.len()` if none).
pub open spec fn first_non_space(b: Seq<u8>, k: int) -> int
    decreases b.len() - k,
{
    if k >= b.len() {
        b.len() as int
    } else if b[k] == 32u8 {
        first_non_space(b, k + 1)
    } else {
        k
    }
}

/// The line starting at `s` is a comment line.
pub open spec fn is_comment_line(b: Seq<u8>, s: int) -> bool {
    let f = first_non_space(b, s);
    0 <= s && f < b.len() && b[f] == 35u8
}

/// Position `p` is blanked: it lies on a comment line, or it is the newline
/// that ends the line before a comment line.
pub open spec fn is_blanked(b: Seq<u8>, p: int) -> bool {
    if b[p] == 10u8 {
        is_comment_line(b, p + 1)
    } else {
        is_comment_line(b, line_start(b, p))
    }
}

/// The document with every comment byte replaced by a space.
pub open spec fn strip_comments(b: Seq<u8>) -> Seq<u8> {
    Seq::new(b.len(), |p: int| if is_blanked(b, p) { 32u8 } else { b[p] })
}

/// Removes comment lines from a document of a given length, in place.
pub struct CommentStripper {
    len: usize,
}

proof fn lemma_first_non_space_bounds(b: Seq<u8>, k: int)
    requires
        0 <= k <= b.len(),
    ensures
        k <= first_non_space(b, k) <= b.len(),
        forall|j: int| k <= j < first_non_space(b, k) ==> b[j] == 32u8,
        first_non_space(b, k) < b.len() ==> b[first_non_space(b, k)] != 32u8,
    decreases b.len() - k,
{
    if k < b.len() && b[k] == 32u8 {
        lemma_first_non_space_bounds(b, k + 1);
    }
}

proof fn lemma_line_start_within(b: Seq<u8>, s: int, p: int)
    requires
        0 <= s <= p < b.len(),
        s == 0 || b[s - 1] == 10u8,
        forall|j: int| s <= j < p ==> b[j] != 10u8,
    ensures
        line_start(b, p) == s,
    decreases p - s,
{
    if p > s {
        lemma_line_start_within(b, s, p - 1);
    }
}

/// Every line whose first byte after its leading spaces is `#` is blanked,
/// whatever follows the `#`: each of its bytes up to its newline, and the
/// newline that ends the line above it, become spaces. The line starts at
/// `s`, its `#` stands at `k`, and `p` is any position on it.
pub proof fn law_comment_line_blanked(b: Seq<u8>, s: int, k: int, p: int)
    requires
        0 <= s <= k < b.len(),
        s == 0 || b[s - 1] == 10u8,
        forall|j: int| s <= j < k ==> b[j] == 32u8,
        b[k] == 35u8,
        s <= p < b.len(),
        forall|j: int| s <= j <= p ==> b[j] != 10u8,
    ensures
        strip_comments(b).len() == b.len(),
        strip_comments(b)[p] == 32u8,
        s > 0 ==> strip_comments(b)[s - 1] == 32u8,
{
    lemma_first_non_space_bounds(b, s);
    assert(first_non_space(b, s) == k) by {
        if first_non_space(b, s) < k {
            assert(b[first_non_space(b, s)] == 32u8);
        }
        if first_non_space(b, s) > k {
            assert(b[k] == 32u8);
        }
    }
    assert(is_comment_line(b, s));
    lemma_line_start_within(b, s, p);
    assert(is_blanked(b, p));
    if s > 0 {
        assert(is_blanked(b, s - 1));
    }
}

/// A byte on a line whose first byte after its leading spaces is not `#`
/// is kept, unless it is the newline that ends that line (which goes with
/// the line below when that one is a comment). The line starts at `s`.
pub proof fn law_data_line_kept(b: Seq<u8>, s: int, p: int)
    requires
        0 <= s <= p < b.len(),
        s == 0 || b[s - 1] == 10u8,
        forall|j: int| s <= j <= p ==> b[j] != 10u8,
        forall|k: int| s <= k < b.len() && b[k] != 32u8 && (forall|j: int| s <= j < k ==> b[j] == 32u8) ==> b[k] != 35u8,
    ensures
        strip_comments(b)[p] == b[p],
{
    lemma_first_non_space_bounds(b, s);
    lemma_line_start_within(b, s, p);
    assert(!is_comment_line(b, s));
}

impl CommentStripper {
    /// The number of bytes this stripper works on.
    pub closed spec fn spec_len(&self) -> usize {
        self.len
    }

    /// A stripper for a document of `len` bytes.
    pub fn new(len: usize) -> (s: CommentStripper)
        ensures
            s.spec_len() == len,
    {
        CommentStripper { len }
    }

    /// Blanks every comment byte of the document.
    pub fn strip(&self, input: &mut [u8])
        requires
            old(input)@.len() == self.spec_len(),
        ensures
            final(input)@ == strip_comments(old(input)@),
    {
        let ghost b = input@;
        let n = input.len();
        let mut s: usize = 0;
        while s < n
            invariant
                n == b.len(),
                input@.len() == n,
                s <= n,
                s < n ==> (s == 0 || b[s - 1] == 10u8),
                s < n ==> forall|p: int| 0 <= p < s - 1 ==> input@[p] == strip_comments(b)[p],
                s == n ==> forall|p: int| 0 <= p < n ==> input@[p] == strip_comments(b)[p],
                forall|p: int| s <= p < n ==> input@[p] == b[p],
                s < n && s > 0 ==> input@[s - 1] == b[s - 1],
            decreases n - s,
        {
            // find the first byte that is not a space
            let mut f = s;
            while f < n && input[f] == 32u8
                invariant
                    s <= f <= n,
                    n == b.len(),
                    input@.len() == n,
                    forall|p: int| s <= p < n ==> input@[p] == b[p],
                    first_non_space(b, s as int) == first_non_space(b, f as int),
                decreases n - f,
            {
                f = f + 1;
            }
            proof {
                lemma_first_non_space_bounds(b, s as int);
            }
            let comment = f < n && input[f] == 35u8;
            // find the end of the line
            let mut e = s;
            while e < n && input[e] != 10u8
                invariant
                    s <= e <= n,
                    n == b.len(),
                    input@.len() == n,
                    forall|p: int| s <= p < n ==> input@[p] == b[p],
                    forall|j: int| s <= j < e ==> b[j] != 10u8,
                decreases n - e,
            {
                e = e + 1;
            }
            proof {
                assert forall|p: int| s <= p < e implies line_start(b, p) == s by {
                    lemma_line_start_within(b, s as int, p);
                }
                assert(comment == is_comment_line(b, s as int));
            }
            if comment {
                if s > 0 {
                    input[s - 1] = 32u8;
                }
                let mut k = s;
                while k < e
                    invariant
                        s <= k <= e <= n,
                        n == b.len(),
                        input@.len() == n,
                        forall|p: int| s <= p < k ==> input@[p] == 32u8,
                        forall|p: int| k <= p < n ==> input@[p] == b[p],
                        forall|p: int| 0 <= p < s - 1 ==> input@[p] == strip_comments(b)[p],
                        s > 0 ==> input@[s - 1] == 32u8,
                    decreases e - k,
                {
                    input[k] = 32u8;
                    k = k + 1;
                }
            }
            proof {
                assert forall|p: int| 0 <= p < e implies input@[p] == strip_comments(b)[p] by {
                    if p == s - 1 {
                        assert(b[p] == 10u8);
                    } else if p >= s {
                        assert(line_start(b, p) == s);
                        assert(b[p] != 10u8);
                    }
                }
            }
            if e == n {
                s = n;
            } else {
                s = e + 1;
                proof {
                    if s == n {
                        assert forall|p: int| 0 <= p < n implies input@[p] == strip_comments(b)[p] by {
                            if p == e {
                                // the last newline is followed by no line, so it is never blanked
                                assert(first_non_space(b, n as int) == n);
                            }
                        }
                    }
                }
            }
        }
        proof {
            assert(input@ =~= strip_comments(b));
        }
    }
}

} // verus!
