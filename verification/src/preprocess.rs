//! CSS input preprocessing: newline and NUL normalization.
//!
//! Before tokenization every CR LF pair, lone CR, and form feed becomes a
//! single LF, and every NUL byte becomes U+FFFD (the UTF-8 bytes
//! `EF BF BD`). The result therefore contains no CR, no form feed and no
//! NUL, which makes the function idempotent.

use vstd::prelude::*;

verus! {

/// The mathematical definition of preprocessing, one input byte at a time.
pub open spec fn preprocess_spec(s: Seq<u8>) -> Seq<u8>
    decreases s.len(),
{
    if s.len() == 0 {
        Seq::empty()
    } else if s[0] == 0x0Du8 {
        if s.len() >= 2 && s[1] == 0x0Au8 {
            seq![0x0Au8] + preprocess_spec(s.skip(2))
        } else {
            seq![0x0Au8] + preprocess_spec(s.skip(1))
        }
    } else if s[0] == 0x0Cu8 {
        seq![0x0Au8] + preprocess_spec(s.skip(1))
    } else if s[0] == 0x00u8 {
        seq![0xEFu8, 0xBFu8, 0xBDu8] + preprocess_spec(s.skip(1))
    } else {
        seq![s[0]] + preprocess_spec(s.skip(1))
    }
}

/// A byte sequence is normalized when it holds no CR, form feed or NUL.
pub open spec fn is_normalized(s: Seq<u8>) -> bool {
    forall|i: int| 0 <= i < s.len() ==> s[i] != 0x0Du8 && s[i] != 0x0Cu8 && s[i] != 0x00u8
}

/// Preprocessing grows the input by at most a factor of three
/// (a NUL becomes three bytes; everything else shrinks or is kept).
pub proof fn lemma_preprocess_len(s: Seq<u8>)
    ensures
        preprocess_spec(s).len() <= 3 * s.len(),
    decreases s.len(),
{
    if s.len() != 0 {
        if s[0] == 0x0Du8 && s.len() >= 2 && s[1] == 0x0Au8 {
            lemma_preprocess_len(s.skip(2));
        } else {
            lemma_preprocess_len(s.skip(1));
        }
    }
}

/// Every output of the preprocessor is normalized.
pub proof fn lemma_preprocess_normalized(s: Seq<u8>)
    ensures
        is_normalized(preprocess_spec(s)),
    decreases s.len(),
{
    if s.len() != 0 {
        if s[0] == 0x0Du8 && s.len() >= 2 && s[1] == 0x0Au8 {
            lemma_preprocess_normalized(s.skip(2));
        } else {
            lemma_preprocess_normalized(s.skip(1));
        }
    }
}

/// A normalized sequence is a fixed point of the preprocessor.
pub proof fn lemma_preprocess_fixpoint(s: Seq<u8>)
    requires
        is_normalized(s),
    ensures
        preprocess_spec(s) == s,
    decreases s.len(),
{
    if s.len() != 0 {
        lemma_preprocess_fixpoint(s.skip(1));
        assert(preprocess_spec(s) =~= s);
    }
}

/// Preprocessing twice is the same as preprocessing once.
pub proof fn lemma_preprocess_idempotent(s: Seq<u8>)
    ensures
        preprocess_spec(preprocess_spec(s)) == preprocess_spec(s),
{
    lemma_preprocess_normalized(s);
    lemma_preprocess_fixpoint(preprocess_spec(s));
}

/// Normalize a raw byte text for the tokenizer: CR LF, CR and form feed
/// become LF, NUL becomes the UTF-8 encoding of U+FFFD.
pub fn preprocess(input: &[u8]) -> (out: Vec<u8>)
    ensures
        out@ == preprocess_spec(input@),
{
    let mut out: Vec<u8> = Vec::new();
    let mut i: usize = 0;
    let len = input.len();
    proof {
        assert(input@.skip(0) =~= input@);
        assert(out@ + preprocess_spec(input@) =~= preprocess_spec(input@));
    }
    while i < len
        invariant
            0 <= i <= len,
            len == input@.len(),
            preprocess_spec(input@) == out@ + preprocess_spec(input@.skip(i as int)),
        decreases len - i,
    {
        let b = input[i];
        if b == 0x0Du8 {
            out.push(0x0Au8);
            if i + 1 < len && input[i + 1] == 0x0Au8 {
                proof {
                    assert(input@.skip(i as int).skip(2) =~= input@.skip(i + 2));
                }
                i = i + 2;
            } else {
                proof {
                    assert(input@.skip(i as int).skip(1) =~= input@.skip(i + 1));
                }
                i = i + 1;
            }
        } else {
            if b == 0x0Cu8 {
                out.push(0x0Au8);
            } else if b == 0x00u8 {
                out.push(0xEFu8);
                out.push(0xBFu8);
                out.push(0xBDu8);
            } else {
                out.push(b);
            }
            proof {
                assert(input@.skip(i as int).skip(1) =~= input@.skip(i + 1));
            }
            i = i + 1;
        }
    }
    proof {
        assert(input@.skip(len as int) =~= Seq::<u8>::empty());
        assert(out@ =~= out@ + preprocess_spec(input@.skip(len as int)));
    }
    out
}

} // verus!
