//! Stable stream names for unnamed registrations: a canonical byte encoding
//! of a filter, hashed and rendered as lowercase hexadecimal text.

use vstd::prelude::*;

use crate::ext::{sha256, sha256_of};
use crate::json::hex_char;
use crate::types::{Filter, FilterV, MAX_TOPICS};

verus! {

/// The canonical byte encoding of an optional word: a presence byte, then
/// the word's bytes when present.
pub open spec fn spec_canonical_opt(w: Option<Seq<u8>>) -> Seq<u8> {
    match w {
        Some(bytes) => seq![1u8] + bytes,
        None => seq![0u8],
    }
}

/// The canonical encodings of the topic patterns from index `i` on.
pub open spec fn spec_canonical_topics(ps: Seq<Option<Seq<u8>>>, i: int) -> Seq<u8>
    decreases ps.len() - i,
{
    if i < 0 || i >= ps.len() {
        Seq::empty()
    } else {
        spec_canonical_opt(ps[i]) + spec_canonical_topics(ps, i + 1)
    }
}

/// The canonical byte encoding of a filter: the encoded address pattern,
/// the number of topic patterns, then each encoded topic pattern in order.
pub open spec fn spec_canonical(f: FilterV) -> Seq<u8> {
    spec_canonical_opt(f.address_pattern) + seq![f.topic_patterns.len() as u8]
        + spec_canonical_topics(f.topic_patterns, 0)
}

/// Two lowercase hexadecimal digits for each byte, in order.
pub open spec fn spec_hex(b: Seq<u8>) -> Seq<char>
    decreases b.len(),
{
    if b.len() == 0 {
        Seq::empty()
    } else {
        spec_hex(b.drop_last()) + seq![
            hex_char((b.last() / 16) as nat),
            hex_char((b.last() % 16) as nat),
        ]
    }
}

/// Encodes a filter canonically.
pub fn canonical_bytes(f: &Filter) -> (r: Vec<u8>)
    requires
        f.wf(),
    ensures
        r@ == spec_canonical(f@),
{
    let mut out: Vec<u8> = Vec::new();
    match &f.address_pattern {
        Some(a) => {
            out.push(1u8);
            let bytes = a.as_bytes();
            let mut i: usize = 0;
            while i < bytes.len()
                invariant
                    i <= bytes@.len(),
                    out@ == seq![1u8] + bytes@.take(i as int),
                decreases bytes@.len() - i,
            {
                out.push(bytes[i]);
                proof {
                    assert(out@ =~= seq![1u8] + bytes@.take(i + 1));
                }
                i = i + 1;
            }
            proof {
                assert(bytes@.take(bytes@.len() as int) =~= bytes@);
                assert(out@ =~= spec_canonical_opt(f@.address_pattern));
            }
        },
        None => {
            out.push(0u8);
            proof {
                assert(out@ =~= spec_canonical_opt(f@.address_pattern));
            }
        },
    }
    let n = f.topic_patterns.len();
    proof {
        assert(n <= MAX_TOPICS);
        assert(f@.topic_patterns.len() == n);
    }
    out.push(n as u8);
    let ghost head = spec_canonical_opt(f@.address_pattern) + seq![f@.topic_patterns.len() as u8];
    proof {
        assert(out@ =~= head);
    }
    let mut i: usize = 0;
    while i < n
        invariant
            n == f.topic_patterns@.len(),
            f@.topic_patterns.len() == n,
            i <= n,
            out@ == head + spec_canonical_topics_prefix(f@.topic_patterns, i as int),
        decreases n - i,
    {
        proof {
            lemma_canonical_topics_prefix_snoc(f@.topic_patterns, i as int);
        }
        match &f.topic_patterns[i] {
            Some(t) => {
                out.push(1u8);
                let bytes = t.as_bytes();
                let ghost mid = out@;
                let mut j: usize = 0;
                while j < bytes.len()
                    invariant
                        j <= bytes@.len(),
                        out@ == mid + bytes@.take(j as int),
                    decreases bytes@.len() - j,
                {
                    out.push(bytes[j]);
                    proof {
                        assert(out@ =~= mid + bytes@.take(j + 1));
                    }
                    j = j + 1;
                }
                proof {
                    assert(bytes@.take(bytes@.len() as int) =~= bytes@);
                    assert(f@.topic_patterns[i as int] == Some(t@));
                    assert(out@ =~= head + spec_canonical_topics_prefix(f@.topic_patterns, i + 1));
                }
            },
            None => {
                out.push(0u8);
                proof {
                    assert(f@.topic_patterns[i as int] is None);
                    assert(out@ =~= head + spec_canonical_topics_prefix(f@.topic_patterns, i + 1));
                }
            },
        }
        i = i + 1;
    }
    proof {
        lemma_canonical_topics_prefix_all(f@.topic_patterns);
        assert(out@ =~= spec_canonical(f@));
    }
    out
}

/// The canonical encodings of the topic patterns before index `i`.
pub open spec fn spec_canonical_topics_prefix(ps: Seq<Option<Seq<u8>>>, i: int) -> Seq<u8>
    decreases i,
{
    if i <= 0 {
        Seq::empty()
    } else {
        spec_canonical_topics_prefix(ps, i - 1) + spec_canonical_opt(ps[i - 1])
    }
}

/// Extending the encoded prefix by one topic pattern.
proof fn lemma_canonical_topics_prefix_snoc(ps: Seq<Option<Seq<u8>>>, i: int)
    requires
        0 <= i,
    ensures
        spec_canonical_topics_prefix(ps, i + 1) == spec_canonical_topics_prefix(ps, i)
            + spec_canonical_opt(ps[i]),
{
}

/// The full prefix equals the suffix encoding from the start.
proof fn lemma_canonical_topics_prefix_all(ps: Seq<Option<Seq<u8>>>)
    ensures
        spec_canonical_topics_prefix(ps, ps.len() as int) == spec_canonical_topics(ps, 0),
{
    lemma_canonical_topics_split(ps, 0);
}

/// Prefix up to `i` plus suffix from `i` is the whole encoding.
proof fn lemma_canonical_topics_split(ps: Seq<Option<Seq<u8>>>, i: int)
    requires
        0 <= i <= ps.len(),
    ensures
        spec_canonical_topics_prefix(ps, ps.len() as int) == spec_canonical_topics_prefix(ps, i)
            + spec_canonical_topics(ps, i),
    decreases ps.len() - i,
{
    if i == ps.len() {
        assert(spec_canonical_topics(ps, i) =~= Seq::<u8>::empty());
        assert(spec_canonical_topics_prefix(ps, i) + Seq::<u8>::empty()
            =~= spec_canonical_topics_prefix(ps, i));
    } else {
        lemma_canonical_topics_split(ps, i + 1);
        lemma_canonical_topics_prefix_snoc(ps, i);
        assert(spec_canonical_topics_prefix(ps, i) + (spec_canonical_opt(ps[i])
            + spec_canonical_topics(ps, i + 1)) =~= (spec_canonical_topics_prefix(ps, i)
            + spec_canonical_opt(ps[i])) + spec_canonical_topics(ps, i + 1));
    }
}

/// The stable name an unnamed registration gets: the lowercase hexadecimal
/// digest of the filter's canonical encoding. Equal filters always get equal
/// names.
pub open spec fn spec_stream_id(f: FilterV) -> Seq<char> {
    spec_hex(sha256_of(spec_canonical(f)))
}

/// Derives the stable stream name of a filter.
pub fn stream_id(f: &Filter) -> (r: String)
    requires
        f.wf(),
    ensures
        r@ == spec_stream_id(f@),
{
    let canonical = canonical_bytes(f);
    let digest = sha256(&canonical);
    crate::ext::hex_encode(&digest)
}

} // verus!
