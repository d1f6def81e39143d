//! The byte form of an update link's tag: `<content id>:<predecessor>`.
use vstd::prelude::*;
use crate::types::{EngineError, ErrorKind};

verus! {

/// The separator between the two parts of an update tag.
pub const TAG_SEPARATOR: u8 = 58;

/// The tag that declares `prev` as the predecessor in content `content_id`.
pub open spec fn update_tag_bytes(content_id: Seq<u8>, prev: Seq<u8>) -> Seq<u8> {
    content_id + seq![TAG_SEPARATOR] + prev
}

/// The tag of an update link, from the text forms of the content id and of
/// the predecessor.
pub fn encode_update_tag(content_id: &Vec<u8>, prev: &Vec<u8>) -> (r: Vec<u8>)
    ensures
        r@ == update_tag_bytes(content_id@, prev@),
{
    let mut r: Vec<u8> = Vec::new();
    let mut i: usize = 0;
    while i < content_id.len()
        invariant
            0 <= i <= content_id@.len(),
            r@ == content_id@.subrange(0, i as int),
        decreases content_id.len() - i,
    {
        r.push(content_id[i]);
        i = i + 1;
        proof {
            assert(r@ =~= content_id@.subrange(0, i as int));
        }
    }
    r.push(TAG_SEPARATOR);
    let ghost head = r@;
    let mut k: usize = 0;
    while k < prev.len()
        invariant
            0 <= k <= prev@.len(),
            r@ == head + prev@.subrange(0, k as int),
        decreases prev.len() - k,
    {
        r.push(prev[k]);
        k = k + 1;
        proof {
            assert(r@ =~= head + prev@.subrange(0, k as int));
        }
    }
    proof {
        assert(content_id@.subrange(0, content_id@.len() as int) == content_id@);
        assert(prev@.subrange(0, prev@.len() as int) == prev@);
        assert(r@ =~= update_tag_bytes(content_id@, prev@));
    }
    r
}

/// Splits an update tag at its first separator into the content id and the
/// predecessor; a tag without a separator is malformed.
pub fn decode_update_tag(tag: &Vec<u8>) -> (r: Result<(Vec<u8>, Vec<u8>), EngineError>)
    ensures
        r matches Ok(parts) ==> tag@ == update_tag_bytes(parts.0@, parts.1@) && !parts.0@.contains(TAG_SEPARATOR),
        r is Err <==> !tag@.contains(TAG_SEPARATOR),
        r matches Err(e) ==> e.kind == ErrorKind::Malformed,
{
    let mut i: usize = 0;
    while i < tag.len()
        invariant
            0 <= i <= tag@.len(),
            forall|j: int| 0 <= j < i ==> tag@[j] != TAG_SEPARATOR,
        decreases tag.len() - i,
    {
        if tag[i] == TAG_SEPARATOR {
            let mut a: Vec<u8> = Vec::new();
            let mut k: usize = 0;
            while k < i
                invariant
                    0 <= k <= i < tag@.len(),
                    a@ == tag@.subrange(0, k as int),
                decreases i - k,
            {
                a.push(tag[k]);
                k = k + 1;
                proof {
                    assert(a@ =~= tag@.subrange(0, k as int));
                }
            }
            let mut b: Vec<u8> = Vec::new();
            let mut m: usize = i + 1;
            while m < tag.len()
                invariant
                    i + 1 <= m <= tag@.len(),
                    b@ == tag@.subrange(i + 1, m as int),
                decreases tag.len() - m,
            {
                b.push(tag[m]);
                m = m + 1;
                proof {
                    assert(b@ =~= tag@.subrange(i + 1, m as int));
                }
            }
            proof {
                assert(tag@ =~= update_tag_bytes(a@, b@));
                assert(!a@.contains(TAG_SEPARATOR)) by {
                    if a@.contains(TAG_SEPARATOR) {
                        let j = choose|j: int| 0 <= j < a@.len() && a@[j] == TAG_SEPARATOR;
                        assert(tag@[j] == TAG_SEPARATOR);
                    }
                }
                assert(tag@[i as int] == TAG_SEPARATOR);
            }
            return Ok((a, b));
        }
        i = i + 1;
    }
    Err(EngineError { kind: ErrorKind::Malformed, message: "Update tag has no ':' separator".to_owned() })
}

/// A tag made from a content id without a separator splits back into that
/// content id and that predecessor.
pub proof fn lemma_update_tag_round_trip(content_id: Seq<u8>, prev: Seq<u8>, a: Seq<u8>, b: Seq<u8>)
    requires
        !content_id.contains(TAG_SEPARATOR),
        !a.contains(TAG_SEPARATOR),
        update_tag_bytes(a, b) == update_tag_bytes(content_id, prev),
    ensures
        a == content_id,
        b == prev,
{
    let t = update_tag_bytes(content_id, prev);
    assert(t[content_id.len() as int] == TAG_SEPARATOR);
    assert(t[a.len() as int] == TAG_SEPARATOR);
    if a.len() < content_id.len() {
        assert(content_id[a.len() as int] == t[a.len() as int]);
    } else if a.len() > content_id.len() {
        assert(a[content_id.len() as int] == t[content_id.len() as int]);
    }
    assert(a =~= t.subrange(0, a.len() as int));
    assert(content_id =~= t.subrange(0, content_id.len() as int));
    assert(b =~= t.subrange(a.len() as int + 1, t.len() as int));
    assert(prev =~= t.subrange(content_id.len() as int + 1, t.len() as int));
}

} // verus!
