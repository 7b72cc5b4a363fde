use vstd::prelude::*;
use vstd::string::StringSliceAdditionalSpecFns;
use vstd::utf8::encode_utf8;
use vstd::utf8::is_ascii_chars_encode_utf8;

verus! {

/// Returns the first index at which `needle` occurs as a contiguous
/// subsequence of `haystack`, if any.
#[verifier::loop_isolation(false)]
pub fn find_subsequence(haystack: &[u8], needle: &[u8]) -> (r: Option<usize>)
    requires
        needle@.len() > 0,
    ensures
        match r {
            Some(i) => i + needle@.len() <= haystack@.len()
                && haystack@.subrange(i as int, i + needle@.len()) == needle@
                && forall|j: int| 0 <= j < i ==> #[trigger] haystack@.subrange(j, j + needle@.len()) != needle@,
            None => forall|j: int| 0 <= j && j + needle@.len() <= haystack@.len()
                ==> #[trigger] haystack@.subrange(j, j + needle@.len()) != needle@,
        },
{
    if needle.len() > haystack.len() {
        return None;
    }
    let mut i: usize = 0;
    while i <= haystack.len() - needle.len()
        invariant
            i <= haystack@.len() - needle@.len() + 1,
            forall|j: int| 0 <= j < i ==> #[trigger] haystack@.subrange(j, j + needle@.len()) != needle@,
        decreases haystack@.len() - i,
    {
        let mut k: usize = 0;
        let mut matches = true;
        proof {
            assert(haystack@.subrange(i as int, i as int) =~= needle@.subrange(0, 0));
        }
        while k < needle.len()
            invariant
                k <= needle@.len(),
                matches <==> haystack@.subrange(i as int, i + k as int) == needle@.subrange(0, k as int),
            decreases needle@.len() - k,
        {
            proof {
                assert(haystack@.subrange(i as int, i + k + 1) =~=
                    haystack@.subrange(i as int, i + k as int).push(haystack@[i + k]));
                assert(needle@.subrange(0, k + 1) =~=
                    needle@.subrange(0, k as int).push(needle@[k as int]));
                assert(haystack@.subrange(i as int, i + k + 1).drop_last() =~=
                    haystack@.subrange(i as int, i + k as int));
                assert(needle@.subrange(0, k + 1).drop_last() =~=
                    needle@.subrange(0, k as int));
            }
            if haystack[i + k] != needle[k] {
                matches = false;
                proof {
                    assert(haystack@.subrange(i as int, i + k + 1)[k as int] == haystack@[i + k]);
                    assert(needle@.subrange(0, k + 1)[k as int] == needle@[k as int]);
                }
            }
            k = k + 1;
        }
        proof {
            assert(needle@.subrange(0, needle@.len() as int) =~= needle@);
        }
        if matches {
            return Some(i);
        }
        i = i + 1;
    }
    None
}

/// The bytes of the opening tag that betrays a structured document tag.
pub open spec fn sdt_marker() -> Seq<u8> {
    encode_utf8("<w:sdt>"@)
}

/// Whether a part's bytes contain the opening tag of a structured document
/// tag. Parts without it are never parsed and pass through unchanged.
pub open spec fn contains_sdt(b: Seq<u8>) -> bool {
    exists|j: int| 0 <= j && j + sdt_marker().len() <= b.len()
        && #[trigger] b.subrange(j, j + sdt_marker().len()) == sdt_marker()
}

proof fn lemma_sdt_marker_nonempty()
    ensures
        sdt_marker().len() == 7,
{
    reveal_strlit("<w:sdt>");
    is_ascii_chars_encode_utf8("<w:sdt>"@);
}

/// Checks whether the text holds a structured document tag.
pub fn has_content_control(text: &[u8]) -> (r: bool)
    ensures
        r == contains_sdt(text@),
{
    let needle = "<w:sdt>".as_bytes();
    proof {
        lemma_sdt_marker_nonempty();
    }
    match find_subsequence(text, needle) {
        Some(i) => {
            proof {
                let ii = i as int;
                assert(0 <= ii && ii + sdt_marker().len() <= text@.len()
                    && text@.subrange(ii, ii + sdt_marker().len()) == sdt_marker());
            }
            true
        },
        None => false,
    }
}

} // verus!
