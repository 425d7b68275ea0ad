//! Content negotiation of the HTTP routes: which requests and answers use the
//! binary wincode encoding rather than JSON.
use vstd::prelude::*;

verus! {

/// A header value can be read as text: every byte is visible ASCII or a tab.
pub open spec fn visible_ascii(v: Seq<u8>) -> bool {
    forall|i: int| 0 <= i < v.len() ==> (32 <= #[trigger] v[i] < 127 || v[i] == 9)
}

/// `needle` occurs in `hay` as a contiguous run.
pub open spec fn contains_bytes(hay: Seq<u8>, needle: Seq<u8>) -> bool {
    exists|i: int| 0 <= i && i + needle.len() <= hay.len() && #[trigger] hay.subrange(i, i + needle.len()) == needle
}

/// The bytes of `application/octet-stream`.
pub open spec fn octet_stream() -> Seq<u8> {
    // ASCII codes of the characters.
    seq![97u8, 112, 112, 108, 105, 99, 97, 116, 105, 111, 110, 47, 111, 99, 116, 101, 116, 45, 115, 116, 114, 101, 97, 109]
}

/// The bytes of `wincode`.
pub open spec fn wincode() -> Seq<u8> {
    seq![119u8, 105, 110, 99, 111, 100, 101]
}

/// A header value names the wincode encoding: it is readable text that
/// contains `application/octet-stream` or `wincode`.
pub open spec fn names_wincode(v: Seq<u8>) -> bool {
    visible_ascii(v) && (contains_bytes(v, octet_stream()) || contains_bytes(v, wincode()))
}

fn is_visible_ascii(v: &[u8]) -> (r: bool)
    ensures
        r == visible_ascii(v@),
{
    let mut i: usize = 0;
    while i < v.len()
        invariant
            0 <= i <= v@.len(),
            forall|j: int| 0 <= j < i ==> (32 <= #[trigger] v@[j] < 127 || v@[j] == 9),
        decreases v@.len() - i,
    {
        let b = v[i];
        if !((b >= 32 && b < 127) || b == 9) {
            return false;
        }
        i = i + 1;
    }
    true
}

fn occurs_at(hay: &[u8], needle: &[u8], start: usize) -> (r: bool)
    requires
        start + needle@.len() <= hay@.len(),
    ensures
        r == (hay@.subrange(start as int, start + needle@.len()) == needle@),
{
    let hl = hay.len();
    let mut j: usize = 0;
    while j < needle.len()
        invariant
            0 <= j <= needle@.len(),
            start + needle@.len() <= hay@.len(),
            hl == hay@.len(),
            forall|k: int| 0 <= k < j ==> hay@[start + k] == needle@[k],
        decreases needle@.len() - j,
    {
        if hay[start + j] != needle[j] {
            proof {
                assert(hay@.subrange(start as int, start + needle@.len())[j as int] != needle@[j as int]);
            }
            return false;
        }
        j = j + 1;
    }
    proof {
        assert(hay@.subrange(start as int, start + needle@.len()) =~= needle@);
    }
    true
}

fn contains(hay: &[u8], needle: &[u8]) -> (r: bool)
    ensures
        r == contains_bytes(hay@, needle@),
{
    if needle.len() > hay.len() {
        return false;
    }
    if needle.len() == 0 {
        proof {
            assert(hay@.subrange(0int, 0int + needle@.len()) =~= needle@);
        }
        return true;
    }
    let count = hay.len() - needle.len() + 1;
    let mut i: usize = 0;
    while i < count
        invariant
            count + needle@.len() == hay@.len() + 1,
            0 <= i <= count,
            forall|k: int| 0 <= k < i ==> #[trigger] hay@.subrange(k, k + needle@.len()) != needle@,
        decreases count - i,
    {
        if occurs_at(hay, needle, i) {
            return true;
        }
        i = i + 1;
    }
    false
}

/// Whether a request or answer whose `content-type` (or `accept`) header is
/// `value` uses wincode; a missing header means JSON.
pub fn header_names_wincode(value: Option<&[u8]>) -> (r: bool)
    ensures
        r == (value is Some && names_wincode(value->0@)),
{
    match value {
        None => false,
        Some(v) => {
            // `application/octet-stream` and `wincode` in ASCII.
            let octet: [u8; 24] = [97u8, 112, 112, 108, 105, 99, 97, 116, 105, 111, 110, 47, 111, 99, 116, 101, 116, 45, 115, 116, 114, 101, 97, 109];
            let win: [u8; 7] = [119u8, 105, 110, 99, 111, 100, 101];
            proof {
                assert(octet@ =~= octet_stream());
                assert(win@ =~= wincode());
            }
            is_visible_ascii(v) && (contains(v, octet.as_slice()) || contains(v, win.as_slice()))
        },
    }
}

} // verus!
