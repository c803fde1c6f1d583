//! Content identity, compatible with the remote store's blob convention:
//! text content (no null byte in the first 8 KiB) has its line endings
//! normalized to LF, then `"blob " + decimal length + NUL` is prepended and
//! the whole is digested with SHA-1, hex-encoded in lowercase.

use vstd::prelude::*;
use vstd::slice::slice_to_vec;

verus! {

/// Length of the prefix inspected by the text/binary classification.
pub open spec fn text_check_len(content: Seq<u8>) -> int {
    if content.len() < 8192 {
        content.len() as int
    } else {
        8192
    }
}

/// Content counts as text when no null byte appears in the first 8 KiB.
pub open spec fn is_text_spec(content: Seq<u8>) -> bool {
    forall|j: int| 0 <= j < text_check_len(content) ==> content[j] != 0u8
}

/// Check if content is likely a text file (no null bytes in first 8KB).
pub fn is_text_content(content: &[u8]) -> (r: bool)
    ensures
        r == is_text_spec(content@),
{
    let check_len = if content.len() < 8192 {
        content.len()
    } else {
        8192
    };
    let mut i: usize = 0;
    while i < check_len
        invariant
            check_len == text_check_len(content@),
            check_len <= content@.len(),
            0 <= i <= check_len,
            forall|j: int| 0 <= j < i ==> content@[j] != 0u8,
        decreases check_len - i,
    {
        if content[i] == 0 {
            return false;
        }
        i += 1;
    }
    true
}

/// Line-ending normalization: every CRLF and every standalone CR becomes LF.
pub open spec fn normalize_spec(s: Seq<u8>) -> Seq<u8>
    decreases s.len(),
{
    if s.len() == 0 {
        Seq::empty()
    } else if s[0] == 13u8 && s.len() >= 2 && s[1] == 10u8 {
        seq![10u8] + normalize_spec(s.skip(2))
    } else if s[0] == 13u8 {
        seq![10u8] + normalize_spec(s.skip(1))
    } else {
        seq![s[0]] + normalize_spec(s.skip(1))
    }
}

/// Normalize line endings: CRLF -> LF, standalone CR -> LF.
pub fn normalize_line_endings(content: Vec<u8>) -> (r: Vec<u8>)
    ensures
        r@ == normalize_spec(content@),
{
    let n = content.len();
    let mut normalized: Vec<u8> = Vec::new();
    let mut i: usize = 0;
    proof {
        assert(content@.skip(0) =~= content@);
        assert(normalized@ + normalize_spec(content@) =~= normalize_spec(content@));
    }
    while i < n
        invariant
            n == content@.len(),
            i <= n,
            normalize_spec(content@) == normalized@ + normalize_spec(content@.skip(i as int)),
        decreases n - i,
    {
        proof {
            assert(content@.skip(i as int)[0] == content@[i as int]);
        }
        if content[i] == 13 {
            if i + 1 < n && content[i + 1] == 10 {
                proof {
                    assert(content@.skip(i as int)[1] == content@[i + 1]);
                    assert(content@.skip(i as int).skip(2) =~= content@.skip(i + 2));
                }
                normalized.push(10);
                i += 2;
            } else {
                proof {
                    if i + 1 < n {
                        assert(content@.skip(i as int)[1] == content@[i + 1]);
                    }
                    assert(content@.skip(i as int).skip(1) =~= content@.skip(i + 1));
                }
                normalized.push(10);
                i += 1;
            }
        } else {
            proof {
                assert(content@.skip(i as int).skip(1) =~= content@.skip(i + 1));
            }
            normalized.push(content[i]);
            i += 1;
        }
    }
    proof {
        assert(content@.skip(n as int) =~= Seq::<u8>::empty());
        assert(normalize_spec(content@) =~= normalized@);
    }
    normalized
}

/// Normalization distributes over concatenation as long as the first part
/// does not end in CR (a CR at the seam could pair with a following LF).
pub proof fn lemma_normalize_concat(a: Seq<u8>, t: Seq<u8>)
    requires
        a.len() == 0 || a[a.len() - 1] != 13u8,
    ensures
        normalize_spec(a + t) == normalize_spec(a) + normalize_spec(t),
    decreases a.len(),
{
    if a.len() == 0 {
        assert(a + t =~= t);
        assert(normalize_spec(a) + normalize_spec(t) =~= normalize_spec(t));
    } else {
        let s = a + t;
        assert(s[0] == a[0]);
        if a[0] == 13u8 && a.len() >= 2 && a[1] == 10u8 {
            assert(s.skip(2) =~= a.skip(2) + t);
            if a.len() > 2 {
                assert(a.skip(2)[a.len() - 3] == a[a.len() - 1]);
            }
            lemma_normalize_concat(a.skip(2), t);
        } else if a[0] == 13u8 {
            assert(a.len() >= 2);
            assert(s.len() >= 2 && s[1] == a[1] && s[1] != 10u8);
            assert(s.skip(1) =~= a.skip(1) + t);
            assert(a.skip(1)[a.len() - 2] == a[a.len() - 1]);
            lemma_normalize_concat(a.skip(1), t);
        } else {
            assert(s.skip(1) =~= a.skip(1) + t);
            if a.len() > 1 {
                assert(a.skip(1)[a.len() - 2] == a[a.len() - 1]);
            }
            lemma_normalize_concat(a.skip(1), t);
        }
        assert(normalize_spec(a + t) =~= normalize_spec(a) + normalize_spec(t));
    }
}

/// Law: substituting a CRLF line break with LF leaves the normalized bytes
/// unchanged, as long as the byte before the break is not itself a CR (a
/// preceding standalone CR would pair with the substituted LF).
pub proof fn lemma_crlf_substitution(s: Seq<u8>, i: int)
    requires
        0 <= i,
        i + 1 < s.len(),
        s[i] == 13u8,
        s[i + 1] == 10u8,
        i == 0 || s[i - 1] != 13u8,
    ensures
        normalize_spec(s.take(i) + seq![10u8] + s.skip(i + 2)) == normalize_spec(s),
{
    let a = s.take(i);
    let c = s.skip(i + 2);
    assert(s =~= a + (seq![13u8, 10u8] + c));
    assert(s.take(i) + seq![10u8] + s.skip(i + 2) =~= a + (seq![10u8] + c));
    if i > 0 {
        assert(a[a.len() - 1] == s[i - 1]);
    }
    lemma_normalize_concat(a, seq![13u8, 10u8] + c);
    lemma_normalize_concat(a, seq![10u8] + c);
    assert((seq![13u8, 10u8] + c).skip(2) =~= c);
    assert((seq![10u8] + c).skip(1) =~= c);
    assert(normalize_spec(seq![13u8, 10u8] + c) == seq![10u8] + normalize_spec(c));
    assert(normalize_spec(seq![10u8] + c) == seq![10u8] + normalize_spec(c));
}

/// Law: substituting a standalone CR line break with LF leaves the
/// normalized bytes unchanged, under the same no-CR-before condition.
pub proof fn lemma_cr_substitution(s: Seq<u8>, i: int)
    requires
        0 <= i < s.len(),
        s[i] == 13u8,
        i + 1 == s.len() || s[i + 1] != 10u8,
        i == 0 || s[i - 1] != 13u8,
    ensures
        normalize_spec(s.update(i, 10u8)) == normalize_spec(s),
{
    let a = s.take(i);
    let c = s.skip(i + 1);
    assert(s =~= a + (seq![13u8] + c));
    assert(s.update(i, 10u8) =~= a + (seq![10u8] + c));
    if i > 0 {
        assert(a[a.len() - 1] == s[i - 1]);
    }
    lemma_normalize_concat(a, seq![13u8] + c);
    lemma_normalize_concat(a, seq![10u8] + c);
    assert((seq![13u8] + c).skip(1) =~= c);
    assert((seq![10u8] + c).skip(1) =~= c);
    if c.len() > 0 {
        assert((seq![13u8] + c)[1] == s[i + 1]);
    }
    assert(normalize_spec(seq![13u8] + c) == seq![10u8] + normalize_spec(c));
    assert(normalize_spec(seq![10u8] + c) == seq![10u8] + normalize_spec(c));
}

/// Decimal digits (ASCII) of a number, most significant first.
pub open spec fn dec_digits(n: nat) -> Seq<u8>
    decreases n,
{
    if n < 10 {
        seq![(48 + n) as u8]
    } else {
        dec_digits(n / 10) + seq![(48 + n % 10) as u8]
    }
}

/// The blob header: `"blob "`, the decimal byte length, and a NUL.
pub open spec fn header_spec(len: nat) -> Seq<u8> {
    seq![98u8, 108u8, 111u8, 98u8, 32u8] + dec_digits(len) + seq![0u8]
}

/// What is digested: the header, then the (possibly normalized) content.
pub open spec fn effective_content(content: Seq<u8>) -> Seq<u8> {
    if is_text_spec(content) {
        normalize_spec(content)
    } else {
        content
    }
}

pub open spec fn blob_preimage_spec(content: Seq<u8>) -> Seq<u8> {
    header_spec(effective_content(content).len()) + effective_content(content)
}

/// The content identity of a file with the given bytes.
pub open spec fn blob_hash_spec(content: Seq<u8>) -> Seq<char> {
    hex_of(sha1_of(blob_preimage_spec(content)))
}

/// Law: binary content (a null byte in the first 8 KiB) is digested as it
/// is; only the header is prepended.
pub proof fn lemma_binary_hash_identity(content: Seq<u8>)
    requires
        !is_text_spec(content),
    ensures
        blob_preimage_spec(content) == header_spec(content.len()) + content,
{
}

/// Law: two text contents with the same normalized bytes have the same
/// content identity; with the substitution laws above, contents differing
/// only in line-ending style hash identically.
pub proof fn lemma_text_hash_by_normalization(a: Seq<u8>, b: Seq<u8>)
    requires
        is_text_spec(a),
        is_text_spec(b),
        normalize_spec(a) == normalize_spec(b),
    ensures
        blob_hash_spec(a) == blob_hash_spec(b),
{
}

/// Law: for text content, hashing is invariant under substituting a CRLF
/// line break with LF. Removing the CR can shift a later null byte into
/// the inspected window, so the substituted bytes must still be text.
pub proof fn lemma_hash_crlf_substitution(s: Seq<u8>, i: int)
    requires
        0 <= i,
        i + 1 < s.len(),
        s[i] == 13u8,
        s[i + 1] == 10u8,
        i == 0 || s[i - 1] != 13u8,
        is_text_spec(s),
        is_text_spec(s.take(i) + seq![10u8] + s.skip(i + 2)),
    ensures
        blob_hash_spec(s.take(i) + seq![10u8] + s.skip(i + 2)) == blob_hash_spec(s),
{
    lemma_crlf_substitution(s, i);
    lemma_text_hash_by_normalization(s.take(i) + seq![10u8] + s.skip(i + 2), s);
}

/// Law: for text content, hashing is invariant under substituting a
/// standalone CR line break with LF.
pub proof fn lemma_hash_cr_substitution(s: Seq<u8>, i: int)
    requires
        0 <= i < s.len(),
        s[i] == 13u8,
        i + 1 == s.len() || s[i + 1] != 10u8,
        i == 0 || s[i - 1] != 13u8,
        is_text_spec(s),
    ensures
        blob_hash_spec(s.update(i, 10u8)) == blob_hash_spec(s),
{
    lemma_cr_substitution(s, i);
    assert forall|j: int| 0 <= j < text_check_len(s.update(i, 10u8)) implies s.update(
        i,
        10u8,
    )[j] != 0u8 by {
        assert(s[j] != 0u8);
    }
    lemma_text_hash_by_normalization(s.update(i, 10u8), s);
}

fn push_dec_digits(out: &mut Vec<u8>, n: usize)
    ensures
        final(out)@ == old(out)@ + dec_digits(n as nat),
    decreases n,
{
    if n < 10 {
        out.push(48 + n as u8);
    } else {
        push_dec_digits(out, n / 10);
        out.push(48 + (n % 10) as u8);
        proof {
            assert(out@ =~= old(out)@ + dec_digits(n as nat));
        }
    }
}

/// The SHA-1 digest of a byte sequence; 160 bits, a function of the input
/// bytes alone.
pub uninterp spec fn sha1_of(bytes: Seq<u8>) -> Seq<u8>;

/// Relies on sha1::Sha1 through the Digest trait's one-shot digest: the
/// SHA-1 hash of the input, always 20 bytes.
#[verifier::external_body]
fn sha1_digest(bytes: &[u8]) -> (r: Vec<u8>)
    ensures
        r@ == sha1_of(bytes@),
        r@.len() == 20,
{
    <sha1::Sha1 as sha1::Digest>::digest(bytes).to_vec()
}

/// One lowercase hex digit for a value below 16.
pub open spec fn hex_digit(n: u8) -> char {
    if n < 10 {
        ((48 + n) as u8) as char
    } else {
        ((87 + n) as u8) as char
    }
}

/// Lowercase hex encoding: two digits per byte, high nibble first.
pub open spec fn hex_of(bytes: Seq<u8>) -> Seq<char>
    decreases bytes.len(),
{
    if bytes.len() == 0 {
        Seq::empty()
    } else {
        seq![hex_digit(bytes[0] / 16), hex_digit(bytes[0] % 16)] + hex_of(bytes.skip(1))
    }
}

/// Hex encoding yields exactly two characters per byte.
pub proof fn lemma_hex_of_len(bytes: Seq<u8>)
    ensures
        hex_of(bytes).len() == 2 * bytes.len(),
    decreases bytes.len(),
{
    if bytes.len() == 0 {
    } else {
        lemma_hex_of_len(bytes.skip(1));
    }
}

/// Relies on hex::encode: lowercase hex, exactly two digits per byte, high
/// nibble first.
#[verifier::external_body]
fn to_hex(bytes: &[u8]) -> (r: String)
    ensures
        r@ == hex_of(bytes@),
{
    hex::encode(bytes)
}

/// Compute the blob identity for file content (same format the remote
/// store uses): 160 bits, hex-encoded lowercase, so always 40 characters.
/// Normalizes line endings for text content.
pub fn compute_git_blob_sha(content: &[u8]) -> (r: String)
    ensures
        r@ == blob_hash_spec(content@),
        r@.len() == 40,
{
    let is_text = is_text_content(content);
    let owned = slice_to_vec(content);
    let mut effective = if is_text {
        normalize_line_endings(owned)
    } else {
        owned
    };
    let mut data: Vec<u8> = Vec::new();
    data.push(98);
    data.push(108);
    data.push(111);
    data.push(98);
    data.push(32);
    push_dec_digits(&mut data, effective.len());
    data.push(0);
    proof {
        assert(data@ =~= header_spec(effective@.len()));
        assert(effective@ == effective_content(content@));
    }
    data.append(&mut effective);
    proof {
        assert(data@ =~= blob_preimage_spec(content@));
    }
    let digest = sha1_digest(data.as_slice());
    proof {
        lemma_hex_of_len(digest@);
    }
    to_hex(digest.as_slice())
}

} // verus!
