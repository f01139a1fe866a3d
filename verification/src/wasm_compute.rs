//! Rows whose keys and values are text, padded with zero bytes.
use vstd::prelude::*;

use crate::layout::{push_bytes, zeroed, zeros};
use crate::text::{dec, join2, put_num};
use vstd::string::*;
use vstd::utf8::*;

verus! {

/// The text of bytes as `String::from_utf8_lossy` gives it.
pub uninterp spec fn lossy_text(bytes: Seq<u8>) -> Seq<char>;

/// `String::from_utf8_lossy`: the text of the bytes, with a replacement
/// character for what is not UTF-8; bytes that are UTF-8 are decoded as they
/// are.
#[verifier::external_body]
fn lossy_string(bytes: &[u8]) -> (r: String)
    ensures
        r@ == lossy_text(bytes@),
        valid_utf8(bytes@) ==> r@ == decode_utf8(bytes@),
{
    String::from_utf8_lossy(bytes).into_owned()
}

/// The text as `n` bytes, padded with zero bytes; fails when it is longer.
pub fn fixed_from_utf8(input: &str, field: &str, n: usize) -> (r: std::result::Result<
    Vec<u8>,
    String,
>)
    ensures
        ({
            let b = encode_utf8(input@);
            if b.len() > n {
                r matches Err(m) && m@ == field@ + " too long: len="@ + dec(b.len() as int)
                    + " max="@ + dec(n as int)
            } else {
                r matches Ok(v) && v@ == b + zeros(n - b.len())
            }
        }),
{
    let bytes = input.as_bytes();
    let len: usize = bytes.len();
    if len > n {
        let mut m = join2(field, "");
        proof {
            reveal_strlit("");
            assert(m@ =~= field@);
        }
        put_num(&mut m, " too long: len=", len as u64);
        put_num(&mut m, " max=", n as u64);
        return Err(m);
    }
    let mut out: Vec<u8> = Vec::new();
    push_bytes(&mut out, bytes);
    let pad: Vec<u8> = zeroed(n - len);
    push_bytes(&mut out, pad.as_slice());
    assert(out@ =~= bytes@ + zeros(n - len));
    Ok(out)
}

/// Bytes before the first zero byte.
pub open spec fn before_zero(b: Seq<u8>) -> Seq<u8>
    decreases b.len(),
{
    if b.len() == 0 || b[0] == 0 {
        seq![]
    } else {
        seq![b[0]] + before_zero(b.drop_first())
    }
}

/// The bytes before the first zero byte.
pub fn zero_padded_text(bytes: &[u8]) -> (r: &[u8])
    ensures
        r@ == before_zero(bytes@),
{
    let n: usize = bytes.len();
    let mut end: usize = 0;
    assert(bytes@.take(0) =~= seq![]);
    assert(bytes@.skip(0) =~= bytes@);
    while end < n && bytes[end] != 0
        invariant
            n == bytes@.len(),
            end <= n,
            before_zero(bytes@) == bytes@.take(end as int) + before_zero(bytes@.skip(end as int)),
        decreases n - end,
    {
        assert(bytes@.skip(end as int).drop_first() =~= bytes@.skip(end + 1));
        assert(bytes@.skip(end as int)[0] == bytes@[end as int]);
        assert(bytes@.take(end as int) + (seq![bytes@[end as int]] + before_zero(
            bytes@.skip(end + 1),
        )) =~= bytes@.take(end + 1) + before_zero(bytes@.skip(end + 1)));
        end += 1;
    }
    proof {
        if end < n {
            assert(bytes@.skip(end as int)[0] == 0);
        }
        assert(before_zero(bytes@) =~= bytes@.take(end as int));
    }
    vstd::slice::slice_subrange(bytes, 0, end)
}

/// The text of a padded field.
pub fn decode_zero_padded_utf8(bytes: &[u8]) -> (r: String)
    ensures
        r@ == lossy_text(before_zero(bytes@)),
        valid_utf8(before_zero(bytes@)) ==> r@ == decode_utf8(before_zero(bytes@)),
{
    lossy_string(zero_padded_text(bytes))
}

proof fn lemma_before_padding(b: Seq<u8>, n: int)
    requires
        0 <= n,
        forall|i: int| 0 <= i < b.len() ==> #[trigger] b[i] != 0,
    ensures
        before_zero(b + zeros(n)) == b,
    decreases b.len(),
{
    let t = b + zeros(n);
    if b.len() == 0 {
        if n > 0 {
            assert(t[0] == 0);
        }
        assert(before_zero(t) =~= b);
    } else {
        assert(t[0] == b[0]);
        assert(t.drop_first() =~= b.drop_first() + zeros(n));
        assert forall|i: int| 0 <= i < b.drop_first().len() implies #[trigger] b.drop_first()[i]
            != 0 by {
            assert(b.drop_first()[i] == b[i + 1]);
        }
        lemma_before_padding(b.drop_first(), n);
        assert(seq![b[0]] + b.drop_first() =~= b);
    }
}

/// Text without a zero byte that fits comes back out of its padded field.
pub proof fn law_text_round_trip(text: Seq<char>, n: int)
    requires
        encode_utf8(text).len() <= n,
        forall|i: int| 0 <= i < encode_utf8(text).len() ==> #[trigger] encode_utf8(text)[i] != 0,
    ensures
        ({
            let field = encode_utf8(text) + zeros(n - encode_utf8(text).len());
            valid_utf8(before_zero(field)) && decode_utf8(before_zero(field)) == text
        }),
{
    lemma_before_padding(encode_utf8(text), n - encode_utf8(text).len());
    encode_utf8_valid_utf8(text);
    encode_utf8_decode_utf8(text);
}

/// A text in memory ends before its first zero byte, or with the memory.
pub proof fn law_text_ends_at_zero(b: Seq<u8>)
    ensures
        before_zero(b).len() <= b.len(),
        before_zero(b) == b.take(before_zero(b).len() as int),
        forall|i: int| 0 <= i < before_zero(b).len() ==> #[trigger] b[i] != 0,
        before_zero(b).len() < b.len() ==> b[before_zero(b).len() as int] == 0,
    decreases b.len(),
{
    if b.len() > 0 && b[0] != 0 {
        let t = b.drop_first();
        law_text_ends_at_zero(t);
        let n = before_zero(t).len();
        assert(before_zero(b) =~= b.take(before_zero(b).len() as int)) by {
            assert(t.take(n as int) =~= before_zero(t));
            assert forall|i: int| 0 <= i < n implies #[trigger] before_zero(t)[i] == b[i + 1] by {
                assert(before_zero(t)[i] == t.take(n as int)[i]);
            }
        }
        assert forall|i: int| 0 <= i < before_zero(b).len() implies #[trigger] b[i] != 0 by {
            if i > 0 {
                assert(t[i - 1] == b[i]);
            }
        }
        if n < t.len() {
            assert(t[n as int] == b[n as int + 1]);
        }
    } else {
        assert(b.take(0) =~= Seq::<u8>::empty());
    }
}

} // verus!
