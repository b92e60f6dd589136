//! A delimiter-based encoding of word lists: each word's bytes followed by
//! a `0xFF` terminator, a byte that never occurs in UTF-8 text. Decoding
//! splits on the delimiter, drops empty segments, and reads each segment as
//! text, replacing invalid sequences.

use vstd::prelude::*;

verus! {

/// The delimiter byte written after each encoded word.
pub const RSV_DELIM: u8 = 0xFF;

/// What `String::from_utf8_lossy` returns for the given bytes: determined
/// by the bytes alone.
pub uninterp spec fn utf8_lossy_of(bytes: Seq<u8>) -> Seq<char>;

/// What `str::as_bytes` returns for the given text: its UTF-8 encoding,
/// determined by the characters alone.
pub uninterp spec fn utf8_bytes_of(text: Seq<char>) -> Seq<u8>;

/// Relies on `String::from_utf8_lossy`: the result is a function of the
/// bytes alone; an empty input gives an empty string.
#[verifier::external_body]
fn utf8_lossy(bytes: &[u8]) -> (r: String)
    ensures
        r@ == utf8_lossy_of(bytes@),
        bytes@.len() == 0 ==> r@.len() == 0,
{
    String::from_utf8_lossy(bytes).to_string()
}

/// Relies on `str::as_bytes`: the result is the UTF-8 encoding of the
/// text, a function of the characters alone; `String::from_utf8_lossy`
/// on valid UTF-8 gives the text back unchanged.
#[verifier::external_body]
fn utf8_bytes(text: &str) -> (r: Vec<u8>)
    ensures
        r@ == utf8_bytes_of(text@),
        utf8_lossy_of(r@) == text@,
{
    text.as_bytes().to_vec()
}

/// The words decoded from `b` starting at index `i`, with `cur` the bytes
/// of the segment read so far: segments are cut at each delimiter, empty
/// segments are dropped, and each kept segment is read as text.
pub open spec fn decode_rsv_from(b: Seq<u8>, i: int, cur: Seq<u8>) -> Seq<Seq<char>>
    decreases b.len() - i,
{
    if i < 0 || i >= b.len() {
        if cur.len() > 0 {
            seq![utf8_lossy_of(cur)]
        } else {
            Seq::empty()
        }
    } else if b[i] == RSV_DELIM {
        (if cur.len() > 0 {
            seq![utf8_lossy_of(cur)]
        } else {
            Seq::empty()
        }) + decode_rsv_from(b, i + 1, Seq::empty())
    } else {
        decode_rsv_from(b, i + 1, cur.push(b[i]))
    }
}

/// The words decoded from a whole byte string.
pub open spec fn decode_rsv_spec(b: Seq<u8>) -> Seq<Seq<char>> {
    decode_rsv_from(b, 0, Seq::empty())
}

/// The encoding of a word list: each word's UTF-8 bytes followed by one
/// delimiter byte.
pub open spec fn encode_rsv_spec(words: Seq<Seq<char>>) -> Seq<u8>
    decreases words.len(),
{
    if words.len() == 0 {
        Seq::empty()
    } else {
        encode_rsv_spec(words.drop_last()) + utf8_bytes_of(words.last()) + seq![RSV_DELIM]
    }
}

/// Splits `bytes` at each delimiter byte and returns the non-empty
/// segments read as text.
pub fn decode_rsv(bytes: &[u8]) -> (r: Vec<String>)
    ensures
        r@.map_values(|s: String| s@) == decode_rsv_spec(bytes@),
{
    let mut out: Vec<String> = Vec::new();
    let mut cur: Vec<u8> = Vec::new();
    let mut i: usize = 0;
    while i < bytes.len()
        invariant
            0 <= i <= bytes@.len(),
            out@.map_values(|s: String| s@) + decode_rsv_from(bytes@, i as int, cur@)
                =~= decode_rsv_spec(bytes@),
        decreases bytes@.len() - i,
    {
        let ghost pre_out = out@;
        let ghost pre_cur = cur@;
        if bytes[i] == RSV_DELIM {
            if cur.len() > 0 {
                let s = utf8_lossy(cur.as_slice());
                out.push(s);
                cur = Vec::new();
                proof {
                    assert(cur@ =~= Seq::<u8>::empty());
                    assert(decode_rsv_from(bytes@, i as int, pre_cur) == seq![
                        utf8_lossy_of(pre_cur),
                    ] + decode_rsv_from(bytes@, i + 1, Seq::empty()));
                    assert(out@.map_values(|s: String| s@) =~= pre_out.map_values(
                        |s: String| s@,
                    ).push(utf8_lossy_of(pre_cur)));
                    assert(out@.map_values(|s: String| s@) + decode_rsv_from(
                        bytes@,
                        i + 1,
                        Seq::empty(),
                    ) =~= decode_rsv_spec(bytes@));
                }
            } else {
                proof {
                    assert(pre_cur =~= Seq::<u8>::empty());
                    assert(decode_rsv_from(bytes@, i as int, pre_cur) =~= Seq::empty()
                        + decode_rsv_from(bytes@, i + 1, Seq::empty()));
                    assert(out@.map_values(|s: String| s@) + decode_rsv_from(
                        bytes@,
                        i + 1,
                        Seq::empty(),
                    ) =~= decode_rsv_spec(bytes@));
                }
            }
        } else {
            let b = bytes[i];
            cur.push(b);
            proof {
                assert(cur@ =~= pre_cur.push(b));
                assert(decode_rsv_from(bytes@, i as int, pre_cur) == decode_rsv_from(
                    bytes@,
                    i + 1,
                    cur@,
                ));
                assert(out@.map_values(|s: String| s@) + decode_rsv_from(bytes@, i + 1, cur@)
                    =~= decode_rsv_spec(bytes@));
            }
        }
        i = i + 1;
    }
    if cur.len() > 0 {
        let ghost pre_out = out@;
        let s = utf8_lossy(cur.as_slice());
        out.push(s);
        proof {
            assert(out@.map_values(|s: String| s@) =~= pre_out.map_values(|s: String| s@).push(
                utf8_lossy_of(cur@),
            ));
        }
    }
    proof {
        assert(out@.map_values(|s: String| s@) =~= decode_rsv_spec(bytes@));
    }
    out
}

/// Encodes a word list: each word's bytes, then one delimiter byte.
pub fn encode_rsv(input: &Vec<String>) -> (r: Vec<u8>)
    ensures
        r@ == encode_rsv_spec(input@.map_values(|s: String| s@)),
{
    let mut ret: Vec<u8> = Vec::new();
    let mut i: usize = 0;
    while i < input.len()
        invariant
            0 <= i <= input@.len(),
            ret@ =~= encode_rsv_spec(input@.subrange(0, i as int).map_values(|s: String| s@)),
        decreases input@.len() - i,
    {
        let word: Vec<u8> = utf8_bytes(input[i].as_str());
        let mut j: usize = 0;
        let ghost pre_ret = ret@;
        while j < word.len()
            invariant
                0 <= j <= word@.len(),
                ret@ =~= pre_ret + word@.subrange(0, j as int),
            decreases word@.len() - j,
        {
            ret.push(word[j]);
            assert(ret@ =~= pre_ret + word@.subrange(0, j + 1));
            j = j + 1;
        }
        ret.push(RSV_DELIM);
        proof {
            let ghost words_i1 = input@.subrange(0, i + 1).map_values(|s: String| s@);
            assert(words_i1.drop_last() =~= input@.subrange(0, i as int).map_values(
                |s: String| s@,
            ));
            assert(words_i1.last() == input@[i as int]@);
            assert(word@.subrange(0, word@.len() as int) =~= word@);
            assert(ret@ =~= encode_rsv_spec(input@.subrange(0, i as int).map_values(|s: String| s@))
                + utf8_bytes_of(input@[i as int]@) + seq![RSV_DELIM]);
        }
        i = i + 1;
    }
    proof {
        assert(input@.subrange(0, input@.len() as int) =~= input@);
    }
    ret
}

} // verus!
