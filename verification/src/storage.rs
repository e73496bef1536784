//! Byte packing for persisted state: zlib compression through an outside
//! codec, framed as lowercase hex text.  The hex codec is exact and
//! round-trips; the compressed payload is named, not restated.

use vstd::prelude::*;

verus! {

/// The lowercase hex digit of a value below sixteen.
pub open spec fn hex_digit(n: u8) -> u8 {
    if n < 10 {
        (48 + n) as u8
    } else {
        (87 + n) as u8
    }
}

/// The value of a hex digit byte, upper or lower case.
pub open spec fn hex_val(c: u8) -> Option<u8> {
    if 48 <= c <= 57 {
        Some((c - 48) as u8)
    } else if 97 <= c <= 102 {
        Some((c - 87) as u8)
    } else if 65 <= c <= 70 {
        Some((c - 55) as u8)
    } else {
        None
    }
}

/// Two lowercase hex digits per byte, in order.
pub open spec fn hex_of(data: Seq<u8>) -> Seq<u8>
    decreases data.len(),
{
    if data.len() == 0 {
        Seq::empty()
    } else {
        seq![hex_digit(data[0] / 16), hex_digit(data[0] % 16)] + hex_of(data.drop_first())
    }
}

/// Decode a run of hex digit pairs; any stray byte or odd length fails.
pub open spec fn unhex(text: Seq<u8>) -> Option<Seq<u8>>
    decreases text.len(),
{
    if text.len() == 0 {
        Some(Seq::empty())
    } else if text.len() == 1 {
        None
    } else {
        match (hex_val(text[0]), hex_val(text[1])) {
            (Some(h), Some(l)) => match unhex(text.skip(2)) {
                Some(rest) => Some(seq![(h * 16 + l) as u8] + rest),
                None => None,
            },
            _ => None,
        }
    }
}

/// Decoding inverts encoding.
pub proof fn lemma_hex_roundtrip(data: Seq<u8>)
    ensures
        unhex(hex_of(data)) == Some(data),
    decreases data.len(),
{
    if data.len() == 0 {
        assert(hex_of(data) =~= Seq::<u8>::empty());
    } else {
        let b = data[0];
        let h = hex_digit(b / 16);
        let l = hex_digit(b % 16);
        let enc = hex_of(data);
        assert(enc == seq![h, l] + hex_of(data.drop_first()));
        lemma_hex_roundtrip(data.drop_first());
        assert(hex_val(h) == Some((b / 16) as u8));
        assert(hex_val(l) == Some((b % 16) as u8));
        assert(enc.len() >= 2);
        assert(enc[0] == h && enc[1] == l);
        assert(enc.skip(2) =~= hex_of(data.drop_first()));
        assert((b / 16) * 16 + b % 16 == b);
        assert(unhex(enc) == Some(seq![b] + data.drop_first()));
        assert(seq![b] + data.drop_first() =~= data);
    }
}

/// Encode bytes as lowercase hex text.
pub fn hex_encode(data: &Vec<u8>) -> (r: Vec<u8>)
    ensures
        r@ == hex_of(data@),
{
    let n = data.len();
    let mut out: Vec<u8> = Vec::new();
    let mut i: usize = 0;
    proof {
        assert(data@.skip(0) =~= data@);
    }
    while i < n
        invariant
            n == data@.len(),
            i <= n,
            hex_of(data@) == out@ + hex_of(data@.skip(i as int)),
        decreases n - i,
    {
        let b = data[i];
        let ghost pre = out@;
        let hi = b / 16;
        let lo = b % 16;
        out.push(if hi < 10 {
            48 + hi
        } else {
            87 + hi
        });
        out.push(if lo < 10 {
            48 + lo
        } else {
            87 + lo
        });
        proof {
            let rest = data@.skip(i as int);
            assert(rest[0] == data@[i as int]);
            assert(rest.drop_first() =~= data@.skip(i + 1));
            assert(hex_of(rest) == seq![hex_digit(rest[0] / 16), hex_digit(rest[0] % 16)]
                + hex_of(rest.drop_first()));
            assert(out@ =~= pre + seq![hex_digit(rest[0] / 16), hex_digit(rest[0] % 16)]);
            assert(hex_of(data@) =~= out@ + hex_of(data@.skip(i + 1)));
        }
        i += 1;
    }
    proof {
        assert(data@.skip(n as int) =~= Seq::<u8>::empty());
        assert(hex_of(data@) =~= out@);
    }
    out
}

fn hex_val_exec(c: u8) -> (r: Option<u8>)
    ensures
        r == hex_val(c),
{
    if 48 <= c && c <= 57 {
        Some(c - 48)
    } else if 97 <= c && c <= 102 {
        Some(c - 87)
    } else if 65 <= c && c <= 70 {
        Some(c - 55)
    } else {
        None
    }
}

/// Decode lowercase or uppercase hex text back into bytes.
pub fn hex_decode(text: &Vec<u8>) -> (r: Option<Vec<u8>>)
    ensures
        (match r {
            Some(v) => unhex(text@) == Some(v@),
            None => unhex(text@) is None,
        }),
{
    let n = text.len();
    let mut out: Vec<u8> = Vec::new();
    let mut i: usize = 0;
    proof {
        assert(text@.skip(0) =~= text@);
    }
    while i < n
        invariant
            n == text@.len(),
            i <= n,
            (match unhex(text@.skip(i as int)) {
                Some(rest) => unhex(text@) == Some(out@ + rest),
                None => unhex(text@) is None,
            }),
        decreases n - i,
    {
        let ghost rest = text@.skip(i as int);
        if i + 1 >= n {
            proof {
                assert(rest.len() == 1);
                assert(unhex(rest) is None);
            }
            return None;
        }
        let h = hex_val_exec(text[i]);
        let l = hex_val_exec(text[i + 1]);
        proof {
            assert(rest[0] == text@[i as int]);
            assert(rest[1] == text@[i + 1]);
            assert(rest.len() >= 2);
        }
        match (h, l) {
            (Some(hv), Some(lv)) => {
                let ghost pre = out@;
                out.push(hv * 16 + lv);
                proof {
                    assert(rest.skip(2) =~= text@.skip(i + 2));
                    assert(unhex(rest) == (match unhex(rest.skip(2)) {
                        Some(r2) => Some(seq![(hv * 16 + lv) as u8] + r2),
                        None => None,
                    }));
                    match unhex(text@.skip(i + 2)) {
                        Some(r2) => {
                            assert(out@ + r2 =~= pre + (seq![(hv * 16 + lv) as u8] + r2));
                        },
                        None => {},
                    }
                }
                i += 2;
            },
            _ => {
                proof {
                    assert(unhex(rest) is None);
                }
                return None;
            },
        }
    }
    proof {
        assert(text@.skip(n as int) =~= Seq::<u8>::empty());
        assert(unhex(text@) == Some(out@ + Seq::<u8>::empty()));
        assert(out@ + Seq::<u8>::empty() =~= out@);
    }
    Some(out)
}

/// What the zlib encoder produces for an input; a function of the input
/// alone.
pub uninterp spec fn zlib_deflate(data: Seq<u8>) -> Seq<u8>;

/// What the zlib decoder produces for a well-formed input; a function of
/// the input alone.
pub uninterp spec fn zlib_inflate(data: Seq<u8>) -> Seq<u8>;

/// Relies on yazi::compress with the zlib format at the smallest-size
/// level: the result depends on the input bytes alone.
#[verifier::external_body]
fn zlib_compress(data: &Vec<u8>) -> (r: Option<Vec<u8>>)
    ensures
        (r matches Some(v) ==> v@ == zlib_deflate(data@)),
{
    yazi::compress(data, yazi::Format::Zlib, yazi::CompressionLevel::BestSize).ok()
}

/// Relies on yazi::decompress with the zlib format: on success the result
/// depends on the input bytes alone; corrupt input fails.
#[verifier::external_body]
fn zlib_decompress(data: &Vec<u8>) -> (r: Option<Vec<u8>>)
    ensures
        (r matches Some(v) ==> v@ == zlib_inflate(data@)),
{
    match yazi::decompress(data, yazi::Format::Zlib) {
        Ok((out, _checksum)) => Some(out),
        Err(_) => None,
    }
}

/// Pack bytes for persistence: compress, then frame as hex text.
pub fn pack_bytes(data: &Vec<u8>) -> (r: Option<Vec<u8>>)
    ensures
        (r matches Some(v) ==> v@ == hex_of(zlib_deflate(data@))),
{
    match zlib_compress(data) {
        Some(c) => Some(hex_encode(&c)),
        None => None,
    }
}

/// Unpack persisted text: decode the hex frame, then decompress.  Text
/// that is not well-formed hex fails before any decompression.
pub fn unpack_bytes(text: &Vec<u8>) -> (r: Option<Vec<u8>>)
    ensures
        unhex(text@) is None ==> r is None,
        (r matches Some(v) ==> unhex(text@) is Some && v@ == zlib_inflate(
            unhex(text@)->Some_0,
        )),
{
    match hex_decode(text) {
        Some(compressed) => zlib_decompress(&compressed),
        None => None,
    }
}

} // verus!
