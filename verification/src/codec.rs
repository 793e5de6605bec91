//! The byte-exact image file codec.
//!
//! A file is an 18-byte header, a pixel payload (raw, or run-length
//! encoded in packets of up to 128 pixels), and a 26-byte footer. Pixel
//! channel order on disk is B,G,R,(A), matching the in-memory store.
//! Decoding honors the two descriptor bits: origin-at-top (clear means the
//! rows must be flipped vertically after load) and right-to-left storage
//! (set means each row must be flipped horizontally).
//!
//! The encoder's contract states that its payload decodes back to exactly
//! the pixel bytes it was given, whatever trailing bytes follow; together
//! with the decoder's contract that gives the round trip: an encoded image
//! reads back with byte-identical pixel data, in raw and in run-length
//! mode alike.

use vstd::prelude::*;

use crate::error::ErrorKind;
use crate::tga::TgaImage;

verus! {

/// The little-endian 16-bit value at offset `i`.
pub open spec fn le16(bytes: Seq<u8>, i: int) -> int {
    bytes[i] + 256 * bytes[i + 1]
}

/// The same value read as a signed 16-bit quantity.
pub open spec fn le16_signed(bytes: Seq<u8>, i: int) -> int {
    if le16(bytes, i) >= 32768 {
        le16(bytes, i) - 65536
    } else {
        le16(bytes, i)
    }
}

/// The header this codec writes: no id field, no color map, the image
/// type code for the pixel depth and mode, the dimensions, the pixel
/// depth in bits, and the origin-at-top descriptor bit.
pub open spec fn header_bytes(img: TgaImage, rle: bool) -> Seq<u8> {
    let code: u8 = if img.bytes_per_pixel == 1 {
        if rle {
            11u8
        } else {
            3u8
        }
    } else {
        if rle {
            10u8
        } else {
            2u8
        }
    };
    seq![
        0u8,
        0u8,
        code,
        0u8,
        0u8,
        0u8,
        0u8,
        0u8,
        0u8,
        0u8,
        0u8,
        0u8,
        (img.width % 256) as u8,
        (img.width / 256) as u8,
        (img.height % 256) as u8,
        (img.height / 256) as u8,
        mul8(img.bytes_per_pixel) as u8,
        0x20u8,
    ]
}

/// Eight bits per byte.
pub open spec fn mul8(bpp: usize) -> int {
    (bpp as int) * 8
}

/// The fixed footer: two zeroed four-byte area offsets and the literal
/// signature "TRUEVISION-XFILE." with a terminating zero byte.
pub open spec fn footer_bytes() -> Seq<u8> {
    seq![
        0u8,
        0u8,
        0u8,
        0u8,
        0u8,
        0u8,
        0u8,
        0u8,
        84u8,
        82u8,
        85u8,
        69u8,
        86u8,
        73u8,
        83u8,
        73u8,
        79u8,
        78u8,
        45u8,
        88u8,
        70u8,
        73u8,
        76u8,
        69u8,
        46u8,
        0u8,
    ]
}

/// `n` copies of one pixel's bytes.
pub open spec fn repeat_pix(pix: Seq<u8>, n: int) -> Seq<u8>
    decreases n,
{
    if n <= 0 {
        Seq::empty()
    } else {
        pix + repeat_pix(pix, n - 1)
    }
}

/// Decode `need` pixels of `bpp` bytes each from the front of `bytes`:
/// a packet header byte below 128 announces `low+1` literal pixels, one
/// of 128 or above announces `low+1` copies of the single pixel that
/// follows. Trailing bytes after the last needed pixel are ignored; a
/// packet that overruns the pixel count or the input is a failure.
pub open spec fn rle_decode_aux(bytes: Seq<u8>, bpp: int, need: int) -> Option<Seq<u8>>
    decreases need,
{
    if need <= 0 {
        if need == 0 {
            Some(Seq::empty())
        } else {
            None
        }
    } else if bytes.len() < 1 {
        None
    } else {
        let h = bytes[0] as int;
        if h < 128 {
            let n = h + 1;
            if n > need {
                None
            } else if bytes.len() < 1 + n * bpp {
                None
            } else {
                match rle_decode_aux(bytes.skip(1 + n * bpp), bpp, need - n) {
                    Some(rest) => Some(bytes.subrange(1, 1 + n * bpp) + rest),
                    None => None,
                }
            }
        } else {
            let n = h - 127;
            if n > need {
                None
            } else if bytes.len() < 1 + bpp {
                None
            } else {
                match rle_decode_aux(bytes.skip(1 + bpp), bpp, need - n) {
                    Some(rest) => Some(repeat_pix(bytes.subrange(1, 1 + bpp), n) + rest),
                    None => None,
                }
            }
        }
    }
}

/// Appending one more copy extends a repetition at its end as well as at
/// its head.
proof fn lemma_repeat_snoc(pix: Seq<u8>, n: int)
    requires
        n >= 0,
    ensures
        repeat_pix(pix, n) + pix =~= repeat_pix(pix, n + 1),
    decreases n,
{
    if n == 0 {
        assert(repeat_pix(pix, 0) + pix =~= pix + repeat_pix(pix, 0));
    } else {
        lemma_repeat_snoc(pix, n - 1);
        assert((pix + repeat_pix(pix, n - 1)) + pix =~= pix + (repeat_pix(pix, n - 1) + pix));
    }
}

/// Copy `len` bytes starting at `from` onto the end of `out`.
fn push_bytes(out: &mut Vec<u8>, src: &[u8], from: usize, len: usize)
    requires
        from + len <= src@.len(),
    ensures
        final(out)@ == old(out)@ + src@.subrange(from as int, from as int + len as int),
{
    let ghost base = out@;
    let n_src = src.len();
    let mut i: usize = 0;
    while i < len
        invariant
            from + len <= src@.len(),
            n_src == src@.len(),
            i <= len,
            out@ == base + src@.subrange(from as int, from as int + i as int),
        decreases len - i,
    {
        let b = src[from + i];
        out.push(b);
        proof {
            assert(out@ =~= base + src@.subrange(from as int, from as int + i as int + 1));
        }
        i = i + 1;
    }
}

/// Decode an RLE payload of exactly `count` pixels of `bpp` bytes each,
/// starting at `start`; trailing bytes are left unread. Fails with
/// `IoFailure` exactly when the spec-level decode fails.
fn rle_decode_payload(bytes: &[u8], start: usize, bpp: usize, count: usize) -> (r: Result<
    Vec<u8>,
    ErrorKind,
>)
    requires
        1 <= bpp <= 4,
        start <= bytes@.len(),
        count * bpp <= usize::MAX,
    ensures
        match r {
            Ok(v) => {
                &&& rle_decode_aux(bytes@.skip(start as int), bpp as int, count as int) == Some(v@)
                &&& v@.len() == count * bpp
            },
            Err(e) => {
                &&& e == ErrorKind::IoFailure
                &&& rle_decode_aux(bytes@.skip(start as int), bpp as int, count as int) is None
            },
        },
{
    let n_total = bytes.len();
    let mut out: Vec<u8> = Vec::new();
    let mut pos: usize = start;
    let mut done: usize = 0;
    while done < count
        invariant
            1 <= bpp <= 4,
            count * bpp <= usize::MAX,
            pos <= bytes@.len(),
            n_total == bytes@.len(),
            done <= count,
            out@.len() == done * bpp,
            rle_decode_aux(bytes@.skip(start as int), bpp as int, count as int) == match
                rle_decode_aux(bytes@.skip(pos as int), bpp as int, (count - done) as int) {
                Some(rest) => Some(out@ + rest),
                None => None::<Seq<u8>>,
            },
        decreases count - done,
    {
        if pos >= n_total {
            proof {
                assert(rle_decode_aux(bytes@.skip(pos as int), bpp as int, (count - done) as int)
                    is None);
            }
            return Err(ErrorKind::IoFailure);
        }
        let ghost rem0 = bytes@.skip(pos as int);
        let h = bytes[pos];
        proof {
            assert(rem0[0] == bytes@[pos as int]);
        }
        if h < 128 {
            let n = (h as usize) + 1;
            if n > count - done {
                proof {
                    assert(rle_decode_aux(rem0, bpp as int, (count - done) as int) is None);
                }
                return Err(ErrorKind::IoFailure);
            }
            proof {
                assert(n * bpp <= count * bpp) by (nonlinear_arith)
                    requires
                        n <= count,
                        bpp >= 1,
                        0 <= n,
                        0 <= count,
                {}
            }
            if n_total - pos - 1 < n * bpp {
                proof {
                    assert(rem0.len() == n_total - pos);
                    assert(rem0.len() < 1 + n * bpp);
                    assert(rle_decode_aux(rem0, bpp as int, (count - done) as int) is None);
                }
                return Err(ErrorKind::IoFailure);
            }
            let ghost out0 = out@;
            push_bytes(&mut out, bytes, pos + 1, n * bpp);
            proof {
                assert(rem0.subrange(1, 1 + (n * bpp) as int) =~= bytes@.subrange(
                    pos + 1,
                    pos + 1 + (n * bpp) as int,
                ));
                assert(rem0.skip(1 + (n * bpp) as int) =~= bytes@.skip(
                    pos + 1 + (n * bpp) as int,
                ));
            }
            pos = pos + 1 + n * bpp;
            done = done + n;
            proof {
                assert(out@.len() == done * bpp) by (nonlinear_arith)
                    requires
                        out@.len() == out0.len() + n * bpp,
                        out0.len() == (done - n) * bpp,
                        0 <= n,
                        0 <= bpp,
                {}
                assert forall|rest: Seq<u8>| true implies out0 + (bytes@.subrange(
                    pos - (n * bpp) as int,
                    pos as int,
                ) + rest) =~= out@ + rest by {}
            }
        } else {
            let n = (h as usize) - 127;
            if n > count - done {
                proof {
                    assert(rle_decode_aux(rem0, bpp as int, (count - done) as int) is None);
                }
                return Err(ErrorKind::IoFailure);
            }
            if n_total - pos - 1 < bpp {
                proof {
                    assert(rem0.len() < 1 + bpp);
                    assert(rle_decode_aux(rem0, bpp as int, (count - done) as int) is None);
                }
                return Err(ErrorKind::IoFailure);
            }
            let ghost out0 = out@;
            let ghost pix = rem0.subrange(1, 1 + bpp as int);
            proof {
                assert(pix =~= bytes@.subrange(pos + 1, pos + 1 + bpp as int));
            }
            let mut t: usize = 0;
            while t < n
                invariant
                    1 <= bpp <= 4,
                    t <= n,
                    n_total == bytes@.len(),
                    pos + 1 + bpp <= bytes@.len(),
                    pix == bytes@.subrange(pos + 1, pos + 1 + bpp as int),
                    out@ == out0 + repeat_pix(pix, t as int),
                decreases n - t,
            {
                let ghost mid = out@;
                push_bytes(&mut out, bytes, pos + 1, bpp);
                proof {
                    lemma_repeat_snoc(pix, t as int);
                    assert(out@ =~= out0 + repeat_pix(pix, t as int + 1)) by {
                        assert(out@ =~= (out0 + repeat_pix(pix, t as int)) + pix);
                        assert((out0 + repeat_pix(pix, t as int)) + pix =~= out0 + (repeat_pix(
                            pix,
                            t as int,
                        ) + pix));
                    }
                }
                t = t + 1;
            }
            proof {
                assert(rem0.skip(1 + bpp as int) =~= bytes@.skip(pos + 1 + bpp as int));
                assert(repeat_pix(pix, n as int).len() == n * bpp) by {
                    lemma_repeat_len(pix, n as int);
                }
            }
            pos = pos + 1 + bpp;
            done = done + n;
            proof {
                assert(out@.len() == done * bpp) by (nonlinear_arith)
                    requires
                        out@.len() == out0.len() + (done - (done - n)) * bpp,
                        out0.len() == (done - n) * bpp,
                        0 <= n,
                        0 <= bpp,
                {}
                assert forall|rest: Seq<u8>| true implies out0 + (repeat_pix(pix, n as int) + rest)
                    =~= out@ + rest by {}
            }
        }
    }
    proof {
        assert(rle_decode_aux(bytes@.skip(pos as int), bpp as int, 0) == Some(Seq::<u8>::empty()));
        assert(out@ + Seq::<u8>::empty() =~= out@);
    }
    Ok(out)
}

/// The bytes of pixel `i` in a packed pixel store.
pub open spec fn pix_at(data: Seq<u8>, bpp: int, i: int) -> Seq<u8> {
    data.subrange(i * bpp, (i + 1) * bpp)
}

/// A run of pixels that all equal its first pixel is that pixel repeated.
proof fn lemma_repeat_eq_chunk(data: Seq<u8>, bpp: int, cur: int, rl: int)
    requires
        bpp >= 1,
        0 <= cur,
        rl >= 0,
        (cur + rl) * bpp <= data.len(),
        forall|t: int| cur <= t < cur + rl ==> pix_at(data, bpp, t) == pix_at(data, bpp, cur),
    ensures
        repeat_pix(pix_at(data, bpp, cur), rl) =~= data.subrange(cur * bpp, (cur + rl) * bpp),
    decreases rl,
{
    if rl > 0 {
        assert((cur + 1) * bpp == cur * bpp + bpp && 0 <= cur * bpp && (cur + 1) * bpp <= (cur
            + rl) * bpp && (cur + 1 + (rl - 1)) * bpp == (cur + rl) * bpp) by (nonlinear_arith)
            requires
                bpp >= 1,
                0 <= cur,
                rl >= 1,
        {}
        if rl == 1 {
            let p = pix_at(data, bpp, cur);
            assert(repeat_pix(p, 1) == p + repeat_pix(p, 0));
            assert(repeat_pix(p, 0) == Seq::<u8>::empty());
            assert(p + Seq::<u8>::empty() =~= p);
            assert(p =~= data.subrange(cur * bpp, (cur + 1) * bpp));
        } else {
            assert(pix_at(data, bpp, cur + 1) == pix_at(data, bpp, cur));
            assert forall|t: int| cur + 1 <= t < cur + 1 + (rl - 1) implies #[trigger] pix_at(
                data,
                bpp,
                t,
            ) == pix_at(data, bpp, cur + 1) by {
                assert(pix_at(data, bpp, t) == pix_at(data, bpp, cur));
            }
            lemma_repeat_eq_chunk(data, bpp, cur + 1, rl - 1);
            assert(repeat_pix(pix_at(data, bpp, cur), rl) == pix_at(data, bpp, cur) + repeat_pix(
                pix_at(data, bpp, cur),
                rl - 1,
            ));
            assert(repeat_pix(pix_at(data, bpp, cur), rl - 1) == repeat_pix(
                pix_at(data, bpp, cur + 1),
                rl - 1,
            ));
            assert(repeat_pix(pix_at(data, bpp, cur + 1), rl - 1) =~= data.subrange(
                (cur + 1) * bpp,
                (cur + rl) * bpp,
            ));
            assert(pix_at(data, bpp, cur) + data.subrange((cur + 1) * bpp, (cur + rl) * bpp)
                =~= data.subrange(cur * bpp, (cur + rl) * bpp));
        }
    }
}

/// Encode `count` pixels of `bpp` bytes each as run-length packets: a run
/// of consecutive equal pixels becomes one repetition packet, a stretch of
/// distinct pixels one literal packet, each covering at most 128 pixels.
///
/// Whatever bytes follow the payload, decoding `count` pixels from it
/// yields exactly the input bytes: run-length encoding is lossless.
fn rle_encode_payload(data: &[u8], bpp: usize, count: usize) -> (out: Vec<u8>)
    requires
        1 <= bpp <= 4,
        data@.len() == count * bpp,
    ensures
        forall|s: Seq<u8>|
            #![trigger rle_decode_aux(out@ + s, bpp as int, count as int)]
            rle_decode_aux(out@ + s, bpp as int, count as int) == Some(data@),
{
    let ghost bppi = bpp as int;
    let ghost cnti = count as int;
    let n_data = data.len();
    let mut out: Vec<u8> = Vec::new();
    proof {
        assert forall|s: Seq<u8>|
            #![trigger rle_decode_aux(out@ + s, bppi, cnti)]
            rle_decode_aux(out@ + s, bppi, cnti) == match rle_decode_aux(s, bppi, cnti - 0) {
            Some(rest) => Some(data@.subrange(0, 0) + rest),
            None => None::<Seq<u8>>,
        } by {
            assert(out@ + s =~= s);
            match rle_decode_aux(s, bppi, cnti) {
                Some(rest) => {
                    assert(data@.subrange(0, 0) + rest =~= rest);
                },
                None => {},
            }
        }
    }
    let mut cur: usize = 0;
    while cur < count
        invariant
            1 <= bpp <= 4,
            bppi == bpp as int,
            cnti == count as int,
            data@.len() == count * bpp,
            n_data == data@.len(),
            cur <= count,
            forall|s: Seq<u8>|
                #![trigger rle_decode_aux(out@ + s, bppi, cnti)]
                rle_decode_aux(out@ + s, bppi, cnti) == match rle_decode_aux(
                    s,
                    bppi,
                    cnti - cur,
                ) {
                    Some(rest) => Some(data@.subrange(0, cur * bppi) + rest),
                    None => None::<Seq<u8>>,
                },
        decreases count - cur,
    {
        proof {
            assert(cur * bpp <= count * bpp && (cur + 1) * bpp <= count * bpp)
                by (nonlinear_arith)
                requires
                    cur < count,
                    1 <= bpp,
                    0 <= cur,
            {}
        }
        let chunk_start = cur * bpp;
        let mut run_length: usize = 1;
        let mut raw = true;
        while cur + run_length < count && run_length < 128
            invariant_except_break
                1 <= bpp <= 4,
                data@.len() == count * bpp,
                n_data == data@.len(),
                cur < count,
                1 <= run_length <= 128,
                cur + run_length <= count,
                !raw ==> forall|t: int|
                    cur <= t < cur + run_length ==> #[trigger] pix_at(data@, bpp as int, t)
                        == pix_at(data@, bpp as int, cur as int),
            ensures
                1 <= run_length <= 128,
                cur + run_length <= count,
                !raw ==> forall|t: int|
                    cur <= t < cur + run_length ==> #[trigger] pix_at(data@, bpp as int, t)
                        == pix_at(data@, bpp as int, cur as int),
            decreases 129 - run_length,
        {
            let j = cur + run_length - 1;
            proof {
                assert((j + 2) * bpp <= count * bpp && j * bpp + 2 * bpp <= count * bpp && 0 <= j
                    * bpp) by (nonlinear_arith)
                    requires
                        cur + run_length < count,
                        j == cur + run_length - 1,
                        1 <= bpp,
                        0 <= cur,
                        1 <= run_length,
                {}
            }
            let base = j * bpp;
            let mut success_eq = true;
            let mut ci: usize = 0;
            while ci < bpp
                invariant
                    1 <= bpp <= 4,
                    data@.len() == count * bpp,
                    n_data == data@.len(),
                    base == j * bpp,
                    base + 2 * bpp <= data@.len(),
                    ci <= bpp,
                    success_eq ==> forall|q: int|
                        0 <= q < ci ==> #[trigger] data@[base + q] == data@[base + q + bpp],
                decreases bpp - ci,
            {
                if data[base + ci] != data[base + ci + bpp] {
                    success_eq = false;
                }
                ci = ci + 1;
            }
            proof {
                if success_eq {
                    assert((j + 1) * bpp == j * bpp + bpp && (j + 2) * bpp == j * bpp + 2 * bpp)
                        by (nonlinear_arith);
                    assert forall|q: int| 0 <= q < bpp implies pix_at(
                        data@,
                        bpp as int,
                        j as int,
                    )[q] == pix_at(data@, bpp as int, j + 1)[q] by {
                        assert(data@[base + q] == data@[base + q + bpp]);
                    }
                    assert(pix_at(data@, bpp as int, j as int) =~= pix_at(
                        data@,
                        bpp as int,
                        j + 1,
                    ));
                }
            }
            if run_length == 1 {
                raw = !success_eq;
            }
            if raw && success_eq {
                run_length = run_length - 1;
                break ;
            }
            if !raw && !success_eq {
                break ;
            }
            proof {
                if !raw {
                    assert forall|t: int| cur <= t < cur + run_length + 1 implies #[trigger]
                        pix_at(data@, bpp as int, t) == pix_at(data@, bpp as int, cur as int) by {
                        if t == cur + run_length {
                            assert(pix_at(data@, bpp as int, j as int) == pix_at(
                                data@,
                                bpp as int,
                                cur as int,
                            ));
                        }
                    }
                }
            }
            run_length = run_length + 1;
        }
        let hdr: u8 = if raw {
            (run_length - 1) as u8
        } else {
            (run_length + 127) as u8
        };
        proof {
            assert((cur + run_length) * bpp <= count * bpp && (cur + run_length) * bpp == cur
                * bpp + run_length * bpp && run_length * bpp <= 128 * 4 && bpp <= run_length
                * bpp) by (nonlinear_arith)
                requires
                    cur + run_length <= count,
                    1 <= bpp <= 4,
                    0 <= cur,
                    1 <= run_length <= 128,
            {}
        }
        let ghost out0 = out@;
        out.push(hdr);
        let ghost chunk = data@.subrange(
            chunk_start as int,
            chunk_start as int + (run_length * bpp) as int,
        );
        let ghost pix0 = pix_at(data@, bppi, cur as int);
        if raw {
            push_bytes(&mut out, data, chunk_start, run_length * bpp);
        } else {
            push_bytes(&mut out, data, chunk_start, bpp);
        }
        let ghost packet = if raw {
            seq![hdr] + chunk
        } else {
            seq![hdr] + pix0
        };
        proof {
            let curi = cur as int;
            let rli = run_length as int;
            let needi = cnti - curi;
            assert((curi + 1) * bppi == curi * bppi + bppi) by (nonlinear_arith);
            assert(out@ =~= out0 + packet);
            assert forall|s: Seq<u8>|
                #![trigger rle_decode_aux(out@ + s, bppi, cnti)]
                rle_decode_aux(out@ + s, bppi, cnti) == match rle_decode_aux(
                    s,
                    bppi,
                    cnti - (curi + rli),
                ) {
                Some(rest) => Some(data@.subrange(0, (curi + rli) * bppi) + rest),
                None => None::<Seq<u8>>,
            } by {
                let ps = packet + s;
                assert(out@ + s =~= out0 + ps);
                assert(rle_decode_aux(out0 + ps, bppi, cnti) == match rle_decode_aux(
                    ps,
                    bppi,
                    needi,
                ) {
                    Some(rest) => Some(data@.subrange(0, curi * bppi) + rest),
                    None => None::<Seq<u8>>,
                });
                assert(ps[0] == hdr);
                if raw {
                    assert(hdr as int == rli - 1 && rli - 1 < 128);
                    assert(ps.len() >= 1 + rli * bppi);
                    assert(ps.subrange(1, 1 + rli * bppi) =~= chunk);
                    assert(ps.skip(1 + rli * bppi) =~= s);
                    assert(rle_decode_aux(ps, bppi, needi) == match rle_decode_aux(
                        s,
                        bppi,
                        needi - rli,
                    ) {
                        Some(rest) => Some(chunk + rest),
                        None => None::<Seq<u8>>,
                    });
                } else {
                    assert(hdr as int == rli + 127 && rli + 127 >= 128);
                    assert(ps.len() >= 1 + bppi);
                    assert(ps.subrange(1, 1 + bppi) =~= pix0);
                    assert(ps.skip(1 + bppi) =~= s);
                    lemma_repeat_eq_chunk(data@, bppi, curi, rli);
                    assert(repeat_pix(pix0, rli) == chunk);
                    assert(rle_decode_aux(ps, bppi, needi) == match rle_decode_aux(
                        s,
                        bppi,
                        needi - rli,
                    ) {
                        Some(rest) => Some(chunk + rest),
                        None => None::<Seq<u8>>,
                    });
                }
                match rle_decode_aux(s, bppi, needi - rli) {
                    Some(rest) => {
                        assert(data@.subrange(0, curi * bppi) + (chunk + rest) =~= data@.subrange(
                            0,
                            (curi + rli) * bppi,
                        ) + rest);
                    },
                    None => {},
                }
            }
        }
        cur = cur + run_length;
    }
    proof {
        assert forall|s: Seq<u8>|
            #![trigger rle_decode_aux(out@ + s, bppi, cnti)]
            rle_decode_aux(out@ + s, bppi, cnti) == Some(data@) by {
            assert(rle_decode_aux(s, bppi, 0) == Some(Seq::<u8>::empty()));
            assert(data@.subrange(0, cnti * bppi) + Seq::<u8>::empty() =~= data@);
        }
    }
    out
}

/// A repetition of `n` copies of a `pix` has `n` times its length.
proof fn lemma_repeat_len(pix: Seq<u8>, n: int)
    requires
        n >= 0,
    ensures
        repeat_pix(pix, n).len() == n * pix.len(),
    decreases n,
{
    if n > 0 {
        lemma_repeat_len(pix, n - 1);
        assert(n * pix.len() == (n - 1) * pix.len() + pix.len()) by (nonlinear_arith)
            requires
                n >= 1,
        {}
    } else {
        assert(n * pix.len() == 0) by (nonlinear_arith)
            requires
                n == 0,
        {}
    }
}

/// The stored width a file header announces, read as signed.
pub open spec fn dec_width(b: Seq<u8>) -> int {
    le16_signed(b, 12)
}

/// The stored height a file header announces, read as signed.
pub open spec fn dec_height(b: Seq<u8>) -> int {
    le16_signed(b, 14)
}

/// The pixel depth in bytes a file header announces.
pub open spec fn dec_bpp(b: Seq<u8>) -> int {
    (b[16] as int) / 8
}

/// Whether the header announces positive dimensions and a supported depth.
pub open spec fn dims_ok(b: Seq<u8>) -> bool {
    dec_width(b) > 0 && dec_height(b) > 0 && (dec_bpp(b) == 1 || dec_bpp(b) == 3 || dec_bpp(b)
        == 4)
}

/// Whether the header announces a supported image type code.
pub open spec fn code_ok(b: Seq<u8>) -> bool {
    b[2] == 2 || b[2] == 3 || b[2] == 10 || b[2] == 11
}

/// Whether the type code announces a run-length-encoded payload.
pub open spec fn code_is_rle(b: Seq<u8>) -> bool {
    b[2] == 10 || b[2] == 11
}

/// Whether the payload holds the announced pixels.
pub open spec fn payload_ok(b: Seq<u8>) -> bool {
    if code_is_rle(b) {
        rle_decode_aux(b.skip(18), dec_bpp(b), dec_width(b) * dec_height(b)) is Some
    } else {
        b.len() - 18 >= dec_width(b) * dec_height(b) * dec_bpp(b)
    }
}

/// Whether a byte string decodes into an image.
pub open spec fn decode_ok(b: Seq<u8>) -> bool {
    b.len() >= 18 && dims_ok(b) && code_ok(b) && payload_ok(b)
}

/// The pixel bytes a file's payload holds, in stored row order.
pub open spec fn decoded_payload(b: Seq<u8>) -> Seq<u8> {
    if code_is_rle(b) {
        rle_decode_aux(b.skip(18), dec_bpp(b), dec_width(b) * dec_height(b))->Some_0
    } else {
        b.subrange(18, 18 + dec_width(b) * dec_height(b) * dec_bpp(b))
    }
}

/// The bytes of the payload pixel that ends up at `(x, y)` after the
/// descriptor's flips: stored rows run bottom-up unless the origin-at-top
/// bit is set, and right-to-left if that bit is set.
pub open spec fn source_pixel(b: Seq<u8>, x: int, y: int) -> Seq<u8> {
    let w = dec_width(b);
    let h = dec_height(b);
    let bpp = dec_bpp(b);
    let sx = if b[17] & 0x10 != 0 {
        w - 1 - x
    } else {
        x
    };
    let sy = if b[17] & 0x20 == 0 {
        h - 1 - y
    } else {
        y
    };
    decoded_payload(b).subrange((sx + sy * w) * bpp, (sx + sy * w) * bpp + bpp)
}

/// Encode an image as a complete file: header, pixel payload (raw or
/// run-length encoded), and footer, with the origin-at-top descriptor bit
/// set so the rows are stored in in-memory order.
pub fn encode_tga(img: &TgaImage, rle: bool) -> (bytes: Vec<u8>)
    requires
        img.wf(),
        1 <= img.bytes_per_pixel,
        img.width <= 32767,
        img.height <= 32767,
    ensures
        bytes@.len() >= 18,
        bytes@.subrange(0, 18) == header_bytes(*img, rle),
        !rle ==> bytes@ == header_bytes(*img, rle) + img.data@ + footer_bytes(),
        rle ==> rle_decode_aux(
            bytes@.skip(18),
            img.bytes_per_pixel as int,
            (img.width * img.height) as int,
        ) == Some(img.data@),
        rle ==> exists|p: Seq<u8>|
            bytes@ == header_bytes(*img, rle) + p + footer_bytes() && rle_decode_aux(
                p + footer_bytes(),
                img.bytes_per_pixel as int,
                (img.width * img.height) as int,
            ) == Some(img.data@),
{
    let w = img.width;
    let h = img.height;
    let bpp = img.bytes_per_pixel;
    proof {
        assert((w as int) * (h as int) <= 32767 * 32767 && 0 <= (w as int) * (h as int) && (
        w as int) * (h as int) * (bpp as int) <= 32767 * 32767 * 4) by (nonlinear_arith)
            requires
                0 <= w <= 32767,
                0 <= h <= 32767,
                1 <= bpp <= 4,
        {}
    }
    let count: usize = (w as usize) * (h as usize);
    let code: u8 = if bpp == 1 {
        if rle {
            11
        } else {
            3
        }
    } else {
        if rle {
            10
        } else {
            2
        }
    };
    let mut out: Vec<u8> = Vec::new();
    out.push(0);
    out.push(0);
    out.push(code);
    out.push(0);
    out.push(0);
    out.push(0);
    out.push(0);
    out.push(0);
    out.push(0);
    out.push(0);
    out.push(0);
    out.push(0);
    out.push((w % 256) as u8);
    out.push((w / 256) as u8);
    out.push((h % 256) as u8);
    out.push((h / 256) as u8);
    out.push((bpp * 8) as u8);
    out.push(0x20);
    proof {
        assert(out@ =~= header_bytes(*img, rle));
    }
    if rle {
        proof {
            assert(count * bpp == img.data@.len()) by (nonlinear_arith)
                requires
                    count == (w as int) * (h as int),
                    img.data@.len() == (w as int) * (h as int) * (bpp as int),
                    0 <= w,
                    0 <= h,
                    0 <= bpp,
            {}
        }
        let payload = rle_encode_payload(img.data.as_slice(), bpp, count);
        let ghost pl = payload@;
        push_bytes(&mut out, payload.as_slice(), 0, payload.len());
        proof {
            assert(pl.subrange(0, pl.len() as int) =~= pl);
        }
        let ghost before_footer = out@;
        push_footer(&mut out);
        proof {
            assert(out@.skip(18) =~= pl + footer_bytes());
            assert(rle_decode_aux(
                pl + footer_bytes(),
                img.bytes_per_pixel as int,
                count as int,
            ) == Some(img.data@));
            assert(out@.subrange(0, 18) =~= header_bytes(*img, rle));
            assert(out@ =~= header_bytes(*img, rle) + pl + footer_bytes());
            assert(exists|p: Seq<u8>|
                out@ == header_bytes(*img, rle) + p + footer_bytes() && rle_decode_aux(
                    p + footer_bytes(),
                    img.bytes_per_pixel as int,
                    (img.width * img.height) as int,
                ) == Some(img.data@)) by {
                assert(out@ == header_bytes(*img, rle) + pl + footer_bytes() && rle_decode_aux(
                    pl + footer_bytes(),
                    img.bytes_per_pixel as int,
                    (img.width * img.height) as int,
                ) == Some(img.data@));
            }
        }
    } else {
        push_bytes(&mut out, img.data.as_slice(), 0, img.data.len());
        proof {
            assert(img.data@.subrange(0, img.data@.len() as int) =~= img.data@);
        }
        push_footer(&mut out);
        proof {
            assert(out@ =~= header_bytes(*img, rle) + img.data@ + footer_bytes());
            assert(out@.subrange(0, 18) =~= header_bytes(*img, rle));
        }
    }
    out
}

/// Append the fixed footer.
fn push_footer(out: &mut Vec<u8>)
    ensures
        final(out)@ == old(out)@ + footer_bytes(),
{
    let ghost base = out@;
    out.push(0);
    out.push(0);
    out.push(0);
    out.push(0);
    out.push(0);
    out.push(0);
    out.push(0);
    out.push(0);
    out.push(84);
    out.push(82);
    out.push(85);
    out.push(69);
    out.push(86);
    out.push(73);
    out.push(83);
    out.push(73);
    out.push(79);
    out.push(78);
    out.push(45);
    out.push(88);
    out.push(70);
    out.push(73);
    out.push(76);
    out.push(69);
    out.push(46);
    out.push(0);
    proof {
        assert(out@ =~= base + footer_bytes());
    }
}

/// Decode a complete file into an image, honoring the descriptor's flip
/// bits: truncated input fails with `IoFailure`, a header with bad
/// dimensions or depth with `MalformedHeader`, an unknown image type code
/// with `UnsupportedCodec`, and a payload that ends early or overruns the
/// pixel count with `IoFailure`.
pub fn decode_tga(bytes: &[u8]) -> (r: Result<TgaImage, ErrorKind>)
    ensures
        r is Ok <==> decode_ok(bytes@),
        bytes@.len() < 18 ==> r == Err::<TgaImage, ErrorKind>(ErrorKind::IoFailure),
        bytes@.len() >= 18 && !dims_ok(bytes@) ==> r == Err::<TgaImage, ErrorKind>(
            ErrorKind::MalformedHeader,
        ),
        bytes@.len() >= 18 && dims_ok(bytes@) && !code_ok(bytes@) ==> r == Err::<
            TgaImage,
            ErrorKind,
        >(ErrorKind::UnsupportedCodec),
        bytes@.len() >= 18 && dims_ok(bytes@) && code_ok(bytes@) && !payload_ok(bytes@) ==> r
            == Err::<TgaImage, ErrorKind>(ErrorKind::IoFailure),
        r matches Ok(img) ==> {
            &&& img.wf()
            &&& img.width == dec_width(bytes@)
            &&& img.height == dec_height(bytes@)
            &&& img.bytes_per_pixel == dec_bpp(bytes@)
            &&& forall|x: int, y: int|
                img.spec_in_bounds(x, y) ==> img.spec_pixel(x, y) == source_pixel(bytes@, x, y)
        },
{
    let n = bytes.len();
    if n < 18 {
        return Err(ErrorKind::IoFailure);
    }
    let wlo = bytes[12] as i32;
    let whi = bytes[13] as i32;
    let wu = wlo + 256 * whi;
    let w = if wu >= 32768 {
        wu - 65536
    } else {
        wu
    };
    let hlo = bytes[14] as i32;
    let hhi = bytes[15] as i32;
    let hu = hlo + 256 * hhi;
    let h = if hu >= 32768 {
        hu - 65536
    } else {
        hu
    };
    let bpp = (bytes[16] / 8) as usize;
    if w <= 0 || h <= 0 || !(bpp == 1 || bpp == 3 || bpp == 4) {
        return Err(ErrorKind::MalformedHeader);
    }
    let code = bytes[2];
    if !(code == 2 || code == 3 || code == 10 || code == 11) {
        return Err(ErrorKind::UnsupportedCodec);
    }
    proof {
        assert((w as int) * (h as int) <= 32767 * 32767 && 0 < (w as int) * (h as int) && (
        w as int) * (h as int) * (bpp as int) <= 32767 * 32767 * 4) by (nonlinear_arith)
            requires
                0 < w < 32768,
                0 < h < 32768,
                1 <= bpp <= 4,
        {}
    }
    let count: usize = (w as usize) * (h as usize);
    let data: Vec<u8> = if code == 2 || code == 3 {
        proof {
            assert(count * bpp == (w as int) * (h as int) * (bpp as int)) by (nonlinear_arith)
                requires
                    count == (w as int) * (h as int),
                    0 <= count,
                    0 <= bpp,
            {}
        }
        if n - 18 < count * bpp {
            return Err(ErrorKind::IoFailure);
        }
        let mut v: Vec<u8> = Vec::new();
        push_bytes(&mut v, bytes, 18, count * bpp);
        proof {
            assert(v@ =~= bytes@.subrange(18, 18 + (count * bpp) as int));
        }
        v
    } else {
        match rle_decode_payload(bytes, 18, bpp, count) {
            Ok(v) => v,
            Err(e) => {
                return Err(e);
            },
        }
    };
    let mut img = TgaImage { data, width: w, height: h, bytes_per_pixel: bpp };
    proof {
        assert(img.data@.len() == (w as int) * (h as int) * (bpp as int)) by (nonlinear_arith)
            requires
                img.data@.len() == count * bpp,
                count == (w as int) * (h as int),
                0 <= count,
                0 <= bpp,
        {}
        assert(img.wf());
        assert(img.data@ == decoded_payload(bytes@));
        assert forall|x: int, y: int| img.spec_in_bounds(x, y) implies img.spec_pixel(x, y)
            == decoded_payload(bytes@).subrange(
            (x + y * w) * bpp,
            (x + y * w) * bpp + bpp,
        ) by {}
    }
    let ghost img0 = img;
    let desc = bytes[17];
    if desc & 0x20 == 0 {
        img.flip_vertically();
    }
    let ghost img1 = img;
    proof {
        assert forall|x: int, y: int| img.spec_in_bounds(x, y) implies img.spec_pixel(x, y)
            == ({
            let sy = if bytes@[17] & 0x20 == 0 {
                h - 1 - y
            } else {
                y
            };
            decoded_payload(bytes@).subrange((x + sy * w) * bpp, (x + sy * w) * bpp + bpp)
        }) by {}
    }
    if desc & 0x10 != 0 {
        let res = img.flip_horizontally();
        proof {
            assert(res is Ok);
        }
    }
    proof {
        assert forall|x: int, y: int| img.spec_in_bounds(x, y) implies img.spec_pixel(x, y)
            == source_pixel(bytes@, x, y) by {
            let sx = if bytes@[17] & 0x10 != 0 {
                w - 1 - x
            } else {
                x
            };
            if bytes@[17] & 0x10 != 0 {
                assert(img.spec_pixel(x, y) == img1.spec_pixel(w - 1 - x, y));
            } else {
                assert(img.spec_pixel(x, y) == img1.spec_pixel(x, y));
            }
            assert(img1.spec_in_bounds(sx, y));
        }
    }
    Ok(img)
}

/// Round trip: an image written by the encoder reads back with the same
/// dimensions, pixel depth, and byte-identical pixel data, in raw and in
/// run-length mode alike — the descriptor the encoder writes asks for no
/// flips, and the payload decodes to exactly the bytes that were encoded.
pub proof fn lemma_codec_round_trip(img: TgaImage, bytes: Seq<u8>, rle: bool)
    requires
        img.wf(),
        1 <= img.bytes_per_pixel,
        1 <= img.width <= 32767,
        1 <= img.height <= 32767,
        bytes.len() >= 18,
        bytes.subrange(0, 18) == header_bytes(img, rle),
        !rle ==> bytes == header_bytes(img, rle) + img.data@ + footer_bytes(),
        rle ==> rle_decode_aux(
            bytes.skip(18),
            img.bytes_per_pixel as int,
            (img.width * img.height) as int,
        ) == Some(img.data@),
    ensures
        decode_ok(bytes),
        dec_width(bytes) == img.width,
        dec_height(bytes) == img.height,
        dec_bpp(bytes) == img.bytes_per_pixel,
        decoded_payload(bytes) == img.data@,
        forall|x: int, y: int|
            img.spec_in_bounds(x, y) ==> source_pixel(bytes, x, y) == img.spec_pixel(x, y),
{
    let w = img.width as int;
    let h = img.height as int;
    let bpp = img.bytes_per_pixel as int;
    let hdr = header_bytes(img, rle);
    assert(bytes[12] == hdr[12] && bytes[13] == hdr[13] && bytes[14] == hdr[14] && bytes[15]
        == hdr[15] && bytes[16] == hdr[16] && bytes[17] == hdr[17] && bytes[2] == hdr[2]) by {
        assert(bytes.subrange(0, 18)[12] == bytes[12]);
        assert(bytes.subrange(0, 18)[13] == bytes[13]);
        assert(bytes.subrange(0, 18)[14] == bytes[14]);
        assert(bytes.subrange(0, 18)[15] == bytes[15]);
        assert(bytes.subrange(0, 18)[16] == bytes[16]);
        assert(bytes.subrange(0, 18)[17] == bytes[17]);
        assert(bytes.subrange(0, 18)[2] == bytes[2]);
    }
    vstd::arithmetic::div_mod::lemma_fundamental_div_mod(w, 256);
    vstd::arithmetic::div_mod::lemma_mod_bound(w, 256);
    vstd::arithmetic::div_mod::lemma_fundamental_div_mod(h, 256);
    vstd::arithmetic::div_mod::lemma_mod_bound(h, 256);
    assert(w / 256 < 128 && h / 256 < 128) by (nonlinear_arith)
        requires
            w == 256 * (w / 256) + w % 256,
            h == 256 * (h / 256) + h % 256,
            0 <= w % 256 < 256,
            0 <= h % 256 < 256,
            0 < w <= 32767,
            0 < h <= 32767,
    {}
    assert(le16(bytes, 12) == w);
    assert(le16(bytes, 14) == h);
    assert(dec_width(bytes) == w);
    assert(dec_height(bytes) == h);
    assert(bytes[16] as int == bpp * 8);
    vstd::arithmetic::div_mod::lemma_div_multiples_vanish(bpp, 8);
    assert(dec_bpp(bytes) == bpp);
    assert(dims_ok(bytes));
    assert(code_ok(bytes));
    assert(code_is_rle(bytes) == rle);
    assert(w * h * bpp == img.data@.len());
    if rle {
        assert(rle_decode_aux(bytes.skip(18), bpp, w * h) == Some(img.data@)) by {
            assert((img.width * img.height) as int == w * h);
        }
        assert(payload_ok(bytes));
        assert(decoded_payload(bytes) == img.data@);
    } else {
        assert(bytes.len() == 18 + img.data@.len() + 26);
        assert(bytes.subrange(18, 18 + w * h * bpp) =~= img.data@);
        assert(payload_ok(bytes));
        assert(decoded_payload(bytes) == img.data@);
    }
    assert(bytes[17] == 0x20u8);
    assert(0x20u8 & 0x20u8 != 0u8) by (bit_vector);
    assert(0x20u8 & 0x10u8 == 0u8) by (bit_vector);
    assert forall|x: int, y: int| img.spec_in_bounds(x, y) implies source_pixel(bytes, x, y)
        == img.spec_pixel(x, y) by {}
}

} // verus!
