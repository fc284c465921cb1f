//! The connection handler: sequences one connection as a pure function from
//! the bytes a client sent to the bytes the server answers — header parse,
//! validation, header echo, row transcoding, unchanged-tail passthrough —
//! terminal on the first failure, in which case nothing is answered.

use crate::greyscale::convert_to_greyscale;
use crate::greyscale::grey_region;
use crate::greyscale::lemma_grey_region_idempotent;
use crate::greyscale::lemma_grey_region_len;
use crate::greyscale::lemma_grey_region_prefix;
use crate::greyscale::spec_padding;
use crate::greyscale::TranscodeError;
use crate::header::copy_range;
use crate::header::le32;
use crate::header::le32_signed;
use crate::header::lemma_parse_prefix;
use crate::header::spec_magic_ok;
use crate::header::spec_parse;
use crate::header::spec_valid_bytes;
use crate::header::BitmapImageHeader;
use crate::header::ParseError;
use vstd::prelude::*;

verus! {

/// The single connection-level outcome of a failed connection: a structural
/// header failure, a policy rejection of the pixel encoding, or a transport
/// failure while echoing, transcoding or copying the tail.
#[derive(Clone, Copy, Debug, PartialEq, Eq, Structural)]
pub enum ConnectionError {
    HeaderParseError(ParseError),
    UnsupportedFormat,
    IoError,
}

/// The full server response to the byte stream `input` of one connection,
/// or the connection-level failure: parse the header; validate it; then the
/// response is the header and remainder echoed verbatim, the declared
/// number of pixel rows turned grey with padding passed through, and every
/// byte after the pixel region echoed verbatim. A declared width that is
/// negative or whose row would overflow the address space, or an input too
/// short for the declared pixel region, fails the transport stage.
pub open spec fn spec_response(input: Seq<u8>) -> Result<Seq<u8>, ConnectionError> {
    match spec_parse(input) {
        Err(e) => Err(ConnectionError::HeaderParseError(e)),
        Ok(pair) => {
            let hdr = pair.0;
            let rem = pair.1;
            if !spec_valid_bytes(hdr) {
                Err(ConnectionError::UnsupportedFormat)
            } else {
                let w = le32_signed(hdr, 18);
                let h = le32_signed(hdr, 22);
                let rows: int = if h <= 0 {
                    0
                } else {
                    h
                };
                if w < 0 {
                    Err(ConnectionError::IoError)
                } else if 3 * w + 3 > usize::MAX {
                    Err(ConnectionError::IoError)
                } else {
                    let rw = 3 * w;
                    let pad = spec_padding(rw);
                    let t = rw + pad;
                    let body = input.skip(hdr.len() + rem.len() as int);
                    if body.len() < rows * t {
                        Err(ConnectionError::IoError)
                    } else {
                        Ok(hdr + rem + grey_region(body, rw, pad, rows) + body.skip(rows * t))
                    }
                }
            }
        },
    }
}

/// Rejection without leakage: when the header parses but declares anything
/// other than 24 bits per pixel, no compression and no palette, the
/// connection's outcome is `UnsupportedFormat`, so not one byte is answered.
pub proof fn lemma_rejection_without_leakage(input: Seq<u8>)
    requires
        spec_parse(input) is Ok,
        !spec_valid_bytes(spec_parse(input)->Ok_0.0),
    ensures
        spec_response(input) == Err::<Seq<u8>, ConnectionError>(ConnectionError::UnsupportedFormat),
{
}

/// The service is a fixed point on its own output: feeding a successful
/// response back through the server yields exactly that response again.
/// The echoed header still parses and validates, every pixel's channels are
/// already equal, and turning them grey again changes nothing.
pub proof fn lemma_response_fixed_point(input: Seq<u8>)
    requires
        spec_response(input) is Ok,
    ensures
        spec_response(spec_response(input)->Ok_0) == spec_response(input),
{
    let pair = spec_parse(input)->Ok_0;
    let hdr = pair.0;
    let rem = pair.1;
    let w = le32_signed(hdr, 18);
    let h = le32_signed(hdr, 22);
    let rows: int = if h <= 0 {
        0
    } else {
        h
    };
    let rw = 3 * w;
    let pad = spec_padding(rw);
    let t = rw + pad;
    let off = hdr.len() + rem.len() as int;
    let body = input.skip(off);
    let g = grey_region(body, rw, pad, rows);
    let tail = body.skip(rows * t);
    let r = hdr + rem + g + tail;
    assert(spec_response(input) == Ok::<Seq<u8>, ConnectionError>(r));
    assert(hdr.len() == 52 && le32(input, 10) == off);
    assert(le32(hdr, 10) == le32(input, 10));
    assert(spec_magic_ok(hdr));
    let rest = g + tail;
    lemma_parse_prefix(hdr, rem, rest);
    assert(hdr + rem + rest =~= r);
    assert(spec_parse(r) == Ok::<_, ParseError>((hdr, rem)));
    lemma_grey_region_len(body, rw, pad, rows);
    assert(g.len() == rows * t);
    let body2 = r.skip(off);
    assert(body2 =~= g + tail);
    assert(body2.len() >= rows * t);
    assert(body2.take(rows * t) =~= g.take(rows * t));
    lemma_grey_region_prefix(body2, g, rw, pad, rows);
    assert(rw % 3 == 0) by (nonlinear_arith)
        requires
            rw == 3 * w,
    ;
    lemma_grey_region_idempotent(body, rw, pad, rows);
    assert(grey_region(body2, rw, pad, rows) == g);
    assert(body2.skip(rows * t) =~= tail);
    assert(spec_response(r) == Ok::<Seq<u8>, ConnectionError>(
        hdr + rem + grey_region(body2, rw, pad, rows) + body2.skip(rows * t),
    ));
    assert(spec_response(r) == Ok::<Seq<u8>, ConnectionError>(r));
}

/// Runs one whole connection over its input bytes: returns the exact
/// response stream of `spec_response`, or the failure on which the
/// connection closes with nothing sent.
pub fn handle_connection(input: &Vec<u8>) -> (r: Result<Vec<u8>, ConnectionError>)
    ensures
        match r {
            Ok(out) => spec_response(input@) == Ok::<Seq<u8>, ConnectionError>(out@),
            Err(e) => spec_response(input@) == Err::<Seq<u8>, ConnectionError>(e),
        },
{
    let bmp = match BitmapImageHeader::parse(input) {
        Ok(h) => h,
        Err(e) => {
            return Err(ConnectionError::HeaderParseError(e));
        },
    };
    if !bmp.validate() {
        return Err(ConnectionError::UnsupportedFormat);
    }
    let w = bmp.width();
    let h = bmp.height();
    if w < 0 {
        return Err(ConnectionError::IoError);
    }
    let w_us = w as usize;
    if w_us > (usize::MAX - 3) / 3 {
        proof {
            assert(3 * (w as int) + 3 > usize::MAX) by (nonlinear_arith)
                requires
                    w as int > (usize::MAX - 3) as int / 3,
                    w >= 0,
            ;
        }
        return Err(ConnectionError::IoError);
    }
    proof {
        assert(3 * (w as int) + 3 <= usize::MAX) by (nonlinear_arith)
            requires
                w as int <= (usize::MAX - 3) as int / 3,
                w >= 0,
        ;
    }
    let rows: usize = if h <= 0 {
        0
    } else {
        h as usize
    };
    let offset = bmp.offset();
    let mut out: Vec<u8> = Vec::new();
    bmp.write_to(&mut out);
    match convert_to_greyscale(input, offset, w_us, rows, &mut out) {
        Err(TranscodeError::ShortRead) => Err(ConnectionError::IoError),
        Ok(end) => {
            let mut tail = copy_range(input, end, input.len());
            out.append(&mut tail);
            proof {
                let hdr = bmp.header@;
                let rem = bmp.remainder@;
                let rw = 3 * (w as int);
                let pad = spec_padding(rw);
                let t = rw + pad;
                let body = input@.skip(offset as int);
                assert(body.skip(rows * t) =~= input@.subrange(end as int, input@.len() as int));
                assert(out@ =~= hdr + rem + grey_region(body, rw, pad, rows as int) + body.skip(
                    rows * t,
                ));
            }
            Ok(out)
        },
    }
}

} // verus!
