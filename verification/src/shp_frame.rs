//! SHP frames: their 24-byte headers, their pixel data (raw or run-length
//! encoded) and their rendering onto an RGBA canvas.
use crate::bytes::{le_u16, le_u32, remaining, remaining_from, u16_at, u32_at};
use crate::error::Ra2Error;
use crate::palette::{channel, transparent, PalColor, Palette, Rgba};
use vstd::prelude::*;

verus! {

// ---------------------------------------------------------------------------
// Run-length encoded frame data
// ---------------------------------------------------------------------------
/// Decodes the body of one run-length encoded row, read from `pos` on, when
/// `consumed` of the row's `row_length` bytes are already read (the two bytes
/// of the length itself count).  Until the row's bytes are used up, each step
/// reads a control byte: a non-zero byte is one pixel of that index; a zero
/// byte is followed by a count of transparent (index 0) pixels.  Gives the
/// pixels and the position after the row, or `None` when the data ends first.
pub open spec fn rle_row_body(data: Seq<u8>, pos: int, consumed: int, row_length: int) -> Option<
    (Seq<u8>, int),
>
    decreases row_length + 1 - consumed,
{
    if consumed >= row_length {
        Some((Seq::empty(), pos))
    } else if pos < 0 || pos >= data.len() {
        None
    } else if data[pos] == 0 {
        if pos + 1 >= data.len() {
            None
        } else {
            prepend_pixels(
                Seq::new(data[pos + 1] as nat, |k: int| 0u8),
                rle_row_body(data, pos + 2, consumed + 2, row_length),
            )
        }
    } else {
        prepend_pixels(seq![data[pos]], rle_row_body(data, pos + 1, consumed + 1, row_length))
    }
}

/// Puts `prefix` in front of the pixels of a decoded row, if there is one.
pub open spec fn prepend_pixels(prefix: Seq<u8>, r: Option<(Seq<u8>, int)>) -> Option<
    (Seq<u8>, int),
> {
    match r {
        Some((rest, next)) => Some((prefix + rest, next)),
        None => None,
    }
}

/// A decoded row cut or padded with transparent pixels to `width` pixels.
pub open spec fn fit_row(line: Seq<u8>, width: int) -> Seq<u8> {
    Seq::new(width as nat, |i: int| if i < line.len() { line[i] } else { 0u8 })
}

/// Decodes `rows` run-length encoded rows of `width` pixels from `pos` on.
/// Each row starts with its little-endian 16-bit length in bytes, the two
/// length bytes included.  `None` when the data ends first.
pub open spec fn rle_frame(data: Seq<u8>, pos: int, width: int, rows: nat) -> Option<Seq<u8>>
    decreases rows,
{
    if rows == 0 {
        Some(Seq::empty())
    } else if pos < 0 || pos + 2 > data.len() {
        None
    } else {
        match rle_row_body(data, pos + 2, 2, le_u16(data, pos)) {
            None => None,
            Some((line, next)) => match rle_frame(data, next, width, (rows - 1) as nat) {
                Some(rest) => Some(fit_row(line, width) + rest),
                None => None,
            },
        }
    }
}

/// Puts `prefix` in front of decoded frame data, if there is any.
pub open spec fn prepend_rows(prefix: Seq<u8>, r: Option<Seq<u8>>) -> Option<Seq<u8>> {
    match r {
        Some(rest) => Some(prefix + rest),
        None => None,
    }
}

proof fn lemma_prepend_pixels_assoc(a: Seq<u8>, b: Seq<u8>, r: Option<(Seq<u8>, int)>)
    ensures
        prepend_pixels(a, prepend_pixels(b, r)) == prepend_pixels(a + b, r),
{
    if let Some((rest, next)) = r {
        assert(a + (b + rest) =~= (a + b) + rest);
    }
}

proof fn lemma_prepend_rows_assoc(a: Seq<u8>, b: Seq<u8>, r: Option<Seq<u8>>)
    ensures
        prepend_rows(a, prepend_rows(b, r)) == prepend_rows(a + b, r),
{
    if let Some(rest) = r {
        assert(a + (b + rest) =~= (a + b) + rest);
    }
}

/// Whatever the bytes, run-length encoded data that decodes holds exactly
/// `width` pixels per row: longer rows are cut, shorter ones padded.
pub proof fn lemma_rle_frame_len(data: Seq<u8>, pos: int, width: int, rows: nat)
    requires
        width >= 0,
        rle_frame(data, pos, width, rows) is Some,
    ensures
        rle_frame(data, pos, width, rows).unwrap().len() == width * rows,
    decreases rows,
{
    if rows > 0 {
        let (line, next) = rle_row_body(data, pos + 2, 2, le_u16(data, pos)).unwrap();
        lemma_rle_frame_len(data, next, width, (rows - 1) as nat);
        let rest = rle_frame(data, next, width, (rows - 1) as nat).unwrap();
        assert(rle_frame(data, pos, width, rows).unwrap() == fit_row(line, width) + rest);
        assert(fit_row(line, width).len() == width);
        let r1: int = (rows - 1) as int;
        assert(width * (r1 + 1) == width + width * r1) by (nonlinear_arith);
        assert(rows == r1 + 1);
        assert((fit_row(line, width) + rest).len() == width + width * r1);
    } else {
        assert(width * rows == 0) by (nonlinear_arith)
            requires
                rows == 0,
        ;
    }
}

/// Whether decoding a row body from `pos` on, with `consumed` of its
/// `row_length` bytes read, reaches a transparent run whose count byte takes
/// the 16-bit count of bytes read past 65535.  The reader keeps that count in
/// a `u16`, so such a row stops it with an arithmetic overflow.
pub open spec fn rle_row_counter_overflows(
    data: Seq<u8>,
    pos: int,
    consumed: int,
    row_length: int,
) -> bool
    decreases row_length + 1 - consumed,
{
    if consumed >= row_length {
        false
    } else if pos < 0 || pos >= data.len() {
        false
    } else if data[pos] == 0 {
        if pos + 1 >= data.len() {
            false
        } else if consumed + 2 > 65535 {
            true
        } else {
            rle_row_counter_overflows(data, pos + 2, consumed + 2, row_length)
        }
    } else {
        rle_row_counter_overflows(data, pos + 1, consumed + 1, row_length)
    }
}

/// Whether decoding `rows` rows from `pos` on overflows the row's byte
/// count (see `rle_row_counter_overflows`) in a row that is reached.
pub open spec fn rle_frame_counter_overflows(data: Seq<u8>, pos: int, width: int, rows: nat) -> bool
    decreases rows,
{
    if rows == 0 {
        false
    } else if pos < 0 || pos + 2 > data.len() {
        false
    } else if rle_row_counter_overflows(data, pos + 2, 2, le_u16(data, pos)) {
        true
    } else {
        match rle_row_body(data, pos + 2, 2, le_u16(data, pos)) {
            None => false,
            Some((line, next)) => rle_frame_counter_overflows(data, next, width, (rows - 1) as nat),
        }
    }
}

/// Where decoding `rows` rows from `pos` on stops: the position after the
/// last row read (meaningful when `rle_frame` of the same arguments decodes).
pub open spec fn rle_frame_end(data: Seq<u8>, pos: int, width: int, rows: nat) -> int
    decreases rows,
{
    if rows == 0 {
        pos
    } else if pos < 0 || pos + 2 > data.len() {
        pos
    } else {
        match rle_row_body(data, pos + 2, 2, le_u16(data, pos)) {
            Some((line, next)) => rle_frame_end(data, next, width, (rows - 1) as nat),
            None => pos,
        }
    }
}

/// A decoded row with its end position moved `k` bytes on.
pub open spec fn shift_row(r: Option<(Seq<u8>, int)>, k: int) -> Option<(Seq<u8>, int)> {
    match r {
        Some((line, next)) => Some((line, next + k)),
        None => None,
    }
}

/// A row that decodes within `a` decodes the same when more bytes follow.
proof fn lemma_row_body_prefix(a: Seq<u8>, b: Seq<u8>, pos: int, consumed: int, row_length: int)
    requires
        rle_row_body(a, pos, consumed, row_length) is Some,
    ensures
        rle_row_body(a + b, pos, consumed, row_length) == rle_row_body(
            a,
            pos,
            consumed,
            row_length,
        ),
        rle_row_counter_overflows(a + b, pos, consumed, row_length)
            == rle_row_counter_overflows(a, pos, consumed, row_length),
    decreases row_length + 1 - consumed,
{
    if consumed < row_length {
        assert((a + b)[pos] == a[pos]);
        if a[pos] == 0 {
            assert((a + b)[pos + 1] == a[pos + 1]);
            lemma_row_body_prefix(a, b, pos + 2, consumed + 2, row_length);
        } else {
            lemma_row_body_prefix(a, b, pos + 1, consumed + 1, row_length);
        }
    }
}

/// A row that starts in `b` decodes the same when `a` comes in front, its
/// end moved by the length of `a`.
proof fn lemma_row_body_shift(a: Seq<u8>, b: Seq<u8>, pos: int, consumed: int, row_length: int)
    requires
        0 <= pos,
    ensures
        rle_row_body(a + b, a.len() + pos, consumed, row_length) == shift_row(
            rle_row_body(b, pos, consumed, row_length),
            a.len() as int,
        ),
        rle_row_counter_overflows(a + b, a.len() + pos, consumed, row_length)
            == rle_row_counter_overflows(b, pos, consumed, row_length),
    decreases row_length + 1 - consumed,
{
    if consumed < row_length && pos < b.len() {
        assert((a + b)[a.len() + pos] == b[pos]);
        if b[pos] == 0 {
            if pos + 1 < b.len() {
                assert((a + b)[a.len() + pos + 1] == b[pos + 1]);
            }
            lemma_row_body_shift(a, b, pos + 2, consumed + 2, row_length);
        } else {
            lemma_row_body_shift(a, b, pos + 1, consumed + 1, row_length);
        }
    }
}

/// Rows that decode within `a` decode the same, and end at the same place,
/// when more bytes follow.
proof fn lemma_frame_prefix(a: Seq<u8>, b: Seq<u8>, pos: int, width: int, rows: nat)
    requires
        rle_frame(a, pos, width, rows) is Some,
    ensures
        rle_frame(a + b, pos, width, rows) == rle_frame(a, pos, width, rows),
        rle_frame_end(a + b, pos, width, rows) == rle_frame_end(a, pos, width, rows),
        rle_frame_counter_overflows(a + b, pos, width, rows) == rle_frame_counter_overflows(
            a,
            pos,
            width,
            rows,
        ),
    decreases rows,
{
    if rows > 0 {
        assert(le_u16(a + b, pos) == le_u16(a, pos));
        let len = le_u16(a, pos);
        lemma_row_body_prefix(a, b, pos + 2, 2, len);
        let (line, next) = rle_row_body(a, pos + 2, 2, len).unwrap();
        lemma_frame_prefix(a, b, next, width, (rows - 1) as nat);
    }
}

/// Rows that start in `b` decode the same when `a` comes in front, their
/// end moved by the length of `a`.
proof fn lemma_frame_shift(a: Seq<u8>, b: Seq<u8>, pos: int, width: int, rows: nat)
    requires
        0 <= pos,
    ensures
        rle_frame(a + b, a.len() + pos, width, rows) == rle_frame(b, pos, width, rows),
        rle_frame_end(a + b, a.len() + pos, width, rows) == a.len() + rle_frame_end(
            b,
            pos,
            width,
            rows,
        ),
        rle_frame_counter_overflows(a + b, a.len() + pos, width, rows)
            == rle_frame_counter_overflows(b, pos, width, rows),
    decreases rows,
{
    if rows > 0 && pos + 2 <= b.len() {
        assert((a + b)[a.len() + pos] == b[pos]);
        assert((a + b)[a.len() + pos + 1] == b[pos + 1]);
        assert(le_u16(a + b, a.len() + pos) == le_u16(b, pos));
        let len = le_u16(b, pos);
        lemma_row_body_shift(a, b, pos + 2, 2, len);
        assert(a.len() + pos + 2 == a.len() + (pos + 2));
        match rle_row_body(b, pos + 2, 2, len) {
            Some((line, next)) => {
                assert(next >= 0) by {
                    lemma_row_body_end_after(b, pos + 2, 2, len);
                }
                lemma_frame_shift(a, b, next, width, (rows - 1) as nat);
            },
            None => {},
        }
    }
}

/// A decoded row ends at or after where it starts.
proof fn lemma_row_body_end_after(data: Seq<u8>, pos: int, consumed: int, row_length: int)
    requires
        rle_row_body(data, pos, consumed, row_length) is Some,
    ensures
        rle_row_body(data, pos, consumed, row_length).unwrap().1 >= pos,
    decreases row_length + 1 - consumed,
{
    if consumed < row_length {
        if data[pos] == 0 {
            lemma_row_body_end_after(data, pos + 2, consumed + 2, row_length);
        } else {
            lemma_row_body_end_after(data, pos + 1, consumed + 1, row_length);
        }
    }
}

/// Decoding `h1 + h2` rows is decoding `h1` rows, then `h2` rows from where
/// those end.
proof fn lemma_frame_split(data: Seq<u8>, pos: int, width: int, h1: nat, h2: nat)
    ensures
        rle_frame(data, pos, width, h1 + h2) == match rle_frame(data, pos, width, h1) {
            Some(x) => prepend_rows(x, rle_frame(data, rle_frame_end(data, pos, width, h1), width, h2)),
            None => None,
        },
        rle_frame_counter_overflows(data, pos, width, h1 + h2) == (rle_frame_counter_overflows(
            data,
            pos,
            width,
            h1,
        ) || (rle_frame(data, pos, width, h1) is Some && rle_frame_counter_overflows(
            data,
            rle_frame_end(data, pos, width, h1),
            width,
            h2,
        ))),
    decreases h1,
{
    if h1 == 0 {
        if let Some(y) = rle_frame(data, pos, width, h2) {
            assert(Seq::<u8>::empty() + y =~= y);
        }
    } else if pos < 0 || pos + 2 > data.len() {
    } else {
        let len = le_u16(data, pos);
        match rle_row_body(data, pos + 2, 2, len) {
            Some((line, next)) => {
                let r1 = (h1 - 1) as nat;
                lemma_frame_split(data, next, width, r1, h2);
                assert((h1 + h2 - 1) as nat == r1 + h2);
                let end = rle_frame_end(data, next, width, r1);
                lemma_prepend_rows_assoc(
                    fit_row(line, width),
                    rle_frame(data, next, width, r1).unwrap_or(Seq::empty()),
                    rle_frame(data, end, width, h2),
                );
            },
            None => {},
        }
    }
}

/// Encoded rows decode independently of each other: when `a` holds exactly
/// `h1` complete rows (decoding them reads all of `a`), decoding `h1 + h2`
/// rows of `a` followed by `b` gives the pixels of `a` followed by those of
/// `h2` rows of `b`, and fails exactly when `b` fails.  A row byte count
/// overflows in the joined data exactly when it does in `a` or in `b`.
pub proof fn lemma_rows_decode_independently(a: Seq<u8>, b: Seq<u8>, width: int, h1: nat, h2: nat)
    requires
        rle_frame(a, 0, width, h1) is Some,
        rle_frame_end(a, 0, width, h1) == a.len(),
    ensures
        rle_frame(a + b, 0, width, h1 + h2) == prepend_rows(
            rle_frame(a, 0, width, h1).unwrap(),
            rle_frame(b, 0, width, h2),
        ),
        rle_frame_counter_overflows(a + b, 0, width, h1 + h2) == (rle_frame_counter_overflows(
            a,
            0,
            width,
            h1,
        ) || rle_frame_counter_overflows(b, 0, width, h2)),
{
    lemma_frame_split(a + b, 0, width, h1, h2);
    lemma_frame_prefix(a, b, 0, width, h1);
    lemma_frame_shift(a, b, 0, width, h2);
    assert(a.len() + 0 == a.len());
}

enum RleOutcome {
    Decoded(Vec<u8>),
    EndOfData,
    CounterOverflow,
}

/// Decodes run-length encoded rows, telling apart the end of the data and a
/// row whose 16-bit byte count would overflow.
fn decode_rle_rows(data: &[u8], start: usize, frame_width: u16, frame_height: u16) -> (r:
    RleOutcome)
    ensures
        rle_frame_counter_overflows(data@, start as int, frame_width as int, frame_height as nat)
            ==> r is CounterOverflow,
        !rle_frame_counter_overflows(data@, start as int, frame_width as int, frame_height as nat)
            ==> match rle_frame(data@, start as int, frame_width as int, frame_height as nat) {
            Some(pixels) => r matches RleOutcome::Decoded(v) && v@ == pixels,
            None => r is EndOfData,
        },
{
    let ghost w = frame_width as int;
    let ghost h = frame_height as nat;
    let mut decompressed_data: Vec<u8> = Vec::new();
    let mut pos: usize = start;
    let mut row: u16 = 0;
    while row < frame_height
        invariant
            w == frame_width as int,
            h == frame_height as nat,
            row <= frame_height,
            rle_frame(data@, start as int, w, h) == prepend_rows(
                decompressed_data@,
                rle_frame(data@, pos as int, w, (frame_height - row) as nat),
            ),
            rle_frame_counter_overflows(data@, start as int, w, h) == rle_frame_counter_overflows(
                data@,
                pos as int,
                w,
                (frame_height - row) as nat,
            ),
        decreases frame_height - row,
    {
        let ghost rows_left: nat = (frame_height - row) as nat;
        let ghost row_start: int = pos as int;
        // Get the length of this line.
        if remaining_from(data, pos) < 2 {
            assert(rle_frame(data@, pos as int, w, rows_left) is None);
            return RleOutcome::EndOfData;
        }
        let row_length = u16_at(data, pos);
        pos = pos + 2;
        let ghost body_start: int = pos as int;
        let mut line_buffer: Vec<u8> = Vec::new();
        // Two bytes of the line length have been read.
        let mut current_byte_index: u32 = 2;
        assert(line_buffer@ + Seq::<u8>::empty() =~= Seq::<u8>::empty());
        while current_byte_index < row_length as u32
            invariant
                w == frame_width as int,
                h == frame_height as nat,
                pos <= data.len(),
                2 <= current_byte_index <= row_length as u32 + 2,
                rows_left >= 1,
                0 <= row_start,
                row_start + 2 <= data@.len(),
                body_start == row_start + 2,
                le_u16(data@, row_start) == row_length as int,
                rle_frame(data@, start as int, w, h) == prepend_rows(
                    decompressed_data@,
                    rle_frame(data@, row_start, w, rows_left),
                ),
                rle_frame_counter_overflows(data@, start as int, w, h)
                    == rle_frame_counter_overflows(data@, row_start, w, rows_left),
                rle_row_body(data@, body_start, 2, row_length as int) == prepend_pixels(
                    line_buffer@,
                    rle_row_body(data@, pos as int, current_byte_index as int, row_length as int),
                ),
                rle_row_counter_overflows(data@, body_start, 2, row_length as int)
                    == rle_row_counter_overflows(
                    data@,
                    pos as int,
                    current_byte_index as int,
                    row_length as int,
                ),
            decreases row_length as u32 + 2 - current_byte_index,
        {
            if pos >= data.len() {
                return RleOutcome::EndOfData;
            }
            let control_byte = data[pos];
            let ghost old_line = line_buffer@;
            pos = pos + 1;
            current_byte_index = current_byte_index + 1;
            //0x00 represents transparent.
            if control_byte == 0 {
                if pos >= data.len() {
                    return RleOutcome::EndOfData;
                }
                if current_byte_index + 1 > 65535 {
                    return RleOutcome::CounterOverflow;
                }
                //Number of transparent pixels.
                let transparent_count = data[pos];
                pos = pos + 1;
                current_byte_index = current_byte_index + 1;
                let mut k: u8 = 0;
                while k < transparent_count
                    invariant
                        k <= transparent_count,
                        line_buffer@ == old_line + Seq::new(k as nat, |j: int| 0u8),
                    decreases transparent_count - k,
                {
                    line_buffer.push(0);
                    k = k + 1;
                    assert(line_buffer@ =~= old_line + Seq::new(k as nat, |j: int| 0u8));
                }
                proof {
                    lemma_prepend_pixels_assoc(
                        old_line,
                        Seq::new(transparent_count as nat, |j: int| 0u8),
                        rle_row_body(
                            data@,
                            pos as int,
                            current_byte_index as int,
                            row_length as int,
                        ),
                    );
                }
            } else {
                line_buffer.push(control_byte);
                proof {
                    lemma_prepend_pixels_assoc(
                        old_line,
                        seq![control_byte],
                        rle_row_body(
                            data@,
                            pos as int,
                            current_byte_index as int,
                            row_length as int,
                        ),
                    );
                    assert(old_line + seq![control_byte] =~= line_buffer@);
                }
            }
        }
        proof {
            assert(line_buffer@ + Seq::<u8>::empty() =~= line_buffer@);
        }
        //For unknown reasons, the line_buffer may be longer than the frame_width, in which case the excess part can be cut off.
        let ghost before_row = decompressed_data@;
        let mut index: u16 = 0;
        while index < frame_width
            invariant
                w == frame_width as int,
                index <= frame_width,
                decompressed_data@ == before_row + fit_row(line_buffer@, w).take(index as int),
            decreases frame_width - index,
        {
            let byte: u8 = if (index as usize) < line_buffer.len() {
                line_buffer[index as usize]
            } else {
                0
            };
            decompressed_data.push(byte);
            index = index + 1;
            assert(decompressed_data@ =~= before_row + fit_row(line_buffer@, w).take(
                index as int,
            ));
        }
        proof {
            let fitted = fit_row(line_buffer@, w);
            assert(fitted.take(w) =~= fitted);
            lemma_prepend_rows_assoc(
                before_row,
                fitted,
                rle_frame(data@, pos as int, w, (rows_left - 1) as nat),
            );
        }
        row = row + 1;
    }
    proof {
        assert(decompressed_data@ + Seq::<u8>::empty() =~= decompressed_data@);
    }
    RleOutcome::Decoded(decompressed_data)
}

/// Decodes `frame_height` run-length encoded rows of `frame_width` pixels
/// each, starting at `start` in `data`.  Each row keeps a 16-bit count of the
/// bytes it has read, which must not overflow (see `rle_counter_overflows`).
pub fn decompress_rle_data(data: &[u8], start: usize, frame_width: u16, frame_height: u16) -> (r:
    Result<Vec<u8>, Ra2Error>)
    requires
        !rle_frame_counter_overflows(data@, start as int, frame_width as int, frame_height as nat),
    ensures
        match rle_frame(data@, start as int, frame_width as int, frame_height as nat) {
            Some(pixels) => r matches Ok(v) && v@ == pixels,
            None => r == Err::<Vec<u8>, Ra2Error>(Ra2Error::UnexpectedEof),
        },
{
    match decode_rle_rows(data, start, frame_width, frame_height) {
        RleOutcome::Decoded(v) => Ok(v),
        RleOutcome::EndOfData => Err(Ra2Error::UnexpectedEof),
        // ruled out by `requires`
        RleOutcome::CounterOverflow => Err(Ra2Error::UnexpectedEof),
    }
}

/// Tells whether decoding `frame_height` run-length encoded rows from
/// `start` overflows a row's 16-bit byte count (see `decompress_rle_data`,
/// which requires that it does not).
pub fn rle_counter_overflows(data: &[u8], start: usize, frame_width: u16, frame_height: u16) -> (r:
    bool)
    ensures
        r == rle_frame_counter_overflows(
            data@,
            start as int,
            frame_width as int,
            frame_height as nat,
        ),
{
    match decode_rle_rows(data, start, frame_width, frame_height) {
        RleOutcome::CounterOverflow => true,
        _ => false,
    }
}

// ---------------------------------------------------------------------------
// Frames
// ---------------------------------------------------------------------------
/// The mathematical content of a frame: its header fields as integers and
/// its pixel indices, one byte per pixel, row by row.
#[verifier::ext_equal]
pub struct FrameModel {
    pub x: int,
    pub y: int,
    pub width: int,
    pub height: int,
    pub flags: u8,
    pub reserved1: Seq<u8>,
    pub color: int,
    pub reserved2: Seq<u8>,
    pub offset: int,
    pub buffer: Seq<u8>,
}

pub struct ShpFrame {
    // The starting coordinate of the x-axis
    pub x: u16,
    // The starting coordinate of the y-axis
    pub y: u16,
    // The width of this frame
    pub width: u16,
    // The height of this frame
    pub height: u16,
    //
    pub flags: u8,
    // unused
    pub reserved1: [u8; 3],
    // unused
    pub color: u32,
    // unused
    pub reserved2: [u8; 4],
    // Offset start
    pub offset: u32,
    // The index buffer
    pub buffer: Vec<u8>,
}

impl View for ShpFrame {
    type V = FrameModel;

    open spec fn view(&self) -> FrameModel {
        FrameModel {
            x: self.x as int,
            y: self.y as int,
            width: self.width as int,
            height: self.height as int,
            flags: self.flags,
            reserved1: self.reserved1@,
            color: self.color as int,
            reserved2: self.reserved2@,
            offset: self.offset as int,
            buffer: self.buffer@,
        }
    }
}

/// The frame whose every field is zero and whose buffer is empty.
pub open spec fn empty_frame() -> FrameModel {
    FrameModel {
        x: 0,
        y: 0,
        width: 0,
        height: 0,
        flags: 0,
        reserved1: seq![0u8, 0u8, 0u8],
        color: 0,
        reserved2: seq![0u8, 0u8, 0u8, 0u8],
        offset: 0,
        buffer: Seq::empty(),
    }
}

impl Default for ShpFrame {
    fn default() -> (r: ShpFrame)
        ensures
            r@ == empty_frame(),
    {
        let r = ShpFrame {
            x: 0,
            y: 0,
            width: 0,
            height: 0,
            flags: 0,
            reserved1: [0u8; 3],
            color: 0,
            reserved2: [0u8; 4],
            offset: 0,
            buffer: Vec::new(),
        };
        assert(r@.reserved1 =~= seq![0u8, 0u8, 0u8]);
        assert(r@.reserved2 =~= seq![0u8, 0u8, 0u8, 0u8]);
        r
    }
}

/// Whether the frame stores its pixels run-length encoded (flag bit 1).
pub open spec fn is_compressed(flags: u8) -> bool {
    flags & 2u8 != 0u8
}

/// The pixel data of frame `f` in `file`, given its header: nothing to read
/// when the offset is 0 (an empty frame keeps its buffer); otherwise
/// `width * height` raw bytes at the offset (none to read for a frame
/// without pixels), or run-length encoded rows there when the frame is
/// compressed.  `None` when the file ends first.
pub open spec fn frame_data(file: Seq<u8>, f: FrameModel) -> Option<Seq<u8>> {
    if f.offset == 0 {
        Some(f.buffer)
    } else if !is_compressed(f.flags) {
        if f.width * f.height == 0 {
            Some(Seq::empty())
        } else if f.offset + f.width * f.height <= file.len() {
            Some(file.subrange(f.offset, f.offset + f.width * f.height))
        } else {
            None
        }
    } else {
        rle_frame(file, f.offset, f.width, f.height as nat)
    }
}

/// Whether reading the pixel data of frame `f` from `file` overflows the
/// 16-bit byte count of one of its encoded rows.
pub open spec fn data_counter_overflows(file: Seq<u8>, f: FrameModel) -> bool {
    f.offset != 0 && is_compressed(f.flags) && rle_frame_counter_overflows(
        file,
        f.offset,
        f.width,
        f.height as nat,
    )
}

/// Whether two frames agree on every header field.
pub open spec fn same_header(a: FrameModel, b: FrameModel) -> bool {
    &&& a.x == b.x
    &&& a.y == b.y
    &&& a.width == b.width
    &&& a.height == b.height
    &&& a.flags == b.flags
    &&& a.reserved1 == b.reserved1
    &&& a.color == b.color
    &&& a.reserved2 == b.reserved2
    &&& a.offset == b.offset
}

/// The header fields of the 24-byte frame header at `base` in `file`, with
/// the buffer of `f`.
pub open spec fn header_at(file: Seq<u8>, base: int, f: FrameModel) -> FrameModel {
    FrameModel {
        x: le_u16(file, base),
        y: le_u16(file, base + 2),
        width: le_u16(file, base + 4),
        height: le_u16(file, base + 6),
        flags: file[base + 8],
        reserved1: file.subrange(base + 9, base + 12),
        color: le_u32(file, base + 12),
        reserved2: file.subrange(base + 16, base + 20),
        offset: le_u32(file, base + 20),
        buffer: f.buffer,
    }
}

impl ShpFrame {
    /// Reads the 24-byte frame header at `pos`, field by field, all
    /// little-endian: x, y, width, height (16 bits each), flags (8 bits),
    /// three reserved bytes, color (32 bits), four reserved bytes and the
    /// offset of the pixel data (32 bits).  When the data ends in the middle,
    /// the fields read before that point are updated and the rest keep their
    /// values.
    pub fn read_shp_frame_header(&mut self, data: &[u8], pos: usize) -> (r: Result<(), Ra2Error>)
        ensures
            r is Ok <==> remaining(data@, pos as int) >= 24,
            r is Err ==> r == Err::<(), Ra2Error>(Ra2Error::UnexpectedEof),
            r is Ok ==> final(self)@ == header_at(data@, pos as int, old(self)@),
            final(self)@.buffer == old(self)@.buffer,
            final(self)@.x == if remaining(data@, pos as int) >= 2 {
                le_u16(data@, pos as int)
            } else {
                old(self)@.x
            },
            final(self)@.y == if remaining(data@, pos as int) >= 4 {
                le_u16(data@, pos + 2)
            } else {
                old(self)@.y
            },
            final(self)@.width == if remaining(data@, pos as int) >= 6 {
                le_u16(data@, pos + 4)
            } else {
                old(self)@.width
            },
            final(self)@.height == if remaining(data@, pos as int) >= 8 {
                le_u16(data@, pos + 6)
            } else {
                old(self)@.height
            },
            final(self)@.flags == if remaining(data@, pos as int) >= 9 {
                data@[pos + 8]
            } else {
                old(self)@.flags
            },
            final(self)@.reserved1 == if remaining(data@, pos as int) >= 12 {
                data@.subrange(pos + 9, pos + 12)
            } else {
                old(self)@.reserved1
            },
            final(self)@.color == if remaining(data@, pos as int) >= 16 {
                le_u32(data@, pos + 12)
            } else {
                old(self)@.color
            },
            final(self)@.reserved2 == if remaining(data@, pos as int) >= 20 {
                data@.subrange(pos + 16, pos + 20)
            } else {
                old(self)@.reserved2
            },
            final(self)@.offset == if remaining(data@, pos as int) >= 24 {
                le_u32(data@, pos + 20)
            } else {
                old(self)@.offset
            },
    {
        let avail = remaining_from(data, pos);
        if avail < 2 {
            return Err(Ra2Error::UnexpectedEof);
        }
        self.x = u16_at(data, pos);
        if avail < 4 {
            return Err(Ra2Error::UnexpectedEof);
        }
        self.y = u16_at(data, pos + 2);
        if avail < 6 {
            return Err(Ra2Error::UnexpectedEof);
        }
        self.width = u16_at(data, pos + 4);
        if avail < 8 {
            return Err(Ra2Error::UnexpectedEof);
        }
        self.height = u16_at(data, pos + 6);
        if avail < 9 {
            return Err(Ra2Error::UnexpectedEof);
        }
        self.flags = data[pos + 8];
        if avail < 12 {
            return Err(Ra2Error::UnexpectedEof);
        }
        self.reserved1 = [data[pos + 9], data[pos + 10], data[pos + 11]];
        assert(self.reserved1@ =~= data@.subrange(pos + 9, pos + 12));
        if avail < 16 {
            return Err(Ra2Error::UnexpectedEof);
        }
        self.color = u32_at(data, pos + 12);
        if avail < 20 {
            return Err(Ra2Error::UnexpectedEof);
        }
        self.reserved2 = [data[pos + 16], data[pos + 17], data[pos + 18], data[pos + 19]];
        assert(self.reserved2@ =~= data@.subrange(pos + 16, pos + 20));
        if avail < 24 {
            return Err(Ra2Error::UnexpectedEof);
        }
        self.offset = u32_at(data, pos + 20);
        Ok(())
    }

    /// Reads the frame's pixel data from the whole file `data`.  An offset of
    /// 0 marks an empty frame and reads nothing.  Otherwise the data at the
    /// offset is `width * height` raw bytes, or run-length encoded rows when
    /// flag bit 1 is set.  When the file ends first, a raw frame is left with
    /// a zeroed buffer of the frame's size and an encoded one keeps its buffer.
    pub fn read_shp_frame_data(&mut self, data: &[u8]) -> (r: Result<(), Ra2Error>)
        requires
            !data_counter_overflows(data@, old(self)@),
        ensures
            same_header(final(self)@, old(self)@),
            match frame_data(data@, old(self)@) {
                Some(b) => r is Ok && final(self)@.buffer == b,
                None => r == Err::<(), Ra2Error>(Ra2Error::UnexpectedEof) && final(self)@.buffer
                    == if is_compressed(old(self)@.flags) {
                    old(self)@.buffer
                } else {
                    Seq::new((old(self)@.width * old(self)@.height) as nat, |i: int| 0u8)
                },
            },
            r is Ok && old(self)@.offset != 0 ==> final(self)@.buffer.len() == old(self)@.width
                * old(self)@.height,
    {
        //If the offset is 0, it indicates an empty frame.
        if self.offset == 0 {
            return Ok(());
        }
        let start = self.offset as usize;
        //Check if compression is used.
        if self.flags & 0x02 == 0 {
            //Uncompressed.
            assert(self.width as int * self.height as int <= 65535 * 65535) by (nonlinear_arith)
                requires
                    self.width <= 65535,
                    self.height <= 65535,
            ;
            let frame_size = self.width as u32 * self.height as u32;
            let size = frame_size as usize;
            if size > 0 && remaining_from(data, start) < size {
                let zeros: Vec<u8> = vec![0u8; size];
                self.buffer = zeros;
                assert(self.buffer@ =~= Seq::new(
                    (old(self)@.width * old(self)@.height) as nat,
                    |i: int| 0u8,
                ));
                return Err(Ra2Error::UnexpectedEof);
            }
            if size == 0 {
                self.buffer = Vec::new();
            } else {
                self.buffer = vstd::slice::slice_to_vec(&data[start..start + size]);
            }
        } else {
            //Compress using RLE.
            self.buffer = match decompress_rle_data(data, start, self.width, self.height) {
                Ok(b) => b,
                Err(e) => {
                    return Err(e);
                },
            };
            proof {
                lemma_rle_frame_len(data@, start as int, self.width as int, self.height as nat);
            }
        }
        Ok(())
    }
}


// ---------------------------------------------------------------------------
// Rendering
// ---------------------------------------------------------------------------
/// An RGBA image: `width * height` pixels of four bytes (red, green, blue,
/// alpha), row by row from the top left.
pub struct RgbaFrame {
    pub width: u32,
    pub height: u32,
    pub pixels: Vec<u8>,
}

/// The position of channel `c` of pixel `(cx, cy)` in the bytes of an RGBA
/// image `width` pixels wide.
pub open spec fn byte_index(width: int, cx: int, cy: int, c: int) -> int {
    (cy * width + cx) * 4 + c
}

/// The pixel that frame `f` paints at `(cx, cy)` of the canvas, with palette
/// `colors`: inside the frame's rectangle, the palette colour of its index,
/// opaque, where index 0 is transparent; outside, transparent.
pub open spec fn frame_pixel(f: FrameModel, colors: Seq<PalColor>, cx: int, cy: int) -> Rgba {
    if f.x <= cx < f.x + f.width && f.y <= cy < f.y + f.height {
        let v = f.buffer[(cy - f.y) * f.width + (cx - f.x)];
        if v == 0 {
            transparent()
        } else {
            colors[v as int].spec_rgba()
        }
    } else {
        transparent()
    }
}

/// Whether `pixels` is the `width` by `depth` RGBA image of frame `f`.
#[verifier::opaque]
pub open spec fn renders(
    f: FrameModel,
    colors: Seq<PalColor>,
    width: int,
    depth: int,
    pixels: Seq<u8>,
) -> bool {
    &&& pixels.len() == width * depth * 4
    &&& forall|cx: int, cy: int, c: int|
        0 <= cx < width && 0 <= cy < depth && 0 <= c < 4 ==> #[trigger] pixels[byte_index(
            width,
            cx,
            cy,
            c,
        )] == channel(frame_pixel(f, colors, cx, cy), c)
}

/// Whether every pixel of frame `f` lands on a `width` by `depth` canvas and
/// its buffer holds an index for each: a frame without pixels always does.
pub open spec fn paints_within(f: FrameModel, width: int, depth: int) -> bool {
    f.width == 0 || f.height == 0 || {
        &&& f.x + f.width <= width
        &&& f.y + f.height <= depth
        &&& f.x + f.width <= 65536
        &&& f.y + f.height <= 65536
        &&& f.buffer.len() >= f.width * f.height
    }
}

/// Whether pixel `(cx, cy)` of frame `f` is painted once rows `0..dy` of the
/// frame are done and `dx` pixels of row `dy`.
spec fn painted(f: FrameModel, dy: int, dx: int, cx: int, cy: int) -> bool {
    &&& f.x <= cx < f.x + f.width
    &&& f.y <= cy < f.y + f.height
    &&& (cy - f.y < dy || (cy - f.y == dy && cx - f.x < dx))
}

proof fn lemma_byte_index_injective(w: int, cx: int, cy: int, c: int, px: int, py: int, d: int)
    requires
        0 <= cx < w,
        0 <= px < w,
        0 <= cy,
        0 <= py,
        0 <= c < 4,
        0 <= d < 4,
        byte_index(w, cx, cy, c) == byte_index(w, px, py, d),
    ensures
        cx == px,
        cy == py,
        c == d,
{
    let a = cy * w + cx;
    let b = py * w + px;
    assert(a == b && c == d);
    if cy < py {
        assert(cy * w + w <= py * w) by (nonlinear_arith)
            requires
                cy < py,
                w > 0,
        ;
    } else if cy > py {
        assert(py * w + w <= cy * w) by (nonlinear_arith)
            requires
                py < cy,
                w > 0,
        ;
    }
}

proof fn lemma_byte_index_bounds(w: int, d: int, cx: int, cy: int)
    requires
        0 <= cx < w,
        0 <= cy < d,
    ensures
        0 <= byte_index(w, cx, cy, 0),
        byte_index(w, cx, cy, 3) < w * d * 4,
{
    assert(0 <= cy * w) by (nonlinear_arith)
        requires
            0 <= cy,
            0 <= w,
    ;
    assert(cy * w + w <= d * w) by (nonlinear_arith)
        requires
            cy < d,
            0 <= w,
    ;
    assert(d * w == w * d) by (nonlinear_arith);
}

impl ShpFrame {
    /// Paints the frame onto a transparent `width` by `depth` canvas: each
    /// pixel of the frame goes to `(x + dx, y + dy)`, index 0 stays
    /// transparent and any other index takes its palette colour, opaque.
    pub fn create_image(&self, palette: &Palette, width: u32, depth: u32) -> (image: RgbaFrame)
        requires
            paints_within(self@, width as int, depth as int),
            width * depth * 4 <= usize::MAX,
        ensures
            image.width == width,
            image.height == depth,
            renders(self@, palette.colors@, width as int, depth as int, image.pixels@),
    {
        let ghost f = self@;
        let ghost colors = palette.colors@;
        let ghost w = width as int;
        let ghost d = depth as int;
        assert(w * d <= w * d * 4) by (nonlinear_arith)
            requires
                0 <= w,
                0 <= d,
        ;
        let total: usize = (width as usize) * (depth as usize) * 4;
        let mut pixels: Vec<u8> = vec![0u8; total];
        assert forall|cx: int, cy: int, c: int|
            0 <= cx < w && 0 <= cy < d && 0 <= c < 4 implies #[trigger] pixels@[byte_index(
                w,
                cx,
                cy,
                c,
            )] == (if painted(f, 0, 0, cx, cy) {
                channel(frame_pixel(f, colors, cx, cy), c)
            } else {
                0u8
            }) by {
            lemma_byte_index_bounds(w, d, cx, cy);
        }
        let mut index: usize = 0;
        let mut dy: u16 = 0;
        while dy < self.height
            invariant
                f == self@,
                colors == palette.colors@,
                w == width as int,
                d == depth as int,
                paints_within(f, w, d),
                total == w * d * 4,
                pixels@.len() == total,
                dy <= self.height,
                index == dy * f.width,
                forall|cx: int, cy: int, c: int|
                    0 <= cx < w && 0 <= cy < d && 0 <= c < 4 ==> #[trigger] pixels@[byte_index(
                        w,
                        cx,
                        cy,
                        c,
                    )] == (if painted(f, dy as int, 0, cx, cy) {
                        channel(frame_pixel(f, colors, cx, cy), c)
                    } else {
                        0u8
                    }),
            decreases self.height - dy,
        {
            let mut dx: u16 = 0;
            while dx < self.width
                invariant
                    f == self@,
                    colors == palette.colors@,
                    w == width as int,
                    d == depth as int,
                    paints_within(f, w, d),
                    total == w * d * 4,
                    pixels@.len() == total,
                    dy < self.height,
                    dx <= self.width,
                    index == dy * f.width + dx,
                    forall|cx: int, cy: int, c: int|
                        0 <= cx < w && 0 <= cy < d && 0 <= c < 4 ==> #[trigger] pixels@[byte_index(
                            w,
                            cx,
                            cy,
                            c,
                        )] == (if painted(f, dy as int, dx as int, cx, cy) {
                            channel(frame_pixel(f, colors, cx, cy), c)
                        } else {
                            0u8
                        }),
                decreases self.width - dx,
            {
                let ghost gdx = dx as int;
                let ghost gdy = dy as int;
                assert(gdy * f.width + gdx < f.width * f.height) by (nonlinear_arith)
                    requires
                        0 <= gdy < f.height,
                        0 <= gdx < f.width,
                ;
                let px: u16 = self.x + dx;
                let py: u16 = self.y + dy;
                proof {
                    lemma_byte_index_bounds(w, d, px as int, py as int);
                }
                assert(index < self.buffer.len());
                let color = self.buffer[index];
                let rgba: Rgba = if color == 0 {
                    (0u8, 0u8, 0u8, 0u8)
                } else {
                    match palette.get_color(color) {
                        Ok(pal) => pal.to_rgba(),
                        Err(_) => (0u8, 0u8, 0u8, 0u8),
                    }
                };
                assert((py - f.y) * f.width + (px - f.x) == index);
                assert(rgba == frame_pixel(f, colors, px as int, py as int));
                let base: usize = ((py as usize) * (width as usize) + px as usize) * 4;
                assert(base == byte_index(w, px as int, py as int, 0));
                let ghost before = pixels@;
                pixels.set(base, rgba.0);
                pixels.set(base + 1, rgba.1);
                pixels.set(base + 2, rgba.2);
                pixels.set(base + 3, rgba.3);
                dx = dx + 1;
                index = index + 1;
                assert forall|cx: int, cy: int, c: int|
                    0 <= cx < w && 0 <= cy < d && 0 <= c < 4 implies #[trigger] pixels@[byte_index(
                        w,
                        cx,
                        cy,
                        c,
                    )] == (if painted(f, dy as int, dx as int, cx, cy) {
                        channel(frame_pixel(f, colors, cx, cy), c)
                    } else {
                        0u8
                    }) by {
                    let k = byte_index(w, cx, cy, c);
                    lemma_byte_index_bounds(w, d, cx, cy);
                    if base <= k < base + 4 {
                        lemma_byte_index_injective(w, cx, cy, c, px as int, py as int, k - base);
                    } else {
                        assert(pixels@[k] == before[k]);
                        if cx == px && cy == py {
                            assert(k == base + c);
                        }
                    }
                }
            }
            assert(dy * f.width + f.width == (dy + 1) * f.width) by (nonlinear_arith);
            dy = dy + 1;
            assert forall|cx: int, cy: int, c: int|
                0 <= cx < w && 0 <= cy < d && 0 <= c < 4 implies #[trigger] pixels@[byte_index(
                    w,
                    cx,
                    cy,
                    c,
                )] == (if painted(f, dy as int, 0, cx, cy) {
                    channel(frame_pixel(f, colors, cx, cy), c)
                } else {
                    0u8
                }) by {
                assert(painted(f, dy as int, 0, cx, cy) == painted(
                    f,
                    dy - 1,
                    f.width,
                    cx,
                    cy,
                ));
            }
        }
        assert forall|cx: int, cy: int, c: int|
            0 <= cx < w && 0 <= cy < d && 0 <= c < 4 implies #[trigger] pixels@[byte_index(
                w,
                cx,
                cy,
                c,
            )] == channel(frame_pixel(f, colors, cx, cy), c) by {
            assert(painted(f, dy as int, 0, cx, cy) == (f.x <= cx < f.x + f.width && f.y <= cy
                < f.y + f.height));
        }
        proof {
            reveal(renders);
        }
        RgbaFrame { width, height: depth, pixels }
    }
}


impl ShpFrame {
    /// Whether every pixel of this frame lands on a `width` by `depth` canvas
    /// (see `create_image`, which requires it).
    pub fn fits_canvas(&self, width: u32, depth: u32) -> (r: bool)
        ensures
            r == paints_within(self@, width as int, depth as int),
    {
        if self.width == 0 || self.height == 0 {
            return true;
        }
        let right = self.x as u64 + self.width as u64;
        let bottom = self.y as u64 + self.height as u64;
        assert(self.width as int * self.height as int <= 65535 * 65535) by (nonlinear_arith)
            requires
                self.width <= 65535,
                self.height <= 65535,
        ;
        let size = self.width as u64 * self.height as u64;
        assert(size == self.width as int * self.height as int);
        right <= width as u64 && bottom <= depth as u64 && right <= 65536 && bottom <= 65536
            && self.buffer.len() as u64 >= size
    }
}


/// A run of non-zero bytes inside a row decodes to exactly those pixels: the
/// encoded row spells them out as they are stored raw.
pub proof fn lemma_literal_run(data: Seq<u8>, pos: int, k: int, row_length: int)
    requires
        0 <= pos,
        0 <= k,
        pos + k <= data.len(),
        forall|j: int| pos <= j < pos + k ==> data[j] != 0,
    ensures
        rle_row_body(data, pos, row_length - k, row_length) == Some(
            (data.subrange(pos, pos + k), pos + k),
        ),
    decreases k,
{
    if k > 0 {
        lemma_literal_run(data, pos + 1, k - 1, row_length);
        assert(seq![data[pos]] + data.subrange(pos + 1, pos + k) =~= data.subrange(pos, pos + k));
    } else {
        assert(data.subrange(pos, pos) =~= Seq::<u8>::empty());
    }
}

/// A rendered image holds four bytes (red, green, blue, alpha) per canvas
/// pixel, row by row, and every pixel outside the frame's rectangle is
/// transparent.
pub proof fn lemma_outside_frame_is_transparent(
    f: FrameModel,
    colors: Seq<PalColor>,
    width: int,
    depth: int,
    pixels: Seq<u8>,
    cx: int,
    cy: int,
    c: int,
)
    requires
        renders(f, colors, width, depth, pixels),
        0 <= cx < width,
        0 <= cy < depth,
        0 <= c < 4,
        !(f.x <= cx < f.x + f.width && f.y <= cy < f.y + f.height),
    ensures
        pixels.len() == width * depth * 4,
        pixels[(cy * width + cx) * 4 + c] == 0,
{
    reveal(renders);
    assert(pixels[byte_index(width, cx, cy, c)] == channel(frame_pixel(f, colors, cx, cy), c));
}

/// In a rendered frame, pixel `(cx, cy)` of the canvas shows index
/// `(cy - y) * width + (cx - x)` of the frame's buffer: index 0 is
/// transparent and any other index gives its palette colour, fully opaque.
pub proof fn lemma_inside_frame_pixel(
    f: FrameModel,
    colors: Seq<PalColor>,
    width: int,
    depth: int,
    pixels: Seq<u8>,
    cx: int,
    cy: int,
)
    requires
        renders(f, colors, width, depth, pixels),
        0 <= cx < width,
        0 <= cy < depth,
        f.x <= cx < f.x + f.width,
        f.y <= cy < f.y + f.height,
    ensures
        ({
            let v = f.buffer[(cy - f.y) * f.width + (cx - f.x)];
            let at = |c: int| pixels[(cy * width + cx) * 4 + c];
            if v == 0 {
                at(0) == 0 && at(1) == 0 && at(2) == 0 && at(3) == 0
            } else {
                &&& at(0) == colors[v as int].red
                &&& at(1) == colors[v as int].green
                &&& at(2) == colors[v as int].blue
                &&& at(3) == 255
            }
        }),
{
    reveal(renders);
    assert(pixels[byte_index(width, cx, cy, 0)] == channel(frame_pixel(f, colors, cx, cy), 0));
    assert(pixels[byte_index(width, cx, cy, 1)] == channel(frame_pixel(f, colors, cx, cy), 1));
    assert(pixels[byte_index(width, cx, cy, 2)] == channel(frame_pixel(f, colors, cx, cy), 2));
    assert(pixels[byte_index(width, cx, cy, 3)] == channel(frame_pixel(f, colors, cx, cy), 3));
}


/// Every byte of a `width` by `depth` RGBA image is channel `k % 4` of pixel
/// `((k / 4) % width, (k / 4) / width)`.
proof fn lemma_byte_index_cover(width: int, depth: int, k: int)
    requires
        width > 0,
        depth >= 0,
        0 <= k < width * depth * 4,
    ensures
        0 <= (k / 4) % width < width,
        0 <= (k / 4) / width < depth,
        0 <= k % 4 < 4,
        k == byte_index(width, (k / 4) % width, (k / 4) / width, k % 4),
{
    let q = k / 4;
    vstd::arithmetic::div_mod::lemma_fundamental_div_mod(k, 4);
    vstd::arithmetic::div_mod::lemma_fundamental_div_mod(q, width);
    vstd::arithmetic::div_mod::lemma_mod_pos_bound(q, width);
    vstd::arithmetic::div_mod::lemma_div_pos_is_pos(q, width);
    assert(q < width * depth);
    vstd::arithmetic::div_mod::lemma_multiply_divide_lt(q, width, depth);
    assert(width * (q / width) == (q / width) * width) by (nonlinear_arith);
}

/// A frame's RGBA image is unique: two byte sequences that both render it
/// on the same canvas with the same palette are equal.
pub proof fn lemma_rendering_is_unique(
    f: FrameModel,
    colors: Seq<PalColor>,
    width: int,
    depth: int,
    p1: Seq<u8>,
    p2: Seq<u8>,
)
    requires
        width >= 0,
        depth >= 0,
        renders(f, colors, width, depth, p1),
        renders(f, colors, width, depth, p2),
    ensures
        p1 == p2,
{
    reveal(renders);
    assert forall|k: int| 0 <= k < p1.len() implies p1[k] == p2[k] by {
        if width == 0 {
            assert(width * depth * 4 == 0) by (nonlinear_arith)
                requires
                    width == 0,
            ;
        }
        lemma_byte_index_cover(width, depth, k);
        let cx = (k / 4) % width;
        let cy = (k / 4) / width;
        let c = k % 4;
        assert(p1[byte_index(width, cx, cy, c)] == p2[byte_index(width, cx, cy, c)]);
    }
    assert(p1 =~= p2);
}


/// A transparent run (a zero control byte followed by a count `n`) decodes
/// to exactly `n` transparent pixels, after which decoding goes on with the
/// control byte that follows the count.
pub proof fn lemma_transparent_run(data: Seq<u8>, pos: int, consumed: int, row_length: int)
    requires
        0 <= pos,
        pos + 1 < data.len(),
        data[pos] == 0,
        consumed < row_length,
    ensures
        rle_row_body(data, pos, consumed, row_length) == match rle_row_body(
            data,
            pos + 2,
            consumed + 2,
            row_length,
        ) {
            Some((rest, next)) => Some((Seq::new(data[pos + 1] as nat, |k: int| 0u8) + rest, next)),
            None => None,
        },
{
}

/// A row holding a transparent run of `n` pixels and then the index `v`
/// decodes to `n` transparent pixels, the pixel `v`, and transparent pixels
/// up to the frame width: `[5, 0, 0, n, v]` at width 3 with `n == 2` is
/// `[0, 0, v]`.
pub proof fn lemma_run_then_index(n: u8, v: u8, width: int)
    requires
        v != 0,
        n < width,
    ensures
        rle_frame(seq![5u8, 0u8, 0u8, n, v], 0, width, 1) == Some(
            Seq::new(width as nat, |i: int| if i == n { v } else { 0u8 }),
        ),
{
    let row = seq![5u8, 0u8, 0u8, n, v];
    assert(le_u16(row, 0) == 5);
    assert(rle_row_body(row, 5, 5, 5) == Some((Seq::<u8>::empty(), 5int)));
    assert(rle_row_body(row, 4, 4, 5) == Some((seq![v] + Seq::<u8>::empty(), 5int)));
    let zeros = Seq::new(n as nat, |k: int| 0u8);
    let line = zeros + (seq![v] + Seq::<u8>::empty());
    assert(rle_row_body(row, 2, 2, 5) == Some((line, 5int)));
    assert(rle_frame(row, 5, width, 0) == Some(Seq::<u8>::empty()));
    assert(fit_row(line, width) + Seq::<u8>::empty() =~= Seq::new(
        width as nat,
        |i: int| if i == n { v } else { 0u8 },
    ));
}

/// A frame whose flags have bit 0x02 clear is stored raw: its data is the
/// `width * height` bytes at its offset, whatever its other flag bits.
pub proof fn lemma_raw_frame_data(file: Seq<u8>, f: FrameModel)
    requires
        f.offset > 0,
        f.width >= 0,
        f.height >= 0,
        f.flags & 2u8 == 0u8,
        f.offset + f.width * f.height <= file.len(),
    ensures
        frame_data(file, f) == Some(file.subrange(f.offset, f.offset + f.width * f.height)),
{
    if f.width * f.height == 0 {
        assert(file.subrange(f.offset, f.offset + f.width * f.height) =~= Seq::<u8>::empty());
    }
}

/// A frame whose flags have bit 0x02 set is stored as run-length encoded
/// rows at its offset, whatever its other flag bits.
pub proof fn lemma_compressed_frame_data(file: Seq<u8>, f: FrameModel)
    requires
        f.offset != 0,
        f.flags & 2u8 != 0u8,
    ensures
        frame_data(file, f) == rle_frame(file, f.offset, f.width, f.height as nat),
{
}

/// An empty frame (offset 0) reads nothing and keeps its buffer.
pub proof fn lemma_empty_frame_data(file: Seq<u8>, f: FrameModel)
    requires
        f.offset == 0,
    ensures
        frame_data(file, f) == Some(f.buffer),
{
}


/// A row that spells out `k` non-zero indices (its length is `2 + k`)
/// decodes to those indices, cut to the frame width when longer and padded
/// with transparent pixels when shorter.
pub proof fn lemma_literal_row(data: Seq<u8>, k: int, width: int)
    requires
        0 <= k,
        0 <= width,
        2 + k <= data.len(),
        data[0] + 256 * data[1] == 2 + k,
        forall|j: int| 2 <= j < 2 + k ==> data[j] != 0,
    ensures
        rle_frame(data, 0, width, 1) == Some(
            Seq::new(width as nat, |i: int| if i < k { data[2 + i] } else { 0u8 }),
        ),
{
    lemma_literal_run(data, 2, k, 2 + k);
    let line = data.subrange(2, 2 + k);
    assert(rle_row_body(data, 2, 2, 2 + k) == Some((line, 2 + k)));
    assert(rle_frame(data, 2 + k, width, 0) == Some(Seq::<u8>::empty()));
    assert(fit_row(line, width) + Seq::<u8>::empty() =~= Seq::new(
        width as nat,
        |i: int| if i < k { data[2 + i] } else { 0u8 },
    ));
}

} // verus!
