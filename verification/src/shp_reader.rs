//! Reading whole SHP files: the header, the frame table and every frame.
use crate::bytes::{le_u16, remaining, u16_at};
use crate::error::Ra2Error;
use crate::palette::{PalColor, Palette};
use crate::shp_frame::{
    data_counter_overflows, empty_frame, frame_data, header_at, lemma_rendering_is_unique,
    paints_within, renders, rle_counter_overflows, FrameModel, RgbaFrame, ShpFrame,
};
use crate::shp_header::ShpHeader;
use vstd::prelude::*;

verus! {

/// The size of the file header, where the frame table starts.
pub const FILE_HEADER_BYTES: usize = 8;

/// The size of one entry of the frame table.
pub const FRAME_HEADER_BYTES: usize = 24;

/// Where the header of frame `index` starts.
pub open spec fn frame_header_pos(index: int) -> int {
    8 + 24 * index
}

/// Frame `index` of `file`: its header from the frame table and its pixel
/// data from its offset.  `None` when the file ends before either is read.
pub open spec fn frame_at(file: Seq<u8>, index: int) -> Option<FrameModel> {
    let base = frame_header_pos(index);
    if remaining(file, base) >= 24 {
        let h = header_at(file, base, empty_frame());
        match frame_data(file, h) {
            Some(b) => Some(FrameModel { buffer: b, ..h }),
            None => None,
        }
    } else {
        None
    }
}

/// Whether frames `0..n` of `file` can all be read.
pub open spec fn frames_readable(file: Seq<u8>, n: int) -> bool {
    forall|j: int| 0 <= j < n ==> (#[trigger] frame_at(file, j)) is Some
}

/// How many frames are decoded: half of them when the second half holds the
/// shadows, which are then left out.
pub open spec fn frame_count(number_of_frames: int, is_half: bool) -> int {
    if is_half {
        number_of_frames / 2
    } else {
        number_of_frames
    }
}

/// Whether reading frame `index` of `file` overflows the 16-bit byte count
/// of one of its encoded rows.
pub open spec fn frame_counter_overflows(file: Seq<u8>, index: int) -> bool {
    let base = frame_header_pos(index);
    remaining(file, base) >= 24 && data_counter_overflows(
        file,
        header_at(file, base, empty_frame()),
    )
}

/// Whether decoding the frames of `file` runs without a fault: each frame
/// that is reached, the frames before it having been read, keeps the byte
/// counts of its encoded rows within 16 bits; and once it is read, the
/// canvas that the file header gives fits in memory and the frame fits that
/// canvas.
pub open spec fn frames_decode_safely(file: Seq<u8>, is_half: bool) -> bool {
    file.len() >= 8 ==> {
        let width = le_u16(file, 2);
        let depth = le_u16(file, 4);
        forall|i: int|
            #![trigger frame_at(file, i)]
            #![trigger frame_counter_overflows(file, i)]
            0 <= i < frame_count(le_u16(file, 6), is_half) && frames_readable(file, i) ==> {
                &&& !frame_counter_overflows(file, i)
                &&& frame_at(file, i) is Some ==> {
                    &&& width * depth * 4 <= usize::MAX
                    &&& paints_within(frame_at(file, i).unwrap(), width, depth)
                }
            }
    }
}

fn read_shp_header(data: &[u8]) -> (r: Result<ShpHeader, Ra2Error>)
    ensures
        r is Ok <==> data.len() >= 8,
        r is Err ==> r == Err::<ShpHeader, Ra2Error>(Ra2Error::UnexpectedEof),
        r matches Ok(h) ==> h.is_read_from(data@),
{
    if data.len() < 8 {
        return Err(Ra2Error::UnexpectedEof);
    }
    let reserved = u16_at(data, 0);
    let width = u16_at(data, 2);
    let height = u16_at(data, 4);
    let number_of_frames = u16_at(data, 6);
    Ok(ShpHeader { _reserved: reserved, width, height, number_of_frames })
}

pub struct ShpReader {
    header: ShpHeader,
    data: Vec<u8>,
}

impl ShpReader {
    /// The bytes of the SHP file.
    pub closed spec fn file(&self) -> Seq<u8> {
        self.data@
    }

    /// The file header.
    pub closed spec fn spec_header(&self) -> ShpHeader {
        self.header
    }

    /// Opens the SHP file whose bytes are `data`, reading its header.
    pub fn new(data: Vec<u8>) -> (r: Result<ShpReader, Ra2Error>)
        ensures
            r is Ok <==> data@.len() >= 8,
            r is Err ==> r == Err::<ShpReader, Ra2Error>(Ra2Error::UnexpectedEof),
            r matches Ok(s) ==> s.file() == data@ && s.spec_header().is_read_from(data@),
    {
        let shp_header = match read_shp_header(data.as_slice()) {
            Ok(h) => h,
            Err(e) => {
                return Err(e);
            },
        };
        Ok(ShpReader { header: shp_header, data })
    }

    /// The file header.
    pub fn header(&self) -> (h: &ShpHeader)
        ensures
            *h == self.spec_header(),
    {
        &self.header
    }

    /// Reads frame `index`: its header at `8 + 24 * index`, then its data.
    pub fn get_frame(&self, index: u64) -> (r: Result<ShpFrame, Ra2Error>)
        requires
            8 + 24 * index <= u64::MAX,
            !frame_counter_overflows(self.file(), index as int),
        ensures
            match frame_at(self.file(), index as int) {
                Some(f) => r matches Ok(frame) && frame@ == f,
                None => r == Err::<ShpFrame, Ra2Error>(Ra2Error::UnexpectedEof),
            },
    {
        read_frame_at(self.data.as_slice(), index)
    }
}

/// Reads frame `index` of the SHP file `data`.
fn read_frame_at(data: &[u8], index: u64) -> (r: Result<ShpFrame, Ra2Error>)
    requires
        8 + 24 * index <= u64::MAX,
        !frame_counter_overflows(data@, index as int),
    ensures
        match frame_at(data@, index as int) {
            Some(f) => r matches Ok(frame) && frame@ == f,
            None => r == Err::<ShpFrame, Ra2Error>(Ra2Error::UnexpectedEof),
        },
{
    let position: u64 = 8 + index * 24;
    let mut buffer = ShpFrame::default();
    if position > data.len() as u64 {
        return Err(Ra2Error::UnexpectedEof);
    }
    let pos = position as usize;
    match buffer.read_shp_frame_header(data, pos) {
        Ok(()) => {},
        Err(e) => {
            return Err(e);
        },
    }
    let ghost with_header = buffer@;
    match buffer.read_shp_frame_data(data) {
        Ok(()) => {},
        Err(e) => {
            return Err(e);
        },
    }
    assert(buffer@ =~= FrameModel { buffer: buffer@.buffer, ..with_header });
    Ok(buffer)
}

/// Whether image `img` is frame `f` drawn on a `width` by `depth` canvas
/// with palette `colors`.
pub open spec fn shows_frame(
    img: RgbaFrame,
    f: FrameModel,
    colors: Seq<PalColor>,
    width: int,
    depth: int,
) -> bool {
    &&& img.width == width
    &&& img.height == depth
    &&& renders(f, colors, width, depth, img.pixels@)
}

/// The position of the last `.` in `name`, or -1 when there is none.
pub open spec fn last_dot(name: Seq<char>) -> int
    decreases name.len(),
{
    if name.len() == 0 {
        -1
    } else if name.last() == '.' {
        name.len() - 1
    } else {
        last_dot(name.drop_last())
    }
}

/// The extension of a file name: what follows its last `.`, unless that dot
/// starts the name (a hidden file such as `.shp` has none).
pub open spec fn file_extension(name: Seq<char>) -> Option<Seq<char>> {
    let i = last_dot(name);
    if i > 0 {
        Some(name.subrange(i + 1, name.len() as int))
    } else {
        None
    }
}

proof fn lemma_last_dot(name: Seq<char>)
    ensures
        -1 <= last_dot(name) < name.len(),
        last_dot(name) >= 0 ==> name[last_dot(name)] == '.',
        forall|j: int| last_dot(name) < j < name.len() ==> name[j] != '.',
    decreases name.len(),
{
    if name.len() > 0 && name.last() != '.' {
        let rest = name.drop_last();
        lemma_last_dot(rest);
        assert forall|j: int| last_dot(name) < j < name.len() implies name[j] != '.' by {
            if j < name.len() - 1 {
                assert(rest[j] == name[j]);
            }
        }
    }
}

/// Whether the file name `name` has the extension `shp`.
pub open spec fn is_shp_name(name: Seq<char>) -> bool {
    file_extension(name) == Some(seq!['s', 'h', 'p'])
}

/// A file name has the extension `shp` exactly when it ends in `.shp` with
/// at least one character in front of the dot.
pub proof fn lemma_shp_name(name: Seq<char>)
    ensures
        is_shp_name(name) <==> (name.len() >= 5 && name.subrange(
            name.len() - 4,
            name.len() as int,
        ) == seq!['.', 's', 'h', 'p']),
{
    lemma_last_dot(name);
    let n = name.len() as int;
    if n >= 5 && name.subrange(n - 4, n) == seq!['.', 's', 'h', 'p'] {
        assert(name[n - 4] == name.subrange(n - 4, n)[0]);
        assert(name[n - 3] == name.subrange(n - 4, n)[1]);
        assert(name[n - 2] == name.subrange(n - 4, n)[2]);
        assert(name[n - 1] == name.subrange(n - 4, n)[3]);
        assert(last_dot(name) == last_dot(name.subrange(0, n - 1))) by {
            assert(name.drop_last() =~= name.subrange(0, n - 1));
        }
        assert(last_dot(name.subrange(0, n - 1)) == last_dot(name.subrange(0, n - 2))) by {
            assert(name.subrange(0, n - 1).drop_last() =~= name.subrange(0, n - 2));
        }
        assert(last_dot(name.subrange(0, n - 2)) == last_dot(name.subrange(0, n - 3))) by {
            assert(name.subrange(0, n - 2).drop_last() =~= name.subrange(0, n - 3));
        }
        assert(last_dot(name.subrange(0, n - 3)) == n - 4);
        assert(name.subrange(n - 3, n) =~= seq!['s', 'h', 'p']);
    }
    if is_shp_name(name) {
        let i = last_dot(name);
        assert(name.subrange(i + 1, n).len() == 3);
        assert(name.subrange(n - 4, n) =~= seq!['.', 's', 'h', 'p']) by {
            assert(name[n - 3] == name.subrange(i + 1, n)[0]);
            assert(name[n - 2] == name.subrange(i + 1, n)[1]);
            assert(name[n - 1] == name.subrange(i + 1, n)[2]);
        }
    }
}

/// Whether the file name `name` has the extension `shp`.
pub fn has_shp_extension(name: &str) -> (r: bool)
    ensures
        r == is_shp_name(name@),
{
    proof {
        lemma_last_dot(name@);
    }
    let n = name.unicode_len();
    let ghost s = name@;
    let r = n >= 5 && name.get_char(n - 4) == '.' && name.get_char(n - 3) == 's' && name.get_char(
        n - 2,
    ) == 'h' && name.get_char(n - 1) == 'p';
    proof {
    if r {
        assert(s.drop_last().drop_last().drop_last() =~= s.subrange(0, n - 3));
        assert(last_dot(s.subrange(0, n - 3)) == n - 4);
        assert(last_dot(s.drop_last()) == last_dot(s.subrange(0, n - 1))) by {
            assert(s.drop_last() =~= s.subrange(0, n - 1));
        }
        assert(last_dot(s.subrange(0, n - 1)) == last_dot(s.subrange(0, n - 2))) by {
            assert(s.subrange(0, n - 1).drop_last() =~= s.subrange(0, n - 2));
        }
        assert(last_dot(s.subrange(0, n - 2)) == last_dot(s.subrange(0, n - 3))) by {
            assert(s.subrange(0, n - 2).drop_last() =~= s.subrange(0, n - 3));
        }
        assert(s.subrange(n - 3, n as int) =~= seq!['s', 'h', 'p']);
    } else if file_extension(s) == Some(seq!['s', 'h', 'p']) {
        let i = last_dot(s);
        assert(s.subrange(i + 1, n as int).len() == 3);
        assert(s[n - 3] == s.subrange(i + 1, n as int)[0]);
        assert(s[n - 2] == s.subrange(i + 1, n as int)[1]);
        assert(s[n - 1] == s.subrange(i + 1, n as int)[2]);
    }
    }
    r
}

/// Whether `images` are the frames of `file` that are decoded, each drawn on
/// the canvas of the file header with the palette `colors`.
pub open spec fn shows_frames(
    file: Seq<u8>,
    colors: Seq<PalColor>,
    is_half: bool,
    images: Seq<RgbaFrame>,
) -> bool {
    let n = frame_count(le_u16(file, 6), is_half);
    &&& images.len() == n
    &&& forall|i: int|
        0 <= i < n ==> shows_frame(
            #[trigger] images[i],
            frame_at(file, i).unwrap(),
            colors,
            le_u16(file, 2),
            le_u16(file, 4),
        )
}

/// Decoding only half of the frames gives the first half of what decoding
/// all of them gives, image for image.
pub proof fn lemma_half_is_prefix(
    file: Seq<u8>,
    colors: Seq<PalColor>,
    half: Seq<RgbaFrame>,
    full: Seq<RgbaFrame>,
)
    requires
        file.len() >= 8,
        shows_frames(file, colors, true, half),
        shows_frames(file, colors, false, full),
    ensures
        half.len() == full.len() / 2,
        forall|i: int|
            0 <= i < half.len() ==> {
                &&& (#[trigger] half[i]).width == full[i].width
                &&& half[i].height == full[i].height
                &&& half[i].pixels@ == full[i].pixels@
            },
{
    assert forall|i: int| 0 <= i < half.len() implies {
        &&& (#[trigger] half[i]).width == full[i].width
        &&& half[i].height == full[i].height
        &&& half[i].pixels@ == full[i].pixels@
    } by {
        assert(shows_frame(
            half[i],
            frame_at(file, i).unwrap(),
            colors,
            le_u16(file, 2),
            le_u16(file, 4),
        ));
        assert(shows_frame(
            full[i],
            frame_at(file, i).unwrap(),
            colors,
            le_u16(file, 2),
            le_u16(file, 4),
        ));
        lemma_rendering_is_unique(
            frame_at(file, i).unwrap(),
            colors,
            le_u16(file, 2),
            le_u16(file, 4),
            half[i].pixels@,
            full[i].pixels@,
        );
    }
}

/// Decodes the frames of a SHP file with a palette.  The SHP header is read
/// first; a file whose name `shp_file_name` does not have the extension
/// `shp` yields no frames.  With
/// `is_half` only the first half of the frames is decoded (the second half
/// holds their shadows).  Every frame is drawn on the canvas that the SHP
/// header sizes.
pub fn decode_shp_to_rgba_image(
    shp_data: Vec<u8>,
    palette: &Palette,
    shp_file_name: &str,
    is_half: bool,
) -> (r: Result<Vec<RgbaFrame>, Ra2Error>)
    requires
        is_shp_name(shp_file_name@) ==> frames_decode_safely(shp_data@, is_half),
    ensures
        shp_data@.len() < 8 ==> r == Err::<Vec<RgbaFrame>, Ra2Error>(Ra2Error::UnexpectedEof),
        shp_data@.len() >= 8 && !is_shp_name(shp_file_name@) ==> (r matches Ok(v) && v@.len()
            == 0),
        shp_data@.len() >= 8 && is_shp_name(shp_file_name@) ==> if frames_readable(
            shp_data@,
            frame_count(le_u16(shp_data@, 6), is_half),
        ) {
            r matches Ok(v) && shows_frames(shp_data@, palette.colors@, is_half, v@)
        } else {
            r == Err::<Vec<RgbaFrame>, Ra2Error>(Ra2Error::UnexpectedEof)
        },
{
    let ghost file = shp_data@;
    let shp = match ShpReader::new(shp_data) {
        Ok(s) => s,
        Err(e) => {
            return Err(e);
        },
    };
    let mut images: Vec<RgbaFrame> = Vec::new();
    let has_shp_extension = has_shp_extension(shp_file_name);
    if has_shp_extension {
        let header = shp.header();
        //Shadow rendering toggle.
        let count: u16 = if is_half {
            header.number_of_frames / 2
        } else {
            header.number_of_frames
        };
        let width = header.width as u32;
        let depth = header.height as u32;
        let mut i: u16 = 0;
        while i < count
            invariant
                shp.file() == file,
                file == shp_data@,
                is_shp_name(shp_file_name@),
                shp.spec_header().is_read_from(file),
                file.len() >= 8,
                frames_decode_safely(file, is_half),
                count == frame_count(le_u16(file, 6), is_half),
                width == le_u16(file, 2),
                depth == le_u16(file, 4),
                i <= count,
                frames_readable(file, i as int),
                images@.len() == i,
                forall|j: int|
                    0 <= j < i ==> shows_frame(
                        #[trigger] images@[j],
                        frame_at(file, j).unwrap(),
                        palette.colors@,
                        width as int,
                        depth as int,
                    ),
            decreases count - i,
        {
            let frame = match shp.get_frame(i as u64) {
                Ok(f) => f,
                Err(e) => {
                    assert(!frames_readable(file, count as int)) by {
                        assert(frame_at(file, i as int) is None);
                    }
                    return Err(e);
                },
            };
            assert(frame_at(file, i as int) is Some);
            let image = frame.create_image(palette, width, depth);
            let ghost prev = images@;
            images.push(image);
            i = i + 1;
            assert forall|j: int| 0 <= j < i implies (#[trigger] frame_at(file, j)) is Some by {
                if j < i - 1 {
                    assert(frames_readable(file, i - 1));
                }
            }
            assert forall|j: int|
                0 <= j < i implies shows_frame(
                #[trigger] images@[j],
                frame_at(file, j).unwrap(),
                palette.colors@,
                width as int,
                depth as int,
            ) by {
                if j < i - 1 {
                    assert(images@[j] == prev[j]);
                }
            }
        }
    }
    Ok(images)
}


/// Tells whether decoding the frames of the SHP file `shp_data` runs without
/// a fault (see `decode_shp_to_rgba_image`, which requires it whenever the
/// palette is valid and the name ends in `.shp`).
pub fn can_decode_frames(shp_data: &[u8], is_half: bool) -> (r: bool)
    ensures
        r == frames_decode_safely(shp_data@, is_half),
{
    let header = match read_shp_header(shp_data) {
        Ok(h) => h,
        Err(_) => {
            return true;
        },
    };
    let width = header.width as u64;
    let depth = header.height as u64;
    let count: u16 = if is_half {
        header.number_of_frames / 2
    } else {
        header.number_of_frames
    };
    let ghost file = shp_data@;
    let ghost n = frame_count(le_u16(file, 6), is_half);
    let mut i: u16 = 0;
    while i < count
        invariant
            file == shp_data@,
            file.len() >= 8,
            header.is_read_from(file),
            count == n,
            n == frame_count(le_u16(file, 6), is_half),
            i <= count,
            width == le_u16(file, 2),
            depth == le_u16(file, 4),
            frames_readable(file, i as int),
            forall|k: int|
                #![trigger frame_at(file, k)]
                #![trigger frame_counter_overflows(file, k)]
                0 <= k < i && frames_readable(file, k) ==> {
                    &&& !frame_counter_overflows(file, k)
                    &&& frame_at(file, k) is Some ==> {
                        &&& width * depth * 4 <= usize::MAX
                        &&& paints_within(frame_at(file, k).unwrap(), width as int, depth as int)
                    }
                },
        decreases count - i,
    {
        if !frame_decodes_safely(shp_data, i as u64, width as u32, depth as u32) {
            return false;
        }
        if !frame_is_readable(shp_data, i as u64) {
            assert forall|k: int|
                #![trigger frame_at(file, k)]
                #![trigger frame_counter_overflows(file, k)]
                0 <= k < n && frames_readable(file, k) implies {
                    &&& !frame_counter_overflows(file, k)
                    &&& frame_at(file, k) is Some ==> {
                        &&& width * depth * 4 <= usize::MAX
                        &&& paints_within(frame_at(file, k).unwrap(), width as int, depth as int)
                    }
                } by {
                if k > i {
                    assert(frame_at(file, i as int) is None);
                }
            }
            return true;
        }
        i = i + 1;
        assert forall|j: int| 0 <= j < i implies (#[trigger] frame_at(file, j)) is Some by {
            if j < i - 1 {
                assert(frames_readable(file, i - 1));
            }
        }
    }
    true
}

/// Whether frame `index` keeps its encoded rows' byte counts within 16 bits
/// and, once read, fits a `width` by `depth` canvas that fits in memory.
fn frame_decodes_safely(data: &[u8], index: u64, width: u32, depth: u32) -> (r: bool)
    requires
        index < 65536,
        width <= 65535,
        depth <= 65535,
    ensures
        r == (!frame_counter_overflows(data@, index as int) && (frame_at(data@, index as int) is Some
            ==> (width * depth * 4 <= usize::MAX && paints_within(
            frame_at(data@, index as int).unwrap(),
            width as int,
            depth as int,
        )))),
{
    let mut frame = ShpFrame::default();
    let position: u64 = 8 + index * 24;
    if position > data.len() as u64 {
        return true;
    }
    match frame.read_shp_frame_header(data, position as usize) {
        Ok(()) => {},
        Err(_) => {
            return true;
        },
    }
    if frame.offset != 0 && frame.flags & 0x02 != 0 && rle_counter_overflows(
        data,
        frame.offset as usize,
        frame.width,
        frame.height,
    ) {
        return false;
    }
    let ghost with_header = frame@;
    match frame.read_shp_frame_data(data) {
        Ok(()) => {},
        Err(_) => {
            return true;
        },
    }
    assert(frame@ =~= FrameModel { buffer: frame@.buffer, ..with_header });
    assert(width * depth * 4 <= 65535 * 65535 * 4) by (nonlinear_arith)
        requires
            width <= 65535,
            depth <= 65535,
    ;
    let canvas = width as u64 * depth as u64 * 4;
    canvas <= usize::MAX as u64 && frame.fits_canvas(width, depth)
}

/// Whether frame `index` can be read.
fn frame_is_readable(data: &[u8], index: u64) -> (r: bool)
    requires
        index < 65536,
        !frame_counter_overflows(data@, index as int),
    ensures
        r == frame_at(data@, index as int) is Some,
{
    read_frame_at(data, index).is_ok()
}


/// Frame `index` is read from the 24 bytes at `8 + 24 * index`: it exists
/// only when the file holds them, and its header fields are those bytes read
/// little-endian (x, y, width, height, flags, three reserved bytes, color,
/// four reserved bytes, offset).
pub proof fn lemma_frame_header_position(file: Seq<u8>, index: int)
    requires
        0 <= index,
    ensures
        file.len() < 8 + 24 * index + 24 ==> frame_at(file, index) is None,
        frame_at(file, index) matches Some(f) ==> {
            let b = 8 + 24 * index;
            &&& f.x == file[b] + 256 * file[b + 1]
            &&& f.y == file[b + 2] + 256 * file[b + 3]
            &&& f.width == file[b + 4] + 256 * file[b + 5]
            &&& f.height == file[b + 6] + 256 * file[b + 7]
            &&& f.flags == file[b + 8]
            &&& f.reserved1 == file.subrange(b + 9, b + 12)
            &&& f.color == file[b + 12] + 256 * file[b + 13] + 65536 * file[b + 14] + 16777216
                * file[b + 15]
            &&& f.reserved2 == file.subrange(b + 16, b + 20)
            &&& f.offset == file[b + 20] + 256 * file[b + 21] + 65536 * file[b + 22] + 16777216
                * file[b + 23]
        },
{
}

/// The number of images decoded is the little-endian 16-bit frame count at
/// bytes 6..8 of the file, or its half rounded down with `is_half`.
pub proof fn lemma_image_count(
    file: Seq<u8>,
    colors: Seq<PalColor>,
    is_half: bool,
    images: Seq<RgbaFrame>,
)
    requires
        file.len() >= 8,
        shows_frames(file, colors, is_half, images),
    ensures
        images.len() == if is_half {
            (file[6] + 256 * file[7]) / 2
        } else {
            file[6] + 256 * file[7]
        },
{
}

} // verus!
