//! The archive container: magic, entry table, image headers and decoding.
use vstd::prelude::*;

use crate::decode::{decode_line, decode_row, lemma_decode_row_in_bounds};
use crate::utils::{fits, i32_le, read_i16, read_i32, u16_le, u32_le, ByteCursor};

verus! {

/// Failures of the archive operations.
#[derive(Debug, Clone, Copy, PartialEq, Eq, Structural)]
pub enum Error {
    /// The byte source ended before a read could complete.
    IoError,
    /// The source does not start with the archive's magic bytes.
    InvalidArchive,
    /// The image is stored in a variant this decoder does not handle, or its
    /// dimensions cannot describe a raster.
    UnsupportedFileFormat,
    /// No image stands at the requested index.
    NoEntry,
}

/// The four bytes every archive starts with: `S25` and a zero byte.
pub open spec fn magic() -> Seq<u8> {
    seq![0x53u8, 0x32u8, 0x35u8, 0u8]
}

/// An entry table slot: a zero offset means no image.
pub open spec fn entry_of(raw: i32) -> Option<i32> {
    if raw == 0 {
        None
    } else {
        Some(raw)
    }
}

/// The entry table that opening the bytes `d` yields, or the error.
/// After the magic come a 32-bit entry count and that many 32-bit offsets;
/// a count below one means an empty table.
pub open spec fn open_spec(d: Seq<u8>) -> Result<Seq<Option<i32>>, Error> {
    if d.len() < 4 {
        Err(Error::IoError)
    } else if d.subrange(0, 4) != magic() {
        Err(Error::InvalidArchive)
    } else if d.len() < 8 {
        Err(Error::IoError)
    } else {
        let n = i32_le(d, 4) as int;
        if d.len() < 8 + 4 * n {
            Err(Error::IoError)
        } else {
            Ok(
                Seq::new(
                    if n < 0 {
                        0nat
                    } else {
                        n as nat
                    },
                    |i: int| entry_of(i32_le(d, 8 + 4 * i)),
                ),
            )
        }
    }
}

/// The byte position that seeking to the signed value `v` reaches, the value
/// read as an unsigned 64-bit position.
pub open spec fn seek_pos(v: int) -> int {
    if v >= 0 {
        v
    } else {
        v + 0x1_0000_0000_0000_0000
    }
}

/// The offset stored at `idx`, if the index is in range and the slot is used.
pub open spec fn entry_offset(entries: Seq<Option<i32>>, idx: int) -> Option<i32> {
    if 0 <= idx < entries.len() {
        entries[idx]
    } else {
        None
    }
}

/// The header of the image at entry `idx`, or the error.
/// The header is five 32-bit fields: width, height, the two anchor offsets and
/// a flag word whose top bit marks an incremental image.
pub open spec fn metadata_spec(d: Seq<u8>, entries: Seq<Option<i32>>, idx: int) -> Result<
    S25ImageMetadata,
    Error,
> {
    match entry_offset(entries, idx) {
        None => Err(Error::NoEntry),
        Some(off) => {
            let p = seek_pos(off as int);
            if !fits(d, p, 20) {
                Err(Error::IoError)
            } else {
                Ok(
                    S25ImageMetadata {
                        width: i32_le(d, p),
                        height: i32_le(d, p + 4),
                        offset_x: i32_le(d, p + 8),
                        offset_y: i32_le(d, p + 12),
                        incremental: u32_le(d, p + 16) >= 0x8000_0000,
                        head: (off + 20) as i64,
                    },
                )
            }
        },
    }
}

/// The dimensions describe a raster whose byte count fits the machine.
pub open spec fn dims_ok(m: S25ImageMetadata) -> bool {
    0 <= m.width && 0 <= m.height && m.width * m.height * 4 <= usize::MAX
}

/// Bytes in the image's raster.
pub open spec fn image_len(m: S25ImageMetadata) -> int {
    m.width * m.height * 4
}

/// Byte position of row `r`'s data, from the row table after the header; the
/// table holds the positions as unsigned 32-bit values.
pub open spec fn row_pos(d: Seq<u8>, m: S25ImageMetadata, r: int) -> int {
    u32_le(d, seek_pos(m.head as int) + 4 * r)
}

/// Where a row's token stream starts: after the 16-bit length, and after one
/// padding byte when the row sits at an odd position.
pub open spec fn row_start(rp: int) -> int {
    if rp % 2 == 1 {
        rp + 3
    } else {
        rp + 2
    }
}

/// The length of a row's token stream: its length word, with bit 0 cleared
/// when the row sits at an odd position.
pub open spec fn row_len(d: Seq<u8>, rp: int) -> int {
    let l = u16_le(d, rp);
    if rp % 2 == 1 {
        l - l % 2
    } else {
        l
    }
}

/// The row at `rp` can be read whole.
pub open spec fn row_ok(d: Seq<u8>, rp: int) -> bool {
    fits(d, rp, 2) && fits(d, row_start(rp), row_len(d, rp))
}

/// The token stream of the row at `rp`.
pub open spec fn row_tokens(d: Seq<u8>, rp: int) -> Seq<u8> {
    d.subrange(row_start(rp), row_start(rp) + row_len(d, rp))
}

/// The raster after decoding rows `0..k` in order into a zeroed buffer; row
/// `r` is drawn from byte `r * width * 4` on.
pub open spec fn rows_decoded(d: Seq<u8>, m: S25ImageMetadata, k: nat) -> Seq<u8>
    decreases k,
{
    if k == 0 {
        Seq::new(image_len(m) as nat, |i: int| 0u8)
    } else {
        decode_row(
            row_tokens(d, row_pos(d, m, k - 1)),
            rows_decoded(d, m, (k - 1) as nat),
            (k - 1) * m.width * 4,
            m.width as int,
        ).0
    }
}

/// The row table and every row can be read.
pub open spec fn rows_readable(d: Seq<u8>, m: S25ImageMetadata) -> bool {
    &&& m.height > 0 ==> fits(d, seek_pos(m.head as int), 4 * m.height)
    &&& forall|r: int| 0 <= r < m.height ==> row_ok(d, #[trigger] row_pos(d, m, r))
}

/// The raster of a non-incremental image with valid dimensions, or the error.
pub open spec fn unpack_spec(d: Seq<u8>, m: S25ImageMetadata) -> Result<Seq<u8>, Error> {
    if rows_readable(d, m) {
        Ok(rows_decoded(d, m, m.height as nat))
    } else {
        Err(Error::IoError)
    }
}

/// The header and raster of the image at entry `idx`, or the error.
pub open spec fn load_image_spec(d: Seq<u8>, entries: Seq<Option<i32>>, idx: int) -> Result<
    (S25ImageMetadata, Seq<u8>),
    Error,
> {
    match metadata_spec(d, entries, idx) {
        Err(e) => Err(e),
        Ok(m) => {
            if m.incremental || !dims_ok(m) {
                Err(Error::UnsupportedFileFormat)
            } else {
                match unpack_spec(d, m) {
                    Err(e) => Err(e),
                    Ok(px) => Ok((m, px)),
                }
            }
        },
    }
}

proof fn lemma_rows_decoded_length(d: Seq<u8>, m: S25ImageMetadata, k: nat)
    requires
        dims_ok(m),
    ensures
        rows_decoded(d, m, k).len() == image_len(m),
    decreases k,
{
    if k > 0 {
        lemma_rows_decoded_length(d, m, (k - 1) as nat);
        lemma_decode_row_in_bounds(
            row_tokens(d, row_pos(d, m, k - 1)),
            rows_decoded(d, m, (k - 1) as nat),
            (k - 1) * m.width * 4,
            m.width as int,
        );
    }
}

/// A source whose first four bytes are not the magic is refused as an
/// archive, whatever follows them.
pub proof fn lemma_bad_magic_refused(d: Seq<u8>)
    requires
        d.len() >= 4,
        d.subrange(0, 4) != magic(),
    ensures
        open_spec(d) == Err::<Seq<Option<i32>>, Error>(Error::InvalidArchive),
{
}

/// An opened archive has as many entry slots as its header declares (none
/// for a count below one).
pub proof fn lemma_entry_count(d: Seq<u8>)
    requires
        open_spec(d) is Ok,
    ensures
        open_spec(d)->Ok_0.len() == if i32_le(d, 4) < 0 {
            0
        } else {
            i32_le(d, 4) as int
        },
{
}

/// An index past the table, or a slot whose offset is zero, holds no image.
pub proof fn lemma_missing_entry(d: Seq<u8>, entries: Seq<Option<i32>>, idx: int)
    requires
        idx >= entries.len() || entries[idx] is None,
        idx >= 0,
    ensures
        load_image_spec(d, entries, idx) == Err::<(S25ImageMetadata, Seq<u8>), Error>(
            Error::NoEntry,
        ),
{
}

/// An entry whose header can be read and carries the incremental flag is
/// refused as unsupported, whatever the source holds after the header.
pub proof fn lemma_incremental_refused(d: Seq<u8>, entries: Seq<Option<i32>>, idx: int, off: i32)
    requires
        entry_offset(entries, idx) == Some(off),
        fits(d, seek_pos(off as int), 20),
        u32_le(d, seek_pos(off as int) + 16) >= 0x8000_0000,
    ensures
        load_image_spec(d, entries, idx) == Err::<(S25ImageMetadata, Seq<u8>), Error>(
            Error::UnsupportedFileFormat,
        ),
{
}

/// A decoded image's raster holds exactly `width * height * 4` bytes.
pub proof fn lemma_raster_length(d: Seq<u8>, entries: Seq<Option<i32>>, idx: int)
    requires
        load_image_spec(d, entries, idx) is Ok,
    ensures
        ({
            let (m, px) = load_image_spec(d, entries, idx)->Ok_0;
            px.len() == m.width * m.height * 4
        }),
{
    let m = metadata_spec(d, entries, idx)->Ok_0;
    lemma_rows_decoded_length(d, m, m.height as nat);
}

/// Decoding depends on the source bytes and the entry table alone: two
/// archives that agree on both decode every entry alike, wherever their read
/// positions stand.
pub proof fn lemma_decode_deterministic(a: S25Archive, b: S25Archive, idx: int)
    requires
        a.source() == b.source(),
        a.entries@ == b.entries@,
    ensures
        load_image_spec(a.source(), a.entries@, idx) == load_image_spec(
            b.source(),
            b.entries@,
            idx,
        ),
{
}

/// An archive: its byte source and its entry table.
pub struct S25Archive {
    pub file: ByteCursor,
    pub entries: Vec<Option<i32>>,
}

/// The header of one image.
#[derive(Debug, Clone, Copy, PartialEq, Eq, Structural)]
pub struct S25ImageMetadata {
    pub width: i32,
    pub height: i32,
    pub offset_x: i32,
    pub offset_y: i32,
    pub incremental: bool,
    /// Byte offset just past the header.
    pub head: i64,
}

/// A decoded image: its header and `width * height * 4` bytes of RGBA,
/// row-major, top to bottom.
#[derive(Debug, Clone)]
pub struct S25Image {
    pub metadata: S25ImageMetadata,
    pub rgba_buffer: Vec<u8>,
}

/// The position that seeking to the stored offset `v` reaches.
fn seek_target(v: i64) -> (r: u64)
    ensures
        r == seek_pos(v as int),
{
    if v >= 0 {
        v as u64
    } else {
        (v as i128 + 0x1_0000_0000_0000_0000) as u64
    }
}

/// The 32-bit pattern of `v` read as unsigned.
fn unsigned_of(v: i32) -> (r: u32)
    ensures
        v == crate::utils::as_i32(r as int),
{
    if v >= 0 {
        v as u32
    } else {
        (v as i64 + 0x1_0000_0000) as u32
    }
}

/// The 16-bit pattern of `v` read as unsigned.
fn unsigned_of16(v: i16) -> (r: u16)
    ensures
        v == crate::utils::as_i16(r as int),
{
    if v >= 0 {
        v as u16
    } else {
        (v as i32 + 0x1_0000) as u16
    }
}

/// Bytes in the raster of `m`, when its dimensions are valid.
fn pixel_bytes(m: &S25ImageMetadata) -> (r: Option<usize>)
    ensures
        r is Some <==> dims_ok(*m),
        r matches Some(n) ==> n == image_len(*m),
{
    if m.width < 0 || m.height < 0 {
        return None;
    }
    let w = m.width as i64;
    let h = m.height as i64;
    assert(0 <= w * h <= 0x7fff_ffff * 0x7fff_ffff) by (nonlinear_arith)
        requires
            0 <= w <= 0x7fff_ffff,
            0 <= h <= 0x7fff_ffff,
    ;
    let px = w * h;
    let bytes = px as u64 * 4;
    if bytes > usize::MAX as u64 {
        None
    } else {
        Some(bytes as usize)
    }
}

fn is_magic(b: &Vec<u8>) -> (r: bool)
    requires
        b@.len() == 4,
    ensures
        r == (b@ == magic()),
{
    let r = b[0] == 0x53 && b[1] == 0x32 && b[2] == 0x35 && b[3] == 0;
    assert(r ==> b@ =~= magic());
    r
}

impl S25Archive {
    /// The source bytes.
    pub open spec fn source(&self) -> Seq<u8> {
        self.file.data@
    }

    /// Opens an archive held in memory.
    pub fn from_raw_bytes(bytes: &[u8]) -> (r: Result<S25Archive, Error>)
        ensures
            match r {
                Ok(a) => a.source() == bytes@ && open_spec(bytes@) == Ok::<
                    Seq<Option<i32>>,
                    Error,
                >(a.entries@),
                Err(e) => open_spec(bytes@) == Err::<Seq<Option<i32>>, Error>(e),
            },
    {
        let mut file = ByteCursor::new(vstd::slice::slice_to_vec(bytes));
        let magic_buf = file.read_bytes(4)?;
        proof {
            if bytes@.len() >= 4 {
                assert(magic_buf@ =~= bytes@.subrange(0, 4));
            }
        }
        if !is_magic(&magic_buf) {
            return Err(Error::InvalidArchive);
        }
        let total_entries = read_i32(&mut file)?;
        let ghost d = bytes@;
        let mut entries: Vec<Option<i32>> = Vec::new();
        let mut i: i32 = 0;
        while i < total_entries
            invariant
                file.data@ == d,
                d == bytes@,
                d.len() >= 8,
                d.subrange(0, 4) == magic(),
                total_entries == i32_le(d, 4),
                0 <= i,
                total_entries >= 0 ==> i <= total_entries,
                total_entries < 0 ==> i == 0,
                file.pos == 8 + 4 * i,
                file.pos <= d.len(),
                entries@ =~= Seq::new(i as nat, |j: int| entry_of(i32_le(d, 8 + 4 * j))),
            decreases total_entries - i,
        {
            let offset = match read_i32(&mut file) {
                Ok(v) => v,
                Err(e) => {
                    assert(d.len() < 8 + 4 * total_entries);
                    return Err(e);
                },
            };
            entries.push(
                if offset == 0 {
                    None
                } else {
                    Some(offset)
                },
            );
            i += 1;
        }
        assert(open_spec(d) == Ok::<Seq<Option<i32>>, Error>(entries@));
        Ok(S25Archive { file, entries })
    }

    /// Number of entry slots.
    pub fn total_entries(&self) -> (r: usize)
        ensures
            r == self.entries@.len(),
    {
        self.entries.len()
    }

    /// Number of layers: slots are grouped a hundred to a layer.
    pub fn total_layers(&self) -> (r: usize)
        ensures
            r == self.entries@.len() / 100 + 1,
    {
        self.total_entries() / 100 + 1
    }

    /// Reads the header of the image at entry `entry`.
    pub fn load_image_metadata(&mut self, entry: usize) -> (r: Result<S25ImageMetadata, Error>)
        ensures
            final(self).source() == old(self).source(),
            final(self).entries@ == old(self).entries@,
            r == metadata_spec(old(self).source(), old(self).entries@, entry as int),
            r == Err::<S25ImageMetadata, Error>(Error::NoEntry) ==> *final(self) == *old(self),
    {
        let offset = if entry < self.entries.len() {
            match self.entries[entry] {
                Some(o) => o,
                None => {
                    return Err(Error::NoEntry);
                },
            }
        } else {
            return Err(Error::NoEntry);
        };
        let ghost d = self.source();
        let ghost p = seek_pos(offset as int);
        self.file.seek(seek_target(offset as i64));
        assert(self.file.pos == p);
        let width = read_i32(&mut self.file)?;
        let height = read_i32(&mut self.file)?;
        let offset_x = read_i32(&mut self.file)?;
        let offset_y = read_i32(&mut self.file)?;
        let flags = read_i32(&mut self.file)?;
        let m = S25ImageMetadata {
            width,
            height,
            offset_x,
            offset_y,
            incremental: flags < 0,
            head: offset as i64 + 20,
        };
        assert(fits(d, p, 20));
        assert(m.incremental == (u32_le(d, p + 16) >= 0x8000_0000));
        Ok(m)
    }

    /// Reads the token stream of the row stored at `rp`.
    fn read_row(&mut self, rp: u32) -> (r: Result<Vec<u8>, Error>)
        ensures
            final(self).source() == old(self).source(),
            final(self).entries@ == old(self).entries@,
            r is Ok <==> row_ok(old(self).source(), rp as int),
            r matches Ok(v) ==> v@ == row_tokens(old(self).source(), rp as int),
            r matches Err(e) ==> e == Error::IoError,
    {
        let ghost d = self.source();
        let ghost p = rp as int;
        self.file.seek(rp as u64);
        let word = unsigned_of16(read_i16(&mut self.file)?);
        assert(word == u16_le(d, p));
        let row_length: u16 = if rp % 2 == 1 {
            self.file.read_bytes(1)?;
            word - word % 2
        } else {
            word
        };
        assert(self.file.pos == row_start(p));
        assert(row_length == row_len(d, p));
        self.file.read_bytes(row_length as usize)
    }

    /// Decodes an image into `buf`, which holds its zeroed raster.
    fn unpack(&mut self, metadata: &S25ImageMetadata, buf: &mut Vec<u8>) -> (r: Result<(), Error>)
        requires
            !metadata.incremental && dims_ok(*metadata) ==> old(buf)@ == rows_decoded(
                old(self).source(),
                *metadata,
                0,
            ),
        ensures
            final(self).source() == old(self).source(),
            final(self).entries@ == old(self).entries@,
            metadata.incremental ==> r == Err::<(), Error>(Error::UnsupportedFileFormat)
                && final(self).file.pos == seek_pos(metadata.head as int) && final(buf)@ == old(
                buf,
            )@,
            !metadata.incremental && !dims_ok(*metadata) ==> r == Err::<(), Error>(
                Error::UnsupportedFileFormat,
            ),
            !metadata.incremental && dims_ok(*metadata) ==> match r {
                Ok(_) => unpack_spec(old(self).source(), *metadata) == Ok::<Seq<u8>, Error>(
                    final(buf)@,
                ),
                Err(e) => unpack_spec(old(self).source(), *metadata) == Err::<Seq<u8>, Error>(e),
            },
    {
        self.file.seek(seek_target(metadata.head));
        if metadata.incremental {
            return self.unpack_incremental(metadata, buf);
        }
        if pixel_bytes(metadata).is_none() {
            return Err(Error::UnsupportedFileFormat);
        }
        let ghost d = self.source();
        let ghost m = *metadata;
        let ghost head = seek_pos(m.head as int);
        let mut rows: Vec<u32> = Vec::new();
        let mut i: i32 = 0;
        while i < metadata.height
            invariant
                self.source() == d,
                d == old(self).source(),
                self.entries@ == old(self).entries@,
                m == *metadata,
                head == seek_pos(m.head as int),
                !metadata.incremental,
                dims_ok(m),
                0 <= i <= m.height,
                self.file.pos == head + 4 * i,
                i > 0 ==> fits(d, head, 4 * i),
                0 <= head,
                rows@.len() == i,
                forall|j: int| 0 <= j < i ==> rows@[j] == row_pos(d, m, j),
            decreases m.height - i,
        {
            let v = match read_i32(&mut self.file) {
                Ok(v) => v,
                Err(e) => {
                    assert(!fits(d, head, 4 * m.height));
                    return Err(e);
                },
            };
            let u = unsigned_of(v);
            assert(u == u32_le(d, head + 4 * i));
            rows.push(u);
            i += 1;
        }
        let width = metadata.width;
        let row_bytes: u64 = width as u64 * 4;
        let mut start: u64 = 0;
        let mut r: usize = 0;
        while r < rows.len()
            invariant
                self.source() == d,
                d == old(self).source(),
                self.entries@ == old(self).entries@,
                m == *metadata,
                head == seek_pos(m.head as int),
                !metadata.incremental,
                dims_ok(m),
                width == m.width,
                row_bytes == width * 4,
                rows@.len() == m.height,
                forall|j: int| 0 <= j < m.height ==> rows@[j] == row_pos(d, m, j),
                0 <= r <= m.height,
                start == r * m.width * 4,
                buf@ == rows_decoded(d, m, r as nat),
                forall|j: int| 0 <= j < r ==> row_ok(d, #[trigger] row_pos(d, m, j)),
            decreases m.height - r,
        {
            let rp = rows[r];
            let decode_buf = match self.read_row(rp) {
                Ok(v) => v,
                Err(e) => {
                    return Err(e);
                },
            };
            let mut offset: u64 = start;
            decode_line(decode_buf.as_slice(), buf, &mut offset, width);
            assert((r + 1) * m.width * 4 <= m.height * m.width * 4 && (r + 1) * m.width * 4 == r
                * m.width * 4 + m.width * 4) by (nonlinear_arith)
                requires
                    r + 1 <= m.height,
                    0 <= m.width,
            ;
            start = start + row_bytes;
            r += 1;
        }
        Ok(())
    }

    /// Incremental images store their rows as changes to an earlier frame;
    /// this decoder does not handle them.
    fn unpack_incremental(&mut self, _metadata: &S25ImageMetadata, _buf: &mut Vec<u8>) -> (r: Result<(), Error>)
        ensures
            *final(self) == *old(self),
            final(_buf)@ == old(_buf)@,
            r == Err::<(), Error>(Error::UnsupportedFileFormat),
    {
        Err(Error::UnsupportedFileFormat)
    }

    /// Decodes the image at entry `entry`.
    pub fn load_image(&mut self, entry: usize) -> (r: Result<S25Image, Error>)
        ensures
            final(self).source() == old(self).source(),
            final(self).entries@ == old(self).entries@,
            match r {
                Ok(img) => load_image_spec(old(self).source(), old(self).entries@, entry as int)
                    == Ok::<(S25ImageMetadata, Seq<u8>), Error>((img.metadata, img.rgba_buffer@)),
                Err(e) => load_image_spec(old(self).source(), old(self).entries@, entry as int)
                    == Err::<(S25ImageMetadata, Seq<u8>), Error>(e),
            },
            metadata_spec(old(self).source(), old(self).entries@, entry as int) matches Ok(m) ==> (
            m.incremental ==> final(self).file.pos == seek_pos(m.head as int)),
            r matches Err(Error::NoEntry) ==> *final(self) == *old(self),
    {
        let metadata = self.load_image_metadata(entry)?;
        let size: usize = if metadata.incremental {
            0
        } else {
            match pixel_bytes(&metadata) {
                Some(n) => n,
                None => {
                    return Err(Error::UnsupportedFileFormat);
                },
            }
        };
        let mut buf = vec![0u8; size];
        proof {
            if !metadata.incremental {
                assert(buf@ =~= rows_decoded(self.source(), metadata, 0));
            }
        }
        self.unpack(&metadata, &mut buf)?;
        Ok(S25Image { metadata, rgba_buffer: buf })
    }
}

} // verus!
