//! A minimal reader of TIFF structures in a file held in memory, and of the
//! size of embedded JPEGs.

use crate::text::{decimal, hex, hex_string, then_number, with_number};
use vstd::prelude::*;
use vstd::slice::{slice_subrange, slice_to_vec};
use vstd::string::StringExecFns;

verus! {

/// A TIFF structure: its byte order and where in the file it starts.
#[derive(Debug, Clone, Copy)]
pub struct TiffView {
    pub little_endian: bool,
    pub base: usize,
}

/// An entry of a directory as it stands in the file.
#[derive(Debug, Clone, Copy)]
pub struct RawEntry {
    pub tag: u16,
    pub field_type: u16,
    pub count: u32,
    pub value_bytes: [u8; 4],
}

/// A JPEG in the file, with the size of its image.
#[derive(Debug, Clone, Copy)]
pub struct EmbeddedJpeg {
    pub offset: u64,
    pub length: u32,
    pub width: u32,
    pub height: u32,
}

pub const TYPE_BYTE: u16 = 1;

pub const TYPE_SHORT: u16 = 3;

pub const TYPE_LONG: u16 = 4;

pub const TYPE_RATIONAL: u16 = 5;

pub const TYPE_UNDEFINED: u16 = 7;

pub const TAG_IMAGE_WIDTH: u16 = 0x0100;

pub const TAG_IMAGE_LENGTH: u16 = 0x0101;

pub const TAG_BITS_PER_SAMPLE: u16 = 0x0102;

pub const TAG_COMPRESSION: u16 = 0x0103;

pub const TAG_STRIP_OFFSETS: u16 = 0x0111;

pub const TAG_ORIENTATION: u16 = 0x0112;

pub const TAG_STRIP_BYTE_COUNTS: u16 = 0x0117;

pub const TAG_JPEG_INTERCHANGE_FORMAT: u16 = 0x0201;

pub const TAG_JPEG_INTERCHANGE_FORMAT_LENGTH: u16 = 0x0202;

pub const TAG_SUB_IFDS: u16 = 0x014A;

pub const TAG_EXIF_IFD: u16 = 0x8769;

pub const TAG_MAKERNOTE: u16 = 0x927C;

pub const TAG_NIKON_PREVIEW_IFD: u16 = 0x0011;

pub const COMPRESSION_NIKON_LOSSLESS: u32 = 34713;

pub const COMPRESSION_JPEG_OLD_STYLE: u32 = 6;

pub const COMPRESSION_JPEG: u32 = 7;

/// No directory has more entries than this.
pub const MAX_ENTRIES: usize = 1024;

/// The size of a JPEG is looked for in this many bytes from its start.
pub const SOF_WINDOW: usize = 4096;

/// An entry of a directory.
pub struct EntryView {
    pub tag: u16,
    pub field_type: u16,
    pub count: u32,
    pub value: Seq<u8>,
}

impl View for RawEntry {
    type V = EntryView;

    open spec fn view(&self) -> EntryView {
        EntryView {
            tag: self.tag,
            field_type: self.field_type,
            count: self.count,
            value: self.value_bytes@,
        }
    }
}

/// The entries of a directory.
pub open spec fn entry_views(entries: Seq<RawEntry>) -> Seq<EntryView> {
    entries.map_values(|e: RawEntry| e@)
}

/// What the system says of a read that goes over the end of the file.
pub open spec fn eof() -> Seq<char> {
    ": failed to fill whole buffer"@
}

/// The `n` bytes from `at` on, if the file has them. No bytes can be read anywhere.
pub open spec fn bytes_at(data: Seq<u8>, at: int, n: int) -> Option<Seq<u8>> {
    if n == 0 {
        Some(Seq::empty())
    } else if at + n <= data.len() {
        Some(data.subrange(at, at + n))
    } else {
        None
    }
}

/// Reads `n` bytes from `at` on.
pub fn read_at(data: &[u8], at: u128, n: u128) -> (r: Option<&[u8]>)
    ensures
        match bytes_at(data@, at as int, n as int) {
            Some(b) => r is Some && r->Some_0@ == b,
            None => r is None,
        },
        r is Some && n > 0 ==> at + n <= usize::MAX,
{
    if n == 0 {
        assert(data@.subrange(0, 0) =~= Seq::<u8>::empty());
        return Some(slice_subrange(data, 0, 0));
    }
    let size: u128 = data.len() as u128;
    if at <= size && n <= size - at {
        Some(slice_subrange(data, at as usize, (at + n) as usize))
    } else {
        None
    }
}

impl EntryView {
    /// The number of bytes of the entry's values.
    pub open spec fn size(self) -> nat {
        if self.field_type == TYPE_SHORT {
            2 * self.count as nat
        } else if self.field_type == TYPE_LONG {
            4 * self.count as nat
        } else if self.field_type == TYPE_RATIONAL {
            8 * self.count as nat
        } else {
            self.count as nat
        }
    }
}

impl RawEntry {
    /// The number of bytes of the entry's values.
    pub fn value_size(&self) -> (r: u64)
        ensures
            r == self@.size(),
    {
        let factor: u64 = match self.field_type {
            TYPE_SHORT => 2,
            TYPE_LONG => 4,
            TYPE_RATIONAL => 8,
            _ => 1,
        };
        factor * (self.count as u64)
    }

    /// The number of bytes of the entry's values, where it can be held.
    pub fn byte_size(&self) -> (r: usize)
        requires
            self@.size() <= usize::MAX,
        ensures
            r == self@.size(),
    {
        self.value_size() as usize
    }
}

/// The first entry with a tag.
pub open spec fn first_entry(entries: Seq<EntryView>, tag: u16) -> Option<EntryView>
    decreases entries.len(),
{
    if entries.len() == 0 {
        None
    } else if entries[0].tag == tag {
        Some(entries[0])
    } else {
        first_entry(entries.skip(1), tag)
    }
}

proof fn lemma_first_entry(entries: Seq<EntryView>, tag: u16, k: int)
    requires
        0 <= k <= entries.len(),
        forall|j: int| 0 <= j < k ==> (#[trigger] entries[j]).tag != tag,
        k < entries.len() ==> entries[k].tag == tag,
    ensures
        first_entry(entries, tag) == if k < entries.len() {
            Some(entries[k])
        } else {
            None
        },
    decreases k,
{
    if k > 0 {
        assert(entries[0].tag != tag);
        let rest = entries.skip(1);
        assert forall|j: int| 0 <= j < k - 1 implies (#[trigger] rest[j]).tag != tag by {
            assert(rest[j] == entries[j + 1]);
        }
        lemma_first_entry(rest, tag, k - 1);
    }
}

pub open spec fn header_eof_message(start: nat) -> Seq<char> {
    "TIFF: header read at "@ + decimal(start) + eof()
}

pub open spec fn endian_message(a: u8, b: u8) -> Seq<char> {
    "TIFF: bad endian mark ["@ + hex(a as nat, 2) + ", "@ + hex(b as nat, 2) + "]"@
}

pub open spec fn magic_message(m: u16) -> Seq<char> {
    "TIFF: bad magic 0x"@ + hex(m as nat, 4)
}

pub open spec fn count_eof_message(abs: nat) -> Seq<char> {
    "TIFF: IFD count read at "@ + decimal(abs) + eof()
}

pub open spec fn count_message(count: nat) -> Seq<char> {
    "TIFF: implausible IFD entry count "@ + decimal(count) + ""@
}

pub open spec fn entries_eof_message(abs: nat) -> Seq<char> {
    "TIFF: IFD entries read at "@ + decimal(abs) + eof()
}

pub open spec fn type_message(t: u16) -> Seq<char> {
    "TIFF: expected LONG type, got "@ + decimal(t as nat) + ""@
}

pub open spec fn array_eof_message(abs: nat) -> Seq<char> {
    "TIFF: LONG array read at "@ + decimal(abs) + eof()
}

pub open spec fn bytes_eof_message(offset: nat, length: nat) -> Seq<char> {
    "TIFF: read "@ + decimal(length) + " bytes at "@ + decimal(offset) + eof()
}

/// The structure that starts at `start` and the place of its first directory.
pub open spec fn header_at(data: Seq<u8>, start: usize) -> Result<(TiffView, u32), Seq<char>> {
    match bytes_at(data, start as int, 8) {
        None => Err(header_eof_message(start as nat)),
        Some(b) => {
            let little = b[0] == 0x49 && b[1] == 0x49;
            let view = TiffView { little_endian: little, base: start };
            if !little && !(b[0] == 0x4D && b[1] == 0x4D) {
                Err(endian_message(b[0], b[1]))
            } else if view.u16_of(b.subrange(2, 4)) != 0x2A {
                Err(magic_message(view.u16_of(b.subrange(2, 4))))
            } else {
                Ok((view, view.u32_of(b.subrange(4, 8))))
            }
        },
    }
}

impl TiffView {
    /// The 16-bit number of two bytes.
    pub open spec fn u16_of(self, b: Seq<u8>) -> u16 {
        if self.little_endian {
            (b[0] + 256 * b[1]) as u16
        } else {
            (256 * b[0] + b[1]) as u16
        }
    }

    /// The 32-bit number of four bytes.
    pub open spec fn u32_of(self, b: Seq<u8>) -> u32 {
        if self.little_endian {
            (b[0] + 0x100 * b[1] + 0x1_0000 * b[2] + 0x100_0000 * b[3]) as u32
        } else {
            (0x100_0000 * b[0] + 0x1_0000 * b[1] + 0x100 * b[2] + b[3]) as u32
        }
    }

    /// The entry in twelve bytes.
    pub open spec fn entry_of(self, b: Seq<u8>) -> EntryView {
        EntryView {
            tag: self.u16_of(b.subrange(0, 2)),
            field_type: self.u16_of(b.subrange(2, 4)),
            count: self.u32_of(b.subrange(4, 8)),
            value: b.subrange(8, 12),
        }
    }

    /// The directory at the given place of the structure.
    pub open spec fn ifd(self, data: Seq<u8>, ifd_offset: u32) -> Result<
        Seq<EntryView>,
        Seq<char>,
    > {
        let abs = self.base + ifd_offset;
        match bytes_at(data, abs, 2) {
            None => Err(count_eof_message(abs as nat)),
            Some(b) => {
                let count = self.u16_of(b) as int;
                if count > MAX_ENTRIES {
                    Err(count_message(count as nat))
                } else {
                    match bytes_at(data, abs + 2, 12 * count) {
                        None => Err(entries_eof_message(abs as nat)),
                        Some(t) => Ok(
                            Seq::new(
                                count as nat,
                                |i: int| self.entry_of(t.subrange(12 * i, 12 * i + 12)),
                            ),
                        ),
                    }
                }
            },
        }
    }

    /// The value of an entry that holds one number.
    pub open spec fn scalar(self, e: EntryView) -> Option<u32> {
        if e.count != 1 {
            None
        } else if e.field_type == TYPE_SHORT {
            Some(self.u16_of(e.value.take(2)) as u32)
        } else if e.field_type == TYPE_LONG {
            Some(self.u32_of(e.value))
        } else {
            None
        }
    }

    /// The value of the first entry with a tag, if it holds one number.
    pub open spec fn tag_scalar(self, entries: Seq<EntryView>, tag: u16) -> Option<u32> {
        match first_entry(entries, tag) {
            Some(e) => self.scalar(e),
            None => None,
        }
    }

    /// The numbers of an entry of 32-bit numbers: one stands in the entry
    /// itself, more stand where the entry points to.
    pub open spec fn longs(self, data: Seq<u8>, e: EntryView) -> Result<Seq<u32>, Seq<char>> {
        let n = e.count as int;
        if e.field_type != TYPE_LONG {
            Err(type_message(e.field_type))
        } else if n == 0 {
            Ok(Seq::empty())
        } else if n == 1 {
            Ok(seq![self.u32_of(e.value)])
        } else {
            let abs = self.base + self.u32_of(e.value);
            match bytes_at(data, abs, 4 * n) {
                None => Err(array_eof_message(abs as nat)),
                Some(t) => Ok(
                    Seq::new(n as nat, |i: int| self.u32_of(t.subrange(4 * i, 4 * i + 4))),
                ),
            }
        }
    }

    /// Reads the header of the structure that starts at `header_start`. Also
    /// returns the place of the first directory.
    pub fn parse_header(data: &[u8], header_start: usize) -> (r: Result<(Self, u32), String>)
        ensures
            match header_at(data@, header_start) {
                Ok(h) => r == Ok::<(TiffView, u32), String>(h),
                Err(e) => r is Err && r->Err_0@ == e,
            },
            r matches Ok(h) ==> h.0.base == header_start && header_start + 8 <= data@.len(),
    {
        let buf = match read_at(data, header_start as u128, 8) {
            Some(b) => b,
            None => {
                return Err(
                    with_number(
                        "TIFF: header read at ",
                        header_start as u128,
                        ": failed to fill whole buffer",
                    ),
                );
            },
        };
        let little_endian: bool = buf[0] == 0x49 && buf[1] == 0x49;
        if !little_endian && !(buf[0] == 0x4D && buf[1] == 0x4D) {
            let mut t = "TIFF: bad endian mark [".to_string();
            t.append(hex_string(buf[0] as u128, 2).as_str());
            t.append(", ");
            t.append(hex_string(buf[1] as u128, 2).as_str());
            t.append("]");
            return Err(t);
        }
        let view = TiffView { little_endian, base: header_start };
        let magic = view.decode_u16(slice_subrange(buf, 2, 4));
        if magic != 0x002A {
            let mut t = "TIFF: bad magic 0x".to_string();
            t.append(hex_string(magic as u128, 4).as_str());
            return Err(t);
        }
        let first_ifd = view.decode_u32(slice_subrange(buf, 4, 8));
        Ok((view, first_ifd))
    }

    pub fn decode_u16(&self, b: &[u8]) -> (r: u16)
        requires
            b@.len() >= 2,
        ensures
            r == self.u16_of(b@),
    {
        if self.little_endian {
            b[0] as u16 + 256 * (b[1] as u16)
        } else {
            256 * (b[0] as u16) + b[1] as u16
        }
    }

    pub fn decode_u32(&self, b: &[u8]) -> (r: u32)
        requires
            b@.len() >= 4,
        ensures
            r == self.u32_of(b@),
    {
        if self.little_endian {
            b[0] as u32 + 0x100 * (b[1] as u32) + 0x1_0000 * (b[2] as u32) + 0x100_0000 * (
            b[3] as u32)
        } else {
            0x100_0000 * (b[0] as u32) + 0x1_0000 * (b[1] as u32) + 0x100 * (b[2] as u32)
                + b[3] as u32
        }
    }

    pub fn encode_u16(&self, val: u16) -> (r: [u8; 2])
        ensures
            r@ == if self.little_endian {
                seq![(val % 256) as u8, (val / 256) as u8]
            } else {
                seq![(val / 256) as u8, (val % 256) as u8]
            },
            self.u16_of(r@) == val,
    {
        let lo: u8 = (val % 256) as u8;
        let hi: u8 = (val / 256) as u8;
        if self.little_endian {
            [lo, hi]
        } else {
            [hi, lo]
        }
    }

    pub fn encode_u32(&self, val: u32) -> (r: [u8; 4])
        ensures
            r@ == if self.little_endian {
                seq![
                    (val % 256) as u8,
                    (val / 0x100 % 256) as u8,
                    (val / 0x1_0000 % 256) as u8,
                    (val / 0x100_0000) as u8,
                ]
            } else {
                seq![
                    (val / 0x100_0000) as u8,
                    (val / 0x1_0000 % 256) as u8,
                    (val / 0x100 % 256) as u8,
                    (val % 256) as u8,
                ]
            },
            self.u32_of(r@) == val,
    {
        let b0: u8 = (val % 256) as u8;
        let b1: u8 = (val / 0x100 % 256) as u8;
        let b2: u8 = (val / 0x1_0000 % 256) as u8;
        let b3: u8 = (val / 0x100_0000) as u8;
        if self.little_endian {
            [b0, b1, b2, b3]
        } else {
            [b3, b2, b1, b0]
        }
    }

    /// The place in the file of a place in the structure.
    pub fn abs_from_ifd_offset(&self, ifd_offset: u32) -> (r: usize)
        requires
            self.base + ifd_offset <= usize::MAX,
        ensures
            r == self.base + ifd_offset,
    {
        self.base + ifd_offset as usize
    }

    /// The place in the file of a place in the structure, which may lie behind
    /// all that can be addressed.
    pub fn place(&self, ifd_offset: u32) -> (r: u128)
        ensures
            r == self.base + ifd_offset,
    {
        self.base as u128 + ifd_offset as u128
    }

    /// Reads the directory at the given place of the structure.
    pub fn read_ifd(&self, data: &[u8], ifd_offset: u32) -> (r: Result<Vec<RawEntry>, String>)
        ensures
            match self.ifd(data@, ifd_offset) {
                Ok(entries) => r is Ok && entry_views(r->Ok_0@) == entries,
                Err(e) => r is Err && r->Err_0@ == e,
            },
    {
        let abs = self.place(ifd_offset);
        let count_buf = match read_at(data, abs, 2) {
            Some(b) => b,
            None => {
                return Err(
                    with_number(
                        "TIFF: IFD count read at ",
                        abs,
                        ": failed to fill whole buffer",
                    ),
                );
            },
        };
        let count: usize = self.decode_u16(count_buf) as usize;
        if count > MAX_ENTRIES {
            return Err(with_number("TIFF: implausible IFD entry count ", count as u128, ""));
        }
        let buf = match read_at(data, abs + 2, 12 * (count as u128)) {
            Some(b) => b,
            None => {
                return Err(
                    with_number(
                        "TIFF: IFD entries read at ",
                        abs,
                        ": failed to fill whole buffer",
                    ),
                );
            },
        };
        let mut entries: Vec<RawEntry> = Vec::new();
        let ghost all = self.ifd(data@, ifd_offset)->Ok_0;
        let mut i: usize = 0;
        assert(entry_views(entries@) =~= all.take(0));
        while i < count
            invariant
                count <= MAX_ENTRIES,
                0 <= i <= count,
                buf@.len() == 12 * count,
                all == Seq::new(
                    count as nat,
                    |i: int| self.entry_of(buf@.subrange(12 * i, 12 * i + 12)),
                ),
                entry_views(entries@) == all.take(i as int),
            decreases count - i,
        {
            let chunk = slice_subrange(buf, 12 * i, 12 * i + 12);
            let e = RawEntry {
                tag: self.decode_u16(slice_subrange(chunk, 0, 2)),
                field_type: self.decode_u16(slice_subrange(chunk, 2, 4)),
                count: self.decode_u32(slice_subrange(chunk, 4, 8)),
                value_bytes: [chunk[8], chunk[9], chunk[10], chunk[11]],
            };
            proof {
                assert(e@.value =~= chunk@.subrange(8, 12));
                assert(e@ == all[i as int]);
                assert(entry_views(entries@.push(e)) =~= entry_views(entries@).push(e@));
                assert(all.take(i + 1) =~= all.take(i as int).push(all[i as int]));
            }
            entries.push(e);
            i = i + 1;
        }
        assert(all.take(all.len() as int) =~= all);
        Ok(entries)
    }

    /// The first entry with a tag.
    pub fn find_entry<'b>(&self, entries: &'b [RawEntry], tag: u16) -> (r: Option<&'b RawEntry>)
        ensures
            match first_entry(entry_views(entries@), tag) {
                Some(e) => r is Some && r->Some_0@ == e,
                None => r is None,
            },
            r matches Some(e) ==> exists|k: int| 0 <= k < entries@.len() && #[trigger] entries@[k]
                == *e,
    {
        let mut k: usize = 0;
        while k < entries.len()
            invariant
                0 <= k <= entries@.len(),
                forall|j: int|
                    0 <= j < k ==> (#[trigger] entry_views(entries@)[j]).tag != tag,
            decreases entries@.len() - k,
        {
            assert(entry_views(entries@)[k as int] == entries@[k as int]@);
            if entries[k].tag == tag {
                proof {
                    lemma_first_entry(entry_views(entries@), tag, k as int);
                }
                return Some(&entries[k]);
            }
            k = k + 1;
        }
        proof {
            lemma_first_entry(entry_views(entries@), tag, k as int);
        }
        None
    }

    /// The value of an entry that holds one number.
    pub fn entry_scalar(&self, e: &RawEntry) -> (r: Option<u32>)
        ensures
            r == self.scalar(e@),
    {
        if e.count != 1 {
            return None;
        }
        let value = e.value_bytes.as_slice();
        match e.field_type {
            TYPE_SHORT => {
                assert(value@.subrange(0, 2) =~= e@.value.take(2));
                Some(self.decode_u16(slice_subrange(value, 0, 2)) as u32)
            },
            TYPE_LONG => Some(self.decode_u32(value)),
            _ => None,
        }
    }

    /// The value of the first entry with a tag, if it holds one number.
    pub fn find_scalar(&self, entries: &[RawEntry], tag: u16) -> (r: Option<u32>)
        ensures
            r == self.tag_scalar(entry_views(entries@), tag),
    {
        match self.find_entry(entries, tag) {
            Some(e) => self.entry_scalar(e),
            None => None,
        }
    }

    /// The numbers of an entry of 32-bit numbers.
    pub fn entry_long_array(&self, data: &[u8], e: &RawEntry) -> (r: Result<Vec<u32>, String>)
        ensures
            match self.longs(data@, e@) {
                Ok(v) => r is Ok && r->Ok_0@ == v,
                Err(m) => r is Err && r->Err_0@ == m,
            },
    {
        if e.field_type != TYPE_LONG {
            return Err(with_number("TIFF: expected LONG type, got ", e.field_type as u128, ""));
        }
        if e.count == 0 {
            return Ok(Vec::new());
        }
        let first = self.decode_u32(e.value_bytes.as_slice());
        if e.count == 1 {
            let mut out: Vec<u32> = Vec::new();
            out.push(first);
            assert(out@ =~= seq![first]);
            return Ok(out);
        }
        let abs = self.place(first);
        let buf = match read_at(data, abs, 4 * (e.count as u128)) {
            Some(b) => b,
            None => {
                return Err(
                    with_number(
                        "TIFF: LONG array read at ",
                        abs,
                        ": failed to fill whole buffer",
                    ),
                );
            },
        };
        let size: usize = buf.len();
        let n: usize = size / 4;
        let mut out: Vec<u32> = Vec::new();
        let ghost all = self.longs(data@, e@)->Ok_0;
        let mut i: usize = 0;
        while i < n
            invariant
                0 <= i <= n,
                buf@.len() == 4 * n,
                4 * n <= usize::MAX,
                all == Seq::new(
                    n as nat,
                    |i: int| self.u32_of(buf@.subrange(4 * i, 4 * i + 4)),
                ),
                out@ == all.take(i as int),
            decreases n - i,
        {
            out.push(self.decode_u32(slice_subrange(buf, 4 * i, 4 * i + 4)));
            assert(all.take(i + 1) =~= all.take(i as int).push(all[i as int]));
            i = i + 1;
        }
        assert(all.take(all.len() as int) =~= all);
        Ok(out)
    }

    /// Reads `length` bytes of the file.
    pub fn read_bytes(&self, data: &[u8], offset: u64, length: usize) -> (r: Result<
        Vec<u8>,
        String,
    >)
        ensures
            match bytes_at(data@, offset as int, length as int) {
                Some(b) => r is Ok && r->Ok_0@ == b,
                None => r is Err && r->Err_0@ == bytes_eof_message(offset as nat, length as nat),
            },
    {
        read_values(data, offset as u128, length as u128)
    }
}

/// Reads `length` bytes of the file, wherever they are said to stand.
pub fn read_values(data: &[u8], offset: u128, length: u128) -> (r: Result<Vec<u8>, String>)
    ensures
        match bytes_at(data@, offset as int, length as int) {
            Some(b) => r is Ok && r->Ok_0@ == b,
            None => r is Err && r->Err_0@ == bytes_eof_message(offset as nat, length as nat),
        },
{
    match read_at(data, offset, length) {
        Some(b) => Ok(slice_to_vec(b)),
        None => Err(
            then_number(
                with_number("TIFF: read ", length, " bytes at "),
                offset,
                ": failed to fill whole buffer",
            ),
        ),
    }
}

/// The markers of a JPEG frame header.
pub open spec fn is_frame_marker(m: u8) -> bool {
    0xC0 <= m <= 0xC3 || 0xC5 <= m <= 0xC7 || 0xC9 <= m <= 0xCB || 0xCD <= m <= 0xCF
}

/// The markers that stand alone, without a segment behind them.
pub open spec fn is_lone_marker(m: u8) -> bool {
    0xD0 <= m <= 0xD9 || m == 0x01
}

/// The first place from `i` on without a fill byte.
pub open spec fn after_fill(s: Seq<u8>, i: int) -> int
    decreases s.len() - i,
{
    if 0 <= i < s.len() && s[i] == 0xFF {
        after_fill(s, i + 1)
    } else {
        i
    }
}

proof fn lemma_after_fill(s: Seq<u8>, i: int)
    requires
        0 <= i,
    ensures
        i <= after_fill(s, i),
        i <= s.len() ==> after_fill(s, i) <= s.len(),
    decreases s.len() - i,
{
    if i < s.len() && s[i] == 0xFF {
        lemma_after_fill(s, i + 1);
    }
}

/// The width and height in the first frame header from `i` on: markers are
/// walked one by one, segments are skipped by their lengths.
pub open spec fn frame_from(s: Seq<u8>, i: int) -> Result<(u32, u32), Seq<char>>
    decreases
        if i < s.len() {
            s.len() - i
        } else {
            0
        },
    when 0 <= i
    via frame_from_decreases
{
    let m = after_fill(s, i);
    if i + 1 >= s.len() || m >= s.len() {
        Err("JPEG: SOF not found"@)
    } else if is_frame_marker(s[m]) {
        if m + 8 > s.len() {
            Err("JPEG: SOF truncated"@)
        } else {
            Ok(((256 * s[m + 6] + s[m + 7]) as u32, (256 * s[m + 4] + s[m + 5]) as u32))
        }
    } else if is_lone_marker(s[m]) {
        frame_from(s, m + 1)
    } else if m + 3 > s.len() {
        Err("JPEG: segment len OOB"@)
    } else if 256 * s[m + 1] + s[m + 2] < 2 {
        Err("JPEG: seg_len < 2"@)
    } else {
        frame_from(s, m + 1 + (256 * s[m + 1] + s[m + 2]))
    }
}

#[via_fn]
proof fn frame_from_decreases(s: Seq<u8>, i: int) {
    lemma_after_fill(s, i);
}

/// The width and height of the JPEG of `length` bytes at `offset`, as its first
/// bytes give them.
pub open spec fn jpeg_size(data: Seq<u8>, offset: nat, length: nat) -> Result<
    (u32, u32),
    Seq<char>,
> {
    let n: int = if length < SOF_WINDOW {
        length as int
    } else {
        SOF_WINDOW as int
    };
    match bytes_at(data, offset as int, n) {
        None => Err("JPEG: read at "@ + decimal(offset) + eof()),
        Some(s) => if s.len() < 4 || s[0] != 0xFF || s[1] != 0xD8 {
            Err("JPEG: no SOI at offset "@ + decimal(offset) + ""@)
        } else {
            frame_from(s, 2)
        },
    }
}

/// The width and height of a JPEG.
pub fn read_jpeg_sof(data: &[u8], offset: usize, length: usize) -> (r: Result<(u32, u32), String>)
    ensures
        match jpeg_size(data@, offset as nat, length as nat) {
            Ok(d) => r == Ok::<(u32, u32), String>(d),
            Err(e) => r is Err && r->Err_0@ == e,
        },
{
    read_jpeg_size(data, offset as u128, length)
}

/// The width and height of a JPEG, wherever it is said to stand.
pub fn read_jpeg_size(data: &[u8], offset: u128, length: usize) -> (r: Result<(u32, u32), String>)
    ensures
        match jpeg_size(data@, offset as nat, length as nat) {
            Ok(d) => r == Ok::<(u32, u32), String>(d),
            Err(e) => r is Err && r->Err_0@ == e,
        },
{
    let to_read: usize = if length < SOF_WINDOW {
        length
    } else {
        SOF_WINDOW
    };
    let slice = match read_at(data, offset, to_read as u128) {
        Some(b) => b,
        None => {
            return Err(
                with_number("JPEG: read at ", offset, ": failed to fill whole buffer"),
            );
        },
    };
    let size: usize = slice.len();
    if size < 4 || slice[0] != 0xFF || slice[1] != 0xD8 {
        return Err(with_number("JPEG: no SOI at offset ", offset, ""));
    }
    let mut i: usize = 2;
    while i + 1 < size
        invariant
            size == slice@.len(),
            4 <= size <= SOF_WINDOW,
            2 <= i <= size + 0x1_0000,
            jpeg_size(data@, offset as nat, length as nat) == frame_from(slice@, i as int),
        decreases size + 0x1_0000 - i,
    {
        let ghost start = i as int;
        while i < size && slice[i] == 0xFF
            invariant
                size == slice@.len(),
                start <= i <= size,
                after_fill(slice@, start) == after_fill(slice@, i as int),
            decreases size - i,
        {
            i = i + 1;
        }
        if i >= size {
            return Err("JPEG: SOF not found".to_string());
        }
        let marker = slice[i];
        i = i + 1;
        if (0xC0 <= marker && marker <= 0xC3) || (0xC5 <= marker && marker <= 0xC7) || (0xC9
            <= marker && marker <= 0xCB) || (0xCD <= marker && marker <= 0xCF) {
            if i + 7 > size {
                return Err("JPEG: SOF truncated".to_string());
            }
            let h: u32 = 256 * (slice[i + 3] as u32) + slice[i + 4] as u32;
            let w: u32 = 256 * (slice[i + 5] as u32) + slice[i + 6] as u32;
            return Ok((w, h));
        }
        if (0xD0 <= marker && marker <= 0xD9) || marker == 0x01 {
            continue;
        }
        if i + 2 > size {
            return Err("JPEG: segment len OOB".to_string());
        }
        let seg_len: usize = 256 * (slice[i] as usize) + slice[i + 1] as usize;
        if seg_len < 2 {
            return Err("JPEG: seg_len < 2".to_string());
        }
        i = i + seg_len;
    }
    Err("JPEG: SOF not found".to_string())
}

/// An entry of one SHORT has the number in its first two value bytes, in the byte
/// order of the structure and whatever the other two bytes are; an entry of one LONG
/// the number in all four. No other entry has one number.
pub proof fn lemma_scalar(view: TiffView, e: EntryView, v: u16)
    requires
        e.value.len() == 4,
    ensures
        e.count == 1 && e.field_type == 3 && view.little_endian && e.value[0] == v % 256
            && e.value[1] == v / 256 ==> view.scalar(e) == Some(v as u32),
        e.count == 1 && e.field_type == 3 && !view.little_endian && e.value[0] == v / 256
            && e.value[1] == v % 256 ==> view.scalar(e) == Some(v as u32),
        e.count == 1 && e.field_type == 4 ==> view.scalar(e) is Some,
        e.count == 1 && e.field_type == 4 && view.little_endian ==> view.scalar(e)->Some_0
            == e.value[0] + 256 * (e.value[1] + 256 * (e.value[2] + 256 * e.value[3])),
        e.count == 1 && e.field_type == 4 && !view.little_endian ==> view.scalar(e)->Some_0
            == e.value[3] + 256 * (e.value[2] + 256 * (e.value[1] + 256 * e.value[0])),
        view.scalar(e) is Some <==> e.count == 1 && (e.field_type == 3 || e.field_type == 4),
{
}

/// The scalar of a tag is that of the first entry with it.
pub proof fn lemma_tag_scalar(view: TiffView, entries: Seq<EntryView>, tag: u16, k: int)
    requires
        0 <= k <= entries.len(),
        forall|j: int| 0 <= j < k ==> (#[trigger] entries[j]).tag != tag,
        k < entries.len() ==> entries[k].tag == tag,
    ensures
        k < entries.len() ==> view.tag_scalar(entries, tag) == view.scalar(entries[k]),
        k < entries.len() ==> first_entry(entries, tag) == Some(entries[k]),
        k == entries.len() ==> view.tag_scalar(entries, tag) is None,
        k == entries.len() ==> first_entry(entries, tag) is None,
{
    lemma_first_entry(entries, tag, k);
}

/// The values of an entry take two bytes each as SHORT, four as LONG, eight as
/// RATIONAL and one as anything else.
pub proof fn lemma_entry_size(e: EntryView)
    ensures
        e.field_type == 3 ==> e.size() == 2 * e.count,
        e.field_type == 4 ==> e.size() == 4 * e.count,
        e.field_type == 5 ==> e.size() == 8 * e.count,
        e.field_type != 3 && e.field_type != 4 && e.field_type != 5 ==> e.size() == e.count,
{
}

/// A structure starts with `II*` and a zero, the number 42 with its low byte first,
/// or with `MM`, a zero and `*`, and the place of its first directory in four bytes
/// of the same order; nothing else is accepted.
pub proof fn lemma_header(data: Seq<u8>, start: usize)
    ensures
        header_at(data, start) is Ok <==> {
            &&& start + 8 <= data.len()
            &&& {
                ||| data.subrange(start as int, start + 4) == seq![0x49u8, 0x49, 0x2A, 0]
                ||| data.subrange(start as int, start + 4) == seq![0x4Du8, 0x4D, 0, 0x2A]
            }
        },
        header_at(data, start) matches Ok(h) ==> {
            &&& h.0.base == start
            &&& h.0.little_endian <==> data[start as int] == 0x49
            &&& h.0.little_endian ==> h.1 == data[start + 4] + 256 * (data[start + 5] + 256 * (
            data[start + 6] + 256 * data[start + 7]))
            &&& !h.0.little_endian ==> h.1 == data[start + 7] + 256 * (data[start + 6] + 256 * (
            data[start + 5] + 256 * data[start + 4]))
        },
{
    if start + 8 <= data.len() {
        let b = data.subrange(start as int, start + 8);
        let c = data.subrange(start as int, start + 4);
        assert(forall|i: int| 0 <= i < 8 ==> b[i] == data[start + i]);
        assert(forall|i: int| 0 <= i < 4 ==> c[i] == data[start + i]);
        assert(forall|i: int| 0 <= i < 2 ==> b.subrange(2, 4)[i] == b[2 + i]);
        assert(forall|i: int| 0 <= i < 4 ==> b.subrange(4, 8)[i] == b[4 + i]);
        let little = seq![0x49u8, 0x49, 0x2A, 0];
        let big = seq![0x4Du8, 0x4D, 0, 0x2A];
        if header_at(data, start) is Ok {
            if b[0] == 0x49 {
                assert(c =~= little);
            } else {
                assert(c =~= big);
            }
        }
        if c == little {
            assert(c[0] == 0x49 && c[1] == 0x49 && c[2] == 0x2A && c[3] == 0);
        }
        if c == big {
            assert(c[0] == 0x4D && c[1] == 0x4D && c[2] == 0 && c[3] == 0x2A);
        }
    }
}

/// The number of two bytes at `at` in the given order.
pub open spec fn number16(data: Seq<u8>, at: int, little: bool) -> int {
    if little {
        data[at] + 256 * data[at + 1]
    } else {
        data[at + 1] + 256 * data[at]
    }
}

/// The number of four bytes at `at` in the given order.
pub open spec fn number32(data: Seq<u8>, at: int, little: bool) -> int {
    if little {
        number16(data, at, little) + 0x1_0000 * number16(data, at + 2, little)
    } else {
        number16(data, at + 2, little) + 0x1_0000 * number16(data, at, little)
    }
}

/// A directory is a count of at most 1024 and then so many entries of twelve bytes
/// without a gap: the tag and the type in two bytes each, the count in four, and four
/// bytes of value. It is read exactly if the file holds it all.
#[verifier::spinoff_prover]
pub proof fn lemma_directory(view: TiffView, data: Seq<u8>, at: u32, k: int)
    ensures
        ({
            let start = view.base + at;
            let n = number16(data, start, view.little_endian);
            let e = start + 2 + 12 * k;
            &&& view.ifd(data, at) is Ok <==> start + 2 <= data.len() && n <= 1024 && start + 2 + 12
                * n <= data.len()
            &&& view.ifd(data, at) is Ok ==> view.ifd(data, at)->Ok_0.len() == n
            &&& view.ifd(data, at) is Ok && 0 <= k < n ==> {
                let entry = view.ifd(data, at)->Ok_0[k];
                &&& entry.tag == number16(data, e, view.little_endian)
                &&& entry.field_type == number16(data, e + 2, view.little_endian)
                &&& entry.count == number32(data, e + 4, view.little_endian)
                &&& entry.value == seq![data[e + 8], data[e + 9], data[e + 10], data[e + 11]]
            }
        }),
{
    let start = view.base + at;
    let n = number16(data, start, view.little_endian);
    let e = start + 2 + 12 * k;
    if start + 2 <= data.len() {
        let b = data.subrange(start, start + 2);
        assert(b[0] == data[start] && b[1] == data[start + 1]);
        assert(view.u16_of(b) == n);
        if n <= 1024 && start + 2 + 12 * n <= data.len() && 0 <= k < n {
            let t = data.subrange(start + 2, start + 2 + 12 * n);
            let c = t.subrange(12 * k, 12 * k + 12);
            assert forall|i: int| 0 <= i < 12 implies c[i] == data[e + i] by {
                assert(c[i] == t[12 * k + i]);
            }
            assert(c.subrange(0, 2)[0] == c[0] && c.subrange(0, 2)[1] == c[1]);
            assert(c.subrange(2, 4)[0] == c[2] && c.subrange(2, 4)[1] == c[3]);
            assert(forall|i: int| 0 <= i < 4 ==> c.subrange(4, 8)[i] == c[4 + i]);
            assert(c.subrange(8, 12) =~= seq![
                data[e + 8],
                data[e + 9],
                data[e + 10],
                data[e + 11],
            ]);
        }
    }
}

/// The numbers of an entry of LONGs: one stands in the value itself, more stand one
/// behind the other where the value points to, counted from the start of the
/// structure.
pub proof fn lemma_longs(view: TiffView, data: Seq<u8>, e: EntryView, k: int)
    requires
        e.value.len() == 4,
    ensures
        ({
            let v = number32(e.value, 0, view.little_endian);
            let start = view.base + v;
            &&& view.longs(data, e) is Ok <==> e.field_type == 4 && (e.count <= 1 || start + 4
                * e.count <= data.len())
            &&& view.longs(data, e) is Ok ==> view.longs(data, e)->Ok_0.len() == e.count
            &&& view.longs(data, e) is Ok && e.count == 1 ==> view.longs(data, e)->Ok_0[0] == v
            &&& view.longs(data, e) is Ok && e.count > 1 && 0 <= k < e.count ==> view.longs(
                data,
                e,
            )->Ok_0[k] == number32(data, start + 4 * k, view.little_endian)
        }),
{
    let v = number32(e.value, 0, view.little_endian);
    let start = view.base + v;
    assert(view.u32_of(e.value) == v);
    let n = e.count as int;
    if e.field_type == 4 && n > 1 && start + 4 * n <= data.len() && 0 <= k < n {
        let t = data.subrange(start, start + 4 * n);
        let c = t.subrange(4 * k, 4 * k + 4);
        assert forall|i: int| 0 <= i < 4 implies c[i] == data[start + 4 * k + i] by {
            assert(c[i] == t[4 * k + i]);
        }
        assert(c[0] == data[start + 4 * k]);
        assert(c[1] == data[start + 4 * k + 1]);
        assert(c[2] == data[start + 4 * k + 2]);
        assert(c[3] == data[start + 4 * k + 3]);
    }
}

/// A part of a JPEG before its frame header: any number of fill bytes, a marker and,
/// unless the marker stands alone, a segment of two length bytes and a body.
pub ghost struct JpegPart {
    pub fill: nat,
    pub marker: u8,
    pub body: Seq<u8>,
}

/// `n` bytes 0xFF.
pub open spec fn fill_bytes(n: nat) -> Seq<u8> {
    Seq::new(n, |i: int| 0xFFu8)
}

/// A marker without a segment: 0x01, the eight restart markers, start and end of
/// image.
pub open spec fn stands_alone(m: u8) -> bool {
    m == 0x01 || (m >= 0xD0 && m < 0xDA)
}

/// The markers 0xC0 to 0xCF start a frame, but for those of the Huffman tables, of
/// the arithmetic conditioning and the reserved one.
pub open spec fn starts_frame(m: u8) -> bool {
    m / 16 == 0xC && m != 0xC4 && m != 0xC8 && m != 0xCC
}

impl JpegPart {
    pub open spec fn valid(self) -> bool {
        &&& self.marker != 0xFF
        &&& !starts_frame(self.marker)
        &&& !stands_alone(self.marker) ==> self.body.len() + 2 < 0x1_0000
    }

    /// The bytes of the part. The length counts its own two bytes.
    pub open spec fn bytes(self) -> Seq<u8> {
        fill_bytes(self.fill) + seq![0xFFu8, self.marker] + if stands_alone(self.marker) {
            Seq::empty()
        } else {
            let n = self.body.len() + 2;
            seq![(n / 256) as u8, (n % 256) as u8] + self.body
        }
    }
}

/// The bytes of parts one after the other.
pub open spec fn jpeg_parts(parts: Seq<JpegPart>) -> Seq<u8>
    decreases parts.len(),
{
    if parts.len() == 0 {
        Seq::empty()
    } else {
        parts[0].bytes() + jpeg_parts(parts.skip(1))
    }
}

proof fn lemma_after_fill_run(s: Seq<u8>, i: int, n: nat)
    requires
        0 <= i,
        i + n < s.len(),
        forall|k: int| i <= k < i + n ==> s[k] == 0xFF,
        s[i + n] != 0xFF,
    ensures
        after_fill(s, i) == i + n,
    decreases n,
{
    if n > 0 {
        lemma_after_fill_run(s, i + 1, (n - 1) as nat);
    }
}

/// A part is walked over to the byte behind it.
#[verifier::spinoff_prover]
proof fn lemma_walk_part(s: Seq<u8>, i: int, p: JpegPart)
    requires
        0 <= i,
        p.valid(),
        i + p.bytes().len() <= s.len(),
        forall|k: int| 0 <= k < p.bytes().len() ==> s[i + k] == #[trigger] p.bytes()[k],
    ensures
        frame_from(s, i) == frame_from(s, i + p.bytes().len()),
{
    let b = p.bytes();
    let m = i + p.fill + 1;
    assert forall|k: int| i <= k < m implies s[k] == 0xFF by {
        assert(b[k - i] == 0xFF);
    }
    assert(b[(p.fill + 1) as int] == p.marker);
    assert(s[i + (p.fill + 1)] == p.marker);
    lemma_after_fill_run(s, i, p.fill + 1);
    let c = p.marker;
    assert(is_lone_marker(c) == stands_alone(c));
    assert(!is_frame_marker(c));
    if !stands_alone(c) {
        let n = p.body.len() + 2;
        assert(b[(p.fill + 2) as int] == (n / 256) as u8);
        assert(b[(p.fill + 3) as int] == (n % 256) as u8);
        assert(s[i + (p.fill + 2)] == (n / 256) as u8);
        assert(s[i + (p.fill + 3)] == (n % 256) as u8);
        assert(256 * s[m + 1] + s[m + 2] == n);
    }
}

proof fn lemma_walk_parts(s: Seq<u8>, i: int, parts: Seq<JpegPart>)
    requires
        0 <= i,
        forall|j: int| 0 <= j < parts.len() ==> (#[trigger] parts[j]).valid(),
        i + jpeg_parts(parts).len() <= s.len(),
        forall|k: int|
            0 <= k < jpeg_parts(parts).len() ==> s[i + k] == #[trigger] jpeg_parts(parts)[k],
    ensures
        frame_from(s, i) == frame_from(s, i + jpeg_parts(parts).len()),
    decreases parts.len(),
{
    if parts.len() > 0 {
        let b = parts[0].bytes();
        let rest = parts.skip(1);
        let all = jpeg_parts(parts);
        assert forall|k: int| 0 <= k < b.len() implies s[i + k] == #[trigger] b[k] by {
            assert(all[k] == b[k]);
        }
        lemma_walk_part(s, i, parts[0]);
        let j = i + b.len();
        assert forall|k: int| 0 <= k < jpeg_parts(rest).len() implies s[j + k]
            == #[trigger] jpeg_parts(rest)[k] by {
            assert(all[b.len() + k] == jpeg_parts(rest)[k]);
            assert(i + (b.len() + k) == j + k);
        }
        lemma_walk_parts(s, j, rest);
    }
}

/// A JPEG is a start of image, any parts, and a frame header: two bytes of length, one
/// of precision, two of height and two of width. If all this is among the first 4096
/// bytes, the width and height are those of the header. A header that is cut off, and
/// a segment without a length or with one below two in front of it, are errors.
#[verifier::spinoff_prover]
pub proof fn lemma_jpeg_size(
    data: Seq<u8>,
    offset: nat,
    length: nat,
    parts: Seq<JpegPart>,
    fill: nat,
    marker: u8,
    rest: Seq<u8>,
)
    requires
        forall|j: int| 0 <= j < parts.len() ==> (#[trigger] parts[j]).valid(),
        marker != 0xFF,
        ({
            let window = if length < 4096 {
                length
            } else {
                4096
            };
            &&& offset + window <= data.len()
            &&& data.subrange(offset as int, (offset + window) as int) == seq![0xFFu8, 0xD8]
                + jpeg_parts(parts) + fill_bytes(fill) + seq![0xFFu8, marker] + rest
        }),
    ensures
        starts_frame(marker) && rest.len() >= 7 ==> jpeg_size(data, offset, length) == Ok::<
            (u32, u32),
            Seq<char>,
        >(((256 * rest[5] + rest[6]) as u32, (256 * rest[3] + rest[4]) as u32)),
        starts_frame(marker) && rest.len() < 7 ==> jpeg_size(data, offset, length) == Err::<
            (u32, u32),
            Seq<char>,
        >("JPEG: SOF truncated"@),
        !starts_frame(marker) && !stands_alone(marker) && rest.len() < 2 ==> jpeg_size(
            data,
            offset,
            length,
        ) == Err::<(u32, u32), Seq<char>>("JPEG: segment len OOB"@),
        !starts_frame(marker) && !stands_alone(marker) && rest.len() >= 2 && 256 * rest[0] + rest[1]
            < 2 ==> jpeg_size(data, offset, length) == Err::<(u32, u32), Seq<char>>(
            "JPEG: seg_len < 2"@,
        ),
{
    let window: int = if length < 4096 {
        length as int
    } else {
        4096
    };
    let s = data.subrange(offset as int, offset + window);
    let run = jpeg_parts(parts);
    let all = seq![0xFFu8, 0xD8] + run + fill_bytes(fill) + seq![0xFFu8, marker] + rest;
    assert(s == all);
    assert(s[0] == 0xFF && s[1] == 0xD8);
    assert forall|k: int| 0 <= k < run.len() implies s[2 + k] == #[trigger] run[k] by {
        assert(all[2 + k] == run[k]);
    }
    lemma_walk_parts(s, 2, parts);
    let i: int = 2 + run.len() as int;
    let m: int = i + fill + 1;
    assert forall|k: int| i <= k < m implies s[k] == 0xFF by {
        assert(all[k] == 0xFF);
    }
    assert(s[m] == marker);
    lemma_after_fill_run(s, i, fill + 1);
    assert(is_lone_marker(marker) == stands_alone(marker));
    assert(is_frame_marker(marker) == starts_frame(marker));
    assert(s.len() == m + 1 + rest.len());
    assert forall|k: int| 0 <= k < rest.len() implies s[m + 1 + k] == #[trigger] rest[k] by {
        assert(all[m + 1 + k] == rest[k]);
    }
    if rest.len() >= 2 {
        assert(s[m + 1 + 0] == rest[0] && s[m + 1 + 1] == rest[1]);
    }
    if rest.len() >= 7 {
        assert(s[m + 1 + 3] == rest[3] && s[m + 1 + 4] == rest[4]);
        assert(s[m + 1 + 5] == rest[5] && s[m + 1 + 6] == rest[6]);
    }
}

/// Without a start of image, and where the window ends with the parts or in fill
/// bytes, no size is found.
#[verifier::spinoff_prover]
pub proof fn lemma_jpeg_without_frame(
    data: Seq<u8>,
    offset: nat,
    length: nat,
    parts: Seq<JpegPart>,
    fill: nat,
)
    requires
        forall|j: int| 0 <= j < parts.len() ==> (#[trigger] parts[j]).valid(),
    ensures
        ({
            let window = if length < 4096 {
                length
            } else {
                4096
            };
            let s = data.subrange(offset as int, (offset + window) as int);
            &&& window > 0 && offset + window > data.len() ==> jpeg_size(data, offset, length) is Err
            &&& window < 4 ==> jpeg_size(data, offset, length) is Err
            &&& offset + window <= data.len() && window >= 4 && (s[0] != 0xFF || s[1] != 0xD8)
                ==> jpeg_size(data, offset, length) is Err
            &&& offset + window <= data.len() && s == seq![0xFFu8, 0xD8] + jpeg_parts(parts)
                + fill_bytes(fill) ==> jpeg_size(data, offset, length) is Err
        }),
{
    let window: int = if length < 4096 {
        length as int
    } else {
        4096
    };
    if offset + window <= data.len() {
        let s = data.subrange(offset as int, offset + window);
        let run = jpeg_parts(parts);
        let all = seq![0xFFu8, 0xD8] + run + fill_bytes(fill);
        if s == all && window >= 4 {
            assert forall|k: int| 0 <= k < run.len() implies s[2 + k] == #[trigger] run[k] by {
                assert(all[2 + k] == run[k]);
            }
            lemma_walk_parts(s, 2, parts);
            let i = 2 + run.len();
            assert forall|k: int| i <= k < s.len() implies s[k] == 0xFF by {
                assert(all[k] == 0xFF);
            }
            lemma_after_fill_all(s, i as int);
        }
    }
}

proof fn lemma_after_fill_all(s: Seq<u8>, i: int)
    requires
        0 <= i <= s.len(),
        forall|k: int| i <= k < s.len() ==> s[k] == 0xFF,
    ensures
        after_fill(s, i) == s.len(),
    decreases s.len() - i,
{
    if i < s.len() {
        lemma_after_fill_all(s, i + 1);
    }
}

/// Bytes can be read exactly as far as the file has them; no bytes can be read anywhere.
pub proof fn lemma_bytes_at(data: Seq<u8>, at: int, n: int, i: int)
    requires
        0 <= at,
        0 <= n,
    ensures
        bytes_at(data, at, n) is Some <==> n == 0 || at + n <= data.len(),
        bytes_at(data, at, n) matches Some(b) ==> b.len() == n && (0 <= i < n ==> b[i] == data[at
            + i]),
{
}

/// An entry is looked at with all its parts.
pub proof fn lemma_entry_view(e: RawEntry)
    ensures
        e@.tag == e.tag,
        e@.field_type == e.field_type,
        e@.count == e.count,
        e@.value == e.value_bytes@,
{
}

} // verus!
