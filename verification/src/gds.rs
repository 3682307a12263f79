//! GDS-II binary stream codec.
//!
//! A GDS-II stream is a flat sequence of variable-length records, each
//! `[u16 total_length][u16 record_type][payload]` with the length counting
//! the four header bytes. The record type's high byte selects the record
//! kind and its low byte a payload data-type tag. Payloads hold big-endian
//! 16-bit integers, big-endian 32-bit integers, NUL-padded ASCII text, or
//! excess-64 reals.
//!
//! The reader walks `HEADER`, then a library loop of `BGNLIB` / `LIBNAME` /
//! `UNITS` / structure blocks / `ENDLIB`, accumulating one cell per
//! structure; the writer emits the structural inverse. Every parsing and
//! serialising step is pinned to a spec-level function on byte sequences,
//! and the round-trip lemmas at the end show that reading back a written
//! stream preserves each cell's name, geometry count and layer ids.

use vstd::prelude::*;

verus! {

use crate::LayerId;
use crate::geometry::{BBox, GeomView, Point, bbox_of_points, view_layer_id};
use crate::real8::{Real8, real8_of_bytes};
use crate::cell::Transform;

pub const REC_HEADER: u16 = 0x0002;

pub const REC_BGNLIB: u16 = 0x0102;

pub const REC_LIBNAME: u16 = 0x0206;

pub const REC_UNITS: u16 = 0x0305;

pub const REC_ENDLIB: u16 = 0x0400;

pub const REC_BGNSTR: u16 = 0x0502;

pub const REC_STRNAME: u16 = 0x0606;

pub const REC_ENDSTR: u16 = 0x0700;

pub const REC_BOUNDARY: u16 = 0x0800;

pub const REC_PATH: u16 = 0x0900;

pub const REC_SREF: u16 = 0x0A00;

pub const REC_AREF: u16 = 0x0B00;

pub const REC_TEXT: u16 = 0x0C00;

pub const REC_LAYER: u16 = 0x0D02;

pub const REC_DATATYPE: u16 = 0x0E02;

pub const REC_WIDTH: u16 = 0x0F03;

pub const REC_XY: u16 = 0x1003;

pub const REC_ENDEL: u16 = 0x1100;

pub const REC_SNAME: u16 = 0x1206;

pub const REC_NODE: u16 = 0x1500;

pub const REC_STRANS: u16 = 0x1A01;

pub const REC_MAG: u16 = 0x1B05;

pub const REC_ANGLE: u16 = 0x1C05;

pub const REC_PATHTYPE: u16 = 0x2102;

pub const REC_BOX: u16 = 0x2D00;

pub const REC_BOXTYPE: u16 = 0x2E02;

/// The IEEE-754 bits of the database unit expressed in user units (one
/// millionth, for a one-nanometer unit with micron user units).
pub const F64_BITS_1E_6: u64 = 0x3EB0_C6F7_A0B5_ED8D;

/// The IEEE-754 bits of the database unit expressed in meters (one
/// billionth, for a one-nanometer unit).
pub const F64_BITS_1E_9: u64 = 0x3E11_2E0B_E826_D695;

/// A failure while reading or writing a GDS-II stream.
#[derive(Debug, Clone, PartialEq)]
pub enum GdsError {
    /// The stream ended inside a record.
    Io(String),
    /// A record that cannot be framed, with the offset past its length
    /// field.
    InvalidRecord { offset: u64, message: String },
    /// A record of the wrong type during a fixed-sequence parse.
    UnexpectedRecord { record_type: u16, expected: u16 },
    /// A declared format version the codec does not handle.
    UnsupportedVersion(u16),
    /// Coordinate data that cannot be interpreted.
    InvalidCoordinates,
    /// A structure reference naming a cell the stream never defines.
    UndefinedCell(String),
}

/// The mathematical value of a [`GdsError`].
pub ghost enum ErrView {
    Io { message: Seq<char> },
    InvalidRecord { offset: u64, message: Seq<char> },
    UnexpectedRecord { record_type: u16, expected: u16 },
    UnsupportedVersion { version: u16 },
    InvalidCoordinates,
    UndefinedCell { name: Seq<char> },
}

impl View for GdsError {
    type V = ErrView;

    open spec fn view(&self) -> ErrView {
        match self {
            GdsError::Io(m) => ErrView::Io { message: m@ },
            GdsError::InvalidRecord { offset, message } => ErrView::InvalidRecord {
                offset: *offset,
                message: message@,
            },
            GdsError::UnexpectedRecord { record_type, expected } => ErrView::UnexpectedRecord {
                record_type: *record_type,
                expected: *expected,
            },
            GdsError::UnsupportedVersion(v) => ErrView::UnsupportedVersion { version: *v },
            GdsError::InvalidCoordinates => ErrView::InvalidCoordinates,
            GdsError::UndefinedCell(n) => ErrView::UndefinedCell { name: n@ },
        }
    }
}

/// A framed record: its type word and raw payload.
#[derive(Debug, Clone, PartialEq)]
pub struct GdsRecord {
    pub record_type: u16,
    pub data: Vec<u8>,
}

/// The mathematical value of a [`GdsRecord`].
pub ghost struct RecView {
    pub rtype: u16,
    pub data: Seq<u8>,
}

impl View for GdsRecord {
    type V = RecView;

    open spec fn view(&self) -> RecView {
        RecView { rtype: self.record_type, data: self.data@ }
    }
}

/// Two payload bytes read big-endian as an unsigned word.
pub open spec fn be_u16(b0: u8, b1: u8) -> u16 {
    ((b0 as int) * 256 + (b1 as int)) as u16
}

/// Two payload bytes read big-endian as a signed 16-bit integer.
pub open spec fn be_i16(b0: u8, b1: u8) -> i16 {
    be_u16(b0, b1) as i16
}

/// Four payload bytes read big-endian as a signed 32-bit integer.
pub open spec fn be_i32(b0: u8, b1: u8, b2: u8, b3: u8) -> i32 {
    ((((b0 as int) * 0x100_0000) + ((b1 as int) * 0x1_0000) + ((b2 as int) * 0x100) + (
    b3 as int)) as u32) as i32
}

/// The payload as consecutive big-endian 16-bit integers; a trailing odd
/// byte is ignored.
pub open spec fn i16s_of(data: Seq<u8>) -> Seq<i16> {
    Seq::new((data.len() / 2) as nat, |i: int| be_i16(data[2 * i], data[2 * i + 1]))
}

/// The payload as consecutive big-endian 32-bit integers; trailing bytes
/// short of four are ignored.
pub open spec fn i32s_of(data: Seq<u8>) -> Seq<i32> {
    Seq::new(
        (data.len() / 4) as nat,
        |i: int| be_i32(data[4 * i], data[4 * i + 1], data[4 * i + 2], data[4 * i + 3]),
    )
}

/// A character sequence with its trailing NUL characters removed.
pub open spec fn trim_nuls(s: Seq<char>) -> Seq<char>
    decreases s.len(),
{
    if s.len() == 0 {
        s
    } else if s.last() == '\0' {
        trim_nuls(s.drop_last())
    } else {
        s
    }
}

/// The payload as text: each byte taken as the character with its code
/// point, trailing NULs trimmed.
pub open spec fn string_of(data: Seq<u8>) -> Seq<char> {
    trim_nuls(data.map_values(|b: u8| b as char))
}

impl GdsRecord {
    /// The record kind: the type word's high byte.
    pub fn kind(&self) -> (r: u8)
        ensures
            r == self.record_type / 256,
    {
        (self.record_type / 256) as u8
    }

    /// The payload data-type tag: the type word's low byte.
    pub fn data_type_tag(&self) -> (r: u8)
        ensures
            r == self.record_type % 256,
    {
        (self.record_type % 256) as u8
    }

    /// Parses the payload as big-endian 16-bit integers.
    pub fn as_i16_vec(&self) -> (r: Vec<i16>)
        ensures
            r@ == i16s_of(self.data@),
    {
        let mut out: Vec<i16> = Vec::new();
        let len: usize = self.data.len();
        let n: usize = len / 2;
        let mut i: usize = 0;
        while i < n
            invariant
                0 <= i <= n,
                len == self.data@.len(),
                n == self.data@.len() / 2,
                out@.len() == i,
                forall|j: int|
                    0 <= j < i ==> #[trigger] out@[j] == be_i16(
                        self.data@[2 * j],
                        self.data@[2 * j + 1],
                    ),
            decreases n - i,
        {
            proof {
                vstd::arithmetic::div_mod::lemma_fundamental_div_mod(self.data@.len() as int, 2);
                assert(2 * i + 1 < self.data@.len());
            }
            let hi: u16 = (self.data[2 * i] as u16) * 256 + self.data[2 * i + 1] as u16;
            out.push(hi as i16);
            i = i + 1;
        }
        proof {
            assert(out@ =~= i16s_of(self.data@));
        }
        out
    }

    /// Parses the payload as big-endian 32-bit integers.
    pub fn as_i32_vec(&self) -> (r: Vec<i32>)
        ensures
            r@ == i32s_of(self.data@),
    {
        let mut out: Vec<i32> = Vec::new();
        let len: usize = self.data.len();
        let n: usize = len / 4;
        let mut i: usize = 0;
        while i < n
            invariant
                0 <= i <= n,
                len == self.data@.len(),
                n == self.data@.len() / 4,
                out@.len() == i,
                forall|j: int|
                    0 <= j < i ==> #[trigger] out@[j] == be_i32(
                        self.data@[4 * j],
                        self.data@[4 * j + 1],
                        self.data@[4 * j + 2],
                        self.data@[4 * j + 3],
                    ),
            decreases n - i,
        {
            proof {
                vstd::arithmetic::div_mod::lemma_fundamental_div_mod(self.data@.len() as int, 4);
                assert(4 * i + 3 < self.data@.len());
            }
            let w: u32 = (self.data[4 * i] as u32) * 0x100_0000 + (self.data[4 * i + 1] as u32)
                * 0x1_0000 + (self.data[4 * i + 2] as u32) * 0x100 + self.data[4 * i + 3] as u32;
            out.push(w as i32);
            i = i + 1;
        }
        proof {
            assert(out@ =~= i32s_of(self.data@));
        }
        out
    }

    /// Parses the payload as text, trimming trailing NULs.
    pub fn as_string(&self) -> (r: String)
        ensures
            r@ == string_of(self.data@),
    {
        let mut end: usize = self.data.len();
        proof {
            assert(self.data@.subrange(0, self.data@.len() as int) =~= self.data@);
        }
        while end > 0 && self.data[end - 1] == 0
            invariant
                0 <= end <= self.data@.len(),
                trim_nuls(self.data@.map_values(|b: u8| b as char)) == trim_nuls(
                    self.data@.subrange(0, end as int).map_values(|b: u8| b as char),
                ),
            decreases end,
        {
            proof {
                let cur = self.data@.subrange(0, end as int).map_values(|b: u8| b as char);
                let nxt = self.data@.subrange(0, end - 1).map_values(|b: u8| b as char);
                assert(cur.last() == '\0');
                assert(cur.drop_last() =~= nxt);
            }
            end = end - 1;
        }
        proof {
            let cur = self.data@.subrange(0, end as int).map_values(|b: u8| b as char);
            if end > 0 {
                assert(cur.last() == (self.data@[end - 1] as char));
                assert(cur.last() != '\0');
                assert(trim_nuls(cur) == cur);
            } else {
                assert(cur =~= Seq::<char>::empty());
            }
        }
        let head = vstd::slice::slice_subrange(self.data.as_slice(), 0, end);
        chars_of_bytes(head)
    }

    /// Parses the payload as consecutive excess-64 reals; trailing bytes
    /// short of eight are ignored.
    pub fn as_real8_vec(&self) -> (r: Vec<Real8>)
        ensures
            r@ == real8s_of(self.data@),
    {
        let mut out: Vec<Real8> = Vec::new();
        let len: usize = self.data.len();
        let n: usize = len / 8;
        let mut i: usize = 0;
        while i < n
            invariant
                0 <= i <= n,
                len == self.data@.len(),
                n == self.data@.len() / 8,
                out@.len() == i,
                forall|j: int|
                    0 <= j < i ==> #[trigger] out@[j] == real8_of_bytes(
                        self.data@.subrange(8 * j, 8 * j + 8),
                    ),
            decreases n - i,
        {
            proof {
                vstd::arithmetic::div_mod::lemma_fundamental_div_mod(self.data@.len() as int, 8);
                assert(8 * i + 8 <= self.data@.len());
            }
            let chunk = vstd::slice::slice_subrange(self.data.as_slice(), 8 * i, 8 * i + 8);
            let v = Real8::from_bytes(chunk);
            out.push(v);
            i = i + 1;
        }
        proof {
            assert(out@ =~= real8s_of(self.data@));
        }
        out
    }
}

/// The payload as consecutive excess-64 reals.
pub open spec fn real8s_of(data: Seq<u8>) -> Seq<Real8> {
    Seq::new((data.len() / 8) as nat, |i: int| real8_of_bytes(data.subrange(8 * i, 8 * i + 8)))
}

/// Relies on String's FromIterator over char: collects each byte as the
/// character with that code point.
#[verifier::external_body]
fn chars_of_bytes(bytes: &[u8]) -> (r: String)
    ensures
        r@ == bytes@.map_values(|b: u8| b as char),
{
    bytes.iter().map(|&b| b as char).collect()
}

// ───────────────────────── writer ─────────────────────────

/// The two big-endian bytes of a 16-bit word.
pub open spec fn be16_bytes(v: u16) -> Seq<u8> {
    seq![(v / 256) as u8, (v % 256) as u8]
}

/// A framed record: total length (header included, truncated to 16 bits),
/// type word, payload.
pub open spec fn enc_record(rtype: u16, data: Seq<u8>) -> Seq<u8> {
    be16_bytes((data.len() + 4) as u16) + be16_bytes(rtype) + data
}

/// Big-endian byte `k` (0 is most significant) of a 16-bit integer.
pub open spec fn i16_byte(v: i16, k: int) -> u8 {
    if k == 0 {
        ((v as u16) / 256) as u8
    } else {
        ((v as u16) % 256) as u8
    }
}

/// 16-bit integers flattened to big-endian bytes.
pub open spec fn i16_bytes(vals: Seq<i16>) -> Seq<u8> {
    Seq::new(2 * vals.len(), |i: int| i16_byte(vals[i / 2], i % 2))
}

/// Big-endian byte `k` (0 is most significant) of a 32-bit integer.
pub open spec fn i32_byte(v: i32, k: int) -> u8 {
    if k == 0 {
        (((v as u32) / 0x100_0000) % 256) as u8
    } else if k == 1 {
        (((v as u32) / 0x1_0000) % 256) as u8
    } else if k == 2 {
        (((v as u32) / 0x100) % 256) as u8
    } else {
        ((v as u32) % 256) as u8
    }
}

/// 32-bit integers flattened to big-endian bytes.
pub open spec fn i32_bytes(vals: Seq<i32>) -> Seq<u8> {
    Seq::new(4 * vals.len(), |i: int| i32_byte(vals[i / 4], i % 4))
}

/// Text as UTF-8 bytes, NUL-padded to even length.
pub open spec fn str_data(s: Seq<char>) -> Seq<u8> {
    let b = vstd::utf8::encode_utf8(s);
    if b.len() % 2 == 1 {
        b + seq![0u8]
    } else {
        b
    }
}

/// A layout coordinate narrowed to the stream's 32-bit range, saturating.
pub open spec fn clamp_i32(x: i64) -> i32 {
    if x > i32::MAX {
        i32::MAX
    } else if x < i32::MIN {
        i32::MIN
    } else {
        x as i32
    }
}

/// The synthetic timestamp every structure and library header carries.
pub open spec fn timestamp_vals() -> Seq<i16> {
    seq![2026i16, 2i16, 6i16, 0i16, 0i16, 0i16, 2026i16, 2i16, 6i16, 0i16, 0i16, 0i16]
}

/// Interleaved, clamped coordinates of a point sequence.
pub open spec fn coords_of(pts: Seq<Point>) -> Seq<i32> {
    Seq::new(
        2 * pts.len(),
        |i: int|
            if i % 2 == 0 {
                clamp_i32(pts[i / 2].x)
            } else {
                clamp_i32(pts[i / 2].y)
            },
    )
}

/// A rectangle as a closed five-point boundary element.
pub open spec fn enc_rect(layer: LayerId, ll: Point, ur: Point) -> Seq<u8> {
    let x1 = clamp_i32(ll.x);
    let y1 = clamp_i32(ll.y);
    let x2 = clamp_i32(ur.x);
    let y2 = clamp_i32(ur.y);
    enc_record(REC_BOUNDARY, Seq::<u8>::empty()) + enc_record(
        REC_LAYER,
        i16_bytes(seq![layer as i16]),
    ) + enc_record(REC_DATATYPE, i16_bytes(seq![0i16])) + enc_record(
        REC_XY,
        i32_bytes(seq![x1, y1, x2, y1, x2, y2, x1, y2, x1, y1]),
    ) + enc_record(REC_ENDEL, Seq::<u8>::empty())
}

/// A polygon as a closed boundary element: its vertices plus the first
/// vertex repeated.
pub open spec fn enc_polygon(layer: LayerId, vs: Seq<Point>) -> Seq<u8> {
    let closing: Seq<i32> = if vs.len() > 0 {
        seq![clamp_i32(vs[0].x), clamp_i32(vs[0].y)]
    } else {
        Seq::<i32>::empty()
    };
    enc_record(REC_BOUNDARY, Seq::<u8>::empty()) + enc_record(
        REC_LAYER,
        i16_bytes(seq![layer as i16]),
    ) + enc_record(REC_DATATYPE, i16_bytes(seq![0i16])) + enc_record(
        REC_XY,
        i32_bytes(coords_of(vs) + closing),
    ) + enc_record(REC_ENDEL, Seq::<u8>::empty())
}

/// A path element with its width and open centerline.
pub open spec fn enc_path(layer: LayerId, pts: Seq<Point>, width: i64) -> Seq<u8> {
    enc_record(REC_PATH, Seq::<u8>::empty()) + enc_record(
        REC_LAYER,
        i16_bytes(seq![layer as i16]),
    ) + enc_record(REC_DATATYPE, i16_bytes(seq![0i16])) + enc_record(
        REC_WIDTH,
        i32_bytes(seq![clamp_i32(width)]),
    ) + enc_record(REC_XY, i32_bytes(coords_of(pts))) + enc_record(
        REC_ENDEL,
        Seq::<u8>::empty(),
    )
}

/// A primitive as its element encoding; a via becomes a rectangle on its
/// cut layer sized to its width and height, a lossy one-way mapping.
pub open spec fn enc_geom(g: GeomView) -> Seq<u8> {
    match g {
        GeomView::Rect { layer_id, lower_left, upper_right } => enc_rect(
            layer_id,
            lower_left,
            upper_right,
        ),
        GeomView::Polygon { layer_id, vertices } => enc_polygon(layer_id, vertices),
        GeomView::Path { layer_id, points, width } => enc_path(layer_id, points, width),
        GeomView::Via { cut_layer, position, width, height, .. } => enc_rect(
            cut_layer,
            Point {
                x: crate::geometry::sat_i64(position.x - crate::geometry::div2(width as int)) as i64,
                y: crate::geometry::sat_i64(position.y - crate::geometry::div2(height as int)) as i64,
            },
            Point {
                x: crate::geometry::sat_i64(position.x + crate::geometry::div2(width as int)) as i64,
                y: crate::geometry::sat_i64(position.y + crate::geometry::div2(height as int)) as i64,
            },
        ),
    }
}

/// The excess-64 real denoting zero, as placements are written with.
pub open spec fn real8_zero() -> Real8 {
    Real8 { neg: false, exp: 0, mant: 0 }
}

/// The excess-64 real denoting one, as placements are written with.
pub open spec fn real8_one() -> Real8 {
    Real8 { neg: false, exp: 65, mant: 0x10_0000_0000_0000 }
}

/// A subcell placement as a structure-reference element.
pub open spec fn enc_sref(name: Seq<char>, tf: Transform) -> Seq<u8> {
    let strans: Seq<u8> = if tf.mirror_x {
        enc_record(REC_STRANS, i16_bytes(seq![i16::MIN]))
    } else if tf.rotation != real8_zero() || tf.scale != real8_one() {
        enc_record(REC_STRANS, i16_bytes(seq![0i16]))
    } else {
        Seq::<u8>::empty()
    };
    let mag: Seq<u8> = if tf.scale != real8_one() {
        enc_record(REC_MAG, crate::real8::bytes_of_real8(tf.scale))
    } else {
        Seq::<u8>::empty()
    };
    let angle: Seq<u8> = if tf.rotation != real8_zero() {
        enc_record(REC_ANGLE, crate::real8::bytes_of_real8(tf.rotation))
    } else {
        Seq::<u8>::empty()
    };
    enc_record(REC_SREF, Seq::<u8>::empty()) + enc_record(REC_SNAME, str_data(name)) + strans
        + mag + angle + enc_record(
        REC_XY,
        i32_bytes(seq![clamp_i32(tf.offset.x), clamp_i32(tf.offset.y)]),
    ) + enc_record(REC_ENDEL, Seq::<u8>::empty())
}

/// The concatenated elements of a geometry sequence.
pub open spec fn enc_geoms(gs: Seq<GeomView>) -> Seq<u8>
    decreases gs.len(),
{
    if gs.len() == 0 {
        Seq::<u8>::empty()
    } else {
        enc_geoms(gs.drop_last()) + enc_geom(gs.last())
    }
}

/// The concatenated structure references of an instance sequence.
pub open spec fn enc_insts(is: Seq<crate::cell::InstView>) -> Seq<u8>
    decreases is.len(),
{
    if is.len() == 0 {
        Seq::<u8>::empty()
    } else {
        enc_insts(is.drop_last()) + enc_sref(is.last().instance_name, is.last().transform)
    }
}

/// A cell as a structure block: header, name, geometries in order, then
/// instances in order.
pub open spec fn enc_cell(cv: crate::cell::CellView) -> Seq<u8> {
    enc_record(REC_BGNSTR, i16_bytes(timestamp_vals())) + enc_record(
        REC_STRNAME,
        str_data(cv.name),
    ) + enc_geoms(cv.geometries) + enc_insts(cv.instances) + enc_record(
        REC_ENDSTR,
        Seq::<u8>::empty(),
    )
}

/// The concatenated structure blocks of a cell sequence.
pub open spec fn enc_cells(cs: Seq<crate::cell::CellView>) -> Seq<u8>
    decreases cs.len(),
{
    if cs.len() == 0 {
        Seq::<u8>::empty()
    } else {
        enc_cells(cs.drop_last()) + enc_cell(cs.last())
    }
}

/// The unit record payload: the database unit in user units and in meters,
/// for a one-nanometer unit.
pub open spec fn units_data() -> Seq<u8> {
    crate::real8::bytes_of_real8(crate::real8::real8_of_f64_bits(F64_BITS_1E_6))
        + crate::real8::bytes_of_real8(crate::real8::real8_of_f64_bits(F64_BITS_1E_9))
}

/// A whole database as a stream: version header, library header with a
/// synthetic timestamp, library name, units, one structure block per cell
/// in stored order, and the library terminator.
pub open spec fn enc_db(d: crate::database::DbView) -> Seq<u8> {
    enc_record(REC_HEADER, i16_bytes(seq![600i16])) + enc_record(
        REC_BGNLIB,
        i16_bytes(timestamp_vals()),
    ) + enc_record(REC_LIBNAME, str_data(d.name)) + enc_record(REC_UNITS, units_data())
        + enc_cells(d.cells) + enc_record(REC_ENDLIB, Seq::<u8>::empty())
}

/// Serialises a layout database into a GDS-II byte stream held in memory.
#[derive(Debug)]
pub struct GdsWriter {
    out: Vec<u8>,
}

impl View for GdsWriter {
    type V = Seq<u8>;

    closed spec fn view(&self) -> Seq<u8> {
        self.out@
    }
}

impl GdsWriter {
    /// An empty output stream.
    pub fn new() -> (r: Self)
        ensures
            r@ == Seq::<u8>::empty(),
    {
        let r = Self { out: Vec::new() };
        proof {
            assert(r@ =~= Seq::<u8>::empty());
        }
        r
    }

    /// The bytes written so far.
    pub fn bytes(&self) -> (r: &Vec<u8>)
        ensures
            r@ == self@,
    {
        &self.out
    }

    /// Appends one framed record.
    fn write_record(&mut self, record_type: u16, data: &[u8])
        requires
            data@.len() + 4 <= 0xFFFF,
        ensures
            final(self)@ == old(self)@ + enc_record(record_type, data@),
    {
        let total_len: u16 = ((data.len() + 4) as u16);
        self.out.push((total_len / 256) as u8);
        self.out.push((total_len % 256) as u8);
        self.out.push((record_type / 256) as u8);
        self.out.push((record_type % 256) as u8);
        let mut i: usize = 0;
        while i < data.len()
            invariant
                0 <= i <= data@.len(),
                self.out@ == old(self).out@ + be16_bytes((data@.len() + 4) as u16) + be16_bytes(
                    record_type,
                ) + data@.subrange(0, i as int),
            decreases data@.len() - i,
        {
            self.out.push(data[i]);
            proof {
                assert(self.out@ =~= old(self).out@ + be16_bytes((data@.len() + 4) as u16)
                    + be16_bytes(record_type) + data@.subrange(0, i + 1));
            }
            i = i + 1;
        }
        proof {
            assert(data@.subrange(0, data@.len() as int) =~= data@);
            assert(self.out@ =~= old(self).out@ + enc_record(record_type, data@));
        }
    }

    /// Appends a record of big-endian 16-bit integers.
    fn write_i16_record(&mut self, record_type: u16, values: &[i16])
        requires
            2 * values@.len() + 4 <= 0xFFFF,
        ensures
            final(self)@ == old(self)@ + enc_record(record_type, i16_bytes(values@)),
    {
        let mut data: Vec<u8> = Vec::new();
        let mut i: usize = 0;
        while i < values.len()
            invariant
                0 <= i <= values@.len(),
                data@ == i16_bytes(values@.subrange(0, i as int)),
            decreases values@.len() - i,
        {
            let v: u16 = values[i] as u16;
            data.push((v / 256) as u8);
            data.push((v % 256) as u8);
            proof {
                assert(data@ =~= i16_bytes(values@.subrange(0, i + 1)));
            }
            i = i + 1;
        }
        proof {
            assert(values@.subrange(0, values@.len() as int) =~= values@);
        }
        self.write_record(record_type, data.as_slice());
    }

    /// Appends a record of big-endian 32-bit integers.
    fn write_i32_record(&mut self, record_type: u16, values: &[i32])
        requires
            4 * values@.len() + 4 <= 0xFFFF,
        ensures
            final(self)@ == old(self)@ + enc_record(record_type, i32_bytes(values@)),
    {
        let mut data: Vec<u8> = Vec::new();
        let mut i: usize = 0;
        while i < values.len()
            invariant
                0 <= i <= values@.len(),
                data@ == i32_bytes(values@.subrange(0, i as int)),
            decreases values@.len() - i,
        {
            let v: u32 = values[i] as u32;
            data.push(((v / 0x100_0000) % 256) as u8);
            data.push(((v / 0x1_0000) % 256) as u8);
            data.push(((v / 0x100) % 256) as u8);
            data.push((v % 256) as u8);
            proof {
                assert(data@ =~= i32_bytes(values@.subrange(0, i + 1)));
            }
            i = i + 1;
        }
        proof {
            assert(values@.subrange(0, values@.len() as int) =~= values@);
        }
        self.write_record(record_type, data.as_slice());
    }

    /// Appends a text record, NUL-padded to even length.
    fn write_string_record(&mut self, record_type: u16, s: &str)
        requires
            str_data(s@).len() + 4 <= 0xFFFF,
        ensures
            final(self)@ == old(self)@ + enc_record(record_type, str_data(s@)),
    {
        let raw: &[u8] = s.as_bytes();
        let mut data: Vec<u8> = vstd::slice::slice_to_vec(raw);
        if data.len() % 2 != 0 {
            data.push(0);
            proof {
                assert(data@ =~= str_data(s@));
            }
        }
        self.write_record(record_type, data.as_slice());
    }

    /// Appends a record of excess-64 reals.
    fn write_real8_record(&mut self, record_type: u16, values: &[Real8])
        requires
            forall|i: int| 0 <= i < values@.len() ==> (#[trigger] values@[i]).wf(),
            8 * values@.len() + 4 <= 0xFFFF,
        ensures
            final(self)@ == old(self)@ + enc_record(record_type, real8_seq_bytes(values@)),
    {
        let mut data: Vec<u8> = Vec::new();
        let mut i: usize = 0;
        while i < values.len()
            invariant
                0 <= i <= values@.len(),
                forall|j: int| 0 <= j < values@.len() ==> (#[trigger] values@[j]).wf(),
                data@ == real8_seq_bytes(values@.subrange(0, i as int)),
                data@.len() == 8 * i,
            decreases values@.len() - i,
        {
            let b: [u8; 8] = values[i].to_bytes();
            let mut k: usize = 0;
            while k < 8
                invariant
                    0 <= k <= 8,
                    b@ == crate::real8::bytes_of_real8(values@[i as int]),
                    i < values@.len(),
                    data@ == real8_seq_bytes(values@.subrange(0, i as int)) + b@.subrange(
                        0,
                        k as int,
                    ),
                    data@.len() == 8 * i + k,
                decreases 8 - k,
            {
                data.push(b[k]);
                proof {
                    assert(data@ =~= real8_seq_bytes(values@.subrange(0, i as int)) + b@.subrange(
                        0,
                        k + 1,
                    ));
                }
                k = k + 1;
            }
            proof {
                assert(b@.subrange(0, 8) =~= b@);
                assert(values@.subrange(0, i + 1).drop_last() =~= values@.subrange(0, i as int));
                assert(data@ =~= real8_seq_bytes(values@.subrange(0, i + 1)));
            }
            i = i + 1;
        }
        proof {
            assert(values@.subrange(0, values@.len() as int) =~= values@);
        }
        self.write_record(record_type, data.as_slice());
    }
}

/// Concatenated eight-byte encodings of a real sequence.
pub open spec fn real8_seq_bytes(vals: Seq<Real8>) -> Seq<u8>
    decreases vals.len(),
{
    if vals.len() == 0 {
        Seq::<u8>::empty()
    } else {
        real8_seq_bytes(vals.drop_last()) + crate::real8::bytes_of_real8(vals.last())
    }
}

/// The bytes of a single real.
proof fn lemma_real8_seq_one(x: Real8)
    ensures
        real8_seq_bytes(seq![x]) == crate::real8::bytes_of_real8(x),
{
    reveal_with_fuel(real8_seq_bytes, 3);
    assert(seq![x].drop_last() =~= Seq::<Real8>::empty());
    assert(seq![x].last() == x);
    assert(real8_seq_bytes(seq![x].drop_last()) == real8_seq_bytes(Seq::<Real8>::empty()));
    assert(Seq::<u8>::empty() + crate::real8::bytes_of_real8(x) =~= crate::real8::bytes_of_real8(
        x,
    ));
}

/// The bytes of a pair of reals.
proof fn lemma_real8_seq_two(x: Real8, y: Real8)
    ensures
        real8_seq_bytes(seq![x, y]) == crate::real8::bytes_of_real8(x)
            + crate::real8::bytes_of_real8(y),
{
    assert(seq![x, y].drop_last() =~= seq![x]);
    assert(seq![x, y].last() == y);
    lemma_real8_seq_one(x);
}

/// Whether a name fits one text record: its UTF-8 bytes plus padding and
/// the record header must fit the 16-bit length field.
pub open spec fn name_writable(s: Seq<char>) -> bool {
    vstd::utf8::encode_utf8(s).len() + 5 <= 0xFFFF
}

/// Whether a primitive's records fit the format's 16-bit length fields;
/// only a polygon or path with thousands of points can fail.
pub open spec fn geom_writable(g: GeomView) -> bool {
    match g {
        GeomView::Rect { .. } => true,
        GeomView::Polygon { vertices, .. } => 8 * vertices.len() + 12 <= 0xFFFF,
        GeomView::Path { points, .. } => 8 * points.len() + 4 <= 0xFFFF,
        GeomView::Via { .. } => true,
    }
}

/// Whether a placement's records fit the format.
pub open spec fn inst_writable(iv: crate::cell::InstView) -> bool {
    name_writable(iv.instance_name) && iv.transform.rotation.wf() && iv.transform.scale.wf()
}

/// Whether every record of a cell's structure block fits the format.
pub open spec fn cell_writable(cv: crate::cell::CellView) -> bool {
    &&& name_writable(cv.name)
    &&& forall|i: int| 0 <= i < cv.geometries.len() ==> geom_writable(#[trigger] cv.geometries[i])
    &&& forall|i: int| 0 <= i < cv.instances.len() ==> inst_writable(#[trigger] cv.instances[i])
}

/// Whether every record of a database's stream fits the format.
pub open spec fn db_writable(d: crate::database::DbView) -> bool {
    &&& name_writable(d.name)
    &&& forall|i: int| 0 <= i < d.cells.len() ==> cell_writable(#[trigger] d.cells[i])
}

impl GdsWriter {
    fn write_header(&mut self)
        ensures
            final(self)@ == old(self)@ + enc_record(REC_HEADER, i16_bytes(seq![600i16])),
    {
        let vals: [i16; 1] = [600];
        proof {
            assert(vals@ =~= seq![600i16]);
        }
        self.write_i16_record(REC_HEADER, vals.as_slice());
    }

    fn write_bgnlib(&mut self)
        ensures
            final(self)@ == old(self)@ + enc_record(REC_BGNLIB, i16_bytes(timestamp_vals())),
    {
        let vals: [i16; 12] = [2026, 2, 6, 0, 0, 0, 2026, 2, 6, 0, 0, 0];
        proof {
            assert(vals@ =~= timestamp_vals());
        }
        self.write_i16_record(REC_BGNLIB, vals.as_slice());
    }

    fn write_libname(&mut self, name: &str)
        requires
            name_writable(name@),
        ensures
            final(self)@ == old(self)@ + enc_record(REC_LIBNAME, str_data(name@)),
    {
        self.write_string_record(REC_LIBNAME, name);
    }

    #[verifier::rlimit(80)]
    fn write_units(&mut self)
        ensures
            final(self)@ == old(self)@ + enc_record(REC_UNITS, units_data()),
    {
        let a: Real8 = crate::real8::real8_from_f64_bits(F64_BITS_1E_6);
        let b: Real8 = crate::real8::real8_from_f64_bits(F64_BITS_1E_9);
        let vals: [Real8; 2] = [a, b];
        proof {
            assert(vals@ =~= seq![a, b]);
            lemma_real8_seq_two(a, b);
            assert(real8_seq_bytes(vals@) == units_data());
        }
        self.write_real8_record(REC_UNITS, vals.as_slice());
    }

    fn write_endlib(&mut self)
        ensures
            final(self)@ == old(self)@ + enc_record(REC_ENDLIB, Seq::<u8>::empty()),
    {
        let empty: [u8; 0] = [];
        proof {
            assert(empty@ =~= Seq::<u8>::empty());
        }
        self.write_record(REC_ENDLIB, empty.as_slice());
    }

    fn write_rect_corners(&mut self, layer: LayerId, ll: Point, ur: Point)
        ensures
            final(self)@ == old(self)@ + enc_rect(layer, ll, ur),
    {
        let empty: [u8; 0] = [];
        proof {
            assert(empty@ =~= Seq::<u8>::empty());
        }
        self.write_record(REC_BOUNDARY, empty.as_slice());
        let lv: [i16; 1] = [layer as i16];
        proof {
            assert(lv@ =~= seq![layer as i16]);
        }
        self.write_i16_record(REC_LAYER, lv.as_slice());
        let dt: [i16; 1] = [0];
        proof {
            assert(dt@ =~= seq![0i16]);
        }
        self.write_i16_record(REC_DATATYPE, dt.as_slice());
        let x1: i32 = clamp_to_i32(ll.x);
        let y1: i32 = clamp_to_i32(ll.y);
        let x2: i32 = clamp_to_i32(ur.x);
        let y2: i32 = clamp_to_i32(ur.y);
        let xy: [i32; 10] = [x1, y1, x2, y1, x2, y2, x1, y2, x1, y1];
        proof {
            assert(xy@ =~= seq![
                clamp_i32(ll.x),
                clamp_i32(ll.y),
                clamp_i32(ur.x),
                clamp_i32(ll.y),
                clamp_i32(ur.x),
                clamp_i32(ur.y),
                clamp_i32(ll.x),
                clamp_i32(ur.y),
                clamp_i32(ll.x),
                clamp_i32(ll.y),
            ]);
        }
        self.write_i32_record(REC_XY, xy.as_slice());
        self.write_record(REC_ENDEL, empty.as_slice());
    }

    fn write_polygon(&mut self, layer: LayerId, vertices: &Vec<Point>)
        requires
            8 * vertices@.len() + 12 <= 0xFFFF,
        ensures
            final(self)@ == old(self)@ + enc_polygon(layer, vertices@),
    {
        let empty: [u8; 0] = [];
        proof {
            assert(empty@ =~= Seq::<u8>::empty());
        }
        self.write_record(REC_BOUNDARY, empty.as_slice());
        let lv: [i16; 1] = [layer as i16];
        proof {
            assert(lv@ =~= seq![layer as i16]);
        }
        self.write_i16_record(REC_LAYER, lv.as_slice());
        let dt: [i16; 1] = [0];
        proof {
            assert(dt@ =~= seq![0i16]);
        }
        self.write_i16_record(REC_DATATYPE, dt.as_slice());
        let mut coords: Vec<i32> = coords_vec(vertices);
        if vertices.len() > 0 {
            coords.push(clamp_to_i32(vertices[0].x));
            coords.push(clamp_to_i32(vertices[0].y));
        }
        proof {
            let closing: Seq<i32> = if vertices@.len() > 0 {
                seq![clamp_i32(vertices@[0].x), clamp_i32(vertices@[0].y)]
            } else {
                Seq::<i32>::empty()
            };
            assert(coords@ =~= coords_of(vertices@) + closing);
        }
        self.write_i32_record(REC_XY, coords.as_slice());
        self.write_record(REC_ENDEL, empty.as_slice());
    }

    fn write_path(&mut self, layer: LayerId, points: &Vec<Point>, width: i64)
        requires
            8 * points@.len() + 4 <= 0xFFFF,
        ensures
            final(self)@ == old(self)@ + enc_path(layer, points@, width),
    {
        let empty: [u8; 0] = [];
        proof {
            assert(empty@ =~= Seq::<u8>::empty());
        }
        self.write_record(REC_PATH, empty.as_slice());
        let lv: [i16; 1] = [layer as i16];
        proof {
            assert(lv@ =~= seq![layer as i16]);
        }
        self.write_i16_record(REC_LAYER, lv.as_slice());
        let dt: [i16; 1] = [0];
        proof {
            assert(dt@ =~= seq![0i16]);
        }
        self.write_i16_record(REC_DATATYPE, dt.as_slice());
        let wv: [i32; 1] = [clamp_to_i32(width)];
        proof {
            assert(wv@ =~= seq![clamp_i32(width)]);
        }
        self.write_i32_record(REC_WIDTH, wv.as_slice());
        let coords: Vec<i32> = coords_vec(points);
        self.write_i32_record(REC_XY, coords.as_slice());
        self.write_record(REC_ENDEL, empty.as_slice());
    }

    #[verifier::rlimit(80)]
    fn write_sref(&mut self, name: &str, tf: Transform)
        requires
            name_writable(name@),
            tf.rotation.wf(),
            tf.scale.wf(),
        ensures
            final(self)@ == old(self)@ + enc_sref(name@, tf),
    {
        let empty: [u8; 0] = [];
        proof {
            assert(empty@ =~= Seq::<u8>::empty());
        }
        self.write_record(REC_SREF, empty.as_slice());
        self.write_string_record(REC_SNAME, name);
        let one: Real8 = Real8::one();
        let zero: Real8 = Real8::zero();
        if tf.mirror_x {
            let sv: [i16; 1] = [i16::MIN];
            proof {
                assert(sv@ =~= seq![i16::MIN]);
            }
            self.write_i16_record(REC_STRANS, sv.as_slice());
        } else if !(tf.rotation == zero) || !(tf.scale == one) {
            let sv: [i16; 1] = [0];
            proof {
                assert(sv@ =~= seq![0i16]);
            }
            self.write_i16_record(REC_STRANS, sv.as_slice());
        }
        if !(tf.scale == one) {
            let vals: [Real8; 1] = [tf.scale];
            proof {
                assert(vals@ =~= seq![tf.scale]);
                lemma_real8_seq_one(tf.scale);
            }
            self.write_real8_record(REC_MAG, vals.as_slice());
        }
        if !(tf.rotation == zero) {
            let vals: [Real8; 1] = [tf.rotation];
            proof {
                assert(vals@ =~= seq![tf.rotation]);
                lemma_real8_seq_one(tf.rotation);
            }
            self.write_real8_record(REC_ANGLE, vals.as_slice());
        }
        let xy: [i32; 2] = [clamp_to_i32(tf.offset.x), clamp_to_i32(tf.offset.y)];
        proof {
            assert(xy@ =~= seq![clamp_i32(tf.offset.x), clamp_i32(tf.offset.y)]);
        }
        self.write_i32_record(REC_XY, xy.as_slice());
        self.write_record(REC_ENDEL, empty.as_slice());
    }

    fn write_geom(&mut self, geom: &crate::geometry::GeomPrimitive)
        requires
            geom_writable(geom@),
        ensures
            final(self)@ == old(self)@ + enc_geom(geom@),
    {
        match geom {
            crate::geometry::GeomPrimitive::Rect(r) => {
                self.write_rect_corners(r.layer_id, r.lower_left, r.upper_right);
            },
            crate::geometry::GeomPrimitive::Polygon(p) => {
                self.write_polygon(p.layer_id, &p.vertices);
            },
            crate::geometry::GeomPrimitive::Path(p) => {
                self.write_path(p.layer_id, &p.points, p.width);
            },
            crate::geometry::GeomPrimitive::Via(v) => {
                let b: BBox = v.bbox();
                self.write_rect_corners(v.cut_layer, b.min, b.max);
            },
        }
    }

    #[verifier::rlimit(100)]
    fn write_cell(&mut self, cell: &crate::cell::Cell)
        requires
            cell_writable(cell@),
        ensures
            final(self)@ == old(self)@ + enc_cell(cell@),
    {
        let vals: [i16; 12] = [2026, 2, 6, 0, 0, 0, 2026, 2, 6, 0, 0, 0];
        proof {
            assert(vals@ =~= timestamp_vals());
        }
        self.write_i16_record(REC_BGNSTR, vals.as_slice());
        self.write_string_record(REC_STRNAME, cell.name.as_str());
        let ghost base: Seq<u8> = self@;
        let mut i: usize = 0;
        while i < cell.geometries.len()
            invariant
                0 <= i <= cell.geometries@.len(),
                cell_writable(cell@),
                self@ == base + enc_geoms(cell@.geometries.subrange(0, i as int)),
            decreases cell.geometries@.len() - i,
        {
            proof {
                let pre = cell@.geometries.subrange(0, i as int);
                let post = cell@.geometries.subrange(0, i + 1);
                assert(post.drop_last() =~= pre);
                assert(post.last() == cell@.geometries[i as int]);
            }
            self.write_geom(&cell.geometries[i]);
            i = i + 1;
        }
        proof {
            assert(cell@.geometries.subrange(0, cell.geometries@.len() as int)
                =~= cell@.geometries);
        }
        let ghost base2: Seq<u8> = self@;
        let mut k: usize = 0;
        while k < cell.instances.len()
            invariant
                0 <= k <= cell.instances@.len(),
                cell_writable(cell@),
                self@ == base2 + enc_insts(cell@.instances.subrange(0, k as int)),
            decreases cell.instances@.len() - k,
        {
            proof {
                let pre = cell@.instances.subrange(0, k as int);
                let post = cell@.instances.subrange(0, k + 1);
                assert(post.drop_last() =~= pre);
                assert(post.last() == cell@.instances[k as int]);
            }
            self.write_sref(cell.instances[k].instance_name.as_str(), cell.instances[k].transform);
            k = k + 1;
        }
        proof {
            assert(cell@.instances.subrange(0, cell.instances@.len() as int) =~= cell@.instances);
        }
        let empty: [u8; 0] = [];
        proof {
            assert(empty@ =~= Seq::<u8>::empty());
        }
        self.write_record(REC_ENDSTR, empty.as_slice());
    }

    /// Serialises the whole database: version header, library header and
    /// name, units, one structure block per cell in stored order, and the
    /// library terminator. Never fails: the output is an in-memory buffer.
    #[verifier::rlimit(100)]
    pub fn write(&mut self, db: &crate::database::LayoutDatabase) -> (r: Result<(), GdsError>)
        requires
            db_writable(db@),
        ensures
            r is Ok,
            final(self)@ == old(self)@ + enc_db(db@),
    {
        self.write_header();
        self.write_bgnlib();
        self.write_libname(db.name().as_str());
        self.write_units();
        let cells: &[crate::cell::Cell] = db.all_cells();
        let ghost base: Seq<u8> = self@;
        let mut i: usize = 0;
        while i < cells.len()
            invariant
                0 <= i <= cells@.len(),
                cells@.map_values(|c: crate::cell::Cell| c@) == db@.cells,
                db_writable(db@),
                self@ == base + enc_cells(db@.cells.subrange(0, i as int)),
            decreases cells@.len() - i,
        {
            proof {
                let pre = db@.cells.subrange(0, i as int);
                let post = db@.cells.subrange(0, i + 1);
                assert(post.drop_last() =~= pre);
                assert(post.last() == db@.cells[i as int]);
                assert(cells@[i as int]@ == db@.cells[i as int]);
            }
            self.write_cell(&cells[i]);
            i = i + 1;
        }
        proof {
            assert(db@.cells.subrange(0, db@.cells.len() as int) =~= db@.cells);
        }
        self.write_endlib();
        Ok(())
    }
}

/// A coordinate narrowed to the stream's 32-bit range, saturating.
pub fn clamp_to_i32(x: i64) -> (r: i32)
    ensures
        r == clamp_i32(x),
{
    if x > i32::MAX as i64 {
        i32::MAX
    } else if x < i32::MIN as i64 {
        i32::MIN
    } else {
        x as i32
    }
}

// ───────────────────────── reader ─────────────────────────

/// One framing step: nothing at a clean end of stream, a record and the
/// position after it, or the exact failure the stream forces.
pub open spec fn spec_record(bytes: Seq<u8>, pos: int) -> Result<Option<(RecView, int)>, ErrView> {
    if pos + 2 > bytes.len() {
        Ok(None)
    } else {
        let total = be_u16(bytes[pos], bytes[pos + 1]) as int;
        if total < 4 {
            Err(
                ErrView::InvalidRecord {
                    offset: (pos + 2) as u64,
                    message: "record length below header size"@,
                },
            )
        } else if pos + 4 > bytes.len() || pos + total > bytes.len() {
            Err(ErrView::Io { message: "stream ended inside a record"@ })
        } else {
            Ok(
                Some(
                    (
                        RecView {
                            rtype: be_u16(bytes[pos + 2], bytes[pos + 3]),
                            data: bytes.subrange(pos + 4, pos + total),
                        },
                        pos + total,
                    ),
                ),
            )
        }
    }
}

/// The points of an XY payload: consecutive coordinate pairs; an unpaired
/// trailing value is dropped.
pub open spec fn xy_points(data: Seq<u8>) -> Seq<Point> {
    let coords = i32s_of(data);
    Seq::new(
        (coords.len() / 2) as nat,
        |i: int| Point { x: coords[2 * i] as i64, y: coords[2 * i + 1] as i64 },
    )
}

/// Boundary-shaped element accumulation (`BOUNDARY` and `BOX` alike):
/// `LAYER` replaces the layer, every `XY` appends points, anything else is
/// ignored, and `ENDEL` or the end of the stream stops.
pub open spec fn spec_elem(bytes: Seq<u8>, pos: int, layer: LayerId, pts: Seq<Point>) -> Result<
    (LayerId, Seq<Point>, int),
    ErrView,
>
    decreases bytes.len() - pos
        when 0 <= pos
{
    match spec_record(bytes, pos) {
        Err(e) => Err(e),
        Ok(None) => Ok((layer, pts, pos)),
        Ok(Some((rec, p2))) => {
            if rec.rtype == REC_ENDEL {
                Ok((layer, pts, p2))
            } else if rec.rtype == REC_LAYER {
                let vals = i16s_of(rec.data);
                let l2 = if vals.len() > 0 {
                    vals[0] as LayerId
                } else {
                    layer
                };
                spec_elem(bytes, p2, l2, pts)
            } else if rec.rtype == REC_XY {
                spec_elem(bytes, p2, layer, pts + xy_points(rec.data))
            } else {
                spec_elem(bytes, p2, layer, pts)
            }
        },
    }
}

/// Path element accumulation: like a boundary, with `WIDTH` captured too.
pub open spec fn spec_path_elem(
    bytes: Seq<u8>,
    pos: int,
    layer: LayerId,
    width: i64,
    pts: Seq<Point>,
) -> Result<(LayerId, i64, Seq<Point>, int), ErrView>
    decreases bytes.len() - pos
        when 0 <= pos
{
    match spec_record(bytes, pos) {
        Err(e) => Err(e),
        Ok(None) => Ok((layer, width, pts, pos)),
        Ok(Some((rec, p2))) => {
            if rec.rtype == REC_ENDEL {
                Ok((layer, width, pts, p2))
            } else if rec.rtype == REC_LAYER {
                let vals = i16s_of(rec.data);
                let l2 = if vals.len() > 0 {
                    vals[0] as LayerId
                } else {
                    layer
                };
                spec_path_elem(bytes, p2, l2, width, pts)
            } else if rec.rtype == REC_WIDTH {
                let vals = i32s_of(rec.data);
                let w2 = if vals.len() > 0 {
                    vals[0] as i64
                } else {
                    width
                };
                spec_path_elem(bytes, p2, layer, w2, pts)
            } else if rec.rtype == REC_XY {
                spec_path_elem(bytes, p2, layer, width, pts + xy_points(rec.data))
            } else {
                spec_path_elem(bytes, p2, layer, width, pts)
            }
        },
    }
}

/// Structure-reference accumulation: `SNAME` names the child, `STRANS`
/// carries the mirror bit, `MAG` and `ANGLE` scale and rotation, `XY` the
/// placement position.
pub open spec fn spec_sref_elem(
    bytes: Seq<u8>,
    pos: int,
    name: Seq<char>,
    tf: Transform,
    xy: Point,
) -> Result<(Seq<char>, Transform, Point, int), ErrView>
    decreases bytes.len() - pos
        when 0 <= pos
{
    match spec_record(bytes, pos) {
        Err(e) => Err(e),
        Ok(None) => Ok((name, tf, xy, pos)),
        Ok(Some((rec, p2))) => {
            if rec.rtype == REC_ENDEL {
                Ok((name, tf, xy, p2))
            } else if rec.rtype == REC_SNAME {
                spec_sref_elem(bytes, p2, string_of(rec.data), tf, xy)
            } else if rec.rtype == REC_STRANS {
                let vals = i16s_of(rec.data);
                let t2 = if vals.len() > 0 {
                    Transform { mirror_x: vals[0] < 0, ..tf }
                } else {
                    tf
                };
                spec_sref_elem(bytes, p2, name, t2, xy)
            } else if rec.rtype == REC_MAG {
                let vals = real8s_of(rec.data);
                let t2 = if vals.len() > 0 {
                    Transform { scale: vals[0], ..tf }
                } else {
                    tf
                };
                spec_sref_elem(bytes, p2, name, t2, xy)
            } else if rec.rtype == REC_ANGLE {
                let vals = real8s_of(rec.data);
                let t2 = if vals.len() > 0 {
                    Transform { rotation: vals[0], ..tf }
                } else {
                    tf
                };
                spec_sref_elem(bytes, p2, name, t2, xy)
            } else if rec.rtype == REC_XY {
                let coords = i32s_of(rec.data);
                let xy2 = if coords.len() >= 2 {
                    Point { x: coords[0] as i64, y: coords[1] as i64 }
                } else {
                    xy
                };
                spec_sref_elem(bytes, p2, name, tf, xy2)
            } else {
                spec_sref_elem(bytes, p2, name, tf, xy)
            }
        },
    }
}

/// Skipping an unmodelled element: consume records up to `ENDEL` or the end
/// of the stream.
pub open spec fn spec_skip(bytes: Seq<u8>, pos: int) -> Result<int, ErrView>
    decreases bytes.len() - pos
        when 0 <= pos
{
    match spec_record(bytes, pos) {
        Err(e) => Err(e),
        Ok(None) => Ok(pos),
        Ok(Some((rec, p2))) => {
            if rec.rtype == REC_ENDEL {
                Ok(p2)
            } else {
                spec_skip(bytes, p2)
            }
        },
    }
}

/// Boundary accumulation never moves backwards nor past the end.
pub proof fn lemma_elem_pos(bytes: Seq<u8>, pos: int, layer: LayerId, pts: Seq<Point>)
    requires
        0 <= pos <= bytes.len(),
    ensures
        spec_elem(bytes, pos, layer, pts) matches Ok(r) ==> pos <= r.2 <= bytes.len(),
    decreases bytes.len() - pos,
{
    match spec_record(bytes, pos) {
        Err(e) => {},
        Ok(None) => {},
        Ok(Some((rec, p2))) => {
            if rec.rtype == REC_ENDEL {
            } else if rec.rtype == REC_LAYER {
                let vals = i16s_of(rec.data);
                let l2 = if vals.len() > 0 {
                    vals[0] as LayerId
                } else {
                    layer
                };
                lemma_elem_pos(bytes, p2, l2, pts);
            } else if rec.rtype == REC_XY {
                lemma_elem_pos(bytes, p2, layer, pts + xy_points(rec.data));
            } else {
                lemma_elem_pos(bytes, p2, layer, pts);
            }
        },
    }
}

/// Path accumulation never moves backwards nor past the end.
pub proof fn lemma_path_elem_pos(bytes: Seq<u8>, pos: int, layer: LayerId, width: i64, pts: Seq<Point>)
    requires
        0 <= pos <= bytes.len(),
    ensures
        spec_path_elem(bytes, pos, layer, width, pts) matches Ok(r) ==> pos <= r.3 <= bytes.len(),
    decreases bytes.len() - pos,
{
    match spec_record(bytes, pos) {
        Err(e) => {},
        Ok(None) => {},
        Ok(Some((rec, p2))) => {
            if rec.rtype == REC_ENDEL {
            } else if rec.rtype == REC_LAYER {
                let vals = i16s_of(rec.data);
                let l2 = if vals.len() > 0 {
                    vals[0] as LayerId
                } else {
                    layer
                };
                lemma_path_elem_pos(bytes, p2, l2, width, pts);
            } else if rec.rtype == REC_WIDTH {
                let vals = i32s_of(rec.data);
                let w2 = if vals.len() > 0 {
                    vals[0] as i64
                } else {
                    width
                };
                lemma_path_elem_pos(bytes, p2, layer, w2, pts);
            } else if rec.rtype == REC_XY {
                lemma_path_elem_pos(bytes, p2, layer, width, pts + xy_points(rec.data));
            } else {
                lemma_path_elem_pos(bytes, p2, layer, width, pts);
            }
        },
    }
}

/// Reference accumulation never moves backwards nor past the end.
pub proof fn lemma_sref_elem_pos(bytes: Seq<u8>, pos: int, name: Seq<char>, tf: Transform, xy: Point)
    requires
        0 <= pos <= bytes.len(),
    ensures
        spec_sref_elem(bytes, pos, name, tf, xy) matches Ok(r) ==> pos <= r.3 <= bytes.len(),
    decreases bytes.len() - pos,
{
    match spec_record(bytes, pos) {
        Err(e) => {},
        Ok(None) => {},
        Ok(Some((rec, p2))) => {
            if rec.rtype == REC_ENDEL {
            } else if rec.rtype == REC_SNAME {
                lemma_sref_elem_pos(bytes, p2, string_of(rec.data), tf, xy);
            } else if rec.rtype == REC_STRANS {
                let vals = i16s_of(rec.data);
                let t2 = if vals.len() > 0 {
                    Transform { mirror_x: vals[0] < 0, ..tf }
                } else {
                    tf
                };
                lemma_sref_elem_pos(bytes, p2, name, t2, xy);
            } else if rec.rtype == REC_MAG {
                let vals = real8s_of(rec.data);
                let t2 = if vals.len() > 0 {
                    Transform { scale: vals[0], ..tf }
                } else {
                    tf
                };
                lemma_sref_elem_pos(bytes, p2, name, t2, xy);
            } else if rec.rtype == REC_ANGLE {
                let vals = real8s_of(rec.data);
                let t2 = if vals.len() > 0 {
                    Transform { rotation: vals[0], ..tf }
                } else {
                    tf
                };
                lemma_sref_elem_pos(bytes, p2, name, t2, xy);
            } else if rec.rtype == REC_XY {
                let coords = i32s_of(rec.data);
                let xy2 = if coords.len() >= 2 {
                    Point { x: coords[0] as i64, y: coords[1] as i64 }
                } else {
                    xy
                };
                lemma_sref_elem_pos(bytes, p2, name, tf, xy2);
            } else {
                lemma_sref_elem_pos(bytes, p2, name, tf, xy);
            }
        },
    }
}

/// Skipping never moves backwards nor past the end.
pub proof fn lemma_skip_pos(bytes: Seq<u8>, pos: int)
    requires
        0 <= pos <= bytes.len(),
    ensures
        spec_skip(bytes, pos) matches Ok(p) ==> pos <= p <= bytes.len(),
    decreases bytes.len() - pos,
{
    match spec_record(bytes, pos) {
        Err(e) => {},
        Ok(None) => {},
        Ok(Some((rec, p2))) => {
            if rec.rtype == REC_ENDEL {
            } else {
                lemma_skip_pos(bytes, p2);
            }
        },
    }
}

/// How many distinct values a sequence holds.
pub open spec fn count_distinct(s: Seq<i64>) -> int
    decreases s.len(),
{
    if s.len() == 0 {
        0int
    } else {
        count_distinct(s.drop_last()) + if s.drop_last().contains(s.last()) {
            0int
        } else {
            1int
        }
    }
}

/// Whether four points describe an axis-aligned box: exactly two distinct
/// x coordinates and two distinct y coordinates.
pub open spec fn spec_axis_aligned(pts: Seq<Point>) -> bool {
    &&& pts.len() == 4
    &&& count_distinct(pts.map_values(|p: Point| p.x)) == 2
    &&& count_distinct(pts.map_values(|p: Point| p.y)) == 2
}

/// A boundary's points with a closing duplicate of the first point removed.
pub open spec fn close_trimmed(pts: Seq<Point>) -> Seq<Point> {
    if pts.len() > 1 && pts[0] == pts.last() {
        pts.drop_last()
    } else {
        pts
    }
}

/// The primitive a boundary element denotes: nothing when no points
/// remain, a rectangle when exactly four points describe an axis-aligned
/// box, a polygon otherwise.
pub open spec fn boundary_geom(layer: LayerId, pts0: Seq<Point>) -> Option<GeomView> {
    let pts = close_trimmed(pts0);
    if pts.len() == 0 {
        None
    } else if spec_axis_aligned(pts) {
        let b = bbox_of_points(pts);
        Some(GeomView::Rect { layer_id: layer, lower_left: b.min, upper_right: b.max })
    } else {
        Some(GeomView::Polygon { layer_id: layer, vertices: pts })
    }
}

/// The primitive a box element denotes: always a rectangle over the
/// points' bounds, or nothing when no points remain.
pub open spec fn box_geom(layer: LayerId, pts0: Seq<Point>) -> Option<GeomView> {
    let pts = close_trimmed(pts0);
    if pts.len() == 0 {
        None
    } else {
        let b = bbox_of_points(pts);
        Some(GeomView::Rect { layer_id: layer, lower_left: b.min, upper_right: b.max })
    }
}

/// The primitive a path element denotes.
pub open spec fn path_geom(layer: LayerId, width: i64, pts: Seq<Point>) -> Option<GeomView> {
    if pts.len() == 0 {
        None
    } else {
        Some(GeomView::Path { layer_id: layer, points: pts, width })
    }
}

/// A parsed placement: the named child and the transform, position folded
/// in.
pub ghost struct ParsedInstV {
    pub name: Seq<char>,
    pub transform: Transform,
}

/// The placement a structure-reference element denotes; an unnamed
/// reference is dropped.
pub open spec fn sref_inst(name: Seq<char>, tf: Transform, xy: Point) -> Option<ParsedInstV> {
    if name.len() == 0 {
        None
    } else {
        Some(ParsedInstV { name, transform: Transform { offset: xy, ..tf } })
    }
}

/// A parsed cell: its name and contents, without the fresh identities the
/// in-memory model assigns.
pub ghost struct ParsedCell {
    pub name: Seq<char>,
    pub geometries: Seq<GeomView>,
    pub instances: Seq<ParsedInstV>,
}

/// Structure-block accumulation: `STRNAME` names the cell, each element
/// record contributes a primitive or placement, unknown records are
/// ignored, and `ENDSTR` or the end of the stream yields the cell.
pub open spec fn spec_structure(bytes: Seq<u8>, pos: int, acc: ParsedCell) -> Result<
    (ParsedCell, int),
    ErrView,
>
    decreases bytes.len() - pos
        when 0 <= pos <= bytes.len()
        via spec_structure_decreases
{
    match spec_record(bytes, pos) {
        Err(e) => Err(e),
        Ok(None) => Ok((acc, pos)),
        Ok(Some((rec, p2))) => {
            if rec.rtype == REC_ENDSTR {
                Ok((acc, p2))
            } else if rec.rtype == REC_STRNAME {
                spec_structure(bytes, p2, ParsedCell { name: string_of(rec.data), ..acc })
            } else if rec.rtype == REC_BOUNDARY {
                match spec_elem(bytes, p2, 0, Seq::<Point>::empty()) {
                    Err(e) => Err(e),
                    Ok((l, pts, p3)) => match boundary_geom(l, pts) {
                        None => spec_structure(bytes, p3, acc),
                        Some(g) => spec_structure(
                            bytes,
                            p3,
                            ParsedCell { geometries: acc.geometries.push(g), ..acc },
                        ),
                    },
                }
            } else if rec.rtype == REC_PATH {
                match spec_path_elem(bytes, p2, 0, 0, Seq::<Point>::empty()) {
                    Err(e) => Err(e),
                    Ok((l, w, pts, p3)) => match path_geom(l, w, pts) {
                        None => spec_structure(bytes, p3, acc),
                        Some(g) => spec_structure(
                            bytes,
                            p3,
                            ParsedCell { geometries: acc.geometries.push(g), ..acc },
                        ),
                    },
                }
            } else if rec.rtype == REC_SREF {
                match spec_sref_elem(
                    bytes,
                    p2,
                    Seq::<char>::empty(),
                    Transform::identity(),
                    (Point { x: 0, y: 0 }),
                ) {
                    Err(e) => Err(e),
                    Ok((nm, tf, xy, p3)) => match sref_inst(nm, tf, xy) {
                        None => spec_structure(bytes, p3, acc),
                        Some(pi) => spec_structure(
                            bytes,
                            p3,
                            ParsedCell { instances: acc.instances.push(pi), ..acc },
                        ),
                    },
                }
            } else if rec.rtype == REC_BOX {
                match spec_elem(bytes, p2, 0, Seq::<Point>::empty()) {
                    Err(e) => Err(e),
                    Ok((l, pts, p3)) => match box_geom(l, pts) {
                        None => spec_structure(bytes, p3, acc),
                        Some(g) => spec_structure(
                            bytes,
                            p3,
                            ParsedCell { geometries: acc.geometries.push(g), ..acc },
                        ),
                    },
                }
            } else if rec.rtype == REC_TEXT || rec.rtype == REC_NODE || rec.rtype == REC_AREF {
                match spec_skip(bytes, p2) {
                    Err(e) => Err(e),
                    Ok(p3) => spec_structure(bytes, p3, acc),
                }
            } else {
                spec_structure(bytes, p2, acc)
            }
        },
    }
}

#[via_fn]
proof fn spec_structure_decreases(bytes: Seq<u8>, pos: int, acc: ParsedCell) {
    match spec_record(bytes, pos) {
        Err(e) => {},
        Ok(None) => {},
        Ok(Some((rec, p2))) => {
            lemma_elem_pos(bytes, p2, 0, Seq::<Point>::empty());
            lemma_path_elem_pos(bytes, p2, 0, 0, Seq::<Point>::empty());
            lemma_sref_elem_pos(
                bytes,
                p2,
                Seq::<char>::empty(),
                Transform::identity(),
                (Point { x: 0, y: 0 }),
            );
            lemma_skip_pos(bytes, p2);
        },
    }
}

/// A parsed library: its name, its cells in stream order, and the unit
/// record's two reals when one was seen.
pub ghost struct LibView {
    pub name: Seq<char>,
    pub cells: Seq<ParsedCell>,
    pub units: Option<(Real8, Real8)>,
}

/// The empty cell every structure block starts from.
pub open spec fn unnamed_cell() -> ParsedCell {
    ParsedCell {
        name: "unnamed"@,
        geometries: Seq::<GeomView>::empty(),
        instances: Seq::<ParsedInstV>::empty(),
    }
}

/// Library accumulation: `LIBNAME` names the library, `UNITS` captures the
/// scale pair, every structure block adds a cell, unknown records are
/// ignored, and `ENDLIB` or the end of the stream yields the library.
pub open spec fn spec_lib(bytes: Seq<u8>, pos: int, acc: LibView) -> Result<LibView, ErrView>
    decreases bytes.len() - pos
        when 0 <= pos <= bytes.len()
        via spec_lib_decreases
{
    match spec_record(bytes, pos) {
        Err(e) => Err(e),
        Ok(None) => Ok(acc),
        Ok(Some((rec, p2))) => {
            if rec.rtype == REC_ENDLIB {
                Ok(acc)
            } else if rec.rtype == REC_LIBNAME {
                spec_lib(bytes, p2, LibView { name: string_of(rec.data), ..acc })
            } else if rec.rtype == REC_UNITS {
                let vals = real8s_of(rec.data);
                let acc2 = if vals.len() >= 2 {
                    LibView { units: Some((vals[0], vals[1])), ..acc }
                } else {
                    acc
                };
                spec_lib(bytes, p2, acc2)
            } else if rec.rtype == REC_BGNSTR {
                match spec_structure(bytes, p2, unnamed_cell()) {
                    Err(e) => Err(e),
                    Ok((pc, p3)) => spec_lib(
                        bytes,
                        p3,
                        LibView { cells: acc.cells.push(pc), ..acc },
                    ),
                }
            } else {
                spec_lib(bytes, p2, acc)
            }
        },
    }
}

/// Structure accumulation never moves backwards nor past the end.
pub proof fn lemma_structure_pos(bytes: Seq<u8>, pos: int, acc: ParsedCell)
    requires
        0 <= pos <= bytes.len(),
    ensures
        spec_structure(bytes, pos, acc) matches Ok(r) ==> pos <= r.1 <= bytes.len(),
    decreases bytes.len() - pos,
{
    match spec_record(bytes, pos) {
        Err(e) => {},
        Ok(None) => {},
        Ok(Some((rec, p2))) => {
            lemma_elem_pos(bytes, p2, 0, Seq::<Point>::empty());
            lemma_path_elem_pos(bytes, p2, 0, 0, Seq::<Point>::empty());
            lemma_sref_elem_pos(
                bytes,
                p2,
                Seq::<char>::empty(),
                Transform::identity(),
                (Point { x: 0, y: 0 }),
            );
            lemma_skip_pos(bytes, p2);
            if rec.rtype == REC_ENDSTR {
            } else if rec.rtype == REC_STRNAME {
                lemma_structure_pos(bytes, p2, ParsedCell { name: string_of(rec.data), ..acc });
            } else if rec.rtype == REC_BOUNDARY {
                match spec_elem(bytes, p2, 0, Seq::<Point>::empty()) {
                    Err(e) => {},
                    Ok((l, pts, p3)) => {
                        match boundary_geom(l, pts) {
                            None => lemma_structure_pos(bytes, p3, acc),
                            Some(g) => lemma_structure_pos(
                                bytes,
                                p3,
                                ParsedCell { geometries: acc.geometries.push(g), ..acc },
                            ),
                        }
                    },
                }
            } else if rec.rtype == REC_PATH {
                match spec_path_elem(bytes, p2, 0, 0, Seq::<Point>::empty()) {
                    Err(e) => {},
                    Ok((l, w, pts, p3)) => {
                        match path_geom(l, w, pts) {
                            None => lemma_structure_pos(bytes, p3, acc),
                            Some(g) => lemma_structure_pos(
                                bytes,
                                p3,
                                ParsedCell { geometries: acc.geometries.push(g), ..acc },
                            ),
                        }
                    },
                }
            } else if rec.rtype == REC_SREF {
                match spec_sref_elem(
                    bytes,
                    p2,
                    Seq::<char>::empty(),
                    Transform::identity(),
                    (Point { x: 0, y: 0 }),
                ) {
                    Err(e) => {},
                    Ok((nm, tf, xy, p3)) => {
                        match sref_inst(nm, tf, xy) {
                            None => lemma_structure_pos(bytes, p3, acc),
                            Some(pi) => lemma_structure_pos(
                                bytes,
                                p3,
                                ParsedCell { instances: acc.instances.push(pi), ..acc },
                            ),
                        }
                    },
                }
            } else if rec.rtype == REC_BOX {
                match spec_elem(bytes, p2, 0, Seq::<Point>::empty()) {
                    Err(e) => {},
                    Ok((l, pts, p3)) => {
                        match box_geom(l, pts) {
                            None => lemma_structure_pos(bytes, p3, acc),
                            Some(g) => lemma_structure_pos(
                                bytes,
                                p3,
                                ParsedCell { geometries: acc.geometries.push(g), ..acc },
                            ),
                        }
                    },
                }
            } else if rec.rtype == REC_TEXT || rec.rtype == REC_NODE || rec.rtype == REC_AREF {
                match spec_skip(bytes, p2) {
                    Err(e) => {},
                    Ok(p3) => lemma_structure_pos(bytes, p3, acc),
                }
            } else {
                lemma_structure_pos(bytes, p2, acc);
            }
        },
    }
}

#[via_fn]
proof fn spec_lib_decreases(bytes: Seq<u8>, pos: int, acc: LibView) {
    match spec_record(bytes, pos) {
        Err(e) => {},
        Ok(None) => {},
        Ok(Some((rec, p2))) => {
            lemma_structure_pos(bytes, p2, unnamed_cell());
        },
    }
}

/// Rectangle detection on import: a boundary whose points, after removing
/// the closing duplicate, are exactly four with two distinct x coordinates
/// and two distinct y coordinates becomes a rectangle spanning their
/// bounds; any other nonempty boundary becomes a polygon with exactly
/// those points. The layer id carries over either way.
pub proof fn lemma_boundary_rect_detection(layer: LayerId, pts: Seq<Point>)
    requires
        close_trimmed(pts).len() > 0,
    ensures
        spec_axis_aligned(close_trimmed(pts)) ==> boundary_geom(layer, pts) == Some(
            GeomView::Rect {
                layer_id: layer,
                lower_left: bbox_of_points(close_trimmed(pts)).min,
                upper_right: bbox_of_points(close_trimmed(pts)).max,
            },
        ),
        !spec_axis_aligned(close_trimmed(pts)) ==> boundary_geom(layer, pts) == Some(
            GeomView::Polygon { layer_id: layer, vertices: close_trimmed(pts) },
        ),
{
}

/// The leading version header: the stream must start with a `HEADER`
/// record.
pub open spec fn spec_header(bytes: Seq<u8>) -> Result<int, ErrView> {
    match spec_record(bytes, 0) {
        Err(e) => Err(e),
        Ok(None) => Err(ErrView::InvalidRecord { offset: 0, message: "Empty file"@ }),
        Ok(Some((rec, p2))) => {
            if rec.rtype != REC_HEADER {
                Err(ErrView::UnexpectedRecord { record_type: rec.rtype, expected: REC_HEADER })
            } else {
                Ok(p2)
            }
        },
    }
}

/// A whole stream: the version header, then the library.
pub open spec fn spec_read(bytes: Seq<u8>) -> Result<LibView, ErrView> {
    match spec_header(bytes) {
        Err(e) => Err(e),
        Ok(p) => spec_lib(
            bytes,
            p,
            LibView { name: "imported"@, cells: Seq::<ParsedCell>::empty(), units: None },
        ),
    }
}

/// The projection of a stored instance onto its parsed content.
pub open spec fn proj_inst(iv: crate::cell::InstView) -> ParsedInstV {
    ParsedInstV { name: iv.instance_name, transform: iv.transform }
}

/// The projection of a stored cell onto its parsed content.
pub open spec fn proj_cell(cv: crate::cell::CellView) -> ParsedCell {
    ParsedCell {
        name: cv.name,
        geometries: cv.geometries,
        instances: cv.instances.map_values(|iv: crate::cell::InstView| proj_inst(iv)),
    }
}

/// Whether a stored cell holds exactly a parsed cell's content: same name,
/// geometry and placements (every placement pointing at the placeholder id
/// zero, to be resolved by name later), no pins, and marked modified
/// exactly when something was added.
pub open spec fn cell_matches(cv: crate::cell::CellView, pc: ParsedCell) -> bool {
    &&& proj_cell(cv) == pc
    &&& cv.pins.len() == 0
    &&& forall|j: int| 0 <= j < cv.instances.len() ==> (#[trigger] cv.instances[j]).cell_id == 0
    &&& cv.modified == (cv.geometries.len() + cv.instances.len() > 0)
}

/// Whether a database holds exactly a parsed library: the library name, one
/// matching cell per parsed cell in stream order, the first cell as top,
/// and nothing else — no layers, no history, a one-nanometer unit.
pub open spec fn db_matches(d: crate::database::DbView, lib: LibView) -> bool {
    &&& d.name == lib.name
    &&& d.layers.len() == 0
    &&& d.undo.len() == 0
    &&& d.redo.len() == 0
    &&& d.dbu_per_nm == 1
    &&& d.cells.len() == lib.cells.len()
    &&& forall|i: int| 0 <= i < d.cells.len() ==> cell_matches(#[trigger] d.cells[i], lib.cells[i])
    &&& (d.cells.len() == 0 ==> d.top_cell is None)
    &&& (d.cells.len() > 0 ==> d.top_cell == Some(d.cells[0].id))
}

/// A nonempty character sequence encodes to at least one byte.
proof fn lemma_utf8_empty(s: Seq<char>)
    ensures
        (vstd::utf8::encode_utf8(s).len() == 0) <==> (s.len() == 0),
{
    if s.len() > 0 {
        assert(vstd::utf8::encode_utf8(s) == vstd::utf8::encode_scalar(s[0] as u32)
            + vstd::utf8::encode_utf8(s.drop_first()));
        assert(vstd::utf8::encode_scalar(s[0] as u32).len() >= 1);
    }
}

/// The view of an optional primitive.
pub open spec fn opt_geom_view(o: Option<crate::geometry::GeomPrimitive>) -> Option<GeomView> {
    match o {
        None => None,
        Some(g) => Some(g@),
    }
}

/// How many distinct values a vector holds.
fn count_distinct_vals(vals: &Vec<i64>) -> (r: usize)
    ensures
        r == count_distinct(vals@),
{
    let mut cnt: usize = 0;
    let mut i: usize = 0;
    while i < vals.len()
        invariant
            0 <= i <= vals@.len(),
            cnt == count_distinct(vals@.subrange(0, i as int)),
            cnt <= i,
        decreases vals@.len() - i,
    {
        let mut found: bool = false;
        let mut j: usize = 0;
        while j < i
            invariant
                0 <= j <= i < vals@.len(),
                found <==> exists|k: int| 0 <= k < j && vals@[k] == vals@[i as int],
            decreases i - j,
        {
            if vals[j] == vals[i] {
                found = true;
            }
            j = j + 1;
        }
        proof {
            let pre = vals@.subrange(0, i as int);
            let post = vals@.subrange(0, i + 1);
            assert(post.drop_last() =~= pre);
            assert(post.last() == vals@[i as int]);
            assert(found <==> pre.contains(vals@[i as int])) by {
                if found {
                    let k = choose|k: int| 0 <= k < i && vals@[k] == vals@[i as int];
                    assert(pre[k] == vals@[i as int]);
                }
                if pre.contains(vals@[i as int]) {
                    let k = choose|k: int|
                        0 <= k < pre.len() && pre[k] == vals@[i as int];
                    assert(vals@[k] == vals@[i as int]);
                }
            }
        }
        if !found {
            cnt = cnt + 1;
        }
        i = i + 1;
    }
    proof {
        assert(vals@.subrange(0, vals@.len() as int) =~= vals@);
    }
    cnt
}

/// Whether four points form an axis-aligned rectangle: exactly two
/// distinct x coordinates and two distinct y coordinates.
pub fn is_axis_aligned_rect(points: &[Point]) -> (r: bool)
    ensures
        r == spec_axis_aligned(points@),
{
    if points.len() != 4 {
        return false;
    }
    let mut xs: Vec<i64> = Vec::new();
    let mut ys: Vec<i64> = Vec::new();
    let mut i: usize = 0;
    while i < points.len()
        invariant
            0 <= i <= points@.len(),
            xs@ == points@.subrange(0, i as int).map_values(|p: Point| p.x),
            ys@ == points@.subrange(0, i as int).map_values(|p: Point| p.y),
        decreases points@.len() - i,
    {
        xs.push(points[i].x);
        ys.push(points[i].y);
        proof {
            assert(xs@ =~= points@.subrange(0, i + 1).map_values(|p: Point| p.x));
            assert(ys@ =~= points@.subrange(0, i + 1).map_values(|p: Point| p.y));
        }
        i = i + 1;
    }
    proof {
        assert(points@.subrange(0, points@.len() as int) =~= points@);
    }
    let dx: usize = count_distinct_vals(&xs);
    let dy: usize = count_distinct_vals(&ys);
    dx == 2 && dy == 2
}

/// Reads a GDS-II stream held in memory into a layout database.
#[derive(Debug)]
pub struct GdsReader {
    bytes: Vec<u8>,
    pos: usize,
    units: Option<(Real8, Real8)>,
}

/// The mathematical value of a [`GdsReader`].
pub ghost struct RdView {
    pub bytes: Seq<u8>,
    pub pos: int,
    pub units: Option<(Real8, Real8)>,
}

impl View for GdsReader {
    type V = RdView;

    closed spec fn view(&self) -> RdView {
        RdView { bytes: self.bytes@, pos: self.pos as int, units: self.units }
    }
}

impl GdsReader {
    /// A reader over the given bytes, positioned at the start.
    pub fn new(bytes: Vec<u8>) -> (r: Self)
        ensures
            r@.bytes == bytes@,
            r@.pos == 0,
            r@.units is None,
    {
        Self { bytes, pos: 0, units: None }
    }

    /// The unit pair captured from the stream's `UNITS` record, if one was
    /// read: the database unit in user units and in meters.
    pub fn units(&self) -> (r: Option<(Real8, Real8)>)
        ensures
            r == self@.units,
    {
        self.units
    }

    /// Reads the next record, or nothing at a clean end of stream.
    fn read_record(&mut self) -> (r: Result<Option<GdsRecord>, GdsError>)
        requires
            old(self)@.pos <= old(self)@.bytes.len(),
        ensures
            final(self)@.bytes == old(self)@.bytes,
            final(self)@.units == old(self)@.units,
            match r {
                Ok(None) => spec_record(old(self)@.bytes, old(self)@.pos) == Ok::<
                    Option<(RecView, int)>,
                    ErrView,
                >(None) && final(self)@ == old(self)@,
                Ok(Some(rec)) => spec_record(old(self)@.bytes, old(self)@.pos) == Ok::<
                    Option<(RecView, int)>,
                    ErrView,
                >(Some((rec@, final(self)@.pos))) && old(self)@.pos + 4 <= final(self)@.pos <= old(self)@.bytes.len(),
                Err(e) => spec_record(old(self)@.bytes, old(self)@.pos) == Err::<
                    Option<(RecView, int)>,
                    ErrView,
                >(e@),
            },
    {
        let len: usize = self.bytes.len();
        if len - self.pos < 2 {
            return Ok(None);
        }
        let total: u16 = (self.bytes[self.pos] as u16) * 256 + self.bytes[self.pos + 1] as u16;
        if total < 4 {
            return Err(
                GdsError::InvalidRecord {
                    offset: (self.pos + 2) as u64,
                    message: "record length below header size".to_owned(),
                },
            );
        }
        if len - self.pos < 4 || len - self.pos < total as usize {
            return Err(GdsError::Io("stream ended inside a record".to_owned()));
        }
        let rtype: u16 = (self.bytes[self.pos + 2] as u16) * 256 + self.bytes[self.pos + 3] as u16;
        let data: Vec<u8> = vstd::slice::slice_to_vec(
            vstd::slice::slice_subrange(
                self.bytes.as_slice(),
                self.pos + 4,
                self.pos + total as usize,
            ),
        );
        self.pos = self.pos + total as usize;
        Ok(Some(GdsRecord { record_type: rtype, data }))
    }

    /// Consumes the mandatory leading `HEADER` record.
    fn read_header(&mut self) -> (r: Result<(), GdsError>)
        requires
            old(self)@.pos == 0,
        ensures
            final(self)@.bytes == old(self)@.bytes,
            final(self)@.units == old(self)@.units,
            match r {
                Ok(()) => spec_header(old(self)@.bytes) == Ok::<int, ErrView>(final(self)@.pos)
                    && 0 <= final(self)@.pos <= final(self)@.bytes.len(),
                Err(e) => spec_header(old(self)@.bytes) == Err::<int, ErrView>(e@),
            },
    {
        match self.read_record() {
            Err(e) => Err(e),
            Ok(None) => Err(
                GdsError::InvalidRecord { offset: 0, message: "Empty file".to_owned() },
            ),
            Ok(Some(rec)) => {
                if rec.record_type != REC_HEADER {
                    Err(
                        GdsError::UnexpectedRecord {
                            record_type: rec.record_type,
                            expected: REC_HEADER,
                        },
                    )
                } else {
                    Ok(())
                }
            },
        }
    }

    /// Consumes a boundary-shaped element (`BOUNDARY` or `BOX`) and returns
    /// its accumulated layer and points.
    fn read_elem(&mut self) -> (r: Result<(LayerId, Vec<Point>), GdsError>)
        requires
            old(self)@.pos <= old(self)@.bytes.len(),
        ensures
            final(self)@.bytes == old(self)@.bytes,
            final(self)@.units == old(self)@.units,
            match r {
                Ok(lp) => spec_elem(old(self)@.bytes, old(self)@.pos, 0, Seq::<Point>::empty())
                    == Ok::<(LayerId, Seq<Point>, int), ErrView>(
                    (lp.0, lp.1@, final(self)@.pos),
                ) && old(self)@.pos <= final(self)@.pos <= final(self)@.bytes.len(),
                Err(e) => spec_elem(old(self)@.bytes, old(self)@.pos, 0, Seq::<Point>::empty())
                    == Err::<(LayerId, Seq<Point>, int), ErrView>(e@),
            },
    {
        let mut layer: LayerId = 0;
        let mut points: Vec<Point> = Vec::new();
        proof {
            assert(points@ =~= Seq::<Point>::empty());
        }
        loop
            invariant
                self@.bytes == old(self)@.bytes,
                self@.units == old(self)@.units,
                0 <= old(self)@.pos <= self@.pos <= self@.bytes.len(),
                spec_elem(old(self)@.bytes, old(self)@.pos, 0, Seq::<Point>::empty()) == spec_elem(
                    self@.bytes,
                    self@.pos,
                    layer,
                    points@,
                ),
            decreases self@.bytes.len() - self@.pos,
        {
            let ghost pre = self@;
            match self.read_record() {
                Err(e) => {
                    return Err(e);
                },
                Ok(None) => {
                    return Ok((layer, points));
                },
                Ok(Some(rec)) => {
                    if rec.record_type == REC_ENDEL {
                        return Ok((layer, points));
                    } else if rec.record_type == REC_LAYER {
                        let vals: Vec<i16> = rec.as_i16_vec();
                        if vals.len() > 0 {
                            layer = vals[0] as LayerId;
                        }
                    } else if rec.record_type == REC_XY {
                        append_xy_points(&mut points, &rec);
                    }
                },
            }
        }
    }

    /// Consumes a `PATH` element and returns its layer, width and points.
    fn read_path_elem(&mut self) -> (r: Result<(LayerId, i64, Vec<Point>), GdsError>)
        requires
            old(self)@.pos <= old(self)@.bytes.len(),
        ensures
            final(self)@.bytes == old(self)@.bytes,
            final(self)@.units == old(self)@.units,
            match r {
                Ok(lp) => spec_path_elem(
                    old(self)@.bytes,
                    old(self)@.pos,
                    0,
                    0,
                    Seq::<Point>::empty(),
                ) == Ok::<(LayerId, i64, Seq<Point>, int), ErrView>(
                    (lp.0, lp.1, lp.2@, final(self)@.pos),
                ) && old(self)@.pos <= final(self)@.pos <= final(self)@.bytes.len(),
                Err(e) => spec_path_elem(
                    old(self)@.bytes,
                    old(self)@.pos,
                    0,
                    0,
                    Seq::<Point>::empty(),
                ) == Err::<(LayerId, i64, Seq<Point>, int), ErrView>(e@),
            },
    {
        let mut layer: LayerId = 0;
        let mut width: i64 = 0;
        let mut points: Vec<Point> = Vec::new();
        proof {
            assert(points@ =~= Seq::<Point>::empty());
        }
        loop
            invariant
                self@.bytes == old(self)@.bytes,
                self@.units == old(self)@.units,
                0 <= old(self)@.pos <= self@.pos <= self@.bytes.len(),
                spec_path_elem(old(self)@.bytes, old(self)@.pos, 0, 0, Seq::<Point>::empty())
                    == spec_path_elem(self@.bytes, self@.pos, layer, width, points@),
            decreases self@.bytes.len() - self@.pos,
        {
            match self.read_record() {
                Err(e) => {
                    return Err(e);
                },
                Ok(None) => {
                    return Ok((layer, width, points));
                },
                Ok(Some(rec)) => {
                    if rec.record_type == REC_ENDEL {
                        return Ok((layer, width, points));
                    } else if rec.record_type == REC_LAYER {
                        let vals: Vec<i16> = rec.as_i16_vec();
                        if vals.len() > 0 {
                            layer = vals[0] as LayerId;
                        }
                    } else if rec.record_type == REC_WIDTH {
                        let vals: Vec<i32> = rec.as_i32_vec();
                        if vals.len() > 0 {
                            width = vals[0] as i64;
                        }
                    } else if rec.record_type == REC_XY {
                        append_xy_points(&mut points, &rec);
                    }
                },
            }
        }
    }

    /// Consumes an `SREF` element and returns the placement it denotes, or
    /// nothing for an unnamed reference.
    fn read_sref(&mut self) -> (r: Result<Option<crate::cell::CellInstance>, GdsError>)
        requires
            old(self)@.pos <= old(self)@.bytes.len(),
        ensures
            final(self)@.bytes == old(self)@.bytes,
            final(self)@.units == old(self)@.units,
            match r {
                Ok(o) => spec_sref_elem(
                    old(self)@.bytes,
                    old(self)@.pos,
                    Seq::<char>::empty(),
                    Transform::identity(),
                    (Point { x: 0, y: 0 }),
                ) matches Ok(t) && final(self)@.pos == t.3 && old(self)@.pos <= final(self)@.pos
                    <= final(self)@.bytes.len() && (match (o, sref_inst(t.0, t.1, t.2)) {
                    (None, None) => true,
                    (Some(ci), Some(pi)) => ci@.cell_id == 0 && ci@.instance_name == pi.name
                        && ci@.transform == pi.transform,
                    _ => false,
                }),
                Err(e) => spec_sref_elem(
                    old(self)@.bytes,
                    old(self)@.pos,
                    Seq::<char>::empty(),
                    Transform::identity(),
                    (Point { x: 0, y: 0 }),
                ) == Err::<(Seq<char>, Transform, Point, int), ErrView>(e@),
            },
    {
        let (cell_name, transform, position) = match self.read_sref_elem() {
            Err(e) => {
                return Err(e);
            },
            Ok(t) => t,
        };
        proof {
            lemma_utf8_empty(cell_name@);
        }
        if cell_name.as_str().as_bytes().len() == 0 {
            return Ok(None);
        }
        let tf: Transform = Transform { offset: position, ..transform };
        let inst = crate::cell::CellInstance::new(0, cell_name.as_str(), tf);
        Ok(Some(inst))
    }

    /// Consumes the records of an `SREF` element, accumulating the child
    /// name, transform flags and placement position.
    fn read_sref_elem(&mut self) -> (r: Result<(String, Transform, Point), GdsError>)
        requires
            old(self)@.pos <= old(self)@.bytes.len(),
        ensures
            final(self)@.bytes == old(self)@.bytes,
            final(self)@.units == old(self)@.units,
            match r {
                Ok(t) => spec_sref_elem(
                    old(self)@.bytes,
                    old(self)@.pos,
                    Seq::<char>::empty(),
                    Transform::identity(),
                    (Point { x: 0, y: 0 }),
                ) == Ok::<(Seq<char>, Transform, Point, int), ErrView>(
                    (t.0@, t.1, t.2, final(self)@.pos),
                ) && old(self)@.pos <= final(self)@.pos <= final(self)@.bytes.len(),
                Err(e) => spec_sref_elem(
                    old(self)@.bytes,
                    old(self)@.pos,
                    Seq::<char>::empty(),
                    Transform::identity(),
                    (Point { x: 0, y: 0 }),
                ) == Err::<(Seq<char>, Transform, Point, int), ErrView>(e@),
            },
    {
        let mut cell_name: String = String::new();
        let mut transform: Transform = Transform::default();
        let mut position: Point = Point::new(0, 0);
        loop
            invariant
                self@.bytes == old(self)@.bytes,
                self@.units == old(self)@.units,
                0 <= old(self)@.pos <= self@.pos <= self@.bytes.len(),
                spec_sref_elem(
                    old(self)@.bytes,
                    old(self)@.pos,
                    Seq::<char>::empty(),
                    Transform::identity(),
                    (Point { x: 0, y: 0 }),
                ) == spec_sref_elem(self@.bytes, self@.pos, cell_name@, transform, position),
            decreases self@.bytes.len() - self@.pos,
        {
            match self.read_record() {
                Err(e) => {
                    return Err(e);
                },
                Ok(None) => {
                    return Ok((cell_name, transform, position));
                },
                Ok(Some(rec)) => {
                    if rec.record_type == REC_ENDEL {
                        return Ok((cell_name, transform, position));
                    } else if rec.record_type == REC_SNAME {
                        cell_name = rec.as_string();
                    } else if rec.record_type == REC_STRANS {
                        let vals: Vec<i16> = rec.as_i16_vec();
                        if vals.len() > 0 {
                            transform = Transform { mirror_x: vals[0] < 0, ..transform };
                        }
                    } else if rec.record_type == REC_MAG {
                        let vals: Vec<Real8> = rec.as_real8_vec();
                        if vals.len() > 0 {
                            transform = Transform { scale: vals[0], ..transform };
                        }
                    } else if rec.record_type == REC_ANGLE {
                        let vals: Vec<Real8> = rec.as_real8_vec();
                        if vals.len() > 0 {
                            transform = Transform { rotation: vals[0], ..transform };
                        }
                    } else if rec.record_type == REC_XY {
                        let coords: Vec<i32> = rec.as_i32_vec();
                        if coords.len() >= 2 {
                            position = Point { x: coords[0] as i64, y: coords[1] as i64 };
                        }
                    }
                },
            }
        }
    }

    /// Skips an unmodelled element up to its terminating `ENDEL`.
    fn skip_to_endel(&mut self) -> (r: Result<(), GdsError>)
        requires
            old(self)@.pos <= old(self)@.bytes.len(),
        ensures
            final(self)@.bytes == old(self)@.bytes,
            final(self)@.units == old(self)@.units,
            match r {
                Ok(()) => spec_skip(old(self)@.bytes, old(self)@.pos) == Ok::<int, ErrView>(
                    final(self)@.pos,
                ) && old(self)@.pos <= final(self)@.pos <= final(self)@.bytes.len(),
                Err(e) => spec_skip(old(self)@.bytes, old(self)@.pos) == Err::<int, ErrView>(e@),
            },
    {
        loop
            invariant
                self@.bytes == old(self)@.bytes,
                self@.units == old(self)@.units,
                0 <= old(self)@.pos <= self@.pos <= self@.bytes.len(),
                spec_skip(old(self)@.bytes, old(self)@.pos) == spec_skip(self@.bytes, self@.pos),
            decreases self@.bytes.len() - self@.pos,
        {
            match self.read_record() {
                Err(e) => {
                    return Err(e);
                },
                Ok(None) => {
                    return Ok(());
                },
                Ok(Some(rec)) => {
                    if rec.record_type == REC_ENDEL {
                        return Ok(());
                    }
                },
            }
        }
    }

    /// Reads one `BOUNDARY` element as the primitive it denotes.
    fn read_boundary(&mut self) -> (r: Result<Option<crate::geometry::GeomPrimitive>, GdsError>)
        requires
            old(self)@.pos <= old(self)@.bytes.len(),
        ensures
            final(self)@.bytes == old(self)@.bytes,
            final(self)@.units == old(self)@.units,
            match r {
                Ok(o) => spec_elem(old(self)@.bytes, old(self)@.pos, 0, Seq::<Point>::empty())
                    matches Ok(t) && final(self)@.pos == t.2 && old(self)@.pos <= final(self)@.pos
                    <= final(self)@.bytes.len() && opt_geom_view(o) == boundary_geom(t.0, t.1),
                Err(e) => spec_elem(old(self)@.bytes, old(self)@.pos, 0, Seq::<Point>::empty())
                    == Err::<(LayerId, Seq<Point>, int), ErrView>(e@),
            },
    {
        let (layer, mut points) = match self.read_elem() {
            Err(e) => {
                return Err(e);
            },
            Ok(lp) => lp,
        };
        let ghost raw = points@;
        if points.len() > 1 && points[0] == points[points.len() - 1] {
            points.pop();
        }
        proof {
            assert(points@ == close_trimmed(raw));
        }
        if points.len() == 0 {
            return Ok(None);
        }
        if is_axis_aligned_rect(points.as_slice()) {
            match BBox::from_points(points.as_slice()) {
                Some(b) => {
                    let rect = crate::geometry::Rect::new(layer, b.min.x, b.min.y, b.max.x, b.max.y);
                    return Ok(Some(crate::geometry::GeomPrimitive::Rect(rect)));
                },
                None => {
                    proof {
                        assert(false);
                    }
                    return Ok(None);
                },
            }
        }
        Ok(Some(crate::geometry::GeomPrimitive::Polygon(crate::geometry::Polygon {
            layer_id: layer,
            vertices: points,
        })))
    }

    /// Reads one `BOX` element as the rectangle it denotes.
    fn read_box(&mut self) -> (r: Result<Option<crate::geometry::GeomPrimitive>, GdsError>)
        requires
            old(self)@.pos <= old(self)@.bytes.len(),
        ensures
            final(self)@.bytes == old(self)@.bytes,
            final(self)@.units == old(self)@.units,
            match r {
                Ok(o) => spec_elem(old(self)@.bytes, old(self)@.pos, 0, Seq::<Point>::empty())
                    matches Ok(t) && final(self)@.pos == t.2 && old(self)@.pos <= final(self)@.pos
                    <= final(self)@.bytes.len() && opt_geom_view(o) == box_geom(t.0, t.1),
                Err(e) => spec_elem(old(self)@.bytes, old(self)@.pos, 0, Seq::<Point>::empty())
                    == Err::<(LayerId, Seq<Point>, int), ErrView>(e@),
            },
    {
        let (layer, mut points) = match self.read_elem() {
            Err(e) => {
                return Err(e);
            },
            Ok(lp) => lp,
        };
        let ghost raw = points@;
        if points.len() > 1 && points[0] == points[points.len() - 1] {
            points.pop();
        }
        proof {
            assert(points@ == close_trimmed(raw));
        }
        if points.len() == 0 {
            return Ok(None);
        }
        match BBox::from_points(points.as_slice()) {
            Some(b) => {
                let rect = crate::geometry::Rect::new(layer, b.min.x, b.min.y, b.max.x, b.max.y);
                Ok(Some(crate::geometry::GeomPrimitive::Rect(rect)))
            },
            None => {
                proof {
                    assert(false);
                }
                Ok(None)
            },
        }
    }

    /// Reads one `PATH` element as the primitive it denotes.
    fn read_path(&mut self) -> (r: Result<Option<crate::geometry::GeomPrimitive>, GdsError>)
        requires
            old(self)@.pos <= old(self)@.bytes.len(),
        ensures
            final(self)@.bytes == old(self)@.bytes,
            final(self)@.units == old(self)@.units,
            match r {
                Ok(o) => spec_path_elem(
                    old(self)@.bytes,
                    old(self)@.pos,
                    0,
                    0,
                    Seq::<Point>::empty(),
                ) matches Ok(t) && final(self)@.pos == t.3 && old(self)@.pos <= final(self)@.pos
                    <= final(self)@.bytes.len() && opt_geom_view(o) == path_geom(t.0, t.1, t.2),
                Err(e) => spec_path_elem(
                    old(self)@.bytes,
                    old(self)@.pos,
                    0,
                    0,
                    Seq::<Point>::empty(),
                ) == Err::<(LayerId, i64, Seq<Point>, int), ErrView>(e@),
            },
    {
        let (layer, width, points) = match self.read_path_elem() {
            Err(e) => {
                return Err(e);
            },
            Ok(lp) => lp,
        };
        if points.len() == 0 {
            return Ok(None);
        }
        Ok(Some(crate::geometry::GeomPrimitive::Path(crate::geometry::Path {
            layer_id: layer,
            points,
            width,
        })))
    }

    /// Reads one structure block as a cell.
    fn read_structure(&mut self) -> (r: Result<crate::cell::Cell, GdsError>)
        requires
            old(self)@.pos <= old(self)@.bytes.len(),
        ensures
            final(self)@.bytes == old(self)@.bytes,
            final(self)@.units == old(self)@.units,
            match r {
                Ok(cell) => spec_structure(old(self)@.bytes, old(self)@.pos, unnamed_cell())
                    matches Ok(t) && final(self)@.pos == t.1 && old(self)@.pos <= final(self)@.pos
                    <= final(self)@.bytes.len() && cell_matches(cell@, t.0),
                Err(e) => spec_structure(old(self)@.bytes, old(self)@.pos, unnamed_cell())
                    matches Err(ev) && ev == e@,
            },
    {
        let mut cell: crate::cell::Cell = crate::cell::Cell::new("unnamed");
        proof {
            assert(proj_cell(cell@).instances =~= Seq::<ParsedInstV>::empty());
            assert(proj_cell(cell@) == unnamed_cell());
        }
        loop
            invariant
                self@.bytes == old(self)@.bytes,
                self@.units == old(self)@.units,
                0 <= self@.pos <= self@.bytes.len(),
                cell@.pins.len() == 0,
                forall|j: int|
                    0 <= j < cell@.instances.len() ==> (#[trigger] cell@.instances[j]).cell_id
                        == 0,
                cell@.modified == (cell@.geometries.len() + cell@.instances.len() > 0),
                old(self)@.pos <= self@.pos,
                spec_structure(old(self)@.bytes, old(self)@.pos, unnamed_cell()) == spec_structure(
                    self@.bytes,
                    self@.pos,
                    proj_cell(cell@),
                ),
            decreases self@.bytes.len() - self@.pos,
        {
            let ghost acc = proj_cell(cell@);
            match self.read_record() {
                Err(e) => {
                    return Err(e);
                },
                Ok(None) => {
                    return Ok(cell);
                },
                Ok(Some(rec)) => {
                    if rec.record_type == REC_ENDSTR {
                        return Ok(cell);
                    } else if rec.record_type == REC_STRNAME {
                        cell.name = rec.as_string();
                        proof {
                            assert(proj_cell(cell@) == (ParsedCell {
                                name: string_of(rec@.data),
                                ..acc
                            }));
                        }
                    } else if rec.record_type == REC_BOUNDARY {
                        match self.read_boundary() {
                            Err(e) => {
                                return Err(e);
                            },
                            Ok(None) => {},
                            Ok(Some(g)) => {
                                cell.add_geometry(g);
                                proof {
                                    assert(proj_cell(cell@).instances =~= acc.instances);
                                }
                            },
                        }
                    } else if rec.record_type == REC_PATH {
                        match self.read_path() {
                            Err(e) => {
                                return Err(e);
                            },
                            Ok(None) => {},
                            Ok(Some(g)) => {
                                cell.add_geometry(g);
                                proof {
                                    assert(proj_cell(cell@).instances =~= acc.instances);
                                }
                            },
                        }
                    } else if rec.record_type == REC_SREF {
                        match self.read_sref() {
                            Err(e) => {
                                return Err(e);
                            },
                            Ok(None) => {},
                            Ok(Some(inst)) => {
                                let ghost iv = inst@;
                                cell.add_instance(inst);
                                proof {
                                    assert(proj_cell(cell@).instances =~= acc.instances.push(
                                        proj_inst(iv),
                                    ));
                                }
                            },
                        }
                    } else if rec.record_type == REC_BOX {
                        match self.read_box() {
                            Err(e) => {
                                return Err(e);
                            },
                            Ok(None) => {},
                            Ok(Some(g)) => {
                                cell.add_geometry(g);
                                proof {
                                    assert(proj_cell(cell@).instances =~= acc.instances);
                                }
                            },
                        }
                    } else if rec.record_type == REC_TEXT || rec.record_type == REC_NODE
                        || rec.record_type == REC_AREF {
                        match self.skip_to_endel() {
                            Err(e) => {
                                return Err(e);
                            },
                            Ok(()) => {},
                        }
                    }
                },
            }
        }
    }

    /// Reads the library loop into the database.
    fn read_lib(&mut self, db: &mut crate::database::LayoutDatabase) -> (r: Result<(), GdsError>)
        requires
            old(self)@.pos <= old(self)@.bytes.len(),
            old(db)@.cells.len() == 0,
            old(db)@.top_cell is None,
            old(db)@.layers.len() == 0,
            old(db)@.undo.len() == 0,
            old(db)@.redo.len() == 0,
            old(db)@.dbu_per_nm == 1,
        ensures
            final(self)@.bytes == old(self)@.bytes,
            match r {
                Ok(()) => spec_lib(
                    old(self)@.bytes,
                    old(self)@.pos,
                    LibView {
                        name: old(db)@.name,
                        cells: Seq::<ParsedCell>::empty(),
                        units: old(self)@.units,
                    },
                ) matches Ok(lib) && db_matches(final(db)@, lib) && final(self)@.units
                    == lib.units,
                Err(e) => spec_lib(
                    old(self)@.bytes,
                    old(self)@.pos,
                    LibView {
                        name: old(db)@.name,
                        cells: Seq::<ParsedCell>::empty(),
                        units: old(self)@.units,
                    },
                ) matches Err(ev) && ev == e@,
            },
    {
        proof {
            assert(db@.cells.map_values(|cv: crate::cell::CellView| proj_cell(cv))
                =~= Seq::<ParsedCell>::empty());
        }
        loop
            invariant
                self@.bytes == old(self)@.bytes,
                0 <= self@.pos <= self@.bytes.len(),
                db@.layers.len() == 0,
                db@.undo.len() == 0,
                db@.redo.len() == 0,
                db@.dbu_per_nm == 1,
                db@.cells.len() == 0 ==> db@.top_cell is None,
                db@.cells.len() > 0 ==> db@.top_cell == Some(db@.cells[0].id),
                forall|i: int|
                    0 <= i < db@.cells.len() ==> (#[trigger] db@.cells[i]).pins.len() == 0
                        && db@.cells[i].modified == (db@.cells[i].geometries.len()
                        + db@.cells[i].instances.len() > 0) && (forall|j: int|
                        0 <= j < db@.cells[i].instances.len()
                            ==> (#[trigger] db@.cells[i].instances[j]).cell_id == 0),
                spec_lib(
                    old(self)@.bytes,
                    old(self)@.pos,
                    LibView {
                        name: old(db)@.name,
                        cells: Seq::<ParsedCell>::empty(),
                        units: old(self)@.units,
                    },
                ) == spec_lib(
                    self@.bytes,
                    self@.pos,
                    LibView {
                        name: db@.name,
                        cells: db@.cells.map_values(
                            |cv: crate::cell::CellView| proj_cell(cv),
                        ),
                        units: self@.units,
                    },
                ),
            decreases self@.bytes.len() - self@.pos,
        {
            let ghost lib_acc = LibView {
                name: db@.name,
                cells: db@.cells.map_values(|cv: crate::cell::CellView| proj_cell(cv)),
                units: self@.units,
            };
            match self.read_record() {
                Err(e) => {
                    return Err(e);
                },
                Ok(None) => {
                    proof {
                        lemma_lib_final(lib_acc, db@);
                    }
                    return Ok(());
                },
                Ok(Some(rec)) => {
                    if rec.record_type == REC_ENDLIB {
                        proof {
                            lemma_lib_final(lib_acc, db@);
                        }
                        return Ok(());
                    } else if rec.record_type == REC_LIBNAME {
                        let nm: String = rec.as_string();
                        db.set_name(nm);
                    } else if rec.record_type == REC_UNITS {
                        let vals: Vec<Real8> = rec.as_real8_vec();
                        if vals.len() >= 2 {
                            self.units = Some((vals[0], vals[1]));
                        }
                    } else if rec.record_type == REC_BGNSTR {
                        match self.read_structure() {
                            Err(e) => {
                                return Err(e);
                            },
                            Ok(cell) => {
                                let ghost cv = cell@;
                                db.load_cell(cell);
                                proof {
                                    assert(db@.cells.map_values(
                                        |c: crate::cell::CellView| proj_cell(c),
                                    ) =~= lib_acc.cells.push(proj_cell(cv)));
                                }
                            },
                        }
                    }
                },
            }
        }
    }

    /// Reads the entire stream into a fresh layout database. The cells of
    /// the result match the stream's structure blocks in order; subcell
    /// references carry the placeholder id zero until the post-load pass,
    /// `LayoutDatabase::resolve_instances`, maps each recorded name to the
    /// matching cell.
    pub fn read(&mut self) -> (r: Result<crate::database::LayoutDatabase, GdsError>)
        requires
            old(self)@.pos == 0,
            old(self)@.units is None,
        ensures
            final(self)@.bytes == old(self)@.bytes,
            match r {
                Ok(db) => spec_read(old(self)@.bytes) matches Ok(lib) && db_matches(db@, lib)
                    && final(self)@.units == lib.units,
                Err(e) => spec_read(old(self)@.bytes) matches Err(ev) && ev == e@,
            },
    {
        let mut db = crate::database::LayoutDatabase::new("imported");
        match self.read_header() {
            Err(e) => {
                return Err(e);
            },
            Ok(()) => {},
        }
        match self.read_lib(&mut db) {
            Err(e) => {
                return Err(e);
            },
            Ok(()) => Ok(db),
        }
    }
}

/// At the end of the library loop, the accumulated projection matches the
/// database.
proof fn lemma_lib_final(lib: LibView, d: crate::database::DbView)
    requires
        lib.cells == d.cells.map_values(|cv: crate::cell::CellView| proj_cell(cv)),
        lib.name == d.name,
        d.layers.len() == 0,
        d.undo.len() == 0,
        d.redo.len() == 0,
        d.dbu_per_nm == 1,
        d.cells.len() == 0 ==> d.top_cell is None,
        d.cells.len() > 0 ==> d.top_cell == Some(d.cells[0].id),
        forall|i: int|
            0 <= i < d.cells.len() ==> (#[trigger] d.cells[i]).pins.len() == 0
                && d.cells[i].modified == (d.cells[i].geometries.len()
                + d.cells[i].instances.len() > 0) && (forall|j: int|
                0 <= j < d.cells[i].instances.len() ==> (#[trigger] d.cells[i].instances[j]).cell_id
                    == 0),
    ensures
        db_matches(d, lib),
{
}

/// Appends the points of an XY payload to a point vector.
fn append_xy_points(points: &mut Vec<Point>, rec: &GdsRecord)
    ensures
        final(points)@ == old(points)@ + xy_points(rec@.data),
{
    let coords: Vec<i32> = rec.as_i32_vec();
    let clen: usize = coords.len();
    let n: usize = clen / 2;
    let mut i: usize = 0;
    while i < n
        invariant
            0 <= i <= n,
            clen == coords@.len(),
            n == i32s_of(rec@.data).len() / 2,
            coords@ == i32s_of(rec@.data),
            points@ == old(points)@ + xy_points(rec@.data).subrange(0, i as int),
        decreases n - i,
    {
        proof {
            vstd::arithmetic::div_mod::lemma_fundamental_div_mod(coords@.len() as int, 2);
            assert(2 * i + 1 < coords@.len());
        }
        points.push(Point { x: coords[2 * i] as i64, y: coords[2 * i + 1] as i64 });
        proof {
            assert(points@ =~= old(points)@ + xy_points(rec@.data).subrange(0, i + 1));
        }
        i = i + 1;
    }
    proof {
        assert(xy_points(rec@.data).subrange(0, xy_points(rec@.data).len() as int) =~= xy_points(
            rec@.data,
        ));
        assert(points@ =~= old(points)@ + xy_points(rec@.data));
    }
}

// ───────────────────────── round trip ─────────────────────────
//
// Reading back a stream the writer produced restores every cell's name,
// its geometry count, and each geometry's layer id. The lemmas build up
// from single records to the whole stream; the theorem at the end states
// the property for any database within the format's own bounds.

/// A sequence whose last character is not NUL is already trimmed.
proof fn lemma_trim_noop(s: Seq<char>)
    requires
        s.len() == 0 || s.last() != '\0',
    ensures
        trim_nuls(s) == s,
{
}

/// Text round trip: an ASCII name without a trailing NUL survives being
/// written as a padded text record and read back.
proof fn lemma_name_roundtrip(s: Seq<char>)
    requires
        vstd::utf8::is_ascii_chars(s),
        s.len() == 0 || s.last() != '\0',
    ensures
        string_of(str_data(s)) == s,
{
    vstd::utf8::is_ascii_chars_encode_utf8(s);
    let bytes = vstd::utf8::encode_utf8(s);
    assert(bytes.map_values(|b: u8| b as char) =~= s) by {
        assert forall|i: int| 0 <= i < s.len() implies (bytes.map_values(|b: u8| b as char))[i]
            == s[i] by {
            assert(bytes[i] == s[i] as u8);
            assert('\0' <= s[i] <= '\u{7f}');
            assert((s[i] as u8) as char == s[i]);
        }
    }
    if bytes.len() % 2 == 1 {
        let padded = bytes + seq![0u8];
        assert(padded.map_values(|b: u8| b as char) =~= bytes.map_values(|b: u8| b as char)
            + seq!['\0']);
        assert((bytes.map_values(|b: u8| b as char) + seq!['\0']).drop_last() =~= s);
        lemma_trim_noop(s);
    } else {
        lemma_trim_noop(s);
    }
}

/// Layer round trip: a layer id below `0x8000` written as a 16-bit record
/// value reads back as itself.
proof fn lemma_layer_roundtrip(layer: LayerId)
    requires
        layer < 0x8000,
    ensures
        i16s_of(i16_bytes(seq![layer as i16])).len() == 1,
        (i16s_of(i16_bytes(seq![layer as i16]))[0]) as LayerId == layer,
{
    let v: i16 = layer as i16;
    let data = i16_bytes(seq![v]);
    assert(data.len() == 2);
    assert(data[0] == i16_byte(v, 0) && data[1] == i16_byte(v, 1));
    assert(v as u16 == layer);
    vstd::arithmetic::div_mod::lemma_fundamental_div_mod(layer as int, 256);
    vstd::arithmetic::div_mod::lemma_mod_bound(layer as int, 256);
    vstd::arithmetic::div_mod::lemma_div_is_ordered(layer as int, 0x7FFF, 256);
    assert(0x7FFFint / 256 == 127);
    assert(be_u16(data[0], data[1]) == layer);
}

/// A record sitting at a position parses to exactly itself.
proof fn lemma_record_here(bytes: Seq<u8>, pos: int, rt: u16, data: Seq<u8>)
    requires
        0 <= pos,
        pos + 4 + data.len() <= bytes.len(),
        data.len() + 4 <= 0xFFFF,
        bytes.subrange(pos, pos + 4 + data.len()) == enc_record(rt, data),
    ensures
        spec_record(bytes, pos) == Ok::<Option<(RecView, int)>, ErrView>(
            Some((RecView { rtype: rt, data }, pos + 4 + data.len())),
        ),
{
    let n: int = data.len() as int + 4;
    let seg = bytes.subrange(pos, pos + data.len() + 4);
    assert(bytes[pos] == seg[0] && bytes[pos + 1] == seg[1] && bytes[pos + 2] == seg[2] && bytes[pos
        + 3] == seg[3]);
    assert(seg[0] == ((n as u16) / 256) as u8 && seg[1] == ((n as u16) % 256) as u8);
    vstd::arithmetic::div_mod::lemma_fundamental_div_mod(n, 256);
    vstd::arithmetic::div_mod::lemma_mod_bound(n, 256);
    vstd::arithmetic::div_mod::lemma_div_is_ordered(n, 0xFFFF, 256);
    assert(0xFFFFint / 256 == 255);
    assert(be_u16(bytes[pos], bytes[pos + 1]) == n);
    vstd::arithmetic::div_mod::lemma_fundamental_div_mod(rt as int, 256);
    vstd::arithmetic::div_mod::lemma_mod_bound(rt as int, 256);
    vstd::arithmetic::div_mod::lemma_div_is_ordered(rt as int, 0xFFFF, 256);
    assert(be_u16(bytes[pos + 2], bytes[pos + 3]) == rt);
    assert(bytes.subrange(pos + 4, pos + n) =~= data) by {
        assert forall|j: int| 0 <= j < data.len() implies bytes.subrange(pos + 4, pos + n)[j]
            == data[j] by {
            assert(bytes[pos + 4 + j] == seg[4 + j]);
            assert(seg[4 + j] == enc_record(rt, data)[4 + j]);
            assert(enc_record(rt, data)[4 + j] == data[j]);
        }
    }
}

/// A slice of a placed segment equals the segment's own slice.
proof fn lemma_slice_at(bytes: Seq<u8>, pos: int, seg: Seq<u8>, a: int, b: int)
    requires
        0 <= pos,
        pos + seg.len() <= bytes.len(),
        bytes.subrange(pos, pos + seg.len() as int) == seg,
        0 <= a <= b <= seg.len(),
    ensures
        bytes.subrange(pos + a, pos + b) == seg.subrange(a, b),
{
    assert forall|j: int| 0 <= j < b - a implies bytes.subrange(pos + a, pos + b)[j]
        == seg.subrange(a, b)[j] by {
        assert(bytes.subrange(pos, pos + seg.len() as int)[a + j] == seg[a + j]);
    }
    assert(bytes.subrange(pos + a, pos + b) =~= seg.subrange(a, b));
}

/// A boundary-shaped element as the writer lays it out — layer, datatype,
/// coordinates, terminator — parses back to its layer and points.
#[verifier::rlimit(100)]
#[verifier::spinoff_prover]
proof fn lemma_elem_written(bytes: Seq<u8>, pos: int, layer: LayerId, xy: Seq<i32>)
    requires
        0 <= pos,
        layer < 0x8000,
        4 * xy.len() + 4 <= 0xFFFF,
        pos + 20 + 4 * xy.len() <= bytes.len(),
        bytes.subrange(pos, pos + 20 + 4 * xy.len()) == enc_record(
            REC_LAYER,
            i16_bytes(seq![layer as i16]),
        ) + enc_record(REC_DATATYPE, i16_bytes(seq![0i16])) + enc_record(REC_XY, i32_bytes(xy))
            + enc_record(REC_ENDEL, Seq::<u8>::empty()),
    ensures
        spec_elem(bytes, pos, 0, Seq::<Point>::empty()) == Ok::<
            (LayerId, Seq<Point>, int),
            ErrView,
        >((layer, xy_points(i32_bytes(xy)), pos + 20 + 4 * xy.len())),
{
    let r1 = enc_record(REC_LAYER, i16_bytes(seq![layer as i16]));
    let r2 = enc_record(REC_DATATYPE, i16_bytes(seq![0i16]));
    let r3 = enc_record(REC_XY, i32_bytes(xy));
    let r4 = enc_record(REC_ENDEL, Seq::<u8>::empty());
    let seg = r1 + r2 + r3 + r4;
    let ln: int = 4 * xy.len() as int;
    assert(r1.len() == 6 && r2.len() == 6 && r3.len() == 4 + ln && r4.len() == 4);
    lemma_slice_at(bytes, pos, seg, 0, 6);
    lemma_slice_at(bytes, pos, seg, 6, 12);
    lemma_slice_at(bytes, pos, seg, 12, 16 + ln);
    lemma_slice_at(bytes, pos, seg, 16 + ln, 20 + ln);
    assert(seg.subrange(0, 6) =~= r1);
    assert(seg.subrange(6, 12) =~= r2);
    assert(seg.subrange(12, 16 + ln) =~= r3);
    assert(seg.subrange(16 + ln, 20 + ln) =~= r4);
    lemma_record_here(bytes, pos, REC_LAYER, i16_bytes(seq![layer as i16]));
    lemma_record_here(bytes, pos + 6, REC_DATATYPE, i16_bytes(seq![0i16]));
    lemma_record_here(bytes, pos + 12, REC_XY, i32_bytes(xy));
    lemma_record_here(bytes, pos + 16 + 4 * xy.len(), REC_ENDEL, Seq::<u8>::empty());
    lemma_layer_roundtrip(layer);
    assert(Seq::<Point>::empty() + xy_points(i32_bytes(xy)) =~= xy_points(i32_bytes(xy)));
    let e = Seq::<Point>::empty();
    let pts = xy_points(i32_bytes(xy));
    assert(spec_elem(bytes, pos, 0, e) == spec_elem(bytes, pos + 6, layer, e));
    assert(spec_elem(bytes, pos + 6, layer, e) == spec_elem(bytes, pos + 12, layer, e));
    assert(spec_elem(bytes, pos + 12, layer, e) == spec_elem(bytes, pos + 16 + ln, layer, pts));
    assert(spec_elem(bytes, pos + 16 + ln, layer, pts) == Ok::<(LayerId, Seq<Point>, int), ErrView>(
        (layer, pts, pos + 20 + ln),
    ));
}

/// A path element as the writer lays it out parses back to its layer and
/// points; the width reads back as some value the claim does not pin.
#[verifier::rlimit(100)]
#[verifier::spinoff_prover]
proof fn lemma_path_elem_written(bytes: Seq<u8>, pos: int, layer: LayerId, w: i32, xy: Seq<i32>)
    requires
        0 <= pos,
        layer < 0x8000,
        4 * xy.len() + 4 <= 0xFFFF,
        pos + 28 + 4 * xy.len() <= bytes.len(),
        bytes.subrange(pos, pos + 28 + 4 * xy.len()) == enc_record(
            REC_LAYER,
            i16_bytes(seq![layer as i16]),
        ) + enc_record(REC_DATATYPE, i16_bytes(seq![0i16])) + enc_record(
            REC_WIDTH,
            i32_bytes(seq![w]),
        ) + enc_record(REC_XY, i32_bytes(xy)) + enc_record(REC_ENDEL, Seq::<u8>::empty()),
    ensures
        spec_path_elem(bytes, pos, 0, 0, Seq::<Point>::empty()) matches Ok(t) && t.0 == layer
            && t.1 == i32s_of(i32_bytes(seq![w]))[0] as i64 && t.2 == xy_points(i32_bytes(xy))
            && t.3 == pos + 28 + 4 * xy.len(),
{
    let r1 = enc_record(REC_LAYER, i16_bytes(seq![layer as i16]));
    let r2 = enc_record(REC_DATATYPE, i16_bytes(seq![0i16]));
    let rw = enc_record(REC_WIDTH, i32_bytes(seq![w]));
    let r3 = enc_record(REC_XY, i32_bytes(xy));
    let r4 = enc_record(REC_ENDEL, Seq::<u8>::empty());
    let seg = r1 + r2 + rw + r3 + r4;
    let ln: int = 4 * xy.len() as int;
    assert(r1.len() == 6 && r2.len() == 6 && rw.len() == 8 && r3.len() == 4 + ln && r4.len() == 4);
    lemma_slice_at(bytes, pos, seg, 0, 6);
    lemma_slice_at(bytes, pos, seg, 6, 12);
    lemma_slice_at(bytes, pos, seg, 12, 20);
    lemma_slice_at(bytes, pos, seg, 20, 24 + ln);
    lemma_slice_at(bytes, pos, seg, 24 + ln, 28 + ln);
    assert(seg.subrange(0, 6) =~= r1);
    assert(seg.subrange(6, 12) =~= r2);
    assert(seg.subrange(12, 20) =~= rw);
    assert(seg.subrange(20, 24 + ln) =~= r3);
    assert(seg.subrange(24 + ln, 28 + ln) =~= r4);
    lemma_record_here(bytes, pos, REC_LAYER, i16_bytes(seq![layer as i16]));
    lemma_record_here(bytes, pos + 6, REC_DATATYPE, i16_bytes(seq![0i16]));
    lemma_record_here(bytes, pos + 12, REC_WIDTH, i32_bytes(seq![w]));
    lemma_record_here(bytes, pos + 20, REC_XY, i32_bytes(xy));
    lemma_record_here(bytes, pos + 24 + 4 * xy.len(), REC_ENDEL, Seq::<u8>::empty());
    lemma_layer_roundtrip(layer);
    assert(Seq::<Point>::empty() + xy_points(i32_bytes(xy)) =~= xy_points(i32_bytes(xy)));
    let e = Seq::<Point>::empty();
    let pts = xy_points(i32_bytes(xy));
    let wv: i64 = i32s_of(i32_bytes(seq![w]))[0] as i64;
    assert(i32s_of(i32_bytes(seq![w])).len() == 1);
    assert(spec_path_elem(bytes, pos, 0, 0, e) == spec_path_elem(bytes, pos + 6, layer, 0, e));
    assert(spec_path_elem(bytes, pos + 6, layer, 0, e) == spec_path_elem(
        bytes,
        pos + 12,
        layer,
        0,
        e,
    ));
    assert(spec_path_elem(bytes, pos + 12, layer, 0, e) == spec_path_elem(
        bytes,
        pos + 20,
        layer,
        wv,
        e,
    ));
    assert(spec_path_elem(bytes, pos + 20, layer, wv, e) == spec_path_elem(
        bytes,
        pos + 24 + ln,
        layer,
        wv,
        pts,
    ));
    assert(spec_path_elem(bytes, pos + 24 + ln, layer, wv, pts) == Ok::<
        (LayerId, i64, Seq<Point>, int),
        ErrView,
    >((layer, wv, pts, pos + 28 + ln)));
}

/// Parsed coordinate pairs at positions written from equal values are
/// equal.
proof fn lemma_xy_repeat(xy: Seq<i32>, a: int, b: int)
    requires
        0 <= 2 * a,
        2 * a + 1 < xy.len(),
        0 <= 2 * b,
        2 * b + 1 < xy.len(),
        xy[2 * a] == xy[2 * b],
        xy[2 * a + 1] == xy[2 * b + 1],
    ensures
        xy_points(i32_bytes(xy)).len() == xy.len() / 2,
        a < xy.len() / 2 && b < xy.len() / 2 ==> xy_points(i32_bytes(xy))[a] == xy_points(
            i32_bytes(xy),
        )[b],
{
    let data = i32_bytes(xy);
    let coords = i32s_of(data);
    assert(data.len() == 4 * xy.len());
    assert(coords.len() == xy.len());
    assert forall|j: int| 0 <= j < xy.len() implies coords[j] == be_i32(
        i32_byte(xy[j], 0),
        i32_byte(xy[j], 1),
        i32_byte(xy[j], 2),
        i32_byte(xy[j], 3),
    ) by {
        assert(data[4 * j] == i32_byte(xy[j], 0));
        assert(data[4 * j + 1] == i32_byte(xy[j], 1));
        assert(data[4 * j + 2] == i32_byte(xy[j], 2));
        assert(data[4 * j + 3] == i32_byte(xy[j], 3));
    }
    assert(coords[2 * a] == coords[2 * b]);
    assert(coords[2 * a + 1] == coords[2 * b + 1]);
}

/// One written rectangle block steps the structure parse by one geometry.
#[verifier::rlimit(100)]
#[verifier::spinoff_prover]
proof fn lemma_geom_step_rect(
    bytes: Seq<u8>,
    pos: int,
    layer_id: LayerId,
    lower_left: Point,
    upper_right: Point,
    acc: ParsedCell,
)
    requires
        0 <= pos,
        layer_id < 0x8000,
        pos + enc_rect(layer_id, lower_left, upper_right).len() <= bytes.len(),
        bytes.subrange(pos, pos + enc_rect(layer_id, lower_left, upper_right).len() as int)
            == enc_rect(layer_id, lower_left, upper_right),
    ensures
        ({
            let g = GeomView::Rect { layer_id, lower_left, upper_right };
            spec_structure(bytes, pos, acc) == spec_structure(
                bytes,
                pos + enc_geom(g).len() as int,
                ParsedCell { geometries: acc.geometries.push(read_back_geom(g)), ..acc },
            ) && view_layer_id(read_back_geom(g)) == layer_id
        }),
{
    let g = GeomView::Rect { layer_id, lower_left, upper_right };
    let x1 = clamp_i32(lower_left.x);
    let y1 = clamp_i32(lower_left.y);
    let x2 = clamp_i32(upper_right.x);
    let y2 = clamp_i32(upper_right.y);
    let xy = seq![x1, y1, x2, y1, x2, y2, x1, y2, x1, y1];
    let seg = enc_rect(layer_id, lower_left, upper_right);
    let rb = enc_record(REC_BOUNDARY, Seq::<u8>::empty());
    assert(rb.len() == 4 && seg.len() == 64);
    lemma_slice_at(bytes, pos, seg, 0, 4);
    assert(seg.subrange(0, 4) =~= rb);
    lemma_record_here(bytes, pos, REC_BOUNDARY, Seq::<u8>::empty());
    lemma_slice_at(bytes, pos, seg, 4, 64);
    assert(seg.subrange(4, 64) =~= enc_record(REC_LAYER, i16_bytes(seq![layer_id as i16]))
        + enc_record(REC_DATATYPE, i16_bytes(seq![0i16])) + enc_record(REC_XY, i32_bytes(xy))
        + enc_record(REC_ENDEL, Seq::<u8>::empty()));
    lemma_elem_written(bytes, pos + 4, layer_id, xy);
    let pts = xy_points(i32_bytes(xy));
    lemma_xy_repeat(xy, 0, 4);
    assert(pts.len() == 5);
    assert(pts[0] == pts[4]);
    assert(close_trimmed(pts) == pts.drop_last());
    assert(close_trimmed(pts).len() == 4);
    assert(boundary_geom(layer_id, pts) == Some(read_back_geom(g)));
    assert(view_layer_id(read_back_geom(g)) == layer_id);
    assert(spec_structure(bytes, pos, acc) == spec_structure(
        bytes,
        pos + 64,
        ParsedCell { geometries: acc.geometries.push(read_back_geom(g)), ..acc },
    ));
}

/// One written polygon block steps the structure parse by one geometry.
#[verifier::rlimit(100)]
#[verifier::spinoff_prover]
proof fn lemma_geom_step_polygon(
    bytes: Seq<u8>,
    pos: int,
    layer_id: LayerId,
    vertices: Seq<Point>,
    acc: ParsedCell,
)
    requires
        0 <= pos,
        layer_id < 0x8000,
        1 <= vertices.len(),
        8 * vertices.len() + 12 <= 0xFFFF,
        pos + enc_polygon(layer_id, vertices).len() <= bytes.len(),
        bytes.subrange(pos, pos + enc_polygon(layer_id, vertices).len() as int) == enc_polygon(
            layer_id,
            vertices,
        ),
    ensures
        ({
            let g = GeomView::Polygon { layer_id, vertices };
            spec_structure(bytes, pos, acc) == spec_structure(
                bytes,
                pos + enc_geom(g).len() as int,
                ParsedCell { geometries: acc.geometries.push(read_back_geom(g)), ..acc },
            ) && view_layer_id(read_back_geom(g)) == layer_id
        }),
{
    let g = GeomView::Polygon { layer_id, vertices };
    let m = vertices.len() as int;
    let xy = coords_of(vertices) + seq![clamp_i32(vertices[0].x), clamp_i32(vertices[0].y)];
    let seg = enc_polygon(layer_id, vertices);
    let rb = enc_record(REC_BOUNDARY, Seq::<u8>::empty());
    let ln: int = 4 * xy.len() as int;
    assert(xy.len() == 2 * m + 2);
    assert(rb.len() == 4 && seg.len() == 24 + ln);
    lemma_slice_at(bytes, pos, seg, 0, 4);
    assert(seg.subrange(0, 4) =~= rb);
    lemma_record_here(bytes, pos, REC_BOUNDARY, Seq::<u8>::empty());
    lemma_slice_at(bytes, pos, seg, 4, 24 + ln);
    assert(seg.subrange(4, 24 + ln) =~= enc_record(REC_LAYER, i16_bytes(seq![layer_id as i16]))
        + enc_record(REC_DATATYPE, i16_bytes(seq![0i16])) + enc_record(REC_XY, i32_bytes(xy))
        + enc_record(REC_ENDEL, Seq::<u8>::empty()));
    lemma_elem_written(bytes, pos + 4, layer_id, xy);
    let pts = xy_points(i32_bytes(xy));
    assert(xy[2 * m] == xy[0] && xy[2 * m + 1] == xy[1]);
    lemma_xy_repeat(xy, 0, m);
    assert(pts.len() == m + 1);
    assert(pts[0] == pts[m]);
    assert(close_trimmed(pts) == pts.drop_last());
    assert(close_trimmed(pts).len() == m >= 1);
    assert(boundary_geom(layer_id, pts) == Some(read_back_geom(g)));
    assert(view_layer_id(read_back_geom(g)) == layer_id);
    assert(spec_structure(bytes, pos, acc) == spec_structure(
        bytes,
        pos + 24 + ln,
        ParsedCell { geometries: acc.geometries.push(read_back_geom(g)), ..acc },
    ));
}

/// One written path block steps the structure parse by one geometry.
#[verifier::rlimit(100)]
#[verifier::spinoff_prover]
proof fn lemma_geom_step_path(
    bytes: Seq<u8>,
    pos: int,
    layer_id: LayerId,
    points: Seq<Point>,
    width: i64,
    acc: ParsedCell,
)
    requires
        0 <= pos,
        layer_id < 0x8000,
        1 <= points.len(),
        8 * points.len() + 4 <= 0xFFFF,
        pos + enc_path(layer_id, points, width).len() <= bytes.len(),
        bytes.subrange(pos, pos + enc_path(layer_id, points, width).len() as int) == enc_path(
            layer_id,
            points,
            width,
        ),
    ensures
        ({
            let g = GeomView::Path { layer_id, points, width };
            spec_structure(bytes, pos, acc) == spec_structure(
                bytes,
                pos + enc_geom(g).len() as int,
                ParsedCell { geometries: acc.geometries.push(read_back_geom(g)), ..acc },
            ) && view_layer_id(read_back_geom(g)) == layer_id
        }),
{
    let g = GeomView::Path { layer_id, points, width };
    let xy = coords_of(points);
    let seg = enc_path(layer_id, points, width);
    let rp = enc_record(REC_PATH, Seq::<u8>::empty());
    let ln: int = 4 * xy.len() as int;
    assert(xy.len() == 2 * points.len());
    assert(rp.len() == 4 && seg.len() == 32 + ln);
    lemma_slice_at(bytes, pos, seg, 0, 4);
    assert(seg.subrange(0, 4) =~= rp);
    lemma_record_here(bytes, pos, REC_PATH, Seq::<u8>::empty());
    lemma_slice_at(bytes, pos, seg, 4, 32 + ln);
    assert(seg.subrange(4, 32 + ln) =~= enc_record(REC_LAYER, i16_bytes(seq![layer_id as i16]))
        + enc_record(REC_DATATYPE, i16_bytes(seq![0i16])) + enc_record(
        REC_WIDTH,
        i32_bytes(seq![clamp_i32(width)]),
    ) + enc_record(REC_XY, i32_bytes(xy)) + enc_record(REC_ENDEL, Seq::<u8>::empty()));
    lemma_path_elem_written(bytes, pos + 4, layer_id, clamp_i32(width), xy);
    let pts = xy_points(i32_bytes(xy));
    assert(i32s_of(i32_bytes(xy)).len() == xy.len());
    assert(pts.len() == points.len());
    assert(path_geom(layer_id, width_read_back(width), pts) == Some(read_back_geom(g)));
    assert(view_layer_id(read_back_geom(g)) == layer_id);
    assert(spec_structure(bytes, pos, acc) == spec_structure(
        bytes,
        pos + 32 + ln,
        ParsedCell { geometries: acc.geometries.push(read_back_geom(g)), ..acc },
    ));
}

/// What the writer emits for one primitive parses back, inside a structure
/// block, as exactly one primitive on the same layer.
proof fn lemma_geom_step(bytes: Seq<u8>, pos: int, g: GeomView, acc: ParsedCell)
    requires
        0 <= pos,
        geom_simple(g),
        pos + enc_geom(g).len() <= bytes.len(),
        bytes.subrange(pos, pos + enc_geom(g).len() as int) == enc_geom(g),
    ensures
        spec_structure(bytes, pos, acc) == spec_structure(
            bytes,
            pos + enc_geom(g).len() as int,
            ParsedCell { geometries: acc.geometries.push(read_back_geom(g)), ..acc },
        ),
        view_layer_id(read_back_geom(g)) == view_layer_id(g),
{
    match g {
        GeomView::Rect { layer_id, lower_left, upper_right } => {
            lemma_geom_step_rect(bytes, pos, layer_id, lower_left, upper_right, acc);
        },
        GeomView::Polygon { layer_id, vertices } => {
            lemma_geom_step_polygon(bytes, pos, layer_id, vertices, acc);
        },
        GeomView::Path { layer_id, points, width } => {
            lemma_geom_step_path(bytes, pos, layer_id, points, width, acc);
        },
        GeomView::Via { .. } => {
            assert(false);
        },
    }
}

/// The primitive a written primitive reads back as.
pub open spec fn read_back_geom(g: GeomView) -> GeomView {
    match g {
        GeomView::Rect { layer_id, lower_left, upper_right } => {
            let xy = seq![
                clamp_i32(lower_left.x),
                clamp_i32(lower_left.y),
                clamp_i32(upper_right.x),
                clamp_i32(lower_left.y),
                clamp_i32(upper_right.x),
                clamp_i32(upper_right.y),
                clamp_i32(lower_left.x),
                clamp_i32(upper_right.y),
                clamp_i32(lower_left.x),
                clamp_i32(lower_left.y),
            ];
            boundary_geom(layer_id, xy_points(i32_bytes(xy)))->Some_0
        },
        GeomView::Polygon { layer_id, vertices } => {
            let xy = coords_of(vertices) + seq![
                clamp_i32(vertices[0].x),
                clamp_i32(vertices[0].y),
            ];
            boundary_geom(layer_id, xy_points(i32_bytes(xy)))->Some_0
        },
        GeomView::Path { layer_id, points, width } => GeomView::Path {
            layer_id,
            points: xy_points(i32_bytes(coords_of(points))),
            width: width_read_back(width),
        },
        GeomView::Via { .. } => g,
    }
}

/// The width value a written width reads back as.
pub open spec fn width_read_back(width: i64) -> i64 {
    i32s_of(i32_bytes(seq![clamp_i32(width)]))[0] as i64
}

/// A primitive the round trip preserves in count and layer: a rectangle, a
/// nonempty polygon, or a nonempty path, all within the format's bounds.
pub open spec fn geom_simple(g: GeomView) -> bool {
    match g {
        GeomView::Rect { layer_id, .. } => layer_id < 0x8000,
        GeomView::Polygon { layer_id, vertices } => layer_id < 0x8000 && 1 <= vertices.len()
            && 8 * vertices.len() + 12 <= 0xFFFF,
        GeomView::Path { layer_id, points, .. } => layer_id < 0x8000 && 1 <= points.len() && 8
            * points.len() + 4 <= 0xFFFF,
        GeomView::Via { .. } => false,
    }
}

/// The element blocks of a geometry sequence split off at the front.
proof fn lemma_enc_geoms_front(gs: Seq<GeomView>)
    requires
        gs.len() > 0,
    ensures
        enc_geoms(gs) == enc_geom(gs[0]) + enc_geoms(gs.drop_first()),
    decreases gs.len(),
{
    if gs.len() == 1 {
        assert(gs.drop_last() =~= Seq::<GeomView>::empty());
        assert(gs.drop_first() =~= Seq::<GeomView>::empty());
        assert(gs.last() == gs[0]);
        assert(Seq::<u8>::empty() + enc_geom(gs[0]) =~= enc_geom(gs[0]) + Seq::<u8>::empty());
    } else {
        let init = gs.drop_last();
        lemma_enc_geoms_front(init);
        assert(gs.drop_first().drop_last() =~= init.drop_first());
        assert(gs.drop_first().last() == gs.last());
        assert(init[0] == gs[0]);
        assert(enc_geoms(gs.drop_first()) == enc_geoms(init.drop_first()) + enc_geom(gs.last()));
        assert((enc_geom(gs[0]) + enc_geoms(init.drop_first())) + enc_geom(gs.last()) =~= enc_geom(
            gs[0],
        ) + (enc_geoms(init.drop_first()) + enc_geom(gs.last())));
    }
}

/// The structure blocks of a cell sequence split off at the front.
proof fn lemma_enc_cells_front(cs: Seq<crate::cell::CellView>)
    requires
        cs.len() > 0,
    ensures
        enc_cells(cs) == enc_cell(cs[0]) + enc_cells(cs.drop_first()),
    decreases cs.len(),
{
    if cs.len() == 1 {
        assert(cs.drop_last() =~= Seq::<crate::cell::CellView>::empty());
        assert(cs.drop_first() =~= Seq::<crate::cell::CellView>::empty());
        assert(cs.last() == cs[0]);
        assert(Seq::<u8>::empty() + enc_cell(cs[0]) =~= enc_cell(cs[0]) + Seq::<u8>::empty());
    } else {
        let init = cs.drop_last();
        lemma_enc_cells_front(init);
        assert(cs.drop_first().drop_last() =~= init.drop_first());
        assert(cs.drop_first().last() == cs.last());
        assert(init[0] == cs[0]);
        assert(enc_cells(cs.drop_first()) == enc_cells(init.drop_first()) + enc_cell(cs.last()));
        assert((enc_cell(cs[0]) + enc_cells(init.drop_first())) + enc_cell(cs.last()) =~= enc_cell(
            cs[0],
        ) + (enc_cells(init.drop_first()) + enc_cell(cs.last())));
    }
}

/// A name the round trip keeps: ASCII, no trailing NUL, and small enough
/// for one record.
pub open spec fn text_ok(s: Seq<char>) -> bool {
    &&& vstd::utf8::is_ascii_chars(s)
    &&& s.len() == 0 || s.last() != '\0'
    &&& name_writable(s)
}

/// A cell the round trip keeps in name, geometry count and layers: a good
/// name, no placements, and only simple geometry.
pub open spec fn cell_simple(cv: crate::cell::CellView) -> bool {
    &&& text_ok(cv.name)
    &&& cv.instances.len() == 0
    &&& forall|k: int| 0 <= k < cv.geometries.len() ==> geom_simple(#[trigger] cv.geometries[k])
}

/// A database the round trip keeps cell by cell.
pub open spec fn db_simple(d: crate::database::DbView) -> bool {
    &&& text_ok(d.name)
    &&& forall|i: int| 0 <= i < d.cells.len() ==> cell_simple(#[trigger] d.cells[i])
}

/// The parsed content a written cell reads back as.
pub open spec fn read_back_cell(cv: crate::cell::CellView) -> ParsedCell {
    ParsedCell {
        name: cv.name,
        geometries: cv.geometries.map_values(|g: GeomView| read_back_geom(g)),
        instances: Seq::<ParsedInstV>::empty(),
    }
}

/// The written geometry blocks followed by the structure terminator parse
/// back to one read-back geometry each.
#[verifier::rlimit(100)]
#[verifier::spinoff_prover]
proof fn lemma_structure_written(bytes: Seq<u8>, pos: int, gs: Seq<GeomView>, acc: ParsedCell)
    requires
        0 <= pos,
        pos + enc_geoms(gs).len() + 4 <= bytes.len(),
        forall|k: int| 0 <= k < gs.len() ==> geom_simple(#[trigger] gs[k]),
        bytes.subrange(pos, pos + enc_geoms(gs).len() + 4) == enc_geoms(gs) + enc_record(
            REC_ENDSTR,
            Seq::<u8>::empty(),
        ),
    ensures
        spec_structure(bytes, pos, acc) == Ok::<(ParsedCell, int), ErrView>(
            (
                ParsedCell {
                    geometries: acc.geometries + gs.map_values(|g: GeomView| read_back_geom(g)),
                    ..acc
                },
                pos + enc_geoms(gs).len() + 4,
            ),
        ),
    decreases gs.len(),
{
    let seg = enc_geoms(gs) + enc_record(REC_ENDSTR, Seq::<u8>::empty());
    if gs.len() == 0 {
        assert(seg =~= enc_record(REC_ENDSTR, Seq::<u8>::empty()));
        lemma_record_here(bytes, pos, REC_ENDSTR, Seq::<u8>::empty());
        assert(acc.geometries + gs.map_values(|g: GeomView| read_back_geom(g)) =~= acc.geometries);
        assert(ParsedCell {
            geometries: acc.geometries + gs.map_values(|g: GeomView| read_back_geom(g)),
            ..acc
        } == acc);
    } else {
        lemma_enc_geoms_front(gs);
        let n0: int = enc_geom(gs[0]).len() as int;
        lemma_slice_at(bytes, pos, seg, 0, n0);
        assert(seg.subrange(0, n0) =~= enc_geom(gs[0]));
        assert(gs[0] == gs[0] && geom_simple(gs[0]));
        lemma_geom_step(bytes, pos, gs[0], acc);
        let acc2 = ParsedCell {
            geometries: acc.geometries.push(read_back_geom(gs[0])),
            ..acc
        };
        let rest = gs.drop_first();
        lemma_slice_at(bytes, pos, seg, n0, seg.len() as int);
        assert(seg.subrange(n0, seg.len() as int) =~= enc_geoms(rest) + enc_record(
            REC_ENDSTR,
            Seq::<u8>::empty(),
        ));
        assert(forall|k: int| 0 <= k < rest.len() ==> geom_simple(#[trigger] rest[k]));
        lemma_structure_written(bytes, pos + n0, rest, acc2);
        assert(acc2.geometries + rest.map_values(|g: GeomView| read_back_geom(g)) =~= acc.geometries
            + gs.map_values(|g: GeomView| read_back_geom(g)));
    }
}

/// A whole written structure block body — name record, geometry blocks,
/// terminator — parses back to the cell's read-back content.
#[verifier::rlimit(100)]
#[verifier::spinoff_prover]
proof fn lemma_cell_body_written(bytes: Seq<u8>, pos: int, cv: crate::cell::CellView)
    requires
        0 <= pos,
        cell_simple(cv),
        pos + enc_record(REC_STRNAME, str_data(cv.name)).len() + enc_geoms(cv.geometries).len() + 4
            <= bytes.len(),
        bytes.subrange(
            pos,
            pos + enc_record(REC_STRNAME, str_data(cv.name)).len() + enc_geoms(
                cv.geometries,
            ).len() + 4,
        ) == enc_record(REC_STRNAME, str_data(cv.name)) + enc_geoms(cv.geometries) + enc_record(
            REC_ENDSTR,
            Seq::<u8>::empty(),
        ),
    ensures
        spec_structure(bytes, pos, unnamed_cell()) == Ok::<(ParsedCell, int), ErrView>(
            (
                read_back_cell(cv),
                pos + enc_record(REC_STRNAME, str_data(cv.name)).len() + enc_geoms(
                    cv.geometries,
                ).len() + 4,
            ),
        ),
{
    let sn = enc_record(REC_STRNAME, str_data(cv.name));
    let seg = sn + enc_geoms(cv.geometries) + enc_record(REC_ENDSTR, Seq::<u8>::empty());
    let n0: int = sn.len() as int;
    lemma_slice_at(bytes, pos, seg, 0, n0);
    assert(seg.subrange(0, n0) =~= sn);
    assert(str_data(cv.name).len() + 4 <= 0xFFFF);
    lemma_record_here(bytes, pos, REC_STRNAME, str_data(cv.name));
    lemma_name_roundtrip(cv.name);
    let acc2 = ParsedCell { name: cv.name, ..unnamed_cell() };
    assert(spec_structure(bytes, pos, unnamed_cell()) == spec_structure(bytes, pos + n0, acc2));
    lemma_slice_at(bytes, pos, seg, n0, seg.len() as int);
    assert(seg.subrange(n0, seg.len() as int) =~= enc_geoms(cv.geometries) + enc_record(
        REC_ENDSTR,
        Seq::<u8>::empty(),
    ));
    lemma_structure_written(bytes, pos + n0, cv.geometries, acc2);
    assert(acc2.geometries + cv.geometries.map_values(|g: GeomView| read_back_geom(g))
        =~= cv.geometries.map_values(|g: GeomView| read_back_geom(g)));
    assert(ParsedCell {
        geometries: acc2.geometries + cv.geometries.map_values(|g: GeomView| read_back_geom(g)),
        ..acc2
    } == read_back_cell(cv));
}

/// The written structure blocks followed by the library terminator parse
/// back to one read-back cell each.
#[verifier::rlimit(100)]
#[verifier::spinoff_prover]
proof fn lemma_lib_written(bytes: Seq<u8>, pos: int, cs: Seq<crate::cell::CellView>, acc: LibView)
    requires
        0 <= pos,
        pos + enc_cells(cs).len() + 4 <= bytes.len(),
        forall|i: int| 0 <= i < cs.len() ==> cell_simple(#[trigger] cs[i]),
        bytes.subrange(pos, pos + enc_cells(cs).len() + 4) == enc_cells(cs) + enc_record(
            REC_ENDLIB,
            Seq::<u8>::empty(),
        ),
    ensures
        spec_lib(bytes, pos, acc) == Ok::<LibView, ErrView>(
            LibView {
                cells: acc.cells + cs.map_values(|c: crate::cell::CellView| read_back_cell(c)),
                ..acc
            },
        ),
    decreases cs.len(),
{
    let seg = enc_cells(cs) + enc_record(REC_ENDLIB, Seq::<u8>::empty());
    if cs.len() == 0 {
        assert(seg =~= enc_record(REC_ENDLIB, Seq::<u8>::empty()));
        lemma_record_here(bytes, pos, REC_ENDLIB, Seq::<u8>::empty());
        assert(acc.cells + cs.map_values(|c: crate::cell::CellView| read_back_cell(c))
            =~= acc.cells);
        assert(LibView {
            cells: acc.cells + cs.map_values(|c: crate::cell::CellView| read_back_cell(c)),
            ..acc
        } == acc);
    } else {
        lemma_enc_cells_front(cs);
        let cv = cs[0];
        let blk = enc_cell(cv);
        let n0: int = blk.len() as int;
        lemma_slice_at(bytes, pos, seg, 0, n0);
        assert(seg.subrange(0, n0) =~= blk);
        // The leading BGNSTR record of the block.
        assert(i16_bytes(timestamp_vals()).len() == 24);
        lemma_slice_at(bytes, pos, blk, 0, 28);
        assert(blk.subrange(0, 28) =~= enc_record(REC_BGNSTR, i16_bytes(timestamp_vals())));
        lemma_record_here(bytes, pos, REC_BGNSTR, i16_bytes(timestamp_vals()));
        // The block body: name record, geometry blocks, terminator.
        assert(enc_insts(cv.instances) =~= Seq::<u8>::empty());
        lemma_slice_at(bytes, pos, blk, 28, n0);
        assert(blk.subrange(28, n0) =~= enc_record(REC_STRNAME, str_data(cv.name)) + enc_geoms(
            cv.geometries,
        ) + enc_record(REC_ENDSTR, Seq::<u8>::empty()));
        lemma_cell_body_written(bytes, pos + 28, cv);
        assert(spec_lib(bytes, pos, acc) == spec_lib(
            bytes,
            pos + n0,
            LibView { cells: acc.cells.push(read_back_cell(cv)), ..acc },
        ));
        let rest = cs.drop_first();
        lemma_slice_at(bytes, pos, seg, n0, seg.len() as int);
        assert(seg.subrange(n0, seg.len() as int) =~= enc_cells(rest) + enc_record(
            REC_ENDLIB,
            Seq::<u8>::empty(),
        ));
        assert(forall|i: int| 0 <= i < rest.len() ==> cell_simple(#[trigger] rest[i]));
        lemma_lib_written(
            bytes,
            pos + n0,
            rest,
            LibView { cells: acc.cells.push(read_back_cell(cv)), ..acc },
        );
        assert(acc.cells.push(read_back_cell(cv)) + rest.map_values(
            |c: crate::cell::CellView| read_back_cell(c),
        ) =~= acc.cells + cs.map_values(|c: crate::cell::CellView| read_back_cell(c)));
    }
}

/// A database the writer can frame is one the writer accepts.
pub proof fn lemma_simple_is_writable(d: crate::database::DbView)
    requires
        db_simple(d),
    ensures
        db_writable(d),
{
    assert forall|i: int| 0 <= i < d.cells.len() implies cell_writable(#[trigger] d.cells[i]) by {
        assert(cell_simple(d.cells[i]));
        assert forall|k: int| 0 <= k < d.cells[i].geometries.len() implies geom_writable(
            #[trigger] d.cells[i].geometries[k],
        ) by {
            assert(geom_simple(d.cells[i].geometries[k]));
        }
    }
}

/// Round-trip identity: reading back the stream written for any database
/// whose cells carry only rectangles, nonempty polygons and nonempty paths
/// within the format's bounds — no vias, no placements — restores the
/// library name and every cell's name, geometry count and per-geometry
/// layer ids, in order.
#[verifier::rlimit(100)]
#[verifier::spinoff_prover]
pub proof fn lemma_write_read_roundtrip(d: crate::database::DbView)
    requires
        db_simple(d),
    ensures
        spec_read(enc_db(d)) matches Ok(lib) && ({
            &&& lib.name == d.name
            &&& lib.cells.len() == d.cells.len()
            &&& forall|i: int|
                0 <= i < d.cells.len() ==> {
                    &&& (#[trigger] lib.cells[i]).name == d.cells[i].name
                    &&& lib.cells[i].geometries.len() == d.cells[i].geometries.len()
                    &&& lib.cells[i].instances.len() == 0
                    &&& forall|k: int|
                        0 <= k < d.cells[i].geometries.len() ==> #[trigger] view_layer_id(
                            lib.cells[i].geometries[k],
                        ) == view_layer_id(d.cells[i].geometries[k])
                }
        }),
{
    let bytes = enc_db(d);
    let h = enc_record(REC_HEADER, i16_bytes(seq![600i16]));
    let bl = enc_record(REC_BGNLIB, i16_bytes(timestamp_vals()));
    let ln = enc_record(REC_LIBNAME, str_data(d.name));
    let un = enc_record(REC_UNITS, units_data());
    let tail = enc_cells(d.cells) + enc_record(REC_ENDLIB, Seq::<u8>::empty());
    assert(h.len() == 6 && bl.len() == 28 && un.len() == 20);
    let p1: int = 6;
    let p2: int = 34;
    let p3: int = 34 + ln.len() as int;
    let p4: int = p3 + 20;
    assert(bytes.subrange(0, bytes.len() as int) =~= bytes);
    lemma_slice_at(bytes, 0, bytes, 0, p1);
    assert(bytes.subrange(0, p1) =~= h);
    lemma_record_here(bytes, 0, REC_HEADER, i16_bytes(seq![600i16]));
    assert(spec_header(bytes) == Ok::<int, ErrView>(p1));
    lemma_slice_at(bytes, 0, bytes, p1, p2);
    assert(bytes.subrange(p1, p2) =~= bl);
    lemma_record_here(bytes, p1, REC_BGNLIB, i16_bytes(timestamp_vals()));
    lemma_slice_at(bytes, 0, bytes, p2, p3);
    assert(bytes.subrange(p2, p3) =~= ln);
    assert(str_data(d.name).len() + 4 <= 0xFFFF);
    lemma_record_here(bytes, p2, REC_LIBNAME, str_data(d.name));
    lemma_name_roundtrip(d.name);
    lemma_slice_at(bytes, 0, bytes, p3, p4);
    assert(bytes.subrange(p3, p4) =~= un);
    assert(units_data().len() == 16);
    lemma_record_here(bytes, p3, REC_UNITS, units_data());
    let acc0 = LibView { name: "imported"@, cells: Seq::<ParsedCell>::empty(), units: None };
    let acc1 = LibView { name: d.name, ..acc0 };
    let us = real8s_of(units_data());
    assert(us.len() == 2);
    let acc2 = LibView { units: Some((us[0], us[1])), ..acc1 };
    assert(spec_lib(bytes, p1, acc0) == spec_lib(bytes, p2, acc0));
    assert(spec_lib(bytes, p2, acc0) == spec_lib(bytes, p3, acc1));
    assert(spec_lib(bytes, p3, acc1) == spec_lib(bytes, p4, acc2));
    lemma_slice_at(bytes, 0, bytes, p4, bytes.len() as int);
    assert(bytes.subrange(p4, bytes.len() as int) =~= tail);
    lemma_lib_written(bytes, p4, d.cells, acc2);
    let lib = spec_read(bytes)->Ok_0;
    assert(lib.cells =~= d.cells.map_values(|c: crate::cell::CellView| read_back_cell(c)));
    assert forall|i: int| 0 <= i < d.cells.len() implies {
        &&& (#[trigger] lib.cells[i]).name == d.cells[i].name
        &&& lib.cells[i].geometries.len() == d.cells[i].geometries.len()
        &&& lib.cells[i].instances.len() == 0
        &&& forall|k: int|
            0 <= k < d.cells[i].geometries.len() ==> #[trigger] view_layer_id(
                lib.cells[i].geometries[k],
            ) == view_layer_id(d.cells[i].geometries[k])
    } by {
        assert(lib.cells[i] == read_back_cell(d.cells[i]));
        assert(cell_simple(d.cells[i]));
        assert forall|k: int| 0 <= k < d.cells[i].geometries.len() implies #[trigger] view_layer_id(
            lib.cells[i].geometries[k],
        ) == view_layer_id(d.cells[i].geometries[k]) by {
            assert(geom_simple(d.cells[i].geometries[k]));
            assert(lib.cells[i].geometries[k] == read_back_geom(d.cells[i].geometries[k]));
            lemma_read_back_layer(d.cells[i].geometries[k]);
        }
    }
}

/// A read-back primitive keeps its layer.
#[verifier::rlimit(100)]
#[verifier::spinoff_prover]
proof fn lemma_read_back_layer(g: GeomView)
    requires
        geom_simple(g),
    ensures
        view_layer_id(read_back_geom(g)) == view_layer_id(g),
{
    match g {
        GeomView::Rect { layer_id, lower_left, upper_right } => {
            let xy = seq![
                clamp_i32(lower_left.x),
                clamp_i32(lower_left.y),
                clamp_i32(upper_right.x),
                clamp_i32(lower_left.y),
                clamp_i32(upper_right.x),
                clamp_i32(upper_right.y),
                clamp_i32(lower_left.x),
                clamp_i32(upper_right.y),
                clamp_i32(lower_left.x),
                clamp_i32(lower_left.y),
            ];
            let pts = xy_points(i32_bytes(xy));
            lemma_xy_repeat(xy, 0, 4);
            assert(pts.len() == 5 && pts[0] == pts[4]);
            assert(close_trimmed(pts).len() == 4);
        },
        GeomView::Polygon { layer_id, vertices } => {
            let m = vertices.len() as int;
            let xy = coords_of(vertices) + seq![
                clamp_i32(vertices[0].x),
                clamp_i32(vertices[0].y),
            ];
            let pts = xy_points(i32_bytes(xy));
            assert(xy[2 * m] == xy[0] && xy[2 * m + 1] == xy[1]);
            lemma_xy_repeat(xy, 0, m);
            assert(pts.len() == m + 1 && pts[0] == pts[m]);
            assert(close_trimmed(pts).len() == m >= 1);
        },
        GeomView::Path { .. } => {},
        GeomView::Via { .. } => {},
    }
}

/// The interleaved, clamped coordinates of a point vector.
fn coords_vec(pts: &Vec<Point>) -> (r: Vec<i32>)
    ensures
        r@ == coords_of(pts@),
{
    let mut out: Vec<i32> = Vec::new();
    let mut i: usize = 0;
    while i < pts.len()
        invariant
            0 <= i <= pts@.len(),
            out@ == coords_of(pts@.subrange(0, i as int)),
        decreases pts@.len() - i,
    {
        out.push(clamp_to_i32(pts[i].x));
        out.push(clamp_to_i32(pts[i].y));
        proof {
            assert(out@ =~= coords_of(pts@.subrange(0, i + 1)));
        }
        i = i + 1;
    }
    proof {
        assert(pts@.subrange(0, pts@.len() as int) =~= pts@);
    }
    out
}

} // verus!
